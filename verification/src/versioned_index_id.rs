//! Packed (index, version) handles.
//!
//! A handle is one `u32` split into a low *index* field and a high *version*
//! field.  The index addresses a slot in a storage; the version distinguishes
//! successive uses of the same slot, so a handle kept across a free/reserve
//! cycle compares unequal to the reissued one.
use vstd::prelude::*;

verus! {

use vstd::arithmetic::div_mod::{lemma_fundamental_div_mod, lemma_fundamental_div_mod_converse};

/// Bits of a handle that hold the slot index.
pub const INDEX_BITS: u32 = 24;

/// Bits of a handle that hold the generation.
pub const VERSION_BITS: u32 = 8;

/// Number of distinct indices: 2^24.
pub const NUM_INDICES: u32 = 16777216;

/// Largest index: 2^24 - 1.
pub const MAX_INDEX: u32 = 16777215;

/// Number of distinct versions: 2^8.
pub const NUM_VERSIONS: u32 = 256;

/// Largest version: 2^8 - 1.
pub const MAX_VERSION: u32 = 255;

/// A versioned index id packed into one `u32`: `index + version * NUM_INDICES`.
#[derive(Debug, Copy, Clone, PartialEq, Eq, Hash, Structural)]
pub struct StandardVersionedIndexId {
    id: u32,
}

impl StandardVersionedIndexId {
    /// The raw packed representation.
    pub closed spec fn spec_id(self) -> u32 {
        self.id
    }

    /// The index field of the handle.
    pub closed spec fn spec_index(self) -> int {
        self.id as int % 16777216
    }

    /// The version field of the handle.
    pub closed spec fn spec_version(self) -> int {
        self.id as int / 16777216
    }

    /// Every handle's fields lie in range.
    pub proof fn lemma_fields_in_range(self)
        ensures
            0 <= self.spec_index() <= MAX_INDEX,
            0 <= self.spec_version() <= MAX_VERSION,
    {
        assert(0 <= self.id < 4294967296);
        assert(self.id as int % 16777216 < 16777216);
        assert(self.id as int / 16777216 <= 255) by {
            lemma_fundamental_div_mod(self.id as int, 16777216);
        }
    }

    /// Ambient form of the field bounds, keyed on any mention of a handle's
    /// index field.
    pub broadcast proof fn lemma_index_bounds(id: StandardVersionedIndexId)
        ensures
            0 <= #[trigger] id.spec_index() <= MAX_INDEX,
            0 <= id.spec_version() <= MAX_VERSION,
    {
        id.lemma_fields_in_range();
    }

    /// Two handles are equal exactly when both fields agree.
    pub proof fn lemma_eq_fields(a: Self, b: Self)
        ensures
            (a == b) <==> (a.spec_index() == b.spec_index() && a.spec_version()
                == b.spec_version()),
    {
        lemma_fundamental_div_mod(a.id as int, 16777216);
        lemma_fundamental_div_mod(b.id as int, 16777216);
    }

    /// Builds the handle `index + version * NUM_INDICES`.
    pub fn from_index_and_version(index: usize, version: usize) -> (r: Self)
        requires
            index <= MAX_INDEX,
            version <= MAX_VERSION,
        ensures
            r.spec_index() == index,
            r.spec_version() == version,
    {
        let id: u32 = index as u32 + version as u32 * NUM_INDICES;
        proof {
            lemma_fundamental_div_mod_converse(
                id as int,
                16777216,
                version as int,
                index as int,
            );
        }
        Self { id }
    }

    /// Builds the handle for `index` with version 0.
    pub fn from_index(index: usize) -> (r: Self)
        requires
            index <= MAX_INDEX,
        ensures
            r.spec_index() == index,
            r.spec_version() == 0,
    {
        Self::from_index_and_version(index, 0)
    }

    /// The raw packed representation, reinterpreted as `i32`.
    #[verifier::truncate]
    pub fn id(&self) -> (r: i32)
        ensures
            r == self.spec_id() as i32,
    {
        self.id as i32
    }

    /// Extracts the version field.
    pub fn version(&self) -> (r: usize)
        ensures
            r == self.spec_version(),
    {
        proof {
            self.lemma_fields_in_range();
        }
        (self.id / NUM_INDICES) as usize
    }

    /// Extracts the index field.
    pub fn index(&self) -> (r: usize)
        ensures
            r == self.spec_index(),
    {
        proof {
            self.lemma_fields_in_range();
        }
        (self.id % NUM_INDICES) as usize
    }

    /// The handle with the same index and the next version, wrapping at
    /// `NUM_VERSIONS`.
    pub fn next_version_id(&self) -> (r: Self)
        ensures
            r.spec_index() == self.spec_index(),
            r.spec_version() == (self.spec_version() + 1) % 256,
    {
        proof {
            self.lemma_fields_in_range();
        }
        Self::from_index_and_version(self.index(), (self.version() + 1) % NUM_VERSIONS as usize)
    }
}

/// The operations every versioned index id space offers.  All spaces in this
/// crate share the packed representation of [`StandardVersionedIndexId`] but
/// are used as nominally distinct aliases.
pub trait VersionedIndexId: Sized + Copy {
    /// The index field.
    spec fn view_index(self) -> int;

    /// The version field.
    spec fn view_version(self) -> int;

    /// Builds a handle from both fields.
    fn make(index: usize, version: usize) -> (r: Self)
        requires
            index <= MAX_INDEX,
            version <= MAX_VERSION,
        ensures
            r.view_index() == index,
            r.view_version() == version,
    ;

    /// Extracts the index field.
    fn get_index(&self) -> (r: usize)
        ensures
            r == self.view_index(),
    ;

    /// Extracts the version field.
    fn get_version(&self) -> (r: usize)
        ensures
            r == self.view_version(),
    ;

    /// The same index with the next version, wrapping.
    fn bump_version(&self) -> (r: Self)
        ensures
            r.view_index() == self.view_index(),
            r.view_version() == (self.view_version() + 1) % 256,
    ;
}

impl VersionedIndexId for StandardVersionedIndexId {
    open spec fn view_index(self) -> int {
        self.spec_index()
    }

    open spec fn view_version(self) -> int {
        self.spec_version()
    }

    fn make(index: usize, version: usize) -> (r: Self) {
        Self::from_index_and_version(index, version)
    }

    fn get_index(&self) -> (r: usize) {
        self.index()
    }

    fn get_version(&self) -> (r: usize) {
        self.version()
    }

    fn bump_version(&self) -> (r: Self) {
        self.next_version_id()
    }
}

} // verus!
