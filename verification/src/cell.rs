//! Cells: the entries stored in a page's body.
//!
//! A leaf cell carries a record (overflow flag, key, value bytes); an
//! internal cell carries a separator key and a child page number.
use crate::codec::{u64_from_be, u64_from_be_array, u64_to_be, u64_to_be_array};
use crate::layout::{INTERNAL_CELL_SIZE, INTERNAL_KEY_SIZE};
use crate::page::bool_to_u8;
use vstd::prelude::*;

verus! {

/// A record held by a leaf page.
#[derive(Debug)]
pub struct LeafCell {
    /// Whether the value continues on an overflow page.
    pub overflow: bool,
    /// The record's unique key.
    pub identifier: u64,
    /// The record's value bytes.
    pub content: Vec<u8>,
}

/// A separator entry held by an internal page.
#[derive(Debug)]
pub struct InternalCell {
    /// The separator key: the child covers keys up to and including it.
    pub key: u64,
    /// The child page number, as big-endian bytes.
    pub pointer: [u8; 8],
}

/// What leaf and internal cells have in common: a key to sort under and
/// serialized content bytes.
pub trait Cell: Sized {
    /// The key under which the cell sorts.
    spec fn spec_key(&self) -> u64;

    /// The cell's serialized content: the value bytes of a leaf cell,
    /// the sixteen body bytes of an internal cell.
    spec fn spec_content(&self) -> Seq<u8>;

    /// Whether the cell's value continues on an overflow page.
    spec fn spec_overflow(&self) -> bool;

    /// Which content byte strings `set_content` accepts.
    spec fn content_ok(c: Seq<u8>) -> bool;

    fn get_key(&self) -> (r: u64)
        ensures
            r == self.spec_key(),
    ;

    fn get_key_bytes(&self) -> (r: Vec<u8>);

    fn get_content(&self) -> (r: Vec<u8>)
        ensures
            r@ == self.spec_content(),
    ;

    fn get_overflow(&self) -> (r: bool)
        ensures
            r == self.spec_overflow(),
    ;

    fn set_content(&mut self, c: Vec<u8>)
        requires
            Self::content_ok(c@),
    ;
}

impl InternalCell {
    pub fn new(key: u64, pointer: [u8; 8]) -> (r: Self)
        ensures
            r.key == key,
            r.pointer@ == pointer@,
    {
        Self { key, pointer }
    }

    /// The separator key.
    pub fn key(&self) -> (r: u64)
        ensures
            r == self.key,
    {
        self.key
    }

    /// The child page number the cell points at.
    pub fn pointer(&self) -> (r: u64)
        ensures
            r == u64_from_be(self.pointer@),
    {
        u64_from_be_array(&self.pointer)
    }
}

impl LeafCell {
    pub fn new(id: u64, content: Vec<u8>, overflow: bool) -> (r: Self)
        ensures
            r.identifier == id,
            r.content@ == content@,
            r.overflow == overflow,
    {
        Self { identifier: id, content, overflow }
    }

    /// Returns the size of the cell's contents, excluding the flag and
    /// the identifier.
    pub fn content_size(&self) -> (r: usize)
        ensures
            r == self.content@.len(),
    {
        self.content.len()
    }

    /// Returns whether the cell has an overflow.
    pub fn has_overflow(&self) -> (r: bool)
        ensures
            r == self.overflow,
    {
        self.overflow
    }

    /// Returns the identifier of a leaf cell.
    pub fn identifier(&self) -> (r: u64)
        ensures
            r == self.identifier,
    {
        self.identifier
    }
}

impl Cell for InternalCell {
    open spec fn spec_key(&self) -> u64 {
        self.key
    }

    open spec fn spec_content(&self) -> Seq<u8> {
        u64_to_be(self.key) + self.pointer@
    }

    open spec fn spec_overflow(&self) -> bool {
        false
    }

    open spec fn content_ok(c: Seq<u8>) -> bool {
        c.len() == INTERNAL_CELL_SIZE
    }

    fn get_key(&self) -> (r: u64) {
        self.key()
    }

    fn get_key_bytes(&self) -> (r: Vec<u8>)
        ensures
            r@ == u64_to_be(self.key),
    {
        let arr = u64_to_be_array(self.key);
        let mut out: Vec<u8> = Vec::new();
        let mut i: usize = 0;
        while i < 8
            invariant
                i <= 8,
                arr@ == u64_to_be(self.key),
                out@ == arr@.subrange(0, i as int),
            decreases 8 - i,
        {
            out.push(arr[i]);
            proof {
                assert(out@ =~= arr@.subrange(0, i + 1));
            }
            i = i + 1;
        }
        proof {
            assert(arr@.subrange(0, 8) =~= arr@);
        }
        out
    }

    fn get_content(&self) -> (r: Vec<u8>) {
        let key_arr = u64_to_be_array(self.key);
        let mut out: Vec<u8> = Vec::new();
        let mut i: usize = 0;
        while i < 8
            invariant
                i <= 8,
                key_arr@ == u64_to_be(self.key),
                out@ == key_arr@.subrange(0, i as int),
            decreases 8 - i,
        {
            out.push(key_arr[i]);
            proof {
                assert(out@ =~= key_arr@.subrange(0, i + 1));
            }
            i = i + 1;
        }
        let mut j: usize = 0;
        while j < 8
            invariant
                j <= 8,
                key_arr@ == u64_to_be(self.key),
                out@ == key_arr@.subrange(0, 8) + self.pointer@.subrange(0, j as int),
            decreases 8 - j,
        {
            out.push(self.pointer[j]);
            proof {
                assert(out@ =~= key_arr@.subrange(0, 8) + self.pointer@.subrange(0, j + 1));
            }
            j = j + 1;
        }
        proof {
            assert(key_arr@.subrange(0, 8) =~= u64_to_be(self.key));
            assert(self.pointer@.subrange(0, 8) =~= self.pointer@);
        }
        out
    }

    fn get_overflow(&self) -> (r: bool) {
        false
    }

    fn set_content(&mut self, c: Vec<u8>)
        ensures
            final(self).key == u64_from_be(c@.subrange(0, INTERNAL_KEY_SIZE as int)),
            final(self).pointer@ == c@.subrange(INTERNAL_KEY_SIZE as int, INTERNAL_CELL_SIZE as int),
    {
        let key = crate::codec::read_u64_at(&c, 0);
        let mut ptr: [u8; 8] = [0u8, 0u8, 0u8, 0u8, 0u8, 0u8, 0u8, 0u8];
        let mut i: usize = 0;
        while i < 8
            invariant
                i <= 8,
                c@.len() == INTERNAL_CELL_SIZE,
                ptr@.len() == 8,
                forall|j: int| 0 <= j < i ==> ptr@[j] == c@[INTERNAL_KEY_SIZE + j],
            decreases 8 - i,
        {
            ptr[i] = c[INTERNAL_KEY_SIZE + i];
            i = i + 1;
        }
        proof {
            assert(ptr@ =~= c@.subrange(INTERNAL_KEY_SIZE as int, INTERNAL_CELL_SIZE as int));
            assert(c@.subrange(0, 8) =~= c@.subrange(0, INTERNAL_KEY_SIZE as int));
        }
        self.key = key;
        self.pointer = ptr;
    }
}

impl Cell for LeafCell {
    open spec fn spec_key(&self) -> u64 {
        self.identifier
    }

    open spec fn spec_content(&self) -> Seq<u8> {
        self.content@
    }

    open spec fn spec_overflow(&self) -> bool {
        self.overflow
    }

    open spec fn content_ok(c: Seq<u8>) -> bool {
        true
    }

    fn get_key(&self) -> (r: u64) {
        self.identifier()
    }

    fn get_key_bytes(&self) -> (r: Vec<u8>)
        ensures
            r@ == seq![
                if self.overflow {
                    1u8
                } else {
                    0u8
                },
            ] + u64_to_be(self.identifier),
    {
        let mut out: Vec<u8> = Vec::new();
        out.push(bool_to_u8(self.overflow));
        let key_arr = u64_to_be_array(self.identifier);
        let mut i: usize = 0;
        while i < 8
            invariant
                i <= 8,
                key_arr@ == u64_to_be(self.identifier),
                out@ == seq![
                    if self.overflow {
                        1u8
                    } else {
                        0u8
                    },
                ] + key_arr@.subrange(0, i as int),
            decreases 8 - i,
        {
            out.push(key_arr[i]);
            proof {
                assert(out@ =~= seq![
                    if self.overflow {
                        1u8
                    } else {
                        0u8
                    },
                ] + key_arr@.subrange(0, i + 1));
            }
            i = i + 1;
        }
        proof {
            assert(key_arr@.subrange(0, 8) =~= key_arr@);
        }
        out
    }

    fn get_content(&self) -> (r: Vec<u8>) {
        crate::codec::read_bytes_at(&self.content, 0, self.content.len())
    }

    fn get_overflow(&self) -> (r: bool) {
        self.overflow
    }

    fn set_content(&mut self, c: Vec<u8>)
        ensures
            final(self).content@ == c@,
            final(self).identifier == old(self).identifier,
            final(self).overflow == old(self).overflow,
    {
        self.content = c;
    }
}

impl Default for InternalCell {
    /// A placeholder cell carrying the sentinel key.
    fn default() -> (r: Self)
        ensures
            r.key == u64::MAX,
            r.pointer@ == u64_to_be(u64::MAX),
    {
        Self { key: u64::MAX, pointer: u64_to_be_array(u64::MAX) }
    }
}

impl Default for LeafCell {
    /// A placeholder cell carrying the sentinel key and no content.
    fn default() -> (r: Self)
        ensures
            !r.overflow,
            r.identifier == u64::MAX,
            r.content@ == Seq::<u8>::empty(),
    {
        Self { overflow: false, identifier: u64::MAX, content: Vec::new() }
    }
}

} // verus!
