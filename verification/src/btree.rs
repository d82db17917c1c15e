//! B+-tree node algorithms: typed operations on the bytes of one page.
//!
//! A [`Node`] wraps one page and knows how to read its header fields,
//! binary-search for a key, insert a cell, detect fullness, and split
//! itself into a sibling.
use crate::cell::{Cell, InternalCell, LeafCell};
use crate::codec::{
    lemma_frame_subrange, lemma_u64_be_round_trip, read_bytes_at, read_u64_at, u64_from_be,
    u64_to_be, u64_to_be_array, write_u64_at, write_u8_at,
};
use crate::layout::{
    INTERNAL_CELL_SIZE, INTERNAL_HEADER_SIZE, INTERNAL_KEY_POINTER_SIZE, INTERNAL_KEY_SIZE,
    INTERNAL_MAX_KEYS, INTERNAL_NUM_KEYS_OFFSET, INTERNAL_RIGHT_MOST_CHILD_OFFSET,
    INTERNAL_SPACE_FOR_CELLS,
    LEAF_CONTENT_LEN_SIZE, LEAF_FREE_SPACE_END_OFFSET, LEAF_FREE_SPACE_START_OFFSET,
    LEAF_HEADER_SIZE, LEAF_KEY_CELL_SIZE, LEAF_KEY_IDENTIFIER_OFFSET, LEAF_KEY_POINTER_OFFSET,
    LEAF_NEXT_SIBLING_POINTER_DEFAULT, LEAF_NEXT_SIBLING_POINTER_OFFSET, LEAF_NUM_KEYS_OFFSET,
    LEAF_OVERFLOW_POINTER_DEFAULT, LEAF_OVERFLOW_POINTER_OFFSET, PAGE_IS_ROOT_OFFSET,
    PAGE_KIND_INTERNAL, PAGE_KIND_LEAF, PAGE_MAGIC, PAGE_MAGIC_OFFSET, PAGE_SIZE,
    PAGE_TYPE_OFFSET,
};
use crate::page::{
    bool_to_u8, int_cell_pos, int_key, int_keys, int_n, int_ptr, int_ptrs, int_right, int_wf,
    leaf_blob_size, leaf_blob_total, leaf_content, leaf_flag, leaf_flags, leaf_fse, leaf_fss,
    leaf_key, leaf_keys, leaf_len, leaf_n, leaf_next_raw, leaf_overflow_raw, leaf_ptr,
    leaf_slot_pos, leaf_slot_wf, leaf_vals, leaf_wf, lemma_int_header_frame,
    lemma_leaf_header_frame, page_kind_byte, page_magic, page_root_byte, page_type_byte, page_wf,
    u8_to_bool, CachedPage, Page, PageType,
};
use vstd::prelude::*;

verus! {

broadcast use crate::layout::lemma_mul_leaf_cell_size, crate::layout::lemma_mul_internal_cell_size;

/// Possible result types that can be returned by [`Node`] operations.
#[derive(Debug)]
pub enum NodeResult {
    /// Returned when a node is full and requires a split action to be
    /// performed.
    IsFull,
    /// Returned when a node has an overflow.
    ///
    /// Carries the remaining content that needs to be written.
    HasOverflow(Vec<u8>),
    /// Returned when trying to read a node with invalid page content.
    InvalidPage { desc: String },
    /// Returned when trying to insert a duplicate key.
    DuplicateKey,
    /// Returned when the identifier given for an operation does not
    /// exist.
    KeyDoesNotExist,
}

impl NodeResult {
    /// A short human-readable description of the result.
    pub fn to_message(&self) -> (r: String)
        ensures
            self matches NodeResult::IsFull ==> r@ == "node is currently full"@,
            self matches NodeResult::HasOverflow(_) ==> r@ == "node has overflow"@,
            self matches NodeResult::InvalidPage { .. } ==> r@ == "invalid page"@,
            self matches NodeResult::DuplicateKey ==> r@ == "duplicate key"@,
            self matches NodeResult::KeyDoesNotExist ==> r@ == "key does not exist"@,
    {
        match self {
            Self::IsFull => "node is currently full".to_string(),
            Self::HasOverflow(_) => "node has overflow".to_string(),
            Self::InvalidPage { desc: _ } => "invalid page".to_string(),
            Self::DuplicateKey => "duplicate key".to_string(),
            Self::KeyDoesNotExist => "key does not exist".to_string(),
        }
    }
}

// ------------------------------------------------------------------
// Search specification.
// ------------------------------------------------------------------
/// How many entries of `ks` are below `key`. On a sorted sequence this
/// is the lower-bound insertion index.
pub open spec fn count_lt(ks: Seq<u64>, key: u64) -> int
    decreases ks.len(),
{
    if ks.len() == 0 {
        0
    } else {
        count_lt(ks.drop_last(), key) + if ks.last() < key {
            1int
        } else {
            0int
        }
    }
}

/// On a strictly sorted sequence, `count_lt` splits the sequence into a
/// strictly-below prefix and an at-or-above suffix.
pub proof fn lemma_count_lt_sorted(ks: Seq<u64>, key: u64)
    requires
        forall|i: int, j: int| 0 <= i < j < ks.len() ==> ks[i] < ks[j],
    ensures
        0 <= count_lt(ks, key) <= ks.len(),
        forall|i: int| 0 <= i < count_lt(ks, key) ==> ks[i] < key,
        forall|i: int| count_lt(ks, key) <= i < ks.len() ==> ks[i] >= key,
    decreases ks.len(),
{
    if ks.len() > 0 {
        let prefix = ks.drop_last();
        assert forall|i: int, j: int| 0 <= i < j < prefix.len() implies prefix[i] < prefix[j] by {
            assert(prefix[i] == ks[i]);
            assert(prefix[j] == ks[j]);
        }
        lemma_count_lt_sorted(prefix, key);
        let c = count_lt(prefix, key);
        if ks.last() < key {
            assert(c == prefix.len()) by {
                if c < prefix.len() {
                    assert(prefix[c] >= key);
                    assert(prefix[c] == ks[c]);
                    assert(ks[c] < ks[ks.len() - 1]);
                }
            }
        }
        assert forall|i: int| 0 <= i < count_lt(ks, key) implies ks[i] < key by {
            if i < prefix.len() {
                assert(prefix[i] == ks[i]);
            }
        }
        assert forall|i: int| count_lt(ks, key) <= i < ks.len() implies ks[i] >= key by {
            if i < prefix.len() {
                assert(prefix[i] == ks[i]);
            }
        }
    }
}

/// On a strictly sorted sequence, the lower bound of an element is its
/// own position.
pub proof fn lemma_count_lt_pinpoint(ks: Seq<u64>, i: int)
    requires
        forall|x: int, y: int| 0 <= x < y < ks.len() ==> ks[x] < ks[y],
        0 <= i < ks.len(),
    ensures
        count_lt(ks, ks[i]) == i,
{
    lemma_count_lt_sorted(ks, ks[i]);
    let c = count_lt(ks, ks[i]);
    if c < i {
        assert(ks[c] >= ks[i]);
        assert(ks[c] < ks[i]);
    }
    if c > i {
        assert(ks[i] < ks[i]);
    }
}

// ------------------------------------------------------------------
// Kind-independent accessors over page bytes.
// ------------------------------------------------------------------
/// The number of cells a page holds, whatever its kind.
pub open spec fn node_n(s: Seq<u8>) -> u64 {
    if page_kind_byte(s) == PAGE_KIND_LEAF {
        leaf_n(s)
    } else {
        int_n(s)
    }
}

/// The key of cell `i`, whatever the page's kind.
pub open spec fn node_key_at(s: Seq<u8>, i: int) -> u64 {
    if page_kind_byte(s) == PAGE_KIND_LEAF {
        leaf_key(s, i)
    } else {
        int_key(s, i)
    }
}

/// The keys of a page, in cell order, whatever its kind.
pub open spec fn node_keys(s: Seq<u8>) -> Seq<u64> {
    if page_kind_byte(s) == PAGE_KIND_LEAF {
        leaf_keys(s)
    } else {
        int_keys(s)
    }
}

/// Whether some cell of the page carries `key`.
pub open spec fn node_has_key(s: Seq<u8>, key: u64) -> bool {
    exists|i: int| 0 <= i < node_n(s) && node_key_at(s, i) == key
}

/// The internal cell region never runs past the end of the page.
pub proof fn lemma_internal_capacity()
    ensures
        INTERNAL_HEADER_SIZE + INTERNAL_MAX_KEYS * INTERNAL_CELL_SIZE <= PAGE_SIZE,
        INTERNAL_MAX_KEYS == 254,
{
    vstd::arithmetic::div_mod::lemma_fundamental_div_mod(
        INTERNAL_SPACE_FOR_CELLS as int,
        INTERNAL_CELL_SIZE as int,
    );
    vstd::arithmetic::div_mod::lemma_mod_bound(
        INTERNAL_SPACE_FOR_CELLS as int,
        INTERNAL_CELL_SIZE as int,
    );
    let q = INTERNAL_SPACE_FOR_CELLS as int / INTERNAL_CELL_SIZE as int;
    assert(INTERNAL_CELL_SIZE == 16);
    assert(INTERNAL_CELL_SIZE as int * q == 16 * q);
    assert(INTERNAL_SPACE_FOR_CELLS as int == 16 * q + INTERNAL_SPACE_FOR_CELLS as int
        % INTERNAL_CELL_SIZE as int);
}

// ------------------------------------------------------------------
// Runtime validation of page bytes.
// ------------------------------------------------------------------
/// Checks every structural invariant of a leaf page body.
fn validate_leaf(b: &Vec<u8>) -> (ok: bool)
    requires
        b@.len() == PAGE_SIZE,
        page_kind_byte(b@) == PAGE_KIND_LEAF,
        page_magic(b@) == PAGE_MAGIC,
    ensures
        ok == leaf_wf(b@),
{
    let root = b[PAGE_IS_ROOT_OFFSET];
    if root > 1 {
        return false;
    }
    let n = read_u64_at(b, LEAF_NUM_KEYS_OFFSET);
    let fss = read_u64_at(b, LEAF_FREE_SPACE_START_OFFSET);
    let fse = read_u64_at(b, LEAF_FREE_SPACE_END_OFFSET);
    if !(LEAF_HEADER_SIZE as u64 <= fss && fss <= fse && fse <= PAGE_SIZE as u64) {
        return false;
    }
    if n > PAGE_SIZE as u64 {
        return false;
    }
    if fss - (LEAF_HEADER_SIZE as u64) != n * (LEAF_KEY_CELL_SIZE as u64) {
        return false;
    }
    proof {
        assert(LEAF_HEADER_SIZE + leaf_n(b@) * LEAF_KEY_CELL_SIZE <= PAGE_SIZE);
    }
    let nn = n as usize;
    let mut i: usize = 0;
    let mut total: u64 = 0;
    while i < nn
        invariant
            b@.len() == PAGE_SIZE,
            nn as int == leaf_n(b@) as int,
            LEAF_HEADER_SIZE + nn * LEAF_KEY_CELL_SIZE <= PAGE_SIZE,
            fse == leaf_fse(b@),
            fse as int <= PAGE_SIZE as int,
            i <= nn,
            total == leaf_blob_total(b@, i as int),
            total as int <= PAGE_SIZE as int,
            forall|j: int| 0 <= j < i ==> leaf_slot_wf(b@, j),
        decreases nn - i,
    {
        let slot = LEAF_HEADER_SIZE + i * LEAF_KEY_CELL_SIZE;
        proof {
            assert(LEAF_HEADER_SIZE + (i + 1) * LEAF_KEY_CELL_SIZE <= PAGE_SIZE);
        }
        let flag = b[slot];
        if flag > 1 {
            assert(!leaf_slot_wf(b@, i as int));
            return false;
        }
        let ptr = read_u64_at(b, slot + LEAF_KEY_POINTER_OFFSET);
        if ptr < fse || ptr > (PAGE_SIZE - LEAF_CONTENT_LEN_SIZE) as u64 {
            assert(!leaf_slot_wf(b@, i as int));
            return false;
        }
        let len = read_u64_at(b, ptr as usize);
        if len > (PAGE_SIZE as u64) - (LEAF_CONTENT_LEN_SIZE as u64) - ptr {
            assert(!leaf_slot_wf(b@, i as int));
            return false;
        }
        assert(leaf_slot_wf(b@, i as int));
        total = total + (LEAF_CONTENT_LEN_SIZE as u64) + len;
        i = i + 1;
        if total > PAGE_SIZE as u64 {
            proof {
                if leaf_wf(b@) {
                    crate::page::lemma_blob_total_mono(b@, i as int, nn as int);
                }
            }
            return false;
        }
    }
    if (PAGE_SIZE as u64) - fse != total {
        return false;
    }
    let mut k: usize = 1;
    while k < nn
        invariant
            b@.len() == PAGE_SIZE,
            nn as int == leaf_n(b@) as int,
            LEAF_HEADER_SIZE + nn * LEAF_KEY_CELL_SIZE <= PAGE_SIZE,
            1 <= k || nn == 0,
            k <= nn || nn <= 1,
            forall|x: int, y: int| 0 <= x < y < k ==> leaf_key(b@, x) < leaf_key(b@, y),
        decreases nn - k,
    {
        proof {
            assert(LEAF_HEADER_SIZE + (k + 1) * LEAF_KEY_CELL_SIZE <= PAGE_SIZE);
        }
        let prev = read_u64_at(b, LEAF_HEADER_SIZE + (k - 1) * LEAF_KEY_CELL_SIZE
            + LEAF_KEY_IDENTIFIER_OFFSET);
        let cur = read_u64_at(b, LEAF_HEADER_SIZE + k * LEAF_KEY_CELL_SIZE
            + LEAF_KEY_IDENTIFIER_OFFSET);
        proof {
            assert(prev == leaf_key(b@, k - 1));
            assert(cur == leaf_key(b@, k as int));
        }
        if prev >= cur {
            return false;
        }
        proof {
            assert forall|x: int| 0 <= x < k implies leaf_key(b@, x) < leaf_key(
                b@,
                k as int,
            ) by {
                if x < k - 1 {
                    assert(leaf_key(b@, x) < leaf_key(b@, k - 1));
                }
            }
        }
        k = k + 1;
    }
    true
}

/// Checks every structural invariant of an internal page body.
fn validate_internal(b: &Vec<u8>) -> (ok: bool)
    requires
        b@.len() == PAGE_SIZE,
        page_kind_byte(b@) == PAGE_KIND_INTERNAL,
        page_magic(b@) == PAGE_MAGIC,
    ensures
        ok == int_wf(b@),
{
    let root = b[PAGE_IS_ROOT_OFFSET];
    if root > 1 {
        return false;
    }
    let n = read_u64_at(b, INTERNAL_NUM_KEYS_OFFSET);
    proof {
        lemma_internal_capacity();
    }
    if n > INTERNAL_MAX_KEYS as u64 {
        return false;
    }
    let right = read_u64_at(b, INTERNAL_RIGHT_MOST_CHILD_OFFSET);
    if n > 0 && right == 0 {
        return false;
    }
    let nn = n as usize;
    let mut i: usize = 0;
    while i < nn
        invariant
            b@.len() == PAGE_SIZE,
            nn as int == int_n(b@) as int,
            nn as int <= INTERNAL_MAX_KEYS as int,
            INTERNAL_HEADER_SIZE + INTERNAL_MAX_KEYS * INTERNAL_CELL_SIZE <= PAGE_SIZE,
            i <= nn,
            forall|j: int| 0 <= j < i ==> int_ptr(b@, j) != 0,
            forall|x: int, y: int| 0 <= x < y < i ==> int_key(b@, x) < int_key(b@, y),
        decreases nn - i,
    {
        proof {
            assert(INTERNAL_HEADER_SIZE + (i + 1) * INTERNAL_CELL_SIZE <= PAGE_SIZE);
        }
        let pos = INTERNAL_HEADER_SIZE + i * INTERNAL_CELL_SIZE;
        let ptr = read_u64_at(b, pos + INTERNAL_KEY_POINTER_SIZE);
        if ptr == 0 {
            assert(int_ptr(b@, i as int) == 0);
            return false;
        }
        if i > 0 {
            let prev = read_u64_at(b, pos - INTERNAL_CELL_SIZE);
            let cur = read_u64_at(b, pos);
            proof {
                assert(prev == int_key(b@, i - 1));
                assert(cur == int_key(b@, i as int));
            }
            if prev >= cur {
                return false;
            }
            proof {
                assert forall|x: int| 0 <= x < i implies int_key(b@, x) < int_key(
                    b@,
                    i as int,
                ) by {
                    if x < i - 1 {
                        assert(int_key(b@, x) < int_key(b@, i - 1));
                    }
                }
            }
        }
        i = i + 1;
    }
    true
}

/// Checks that a byte block is a well-formed page of either kind.
pub fn validate_page(p: &Page) -> (ok: bool)
    ensures
        ok == page_wf(p@),
{
    if p.0.len() != PAGE_SIZE {
        return false;
    }
    let magic = read_u64_at(&p.0, PAGE_MAGIC_OFFSET);
    if magic != PAGE_MAGIC {
        return false;
    }
    let kind = p.0[PAGE_TYPE_OFFSET];
    if kind == PAGE_KIND_LEAF {
        validate_leaf(&p.0)
    } else if kind == PAGE_KIND_INTERNAL {
        validate_internal(&p.0)
    } else {
        false
    }
}

// ------------------------------------------------------------------
// The node itself.
// ------------------------------------------------------------------
/// In-memory representation of a page.
///
/// This structure is used to manipulate page contents in memory.
pub struct Node {
    /// The page the node operates on.
    pub page: Page,
    /// Cached cell count, kept equal to the count stored in the page.
    pub keys: u64,
    /// Cached page kind, kept equal to the kind byte of the page.
    pub kind: PageType,
}

impl Node {
    /// The node's cached state agrees with its page bytes and the page
    /// is well formed.
    pub open spec fn inv(&self) -> bool {
        &&& page_wf(self.page@)
        &&& page_kind_byte(self.page@) == page_type_byte(self.kind)
        &&& self.keys == node_n(self.page@)
    }

    /// Creates a new [`Node`] wrapper around a [`CachedPage`], after
    /// validating the page bytes.
    ///
    /// Validation is the full structural check, not just the kind tag:
    /// a page that decodes but breaks any layout invariant is refused
    /// here with `InvalidPage`, which the host treats as fatal.
    pub fn load(page: CachedPage) -> (r: Result<Self, NodeResult>)
        ensures
            page_wf(page@) ==> (r matches Ok(n) && n.inv() && n.page@ == page@),
            !page_wf(page@) ==> (r matches Err(e) && e matches NodeResult::InvalidPage { .. }),
    {
        if !validate_page(&page.0) {
            return Err(NodeResult::InvalidPage { desc: "page failed validation".to_string() });
        }
        let kind_byte = page.0.0[PAGE_TYPE_OFFSET];
        let kind = if kind_byte == PAGE_KIND_LEAF {
            PageType::Leaf
        } else {
            PageType::Internal
        };
        let keys = if kind_byte == PAGE_KIND_LEAF {
            read_u64_at(&page.0.0, LEAF_NUM_KEYS_OFFSET)
        } else {
            read_u64_at(&page.0.0, INTERNAL_NUM_KEYS_OFFSET)
        };
        Ok(Node { page: page.0, keys, kind })
    }

    /// The page's kind.
    pub fn node_type(&self) -> (r: PageType)
        requires
            self.inv(),
        ensures
            r == self.kind,
    {
        self.kind
    }

    /// Whether the page carries the root flag.
    pub fn is_root(&self) -> (r: bool)
        requires
            self.inv(),
        ensures
            r == (page_root_byte(self.page@) == 1),
    {
        let byte = self.page.0[PAGE_IS_ROOT_OFFSET];
        match u8_to_bool(byte) {
            Ok(v) => v,
            Err(_) => {
                proof {
                    assert(false);
                }
                false
            },
        }
    }

    /// Sets or clears the page's root flag.
    pub fn set_is_root(&mut self, val: bool)
        requires
            old(self).inv(),
        ensures
            final(self).inv(),
            final(self).kind == old(self).kind,
            final(self).keys == old(self).keys,
            final(self).page@ == old(self).page@.update(
                PAGE_IS_ROOT_OFFSET as int,
                if val {
                    1u8
                } else {
                    0u8
                },
            ),
    {
        let b = bool_to_u8(val);
        let ghost s_old = self.page@;
        write_u8_at(&mut self.page.0, PAGE_IS_ROOT_OFFSET, b);
        proof {
            let s_new = self.page@;
            lemma_frame_subrange(s_old, s_new, PAGE_MAGIC_OFFSET as int, PAGE_MAGIC_OFFSET + 8);
            if page_kind_byte(s_old) == PAGE_KIND_LEAF {
                lemma_leaf_header_frame(
                    s_old,
                    s_new,
                    PAGE_IS_ROOT_OFFSET as int,
                    PAGE_IS_ROOT_OFFSET + 1,
                );
            } else {
                lemma_int_header_frame(
                    s_old,
                    s_new,
                    PAGE_IS_ROOT_OFFSET as int,
                    PAGE_IS_ROOT_OFFSET + 1,
                );
            }
        }
    }

    /// The leaf's overflow-page pointer, if one is set.
    pub fn overflow_pointer(&self) -> (r: Option<u64>)
        requires
            self.inv(),
            self.kind == PageType::Leaf,
        ensures
            leaf_overflow_raw(self.page@) == LEAF_OVERFLOW_POINTER_DEFAULT ==> r is None,
            leaf_overflow_raw(self.page@) != LEAF_OVERFLOW_POINTER_DEFAULT ==> r == Some(
                leaf_overflow_raw(self.page@),
            ),
    {
        let v = read_u64_at(&self.page.0, LEAF_OVERFLOW_POINTER_OFFSET);
        if v == LEAF_OVERFLOW_POINTER_DEFAULT {
            None
        } else {
            Some(v)
        }
    }

    /// The leaf's next-sibling pointer, if one is set. Internal pages
    /// have no siblings.
    pub fn next_sibling(&self) -> (r: Option<u64>)
        requires
            self.inv(),
        ensures
            self.kind == PageType::Internal ==> r is None,
            self.kind == PageType::Leaf && leaf_next_raw(self.page@)
                == LEAF_NEXT_SIBLING_POINTER_DEFAULT ==> r is None,
            self.kind == PageType::Leaf && leaf_next_raw(self.page@)
                != LEAF_NEXT_SIBLING_POINTER_DEFAULT ==> r == Some(leaf_next_raw(self.page@)),
    {
        match self.kind {
            PageType::Internal => None,
            PageType::Leaf => {
                let v = read_u64_at(&self.page.0, LEAF_NEXT_SIBLING_POINTER_OFFSET);
                if v == LEAF_NEXT_SIBLING_POINTER_DEFAULT {
                    None
                } else {
                    Some(v)
                }
            },
        }
    }

    /// Points the leaf at its next sibling.
    pub fn set_next_sibling(&mut self, pointer: u64)
        requires
            old(self).inv(),
            old(self).kind == PageType::Leaf,
        ensures
            final(self).inv(),
            final(self).kind == old(self).kind,
            final(self).keys == old(self).keys,
            leaf_next_raw(final(self).page@) == pointer,
            leaf_overflow_raw(final(self).page@) == leaf_overflow_raw(old(self).page@),
            page_root_byte(final(self).page@) == page_root_byte(old(self).page@),
            leaf_keys(final(self).page@) == leaf_keys(old(self).page@),
            leaf_vals(final(self).page@) == leaf_vals(old(self).page@),
            leaf_flags(final(self).page@) == leaf_flags(old(self).page@),
            leaf_fss(final(self).page@) == leaf_fss(old(self).page@),
            leaf_fse(final(self).page@) == leaf_fse(old(self).page@),
    {
        let ghost s_old = self.page@;
        write_u64_at(&mut self.page.0, LEAF_NEXT_SIBLING_POINTER_OFFSET, pointer);
        proof {
            lemma_u64_be_round_trip(pointer);
            let s_new = self.page@;
            lemma_frame_subrange(s_old, s_new, PAGE_MAGIC_OFFSET as int, PAGE_MAGIC_OFFSET + 8);
            lemma_frame_subrange(
                s_old,
                s_new,
                LEAF_OVERFLOW_POINTER_OFFSET as int,
                LEAF_OVERFLOW_POINTER_OFFSET + 8,
            );
            lemma_leaf_header_frame(
                s_old,
                s_new,
                LEAF_NEXT_SIBLING_POINTER_OFFSET as int,
                LEAF_NEXT_SIBLING_POINTER_OFFSET + 8,
            );
        }
    }

    /// The number of cells the page currently stores.
    pub fn num_cells(&self) -> (r: u64)
        requires
            self.inv(),
        ensures
            r == self.keys,
            r == node_n(self.page@),
    {
        match self.kind {
            PageType::Leaf => read_u64_at(&self.page.0, LEAF_NUM_KEYS_OFFSET),
            PageType::Internal => read_u64_at(&self.page.0, INTERNAL_NUM_KEYS_OFFSET),
        }
    }

    /// The internal page's right-most child pointer.
    pub fn right_child(&self) -> (r: Option<u64>)
        requires
            self.inv(),
        ensures
            self.kind == PageType::Leaf ==> r is None,
            self.kind == PageType::Internal ==> r == Some(int_right(self.page@)),
    {
        match self.kind {
            PageType::Leaf => None,
            PageType::Internal => Some(
                read_u64_at(&self.page.0, INTERNAL_RIGHT_MOST_CHILD_OFFSET),
            ),
        }
    }

    /// Byte offset of cell `num` in this page's body.
    fn calculate_cell_position(&self, num: u64) -> (r: usize)
        requires
            self.inv(),
            num <= node_n(self.page@),
        ensures
            self.kind == PageType::Leaf ==> r == leaf_slot_pos(num as int),
            self.kind == PageType::Internal ==> r == int_cell_pos(num as int),
            r + (if self.kind == PageType::Leaf {
                LEAF_KEY_CELL_SIZE as int
            } else {
                INTERNAL_CELL_SIZE as int
            }) <= PAGE_SIZE || num == node_n(self.page@),
    {
        proof {
            if self.kind == PageType::Leaf {
                assert(LEAF_HEADER_SIZE + leaf_n(self.page@) * LEAF_KEY_CELL_SIZE <= PAGE_SIZE);
            } else {
                lemma_internal_capacity();
            }
        }
        match self.kind {
            PageType::Leaf => LEAF_HEADER_SIZE + (num as usize) * LEAF_KEY_CELL_SIZE,
            PageType::Internal => INTERNAL_HEADER_SIZE + (num as usize) * INTERNAL_CELL_SIZE,
        }
    }

    /// The key stored in cell `num`.
    fn get_cell_key(&self, num: u64) -> (r: u64)
        requires
            self.inv(),
            num < node_n(self.page@),
        ensures
            r == node_key_at(self.page@, num as int),
    {
        let pos = self.calculate_cell_position(num);
        match self.kind {
            PageType::Leaf => read_u64_at(&self.page.0, pos + LEAF_KEY_IDENTIFIER_OFFSET),
            PageType::Internal => read_u64_at(&self.page.0, pos),
        }
    }

    /// Binary search: the lower-bound position of `key` among the
    /// page's cells.
    pub fn find_cell_num(&self, key: u64) -> (r: u64)
        requires
            self.inv(),
        ensures
            r == count_lt(node_keys(self.page@), key),
            r <= node_n(self.page@),
            forall|i: int| 0 <= i < r ==> node_key_at(self.page@, i) < key,
            forall|i: int|
                r <= i < node_n(self.page@) ==> node_key_at(self.page@, i) >= key,
    {
        proof {
            let ks = node_keys(self.page@);
            assert forall|i: int, j: int| 0 <= i < j < ks.len() implies ks[i] < ks[j] by {
                assert(ks[i] == node_key_at(self.page@, i));
                assert(ks[j] == node_key_at(self.page@, j));
            }
            lemma_count_lt_sorted(ks, key);
            let t = count_lt(ks, key);
            assert forall|i: int| 0 <= i < t implies node_key_at(self.page@, i) < key by {
                assert(ks[i] == node_key_at(self.page@, i));
            }
            assert forall|i: int| t <= i < node_n(self.page@) implies node_key_at(self.page@, i)
                >= key by {
                assert(ks[i] == node_key_at(self.page@, i));
            }
        }
        let num_cells = self.num_cells();
        let ghost ks = node_keys(self.page@);
        let ghost target = count_lt(node_keys(self.page@), key);
        let mut min_idx: u64 = 0;
        let mut max_idx: u64 = num_cells;
        while min_idx != max_idx
            invariant
                self.inv(),
                ks == node_keys(self.page@),
                target == count_lt(ks, key),
                0 <= target <= node_n(self.page@),
                forall|i: int| 0 <= i < target ==> node_key_at(self.page@, i) < key,
                forall|i: int|
                    target <= i < node_n(self.page@) ==> node_key_at(self.page@, i) >= key,
                min_idx <= max_idx <= node_n(self.page@),
                min_idx <= target <= max_idx,
            decreases max_idx - min_idx,
        {
            let index = min_idx + (max_idx - min_idx) / 2;
            let key_at_index = self.get_cell_key(index);
            if key_at_index >= key {
                proof {
                    if index < target {
                        assert(node_key_at(self.page@, index as int) < key);
                    }
                }
                max_idx = index;
            } else {
                proof {
                    if index + 1 > target {
                        assert(node_key_at(self.page@, index as int) >= key);
                    }
                }
                min_idx = index + 1;
            }
        }
        min_idx
    }

    /// The key of the page's last cell: the greatest key it stores.
    pub fn node_high_key(&self) -> (r: u64)
        requires
            self.inv(),
            node_n(self.page@) >= 1,
        ensures
            r == node_key_at(self.page@, node_n(self.page@) as int - 1),
    {
        let cell_num = self.num_cells() - 1;
        self.get_cell_key(cell_num)
    }

    /// Reads the bytes of cell `num`: a leaf cell's value blob, or an
    /// internal cell's sixteen body bytes. For `num` equal to the cell
    /// count of an internal page, the high key followed by the
    /// right-most child pointer.
    pub fn read_cell_bytes(&self, num: u64) -> (r: Vec<u8>)
        requires
            self.inv(),
            self.kind == PageType::Leaf ==> num < node_n(self.page@),
            self.kind == PageType::Internal ==> num <= node_n(self.page@),
            self.kind == PageType::Internal && num == node_n(self.page@) ==> node_n(self.page@)
                >= 1,
        ensures
            self.kind == PageType::Leaf ==> r@ == leaf_content(self.page@, num as int),
            self.kind == PageType::Internal && num < node_n(self.page@) ==> r@ == u64_to_be(
                int_key(self.page@, num as int),
            ) + u64_to_be(int_ptr(self.page@, num as int)),
            self.kind == PageType::Internal && num == node_n(self.page@) ==> r@ == u64_to_be(
                int_key(self.page@, node_n(self.page@) as int - 1),
            ) + u64_to_be(int_right(self.page@)),
    {
        match self.kind {
            PageType::Internal => {
                proof {
                    lemma_internal_capacity();
                }
                let n = self.num_cells();
                if num < n {
                    let pos = self.calculate_cell_position(num);
                    let k = read_u64_at(&self.page.0, pos);
                    let p = read_u64_at(&self.page.0, pos + INTERNAL_KEY_POINTER_SIZE);
                    let mut out = int_cell_bytes(k, p);
                    proof {
                        lemma_u64_be_round_trip(k);
                        lemma_u64_be_round_trip(p);
                        assert(u64_to_be(int_key(self.page@, num as int)) =~= u64_to_be(k));
                        assert(u64_to_be(int_ptr(self.page@, num as int)) =~= u64_to_be(p));
                    }
                    out
                } else {
                    let k = self.node_high_key();
                    let p = read_u64_at(&self.page.0, INTERNAL_RIGHT_MOST_CHILD_OFFSET);
                    int_cell_bytes(k, p)
                }
            },
            PageType::Leaf => {
                proof {
                    assert(leaf_slot_wf(self.page@, num as int));
                }
                let pos = self.calculate_cell_position(num);
                let ptr = read_u64_at(&self.page.0, pos + LEAF_KEY_POINTER_OFFSET);
                let content_size = read_u64_at(&self.page.0, ptr as usize);
                read_bytes_at(
                    &self.page.0,
                    ptr as usize + LEAF_CONTENT_LEN_SIZE,
                    content_size as usize,
                )
            },
        }
    }
}

/// Serializes an internal cell body: key then child pointer, both
/// big-endian.
fn int_cell_bytes(key: u64, pointer: u64) -> (r: Vec<u8>)
    ensures
        r@ == u64_to_be(key) + u64_to_be(pointer),
{
    let ka = u64_to_be_array(key);
    let pa = u64_to_be_array(pointer);
    let mut out: Vec<u8> = Vec::new();
    let mut i: usize = 0;
    while i < 8
        invariant
            i <= 8,
            ka@ == u64_to_be(key),
            out@ == ka@.subrange(0, i as int),
        decreases 8 - i,
    {
        out.push(ka[i]);
        proof {
            assert(out@ =~= ka@.subrange(0, i + 1));
        }
        i = i + 1;
    }
    let mut j: usize = 0;
    while j < 8
        invariant
            j <= 8,
            ka@ == u64_to_be(key),
            pa@ == u64_to_be(pointer),
            out@ == ka@.subrange(0, 8) + pa@.subrange(0, j as int),
        decreases 8 - j,
    {
        out.push(pa[j]);
        proof {
            assert(out@ =~= ka@.subrange(0, 8) + pa@.subrange(0, j + 1));
        }
        j = j + 1;
    }
    proof {
        assert(ka@.subrange(0, 8) =~= ka@);
        assert(pa@.subrange(0, 8) =~= pa@);
    }
    out
}

// ------------------------------------------------------------------
// Decoded cell sequences and their accounting.
// ------------------------------------------------------------------
/// Leaf cells sorted strictly by identifier.
pub open spec fn cells_sorted(cs: Seq<LeafCell>) -> bool {
    forall|i: int, j: int| 0 <= i < j < cs.len() ==> cs[i].identifier < cs[j].identifier
}

/// Bytes the cell's blob takes on a page: length prefix plus value.
pub open spec fn cell_blob_size(c: LeafCell) -> int {
    LEAF_CONTENT_LEN_SIZE + c.content@.len()
}

/// Total blob bytes of the first `k` cells.
pub open spec fn cells_blob_total(cs: Seq<LeafCell>, k: int) -> int
    decreases k,
{
    if k <= 0 {
        0
    } else {
        cells_blob_total(cs, k - 1) + cell_blob_size(cs[k - 1])
    }
}

/// Page bytes a leaf holding `cs` needs: header, key slots, blobs.
pub open spec fn leaf_space_needed(cs: Seq<LeafCell>) -> int {
    LEAF_HEADER_SIZE + cs.len() * LEAF_KEY_CELL_SIZE + cells_blob_total(cs, cs.len() as int)
}

/// Blob totals never shrink as more cells are counted.
pub proof fn lemma_cells_total_mono(cs: Seq<LeafCell>, k1: int, k2: int)
    requires
        0 <= k1 <= k2,
    ensures
        cells_blob_total(cs, k1) <= cells_blob_total(cs, k2),
    decreases k2,
{
    if k2 > k1 {
        lemma_cells_total_mono(cs, k1, k2 - 1);
    }
}

/// Blob totals agree between sequences whose first `k` cells have the
/// same blob sizes.
pub proof fn lemma_cells_total_congruent(a: Seq<LeafCell>, b: Seq<LeafCell>, k: int)
    requires
        forall|j: int| 0 <= j < k ==> cell_blob_size(a[j]) == cell_blob_size(b[j]),
    ensures
        cells_blob_total(a, k) == cells_blob_total(b, k),
    decreases k,
{
    if k > 0 {
        lemma_cells_total_congruent(a, b, k - 1);
    }
}

/// Inserting one cell adds exactly its blob size to the total.
pub proof fn lemma_cells_total_insert(a: Seq<LeafCell>, b: Seq<LeafCell>, pos: int, c: LeafCell, k: int)
    requires
        0 <= pos <= b.len(),
        a.len() == b.len() + 1,
        forall|j: int| 0 <= j < pos ==> cell_blob_size(#[trigger] a[j]) == cell_blob_size(b[j]),
        cell_blob_size(a[pos]) == cell_blob_size(c),
        forall|j: int| pos < j < a.len() ==> cell_blob_size(#[trigger] a[j]) == cell_blob_size(b[j - 1]),
        pos < k <= a.len(),
    ensures
        cells_blob_total(a, k) == cells_blob_total(b, k - 1) + cell_blob_size(c),
    decreases k,
{
    if k == pos + 1 {
        lemma_cells_total_congruent(a, b, pos);
    } else {
        lemma_cells_total_insert(a, b, pos, c, k - 1);
    }
}

/// The blob total of a block of cells read at an offset equals the
/// difference of totals in the containing sequence.
pub proof fn lemma_cells_total_offset(cs: Seq<LeafCell>, sub: Seq<LeafCell>, off: int, k: int)
    requires
        0 <= off,
        0 <= k,
        off + k <= cs.len(),
        k <= sub.len(),
        forall|j: int| 0 <= j < k ==> cell_blob_size(#[trigger] sub[j]) == cell_blob_size(cs[off + j]),
    ensures
        cells_blob_total(sub, k) == cells_blob_total(cs, off + k) - cells_blob_total(cs, off),
    decreases k,
{
    if k > 0 {
        lemma_cells_total_offset(cs, sub, off, k - 1);
    }
}

/// A page's blob total equals the decoded cells' blob total when the
/// stored lengths match.
pub proof fn lemma_blob_total_matches(s: Seq<u8>, cs: Seq<LeafCell>, k: int)
    requires
        forall|j: int| 0 <= j < k ==> leaf_len(s, j) as int == (#[trigger] cs[j]).content@.len(),
    ensures
        leaf_blob_total(s, k) == cells_blob_total(cs, k),
    decreases k,
{
    if k > 0 {
        lemma_blob_total_matches(s, cs, k - 1);
    }
}

// ------------------------------------------------------------------
// Decoding a page into cells.
// ------------------------------------------------------------------
/// Reads every record out of a well-formed leaf page.
fn decode_leaf(b: &Vec<u8>) -> (r: Vec<LeafCell>)
    requires
        leaf_wf(b@),
    ensures
        r@.len() == leaf_n(b@),
        forall|i: int|
            0 <= i < r@.len() ==> (#[trigger] r@[i]).identifier == leaf_key(b@, i)
                && r@[i].content@ == leaf_content(b@, i) && r@[i].overflow == (leaf_flag(b@, i)
                == 1),
{
    let n = read_u64_at(b, LEAF_NUM_KEYS_OFFSET) as usize;
    let mut r: Vec<LeafCell> = Vec::new();
    let mut i: usize = 0;
    while i < n
        invariant
            leaf_wf(b@),
            n as int == leaf_n(b@) as int,
            LEAF_HEADER_SIZE + n * LEAF_KEY_CELL_SIZE <= PAGE_SIZE,
            i <= n,
            r@.len() == i,
            forall|j: int|
                0 <= j < i ==> (#[trigger] r@[j]).identifier == leaf_key(b@, j)
                    && r@[j].content@ == leaf_content(b@, j) && r@[j].overflow == (leaf_flag(
                    b@,
                    j,
                ) == 1),
        decreases n - i,
    {
        proof {
            assert(leaf_slot_wf(b@, i as int));
        }
        let slot = LEAF_HEADER_SIZE + i * LEAF_KEY_CELL_SIZE;
        let flag = b[slot];
        let key = read_u64_at(b, slot + LEAF_KEY_IDENTIFIER_OFFSET);
        let ptr = read_u64_at(b, slot + LEAF_KEY_POINTER_OFFSET);
        let len = read_u64_at(b, ptr as usize);
        let content = read_bytes_at(b, ptr as usize + LEAF_CONTENT_LEN_SIZE, len as usize);
        r.push(LeafCell::new(key, content, flag == 1));
        i = i + 1;
    }
    r
}

/// Reads every separator cell out of a well-formed internal page.
fn decode_internal(b: &Vec<u8>) -> (r: Vec<InternalCell>)
    requires
        int_wf(b@),
    ensures
        r@.len() == int_n(b@),
        forall|i: int|
            0 <= i < r@.len() ==> (#[trigger] r@[i]).key == int_key(b@, i) && u64_from_be(
                r@[i].pointer@,
            ) == int_ptr(b@, i),
{
    proof {
        lemma_internal_capacity();
    }
    let n = read_u64_at(b, INTERNAL_NUM_KEYS_OFFSET) as usize;
    let mut r: Vec<InternalCell> = Vec::new();
    let mut i: usize = 0;
    while i < n
        invariant
            int_wf(b@),
            n as int == int_n(b@) as int,
            INTERNAL_HEADER_SIZE + INTERNAL_MAX_KEYS * INTERNAL_CELL_SIZE <= PAGE_SIZE,
            n as int <= INTERNAL_MAX_KEYS as int,
            i <= n,
            r@.len() == i,
            forall|j: int|
                0 <= j < i ==> (#[trigger] r@[j]).key == int_key(b@, j) && u64_from_be(
                    r@[j].pointer@,
                ) == int_ptr(b@, j),
        decreases n - i,
    {
        proof {
            assert(INTERNAL_HEADER_SIZE + (i + 1) * INTERNAL_CELL_SIZE <= PAGE_SIZE);
        }
        let pos = INTERNAL_HEADER_SIZE + i * INTERNAL_CELL_SIZE;
        let key = read_u64_at(b, pos);
        let ptr = read_u64_at(b, pos + INTERNAL_KEY_POINTER_SIZE);
        let cell = InternalCell::new(key, u64_to_be_array(ptr));
        proof {
            lemma_u64_be_round_trip(ptr);
        }
        r.push(cell);
        i = i + 1;
    }
    r
}

// ------------------------------------------------------------------
// Encoding cells into a fresh page.
// ------------------------------------------------------------------
/// Builds the bytes of a leaf page holding exactly `cells`, with the
/// given root flag, sibling pointer and overflow pointer.
#[verifier::rlimit(100)]
fn encode_leaf(cells: &Vec<LeafCell>, root_flag: bool, next: u64, overflow_ptr: u64) -> (r: Page)
    requires
        cells_sorted(cells@),
        leaf_space_needed(cells@) <= PAGE_SIZE,
    ensures
        leaf_wf(r@),
        leaf_n(r@) as int == cells@.len(),
        page_root_byte(r@) == (if root_flag {
            1u8
        } else {
            0u8
        }),
        leaf_next_raw(r@) == next,
        leaf_overflow_raw(r@) == overflow_ptr,
        leaf_fss(r@) as int == LEAF_HEADER_SIZE + cells@.len() * LEAF_KEY_CELL_SIZE,
        leaf_fse(r@) as int == PAGE_SIZE - cells_blob_total(cells@, cells@.len() as int),
        forall|i: int|
            0 <= i < cells@.len() ==> leaf_key(r@, i) == (#[trigger] cells@[i]).identifier
                && leaf_content(r@, i) == cells@[i].content@ && leaf_flag(r@, i) == (
            if cells@[i].overflow {
                1u8
            } else {
                0u8
            }),
{
    let ghost cs = cells@;
    let n = cells.len();
    proof {
        lemma_cells_total_mono(cs, 0, n as int);
    }
    let page = crate::page::PageBuilder::default().kind(&PageType::Leaf).is_root(
        root_flag,
    ).build();
    let mut b = page.0;
    let ghost b_init = b@;
    write_u64_at(&mut b, LEAF_OVERFLOW_POINTER_OFFSET, overflow_ptr);
    write_u64_at(&mut b, LEAF_NEXT_SIBLING_POINTER_OFFSET, next);
    write_u64_at(&mut b, LEAF_NUM_KEYS_OFFSET, n as u64);
    let fss = LEAF_HEADER_SIZE + n * LEAF_KEY_CELL_SIZE;
    write_u64_at(&mut b, LEAF_FREE_SPACE_START_OFFSET, fss as u64);
    proof {
        lemma_u64_be_round_trip(overflow_ptr);
        lemma_u64_be_round_trip(next);
        lemma_u64_be_round_trip(n as u64);
        lemma_u64_be_round_trip(fss as u64);
        lemma_frame_subrange(b_init, b@, PAGE_MAGIC_OFFSET as int, PAGE_MAGIC_OFFSET + 8);
        assert(leaf_overflow_raw(b@) == overflow_ptr) by {
            lemma_frame_subrange(
                b@,
                b@,
                LEAF_OVERFLOW_POINTER_OFFSET as int,
                LEAF_OVERFLOW_POINTER_OFFSET + 8,
            );
        }
    }
    let mut fse_run: usize = PAGE_SIZE;
    let mut i: usize = 0;
    while i < n
        invariant
            b@.len() == PAGE_SIZE,
            cs == cells@,
            n == cs.len(),
            cells_sorted(cs),
            leaf_space_needed(cs) <= PAGE_SIZE,
            fss == LEAF_HEADER_SIZE + n * LEAF_KEY_CELL_SIZE,
            fss <= PAGE_SIZE,
            page_magic(b@) == PAGE_MAGIC,
            page_kind_byte(b@) == PAGE_KIND_LEAF,
            page_root_byte(b@) == (if root_flag {
                1u8
            } else {
                0u8
            }),
            leaf_overflow_raw(b@) == overflow_ptr,
            leaf_next_raw(b@) == next,
            leaf_n(b@) == n as u64,
            leaf_fss(b@) == fss as u64,
            i <= n,
            fse_run as int == PAGE_SIZE - cells_blob_total(cs, i as int),
            fse_run <= PAGE_SIZE,
            forall|j: int|
                0 <= j < i ==> leaf_key(b@, j) == (#[trigger] cs[j]).identifier && leaf_flag(
                    b@,
                    j,
                ) == (if cs[j].overflow {
                    1u8
                } else {
                    0u8
                }) && leaf_ptr(b@, j) as int == PAGE_SIZE - cells_blob_total(cs, j + 1)
                    && leaf_len(b@, j) as int == cs[j].content@.len() && leaf_content(b@, j)
                    == cs[j].content@,
        decreases n - i,
    {
        let ghost b0 = b@;
        proof {
            assert(cells_blob_total(cs, i + 1) == cells_blob_total(cs, i as int)
                + cell_blob_size(cs[i as int]));
            lemma_cells_total_mono(cs, i + 1, n as int);
        }
        let c = &cells[i];
        let clen = c.content.len();
        let slot = LEAF_HEADER_SIZE + i * LEAF_KEY_CELL_SIZE;
        let blob_size = LEAF_CONTENT_LEN_SIZE + clen;
        let new_ptr = fse_run - blob_size;
        let flag_byte = bool_to_u8(c.overflow);
        write_u8_at(&mut b, slot, flag_byte);
        let ghost b1 = b@;
        write_u64_at(&mut b, slot + LEAF_KEY_IDENTIFIER_OFFSET, c.identifier);
        let ghost b2 = b@;
        write_u64_at(&mut b, slot + LEAF_KEY_POINTER_OFFSET, new_ptr as u64);
        let ghost b3 = b@;
        write_u64_at(&mut b, new_ptr, clen as u64);
        let ghost b4 = b@;
        crate::codec::write_bytes_at(&mut b, new_ptr + LEAF_CONTENT_LEN_SIZE, &c.content);
        proof {
            lemma_u64_be_round_trip(c.identifier);
            lemma_u64_be_round_trip(new_ptr as u64);
            lemma_u64_be_round_trip(clen as u64);
            let bn = b@;
            // Everything outside the slot and the new blob kept its bytes.
            assert forall|j: int|
                0 <= j < PAGE_SIZE && !(slot <= j < slot + LEAF_KEY_CELL_SIZE) && !(new_ptr <= j
                    < new_ptr + blob_size) implies bn[j] == b0[j] by {
                assert(b1[j] == b0[j]);
                assert(b2[j] == b1[j]);
                assert(b3[j] == b2[j]);
                assert(b4[j] == b3[j]);
                assert(bn[j] == b4[j]);
            }
            // Header fields survive.
            lemma_frame_subrange(b0, bn, PAGE_MAGIC_OFFSET as int, PAGE_MAGIC_OFFSET + 8);
            lemma_frame_subrange(
                b0,
                bn,
                LEAF_OVERFLOW_POINTER_OFFSET as int,
                LEAF_OVERFLOW_POINTER_OFFSET + 8,
            );
            lemma_frame_subrange(
                b0,
                bn,
                LEAF_NEXT_SIBLING_POINTER_OFFSET as int,
                LEAF_NEXT_SIBLING_POINTER_OFFSET + 8,
            );
            lemma_frame_subrange(b0, bn, LEAF_NUM_KEYS_OFFSET as int, LEAF_NUM_KEYS_OFFSET + 8);
            lemma_frame_subrange(
                b0,
                bn,
                LEAF_FREE_SPACE_START_OFFSET as int,
                LEAF_FREE_SPACE_START_OFFSET + 8,
            );
            // The new cell decodes to what was written.
            assert(bn[slot as int] == flag_byte) by {
                assert(b1[slot as int] == flag_byte);
                assert(b2[slot as int] == b1[slot as int]);
                assert(b3[slot as int] == b2[slot as int]);
                assert(b4[slot as int] == b3[slot as int]);
                assert(bn[slot as int] == b4[slot as int]);
            }
            assert(bn.subrange(slot + LEAF_KEY_IDENTIFIER_OFFSET, slot + LEAF_KEY_IDENTIFIER_OFFSET
                + 8) == u64_to_be(c.identifier)) by {
                lemma_frame_subrange(
                    b2,
                    bn,
                    slot + LEAF_KEY_IDENTIFIER_OFFSET,
                    slot + LEAF_KEY_IDENTIFIER_OFFSET + 8,
                );
            }
            assert(bn.subrange(slot + LEAF_KEY_POINTER_OFFSET, slot + LEAF_KEY_POINTER_OFFSET + 8)
                == u64_to_be(new_ptr as u64)) by {
                lemma_frame_subrange(
                    b3,
                    bn,
                    slot + LEAF_KEY_POINTER_OFFSET,
                    slot + LEAF_KEY_POINTER_OFFSET + 8,
                );
            }
            assert(bn.subrange(new_ptr as int, new_ptr + 8) == u64_to_be(clen as u64)) by {
                lemma_frame_subrange(b4, bn, new_ptr as int, new_ptr + 8);
            }
            assert(leaf_key(bn, i as int) == c.identifier);
            assert(leaf_ptr(bn, i as int) == new_ptr as u64);
            assert(leaf_len(bn, i as int) == clen as u64);
            assert(leaf_content(bn, i as int) == c.content@);
            // Earlier cells survive: their slots sit below this slot and
            // their blobs sit at or above the old free-space end.
            assert forall|j: int|
                0 <= j < i implies leaf_key(bn, j) == (#[trigger] cs[j]).identifier && leaf_flag(
                    bn,
                    j,
                ) == (if cs[j].overflow {
                    1u8
                } else {
                    0u8
                }) && leaf_ptr(bn, j) as int == PAGE_SIZE - cells_blob_total(cs, j + 1)
                    && leaf_len(bn, j) as int == cs[j].content@.len() && leaf_content(bn, j)
                    == cs[j].content@ by {
                lemma_cells_total_mono(cs, j + 1, i as int);
                lemma_cells_total_mono(cs, 0, j as int);
                assert(leaf_slot_pos(j) + LEAF_KEY_CELL_SIZE <= slot as int);
                lemma_frame_subrange(b0, bn, leaf_slot_pos(j), leaf_slot_pos(j) + 1);
                assert(leaf_flag(bn, j) == leaf_flag(b0, j)) by {
                    assert(bn[leaf_slot_pos(j)] == b0[leaf_slot_pos(j)]);
                }
                lemma_frame_subrange(
                    b0,
                    bn,
                    leaf_slot_pos(j) + LEAF_KEY_IDENTIFIER_OFFSET,
                    leaf_slot_pos(j) + LEAF_KEY_IDENTIFIER_OFFSET + 8,
                );
                lemma_frame_subrange(
                    b0,
                    bn,
                    leaf_slot_pos(j) + LEAF_KEY_POINTER_OFFSET,
                    leaf_slot_pos(j) + LEAF_KEY_POINTER_OFFSET + 8,
                );
                assert(leaf_ptr(bn, j) == leaf_ptr(b0, j));
                lemma_frame_subrange(b0, bn, leaf_ptr(b0, j) as int, leaf_ptr(b0, j) + 8);
                assert(leaf_len(bn, j) == leaf_len(b0, j));
                lemma_frame_subrange(
                    b0,
                    bn,
                    leaf_ptr(b0, j) + LEAF_CONTENT_LEN_SIZE,
                    leaf_ptr(b0, j) + LEAF_CONTENT_LEN_SIZE + leaf_len(b0, j),
                );
            }
        }
        fse_run = new_ptr;
        i = i + 1;
    }
    let ghost b_pre = b@;
    write_u64_at(&mut b, LEAF_FREE_SPACE_END_OFFSET, fse_run as u64);
    proof {
        lemma_u64_be_round_trip(fse_run as u64);
        let bn = b@;
        lemma_frame_subrange(b_pre, bn, PAGE_MAGIC_OFFSET as int, PAGE_MAGIC_OFFSET + 8);
        lemma_frame_subrange(
            b_pre,
            bn,
            LEAF_OVERFLOW_POINTER_OFFSET as int,
            LEAF_OVERFLOW_POINTER_OFFSET + 8,
        );
        lemma_frame_subrange(
            b_pre,
            bn,
            LEAF_NEXT_SIBLING_POINTER_OFFSET as int,
            LEAF_NEXT_SIBLING_POINTER_OFFSET + 8,
        );
        lemma_frame_subrange(b_pre, bn, LEAF_NUM_KEYS_OFFSET as int, LEAF_NUM_KEYS_OFFSET + 8);
        lemma_frame_subrange(
            b_pre,
            bn,
            LEAF_FREE_SPACE_START_OFFSET as int,
            LEAF_FREE_SPACE_START_OFFSET + 8,
        );
        assert forall|j: int|
            0 <= j < n implies leaf_key(bn, j) == (#[trigger] cs[j]).identifier && leaf_flag(
                bn,
                j,
            ) == (if cs[j].overflow {
                1u8
            } else {
                0u8
            }) && leaf_ptr(bn, j) as int == PAGE_SIZE - cells_blob_total(cs, j + 1) && leaf_len(
                bn,
                j,
            ) as int == cs[j].content@.len() && leaf_content(bn, j) == cs[j].content@
                && leaf_slot_wf(bn, j) by {
            lemma_cells_total_mono(cs, j + 1, n as int);
            lemma_cells_total_mono(cs, 0, j as int);
            lemma_frame_subrange(b_pre, bn, leaf_slot_pos(j), leaf_slot_pos(j) + 1);
            assert(leaf_flag(bn, j) == leaf_flag(b_pre, j)) by {
                assert(bn[leaf_slot_pos(j)] == b_pre[leaf_slot_pos(j)]);
            }
            lemma_frame_subrange(
                b_pre,
                bn,
                leaf_slot_pos(j) + LEAF_KEY_IDENTIFIER_OFFSET,
                leaf_slot_pos(j) + LEAF_KEY_IDENTIFIER_OFFSET + 8,
            );
            lemma_frame_subrange(
                b_pre,
                bn,
                leaf_slot_pos(j) + LEAF_KEY_POINTER_OFFSET,
                leaf_slot_pos(j) + LEAF_KEY_POINTER_OFFSET + 8,
            );
            assert(leaf_ptr(bn, j) == leaf_ptr(b_pre, j));
            lemma_frame_subrange(b_pre, bn, leaf_ptr(b_pre, j) as int, leaf_ptr(b_pre, j) + 8);
            assert(leaf_len(bn, j) == leaf_len(b_pre, j));
            lemma_frame_subrange(
                b_pre,
                bn,
                leaf_ptr(b_pre, j) + LEAF_CONTENT_LEN_SIZE,
                leaf_ptr(b_pre, j) + LEAF_CONTENT_LEN_SIZE + leaf_len(b_pre, j),
            );
        }
        lemma_blob_total_matches(bn, cs, n as int);
        assert forall|x: int, y: int| 0 <= x < y < leaf_n(bn) implies leaf_key(bn, x) < leaf_key(
            bn,
            y,
        ) by {
            assert(cs[x].identifier < cs[y].identifier);
        }
        lemma_cells_total_mono(cs, 0, n as int);
        assert(bn.len() == PAGE_SIZE);
        assert(page_magic(bn) == PAGE_MAGIC);
        assert(page_kind_byte(bn) == PAGE_KIND_LEAF);
        assert(page_root_byte(bn) == 0 || page_root_byte(bn) == 1);
        assert(leaf_n(bn) == n as u64);
        assert(leaf_fss(bn) == fss as u64);
        assert(leaf_fse(bn) == fse_run as u64);
        assert(LEAF_HEADER_SIZE <= leaf_fss(bn));
        assert(leaf_fss(bn) <= leaf_fse(bn));
        assert(leaf_fse(bn) <= PAGE_SIZE);
        assert(leaf_fss(bn) - LEAF_HEADER_SIZE == leaf_n(bn) * LEAF_KEY_CELL_SIZE);
        assert(leaf_fse(bn) == PAGE_SIZE - leaf_blob_total(bn, leaf_n(bn) as int));
        assert forall|i2: int| 0 <= i2 < leaf_n(bn) implies leaf_slot_wf(bn, i2) by {
            assert(leaf_key(bn, i2) == cs[i2].identifier);
        }
        assert(leaf_wf(bn));
    }
    Page(b)
}

/// Builds the bytes of an internal page holding exactly `cells`, with
/// the given root flag and right-most child.
fn encode_internal(cells: &Vec<InternalCell>, root_flag: bool, right: u64) -> (r: Page)
    requires
        forall|i: int, j: int|
            0 <= i < j < cells@.len() ==> (#[trigger] cells@[i]).key < (#[trigger] cells@[j]).key,
        forall|i: int| 0 <= i < cells@.len() ==> u64_from_be((#[trigger] cells@[i]).pointer@) != 0,
        cells@.len() <= INTERNAL_MAX_KEYS,
        cells@.len() > 0 ==> right != 0,
    ensures
        int_wf(r@),
        int_n(r@) as int == cells@.len(),
        page_root_byte(r@) == (if root_flag {
            1u8
        } else {
            0u8
        }),
        int_right(r@) == right,
        forall|i: int|
            0 <= i < cells@.len() ==> int_key(r@, i) == (#[trigger] cells@[i]).key && int_ptr(
                r@,
                i,
            ) == u64_from_be(cells@[i].pointer@),
{
    let ghost cs = cells@;
    let n = cells.len();
    proof {
        lemma_internal_capacity();
    }
    let page = crate::page::PageBuilder::default().kind(&PageType::Internal).is_root(
        root_flag,
    ).build();
    let mut b = page.0;
    let ghost b_init = b@;
    write_u64_at(&mut b, INTERNAL_NUM_KEYS_OFFSET, n as u64);
    write_u64_at(&mut b, INTERNAL_RIGHT_MOST_CHILD_OFFSET, right);
    proof {
        lemma_u64_be_round_trip(n as u64);
        lemma_u64_be_round_trip(right);
        lemma_frame_subrange(b_init, b@, PAGE_MAGIC_OFFSET as int, PAGE_MAGIC_OFFSET + 8);
    }
    let mut i: usize = 0;
    while i < n
        invariant
            b@.len() == PAGE_SIZE,
            cs == cells@,
            n == cs.len(),
            n <= INTERNAL_MAX_KEYS,
            INTERNAL_HEADER_SIZE + INTERNAL_MAX_KEYS * INTERNAL_CELL_SIZE <= PAGE_SIZE,
            page_magic(b@) == PAGE_MAGIC,
            page_kind_byte(b@) == PAGE_KIND_INTERNAL,
            page_root_byte(b@) == (if root_flag {
                1u8
            } else {
                0u8
            }),
            int_n(b@) == n as u64,
            int_right(b@) == right,
            i <= n,
            forall|j: int|
                0 <= j < i ==> int_key(b@, j) == (#[trigger] cs[j]).key && int_ptr(b@, j)
                    == u64_from_be(cs[j].pointer@),
        decreases n - i,
    {
        let ghost b0 = b@;
        let c = &cells[i];
        let pos = INTERNAL_HEADER_SIZE + i * INTERNAL_CELL_SIZE;
        let ptr_val = c.pointer();
        write_u64_at(&mut b, pos, c.key);
        let ghost b1 = b@;
        write_u64_at(&mut b, pos + INTERNAL_KEY_POINTER_SIZE, ptr_val);
        proof {
            lemma_u64_be_round_trip(c.key);
            lemma_u64_be_round_trip(ptr_val);
            let bn = b@;
            assert forall|j: int|
                0 <= j < PAGE_SIZE && !(pos <= j < pos + INTERNAL_CELL_SIZE) implies bn[j]
                == b0[j] by {
                assert(b1[j] == b0[j]);
                assert(bn[j] == b1[j]);
            }
            lemma_frame_subrange(b0, bn, PAGE_MAGIC_OFFSET as int, PAGE_MAGIC_OFFSET + 8);
            lemma_frame_subrange(b0, bn, INTERNAL_NUM_KEYS_OFFSET as int, INTERNAL_NUM_KEYS_OFFSET
                + 8);
            lemma_frame_subrange(
                b0,
                bn,
                INTERNAL_RIGHT_MOST_CHILD_OFFSET as int,
                INTERNAL_RIGHT_MOST_CHILD_OFFSET + 8,
            );
            assert(bn.subrange(pos as int, pos + 8) == u64_to_be(c.key)) by {
                lemma_frame_subrange(b1, bn, pos as int, pos + 8);
            }
            assert(int_key(bn, i as int) == c.key);
            assert(int_ptr(bn, i as int) == ptr_val);
            assert forall|j: int|
                0 <= j < i implies int_key(bn, j) == (#[trigger] cs[j]).key && int_ptr(bn, j)
                    == u64_from_be(cs[j].pointer@) by {
                assert(int_cell_pos(j) + INTERNAL_CELL_SIZE <= pos as int);
                lemma_frame_subrange(b0, bn, int_cell_pos(j), int_cell_pos(j) + 8);
                lemma_frame_subrange(
                    b0,
                    bn,
                    int_cell_pos(j) + INTERNAL_KEY_POINTER_SIZE,
                    int_cell_pos(j) + INTERNAL_KEY_POINTER_SIZE + 8,
                );
            }
        }
        i = i + 1;
    }
    proof {
        assert forall|x: int, y: int| 0 <= x < y < int_n(b@) implies int_key(b@, x) < int_key(
            b@,
            y,
        ) by {
            assert(cs[x].key < cs[y].key);
        }
        assert forall|x: int| 0 <= x < int_n(b@) implies int_ptr(b@, x) != 0 by {
            assert(u64_from_be(cs[x].pointer@) != 0);
        }
        assert(int_wf(b@));
    }
    Page(b)
}

// ------------------------------------------------------------------
// Fullness and room.
// ------------------------------------------------------------------
/// The leaf fullness rule: a leaf is full when at most two more key
/// slots of free space remain.
pub open spec fn leaf_full(s: Seq<u8>) -> bool {
    leaf_fse(s) - leaf_fss(s) <= 2 * LEAF_KEY_CELL_SIZE
}

/// The internal fullness rule: no room for one more separator cell.
pub open spec fn int_full(s: Seq<u8>) -> bool {
    int_n(s) + 1 > INTERNAL_MAX_KEYS
}

/// Fullness of a page of either kind.
pub open spec fn node_full(s: Seq<u8>) -> bool {
    if page_kind_byte(s) == PAGE_KIND_LEAF {
        leaf_full(s)
    } else {
        int_full(s)
    }
}

/// Whether a leaf that is not full can also hold a value blob of
/// `clen` bytes next to one more key slot.
pub open spec fn leaf_has_room(s: Seq<u8>, clen: int) -> bool {
    leaf_fss(s) + LEAF_KEY_CELL_SIZE + LEAF_CONTENT_LEN_SIZE + clen < leaf_fse(s)
}


/// After inserting a record whose key splits the old keys at `pos`,
/// the cell sequence is still strictly sorted.
proof fn lemma_leaf_insert_sorted(
    s_old: Seq<u8>,
    cs_old: Seq<LeafCell>,
    cs: Seq<LeafCell>,
    pos: int,
    c: LeafCell,
)
    requires
        cs_old.len() == leaf_n(s_old),
        forall|j: int|
            0 <= j < cs_old.len() ==> (#[trigger] cs_old[j]).identifier == leaf_key(s_old, j),
        0 <= pos <= cs_old.len(),
        cs.len() == cs_old.len() + 1,
        forall|j: int| 0 <= j < pos ==> cs[j] == cs_old[j],
        cs[pos] == c,
        forall|j: int| pos < j < cs.len() ==> cs[j] == cs_old[j - 1],
        forall|i: int| 0 <= i < pos ==> leaf_key(s_old, i) < c.identifier,
        forall|i: int| pos <= i < leaf_n(s_old) ==> leaf_key(s_old, i) > c.identifier,
        forall|i: int, j: int| 0 <= i < j < leaf_n(s_old) ==> leaf_key(s_old, i) < leaf_key(
            s_old,
            j,
        ),
    ensures
        cells_sorted(cs),
{
    assert forall|x: int, y: int|
        0 <= x < y < cs.len() implies cs[x].identifier < cs[y].identifier by {
        if y < pos {
            assert(cs[x] == cs_old[x]);
            assert(cs[y] == cs_old[y]);
        } else if y == pos {
            assert(cs[x] == cs_old[x]);
        } else if x < pos {
            assert(cs[x] == cs_old[x]);
            assert(cs[y] == cs_old[y - 1]);
        } else if x == pos {
            assert(cs[y] == cs_old[y - 1]);
        } else {
            assert(cs[x] == cs_old[x - 1]);
            assert(cs[y] == cs_old[y - 1]);
        }
    }
}

/// A record that passes the room check leaves the rebuilt page within
/// its fixed size.
proof fn lemma_leaf_insert_space(
    s_old: Seq<u8>,
    cs_old: Seq<LeafCell>,
    cs: Seq<LeafCell>,
    pos: int,
    c: LeafCell,
)
    requires
        leaf_wf(s_old),
        cs_old.len() == leaf_n(s_old),
        forall|j: int|
            0 <= j < cs_old.len() ==> (#[trigger] cs_old[j]).content@ == leaf_content(s_old, j),
        0 <= pos <= cs_old.len(),
        cs.len() == cs_old.len() + 1,
        forall|j: int| 0 <= j < pos ==> cs[j] == cs_old[j],
        cs[pos] == c,
        forall|j: int| pos < j < cs.len() ==> cs[j] == cs_old[j - 1],
        leaf_has_room(s_old, c.content@.len() as int),
    ensures
        leaf_space_needed(cs) <= PAGE_SIZE,
        cells_blob_total(cs, cs.len() as int) == (PAGE_SIZE - leaf_fse(s_old))
            + LEAF_CONTENT_LEN_SIZE + c.content@.len(),
    decreases 0int,
{
    assert forall|j: int|
        0 <= j < cs_old.len() implies leaf_len(s_old, j) as int == (
    #[trigger] cs_old[j]).content@.len() by {
        assert(leaf_slot_wf(s_old, j));
    }
    lemma_blob_total_matches(s_old, cs_old, cs_old.len() as int);
    lemma_cells_total_insert(cs, cs_old, pos, c, cs.len() as int);
}

/// The rebuilt page holds exactly the old records with the new one
/// inserted at `pos`.
proof fn lemma_leaf_insert_views(
    s_old: Seq<u8>,
    s_new: Seq<u8>,
    cs_old: Seq<LeafCell>,
    cs: Seq<LeafCell>,
    pos: int,
    c: LeafCell,
)
    requires
        cs_old.len() == leaf_n(s_old),
        forall|j: int|
            0 <= j < cs_old.len() ==> (#[trigger] cs_old[j]).identifier == leaf_key(s_old, j)
                && cs_old[j].content@ == leaf_content(s_old, j) && cs_old[j].overflow == (
            leaf_flag(s_old, j) == 1),
        forall|j: int| 0 <= j < cs_old.len() ==> leaf_flag(s_old, j) == 0 || leaf_flag(s_old, j)
            == 1,
        0 <= pos <= cs_old.len(),
        cs.len() == cs_old.len() + 1,
        forall|j: int| 0 <= j < pos ==> cs[j] == cs_old[j],
        cs[pos] == c,
        forall|j: int| pos < j < cs.len() ==> cs[j] == cs_old[j - 1],
        leaf_n(s_new) == cs.len(),
        forall|i: int|
            0 <= i < cs.len() ==> leaf_key(s_new, i) == (#[trigger] cs[i]).identifier
                && leaf_content(s_new, i) == cs[i].content@ && leaf_flag(s_new, i) == (
            if cs[i].overflow {
                1u8
            } else {
                0u8
            }),
    ensures
        leaf_keys(s_new) == leaf_keys(s_old).insert(pos, c.identifier),
        leaf_vals(s_new) == leaf_vals(s_old).insert(pos, c.content@),
        leaf_flags(s_new) == leaf_flags(s_old).insert(
            pos,
            if c.overflow {
                1u8
            } else {
                0u8
            },
        ),
{
    let fb: u8 = if c.overflow {
        1u8
    } else {
        0u8
    };
    let ks = leaf_keys(s_old).insert(pos, c.identifier);
    let vs = leaf_vals(s_old).insert(pos, c.content@);
    let fs = leaf_flags(s_old).insert(pos, fb);
    leaf_keys(s_old).insert_ensures(pos, c.identifier);
    leaf_vals(s_old).insert_ensures(pos, c.content@);
    leaf_flags(s_old).insert_ensures(pos, fb);
    assert forall|i: int|
        0 <= i < cs.len() implies leaf_key(s_new, i) == ks[i] && leaf_content(s_new, i) == vs[i]
            && leaf_flag(s_new, i) == fs[i] by {
        if i < pos {
            assert(cs[i] == cs_old[i]);
            assert(ks[i] == leaf_keys(s_old)[i]);
            assert(vs[i] == leaf_vals(s_old)[i]);
            assert(fs[i] == leaf_flags(s_old)[i]);
        } else if i > pos {
            assert(cs[i] == cs_old[i - 1]);
            assert(ks[i] == leaf_keys(s_old)[i - 1]);
            assert(vs[i] == leaf_vals(s_old)[i - 1]);
            assert(fs[i] == leaf_flags(s_old)[i - 1]);
        }
    }
    assert(leaf_keys(s_new) =~= ks);
    assert(leaf_vals(s_new) =~= vs);
    assert(leaf_flags(s_new) =~= fs);
}

impl Node {
    /// Whether `key` is already stored in this page.
    fn check_key_exists(&self, key: u64) -> (r: bool)
        requires
            self.inv(),
        ensures
            r == node_has_key(self.page@, key),
    {
        let pos = self.find_cell_num(key);
        let n = self.num_cells();
        if pos < n {
            let k = self.get_cell_key(pos);
            proof {
                if k != key {
                    assert forall|i: int|
                        0 <= i < node_n(self.page@) implies node_key_at(self.page@, i) != key by {
                        if i > pos {
                            assert(node_key_at(self.page@, pos as int) < node_key_at(
                                self.page@,
                                i,
                            )) by {
                                if self.kind == PageType::Leaf {
                                    assert(leaf_key(self.page@, pos as int) < leaf_key(
                                        self.page@,
                                        i,
                                    ));
                                } else {
                                    assert(int_key(self.page@, pos as int) < int_key(
                                        self.page@,
                                        i,
                                    ));
                                }
                            }
                        }
                    }
                }
            }
            k == key
        } else {
            proof {
                assert forall|i: int|
                    0 <= i < node_n(self.page@) implies node_key_at(self.page@, i) != key by {}
            }
            false
        }
    }

    /// Checks if the particular node has space for one more cell.
    ///
    /// - Internal nodes are checked against the maximum allowed number
    ///   of keys.
    /// - Leaf nodes must keep strictly more than two key slots of free
    ///   space, so a split happens before a key slot could collide with
    ///   the value region.
    fn check_has_space(&self, _key: u64) -> (r: Result<(), NodeResult>)
        requires
            self.inv(),
        ensures
            r matches Err(e) ==> e matches NodeResult::IsFull,
            r.is_err() == node_full(self.page@),
    {
        match self.kind {
            PageType::Leaf => {
                let fss = read_u64_at(&self.page.0, LEAF_FREE_SPACE_START_OFFSET);
                let fse = read_u64_at(&self.page.0, LEAF_FREE_SPACE_END_OFFSET);
                if fse - fss <= 2 * (LEAF_KEY_CELL_SIZE as u64) {
                    Err(NodeResult::IsFull)
                } else {
                    Ok(())
                }
            },
            PageType::Internal => {
                let n = self.num_cells();
                proof {
                    lemma_internal_capacity();
                }
                if n + 1 > INTERNAL_MAX_KEYS as u64 {
                    Err(NodeResult::IsFull)
                } else {
                    Ok(())
                }
            },
        }
    }

    /// Inserts a cell in sorted position.
    ///
    /// Fails with `DuplicateKey` when the key is already present, with
    /// `IsFull` when the fullness rule demands a split first, and — on
    /// a leaf — with `HasOverflow` when the value blob cannot sit next
    /// to one more key slot. On failure the page is left untouched.
    ///
    /// An internal insert that lands past the last separator updates
    /// the right-most child instead, pulling the previous right-most
    /// child down into a new separator cell if one was set.
    pub fn insert_cell<T: Cell>(&mut self, cell: T) -> (r: Result<(), NodeResult>)
        requires
            old(self).inv(),
            old(self).kind == PageType::Internal ==> cell.spec_content().len()
                == INTERNAL_CELL_SIZE && u64_from_be(
                cell.spec_content().subrange(INTERNAL_KEY_SIZE as int, INTERNAL_CELL_SIZE as int),
            ) != 0,
        ensures
            final(self).inv(),
            final(self).kind == old(self).kind,
            page_kind_byte(final(self).page@) == page_kind_byte(old(self).page@),
            page_root_byte(final(self).page@) == page_root_byte(old(self).page@),
            (r matches Err(e) && e matches NodeResult::DuplicateKey) <==> node_has_key(
                old(self).page@,
                cell.spec_key(),
            ),
            !node_has_key(old(self).page@, cell.spec_key()) ==> ((r matches Err(e)
                && e matches NodeResult::IsFull) <==> node_full(old(self).page@)),
            old(self).kind == PageType::Leaf && !node_has_key(old(self).page@, cell.spec_key())
                && !node_full(old(self).page@) ==> ((r matches Err(e)
                && e matches NodeResult::HasOverflow(_)) <==> !leaf_has_room(
                old(self).page@,
                cell.spec_content().len() as int,
            )),
            old(self).kind == PageType::Internal && !node_has_key(
                old(self).page@,
                cell.spec_key(),
            ) && !node_full(old(self).page@) ==> r is Ok,
            old(self).kind == PageType::Leaf && !node_has_key(old(self).page@, cell.spec_key())
                && !node_full(old(self).page@) && leaf_has_room(
                old(self).page@,
                cell.spec_content().len() as int,
            ) ==> r is Ok,
            r.is_err() ==> final(self).page@ == old(self).page@ && final(self).keys == old(
                self,
            ).keys,
            old(self).kind == PageType::Leaf && r.is_ok() ==> ({
                let s_old = old(self).page@;
                let s_new = final(self).page@;
                let pos = count_lt(leaf_keys(s_old), cell.spec_key());
                &&& leaf_n(s_new) == leaf_n(s_old) + 1
                &&& leaf_next_raw(s_new) == leaf_next_raw(s_old)
                &&& leaf_overflow_raw(s_new) == leaf_overflow_raw(s_old)
                &&& leaf_keys(s_new) == leaf_keys(s_old).insert(pos, cell.spec_key())
                &&& leaf_vals(s_new) == leaf_vals(s_old).insert(pos, cell.spec_content())
                &&& leaf_flags(s_new) == leaf_flags(s_old).insert(
                    pos,
                    if cell.spec_overflow() {
                        1u8
                    } else {
                        0u8
                    },
                )
            }),
            old(self).kind == PageType::Internal && r.is_ok() ==> ({
                let s_old = old(self).page@;
                let s_new = final(self).page@;
                let pos = count_lt(int_keys(s_old), cell.spec_key());
                let ptr = u64_from_be(
                    cell.spec_content().subrange(
                        INTERNAL_KEY_SIZE as int,
                        INTERNAL_CELL_SIZE as int,
                    ),
                );
                if pos == int_n(s_old) as int {
                    if int_right(s_old) == 0 {
                        &&& int_n(s_new) == int_n(s_old)
                        &&& int_keys(s_new) == int_keys(s_old)
                        &&& int_ptrs(s_new) == int_ptrs(s_old)
                        &&& int_right(s_new) == ptr
                    } else {
                        &&& int_n(s_new) == int_n(s_old) + 1
                        &&& int_keys(s_new) == int_keys(s_old).push(cell.spec_key())
                        &&& int_ptrs(s_new) == int_ptrs(s_old).push(int_right(s_old))
                        &&& int_right(s_new) == ptr
                    }
                } else {
                    &&& int_n(s_new) == int_n(s_old) + 1
                    &&& int_keys(s_new) == int_keys(s_old).insert(pos, cell.spec_key())
                    &&& int_ptrs(s_new) == int_ptrs(s_old).insert(pos, ptr)
                    &&& int_right(s_new) == int_right(s_old)
                }
            }),
    {
        let key = cell.get_key();
        if self.check_key_exists(key) {
            return Err(NodeResult::DuplicateKey);
        }
        if let Err(e) = self.check_has_space(key) {
            return Err(e);
        }
        match self.kind {
            PageType::Internal => self.insert_internal_cell(cell),
            PageType::Leaf => self.insert_leaf_cell(cell),
        }
    }

    /// Leaf half of `insert_cell`: rebuilds the page around the new
    /// record.
    fn insert_leaf_cell<T: Cell>(&mut self, cell: T) -> (r: Result<(), NodeResult>)
        requires
            old(self).inv(),
            old(self).kind == PageType::Leaf,
            !node_has_key(old(self).page@, cell.spec_key()),
            !node_full(old(self).page@),
        ensures
            final(self).inv(),
            final(self).kind == old(self).kind,
            page_kind_byte(final(self).page@) == page_kind_byte(old(self).page@),
            page_root_byte(final(self).page@) == page_root_byte(old(self).page@),
            (r matches Err(e) && e matches NodeResult::HasOverflow(_)) <==> !leaf_has_room(
                old(self).page@,
                cell.spec_content().len() as int,
            ),
            r matches Err(e) ==> e matches NodeResult::HasOverflow(_),
            r.is_err() ==> final(self).page@ == old(self).page@ && final(self).keys == old(
                self,
            ).keys,
            r.is_ok() ==> ({
                let s_old = old(self).page@;
                let s_new = final(self).page@;
                let pos = count_lt(leaf_keys(s_old), cell.spec_key());
                &&& leaf_n(s_new) == leaf_n(s_old) + 1
                &&& leaf_next_raw(s_new) == leaf_next_raw(s_old)
                &&& leaf_overflow_raw(s_new) == leaf_overflow_raw(s_old)
                &&& leaf_keys(s_new) == leaf_keys(s_old).insert(pos, cell.spec_key())
                &&& leaf_vals(s_new) == leaf_vals(s_old).insert(pos, cell.spec_content())
                &&& leaf_flags(s_new) == leaf_flags(s_old).insert(
                    pos,
                    if cell.spec_overflow() {
                        1u8
                    } else {
                        0u8
                    },
                )
            }),
    {
        let ghost s_old = self.page@;
        let key = cell.get_key();
        let content = cell.get_content();
        let overflow = cell.get_overflow();
        let clen = content.len();
        let fss = read_u64_at(&self.page.0, LEAF_FREE_SPACE_START_OFFSET);
        let fse = read_u64_at(&self.page.0, LEAF_FREE_SPACE_END_OFFSET);
        if clen as u64 >= PAGE_SIZE as u64 || fss + (LEAF_KEY_CELL_SIZE as u64)
            + (LEAF_CONTENT_LEN_SIZE as u64) + (clen as u64) >= fse {
            return Err(NodeResult::HasOverflow(Vec::new()));
        }
        let pos64 = self.find_cell_num(key);
        let n = self.num_cells();
        let pos = pos64 as usize;
        let mut cells = decode_leaf(&self.page.0);
        let ghost cs_old = cells@;
        let new_cell = LeafCell::new(key, content, overflow);
        let ghost c = new_cell;
        cells.insert(pos, new_cell);
        proof {
            cs_old.insert_ensures(pos as int, c);
            assert forall|i: int|
                pos <= i < leaf_n(s_old) implies leaf_key(s_old, i) > key by {
                assert(node_key_at(s_old, i) >= key);
                assert(node_key_at(s_old, i) != key);
            }
            assert forall|i: int| 0 <= i < pos implies leaf_key(s_old, i) < key by {
                assert(node_key_at(s_old, i) < key);
            }
            lemma_leaf_insert_sorted(s_old, cs_old, cells@, pos as int, c);
            lemma_leaf_insert_space(s_old, cs_old, cells@, pos as int, c);
        }
        let root_flag = self.is_root();
        let next = read_u64_at(&self.page.0, LEAF_NEXT_SIBLING_POINTER_OFFSET);
        let overflow_raw = read_u64_at(&self.page.0, LEAF_OVERFLOW_POINTER_OFFSET);
        let new_page = encode_leaf(&cells, root_flag, next, overflow_raw);
        self.page = new_page;
        self.keys = n + 1;
        proof {
            assert forall|j: int| 0 <= j < cs_old.len() implies leaf_flag(s_old, j) == 0
                || leaf_flag(s_old, j) == 1 by {
                assert(leaf_slot_wf(s_old, j));
            }
            lemma_leaf_insert_views(s_old, self.page@, cs_old, cells@, pos as int, c);
        }
        Ok(())
    }

    /// Internal half of `insert_cell`: either a plain sorted insert, or
    /// an update of the right-most child that pulls the previous
    /// right-most child down into a new last cell.
    fn insert_internal_cell<T: Cell>(&mut self, cell: T) -> (r: Result<(), NodeResult>)
        requires
            old(self).inv(),
            old(self).kind == PageType::Internal,
            !node_has_key(old(self).page@, cell.spec_key()),
            !node_full(old(self).page@),
            cell.spec_content().len() == INTERNAL_CELL_SIZE,
            u64_from_be(
                cell.spec_content().subrange(INTERNAL_KEY_SIZE as int, INTERNAL_CELL_SIZE as int),
            ) != 0,
        ensures
            final(self).inv(),
            final(self).kind == old(self).kind,
            page_kind_byte(final(self).page@) == page_kind_byte(old(self).page@),
            page_root_byte(final(self).page@) == page_root_byte(old(self).page@),
            r is Ok,
            ({
                let s_old = old(self).page@;
                let s_new = final(self).page@;
                let pos = count_lt(int_keys(s_old), cell.spec_key());
                let ptr = u64_from_be(
                    cell.spec_content().subrange(
                        INTERNAL_KEY_SIZE as int,
                        INTERNAL_CELL_SIZE as int,
                    ),
                );
                if pos == int_n(s_old) as int {
                    if int_right(s_old) == 0 {
                        &&& int_n(s_new) == int_n(s_old)
                        &&& int_keys(s_new) == int_keys(s_old)
                        &&& int_ptrs(s_new) == int_ptrs(s_old)
                        &&& int_right(s_new) == ptr
                    } else {
                        &&& int_n(s_new) == int_n(s_old) + 1
                        &&& int_keys(s_new) == int_keys(s_old).push(cell.spec_key())
                        &&& int_ptrs(s_new) == int_ptrs(s_old).push(int_right(s_old))
                        &&& int_right(s_new) == ptr
                    }
                } else {
                    &&& int_n(s_new) == int_n(s_old) + 1
                    &&& int_keys(s_new) == int_keys(s_old).insert(pos, cell.spec_key())
                    &&& int_ptrs(s_new) == int_ptrs(s_old).insert(pos, ptr)
                    &&& int_right(s_new) == int_right(s_old)
                }
            }),
    {
        let ghost s_old = self.page@;
        let key = cell.get_key();
        let content = cell.get_content();
        let ptr = read_u64_at(&content, INTERNAL_KEY_SIZE);
        let pos64 = self.find_cell_num(key);
        let n = self.num_cells();
        let right = read_u64_at(&self.page.0, INTERNAL_RIGHT_MOST_CHILD_OFFSET);
        let root_flag = self.is_root();
        let mut cells = decode_internal(&self.page.0);
        let ghost cs_old = cells@;
        proof {
            lemma_internal_capacity();
            assert forall|j: int|
                0 <= j < cs_old.len() implies u64_from_be((#[trigger] cs_old[j]).pointer@)
                != 0 by {
                assert(int_ptr(s_old, j) != 0);
            }
        }
        if pos64 >= n {
            if right == 0 {
                let new_page = encode_internal(&cells, root_flag, ptr);
                self.page = new_page;
                proof {
                    assert(int_keys(self.page@) =~= int_keys(s_old));
                    assert(int_ptrs(self.page@) =~= int_ptrs(s_old));
                }
                return Ok(());
            }
            let pulled = InternalCell::new(key, u64_to_be_array(right));
            proof {
                lemma_u64_be_round_trip(right);
            }
            cells.push(pulled);
            proof {
                let cs = cells@;
                assert forall|x: int, y: int|
                    0 <= x < y < cs.len() implies (#[trigger] cs[x]).key < (
                    #[trigger] cs[y]).key by {
                    if y == cs.len() - 1 {
                        assert(cs[x] == cs_old[x]);
                        assert(node_key_at(s_old, x) < key);
                    } else {
                        assert(cs[x] == cs_old[x]);
                        assert(cs[y] == cs_old[y]);
                    }
                }
            }
            let new_page = encode_internal(&cells, root_flag, ptr);
            self.page = new_page;
            self.keys = n + 1;
            proof {
                let cs = cells@;
                let s_new = self.page@;
                assert forall|i: int| 0 <= i < cs.len() implies int_key(s_new, i) == int_keys(
                    s_old,
                ).push(key)[i] && int_ptr(s_new, i) == int_ptrs(s_old).push(right)[i] by {
                    if i < cs.len() - 1 {
                        assert(cs[i] == cs_old[i]);
                    } else {
                        assert(cs[i] == pulled);
                    }
                }
                assert(int_keys(s_new) =~= int_keys(s_old).push(key));
                assert(int_ptrs(s_new) =~= int_ptrs(s_old).push(right));
            }
            return Ok(());
        }
        let pos = pos64 as usize;
        let new_cell = InternalCell::new(key, u64_to_be_array(ptr));
        proof {
            lemma_u64_be_round_trip(ptr);
        }
        cells.insert(pos, new_cell);
        proof {
            cs_old.insert_ensures(pos as int, new_cell);
            let cs = cells@;
            assert forall|x: int, y: int|
                0 <= x < y < cs.len() implies (#[trigger] cs[x]).key < (#[trigger] cs[y]).key by {
                if x < pos && y > pos {
                    assert(cs[x] == cs_old[x]);
                    assert(cs[y] == cs_old[y - 1]);
                    assert(node_key_at(s_old, x) < key);
                    assert(node_key_at(s_old, y - 1) >= key);
                    assert(node_key_at(s_old, y - 1) != key);
                } else if y == pos {
                    assert(cs[x] == cs_old[x]);
                    assert(node_key_at(s_old, x) < key);
                } else if x == pos {
                    assert(cs[y] == cs_old[y - 1]);
                    assert(node_key_at(s_old, y - 1) >= key);
                    assert(node_key_at(s_old, y - 1) != key);
                } else if y < pos {
                    assert(cs[x] == cs_old[x]);
                    assert(cs[y] == cs_old[y]);
                } else {
                    assert(cs[x] == cs_old[x - 1]);
                    assert(cs[y] == cs_old[y - 1]);
                }
            }
            assert forall|j: int|
                0 <= j < cs.len() implies u64_from_be((#[trigger] cs[j]).pointer@) != 0 by {
                if j < pos {
                    assert(cs[j] == cs_old[j]);
                } else if j > pos {
                    assert(cs[j] == cs_old[j - 1]);
                }
            }
        }
        let new_page = encode_internal(&cells, root_flag, right);
        self.page = new_page;
        self.keys = n + 1;
        proof {
            let cs = cells@;
            let s_new = self.page@;
            let ks = int_keys(s_old).insert(pos as int, key);
            let ps = int_ptrs(s_old).insert(pos as int, ptr);
            int_keys(s_old).insert_ensures(pos as int, key);
            int_ptrs(s_old).insert_ensures(pos as int, ptr);
            assert forall|i: int| 0 <= i < cs.len() implies int_key(s_new, i) == ks[i] && int_ptr(
                s_new,
                i,
            ) == ps[i] by {
                if i < pos {
                    assert(cs[i] == cs_old[i]);
                    assert(ks[i] == int_keys(s_old)[i]);
                    assert(ps[i] == int_ptrs(s_old)[i]);
                } else if i > pos {
                    assert(cs[i] == cs_old[i - 1]);
                    assert(ks[i] == int_keys(s_old)[i - 1]);
                    assert(ps[i] == int_ptrs(s_old)[i - 1]);
                } else {
                    assert(cs[i] == new_cell);
                }
            }
            assert(int_keys(s_new) =~= ks);
            assert(int_ptrs(s_new) =~= ps);
        }
        Ok(())
    }
}

// ------------------------------------------------------------------
// Splitting.
// ------------------------------------------------------------------
/// Total blob bytes of the first `k` values of a value sequence.
pub open spec fn vals_blob_total(vs: Seq<Seq<u8>>, k: int) -> int
    decreases k,
{
    if k <= 0 {
        0
    } else {
        vals_blob_total(vs, k - 1) + LEAF_CONTENT_LEN_SIZE + vs[k - 1].len()
    }
}

/// Number of cells the right half receives when `m` cells are split.
pub open spec fn split_right_count(m: int) -> int {
    m / 2
}

/// Number of cells the left half keeps when `m` cells are split.
pub open spec fn split_left_count(m: int) -> int {
    m - split_right_count(m)
}

/// Whether both halves of a leaf split fit in a page once the record
/// `(key, content)` joins the cells of `s`.
pub open spec fn leaf_split_fits(s: Seq<u8>, key: u64, content: Seq<u8>) -> bool {
    let pos = count_lt(leaf_keys(s), key);
    let vs = leaf_vals(s).insert(pos, content);
    let m = leaf_n(s) + 1;
    let lc = split_left_count(m as int);
    &&& LEAF_HEADER_SIZE + lc * LEAF_KEY_CELL_SIZE + vals_blob_total(vs, lc) <= PAGE_SIZE
    &&& LEAF_HEADER_SIZE + (m - lc) * LEAF_KEY_CELL_SIZE + (vals_blob_total(vs, m as int)
        - vals_blob_total(vs, lc)) <= PAGE_SIZE
}

/// Cell and value blob totals agree when the values are the cells'
/// contents.
proof fn lemma_vals_cells_total(cs: Seq<LeafCell>, vs: Seq<Seq<u8>>, k: int)
    requires
        forall|j: int| 0 <= j < k ==> vs[j] == (#[trigger] cs[j]).content@,
    ensures
        cells_blob_total(cs, k) == vals_blob_total(vs, k),
    decreases k,
{
    if k > 0 {
        lemma_vals_cells_total(cs, vs, k - 1);
    }
}

/// Computes whether `count` key slots and the blobs of the cell range
/// `[from, to)` fit in one page.
fn leaf_range_fits(cells: &Vec<LeafCell>, from: usize, to: usize) -> (ok: bool)
    requires
        from <= to <= cells@.len(),
        cells@.len() <= PAGE_SIZE,
    ensures
        ok == (LEAF_HEADER_SIZE + (to - from) * LEAF_KEY_CELL_SIZE + (cells_blob_total(
            cells@,
            to as int,
        ) - cells_blob_total(cells@, from as int)) <= PAGE_SIZE),
{
    let mut sum: u64 = 0;
    let mut j: usize = from;
    while j < to
        invariant
            from <= j <= to <= cells@.len(),
            cells@.len() <= PAGE_SIZE,
            sum as int == cells_blob_total(cells@, j as int) - cells_blob_total(
                cells@,
                from as int,
            ),
            sum as int <= PAGE_SIZE as int,
        decreases to - j,
    {
        proof {
            lemma_cells_total_mono(cells@, from as int, j as int);
        }
        let clen = cells[j].content_size();
        if clen >= PAGE_SIZE {
            proof {
                lemma_cells_total_mono(cells@, j + 1, to as int);
            }
            return false;
        }
        sum = sum + (LEAF_CONTENT_LEN_SIZE as u64) + (clen as u64);
        j = j + 1;
        if sum > PAGE_SIZE as u64 {
            proof {
                lemma_cells_total_mono(cells@, j as int, to as int);
            }
            return false;
        }
    }
    let slots = (to - from) * LEAF_KEY_CELL_SIZE;
    LEAF_HEADER_SIZE as u64 + slots as u64 + sum <= PAGE_SIZE as u64
}

impl Node {
    /// Splits the contents of the current node, together with the
    /// incoming cell, between the current node (left half) and the
    /// passed-in empty node (right half).
    ///
    /// The left half keeps the smaller keys. A leaf split can fail with
    /// `HasOverflow` when one half cannot hold its values; both pages
    /// are then left untouched. An internal split keeps the boundary
    /// cell's child as the left half's right-most child, and hands the
    /// old right-most child to the right half.
    ///
    /// The contract pins the halves' cell counts, not their freedom
    /// from the byte-based leaf fullness rule: a half whose values are
    /// large may trip that rule again at its next insert, which then
    /// simply splits once more. An internal half is always non-full,
    /// since each keeps at most half of one more than the maximum.
    pub fn split<T: Cell>(&mut self, node: &mut Node, cell: T) -> (r: Result<(), NodeResult>)
        requires
            old(self).inv(),
            old(node).inv(),
            old(node).kind == old(self).kind,
            node_n(old(node).page@) == 0,
            page_root_byte(old(node).page@) == 0,
            node_n(old(self).page@) >= 1,
            !node_has_key(old(self).page@, cell.spec_key()),
            old(self).kind == PageType::Internal ==> cell.spec_content().len()
                == INTERNAL_CELL_SIZE && u64_from_be(
                cell.spec_content().subrange(INTERNAL_KEY_SIZE as int, INTERNAL_CELL_SIZE as int),
            ) != 0,
        ensures
            final(self).inv(),
            final(node).inv(),
            final(self).kind == old(self).kind,
            final(node).kind == old(node).kind,
            page_kind_byte(final(self).page@) == page_kind_byte(old(self).page@),
            page_kind_byte(final(node).page@) == page_kind_byte(old(node).page@),
            page_root_byte(final(self).page@) == page_root_byte(old(self).page@),
            page_root_byte(final(node).page@) == 0,
            r.is_err() ==> final(self).page@ == old(self).page@ && final(node).page@ == old(
                node,
            ).page@ && final(self).keys == old(self).keys && final(node).keys == old(node).keys,
            r.is_err() ==> (r matches Err(e) && e matches NodeResult::HasOverflow(_)),
            old(self).kind == PageType::Leaf ==> (r.is_ok() <==> leaf_split_fits(
                old(self).page@,
                cell.spec_key(),
                cell.spec_content(),
            )),
            old(self).kind == PageType::Internal ==> r.is_ok(),
            old(self).kind == PageType::Leaf && r.is_ok() ==> ({
                let s_old = old(self).page@;
                let pos = count_lt(leaf_keys(s_old), cell.spec_key());
                let ks = leaf_keys(s_old).insert(pos, cell.spec_key());
                let vs = leaf_vals(s_old).insert(pos, cell.spec_content());
                let m = leaf_n(s_old) + 1;
                let lc = split_left_count(m as int);
                &&& leaf_n(final(self).page@) == lc
                &&& leaf_n(final(node).page@) == m - lc
                &&& leaf_keys(final(self).page@) == ks.subrange(0, lc)
                &&& leaf_vals(final(self).page@) == vs.subrange(0, lc)
                &&& leaf_keys(final(node).page@) == ks.subrange(lc, m as int)
                &&& leaf_vals(final(node).page@) == vs.subrange(lc, m as int)
                &&& leaf_next_raw(final(self).page@) == leaf_next_raw(s_old)
                &&& leaf_next_raw(final(node).page@) == (if leaf_next_raw(s_old)
                    != LEAF_NEXT_SIBLING_POINTER_DEFAULT {
                    leaf_next_raw(s_old)
                } else {
                    leaf_next_raw(old(node).page@)
                })
                &&& leaf_overflow_raw(final(self).page@) == leaf_overflow_raw(s_old)
            }),
            old(self).kind == PageType::Internal && r.is_ok() ==> ({
                let s_old = old(self).page@;
                let pos = count_lt(int_keys(s_old), cell.spec_key());
                let key = cell.spec_key();
                let ptr = u64_from_be(
                    cell.spec_content().subrange(
                        INTERNAL_KEY_SIZE as int,
                        INTERNAL_CELL_SIZE as int,
                    ),
                );
                let ks = if pos == int_n(s_old) as int {
                    int_keys(s_old).push(key)
                } else {
                    int_keys(s_old).insert(pos, key)
                };
                let ps = if pos == int_n(s_old) as int {
                    int_ptrs(s_old).push(int_right(s_old))
                } else {
                    int_ptrs(s_old).insert(pos, ptr)
                };
                let overall_right = if pos == int_n(s_old) as int {
                    ptr
                } else {
                    int_right(s_old)
                };
                let m = int_n(s_old) + 1;
                let lc = split_left_count(m as int);
                &&& int_n(final(self).page@) == lc
                &&& int_n(final(node).page@) == m - lc
                &&& int_keys(final(self).page@) == ks.subrange(0, lc)
                &&& int_ptrs(final(self).page@) == ps.subrange(0, lc)
                &&& int_right(final(self).page@) == ps[lc - 1]
                &&& int_keys(final(node).page@) == ks.subrange(lc, m as int)
                &&& int_ptrs(final(node).page@) == ps.subrange(lc, m as int)
                &&& int_right(final(node).page@) == overall_right
            }),
            old(self).kind == PageType::Internal ==> !int_full(final(self).page@) && !int_full(
                final(node).page@,
            ),
    {
        match self.kind {
            PageType::Internal => {
                let r = self.split_internal_node(node, cell);
                proof {
                    // Each half keeps at most half of one more than the
                    // maximum, so both are clear of the fullness rule.
                    lemma_internal_capacity();
                }
                r
            },
            PageType::Leaf => self.split_leaf_node(node, cell),
        }
    }
}

impl Node {
    /// Splits a full leaf node.
    #[verifier::rlimit(100)]
    fn split_leaf_node<T: Cell>(&mut self, node: &mut Node, cell: T) -> (r: Result<
        (),
        NodeResult,
    >)
        requires
            old(self).inv(),
            old(node).inv(),
            old(self).kind == PageType::Leaf,
            old(node).kind == PageType::Leaf,
            node_n(old(node).page@) == 0,
            page_root_byte(old(node).page@) == 0,
            node_n(old(self).page@) >= 1,
            !node_has_key(old(self).page@, cell.spec_key()),
        ensures
            final(self).inv(),
            final(node).inv(),
            final(self).kind == old(self).kind,
            final(node).kind == old(node).kind,
            page_kind_byte(final(self).page@) == page_kind_byte(old(self).page@),
            page_kind_byte(final(node).page@) == page_kind_byte(old(node).page@),
            page_root_byte(final(self).page@) == page_root_byte(old(self).page@),
            page_root_byte(final(node).page@) == 0,
            r.is_err() ==> final(self).page@ == old(self).page@ && final(node).page@ == old(
                node,
            ).page@ && final(self).keys == old(self).keys && final(node).keys == old(node).keys,
            r.is_err() ==> (r matches Err(e) && e matches NodeResult::HasOverflow(_)),
            r.is_ok() <==> leaf_split_fits(old(self).page@, cell.spec_key(), cell.spec_content()),
            r.is_ok() ==> ({
                let s_old = old(self).page@;
                let pos = count_lt(leaf_keys(s_old), cell.spec_key());
                let ks = leaf_keys(s_old).insert(pos, cell.spec_key());
                let vs = leaf_vals(s_old).insert(pos, cell.spec_content());
                let m = leaf_n(s_old) + 1;
                let lc = split_left_count(m as int);
                &&& leaf_n(final(self).page@) == lc
                &&& leaf_n(final(node).page@) == m - lc
                &&& leaf_keys(final(self).page@) == ks.subrange(0, lc)
                &&& leaf_vals(final(self).page@) == vs.subrange(0, lc)
                &&& leaf_keys(final(node).page@) == ks.subrange(lc, m as int)
                &&& leaf_vals(final(node).page@) == vs.subrange(lc, m as int)
                &&& leaf_next_raw(final(self).page@) == leaf_next_raw(s_old)
                &&& leaf_next_raw(final(node).page@) == (if leaf_next_raw(s_old)
                    != LEAF_NEXT_SIBLING_POINTER_DEFAULT {
                    leaf_next_raw(s_old)
                } else {
                    leaf_next_raw(old(node).page@)
                })
                &&& leaf_overflow_raw(final(self).page@) == leaf_overflow_raw(s_old)
            }),
    {
        let ghost s_old = self.page@;
        let key = cell.get_key();
        let content = cell.get_content();
        let overflow = cell.get_overflow();
        let pos64 = self.find_cell_num(key);
        let n = self.num_cells();
        let pos = pos64 as usize;
        let mut cells = decode_leaf(&self.page.0);
        let ghost cs_old = cells@;
        let c = LeafCell::new(key, content, overflow);
        let ghost cg = c;
        cells.insert(pos, c);
        let ghost comb = cells@;
        let ghost ks = leaf_keys(s_old).insert(pos as int, key);
        let ghost vs = leaf_vals(s_old).insert(pos as int, cg.content@);
        proof {
            cs_old.insert_ensures(pos as int, cg);
            leaf_keys(s_old).insert_ensures(pos as int, key);
            leaf_vals(s_old).insert_ensures(pos as int, cg.content@);
            assert forall|i: int|
                pos <= i < leaf_n(s_old) implies leaf_key(s_old, i) > key by {
                assert(node_key_at(s_old, i) >= key);
                assert(node_key_at(s_old, i) != key);
            }
            assert forall|i: int| 0 <= i < pos implies leaf_key(s_old, i) < key by {
                assert(node_key_at(s_old, i) < key);
            }
            lemma_leaf_insert_sorted(s_old, cs_old, comb, pos as int, cg);
            assert forall|i: int|
                0 <= i < comb.len() implies (#[trigger] comb[i]).identifier == ks[i]
                    && comb[i].content@ == vs[i] by {
                if i < pos {
                    assert(comb[i] == cs_old[i]);
                    assert(ks[i] == leaf_keys(s_old)[i]);
                    assert(vs[i] == leaf_vals(s_old)[i]);
                } else if i > pos {
                    assert(comb[i] == cs_old[i - 1]);
                    assert(ks[i] == leaf_keys(s_old)[i - 1]);
                    assert(vs[i] == leaf_vals(s_old)[i - 1]);
                }
            }
            lemma_vals_cells_total(comb, vs, comb.len() as int);
        }
        let m = (n + 1) as usize;
        let rc = m / 2;
        let lc = m - rc;
        proof {
            lemma_vals_cells_total(comb, vs, lc as int);
        }
        if !leaf_range_fits(&cells, 0, lc) {
            return Err(NodeResult::HasOverflow(Vec::new()));
        }
        if !leaf_range_fits(&cells, lc, m) {
            return Err(NodeResult::HasOverflow(Vec::new()));
        }
        let right_cells = cells.split_off(lc);
        let ghost left_cs = cells@;
        let ghost right_cs = right_cells@;
        proof {
            assert(left_cs =~= comb.subrange(0, lc as int));
            assert(right_cs =~= comb.subrange(lc as int, m as int));
            lemma_cells_total_congruent(left_cs, comb, lc as int);
            lemma_cells_total_offset(comb, right_cs, lc as int, rc as int);
            assert(leaf_space_needed(left_cs) <= PAGE_SIZE);
            assert(leaf_space_needed(right_cs) <= PAGE_SIZE);
        }
        let root_flag = self.is_root();
        let self_next = read_u64_at(&self.page.0, LEAF_NEXT_SIBLING_POINTER_OFFSET);
        let self_overflow = read_u64_at(&self.page.0, LEAF_OVERFLOW_POINTER_OFFSET);
        let node_next_old = read_u64_at(&node.page.0, LEAF_NEXT_SIBLING_POINTER_OFFSET);
        let node_overflow_old = read_u64_at(&node.page.0, LEAF_OVERFLOW_POINTER_OFFSET);
        let node_next = if self_next != LEAF_NEXT_SIBLING_POINTER_DEFAULT {
            self_next
        } else {
            node_next_old
        };
        let left_page = encode_leaf(&cells, root_flag, self_next, self_overflow);
        let right_page = encode_leaf(&right_cells, false, node_next, node_overflow_old);
        self.page = left_page;
        self.keys = lc as u64;
        node.page = right_page;
        node.keys = rc as u64;
        proof {
            let sl = self.page@;
            let sr = node.page@;
            assert forall|i: int| 0 <= i < lc implies leaf_key(sl, i) == ks.subrange(
                0,
                lc as int,
            )[i] && leaf_content(sl, i) == vs.subrange(0, lc as int)[i] by {
                assert(leaf_key(sl, i) == left_cs[i].identifier);
                assert(left_cs[i] == comb[i]);
            }
            assert(leaf_keys(sl) =~= ks.subrange(0, lc as int));
            assert(leaf_vals(sl) =~= vs.subrange(0, lc as int));
            assert forall|i: int| 0 <= i < rc implies leaf_key(sr, i) == ks.subrange(
                lc as int,
                m as int,
            )[i] && leaf_content(sr, i) == vs.subrange(lc as int, m as int)[i] by {
                assert(leaf_key(sr, i) == right_cs[i].identifier);
                assert(right_cs[i] == comb[lc + i]);
            }
            assert(leaf_keys(sr) =~= ks.subrange(lc as int, m as int));
            assert(leaf_vals(sr) =~= vs.subrange(lc as int, m as int));
        }
        Ok(())
    }

    /// Splits a full internal node, following the same left-leaning
    /// rule as leaves. The boundary cell's child becomes the left
    /// half's right-most child; the old right-most child (or, for an
    /// insert past the last separator, the incoming pointer) goes to
    /// the right half.
    #[verifier::rlimit(100)]
    fn split_internal_node<T: Cell>(&mut self, node: &mut Node, cell: T) -> (r: Result<
        (),
        NodeResult,
    >)
        requires
            old(self).inv(),
            old(node).inv(),
            old(self).kind == PageType::Internal,
            old(node).kind == PageType::Internal,
            node_n(old(node).page@) == 0,
            page_root_byte(old(node).page@) == 0,
            node_n(old(self).page@) >= 1,
            !node_has_key(old(self).page@, cell.spec_key()),
            cell.spec_content().len() == INTERNAL_CELL_SIZE,
            u64_from_be(
                cell.spec_content().subrange(INTERNAL_KEY_SIZE as int, INTERNAL_CELL_SIZE as int),
            ) != 0,
        ensures
            final(self).inv(),
            final(node).inv(),
            final(self).kind == old(self).kind,
            final(node).kind == old(node).kind,
            page_kind_byte(final(self).page@) == page_kind_byte(old(self).page@),
            page_kind_byte(final(node).page@) == page_kind_byte(old(node).page@),
            page_root_byte(final(self).page@) == page_root_byte(old(self).page@),
            page_root_byte(final(node).page@) == 0,
            r.is_ok(),
            ({
                let s_old = old(self).page@;
                let pos = count_lt(int_keys(s_old), cell.spec_key());
                let key = cell.spec_key();
                let ptr = u64_from_be(
                    cell.spec_content().subrange(
                        INTERNAL_KEY_SIZE as int,
                        INTERNAL_CELL_SIZE as int,
                    ),
                );
                let ks = if pos == int_n(s_old) as int {
                    int_keys(s_old).push(key)
                } else {
                    int_keys(s_old).insert(pos, key)
                };
                let ps = if pos == int_n(s_old) as int {
                    int_ptrs(s_old).push(int_right(s_old))
                } else {
                    int_ptrs(s_old).insert(pos, ptr)
                };
                let overall_right = if pos == int_n(s_old) as int {
                    ptr
                } else {
                    int_right(s_old)
                };
                let m = int_n(s_old) + 1;
                let lc = split_left_count(m as int);
                &&& int_n(final(self).page@) == lc
                &&& int_n(final(node).page@) == m - lc
                &&& int_keys(final(self).page@) == ks.subrange(0, lc)
                &&& int_ptrs(final(self).page@) == ps.subrange(0, lc)
                &&& int_right(final(self).page@) == ps[lc - 1]
                &&& int_keys(final(node).page@) == ks.subrange(lc, m as int)
                &&& int_ptrs(final(node).page@) == ps.subrange(lc, m as int)
                &&& int_right(final(node).page@) == overall_right
            }),
    {
        let ghost s_old = self.page@;
        let key = cell.get_key();
        let content = cell.get_content();
        let ptr = read_u64_at(&content, INTERNAL_KEY_SIZE);
        let pos64 = self.find_cell_num(key);
        let n = self.num_cells();
        let right_old = read_u64_at(&self.page.0, INTERNAL_RIGHT_MOST_CHILD_OFFSET);
        let mut cells = decode_internal(&self.page.0);
        let ghost cs_old = cells@;
        proof {
            lemma_internal_capacity();
            assert forall|j: int|
                0 <= j < cs_old.len() implies u64_from_be((#[trigger] cs_old[j]).pointer@)
                != 0 by {
                assert(int_ptr(s_old, j) != 0);
            }
        }
        let overall_right: u64;
        if pos64 >= n {
            let pulled = InternalCell::new(key, u64_to_be_array(right_old));
            proof {
                lemma_u64_be_round_trip(right_old);
            }
            cells.push(pulled);
            overall_right = ptr;
            proof {
                let comb = cells@;
                assert forall|x: int, y: int|
                    0 <= x < y < comb.len() implies (#[trigger] comb[x]).key < (
                    #[trigger] comb[y]).key by {
                    if y == comb.len() - 1 {
                        assert(comb[x] == cs_old[x]);
                        assert(node_key_at(s_old, x) < key);
                    } else {
                        assert(comb[x] == cs_old[x]);
                        assert(comb[y] == cs_old[y]);
                    }
                }
            }
        } else {
            let new_cell = InternalCell::new(key, u64_to_be_array(ptr));
            proof {
                lemma_u64_be_round_trip(ptr);
            }
            cells.insert(pos64 as usize, new_cell);
            overall_right = right_old;
            proof {
                let pos = pos64 as int;
                cs_old.insert_ensures(pos, new_cell);
                let comb = cells@;
                assert forall|x: int, y: int|
                    0 <= x < y < comb.len() implies (#[trigger] comb[x]).key < (
                    #[trigger] comb[y]).key by {
                    if x < pos && y > pos {
                        assert(comb[x] == cs_old[x]);
                        assert(comb[y] == cs_old[y - 1]);
                        assert(node_key_at(s_old, x) < key);
                        assert(node_key_at(s_old, y - 1) >= key);
                        assert(node_key_at(s_old, y - 1) != key);
                    } else if y == pos {
                        assert(comb[x] == cs_old[x]);
                        assert(node_key_at(s_old, x) < key);
                    } else if x == pos {
                        assert(comb[y] == cs_old[y - 1]);
                        assert(node_key_at(s_old, y - 1) >= key);
                        assert(node_key_at(s_old, y - 1) != key);
                    } else if y < pos {
                        assert(comb[x] == cs_old[x]);
                        assert(comb[y] == cs_old[y]);
                    } else {
                        assert(comb[x] == cs_old[x - 1]);
                        assert(comb[y] == cs_old[y - 1]);
                    }
                }
            }
        }
        let ghost comb = cells@;
        let ghost pos = pos64 as int;
        let ghost kk = key;
        let ghost ks = if pos == int_n(s_old) as int {
            int_keys(s_old).push(kk)
        } else {
            int_keys(s_old).insert(pos, kk)
        };
        let ghost ps = if pos == int_n(s_old) as int {
            int_ptrs(s_old).push(int_right(s_old))
        } else {
            int_ptrs(s_old).insert(pos, ptr)
        };
        proof {
            if pos == int_n(s_old) as int {
                assert forall|i: int|
                    0 <= i < comb.len() implies (#[trigger] comb[i]).key == ks[i] && u64_from_be(
                    comb[i].pointer@) == ps[i] by {
                    if i < comb.len() - 1 {
                        assert(comb[i] == cs_old[i]);
                    }
                }
            } else {
                int_keys(s_old).insert_ensures(pos, kk);
                int_ptrs(s_old).insert_ensures(pos, ptr);
                assert forall|i: int|
                    0 <= i < comb.len() implies (#[trigger] comb[i]).key == ks[i] && u64_from_be(
                    comb[i].pointer@) == ps[i] by {
                    if i < pos {
                        assert(comb[i] == cs_old[i]);
                        assert(ks[i] == int_keys(s_old)[i]);
                        assert(ps[i] == int_ptrs(s_old)[i]);
                    } else if i > pos {
                        assert(comb[i] == cs_old[i - 1]);
                        assert(ks[i] == int_keys(s_old)[i - 1]);
                        assert(ps[i] == int_ptrs(s_old)[i - 1]);
                    }
                }
            }
            assert forall|j: int|
                0 <= j < comb.len() implies u64_from_be((#[trigger] comb[j]).pointer@) != 0 by {
                assert(u64_from_be(comb[j].pointer@) == ps[j]);
            }
        }
        let m = (n + 1) as usize;
        let rc = m / 2;
        let lc = m - rc;
        let right_cells = cells.split_off(lc);
        let ghost left_cs = cells@;
        let ghost right_cs = right_cells@;
        proof {
            assert(left_cs =~= comb.subrange(0, lc as int));
            assert(right_cs =~= comb.subrange(lc as int, m as int));
        }
        let boundary_ptr = cells[lc - 1].pointer();
        let root_flag = self.is_root();
        let left_page = encode_internal(&cells, root_flag, boundary_ptr);
        let right_page = encode_internal(&right_cells, false, overall_right);
        self.page = left_page;
        self.keys = lc as u64;
        node.page = right_page;
        node.keys = rc as u64;
        proof {
            let sl = self.page@;
            let sr = node.page@;
            assert forall|i: int| 0 <= i < lc implies int_key(sl, i) == ks.subrange(
                0,
                lc as int,
            )[i] && int_ptr(sl, i) == ps.subrange(0, lc as int)[i] by {
                assert(int_key(sl, i) == left_cs[i].key);
                assert(left_cs[i] == comb[i]);
            }
            assert(int_keys(sl) =~= ks.subrange(0, lc as int));
            assert(int_ptrs(sl) =~= ps.subrange(0, lc as int));
            assert forall|i: int| 0 <= i < rc implies int_key(sr, i) == ks.subrange(
                lc as int,
                m as int,
            )[i] && int_ptr(sr, i) == ps.subrange(lc as int, m as int)[i] by {
                assert(int_key(sr, i) == right_cs[i].key);
                assert(right_cs[i] == comb[lc + i]);
            }
            assert(int_keys(sr) =~= ks.subrange(lc as int, m as int));
            assert(int_ptrs(sr) =~= ps.subrange(lc as int, m as int));
            assert(int_right(sl) == ps[lc - 1]) by {
                assert(left_cs[lc - 1] == comb[lc - 1]);
            }
        }
        Ok(())
    }
}

impl Node {
    /// Rewrites the separator cell that currently carries `identifier`
    /// with the incoming cell's key and child pointer.
    ///
    /// Internal pages only. Fails with `KeyDoesNotExist` when the key
    /// is absent, and with `InvalidPage` when the replacement key would
    /// break the separator order; the page is then left untouched.
    pub fn update<T: Cell>(&mut self, identifier: u64, cell: T) -> (r: Result<(), NodeResult>)
        requires
            old(self).inv(),
            old(self).kind == PageType::Internal,
            cell.spec_content().len() == INTERNAL_CELL_SIZE,
            u64_from_be(
                cell.spec_content().subrange(INTERNAL_KEY_SIZE as int, INTERNAL_CELL_SIZE as int),
            ) != 0,
        ensures
            final(self).inv(),
            final(self).kind == old(self).kind,
            page_kind_byte(final(self).page@) == page_kind_byte(old(self).page@),
            page_root_byte(final(self).page@) == page_root_byte(old(self).page@),
            (r matches Err(e) && e matches NodeResult::KeyDoesNotExist) <==> !node_has_key(
                old(self).page@,
                identifier,
            ),
            r.is_err() ==> final(self).page@ == old(self).page@ && final(self).keys == old(
                self,
            ).keys,
            ({
                let s_old = old(self).page@;
                let pos = count_lt(int_keys(s_old), identifier);
                let ordered = (pos == 0 || int_key(s_old, pos - 1) < cell.spec_key()) && (pos
                    == int_n(s_old) - 1 || cell.spec_key() < int_key(s_old, pos + 1));
                node_has_key(s_old, identifier) ==> (r.is_ok() <==> ordered)
            }),
            r.is_ok() ==> ({
                let s_old = old(self).page@;
                let s_new = final(self).page@;
                let pos = count_lt(int_keys(s_old), identifier);
                let ptr = u64_from_be(
                    cell.spec_content().subrange(
                        INTERNAL_KEY_SIZE as int,
                        INTERNAL_CELL_SIZE as int,
                    ),
                );
                &&& int_n(s_new) == int_n(s_old)
                &&& int_keys(s_new) == int_keys(s_old).update(pos, cell.spec_key())
                &&& int_ptrs(s_new) == int_ptrs(s_old).update(pos, ptr)
                &&& int_right(s_new) == int_right(s_old)
            }),
    {
        let ghost s_old = self.page@;
        if !self.check_key_exists(identifier) {
            return Err(NodeResult::KeyDoesNotExist);
        }
        let key = cell.get_key();
        let content = cell.get_content();
        let ptr = read_u64_at(&content, INTERNAL_KEY_SIZE);
        let pos64 = self.find_cell_num(identifier);
        let n = self.num_cells();
        proof {
            // The key is present, so the lower bound lands on its cell.
            let i0 = choose|i: int|
                0 <= i < node_n(s_old) && node_key_at(s_old, i) == identifier;
            assert(i0 == pos64 as int) by {
                if i0 < pos64 as int {
                    assert(node_key_at(s_old, i0) < identifier);
                } else if i0 > pos64 as int {
                    assert(node_key_at(s_old, pos64 as int) >= identifier);
                    assert(int_key(s_old, pos64 as int) < int_key(s_old, i0));
                }
            }
        }
        let pos = pos64 as usize;
        let mut cells = decode_internal(&self.page.0);
        let ghost cs_old = cells@;
        // Ordering of the replacement against its neighbours.
        let prev_ok = if pos == 0 {
            true
        } else {
            let prev = self.get_cell_key(pos64 - 1);
            prev < key
        };
        let next_ok = if pos64 == n - 1 {
            true
        } else {
            let next = self.get_cell_key(pos64 + 1);
            key < next
        };
        if !(prev_ok && next_ok) {
            return Err(
                NodeResult::InvalidPage {
                    desc: "separator replacement would break key order".to_string(),
                },
            );
        }
        let new_cell = InternalCell::new(key, u64_to_be_array(ptr));
        proof {
            lemma_u64_be_round_trip(ptr);
        }
        cells.set(pos, new_cell);
        let right = read_u64_at(&self.page.0, INTERNAL_RIGHT_MOST_CHILD_OFFSET);
        let root_flag = self.is_root();
        proof {
            lemma_internal_capacity();
            let cs = cells@;
            assert forall|x: int, y: int|
                0 <= x < y < cs.len() implies (#[trigger] cs[x]).key < (#[trigger] cs[y]).key by {
                if x != pos && y != pos {
                    assert(cs[x] == cs_old[x]);
                    assert(cs[y] == cs_old[y]);
                } else if y == pos && x < pos {
                    assert(cs[x] == cs_old[x]);
                    assert(int_key(s_old, x) <= int_key(s_old, pos - 1) || x == pos - 1);
                } else if x == pos && y > pos {
                    assert(cs[y] == cs_old[y]);
                    assert(int_key(s_old, pos + 1) <= int_key(s_old, y) || y == pos + 1);
                }
            }
            assert forall|j: int|
                0 <= j < cs.len() implies u64_from_be((#[trigger] cs[j]).pointer@) != 0 by {
                if j != pos {
                    assert(cs[j] == cs_old[j]);
                    assert(int_ptr(s_old, j) != 0);
                }
            }
        }
        let new_page = encode_internal(&cells, root_flag, right);
        self.page = new_page;
        proof {
            let s_new = self.page@;
            let cs = cells@;
            let ks = int_keys(s_old).update(pos as int, key);
            let ps = int_ptrs(s_old).update(pos as int, ptr);
            assert forall|i: int| 0 <= i < cs.len() implies int_key(s_new, i) == ks[i] && int_ptr(
                s_new,
                i,
            ) == ps[i] by {
                if i != pos {
                    assert(cs[i] == cs_old[i]);
                    assert(ks[i] == int_keys(s_old)[i]);
                    assert(ps[i] == int_ptrs(s_old)[i]);
                } else {
                    assert(cs[i] == new_cell);
                }
            }
            assert(int_keys(s_new) =~= ks);
            assert(int_ptrs(s_new) =~= ps);
        }
        Ok(())
    }
}

} // verus!
