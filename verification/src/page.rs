//! Pages and the page builder.
//!
//! This module defines what the bytes of a page mean: specification
//! functions that read every header field, the well-formedness predicates
//! for leaf and internal pages, and the builder that produces correctly
//! initialized page bytes.
use crate::codec::{
    lemma_u64_be_round_trip, read_bytes_at, u64_from_be, u64_to_be, write_u64_at, write_u8_at,
};
use crate::layout::{
    INTERNAL_CELL_SIZE, INTERNAL_HEADER_SIZE, INTERNAL_KEY_POINTER_SIZE, INTERNAL_MAX_KEYS,
    INTERNAL_NUM_KEYS_OFFSET, INTERNAL_RIGHT_MOST_CHILD_OFFSET, LEAF_CONTENT_LEN_SIZE,
    LEAF_FREE_SPACE_END_OFFSET, LEAF_FREE_SPACE_START_OFFSET, LEAF_HEADER_SIZE,
    LEAF_KEY_CELL_SIZE, LEAF_KEY_IDENTIFIER_OFFSET, LEAF_KEY_POINTER_OFFSET,
    LEAF_NEXT_SIBLING_POINTER_DEFAULT, LEAF_NEXT_SIBLING_POINTER_OFFSET, LEAF_NUM_KEYS_OFFSET,
    LEAF_OVERFLOW_POINTER_DEFAULT, LEAF_OVERFLOW_POINTER_OFFSET, PAGE_IS_ROOT_OFFSET,
    PAGE_KIND_INTERNAL, PAGE_KIND_LEAF, PAGE_MAGIC, PAGE_MAGIC_OFFSET, PAGE_MAGIC_SIZE,
    PAGE_SIZE, PAGE_TYPE_OFFSET,
};
use vstd::prelude::*;

verus! {

broadcast use crate::layout::lemma_mul_leaf_cell_size, crate::layout::lemma_mul_internal_cell_size;

// ------------------------------------------------------------------
// Common header fields.
// ------------------------------------------------------------------
/// The 8-byte magic value at the start of a page.
pub open spec fn page_magic(s: Seq<u8>) -> u64 {
    u64_from_be(s.subrange(PAGE_MAGIC_OFFSET as int, PAGE_MAGIC_OFFSET + PAGE_MAGIC_SIZE))
}

/// The kind tag byte of a page.
pub open spec fn page_kind_byte(s: Seq<u8>) -> u8 {
    s[PAGE_TYPE_OFFSET as int]
}

/// The is-root flag byte of a page.
pub open spec fn page_root_byte(s: Seq<u8>) -> u8 {
    s[PAGE_IS_ROOT_OFFSET as int]
}

// ------------------------------------------------------------------
// Leaf page fields.
// ------------------------------------------------------------------
/// The overflow-page pointer of a leaf (sentinel `u64::MAX` means none).
pub open spec fn leaf_overflow_raw(s: Seq<u8>) -> u64 {
    u64_from_be(s.subrange(LEAF_OVERFLOW_POINTER_OFFSET as int, LEAF_OVERFLOW_POINTER_OFFSET + 8))
}

/// The next-sibling pointer of a leaf (sentinel `u64::MAX` means none).
pub open spec fn leaf_next_raw(s: Seq<u8>) -> u64 {
    u64_from_be(
        s.subrange(LEAF_NEXT_SIBLING_POINTER_OFFSET as int, LEAF_NEXT_SIBLING_POINTER_OFFSET + 8),
    )
}

/// The cell count of a leaf.
pub open spec fn leaf_n(s: Seq<u8>) -> u64 {
    u64_from_be(s.subrange(LEAF_NUM_KEYS_OFFSET as int, LEAF_NUM_KEYS_OFFSET + 8))
}

/// The offset where free space starts (end of the key-slot region).
pub open spec fn leaf_fss(s: Seq<u8>) -> u64 {
    u64_from_be(s.subrange(LEAF_FREE_SPACE_START_OFFSET as int, LEAF_FREE_SPACE_START_OFFSET + 8))
}

/// The offset where free space ends (start of the value-blob region).
pub open spec fn leaf_fse(s: Seq<u8>) -> u64 {
    u64_from_be(s.subrange(LEAF_FREE_SPACE_END_OFFSET as int, LEAF_FREE_SPACE_END_OFFSET + 8))
}

/// Byte offset of leaf key slot `i`.
pub open spec fn leaf_slot_pos(i: int) -> int {
    LEAF_HEADER_SIZE + i * LEAF_KEY_CELL_SIZE
}

/// The overflow flag byte of leaf cell `i`.
pub open spec fn leaf_flag(s: Seq<u8>, i: int) -> u8 {
    s[leaf_slot_pos(i)]
}

/// The key of leaf cell `i`.
pub open spec fn leaf_key(s: Seq<u8>, i: int) -> u64 {
    u64_from_be(
        s.subrange(
            leaf_slot_pos(i) + LEAF_KEY_IDENTIFIER_OFFSET,
            leaf_slot_pos(i) + LEAF_KEY_IDENTIFIER_OFFSET + 8,
        ),
    )
}

/// The value pointer of leaf cell `i`: the in-page offset of its blob.
pub open spec fn leaf_ptr(s: Seq<u8>, i: int) -> u64 {
    u64_from_be(
        s.subrange(
            leaf_slot_pos(i) + LEAF_KEY_POINTER_OFFSET,
            leaf_slot_pos(i) + LEAF_KEY_POINTER_OFFSET + 8,
        ),
    )
}

/// The length prefix of leaf cell `i`'s value blob.
pub open spec fn leaf_len(s: Seq<u8>, i: int) -> u64 {
    u64_from_be(s.subrange(leaf_ptr(s, i) as int, leaf_ptr(s, i) + 8))
}

/// The value bytes of leaf cell `i`.
pub open spec fn leaf_content(s: Seq<u8>, i: int) -> Seq<u8> {
    s.subrange(
        leaf_ptr(s, i) + LEAF_CONTENT_LEN_SIZE,
        leaf_ptr(s, i) + LEAF_CONTENT_LEN_SIZE + leaf_len(s, i),
    )
}

/// Bytes taken by the blob of leaf cell `i`: length prefix plus value.
pub open spec fn leaf_blob_size(s: Seq<u8>, i: int) -> int {
    LEAF_CONTENT_LEN_SIZE + leaf_len(s, i)
}

/// Total bytes taken by the blobs of the first `k` leaf cells.
pub open spec fn leaf_blob_total(s: Seq<u8>, k: int) -> int
    decreases k,
{
    if k <= 0 {
        0
    } else {
        leaf_blob_total(s, k - 1) + leaf_blob_size(s, k - 1)
    }
}

/// Structural soundness of one leaf cell: a boolean flag and a blob that
/// lies inside the value region.
pub open spec fn leaf_slot_wf(s: Seq<u8>, i: int) -> bool {
    &&& (leaf_flag(s, i) == 0 || leaf_flag(s, i) == 1)
    &&& leaf_fse(s) <= leaf_ptr(s, i)
    &&& leaf_ptr(s, i) + LEAF_CONTENT_LEN_SIZE + leaf_len(s, i) <= PAGE_SIZE
}

/// Well-formedness of a leaf page: valid common header, consistent
/// free-space accounting, sound cells, and strictly ascending keys.
pub open spec fn leaf_wf(s: Seq<u8>) -> bool {
    &&& s.len() == PAGE_SIZE
    &&& page_magic(s) == PAGE_MAGIC
    &&& page_kind_byte(s) == PAGE_KIND_LEAF
    &&& (page_root_byte(s) == 0 || page_root_byte(s) == 1)
    &&& LEAF_HEADER_SIZE <= leaf_fss(s) <= leaf_fse(s) <= PAGE_SIZE
    &&& leaf_fss(s) - LEAF_HEADER_SIZE == leaf_n(s) * LEAF_KEY_CELL_SIZE
    &&& leaf_fse(s) == PAGE_SIZE - leaf_blob_total(s, leaf_n(s) as int)
    &&& forall|i: int| 0 <= i < leaf_n(s) ==> leaf_slot_wf(s, i)
    &&& forall|i: int, j: int|
        0 <= i < j < leaf_n(s) ==> leaf_key(s, i) < leaf_key(s, j)
}

/// The keys of a leaf, in slot order.
pub open spec fn leaf_keys(s: Seq<u8>) -> Seq<u64> {
    Seq::new(leaf_n(s) as nat, |i: int| leaf_key(s, i))
}

/// The values of a leaf, in slot order.
pub open spec fn leaf_vals(s: Seq<u8>) -> Seq<Seq<u8>> {
    Seq::new(leaf_n(s) as nat, |i: int| leaf_content(s, i))
}

/// The overflow flags of a leaf, in slot order.
pub open spec fn leaf_flags(s: Seq<u8>) -> Seq<u8> {
    Seq::new(leaf_n(s) as nat, |i: int| leaf_flag(s, i))
}

// ------------------------------------------------------------------
// Internal page fields.
// ------------------------------------------------------------------
/// The cell count of an internal page.
pub open spec fn int_n(s: Seq<u8>) -> u64 {
    u64_from_be(s.subrange(INTERNAL_NUM_KEYS_OFFSET as int, INTERNAL_NUM_KEYS_OFFSET + 8))
}

/// The right-most child pointer of an internal page.
pub open spec fn int_right(s: Seq<u8>) -> u64 {
    u64_from_be(
        s.subrange(
            INTERNAL_RIGHT_MOST_CHILD_OFFSET as int,
            INTERNAL_RIGHT_MOST_CHILD_OFFSET + 8,
        ),
    )
}

/// Byte offset of internal cell `i`.
pub open spec fn int_cell_pos(i: int) -> int {
    INTERNAL_HEADER_SIZE + i * INTERNAL_CELL_SIZE
}

/// The separator key of internal cell `i`.
pub open spec fn int_key(s: Seq<u8>, i: int) -> u64 {
    u64_from_be(s.subrange(int_cell_pos(i), int_cell_pos(i) + 8))
}

/// The child page number of internal cell `i`.
pub open spec fn int_ptr(s: Seq<u8>, i: int) -> u64 {
    u64_from_be(
        s.subrange(
            int_cell_pos(i) + INTERNAL_KEY_POINTER_SIZE,
            int_cell_pos(i) + INTERNAL_KEY_POINTER_SIZE + 8,
        ),
    )
}

/// Well-formedness of an internal page: valid common header, a cell
/// count that fits the body, strictly ascending separators, and a set
/// right-most child whenever any cell is present.
pub open spec fn int_wf(s: Seq<u8>) -> bool {
    &&& s.len() == PAGE_SIZE
    &&& page_magic(s) == PAGE_MAGIC
    &&& page_kind_byte(s) == PAGE_KIND_INTERNAL
    &&& (page_root_byte(s) == 0 || page_root_byte(s) == 1)
    &&& int_n(s) <= INTERNAL_MAX_KEYS
    &&& forall|i: int, j: int| 0 <= i < j < int_n(s) ==> int_key(s, i) < int_key(s, j)
    &&& forall|i: int| 0 <= i < int_n(s) ==> int_ptr(s, i) != 0
    &&& (int_n(s) > 0 ==> int_right(s) != 0)
}

/// The separator keys of an internal page, in cell order.
pub open spec fn int_keys(s: Seq<u8>) -> Seq<u64> {
    Seq::new(int_n(s) as nat, |i: int| int_key(s, i))
}

/// The child pointers of an internal page, in cell order.
pub open spec fn int_ptrs(s: Seq<u8>) -> Seq<u64> {
    Seq::new(int_n(s) as nat, |i: int| int_ptr(s, i))
}

/// A page is well-formed when it is a well-formed leaf or a well-formed
/// internal page.
pub open spec fn page_wf(s: Seq<u8>) -> bool {
    leaf_wf(s) || int_wf(s)
}

// ------------------------------------------------------------------
// Framing lemmas: a write that stays inside the common or leaf header
// leaves the decoded cells untouched.
// ------------------------------------------------------------------
/// Blob totals agree between two pages whose first `k` blob sizes agree.
pub proof fn lemma_blob_total_congruent(a: Seq<u8>, b: Seq<u8>, k: int)
    requires
        forall|i: int| 0 <= i < k ==> leaf_blob_size(b, i) == leaf_blob_size(a, i),
    ensures
        leaf_blob_total(b, k) == leaf_blob_total(a, k),
    decreases k,
{
    if k > 0 {
        lemma_blob_total_congruent(a, b, k - 1);
    }
}

/// Blob totals never shrink as more cells are counted.
pub proof fn lemma_blob_total_mono(s: Seq<u8>, k1: int, k2: int)
    requires
        0 <= k1 <= k2,
    ensures
        leaf_blob_total(s, k1) <= leaf_blob_total(s, k2),
    decreases k2,
{
    if k2 > k1 {
        lemma_blob_total_mono(s, k1, k2 - 1);
    }
}

/// A change confined to the byte range `[lo, hi)` of a leaf header —
/// past the magic and before the cell count — preserves well-formedness
/// and every decoded cell.
pub proof fn lemma_leaf_header_frame(a: Seq<u8>, b: Seq<u8>, lo: int, hi: int)
    requires
        leaf_wf(a),
        b.len() == PAGE_SIZE,
        PAGE_MAGIC_SIZE <= lo <= hi <= LEAF_NUM_KEYS_OFFSET,
        forall|j: int| 0 <= j < PAGE_SIZE && !(lo <= j < hi) ==> b[j] == a[j],
        page_kind_byte(b) == PAGE_KIND_LEAF,
        page_root_byte(b) == 0 || page_root_byte(b) == 1,
    ensures
        leaf_wf(b),
        leaf_n(b) == leaf_n(a),
        leaf_fss(b) == leaf_fss(a),
        leaf_fse(b) == leaf_fse(a),
        leaf_keys(b) == leaf_keys(a),
        leaf_vals(b) == leaf_vals(a),
        leaf_flags(b) == leaf_flags(a),
        forall|i: int|
            0 <= i < leaf_n(a) ==> leaf_key(b, i) == leaf_key(a, i) && leaf_ptr(b, i) == leaf_ptr(
                a,
                i,
            ) && leaf_len(b, i) == leaf_len(a, i) && leaf_content(b, i) == leaf_content(a, i)
                && leaf_flag(b, i) == leaf_flag(a, i),
{
    crate::codec::lemma_frame_subrange(
        a,
        b,
        PAGE_MAGIC_OFFSET as int,
        PAGE_MAGIC_OFFSET + PAGE_MAGIC_SIZE,
    );
    crate::codec::lemma_frame_subrange(
        a,
        b,
        LEAF_NUM_KEYS_OFFSET as int,
        LEAF_NUM_KEYS_OFFSET + 8,
    );
    crate::codec::lemma_frame_subrange(
        a,
        b,
        LEAF_FREE_SPACE_START_OFFSET as int,
        LEAF_FREE_SPACE_START_OFFSET + 8,
    );
    crate::codec::lemma_frame_subrange(
        a,
        b,
        LEAF_FREE_SPACE_END_OFFSET as int,
        LEAF_FREE_SPACE_END_OFFSET + 8,
    );
    let n = leaf_n(a) as int;
    assert forall|i: int| 0 <= i < n implies leaf_key(b, i) == leaf_key(a, i) && leaf_ptr(b, i)
        == leaf_ptr(a, i) && leaf_len(b, i) == leaf_len(a, i) && leaf_content(b, i)
        == leaf_content(a, i) && leaf_flag(b, i) == leaf_flag(a, i) && leaf_slot_wf(b, i) by {
        assert(leaf_slot_wf(a, i));
        assert(leaf_slot_pos(i) + LEAF_KEY_CELL_SIZE <= leaf_fss(a)) by {
            assert((i + 1) * LEAF_KEY_CELL_SIZE <= n * LEAF_KEY_CELL_SIZE) by (nonlinear_arith)
                requires
                    i + 1 <= n,
                    LEAF_KEY_CELL_SIZE > 0,
            ;
        }
        crate::codec::lemma_frame_subrange(
            a,
            b,
            leaf_slot_pos(i) + LEAF_KEY_IDENTIFIER_OFFSET,
            leaf_slot_pos(i) + LEAF_KEY_IDENTIFIER_OFFSET + 8,
        );
        crate::codec::lemma_frame_subrange(
            a,
            b,
            leaf_slot_pos(i) + LEAF_KEY_POINTER_OFFSET,
            leaf_slot_pos(i) + LEAF_KEY_POINTER_OFFSET + 8,
        );
        assert(leaf_ptr(b, i) == leaf_ptr(a, i));
        crate::codec::lemma_frame_subrange(a, b, leaf_ptr(a, i) as int, leaf_ptr(a, i) + 8);
        assert(leaf_len(b, i) == leaf_len(a, i));
        crate::codec::lemma_frame_subrange(
            a,
            b,
            leaf_ptr(a, i) + LEAF_CONTENT_LEN_SIZE,
            leaf_ptr(a, i) + LEAF_CONTENT_LEN_SIZE + leaf_len(a, i),
        );
    }
    lemma_blob_total_congruent(a, b, n);
    assert(leaf_keys(b) =~= leaf_keys(a));
    assert(leaf_vals(b) =~= leaf_vals(a));
    assert(leaf_flags(b) =~= leaf_flags(a));
}

/// A change confined to the byte range `[lo, hi)` of an internal header —
/// past the magic and before the cell count — preserves well-formedness
/// and every decoded cell.
pub proof fn lemma_int_header_frame(a: Seq<u8>, b: Seq<u8>, lo: int, hi: int)
    requires
        int_wf(a),
        b.len() == PAGE_SIZE,
        PAGE_MAGIC_SIZE <= lo <= hi <= INTERNAL_NUM_KEYS_OFFSET,
        forall|j: int| 0 <= j < PAGE_SIZE && !(lo <= j < hi) ==> b[j] == a[j],
        page_kind_byte(b) == PAGE_KIND_INTERNAL,
        page_root_byte(b) == 0 || page_root_byte(b) == 1,
    ensures
        int_wf(b),
        int_n(b) == int_n(a),
        int_right(b) == int_right(a),
        int_keys(b) == int_keys(a),
        int_ptrs(b) == int_ptrs(a),
        forall|i: int|
            0 <= i < int_n(a) ==> int_key(b, i) == int_key(a, i) && int_ptr(b, i) == int_ptr(a, i),
{
    crate::codec::lemma_frame_subrange(
        a,
        b,
        PAGE_MAGIC_OFFSET as int,
        PAGE_MAGIC_OFFSET + PAGE_MAGIC_SIZE,
    );
    crate::codec::lemma_frame_subrange(
        a,
        b,
        INTERNAL_NUM_KEYS_OFFSET as int,
        INTERNAL_NUM_KEYS_OFFSET + 8,
    );
    crate::codec::lemma_frame_subrange(
        a,
        b,
        INTERNAL_RIGHT_MOST_CHILD_OFFSET as int,
        INTERNAL_RIGHT_MOST_CHILD_OFFSET + 8,
    );
    let n = int_n(a) as int;
    assert forall|i: int| 0 <= i < n implies int_key(b, i) == int_key(a, i) && int_ptr(b, i)
        == int_ptr(a, i) by {
        assert((i + 1) * INTERNAL_CELL_SIZE <= n * INTERNAL_CELL_SIZE) by (nonlinear_arith)
            requires
                i + 1 <= n,
                INTERNAL_CELL_SIZE > 0,
        ;
        crate::codec::lemma_frame_subrange(a, b, int_cell_pos(i), int_cell_pos(i) + 8);
        crate::codec::lemma_frame_subrange(
            a,
            b,
            int_cell_pos(i) + INTERNAL_KEY_POINTER_SIZE,
            int_cell_pos(i) + INTERNAL_KEY_POINTER_SIZE + 8,
        );
    }
    assert(int_keys(b) =~= int_keys(a));
    assert(int_ptrs(b) =~= int_ptrs(a));
}

// ------------------------------------------------------------------
// Page values.
// ------------------------------------------------------------------
/// On-disk structure for storing and organizing records: one fixed-size
/// block of bytes.
#[derive(Debug)]
pub struct Page(pub Vec<u8>);

impl View for Page {
    type V = Seq<u8>;

    open spec fn view(&self) -> Seq<u8> {
        self.0@
    }
}

impl Page {
    /// Copies the page bytes into a fresh page.
    pub fn duplicate(&self) -> (r: Page)
        requires
            self@.len() == PAGE_SIZE,
        ensures
            r@ == self@,
    {
        let bytes = read_bytes_at(&self.0, 0, PAGE_SIZE);
        proof {
            assert(bytes@ =~= self@);
        }
        Page(bytes)
    }
}

/// An in-memory page held by the pager's cache.
#[derive(Debug)]
pub struct CachedPage(pub Page);

impl View for CachedPage {
    type V = Seq<u8>;

    open spec fn view(&self) -> Seq<u8> {
        self.0@
    }
}

impl CachedPage {
    pub fn new(page: Page) -> (r: Self)
        ensures
            r@ == page@,
    {
        CachedPage(page)
    }
}

/// Type of page.
///
/// A page can be one of two types:
///
/// - `Internal`: an index node within the tree,
/// - `Leaf`: an external node that stores the actual records.
#[derive(Debug, Clone, Copy, PartialEq, Eq, Structural)]
pub enum PageType {
    Internal,
    Leaf,
}

/// The on-disk kind tag of a page type.
pub open spec fn page_type_byte(t: PageType) -> u8 {
    match t {
        PageType::Leaf => PAGE_KIND_LEAF,
        PageType::Internal => PAGE_KIND_INTERNAL,
    }
}

impl PageType {
    /// The kind tag this type is stored as.
    pub fn as_byte(&self) -> (r: u8)
        ensures
            r == page_type_byte(*self),
    {
        match self {
            PageType::Leaf => PAGE_KIND_LEAF,
            PageType::Internal => PAGE_KIND_INTERNAL,
        }
    }

    /// Decodes a kind tag; fails on any byte that is not a known tag.
    pub fn from_byte(value: u8) -> (r: Result<PageType, String>)
        ensures
            value == PAGE_KIND_LEAF ==> r == Ok::<PageType, String>(PageType::Leaf),
            value == PAGE_KIND_INTERNAL ==> r == Ok::<PageType, String>(PageType::Internal),
            value != PAGE_KIND_LEAF && value != PAGE_KIND_INTERNAL ==> r.is_err(),
    {
        if value == PAGE_KIND_LEAF {
            Ok(PageType::Leaf)
        } else if value == PAGE_KIND_INTERNAL {
            Ok(PageType::Internal)
        } else {
            Err("unknown page type".to_string())
        }
    }
}

/// Converts a boolean value into its on-disk byte: true is 1, false is 0.
pub fn bool_to_u8(v: bool) -> (r: u8)
    ensures
        r == (if v {
            1u8
        } else {
            0u8
        }),
{
    if v {
        0x1
    } else {
        0x0
    }
}

/// Converts an on-disk byte into a boolean value; fails on any byte
/// other than 0 or 1.
pub fn u8_to_bool(v: u8) -> (r: Result<bool, String>)
    ensures
        v == 0 ==> r == Ok::<bool, String>(false),
        v == 1 ==> r == Ok::<bool, String>(true),
        v > 1 ==> r.is_err(),
{
    match v {
        0x0 => Ok(false),
        0x1 => Ok(true),
        _ => Err("value is not a boolean".to_string()),
    }
}

/// A fresh all-zero page body.
fn zeroed_page_bytes() -> (r: Vec<u8>)
    ensures
        r@ == Seq::new(PAGE_SIZE as nat, |i: int| 0u8),
{
    let mut r: Vec<u8> = Vec::new();
    let mut i: usize = 0;
    while i < PAGE_SIZE
        invariant
            i <= PAGE_SIZE,
            r@ == Seq::new(i as nat, |j: int| 0u8),
        decreases PAGE_SIZE - i,
    {
        r.push(0u8);
        proof {
            assert(r@ =~= Seq::new((i + 1) as nat, |j: int| 0u8));
        }
        i = i + 1;
    }
    r
}

/// Builder struct for a page.
///
/// Collects the kind, the root flag and, optionally, preloaded content,
/// then produces the finished page bytes.
pub struct PageBuilder {
    /// The page bytes being assembled.
    pub inner: Vec<u8>,
    /// The kind the page will carry.
    pub page_kind: PageType,
    /// Whether the body was preloaded from existing page content.
    pub content_set: bool,
}

impl PageBuilder {
    /// Preloads the builder with the bytes of an existing page, after
    /// checking their magic value.
    pub fn content(self, c: Page) -> (r: Result<Self, String>)
        requires
            c@.len() == PAGE_SIZE,
        ensures
            page_magic(c@) == PAGE_MAGIC ==> (r matches Ok(b) && b.inner@ == c@ && b.page_kind
                == self.page_kind && b.content_set),
            page_magic(c@) != PAGE_MAGIC ==> r.is_err(),
    {
        let magic = crate::codec::read_u64_at(&c.0, PAGE_MAGIC_OFFSET);
        if magic != PAGE_MAGIC {
            Err("content is not a valid page".to_string())
        } else {
            Ok(PageBuilder { inner: c.0, page_kind: self.page_kind, content_set: true })
        }
    }

    /// Sets the page kind and stamps its tag byte.
    pub fn kind(self, t: &PageType) -> (r: Self)
        requires
            self.inner@.len() == PAGE_SIZE,
        ensures
            r.inner@ == self.inner@.update(PAGE_TYPE_OFFSET as int, page_type_byte(*t)),
            r.page_kind == *t,
            r.content_set == self.content_set,
    {
        let mut inner = self.inner;
        let b = t.as_byte();
        write_u8_at(&mut inner, PAGE_TYPE_OFFSET, b);
        PageBuilder { inner, page_kind: *t, content_set: self.content_set }
    }

    /// Sets the is-root flag byte.
    pub fn is_root(self, is_root: bool) -> (r: Self)
        requires
            self.inner@.len() == PAGE_SIZE,
        ensures
            r.inner@ == self.inner@.update(
                PAGE_IS_ROOT_OFFSET as int,
                if is_root {
                    1u8
                } else {
                    0u8
                },
            ),
            r.page_kind == self.page_kind,
            r.content_set == self.content_set,
    {
        let mut inner = self.inner;
        let b = bool_to_u8(is_root);
        write_u8_at(&mut inner, PAGE_IS_ROOT_OFFSET, b);
        PageBuilder { inner, page_kind: self.page_kind, content_set: self.content_set }
    }

    /// Finishes the page: stamps the magic and, for a fresh leaf, the
    /// default leaf header fields.
    pub fn build(self) -> (r: Page)
        requires
            self.inner@.len() == PAGE_SIZE,
        ensures
            r@.len() == PAGE_SIZE,
            page_magic(r@) == PAGE_MAGIC,
            page_kind_byte(r@) == page_kind_byte(self.inner@),
            page_root_byte(r@) == page_root_byte(self.inner@),
            self.page_kind == PageType::Leaf && !self.content_set ==> {
                &&& leaf_fss(r@) == LEAF_HEADER_SIZE
                &&& leaf_fse(r@) == PAGE_SIZE
                &&& leaf_next_raw(r@) == LEAF_NEXT_SIBLING_POINTER_DEFAULT
                &&& leaf_overflow_raw(r@) == LEAF_OVERFLOW_POINTER_DEFAULT
                &&& leaf_n(r@) == leaf_n(self.inner@)
                &&& forall|j: int|
                    LEAF_HEADER_SIZE <= j < PAGE_SIZE ==> r@[j] == self.inner@[j]
            },
            !(self.page_kind == PageType::Leaf && !self.content_set) ==> forall|j: int|
                PAGE_MAGIC_SIZE <= j < PAGE_SIZE ==> r@[j] == self.inner@[j],
    {
        let mut inner = self.inner;
        write_u64_at(&mut inner, PAGE_MAGIC_OFFSET, PAGE_MAGIC);
        proof {
            lemma_u64_be_round_trip(PAGE_MAGIC);
        }
        if matches!(self.page_kind, PageType::Leaf) && !self.content_set {
            write_u64_at(&mut inner, LEAF_FREE_SPACE_START_OFFSET, LEAF_HEADER_SIZE as u64);
            write_u64_at(&mut inner, LEAF_FREE_SPACE_END_OFFSET, PAGE_SIZE as u64);
            write_u64_at(
                &mut inner,
                LEAF_NEXT_SIBLING_POINTER_OFFSET,
                LEAF_NEXT_SIBLING_POINTER_DEFAULT,
            );
            write_u64_at(&mut inner, LEAF_OVERFLOW_POINTER_OFFSET, LEAF_OVERFLOW_POINTER_DEFAULT);
            proof {
                lemma_u64_be_round_trip(LEAF_HEADER_SIZE as u64);
                lemma_u64_be_round_trip(PAGE_SIZE as u64);
                lemma_u64_be_round_trip(LEAF_NEXT_SIBLING_POINTER_DEFAULT);
                lemma_u64_be_round_trip(LEAF_OVERFLOW_POINTER_DEFAULT);
            }
        }
        Page(inner)
    }
}

impl Default for PageBuilder {
    /// A builder for a fresh zero-filled page, marked internal and not
    /// root until told otherwise.
    fn default() -> (r: Self)
        ensures
            r.inner@.len() == PAGE_SIZE,
            r.inner@ == Seq::new(PAGE_SIZE as nat, |i: int| 0u8).update(
                PAGE_TYPE_OFFSET as int,
                PAGE_KIND_INTERNAL,
            ),
            r.page_kind == PageType::Internal,
            !r.content_set,
    {
        let builder = PageBuilder {
            inner: zeroed_page_bytes(),
            page_kind: PageType::Leaf,
            content_set: false,
        }.kind(&PageType::Internal).is_root(false);
        proof {
            assert(builder.inner@ =~= Seq::new(PAGE_SIZE as nat, |i: int| 0u8).update(
                PAGE_TYPE_OFFSET as int,
                PAGE_KIND_INTERNAL,
            ));
        }
        builder
    }
}

} // verus!
