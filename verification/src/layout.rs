//! Compile-time sizes and offsets of every on-disk field.
//!
//! Every offset is computed from the field sizes that precede it, so the
//! sizes alone determine the page format. All multi-byte integers on disk
//! are big-endian.
use vstd::prelude::*;

verus! {

/// Size in bytes of one page on disk and in memory.
pub const PAGE_SIZE: usize = 4096;

// Common page header: magic, kind tag, is-root flag.
/// Value of the 8-byte magic field at the start of every page.
pub const PAGE_MAGIC: u64 = 0xFEBA;
pub const PAGE_MAGIC_SIZE: usize = 8;
pub const PAGE_MAGIC_OFFSET: usize = 0;

pub const PAGE_TYPE_SIZE: usize = 1;
pub const PAGE_TYPE_OFFSET: usize = PAGE_MAGIC_OFFSET + PAGE_MAGIC_SIZE;

pub const PAGE_IS_ROOT_SIZE: usize = 1;
pub const PAGE_IS_ROOT_OFFSET: usize = PAGE_TYPE_OFFSET + PAGE_TYPE_SIZE;

pub const PAGE_HEADERS_SIZE: usize = PAGE_MAGIC_SIZE + PAGE_TYPE_SIZE + PAGE_IS_ROOT_SIZE;

/// Kind tag of a leaf page.
pub const PAGE_KIND_LEAF: u8 = 0x0A;
/// Kind tag of an internal page.
pub const PAGE_KIND_INTERNAL: u8 = 0x0B;

// Internal page header: cell count, right-most child pointer.
pub const INTERNAL_NUM_KEYS_SIZE: usize = 8;
pub const INTERNAL_NUM_KEYS_OFFSET: usize = PAGE_HEADERS_SIZE;

pub const INTERNAL_RIGHT_MOST_CHILD_SIZE: usize = 8;
pub const INTERNAL_RIGHT_MOST_CHILD_OFFSET: usize =
    INTERNAL_NUM_KEYS_OFFSET + INTERNAL_NUM_KEYS_SIZE;

pub const INTERNAL_HEADER_SIZE: usize =
    PAGE_HEADERS_SIZE + INTERNAL_NUM_KEYS_SIZE + INTERNAL_RIGHT_MOST_CHILD_SIZE;

// Internal page body: a packed array of fixed-size cells.
pub const INTERNAL_KEY_SIZE: usize = 8;
pub const INTERNAL_KEY_OFFSET: usize = 0;
pub const INTERNAL_KEY_POINTER_SIZE: usize = 8;
pub const INTERNAL_KEY_POINTER_OFFSET: usize = INTERNAL_KEY_OFFSET + INTERNAL_KEY_SIZE;

pub const INTERNAL_CELL_SIZE: usize = INTERNAL_KEY_SIZE + INTERNAL_KEY_POINTER_SIZE;

pub const INTERNAL_SPACE_FOR_CELLS: usize = PAGE_SIZE - INTERNAL_HEADER_SIZE;
/// Greatest number of separator cells an internal page can hold.
pub const INTERNAL_MAX_KEYS: usize = INTERNAL_SPACE_FOR_CELLS / INTERNAL_CELL_SIZE;

// Leaf page header: overflow pointer, next sibling, cell count, free-space bounds.
pub const LEAF_OVERFLOW_POINTER_SIZE: usize = 8;
pub const LEAF_OVERFLOW_POINTER_OFFSET: usize = PAGE_HEADERS_SIZE;
/// Sentinel meaning a leaf has no overflow page.
pub const LEAF_OVERFLOW_POINTER_DEFAULT: u64 = u64::MAX;

pub const LEAF_NEXT_SIBLING_POINTER_SIZE: usize = 8;
pub const LEAF_NEXT_SIBLING_POINTER_OFFSET: usize =
    LEAF_OVERFLOW_POINTER_OFFSET + LEAF_OVERFLOW_POINTER_SIZE;
/// Sentinel meaning a leaf has no next sibling.
pub const LEAF_NEXT_SIBLING_POINTER_DEFAULT: u64 = u64::MAX;

pub const LEAF_NUM_KEYS_SIZE: usize = 8;
pub const LEAF_NUM_KEYS_OFFSET: usize =
    LEAF_NEXT_SIBLING_POINTER_OFFSET + LEAF_NEXT_SIBLING_POINTER_SIZE;

pub const LEAF_FREE_SPACE_START_SIZE: usize = 8;
pub const LEAF_FREE_SPACE_START_OFFSET: usize = LEAF_NUM_KEYS_OFFSET + LEAF_NUM_KEYS_SIZE;

pub const LEAF_FREE_SPACE_END_SIZE: usize = 8;
pub const LEAF_FREE_SPACE_END_OFFSET: usize =
    LEAF_FREE_SPACE_START_OFFSET + LEAF_FREE_SPACE_START_SIZE;

pub const LEAF_HEADER_SIZE: usize = PAGE_HEADERS_SIZE
    + LEAF_OVERFLOW_POINTER_SIZE
    + LEAF_NEXT_SIBLING_POINTER_SIZE
    + LEAF_NUM_KEYS_SIZE
    + LEAF_FREE_SPACE_START_SIZE
    + LEAF_FREE_SPACE_END_SIZE;

// Leaf page body: fixed-size key slots grow up from the header,
// variable-size value blobs grow down from the end of the page.
pub const LEAF_CELL_HAS_OVERFLOW_FLAG_SIZE: usize = 1;
pub const LEAF_CELL_HAS_OVERFLOW_FLAG_OFFSET: usize = 0;
pub const LEAF_KEY_IDENTIFIER_SIZE: usize = 8;
pub const LEAF_KEY_IDENTIFIER_OFFSET: usize =
    LEAF_CELL_HAS_OVERFLOW_FLAG_OFFSET + LEAF_CELL_HAS_OVERFLOW_FLAG_SIZE;
pub const LEAF_KEY_POINTER_SIZE: usize = 8;
pub const LEAF_KEY_POINTER_OFFSET: usize = LEAF_KEY_IDENTIFIER_OFFSET + LEAF_KEY_IDENTIFIER_SIZE;

/// Size of one leaf key slot: overflow flag, key, value pointer.
pub const LEAF_KEY_CELL_SIZE: usize =
    LEAF_CELL_HAS_OVERFLOW_FLAG_SIZE + LEAF_KEY_IDENTIFIER_SIZE + LEAF_KEY_POINTER_SIZE;

/// Size of the length prefix that precedes every value blob.
pub const LEAF_CONTENT_LEN_SIZE: usize = 8;
pub const LEAF_CONTENT_LEN_OFFSET: usize = 0;
pub const LEAF_CONTENT_START_OFFSET: usize = LEAF_CONTENT_LEN_OFFSET + LEAF_CONTENT_LEN_SIZE;

/// Bytes of a leaf page available to key slots and value blobs together.
pub const LEAF_SPACE_FOR_DATA: usize = PAGE_SIZE - LEAF_HEADER_SIZE;

/// Multiplying by the leaf key-slot size is multiplication by its
/// literal value; stated so that slot-offset arithmetic stays linear.
pub broadcast proof fn lemma_mul_leaf_cell_size(i: int)
    ensures
        #[trigger] (i * LEAF_KEY_CELL_SIZE) == i * 17,
{
    assert(LEAF_KEY_CELL_SIZE == 17);
    assert(i * LEAF_KEY_CELL_SIZE == i * 17);
}

/// Multiplying by the internal cell size is multiplication by its
/// literal value; stated so that cell-offset arithmetic stays linear.
pub broadcast proof fn lemma_mul_internal_cell_size(i: int)
    ensures
        #[trigger] (i * INTERNAL_CELL_SIZE) == i * 16,
{
    assert(INTERNAL_CELL_SIZE == 16);
    assert(i * INTERNAL_CELL_SIZE == i * 16);
}

/// Multiplying by the page size is multiplication by its literal
/// value; stated so that page-offset arithmetic stays linear.
pub broadcast proof fn lemma_mul_page_size(i: int)
    ensures
        #[trigger] (i * PAGE_SIZE) == i * 4096,
{
    assert(PAGE_SIZE == 4096);
    assert(i * PAGE_SIZE == i * 4096);
}

/// Turns a field's offset and size into the half-open byte range it occupies.
pub fn calculate_offsets(start: usize, size: usize) -> (r: (usize, usize))
    requires
        start + size <= usize::MAX,
    ensures
        r.0 == start,
        r.1 == start + size,
{
    (start, start + size)
}

} // verus!
