//! The pager: owns every page of the database in memory, allocates new
//! pages, performs root promotion and serializes the cache back into
//! file bytes.
//!
//! The host program owns the backing file: it hands `Pager::new` the
//! file's bytes and writes the bytes `flush_cache` returns. No fsync
//! is ever requested: durability across abrupt termination is not
//! guaranteed, only consistency of what a completed write left behind.
use crate::btree::validate_page;
use crate::codec::{lemma_u64_from_be_zeros, read_bytes_at};
use crate::layout::{
    INTERNAL_NUM_KEYS_OFFSET, INTERNAL_RIGHT_MOST_CHILD_OFFSET, PAGE_IS_ROOT_OFFSET, PAGE_SIZE,
    PAGE_TYPE_OFFSET,
};
use crate::page::{
    int_n, int_right, int_wf, leaf_fse, leaf_fss, leaf_n, leaf_next_raw, leaf_overflow_raw,
    leaf_wf, lemma_int_header_frame, lemma_leaf_header_frame, page_kind_byte, page_root_byte,
    page_wf, CachedPage, Page, PageBuilder, PageType,
};
use vstd::prelude::*;

verus! {

broadcast use crate::layout::lemma_mul_page_size;

/// The bytes of page `i` within a file image.
pub open spec fn file_page(bytes: Seq<u8>, i: int) -> Seq<u8> {
    bytes.subrange(i * PAGE_SIZE, (i + 1) * PAGE_SIZE)
}

/// Whether a non-empty file image is a valid database: a whole number
/// of well-formed pages, the first and only the first flagged as root.
pub open spec fn file_ok(bytes: Seq<u8>) -> bool {
    &&& bytes.len() as int % (PAGE_SIZE as int) == 0
    &&& bytes.len() > 0
    &&& forall|i: int|
        0 <= i < bytes.len() as int / (PAGE_SIZE as int) ==> page_wf(#[trigger] file_page(bytes, i))
    &&& page_root_byte(file_page(bytes, 0)) == 1
    &&& forall|i: int|
        1 <= i < bytes.len() as int / (PAGE_SIZE as int) ==> page_root_byte(
            #[trigger] file_page(bytes, i),
        ) == 0
}

/// Maps page numbers to page buffers, allocates pages, promotes roots
/// and flushes the cache.
pub struct Pager {
    /// Every page of the database, indexed by page number.
    pub pages: Vec<CachedPage>,
}

impl View for Pager {
    type V = Seq<Seq<u8>>;

    open spec fn view(&self) -> Seq<Seq<u8>> {
        Seq::new(self.pages@.len(), |i: int| self.pages@[i]@)
    }
}

impl Pager {
    /// Every page is well formed and exactly page zero carries the
    /// root flag.
    pub open spec fn inv(&self) -> bool {
        &&& self@.len() >= 1
        &&& forall|i: int| 0 <= i < self@.len() ==> page_wf(#[trigger] self@[i])
        &&& page_root_byte(self@[0]) == 1
        &&& forall|i: int| 1 <= i < self@.len() ==> page_root_byte(#[trigger] self@[i]) == 0
    }

    /// Opens a database from the bytes of its backing file. An empty
    /// file becomes a single empty leaf root page; anything else must
    /// be a whole number of valid pages.
    pub fn new(bytes: Vec<u8>) -> (r: Result<Pager, String>)
        ensures
            bytes@.len() == 0 ==> r is Ok,
            r.is_ok() <==> (bytes@.len() == 0 || file_ok(bytes@)),
            r matches Ok(p) ==> ({
                &&& p.inv()
                &&& bytes@.len() > 0 ==> p@.len() == bytes@.len() as int / (PAGE_SIZE as int) && (
                forall|i: int| 0 <= i < p@.len() ==> #[trigger] p@[i] == file_page(bytes@, i))
                &&& bytes@.len() == 0 ==> p@.len() == 1 && leaf_wf(p@[0]) && leaf_n(p@[0]) == 0
                    && leaf_fss(p@[0]) == crate::layout::LEAF_HEADER_SIZE && leaf_fse(p@[0])
                    == PAGE_SIZE && leaf_next_raw(p@[0])
                    == crate::layout::LEAF_NEXT_SIBLING_POINTER_DEFAULT && leaf_overflow_raw(
                    p@[0],
                ) == crate::layout::LEAF_OVERFLOW_POINTER_DEFAULT && (forall|j: int|
                    crate::layout::LEAF_HEADER_SIZE <= j < PAGE_SIZE ==> p@[0][j] == 0)
            }),
    {
        if bytes.len() == 0 {
            let b2 = PageBuilder::default().kind(&PageType::Leaf).is_root(true);
            let root = b2.build();
            proof {
                let inner = b2.inner@;
                let sub = inner.subrange(
                    crate::layout::LEAF_NUM_KEYS_OFFSET as int,
                    crate::layout::LEAF_NUM_KEYS_OFFSET + 8,
                );
                assert forall|k: int| 0 <= k < 8 implies sub[k] == 0 by {
                    assert(sub[k] == inner[crate::layout::LEAF_NUM_KEYS_OFFSET + k]);
                }
                lemma_u64_from_be_zeros(sub);
                assert(leaf_n(root@) == 0);
                assert(leaf_wf(root@));
            }
            let mut pages: Vec<CachedPage> = Vec::new();
            pages.push(CachedPage::new(root));
            let p = Pager { pages };
            proof {
                assert(p@[0] == p.pages@[0]@);
            }
            return Ok(p);
        }
        let total = bytes.len();
        if total % PAGE_SIZE != 0 {
            return Err("database file is not a whole number of pages".to_string());
        }
        let n = total / PAGE_SIZE;
        proof {
            assert(PAGE_SIZE == 4096);
            vstd::arithmetic::div_mod::lemma_fundamental_div_mod(total as int, PAGE_SIZE as int);
            assert(PAGE_SIZE as int * (total as int / PAGE_SIZE as int) == 4096 * (total as int
                / PAGE_SIZE as int));
        }
        let mut pages: Vec<CachedPage> = Vec::new();
        let mut i: usize = 0;
        while i < n
            invariant
                total == bytes@.len(),
                total % PAGE_SIZE == 0,
                n == total as int / PAGE_SIZE as int,
                total as int == n * 4096,
                i <= n,
                pages@.len() == i,
                forall|j: int| 0 <= j < i ==> #[trigger] pages@[j]@ == file_page(bytes@, j),
                forall|j: int| 0 <= j < i ==> page_wf(#[trigger] pages@[j]@),
                forall|j: int| 0 <= j < i ==> page_root_byte(#[trigger] pages@[j]@) == (
                if j == 0 {
                    1u8
                } else {
                    0u8
                }),
            decreases n - i,
        {
            let chunk = read_bytes_at(&bytes, i * PAGE_SIZE, PAGE_SIZE);
            let page = Page(chunk);
            if !validate_page(&page) {
                proof {
                    assert(file_page(bytes@, i as int) == page@);
                }
                return Err("database file holds an invalid page".to_string());
            }
            let flag = page.0[PAGE_IS_ROOT_OFFSET];
            if i == 0 && flag != 1 {
                proof {
                    assert(file_page(bytes@, 0) == page@);
                    assert(page_root_byte(file_page(bytes@, 0)) != 1);
                }
                return Err("database file root page is not flagged as root".to_string());
            }
            if i > 0 && flag != 0 {
                proof {
                    assert(file_page(bytes@, i as int) == page@);
                    assert(page_root_byte(file_page(bytes@, i as int)) != 0);
                }
                return Err("database file has a stray root flag".to_string());
            }
            pages.push(CachedPage::new(page));
            i = i + 1;
        }
        let p = Pager { pages };
        proof {
            assert(n >= 1);
            assert forall|j: int| 0 <= j < p@.len() implies #[trigger] p@[j] == file_page(
                bytes@,
                j,
            ) && page_wf(p@[j]) by {
                assert(p@[j] == p.pages@[j]@);
            }
            assert(p@[0] == p.pages@[0]@);
            assert forall|j: int| 1 <= j < p@.len() implies page_root_byte(#[trigger] p@[j])
                == 0 by {
                assert(p@[j] == p.pages@[j]@);
            }
            assert forall|j: int|
                0 <= j < bytes@.len() as int / (PAGE_SIZE as int) implies page_wf(
                #[trigger] file_page(bytes@, j)) by {
                assert(file_page(bytes@, j) == p@[j]);
            }
            assert forall|j: int|
                1 <= j < bytes@.len() as int / (PAGE_SIZE as int) implies page_root_byte(
                #[trigger] file_page(bytes@, j)) == 0 by {
                assert(file_page(bytes@, j) == p@[j]);
            }
            assert(file_page(bytes@, 0) == p@[0]);
            assert(file_ok(bytes@));
        }
        Ok(p)
    }

    /// The root's page number, which is always zero.
    pub fn root_page(&self) -> (r: u64)
        ensures
            r == 0,
    {
        0
    }

    /// Allocates a fresh page of the given kind at the next page
    /// number and returns the number with a copy of the page.
    pub fn new_page(&mut self, kind: PageType, is_root: bool) -> (r: (u64, CachedPage))
        requires
            old(self).inv(),
            !is_root,
        ensures
            final(self).inv(),
            r.0 == old(self)@.len(),
            final(self)@.len() == old(self)@.len() + 1,
            forall|i: int| 0 <= i < old(self)@.len() ==> #[trigger] final(self)@[i] == old(
                self,
            )@[i],
            r.1@ == final(self)@[r.0 as int],
            page_wf(final(self)@[r.0 as int]),
            page_kind_byte(final(self)@[r.0 as int]) == crate::page::page_type_byte(kind),
            page_root_byte(final(self)@[r.0 as int]) == 0,
            kind == PageType::Leaf ==> leaf_n(final(self)@[r.0 as int]) == 0 && leaf_fss(
                final(self)@[r.0 as int],
            ) == crate::layout::LEAF_HEADER_SIZE && leaf_fse(final(self)@[r.0 as int])
                == PAGE_SIZE && leaf_next_raw(final(self)@[r.0 as int])
                == crate::layout::LEAF_NEXT_SIBLING_POINTER_DEFAULT && leaf_overflow_raw(
                final(self)@[r.0 as int],
            ) == crate::layout::LEAF_OVERFLOW_POINTER_DEFAULT,
            kind == PageType::Internal ==> int_n(final(self)@[r.0 as int]) == 0 && int_right(
                final(self)@[r.0 as int],
            ) == 0,
    {
        let builder = PageBuilder::default().kind(&kind).is_root(is_root);
        let built = builder.build();
        proof {
            let inner = builder.inner@;
            let s = built@;
            if kind == PageType::Leaf {
                let sub = inner.subrange(
                    crate::layout::LEAF_NUM_KEYS_OFFSET as int,
                    crate::layout::LEAF_NUM_KEYS_OFFSET + 8,
                );
                assert forall|k: int| 0 <= k < 8 implies sub[k] == 0 by {
                    assert(sub[k] == inner[crate::layout::LEAF_NUM_KEYS_OFFSET + k]);
                }
                lemma_u64_from_be_zeros(sub);
                assert(leaf_n(s) == 0);
                assert(leaf_wf(s));
            } else {
                let sub1 = s.subrange(INTERNAL_NUM_KEYS_OFFSET as int, INTERNAL_NUM_KEYS_OFFSET
                    + 8);
                let sub2 = s.subrange(
                    INTERNAL_RIGHT_MOST_CHILD_OFFSET as int,
                    INTERNAL_RIGHT_MOST_CHILD_OFFSET + 8,
                );
                assert forall|k: int| 0 <= k < 8 implies sub1[k] == 0 && sub2[k] == 0 by {
                    assert(sub1[k] == s[INTERNAL_NUM_KEYS_OFFSET + k]);
                    assert(sub2[k] == s[INTERNAL_RIGHT_MOST_CHILD_OFFSET + k]);
                    assert(s[INTERNAL_NUM_KEYS_OFFSET + k] == inner[INTERNAL_NUM_KEYS_OFFSET + k]);
                    assert(s[INTERNAL_RIGHT_MOST_CHILD_OFFSET + k] == inner[
                        INTERNAL_RIGHT_MOST_CHILD_OFFSET + k]);
                }
                lemma_u64_from_be_zeros(sub1);
                lemma_u64_from_be_zeros(sub2);
                assert(int_wf(s));
            }
        }
        let copy = built.duplicate();
        let num = self.pages.len() as u64;
        self.pages.push(CachedPage::new(built));
        proof {
            assert forall|i: int| 0 <= i < old(self)@.len() implies #[trigger] self@[i] == old(
                self,
            )@[i] by {
                assert(self.pages@[i] == old(self).pages@[i]);
            }
            assert(self@[num as int] == self.pages@[num as int]@);
        }
        (num, CachedPage::new(copy))
    }

    /// Creates a new internal root in place of the current root and
    /// returns the old root's contents at its new page number.
    ///
    /// The caller is responsible for recreating the links required for
    /// a valid tree.
    pub fn new_root(&mut self) -> (r: (u64, CachedPage))
        requires
            old(self).inv(),
        ensures
            final(self).inv(),
            r.0 == old(self)@.len(),
            final(self)@.len() == old(self)@.len() + 1,
            forall|i: int| 1 <= i < old(self)@.len() ==> #[trigger] final(self)@[i] == old(
                self,
            )@[i],
            // The copy of the old root keeps its bytes, with the root
            // flag cleared.
            final(self)@[r.0 as int] == old(self)@[0].update(PAGE_IS_ROOT_OFFSET as int, 0u8),
            r.1@ == final(self)@[r.0 as int],
            // Page zero becomes a fresh internal root.
            int_wf(final(self)@[0]),
            int_n(final(self)@[0]) == 0,
            int_right(final(self)@[0]) == 0,
            page_root_byte(final(self)@[0]) == 1,
            // The decoded contents of the copy match the old root.
            page_kind_byte(final(self)@[r.0 as int]) == page_kind_byte(old(self)@[0]),
            page_kind_byte(old(self)@[0]) == crate::layout::PAGE_KIND_LEAF ==> leaf_n(
                final(self)@[r.0 as int],
            ) == leaf_n(old(self)@[0]) && crate::page::leaf_keys(final(self)@[r.0 as int])
                == crate::page::leaf_keys(old(self)@[0]) && crate::page::leaf_vals(
                final(self)@[r.0 as int],
            ) == crate::page::leaf_vals(old(self)@[0]) && leaf_next_raw(
                final(self)@[r.0 as int],
            ) == leaf_next_raw(old(self)@[0]) && leaf_overflow_raw(final(self)@[r.0 as int])
                == leaf_overflow_raw(old(self)@[0]),
            page_kind_byte(old(self)@[0]) != crate::layout::PAGE_KIND_LEAF ==> int_n(
                final(self)@[r.0 as int],
            ) == int_n(old(self)@[0]) && crate::page::int_keys(final(self)@[r.0 as int])
                == crate::page::int_keys(old(self)@[0]) && crate::page::int_ptrs(
                final(self)@[r.0 as int],
            ) == crate::page::int_ptrs(old(self)@[0]) && int_right(final(self)@[r.0 as int])
                == int_right(old(self)@[0]),
    {
        let ghost s0 = self@[0];
        let root_bytes = read_bytes_at(&self.pages[0].0.0, 0, PAGE_SIZE);
        let kind_byte = root_bytes[PAGE_TYPE_OFFSET];
        let kind = if kind_byte == crate::layout::PAGE_KIND_LEAF {
            PageType::Leaf
        } else {
            PageType::Internal
        };
        let mut copy = Page(root_bytes);
        proof {
            assert(copy@ =~= s0);
        }
        crate::codec::write_u8_at(&mut copy.0, PAGE_IS_ROOT_OFFSET, 0u8);
        proof {
            assert(copy@ =~= s0.update(PAGE_IS_ROOT_OFFSET as int, 0u8));
            if page_kind_byte(s0) == crate::layout::PAGE_KIND_LEAF {
                lemma_leaf_header_frame(
                    s0,
                    copy@,
                    PAGE_IS_ROOT_OFFSET as int,
                    PAGE_IS_ROOT_OFFSET + 1,
                );
            } else {
                lemma_int_header_frame(
                    s0,
                    copy@,
                    PAGE_IS_ROOT_OFFSET as int,
                    PAGE_IS_ROOT_OFFSET + 1,
                );
            }
        }
        let num = self.pages.len() as u64;
        let copy_for_caller = copy.duplicate();
        self.pages.push(CachedPage::new(copy));
        let nb = PageBuilder::default().is_root(true).kind(&PageType::Internal);
        let new_root = nb.build();
        proof {
            let inner = nb.inner@;
            let s = new_root@;
            let sub1 = s.subrange(INTERNAL_NUM_KEYS_OFFSET as int, INTERNAL_NUM_KEYS_OFFSET + 8);
            let sub2 = s.subrange(
                INTERNAL_RIGHT_MOST_CHILD_OFFSET as int,
                INTERNAL_RIGHT_MOST_CHILD_OFFSET + 8,
            );
            assert forall|k: int| 0 <= k < 8 implies sub1[k] == 0 && sub2[k] == 0 by {
                assert(sub1[k] == s[INTERNAL_NUM_KEYS_OFFSET + k]);
                assert(sub2[k] == s[INTERNAL_RIGHT_MOST_CHILD_OFFSET + k]);
                assert(s[INTERNAL_NUM_KEYS_OFFSET + k] == inner[INTERNAL_NUM_KEYS_OFFSET + k]);
                assert(s[INTERNAL_RIGHT_MOST_CHILD_OFFSET + k] == inner[
                    INTERNAL_RIGHT_MOST_CHILD_OFFSET + k]);
            }
            lemma_u64_from_be_zeros(sub1);
            lemma_u64_from_be_zeros(sub2);
            assert(int_wf(s));
        }
        self.pages.set(0, CachedPage::new(new_root));
        proof {
            assert forall|i: int| 1 <= i < old(self)@.len() implies #[trigger] self@[i] == old(
                self,
            )@[i] by {
                assert(self.pages@[i] == old(self).pages@[i]);
            }
            assert(self@[num as int] == self.pages@[num as int]@);
            assert(self@[0] == self.pages@[0]@);
        }
        (num, CachedPage::new(copy_for_caller))
    }

    /// Returns a copy of the page stored under `num`, or nothing when
    /// the number is past the end of the database.
    pub fn get_page(&self, num: u64) -> (r: Option<CachedPage>)
        requires
            self.inv(),
        ensures
            (r is Some) <==> (num as int) < self@.len(),
            r matches Some(c) ==> c@ == self@[num as int],
    {
        if num < self.pages.len() as u64 {
            proof {
                assert(self@[num as int] == self.pages@[num as int]@);
                assert(page_wf(self@[num as int]));
            }
            let page = self.pages[num as usize].0.duplicate();
            Some(CachedPage::new(page))
        } else {
            None
        }
    }

    /// Stores new bytes for the page under `num`.
    pub fn put_page(&mut self, num: u64, page: Page)
        requires
            old(self).inv(),
            (num as int) < old(self)@.len(),
            page_wf(page@),
            page_root_byte(page@) == (if num == 0 {
                1u8
            } else {
                0u8
            }),
        ensures
            final(self).inv(),
            final(self)@.len() == old(self)@.len(),
            final(self)@[num as int] == page@,
            forall|i: int|
                0 <= i < old(self)@.len() && i != num ==> #[trigger] final(self)@[i] == old(
                    self,
                )@[i],
    {
        let len = self.pages.len();
        proof {
            assert((num as int) < len as int);
        }
        self.pages.set(num as usize, CachedPage::new(page));
        proof {
            assert(self@[num as int] == self.pages@[num as int]@);
            assert(self.pages@[num as int]@ == page@);
            assert forall|i: int|
                0 <= i < old(self)@.len() && i != num implies #[trigger] self@[i] == old(
                    self,
                )@[i] by {
                assert(self.pages@[i] == old(self).pages@[i]);
            }
            assert(self@[0] == self.pages@[0]@);
        }
    }

    /// Serializes every cached page, in page-number order, into the
    /// bytes to be written back to the file.
    pub fn flush_cache(&self) -> (r: Vec<u8>)
        requires
            self.inv(),
            self@.len() * PAGE_SIZE <= usize::MAX,
        ensures
            r@.len() == self@.len() * PAGE_SIZE,
            forall|i: int| 0 <= i < self@.len() ==> file_page(r@, i) == self@[i],
            file_ok(r@),
    {
        let n = self.pages.len();
        let mut r: Vec<u8> = Vec::new();
        let mut i: usize = 0;
        while i < n
            invariant
                self.inv(),
                n == self@.len(),
                n * PAGE_SIZE <= usize::MAX,
                i <= n,
                r@.len() == i * PAGE_SIZE,
                forall|j: int| 0 <= j < i ==> file_page(r@, j) == self@[j],
            decreases n - i,
        {
            let ghost r_old = r@;
            let page = &self.pages[i].0;
            proof {
                assert(self@[i as int] == self.pages@[i as int]@);
                assert(page@.len() == PAGE_SIZE);
            }
            let mut k: usize = 0;
            while k < PAGE_SIZE
                invariant
                    page@.len() == PAGE_SIZE,
                    k <= PAGE_SIZE,
                    r@ == r_old + page@.subrange(0, k as int),
                decreases PAGE_SIZE - k,
            {
                r.push(page.0[k]);
                proof {
                    assert(r@ =~= r_old + page@.subrange(0, k + 1));
                }
                k = k + 1;
            }
            proof {
                assert(page@.subrange(0, PAGE_SIZE as int) =~= page@);
                assert(file_page(r@, i as int) =~= page@);
                assert forall|j: int| 0 <= j < i implies file_page(r@, j) == self@[j] by {
                    assert(file_page(r_old, j) == self@[j]);
                    assert(file_page(r@, j) =~= file_page(r_old, j));
                }
            }
            i = i + 1;
        }
        proof {
            assert(PAGE_SIZE == 4096);
            vstd::arithmetic::div_mod::lemma_fundamental_div_mod(r@.len() as int, PAGE_SIZE as int);
            vstd::arithmetic::div_mod::lemma_mod_bound(r@.len() as int, PAGE_SIZE as int);
            let q = r@.len() as int / PAGE_SIZE as int;
            assert(PAGE_SIZE as int * q == 4096 * q);
            assert(r@.len() == n * 4096);
            assert(q == n);
            assert(r@.len() as int % (PAGE_SIZE as int) == 0);
            assert forall|j: int| 0 <= j < q implies page_wf(#[trigger] file_page(r@, j)) by {
                assert(file_page(r@, j) == self@[j]);
            }
            assert forall|j: int| 1 <= j < q implies page_root_byte(#[trigger] file_page(r@, j))
                == 0 by {
                assert(file_page(r@, j) == self@[j]);
            }
            assert(file_page(r@, 0) == self@[0]);
        }
        r
    }
}

/// Persistence law: the bytes `flush_cache` produces are accepted by
/// `Pager::new`, and the reopened pager holds exactly the pages that
/// were flushed — `file_ok` holds, and the page count recovered from
/// the byte length matches, so `Pager::new`'s contract forces every
/// reopened page to equal `file_page(bytes, i) == p@[i]`.
pub proof fn lemma_flush_reopen(p: Pager, bytes: Seq<u8>)
    requires
        p.inv(),
        bytes.len() == p@.len() * PAGE_SIZE,
        forall|i: int| 0 <= i < p@.len() ==> file_page(bytes, i) == p@[i],
        file_ok(bytes),
    ensures
        bytes.len() as int / (PAGE_SIZE as int) == p@.len(),
        forall|i: int|
            0 <= i < bytes.len() as int / (PAGE_SIZE as int) ==> file_page(bytes, i) == p@[i],
{
    assert(PAGE_SIZE == 4096);
    vstd::arithmetic::div_mod::lemma_fundamental_div_mod(bytes.len() as int, PAGE_SIZE as int);
    vstd::arithmetic::div_mod::lemma_mod_bound(bytes.len() as int, PAGE_SIZE as int);
    let q = bytes.len() as int / (PAGE_SIZE as int);
    assert(PAGE_SIZE as int * q == 4096 * q);
    assert(bytes.len() == p@.len() * 4096);
}

} // verus!
