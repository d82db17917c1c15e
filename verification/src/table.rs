//! Table is a wrapper around the tree's pages.
//!
//! Table wraps the pager and provides the functionality to retrieve
//! specific pages in the tree as well as to modify its structure.
use crate::layout::PAGE_SIZE;
use crate::page::{page_kind_byte, page_root_byte, page_wf, CachedPage, Page, PageType};
use crate::pager::{file_ok, file_page, Pager};
use vstd::prelude::*;

verus! {

/// A thin facade over the pager: the root page number, page creation,
/// root promotion and flushing.
pub struct Table {
    /// The pager holding every page.
    pub pager: Pager,
    /// The root's page number; always zero.
    pub root: u64,
}

impl View for Table {
    type V = Seq<Seq<u8>>;

    open spec fn view(&self) -> Seq<Seq<u8>> {
        self.pager@
    }
}

impl Table {
    /// The pager is sound and the cached root page number is zero.
    pub open spec fn inv(&self) -> bool {
        &&& self.pager.inv()
        &&& self.root == 0
    }

    /// Opens a table from the bytes of its backing file.
    pub fn new(bytes: Vec<u8>) -> (r: Result<Table, String>)
        ensures
            bytes@.len() == 0 ==> r is Ok,
            r.is_ok() <==> (bytes@.len() == 0 || file_ok(bytes@)),
            r matches Ok(t) ==> ({
                &&& t.inv()
                &&& bytes@.len() > 0 ==> t@.len() == bytes@.len() as int / (PAGE_SIZE as int) && (
                forall|i: int| 0 <= i < t@.len() ==> #[trigger] t@[i] == file_page(bytes@, i))
                &&& bytes@.len() == 0 ==> t@.len() == 1 && crate::page::leaf_wf(t@[0])
                    && crate::page::leaf_n(t@[0]) == 0 && crate::page::leaf_fss(t@[0])
                    == crate::layout::LEAF_HEADER_SIZE && crate::page::leaf_fse(t@[0]) == PAGE_SIZE
                    && crate::page::leaf_next_raw(t@[0])
                    == crate::layout::LEAF_NEXT_SIBLING_POINTER_DEFAULT
                    && crate::page::leaf_overflow_raw(t@[0])
                    == crate::layout::LEAF_OVERFLOW_POINTER_DEFAULT
            }),
    {
        let pager = Pager::new(bytes)?;
        Ok(Table { root: pager.root_page(), pager })
    }

    /// Allocates a fresh non-root page of the given kind.
    pub fn create_page(&mut self, kind: &PageType) -> (r: (u64, CachedPage))
        requires
            old(self).inv(),
        ensures
            final(self).inv(),
            r.0 == old(self)@.len(),
            final(self)@.len() == old(self)@.len() + 1,
            forall|i: int| 0 <= i < old(self)@.len() ==> #[trigger] final(self)@[i] == old(
                self,
            )@[i],
            r.1@ == final(self)@[r.0 as int],
            page_wf(final(self)@[r.0 as int]),
            page_kind_byte(final(self)@[r.0 as int]) == crate::page::page_type_byte(*kind),
            page_root_byte(final(self)@[r.0 as int]) == 0,
            *kind == PageType::Leaf ==> crate::page::leaf_n(final(self)@[r.0 as int]) == 0
                && crate::page::leaf_next_raw(final(self)@[r.0 as int])
                == crate::layout::LEAF_NEXT_SIBLING_POINTER_DEFAULT,
            *kind == PageType::Internal ==> crate::page::int_n(final(self)@[r.0 as int]) == 0
                && crate::page::int_right(final(self)@[r.0 as int]) == 0,
    {
        self.pager.new_page(*kind, false)
    }

    /// Promotes the root: copies the current root to a new page and
    /// reinitializes page zero as an internal root.
    pub fn create_new_root(&mut self) -> (r: (u64, CachedPage))
        requires
            old(self).inv(),
        ensures
            final(self).inv(),
            r.0 == old(self)@.len(),
            final(self)@.len() == old(self)@.len() + 1,
            forall|i: int| 1 <= i < old(self)@.len() ==> #[trigger] final(self)@[i] == old(
                self,
            )@[i],
            final(self)@[r.0 as int] == old(self)@[0].update(
                crate::layout::PAGE_IS_ROOT_OFFSET as int,
                0u8,
            ),
            r.1@ == final(self)@[r.0 as int],
            crate::page::int_wf(final(self)@[0]),
            crate::page::int_n(final(self)@[0]) == 0,
            crate::page::int_right(final(self)@[0]) == 0,
            page_root_byte(final(self)@[0]) == 1,
            page_kind_byte(final(self)@[r.0 as int]) == page_kind_byte(old(self)@[0]),
            page_kind_byte(old(self)@[0]) == crate::layout::PAGE_KIND_LEAF ==> crate::page::leaf_n(
                final(self)@[r.0 as int],
            ) == crate::page::leaf_n(old(self)@[0]) && crate::page::leaf_keys(
                final(self)@[r.0 as int],
            ) == crate::page::leaf_keys(old(self)@[0]) && crate::page::leaf_vals(
                final(self)@[r.0 as int],
            ) == crate::page::leaf_vals(old(self)@[0]) && crate::page::leaf_next_raw(
                final(self)@[r.0 as int],
            ) == crate::page::leaf_next_raw(old(self)@[0]),
    {
        self.pager.new_root()
    }

    /// Retrieves a particular page in the table.
    pub fn get_page(&self, num: u64) -> (r: Option<CachedPage>)
        requires
            self.inv(),
        ensures
            (r is Some) <==> (num as int) < self@.len(),
            r matches Some(c) ==> c@ == self@[num as int],
    {
        self.pager.get_page(num)
    }

    /// Returns a copy of the root page.
    pub fn root_page(&self) -> (r: CachedPage)
        requires
            self.inv(),
        ensures
            r@ == self@[0],
    {
        match self.pager.get_page(self.root) {
            Some(c) => c,
            None => {
                proof {
                    assert(false);
                }
                CachedPage::new(Page(Vec::new()))
            },
        }
    }

    /// Stores new bytes for the page under `num`.
    pub fn put_page(&mut self, num: u64, page: Page)
        requires
            old(self).inv(),
            (num as int) < old(self)@.len(),
            page_wf(page@),
            page_root_byte(page@) == (if num == 0 {
                1u8
            } else {
                0u8
            }),
        ensures
            final(self).inv(),
            final(self)@.len() == old(self)@.len(),
            final(self)@[num as int] == page@,
            forall|i: int|
                0 <= i < old(self)@.len() && i != num ==> #[trigger] final(self)@[i] == old(
                    self,
                )@[i],
    {
        self.pager.put_page(num, page)
    }

    /// Serializes every page into the bytes to write back to the file.
    pub fn flush_contents(&self) -> (r: Vec<u8>)
        requires
            self.inv(),
            self@.len() * PAGE_SIZE <= usize::MAX,
        ensures
            r@.len() == self@.len() * PAGE_SIZE,
            forall|i: int| 0 <= i < self@.len() ==> file_page(r@, i) == self@[i],
            file_ok(r@),
    {
        self.pager.flush_cache()
    }
}

} // verus!
