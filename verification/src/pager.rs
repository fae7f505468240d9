//! File pager: a file as a sequence of pages, read and written one whole page
//! at a time.
//!
//! A file has no fixed length. Reading a page behind its end yields zeros, and
//! writing one there extends the file, filling the gap with zeros.

use crate::codec::PAGE_SIZE;
use vstd::prelude::*;

verus! {

/// A page of zeros, which is what a file yields where nothing was written.
pub open spec fn zero_page() -> Seq<u8> {
    Seq::new(PAGE_SIZE as nat, |i: int| 0u8)
}

/// Page `page_id` of the file `pages`, as a reader gets it.
pub open spec fn page_at(pages: Seq<Seq<u8>>, page_id: int) -> Seq<u8> {
    if 0 <= page_id < pages.len() {
        pages[page_id]
    } else {
        zero_page()
    }
}

/// The file `pages` after `data` was written as its page `page_id`.
pub open spec fn with_page(pages: Seq<Seq<u8>>, page_id: int, data: Seq<u8>) -> Seq<Seq<u8>> {
    Seq::new(
        if page_id < pages.len() {
            pages.len()
        } else {
            (page_id + 1) as nat
        },
        |p: int|
            if p == page_id {
                data
            } else {
                page_at(pages, p)
            },
    )
}

/// The number of pages that a file of `num_bytes` bytes takes up, the last one
/// counted in full where the file ends within it.
pub fn pages_for(num_bytes: u64) -> (num_pages: u64)
    ensures
        num_pages == (num_bytes + PAGE_SIZE - 1) / (PAGE_SIZE as int),
{
    let whole: u64 = num_bytes / (PAGE_SIZE as u64);
    if num_bytes % (PAGE_SIZE as u64) == 0 {
        whole
    } else {
        whole + 1
    }
}

/// The byte at which page `page_id` of a file begins, if a 64-bit offset
/// reaches it.
pub fn page_offset(page_id: usize) -> (offset: Option<u64>)
    ensures
        offset == if page_id * PAGE_SIZE <= u64::MAX {
            Some((page_id * PAGE_SIZE) as u64)
        } else {
            None
        },
{
    if page_id as u64 <= u64::MAX / (PAGE_SIZE as u64) {
        Some(page_id as u64 * (PAGE_SIZE as u64))
    } else {
        None
    }
}

/// A paged file.
pub struct PageFile {
    pub pages: Vec<[u8; PAGE_SIZE]>,
}

impl View for PageFile {
    type V = Seq<Seq<u8>>;

    open spec fn view(&self) -> Seq<Seq<u8>> {
        self.pages@.map_values(|page: [u8; PAGE_SIZE]| page@)
    }
}

impl PageFile {
    /// A file without pages.
    pub fn new() -> (file: PageFile)
        ensures
            file@ == Seq::<Seq<u8>>::empty(),
    {
        let file = PageFile { pages: Vec::new() };
        assert(file@ =~= Seq::<Seq<u8>>::empty());
        file
    }

    /// The number of pages up to the end of the file.
    pub fn len(&self) -> (n: usize)
        ensures
            n == self@.len(),
    {
        self.pages.len()
    }

    /// Reads page `page_id`. Behind the end of the file the page reads as zeros.
    pub fn read_page(&self, page_id: usize) -> (data: [u8; PAGE_SIZE])
        ensures
            data@ == page_at(self@, page_id as int),
    {
        if page_id < self.pages.len() {
            self.pages[page_id]
        } else {
            let data: [u8; PAGE_SIZE] = [0; PAGE_SIZE];
            assert(data@ =~= zero_page());
            data
        }
    }

    /// Writes `data` as page `page_id`, extending the file with zero pages
    /// where it ends before `page_id`.
    pub fn write_page(&mut self, page_id: usize, data: &[u8])
        requires
            data@.len() == PAGE_SIZE,
            page_id < usize::MAX,
        ensures
            final(self)@ == with_page(old(self)@, page_id as int, data@),
    {
        let mut page: [u8; PAGE_SIZE] = [0; PAGE_SIZE];
        let mut i: usize = 0;
        while i < PAGE_SIZE
            invariant
                i <= PAGE_SIZE,
                data@.len() == PAGE_SIZE,
                forall|k: int| 0 <= k < i ==> page@[k] == data@[k],
            decreases PAGE_SIZE - i,
        {
            page[i] = data[i];
            i += 1;
        }
        assert(page@ =~= data@);
        while self.pages.len() <= page_id
            invariant
                page_id < usize::MAX,
                old(self)@.len() <= self@.len(),
                self@.len() > old(self)@.len() ==> self@.len() <= page_id + 1,
                forall|p: int| 0 <= p < self@.len() ==> self@[p] == page_at(old(self)@, p),
            decreases page_id + 1 - self.pages@.len(),
        {
            let blank: [u8; PAGE_SIZE] = [0; PAGE_SIZE];
            assert(blank@ =~= zero_page());
            self.pages.push(blank);
        }
        self.pages[page_id] = page;
        assert(self@ =~= with_page(old(self)@, page_id as int, data@));
    }

    /// Drops every page, which leaves the file as if newly created.
    pub fn clear(&mut self)
        ensures
            final(self)@ == Seq::<Seq<u8>>::empty(),
    {
        self.pages.clear();
        assert(self@ =~= Seq::<Seq<u8>>::empty());
    }
}

} // verus!
