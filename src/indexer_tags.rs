//! Per-document term counts of a search index, one counter for each region
//! of a page a term can occur in.
use vstd::prelude::*;

verus! {

pub struct IndexerTags {
    title: u32,
    body: u32,
    info_box: u32,
    category: u32,
}

impl View for IndexerTags {
    /// The counts of the title, body, info box and category regions.
    type V = (u32, u32, u32, u32);

    closed spec fn view(&self) -> (u32, u32, u32, u32) {
        (self.title, self.body, self.info_box, self.category)
    }
}

impl IndexerTags {
    pub fn new() -> (r: Self)
        ensures
            r@ == (0u32, 0u32, 0u32, 0u32),
    {
        IndexerTags { title: 0, body: 0, info_box: 0, category: 0 }
    }

    pub fn get_title(&self) -> (r: u32)
        ensures
            r == self@.0,
    {
        self.title
    }

    pub fn get_body(&self) -> (r: u32)
        ensures
            r == self@.1,
    {
        self.body
    }

    pub fn get_info_box(&self) -> (r: u32)
        ensures
            r == self@.2,
    {
        self.info_box
    }

    pub fn get_category(&self) -> (r: u32)
        ensures
            r == self@.3,
    {
        self.category
    }

    pub fn increment_title(&mut self)
        requires
            old(self)@.0 < u32::MAX,
        ensures
            final(self)@ == (add1(old(self)@.0), old(self)@.1, old(self)@.2, old(self)@.3),
    {
        self.title = self.title + 1;
    }

    pub fn increment_body(&mut self)
        requires
            old(self)@.1 < u32::MAX,
        ensures
            final(self)@ == (old(self)@.0, add1(old(self)@.1), old(self)@.2, old(self)@.3),
    {
        self.body = self.body + 1;
    }

    pub fn increment_info_box(&mut self)
        requires
            old(self)@.2 < u32::MAX,
        ensures
            final(self)@ == (old(self)@.0, old(self)@.1, add1(old(self)@.2), old(self)@.3),
    {
        self.info_box = self.info_box + 1;
    }

    pub fn increment_category(&mut self)
        requires
            old(self)@.3 < u32::MAX,
        ensures
            final(self)@ == (old(self)@.0, old(self)@.1, old(self)@.2, add1(old(self)@.3)),
    {
        self.category = self.category + 1;
    }
}

/// One more than `n`.
pub open spec fn add1(n: u32) -> u32 {
    (n + 1) as u32
}

} // verus!
