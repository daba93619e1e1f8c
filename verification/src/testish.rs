//! A replaying test-data source: it answers text draws from a prepared
//! feed instead of a pseudo-random stream, so a test can force exact
//! items — duplicates included — through the generation pipeline.

use crate::data::{Data, DataItems};
use vstd::prelude::*;

verus! {

/// A test-data source fed with prepared items, handed out in order.
pub struct DataTest<T> {
    pub items: Vec<T>,
    pub at: usize,
}

impl<T> DataTest<T> {
    /// A source that will hand out the given items, first to last.
    pub fn new(vec: Vec<T>) -> (r: Self)
        ensures
            r.items == vec,
            r.at == 0,
    {
        DataTest { items: vec, at: 0 }
    }
}

impl DataItems for DataTest<String> {
    open spec fn spec_num_items(&self, min: usize, max: usize) -> usize {
        if self.at <= self.items@.len() {
            (self.items@.len() - self.at) as usize
        } else {
            0
        }
    }

    open spec fn spec_num_items_next(&self, min: usize, max: usize) -> Self {
        *self
    }

    fn num_items(&mut self, min: usize, max: usize) -> (r: usize) {
        if self.at <= self.items.len() {
            self.items.len() - self.at
        } else {
            0
        }
    }
}

impl Data for DataTest<String> {
    open spec fn spec_u8(&self, lo: u8, hi: u8) -> u8 {
        lo
    }

    open spec fn spec_u8_next(&self, lo: u8, hi: u8) -> Self {
        *self
    }

    fn u8(&mut self, lo: u8, hi: u8) -> (r: u8) {
        lo
    }

    open spec fn spec_char(&self) -> char {
        'a'
    }

    open spec fn spec_char_next(&self) -> Self {
        *self
    }

    fn char(&mut self) -> (r: char) {
        'a'
    }

    open spec fn spec_usize(&self, lo: usize, hi: usize) -> usize {
        lo
    }

    open spec fn spec_usize_next(&self, lo: usize, hi: usize) -> Self {
        *self
    }

    fn usize(&mut self, lo: usize, hi: usize) -> (r: usize) {
        lo
    }

    open spec fn spec_string(&self, min_len: usize, max_len: usize) -> Seq<char> {
        if self.at < self.items@.len() {
            self.items@[self.at as int]@
        } else {
            Seq::<char>::empty()
        }
    }

    open spec fn spec_string_next(&self, min_len: usize, max_len: usize) -> Self {
        if self.at < self.items@.len() {
            DataTest { items: self.items, at: (self.at + 1) as usize }
        } else {
            *self
        }
    }

    fn string_for_len_range(&mut self, min_len: usize, max_len: usize) -> (r: String) {
        if self.at < self.items.len() {
            let s = self.items[self.at].clone();
            self.at = self.at + 1;
            s
        } else {
            String::new()
        }
    }
}

} // verus!
