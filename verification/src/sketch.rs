//! The sketch itself.

use vstd::prelude::*;
use vstd::string::StringSliceAdditionalSpecFns;
use vstd::std_specs::hash::DefaultHasherAdditionalSpecFns;
use std::collections::hash_map::DefaultHasher;
use std::hash::Hasher;
use crate::estimator::estimate_from_max;
use crate::model::SketchModel;
use crate::retention::{lemma_retain_bounded, lemma_top_is, retain};
use crate::sorted::{
    lemma_increasing_drop_last, lemma_increasing_insert, lemma_increasing_len,
    lemma_increasing_top, lower_bound, strictly_increasing,
};

verus! {

/// The hash of a value: what a fresh `DefaultHasher` gives once the bytes
/// of the value's UTF-8 encoding have been written to it in one piece.
pub open spec fn hash_of(value: &str) -> u64 {
    DefaultHasher::spec_finish(seq![value.spec_bytes()])
}

/// A k-minimum-values sketch of width `k`.
///
/// The retained hashes are kept in increasing order, so that the largest,
/// the one that the estimate reads and that an eviction drops, is the last.
#[derive(Debug)]
pub struct Sketch {
    data: Vec<u64>,
    k: usize,
    count: u64,
}

impl View for Sketch {
    type V = SketchModel;

    closed spec fn view(&self) -> SketchModel {
        SketchModel {
            retained: self.data@.to_set(),
            k: self.k as nat,
            total_adds: self.count as nat,
        }
    }
}

impl Sketch {
    /// The sketch is in order inside. Every sketch that `new` made and
    /// `add` or `add_hash` changed is.
    pub closed spec fn wf(&self) -> bool {
        &&& strictly_increasing(self.data@)
        &&& self@.valid()
    }

    /// A well-formed sketch stands for a valid model.
    pub proof fn lemma_wf_valid(&self)
        requires
            self.wf(),
        ensures
            self@.valid(),
    {
    }

    /// An empty sketch of width `k`. A width of zero could retain nothing
    /// and is not accepted.
    pub fn new(k: usize) -> (s: Sketch)
        requires
            k >= 1,
        ensures
            s.wf(),
            s@ == SketchModel::empty(k as nat),
    {
        let s = Sketch { data: Vec::new(), k, count: 0 };
        assert(s.data@.to_set() =~= Set::empty());
        s
    }

    /// The 64-bit hash by which the sketch knows a value.
    pub fn hash(value: &str) -> (h: u64)
        ensures
            h == hash_of(value),
    {
        let mut hasher = DefaultHasher::new();
        hasher.write(value.as_bytes());
        assert(hasher@ =~= seq![value.spec_bytes()]);
        hasher.finish()
    }

    /// Shows the sketch one value of the stream.
    pub fn add(&mut self, value: &str)
        requires
            old(self).wf(),
            old(self)@.total_adds < u64::MAX,
        ensures
            final(self).wf(),
            final(self)@ == old(self)@.observe(hash_of(value)),
            final(self)@.valid(),
            final(self)@.retained.len() <= final(self)@.k,
    {
        let hash: u64 = Self::hash(value);
        self.add_hash(hash);
    }

    /// Shows the sketch one value of the stream by its hash.
    ///
    /// A hash that is already retained changes nothing but the count of
    /// additions. Any other is admitted, and if the sketch then holds more
    /// hashes than its width, the largest of them is evicted.
    pub fn add_hash(&mut self, hash: u64)
        requires
            old(self).wf(),
            old(self)@.total_adds < u64::MAX,
        ensures
            final(self).wf(),
            final(self)@ == old(self)@.observe(hash),
            final(self)@.valid(),
            final(self)@.retained.len() <= final(self)@.k,
    {
        let ghost before = self.data@;
        proof {
            lemma_increasing_len(before);
            lemma_retain_bounded(before.to_set(), self.k as nat, hash);
        }
        let at: usize = lower_bound(&self.data, hash);
        let present: bool = at < self.data.len() && self.data[at] == hash;
        if !present {
            self.data.insert(at, hash);
            let ghost grown = self.data@;
            proof {
                lemma_increasing_insert(before, at as int, hash);
                lemma_increasing_len(grown);
            }
            if self.data.len() > self.k {
                self.data.pop();
                proof {
                    lemma_increasing_top(grown);
                    lemma_top_is(grown.to_set(), grown.last());
                    lemma_increasing_drop_last(grown);
                    assert(self.data@ =~= grown.drop_last());
                }
            }
        }
        self.count += 1;
        proof {
            lemma_increasing_len(self.data@);
            assert(self.data@.to_set() == retain(before.to_set(), self.k as nat, hash));
        }
    }

    /// The estimate of the number of distinct values added so far, or
    /// `None` before the first addition.
    ///
    /// The estimate is `(k - 1) / u` rounded to the nearest integer, where
    /// `u` is the largest retained hash as a share of `u64::MAX`. A sketch
    /// of width one therefore always estimates zero.
    pub fn estimate(&self) -> (r: Option<u64>)
        requires
            self.wf(),
        ensures
            r == self@.estimate(),
            r.is_none() <==> self@.total_adds == 0,
    {
        let n: usize = self.data.len();
        proof {
            lemma_increasing_len(self.data@);
        }
        if n == 0 {
            None
        } else {
            proof {
                lemma_increasing_top(self.data@);
                lemma_top_is(self.data@.to_set(), self.data@.last());
                assert(self.data@.to_set().contains(self.data@.last()));
            }
            Some(estimate_from_max(self.k, self.data[n - 1]))
        }
    }

    /// The width of the sketch.
    pub fn k(&self) -> (k: usize)
        ensures
            k == self@.k,
    {
        self.k
    }

    /// How many values have been added, repeats included.
    pub fn total_adds(&self) -> (n: u64)
        ensures
            n == self@.total_adds,
    {
        self.count
    }

    /// The retained hashes, in increasing order.
    pub fn retained(&self) -> (r: Vec<u64>)
        requires
            self.wf(),
        ensures
            strictly_increasing(r@),
            r@.to_set() == self@.retained,
            r@.len() == self@.retained.len(),
    {
        let mut out: Vec<u64> = Vec::new();
        let mut i: usize = 0;
        while i < self.data.len()
            invariant
                i <= self.data.len(),
                out@ == self.data@.subrange(0, i as int),
            decreases self.data.len() - i,
        {
            out.push(self.data[i]);
            i += 1;
            assert(out@ =~= self.data@.subrange(0, i as int));
        }
        proof {
            assert(out@ =~= self.data@);
            lemma_increasing_len(self.data@);
        }
        out
    }
}

} // verus!
