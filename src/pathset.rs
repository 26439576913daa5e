//! A set of paths with constant-time membership on average: paths are
//! bucketed by a polynomial hash of their characters.
use vstd::prelude::*;
use std::collections::HashMap;
use crate::text::{copy_chars, slices_equal};

verus! {

broadcast use vstd::std_specs::hash::group_hash_axioms;

/// Modulus of the path hash.
pub const HASH_MODULUS: u64 = 1_000_000_007;

/// Polynomial hash of a path's characters, modulo `HASH_MODULUS`.
pub open spec fn path_hash(s: Seq<char>) -> nat
    decreases s.len(),
{
    if s.len() == 0 {
        0
    } else {
        ((path_hash(s.drop_last()) * 31 + (s.last() as u32) as nat) % (HASH_MODULUS as nat)) as nat
    }
}

fn path_hash_exec(s: &[char]) -> (r: u64)
    ensures
        r == path_hash(s@),
        r < HASH_MODULUS,
{
    let mut h: u64 = 0;
    let mut i: usize = 0;
    while i < s.len()
        invariant
            i <= s@.len(),
            h == path_hash(s@.subrange(0, i as int)),
            h < HASH_MODULUS,
        decreases s@.len() - i,
    {
        assert(s@.subrange(0, i + 1).drop_last() =~= s@.subrange(0, i as int));
        h = (h * 31 + s[i] as u32 as u64) % HASH_MODULUS;
        i += 1;
    }
    assert(s@.subrange(0, s@.len() as int) =~= s@);
    h
}

/// Paths added one by one, each found again through the bucket of its hash.
pub struct PathSet {
    paths: Vec<Vec<char>>,
    buckets: HashMap<u64, Vec<usize>>,
}

impl PathSet {
    /// The paths added, in order.
    pub closed spec fn contents(&self) -> Seq<Seq<char>> {
        self.paths@.map_values(|p: Vec<char>| p@)
    }

    /// Every path is listed in the bucket of its hash, and buckets list
    /// only positions of added paths.
    pub closed spec fn wf(&self) -> bool {
        &&& forall|k: int| 0 <= k < self.paths@.len() ==> {
            let h = path_hash(#[trigger] self.paths@[k]@) as u64;
            self.buckets@.contains_key(h) && self.buckets@[h]@.contains(k as usize)
        }
        &&& forall|h: u64, i: int| self.buckets@.contains_key(h) && 0 <= i < self.buckets@[h]@.len()
            ==> #[trigger] self.buckets@[h]@[i] < self.paths@.len()
        &&& forall|h: u64, i: int, j: int| self.buckets@.contains_key(h) && 0 <= i < j < self.buckets@[h]@.len()
            ==> #[trigger] self.buckets@[h]@[i] < #[trigger] self.buckets@[h]@[j]
    }

    /// An empty set.
    pub fn new() -> (r: Self)
        ensures
            r.wf(),
            r.contents().len() == 0,
    {
        PathSet { paths: Vec::new(), buckets: HashMap::new() }
    }

    /// Whether `p` was added.
    pub fn contains(&self, p: &[char]) -> (r: bool)
        requires
            self.wf(),
        ensures
            r == self.contents().contains(p@),
    {
        let h = path_hash_exec(p);
        let n = self.paths.len();
        match self.buckets.get(&h) {
            None => {
                assert forall|k: int| 0 <= k < self.contents().len() implies self.contents()[k] != p@ by {
                    assert(self.contents()[k] == self.paths@[k]@);
                    if self.paths@[k]@ == p@ {
                        assert((path_hash(self.paths@[k]@) as u64) == h);
                        assert(self.buckets@.contains_key(h));
                    }
                }
                false
            },
            Some(bucket) => {
                let mut i: usize = 0;
                while i < bucket.len()
                    invariant
                        self.wf(),
                        self.buckets@.contains_key(h),
                        *bucket == self.buckets@[h],
                        h == path_hash(p@),
                        n == self.paths@.len(),
                        i <= bucket@.len(),
                        forall|j: int| 0 <= j < i ==> self.paths@[bucket@[j] as int]@ != p@,
                    decreases bucket@.len() - i,
                {
                    let k = bucket[i];
                    assert(k < self.paths@.len());
                    if slices_equal(self.paths[k].as_slice(), p) {
                        assert(self.contents()[k as int] == p@);
                        return true;
                    }
                    i += 1;
                }
                assert forall|k: int| 0 <= k < self.contents().len() implies self.contents()[k] != p@ by {
                    assert(self.contents()[k] == self.paths@[k]@);
                    if self.paths@[k]@ == p@ {
                        assert((path_hash(self.paths@[k]@) as u64) == h);
                        assert(self.buckets@[h]@.contains(k as usize));
                        let j = choose|j: int| 0 <= j < bucket@.len() && bucket@[j] == (k as usize);
                        assert(bucket@[j] as int == k);
                        assert(self.paths@[bucket@[j] as int]@ != p@);
                    }
                }
                false
            },
        }
    }

    /// Add `p`.
    pub fn insert(&mut self, p: &[char])
        requires
            old(self).wf(),
        ensures
            final(self).wf(),
            final(self).contents() == old(self).contents().push(p@),
    {
        let h = path_hash_exec(p);
        let k = self.paths.len();
        let ghost old_paths = self.paths@;
        let ghost old_buckets = self.buckets@;
        let mut bucket = match self.buckets.remove(&h) {
            Some(b) => b,
            None => Vec::new(),
        };
        let ghost old_bucket = bucket@;
        bucket.push(k);
        self.buckets.insert(h, bucket);
        self.paths.push(copy_chars(p));
        proof {
            assert(self.contents() =~= old_paths.map_values(|q: Vec<char>| q@).push(p@));
            assert forall|j: int| 0 <= j < self.paths@.len() implies {
                let hj = path_hash(#[trigger] self.paths@[j]@) as u64;
                self.buckets@.contains_key(hj) && self.buckets@[hj]@.contains(j as usize)
            } by {
                let hj = path_hash(self.paths@[j]@) as u64;
                if j < k {
                    assert(self.paths@[j] == old_paths[j]);
                    assert(old_buckets[hj]@.contains(j as usize));
                    if hj == h {
                        let x = choose|x: int| 0 <= x < old_bucket.len() && old_bucket[x] == j as usize;
                        assert(self.buckets@[hj]@[x] == j as usize);
                    }
                } else {
                    assert(self.buckets@[h]@[old_bucket.len() as int] == k);
                }
            }
            assert forall|hh: u64, i: int, j: int| self.buckets@.contains_key(hh) && 0 <= i < j < self.buckets@[hh]@.len()
                implies #[trigger] self.buckets@[hh]@[i] < #[trigger] self.buckets@[hh]@[j] by {
                if hh != h {
                    assert(old_buckets.contains_key(hh));
                    assert(self.buckets@[hh] == old_buckets[hh]);
                } else if j < old_bucket.len() {
                    assert(old_buckets.contains_key(h));
                    assert(self.buckets@[hh]@[i] == old_buckets[h]@[i]);
                    assert(self.buckets@[hh]@[j] == old_buckets[h]@[j]);
                } else if old_bucket.len() > 0 {
                    assert(old_buckets.contains_key(h));
                    assert(self.buckets@[hh]@[i] == old_buckets[h]@[i]);
                    assert(old_buckets[h]@[i] < old_paths.len());
                }
            }
            assert forall|hh: u64, i: int| self.buckets@.contains_key(hh) && 0 <= i < self.buckets@[hh]@.len()
                implies #[trigger] self.buckets@[hh]@[i] < self.paths@.len() by {
                if hh != h {
                    assert(old_buckets.contains_key(hh));
                    assert(self.buckets@[hh] == old_buckets[hh]);
                } else if i < old_bucket.len() {
                    assert(old_buckets.contains_key(h));
                    assert(self.buckets@[hh]@[i] == old_buckets[h]@[i]);
                }
            }
        }
    }

    /// The first position holding `p`, if any.
    pub fn find_first(&self, p: &[char]) -> (r: Option<usize>)
        requires
            self.wf(),
        ensures
            match r {
                Some(k) => k < self.contents().len() && self.contents()[k as int] == p@
                    && forall|j: int| 0 <= j < k ==> self.contents()[j] != p@,
                None => !self.contents().contains(p@),
            },
    {
        let h = path_hash_exec(p);
        let n = self.paths.len();
        match self.buckets.get(&h) {
            None => {
                assert forall|k: int| 0 <= k < self.contents().len() implies self.contents()[k] != p@ by {
                    assert(self.contents()[k] == self.paths@[k]@);
                    if self.paths@[k]@ == p@ {
                        assert((path_hash(self.paths@[k]@) as u64) == h);
                        assert(self.buckets@.contains_key(h));
                    }
                }
                None
            },
            Some(bucket) => {
                let mut i: usize = 0;
                while i < bucket.len()
                    invariant
                        self.wf(),
                        self.buckets@.contains_key(h),
                        *bucket == self.buckets@[h],
                        h == path_hash(p@),
                        n == self.paths@.len(),
                        i <= bucket@.len(),
                        forall|j: int| 0 <= j < i ==> self.paths@[bucket@[j] as int]@ != p@,
                    decreases bucket@.len() - i,
                {
                    let k = bucket[i];
                    assert(k < self.paths@.len());
                    if slices_equal(self.paths[k].as_slice(), p) {
                        assert(self.contents()[k as int] == p@);
                        assert forall|j: int| 0 <= j < k implies self.contents()[j] != p@ by {
                            assert(self.contents()[j] == self.paths@[j]@);
                            if self.paths@[j]@ == p@ {
                                assert((path_hash(self.paths@[j]@) as u64) == h);
                                assert(self.buckets@[h]@.contains(j as usize));
                                let x = choose|x: int| 0 <= x < bucket@.len() && bucket@[x] == (j as usize);
                                assert(bucket@[x] as int == j);
                                if x >= i {
                                    if x > i {
                                        assert(bucket@[i as int] < bucket@[x]);
                                    }
                                } else {
                                    assert(self.paths@[bucket@[x] as int]@ != p@);
                                }
                            }
                        }
                        return Some(k);
                    }
                    i += 1;
                }
                assert forall|k: int| 0 <= k < self.contents().len() implies self.contents()[k] != p@ by {
                    assert(self.contents()[k] == self.paths@[k]@);
                    if self.paths@[k]@ == p@ {
                        assert((path_hash(self.paths@[k]@) as u64) == h);
                        assert(self.buckets@[h]@.contains(k as usize));
                        let j = choose|j: int| 0 <= j < bucket@.len() && bucket@[j] == (k as usize);
                        assert(bucket@[j] as int == k);
                        assert(self.paths@[bucket@[j] as int]@ != p@);
                    }
                }
                None
            },
        }
    }
}

} // verus!
