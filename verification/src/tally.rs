//! A frequency table of texts in the order of their first appearance.
//!
//! The texts are found again through a hash: a map from hashes to the last
//! text of each hash, and for every text the one before it of the same
//! hash.

use std::collections::HashMap;
use vstd::prelude::*;
use crate::error::{first_equal, lemma_first_equal};
use crate::stats::{bumped, names_of, table};
use crate::text::same;

verus! {

broadcast use vstd::std_specs::hash::group_hash_axioms;

/// The hash of a text.
pub open spec fn hash_of(t: Seq<char>) -> u64
    decreases t.len(),
{
    if t.len() == 0 {
        7
    } else {
        ((hash_of(t.drop_last()) as int * 31 + (t.last() as u32) as int) % 4294967291) as u64
    }
}

fn hash(t: &[char]) -> (h: u64)
    ensures
        h == hash_of(t@),
{
    let mut h: u64 = 7;
    let mut i: usize = 0;
    assert(t@.take(0) =~= Seq::<char>::empty());
    while i < t.len()
        invariant
            i <= t@.len(),
            h == hash_of(t@.take(i as int)),
            h < 4294967291,
        decreases t@.len() - i,
    {
        assert(t@.take(i + 1).drop_last() =~= t@.take(i as int));
        h = (h * 31 + (t[i] as u32) as u64) % 4294967291;
        i += 1;
    }
    assert(t@.take(t@.len() as int) =~= t@);
    h
}

/// A frequency table.
#[derive(Debug)]
pub struct Tally {
    keys: Vec<Vec<char>>,
    counts: Vec<u64>,
    heads: HashMap<u64, usize>,
    next: Vec<Option<usize>>,
}

impl View for Tally {
    type V = Seq<(Seq<char>, nat)>;

    closed spec fn view(&self) -> Seq<(Seq<char>, nat)> {
        table(self.keys@, self.counts@)
    }
}

impl Tally {
    /// No text stands twice; every text points to the one before it of the
    /// same hash; and every hash leads to the last text that bears it.
    pub closed spec fn wf(&self) -> bool {
        let n = self.keys@.len();
        &&& self.counts@.len() == n
        &&& self.next@.len() == n
        &&& forall|i: int, j: int| 0 <= i < j < n ==> self.keys@[i]@ != self.keys@[j]@
        &&& forall|i: int|
            0 <= i < n ==> match #[trigger] self.next@[i] {
                Some(j) => j < i && hash_of(self.keys@[j as int]@) == hash_of(self.keys@[i]@)
                    && forall|k: int|
                    j < k < i ==> hash_of(#[trigger] self.keys@[k]@) != hash_of(self.keys@[i]@),
                None => forall|k: int|
                    0 <= k < i ==> hash_of(#[trigger] self.keys@[k]@) != hash_of(self.keys@[i]@),
            }
        &&& forall|h: u64| #[trigger]
            self.heads@.contains_key(h) ==> self.heads@[h] < n && hash_of(
                self.keys@[self.heads@[h] as int]@,
            ) == h && forall|k: int|
                self.heads@[h] < k < n ==> hash_of(#[trigger] self.keys@[k]@) != h
        &&& forall|k: int|
            0 <= k < n ==> self.heads@.contains_key(hash_of(#[trigger] self.keys@[k]@))
    }

    /// The greatest frequency is at most `bound`.
    pub closed spec fn below(&self, bound: int) -> bool {
        forall|i: int| 0 <= i < self.counts@.len() ==> self.counts@[i] <= bound
    }

    /// A bound on the frequencies holds of every greater number too.
    pub proof fn lemma_below_more(&self, a: int, b: int)
        requires
            self.below(a),
            a <= b,
        ensures
            self.below(b),
    {
    }

    /// The empty table.
    pub fn new() -> (r: Tally)
        ensures
            r.wf(),
            r@ == Seq::<(Seq<char>, nat)>::empty(),
            r.below(0),
    {
        let r = Tally {
            keys: Vec::new(),
            counts: Vec::new(),
            heads: HashMap::new(),
            next: Vec::new(),
        };
        assert(table(r.keys@, r.counts@) =~= Seq::empty());
        r
    }

    /// The number of texts.
    pub fn len(&self) -> (n: usize)
        ensures
            n == self@.len(),
    {
        self.keys.len()
    }

    /// The place of a text in the table.
    fn find(&self, t: &[char], h: u64) -> (r: Option<usize>)
        requires
            self.wf(),
            h == hash_of(t@),
        ensures
            match r {
                Some(i) => i < self.keys@.len() && self.keys@[i as int]@ == t@,
                None => forall|k: int| 0 <= k < self.keys@.len() ==> self.keys@[k]@ != t@,
            },
    {
        let n: usize = self.keys.len();
        let mut cur: Option<usize> = match self.heads.get(&h) {
            Some(v) => Some(*v),
            None => None,
        };
        assert forall|k: int| 0 <= k < n && (cur is None || k > cur.unwrap()) implies self.keys@[k]@
            != t@ by {
            assert(self.heads@.contains_key(hash_of(self.keys@[k]@)));
        }
        while cur.is_some()
            invariant
                self.wf(),
                n == self.keys@.len(),
                h == hash_of(t@),
                cur matches Some(i) ==> i < n && hash_of(self.keys@[i as int]@) == h,
                forall|k: int|
                    0 <= k < n && (cur is None || k > cur.unwrap()) ==> self.keys@[k]@ != t@,
            decreases
                    match cur {
                        Some(i) => i + 1,
                        None => 0,
                    },
        {
            let i: usize = cur.unwrap();
            if same(t, self.keys[i].as_slice()) {
                return Some(i);
            }
            let ghost link = self.next@[i as int];
            cur = self.next[i];
            assert forall|k: int| 0 <= k < n && (cur is None || k > cur.unwrap()) implies self.keys@[k]@
                != t@ by {
                if k < i {
                    assert(hash_of(self.keys@[k]@) != h);
                }
            }
        }
        None
    }

    /// Counts one more occurrence of `t`.
    pub fn bump(&mut self, t: &[char])
        requires
            old(self).wf(),
            exists|bound: int| bound < u64::MAX && old(self).below(bound),
        ensures
            final(self).wf(),
            final(self)@ == bumped(old(self)@, t@),
            forall|bound: int|
                bound >= 0 && old(self).below(bound) ==> final(self).below(bound + 1),
    {
        let ghost before = self@;
        let ghost names = names_of(before);
        let n: usize = self.keys.len();
        let h = hash(t);
        proof {
            lemma_first_equal(t@, names, n as int);
        }
        match self.find(t, h) {
            Some(i) => {
                proof {
                    assert(names[i as int] == t@);
                    if first_equal(t@, names, n as int) != Some(i as int) {
                        let j = first_equal(t@, names, n as int).unwrap();
                        assert(names[j] == self.keys@[j]@);
                    }
                }
                let c: u64 = self.counts[i];
                self.counts[i] = c + 1;
                assert(table(self.keys@, self.counts@) =~= before.update(
                    i as int,
                    (t@, before[i as int].1 + 1),
                ));
            },
            None => {
                proof {
                    if first_equal(t@, names, n as int) is Some {
                        let j = first_equal(t@, names, n as int).unwrap();
                        assert(names[j] == self.keys@[j]@);
                    }
                }
                let link: Option<usize> = match self.heads.get(&h) {
                    Some(v) => Some(*v),
                    None => None,
                };
                let ghost old_heads = self.heads@;
                let ghost old_keys = self.keys@;
                self.keys.push(vstd::slice::slice_to_vec(t));
                self.counts.push(1);
                self.next.push(link);
                self.heads.insert(h, n);
                assert(table(self.keys@, self.counts@) =~= before.push((t@, 1nat)));
                proof {
                    assert forall|k: int| 0 <= k < n implies self.keys@[k] == old_keys[k] by {}
                    assert forall|x: u64| #[trigger]
                        self.heads@.contains_key(x) implies self.heads@[x] < n + 1 && hash_of(
                        self.keys@[self.heads@[x] as int]@,
                    ) == x && forall|k: int|
                        self.heads@[x] < k < n + 1 ==> hash_of(#[trigger] self.keys@[k]@) != x by {
                        if x != h {
                            assert(old_heads.contains_key(x));
                        }
                    }
                    assert forall|k: int| 0 <= k < n + 1 implies self.heads@.contains_key(
                        hash_of(#[trigger] self.keys@[k]@),
                    ) by {
                        if k < n {
                            assert(old_heads.contains_key(hash_of(old_keys[k]@)));
                        }
                    }
                    assert forall|i: int| 0 <= i < n + 1 implies match #[trigger] self.next@[i] {
                        Some(j) => j < i && hash_of(self.keys@[j as int]@) == hash_of(
                            self.keys@[i]@,
                        ) && forall|k: int|
                            j < k < i ==> hash_of(#[trigger] self.keys@[k]@) != hash_of(
                                self.keys@[i]@,
                            ),
                        None => forall|k: int|
                            0 <= k < i ==> hash_of(#[trigger] self.keys@[k]@) != hash_of(
                                self.keys@[i]@,
                            ),
                    } by {
                        if i < n {
                            assert(self.next@[i] == old(self).next@[i]);
                        } else {
                            if link is None {
                                assert forall|k: int| 0 <= k < n implies hash_of(
                                    #[trigger] self.keys@[k]@,
                                ) != h by {
                                    assert(old_heads.contains_key(hash_of(old_keys[k]@)));
                                }
                            } else {
                                assert(old_heads.contains_key(h));
                            }
                        }
                    }
                }
            },
        }
    }

    /// The texts and their frequencies, in the order of first appearance.
    pub fn into_parts(self) -> (r: (Vec<Vec<char>>, Vec<u64>))
        requires
            self.wf(),
        ensures
            r.0@.len() == r.1@.len(),
            table(r.0@, r.1@) == self@,
    {
        (self.keys, self.counts)
    }
}

} // verus!
