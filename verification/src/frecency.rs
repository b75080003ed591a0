//! The frecency journal: scores of absolute paths, by which the empty query
//! is ordered.

use crate::bytes::{
    bytes_le, lemma_lex_antisymmetric, lemma_lex_total, lemma_lex_transitive, lex_le,
};
use crate::score::Score;
use crate::text::bytes_eq;
use vstd::prelude::*;

verus! {

/// Scores by path. The records are kept sorted by path, each path once.
#[derive(Debug)]
pub struct Frecency {
    records: Vec<(Vec<u8>, Score)>,
}

spec fn record_at(records: Seq<(Vec<u8>, Score)>, path: Seq<u8>, i: int) -> bool {
    0 <= i < records.len() && records[i].0@ == path
}

spec fn sorted(records: Seq<(Vec<u8>, Score)>) -> bool {
    forall|i: int, j: int|
        0 <= i < j < records.len() ==> !lex_le((#[trigger] records[j]).0@, (#[trigger] records[i]).0@)
}

impl View for Frecency {
    type V = Map<Seq<u8>, Score>;

    closed spec fn view(&self) -> Map<Seq<u8>, Score> {
        Map::new(
            |path: Seq<u8>| exists|i: int| record_at(self.records@, path, i),
            |path: Seq<u8>|
                self.records@[choose|i: int| record_at(self.records@, path, i)].1,
        )
    }
}

impl Frecency {
    /// No path is recorded twice.
    pub closed spec fn wf(self) -> bool {
        sorted(self.records@)
    }

    /// An empty journal.
    pub fn new() -> (r: Frecency)
        ensures
            r.wf(),
            r@ == Map::<Seq<u8>, Score>::empty(),
    {
        let r = Frecency { records: Vec::new() };
        assert(r@ =~= Map::<Seq<u8>, Score>::empty());
        r
    }

    proof fn lemma_one_place(&self, i: int, j: int)
        requires
            self.wf(),
            0 <= i < self.records@.len(),
            0 <= j < self.records@.len(),
            self.records@[i].0@ == self.records@[j].0@,
        ensures
            i == j,
    {
        let a = self.records@[i].0@;
        lemma_lex_total(a, a);
    }

    /// The value at a place is the value of its path.
    proof fn lemma_value(&self, i: int)
        requires
            self.wf(),
            0 <= i < self.records@.len(),
        ensures
            self@.contains_key(self.records@[i].0@),
            self@[self.records@[i].0@] == self.records@[i].1,
    {
        let path = self.records@[i].0@;
        assert(record_at(self.records@, path, i));
        let j = choose|j: int| record_at(self.records@, path, j);
        self.lemma_one_place(i, j);
    }

    /// How many paths are recorded.
    pub fn len(&self) -> (n: usize)
        requires
            self.wf(),
        ensures
            n == self@.len(),
            self@.dom().finite(),
    {
        proof {
            let keys = Seq::new(self.records@.len(), |i: int| self.records@[i].0@);
            assert forall|i: int, j: int|
                0 <= i < keys.len() && 0 <= j < keys.len() && i != j implies keys[i] != keys[j] by {
                if keys[i] == keys[j] {
                    self.lemma_one_place(i, j);
                }
            }
            assert(keys.no_duplicates());
            keys.unique_seq_to_set();
            assert forall|path: Seq<u8>| keys.to_set().contains(path) == self@.dom().contains(
                path,
            ) by {
                if keys.contains(path) {
                    let i = choose|i: int| 0 <= i < keys.len() && keys[i] == path;
                    assert(record_at(self.records@, path, i));
                }
                if self@.dom().contains(path) {
                    let i = choose|i: int| record_at(self.records@, path, i);
                    assert(keys[i] == path);
                }
            }
            assert(keys.to_set() =~= self@.dom());
        }
        self.records.len()
    }

    /// The first place whose path is not before `path`.
    fn place(&self, path: &[u8]) -> (at: usize)
        requires
            self.wf(),
        ensures
            at <= self.records@.len(),
            forall|i: int| 0 <= i < at ==> !lex_le(path@, (#[trigger] self.records@[i]).0@),
            forall|i: int|
                at <= i < self.records@.len() ==> lex_le(path@, (#[trigger] self.records@[i]).0@),
    {
        let mut lo: usize = 0;
        let mut hi: usize = self.records.len();
        while lo < hi
            invariant
                self.wf(),
                lo <= hi <= self.records@.len(),
                forall|i: int| 0 <= i < lo ==> !lex_le(path@, (#[trigger] self.records@[i]).0@),
                forall|i: int|
                    hi <= i < self.records@.len() ==> lex_le(
                        path@,
                        (#[trigger] self.records@[i]).0@,
                    ),
            decreases hi - lo,
        {
            let mid: usize = lo + (hi - lo) / 2;
            if bytes_le(path, self.records[mid].0.as_slice()) {
                proof {
                    assert forall|i: int| mid <= i < self.records@.len() implies lex_le(
                        path@,
                        (#[trigger] self.records@[i]).0@,
                    ) by {
                        let m = self.records@[mid as int].0@;
                        lemma_lex_total(m, self.records@[i].0@);
                        lemma_lex_transitive(path@, m, self.records@[i].0@);
                    }
                }
                hi = mid;
            } else {
                proof {
                    assert forall|i: int| 0 <= i <= mid implies !lex_le(
                        path@,
                        (#[trigger] self.records@[i]).0@,
                    ) by {
                        let m = self.records@[mid as int].0@;
                        if i < mid && lex_le(path@, self.records@[i].0@) {
                            lemma_lex_total(self.records@[i].0@, m);
                            lemma_lex_transitive(path@, self.records@[i].0@, m);
                        }
                    }
                }
                lo = mid + 1;
            }
        }
        lo
    }

    /// The score of a path.
    pub fn get(&self, path: &[u8]) -> (r: Option<Score>)
        requires
            self.wf(),
        ensures
            r == (if self@.contains_key(path@) {
                Some(self@[path@])
            } else {
                None
            }),
    {
        let at = self.place(path);
        if at < self.records.len() && bytes_eq(self.records[at].0.as_slice(), path) {
            proof {
                self.lemma_value(at as int);
            }
            return Some(self.records[at].1);
        }
        proof {
            if self@.contains_key(path@) {
                let i = choose|i: int| record_at(self.records@, path@, i);
                lemma_lex_total(path@, path@);
                if i > at {
                    assert(lex_le(path@, self.records@[at as int].0@));
                    assert(!lex_le(self.records@[i].0@, self.records@[at as int].0@));
                }
            }
        }
        None
    }

    /// Records the score of a path, in place of the one it had.
    pub fn insert(&mut self, path: Vec<u8>, score: Score)
        requires
            old(self).wf(),
        ensures
            final(self).wf(),
            final(self)@ == old(self)@.insert(path@, score),
    {
        let at = self.place(path.as_slice());
        let ghost before = *self;
        let ghost key = path@;
        let known = at < self.records.len() && bytes_eq(
            self.records[at].0.as_slice(),
            path.as_slice(),
        );
        if known {
            self.records.set(at, (path, score));
        } else {
            self.records.insert(at, (path, score));
        }
        proof {
            let old_r = before.records@;
            let new_r = self.records@;
            assert forall|i: int, j: int| 0 <= i < j < new_r.len() implies !lex_le(
                (#[trigger] new_r[j]).0@,
                (#[trigger] new_r[i]).0@,
            ) by {
                if known {
                    assert(new_r[i].0@ == old_r[i].0@);
                    assert(new_r[j].0@ == old_r[j].0@);
                } else {
                    if j < at {
                        assert(new_r[i] == old_r[i] && new_r[j] == old_r[j]);
                    } else if j == at {
                        assert(new_r[i] == old_r[i]);
                    } else if i < at {
                        assert(new_r[i] == old_r[i] && new_r[j] == old_r[j - 1]);
                    } else if i == at {
                        assert(new_r[j] == old_r[j - 1]);
                        if lex_le(new_r[j].0@, key) {
                            lemma_lex_antisymmetric(key, old_r[j - 1].0@);
                            if j - 1 > at {
                                assert(lex_le(key, old_r[at as int].0@));
                            }
                        }
                    } else {
                        assert(new_r[i] == old_r[i - 1] && new_r[j] == old_r[j - 1]);
                    }
                }
            }
            assert(self.wf());
            assert forall|p: Seq<u8>| #[trigger]
                self@.dom().contains(p) == before@.insert(key, score).dom().contains(p) by {
                if self@.contains_key(p) {
                    let i = choose|i: int| record_at(new_r, p, i);
                    if known {
                        assert(record_at(old_r, p, i));
                    } else if i < at {
                        assert(record_at(old_r, p, i));
                    } else if i > at {
                        assert(record_at(old_r, p, i - 1));
                    }
                }
                if p == key {
                    assert(record_at(new_r, p, at as int));
                }
                if before@.contains_key(p) {
                    let i = choose|i: int| record_at(old_r, p, i);
                    if known || i < at {
                        assert(record_at(new_r, p, i));
                    } else {
                        assert(record_at(new_r, p, i + 1));
                    }
                }
            }
            assert forall|p: Seq<u8>| self@.dom().contains(p) implies #[trigger] self@[p]
                == before@.insert(key, score)[p] by {
                if p == key {
                    self.lemma_value(at as int);
                } else {
                    assert(before@.insert(key, score).dom().contains(p));
                    assert(before@.contains_key(p));
                    let i = choose|i: int| record_at(old_r, p, i);
                    before.lemma_value(i);
                    if known || i < at {
                        self.lemma_value(i);
                    } else {
                        self.lemma_value(i + 1);
                    }
                }
            }
            assert(self@ =~= before@.insert(key, score));
        }
    }
}

} // verus!
