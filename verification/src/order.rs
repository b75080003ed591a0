//! Stable sorting of positions.
//!
//! A list is sorted by arranging the positions of its items: what the caller
//! provides is only when one item need not stand behind another. Items that
//! need not stand behind each other keep their order.

use vstd::prelude::*;

verus! {

/// Whether the item at `a` stands before the item at `b` in a stable
/// arrangement.
pub open spec fn stands_before(le: spec_fn(int, int) -> bool, a: int, b: int) -> bool {
    le(a, b) && (!le(b, a) || a < b)
}

/// Any two of the first `n` items are comparable, and comparing is transitive.
pub open spec fn total_preorder(le: spec_fn(int, int) -> bool, n: int) -> bool {
    &&& forall|a: int, b: int|
        0 <= a < n && 0 <= b < n ==> #[trigger] le(a, b) || le(b, a)
    &&& forall|a: int, b: int, c: int|
        0 <= a < n && 0 <= b < n && 0 <= c < n && #[trigger] le(a, b) && #[trigger] le(b, c) ==> le(
            a,
            c,
        )
}

/// `p` holds the positions from `lo` up to `hi`, each once, in stable order.
pub open spec fn arranged(
    le: spec_fn(int, int) -> bool,
    lo: int,
    hi: int,
    p: Seq<usize>,
) -> bool {
    &&& p.len() == hi - lo
    &&& forall|k: int| 0 <= k < p.len() ==> lo <= #[trigger] p[k] < hi
    &&& forall|i: int| lo <= i < hi ==> #[trigger] p.contains(i as usize)
    &&& forall|j: int, k: int|
        0 <= j < k < p.len() ==> stands_before(le, #[trigger] p[j] as int, #[trigger] p[k] as int)
}

/// A list of items together with a way to compare them.
pub trait Compared {
    /// How many items there are.
    spec fn size(&self) -> nat;

    /// Whether the first item need not stand behind the second.
    spec fn le(&self) -> spec_fn(int, int) -> bool;

    proof fn lemma_total(&self)
        ensures
            total_preorder(self.le(), self.size() as int),
    ;

    fn not_after(&self, a: usize, b: usize) -> (r: bool)
        requires
            a < self.size(),
            b < self.size(),
        ensures
            r == (self.le())(a as int, b as int),
    ;
}

proof fn lemma_before_transitive(
    le: spec_fn(int, int) -> bool,
    n: int,
    a: int,
    b: int,
    c: int,
)
    requires
        total_preorder(le, n),
        0 <= a < n,
        0 <= b < n,
        0 <= c < n,
        stands_before(le, a, b),
        stands_before(le, b, c),
    ensures
        stands_before(le, a, c),
{
    assert(le(a, b) && le(b, c));
    assert(le(a, c));
    if le(c, a) {
        assert(le(c, a) && le(a, b));
        assert(le(c, b));
        assert(le(b, c) && le(c, a));
        assert(le(b, a));
    }
}

/// Merge sort of the positions from `lo` up to `hi`.
pub fn arrange<C: Compared>(items: &C, lo: usize, hi: usize) -> (p: Vec<usize>)
    requires
        lo <= hi <= items.size(),
    ensures
        arranged(items.le(), lo as int, hi as int, p@),
    decreases hi - lo,
{
    if hi - lo < 2 {
        let mut p: Vec<usize> = Vec::new();
        if lo < hi {
            p.push(lo);
            assert(p@[0] == lo);
        }
        return p;
    }
    let mid: usize = lo + (hi - lo) / 2;
    let left = arrange(items, lo, mid);
    let right = arrange(items, mid, hi);
    merge(items, &left, &right, lo, mid, hi)
}

#[verifier::rlimit(40)]
fn merge<C: Compared>(
    items: &C,
    left: &Vec<usize>,
    right: &Vec<usize>,
    lo: usize,
    mid: usize,
    hi: usize,
) -> (p: Vec<usize>)
    requires
        lo <= mid <= hi <= items.size(),
        arranged(items.le(), lo as int, mid as int, left@),
        arranged(items.le(), mid as int, hi as int, right@),
    ensures
        arranged(items.le(), lo as int, hi as int, p@),
{
    let ghost le = items.le();
    let ghost n = items.size() as int;
    proof {
        items.lemma_total();
    }
    let mut p: Vec<usize> = Vec::new();
    let mut i: usize = 0;
    let mut j: usize = 0;
    while i < left.len() || j < right.len()
        invariant
            le == items.le(),
            n == items.size(),
            total_preorder(le, n),
            lo <= mid <= hi <= n,
            arranged(le, lo as int, mid as int, left@),
            arranged(le, mid as int, hi as int, right@),
            i <= left@.len(),
            j <= right@.len(),
            p@.len() == i + j,
            forall|k: int| 0 <= k < p@.len() ==> lo <= #[trigger] p@[k] < hi,
            forall|k: int| 0 <= k < i ==> p@.contains(#[trigger] left@[k]),
            forall|k: int| 0 <= k < j ==> p@.contains(#[trigger] right@[k]),
            forall|a: int, b: int|
                0 <= a < b < p@.len() ==> stands_before(
                    le,
                    #[trigger] p@[a] as int,
                    #[trigger] p@[b] as int,
                ),
            forall|a: int, b: int|
                0 <= a < p@.len() && i <= b < left@.len() ==> stands_before(
                    le,
                    #[trigger] p@[a] as int,
                    #[trigger] left@[b] as int,
                ),
            forall|a: int, b: int|
                0 <= a < p@.len() && j <= b < right@.len() ==> stands_before(
                    le,
                    #[trigger] p@[a] as int,
                    #[trigger] right@[b] as int,
                ),
        decreases left@.len() - i + right@.len() - j,
    {
        let ghost before = p@;
        let from_left = if i < left.len() && j < right.len() {
            items.not_after(left[i], right[j])
        } else {
            i < left.len()
        };
        if from_left {
            let x = left[i];
            proof {
                assert forall|b: int| j <= b < right@.len() implies stands_before(
                    le,
                    x as int,
                    #[trigger] right@[b] as int,
                ) by {
                    assert(stands_before(le, x as int, right@[j as int] as int));
                    if b > j {
                        lemma_before_transitive(
                            le,
                            n,
                            x as int,
                            right@[j as int] as int,
                            right@[b] as int,
                        );
                    }
                }
            }
            p.push(x);
            i += 1;
        } else {
            let x = right[j];
            proof {
                assert forall|b: int| i <= b < left@.len() implies stands_before(
                    le,
                    x as int,
                    #[trigger] left@[b] as int,
                ) by {
                    assert(le(left@[i as int] as int, x as int) || le(
                        x as int,
                        left@[i as int] as int,
                    ));
                    assert(stands_before(le, x as int, left@[i as int] as int));
                    if b > i {
                        lemma_before_transitive(
                            le,
                            n,
                            x as int,
                            left@[i as int] as int,
                            left@[b] as int,
                        );
                    }
                }
            }
            p.push(x);
            j += 1;
        }
        proof {
            assert forall|k: int| 0 <= k < i implies p@.contains(#[trigger] left@[k]) by {
                if before.contains(left@[k]) {
                    let m = choose|m: int| 0 <= m < before.len() && before[m] == left@[k];
                    assert(p@[m] == left@[k]);
                } else {
                    assert(p@[before.len() as int] == left@[k]);
                }
            }
            assert forall|k: int| 0 <= k < j implies p@.contains(#[trigger] right@[k]) by {
                if before.contains(right@[k]) {
                    let m = choose|m: int| 0 <= m < before.len() && before[m] == right@[k];
                    assert(p@[m] == right@[k]);
                } else {
                    assert(p@[before.len() as int] == right@[k]);
                }
            }
        }
    }
    proof {
        assert forall|x: int| lo <= x < hi implies #[trigger] p@.contains(x as usize) by {
            if x < mid {
                assert(left@.contains(x as usize));
                let k = choose|k: int| 0 <= k < left@.len() && left@[k] == x as usize;
                assert(p@.contains(left@[k]));
            } else {
                assert(right@.contains(x as usize));
                let k = choose|k: int| 0 <= k < right@.len() && right@[k] == x as usize;
                assert(p@.contains(right@[k]));
            }
        }
    }
    p
}

/// An arrangement holds every position of its range once, and of two items the
/// one that must stand behind never stands before; items that need not stand
/// behind each other keep their order.
pub proof fn law_arrangement_sorts_every_position_once(
    le: spec_fn(int, int) -> bool,
    lo: int,
    hi: int,
    p: Seq<usize>,
)
    requires
        0 <= lo <= hi <= usize::MAX,
        arranged(le, lo, hi, p),
    ensures
        p.len() == hi - lo,
        forall|i: int| lo <= i < hi ==> #[trigger] p.contains(i as usize),
        forall|k: int| 0 <= k < p.len() ==> lo <= #[trigger] p[k] < hi,
        forall|j: int, k: int| 0 <= j < p.len() && 0 <= k < p.len() && j != k ==> p[j] != p[k],
        forall|j: int, k: int|
            0 <= j < k < p.len() ==> le(#[trigger] p[j] as int, #[trigger] p[k] as int),
        forall|j: int, k: int|
            0 <= j < k < p.len() && le(#[trigger] p[k] as int, #[trigger] p[j] as int) ==> p[j]
                < p[k],
{
    assert forall|j: int, k: int| 0 <= j < p.len() && 0 <= k < p.len() && j != k implies p[j]
        != p[k] by {
        if j < k {
            assert(stands_before(le, p[j] as int, p[k] as int));
        } else {
            assert(stands_before(le, p[k] as int, p[j] as int));
        }
    }
    assert forall|j: int, k: int| 0 <= j < k < p.len() implies le(
        #[trigger] p[j] as int,
        #[trigger] p[k] as int,
    ) && (le(p[k] as int, p[j] as int) ==> p[j] < p[k]) by {
        assert(stands_before(le, p[j] as int, p[k] as int));
    }
}

/// There is only one stable arrangement.
pub proof fn law_arrangement_is_unique(
    le: spec_fn(int, int) -> bool,
    lo: int,
    hi: int,
    p: Seq<usize>,
    q: Seq<usize>,
)
    requires
        0 <= lo <= hi <= usize::MAX,
        arranged(le, lo, hi, p),
        arranged(le, lo, hi, q),
    ensures
        p == q,
{
    assert forall|k: int| 0 <= k < p.len() implies p[k] == q[k] by {
        lemma_arranged_agree(le, lo, hi, p, q, k);
    }
    assert(p =~= q);
}

proof fn lemma_arranged_agree(
    le: spec_fn(int, int) -> bool,
    lo: int,
    hi: int,
    p: Seq<usize>,
    q: Seq<usize>,
    k: int,
)
    requires
        0 <= lo <= hi <= usize::MAX,
        arranged(le, lo, hi, p),
        arranged(le, lo, hi, q),
        0 <= k < p.len(),
    ensures
        forall|j: int| 0 <= j <= k ==> p[j] == q[j],
    decreases k,
{
    if k > 0 {
        lemma_arranged_agree(le, lo, hi, p, q, k - 1);
    }
    if p[k] != q[k] {
        assert(q.contains((p[k] as int) as usize));
        assert(p.contains((q[k] as int) as usize));
        let m = choose|m: int| 0 <= m < q.len() && q[m] == p[k];
        let l = choose|l: int| 0 <= l < p.len() && p[l] == q[k];
        if m < k {
            assert(p[m] == q[m]);
            assert(stands_before(le, p[m] as int, p[k] as int));
        } else {
            assert(stands_before(le, q[k] as int, q[m] as int));
        }
        if l < k {
            assert(p[l] == q[l]);
            assert(stands_before(le, q[l] as int, q[k] as int));
        } else {
            assert(stands_before(le, p[k] as int, p[l] as int));
        }
        assert(false);
    }
}

} // verus!
