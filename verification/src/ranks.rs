//! Lists of ranks in falling order, the form in which hands are compared.
use vstd::prelude::*;

verus! {

/// The ranks below `n` that satisfy `p`, highest first.
pub open spec fn ranks_where(p: spec_fn(int) -> bool, n: int) -> Seq<int>
    decreases n,
{
    if n <= 0 {
        seq![]
    } else if p(n - 1) {
        seq![n - 1] + ranks_where(p, n - 1)
    } else {
        ranks_where(p, n - 1)
    }
}

/// The entry of `s` at place `i`, or `fill` where there is none.
pub open spec fn nth_or(s: Seq<int>, i: int, fill: int) -> int {
    if 0 <= i < s.len() {
        s[i]
    } else {
        fill
    }
}

/// What `ranks_where` lists: exactly the ranks that satisfy the predicate, in falling order.
pub proof fn ranks_where_lists(p: spec_fn(int) -> bool, n: int)
    ensures
        forall|i: int|
            0 <= i < ranks_where(p, n).len() ==> 0 <= #[trigger] ranks_where(p, n)[i] < n && p(
                ranks_where(p, n)[i],
            ),
        forall|i: int, j: int|
            0 <= i < j < ranks_where(p, n).len() ==> ranks_where(p, n)[i] > ranks_where(p, n)[j],
        forall|r: int| 0 <= r < n && #[trigger] p(r) ==> ranks_where(p, n).contains(r),
    decreases n,
{
    if n > 0 {
        ranks_where_lists(p, n - 1);
        let tail = ranks_where(p, n - 1);
        let all = ranks_where(p, n);
        if p(n - 1) {
            assert(all =~= seq![n - 1] + tail);
            assert forall|r: int| 0 <= r < n && #[trigger] p(r) implies all.contains(r) by {
                if r == n - 1 {
                    assert(all[0] == r);
                } else {
                    let i = choose|i: int| 0 <= i < tail.len() && tail[i] == r;
                    assert(all[i + 1] == r);
                }
            }
        }
    }
}

} // verus!
