//! Which hands are finished, and which are still to be counted.
use crate::results::{hand_read_back, read_hand, recorded_hand, result_text, texts};
use vstd::prelude::*;

verus! {

/// Some hands, as sequences of cards.
pub open spec fn hands(list: Seq<[u8; 3]>) -> Seq<Seq<u8>> {
    Seq::new(list.len(), |i: int| list[i]@)
}

/// The hands that lines record, each once, in the order in which they first turn up.
pub open spec fn hands_in(lines: Seq<Seq<char>>) -> Seq<Seq<u8>>
    decreases lines.len(),
{
    if lines.len() == 0 {
        Seq::empty()
    } else {
        let before = hands_in(lines.drop_last());
        match recorded_hand(lines.last()) {
            Some(h) => if before.contains(h) {
                before
            } else {
                before.push(h)
            },
            None => before,
        }
    }
}

/// Says of a hand, given with the size of its class, whether it is not among `done`.
pub open spec fn not_among(done: Seq<Seq<u8>>) -> spec_fn(([u8; 3], u32)) -> bool {
    |r: ([u8; 3], u32)| !done.contains(r.0@)
}

/// The lines record each of these hands, no others, and none twice.
pub proof fn hands_in_lines(lines: Seq<Seq<char>>)
    ensures
        hands_in(lines).no_duplicates(),
        forall|h: Seq<u8>| #[trigger]
            hands_in(lines).contains(h) <==> exists|i: int|
                0 <= i < lines.len() && recorded_hand(#[trigger] lines[i]) == Some(h),
    decreases lines.len(),
{
    if lines.len() > 0 {
        let rest = lines.drop_last();
        hands_in_lines(rest);
        let before = hands_in(rest);
        let now = hands_in(lines);
        let last = lines.len() - 1;
        assert forall|h: Seq<u8>| #[trigger] now.contains(h) implies exists|i: int|
            0 <= i < lines.len() && recorded_hand(#[trigger] lines[i]) == Some(h) by {
            let j = choose|j: int| 0 <= j < now.len() && now[j] == h;
            if j < before.len() {
                assert(before[j] == h);
                assert(before.contains(h));
                let i = choose|i: int|
                    0 <= i < rest.len() && recorded_hand(#[trigger] rest[i]) == Some(h);
                assert(lines[i] == rest[i]);
            } else {
                assert(recorded_hand(lines[last]) == Some(h));
            }
        }
        assert forall|h: Seq<u8>|
            (exists|i: int| 0 <= i < lines.len() && recorded_hand(#[trigger] lines[i]) == Some(
                h,
            )) implies #[trigger] now.contains(h) by {
            let i = choose|i: int|
                0 <= i < lines.len() && recorded_hand(#[trigger] lines[i]) == Some(h);
            if i < last {
                assert(rest[i] == lines[i]);
                assert(before.contains(h));
                let j = choose|j: int| 0 <= j < before.len() && before[j] == h;
                assert(now[j] == h);
            } else if !before.contains(h) {
                assert(now[before.len() as int] == h);
            }
        }
    }
}

/// A hand whose line has been written is no longer to be counted.
pub proof fn recorded_not_pending(
    reps: Seq<([u8; 3], u32)>,
    lines: Seq<Seq<char>>,
    i: int,
    r: ([u8; 3], u32),
    m: nat,
    equity: Seq<char>,
)
    requires
        0 <= i < lines.len(),
        lines[i] == result_text(r.0@, m, equity),
    ensures
        !reps.filter(not_among(hands_in(lines))).contains(r),
{
    let keep = not_among(hands_in(lines));
    hand_read_back(r.0@, m, equity);
    hands_in_lines(lines);
    let left = reps.filter(keep);
    if left.contains(r) {
        let j = choose|j: int| 0 <= j < left.len() && left[j] == r;
        reps.lemma_filter_pred(keep, j);
    }
}

/// Nothing is left to be counted exactly where every hand is recorded.
pub proof fn nothing_pending(reps: Seq<([u8; 3], u32)>, done: Seq<Seq<u8>>)
    ensures
        reps.filter(not_among(done)).len() == 0 <==> forall|i: int|
            0 <= i < reps.len() ==> done.contains((#[trigger] reps[i]).0@),
{
    let keep = not_among(done);
    let left = reps.filter(keep);
    if left.len() == 0 {
        assert forall|i: int| 0 <= i < reps.len() implies done.contains(
            (#[trigger] reps[i]).0@,
        ) by {
            if keep(reps[i]) {
                reps.lemma_filter_contains(keep, i);
            }
        }
    } else {
        reps.lemma_filter_pred(keep, 0);
        from_filtered(reps, keep, 0);
    }
}

/// What a filter keeps was there.
proof fn from_filtered(
    s: Seq<([u8; 3], u32)>,
    keep: spec_fn(([u8; 3], u32)) -> bool,
    i: int,
) -> (j: int)
    requires
        0 <= i < s.filter(keep).len(),
    ensures
        0 <= j < s.len(),
        s[j] == s.filter(keep)[i],
    decreases s.len(),
{
    reveal(Seq::filter);
    if s.len() == 0 {
        0
    } else {
        let before = s.drop_last().filter(keep);
        if i < before.len() {
            from_filtered(s.drop_last(), keep, i)
        } else {
            s.len() - 1
        }
    }
}

/// Whether no two entries of `reps` hold the same hand.
pub open spec fn different_hands(reps: Seq<([u8; 3], u32)>) -> bool {
    forall|i: int, j: int|
        0 <= i < j < reps.len() ==> (#[trigger] reps[i]).0@ != (#[trigger] reps[j]).0@
}

/// Whether an entry of `reps` holds the hand `h`.
pub open spec fn holds_hand(reps: Seq<([u8; 3], u32)>, h: Seq<u8>) -> bool {
    exists|i: int| 0 <= i < reps.len() && (#[trigger] reps[i]).0@ == h
}

/// As many hands are left to be counted as have not been recorded.
pub proof fn pending_count(reps: Seq<([u8; 3], u32)>, done: Seq<Seq<u8>>)
    requires
        different_hands(reps),
        done.no_duplicates(),
        forall|j: int| 0 <= j < done.len() ==> holds_hand(reps, #[trigger] done[j]),
    ensures
        reps.filter(not_among(done)).len() + done.len() == reps.len(),
    decreases reps.len(),
{
    reveal(Seq::filter);
    if reps.len() == 0 {
        if done.len() > 0 {
            assert(holds_hand(reps, done[0]));
        }
    } else {
        let rest = reps.drop_last();
        let r = reps.last();
        let last = reps.len() - 1;
        if done.contains(r.0@) {
            let k = choose|k: int| 0 <= k < done.len() && done[k] == r.0@;
            let fewer = done.remove(k);
            assert forall|j: int| 0 <= j < fewer.len() implies holds_hand(
                rest,
                #[trigger] fewer[j],
            ) by {
                let o = if j < k {
                    j
                } else {
                    j + 1
                };
                assert(fewer[j] == done[o]);
                let i = choose|i: int|
                    0 <= i < reps.len() && (#[trigger] reps[i]).0@ == done[o];
                assert(i != last);
                assert(rest[i].0@ == fewer[j]);
            }
            assert(fewer.no_duplicates());
            pending_count(rest, fewer);
            filter_agrees(rest, not_among(fewer), not_among(done), done, fewer, r.0@, k);
        } else {
            assert forall|j: int| 0 <= j < done.len() implies holds_hand(
                rest,
                #[trigger] done[j],
            ) by {
                let i = choose|i: int| 0 <= i < reps.len() && (#[trigger] reps[i]).0@ == done[j];
                assert(done.contains(done[j]));
                assert(i != last);
                assert(rest[i].0@ == done[j]);
            }
            pending_count(rest, done);
        }
    }
}

/// Striking a hand off a list matters to no other hand.
proof fn filter_agrees(
    s: Seq<([u8; 3], u32)>,
    p: spec_fn(([u8; 3], u32)) -> bool,
    q: spec_fn(([u8; 3], u32)) -> bool,
    done: Seq<Seq<u8>>,
    fewer: Seq<Seq<u8>>,
    h: Seq<u8>,
    k: int,
)
    requires
        p == not_among(fewer),
        q == not_among(done),
        0 <= k < done.len(),
        done[k] == h,
        fewer == done.remove(k),
        forall|i: int| 0 <= i < s.len() ==> (#[trigger] s[i]).0@ != h,
    ensures
        s.filter(p) == s.filter(q),
    decreases s.len(),
{
    reveal(Seq::filter);
    if s.len() > 0 {
        let t = s.drop_last();
        assert forall|i: int| 0 <= i < t.len() implies (#[trigger] t[i]).0@ != h by {
            assert(t[i] == s[i]);
        }
        filter_agrees(t, p, q, done, fewer, h, k);
        let g = s.last().0@;
        assert(s[s.len() - 1].0@ != h);
        if done.contains(g) {
            let j = choose|j: int| 0 <= j < done.len() && done[j] == g;
            if j < k {
                assert(fewer[j] == g);
            } else {
                assert(fewer[j - 1] == g);
            }
        }
        if fewer.contains(g) {
            let j = choose|j: int| 0 <= j < fewer.len() && fewer[j] == g;
            if j < k {
                assert(done[j] == g);
            } else {
                assert(done[j + 1] == g);
            }
        }
    }
}

/// Whether two hands hold the same cards in the same order.
pub(crate) fn same_hand(a: &[u8; 3], b: &[u8; 3]) -> (same: bool)
    ensures
        same == (a@ == b@),
{
    let same: bool = a[0] == b[0] && a[1] == b[1] && a[2] == b[2];
    proof {
        if same {
            assert(a@ =~= b@);
        }
    }
    same
}

/// Whether a list holds a hand.
fn lists(list: &[[u8; 3]], h: &[u8; 3]) -> (found: bool)
    ensures
        found == hands(list@).contains(h@),
{
    let mut i: usize = 0;
    while i < list.len()
        invariant
            i <= list@.len(),
            forall|j: int| 0 <= j < i ==> #[trigger] hands(list@)[j] != h@,
        decreases list@.len() - i,
    {
        if same_hand(&list[i], h) {
            assert(hands(list@)[i as int] == h@);
            return true;
        }
        i = i + 1;
    }
    false
}

/// Collects the hands that lines record.
pub fn recorded_hands(lines: &[String]) -> (done: Vec<[u8; 3]>)
    ensures
        hands(done@) == hands_in(texts(lines@)),
        forall|i: int, j: int|
            0 <= i < j < done@.len() ==> (#[trigger] done@[i])@ != (#[trigger] done@[j])@,
        forall|j: int|
            0 <= j < done@.len() ==> exists|i: int|
                0 <= i < lines@.len() && recorded_hand((#[trigger] lines@[i])@) == Some(
                    (#[trigger] done@[j])@,
                ),
        forall|i: int|
            0 <= i < lines@.len() && recorded_hand((#[trigger] lines@[i])@) is Some
                ==> exists|j: int|
                0 <= j < done@.len() && recorded_hand(lines@[i]@) == Some((#[trigger] done@[j])@),
{
    let mut done: Vec<[u8; 3]> = Vec::new();
    let ghost all = texts(lines@);
    let mut i: usize = 0;
    assert(all.take(0) =~= Seq::empty());
    assert(hands(done@) =~= Seq::empty());
    while i < lines.len()
        invariant
            i <= lines@.len(),
            all == texts(lines@),
            hands(done@) == hands_in(all.take(i as int)),
        decreases lines@.len() - i,
    {
        proof {
            let now = all.take(i + 1);
            assert(now.drop_last() =~= all.take(i as int));
            assert(now.last() == lines@[i as int]@);
        }
        if let Some(h) = read_hand(lines[i].as_str()) {
            if !lists(done.as_slice(), &h) {
                let ghost before = hands(done@);
                done.push(h);
                assert(hands(done@) =~= before.push(h@));
            }
        }
        i = i + 1;
    }
    assert(all.take(i as int) =~= all);
    proof {
        hands_in_lines(all);
        let found = hands(done@);
        assert forall|i: int, j: int| 0 <= i < j < done@.len() implies (#[trigger] done@[i])@ != (
        #[trigger] done@[j])@ by {
            assert(found[i] != found[j]);
        }
        assert forall|j: int| 0 <= j < done@.len() implies exists|i: int|
            0 <= i < lines@.len() && recorded_hand((#[trigger] lines@[i])@) == Some(
                (#[trigger] done@[j])@,
            ) by {
            assert(found[j] == done@[j]@);
            assert(found.contains(done@[j]@));
            let i = choose|i: int|
                0 <= i < all.len() && recorded_hand(#[trigger] all[i]) == Some(done@[j]@);
            assert(all[i] == lines@[i]@);
        }
        assert forall|i: int|
            0 <= i < lines@.len() && recorded_hand(
                (#[trigger] lines@[i])@,
            ) is Some implies exists|j: int|
            0 <= j < done@.len() && recorded_hand(lines@[i]@) == Some((#[trigger] done@[j])@) by {
            let h = recorded_hand(lines@[i]@)->0;
            assert(all[i] == lines@[i]@);
            assert(found.contains(h));
            let j = choose|j: int| 0 <= j < found.len() && found[j] == h;
            assert(done@[j]@ == h);
        }
    }
    done
}

/// The hands still to be counted, in their order.
pub fn pending(reps: &[([u8; 3], u32)], done: &[[u8; 3]]) -> (left: Vec<([u8; 3], u32)>)
    ensures
        left@ == reps@.filter(not_among(hands(done@))),
        forall|r: ([u8; 3], u32)| #[trigger]
            left@.contains(r) <==> reps@.contains(r) && forall|j: int|
                0 <= j < done@.len() ==> (#[trigger] done@[j])@ != r.0@,
{
    let mut left: Vec<([u8; 3], u32)> = Vec::new();
    let ghost keep = not_among(hands(done@));
    let mut i: usize = 0;
    assert(reps@.take(0).filter(keep) =~= Seq::empty()) by {
        reveal(Seq::filter);
    }
    while i < reps.len()
        invariant
            i <= reps@.len(),
            keep == not_among(hands(done@)),
            left@ == reps@.take(i as int).filter(keep),
        decreases reps@.len() - i,
    {
        proof {
            let longer = reps@.take(i + 1);
            assert(longer.drop_last() =~= reps@.take(i as int));
            reveal(Seq::filter);
        }
        if !lists(done, &reps[i].0) {
            left.push(reps[i]);
        }
        i = i + 1;
    }
    assert(reps@.take(i as int) =~= reps@);
    proof {
        assert forall|r: ([u8; 3], u32)| #[trigger] left@.contains(r) <==> reps@.contains(r)
            && forall|j: int| 0 <= j < done@.len() ==> (#[trigger] done@[j])@ != r.0@ by {
            let found = hands(done@);
            if left@.contains(r) {
                let k = choose|k: int| 0 <= k < left@.len() && left@[k] == r;
                reps@.lemma_filter_pred(keep, k);
                let i = from_filtered(reps@, keep, k);
                assert forall|j: int| 0 <= j < done@.len() implies (#[trigger] done@[j])@
                    != r.0@ by {
                    assert(found[j] == done@[j]@);
                }
            }
            if reps@.contains(r) && (forall|j: int|
                0 <= j < done@.len() ==> (#[trigger] done@[j])@ != r.0@) {
                let i = choose|i: int| 0 <= i < reps@.len() && reps@[i] == r;
                if found.contains(r.0@) {
                    let j = choose|j: int| 0 <= j < found.len() && found[j] == r.0@;
                    assert(done@[j]@ == r.0@);
                }
                reps@.lemma_filter_contains(keep, i);
            }
        }
    }
    left
}

} // verus!
