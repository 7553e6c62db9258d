//! Text cut at a character.
use vstd::prelude::*;

verus! {

/// The parts of a text between the places where `c` stands.
pub open spec fn parts(t: Seq<char>, c: char) -> Seq<Seq<char>>
    decreases t.len(),
{
    if t.len() == 0 {
        seq![Seq::empty()]
    } else {
        let before = parts(t.drop_last(), c);
        if t.last() == c {
            before.push(Seq::empty())
        } else {
            before.drop_last().push(before.last().push(t.last()))
        }
    }
}

/// Parts put together again with `c` between them.
pub open spec fn joined(p: Seq<Seq<char>>, c: char) -> Seq<char>
    decreases p.len(),
{
    if p.len() == 0 {
        Seq::empty()
    } else if p.len() == 1 {
        p[0]
    } else {
        joined(p.drop_last(), c) + seq![c] + p.last()
    }
}

proof fn joined_last(p: Seq<Seq<char>>, c: char, x: char)
    requires
        p.len() > 0,
    ensures
        joined(p.drop_last().push(p.last().push(x)), c) == joined(p, c).push(x),
{
    let q = p.drop_last().push(p.last().push(x));
    if p.len() > 1 {
        assert(q.drop_last() =~= p.drop_last());
        assert(joined(q, c) =~= joined(p, c).push(x));
    } else {
        assert(p.last() == p[0]);
    }
}

/// The parts of a text are free of the character and, joined by it, give the text back.
pub proof fn parts_join(t: Seq<char>, c: char)
    ensures
        parts(t, c).len() > 0,
        joined(parts(t, c), c) == t,
        forall|i: int| 0 <= i < parts(t, c).len() ==> !(#[trigger] parts(t, c)[i]).contains(c),
    decreases t.len(),
{
    if t.len() > 0 {
        let u = t.drop_last();
        let before = parts(u, c);
        parts_join(u, c);
        let p = parts(t, c);
        if t.last() == c {
            assert(p.drop_last() =~= before);
            assert(joined(p, c) =~= t);
        } else {
            joined_last(before, c, t.last());
            assert(u.push(t.last()) =~= t);
            assert forall|i: int| 0 <= i < p.len() implies !(#[trigger] p[i]).contains(c) by {
                if i < before.len() - 1 {
                    assert(p[i] == before[i]);
                } else {
                    let l = before.last();
                    assert(l == before[before.len() - 1]);
                    if p[i].contains(c) {
                        let j = choose|j: int| 0 <= j < p[i].len() && p[i][j] == c;
                        assert(l[j] == c);
                    }
                }
            }
        }
    }
}

/// Text free of the character goes on the last part.
pub proof fn parts_more(t: Seq<char>, b: Seq<char>, c: char)
    requires
        !b.contains(c),
    ensures
        parts(t + b, c) == parts(t, c).drop_last().push(parts(t, c).last() + b),
        parts(t, c).len() > 0,
    decreases b.len(),
{
    parts_join(t, c);
    let p = parts(t, c);
    if b.len() == 0 {
        assert(t + b =~= t);
        assert(p.last() + b =~= p.last());
        assert(p.drop_last().push(p.last() + b) =~= p);
    } else {
        let d = b.drop_last();
        assert forall|i: int| 0 <= i < d.len() implies d[i] != c by {
            assert(b.contains(b[i]));
        }
        parts_more(t, d, c);
        assert(b.contains(b[b.len() - 1]));
        assert((t + b).drop_last() =~= t + d);
        let q = parts(t + d, c);
        assert(q.drop_last() =~= p.drop_last());
        assert((p.last() + d).push(b.last()) =~= p.last() + b);
    }
}

/// The character starts a new part.
pub proof fn parts_cut(t: Seq<char>, c: char)
    ensures
        parts(t.push(c), c) == parts(t, c).push(Seq::empty()),
{
    assert(t.push(c).drop_last() =~= t);
}

} // verus!
