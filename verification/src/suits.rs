//! Starting hands up to a renaming of the suits.
use crate::cards::card_fields;
use vstd::prelude::*;

verus! {

/// Whether `p` renames the four suits, one for one.
pub open spec fn is_suit_perm(p: Seq<u8>) -> bool {
    &&& p.len() == 4
    &&& p[0] < 4 && p[1] < 4 && p[2] < 4 && p[3] < 4
    &&& p[0] != p[1] && p[0] != p[2] && p[0] != p[3]
    &&& p[1] != p[2] && p[1] != p[3] && p[2] != p[3]
}

/// The place of a renaming in lexicographic order.
pub open spec fn perm_key(p: Seq<u8>) -> int {
    p[0] * 64 + p[1] * 16 + p[2] * 4 + p[3]
}

/// The card with its suit renamed.
pub open spec fn recolor(c: u8, p: Seq<u8>) -> u8 {
    ((c >> 2) << 2) | p[(c & 3) as int]
}

/// Three cards in ascending order.
pub open spec fn sorted3(s: Seq<u8>) -> Seq<u8> {
    let lo = if s[0] <= s[1] && s[0] <= s[2] {
        s[0]
    } else if s[1] <= s[2] {
        s[1]
    } else {
        s[2]
    };
    let hi = if s[0] >= s[1] && s[0] >= s[2] {
        s[0]
    } else if s[1] >= s[2] {
        s[1]
    } else {
        s[2]
    };
    seq![lo, (s[0] + s[1] + s[2] - lo - hi) as u8, hi]
}

/// Sorting three cards only rearranges them.
pub proof fn sorted3_rearranges(x: Seq<u8>)
    requires
        x.len() == 3,
    ensures
        ({
            let (a, b, c) = (x[0], x[1], x[2]);
            let y = sorted3(x);
            ||| y == seq![a, b, c]
            ||| y == seq![a, c, b]
            ||| y == seq![b, a, c]
            ||| y == seq![b, c, a]
            ||| y == seq![c, a, b]
            ||| y == seq![c, b, a]
        }),
        sorted3(x)[0] <= sorted3(x)[1] <= sorted3(x)[2],
{
    let (a, b, c) = (x[0], x[1], x[2]);
    let y = sorted3(x);
    assert(y =~= seq![a, b, c] || y =~= seq![a, c, b] || y =~= seq![b, a, c] || y =~= seq![b, c, a]
        || y =~= seq![c, a, b] || y =~= seq![c, b, a]);
}

/// A hand with its suits renamed, in ascending order.
pub open spec fn image(h: Seq<u8>, p: Seq<u8>) -> Seq<u8> {
    sorted3(seq![recolor(h[0], p), recolor(h[1], p), recolor(h[2], p)])
}

/// The place of a hand in lexicographic order.
pub open spec fn hand_key(h: Seq<u8>) -> int {
    h[0] * 65536 + h[1] * 256 + h[2]
}

/// All 24 renamings of the four suits, in lexicographic order.
pub fn perms4() -> (out: Vec<[u8; 4]>)
    ensures
        out@.len() == 24,
        forall|i: int| 0 <= i < 24 ==> is_suit_perm(#[trigger] out@[i]@),
        forall|i: int, j: int|
            0 <= i < j < 24 ==> perm_key(#[trigger] out@[i]@) < perm_key(#[trigger] out@[j]@),
        forall|p: Seq<u8>| #[trigger]
            is_suit_perm(p) ==> exists|i: int| 0 <= i < 24 && #[trigger] out@[i]@ == p,
        forall|i: int|
            0 <= i < 24 ==> (#[trigger] out@[i])[0] < 4 && out@[i][1] < 4 && out@[i][2] < 4
                && out@[i][3] < 4 && out@[i]@.no_duplicates(),
        forall|p: Seq<u8>|
            p.len() == 4 && p[0] < 4 && p[1] < 4 && p[2] < 4 && p[3] < 4
                && #[trigger] p.no_duplicates() ==> exists|i: int|
                0 <= i < 24 && #[trigger] out@[i]@ == p,
        forall|i: int, j: int|
            0 <= i < j < 24 ==> {
                let (p, q) = (#[trigger] out@[i], #[trigger] out@[j]);
                p[0] < q[0] || (p[0] == q[0] && (p[1] < q[1] || (p[1] == q[1] && (p[2] < q[2] || (
                p[2] == q[2] && p[3] < q[3])))))
            },
{
    let out: Vec<[u8; 4]> = listed_perms();
    proof {
        perms_spelled_out(out@);
    }
    out
}

/// The renamings, written out.
fn listed_perms() -> (out: Vec<[u8; 4]>)
    ensures
        out@.len() == 24,
        forall|i: int| 0 <= i < 24 ==> is_suit_perm(#[trigger] out@[i]@),
        forall|i: int, j: int|
            0 <= i < j < 24 ==> perm_key(#[trigger] out@[i]@) < perm_key(#[trigger] out@[j]@),
        forall|p: Seq<u8>| #[trigger]
            is_suit_perm(p) ==> exists|i: int| 0 <= i < 24 && #[trigger] out@[i]@ == p,
{
    let out: Vec<[u8; 4]> = vec![
        [0, 1, 2, 3],
        [0, 1, 3, 2],
        [0, 2, 1, 3],
        [0, 2, 3, 1],
        [0, 3, 1, 2],
        [0, 3, 2, 1],
        [1, 0, 2, 3],
        [1, 0, 3, 2],
        [1, 2, 0, 3],
        [1, 2, 3, 0],
        [1, 3, 0, 2],
        [1, 3, 2, 0],
        [2, 0, 1, 3],
        [2, 0, 3, 1],
        [2, 1, 0, 3],
        [2, 1, 3, 0],
        [2, 3, 0, 1],
        [2, 3, 1, 0],
        [3, 0, 1, 2],
        [3, 0, 2, 1],
        [3, 1, 0, 2],
        [3, 1, 2, 0],
        [3, 2, 0, 1],
        [3, 2, 1, 0],
    ];
    proof {
        let a0 = seq![0u8, 1, 2, 3];
        assert(out@[0]@ =~= a0);
        let a1 = seq![0u8, 1, 3, 2];
        assert(out@[1]@ =~= a1);
        let a2 = seq![0u8, 2, 1, 3];
        assert(out@[2]@ =~= a2);
        let a3 = seq![0u8, 2, 3, 1];
        assert(out@[3]@ =~= a3);
        let a4 = seq![0u8, 3, 1, 2];
        assert(out@[4]@ =~= a4);
        let a5 = seq![0u8, 3, 2, 1];
        assert(out@[5]@ =~= a5);
        let a6 = seq![1u8, 0, 2, 3];
        assert(out@[6]@ =~= a6);
        let a7 = seq![1u8, 0, 3, 2];
        assert(out@[7]@ =~= a7);
        let a8 = seq![1u8, 2, 0, 3];
        assert(out@[8]@ =~= a8);
        let a9 = seq![1u8, 2, 3, 0];
        assert(out@[9]@ =~= a9);
        let a10 = seq![1u8, 3, 0, 2];
        assert(out@[10]@ =~= a10);
        let a11 = seq![1u8, 3, 2, 0];
        assert(out@[11]@ =~= a11);
        let a12 = seq![2u8, 0, 1, 3];
        assert(out@[12]@ =~= a12);
        let a13 = seq![2u8, 0, 3, 1];
        assert(out@[13]@ =~= a13);
        let a14 = seq![2u8, 1, 0, 3];
        assert(out@[14]@ =~= a14);
        let a15 = seq![2u8, 1, 3, 0];
        assert(out@[15]@ =~= a15);
        let a16 = seq![2u8, 3, 0, 1];
        assert(out@[16]@ =~= a16);
        let a17 = seq![2u8, 3, 1, 0];
        assert(out@[17]@ =~= a17);
        let a18 = seq![3u8, 0, 1, 2];
        assert(out@[18]@ =~= a18);
        let a19 = seq![3u8, 0, 2, 1];
        assert(out@[19]@ =~= a19);
        let a20 = seq![3u8, 1, 0, 2];
        assert(out@[20]@ =~= a20);
        let a21 = seq![3u8, 1, 2, 0];
        assert(out@[21]@ =~= a21);
        let a22 = seq![3u8, 2, 0, 1];
        assert(out@[22]@ =~= a22);
        let a23 = seq![3u8, 2, 1, 0];
        assert(out@[23]@ =~= a23);
        assert forall|p: Seq<u8>| #[trigger] is_suit_perm(p) implies exists|i: int|
            0 <= i < 24 && #[trigger] out@[i]@ == p by {
            assert(p =~= a0 || p =~= a1 || p =~= a2 || p =~= a3 || p =~= a4 || p =~= a5
                || p =~= a6 || p =~= a7 || p =~= a8 || p =~= a9 || p =~= a10 || p =~= a11
                || p =~= a12 || p =~= a13 || p =~= a14 || p =~= a15 || p =~= a16 || p =~= a17
                || p =~= a18 || p =~= a19 || p =~= a20 || p =~= a21 || p =~= a22 || p =~= a23);
        }
    }
    out
}

/// What a list of all renamings in order holds, suit by suit.
proof fn perms_spelled_out(out: Seq<[u8; 4]>)
    requires
        out.len() == 24,
        forall|i: int| 0 <= i < 24 ==> is_suit_perm(#[trigger] out[i]@),
        forall|i: int, j: int|
            0 <= i < j < 24 ==> perm_key(#[trigger] out[i]@) < perm_key(#[trigger] out[j]@),
        forall|p: Seq<u8>| #[trigger]
            is_suit_perm(p) ==> exists|i: int| 0 <= i < 24 && #[trigger] out[i]@ == p,
    ensures
        forall|i: int|
            0 <= i < 24 ==> (#[trigger] out[i])[0] < 4 && out[i][1] < 4 && out[i][2] < 4
                && out[i][3] < 4 && out[i]@.no_duplicates(),
        forall|p: Seq<u8>|
            p.len() == 4 && p[0] < 4 && p[1] < 4 && p[2] < 4 && p[3] < 4
                && #[trigger] p.no_duplicates() ==> exists|i: int|
                0 <= i < 24 && #[trigger] out[i]@ == p,
        forall|i: int, j: int|
            0 <= i < j < 24 ==> {
                let (p, q) = (#[trigger] out[i], #[trigger] out[j]);
                p[0] < q[0] || (p[0] == q[0] && (p[1] < q[1] || (p[1] == q[1] && (p[2] < q[2] || (
                p[2] == q[2] && p[3] < q[3])))))
            },
{
    assert forall|i: int| 0 <= i < 24 implies (#[trigger] out[i])[0] < 4 && out[i][1] < 4
        && out[i][2] < 4 && out[i][3] < 4 && out[i]@.no_duplicates() by {
        assert(is_suit_perm(out[i]@));
    }
    assert forall|p: Seq<u8>|
        p.len() == 4 && p[0] < 4 && p[1] < 4 && p[2] < 4 && p[3] < 4
            && #[trigger] p.no_duplicates() implies exists|i: int|
        0 <= i < 24 && #[trigger] out[i]@ == p by {
        assert(is_suit_perm(p));
    }
    assert forall|i: int, j: int| 0 <= i < j < 24 implies {
        let (p, q) = (#[trigger] out[i], #[trigger] out[j]);
        p[0] < q[0] || (p[0] == q[0] && (p[1] < q[1] || (p[1] == q[1] && (p[2] < q[2] || (p[2]
            == q[2] && p[3] < q[3])))))
    } by {
        assert(is_suit_perm(out[i]@) && is_suit_perm(out[j]@));
        assert(perm_key(out[i]@) < perm_key(out[j]@));
    }
}

/// The least image of `h` under the renamings listed: `m` is one of the images, and none comes
/// before it.
pub open spec fn is_least_image(m: Seq<u8>, h: Seq<u8>, perms: Seq<[u8; 4]>) -> bool {
    &&& exists|i: int| 0 <= i < perms.len() && m == image(h, #[trigger] perms[i]@)
    &&& forall|i: int|
        0 <= i < perms.len() ==> hand_key(m) <= hand_key(image(h, #[trigger] perms[i]@))
}

/// A hand's place in lexicographic order determines it.
pub proof fn hand_key_injective(a: Seq<u8>, b: Seq<u8>)
    requires
        a.len() == 3,
        b.len() == 3,
        hand_key(a) == hand_key(b),
    ensures
        a == b,
{
    assert(a =~= b);
}

/// Puts three cards in ascending order.
pub(crate) fn sort3(m: [u8; 3]) -> (s: [u8; 3])
    ensures
        s@ == sorted3(m@),
{
    let mut a: u8 = m[0];
    let mut b: u8 = m[1];
    let mut c: u8 = m[2];
    if a > b {
        let t: u8 = a;
        a = b;
        b = t;
    }
    if b > c {
        let t: u8 = b;
        b = c;
        c = t;
    }
    if a > b {
        let t: u8 = a;
        a = b;
        b = t;
    }
    let s: [u8; 3] = [a, b, c];
    assert(s@ =~= sorted3(m@));
    s
}

/// Whether the first hand comes before the second in lexicographic order.
fn precedes(a: &[u8; 3], b: &[u8; 3]) -> (r: bool)
    ensures
        r == (hand_key(a@) < hand_key(b@)),
{
    a[0] < b[0] || (a[0] == b[0] && (a[1] < b[1] || (a[1] == b[1] && a[2] < b[2])))
}

/// The image of a card under a renaming of the suits.
fn recolored(c: u8, p: &[u8; 4]) -> (d: u8)
    ensures
        d == recolor(c, p@),
{
    proof {
        card_fields(c);
    }
    ((c >> 2) << 2) | p[(c & 3) as usize]
}

/// The form that stands for a hand and all its images: of the images under the renamings given,
/// each in ascending order, the first in lexicographic order.
pub fn canonical(combo: [u8; 3], perms: &[[u8; 4]]) -> (m: [u8; 3])
    requires
        perms@.len() > 0,
    ensures
        is_least_image(m@, combo@, perms@),
{
    let mut best: [u8; 3] = sort3(
        [
            recolored(combo[0], &perms[0]),
            recolored(combo[1], &perms[0]),
            recolored(combo[2], &perms[0]),
        ],
    );
    let mut i: usize = 1;
    let ghost mut at: int = 0;
    assert(best@ =~= image(combo@, perms@[0]@));
    while i < perms.len()
        invariant
            1 <= i <= perms@.len(),
            0 <= at < i,
            best@ == image(combo@, perms@[at]@),
            forall|j: int|
                0 <= j < i ==> hand_key(best@) <= hand_key(image(combo@, #[trigger] perms@[j]@)),
        decreases perms@.len() - i,
    {
        let m: [u8; 3] = sort3(
            [
                recolored(combo[0], &perms[i]),
                recolored(combo[1], &perms[i]),
                recolored(combo[2], &perms[i]),
            ],
        );
        assert(m@ =~= image(combo@, perms@[i as int]@));
        if precedes(&m, &best) {
            best = m;
            proof {
                at = i as int;
            }
        }
        i = i + 1;
    }
    best
}

} // verus!
