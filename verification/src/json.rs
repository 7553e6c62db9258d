//! The lines of the ranking's text.
use crate::decimal::{decimal, decimal_value, is_digit};
use crate::names::{hand_text, suit_type_text};
use crate::parts::{parts, parts_cut, parts_more};
use crate::ranking::{cards_text, entries_in_deck, entries_text, entry_text, ranking_text, Entry};
use vstd::prelude::*;

verus! {

/// Whether a text holds no line break.
spec fn unbroken(t: Seq<char>) -> bool {
    !t.contains('\n')
}

proof fn unbroken_add(a: Seq<char>, b: Seq<char>)
    requires
        unbroken(a),
        unbroken(b),
    ensures
        unbroken(a + b),
{
    if (a + b).contains('\n') {
        let i = choose|i: int| 0 <= i < (a + b).len() && (a + b)[i] == '\n';
        if i < a.len() {
            assert(a[i] == '\n');
        } else {
            assert(b[i - a.len()] == '\n');
        }
    }
}

proof fn unbroken_decimal(n: nat)
    ensures
        unbroken(decimal(n)),
{
    decimal_value(n);
    assert forall|i: int| 0 <= i < decimal(n).len() implies decimal(n)[i] != '\n' by {
        assert(is_digit(decimal(n)[i]));
    }
}

proof fn unbroken_literals()
    ensures
        unbroken("  {\"rank\":"@),
        unbroken(",\"hand\":\""@),
        unbroken("\",\"cards\":["@),
        unbroken("],\"suitType\":\""@),
        unbroken("\",\"combos\":"@),
        unbroken(",\"equity\":"@),
        unbroken(",\"topPercent\":"@),
        unbroken("}"@),
        unbroken(","@),
        ","@ == seq![','],
        "\n"@ == seq!['\n'],
        ",\n"@ == seq![',', '\n'],
        "[\n"@ == seq!['[', '\n'],
        "]\n"@ == seq![']', '\n'],
{
    reveal_strlit("  {\"rank\":");
    reveal_strlit(",\"hand\":\"");
    reveal_strlit("\",\"cards\":[");
    reveal_strlit("],\"suitType\":\"");
    reveal_strlit("\",\"combos\":");
    reveal_strlit(",\"equity\":");
    reveal_strlit(",\"topPercent\":");
    reveal_strlit("}");
    reveal_strlit(",");
    reveal_strlit("\n");
    reveal_strlit(",\n");
    reveal_strlit("[\n");
    reveal_strlit("]\n");
    assert(","@ =~= seq![',']);
    assert("\n"@ =~= seq!['\n']);
    assert(",\n"@ =~= seq![',', '\n']);
    assert("[\n"@ =~= seq!['[', '\n']);
    assert("]\n"@ =~= seq![']', '\n']);
}

proof fn unbroken_hand(h: Seq<u8>)
    requires
        h.len() == 3,
        h[0] < 52 && h[1] < 52 && h[2] < 52,
    ensures
        unbroken(hand_text(h)),
        unbroken(suit_type_text(h)),
        unbroken(cards_text(h)),
{
    reveal_strlit("trips");
    reveal_strlit("pair-suited");
    reveal_strlit("pair-offsuit");
    reveal_strlit("monotone");
    reveal_strlit("two-tone");
    reveal_strlit("rainbow");
    unbroken_literals();
    unbroken_decimal(h[0] as nat);
    unbroken_decimal(h[1] as nat);
    unbroken_decimal(h[2] as nat);
    let (a, b, c, d) = (decimal(h[0] as nat), decimal(h[1] as nat), decimal(h[2] as nat), ","@);
    unbroken_add(a, d);
    unbroken_add(a + d, b);
    unbroken_add(a + d + b, d);
    unbroken_add(a + d + b + d, c);
}

proof fn unbroken_entry(e: Entry, rank: nat)
    requires
        e.hand[0] < 52 && e.hand[1] < 52 && e.hand[2] < 52,
        !e.equity@.contains('\n'),
        !e.top_percent@.contains('\n'),
    ensures
        unbroken(entry_text(e, rank)),
{
    unbroken_literals();
    unbroken_hand(e.hand@);
    unbroken_decimal(rank);
    unbroken_decimal(e.combos as nat);
    let t0 = "  {\"rank\":"@;
    let t1 = t0 + decimal(rank);
    let t2 = t1 + ",\"hand\":\""@;
    let t3 = t2 + hand_text(e.hand@);
    let t4 = t3 + "\",\"cards\":["@;
    let t5 = t4 + cards_text(e.hand@);
    let t6 = t5 + "],\"suitType\":\""@;
    let t7 = t6 + suit_type_text(e.hand@);
    let t8 = t7 + "\",\"combos\":"@;
    let t9 = t8 + decimal(e.combos as nat);
    let ta = t9 + ",\"equity\":"@;
    let tb = ta + e.equity@;
    let tc = tb + ",\"topPercent\":"@;
    let td = tc + e.top_percent@;
    unbroken_add(t0, decimal(rank));
    unbroken_add(t1, ",\"hand\":\""@);
    unbroken_add(t2, hand_text(e.hand@));
    unbroken_add(t3, "\",\"cards\":["@);
    unbroken_add(t4, cards_text(e.hand@));
    unbroken_add(t5, "],\"suitType\":\""@);
    unbroken_add(t6, suit_type_text(e.hand@));
    unbroken_add(t7, "\",\"combos\":"@);
    unbroken_add(t8, decimal(e.combos as nat));
    unbroken_add(t9, ",\"equity\":"@);
    unbroken_add(ta, e.equity@);
    unbroken_add(tb, ",\"topPercent\":"@);
    unbroken_add(tc, e.top_percent@);
    unbroken_add(td, "}"@);
}

/// The line of an entry, with the comma that separates it from the next.
spec fn line(entries: Seq<Entry>, k: int) -> Seq<char> {
    entry_text(entries[k], (k + 1) as nat) + (if k + 1 == entries.len() {
        seq![]
    } else {
        seq![',']
    })
}

/// One more line.
proof fn line_added(before: Seq<char>, l: Seq<char>)
    requires
        unbroken(l),
        parts(before, '\n').last() == Seq::<char>::empty(),
    ensures
        parts((before + l).push('\n'), '\n') == parts(before, '\n').drop_last().push(l).push(
            Seq::empty(),
        ),
        parts(before, '\n').len() > 0,
{
    parts_more(before, l, '\n');
    parts_cut(before + l, '\n');
    assert(Seq::<char>::empty() + l =~= l);
}

/// Where the break of a line and the comma before it stand does not matter to the text.
proof fn text_regrouped(a: Seq<char>, e: Seq<char>, t: Seq<char>, last: bool)
    ensures
        a + (e + t + (if last {
            seq!['\n']
        } else {
            seq![',', '\n']
        })) == (a + e + (t + (if last {
            seq![]
        } else {
            seq![',']
        }))).push('\n'),
{
    if last {
        assert(a + (e + t + seq!['\n']) =~= (a + e + (t + seq![])).push('\n'));
    } else {
        assert(a + (e + t + seq![',', '\n']) =~= (a + e + (t + seq![','])).push('\n'));
    }
}

proof fn no_lines(entries: Seq<Entry>)
    ensures
        parts("[\n"@ + entries_text(entries, 0), '\n') == seq![seq!['['], seq![]],
{
    unbroken_literals();
    let none = Seq::<char>::empty();
    parts_more(none, seq!['['], '\n');
    assert(none + seq!['['] =~= seq!['[']);
    parts_cut(seq!['['], '\n');
    assert("[\n"@ + entries_text(entries, 0) =~= seq!['['].push('\n'));
    assert(parts(none, '\n') =~= seq![none]);
    assert(parts(seq!['['], '\n') =~= seq![seq!['[']]);
    assert(seq![seq!['[']].push(none) =~= seq![seq!['['], seq![]]);
}

proof fn line_unbroken(entries: Seq<Entry>, k: int)
    requires
        entries_in_deck(entries),
        0 <= k < entries.len(),
        !entries[k].equity@.contains('\n'),
        !entries[k].top_percent@.contains('\n'),
    ensures
        unbroken(line(entries, k)),
{
    let t = entry_text(entries[k], (k + 1) as nat);
    unbroken_entry(entries[k], (k + 1) as nat);
    assert(!seq![','].contains('\n'));
    unbroken_add(t, seq![',']);
    unbroken_add(t, seq![]);
}

/// The lines up to an entry.
proof fn lines_so_far(entries: Seq<Entry>, n: int)
    requires
        entries_in_deck(entries),
        0 <= n <= entries.len(),
        forall|k: int|
            0 <= k < entries.len() ==> !(#[trigger] entries[k]).equity@.contains('\n')
                && !entries[k].top_percent@.contains('\n'),
    ensures
        ({
            let p = parts("[\n"@ + entries_text(entries, n), '\n');
            &&& p.len() == n + 2
            &&& p[0] == seq!['[']
            &&& p[n + 1] == Seq::<char>::empty()
            &&& forall|l: int| 1 <= l <= n ==> #[trigger] p[l] == line(entries, l - 1)
        }),
    decreases n,
{
    if n == 0 {
        no_lines(entries);
    } else {
        lines_so_far(entries, n - 1);
        let before = "[\n"@ + entries_text(entries, n - 1);
        let p = parts(before, '\n');
        let l = line(entries, n - 1);
        line_unbroken(entries, n - 1);
        assert(p.last() == p[n]);
        line_added(before, l);
        let t = entry_text(entries[n - 1], n as nat);
        assert("[\n"@ + entries_text(entries, n) == (before + l).push('\n')) by {
            unbroken_literals();
            text_regrouped("[\n"@, entries_text(entries, n - 1), t, n == entries.len());
        }
        let q = parts("[\n"@ + entries_text(entries, n), '\n');
        assert(q == p.drop_last().push(l).push(Seq::empty()));
        assert forall|i: int| 1 <= i <= n implies #[trigger] q[i] == line(entries, i - 1) by {
            if i < n {
                assert(p[i] == line(entries, i - 1));
            }
        }
    }
}

/// The ranking's text, cut at its line breaks: an opening bracket, one line for each entry in
/// order, a closing bracket, and nothing behind the last break. The lines are numbered from 1;
/// behind each name stands what the entry holds under it, and a comma ends every line but the last.
pub proof fn ranking_lines(entries: Seq<Entry>)
    requires
        entries_in_deck(entries),
        forall|k: int|
            0 <= k < entries.len() ==> !(#[trigger] entries[k]).equity@.contains('\n')
                && !entries[k].top_percent@.contains('\n'),
    ensures
        parts(ranking_text(entries), '\n').len() == entries.len() + 3,
        parts(ranking_text(entries), '\n')[0] == seq!['['],
        parts(ranking_text(entries), '\n')[entries.len() as int + 1] == seq![']'],
        parts(ranking_text(entries), '\n')[entries.len() as int + 2] == Seq::<char>::empty(),
        forall|l: int|
            1 <= l <= entries.len() ==> #[trigger] parts(ranking_text(entries), '\n')[l]
                == "  {\"rank\":"@ + decimal(l as nat) + ",\"hand\":\""@ + hand_text(
                    entries[l - 1].hand@,
                )
                    + "\",\"cards\":["@ + (decimal(entries[l - 1].hand[0] as nat) + ","@ + decimal(
                    entries[l - 1].hand[1] as nat,
                ) + ","@ + decimal(entries[l - 1].hand[2] as nat)) + "],\"suitType\":\""@
                    + suit_type_text(entries[l - 1].hand@) + "\",\"combos\":"@ + decimal(
                    entries[l - 1].combos as nat,
                ) + ",\"equity\":"@ + entries[l - 1].equity@ + ",\"topPercent\":"@
                    + entries[l - 1].top_percent@ + "}"@ + (if l == entries.len() {
                seq![]
            } else {
                seq![',']
            }),
{
    unbroken_literals();
    let n = entries.len() as int;
    lines_so_far(entries, n);
    let before = "[\n"@ + entries_text(entries, n);
    let p = parts(before, '\n');
    assert(!seq![']'].contains('\n'));
    parts_more(before, seq![']'], '\n');
    parts_cut(before + seq![']'], '\n');
    let text = ranking_text(entries);
    assert(text =~= (before + seq![']']).push('\n'));
    let q = parts(text, '\n');
    assert(q =~= p.drop_last().push(p.last() + seq![']']).push(Seq::empty()));
    assert(p.last() + seq![']'] =~= seq![']']);
    assert forall|l: int| 1 <= l <= n implies #[trigger] q[l] == "  {\"rank\":"@ + decimal(
                    l as nat,
                ) + ",\"hand\":\""@ + hand_text(entries[l - 1].hand@)
                    + "\",\"cards\":["@ + (decimal(entries[l - 1].hand[0] as nat) + ","@ + decimal(
                    entries[l - 1].hand[1] as nat,
                ) + ","@ + decimal(entries[l - 1].hand[2] as nat)) + "],\"suitType\":\""@
                    + suit_type_text(entries[l - 1].hand@) + "\",\"combos\":"@ + decimal(
                    entries[l - 1].combos as nat,
                ) + ",\"equity\":"@ + entries[l - 1].equity@ + ",\"topPercent\":"@
                    + entries[l - 1].top_percent@ + "}"@ + (if l == n {
        seq![]
    } else {
        seq![',']
    }) by {
        assert(p[l] == line(entries, l - 1));
    }
}

proof fn entries_flat(entries: Seq<Entry>, lines: Seq<Seq<char>>, n: int)
    requires
        0 <= n <= entries.len(),
        lines.len() == entries.len(),
        forall|k: int|
            0 <= k < entries.len() ==> #[trigger] lines[k] == entry_text(
                entries[k],
                (k + 1) as nat,
            ) + (if k + 1 == entries.len() {
                "\n"@
            } else {
                ",\n"@
            }),
    ensures
        entries_text(entries, n) == lines.take(n).flatten_alt(),
    decreases n,
{
    let now = lines.take(n);
    if n > 0 {
        entries_flat(entries, lines, n - 1);
        assert(now.drop_last() =~= lines.take(n - 1));
        assert(now.last() == lines[n - 1]);
        let t = entry_text(entries[n - 1], n as nat);
        let e = entries_text(entries, n - 1);
        let sep = if n == entries.len() {
            "\n"@
        } else {
            ",\n"@
        };
        assert(e + t + sep =~= e + (t + sep));
    }
}

/// The ranking's text is an opening bracket, the lines of the entries one behind the other, and a
/// closing bracket, whatever the texts hold. Behind each name in a line stands what the entry holds
/// under it; the lines are numbered from 1, and a comma ends every line but the last.
pub proof fn ranking_written(entries: Seq<Entry>, lines: Seq<Seq<char>>)
    requires
        lines.len() == entries.len(),
        forall|k: int|
            0 <= k < entries.len() ==> #[trigger] lines[k] == "  {\"rank\":"@ + decimal(
                (k + 1) as nat,
            ) + ",\"hand\":\""@ + hand_text(entries[k].hand@) + "\",\"cards\":["@ + (decimal(
                entries[k].hand[0] as nat,
            ) + ","@ + decimal(entries[k].hand[1] as nat) + ","@ + decimal(
                entries[k].hand[2] as nat,
            )) + "],\"suitType\":\""@ + suit_type_text(entries[k].hand@) + "\",\"combos\":"@
                + decimal(entries[k].combos as nat) + ",\"equity\":"@ + entries[k].equity@
                + ",\"topPercent\":"@ + entries[k].top_percent@ + "}"@ + (if k + 1
                == entries.len() {
                "\n"@
            } else {
                ",\n"@
            }),
    ensures
        ranking_text(entries) == "[\n"@ + lines.flatten() + "]\n"@,
{
    let n = entries.len() as int;
    assert forall|k: int| 0 <= k < n implies #[trigger] lines[k] == entry_text(
        entries[k],
        (k + 1) as nat,
    ) + (if k + 1 == entries.len() {
        "\n"@
    } else {
        ",\n"@
    }) by {}
    entries_flat(entries, lines, n);
    assert(lines.take(n) =~= lines);
    lines.lemma_flatten_and_flatten_alt_are_equivalent();
}

} // verus!
