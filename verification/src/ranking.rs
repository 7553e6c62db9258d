//! The hands in order of strength, and the text that lists them.
use crate::classes::is_representatives;
use crate::decimal::{decimal, push_decimal};
use crate::names::{hand_str, hand_text, suit_type, suit_type_text};
use crate::progress::same_hand;
use crate::representatives::{representatives_count, total_combos};
use crate::results::{recorded_result, results, results_in, Recorded};
use vstd::prelude::*;
use vstd::seq_lib::{to_multiset_build, to_multiset_insert};

verus! {

/// A finished hand.
#[derive(Clone, Copy, PartialEq, Eq, Debug)]
pub struct Row {
    /// The hand.
    pub hand: [u8; 3],
    /// The number of hands in its class.
    pub combos: u32,
    /// Orders hands by equity: a higher equity has a higher key, an equal one the same.
    pub key: i64,
    /// Where the caller keeps the equity itself.
    pub source: usize,
}

impl View for Row {
    type V = (Seq<u8>, int, i64, int);

    open spec fn view(&self) -> (Seq<u8>, int, i64, int) {
        (self.hand@, self.combos as int, self.key, self.source as int)
    }
}

/// Some rows, field by field.
pub open spec fn fields_of(rows: Seq<Row>) -> Seq<(Seq<u8>, int, i64, int)> {
    Seq::new(rows.len(), |i: int| rows[i]@)
}

/// The rows of the results that have a key, numbered from 0.
pub open spec fn keyed(
    list: Seq<(Seq<u8>, int, Seq<char>)>,
    keys: Seq<Option<i64>>,
) -> Seq<(Seq<u8>, int, i64, int)>
    decreases list.len(),
{
    if list.len() == 0 {
        Seq::empty()
    } else {
        let before = keyed(list.drop_last(), keys.drop_last());
        match keys.last() {
            Some(k) => before.push((list.last().0, list.last().1, k, before.len() as int)),
            None => before,
        }
    }
}

/// The keys of some results, where `key` gives the key of an equity's text if it is a number.
pub open spec fn keys_of(
    list: Seq<(Seq<u8>, int, Seq<char>)>,
    key: spec_fn(Seq<char>) -> Option<i64>,
) -> Seq<Option<i64>> {
    Seq::new(list.len(), |i: int| key(list[i].2))
}

/// The rows that the lines of a file give, where `key` gives the key of an equity's text if it is
/// a number.
pub open spec fn rows_in(
    lines: Seq<Seq<char>>,
    key: spec_fn(Seq<char>) -> Option<i64>,
) -> Seq<(Seq<u8>, int, i64, int)> {
    keyed(results_in(lines), keys_of(results_in(lines), key))
}

/// Says of a line whether it records a result whose equity is a number.
pub open spec fn well_formed(key: spec_fn(Seq<char>) -> Option<i64>) -> spec_fn(Seq<char>) -> bool {
    |line: Seq<char>|
        match recorded_result(line) {
            Some(r) => key(r.2) is Some,
            None => false,
        }
}

/// Whether some row is about the hand `h`.
pub open spec fn has_row(table: Seq<Row>, h: Seq<u8>) -> bool {
    exists|i: int| 0 <= i < table.len() && (#[trigger] table[i]).hand@ == h
}

/// The place of the first row about the hand `h`.
pub open spec fn row_of(table: Seq<Row>, h: Seq<u8>) -> int
    decreases table.len(),
{
    if table.len() == 0 || table[0].hand@ == h {
        0
    } else {
        1 + row_of(table.drop_first(), h)
    }
}

/// The last row about each hand, in the order in which the hands first turn up.
pub open spec fn latest(rows: Seq<Row>) -> Seq<Row>
    decreases rows.len(),
{
    if rows.len() == 0 {
        Seq::empty()
    } else {
        let before = latest(rows.drop_last());
        let r = rows.last();
        if has_row(before, r.hand@) {
            before.update(row_of(before, r.hand@), r)
        } else {
            before.push(r)
        }
    }
}

/// Whether no two rows are about the same hand.
pub open spec fn one_row_each(table: Seq<Row>) -> bool {
    forall|i: int, j: int|
        0 <= i < j < table.len() ==> (#[trigger] table[i]).hand@ != (#[trigger] table[j]).hand@
}

/// Whether row `i` is the last about its hand.
pub open spec fn is_last_row(rows: Seq<Row>, i: int) -> bool {
    &&& 0 <= i < rows.len()
    &&& forall|j: int| i < j < rows.len() ==> (#[trigger] rows[j]).hand@ != rows[i].hand@
}

/// Says of a row whether it has the key `k`.
pub open spec fn has_key(k: i64) -> spec_fn(Row) -> bool {
    |r: Row| r.key == k
}

/// Whether `ranked` holds the rows of `table` by falling key, those of one key in their order.
pub open spec fn is_ranking(ranked: Seq<Row>, table: Seq<Row>) -> bool {
    &&& ranked.to_multiset() == table.to_multiset()
    &&& forall|i: int, j: int|
        0 <= i < j < ranked.len() ==> (#[trigger] ranked[i]).key >= (#[trigger] ranked[j]).key
    &&& forall|k: i64| #[trigger]
        ranked.filter(has_key(k)) == table.filter(has_key(k))
}

/// How many hands the first `n` rows stand for.
pub open spec fn combos_in(rows: Seq<Row>, n: int) -> int
    decreases n,
{
    if n <= 0 {
        0
    } else {
        combos_in(rows, n - 1) + rows[n - 1].combos
    }
}

proof fn row_of_facts(table: Seq<Row>, h: Seq<u8>)
    requires
        has_row(table, h),
    ensures
        0 <= row_of(table, h) < table.len(),
        table[row_of(table, h)].hand@ == h,
        forall|i: int| 0 <= i < row_of(table, h) ==> (#[trigger] table[i]).hand@ != h,
    decreases table.len(),
{
    if table[0].hand@ != h {
        let rest = table.drop_first();
        let i = choose|i: int| 0 <= i < table.len() && (#[trigger] table[i]).hand@ == h;
        assert(rest[i - 1].hand@ == h);
        row_of_facts(rest, h);
        assert forall|i: int| 0 <= i < row_of(table, h) implies (#[trigger] table[i]).hand@
            != h by {
            if i > 0 {
                assert(table[i] == rest[i - 1]);
            }
        }
    }
}

/// The table keeps one row about each hand: the last there is.
pub proof fn latest_is_last(rows: Seq<Row>)
    ensures
        one_row_each(latest(rows)),
        forall|r: Row| #[trigger]
            latest(rows).contains(r) <==> exists|i: int| #[trigger]
                is_last_row(rows, i) && rows[i] == r,
    decreases rows.len(),
{
    if rows.len() > 0 {
        let rest = rows.drop_last();
        let x = rows.last();
        let last = rows.len() - 1;
        latest_is_last(rest);
        let before = latest(rest);
        let now = latest(rows);
        let had = has_row(before, x.hand@);
        let k = row_of(before, x.hand@);
        if had {
            row_of_facts(before, x.hand@);
        }
        assert forall|i: int, j: int| 0 <= i < j < now.len() implies (#[trigger] now[i]).hand@ != (
        #[trigger] now[j]).hand@ by {
            if had {
                assert(before[i].hand@ == now[i].hand@);
                assert(before[j].hand@ == now[j].hand@);
            } else if j < before.len() {
                assert(before[i].hand@ != before[j].hand@);
            } else {
                assert(before[i].hand@ != x.hand@);
            }
        }
        assert forall|r: Row| #[trigger] now.contains(r) implies exists|i: int| #[trigger]
            is_last_row(rows, i) && rows[i] == r by {
            let a = choose|a: int| 0 <= a < now.len() && now[a] == r;
            if (had && a == k) || a == before.len() {
                assert(is_last_row(rows, last) && rows[last] == r);
            } else {
                assert(before[a] == r);
                assert(before.contains(r));
                let i = choose|i: int| #[trigger] is_last_row(rest, i) && rest[i] == r;
                assert forall|j: int| i < j < rows.len() implies (#[trigger] rows[j]).hand@
                    != rows[i].hand@ by {
                    if j < last {
                        assert(rest[j] == rows[j]);
                    } else if had {
                        assert(before[a].hand@ != before[k].hand@);
                    } else {
                        assert(before[a].hand@ != x.hand@);
                    }
                }
                assert(is_last_row(rows, i) && rows[i] == r);
            }
        }
        assert forall|r: Row|
            (exists|i: int| #[trigger] is_last_row(rows, i) && rows[i] == r) implies #[trigger]
            now.contains(r) by {
            let i = choose|i: int| #[trigger] is_last_row(rows, i) && rows[i] == r;
            if i == last {
                if had {
                    assert(now[k] == r);
                } else {
                    assert(now[before.len() as int] == r);
                }
            } else {
                assert forall|j: int| i < j < rest.len() implies (#[trigger] rest[j]).hand@
                    != rest[i].hand@ by {
                    assert(rows[j] == rest[j]);
                }
                assert(is_last_row(rest, i) && rest[i] == r);
                assert(before.contains(r));
                let a = choose|a: int| 0 <= a < before.len() && before[a] == r;
                assert(rows[last].hand@ != rows[i].hand@);
                assert(now[a] == r);
            }
        }
    }
}

proof fn rows_of_filtered(lines: Seq<Seq<char>>, key: spec_fn(Seq<char>) -> Option<i64>)
    ensures
        rows_in(lines.filter(well_formed(key)), key) == rows_in(lines, key),
    decreases lines.len(),
{
    reveal(Seq::filter);
    if lines.len() > 0 {
        let rest = lines.drop_last();
        rows_of_filtered(rest, key);
        rows_step(lines, key);
        if well_formed(key)(lines.last()) {
            let kept = rest.filter(well_formed(key));
            assert(kept.push(lines.last()).drop_last() =~= kept);
            rows_step(kept.push(lines.last()), key);
        }
    }
}

/// What the last line adds to the rows.
proof fn rows_step(lines: Seq<Seq<char>>, key: spec_fn(Seq<char>) -> Option<i64>)
    requires
        lines.len() > 0,
    ensures
        ({
            let before = rows_in(lines.drop_last(), key);
            rows_in(lines, key) == match recorded_result(lines.last()) {
                Some(r) => match key(r.2) {
                    Some(k) => before.push((r.0, r.1, k, before.len() as int)),
                    None => before,
                },
                None => before,
            }
        }),
{
    let list = results_in(lines);
    let before = results_in(lines.drop_last());
    if recorded_result(lines.last()) is Some {
        assert(list.drop_last() =~= before);
        assert(keys_of(list, key).drop_last() =~= keys_of(before, key));
    }
}

/// The fields of a row determine it.
proof fn same_rows(a: Seq<Row>, b: Seq<Row>)
    requires
        fields_of(a) == fields_of(b),
    ensures
        a == b,
{
    assert(a.len() == fields_of(a).len() && b.len() == fields_of(b).len());
    assert forall|i: int| 0 <= i < a.len() implies a[i] == b[i] by {
        assert(fields_of(a)[i] == fields_of(b)[i]);
        assert(a[i].hand =~= b[i].hand);
    }
    assert(a =~= b);
}

/// Files that differ only in malformed lines give the same rows, and so the same ranking or none
/// alike: lines that record no result or whose equity is no number are passed over.
pub proof fn malformed_lines_unranked(
    key: spec_fn(Seq<char>) -> Option<i64>,
    a: Seq<Seq<char>>,
    b: Seq<Seq<char>>,
    rows: Seq<Row>,
    others: Seq<Row>,
)
    requires
        a.filter(well_formed(key)) == b.filter(well_formed(key)),
        fields_of(rows) == rows_in(a, key),
        fields_of(others) == rows_in(b, key),
    ensures
        rows == others,
        latest(rows).len() == latest(others).len(),
        forall|x: Seq<Row>, y: Seq<Row>| #[trigger]
            is_ranking(x, latest(rows)) && #[trigger] is_ranking(y, latest(others)) ==> x == y,
{
    rows_of_filtered(a, key);
    rows_of_filtered(b, key);
    same_rows(rows, others);
    assert forall|x: Seq<Row>, y: Seq<Row>| #[trigger] is_ranking(x, latest(rows)) && #[trigger]
        is_ranking(y, latest(others)) implies x == y by {
        ranking_unique(x, y, latest(rows));
    }
}

/// A table has one ranking.
pub proof fn ranking_unique(x: Seq<Row>, y: Seq<Row>, table: Seq<Row>)
    requires
        is_ranking(x, table),
        is_ranking(y, table),
    ensures
        x == y,
{
    x.to_multiset_ensures();
    y.to_multiset_ensures();
    assert forall|k: i64| #[trigger] x.filter(has_key(k)) == y.filter(has_key(k)) by {
        assert(y.filter(has_key(k)) == table.filter(has_key(k)));
    }
    same_order(x, y);
}

/// The first row of a list heads the rows of its key.
proof fn filter_first(x: Seq<Row>, k: i64)
    requires
        x.len() > 0,
    ensures
        x.filter(has_key(k)) == (if x[0].key == k {
            seq![x[0]]
        } else {
            seq![]
        }) + x.drop_first().filter(has_key(k)),
{
    let rest = x.drop_first();
    assert(x =~= seq![x[0]] + rest);
    Seq::filter_distributes_over_add(seq![x[0]], rest, has_key(k));
    reveal(Seq::filter);
    let one = seq![x[0]];
    let none = one.drop_last();
    assert(none =~= Seq::empty());
    assert(none.filter(has_key(k)) =~= Seq::empty());
    assert(none.push(x[0]) =~= one);
}

proof fn key_reached(x: Seq<Row>, y: Seq<Row>)
    requires
        x.len() > 0,
        y.len() > 0,
        forall|i: int, j: int|
            0 <= i < j < y.len() ==> (#[trigger] y[i]).key >= (#[trigger] y[j]).key,
        forall|k: i64| #[trigger] x.filter(has_key(k)) == y.filter(has_key(k)),
    ensures
        y[0].key >= x[0].key,
{
    let k = x[0].key;
    filter_first(x, k);
    assert(x.filter(has_key(k)).len() > 0);
    assert(y.filter(has_key(k)).len() > 0);
    if forall|i: int| 0 <= i < y.len() ==> !has_key(k)(#[trigger] y[i]) {
        filter_none(y, has_key(k));
    }
}

proof fn same_order(x: Seq<Row>, y: Seq<Row>)
    requires
        x.len() == y.len(),
        forall|i: int, j: int|
            0 <= i < j < x.len() ==> (#[trigger] x[i]).key >= (#[trigger] x[j]).key,
        forall|i: int, j: int|
            0 <= i < j < y.len() ==> (#[trigger] y[i]).key >= (#[trigger] y[j]).key,
        forall|k: i64| #[trigger] x.filter(has_key(k)) == y.filter(has_key(k)),
    ensures
        x == y,
    decreases x.len(),
{
    if x.len() > 0 {
        assert forall|k: i64| #[trigger] y.filter(has_key(k)) == x.filter(has_key(k)) by {
            assert(x.filter(has_key(k)) == y.filter(has_key(k)));
        }
        key_reached(x, y);
        key_reached(y, x);
        let (v, w) = (x.drop_first(), y.drop_first());
        let k0 = x[0].key;
        filter_first(x, k0);
        filter_first(y, k0);
        assert(x.filter(has_key(k0))[0] == y.filter(has_key(k0))[0]);
        assert(x[0] == y[0]);
        assert forall|k: i64| #[trigger] v.filter(has_key(k)) == w.filter(has_key(k)) by {
            filter_first(x, k);
            filter_first(y, k);
            assert(x.filter(has_key(k)) == y.filter(has_key(k)));
            let n: int = if k0 == k {
                1
            } else {
                0
            };
            assert(v.filter(has_key(k)) =~= x.filter(has_key(k)).skip(n));
            assert(w.filter(has_key(k)) =~= y.filter(has_key(k)).skip(n));
        }
        same_order(v, w);
        assert(x =~= seq![x[0]] + v);
        assert(y =~= seq![y[0]] + w);
    } else {
        assert(x =~= y);
    }
}

/// Makes rows of the results that have a key; a row's source is its place among them.
pub fn keyed_rows(list: &[Recorded], keys: &[Option<i64>]) -> (rows: Vec<Row>)
    requires
        list@.len() == keys@.len(),
    ensures
        fields_of(rows@) == keyed(results(list@), keys@),
        exists|at: Seq<int>|
            #![trigger at.len()]
            {
                &&& at.len() == rows@.len()
                &&& forall|j: int, k: int| 0 <= j < k < at.len() ==> at[j] < at[k]
                &&& forall|i: int|
                    0 <= i < keys@.len() ==> (#[trigger] keys@[i] is Some <==> at.contains(i))
                &&& forall|j: int|
                    0 <= j < at.len() ==> 0 <= #[trigger] at[j] < keys@.len() && keys@[at[j]] == Some(
                        rows@[j].key,
                    ) && rows@[j].hand == list@[at[j]].hand && rows@[j].combos
                        == list@[at[j]].combos && rows@[j].source == j
            },
{
    let mut rows: Vec<Row> = Vec::new();
    let ghost all = results(list@);
    let ghost mut at: Seq<int> = Seq::empty();
    let mut i: usize = 0;
    assert(fields_of(rows@) =~= Seq::empty());
    while i < list.len()
        invariant
            i <= list@.len() == keys@.len(),
            rows@.len() <= i,
            all == results(list@),
            fields_of(rows@) == keyed(all.take(i as int), keys@.take(i as int)),
            at.len() == rows@.len(),
            forall|j: int, k: int| 0 <= j < k < at.len() ==> at[j] < at[k],
            forall|k: int| 0 <= k < i ==> (#[trigger] keys@[k] is Some <==> at.contains(k)),
            forall|j: int|
                0 <= j < at.len() ==> 0 <= #[trigger] at[j] < i && keys@[at[j]] == Some(
                    rows@[j].key,
                ) && rows@[j].hand == list@[at[j]].hand && rows@[j].combos == list@[at[j]].combos
                    && rows@[j].source == j,
        decreases list@.len() - i,
    {
        let ghost known = at;
        proof {
            assert(all.take(i + 1).drop_last() =~= all.take(i as int));
            assert(keys@.take(i + 1).drop_last() =~= keys@.take(i as int));
            assert(all.take(i + 1).last() == list@[i as int]@);
        }
        if let Some(key) = keys[i] {
            let ghost before = fields_of(rows@);
            let r = Row { hand: list[i].hand, combos: list[i].combos, key, source: rows.len() };
            rows.push(r);
            assert(fields_of(rows@) =~= before.push(r@));
            proof {
                at = at.push(i as int);
                assert(at[known.len() as int] == i);
            }
        }
        proof {
            assert forall|k: int| 0 <= k < i + 1 implies (#[trigger] keys@[k] is Some
                <==> at.contains(k)) by {
                if k < i && known.contains(k) {
                    let j = choose|j: int| 0 <= j < known.len() && known[j] == k;
                    assert(at[j] == k);
                }
                if at.contains(k) {
                    let j = choose|j: int| 0 <= j < at.len() && at[j] == k;
                    if j < known.len() {
                        assert(known[j] == k);
                    }
                }
            }
        }
        i = i + 1;
    }
    assert(at.len() == rows@.len());
    assert(all.take(i as int) =~= all);
    assert(keys@.take(i as int) =~= keys@);
    rows
}

/// Keeps the last row about each hand.
pub fn latest_rows(rows: &[Row]) -> (table: Vec<Row>)
    ensures
        table@ == latest(rows@),
        forall|i: int, j: int|
            0 <= i < j < table@.len() ==> (#[trigger] table@[i]).hand@ != (#[trigger] table@[j]).hand@,
        forall|r: Row| #[trigger]
            table@.contains(r) <==> exists|i: int|
                0 <= i < rows@.len() && #[trigger] rows@[i] == r && forall|j: int|
                    i < j < rows@.len() ==> (#[trigger] rows@[j]).hand@ != r.hand@,
{
    let mut table: Vec<Row> = Vec::new();
    let mut i: usize = 0;
    assert(rows@.take(0) =~= Seq::empty());
    while i < rows.len()
        invariant
            i <= rows@.len(),
            table@ == latest(rows@.take(i as int)),
        decreases rows@.len() - i,
    {
        proof {
            let now = rows@.take(i + 1);
            assert(now.drop_last() =~= rows@.take(i as int));
            assert(now.last() == rows@[i as int]);
        }
        let r: Row = rows[i];
        let at: usize = find_row(table.as_slice(), &r.hand);
        if at < table.len() {
            table.set(at, r);
        } else {
            table.push(r);
        }
        i = i + 1;
    }
    assert(rows@.take(i as int) =~= rows@);
    proof {
        latest_rows_last(rows@);
    }
    table
}

/// The table of a list keeps, of the rows about a hand, the last.
proof fn latest_rows_last(rows: Seq<Row>)
    ensures
        forall|i: int, j: int|
            0 <= i < j < latest(rows).len() ==> (#[trigger] latest(rows)[i]).hand@ != (
            #[trigger] latest(rows)[j]).hand@,
        forall|r: Row| #[trigger]
            latest(rows).contains(r) <==> exists|i: int|
                0 <= i < rows.len() && #[trigger] rows[i] == r && forall|j: int|
                    i < j < rows.len() ==> (#[trigger] rows[j]).hand@ != r.hand@,
{
    latest_is_last(rows);
    assert forall|r: Row| #[trigger] latest(rows).contains(r) <==> exists|i: int|
        0 <= i < rows.len() && #[trigger] rows[i] == r && forall|j: int|
            i < j < rows.len() ==> (#[trigger] rows[j]).hand@ != r.hand@ by {
        if latest(rows).contains(r) {
            let i = choose|i: int| #[trigger] is_last_row(rows, i) && rows[i] == r;
            assert(0 <= i < rows.len() && rows[i] == r && forall|j: int|
                i < j < rows.len() ==> (#[trigger] rows[j]).hand@ != r.hand@);
        }
        if exists|i: int|
            0 <= i < rows.len() && #[trigger] rows[i] == r && forall|j: int|
                i < j < rows.len() ==> (#[trigger] rows[j]).hand@ != r.hand@ {
            let i = choose|i: int|
                0 <= i < rows.len() && #[trigger] rows[i] == r && forall|j: int|
                    i < j < rows.len() ==> (#[trigger] rows[j]).hand@ != r.hand@;
            assert(is_last_row(rows, i) && rows[i] == r);
        }
    }
}

/// A table has a row for each different hand of its rows.
pub proof fn latest_len(rows: Seq<Row>)
    ensures
        latest(rows).len() == Set::new(
            |h: Seq<u8>| exists|i: int| 0 <= i < rows.len() && (#[trigger] rows[i]).hand@ == h,
        ).len(),
{
    let table = latest(rows);
    latest_rows_last(rows);
    let all = Set::new(
        |h: Seq<u8>| exists|i: int| 0 <= i < rows.len() && (#[trigger] rows[i]).hand@ == h,
    );
    let own = Seq::new(table.len(), |i: int| table[i].hand@);
    assert(own.no_duplicates()) by {
        assert forall|i: int, j: int| 0 <= i < j < own.len() implies own[i] != own[j] by {
            assert(table[i].hand@ != table[j].hand@);
        }
    }
    own.unique_seq_to_set();
    assert forall|h: Seq<u8>| own.to_set().contains(h) <==> all.contains(h) by {
        if own.contains(h) {
            let k = choose|k: int| 0 <= k < own.len() && own[k] == h;
            assert(table.contains(table[k]));
            let i = choose|i: int|
                0 <= i < rows.len() && #[trigger] rows[i] == table[k] && forall|j: int|
                    i < j < rows.len() ==> (#[trigger] rows[j]).hand@ != table[k].hand@;
            assert(rows[i].hand@ == h);
        }
        if all.contains(h) {
            let i = choose|i: int| 0 <= i < rows.len() && (#[trigger] rows[i]).hand@ == h;
            let l = last_about(rows, h, i);
            assert(table.contains(rows[l]));
            let k = choose|k: int| 0 <= k < table.len() && table[k] == rows[l];
            assert(own[k] == h);
        }
    }
    assert(own.to_set() =~= all);
}

/// The last row about a hand that some row is about.
proof fn last_about(rows: Seq<Row>, h: Seq<u8>, i: int) -> (l: int)
    requires
        0 <= i < rows.len(),
        rows[i].hand@ == h,
    ensures
        i <= l < rows.len(),
        rows[l].hand@ == h,
        forall|j: int| l < j < rows.len() ==> (#[trigger] rows[j]).hand@ != h,
    decreases rows.len() - i,
{
    if exists|j: int| i < j < rows.len() && (#[trigger] rows[j]).hand@ == h {
        let j = choose|j: int| i < j < rows.len() && (#[trigger] rows[j]).hand@ == h;
        last_about(rows, h, j)
    } else {
        i
    }
}

/// The place of the first row about a hand, or the number of rows where there is none.
fn find_row(table: &[Row], h: &[u8; 3]) -> (at: usize)
    ensures
        has_row(table@, h@) ==> at == row_of(table@, h@) && at < table@.len(),
        !has_row(table@, h@) ==> at == table@.len(),
{
    let mut i: usize = 0;
    while i < table.len()
        invariant
            i <= table@.len(),
            forall|j: int| 0 <= j < i ==> (#[trigger] table@[j]).hand@ != h@,
        decreases table@.len() - i,
    {
        if same_hand(&table[i].hand, h) {
            proof {
                assert(table@[i as int].hand@ == h@);
                row_of_facts(table@, h@);
            }
            return i;
        }
        i = i + 1;
    }
    i
}

proof fn filter_none(s: Seq<Row>, p: spec_fn(Row) -> bool)
    requires
        forall|i: int| 0 <= i < s.len() ==> !p(#[trigger] s[i]),
    ensures
        s.filter(p) == Seq::<Row>::empty(),
    decreases s.len(),
{
    reveal(Seq::filter);
    if s.len() > 0 {
        assert(!p(s[s.len() - 1]));
        let t = s.drop_last();
        assert forall|i: int| 0 <= i < t.len() implies !p(#[trigger] t[i]) by {
            assert(!p(s[i]));
        }
        filter_none(t, p);
    }
}

/// Putting a row behind all rows of its key or a higher one keeps the order.
proof fn ranking_insert(ranked: Seq<Row>, table: Seq<Row>, x: Row, at: int)
    requires
        is_ranking(ranked, table),
        0 <= at <= ranked.len(),
        forall|i: int| 0 <= i < at ==> (#[trigger] ranked[i]).key >= x.key,
        forall|i: int| at <= i < ranked.len() ==> (#[trigger] ranked[i]).key < x.key,
    ensures
        is_ranking(ranked.insert(at, x), table.push(x)),
{
    let now = ranked.insert(at, x);
    let (a, b) = (ranked.take(at), ranked.skip(at));
    assert(ranked =~= a + b);
    assert(now =~= a + seq![x] + b);
    to_multiset_insert(ranked, at, x);
    to_multiset_build(table, x);
    assert forall|k: i64| #[trigger] now.filter(has_key(k)) == table.push(x).filter(
        has_key(k),
    ) by {
        let p = has_key(k);
        assert(ranked.filter(p) == table.filter(p));
        Seq::filter_distributes_over_add(a, b, p);
        Seq::filter_distributes_over_add(a + seq![x], b, p);
        Seq::filter_distributes_over_add(a, seq![x], p);
        Seq::filter_distributes_over_add(table, seq![x], p);
        assert(table.push(x) =~= table + seq![x]);
        if k == x.key {
            assert forall|i: int| 0 <= i < b.len() implies !p(#[trigger] b[i]) by {
                assert(ranked[at + i].key < x.key);
            }
            filter_none(b, p);
            assert(now.filter(p) =~= table.push(x).filter(p));
        } else {
            filter_none(seq![x], p);
            assert(now.filter(p) =~= table.push(x).filter(p));
        }
    }
    assert forall|i: int, j: int| 0 <= i < j < now.len() implies (#[trigger] now[i]).key >= (
    #[trigger] now[j]).key by {
        let u = if i < at {
            i
        } else {
            i - 1
        };
        let v = if j < at {
            j
        } else {
            j - 1
        };
        if i != at {
            assert(now[i] == ranked[u]);
        }
        if j != at {
            assert(now[j] == ranked[v]);
        }
    }
}

/// The rows of a table by falling key; rows of one key stay in their order.
fn by_key(table: &[Row]) -> (ranked: Vec<Row>)
    ensures
        is_ranking(ranked@, table@),
{
    let mut ranked: Vec<Row> = Vec::new();
    let mut i: usize = 0;
    assert(table@.take(0) =~= ranked@);
    while i < table.len()
        invariant
            i <= table@.len(),
            ranked@.len() == i,
            is_ranking(ranked@, table@.take(i as int)),
        decreases table@.len() - i,
    {
        let x: Row = table[i];
        let mut at: usize = ranked.len();
        while at > 0 && ranked[at - 1].key < x.key
            invariant
                at <= ranked@.len(),
                forall|j: int| at <= j < ranked@.len() ==> (#[trigger] ranked@[j]).key < x.key,
            decreases at,
        {
            at = at - 1;
        }
        proof {
            let known = table@.take(i as int);
            ranking_insert(ranked@, known, x, at as int);
            assert(table@.take(i + 1) =~= known.push(x));
        }
        ranked.insert(at, x);
        i = i + 1;
    }
    assert(table@.take(i as int) =~= table@);
    ranked
}

/// Ranks the hands, strongest first, once there is a row about each of `classes` hands; until
/// then it says how many hands there are rows about.
pub fn rank_results(rows: &[Row], classes: usize) -> (r: Result<Vec<Row>, usize>)
    ensures
        match r {
            Ok(ranked) => latest(rows@).len() == classes && is_ranking(ranked@, latest(rows@)),
            Err(found) => latest(rows@).len() == found && found != classes,
        },
        r matches Ok(ranked) ==> {
            &&& ranked@.len() == classes
            &&& forall|i: int, j: int|
                0 <= i < j < ranked@.len() ==> (#[trigger] ranked@[i]).key >= (
                #[trigger] ranked@[j]).key
            &&& forall|x: Row| #[trigger]
                ranked@.contains(x) <==> exists|i: int|
                    0 <= i < rows@.len() && #[trigger] rows@[i] == x && forall|j: int|
                        i < j < rows@.len() ==> (#[trigger] rows@[j]).hand@ != x.hand@
        },
{
    proof {
        latest_rows_last(rows@);
        assert forall|x: Seq<Row>| #[trigger] is_ranking(x, latest(rows@)) implies x.len()
            == latest(rows@).len() && forall|y: Row| #[trigger]
            x.contains(y) <==> latest(rows@).contains(y) by {
            let t = latest(rows@);
            x.to_multiset_ensures();
            t.to_multiset_ensures();
            assert forall|y: Row| #[trigger] x.contains(y) <==> t.contains(y) by {
                assert(x.contains(y) <==> x.to_multiset().count(y) > 0);
                assert(t.contains(y) <==> t.to_multiset().count(y) > 0);
            }
        }
    }
    let table: Vec<Row> = latest_rows(rows);
    if table.len() != classes {
        Err(table.len())
    } else {
        Ok(by_key(table.as_slice()))
    }
}

/// Leaving a row out takes its hands off the count.
proof fn combos_without(rows: Seq<Row>, i: int, n: int)
    requires
        0 <= i < rows.len(),
        0 <= n <= rows.len(),
    ensures
        combos_in(rows, n) == (if n <= i {
            combos_in(rows.remove(i), n)
        } else {
            combos_in(rows.remove(i), n - 1) + rows[i].combos
        }),
    decreases n,
{
    if n > 0 {
        combos_without(rows, i, n - 1);
    }
}

proof fn combos_prefix(rows: Seq<Row>, n: int)
    requires
        0 <= n < rows.len(),
    ensures
        combos_in(rows.drop_last(), n) == combos_in(rows, n),
    decreases n,
{
    if n > 0 {
        combos_prefix(rows, n - 1);
    }
}

proof fn combos_same(a: Seq<Row>, b: Seq<Row>)
    requires
        a.to_multiset() == b.to_multiset(),
    ensures
        a.len() == b.len(),
        combos_in(a, a.len() as int) == combos_in(b, b.len() as int),
    decreases a.len(),
{
    a.to_multiset_ensures();
    b.to_multiset_ensures();
    if a.len() > 0 {
        let l = a.len() - 1;
        let r = a.last();
        assert(a.contains(a[l]));
        assert(a.to_multiset().count(r) > 0);
        assert(b.contains(r));
        let i = choose|i: int| 0 <= i < b.len() && b[i] == r;
        assert(a.drop_last() =~= a.remove(l));
        assert(a.remove(l).to_multiset() =~= b.remove(i).to_multiset());
        combos_same(a.drop_last(), b.remove(i));
        combos_prefix(a, l);
        combos_without(b, i, b.len() as int);
    }
}

/// The hands that a ranking stands for are those of its table, however it is ordered.
pub proof fn ranking_combos(ranked: Seq<Row>, table: Seq<Row>)
    requires
        is_ranking(ranked, table),
    ensures
        ranked.len() == table.len(),
        combos_in(ranked, ranked.len() as int) == combos_in(table, table.len() as int),
{
    combos_same(ranked, table);
}

/// Whether an entry of `reps` holds the hand of a row with the same number of hands.
pub open spec fn counts_class(reps: Seq<([u8; 3], u32)>, r: Row) -> bool {
    exists|i: int|
        0 <= i < reps.len() && (#[trigger] reps[i]).0@ == r.hand@ && reps[i].1 == r.combos
}

proof fn total_without(reps: Seq<([u8; 3], u32)>, i: int)
    requires
        0 <= i < reps.len(),
    ensures
        total_combos(reps) == total_combos(reps.remove(i)) + reps[i].1,
    decreases reps.len(),
{
    let l = reps.len() - 1;
    if i == l {
        assert(reps.remove(i) =~= reps.drop_last());
    } else {
        total_without(reps.drop_last(), i);
        assert(reps.drop_last().remove(i) =~= reps.remove(i).drop_last());
        assert(reps.remove(i).last() == reps.last());
    }
}

proof fn combos_of_classes(reps: Seq<([u8; 3], u32)>, table: Seq<Row>)
    requires
        one_row_each(table),
        table.len() == reps.len(),
        forall|i: int| 0 <= i < table.len() ==> counts_class(reps, #[trigger] table[i]),
    ensures
        combos_in(table, table.len() as int) == total_combos(reps),
    decreases table.len(),
{
    if table.len() > 0 {
        let l = table.len() - 1;
        let rest = table.drop_last();
        let r = table[l];
        assert(counts_class(reps, r));
        let k = choose|i: int|
            0 <= i < reps.len() && (#[trigger] reps[i]).0@ == r.hand@ && reps[i].1 == r.combos;
        let fewer = reps.remove(k);
        assert forall|i: int| 0 <= i < rest.len() implies counts_class(
            fewer,
            #[trigger] rest[i],
        ) by {
            assert(counts_class(reps, table[i]));
            let j = choose|j: int|
                0 <= j < reps.len() && (#[trigger] reps[j]).0@ == table[i].hand@ && reps[j].1
                    == table[i].combos;
            assert(table[i].hand@ != table[l].hand@);
            if j < k {
                assert(fewer[j] == reps[j]);
            } else {
                assert(fewer[j - 1] == reps[j]);
            }
        }
        combos_of_classes(fewer, rest);
        combos_prefix(table, l);
        total_without(reps, k);
    }
}

/// Once every class has its row, the last hand of a ranking closes the count at all 22100 hands.
pub proof fn ranking_counts_all(
    reps: Seq<([u8; 3], u32)>,
    rows: Seq<Row>,
    ranked: Seq<Row>,
)
    requires
        is_representatives(reps),
        latest(rows).len() == reps.len(),
        forall|i: int|
            0 <= i < latest(rows).len() ==> counts_class(reps, #[trigger] latest(rows)[i]),
        is_ranking(ranked, latest(rows)),
    ensures
        combos_in(ranked, ranked.len() as int) == 22100,
{
    let table = latest(rows);
    latest_is_last(rows);
    combos_of_classes(reps, table);
    representatives_count(reps);
    ranking_combos(ranked, table);
}

proof fn combos_bounded(rows: Seq<Row>, n: int)
    requires
        0 <= n,
    ensures
        0 <= combos_in(rows, n) <= n * u32::MAX,
    decreases n,
{
    if n > 0 {
        combos_bounded(rows, n - 1);
        assert((n - 1) * u32::MAX + u32::MAX == n * u32::MAX) by (nonlinear_arith);
    }
}

/// For each row, how many hands it and the rows before it stand for.
pub fn running_combos(rows: &[Row]) -> (sums: Vec<u64>)
    requires
        rows@.len() <= u32::MAX,
    ensures
        sums@.len() == rows@.len(),
        forall|i: int| 0 <= i < rows@.len() ==> #[trigger] sums@[i] == combos_in(rows@, i + 1),
        rows@.len() > 0 ==> sums@[0] == rows@[0].combos,
        forall|i: int|
            1 <= i < rows@.len() ==> #[trigger] sums@[i] == sums@[i - 1] + rows@[i].combos,
{
    let mut sums: Vec<u64> = Vec::new();
    let mut sum: u64 = 0;
    let mut i: usize = 0;
    while i < rows.len()
        invariant
            i <= rows@.len() <= u32::MAX,
            sums@.len() == i,
            sum == combos_in(rows@, i as int),
            forall|j: int| 0 <= j < i ==> #[trigger] sums@[j] == combos_in(rows@, j + 1),
            i > 0 ==> sum == sums@[i - 1] && sums@[0] == rows@[0].combos,
            i == 0 ==> sum == 0,
            forall|j: int| 1 <= j < i ==> #[trigger] sums@[j] == sums@[j - 1] + rows@[j].combos,
        decreases rows@.len() - i,
    {
        proof {
            combos_bounded(rows@, i + 1);
            assert((i + 1) * u32::MAX <= u32::MAX * u32::MAX) by (nonlinear_arith)
                requires
                    i + 1 <= u32::MAX,
            ;
        }
        sum = sum + rows[i].combos as u64;
        sums.push(sum);
        i = i + 1;
    }
    sums
}

/// A hand as the ranking lists it.
pub struct Entry {
    /// The hand.
    pub hand: [u8; 3],
    /// The number of hands in its class.
    pub combos: u32,
    /// The text of its equity.
    pub equity: String,
    /// The text of the share of all hands that are no weaker, in percent.
    pub top_percent: String,
}

/// The cards of a hand, between commas.
pub open spec fn cards_text(h: Seq<u8>) -> Seq<char> {
    decimal(h[0] as nat) + ","@ + decimal(h[1] as nat) + ","@ + decimal(h[2] as nat)
}

/// The line of a hand, without the comma that separates it from the next.
pub open spec fn line_text(
    rank: nat,
    h: Seq<u8>,
    combos: nat,
    equity: Seq<char>,
    top_percent: Seq<char>,
) -> Seq<char> {
    "  {\"rank\":"@ + decimal(rank) + ",\"hand\":\""@ + hand_text(h) + "\",\"cards\":["@
        + cards_text(h) + "],\"suitType\":\""@ + suit_type_text(h) + "\",\"combos\":"@ + decimal(
        combos,
    ) + ",\"equity\":"@ + equity + ",\"topPercent\":"@ + top_percent + "}"@
}

/// The line of an entry.
pub open spec fn entry_text(e: Entry, rank: nat) -> Seq<char> {
    line_text(rank, e.hand@, e.combos as nat, e.equity@, e.top_percent@)
}

/// The lines of the first `n` entries.
pub open spec fn entries_text(entries: Seq<Entry>, n: int) -> Seq<char>
    decreases n,
{
    if n <= 0 {
        Seq::empty()
    } else {
        entries_text(entries, n - 1) + entry_text(entries[n - 1], n as nat) + (if n
            == entries.len() {
            "\n"@
        } else {
            ",\n"@
        })
    }
}

/// The ranking as a JSON array with a line for each hand.
pub open spec fn ranking_text(entries: Seq<Entry>) -> Seq<char> {
    "[\n"@ + entries_text(entries, entries.len() as int) + "]\n"@
}

/// Whether the hands of the entries are cards of the deck.
pub open spec fn entries_in_deck(entries: Seq<Entry>) -> bool {
    forall|i: int|
        0 <= i < entries.len() ==> (#[trigger] entries[i]).hand[0] < 52 && entries[i].hand[1] < 52
            && entries[i].hand[2] < 52
}

/// Writes the cards of a hand.
fn cards_str(h: [u8; 3]) -> (t: String)
    ensures
        t@ == cards_text(h@),
{
    let mut t: String = String::new();
    push_decimal(&mut t, h[0] as u64);
    assert(t@ =~= decimal(h[0] as nat));
    t.append(",");
    push_decimal(&mut t, h[1] as u64);
    t.append(",");
    push_decimal(&mut t, h[2] as u64);
    t
}

/// Writes the line of an entry.
fn entry_str(e: &Entry, rank: u64) -> (t: String)
    requires
        e.hand[0] < 52,
        e.hand[1] < 52,
        e.hand[2] < 52,
    ensures
        t@ == entry_text(*e, rank as nat),
{
    let mut t: String = "  {\"rank\":".to_owned();
    push_decimal(&mut t, rank);
    t.append(",\"hand\":\"");
    t.append(hand_str(e.hand).as_str());
    t.append("\",\"cards\":[");
    t.append(cards_str(e.hand).as_str());
    t.append("],\"suitType\":\"");
    t.append(suit_type(e.hand));
    t.append("\",\"combos\":");
    push_decimal(&mut t, e.combos as u64);
    t.append(",\"equity\":");
    t.append(e.equity.as_str());
    t.append(",\"topPercent\":");
    t.append(e.top_percent.as_str());
    t.append("}");
    t
}

/// A text may be put together from either end.
proof fn text_joins(a: Seq<char>, b: Seq<char>, c: Seq<char>, d: Seq<char>)
    ensures
        a + b + c + d == a + (b + c + d),
{
    assert(a + b + c + d =~= a + (b + c + d));
}

/// Writes the ranking as a JSON array; entries are numbered from 1.
#[verifier::rlimit(40)]
pub fn ranking_json(entries: &[Entry]) -> (json: String)
    requires
        entries_in_deck(entries@),
    ensures
        json@ == ranking_text(entries@),
{
    let mut t: String = String::new();
    t.append("[\n");
    let mut i: usize = 0;
    assert(t@ =~= "[\n"@ + entries_text(entries@, 0));
    while i < entries.len()
        invariant
            i <= entries@.len(),
            entries_in_deck(entries@),
            t@ == "[\n"@ + entries_text(entries@, i as int),
        decreases entries@.len() - i,
    {
        let line: String = entry_str(&entries[i], i as u64 + 1);
        let ghost before = entries_text(entries@, i as int);
        t.append(line.as_str());
        i = i + 1;
        if i == entries.len() {
            t.append("\n");
            proof {
                text_joins("[\n"@, before, line@, "\n"@);
            }
        } else {
            t.append(",\n");
            proof {
                text_joins("[\n"@, before, line@, ",\n"@);
            }
        }
    }
    t.append("]\n");
    t
}

/// Whether entry `i` holds the hand of row `i` and the texts at place `i`.
pub open spec fn lists_rows(
    entries: Seq<Entry>,
    ranked: Seq<Row>,
    equity: Seq<String>,
    top_percent: Seq<String>,
) -> bool {
    &&& entries.len() == ranked.len()
    &&& forall|i: int|
        0 <= i < entries.len() ==> {
            &&& (#[trigger] entries[i]).hand == ranked[i].hand
            &&& entries[i].combos == ranked[i].combos
            &&& entries[i].equity@ == equity[i]@
            &&& entries[i].top_percent@ == top_percent[i]@
        }
}

/// Joins ranked rows with the texts of their equities and shares.
pub fn ranking_entries(ranked: &[Row], equity: &[String], top_percent: &[String]) -> (entries: Vec<
    Entry,
>)
    requires
        ranked@.len() == equity@.len(),
        ranked@.len() == top_percent@.len(),
    ensures
        lists_rows(entries@, ranked@, equity@, top_percent@),
        entries@.len() == ranked@.len(),
        forall|i: int|
            0 <= i < ranked@.len() ==> {
                &&& (#[trigger] entries@[i]).hand == ranked@[i].hand
                &&& entries@[i].combos == ranked@[i].combos
                &&& entries@[i].equity@ == equity@[i]@
                &&& entries@[i].top_percent@ == top_percent@[i]@
            },
{
    let mut entries: Vec<Entry> = Vec::new();
    let mut i: usize = 0;
    while i < ranked.len()
        invariant
            i <= ranked@.len(),
            ranked@.len() == equity@.len(),
            ranked@.len() == top_percent@.len(),
            entries@.len() == i,
            forall|j: int|
                0 <= j < i ==> {
                    &&& (#[trigger] entries@[j]).hand == ranked@[j].hand
                    &&& entries@[j].combos == ranked@[j].combos
                    &&& entries@[j].equity@ == equity@[j]@
                    &&& entries@[j].top_percent@ == top_percent@[j]@
                },
        decreases ranked@.len() - i,
    {
        entries.push(
            Entry {
                hand: ranked[i].hand,
                combos: ranked[i].combos,
                equity: equity[i].as_str().to_owned(),
                top_percent: top_percent[i].as_str().to_owned(),
            },
        );
        i = i + 1;
    }
    entries
}

proof fn entries_begin(entries: Seq<Entry>, n: int, m: int)
    requires
        0 <= n <= m,
    ensures
        entries_text(entries, n).is_prefix_of(entries_text(entries, m)),
    decreases m - n,
{
    let (a, b) = (entries_text(entries, n), entries_text(entries, m));
    if n < m {
        entries_begin(entries, n, m - 1);
        let c = entries_text(entries, m - 1);
        assert(a =~= c.subrange(0, a.len() as int));
        assert(a =~= b.subrange(0, a.len() as int));
    } else {
        assert(a =~= b.subrange(0, a.len() as int));
    }
}

/// The line of rank `k + 1` is that of the row ranked `k`-th from 0, with the texts given for it:
/// it follows the lines of the stronger hands, and ends with a comma unless it is the last.
pub proof fn ranked_line(
    entries: Seq<Entry>,
    ranked: Seq<Row>,
    equity: Seq<String>,
    top_percent: Seq<String>,
    k: int,
)
    requires
        lists_rows(entries, ranked, equity, top_percent),
        0 <= k < ranked.len(),
    ensures
        ("[\n"@ + entries_text(entries, k) + line_text(
            (k + 1) as nat,
            ranked[k].hand@,
            ranked[k].combos as nat,
            equity[k]@,
            top_percent[k]@,
        ) + (if k + 1 == ranked.len() {
            "\n"@
        } else {
            ",\n"@
        })).is_prefix_of(ranking_text(entries)),
{
    let n = ranked.len() as int;
    let whole = ranking_text(entries);
    let part = "[\n"@ + entries_text(entries, k + 1);
    entries_begin(entries, k + 1, n);
    let (a, b) = (entries_text(entries, k + 1), entries_text(entries, n));
    assert(a =~= b.subrange(0, a.len() as int));
    assert(part =~= whole.subrange(0, part.len() as int));
    assert(entries[k].hand == ranked[k].hand);
    assert("[\n"@ + entries_text(entries, k) + entry_text(entries[k], (k + 1) as nat) + (if k + 1
        == n {
        "\n"@
    } else {
        ",\n"@
    }) =~= part);
}

} // verus!
