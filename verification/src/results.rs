//! The lines that record finished hands.
//!
//! A line holds the three cards of a hand, the number of hands in its class and its equity, with
//! commas between them.
use crate::decimal::{
    decimal, decimal_value, is_digit, number_in, number_not_negative, number_read_back,
    push_decimal, read_number,
};
use crate::parts::{joined, parts, parts_join};
use vstd::prelude::*;

verus! {

/// The parts of a text between its commas.
pub open spec fn fields(t: Seq<char>) -> Seq<Seq<char>>
    decreases t.len(),
{
    if t.len() == 0 {
        seq![Seq::empty()]
    } else {
        let before = fields(t.drop_last());
        if t.last() == ',' {
            before.push(Seq::empty())
        } else {
            before.drop_last().push(before.last().push(t.last()))
        }
    }
}

/// The hand that a line records: three numbers, each up to 255, in its first three fields.
pub open spec fn recorded_hand(line: Seq<char>) -> Option<Seq<u8>> {
    let p = fields(line);
    if p.len() >= 3 {
        match (number_in(p[0], 255), number_in(p[1], 255), number_in(p[2], 255)) {
            (Some(a), Some(b), Some(c)) => Some(seq![a as u8, b as u8, c as u8]),
            _ => None,
        }
    } else {
        None
    }
}

/// The hand, the number of hands in its class and the text of its equity that a line records in
/// its first five fields.
pub open spec fn recorded_result(line: Seq<char>) -> Option<(Seq<u8>, int, Seq<char>)> {
    let p = fields(line);
    if p.len() >= 5 {
        match (recorded_hand(line), number_in(p[3], u32::MAX as int)) {
            (Some(h), Some(m)) => Some((h, m, p[4])),
            _ => None,
        }
    } else {
        None
    }
}

/// The texts of some lines.
pub open spec fn texts(lines: Seq<String>) -> Seq<Seq<char>> {
    Seq::new(lines.len(), |i: int| lines[i]@)
}

/// Says of a line whether it records a result.
pub open spec fn has_result() -> spec_fn(Seq<char>) -> bool {
    |line: Seq<char>| recorded_result(line) is Some
}

/// The results that lines record, in order; lines that record none are passed over.
pub open spec fn results_in(lines: Seq<Seq<char>>) -> Seq<(Seq<u8>, int, Seq<char>)>
    decreases lines.len(),
{
    if lines.len() == 0 {
        Seq::empty()
    } else {
        let before = results_in(lines.drop_last());
        match recorded_result(lines.last()) {
            Some(r) => before.push(r),
            None => before,
        }
    }
}

/// The line that records a hand, the number of hands in its class and the text of its equity.
pub open spec fn result_text(h: Seq<u8>, m: nat, equity: Seq<char>) -> Seq<char> {
    decimal(h[0] as nat) + seq![','] + (decimal(h[1] as nat) + seq![','] + (decimal(h[2] as nat)
        + seq![','] + (decimal(m) + seq![','] + equity)))
}

/// What a line records of a hand.
pub struct Recorded {
    /// The hand.
    pub hand: [u8; 3],
    /// The number of hands in its class.
    pub combos: u32,
    /// The text of its equity.
    pub equity: String,
}

impl View for Recorded {
    type V = (Seq<u8>, int, Seq<char>);

    open spec fn view(&self) -> (Seq<u8>, int, Seq<char>) {
        (self.hand@, self.combos as int, self.equity@)
    }
}

/// Some results, as the lines record them.
pub open spec fn results(list: Seq<Recorded>) -> Seq<(Seq<u8>, int, Seq<char>)> {
    Seq::new(list.len(), |i: int| list[i]@)
}

/// There is always a field.
proof fn fields_some(t: Seq<char>)
    ensures
        fields(t).len() >= 1,
    decreases t.len(),
{
    if t.len() > 0 {
        fields_some(t.drop_last());
    }
}

/// Text without a comma is one field.
proof fn one_field(t: Seq<char>)
    requires
        !t.contains(','),
    ensures
        fields(t) == seq![t],
    decreases t.len(),
{
    if t.len() > 0 {
        let s = t.drop_last();
        assert forall|i: int| 0 <= i < s.len() implies s[i] != ',' by {
            assert(t.contains(t[i]));
        }
        one_field(s);
        assert(t.contains(t[t.len() - 1]));
        assert(s.push(t.last()) =~= t);
        assert(fields(t) =~= seq![t]);
    } else {
        assert(t =~= Seq::empty());
    }
}

/// The first field ends at the first comma.
proof fn first_field(a: Seq<char>, b: Seq<char>)
    requires
        !a.contains(','),
    ensures
        fields(a + seq![','] + b) == seq![a] + fields(b),
    decreases b.len(),
{
    let t = a + seq![','] + b;
    fields_some(b);
    if b.len() == 0 {
        assert(t.drop_last() =~= a);
        assert(t.last() == ',');
        one_field(a);
        assert(fields(t) =~= seq![a] + fields(b));
    } else {
        let c = b.drop_last();
        first_field(a, c);
        fields_some(c);
        assert(t.drop_last() =~= a + seq![','] + c);
        assert(t.last() == b.last());
        let f = seq![a] + fields(c);
        assert(f.drop_last() =~= seq![a] + fields(c).drop_last());
        assert(f.last() == fields(c).last());
        assert(fields(t) =~= seq![a] + fields(b));
    }
}

/// Digits hold no comma.
proof fn digits_no_comma(n: nat)
    ensures
        !decimal(n).contains(','),
{
    decimal_value(n);
    assert forall|i: int| 0 <= i < decimal(n).len() implies decimal(n)[i] != ',' by {
        assert(is_digit(decimal(n)[i]));
    }
}

/// The fields of a written line: the cards, the number of hands, and those of the equity's text.
pub proof fn result_fields(h: Seq<u8>, m: nat, equity: Seq<char>)
    ensures
        fields(result_text(h, m, equity)) == seq![
            decimal(h[0] as nat),
            decimal(h[1] as nat),
            decimal(h[2] as nat),
            decimal(m),
        ] + fields(equity),
{
    let (a, b) = (decimal(h[0] as nat), decimal(h[1] as nat));
    let (c, d) = (decimal(h[2] as nat), decimal(m));
    digits_no_comma(h[0] as nat);
    digits_no_comma(h[1] as nat);
    digits_no_comma(h[2] as nat);
    digits_no_comma(m);
    let w = d + seq![','] + equity;
    let v = c + seq![','] + w;
    let u = b + seq![','] + v;
    first_field(d, equity);
    first_field(c, w);
    first_field(b, v);
    first_field(a, u);
    assert(fields(result_text(h, m, equity)) =~= seq![a, b, c, d] + fields(equity));
}

/// The hand of a line is read back from it, whatever the text of the equity.
pub proof fn hand_read_back(h: Seq<u8>, m: nat, equity: Seq<char>)
    requires
        h.len() == 3,
    ensures
        recorded_hand(result_text(h, m, equity)) == Some(h),
{
    result_fields(h, m, equity);
    number_read_back(h[0] as nat, 255);
    number_read_back(h[1] as nat, 255);
    number_read_back(h[2] as nat, 255);
    assert(seq![h[0], h[1], h[2]] =~= h);
}

/// All that a line records is read back from it, where the text of the equity holds no comma.
pub proof fn result_read_back(h: Seq<u8>, m: nat, equity: Seq<char>)
    requires
        h.len() == 3,
        m <= u32::MAX,
        !equity.contains(','),
    ensures
        recorded_result(result_text(h, m, equity)) == Some((h, m as int, equity)),
{
    result_fields(h, m, equity);
    hand_read_back(h, m, equity);
    number_read_back(m, u32::MAX as int);
    one_field(equity);
}

/// Lines that record no result, such as a half-written one, may stand anywhere or be left out.
pub proof fn malformed_lines_skipped(a: Seq<Seq<char>>, b: Seq<Seq<char>>)
    requires
        a.filter(has_result()) == b.filter(has_result()),
    ensures
        results_in(a) == results_in(b),
{
    results_of_filtered(a);
    results_of_filtered(b);
}

proof fn results_of_filtered(lines: Seq<Seq<char>>)
    ensures
        results_in(lines.filter(has_result())) == results_in(lines),
    decreases lines.len(),
{
    reveal(Seq::filter);
    if lines.len() > 0 {
        let rest = lines.drop_last();
        results_of_filtered(rest);
        if recorded_result(lines.last()) is Some {
            let kept = rest.filter(has_result());
            assert(kept.push(lines.last()).drop_last() =~= kept);
        }
    }
}

/// Writes the line that records a hand.
pub fn result_line(hand: [u8; 3], combos: u32, equity: &str) -> (line: String)
    ensures
        line@ == result_text(hand@, combos as nat, equity@),
{
    proof {
        reveal_strlit(",");
    }
    let mut t: String = String::new();
    push_decimal(&mut t, hand[0] as u64);
    t.append(",");
    push_decimal(&mut t, hand[1] as u64);
    t.append(",");
    push_decimal(&mut t, hand[2] as u64);
    t.append(",");
    push_decimal(&mut t, combos as u64);
    t.append(",");
    t.append(equity);
    assert(","@ =~= seq![',']);
    assert(t@ =~= result_text(hand@, combos as nat, equity@));
    t
}

/// The characters of a text.
fn chars_of(t: &str) -> (v: Vec<char>)
    ensures
        v@ == t@,
{
    let mut v: Vec<char> = Vec::new();
    for c in it: t.chars()
        invariant
            it.seq() == t@,
            v@ == t@.take(it.index()),
    {
        v.push(c);
        assert(v@ =~= t@.take(it.index() + 1));
    }
    assert(v@ =~= t@);
    v
}

/// Where the fields of a text begin and end.
fn field_bounds(t: &[char]) -> (bounds: Vec<(usize, usize)>)
    ensures
        bounds@.len() == fields(t@).len(),
        forall|i: int|
            0 <= i < bounds@.len() ==> {
                let (a, b) = #[trigger] bounds@[i];
                a <= b <= t@.len() && fields(t@)[i] == t@.subrange(a as int, b as int)
            },
{
    let mut bounds: Vec<(usize, usize)> = Vec::new();
    let mut start: usize = 0;
    let mut i: usize = 0;
    assert(t@.take(0) =~= Seq::empty());
    assert(t@.subrange(0, 0) =~= Seq::empty());
    while i < t.len()
        invariant
            start <= i <= t@.len(),
            fields(t@.take(i as int)).len() == bounds@.len() + 1,
            fields(t@.take(i as int)).last() == t@.subrange(start as int, i as int),
            forall|j: int|
                0 <= j < bounds@.len() ==> {
                    let (a, b) = #[trigger] bounds@[j];
                    a <= b <= t@.len() && fields(t@.take(i as int))[j] == t@.subrange(
                        a as int,
                        b as int,
                    )
                },
        decreases t@.len() - i,
    {
        let ghost before = fields(t@.take(i as int));
        proof {
            let now = t@.take(i + 1);
            assert(now.drop_last() =~= t@.take(i as int));
            assert(now.last() == t@[i as int]);
            assert(t@.subrange(start as int, i as int).push(t@[i as int]) =~= t@.subrange(
                start as int,
                i + 1,
            ));
            assert(t@.subrange(i + 1, i + 1) =~= Seq::empty());
        }
        if t[i] == ',' {
            bounds.push((start, i));
            start = i + 1;
        }
        i = i + 1;
    }
    bounds.push((start, i));
    assert(t@.take(i as int) =~= t@);
    bounds
}

/// Reads a card in a field.
fn read_card(t: &[char], at: (usize, usize)) -> (c: Option<u8>)
    requires
        at.0 <= at.1 <= t@.len(),
    ensures
        match c {
            Some(v) => number_in(t@.subrange(at.0 as int, at.1 as int), 255) == Some(v as int),
            None => number_in(t@.subrange(at.0 as int, at.1 as int), 255) is None,
        },
{
    match read_number(t, at.0, at.1, 255) {
        Some(v) => Some(v as u8),
        None => None,
    }
}

/// Reads the hand that a line records, if it records one.
pub fn read_hand(line: &str) -> (h: Option<[u8; 3]>)
    ensures
        match h {
            Some(v) => recorded_hand(line@) == Some(v@),
            None => recorded_hand(line@) is None,
        },
{
    let t: Vec<char> = chars_of(line);
    let bounds: Vec<(usize, usize)> = field_bounds(t.as_slice());
    if bounds.len() < 3 {
        return None;
    }
    match (
        read_card(t.as_slice(), bounds[0]),
        read_card(t.as_slice(), bounds[1]),
        read_card(t.as_slice(), bounds[2]),
    ) {
        (Some(a), Some(b), Some(c)) => {
            let v: [u8; 3] = [a, b, c];
            assert(v@ =~= seq![a, b, c]);
            Some(v)
        },
        _ => None,
    }
}

/// Reads all that a line records of a hand, if it records all of it.
pub fn read_result(line: &str) -> (r: Option<Recorded>)
    ensures
        match r {
            Some(v) => recorded_result(line@) == Some(v@) && v@ == (
                v.hand@,
                v.combos as int,
                v.equity@,
            ),
            None => recorded_result(line@) is None,
        },
{
    let t: Vec<char> = chars_of(line);
    let bounds: Vec<(usize, usize)> = field_bounds(t.as_slice());
    if bounds.len() < 5 {
        return None;
    }
    match (read_hand(line), read_number(t.as_slice(), bounds[3].0, bounds[3].1, u32::MAX)) {
        (Some(hand), Some(combos)) => {
            let equity: String = line.substring_char(bounds[4].0, bounds[4].1).to_owned();
            Some(Recorded { hand, combos, equity })
        },
        _ => None,
    }
}

/// Collects the results that lines record.
pub fn recorded_results(lines: &[String]) -> (out: Vec<Recorded>)
    ensures
        results(out@) == results_in(texts(lines@)),
        exists|at: Seq<int>|
            #![trigger at.len()]
            {
                &&& at.len() == out@.len()
                &&& forall|j: int, k: int| 0 <= j < k < at.len() ==> at[j] < at[k]
                &&& forall|i: int|
                    0 <= i < lines@.len() ==> (recorded_result((#[trigger] lines@[i])@) is Some
                        <==> at.contains(i))
                &&& forall|j: int|
                    0 <= j < at.len() ==> 0 <= #[trigger] at[j] < lines@.len() && recorded_result(
                        lines@[at[j]]@,
                    ) == Some((out@[j].hand@, out@[j].combos as int, out@[j].equity@))
            },
{
    let mut out: Vec<Recorded> = Vec::new();
    let ghost mut at: Seq<int> = Seq::empty();
    let ghost all = texts(lines@);
    let mut i: usize = 0;
    assert(all.take(0) =~= Seq::empty());
    assert(results(out@) =~= Seq::empty());
    while i < lines.len()
        invariant
            i <= lines@.len(),
            all == texts(lines@),
            results(out@) == results_in(all.take(i as int)),
            at.len() == out@.len(),
            forall|j: int, k: int| 0 <= j < k < at.len() ==> at[j] < at[k],
            forall|k: int|
                0 <= k < i ==> (recorded_result((#[trigger] lines@[k])@) is Some <==> at.contains(
                    k,
                )),
            forall|j: int|
                0 <= j < at.len() ==> 0 <= #[trigger] at[j] < i && recorded_result(lines@[at[j]]@)
                    == Some((out@[j].hand@, out@[j].combos as int, out@[j].equity@)),
        decreases lines@.len() - i,
    {
        let ghost known = at;
        proof {
            let now = all.take(i + 1);
            assert(now.drop_last() =~= all.take(i as int));
            assert(now.last() == lines@[i as int]@);
        }
        if let Some(r) = read_result(lines[i].as_str()) {
            let ghost before = results(out@);
            out.push(r);
            assert(results(out@) =~= before.push(r@));
            proof {
                at = at.push(i as int);
                assert(at[known.len() as int] == i);
            }
        }
        proof {
            assert forall|k: int| 0 <= k < i + 1 implies (recorded_result(
                (#[trigger] lines@[k])@,
            ) is Some <==> at.contains(k)) by {
                if k < i && known.contains(k) {
                    let j = choose|j: int| 0 <= j < known.len() && known[j] == k;
                    assert(at[j] == k);
                }
                if at.contains(k) {
                    let j = choose|j: int| 0 <= j < at.len() && at[j] == k;
                    if j < known.len() {
                        assert(known[j] == k);
                    }
                }
            }
        }
        i = i + 1;
    }
    assert(all.take(i as int) =~= all);
    assert(at.len() == out@.len());
    out
}

/// The fields of a line hold no comma and, with commas between them, give the line back.
pub proof fn fields_join(t: Seq<char>)
    ensures
        fields(t).len() > 0,
        joined(fields(t), ',') == t,
        forall|i: int| 0 <= i < fields(t).len() ==> !(#[trigger] fields(t)[i]).contains(','),
{
    fields_are_parts(t);
    parts_join(t, ',');
}

proof fn fields_are_parts(t: Seq<char>)
    ensures
        fields(t) == parts(t, ','),
    decreases t.len(),
{
    if t.len() > 0 {
        fields_are_parts(t.drop_last());
    }
}

/// A written line is the three cards, the number of hands and the equity, in this order, with commas
/// between them.
pub proof fn result_joined(h: Seq<u8>, m: nat, equity: Seq<char>)
    ensures
        result_text(h, m, equity) == joined(
            seq![
                decimal(h[0] as nat),
                decimal(h[1] as nat),
                decimal(h[2] as nat),
                decimal(m),
                equity,
            ],
            ',',
        ),
{
    let (a, b, c, d, e) = (
        decimal(h[0] as nat),
        decimal(h[1] as nat),
        decimal(h[2] as nat),
        decimal(m),
        equity,
    );
    let p5 = seq![a, b, c, d, e];
    let p4 = seq![a, b, c, d];
    let p3 = seq![a, b, c];
    let p2 = seq![a, b];
    let p1 = seq![a];
    assert(p5.drop_last() =~= p4);
    assert(p4.drop_last() =~= p3);
    assert(p3.drop_last() =~= p2);
    assert(p2.drop_last() =~= p1);
    assert(joined(p1, ',') == a);
    assert(joined(p2, ',') == a + seq![','] + b);
    assert(joined(p3, ',') == a + seq![','] + b + seq![','] + c);
    assert(joined(p4, ',') == a + seq![','] + b + seq![','] + c + seq![','] + d);
    assert(joined(p5, ',') =~= result_text(h, m, equity));
}

/// A line records a hand exactly where its first three fields are numbers up to 255: those three
/// cards, in this order. It records a result exactly where the fourth of at least five fields is a
/// number of 32 bits too: that hand, that number, and the fifth field as it stands.
pub proof fn line_records(line: Seq<char>, h: Seq<u8>, m: int, equity: Seq<char>)
    requires
        h.len() == 3,
    ensures
        recorded_hand(line) == Some(h) <==> fields(line).len() >= 3 && number_in(fields(line)[0], 255)
            == Some(h[0] as int) && number_in(fields(line)[1], 255) == Some(h[1] as int)
            && number_in(fields(line)[2], 255) == Some(h[2] as int),
        recorded_result(line) == Some((h, m, equity)) <==> fields(line).len() >= 5 && number_in(
            fields(line)[0],
            255,
        ) == Some(h[0] as int) && number_in(fields(line)[1], 255) == Some(h[1] as int)
            && number_in(fields(line)[2], 255) == Some(h[2] as int) && number_in(
            fields(line)[3],
            4294967295,
        ) == Some(m) && fields(line)[4] == equity,
        recorded_hand(line) matches Some(g) ==> g.len() == 3,
        recorded_result(line) matches Some(r) ==> r.0.len() == 3,
{
    let p = fields(line);
    if p.len() >= 3 {
        numbers_in_range(p[0]);
        numbers_in_range(p[1]);
        numbers_in_range(p[2]);
        if recorded_hand(line) is Some {
            let g = recorded_hand(line)->0;
            assert(number_in(p[0], 255) == Some(g[0] as int));
            assert(number_in(p[1], 255) == Some(g[1] as int));
            assert(number_in(p[2], 255) == Some(g[2] as int));
            if g[0] == h[0] && g[1] == h[1] && g[2] == h[2] {
                assert(g =~= h);
            }
        }
    }
}

proof fn numbers_in_range(t: Seq<char>)
    ensures
        number_in(t, 255) matches Some(v) ==> 0 <= v <= 255,
{
    number_not_negative(t, 255);
}

} // verus!
