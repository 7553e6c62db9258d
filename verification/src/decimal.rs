//! Whole numbers as decimal text.
use vstd::prelude::*;

verus! {

/// The character of a digit.
pub open spec fn digit_char(d: int) -> char {
    (48 + d) as char
}

/// A number in decimal digits, with no leading zeros.
pub open spec fn decimal(n: nat) -> Seq<char>
    decreases n,
{
    if n < 10 {
        seq![digit_char(n as int)]
    } else {
        decimal(n / 10).push(digit_char((n % 10) as int))
    }
}

/// Whether a character is a decimal digit.
pub open spec fn is_digit(c: char) -> bool {
    48 <= c as int && c as int <= 57
}

/// Whether all characters are decimal digits.
pub open spec fn all_digits(t: Seq<char>) -> bool {
    forall|i: int| 0 <= i < t.len() ==> is_digit(#[trigger] t[i])
}

/// The number that decimal digits stand for.
pub open spec fn digits_value(t: Seq<char>) -> int
    decreases t.len(),
{
    if t.len() == 0 {
        0
    } else {
        10 * digits_value(t.drop_last()) + (t.last() as int - 48)
    }
}

/// The text without a leading plus sign.
pub open spec fn unsigned(t: Seq<char>) -> Seq<char> {
    if t.len() > 0 && t[0] == '+' {
        t.skip(1)
    } else {
        t
    }
}

/// The number that a text stands for: decimal digits, at least one, after a plus sign or none, of
/// a number up to `max`.
pub open spec fn number_in(t: Seq<char>, max: int) -> Option<int> {
    let d = unsigned(t);
    if d.len() > 0 && all_digits(d) && digits_value(d) <= max {
        Some(digits_value(d))
    } else {
        None
    }
}

/// The digits of a number stand for it.
pub proof fn decimal_value(n: nat)
    ensures
        decimal(n).len() > 0,
        all_digits(decimal(n)),
        digits_value(decimal(n)) == n,
    decreases n,
{
    if n < 10 {
        reveal_with_fuel(digits_value, 2);
        assert(decimal(n).drop_last() =~= Seq::empty());
    } else {
        decimal_value(n / 10);
        assert(decimal(n).drop_last() =~= decimal(n / 10));
    }
}

/// A number read back from its digits is the number.
pub proof fn number_read_back(n: nat, max: int)
    requires
        n <= max,
    ensures
        number_in(decimal(n), max) == Some(n as int),
{
    decimal_value(n);
    assert(is_digit(decimal(n)[0]));
}

/// More digits stand for no smaller a number.
proof fn value_grows(t: Seq<char>, n: int)
    requires
        all_digits(t),
        0 <= n <= t.len(),
    ensures
        0 <= digits_value(t.take(n)) <= digits_value(t),
    decreases t.len(),
{
    if n < t.len() {
        let s = t.drop_last();
        value_grows(s, n);
        assert(s.take(n) =~= t.take(n));
        assert(is_digit(t[t.len() - 1]));
    } else {
        assert(t.take(n) =~= t);
        if t.len() > 0 {
            let s = t.drop_last();
            value_grows(s, s.len() as int);
            assert(s.take(s.len() as int) =~= s);
            assert(is_digit(t[t.len() - 1]));
        }
    }
}

/// A digit as text.
fn digit_str(d: u64) -> (t: &'static str)
    requires
        d < 10,
    ensures
        t@ == seq![digit_char(d as int)],
{
    proof {
        reveal_strlit("0");
        reveal_strlit("1");
        reveal_strlit("2");
        reveal_strlit("3");
        reveal_strlit("4");
        reveal_strlit("5");
        reveal_strlit("6");
        reveal_strlit("7");
        reveal_strlit("8");
        reveal_strlit("9");
    }
    let t: &'static str = match d {
        0 => "0",
        1 => "1",
        2 => "2",
        3 => "3",
        4 => "4",
        5 => "5",
        6 => "6",
        7 => "7",
        8 => "8",
        _ => "9",
    };
    assert(t@ =~= seq![digit_char(d as int)]);
    t
}

/// Writes a number at the end of a text.
pub fn push_decimal(t: &mut String, n: u64)
    ensures
        final(t)@ == old(t)@ + decimal(n as nat),
    decreases n,
{
    if n >= 10 {
        push_decimal(t, n / 10);
    }
    t.append(digit_str(n % 10));
    assert(t@ =~= old(t)@ + decimal(n as nat));
}

/// Reads the number that the characters from `from` up to `to` stand for.
pub fn read_number(chars: &[char], from: usize, to: usize, max: u32) -> (n: Option<u32>)
    requires
        from <= to <= chars@.len(),
    ensures
        match n {
            Some(v) => number_in(chars@.subrange(from as int, to as int), max as int) == Some(
                v as int,
            ),
            None => number_in(chars@.subrange(from as int, to as int), max as int) is None,
        },
{
    let ghost t = chars@.subrange(from as int, to as int);
    let ghost d = unsigned(t);
    let mut i: usize = from;
    if from < to && chars[from] == '+' {
        i = i + 1;
    }
    let ghost start = i as int;
    assert(d =~= chars@.subrange(start, to as int));
    if i == to {
        return None;
    }
    let mut v: u64 = 0;
    while i < to
        invariant
            from <= start <= i <= to <= chars@.len(),
            start < to,
            d == chars@.subrange(start, to as int),
            d == unsigned(t),
            t == chars@.subrange(from as int, to as int),
            all_digits(d.take(i - start)),
            v == digits_value(d.take(i - start)),
            v <= max,
        decreases to - i,
    {
        let ch: char = chars[i];
        assert(d[i - start] == chars@[i as int]);
        if ch < '0' || ch > '9' {
            assert(!is_digit(d[i - start]));
            return None;
        }
        let ghost before = d.take(i - start);
        assert(is_digit(d[i - start]));
        v = 10 * v + (ch as u64 - 48);
        i = i + 1;
        proof {
            let now = d.take(i - start);
            assert(now.drop_last() =~= before);
            assert(now.last() == d[i - start - 1]);
            assert forall|j: int| 0 <= j < now.len() implies is_digit(#[trigger] now[j]) by {
                if j < before.len() {
                    assert(before[j] == now[j]);
                } else {
                    assert(now[j] == d[j]);
                }
            }
        }
        if v > max as u64 {
            proof {
                if all_digits(d) {
                    value_grows(d, i - start);
                }
            }
            return None;
        }
    }
    assert(d.take(i - start) =~= d);
    Some(v as u32)
}

/// A number below ten is its digit; ten times a number and a digit is that number's text with the
/// digit behind it.
pub proof fn decimal_digits(m: nat, d: nat)
    requires
        d < 10,
    ensures
        decimal(d).len() == 1,
        decimal(d)[0] as int == '0' as int + d,
        m > 0 ==> decimal(10 * m + d).len() == decimal(m).len() + 1,
        m > 0 ==> decimal(10 * m + d).drop_last() == decimal(m),
        m > 0 ==> decimal(10 * m + d).last() as int == '0' as int + d,
{
    if m > 0 {
        let n = 10 * m + d;
        assert(n / 10 == m && n % 10 == d);
        assert(decimal(n).drop_last() =~= decimal(m));
    }
}

/// Texts stand for no negative numbers.
pub proof fn number_not_negative(t: Seq<char>, max: int)
    ensures
        number_in(t, max) matches Some(v) ==> 0 <= v <= max,
{
    let d = unsigned(t);
    if all_digits(d) {
        value_grows(d, 0);
    }
}

/// Nothing and a lone plus sign are no number; a first digit, with or without a plus sign, is one.
pub proof fn number_begins(c: char, max: int)
    ensures
        number_in(seq![], max) is None,
        number_in(seq!['+'], max) is None,
        c != '+' ==> number_in(seq![c], max) == (if '0' as int <= c as int && c as int <= '9' as int
            && c as int - '0' as int <= max {
            Some(c as int - '0' as int)
        } else {
            None
        }),
        number_in(seq!['+', c], max) == (if '0' as int <= c as int && c as int <= '9' as int
            && c as int - '0' as int <= max {
            Some(c as int - '0' as int)
        } else {
            None
        }),
{
    reveal_with_fuel(digits_value, 2);
    assert(unsigned(seq!['+']) =~= seq![]);
    let one = seq![c];
    assert(one.drop_last() =~= seq![]);
    assert(unsigned(seq!['+', c]) =~= one);
    assert(digits_value(one) == c as int - 48);
    assert(all_digits(one) <==> is_digit(c)) by {
        assert(one[0] == c);
    }
}

/// One character more: a digit makes ten times the number and the digit, unless that is beyond the
/// bound, and anything else makes no number.
pub proof fn number_grows(t: Seq<char>, c: char, max: int)
    requires
        t.len() > 0,
        t != seq!['+'],
    ensures
        number_in(t.push(c), max) == (match number_in(t, max) {
            Some(v) => if '0' as int <= c as int && c as int <= '9' as int && 10 * v + (c as int
                - '0' as int) <= max {
                Some(10 * v + (c as int - '0' as int))
            } else {
                None
            },
            None => None,
        }),
{
    let d = unsigned(t);
    let e = unsigned(t.push(c));
    assert(e =~= d.push(c));
    assert(d.len() > 0) by {
        if d.len() == 0 {
            assert(t =~= seq!['+']);
        }
    }
    assert(e.drop_last() =~= d);
    assert(all_digits(e) <==> all_digits(d) && is_digit(c)) by {
        if all_digits(e) {
            assert(e[d.len() as int] == c);
            assert forall|i: int| 0 <= i < d.len() implies is_digit(#[trigger] d[i]) by {
                assert(e[i] == d[i]);
            }
        }
        if all_digits(d) && is_digit(c) {
            assert forall|i: int| 0 <= i < e.len() implies is_digit(#[trigger] e[i]) by {
                if i < d.len() {
                    assert(e[i] == d[i]);
                }
            }
        }
    }
    if all_digits(d) {
        value_grows(d, 0);
        assert(digits_value(d) >= 0);
    }
}

} // verus!
