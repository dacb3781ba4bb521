//! The head-up display: the countdown clock and the ammunition counter.
use vstd::prelude::*;
use vstd::string::*;

verus! {

/// The decimal digit character of `d`.
pub open spec fn digit_char(d: int) -> char {
    if d == 0 { '0' } else if d == 1 { '1' } else if d == 2 { '2' } else if d == 3 { '3' } else if d == 4 { '4' }
    else if d == 5 { '5' } else if d == 6 { '6' } else if d == 7 { '7' } else if d == 8 { '8' } else { '9' }
}

/// Decimal notation of `n`, without leading zeros.
pub open spec fn decimal(n: nat) -> Seq<char>
    decreases n,
{
    if n < 10 {
        seq![digit_char(n as int)]
    } else {
        decimal(n / 10) + seq![digit_char((n % 10) as int)]
    }
}

/// Decimal notation of `n` padded with zeros to at least two digits.
pub open spec fn pad2(n: nat) -> Seq<char> {
    if n < 10 { seq!['0'] + decimal(n) } else { decimal(n) }
}

/// Every padded field has at least two digits; below 100 it has exactly two: a
/// number below 10 is a '0' followed by its digit, one from 10 to 99 is its tens
/// digit followed by its units digit.
pub proof fn lemma_pad2_two_digits(n: nat)
    ensures
        pad2(n).len() >= 2,
        n < 10 ==> pad2(n) == seq!['0', digit_char(n as int)],
        10 <= n < 100 ==> pad2(n) == seq![digit_char(n as int / 10), digit_char(n as int % 10)],
{
    if n < 10 {
        assert(pad2(n) =~= seq!['0', digit_char(n as int)]);
    } else {
        lemma_decimal_len(n);
        if n < 100 {
            assert(decimal(n / 10) == seq![digit_char((n / 10) as int)]);
            assert(pad2(n) =~= seq![digit_char(n as int / 10), digit_char(n as int % 10)]);
        }
    }
}

/// A number from 10 on has at least two decimal digits.
proof fn lemma_decimal_len(n: nat)
    requires
        n >= 10,
    ensures
        decimal(n).len() >= 2,
{
    assert(decimal(n) == decimal(n / 10) + seq![digit_char((n % 10) as int)]);
    assert(decimal(n / 10).len() >= 1);
}

/// The clock face of `t` seconds: minutes and seconds, each at least two digits,
/// separated by a colon.
pub open spec fn clock_face(t: nat) -> Seq<char> {
    pad2(t / 60) + seq![':'] + pad2(t % 60)
}

/// Whole seconds left on a timer of `duration_secs` whole seconds of which
/// `elapsed_secs` have passed.
pub fn remaining_secs(duration_secs: u64, elapsed_secs: u64) -> (t: u64)
    requires
        elapsed_secs <= duration_secs,
    ensures
        t == duration_secs - elapsed_secs,
{
    duration_secs - elapsed_secs
}

/// Appends the digit `d` to `s`.
fn push_digit(s: &mut String, d: u64)
    requires
        d < 10,
    ensures
        final(s)@ == old(s)@ + seq![digit_char(d as int)],
{
    let lit: &str = if d == 0 { "0" } else if d == 1 { "1" } else if d == 2 { "2" } else if d == 3 { "3" }
        else if d == 4 { "4" } else if d == 5 { "5" } else if d == 6 { "6" } else if d == 7 { "7" }
        else if d == 8 { "8" } else { "9" };
    proof {
        reveal_strlit("0");
        reveal_strlit("1");
        reveal_strlit("2");
        reveal_strlit("3");
        reveal_strlit("4");
        reveal_strlit("5");
        reveal_strlit("6");
        reveal_strlit("7");
        reveal_strlit("8");
        reveal_strlit("9");
        assert(lit@ =~= seq![digit_char(d as int)]);
    }
    s.append(lit);
}

/// Appends the decimal notation of `n` to `s`.
fn push_decimal(s: &mut String, n: u64)
    ensures
        final(s)@ == old(s)@ + decimal(n as nat),
    decreases n,
{
    if n < 10 {
        push_digit(s, n);
    } else {
        push_decimal(s, n / 10);
        push_digit(s, n % 10);
        proof {
            assert(final(s)@ =~= old(s)@ + decimal(n as nat));
        }
    }
}

/// Appends the decimal notation of `n` padded with zeros to two digits.
fn push_pad2(s: &mut String, n: u64)
    ensures
        final(s)@ == old(s)@ + pad2(n as nat),
{
    if n < 10 {
        push_digit(s, 0);
        push_decimal(s, n);
        proof {
            assert(final(s)@ =~= old(s)@ + pad2(n as nat));
        }
    } else {
        push_decimal(s, n);
    }
}

/// Decimal notation of the integer `v`, with a minus sign where it is negative.
pub open spec fn int_text(v: int) -> Seq<char> {
    if v < 0 { seq!['-'] + decimal((-v) as nat) } else { decimal(v as nat) }
}

/// The text of the ammunition counter: the rounds in the magazine and the spare
/// rounds.
pub open spec fn ammo_face(mag: int, spare: int) -> Seq<char> {
    seq!['A', 'm', 'm', 'o', ':', ' '] + int_text(mag) + seq![' ', '|', ' '] + int_text(spare)
}

/// Appends the decimal notation of `v` to `s`.
fn push_int(s: &mut String, v: i32)
    ensures
        final(s)@ == old(s)@ + int_text(v as int),
{
    if v < 0 {
        proof {
            reveal_strlit("-");
        }
        s.append("-");
        let m: i64 = -(v as i64);
        push_decimal(s, m as u64);
        proof {
            assert(final(s)@ =~= old(s)@ + int_text(v as int));
        }
    } else {
        push_decimal(s, v as u64);
    }
}

/// The ammunition counter's text, "Ammo: M | S" (see `ammo_face`).
pub fn ammo_text(mag: i32, spare: i32) -> (text: String)
    ensures
        text@ == ammo_face(mag as int, spare as int),
{
    let mut text = String::new();
    proof {
        reveal_strlit("Ammo: ");
        reveal_strlit(" | ");
    }
    text.append("Ammo: ");
    push_int(&mut text, mag);
    text.append(" | ");
    push_int(&mut text, spare);
    proof {
        assert(text@ =~= ammo_face(mag as int, spare as int));
    }
    text
}

/// The clock face of `t` seconds, as "MM:SS" (see `clock_face`).
pub fn format_clock(t: u64) -> (text: String)
    ensures
        text@ == clock_face(t as nat),
        t < 6000 ==> text@ == seq![digit_char(t as int / 600), digit_char(t as int / 60 % 10), ':',
            digit_char(t as int % 60 / 10), digit_char(t as int % 10)],
{
    let mut text = String::new();
    push_pad2(&mut text, t / 60);
    proof {
        reveal_strlit(":");
    }
    text.append(":");
    push_pad2(&mut text, t % 60);
    proof {
        assert(text@ =~= clock_face(t as nat));
        if t < 6000 {
            lemma_pad2_two_digits((t / 60) as nat);
            lemma_pad2_two_digits((t % 60) as nat);
            assert(t as int / 60 / 10 == t as int / 600);
            assert(t as int % 60 % 10 == t as int % 10);
            assert(text@ =~= seq![digit_char(t as int / 600), digit_char(t as int / 60 % 10), ':',
                digit_char(t as int % 60 / 10), digit_char(t as int % 10)]);
        }
    }
    text
}

} // verus!
