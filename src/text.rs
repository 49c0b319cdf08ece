use vstd::prelude::*;

verus! {

/// Relies on `String::push`: the character is appended at the end.
#[verifier::external_body]
pub(crate) fn push_char(s: &mut String, c: char)
    ensures
        final(s)@ == old(s)@.push(c),
{
    s.push(c);
}

/// The ASCII digit for a value below ten.
pub open spec fn digit(d: nat) -> char {
    if d == 0 { '0' }
    else if d == 1 { '1' }
    else if d == 2 { '2' }
    else if d == 3 { '3' }
    else if d == 4 { '4' }
    else if d == 5 { '5' }
    else if d == 6 { '6' }
    else if d == 7 { '7' }
    else if d == 8 { '8' }
    else { '9' }
}

/// A decimal digit character.
pub open spec fn is_digit(c: char) -> bool {
    '0' <= c && c <= '9'
}

/// Decimal digits of a natural number, without leading zeros.
pub open spec fn nat_text(n: nat) -> Seq<char>
    decreases n,
{
    if n < 10 { seq![digit(n)] } else { nat_text(n / 10).push(digit(n % 10)) }
}

/// Decimal form of an integer: a minus sign for negative values, then the digits.
pub open spec fn int_text(i: int) -> Seq<char> {
    if i < 0 { seq!['-'] + nat_text((-i) as nat) } else { nat_text(i as nat) }
}

/// The last `width` decimal digits of `n`, padded with zeros on the left.
pub open spec fn low_digits(n: nat, width: nat) -> Seq<char>
    decreases width,
{
    if width == 0 { Seq::empty() } else { low_digits(n / 10, (width - 1) as nat).push(digit(n % 10)) }
}

/// `n` with its last `count` decimal digits removed.
pub open spec fn drop_digits(n: nat, count: nat) -> nat
    decreases count,
{
    if count == 0 { n } else { drop_digits(n / 10, (count - 1) as nat) }
}

fn digit_char(d: u64) -> (c: char)
    requires
        d < 10,
    ensures
        c == digit(d as nat),
{
    if d == 0 { '0' }
    else if d == 1 { '1' }
    else if d == 2 { '2' }
    else if d == 3 { '3' }
    else if d == 4 { '4' }
    else if d == 5 { '5' }
    else if d == 6 { '6' }
    else if d == 7 { '7' }
    else if d == 8 { '8' }
    else { '9' }
}

/// Appends the decimal digits of `n`.
pub(crate) fn push_nat(out: &mut String, n: u64)
    ensures
        final(out)@ == old(out)@ + nat_text(n as nat),
    decreases n,
{
    if n >= 10 {
        push_nat(out, n / 10);
    }
    push_char(out, digit_char(n % 10));
    proof {
        if n < 10 {
            assert(old(out)@ + nat_text(n as nat) == old(out)@.push(digit(n as nat)));
        } else {
            assert(old(out)@ + nat_text(n as nat) == (old(out)@ + nat_text((n / 10) as nat)).push(
                digit((n % 10) as nat),
            ));
        }
    }
}

/// The magnitude of a signed 64-bit integer.
pub(crate) fn magnitude(i: i64) -> (m: u64)
    ensures
        m as int == if i < 0 { -(i as int) } else { i as int },
{
    if i < 0 {
        (-(i as i128)) as u64
    } else {
        i as u64
    }
}

/// Appends the decimal form of `i`.
pub(crate) fn push_int(out: &mut String, i: i64)
    ensures
        final(out)@ == old(out)@ + int_text(i as int),
{
    if i < 0 {
        push_char(out, '-');
    }
    push_nat(out, magnitude(i));
    proof {
        if i < 0 {
            assert(old(out)@ + int_text(i as int) == old(out)@.push('-') + nat_text(
                (-(i as int)) as nat,
            ));
        }
    }
}

/// Appends the last `width` digits of `n`, zero-padded.
pub(crate) fn push_low_digits(out: &mut String, n: u64, width: u32)
    ensures
        final(out)@ == old(out)@ + low_digits(n as nat, width as nat),
    decreases width,
{
    if width == 0 {
        assert(old(out)@ + low_digits(n as nat, 0) == old(out)@);
    } else {
        push_low_digits(out, n / 10, width - 1);
        push_char(out, digit_char(n % 10));
        assert(old(out)@ + low_digits(n as nat, width as nat) == (old(out)@ + low_digits(
            (n / 10) as nat,
            (width - 1) as nat,
        )).push(digit((n % 10) as nat)));
    }
}

/// Removes the last `count` decimal digits of `n`.
pub(crate) fn shift_digits(n: u64, count: u32) -> (r: u64)
    ensures
        r as nat == drop_digits(n as nat, count as nat),
{
    let mut r: u64 = n;
    let mut k: u32 = count;
    while k > 0
        invariant
            drop_digits(r as nat, k as nat) == drop_digits(n as nat, count as nat),
        decreases k,
    {
        r = r / 10;
        k = k - 1;
    }
    r
}

/// The characters of a text.
pub(crate) fn chars_of(s: &str) -> (r: Vec<char>)
    ensures
        r@ == s@,
{
    let mut r: Vec<char> = Vec::new();
    for c in it: s.chars()
        invariant
            it.seq() == s@,
            r@ == s@.take(it.index() as int),
    {
        r.push(c);
        assert(r@ == s@.take(it.index() + 1));
    }
    assert(s@.take(s@.len() as int) == s@);
    r
}

} // verus!
