use vstd::prelude::*;

use crate::keys::Decimal;
use crate::serialization::decimal_text;
use crate::text::{chars_of, digit, drop_digits, is_digit, low_digits, nat_text};

verus! {

/// The value of a digit character.
pub open spec fn digit_value(c: char) -> nat {
    ((c as u32) - ('0' as u32)) as nat
}

/// The number that a run of digits reads as.
pub open spec fn digits_value(s: Seq<char>) -> nat
    decreases s.len(),
{
    if s.len() == 0 { 0 } else { digits_value(s.drop_last()) * 10 + digit_value(s.last()) }
}

/// Ten to the power `e`.
pub open spec fn pow10(e: nat) -> nat
    decreases e,
{
    if e == 0 { 1 } else { 10 * pow10((e - 1) as nat) }
}

/// Every character is a digit.
pub open spec fn all_digits(s: Seq<char>) -> bool {
    forall|i: int| 0 <= i < s.len() ==> is_digit(#[trigger] s[i])
}

/// Digits as `nat_text` writes them: at least one, and no leading zero
/// unless the number is zero.
pub open spec fn canonical_digits(s: Seq<char>) -> bool {
    s.len() > 0 && all_digits(s) && (s.len() == 1 || s[0] != '0')
}

/// The text of a decimal laid out from its parts: a minus sign when `negative`,
/// the integer digits, and a point with the fractional digits when there are any.
pub open spec fn layout(negative: bool, int_digits: Seq<char>, frac_digits: Seq<char>) -> Seq<char> {
    (if negative { seq!['-'] } else { Seq::empty() }) + int_digits + if frac_digits.len() > 0 {
        seq!['.'] + frac_digits
    } else {
        Seq::empty()
    }
}

proof fn lemma_digit_value(k: nat)
    requires
        k < 10,
    ensures
        digit_value(digit(k)) == k,
        is_digit(digit(k)),
{
}

proof fn lemma_digit_of_value(c: char)
    requires
        is_digit(c),
    ensures
        digit(digit_value(c)) == c,
        digit_value(c) < 10,
{
    let v = c as u32;
    assert(48 <= v <= 57);
    if v == 48 { assert(c == '0'); }
    else if v == 49 { assert(c == '1'); }
    else if v == 50 { assert(c == '2'); }
    else if v == 51 { assert(c == '3'); }
    else if v == 52 { assert(c == '4'); }
    else if v == 53 { assert(c == '5'); }
    else if v == 54 { assert(c == '6'); }
    else if v == 55 { assert(c == '7'); }
    else if v == 56 { assert(c == '8'); }
    else { assert(c == '9'); }
}

proof fn lemma_pow10_positive(e: nat)
    ensures
        pow10(e) >= 1,
    decreases e,
{
    if e > 0 {
        lemma_pow10_positive((e - 1) as nat);
    }
}

proof fn lemma_digits_concat(a: Seq<char>, b: Seq<char>)
    ensures
        digits_value(a + b) == digits_value(a) * pow10(b.len()) + digits_value(b),
    decreases b.len(),
{
    if b.len() == 0 {
        assert(a + b =~= a);
        assert(digits_value(b) == 0);
        assert(pow10(0) == 1);
        assert(digits_value(a) * 1 == digits_value(a));
    } else {
        lemma_digits_concat(a, b.drop_last());
        assert((a + b).drop_last() == a + b.drop_last());
        assert((a + b).last() == b.last());
        let x = digits_value(a);
        let p = pow10((b.len() - 1) as nat);
        let y = digits_value(b.drop_last());
        assert(pow10(b.len()) == 10 * p);
        assert(digits_value(b) == y * 10 + digit_value(b.last()));
        assert(digits_value(a + b) == digits_value(a + b.drop_last()) * 10 + digit_value(b.last()));
        assert((x * p + y) * 10 == x * (10 * p) + y * 10) by (nonlinear_arith);
        assert(x * pow10(b.len()) == x * (10 * p));
        assert(digits_value(a + b.drop_last()) == x * p + y);
        assert(digits_value(a + b) == (x * p + y) * 10 + digit_value(b.last()));
    }
}

proof fn lemma_digits_prefix(a: Seq<char>, b: Seq<char>)
    ensures
        digits_value(a) <= digits_value(a + b),
{
    lemma_digits_concat(a, b);
    lemma_pow10_positive(b.len());
    let x = digits_value(a);
    let p = pow10(b.len());
    assert(x <= x * p) by (nonlinear_arith)
        requires
            p >= 1,
    ;
}

proof fn lemma_nat_text_canonical(n: nat)
    ensures
        canonical_digits(nat_text(n)),
        digits_value(nat_text(n)) == n,
        n > 0 ==> nat_text(n)[0] != '0',
    decreases n,
{
    let t = nat_text(n);
    if n < 10 {
        lemma_digit_value(n);
        assert(t.drop_last() =~= Seq::<char>::empty());
        assert(digits_value(t.drop_last()) == 0);
        assert(t.last() == digit(n));
        assert(digit_value('0') == 0);
    } else {
        lemma_nat_text_canonical(n / 10);
        lemma_digit_value(n % 10);
        let u = nat_text(n / 10);
        assert(t.drop_last() == u);
        assert(t.last() == digit(n % 10));
        assert(t[0] == u[0]);
        assert forall|i: int| 0 <= i < t.len() implies is_digit(#[trigger] t[i]) by {
            if i < u.len() {
                assert(t[i] == u[i]);
            }
        }
        assert(digits_value(t) == (n / 10) * 10 + n % 10);
    }
}

proof fn lemma_digits_positive(s: Seq<char>)
    requires
        canonical_digits(s),
        s.len() >= 2,
    ensures
        digits_value(s) >= 10,
    decreases s.len(),
{
    let init = s.drop_last();
    if init.len() == 1 {
        assert(init[0] == s[0]);
        assert(init.drop_last() =~= Seq::<char>::empty());
        assert(digits_value(init.drop_last()) == 0);
        assert(init.last() == init[0]);
        assert(is_digit(s[0]));
        assert(digit_value(s[0]) >= 1);
        assert(digits_value(init) >= 1);
    } else {
        assert(init[0] == s[0]);
        assert forall|i: int| 0 <= i < init.len() implies is_digit(#[trigger] init[i]) by {
            assert(init[i] == s[i]);
        }
        lemma_digits_positive(init);
    }
}

proof fn lemma_canonical_round_trip(s: Seq<char>)
    requires
        canonical_digits(s),
    ensures
        nat_text(digits_value(s)) == s,
    decreases s.len(),
{
    let c = s.last();
    lemma_digit_of_value(c);
    if s.len() == 1 {
        assert(s.drop_last() =~= Seq::<char>::empty());
        assert(digits_value(s.drop_last()) == 0);
        assert(digits_value(s) == digit_value(c));
        assert(s[0] == c);
        assert(nat_text(digits_value(s)) =~= s);
    } else {
        let init = s.drop_last();
        assert(init[0] == s[0]);
        assert forall|i: int| 0 <= i < init.len() implies is_digit(#[trigger] init[i]) by {
            assert(init[i] == s[i]);
        }
        assert(canonical_digits(init));
        lemma_canonical_round_trip(init);
        lemma_digits_positive(s);
        let v = digits_value(s);
        assert(v / 10 == digits_value(init));
        assert(v % 10 == digit_value(c));
        assert(nat_text(v) =~= init.push(c));
    }
}

/// Splitting `digits_value(f) + k * 10^|f|` at `|f|` digits gives back `k` and `f`.
proof fn lemma_split_digits(f: Seq<char>, k: nat)
    requires
        all_digits(f),
    ensures
        drop_digits(digits_value(f) + k * pow10(f.len()), f.len()) == k,
        low_digits(digits_value(f) + k * pow10(f.len()), f.len()) == f,
    decreases f.len(),
{
    if f.len() == 0 {
        assert(pow10(0) == 1);
        assert(digits_value(f) == 0);
        assert(low_digits(digits_value(f) + k * pow10(f.len()), 0) =~= f);
    } else {
        let init = f.drop_last();
        let c = f.last();
        lemma_digit_of_value(c);
        let p = pow10((f.len() - 1) as nat);
        let rest = digits_value(init) + k * p;
        let n = digits_value(f) + k * pow10(f.len());
        assert(k * (10 * p) == 10 * (k * p)) by (nonlinear_arith);
        assert(pow10(f.len()) == 10 * p);
        assert(digits_value(f) == digits_value(init) * 10 + digit_value(c));
        assert(n == rest * 10 + digit_value(c));
        assert(n / 10 == rest);
        assert(n % 10 == digit_value(c));
        assert forall|i: int| 0 <= i < init.len() implies is_digit(#[trigger] init[i]) by {
            assert(init[i] == f[i]);
        }
        lemma_split_digits(init, k);
        assert(drop_digits(n, f.len()) == drop_digits(rest, init.len()));
        assert(low_digits(n, f.len()) =~= low_digits(rest, init.len()).push(c));
    }
}

/// A number is the reading of its integer digits followed by its last `s`
/// digits.
proof fn lemma_recompose(n: nat, s: nat)
    ensures
        digits_value(low_digits(n, s)) + drop_digits(n, s) * pow10(s) == n,
        all_digits(low_digits(n, s)),
        low_digits(n, s).len() == s,
    decreases s,
{
    if s == 0 {
        assert(low_digits(n, s) =~= Seq::<char>::empty());
        assert(digits_value(low_digits(n, s)) == 0);
        assert(pow10(0) == 1);
        assert(n * 1 == n);
    } else {
        lemma_recompose(n / 10, (s - 1) as nat);
        lemma_digit_value(n % 10);
        let f = low_digits(n, s);
        assert(f.drop_last() == low_digits(n / 10, (s - 1) as nat));
        let q = drop_digits(n, s);
        let p = pow10((s - 1) as nat);
        assert(q == drop_digits(n / 10, (s - 1) as nat));
        assert(pow10(s) == 10 * p);
        assert(f.last() == digit(n % 10));
        assert(digits_value(f) == digits_value(low_digits(n / 10, (s - 1) as nat)) * 10 + n % 10);
        assert(q * (10 * p) == 10 * (q * p)) by (nonlinear_arith);
        assert(q * pow10(s) == q * (10 * p));
        assert(n == (n / 10) * 10 + n % 10);
        let w = low_digits(n / 10, (s - 1) as nat);
        assert(digits_value(w) + q * p == n / 10);
        assert(digits_value(f) + q * pow10(s) == (digits_value(w) + q * p) * 10 + n % 10);
        assert forall|i: int| 0 <= i < f.len() implies is_digit(#[trigger] f[i]) by {
            if i < f.len() - 1 {
                assert(f[i] == f.drop_last()[i]);
            }
        }
    }
}

/// The text of every decimal is laid out from canonical integer digits and
/// as many fractional digits as its scale, which read together as its magnitude.
proof fn lemma_decimal_layout(d: Decimal)
    ensures
        ({
            let m: nat = if d.mantissa < 0 { (-d.mantissa) as nat } else { d.mantissa as nat };
            let i = nat_text(drop_digits(m, d.scale as nat));
            let f = low_digits(m, d.scale as nat);
            &&& canonical_digits(i)
            &&& all_digits(f)
            &&& f.len() == d.scale
            &&& digits_value(i + f) == m
            &&& decimal_text(d) == layout(d.mantissa < 0, i, f)
        }),
{
    let m: nat = if d.mantissa < 0 { (-d.mantissa) as nat } else { d.mantissa as nat };
    let q = drop_digits(m, d.scale as nat);
    let i = nat_text(q);
    let f = low_digits(m, d.scale as nat);
    lemma_nat_text_canonical(q);
    lemma_recompose(m, d.scale as nat);
    lemma_digits_concat(i, f);
}

/// Canonical integer digits and fractional digits that read together as a
/// value that fits lay out the text of the decimal they make.
proof fn lemma_layout_decimal(negative: bool, i: Seq<char>, f: Seq<char>, d: Decimal)
    requires
        canonical_digits(i),
        all_digits(f),
        f.len() == d.scale,
        negative ==> d.mantissa == -digits_value(i + f) && d.mantissa < 0,
        !negative ==> d.mantissa == digits_value(i + f),
    ensures
        decimal_text(d) == layout(negative, i, f),
{
    lemma_digits_concat(i, f);
    lemma_split_digits(f, digits_value(i));
    lemma_canonical_round_trip(i);
}

/// Where the parts of a laid-out decimal stand in its text.
proof fn lemma_layout_positions(t: Seq<char>, negative: bool, i: Seq<char>, f: Seq<char>)
    requires
        t == layout(negative, i, f),
        canonical_digits(i),
        all_digits(f),
    ensures
        ({
            let st: int = if negative { 1 } else { 0 };
            let e = st + i.len();
            &&& (t.len() > 0 && t[0] == '-') == negative
            &&& forall|j: int| st <= j < e ==> is_digit(#[trigger] t[j])
            &&& t.subrange(st, e) == i
            &&& f.len() == 0 ==> t.len() == e
            &&& f.len() > 0 ==> {
                &&& t.len() == e + 1 + f.len()
                &&& t[e] == '.'
                &&& !is_digit(t[e])
                &&& forall|j: int| e + 1 <= j < t.len() ==> is_digit(#[trigger] t[j])
                &&& t.subrange(e + 1, t.len() as int) == f
            }
        }),
{
    let st: int = if negative { 1 } else { 0 };
    let e = st + i.len();
    let sign: Seq<char> = if negative { seq!['-'] } else { Seq::empty() };
    let tail: Seq<char> = if f.len() > 0 { seq!['.'] + f } else { Seq::empty() };
    assert(t == sign + i + tail);
    assert(t.len() > 0);
    if !negative {
        assert(t[0] == i[0]);
        assert(is_digit(i[0]));
    }
    assert forall|j: int| st <= j < e implies is_digit(#[trigger] t[j]) by {
        assert(t[j] == i[j - st]);
    }
    assert(t.subrange(st, e) =~= i);
    if f.len() > 0 {
        assert(t[e] == '.');
        assert forall|j: int| e + 1 <= j < t.len() implies is_digit(#[trigger] t[j]) by {
            assert(t[j] == f[j - e - 1]);
        }
        assert(t.subrange(e + 1, t.len() as int) =~= f);
    }
}

/// The largest magnitude of a 64-bit signed integer.
const MAGNITUDE_LIMIT: u128 = 9223372036854775808;

/// End of the run of digits that starts at `from`.
fn digits_end(cs: &Vec<char>, from: usize) -> (e: usize)
    requires
        from <= cs@.len(),
    ensures
        from <= e <= cs@.len(),
        forall|j: int| from <= j < e ==> is_digit(#[trigger] cs@[j]),
        e == cs@.len() || !is_digit(cs@[e as int]),
{
    let mut e = from;
    while e < cs.len() && '0' <= cs[e] && cs[e] <= '9'
        invariant
            from <= e <= cs@.len(),
            forall|j: int| from <= j < e ==> is_digit(#[trigger] cs@[j]),
        decreases cs@.len() - e,
    {
        e = e + 1;
    }
    e
}

/// Appends `cs[from..to]`.
fn push_range(ds: &mut Vec<char>, cs: &Vec<char>, from: usize, to: usize)
    requires
        from <= to <= cs@.len(),
    ensures
        final(ds)@ == old(ds)@ + cs@.subrange(from as int, to as int),
{
    let mut k = from;
    while k < to
        invariant
            from <= k <= to,
            to <= cs@.len(),
            ds@ == old(ds)@ + cs@.subrange(from as int, k as int),
        decreases to - k,
    {
        ds.push(cs[k]);
        assert(cs@.subrange(from as int, k + 1) == cs@.subrange(from as int, k as int).push(cs@[k as int]));
        k = k + 1;
    }
}

/// The number that the digits read as, when it is at most 2^63.
fn read_digits(ds: &Vec<char>) -> (r: Option<u64>)
    requires
        all_digits(ds@),
    ensures
        r matches Some(v) ==> v == digits_value(ds@) && v <= MAGNITUDE_LIMIT,
        r is None ==> digits_value(ds@) > MAGNITUDE_LIMIT,
{
    let mut value: u64 = 0;
    let mut i: usize = 0;
    assert(ds@.take(0) =~= Seq::<char>::empty());
    while i < ds.len()
        invariant
            i <= ds@.len(),
            all_digits(ds@),
            value == digits_value(ds@.take(i as int)),
            value <= MAGNITUDE_LIMIT,
        decreases ds@.len() - i,
    {
        let c = ds[i];
        proof {
            lemma_digit_of_value(c);
        }
        let d = (c as u32 - '0' as u32) as u128;
        let next: u128 = value as u128 * 10 + d;
        proof {
            assert(ds@.take(i + 1).drop_last() == ds@.take(i as int));
            assert(next == digits_value(ds@.take(i + 1)));
        }
        if next > MAGNITUDE_LIMIT {
            proof {
                lemma_digits_prefix(ds@.take(i + 1), ds@.skip(i + 1));
                assert(ds@.take(i + 1) + ds@.skip(i + 1) =~= ds@);
            }
            return None;
        }
        value = next as u64;
        i = i + 1;
    }
    assert(ds@.take(ds@.len() as int) =~= ds@);
    Some(value)
}

impl Decimal {
    /// Reads a decimal back from its text: gives the decimal whose text this is,
    /// or `None` when no decimal is written so (an exponent, a leading `+`,
    /// leading zeros, `-0`, or a magnitude beyond 64 bits).
    #[verifier::rlimit(100)]
    pub fn parse(text: &str) -> (r: Option<Decimal>)
        ensures
            r matches Some(d) ==> decimal_text(d) == text@,
            (exists|d: Decimal| decimal_text(d) == text@) ==> r is Some,
    {
        let ghost ok = exists|d: Decimal| decimal_text(d) == text@;
        let ghost w: Decimal = choose|d: Decimal| decimal_text(d) == text@;
        let ghost wm: nat = if w.mantissa < 0 { (-w.mantissa) as nat } else { w.mantissa as nat };
        let ghost wi = nat_text(drop_digits(wm, w.scale as nat));
        let ghost wf = low_digits(wm, w.scale as nat);
        proof {
            if ok {
                lemma_decimal_layout(w);
                lemma_layout_positions(text@, w.mantissa < 0, wi, wf);
            }
        }
        let cs = chars_of(text);
        let n = cs.len();
        let negative = n > 0 && cs[0] == '-';
        let start: usize = if negative { 1 } else { 0 };
        let int_end = digits_end(&cs, start);
        proof {
            if ok {
                assert(negative == (w.mantissa < 0));
                let e = start + wi.len();
                if int_end < e {
                    assert(is_digit(cs@[int_end as int]));
                }
                if int_end > e {
                    assert(is_digit(cs@[e]));
                }
                assert(int_end == e);
            }
        }
        let mut frac_start = int_end;
        let mut frac_end = int_end;
        if int_end < n {
            if cs[int_end] != '.' {
                return None;
            }
            frac_start = int_end + 1;
            frac_end = digits_end(&cs, frac_start);
            proof {
                if ok {
                    if frac_end < n {
                        assert(is_digit(cs@[frac_end as int]));
                    }
                }
            }
        }
        if int_end == start || (int_end - start > 1 && cs[start] == '0') || frac_end < n || (
        int_end < n && frac_end == frac_start) || frac_end - frac_start > u32::MAX as usize {
            proof {
                if ok {
                    assert(cs@.subrange(start as int, int_end as int) == wi);
                    assert(wi[0] == cs@[start as int]);
                    if int_end < n {
                        assert(wf.len() > 0);
                        assert(wf.len() == frac_end - frac_start);
                    } else {
                        assert(wf.len() == 0);
                    }
                }
            }
            return None;
        }
        let ghost i = cs@.subrange(start as int, int_end as int);
        let ghost f = cs@.subrange(frac_start as int, frac_end as int);
        let mut ds: Vec<char> = Vec::new();
        push_range(&mut ds, &cs, start, int_end);
        push_range(&mut ds, &cs, frac_start, frac_end);
        proof {
            assert(ds@ =~= i + f);
            assert forall|j: int| 0 <= j < ds@.len() implies is_digit(#[trigger] ds@[j]) by {
                if j < i.len() {
                    assert(ds@[j] == cs@[start + j]);
                } else {
                    assert(ds@[j] == cs@[frac_start + j - i.len()]);
                }
            }
            assert forall|j: int| 0 <= j < f.len() implies is_digit(#[trigger] f[j]) by {
                assert(f[j] == cs@[frac_start + j]);
            }
            assert forall|j: int| 0 <= j < i.len() implies is_digit(#[trigger] i[j]) by {
                assert(i[j] == cs@[start + j]);
            }
            assert(i[0] == cs@[start as int]);
            assert(canonical_digits(i));
            let tail: Seq<char> = if f.len() > 0 { seq!['.'] + f } else { Seq::empty() };
            let sign: Seq<char> = if negative { seq!['-'] } else { Seq::empty() };
            assert(cs@ =~= sign + i + tail);
            if ok {
                assert(i == wi);
                if int_end < n {
                    assert(f == wf);
                } else {
                    assert(f =~= wf);
                }
            }
        }
        let v = match read_digits(&ds) {
            Some(v) => v,
            None => {
                return None;
            },
        };
        let scale = (frac_end - frac_start) as u32;
        if negative {
            if v == 0 {
                return None;
            }
            let d = Decimal { mantissa: (-(v as i128)) as i64, scale };
            proof {
                lemma_layout_decimal(negative, i, f, d);
            }
            Some(d)
        } else {
            if v > 9223372036854775807 {
                return None;
            }
            let d = Decimal { mantissa: v as i64, scale };
            proof {
                lemma_layout_decimal(negative, i, f, d);
            }
            Some(d)
        }
    }
}

} // verus!
