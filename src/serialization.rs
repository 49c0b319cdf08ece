use vstd::prelude::*;

use crate::keys::{Decimal, Entry, Point, Points, Value};
use crate::text::{
    drop_digits, int_text, is_digit, low_digits, magnitude, nat_text, push_char, push_int, push_low_digits,
    push_nat, shift_digits,
};

verus! {

/// The escaping rules of the protocol and of the query language.
#[derive(Debug, Clone, Copy, PartialEq, Eq, Structural)]
pub enum Escape {
    /// measurement names: comma and space
    Measurement,
    /// tag keys, tag values and field keys: comma, equals sign and space
    KeyOrTag,
    /// double quotes
    Quote,
    /// string field values: double quotes, with one more backslash where a
    /// backslash already stands before the quote
    FieldText,
    /// identifiers: backslash, double quote and newline
    Ident,
    /// literals: backslash and single quote
    Literal,
    /// cleaned server messages: quotes and backslashes are removed
    Strip,
}

/// What one character becomes under an escaping rule; `prev` is the character
/// before it in the input, if any.
pub open spec fn escape_piece(kind: Escape, prev: Option<char>, c: char) -> Seq<char> {
    match kind {
        Escape::Measurement => {
            if c == ',' || c == ' ' { seq!['\\', c] } else { seq![c] }
        },
        Escape::KeyOrTag => {
            if c == ',' || c == '=' || c == ' ' { seq!['\\', c] } else { seq![c] }
        },
        Escape::Quote => {
            if c == '"' { seq!['\\', '"'] } else { seq![c] }
        },
        Escape::FieldText => {
            if c == '"' {
                if prev == Some('\\') { seq!['\\', '\\', '"'] } else { seq!['\\', '"'] }
            } else {
                seq![c]
            }
        },
        Escape::Ident => {
            if c == '\\' { seq!['\\', '\\'] }
            else if c == '"' { seq!['\\', '"'] }
            else if c == '\n' { seq!['\\', 'n'] }
            else { seq![c] }
        },
        Escape::Literal => {
            if c == '\\' { seq!['\\', '\\'] }
            else if c == '\'' { seq!['\\', '\''] }
            else { seq![c] }
        },
        Escape::Strip => {
            if c == '\'' || c == '"' || c == '\\' { Seq::empty() } else { seq![c] }
        },
    }
}

/// The character before the last one, if any.
pub open spec fn before_last(s: Seq<char>) -> Option<char> {
    if s.len() >= 2 { Some(s[s.len() - 2]) } else { None }
}

/// `s` with every character replaced as `kind` says.
pub open spec fn escaped(kind: Escape, s: Seq<char>) -> Seq<char>
    decreases s.len(),
{
    if s.len() == 0 {
        Seq::empty()
    } else {
        escaped(kind, s.drop_last()) + escape_piece(kind, before_last(s), s.last())
    }
}

/// `s` between two copies of `q`.
pub open spec fn wrapped(q: char, s: Seq<char>) -> Seq<char> {
    seq![q] + s + seq![q]
}

/// What remains of a string once whitespace at both ends is removed.
pub uninterp spec fn trimmed(s: Seq<char>) -> Seq<char>;

/// Relies on `str::trim`: the result depends on the characters alone.
#[verifier::external_body]
fn trim(value: &str) -> (r: String)
    ensures
        r@ == trimmed(value@),
{
    value.trim().to_string()
}

fn push_piece(out: &mut String, kind: Escape, prev: Option<char>, c: char)
    ensures
        final(out)@ == old(out)@ + escape_piece(kind, prev, c),
{
    let backslash = match kind {
        Escape::Measurement => c == ',' || c == ' ',
        Escape::KeyOrTag => c == ',' || c == '=' || c == ' ',
        Escape::Quote | Escape::FieldText => c == '"',
        Escape::Ident => c == '\\' || c == '"' || c == '\n',
        Escape::Literal => c == '\\' || c == '\'',
        Escape::Strip => false,
    };
    let skip = match kind {
        Escape::Strip => c == '\'' || c == '"' || c == '\\',
        _ => false,
    };
    if backslash {
        push_char(out, '\\');
        if kind == Escape::FieldText && prev == Some('\\') {
            push_char(out, '\\');
        }
        if kind == Escape::Ident && c == '\n' {
            push_char(out, 'n');
        } else {
            push_char(out, c);
        }
    } else if !skip {
        push_char(out, c);
    }
}

/// Appends `value` escaped as `kind` says.
pub(crate) fn push_escaped(out: &mut String, value: &str, kind: Escape)
    ensures
        final(out)@ == old(out)@ + escaped(kind, value@),
{
    let ghost start = out@;
    let mut prev: Option<char> = None;
    for c in it: value.chars()
        invariant
            it.seq() == value@,
            out@ == start + escaped(kind, value@.take(it.index() as int)),
            prev == (if it.index() > 0 { Some(value@[it.index() - 1]) } else { None::<char> }),
    {
        let ghost k = it.index() as int;
        proof {
            let t = value@.take(k + 1);
            assert(t.drop_last() == value@.take(k));
            assert(t.last() == c);
            assert(before_last(t) == prev);
        }
        push_piece(out, kind, prev, c);
        prev = Some(c);
        proof {
            assert(out@ == start + escaped(kind, value@.take(k + 1)));
        }
    }
    proof {
        assert(value@.take(value@.len() as int) == value@);
    }
}

/// `value` with comma and space escaped, as measurement names are written.
pub fn escape_measurement(value: &str) -> (r: String)
    ensures
        r@ == escaped(Escape::Measurement, value@),
{
    let mut out = String::new();
    push_escaped(&mut out, value, Escape::Measurement);
    out
}

/// `value` with comma, equals sign and space escaped, as tag keys, tag values
/// and field keys are written.
pub fn escape_keys_and_tags(value: &str) -> (r: String)
    ensures
        r@ == escaped(Escape::KeyOrTag, value@),
{
    let mut out = String::new();
    push_escaped(&mut out, value, Escape::KeyOrTag);
    out
}

/// `value` in double quotes, with the double quotes in it escaped.
pub fn escape_string_field_value(value: &str) -> (r: String)
    ensures
        r@ == wrapped('"', escaped(Escape::Quote, value@)),
{
    let mut out = String::new();
    push_char(&mut out, '"');
    push_escaped(&mut out, value, Escape::Quote);
    push_char(&mut out, '"');
    out
}

/// An identifier for the query language: in double quotes, with backslash,
/// double quote and newline escaped.
pub fn quote_ident(value: &str) -> (r: String)
    ensures
        r@ == wrapped('"', escaped(Escape::Ident, value@)),
{
    let mut out = String::new();
    push_char(&mut out, '"');
    push_escaped(&mut out, value, Escape::Ident);
    push_char(&mut out, '"');
    out
}

/// A literal for the query language: in single quotes, with backslash and
/// single quote escaped.
pub fn quote_literal(value: &str) -> (r: String)
    ensures
        r@ == wrapped('\'', escaped(Escape::Literal, value@)),
{
    let mut out = String::new();
    push_char(&mut out, '\'');
    push_escaped(&mut out, value, Escape::Literal);
    push_char(&mut out, '\'');
    out
}

/// A server message with all quotes and backslashes removed, then trimmed.
pub fn conversion(value: &str) -> (r: String)
    ensures
        r@ == trimmed(escaped(Escape::Strip, value@)),
{
    let mut out = String::new();
    push_escaped(&mut out, value, Escape::Strip);
    trim(out.as_str())
}

/// `true` or `false`.
pub open spec fn bool_text(b: bool) -> Seq<char> {
    if b { seq!['t', 'r', 'u', 'e'] } else { seq!['f', 'a', 'l', 's', 'e'] }
}

/// Plain decimal form of a decimal number: sign, integer digits, and for a
/// positive scale a point followed by exactly `scale` fractional digits.
pub open spec fn decimal_text(d: Decimal) -> Seq<char> {
    let m: nat = if d.mantissa < 0 { (-d.mantissa) as nat } else { d.mantissa as nat };
    let sign: Seq<char> = if d.mantissa < 0 { seq!['-'] } else { Seq::empty() };
    let frac: Seq<char> = if d.scale > 0 {
        seq!['.'] + low_digits(m, d.scale as nat)
    } else {
        Seq::empty()
    };
    sign + nat_text(drop_digits(m, d.scale as nat)) + frac
}

/// A tag value as plain text: strings escaped, numbers and booleans as they read.
pub open spec fn tag_value_text(v: Value) -> Seq<char> {
    match v {
        Value::String(s) => escaped(Escape::KeyOrTag, s@),
        Value::Integer(i) => int_text(i as int),
        Value::Float(d) => decimal_text(d),
        Value::Boolean(b) => bool_text(b),
    }
}

/// A field value as a typed literal: strings quoted, integers with a trailing
/// `i`, decimals and booleans as they read.
pub open spec fn field_value_text(v: Value) -> Seq<char> {
    match v {
        Value::String(s) => wrapped('"', escaped(Escape::FieldText, s@)),
        Value::Integer(i) => int_text(i as int).push('i'),
        Value::Float(d) => decimal_text(d),
        Value::Boolean(b) => bool_text(b),
    }
}

/// `,<key>=<value>` for one tag.
pub open spec fn tag_text(e: Entry) -> Seq<char> {
    seq![','] + escaped(Escape::KeyOrTag, e.0@) + seq!['='] + tag_value_text(e.1)
}

/// `<key>=<value>` for one field.
pub open spec fn field_text(e: Entry) -> Seq<char> {
    escaped(Escape::KeyOrTag, e.0@) + seq!['='] + field_value_text(e.1)
}

/// All tags, each introduced by a comma.
pub open spec fn tags_text(tags: Seq<Entry>) -> Seq<char>
    decreases tags.len(),
{
    if tags.len() == 0 {
        Seq::empty()
    } else {
        tags_text(tags.drop_last()) + tag_text(tags.last())
    }
}

/// All fields, separated by commas.
pub open spec fn fields_text(fields: Seq<Entry>) -> Seq<char>
    decreases fields.len(),
{
    if fields.len() == 0 {
        Seq::empty()
    } else if fields.len() == 1 {
        field_text(fields[0])
    } else {
        fields_text(fields.drop_last()) + seq![','] + field_text(fields.last())
    }
}

/// A space and the timestamp, or nothing.
pub open spec fn timestamp_text(t: Option<i64>) -> Seq<char> {
    match t {
        Some(t) => seq![' '] + int_text(t as int),
        None => Seq::empty(),
    }
}

/// The line of one point, newline included.
pub open spec fn point_line(p: Point) -> Seq<char> {
    escaped(Escape::Measurement, p.measurement@) + tags_text(p.tags@) + seq![' '] + fields_text(
        p.fields@,
    ) + timestamp_text(p.timestamp) + seq!['\n']
}

/// The lines of all points, in order.
pub open spec fn lines(points: Seq<Point>) -> Seq<char>
    decreases points.len(),
{
    if points.len() == 0 {
        Seq::empty()
    } else {
        lines(points.drop_last()) + point_line(points.last())
    }
}

fn push_bool(out: &mut String, b: bool)
    ensures
        final(out)@ == old(out)@ + bool_text(b),
{
    if b {
        push_char(out, 't');
        push_char(out, 'r');
        push_char(out, 'u');
        push_char(out, 'e');
    } else {
        push_char(out, 'f');
        push_char(out, 'a');
        push_char(out, 'l');
        push_char(out, 's');
        push_char(out, 'e');
    }
}

fn push_decimal(out: &mut String, d: Decimal)
    ensures
        final(out)@ == old(out)@ + decimal_text(d),
{
    if d.mantissa < 0 {
        push_char(out, '-');
    }
    let ghost signed = out@;
    let m = magnitude(d.mantissa);
    push_nat(out, shift_digits(m, d.scale));
    let ghost whole = out@;
    if d.scale > 0 {
        push_char(out, '.');
        push_low_digits(out, m, d.scale);
    }
    proof {
        let sign: Seq<char> = if d.mantissa < 0 { seq!['-'] } else { Seq::empty() };
        assert(signed == old(out)@ + sign);
        if d.scale > 0 {
            assert(out@ == whole + (seq!['.'] + low_digits(m as nat, d.scale as nat)));
        } else {
            assert(out@ == whole + Seq::<char>::empty());
        }
    }
}

fn push_tag_value(out: &mut String, v: &Value)
    ensures
        final(out)@ == old(out)@ + tag_value_text(*v),
{
    match v {
        Value::String(s) => push_escaped(out, s.as_str(), Escape::KeyOrTag),
        Value::Integer(i) => push_int(out, *i),
        Value::Float(d) => push_decimal(out, *d),
        Value::Boolean(b) => push_bool(out, *b),
    }
}

fn push_field_value(out: &mut String, v: &Value)
    ensures
        final(out)@ == old(out)@ + field_value_text(*v),
{
    match v {
        Value::String(s) => {
            push_char(out, '"');
            push_escaped(out, s.as_str(), Escape::FieldText);
            push_char(out, '"');
            proof {
                assert(out@ == old(out)@ + wrapped('"', escaped(Escape::FieldText, s@)));
            }
        },
        Value::Integer(i) => {
            push_int(out, *i);
            push_char(out, 'i');
        },
        Value::Float(d) => push_decimal(out, *d),
        Value::Boolean(b) => push_bool(out, *b),
    }
}

fn push_line(out: &mut String, p: &Point)
    ensures
        final(out)@ == old(out)@ + point_line(*p),
{
    let ghost start = out@;
    push_escaped(out, p.measurement.as_str(), Escape::Measurement);
    let ghost head = out@;
    let mut i: usize = 0;
    while i < p.tags.len()
        invariant
            i <= p.tags@.len(),
            out@ == head + tags_text(p.tags@.take(i as int)),
        decreases p.tags@.len() - i,
    {
        let ghost before = out@;
        push_char(out, ',');
        push_escaped(out, p.tags[i].0.as_str(), Escape::KeyOrTag);
        push_char(out, '=');
        push_tag_value(out, &p.tags[i].1);
        proof {
            let t = p.tags@.take(i + 1);
            assert(t.drop_last() == p.tags@.take(i as int));
            assert(out@ == before + tag_text(t.last()));
        }
        i = i + 1;
    }
    assert(p.tags@.take(p.tags@.len() as int) == p.tags@);
    push_char(out, ' ');
    let ghost body = out@;
    let mut j: usize = 0;
    while j < p.fields.len()
        invariant
            j <= p.fields@.len(),
            out@ == body + fields_text(p.fields@.take(j as int)),
        decreases p.fields@.len() - j,
    {
        let ghost before = out@;
        if j > 0 {
            push_char(out, ',');
        }
        let ghost sep = out@;
        push_escaped(out, p.fields[j].0.as_str(), Escape::KeyOrTag);
        push_char(out, '=');
        push_field_value(out, &p.fields[j].1);
        proof {
            let f = p.fields@.take(j + 1);
            assert(f.drop_last() == p.fields@.take(j as int));
            assert(out@ == sep + field_text(f.last()));
            if j == 0 {
                assert(f[0] == f.last());
            }
        }
        j = j + 1;
    }
    assert(p.fields@.take(p.fields@.len() as int) == p.fields@);
    let ghost fields_end = out@;
    match p.timestamp {
        Some(t) => {
            push_char(out, ' ');
            push_int(out, t);
        },
        None => {},
    }
    push_char(out, '\n');
    proof {
        assert(out@ == fields_end + timestamp_text(p.timestamp) + seq!['\n']);
    }
}

/// The line-protocol text of a batch: one line per point, in order, each
/// ending with a newline.
pub fn line_serialization(points: &Points) -> (r: String)
    ensures
        r@ == lines(points.point@),
{
    let mut out = String::new();
    let mut i: usize = 0;
    while i < points.point.len()
        invariant
            i <= points.point@.len(),
            out@ == lines(points.point@.take(i as int)),
        decreases points.point@.len() - i,
    {
        push_line(&mut out, &points.point[i]);
        proof {
            let t = points.point@.take(i + 1);
            assert(t.drop_last() == points.point@.take(i as int));
        }
        i = i + 1;
    }
    assert(points.point@.take(points.point@.len() as int) == points.point@);
    out
}

proof fn lemma_escaped_first(kind: Escape, s: Seq<char>)
    requires
        s.len() > 0,
    ensures
        escape_piece(kind, None, s[0]).is_prefix_of(escaped(kind, s)),
    decreases s.len(),
{
    if s.len() > 1 {
        lemma_escaped_first(kind, s.drop_last());
    } else {
        assert(s.drop_last() =~= Seq::<char>::empty());
        assert(escaped(kind, s.drop_last()) == Seq::<char>::empty());
        assert(escaped(kind, s) =~= escape_piece(kind, None, s[0]));
    }
}

proof fn lemma_fields_first(fields: Seq<Entry>)
    requires
        fields.len() > 0,
    ensures
        field_text(fields[0]).is_prefix_of(fields_text(fields)),
    decreases fields.len(),
{
    if fields.len() > 1 {
        lemma_fields_first(fields.drop_last());
    }
}

proof fn lemma_tags_first(tags: Seq<Entry>)
    requires
        tags.len() > 0,
    ensures
        tag_text(tags[0]).is_prefix_of(tags_text(tags)),
    decreases tags.len(),
{
    if tags.len() > 1 {
        lemma_tags_first(tags.drop_last());
    } else {
        assert(tags.drop_last() =~= Seq::<Entry>::empty());
        assert(tags_text(tags.drop_last()) == Seq::<char>::empty());
        assert(tags_text(tags) =~= tag_text(tags[0]));
    }
}

/// A point without tags and timestamp is written as its escaped measurement, one
/// space, its fields and a newline; the field block does not start with a comma.
pub proof fn lemma_line_without_tags(p: Point)
    requires
        p.tags@.len() == 0,
        p.timestamp.is_none(),
    ensures
        point_line(p) == escaped(Escape::Measurement, p.measurement@) + seq![' '] + fields_text(
            p.fields@,
        ) + seq!['\n'],
        p.fields@.len() > 0 ==> fields_text(p.fields@)[0] != ',',
{
    assert(tags_text(p.tags@) == Seq::<char>::empty());
    assert(timestamp_text(p.timestamp) == Seq::<char>::empty());
    assert(point_line(p) == escaped(Escape::Measurement, p.measurement@) + seq![' '] + fields_text(
        p.fields@,
    ) + seq!['\n']);
    if p.fields@.len() > 0 {
        let f = p.fields@[0];
        lemma_fields_first(p.fields@);
        assert(field_text(f).len() > 0);
        assert(fields_text(p.fields@)[0] == field_text(f)[0]);
        if f.0@.len() > 0 {
            let k = escaped(Escape::KeyOrTag, f.0@);
            let piece = escape_piece(Escape::KeyOrTag, None, f.0@[0]);
            lemma_escaped_first(Escape::KeyOrTag, f.0@);
            assert(piece[0] != ',');
            assert(k[0] == piece[0]);
            assert(field_text(f)[0] == k[0]);
        } else {
            assert(escaped(Escape::KeyOrTag, f.0@) == Seq::<char>::empty());
            assert(field_text(f)[0] == '=');
        }
    }
}

/// In the line of a point with tags, the first tag follows the escaped
/// measurement at once, as `,<key>=<value>`.
pub proof fn lemma_first_tag_follows_measurement(p: Point)
    requires
        p.tags@.len() > 0,
    ensures
        (escaped(Escape::Measurement, p.measurement@) + seq![','] + escaped(
            Escape::KeyOrTag,
            p.tags@[0].0@,
        ) + seq!['='] + tag_value_text(p.tags@[0].1)).is_prefix_of(point_line(p)),
{
    let m = escaped(Escape::Measurement, p.measurement@);
    let t = tag_text(p.tags@[0]);
    lemma_tags_first(p.tags@);
    assert(m + seq![','] + escaped(Escape::KeyOrTag, p.tags@[0].0@) + seq!['='] + tag_value_text(
        p.tags@[0].1,
    ) == m + t);
    let line = point_line(p);
    assert(line == m + tags_text(p.tags@) + (seq![' '] + fields_text(p.fields@) + timestamp_text(
        p.timestamp,
    ) + seq!['\n']));
    assert forall|i: int| 0 <= i < (m + t).len() implies (m + t)[i] == line[i] by {
        if i >= m.len() {
            assert(t[i - m.len()] == tags_text(p.tags@)[i - m.len()]);
        }
    }
}

proof fn lemma_nat_text_digits(n: nat)
    ensures
        nat_text(n).len() > 0,
        forall|i: int| 0 <= i < nat_text(n).len() ==> is_digit(#[trigger] nat_text(n)[i]),
    decreases n,
{
    if n >= 10 {
        lemma_nat_text_digits(n / 10);
    }
}

proof fn lemma_low_digits_digits(n: nat, width: nat)
    ensures
        low_digits(n, width).len() == width,
        forall|i: int| 0 <= i < low_digits(n, width).len() ==> is_digit(#[trigger] low_digits(n, width)[i]),
    decreases width,
{
    if width > 0 {
        lemma_low_digits_digits(n / 10, (width - 1) as nat);
    }
}

/// An integer field value ends with `i`; a decimal field value ends with a digit,
/// never with `i`.
pub proof fn lemma_numeric_suffix(v: Value)
    ensures
        v is Integer ==> field_value_text(v).last() == 'i',
        v is Float ==> field_value_text(v).len() > 0 && is_digit(field_value_text(v).last())
            && field_value_text(v).last() != 'i',
{
    if let Value::Float(d) = v {
        let m: nat = if d.mantissa < 0 { (-d.mantissa) as nat } else { d.mantissa as nat };
        lemma_nat_text_digits(drop_digits(m, d.scale as nat));
        lemma_low_digits_digits(m, d.scale as nat);
    }
}

/// Every double quote in `escaped(kind, s)`, for the two quoting rules of string
/// field values, comes right after a backslash.
pub open spec fn quotes_escaped(e: Seq<char>) -> bool {
    forall|i: int| 0 <= i < e.len() && #[trigger] e[i] == '"' ==> i > 0 && e[i - 1] == '\\'
}

proof fn lemma_quotes_escaped(kind: Escape, s: Seq<char>)
    requires
        kind == Escape::Quote || kind == Escape::FieldText,
    ensures
        quotes_escaped(escaped(kind, s)),
    decreases s.len(),
{
    if s.len() > 0 {
        lemma_quotes_escaped(kind, s.drop_last());
        let a = escaped(kind, s.drop_last());
        let b = escape_piece(kind, before_last(s), s.last());
        let e = a + b;
        assert(escaped(kind, s) == e);
        assert forall|i: int| 0 <= i < e.len() && #[trigger] e[i] == '"' implies i > 0 && e[i - 1]
            == '\\' by {
            if i < a.len() {
                assert(e[i] == a[i]);
                assert(e[i - 1] == a[i - 1]);
            } else {
                assert(e[i] == b[i - a.len()]);
                assert(i - a.len() == b.len() - 1);
                assert(b[b.len() - 2] == '\\');
            }
        }
    }
}

/// A string field value is written between one pair of double quotes, and every
/// double quote inside them is escaped with a backslash.
pub proof fn lemma_string_field_quoted(s: String)
    ensures
        field_value_text(Value::String(s)) == wrapped('"', escaped(Escape::FieldText, s@)),
        quotes_escaped(escaped(Escape::FieldText, s@)),
        quotes_escaped(escaped(Escape::Quote, s@)),
{
    lemma_quotes_escaped(Escape::FieldText, s@);
    lemma_quotes_escaped(Escape::Quote, s@);
}

/// The text of a batch depends on its points alone: equal batches are written
/// identically.
pub proof fn lemma_serialization_deterministic(a: Points, b: Points)
    requires
        a.point@ == b.point@,
    ensures
        lines(a.point@) == lines(b.point@),
{
}

/// Number of newline characters in a text.
pub open spec fn newline_count(s: Seq<char>) -> nat
    decreases s.len(),
{
    if s.len() == 0 {
        0
    } else {
        newline_count(s.drop_last()) + if s.last() == '\n' { 1nat } else { 0nat }
    }
}

proof fn lemma_newline_count_concat(a: Seq<char>, b: Seq<char>)
    ensures
        newline_count(a + b) == newline_count(a) + newline_count(b),
    decreases b.len(),
{
    if b.len() > 0 {
        lemma_newline_count_concat(a, b.drop_last());
        assert((a + b).drop_last() == a + b.drop_last());
    } else {
        assert(a + b == a);
    }
}

proof fn lemma_newline_count_single(c: char)
    ensures
        newline_count(seq![c]) == if c == '\n' { 1nat } else { 0nat },
{
    assert(seq![c].drop_last() =~= Seq::<char>::empty());
    assert(newline_count(Seq::<char>::empty()) == 0);
    assert(seq![c].last() == c);
}

proof fn lemma_newline_count_zero(s: Seq<char>)
    requires
        !s.contains('\n'),
    ensures
        newline_count(s) == 0,
    decreases s.len(),
{
    if s.len() > 0 {
        assert(s.last() == s[s.len() - 1]);
        assert forall|i: int| 0 <= i < s.drop_last().len() implies s.drop_last()[i] != '\n' by {
            assert(s.drop_last()[i] == s[i]);
        }
        lemma_newline_count_zero(s.drop_last());
    }
}

/// No newline in a name or a string value of the point.
pub open spec fn point_single_line(p: Point) -> bool {
    &&& !p.measurement@.contains('\n')
    &&& forall|i: int| 0 <= i < p.tags@.len() ==> entry_single_line(#[trigger] p.tags@[i])
    &&& forall|i: int| 0 <= i < p.fields@.len() ==> entry_single_line(#[trigger] p.fields@[i])
}

/// No newline in the name of an entry nor in its string value.
pub open spec fn entry_single_line(e: Entry) -> bool {
    &&& !e.0@.contains('\n')
    &&& match e.1 {
        Value::String(s) => !s@.contains('\n'),
        _ => true,
    }
}

proof fn lemma_escaped_no_newline(kind: Escape, s: Seq<char>)
    requires
        kind != Escape::Ident,
        !s.contains('\n'),
    ensures
        !escaped(kind, s).contains('\n'),
    decreases s.len(),
{
    if s.len() > 0 {
        assert(s.last() == s[s.len() - 1]);
        assert forall|i: int| 0 <= i < s.drop_last().len() implies s.drop_last()[i] != '\n' by {
            assert(s.drop_last()[i] == s[i]);
        }
        lemma_escaped_no_newline(kind, s.drop_last());
        let a = escaped(kind, s.drop_last());
        let b = escape_piece(kind, before_last(s), s.last());
        assert forall|i: int| 0 <= i < (a + b).len() implies (a + b)[i] != '\n' by {
            if i < a.len() {
                assert((a + b)[i] == a[i]);
            } else {
                assert((a + b)[i] == b[i - a.len()]);
            }
        }
    }
}

proof fn lemma_digits_no_newline(s: Seq<char>)
    requires
        forall|i: int| 0 <= i < s.len() ==> is_digit(#[trigger] s[i]),
    ensures
        !s.contains('\n'),
{
    assert forall|i: int| 0 <= i < s.len() implies s[i] != '\n' by {
        assert(is_digit(s[i]));
    }
}

proof fn lemma_int_text_no_newline(i: int)
    ensures
        !int_text(i).contains('\n'),
{
    let n: nat = if i < 0 { (-i) as nat } else { i as nat };
    lemma_nat_text_digits(n);
    lemma_digits_no_newline(nat_text(n));
    if i < 0 {
        let t = seq!['-'] + nat_text(n);
        assert forall|k: int| 0 <= k < t.len() implies t[k] != '\n' by {
            if k > 0 {
                assert(t[k] == nat_text(n)[k - 1]);
            }
        }
    }
}

proof fn lemma_value_no_newline(v: Value)
    requires
        match v {
            Value::String(s) => !s@.contains('\n'),
            _ => true,
        },
    ensures
        !tag_value_text(v).contains('\n'),
        !field_value_text(v).contains('\n'),
{
    match v {
        Value::String(s) => {
            lemma_escaped_no_newline(Escape::KeyOrTag, s@);
            lemma_escaped_no_newline(Escape::FieldText, s@);
        },
        Value::Integer(i) => {
            lemma_int_text_no_newline(i as int);
        },
        Value::Float(d) => {
            let m: nat = if d.mantissa < 0 { (-d.mantissa) as nat } else { d.mantissa as nat };
            lemma_nat_text_digits(drop_digits(m, d.scale as nat));
            lemma_low_digits_digits(m, d.scale as nat);
            lemma_digits_no_newline(nat_text(drop_digits(m, d.scale as nat)));
            lemma_digits_no_newline(low_digits(m, d.scale as nat));
        },
        Value::Boolean(b) => {},
    }
}

proof fn lemma_point_newlines(p: Point)
    requires
        point_single_line(p),
    ensures
        newline_count(point_line(p)) == 1,
        point_line(p).last() == '\n',
{
    let m = escaped(Escape::Measurement, p.measurement@);
    lemma_escaped_no_newline(Escape::Measurement, p.measurement@);
    lemma_newline_count_zero(m);
    let t = p.tags@;
    let f = p.fields@;
    lemma_tags_newlines(t);
    lemma_fields_newlines(f);
    let ts = timestamp_text(p.timestamp);
    if let Some(x) = p.timestamp {
        lemma_int_text_no_newline(x as int);
        lemma_newline_count_concat(seq![' '], int_text(x as int));
        lemma_newline_count_zero(int_text(x as int));
    }
    lemma_newline_count_single(' ');
    lemma_newline_count_single('\n');
    lemma_newline_count_concat(m, tags_text(t));
    lemma_newline_count_concat(m + tags_text(t), seq![' ']);
    lemma_newline_count_concat(m + tags_text(t) + seq![' '], fields_text(f));
    lemma_newline_count_concat(m + tags_text(t) + seq![' '] + fields_text(f), ts);
    lemma_newline_count_concat(m + tags_text(t) + seq![' '] + fields_text(f) + ts, seq!['\n']);
}

proof fn lemma_one_entry_newlines(e: Entry)
    requires
        entry_single_line(e),
    ensures
        newline_count(tag_text(e)) == 0,
        newline_count(field_text(e)) == 0,
{
    lemma_escaped_no_newline(Escape::KeyOrTag, e.0@);
    lemma_value_no_newline(e.1);
    let k = escaped(Escape::KeyOrTag, e.0@);
    let tv = tag_value_text(e.1);
    let fv = field_value_text(e.1);
    let tt = seq![','] + k + seq!['='] + tv;
    let ft = k + seq!['='] + fv;
    assert forall|i: int| 0 <= i < tt.len() implies tt[i] != '\n' by {
        if 1 <= i < 1 + k.len() {
            assert(tt[i] == k[i - 1]);
        } else if i >= 2 + k.len() {
            assert(tt[i] == tv[i - 2 - k.len()]);
        }
    }
    assert forall|i: int| 0 <= i < ft.len() implies ft[i] != '\n' by {
        if i < k.len() {
            assert(ft[i] == k[i]);
        } else if i >= 1 + k.len() {
            assert(ft[i] == fv[i - 1 - k.len()]);
        }
    }
    lemma_newline_count_zero(tt);
    lemma_newline_count_zero(ft);
}

proof fn lemma_tags_newlines(t: Seq<Entry>)
    requires
        forall|i: int| 0 <= i < t.len() ==> entry_single_line(#[trigger] t[i]),
    ensures
        newline_count(tags_text(t)) == 0,
    decreases t.len(),
{
    if t.len() > 0 {
        assert(forall|i: int| 0 <= i < t.drop_last().len() ==> t.drop_last()[i] == t[i]);
        lemma_tags_newlines(t.drop_last());
        lemma_one_entry_newlines(t.last());
        lemma_newline_count_concat(tags_text(t.drop_last()), tag_text(t.last()));
    }
}

proof fn lemma_fields_newlines(f: Seq<Entry>)
    requires
        forall|i: int| 0 <= i < f.len() ==> entry_single_line(#[trigger] f[i]),
    ensures
        newline_count(fields_text(f)) == 0,
    decreases f.len(),
{
    if f.len() == 1 {
        lemma_one_entry_newlines(f[0]);
    } else if f.len() > 1 {
        assert(forall|i: int| 0 <= i < f.drop_last().len() ==> f.drop_last()[i] == f[i]);
        lemma_fields_newlines(f.drop_last());
        lemma_one_entry_newlines(f.last());
        lemma_newline_count_single(',');
        lemma_newline_count_concat(fields_text(f.drop_last()), seq![',']);
        lemma_newline_count_concat(fields_text(f.drop_last()) + seq![','], field_text(f.last()));
    }
}

/// A batch of points without newlines in their names and string values is
/// written as exactly one newline-terminated line per point: the text holds as
/// many newlines as there are points, and ends with one when it is not empty.
pub proof fn lemma_one_line_per_point(points: Seq<Point>)
    requires
        forall|i: int| 0 <= i < points.len() ==> point_single_line(#[trigger] points[i]),
    ensures
        newline_count(lines(points)) == points.len(),
        points.len() > 0 ==> lines(points).last() == '\n',
    decreases points.len(),
{
    if points.len() > 0 {
        assert(forall|i: int| 0 <= i < points.drop_last().len() ==> points.drop_last()[i] == points[i]);
        lemma_one_line_per_point(points.drop_last());
        lemma_point_newlines(points.last());
        lemma_newline_count_concat(lines(points.drop_last()), point_line(points.last()));
    }
}

} // verus!
