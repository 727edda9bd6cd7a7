//! The JSON data model the pipeline moves around: argument blobs, result
//! envelopes, and the values embedded in synthesized driver programs.
//!
//! `JsonValue` is the executable document; `JVal` is its mathematical model.
//! The grammar is the compact form: no whitespace between tokens, integer
//! numbers, and strings escaping `"`, `\`, newline, carriage return and tab.
//! `ser` says what a document looks like as text and `parse_val` reads one
//! back; `lemma_parse_ser` proves the two are inverse.
use vstd::prelude::*;

verus! {

/// Mathematical model of a JSON document.
pub enum JVal {
    Null,
    Bool(bool),
    Int(int),
    Str(Seq<char>),
    Arr(Seq<JVal>),
    Obj(Seq<(Seq<char>, JVal)>),
}

/// An executable JSON document.  Object member order is kept, as it is kept
/// on the wire.
#[derive(Debug)]
pub enum JsonValue {
    Null,
    Bool(bool),
    Int(i64),
    Str(String),
    Arr(Vec<JsonValue>),
    Obj(Vec<(String, JsonValue)>),
}

impl View for JsonValue {
    type V = JVal;

    open spec fn view(&self) -> JVal {
        jval_of(*self)
    }
}

/// The mathematical document an executable one stands for.
pub open spec fn jval_of(v: JsonValue) -> JVal
    decreases v, 1int,
{
    match v {
        JsonValue::Null => JVal::Null,
        JsonValue::Bool(b) => JVal::Bool(b),
        JsonValue::Int(i) => JVal::Int(i as int),
        JsonValue::Str(s) => JVal::Str(s@),
        JsonValue::Arr(a) => JVal::Arr(jvals_of(a@)),
        JsonValue::Obj(o) => JVal::Obj(jfields_of(o@)),
    }
}

/// The models of a sequence of executable documents, in order.
pub open spec fn jvals_of(s: Seq<JsonValue>) -> Seq<JVal>
    decreases s, 0int,
{
    if s.len() == 0 {
        Seq::empty()
    } else {
        jvals_of(s.drop_last()).push(jval_of(s.last()))
    }
}

/// The models of a sequence of executable object members, in order.
pub open spec fn jfields_of(s: Seq<(String, JsonValue)>) -> Seq<(Seq<char>, JVal)>
    decreases s, 0int,
{
    if s.len() == 0 {
        Seq::empty()
    } else {
        jfields_of(s.drop_last()).push((s.last().0@, jval_of(s.last().1)))
    }
}

pub broadcast proof fn lemma_jvals_of_len(s: Seq<JsonValue>)
    ensures
        (#[trigger] jvals_of(s)).len() == s.len(),
    decreases s.len(),
{
    if s.len() > 0 {
        lemma_jvals_of_len(s.drop_last());
    }
}

pub broadcast proof fn lemma_jvals_of_index(s: Seq<JsonValue>, i: int)
    requires
        0 <= i < s.len(),
    ensures
        #[trigger] jvals_of(s)[i] == jval_of(s[i]),
    decreases s.len(),
{
    lemma_jvals_of_len(s.drop_last());
    if i < s.len() - 1 {
        lemma_jvals_of_index(s.drop_last(), i);
    }
}

pub broadcast proof fn lemma_jfields_of_len(s: Seq<(String, JsonValue)>)
    ensures
        (#[trigger] jfields_of(s)).len() == s.len(),
    decreases s.len(),
{
    if s.len() > 0 {
        lemma_jfields_of_len(s.drop_last());
    }
}

pub broadcast proof fn lemma_jfields_of_index(s: Seq<(String, JsonValue)>, i: int)
    requires
        0 <= i < s.len(),
    ensures
        #[trigger] jfields_of(s)[i] == (s[i].0@, jval_of(s[i].1)),
    decreases s.len(),
{
    lemma_jfields_of_len(s.drop_last());
    if i < s.len() - 1 {
        lemma_jfields_of_index(s.drop_last(), i);
    }
}

/// A character a document string may hold: everything but the control
/// characters that the grammar has no escape for.
pub open spec fn wf_char(c: char) -> bool {
    c == '\n' || c == '\r' || c == '\t' || c as u32 >= 32
}

pub open spec fn wf_string(s: Seq<char>) -> bool {
    forall|i: int| 0 <= i < s.len() ==> wf_char(#[trigger] s[i])
}

/// A well-formed document: every string in it holds representable
/// characters, and every number fits a 64-bit signed integer.
pub open spec fn wf_jval(j: JVal) -> bool
    decreases j,
{
    match j {
        JVal::Null => true,
        JVal::Bool(_) => true,
        JVal::Int(i) => i64::MIN <= i <= i64::MAX,
        JVal::Str(s) => wf_string(s),
        JVal::Arr(elems) => forall|i: int| 0 <= i < elems.len() ==> wf_jval(#[trigger] elems[i]),
        JVal::Obj(fields) => forall|i: int|
            0 <= i < fields.len() ==> wf_string((#[trigger] fields[i]).0) && wf_jval(
                fields[i].1,
            ),
    }
}

/// The decimal digit character for `d` (0 through 9).
pub open spec fn digit_char(d: int) -> char {
    ((d + 48) as u8) as char
}

/// The value of a decimal digit character.
pub open spec fn digit_of(c: char) -> int {
    c as u32 - 48
}

pub open spec fn is_digit(c: char) -> bool {
    '0' <= c && c <= '9'
}

/// Decimal text of a non-negative integer, most significant digit first.
pub open spec fn ser_nat(n: int) -> Seq<char>
    decreases n,
{
    if n <= 9 {
        seq![digit_char(if n < 0 { 0 } else { n })]
    } else {
        ser_nat(n / 10) + seq![digit_char(n % 10)]
    }
}

/// Decimal text of an integer, with a leading minus sign when negative.
pub open spec fn ser_int(i: int) -> Seq<char> {
    if i < 0 {
        seq!['-'] + ser_nat(-i)
    } else {
        ser_nat(i)
    }
}

/// The escaped form of one string character.
pub open spec fn esc_char(c: char) -> Seq<char> {
    if c == '"' {
        seq!['\\', '"']
    } else if c == '\\' {
        seq!['\\', '\\']
    } else if c == '\n' {
        seq!['\\', 'n']
    } else if c == '\r' {
        seq!['\\', 'r']
    } else if c == '\t' {
        seq!['\\', 't']
    } else {
        seq![c]
    }
}

/// The body of a string literal: each character in escaped form.
pub open spec fn ser_str_body(s: Seq<char>) -> Seq<char>
    decreases s.len(),
{
    if s.len() == 0 {
        Seq::empty()
    } else {
        esc_char(s[0]) + ser_str_body(s.drop_first())
    }
}

/// Compact text of a document.
pub open spec fn ser(j: JVal) -> Seq<char>
    decreases j, 1int,
{
    match j {
        JVal::Null => seq!['n', 'u', 'l', 'l'],
        JVal::Bool(b) => if b {
            seq!['t', 'r', 'u', 'e']
        } else {
            seq!['f', 'a', 'l', 's', 'e']
        },
        JVal::Int(i) => ser_int(i),
        JVal::Str(s) => seq!['"'] + ser_str_body(s) + seq!['"'],
        JVal::Arr(elems) => seq!['['] + ser_elems(elems) + seq![']'],
        JVal::Obj(fields) => seq!['{'] + ser_fields(fields) + seq!['}'],
    }
}

/// Comma-separated text of array elements.
pub open spec fn ser_elems(elems: Seq<JVal>) -> Seq<char>
    decreases elems, 0int,
{
    if elems.len() == 0 {
        Seq::empty()
    } else if elems.len() == 1 {
        ser(elems[0])
    } else {
        ser(elems[0]) + seq![','] + ser_elems(elems.drop_first())
    }
}

/// Comma-separated text of object members, each a quoted key, a colon and a
/// value.
pub open spec fn ser_fields(fields: Seq<(Seq<char>, JVal)>) -> Seq<char>
    decreases fields, 0int,
{
    if fields.len() == 0 {
        Seq::empty()
    } else {
        let head = seq!['"'] + ser_str_body(fields[0].0) + seq!['"', ':'] + ser(fields[0].1);
        if fields.len() == 1 {
            head
        } else {
            head + seq![','] + ser_fields(fields.drop_first())
        }
    }
}

/// The character an escape sequence `\c` stands for, if `c` begins one.
pub open spec fn unescape_char(c: char) -> Option<char> {
    if c == '"' {
        Some('"')
    } else if c == '\\' {
        Some('\\')
    } else if c == 'n' {
        Some('\n')
    } else if c == 'r' {
        Some('\r')
    } else if c == 't' {
        Some('\t')
    } else {
        None
    }
}

/// The value of a run of decimal digit characters, most significant first.
pub open spec fn digits_val(ds: Seq<char>) -> int
    decreases ds.len(),
{
    if ds.len() == 0 {
        0
    } else {
        digits_val(ds.drop_last()) * 10 + digit_of(ds.last())
    }
}

/// Splits off the longest leading run of decimal digits.
pub open spec fn parse_digits(s: Seq<char>) -> (Seq<char>, Seq<char>)
    decreases s.len(),
{
    if s.len() > 0 && is_digit(s[0]) {
        let (ds, rest) = parse_digits(s.skip(1));
        (seq![s[0]] + ds, rest)
    } else {
        (Seq::empty(), s)
    }
}

/// Reads an integer number: an optional minus sign and a nonempty digit run
/// whose value fits a 64-bit signed integer.
pub open spec fn parse_int(s: Seq<char>) -> Option<(JVal, Seq<char>)> {
    if s.len() > 0 && s[0] == '-' {
        let (ds, rest) = parse_digits(s.skip(1));
        if ds.len() > 0 && -digits_val(ds) >= i64::MIN {
            Some((JVal::Int(-digits_val(ds)), rest))
        } else {
            None
        }
    } else {
        let (ds, rest) = parse_digits(s);
        if ds.len() > 0 && digits_val(ds) <= i64::MAX {
            Some((JVal::Int(digits_val(ds)), rest))
        } else {
            None
        }
    }
}

/// Reads a string literal body up to and over its closing quote, undoing
/// escapes; returns the content and what follows the quote.
pub open spec fn parse_str_body(s: Seq<char>) -> Option<(Seq<char>, Seq<char>)>
    decreases s.len(),
{
    if s.len() == 0 {
        None
    } else if s[0] == '"' {
        Some((Seq::empty(), s.skip(1)))
    } else if s[0] == '\\' {
        if s.len() >= 2 {
            match unescape_char(s[1]) {
                Some(c) => match parse_str_body(s.skip(2)) {
                    Some((t, rest)) => Some((seq![c] + t, rest)),
                    None => None,
                },
                None => None,
            }
        } else {
            None
        }
    } else {
        match parse_str_body(s.skip(1)) {
            Some((t, rest)) => Some((seq![s[0]] + t, rest)),
            None => None,
        }
    }
}

/// Reads one document from the front of `s`; returns it and the unread
/// remainder.  The text must be in compact form: no whitespace between
/// tokens.
pub open spec fn parse_val(s: Seq<char>) -> Option<(JVal, Seq<char>)>
    decreases s.len(), 0int,
{
    if s.len() == 0 {
        None
    } else if s[0] == 'n' {
        if s.len() >= 4 && s.subrange(0, 4) == seq!['n', 'u', 'l', 'l'] {
            Some((JVal::Null, s.skip(4)))
        } else {
            None
        }
    } else if s[0] == 't' {
        if s.len() >= 4 && s.subrange(0, 4) == seq!['t', 'r', 'u', 'e'] {
            Some((JVal::Bool(true), s.skip(4)))
        } else {
            None
        }
    } else if s[0] == 'f' {
        if s.len() >= 5 && s.subrange(0, 5) == seq!['f', 'a', 'l', 's', 'e'] {
            Some((JVal::Bool(false), s.skip(5)))
        } else {
            None
        }
    } else if s[0] == '"' {
        match parse_str_body(s.skip(1)) {
            Some((t, rest)) => Some((JVal::Str(t), rest)),
            None => None,
        }
    } else if s[0] == '[' {
        if s.len() >= 2 && s[1] == ']' {
            Some((JVal::Arr(Seq::empty()), s.skip(2)))
        } else {
            match parse_elems(s.skip(1)) {
                Some((elems, rest)) => if rest.len() > 0 && rest[0] == ']' {
                    Some((JVal::Arr(elems), rest.skip(1)))
                } else {
                    None
                },
                None => None,
            }
        }
    } else if s[0] == '{' {
        if s.len() >= 2 && s[1] == '}' {
            Some((JVal::Obj(Seq::empty()), s.skip(2)))
        } else {
            match parse_members(s.skip(1)) {
                Some((fields, rest)) => if rest.len() > 0 && rest[0] == '}' {
                    Some((JVal::Obj(fields), rest.skip(1)))
                } else {
                    None
                },
                None => None,
            }
        }
    } else if s[0] == '-' || is_digit(s[0]) {
        parse_int(s)
    } else {
        None
    }
}

/// Reads one or more comma-separated documents; stops before the first
/// character that does not continue the list.
pub open spec fn parse_elems(s: Seq<char>) -> Option<(Seq<JVal>, Seq<char>)>
    decreases s.len(), 1int,
{
    match parse_val(s) {
        None => None,
        Some((v, rest)) => if rest.len() < s.len() {
            if rest.len() > 0 && rest[0] == ',' {
                match parse_elems(rest.skip(1)) {
                    Some((elems, rest2)) => Some((seq![v] + elems, rest2)),
                    None => None,
                }
            } else {
                Some((seq![v], rest))
            }
        } else {
            None
        },
    }
}

/// Reads one or more comma-separated object members, each a quoted key, a
/// colon and a document.
pub open spec fn parse_members(s: Seq<char>) -> Option<(Seq<(Seq<char>, JVal)>, Seq<char>)>
    decreases s.len(), 1int,
{
    if s.len() == 0 || s[0] != '"' {
        None
    } else {
        match parse_str_body(s.skip(1)) {
            None => None,
            Some((key, r1)) => if r1.len() < s.len() && r1.len() > 0 && r1[0] == ':' {
                match parse_val(r1.skip(1)) {
                    None => None,
                    Some((v, r2)) => if r2.len() < s.len() {
                        if r2.len() > 0 && r2[0] == ',' {
                            match parse_members(r2.skip(1)) {
                                Some((fields, r3)) => Some((seq![(key, v)] + fields, r3)),
                                None => None,
                            }
                        } else {
                            Some((seq![(key, v)], r2))
                        }
                    } else {
                        None
                    },
                }
            } else {
                None
            },
        }
    }
}

/// A character that can begin a document.
pub open spec fn starts_value(c: char) -> bool {
    c == 'n' || c == 't' || c == 'f' || c == '"' || c == '[' || c == '{' || c == '-' || is_digit(c)
}

pub open spec fn all_digits(ds: Seq<char>) -> bool {
    forall|i: int| 0 <= i < ds.len() ==> is_digit(#[trigger] ds[i])
}

/// A separator or terminator may follow a serialized document without
/// changing how it reads back.
pub open spec fn neutral_follower(rest: Seq<char>) -> bool {
    rest.len() == 0 || !is_digit(rest[0])
}

proof fn lemma_ser_nat_props(n: int)
    requires
        n >= 0,
    ensures
        ser_nat(n).len() >= 1,
        all_digits(ser_nat(n)),
        digits_val(ser_nat(n)) == n,
    decreases n,
{
    if n <= 9 {
        let s = ser_nat(n);
        assert(s =~= seq![digit_char(n)]);
        assert(s.len() == 1);
        assert(s.drop_last() =~= Seq::<char>::empty());
        assert(digits_val(s.drop_last()) == 0);
        assert(s.last() == digit_char(n));
        assert(digits_val(s) == 0 * 10 + digit_of(digit_char(n)));
    } else {
        lemma_ser_nat_props(n / 10);
        let hi = ser_nat(n / 10);
        let s = ser_nat(n);
        assert(s == hi + seq![digit_char(n % 10)]);
        assert forall|i: int| 0 <= i < s.len() implies is_digit(#[trigger] s[i]) by {
            if i < hi.len() {
                assert(s[i] == hi[i]);
            } else {
                assert(s[i] == digit_char(n % 10));
            }
        }
        assert(s.drop_last() =~= hi);
        assert(s.last() == digit_char(n % 10));
        assert(digits_val(s) == digits_val(hi) * 10 + digit_of(digit_char(n % 10)));
        assert(digits_val(s) == (n / 10) * 10 + n % 10);
    }
}

pub proof fn lemma_parse_digits_prefix(ds: Seq<char>, rest: Seq<char>)
    requires
        all_digits(ds),
        neutral_follower(rest),
    ensures
        parse_digits(ds + rest) == (ds, rest),
    decreases ds.len(),
{
    let s = ds + rest;
    if ds.len() == 0 {
        assert(s =~= rest);
        if s.len() > 0 {
            assert(!is_digit(s[0]));
        }
    } else {
        assert(s[0] == ds[0]);
        assert(is_digit(s[0]));
        assert(s.skip(1) =~= ds.drop_first() + rest);
        lemma_parse_digits_prefix(ds.drop_first(), rest);
        let (ds2, rest2) = parse_digits(s.skip(1));
        assert(ds2 == ds.drop_first() && rest2 == rest);
        assert(seq![s[0]] + ds.drop_first() =~= ds);
    }
}

proof fn lemma_parse_int_ser(i: int, rest: Seq<char>)
    requires
        i64::MIN <= i <= i64::MAX,
        neutral_follower(rest),
    ensures
        parse_int(ser_int(i) + rest) == Some((JVal::Int(i), rest)),
{
    let s = ser_int(i) + rest;
    if i < 0 {
        lemma_ser_nat_props(-i);
        assert(s[0] == '-');
        assert(s.skip(1) =~= ser_nat(-i) + rest);
        lemma_parse_digits_prefix(ser_nat(-i), rest);
    } else {
        lemma_ser_nat_props(i);
        assert(s[0] == ser_nat(i)[0]);
        assert(is_digit(s[0]));
        assert(s[0] != '-');
        assert(s =~= ser_nat(i) + rest);
        lemma_parse_digits_prefix(ser_nat(i), rest);
    }
}

proof fn lemma_parse_str_body_ser(t: Seq<char>, rest: Seq<char>)
    ensures
        parse_str_body(ser_str_body(t) + seq!['"'] + rest) == Some((t, rest)),
    decreases t.len(),
{
    let s = ser_str_body(t) + seq!['"'] + rest;
    if t.len() == 0 {
        assert(s =~= seq!['"'] + rest);
        assert(s[0] == '"');
        assert(s.skip(1) =~= rest);
    } else {
        let c = t[0];
        let e = esc_char(c);
        assert(ser_str_body(t) == e + ser_str_body(t.drop_first()));
        lemma_parse_str_body_ser(t.drop_first(), rest);
        if c == '"' || c == '\\' || c == '\n' || c == '\r' || c == '\t' {
            assert(e.len() == 2 && e[0] == '\\');
            assert(s[0] == '\\');
            assert(s.len() >= 2 && s[1] == e[1]);
            assert(unescape_char(e[1]) == Some(c));
            assert(s.skip(2) =~= ser_str_body(t.drop_first()) + seq!['"'] + rest);
            assert(seq![c] + t.drop_first() =~= t);
        } else {
            assert(e =~= seq![c]);
            assert(s[0] == c);
            assert(s[0] != '"' && s[0] != '\\');
            assert(s.skip(1) =~= ser_str_body(t.drop_first()) + seq!['"'] + rest);
            assert(seq![c] + t.drop_first() =~= t);
        }
    }
}

proof fn lemma_ser_first(j: JVal)
    ensures
        ser(j).len() >= 1,
        starts_value(ser(j)[0]),
{
    match j {
        JVal::Int(i) => {
            if i < 0 {
                assert(ser(j)[0] == '-');
            } else {
                lemma_ser_nat_props(i);
                assert(ser(j)[0] == ser_nat(i)[0]);
                assert(is_digit(ser(j)[0]));
            }
        },
        _ => {},
    }
}

/// Round trip, list form: a serialized element list followed by its closing
/// bracket reads back as the same list.
proof fn lemma_parse_elems_ser(elems: Seq<JVal>, rest: Seq<char>)
    requires
        elems.len() >= 1,
        forall|i: int| 0 <= i < elems.len() ==> wf_jval(#[trigger] elems[i]),
        rest.len() >= 1,
        rest[0] == ']' || rest[0] == '}',
    ensures
        parse_elems(ser_elems(elems) + rest) == Some((elems, rest)),
    decreases elems, 0int,
{
    let s = ser_elems(elems) + rest;
    assert(wf_jval(elems[0]));
    lemma_ser_first(elems[0]);
    if elems.len() == 1 {
        assert(s =~= ser(elems[0]) + rest);
        assert(!is_digit(rest[0]));
        lemma_parse_ser(elems[0], rest);
        assert(parse_val(s) == Some((elems[0], rest)));
        assert(rest.len() < s.len());
        assert(rest[0] != ',');
        assert(seq![elems[0]] =~= elems);
    } else {
        let tail = seq![','] + ser_elems(elems.drop_first()) + rest;
        assert(s =~= ser(elems[0]) + tail);
        assert(tail[0] == ',');
        assert(!is_digit(tail[0]));
        lemma_parse_ser(elems[0], tail);
        assert(parse_val(s) == Some((elems[0], tail)));
        assert(tail.len() < s.len());
        assert(tail.skip(1) =~= ser_elems(elems.drop_first()) + rest);
        assert(forall|i: int|
            0 <= i < elems.drop_first().len() ==> wf_jval(#[trigger] elems.drop_first()[i]));
        lemma_parse_elems_ser(elems.drop_first(), rest);
        assert(seq![elems[0]] + elems.drop_first() =~= elems);
    }
}

/// Round trip, member form: a serialized member list followed by its closing
/// brace reads back as the same members.
proof fn lemma_parse_members_ser(fields: Seq<(Seq<char>, JVal)>, rest: Seq<char>)
    requires
        fields.len() >= 1,
        forall|i: int| 0 <= i < fields.len() ==> wf_jval((#[trigger] fields[i]).1),
        rest.len() >= 1,
        rest[0] == '}',
    ensures
        parse_members(ser_fields(fields) + rest) == Some((fields, rest)),
    decreases fields, 0int,
{
    let key = fields[0].0;
    let v = fields[0].1;
    let head = seq!['"'] + ser_str_body(key) + seq!['"', ':'] + ser(v);
    let s = ser_fields(fields) + rest;
    assert(wf_jval(v));
    if fields.len() == 1 {
        assert(s =~= head + rest);
        assert(s[0] == '"');
        let after_key = seq![':'] + ser(v) + rest;
        assert(s.skip(1) =~= ser_str_body(key) + seq!['"'] + after_key);
        lemma_parse_str_body_ser(key, after_key);
        assert(after_key.len() < s.len());
        assert(after_key[0] == ':');
        assert(after_key.skip(1) =~= ser(v) + rest);
        assert(!is_digit(rest[0]));
        lemma_parse_ser(v, rest);
        assert(rest.len() < s.len()) by {
            lemma_ser_first(v);
        }
        assert(rest[0] != ',');
        assert(seq![(key, v)] =~= fields);
    } else {
        let tail = seq![','] + ser_fields(fields.drop_first()) + rest;
        assert(s =~= head + tail);
        assert(s[0] == '"');
        let after_key = seq![':'] + ser(v) + tail;
        assert(s.skip(1) =~= ser_str_body(key) + seq!['"'] + after_key);
        lemma_parse_str_body_ser(key, after_key);
        assert(after_key.len() < s.len());
        assert(after_key[0] == ':');
        assert(after_key.skip(1) =~= ser(v) + tail);
        assert(tail[0] == ',');
        assert(!is_digit(tail[0]));
        lemma_parse_ser(v, tail);
        assert(tail.len() < s.len()) by {
            lemma_ser_first(v);
        }
        assert(tail.skip(1) =~= ser_fields(fields.drop_first()) + rest);
        assert forall|i: int| 0 <= i < fields.drop_first().len() implies wf_jval(
            (#[trigger] fields.drop_first()[i]).1,
        ) by {
            assert(fields.drop_first()[i] == fields[i + 1]);
        }
        lemma_parse_members_ser(fields.drop_first(), rest);
        assert(seq![(key, v)] + fields.drop_first() =~= fields);
    }
}

/// Round trip: reading back the compact text of a well-formed document gives
/// the document itself, whatever follows the text, so long as what follows
/// cannot be mistaken for more digits of a number.
#[verifier::rlimit(50)]
pub proof fn lemma_parse_ser(j: JVal, rest: Seq<char>)
    requires
        wf_jval(j),
        neutral_follower(rest),
    ensures
        parse_val(ser(j) + rest) == Some((j, rest)),
    decreases j, 1int,
{
    let s = ser(j) + rest;
    match j {
        JVal::Null => {
            assert(s.subrange(0, 4) =~= seq!['n', 'u', 'l', 'l']);
            assert(s.skip(4) =~= rest);
            assert(parse_val(s) == Some((j, rest)));
        },
        JVal::Bool(b) => {
            if b {
                assert(s.subrange(0, 4) =~= seq!['t', 'r', 'u', 'e']);
                assert(s.skip(4) =~= rest);
            } else {
                assert(s.subrange(0, 5) =~= seq!['f', 'a', 'l', 's', 'e']);
                assert(s.skip(5) =~= rest);
            }
            assert(parse_val(s) == Some((j, rest)));
        },
        JVal::Int(i) => {
            lemma_parse_int_ser(i, rest);
            if i < 0 {
                assert(s[0] == '-');
            } else {
                lemma_ser_nat_props(i);
                assert(s[0] == ser_nat(i)[0]);
                assert(is_digit(s[0]));
            }
            assert(s =~= ser_int(i) + rest);
            assert(parse_val(s) == Some((j, rest)));
        },
        JVal::Str(t) => {
            assert(s[0] == '"');
            assert(s.skip(1) =~= ser_str_body(t) + seq!['"'] + rest);
            lemma_parse_str_body_ser(t, rest);
            assert(parse_val(s) == Some((j, rest)));
        },
        JVal::Arr(elems) => {
            assert(s[0] == '[');
            if elems.len() == 0 {
                assert(elems =~= Seq::<JVal>::empty());
                assert(ser_elems(elems) =~= Seq::<char>::empty());
                assert(s =~= seq!['[', ']'] + rest);
                assert(s.len() >= 2 && s[1] == ']');
                assert(s.skip(2) =~= rest);
            } else {
                lemma_ser_first(elems[0]);
                assert(forall|i: int| 0 <= i < elems.len() ==> wf_jval(#[trigger] elems[i]));
                let close = seq![']'] + rest;
                assert(ser_elems(elems)[0] == ser(elems[0])[0]);
                assert(s[1] == ser(elems[0])[0]);
                assert(s[1] != ']');
                assert(s.skip(1) =~= ser_elems(elems) + close);
                lemma_parse_elems_ser(elems, close);
                assert(close[0] == ']');
                assert(close.skip(1) =~= rest);
            }
            assert(parse_val(s) == Some((j, rest)));
        },
        JVal::Obj(fields) => {
            assert(s[0] == '{');
            if fields.len() == 0 {
                assert(fields =~= Seq::<(Seq<char>, JVal)>::empty());
                assert(ser_fields(fields) =~= Seq::<char>::empty());
                assert(s =~= seq!['{', '}'] + rest);
                assert(s.len() >= 2 && s[1] == '}');
                assert(s.skip(2) =~= rest);
            } else {
                assert(wf_jval(JVal::Obj(fields)));
                assert forall|i: int| 0 <= i < fields.len() implies wf_jval(
                    (#[trigger] fields[i]).1,
                ) by {
                    assert(wf_string(fields[i].0) && wf_jval(fields[i].1));
                }
                let close = seq!['}'] + rest;
                assert(ser_fields(fields)[0] == '"');
                assert(s[1] == '"');
                assert(s[1] != '}');
                assert(s.skip(1) =~= ser_fields(fields) + close);
                lemma_parse_members_ser(fields, close);
                assert(close[0] == '}');
                assert(close.skip(1) =~= rest);
            }
            assert(parse_val(s) == Some((j, rest)));
        },
    }
}

/// Round trip at the document level: the compact text of a well-formed
/// document, taken whole, reads back as exactly that document.
pub proof fn lemma_parse_ser_exact(j: JVal)
    requires
        wf_jval(j),
    ensures
        parse_val(ser(j)) == Some((j, Seq::<char>::empty())),
{
    lemma_parse_ser(j, Seq::<char>::empty());
    assert(ser(j) + Seq::<char>::empty() =~= ser(j));
}

} // verus!

