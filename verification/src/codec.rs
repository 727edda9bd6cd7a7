//! Executable reading and writing of the JSON grammar in `json`.
//!
//! `to_json_text` renders a document in the compact form that `ser`
//! describes; `parse_json_text` reads a complete document back, exactly as
//! `parse_val` describes.  Everything here works over sequences of
//! characters, so the proofs connect directly to the grammar.
use vstd::prelude::*;
use vstd::string::StrSliceExecFns;
use crate::json::JVal;
use crate::json::JsonValue;
use crate::json::digit_char;
use crate::json::digit_of;
use crate::json::esc_char;
use crate::json::is_digit;
use crate::json::jfields_of;
use crate::json::jval_of;
use crate::json::jvals_of;
use crate::json::all_digits;
use crate::json::digits_val;
use crate::json::lemma_jfields_of_index;
use crate::json::lemma_parse_digits_prefix;
use crate::json::parse_digits;
use crate::json::parse_elems;
use crate::json::parse_int;
use crate::json::parse_members;
use crate::json::parse_str_body;
use crate::json::parse_val;
use crate::json::unescape_char;
use crate::json::lemma_jfields_of_len;
use crate::json::lemma_jvals_of_index;
use crate::json::lemma_jvals_of_len;
use crate::json::ser;
use crate::json::ser_elems;
use crate::json::ser_fields;
use crate::json::ser_int;
use crate::json::ser_nat;
use crate::json::ser_str_body;

verus! {

broadcast use lemma_jvals_of_len, lemma_jvals_of_index, lemma_jfields_of_len, lemma_jfields_of_index;

/// Relies on `String: FromIterator<char>`: collecting an iterator of
/// characters yields a string holding exactly those characters in order.
#[verifier::external_body]
pub fn chars_to_string(v: &Vec<char>) -> (r: String)
    ensures
        r@ == v@,
{
    v.iter().collect()
}

/// The characters of a string, as a vector.
pub fn string_to_chars(s: &str) -> (r: Vec<char>)
    ensures
        r@ == s@,
{
    let n = s.unicode_len();
    let mut out: Vec<char> = Vec::new();
    let mut i: usize = 0;
    while i < n
        invariant
            i <= n,
            n == s@.len(),
            out@ == s@.subrange(0, i as int),
        decreases n - i,
    {
        out.push(s.get_char(i));
        i = i + 1;
        assert(out@ =~= s@.subrange(0, i as int));
    }
    assert(out@ =~= s@);
    out
}

/// Appends the decimal digits of `n`, most significant first.
fn push_nat(out: &mut Vec<char>, n: u64)
    ensures
        final(out)@ == old(out)@ + ser_nat(n as int),
    decreases n,
{
    if n <= 9 {
        let d: u8 = (n as u8) + 48;
        out.push(d as char);
        assert(d as char == digit_char(n as int));
        assert(old(out)@.push(digit_char(n as int)) =~= old(out)@ + ser_nat(n as int));
    } else {
        push_nat(out, n / 10);
        let d: u8 = ((n % 10) as u8) + 48;
        out.push(d as char);
        assert(d as char == digit_char(n as int % 10));
        assert((old(out)@ + ser_nat(n as int / 10)).push(digit_char(n as int % 10)) =~= old(
            out,
        )@ + ser_nat(n as int));
    }
}

/// Appends the decimal text of `i`, with a minus sign when negative.
fn push_int(out: &mut Vec<char>, i: i64)
    ensures
        final(out)@ == old(out)@ + ser_int(i as int),
{
    if i < 0 {
        out.push('-');
        let mag: u64 = ((-(i + 1)) as u64) + 1;
        assert(mag as int == -(i as int));
        push_nat(out, mag);
        assert(old(out)@.push('-') + ser_nat(mag as int) =~= old(out)@ + ser_int(i as int));
    } else {
        push_nat(out, i as u64);
    }
}

/// Appends the escaped form of the string characters `t[k..]`.
fn push_str_body(out: &mut Vec<char>, t: &Vec<char>, k: usize)
    requires
        k <= t@.len(),
    ensures
        final(out)@ == old(out)@ + ser_str_body(t@.skip(k as int)),
    decreases t@.len() - k,
{
    if k == t.len() {
        assert(t@.skip(k as int) =~= Seq::<char>::empty());
        assert(old(out)@ + ser_str_body(t@.skip(k as int)) =~= old(out)@);
    } else {
        let c = t[k];
        if c == '"' {
            out.push('\\');
            out.push('"');
        } else if c == '\\' {
            out.push('\\');
            out.push('\\');
        } else if c == '\n' {
            out.push('\\');
            out.push('n');
        } else if c == '\r' {
            out.push('\\');
            out.push('r');
        } else if c == '\t' {
            out.push('\\');
            out.push('t');
        } else {
            out.push(c);
        }
        assert(out@ =~= old(out)@ + esc_char(t@[k as int]));
        push_str_body(out, t, k + 1);
        proof {
            let rest = t@.skip(k as int);
            assert(rest[0] == t@[k as int]);
            assert(rest.drop_first() =~= t@.skip(k as int + 1));
            assert(ser_str_body(rest) == esc_char(t@[k as int]) + ser_str_body(
                t@.skip(k as int + 1),
            ));
            assert(old(out)@ + esc_char(t@[k as int]) + ser_str_body(t@.skip(k as int + 1)) =~= old(
                out,
            )@ + ser_str_body(rest));
        }
    }
}

/// Appends a quoted, escaped string literal.
fn push_quoted(out: &mut Vec<char>, s: &str)
    ensures
        final(out)@ == old(out)@ + seq!['"'] + ser_str_body(s@) + seq!['"'],
{
    out.push('"');
    let t = string_to_chars(s);
    assert(t@.skip(0) =~= s@);
    push_str_body(out, &t, 0);
    out.push('"');
    assert((old(out)@.push('"') + ser_str_body(s@)).push('"') =~= old(out)@ + seq!['"']
        + ser_str_body(s@) + seq!['"']);
}

/// Appends the compact text of a document.
fn push_jval(out: &mut Vec<char>, v: &JsonValue)
    ensures
        final(out)@ == old(out)@ + ser(v@),
    decreases *v, 0int,
{
    match v {
        JsonValue::Null => {
            out.push('n');
            out.push('u');
            out.push('l');
            out.push('l');
            assert(out@ =~= old(out)@ + ser(JVal::Null));
        },
        JsonValue::Bool(b) => {
            if *b {
                out.push('t');
                out.push('r');
                out.push('u');
                out.push('e');
            } else {
                out.push('f');
                out.push('a');
                out.push('l');
                out.push('s');
                out.push('e');
            }
            assert(out@ =~= old(out)@ + ser(v@));
        },
        JsonValue::Int(i) => {
            push_int(out, *i);
        },
        JsonValue::Str(s) => {
            push_quoted(out, s.as_str());
        },
        JsonValue::Arr(a) => {
            out.push('[');
            if a.len() > 0 {
                push_elems(out, a, 0);
            }
            out.push(']');
            proof {
                let js = jvals_of(a@);
                if a@.len() == 0 {
                    assert(js =~= Seq::<JVal>::empty());
                    assert(ser_elems(js) == Seq::<char>::empty());
                }
                assert(js.skip(0) =~= js);
                assert(out@ =~= old(out)@ + ser(v@));
            }
        },
        JsonValue::Obj(o) => {
            out.push('{');
            if o.len() > 0 {
                push_fields(out, o, 0);
            }
            out.push('}');
            proof {
                let js = jfields_of(o@);
                if o@.len() == 0 {
                    assert(js =~= Seq::<(Seq<char>, JVal)>::empty());
                    assert(ser_fields(js) == Seq::<char>::empty());
                }
                assert(js.skip(0) =~= js);
                assert(out@ =~= old(out)@ + ser(v@));
            }
        },
    }
}

/// Appends the comma-separated text of the elements `a[k..]`.
fn push_elems(out: &mut Vec<char>, a: &Vec<JsonValue>, k: usize)
    requires
        k < a@.len(),
    ensures
        final(out)@ == old(out)@ + ser_elems(jvals_of(a@).skip(k as int)),
    decreases *a, a@.len() - k,
{
    push_jval(out, &a[k]);
    proof {
        let js = jvals_of(a@);
        let s = js.skip(k as int);
        assert(s[0] == js[k as int]);
        assert(js[k as int] == jval_of(a@[k as int]));
    }
    if k < a.len() - 1 {
        out.push(',');
        push_elems(out, a, k + 1);
        proof {
            let js = jvals_of(a@);
            let s = js.skip(k as int);
            assert(s.len() >= 2);
            assert(s.drop_first() =~= js.skip(k as int + 1));
            assert(ser_elems(s) == ser(s[0]) + seq![','] + ser_elems(s.drop_first()));
            assert((old(out)@ + ser(jval_of(a@[k as int]))).push(',') + ser_elems(
                js.skip(k as int + 1),
            ) =~= old(out)@ + ser_elems(s));
        }
    } else {
        proof {
            let js = jvals_of(a@);
            let s = js.skip(k as int);
            assert(s.len() == 1);
            assert(ser_elems(s) == ser(s[0]));
        }
    }
}

/// Appends the comma-separated text of the members `o[k..]`.
fn push_fields(out: &mut Vec<char>, o: &Vec<(String, JsonValue)>, k: usize)
    requires
        k < o@.len(),
    ensures
        final(out)@ == old(out)@ + ser_fields(jfields_of(o@).skip(k as int)),
    decreases *o, o@.len() - k,
{
    push_quoted(out, o[k].0.as_str());
    out.push(':');
    push_jval(out, &o[k].1);
    proof {
        let js = jfields_of(o@);
        let s = js.skip(k as int);
        assert(s[0] == js[k as int]);
        assert(js[k as int] == (o@[k as int].0@, jval_of(o@[k as int].1)));
        assert(out@ =~= old(out)@ + (seq!['"'] + ser_str_body(s[0].0) + seq!['"', ':'] + ser(
            s[0].1,
        )));
    }
    if k < o.len() - 1 {
        out.push(',');
        push_fields(out, o, k + 1);
        proof {
            let js = jfields_of(o@);
            let s = js.skip(k as int);
            let head = seq!['"'] + ser_str_body(s[0].0) + seq!['"', ':'] + ser(s[0].1);
            assert(s.len() >= 2);
            assert(s.drop_first() =~= js.skip(k as int + 1));
            assert(ser_fields(s) == head + seq![','] + ser_fields(s.drop_first()));
            assert((old(out)@ + head).push(',') + ser_fields(js.skip(k as int + 1)) =~= old(out)@
                + ser_fields(s));
        }
    } else {
        proof {
            let js = jfields_of(o@);
            let s = js.skip(k as int);
            let head = seq!['"'] + ser_str_body(s[0].0) + seq!['"', ':'] + ser(s[0].1);
            assert(s.len() == 1);
            assert(ser_fields(s) == head);
        }
    }
}

/// The compact text of a document, as the grammar's `ser` describes it.
pub fn to_json_text(v: &JsonValue) -> (r: String)
    ensures
        r@ == ser(v@),
{
    let mut out: Vec<char> = Vec::new();
    push_jval(&mut out, v);
    assert(out@ =~= ser(v@));
    chars_to_string(&out)
}

proof fn lemma_digits_val_nonneg(ds: Seq<char>)
    requires
        all_digits(ds),
    ensures
        digits_val(ds) >= 0,
    decreases ds.len(),
{
    if ds.len() > 0 {
        assert forall|i: int| 0 <= i < ds.drop_last().len() implies is_digit(
            #[trigger] ds.drop_last()[i],
        ) by {
            assert(ds.drop_last()[i] == ds[i]);
        }
        lemma_digits_val_nonneg(ds.drop_last());
        assert(is_digit(ds.last()));
    }
}

/// The value of a digit run only grows as more digits are read.
proof fn lemma_digits_val_extend(ds: Seq<char>, k: int)
    requires
        all_digits(ds),
        0 <= k <= ds.len(),
    ensures
        digits_val(ds) >= digits_val(ds.take(k)),
    decreases ds.len() - k,
{
    assert forall|m: int, i: int| 0 <= m <= ds.len() && 0 <= i < m implies is_digit(
        #[trigger] ds.take(m)[i],
    ) by {
        assert(ds.take(m)[i] == ds[i]);
    }
    if k == ds.len() {
        assert(ds.take(k) =~= ds);
    } else {
        assert(ds.take(k + 1).drop_last() =~= ds.take(k));
        assert(ds.take(k + 1).last() == ds[k]);
        assert(digits_val(ds.take(k + 1)) == digits_val(ds.take(k)) * 10 + digit_of(ds[k]));
        lemma_digits_val_nonneg(ds.take(k));
        assert(is_digit(ds[k]));
        lemma_digits_val_extend(ds, k + 1);
    }
}

/// Reads the longest digit run from position `i` on, and its value when it
/// does not pass `bound`.
fn scan_digits(s: &Vec<char>, i: usize, bound: u64) -> (r: (usize, Option<u64>))
    requires
        i <= s@.len(),
    ensures
        ({
            let (ds, rest) = parse_digits(s@.skip(i as int));
            &&& i <= r.0 <= s@.len()
            &&& ds == s@.subrange(i as int, r.0 as int)
            &&& rest == s@.skip(r.0 as int)
            &&& match r.1 {
                Some(m) => m as int == digits_val(ds) && m <= bound,
                None => digits_val(ds) > bound,
            }
        }),
{
    let ghost t = s@.skip(i as int);
    let mut j: usize = i;
    while j < s.len() && s[j] >= '0' && s[j] <= '9'
        invariant
            i <= j <= s@.len(),
            forall|m: int| i <= m < j ==> is_digit(#[trigger] s@[m]),
        decreases s@.len() - j,
    {
        j = j + 1;
    }
    let ghost ds = s@.subrange(i as int, j as int);
    proof {
        assert forall|m: int| 0 <= m < ds.len() implies is_digit(#[trigger] ds[m]) by {
            assert(ds[m] == s@[i + m]);
        }
        assert(t =~= ds + s@.skip(j as int));
        if j < s@.len() {
            assert(!is_digit(s@[j as int]));
            assert(s@.skip(j as int)[0] == s@[j as int]);
        }
        lemma_parse_digits_prefix(ds, s@.skip(j as int));
    }
    let mut k: usize = i;
    let mut acc: u64 = 0;
    while k < j
        invariant
            i <= k <= j <= s@.len(),
            acc <= bound,
            forall|m: int| 0 <= m < ds.len() ==> is_digit(#[trigger] ds[m]),
            ds == s@.subrange(i as int, j as int),
            parse_digits(s@.skip(i as int)) == (ds, s@.skip(j as int)),
            acc as int == digits_val(ds.take(k - i)),
        decreases j - k,
    {
        let c = s[k];
        assert(c == ds[k - i]);
        assert(is_digit(c));
        let d: u64 = (c as u32 - 48) as u64;
        assert(d as int == digit_of(c));
        assert(d <= 9);
        proof {
            assert(ds.take(k - i + 1).drop_last() =~= ds.take(k - i));
            assert(ds.take(k - i + 1).last() == ds[k - i]);
            assert(digits_val(ds.take(k - i + 1)) == digits_val(ds.take(k - i)) * 10 + digit_of(
                ds[k - i],
            ));
        }
        let wide: u128 = (acc as u128) * 10 + (d as u128);
        if wide > bound as u128 {
            proof {
                assert(digits_val(ds.take(k - i + 1)) > bound);
                lemma_digits_val_extend(ds, k - i + 1);
            }
            return (j, None);
        }
        acc = wide as u64;
        k = k + 1;
    }
    assert(ds.take(j - i) =~= ds);
    (j, Some(acc))
}

/// Reads an integer number from position `i` on.
fn parse_int_at(s: &Vec<char>, i: usize) -> (r: Option<(i64, usize)>)
    requires
        i <= s@.len(),
    ensures
        ({
            let t = s@.skip(i as int);
            match r {
                Some(p) => i < p.1 <= s@.len() && parse_int(t) == Some(
                    (JVal::Int(p.0 as int), s@.skip(p.1 as int)),
                ),
                None => parse_int(t) is None,
            }
        }),
{
    let ghost t = s@.skip(i as int);
    if i < s.len() && s[i] == '-' {
        assert(t[0] == '-');
        assert(t.skip(1) =~= s@.skip(i as int + 1));
        let (j, m) = scan_digits(s, i + 1, 9223372036854775808u64);
        if j == i + 1 {
            assert(parse_digits(t.skip(1)).0 =~= Seq::<char>::empty());
            return None;
        }
        match m {
            Some(mag) => {
                proof {
                    assert(parse_digits(t.skip(1)).0.len() > 0);
                }
                let v: i64 = if mag == 9223372036854775808u64 {
                    i64::MIN
                } else {
                    -(mag as i64)
                };
                assert(v as int == -(mag as int));
                Some((v, j))
            },
            None => {
                assert(parse_digits(t.skip(1)).0.len() > 0);
                assert(digits_val(parse_digits(t.skip(1)).0) > 9223372036854775808);
                None
            },
        }
    } else {
        assert(t =~= s@.skip(i as int));
        if i < s.len() {
            assert(t[0] == s@[i as int]);
            assert(t[0] != '-');
        }
        let (j, m) = scan_digits(s, i, 9223372036854775807u64);
        if j == i {
            assert(parse_digits(t).0 =~= Seq::<char>::empty());
            return None;
        }
        match m {
            Some(mag) => {
                assert(parse_digits(t).0.len() > 0);
                Some((mag as i64, j))
            },
            None => {
                assert(parse_digits(t).0.len() > 0);
                None
            },
        }
    }
}

/// Reads a string literal body from position `i` on, up to and over the
/// closing quote.
fn parse_str_body_at(s: &Vec<char>, i: usize) -> (r: Option<(Vec<char>, usize)>)
    requires
        i <= s@.len(),
    ensures
        ({
            let t = s@.skip(i as int);
            match r {
                Some(p) => i < p.1 <= s@.len() && parse_str_body(t) == Some(
                    (p.0@, s@.skip(p.1 as int)),
                ),
                None => parse_str_body(t) is None,
            }
        }),
    decreases s@.len() - i,
{
    let ghost t = s@.skip(i as int);
    if i == s.len() {
        return None;
    }
    let c = s[i];
    assert(c == t[0]);
    if c == '"' {
        assert(t.skip(1) =~= s@.skip(i as int + 1));
        Some((Vec::new(), i + 1))
    } else if c == '\\' {
        if i + 1 == s.len() {
            assert(t.len() == 1);
            return None;
        }
        let e = s[i + 1];
        assert(e == t[1]);
        let u: Option<char> = if e == '"' {
            Some('"')
        } else if e == '\\' {
            Some('\\')
        } else if e == 'n' {
            Some('\n')
        } else if e == 'r' {
            Some('\r')
        } else if e == 't' {
            Some('\t')
        } else {
            None
        };
        assert(u == unescape_char(t[1]));
        match u {
            None => None,
            Some(c2) => {
                assert(t.skip(2) =~= s@.skip(i as int + 2));
                match parse_str_body_at(s, i + 2) {
                    None => None,
                    Some((mut body, j)) => {
                        let ghost b0 = body@;
                        body.insert(0, c2);
                        assert(body@ =~= seq![c2] + b0);
                        Some((body, j))
                    },
                }
            },
        }
    } else {
        assert(t.skip(1) =~= s@.skip(i as int + 1));
        match parse_str_body_at(s, i + 1) {
            None => None,
            Some((mut body, j)) => {
                let ghost b0 = body@;
                body.insert(0, c);
                assert(body@ =~= seq![c] + b0);
                Some((body, j))
            },
        }
    }
}

/// True when the four characters at `i` are exactly `c0 c1 c2 c3`.
fn keyword4(s: &Vec<char>, i: usize, c0: char, c1: char, c2: char, c3: char) -> (r: bool)
    requires
        i <= s@.len(),
    ensures
        r == (s@.len() - i >= 4 && s@.skip(i as int).subrange(0, 4) == seq![c0, c1, c2, c3]),
{
    let ghost t = s@.skip(i as int);
    if s.len() - i >= 4 && s[i] == c0 && s[i + 1] == c1 && s[i + 2] == c2 && s[i + 3] == c3 {
        assert(t.subrange(0, 4) =~= seq![c0, c1, c2, c3]);
        true
    } else {
        proof {
            if s@.len() - i >= 4 {
                assert(t.subrange(0, 4)[0] == s@[i as int]);
                assert(t.subrange(0, 4)[1] == s@[i as int + 1]);
                assert(t.subrange(0, 4)[2] == s@[i as int + 2]);
                assert(t.subrange(0, 4)[3] == s@[i as int + 3]);
            }
        }
        false
    }
}

/// True when the five characters at `i` are exactly `c0 c1 c2 c3 c4`.
fn keyword5(s: &Vec<char>, i: usize, c0: char, c1: char, c2: char, c3: char, c4: char) -> (r: bool)
    requires
        i <= s@.len(),
    ensures
        r == (s@.len() - i >= 5 && s@.skip(i as int).subrange(0, 5) == seq![c0, c1, c2, c3, c4]),
{
    let ghost t = s@.skip(i as int);
    if s.len() - i >= 5 && s[i] == c0 && s[i + 1] == c1 && s[i + 2] == c2 && s[i + 3] == c3 && s[i
        + 4] == c4 {
        assert(t.subrange(0, 5) =~= seq![c0, c1, c2, c3, c4]);
        true
    } else {
        proof {
            if s@.len() - i >= 5 {
                assert(t.subrange(0, 5)[0] == s@[i as int]);
                assert(t.subrange(0, 5)[1] == s@[i as int + 1]);
                assert(t.subrange(0, 5)[2] == s@[i as int + 2]);
                assert(t.subrange(0, 5)[3] == s@[i as int + 3]);
                assert(t.subrange(0, 5)[4] == s@[i as int + 4]);
            }
        }
        false
    }
}

/// Reads one document from position `i` on, exactly as the grammar's
/// `parse_val` describes.
fn parse_val_at(s: &Vec<char>, i: usize) -> (r: Option<(JsonValue, usize)>)
    requires
        i <= s@.len(),
    ensures
        ({
            let t = s@.skip(i as int);
            match r {
                Some(p) => i < p.1 <= s@.len() && parse_val(t) == Some(
                    (p.0@, s@.skip(p.1 as int)),
                ),
                None => parse_val(t) is None,
            }
        }),
    decreases s@.len() - i, 0int,
{
    let ghost t = s@.skip(i as int);
    if i == s.len() {
        return None;
    }
    let c = s[i];
    assert(c == t[0]);
    if c == 'n' {
        if keyword4(s, i, 'n', 'u', 'l', 'l') {
            assert(t.skip(4) =~= s@.skip(i as int + 4));
            Some((JsonValue::Null, i + 4))
        } else {
            None
        }
    } else if c == 't' {
        if keyword4(s, i, 't', 'r', 'u', 'e') {
            assert(t.skip(4) =~= s@.skip(i as int + 4));
            Some((JsonValue::Bool(true), i + 4))
        } else {
            None
        }
    } else if c == 'f' {
        if keyword5(s, i, 'f', 'a', 'l', 's', 'e') {
            assert(t.skip(5) =~= s@.skip(i as int + 5));
            Some((JsonValue::Bool(false), i + 5))
        } else {
            None
        }
    } else if c == '"' {
        assert(t.skip(1) =~= s@.skip(i as int + 1));
        match parse_str_body_at(s, i + 1) {
            None => None,
            Some((body, j)) => {
                let txt = chars_to_string(&body);
                let v = JsonValue::Str(txt);
                assert(v@ == JVal::Str(body@));
                Some((v, j))
            },
        }
    } else if c == '[' {
        if s.len() - i >= 2 && s[i + 1] == ']' {
            assert(t.len() >= 2 && t[1] == ']');
            assert(t.skip(2) =~= s@.skip(i as int + 2));
            let v = JsonValue::Arr(Vec::new());
            assert(jvals_of(Seq::<JsonValue>::empty()) == Seq::<JVal>::empty());
            assert(v@ == JVal::Arr(Seq::<JVal>::empty()));
            Some((v, i + 2))
        } else {
            proof {
                if t.len() >= 2 {
                    assert(t[1] == s@[i as int + 1]);
                }
            }
            assert(t.skip(1) =~= s@.skip(i as int + 1));
            match parse_elems_at(s, i + 1) {
                None => None,
                Some((vs, j)) => {
                    if j < s.len() && s[j] == ']' {
                        assert(s@.skip(j as int)[0] == s@[j as int]);
                        assert(s@.skip(j as int).skip(1) =~= s@.skip(j as int + 1));
                        let v = JsonValue::Arr(vs);
                        Some((v, j + 1))
                    } else {
                        proof {
                            if j < s@.len() {
                                assert(s@.skip(j as int)[0] == s@[j as int]);
                            }
                        }
                        None
                    }
                },
            }
        }
    } else if c == '{' {
        if s.len() - i >= 2 && s[i + 1] == '}' {
            assert(t.len() >= 2 && t[1] == '}');
            assert(t.skip(2) =~= s@.skip(i as int + 2));
            let v = JsonValue::Obj(Vec::new());
            assert(jfields_of(Seq::<(String, JsonValue)>::empty()) == Seq::<(Seq<char>, JVal)>::empty());
            assert(v@ == JVal::Obj(Seq::<(Seq<char>, JVal)>::empty()));
            Some((v, i + 2))
        } else {
            proof {
                if t.len() >= 2 {
                    assert(t[1] == s@[i as int + 1]);
                }
            }
            assert(t.skip(1) =~= s@.skip(i as int + 1));
            match parse_members_at(s, i + 1) {
                None => None,
                Some((fs, j)) => {
                    if j < s.len() && s[j] == '}' {
                        assert(s@.skip(j as int)[0] == s@[j as int]);
                        assert(s@.skip(j as int).skip(1) =~= s@.skip(j as int + 1));
                        let v = JsonValue::Obj(fs);
                        Some((v, j + 1))
                    } else {
                        proof {
                            if j < s@.len() {
                                assert(s@.skip(j as int)[0] == s@[j as int]);
                            }
                        }
                        None
                    }
                },
            }
        }
    } else if c == '-' || (c >= '0' && c <= '9') {
        match parse_int_at(s, i) {
            None => None,
            Some((v, j)) => {
                let jv = JsonValue::Int(v);
                assert(jv@ == JVal::Int(v as int));
                Some((jv, j))
            },
        }
    } else {
        None
    }
}

/// Reads one or more comma-separated documents from position `i` on.
fn parse_elems_at(s: &Vec<char>, i: usize) -> (r: Option<(Vec<JsonValue>, usize)>)
    requires
        i <= s@.len(),
    ensures
        ({
            let t = s@.skip(i as int);
            match r {
                Some(p) => i < p.1 <= s@.len() && parse_elems(t) == Some(
                    (jvals_of(p.0@), s@.skip(p.1 as int)),
                ),
                None => parse_elems(t) is None,
            }
        }),
    decreases s@.len() - i, 1int,
{
    let ghost t = s@.skip(i as int);
    match parse_val_at(s, i) {
        None => None,
        Some((v, j)) => {
            proof {
                assert(s@.skip(j as int).len() < t.len());
            }
            if j < s.len() && s[j] == ',' {
                assert(s@.skip(j as int)[0] == s@[j as int]);
                assert(s@.skip(j as int).skip(1) =~= s@.skip(j as int + 1));
                match parse_elems_at(s, j + 1) {
                    None => None,
                    Some((mut vs, j2)) => {
                        let ghost vs0 = vs@;
                        vs.insert(0, v);
                        proof {
                            assert(jvals_of(vs@) =~= seq![v@] + jvals_of(vs0));
                        }
                        Some((vs, j2))
                    },
                }
            } else {
                proof {
                    if j < s@.len() {
                        assert(s@.skip(j as int)[0] == s@[j as int]);
                    }
                }
                let mut vs: Vec<JsonValue> = Vec::new();
                vs.push(v);
                proof {
                    assert(jvals_of(vs@) =~= seq![v@]);
                }
                Some((vs, j))
            }
        },
    }
}

/// Reads one or more comma-separated object members from position `i` on.
fn parse_members_at(s: &Vec<char>, i: usize) -> (r: Option<(Vec<(String, JsonValue)>, usize)>)
    requires
        i <= s@.len(),
    ensures
        ({
            let t = s@.skip(i as int);
            match r {
                Some(p) => i < p.1 <= s@.len() && parse_members(t) == Some(
                    (jfields_of(p.0@), s@.skip(p.1 as int)),
                ),
                None => parse_members(t) is None,
            }
        }),
    decreases s@.len() - i, 1int,
{
    let ghost t = s@.skip(i as int);
    if i == s.len() {
        return None;
    }
    if s[i] != '"' {
        assert(t[0] == s@[i as int]);
        return None;
    }
    assert(t[0] == '"');
    assert(t.skip(1) =~= s@.skip(i as int + 1));
    match parse_str_body_at(s, i + 1) {
        None => None,
        Some((keychars, j1)) => {
            proof {
                assert(s@.skip(j1 as int).len() < t.len());
            }
            if j1 < s.len() && s[j1] == ':' {
                assert(s@.skip(j1 as int)[0] == s@[j1 as int]);
                assert(s@.skip(j1 as int).skip(1) =~= s@.skip(j1 as int + 1));
                match parse_val_at(s, j1 + 1) {
                    None => None,
                    Some((v, j2)) => {
                        proof {
                            assert(s@.skip(j2 as int).len() < t.len());
                        }
                        let key = chars_to_string(&keychars);
                        if j2 < s.len() && s[j2] == ',' {
                            assert(s@.skip(j2 as int)[0] == s@[j2 as int]);
                            assert(s@.skip(j2 as int).skip(1) =~= s@.skip(j2 as int + 1));
                            match parse_members_at(s, j2 + 1) {
                                None => None,
                                Some((mut fs, j3)) => {
                                    let ghost fs0 = fs@;
                                    fs.insert(0, (key, v));
                                    proof {
                                        assert(jfields_of(fs@) =~= seq![(keychars@, v@)]
                                            + jfields_of(fs0));
                                    }
                                    Some((fs, j3))
                                },
                            }
                        } else {
                            proof {
                                if j2 < s@.len() {
                                    assert(s@.skip(j2 as int)[0] == s@[j2 as int]);
                                }
                            }
                            let mut fs: Vec<(String, JsonValue)> = Vec::new();
                            fs.push((key, v));
                            proof {
                                assert(jfields_of(fs@) =~= seq![(keychars@, v@)]);
                            }
                            Some((fs, j2))
                        }
                    },
                }
            } else {
                proof {
                    if j1 < s@.len() {
                        assert(s@.skip(j1 as int)[0] == s@[j1 as int]);
                    }
                }
                None
            }
        },
    }
}

/// Reads a complete compact-form document from a whole string; anything
/// trailing the document, or no document at all, is a refusal.
pub fn parse_json_text(s: &str) -> (r: Option<JsonValue>)
    ensures
        match r {
            Some(v) => parse_val(s@) == Some((v@, Seq::<char>::empty())),
            None => parse_val(s@) is Some ==> parse_val(s@)->Some_0.1.len() != 0,
        },
{
    let cs = string_to_chars(s);
    assert(cs@.skip(0) =~= s@);
    match parse_val_at(&cs, 0) {
        None => None,
        Some((v, j)) => {
            if j == cs.len() {
                assert(s@.skip(j as int) =~= Seq::<char>::empty());
                Some(v)
            } else {
                None
            }
        },
    }
}

} // verus!
