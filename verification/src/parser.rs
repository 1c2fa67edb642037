//! The executable recognizers. Each one is proved to return exactly
//! what the corresponding spec function of `grammar` says: the same
//! value, the same number of characters consumed, or the same error.
use vstd::prelude::*;

use crate::grammar::dedup_pairs;
use crate::grammar::digits_len;
use crate::grammar::digits_val;
use crate::grammar::false_at;
use crate::grammar::find_quote;
use crate::grammar::key_index;
use crate::grammar::lemma_dedup_push;
use crate::grammar::lemma_digits_len;
use crate::grammar::lemma_digits_val_grows;
use crate::grammar::lemma_find_quote;
use crate::grammar::lemma_key_index;
use crate::grammar::null_at;
use crate::grammar::spec_array;
use crate::grammar::spec_elems;
use crate::grammar::spec_exponent;
use crate::grammar::spec_members;
use crate::grammar::spec_number;
use crate::grammar::spec_object;
use crate::grammar::spec_parse;
use crate::grammar::spec_string;
use crate::grammar::spec_value;
use crate::grammar::true_at;
use crate::grammar::upsert;
use crate::grammar::ws_len;
use crate::grammar::Parsed;
use crate::value::lemma_model_elems;
use crate::value::lemma_model_members;
use crate::value::FloatLit;
use crate::value::JsonValue;
use crate::value::Num;
use crate::value::ParseError;
use crate::value::ValueModel;
use vstd::string::StrSliceExecFns;

verus! {

/// Turn a text into the vector of its characters, the form the
/// recognizers read.
pub fn chars_of(text: &str) -> (r: Vec<char>)
    ensures
        r@ == text@,
{
    let n = text.unicode_len();
    let mut v: Vec<char> = Vec::new();
    let mut i: usize = 0;
    while i < n
        invariant
            n == text@.len(),
            i <= n,
            v@.len() == i,
            forall|j: int| 0 <= j < i ==> v@[j] == text@[j],
        decreases n - i,
    {
        let c = text.get_char(i);
        v.push(c);
        i = i + 1;
    }
    proof {
        assert(v@ =~= text@);
    }
    v
}

/// Relies on String's FromIterator over characters: collecting the
/// characters of `v` yields the string holding exactly those
/// characters, in order.
#[verifier::external_body]
fn string_of(v: &Vec<char>) -> (r: String)
    ensures
        r@ == v@,
{
    v.iter().collect()
}

/// Advance past the whitespace run at `pos`.
pub fn skip_ws(s: &Vec<char>, pos: usize) -> (p: usize)
    requires
        pos <= s@.len(),
    ensures
        p == pos + ws_len(s@, pos as int),
        p <= s@.len(),
{
    let mut p = pos;
    while p < s.len() && (s[p] == ' ' || s[p] == '\t' || s[p] == '\n' || s[p] == '\r')
        invariant
            pos <= p <= s@.len(),
            ws_len(s@, pos as int) == p - pos + ws_len(s@, p as int),
        decreases s@.len() - p,
    {
        p = p + 1;
    }
    p
}

/// Advance past the digit run at `pos`, returning the position after
/// it.
fn skip_digits(s: &Vec<char>, pos: usize) -> (p: usize)
    requires
        pos <= s@.len(),
    ensures
        p == pos + digits_len(s@, pos as int),
        p <= s@.len(),
{
    let mut p = pos;
    while p < s.len() && '0' <= s[p] && s[p] <= '9'
        invariant
            pos <= p <= s@.len(),
            digits_len(s@, pos as int) == p - pos + digits_len(s@, p as int),
        decreases s@.len() - p,
    {
        p = p + 1;
    }
    p
}

/// Read the digit run at `pos` as a non-negative 64-bit integer: the
/// run's length and position after it, with its value, or nothing when
/// the run is empty or its value does not fit.
fn scan_digits(s: &Vec<char>, pos: usize) -> (r: Option<(i64, usize)>)
    requires
        pos <= s@.len(),
    ensures
        ({
            let d = digits_len(s@, pos as int);
            let v = digits_val(s@, pos as int, d as int);
            match r {
                Some(p) => d > 0 && 0 <= v <= i64::MAX && p.0 == v && p.1 == pos + d && p.1
                    <= s@.len(),
                None => d == 0 || v > i64::MAX,
            }
        }),
{
    let q = skip_digits(s, pos);
    if q == pos {
        return None;
    }
    proof {
        lemma_digits_len(s@, pos as int);
    }
    let ghost d = digits_len(s@, pos as int);
    let mut acc: i64 = 0;
    let mut i = pos;
    while i < q
        invariant
            pos <= i <= q <= s@.len(),
            q == pos + d,
            d == digits_len(s@, pos as int),
            forall|j: int| pos <= j < pos + d ==> crate::grammar::is_digit(#[trigger] s@[j]),
            0 <= acc,
            acc == digits_val(s@, pos as int, i - pos),
        decreases q - i,
    {
        let c = s[i];
        assert(crate::grammar::is_digit(s@[i as int]));
        let dv = (c as u32 - '0' as u32) as i64;
        assert(0 <= dv <= 9);
        if acc > i64::MAX / 10 {
            proof {
                // the bound is i64::MAX / 10 + 1, written out for the
                // arithmetic solver
                assert(acc * 10 + dv > i64::MAX) by (nonlinear_arith)
                    requires
                        acc >= 922337203685477581,
                        dv >= 0,
                ;
                assert(digits_val(s@, pos as int, i - pos + 1) == acc * 10 + dv);
                lemma_digits_val_grows(s@, pos as int, i - pos + 1, d as int);
            }
            return None;
        }
        let shifted = acc * 10;
        if dv > i64::MAX - shifted {
            proof {
                assert(digits_val(s@, pos as int, i - pos + 1) == acc * 10 + dv);
                lemma_digits_val_grows(s@, pos as int, i - pos + 1, d as int);
            }
            return None;
        }
        acc = shifted + dv;
        i = i + 1;
    }
    Some((acc, q))
}

/// The exponent tail of a numeric literal, entered at the `e`/`E`
/// marker: the signed exponent and the position after its digits.
fn parse_exponent(s: &Vec<char>, pos: usize) -> (r: Result<(i64, usize), ParseError>)
    requires
        pos < s@.len(),
    ensures
        ({
            let out = spec_exponent(s@, pos as int);
            match r {
                Ok(p) => out matches Parsed::Found { v, used } && p.0 == v && p.1 == pos + used
                    && p.1 <= s@.len(),
                Err(e) => out matches Parsed::Failed { err } && e.model() == err,
            }
        }),
{
    let n: usize = s.len();
    let mut p = pos + 1;
    let mut eneg = false;
    if p < n && (s[p] == '+' || s[p] == '-') {
        eneg = s[p] == '-';
        p = p + 1;
    }
    match scan_digits(s, p) {
        None => Err(ParseError::MalformedNumber(p)),
        Some((e, p2)) => {
            if eneg {
                Ok((-e, p2))
            } else {
                Ok((e, p2))
            }
        },
    }
}

/// A numeric literal at `pos`: the recognized number and the position
/// after it, or a malformed-number error at the offending digit run.
pub fn parse_num(s: &Vec<char>, pos: usize) -> (r: Result<(Num, usize), ParseError>)
    requires
        pos <= s@.len(),
    ensures
        ({
            let out = spec_number(s@, pos as int);
            match r {
                Ok(p) => out matches Parsed::Found { v, used } && p.0 == v && p.1 == pos + used
                    && p.1 <= s@.len(),
                Err(e) => out matches Parsed::Failed { err } && e.model() == err,
            }
        }),
{
    let mut p = pos;
    let mut neg = false;
    if p < s.len() && (s[p] == '+' || s[p] == '-') {
        neg = s[p] == '-';
        p = p + 1;
    }
    match scan_digits(s, p) {
        None => Err(ParseError::MalformedNumber(p)),
        Some((iv, p2)) => {
            if p2 < s.len() && s[p2] == '.' {
                let p3 = p2 + 1;
                match scan_digits(s, p3) {
                    None => Err(ParseError::MalformedNumber(p3)),
                    Some((fv, p4)) => {
                        if p4 < s.len() && (s[p4] == 'e' || s[p4] == 'E') {
                            match parse_exponent(s, p4) {
                                Err(e) => Err(e),
                                Ok((ev, p5)) => Ok(
                                    (
                                        Num::Float(
                                            FloatLit {
                                                neg,
                                                int_part: iv,
                                                frac_part: fv,
                                                frac_len: p4 - p3,
                                                exp: ev,
                                            },
                                        ),
                                        p5,
                                    ),
                                ),
                            }
                        } else {
                            Ok(
                                (
                                    Num::Float(
                                        FloatLit {
                                            neg,
                                            int_part: iv,
                                            frac_part: fv,
                                            frac_len: p4 - p3,
                                            exp: 0,
                                        },
                                    ),
                                    p4,
                                ),
                            )
                        }
                    },
                }
            } else if p2 < s.len() && (s[p2] == 'e' || s[p2] == 'E') {
                match parse_exponent(s, p2) {
                    Err(e) => Err(e),
                    Ok((ev, p5)) => Ok(
                        (
                            Num::Float(
                                FloatLit {
                                    neg,
                                    int_part: iv,
                                    frac_part: 0,
                                    frac_len: 0,
                                    exp: ev,
                                },
                            ),
                            p5,
                        ),
                    ),
                }
            } else {
                if neg {
                    Ok((Num::Int(-iv), p2))
                } else {
                    Ok((Num::Int(iv), p2))
                }
            }
        },
    }
}

/// A string literal at `pos`: the text between the quotes, taken
/// verbatim, and the position after the closing quote.
pub fn parse_string(s: &Vec<char>, pos: usize) -> (r: Result<(String, usize), ParseError>)
    requires
        pos <= s@.len(),
    ensures
        ({
            let out = spec_string(s@, pos as int);
            match r {
                Ok(p) => out matches Parsed::Found { v, used } && p.0@ == v && p.1 == pos + used
                    && p.1 <= s@.len(),
                Err(e) => out matches Parsed::Failed { err } && e.model() == err,
            }
        }),
{
    if !(pos < s.len() && s[pos] == '"') {
        return Err(ParseError::NoMatch(pos));
    }
    let mut q = pos + 1;
    while q < s.len() && s[q] != '"'
        invariant
            pos + 1 <= q <= s@.len(),
            forall|j: int| pos + 1 <= j < q ==> s@[j] != '"',
        decreases s@.len() - q,
    {
        q = q + 1;
    }
    proof {
        lemma_find_quote(s@, pos + 1);
        let fq = find_quote(s@, pos + 1);
        if q < s@.len() {
            assert(s@[q as int] == '"');
            assert(fq == q);
        } else {
            assert(fq == s@.len());
        }
    }
    if q >= s.len() {
        return Err(ParseError::UnterminatedString(pos));
    }
    let mut content: Vec<char> = Vec::new();
    let mut i = pos + 1;
    while i < q
        invariant
            pos + 1 <= i <= q <= s@.len(),
            content@.len() == i - (pos + 1),
            forall|j: int| 0 <= j < content@.len() ==> content@[j] == s@[pos + 1 + j],
        decreases q - i,
    {
        let c = s[i];
        content.push(c);
        i = i + 1;
    }
    proof {
        assert(content@ =~= s@.subrange(pos + 1, q as int));
    }
    let st = string_of(&content);
    Ok((st, q + 1))
}

/// The keyword `null` at `pos`: the position after it, or no match.
pub fn parse_null(s: &Vec<char>, pos: usize) -> (r: Result<usize, ParseError>)
    requires
        pos <= s@.len(),
    ensures
        match r {
            Ok(p) => null_at(s@, pos as int) && p == pos + 4,
            Err(e) => !null_at(s@, pos as int) && e == ParseError::NoMatch(pos),
        },
{
    if s.len() - pos >= 4 && s[pos] == 'n' && s[pos + 1] == 'u' && s[pos + 2] == 'l' && s[pos + 3]
        == 'l' {
        Ok(pos + 4)
    } else {
        Err(ParseError::NoMatch(pos))
    }
}

/// A boolean keyword at `pos`: its value and the position after it, or
/// no match.
pub fn parse_bool(s: &Vec<char>, pos: usize) -> (r: Result<(bool, usize), ParseError>)
    requires
        pos <= s@.len(),
    ensures
        match r {
            Ok(p) => (true_at(s@, pos as int) && p.0 == true && p.1 == pos + 4) || (false_at(
                s@,
                pos as int,
            ) && p.0 == false && p.1 == pos + 5),
            Err(e) => !true_at(s@, pos as int) && !false_at(s@, pos as int) && e
                == ParseError::NoMatch(pos),
        },
{
    if s.len() - pos >= 4 && s[pos] == 't' && s[pos + 1] == 'r' && s[pos + 2] == 'u' && s[pos + 3]
        == 'e' {
        Ok((true, pos + 4))
    } else if s.len() - pos >= 5 && s[pos] == 'f' && s[pos + 1] == 'a' && s[pos + 2] == 'l' && s[pos
        + 3] == 's' && s[pos + 4] == 'e' {
        Ok((false, pos + 5))
    } else {
        Err(ParseError::NoMatch(pos))
    }
}

/// Write `k -> v` into the member list: a present key keeps its place
/// and takes the new value, an absent key is appended at the end.
fn upsert_entry(entries: &mut Vec<(String, JsonValue)>, k: String, v: JsonValue)
    ensures
        JsonValue::model_members(final(entries)@) == upsert(
            JsonValue::model_members(old(entries)@),
            k@,
            v.model(),
        ),
{
    let ghost m0 = JsonValue::model_members(old(entries)@);
    proof {
        lemma_model_members(old(entries)@);
        lemma_key_index(m0, k@);
    }
    let mut i: usize = 0;
    let mut hit = false;
    while i < entries.len() && !hit
        invariant
            entries@ == old(entries)@,
            m0 == JsonValue::model_members(entries@),
            m0.len() == entries@.len(),
            forall|j: int|
                0 <= j < entries@.len() ==> #[trigger] m0[j] == (
                entries@[j].0@,
                entries@[j].1.model(),
                ),
            i <= entries@.len(),
            forall|j: int| 0 <= j < i ==> (#[trigger] m0[j]).0 != k@,
            hit ==> i < entries@.len() && m0[i as int].0 == k@,
        decreases
                entries@.len() - i + (if hit {
                    0int
                } else {
                    1int
                }),
    {
        if entries[i].0 == k {
            hit = true;
        } else {
            i = i + 1;
        }
    }
    proof {
        lemma_key_index(m0, k@);
        if hit {
            assert(key_index(m0, k@) == i);
        } else {
            assert(key_index(m0, k@) == m0.len());
        }
    }
    if hit {
        let _replaced = entries.remove(i);
        entries.insert(i, (k, v));
        proof {
            lemma_model_members(entries@);
            let m1 = JsonValue::model_members(entries@);
            let target = m0.update(i as int, (k@, v.model()));
            assert forall|j: int| 0 <= j < m1.len() implies m1[j] == target[j] by {
                assert(m1[j] == (entries@[j].0@, entries@[j].1.model()));
                if j != i {
                    assert(entries@[j] == old(entries)@[j]);
                    assert(m0[j] == (old(entries)@[j].0@, old(entries)@[j].1.model()));
                } else {
                    assert(entries@[j] == (k, v));
                }
            }
            assert(m1 =~= target);
        }
    } else {
        entries.push((k, v));
        proof {
            lemma_model_members(entries@);
            let m1 = JsonValue::model_members(entries@);
            let target = m0.push((k@, v.model()));
            assert forall|j: int| 0 <= j < m1.len() implies m1[j] == target[j] by {
                assert(m1[j] == (entries@[j].0@, entries@[j].1.model()));
                if j < m1.len() - 1 {
                    assert(entries@[j] == old(entries)@[j]);
                    assert(m0[j] == (old(entries)@[j].0@, old(entries)@[j].1.model()));
                } else {
                    assert(entries@[j] == (k, v));
                }
            }
            assert(m1 =~= target);
        }
    }
}

/// The value dispatcher: in fixed priority order, a keyword, a number,
/// a string, or — past optional whitespace — an array or an object;
/// otherwise no match at `pos`. Returns the value and the position
/// after it.
pub fn parse_value(s: &Vec<char>, pos: usize, depth: usize) -> (r: Result<
    (JsonValue, usize),
    ParseError,
>)
    requires
        pos <= s@.len(),
    ensures
        ({
            let out = spec_value(s@, pos as int, depth as nat);
            match r {
                Ok(p) => out matches Parsed::Found { v, used } && p.0.model() == v && p.1 == pos
                    + used && p.1 <= s@.len(),
                Err(e) => out matches Parsed::Failed { err } && e.model() == err,
            }
        }),
    decreases depth, s@.len() - pos, 1int,
{
    if depth == 0 {
        return Err(ParseError::DepthExceeded(pos));
    }
    let n: usize = s.len();
    if n - pos >= 4 && s[pos] == 'n' && s[pos + 1] == 'u' && s[pos + 2] == 'l' && s[pos + 3]
        == 'l' {
        return Ok((JsonValue::Null, pos + 4));
    }
    if n - pos >= 4 && s[pos] == 't' && s[pos + 1] == 'r' && s[pos + 2] == 'u' && s[pos + 3]
        == 'e' {
        return Ok((JsonValue::Bool(true), pos + 4));
    }
    if n - pos >= 5 && s[pos] == 'f' && s[pos + 1] == 'a' && s[pos + 2] == 'l' && s[pos + 3] == 's'
        && s[pos + 4] == 'e' {
        return Ok((JsonValue::Bool(false), pos + 5));
    }
    if pos < n && ('0' <= s[pos] && s[pos] <= '9' || s[pos] == '+' || s[pos] == '-') {
        return match parse_num(s, pos) {
            Ok((num, p2)) => Ok((JsonValue::Number(num), p2)),
            Err(e) => Err(e),
        };
    }
    if pos < n && s[pos] == '"' {
        return match parse_string(s, pos) {
            Ok((st, p2)) => Ok((JsonValue::String(st), p2)),
            Err(e) => Err(e),
        };
    }
    let p = skip_ws(s, pos);
    if p < n && s[p] == '[' {
        match parse_array(s, p, depth) {
            Ok((items, p2)) => Ok((JsonValue::Array(items), p2)),
            Err(e) => Err(e),
        }
    } else if p < n && s[p] == '{' {
        match parse_object(s, p, depth) {
            Ok((entries, p2)) => Ok((JsonValue::Object(entries), p2)),
            Err(e) => Err(e),
        }
    } else {
        Err(ParseError::NoMatch(pos))
    }
}

/// An array, entered at its `[`: the elements in source order and the
/// position after the closing bracket and its trailing whitespace.
pub fn parse_array(s: &Vec<char>, pos: usize, depth: usize) -> (r: Result<
    (Vec<JsonValue>, usize),
    ParseError,
>)
    requires
        pos <= s@.len(),
    ensures
        ({
            let out = spec_array(s@, pos as int, depth as nat);
            match r {
                Ok(p) => out matches Parsed::Found { v, used } && v == ValueModel::Arr(
                    JsonValue::model_elems(p.0@),
                ) && p.1 == pos + used && p.1 <= s@.len(),
                Err(e) => out matches Parsed::Failed { err } && e.model() == err,
            }
        }),
    decreases depth, s@.len() - pos, 0int,
{
    let n: usize = s.len();
    if !(pos < n && s[pos] == '[') {
        return Err(ParseError::NoMatch(pos));
    }
    let p1 = skip_ws(s, pos + 1);
    if p1 < n && s[p1] == ']' {
        let p2 = skip_ws(s, p1 + 1);
        let items: Vec<JsonValue> = Vec::new();
        proof {
            assert(JsonValue::model_elems(items@) =~= Seq::<ValueModel>::empty());
        }
        return Ok((items, p2));
    }
    if depth == 0 {
        return Err(ParseError::DepthExceeded(p1));
    }
    let mut items: Vec<JsonValue> = Vec::new();
    let mut p = p1;
    proof {
        assert(JsonValue::model_elems(items@) =~= Seq::<ValueModel>::empty());
    }
    loop
        invariant
            s@.len() == n,
            pos < n,
            s@[pos as int] == '[',
            depth >= 1,
            pos + 1 <= p1 <= n,
            p1 == pos + 1 + ws_len(s@, pos + 1),
            !(p1 < n && s@[p1 as int] == ']'),
            p1 <= p <= n,
            spec_elems(s@, p1 as int, p1 as int, depth as nat, Seq::<ValueModel>::empty())
                == spec_elems(
                s@,
                p1 as int,
                p as int,
                depth as nat,
                JsonValue::model_elems(items@),
            ),
        decreases n - p,
    {
        match parse_value(s, p, depth - 1) {
            Err(e) => {
                return Err(e);
            },
            Ok((v, pv)) => {
                let ghost items0 = items@;
                items.push(v);
                proof {
                    lemma_model_elems(items@);
                    assert(items@.subrange(0, items@.len() - 1) =~= items0);
                    assert(items@.last() == v);
                    assert(JsonValue::model_elems(items@) == JsonValue::model_elems(items0).push(
                        v.model(),
                    ));
                }
                let pw = skip_ws(s, pv);
                if pw < n && s[pw] == ',' {
                    let pn = skip_ws(s, pw + 1);
                    p = pn;
                } else {
                    if pw < n && s[pw] == ']' {
                        let pend = skip_ws(s, pw + 1);
                        return Ok((items, pend));
                    } else {
                        return Err(ParseError::NoMatch(pw));
                    }
                }
            },
        }
    }
}

/// An object, entered at its `{`: the members with duplicated keys
/// already resolved, and the position after the closing brace and its
/// trailing whitespace.
pub fn parse_object(s: &Vec<char>, pos: usize, depth: usize) -> (r: Result<
    (Vec<(String, JsonValue)>, usize),
    ParseError,
>)
    requires
        pos <= s@.len(),
    ensures
        ({
            let out = spec_object(s@, pos as int, depth as nat);
            match r {
                Ok(p) => out matches Parsed::Found { v, used } && v == ValueModel::Obj(
                    JsonValue::model_members(p.0@),
                ) && p.1 == pos + used && p.1 <= s@.len(),
                Err(e) => out matches Parsed::Failed { err } && e.model() == err,
            }
        }),
    decreases depth, s@.len() - pos, 0int,
{
    let n: usize = s.len();
    if !(pos < n && s[pos] == '{') {
        return Err(ParseError::NoMatch(pos));
    }
    let p1 = skip_ws(s, pos + 1);
    if depth == 0 {
        return Err(ParseError::DepthExceeded(p1));
    }
    let mut entries: Vec<(String, JsonValue)> = Vec::new();
    let ghost mut raw: Seq<(Seq<char>, ValueModel)> = Seq::empty();
    let mut p = p1;
    proof {
        assert(JsonValue::model_members(entries@) =~= dedup_pairs(raw));
    }
    loop
        invariant
            s@.len() == n,
            pos < n,
            s@[pos as int] == '{',
            depth >= 1,
            pos + 1 <= p1 <= n,
            p1 == pos + 1 + ws_len(s@, pos + 1),
            p1 <= p <= n,
            spec_members(
                s@,
                p1 as int,
                p1 as int,
                depth as nat,
                Seq::<(Seq<char>, ValueModel)>::empty(),
            ) == spec_members(s@, p1 as int, p as int, depth as nat, raw),
            JsonValue::model_members(entries@) == dedup_pairs(raw),
        decreases n - p,
    {
        match parse_string(s, p) {
            Err(e) => {
                return Err(e);
            },
            Ok((k, pk)) => {
                let pc = skip_ws(s, pk);
                if !(pc < n && s[pc] == ':') {
                    return Err(ParseError::NoMatch(pc));
                }
                let pv0 = skip_ws(s, pc + 1);
                match parse_value(s, pv0, depth - 1) {
                    Err(e) => {
                        return Err(e);
                    },
                    Ok((v, pv)) => {
                        proof {
                            lemma_dedup_push(raw, k@, v.model());
                            raw = raw.push((k@, v.model()));
                        }
                        upsert_entry(&mut entries, k, v);
                        let pw = skip_ws(s, pv);
                        if pw < n && s[pw] == ',' {
                            let pn = skip_ws(s, pw + 1);
                            p = pn;
                        } else {
                            if pw < n && s[pw] == '}' {
                                let pend = skip_ws(s, pw + 1);
                                return Ok((entries, pend));
                            } else {
                                return Err(ParseError::NoMatch(pw));
                            }
                        }
                    },
                }
            },
        }
    }
}

/// The depth budget `parse_json` allows before it reports that the
/// nesting went too deep.
pub const DEFAULT_MAX_DEPTH: usize = 64;

/// Parse a whole text with an explicit depth budget. Characters after
/// the recognized value are left unread, as in `spec_parse`.
pub fn parse_json_with_limit(text: &str, max_depth: usize) -> (r: Result<JsonValue, ParseError>)
    ensures
        ({
            let out = spec_parse(text@, max_depth as nat);
            match r {
                Ok(v) => out matches Parsed::Found { v: m, .. } && v.model() == m,
                Err(e) => out matches Parsed::Failed { err } && e.model() == err,
            }
        }),
{
    let cs = chars_of(text);
    match parse_value(&cs, 0, max_depth) {
        Ok((v, _end)) => Ok(v),
        Err(e) => Err(e),
    }
}

/// Parse a whole text: the value tree its first recognized value
/// forms, or the first error met, with the default depth budget.
pub fn parse_json(text: &str) -> (r: Result<JsonValue, ParseError>)
    ensures
        ({
            let out = spec_parse(text@, DEFAULT_MAX_DEPTH as nat);
            match r {
                Ok(v) => out matches Parsed::Found { v: m, .. } && v.model() == m,
                Err(e) => out matches Parsed::Failed { err } && e.model() == err,
            }
        }),
{
    parse_json_with_limit(text, DEFAULT_MAX_DEPTH)
}

} // verus!
