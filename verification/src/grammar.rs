//! The mathematical model of the grammar: total spec functions over a
//! sequence of characters and a position, one per production. Each
//! recognizer either finds a value and says how many characters it
//! consumed, or fails with an error carrying the offset of the failure.
//! The executable recognizers are proved to return exactly what these
//! functions say.
use vstd::prelude::*;

use crate::value::ErrModel;
use crate::value::FloatLit;
use crate::value::Num;
use crate::value::ValueModel;

verus! {

/// The outcome of a recognizer: a value together with the number of
/// characters consumed from the starting position, or an error.
pub enum Parsed<T> {
    Found { v: T, used: nat },
    Failed { err: ErrModel },
}

/// The whitespace the grammar discards around delimiters.
pub open spec fn is_ws(c: char) -> bool {
    c == ' ' || c == '\t' || c == '\n' || c == '\r'
}

/// A decimal digit.
pub open spec fn is_digit(c: char) -> bool {
    '0' <= c && c <= '9'
}

/// The numeric value of a decimal digit.
pub open spec fn digit_val(c: char) -> int {
    (c as u32) - ('0' as u32)
}

/// How many whitespace characters stand at `pos`.
pub open spec fn ws_len(s: Seq<char>, pos: int) -> nat
    decreases s.len() - pos,
{
    if pos < s.len() && 0 <= pos && is_ws(s[pos]) {
        1 + ws_len(s, pos + 1)
    } else {
        0
    }
}

/// How many decimal digits stand at `pos`.
pub open spec fn digits_len(s: Seq<char>, pos: int) -> nat
    decreases s.len() - pos,
{
    if pos < s.len() && 0 <= pos && is_digit(s[pos]) {
        1 + digits_len(s, pos + 1)
    } else {
        0
    }
}

/// The value of the `n` digits starting at `pos`, read left to right.
pub open spec fn digits_val(s: Seq<char>, pos: int, n: int) -> int
    decreases n,
{
    if n <= 0 {
        0
    } else {
        digits_val(s, pos, n - 1) * 10 + digit_val(s[pos + n - 1])
    }
}

/// The index of the first `"` at or after `pos`, or the length of `s`
/// when there is none before the end.
pub open spec fn find_quote(s: Seq<char>, pos: int) -> int
    decreases s.len() - pos,
{
    if pos < s.len() && 0 <= pos {
        if s[pos] == '"' {
            pos
        } else {
            find_quote(s, pos + 1)
        }
    } else {
        s.len() as int
    }
}

/// The remaining input after `pos`, clamped at zero; the measure the
/// structural recognizers recurse on.
pub open spec fn rem(s: Seq<char>, pos: int) -> int {
    if s.len() - pos >= 0 {
        s.len() - pos
    } else {
        0
    }
}

/// The keyword `null` stands at `pos`.
pub open spec fn null_at(s: Seq<char>, pos: int) -> bool {
    &&& 0 <= pos
    &&& pos + 4 <= s.len()
    &&& s[pos] == 'n'
    &&& s[pos + 1] == 'u'
    &&& s[pos + 2] == 'l'
    &&& s[pos + 3] == 'l'
}

/// The keyword `true` stands at `pos`.
pub open spec fn true_at(s: Seq<char>, pos: int) -> bool {
    &&& 0 <= pos
    &&& pos + 4 <= s.len()
    &&& s[pos] == 't'
    &&& s[pos + 1] == 'r'
    &&& s[pos + 2] == 'u'
    &&& s[pos + 3] == 'e'
}

/// The keyword `false` stands at `pos`.
pub open spec fn false_at(s: Seq<char>, pos: int) -> bool {
    &&& 0 <= pos
    &&& pos + 5 <= s.len()
    &&& s[pos] == 'f'
    &&& s[pos + 1] == 'a'
    &&& s[pos + 2] == 'l'
    &&& s[pos + 3] == 's'
    &&& s[pos + 4] == 'e'
}

/// A character that can open a numeric literal.
pub open spec fn num_start(s: Seq<char>, pos: int) -> bool {
    0 <= pos < s.len() && (is_digit(s[pos]) || s[pos] == '+' || s[pos] == '-')
}

/// The exponent tail of a numeric literal, entered at the `e`/`E`
/// marker itself: an optional sign and one or more digits. The digits
/// must fit in 64 signed bits.
pub open spec fn spec_exponent(s: Seq<char>, pos: int) -> Parsed<i64> {
    let p1 = pos + 1;
    let signed = 0 <= p1 < s.len() && (s[p1] == '+' || s[p1] == '-');
    let eneg = 0 <= p1 < s.len() && s[p1] == '-';
    let p2 = if signed {
        p1 + 1
    } else {
        p1
    };
    let d = digits_len(s, p2);
    if d == 0 {
        Parsed::Failed { err: ErrModel::MalformedNumber(p2) }
    } else if digits_val(s, p2, d as int) > i64::MAX {
        Parsed::Failed { err: ErrModel::MalformedNumber(p2) }
    } else {
        let e = digits_val(s, p2, d as int);
        Parsed::Found {
            v: (if eneg {
                -e
            } else {
                e
            }) as i64,
            used: (p2 + d - pos) as nat,
        }
    }
}

/// A numeric literal: an optional sign, one or more digits, an optional
/// fractional part, an optional exponent. With neither fractional part
/// nor exponent the literal is an `Int`; otherwise it is a `Float` kept
/// as its decimal components. Each digit run must fit in 64 signed bits.
pub open spec fn spec_number(s: Seq<char>, pos: int) -> Parsed<Num> {
    let signed = 0 <= pos < s.len() && (s[pos] == '+' || s[pos] == '-');
    let neg = 0 <= pos < s.len() && s[pos] == '-';
    let p1 = if signed {
        pos + 1
    } else {
        pos
    };
    let d1 = digits_len(s, p1);
    if d1 == 0 {
        Parsed::Failed { err: ErrModel::MalformedNumber(p1) }
    } else if digits_val(s, p1, d1 as int) > i64::MAX {
        Parsed::Failed { err: ErrModel::MalformedNumber(p1) }
    } else {
        let iv = digits_val(s, p1, d1 as int);
        let p2 = p1 + d1;
        if p2 < s.len() && s[p2] == '.' {
            let p3 = p2 + 1;
            let d2 = digits_len(s, p3);
            if d2 == 0 {
                Parsed::Failed { err: ErrModel::MalformedNumber(p3) }
            } else if digits_val(s, p3, d2 as int) > i64::MAX {
                Parsed::Failed { err: ErrModel::MalformedNumber(p3) }
            } else {
                let fv = digits_val(s, p3, d2 as int);
                let p4 = p3 + d2;
                if p4 < s.len() && (s[p4] == 'e' || s[p4] == 'E') {
                    match spec_exponent(s, p4) {
                        Parsed::Found { v: e, used: u } => Parsed::Found {
                            v: Num::Float(
                                FloatLit {
                                    neg,
                                    int_part: iv as i64,
                                    frac_part: fv as i64,
                                    frac_len: d2 as usize,
                                    exp: e,
                                },
                            ),
                            used: (p4 - pos + u) as nat,
                        },
                        Parsed::Failed { err } => Parsed::Failed { err },
                    }
                } else {
                    Parsed::Found {
                        v: Num::Float(
                            FloatLit {
                                neg,
                                int_part: iv as i64,
                                frac_part: fv as i64,
                                frac_len: d2 as usize,
                                exp: 0,
                            },
                        ),
                        used: (p4 - pos) as nat,
                    }
                }
            }
        } else if p2 < s.len() && (s[p2] == 'e' || s[p2] == 'E') {
            match spec_exponent(s, p2) {
                Parsed::Found { v: e, used: u } => Parsed::Found {
                    v: Num::Float(
                        FloatLit { neg, int_part: iv as i64, frac_part: 0, frac_len: 0, exp: e },
                    ),
                    used: (p2 - pos + u) as nat,
                },
                Parsed::Failed { err } => Parsed::Failed { err },
            }
        } else {
            Parsed::Found {
                v: Num::Int(
                    (if neg {
                        -iv
                    } else {
                        iv
                    }) as i64,
                ),
                used: (p2 - pos) as nat,
            }
        }
    }
}

/// A string literal: an opening quote, every character up to the next
/// quote taken verbatim, and the closing quote. Fails as unterminated,
/// carrying the offset of the opening quote, when no closing quote
/// follows.
pub open spec fn spec_string(s: Seq<char>, pos: int) -> Parsed<Seq<char>> {
    if !(0 <= pos < s.len() && s[pos] == '"') {
        Parsed::Failed { err: ErrModel::NoMatch(pos) }
    } else {
        let q = find_quote(s, pos + 1);
        if q >= s.len() {
            Parsed::Failed { err: ErrModel::UnterminatedString(pos) }
        } else {
            Parsed::Found { v: s.subrange(pos + 1, q), used: (q + 1 - pos) as nat }
        }
    }
}

/// The run found by `ws_len` is whitespace, ends within the input, and
/// is maximal.
pub proof fn lemma_ws_len(s: Seq<char>, pos: int)
    requires
        0 <= pos <= s.len(),
    ensures
        pos + ws_len(s, pos) <= s.len(),
        forall|j: int| pos <= j < pos + ws_len(s, pos) ==> is_ws(#[trigger] s[j]),
        pos + ws_len(s, pos) < s.len() ==> !is_ws(s[pos + ws_len(s, pos)]),
    decreases s.len() - pos,
{
    if pos < s.len() && is_ws(s[pos]) {
        lemma_ws_len(s, pos + 1);
    }
}

/// The run found by `digits_len` is digits, ends within the input, and
/// is maximal.
pub proof fn lemma_digits_len(s: Seq<char>, pos: int)
    requires
        0 <= pos <= s.len(),
    ensures
        pos + digits_len(s, pos) <= s.len(),
        forall|j: int| pos <= j < pos + digits_len(s, pos) ==> is_digit(#[trigger] s[j]),
        pos + digits_len(s, pos) < s.len() ==> !is_digit(s[pos + digits_len(s, pos)]),
    decreases s.len() - pos,
{
    if pos < s.len() && is_digit(s[pos]) {
        lemma_digits_len(s, pos + 1);
    }
}

/// Over a run of digits the accumulated value is non-negative.
pub proof fn lemma_digits_val_nonneg(s: Seq<char>, pos: int, n: int)
    requires
        forall|j: int| pos <= j < pos + n ==> is_digit(#[trigger] s[j]),
    ensures
        digits_val(s, pos, n) >= 0,
    decreases n,
{
    if n > 0 {
        lemma_digits_val_nonneg(s, pos, n - 1);
        assert(is_digit(s[pos + n - 1]));
        assert(digits_val(s, pos, n - 1) * 10 >= 0) by (nonlinear_arith)
            requires
                digits_val(s, pos, n - 1) >= 0,
        ;
    }
}

/// Over a run of digits the accumulated value can only grow as the run
/// extends.
pub proof fn lemma_digits_val_grows(s: Seq<char>, pos: int, m: int, n: int)
    requires
        0 <= m <= n,
        forall|j: int| pos <= j < pos + n ==> is_digit(#[trigger] s[j]),
    ensures
        0 <= digits_val(s, pos, m) <= digits_val(s, pos, n),
    decreases n - m,
{
    lemma_digits_val_nonneg(s, pos, m);
    if m < n {
        lemma_digits_val_grows(s, pos, m, n - 1);
        assert(is_digit(s[pos + n - 1]));
        assert(digit_val(s[pos + n - 1]) >= 0);
        assert(digits_val(s, pos, n) == digits_val(s, pos, n - 1) * 10 + digit_val(
            s[pos + n - 1],
        ));
        assert(digits_val(s, pos, n - 1) * 10 >= digits_val(s, pos, n - 1)) by (nonlinear_arith)
            requires
                digits_val(s, pos, n - 1) >= 0,
        ;
    }
}

/// The first index whose key equals `k`, or the length of `ps` when no
/// entry has that key.
pub open spec fn key_index(ps: Seq<(Seq<char>, ValueModel)>, k: Seq<char>) -> int
    decreases ps.len(),
{
    if ps.len() == 0 {
        0
    } else if ps[0].0 == k {
        0
    } else {
        1 + key_index(ps.subrange(1, ps.len() as int), k)
    }
}

/// Write `k -> v` into a member list: a present key keeps its place and
/// takes the new value, an absent key is appended.
pub open spec fn upsert(
    ps: Seq<(Seq<char>, ValueModel)>,
    k: Seq<char>,
    v: ValueModel,
) -> Seq<(Seq<char>, ValueModel)> {
    if key_index(ps, k) < ps.len() {
        ps.update(key_index(ps, k), (k, v))
    } else {
        ps.push((k, v))
    }
}

/// The member list an object ends up with: each pair written in source
/// order, a duplicated key keeping its first place and its last value.
pub open spec fn dedup_pairs(ps: Seq<(Seq<char>, ValueModel)>) -> Seq<(Seq<char>, ValueModel)>
    decreases ps.len(),
{
    if ps.len() == 0 {
        Seq::empty()
    } else {
        upsert(dedup_pairs(ps.subrange(0, ps.len() - 1)), ps.last().0, ps.last().1)
    }
}

/// What `key_index` returns: the first index bearing `k`, every earlier
/// entry bearing another key.
pub proof fn lemma_key_index(ps: Seq<(Seq<char>, ValueModel)>, k: Seq<char>)
    ensures
        0 <= key_index(ps, k) <= ps.len(),
        key_index(ps, k) < ps.len() ==> ps[key_index(ps, k)].0 == k,
        forall|j: int| 0 <= j < key_index(ps, k) ==> (#[trigger] ps[j]).0 != k,
    decreases ps.len(),
{
    if ps.len() > 0 && ps[0].0 != k {
        let tail = ps.subrange(1, ps.len() as int);
        lemma_key_index(tail, k);
        assert forall|j: int| 0 <= j < key_index(ps, k) implies (#[trigger] ps[j]).0 != k by {
            if j > 0 {
                assert(ps[j] == tail[j - 1]);
            }
        }
    }
}

/// Writing the pairs one by one is the same as deduplicating the whole
/// list: `dedup_pairs` commutes with appending a pair.
pub proof fn lemma_dedup_push(ps: Seq<(Seq<char>, ValueModel)>, k: Seq<char>, v: ValueModel)
    ensures
        dedup_pairs(ps.push((k, v))) == upsert(dedup_pairs(ps), k, v),
{
    let whole = ps.push((k, v));
    assert(whole.subrange(0, whole.len() - 1) =~= ps);
    assert(whole.last() == (k, v));
}

/// What `find_quote` returns: the first quote at or after `pos`, or the
/// end of the input.
pub proof fn lemma_find_quote(s: Seq<char>, pos: int)
    requires
        0 <= pos <= s.len(),
    ensures
        pos <= find_quote(s, pos) <= s.len(),
        find_quote(s, pos) < s.len() ==> s[find_quote(s, pos)] == '"',
        forall|j: int| pos <= j < find_quote(s, pos) ==> s[j] != '"',
    decreases s.len() - pos,
{
    if pos < s.len() && s[pos] != '"' {
        lemma_find_quote(s, pos + 1);
    }
}

/// The value dispatcher. In fixed priority order it recognizes the
/// literal keywords, a number, a string, and — after optional leading
/// whitespace — an array or an object, by the class of the next
/// character; when none applies it fails with no match at `pos`. A
/// depth budget of zero fails before looking at anything.
pub open spec fn spec_value(s: Seq<char>, pos: int, depth: nat) -> Parsed<ValueModel>
    decreases depth, rem(s, pos), 1int,
{
    if depth == 0 {
        Parsed::Failed { err: ErrModel::DepthExceeded(pos) }
    } else if null_at(s, pos) {
        Parsed::Found { v: ValueModel::Null, used: 4 }
    } else if true_at(s, pos) {
        Parsed::Found { v: ValueModel::Bool(true), used: 4 }
    } else if false_at(s, pos) {
        Parsed::Found { v: ValueModel::Bool(false), used: 5 }
    } else if num_start(s, pos) {
        match spec_number(s, pos) {
            Parsed::Found { v, used } => Parsed::Found { v: ValueModel::Number(v), used },
            Parsed::Failed { err } => Parsed::Failed { err },
        }
    } else if 0 <= pos < s.len() && s[pos] == '"' {
        match spec_string(s, pos) {
            Parsed::Found { v, used } => Parsed::Found { v: ValueModel::Str(v), used },
            Parsed::Failed { err } => Parsed::Failed { err },
        }
    } else {
        let w = ws_len(s, pos);
        let p = pos + w;
        if 0 <= p < s.len() && s[p] == '[' {
            match spec_array(s, p, depth) {
                Parsed::Found { v, used } => Parsed::Found { v, used: w + used },
                Parsed::Failed { err } => Parsed::Failed { err },
            }
        } else if 0 <= p < s.len() && s[p] == '{' {
            match spec_object(s, p, depth) {
                Parsed::Found { v, used } => Parsed::Found { v, used: w + used },
                Parsed::Failed { err } => Parsed::Failed { err },
            }
        } else {
            Parsed::Failed { err: ErrModel::NoMatch(pos) }
        }
    }
}

/// An array, entered at its `[`: either whitespace and `]` (the empty
/// array), or comma-separated elements, then whitespace, `]`, and
/// trailing whitespace.
pub open spec fn spec_array(s: Seq<char>, pos: int, depth: nat) -> Parsed<ValueModel>
    decreases depth, rem(s, pos), 0int,
{
    if !(0 <= pos < s.len() && s[pos] == '[') {
        Parsed::Failed { err: ErrModel::NoMatch(pos) }
    } else {
        let w1 = ws_len(s, pos + 1);
        let p1 = pos + 1 + w1;
        if p1 < s.len() && s[p1] == ']' {
            let w2 = ws_len(s, p1 + 1);
            Parsed::Found { v: ValueModel::Arr(Seq::empty()), used: (p1 + 1 + w2 - pos) as nat }
        } else {
            match spec_elems(s, p1, p1, depth, Seq::empty()) {
                Parsed::Found { v: es, used: u } => {
                    let p2 = p1 + u;
                    let w2 = ws_len(s, p2);
                    let p3 = p2 + w2;
                    if p3 < s.len() && s[p3] == ']' {
                        let w3 = ws_len(s, p3 + 1);
                        Parsed::Found { v: ValueModel::Arr(es), used: (p3 + 1 + w3 - pos) as nat }
                    } else {
                        Parsed::Failed { err: ErrModel::NoMatch(p3) }
                    }
                },
                Parsed::Failed { err } => Parsed::Failed { err },
            }
        }
    }
}

/// The elements of an array from `pos` on: a value, then — after a
/// comma surrounded by optional whitespace — the rest. The result
/// carries the elements of `acc` first, and counts the characters
/// consumed from `pos0` up to the end of the last value (whitespace
/// before a non-comma is left alone). Each element spends one level of
/// the depth budget.
pub open spec fn spec_elems(
    s: Seq<char>,
    pos0: int,
    pos: int,
    depth: nat,
    acc: Seq<ValueModel>,
) -> Parsed<Seq<ValueModel>>
    decreases depth, rem(s, pos), 0int,
{
    if depth == 0 {
        Parsed::Failed { err: ErrModel::DepthExceeded(pos) }
    } else {
        match spec_value(s, pos, (depth - 1) as nat) {
            Parsed::Found { v, used: u } => {
                let p1 = pos + u;
                let w1 = ws_len(s, p1);
                let p2 = p1 + w1;
                if p2 < s.len() && s[p2] == ',' {
                    let w2 = ws_len(s, p2 + 1);
                    let p3 = p2 + 1 + w2;
                    spec_elems(s, pos0, p3, depth, acc.push(v))
                } else {
                    Parsed::Found { v: acc.push(v), used: (p1 - pos0) as nat }
                }
            },
            Parsed::Failed { err } => Parsed::Failed { err },
        }
    }
}

/// An object, entered at its `{`: one or more `string : value` members
/// separated by commas, then whitespace, `}`, and trailing whitespace.
/// An empty `{}` has no member where one is required and fails with no
/// match. Duplicated keys are resolved by `dedup_pairs`.
pub open spec fn spec_object(s: Seq<char>, pos: int, depth: nat) -> Parsed<ValueModel>
    decreases depth, rem(s, pos), 0int,
{
    if !(0 <= pos < s.len() && s[pos] == '{') {
        Parsed::Failed { err: ErrModel::NoMatch(pos) }
    } else {
        let w1 = ws_len(s, pos + 1);
        let p1 = pos + 1 + w1;
        match spec_members(s, p1, p1, depth, Seq::empty()) {
            Parsed::Found { v: ps, used: u } => {
                let p2 = p1 + u;
                let w2 = ws_len(s, p2);
                let p3 = p2 + w2;
                if p3 < s.len() && s[p3] == '}' {
                    let w3 = ws_len(s, p3 + 1);
                    Parsed::Found {
                        v: ValueModel::Obj(dedup_pairs(ps)),
                        used: (p3 + 1 + w3 - pos) as nat,
                    }
                } else {
                    Parsed::Failed { err: ErrModel::NoMatch(p3) }
                }
            },
            Parsed::Failed { err } => Parsed::Failed { err },
        }
    }
}

/// The members of an object from `pos` on: a string key, a colon
/// surrounded by optional whitespace, a value, then — after a comma —
/// the rest, as in `spec_elems`. The pairs are collected in source
/// order, duplicates included.
pub open spec fn spec_members(
    s: Seq<char>,
    pos0: int,
    pos: int,
    depth: nat,
    acc: Seq<(Seq<char>, ValueModel)>,
) -> Parsed<Seq<(Seq<char>, ValueModel)>>
    decreases depth, rem(s, pos), 0int,
{
    if depth == 0 {
        Parsed::Failed { err: ErrModel::DepthExceeded(pos) }
    } else {
        match spec_string(s, pos) {
            Parsed::Found { v: k, used: uk } => {
                let p1 = pos + uk;
                let w1 = ws_len(s, p1);
                let p2 = p1 + w1;
                if p2 < s.len() && s[p2] == ':' {
                    let w2 = ws_len(s, p2 + 1);
                    let p3 = p2 + 1 + w2;
                    match spec_value(s, p3, (depth - 1) as nat) {
                        Parsed::Found { v, used: uv } => {
                            let p4 = p3 + uv;
                            let w3 = ws_len(s, p4);
                            let p5 = p4 + w3;
                            if p5 < s.len() && s[p5] == ',' {
                                let w4 = ws_len(s, p5 + 1);
                                let p6 = p5 + 1 + w4;
                                spec_members(s, pos0, p6, depth, acc.push((k, v)))
                            } else {
                                Parsed::Found { v: acc.push((k, v)), used: (p4 - pos0) as nat }
                            }
                        },
                        Parsed::Failed { err } => Parsed::Failed { err },
                    }
                } else {
                    Parsed::Failed { err: ErrModel::NoMatch(p2) }
                }
            },
            Parsed::Failed { err } => Parsed::Failed { err },
        }
    }
}

/// What parsing a whole text means: the value dispatcher run at the
/// start of the text with the given depth budget. Characters after the
/// recognized value are left unread.
pub open spec fn spec_parse(t: Seq<char>, depth: nat) -> Parsed<ValueModel> {
    spec_value(t, 0, depth)
}

} // verus!
