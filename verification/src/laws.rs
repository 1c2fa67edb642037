//! Laws that hold across the recognizers, stated over the grammar
//! model and proved once and for all.
use vstd::prelude::*;

use crate::grammar::dedup_pairs;
use crate::grammar::digits_len;
use crate::grammar::digits_val;
use crate::grammar::key_index;
use crate::grammar::lemma_digits_len;
use crate::grammar::lemma_key_index;
use crate::grammar::lemma_ws_len;
use crate::grammar::spec_array;
use crate::grammar::spec_elems;
use crate::grammar::spec_members;
use crate::grammar::spec_object;
use crate::grammar::spec_parse;
use crate::grammar::spec_value;
use crate::grammar::upsert;
use crate::grammar::ws_len;
use crate::grammar::Parsed;
use crate::value::distinct_keys;
use crate::value::lemma_wf_members;
use crate::value::wf_elems;
use crate::value::wf_members;
use crate::value::wf_model;
use crate::value::JsonValue;
use crate::value::Num;
use crate::value::ValueModel;

verus! {

/// A text that is exactly an integer literal: an optional sign, then
/// digits to the end of the text, whose value fits in 64 signed bits.
pub open spec fn int_literal(s: Seq<char>) -> bool {
    let k: int = if s.len() > 0 && (s[0] == '+' || s[0] == '-') {
        1
    } else {
        0
    };
    &&& s.len() - k >= 1
    &&& digits_len(s, k) == s.len() - k
    &&& digits_val(s, k, s.len() - k) <= i64::MAX
}

/// The mathematical value of an integer literal.
pub open spec fn int_literal_val(s: Seq<char>) -> int {
    let k: int = if s.len() > 0 && (s[0] == '+' || s[0] == '-') {
        1
    } else {
        0
    };
    if s.len() > 0 && s[0] == '-' {
        -digits_val(s, k, s.len() - k)
    } else {
        digits_val(s, k, s.len() - k)
    }
}

/// Parsing the textual form of an integer yields exactly that integer:
/// a text that is an integer literal parses, whole, to `Number(Int)`
/// of its value, under any positive depth budget.
pub proof fn lemma_parse_int_literal(s: Seq<char>, depth: nat)
    requires
        int_literal(s),
        depth >= 1,
    ensures
        spec_parse(s, depth) == (Parsed::Found {
            v: ValueModel::Number(Num::Int(int_literal_val(s) as i64)),
            used: s.len(),
        }),
{
    let k: int = if s.len() > 0 && (s[0] == '+' || s[0] == '-') {
        1
    } else {
        0
    };
    lemma_digits_len(s, k);
    assert(crate::grammar::is_digit(s[k]));
    if k == 0 {
        assert('0' <= s[0] && s[0] <= '9');
    }
    assert(crate::grammar::num_start(s, 0));
    assert(!crate::grammar::null_at(s, 0));
    assert(!crate::grammar::true_at(s, 0));
    assert(!crate::grammar::false_at(s, 0));
}

/// A text that is exactly a fractional literal without exponent: an
/// optional sign, digits, a decimal point, then digits to the end of
/// the text, each digit run fitting in 64 signed bits.
pub open spec fn frac_literal(s: Seq<char>) -> bool {
    let k: int = if s.len() > 0 && (s[0] == '+' || s[0] == '-') {
        1
    } else {
        0
    };
    let d1 = digits_len(s, k);
    let p2 = k + d1;
    &&& d1 >= 1
    &&& digits_val(s, k, d1 as int) <= i64::MAX
    &&& p2 < s.len() && s[p2] == '.'
    &&& digits_len(s, p2 + 1) == s.len() - (p2 + 1)
    &&& s.len() - (p2 + 1) >= 1
    &&& digits_val(s, p2 + 1, s.len() - (p2 + 1)) <= i64::MAX
}

/// Parsing the textual form of a fractional literal yields a float
/// carrying exactly the literal's decimal components: its sign, the
/// value of the digits before the point, the value and the length of
/// the digit run after it, and a zero exponent. The components read
/// back as the literal's mathematical value
/// `(-1)^neg * (int_part + frac_part / 10^frac_len)`.
pub proof fn lemma_parse_frac_literal(s: Seq<char>, depth: nat)
    requires
        frac_literal(s),
        depth >= 1,
    ensures
        ({
            let k: int = if s[0] == '+' || s[0] == '-' {
                1
            } else {
                0
            };
            let d1 = digits_len(s, k);
            let p3 = k + d1 + 1;
            spec_parse(s, depth) == (Parsed::Found {
                v: ValueModel::Number(
                    Num::Float(
                        crate::value::FloatLit {
                            neg: s[0] == '-',
                            int_part: digits_val(s, k, d1 as int) as i64,
                            frac_part: digits_val(s, p3, s.len() - p3) as i64,
                            frac_len: (s.len() - p3) as usize,
                            exp: 0,
                        },
                    ),
                ),
                used: s.len(),
            })
        }),
{
    let k: int = if s[0] == '+' || s[0] == '-' {
        1
    } else {
        0
    };
    lemma_digits_len(s, k);
    assert(crate::grammar::is_digit(s[k]));
    if k == 0 {
        assert('0' <= s[0] && s[0] <= '9');
    }
    assert(crate::grammar::num_start(s, 0));
    assert(!crate::grammar::null_at(s, 0));
    assert(!crate::grammar::true_at(s, 0));
    assert(!crate::grammar::false_at(s, 0));
    let p3 = k + digits_len(s, k) + 1;
    lemma_digits_len(s, p3);
}

/// An exponent tail standing at `pos` (the `e`/`E` marker) that runs to
/// the end of the text: an optional sign, then digits to the end, whose
/// value fits in 64 signed bits.
pub open spec fn exp_tail_at(s: Seq<char>, pos: int) -> bool {
    let ks: int = if pos + 1 < s.len() && (s[pos + 1] == '+' || s[pos + 1] == '-') {
        1
    } else {
        0
    };
    let p = pos + 1 + ks;
    &&& s.len() - p >= 1
    &&& digits_len(s, p) == s.len() - p
    &&& digits_val(s, p, s.len() - p) <= i64::MAX
}

/// The signed value of an exponent tail standing at `pos`.
pub open spec fn exp_tail_val(s: Seq<char>, pos: int) -> int {
    let ks: int = if pos + 1 < s.len() && (s[pos + 1] == '+' || s[pos + 1] == '-') {
        1
    } else {
        0
    };
    let p = pos + 1 + ks;
    if pos + 1 < s.len() && s[pos + 1] == '-' {
        -digits_val(s, p, s.len() - p)
    } else {
        digits_val(s, p, s.len() - p)
    }
}

/// A text that is exactly a numeric literal with an exponent and no
/// decimal point: an optional sign, digits, `e`/`E`, then an exponent
/// tail to the end of the text.
pub open spec fn exp_literal(s: Seq<char>) -> bool {
    let k: int = if s.len() > 0 && (s[0] == '+' || s[0] == '-') {
        1
    } else {
        0
    };
    let d1 = digits_len(s, k);
    let p2 = k + d1;
    &&& d1 >= 1
    &&& digits_val(s, k, d1 as int) <= i64::MAX
    &&& p2 < s.len() && (s[p2] == 'e' || s[p2] == 'E')
    &&& exp_tail_at(s, p2)
}

/// Parsing a numeric literal that carries an exponent but no decimal
/// point yields a float nonetheless, with exactly the literal's decimal
/// components: its sign, the value of the digits before the marker, an
/// empty fraction, and the signed exponent. The components read back as
/// the literal's mathematical value `(-1)^neg * int_part * 10^exp`.
pub proof fn lemma_parse_exp_literal(s: Seq<char>, depth: nat)
    requires
        exp_literal(s),
        depth >= 1,
    ensures
        ({
            let k: int = if s[0] == '+' || s[0] == '-' {
                1
            } else {
                0
            };
            let d1 = digits_len(s, k);
            spec_parse(s, depth) == (Parsed::Found {
                v: ValueModel::Number(
                    Num::Float(
                        crate::value::FloatLit {
                            neg: s[0] == '-',
                            int_part: digits_val(s, k, d1 as int) as i64,
                            frac_part: 0,
                            frac_len: 0,
                            exp: exp_tail_val(s, k + d1) as i64,
                        },
                    ),
                ),
                used: s.len(),
            })
        }),
{
    let k: int = if s[0] == '+' || s[0] == '-' {
        1
    } else {
        0
    };
    lemma_digits_len(s, k);
    assert(crate::grammar::is_digit(s[k]));
    if k == 0 {
        assert('0' <= s[0] && s[0] <= '9');
    }
    assert(crate::grammar::num_start(s, 0));
    assert(!crate::grammar::null_at(s, 0));
    assert(!crate::grammar::true_at(s, 0));
    assert(!crate::grammar::false_at(s, 0));
    let p2 = k + digits_len(s, k);
    let ks: int = if p2 + 1 < s.len() && (s[p2 + 1] == '+' || s[p2 + 1] == '-') {
        1
    } else {
        0
    };
    lemma_digits_len(s, p2 + 1 + ks);
}

/// A text that is exactly a numeric literal with a fractional part and
/// an exponent: an optional sign, digits, a decimal point, digits,
/// `e`/`E`, then an exponent tail to the end of the text.
pub open spec fn frac_exp_literal(s: Seq<char>) -> bool {
    let k: int = if s.len() > 0 && (s[0] == '+' || s[0] == '-') {
        1
    } else {
        0
    };
    let d1 = digits_len(s, k);
    let p2 = k + d1;
    let d2 = digits_len(s, p2 + 1);
    let p4 = p2 + 1 + d2;
    &&& d1 >= 1
    &&& digits_val(s, k, d1 as int) <= i64::MAX
    &&& p2 < s.len() && s[p2] == '.'
    &&& d2 >= 1
    &&& digits_val(s, p2 + 1, d2 as int) <= i64::MAX
    &&& p4 < s.len() && (s[p4] == 'e' || s[p4] == 'E')
    &&& exp_tail_at(s, p4)
}

/// Parsing a numeric literal with both a fractional part and an
/// exponent yields a float carrying exactly the literal's decimal
/// components, which read back as its mathematical value
/// `(-1)^neg * (int_part + frac_part / 10^frac_len) * 10^exp`.
pub proof fn lemma_parse_frac_exp_literal(s: Seq<char>, depth: nat)
    requires
        frac_exp_literal(s),
        depth >= 1,
    ensures
        ({
            let k: int = if s[0] == '+' || s[0] == '-' {
                1
            } else {
                0
            };
            let d1 = digits_len(s, k);
            let p3 = k + d1 + 1;
            let d2 = digits_len(s, p3);
            spec_parse(s, depth) == (Parsed::Found {
                v: ValueModel::Number(
                    Num::Float(
                        crate::value::FloatLit {
                            neg: s[0] == '-',
                            int_part: digits_val(s, k, d1 as int) as i64,
                            frac_part: digits_val(s, p3, d2 as int) as i64,
                            frac_len: d2 as usize,
                            exp: exp_tail_val(s, p3 + d2) as i64,
                        },
                    ),
                ),
                used: s.len(),
            })
        }),
{
    let k: int = if s[0] == '+' || s[0] == '-' {
        1
    } else {
        0
    };
    lemma_digits_len(s, k);
    assert(crate::grammar::is_digit(s[k]));
    if k == 0 {
        assert('0' <= s[0] && s[0] <= '9');
    }
    assert(crate::grammar::num_start(s, 0));
    assert(!crate::grammar::null_at(s, 0));
    assert(!crate::grammar::true_at(s, 0));
    assert(!crate::grammar::false_at(s, 0));
    let p3 = k + digits_len(s, k) + 1;
    lemma_digits_len(s, p3);
    let p4 = p3 + digits_len(s, p3);
    let ks: int = if p4 + 1 < s.len() && (s[p4 + 1] == '+' || s[p4 + 1] == '-') {
        1
    } else {
        0
    };
    lemma_digits_len(s, p4 + 1 + ks);
}

/// Whitespace before an opening bracket or brace is discarded: where
/// the next significant character opens an array or an object, parsing
/// from before the whitespace run finds the same value (or the same
/// error) as parsing from the character itself; only the count of
/// characters consumed differs, by the length of the run.
pub proof fn lemma_ws_before_bracket(s: Seq<char>, pos: int, depth: nat)
    requires
        depth >= 1,
        0 <= pos <= s.len(),
        pos + ws_len(s, pos) < s.len(),
        s[pos + ws_len(s, pos)] == '[' || s[pos + ws_len(s, pos)] == '{',
    ensures
        ({
            let w = ws_len(s, pos);
            match spec_value(s, pos + w, depth) {
                Parsed::Found { v, used } => spec_value(s, pos, depth) == (Parsed::Found {
                    v,
                    used: (w + used) as nat,
                }),
                Parsed::Failed { err } => spec_value(s, pos, depth) == (Parsed::Failed::<
                    ValueModel,
                > { err }),
            }
        }),
{
    let w = ws_len(s, pos);
    let p = pos + w;
    lemma_ws_len(s, pos);
    if w > 0 {
        assert(crate::grammar::is_ws(s[pos]));
    }
    assert(ws_len(s, p) == 0);
}

/// The value model is a function of the text alone: two value trees
/// whose models both match one parse of the same text have equal
/// models, whatever run built each of them.
pub proof fn lemma_parse_deterministic(t: Seq<char>, depth: nat, v1: JsonValue, v2: JsonValue)
    requires
        spec_parse(t, depth) is Found,
        v1.model() == spec_parse(t, depth)->v,
        v2.model() == spec_parse(t, depth)->v,
    ensures
        v1.model() == v2.model(),
{
}

/// Writing a pair never breaks key uniqueness: after `upsert` the keys
/// of a member list with pairwise distinct keys are still pairwise
/// distinct.
pub proof fn lemma_upsert_keys_unique(
    ps: Seq<(Seq<char>, ValueModel)>,
    k: Seq<char>,
    v: ValueModel,
)
    requires
        forall|i: int, j: int|
            0 <= i < j < ps.len() ==> (#[trigger] ps[i]).0 != (#[trigger] ps[j]).0,
    ensures
        forall|i: int, j: int|
            0 <= i < j < upsert(ps, k, v).len() ==> (#[trigger] upsert(ps, k, v)[i]).0 != (
            #[trigger] upsert(ps, k, v)[j]).0,
{
    lemma_key_index(ps, k);
    let ki = key_index(ps, k);
    if ki < ps.len() {
        assert forall|i: int, j: int|
            0 <= i < j < upsert(ps, k, v).len() implies (#[trigger] upsert(ps, k, v)[i]).0 != (
        #[trigger] upsert(ps, k, v)[j]).0 by {
            assert(ps[ki].0 == k);
        }
    } else {
        assert forall|i: int, j: int|
            0 <= i < j < upsert(ps, k, v).len() implies (#[trigger] upsert(ps, k, v)[i]).0 != (
        #[trigger] upsert(ps, k, v)[j]).0 by {
            if j == ps.len() {
                assert(key_index(ps, k) == ps.len());
                assert(ps[i].0 != k);
            }
        }
    }
}

/// Writing a pair whose value is well-formed into a member list of
/// well-formed values keeps every value well-formed.
pub proof fn lemma_upsert_wf(ps: Seq<(Seq<char>, ValueModel)>, k: Seq<char>, v: ValueModel)
    requires
        wf_members(ps),
        wf_model(v),
    ensures
        wf_members(upsert(ps, k, v)),
{
    lemma_key_index(ps, k);
    lemma_wf_members(ps);
    lemma_wf_members(upsert(ps, k, v));
}

/// Resolving duplicated keys keeps every member's value well-formed.
pub proof fn lemma_dedup_wf(ps: Seq<(Seq<char>, ValueModel)>)
    requires
        wf_members(ps),
    ensures
        wf_members(dedup_pairs(ps)),
    decreases ps.len(),
{
    if ps.len() > 0 {
        let pre = ps.subrange(0, ps.len() - 1);
        lemma_wf_members(ps);
        lemma_wf_members(pre);
        lemma_dedup_wf(pre);
        lemma_upsert_wf(dedup_pairs(pre), ps.last().0, ps.last().1);
    }
}

/// An object's members come out with pairwise distinct keys, however
/// often the source duplicated one.
pub proof fn lemma_dedup_keys_unique(ps: Seq<(Seq<char>, ValueModel)>)
    ensures
        forall|i: int, j: int|
            0 <= i < j < dedup_pairs(ps).len() ==> (#[trigger] dedup_pairs(ps)[i]).0 != (
            #[trigger] dedup_pairs(ps)[j]).0,
    decreases ps.len(),
{
    if ps.len() > 0 {
        let pre = ps.subrange(0, ps.len() - 1);
        lemma_dedup_keys_unique(pre);
        lemma_upsert_keys_unique(dedup_pairs(pre), ps.last().0, ps.last().1);
    }
}

/// Every value the dispatcher finds is well-formed.
proof fn lemma_value_wf(s: Seq<char>, pos: int, depth: nat)
    ensures
        spec_value(s, pos, depth) matches Parsed::Found { v, .. } ==> wf_model(v),
    decreases depth, crate::grammar::rem(s, pos), 1int,
{
    if depth == 0 {
    } else if crate::grammar::null_at(s, pos) || crate::grammar::true_at(s, pos)
        || crate::grammar::false_at(s, pos) || crate::grammar::num_start(s, pos) || (0 <= pos
        < s.len() && s[pos] == '"') {
    } else {
        let w = ws_len(s, pos);
        let p = pos + w;
        if 0 <= p < s.len() && s[p] == '[' {
            lemma_array_wf(s, p, depth);
        } else if 0 <= p < s.len() && s[p] == '{' {
            lemma_object_wf(s, p, depth);
        }
    }
}

/// Every array the grammar finds is well-formed.
proof fn lemma_array_wf(s: Seq<char>, pos: int, depth: nat)
    ensures
        spec_array(s, pos, depth) matches Parsed::Found { v, .. } ==> wf_model(v),
    decreases depth, crate::grammar::rem(s, pos), 0int,
{
    if 0 <= pos < s.len() && s[pos] == '[' {
        let w1 = ws_len(s, pos + 1);
        let p1 = pos + 1 + w1;
        if !(p1 < s.len() && s[p1] == ']') {
            lemma_elems_wf(s, p1, p1, depth, Seq::empty());
        }
    }
}

/// Every element list the grammar finds extends a list of well-formed
/// models with well-formed models.
proof fn lemma_elems_wf(s: Seq<char>, pos0: int, pos: int, depth: nat, acc: Seq<ValueModel>)
    requires
        wf_elems(acc),
    ensures
        spec_elems(s, pos0, pos, depth, acc) matches Parsed::Found { v, .. } ==> wf_elems(v),
    decreases depth, crate::grammar::rem(s, pos), 0int,
{
    if depth > 0 {
        lemma_value_wf(s, pos, (depth - 1) as nat);
        match spec_value(s, pos, (depth - 1) as nat) {
            Parsed::Found { v, used: u } => {
                let acc2 = acc.push(v);
                assert(acc2.drop_last() =~= acc);
                assert(wf_elems(acc2));
                let p1 = pos + u;
                let w1 = ws_len(s, p1);
                let p2 = p1 + w1;
                if p2 < s.len() && s[p2] == ',' {
                    let w2 = ws_len(s, p2 + 1);
                    let p3 = p2 + 1 + w2;
                    lemma_elems_wf(s, pos0, p3, depth, acc2);
                }
            },
            Parsed::Failed { .. } => {},
        }
    }
}

/// Every object the grammar finds is well-formed: its values are
/// well-formed and its keys pairwise distinct.
proof fn lemma_object_wf(s: Seq<char>, pos: int, depth: nat)
    ensures
        spec_object(s, pos, depth) matches Parsed::Found { v, .. } ==> wf_model(v),
    decreases depth, crate::grammar::rem(s, pos), 0int,
{
    if 0 <= pos < s.len() && s[pos] == '{' {
        let w1 = ws_len(s, pos + 1);
        let p1 = pos + 1 + w1;
        lemma_members_wf(s, p1, p1, depth, Seq::empty());
        match spec_members(s, p1, p1, depth, Seq::empty()) {
            Parsed::Found { v: ps, .. } => {
                lemma_dedup_wf(ps);
                lemma_dedup_keys_unique(ps);
                assert(distinct_keys(dedup_pairs(ps)));
            },
            Parsed::Failed { .. } => {},
        }
    }
}

/// Every member list the grammar finds extends a list of well-formed
/// values with well-formed values.
proof fn lemma_members_wf(
    s: Seq<char>,
    pos0: int,
    pos: int,
    depth: nat,
    acc: Seq<(Seq<char>, ValueModel)>,
)
    requires
        wf_members(acc),
    ensures
        spec_members(s, pos0, pos, depth, acc) matches Parsed::Found { v, .. } ==> wf_members(v),
    decreases depth, crate::grammar::rem(s, pos), 0int,
{
    if depth > 0 {
        match crate::grammar::spec_string(s, pos) {
            Parsed::Found { v: k, used: uk } => {
                let p1 = pos + uk;
                let w1 = ws_len(s, p1);
                let p2 = p1 + w1;
                if p2 < s.len() && s[p2] == ':' {
                    let w2 = ws_len(s, p2 + 1);
                    let p3 = p2 + 1 + w2;
                    lemma_value_wf(s, p3, (depth - 1) as nat);
                    match spec_value(s, p3, (depth - 1) as nat) {
                        Parsed::Found { v, used: uv } => {
                            let acc2 = acc.push((k, v));
                            assert(acc2.drop_last() =~= acc);
                            assert(wf_members(acc2));
                            let p4 = p3 + uv;
                            let w3 = ws_len(s, p4);
                            let p5 = p4 + w3;
                            if p5 < s.len() && s[p5] == ',' {
                                let w4 = ws_len(s, p5 + 1);
                                let p6 = p5 + 1 + w4;
                                lemma_members_wf(s, pos0, p6, depth, acc2);
                            }
                        },
                        Parsed::Failed { .. } => {},
                    }
                }
            },
            Parsed::Failed { .. } => {},
        }
    }
}

/// A found exponent tail ends within the input.
proof fn lemma_exponent_bound(s: Seq<char>, pos: int)
    requires
        0 <= pos <= s.len(),
    ensures
        crate::grammar::spec_exponent(s, pos) matches Parsed::Found { used, .. } ==> pos + used
            <= s.len(),
{
    let p1 = pos + 1;
    let signed = 0 <= p1 < s.len() && (s[p1] == '+' || s[p1] == '-');
    let p2: int = if signed {
        p1 + 1
    } else {
        p1
    };
    if p2 <= s.len() {
        lemma_digits_len(s, p2);
    }
}

/// A found numeric literal ends within the input.
proof fn lemma_number_bound(s: Seq<char>, pos: int)
    requires
        0 <= pos <= s.len(),
    ensures
        crate::grammar::spec_number(s, pos) matches Parsed::Found { used, .. } ==> pos + used
            <= s.len(),
{
    let signed = 0 <= pos < s.len() && (s[pos] == '+' || s[pos] == '-');
    let p1: int = if signed {
        pos + 1
    } else {
        pos
    };
    lemma_digits_len(s, p1);
    let p2 = p1 + digits_len(s, p1);
    if p2 < s.len() && s[p2] == '.' {
        lemma_digits_len(s, p2 + 1);
        let p4 = p2 + 1 + digits_len(s, p2 + 1);
        if p4 <= s.len() {
            lemma_exponent_bound(s, p4);
        }
    } else {
        lemma_exponent_bound(s, p2);
    }
}

/// A found string literal ends within the input.
proof fn lemma_string_bound(s: Seq<char>, pos: int)
    requires
        0 <= pos <= s.len(),
    ensures
        crate::grammar::spec_string(s, pos) matches Parsed::Found { used, .. } ==> pos + used
            <= s.len(),
{
    if 0 <= pos < s.len() && s[pos] == '"' {
        crate::grammar::lemma_find_quote(s, pos + 1);
    }
}

/// A found value ends within the input.
proof fn lemma_value_bound(s: Seq<char>, pos: int, depth: nat)
    requires
        0 <= pos <= s.len(),
    ensures
        spec_value(s, pos, depth) matches Parsed::Found { used, .. } ==> pos + used <= s.len(),
    decreases depth, crate::grammar::rem(s, pos), 1int,
{
    if depth == 0 {
    } else if crate::grammar::null_at(s, pos) || crate::grammar::true_at(s, pos)
        || crate::grammar::false_at(s, pos) {
    } else if crate::grammar::num_start(s, pos) {
        lemma_number_bound(s, pos);
    } else if 0 <= pos < s.len() && s[pos] == '"' {
        lemma_string_bound(s, pos);
    } else {
        lemma_ws_len(s, pos);
        let w = ws_len(s, pos);
        let p = pos + w;
        if 0 <= p < s.len() && s[p] == '[' {
            lemma_array_bound(s, p, depth);
        } else if 0 <= p < s.len() && s[p] == '{' {
            lemma_object_bound(s, p, depth);
        }
    }
}

/// A found array ends within the input.
proof fn lemma_array_bound(s: Seq<char>, pos: int, depth: nat)
    requires
        0 <= pos <= s.len(),
    ensures
        spec_array(s, pos, depth) matches Parsed::Found { used, .. } ==> pos + used <= s.len(),
    decreases depth, crate::grammar::rem(s, pos), 0int,
{
    if 0 <= pos < s.len() && s[pos] == '[' {
        lemma_ws_len(s, pos + 1);
        let p1 = pos + 1 + ws_len(s, pos + 1);
        if p1 < s.len() && s[p1] == ']' {
            lemma_ws_len(s, p1 + 1);
        } else {
            lemma_elems_bound(s, p1, p1, depth, Seq::empty());
            match spec_elems(s, p1, p1, depth, Seq::empty()) {
                Parsed::Found { used: u, .. } => {
                    let p2 = p1 + u;
                    lemma_ws_len(s, p2);
                    let p3 = p2 + ws_len(s, p2);
                    if p3 < s.len() && s[p3] == ']' {
                        lemma_ws_len(s, p3 + 1);
                    }
                },
                Parsed::Failed { .. } => {},
            }
        }
    }
}

/// A found element list ends within the input: the count it reports
/// from `pos0` stays inside the text.
proof fn lemma_elems_bound(s: Seq<char>, pos0: int, pos: int, depth: nat, acc: Seq<ValueModel>)
    requires
        0 <= pos0 <= pos <= s.len(),
    ensures
        spec_elems(s, pos0, pos, depth, acc) matches Parsed::Found { used, .. } ==> pos0 + used
            <= s.len(),
    decreases depth, crate::grammar::rem(s, pos), 0int,
{
    if depth > 0 {
        lemma_value_bound(s, pos, (depth - 1) as nat);
        match spec_value(s, pos, (depth - 1) as nat) {
            Parsed::Found { v, used: u } => {
                let p1 = pos + u;
                lemma_ws_len(s, p1);
                let p2 = p1 + ws_len(s, p1);
                if p2 < s.len() && s[p2] == ',' {
                    lemma_ws_len(s, p2 + 1);
                    let p3 = p2 + 1 + ws_len(s, p2 + 1);
                    lemma_elems_bound(s, pos0, p3, depth, acc.push(v));
                }
            },
            Parsed::Failed { .. } => {},
        }
    }
}

/// A found object ends within the input.
proof fn lemma_object_bound(s: Seq<char>, pos: int, depth: nat)
    requires
        0 <= pos <= s.len(),
    ensures
        spec_object(s, pos, depth) matches Parsed::Found { used, .. } ==> pos + used <= s.len(),
    decreases depth, crate::grammar::rem(s, pos), 0int,
{
    if 0 <= pos < s.len() && s[pos] == '{' {
        lemma_ws_len(s, pos + 1);
        let p1 = pos + 1 + ws_len(s, pos + 1);
        lemma_members_bound(s, p1, p1, depth, Seq::empty());
        match spec_members(s, p1, p1, depth, Seq::empty()) {
            Parsed::Found { used: u, .. } => {
                let p2 = p1 + u;
                lemma_ws_len(s, p2);
                let p3 = p2 + ws_len(s, p2);
                if p3 < s.len() && s[p3] == '}' {
                    lemma_ws_len(s, p3 + 1);
                }
            },
            Parsed::Failed { .. } => {},
        }
    }
}

/// A found member list ends within the input: the count it reports
/// from `pos0` stays inside the text.
proof fn lemma_members_bound(
    s: Seq<char>,
    pos0: int,
    pos: int,
    depth: nat,
    acc: Seq<(Seq<char>, ValueModel)>,
)
    requires
        0 <= pos0 <= pos <= s.len(),
    ensures
        spec_members(s, pos0, pos, depth, acc) matches Parsed::Found { used, .. } ==> pos0 + used
            <= s.len(),
    decreases depth, crate::grammar::rem(s, pos), 0int,
{
    if depth > 0 {
        lemma_string_bound(s, pos);
        match crate::grammar::spec_string(s, pos) {
            Parsed::Found { v: k, used: uk } => {
                let p1 = pos + uk;
                lemma_ws_len(s, p1);
                let p2 = p1 + ws_len(s, p1);
                if p2 < s.len() && s[p2] == ':' {
                    lemma_ws_len(s, p2 + 1);
                    let p3 = p2 + 1 + ws_len(s, p2 + 1);
                    lemma_value_bound(s, p3, (depth - 1) as nat);
                    match spec_value(s, p3, (depth - 1) as nat) {
                        Parsed::Found { v, used: uv } => {
                            let p4 = p3 + uv;
                            lemma_ws_len(s, p4);
                            let p5 = p4 + ws_len(s, p4);
                            if p5 < s.len() && s[p5] == ',' {
                                lemma_ws_len(s, p5 + 1);
                                let p6 = p5 + 1 + ws_len(s, p5 + 1);
                                lemma_members_bound(s, pos0, p6, depth, acc.push((k, v)));
                            }
                        },
                        Parsed::Failed { .. } => {},
                    }
                }
            },
            Parsed::Failed { .. } => {},
        }
    }
}

/// The recognized value is a prefix of the text: a successful parse
/// never claims to have consumed more characters than the text holds.
pub proof fn lemma_parse_prefix(t: Seq<char>, depth: nat)
    ensures
        spec_parse(t, depth) matches Parsed::Found { used, .. } ==> used <= t.len(),
{
    lemma_value_bound(t, 0, depth);
}

/// Every value a successful parse returns is well-formed: each object
/// anywhere in the tree holds pairwise distinct keys, however often the
/// source text duplicated one.
pub proof fn lemma_parse_wf(t: Seq<char>, depth: nat)
    ensures
        spec_parse(t, depth) matches Parsed::Found { v, .. } ==> wf_model(v),
{
    lemma_value_wf(t, 0, depth);
}

} // verus!
