//! The value model: the tagged union produced by a successful parse, its
//! numeric sub-variants, the error taxonomy, and the mathematical model
//! (`ValueModel`) that contracts are stated over.
use vstd::prelude::*;

verus! {

/// The exact decimal components of a floating-point literal.
///
/// A literal with a fractional part and/or an exponent is kept as the
/// integers the grammar read, rather than as a machine float: the sign,
/// the integer part, the fractional digit run as its value and its
/// length, and the (signed) decimal exponent. The components determine
/// the literal's mathematical value exactly:
/// `(-1)^neg * (int_part + frac_part / 10^frac_len) * 10^exp`,
/// that is, the fractional digits are `frac_part` padded with leading
/// zeros to `frac_len` digits.
#[derive(Clone, Copy, Debug, PartialEq, Eq, Structural)]
pub struct FloatLit {
    /// True when the literal carries a leading minus sign.
    pub neg: bool,
    /// The digits before the decimal point, as a non-negative integer.
    pub int_part: i64,
    /// The digits after the decimal point, read back as a non-negative
    /// integer.
    pub frac_part: i64,
    /// How many digits the fractional run had, leading zeros included;
    /// zero when the literal had no decimal point.
    pub frac_len: usize,
    /// The decimal exponent, already negated when its sign was `-`;
    /// zero when the literal had no exponent marker.
    pub exp: i64,
}

/// A numeric literal: an integer when the literal had neither a decimal
/// point nor an exponent marker, a float otherwise.
#[derive(Clone, Copy, Debug, PartialEq, Eq, Structural)]
pub enum Num {
    Int(i64),
    Float(FloatLit),
}

/// The tree of typed values a successful parse returns. It owns all of
/// its data; object entries keep the source order of their first
/// occurrence, and a duplicated key keeps the value written last.
#[derive(Debug, PartialEq)]
pub enum JsonValue {
    Null,
    Bool(bool),
    Number(Num),
    String(String),
    Array(Vec<JsonValue>),
    Object(Vec<(String, JsonValue)>),
}

/// Why a parse failed, with the character offset at which the failure
/// was detected.
#[derive(Clone, Copy, Debug, PartialEq, Eq, Structural)]
pub enum ParseError {
    /// A numeric literal broke the number grammar (or overflowed 64 bits).
    MalformedNumber(usize),
    /// A string literal had no closing quote.
    UnterminatedString(usize),
    /// No production applies at this position.
    NoMatch(usize),
    /// The value nesting went deeper than the caller's budget.
    DepthExceeded(usize),
}

/// The mathematical shape of a `ParseError`: the same taxonomy with the
/// offset as an unbounded integer.
pub enum ErrModel {
    MalformedNumber(int),
    UnterminatedString(int),
    NoMatch(int),
    DepthExceeded(int),
}

impl ParseError {
    /// The mathematical model of this error.
    pub open spec fn model(self) -> ErrModel {
        match self {
            ParseError::MalformedNumber(o) => ErrModel::MalformedNumber(o as int),
            ParseError::UnterminatedString(o) => ErrModel::UnterminatedString(o as int),
            ParseError::NoMatch(o) => ErrModel::NoMatch(o as int),
            ParseError::DepthExceeded(o) => ErrModel::DepthExceeded(o as int),
        }
    }
}

/// The mathematical shape of a `JsonValue`: text as sequences of
/// characters, containers as sequences.
pub enum ValueModel {
    Null,
    Bool(bool),
    Number(Num),
    Str(Seq<char>),
    Arr(Seq<ValueModel>),
    Obj(Seq<(Seq<char>, ValueModel)>),
}

impl JsonValue {
    /// The mathematical model of this value tree.
    pub open spec fn model(self) -> ValueModel
        decreases self,
    {
        match self {
            JsonValue::Null => ValueModel::Null,
            JsonValue::Bool(b) => ValueModel::Bool(b),
            JsonValue::Number(n) => ValueModel::Number(n),
            JsonValue::String(s) => ValueModel::Str(s@),
            JsonValue::Array(a) => ValueModel::Arr(Self::model_elems(a@)),
            JsonValue::Object(m) => ValueModel::Obj(Self::model_members(m@)),
        }
    }

    /// The models of an array's elements, in order.
    pub open spec fn model_elems(s: Seq<JsonValue>) -> Seq<ValueModel>
        decreases s,
    {
        if s.len() == 0 {
            Seq::empty()
        } else {
            Self::model_elems(s.subrange(0, s.len() - 1)).push(s.last().model())
        }
    }

    /// The models of an object's members, in order.
    pub open spec fn model_members(s: Seq<(String, JsonValue)>) -> Seq<(Seq<char>, ValueModel)>
        decreases s,
    {
        if s.len() == 0 {
            Seq::empty()
        } else {
            Self::model_members(s.subrange(0, s.len() - 1)).push(
                (s.last().0@, s.last().1.model()),
            )
        }
    }
}

/// The keys of a member list are pairwise distinct.
pub open spec fn distinct_keys(ps: Seq<(Seq<char>, ValueModel)>) -> bool {
    forall|i: int, j: int| 0 <= i < j < ps.len() ==> (#[trigger] ps[i]).0 != (#[trigger] ps[j]).0
}

/// A well-formed value model: every object anywhere in the tree holds
/// pairwise distinct keys.
pub open spec fn wf_model(m: ValueModel) -> bool
    decreases m,
{
    match m {
        ValueModel::Arr(es) => wf_elems(es),
        ValueModel::Obj(ps) => distinct_keys(ps) && wf_members(ps),
        _ => true,
    }
}

/// Every element of the sequence is a well-formed model.
pub open spec fn wf_elems(es: Seq<ValueModel>) -> bool
    decreases es,
{
    es.len() == 0 || (wf_elems(es.drop_last()) && wf_model(es.last()))
}

/// Every value of the member list is a well-formed model (the keys are
/// not constrained here).
pub open spec fn wf_members(ps: Seq<(Seq<char>, ValueModel)>) -> bool
    decreases ps,
{
    ps.len() == 0 || (wf_members(ps.drop_last()) && wf_model(ps.last().1))
}

/// `wf_elems` is the elementwise conjunction of `wf_model`.
pub proof fn lemma_wf_elems(es: Seq<ValueModel>)
    ensures
        wf_elems(es) <==> (forall|i: int| 0 <= i < es.len() ==> wf_model(#[trigger] es[i])),
    decreases es.len(),
{
    if es.len() > 0 {
        lemma_wf_elems(es.drop_last());
        assert(es.last() == es[es.len() - 1]);
        assert forall|i: int| 0 <= i < es.len() - 1 implies es.drop_last()[i] == es[i] by {}
    }
}

/// `wf_members` is the elementwise conjunction of `wf_model` over the
/// values.
pub proof fn lemma_wf_members(ps: Seq<(Seq<char>, ValueModel)>)
    ensures
        wf_members(ps) <==> (forall|i: int|
            0 <= i < ps.len() ==> wf_model((#[trigger] ps[i]).1)),
    decreases ps.len(),
{
    if ps.len() > 0 {
        lemma_wf_members(ps.drop_last());
        assert(ps.last() == ps[ps.len() - 1]);
        assert forall|i: int| 0 <= i < ps.len() - 1 implies ps.drop_last()[i] == ps[i] by {}
    }
}

/// `model_elems` maps the element models one for one, in order.
pub proof fn lemma_model_elems(s: Seq<JsonValue>)
    ensures
        JsonValue::model_elems(s).len() == s.len(),
        forall|i: int|
            0 <= i < s.len() ==> JsonValue::model_elems(s)[i] == #[trigger] s[i].model(),
    decreases s.len(),
{
    if s.len() > 0 {
        let pre = s.subrange(0, s.len() - 1);
        lemma_model_elems(pre);
        assert forall|i: int|
            0 <= i < s.len() implies JsonValue::model_elems(s)[i] == #[trigger] s[i].model() by {
            if i < s.len() - 1 {
                assert(pre[i] == s[i]);
            } else {
                assert(s.last() == s[i]);
            }
        }
    }
}

/// `model_members` maps the member models one for one, in order.
pub proof fn lemma_model_members(s: Seq<(String, JsonValue)>)
    ensures
        JsonValue::model_members(s).len() == s.len(),
        forall|i: int|
            0 <= i < s.len() ==> JsonValue::model_members(s)[i] == (
            #[trigger] s[i].0@,
            s[i].1.model(),
            ),
    decreases s.len(),
{
    if s.len() > 0 {
        let pre = s.subrange(0, s.len() - 1);
        lemma_model_members(pre);
        assert forall|i: int|
            0 <= i < s.len() implies JsonValue::model_members(s)[i] == (
            #[trigger] s[i].0@,
            s[i].1.model(),
            ) by {
            if i < s.len() - 1 {
                assert(pre[i] == s[i]);
            } else {
                assert(s.last() == s[i]);
            }
        }
    }
}

} // verus!
