//! The structured value model: the canonical representation that every value
//! crossing the script/host boundary passes through.

use vstd::prelude::*;

verus! {

/// A structured value: null, boolean, number (unsigned or negative integer),
/// text, ordered sequence, or ordered key/value mapping.
///
/// Text and mapping keys are held as UTF-8 bytes, so that both codecs can
/// speak about them byte-exactly.
#[derive(Debug, PartialEq)]
pub enum Value {
    Null,
    Bool(bool),
    /// A non-negative integer.
    UInt(u64),
    /// A negative integer; well-formed values keep non-negative integers in
    /// `UInt`, so that every number has one canonical representation.
    Int(i64),
    /// Text, as UTF-8 bytes.
    Text(Vec<u8>),
    /// An ordered sequence of values.
    Arr(Vec<Value>),
    /// An ordered mapping from text keys to values.
    Obj(Vec<(Vec<u8>, Value)>),
}

/// The mathematical counterpart of `Value`: the same tree, over `Seq`.
/// All codec specifications and laws are stated over this type.
pub enum SpecValue {
    Null,
    Bool(bool),
    UInt(u64),
    Int(i64),
    Text(Seq<u8>),
    Arr(Seq<SpecValue>),
    Obj(Seq<(Seq<u8>, SpecValue)>),
}

/// The mathematical value that a `Value` stands for.
pub open spec fn model(v: Value) -> SpecValue
    decreases v,
{
    match v {
        Value::Null => SpecValue::Null,
        Value::Bool(b) => SpecValue::Bool(b),
        Value::UInt(n) => SpecValue::UInt(n),
        Value::Int(i) => SpecValue::Int(i),
        Value::Text(t) => SpecValue::Text(t@),
        Value::Arr(xs) => SpecValue::Arr(models(xs@)),
        Value::Obj(ps) => SpecValue::Obj(model_pairs(ps@)),
    }
}

/// The models of a sequence of values, element by element.
pub open spec fn models(s: Seq<Value>) -> Seq<SpecValue>
    decreases s,
{
    if s.len() == 0 {
        Seq::empty()
    } else {
        seq![model(s[0])] + models(s.drop_first())
    }
}

/// The models of a sequence of key/value pairs, element by element.
pub open spec fn model_pairs(s: Seq<(Vec<u8>, Value)>) -> Seq<(Seq<u8>, SpecValue)>
    decreases s,
{
    if s.len() == 0 {
        Seq::empty()
    } else {
        seq![(s[0].0@, model(s[0].1))] + model_pairs(s.drop_first())
    }
}

/// `models` maps a sequence element by element.
pub broadcast proof fn lemma_models(s: Seq<Value>)
    ensures
        (#[trigger] models(s)).len() == s.len(),
        forall|i: int| 0 <= i < s.len() ==> models(s)[i] == model(s[i]),
    decreases s.len(),
{
    if s.len() > 0 {
        lemma_models(s.drop_first());
    }
}

/// `model_pairs` maps a sequence element by element.
pub broadcast proof fn lemma_model_pairs(s: Seq<(Vec<u8>, Value)>)
    ensures
        (#[trigger] model_pairs(s)).len() == s.len(),
        forall|i: int| 0 <= i < s.len() ==> model_pairs(s)[i] == (s[i].0@, model(s[i].1)),
    decreases s.len(),
{
    if s.len() > 0 {
        lemma_model_pairs(s.drop_first());
    }
}

/// Well-formedness: `Int` holds strictly negative numbers only (so every
/// number has one canonical representation), and every text, sequence and
/// mapping is short enough for a 32-bit length header.
pub open spec fn wf(v: SpecValue) -> bool
    decreases v,
{
    match v {
        SpecValue::Null => true,
        SpecValue::Bool(_) => true,
        SpecValue::UInt(_) => true,
        SpecValue::Int(i) => i < 0,
        SpecValue::Text(t) => t.len() <= u32::MAX,
        SpecValue::Arr(xs) => xs.len() <= u32::MAX && (forall|i: int|
            0 <= i < xs.len() ==> wf(#[trigger] xs[i])),
        SpecValue::Obj(ps) => ps.len() <= u32::MAX && (forall|i: int|
            0 <= i < ps.len() ==> wf(#[trigger] ps[i].1) && ps[i].0.len() <= u32::MAX),
    }
}

/// A small record used by the round-trip fixtures: one text property.
#[derive(Debug, PartialEq)]
pub struct MockType {
    pub prop: String,
}

} // verus!
