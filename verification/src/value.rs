//! The executable value and shape types.
//!
//! A concrete value announces its own shape through the [`Value`] tree: the
//! encoder walks it generically, and the decoder is driven by a [`Shape`]
//! tree describing the caller's target type. Contracts speak of the ghost
//! counterparts through the view functions below.

use vstd::prelude::*;

use crate::format::{
    ScalarKind, SpecPayload, SpecShape, SpecValue, SpecVariantShape,
};

verus! {

/// A shape-described value: what the encoder takes and the decoder returns.
#[derive(Debug, PartialEq, Eq)]
pub enum Value {
    /// A boolean, one wire byte holding 0 or 1.
    Bool(bool),
    /// An 8-bit unsigned integer, one raw wire byte.
    U8(u8),
    /// A 32-bit unsigned integer, four raw little-endian wire bytes.
    U32(u32),
    /// An optional: a discriminant byte, then the payload if present.
    Optional(Option<Box<Value>>),
    /// A unit or unit-struct value, a single zero byte.
    Unit,
    /// A newtype wrapper: the inner encoding with no extra framing.
    Newtype(Box<Value>),
    /// A sequence of elements, length-prefixed.
    Sequence(Vec<Value>),
    /// A tuple, tuple struct or struct, its fields positional, length-prefixed.
    Record(Vec<Value>),
    /// A map, its entries key then value interleaved, length-prefixed.
    Table(Vec<(Value, Value)>),
    /// A tagged-union variant: its index and its payload.
    Variant(u32, VariantPayload),
    /// A scalar outside the supported subset; holds only its kind, since
    /// both directions reject it before looking at any content.
    Unsupported(ScalarKind),
}

/// The payload of a tagged-union variant.
#[derive(Debug, PartialEq, Eq)]
pub enum VariantPayload {
    /// A unit variant carries nothing beyond its index byte.
    Unit,
    /// A newtype variant carries one value, encoded with its own framing.
    Newtype(Box<Value>),
    /// A tuple or struct variant carries positional fields, concatenated
    /// without an inner length prefix: they share the variant's outer one.
    Fields(Vec<Value>),
}

/// The target shape a caller asks the decoder for.
#[derive(Debug, PartialEq, Eq)]
pub enum Shape {
    /// A boolean.
    Bool,
    /// An 8-bit unsigned integer.
    U8,
    /// A 32-bit unsigned integer.
    U32,
    /// An optional of the inner shape.
    Optional(Box<Shape>),
    /// A unit or unit struct.
    Unit,
    /// A newtype wrapper of the inner shape.
    Newtype(Box<Shape>),
    /// A sequence of elements of one shape, of any length.
    Sequence(Box<Shape>),
    /// A tuple, tuple struct or struct with the given field shapes in order.
    Record(Vec<Shape>),
    /// A map with the given key and value shapes.
    Table(Box<Shape>, Box<Shape>),
    /// A tagged union with the given variants, in index order.
    Enum(Vec<VariantShape>),
    /// A scalar outside the supported subset.
    Unsupported(ScalarKind),
}

/// One variant of a tagged-union shape.
#[derive(Debug, PartialEq, Eq)]
pub enum VariantShape {
    /// A variant with no payload.
    Unit,
    /// A variant holding one value of the inner shape.
    Newtype(Box<Shape>),
    /// A variant holding positional fields of the given shapes.
    Fields(Vec<Shape>),
}

/// The ghost model of an executable value.
pub open spec fn value_view(v: Value) -> SpecValue
    decreases v,
{
    match v {
        Value::Bool(x) => SpecValue::Bool(x),
        Value::U8(x) => SpecValue::U8(x),
        Value::U32(x) => SpecValue::U32(x),
        Value::Optional(opt) => SpecValue::Optional(
            match opt {
                Option::None => Option::None,
                Option::Some(inner) => Option::Some(Box::new(value_view(*inner))),
            },
        ),
        Value::Unit => SpecValue::Unit,
        Value::Newtype(inner) => SpecValue::Newtype(Box::new(value_view(*inner))),
        Value::Sequence(elems) => SpecValue::Sequence(values_view(elems@)),
        Value::Record(fields) => SpecValue::Record(values_view(fields@)),
        Value::Table(pairs) => SpecValue::Table(pairs_view(pairs@)),
        Value::Variant(idx, data) => SpecValue::Variant(idx, payload_view(data)),
        Value::Unsupported(k) => SpecValue::Unsupported(k),
    }
}

/// The ghost models of a sequence of executable values, in order.
pub open spec fn values_view(vs: Seq<Value>) -> Seq<SpecValue>
    decreases vs,
{
    if vs.len() == 0 {
        Seq::empty()
    } else {
        seq![value_view(vs[0])] + values_view(vs.drop_first())
    }
}

/// The ghost models of a sequence of executable map entries, in order.
pub open spec fn pairs_view(ps: Seq<(Value, Value)>) -> Seq<(SpecValue, SpecValue)>
    decreases ps,
{
    if ps.len() == 0 {
        Seq::empty()
    } else {
        seq![(value_view(ps[0].0), value_view(ps[0].1))] + pairs_view(ps.drop_first())
    }
}

/// The ghost model of a variant payload.
pub open spec fn payload_view(p: VariantPayload) -> SpecPayload
    decreases p,
{
    match p {
        VariantPayload::Unit => SpecPayload::Unit,
        VariantPayload::Newtype(inner) => SpecPayload::Newtype(Box::new(value_view(*inner))),
        VariantPayload::Fields(fields) => SpecPayload::Fields(values_view(fields@)),
    }
}

/// The ghost model of an executable shape.
pub open spec fn shape_view(s: Shape) -> SpecShape
    decreases s,
{
    match s {
        Shape::Bool => SpecShape::Bool,
        Shape::U8 => SpecShape::U8,
        Shape::U32 => SpecShape::U32,
        Shape::Optional(t) => SpecShape::Optional(Box::new(shape_view(*t))),
        Shape::Unit => SpecShape::Unit,
        Shape::Newtype(t) => SpecShape::Newtype(Box::new(shape_view(*t))),
        Shape::Sequence(t) => SpecShape::Sequence(Box::new(shape_view(*t))),
        Shape::Record(ts) => SpecShape::Record(shapes_view(ts@)),
        Shape::Table(kt, vt) => SpecShape::Table(
            Box::new(shape_view(*kt)),
            Box::new(shape_view(*vt)),
        ),
        Shape::Enum(vars) => SpecShape::Enum(variant_shapes_view(vars@)),
        Shape::Unsupported(k) => SpecShape::Unsupported(k),
    }
}

/// The ghost models of a sequence of executable shapes, in order.
pub open spec fn shapes_view(ts: Seq<Shape>) -> Seq<SpecShape>
    decreases ts,
{
    if ts.len() == 0 {
        Seq::empty()
    } else {
        seq![shape_view(ts[0])] + shapes_view(ts.drop_first())
    }
}

/// The ghost models of a sequence of executable variant shapes, in order.
pub open spec fn variant_shapes_view(vs: Seq<VariantShape>) -> Seq<SpecVariantShape>
    decreases vs,
{
    if vs.len() == 0 {
        Seq::empty()
    } else {
        seq![variant_shape_view(vs[0])] + variant_shapes_view(vs.drop_first())
    }
}

/// The ghost model of one executable variant shape.
pub open spec fn variant_shape_view(vs: VariantShape) -> SpecVariantShape
    decreases vs,
{
    match vs {
        VariantShape::Unit => SpecVariantShape::Unit,
        VariantShape::Newtype(t) => SpecVariantShape::Newtype(Box::new(shape_view(*t))),
        VariantShape::Fields(ts) => SpecVariantShape::Fields(shapes_view(ts@)),
    }
}

/// Pointwise reading of [`values_view`].
pub broadcast proof fn lemma_values_view(vs: Seq<Value>)
    ensures
        (#[trigger] values_view(vs)).len() == vs.len(),
        forall|i: int| 0 <= i < vs.len() ==> values_view(vs)[i] == value_view(vs[i]),
    decreases vs,
{
    if vs.len() > 0 {
        lemma_values_view(vs.drop_first());
    }
}

/// Pointwise reading of [`pairs_view`].
pub broadcast proof fn lemma_pairs_view(ps: Seq<(Value, Value)>)
    ensures
        (#[trigger] pairs_view(ps)).len() == ps.len(),
        forall|i: int| 0 <= i < ps.len() ==> pairs_view(ps)[i] == (
            value_view(ps[i].0),
            value_view(ps[i].1),
        ),
    decreases ps,
{
    if ps.len() > 0 {
        lemma_pairs_view(ps.drop_first());
    }
}

/// Pointwise reading of [`shapes_view`].
pub broadcast proof fn lemma_shapes_view(ts: Seq<Shape>)
    ensures
        (#[trigger] shapes_view(ts)).len() == ts.len(),
        forall|i: int| 0 <= i < ts.len() ==> shapes_view(ts)[i] == shape_view(ts[i]),
    decreases ts,
{
    if ts.len() > 0 {
        lemma_shapes_view(ts.drop_first());
    }
}

/// Pointwise reading of [`variant_shapes_view`].
pub broadcast proof fn lemma_variant_shapes_view(vs: Seq<VariantShape>)
    ensures
        (#[trigger] variant_shapes_view(vs)).len() == vs.len(),
        forall|i: int| 0 <= i < vs.len() ==> variant_shapes_view(vs)[i] == variant_shape_view(
            vs[i],
        ),
    decreases vs,
{
    if vs.len() > 0 {
        lemma_variant_shapes_view(vs.drop_first());
    }
}

/// Appending one value appends its model.
pub proof fn lemma_values_view_push(vs: Seq<Value>, v: Value)
    ensures
        values_view(vs.push(v)) == values_view(vs).push(value_view(v)),
{
    lemma_values_view(vs.push(v));
    lemma_values_view(vs);
    assert(values_view(vs.push(v)) =~= values_view(vs).push(value_view(v)));
}

/// Appending one entry appends its model.
pub proof fn lemma_pairs_view_push(ps: Seq<(Value, Value)>, kv: (Value, Value))
    ensures
        pairs_view(ps.push(kv)) == pairs_view(ps).push((value_view(kv.0), value_view(kv.1))),
{
    lemma_pairs_view(ps.push(kv));
    lemma_pairs_view(ps);
    assert(pairs_view(ps.push(kv)) =~= pairs_view(ps).push((value_view(kv.0), value_view(kv.1))));
}

impl View for Value {
    type V = SpecValue;

    open spec fn view(&self) -> SpecValue {
        value_view(*self)
    }
}

impl View for VariantPayload {
    type V = SpecPayload;

    open spec fn view(&self) -> SpecPayload {
        payload_view(*self)
    }
}

impl View for Shape {
    type V = SpecShape;

    open spec fn view(&self) -> SpecShape {
        shape_view(*self)
    }
}

impl View for VariantShape {
    type V = SpecVariantShape;

    open spec fn view(&self) -> SpecVariantShape {
        variant_shape_view(*self)
    }
}

} // verus!
