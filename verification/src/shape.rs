//! Executable shape descriptions and the ordinal-assignment rule for
//! tagged-union variants.
use vstd::prelude::*;

use crate::model::SpecShape;
use crate::model::SpecVariant;

verus! {

/// A runtime description of a type for codec purposes. A codec is driven
/// entirely by such a shape; no shape information travels with the bytes.
#[derive(Debug, PartialEq, Eq)]
pub enum Shape {
    /// A fixed-width little-endian scalar of `width` bytes.
    Uint { width: usize },
    /// `count` scalars of `width` bytes each, concatenated unframed.
    Array { width: usize, count: usize },
    /// A tag byte, then the payload when present.
    Opt(Box<Shape>),
    /// Any number of elements, each one length-framed.
    Sequence(Box<Shape>),
    /// First component framed, second unframed to the end of the buffer.
    Pair(Box<Shape>, Box<Shape>),
    /// A product type with an ordered, non-empty field list.
    Rec(Vec<Shape>),
    /// A tagged union: each variant has a discriminant and a field list.
    Tagged(Vec<Variant>),
}

/// One variant of a tagged union shape.
#[derive(Debug, PartialEq, Eq)]
pub struct Variant {
    pub ordinal: u8,
    pub fields: Vec<Shape>,
}

impl Shape {
    /// The mathematical shape this runtime description stands for.
    pub open spec fn deep(self) -> SpecShape
        decreases self, 1int,
    {
        match self {
            Shape::Uint { width } => SpecShape::Uint { width: width as nat },
            Shape::Array { width, count } => SpecShape::Array {
                width: width as nat,
                count: count as nat,
            },
            Shape::Opt(inner) => SpecShape::Opt(Box::new((*inner).deep())),
            Shape::Sequence(elem) => SpecShape::Sequence(Box::new((*elem).deep())),
            Shape::Pair(a, b) => SpecShape::Pair(Box::new((*a).deep()), Box::new((*b).deep())),
            Shape::Rec(fs) => SpecShape::Rec(deep_shapes(fs@)),
            Shape::Tagged(vs) => SpecShape::Tagged(deep_variants(vs@)),
        }
    }
}

/// The mathematical shapes of a list of runtime shapes, in order.
pub open spec fn deep_shapes(fs: Seq<Shape>) -> Seq<SpecShape>
    decreases fs, 0int,
{
    if fs.len() == 0 {
        Seq::empty()
    } else {
        Seq::empty().push(fs[0].deep()) + deep_shapes(fs.drop_first())
    }
}

/// The mathematical variants of a list of runtime variants, in order.
pub open spec fn deep_variants(vs: Seq<Variant>) -> Seq<SpecVariant>
    decreases vs, 0int,
{
    if vs.len() == 0 {
        Seq::empty()
    } else {
        Seq::empty().push(
            SpecVariant { ordinal: vs[0].ordinal, fields: deep_shapes(vs[0].fields@) },
        ) + deep_variants(vs.drop_first())
    }
}

/// Length and elementwise reading of a deep shape list.
pub broadcast proof fn lemma_deep_shapes(fs: Seq<Shape>)
    ensures
        (#[trigger] deep_shapes(fs)).len() == fs.len(),
        forall|i: int| 0 <= i < fs.len() ==> deep_shapes(fs)[i] == fs[i].deep(),
    decreases fs.len(),
{
    if fs.len() > 0 {
        lemma_deep_shapes(fs.drop_first());
    }
}

/// Length and elementwise reading of a deep variant list.
pub broadcast proof fn lemma_deep_variants(vs: Seq<Variant>)
    ensures
        (#[trigger] deep_variants(vs)).len() == vs.len(),
        forall|i: int|
            0 <= i < vs.len() ==> deep_variants(vs)[i] == (SpecVariant {
                ordinal: vs[i].ordinal,
                fields: deep_shapes(vs[i].fields@),
            }),
    decreases vs.len(),
{
    if vs.len() > 0 {
        lemma_deep_variants(vs.drop_first());
    }
}

impl View for Shape {
    type V = SpecShape;

    open spec fn view(&self) -> SpecShape {
        self.deep()
    }
}

/// Build a record shape from its ordered field list. A record with no
/// fields has no expressible wire form and is refused at synthesis time.
pub fn record_shape(fields: Vec<Shape>) -> (r: Option<Shape>)
    ensures
        match r {
            Option::Some(s) => fields@.len() >= 1 && s == Shape::Rec(fields),
            Option::None => fields@.len() == 0,
        },
{
    if fields.len() == 0 {
        Option::None
    } else {
        Option::Some(Shape::Rec(fields))
    }
}

/// The next discriminant after `o`, with the one-byte counter wrapping.
pub open spec fn next_ordinal(o: u8) -> u8 {
    if o == 255 {
        0
    } else {
        (o + 1) as u8
    }
}

/// Discriminants assigned to a declared variant list from a running
/// counter: a variant without an explicit ordinal takes the counter, one
/// with an explicit ordinal takes it and resets the counter, and the
/// counter continues incrementing from whichever was used.
pub open spec fn ordinals_from(decl: Seq<Option<u8>>, counter: u8) -> Seq<u8>
    decreases decl.len(),
{
    if decl.len() == 0 {
        Seq::empty()
    } else {
        let o = match decl[0] {
            Option::Some(k) => k,
            Option::None => counter,
        };
        Seq::empty().push(o) + ordinals_from(decl.drop_first(), next_ordinal(o))
    }
}

/// The discriminants of a declared variant list, counting from zero.
pub open spec fn assigned_ordinals(decl: Seq<Option<u8>>) -> Seq<u8> {
    ordinals_from(decl, 0)
}

proof fn lemma_ordinals_from_len(decl: Seq<Option<u8>>, counter: u8)
    ensures
        ordinals_from(decl, counter).len() == decl.len(),
    decreases decl.len(),
{
    if decl.len() > 0 {
        let o = match decl[0] {
            Option::Some(k) => k,
            Option::None => counter,
        };
        lemma_ordinals_from_len(decl.drop_first(), next_ordinal(o));
    }
}

/// Assign a discriminant to each declared variant: `None` takes the next
/// value of the running counter, `Some(k)` takes `k` and resets the
/// counter to continue from `k`.
pub fn assign_ordinals(decl: &Vec<Option<u8>>) -> (r: Vec<u8>)
    ensures
        r@ == assigned_ordinals(decl@),
{
    let mut r: Vec<u8> = Vec::new();
    let mut counter: u8 = 0;
    let mut i: usize = 0;
    proof {
        lemma_ordinals_from_len(decl@, 0);
        assert(decl@.skip(0) =~= decl@);
    }
    while i < decl.len()
        invariant
            i <= decl.len(),
            assigned_ordinals(decl@) == r@ + ordinals_from(decl@.skip(i as int), counter),
            r@.len() == i,
        decreases decl.len() - i,
    {
        let o = match decl[i] {
            Option::Some(k) => k,
            Option::None => counter,
        };
        proof {
            let rest = decl@.skip(i as int);
            assert(rest[0] == decl@[i as int]);
            assert(rest.drop_first() =~= decl@.skip(i as int + 1));
            lemma_ordinals_from_len(decl@.skip(i as int + 1), next_ordinal(o));
            assert(r@ + ordinals_from(rest, counter) =~= (r@ + seq![o]) + ordinals_from(
                decl@.skip(i as int + 1),
                next_ordinal(o),
            ));
        }
        r.push(o);
        counter = if o == 255 {
            0
        } else {
            o + 1
        };
        i = i + 1;
    }
    proof {
        assert(decl@.skip(decl@.len() as int) =~= Seq::<Option<u8>>::empty());
        assert(r@ + ordinals_from(decl@.skip(decl@.len() as int), counter) =~= r@);
    }
    r
}

} // verus!
