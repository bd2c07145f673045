//! Executable values of the supported wire shapes.
use vstd::prelude::*;

use crate::model::SpecValue;

verus! {

/// A runtime value of one of the supported wire shapes.
#[derive(Debug, PartialEq, Eq)]
pub enum Value {
    /// A fixed-width scalar: `width` little-endian bytes of `val`.
    Uint { width: usize, val: u128 },
    /// A fixed-size array of scalars, each `width` bytes wide.
    Array { width: usize, elems: Vec<u128> },
    /// An optional value: a one-byte tag, then the payload if present.
    Opt(Option<Box<Value>>),
    /// A dynamic sequence: every element is length-framed.
    Sequence(Vec<Value>),
    /// A two-tuple: first element framed, second unframed.
    Pair(Box<Value>, Box<Value>),
    /// A product value: fields framed per the shared frame rule.
    Rec(Vec<Value>),
    /// A sum value: a discriminant byte, then the variant's fields.
    Tagged { ordinal: u8, fields: Vec<Value> },
}

impl Value {
    /// The mathematical value this runtime value stands for.
    pub open spec fn deep(self) -> SpecValue
        decreases self, 1int,
    {
        match self {
            Value::Uint { width, val } => SpecValue::Uint { width: width as nat, val: val as nat },
            Value::Array { width, elems } => SpecValue::Array {
                width: width as nat,
                elems: Seq::new(elems@.len(), |i: int| elems@[i] as nat),
            },
            Value::Opt(o) => match o {
                Option::None => SpecValue::Opt(Option::None),
                Option::Some(b) => SpecValue::Opt(Option::Some(Box::new((*b).deep()))),
            },
            Value::Sequence(elems) => SpecValue::Sequence(deep_values(elems@)),
            Value::Pair(a, b) => SpecValue::Pair(Box::new((*a).deep()), Box::new((*b).deep())),
            Value::Rec(fields) => SpecValue::Rec(deep_values(fields@)),
            Value::Tagged { ordinal, fields } => SpecValue::Tagged {
                ordinal,
                fields: deep_values(fields@),
            },
        }
    }
}

/// The mathematical values of a list of runtime values, in order.
pub open spec fn deep_values(vs: Seq<Value>) -> Seq<SpecValue>
    decreases vs, 0int,
{
    if vs.len() == 0 {
        Seq::empty()
    } else {
        Seq::empty().push(vs[0].deep()) + deep_values(vs.drop_first())
    }
}

/// Length and elementwise reading of a deep value list.
pub broadcast proof fn lemma_deep_values(vs: Seq<Value>)
    ensures
        (#[trigger] deep_values(vs)).len() == vs.len(),
        forall|i: int| 0 <= i < vs.len() ==> deep_values(vs)[i] == vs[i].deep(),
    decreases vs.len(),
{
    if vs.len() > 0 {
        lemma_deep_values(vs.drop_first());
    }
}

impl View for Value {
    type V = SpecValue;

    open spec fn view(&self) -> SpecValue {
        self.deep()
    }
}

} // verus!
