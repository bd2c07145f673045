//! A compact binary serialization codec. A value whose shape is known
//! ahead of time (scalar, fixed array, optional, dynamic sequence, pair,
//! record, or tagged union) is turned into a byte sequence, and a byte
//! sequence plus the expected shape is turned back into the value or a
//! decoding failure. Variable-length data is carried in one-byte length
//! frames; records and sum variants derive their layout mechanically from
//! their ordered field lists.
use vstd::prelude::*;

pub mod codec;
pub mod default_impls;
pub mod model;
pub mod shape;
pub mod value;

verus! {

/// The single failure kind a decoder reports: a discriminant, tag, or
/// boolean byte that matches none of the expected values, or a buffer
/// too short for the shape being decoded.
#[derive(Debug, PartialEq, Eq, Structural)]
pub enum SadabyError {
    UnexpectedToken,
}

/// Byte serialization for a type whose shape is known ahead of time.
/// `se_bytes` writes the value's wire bytes; `de_bytes` reads a value
/// back from the front of a buffer, tolerating trailing bytes where the
/// type's width is fixed.
pub trait Sadaby: Sized {
    /// The value's encoding.
    spec fn spec_se(&self) -> Seq<u8>;

    /// What decoding a buffer yields; `None` is a decoding failure.
    spec fn spec_de(input: Seq<u8>) -> Option<Self>;

    /// Every framed part of the value fits its one-byte length prefix.
    spec fn se_ok(&self) -> bool;

    /// The encoding loses nothing of the value, so decoding recovers it.
    spec fn lossless(&self) -> bool;

    fn se_bytes(&self) -> (r: Vec<u8>)
        requires
            self.se_ok(),
        ensures
            r@ == self.spec_se(),
    ;

    fn de_bytes(input: &[u8]) -> (r: Result<Self, SadabyError>)
        ensures
            match r {
                Result::Ok(v) => Self::spec_de(input@) == Option::Some(v),
                Result::Err(e) => Self::spec_de(input@) is None && e
                    == SadabyError::UnexpectedToken,
            },
    ;

    /// Round trip: decoding a value's own encoding yields the value.
    proof fn lemma_round_trip(&self)
        requires
            self.se_ok(),
            self.lossless(),
        ensures
            Self::spec_de(self.spec_se()) == Option::Some(*self),
    ;
}

} // verus!
