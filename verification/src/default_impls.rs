//! Byte serialization for the built-in types: bytes, signed bytes,
//! wider little-endian integers, booleans, one-byte characters,
//! optional values, and two-tuples of any serializable types.
use vstd::prelude::*;

use crate::Sadaby;
use crate::SadabyError;
use crate::codec::le_decode;
use crate::codec::le_encode;
use crate::model::le_bytes;
use crate::model::lemma_le_len;
use crate::model::lemma_pow256_16;
use crate::model::lemma_le_round;
use crate::model::TAG_NONE;
use crate::model::TAG_SOME;
use crate::model::FRAME_MAX;
use crate::model::frame;
use crate::model::num_of;
use crate::model::pow256;

verus! {

impl Sadaby for u8 {
    open spec fn spec_se(&self) -> Seq<u8> {
        seq![*self]
    }

    open spec fn spec_de(input: Seq<u8>) -> Option<u8> {
        if input.len() >= 1 {
            Option::Some(input[0])
        } else {
            Option::None
        }
    }

    open spec fn se_ok(&self) -> bool {
        true
    }

    open spec fn lossless(&self) -> bool {
        true
    }

    fn se_bytes(&self) -> (r: Vec<u8>) {
        let mut r: Vec<u8> = Vec::new();
        r.push(*self);
        proof {
            assert(r@ =~= seq![*self]);
        }
        r
    }

    fn de_bytes(input: &[u8]) -> (r: Result<u8, SadabyError>) {
        if input.len() == 0 {
            Result::Err(SadabyError::UnexpectedToken)
        } else {
            Result::Ok(input[0])
        }
    }

    proof fn lemma_round_trip(&self) {
    }
}

impl Sadaby for i8 {
    open spec fn spec_se(&self) -> Seq<u8> {
        seq![*self as u8]
    }

    open spec fn spec_de(input: Seq<u8>) -> Option<i8> {
        if input.len() >= 1 {
            Option::Some(input[0] as i8)
        } else {
            Option::None
        }
    }

    open spec fn se_ok(&self) -> bool {
        true
    }

    open spec fn lossless(&self) -> bool {
        true
    }

    fn se_bytes(&self) -> (r: Vec<u8>) {
        let mut r: Vec<u8> = Vec::new();
        r.push(#[verifier::truncate] (*self as u8));
        proof {
            assert(r@ =~= seq![*self as u8]);
        }
        r
    }

    fn de_bytes(input: &[u8]) -> (r: Result<i8, SadabyError>) {
        if input.len() == 0 {
            Result::Err(SadabyError::UnexpectedToken)
        } else {
            Result::Ok(#[verifier::truncate] (input[0] as i8))
        }
    }

    proof fn lemma_round_trip(&self) {
        assert(*self as u8 as i8 == *self) by (bit_vector);
    }
}

impl Sadaby for bool {
    open spec fn spec_se(&self) -> Seq<u8> {
        seq![
            if *self {
                1u8
            } else {
                0u8
            },
        ]
    }

    open spec fn spec_de(input: Seq<u8>) -> Option<bool> {
        if input.len() >= 1 && input[0] == 0 {
            Option::Some(false)
        } else if input.len() >= 1 && input[0] == 1 {
            Option::Some(true)
        } else {
            Option::None
        }
    }

    open spec fn se_ok(&self) -> bool {
        true
    }

    open spec fn lossless(&self) -> bool {
        true
    }

    fn se_bytes(&self) -> (r: Vec<u8>) {
        let mut r: Vec<u8> = Vec::new();
        r.push(
            if *self {
                1u8
            } else {
                0u8
            },
        );
        proof {
            assert(r@ =~= self.spec_se());
        }
        r
    }

    fn de_bytes(input: &[u8]) -> (r: Result<bool, SadabyError>) {
        if input.len() == 0 {
            Result::Err(SadabyError::UnexpectedToken)
        } else if input[0] == 0 {
            Result::Ok(false)
        } else if input[0] == 1 {
            Result::Ok(true)
        } else {
            Result::Err(SadabyError::UnexpectedToken)
        }
    }

    proof fn lemma_round_trip(&self) {
    }
}

impl Sadaby for char {
    open spec fn spec_se(&self) -> Seq<u8> {
        seq![((*self as u32) % 256) as u8]
    }

    open spec fn spec_de(input: Seq<u8>) -> Option<char> {
        if input.len() >= 1 {
            Option::Some(input[0] as char)
        } else {
            Option::None
        }
    }

    open spec fn se_ok(&self) -> bool {
        true
    }

    open spec fn lossless(&self) -> bool {
        (*self as u32) < 256
    }

    fn se_bytes(&self) -> (r: Vec<u8>) {
        let mut r: Vec<u8> = Vec::new();
        r.push(((*self as u32) % 256) as u8);
        proof {
            assert(r@ =~= self.spec_se());
        }
        r
    }

    fn de_bytes(input: &[u8]) -> (r: Result<char, SadabyError>) {
        if input.len() == 0 {
            Result::Err(SadabyError::UnexpectedToken)
        } else {
            Result::Ok(input[0] as char)
        }
    }

    proof fn lemma_round_trip(&self) {
        let code = *self as u32;
        assert(code < 256);
        let b = (code % 256) as u8;
        vstd::utf8::char_u32_cast(*self, code);
        assert((code as char) == *self);
        assert(b as char == code as char);
    }
}

impl Sadaby for u16 {
    open spec fn spec_se(&self) -> Seq<u8> {
        le_bytes(*self as nat, 2)
    }

    open spec fn spec_de(input: Seq<u8>) -> Option<u16> {
        if input.len() >= 2 {
            Option::Some(num_of(input.take(2)) as u16)
        } else {
            Option::None
        }
    }

    open spec fn se_ok(&self) -> bool {
        true
    }

    open spec fn lossless(&self) -> bool {
        true
    }

    fn se_bytes(&self) -> (r: Vec<u8>) {
        le_encode(*self as u128, 2)
    }

    fn de_bytes(input: &[u8]) -> (r: Result<u16, SadabyError>) {
        if input.len() < 2 {
            Result::Err(SadabyError::UnexpectedToken)
        } else {
            let v = le_decode(input, 2);
            proof {
        assert(pow256(2) == 0x10000) by {
            reveal_with_fuel(pow256, 3);
        }
            }
            Result::Ok(v as u16)
        }
    }

    proof fn lemma_round_trip(&self) {
        assert(pow256(2) == 0x10000) by {
            reveal_with_fuel(pow256, 3);
        }
        lemma_le_len(*self as nat, 2);
        lemma_le_round(*self as nat, 2);
        assert(self.spec_se().take(2) =~= self.spec_se());
    }
}

impl Sadaby for u32 {
    open spec fn spec_se(&self) -> Seq<u8> {
        le_bytes(*self as nat, 4)
    }

    open spec fn spec_de(input: Seq<u8>) -> Option<u32> {
        if input.len() >= 4 {
            Option::Some(num_of(input.take(4)) as u32)
        } else {
            Option::None
        }
    }

    open spec fn se_ok(&self) -> bool {
        true
    }

    open spec fn lossless(&self) -> bool {
        true
    }

    fn se_bytes(&self) -> (r: Vec<u8>) {
        le_encode(*self as u128, 4)
    }

    fn de_bytes(input: &[u8]) -> (r: Result<u32, SadabyError>) {
        if input.len() < 4 {
            Result::Err(SadabyError::UnexpectedToken)
        } else {
            let v = le_decode(input, 4);
            proof {
        assert(pow256(4) == 0x100000000) by {
            reveal_with_fuel(pow256, 5);
        }
            }
            Result::Ok(v as u32)
        }
    }

    proof fn lemma_round_trip(&self) {
        assert(pow256(4) == 0x100000000) by {
            reveal_with_fuel(pow256, 5);
        }
        lemma_le_len(*self as nat, 4);
        lemma_le_round(*self as nat, 4);
        assert(self.spec_se().take(4) =~= self.spec_se());
    }
}

impl Sadaby for u64 {
    open spec fn spec_se(&self) -> Seq<u8> {
        le_bytes(*self as nat, 8)
    }

    open spec fn spec_de(input: Seq<u8>) -> Option<u64> {
        if input.len() >= 8 {
            Option::Some(num_of(input.take(8)) as u64)
        } else {
            Option::None
        }
    }

    open spec fn se_ok(&self) -> bool {
        true
    }

    open spec fn lossless(&self) -> bool {
        true
    }

    fn se_bytes(&self) -> (r: Vec<u8>) {
        le_encode(*self as u128, 8)
    }

    fn de_bytes(input: &[u8]) -> (r: Result<u64, SadabyError>) {
        if input.len() < 8 {
            Result::Err(SadabyError::UnexpectedToken)
        } else {
            let v = le_decode(input, 8);
            proof {
        assert(pow256(8) == 0x10000000000000000) by {
            reveal_with_fuel(pow256, 9);
        }
            }
            Result::Ok(v as u64)
        }
    }

    proof fn lemma_round_trip(&self) {
        assert(pow256(8) == 0x10000000000000000) by {
            reveal_with_fuel(pow256, 9);
        }
        lemma_le_len(*self as nat, 8);
        lemma_le_round(*self as nat, 8);
        assert(self.spec_se().take(8) =~= self.spec_se());
    }
}

impl Sadaby for u128 {
    open spec fn spec_se(&self) -> Seq<u8> {
        le_bytes(*self as nat, 16)
    }

    open spec fn spec_de(input: Seq<u8>) -> Option<u128> {
        if input.len() >= 16 {
            Option::Some(num_of(input.take(16)) as u128)
        } else {
            Option::None
        }
    }

    open spec fn se_ok(&self) -> bool {
        true
    }

    open spec fn lossless(&self) -> bool {
        true
    }

    fn se_bytes(&self) -> (r: Vec<u8>) {
        le_encode(*self as u128, 16)
    }

    fn de_bytes(input: &[u8]) -> (r: Result<u128, SadabyError>) {
        if input.len() < 16 {
            Result::Err(SadabyError::UnexpectedToken)
        } else {
            let v = le_decode(input, 16);
            proof {
        lemma_pow256_16();
            }
            Result::Ok(v)
        }
    }

    proof fn lemma_round_trip(&self) {
        lemma_pow256_16();
        lemma_le_len(*self as nat, 16);
        lemma_le_round(*self as nat, 16);
        assert(self.spec_se().take(16) =~= self.spec_se());
    }
}

impl Sadaby for i16 {
    open spec fn spec_se(&self) -> Seq<u8> {
        le_bytes((*self as u16) as nat, 2)
    }

    open spec fn spec_de(input: Seq<u8>) -> Option<i16> {
        if input.len() >= 2 {
            Option::Some(num_of(input.take(2)) as u16 as i16)
        } else {
            Option::None
        }
    }

    open spec fn se_ok(&self) -> bool {
        true
    }

    open spec fn lossless(&self) -> bool {
        true
    }

    fn se_bytes(&self) -> (r: Vec<u8>) {
        le_encode((#[verifier::truncate] (*self as u16)) as u128, 2)
    }

    fn de_bytes(input: &[u8]) -> (r: Result<i16, SadabyError>) {
        if input.len() < 2 {
            Result::Err(SadabyError::UnexpectedToken)
        } else {
            let v = le_decode(input, 2);
            proof {
        assert(pow256(2) == 0x10000) by {
            reveal_with_fuel(pow256, 3);
        }
            }
            Result::Ok(#[verifier::truncate] ((v as u16) as i16))
        }
    }

    proof fn lemma_round_trip(&self) {
        let u = #[verifier::truncate] (*self as u16);
        assert(pow256(2) == 0x10000) by {
            reveal_with_fuel(pow256, 3);
        }
        lemma_le_len(u as nat, 2);
        lemma_le_round(u as nat, 2);
        assert(self.spec_se().take(2) =~= self.spec_se());
        assert(*self as u16 as i16 == *self) by (bit_vector);
    }
}

impl Sadaby for i32 {
    open spec fn spec_se(&self) -> Seq<u8> {
        le_bytes((*self as u32) as nat, 4)
    }

    open spec fn spec_de(input: Seq<u8>) -> Option<i32> {
        if input.len() >= 4 {
            Option::Some(num_of(input.take(4)) as u32 as i32)
        } else {
            Option::None
        }
    }

    open spec fn se_ok(&self) -> bool {
        true
    }

    open spec fn lossless(&self) -> bool {
        true
    }

    fn se_bytes(&self) -> (r: Vec<u8>) {
        le_encode((#[verifier::truncate] (*self as u32)) as u128, 4)
    }

    fn de_bytes(input: &[u8]) -> (r: Result<i32, SadabyError>) {
        if input.len() < 4 {
            Result::Err(SadabyError::UnexpectedToken)
        } else {
            let v = le_decode(input, 4);
            proof {
        assert(pow256(4) == 0x100000000) by {
            reveal_with_fuel(pow256, 5);
        }
            }
            Result::Ok(#[verifier::truncate] ((v as u32) as i32))
        }
    }

    proof fn lemma_round_trip(&self) {
        let u = #[verifier::truncate] (*self as u32);
        assert(pow256(4) == 0x100000000) by {
            reveal_with_fuel(pow256, 5);
        }
        lemma_le_len(u as nat, 4);
        lemma_le_round(u as nat, 4);
        assert(self.spec_se().take(4) =~= self.spec_se());
        assert(*self as u32 as i32 == *self) by (bit_vector);
    }
}

impl Sadaby for i64 {
    open spec fn spec_se(&self) -> Seq<u8> {
        le_bytes((*self as u64) as nat, 8)
    }

    open spec fn spec_de(input: Seq<u8>) -> Option<i64> {
        if input.len() >= 8 {
            Option::Some(num_of(input.take(8)) as u64 as i64)
        } else {
            Option::None
        }
    }

    open spec fn se_ok(&self) -> bool {
        true
    }

    open spec fn lossless(&self) -> bool {
        true
    }

    fn se_bytes(&self) -> (r: Vec<u8>) {
        le_encode((#[verifier::truncate] (*self as u64)) as u128, 8)
    }

    fn de_bytes(input: &[u8]) -> (r: Result<i64, SadabyError>) {
        if input.len() < 8 {
            Result::Err(SadabyError::UnexpectedToken)
        } else {
            let v = le_decode(input, 8);
            proof {
        assert(pow256(8) == 0x10000000000000000) by {
            reveal_with_fuel(pow256, 9);
        }
            }
            Result::Ok(#[verifier::truncate] ((v as u64) as i64))
        }
    }

    proof fn lemma_round_trip(&self) {
        let u = #[verifier::truncate] (*self as u64);
        assert(pow256(8) == 0x10000000000000000) by {
            reveal_with_fuel(pow256, 9);
        }
        lemma_le_len(u as nat, 8);
        lemma_le_round(u as nat, 8);
        assert(self.spec_se().take(8) =~= self.spec_se());
        assert(*self as u64 as i64 == *self) by (bit_vector);
    }
}

impl Sadaby for i128 {
    open spec fn spec_se(&self) -> Seq<u8> {
        le_bytes((*self as u128) as nat, 16)
    }

    open spec fn spec_de(input: Seq<u8>) -> Option<i128> {
        if input.len() >= 16 {
            Option::Some(num_of(input.take(16)) as u128 as i128)
        } else {
            Option::None
        }
    }

    open spec fn se_ok(&self) -> bool {
        true
    }

    open spec fn lossless(&self) -> bool {
        true
    }

    fn se_bytes(&self) -> (r: Vec<u8>) {
        le_encode((#[verifier::truncate] (*self as u128)) as u128, 16)
    }

    fn de_bytes(input: &[u8]) -> (r: Result<i128, SadabyError>) {
        if input.len() < 16 {
            Result::Err(SadabyError::UnexpectedToken)
        } else {
            let v = le_decode(input, 16);
            proof {
        lemma_pow256_16();
            }
            Result::Ok(#[verifier::truncate] ((v) as i128))
        }
    }

    proof fn lemma_round_trip(&self) {
        let u = #[verifier::truncate] (*self as u128);
        lemma_pow256_16();
        lemma_le_len(u as nat, 16);
        lemma_le_round(u as nat, 16);
        assert(self.spec_se().take(16) =~= self.spec_se());
        assert(*self as u128 as i128 == *self) by (bit_vector);
    }
}

impl<T: Sadaby> Sadaby for Option<T> {
    open spec fn spec_se(&self) -> Seq<u8> {
        match self {
            Option::Some(v) => seq![TAG_SOME] + v.spec_se(),
            Option::None => seq![TAG_NONE],
        }
    }

    open spec fn spec_de(input: Seq<u8>) -> Option<Option<T>> {
        if input.len() == 0 {
            Option::None
        } else if input[0] == TAG_SOME {
            match T::spec_de(input.drop_first()) {
                Option::Some(v) => Option::Some(Option::Some(v)),
                Option::None => Option::None,
            }
        } else if input[0] == TAG_NONE {
            Option::Some(Option::None)
        } else {
            Option::None
        }
    }

    open spec fn se_ok(&self) -> bool {
        match self {
            Option::Some(v) => v.se_ok(),
            Option::None => true,
        }
    }

    open spec fn lossless(&self) -> bool {
        match self {
            Option::Some(v) => v.lossless(),
            Option::None => true,
        }
    }

    fn se_bytes(&self) -> (r: Vec<u8>) {
        let mut buf: Vec<u8> = Vec::new();
        match self {
            Option::Some(v) => {
                buf.push(TAG_SOME);
                let mut e = v.se_bytes();
                let ghost e0 = e@;
                buf.append(&mut e);
                proof {
                    assert(buf@ =~= seq![TAG_SOME] + e0);
                }
            },
            Option::None => {
                buf.push(TAG_NONE);
                proof {
                    assert(buf@ =~= seq![TAG_NONE]);
                }
            },
        }
        buf
    }

    fn de_bytes(input: &[u8]) -> (r: Result<Option<T>, SadabyError>) {
        if input.len() == 0 {
            return Result::Err(SadabyError::UnexpectedToken);
        }
        let tag = input[0];
        if tag == TAG_SOME {
            let rest = vstd::slice::slice_subrange(input, 1, input.len());
            proof {
                assert(rest@ =~= input@.drop_first());
            }
            match T::de_bytes(rest) {
                Result::Ok(v) => Result::Ok(Option::Some(v)),
                Result::Err(e) => Result::Err(e),
            }
        } else if tag == TAG_NONE {
            Result::Ok(Option::None)
        } else {
            Result::Err(SadabyError::UnexpectedToken)
        }
    }

    proof fn lemma_round_trip(&self) {
        match self {
            Option::Some(v) => {
                v.lemma_round_trip();
                assert((seq![TAG_SOME] + v.spec_se()).drop_first() =~= v.spec_se());
            },
            Option::None => {
            },
        }
    }
}

impl<T: Sadaby, Y: Sadaby> Sadaby for (T, Y) {
    open spec fn spec_se(&self) -> Seq<u8> {
        frame(self.0.spec_se()) + self.1.spec_se()
    }

    open spec fn spec_de(input: Seq<u8>) -> Option<(T, Y)> {
        if input.len() >= 1 && 1 + (input[0] as int) <= input.len() {
            let mid = 1 + (input[0] as int);
            match T::spec_de(input.subrange(1, mid)) {
                Option::Some(x) => match Y::spec_de(input.skip(mid)) {
                    Option::Some(y) => Option::Some((x, y)),
                    Option::None => Option::None,
                },
                Option::None => Option::None,
            }
        } else {
            Option::None
        }
    }

    open spec fn se_ok(&self) -> bool {
        self.0.se_ok() && self.0.spec_se().len() <= FRAME_MAX && self.1.se_ok()
    }

    open spec fn lossless(&self) -> bool {
        self.0.lossless() && self.1.lossless()
    }

    fn se_bytes(&self) -> (r: Vec<u8>) {
        let mut ea = self.0.se_bytes();
        let ghost ea0 = ea@;
        let mut eb = self.1.se_bytes();
        let ghost eb0 = eb@;
        let mut buf: Vec<u8> = Vec::new();
        buf.push(ea.len() as u8);
        buf.append(&mut ea);
        buf.append(&mut eb);
        proof {
            assert(buf@ =~= (seq![(ea0.len() % 256) as u8] + ea0) + eb0);
            assert(buf@ =~= frame(ea0) + eb0);
        }
        buf
    }

    fn de_bytes(input: &[u8]) -> (r: Result<(T, Y), SadabyError>) {
        if input.len() == 0 {
            return Result::Err(SadabyError::UnexpectedToken);
        }
        let l = input[0] as usize;
        if 1 + l > input.len() {
            return Result::Err(SadabyError::UnexpectedToken);
        }
        let first = vstd::slice::slice_subrange(input, 1, 1 + l);
        let x = match T::de_bytes(first) {
            Result::Ok(x) => x,
            Result::Err(e) => {
                return Result::Err(e);
            },
        };
        let second = vstd::slice::slice_subrange(input, 1 + l, input.len());
        let y = match Y::de_bytes(second) {
            Result::Ok(y) => y,
            Result::Err(e) => {
                return Result::Err(e);
            },
        };
        Result::Ok((x, y))
    }

    proof fn lemma_round_trip(&self) {
        self.0.lemma_round_trip();
        self.1.lemma_round_trip();
        let ea = self.0.spec_se();
        let eb = self.1.spec_se();
        let bytes = self.spec_se();
        assert(bytes[0] == ea.len() % 256);
        assert(ea.len() % 256 == ea.len());
        let mid = 1 + (bytes[0] as int);
        assert(bytes.subrange(1, mid) =~= ea);
        assert(bytes.skip(mid) =~= eb);
    }
}

} // verus!
