//! The executable codec: encoding a runtime value into bytes and
//! decoding bytes at a runtime shape, each proved against the
//! mathematical model.
use vstd::prelude::*;

use crate::SadabyError;
use crate::model::FRAME_MAX;
use crate::model::TAG_NONE;
use crate::model::TAG_SOME;
use crate::model::dec;
use crate::model::dec_elems;
use crate::model::dec_fields;
use crate::model::enc;
use crate::model::enc_array;
use crate::model::enc_framed;
use crate::model::find_variant;
use crate::model::frame;
use crate::model::frames_list_ok;
use crate::model::frames_ok;
use crate::model::le_bytes;
use crate::model::lemma_enc_array_push;
use crate::model::lemma_enc_framed_push;
use crate::model::lemma_find_variant;
use crate::model::lemma_pow256_16;
use crate::model::lemma_pow256_mono;
use crate::model::lemma_pow256_pos;
use crate::model::num_of;
use crate::model::SpecShape;
use crate::model::SpecValue;
use crate::model::pow256;
use crate::model::wf_shape;
use crate::shape::Shape;
use crate::shape::Variant;
use crate::shape::deep_shapes;
use crate::shape::deep_variants;
use crate::shape::lemma_deep_shapes;
use crate::shape::lemma_deep_variants;
use crate::value::Value;
use crate::value::deep_values;
use crate::value::lemma_deep_values;

verus! {

/// The little-endian bytes of a scalar, `width` of them.
pub fn le_encode(val: u128, width: usize) -> (r: Vec<u8>)
    ensures
        r@ == le_bytes(val as nat, width as nat),
{
    let mut r: Vec<u8> = Vec::new();
    let mut cur: u128 = val;
    let mut i: usize = 0;
    proof {
        assert(Seq::<u8>::empty() + le_bytes(val as nat, width as nat) =~= le_bytes(
            val as nat,
            width as nat,
        ));
    }
    while i < width
        invariant
            i <= width,
            le_bytes(val as nat, width as nat) == r@ + le_bytes(cur as nat, (width - i) as nat),
            r@.len() == i,
        decreases width - i,
    {
        let b: u8 = (cur % 256) as u8;
        proof {
            assert(le_bytes(cur as nat, (width - i) as nat) == seq![b] + le_bytes(
                (cur / 256) as nat,
                (width - i - 1) as nat,
            ));
            assert(r@ + le_bytes(cur as nat, (width - i) as nat) =~= (r@ + seq![b]) + le_bytes(
                (cur / 256) as nat,
                (width - i - 1) as nat,
            ));
            assert(r@ + seq![b] =~= r@.push(b));
        }
        r.push(b);
        cur = cur / 256;
        i = i + 1;
    }
    proof {
        assert(r@ + le_bytes(cur as nat, 0) =~= r@);
    }
    r
}

/// The scalar whose little-endian bytes open the given buffer.
pub fn le_decode(input: &[u8], width: usize) -> (r: u128)
    requires
        width <= 16,
        width as int <= input@.len(),
    ensures
        r as nat == num_of(input@.take(width as int)),
        r < pow256(width as nat),
{
    let mut r: u128 = 0;
    let mut i: usize = width;
    proof {
        assert(input@.subrange(width as int, width as int) =~= Seq::<u8>::empty());
        lemma_pow256_pos(0);
    }
    while i > 0
        invariant
            i <= width,
            width <= 16,
            width as int <= input@.len(),
            r as nat == num_of(input@.subrange(i as int, width as int)),
            r < pow256((width - i) as nat),
        decreases i,
    {
        i = i - 1;
        let b = input[i];
        proof {
            let s = input@.subrange(i as int, width as int);
            assert(s[0] == input@[i as int]);
            assert(s.drop_first() =~= input@.subrange(i as int + 1, width as int));
            lemma_pow256_mono((width - i - 1) as nat, 15);
            lemma_pow256_16();
            lemma_pow256_mono(15, 16);
            assert(256 * pow256((width - i - 1) as nat) == pow256((width - i) as nat));
        }
        r = r * 256 + (b as u128);
    }
    proof {
        assert(input@.subrange(0, width as int) =~= input@.take(width as int));
    }
    r
}

/// Encode each value of a list as a frame: one length byte, then the
/// value's encoding. `None` when some encoding outgrows its frame.
fn encode_framed(vals: &Vec<Value>) -> (r: Option<Vec<u8>>)
    ensures
        r is Some <==> frames_list_ok(deep_values(vals@)),
        r matches Some(b) ==> b@ == enc_framed(deep_values(vals@)),
    decreases vals,
{
    let ghost dvs = deep_values(vals@);
    proof {
        lemma_deep_values(vals@);
        assert(dvs.take(0) =~= Seq::<SpecValue>::empty());
        assert(enc_framed(Seq::<SpecValue>::empty()) =~= Seq::<u8>::empty());
    }
    let mut buf: Vec<u8> = Vec::new();
    let mut i: usize = 0;
    while i < vals.len()
        invariant
            i <= vals.len(),
            dvs == deep_values(vals@),
            dvs.len() == vals@.len(),
            forall|j: int| 0 <= j < vals@.len() ==> dvs[j] == vals@[j].deep(),
            forall|j: int|
                0 <= j < i ==> frames_ok(#[trigger] dvs[j]) && enc(dvs[j]).len() <= FRAME_MAX,
            buf@ == enc_framed(dvs.take(i as int)),
        decreases vals@.len() - i,
    {
        match encode(&vals[i]) {
            Option::None => {
                proof {
                    assert(!frames_ok(dvs[i as int]));
                }
                return Option::None;
            },
            Option::Some(mut e) => {
                if e.len() > FRAME_MAX {
                    proof {
                        assert(enc(dvs[i as int]).len() > FRAME_MAX);
                    }
                    return Option::None;
                }
                let ghost e0 = e@;
                proof {
                    lemma_enc_framed_push(dvs.take(i as int), dvs[i as int]);
                    assert(dvs.take(i as int).push(dvs[i as int]) =~= dvs.take(i as int + 1));
                    assert(frame(enc(dvs[i as int])) =~= seq![(e0.len() % 256) as u8] + e0);
                }
                buf.push(e.len() as u8);
                buf.append(&mut e);
                proof {
                    assert(buf@ =~= enc_framed(dvs.take(i as int)) + frame(enc(dvs[i as int])));
                }
            },
        }
        i = i + 1;
    }
    proof {
        assert(dvs.take(vals@.len() as int) =~= dvs);
    }
    Option::Some(buf)
}

/// Encode a value into its byte sequence. `None` exactly when some
/// framed part of the value encodes to more than `FRAME_MAX` bytes,
/// which the one-byte length prefix cannot carry.
pub fn encode(v: &Value) -> (r: Option<Vec<u8>>)
    ensures
        r is Some <==> frames_ok(v@),
        r matches Some(b) ==> b@ == enc(v@),
    decreases v,
{
    match v {
        Value::Uint { width, val } => Option::Some(le_encode(*val, *width)),
        Value::Array { width, elems } => {
            let ghost delems = Seq::new(elems@.len(), |i: int| elems@[i] as nat);
            proof {
                assert(delems.take(0) =~= Seq::<nat>::empty());
                assert(enc_array(*width as nat, Seq::<nat>::empty()) =~= Seq::<u8>::empty());
            }
            let mut buf: Vec<u8> = Vec::new();
            let mut i: usize = 0;
            while i < elems.len()
                invariant
                    i <= elems.len(),
                    delems == Seq::new(elems@.len(), |j: int| elems@[j] as nat),
                    buf@ == enc_array(*width as nat, delems.take(i as int)),
                decreases elems@.len() - i,
            {
                let mut e = le_encode(elems[i], *width);
                proof {
                    lemma_enc_array_push(*width as nat, delems.take(i as int), delems[i as int]);
                    assert(delems.take(i as int).push(delems[i as int]) =~= delems.take(
                        i as int + 1,
                    ));
                }
                buf.append(&mut e);
                i = i + 1;
            }
            proof {
                assert(delems.take(elems@.len() as int) =~= delems);
            }
            Option::Some(buf)
        },
        Value::Opt(o) => match o {
            Option::None => {
                let mut buf: Vec<u8> = Vec::new();
                buf.push(TAG_NONE);
                proof {
                    assert(buf@ =~= seq![TAG_NONE]);
                }
                Option::Some(buf)
            },
            Option::Some(inner) => {
                match encode(inner) {
                    Option::None => Option::None,
                    Option::Some(mut e) => {
                        let ghost e0 = e@;
                        let mut buf: Vec<u8> = Vec::new();
                        buf.push(TAG_SOME);
                        buf.append(&mut e);
                        proof {
                            assert(buf@ =~= seq![TAG_SOME] + e0);
                        }
                        Option::Some(buf)
                    },
                }
            },
        },
        Value::Sequence(elems) => {
            let r = encode_framed(elems);
            proof {
                assert(r is Some <==> frames_ok(v@));
            }
            r
        },
        Value::Pair(a, b) => {
            match encode(a) {
                Option::None => Option::None,
                Option::Some(mut ea) => {
                    if ea.len() > FRAME_MAX {
                        return Option::None;
                    }
                    match encode(b) {
                        Option::None => Option::None,
                        Option::Some(mut eb) => {
                            let ghost ea0 = ea@;
                            let ghost eb0 = eb@;
                            let mut buf: Vec<u8> = Vec::new();
                            buf.push(ea.len() as u8);
                            buf.append(&mut ea);
                            buf.append(&mut eb);
                            proof {
                                assert(buf@ =~= (seq![(ea0.len() % 256) as u8] + ea0) + eb0);
                                assert(buf@ =~= frame(enc((*a)@)) + enc((*b)@));
                            }
                            Option::Some(buf)
                        },
                    }
                },
            }
        },
        Value::Rec(fields) => {
            proof {
                lemma_deep_values(fields@);
            }
            if fields.len() == 1 {
                let r = encode(&fields[0]);
                proof {
                    assert(r is Some <==> frames_ok(v@));
                }
                r
            } else {
                let r = encode_framed(fields);
                proof {
                    assert(r is Some <==> frames_ok(v@));
                }
                r
            }
        },
        Value::Tagged { ordinal, fields } => {
            proof {
                lemma_deep_values(fields@);
            }
            let mut buf: Vec<u8> = Vec::new();
            buf.push(*ordinal);
            if fields.len() == 0 {
                proof {
                    assert(buf@ =~= seq![*ordinal] + Seq::<u8>::empty());
                    assert(frames_list_ok(deep_values(fields@)));
                    assert(frames_ok(v@));
                }
                Option::Some(buf)
            } else if fields.len() == 1 {
                match encode(&fields[0]) {
                    Option::None => Option::None,
                    Option::Some(mut e) => {
                        let ghost e0 = e@;
                        buf.append(&mut e);
                        proof {
                            assert(buf@ =~= seq![*ordinal] + e0);
                        }
                        Option::Some(buf)
                    },
                }
            } else {
                match encode_framed(fields) {
                    Option::None => Option::None,
                    Option::Some(mut e) => {
                        let ghost e0 = e@;
                        buf.append(&mut e);
                        proof {
                            assert(buf@ =~= seq![*ordinal] + e0);
                        }
                        Option::Some(buf)
                    },
                }
            }
        },
    }
}

/// The index of the first variant whose discriminant is `ord`.
fn find_variant_idx(variants: &Vec<Variant>, ord: u8) -> (r: Option<usize>)
    ensures
        match r {
            Option::Some(j) => j < variants@.len() && find_variant(deep_variants(variants@), ord)
                == Option::Some(j as int),
            Option::None => find_variant(deep_variants(variants@), ord) is None,
        },
{
    let ghost dvs = deep_variants(variants@);
    proof {
        lemma_deep_variants(variants@);
        lemma_find_variant(dvs, ord);
    }
    let mut j: usize = 0;
    while j < variants.len()
        invariant
            j <= variants.len(),
            dvs == deep_variants(variants@),
            dvs.len() == variants@.len(),
            forall|k: int|
                0 <= k < variants@.len() ==> #[trigger] dvs[k].ordinal == variants@[k].ordinal,
            forall|k: int| 0 <= k < j ==> #[trigger] dvs[k].ordinal != ord,
            find_variant(dvs, ord) == find_variant(deep_variants(variants@), ord),
        decreases variants@.len() - j,
    {
        if variants[j].ordinal == ord {
            proof {
                lemma_find_variant(dvs, ord);
                assert(dvs[j as int].ordinal == ord);
            }
            return Option::Some(j);
        }
        j = j + 1;
    }
    proof {
        lemma_find_variant(dvs, ord);
    }
    Option::None
}

/// Decode a framed element chain into sequence elements, walking one
/// frame at a time until the buffer is exhausted.
fn decode_elems(elem: &Shape, input: &[u8]) -> (r: Result<Vec<Value>, SadabyError>)
    requires
        wf_shape(elem@),
    ensures
        match r {
            Result::Ok(vs) => dec_elems(elem@, input@) == Option::Some(deep_values(vs@)),
            Result::Err(e) => dec_elems(elem@, input@) is None && e == SadabyError::UnexpectedToken,
        },
    decreases elem, input@.len(), 1int,
{
    if input.len() == 0 {
        proof {
            assert(deep_values(Seq::<Value>::empty()) =~= Seq::<SpecValue>::empty());
        }
        return Result::Ok(Vec::new());
    }
    let l = input[0] as usize;
    if 1 + l > input.len() {
        return Result::Err(SadabyError::UnexpectedToken);
    }
    let region = vstd::slice::slice_subrange(input, 1, 1 + l);
    let v = match decode(elem, region) {
        Result::Ok(v) => v,
        Result::Err(e) => {
            return Result::Err(e);
        },
    };
    let rest = vstd::slice::slice_subrange(input, 1 + l, input.len());
    let mut vs = match decode_elems(elem, rest) {
        Result::Ok(vs) => vs,
        Result::Err(e) => {
            return Result::Err(e);
        },
    };
    let ghost tail = vs@;
    vs.insert(0, v);
    proof {
        assert(vs@ =~= Seq::empty().push(v) + tail);
        assert(vs@.drop_first() =~= tail);
        assert(deep_values(vs@) =~= Seq::empty().push(v@) + deep_values(tail));
    }
    Result::Ok(vs)
}

/// Decode the framed field chain for the fields of `fs` from `idx` on.
fn decode_fields(fs: &Vec<Shape>, idx: usize, input: &[u8]) -> (r: Result<Vec<Value>, SadabyError>)
    requires
        idx <= fs@.len(),
        forall|i: int| 0 <= i < fs@.len() ==> wf_shape(#[trigger] fs@[i]@),
    ensures
        match r {
            Result::Ok(vs) => dec_fields(deep_shapes(fs@).skip(idx as int), input@)
                == Option::Some(deep_values(vs@)),
            Result::Err(e) => dec_fields(deep_shapes(fs@).skip(idx as int), input@) is None && e
                == SadabyError::UnexpectedToken,
        },
    decreases fs, fs@.len() - idx, input@.len(),
{
    let ghost all = deep_shapes(fs@);
    let ghost t = all.skip(idx as int);
    proof {
        lemma_deep_shapes(fs@);
    }
    if idx == fs.len() {
        proof {
            assert(t =~= Seq::<SpecShape>::empty());
            assert(deep_values(Seq::<Value>::empty()) =~= Seq::<SpecValue>::empty());
        }
        return Result::Ok(Vec::new());
    }
    proof {
        assert(t[0] == all[idx as int]);
    }
    if input.len() == 0 {
        return Result::Err(SadabyError::UnexpectedToken);
    }
    let l = input[0] as usize;
    if 1 + l > input.len() {
        return Result::Err(SadabyError::UnexpectedToken);
    }
    let region = vstd::slice::slice_subrange(input, 1, 1 + l);
    let v = match decode(&fs[idx], region) {
        Result::Ok(v) => v,
        Result::Err(e) => {
            return Result::Err(e);
        },
    };
    let rest = vstd::slice::slice_subrange(input, 1 + l, input.len());
    proof {
        assert(t.drop_first() =~= all.skip(idx as int + 1));
    }
    let mut vs = match decode_fields(fs, idx + 1, rest) {
        Result::Ok(vs) => vs,
        Result::Err(e) => {
            return Result::Err(e);
        },
    };
    let ghost tail = vs@;
    vs.insert(0, v);
    proof {
        assert(vs@ =~= Seq::empty().push(v) + tail);
        assert(vs@.drop_first() =~= tail);
        assert(deep_values(vs@) =~= Seq::empty().push(v@) + deep_values(tail));
    }
    Result::Ok(vs)
}

/// Decode a buffer at the given shape. `Err` exactly when the model
/// decoding fails: an unrecognized discriminant or tag byte, a length
/// byte claiming more bytes than remain, or a buffer too short for the
/// shape.
pub fn decode(s: &Shape, input: &[u8]) -> (r: Result<Value, SadabyError>)
    requires
        wf_shape(s@),
    ensures
        match r {
            Result::Ok(v) => dec(s@, input@) == Option::Some(v@),
            Result::Err(e) => dec(s@, input@) is None && e == SadabyError::UnexpectedToken,
        },
    decreases s, input@.len(), 2int,
{
    match s {
        Shape::Uint { width } => {
            if input.len() < *width {
                return Result::Err(SadabyError::UnexpectedToken);
            }
            let val = le_decode(input, *width);
            Result::Ok(Value::Uint { width: *width, val })
        },
        Shape::Array { width, count } => {
            let w = *width;
            let c = *count;
            let n = input.len();
            if n / w < c {
                proof {
                    assert(w as int * c as int > input@.len() as int) by (nonlinear_arith)
                        requires
                            w >= 1,
                            input@.len() as int / (w as int) < c as int,
                            input@.len() >= 0,
                    ;
                }
                return Result::Err(SadabyError::UnexpectedToken);
            }
            proof {
                assert(w as int * c as int <= input@.len() as int) by (nonlinear_arith)
                    requires
                        w >= 1,
                        input@.len() as int / (w as int) >= c as int,
                        input@.len() >= 0,
                ;
            }
            let mut elems: Vec<u128> = Vec::new();
            let mut i: usize = 0;
            while i < c
                invariant
                    i <= c,
                    w >= 1,
                    w <= 16,
                    n == input@.len(),
                    w as int * c as int <= n as int,
                    elems@.len() == i,
                    forall|j: int|
                        0 <= j < i ==> #[trigger] elems@[j] as nat == num_of(
                            input@.subrange(j * w, (j + 1) * w),
                        ),
                decreases c - i,
            {
                proof {
                    assert(i as int * w as int >= 0 && (i as int + 1) * (w as int) <= w as int * c
                        as int && (i as int + 1) * (w as int) == i as int * w as int + w as int
                        && i as int * w as int <= (i as int + 1) * (w as int)) by (nonlinear_arith)
                        requires
                            0 <= (i as int) < c as int,
                            w >= 1,
                    ;
                }
                let start = i * w;
                let region = vstd::slice::slice_subrange(input, start, start + w);
                let e = le_decode(region, w);
                proof {
                    assert(region@.take(w as int) =~= input@.subrange(
                        i as int * w,
                        (i as int + 1) * w,
                    ));
                }
                elems.push(e);
                i = i + 1;
            }
            proof {
                assert(dec(s@, input@) is Some);
                let want = dec(s@, input@)->Some_0->Array_elems;
                assert(Seq::new(elems@.len(), |j: int| elems@[j] as nat) =~= want);
            }
            Result::Ok(Value::Array { width: w, elems })
        },
        Shape::Opt(inner) => {
            if input.len() == 0 {
                return Result::Err(SadabyError::UnexpectedToken);
            }
            let tag = input[0];
            if tag == TAG_NONE {
                Result::Ok(Value::Opt(Option::None))
            } else if tag == TAG_SOME {
                let rest = vstd::slice::slice_subrange(input, 1, input.len());
                proof {
                    assert(rest@ =~= input@.drop_first());
                }
                match decode(inner, rest) {
                    Result::Ok(v) => Result::Ok(Value::Opt(Option::Some(Box::new(v)))),
                    Result::Err(e) => Result::Err(e),
                }
            } else {
                Result::Err(SadabyError::UnexpectedToken)
            }
        },
        Shape::Sequence(elem) => {
            match decode_elems(elem, input) {
                Result::Ok(vs) => Result::Ok(Value::Sequence(vs)),
                Result::Err(e) => Result::Err(e),
            }
        },
        Shape::Pair(a, b) => {
            if input.len() == 0 {
                return Result::Err(SadabyError::UnexpectedToken);
            }
            let l = input[0] as usize;
            if 1 + l > input.len() {
                return Result::Err(SadabyError::UnexpectedToken);
            }
            let first = vstd::slice::slice_subrange(input, 1, 1 + l);
            let x = match decode(a, first) {
                Result::Ok(x) => x,
                Result::Err(e) => {
                    return Result::Err(e);
                },
            };
            let second = vstd::slice::slice_subrange(input, 1 + l, input.len());
            let y = match decode(b, second) {
                Result::Ok(y) => y,
                Result::Err(e) => {
                    return Result::Err(e);
                },
            };
            Result::Ok(Value::Pair(Box::new(x), Box::new(y)))
        },
        Shape::Rec(fields) => {
            proof {
                lemma_deep_shapes(fields@);
                assert forall|i: int| 0 <= i < fields@.len() implies wf_shape(
                    #[trigger] fields@[i]@,
                ) by {
                    assert(wf_shape(deep_shapes(fields@)[i]));
                }
            }
            if fields.len() == 0 {
                Result::Err(SadabyError::UnexpectedToken)
            } else if fields.len() == 1 {
                match decode(&fields[0], input) {
                    Result::Ok(v) => {
                        let ghost dv = v@;
                        let mut fv: Vec<Value> = Vec::new();
                        fv.push(v);
                        proof {
                            assert(deep_values(Seq::<Value>::empty()) =~= Seq::<SpecValue>::empty());
                            assert(fv@.drop_first() =~= Seq::<Value>::empty());
                            assert(deep_values(fv@) =~= seq![dv]);
                        }
                        Result::Ok(Value::Rec(fv))
                    },
                    Result::Err(e) => Result::Err(e),
                }
            } else {
                proof {
                    assert(deep_shapes(fields@).skip(0) =~= deep_shapes(fields@));
                }
                match decode_fields(fields, 0, input) {
                    Result::Ok(vs) => Result::Ok(Value::Rec(vs)),
                    Result::Err(e) => Result::Err(e),
                }
            }
        },
        Shape::Tagged(variants) => {
            proof {
                lemma_deep_variants(variants@);
            }
            if input.len() == 0 {
                return Result::Err(SadabyError::UnexpectedToken);
            }
            let b = input[0];
            match find_variant_idx(variants, b) {
                Option::None => Result::Err(SadabyError::UnexpectedToken),
                Option::Some(j) => {
                    let var = &variants[j];
                    let ghost dvar = deep_variants(variants@)[j as int];
                    proof {
                        assert(dvar.fields == deep_shapes(var.fields@));
                        lemma_deep_shapes(var.fields@);
                        lemma_find_variant(deep_variants(variants@), b);
                        assert forall|k: int| 0 <= k < var.fields@.len() implies wf_shape(
                            #[trigger] var.fields@[k]@,
                        ) by {
                            assert(wf_shape(deep_variants(variants@)[j as int].fields[k]));
                            assert(dvar.fields[k] == var.fields@[k]@);
                        }
                    }
                    let nf = var.fields.len();
                    if nf == 0 {
                        let fv: Vec<Value> = Vec::new();
                        proof {
                            assert(deep_values(fv@) =~= Seq::<SpecValue>::empty());
                        }
                        Result::Ok(Value::Tagged { ordinal: b, fields: fv })
                    } else if nf == 1 {
                        let rest = vstd::slice::slice_subrange(input, 1, input.len());
                        proof {
                            assert(rest@ =~= input@.drop_first());
                        }
                        match decode(&var.fields[0], rest) {
                            Result::Ok(v) => {
                                let ghost dv = v@;
                                let mut fv: Vec<Value> = Vec::new();
                                fv.push(v);
                                proof {
                                    assert(deep_values(Seq::<Value>::empty())
                                        =~= Seq::<SpecValue>::empty());
                                    assert(fv@.drop_first() =~= Seq::<Value>::empty());
                                    assert(deep_values(fv@) =~= seq![dv]);
                                }
                                Result::Ok(Value::Tagged { ordinal: b, fields: fv })
                            },
                            Result::Err(e) => Result::Err(e),
                        }
                    } else {
                        let rest = vstd::slice::slice_subrange(input, 1, input.len());
                        proof {
                            assert(rest@ =~= input@.drop_first());
                            assert(deep_shapes(var.fields@).skip(0) =~= deep_shapes(var.fields@));
                        }
                        match decode_fields(&var.fields, 0, rest) {
                            Result::Ok(vs) => Result::Ok(Value::Tagged { ordinal: b, fields: vs }),
                            Result::Err(e) => Result::Err(e),
                        }
                    }
                },
            }
        },
    }
}

} // verus!
