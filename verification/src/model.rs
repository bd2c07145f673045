//! The mathematical model of the wire format: shape descriptions, abstract
//! values, and the encoding and decoding functions the executable codec is
//! proved against.
use vstd::prelude::*;

verus! {

/// Tag byte marking a present optional payload (`'S'`).
pub const TAG_SOME: u8 = 83;

/// Tag byte marking an absent optional payload (`'N'`).
pub const TAG_NONE: u8 = 78;

/// Largest number of bytes a single frame may carry: its length must fit
/// in the one-byte length prefix.
pub const FRAME_MAX: usize = 255;

/// The abstract description of a type for codec purposes.
pub enum SpecShape {
    /// A fixed-width little-endian scalar of `width` bytes.
    Uint { width: nat },
    /// `count` scalars of `width` bytes each, concatenated unframed.
    Array { width: nat, count: nat },
    /// A tag byte, then the payload when present.
    Opt(Box<SpecShape>),
    /// Any number of elements, each one length-framed.
    Sequence(Box<SpecShape>),
    /// First component framed, second unframed to the end of the buffer.
    Pair(Box<SpecShape>, Box<SpecShape>),
    /// A product type with an ordered, non-empty field list.
    Rec(Seq<SpecShape>),
    /// A tagged union: each variant has a discriminant and a field list.
    Tagged(Seq<SpecVariant>),
}

/// One variant of a tagged union shape.
pub struct SpecVariant {
    pub ordinal: u8,
    pub fields: Seq<SpecShape>,
}

/// An abstract value conforming to some `SpecShape`.
pub enum SpecValue {
    Uint { width: nat, val: nat },
    Array { width: nat, elems: Seq<nat> },
    Opt(Option<Box<SpecValue>>),
    Sequence(Seq<SpecValue>),
    Pair(Box<SpecValue>, Box<SpecValue>),
    Rec(Seq<SpecValue>),
    Tagged { ordinal: u8, fields: Seq<SpecValue> },
}

/// `256 ^ width`: the number of scalar values of a given byte width.
pub open spec fn pow256(width: nat) -> nat
    decreases width,
{
    if width == 0 {
        1
    } else {
        256 * pow256((width - 1) as nat)
    }
}

/// The `width` little-endian bytes of `val`.
pub open spec fn le_bytes(val: nat, width: nat) -> Seq<u8>
    decreases width,
{
    if width == 0 {
        Seq::empty()
    } else {
        seq![(val % 256) as u8] + le_bytes(val / 256, (width - 1) as nat)
    }
}

/// The number whose little-endian bytes are `bytes`.
pub open spec fn num_of(bytes: Seq<u8>) -> nat
    decreases bytes.len(),
{
    if bytes.len() == 0 {
        0
    } else {
        (bytes[0] + 256 * num_of(bytes.drop_first())) as nat
    }
}

/// A length-framed region: one length byte, then the region itself.
pub open spec fn frame(s: Seq<u8>) -> Seq<u8> {
    seq![(s.len() % 256) as u8] + s
}

/// The encoding of an abstract value.
pub open spec fn enc(v: SpecValue) -> Seq<u8>
    decreases v, 3int,
{
    match v {
        SpecValue::Uint { width, val } => le_bytes(val, width),
        SpecValue::Array { width, elems } => enc_array(width, elems),
        SpecValue::Opt(o) => match o {
            Option::None => seq![TAG_NONE],
            Option::Some(b) => seq![TAG_SOME] + enc(*b),
        },
        SpecValue::Sequence(elems) => enc_framed(elems),
        SpecValue::Pair(a, b) => frame(enc(*a)) + enc(*b),
        SpecValue::Rec(fields) => if fields.len() == 1 {
            enc(fields[0])
        } else {
            enc_framed(fields)
        },
        SpecValue::Tagged { ordinal, fields } => seq![ordinal] + if fields.len() == 0 {
            Seq::<u8>::empty()
        } else if fields.len() == 1 {
            enc(fields[0])
        } else {
            enc_framed(fields)
        },
    }
}

/// Concatenation of the fixed-width encodings of scalar array elements.
pub open spec fn enc_array(width: nat, elems: Seq<nat>) -> Seq<u8>
    decreases elems.len(),
{
    if elems.len() == 0 {
        Seq::empty()
    } else {
        le_bytes(elems[0], width) + enc_array(width, elems.drop_first())
    }
}

/// Concatenation of the framed encodings of a list of values.
pub open spec fn enc_framed(vals: Seq<SpecValue>) -> Seq<u8>
    decreases vals, 0int,
{
    if vals.len() == 0 {
        Seq::empty()
    } else {
        frame(enc(vals[0])) + enc_framed(vals.drop_first())
    }
}

/// Index of the first variant carrying the given discriminant.
pub open spec fn find_variant(variants: Seq<SpecVariant>, ordinal: u8) -> Option<int>
    decreases variants.len(),
{
    if variants.len() == 0 {
        Option::None
    } else if variants[0].ordinal == ordinal {
        Option::Some(0)
    } else {
        match find_variant(variants.drop_first(), ordinal) {
            Option::Some(i) => Option::Some(i + 1),
            Option::None => Option::None,
        }
    }
}

/// The first variant with a matching discriminant, and the variants
/// before it, for every outcome of the lookup.
pub proof fn lemma_find_variant(variants: Seq<SpecVariant>, ordinal: u8)
    ensures
        match find_variant(variants, ordinal) {
            Option::Some(i) => 0 <= i < variants.len() && variants[i].ordinal == ordinal && (
            forall|j: int| 0 <= j < i ==> variants[j].ordinal != ordinal),
            Option::None => forall|j: int|
                0 <= j < variants.len() ==> variants[j].ordinal != ordinal,
        },
    decreases variants.len(),
{
    if variants.len() > 0 && variants[0].ordinal != ordinal {
        let rest = variants.drop_first();
        lemma_find_variant(rest, ordinal);
        match find_variant(rest, ordinal) {
            Option::Some(i) => {
                assert(variants[i + 1] == rest[i]);
                assert forall|j: int| 0 <= j < i + 1 implies variants[j].ordinal != ordinal by {
                    if j >= 1 {
                        assert(variants[j] == rest[j - 1]);
                    }
                }
            },
            Option::None => {
                assert forall|j: int| 0 <= j < variants.len() implies variants[j].ordinal
                    != ordinal by {
                    if j >= 1 {
                        assert(variants[j] == rest[j - 1]);
                    }
                }
            },
        }
    }
}

#[via_fn]
proof fn dec_decreases(s: SpecShape, bytes: Seq<u8>) {
    broadcast use vstd::seq::axiom_seq_index_decreases;

    match s {
        SpecShape::Rec(fs) => {
            if fs.len() >= 1 {
                assert(decreases_to!(s => fs));
                assert(decreases_to!(fs => fs[0]));
            }
        },
        SpecShape::Tagged(variants) => {
            if bytes.len() > 0 {
                lemma_find_variant(variants, bytes[0]);
                if let Option::Some(i) = find_variant(variants, bytes[0]) {
                    let v = variants[i];
                    let fs = v.fields;
                    assert(decreases_to!(s => variants));
                    assert(decreases_to!(variants => v));
                    assert(decreases_to!(v => fs));
                    if fs.len() >= 1 {
                        assert(decreases_to!(fs => fs[0]));
                    }
                }
            }
        },
        _ => {},
    }
}

/// The decoding of a byte sequence at the given shape; `None` is a
/// decoding failure.
pub open spec fn dec(s: SpecShape, bytes: Seq<u8>) -> Option<SpecValue>
    decreases s, bytes.len(), 2int,
    via dec_decreases
{
    match s {
        SpecShape::Uint { width } => if width <= bytes.len() {
            Option::Some(SpecValue::Uint { width, val: num_of(bytes.take(width as int)) })
        } else {
            Option::None
        },
        SpecShape::Array { width, count } => if width * count <= bytes.len() {
            Option::Some(
                SpecValue::Array {
                    width,
                    elems: Seq::new(
                        count,
                        |i: int| num_of(bytes.subrange(i * width, (i + 1) * width)),
                    ),
                },
            )
        } else {
            Option::None
        },
        SpecShape::Opt(inner) => if bytes.len() == 0 {
            Option::None
        } else if bytes[0] == TAG_NONE {
            Option::Some(SpecValue::Opt(Option::None))
        } else if bytes[0] == TAG_SOME {
            match dec(*inner, bytes.drop_first()) {
                Option::Some(v) => Option::Some(SpecValue::Opt(Option::Some(Box::new(v)))),
                Option::None => Option::None,
            }
        } else {
            Option::None
        },
        SpecShape::Sequence(elem) => match dec_elems(*elem, bytes) {
            Option::Some(vs) => Option::Some(SpecValue::Sequence(vs)),
            Option::None => Option::None,
        },
        SpecShape::Pair(a, b) => if bytes.len() >= 1 && 1 + (bytes[0] as int) <= bytes.len() {
            let mid = 1 + (bytes[0] as int);
            match dec(*a, bytes.subrange(1, mid)) {
                Option::Some(x) => match dec(*b, bytes.skip(mid)) {
                    Option::Some(y) => Option::Some(
                        SpecValue::Pair(Box::new(x), Box::new(y)),
                    ),
                    Option::None => Option::None,
                },
                Option::None => Option::None,
            }
        } else {
            Option::None
        },
        SpecShape::Rec(fs) => if fs.len() == 0 {
            Option::None
        } else if fs.len() == 1 {
            match dec(fs[0], bytes) {
                Option::Some(v) => Option::Some(SpecValue::Rec(seq![v])),
                Option::None => Option::None,
            }
        } else {
            match dec_fields(fs, bytes) {
                Option::Some(vs) => Option::Some(SpecValue::Rec(vs)),
                Option::None => Option::None,
            }
        },
        SpecShape::Tagged(variants) => if bytes.len() == 0 {
            Option::None
        } else {
            match find_variant(variants, bytes[0]) {
                Option::Some(i) => {
                    let fs = variants[i].fields;
                    if fs.len() == 0 {
                        Option::Some(SpecValue::Tagged { ordinal: bytes[0], fields: Seq::empty() })
                    } else if fs.len() == 1 {
                        match dec(fs[0], bytes.drop_first()) {
                            Option::Some(v) => Option::Some(
                                SpecValue::Tagged { ordinal: bytes[0], fields: seq![v] },
                            ),
                            Option::None => Option::None,
                        }
                    } else {
                        match dec_fields(fs, bytes.drop_first()) {
                            Option::Some(vs) => Option::Some(
                                SpecValue::Tagged { ordinal: bytes[0], fields: vs },
                            ),
                            Option::None => Option::None,
                        }
                    }
                },
                Option::None => Option::None,
            }
        },
    }
}

/// Decoding of a dynamic sequence: walk one frame at a time until the
/// input is exhausted; zero bytes decode to zero elements.
pub open spec fn dec_elems(elem: SpecShape, bytes: Seq<u8>) -> Option<Seq<SpecValue>>
    decreases elem, bytes.len(), 1int,
{
    if bytes.len() == 0 {
        Option::Some(Seq::empty())
    } else {
        let l = bytes[0] as int;
        if 1 + l <= bytes.len() {
            match dec(elem, bytes.subrange(1, 1 + l)) {
                Option::Some(v) => match dec_elems(elem, bytes.skip(1 + l)) {
                    Option::Some(vs) => Option::Some(Seq::empty().push(v) + vs),
                    Option::None => Option::None,
                },
                Option::None => Option::None,
            }
        } else {
            Option::None
        }
    }
}

/// Decoding of a framed field chain: one frame per field, every field
/// framed, walked left to right.
pub open spec fn dec_fields(fs: Seq<SpecShape>, bytes: Seq<u8>) -> Option<Seq<SpecValue>>
    decreases fs, bytes.len(), 1int,
{
    if fs.len() == 0 {
        Option::Some(Seq::empty())
    } else if bytes.len() == 0 {
        Option::None
    } else {
        let l = bytes[0] as int;
        if 1 + l <= bytes.len() {
            match dec(fs[0], bytes.subrange(1, 1 + l)) {
                Option::Some(v) => match dec_fields(fs.drop_first(), bytes.skip(1 + l)) {
                    Option::Some(vs) => Option::Some(Seq::empty().push(v) + vs),
                    Option::None => Option::None,
                },
                Option::None => Option::None,
            }
        } else {
            Option::None
        }
    }
}

/// Well-formedness of a shape: scalar widths are positive and at most 16
/// bytes, records have at least one field, and the variants of a tagged
/// union carry pairwise distinct discriminants.
pub open spec fn wf_shape(s: SpecShape) -> bool
    decreases s,
{
    match s {
        SpecShape::Uint { width } => 1 <= width <= 16,
        SpecShape::Array { width, count } => 1 <= width <= 16,
        SpecShape::Opt(inner) => wf_shape(*inner),
        SpecShape::Sequence(elem) => wf_shape(*elem),
        SpecShape::Pair(a, b) => wf_shape(*a) && wf_shape(*b),
        SpecShape::Rec(fs) => fs.len() >= 1 && (forall|i: int|
            0 <= i < fs.len() ==> wf_shape(#[trigger] fs[i])),
        SpecShape::Tagged(variants) => {
            &&& forall|i: int, j: int|
                0 <= i < j < variants.len() ==> variants[i].ordinal != variants[j].ordinal
            &&& forall|i: int, j: int|
                0 <= i < variants.len() && 0 <= j < variants[i].fields.len() ==> wf_shape(
                    #[trigger] variants[i].fields[j],
                )
        },
    }
}

/// Conformance of a value to a shape.
pub open spec fn fits(v: SpecValue, s: SpecShape) -> bool
    decreases v,
{
    match (v, s) {
        (SpecValue::Uint { width: vw, val }, SpecShape::Uint { width: sw }) => vw == sw && val
            < pow256(sw),
        (
            SpecValue::Array { width: vw, elems },
            SpecShape::Array { width: sw, count },
        ) => vw == sw && elems.len() == count && (forall|i: int|
            0 <= i < elems.len() ==> #[trigger] elems[i] < pow256(sw)),
        (SpecValue::Opt(Option::None), SpecShape::Opt(_)) => true,
        (SpecValue::Opt(Option::Some(b)), SpecShape::Opt(inner)) => fits(*b, *inner),
        (SpecValue::Sequence(vs), SpecShape::Sequence(elem)) => forall|i: int|
            0 <= i < vs.len() ==> fits(#[trigger] vs[i], *elem),
        (SpecValue::Pair(x, y), SpecShape::Pair(a, b)) => fits(*x, *a) && fits(*y, *b),
        (SpecValue::Rec(vs), SpecShape::Rec(fs)) => vs.len() == fs.len() && vs.len() >= 1 && (
        forall|i: int| 0 <= i < vs.len() ==> fits(#[trigger] vs[i], fs[i])),
        (SpecValue::Tagged { ordinal, fields }, SpecShape::Tagged(variants)) => match find_variant(
            variants,
            ordinal,
        ) {
            Option::Some(i) => fields.len() == variants[i].fields.len() && (forall|j: int|
                0 <= j < fields.len() ==> fits(#[trigger] fields[j], variants[i].fields[j])),
            Option::None => false,
        },
        _ => false,
    }
}

/// Every framed region of the value's encoding fits its one-byte length
/// prefix: this is the bound an encoder must check.
pub open spec fn frames_ok(v: SpecValue) -> bool
    decreases v, 1int,
{
    match v {
        SpecValue::Uint { .. } => true,
        SpecValue::Array { .. } => true,
        SpecValue::Opt(o) => match o {
            Option::None => true,
            Option::Some(b) => frames_ok(*b),
        },
        SpecValue::Sequence(vs) => frames_list_ok(vs),
        SpecValue::Pair(a, b) => frames_ok(*a) && enc(*a).len() <= FRAME_MAX && frames_ok(*b),
        SpecValue::Rec(vs) => if vs.len() == 1 {
            frames_ok(vs[0])
        } else {
            frames_list_ok(vs)
        },
        SpecValue::Tagged { ordinal, fields } => if fields.len() == 1 {
            frames_ok(fields[0])
        } else {
            frames_list_ok(fields)
        },
    }
}

/// Every value of a list can stand in a frame: its own frames hold, and
/// its whole encoding fits the one-byte length prefix.
pub open spec fn frames_list_ok(vs: Seq<SpecValue>) -> bool
    decreases vs, 0int,
{
    forall|i: int|
        0 <= i < vs.len() ==> frames_ok(#[trigger] vs[i]) && enc(vs[i]).len() <= FRAME_MAX
}

/// A scalar's little-endian encoding is exactly `width` bytes long.
pub proof fn lemma_le_len(val: nat, width: nat)
    ensures
        le_bytes(val, width).len() == width,
    decreases width,
{
    if width > 0 {
        lemma_le_len(val / 256, (width - 1) as nat);
    }
}

/// Reading back the little-endian bytes of a value below `256 ^ width`
/// recovers the value.
pub proof fn lemma_le_round(val: nat, width: nat)
    requires
        val < pow256(width),
    ensures
        num_of(le_bytes(val, width)) == val,
    decreases width,
{
    if width > 0 {
        let bytes = le_bytes(val, width);
        let tail = le_bytes(val / 256, (width - 1) as nat);
        assert(bytes.drop_first() =~= tail);
        assert(val / 256 < pow256((width - 1) as nat)) by (nonlinear_arith)
            requires
                val < 256 * pow256((width - 1) as nat),
        ;
        lemma_le_round(val / 256, (width - 1) as nat);
        assert(val == 256 * (val / 256) + val % 256);
    } else {
        assert(num_of(le_bytes(val, 0)) == 0);
    }
}

/// The concatenated encodings of `count` scalars of `width` bytes each
/// occupy `width * count` bytes.
pub proof fn lemma_enc_array_len(width: nat, elems: Seq<nat>)
    ensures
        enc_array(width, elems).len() == width * elems.len(),
    decreases elems.len(),
{
    if elems.len() == 0 {
        assert(width * 0 == 0) by (nonlinear_arith);
    } else {
        lemma_le_len(elems[0], width);
        lemma_enc_array_len(width, elems.drop_first());
        assert(width + width * (elems.len() - 1) == width * elems.len()) by (nonlinear_arith);
    }
}

/// The bytes of the `i`th element of an encoded scalar array stand at
/// offset `i * width`.
pub proof fn lemma_enc_array_slice(width: nat, elems: Seq<nat>, i: int)
    requires
        0 <= i < elems.len(),
    ensures
        enc_array(width, elems).subrange(i * width, (i + 1) * width) == le_bytes(elems[i], width),
    decreases i,
{
    let w = width as int;
    let bytes = enc_array(width, elems);
    lemma_enc_array_len(width, elems);
    lemma_le_len(elems[0], width);
    if i == 0 {
        assert(w * 1 <= w * elems.len()) by (nonlinear_arith)
            requires
                0 <= w,
                1 <= elems.len(),
        ;
        assert(bytes.subrange(0, w) =~= le_bytes(elems[0], width));
    } else {
        let rest = elems.drop_first();
        lemma_enc_array_slice(width, rest, i - 1);
        lemma_enc_array_len(width, rest);
        assert((i - 1) * w == i * w - w && i * w == (i + 1) * w - w) by (nonlinear_arith);
        assert(w * 1 <= w * i && (i + 1) * w <= w * elems.len()) by (nonlinear_arith)
            requires
                0 <= w,
                1 <= i && i + 1 <= elems.len(),
        ;
        assert(bytes.subrange(i * w, (i + 1) * w) =~= enc_array(width, rest).subrange(
            (i - 1) * w,
            i * w,
        ));
        assert(rest[i - 1] == elems[i]);
    }
}

/// A byte width's value count is positive.
pub proof fn lemma_pow256_pos(width: nat)
    ensures
        pow256(width) >= 1,
    decreases width,
{
    if width > 0 {
        lemma_pow256_pos((width - 1) as nat);
    }
}

/// A wider scalar admits at least as many values.
pub proof fn lemma_pow256_mono(w1: nat, w2: nat)
    requires
        w1 <= w2,
    ensures
        pow256(w1) <= pow256(w2),
    decreases w2,
{
    if w1 < w2 {
        lemma_pow256_mono(w1, (w2 - 1) as nat);
        lemma_pow256_pos((w2 - 1) as nat);
        assert(pow256(w2) == 256 * pow256((w2 - 1) as nat));
    }
}

/// The largest supported scalar width fills exactly the 128-bit range.
pub proof fn lemma_pow256_16()
    ensures
        pow256(16) == 0x100000000000000000000000000000000,
{
    reveal_with_fuel(pow256, 17);
}

/// Appending one element to an encoded scalar array appends its bytes.
pub proof fn lemma_enc_array_push(width: nat, elems: Seq<nat>, x: nat)
    ensures
        enc_array(width, elems.push(x)) == enc_array(width, elems) + le_bytes(x, width),
    decreases elems.len(),
{
    let p = elems.push(x);
    if elems.len() == 0 {
        assert(p.drop_first() =~= Seq::<nat>::empty());
        assert(enc_array(width, Seq::<nat>::empty()) =~= Seq::<u8>::empty());
        assert(enc_array(width, p) =~= le_bytes(x, width));
        assert(enc_array(width, elems) + le_bytes(x, width) =~= le_bytes(x, width));
    } else {
        assert(p.drop_first() =~= elems.drop_first().push(x));
        lemma_enc_array_push(width, elems.drop_first(), x);
        assert(enc_array(width, p) =~= enc_array(width, elems) + le_bytes(x, width));
    }
}

/// Appending one value to a framed chain appends its frame.
pub proof fn lemma_enc_framed_push(vals: Seq<SpecValue>, x: SpecValue)
    ensures
        enc_framed(vals.push(x)) == enc_framed(vals) + frame(enc(x)),
    decreases vals.len(),
{
    let p = vals.push(x);
    if vals.len() == 0 {
        assert(p.drop_first() =~= Seq::<SpecValue>::empty());
        assert(enc_framed(Seq::<SpecValue>::empty()) =~= Seq::<u8>::empty());
        assert(p[0] == x);
        assert(enc_framed(p) =~= frame(enc(x)));
        assert(enc_framed(vals) + frame(enc(x)) =~= frame(enc(x)));
    } else {
        assert(p.drop_first() =~= vals.drop_first().push(x));
        lemma_enc_framed_push(vals.drop_first(), x);
        assert(enc_framed(p) =~= enc_framed(vals) + frame(enc(x)));
    }
}

/// Round trip for a dynamic sequence's framed element chain: decoding
/// the concatenated frames recovers exactly the encoded elements.
pub proof fn lemma_elems_round_trip(elem: SpecShape, vs: Seq<SpecValue>)
    requires
        wf_shape(elem),
        forall|i: int| 0 <= i < vs.len() ==> fits(#[trigger] vs[i], elem),
        frames_list_ok(vs),
    ensures
        dec_elems(elem, enc_framed(vs)) == Option::Some(vs),
    decreases vs, 0int,
{
    if vs.len() == 0 {
    } else {
        let e0 = enc(vs[0]);
        let rest = enc_framed(vs.drop_first());
        let bytes = enc_framed(vs);
        assert(bytes == frame(e0) + rest);
        assert(bytes[0] == e0.len() % 256);
        assert(e0.len() % 256 == e0.len());
        let l = bytes[0] as int;
        assert(bytes.subrange(1, 1 + l) =~= e0);
        lemma_round_trip(elem, vs[0]);
        assert(bytes.skip(1 + l) =~= rest);
        assert(forall|j: int|
            0 <= j < vs.drop_first().len() ==> #[trigger] vs.drop_first()[j] == vs[j + 1]);
        lemma_elems_round_trip(elem, vs.drop_first());
        assert(Seq::empty().push(vs[0]) + vs.drop_first() =~= vs);
    }
}

/// Round trip for a framed field chain: decoding the frames of two or
/// more record or variant fields recovers exactly the encoded fields.
pub proof fn lemma_fields_round_trip(fs: Seq<SpecShape>, vs: Seq<SpecValue>)
    requires
        fs.len() == vs.len(),
        forall|i: int| 0 <= i < fs.len() ==> wf_shape(#[trigger] fs[i]),
        forall|i: int| 0 <= i < vs.len() ==> fits(#[trigger] vs[i], fs[i]),
        frames_list_ok(vs),
    ensures
        dec_fields(fs, enc_framed(vs)) == Option::Some(vs),
    decreases vs, 0int,
{
    if vs.len() == 0 {
    } else {
        let e0 = enc(vs[0]);
        let rest = enc_framed(vs.drop_first());
        let bytes = enc_framed(vs);
        assert(bytes == frame(e0) + rest);
        assert(bytes[0] == e0.len() % 256);
        assert(e0.len() % 256 == e0.len());
        let l = bytes[0] as int;
        assert(bytes.subrange(1, 1 + l) =~= e0);
        lemma_round_trip(fs[0], vs[0]);
        assert(bytes.skip(1 + l) =~= rest);
        assert(forall|j: int|
            0 <= j < vs.drop_first().len() ==> #[trigger] vs.drop_first()[j] == vs[j + 1]);
        assert(forall|j: int|
            0 <= j < fs.drop_first().len() ==> #[trigger] fs.drop_first()[j] == fs[j + 1]);
        lemma_fields_round_trip(fs.drop_first(), vs.drop_first());
        assert(Seq::empty().push(vs[0]) + vs.drop_first() =~= vs);
    }
}

/// Round trip: decoding the encoding of any well-shaped value whose
/// frames all fit their one-byte length prefixes yields that value back.
pub proof fn lemma_round_trip(s: SpecShape, v: SpecValue)
    requires
        wf_shape(s),
        fits(v, s),
        frames_ok(v),
    ensures
        dec(s, enc(v)) == Option::Some(v),
    decreases v, 1int,
{
    let bytes = enc(v);
    match v {
        SpecValue::Uint { width, val } => {
            lemma_le_len(val, width);
            assert(bytes.take(width as int) =~= bytes);
            lemma_le_round(val, width);
        },
        SpecValue::Array { width, elems } => {
            let count = elems.len();
            lemma_enc_array_len(width, elems);
            let decoded = Seq::new(
                count,
                |i: int| num_of(bytes.subrange(i * width, (i + 1) * width)),
            );
            assert forall|i: int| 0 <= i < count implies decoded[i] == elems[i] by {
                lemma_enc_array_slice(width, elems, i);
                lemma_le_round(elems[i], width);
            }
            assert(decoded =~= elems);
        },
        SpecValue::Opt(o) => {
            match o {
                Option::None => {},
                Option::Some(b) => {
                    let inner = s->Opt_0;
                    assert(bytes[0] == TAG_SOME);
                    assert(bytes.drop_first() =~= enc(*b));
                    lemma_round_trip(*inner, *b);
                },
            }
        },
        SpecValue::Sequence(vs) => {
            let elem = s->Sequence_0;
            lemma_elems_round_trip(*elem, vs);
        },
        SpecValue::Pair(x, y) => {
            let (a, b) = (s->Pair_0, s->Pair_1);
            let ea = enc(*x);
            let eb = enc(*y);
            assert(bytes == frame(ea) + eb);
            assert(bytes[0] == ea.len() % 256);
            assert(ea.len() % 256 == ea.len());
            let mid = 1 + (bytes[0] as int);
            assert(bytes.subrange(1, mid) =~= ea);
            assert(bytes.skip(mid) =~= eb);
            lemma_round_trip(*a, *x);
            lemma_round_trip(*b, *y);
        },
        SpecValue::Rec(vs) => {
            let fs = s->Rec_0;
            if vs.len() == 1 {
                lemma_round_trip(fs[0], vs[0]);
                assert(seq![vs[0]] =~= vs);
            } else {
                lemma_fields_round_trip(fs, vs);
            }
        },
        SpecValue::Tagged { ordinal, fields } => {
            let variants = s->Tagged_0;
            lemma_find_variant(variants, ordinal);
            let i = find_variant(variants, ordinal)->Some_0;
            let fs = variants[i].fields;
            assert(bytes[0] == ordinal);
            if fields.len() == 0 {
                assert(fields =~= Seq::<SpecValue>::empty());
            } else if fields.len() == 1 {
                assert(bytes.drop_first() =~= enc(fields[0]));
                lemma_round_trip(fs[0], fields[0]);
                assert(seq![fields[0]] =~= fields);
            } else {
                assert(bytes.drop_first() =~= enc_framed(fields));
                lemma_fields_round_trip(fs, fields);
            }
        },
    }
}

/// Decode failure on an unrecognized discriminant: a buffer whose first
/// byte matches no variant of a tagged union never decodes to a value.
pub proof fn lemma_bad_discriminant(variants: Seq<SpecVariant>, bytes: Seq<u8>)
    requires
        bytes.len() >= 1,
        forall|i: int| 0 <= i < variants.len() ==> (#[trigger] variants[i]).ordinal != bytes[0],
    ensures
        dec(SpecShape::Tagged(variants), bytes) is None,
{
    lemma_find_variant(variants, bytes[0]);
}

/// Decode failure on an unrecognized optional tag: a buffer whose first
/// byte is neither the present nor the absent marker never decodes.
pub proof fn lemma_bad_tag(inner: SpecShape, bytes: Seq<u8>)
    requires
        bytes.len() >= 1,
        bytes[0] != TAG_SOME,
        bytes[0] != TAG_NONE,
    ensures
        dec(SpecShape::Opt(Box::new(inner)), bytes) is None,
{
}

/// Sequence boundary: an empty sequence encodes to zero bytes, and zero
/// bytes decode to the empty sequence, whatever the element shape.
pub proof fn lemma_sequence_boundary(elem: SpecShape)
    ensures
        enc(SpecValue::Sequence(Seq::empty())) == Seq::<u8>::empty(),
        dec(SpecShape::Sequence(Box::new(elem)), Seq::empty()) == Option::Some(
            SpecValue::Sequence(Seq::empty()),
        ),
{
    assert(enc_framed(Seq::<SpecValue>::empty()) =~= Seq::<u8>::empty());
    assert(dec_elems(elem, Seq::empty()) == Option::Some(Seq::<SpecValue>::empty()));
}

/// Frame-chain layout: a record of three fields whose encodings are two,
/// zero, and five bytes long occupies exactly ten bytes, each field
/// behind its own length byte, the last field included.
pub proof fn lemma_frame_chain_layout(f0: SpecValue, f1: SpecValue, f2: SpecValue)
    requires
        enc(f0).len() == 2,
        enc(f1).len() == 0,
        enc(f2).len() == 5,
    ensures
        enc(SpecValue::Rec(seq![f0, f1, f2])) == seq![2u8] + enc(f0) + seq![0u8] + seq![5u8] + enc(
            f2,
        ),
        enc(SpecValue::Rec(seq![f0, f1, f2])).len() == 10,
{
    let vs = seq![f0, f1, f2];
    let vs1 = vs.drop_first();
    let vs2 = vs1.drop_first();
    let vs3 = vs2.drop_first();
    assert(vs1 =~= seq![f1, f2]);
    assert(vs2 =~= seq![f2]);
    assert(vs3 =~= Seq::<SpecValue>::empty());
    assert(enc_framed(vs3) =~= Seq::<u8>::empty());
    assert(enc_framed(vs2) == frame(enc(f2)) + enc_framed(vs3));
    assert(enc_framed(vs1) == frame(enc(f1)) + enc_framed(vs2));
    assert(enc_framed(vs) == frame(enc(f0)) + enc_framed(vs1));
    assert(frame(enc(f0)) =~= seq![2u8] + enc(f0));
    assert(frame(enc(f1)) =~= seq![0u8]);
    assert(frame(enc(f2)) =~= seq![5u8] + enc(f2));
    assert(enc(SpecValue::Rec(vs)) =~= seq![2u8] + enc(f0) + seq![0u8] + seq![5u8] + enc(f2));
}

} // verus!
