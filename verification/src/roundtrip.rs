//! Reading back what was written gives the same value.
use vstd::prelude::*;
use vstd::utf8::{decode_utf8, encode_utf8, encode_utf8_decode_utf8, encode_utf8_valid_utf8, valid_utf8};
use crate::byte_order::{
    is_big_endian, lemma_signed_roundtrip, lemma_u16_roundtrip, lemma_u32_roundtrip, lemma_u64_roundtrip,
    u16_bytes, u16_of, u32_bytes, u32_of, u64_bytes, u64_of,
};
use crate::platform::PlatformType;
use crate::tag_id;
use crate::text::{modified_utf8_bytes, modified_utf8_roundtrips};
use crate::tree::{
    elements_texts_roundtrip, enc_elements, enc_field, enc_fields, enc_list, enc_payload, fields_texts_roundtrip,
    texts_roundtrip, then, tree_id, wire_elements, wire_fields, wire_payload, NbtTree,
};
use crate::wire::{
    enc_byte_array, enc_int_array, enc_ints, enc_long_array, enc_longs, enc_string, enc_tag, ints_of, longs_of,
    string_bytes, string_text, wire_byte_array, wire_i16, wire_i32, wire_i64, wire_int_array, wire_long_array,
    wire_string, wire_tag, wire_u32, wire_u64, wire_u8, Parsed,
};

verus! {

proof fn lemma_u16_prefix(p: PlatformType, a: Seq<u8>, s: Seq<u8>)
    requires
        a.len() >= 2,
    ensures
        u16_of(p, a + s) == u16_of(p, a),
{
    assert((a + s)[0] == a[0] && (a + s)[1] == a[1]);
}

proof fn lemma_u32_prefix(p: PlatformType, a: Seq<u8>, s: Seq<u8>)
    requires
        a.len() >= 4,
    ensures
        u32_of(p, a + s) == u32_of(p, a),
{
    assert((a + s)[0] == a[0] && (a + s)[1] == a[1] && (a + s)[2] == a[2] && (a + s)[3] == a[3]);
}

proof fn lemma_u64_prefix(p: PlatformType, a: Seq<u8>, s: Seq<u8>)
    requires
        a.len() >= 8,
    ensures
        u64_of(p, a + s) == u64_of(p, a),
{
    assert((a + s)[0] == a[0] && (a + s)[1] == a[1] && (a + s)[2] == a[2] && (a + s)[3] == a[3]);
    assert((a + s)[4] == a[4] && (a + s)[5] == a[5] && (a + s)[6] == a[6] && (a + s)[7] == a[7]);
}

/// Reading a written 32-bit length gives it back.
pub proof fn lemma_length_roundtrip(p: PlatformType, n: nat, s: Seq<u8>)
    requires
        n <= 0x7fff_ffff,
    ensures
        wire_i32(p, u32_bytes(p, n as u32) + s) == Ok::<(i32, Seq<u8>), crate::wire::Fault>((n as i32, s)),
{
    lemma_u32_roundtrip(p, n as u32);
    lemma_u32_prefix(p, u32_bytes(p, n as u32), s);
    assert((u32_bytes(p, n as u32) + s).skip(4) =~= s);
    let x = n as u32;
    assert(x <= 0x7fff_ffff ==> (x as i32) as int == x as int) by (bit_vector);
}

/// Reading a written tag name gives it back.
pub proof fn lemma_tag_roundtrip(p: PlatformType, t: Seq<char>, s: Seq<u8>)
    requires
        enc_tag(p, t) is Some,
        modified_utf8_roundtrips(t),
    ensures
        wire_tag(p, enc_tag(p, t)->Some_0 + s) == Ok::<(Seq<char>, Seq<u8>), crate::wire::Fault>((t, s)),
{
    let b = modified_utf8_bytes(t);
    let h = u16_bytes(p, b.len() as u16);
    lemma_u16_roundtrip(p, b.len() as u16);
    lemma_u16_prefix(p, h, b + s);
    assert(enc_tag(p, t)->Some_0 + s =~= h + (b + s));
    assert((h + (b + s)).skip(2) =~= b + s);
    assert((b + s).take(b.len() as int) =~= b);
    assert((b + s).skip(b.len() as int) =~= s);
}

/// Reading a written string payload gives it back.
pub proof fn lemma_string_roundtrip(p: PlatformType, t: Seq<char>, s: Seq<u8>)
    requires
        enc_string(p, t) is Some,
        is_big_endian(p) ==> modified_utf8_roundtrips(t),
    ensures
        wire_string(p, enc_string(p, t)->Some_0 + s) == Ok::<(Seq<char>, Seq<u8>), crate::wire::Fault>((t, s)),
{
    let b = string_bytes(p, t);
    let n = b.len() as u16;
    let h = u16_bytes(p, n);
    lemma_u16_roundtrip(p, n);
    lemma_u16_prefix(p, h, b + s);
    assert(enc_string(p, t)->Some_0 + s =~= h + (b + s));
    assert((h + (b + s)).skip(2) =~= b + s);
    assert(n <= 32767 ==> (n as i16) as int == n as int) by (bit_vector);
    assert((b + s).take(b.len() as int) =~= b);
    assert((b + s).skip(b.len() as int) =~= s);
    if !is_big_endian(p) {
        encode_utf8_valid_utf8(t);
        encode_utf8_decode_utf8(t);
    }
    assert(string_text(p, b) == Ok::<Seq<char>, crate::wire::Fault>(t));
}

/// The written 32-bit numbers take four bytes each, in order.
proof fn lemma_enc_ints(p: PlatformType, vs: Seq<i32>)
    ensures
        enc_ints(p, vs).len() == 4 * vs.len(),
        forall|k: int| 0 <= k < vs.len() ==> #[trigger] u32_of(p, enc_ints(p, vs).skip(4 * k)) == vs[k] as u32,
    decreases vs.len(),
{
    if vs.len() > 0 {
        let init = vs.drop_last();
        lemma_enc_ints(p, init);
        let a = enc_ints(p, init);
        let l = u32_bytes(p, vs.last() as u32);
        lemma_u32_roundtrip(p, vs.last() as u32);
        assert(enc_ints(p, vs) == a + l);
        assert forall|k: int| 0 <= k < vs.len() implies #[trigger] u32_of(p, enc_ints(p, vs).skip(4 * k)) == vs[k] as u32 by {
            let x = (a + l).skip(4 * k);
            if k < vs.len() - 1 {
                let y = a.skip(4 * k);
                assert(x[0] == y[0] && x[1] == y[1] && x[2] == y[2] && x[3] == y[3]);
                assert(u32_of(p, y) == init[k] as u32);
            } else {
                assert(x =~= l);
            }
        }
    }
}

/// The written 64-bit numbers take eight bytes each, in order.
proof fn lemma_enc_longs(p: PlatformType, vs: Seq<i64>)
    ensures
        enc_longs(p, vs).len() == 8 * vs.len(),
        forall|k: int| 0 <= k < vs.len() ==> #[trigger] u64_of(p, enc_longs(p, vs).skip(8 * k)) == vs[k] as u64,
    decreases vs.len(),
{
    if vs.len() > 0 {
        let init = vs.drop_last();
        lemma_enc_longs(p, init);
        let a = enc_longs(p, init);
        let l = u64_bytes(p, vs.last() as u64);
        lemma_u64_roundtrip(p, vs.last() as u64);
        assert(enc_longs(p, vs) == a + l);
        assert forall|k: int| 0 <= k < vs.len() implies #[trigger] u64_of(p, enc_longs(p, vs).skip(8 * k)) == vs[k] as u64 by {
            let x = (a + l).skip(8 * k);
            if k < vs.len() - 1 {
                let y = a.skip(8 * k);
                assert(x[0] == y[0] && x[1] == y[1] && x[2] == y[2] && x[3] == y[3]);
                assert(x[4] == y[4] && x[5] == y[5] && x[6] == y[6] && x[7] == y[7]);
                assert(u64_of(p, y) == init[k] as u64);
            } else {
                assert(x =~= l);
            }
        }
    }
}

/// Reading a written int array gives it back.
proof fn lemma_int_array_roundtrip(p: PlatformType, vs: Seq<i32>, s: Seq<u8>)
    requires
        enc_int_array(p, vs) is Some,
    ensures
        wire_int_array(p, enc_int_array(p, vs)->Some_0 + s) == Ok::<(Seq<i32>, Seq<u8>), crate::wire::Fault>((vs, s)),
{
    let e = enc_ints(p, vs);
    lemma_enc_ints(p, vs);
    lemma_length_roundtrip(p, vs.len(), e + s);
    assert(enc_int_array(p, vs)->Some_0 + s =~= u32_bytes(p, vs.len() as u32) + (e + s));
    assert((e + s).skip(4 * vs.len() as int) =~= s);
    assert forall|k: int| 0 <= k < vs.len() implies #[trigger] ints_of(p, e + s, vs.len())[k] == vs[k] by {
        let x = (e + s).skip(4 * k);
        let y = e.skip(4 * k);
        assert(x[0] == y[0] && x[1] == y[1] && x[2] == y[2] && x[3] == y[3]);
        assert(u32_of(p, y) == vs[k] as u32);
        lemma_signed_roundtrip(0, vs[k], 0);
    }
    assert(ints_of(p, e + s, vs.len()) =~= vs);
}

/// Reading a written long array gives it back.
proof fn lemma_long_array_roundtrip(p: PlatformType, vs: Seq<i64>, s: Seq<u8>)
    requires
        enc_long_array(p, vs) is Some,
    ensures
        wire_long_array(p, enc_long_array(p, vs)->Some_0 + s) == Ok::<(Seq<i64>, Seq<u8>), crate::wire::Fault>((vs, s)),
{
    let e = enc_longs(p, vs);
    lemma_enc_longs(p, vs);
    lemma_length_roundtrip(p, vs.len(), e + s);
    assert(enc_long_array(p, vs)->Some_0 + s =~= u32_bytes(p, vs.len() as u32) + (e + s));
    assert((e + s).skip(8 * vs.len() as int) =~= s);
    assert forall|k: int| 0 <= k < vs.len() implies #[trigger] longs_of(p, e + s, vs.len())[k] == vs[k] by {
        let x = (e + s).skip(8 * k);
        let y = e.skip(8 * k);
        assert(x[0] == y[0] && x[1] == y[1] && x[2] == y[2] && x[3] == y[3]);
        assert(x[4] == y[4] && x[5] == y[5] && x[6] == y[6] && x[7] == y[7]);
        assert(u64_of(p, y) == vs[k] as u64);
        lemma_signed_roundtrip(0, 0, vs[k]);
    }
    assert(longs_of(p, e + s, vs.len()) =~= vs);
}

/// A written payload is never empty.
pub proof fn lemma_payload_nonempty(p: PlatformType, v: NbtTree)
    requires
        enc_payload(p, v) is Ok,
    ensures
        enc_payload(p, v)->Ok_0.len() > 0,
{
    match v {
        NbtTree::Short(x) => { lemma_u16_roundtrip(p, x as u16); },
        NbtTree::Int(x) => { lemma_u32_roundtrip(p, x as u32); },
        NbtTree::Long(x) => { lemma_u64_roundtrip(p, x as u64); },
        NbtTree::Float(x) => { lemma_u32_roundtrip(p, x); },
        NbtTree::Double(x) => { lemma_u64_roundtrip(p, x); },
        NbtTree::ByteArray(b) => { lemma_u32_roundtrip(p, b.len() as u32); },
        NbtTree::String(t) => { lemma_u16_roundtrip(p, string_bytes(p, t).len() as u16); },
        NbtTree::IntArray(vs) => { lemma_u32_roundtrip(p, vs.len() as u32); },
        NbtTree::LongArray(vs) => { lemma_u32_roundtrip(p, vs.len() as u32); },
        _ => {},
    }
}

/// Reading the payload written for a value that holds no other values gives it back.
proof fn lemma_leaf_roundtrip(p: PlatformType, v: NbtTree, s: Seq<u8>)
    requires
        !(v is List),
        !(v is Compound),
        enc_payload(p, v) is Ok,
        texts_roundtrip(p, v),
    ensures
        wire_payload(p, tree_id(v), enc_payload(p, v)->Ok_0 + s) == Ok::<(NbtTree, Seq<u8>), crate::wire::Fault>((v, s)),
{
    reveal(wire_payload);
    let b = enc_payload(p, v)->Ok_0;
    match v {
        NbtTree::Byte(x) => {
            assert((seq![x as u8] + s).skip(1) =~= s);
            assert(((x as u8) as i8) == x) by (bit_vector);
        },
        NbtTree::Short(x) => {
            lemma_u16_roundtrip(p, x as u16);
            lemma_u16_prefix(p, b, s);
            lemma_signed_roundtrip(x, 0, 0);
            assert((b + s).skip(2) =~= s);
        },
        NbtTree::Int(x) => {
            lemma_u32_roundtrip(p, x as u32);
            lemma_u32_prefix(p, b, s);
            lemma_signed_roundtrip(0, x, 0);
            assert((b + s).skip(4) =~= s);
        },
        NbtTree::Long(x) => {
            lemma_u64_roundtrip(p, x as u64);
            lemma_u64_prefix(p, b, s);
            lemma_signed_roundtrip(0, 0, x);
            assert((b + s).skip(8) =~= s);
        },
        NbtTree::Float(x) => {
            lemma_u32_roundtrip(p, x);
            lemma_u32_prefix(p, b, s);
            assert((b + s).skip(4) =~= s);
        },
        NbtTree::Double(x) => {
            lemma_u64_roundtrip(p, x);
            lemma_u64_prefix(p, b, s);
            assert((b + s).skip(8) =~= s);
        },
        NbtTree::ByteArray(bytes) => {
            lemma_length_roundtrip(p, bytes.len(), bytes + s);
            assert(b + s =~= u32_bytes(p, bytes.len() as u32) + (bytes + s));
            assert((bytes + s).take(bytes.len() as int) =~= bytes);
            assert((bytes + s).skip(bytes.len() as int) =~= s);
        },
        NbtTree::String(t) => {
            lemma_string_roundtrip(p, t, s);
        },
        NbtTree::IntArray(vs) => {
            lemma_int_array_roundtrip(p, vs, s);
        },
        NbtTree::LongArray(vs) => {
            lemma_long_array_roundtrip(p, vs, s);
        },
        _ => {},
    }
}

/// Reading the payload that was written for `v` gives `v` back, and leaves
/// whatever followed.
pub proof fn lemma_payload_roundtrip(p: PlatformType, v: NbtTree, s: Seq<u8>)
    requires
        enc_payload(p, v) is Ok,
        texts_roundtrip(p, v),
    ensures
        wire_payload(p, tree_id(v), enc_payload(p, v)->Ok_0 + s) == Ok::<(NbtTree, Seq<u8>), crate::wire::Fault>((v, s)),
    decreases v, 2int,
{
    match v {
        NbtTree::List(id, es) => {
            lemma_list_roundtrip(p, id, es, s);
        },
        NbtTree::Compound(fs) => {
            lemma_compound_roundtrip(p, fs, s);
        },
        _ => {
            lemma_leaf_roundtrip(p, v, s);
        },
    }
}

/// Reading a written list payload gives the list back.
#[verifier::spinoff_prover]
#[verifier::rlimit(100)]
proof fn lemma_list_roundtrip(p: PlatformType, id: u8, es: Seq<NbtTree>, s: Seq<u8>)
    requires
        enc_list(p, id, es) is Ok,
        elements_texts_roundtrip(p, es),
    ensures
        wire_payload(p, tag_id::LIST, enc_list(p, id, es)->Ok_0 + s)
            == Ok::<(NbtTree, Seq<u8>), crate::wire::Fault>((NbtTree::List(id, es), s)),
    decreases es, 1int,
{
    reveal(wire_payload);
    let e = enc_elements(p, id, es)->Ok_0;
    lemma_elements_roundtrip(p, id, es, s);
    lemma_length_roundtrip(p, es.len(), e + s);
    let h = u32_bytes(p, es.len() as u32);
    let whole = enc_list(p, id, es)->Ok_0 + s;
    assert(whole =~= seq![id] + (h + (e + s)));
    assert(whole.skip(1) =~= h + (e + s));
    assert(wire_u8(whole) == Ok::<(u8, Seq<u8>), crate::wire::Fault>((id, h + (e + s))));
}

/// Reading a written compound payload gives the compound back.
proof fn lemma_compound_roundtrip(p: PlatformType, fs: Seq<(Seq<char>, NbtTree)>, s: Seq<u8>)
    requires
        enc_fields(p, fs) is Ok,
        fields_texts_roundtrip(p, fs),
    ensures
        wire_payload(p, tag_id::COMPOUND, enc_fields(p, fs)->Ok_0.push(tag_id::END) + s)
            == Ok::<(NbtTree, Seq<u8>), crate::wire::Fault>((NbtTree::Compound(fs), s)),
    decreases fs, 1int,
{
    reveal(wire_payload);
    reveal(wire_fields);
    let f = enc_fields(p, fs)->Ok_0;
    lemma_fields_roundtrip(p, fs, s);
    assert(f.push(tag_id::END) + s =~= f + (seq![tag_id::END] + s));
    assert(wire_fields(p, f.push(tag_id::END) + s)
        == Ok::<(Seq<(Seq<char>, NbtTree)>, Seq<u8>), crate::wire::Fault>((fs, s)));
}

/// Reading the elements that were written for `es` gives `es` back.
#[verifier::spinoff_prover]
#[verifier::rlimit(100)]
pub proof fn lemma_elements_roundtrip(p: PlatformType, id: u8, es: Seq<NbtTree>, s: Seq<u8>)
    requires
        enc_elements(p, id, es) is Ok,
        elements_texts_roundtrip(p, es),
    ensures
        wire_elements(p, id, es.len(), enc_elements(p, id, es)->Ok_0 + s)
            == Ok::<(Seq<NbtTree>, Seq<u8>), crate::wire::Fault>((es, s)),
    decreases es, 0int,
{
    reveal(wire_elements);
    if es.len() == 0 {
        assert(Seq::<u8>::empty() + s =~= s);
        assert(es =~= Seq::<NbtTree>::empty());
    } else {
        let b0 = enc_payload(p, es[0])->Ok_0;
        let rest = enc_elements(p, id, es.drop_first())->Ok_0;
        lemma_payload_roundtrip(p, es[0], rest + s);
        lemma_payload_nonempty(p, es[0]);
        lemma_elements_roundtrip(p, id, es.drop_first(), s);
        assert(tree_id(es[0]) == id);
        assert(enc_elements(p, id, es)->Ok_0 == b0 + rest);
        let whole = enc_elements(p, id, es)->Ok_0 + s;
        assert(whole =~= b0 + (rest + s));
        assert(wire_payload(p, id, whole) == Ok::<(NbtTree, Seq<u8>), crate::wire::Fault>((es[0], rest + s)));
        assert((rest + s).len() < whole.len());
        assert(es.drop_first().len() == (es.len() - 1) as nat);
        assert(wire_elements(p, id, (es.len() - 1) as nat, rest + s)
            == Ok::<(Seq<NbtTree>, Seq<u8>), crate::wire::Fault>((es.drop_first(), s)));
        assert(wire_elements(p, id, es.len(), whole)
            == Ok::<(Seq<NbtTree>, Seq<u8>), crate::wire::Fault>((seq![es[0]] + es.drop_first(), s)));
        assert(seq![es[0]] + es.drop_first() =~= es);
    }
}

/// Reading the fields that were written for `fs`, and the closing TAG_End,
/// gives `fs` back.
#[verifier::spinoff_prover]
#[verifier::rlimit(100)]
pub proof fn lemma_fields_roundtrip(p: PlatformType, fs: Seq<(Seq<char>, NbtTree)>, s: Seq<u8>)
    requires
        enc_fields(p, fs) is Ok,
        fields_texts_roundtrip(p, fs),
    ensures
        wire_fields(p, enc_fields(p, fs)->Ok_0 + (seq![tag_id::END] + s))
            == Ok::<(Seq<(Seq<char>, NbtTree)>, Seq<u8>), crate::wire::Fault>((fs, s)),
    decreases fs, 0int,
{
    reveal(wire_fields);
    if fs.len() == 0 {
        assert(Seq::<u8>::empty() + (seq![tag_id::END] + s) =~= seq![tag_id::END] + s);
        assert(fs =~= Seq::<(Seq<char>, NbtTree)>::empty());
        assert((seq![tag_id::END] + s).skip(1) =~= s);
    } else {
        let name = fs[0].0;
        let v = fs[0].1;
        let tb = enc_tag(p, name)->Some_0;
        let pb = enc_payload(p, v)->Ok_0;
        let rest = enc_fields(p, fs.drop_first())->Ok_0;
        let tail = rest + (seq![tag_id::END] + s);
        lemma_fields_roundtrip(p, fs.drop_first(), s);
        lemma_payload_roundtrip(p, v, tail);
        lemma_payload_nonempty(p, v);
        lemma_tag_roundtrip(p, name, pb + tail);
        assert(enc_field(p, name, v)->Ok_0 == seq![tree_id(v)] + tb + pb);
        assert(enc_fields(p, fs)->Ok_0 == enc_field(p, name, v)->Ok_0 + rest);
        let whole = enc_fields(p, fs)->Ok_0 + (seq![tag_id::END] + s);
        assert(whole =~= seq![tree_id(v)] + (tb + (pb + tail)));
        assert(whole.skip(1) =~= tb + (pb + tail));
        assert(wire_u8(whole) == Ok::<(u8, Seq<u8>), crate::wire::Fault>((tree_id(v), tb + (pb + tail))));
        assert(tree_id(v) != tag_id::END);
        assert(wire_tag(p, tb + (pb + tail)) == Ok::<(Seq<char>, Seq<u8>), crate::wire::Fault>((name, pb + tail)));
        assert((pb + tail).len() < whole.len());
        assert(wire_payload(p, tree_id(v), pb + tail) == Ok::<(NbtTree, Seq<u8>), crate::wire::Fault>((v, tail)));
        assert(tail.len() < whole.len());
        assert(seq![(name, v)] + fs.drop_first() =~= fs);
    }
}

} // verus!
