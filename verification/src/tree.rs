//! NBT documents as trees: the model, and its encoding as stated functions.
use vstd::prelude::*;
use crate::byte_order::{u16_bytes, u32_bytes, u64_bytes};
use crate::platform::PlatformType;
use crate::tag_id;
use crate::text::{decimal, modified_utf8_bytes, modified_utf8_text};
use crate::wire::{
    enc_byte_array, enc_int_array, enc_long_array, enc_string, enc_tag, string_bytes, wire_byte_array,
    wire_i16, wire_i32, wire_i64, wire_int_array, wire_long_array, wire_string, wire_tag, wire_u32,
    wire_u64, wire_u8, Fault, Parsed,
};

verus! {

/// An NBT value with everything below it.
///
/// Floating-point payloads are held as their IEEE-754 bit patterns.
#[derive(Debug)]
pub enum NbtValue {
    Byte(i8),
    Short(i16),
    Int(i32),
    Long(i64),
    Float(u32),
    Double(u64),
    ByteArray(Vec<u8>),
    String(String),
    List { id: u8, elements: Vec<NbtValue> },
    Compound(Vec<(String, NbtValue)>),
    IntArray(Vec<i32>),
    LongArray(Vec<i64>),
}

/// The mathematical form of an [`NbtValue`].
pub enum NbtTree {
    Byte(i8),
    Short(i16),
    Int(i32),
    Long(i64),
    Float(u32),
    Double(u64),
    ByteArray(Seq<u8>),
    String(Seq<char>),
    List(u8, Seq<NbtTree>),
    Compound(Seq<(Seq<char>, NbtTree)>),
    IntArray(Seq<i32>),
    LongArray(Seq<i64>),
}

/// The tree that a value stands for.
pub open spec fn tree_of(v: NbtValue) -> NbtTree
    decreases v,
{
    match v {
        NbtValue::Byte(x) => NbtTree::Byte(x),
        NbtValue::Short(x) => NbtTree::Short(x),
        NbtValue::Int(x) => NbtTree::Int(x),
        NbtValue::Long(x) => NbtTree::Long(x),
        NbtValue::Float(x) => NbtTree::Float(x),
        NbtValue::Double(x) => NbtTree::Double(x),
        NbtValue::ByteArray(x) => NbtTree::ByteArray(x@),
        NbtValue::String(x) => NbtTree::String(x@),
        NbtValue::List { id, elements } => NbtTree::List(
            id,
            Seq::new(
                elements@.len(),
                |i: int|
                    if 0 <= i < elements@.len() {
                        tree_of(elements@[i])
                    } else {
                        NbtTree::Byte(0)
                    },
            ),
        ),
        NbtValue::Compound(fields) => NbtTree::Compound(
            Seq::new(
                fields@.len(),
                |i: int|
                    if 0 <= i < fields@.len() {
                        (fields@[i].0@, tree_of(fields@[i].1))
                    } else {
                        (Seq::empty(), NbtTree::Byte(0))
                    },
            ),
        ),
        NbtValue::IntArray(x) => NbtTree::IntArray(x@),
        NbtValue::LongArray(x) => NbtTree::LongArray(x@),
    }
}

impl View for NbtValue {
    type V = NbtTree;

    open spec fn view(&self) -> NbtTree {
        tree_of(*self)
    }
}

/// The trees of a sequence of values.
pub open spec fn trees_of(vs: Seq<NbtValue>) -> Seq<NbtTree> {
    Seq::new(vs.len(), |i: int| vs[i]@)
}

/// The named trees of a sequence of named values.
pub open spec fn fields_of(fs: Seq<(String, NbtValue)>) -> Seq<(Seq<char>, NbtTree)> {
    Seq::new(fs.len(), |i: int| (fs[i].0@, fs[i].1@))
}

/// The view of a list value in terms of its elements.
pub proof fn lemma_list_view(id: u8, elements: Vec<NbtValue>)
    ensures
        (NbtValue::List { id, elements })@ == NbtTree::List(id, trees_of(elements@)),
{
    let v = NbtValue::List { id, elements };
    assert(v@->1.len() == elements@.len());
    assert forall|i: int| 0 <= i < elements@.len() implies v@->1[i] == trees_of(elements@)[i] by {
        assert(v@->1[i] == elements@[i]@);
    }
    assert(v@->1 =~= trees_of(elements@));
}

/// The view of a compound value in terms of its fields.
pub proof fn lemma_compound_view(fields: Vec<(String, NbtValue)>)
    ensures
        (NbtValue::Compound(fields))@ == NbtTree::Compound(fields_of(fields@)),
{
    let v = NbtValue::Compound(fields);
    assert(v@->Compound_0 =~= fields_of(fields@));
}

/// The tag id of a value's kind.
pub open spec fn tree_id(v: NbtTree) -> u8 {
    match v {
        NbtTree::Byte(_) => tag_id::BYTE,
        NbtTree::Short(_) => tag_id::SHORT,
        NbtTree::Int(_) => tag_id::INT,
        NbtTree::Long(_) => tag_id::LONG,
        NbtTree::Float(_) => tag_id::FLOAT,
        NbtTree::Double(_) => tag_id::DOUBLE,
        NbtTree::ByteArray(_) => tag_id::BYTE_ARRAY,
        NbtTree::String(_) => tag_id::STRING,
        NbtTree::List(..) => tag_id::LIST,
        NbtTree::Compound(_) => tag_id::COMPOUND,
        NbtTree::IntArray(_) => tag_id::INT_ARRAY,
        NbtTree::LongArray(_) => tag_id::LONG_ARRAY,
    }
}

/// Whether `id` is the kind of a value with a payload: TAG_Byte up to
/// TAG_Long_Array.
pub open spec fn is_payload_kind(id: u8) -> bool {
    tag_id::BYTE <= id <= tag_id::LONG_ARRAY
}

// ----- reading -----

/// Reads the payload of a value of kind `id`.
#[verifier::opaque]
pub open spec fn wire_payload(p: PlatformType, id: u8, s: Seq<u8>) -> Parsed<NbtTree>
    decreases s.len(), 1int, 0int,
{
    if id == tag_id::BYTE {
        match wire_u8(s) { Ok((v, r)) => Ok((NbtTree::Byte(v as i8), r)), Err(f) => Err(f) }
    } else if id == tag_id::SHORT {
        match wire_i16(p, s) { Ok((v, r)) => Ok((NbtTree::Short(v), r)), Err(f) => Err(f) }
    } else if id == tag_id::INT {
        match wire_i32(p, s) { Ok((v, r)) => Ok((NbtTree::Int(v), r)), Err(f) => Err(f) }
    } else if id == tag_id::LONG {
        match wire_i64(p, s) { Ok((v, r)) => Ok((NbtTree::Long(v), r)), Err(f) => Err(f) }
    } else if id == tag_id::FLOAT {
        match wire_u32(p, s) { Ok((v, r)) => Ok((NbtTree::Float(v), r)), Err(f) => Err(f) }
    } else if id == tag_id::DOUBLE {
        match wire_u64(p, s) { Ok((v, r)) => Ok((NbtTree::Double(v), r)), Err(f) => Err(f) }
    } else if id == tag_id::BYTE_ARRAY {
        match wire_byte_array(p, s) { Ok((v, r)) => Ok((NbtTree::ByteArray(v), r)), Err(f) => Err(f) }
    } else if id == tag_id::STRING {
        match wire_string(p, s) { Ok((v, r)) => Ok((NbtTree::String(v), r)), Err(f) => Err(f) }
    } else if id == tag_id::LIST {
        match wire_u8(s) {
            Err(f) => Err(f),
            Ok((eid, r1)) => match wire_i32(p, r1) {
                Err(f) => Err(f),
                Ok((n, r2)) => if n < 0 {
                    Err(Fault::BadLength(n))
                } else {
                    match wire_elements(p, eid, n as nat, r2) {
                        Ok((es, r3)) => Ok((NbtTree::List(eid, es), r3)),
                        Err(f) => Err(f),
                    }
                },
            },
        }
    } else if id == tag_id::COMPOUND {
        match wire_fields(p, s) { Ok((fs, r)) => Ok((NbtTree::Compound(fs), r)), Err(f) => Err(f) }
    } else if id == tag_id::INT_ARRAY {
        match wire_int_array(p, s) { Ok((v, r)) => Ok((NbtTree::IntArray(v), r)), Err(f) => Err(f) }
    } else if id == tag_id::LONG_ARRAY {
        match wire_long_array(p, s) { Ok((v, r)) => Ok((NbtTree::LongArray(v), r)), Err(f) => Err(f) }
    } else {
        Err(Fault::UnsupportedTag(id))
    }
}

/// Reads `n` list elements of kind `id`.
#[verifier::opaque]
pub open spec fn wire_elements(p: PlatformType, id: u8, n: nat, s: Seq<u8>) -> Parsed<Seq<NbtTree>>
    decreases s.len(), 2int, n,
{
    if n == 0 {
        Ok((Seq::empty(), s))
    } else {
        match wire_payload(p, id, s) {
            Err(f) => Err(f),
            Ok((v, r)) => if r.len() < s.len() {
                match wire_elements(p, id, (n - 1) as nat, r) {
                    Ok((vs, r2)) => Ok((seq![v] + vs, r2)),
                    Err(f) => Err(f),
                }
            } else {
                Err(Fault::Eof)
            },
        }
    }
}

/// Reads compound fields up to and including the closing TAG_End.
#[verifier::opaque]
pub open spec fn wire_fields(p: PlatformType, s: Seq<u8>) -> Parsed<Seq<(Seq<char>, NbtTree)>>
    decreases s.len(), 0int, 0int,
{
    match wire_u8(s) {
        Err(f) => Err(f),
        Ok((fid, r1)) => if fid == tag_id::END {
            Ok((Seq::empty(), r1))
        } else {
            match wire_tag(p, r1) {
                Err(f) => Err(f),
                Ok((name, r2)) => if r2.len() < s.len() {
                    match wire_payload(p, fid, r2) {
                        Err(f) => Err(f),
                        Ok((v, r3)) => if r3.len() < s.len() {
                            match wire_fields(p, r3) {
                                Ok((fs, r4)) => Ok((seq![(name, v)] + fs, r4)),
                                Err(f) => Err(f),
                            }
                        } else {
                            Err(Fault::Eof)
                        },
                    }
                } else {
                    Err(Fault::Eof)
                },
            }
        },
    }
}

/// Reads a whole document: root id, root name, then a list or compound payload.
pub open spec fn wire_document(p: PlatformType, s: Seq<u8>) -> Parsed<NbtTree> {
    match wire_u8(s) {
        Err(f) => Err(f),
        Ok((id, r1)) => match wire_tag(p, r1) {
            Err(f) => Err(f),
            Ok((_name, r2)) => if id == tag_id::LIST || id == tag_id::COMPOUND {
                wire_payload(p, id, r2)
            } else {
                Err(Fault::BadRoot(id))
            },
        },
    }
}

// ----- writing -----

/// The message of the error for a list of `n` elements.
pub open spec fn list_too_long_message(n: nat) -> Seq<char> {
    "list length exceeds i32: "@ + decimal(n)
}

/// The message of the error for a list element of the wrong kind.
pub open spec fn mismatch_message(expected: u8, got: u8) -> Seq<char> {
    "list element type mismatch, expected id "@ + decimal(expected as nat) + ", got "@ + decimal(got as nat)
}

/// The message of the error for an over-long tag name.
pub open spec fn tag_message(t: Seq<char>) -> Seq<char> {
    "tag length exceeds u16: "@ + decimal(modified_utf8_bytes(t).len())
}

/// Bytes when defined, or the message of the error that stops the writing.
pub type Written = Result<Seq<u8>, Seq<char>>;

/// `b` followed by what `r` wrote, or `r`'s error.
pub open spec fn then(b: Seq<u8>, r: Written) -> Written {
    match r {
        Ok(x) => Ok(b + x),
        Err(m) => Err(m),
    }
}

/// Writes the payload of `v`.
pub open spec fn enc_payload(p: PlatformType, v: NbtTree) -> Written
    decreases v, 2int,
{
    match v {
        NbtTree::Byte(b) => Ok(seq![b as u8]),
        NbtTree::Short(x) => Ok(u16_bytes(p, x as u16)),
        NbtTree::Int(x) => Ok(u32_bytes(p, x as u32)),
        NbtTree::Long(x) => Ok(u64_bytes(p, x as u64)),
        NbtTree::Float(x) => Ok(u32_bytes(p, x)),
        NbtTree::Double(x) => Ok(u64_bytes(p, x)),
        NbtTree::ByteArray(b) => match enc_byte_array(p, b) {
            Some(x) => Ok(x),
            None => Err("byte array length exceeds i32: "@ + decimal(b.len())),
        },
        NbtTree::String(t) => match enc_string(p, t) {
            Some(x) => Ok(x),
            None => Err("string length exceeds i16: "@ + decimal(string_bytes(p, t).len())),
        },
        NbtTree::List(id, es) => enc_list(p, id, es),
        NbtTree::Compound(fs) => match enc_fields(p, fs) {
            Ok(b) => Ok(b.push(tag_id::END)),
            Err(m) => Err(m),
        },
        NbtTree::IntArray(vs) => match enc_int_array(p, vs) {
            Some(x) => Ok(x),
            None => Err("int array length exceeds i32: "@ + decimal(vs.len())),
        },
        NbtTree::LongArray(vs) => match enc_long_array(p, vs) {
            Some(x) => Ok(x),
            None => Err("long array length exceeds i32: "@ + decimal(vs.len())),
        },
    }
}

/// Writes a list payload: element id, count, then the elements, which must all
/// be of kind `id`.
pub open spec fn enc_list(p: PlatformType, id: u8, es: Seq<NbtTree>) -> Written
    decreases es, 1int,
{
    if es.len() > 0x7fff_ffff {
        Err(list_too_long_message(es.len()))
    } else {
        then(seq![id] + u32_bytes(p, es.len() as u32), enc_elements(p, id, es))
    }
}

/// Writes list elements one after another, checking each one's kind.
pub open spec fn enc_elements(p: PlatformType, id: u8, es: Seq<NbtTree>) -> Written
    decreases es, 0int,
{
    if es.len() == 0 {
        Ok(Seq::empty())
    } else if tree_id(es[0]) != id {
        Err(mismatch_message(id, tree_id(es[0])))
    } else {
        match enc_payload(p, es[0]) {
            Err(m) => Err(m),
            Ok(b) => then(b, enc_elements(p, id, es.drop_first())),
        }
    }
}

/// Writes one named field: id, name, payload.
pub open spec fn enc_field(p: PlatformType, name: Seq<char>, v: NbtTree) -> Written
    decreases v, 3int,
{
    match enc_tag(p, name) {
        None => Err(tag_message(name)),
        Some(tb) => then(seq![tree_id(v)] + tb, enc_payload(p, v)),
    }
}

/// Writes compound fields one after another (without the closing TAG_End).
pub open spec fn enc_fields(p: PlatformType, fs: Seq<(Seq<char>, NbtTree)>) -> Written
    decreases fs, 0int,
{
    if fs.len() == 0 {
        Ok(Seq::empty())
    } else {
        match enc_field(p, fs[0].0, fs[0].1) {
            Err(m) => Err(m),
            Ok(b) => then(b, enc_fields(p, fs.drop_first())),
        }
    }
}

/// Writes a whole document: the root's id, an empty name, then its payload.
/// Only a list or a compound can be the root.
pub open spec fn enc_document(p: PlatformType, v: NbtTree) -> Written {
    if v is List || v is Compound {
        match enc_tag(p, Seq::empty()) {
            Some(tb) => then(seq![tree_id(v)] + tb, enc_payload(p, v)),
            None => Err(tag_message(Seq::empty())),
        }
    } else {
        Err("root tag must be compound or list"@)
    }
}

} // verus!

verus! {

/// A successful payload read consumes at least one byte.
pub proof fn lemma_payload_shrinks(p: PlatformType, id: u8, s: Seq<u8>)
    ensures
        wire_payload(p, id, s) matches Ok((_, r)) ==> r.len() < s.len(),
    decreases s.len(), 1int, 0int,
{
    reveal(wire_payload);
    reveal(wire_elements);
    reveal(wire_fields);
    if id == tag_id::LIST {
        if let Ok((eid, r1)) = wire_u8(s) {
            if let Ok((n, r2)) = wire_i32(p, r1) {
                if n >= 0 {
                    lemma_elements_shrinks(p, eid, n as nat, r2);
                }
            }
        }
    } else if id == tag_id::COMPOUND {
        lemma_fields_shrinks(p, s);
    }
}

/// Reading list elements never grows the input.
pub proof fn lemma_elements_shrinks(p: PlatformType, id: u8, n: nat, s: Seq<u8>)
    ensures
        wire_elements(p, id, n, s) matches Ok((_, r)) ==> r.len() <= s.len(),
    decreases s.len(), 2int, n,
{
    reveal(wire_payload);
    reveal(wire_elements);
    reveal(wire_fields);
    if n > 0 {
        lemma_payload_shrinks(p, id, s);
        if let Ok((v, r)) = wire_payload(p, id, s) {
            if r.len() < s.len() {
                lemma_elements_shrinks(p, id, (n - 1) as nat, r);
            }
        }
    }
}

/// Reading compound fields consumes at least the closing byte.
pub proof fn lemma_fields_shrinks(p: PlatformType, s: Seq<u8>)
    ensures
        wire_fields(p, s) matches Ok((_, r)) ==> r.len() < s.len(),
    decreases s.len(), 0int, 0int,
{
    reveal(wire_payload);
    reveal(wire_elements);
    reveal(wire_fields);
    if let Ok((fid, r1)) = wire_u8(s) {
        if fid != tag_id::END {
            if let Ok((name, r2)) = wire_tag(p, r1) {
                if r2.len() < s.len() {
                    lemma_payload_shrinks(p, fid, r2);
                    if let Ok((v, r3)) = wire_payload(p, fid, r2) {
                        if r3.len() < s.len() {
                            lemma_fields_shrinks(p, r3);
                        }
                    }
                }
            }
        }
    }
}

} // verus!

verus! {

/// Whether every text in `v` that is written as modified UTF-8 reads back as
/// itself: all field names, and the strings on Java.
pub open spec fn texts_roundtrip(p: PlatformType, v: NbtTree) -> bool
    decreases v, 1int,
{
    match v {
        NbtTree::String(t) => crate::byte_order::is_big_endian(p) ==> crate::text::modified_utf8_roundtrips(t),
        NbtTree::List(_, es) => elements_texts_roundtrip(p, es),
        NbtTree::Compound(fs) => fields_texts_roundtrip(p, fs),
        _ => true,
    }
}

/// [`texts_roundtrip`] for every element.
pub open spec fn elements_texts_roundtrip(p: PlatformType, es: Seq<NbtTree>) -> bool
    decreases es, 0int,
{
    es.len() == 0 || (texts_roundtrip(p, es[0]) && elements_texts_roundtrip(p, es.drop_first()))
}

/// [`texts_roundtrip`] for every field, and every field name reads back as itself.
pub open spec fn fields_texts_roundtrip(p: PlatformType, fs: Seq<(Seq<char>, NbtTree)>) -> bool
    decreases fs, 0int,
{
    fs.len() == 0 || (crate::text::modified_utf8_roundtrips(fs[0].0) && texts_roundtrip(p, fs[0].1)
        && fields_texts_roundtrip(p, fs.drop_first()))
}

/// Writing `b` then `c` then what `r` writes is writing `b + c` then what `r` writes.
pub proof fn lemma_then_assoc(b: Seq<u8>, c: Seq<u8>, r: Written)
    ensures
        then(b, then(c, r)) == then(b + c, r),
{
    if let Ok(x) = r {
        assert(b + (c + x) =~= b + c + x);
    }
}

/// Writing nothing first changes nothing.
pub proof fn lemma_then_empty(r: Written)
    ensures
        then(Seq::empty(), r) == r,
{
    if let Ok(x) = r {
        assert(Seq::<u8>::empty() + x =~= x);
    }
}

/// Whether the call's result and output match what `w` states: on success the
/// bytes were appended, on failure the error carries `w`'s message.
pub open spec fn written_as(
    r: Result<(), crate::error::ParseError>,
    before: Seq<u8>,
    after: Seq<u8>,
    w: Written,
) -> bool {
    match w {
        Ok(b) => r is Ok && after == before + b,
        Err(m) => r matches Err(crate::error::ParseError::Other(x)) && x@ == m,
    }
}

} // verus!

verus! {

/// A copy of a value, with everything below it.
pub fn copy_value(v: &NbtValue) -> (c: NbtValue)
    ensures
        c@ == v@,
    decreases v, 2int,
{
    match v {
        NbtValue::Byte(x) => NbtValue::Byte(*x),
        NbtValue::Short(x) => NbtValue::Short(*x),
        NbtValue::Int(x) => NbtValue::Int(*x),
        NbtValue::Long(x) => NbtValue::Long(*x),
        NbtValue::Float(x) => NbtValue::Float(*x),
        NbtValue::Double(x) => NbtValue::Double(*x),
        NbtValue::ByteArray(x) => NbtValue::ByteArray(vstd::slice::slice_to_vec(x.as_slice())),
        NbtValue::String(x) => NbtValue::String(x.clone()),
        NbtValue::List { id, elements } => {
            let es = copy_elements(elements);
            proof {
                lemma_list_view(*id, *elements);
                lemma_list_view(*id, es);
            }
            NbtValue::List { id: *id, elements: es }
        },
        NbtValue::Compound(fields) => {
            let fs = copy_fields(fields);
            proof {
                lemma_compound_view(*fields);
                lemma_compound_view(fs);
            }
            NbtValue::Compound(fs)
        },
        NbtValue::IntArray(x) => NbtValue::IntArray(vstd::slice::slice_to_vec(x.as_slice())),
        NbtValue::LongArray(x) => NbtValue::LongArray(vstd::slice::slice_to_vec(x.as_slice())),
    }
}

/// Copies of list elements.
pub fn copy_elements(elements: &Vec<NbtValue>) -> (c: Vec<NbtValue>)
    ensures
        trees_of(c@) == trees_of(elements@),
    decreases elements, 1int,
{
    let mut c: Vec<NbtValue> = Vec::new();
    let mut i: usize = 0;
    while i < elements.len()
        invariant
            i <= elements@.len(),
            c@.len() == i,
            forall|k: int| 0 <= k < i ==> #[trigger] c@[k]@ == elements@[k]@,
        decreases elements@.len() - i,
    {
        c.push(copy_value(&elements[i]));
        i = i + 1;
    }
    assert(trees_of(c@) =~= trees_of(elements@));
    c
}

/// Copies of named fields.
pub fn copy_fields(fields: &Vec<(String, NbtValue)>) -> (c: Vec<(String, NbtValue)>)
    ensures
        fields_of(c@) == fields_of(fields@),
    decreases fields, 1int,
{
    let mut c: Vec<(String, NbtValue)> = Vec::new();
    let mut i: usize = 0;
    while i < fields.len()
        invariant
            i <= fields@.len(),
            c@.len() == i,
            forall|k: int| 0 <= k < i ==> #[trigger] c@[k].0@ == fields@[k].0@ && c@[k].1@ == fields@[k].1@,
        decreases fields@.len() - i,
    {
        c.push((fields[i].0.clone(), copy_value(&fields[i].1)));
        i = i + 1;
    }
    assert(fields_of(c@) =~= fields_of(fields@));
    c
}

} // verus!
