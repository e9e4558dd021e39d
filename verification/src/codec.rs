//! Reading and writing whole NBT values and documents.
use vstd::prelude::*;
use crate::byte_order::is_big_endian;
use crate::decoder::Decoder;
use crate::encoder::{message_with_number, Encoder};
use crate::error::ParseError;
use crate::platform::PlatformType;
use crate::tag_id;
use crate::text::{modified_utf8_roundtrips, push_decimal};
use crate::tree::{
    enc_document, is_payload_kind, enc_elements, enc_field, enc_fields, enc_list, enc_payload, lemma_payload_shrinks,
    elements_texts_roundtrip, fields_texts_roundtrip, lemma_then_assoc, lemma_then_empty, mismatch_message, texts_roundtrip,
    then, tree_id, wire_document, wire_elements, wire_fields, wire_payload, written_as,
    fields_of, lemma_compound_view, lemma_list_view, trees_of, NbtTree, NbtValue,
};
use crate::wire::{reports, wire_tag, wire_u8, Fault, Parsed};

verus! {

/// `acc` in front of the elements that `r` read, or `r`'s fault.
pub open spec fn after_elements(acc: Seq<NbtTree>, r: Parsed<Seq<NbtTree>>) -> Parsed<Seq<NbtTree>> {
    match r {
        Ok((vs, rest)) => Ok((acc + vs, rest)),
        Err(f) => Err(f),
    }
}

/// `acc` in front of the fields that `r` read, or `r`'s fault.
pub open spec fn after_fields(
    acc: Seq<(Seq<char>, NbtTree)>,
    r: Parsed<Seq<(Seq<char>, NbtTree)>>,
) -> Parsed<Seq<(Seq<char>, NbtTree)>> {
    match r {
        Ok((fs, rest)) => Ok((acc + fs, rest)),
        Err(f) => Err(f),
    }
}

/// The tag id of a value's kind.
pub fn component_id(value: &NbtValue) -> (id: u8)
    ensures
        id == tree_id(value@),
{
    match value {
        NbtValue::Byte(_) => tag_id::BYTE,
        NbtValue::Short(_) => tag_id::SHORT,
        NbtValue::Int(_) => tag_id::INT,
        NbtValue::Long(_) => tag_id::LONG,
        NbtValue::Float(_) => tag_id::FLOAT,
        NbtValue::Double(_) => tag_id::DOUBLE,
        NbtValue::ByteArray(_) => tag_id::BYTE_ARRAY,
        NbtValue::String(_) => tag_id::STRING,
        NbtValue::List { .. } => tag_id::LIST,
        NbtValue::Compound(_) => tag_id::COMPOUND,
        NbtValue::IntArray(_) => tag_id::INT_ARRAY,
        NbtValue::LongArray(_) => tag_id::LONG_ARRAY,
    }
}

/// Reads the payload of a value of kind `id`, with everything below it.
pub fn parse_value_by_id(id: u8, decoder: &mut Decoder) -> (r: Result<NbtValue, ParseError>)
    ensures
        final(decoder).kind() == old(decoder).kind(),
        match wire_payload(old(decoder).kind(), id, old(decoder).rest()) {
            Ok((v, rest)) => r matches Ok(x) && x@ == v && final(decoder).rest() == rest,
            Err(f) => r matches Err(e) && reports(e, f),
        },
        !is_payload_kind(id) ==> final(decoder).rest() == old(decoder).rest(),
    decreases old(decoder).rest().len(),
{
    proof {
        reveal(wire_payload);
        reveal(wire_elements);
        reveal(wire_fields);
    }
    let ghost p = decoder.kind();
    let ghost s = decoder.rest();
    match id {
        tag_id::BYTE => Ok(NbtValue::Byte(decoder.read_byte()?)),
        tag_id::SHORT => Ok(NbtValue::Short(decoder.read_short()?)),
        tag_id::INT => Ok(NbtValue::Int(decoder.read_int()?)),
        tag_id::LONG => Ok(NbtValue::Long(decoder.read_long()?)),
        tag_id::FLOAT => Ok(NbtValue::Float(decoder.read_float()?)),
        tag_id::DOUBLE => Ok(NbtValue::Double(decoder.read_double()?)),
        tag_id::BYTE_ARRAY => Ok(NbtValue::ByteArray(decoder.read_byte_array()?)),
        tag_id::STRING => Ok(NbtValue::String(decoder.read_string()?)),
        tag_id::LIST => {
            let list_id = decoder.read_id()?;
            let length = decoder.read_int()?;
            if length < 0 {
                return Err(ParseError::InvalidLength(length));
            }
            let ghost r2 = decoder.rest();
            let mut elements: Vec<NbtValue> = Vec::new();
            let mut i: i32 = 0;
            while i < length
                invariant
                    0 <= i <= length,
                    p == old(decoder).kind(),
                    s == old(decoder).rest(),
                    decoder.kind() == p,
                    decoder.rest().len() < s.len(),
                    id == tag_id::LIST,
                    wire_u8(s) == Ok::<(u8, Seq<u8>), Fault>((list_id, s.skip(1))),
                    wire_payload(p, id, s) == match wire_elements(p, list_id, length as nat, r2) {
                        Ok((es, r3)) => Ok((NbtTree::List(list_id, es), r3)),
                        Err(f) => Err(f),
                    },
                    wire_elements(p, list_id, length as nat, r2) == after_elements(
                        trees_of(elements@),
                        wire_elements(p, list_id, (length - i) as nat, decoder.rest()),
                    ),
                decreases length - i,
            {
                let ghost cur = decoder.rest();
                proof {
                    reveal(wire_payload);
                    reveal(wire_elements);
                    reveal(wire_fields);
                }
                let element = parse_value_by_id(list_id, decoder)?;
                proof {
                    lemma_payload_shrinks(p, list_id, cur);
                }
                let ghost before = trees_of(elements@);
                elements.push(element);
                i = i + 1;
                proof {
                    let after = trees_of(elements@);
                    assert(after =~= before + seq![element@]);
                    assert(before + seq![element@] + wire_elements(p, list_id, (length - i) as nat, decoder.rest())->Ok_0.0
                        =~= before + (seq![element@] + wire_elements(p, list_id, (length - i) as nat, decoder.rest())->Ok_0.0));
                }
            }
            proof {
                lemma_list_view(list_id, elements);
            }
            let result = NbtValue::List { id: list_id, elements };
            proof {
                assert(wire_elements(p, list_id, 0, decoder.rest()) == Ok::<(Seq<NbtTree>, Seq<u8>), Fault>((Seq::empty(), decoder.rest())));
                assert(trees_of(elements@) + Seq::<NbtTree>::empty() =~= trees_of(elements@));
            }
            Ok(result)
        },
        tag_id::COMPOUND => {
            let mut fields: Vec<(String, NbtValue)> = Vec::new();
            loop
                invariant
                    p == old(decoder).kind(),
                    s == old(decoder).rest(),
                    decoder.kind() == p,
                    decoder.rest().len() <= s.len(),
                    id == tag_id::COMPOUND,
                    wire_fields(p, s) == after_fields(
                        fields_of(fields@),
                        wire_fields(p, decoder.rest()),
                    ),
                decreases decoder.rest().len(),
            {
                let ghost cur = decoder.rest();
                proof {
                    reveal(wire_payload);
                    reveal(wire_elements);
                    reveal(wire_fields);
                }
                let field_id = decoder.read_id()?;
                if field_id == tag_id::END {
                    proof {
                        lemma_compound_view(fields);
                    }
                    assert(fields_of(fields@) + Seq::<(Seq<char>, NbtTree)>::empty() =~= fields_of(fields@));
                    let result = NbtValue::Compound(fields);
                    return Ok(result);
                }
                let tag = decoder.read_tag()?;
                let value = parse_value_by_id(field_id, decoder)?;
                proof {
                    lemma_payload_shrinks(p, field_id, wire_tag(p, cur.skip(1))->Ok_0.1);
                }
                let ghost before = fields_of(fields@);
                fields.push((tag, value));
                proof {
                    let after = fields_of(fields@);
                    assert(after =~= before + seq![(tag@, value@)]);
                    let tail = wire_fields(p, decoder.rest());
                    if tail is Ok {
                        assert(before + seq![(tag@, value@)] + tail->Ok_0.0
                            =~= before + (seq![(tag@, value@)] + tail->Ok_0.0));
                    }
                }
            }
        },
        tag_id::INT_ARRAY => Ok(NbtValue::IntArray(decoder.read_int_array()?)),
        tag_id::LONG_ARRAY => Ok(NbtValue::LongArray(decoder.read_long_array()?)),
        _ => Err(ParseError::UnsupportedTagId(id)),
    }
}

} // verus!

verus! {

/// Reads past the payload of a value of kind `id` without keeping it.
pub fn skip_value_by_id(decoder: &mut Decoder, id: u8) -> (r: Result<(), ParseError>)
    ensures
        final(decoder).kind() == old(decoder).kind(),
        match wire_payload(old(decoder).kind(), id, old(decoder).rest()) {
            Ok((_, rest)) => r is Ok && final(decoder).rest() == rest,
            Err(f) => r matches Err(e) && reports(e, f),
        },
        !is_payload_kind(id) ==> final(decoder).rest() == old(decoder).rest(),
    decreases old(decoder).rest().len(),
{
    proof {
        reveal(wire_payload);
        reveal(wire_elements);
        reveal(wire_fields);
    }
    let ghost p = decoder.kind();
    let ghost s = decoder.rest();
    match id {
        tag_id::BYTE => { decoder.read_byte()?; Ok(()) },
        tag_id::SHORT => { decoder.read_short()?; Ok(()) },
        tag_id::INT => { decoder.read_int()?; Ok(()) },
        tag_id::LONG => { decoder.read_long()?; Ok(()) },
        tag_id::FLOAT => { decoder.read_float()?; Ok(()) },
        tag_id::DOUBLE => { decoder.read_double()?; Ok(()) },
        tag_id::BYTE_ARRAY => { decoder.read_byte_array()?; Ok(()) },
        tag_id::STRING => { decoder.read_string()?; Ok(()) },
        tag_id::LIST => {
            let element_id = decoder.read_id()?;
            let length = decoder.read_int()?;
            if length < 0 {
                return Err(ParseError::InvalidLength(length));
            }
            let ghost r2 = decoder.rest();
            let ghost mut acc: Seq<NbtTree> = Seq::empty();
            let mut i: i32 = 0;
            while i < length
                invariant
                    0 <= i <= length,
                    p == old(decoder).kind(),
                    s == old(decoder).rest(),
                    decoder.kind() == p,
                    decoder.rest().len() < s.len(),
                    id == tag_id::LIST,
                    wire_u8(s) == Ok::<(u8, Seq<u8>), Fault>((element_id, s.skip(1))),
                    wire_payload(p, id, s) == match wire_elements(p, element_id, length as nat, r2) {
                        Ok((es, r3)) => Ok((NbtTree::List(element_id, es), r3)),
                        Err(f) => Err(f),
                    },
                    wire_elements(p, element_id, length as nat, r2) == after_elements(
                        acc,
                        wire_elements(p, element_id, (length - i) as nat, decoder.rest()),
                    ),
                decreases length - i,
            {
                let ghost cur = decoder.rest();
                proof {
                    reveal(wire_payload);
                    reveal(wire_elements);
                    reveal(wire_fields);
                }
                skip_value_by_id(decoder, element_id)?;
                proof {
                    lemma_payload_shrinks(p, element_id, cur);
                    let v = wire_payload(p, element_id, cur)->Ok_0.0;
                    let tail = wire_elements(p, element_id, (length - i - 1) as nat, decoder.rest());
                    if tail is Ok {
                        assert(acc + seq![v] + tail->Ok_0.0 =~= acc + (seq![v] + tail->Ok_0.0));
                    }
                    acc = acc + seq![v];
                }
                i = i + 1;
            }
            Ok(())
        },
        tag_id::COMPOUND => {
            let ghost mut acc: Seq<(Seq<char>, NbtTree)> = Seq::empty();
            loop
                invariant
                    p == old(decoder).kind(),
                    s == old(decoder).rest(),
                    decoder.kind() == p,
                    decoder.rest().len() <= s.len(),
                    id == tag_id::COMPOUND,
                    wire_fields(p, s) == after_fields(acc, wire_fields(p, decoder.rest())),
                decreases decoder.rest().len(),
            {
                let ghost cur = decoder.rest();
                proof {
                    reveal(wire_payload);
                    reveal(wire_elements);
                    reveal(wire_fields);
                }
                let field_id = decoder.read_id()?;
                if field_id == tag_id::END {
                    return Ok(());
                }
                let _field_tag = decoder.read_tag()?;
                skip_value_by_id(decoder, field_id)?;
                proof {
                    let r2 = wire_tag(p, cur.skip(1))->Ok_0.1;
                    lemma_payload_shrinks(p, field_id, r2);
                    let name = wire_tag(p, cur.skip(1))->Ok_0.0;
                    let v = wire_payload(p, field_id, r2)->Ok_0.0;
                    let tail = wire_fields(p, decoder.rest());
                    if tail is Ok {
                        assert(acc + seq![(name, v)] + tail->Ok_0.0 =~= acc + (seq![(name, v)] + tail->Ok_0.0));
                    }
                    acc = acc + seq![(name, v)];
                }
            }
        },
        tag_id::INT_ARRAY => { decoder.read_int_array()?; Ok(()) },
        tag_id::LONG_ARRAY => { decoder.read_long_array()?; Ok(()) },
        _ => Err(ParseError::UnsupportedTagId(id)),
    }
}

} // verus!

verus! {

/// Writes a value: as a named field (id, name, payload) or, inside a list,
/// as its payload alone.
pub fn write_value(encoder: &mut Encoder, tag: &str, value: &NbtValue, in_list: bool) -> (r: Result<(), ParseError>)
    ensures
        final(encoder).kind() == old(encoder).kind(),
        written_as(
            r,
            old(encoder).written(),
            final(encoder).written(),
            if in_list { enc_payload(old(encoder).kind(), value@) } else { enc_field(old(encoder).kind(), tag@, value@) },
        ),
        r is Ok ==> texts_roundtrip(old(encoder).kind(), value@),
        r is Ok && !in_list ==> modified_utf8_roundtrips(tag@),
    decreases value, 3int,
{
    let ghost p = encoder.kind();
    let ghost start = encoder.written();
    if !in_list {
        encoder.write_id(component_id(value))?;
        encoder.write_tag(tag)?;
    }
    let ghost header = encoder.written();
    write_value_payload(encoder, value)?;
    proof {
        if !in_list {
            let tb = crate::wire::enc_tag(p, tag@)->Some_0;
            let b = enc_payload(p, value@)->Ok_0;
            assert(encoder.written() =~= start + (seq![tree_id(value@)] + tb + b));
        }
    }
    Ok(())
}

/// Writes the payload of a value, with everything below it.
pub fn write_value_payload(encoder: &mut Encoder, value: &NbtValue) -> (r: Result<(), ParseError>)
    ensures
        final(encoder).kind() == old(encoder).kind(),
        written_as(r, old(encoder).written(), final(encoder).written(), enc_payload(old(encoder).kind(), value@)),
        r is Ok ==> texts_roundtrip(old(encoder).kind(), value@),
    decreases value, 2int,
{
    let ghost p = encoder.kind();
    let ghost start = encoder.written();
    match value {
        NbtValue::Byte(v) => {
            encoder.write_byte(*v)?;
            assert(encoder.written() =~= start + seq![*v as u8]);
            Ok(())
        },
        NbtValue::Short(v) => encoder.write_short(*v),
        NbtValue::Int(v) => encoder.write_int(*v),
        NbtValue::Long(v) => encoder.write_long(*v),
        NbtValue::Float(v) => encoder.write_float(*v),
        NbtValue::Double(v) => encoder.write_double(*v),
        NbtValue::ByteArray(v) => encoder.write_byte_array(v.as_slice()),
        NbtValue::String(v) => encoder.write_string(v.as_str()),
        NbtValue::IntArray(v) => encoder.write_int_array(v.as_slice()),
        NbtValue::LongArray(v) => encoder.write_long_array(v.as_slice()),
        NbtValue::List { id, elements } => {
            proof { lemma_list_view(*id, *elements); }
            write_list_payload(encoder, *id, elements)
        },
        NbtValue::Compound(fields) => {
            proof { lemma_compound_view(*fields); }
            write_fields(encoder, fields)?;
            encoder.write_id(tag_id::END)?;
            proof {
                let b = enc_fields(p, fields_of(fields@))->Ok_0;
                assert(encoder.written() =~= start + b.push(tag_id::END));
            }
            Ok(())
        },
    }
}

/// Writes named fields one after another (without the closing TAG_End).
pub fn write_fields(encoder: &mut Encoder, fields: &Vec<(String, NbtValue)>) -> (r: Result<(), ParseError>)
    ensures
        final(encoder).kind() == old(encoder).kind(),
        written_as(r, old(encoder).written(), final(encoder).written(), enc_fields(old(encoder).kind(), fields_of(fields@))),
        r is Ok ==> fields_texts_roundtrip(old(encoder).kind(), fields_of(fields@)),
    decreases fields, 0int,
{
    let ghost p = encoder.kind();
    let ghost start = encoder.written();
    let ghost all = fields_of(fields@);
    let ghost mut w: Seq<u8> = Seq::empty();
    let mut i: usize = 0;
    proof {
        assert(all.skip(0) =~= all);
        lemma_then_empty(enc_fields(p, all));
    }
    while i < fields.len()
        invariant
            i <= fields@.len(),
            all == fields_of(fields@),
            p == old(encoder).kind(),
            start == old(encoder).written(),
            encoder.kind() == p,
            encoder.written() == start + w,
            enc_fields(p, all) == then(w, enc_fields(p, all.skip(i as int))),
            fields_texts_roundtrip(p, all.skip(i as int)) ==> fields_texts_roundtrip(p, all),
        decreases fields@.len() - i,
    {
        let ghost rest = all.skip(i as int);
        proof {
            assert(rest[0] == (fields@[i as int].0@, fields@[i as int].1@));
            assert(rest.drop_first() =~= all.skip(i + 1));
        }
        let res = write_value(encoder, fields[i].0.as_str(), &fields[i].1, false);
        if res.is_err() {
            assert(enc_fields(p, rest) is Err);
            return res;
        }
        proof {
            let b = enc_field(p, fields@[i as int].0@, fields@[i as int].1@)->Ok_0;
            lemma_then_assoc(w, b, enc_fields(p, all.skip(i + 1)));
            assert(encoder.written() =~= start + (w + b));
            w = w + b;
        }
        i = i + 1;
    }
    proof {
        assert(all.skip(i as int) =~= Seq::<(Seq<char>, NbtTree)>::empty());
        assert(w + Seq::<u8>::empty() =~= w);
    }
    Ok(())
}

/// Writes a list payload: element id, count, then each element, which must be
/// of kind `id`.
pub fn write_list_payload(encoder: &mut Encoder, id: u8, elements: &Vec<NbtValue>) -> (r: Result<(), ParseError>)
    ensures
        final(encoder).kind() == old(encoder).kind(),
        written_as(r, old(encoder).written(), final(encoder).written(), enc_list(old(encoder).kind(), id, trees_of(elements@))),
        r is Ok ==> elements_texts_roundtrip(old(encoder).kind(), trees_of(elements@)),
    decreases elements, 0int,
{
    let ghost p = encoder.kind();
    let ghost all = trees_of(elements@);
    if elements.len() > 0x7fff_ffff {
        return Err(message_with_number("list length exceeds i32: ", elements.len()));
    }
    assert(enc_list(p, id, all) == then(seq![id] + crate::byte_order::u32_bytes(p, elements@.len() as u32), enc_elements(p, id, all)));
    encoder.write_id(id)?;
    encoder.write_int(elements.len() as i32)?;
    let ghost header = encoder.written();
    let ghost mut w: Seq<u8> = Seq::empty();
    let mut i: usize = 0;
    proof {
        assert(all.skip(0) =~= all);
        lemma_then_empty(enc_elements(p, id, all));
    }
    while i < elements.len()
        invariant
            i <= elements@.len(),
            all == trees_of(elements@),
            p == old(encoder).kind(),
            enc_list(p, id, all) == then(seq![id] + crate::byte_order::u32_bytes(p, elements@.len() as u32), enc_elements(p, id, all)),
            encoder.kind() == p,
            encoder.written() == header + w,
            enc_elements(p, id, all) == then(w, enc_elements(p, id, all.skip(i as int))),
            elements_texts_roundtrip(p, all.skip(i as int)) ==> elements_texts_roundtrip(p, all),
        decreases elements@.len() - i,
    {
        let element_id = component_id(&elements[i]);
        let ghost rest = all.skip(i as int);
        assert(rest[0] == elements@[i as int]@);
        assert(rest.drop_first() =~= all.skip(i + 1));
        if element_id != id {
            assert(enc_elements(p, id, rest) == Err::<Seq<u8>, Seq<char>>(mismatch_message(id, element_id)));
            assert(enc_elements(p, id, all) == Err::<Seq<u8>, Seq<char>>(mismatch_message(id, element_id)));
            return Err(mismatch_error(id, element_id));
        }
        let res = write_value_payload(encoder, &elements[i]);
        if res.is_err() {
            assert(enc_elements(p, id, rest) is Err);
            assert(enc_elements(p, id, all) is Err);
            return res;
        }
        proof {
            let b = enc_payload(p, elements@[i as int]@)->Ok_0;
            lemma_then_assoc(w, b, enc_elements(p, id, all.skip(i + 1)));
            assert(encoder.written() =~= header + (w + b));
            w = w + b;
        }
        i = i + 1;
    }
    proof {
        assert(all.skip(i as int) =~= Seq::<NbtTree>::empty());
        assert(w + Seq::<u8>::empty() =~= w);
        assert(encoder.written() =~= old(encoder).written() + (seq![id] + crate::byte_order::u32_bytes(p, elements@.len() as u32) + w));
    }
    Ok(())
}

/// The error for a list element of kind `got` in a list of kind `expected`.
pub fn mismatch_error(expected: u8, got: u8) -> (e: ParseError)
    ensures
        e matches ParseError::Other(m) && m@ == mismatch_message(expected, got),
{
    let mut text = String::from_str("list element type mismatch, expected id ");
    push_decimal(&mut text, expected as u64);
    text.append(", got ");
    push_decimal(&mut text, got as u64);
    ParseError::Other(text)
}

} // verus!

verus! {

/// Reads a whole document from `bytes`: the root's id and name, then its
/// payload, which must be a list or a compound. Bytes after the root are left
/// unread.
pub fn parse_document(bytes: Vec<u8>, platform: PlatformType) -> (r: Result<NbtValue, ParseError>)
    ensures
        match wire_document(platform, bytes@) {
            Ok((v, _)) => r matches Ok(x) && x@ == v,
            Err(f) => r matches Err(e) && reports(e, f),
        },
{
    let mut decoder = crate::decoder::build(bytes, platform);
    let root_id = decoder.read_id()?;
    let _root_tag = decoder.read_tag()?;
    if root_id == tag_id::LIST || root_id == tag_id::COMPOUND {
        parse_value_by_id(root_id, &mut decoder)
    } else {
        Err(ParseError::InvalidRootTag(root_id))
    }
}

/// Writes a whole document for `platform`: the root's id, an empty name, then
/// its payload. What is written reads back as the same value.
pub fn write_document(value: &NbtValue, platform: PlatformType) -> (r: Result<Vec<u8>, ParseError>)
    ensures
        match enc_document(platform, value@) {
            Ok(b) => r matches Ok(out) && out@ == b,
            Err(m) => r matches Err(ParseError::Other(x)) && x@ == m,
        },
        r matches Ok(out) ==> wire_document(platform, out@)
            == Ok::<(NbtTree, Seq<u8>), Fault>((value@, Seq::<u8>::empty())),
{
    let mut encoder = crate::encoder::build(Vec::new(), platform);
    let id = component_id(value);
    if id != tag_id::LIST && id != tag_id::COMPOUND {
        return Err(ParseError::Other(String::from_str("root tag must be compound or list")));
    }
    encoder.write_id(id)?;
    proof {
        reveal_strlit("");
        assert(""@ =~= Seq::<char>::empty());
    }
    encoder.write_tag("")?;
    let ghost header = encoder.written();
    write_value_payload(&mut encoder, value)?;
    encoder.flush()?;
    proof {
        let tb = crate::wire::enc_tag(platform, Seq::empty())->Some_0;
        let pb = enc_payload(platform, value@)->Ok_0;
        assert(encoder.written() =~= seq![id] + tb + pb);
        crate::roundtrip::lemma_tag_roundtrip(platform, Seq::empty(), pb);
        crate::roundtrip::lemma_payload_roundtrip(platform, value@, Seq::empty());
        assert(pb + Seq::<u8>::empty() =~= pb);
        assert(encoder.written() =~= seq![id] + (tb + pb));
        assert(encoder.written().skip(1) =~= tb + pb);
    }
    Ok(encoder.into_bytes())
}

} // verus!

