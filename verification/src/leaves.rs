//! What a reader yields for a whole document, and that reading a written
//! document yields every value of its tree that holds no others, in order,
//! each with the text of its path.
use vstd::prelude::*;
use crate::component::CompView;
use crate::platform::PlatformType;
use crate::reader::{
    advance, append_part, drop_finished, frame_has_next, frame_next, frame_tag, frame_weight, index_tag,
    join_tags, lemma_component_consumes, lemma_drop_finished, lemma_weight_last, lemma_weight_nonneg,
    push_nested, start_frames, weight, wire_component, FrameView,
};
use crate::tag_id;
use crate::text::{modified_utf8_bytes, modified_utf8_roundtrips};
use crate::tree::{
    elements_texts_roundtrip, enc_document, enc_elements, enc_field, enc_fields, enc_list, enc_payload,
    fields_texts_roundtrip, texts_roundtrip, then, tree_id, wire_payload, NbtTree,
};
use crate::wire::{enc_tag, wire_tag, wire_u8, Fault};

verus! {

/// The component a reader yields for a value that holds no others.
pub open spec fn leaf_component(v: NbtTree) -> CompView {
    match v {
        NbtTree::Byte(x) => CompView::Byte(x),
        NbtTree::Short(x) => CompView::Short(x),
        NbtTree::Int(x) => CompView::Int(x),
        NbtTree::Long(x) => CompView::Long(x),
        NbtTree::Float(x) => CompView::Float(x),
        NbtTree::Double(x) => CompView::Double(x),
        NbtTree::ByteArray(x) => CompView::ByteArray(x),
        NbtTree::String(x) => CompView::String(x),
        NbtTree::IntArray(x) => CompView::IntArray(x),
        NbtTree::LongArray(x) => CompView::LongArray(x),
        NbtTree::List(..) => CompView::Compound,
        NbtTree::Compound(_) => CompView::Compound,
    }
}

/// The values in `v` that hold no others, in order, each with the text of its
/// path; `path` is the path of `v` itself.
pub open spec fn tree_leaves(v: NbtTree, path: Seq<char>) -> Seq<(Seq<char>, CompView)>
    decreases v, 2int,
{
    match v {
        NbtTree::List(_, es) => element_leaves(es, path, 0),
        NbtTree::Compound(fs) => field_leaves(fs, path),
        _ => seq![(path, leaf_component(v))],
    }
}

/// [`tree_leaves`] of list elements, the first of which is number `k`.
pub open spec fn element_leaves(es: Seq<NbtTree>, path: Seq<char>, k: int) -> Seq<(Seq<char>, CompView)>
    decreases es, 1int,
{
    if es.len() == 0 {
        Seq::empty()
    } else {
        tree_leaves(es[0], append_part(path, index_tag(k))) + element_leaves(es.drop_first(), path, k + 1)
    }
}

/// [`tree_leaves`] of compound fields.
pub open spec fn field_leaves(fs: Seq<(Seq<char>, NbtTree)>, path: Seq<char>) -> Seq<(Seq<char>, CompView)>
    decreases fs, 1int,
{
    if fs.len() == 0 {
        Seq::empty()
    } else {
        tree_leaves(fs[0].1, append_part(path, fs[0].0)) + field_leaves(fs.drop_first(), path)
    }
}

/// `a` followed by the values of `r`, or `r`'s fault.
pub open spec fn prepend_values(a: Seq<(Seq<char>, CompView)>, r: Result<Seq<(Seq<char>, CompView)>, Fault>) -> Result<
    Seq<(Seq<char>, CompView)>,
    Fault,
> {
    match r {
        Ok(x) => Ok(a + x),
        Err(f) => Err(f),
    }
}

/// A step of reading never grows the input, and one that yields a value
/// consumes some.
pub proof fn lemma_advance_consumes(p: PlatformType, frames: Seq<FrameView>, s: Seq<u8>)
    ensures
        advance(p, frames, s) matches Ok((_, r, ev)) ==> r.len() <= s.len() && (ev is Some ==> r.len() < s.len()),
    decreases s.len(), weight(frames),
{
    let fr = drop_finished(frames);
    if fr.len() > 0 {
        if let Ok((f2, tag, c, r)) = frame_next(p, fr.last(), s) {
            let fr2 = fr.update(fr.len() - 1, f2);
            lemma_drop_finished(frames);
            lemma_weight_last(fr, f2);
            lemma_drop_finished(fr2);
            lemma_weight_last(fr2, FrameView::Compound { tag, has_next: true });
            match fr.last() {
                FrameView::List { id, index, length, .. } => {
                    lemma_component_consumes(p, id, s);
                    assert(frame_weight(f2) <= frame_weight(fr.last()) - 2);
                },
                FrameView::Compound { .. } => {
                    if let Ok((id, r1)) = wire_u8(s) {
                        if id != tag_id::END {
                            if let Ok((name, r2)) = wire_tag(p, r1) {
                                lemma_component_consumes(p, id, r2);
                            }
                        }
                    }
                    assert(r.len() < s.len());
                },
            }
            lemma_weight_nonneg(drop_finished(fr2));
            lemma_weight_nonneg(push_nested(fr2, tag, c));
            if c is End {
                lemma_advance_consumes(p, drop_finished(fr2), r);
            } else if c is Compound || c is List {
                lemma_advance_consumes(p, push_nested(fr2, tag, c), r);
            }
        }
    }
}

/// The values that a reader with open containers `frames` and input `s`
/// yields from here on, each with the text of its path, until the document
/// ends: what successive [`crate::Reader::next`] calls return.
#[verifier::opaque]
pub open spec fn stream_values(p: PlatformType, frames: Seq<FrameView>, s: Seq<u8>) -> Result<
    Seq<(Seq<char>, CompView)>,
    Fault,
>
    decreases s.len(),
{
    match advance(p, frames, s) {
        Err(f) => Err(f),
        Ok((fs, r, ev)) => match ev {
            None => Ok(Seq::empty()),
            Some(x) => {
                proof {
                    lemma_advance_consumes(p, frames, s);
                }
                prepend_values(seq![x], stream_values(p, fs, r))
            },
        },
    }
}

/// The values that a reader over `input` yields, from the document's start to
/// its end.
pub open spec fn read_document(p: PlatformType, input: Seq<u8>) -> Result<Seq<(Seq<char>, CompView)>, Fault> {
    match start_frames(p, input) {
        Err(f) => Err(f),
        Ok((fs, r)) => stream_values(p, fs, r),
    }
}

/// The text of the path of the innermost container.
pub open spec fn frames_path(fs: Seq<FrameView>) -> Seq<char> {
    join_tags(fs.drop_first())
}

// ----- helpers -----

proof fn lemma_prepend_assoc(a: Seq<(Seq<char>, CompView)>, b: Seq<(Seq<char>, CompView)>, r: Result<
    Seq<(Seq<char>, CompView)>,
    Fault,
>)
    ensures
        prepend_values(a, prepend_values(b, r)) == prepend_values(a + b, r),
{
    if let Ok(x) = r {
        assert(a + (b + x) =~= a + b + x);
    }
}

proof fn lemma_drop_finished_twice(fs: Seq<FrameView>)
    ensures
        drop_finished(drop_finished(fs)) == drop_finished(fs),
    decreases fs.len(),
{
    if fs.len() > 0 && !frame_has_next(fs.last()) {
        lemma_drop_finished_twice(fs.drop_last());
    }
}

/// Reading steps agree wherever they agree.
proof fn lemma_stream_same(p: PlatformType, a: Seq<FrameView>, sa: Seq<u8>, b: Seq<FrameView>, sb: Seq<u8>)
    requires
        advance(p, a, sa) == advance(p, b, sb),
    ensures
        stream_values(p, a, sa) == stream_values(p, b, sb),
{
    reveal(stream_values);
    lemma_advance_consumes(p, a, sa);
    lemma_advance_consumes(p, b, sb);
}

/// Finished containers are closed before reading on.
proof fn lemma_stream_drop(p: PlatformType, fs: Seq<FrameView>, s: Seq<u8>)
    ensures
        stream_values(p, drop_finished(fs), s) == stream_values(p, fs, s),
{
    lemma_drop_finished_twice(fs);
    assert(advance(p, drop_finished(fs), s) == advance(p, fs, s));
    lemma_stream_same(p, drop_finished(fs), s, fs, s);
}

/// A finished innermost container is closed.
proof fn lemma_stream_finished(p: PlatformType, fs: Seq<FrameView>, s: Seq<u8>)
    requires
        fs.len() > 0,
        !frame_has_next(fs.last()),
    ensures
        stream_values(p, fs, s) == stream_values(p, fs.drop_last(), s),
{
    lemma_stream_drop(p, fs, s);
    lemma_stream_drop(p, fs.drop_last(), s);
}

/// The path of the innermost container depends only on the names of the
/// containers.
proof fn lemma_path_update(fs: Seq<FrameView>, f: FrameView)
    requires
        fs.len() > 0,
        frame_tag(f) == frame_tag(fs.last()),
    ensures
        frames_path(fs.update(fs.len() - 1, f)) == frames_path(fs),
{
    let g = fs.update(fs.len() - 1, f);
    if fs.len() >= 2 {
        assert(g.drop_first().drop_last() =~= fs.drop_first().drop_last());
        assert(g.drop_first().last() == f);
        assert(fs.drop_first().last() == fs.last());
    } else {
        assert(g.drop_first() =~= fs.drop_first());
    }
}

/// The path of a container opened inside the innermost one.
proof fn lemma_path_push(fs: Seq<FrameView>, f: FrameView)
    requires
        fs.len() > 0,
    ensures
        frames_path(fs.push(f)) == append_part(frames_path(fs), frame_tag(f)),
{
    assert(fs.push(f).drop_first() =~= fs.drop_first().push(f));
    assert(fs.drop_first().push(f).drop_last() =~= fs.drop_first());
}

/// A written value that holds no others is read back as its component.
proof fn lemma_leaf_read(p: PlatformType, v: NbtTree, s: Seq<u8>)
    requires
        !(v is List || v is Compound),
        enc_payload(p, v) is Ok,
        texts_roundtrip(p, v),
    ensures
        wire_component(p, tree_id(v), enc_payload(p, v)->Ok_0 + s) == Ok::<(CompView, Seq<u8>), Fault>(
            (leaf_component(v), s),
        ),
{
    crate::roundtrip::lemma_payload_roundtrip(p, v, s);
    reveal(wire_payload);
}

/// A written list is read back as its header, then its elements.
proof fn lemma_list_header_read(p: PlatformType, id: u8, es: Seq<NbtTree>, s: Seq<u8>)
    requires
        enc_list(p, id, es) is Ok,
    ensures
        wire_component(p, tag_id::LIST, enc_list(p, id, es)->Ok_0 + s) == Ok::<(CompView, Seq<u8>), Fault>(
            (CompView::List { id, length: es.len() as i32 }, enc_elements(p, id, es)->Ok_0 + s),
        ),
        es.len() <= 0x7fff_ffff,
{
    let e = enc_elements(p, id, es)->Ok_0;
    let h = crate::byte_order::u32_bytes(p, es.len() as u32);
    crate::roundtrip::lemma_length_roundtrip(p, es.len(), e + s);
    let whole = enc_list(p, id, es)->Ok_0 + s;
    assert(whole =~= seq![id] + (h + (e + s)));
    assert(whole.skip(1) =~= h + (e + s));
}

proof fn lemma_prepend_empty(r: Result<Seq<(Seq<char>, CompView)>, Fault>)
    ensures
        prepend_values(Seq::empty(), r) == r,
{
    if let Ok(x) = r {
        assert(Seq::<(Seq<char>, CompView)>::empty() + x =~= x);
    }
}

// ----- reading what was written -----

/// The component read for a list or compound: a compound, or a list's element
/// id and length.
spec fn header_component(v: NbtTree) -> CompView {
    match v {
        NbtTree::List(id, es) => CompView::List { id, length: es.len() as i32 },
        _ => CompView::Compound,
    }
}

/// The bytes of a list or compound after its component: a compound's fields
/// and TAG_End, a list's elements.
spec fn after_header(p: PlatformType, v: NbtTree) -> Seq<u8> {
    match v {
        NbtTree::List(id, es) => enc_elements(p, id, es)->Ok_0,
        _ => enc_payload(p, v)->Ok_0,
    }
}

/// Reading a written list or compound that was opened as a child named `tag`
/// of the innermost container yields its leaves, then whatever follows it.
#[verifier::spinoff_prover]
proof fn lemma_nested_read(p: PlatformType, fr2: Seq<FrameView>, tag: Seq<char>, v: NbtTree, r: Seq<u8>)
    requires
        fr2.len() > 0,
        v is List || v is Compound,
        enc_payload(p, v) is Ok,
        texts_roundtrip(p, v),
    ensures
        stream_values(p, push_nested(fr2, tag, header_component(v)), after_header(p, v) + r) == prepend_values(
            tree_leaves(v, append_part(frames_path(fr2), tag)),
            stream_values(p, fr2, r),
        ),
    decreases v, 1int,
{
    match v {
        NbtTree::Compound(sub) => {
            let f = FrameView::Compound { tag, has_next: true };
            let pushed = fr2.push(f);
            lemma_path_push(fr2, f);
            assert(pushed.drop_last() =~= fr2);
            let fb = enc_fields(p, sub)->Ok_0;
            assert(after_header(p, v) + r =~= fb + (seq![tag_id::END] + r));
            lemma_fields_read(p, pushed, sub, r);
        },
        NbtTree::List(id, es) => {
            lemma_list_header_read(p, id, es, r);
            if es.len() > 0 {
                let f = FrameView::List { tag, id, index: 0, length: es.len() as i32 };
                let pushed = fr2.push(f);
                lemma_path_push(fr2, f);
                assert(pushed.drop_last() =~= fr2);
                lemma_elements_read(p, pushed, id, es, 0, r);
            } else {
                assert(enc_elements(p, id, es) == Ok::<Seq<u8>, Seq<char>>(Seq::empty()));
                assert(after_header(p, v) + r =~= r);
                lemma_prepend_empty(stream_values(p, fr2, r));
            }
        },
        _ => {},
    }
}

/// Reading a compound's TAG_End closes it.
proof fn lemma_fields_end(p: PlatformType, fs: Seq<FrameView>, r: Seq<u8>)
    requires
        fs.len() > 0,
        fs.last() matches FrameView::Compound { has_next, .. } && has_next,
    ensures
        stream_values(p, fs, seq![tag_id::END] + r) == stream_values(p, fs.drop_last(), r),
{
    let n = fs.len() as int;
    let s = seq![tag_id::END] + r;
    assert(drop_finished(fs) == fs);
    assert(s.skip(1) =~= r);
    let f2 = FrameView::Compound { tag: frame_tag(fs.last()), has_next: false };
    let fr2 = fs.update(n - 1, f2);
    assert(fr2.drop_last() =~= fs.drop_last());
    assert(drop_finished(fr2) == drop_finished(fs.drop_last()));
    lemma_drop_finished_twice(fs.drop_last());
    assert(advance(p, fs, s) == advance(p, drop_finished(fs.drop_last()), r));
    assert(advance(p, drop_finished(fs.drop_last()), r) == advance(p, fs.drop_last(), r));
    lemma_stream_same(p, fs, s, fs.drop_last(), r);
}

/// Reading one written field of the innermost compound yields its leaves,
/// then whatever follows it.
#[verifier::spinoff_prover]
proof fn lemma_field_step(p: PlatformType, fs: Seq<FrameView>, name: Seq<char>, v: NbtTree, tail: Seq<u8>)
    requires
        fs.len() > 0,
        fs.last() matches FrameView::Compound { has_next, .. } && has_next,
        enc_tag(p, name) is Some,
        modified_utf8_roundtrips(name),
        enc_payload(p, v) is Ok,
        texts_roundtrip(p, v),
    ensures
        stream_values(p, fs, seq![tree_id(v)] + (enc_tag(p, name)->Some_0 + (enc_payload(p, v)->Ok_0 + tail)))
            == prepend_values(tree_leaves(v, append_part(frames_path(fs), name)), stream_values(p, fs, tail)),
    decreases v, 2int,
{
    let n = fs.len() as int;
    let tb = enc_tag(p, name)->Some_0;
    let pb = enc_payload(p, v)->Ok_0;
    let s = seq![tree_id(v)] + (tb + (pb + tail));
    let path = frames_path(fs);
    assert(s.skip(1) =~= tb + (pb + tail));
    crate::roundtrip::lemma_tag_roundtrip(p, name, pb + tail);
    assert(drop_finished(fs) == fs);
    assert(fs.update(n - 1, fs.last()) =~= fs);
    if v is List || v is Compound {
        if let NbtTree::List(id, es) = v {
            lemma_list_header_read(p, id, es, tail);
        }
        assert(wire_component(p, tree_id(v), pb + tail) == Ok::<(CompView, Seq<u8>), Fault>(
            (header_component(v), after_header(p, v) + tail),
        )) by {
            if v is Compound {
                assert(pb + tail == after_header(p, v) + tail);
            }
        }
        let next = push_nested(fs, name, header_component(v));
        assert(advance(p, fs, s) == advance(p, next, after_header(p, v) + tail));
        lemma_stream_same(p, fs, s, next, after_header(p, v) + tail);
        lemma_nested_read(p, fs, name, v, tail);
    } else {
        lemma_leaf_read(p, v, tail);
        assert(advance(p, fs, s) == Ok::<(Seq<FrameView>, Seq<u8>, Option<(Seq<char>, CompView)>), Fault>(
            (fs, tail, Some((append_part(path, name), leaf_component(v)))),
        ));
        assert(stream_values(p, fs, s) == prepend_values(
            seq![(append_part(path, name), leaf_component(v))],
            stream_values(p, fs, tail),
        )) by {
            reveal(stream_values);
            lemma_advance_consumes(p, fs, s);
        }
    }
}

/// Reading the written fields of the innermost compound, and its TAG_End,
/// yields their leaves, then whatever follows the compound.
#[verifier::spinoff_prover]
proof fn lemma_fields_read(p: PlatformType, fs: Seq<FrameView>, fields: Seq<(Seq<char>, NbtTree)>, r: Seq<u8>)
    requires
        fs.len() > 0,
        fs.last() matches FrameView::Compound { has_next, .. } && has_next,
        enc_fields(p, fields) is Ok,
        fields_texts_roundtrip(p, fields),
    ensures
        stream_values(p, fs, enc_fields(p, fields)->Ok_0 + (seq![tag_id::END] + r)) == prepend_values(
            field_leaves(fields, frames_path(fs)),
            stream_values(p, fs.drop_last(), r),
        ),
    decreases fields, 0int,
{
    let s = enc_fields(p, fields)->Ok_0 + (seq![tag_id::END] + r);
    let path = frames_path(fs);
    if fields.len() == 0 {
        assert(s =~= seq![tag_id::END] + r);
        lemma_fields_end(p, fs, r);
        lemma_prepend_empty(stream_values(p, fs.drop_last(), r));
    } else {
        let name = fields[0].0;
        let v = fields[0].1;
        let rest = fields.drop_first();
        let tb = enc_tag(p, name)->Some_0;
        let pb = enc_payload(p, v)->Ok_0;
        let rb = enc_fields(p, rest)->Ok_0;
        let tail = rb + (seq![tag_id::END] + r);
        assert(enc_field(p, name, v) == then(seq![tree_id(v)] + tb, enc_payload(p, v)));
        assert(s =~= seq![tree_id(v)] + (tb + (pb + tail)));
        lemma_field_step(p, fs, name, v, tail);
        lemma_fields_read(p, fs, rest, r);
        lemma_prepend_assoc(
            tree_leaves(v, append_part(path, name)),
            field_leaves(rest, path),
            stream_values(p, fs.drop_last(), r),
        );
    }
}

/// Reading the written elements of the innermost list, the first of which is
/// number `k`, yields their leaves, then whatever follows the list.
#[verifier::spinoff_prover]
#[verifier::rlimit(50)]
proof fn lemma_elements_read(p: PlatformType, fs: Seq<FrameView>, id: u8, es: Seq<NbtTree>, k: int, r: Seq<u8>)
    requires
        fs.len() > 0,
        fs.last() matches FrameView::List { id: fid, index, length, .. } && fid == id && index == k && length == k
            + es.len(),
        0 <= k,
        enc_elements(p, id, es) is Ok,
        elements_texts_roundtrip(p, es),
    ensures
        stream_values(p, fs, enc_elements(p, id, es)->Ok_0 + r) == prepend_values(
            element_leaves(es, frames_path(fs), k),
            stream_values(p, fs.drop_last(), r),
        ),
    decreases es, 0int,
{
    let n = fs.len() as int;
    let s = enc_elements(p, id, es)->Ok_0 + r;
    let path = frames_path(fs);
    if es.len() == 0 {
        assert(s =~= r);
        lemma_stream_finished(p, fs, r);
        lemma_prepend_empty(stream_values(p, fs.drop_last(), r));
    } else {
        let v = es[0];
        let rest = es.drop_first();
        let pb = enc_payload(p, v)->Ok_0;
        let eb = enc_elements(p, id, rest)->Ok_0;
        let tail = eb + r;
        assert(s =~= pb + tail);
        let lt = frame_tag(fs.last());
        let length = fs.last()->List_length;
        let f2 = FrameView::List { tag: lt, id, index: (k + 1) as i32, length };
        let fr2 = fs.update(n - 1, f2);
        lemma_path_update(fs, f2);
        assert(fr2.drop_last() =~= fs.drop_last());
        assert(drop_finished(fs) == fs);
        lemma_elements_read(p, fr2, id, rest, k + 1, r);
        if v is List || v is Compound {
            if let NbtTree::List(eid, ees) = v {
                lemma_list_header_read(p, eid, ees, tail);
            }
            assert(wire_component(p, tree_id(v), pb + tail) == Ok::<(CompView, Seq<u8>), Fault>(
                (header_component(v), after_header(p, v) + tail),
            )) by {
                if v is Compound {
                    assert(pb + tail == after_header(p, v) + tail);
                }
            }
            assert(advance(p, fs, s) == advance(p, push_nested(fr2, index_tag(k), header_component(v)), after_header(p, v) + tail));
            lemma_stream_same(p, fs, s, push_nested(fr2, index_tag(k), header_component(v)), after_header(p, v) + tail);
            lemma_nested_read(p, fr2, index_tag(k), v, tail);
        } else {
            lemma_leaf_read(p, v, tail);
            assert(advance(p, fs, s) == Ok::<(Seq<FrameView>, Seq<u8>, Option<(Seq<char>, CompView)>), Fault>(
                (drop_finished(fr2), tail, Some((append_part(path, index_tag(k)), leaf_component(v)))),
            ));
            assert(stream_values(p, fs, s) == prepend_values(
                seq![(append_part(path, index_tag(k)), leaf_component(v))],
                stream_values(p, drop_finished(fr2), tail),
            )) by {
                reveal(stream_values);
                lemma_advance_consumes(p, fs, s);
            }
            lemma_stream_drop(p, fr2, tail);
        }
        lemma_prepend_assoc(
            tree_leaves(v, append_part(path, index_tag(k))),
            element_leaves(rest, path, k + 1),
            stream_values(p, fs.drop_last(), r),
        );
    }
}

/// A reader with nothing open and no input yields nothing more.
proof fn lemma_stream_nothing(p: PlatformType)
    ensures
        stream_values(p, Seq::empty(), Seq::empty()) == Ok::<Seq<(Seq<char>, CompView)>, Fault>(Seq::empty()),
{
    reveal(stream_values);
    assert(drop_finished(Seq::<FrameView>::empty()) == Seq::<FrameView>::empty());
}

/// Reading a written document yields every value of its tree that holds no
/// others, in order, each with the text of its path. This holds where the
/// document's texts read back as themselves: its field names, its strings on
/// Java, and the root's empty name.
pub proof fn lemma_reading_written_document(p: PlatformType, t: NbtTree)
    requires
        enc_document(p, t) is Ok,
        texts_roundtrip(p, t),
        modified_utf8_roundtrips(Seq::empty()),
    ensures
        read_document(p, enc_document(p, t)->Ok_0) == Ok::<Seq<(Seq<char>, CompView)>, Fault>(
            tree_leaves(t, Seq::empty()),
        ),
{
    let tb = enc_tag(p, Seq::empty())->Some_0;
    let pb = enc_payload(p, t)->Ok_0;
    let input = enc_document(p, t)->Ok_0;
    let nothing = Seq::<u8>::empty();
    assert(input == seq![tree_id(t)] + tb + pb);
    assert(input.skip(1) =~= tb + pb);
    crate::roundtrip::lemma_tag_roundtrip(p, Seq::empty(), pb);
    lemma_stream_nothing(p);
    match t {
        NbtTree::Compound(fields) => {
            let fs = seq![FrameView::Compound { tag: Seq::empty(), has_next: true }];
            assert(start_frames(p, input) == Ok::<(Seq<FrameView>, Seq<u8>), Fault>((fs, pb)));
            let fb = enc_fields(p, fields)->Ok_0;
            assert(pb =~= fb + (seq![tag_id::END] + nothing));
            lemma_fields_read(p, fs, fields, nothing);
            assert(fs.drop_first() =~= Seq::<FrameView>::empty());
            assert(frames_path(fs) == Seq::<char>::empty());
            assert(fs.drop_last() =~= Seq::<FrameView>::empty());
            assert(field_leaves(fields, Seq::empty()) + Seq::<(Seq<char>, CompView)>::empty()
                =~= field_leaves(fields, Seq::empty()));
        },
        NbtTree::List(id, es) => {
            let eb = enc_elements(p, id, es)->Ok_0;
            let h = crate::byte_order::u32_bytes(p, es.len() as u32);
            crate::roundtrip::lemma_length_roundtrip(p, es.len(), eb);
            assert(pb =~= seq![id] + (h + eb));
            assert(pb.skip(1) =~= h + eb);
            if es.len() > 0 {
                let fs = seq![FrameView::List { tag: Seq::empty(), id, index: 0, length: es.len() as i32 }];
                assert(start_frames(p, input) == Ok::<(Seq<FrameView>, Seq<u8>), Fault>((fs, eb)));
                assert(eb + nothing =~= eb);
                lemma_elements_read(p, fs, id, es, 0, nothing);
                assert(fs.drop_first() =~= Seq::<FrameView>::empty());
                assert(frames_path(fs) == Seq::<char>::empty());
                assert(fs.drop_last() =~= Seq::<FrameView>::empty());
                assert(element_leaves(es, Seq::empty(), 0) + Seq::<(Seq<char>, CompView)>::empty()
                    =~= element_leaves(es, Seq::empty(), 0));
            } else {
                assert(enc_elements(p, id, es) == Ok::<Seq<u8>, Seq<char>>(Seq::empty()));
                assert(start_frames(p, input) == Ok::<(Seq<FrameView>, Seq<u8>), Fault>((Seq::empty(), eb)));
                assert(eb =~= nothing);
            }
        },
        _ => {},
    }
}


/// What a writer holds once finished, with every call succeeded, a reader
/// reads back: every value of the document's tree that holds no others, in
/// order, each with the text of its path. This holds where the texts read back
/// as themselves: the field names and Java strings of the tree, and the root's
/// empty name.
pub proof fn lemma_written_session_reads_back(p: PlatformType, root: crate::writer::RootType, calls: Seq<
    crate::session::WriterCall,
>)
    requires
        root matches crate::writer::RootType::List { length, .. } ==> length >= 0,
        crate::session::session_output(p, root, calls) is Some,
        modified_utf8_roundtrips(Seq::empty()),
    ensures
        exists|t: NbtTree|
            #[trigger] crate::session::holds_document(p, crate::session::session_output(p, root, calls)->Some_0, t)
                && (texts_roundtrip(p, t) ==> read_document(p, crate::session::session_output(p, root, calls)->Some_0)
                == Ok::<Seq<(Seq<char>, CompView)>, Fault>(tree_leaves(t, Seq::empty()))),
{
    let bytes = crate::session::session_output(p, root, calls)->Some_0;
    crate::text::lemma_modified_utf8_empty();
    crate::session::lemma_finished_writer_holds_document(p, root, calls);
    let t = choose|t: NbtTree| #[trigger] crate::session::holds_document(p, bytes, t);
    let tb = crate::byte_order::u16_bytes(p, 0);
    assert(enc_tag(p, Seq::empty()) == Some(tb + Seq::<u8>::empty()));
    assert(tb + Seq::<u8>::empty() =~= tb);
    assert(enc_document(p, t) == then(seq![tree_id(t)] + tb, enc_payload(p, t)));
    assert(enc_document(p, t) == Ok::<Seq<u8>, Seq<char>>(bytes));
    if texts_roundtrip(p, t) {
        lemma_reading_written_document(p, t);
    }
}

} // verus!
