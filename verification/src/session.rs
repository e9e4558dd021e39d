//! A writer session as a sequence of calls, and what a finished session holds:
//! one whole document, which reads back as the tree that was written.
use vstd::prelude::*;
use crate::byte_order::{u16_bytes, u32_bytes};
use crate::component::NbtComponent;
use crate::platform::PlatformType;
use crate::tag_id;
use crate::tree::{
    enc_elements, enc_field, enc_fields, enc_list, enc_payload, texts_roundtrip, then, tree_id, wire_payload,
    NbtTree, Written,
};
use crate::wire::{enc_tag, Fault};
use crate::writer::{
    all_spent, component_kind, end_effect, is_spent, leaf_tree, opened, payload_of, trimmed, write_effect,
    Failure, RootType, Scope,
};

verus! {

/// One call on a [`crate::Writer`].
pub enum WriterCall {
    /// [`crate::Writer::write`] with this tag and component.
    Write { tag: Seq<char>, component: NbtComponent },
    /// [`crate::Writer::end`].
    End,
}

/// What one call does from the open containers `scopes`.
pub open spec fn call_effect(p: PlatformType, scopes: Seq<Scope>, call: WriterCall) -> (
    Seq<u8>,
    Seq<Scope>,
    Option<Failure>,
) {
    match call {
        WriterCall::Write { tag, component } => write_effect(p, scopes, tag, component),
        WriterCall::End => end_effect(scopes),
    }
}

/// The bytes and open containers after `calls`, starting from `bytes` and
/// `scopes`, when every call succeeds; `None` when one fails.
pub open spec fn run_calls(p: PlatformType, scopes: Seq<Scope>, bytes: Seq<u8>, calls: Seq<WriterCall>) -> Option<
    (Seq<u8>, Seq<Scope>),
>
    decreases calls.len(),
{
    if calls.len() == 0 {
        Some((bytes, scopes))
    } else {
        let (b, st, failure) = call_effect(p, scopes, calls[0]);
        if failure is Some {
            None
        } else {
            run_calls(p, st, bytes + b, calls.drop_first())
        }
    }
}

/// The bytes a new writer starts with: the root's id, an empty name, and for a
/// list its element id and length.
pub open spec fn root_header(p: PlatformType, root: RootType) -> Seq<u8> {
    match root {
        RootType::Compound => seq![tag_id::COMPOUND] + u16_bytes(p, 0),
        RootType::List { id, length } => seq![tag_id::LIST] + u16_bytes(p, 0) + seq![id] + u32_bytes(
            p,
            length as u32,
        ),
    }
}

/// The containers a new writer holds open.
pub open spec fn root_scopes(root: RootType) -> Seq<Scope> {
    match root {
        RootType::Compound => seq![Scope::Compound],
        RootType::List { id, length } => if length > 0 {
            seq![Scope::List { id, remaining: length }]
        } else {
            Seq::empty()
        },
    }
}

/// Whether `bytes` is one whole document whose root is `t`: the root's id, an
/// empty name, and the root's payload.
pub open spec fn holds_document(p: PlatformType, bytes: Seq<u8>, t: NbtTree) -> bool {
    &&& (t is List || t is Compound)
    &&& enc_payload(p, t) is Ok
    &&& bytes == seq![tree_id(t)] + u16_bytes(p, 0) + enc_payload(p, t)->Ok_0
}

// ----- the containers being written -----

/// A container that is being written, with what it holds so far.
enum Open {
    Compound { name: Seq<char>, fields: Seq<(Seq<char>, NbtTree)> },
    List { name: Seq<char>, id: u8, length: i32, elements: Seq<NbtTree> },
}

/// Where a container stands: at the root, as a list element, or as a field.
enum Place {
    Root,
    Element,
    Field,
}

spec fn open_kind(o: Open) -> u8 {
    match o {
        Open::Compound { .. } => tag_id::COMPOUND,
        Open::List { .. } => tag_id::LIST,
    }
}

spec fn open_name(o: Open) -> Seq<char> {
    match o {
        Open::Compound { name, .. } => name,
        Open::List { name, .. } => name,
    }
}

/// The tree of a container once it is complete.
spec fn closed_tree(o: Open) -> NbtTree {
    match o {
        Open::Compound { fields, .. } => NbtTree::Compound(fields),
        Open::List { id, elements, .. } => NbtTree::List(id, elements),
    }
}

/// A container with one more child.
spec fn with_child(o: Open, name: Seq<char>, t: NbtTree) -> Open {
    match o {
        Open::Compound { name: n, fields } => Open::Compound { name: n, fields: fields.push((name, t)) },
        Open::List { name: n, id, length, elements } => Open::List { name: n, id, length, elements: elements.push(t) },
    }
}

spec fn place_of(z: Seq<Open>, i: int) -> Place {
    if i == 0 {
        Place::Root
    } else if z[i - 1] is List {
        Place::Element
    } else {
        Place::Field
    }
}

/// A list's element id and length, nothing for a compound.
spec fn list_header(p: PlatformType, o: Open) -> Seq<u8> {
    match o {
        Open::Compound { .. } => Seq::empty(),
        Open::List { id, length, .. } => seq![id] + u32_bytes(p, length as u32),
    }
}

/// What was written before a container's contents.
spec fn open_head(p: PlatformType, o: Open, place: Place) -> Seq<u8> {
    match place {
        Place::Root => seq![open_kind(o)] + u16_bytes(p, 0) + list_header(p, o),
        Place::Element => list_header(p, o),
        Place::Field => seq![open_kind(o)] + enc_tag(p, open_name(o))->Some_0 + list_header(p, o),
    }
}

/// The contents written so far.
spec fn open_body(p: PlatformType, o: Open) -> Written {
    match o {
        Open::Compound { fields, .. } => enc_fields(p, fields),
        Open::List { id, elements, .. } => enc_elements(p, id, elements),
    }
}

/// Everything written for the open containers, outermost first.
spec fn open_bytes(p: PlatformType, z: Seq<Open>) -> Seq<u8>
    decreases z.len(),
{
    if z.len() == 0 {
        Seq::empty()
    } else {
        open_bytes(p, z.drop_last()) + open_head(p, z.last(), place_of(z, z.len() - 1)) + open_body(
            p,
            z.last(),
        )->Ok_0
    }
}

/// The container at `i` agrees with the writer's scope at `i`, and what it
/// holds so far can be written.
spec fn slot_ok(p: PlatformType, z: Seq<Open>, scopes: Seq<Scope>, i: int) -> bool {
    let top = i == z.len() - 1;
    &&& open_body(p, z[i]) is Ok
    &&& (i > 0 && z[i - 1] is Compound ==> enc_tag(p, open_name(z[i])) is Some)
    &&& (i > 0 && z[i - 1] is List ==> open_kind(z[i]) == z[i - 1]->List_id)
    &&& match z[i] {
        Open::Compound { .. } => scopes[i] is Compound,
        Open::List { id, length, elements, .. } => scopes[i] matches Scope::List { id: sid, remaining }
            && sid == id && 0 <= remaining && remaining == length - elements.len() - (if top {
            0int
        } else {
            1int
        }),
    }
}

/// The writer's bytes and scopes are those of the open containers `z`, or, once
/// none is open, of the whole document `done`.
spec fn session_inv(p: PlatformType, scopes: Seq<Scope>, bytes: Seq<u8>, z: Seq<Open>, done: Option<NbtTree>) -> bool {
    &&& z.len() == scopes.len()
    &&& forall|i: int| 0 <= i < z.len() ==> #[trigger] slot_ok(p, z, scopes, i)
    &&& if z.len() == 0 {
        done matches Some(t) && holds_document(p, bytes, t)
    } else {
        bytes == open_bytes(p, z)
    }
}

// ----- encoding one more child -----

/// Writing one more field appends its encoding.
pub proof fn lemma_fields_push(p: PlatformType, fs: Seq<(Seq<char>, NbtTree)>, n: Seq<char>, v: NbtTree)
    requires
        enc_fields(p, fs) is Ok,
        enc_field(p, n, v) is Ok,
    ensures
        enc_fields(p, fs.push((n, v))) == Ok::<Seq<u8>, Seq<char>>(
            enc_fields(p, fs)->Ok_0 + enc_field(p, n, v)->Ok_0,
        ),
    decreases fs.len(),
{
    let g = fs.push((n, v));
    let f = enc_field(p, n, v)->Ok_0;
    if fs.len() == 0 {
        assert(g.drop_first() =~= Seq::<(Seq<char>, NbtTree)>::empty());
        assert(enc_fields(p, g.drop_first()) == Ok::<Seq<u8>, Seq<char>>(Seq::empty()));
        assert(g[0] == (n, v));
        assert(enc_fields(p, g) == then(f, enc_fields(p, g.drop_first())));
        assert(f + Seq::<u8>::empty() =~= f);
        assert(Seq::<u8>::empty() + f =~= f);
    } else {
        lemma_fields_push(p, fs.drop_first(), n, v);
        assert(g.drop_first() =~= fs.drop_first().push((n, v)));
        assert(g[0] == fs[0]);
        let b0 = enc_field(p, fs[0].0, fs[0].1)->Ok_0;
        let rest = enc_fields(p, fs.drop_first())->Ok_0;
        assert(enc_fields(p, fs) == then(b0, enc_fields(p, fs.drop_first())));
        assert(enc_fields(p, g) == then(b0, enc_fields(p, g.drop_first())));
        assert(b0 + (rest + f) =~= (b0 + rest) + f);
    }
}

/// Writing one more list element of the list's kind appends its payload.
pub proof fn lemma_elements_push(p: PlatformType, id: u8, es: Seq<NbtTree>, v: NbtTree)
    requires
        enc_elements(p, id, es) is Ok,
        enc_payload(p, v) is Ok,
        tree_id(v) == id,
    ensures
        enc_elements(p, id, es.push(v)) == Ok::<Seq<u8>, Seq<char>>(
            enc_elements(p, id, es)->Ok_0 + enc_payload(p, v)->Ok_0,
        ),
    decreases es.len(),
{
    let g = es.push(v);
    let f = enc_payload(p, v)->Ok_0;
    if es.len() == 0 {
        assert(g.drop_first() =~= Seq::<NbtTree>::empty());
        assert(enc_elements(p, id, g.drop_first()) == Ok::<Seq<u8>, Seq<char>>(Seq::empty()));
        assert(g[0] == v);
        assert(enc_elements(p, id, g) == then(f, enc_elements(p, id, g.drop_first())));
        assert(f + Seq::<u8>::empty() =~= f);
        assert(Seq::<u8>::empty() + f =~= f);
    } else {
        lemma_elements_push(p, id, es.drop_first(), v);
        assert(g.drop_first() =~= es.drop_first().push(v));
        assert(g[0] == es[0]);
        let b0 = enc_payload(p, es[0])->Ok_0;
        let rest = enc_elements(p, id, es.drop_first())->Ok_0;
        assert(enc_elements(p, id, es) == then(b0, enc_elements(p, id, es.drop_first())));
        assert(enc_elements(p, id, g) == then(b0, enc_elements(p, id, g.drop_first())));
        assert(b0 + (rest + f) =~= (b0 + rest) + f);
    }
}

// ----- completing the innermost container -----

/// What completes a container: TAG_End for a compound, nothing for a list.
spec fn closing_bytes(o: Open) -> Seq<u8> {
    match o {
        Open::Compound { .. } => seq![tag_id::END],
        Open::List { .. } => Seq::empty(),
    }
}

/// The open containers once the innermost one is complete and added to the
/// one around it, or the document once the outermost one is.
spec fn close(z: Seq<Open>) -> (Seq<Open>, Option<NbtTree>) {
    let t = closed_tree(z.last());
    if z.len() == 1 {
        (Seq::empty(), Some(t))
    } else {
        (z.drop_last().drop_last().push(with_child(z[z.len() - 2], open_name(z.last()), t)), None)
    }
}

/// A complete container's payload is its list header, its contents and its
/// closing bytes.
proof fn lemma_closed_payload(p: PlatformType, o: Open)
    requires
        open_body(p, o) is Ok,
        o matches Open::List { length, elements, .. } ==> elements.len() == length,
    ensures
        enc_payload(p, closed_tree(o)) == Ok::<Seq<u8>, Seq<char>>(
            list_header(p, o) + open_body(p, o)->Ok_0 + closing_bytes(o),
        ),
        tree_id(closed_tree(o)) == open_kind(o),
{
    let b = open_body(p, o)->Ok_0;
    match o {
        Open::Compound { fields, .. } => {
            assert(b.push(tag_id::END) =~= Seq::<u8>::empty() + b + seq![tag_id::END]);
        },
        Open::List { id, length, elements, .. } => {
            assert(elements.len() as u32 == length as u32);
            assert(enc_list(p, id, elements) == then(seq![id] + u32_bytes(p, length as u32), enc_elements(p, id, elements)));
            assert(seq![id] + u32_bytes(p, length as u32) + b =~= seq![id] + u32_bytes(p, length as u32) + b + Seq::<u8>::empty());
        },
    }
}

/// The contents of the container around the innermost one, once that one is
/// complete, are its old contents followed by the complete child.
proof fn lemma_child_joins(p: PlatformType, z: Seq<Open>, scopes: Seq<Scope>)
    requires
        z.len() >= 2,
        slot_ok(p, z, scopes, z.len() - 1),
        slot_ok(p, z, scopes, z.len() - 2),
        z.last() matches Open::List { length, elements, .. } ==> elements.len() == length,
    ensures
        open_body(p, with_child(z[z.len() - 2], open_name(z.last()), closed_tree(z.last()))) == Ok::<Seq<u8>, Seq<char>>(
            open_body(p, z[z.len() - 2])->Ok_0 + (open_head(p, z.last(), place_of(z, z.len() - 1)) + open_body(
                p,
                z.last(),
            )->Ok_0 + closing_bytes(z.last())),
        ),
{
    let n = z.len() as int;
    let o = z.last();
    let q = z[n - 2];
    lemma_closed_payload(p, o);
    let t = closed_tree(o);
    let lh = list_header(p, o);
    let body = open_body(p, o)->Ok_0;
    let tail = closing_bytes(o);
    let child = open_head(p, o, place_of(z, n - 1)) + body + tail;
    if q is Compound {
        let tb = enc_tag(p, open_name(o))->Some_0;
        assert(enc_field(p, open_name(o), t) == then(seq![tree_id(t)] + tb, enc_payload(p, t)));
        assert(child =~= seq![tree_id(t)] + tb + (lh + body + tail));
        lemma_fields_push(p, q->Compound_fields, open_name(o), t);
    } else {
        assert(child =~= lh + body + tail);
        lemma_elements_push(p, q->List_id, q->List_elements, t);
    }
}

/// The bytes of the open containers once the innermost one is complete.
proof fn lemma_close_bytes(p: PlatformType, z: Seq<Open>, child: Seq<u8>)
    requires
        z.len() >= 2,
        open_body(p, with_child(z[z.len() - 2], open_name(z.last()), closed_tree(z.last()))) == Ok::<Seq<u8>, Seq<char>>(
            open_body(p, z[z.len() - 2])->Ok_0 + child,
        ),
        child == open_head(p, z.last(), place_of(z, z.len() - 1)) + open_body(p, z.last())->Ok_0 + closing_bytes(
            z.last(),
        ),
    ensures
        open_bytes(p, z) + closing_bytes(z.last()) == open_bytes(p, close(z).0),
{
    let n = z.len() as int;
    let o = z.last();
    let q = z[n - 2];
    let pre = z.drop_last();
    let q2 = with_child(q, open_name(o), closed_tree(o));
    let z2 = pre.drop_last().push(q2);
    let qb = open_body(p, q)->Ok_0;
    assert(close(z).0 == z2);
    assert(z2.drop_last() =~= pre.drop_last());
    assert(z2.last() == q2);
    assert(pre.last() == q);
    assert(place_of(z2, n - 2) == place_of(pre, n - 2)) by {
        if n - 2 > 0 {
            assert(z2[n - 3] == z[n - 3]);
            assert(pre[n - 3] == z[n - 3]);
        }
    }
    assert(open_head(p, q2, place_of(z2, n - 2)) == open_head(p, q, place_of(pre, n - 2)));
    let h = open_head(p, q, place_of(pre, n - 2));
    let base = open_bytes(p, pre.drop_last());
    assert(open_bytes(p, pre) == base + h + qb);
    assert(open_bytes(p, z) == open_bytes(p, pre) + open_head(p, o, place_of(z, n - 1)) + open_body(p, o)->Ok_0);
    assert(open_bytes(p, z2) == base + h + (qb + child));
    assert(open_bytes(p, z) + closing_bytes(o) =~= base + h + (qb + child));
}

/// The containers' agreement with the scopes survives completing the
/// innermost one.
proof fn lemma_close_slots(p: PlatformType, z: Seq<Open>, scopes: Seq<Scope>)
    requires
        z.len() >= 2,
        z.len() == scopes.len(),
        forall|i: int| 0 <= i < z.len() ==> #[trigger] slot_ok(p, z, scopes, i),
        z.last() matches Open::List { length, elements, .. } ==> elements.len() == length,
        open_body(p, with_child(z[z.len() - 2], open_name(z.last()), closed_tree(z.last()))) is Ok,
    ensures
        forall|i: int| 0 <= i < close(z).0.len() ==> #[trigger] slot_ok(p, close(z).0, scopes.drop_last(), i),
{
    let n = z.len() as int;
    let z2 = close(z).0;
    let s2 = scopes.drop_last();
    assert(z2.len() == n - 1);
    assert forall|i: int| 0 <= i < z2.len() implies #[trigger] slot_ok(p, z2, s2, i) by {
        assert(slot_ok(p, z, scopes, i));
        assert(s2[i] == scopes[i]);
        if i > 0 {
            assert(z2[i - 1] == z[i - 1]);
        }
        if i < n - 2 {
            assert(z2[i] == z[i]);
        }
    }
}

/// Completing the innermost container keeps the session's description: its
/// tree joins the container around it, or becomes the document.
proof fn lemma_close(p: PlatformType, scopes: Seq<Scope>, bytes: Seq<u8>, z: Seq<Open>, done: Option<NbtTree>)
    requires
        session_inv(p, scopes, bytes, z, done),
        z.len() > 0,
        z.last() is List ==> is_spent(scopes.last()),
    ensures
        session_inv(p, scopes.drop_last(), bytes + closing_bytes(z.last()), close(z).0, close(z).1),
{
    let n = z.len() as int;
    let o = z.last();
    assert(slot_ok(p, z, scopes, n - 1));
    if n == 1 {
        lemma_closed_payload(p, o);
        let t = closed_tree(o);
        let pre = z.drop_last();
        assert(open_bytes(p, pre) == Seq::<u8>::empty());
        assert(bytes + closing_bytes(o) =~= seq![tree_id(t)] + u16_bytes(p, 0) + (list_header(p, o) + open_body(
            p,
            o,
        )->Ok_0 + closing_bytes(o)));
    } else {
        assert(slot_ok(p, z, scopes, n - 2));
        lemma_child_joins(p, z, scopes);
        let child = open_head(p, o, place_of(z, n - 1)) + open_body(p, o)->Ok_0 + closing_bytes(o);
        lemma_close_bytes(p, z, child);
        lemma_close_slots(p, z, scopes);
    }
}

/// Closing the complete lists on top keeps the session's description.
proof fn lemma_trim(p: PlatformType, scopes: Seq<Scope>, bytes: Seq<u8>, z: Seq<Open>, done: Option<NbtTree>) -> (r: (
    Seq<Open>,
    Option<NbtTree>,
))
    requires
        session_inv(p, scopes, bytes, z, done),
    ensures
        session_inv(p, trimmed(scopes), bytes, r.0, r.1),
    decreases scopes.len(),
{
    if scopes.len() > 0 && is_spent(scopes.last()) {
        assert(slot_ok(p, z, scopes, z.len() - 1));
        assert(z.last() is List);
        lemma_close(p, scopes, bytes, z, done);
        assert(bytes + closing_bytes(z.last()) =~= bytes);
        lemma_trim(p, scopes.drop_last(), bytes, close(z).0, close(z).1)
    } else {
        (z, done)
    }
}

// ----- one more value -----

/// A value written as a field of the innermost compound.
proof fn lemma_add_field(
    p: PlatformType,
    st: Seq<Scope>,
    bytes: Seq<u8>,
    z: Seq<Open>,
    done: Option<NbtTree>,
    name: Seq<char>,
    t: NbtTree,
    b: Seq<u8>,
)
    requires
        session_inv(p, st, bytes, z, done),
        z.len() > 0,
        z.last() is Compound,
        enc_field(p, name, t) == Ok::<Seq<u8>, Seq<char>>(b),
    ensures
        session_inv(p, st, bytes + b, z.drop_last().push(with_child(z.last(), name, t)), done),
{
    let n = z.len() as int;
    let q = z.last();
    let q2 = with_child(q, name, t);
    let z2 = z.drop_last().push(q2);
    assert(slot_ok(p, z, st, n - 1));
    lemma_fields_push(p, q->Compound_fields, name, t);
    assert(z2.drop_last() =~= z.drop_last());
    assert(place_of(z2, n - 1) == place_of(z, n - 1)) by {
        if n - 1 > 0 {
            assert(z2[n - 2] == z[n - 2]);
        }
    }
    assert(open_bytes(p, z2) =~= open_bytes(p, z) + b);
    assert forall|i: int| 0 <= i < z2.len() implies #[trigger] slot_ok(p, z2, st, i) by {
        assert(slot_ok(p, z, st, i));
        if i > 0 {
            assert(z2[i - 1] == z[i - 1]);
        }
        if i < n - 1 {
            assert(z2[i] == z[i]);
        }
    }
}

/// A value written as the next element of the innermost list.
proof fn lemma_add_element(
    p: PlatformType,
    st: Seq<Scope>,
    bytes: Seq<u8>,
    z: Seq<Open>,
    done: Option<NbtTree>,
    t: NbtTree,
    b: Seq<u8>,
)
    requires
        session_inv(p, st, bytes, z, done),
        z.len() > 0,
        z.last() is List,
        st.last() matches Scope::List { remaining, .. } && remaining > 0,
        tree_id(t) == z.last()->List_id,
        enc_payload(p, t) == Ok::<Seq<u8>, Seq<char>>(b),
    ensures
        session_inv(
            p,
            st.update(st.len() - 1, Scope::List { id: st.last()->List_id, remaining: (st.last()->List_remaining - 1) as i32 }),
            bytes + b,
            z.drop_last().push(with_child(z.last(), Seq::empty(), t)),
            done,
        ),
{
    let n = z.len() as int;
    let q = z.last();
    let q2 = with_child(q, Seq::empty(), t);
    let z2 = z.drop_last().push(q2);
    let st2 = st.update(st.len() - 1, Scope::List { id: st.last()->List_id, remaining: (st.last()->List_remaining - 1) as i32 });
    assert(slot_ok(p, z, st, n - 1));
    lemma_elements_push(p, q->List_id, q->List_elements, t);
    assert(z2.drop_last() =~= z.drop_last());
    assert(place_of(z2, n - 1) == place_of(z, n - 1)) by {
        if n - 1 > 0 {
            assert(z2[n - 2] == z[n - 2]);
        }
    }
    assert(open_bytes(p, z2) =~= open_bytes(p, z) + b);
    assert forall|i: int| 0 <= i < z2.len() implies #[trigger] slot_ok(p, z2, st2, i) by {
        assert(slot_ok(p, z, st, i));
        if i > 0 {
            assert(z2[i - 1] == z[i - 1]);
        }
        if i < n - 1 {
            assert(z2[i] == z[i]);
            assert(st2[i] == st[i]);
        }
    }
}

/// Where a new container opens inside the innermost one.
spec fn inner_place(z: Seq<Open>) -> Place {
    if z.last() is List {
        Place::Element
    } else {
        Place::Field
    }
}

/// A new, still empty container opened inside the innermost one.
proof fn lemma_open_child(
    p: PlatformType,
    st: Seq<Scope>,
    st2: Seq<Scope>,
    bytes: Seq<u8>,
    z: Seq<Open>,
    done: Option<NbtTree>,
    o: Open,
    s_new: Scope,
)
    requires
        session_inv(p, st, bytes, z, done),
        z.len() > 0,
        st2.len() == st.len(),
        forall|i: int| 0 <= i < st.len() - 1 ==> st2[i] == st[i],
        z.last() is Compound ==> st2.last() == st.last() && enc_tag(p, open_name(o)) is Some,
        z.last() is List ==> (st.last() matches Scope::List { id, remaining } && remaining > 0
            && st2.last() == Scope::List { id, remaining: (remaining - 1) as i32 } && open_kind(o) == id),
        match o {
            Open::Compound { fields, .. } => fields.len() == 0 && s_new == Scope::Compound,
            Open::List { id, length, elements, .. } => elements.len() == 0 && length > 0
                && s_new == Scope::List { id, remaining: length },
        },
    ensures
        session_inv(p, st2.push(s_new), bytes + open_head(p, o, inner_place(z)), z.push(o), done),
{
    let n = z.len() as int;
    let z2 = z.push(o);
    let s2 = st2.push(s_new);
    assert(slot_ok(p, z, st, n - 1));
    assert(open_body(p, o) == Ok::<Seq<u8>, Seq<char>>(Seq::empty()));
    assert(z2.drop_last() =~= z);
    assert(place_of(z2, n) == inner_place(z));
    assert(open_bytes(p, z2) =~= open_bytes(p, z) + open_head(p, o, inner_place(z)));
    assert forall|i: int| 0 <= i < z2.len() implies #[trigger] slot_ok(p, z2, s2, i) by {
        if i < n {
            assert(slot_ok(p, z, st, i));
            assert(z2[i] == z[i]);
            if i > 0 {
                assert(z2[i - 1] == z[i - 1]);
            }
            if i < n - 1 {
                assert(s2[i] == st[i]);
            }
        } else {
            assert(z2[i] == o);
            assert(z2[i - 1] == z.last());
            assert(s2[i] == s_new);
        }
    }
}

/// Whether writing `c` opens a container: a compound, or a list that expects
/// elements.
spec fn opens(c: NbtComponent) -> bool {
    c is Compound || (c matches NbtComponent::List { length, .. } && length > 0)
}

/// The tree of a component that opens no container: a value, or an empty list.
spec fn component_tree(c: NbtComponent) -> NbtTree {
    match c {
        NbtComponent::List { id, .. } => NbtTree::List(id, Seq::empty()),
        _ => leaf_tree(c),
    }
}

/// The container that a component opens, named `tag`.
spec fn opened_container(tag: Seq<char>, c: NbtComponent) -> Open {
    match c {
        NbtComponent::List { id, length } => Open::List { name: tag, id, length, elements: Seq::empty() },
        _ => Open::Compound { name: tag, fields: Seq::empty() },
    }
}

/// The writer's scope for the container that a component opens.
spec fn opened_scope(c: NbtComponent) -> Scope {
    match c {
        NbtComponent::List { id, length } => Scope::List { id, remaining: length },
        _ => Scope::Compound,
    }
}

/// A component that opens no container is written as its tree's payload.
proof fn lemma_simple_component(p: PlatformType, c: NbtComponent, b: Seq<u8>)
    requires
        !(c is End),
        !opens(c),
        payload_of(p, c) == Ok::<Seq<u8>, Failure>(b),
    ensures
        enc_payload(p, component_tree(c)) == Ok::<Seq<u8>, Seq<char>>(b),
        tree_id(component_tree(c)) == component_kind(c),
{
    if let NbtComponent::List { id, length } = c {
        assert(length == 0);
        assert(enc_elements(p, id, Seq::empty()) == Ok::<Seq<u8>, Seq<char>>(Seq::empty()));
        assert(enc_list(p, id, Seq::empty()) == then(seq![id] + u32_bytes(p, 0u32), enc_elements(p, id, Seq::empty())));
        assert(seq![id] + u32_bytes(p, 0u32) + Seq::<u8>::empty() =~= seq![id] + u32_bytes(p, 0u32));
    }
}

/// A successful [`crate::Writer::write`] keeps the session's description.
proof fn lemma_write(
    p: PlatformType,
    scopes: Seq<Scope>,
    bytes: Seq<u8>,
    z: Seq<Open>,
    done: Option<NbtTree>,
    tag: Seq<char>,
    c: NbtComponent,
) -> (r: (Seq<Open>, Option<NbtTree>))
    requires
        session_inv(p, scopes, bytes, z, done),
        write_effect(p, scopes, tag, c).2 is None,
    ensures
        session_inv(p, write_effect(p, scopes, tag, c).1, bytes + write_effect(p, scopes, tag, c).0, r.0, r.1),
{
    let (z1, d1) = lemma_trim(p, scopes, bytes, z, done);
    let st = trimmed(scopes);
    let id = component_kind(c);
    let n = st.len() as int;
    assert(n > 0);
    assert(slot_ok(p, z1, st, n - 1));
    match st.last() {
        Scope::Compound => {
            assert(z1.last() is Compound);
            let tb = enc_tag(p, tag)->Some_0;
            let b = payload_of(p, c)->Ok_0;
            let w = seq![id] + tb + b;
            assert(write_effect(p, scopes, tag, c) == (w, trimmed(opened(st, c)), None::<Failure>));
            if opens(c) {
                let o = opened_container(tag, c);
                lemma_open_child(p, st, st, bytes, z1, d1, o, opened_scope(c));
                assert(open_head(p, o, inner_place(z1)) =~= w);
                assert(opened(st, c) == st.push(opened_scope(c)));
                lemma_trim(p, st.push(opened_scope(c)), bytes + w, z1.push(o), d1)
            } else {
                let t = component_tree(c);
                lemma_simple_component(p, c, b);
                assert(enc_field(p, tag, t) == then(seq![tree_id(t)] + tb, enc_payload(p, t)));
                lemma_add_field(p, st, bytes, z1, d1, tag, t, w);
                assert(opened(st, c) == st);
                lemma_trim(p, st, bytes + w, z1.drop_last().push(with_child(z1.last(), tag, t)), d1)
            }
        },
        Scope::List { id: lid, remaining } => {
            assert(z1.last() is List);
            let b = payload_of(p, c)->Ok_0;
            let st2 = st.update(n - 1, Scope::List { id: lid, remaining: (remaining - 1) as i32 });
            assert(write_effect(p, scopes, tag, c) == (b, trimmed(opened(st2, c)), None::<Failure>));
            if opens(c) {
                let o = opened_container(tag, c);
                lemma_open_child(p, st, st2, bytes, z1, d1, o, opened_scope(c));
                assert(open_head(p, o, inner_place(z1)) =~= b);
                assert(opened(st2, c) == st2.push(opened_scope(c)));
                lemma_trim(p, st2.push(opened_scope(c)), bytes + b, z1.push(o), d1)
            } else {
                let t = component_tree(c);
                lemma_simple_component(p, c, b);
                lemma_add_element(p, st, bytes, z1, d1, t, b);
                assert(opened(st2, c) == st2);
                lemma_trim(p, st2, bytes + b, z1.drop_last().push(with_child(z1.last(), Seq::empty(), t)), d1)
            }
        },
    }
}

/// A successful [`crate::Writer::end`] keeps the session's description.
proof fn lemma_end(p: PlatformType, scopes: Seq<Scope>, bytes: Seq<u8>, z: Seq<Open>, done: Option<NbtTree>) -> (r: (
    Seq<Open>,
    Option<NbtTree>,
))
    requires
        session_inv(p, scopes, bytes, z, done),
        end_effect(scopes).2 is None,
    ensures
        session_inv(p, end_effect(scopes).1, bytes + end_effect(scopes).0, r.0, r.1),
{
    let (z1, d1) = lemma_trim(p, scopes, bytes, z, done);
    let st = trimmed(scopes);
    assert(slot_ok(p, z1, st, st.len() - 1));
    assert(z1.last() is Compound);
    lemma_close(p, st, bytes, z1, d1);
    lemma_trim(p, st.drop_last(), bytes + seq![tag_id::END], close(z1).0, close(z1).1)
}

/// Every successful run of calls keeps the session's description.
proof fn lemma_run(
    p: PlatformType,
    scopes: Seq<Scope>,
    bytes: Seq<u8>,
    z: Seq<Open>,
    done: Option<NbtTree>,
    calls: Seq<WriterCall>,
) -> (r: (Seq<Open>, Option<NbtTree>))
    requires
        session_inv(p, scopes, bytes, z, done),
        run_calls(p, scopes, bytes, calls) is Some,
    ensures
        session_inv(p, run_calls(p, scopes, bytes, calls)->Some_0.1, run_calls(p, scopes, bytes, calls)->Some_0.0, r.0, r.1),
    decreases calls.len(),
{
    if calls.len() == 0 {
        (z, done)
    } else {
        let (b, st, f) = call_effect(p, scopes, calls[0]);
        let (z1, d1) = match calls[0] {
            WriterCall::Write { tag, component } => lemma_write(p, scopes, bytes, z, done, tag, component),
            WriterCall::End => lemma_end(p, scopes, bytes, z, done),
        };
        lemma_run(p, st, bytes + b, z1, d1, calls.drop_first())
    }
}

/// A new writer is described by its root container.
proof fn lemma_start(p: PlatformType, root: RootType) -> (r: (Seq<Open>, Option<NbtTree>))
    requires
        root matches RootType::List { length, .. } ==> length >= 0,
    ensures
        session_inv(p, root_scopes(root), root_header(p, root), r.0, r.1),
{
    match root {
        RootType::Compound => {
            let o = Open::Compound { name: Seq::empty(), fields: Seq::empty() };
            let z = seq![o];
            assert(z.drop_last() =~= Seq::<Open>::empty());
            assert(open_bytes(p, z.drop_last()) == Seq::<u8>::empty());
            assert(open_body(p, o) == Ok::<Seq<u8>, Seq<char>>(Seq::empty()));
            assert(place_of(z, 0) == Place::Root);
            assert(open_bytes(p, z) == open_bytes(p, z.drop_last()) + open_head(p, o, Place::Root) + Seq::<u8>::empty());
            assert(open_bytes(p, z) =~= root_header(p, root));
            assert(slot_ok(p, z, root_scopes(root), 0));
            (z, None)
        },
        RootType::List { id, length } => {
            if length > 0 {
                let o = Open::List { name: Seq::empty(), id, length, elements: Seq::empty() };
                let z = seq![o];
                assert(z.drop_last() =~= Seq::<Open>::empty());
                assert(open_bytes(p, z.drop_last()) == Seq::<u8>::empty());
                assert(open_body(p, o) == Ok::<Seq<u8>, Seq<char>>(Seq::empty()));
                assert(place_of(z, 0) == Place::Root);
                assert(open_bytes(p, z) == open_bytes(p, z.drop_last()) + open_head(p, o, Place::Root) + Seq::<u8>::empty());
                assert(open_bytes(p, z) =~= root_header(p, root));
                assert(slot_ok(p, z, root_scopes(root), 0));
                (z, None)
            } else {
                let t = NbtTree::List(id, Seq::empty());
                assert(enc_elements(p, id, Seq::empty()) == Ok::<Seq<u8>, Seq<char>>(Seq::empty()));
                assert(enc_list(p, id, Seq::empty()) == then(seq![id] + u32_bytes(p, 0u32), enc_elements(p, id, Seq::empty())));
                assert(root_header(p, root) =~= seq![tree_id(t)] + u16_bytes(p, 0) + (seq![id] + u32_bytes(p, 0u32) + Seq::<u8>::empty()));
                (Seq::empty(), Some(t))
            }
        },
    }
}

/// Once every container is a list with all its elements, closing the complete
/// lists leaves none open.
proof fn lemma_spent_trims_away(st: Seq<Scope>)
    requires
        all_spent(st),
    ensures
        trimmed(st).len() == 0,
    decreases st.len(),
{
    if st.len() > 0 {
        assert(is_spent(st[st.len() - 1]));
        assert(all_spent(st.drop_last())) by {
            assert forall|i: int| 0 <= i < st.drop_last().len() implies is_spent(#[trigger] st.drop_last()[i]) by {
                assert(st.drop_last()[i] == st[i]);
            }
        }
        lemma_spent_trims_away(st.drop_last());
    }
}

/// The bytes of a finished session from a new writer for `root`: every call
/// succeeded and no container is left open.
pub open spec fn session_output(p: PlatformType, root: RootType, calls: Seq<WriterCall>) -> Option<Seq<u8>> {
    match run_calls(p, root_scopes(root), root_header(p, root), calls) {
        Some((bytes, scopes)) => if all_spent(scopes) {
            Some(bytes)
        } else {
            None
        },
        None => None,
    }
}

/// A writer on which every call succeeded holds, once finished, exactly one
/// whole document: the root's id, an empty name and the payload of a list or
/// compound tree. The payload reads back as that tree wherever its texts read
/// back as themselves.
pub proof fn lemma_finished_writer_holds_document(p: PlatformType, root: RootType, calls: Seq<WriterCall>)
    requires
        root matches RootType::List { length, .. } ==> length >= 0,
        session_output(p, root, calls) is Some,
    ensures
        exists|t: NbtTree|
            #[trigger] holds_document(p, session_output(p, root, calls)->Some_0, t) && (texts_roundtrip(p, t)
                ==> wire_payload(p, tree_id(t), session_output(p, root, calls)->Some_0.skip(3))
                == Ok::<(NbtTree, Seq<u8>), Fault>((t, Seq::empty()))),
{
    let (z0, d0) = lemma_start(p, root);
    let (z1, d1) = lemma_run(p, root_scopes(root), root_header(p, root), z0, d0, calls);
    let (bytes, scopes) = run_calls(p, root_scopes(root), root_header(p, root), calls)->Some_0;
    lemma_spent_trims_away(scopes);
    let (z2, d2) = lemma_trim(p, scopes, bytes, z1, d1);
    let t = d2->Some_0;
    assert(holds_document(p, bytes, t));
    let pb = enc_payload(p, t)->Ok_0;
    assert(session_output(p, root, calls)->Some_0 == bytes);
    assert(bytes.skip(3) =~= pb);
    assert(texts_roundtrip(p, t) ==> wire_payload(p, tree_id(t), bytes.skip(3))
        == Ok::<(NbtTree, Seq<u8>), Fault>((t, Seq::empty()))) by {
        if texts_roundtrip(p, t) {
            crate::roundtrip::lemma_payload_roundtrip(p, t, Seq::empty());
            assert(pb + Seq::<u8>::empty() =~= pb);
        }
    }
}


// ----- the open containers after a run -----

/// Whether the innermost open container, if any, still expects something: a
/// compound its end, a list an element.
pub open spec fn settled(st: Seq<Scope>) -> bool {
    st.len() > 0 ==> !is_spent(st.last())
}

proof fn lemma_trimmed_settled(st: Seq<Scope>)
    ensures
        settled(trimmed(st)),
    decreases st.len(),
{
    if st.len() > 0 && is_spent(st.last()) {
        lemma_trimmed_settled(st.drop_last());
    }
}

/// Every successful call leaves the open containers settled.
proof fn lemma_run_settled(p: PlatformType, scopes: Seq<Scope>, bytes: Seq<u8>, calls: Seq<WriterCall>)
    requires
        settled(scopes),
        run_calls(p, scopes, bytes, calls) is Some,
    ensures
        settled(run_calls(p, scopes, bytes, calls)->Some_0.1),
    decreases calls.len(),
{
    if calls.len() > 0 {
        let (b, st, f) = call_effect(p, scopes, calls[0]);
        match calls[0] {
            WriterCall::Write { tag, component } => {
                let t0 = trimmed(scopes);
                if t0.len() > 0 {
                    if t0.last() is Compound {
                        lemma_trimmed_settled(opened(t0, component));
                    } else {
                        let l = t0.last();
                        lemma_trimmed_settled(opened(t0.update(t0.len() - 1, Scope::List { id: l->List_id, remaining: (l->List_remaining - 1) as i32 }), component));
                    }
                }
            },
            WriterCall::End => {
                let t0 = trimmed(scopes);
                if t0.len() > 0 {
                    lemma_trimmed_settled(t0.drop_last());
                }
            },
        }
        lemma_run_settled(p, st, bytes + b, calls.drop_first());
    }
}

/// After calls on a new writer that all succeeded, its open containers are in
/// order: no open list has been given more elements than its length (each
/// still owes a number of elements that is not negative), the innermost open
/// container still expects something, and the writer is finished
/// ([`crate::Writer::is_finished`]) exactly when no container is open.
pub proof fn lemma_writer_scopes(p: PlatformType, root: RootType, calls: Seq<WriterCall>)
    requires
        root matches RootType::List { length, .. } ==> length >= 0,
        run_calls(p, root_scopes(root), root_header(p, root), calls) is Some,
    ensures
        ({
            let scopes = run_calls(p, root_scopes(root), root_header(p, root), calls)->Some_0.1;
            &&& all_spent(scopes) <==> scopes.len() == 0
            &&& settled(scopes)
            &&& forall|i: int| 0 <= i < scopes.len() ==> (#[trigger] scopes[i] matches Scope::List { remaining, .. }
                ==> remaining >= 0)
        }),
{
    let (z0, d0) = lemma_start(p, root);
    let (z1, d1) = lemma_run(p, root_scopes(root), root_header(p, root), z0, d0, calls);
    lemma_run_settled(p, root_scopes(root), root_header(p, root), calls);
    let scopes = run_calls(p, root_scopes(root), root_header(p, root), calls)->Some_0.1;
    assert forall|i: int| 0 <= i < scopes.len() implies (#[trigger] scopes[i] matches Scope::List { remaining, .. }
        ==> remaining >= 0) by {
        assert(slot_ok(p, z1, scopes, i));
    }
    if scopes.len() > 0 {
        assert(!is_spent(scopes[scopes.len() - 1]));
    }
}

} // verus!
