//! Editing with a plan that changes nothing gives a written document back
//! byte for byte: what an edit does not touch, it copies unchanged.
use vstd::prelude::*;
use crate::byte_order::u32_bytes;
use crate::platform::PlatformType;
use crate::path::{is_prefix_path, Seg};
use crate::roundtrip::{lemma_length_roundtrip, lemma_payload_nonempty, lemma_payload_roundtrip, lemma_tag_roundtrip};
use crate::stream::{
    chooses, compound_close, create_name, decides_list, deletes_path, list_end, on_create_way, sp_compound,
    sp_document, sp_elements, sp_fields, sp_list, sp_payload, EditFault, EditPlan, Tally,
};
use crate::tag_id;
use crate::text::modified_utf8_roundtrips;
use crate::tree::{
    elements_texts_roundtrip, enc_elements, enc_field, enc_fields, enc_list, enc_payload, fields_texts_roundtrip,
    texts_roundtrip, tree_id, NbtTree,
};
use crate::wire::{enc_tag, wire_tag, wire_u8, Fault};

verus! {

/// The plan that deletes no path, decides about no list, and sets or creates
/// nothing.
pub open spec fn quiet_plan() -> EditPlan {
    EditPlan::Delete { targets: Seq::empty(), lists: None }
}

/// Whether the plan leaves the value at `q` alone: it deletes, decides, sets
/// and creates nothing there, and the path to create does not go through it.
pub open spec fn quiet_at(plan: EditPlan, q: Seq<Seg>) -> bool {
    &&& !deletes_path(plan, q)
    &&& !decides_list(plan, q)
    &&& !on_create_way(plan, q)
    &&& !(plan is Replace && chooses(plan->sel, q))
    &&& !(plan is Create && plan->segs == q)
}

/// Whether the plan leaves the value at `path` and everything below it alone.
pub open spec fn quiet_below(plan: EditPlan, path: Seq<Seg>) -> bool {
    forall|q: Seq<Seg>| is_prefix_path(path, q) ==> #[trigger] quiet_at(plan, q)
}

/// A plan quiet below a path is quiet there and below each child.
pub proof fn lemma_quiet_step(plan: EditPlan, path: Seq<Seg>, seg: Seg)
    requires
        quiet_below(plan, path),
    ensures
        quiet_at(plan, path),
        create_name(plan, path) is None,
        quiet_below(plan, path.push(seg)),
{
    assert(is_prefix_path(path, path));
    assert forall|q: Seq<Seg>| is_prefix_path(path.push(seg), q) implies #[trigger] quiet_at(plan, q) by {
        assert forall|i: int| 0 <= i < path.len() implies path[i] == q[i] by {
            assert(path[i] == path.push(seg)[i]);
        }
        assert(is_prefix_path(path, q));
    }
}

proof fn lemma_quiet_plan()
    ensures
        quiet_below(quiet_plan(), Seq::empty()),
{
    assert forall|q: Seq<Seg>| is_prefix_path(Seq::empty(), q) implies #[trigger] quiet_at(quiet_plan(), q) by {
        assert(!Seq::<Seq<char>>::empty().contains(crate::path::render(q)));
    }
}

/// A quiet edit of a written payload copies it.
#[verifier::spinoff_prover]
#[verifier::rlimit(100)]
pub proof fn lemma_copy_payload(p: PlatformType, plan: EditPlan, d: spec_fn(NbtTree) -> bool, v: NbtTree, path: Seq<Seg>, t: Tally, s: Seq<u8>)
    requires
        quiet_below(plan, path),
        enc_payload(p, v) is Ok,
        texts_roundtrip(p, v),
    ensures
        sp_payload(p, plan, d, tree_id(v), path, t, enc_payload(p, v)->Ok_0 + s)
            == Ok::<(Seq<u8>, Tally, Seq<u8>), EditFault>((enc_payload(p, v)->Ok_0, t, s)),
    decreases v, 2int,
{
    lemma_quiet_step(plan, path, Seg::Index(0));
    match v {
        NbtTree::List(id, es) => {
            lemma_copy_list(p, plan, d, id, es, path, t, s);
        },
        NbtTree::Compound(fs) => {
            lemma_copy_compound(p, plan, d, fs, path, t, s);
        },
        _ => {
            lemma_payload_roundtrip(p, v, s);
        },
    }
}

/// A quiet edit of a written compound payload copies it.
#[verifier::spinoff_prover]
#[verifier::rlimit(100)]
pub proof fn lemma_copy_compound(
    p: PlatformType,
    plan: EditPlan,
    d: spec_fn(NbtTree) -> bool,
    fs: Seq<(Seq<char>, NbtTree)>,
    path: Seq<Seg>,
    t: Tally,
    s: Seq<u8>,
)
    requires
        quiet_below(plan, path),
        enc_fields(p, fs) is Ok,
        fields_texts_roundtrip(p, fs),
    ensures
        sp_compound(p, plan, d, path, t, enc_fields(p, fs)->Ok_0.push(tag_id::END) + s)
            == Ok::<(Seq<u8>, Tally, Seq<u8>), EditFault>((enc_fields(p, fs)->Ok_0.push(tag_id::END), t, s)),
    decreases fs, 1int,
{
    lemma_quiet_step(plan, path, Seg::Index(0));
    let f = enc_fields(p, fs)->Ok_0;
    lemma_copy_fields(p, plan, d, fs, path, t, s);
    assert(f.push(tag_id::END) + s =~= f + (seq![tag_id::END] + s));
    assert(compound_close(p, plan, path, None, false, t) == Ok::<(Seq<u8>, Tally), EditFault>((seq![tag_id::END], t)));
    assert(f + seq![tag_id::END] =~= f.push(tag_id::END));
}

/// A quiet edit of written fields, and the closing TAG_End, copies the fields.
#[verifier::spinoff_prover]
#[verifier::rlimit(100)]
pub proof fn lemma_copy_fields(
    p: PlatformType,
    plan: EditPlan,
    d: spec_fn(NbtTree) -> bool,
    fs: Seq<(Seq<char>, NbtTree)>,
    path: Seq<Seg>,
    t: Tally,
    s: Seq<u8>,
)
    requires
        quiet_below(plan, path),
        enc_fields(p, fs) is Ok,
        fields_texts_roundtrip(p, fs),
    ensures
        sp_fields(p, plan, d, path, None, false, t, enc_fields(p, fs)->Ok_0 + (seq![tag_id::END] + s))
            == Ok::<(Seq<u8>, Tally, bool, Seq<u8>), EditFault>((enc_fields(p, fs)->Ok_0, t, false, s)),
    decreases fs, 0int,
{
    reveal(sp_fields);
    if fs.len() == 0 {
        assert(Seq::<u8>::empty() + (seq![tag_id::END] + s) =~= seq![tag_id::END] + s);
        assert((seq![tag_id::END] + s).skip(1) =~= s);
    } else {
        let name = fs[0].0;
        let v = fs[0].1;
        let tb = enc_tag(p, name)->Some_0;
        let pb = enc_payload(p, v)->Ok_0;
        let rest = enc_fields(p, fs.drop_first())->Ok_0;
        let tail = rest + (seq![tag_id::END] + s);
        lemma_quiet_step(plan, path, Seg::Field(name));
        lemma_quiet_step(plan, path.push(Seg::Field(name)), Seg::Index(0));
        lemma_copy_fields(p, plan, d, fs.drop_first(), path, t, s);
        lemma_copy_payload(p, plan, d, v, path.push(Seg::Field(name)), t, tail);
        lemma_payload_nonempty(p, v);
        lemma_tag_roundtrip(p, name, pb + tail);
        assert(enc_field(p, name, v)->Ok_0 == seq![tree_id(v)] + tb + pb);
        assert(enc_fields(p, fs)->Ok_0 == enc_field(p, name, v)->Ok_0 + rest);
        let whole = enc_fields(p, fs)->Ok_0 + (seq![tag_id::END] + s);
        assert(whole =~= seq![tree_id(v)] + (tb + (pb + tail)));
        assert(whole.skip(1) =~= tb + (pb + tail));
        assert(wire_u8(whole) == Ok::<(u8, Seq<u8>), Fault>((tree_id(v), tb + (pb + tail))));
        assert(tree_id(v) != tag_id::END);
        assert(wire_tag(p, tb + (pb + tail)) == Ok::<(Seq<char>, Seq<u8>), Fault>((name, pb + tail)));
        assert((pb + tail).len() < whole.len());
        assert(tail.len() < whole.len());
        assert(seq![tree_id(v)] + tb + pb + rest =~= enc_fields(p, fs)->Ok_0);
    }
}

/// A quiet edit of a written list payload copies it.
#[verifier::spinoff_prover]
#[verifier::rlimit(100)]
pub proof fn lemma_copy_list(
    p: PlatformType,
    plan: EditPlan,
    d: spec_fn(NbtTree) -> bool,
    id: u8,
    es: Seq<NbtTree>,
    path: Seq<Seg>,
    t: Tally,
    s: Seq<u8>,
)
    requires
        quiet_below(plan, path),
        enc_list(p, id, es) is Ok,
        elements_texts_roundtrip(p, es),
    ensures
        sp_list(p, plan, d, path, t, enc_list(p, id, es)->Ok_0 + s)
            == Ok::<(Seq<u8>, Tally, Seq<u8>), EditFault>((enc_list(p, id, es)->Ok_0, t, s)),
    decreases es, 1int,
{
    lemma_quiet_step(plan, path, Seg::Index(0));
    let e = enc_elements(p, id, es)->Ok_0;
    let n = es.len();
    lemma_copy_elements(p, plan, d, id, es, path, 0, n as int, Seq::empty(), t, s);
    lemma_length_roundtrip(p, n, e + s);
    let h = u32_bytes(p, n as u32);
    let whole = enc_list(p, id, es)->Ok_0 + s;
    assert(whole =~= seq![id] + (h + (e + s)));
    assert(whole.skip(1) =~= h + (e + s));
    assert(wire_u8(whole) == Ok::<(u8, Seq<u8>), Fault>((id, h + (e + s))));
    assert(Seq::<u8>::empty() + e =~= e);
    assert(list_end(p, plan, path, id, n as int, e, n as int, t) == Ok::<(u8, Seq<u8>, int, Tally), EditFault>((id, e, n as int, t)));
    assert(enc_list(p, id, es)->Ok_0 =~= seq![id] + h + e);
}

/// A quiet edit of written list elements, from the `k`th of `n` on, copies
/// them.
#[verifier::spinoff_prover]
#[verifier::rlimit(100)]
pub proof fn lemma_copy_elements(
    p: PlatformType,
    plan: EditPlan,
    d: spec_fn(NbtTree) -> bool,
    id: u8,
    es: Seq<NbtTree>,
    path: Seq<Seg>,
    k: int,
    n: int,
    out: Seq<u8>,
    t: Tally,
    s: Seq<u8>,
)
    requires
        quiet_below(plan, path),
        enc_elements(p, id, es) is Ok,
        elements_texts_roundtrip(p, es),
        0 <= k,
        k + es.len() == n,
        n <= i32::MAX,
    ensures
        sp_elements(p, plan, d, path, id, false, k, n, out, k, false, t, enc_elements(p, id, es)->Ok_0 + s)
            == Ok::<(Seq<u8>, int, bool, Tally, Seq<u8>), EditFault>((out + enc_elements(p, id, es)->Ok_0, n, false, t, s)),
    decreases es, 0int,
{
    reveal(sp_elements);
    if es.len() == 0 {
        assert(Seq::<u8>::empty() + s =~= s);
        assert(out + Seq::<u8>::empty() =~= out);
    } else {
        let b0 = enc_payload(p, es[0])->Ok_0;
        let rest = enc_elements(p, id, es.drop_first())->Ok_0;
        let epath = path.push(Seg::Index(k as usize));
        lemma_quiet_step(plan, path, Seg::Index(k as usize));
        lemma_quiet_step(plan, epath, Seg::Index(0));
        lemma_copy_payload(p, plan, d, es[0], epath, t, rest + s);
        lemma_payload_nonempty(p, es[0]);
        lemma_copy_elements(p, plan, d, id, es.drop_first(), path, k + 1, n, out + b0, t, s);
        assert(tree_id(es[0]) == id);
        assert(enc_elements(p, id, es)->Ok_0 == b0 + rest);
        let whole = enc_elements(p, id, es)->Ok_0 + s;
        assert(whole =~= b0 + (rest + s));
        assert((rest + s).len() < whole.len());
        assert(out + b0 + rest =~= out + (b0 + rest));
    }
}

/// Editing a written document with the plan that changes nothing gives the
/// document back byte for byte, with the counts unchanged.
#[verifier::spinoff_prover]
#[verifier::rlimit(100)]
pub proof fn lemma_quiet_edit_copies(p: PlatformType, d: spec_fn(NbtTree) -> bool, name: Seq<char>, v: NbtTree, t: Tally)
    requires
        v is List || v is Compound,
        enc_tag(p, name) is Some,
        enc_payload(p, v) is Ok,
        modified_utf8_roundtrips(name),
        texts_roundtrip(p, v),
    ensures
        ({
            let doc = seq![tree_id(v)] + enc_tag(p, name)->Some_0 + enc_payload(p, v)->Ok_0;
            sp_document(p, quiet_plan(), d, t, doc) == Ok::<(Seq<u8>, Tally), EditFault>((doc, t))
        }),
{
    let tb = enc_tag(p, name)->Some_0;
    let b = enc_payload(p, v)->Ok_0;
    let doc = seq![tree_id(v)] + tb + b;
    lemma_quiet_plan();
    lemma_copy_payload(p, quiet_plan(), d, v, Seq::empty(), t, Seq::empty());
    lemma_tag_roundtrip(p, name, b);
    assert(b + Seq::<u8>::empty() =~= b);
    assert(doc =~= seq![tree_id(v)] + (tb + b));
    assert(doc.skip(1) =~= tb + b);
    assert(wire_u8(doc) == Ok::<(u8, Seq<u8>), Fault>((tree_id(v), tb + b)));
}

} // verus!
