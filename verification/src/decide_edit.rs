//! What a streaming delete edit by decision does to a written document, in
//! terms of its tree: the compound elements of the chosen lists that the
//! decision picks are left out.
use vstd::prelude::*;
use crate::byte_order::u32_bytes;
use crate::path::{render, Seg};
use crate::platform::PlatformType;
use crate::roundtrip::{lemma_length_roundtrip, lemma_payload_nonempty, lemma_payload_roundtrip, lemma_tag_roundtrip};
use crate::stream::{
    compound_close, create_name, decides_list, deletes_path, list_end, on_create_way, sp_compound, sp_document,
    sp_elements, sp_fields, sp_list, sp_payload, EditFault, EditPlan, Tally,
};
use crate::tag_id;
use crate::text::modified_utf8_roundtrips;
use crate::tree::{
    elements_texts_roundtrip, enc_elements, enc_field, enc_fields, enc_list, enc_payload, fields_texts_roundtrip,
    texts_roundtrip, then, tree_id, NbtTree,
};
use crate::wire::{enc_tag, wire_tag, wire_u8, Fault};

verus! {

/// `v` with the compound elements that `dec` picks left out of each list of
/// compounds whose path text is in `lists`; a list that loses all its elements
/// becomes a list of TAG_End. `path` is v's own path.
pub open spec fn decided(v: NbtTree, lists: Seq<Seq<char>>, dec: spec_fn(NbtTree) -> bool, path: Seq<Seg>) -> NbtTree
    decreases v, 2int,
{
    match v {
        NbtTree::List(id, es) => {
            let kept = decided_elements(es, id, lists.contains(render(path)), lists, dec, path, 0);
            NbtTree::List(if kept.len() == 0 && kept.len() < es.len() { tag_id::END } else { id }, kept)
        },
        NbtTree::Compound(fs) => NbtTree::Compound(decided_fields(fs, lists, dec, path)),
        _ => v,
    }
}

/// [`decided`] for the elements of a list of kind `id`, the first of which is
/// number `k`: in a chosen list of compounds, the elements `dec` does not
/// pick, as they are; otherwise each element decided.
pub open spec fn decided_elements(
    es: Seq<NbtTree>,
    id: u8,
    chosen: bool,
    lists: Seq<Seq<char>>,
    dec: spec_fn(NbtTree) -> bool,
    path: Seq<Seg>,
    k: int,
) -> Seq<NbtTree>
    decreases es, 1int,
{
    if es.len() == 0 {
        Seq::empty()
    } else {
        (if chosen && id == tag_id::COMPOUND {
            if dec(es[0]) {
                Seq::empty()
            } else {
                seq![es[0]]
            }
        } else {
            seq![decided(es[0], lists, dec, path.push(Seg::Index(k as usize)))]
        }) + decided_elements(es.drop_first(), id, chosen, lists, dec, path, k + 1)
    }
}

/// [`decided`] for compound fields.
pub open spec fn decided_fields(
    fs: Seq<(Seq<char>, NbtTree)>,
    lists: Seq<Seq<char>>,
    dec: spec_fn(NbtTree) -> bool,
    path: Seq<Seg>,
) -> Seq<(Seq<char>, NbtTree)>
    decreases fs, 1int,
{
    if fs.len() == 0 {
        Seq::empty()
    } else {
        seq![(fs[0].0, decided(fs[0].1, lists, dec, path.push(Seg::Field(fs[0].0))))] + decided_fields(
            fs.drop_first(),
            lists,
            dec,
            path,
        )
    }
}

proof fn lemma_decide_plan(tg: Seq<Seq<char>>, ls: Seq<Seq<char>>, path: Seq<Seg>)
    ensures
        !deletes_path(EditPlan::Delete { targets: tg, lists: Some(ls) }, path),
        decides_list(EditPlan::Delete { targets: tg, lists: Some(ls) }, path) == ls.contains(render(path)),
        !on_create_way(EditPlan::Delete { targets: tg, lists: Some(ls) }, path),
        create_name(EditPlan::Delete { targets: tg, lists: Some(ls) }, path) is None,
{
}

proof fn lemma_decided_elements_len(
    es: Seq<NbtTree>,
    id: u8,
    chosen: bool,
    ls: Seq<Seq<char>>,
    d: spec_fn(NbtTree) -> bool,
    path: Seq<Seg>,
    k: int,
)
    ensures
        decided_elements(es, id, chosen, ls, d, path, k).len() <= es.len(),
    decreases es.len(),
{
    if es.len() > 0 {
        lemma_decided_elements_len(es.drop_first(), id, chosen, ls, d, path, k + 1);
    }
}

/// A successful delete edit by decision of a written payload writes the
/// payload of the decided value, which keeps its kind, and leaves what
/// followed.
#[verifier::spinoff_prover]
#[verifier::rlimit(100)]
proof fn lemma_decide_payload(
    p: PlatformType,
    tg: Seq<Seq<char>>,
    ls: Seq<Seq<char>>,
    d: spec_fn(NbtTree) -> bool,
    v: NbtTree,
    path: Seq<Seg>,
    t: Tally,
    s: Seq<u8>,
)
    requires
        enc_payload(p, v) is Ok,
        texts_roundtrip(p, v),
    ensures
        sp_payload(p, EditPlan::Delete { targets: tg, lists: Some(ls) }, d, tree_id(v), path, t, enc_payload(p, v)->Ok_0
            + s) matches Ok((b, _, r)) ==> r == s && enc_payload(p, decided(v, ls, d, path)) == Ok::<Seq<u8>, Seq<char>>(b)
            && tree_id(decided(v, ls, d, path)) == tree_id(v),
    decreases v, 2int,
{
    lemma_decide_plan(tg, ls, path);
    match v {
        NbtTree::List(id, es) => {
            lemma_decide_list(p, tg, ls, d, id, es, path, t, s);
        },
        NbtTree::Compound(fs) => {
            lemma_decide_compound(p, tg, ls, d, fs, path, t, s);
        },
        _ => {
            lemma_payload_roundtrip(p, v, s);
        },
    }
}

/// A successful delete edit by decision of a written compound payload writes
/// the compound of the decided fields.
#[verifier::spinoff_prover]
#[verifier::rlimit(100)]
proof fn lemma_decide_compound(
    p: PlatformType,
    tg: Seq<Seq<char>>,
    ls: Seq<Seq<char>>,
    d: spec_fn(NbtTree) -> bool,
    fs: Seq<(Seq<char>, NbtTree)>,
    path: Seq<Seg>,
    t: Tally,
    s: Seq<u8>,
)
    requires
        enc_fields(p, fs) is Ok,
        fields_texts_roundtrip(p, fs),
    ensures
        sp_compound(p, EditPlan::Delete { targets: tg, lists: Some(ls) }, d, path, t, enc_fields(p, fs)->Ok_0.push(
            tag_id::END,
        ) + s) matches Ok((b, _, r)) ==> r == s && enc_payload(p, NbtTree::Compound(decided_fields(fs, ls, d, path)))
            == Ok::<Seq<u8>, Seq<char>>(b),
    decreases fs, 1int,
{
    let plan = EditPlan::Delete { targets: tg, lists: Some(ls) };
    lemma_decide_plan(tg, ls, path);
    let f = enc_fields(p, fs)->Ok_0;
    lemma_decide_fields(p, tg, ls, d, fs, path, t, s);
    assert(f.push(tag_id::END) + s =~= f + (seq![tag_id::END] + s));
    if let Ok((out, t2, found, r)) = sp_fields(p, plan, d, path, None, false, t, f + (seq![tag_id::END] + s)) {
        assert(compound_close(p, plan, path, None, found, t2) == Ok::<(Seq<u8>, Tally), EditFault>((seq![tag_id::END], t2)));
        assert(out + seq![tag_id::END] =~= out.push(tag_id::END));
    }
}

/// A successful delete edit by decision of written fields, and the closing
/// TAG_End, writes the decided fields.
#[verifier::spinoff_prover]
#[verifier::rlimit(100)]
proof fn lemma_decide_fields(
    p: PlatformType,
    tg: Seq<Seq<char>>,
    ls: Seq<Seq<char>>,
    d: spec_fn(NbtTree) -> bool,
    fs: Seq<(Seq<char>, NbtTree)>,
    path: Seq<Seg>,
    t: Tally,
    s: Seq<u8>,
)
    requires
        enc_fields(p, fs) is Ok,
        fields_texts_roundtrip(p, fs),
    ensures
        sp_fields(p, EditPlan::Delete { targets: tg, lists: Some(ls) }, d, path, None, false, t, enc_fields(p, fs)->Ok_0
            + (seq![tag_id::END] + s)) matches Ok((out, _, found, r)) ==> r == s && !found && enc_fields(
            p,
            decided_fields(fs, ls, d, path),
        ) == Ok::<Seq<u8>, Seq<char>>(out),
    decreases fs, 0int,
{
    reveal(sp_fields);
    let plan = EditPlan::Delete { targets: tg, lists: Some(ls) };
    if fs.len() == 0 {
        assert(Seq::<u8>::empty() + (seq![tag_id::END] + s) =~= seq![tag_id::END] + s);
        assert((seq![tag_id::END] + s).skip(1) =~= s);
    } else {
        let name = fs[0].0;
        let v = fs[0].1;
        let fpath = path.push(Seg::Field(name));
        let tb = enc_tag(p, name)->Some_0;
        let pb = enc_payload(p, v)->Ok_0;
        let rest = enc_fields(p, fs.drop_first())->Ok_0;
        let tail = rest + (seq![tag_id::END] + s);
        lemma_decide_plan(tg, ls, fpath);
        lemma_payload_nonempty(p, v);
        lemma_tag_roundtrip(p, name, pb + tail);
        assert(enc_field(p, name, v)->Ok_0 == seq![tree_id(v)] + tb + pb);
        assert(enc_fields(p, fs)->Ok_0 == enc_field(p, name, v)->Ok_0 + rest);
        let whole = enc_fields(p, fs)->Ok_0 + (seq![tag_id::END] + s);
        assert(whole =~= seq![tree_id(v)] + (tb + (pb + tail)));
        assert(whole.skip(1) =~= tb + (pb + tail));
        assert(wire_u8(whole) == Ok::<(u8, Seq<u8>), Fault>((tree_id(v), tb + (pb + tail))));
        assert(tree_id(v) != tag_id::END);
        assert(wire_tag(p, tb + (pb + tail)) == Ok::<(Seq<char>, Seq<u8>), Fault>((name, pb + tail)));
        assert((pb + tail).len() < whole.len());
        assert(tail.len() < whole.len());
        assert(None::<Seq<char>> != Some(name));
        lemma_decide_payload(p, tg, ls, d, v, fpath, t, tail);
        if let Ok((b, t2, r3)) = sp_payload(p, plan, d, tree_id(v), fpath, t, pb + tail) {
            lemma_decide_fields(p, tg, ls, d, fs.drop_first(), path, t2, s);
            let rv = decided(v, ls, d, fpath);
            let df = decided_fields(fs, ls, d, path);
            assert(df[0] == (name, rv));
            assert(df.drop_first() =~= decided_fields(fs.drop_first(), ls, d, path));
            assert(enc_field(p, name, rv) == then(seq![tree_id(rv)] + tb, enc_payload(p, rv)));
            if let Ok((out2, t3, found2, r4)) = sp_fields(p, plan, d, path, None, false, t2, tail) {
                assert(seq![tree_id(v)] + tb + b + out2 =~= (seq![tree_id(v)] + tb + b) + out2);
            }
        }
    }
}

/// A successful delete edit by decision of a written list payload writes the
/// list of the decided elements.
#[verifier::spinoff_prover]
#[verifier::rlimit(100)]
proof fn lemma_decide_list(
    p: PlatformType,
    tg: Seq<Seq<char>>,
    ls: Seq<Seq<char>>,
    d: spec_fn(NbtTree) -> bool,
    id: u8,
    es: Seq<NbtTree>,
    path: Seq<Seg>,
    t: Tally,
    s: Seq<u8>,
)
    requires
        enc_list(p, id, es) is Ok,
        elements_texts_roundtrip(p, es),
    ensures
        sp_list(p, EditPlan::Delete { targets: tg, lists: Some(ls) }, d, path, t, enc_list(p, id, es)->Ok_0 + s) matches Ok(
            (b, _, r),
        ) ==> r == s && enc_payload(p, decided(NbtTree::List(id, es), ls, d, path)) == Ok::<Seq<u8>, Seq<char>>(b),
    decreases es, 1int,
{
    let plan = EditPlan::Delete { targets: tg, lists: Some(ls) };
    lemma_decide_plan(tg, ls, path);
    let chosen = ls.contains(render(path));
    let e = enc_elements(p, id, es)->Ok_0;
    let n = es.len();
    lemma_decide_elements(p, tg, ls, d, id, es, chosen, path, 0, n as int, Seq::empty(), 0, false, t, s);
    lemma_length_roundtrip(p, n, e + s);
    lemma_decided_elements_len(es, id, chosen, ls, d, path, 0);
    let h = u32_bytes(p, n as u32);
    let whole = enc_list(p, id, es)->Ok_0 + s;
    assert(whole =~= seq![id] + (h + (e + s)));
    assert(whole.skip(1) =~= h + (e + s));
    assert(wire_u8(whole) == Ok::<(u8, Seq<u8>), Fault>((id, h + (e + s))));
    let kept = decided_elements(es, id, chosen, ls, d, path, 0);
    if let Ok((out, olen, del, t2, rest)) = sp_elements(p, plan, d, path, id, chosen, 0, n as int, Seq::empty(), 0, false, t, e + s) {
        assert(list_end(p, plan, path, id, n as int, out, olen, t2) == Ok::<(u8, Seq<u8>, int, Tally), EditFault>((id, out, olen, t2)));
        assert(Seq::<u8>::empty() + enc_elements(p, id, kept)->Ok_0 =~= enc_elements(p, id, kept)->Ok_0);
        let id2 = if kept.len() == 0 && kept.len() < es.len() { tag_id::END } else { id };
        assert(enc_elements(p, id2, kept) == enc_elements(p, id, kept)) by {
            if kept.len() == 0 {
                assert(enc_elements(p, id2, kept) == Ok::<Seq<u8>, Seq<char>>(Seq::empty()));
                assert(enc_elements(p, id, kept) == Ok::<Seq<u8>, Seq<char>>(Seq::empty()));
            }
        }
        assert(enc_list(p, id2, kept) == then(seq![id2] + u32_bytes(p, kept.len() as u32), enc_elements(p, id2, kept)));
    }
}

/// A successful delete edit by decision of written list elements, from the
/// `k`th of `n` on, writes the decided ones after `out`, counting them on from
/// `olen`.
#[verifier::spinoff_prover]
#[verifier::rlimit(100)]
proof fn lemma_decide_elements(
    p: PlatformType,
    tg: Seq<Seq<char>>,
    ls: Seq<Seq<char>>,
    d: spec_fn(NbtTree) -> bool,
    id: u8,
    es: Seq<NbtTree>,
    chosen: bool,
    path: Seq<Seg>,
    k: int,
    n: int,
    out: Seq<u8>,
    olen: int,
    deleted: bool,
    t: Tally,
    s: Seq<u8>,
)
    requires
        enc_elements(p, id, es) is Ok,
        elements_texts_roundtrip(p, es),
        0 <= k,
        k + es.len() == n,
        n <= i32::MAX,
        0 <= olen <= k,
    ensures
        sp_elements(p, EditPlan::Delete { targets: tg, lists: Some(ls) }, d, path, id, chosen, k, n, out, olen, deleted, t,
            enc_elements(p, id, es)->Ok_0 + s) matches Ok((out2, olen2, del2, _, r)) ==> r == s && olen2 == olen
            + decided_elements(es, id, chosen, ls, d, path, k).len() && del2 == (deleted || decided_elements(
            es,
            id,
            chosen,
            ls,
            d,
            path,
            k,
        ).len() < es.len()) && enc_elements(p, id, decided_elements(es, id, chosen, ls, d, path, k)) is Ok && out2
            == out + enc_elements(p, id, decided_elements(es, id, chosen, ls, d, path, k))->Ok_0,
    decreases es, 0int,
{
    reveal(sp_elements);
    let plan = EditPlan::Delete { targets: tg, lists: Some(ls) };
    if es.len() == 0 {
        assert(Seq::<u8>::empty() + s =~= s);
        assert(out + Seq::<u8>::empty() =~= out);
    } else {
        let v = es[0];
        let b0 = enc_payload(p, v)->Ok_0;
        let rest = enc_elements(p, id, es.drop_first())->Ok_0;
        let epath = path.push(Seg::Index(k as usize));
        lemma_decide_plan(tg, ls, epath);
        lemma_payload_nonempty(p, v);
        lemma_decided_elements_len(es.drop_first(), id, chosen, ls, d, path, k + 1);
        assert(tree_id(v) == id);
        assert(enc_elements(p, id, es)->Ok_0 == b0 + rest);
        let whole = enc_elements(p, id, es)->Ok_0 + s;
        assert(whole =~= b0 + (rest + s));
        assert((rest + s).len() < whole.len());
        let ke = decided_elements(es, id, chosen, ls, d, path, k);
        let kr = decided_elements(es.drop_first(), id, chosen, ls, d, path, k + 1);
        if chosen && id == tag_id::COMPOUND {
            lemma_payload_roundtrip(p, v, rest + s);
            if d(v) {
                assert(ke =~= kr);
                lemma_decide_elements(p, tg, ls, d, id, es.drop_first(), chosen, path, k + 1, n, out, olen, true,
                    Tally { deleted: t.deleted + 1, ..t }, s);
            } else {
                assert(ke[0] == v);
                assert(ke.drop_first() =~= kr);
                lemma_decide_elements(p, tg, ls, d, id, es.drop_first(), chosen, path, k + 1, n, out + b0, olen + 1,
                    deleted, t, s);
                if let Ok((out2, olen2, del2, t3, r2)) = sp_elements(p, plan, d, path, id, chosen, k + 1, n, out + b0, olen + 1, deleted, t, rest + s) {
                    let eb = enc_elements(p, id, kr)->Ok_0;
                    assert(out + b0 + eb =~= out + (b0 + eb));
                }
            }
        } else {
            lemma_decide_payload(p, tg, ls, d, v, epath, t, rest + s);
            if let Ok((b, t2, r)) = sp_payload(p, plan, d, id, epath, t, b0 + (rest + s)) {
                lemma_decide_elements(p, tg, ls, d, id, es.drop_first(), chosen, path, k + 1, n, out + b, olen + 1,
                    deleted, t2, s);
                let rv = decided(v, ls, d, epath);
                assert(ke[0] == rv);
                assert(ke.drop_first() =~= kr);
                if let Ok((out2, olen2, del2, t3, r2)) = sp_elements(p, plan, d, path, id, chosen, k + 1, n, out + b, olen + 1, deleted, t2, rest + s) {
                    let eb = enc_elements(p, id, kr)->Ok_0;
                    assert(out + b + eb =~= out + (b + eb));
                }
            }
        }
    }
}

/// A delete edit by decision of a written document that succeeds writes the
/// document without the compound elements that the decision picks in the
/// lists of compounds whose path texts are chosen; a list that loses all its
/// elements becomes a list of TAG_End.
#[verifier::spinoff_prover]
#[verifier::rlimit(100)]
pub proof fn lemma_decide_edit_keeps_the_rest(
    p: PlatformType,
    tg: Seq<Seq<char>>,
    ls: Seq<Seq<char>>,
    d: spec_fn(NbtTree) -> bool,
    name: Seq<char>,
    v: NbtTree,
    t: Tally,
)
    requires
        v is List || v is Compound,
        enc_tag(p, name) is Some,
        enc_payload(p, v) is Ok,
        modified_utf8_roundtrips(name),
        texts_roundtrip(p, v),
    ensures
        sp_document(
            p,
            EditPlan::Delete { targets: tg, lists: Some(ls) },
            d,
            t,
            seq![tree_id(v)] + enc_tag(p, name)->Some_0 + enc_payload(p, v)->Ok_0,
        ) matches Ok((out, _)) ==> enc_payload(p, decided(v, ls, d, Seq::empty())) is Ok && out == seq![tree_id(v)]
            + enc_tag(p, name)->Some_0 + enc_payload(p, decided(v, ls, d, Seq::empty()))->Ok_0,
{
    let tb = enc_tag(p, name)->Some_0;
    let b = enc_payload(p, v)->Ok_0;
    let doc = seq![tree_id(v)] + tb + b;
    lemma_decide_payload(p, tg, ls, d, v, Seq::empty(), t, Seq::empty());
    lemma_tag_roundtrip(p, name, b);
    assert(b + Seq::<u8>::empty() =~= b);
    assert(doc =~= seq![tree_id(v)] + (tb + b));
    assert(doc.skip(1) =~= tb + b);
    assert(wire_u8(doc) == Ok::<(u8, Seq<u8>), Fault>((tree_id(v), tb + b)));
}

} // verus!
