//! What a set edit does to a written document, in terms of its tree: every
//! chosen value that holds no others is replaced, and everything else stays.
use vstd::prelude::*;
use crate::byte_order::u32_bytes;
use crate::platform::PlatformType;
use crate::path::{is_prefix_path, Seg};
use crate::create_edit::single_on_way;
use crate::edit::{field_position, lookup, replace_at};
use crate::roundtrip::{lemma_length_roundtrip, lemma_payload_nonempty, lemma_payload_roundtrip, lemma_tag_roundtrip};
use crate::stream::{
    chooses, compound_close, create_name, decides_list, deletes_path, list_end, on_create_way, replacement,
    sp_compound, sp_document, sp_elements, sp_fields, sp_list, sp_payload, EditFault, EditPlan, SelView, Tally,
};
use crate::tag_id;
use crate::text::modified_utf8_roundtrips;
use crate::tree::{
    elements_texts_roundtrip, enc_elements, enc_field, enc_fields, enc_list, enc_payload, fields_texts_roundtrip,
    texts_roundtrip, then, tree_id, NbtTree,
};
use crate::wire::{enc_tag, wire_tag, wire_u8, Fault};

verus! {

/// `v` with every value that holds no others and whose path the selector
/// chooses replaced by the replacement for its kind; `path` is v's own path.
pub open spec fn replaced(v: NbtTree, sel: SelView, values: Seq<Result<NbtTree, Seq<char>>>, path: Seq<Seg>) -> NbtTree
    decreases v, 2int,
{
    match v {
        NbtTree::List(id, es) => NbtTree::List(id, replaced_elements(es, sel, values, path, 0)),
        NbtTree::Compound(fs) => NbtTree::Compound(replaced_fields(fs, sel, values, path)),
        _ => if chooses(sel, path) {
            replacement(values, tree_id(v))->Ok_0
        } else {
            v
        },
    }
}

/// [`replaced`] for list elements, the first of which is number `k`.
pub open spec fn replaced_elements(
    es: Seq<NbtTree>,
    sel: SelView,
    values: Seq<Result<NbtTree, Seq<char>>>,
    path: Seq<Seg>,
    k: int,
) -> Seq<NbtTree>
    decreases es, 1int,
{
    if es.len() == 0 {
        Seq::empty()
    } else {
        seq![replaced(es[0], sel, values, path.push(Seg::Index(k as usize)))] + replaced_elements(
            es.drop_first(),
            sel,
            values,
            path,
            k + 1,
        )
    }
}

/// [`replaced`] for compound fields.
pub open spec fn replaced_fields(
    fs: Seq<(Seq<char>, NbtTree)>,
    sel: SelView,
    values: Seq<Result<NbtTree, Seq<char>>>,
    path: Seq<Seg>,
) -> Seq<(Seq<char>, NbtTree)>
    decreases fs, 1int,
{
    if fs.len() == 0 {
        Seq::empty()
    } else {
        seq![(fs[0].0, replaced(fs[0].1, sel, values, path.push(Seg::Field(fs[0].0))))] + replaced_fields(
            fs.drop_first(),
            sel,
            values,
            path,
        )
    }
}

/// Whether each replacement in the table is a value of the kind it is for.
pub open spec fn same_kinds(values: Seq<Result<NbtTree, Seq<char>>>) -> bool {
    forall|id: int| 0 <= id < values.len() && #[trigger] values[id] is Ok ==> tree_id(values[id]->Ok_0) == id
}

proof fn lemma_set_plan(sel: SelView, values: Seq<Result<NbtTree, Seq<char>>>, path: Seq<Seg>)
    ensures
        !deletes_path(EditPlan::Replace { sel, values }, path),
        !decides_list(EditPlan::Replace { sel, values }, path),
        !on_create_way(EditPlan::Replace { sel, values }, path),
        create_name(EditPlan::Replace { sel, values }, path) is None,
{
}

proof fn lemma_replaced_elements_len(
    es: Seq<NbtTree>,
    sel: SelView,
    values: Seq<Result<NbtTree, Seq<char>>>,
    path: Seq<Seg>,
    k: int,
)
    ensures
        replaced_elements(es, sel, values, path, k).len() == es.len(),
    decreases es.len(),
{
    if es.len() > 0 {
        lemma_replaced_elements_len(es.drop_first(), sel, values, path, k + 1);
    }
}

/// A successful set edit of a written payload writes the payload of the
/// replaced value, which keeps its kind, and leaves what followed.
#[verifier::spinoff_prover]
#[verifier::rlimit(100)]
proof fn lemma_set_payload(
    p: PlatformType,
    sel: SelView,
    values: Seq<Result<NbtTree, Seq<char>>>,
    d: spec_fn(NbtTree) -> bool,
    v: NbtTree,
    path: Seq<Seg>,
    t: Tally,
    s: Seq<u8>,
)
    requires
        enc_payload(p, v) is Ok,
        texts_roundtrip(p, v),
        same_kinds(values),
    ensures
        sp_payload(p, EditPlan::Replace { sel, values }, d, tree_id(v), path, t, enc_payload(p, v)->Ok_0 + s) matches Ok(
            (b, _, r),
        ) ==> r == s && enc_payload(p, replaced(v, sel, values, path)) == Ok::<Seq<u8>, Seq<char>>(b) && tree_id(
            replaced(v, sel, values, path),
        ) == tree_id(v),
    decreases v, 2int,
{
    let plan = EditPlan::Replace { sel, values };
    lemma_set_plan(sel, values, path);
    match v {
        NbtTree::List(id, es) => {
            lemma_set_list(p, sel, values, d, id, es, path, t, s);
        },
        NbtTree::Compound(fs) => {
            lemma_set_compound(p, sel, values, d, fs, path, t, s);
        },
        _ => {
            lemma_payload_roundtrip(p, v, s);
            if chooses(sel, path) {
                let id = tree_id(v);
                if id < values.len() && values[id as int] is Ok {
                    assert(tree_id(values[id as int]->Ok_0) == id);
                }
            }
        },
    }
}

/// A successful set edit of a written compound payload writes the compound
/// of the replaced fields.
#[verifier::spinoff_prover]
#[verifier::rlimit(100)]
proof fn lemma_set_compound(
    p: PlatformType,
    sel: SelView,
    values: Seq<Result<NbtTree, Seq<char>>>,
    d: spec_fn(NbtTree) -> bool,
    fs: Seq<(Seq<char>, NbtTree)>,
    path: Seq<Seg>,
    t: Tally,
    s: Seq<u8>,
)
    requires
        enc_fields(p, fs) is Ok,
        fields_texts_roundtrip(p, fs),
        same_kinds(values),
    ensures
        sp_compound(p, EditPlan::Replace { sel, values }, d, path, t, enc_fields(p, fs)->Ok_0.push(tag_id::END) + s) matches Ok(
            (b, _, r),
        ) ==> r == s && enc_payload(p, NbtTree::Compound(replaced_fields(fs, sel, values, path)))
            == Ok::<Seq<u8>, Seq<char>>(b),
    decreases fs, 1int,
{
    let plan = EditPlan::Replace { sel, values };
    lemma_set_plan(sel, values, path);
    let f = enc_fields(p, fs)->Ok_0;
    lemma_set_fields(p, sel, values, d, fs, path, t, s);
    assert(f.push(tag_id::END) + s =~= f + (seq![tag_id::END] + s));
    if let Ok((out, t2, found, r)) = sp_fields(p, plan, d, path, None, false, t, f + (seq![tag_id::END] + s)) {
        assert(compound_close(p, plan, path, None, found, t2) == Ok::<(Seq<u8>, Tally), EditFault>((seq![tag_id::END], t2)));
        assert(out + seq![tag_id::END] =~= out.push(tag_id::END));
    }
}

/// A successful set edit of written fields, and the closing TAG_End, writes
/// the replaced fields.
#[verifier::spinoff_prover]
#[verifier::rlimit(100)]
proof fn lemma_set_fields(
    p: PlatformType,
    sel: SelView,
    values: Seq<Result<NbtTree, Seq<char>>>,
    d: spec_fn(NbtTree) -> bool,
    fs: Seq<(Seq<char>, NbtTree)>,
    path: Seq<Seg>,
    t: Tally,
    s: Seq<u8>,
)
    requires
        enc_fields(p, fs) is Ok,
        fields_texts_roundtrip(p, fs),
        same_kinds(values),
    ensures
        sp_fields(p, EditPlan::Replace { sel, values }, d, path, None, false, t, enc_fields(p, fs)->Ok_0 + (seq![
            tag_id::END,
        ] + s)) matches Ok((out, _, found, r)) ==> r == s && !found && enc_fields(
            p,
            replaced_fields(fs, sel, values, path),
        ) == Ok::<Seq<u8>, Seq<char>>(out),
    decreases fs, 0int,
{
    reveal(sp_fields);
    let plan = EditPlan::Replace { sel, values };
    if fs.len() == 0 {
        assert(Seq::<u8>::empty() + (seq![tag_id::END] + s) =~= seq![tag_id::END] + s);
        assert((seq![tag_id::END] + s).skip(1) =~= s);
    } else {
        let name = fs[0].0;
        let v = fs[0].1;
        let fpath = path.push(Seg::Field(name));
        let tb = enc_tag(p, name)->Some_0;
        let pb = enc_payload(p, v)->Ok_0;
        let rest = enc_fields(p, fs.drop_first())->Ok_0;
        let tail = rest + (seq![tag_id::END] + s);
        lemma_set_plan(sel, values, fpath);
        lemma_set_payload(p, sel, values, d, v, fpath, t, tail);
        lemma_payload_nonempty(p, v);
        lemma_tag_roundtrip(p, name, pb + tail);
        assert(enc_field(p, name, v)->Ok_0 == seq![tree_id(v)] + tb + pb);
        assert(enc_fields(p, fs)->Ok_0 == enc_field(p, name, v)->Ok_0 + rest);
        let whole = enc_fields(p, fs)->Ok_0 + (seq![tag_id::END] + s);
        assert(whole =~= seq![tree_id(v)] + (tb + (pb + tail)));
        assert(whole.skip(1) =~= tb + (pb + tail));
        assert(wire_u8(whole) == Ok::<(u8, Seq<u8>), Fault>((tree_id(v), tb + (pb + tail))));
        assert(tree_id(v) != tag_id::END);
        assert(wire_tag(p, tb + (pb + tail)) == Ok::<(Seq<char>, Seq<u8>), Fault>((name, pb + tail)));
        assert((pb + tail).len() < whole.len());
        assert(None::<Seq<char>> != Some(name));
        if let Ok((b, t2, r3)) = sp_payload(p, plan, d, tree_id(v), fpath, t, pb + tail) {
            assert(r3 == tail);
            assert(tail.len() < whole.len());
            lemma_set_fields(p, sel, values, d, fs.drop_first(), path, t2, s);
            let rv = replaced(v, sel, values, fpath);
            let rf = replaced_fields(fs, sel, values, path);
            assert(rf[0] == (name, rv));
            assert(rf.drop_first() =~= replaced_fields(fs.drop_first(), sel, values, path));
            assert(enc_field(p, name, rv) == then(seq![tree_id(rv)] + tb, enc_payload(p, rv)));
            if let Ok((out2, t3, found2, r4)) = sp_fields(p, plan, d, path, None, false, t2, tail) {
                assert(seq![tree_id(v)] + tb + b + out2 =~= (seq![tree_id(v)] + tb + b) + out2);
            }
        }
    }
}

/// A successful set edit of a written list payload writes the list of the
/// replaced elements.
#[verifier::spinoff_prover]
#[verifier::rlimit(100)]
proof fn lemma_set_list(
    p: PlatformType,
    sel: SelView,
    values: Seq<Result<NbtTree, Seq<char>>>,
    d: spec_fn(NbtTree) -> bool,
    id: u8,
    es: Seq<NbtTree>,
    path: Seq<Seg>,
    t: Tally,
    s: Seq<u8>,
)
    requires
        enc_list(p, id, es) is Ok,
        elements_texts_roundtrip(p, es),
        same_kinds(values),
    ensures
        sp_list(p, EditPlan::Replace { sel, values }, d, path, t, enc_list(p, id, es)->Ok_0 + s) matches Ok((b, _, r))
            ==> r == s && enc_list(p, id, replaced_elements(es, sel, values, path, 0)) == Ok::<Seq<u8>, Seq<char>>(b),
    decreases es, 1int,
{
    let plan = EditPlan::Replace { sel, values };
    lemma_set_plan(sel, values, path);
    let e = enc_elements(p, id, es)->Ok_0;
    let n = es.len();
    lemma_set_elements(p, sel, values, d, id, es, path, 0, n as int, Seq::empty(), t, s);
    lemma_length_roundtrip(p, n, e + s);
    lemma_replaced_elements_len(es, sel, values, path, 0);
    let h = u32_bytes(p, n as u32);
    let whole = enc_list(p, id, es)->Ok_0 + s;
    assert(whole =~= seq![id] + (h + (e + s)));
    assert(whole.skip(1) =~= h + (e + s));
    assert(wire_u8(whole) == Ok::<(u8, Seq<u8>), Fault>((id, h + (e + s))));
    if let Ok((out, olen, del, t2, rest)) = sp_elements(p, plan, d, path, id, false, 0, n as int, Seq::empty(), 0, false, t, e + s) {
        assert(list_end(p, plan, path, id, n as int, out, olen, t2) == Ok::<(u8, Seq<u8>, int, Tally), EditFault>((id, out, olen, t2)));
        assert(Seq::<u8>::empty() + out =~= out);
    }
}

/// A successful set edit of written list elements, from the `k`th of `n` on,
/// writes the replaced elements after `out`.
#[verifier::spinoff_prover]
#[verifier::rlimit(100)]
proof fn lemma_set_elements(
    p: PlatformType,
    sel: SelView,
    values: Seq<Result<NbtTree, Seq<char>>>,
    d: spec_fn(NbtTree) -> bool,
    id: u8,
    es: Seq<NbtTree>,
    path: Seq<Seg>,
    k: int,
    n: int,
    out: Seq<u8>,
    t: Tally,
    s: Seq<u8>,
)
    requires
        enc_elements(p, id, es) is Ok,
        elements_texts_roundtrip(p, es),
        same_kinds(values),
        0 <= k,
        k + es.len() == n,
        n <= i32::MAX,
    ensures
        sp_elements(p, EditPlan::Replace { sel, values }, d, path, id, false, k, n, out, k, false, t, enc_elements(
            p,
            id,
            es,
        )->Ok_0 + s) matches Ok((out2, olen, del, _, r)) ==> r == s && olen == n && !del && enc_elements(
            p,
            id,
            replaced_elements(es, sel, values, path, k),
        ) is Ok && out2 == out + enc_elements(p, id, replaced_elements(es, sel, values, path, k))->Ok_0,
    decreases es, 0int,
{
    reveal(sp_elements);
    let plan = EditPlan::Replace { sel, values };
    if es.len() == 0 {
        assert(Seq::<u8>::empty() + s =~= s);
        assert(out + Seq::<u8>::empty() =~= out);
    } else {
        let v = es[0];
        let b0 = enc_payload(p, v)->Ok_0;
        let rest = enc_elements(p, id, es.drop_first())->Ok_0;
        let epath = path.push(Seg::Index(k as usize));
        lemma_set_plan(sel, values, epath);
        lemma_set_payload(p, sel, values, d, v, epath, t, rest + s);
        lemma_payload_nonempty(p, v);
        assert(tree_id(v) == id);
        assert(enc_elements(p, id, es)->Ok_0 == b0 + rest);
        let whole = enc_elements(p, id, es)->Ok_0 + s;
        assert(whole =~= b0 + (rest + s));
        assert((rest + s).len() < whole.len());
        if let Ok((b, t2, r)) = sp_payload(p, plan, d, id, epath, t, b0 + (rest + s)) {
            lemma_set_elements(p, sel, values, d, id, es.drop_first(), path, k + 1, n, out + b, t2, s);
            let rv = replaced(v, sel, values, epath);
            let re = replaced_elements(es, sel, values, path, k);
            assert(re[0] == rv);
            assert(re.drop_first() =~= replaced_elements(es.drop_first(), sel, values, path, k + 1));
            if let Ok((out2, olen, del, t3, r2)) = sp_elements(p, plan, d, path, id, false, k + 1, n, out + b, k + 1, false, t2, rest + s) {
                let eb = enc_elements(p, id, replaced_elements(es.drop_first(), sel, values, path, k + 1))->Ok_0;
                assert(out + b + eb =~= out + (b + eb));
            }
        }
    }
}

/// A set edit of a written document that succeeds writes the document whose
/// chosen values that hold no others are replaced by the replacements for
/// their kinds, where each replacement is of the kind it is for.
#[verifier::spinoff_prover]
#[verifier::rlimit(100)]
pub proof fn lemma_set_edit_replaces(
    p: PlatformType,
    sel: SelView,
    values: Seq<Result<NbtTree, Seq<char>>>,
    d: spec_fn(NbtTree) -> bool,
    name: Seq<char>,
    v: NbtTree,
    t: Tally,
)
    requires
        v is List || v is Compound,
        enc_tag(p, name) is Some,
        enc_payload(p, v) is Ok,
        modified_utf8_roundtrips(name),
        texts_roundtrip(p, v),
        same_kinds(values),
    ensures
        sp_document(
            p,
            EditPlan::Replace { sel, values },
            d,
            t,
            seq![tree_id(v)] + enc_tag(p, name)->Some_0 + enc_payload(p, v)->Ok_0,
        ) matches Ok((out, _)) ==> enc_payload(p, replaced(v, sel, values, Seq::empty())) is Ok && out == seq![
            tree_id(v),
        ] + enc_tag(p, name)->Some_0 + enc_payload(p, replaced(v, sel, values, Seq::empty()))->Ok_0,
{
    let tb = enc_tag(p, name)->Some_0;
    let b = enc_payload(p, v)->Ok_0;
    let doc = seq![tree_id(v)] + tb + b;
    lemma_set_payload(p, sel, values, d, v, Seq::empty(), t, Seq::empty());
    lemma_tag_roundtrip(p, name, b);
    assert(b + Seq::<u8>::empty() =~= b);
    assert(doc =~= seq![tree_id(v)] + (tb + b));
    assert(doc.skip(1) =~= tb + b);
    assert(wire_u8(doc) == Ok::<(u8, Seq<u8>), Fault>((tree_id(v), tb + b)));
}


// ----- one exact path -----

/// What a set edit puts at a chosen path: the replacement for a value that
/// holds no others; a list or compound stays.
pub open spec fn set_target(values: Seq<Result<NbtTree, Seq<char>>>, x: NbtTree) -> NbtTree {
    if x is List || x is Compound {
        x
    } else {
        replacement(values, tree_id(x))->Ok_0
    }
}

proof fn lemma_off_step(segs: Seq<Seg>, path: Seq<Seg>, s: Seg)
    requires
        !is_prefix_path(path, segs) || path.len() >= segs.len(),
    ensures
        !is_prefix_path(path.push(s), segs),
        !is_prefix_path(path, segs) ==> path != segs,
{
    if is_prefix_path(path.push(s), segs) {
        assert forall|i: int| 0 <= i < path.len() implies path[i] == segs[i] by {
            assert(path[i] == path.push(s)[i]);
        }
    }
    if path == segs {
        assert(is_prefix_path(path, segs));
    }
}

/// Nothing off an exact path is replaced.
proof fn lemma_replaced_off(v: NbtTree, segs: Seq<Seg>, values: Seq<Result<NbtTree, Seq<char>>>, path: Seq<Seg>)
    requires
        !is_prefix_path(path, segs),
    ensures
        replaced(v, SelView::Exact(segs), values, path) == v,
    decreases v, 2int,
{
    lemma_off_step(segs, path, Seg::Index(0));
    match v {
        NbtTree::List(id, es) => {
            lemma_replaced_elements_off(es, segs, values, path, 0);
        },
        NbtTree::Compound(fs) => {
            lemma_replaced_fields_off(fs, segs, values, path);
        },
        _ => {},
    }
}

proof fn lemma_replaced_elements_off(
    es: Seq<NbtTree>,
    segs: Seq<Seg>,
    values: Seq<Result<NbtTree, Seq<char>>>,
    path: Seq<Seg>,
    k: int,
)
    requires
        !is_prefix_path(path, segs) || path.len() >= segs.len(),
    ensures
        replaced_elements(es, SelView::Exact(segs), values, path, k) == es,
    decreases es, 1int,
{
    if es.len() > 0 {
        lemma_off_step(segs, path, Seg::Index(k as usize));
        lemma_replaced_off(es[0], segs, values, path.push(Seg::Index(k as usize)));
        lemma_replaced_elements_off(es.drop_first(), segs, values, path, k + 1);
        assert(seq![es[0]] + es.drop_first() =~= es);
    }
}

proof fn lemma_replaced_fields_off(
    fs: Seq<(Seq<char>, NbtTree)>,
    segs: Seq<Seg>,
    values: Seq<Result<NbtTree, Seq<char>>>,
    path: Seq<Seg>,
)
    requires
        !is_prefix_path(path, segs) || path.len() >= segs.len(),
    ensures
        replaced_fields(fs, SelView::Exact(segs), values, path) == fs,
    decreases fs, 1int,
{
    if fs.len() > 0 {
        lemma_off_step(segs, path, Seg::Field(fs[0].0));
        lemma_replaced_off(fs[0].1, segs, values, path.push(Seg::Field(fs[0].0)));
        lemma_replaced_fields_off(fs.drop_first(), segs, values, path);
        assert(seq![(fs[0].0, fs[0].1)] + fs.drop_first() =~= fs);
    }
}

/// A child path of a path on the way is on the way exactly when it takes the
/// next step.
proof fn lemma_on_step(segs: Seq<Seg>, path: Seq<Seg>, s: Seg)
    requires
        is_prefix_path(path, segs),
        path.len() < segs.len(),
    ensures
        is_prefix_path(path.push(s), segs) <==> s == segs[path.len() as int],
        segs.skip(path.len() as int).drop_first() =~= segs.skip(path.len() + 1int),
        segs.skip(path.len() as int)[0] == segs[path.len() as int],
{
    if s == segs[path.len() as int] {
        assert forall|i: int| 0 <= i < path.push(s).len() implies path.push(s)[i] == segs[i] by {
            if i < path.len() {
                assert(path.push(s)[i] == path[i]);
            }
        }
    }
    if is_prefix_path(path.push(s), segs) {
        assert(path.push(s)[path.len() as int] == s);
    }
}

/// The fields of a compound on the way are not replaced in when none takes
/// the next step.
proof fn lemma_replaced_fields_none(
    fs: Seq<(Seq<char>, NbtTree)>,
    segs: Seq<Seg>,
    values: Seq<Result<NbtTree, Seq<char>>>,
    path: Seq<Seg>,
)
    requires
        is_prefix_path(path, segs),
        path.len() < segs.len(),
        forall|j: int| 0 <= j < fs.len() ==> Seg::Field((#[trigger] fs[j]).0) != segs[path.len() as int],
    ensures
        replaced_fields(fs, SelView::Exact(segs), values, path) == fs,
    decreases fs.len(),
{
    if fs.len() > 0 {
        let rfs = fs.drop_first();
        assert(Seg::Field(fs[0].0) != segs[path.len() as int]);
        lemma_on_step(segs, path, Seg::Field(fs[0].0));
        lemma_replaced_off(fs[0].1, segs, values, path.push(Seg::Field(fs[0].0)));
        assert forall|j: int| 0 <= j < rfs.len() implies Seg::Field((#[trigger] rfs[j]).0) != segs[path.len() as int] by {
            assert(rfs[j] == fs[j + 1]);
        }
        lemma_replaced_fields_none(rfs, segs, values, path);
        assert(seq![(fs[0].0, fs[0].1)] + rfs =~= fs);
    }
}

/// Of the fields of a compound on the way, only the one of the next step's
/// name is replaced in, when there is at most one.
proof fn lemma_replaced_fields_way(
    fs: Seq<(Seq<char>, NbtTree)>,
    segs: Seq<Seg>,
    values: Seq<Result<NbtTree, Seq<char>>>,
    path: Seq<Seg>,
    name: Seq<char>,
)
    requires
        is_prefix_path(path, segs),
        path.len() < segs.len(),
        segs[path.len() as int] == Seg::Field(name),
        forall|j: int| 0 <= j < fs.len() && (#[trigger] fs[j]).0 == name ==> j == field_position(fs, name),
    ensures
        replaced_fields(fs, SelView::Exact(segs), values, path) == if field_position(fs, name) >= 0 {
            fs.update(
                field_position(fs, name),
                (name, replaced(fs[field_position(fs, name)].1, SelView::Exact(segs), values, path.push(Seg::Field(name)))),
            )
        } else {
            fs
        },
    decreases fs.len(),
{
    crate::edit::lemma_position_meaning(fs, name);
    if fs.len() > 0 {
        let rfs = fs.drop_first();
        crate::edit::lemma_position_meaning(rfs, name);
        let fname = fs[0].0;
        lemma_on_step(segs, path, Seg::Field(fname));
        let k = field_position(fs, name);
        let k2 = field_position(rfs, name);
        if fname == name {
            assert forall|j: int| 0 <= j < rfs.len() implies Seg::Field((#[trigger] rfs[j]).0) != segs[path.len() as int] by {
                assert(rfs[j] == fs[j + 1]);
            }
            lemma_replaced_fields_none(rfs, segs, values, path);
        } else {
            lemma_replaced_off(fs[0].1, segs, values, path.push(Seg::Field(fname)));
            assert forall|j: int| 0 <= j < rfs.len() && (#[trigger] rfs[j]).0 == name implies j == k2 by {
                assert(rfs[j] == fs[j + 1]);
            }
            lemma_replaced_fields_way(rfs, segs, values, path, name);
            if k2 >= 0 {
                assert(rfs[k2] == fs[k]);
            }
        }
        let rf = replaced_fields(fs, SelView::Exact(segs), values, path);
        let expect = if k >= 0 {
            fs.update(k, (name, replaced(fs[k].1, SelView::Exact(segs), values, path.push(Seg::Field(name)))))
        } else {
            fs
        };
        assert(rf =~= expect);
    }
}

/// Of the elements of a list on the way, the first of which is number `k`,
/// only element `i`, if there is one, is replaced in; with a field as the
/// next step, none is.
proof fn lemma_replaced_elements_way(
    es: Seq<NbtTree>,
    segs: Seq<Seg>,
    values: Seq<Result<NbtTree, Seq<char>>>,
    path: Seq<Seg>,
    i: int,
    k: int,
)
    requires
        is_prefix_path(path, segs),
        path.len() < segs.len(),
        0 <= k,
        segs[path.len() as int] is Index ==> k + es.len() <= usize::MAX + 1,
        segs[path.len() as int] is Index ==> i == segs[path.len() as int]->Index_0,
        segs[path.len() as int] is Field ==> i < 0,
    ensures
        replaced_elements(es, SelView::Exact(segs), values, path, k) == if k <= i < k + es.len() {
            es.update(i - k, replaced(es[i - k], SelView::Exact(segs), values, path.push(Seg::Index(i as usize))))
        } else {
            es
        },
    decreases es.len(),
{
    if es.len() > 0 {
        let rest = es.drop_first();
        lemma_on_step(segs, path, Seg::Index(k as usize));
        lemma_replaced_elements_way(rest, segs, values, path, i, k + 1);
        if k != i {
            assert(Seg::Index(k as usize) != segs[path.len() as int]);
            lemma_replaced_off(es[0], segs, values, path.push(Seg::Index(k as usize)));
        }
        let re = replaced_elements(es, SelView::Exact(segs), values, path, k);
        let expect = if k <= i < k + es.len() {
            es.update(i - k, replaced(es[i - k], SelView::Exact(segs), values, path.push(Seg::Index(i as usize))))
        } else {
            es
        };
        if k < i < k + es.len() {
            assert(rest[i - (k + 1)] == es[i - k]);
        }
        assert(re =~= expect);
    }
}

/// Whether each list on the way along `segs` from `t` that the path indexes
/// into has at most `usize::MAX` elements.
pub open spec fn fits_on_way(t: NbtTree, segs: Seq<Seg>) -> bool
    decreases segs.len(),
{
    if segs.len() == 0 {
        true
    } else {
        match segs[0] {
            Seg::Field(name) => match t {
                NbtTree::Compound(fs) => {
                    let k = field_position(fs, name);
                    k >= 0 ==> fits_on_way(fs[k].1, segs.drop_first())
                },
                _ => true,
            },
            Seg::Index(i) => match t {
                NbtTree::List(_, es) => es.len() <= usize::MAX && (i < es.len() ==> fits_on_way(
                    es[i as int],
                    segs.drop_first(),
                )),
                _ => true,
            },
        }
    }
}

/// With one exact path, on a tree where no compound on the way has two fields
/// of the step's name, what a set edit replaces is what [`replace_at`] sets:
/// the replacement for the value that the path leads to, if it holds no
/// others; and nothing when the path leads nowhere.
pub proof fn lemma_exact_set_is_replace(
    t: NbtTree,
    segs: Seq<Seg>,
    values: Seq<Result<NbtTree, Seq<char>>>,
)
    requires
        single_on_way(t, segs),
        fits_on_way(t, segs),
    ensures
        replaced(t, SelView::Exact(segs), values, Seq::empty()) == match lookup(t, segs) {
            Ok(x) => replace_at(t, segs, set_target(values, x)),
            Err(_) => t,
        },
{
    assert(is_prefix_path(Seq::empty(), segs));
    assert(segs.skip(0) =~= segs);
    lemma_replaced_way(t, segs, values, Seq::empty());
}

/// [`lemma_exact_set_is_replace`] below a path on the way.
proof fn lemma_replaced_way(
    v: NbtTree,
    segs: Seq<Seg>,
    values: Seq<Result<NbtTree, Seq<char>>>,
    path: Seq<Seg>,
)
    requires
        is_prefix_path(path, segs),
        single_on_way(v, segs.skip(path.len() as int)),
        fits_on_way(v, segs.skip(path.len() as int)),
    ensures
        replaced(v, SelView::Exact(segs), values, path) == match lookup(v, segs.skip(path.len() as int)) {
            Ok(x) => replace_at(v, segs.skip(path.len() as int), set_target(values, x)),
            Err(_) => v,
        },
    decreases segs.len() - path.len(),
{
    let m = path.len() as int;
    let rem = segs.skip(m);
    if m == segs.len() {
        assert(path =~= segs);
        assert(rem.len() == 0);
        match v {
            NbtTree::List(id, es) => {
                lemma_replaced_elements_off(es, segs, values, path, 0);
            },
            NbtTree::Compound(fs) => {
                lemma_replaced_fields_off(fs, segs, values, path);
            },
            _ => {},
        }
    } else {
        lemma_on_step(segs, path, Seg::Index(0));
        let rest = segs.skip(m + 1);
        match segs[m] {
            Seg::Field(name) => {
                match v {
                    NbtTree::Compound(fs) => {
                        let k = field_position(fs, name);
                        crate::edit::lemma_position_meaning(fs, name);
                        lemma_replaced_fields_way(fs, segs, values, path, name);
                        if k >= 0 {
                            lemma_on_step(segs, path, Seg::Field(name));
                            assert(path.push(Seg::Field(name)).len() == m + 1);
                            lemma_replaced_way(fs[k].1, segs, values, path.push(Seg::Field(name)));
                            assert(fs[k].0 == name);
                            if lookup(fs[k].1, rest) is Err {
                                assert(fs.update(k, (name, fs[k].1)) =~= fs);
                            }
                        }
                    },
                    NbtTree::List(id, es) => {
                        lemma_replaced_elements_way(es, segs, values, path, -1, 0);
                    },
                    _ => {},
                }
            },
            Seg::Index(i) => {
                match v {
                    NbtTree::List(id, es) => {
                        lemma_replaced_elements_way(es, segs, values, path, i as int, 0);
                        if i < es.len() {
                            lemma_on_step(segs, path, Seg::Index(i));
                            lemma_replaced_way(es[i as int], segs, values, path.push(Seg::Index(i)));
                            if lookup(es[i as int], rest) is Err {
                                assert(es.update(i as int, es[i as int]) =~= es);
                            }
                        }
                    },
                    NbtTree::Compound(fs) => {
                        assert forall|j: int| 0 <= j < fs.len() implies Seg::Field((#[trigger] fs[j]).0) != segs[m] by {}
                        lemma_replaced_fields_none(fs, segs, values, path);
                    },
                    _ => {},
                }
            },
        }
    }
}

} // verus!
