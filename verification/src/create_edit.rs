//! What a streaming create edit does to a written document, in terms of its
//! tree: the same as creating the value in the tree with [`create_at`].
use vstd::prelude::*;
use crate::byte_order::u32_bytes;
use crate::edit::{create_at, field_position, fix_list_id, infer_id, intermediate, lemma_position_meaning};
use crate::passthrough::{lemma_copy_payload, quiet_at, quiet_below};
use crate::path::{is_prefix_path, Seg};
use crate::platform::PlatformType;
use crate::roundtrip::{lemma_length_roundtrip, lemma_payload_nonempty, lemma_tag_roundtrip};
use crate::session::{lemma_elements_push, lemma_fields_push};
use crate::stream::{
    compound_close, create_name, create_step, create_tail, decides_list, deletes_path, list_end, on_create_way,
    sp_compound, sp_document, sp_elements, sp_fields, sp_list, sp_payload, EditFault, EditPlan, Tally,
};
use crate::tag_id;
use crate::text::modified_utf8_roundtrips;
use crate::tree::{
    elements_texts_roundtrip, enc_elements, enc_field, enc_fields, enc_list, enc_payload, fields_texts_roundtrip,
    texts_roundtrip, then, tree_id, NbtTree,
};
use crate::wire::{enc_tag, wire_tag, wire_u8, Fault};

verus! {

/// Whether each compound on the way along `segs` from `t` has at most one
/// field with the step's name.
pub open spec fn single_on_way(t: NbtTree, segs: Seq<Seg>) -> bool
    decreases segs.len(),
{
    if segs.len() == 0 {
        true
    } else {
        match segs[0] {
            Seg::Field(name) => match t {
                NbtTree::Compound(fs) => {
                    let k = field_position(fs, name);
                    &&& forall|j: int| 0 <= j < fs.len() && (#[trigger] fs[j]).0 == name ==> j == k
                    &&& k >= 0 ==> single_on_way(fs[k].1, segs.drop_first())
                },
                _ => true,
            },
            Seg::Index(i) => match t {
                NbtTree::List(_, es) => i < es.len() ==> single_on_way(es[i as int], segs.drop_first()),
                _ => true,
            },
        }
    }
}

/// The fields with the one named `name`, if any, edited by creating at `rest`
/// below it.
pub open spec fn edit_named(fs: Seq<(Seq<char>, NbtTree)>, name: Seq<char>, rest: Seq<Seg>, v: NbtTree) -> Seq<
    (Seq<char>, NbtTree),
> {
    let k = field_position(fs, name);
    if k >= 0 {
        fs.update(k, (fs[k].0, create_at(fs[k].1, rest, v).0))
    } else {
        fs
    }
}

/// The elements with number `j`, if there is one, edited by creating at
/// `rest` below it.
pub open spec fn edit_index(es: Seq<NbtTree>, j: int, rest: Seq<Seg>, v: NbtTree) -> Seq<NbtTree> {
    if 0 <= j < es.len() {
        es.update(j, create_at(es[j], rest, v).0)
    } else {
        es
    }
}

/// A create edit leaves alone everything off the path to create.
proof fn lemma_off_way(segs: Seq<Seg>, value: NbtTree, q0: Seq<Seg>)
    requires
        !is_prefix_path(q0, segs),
    ensures
        quiet_below(EditPlan::Create { segs, value }, q0),
{
    let plan = EditPlan::Create { segs, value };
    assert forall|q: Seq<Seg>| is_prefix_path(q0, q) implies #[trigger] quiet_at(plan, q) by {
        if is_prefix_path(q, segs) {
            assert forall|i: int| 0 <= i < q0.len() implies q0[i] == segs[i] by {
                assert(q0[i] == q[i]);
            }
            assert(is_prefix_path(q0, segs));
        }
        if segs == q {
            assert(is_prefix_path(q, segs));
        }
    }
}

/// The path one step further along the way.
proof fn lemma_way_step(segs: Seq<Seg>, path: Seq<Seg>, seg: Seg)
    requires
        is_prefix_path(path, segs),
        path.len() < segs.len(),
    ensures
        is_prefix_path(path.push(seg), segs) <==> seg == segs[path.len() as int],
        segs.skip(path.len() as int).len() == segs.len() - path.len(),
        segs.skip(path.len() as int)[0] == segs[path.len() as int],
        segs.skip(path.len() as int).drop_first() =~= segs.skip(path.len() + 1int),
        path.push(seg).len() == segs.len() ==> (seg == segs[path.len() as int] <==> path.push(seg) == segs),
{
    let q = path.push(seg);
    if seg == segs[path.len() as int] {
        assert forall|i: int| 0 <= i < q.len() implies q[i] == segs[i] by {
            if i < path.len() {
                assert(q[i] == path[i]);
            }
        }
        if q.len() == segs.len() {
            assert(q =~= segs);
        }
    }
    if is_prefix_path(q, segs) {
        assert(q[path.len() as int] == seg);
    }
}

/// The value built for the missing steps is what creating in an empty
/// container made for them gives.
proof fn lemma_tail_is_create(tail: Seq<Seg>, v: NbtTree)
    requires
        create_tail(tail, v) is Ok,
    ensures
        tail.len() == 0 ==> create_tail(tail, v) == Ok::<NbtTree, Seq<char>>(v),
        tail.len() > 0 ==> create_at(intermediate(tail, v), tail, v) == (create_tail(tail, v)->Ok_0, None::<Seq<char>>),
        tree_id(create_tail(tail, v)->Ok_0) == infer_id(tail, v),
    decreases tail.len(),
{
    if tail.len() > 0 {
        let rest = tail.drop_first();
        lemma_tail_is_create(rest, v);
        let child = create_tail(rest, v)->Ok_0;
        match tail[0] {
            Seg::Field(name) => {
                let fs = Seq::<(Seq<char>, NbtTree)>::empty();
                assert(field_position(fs, name) == -1);
            },
            Seg::Index(i) => {
                assert(i == 0);
                assert(infer_id(rest, child) == infer_id(rest, v));
                if rest.len() > 0 {
                    assert(tree_id(intermediate(rest, v)) == infer_id(rest, v));
                }
            },
        }
    }
}

/// A successful create edit of a written payload on the path to create writes
/// the payload of the tree with the value created, which keeps its kind.
#[verifier::spinoff_prover]
#[verifier::rlimit(100)]
proof fn lemma_way_payload(
    p: PlatformType,
    segs: Seq<Seg>,
    value: NbtTree,
    d: spec_fn(NbtTree) -> bool,
    v: NbtTree,
    path: Seq<Seg>,
    t: Tally,
    s: Seq<u8>,
)
    requires
        is_prefix_path(path, segs),
        path.len() < segs.len(),
        enc_payload(p, v) is Ok,
        texts_roundtrip(p, v),
        single_on_way(v, segs.skip(path.len() as int)),
    ensures
        sp_payload(p, EditPlan::Create { segs, value }, d, tree_id(v), path, t, enc_payload(p, v)->Ok_0 + s) matches Ok(
            (b, _, r),
        ) ==> r == s && create_at(v, segs.skip(path.len() as int), value).1 is None && enc_payload(
            p,
            create_at(v, segs.skip(path.len() as int), value).0,
        ) == Ok::<Seq<u8>, Seq<char>>(b) && tree_id(create_at(v, segs.skip(path.len() as int), value).0) == tree_id(v),
    decreases v, 2int,
{
    let plan = EditPlan::Create { segs, value };
    assert(on_create_way(plan, path));
    assert(segs != path);
    match v {
        NbtTree::List(id, es) => {
            lemma_way_list(p, segs, value, d, id, es, path, t, s);
        },
        NbtTree::Compound(fs) => {
            lemma_way_compound(p, segs, value, d, fs, path, t, s);
        },
        _ => {},
    }
}

/// A successful create edit of a written compound payload on the path to
/// create writes the compound with the value created.
#[verifier::spinoff_prover]
#[verifier::rlimit(100)]
proof fn lemma_way_compound(
    p: PlatformType,
    segs: Seq<Seg>,
    value: NbtTree,
    d: spec_fn(NbtTree) -> bool,
    fs: Seq<(Seq<char>, NbtTree)>,
    path: Seq<Seg>,
    t: Tally,
    s: Seq<u8>,
)
    requires
        is_prefix_path(path, segs),
        path.len() < segs.len(),
        enc_fields(p, fs) is Ok,
        fields_texts_roundtrip(p, fs),
        single_on_way(NbtTree::Compound(fs), segs.skip(path.len() as int)),
    ensures
        sp_compound(p, EditPlan::Create { segs, value }, d, path, t, enc_fields(p, fs)->Ok_0.push(tag_id::END) + s) matches Ok(
            (b, _, r),
        ) ==> r == s && create_at(NbtTree::Compound(fs), segs.skip(path.len() as int), value).1 is None && enc_payload(
            p,
            create_at(NbtTree::Compound(fs), segs.skip(path.len() as int), value).0,
        ) == Ok::<Seq<u8>, Seq<char>>(b) && create_at(NbtTree::Compound(fs), segs.skip(path.len() as int), value).0 is Compound,
    decreases fs, 1int,
{
    let plan = EditPlan::Create { segs, value };
    let m = path.len() as int;
    let rem = segs.skip(m);
    let rest = segs.skip(m + 1);
    lemma_way_step(segs, path, Seg::Index(0));
    assert(on_create_way(plan, path));
    if let Seg::Field(name) = segs[m] {
        let f = enc_fields(p, fs)->Ok_0;
        assert(f.push(tag_id::END) + s =~= f + (seq![tag_id::END] + s));
        assert(create_step(plan, path) == Seg::Field(name));
        assert(create_name(plan, path) == Some(name));
        let k = field_position(fs, name);
        lemma_position_meaning(fs, name);
        lemma_way_fields(p, segs, value, d, fs, path, name, false, t, s);
        if let Ok((out, t2, found, r)) = sp_fields(p, plan, d, path, Some(name), false, t, f + (seq![tag_id::END] + s)) {
            if k >= 0 {
                assert(compound_close(p, plan, path, Some(name), found, t2) == Ok::<(Seq<u8>, Tally), EditFault>(
                    (seq![tag_id::END], t2),
                ));
                assert(rem.len() > 1);
                assert(out + seq![tag_id::END] =~= out.push(tag_id::END));
            } else {
                if let Ok((x, t3)) = compound_close(p, plan, path, Some(name), found, t2) {
                    assert(plan->Create_segs.skip(path.len() + 1int) == rest);
                    lemma_tail_is_create(rest, value);
                    let created = create_tail(rest, value)->Ok_0;
                    let tb = enc_tag(p, name)->Some_0;
                    let cb = enc_payload(p, created)->Ok_0;
                    assert(x == seq![tree_id(created)] + tb + cb + seq![tag_id::END]);
                    assert(enc_field(p, name, created) == then(seq![tree_id(created)] + tb, enc_payload(p, created)));
                    lemma_fields_push(p, fs, name, created);
                    if rem.len() == 1 {
                        assert(rest.len() == 0);
                    }
                    assert(create_at(NbtTree::Compound(fs), rem, value) == (
                        NbtTree::Compound(fs.push((name, created))),
                        None::<Seq<char>>,
                    ));
                    assert(out + x =~= (out + (seq![tree_id(created)] + tb + cb)).push(tag_id::END));
                }
            }
        }
    }
}

/// A successful create edit of written fields, and the closing TAG_End, of a
/// compound on the path to create, whose next step is the field `name`,
/// writes the fields with the one named `name` edited.
#[verifier::spinoff_prover]
#[verifier::rlimit(100)]
proof fn lemma_way_fields(
    p: PlatformType,
    segs: Seq<Seg>,
    value: NbtTree,
    d: spec_fn(NbtTree) -> bool,
    fs: Seq<(Seq<char>, NbtTree)>,
    path: Seq<Seg>,
    name: Seq<char>,
    found: bool,
    t: Tally,
    s: Seq<u8>,
)
    requires
        is_prefix_path(path, segs),
        path.len() < segs.len(),
        segs[path.len() as int] == Seg::Field(name),
        enc_fields(p, fs) is Ok,
        fields_texts_roundtrip(p, fs),
        forall|j: int| 0 <= j < fs.len() && (#[trigger] fs[j]).0 == name ==> j == field_position(fs, name),
        field_position(fs, name) >= 0 ==> single_on_way(fs[field_position(fs, name)].1, segs.skip(path.len() + 1int)),
    ensures
        sp_fields(p, EditPlan::Create { segs, value }, d, path, Some(name), found, t, enc_fields(p, fs)->Ok_0 + (seq![
            tag_id::END,
        ] + s)) matches Ok((out, _, found2, r)) ==> r == s && found2 == (found || field_position(fs, name) >= 0) && (
        field_position(fs, name) >= 0 ==> segs.len() > path.len() + 1 && create_at(
            fs[field_position(fs, name)].1,
            segs.skip(path.len() + 1int),
            value,
        ).1 is None) && enc_fields(p, edit_named(fs, name, segs.skip(path.len() + 1int), value)) == Ok::<
            Seq<u8>,
            Seq<char>,
        >(out),
    decreases fs, 0int,
{
    reveal(sp_fields);
    let plan = EditPlan::Create { segs, value };
    let rest = segs.skip(path.len() + 1int);
    lemma_position_meaning(fs, name);
    if fs.len() == 0 {
        assert(Seq::<u8>::empty() + (seq![tag_id::END] + s) =~= seq![tag_id::END] + s);
        assert((seq![tag_id::END] + s).skip(1) =~= s);
    } else {
        let fname = fs[0].0;
        let fv = fs[0].1;
        let rfs = fs.drop_first();
        let fpath = path.push(Seg::Field(fname));
        let tb = enc_tag(p, fname)->Some_0;
        let pb = enc_payload(p, fv)->Ok_0;
        let rb = enc_fields(p, rfs)->Ok_0;
        let tail = rb + (seq![tag_id::END] + s);
        lemma_payload_nonempty(p, fv);
        lemma_tag_roundtrip(p, fname, pb + tail);
        assert(enc_field(p, fname, fv)->Ok_0 == seq![tree_id(fv)] + tb + pb);
        assert(enc_fields(p, fs)->Ok_0 == enc_field(p, fname, fv)->Ok_0 + rb);
        let whole = enc_fields(p, fs)->Ok_0 + (seq![tag_id::END] + s);
        assert(whole =~= seq![tree_id(fv)] + (tb + (pb + tail)));
        assert(whole.skip(1) =~= tb + (pb + tail));
        assert(wire_u8(whole) == Ok::<(u8, Seq<u8>), Fault>((tree_id(fv), tb + (pb + tail))));
        assert(tree_id(fv) != tag_id::END);
        assert(wire_tag(p, tb + (pb + tail)) == Ok::<(Seq<char>, Seq<u8>), Fault>((fname, pb + tail)));
        assert((pb + tail).len() < whole.len());
        assert(tail.len() < whole.len());
        assert(!deletes_path(plan, fpath));
        lemma_way_step(segs, path, Seg::Field(fname));
        lemma_position_meaning(rfs, name);
        let k = field_position(fs, name);
        let k2 = field_position(rfs, name);
        if fname == name {
            assert(k == 0);
            assert(k2 < 0) by {
                if k2 >= 0 {
                    assert(rfs[k2] == fs[k2 + 1]);
                    assert(fs[k2 + 1].0 == name);
                }
            }
            if fpath.len() < segs.len() {
                assert(segs.skip(fpath.len() as int) == rest);
                lemma_way_payload(p, segs, value, d, fv, fpath, t, tail);
                if let Ok((b, t2, r3)) = sp_payload(p, plan, d, tree_id(fv), fpath, t, pb + tail) {
                    let created = create_at(fv, rest, value).0;
                    assert forall|j: int| 0 <= j < rfs.len() && (#[trigger] rfs[j]).0 == name implies j == k2 by {
                        assert(rfs[j] == fs[j + 1]);
                    }
                    lemma_way_fields(p, segs, value, d, rfs, path, name, true, t2, s);
                    let ef = edit_named(fs, name, rest, value);
                    assert(ef == fs.update(0, (name, created)));
                    assert(ef[0] == (name, created));
                    assert(ef.drop_first() =~= rfs);
                    assert(edit_named(rfs, name, rest, value) == rfs);
                    assert(enc_field(p, name, created) == then(seq![tree_id(created)] + tb, enc_payload(p, created)));
                    if let Ok((out2, t3, found3, r4)) = sp_fields(p, plan, d, path, Some(name), true, t2, tail) {
                        assert(seq![tree_id(fv)] + tb + b + out2 =~= (seq![tree_id(fv)] + tb + b) + out2);
                    }
                }
            } else {
                assert(fpath == segs);
            }
        } else {
            lemma_off_way(segs, value, fpath);
            lemma_copy_payload(p, plan, d, fv, fpath, t, tail);
            assert(k == if k2 < 0 { -1 } else { k2 + 1 });
            assert forall|j: int| 0 <= j < rfs.len() && (#[trigger] rfs[j]).0 == name implies j == k2 by {
                assert(rfs[j] == fs[j + 1]);
            }
            if k2 >= 0 {
                assert(rfs[k2] == fs[k]);
            }
            lemma_way_fields(p, segs, value, d, rfs, path, name, found, t, s);
            let ef = edit_named(fs, name, rest, value);
            let er = edit_named(rfs, name, rest, value);
            assert(ef[0] == fs[0]);
            assert(ef.drop_first() =~= er);
            if let Ok((out2, t3, found3, r4)) = sp_fields(p, plan, d, path, Some(name), found, t, tail) {
                assert(seq![tree_id(fv)] + tb + pb + out2 =~= (seq![tree_id(fv)] + tb + pb) + out2);
            }
        }
    }
}

/// A successful create edit of a written list payload on the path to create
/// writes the list with the value created.
#[verifier::spinoff_prover]
#[verifier::rlimit(100)]
proof fn lemma_way_list(
    p: PlatformType,
    segs: Seq<Seg>,
    value: NbtTree,
    d: spec_fn(NbtTree) -> bool,
    id: u8,
    es: Seq<NbtTree>,
    path: Seq<Seg>,
    t: Tally,
    s: Seq<u8>,
)
    requires
        is_prefix_path(path, segs),
        path.len() < segs.len(),
        enc_list(p, id, es) is Ok,
        elements_texts_roundtrip(p, es),
        single_on_way(NbtTree::List(id, es), segs.skip(path.len() as int)),
    ensures
        sp_list(p, EditPlan::Create { segs, value }, d, path, t, enc_list(p, id, es)->Ok_0 + s) matches Ok((b, _, r))
            ==> r == s && create_at(NbtTree::List(id, es), segs.skip(path.len() as int), value).1 is None && enc_payload(
            p,
            create_at(NbtTree::List(id, es), segs.skip(path.len() as int), value).0,
        ) == Ok::<Seq<u8>, Seq<char>>(b) && create_at(NbtTree::List(id, es), segs.skip(path.len() as int), value).0 is List,
    decreases es, 1int,
{
    let plan = EditPlan::Create { segs, value };
    let m = path.len() as int;
    let rem = segs.skip(m);
    let rest = segs.skip(m + 1);
    lemma_way_step(segs, path, Seg::Index(0));
    assert(on_create_way(plan, path));
    assert(!decides_list(plan, path));
    let e = enc_elements(p, id, es)->Ok_0;
    let n = es.len();
    lemma_length_roundtrip(p, n, e + s);
    let h = u32_bytes(p, n as u32);
    let whole = enc_list(p, id, es)->Ok_0 + s;
    assert(whole =~= seq![id] + (h + (e + s)));
    assert(whole.skip(1) =~= h + (e + s));
    assert(wire_u8(whole) == Ok::<(u8, Seq<u8>), Fault>((id, h + (e + s))));
    if let Seg::Index(i) = segs[m] {
        assert(create_step(plan, path) == Seg::Index(i));
        lemma_way_elements(p, segs, value, d, id, es, path, i, 0, n as int, Seq::empty(), t, s);
        if let Ok((out, olen, del, t2, r)) = sp_elements(p, plan, d, path, id, false, 0, n as int, Seq::empty(), 0, false, t, e + s) {
            assert(Seq::<u8>::empty() + enc_elements(p, id, edit_index(es, i as int, rest, value))->Ok_0
                =~= enc_elements(p, id, edit_index(es, i as int, rest, value))->Ok_0);
            if i < n {
                assert(list_end(p, plan, path, id, n as int, out, olen, t2) == Ok::<(u8, Seq<u8>, int, Tally), EditFault>(
                    (id, out, olen, t2),
                ));
                assert(rem.len() > 1);
                let c = create_at(es[i as int], rest, value).0;
                assert(edit_index(es, i as int, rest, value) == es.update(i as int, c));
                assert(create_at(NbtTree::List(id, es), rem, value) == (
                    NbtTree::List(id, es.update(i as int, c)),
                    create_at(es[i as int], rest, value).1,
                ));
                assert(es.update(i as int, c).len() == n);
            } else if i == n {
                assert(edit_index(es, i as int, rest, value) == es);
                if let Ok((eid2, out2, olen2, t3)) = list_end(p, plan, path, id, n as int, out, olen, t2) {
                    assert(plan->Create_segs.skip(path.len() + 1int) == rest);
                    lemma_tail_is_create(rest, value);
                    let created = create_tail(rest, value)->Ok_0;
                    let expected = tree_id(created);
                    let cb = enc_payload(p, created)->Ok_0;
                    assert(eid2 == expected && out2 == out + cb && olen2 == n + 1);
                    assert(fix_list_id(id, n, expected) == Ok::<u8, Seq<char>>(expected));
                    if rem.len() == 1 {
                        assert(rest.len() == 0);
                        assert(create_at(NbtTree::List(id, es), rem, value) == (
                            NbtTree::List(expected, es.push(created)),
                            None::<Seq<char>>,
                        ));
                    } else {
                        assert(tree_id(intermediate(rest, value)) == infer_id(rest, value));
                        assert(create_at(NbtTree::List(id, es), rem, value) == (
                            NbtTree::List(expected, es.push(created)),
                            None::<Seq<char>>,
                        ));
                    }
                    assert(enc_elements(p, expected, es) == enc_elements(p, id, es)) by {
                        if n == 0 {
                            assert(enc_elements(p, expected, es) == Ok::<Seq<u8>, Seq<char>>(Seq::empty()));
                            assert(enc_elements(p, id, es) == Ok::<Seq<u8>, Seq<char>>(Seq::empty()));
                        }
                    }
                    lemma_elements_push(p, expected, es, created);
                    let h2 = u32_bytes(p, (n + 1) as u32);
                    assert(enc_list(p, expected, es.push(created)) == then(seq![expected] + h2, enc_elements(p, expected, es.push(created))));
                    assert(seq![expected] + h2 + (out + cb) =~= seq![expected] + h2 + out2);
                }
            }
        }
    }
}

/// A successful create edit of written list elements, from the `k`th of `n`
/// on, of a list on the path to create whose next step is index `i`, writes
/// the elements with element `i` edited, after `out`.
#[verifier::spinoff_prover]
#[verifier::rlimit(100)]
proof fn lemma_way_elements(
    p: PlatformType,
    segs: Seq<Seg>,
    value: NbtTree,
    d: spec_fn(NbtTree) -> bool,
    id: u8,
    es: Seq<NbtTree>,
    path: Seq<Seg>,
    i: usize,
    k: int,
    n: int,
    out: Seq<u8>,
    t: Tally,
    s: Seq<u8>,
)
    requires
        is_prefix_path(path, segs),
        path.len() < segs.len(),
        segs[path.len() as int] == Seg::Index(i),
        enc_elements(p, id, es) is Ok,
        elements_texts_roundtrip(p, es),
        0 <= k,
        k + es.len() == n,
        n <= i32::MAX,
        k <= i < n ==> single_on_way(es[i - k], segs.skip(path.len() + 1int)),
    ensures
        sp_elements(p, EditPlan::Create { segs, value }, d, path, id, false, k, n, out, k, false, t, enc_elements(
            p,
            id,
            es,
        )->Ok_0 + s) matches Ok((out2, olen, del, _, r)) ==> r == s && olen == n && !del && (k <= i < n ==> segs.len()
            > path.len() + 1 && create_at(es[i - k], segs.skip(path.len() + 1int), value).1 is None) && enc_elements(
            p,
            id,
            edit_index(es, i - k, segs.skip(path.len() + 1int), value),
        ) is Ok && out2 == out + enc_elements(p, id, edit_index(es, i - k, segs.skip(path.len() + 1int), value))->Ok_0,
    decreases es, 0int,
{
    reveal(sp_elements);
    let plan = EditPlan::Create { segs, value };
    let rest = segs.skip(path.len() + 1int);
    if es.len() == 0 {
        assert(Seq::<u8>::empty() + s =~= s);
        assert(out + Seq::<u8>::empty() =~= out);
        assert(edit_index(es, i - k, rest, value) == es);
    } else {
        let v = es[0];
        let b0 = enc_payload(p, v)->Ok_0;
        let rb = enc_elements(p, id, es.drop_first())->Ok_0;
        let epath = path.push(Seg::Index(k as usize));
        lemma_payload_nonempty(p, v);
        assert(tree_id(v) == id);
        assert(enc_elements(p, id, es)->Ok_0 == b0 + rb);
        let whole = enc_elements(p, id, es)->Ok_0 + s;
        assert(whole =~= b0 + (rb + s));
        assert((rb + s).len() < whole.len());
        assert(!deletes_path(plan, epath));
        lemma_way_step(segs, path, Seg::Index(k as usize));
        if k == i {
            if epath.len() < segs.len() {
                assert(segs.skip(epath.len() as int) == rest);
                lemma_way_payload(p, segs, value, d, v, epath, t, rb + s);
                if let Ok((b, t2, r)) = sp_payload(p, plan, d, id, epath, t, b0 + (rb + s)) {
                    let created = create_at(v, rest, value).0;
                    lemma_way_elements(p, segs, value, d, id, es.drop_first(), path, i, k + 1, n, out + b, t2, s);
                    let ei = edit_index(es, i - k, rest, value);
                    assert(ei == es.update(0, created));
                    assert(ei[0] == created);
                    assert(ei.drop_first() =~= es.drop_first());
                    assert(edit_index(es.drop_first(), i - (k + 1), rest, value) == es.drop_first());
                    if let Ok((out2, olen, del, t3, r2)) = sp_elements(p, plan, d, path, id, false, k + 1, n, out + b, k + 1, false, t2, rb + s) {
                        let er = enc_elements(p, id, es.drop_first())->Ok_0;
                        assert(out + b + er =~= out + (b + er));
                    }
                }
            } else {
                assert(epath == segs);
            }
        } else {
            assert(Seg::Index(k as usize) != Seg::Index(i));
            lemma_off_way(segs, value, epath);
            lemma_copy_payload(p, plan, d, v, epath, t, rb + s);
            if k + 1 <= i < n {
                assert(es.drop_first()[i - (k + 1)] == es[i - k]);
            }
            lemma_way_elements(p, segs, value, d, id, es.drop_first(), path, i, k + 1, n, out + b0, t, s);
            let ei = edit_index(es, i - k, rest, value);
            let er = edit_index(es.drop_first(), i - (k + 1), rest, value);
            assert(ei[0] == es[0]);
            assert(ei.drop_first() =~= er);
            if let Ok((out2, olen, del, t3, r2)) = sp_elements(p, plan, d, path, id, false, k + 1, n, out + b0, k + 1, false, t, rb + s) {
                let eb = enc_elements(p, id, er)->Ok_0;
                assert(out + b0 + eb =~= out + (b0 + eb));
            }
        }
    }
}

/// A create edit of a written document that succeeds writes the document of
/// the tree with the value created at the path, as [`create_at`] makes it,
/// when no compound on the way has two fields of the step's name.
#[verifier::spinoff_prover]
#[verifier::rlimit(100)]
pub proof fn lemma_create_edit_creates(
    p: PlatformType,
    segs: Seq<Seg>,
    value: NbtTree,
    d: spec_fn(NbtTree) -> bool,
    name: Seq<char>,
    v: NbtTree,
    t: Tally,
)
    requires
        v is List || v is Compound,
        enc_tag(p, name) is Some,
        enc_payload(p, v) is Ok,
        modified_utf8_roundtrips(name),
        texts_roundtrip(p, v),
        single_on_way(v, segs),
    ensures
        sp_document(
            p,
            EditPlan::Create { segs, value },
            d,
            t,
            seq![tree_id(v)] + enc_tag(p, name)->Some_0 + enc_payload(p, v)->Ok_0,
        ) matches Ok((out, _)) ==> create_at(v, segs, value).1 is None && enc_payload(p, create_at(v, segs, value).0) is Ok
            && out == seq![tree_id(v)] + enc_tag(p, name)->Some_0 + enc_payload(p, create_at(v, segs, value).0)->Ok_0,
{
    let tb = enc_tag(p, name)->Some_0;
    let b = enc_payload(p, v)->Ok_0;
    let doc = seq![tree_id(v)] + tb + b;
    lemma_tag_roundtrip(p, name, b);
    assert(b + Seq::<u8>::empty() =~= b);
    assert(doc =~= seq![tree_id(v)] + (tb + b));
    assert(doc.skip(1) =~= tb + b);
    assert(wire_u8(doc) == Ok::<(u8, Seq<u8>), Fault>((tree_id(v), tb + b)));
    let plan = EditPlan::Create { segs, value };
    assert(wire_tag(p, tb + b) == Ok::<(Seq<char>, Seq<u8>), Fault>((name, b)));
    assert(sp_document(p, plan, d, t, doc) == match sp_payload(p, plan, d, tree_id(v), Seq::empty(), t, b) {
        Err(f) => Err(f),
        Ok((b2, t2, _)) => Ok((seq![tree_id(v)] + tb + b2, t2)),
    });
    if segs.len() > 0 {
        assert(is_prefix_path(Seq::empty(), segs));
        assert(segs.skip(0) =~= segs);
        lemma_way_payload(p, segs, value, d, v, Seq::empty(), t, Seq::empty());
    } else {
        assert(segs =~= Seq::<Seg>::empty());
    }
}

} // verus!
