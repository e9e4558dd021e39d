//! The streaming delete and the in-memory delete of one path agree on a
//! document in which the path text of that path names no other value.
use vstd::prelude::*;
use crate::delete_edit::{lemma_delete_edit_prunes, pruned, pruned_elements, pruned_fields};
use crate::edit::{delete_at, field_position, lemma_position_meaning, lookup, remove_child, replace_at};
use crate::path::{render, Seg};
use crate::platform::PlatformType;
use crate::stream::{sp_document, EditPlan, Tally};
use crate::tag_id;
use crate::text::modified_utf8_roundtrips;
use crate::tree::{enc_payload, texts_roundtrip, tree_id, NbtTree};
use crate::wire::enc_tag;

verus! {

/// Whether some value below `v` has a path text in `targets`; `path` is v's
/// own path.
pub open spec fn hits(v: NbtTree, targets: Seq<Seq<char>>, path: Seq<Seg>) -> bool
    decreases v, 2int,
{
    match v {
        NbtTree::List(_, es) => hits_elements(es, targets, path, 0),
        NbtTree::Compound(fs) => hits_fields(fs, targets, path),
        _ => false,
    }
}

/// [`hits`] for list elements, the first of which is number `k`.
pub open spec fn hits_elements(es: Seq<NbtTree>, targets: Seq<Seq<char>>, path: Seq<Seg>, k: int) -> bool
    decreases es, 1int,
{
    if es.len() == 0 {
        false
    } else {
        let ep = path.push(Seg::Index(k as usize));
        targets.contains(render(ep)) || hits(es[0], targets, ep) || hits_elements(
            es.drop_first(),
            targets,
            path,
            k + 1,
        )
    }
}

/// [`hits`] for compound fields.
pub open spec fn hits_fields(fs: Seq<(Seq<char>, NbtTree)>, targets: Seq<Seq<char>>, path: Seq<Seg>) -> bool
    decreases fs, 1int,
{
    if fs.len() == 0 {
        false
    } else {
        let fp = path.push(Seg::Field(fs[0].0));
        targets.contains(render(fp)) || hits(fs[0].1, targets, fp) || hits_fields(fs.drop_first(), targets, path)
    }
}

/// Whether neither `v`, at `path`, nor any value below it has a path text in
/// `targets`.
pub open spec fn untouched(v: NbtTree, targets: Seq<Seq<char>>, path: Seq<Seg>) -> bool {
    !targets.contains(render(path)) && !hits(v, targets, path)
}

/// Whether, below `v` (whose path is `path`), the values with a path text in
/// `targets` are exactly the one that `segs` leads to: each step finds its
/// child, every other child is untouched, and no value on the way is a
/// target.
pub open spec fn only_at(v: NbtTree, targets: Seq<Seq<char>>, path: Seq<Seg>, segs: Seq<Seg>) -> bool
    decreases segs.len(),
{
    if segs.len() == 0 {
        false
    } else {
        match segs[0] {
            Seg::Field(name) => match v {
                NbtTree::Compound(fs) => {
                    let k = field_position(fs, name);
                    let np = path.push(Seg::Field(name));
                    &&& k >= 0
                    &&& forall|j: int|
                        0 <= j < fs.len() && j != k ==> untouched(
                            #[trigger] fs[j].1,
                            targets,
                            path.push(Seg::Field(fs[j].0)),
                        )
                    &&& segs.len() == 1 || (!targets.contains(render(np)) && only_at(
                        fs[k].1,
                        targets,
                        np,
                        segs.drop_first(),
                    ))
                },
                _ => false,
            },
            Seg::Index(i) => match v {
                NbtTree::List(_, es) => {
                    let np = path.push(Seg::Index(i));
                    &&& i < es.len()
                    &&& forall|j: int|
                        0 <= j < es.len() && j != i ==> untouched(
                            #[trigger] es[j],
                            targets,
                            path.push(Seg::Index(j as usize)),
                        )
                    &&& segs.len() == 1 || (!targets.contains(render(np)) && only_at(
                        es[i as int],
                        targets,
                        np,
                        segs.drop_first(),
                    ))
                },
                _ => false,
            },
        }
    }
}

proof fn lemma_unhit(v: NbtTree, targets: Seq<Seq<char>>, path: Seq<Seg>)
    requires
        !hits(v, targets, path),
    ensures
        pruned(v, targets, path) == v,
    decreases v, 2int,
{
    match v {
        NbtTree::List(id, es) => {
            lemma_unhit_elements(es, targets, path, 0);
        },
        NbtTree::Compound(fs) => {
            lemma_unhit_fields(fs, targets, path);
        },
        _ => {},
    }
}

proof fn lemma_unhit_elements(es: Seq<NbtTree>, targets: Seq<Seq<char>>, path: Seq<Seg>, k: int)
    requires
        !hits_elements(es, targets, path, k),
    ensures
        pruned_elements(es, targets, path, k) == es,
    decreases es, 1int,
{
    if es.len() > 0 {
        let ep = path.push(Seg::Index(k as usize));
        lemma_unhit(es[0], targets, ep);
        lemma_unhit_elements(es.drop_first(), targets, path, k + 1);
        assert(seq![es[0]] + es.drop_first() =~= es);
    }
}

proof fn lemma_unhit_fields(fs: Seq<(Seq<char>, NbtTree)>, targets: Seq<Seq<char>>, path: Seq<Seg>)
    requires
        !hits_fields(fs, targets, path),
    ensures
        pruned_fields(fs, targets, path) == fs,
    decreases fs, 1int,
{
    if fs.len() > 0 {
        let fp = path.push(Seg::Field(fs[0].0));
        lemma_unhit(fs[0].1, targets, fp);
        lemma_unhit_fields(fs.drop_first(), targets, path);
        assert(seq![(fs[0].0, fs[0].1)] + fs.drop_first() =~= fs);
    }
}

/// Untouched elements are kept as they are.
proof fn lemma_untouched_elements(es: Seq<NbtTree>, targets: Seq<Seq<char>>, path: Seq<Seg>, k: int)
    requires
        forall|j: int|
            0 <= j < es.len() ==> untouched(#[trigger] es[j], targets, path.push(Seg::Index((k + j) as usize))),
    ensures
        pruned_elements(es, targets, path, k) == es,
    decreases es.len(),
{
    if es.len() > 0 {
        let ep = path.push(Seg::Index(k as usize));
        assert(untouched(es[0], targets, path.push(Seg::Index((k + 0) as usize))));
        lemma_unhit(es[0], targets, ep);
        let r = es.drop_first();
        assert forall|j: int| 0 <= j < r.len() implies untouched(
            #[trigger] r[j],
            targets,
            path.push(Seg::Index((k + 1 + j) as usize)),
        ) by {
            assert(r[j] == es[j + 1]);
            assert(untouched(es[j + 1], targets, path.push(Seg::Index((k + (j + 1)) as usize))));
        }
        lemma_untouched_elements(r, targets, path, k + 1);
        assert(seq![es[0]] + r =~= es);
    }
}

/// Untouched fields are kept as they are.
proof fn lemma_untouched_fields(fs: Seq<(Seq<char>, NbtTree)>, targets: Seq<Seq<char>>, path: Seq<Seg>)
    requires
        forall|j: int| 0 <= j < fs.len() ==> untouched(#[trigger] fs[j].1, targets, path.push(Seg::Field(fs[j].0))),
    ensures
        pruned_fields(fs, targets, path) == fs,
    decreases fs.len(),
{
    if fs.len() > 0 {
        let fp = path.push(Seg::Field(fs[0].0));
        assert(untouched(fs[0].1, targets, fp));
        lemma_unhit(fs[0].1, targets, fp);
        let r = fs.drop_first();
        assert forall|j: int| 0 <= j < r.len() implies untouched(
            #[trigger] r[j].1,
            targets,
            path.push(Seg::Field(r[j].0)),
        ) by {
            assert(r[j] == fs[j + 1]);
        }
        lemma_untouched_fields(r, targets, path);
        assert(seq![(fs[0].0, fs[0].1)] + r =~= fs);
    }
}

proof fn lemma_elements_split(a: Seq<NbtTree>, b: Seq<NbtTree>, targets: Seq<Seq<char>>, path: Seq<Seg>, k: int)
    ensures
        pruned_elements(a + b, targets, path, k) == pruned_elements(a, targets, path, k) + pruned_elements(
            b,
            targets,
            path,
            k + a.len(),
        ),
    decreases a.len(),
{
    if a.len() == 0 {
        assert(a + b =~= b);
    } else {
        let ab = a + b;
        assert(ab[0] == a[0]);
        assert(ab.drop_first() =~= a.drop_first() + b);
        lemma_elements_split(a.drop_first(), b, targets, path, k + 1);
        let ep = path.push(Seg::Index(k as usize));
        let h: Seq<NbtTree> = if targets.contains(render(ep)) {
            Seq::empty()
        } else {
            seq![pruned(a[0], targets, ep)]
        };
        let x = pruned_elements(a.drop_first(), targets, path, k + 1);
        let y = pruned_elements(b, targets, path, k + 1 + (a.len() - 1));
        assert(h + (x + y) =~= (h + x) + y);
    }
}

proof fn lemma_fields_split(
    a: Seq<(Seq<char>, NbtTree)>,
    b: Seq<(Seq<char>, NbtTree)>,
    targets: Seq<Seq<char>>,
    path: Seq<Seg>,
)
    ensures
        pruned_fields(a + b, targets, path) == pruned_fields(a, targets, path) + pruned_fields(b, targets, path),
    decreases a.len(),
{
    if a.len() == 0 {
        assert(a + b =~= b);
    } else {
        let ab = a + b;
        assert(ab[0] == a[0]);
        assert(ab.drop_first() =~= a.drop_first() + b);
        lemma_fields_split(a.drop_first(), b, targets, path);
        let fp = path.push(Seg::Field(a[0].0));
        let h: Seq<(Seq<char>, NbtTree)> = if targets.contains(render(fp)) {
            Seq::empty()
        } else {
            seq![(a[0].0, pruned(a[0].1, targets, fp))]
        };
        let x = pruned_fields(a.drop_first(), targets, path);
        let y = pruned_fields(b, targets, path);
        assert(h + (x + y) =~= (h + x) + y);
    }
}

/// Deleting at a path of two steps or more is deleting below the child that
/// the first step finds.
proof fn lemma_delete_below(t: NbtTree, segs: Seq<Seg>)
    requires
        segs.len() > 1,
    ensures
        match segs[0] {
            Seg::Field(name) => match t {
                NbtTree::Compound(fs) => field_position(fs, name) >= 0 ==> {
                    let k = field_position(fs, name);
                    delete_at(t, segs) == match delete_at(fs[k].1, segs.drop_first()) {
                        Ok(c) => Ok(NbtTree::Compound(fs.update(k, (fs[k].0, c)))),
                        Err(m) => Err::<NbtTree, Seq<char>>(m),
                    }
                },
                _ => true,
            },
            Seg::Index(i) => match t {
                NbtTree::List(id, es) => i < es.len() ==> delete_at(t, segs) == match delete_at(
                    es[i as int],
                    segs.drop_first(),
                ) {
                    Ok(c) => Ok(NbtTree::List(id, es.update(i as int, c))),
                    Err(m) => Err::<NbtTree, Seq<char>>(m),
                },
                _ => true,
            },
        },
{
    let pre = segs.drop_last();
    let rest = segs.drop_first();
    assert(pre[0] == segs[0]);
    assert(pre.drop_first() =~= rest.drop_last());
    assert(rest.last() == segs.last());
}

/// When `segs` alone leads to a value whose path text is a target, deleting
/// at `segs` is pruning the targets.
proof fn lemma_delete_is_prune(t: NbtTree, targets: Seq<Seq<char>>, path: Seq<Seg>, segs: Seq<Seg>)
    requires
        only_at(t, targets, path, segs),
        targets.contains(render(path + segs)),
    ensures
        delete_at(t, segs) == Ok::<NbtTree, Seq<char>>(pruned(t, targets, path)),
    decreases segs.len(),
{
    let rest = segs.drop_first();
    assert(path + seq![segs[0]] =~= path.push(segs[0]));
    match segs[0] {
        Seg::Field(name) => {
            if let NbtTree::Compound(fs) = t {
                lemma_position_meaning(fs, name);
                let k = field_position(fs, name);
                let np = path.push(Seg::Field(name));
                let before = fs.take(k);
                let after = fs.skip(k + 1);
                let mid = seq![fs[k]];
                assert(fs =~= before + mid + after);
                lemma_fields_split(before + mid, after, targets, path);
                lemma_fields_split(before, mid, targets, path);
                assert forall|j: int| 0 <= j < before.len() implies untouched(
                    #[trigger] before[j].1,
                    targets,
                    path.push(Seg::Field(before[j].0)),
                ) by {
                    assert(before[j] == fs[j]);
                }
                assert forall|j: int| 0 <= j < after.len() implies untouched(
                    #[trigger] after[j].1,
                    targets,
                    path.push(Seg::Field(after[j].0)),
                ) by {
                    assert(after[j] == fs[k + 1 + j]);
                }
                lemma_untouched_fields(before, targets, path);
                lemma_untouched_fields(after, targets, path);
                assert(mid.drop_first() =~= Seq::<(Seq<char>, NbtTree)>::empty());
                assert(pruned_fields(mid.drop_first(), targets, path) =~= Seq::<(Seq<char>, NbtTree)>::empty());
                assert(mid[0] == fs[k]);
                if segs.len() == 1 {
                    assert(segs =~= seq![segs[0]]);
                    assert(path + segs == np);
                    assert(segs.drop_last() =~= Seq::<Seg>::empty());
                    assert(pruned_fields(mid, targets, path) =~= Seq::<(Seq<char>, NbtTree)>::empty());
                    assert(before + after =~= fs.remove(k));
                    assert(before + Seq::<(Seq<char>, NbtTree)>::empty() =~= before);
                } else {
                    assert(np + rest =~= path + segs);
                    lemma_delete_is_prune(fs[k].1, targets, np, rest);
                    lemma_delete_below(t, segs);
                    let c = pruned(fs[k].1, targets, np);
                    assert(pruned_fields(mid, targets, path) =~= seq![(name, c)]);
                    assert(before + seq![(name, c)] + after =~= fs.update(k, (fs[k].0, c)));
                }
            }
        },
        Seg::Index(i) => {
            if let NbtTree::List(id, es) = t {
                let ii = i as int;
                let np = path.push(Seg::Index(i));
                let before = es.take(ii);
                let after = es.skip(ii + 1);
                let mid = seq![es[ii]];
                assert(es =~= before + mid + after);
                lemma_elements_split(before + mid, after, targets, path, 0);
                lemma_elements_split(before, mid, targets, path, 0);
                assert forall|j: int| 0 <= j < before.len() implies untouched(
                    #[trigger] before[j],
                    targets,
                    path.push(Seg::Index((0 + j) as usize)),
                ) by {
                    assert(before[j] == es[j]);
                }
                assert forall|j: int| 0 <= j < after.len() implies untouched(
                    #[trigger] after[j],
                    targets,
                    path.push(Seg::Index((ii + 1 + j) as usize)),
                ) by {
                    assert(after[j] == es[ii + 1 + j]);
                }
                lemma_untouched_elements(before, targets, path, 0);
                lemma_untouched_elements(after, targets, path, ii + 1);
                assert(mid.drop_first() =~= Seq::<NbtTree>::empty());
                assert(pruned_elements(mid.drop_first(), targets, path, ii + 1) =~= Seq::<NbtTree>::empty());
                assert(mid[0] == es[ii]);
                if segs.len() == 1 {
                    assert(segs =~= seq![segs[0]]);
                    assert(path + segs == np);
                    assert(segs.drop_last() =~= Seq::<Seg>::empty());
                    assert(pruned_elements(mid, targets, path, ii) =~= Seq::<NbtTree>::empty());
                    assert(before + after =~= es.remove(ii));
                    assert(before + Seq::<NbtTree>::empty() =~= before);
                } else {
                    assert(np + rest =~= path + segs);
                    lemma_delete_is_prune(es[ii], targets, np, rest);
                    lemma_delete_below(t, segs);
                    let c = pruned(es[ii], targets, np);
                    assert(pruned_elements(mid, targets, path, ii) =~= seq![c]);
                    assert(before + seq![c] + after =~= es.update(ii, c));
                }
            }
        },
    }
}

/// The streaming delete of the path text of `segs` and the in-memory delete
/// at `segs` agree: where no other value of the document has that path text,
/// the in-memory delete succeeds, and a streaming delete of the written
/// document that succeeds writes the document of the in-memory result.
pub proof fn lemma_streaming_delete_agrees(
    p: PlatformType,
    segs: Seq<Seg>,
    d: spec_fn(NbtTree) -> bool,
    name: Seq<char>,
    v: NbtTree,
    t: Tally,
)
    requires
        v is List || v is Compound,
        enc_tag(p, name) is Some,
        enc_payload(p, v) is Ok,
        modified_utf8_roundtrips(name),
        texts_roundtrip(p, v),
        only_at(v, seq![render(segs)], Seq::empty(), segs),
    ensures
        delete_at(v, segs) is Ok,
        sp_document(
            p,
            EditPlan::Delete { targets: seq![render(segs)], lists: None },
            d,
            t,
            seq![tree_id(v)] + enc_tag(p, name)->Some_0 + enc_payload(p, v)->Ok_0,
        ) matches Ok((out, _)) ==> enc_payload(p, delete_at(v, segs)->Ok_0) is Ok && out == seq![tree_id(v)]
            + enc_tag(p, name)->Some_0 + enc_payload(p, delete_at(v, segs)->Ok_0)->Ok_0,
{
    let targets = seq![render(segs)];
    assert(Seq::<Seg>::empty() + segs =~= segs);
    assert(targets.contains(render(segs))) by {
        assert(targets[0] == render(segs));
    }
    lemma_delete_is_prune(v, targets, Seq::empty(), segs);
    lemma_delete_edit_prunes(p, targets, d, name, v, t);
}

} // verus!
