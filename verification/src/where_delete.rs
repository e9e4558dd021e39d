//! Deleting, in the tree, the compound elements of lists that `--where`
//! clauses pick. Which elements are picked is the caller's decision.
use vstd::prelude::*;
use crate::edit::{find_ref, lookup, replace_at, replace_at_path};
use crate::path::{path_segments_to_string, paths_of, render, segs_of, PathSegment, Seg};
use crate::stream::decides;
use crate::tag_id;
use crate::tree::{copy_value, lemma_list_view, trees_of, NbtTree, NbtValue};

verus! {

/// The elements that stay: all but the compounds that `d` picks.
pub open spec fn kept_by(es: Seq<NbtTree>, d: spec_fn(NbtTree) -> bool) -> Seq<NbtTree>
    decreases es.len(),
{
    if es.len() == 0 {
        Seq::empty()
    } else {
        let r = kept_by(es.drop_last(), d);
        if es.last() is Compound && d(es.last()) { r } else { r.push(es.last()) }
    }
}

/// `a + b`, or `usize::MAX` where that is more.
pub open spec fn add_capped(a: int, b: int) -> int {
    if a + b > usize::MAX { usize::MAX as int } else { a + b }
}

/// Deleting the picked elements of the lists at `lists`, in order, with
/// `count` deleted so far: the tree and the count afterwards (capped at
/// `usize::MAX`), or the error of the first path that leads to no list. A
/// list left without elements becomes a list of TAG_End.
pub open spec fn where_deleted(t: NbtTree, lists: Seq<Seq<Seg>>, d: spec_fn(NbtTree) -> bool, count: int) -> Result<
    (NbtTree, int),
    Seq<char>,
>
    decreases lists.len(),
{
    if lists.len() == 0 {
        Ok((t, count))
    } else {
        match lookup(t, lists[0]) {
            Err(m) => Err("path not found during delete: "@ + m),
            Ok(x) => match x {
                NbtTree::List(id, es) => {
                    let kept = kept_by(es, d);
                    let x2 = NbtTree::List(if kept.len() == 0 { tag_id::END } else { id }, kept);
                    where_deleted(
                        replace_at(t, lists[0], x2),
                        lists.drop_first(),
                        d,
                        add_capped(count, es.len() - kept.len()),
                    )
                },
                _ => Err("path is not a list: "@ + render(lists[0])),
            },
        }
    }
}

proof fn lemma_kept_len(es: Seq<NbtTree>, d: spec_fn(NbtTree) -> bool)
    ensures
        kept_by(es, d).len() <= es.len(),
    decreases es.len(),
{
    if es.len() > 0 {
        lemma_kept_len(es.drop_last(), d);
    }
}

/// Deletes, in each list that `lists` lead to, the compound elements that
/// `decide` picks, and returns how many were deleted (capped at
/// `usize::MAX`). A list left without elements becomes a list of TAG_End.
/// A path that leads to no list stops it with an error.
pub fn delete_where_in_lists<F: Fn(&NbtValue) -> bool>(
    document: &mut NbtValue,
    lists: &Vec<Vec<PathSegment>>,
    decide: &F,
) -> (r: Result<usize, String>)
    requires
        forall|v: &NbtValue| decide.requires((v,)),
    ensures
        forall|d: spec_fn(NbtTree) -> bool| #[trigger] decides(*decide, d) ==> match where_deleted(
            old(document)@,
            paths_of(lists@),
            d,
            0,
        ) {
            Ok((t, n)) => r == Ok::<usize, String>(n as usize) && final(document)@ == t,
            Err(m) => r matches Err(e) && e@ == m,
        },
{
    let ghost ps = paths_of(lists@);
    let mut deleted: usize = 0;
    let mut i: usize = 0;
    assert(ps.skip(0) =~= ps);
    while i < lists.len()
        invariant
            i <= lists@.len(),
            ps == paths_of(lists@),
            forall|v: &NbtValue| decide.requires((v,)),
            forall|d: spec_fn(NbtTree) -> bool| #[trigger] decides(*decide, d) ==> where_deleted(
                document@,
                ps.skip(i as int),
                d,
                deleted as int,
            ) == where_deleted(old(document)@, ps, d, 0),
        decreases lists@.len() - i,
    {
        let ghost cur = document@;
        let path = &lists[i];
        assert(ps.skip(i as int)[0] == segs_of(path@));
        assert(ps.skip(i as int).drop_first() =~= ps.skip(i + 1));
        let target = match find_ref(document, path.as_slice()) {
            Ok(t) => t,
            Err(e) => {
                let mut m = String::from_str("path not found during delete: ");
                m.append(e.as_str());
                return Err(m);
            },
        };
        let (id, elements) = match target {
            NbtValue::List { id, elements } => (*id, elements),
            _ => {
                let mut m = String::from_str("path is not a list: ");
                let text = path_segments_to_string(path.as_slice());
                m.append(text.as_str());
                return Err(m);
            },
        };
        proof {
            lemma_list_view(id, *elements);
        }
        let ghost es = trees_of(elements@);
        let mut kept: Vec<NbtValue> = Vec::new();
        let mut j: usize = 0;
        while j < elements.len()
            invariant
                j <= elements@.len(),
                kept@.len() <= j,
                es == trees_of(elements@),
                forall|v: &NbtValue| decide.requires((v,)),
                forall|d: spec_fn(NbtTree) -> bool| #[trigger] decides(*decide, d) ==> trees_of(kept@) == kept_by(
                    es.take(j as int),
                    d,
                ),
            decreases elements@.len() - j,
        {
            let e = &elements[j];
            let compound = match e {
                NbtValue::Compound(_) => true,
                _ => false,
            };
            let drop = compound && decide(e);
            let ghost before = trees_of(kept@);
            if !drop {
                kept.push(copy_value(e));
            }
            proof {
                assert(es.take(j + 1).drop_last() =~= es.take(j as int));
                assert(es.take(j + 1).last() == e@);
                assert forall|d: spec_fn(NbtTree) -> bool| #[trigger] decides(*decide, d) implies trees_of(kept@)
                    == kept_by(es.take(j + 1), d) by {
                    if compound {
                        assert(decide.ensures((e,), drop));
                    }
                    if !drop {
                        assert(trees_of(kept@) =~= before.push(e@));
                    } else {
                        assert(trees_of(kept@) =~= before);
                    }
                }
            }
            j = j + 1;
        }
        assert(es.take(elements@.len() as int) =~= es);
        let gone = elements.len() - kept.len();
        let new_id = if kept.len() == 0 { tag_id::END } else { id };
        proof {
            lemma_list_view(new_id, kept);
            assert forall|d: spec_fn(NbtTree) -> bool| #[trigger] decides(*decide, d) implies gone == es.len()
                - kept_by(es, d).len() by {
                lemma_kept_len(es, d);
            }
        }
        let _ = replace_at_path(document, path.as_slice(), NbtValue::List { id: new_id, elements: kept });
        deleted = deleted.saturating_add(gone);
        i = i + 1;
    }
    assert(ps.skip(i as int) =~= Seq::<Seq<Seg>>::empty());
    Ok(deleted)
}


/// What stays of a list under a where delete: every element that is not a
/// compound, every compound that `d` does not pick, and nothing else, in
/// the order they came.
pub proof fn lemma_kept_by_picks(es: Seq<NbtTree>, d: spec_fn(NbtTree) -> bool)
    ensures
        forall|k: int| 0 <= k < kept_by(es, d).len() ==> !(#[trigger] kept_by(es, d)[k] is Compound && d(
            kept_by(es, d)[k],
        )),
        forall|k: int| 0 <= k < es.len() && !(#[trigger] es[k] is Compound && d(es[k])) ==> kept_by(es, d).contains(
            es[k],
        ),
        kept_by(es, d).len() <= es.len(),
        (forall|k: int| 0 <= k < es.len() ==> !(#[trigger] es[k] is Compound && d(es[k]))) ==> kept_by(es, d) == es,
    decreases es.len(),
{
    if es.len() > 0 {
        let r = es.drop_last();
        lemma_kept_by_picks(r, d);
        let kr = kept_by(r, d);
        let kept = kept_by(es, d);
        assert forall|k: int| 0 <= k < es.len() && !(#[trigger] es[k] is Compound && d(es[k])) implies kept.contains(
            es[k],
        ) by {
            if k < es.len() - 1 {
                assert(es[k] == r[k]);
                assert(kr.contains(r[k]));
                let q = choose|q: int| 0 <= q < kr.len() && kr[q] == r[k];
                assert(kept[q] == kr[q]);
            } else {
                assert(kept[kept.len() - 1] == es.last());
            }
        }
        if forall|k: int| 0 <= k < es.len() ==> !(#[trigger] es[k] is Compound && d(es[k])) {
            assert forall|k: int| 0 <= k < r.len() implies !(#[trigger] r[k] is Compound && d(r[k])) by {
                assert(r[k] == es[k]);
            }
            assert(!(es[es.len() - 1] is Compound && d(es[es.len() - 1])));
            assert(kept =~= es);
        }
    }
}

} // verus!
