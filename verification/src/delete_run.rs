//! The steps of the delete command once the chosen paths are found: keep the
//! most specific ones, then delete them in the tree or turn them into a plan
//! for the streaming edit.
use vstd::prelude::*;
use crate::edit::{apply_groups, delete_paths, delete_root_message, group_paths, has_empty_path, sort_groups};
use crate::path::{
    is_prefix_path, keep_specific, normalize_delete_paths, path_segments_to_string, paths_of, render, segs_of,
    sort_paths, PathSegment, Seg,
};
use crate::path_order::lemma_normalized_paths;
use crate::stream::{texts_of, EditPlan, Plan};
use crate::tree::NbtValue;

verus! {

/// The paths that a delete of the chosen paths `ps` acts on.
pub open spec fn delete_targets(ps: Seq<Seq<Seg>>) -> Seq<Seq<Seg>> {
    keep_specific(sort_paths(ps))
}

proof fn lemma_targets_nonempty(ps: Seq<Seq<Seg>>)
    requires
        ps.len() > 0,
    ensures
        delete_targets(ps).len() > 0,
{
    lemma_normalized_paths(ps);
    let r = delete_targets(ps);
    assert(exists|k: int| 0 <= k < r.len() && is_prefix_path(#[trigger] ps[0], #[trigger] r[k]));
}

/// Deletes, in the tree, the values that the chosen paths `matched` lead to,
/// keeping the most specific paths only. `Err(None)` tells that nothing was
/// chosen or nothing was deleted; `Err(Some(e))` carries the error of the
/// delete.
pub fn delete_matched(document: &mut NbtValue, matched: Vec<Vec<PathSegment>>) -> (r: Result<usize, Option<String>>)
    requires
        !has_empty_path(delete_targets(paths_of(matched@))) ==> apply_groups(
            old(document)@,
            sort_groups(group_paths(delete_targets(paths_of(matched@)))),
        ).1 <= usize::MAX,
    ensures
        ({
            let ts = delete_targets(paths_of(matched@));
            &&& matched@.len() == 0 ==> r == Err::<usize, Option<String>>(None) && final(document)@ == old(
                document,
            )@
            &&& matched@.len() > 0 && has_empty_path(ts) ==> (r matches Err(Some(e)) && e@ == delete_root_message())
                && final(document)@ == old(document)@
            &&& matched@.len() > 0 && !has_empty_path(ts) ==> ({
                let res = apply_groups(old(document)@, sort_groups(group_paths(ts)));
                &&& final(document)@ == res.0
                &&& match res.2 {
                    None => if res.1 == 0 {
                        r == Err::<usize, Option<String>>(None)
                    } else {
                        r == Ok::<usize, Option<String>>(res.1 as usize)
                    },
                    Some(m) => r matches Err(Some(e)) && e@ == m,
                }
            })
        }),
{
    if matched.len() == 0 {
        return Err(None);
    }
    proof {
        lemma_targets_nonempty(paths_of(matched@));
    }
    let targets = normalize_delete_paths(matched);
    match delete_paths(document, targets) {
        Ok(0) => Err(None),
        Ok(n) => Ok(n),
        Err(e) => Err(Some(e)),
    }
}

/// The plan of a streaming delete of the chosen paths `matched`: the path
/// texts of the most specific ones. `Err(None)` tells that nothing was
/// chosen; `Err(Some(e))` that the root would be deleted.
pub fn stream_delete_plan(matched: Vec<Vec<PathSegment>>) -> (r: Result<Plan, Option<String>>)
    ensures
        ({
            let ts = delete_targets(paths_of(matched@));
            &&& matched@.len() == 0 ==> r == Err::<Plan, Option<String>>(None)
            &&& matched@.len() > 0 && has_empty_path(ts) ==> (r matches Err(Some(e)) && e@ == delete_root_message())
            &&& matched@.len() > 0 && !has_empty_path(ts) ==> (r matches Ok(plan) && plan@ == (EditPlan::Delete {
                targets: ts.map_values(|s: Seq<Seg>| render(s)),
                lists: None,
            }))
        }),
{
    if matched.len() == 0 {
        return Err(None);
    }
    let ghost ts = delete_targets(paths_of(matched@));
    let kept = normalize_delete_paths(matched);
    let mut texts: Vec<String> = Vec::new();
    let mut i: usize = 0;
    while i < kept.len()
        invariant
            i <= kept@.len(),
            matched@.len() > 0,
            ts == delete_targets(paths_of(matched@)),
            paths_of(kept@) == ts,
            texts@.len() == i,
            forall|k: int| 0 <= k < i ==> (#[trigger] texts@[k])@ == render(ts[k]),
            forall|k: int| 0 <= k < i ==> (#[trigger] ts[k]).len() > 0,
        decreases kept@.len() - i,
    {
        assert(paths_of(kept@)[i as int] == segs_of(kept@[i as int]@));
        if kept[i].len() == 0 {
            proof {
                assert(ts[i as int].len() == 0);
            }
            return Err(Some(String::from_str("cannot delete root value")));
        }
        let t = path_segments_to_string(kept[i].as_slice());
        texts.push(t);
        i = i + 1;
    }
    proof {
        assert(texts_of(texts@) =~= ts.map_values(|s: Seq<Seg>| render(s)));
    }
    Ok(Plan::Delete { targets: texts, lists: None })
}

} // verus!
