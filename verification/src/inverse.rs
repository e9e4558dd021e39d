//! Deleting a value that was just created at a path gives the tree back; and
//! what deleting children counts.
use vstd::prelude::*;
use crate::edit::{
    apply_groups, create_at, delete_at, delete_at_node, elements_without, field_position, fields_without,
    lemma_lookup_after_replace, lookup, names_field, names_index, remove_child, replace_at, Group,
};
use crate::path::Seg;
use crate::tag_id;
use crate::tree::NbtTree;

verus! {

/// Creating below a container that exists changes that container alone.
proof fn lemma_create_below(t: NbtTree, segs: Seq<Seg>, v: NbtTree)
    requires
        segs.len() >= 1,
        lookup(t, segs.drop_last()) is Ok,
    ensures
        create_at(t, segs, v) == ({
            let r = create_at(lookup(t, segs.drop_last())->Ok_0, seq![segs.last()], v);
            (replace_at(t, segs.drop_last(), r.0), r.1)
        }),
    decreases segs.len(),
{
    if segs.len() == 1 {
        assert(segs =~= seq![segs.last()]);
        assert(segs.drop_last() =~= Seq::<Seg>::empty());
    } else {
        let rest = segs.drop_first();
        assert(rest.drop_last() =~= segs.drop_last().drop_first());
        assert(rest.last() == segs.last());
        assert(segs.drop_last()[0] == segs[0]);
        match segs[0] {
            Seg::Field(name) => {
                if let NbtTree::Compound(fs) = t {
                    let k = field_position(fs, name);
                    lemma_create_below(fs[k].1, rest, v);
                }
            },
            Seg::Index(i) => {
                if let NbtTree::List(id, es) = t {
                    lemma_create_below(es[i as int], rest, v);
                }
            },
        }
    }
}

/// Setting a subtree twice keeps the second.
proof fn lemma_replace_twice(t: NbtTree, segs: Seq<Seg>, x: NbtTree, y: NbtTree)
    requires
        lookup(t, segs) is Ok,
    ensures
        replace_at(replace_at(t, segs, x), segs, y) == replace_at(t, segs, y),
    decreases segs.len(),
{
    if segs.len() > 0 {
        let rest = segs.drop_first();
        match segs[0] {
            Seg::Field(name) => {
                if let NbtTree::Compound(fs) = t {
                    let k = field_position(fs, name);
                    crate::edit::lemma_position_meaning(fs, name);
                    lemma_replace_twice(fs[k].1, rest, x, y);
                    let fx = fs.update(k, (fs[k].0, replace_at(fs[k].1, rest, x)));
                    crate::edit::lemma_position_update(fs, k, replace_at(fs[k].1, rest, x), name);
                    assert(fx.update(k, (fx[k].0, replace_at(fx[k].1, rest, y)))
                        =~= fs.update(k, (fs[k].0, replace_at(fs[k].1, rest, y))));
                }
            },
            Seg::Index(i) => {
                if let NbtTree::List(id, es) = t {
                    lemma_replace_twice(es[i as int], rest, x, y);
                    let ex = es.update(i as int, replace_at(es[i as int], rest, x));
                    assert(ex.update(i as int, replace_at(ex[i as int], rest, y))
                        =~= es.update(i as int, replace_at(es[i as int], rest, y)));
                }
            },
        }
    }
}

/// Setting a subtree to what it is changes nothing.
proof fn lemma_replace_same(t: NbtTree, segs: Seq<Seg>)
    requires
        lookup(t, segs) is Ok,
    ensures
        replace_at(t, segs, lookup(t, segs)->Ok_0) == t,
    decreases segs.len(),
{
    if segs.len() > 0 {
        let rest = segs.drop_first();
        match segs[0] {
            Seg::Field(name) => {
                if let NbtTree::Compound(fs) = t {
                    let k = field_position(fs, name);
                    crate::edit::lemma_position_meaning(fs, name);
                    lemma_replace_same(fs[k].1, rest);
                    assert(fs.update(k, (fs[k].0, fs[k].1)) =~= fs);
                }
            },
            Seg::Index(i) => {
                if let NbtTree::List(id, es) = t {
                    lemma_replace_same(es[i as int], rest);
                    assert(es.update(i as int, es[i as int]) =~= es);
                }
            },
        }
    }
}

/// Removing the child just added to a container gives the container back.
proof fn lemma_remove_created(parent: NbtTree, step: Seg, v: NbtTree)
    requires
        create_at(parent, seq![step], v).1 is None,
        !(parent matches NbtTree::List(id, es) && es.len() == 0 && id != tag_id::END),
    ensures
        remove_child(create_at(parent, seq![step], v).0, step) == Ok::<NbtTree, Seq<char>>(parent),
{
    match step {
        Seg::Field(name) => {
            if let NbtTree::Compound(fs) = parent {
                crate::edit::lemma_position_push(fs, name, v);
                assert(fs.push((name, v)).remove(fs.len() as int) =~= fs);
            }
        },
        Seg::Index(i) => {
            if let NbtTree::List(id, es) = parent {
                assert(es.push(v).remove(es.len() as int) =~= es);
            }
        },
    }
}

/// Deleting the value just created at a path gives the tree back, when only
/// the last step of the path was new. An empty list of another kind than
/// TAG_End is left out: deleting its only element leaves an empty list of
/// TAG_End.
pub proof fn lemma_delete_after_create(t: NbtTree, segs: Seq<Seg>, v: NbtTree)
    requires
        create_at(t, segs, v).1 is None,
        segs.len() > 0 ==> lookup(t, segs.drop_last()) is Ok,
        segs.len() > 0 ==> !(lookup(t, segs.drop_last())->Ok_0 matches NbtTree::List(id, es) && es.len() == 0 && id
            != tag_id::END),
    ensures
        delete_at(create_at(t, segs, v).0, segs) == Ok::<NbtTree, Seq<char>>(t),
{
    let prefix = segs.drop_last();
    let parent = lookup(t, prefix)->Ok_0;
    let made = create_at(parent, seq![segs.last()], v);
    lemma_create_below(t, segs, v);
    lemma_lookup_after_replace(t, prefix, made.0);
    lemma_remove_created(parent, segs.last(), v);
    lemma_replace_twice(t, prefix, made.0, parent);
    lemma_replace_same(t, prefix);
}


/// The number of fields whose names are among the names to delete.
pub open spec fn named_fields(fs: Seq<(Seq<char>, NbtTree)>, tails: Seq<Seg>) -> nat
    decreases fs.len(),
{
    if fs.len() == 0 {
        0
    } else {
        named_fields(fs.drop_last(), tails) + if names_field(tails, fs.last().0) { 1nat } else { 0nat }
    }
}

/// The number of positions below `n` that are among the indices to delete.
pub open spec fn named_indices(n: nat, tails: Seq<Seg>) -> nat
    decreases n,
{
    if n == 0 {
        0
    } else {
        named_indices((n - 1) as nat, tails) + if names_index(tails, n - 1) { 1nat } else { 0nat }
    }
}

proof fn lemma_fields_without_count(fs: Seq<(Seq<char>, NbtTree)>, tails: Seq<Seg>)
    ensures
        fields_without(fs, tails).len() + named_fields(fs, tails) == fs.len(),
        forall|k: int| 0 <= k < fields_without(fs, tails).len() ==> !names_field(tails, #[trigger] fields_without(fs, tails)[k].0),
    decreases fs.len(),
{
    if fs.len() > 0 {
        lemma_fields_without_count(fs.drop_last(), tails);
        let r = fields_without(fs.drop_last(), tails);
        assert forall|k: int| 0 <= k < fields_without(fs, tails).len() implies !names_field(tails, #[trigger] fields_without(fs, tails)[k].0) by {
            if k < r.len() {
                assert(fields_without(fs, tails)[k] == r[k]);
            }
        }
    }
}

proof fn lemma_elements_without_count(es: Seq<NbtTree>, tails: Seq<Seg>)
    ensures
        elements_without(es, tails).len() + named_indices(es.len(), tails) == es.len(),
    decreases es.len(),
{
    if es.len() > 0 {
        lemma_elements_without_count(es.drop_last(), tails);
    }
}

/// Deleting children of one container, when it succeeds, counts exactly the
/// children it removes: the fields whose names are named, or the elements
/// whose positions are named. The container keeps its kind and has that many
/// children fewer, no kept field has a name to delete, and a list left
/// without elements becomes a list of TAG_End (any other keeps its kind of
/// element).
pub proof fn lemma_delete_node_counts(node: NbtTree, tails: Seq<Seg>)
    requires
        delete_at_node(node, tails) is Ok,
    ensures
        ({
            let (n2, c) = delete_at_node(node, tails)->Ok_0;
            match node {
                NbtTree::Compound(fs) => n2 matches NbtTree::Compound(kept) && c == named_fields(fs, tails) && kept.len()
                    + c == fs.len() && forall|k: int| 0 <= k < kept.len() ==> !names_field(tails, #[trigger] kept[k].0),
                NbtTree::List(id, es) => n2 matches NbtTree::List(id2, kept) && c == named_indices(es.len(), tails)
                    && kept.len() + c == es.len() && (kept.len() == 0 ==> id2 == tag_id::END) && (kept.len() > 0 ==> id2
                    == id),
                _ => false,
            }
        }),
{
    match node {
        NbtTree::Compound(fs) => {
            lemma_fields_without_count(fs, tails);
        },
        NbtTree::List(id, es) => {
            lemma_elements_without_count(es, tails);
        },
        _ => {},
    }
}

/// The number of children of a container (none for any other value).
pub open spec fn child_count(t: NbtTree) -> nat {
    match t {
        NbtTree::Compound(fs) => fs.len(),
        NbtTree::List(_, es) => es.len(),
        _ => 0,
    }
}

/// Applying the groups in order, the children that each group's container
/// has fewer after its deletion, summed.
pub open spec fn removed_children(t: NbtTree, gs: Seq<Group>) -> int
    decreases gs.len(),
{
    if gs.len() == 0 {
        0
    } else {
        match lookup(t, gs[0].1) {
            Err(_) => 0,
            Ok(node) => match delete_at_node(node, gs[0].2) {
                Err(_) => 0,
                Ok((n2, _)) => child_count(node) - child_count(n2) + removed_children(
                    replace_at(t, gs[0].1, n2),
                    gs.drop_first(),
                ),
            },
        }
    }
}

/// Applying the groups in order, each group's container, once its children
/// are deleted, is a list of TAG_End if it is a list left without elements.
pub open spec fn emptied_lists_end(t: NbtTree, gs: Seq<Group>) -> bool
    decreases gs.len(),
{
    gs.len() > 0 ==> match lookup(t, gs[0].1) {
        Err(_) => true,
        Ok(node) => match delete_at_node(node, gs[0].2) {
            Err(_) => true,
            Ok((n2, _)) => (n2 is List && n2->List_1.len() == 0 ==> n2->List_0 == tag_id::END)
                && emptied_lists_end(replace_at(t, gs[0].1, n2), gs.drop_first()),
        },
    }
}

/// A delete by groups of paths ([`crate::edit::delete_paths`]) that meets no
/// error counts exactly the compound fields and list elements it removes,
/// and every list it leaves without elements becomes a list of TAG_End.
pub proof fn lemma_delete_paths_counts(t: NbtTree, gs: Seq<Group>)
    requires
        apply_groups(t, gs).2 is None,
    ensures
        apply_groups(t, gs).1 == removed_children(t, gs),
        emptied_lists_end(t, gs),
    decreases gs.len(),
{
    if gs.len() > 0 {
        let node = lookup(t, gs[0].1)->Ok_0;
        lemma_delete_node_counts(node, gs[0].2);
        let n2 = delete_at_node(node, gs[0].2)->Ok_0.0;
        lemma_delete_paths_counts(replace_at(t, gs[0].1, n2), gs.drop_first());
    }
}

} // verus!
