//! Looking up and editing a document tree by path.
use vstd::prelude::*;
use crate::path::{chars_less, copy_path, copy_segment, path_segments_to_string, paths_of, render, segs_of, text_less, PathSegment, Seg};
use crate::tag_id;
use crate::text::chars_of;
use crate::text::{decimal, push_decimal};
use crate::codec::{component_id, mismatch_error};
use crate::tree::{copy_value, fields_of, lemma_compound_view, lemma_list_view, mismatch_message, tree_id, trees_of, NbtTree, NbtValue};

verus! {

// ----- messages -----

/// The message for a field step on something that is not a compound.
pub open spec fn expects_field_message(name: Seq<char>) -> Seq<char> {
    "path expects compound field '"@ + name + "'"@
}

/// The message for a field step to a name that the compound lacks.
pub open spec fn field_not_found_message(name: Seq<char>) -> Seq<char> {
    "field not found: "@ + name
}

/// The message for an index step on something that is not a list.
pub open spec fn expects_index_message(index: nat) -> Seq<char> {
    "path expects list index ["@ + decimal(index) + "]"@
}

/// The message for an index past the end of a list.
pub open spec fn out_of_range_message(index: nat) -> Seq<char> {
    "list index out of range: "@ + decimal(index)
}

/// The error for a field step on something that is not a compound.
pub fn expects_field_error(name: &str) -> (e: String)
    ensures
        e@ == expects_field_message(name@),
{
    let mut text = String::from_str("path expects compound field '");
    text.append(name);
    text.append("'");
    text
}

/// The error for a field step to a name that the compound lacks.
pub fn field_not_found_error(name: &str) -> (e: String)
    ensures
        e@ == field_not_found_message(name@),
{
    let mut text = String::from_str("field not found: ");
    text.append(name);
    text
}

/// The error for an index step on something that is not a list.
pub fn expects_index_error(index: usize) -> (e: String)
    ensures
        e@ == expects_index_message(index as nat),
{
    let mut text = String::from_str("path expects list index [");
    push_decimal(&mut text, index as u64);
    text.append("]");
    text
}

/// The error for an index past the end of a list.
pub fn out_of_range_error(index: usize) -> (e: String)
    ensures
        e@ == out_of_range_message(index as nat),
{
    let mut text = String::from_str("list index out of range: ");
    push_decimal(&mut text, index as u64);
    text
}

// ----- the model -----

/// The position of the first field named `name`, or -1.
pub open spec fn field_position(fs: Seq<(Seq<char>, NbtTree)>, name: Seq<char>) -> int
    decreases fs.len(),
{
    if fs.len() == 0 {
        -1
    } else if fs[0].0 == name {
        0
    } else {
        let r = field_position(fs.drop_first(), name);
        if r < 0 { -1 } else { r + 1 }
    }
}

/// The subtree that a path leads to, or the error of the first step that fails.
pub open spec fn lookup(t: NbtTree, segs: Seq<Seg>) -> Result<NbtTree, Seq<char>>
    decreases segs.len(),
{
    if segs.len() == 0 {
        Ok(t)
    } else {
        match segs[0] {
            Seg::Field(name) => match t {
                NbtTree::Compound(fs) => {
                    let k = field_position(fs, name);
                    if k < 0 { Err(field_not_found_message(name)) } else { lookup(fs[k].1, segs.drop_first()) }
                },
                _ => Err(expects_field_message(name)),
            },
            Seg::Index(i) => match t {
                NbtTree::List(_, es) => if i < es.len() {
                    lookup(es[i as int], segs.drop_first())
                } else {
                    Err(out_of_range_message(i as nat))
                },
                _ => Err(expects_index_message(i as nat)),
            },
        }
    }
}

/// `t` with the subtree that the path leads to replaced by `new` (unchanged
/// when the path leads nowhere).
pub open spec fn replace_at(t: NbtTree, segs: Seq<Seg>, new: NbtTree) -> NbtTree
    decreases segs.len(),
{
    if segs.len() == 0 {
        new
    } else {
        match segs[0] {
            Seg::Field(name) => match t {
                NbtTree::Compound(fs) => {
                    let k = field_position(fs, name);
                    if k < 0 {
                        t
                    } else {
                        NbtTree::Compound(fs.update(k, (fs[k].0, replace_at(fs[k].1, segs.drop_first(), new))))
                    }
                },
                _ => t,
            },
            Seg::Index(i) => match t {
                NbtTree::List(id, es) => if i < es.len() {
                    NbtTree::List(id, es.update(i as int, replace_at(es[i as int], segs.drop_first(), new)))
                } else {
                    t
                },
                _ => t,
            },
        }
    }
}

pub proof fn lemma_first_field(fs: Seq<(Seq<char>, NbtTree)>, name: Seq<char>, k: int)
    requires
        0 <= k <= fs.len(),
        forall|j: int| 0 <= j < k ==> #[trigger] fs[j].0 != name,
        k < fs.len() ==> fs[k].0 == name,
    ensures
        field_position(fs, name) == if k < fs.len() { k } else { -1 },
    decreases fs.len(),
{
    if fs.len() > 0 && k > 0 {
        let t = fs.drop_first();
        assert forall|j: int| 0 <= j < k - 1 implies #[trigger] t[j].0 != name by {
            assert(t[j] == fs[j + 1]);
        }
        lemma_first_field(t, name, k - 1);
    }
}

/// What a field position tells: the first field with the name, or none.
pub proof fn lemma_position_meaning(fs: Seq<(Seq<char>, NbtTree)>, name: Seq<char>)
    ensures
        -1 <= field_position(fs, name) < fs.len(),
        field_position(fs, name) >= 0 ==> fs[field_position(fs, name)].0 == name,
        forall|j: int| 0 <= j < fs.len() && (field_position(fs, name) < 0 || j < field_position(fs, name))
            ==> #[trigger] fs[j].0 != name,
    decreases fs.len(),
{
    if fs.len() > 0 {
        let t = fs.drop_first();
        lemma_position_meaning(t, name);
        assert forall|j: int| 0 <= j < fs.len() && (field_position(fs, name) < 0 || j < field_position(fs, name))
            implies #[trigger] fs[j].0 != name by {
            if j > 0 {
                assert(fs[j] == t[j - 1]);
            }
        }
    }
}

/// Changing field values, not names, keeps where a name is found.
pub proof fn lemma_position_update(fs: Seq<(Seq<char>, NbtTree)>, k: int, x: NbtTree, name: Seq<char>)
    requires
        0 <= k < fs.len(),
    ensures
        field_position(fs.update(k, (fs[k].0, x)), name) == field_position(fs, name),
{
    lemma_position_meaning(fs, name);
    let u = fs.update(k, (fs[k].0, x));
    let p = field_position(fs, name);
    let stop = if p >= 0 { p } else { fs.len() as int };
    assert forall|j: int| 0 <= j < stop implies #[trigger] u[j].0 != name by {
        assert(u[j].0 == fs[j].0);
    }
    lemma_first_field(u, name, stop);
}

/// A field pushed under a name that no field has is found at the end.
pub proof fn lemma_position_push(fs: Seq<(Seq<char>, NbtTree)>, name: Seq<char>, x: NbtTree)
    requires
        field_position(fs, name) < 0,
    ensures
        field_position(fs.push((name, x)), name) == fs.len(),
{
    lemma_position_meaning(fs, name);
    let u = fs.push((name, x));
    assert forall|j: int| 0 <= j < fs.len() implies #[trigger] u[j].0 != name by {
        assert(u[j] == fs[j]);
    }
    lemma_first_field(u, name, fs.len() as int);
}

/// Setting the value that a path leads to, then looking the path up, gives
/// the value set.
pub proof fn lemma_lookup_after_replace(t: NbtTree, segs: Seq<Seg>, new: NbtTree)
    requires
        lookup(t, segs) is Ok,
    ensures
        lookup(replace_at(t, segs, new), segs) == Ok::<NbtTree, Seq<char>>(new),
    decreases segs.len(),
{
    if segs.len() > 0 {
        let rest = segs.drop_first();
        match segs[0] {
            Seg::Field(name) => {
                if let NbtTree::Compound(fs) = t {
                    lemma_position_meaning(fs, name);
                    let k = field_position(fs, name);
                    lemma_lookup_after_replace(fs[k].1, rest, new);
                    lemma_position_update(fs, k, replace_at(fs[k].1, rest, new), name);
                }
            },
            Seg::Index(i) => {
                if let NbtTree::List(id, es) = t {
                    lemma_lookup_after_replace(es[i as int], rest, new);
                }
            },
        }
    }
}

/// Creating a value at a path, when it succeeds, then looking the path up,
/// gives the value created.
pub proof fn lemma_lookup_after_create(t: NbtTree, segs: Seq<Seg>, v: NbtTree)
    requires
        create_at(t, segs, v).1 is None,
    ensures
        lookup(create_at(t, segs, v).0, segs) == Ok::<NbtTree, Seq<char>>(v),
    decreases segs.len(),
{
    let rest = segs.drop_first();
    if segs.len() == 1 {
        assert(lookup(v, rest) == Ok::<NbtTree, Seq<char>>(v));
        match segs[0] {
            Seg::Field(name) => {
                if let NbtTree::Compound(fs) = t {
                    lemma_position_push(fs, name, v);
                }
            },
            Seg::Index(i) => {},
        }
    } else if segs.len() > 1 {
        match segs[0] {
            Seg::Field(name) => {
                if let NbtTree::Compound(fs) = t {
                    let k = field_position(fs, name);
                    lemma_position_meaning(fs, name);
                    if k >= 0 {
                        lemma_lookup_after_create(fs[k].1, rest, v);
                        lemma_position_update(fs, k, create_at(fs[k].1, rest, v).0, name);
                    } else {
                        lemma_lookup_after_create(intermediate(rest, v), rest, v);
                        lemma_position_push(fs, name, create_at(intermediate(rest, v), rest, v).0);
                    }
                }
            },
            Seg::Index(i) => {
                if let NbtTree::List(id, es) = t {
                    if i == es.len() {
                        lemma_lookup_after_create(intermediate(rest, v), rest, v);
                    } else if i < es.len() {
                        lemma_lookup_after_create(es[i as int], rest, v);
                    }
                }
            },
        }
    }
}

/// The position of the first field named `name`, or the number of fields.
fn first_field(fields: &Vec<(String, NbtValue)>, name: &String) -> (k: usize)
    ensures
        k <= fields@.len(),
        field_position(fields_of(fields@), name@) == if k < fields@.len() { k as int } else { -1 },
{
    let mut k: usize = 0;
    while k < fields.len()
        invariant
            k <= fields@.len(),
            forall|j: int| 0 <= j < k ==> #[trigger] fields_of(fields@)[j].0 != name@,
        decreases fields@.len() - k,
    {
        if fields[k].0.eq(name) {
            proof {
                lemma_first_field(fields_of(fields@), name@, k as int);
            }
            return k;
        }
        k = k + 1;
    }
    proof {
        lemma_first_field(fields_of(fields@), name@, k as int);
    }
    k
}

/// Finds the value that a path leads to.
pub fn find_ref<'a>(value: &'a NbtValue, segments: &[PathSegment]) -> (r: Result<&'a NbtValue, String>)
    ensures
        match lookup(value@, segs_of(segments@)) {
            Ok(t) => r matches Ok(v) && v@ == t,
            Err(m) => r matches Err(e) && e@ == m,
        },
{
    let ghost segs = segs_of(segments@);
    let mut current = value;
    let mut i: usize = 0;
    assert(segs.skip(0) =~= segs);
    while i < segments.len()
        invariant
            i <= segments@.len(),
            segs == segs_of(segments@),
            lookup(value@, segs) == lookup(current@, segs.skip(i as int)),
        decreases segments@.len() - i,
    {
        let ghost rest = segs.skip(i as int);
        assert(rest[0] == segments@[i as int]@);
        assert(rest.drop_first() =~= segs.skip(i + 1));
        match &segments[i] {
            PathSegment::Field(name) => {
                match current {
                    NbtValue::Compound(fields) => {
                        proof {
                            lemma_compound_view(*fields);
                        }
                        let k = first_field(fields, name);
                        if k == fields.len() {
                            return Err(field_not_found_error(name.as_str()));
                        }
                        current = &fields[k].1;
                    },
                    _ => {
                        return Err(expects_field_error(name.as_str()));
                    },
                }
            },
            PathSegment::Index(index) => {
                match current {
                    NbtValue::List { elements, .. } => {
                        proof {
                            lemma_list_view(current->id, *elements);
                        }
                        if *index >= elements.len() {
                            return Err(out_of_range_error(*index));
                        }
                        current = &elements[*index];
                    },
                    _ => {
                        return Err(expects_index_error(*index));
                    },
                }
            },
        }
        i = i + 1;
    }
    Ok(current)
}

/// Replaces the value that `segments[depth..]` leads to from `value`.
fn replace_in(value: &mut NbtValue, segments: &[PathSegment], depth: usize, new: NbtValue) -> (r: Result<(), String>)
    requires
        depth <= segments@.len(),
    ensures
        match lookup(old(value)@, segs_of(segments@).skip(depth as int)) {
            Ok(_) => r is Ok && final(value)@ == replace_at(old(value)@, segs_of(segments@).skip(depth as int), new@),
            Err(m) => (r matches Err(e) && e@ == m) && final(value)@ == old(value)@,
        },
    decreases segments@.len() - depth,
{
    let ghost segs = segs_of(segments@).skip(depth as int);
    if depth == segments.len() {
        *value = new;
        return Ok(());
    }
    assert(segs[0] == segments@[depth as int]@);
    assert(segs.drop_first() =~= segs_of(segments@).skip(depth + 1));
    match &segments[depth] {
        PathSegment::Field(name) => {
            match value {
                NbtValue::Compound(fields) => {
                    proof {
                        lemma_compound_view(*fields);
                    }
                    let k = first_field(fields, name);
                    if k == fields.len() {
                        return Err(field_not_found_error(name.as_str()));
                    }
                    let ghost before = fields@;
                    let res = replace_in(&mut fields[k].1, segments, depth + 1, new);
                    proof {
                        lemma_compound_view(*fields);
                        assert(fields_of(fields@) =~= fields_of(before).update(
                            k as int,
                            (fields_of(before)[k as int].0, fields@[k as int].1@),
                        ));
                        if res is Err {
                            assert(fields_of(fields@) =~= fields_of(before));
                        }
                    }
                    res
                },
                _ => Err(expects_field_error(name.as_str())),
            }
        },
        PathSegment::Index(index) => {
            match value {
                NbtValue::List { id, elements } => {
                    proof {
                        lemma_list_view(*id, *elements);
                    }
                    if *index >= elements.len() {
                        return Err(out_of_range_error(*index));
                    }
                    let ghost before = elements@;
                    let res = replace_in(&mut elements[*index], segments, depth + 1, new);
                    proof {
                        lemma_list_view(*id, *elements);
                        assert(trees_of(elements@) =~= trees_of(before).update(*index as int, elements@[*index as int]@));
                        if res is Err {
                            assert(trees_of(elements@) =~= trees_of(before));
                        }
                    }
                    res
                },
                _ => Err(expects_index_error(*index)),
            }
        },
    }
}

/// Replaces the value that a path leads to.
pub fn replace_at_path(value: &mut NbtValue, segments: &[PathSegment], new: NbtValue) -> (r: Result<(), String>)
    ensures
        match lookup(old(value)@, segs_of(segments@)) {
            Ok(_) => r is Ok && final(value)@ == replace_at(old(value)@, segs_of(segments@), new@),
            Err(m) => (r matches Err(e) && e@ == m) && final(value)@ == old(value)@,
        },
{
    assert(segs_of(segments@).skip(0) =~= segs_of(segments@));
    replace_in(value, segments, 0, new)
}

// ----- deleting one path -----

/// `p` without the child that `step` names, or why there is none. A list
/// left empty takes the element kind TAG_End.
pub open spec fn remove_child(p: NbtTree, step: Seg) -> Result<NbtTree, Seq<char>> {
    match step {
        Seg::Field(name) => match p {
            NbtTree::Compound(fs) => {
                let k = field_position(fs, name);
                if k < 0 { Err(field_not_found_message(name)) } else { Ok(NbtTree::Compound(fs.remove(k))) }
            },
            _ => Err(expects_field_message(name)),
        },
        Seg::Index(i) => match p {
            NbtTree::List(id, es) => if i >= es.len() {
                Err(out_of_range_message(i as nat))
            } else {
                let es2 = es.remove(i as int);
                Ok(NbtTree::List(if es2.len() == 0 { tag_id::END } else { id }, es2))
            },
            _ => Err(expects_index_message(i as nat)),
        },
    }
}

/// `t` without the value that the path leads to, or why it cannot be
/// deleted.
pub open spec fn delete_at(t: NbtTree, segs: Seq<Seg>) -> Result<NbtTree, Seq<char>> {
    if segs.len() == 0 {
        Err(delete_root_message())
    } else {
        match lookup(t, segs.drop_last()) {
            Err(m) => Err(m),
            Ok(parent) => match remove_child(parent, segs.last()) {
                Err(m) => Err(m),
                Ok(p2) => Ok(replace_at(t, segs.drop_last(), p2)),
            },
        }
    }
}

/// A copy of `parent` without the child that `step` names.
fn remove_child_value(parent: &NbtValue, step: &PathSegment) -> (r: Result<NbtValue, String>)
    ensures
        match remove_child(parent@, step@) {
            Ok(t) => r matches Ok(v) && v@ == t,
            Err(m) => r matches Err(e) && e@ == m,
        },
{
    match step {
        PathSegment::Field(name) => match parent {
            NbtValue::Compound(fields) => {
                proof {
                    lemma_compound_view(*fields);
                }
                let k = first_field(fields, name);
                if k == fields.len() {
                    return Err(field_not_found_error(name.as_str()));
                }
                let ghost fs = fields_of(fields@);
                let mut out: Vec<(String, NbtValue)> = Vec::new();
                let mut i: usize = 0;
                while i < fields.len()
                    invariant
                        i <= fields@.len(),
                        k < fields@.len(),
                        fs == fields_of(fields@),
                        fields_of(out@) == if i <= k { fs.subrange(0, i as int) } else { fs.subrange(0, k as int) + fs.subrange(k + 1, i as int) },
                    decreases fields@.len() - i,
                {
                    if i != k {
                        let ghost before = fields_of(out@);
                        out.push((fields[i].0.clone(), copy_value(&fields[i].1)));
                        assert(fields_of(out@) =~= before.push(fs[i as int]));
                    }
                    i = i + 1;
                    assert(fields_of(out@) =~= if i <= k { fs.subrange(0, i as int) } else { fs.subrange(0, k as int) + fs.subrange(k + 1, i as int) });
                }
                proof {
                    lemma_compound_view(out);
                    assert(fields_of(out@) =~= fs.remove(k as int));
                }
                Ok(NbtValue::Compound(out))
            },
            _ => Err(expects_field_error(name.as_str())),
        },
        PathSegment::Index(index) => match parent {
            NbtValue::List { id, elements } => {
                proof {
                    lemma_list_view(*id, *elements);
                }
                let index = *index;
                if index >= elements.len() {
                    return Err(out_of_range_error(index));
                }
                let ghost es = trees_of(elements@);
                let mut out: Vec<NbtValue> = Vec::new();
                let mut i: usize = 0;
                while i < elements.len()
                    invariant
                        i <= elements@.len(),
                        index < elements@.len(),
                        es == trees_of(elements@),
                        trees_of(out@) == if i <= index { es.subrange(0, i as int) } else { es.subrange(0, index as int) + es.subrange(index + 1, i as int) },
                    decreases elements@.len() - i,
                {
                    if i != index {
                        let ghost before = trees_of(out@);
                        out.push(copy_value(&elements[i]));
                        assert(trees_of(out@) =~= before.push(es[i as int]));
                    }
                    i = i + 1;
                    assert(trees_of(out@) =~= if i <= index { es.subrange(0, i as int) } else { es.subrange(0, index as int) + es.subrange(index + 1, i as int) });
                }
                let kind = if out.len() == 0 { tag_id::END } else { *id };
                proof {
                    lemma_list_view(kind, out);
                    assert(trees_of(out@) =~= es.remove(index as int));
                }
                Ok(NbtValue::List { id: kind, elements: out })
            },
            _ => Err(expects_index_error(*index)),
        },
    }
}

/// Deletes the value that a path leads to: a compound's field or a list's
/// element. The value is unchanged when the deletion fails.
pub fn delete_at_path(value: &mut NbtValue, segments: &[PathSegment]) -> (r: Result<(), String>)
    ensures
        match delete_at(old(value)@, segs_of(segments@)) {
            Ok(t) => r is Ok && final(value)@ == t,
            Err(m) => (r matches Err(e) && e@ == m) && final(value)@ == old(value)@,
        },
{
    let n = segments.len();
    if n == 0 {
        return Err(String::from_str("cannot delete root value"));
    }
    let parent_segments = vstd::slice::slice_subrange(segments, 0, n - 1);
    assert(segs_of(parent_segments@) =~= segs_of(segments@).drop_last());
    let new_parent = match find_ref(value, parent_segments) {
        Err(e) => return Err(e),
        Ok(parent) => match remove_child_value(parent, &segments[n - 1]) {
            Err(e) => return Err(e),
            Ok(p) => p,
        },
    };
    replace_at_path(value, parent_segments, new_parent)
}

// ----- deleting -----

/// The message for deleting the root.
pub open spec fn delete_root_message() -> Seq<char> {
    "cannot delete root value"@
}

/// The message for deleting a list index under a compound.
pub open spec fn index_in_compound_message() -> Seq<char> {
    "cannot delete list index from compound parent"@
}

/// The message for deleting a field under a list.
pub open spec fn field_in_list_message() -> Seq<char> {
    "cannot delete compound field from list parent"@
}

/// The message for deleting under a value that holds no others.
pub open spec fn not_container_message() -> Seq<char> {
    "delete target parent is not compound or list"@
}

/// Deletions that share a parent: its text, its steps, and the last steps of
/// the deleted paths, in order.
pub type Group = (Seq<char>, Seq<Seg>, Seq<Seg>);

/// The position of the group with text `key`, or -1.
pub open spec fn group_position(gs: Seq<Group>, key: Seq<char>) -> int
    decreases gs.len(),
{
    if gs.len() == 0 {
        -1
    } else if gs[0].0 == key {
        0
    } else {
        let r = group_position(gs.drop_first(), key);
        if r < 0 { -1 } else { r + 1 }
    }
}

/// The groups with one more (non-empty) path.
pub open spec fn add_path(gs: Seq<Group>, p: Seq<Seg>) -> Seq<Group> {
    let parent = p.drop_last();
    let key = render(parent);
    let k = group_position(gs, key);
    if k < 0 {
        gs.push((key, parent, seq![p.last()]))
    } else {
        gs.update(k, (gs[k].0, gs[k].1, gs[k].2.push(p.last())))
    }
}

/// The paths grouped by the text of their parent, in order of first appearance.
pub open spec fn group_paths(ps: Seq<Seq<Seg>>) -> Seq<Group>
    decreases ps.len(),
{
    if ps.len() == 0 { Seq::empty() } else { add_path(group_paths(ps.drop_last()), ps.last()) }
}

/// `g` put into `gs` just before the first group whose text sorts after its own.
pub open spec fn insert_group(gs: Seq<Group>, g: Group) -> Seq<Group>
    decreases gs.len(),
{
    if gs.len() == 0 {
        seq![g]
    } else if text_less(g.0, gs[0].0) {
        seq![g] + gs
    } else {
        seq![gs[0]] + insert_group(gs.drop_first(), g)
    }
}

/// The groups in the order of their texts.
pub open spec fn sort_groups(gs: Seq<Group>) -> Seq<Group>
    decreases gs.len(),
{
    if gs.len() == 0 { Seq::empty() } else { insert_group(sort_groups(gs.drop_last()), gs.last()) }
}

/// Whether some last step is a list index.
pub open spec fn has_index_tail(tails: Seq<Seg>) -> bool {
    exists|k: int| 0 <= k < tails.len() && #[trigger] tails[k] is Index
}

/// Whether some last step is a field.
pub open spec fn has_field_tail(tails: Seq<Seg>) -> bool {
    exists|k: int| 0 <= k < tails.len() && #[trigger] tails[k] is Field
}

/// Whether a field named `name` is to be deleted.
pub open spec fn names_field(tails: Seq<Seg>, name: Seq<char>) -> bool {
    exists|k: int| 0 <= k < tails.len() && #[trigger] tails[k] == Seg::Field(name)
}

/// Whether the element at `i` is to be deleted.
pub open spec fn names_index(tails: Seq<Seg>, i: int) -> bool {
    exists|k: int| 0 <= k < tails.len() && #[trigger] tails[k] == Seg::Index(i as usize) && 0 <= i <= usize::MAX
}

/// The largest index among the last steps (0 if there is none).
pub open spec fn max_index(tails: Seq<Seg>) -> nat
    decreases tails.len(),
{
    if tails.len() == 0 {
        0
    } else {
        let m = max_index(tails.drop_last());
        match tails.last() {
            Seg::Index(i) => if i as nat > m { i as nat } else { m },
            Seg::Field(_) => m,
        }
    }
}

/// The fields whose names are not deleted.
pub open spec fn fields_without(fs: Seq<(Seq<char>, NbtTree)>, tails: Seq<Seg>) -> Seq<(Seq<char>, NbtTree)>
    decreases fs.len(),
{
    if fs.len() == 0 {
        Seq::empty()
    } else {
        let r = fields_without(fs.drop_last(), tails);
        if names_field(tails, fs.last().0) { r } else { r.push(fs.last()) }
    }
}

/// The elements whose positions are not deleted.
pub open spec fn elements_without(es: Seq<NbtTree>, tails: Seq<Seg>) -> Seq<NbtTree>
    decreases es.len(),
{
    if es.len() == 0 {
        Seq::empty()
    } else {
        let r = elements_without(es.drop_last(), tails);
        if names_index(tails, es.len() - 1) { r } else { r.push(es.last()) }
    }
}

/// Deleting the children named by `tails` from `node`: the new node and the
/// number deleted.
pub open spec fn delete_at_node(node: NbtTree, tails: Seq<Seg>) -> Result<(NbtTree, nat), Seq<char>> {
    match node {
        NbtTree::Compound(fs) => if has_index_tail(tails) {
            Err(index_in_compound_message())
        } else {
            let kept = fields_without(fs, tails);
            Ok((NbtTree::Compound(kept), (fs.len() - kept.len()) as nat))
        },
        NbtTree::List(id, es) => if has_field_tail(tails) {
            Err(field_in_list_message())
        } else if max_index(tails) >= es.len() {
            Err(out_of_range_message(max_index(tails)))
        } else {
            let kept = elements_without(es, tails);
            Ok((NbtTree::List(if kept.len() == 0 { tag_id::END } else { id }, kept), (es.len() - kept.len()) as nat))
        },
        _ => Err(not_container_message()),
    }
}

/// Applying the groups in order: the tree after the groups applied, the
/// number deleted by them, and the error that stopped the rest, if any.
pub open spec fn apply_groups(t: NbtTree, gs: Seq<Group>) -> (NbtTree, nat, Option<Seq<char>>)
    decreases gs.len(),
{
    if gs.len() == 0 {
        (t, 0, None)
    } else {
        match lookup(t, gs[0].1) {
            Err(m) => (t, 0, Some(m)),
            Ok(node) => match delete_at_node(node, gs[0].2) {
                Err(m) => (t, 0, Some(m)),
                Ok((n2, c)) => {
                    let rest = apply_groups(replace_at(t, gs[0].1, n2), gs.drop_first());
                    (rest.0, c + rest.1, rest.2)
                },
            },
        }
    }
}

/// Whether a field named `name` is to be deleted.
fn is_named_field(tails: &[PathSegment], name: &String) -> (r: bool)
    ensures
        r == names_field(segs_of(tails@), name@),
{
    let mut k: usize = 0;
    while k < tails.len()
        invariant
            k <= tails@.len(),
            forall|j: int| 0 <= j < k ==> #[trigger] segs_of(tails@)[j] != Seg::Field(name@),
        decreases tails@.len() - k,
    {
        if let PathSegment::Field(n) = &tails[k] {
            if n.eq(name) {
                assert(segs_of(tails@)[k as int] == Seg::Field(name@));
                return true;
            }
        }
        k = k + 1;
    }
    false
}

/// Whether the element at `i` is to be deleted.
fn is_named_index(tails: &[PathSegment], i: usize) -> (r: bool)
    ensures
        r == names_index(segs_of(tails@), i as int),
{
    let mut k: usize = 0;
    while k < tails.len()
        invariant
            k <= tails@.len(),
            forall|j: int| 0 <= j < k ==> #[trigger] segs_of(tails@)[j] != Seg::Index(i),
        decreases tails@.len() - k,
    {
        if let PathSegment::Index(x) = &tails[k] {
            if *x == i {
                assert(segs_of(tails@)[k as int] == Seg::Index(i));
                return true;
            }
        }
        k = k + 1;
    }
    false
}

/// Whether some last step is a list index, and whether some is a field, and
/// the largest index.
fn tail_kinds(tails: &[PathSegment]) -> (r: (bool, bool, usize))
    ensures
        r.0 == has_index_tail(segs_of(tails@)),
        r.1 == has_field_tail(segs_of(tails@)),
        r.2 as nat == max_index(segs_of(tails@)),
{
    let ghost t = segs_of(tails@);
    let mut any_index = false;
    let mut any_field = false;
    let mut max: usize = 0;
    let mut k: usize = 0;
    while k < tails.len()
        invariant
            k <= tails@.len(),
            t == segs_of(tails@),
            any_index == exists|j: int| 0 <= j < k && #[trigger] t[j] is Index,
            any_field == exists|j: int| 0 <= j < k && #[trigger] t[j] is Field,
            max as nat == max_index(t.take(k as int)),
        decreases tails@.len() - k,
    {
        proof {
            assert(t.take(k + 1).drop_last() =~= t.take(k as int));
        }
        match &tails[k] {
            PathSegment::Index(x) => {
                any_index = true;
                if *x > max {
                    max = *x;
                }
                assert(t[k as int] is Index);
            },
            PathSegment::Field(_) => {
                any_field = true;
                assert(t[k as int] is Field);
            },
        }
        k = k + 1;
    }
    assert(t.take(k as int) =~= t);
    (any_index, any_field, max)
}

/// Deletes the children of `value` named by `tails`.
fn delete_children(value: &mut NbtValue, tails: &[PathSegment]) -> (r: Result<usize, String>)
    ensures
        match delete_at_node(old(value)@, segs_of(tails@)) {
            Ok((n, c)) => r == Ok::<usize, String>(c as usize) && final(value)@ == n,
            Err(m) => (r matches Err(e) && e@ == m) && final(value)@ == old(value)@,
        },
{
    let ghost t = segs_of(tails@);
    let (any_index, any_field, max) = tail_kinds(tails);
    match value {
        NbtValue::Compound(fields) => {
            proof {
                lemma_compound_view(*fields);
            }
            if any_index {
                return Err(String::from_str("cannot delete list index from compound parent"));
            }
            let before = fields.len();
            let mut source: Vec<(String, NbtValue)> = Vec::new();
            std::mem::swap(fields, &mut source);
            let ghost src = source@;
            let ghost all = fields_of(src);
            let mut pos: usize = 0;
            assert(fields_of(fields@) =~= fields_without(all.take(0), t));
            while source.len() > 0
                invariant
                    pos <= src.len(),
                    source@ == src.skip(pos as int),
                    all == fields_of(src),
                    t == segs_of(tails@),
                    fields_of(fields@) == fields_without(all.take(pos as int), t),
                    fields@.len() <= pos,
                    before == src.len(),
                decreases source@.len(),
            {
                let f = source.remove(0);
                proof {
                    assert(f == src[pos as int]);
                    assert(all.take(pos + 1).drop_last() =~= all.take(pos as int));
                    assert(all.take(pos + 1).last() == (f.0@, f.1@));
                }
                let ghost kept = fields@;
                if !is_named_field(tails, &f.0) {
                    fields.push(f);
                    assert(fields_of(fields@) =~= fields_of(kept).push((f.0@, f.1@)));
                }
                pos = pos + 1;
                assert(source@ =~= src.skip(pos as int));
            }
            proof {
                assert(all.take(pos as int) =~= all);
                lemma_compound_view(*fields);
            }
            Ok(before - fields.len())
        },
        NbtValue::List { id, elements } => {
            proof {
                lemma_list_view(*id, *elements);
            }
            if any_field {
                return Err(String::from_str("cannot delete compound field from list parent"));
            }
            if max >= elements.len() {
                return Err(out_of_range_error(max));
            }
            let before = elements.len();
            let mut source: Vec<NbtValue> = Vec::new();
            std::mem::swap(elements, &mut source);
            let ghost src = source@;
            let ghost all = trees_of(src);
            let mut pos: usize = 0;
            assert(trees_of(elements@) =~= elements_without(all.take(0), t));
            while source.len() > 0
                invariant
                    pos <= src.len(),
                    source@ == src.skip(pos as int),
                    all == trees_of(src),
                    t == segs_of(tails@),
                    trees_of(elements@) == elements_without(all.take(pos as int), t),
                    elements@.len() <= pos,
                    before == src.len(),
                decreases source@.len(),
            {
                let e = source.remove(0);
                proof {
                    assert(e == src[pos as int]);
                    assert(all.take(pos + 1).drop_last() =~= all.take(pos as int));
                    assert(all.take(pos + 1).last() == e@);
                    assert(all.take(pos + 1).len() - 1 == pos);
                }
                let ghost kept = elements@;
                if !is_named_index(tails, pos) {
                    elements.push(e);
                    assert(trees_of(elements@) =~= trees_of(kept).push(e@));
                }
                pos = pos + 1;
                assert(source@ =~= src.skip(pos as int));
            }
            proof {
                assert(all.take(pos as int) =~= all);
            }
            if elements.len() == 0 {
                *id = tag_id::END;
            }
            proof {
                lemma_list_view(*id, *elements);
            }
            Ok(before - elements.len())
        },
        _ => Err(String::from_str("delete target parent is not compound or list")),
    }
}

/// Deletes the children named by `tails` of the value that
/// `parent[depth..]` leads to from `value`.
fn delete_group_in(value: &mut NbtValue, parent: &[PathSegment], depth: usize, tails: &[PathSegment]) -> (r: Result<usize, String>)
    requires
        depth <= parent@.len(),
    ensures
        match lookup(old(value)@, segs_of(parent@).skip(depth as int)) {
            Err(m) => (r matches Err(e) && e@ == m) && final(value)@ == old(value)@,
            Ok(node) => match delete_at_node(node, segs_of(tails@)) {
                Err(m) => (r matches Err(e) && e@ == m) && final(value)@ == old(value)@,
                Ok((n2, c)) => r == Ok::<usize, String>(c as usize)
                    && final(value)@ == replace_at(old(value)@, segs_of(parent@).skip(depth as int), n2),
            },
        },
    decreases parent@.len() - depth,
{
    let ghost segs = segs_of(parent@).skip(depth as int);
    if depth == parent.len() {
        return delete_children(value, tails);
    }
    assert(segs[0] == parent@[depth as int]@);
    assert(segs.drop_first() =~= segs_of(parent@).skip(depth + 1));
    match &parent[depth] {
        PathSegment::Field(name) => {
            match value {
                NbtValue::Compound(fields) => {
                    proof {
                        lemma_compound_view(*fields);
                    }
                    let k = first_field(fields, name);
                    if k == fields.len() {
                        return Err(field_not_found_error(name.as_str()));
                    }
                    let ghost before = fields@;
                    let res = delete_group_in(&mut fields[k].1, parent, depth + 1, tails);
                    proof {
                        lemma_compound_view(*fields);
                        assert(fields_of(fields@) =~= fields_of(before).update(
                            k as int,
                            (fields_of(before)[k as int].0, fields@[k as int].1@),
                        ));
                        if res is Err {
                            assert(fields_of(fields@) =~= fields_of(before));
                        }
                    }
                    res
                },
                _ => Err(expects_field_error(name.as_str())),
            }
        },
        PathSegment::Index(index) => {
            match value {
                NbtValue::List { id, elements } => {
                    proof {
                        lemma_list_view(*id, *elements);
                    }
                    if *index >= elements.len() {
                        return Err(out_of_range_error(*index));
                    }
                    let ghost before = elements@;
                    let res = delete_group_in(&mut elements[*index], parent, depth + 1, tails);
                    proof {
                        lemma_list_view(*id, *elements);
                        assert(trees_of(elements@) =~= trees_of(before).update(*index as int, elements@[*index as int]@));
                        if res is Err {
                            assert(trees_of(elements@) =~= trees_of(before));
                        }
                    }
                    res
                },
                _ => Err(expects_index_error(*index)),
            }
        },
    }
}

/// Whether two texts are equal.
pub fn chars_equal(a: &Vec<char>, b: &Vec<char>) -> (r: bool)
    ensures
        r == (a@ == b@),
{
    if a.len() != b.len() {
        return false;
    }
    let mut i: usize = 0;
    while i < a.len()
        invariant
            i <= a@.len() == b@.len(),
            forall|k: int| 0 <= k < i ==> a@[k] == b@[k],
        decreases a@.len() - i,
    {
        if a[i] != b[i] {
            return false;
        }
        i = i + 1;
    }
    assert(a@ =~= b@);
    true
}

/// The first `n` segments of a path.
pub fn copy_path_prefix(p: &[PathSegment], n: usize) -> (c: Vec<PathSegment>)
    requires
        n <= p@.len(),
    ensures
        segs_of(c@) == segs_of(p@).take(n as int),
{
    let mut c: Vec<PathSegment> = Vec::new();
    let mut i: usize = 0;
    while i < n
        invariant
            i <= n <= p@.len(),
            c@.len() == i,
            forall|k: int| 0 <= k < i ==> #[trigger] c@[k]@ == p@[k]@,
        decreases n - i,
    {
        c.push(copy_segment(&p[i]));
        i = i + 1;
    }
    assert(segs_of(c@) =~= segs_of(p@).take(n as int));
    c
}

/// The groups held in three parallel vectors.
pub open spec fn groups_view(keys: Seq<Vec<char>>, parents: Seq<Vec<PathSegment>>, tails: Seq<Vec<PathSegment>>) -> Seq<Group> {
    Seq::new(keys.len(), |k: int| (keys[k]@, segs_of(parents[k]@), segs_of(tails[k]@)))
}

proof fn lemma_group_position(gs: Seq<Group>, key: Seq<char>, k: int)
    requires
        0 <= k <= gs.len(),
        forall|j: int| 0 <= j < k ==> #[trigger] gs[j].0 != key,
        k < gs.len() ==> gs[k].0 == key,
    ensures
        group_position(gs, key) == if k < gs.len() { k } else { -1 },
    decreases gs.len(),
{
    if gs.len() > 0 && k > 0 {
        let t = gs.drop_first();
        assert forall|j: int| 0 <= j < k - 1 implies #[trigger] t[j].0 != key by {
            assert(t[j] == gs[j + 1]);
        }
        lemma_group_position(t, key, k - 1);
    }
}

proof fn lemma_insert_group(gs: Seq<Group>, g: Group, j: int)
    requires
        0 <= j <= gs.len(),
        forall|k: int| 0 <= k < j ==> !text_less(g.0, #[trigger] gs[k].0),
        j < gs.len() ==> text_less(g.0, gs[j].0),
    ensures
        insert_group(gs, g) == gs.insert(j, g),
    decreases gs.len(),
{
    if gs.len() == 0 {
        assert(gs.insert(j, g) =~= seq![g]);
    } else if j == 0 {
        assert(gs.insert(j, g) =~= seq![g] + gs);
    } else {
        let t = gs.drop_first();
        assert forall|k: int| 0 <= k < j - 1 implies !text_less(g.0, #[trigger] t[k].0) by {
            assert(t[k] == gs[k + 1]);
        }
        lemma_insert_group(t, g, j - 1);
        assert(seq![gs[0]] + t.insert(j - 1, g) =~= gs.insert(j, g));
    }
}

/// Whether some path is empty.
pub open spec fn has_empty_path(ps: Seq<Seq<Seg>>) -> bool {
    exists|k: int| 0 <= k < ps.len() && #[trigger] ps[k].len() == 0
}

/// Deletes the values that the paths lead to.
///
/// The paths are grouped by the text of their parent path; the groups are
/// applied in the order of those texts. Under a compound every field with a
/// named name goes; under a list the named positions go, and a list left
/// empty gets element kind TAG_End. The first failing group stops the work,
/// and the groups applied before it stay applied.
pub fn delete_paths(value: &mut NbtValue, paths: Vec<Vec<PathSegment>>) -> (r: Result<usize, String>)
    requires
        !has_empty_path(paths_of(paths@)) ==> apply_groups(old(value)@, sort_groups(group_paths(paths_of(paths@)))).1
            <= usize::MAX,
    ensures
        paths@.len() == 0 ==> r == Ok::<usize, String>(0) && final(value)@ == old(value)@,
        paths@.len() > 0 && has_empty_path(paths_of(paths@)) ==> (r matches Err(e) && e@ == delete_root_message())
            && final(value)@ == old(value)@,
        paths@.len() > 0 && !has_empty_path(paths_of(paths@)) ==> ({
            let res = apply_groups(old(value)@, sort_groups(group_paths(paths_of(paths@))));
            &&& final(value)@ == res.0
            &&& match res.2 {
                None => r == Ok::<usize, String>(res.1 as usize),
                Some(m) => r matches Err(e) && e@ == m,
            }
        }),
{
    if paths.len() == 0 {
        return Ok(0);
    }
    let ghost ps = paths_of(paths@);
    let mut keys: Vec<Vec<char>> = Vec::new();
    let mut parents: Vec<Vec<PathSegment>> = Vec::new();
    let mut tails: Vec<Vec<PathSegment>> = Vec::new();
    let mut i: usize = 0;
    proof {
        assert(groups_view(keys@, parents@, tails@) =~= group_paths(ps.take(0)));
    }
    while i < paths.len()
        invariant
            i <= ps.len(),
            ps == paths_of(paths@),
            keys@.len() == parents@.len(),
            keys@.len() == tails@.len(),
            groups_view(keys@, parents@, tails@) == group_paths(ps.take(i as int)),
            forall|k: int| 0 <= k < i ==> #[trigger] ps[k].len() > 0,
        decreases ps.len() - i,
    {
        let n = paths[i].len();
        if n == 0 {
            assert(ps[i as int].len() == 0);
            return Err(String::from_str("cannot delete root value"));
        }
        let ghost gv = groups_view(keys@, parents@, tails@);
        let ghost p = ps[i as int];
        let parent = copy_path_prefix(paths[i].as_slice(), n - 1);
        let tail = copy_segment(&paths[i][n - 1]);
        let text = path_segments_to_string(parent.as_slice());
        let key = chars_of(text.as_str());
        proof {
            assert(segs_of(parent@) =~= p.drop_last());
            assert(tail@ == p.last());
        }
        let mut k: usize = 0;
        let mut found = false;
        while !found && k < keys.len()
            invariant
                k <= keys@.len(),
                gv == groups_view(keys@, parents@, tails@),
                forall|j: int| 0 <= j < k ==> #[trigger] gv[j].0 != key@,
                found ==> k < keys@.len() && gv[k as int].0 == key@,
            decreases keys@.len() - k + (if found { 0int } else { 1int }),
        {
            if chars_equal(&keys[k], &key) {
                found = true;
            } else {
                k = k + 1;
            }
        }
        proof {
            lemma_group_position(gv, key@, k as int);
            assert(ps.take(i + 1).drop_last() =~= ps.take(i as int));
            assert(ps.take(i + 1).last() == p);
        }
        if found {
            let ghost old_tails = tails@;
            tails[k].push(tail);
            proof {
                assert(segs_of(tails@[k as int]@) =~= segs_of(old_tails[k as int]@).push(p.last()));
                assert(groups_view(keys@, parents@, tails@) =~= add_path(gv, p));
            }
        } else {
            keys.push(key);
            parents.push(parent);
            let mut one: Vec<PathSegment> = Vec::new();
            one.push(tail);
            tails.push(one);
            proof {
                assert(segs_of(one@) =~= seq![p.last()]);
                assert(groups_view(keys@, parents@, tails@) =~= add_path(gv, p));
            }
        }
        i = i + 1;
    }
    proof {
        assert(ps.take(i as int) =~= ps);
        assert(!has_empty_path(ps));
    }
    let ghost gs = groups_view(keys@, parents@, tails@);
    let mut sk: Vec<Vec<char>> = Vec::new();
    let mut sp: Vec<Vec<PathSegment>> = Vec::new();
    let mut st: Vec<Vec<PathSegment>> = Vec::new();
    let mut g: usize = 0;
    let nk = keys.len();
    assert(gs.len() == nk);
    proof {
        assert(groups_view(sk@, sp@, st@) =~= sort_groups(gs.take(0)));
        assert(groups_view(keys@, parents@, tails@).skip(0) =~= gs);
    }
    while keys.len() > 0
        invariant
            g <= gs.len(),
            gs.len() <= usize::MAX,
            keys@.len() == parents@.len(),
            keys@.len() == tails@.len(),
            keys@.len() == gs.len() - g,
            groups_view(keys@, parents@, tails@) == gs.skip(g as int),
            sk@.len() == sp@.len(),
            sk@.len() == st@.len(),
            groups_view(sk@, sp@, st@) == sort_groups(gs.take(g as int)),
        decreases keys@.len(),
    {
        let ghost sv = groups_view(sk@, sp@, st@);
        let ghost ok = keys@;
        let ghost op = parents@;
        let ghost ot = tails@;
        let key = keys.remove(0);
        let parent = parents.remove(0);
        let tail_list = tails.remove(0);
        let ghost item = (key@, segs_of(parent@), segs_of(tail_list@));
        proof {
            assert(groups_view(ok, op, ot)[0] == item);
            assert(gs.skip(g as int)[0] == item);
            assert forall|q: int| 0 <= q < keys@.len() implies #[trigger] groups_view(keys@, parents@, tails@)[q]
                == gs.skip(g + 1)[q] by {
                assert(keys@[q] == ok[q + 1]);
                assert(parents@[q] == op[q + 1]);
                assert(tails@[q] == ot[q + 1]);
                assert(gs.skip(g + 1)[q] == gs.skip(g as int)[q + 1]);
                assert(groups_view(ok, op, ot)[q + 1] == gs.skip(g as int)[q + 1]);
            }
            assert(groups_view(keys@, parents@, tails@) =~= gs.skip(g + 1));
        }
        let mut j: usize = 0;
        let mut found = false;
        while !found && j < sk.len()
            invariant
                j <= sk@.len(),
                sv == groups_view(sk@, sp@, st@),
                forall|q: int| 0 <= q < j ==> !text_less(key@, #[trigger] sv[q].0),
                found ==> j < sk@.len() && text_less(key@, sv[j as int].0),
            decreases sk@.len() - j + (if found { 0int } else { 1int }),
        {
            if chars_less(&key, &sk[j]) {
                found = true;
            } else {
                j = j + 1;
            }
        }
        proof {
            lemma_insert_group(sv, item, j as int);
            assert(gs.take(g + 1).drop_last() =~= gs.take(g as int));
            assert(gs.take(g + 1).last() == item);
        }
        sk.insert(j, key);
        sp.insert(j, parent);
        st.insert(j, tail_list);
        proof {
            assert(groups_view(sk@, sp@, st@) =~= sv.insert(j as int, item));
        }
        g = g + 1;
    }
    proof {
        assert(gs.take(g as int) =~= gs);
    }
    let ghost sg = groups_view(sk@, sp@, st@);
    let ghost total = apply_groups(value@, sg);
    assert(gs == group_paths(ps));
    assert(sg == sort_groups(group_paths(paths_of(paths@))));
    let mut deleted: usize = 0;
    let mut h: usize = 0;
    proof {
        assert(sg.skip(0) =~= sg);
    }
    while h < sk.len()
        invariant
            h <= sk@.len(),
            sk@.len() == sp@.len(),
            sk@.len() == st@.len(),
            sg == groups_view(sk@, sp@, st@),
            paths@.len() > 0,
            !has_empty_path(paths_of(paths@)),
            sg == sort_groups(group_paths(paths_of(paths@))),
            total == apply_groups(old(value)@, sg),
            total.1 <= usize::MAX,
            total.0 == apply_groups(value@, sg.skip(h as int)).0,
            total.1 == deleted + apply_groups(value@, sg.skip(h as int)).1,
            total.2 == apply_groups(value@, sg.skip(h as int)).2,
        decreases sk@.len() - h,
    {
        let ghost rest = sg.skip(h as int);
        proof {
            assert(rest[0] == sg[h as int]);
            assert(rest.drop_first() =~= sg.skip(h + 1));
            assert(segs_of(sp@[h as int]@).skip(0) =~= segs_of(sp@[h as int]@));
        }
        match delete_group_in(value, sp[h].as_slice(), 0, st[h].as_slice()) {
            Err(e) => {
                return Err(e);
            },
            Ok(n) => {
                deleted = deleted + n;
            },
        }
        h = h + 1;
    }
    Ok(deleted)
}

// ----- creating -----

/// The message for creating at the empty path.
pub open spec fn empty_path_message() -> Seq<char> {
    "path cannot be empty"@
}

/// The message for creating a field that exists.
pub open spec fn exists_message(name: Seq<char>) -> Seq<char> {
    "path already exists: "@ + name
}

/// The message for creating a list element that exists.
pub open spec fn exists_index_message(index: nat) -> Seq<char> {
    "path already exists at list index: "@ + decimal(index)
}

/// The message for creating past the end of a list.
pub open spec fn sparse_message(index: nat) -> Seq<char> {
    "cannot create sparse list index: "@ + decimal(index)
}

/// The element kind of a list created on the way to `tail`'s end: a compound
/// or a list for the next step, or the new value's kind at the end.
pub open spec fn infer_id(tail: Seq<Seg>, v: NbtTree) -> u8 {
    if tail.len() == 0 {
        tree_id(v)
    } else {
        match tail[0] {
            Seg::Field(_) => tag_id::COMPOUND,
            Seg::Index(_) => tag_id::LIST,
        }
    }
}

/// The empty container created for the next step of `tail`.
pub open spec fn intermediate(tail: Seq<Seg>, v: NbtTree) -> NbtTree {
    match tail[0] {
        Seg::Field(_) => NbtTree::Compound(Seq::empty()),
        Seg::Index(_) => NbtTree::List(infer_id(tail.drop_first(), v), Seq::empty()),
    }
}

/// The element kind of a list of `n` elements of kind `id` that gets an
/// element of kind `expected`: an empty list of TAG_End takes the new kind.
pub open spec fn fix_list_id(id: u8, n: nat, expected: u8) -> Result<u8, Seq<char>> {
    if id == tag_id::END && n == 0 {
        Ok(expected)
    } else if id != expected {
        Err(mismatch_message(id, expected))
    } else {
        Ok(id)
    }
}

/// Creating `v` at the end of a path that does not exist yet, making empty
/// containers on the way: the tree afterwards and the error, if any. Containers
/// made before an error stay in the tree.
pub open spec fn create_at(t: NbtTree, segs: Seq<Seg>, v: NbtTree) -> (NbtTree, Option<Seq<char>>)
    decreases segs.len(),
{
    if segs.len() == 0 {
        (t, Some(empty_path_message()))
    } else if segs.len() == 1 {
        match segs[0] {
            Seg::Field(name) => match t {
                NbtTree::Compound(fs) => if field_position(fs, name) >= 0 {
                    (t, Some(exists_message(name)))
                } else {
                    (NbtTree::Compound(fs.push((name, v))), None)
                },
                _ => (t, Some(expects_field_message(name))),
            },
            Seg::Index(i) => match t {
                NbtTree::List(id, es) => if i < es.len() {
                    (t, Some(exists_index_message(i as nat)))
                } else if i > es.len() {
                    (t, Some(sparse_message(i as nat)))
                } else {
                    match fix_list_id(id, es.len(), tree_id(v)) {
                        Err(m) => (t, Some(m)),
                        Ok(id2) => (NbtTree::List(id2, es.push(v)), None),
                    }
                },
                _ => (t, Some(expects_index_message(i as nat))),
            },
        }
    } else {
        let rest = segs.drop_first();
        match segs[0] {
            Seg::Field(name) => match t {
                NbtTree::Compound(fs) => {
                    let k = field_position(fs, name);
                    if k >= 0 {
                        let r = create_at(fs[k].1, rest, v);
                        (NbtTree::Compound(fs.update(k, (fs[k].0, r.0))), r.1)
                    } else {
                        let r = create_at(intermediate(rest, v), rest, v);
                        (NbtTree::Compound(fs.push((name, r.0))), r.1)
                    }
                },
                _ => (t, Some(expects_field_message(name))),
            },
            Seg::Index(i) => match t {
                NbtTree::List(id, es) => if i > es.len() {
                    (t, Some(sparse_message(i as nat)))
                } else if i == es.len() {
                    let inter = intermediate(rest, v);
                    match fix_list_id(id, es.len(), tree_id(inter)) {
                        Err(m) => (t, Some(m)),
                        Ok(id2) => {
                            let r = create_at(inter, rest, v);
                            (NbtTree::List(id2, es.push(r.0)), r.1)
                        },
                    }
                } else {
                    let r = create_at(es[i as int], rest, v);
                    (NbtTree::List(id, es.update(i as int, r.0)), r.1)
                },
                _ => (t, Some(expects_index_message(i as nat))),
            },
        }
    }
}

/// The element kind of a list created on the way to `tail`'s end.
pub fn infer_list_element_id(tail: &[PathSegment], new_value: &NbtValue) -> (id: u8)
    ensures
        id == infer_id(segs_of(tail@), new_value@),
{
    if tail.len() == 0 {
        return component_id(new_value);
    }
    match &tail[0] {
        PathSegment::Field(_) => tag_id::COMPOUND,
        PathSegment::Index(_) => tag_id::LIST,
    }
}

/// The empty container created for the next step of `path_tail`.
pub fn make_intermediate_value(path_tail: &[PathSegment], new_value: &NbtValue) -> (v: NbtValue)
    requires
        path_tail@.len() > 0,
    ensures
        v@ == intermediate(segs_of(path_tail@), new_value@),
{
    match &path_tail[0] {
        PathSegment::Field(_) => {
            let fields: Vec<(String, NbtValue)> = Vec::new();
            proof {
                lemma_compound_view(fields);
                assert(fields_of(fields@) =~= Seq::<(Seq<char>, NbtTree)>::empty());
            }
            NbtValue::Compound(fields)
        },
        PathSegment::Index(_) => {
            let rest = vstd::slice::slice_subrange(path_tail, 1, path_tail.len());
            assert(segs_of(rest@) =~= segs_of(path_tail@).drop_first());
            let id = infer_list_element_id(rest, new_value);
            let elements: Vec<NbtValue> = Vec::new();
            proof {
                lemma_list_view(id, elements);
                assert(trees_of(elements@) =~= Seq::<NbtTree>::empty());
            }
            NbtValue::List { id, elements }
        },
    }
}

/// Gives an empty list of TAG_End the kind `expected`, or checks that the
/// list is of that kind.
pub fn ensure_list_id(id: &mut u8, elements: &[NbtValue], expected: u8) -> (r: Result<(), String>)
    ensures
        match fix_list_id(*old(id), elements@.len(), expected) {
            Ok(x) => r is Ok && *final(id) == x,
            Err(m) => (r matches Err(e) && e@ == m) && *final(id) == *old(id),
        },
{
    if *id == tag_id::END && elements.len() == 0 {
        *id = expected;
        return Ok(());
    }
    if *id != expected {
        return match mismatch_error(*id, expected) {
            crate::error::ParseError::Other(m) => Err(m),
            _ => Err(String::new()),
        };
    }
    Ok(())
}

pub fn sparse_error(index: usize) -> (e: String)
    ensures
        e@ == sparse_message(index as nat),
{
    let mut text = String::from_str("cannot create sparse list index: ");
    push_decimal(&mut text, index as u64);
    text
}

/// Creates `new_value` at the end of `segments[depth..]` from `current`.
fn create_path_recursive(current: &mut NbtValue, segments: &[PathSegment], depth: usize, new_value: &NbtValue) -> (r: Result<(), String>)
    requires
        depth <= segments@.len(),
    ensures
        ({
            let res = create_at(old(current)@, segs_of(segments@).skip(depth as int), new_value@);
            &&& final(current)@ == res.0
            &&& match res.1 {
                None => r is Ok,
                Some(m) => r matches Err(e) && e@ == m,
            }
        }),
    decreases segments@.len() - depth,
{
    let ghost segs = segs_of(segments@).skip(depth as int);
    if depth == segments.len() {
        return Err(String::from_str("path cannot be empty"));
    }
    assert(segs[0] == segments@[depth as int]@);
    assert(segs.drop_first() =~= segs_of(segments@).skip(depth + 1));
    let last_step = depth + 1 == segments.len();
    match &segments[depth] {
        PathSegment::Field(name) => {
            match current {
                NbtValue::Compound(fields) => {
                    proof {
                        lemma_compound_view(*fields);
                    }
                    let k = first_field(fields, name);
                    let ghost before = fields@;
                    if last_step {
                        if k < fields.len() {
                            let mut text = String::from_str("path already exists: ");
                            text.append(name.as_str());
                            return Err(text);
                        }
                        fields.push((name.clone(), copy_value(new_value)));
                        proof {
                            lemma_compound_view(*fields);
                            assert(fields_of(fields@) =~= fields_of(before).push((name@, new_value@)));
                        }
                        return Ok(());
                    }
                    if k < fields.len() {
                        let res = create_path_recursive(&mut fields[k].1, segments, depth + 1, new_value);
                        proof {
                            lemma_compound_view(*fields);
                            assert(fields_of(fields@) =~= fields_of(before).update(
                                k as int,
                                (fields_of(before)[k as int].0, fields@[k as int].1@),
                            ));
                        }
                        return res;
                    }
                    let rest = vstd::slice::slice_subrange(segments, depth + 1, segments.len());
                    assert(segs_of(rest@) =~= segs.drop_first());
                    fields.push((name.clone(), make_intermediate_value(rest, new_value)));
                    let last = fields.len() - 1;
                    let ghost pushed = fields@;
                    let res = create_path_recursive(&mut fields[last].1, segments, depth + 1, new_value);
                    proof {
                        lemma_compound_view(*fields);
                        assert(fields_of(fields@) =~= fields_of(before).push((name@, fields@[last as int].1@)));
                    }
                    res
                },
                _ => Err(expects_field_error(name.as_str())),
            }
        },
        PathSegment::Index(index) => {
            match current {
                NbtValue::List { id, elements } => {
                    proof {
                        lemma_list_view(*id, *elements);
                    }
                    let ghost before = elements@;
                    let ghost id0 = *id;
                    if last_step {
                        if *index < elements.len() {
                            let mut text = String::from_str("path already exists at list index: ");
                            push_decimal(&mut text, *index as u64);
                            return Err(text);
                        }
                        if *index > elements.len() {
                            return Err(sparse_error(*index));
                        }
                        let expected_id = component_id(new_value);
                        ensure_list_id(id, elements.as_slice(), expected_id)?;
                        elements.push(copy_value(new_value));
                        proof {
                            lemma_list_view(*id, *elements);
                            assert(trees_of(elements@) =~= trees_of(before).push(new_value@));
                        }
                        return Ok(());
                    }
                    if *index > elements.len() {
                        return Err(sparse_error(*index));
                    }
                    if *index == elements.len() {
                        let rest = vstd::slice::slice_subrange(segments, depth + 1, segments.len());
                        assert(segs_of(rest@) =~= segs.drop_first());
                        let intermediate_value = make_intermediate_value(rest, new_value);
                        let intermediate_id = component_id(&intermediate_value);
                        ensure_list_id(id, elements.as_slice(), intermediate_id)?;
                        elements.push(intermediate_value);
                    }
                    let ghost mid = elements@;
                    let res = create_path_recursive(&mut elements[*index], segments, depth + 1, new_value);
                    proof {
                        lemma_list_view(*id, *elements);
                        assert(trees_of(elements@) =~= trees_of(mid).update(*index as int, elements@[*index as int]@));
                        if *index == before.len() {
                            assert(trees_of(mid) =~= trees_of(before).push(mid[*index as int]@));
                            assert(trees_of(elements@) =~= trees_of(before).push(elements@[*index as int]@));
                        }
                    }
                    res
                },
                _ => Err(expects_index_error(*index)),
            }
        },
    }
}

/// Creates `new_value` at the end of a path that does not exist yet, making
/// empty compounds and lists on the way.
pub fn create_at_path(value: &mut NbtValue, segments: &[PathSegment], new_value: NbtValue) -> (r: Result<(), String>)
    ensures
        ({
            let res = create_at(old(value)@, segs_of(segments@), new_value@);
            &&& final(value)@ == res.0
            &&& match res.1 {
                None => r is Ok,
                Some(m) => r matches Err(e) && e@ == m,
            }
        }),
{
    assert(segs_of(segments@).skip(0) =~= segs_of(segments@));
    create_path_recursive(value, segments, 0, &new_value)
}

} // verus!
