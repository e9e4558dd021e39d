//! Editing a document while it streams from input to output: one value is
//! set, created or deleted without building the whole tree.
use vstd::prelude::*;
use crate::codec::{component_id, mismatch_error, parse_value_by_id, skip_value_by_id, write_value_payload};
use crate::decoder::Decoder;
use crate::edit::{
    expects_field_error, expects_field_message, expects_index_error, expects_index_message, infer_id, sparse_error,
    sparse_message,
};
use crate::encoder::Encoder;
use crate::error::ParseError;
use crate::platform::PlatformType;
use crate::path::{copy_path, has_prefix, is_prefix_path, path_segments_to_string, render, segs_of, PathSegment, Seg};
use crate::select::{pattern_matches, regex_is_match, same_path, PathSelector};
use crate::tag_id;
use crate::text::push_decimal;
use crate::byte_order::u32_bytes;
use crate::tree::{
    copy_value, enc_payload, lemma_payload_shrinks, fields_of, lemma_compound_view, lemma_list_view, mismatch_message, tag_message, trees_of,
    tree_id, wire_payload, NbtTree, NbtValue, Written,
};
use crate::wire::{enc_tag, reports, wire_i32, wire_tag, wire_u8, Fault};

verus! {

/// The mathematical form of a selector.
pub enum SelView {
    Exact(Seq<Seg>),
    Pattern(Seq<char>),
}

/// Whether the selector chooses `path`.
pub open spec fn chooses(sel: SelView, path: Seq<Seg>) -> bool {
    match sel {
        SelView::Exact(segs) => segs == path,
        SelView::Pattern(p) => regex_is_match(p, render(path)),
    }
}

/// What an edit is to do.
pub enum EditPlan {
    /// Replace each chosen value that holds no others; `values[id]` is the
    /// replacement (or why there is none) for a value of kind `id`.
    Replace { sel: SelView, values: Seq<Result<NbtTree, Seq<char>>> },
    /// Create `value` at the end of `segs`, which must not exist yet.
    Create { segs: Seq<Seg>, value: NbtTree },
    /// Delete the values whose path texts are `targets`, or, with `lists`,
    /// the compound elements of the lists with those path texts that the
    /// decisions pick.
    Delete { targets: Seq<Seq<char>>, lists: Option<Seq<Seq<char>>> },
}

/// The counts an edit keeps while it runs.
pub struct Tally {
    /// Values set or deleted by path.
    pub hits: nat,
    /// Whether the value was created.
    pub done: bool,
    /// List elements deleted by decision.
    pub deleted: nat,
}

/// Why an edit stopped.
pub enum EditFault {
    /// Reading the input stopped.
    Read(Fault),
    /// Writing the output stopped, with this message.
    Written(Seq<char>),
    /// The edit cannot be done, with this message.
    Input(Seq<char>),
    /// A count would not fit its integer.
    Overflow,
}

/// The outcome of editing a part of the input: the bytes written for it, the
/// counts afterwards, and the input left.
pub type Edited = Result<(Seq<u8>, Tally, Seq<u8>), EditFault>;

/// The message for a chosen container.
pub open spec fn set_container_message(path: Seq<Seg>) -> Seq<char> {
    "invalid value at path '"@ + render(path) + "': only leaf values can be modified by --set"@
}

/// The message for a replacement that cannot be made.
pub open spec fn set_value_message(path: Seq<Seg>, m: Seq<char>) -> Seq<char> {
    "invalid value at path '"@ + render(path) + "': "@ + m
}

/// The message for a value kind without a replacement.
pub open spec fn unsupported_id_message(id: u8) -> Seq<char> {
    "unsupported tag id: "@ + crate::text::decimal(id as nat)
}

/// The message for creating a value that exists.
pub open spec fn create_exists_message(path: Seq<Seg>) -> Seq<char> {
    "path already exists: "@ + render(path)
}

/// The message for a step that the value on the way cannot take.
pub open spec fn step_mismatch_message(step: Seg) -> Seq<char> {
    match step {
        Seg::Field(name) => expects_field_message(name),
        Seg::Index(i) => expects_index_message(i as nat),
    }
}

/// The value built for the steps still missing below an existing container:
/// a compound per field step, a one-element list per index step `[0]`.
pub open spec fn create_tail(tail: Seq<Seg>, v: NbtTree) -> Result<NbtTree, Seq<char>>
    decreases tail.len(),
{
    if tail.len() == 0 {
        Ok(v)
    } else {
        match create_tail(tail.drop_first(), v) {
            Err(m) => Err(m),
            Ok(child) => match tail[0] {
                Seg::Field(name) => Ok(NbtTree::Compound(seq![(name, child)])),
                Seg::Index(i) => if i != 0 {
                    Err(sparse_message(i as nat))
                } else {
                    Ok(NbtTree::List(infer_id(tail.drop_first(), child), seq![child]))
                },
            },
        }
    }
}

/// The replacement for a value of kind `id` under a set plan.
pub open spec fn replacement(values: Seq<Result<NbtTree, Seq<char>>>, id: u8) -> Result<NbtTree, Seq<char>> {
    if id < values.len() { values[id as int] } else { Err(unsupported_id_message(id)) }
}

/// The counts with one more hit, if that fits.
pub open spec fn hit(t: Tally) -> Option<Tally> {
    if t.hits + 1 > usize::MAX { None } else { Some(Tally { hits: t.hits + 1, ..t }) }
}

/// Whether `path` is a proper prefix of the path to create.
pub open spec fn on_create_way(plan: EditPlan, path: Seq<Seg>) -> bool {
    plan matches EditPlan::Create { segs, .. } && is_prefix_path(path, segs) && path.len() < segs.len()
}

/// The step after `path` on the way to the value to create.
pub open spec fn create_step(plan: EditPlan, path: Seq<Seg>) -> Seg {
    plan->Create_segs[path.len() as int]
}

/// The outcome of editing the fields of a compound: the bytes written, the
/// counts, whether the field to create was met, and the input left.
pub type FieldsEdited = Result<(Seq<u8>, Tally, bool, Seq<u8>), EditFault>;

/// The outcome of editing list elements: the bytes written, the number of
/// elements written, whether any was deleted, the counts, and the input left.
pub type ElementsEdited = Result<(Seq<u8>, int, bool, Tally, Seq<u8>), EditFault>;

/// Whether the plan deletes by path the value whose path is `path`.
pub open spec fn deletes_path(plan: EditPlan, path: Seq<Seg>) -> bool {
    plan matches EditPlan::Delete { targets, lists } && lists is None && targets.contains(render(path))
}

/// Whether the plan decides about the elements of the list at `path`.
pub open spec fn decides_list(plan: EditPlan, path: Seq<Seg>) -> bool {
    plan matches EditPlan::Delete { lists, .. } && lists matches Some(ls) && ls.contains(render(path))
}

/// Editing the payload of a value of kind `id` at `path`.
pub open spec fn sp_payload(p: crate::platform::PlatformType, plan: EditPlan, dec: spec_fn(NbtTree) -> bool, id: u8, path: Seq<Seg>, t: Tally, s: Seq<u8>) -> Edited
    decreases s.len(), 2int,
{
    if plan is Replace && chooses(plan->sel, path) {
        if id == tag_id::LIST || id == tag_id::COMPOUND {
            Err(EditFault::Input(set_container_message(path)))
        } else {
            match replacement(plan->values, id) {
                Err(m) => Err(EditFault::Input(set_value_message(path, m))),
                Ok(v) => match wire_payload(p, id, s) {
                    Err(f) => Err(EditFault::Read(f)),
                    Ok((_, rest)) => match enc_payload(p, v) {
                        Err(m) => Err(EditFault::Written(m)),
                        Ok(b) => match hit(t) {
                            None => Err(EditFault::Overflow),
                            Some(t2) => Ok((b, t2, rest)),
                        },
                    },
                },
            }
        }
    } else if plan is Create && plan->segs == path {
        Err(EditFault::Input(create_exists_message(path)))
    } else if on_create_way(plan, path) && id != tag_id::LIST && id != tag_id::COMPOUND {
        Err(EditFault::Input(step_mismatch_message(create_step(plan, path))))
    } else if id == tag_id::COMPOUND {
        sp_compound(p, plan, dec, path, t, s)
    } else if id == tag_id::LIST {
        sp_list(p, plan, dec, path, t, s)
    } else {
        match wire_payload(p, id, s) {
            Err(f) => Err(EditFault::Read(f)),
            Ok((v, rest)) => match enc_payload(p, v) {
                Err(m) => Err(EditFault::Written(m)),
                Ok(b) => Ok((b, t, rest)),
            },
        }
    }
}

/// The name of the field to create in the compound at `path`, when the path
/// to create goes through it.
pub open spec fn create_name(plan: EditPlan, path: Seq<Seg>) -> Option<Seq<char>> {
    if on_create_way(plan, path) { Some(create_step(plan, path)->Field_0) } else { None }
}

/// Editing a compound's payload at `path`.
pub open spec fn sp_compound(p: crate::platform::PlatformType, plan: EditPlan, dec: spec_fn(NbtTree) -> bool, path: Seq<Seg>, t: Tally, s: Seq<u8>) -> Edited
    decreases s.len(), 1int,
{
    if on_create_way(plan, path) && create_step(plan, path) is Index {
        Err(EditFault::Input(expects_index_message(create_step(plan, path)->Index_0 as nat)))
    } else {
        let expected = create_name(plan, path);
        match sp_fields(p, plan, dec, path, expected, false, t, s) {
            Err(f) => Err(f),
            Ok((out, t2, found, rest)) => match compound_close(p, plan, path, expected, found, t2) {
                Err(f) => Err(f),
                Ok((x, t3)) => Ok((out + x, t3, rest)),
            },
        }
    }
}

/// What closes a compound after its fields: the value to create, when it
/// belongs here and no field of its name was met, then TAG_End; with the
/// counts afterwards.
pub open spec fn compound_close(
    p: crate::platform::PlatformType,
    plan: EditPlan,
    path: Seq<Seg>,
    expected: Option<Seq<char>>,
    found: bool,
    t: Tally,
) -> Result<(Seq<u8>, Tally), EditFault> {
    if expected is Some && !found {
        let name = expected->Some_0;
        match create_tail(plan->Create_segs.skip(path.len() + 1int), plan->Create_value) {
            Err(m) => Err(EditFault::Input(m)),
            Ok(created) => match enc_tag(p, name) {
                None => Err(EditFault::Written(tag_message(name))),
                Some(tb) => match enc_payload(p, created) {
                    Err(m) => Err(EditFault::Written(m)),
                    Ok(cb) => Ok((seq![tree_id(created)] + tb + cb + seq![tag_id::END], Tally { done: true, ..t })),
                },
            },
        }
    } else {
        Ok((seq![tag_id::END], t))
    }
}

/// `b` in front of the bytes that `r` wrote.
pub open spec fn after_fields(b: Seq<u8>, r: FieldsEdited) -> FieldsEdited {
    match r {
        Ok((out, t, found, rest)) => Ok((b + out, t, found, rest)),
        Err(f) => Err(f),
    }
}

/// Editing the fields of a compound up to and including its TAG_End.
#[verifier::opaque]
pub open spec fn sp_fields(
    p: crate::platform::PlatformType,
    plan: EditPlan,
    dec: spec_fn(NbtTree) -> bool,
    path: Seq<Seg>,
    expected: Option<Seq<char>>,
    found: bool,
    t: Tally,
    s: Seq<u8>,
) -> FieldsEdited
    decreases s.len(), 0int,
{
    match wire_u8(s) {
        Err(f) => Err(EditFault::Read(f)),
        Ok((fid, r1)) => if fid == tag_id::END {
            Ok((Seq::empty(), t, found, r1))
        } else {
            match wire_tag(p, r1) {
                Err(f) => Err(EditFault::Read(f)),
                Ok((name, r2)) => {
                    let found2 = found || expected == Some(name);
                    let fpath = path.push(Seg::Field(name));
                    if deletes_path(plan, fpath) {
                        match hit(t) {
                            None => Err(EditFault::Overflow),
                            Some(t2) => match wire_payload(p, fid, r2) {
                                Err(f) => Err(EditFault::Read(f)),
                                Ok((_, r3)) => if r3.len() < s.len() {
                                    sp_fields(p, plan, dec, path, expected, found2, t2, r3)
                                } else {
                                    Err(EditFault::Read(Fault::Eof))
                                },
                            },
                        }
                    } else {
                        match enc_tag(p, name) {
                            None => Err(EditFault::Written(tag_message(name))),
                            Some(tb) => if r2.len() < s.len() {
                                match sp_payload(p, plan, dec, fid, fpath, t, r2) {
                                    Err(f) => Err(f),
                                    Ok((b, t2, r3)) => if r3.len() < s.len() {
                                        after_fields(
                                            seq![fid] + tb + b,
                                            sp_fields(p, plan, dec, path, expected, found2, t2, r3),
                                        )
                                    } else {
                                        Err(EditFault::Read(Fault::Eof))
                                    },
                                }
                            } else {
                                Err(EditFault::Read(Fault::Eof))
                            },
                        }
                    }
                },
            }
        },
    }
}

/// Editing a list's payload at `path`.
pub open spec fn sp_list(p: crate::platform::PlatformType, plan: EditPlan, dec: spec_fn(NbtTree) -> bool, path: Seq<Seg>, t: Tally, s: Seq<u8>) -> Edited
    decreases s.len(), 1int,
{
    match wire_u8(s) {
        Err(f) => Err(EditFault::Read(f)),
        Ok((eid, r1)) => match wire_i32(p, r1) {
            Err(f) => Err(EditFault::Read(f)),
            Ok((n, r2)) => if n < 0 {
                Err(EditFault::Read(Fault::BadLength(n)))
            } else if on_create_way(plan, path) && create_step(plan, path) is Field {
                Err(EditFault::Input(expects_field_message(create_step(plan, path)->Field_0)))
            } else if r2.len() < s.len() {
                match sp_elements(p, plan, dec, path, eid, decides_list(plan, path), 0, n as int, Seq::empty(), 0, false, t, r2) {
                    Err(f) => Err(f),
                    Ok((out, olen, deleted_any, t2, rest)) => match list_end(p, plan, path, eid, n as int, out, olen, t2) {
                        Err(f) => Err(f),
                        Ok((eid2, out2, olen2, t3)) => Ok((
                            seq![if deleted_any && olen2 == 0 { tag_id::END } else { eid2 }] + u32_bytes(p, olen2 as u32)
                                + out2,
                            t3,
                            rest,
                        )),
                    },
                }
            } else {
                Err(EditFault::Read(Fault::Eof))
            },
        },
    }
}

/// Appending the value to create at the end of a list of `n` elements of
/// kind `eid`, when the path to create ends there: the element kind, the
/// element bytes, their number, and the counts afterwards.
pub open spec fn list_end(
    p: crate::platform::PlatformType,
    plan: EditPlan,
    path: Seq<Seg>,
    eid: u8,
    n: int,
    out: Seq<u8>,
    olen: int,
    t: Tally,
) -> Result<(u8, Seq<u8>, int, Tally), EditFault> {
    if on_create_way(plan, path) && create_step(plan, path) is Index {
        let index = create_step(plan, path)->Index_0;
        if index > n {
            Err(EditFault::Input(sparse_message(index as nat)))
        } else if index == n {
            match create_tail(plan->Create_segs.skip(path.len() + 1int), plan->Create_value) {
                Err(m) => Err(EditFault::Input(m)),
                Ok(created) => {
                    let expected = tree_id(created);
                    if n == 0 && eid != tag_id::END && eid != expected {
                        Err(EditFault::Input(mismatch_message(eid, expected)))
                    } else if n != 0 && eid != expected {
                        Err(EditFault::Input(mismatch_message(eid, expected)))
                    } else {
                        match enc_payload(p, created) {
                            Err(m) => Err(EditFault::Written(m)),
                            Ok(cb) => if olen + 1 > i32::MAX {
                                Err(EditFault::Overflow)
                            } else {
                                Ok((expected, out + cb, olen + 1, Tally { done: true, ..t }))
                            },
                        }
                    }
                },
            }
        } else {
            Ok((eid, out, olen, t))
        }
    } else {
        Ok((eid, out, olen, t))
    }
}

/// Editing list elements `index..n` of kind `eid`.
#[verifier::opaque]
pub open spec fn sp_elements(
    p: crate::platform::PlatformType,
    plan: EditPlan,
    dec: spec_fn(NbtTree) -> bool,
    path: Seq<Seg>,
    eid: u8,
    targeted: bool,
    index: int,
    n: int,
    out: Seq<u8>,
    olen: int,
    deleted_any: bool,
    t: Tally,
    s: Seq<u8>,
) -> ElementsEdited
    decreases s.len(), 3int,
{
    if index >= n {
        Ok((out, olen, deleted_any, t, s))
    } else {
        let epath = path.push(Seg::Index(index as usize));
        if deletes_path(plan, epath) {
            match hit(t) {
                None => Err(EditFault::Overflow),
                Some(t2) => match wire_payload(p, eid, s) {
                    Err(f) => Err(EditFault::Read(f)),
                    Ok((_, r)) => if r.len() < s.len() {
                        sp_elements(p, plan, dec, path, eid, targeted, index + 1, n, out, olen, true, t2, r)
                    } else {
                        Err(EditFault::Read(Fault::Eof))
                    },
                },
            }
        } else if targeted && eid == tag_id::COMPOUND {
            match wire_payload(p, eid, s) {
                Err(f) => Err(EditFault::Read(f)),
                Ok((v, r)) => if r.len() < s.len() {
                    if dec(v) {
                        if t.deleted + 1 > usize::MAX {
                            Err(EditFault::Overflow)
                        } else {
                            sp_elements(p, plan, dec, path, eid, targeted, index + 1, n, out, olen, true,
                                Tally { deleted: t.deleted + 1, ..t }, r)
                        }
                    } else {
                        match enc_payload(p, v) {
                            Err(m) => Err(EditFault::Written(m)),
                            Ok(b) => if olen + 1 > i32::MAX {
                                Err(EditFault::Overflow)
                            } else {
                                sp_elements(p, plan, dec, path, eid, targeted, index + 1, n, out + b, olen + 1,
                                    deleted_any, t, r)
                            },
                        }
                    }
                } else {
                    Err(EditFault::Read(Fault::Eof))
                },
            }
        } else {
            match sp_payload(p, plan, dec, eid, epath, t, s) {
                Err(f) => Err(f),
                Ok((b, t2, r)) => if r.len() < s.len() {
                    if olen + 1 > i32::MAX {
                        Err(EditFault::Overflow)
                    } else {
                        sp_elements(p, plan, dec, path, eid, targeted, index + 1, n, out + b, olen + 1, deleted_any, t2, r)
                    }
                } else {
                    Err(EditFault::Read(Fault::Eof))
                },
            }
        }
    }
}

/// Editing a whole document: the root's id and name are copied, then its
/// payload is edited.
pub open spec fn sp_document(p: crate::platform::PlatformType, plan: EditPlan, dec: spec_fn(NbtTree) -> bool, t: Tally, s: Seq<u8>) -> Result<(Seq<u8>, Tally), EditFault> {
    match wire_u8(s) {
        Err(f) => Err(EditFault::Read(f)),
        Ok((id, r1)) => match wire_tag(p, r1) {
            Err(f) => Err(EditFault::Read(f)),
            Ok((tag, r2)) => if id != tag_id::LIST && id != tag_id::COMPOUND {
                Err(EditFault::Read(Fault::BadRoot(id)))
            } else {
                match enc_tag(p, tag) {
                    None => Err(EditFault::Written(tag_message(tag))),
                    Some(tb) => match sp_payload(p, plan, dec, id, Seq::empty(), t, r2) {
                        Err(f) => Err(f),
                        Ok((b, t2, _)) => Ok((seq![id] + tb + b, t2)),
                    },
                }
            },
        },
    }
}

/// Reading a tag name consumes input.
proof fn lemma_tag_shrinks(p: PlatformType, s: Seq<u8>)
    ensures
        wire_tag(p, s) matches Ok((_, r)) ==> r.len() < s.len(),
{
}

/// A compound's edit in terms of its fields' edit.
proof fn lemma_compound_unfold(p: PlatformType, plan: EditPlan, segs: Seq<Seg>, t: Tally, s: Seq<u8>)
    ensures
        forall|d: spec_fn(NbtTree) -> bool| #[trigger] sp_compound(p, plan, d, segs, t, s) == if on_create_way(plan, segs)
            && create_step(plan, segs) is Index {
            Err(EditFault::Input(expects_index_message(create_step(plan, segs)->Index_0 as nat)))
        } else {
            match sp_fields(p, plan, d, segs, create_name(plan, segs), false, t, s) {
                Err(f) => Err(f),
                Ok((out, t2, found, rest)) => match compound_close(p, plan, segs, create_name(plan, segs), found, t2) {
                    Err(f) => Err(f),
                    Ok((x, t3)) => Ok((out + x, t3, rest)),
                },
            }
        },
{
    reveal(sp_fields);
}

/// A list's edit in terms of its elements' edit.
proof fn lemma_list_unfold(p: PlatformType, plan: EditPlan, segs: Seq<Seg>, t: Tally, s: Seq<u8>)
    ensures
        forall|d: spec_fn(NbtTree) -> bool| #[trigger] sp_list(p, plan, d, segs, t, s) == {
            match wire_u8(s) {
                Err(f) => Err(EditFault::Read(f)),
                Ok((eid, r1)) => match wire_i32(p, r1) {
                    Err(f) => Err(EditFault::Read(f)),
                    Ok((n, r2)) => if n < 0 {
                        Err(EditFault::Read(Fault::BadLength(n)))
                    } else if on_create_way(plan, segs) && create_step(plan, segs) is Field {
                        Err(EditFault::Input(expects_field_message(create_step(plan, segs)->Field_0)))
                    } else if r2.len() < s.len() {
                        match sp_elements(p, plan, d, segs, eid, decides_list(plan, segs), 0, n as int, Seq::empty(), 0, false, t, r2) {
                            Err(f) => Err(f),
                            Ok((out, olen, deleted_any, t2, rest)) => match list_end(p, plan, segs, eid, n as int, out, olen, t2) {
                                Err(f) => Err(f),
                                Ok((eid2, out2, olen2, t3)) => Ok((
                                    seq![if deleted_any && olen2 == 0 { tag_id::END } else { eid2 }] + u32_bytes(p, olen2 as u32)
                                        + out2,
                                    t3,
                                    rest,
                                )),
                            },
                        }
                    } else {
                        Err(EditFault::Read(Fault::Eof))
                    },
                },
            }
        },
{
    reveal(sp_elements);
}

/// Stepping over a field whose id cannot be read.
proof fn lemma_fields_no_id(p: PlatformType, plan: EditPlan, segs: Seq<Seg>, exp: Option<Seq<char>>, found: bool, t: Tally, s: Seq<u8>)
    requires
        wire_u8(s) is Err,
    ensures
        forall|d: spec_fn(NbtTree) -> bool| #[trigger] sp_fields(p, plan, d, segs, exp, found, t, s)
            == Err::<(Seq<u8>, Tally, bool, Seq<u8>), EditFault>(EditFault::Read(wire_u8(s)->Err_0)),
{
    reveal(sp_fields);
}

/// Stepping over the TAG_End of a compound.
proof fn lemma_fields_end(p: PlatformType, plan: EditPlan, segs: Seq<Seg>, exp: Option<Seq<char>>, found: bool, t: Tally, s: Seq<u8>, r1: Seq<u8>)
    requires
        wire_u8(s) == Ok::<(u8, Seq<u8>), Fault>((tag_id::END, r1)),
    ensures
        forall|d: spec_fn(NbtTree) -> bool| #[trigger] sp_fields(p, plan, d, segs, exp, found, t, s)
            == Ok::<(Seq<u8>, Tally, bool, Seq<u8>), EditFault>((Seq::empty(), t, found, r1)),
{
    reveal(sp_fields);
}

/// Stepping over a field whose name cannot be read.
proof fn lemma_fields_no_name(p: PlatformType, plan: EditPlan, segs: Seq<Seg>, exp: Option<Seq<char>>, found: bool, t: Tally, s: Seq<u8>, fid: u8, r1: Seq<u8>)
    requires
        wire_u8(s) == Ok::<(u8, Seq<u8>), Fault>((fid, r1)),
        fid != tag_id::END,
        wire_tag(p, r1) is Err,
    ensures
        forall|d: spec_fn(NbtTree) -> bool| #[trigger] sp_fields(p, plan, d, segs, exp, found, t, s)
            == Err::<(Seq<u8>, Tally, bool, Seq<u8>), EditFault>(EditFault::Read(wire_tag(p, r1)->Err_0)),
{
    reveal(sp_fields);
}

/// Stepping over a field that the plan deletes.
proof fn lemma_fields_deleted(
    p: PlatformType, plan: EditPlan, segs: Seq<Seg>, exp: Option<Seq<char>>, found: bool, t: Tally, s: Seq<u8>,
    fid: u8, r1: Seq<u8>, name: Seq<char>, r2: Seq<u8>,
)
    requires
        wire_u8(s) == Ok::<(u8, Seq<u8>), Fault>((fid, r1)),
        fid != tag_id::END,
        wire_tag(p, r1) == Ok::<(Seq<char>, Seq<u8>), Fault>((name, r2)),
        deletes_path(plan, segs.push(Seg::Field(name))),
    ensures
        forall|d: spec_fn(NbtTree) -> bool| #[trigger] sp_fields(p, plan, d, segs, exp, found, t, s) == match hit(t) {
            None => Err(EditFault::Overflow),
            Some(t2) => match wire_payload(p, fid, r2) {
                Err(f) => Err(EditFault::Read(f)),
                Ok((_, r3)) => sp_fields(p, plan, d, segs, exp, found || exp == Some(name), t2, r3),
            },
        },
{
    reveal(sp_fields);
    lemma_payload_shrinks(p, fid, r2);
}

/// Stepping over a field that the plan keeps.
proof fn lemma_fields_kept(
    p: PlatformType, plan: EditPlan, segs: Seq<Seg>, exp: Option<Seq<char>>, found: bool, t: Tally, s: Seq<u8>,
    fid: u8, r1: Seq<u8>, name: Seq<char>, r2: Seq<u8>,
)
    requires
        wire_u8(s) == Ok::<(u8, Seq<u8>), Fault>((fid, r1)),
        fid != tag_id::END,
        wire_tag(p, r1) == Ok::<(Seq<char>, Seq<u8>), Fault>((name, r2)),
        !deletes_path(plan, segs.push(Seg::Field(name))),
    ensures
        forall|d: spec_fn(NbtTree) -> bool| #[trigger] sp_fields(p, plan, d, segs, exp, found, t, s) == match enc_tag(p, name) {
            None => Err(EditFault::Written(tag_message(name))),
            Some(tb) => match sp_payload(p, plan, d, fid, segs.push(Seg::Field(name)), t, r2) {
                Err(f) => Err(f),
                Ok((b, t2, r3)) => if r3.len() < s.len() {
                    after_fields(seq![fid] + tb + b, sp_fields(p, plan, d, segs, exp, found || exp == Some(name), t2, r3))
                } else {
                    Err(EditFault::Read(Fault::Eof))
                },
            },
        },
{
    lemma_tag_shrinks(p, r1);
    reveal(sp_fields);
}

/// Stepping over a list element that the plan deletes by path.
proof fn lemma_elements_deleted(
    p: PlatformType, plan: EditPlan, segs: Seq<Seg>, eid: u8, targeted: bool, index: int, n: int,
    out: Seq<u8>, olen: int, da: bool, t: Tally, s: Seq<u8>,
)
    requires
        index < n,
        deletes_path(plan, segs.push(Seg::Index(index as usize))),
    ensures
        forall|d: spec_fn(NbtTree) -> bool| #[trigger] sp_elements(p, plan, d, segs, eid, targeted, index, n, out, olen, da, t, s)
            == match hit(t) {
            None => Err(EditFault::Overflow),
            Some(t2) => match wire_payload(p, eid, s) {
                Err(f) => Err(EditFault::Read(f)),
                Ok((_, r)) => sp_elements(p, plan, d, segs, eid, targeted, index + 1, n, out, olen, true, t2, r),
            },
        },
{
    reveal(sp_elements);
    lemma_payload_shrinks(p, eid, s);
}

/// Stepping over a list element that is decided about.
proof fn lemma_elements_decided(
    p: PlatformType, plan: EditPlan, segs: Seq<Seg>, eid: u8, targeted: bool, index: int, n: int,
    out: Seq<u8>, olen: int, da: bool, t: Tally, s: Seq<u8>,
)
    requires
        index < n,
        !deletes_path(plan, segs.push(Seg::Index(index as usize))),
        targeted,
        eid == tag_id::COMPOUND,
    ensures
        forall|d: spec_fn(NbtTree) -> bool| #[trigger] sp_elements(p, plan, d, segs, eid, targeted, index, n, out, olen, da, t, s)
            == match wire_payload(p, eid, s) {
            Err(f) => Err(EditFault::Read(f)),
            Ok((v, r)) => if d(v) {
                if t.deleted + 1 > usize::MAX {
                    Err(EditFault::Overflow)
                } else {
                    sp_elements(p, plan, d, segs, eid, targeted, index + 1, n, out, olen, true, Tally { deleted: t.deleted + 1, ..t }, r)
                }
            } else {
                match enc_payload(p, v) {
                    Err(m) => Err(EditFault::Written(m)),
                    Ok(b) => if olen + 1 > i32::MAX {
                        Err(EditFault::Overflow)
                    } else {
                        sp_elements(p, plan, d, segs, eid, targeted, index + 1, n, out + b, olen + 1, da, t, r)
                    },
                }
            },
        },
{
    reveal(sp_elements);
    lemma_payload_shrinks(p, eid, s);
}

/// Stepping over a list element that is edited as a value of its own.
proof fn lemma_elements_edited(
    p: PlatformType, plan: EditPlan, segs: Seq<Seg>, eid: u8, targeted: bool, index: int, n: int,
    out: Seq<u8>, olen: int, da: bool, t: Tally, s: Seq<u8>,
)
    requires
        index < n,
        !deletes_path(plan, segs.push(Seg::Index(index as usize))),
        !(targeted && eid == tag_id::COMPOUND),
    ensures
        forall|d: spec_fn(NbtTree) -> bool| #[trigger] sp_elements(p, plan, d, segs, eid, targeted, index, n, out, olen, da, t, s)
            == match sp_payload(p, plan, d, eid, segs.push(Seg::Index(index as usize)), t, s) {
            Err(f) => Err(f),
            Ok((b, t2, r)) => if r.len() < s.len() {
                if olen + 1 > i32::MAX {
                    Err(EditFault::Overflow)
                } else {
                    sp_elements(p, plan, d, segs, eid, targeted, index + 1, n, out + b, olen + 1, da, t2, r)
                }
            } else {
                Err(EditFault::Read(Fault::Eof))
            },
        },
{
    reveal(sp_elements);
}

/// Past the last element, editing elements is done.
proof fn lemma_elements_done(
    p: PlatformType, plan: EditPlan, segs: Seq<Seg>, eid: u8, targeted: bool, index: int, n: int,
    out: Seq<u8>, olen: int, da: bool, t: Tally, s: Seq<u8>,
)
    requires
        index >= n,
    ensures
        forall|d: spec_fn(NbtTree) -> bool| #[trigger] sp_elements(p, plan, d, segs, eid, targeted, index, n, out, olen, da, t, s)
            == Ok::<(Seq<u8>, int, bool, Tally, Seq<u8>), EditFault>((out, olen, da, t, s)),
{
    reveal(sp_elements);
}

/// The mathematical form of a selector.
pub open spec fn sel_view(s: PathSelector) -> SelView {
    match s {
        PathSelector::Exact(v) => SelView::Exact(segs_of(v@)),
        PathSelector::Regex(p) => SelView::Pattern(p@),
    }
}

/// The texts of a sequence of strings.
pub open spec fn texts_of(v: Seq<String>) -> Seq<Seq<char>> {
    Seq::new(v.len(), |i: int| v[i]@)
}

/// The mathematical form of the replacements of a set plan.
pub open spec fn replacements_of(v: Seq<Result<NbtValue, String>>) -> Seq<Result<NbtTree, Seq<char>>> {
    Seq::new(v.len(), |i: int| match v[i] {
        Ok(x) => Ok(x@),
        Err(m) => Err(m@),
    })
}

/// An edit, ready to run over a document.
pub enum Plan {
    /// Replace each leaf that the selector chooses; `values[id]` is the
    /// replacement for a leaf of kind `id`, or why there is none.
    Replace { selector: PathSelector, values: Vec<Result<NbtValue, String>> },
    /// Create `value` at the end of `segments`.
    Create { segments: Vec<PathSegment>, value: NbtValue },
    /// Delete the values whose path texts are `targets`; with `lists`, delete
    /// instead the compound elements of those lists that the decision picks.
    Delete { targets: Vec<String>, lists: Option<Vec<String>> },
}

impl View for Plan {
    type V = EditPlan;

    open spec fn view(&self) -> EditPlan {
        match self {
            Plan::Replace { selector, values } => EditPlan::Replace {
                sel: sel_view(*selector),
                values: replacements_of(values@),
            },
            Plan::Create { segments, value } => EditPlan::Create { segs: segs_of(segments@), value: value@ },
            Plan::Delete { targets, lists } => EditPlan::Delete {
                targets: texts_of(targets@),
                lists: match lists {
                    Some(l) => Some(texts_of(l@)),
                    None => None,
                },
            },
        }
    }
}

/// The counts of an edit.
pub struct Counts {
    /// Values set or deleted by path.
    pub hits: usize,
    /// Whether the value was created.
    pub done: bool,
    /// List elements deleted by decision.
    pub deleted: usize,
}

impl View for Counts {
    type V = Tally;

    open spec fn view(&self) -> Tally {
        Tally { hits: self.hits as nat, done: self.done, deleted: self.deleted as nat }
    }
}

/// Why an edit failed.
#[derive(Debug)]
pub enum EditError {
    /// Reading or writing the document failed.
    Parse(ParseError),
    /// The edit cannot be done, with this message.
    InvalidInput(String),
}

/// The message for a count that does not fit its integer.
pub open spec fn overflow_message() -> Seq<char> {
    "count exceeds its integer range"@
}

/// Whether an error is the one a fault stands for.
pub open spec fn reports_fault(e: EditError, f: EditFault) -> bool {
    match f {
        EditFault::Read(x) => e matches EditError::Parse(pe) && reports(pe, x),
        EditFault::Written(m) => e matches EditError::Parse(ParseError::Other(x)) && x@ == m,
        EditFault::Input(m) => e matches EditError::InvalidInput(x) && x@ == m,
        EditFault::Overflow => e matches EditError::InvalidInput(x) && x@ == overflow_message(),
    }
}

/// Whether a run agrees with the outcome `e`: on success the bytes were
/// appended and the counts and input left are those of `e`; on failure the
/// error is `e`'s fault.
pub open spec fn edited(e: Edited, r: Result<(), EditError>, before: Seq<u8>, after: Seq<u8>, t: Tally, rest: Seq<u8>) -> bool {
    match e {
        Ok((b, t2, rest2)) => r is Ok && after == before + b && t == t2 && rest == rest2,
        Err(f) => r matches Err(x) && reports_fault(x, f),
    }
}

/// Whether `d` is what the closure decides: every answer it gives on a value
/// is `d` of that value.
pub open spec fn decides<F: Fn(&NbtValue) -> bool>(f: F, d: spec_fn(NbtTree) -> bool) -> bool {
    forall|v: NbtValue, b: bool| #[trigger] f.ensures((&v,), b) ==> b == d(v@)
}

/// Whether a selector chooses `path`.
pub fn selector_matches(selector: &PathSelector, path: &[PathSegment]) -> (r: bool)
    ensures
        r == chooses(sel_view(*selector), segs_of(path@)),
{
    match selector {
        PathSelector::Exact(segments) => same_path(segments.as_slice(), path),
        PathSelector::Regex(pattern) => {
            let text = path_segments_to_string(path);
            pattern_matches(pattern, text.as_str())
        },
    }
}

/// Whether `text` is one of `texts`.
pub fn contains_text(texts: &Vec<String>, text: &String) -> (r: bool)
    ensures
        r == texts_of(texts@).contains(text@),
{
    let mut i: usize = 0;
    while i < texts.len()
        invariant
            i <= texts@.len(),
            forall|k: int| 0 <= k < i ==> texts@[k]@ != text@,
        decreases texts@.len() - i,
    {
        if texts[i] == *text {
            assert(texts_of(texts@)[i as int] == text@);
            return true;
        }
        i = i + 1;
    }
    proof {
        if texts_of(texts@).contains(text@) {
            let k = choose|k: int| 0 <= k < texts_of(texts@).len() && texts_of(texts@)[k] == text@;
            assert(texts@[k]@ != text@);
        }
    }
    false
}

/// Whether the plan deletes the value at `path` by its path text.
fn deletes_by_path(plan: &Plan, path: &[PathSegment]) -> (r: bool)
    ensures
        r == deletes_path(plan@, segs_of(path@)),
{
    match plan {
        Plan::Delete { targets, lists: None } => {
            let text = path_segments_to_string(path);
            contains_text(targets, &text)
        },
        _ => false,
    }
}

/// Whether the plan decides about the elements of the list at `path`.
fn decides_about(plan: &Plan, path: &[PathSegment]) -> (r: bool)
    ensures
        r == decides_list(plan@, segs_of(path@)),
{
    match plan {
        Plan::Delete { lists: Some(lists), .. } => {
            let text = path_segments_to_string(path);
            contains_text(lists, &text)
        },
        _ => false,
    }
}

/// The next step towards the value to create, when `path` leads there.
fn create_next<'a>(plan: &'a Plan, path: &[PathSegment]) -> (r: Option<&'a PathSegment>)
    ensures
        r is Some <==> on_create_way(plan@, segs_of(path@)),
        r matches Some(step) ==> step@ == create_step(plan@, segs_of(path@)),
{
    match plan {
        Plan::Create { segments, .. } => {
            if has_prefix(path, segments.as_slice()) && path.len() < segments.len() {
                Some(&segments[path.len()])
            } else {
                None
            }
        },
        _ => None,
    }
}

/// The error for a count that does not fit its integer.
fn overflow_error() -> (e: EditError)
    ensures
        reports_fault(e, EditFault::Overflow),
{
    EditError::InvalidInput(String::from_str("count exceeds its integer range"))
}

/// The message for a chosen container.
fn set_container_error(path: &[PathSegment]) -> (e: String)
    ensures
        e@ == set_container_message(segs_of(path@)),
{
    let mut text = String::from_str("invalid value at path '");
    let rendered = path_segments_to_string(path);
    text.append(rendered.as_str());
    text.append("': only leaf values can be modified by --set");
    text
}

/// The message for a replacement that cannot be made.
fn set_value_error(path: &[PathSegment], m: &str) -> (e: String)
    ensures
        e@ == set_value_message(segs_of(path@), m@),
{
    let mut text = String::from_str("invalid value at path '");
    let rendered = path_segments_to_string(path);
    text.append(rendered.as_str());
    text.append("': ");
    text.append(m);
    text
}

/// The message for a value kind without a replacement.
fn unsupported_id_error(id: u8) -> (e: String)
    ensures
        e@ == unsupported_id_message(id),
{
    let mut text = String::from_str("unsupported tag id: ");
    push_decimal(&mut text, id as u64);
    text
}

/// The message for creating a value that exists.
fn create_exists_error(path: &[PathSegment]) -> (e: String)
    ensures
        e@ == create_exists_message(segs_of(path@)),
{
    let mut text = String::from_str("path already exists: ");
    let rendered = path_segments_to_string(path);
    text.append(rendered.as_str());
    text
}

/// The message for a step that the value on the way cannot take.
pub fn create_mismatch_message(step: &PathSegment) -> (e: String)
    ensures
        e@ == step_mismatch_message(step@),
{
    match step {
        PathSegment::Field(name) => expects_field_error(name.as_str()),
        PathSegment::Index(index) => expects_index_error(*index),
    }
}

/// The value built for the steps `segments[from..]` still missing below an
/// existing container, ending in `value`.
pub fn build_value_for_create_tail(segments: &[PathSegment], from: usize, value: &NbtValue) -> (r: Result<NbtValue, String>)
    requires
        from <= segments@.len(),
    ensures
        match create_tail(segs_of(segments@).skip(from as int), value@) {
            Ok(t) => r matches Ok(x) && x@ == t,
            Err(m) => r matches Err(e) && e@ == m,
        },
    decreases segments@.len() - from,
{
    let ghost tail = segs_of(segments@).skip(from as int);
    if from == segments.len() {
        assert(tail.len() == 0);
        return Ok(copy_value(value));
    }
    assert(tail.drop_first() =~= segs_of(segments@).skip(from + 1));
    let child = build_value_for_create_tail(segments, from + 1, value)?;
    match &segments[from] {
        PathSegment::Field(name) => {
            let mut fields: Vec<(String, NbtValue)> = Vec::new();
            fields.push((name.clone(), child));
            proof {
                lemma_compound_view(fields);
                assert(fields_of(fields@) =~= seq![(name@, child@)]);
            }
            Ok(NbtValue::Compound(fields))
        },
        PathSegment::Index(index) => {
            if *index != 0 {
                return Err(sparse_error(*index));
            }
            let id = if from + 1 == segments.len() {
                component_id(&child)
            } else {
                match &segments[from + 1] {
                    PathSegment::Field(_) => tag_id::COMPOUND,
                    PathSegment::Index(_) => tag_id::LIST,
                }
            };
            assert(id == infer_id(tail.drop_first(), child@));
            let mut elements: Vec<NbtValue> = Vec::new();
            elements.push(child);
            proof {
                lemma_list_view(id, elements);
                assert(trees_of(elements@) =~= seq![child@]);
            }
            Ok(NbtValue::List { id, elements })
        },
    }
}


/// Whether `after` is `before` with bytes appended.
pub open spec fn extends(before: Seq<u8>, after: Seq<u8>) -> bool {
    before.len() <= after.len() && after.take(before.len() as int) == before
}

proof fn lemma_extends_add(a: Seq<u8>, b: Seq<u8>)
    ensures
        extends(a, a + b),
{
    assert((a + b).take(a.len() as int) =~= a);
}

proof fn lemma_extends_trans(a: Seq<u8>, b: Seq<u8>, c: Seq<u8>)
    requires
        extends(a, b),
        extends(b, c),
    ensures
        extends(a, c),
{
    assert(c.take(a.len() as int) =~= c.take(b.len() as int).take(a.len() as int));
}

proof fn lemma_extends_split(a: Seq<u8>, b: Seq<u8>)
    requires
        extends(a, b),
    ensures
        b == a + b.skip(a.len() as int),
{
    assert(b =~= b.take(a.len() as int) + b.skip(a.len() as int));
}

/// `after_fields` of `after_fields` is one `after_fields` of the joined bytes.
proof fn lemma_after_fields_assoc(a: Seq<u8>, b: Seq<u8>, r: FieldsEdited)
    ensures
        after_fields(a, after_fields(b, r)) == after_fields(a + b, r),
{
    if let Ok((out, t, found, rest)) = r {
        assert(a + (b + out) =~= (a + b) + out);
    }
}

/// Edits the payload of a value of kind `id` at `path`, copying it from the
/// decoder to the encoder with the plan applied.
fn process_payload<F: Fn(&NbtValue) -> bool>(
    decoder: &mut Decoder,
    encoder: &mut Encoder,
    platform: PlatformType,
    id: u8,
    path: &Vec<PathSegment>,
    plan: &Plan,
    counts: &mut Counts,
    decide: &F,
) -> (r: Result<(), EditError>)
    requires
        old(decoder).kind() == platform,
        old(encoder).kind() == platform,
        forall|v: &NbtValue| decide.requires((v,)),
    ensures
        final(decoder).kind() == platform,
        final(encoder).kind() == platform,
        r is Ok ==> final(decoder).rest().len() < old(decoder).rest().len(),
        r is Ok ==> extends(old(encoder).written(), final(encoder).written()),
        forall|d: spec_fn(NbtTree) -> bool| #[trigger] decides(*decide, d) ==> edited(
            sp_payload(platform, plan@, d, id, segs_of(path@), old(counts)@, old(decoder).rest()),
            r,
            old(encoder).written(),
            final(encoder).written(),
            final(counts)@,
            final(decoder).rest(),
        ),
    decreases old(decoder).rest().len(), 4int,
{
    proof {
        }
    let ghost w0 = encoder.written();
    proof {
        lemma_payload_shrinks(platform, id, decoder.rest());
    }
    match plan {
        Plan::Replace { selector, values } => {
            if selector_matches(selector, path.as_slice()) {
                if id == tag_id::LIST || id == tag_id::COMPOUND {
                    return Err(EditError::InvalidInput(set_container_error(path.as_slice())));
                }
                if id as usize >= values.len() {
                    let m = unsupported_id_error(id);
                    return Err(EditError::InvalidInput(set_value_error(path.as_slice(), m.as_str())));
                }
                match &values[id as usize] {
                    Err(m) => {
                        return Err(EditError::InvalidInput(set_value_error(path.as_slice(), m.as_str())));
                    },
                    Ok(v) => {
                        if let Err(e) = skip_value_by_id(decoder, id) {
                            return Err(EditError::Parse(e));
                        }
                        if let Err(e) = write_value_payload(encoder, v) {
                            return Err(EditError::Parse(e));
                        }
                        if counts.hits == usize::MAX {
                            return Err(overflow_error());
                        }
                        counts.hits = counts.hits + 1;
                        proof {
                            lemma_extends_add(w0, enc_payload(platform, v@)->Ok_0);
                        }
                        return Ok(());
                    },
                }
            }
        },
        Plan::Create { segments, .. } => {
            if same_path(path.as_slice(), segments.as_slice()) {
                return Err(EditError::InvalidInput(create_exists_error(path.as_slice())));
            }
        },
        _ => {},
    }
    if let Some(step) = create_next(plan, path.as_slice()) {
        if id != tag_id::LIST && id != tag_id::COMPOUND {
            return Err(EditError::InvalidInput(create_mismatch_message(step)));
        }
    }
    if id == tag_id::COMPOUND {
        process_compound(decoder, encoder, platform, path, plan, counts, decide)
    } else if id == tag_id::LIST {
        process_list(decoder, encoder, platform, path, plan, counts, decide)
    } else {
        match parse_value_by_id(id, decoder) {
            Err(e) => Err(EditError::Parse(e)),
            Ok(v) => match write_value_payload(encoder, &v) {
                Err(e) => Err(EditError::Parse(e)),
                Ok(()) => {
                    proof {
                        lemma_extends_add(w0, enc_payload(platform, v@)->Ok_0);
                    }
                    Ok(())
                },
            },
        }
    }
}

/// The name to meet, as text.
pub open spec fn name_view(o: Option<&String>) -> Option<Seq<char>> {
    match o {
        Some(n) => Some(n@),
        None => None,
    }
}

/// Edits the fields of a compound at `path`, up to and including its TAG_End
/// (which is read, not written); tells whether a field named `expected` was met.
fn process_fields<F: Fn(&NbtValue) -> bool>(
    decoder: &mut Decoder,
    encoder: &mut Encoder,
    platform: PlatformType,
    path: &Vec<PathSegment>,
    plan: &Plan,
    counts: &mut Counts,
    decide: &F,
    expected: Option<&String>,
) -> (r: Result<bool, EditError>)
    requires
        old(decoder).kind() == platform,
        old(encoder).kind() == platform,
        forall|v: &NbtValue| decide.requires((v,)),
    ensures
        final(decoder).kind() == platform,
        final(encoder).kind() == platform,
        r is Ok ==> final(decoder).rest().len() < old(decoder).rest().len(),
        r is Ok ==> extends(old(encoder).written(), final(encoder).written()),
        forall|d: spec_fn(NbtTree) -> bool| #[trigger] decides(*decide, d) ==> match sp_fields(
            platform, plan@, d, segs_of(path@), name_view(expected), false, old(counts)@, old(decoder).rest(),
        ) {
            Ok((b, t, found, rest)) => r == Ok::<bool, EditError>(found) && final(encoder).written() == old(encoder).written() + b
                && final(counts)@ == t && final(decoder).rest() == rest,
            Err(f) => r matches Err(e) && reports_fault(e, f),
        },
    decreases old(decoder).rest().len(), 1int,
{
    let ghost p = platform;
    let ghost s0 = decoder.rest();
    let ghost t0 = counts@;
    let ghost start = encoder.written();
    let ghost segs = segs_of(path@);
    let ghost exp = name_view(expected);
    let mut found = false;
    let ghost mut acc: Seq<u8> = Seq::empty();
    assert(start + acc =~= start);
    loop
        invariant
            decoder.kind() == platform,
            encoder.kind() == platform,
            forall|v: &NbtValue| decide.requires((v,)),
            p == platform,
            s0 == old(decoder).rest(),
            t0 == old(counts)@,
            start == old(encoder).written(),
            decoder.rest().len() <= s0.len(),
            encoder.written() == start + acc,
            segs == segs_of(path@),
            exp == name_view(expected),
            forall|d: spec_fn(NbtTree) -> bool| #[trigger] decides(*decide, d) ==> sp_fields(p, plan@, d, segs, exp, false, t0, s0)
                == after_fields(acc, sp_fields(p, plan@, d, segs, exp, found, counts@, decoder.rest())),
        decreases decoder.rest().len(),
    {
        let ghost s_b = decoder.rest();
        let ghost t_b = counts@;
        let ghost w_b = encoder.written();
        let fid = match decoder.read_id() {
            Err(e) => {
                proof {
                    lemma_fields_no_id(p, plan@, segs, exp, found, t_b, s_b);
                }
                return Err(EditError::Parse(e));
            },
            Ok(x) => x,
        };
        let ghost r1 = decoder.rest();
        if fid == tag_id::END {
            proof {
                lemma_fields_end(p, plan@, segs, exp, found, t_b, s_b, r1);
                assert(acc + Seq::<u8>::empty() =~= acc);
                lemma_extends_add(start, acc);
            }
            return Ok(found);
        }
        let name = match decoder.read_tag() {
            Err(e) => {
                proof {
                    lemma_fields_no_name(p, plan@, segs, exp, found, t_b, s_b, fid, r1);
                }
                return Err(EditError::Parse(e));
            },
            Ok(n) => n,
        };
        let ghost r2 = decoder.rest();
        let found2 = found || match expected {
            Some(x) => *x == name,
            None => false,
        };
        assert(found2 == (found || exp == Some(name@)));
        let mut child = copy_path(path.as_slice());
        child.push(PathSegment::Field(name.clone()));
        assert(segs_of(child@) =~= segs.push(Seg::Field(name@)));
        if deletes_by_path(plan, child.as_slice()) {
            proof {
                lemma_fields_deleted(p, plan@, segs, exp, found, t_b, s_b, fid, r1, name@, r2);
                lemma_payload_shrinks(p, fid, r2);
            }
            if counts.hits == usize::MAX {
                return Err(overflow_error());
            }
            counts.hits = counts.hits + 1;
            if let Err(e) = skip_value_by_id(decoder, fid) {
                return Err(EditError::Parse(e));
            }
        } else {
            proof {
                lemma_fields_kept(p, plan@, segs, exp, found, t_b, s_b, fid, r1, name@, r2);
            }
            let _ = encoder.write_id(fid);
            if let Err(e) = encoder.write_tag(name.as_str()) {
                return Err(EditError::Parse(e));
            }
            let ghost w_h = encoder.written();
            let res = process_payload(decoder, encoder, platform, fid, &child, plan, counts, decide);
            if let Err(e) = res {
                return Err(e);
            }
            proof {
                let tb = enc_tag(p, name@)->Some_0;
                lemma_extends_split(w_h, encoder.written());
                let x = encoder.written().skip(w_h.len() as int);
                let delta = seq![fid] + tb + x;
                assert(encoder.written() =~= w_b + delta);
                assert forall|d: spec_fn(NbtTree) -> bool| #[trigger] decides(*decide, d) implies sp_fields(p, plan@, d, segs, exp, false, t0, s0)
                    == after_fields(acc + delta, sp_fields(p, plan@, d, segs, exp, found2, counts@, decoder.rest())) by {
                    let b = sp_payload(p, plan@, d, fid, segs.push(Seg::Field(name@)), t_b, r2)->Ok_0.0;
                    assert(b =~= (w_h + b).skip(w_h.len() as int));
                    assert(delta =~= seq![fid] + tb + b);
                    lemma_after_fields_assoc(acc, delta, sp_fields(p, plan@, d, segs, exp, found2, counts@, decoder.rest()));
                }
                acc = acc + delta;
                assert(encoder.written() =~= start + acc);
            }
        }
        found = found2;
    }
}

/// Edits a compound's payload at `path`: its fields in turn, then, when the
/// value to create belongs in it and is missing, that value, then TAG_End.
fn process_compound<F: Fn(&NbtValue) -> bool>(
    decoder: &mut Decoder,
    encoder: &mut Encoder,
    platform: PlatformType,
    path: &Vec<PathSegment>,
    plan: &Plan,
    counts: &mut Counts,
    decide: &F,
) -> (r: Result<(), EditError>)
    requires
        old(decoder).kind() == platform,
        old(encoder).kind() == platform,
        forall|v: &NbtValue| decide.requires((v,)),
    ensures
        final(decoder).kind() == platform,
        final(encoder).kind() == platform,
        r is Ok ==> final(decoder).rest().len() < old(decoder).rest().len(),
        r is Ok ==> extends(old(encoder).written(), final(encoder).written()),
        forall|d: spec_fn(NbtTree) -> bool| #[trigger] decides(*decide, d) ==> edited(
            sp_compound(platform, plan@, d, segs_of(path@), old(counts)@, old(decoder).rest()),
            r,
            old(encoder).written(),
            final(encoder).written(),
            final(counts)@,
            final(decoder).rest(),
        ),
    decreases old(decoder).rest().len(), 2int,
{
    let ghost p = platform;
    let ghost start = encoder.written();
    let ghost segs = segs_of(path@);
    proof {
        lemma_compound_unfold(platform, plan@, segs, counts@, decoder.rest());
    }
    let expected: Option<&String> = match create_next(plan, path.as_slice()) {
        Some(PathSegment::Index(index)) => {
            return Err(EditError::InvalidInput(expects_index_error(*index)));
        },
        Some(PathSegment::Field(name)) => Some(name),
        None => None,
    };
    assert(name_view(expected) == (if on_create_way(plan@, segs) { Some(create_step(plan@, segs)->Field_0) } else { None::<Seq<char>> }));
    let found = match process_fields(decoder, encoder, platform, path, plan, counts, decide, expected) {
        Err(e) => return Err(e),
        Ok(f) => f,
    };
    let ghost w_f = encoder.written();
    let ghost t_f = counts@;
    proof {
        lemma_extends_split(start, w_f);
    }
    let ghost out = w_f.skip(start.len() as int);
    let res = finish_compound(encoder, platform, path, plan, counts, expected, found);
    if let Err(e) = res {
        return Err(e);
    }
    proof {
        let x = compound_close(p, plan@, segs, name_view(expected), found, t_f)->Ok_0.0;
        assert(encoder.written() =~= start + (out + x));
        lemma_extends_add(start, out + x);
        assert forall|d: spec_fn(NbtTree) -> bool| #[trigger] decides(*decide, d) implies
            sp_fields(p, plan@, d, segs, name_view(expected), false, old(counts)@, old(decoder).rest())->Ok_0.0 == out by {
            let fb = sp_fields(p, plan@, d, segs, name_view(expected), false, old(counts)@, old(decoder).rest())->Ok_0.0;
            assert(fb =~= (start + fb).skip(start.len() as int));
        }
    }
    Ok(())
}

/// Closes a compound after its fields: writes the value to create when it
/// belongs here and was not met, then TAG_End.
fn finish_compound(
    encoder: &mut Encoder,
    platform: PlatformType,
    path: &Vec<PathSegment>,
    plan: &Plan,
    counts: &mut Counts,
    expected: Option<&String>,
    found: bool,
) -> (r: Result<(), EditError>)
    requires
        old(encoder).kind() == platform,
        name_view(expected) is Some ==> on_create_way(plan@, segs_of(path@)),
    ensures
        final(encoder).kind() == platform,
        match compound_close(platform, plan@, segs_of(path@), name_view(expected), found, old(counts)@) {
            Ok((x, t)) => r is Ok && final(encoder).written() == old(encoder).written() + x && final(counts)@ == t,
            Err(f) => r matches Err(e) && reports_fault(e, f),
        },
{
    let ghost start = encoder.written();
    match (expected, plan) {
        (Some(name), Plan::Create { segments, value }) => {
            let count = segments.len();
            assert(plan@ == EditPlan::Create { segs: segs_of(segments@), value: value@ });
            assert(path@.len() < count);
            if !found {
                let created = match build_value_for_create_tail(segments.as_slice(), path.len() + 1, value) {
                    Err(m) => return Err(EditError::InvalidInput(m)),
                    Ok(c) => c,
                };
                let _ = encoder.write_id(component_id(&created));
                if let Err(e) = encoder.write_tag(name.as_str()) {
                    return Err(EditError::Parse(e));
                }
                if let Err(e) = write_value_payload(encoder, &created) {
                    return Err(EditError::Parse(e));
                }
                counts.done = true;
                let _ = encoder.write_id(tag_id::END);
                proof {
                    let tb = enc_tag(platform, name@)->Some_0;
                    let cb = enc_payload(platform, created@)->Ok_0;
                    assert(encoder.written() =~= start + (seq![tree_id(created@)] + tb + cb + seq![tag_id::END]));
                }
                return Ok(());
            }
        },
        _ => {},
    }
    let _ = encoder.write_id(tag_id::END);
    assert(encoder.written() =~= start + seq![tag_id::END]);
    Ok(())
}

/// The message of a list element kind mismatch.
fn mismatch_text(expected: u8, got: u8) -> (m: String)
    ensures
        m@ == mismatch_message(expected, got),
{
    match mismatch_error(expected, got) {
        ParseError::Other(m) => m,
        _ => String::new(),
    }
}

/// Edits element `index` of kind `eid` of the list at `path`: deletes it,
/// decides about it, or edits it as a value of its own, appending what is kept
/// to `temp`.
fn process_element<F: Fn(&NbtValue) -> bool>(
    decoder: &mut Decoder,
    temp: &mut Encoder,
    platform: PlatformType,
    path: &Vec<PathSegment>,
    plan: &Plan,
    counts: &mut Counts,
    decide: &F,
    eid: u8,
    targeted: bool,
    index: i32,
    n: i32,
    olen: &mut i32,
    deleted_any: &mut bool,
) -> (r: Result<(), EditError>)
    requires
        old(decoder).kind() == platform,
        old(temp).kind() == platform,
        forall|v: &NbtValue| decide.requires((v,)),
        0 <= index < n,
        0 <= *old(olen),
    ensures
        final(decoder).kind() == platform,
        final(temp).kind() == platform,
        0 <= *final(olen),
        r is Ok ==> final(decoder).rest().len() < old(decoder).rest().len(),
        r is Ok ==> extends(old(temp).written(), final(temp).written()),
        r is Ok ==> forall|d: spec_fn(NbtTree) -> bool| #[trigger] decides(*decide, d)
            ==> sp_elements(platform, plan@, d, segs_of(path@), eid, targeted, index as int, n as int,
                old(temp).written(), *old(olen) as int, *old(deleted_any), old(counts)@, old(decoder).rest())
            == sp_elements(platform, plan@, d, segs_of(path@), eid, targeted, index + 1, n as int,
                final(temp).written(), *final(olen) as int, *final(deleted_any), final(counts)@, final(decoder).rest()),
        r is Err ==> forall|d: spec_fn(NbtTree) -> bool| #[trigger] decides(*decide, d)
            ==> (sp_elements(platform, plan@, d, segs_of(path@), eid, targeted, index as int, n as int,
                old(temp).written(), *old(olen) as int, *old(deleted_any), old(counts)@, old(decoder).rest())
            matches Err(f) && reports_fault(r->Err_0, f)),
    decreases old(decoder).rest().len(), 5int,
{
    let ghost p = platform;
    let ghost segs = segs_of(path@);
    let ghost s_b = decoder.rest();
    let ghost t_b = counts@;
    let ghost out_b = temp.written();
    let ghost olen_b = *olen as int;
    let ghost da_b = *deleted_any;
    let ghost i_b = index as int;
    let mut child = copy_path(path.as_slice());
    child.push(PathSegment::Index(index as usize));
    assert(segs_of(child@) =~= segs.push(Seg::Index(i_b as usize)));
    proof {
        lemma_payload_shrinks(p, eid, s_b);
    }
    if deletes_by_path(plan, child.as_slice()) {
        proof {
            lemma_elements_deleted(p, plan@, segs, eid, targeted, i_b, n as int, out_b, olen_b, da_b, t_b, s_b);
        }
        if counts.hits == usize::MAX {
            return Err(overflow_error());
        }
        counts.hits = counts.hits + 1;
        if let Err(e) = skip_value_by_id(decoder, eid) {
            return Err(EditError::Parse(e));
        }
        *deleted_any = true;
        proof {
            lemma_extends_add(out_b, Seq::empty());
            assert(out_b + Seq::<u8>::empty() =~= out_b);
        }
        Ok(())
    } else if targeted && eid == tag_id::COMPOUND {
        proof {
            lemma_elements_decided(p, plan@, segs, eid, targeted, i_b, n as int, out_b, olen_b, da_b, t_b, s_b);
        }
        let v = match parse_value_by_id(eid, decoder) {
            Err(e) => return Err(EditError::Parse(e)),
            Ok(v) => v,
        };
        let chosen = decide(&v);
        proof {
            assert forall|d: spec_fn(NbtTree) -> bool| #[trigger] decides(*decide, d) implies chosen == d(v@) by {
                assert(decide.ensures((&v,), chosen));
            }
        }
        if chosen {
            if counts.deleted == usize::MAX {
                return Err(overflow_error());
            }
            counts.deleted = counts.deleted + 1;
            *deleted_any = true;
            proof {
                lemma_extends_add(out_b, Seq::empty());
                assert(out_b + Seq::<u8>::empty() =~= out_b);
            }
            Ok(())
        } else {
            if let Err(e) = write_value_payload(temp, &v) {
                return Err(EditError::Parse(e));
            }
            proof {
                lemma_extends_add(out_b, enc_payload(p, v@)->Ok_0);
            }
            if *olen == i32::MAX {
                return Err(overflow_error());
            }
            *olen = *olen + 1;
            Ok(())
        }
    } else {
        proof {
            lemma_elements_edited(p, plan@, segs, eid, targeted, i_b, n as int, out_b, olen_b, da_b, t_b, s_b);
        }
        let res = process_payload(decoder, temp, platform, eid, &child, plan, counts, decide);
        if let Err(e) = res {
            return Err(e);
        }
        if *olen == i32::MAX {
            return Err(overflow_error());
        }
        *olen = *olen + 1;
        Ok(())
    }
}

/// Edits the elements of kind `eid` of the list at `path`, from the first to
/// the `n`th, appending those kept to `temp`, counting them in `olen`, and
/// noting in `deleted_any` whether any was deleted.
fn process_elements<F: Fn(&NbtValue) -> bool>(
    decoder: &mut Decoder,
    temp: &mut Encoder,
    platform: PlatformType,
    path: &Vec<PathSegment>,
    plan: &Plan,
    counts: &mut Counts,
    decide: &F,
    eid: u8,
    targeted: bool,
    n: i32,
    olen: &mut i32,
    deleted_any: &mut bool,
) -> (r: Result<(), EditError>)
    requires
        old(decoder).kind() == platform,
        old(temp).kind() == platform,
        forall|v: &NbtValue| decide.requires((v,)),
        0 <= n,
        0 <= *old(olen),
    ensures
        final(decoder).kind() == platform,
        final(temp).kind() == platform,
        0 <= *final(olen),
        r is Ok ==> final(decoder).rest().len() <= old(decoder).rest().len(),
        r is Ok ==> extends(old(temp).written(), final(temp).written()),
        forall|d: spec_fn(NbtTree) -> bool| #[trigger] decides(*decide, d) ==> match sp_elements(
            platform, plan@, d, segs_of(path@), eid, targeted, 0, n as int, old(temp).written(), *old(olen) as int,
            *old(deleted_any), old(counts)@, old(decoder).rest(),
        ) {
            Ok((out, ol, da, t, rest)) => r is Ok && final(temp).written() == out && *final(olen) == ol
                && *final(deleted_any) == da && final(counts)@ == t && final(decoder).rest() == rest,
            Err(f) => r matches Err(e) && reports_fault(e, f),
        },
    decreases old(decoder).rest().len(), 6int,
{
    let ghost p = platform;
    let ghost s0 = decoder.rest();
    let ghost t0 = counts@;
    let ghost out0 = temp.written();
    let ghost olen0 = *olen as int;
    let ghost da0 = *deleted_any;
    let ghost segs = segs_of(path@);
    let mut index: i32 = 0;
    assert(out0.take(out0.len() as int) =~= out0);
    while index < n
        invariant
            decoder.kind() == platform,
            temp.kind() == platform,
            forall|v: &NbtValue| decide.requires((v,)),
            0 <= index <= n,
            0 <= *olen,
            p == platform,
            s0 == old(decoder).rest(),
            t0 == old(counts)@,
            out0 == old(temp).written(),
            olen0 == *old(olen) as int,
            da0 == *old(deleted_any),
            extends(out0, temp.written()),
            decoder.rest().len() <= s0.len(),
            segs == segs_of(path@),
            forall|d: spec_fn(NbtTree) -> bool| #[trigger] decides(*decide, d)
                ==> sp_elements(p, plan@, d, segs, eid, targeted, 0, n as int, out0, olen0, da0, t0, s0)
                == sp_elements(p, plan@, d, segs, eid, targeted, index as int, n as int, temp.written(), *olen as int,
                    *deleted_any, counts@, decoder.rest()),
        decreases n - index,
    {
        let ghost out_b = temp.written();
        let res = process_element(decoder, temp, platform, path, plan, counts, decide, eid, targeted, index, n, olen, deleted_any);
        if let Err(e) = res {
            return Err(e);
        }
        proof {
            lemma_extends_trans(out0, out_b, temp.written());
        }
        index = index + 1;
    }
    proof {
        lemma_elements_done(p, plan@, segs, eid, targeted, index as int, n as int, temp.written(), *olen as int, *deleted_any, counts@, decoder.rest());
    }
    Ok(())
}

/// Edits a list's payload at `path`: each element in turn (deleting those the
/// plan deletes), then the value to create when it belongs at the list's end;
/// the header written gives the new element count.
fn process_list<F: Fn(&NbtValue) -> bool>(
    decoder: &mut Decoder,
    encoder: &mut Encoder,
    platform: PlatformType,
    path: &Vec<PathSegment>,
    plan: &Plan,
    counts: &mut Counts,
    decide: &F,
) -> (r: Result<(), EditError>)
    requires
        old(decoder).kind() == platform,
        old(encoder).kind() == platform,
        forall|v: &NbtValue| decide.requires((v,)),
    ensures
        final(decoder).kind() == platform,
        final(encoder).kind() == platform,
        r is Ok ==> final(decoder).rest().len() < old(decoder).rest().len(),
        r is Ok ==> extends(old(encoder).written(), final(encoder).written()),
        forall|d: spec_fn(NbtTree) -> bool| #[trigger] decides(*decide, d) ==> edited(
            sp_list(platform, plan@, d, segs_of(path@), old(counts)@, old(decoder).rest()),
            r,
            old(encoder).written(),
            final(encoder).written(),
            final(counts)@,
            final(decoder).rest(),
        ),
    decreases old(decoder).rest().len(), 2int,
{
    let ghost p = platform;
    let ghost s0 = decoder.rest();
    let ghost start = encoder.written();
    let ghost segs = segs_of(path@);
    proof {
        lemma_list_unfold(platform, plan@, segs, counts@, s0);
    }
    let eid = match decoder.read_id() {
        Err(e) => return Err(EditError::Parse(e)),
        Ok(x) => x,
    };
    let n = match decoder.read_int() {
        Err(e) => return Err(EditError::Parse(e)),
        Ok(x) => x,
    };
    if n < 0 {
        return Err(EditError::Parse(ParseError::InvalidLength(n)));
    }
    let next = create_next(plan, path.as_slice());
    if let Some(PathSegment::Field(name)) = next {
        return Err(EditError::InvalidInput(expects_field_error(name.as_str())));
    }
    let targeted = decides_about(plan, path.as_slice());
    let mut temp = Encoder::new(Vec::new(), platform);
    let mut olen: i32 = 0;
    let mut deleted_any = false;
    let res = process_elements(decoder, &mut temp, platform, path, plan, counts, decide, eid, targeted, n, &mut olen, &mut deleted_any);
    if let Err(e) = res {
        return Err(e);
    }
    let ghost out = temp.written();
    let ghost t2 = counts@;
    let ghost olen_e = olen as int;
    let out_id = match finish_list(&mut temp, platform, path, plan, counts, eid, n, &mut olen) {
        Err(e) => return Err(e),
        Ok(id) => id,
    };
    let header = if deleted_any && olen == 0 { tag_id::END } else { out_id };
    let _ = encoder.write_id(header);
    let _ = encoder.write_int(olen);
    encoder.write_raw(temp.bytes().as_slice());
    proof {
        assert(encoder.written() =~= start + (seq![header] + u32_bytes(p, olen as u32) + temp.written()));
        lemma_extends_add(start, seq![header] + u32_bytes(p, olen as u32) + temp.written());
    }
    Ok(())
}

/// Appends the value to create at the end of the list at `path`, of `n`
/// elements of kind `eid`, when the path to create ends there; gives the
/// element kind that the list's header is to carry.
fn finish_list(
    temp: &mut Encoder,
    platform: PlatformType,
    path: &Vec<PathSegment>,
    plan: &Plan,
    counts: &mut Counts,
    eid: u8,
    n: i32,
    olen: &mut i32,
) -> (r: Result<u8, EditError>)
    requires
        old(temp).kind() == platform,
        0 <= n,
        0 <= *old(olen),
    ensures
        final(temp).kind() == platform,
        0 <= *final(olen),
        match list_end(platform, plan@, segs_of(path@), eid, n as int, old(temp).written(), *old(olen) as int, old(counts)@) {
            Ok((eid2, out2, olen2, t3)) => r == Ok::<u8, EditError>(eid2) && final(temp).written() == out2
                && *final(olen) == olen2 && final(counts)@ == t3,
            Err(f) => r matches Err(e) && reports_fault(e, f),
        },
{
    let ghost start = temp.written();
    if let Some(PathSegment::Index(ci)) = create_next(plan, path.as_slice()) {
        let ci = *ci;
        if ci > n as usize {
            return Err(EditError::InvalidInput(sparse_error(ci)));
        }
        if ci == n as usize {
            match plan {
                Plan::Create { segments, value } => {
                    let count = segments.len();
                    assert(plan@ == EditPlan::Create { segs: segs_of(segments@), value: value@ });
                    assert(path@.len() < count);
                    let created = match build_value_for_create_tail(segments.as_slice(), path.len() + 1, value) {
                        Err(m) => return Err(EditError::InvalidInput(m)),
                        Ok(c) => c,
                    };
                    let expected = component_id(&created);
                    if n == 0 {
                        if eid != tag_id::END && eid != expected {
                            return Err(EditError::InvalidInput(mismatch_text(eid, expected)));
                        }
                    } else if eid != expected {
                        return Err(EditError::InvalidInput(mismatch_text(eid, expected)));
                    }
                    if let Err(e) = write_value_payload(temp, &created) {
                        return Err(EditError::Parse(e));
                    }
                    if *olen == i32::MAX {
                        return Err(overflow_error());
                    }
                    *olen = *olen + 1;
                    counts.done = true;
                    return Ok(expected);
                },
                _ => {},
            }
        }
    }
    Ok(eid)
}

/// Edits a whole document as it passes from `input` to the output: the
/// root's id and name are copied, then its payload is edited by the plan.
/// `decide` picks the compound list elements to delete under a delete plan
/// with lists; the outcome is the same for every function it decides by.
pub fn transform_raw<F: Fn(&NbtValue) -> bool>(input: Vec<u8>, platform: PlatformType, plan: &Plan, decide: &F) -> (r: Result<(Vec<u8>, Counts), EditError>)
    requires
        forall|v: &NbtValue| decide.requires((v,)),
    ensures
        forall|d: spec_fn(NbtTree) -> bool| #[trigger] decides(*decide, d) ==> match sp_document(
            platform,
            plan@,
            d,
            Tally { hits: 0, done: false, deleted: 0 },
            input@,
        ) {
            Ok((out, t)) => r matches Ok((o, c)) && o@ == out && c@ == t,
            Err(f) => r matches Err(e) && reports_fault(e, f),
        },
{
    proof {
        }
    let mut decoder = Decoder::new(input, platform);
    let mut encoder = Encoder::new(Vec::new(), platform);
    let root_id = match decoder.read_id() {
        Err(e) => return Err(EditError::Parse(e)),
        Ok(x) => x,
    };
    let root_tag = match decoder.read_tag() {
        Err(e) => return Err(EditError::Parse(e)),
        Ok(x) => x,
    };
    if root_id != tag_id::LIST && root_id != tag_id::COMPOUND {
        return Err(EditError::Parse(ParseError::InvalidRootTag(root_id)));
    }
    let _ = encoder.write_id(root_id);
    if let Err(e) = encoder.write_tag(root_tag.as_str()) {
        return Err(EditError::Parse(e));
    }
    let ghost head = encoder.written();
    let path: Vec<PathSegment> = Vec::new();
    let mut counts = Counts { hits: 0, done: false, deleted: 0 };
    assert(segs_of(path@) =~= Seq::<Seg>::empty());
    let res = process_payload(&mut decoder, &mut encoder, platform, root_id, &path, plan, &mut counts, decide);
    if let Err(e) = res {
        return Err(e);
    }
    proof {
        let tb = enc_tag(platform, root_tag@)->Some_0;
        lemma_extends_split(head, encoder.written());
        let b = encoder.written().skip(head.len() as int);
        assert(head =~= seq![root_id] + tb);
        assert(encoder.written() =~= seq![root_id] + tb + b);
    }
    Ok((encoder.into_bytes(), counts))
}

/// Whether an edit that ran did something: a value set or created, a value
/// deleted by path, or a list element deleted by decision.
pub open spec fn made_change(plan: EditPlan, t: Tally) -> bool {
    match plan {
        EditPlan::Replace { .. } => t.hits > 0,
        EditPlan::Create { .. } => t.done,
        EditPlan::Delete { lists, .. } => if lists is Some { t.deleted > 0 } else { t.hits > 0 },
    }
}

/// Whether the counts of an edit show that it did something; an edit that
/// did nothing is reported as not finding its path (or, deleting by
/// decision, as no element matching).
pub fn edit_found(plan: &Plan, counts: &Counts) -> (r: bool)
    ensures
        r == made_change(plan@, counts@),
{
    match plan {
        Plan::Replace { .. } => counts.hits > 0,
        Plan::Create { .. } => counts.done,
        Plan::Delete { lists, .. } => match lists {
            Some(_) => counts.deleted > 0,
            None => counts.hits > 0,
        },
    }
}

/// Whether an edit found what it was for, by the counts it kept: a delete
/// by path (no lists) is found exactly when it deleted some value by path,
/// whatever its count of elements deleted by decision; a delete by decision
/// exactly when it deleted some element; a set when it set some value; a
/// create when it created the value. Counts that agree on what the plan
/// looks at give the same answer.
pub proof fn lemma_found_by_counts(targets: Seq<Seq<char>>, lists: Seq<Seq<char>>, sel: SelView, values: Seq<
    Result<NbtTree, Seq<char>>,
>, segs: Seq<Seg>, value: NbtTree, t: Tally, u: Tally)
    ensures
        made_change(EditPlan::Delete { targets, lists: None }, t) <==> t.hits > 0,
        made_change(EditPlan::Delete { targets, lists: Some(lists) }, t) <==> t.deleted > 0,
        made_change(EditPlan::Replace { sel, values }, t) <==> t.hits > 0,
        made_change(EditPlan::Create { segs, value }, t) <==> t.done,
        t.hits == u.hits ==> (made_change(EditPlan::Delete { targets, lists: None }, t) == made_change(
            EditPlan::Delete { targets, lists: None },
            u,
        )),
{
}

} // verus!
