//! Finding, in one pass over a document's bytes, the paths that a selector
//! chooses and the paths of the lists, without building the tree.
use vstd::prelude::*;
use crate::codec::skip_value_by_id;
use crate::decoder::Decoder;
use crate::error::ParseError;
use crate::path::{copy_path, path_segments_to_string, render, segs_of, PathSegment, Seg};
use crate::platform::PlatformType;
use crate::select::{paths_view, PathSelector};
use crate::stream::{chooses, contains_text, sel_view, selector_matches, texts_of};
use crate::tag_id;
use crate::tree::{lemma_payload_shrinks, wire_payload};
use crate::wire::{reports, wire_i32, wire_tag, wire_u8, Fault};

verus! {

/// The outcome of scanning part of a document: the chosen paths and the list
/// path texts so far, and the input left.
pub type Scanned = Result<(Seq<Seq<Seg>>, Seq<Seq<char>>, Seq<u8>), Fault>;

/// Scanning the payload of a value of kind `id` at `path`: the path is noted
/// when chosen, a list's path text is noted, and what is below is scanned.
pub open spec fn sc_payload(
    p: PlatformType,
    sel: crate::stream::SelView,
    id: u8,
    path: Seq<Seg>,
    m: Seq<Seq<Seg>>,
    l: Seq<Seq<char>>,
    s: Seq<u8>,
) -> Scanned
    decreases s.len(), 2int,
{
    let m2 = if chooses(sel, path) { m.push(path) } else { m };
    if id == tag_id::LIST {
        sc_list(p, sel, path, m2, l.push(render(path)), s)
    } else if id == tag_id::COMPOUND {
        sc_fields(p, sel, path, m2, l, s)
    } else {
        match wire_payload(p, id, s) {
            Err(f) => Err(f),
            Ok((_, r)) => Ok((m2, l, r)),
        }
    }
}

/// Scanning a list's payload at `path`.
pub open spec fn sc_list(
    p: PlatformType,
    sel: crate::stream::SelView,
    path: Seq<Seg>,
    m: Seq<Seq<Seg>>,
    l: Seq<Seq<char>>,
    s: Seq<u8>,
) -> Scanned
    decreases s.len(), 1int,
{
    match wire_u8(s) {
        Err(f) => Err(f),
        Ok((eid, r1)) => match wire_i32(p, r1) {
            Err(f) => Err(f),
            Ok((n, r2)) => if n < 0 {
                Err(Fault::BadLength(n))
            } else if r2.len() < s.len() {
                sc_elements(p, sel, path, eid, 0, n as int, m, l, r2)
            } else {
                Err(Fault::Eof)
            },
        },
    }
}

/// Scanning list elements `index..n` of kind `eid`.
pub open spec fn sc_elements(
    p: PlatformType,
    sel: crate::stream::SelView,
    path: Seq<Seg>,
    eid: u8,
    index: int,
    n: int,
    m: Seq<Seq<Seg>>,
    l: Seq<Seq<char>>,
    s: Seq<u8>,
) -> Scanned
    decreases s.len(), 3int,
{
    if index >= n {
        Ok((m, l, s))
    } else {
        match sc_payload(p, sel, eid, path.push(Seg::Index(index as usize)), m, l, s) {
            Err(f) => Err(f),
            Ok((m2, l2, r)) => if r.len() < s.len() {
                sc_elements(p, sel, path, eid, index + 1, n, m2, l2, r)
            } else {
                Err(Fault::Eof)
            },
        }
    }
}

/// Scanning the fields of a compound at `path`, up to its TAG_End.
pub open spec fn sc_fields(
    p: PlatformType,
    sel: crate::stream::SelView,
    path: Seq<Seg>,
    m: Seq<Seq<Seg>>,
    l: Seq<Seq<char>>,
    s: Seq<u8>,
) -> Scanned
    decreases s.len(), 0int,
{
    match wire_u8(s) {
        Err(f) => Err(f),
        Ok((fid, r1)) => if fid == tag_id::END {
            Ok((m, l, r1))
        } else {
            match wire_tag(p, r1) {
                Err(f) => Err(f),
                Ok((name, r2)) => if r2.len() < s.len() {
                    match sc_payload(p, sel, fid, path.push(Seg::Field(name)), m, l, r2) {
                        Err(f) => Err(f),
                        Ok((m2, l2, r3)) => if r3.len() < s.len() {
                            sc_fields(p, sel, path, m2, l2, r3)
                        } else {
                            Err(Fault::Eof)
                        },
                    }
                } else {
                    Err(Fault::Eof)
                },
            }
        },
    }
}

/// Scanning a whole document: its root's id and name, then its payload.
pub open spec fn sc_document(p: PlatformType, sel: crate::stream::SelView, s: Seq<u8>) -> Result<(Seq<Seq<Seg>>, Seq<Seq<char>>), Fault> {
    match wire_u8(s) {
        Err(f) => Err(f),
        Ok((id, r1)) => match wire_tag(p, r1) {
            Err(f) => Err(f),
            Ok((_, r2)) => if id != tag_id::LIST && id != tag_id::COMPOUND {
                Err(Fault::BadRoot(id))
            } else {
                match sc_payload(p, sel, id, Seq::empty(), Seq::empty(), Seq::empty(), r2) {
                    Err(f) => Err(f),
                    Ok((m, l, _)) => Ok((m, l)),
                }
            },
        },
    }
}

/// What a scan found: the chosen paths, in document order, and the path
/// texts of all lists.
pub struct ScanResult {
    pub matched_paths: Vec<Vec<PathSegment>>,
    pub list_paths: Vec<String>,
}

/// Whether a run agrees with the outcome `e`.
pub open spec fn scanned_as(
    e: Scanned,
    r: Result<(), ParseError>,
    m: Seq<Vec<PathSegment>>,
    l: Seq<String>,
    rest: Seq<u8>,
) -> bool {
    match e {
        Ok((m2, l2, r2)) => r is Ok && paths_view(m) == m2 && texts_of(l) == l2 && rest == r2,
        Err(f) => r matches Err(x) && reports(x, f),
    }
}

proof fn lemma_tag_shrinks(p: PlatformType, s: Seq<u8>)
    ensures
        wire_tag(p, s) matches Ok((_, r)) ==> r.len() < s.len(),
{
}

/// Notes `path` when the selector chooses it.
fn note_choice(selector: &PathSelector, path: &Vec<PathSegment>, matched: &mut Vec<Vec<PathSegment>>)
    ensures
        paths_view(final(matched)@) == if chooses(sel_view(*selector), segs_of(path@)) {
            paths_view(old(matched)@).push(segs_of(path@))
        } else {
            paths_view(old(matched)@)
        },
{
    if selector_matches(selector, path.as_slice()) {
        let ghost before = paths_view(matched@);
        matched.push(copy_path(path.as_slice()));
        assert(paths_view(matched@) =~= before.push(segs_of(path@)));
    }
}

/// Scans the payload of a value of kind `id` at `path`.
fn scan_node(
    decoder: &mut Decoder,
    id: u8,
    path: &Vec<PathSegment>,
    selector: &PathSelector,
    matched: &mut Vec<Vec<PathSegment>>,
    lists: &mut Vec<String>,
) -> (r: Result<(), ParseError>)
    ensures
        final(decoder).kind() == old(decoder).kind(),
        r is Ok ==> final(decoder).rest().len() < old(decoder).rest().len(),
        scanned_as(
            sc_payload(old(decoder).kind(), sel_view(*selector), id, segs_of(path@), paths_view(old(matched)@),
                texts_of(old(lists)@), old(decoder).rest()),
            r,
            final(matched)@,
            final(lists)@,
            final(decoder).rest(),
        ),
    decreases old(decoder).rest().len(), 2int,
{
    note_choice(selector, path, matched);
    proof {
        lemma_payload_shrinks(decoder.kind(), id, decoder.rest());
    }
    if id == tag_id::LIST {
        let ghost before = texts_of(lists@);
        lists.push(path_segments_to_string(path.as_slice()));
        assert(texts_of(lists@) =~= before.push(render(segs_of(path@))));
        scan_list(decoder, path, selector, matched, lists)
    } else if id == tag_id::COMPOUND {
        scan_fields(decoder, path, selector, matched, lists)
    } else {
        skip_value_by_id(decoder, id)
    }
}

/// Scans a list's payload at `path`.
fn scan_list(
    decoder: &mut Decoder,
    path: &Vec<PathSegment>,
    selector: &PathSelector,
    matched: &mut Vec<Vec<PathSegment>>,
    lists: &mut Vec<String>,
) -> (r: Result<(), ParseError>)
    ensures
        final(decoder).kind() == old(decoder).kind(),
        r is Ok ==> final(decoder).rest().len() < old(decoder).rest().len(),
        scanned_as(
            sc_list(old(decoder).kind(), sel_view(*selector), segs_of(path@), paths_view(old(matched)@),
                texts_of(old(lists)@), old(decoder).rest()),
            r,
            final(matched)@,
            final(lists)@,
            final(decoder).rest(),
        ),
    decreases old(decoder).rest().len(), 1int,
{
    let ghost p = decoder.kind();
    let ghost s0 = decoder.rest();
    let ghost sel = sel_view(*selector);
    let ghost segs = segs_of(path@);
    let eid = decoder.read_id()?;
    let n = decoder.read_int()?;
    if n < 0 {
        return Err(ParseError::InvalidLength(n));
    }
    let ghost r2 = decoder.rest();
    let mut index: i32 = 0;
    while index < n
        invariant
            decoder.kind() == p,
            s0 == old(decoder).rest(),
            p == old(decoder).kind(),
            0 <= index <= n,
            decoder.rest().len() <= r2.len(),
            r2.len() < s0.len(),
            sel == sel_view(*selector),
            segs == segs_of(path@),
            sc_list(p, sel, segs, paths_view(old(matched)@), texts_of(old(lists)@), s0)
                == sc_elements(p, sel, segs, eid, index as int, n as int, paths_view(matched@), texts_of(lists@),
                decoder.rest()),
        decreases n - index,
    {
        let mut child = copy_path(path.as_slice());
        child.push(PathSegment::Index(index as usize));
        assert(segs_of(child@) =~= segs.push(Seg::Index(index as usize)));
        scan_node(decoder, eid, &child, selector, matched, lists)?;
        index = index + 1;
    }
    Ok(())
}

/// Scans the fields of a compound at `path`, up to its TAG_End.
fn scan_fields(
    decoder: &mut Decoder,
    path: &Vec<PathSegment>,
    selector: &PathSelector,
    matched: &mut Vec<Vec<PathSegment>>,
    lists: &mut Vec<String>,
) -> (r: Result<(), ParseError>)
    ensures
        final(decoder).kind() == old(decoder).kind(),
        r is Ok ==> final(decoder).rest().len() < old(decoder).rest().len(),
        scanned_as(
            sc_fields(old(decoder).kind(), sel_view(*selector), segs_of(path@), paths_view(old(matched)@),
                texts_of(old(lists)@), old(decoder).rest()),
            r,
            final(matched)@,
            final(lists)@,
            final(decoder).rest(),
        ),
    decreases old(decoder).rest().len(), 0int,
{
    let ghost p = decoder.kind();
    let ghost s0 = decoder.rest();
    let ghost sel = sel_view(*selector);
    let ghost segs = segs_of(path@);
    loop
        invariant
            decoder.kind() == p,
            decoder.rest().len() <= s0.len(),
            s0 == old(decoder).rest(),
            p == old(decoder).kind(),
            sel == sel_view(*selector),
            segs == segs_of(path@),
            sc_fields(p, sel, segs, paths_view(old(matched)@), texts_of(old(lists)@), s0)
                == sc_fields(p, sel, segs, paths_view(matched@), texts_of(lists@), decoder.rest()),
        decreases decoder.rest().len(),
    {
        let ghost s_b = decoder.rest();
        let fid = decoder.read_id()?;
        if fid == tag_id::END {
            return Ok(());
        }
        let ghost r1 = decoder.rest();
        let name = decoder.read_tag()?;
        proof {
            lemma_tag_shrinks(p, r1);
        }
        let ghost nm = name@;
        let mut child = copy_path(path.as_slice());
        child.push(PathSegment::Field(name));
        assert(segs_of(child@) =~= segs.push(Seg::Field(nm)));
        scan_node(decoder, fid, &child, selector, matched, lists)?;
    }
}

/// Scans a whole document's bytes for the paths that the selector chooses
/// and the paths of its lists.
pub fn scan_paths(input: Vec<u8>, platform: PlatformType, selector: &PathSelector) -> (r: Result<ScanResult, ParseError>)
    ensures
        match sc_document(platform, sel_view(*selector), input@) {
            Ok((m, l)) => r matches Ok(x) && paths_view(x.matched_paths@) == m && texts_of(x.list_paths@) == l,
            Err(f) => r matches Err(e) && reports(e, f),
        },
{
    let mut decoder = Decoder::new(input, platform);
    let root_id = decoder.read_id()?;
    let _root_tag = decoder.read_tag()?;
    if root_id != tag_id::LIST && root_id != tag_id::COMPOUND {
        return Err(ParseError::InvalidRootTag(root_id));
    }
    let mut matched: Vec<Vec<PathSegment>> = Vec::new();
    let mut lists: Vec<String> = Vec::new();
    let path: Vec<PathSegment> = Vec::new();
    assert(segs_of(path@) =~= Seq::<Seg>::empty());
    assert(paths_view(matched@) =~= Seq::<Seq<Seg>>::empty());
    assert(texts_of(lists@) =~= Seq::<Seq<char>>::empty());
    scan_node(&mut decoder, root_id, &path, selector, &mut matched, &mut lists)?;
    Ok(ScanResult { matched_paths: matched, list_paths: lists })
}

/// The text of the longest prefix of `path`, at most `depth` steps long, that
/// is the path of a list.
pub open spec fn nearest_list(path: Seq<Seg>, lists: Seq<Seq<char>>, depth: int) -> Option<Seq<char>>
    decreases depth + 1,
{
    if depth < 0 {
        None
    } else if lists.contains(render(path.take(depth))) {
        Some(render(path.take(depth)))
    } else {
        nearest_list(path, lists, depth - 1)
    }
}

/// For each chosen path in turn, the nearest list that holds it (or that it
/// is), each list once.
pub open spec fn scan_targets(paths: Seq<Seq<Seg>>, lists: Seq<Seq<char>>) -> Seq<Seq<char>>
    decreases paths.len(),
{
    if paths.len() == 0 {
        Seq::empty()
    } else {
        let r = scan_targets(paths.drop_last(), lists);
        match nearest_list(paths.last(), lists, paths.last().len() as int) {
            Some(t) => if r.contains(t) { r } else { r.push(t) },
            None => r,
        }
    }
}

/// The texts of the lists that a delete with a where expression works on:
/// for each chosen path, the nearest list that holds it or that it is.
pub fn resolve_list_targets_from_scan(scan: &ScanResult) -> (r: Vec<String>)
    ensures
        texts_of(r@) == scan_targets(paths_view(scan.matched_paths@), texts_of(scan.list_paths@)),
{
    let ghost ps = paths_view(scan.matched_paths@);
    let ghost ls = texts_of(scan.list_paths@);
    let mut targets: Vec<String> = Vec::new();
    let mut i: usize = 0;
    assert(ps.take(0) =~= Seq::<Seq<Seg>>::empty());
    assert(texts_of(targets@) =~= Seq::<Seq<char>>::empty());
    while i < scan.matched_paths.len()
        invariant
            i <= scan.matched_paths@.len(),
            ps == paths_view(scan.matched_paths@),
            ls == texts_of(scan.list_paths@),
            texts_of(targets@) == scan_targets(ps.take(i as int), ls),
        decreases scan.matched_paths@.len() - i,
    {
        let path = &scan.matched_paths[i];
        let ghost segs = segs_of(path@);
        assert(ps[i as int] == segs);
        let mut depth: usize = path.len();
        let mut found: Option<String> = None;
        loop
            invariant_except_break
                found is None,
            invariant
                depth <= path@.len(),
                segs == segs_of(path@),
                ls == texts_of(scan.list_paths@),
                nearest_list(segs, ls, segs.len() as int) == nearest_list(segs, ls, depth as int),
            ensures
                match found {
                    Some(t) => nearest_list(segs, ls, segs.len() as int) == Some(t@),
                    None => nearest_list(segs, ls, segs.len() as int) is None,
                },
            decreases depth,
        {
            let prefix = crate::edit::copy_path_prefix(path.as_slice(), depth);
            let candidate = path_segments_to_string(prefix.as_slice());
            if contains_text(&scan.list_paths, &candidate) {
                found = Some(candidate);
                break;
            }
            if depth == 0 {
                assert(nearest_list(segs, ls, -1) is None);
                break;
            }
            depth = depth - 1;
        }
        assert(ps.take(i + 1).drop_last() =~= ps.take(i as int));
        assert(ps.take(i + 1).last() == segs);
        if let Some(t) = found {
            if !contains_text(&targets, &t) {
                let ghost before = texts_of(targets@);
                targets.push(t);
                assert(texts_of(targets@) =~= before.push(targets@[targets@.len() - 1]@));
            }
        }
        i = i + 1;
    }
    assert(ps.take(scan.matched_paths@.len() as int) =~= ps);
    targets
}

} // verus!
