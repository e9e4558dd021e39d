//! Choosing paths in a document: exact paths, and patterns over their text.
use vstd::prelude::*;
use vstd::string::StrSliceExecFns;
use crate::edit::{find_ref, lookup};
use crate::path::{
    is_ancestor_path, same_segment, append_field_path, append_index_path, copy_path, field_path, index_path, parse_path, path_scan, render, segs_of,
    PathSegment, Scan, Seg,
};
use crate::tree::{fields_of, lemma_compound_view, lemma_list_view, trees_of, NbtTree, NbtValue};

verus! {

#[verifier::external_type_specification]
#[verifier::external_body]
pub struct ExRegex(regex::Regex);

/// The message of the error that `regex::Regex::new` reports for `pattern`,
/// or `None` when the pattern compiles.
pub uninterp spec fn regex_compile_error(pattern: Seq<char>) -> Option<Seq<char>>;

/// Whether the regex compiled from `pattern` matches somewhere in `text`
/// (as `regex::Regex::is_match` decides).
pub uninterp spec fn regex_is_match(pattern: Seq<char>, text: Seq<char>) -> bool;

/// A compiled regular expression, with the pattern it was compiled from.
pub struct PathPattern {
    source: String,
    regex: regex::Regex,
}

impl View for PathPattern {
    type V = Seq<char>;

    closed spec fn view(&self) -> Seq<char> {
        self.source@
    }
}

/// Compiles `pattern` with `regex::Regex::new`.
///
/// Trusted: success exactly when the named compile error is absent; the
/// pattern kept is the one given; a failure carries the crate error's text.
#[verifier::external_body]
pub(crate) fn compile_pattern(pattern: &str) -> (r: Result<PathPattern, String>)
    ensures
        match regex_compile_error(pattern@) {
            None => r matches Ok(p) && p@ == pattern@,
            Some(m) => r matches Err(e) && e@ == m,
        },
{
    match regex::Regex::new(pattern) {
        Ok(regex) => Ok(PathPattern { source: pattern.to_string(), regex }),
        Err(err) => Err(err.to_string()),
    }
}

/// Whether the pattern matches somewhere in `text`, with `regex::Regex::is_match`.
///
/// Trusted: the result is the named match relation of the pattern's text and `text`.
#[verifier::external_body]
pub(crate) fn pattern_matches(pattern: &PathPattern, text: &str) -> (b: bool)
    ensures
        b == regex_is_match(pattern@, text@),
{
    pattern.regex.is_match(text)
}

impl PathPattern {
    /// Whether the pattern matches somewhere in `text`.
    pub fn is_match(&self, text: &str) -> (b: bool)
        ensures
            b == regex_is_match(self@, text@),
    {
        pattern_matches(self, text)
    }
}

/// A choice of paths: one exact path, or every path whose text a pattern matches.
pub enum PathSelector {
    Exact(Vec<PathSegment>),
    Regex(PathPattern),
}

/// The message for a pattern that does not compile.
pub open spec fn bad_regex_message(m: Seq<char>) -> Seq<char> {
    "invalid path regex: "@ + m
}

/// Whether the text starts with the regex marker `re:`.
pub open spec fn is_regex_text(path: Seq<char>) -> bool {
    path.len() >= 3 && path[0] == 'r' && path[1] == 'e' && path[2] == ':'
}

/// Reads a selector: `re:` followed by a regex, or an exact path.
pub fn parse_path_selector(path: &str) -> (r: Result<PathSelector, String>)
    ensures
        is_regex_text(path@) ==> match regex_compile_error(path@.skip(3)) {
            None => r matches Ok(PathSelector::Regex(p)) && p@ == path@.skip(3),
            Some(m) => r matches Err(e) && e@ == bad_regex_message(m),
        },
        !is_regex_text(path@) ==> match path_scan(path@) {
            Scan::Done(s) => r matches Ok(PathSelector::Exact(v)) && segs_of(v@) == s,
            Scan::Fail(m) => r matches Err(e) && e@ == m,
        },
{
    let n = path.unicode_len();
    if n >= 3 && path.get_char(0) == 'r' && path.get_char(1) == 'e' && path.get_char(2) == ':' {
        let pattern = path.substring_char(3, n);
        assert(pattern@ =~= path@.skip(3));
        return match compile_pattern(pattern) {
            Ok(p) => Ok(PathSelector::Regex(p)),
            Err(m) => {
                let mut text = String::from_str("invalid path regex: ");
                text.append(m.as_str());
                Err(text)
            },
        };
    }
    match parse_path(path) {
        Ok(segments) => Ok(PathSelector::Exact(segments)),
        Err(e) => Err(e),
    }
}

/// Every path in `t`, each with `prefix` in front, in document order: the
/// value itself first, then what is below each child in turn.
pub open spec fn all_paths(t: NbtTree, prefix: Seq<Seg>) -> Seq<Seq<Seg>>
    decreases t, 2int,
{
    seq![prefix] + match t {
        NbtTree::Compound(fs) => field_paths(fs, prefix),
        NbtTree::List(_, es) => element_paths(es, prefix),
        _ => Seq::empty(),
    }
}

/// The paths below each field, in order.
pub open spec fn field_paths(fs: Seq<(Seq<char>, NbtTree)>, prefix: Seq<Seg>) -> Seq<Seq<Seg>>
    decreases fs, 1int,
{
    if fs.len() == 0 {
        Seq::empty()
    } else {
        field_paths(fs.drop_last(), prefix) + all_paths(fs.last().1, prefix.push(Seg::Field(fs.last().0)))
    }
}

/// The paths below each element, in order.
pub open spec fn element_paths(es: Seq<NbtTree>, prefix: Seq<Seg>) -> Seq<Seq<Seg>>
    decreases es, 1int,
{
    if es.len() == 0 {
        Seq::empty()
    } else {
        element_paths(es.drop_last(), prefix) + all_paths(es.last(), prefix.push(Seg::Index((es.len() - 1) as usize)))
    }
}

/// Paths with their texts.
pub open spec fn texts_and_paths(v: Seq<(String, Vec<PathSegment>)>) -> Seq<(Seq<char>, Seq<Seg>)> {
    Seq::new(v.len(), |i: int| (v[i].0@, segs_of(v[i].1@)))
}

/// Paths paired with their texts.
pub open spec fn with_texts(ps: Seq<Seq<Seg>>) -> Seq<(Seq<char>, Seq<Seg>)> {
    Seq::new(ps.len(), |i: int| (render(ps[i]), ps[i]))
}

/// Appends every path in `value` (with `current_segments` in front, whose text
/// is `current_path`) to `out`, with its text, in document order.
pub fn collect_paths(
    value: &NbtValue,
    current_segments: &mut Vec<PathSegment>,
    current_path: &str,
    out: &mut Vec<(String, Vec<PathSegment>)>,
)
    requires
        current_path@ == render(segs_of(old(current_segments)@)),
    ensures
        segs_of(final(current_segments)@) == segs_of(old(current_segments)@),
        texts_and_paths(final(out)@) == texts_and_paths(old(out)@) + with_texts(
            all_paths(value@, segs_of(old(current_segments)@)),
        ),
    decreases value, 2int,
{
    let ghost prefix = segs_of(current_segments@);
    let ghost start = texts_and_paths(out@);
    out.push((String::from_str(current_path), copy_path(current_segments.as_slice())));
    assert(texts_and_paths(out@) =~= start + with_texts(seq![prefix]));
    match value {
        NbtValue::Compound(fields) => {
            proof {
                lemma_compound_view(*fields);
            }
            collect_field_paths(fields, current_segments, current_path, out);
            assert(with_texts(seq![prefix] + field_paths(fields_of(fields@), prefix)) =~= with_texts(seq![prefix])
                + with_texts(field_paths(fields_of(fields@), prefix)));
            assert(start + with_texts(seq![prefix]) + with_texts(field_paths(fields_of(fields@), prefix))
                =~= start + (with_texts(seq![prefix]) + with_texts(field_paths(fields_of(fields@), prefix))));
        },
        NbtValue::List { id, elements } => {
            proof {
                lemma_list_view(*id, *elements);
            }
            collect_element_paths(elements, current_segments, current_path, out);
            assert(with_texts(seq![prefix] + element_paths(trees_of(elements@), prefix)) =~= with_texts(seq![prefix])
                + with_texts(element_paths(trees_of(elements@), prefix)));
            assert(start + with_texts(seq![prefix]) + with_texts(element_paths(trees_of(elements@), prefix))
                =~= start + (with_texts(seq![prefix]) + with_texts(element_paths(trees_of(elements@), prefix))));
        },
        _ => {
            assert(seq![prefix] + Seq::<Seq<Seg>>::empty() =~= seq![prefix]);
        },
    }
}

/// [`collect_paths`] for each field in turn.
fn collect_field_paths(
    fields: &Vec<(String, NbtValue)>,
    current_segments: &mut Vec<PathSegment>,
    current_path: &str,
    out: &mut Vec<(String, Vec<PathSegment>)>,
)
    requires
        current_path@ == render(segs_of(old(current_segments)@)),
    ensures
        segs_of(final(current_segments)@) == segs_of(old(current_segments)@),
        texts_and_paths(final(out)@) == texts_and_paths(old(out)@) + with_texts(
            field_paths(fields_of(fields@), segs_of(old(current_segments)@)),
        ),
    decreases fields, 1int,
{
    let ghost prefix = segs_of(current_segments@);
    let ghost start = texts_and_paths(out@);
    let ghost fs = fields_of(fields@);
    let mut i: usize = 0;
    assert(fs.take(0) =~= Seq::<(Seq<char>, NbtTree)>::empty());
    assert(start + with_texts(Seq::<Seq<Seg>>::empty()) =~= start);
    while i < fields.len()
        invariant
            i <= fields@.len(),
            fs == fields_of(fields@),
            segs_of(current_segments@) == prefix,
            current_path@ == render(prefix),
            texts_and_paths(out@) == start + with_texts(field_paths(fs.take(i as int), prefix)),
        decreases fields@.len() - i,
    {
        let ghost before = texts_and_paths(out@);
        current_segments.push(PathSegment::Field(fields[i].0.clone()));
        let next_path = append_field_path(current_path, fields[i].0.as_str());
        proof {
            assert(segs_of(current_segments@) =~= prefix.push(Seg::Field(fields@[i as int].0@)));
            assert(prefix.push(Seg::Field(fields@[i as int].0@)).drop_last() =~= prefix);
        }
        collect_paths(&fields[i].1, current_segments, next_path.as_str(), out);
        current_segments.pop();
        proof {
            assert(segs_of(current_segments@) =~= prefix);
            let t = fs.take(i + 1);
            assert(t.drop_last() =~= fs.take(i as int));
            assert(t.last() == (fields@[i as int].0@, fields@[i as int].1@));
            let a = field_paths(fs.take(i as int), prefix);
            let b = all_paths(fields@[i as int].1@, prefix.push(Seg::Field(fields@[i as int].0@)));
            assert(with_texts(a + b) =~= with_texts(a) + with_texts(b));
            assert(start + with_texts(a) + with_texts(b) =~= start + (with_texts(a) + with_texts(b)));
        }
        i = i + 1;
    }
    assert(fs.take(i as int) =~= fs);
}

/// [`collect_paths`] for each element in turn.
fn collect_element_paths(
    elements: &Vec<NbtValue>,
    current_segments: &mut Vec<PathSegment>,
    current_path: &str,
    out: &mut Vec<(String, Vec<PathSegment>)>,
)
    requires
        current_path@ == render(segs_of(old(current_segments)@)),
    ensures
        segs_of(final(current_segments)@) == segs_of(old(current_segments)@),
        texts_and_paths(final(out)@) == texts_and_paths(old(out)@) + with_texts(
            element_paths(trees_of(elements@), segs_of(old(current_segments)@)),
        ),
    decreases elements, 1int,
{
    let ghost prefix = segs_of(current_segments@);
    let ghost start = texts_and_paths(out@);
    let ghost es = trees_of(elements@);
    let mut i: usize = 0;
    assert(es.take(0) =~= Seq::<NbtTree>::empty());
    assert(start + with_texts(Seq::<Seq<Seg>>::empty()) =~= start);
    while i < elements.len()
        invariant
            i <= elements@.len(),
            es == trees_of(elements@),
            segs_of(current_segments@) == prefix,
            current_path@ == render(prefix),
            texts_and_paths(out@) == start + with_texts(element_paths(es.take(i as int), prefix)),
        decreases elements@.len() - i,
    {
        current_segments.push(PathSegment::Index(i));
        let next_path = append_index_path(current_path, i);
        proof {
            assert(segs_of(current_segments@) =~= prefix.push(Seg::Index(i)));
            assert(prefix.push(Seg::Index(i)).drop_last() =~= prefix);
        }
        collect_paths(&elements[i], current_segments, next_path.as_str(), out);
        current_segments.pop();
        proof {
            assert(segs_of(current_segments@) =~= prefix);
            let t = es.take(i + 1);
            assert(t.drop_last() =~= es.take(i as int));
            assert(t.last() == elements@[i as int]@);
            assert(t.len() - 1 == i);
            let a = element_paths(es.take(i as int), prefix);
            let b = all_paths(elements@[i as int]@, prefix.push(Seg::Index(i)));
            assert(with_texts(a + b) =~= with_texts(a) + with_texts(b));
            assert(start + with_texts(a) + with_texts(b) =~= start + (with_texts(a) + with_texts(b)));
        }
        i = i + 1;
    }
    assert(es.take(i as int) =~= es);
}

/// The paths whose text the pattern matches, in order.
pub open spec fn keep_matching(ps: Seq<Seq<Seg>>, pattern: Seq<char>) -> Seq<Seq<Seg>>
    decreases ps.len(),
{
    if ps.len() == 0 {
        Seq::empty()
    } else {
        let r = keep_matching(ps.drop_last(), pattern);
        if regex_is_match(pattern, render(ps.last())) { r.push(ps.last()) } else { r }
    }
}

/// The paths of a list of paths.
pub open spec fn paths_view(v: Seq<Vec<PathSegment>>) -> Seq<Seq<Seg>> {
    Seq::new(v.len(), |i: int| segs_of(v[i]@))
}

/// The paths that a selector chooses in `t`: the exact path itself (whether
/// or not it exists), or every path of `t` whose text the pattern matches, in
/// document order.
pub open spec fn selected(t: NbtTree, selector: PathSelector) -> Seq<Seq<Seg>> {
    match selector {
        PathSelector::Exact(v) => seq![segs_of(v@)],
        PathSelector::Regex(p) => keep_matching(all_paths(t, Seq::empty()), p@),
    }
}

/// The paths that a selector chooses in `value`.
pub fn resolve_selector_paths(value: &NbtValue, selector: &PathSelector) -> (r: Vec<Vec<PathSegment>>)
    ensures
        paths_view(r@) == selected(value@, *selector),
{
    match selector {
        PathSelector::Exact(segments) => {
            let mut r: Vec<Vec<PathSegment>> = Vec::new();
            r.push(copy_path(segments.as_slice()));
            assert(paths_view(r@) =~= seq![segs_of(segments@)]);
            r
        },
        PathSelector::Regex(pattern) => {
            let mut all: Vec<(String, Vec<PathSegment>)> = Vec::new();
            let mut segments: Vec<PathSegment> = Vec::new();
            proof {
                reveal_strlit("");
                assert(""@ =~= Seq::<char>::empty());
                assert(segs_of(segments@) =~= Seq::<Seg>::empty());
                assert(texts_and_paths(all@) =~= Seq::<(Seq<char>, Seq<Seg>)>::empty());
            }
            collect_paths(value, &mut segments, "", &mut all);
            let ghost listed = all_paths(value@, Seq::empty());
            assert(texts_and_paths(all@) =~= with_texts(listed));
            let mut r: Vec<Vec<PathSegment>> = Vec::new();
            let mut i: usize = 0;
            assert(listed.take(0) =~= Seq::<Seq<Seg>>::empty());
            assert(paths_view(r@) =~= Seq::<Seq<Seg>>::empty());
            while i < all.len()
                invariant
                    i <= all@.len(),
                    texts_and_paths(all@) == with_texts(listed),
                    paths_view(r@) == keep_matching(listed.take(i as int), pattern@),
                decreases all@.len() - i,
            {
                proof {
                    assert(texts_and_paths(all@).len() == all@.len());
                    assert(with_texts(listed).len() == listed.len());
                    assert(texts_and_paths(all@)[i as int] == with_texts(listed)[i as int]);
                    assert(listed.take(i + 1).drop_last() =~= listed.take(i as int));
                    assert(listed.take(i + 1).last() == listed[i as int]);
                }
                if pattern_matches(pattern, all[i].0.as_str()) {
                    let ghost before = paths_view(r@);
                    r.push(copy_path(all[i].1.as_slice()));
                    assert(paths_view(r@) =~= before.push(listed[i as int]));
                }
                i = i + 1;
            }
            assert(listed.take(i as int) =~= listed);
            r
        },
    }
}

/// Whether `path` lies strictly below `target` in the text of paths (every
/// path lies below the empty one).
pub open spec fn below_text(path: Seq<char>, target: Seq<char>) -> bool {
    target.len() == 0 || (target.len() < path.len() && path.take(target.len() as int) == target && (
    path[target.len() as int] == '.' || path[target.len() as int] == '['))
}

/// Whether `path` lies strictly below `target` in the text of paths.
pub fn is_descendant_path(path: &str, target: &str) -> (r: bool)
    ensures
        r == below_text(path@, target@),
{
    let p = crate::text::chars_of(path);
    let t = crate::text::chars_of(target);
    if t.len() == 0 {
        return true;
    }
    if t.len() >= p.len() {
        return false;
    }
    let mut i: usize = 0;
    while i < t.len()
        invariant
            i <= t@.len() < p@.len(),
            p@ == path@,
            t@ == target@,
            forall|k: int| 0 <= k < i ==> p@[k] == t@[k],
        decreases t@.len() - i,
    {
        if p[i] != t[i] {
            assert(p@.take(t@.len() as int)[i as int] != t@[i as int]);
            return false;
        }
        i = i + 1;
    }
    assert(p@.take(t@.len() as int) =~= t@);
    let c = p[t.len()];
    c == '.' || c == '['
}

/// Whether two paths are the same.
pub fn same_path(a: &[PathSegment], b: &[PathSegment]) -> (r: bool)
    ensures
        r == (segs_of(a@) == segs_of(b@)),
{
    if a.len() != b.len() {
        assert(segs_of(a@).len() != segs_of(b@).len());
        return false;
    }
    let r = is_ancestor_path(a, b);
    if r {
        assert(segs_of(a@) =~= segs_of(b@));
    }
    r
}

/// The longest prefix of `p`, no longer than `d` steps, that leads to a list in `t`.
pub open spec fn deepest_list(t: NbtTree, p: Seq<Seg>, d: nat) -> Option<Seq<Seg>>
    decreases d,
{
    if lookup(t, p.take(d as int)) matches Ok(NbtTree::List(..)) {
        Some(p.take(d as int))
    } else if d == 0 {
        None
    } else {
        deepest_list(t, p, (d - 1) as nat)
    }
}

/// The lists that `ps` lie in, each the nearest one, without repeats, in order.
pub open spec fn list_targets(t: NbtTree, ps: Seq<Seq<Seg>>) -> Seq<Seq<Seg>>
    decreases ps.len(),
{
    if ps.len() == 0 {
        Seq::empty()
    } else {
        let r = list_targets(t, ps.drop_last());
        match deepest_list(t, ps.last(), ps.last().len()) {
            Some(c) => if r.contains(c) { r } else { r.push(c) },
            None => r,
        }
    }
}

/// For each matched path, the nearest list that holds it (or that it is),
/// without repeats.
pub fn resolve_list_targets_for_where(document: &NbtValue, matched_paths: Vec<Vec<PathSegment>>) -> (r: Vec<Vec<PathSegment>>)
    ensures
        paths_view(r@) == list_targets(document@, paths_view(matched_paths@)),
{
    let ghost ps = paths_view(matched_paths@);
    let mut targets: Vec<Vec<PathSegment>> = Vec::new();
    let mut i: usize = 0;
    assert(paths_view(targets@) =~= list_targets(document@, ps.take(0)));
    while i < matched_paths.len()
        invariant
            i <= matched_paths@.len(),
            ps == paths_view(matched_paths@),
            paths_view(targets@) == list_targets(document@, ps.take(i as int)),
        decreases matched_paths@.len() - i,
    {
        let path = &matched_paths[i];
        let ghost p = segs_of(path@);
        let mut depth: usize = path.len();
        let mut done = false;
        let ghost tv = paths_view(targets@);
        proof {
            assert(ps.take(i + 1).drop_last() =~= ps.take(i as int));
            assert(ps.take(i + 1).last() == p);
        }
        loop
            invariant
                depth <= p.len(),
                p == segs_of(path@),
                ps == paths_view(matched_paths@),
                tv == list_targets(document@, ps.take(i as int)),
                i < ps.len(),
                ps.take(i + 1).drop_last() == ps.take(i as int),
                ps.take(i + 1).last() == p,
                !done ==> paths_view(targets@) == tv,
                !done ==> deepest_list(document@, p, p.len()) == deepest_list(document@, p, depth as nat),
                done ==> paths_view(targets@) == list_targets(document@, ps.take(i + 1)),
            ensures
                paths_view(targets@) == list_targets(document@, ps.take(i + 1)),
            decreases depth, (if done { 0int } else { 1int }),
        {
            if done {
                break;
            }
            let candidate = crate::edit::copy_path_prefix(path.as_slice(), depth);
            let found = find_ref(document, candidate.as_slice());
            let is_list = match found {
                Ok(NbtValue::List { .. }) => true,
                _ => false,
            };
            proof {
                assert(segs_of(candidate@) == p.take(depth as int));
                if is_list {
                    assert(lookup(document@, p.take(depth as int)) matches Ok(NbtTree::List(..)));
                    assert(deepest_list(document@, p, depth as nat) == Some(p.take(depth as int)));
                } else {
                    assert(!(lookup(document@, p.take(depth as int)) matches Ok(NbtTree::List(..))));
                    if depth == 0 {
                        assert(deepest_list(document@, p, depth as nat) is None);
                    } else {
                        assert(deepest_list(document@, p, depth as nat) == deepest_list(document@, p, (depth - 1) as nat));
                    }
                }
            }
            if is_list {
                let mut seen = false;
                let mut k: usize = 0;
                while k < targets.len()
                    invariant
                        k <= targets@.len(),
                        seen == exists|q: int| 0 <= q < k && #[trigger] paths_view(targets@)[q] == segs_of(candidate@),
                    decreases targets@.len() - k,
                {
                    if same_path(targets[k].as_slice(), candidate.as_slice()) {
                        seen = true;
                        assert(paths_view(targets@)[k as int] == segs_of(candidate@));
                    }
                    k = k + 1;
                }
                proof {
                    if seen {
                        let q = choose|q: int| 0 <= q < targets@.len() && #[trigger] paths_view(targets@)[q] == segs_of(candidate@);
                        assert(tv.contains(segs_of(candidate@))) by {
                            assert(tv[q] == segs_of(candidate@));
                        }
                    } else {
                        assert(!tv.contains(segs_of(candidate@)));
                    }
                }
                if !seen {
                    let ghost before = paths_view(targets@);
                    targets.push(candidate);
                    assert(paths_view(targets@) =~= before.push(p.take(depth as int)));
                }
                done = true;
            } else if depth == 0 {
                done = true;
            } else {
                depth = depth - 1;
            }
        }
        i = i + 1;
    }
    assert(ps.take(i as int) =~= ps);
    targets
}


/// A selector text is a regex exactly when it starts with `re:`, and the
/// regex is all that follows the marker: `re:` followed by any pattern `q`
/// is the regex `q`.
pub proof fn lemma_regex_marker(q: Seq<char>, path: Seq<char>)
    ensures
        is_regex_text("re:"@ + q),
        ("re:"@ + q).skip(3) == q,
        is_regex_text(path) <==> (path.len() >= 3 && path.take(3) == "re:"@),
{
    reveal_strlit("re:");
    assert(("re:"@ + q).skip(3) =~= q);
    if path.len() >= 3 {
        if path.take(3) == "re:"@ {
            assert(path[0] == path.take(3)[0] && path[1] == path.take(3)[1] && path[2] == path.take(3)[2]);
        }
        if is_regex_text(path) {
            assert(path.take(3) =~= "re:"@);
        }
    }
}

} // verus!
