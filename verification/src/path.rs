//! Paths into a document tree: `name`, `a.b`, `list[2].name`.
use vstd::prelude::*;
use vstd::utf8::encode_utf8;
use crate::text::{chars_of, decimal, digit_value, digits_value, is_digit, push_char, push_decimal};

verus! {

/// One step of a path: a compound field or a list index.
#[derive(Clone, Debug, PartialEq, Eq)]
pub enum PathSegment {
    Field(String),
    Index(usize),
}

/// The mathematical form of a [`PathSegment`].
pub enum Seg {
    Field(Seq<char>),
    Index(usize),
}

impl View for PathSegment {
    type V = Seg;

    open spec fn view(&self) -> Seg {
        match self {
            PathSegment::Field(name) => Seg::Field(name@),
            PathSegment::Index(i) => Seg::Index(*i),
        }
    }
}

/// The steps of a sequence of path segments.
pub open spec fn segs_of(v: Seq<PathSegment>) -> Seq<Seg> {
    Seq::new(v.len(), |i: int| v[i]@)
}

/// A copy of a segment.
pub fn copy_segment(s: &PathSegment) -> (c: PathSegment)
    ensures
        c@ == s@,
{
    match s {
        PathSegment::Field(name) => PathSegment::Field(name.clone()),
        PathSegment::Index(i) => PathSegment::Index(*i),
    }
}

/// A copy of a path.
pub fn copy_path(p: &[PathSegment]) -> (c: Vec<PathSegment>)
    ensures
        segs_of(c@) == segs_of(p@),
{
    let mut c: Vec<PathSegment> = Vec::new();
    let mut i: usize = 0;
    while i < p.len()
        invariant
            i <= p@.len(),
            c@.len() == i,
            forall|k: int| 0 <= k < i ==> #[trigger] c@[k]@ == p@[k]@,
        decreases p@.len() - i,
    {
        c.push(copy_segment(&p[i]));
        i = i + 1;
    }
    assert(segs_of(c@) =~= segs_of(p@));
    c
}

/// Whether two segments are the same step.
pub fn same_segment(a: &PathSegment, b: &PathSegment) -> (r: bool)
    ensures
        r == (a@ == b@),
{
    match (a, b) {
        (PathSegment::Field(x), PathSegment::Field(y)) => x.eq(y),
        (PathSegment::Index(x), PathSegment::Index(y)) => *x == *y,
        _ => false,
    }
}

// ----- rendering -----

/// `base` followed by a field step.
pub open spec fn field_path(base: Seq<char>, field: Seq<char>) -> Seq<char> {
    if base.len() == 0 { field } else { base + "."@ + field }
}

/// `base` followed by a list index step.
pub open spec fn index_path(base: Seq<char>, index: nat) -> Seq<char> {
    base + "["@ + decimal(index) + "]"@
}

/// The text of a path, as the reader prints it.
pub open spec fn render(segs: Seq<Seg>) -> Seq<char>
    decreases segs.len(),
{
    if segs.len() == 0 {
        Seq::empty()
    } else {
        let base = render(segs.drop_last());
        match segs.last() {
            Seg::Field(name) => field_path(base, name),
            Seg::Index(i) => index_path(base, i as nat),
        }
    }
}

/// `base` followed by a field step.
pub fn append_field_path(base: &str, field: &str) -> (r: String)
    ensures
        r@ == field_path(base@, field@),
{
    if base.is_empty() {
        String::from_str(field)
    } else {
        let mut text = String::from_str(base);
        text.append(".");
        text.append(field);
        proof {
            reveal_strlit(".");
        }
        text
    }
}

/// `base` followed by a list index step.
pub fn append_index_path(base: &str, index: usize) -> (r: String)
    ensures
        r@ == index_path(base@, index as nat),
{
    let mut text = String::from_str(base);
    text.append("[");
    push_decimal(&mut text, index as u64);
    text.append("]");
    text
}

/// The text of a path.
pub fn path_segments_to_string(segments: &[PathSegment]) -> (r: String)
    ensures
        r@ == render(segs_of(segments@)),
{
    let mut text = String::new();
    let mut i: usize = 0;
    while i < segments.len()
        invariant
            i <= segments@.len(),
            text@ == render(segs_of(segments@.take(i as int))),
        decreases segments@.len() - i,
    {
        let ghost before = segs_of(segments@.take(i as int));
        match &segments[i] {
            PathSegment::Field(name) => {
                text = append_field_path(text.as_str(), name.as_str());
            },
            PathSegment::Index(index) => {
                text = append_index_path(text.as_str(), *index);
            },
        }
        i = i + 1;
        proof {
            let after = segs_of(segments@.take(i as int));
            assert(after.drop_last() =~= before);
            assert(after.last() == segments@[i - 1]@);
        }
    }
    assert(segments@.take(i as int) =~= segments@);
    text
}

// ----- parsing -----

/// Outcome of reading a path's text.
pub enum Scan {
    /// The path's segments.
    Done(Seq<Seg>),
    /// The error message.
    Fail(Seq<char>),
}

/// The end of the run of ASCII digits that starts at `i`.
pub open spec fn digits_end(cs: Seq<char>, i: int) -> int
    decreases cs.len() - i,
{
    if 0 <= i < cs.len() && is_digit(cs[i]) { digits_end(cs, i + 1) } else { i }
}

/// Whether a byte is an ASCII digit.
pub open spec fn byte_is_digit(x: u8) -> bool {
    48 <= x <= 57
}

/// The number that a sequence of ASCII digit bytes denotes.
pub open spec fn bytes_value(b: Seq<u8>) -> nat
    decreases b.len(),
{
    if b.len() == 0 { 0 } else { bytes_value(b.drop_last()) * 10 + (b.last() - 48) as nat }
}

/// The bytes after an optional leading `+`.
pub open spec fn unsigned_digits(b: Seq<u8>) -> Seq<u8> {
    if b.len() > 0 && b[0] == 43 { b.skip(1) } else { b }
}

/// Whether every byte is an ASCII digit.
pub open spec fn all_digit_bytes(d: Seq<u8>) -> bool {
    forall|k: int| 0 <= k < d.len() ==> byte_is_digit(#[trigger] d[k])
}

/// What `usize::from_str` gives for these bytes: an optional `+`, then one or
/// more ASCII digits denoting a value that fits.
pub open spec fn parse_usize(b: Seq<u8>) -> Option<usize> {
    let d = unsigned_digits(b);
    if d.len() > 0 && all_digit_bytes(d) && bytes_value(d) <= usize::MAX {
        Some(bytes_value(d) as usize)
    } else {
        None
    }
}

/// The message for a misplaced `.` at position `i`.
pub open spec fn near_message(i: nat) -> Seq<char> {
    "invalid path near position "@ + decimal(i)
}

/// The message for a malformed list index whose digits start at `i`.
pub open spec fn index_message(i: nat) -> Seq<char> {
    "invalid list index near position "@ + decimal(i)
}

/// `segs` with the pending field name, if there is one.
pub open spec fn with_field(segs: Seq<Seg>, field: Seq<char>) -> Seq<Seg> {
    if field.len() > 0 { segs.push(Seg::Field(field)) } else { segs }
}

/// The index that a run of ASCII digits denotes, if it fits a `usize`.
pub open spec fn index_value(d: Seq<char>) -> Option<usize> {
    if digits_value(d) <= usize::MAX { Some(digits_value(d) as usize) } else { None }
}

/// Reads a path from position `i` of its characters `cs`, with the segments
/// read so far and the field name being read. A `.` ends a field name (or
/// follows a `]`), `[digits]` is a list index, anything else belongs to a
/// field name. Positions in messages count characters.
pub open spec fn scan_path(cs: Seq<char>, i: int, segs: Seq<Seg>, field: Seq<char>) -> Scan
    decreases cs.len() - i,
{
    if i < 0 || i >= cs.len() {
        Scan::Done(with_field(segs, field))
    } else if cs[i] == '.' {
        if field.len() == 0 {
            if i > 0 && cs[i - 1] == ']' {
                scan_path(cs, i + 1, segs, field)
            } else {
                Scan::Fail(near_message(i as nat))
            }
        } else {
            scan_path(cs, i + 1, segs.push(Seg::Field(field)), Seq::empty())
        }
    } else if cs[i] == '[' {
        let start = i + 1;
        let j = digits_end(cs, start);
        if j <= start || j >= cs.len() || cs[j] != ']' {
            Scan::Fail(index_message(start as nat))
        } else {
            match index_value(cs.subrange(start, j)) {
                None => Scan::Fail(index_message(start as nat)),
                Some(n) => scan_path(cs, j + 1, with_field(segs, field).push(Seg::Index(n)), Seq::empty()),
            }
        }
    } else {
        scan_path(cs, i + 1, segs, field.push(cs[i]))
    }
}

/// Reading the whole text of a path.
pub open spec fn path_scan(path: Seq<char>) -> Scan {
    scan_path(path, 0, Seq::empty(), Seq::empty())
}

proof fn lemma_digits_end(cs: Seq<char>, i: int)
    requires
        0 <= i,
    ensures
        i <= digits_end(cs, i),
        i <= cs.len() ==> digits_end(cs, i) <= cs.len(),
        forall|k: int| i <= k < digits_end(cs, i) ==> is_digit(#[trigger] cs[k]),
        digits_end(cs, i) < cs.len() ==> !is_digit(cs[digits_end(cs, i)]),
    decreases cs.len() - i,
{
    if 0 <= i < cs.len() && is_digit(cs[i]) {
        lemma_digits_end(cs, i + 1);
    }
}

/// Parses bytes `start..end` of `b` as `usize::from_str` would.
pub fn parse_usize_at(b: &[u8], start: usize, end: usize) -> (r: Option<usize>)
    requires
        start <= end <= b@.len(),
    ensures
        r == parse_usize(b@.subrange(start as int, end as int)),
{
    let ghost whole = b@.subrange(start as int, end as int);
    let mut k = start;
    if start < end && b[start] == 43 {
        k = start + 1;
    }
    let ghost d = b@.subrange(k as int, end as int);
    proof {
        if start < end && b@[start as int] == 43 {
            assert(whole.skip(1) =~= d);
        } else {
            assert(whole =~= d);
        }
    }
    proof {
        if start < end {
            assert(whole[0] == b@[start as int]);
        }
    }
    assert(unsigned_digits(whole) =~= d);
    if k == end {
        return None;
    }
    let first = k;
    let mut acc: usize = 0;
    let mut overflow = false;
    while k < end
        invariant
            start <= first <= k <= end <= b@.len(),
            d == b@.subrange(first as int, end as int),
            whole == b@.subrange(start as int, end as int),
            unsigned_digits(whole) == d,
            d.len() > 0,
            forall|m: int| first <= m < k ==> byte_is_digit(#[trigger] b@[m]),
            !overflow ==> acc == bytes_value(b@.subrange(first as int, k as int)),
            overflow ==> bytes_value(b@.subrange(first as int, k as int)) > usize::MAX,
        decreases end - k,
    {
        let x = b[k];
        if !(48 <= x && x <= 57) {
            proof {
                assert(!byte_is_digit(d[k - first]));
                assert(!all_digit_bytes(d));
            }
            return None;
        }
        let ghost prev = b@.subrange(first as int, k as int);
        proof {
            assert(b@.subrange(first as int, k + 1).drop_last() =~= prev);
        }
        if !overflow {
            match acc.checked_mul(10) {
                Some(t) => match t.checked_add((x - 48) as usize) {
                    Some(u) => {
                        acc = u;
                    },
                    None => {
                        overflow = true;
                    },
                },
                None => {
                    overflow = true;
                },
            }
        }
        k = k + 1;
    }
    assert(b@.subrange(first as int, k as int) =~= d);
    if overflow {
        None
    } else {
        Some(acc)
    }
}

/// The error for a misplaced `.` at position `i`.
fn near_error(i: usize) -> (e: String)
    ensures
        e@ == near_message(i as nat),
{
    let mut text = String::from_str("invalid path near position ");
    push_decimal(&mut text, i as u64);
    text
}

/// The error for a malformed list index whose digits start at `i`.
fn index_error(i: usize) -> (e: String)
    ensures
        e@ == index_message(i as nat),
{
    let mut text = String::from_str("invalid list index near position ");
    push_decimal(&mut text, i as u64);
    text
}

/// The index that the ASCII digits `cs[start..end]` denote, if it fits.
fn index_value_at(cs: &Vec<char>, start: usize, end: usize) -> (r: Option<usize>)
    requires
        start <= end <= cs@.len(),
        forall|k: int| start <= k < end ==> is_digit(#[trigger] cs@[k]),
    ensures
        r == index_value(cs@.subrange(start as int, end as int)),
{
    let mut k = start;
    let mut acc: usize = 0;
    let mut overflow = false;
    assert(cs@.subrange(start as int, start as int) =~= Seq::<char>::empty());
    while k < end
        invariant
            start <= k <= end <= cs@.len(),
            forall|m: int| start <= m < end ==> is_digit(#[trigger] cs@[m]),
            !overflow ==> acc == digits_value(cs@.subrange(start as int, k as int)),
            overflow ==> digits_value(cs@.subrange(start as int, k as int)) > usize::MAX,
        decreases end - k,
    {
        let c = cs[k];
        assert(is_digit(cs@[k as int]));
        let d = (c as u32 - '0' as u32) as usize;
        assert(d == digit_value(c));
        proof {
            assert(cs@.subrange(start as int, k + 1).drop_last() =~= cs@.subrange(start as int, k as int));
            assert(cs@.subrange(start as int, k + 1).last() == c);
        }
        if !overflow {
            match acc.checked_mul(10) {
                Some(t) => match t.checked_add(d) {
                    Some(u) => {
                        acc = u;
                    },
                    None => {
                        overflow = true;
                    },
                },
                None => {
                    overflow = true;
                },
            }
        }
        k = k + 1;
    }
    if overflow {
        None
    } else {
        Some(acc)
    }
}

/// Parses a path: field names separated by `.`, list indices in brackets
/// (`a.b[2].c`). The empty text is the empty path; a field name may hold any
/// character but `.` and `[`.
pub fn parse_path(path: &str) -> (r: Result<Vec<PathSegment>, String>)
    ensures
        match path_scan(path@) {
            Scan::Done(s) => r matches Ok(v) && segs_of(v@) == s,
            Scan::Fail(m) => r matches Err(e) && e@ == m,
        },
{
    if path.is_empty() {
        proof {
            assert(segs_of(Seq::<PathSegment>::empty()) =~= Seq::<Seg>::empty());
        }
        return Ok(Vec::new());
    }
    let chars = chars_of(path);
    let ghost cs = path@;
    let mut i: usize = 0;
    let mut field = String::new();
    let mut segments: Vec<PathSegment> = Vec::new();
    proof {
        assert(segs_of(segments@) =~= Seq::<Seg>::empty());
    }
    while i < chars.len()
        invariant
            chars@ == cs,
            cs == path@,
            i <= cs.len(),
            path_scan(cs) == scan_path(cs, i as int, segs_of(segments@), field@),
        decreases cs.len() - i,
    {
        let c = chars[i];
        if c == '.' {
            if field.as_str().is_empty() {
                if i > 0 && chars[i - 1] == ']' {
                    i = i + 1;
                    assert(path_scan(cs) == scan_path(cs, i as int, segs_of(segments@), field@));
                } else {
                    return Err(near_error(i));
                }
            } else {
                let ghost before = segs_of(segments@);
                let ghost pending = field@;
                segments.push(PathSegment::Field(field));
                field = String::new();
                i = i + 1;
                proof {
                    assert(segs_of(segments@) =~= before.push(Seg::Field(pending)));
                }
                assert(path_scan(cs) == scan_path(cs, i as int, segs_of(segments@), field@));
            }
        } else if c == '[' {
            let ghost i0 = i as int;
            let ghost before = segs_of(segments@);
            let ghost pending = field@;
            if !field.as_str().is_empty() {
                segments.push(PathSegment::Field(field));
                field = String::new();
            }
            proof {
                assert(segs_of(segments@) =~= with_field(before, pending));
            }
            i = i + 1;
            let start = i;
            proof {
                lemma_digits_end(cs, start as int);
            }
            while i < chars.len() && '0' <= chars[i] && chars[i] <= '9'
                invariant
                    chars@ == cs,
                    start <= i <= cs.len(),
                    digits_end(cs, start as int) == digits_end(cs, i as int),
                decreases cs.len() - i,
            {
                i = i + 1;
            }
            proof {
                lemma_digits_end(cs, i as int);
                assert(digits_end(cs, i as int) == i);
                assert(digits_end(cs, i0 + 1) == i);
            }
            if start == i || i >= chars.len() || chars[i] != ']' {
                return Err(index_error(start));
            }
            match index_value_at(&chars, start, i) {
                None => {
                    return Err(index_error(start));
                },
                Some(n) => {
                    let ghost mid = segs_of(segments@);
                    segments.push(PathSegment::Index(n));
                    proof {
                        assert(segs_of(segments@) =~= mid.push(Seg::Index(n)));
                    }
                },
            }
            proof {
                assert(field@ =~= Seq::<char>::empty());
                assert(cs[i0] == '[');
                assert(scan_path(cs, i0, before, pending) == scan_path(cs, i + 1, segs_of(segments@), field@));
            }
            i = i + 1;
            assert(path_scan(cs) == scan_path(cs, i as int, segs_of(segments@), field@));
        } else {
            push_char(&mut field, c);
            i = i + 1;
            assert(path_scan(cs) == scan_path(cs, i as int, segs_of(segments@), field@));
        }
    }
    let ghost before = segs_of(segments@);
    let ghost pending = field@;
    if !field.as_str().is_empty() {
        segments.push(PathSegment::Field(field));
    }
    proof {
        assert(segs_of(segments@) =~= with_field(before, pending));
    }
    Ok(segments)
}

// ----- comparing and ordering paths -----

/// Whether `a` is `b` or leads to it, step by step.
pub open spec fn is_prefix_path(a: Seq<Seg>, b: Seq<Seg>) -> bool {
    a.len() <= b.len() && forall|i: int| 0 <= i < a.len() ==> a[i] == b[i]
}

/// Whether `ancestor` is `descendant` or leads to it.
pub fn is_ancestor_path(ancestor: &[PathSegment], descendant: &[PathSegment]) -> (r: bool)
    ensures
        r == is_prefix_path(segs_of(ancestor@), segs_of(descendant@)),
{
    if ancestor.len() > descendant.len() {
        return false;
    }
    let mut i: usize = 0;
    while i < ancestor.len()
        invariant
            i <= ancestor@.len() <= descendant@.len(),
            forall|k: int| 0 <= k < i ==> #[trigger] segs_of(ancestor@)[k] == segs_of(descendant@)[k],
        decreases ancestor@.len() - i,
    {
        if !same_segment(&ancestor[i], &descendant[i]) {
            assert(segs_of(ancestor@)[i as int] != segs_of(descendant@)[i as int]);
            return false;
        }
        i = i + 1;
    }
    true
}

/// Whether `prefix` is `full` or leads to it.
pub fn has_prefix(prefix: &[PathSegment], full: &[PathSegment]) -> (r: bool)
    ensures
        r == is_prefix_path(segs_of(prefix@), segs_of(full@)),
{
    is_ancestor_path(prefix, full)
}

/// The order of texts, character by character (the order of `str`).
pub open spec fn text_less(a: Seq<char>, b: Seq<char>) -> bool
    decreases a.len(),
{
    if a.len() == 0 {
        b.len() > 0
    } else if b.len() == 0 {
        false
    } else if a[0] != b[0] {
        a[0] < b[0]
    } else {
        text_less(a.drop_first(), b.drop_first())
    }
}

/// Whether `a` sorts before `b`.
pub fn chars_less(a: &Vec<char>, b: &Vec<char>) -> (r: bool)
    ensures
        r == text_less(a@, b@),
{
    let mut i: usize = 0;
    assert(a@.skip(0) =~= a@);
    assert(b@.skip(0) =~= b@);
    while i < a.len() && i < b.len()
        invariant
            i <= a@.len(),
            i <= b@.len(),
            text_less(a@, b@) == text_less(a@.skip(i as int), b@.skip(i as int)),
        decreases a@.len() - i,
    {
        if a[i] != b[i] {
            return a[i] < b[i];
        }
        proof {
            assert(a@.skip(i as int).drop_first() =~= a@.skip(i + 1));
            assert(b@.skip(i as int).drop_first() =~= b@.skip(i + 1));
        }
        i = i + 1;
    }
    i == a.len() && i < b.len()
}

/// Whether path `a` comes before `b` when deleting: longer paths first, then
/// by their text.
pub open spec fn sorts_before(a: Seq<Seg>, b: Seq<Seg>) -> bool {
    a.len() > b.len() || (a.len() == b.len() && text_less(render(a), render(b)))
}

/// `x` put into `s` just before the first path that it sorts before.
pub open spec fn insert_sorted(s: Seq<Seq<Seg>>, x: Seq<Seg>) -> Seq<Seq<Seg>>
    decreases s.len(),
{
    if s.len() == 0 {
        seq![x]
    } else if sorts_before(x, s[0]) {
        seq![x] + s
    } else {
        seq![s[0]] + insert_sorted(s.drop_first(), x)
    }
}

/// The paths in deletion order; equal paths keep their order.
pub open spec fn sort_paths(ps: Seq<Seq<Seg>>) -> Seq<Seq<Seg>>
    decreases ps.len(),
{
    if ps.len() == 0 {
        Seq::empty()
    } else {
        insert_sorted(sort_paths(ps.drop_last()), ps.last())
    }
}

/// The paths, in order, without those that lead to a path kept before them.
pub open spec fn keep_specific(s: Seq<Seq<Seg>>) -> Seq<Seq<Seg>>
    decreases s.len(),
{
    if s.len() == 0 {
        Seq::empty()
    } else {
        let kept = keep_specific(s.drop_last());
        let c = s.last();
        if exists|k: int| 0 <= k < kept.len() && is_prefix_path(c, #[trigger] kept[k]) {
            kept
        } else {
            kept.push(c)
        }
    }
}

/// The steps of each path.
pub open spec fn paths_of(v: Seq<Vec<PathSegment>>) -> Seq<Seq<Seg>> {
    Seq::new(v.len(), |i: int| segs_of(v[i]@))
}

proof fn lemma_insert_sorted(s: Seq<Seq<Seg>>, x: Seq<Seg>, j: int)
    requires
        0 <= j <= s.len(),
        forall|k: int| 0 <= k < j ==> !sorts_before(x, #[trigger] s[k]),
        j < s.len() ==> sorts_before(x, s[j]),
    ensures
        insert_sorted(s, x) == s.insert(j, x),
    decreases s.len(),
{
    if s.len() == 0 {
        assert(s.insert(j, x) =~= seq![x]);
    } else if j == 0 {
        assert(s.insert(j, x) =~= seq![x] + s);
    } else {
        let t = s.drop_first();
        assert forall|k: int| 0 <= k < j - 1 implies !sorts_before(x, #[trigger] t[k]) by {
            assert(t[k] == s[k + 1]);
        }
        lemma_insert_sorted(t, x, j - 1);
        assert(seq![s[0]] + t.insert(j - 1, x) =~= s.insert(j, x));
    }
}

/// The paths to delete, most specific first: longer paths before shorter ones
/// (then by their text), and a path that leads to one already kept is left
/// out, since deleting the kept one is what was asked there.
pub fn normalize_delete_paths(paths: Vec<Vec<PathSegment>>) -> (r: Vec<Vec<PathSegment>>)
    ensures
        paths_of(r@) == keep_specific(sort_paths(paths_of(paths@))),
{
    let ghost all = paths_of(paths@);
    let mut sorted: Vec<Vec<PathSegment>> = Vec::new();
    let mut keys: Vec<Vec<char>> = Vec::new();
    let mut i: usize = 0;
    while i < paths.len()
        invariant
            i <= paths@.len(),
            all == paths_of(paths@),
            keys@.len() == sorted@.len(),
            forall|k: int| 0 <= k < keys@.len() ==> #[trigger] keys@[k]@ == render(paths_of(sorted@)[k]),
            paths_of(sorted@) == sort_paths(all.take(i as int)),
        decreases paths@.len() - i,
    {
        let candidate = copy_path(paths[i].as_slice());
        let key_text = path_segments_to_string(candidate.as_slice());
        let key = chars_of(key_text.as_str());
        let ghost x = segs_of(candidate@);
        let ghost s = paths_of(sorted@);
        let mut j: usize = 0;
        let mut found = false;
        while !found && j < sorted.len()
            invariant
                j <= sorted@.len(),
                found ==> j < sorted@.len() && sorts_before(x, s[j as int]),
                s == paths_of(sorted@),
                keys@.len() == sorted@.len(),
                forall|k: int| 0 <= k < keys@.len() ==> #[trigger] keys@[k]@ == render(paths_of(sorted@)[k]),
                key@ == render(x),
                x == segs_of(candidate@),
                forall|k: int| 0 <= k < j ==> !sorts_before(x, #[trigger] s[k]),
            decreases sorted@.len() - j + (if found { 0int } else { 1int }),
        {
            let n = candidate.len();
            let m = sorted[j].len();
            let before = n > m || (n == m && chars_less(&key, &keys[j]));
            assert(before == sorts_before(x, s[j as int])) by {
                assert(keys@[j as int]@ == render(s[j as int]));
            }
            if before {
                found = true;
            } else {
                j = j + 1;
            }
        }
        proof {
            lemma_insert_sorted(s, x, j as int);
            assert(all.take(i + 1).drop_last() =~= all.take(i as int));
            assert(all.take(i + 1).last() == x);
        }
        let ghost old_keys = keys@;
        sorted.insert(j, candidate);
        keys.insert(j, key);
        proof {
            assert(paths_of(sorted@) =~= s.insert(j as int, x));
            assert forall|k: int| 0 <= k < keys@.len() implies #[trigger] keys@[k]@ == render(paths_of(sorted@)[k]) by {
                if k < j {
                    assert(keys@[k] == old_keys[k]);
                    assert(old_keys[k]@ == render(s[k]));
                } else if k > j {
                    assert(keys@[k] == old_keys[k - 1]);
                    assert(old_keys[k - 1]@ == render(s[k - 1]));
                }
            }
        }
        i = i + 1;
    }
    proof {
        assert(all.take(i as int) =~= all);
    }
    let ghost srt = paths_of(sorted@);
    let mut kept: Vec<Vec<PathSegment>> = Vec::new();
    let mut c: usize = 0;
    while c < sorted.len()
        invariant
            c <= sorted@.len(),
            srt == paths_of(sorted@),
            paths_of(kept@) == keep_specific(srt.take(c as int)),
        decreases sorted@.len() - c,
    {
        let ghost kp = paths_of(kept@);
        let mut skip = false;
        let mut e: usize = 0;
        while e < kept.len()
            invariant
                e <= kept@.len(),
                kp == paths_of(kept@),
                srt == paths_of(sorted@),
                c < sorted@.len(),
                skip == exists|k: int| 0 <= k < e && is_prefix_path(srt[c as int], #[trigger] kp[k]),
            decreases kept@.len() - e,
        {
            if is_ancestor_path(sorted[c].as_slice(), kept[e].as_slice()) {
                skip = true;
                assert(is_prefix_path(srt[c as int], kp[e as int]));
            }
            e = e + 1;
        }
        proof {
            assert(srt.take(c + 1).drop_last() =~= srt.take(c as int));
            assert(srt.take(c + 1).last() == srt[c as int]);
        }
        if !skip {
            kept.push(copy_path(sorted[c].as_slice()));
            proof {
                assert(paths_of(kept@) =~= kp.push(srt[c as int]));
            }
        }
        c = c + 1;
    }
    proof {
        assert(srt.take(c as int) =~= srt);
    }
    kept
}

} // verus!
