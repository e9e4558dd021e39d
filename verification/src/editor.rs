//! Replacing one value of a document, addressed by a path of the form
//! `a.b[2]`, and writing the document back.
use vstd::prelude::*;
use vstd::utf8::encode_utf8;
use crate::path::{parse_usize, parse_usize_at, segs_of, PathSegment, Seg};
use crate::text::{chars_of, decimal, push_char, push_decimal};
use crate::edit::{field_position, replace_at};
use crate::tree::{copy_value, fields_of, lemma_compound_view, lemma_list_view, trees_of, NbtTree, NbtValue};
use crate::component::{CompView, NbtComponent};
use crate::error::ParseError;
use crate::codec::{parse_value_by_id, write_value_payload};
use crate::decoder::build as build_decoder;
use crate::encoder::build as build_encoder;
use crate::platform::PlatformType;
use crate::tag_id;
use crate::tree::{enc_payload, tag_message, then, wire_payload};
use crate::wire::{enc_tag, reports, wire_tag, wire_u8, Fault};

verus! {

/// Whether `c` has the Unicode White_Space property (what
/// `char::is_whitespace` tests).
pub open spec fn is_white_space(c: char) -> bool {
    ('\u{9}' <= c && c <= '\u{d}') || c == ' ' || c == '\u{85}' || c == '\u{a0}' || c == '\u{1680}' || ('\u{2000}'
        <= c && c <= '\u{200a}') || c == '\u{2028}' || c == '\u{2029}' || c == '\u{202f}' || c == '\u{205f}' || c
        == '\u{3000}'
}

/// Whether `c` has the Unicode White_Space property.
pub fn white_space(c: char) -> (b: bool)
    ensures
        b == is_white_space(c),
{
    ('\u{9}' <= c && c <= '\u{d}') || c == ' ' || c == '\u{85}' || c == '\u{a0}' || c == '\u{1680}' || ('\u{2000}'
        <= c && c <= '\u{200a}') || c == '\u{2028}' || c == '\u{2029}' || c == '\u{202f}' || c == '\u{205f}' || c
        == '\u{3000}'
}

/// The text without leading white space.
pub open spec fn trim_start(cs: Seq<char>) -> Seq<char>
    decreases cs.len(),
{
    if cs.len() > 0 && is_white_space(cs[0]) { trim_start(cs.drop_first()) } else { cs }
}

/// The text without trailing white space.
pub open spec fn trim_end(cs: Seq<char>) -> Seq<char>
    decreases cs.len(),
{
    if cs.len() > 0 && is_white_space(cs.last()) { trim_end(cs.drop_last()) } else { cs }
}

/// The text without leading or trailing white space (what `str::trim` gives).
pub open spec fn trim(cs: Seq<char>) -> Seq<char> {
    trim_end(trim_start(cs))
}

/// The pieces of the text between dots (what `str::split('.')` gives).
pub open spec fn split_dots(cs: Seq<char>) -> Seq<Seq<char>>
    decreases cs.len(),
{
    if cs.len() == 0 {
        seq![Seq::empty()]
    } else {
        let r = split_dots(cs.drop_last());
        if cs.last() == '.' { r.push(Seq::empty()) } else { r.update(r.len() - 1, r.last().push(cs.last())) }
    }
}

/// The position of the first `c` in `cs`, or -1.
pub open spec fn first_index_of(cs: Seq<char>, c: char) -> int
    decreases cs.len(),
{
    if cs.len() == 0 {
        -1
    } else if cs[0] == c {
        0
    } else {
        let r = first_index_of(cs.drop_first(), c);
        if r < 0 { -1 } else { r + 1 }
    }
}

/// What the position of the first `c` means.
pub proof fn lemma_first_index_of(cs: Seq<char>, c: char)
    ensures
        first_index_of(cs, c) < cs.len(),
        first_index_of(cs, c) >= 0 ==> cs[first_index_of(cs, c)] == c,
        forall|j: int| 0 <= j < cs.len() && (first_index_of(cs, c) < 0 || j < first_index_of(cs, c)) ==> cs[j] != c,
    decreases cs.len(),
{
    if cs.len() > 0 && cs[0] != c {
        lemma_first_index_of(cs.drop_first(), c);
        assert forall|j: int| 0 <= j < cs.len() && (first_index_of(cs, c) < 0 || j < first_index_of(cs, c)) implies cs[j] != c by {
            if j > 0 {
                assert(cs[j] == cs.drop_first()[j - 1]);
            }
        }
    }
}

/// The message for a malformed piece of `path`.
pub open spec fn bad_segment_message(path: Seq<char>) -> Seq<char> {
    "invalid path segment in '"@ + path + "'"@
}

/// The message for an index text that is not a number.
pub open spec fn bad_index_message(index: Seq<char>) -> Seq<char> {
    "invalid list index '"@ + index + "'"@
}

/// The indices of a run of `[n]` groups.
pub open spec fn index_groups(rest: Seq<char>, path: Seq<char>) -> Result<Seq<Seg>, Seq<char>>
    decreases rest.len(),
{
    if rest.len() == 0 {
        Ok(Seq::empty())
    } else if rest[0] != '[' {
        Err(bad_segment_message(path))
    } else {
        let close = first_index_of(rest, ']');
        proof {
            lemma_first_index_of(rest, ']');
        }
        if close < 1 {
            Err(bad_segment_message(path))
        } else {
            let index = rest.subrange(1, close);
            match parse_usize(encode_utf8(index)) {
                None => Err(bad_index_message(index)),
                Some(n) => match index_groups(rest.skip(close + 1), path) {
                    Err(m) => Err(m),
                    Ok(more) => Ok(seq![Seg::Index(n)] + more),
                },
            }
        }
    }
}

/// The steps of one dot-separated piece: a name, then `[n]` groups.
pub open spec fn segment_tokens(seg: Seq<char>, path: Seq<char>) -> Result<Seq<Seg>, Seq<char>> {
    if seg.len() == 0 {
        Err(bad_segment_message(path))
    } else {
        let k = first_index_of(seg, '[');
        if k < 0 {
            Ok(seq![Seg::Field(seg)])
        } else {
            match index_groups(seg.skip(k), path) {
                Err(m) => Err(m),
                Ok(g) => Ok(if k > 0 { seq![Seg::Field(seg.take(k))] + g } else { g }),
            }
        }
    }
}

/// The steps of the pieces, in order; the first malformed piece stops it.
pub open spec fn tokens_of_pieces(pieces: Seq<Seq<char>>, path: Seq<char>) -> Result<Seq<Seg>, Seq<char>>
    decreases pieces.len(),
{
    if pieces.len() == 0 {
        Ok(Seq::empty())
    } else {
        match tokens_of_pieces(pieces.drop_last(), path) {
            Err(m) => Err(m),
            Ok(a) => match segment_tokens(pieces.last(), path) {
                Err(m) => Err(m),
                Ok(b) => Ok(a + b),
            },
        }
    }
}

/// The steps of a path text (surrounding white space ignored).
pub open spec fn editor_tokens(path: Seq<char>) -> Result<Seq<Seg>, Seq<char>> {
    let t = trim(path);
    if t.len() == 0 { Ok(Seq::empty()) } else { tokens_of_pieces(split_dots(t), path) }
}

/// The position of the first `c` is the first position that holds it.
pub proof fn lemma_first_index_is(cs: Seq<char>, c: char, k: int)
    requires
        0 <= k <= cs.len(),
        forall|j: int| 0 <= j < k ==> cs[j] != c,
        k < cs.len() ==> cs[k] == c,
    ensures
        first_index_of(cs, c) == if k < cs.len() { k } else { -1 },
    decreases cs.len(),
{
    if cs.len() > 0 && k > 0 {
        let t = cs.drop_first();
        assert forall|j: int| 0 <= j < k - 1 implies t[j] != c by {
            assert(t[j] == cs[j + 1]);
        }
        lemma_first_index_is(t, c, k - 1);
    }
}

/// The text of `cs[from..to]`.
fn string_of(cs: &Vec<char>, from: usize, to: usize) -> (s: String)
    requires
        from <= to <= cs@.len(),
    ensures
        s@ == cs@.subrange(from as int, to as int),
{
    let mut s = String::new();
    let mut i = from;
    while i < to
        invariant
            from <= i <= to <= cs@.len(),
            s@ == cs@.subrange(from as int, i as int),
        decreases to - i,
    {
        push_char(&mut s, cs[i]);
        i = i + 1;
        assert(s@ =~= cs@.subrange(from as int, i as int));
    }
    s
}

/// The error for a malformed piece of `path`.
fn bad_segment_error(path: &str) -> (e: String)
    ensures
        e@ == bad_segment_message(path@),
{
    let mut text = String::from_str("invalid path segment in '");
    text.append(path);
    text.append("'");
    text
}

/// `acc` in front of the steps that `r` holds, or `r`'s error.
pub open spec fn after_steps(acc: Seq<Seg>, r: Result<Seq<Seg>, Seq<char>>) -> Result<Seq<Seg>, Seq<char>> {
    match r {
        Ok(g) => Ok(acc + g),
        Err(m) => Err(m),
    }
}

/// The steps of one dot-separated piece.
fn piece_tokens(seg: &Vec<char>, path: &str) -> (r: Result<Vec<PathSegment>, String>)
    ensures
        match segment_tokens(seg@, path@) {
            Ok(t) => r matches Ok(v) && segs_of(v@) == t,
            Err(m) => r matches Err(e) && e@ == m,
        },
{
    let n = seg.len();
    if n == 0 {
        return Err(bad_segment_error(path));
    }
    let mut k: usize = 0;
    while k < n && seg[k] != '['
        invariant
            k <= n == seg@.len(),
            forall|j: int| 0 <= j < k ==> seg@[j] != '[',
        decreases n - k,
    {
        k = k + 1;
    }
    proof {
        lemma_first_index_is(seg@, '[', k as int);
    }
    let mut tokens: Vec<PathSegment> = Vec::new();
    if k == n {
        tokens.push(PathSegment::Field(string_of(seg, 0, n)));
        assert(seg@.subrange(0, n as int) =~= seg@);
        assert(segs_of(tokens@) =~= seq![Seg::Field(seg@)]);
        return Ok(tokens);
    }
    if k > 0 {
        tokens.push(PathSegment::Field(string_of(seg, 0, k)));
        assert(seg@.subrange(0, k as int) =~= seg@.take(k as int));
    }
    let ghost head = segs_of(tokens@);
    assert(head =~= if k > 0 { seq![Seg::Field(seg@.take(k as int))] } else { Seq::<Seg>::empty() });
    let mut j = k;
    while j < n
        invariant
            k <= j <= n == seg@.len(),
            k < n,
            first_index_of(seg@, '[') == k as int,
            head == (if k > 0 { seq![Seg::Field(seg@.take(k as int))] } else { Seq::<Seg>::empty() }),
            segs_of(tokens@).take(head.len() as int) == head,
            segs_of(tokens@).len() >= head.len(),
            index_groups(seg@.skip(k as int), path@) == after_steps(
                segs_of(tokens@).skip(head.len() as int),
                index_groups(seg@.skip(j as int), path@),
            ),
        decreases n - j,
    {
        let ghost rest = seg@.skip(j as int);
        let ghost before = segs_of(tokens@);
        if seg[j] != '[' {
            return Err(bad_segment_error(path));
        }
        let mut q = j + 1;
        while q < n && seg[q] != ']'
            invariant
                j < q <= n == seg@.len(),
                forall|m: int| j <= m < q ==> seg@[m] != ']',
            decreases n - q,
        {
            q = q + 1;
        }
        proof {
            assert(forall|m: int| 0 <= m < q - j ==> rest[m] == seg@[j + m]);
            lemma_first_index_is(rest, ']', (q - j) as int);
        }
        if q == n {
            return Err(bad_segment_error(path));
        }
        let index_text = string_of(seg, j + 1, q);
        proof {
            assert(index_text@ =~= rest.subrange(1, (q - j) as int));
        }
        let bytes = index_text.as_str().as_bytes();
        match parse_usize_at(bytes, 0, bytes.len()) {
            None => {
                assert(bytes@.subrange(0, bytes@.len() as int) =~= bytes@);
                let mut text = String::from_str("invalid list index '");
                text.append(index_text.as_str());
                text.append("'");
                return Err(text);
            },
            Some(v) => {
                assert(bytes@.subrange(0, bytes@.len() as int) =~= bytes@);
                tokens.push(PathSegment::Index(v));
                proof {
                    assert(segs_of(tokens@) =~= before.push(Seg::Index(v)));
                    assert(rest.skip((q - j) + 1) =~= seg@.skip(q + 1));
                    assert(segs_of(tokens@).take(head.len() as int) =~= before.take(head.len() as int));
                    assert(segs_of(tokens@).skip(head.len() as int) =~= before.skip(head.len() as int).push(
                        Seg::Index(v),
                    ));
                    let g = index_groups(seg@.skip(q + 1), path@);
                    if let Ok(gg) = g {
                        assert(before.skip(head.len() as int) + (seq![Seg::Index(v)] + gg) =~= before.skip(
                            head.len() as int,
                        ).push(Seg::Index(v)) + gg);
                    }
                }
                j = q + 1;
            },
        }
    }
    proof {
        assert(seg@.skip(j as int) =~= Seq::<char>::empty());
        assert(segs_of(tokens@).skip(head.len() as int) + Seq::<Seg>::empty() =~= segs_of(tokens@).skip(
            head.len() as int,
        ));
        assert(head + segs_of(tokens@).skip(head.len() as int) =~= segs_of(tokens@));
    }
    Ok(tokens)
}

pub proof fn lemma_trim_start(cs: Seq<char>, a: int)
    requires
        0 <= a <= cs.len(),
        forall|j: int| 0 <= j < a ==> is_white_space(#[trigger] cs[j]),
        a < cs.len() ==> !is_white_space(cs[a]),
    ensures
        trim_start(cs) == cs.skip(a),
    decreases cs.len(),
{
    if cs.len() > 0 && a > 0 {
        let t = cs.drop_first();
        assert forall|j: int| 0 <= j < a - 1 implies is_white_space(#[trigger] t[j]) by {
            assert(t[j] == cs[j + 1]);
        }
        lemma_trim_start(t, a - 1);
        assert(t.skip(a - 1) =~= cs.skip(a));
    } else {
        assert(cs.skip(0) =~= cs);
    }
}

pub proof fn lemma_trim_end(cs: Seq<char>, b: int)
    requires
        0 <= b <= cs.len(),
        forall|j: int| b <= j < cs.len() ==> is_white_space(#[trigger] cs[j]),
        b > 0 ==> !is_white_space(cs[b - 1]),
    ensures
        trim_end(cs) == cs.take(b),
    decreases cs.len(),
{
    if cs.len() > 0 && b < cs.len() {
        let t = cs.drop_last();
        assert forall|j: int| b <= j < t.len() implies is_white_space(#[trigger] t[j]) by {
            assert(t[j] == cs[j]);
        }
        lemma_trim_end(t, b);
        assert(t.take(b) =~= cs.take(b));
    } else {
        assert(cs.take(cs.len() as int) =~= cs);
    }
}

/// Reading on in the text keeps the pieces that a dot has already ended.
proof fn lemma_split_keeps(t: Seq<char>, i: int, j: int)
    requires
        0 <= i <= j <= t.len(),
    ensures
        split_dots(t.take(i)).len() <= split_dots(t.take(j)).len(),
        split_dots(t.take(j)).take(split_dots(t.take(i)).len() - 1) == split_dots(t.take(i)).drop_last(),
    decreases j - i,
{
    if j > i {
        lemma_split_keeps(t, i, j - 1);
        let a = split_dots(t.take(j - 1));
        assert(t.take(j).drop_last() =~= t.take(j - 1));
        lemma_split_nonempty(t.take(j - 1));
        lemma_split_nonempty(t.take(i));
        let k = split_dots(t.take(i)).len() - 1;
        let tj = t.take(j);
        assert(tj.len() > 0);
        assert(tj.drop_last() =~= t.take(j - 1));
        if tj.last() == '.' {
            assert(split_dots(tj) == a.push(Seq::<char>::empty()));
        } else {
            assert(split_dots(tj) == a.update(a.len() - 1, a.last().push(tj.last())));
        }
        assert(split_dots(tj).take(k) =~= a.take(k));
    } else {
        lemma_split_nonempty(t.take(i));
        assert(split_dots(t.take(j)).take(split_dots(t.take(i)).len() - 1) =~= split_dots(t.take(i)).drop_last());
    }
}

proof fn lemma_split_nonempty(t: Seq<char>)
    ensures
        split_dots(t).len() >= 1,
    decreases t.len(),
{
    if t.len() > 0 {
        lemma_split_nonempty(t.drop_last());
    }
}

/// A failing piece fails the whole path, whatever follows it.
proof fn lemma_pieces_fail(ps: Seq<Seq<char>>, k: int, path: Seq<char>)
    requires
        0 <= k <= ps.len(),
        tokens_of_pieces(ps.take(k), path) is Err,
    ensures
        tokens_of_pieces(ps, path) == tokens_of_pieces(ps.take(k), path),
    decreases ps.len(),
{
    if k < ps.len() {
        assert(ps.drop_last().take(k) =~= ps.take(k));
        lemma_pieces_fail(ps.drop_last(), k, path);
    } else {
        assert(ps.take(k) =~= ps);
    }
}

/// Parses a path of dot-separated pieces, each a name followed by `[n]`
/// groups (`a.b[2][0].c`); white space around the text is ignored.
pub fn parse_path(path: &str) -> (r: Result<Vec<PathSegment>, String>)
    ensures
        match editor_tokens(path@) {
            Ok(t) => r matches Ok(v) && segs_of(v@) == t,
            Err(m) => r matches Err(e) && e@ == m,
        },
{
    let all = chars_of(path);
    let n = all.len();
    let mut a: usize = 0;
    while a < n && white_space(all[a])
        invariant
            a <= n == all@.len(),
            forall|j: int| 0 <= j < a ==> is_white_space(#[trigger] all@[j]),
        decreases n - a,
    {
        a = a + 1;
    }
    let mut b: usize = n;
    while b > a && white_space(all[b - 1])
        invariant
            a <= b <= n == all@.len(),
            forall|j: int| b <= j < n ==> is_white_space(#[trigger] all@[j]),
        decreases b,
    {
        b = b - 1;
    }
    proof {
        lemma_trim_start(all@, a as int);
        let s = all@.skip(a as int);
        assert forall|j: int| (b - a) <= j < s.len() implies is_white_space(#[trigger] s[j]) by {
            assert(s[j] == all@[a + j]);
        }
        if b > a {
            assert(s[b - a - 1] == all@[b - 1]);
        }
        lemma_trim_end(s, (b - a) as int);
        assert(s.take((b - a) as int) =~= all@.subrange(a as int, b as int));
    }
    let ghost t = all@.subrange(a as int, b as int);
    if a == b {
        assert(segs_of(Seq::<PathSegment>::empty()) =~= Seq::<Seg>::empty());
        return Ok(Vec::new());
    }
    let mut tokens: Vec<PathSegment> = Vec::new();
    let mut cur: Vec<char> = Vec::new();
    let ghost mut done: Seq<Seq<char>> = Seq::empty();
    let mut i = a;
    proof {
        assert(t.take(0) =~= Seq::<char>::empty());
        assert(split_dots(t.take(0)) == seq![Seq::<char>::empty()]);
        assert(done.push(cur@) =~= seq![Seq::<char>::empty()]);
        assert(segs_of(tokens@) =~= Seq::<Seg>::empty());
    }
    while i < b
        invariant
            a <= i <= b <= n == all@.len(),
            t == all@.subrange(a as int, b as int),
            split_dots(t.take(i - a)) == done.push(cur@),
            tokens_of_pieces(done, path@) == Ok::<Seq<Seg>, Seq<char>>(segs_of(tokens@)),
            trim(path@) == t,
            t.len() > 0,
        decreases b - i,
    {
        let c = all[i];
        proof {
            assert(t.take(i - a + 1).drop_last() =~= t.take(i - a));
            assert(t.take(i - a + 1).last() == c);
        }
        if c == '.' {
            let ghost piece = cur@;
            let ghost old_done = done;
            proof {
                assert(split_dots(t.take((i - a + 1) as int)) == old_done.push(piece).push(Seq::<char>::empty()));
                lemma_split_keeps(t, (i - a + 1) as int, t.len() as int);
                assert(t.take(t.len() as int) =~= t);
                let all_pieces = split_dots(t);
                assert(all_pieces.take(old_done.len() + 1 as int) =~= old_done.push(piece));
                if segment_tokens(piece, path@) is Err {
                    assert(old_done.push(piece).drop_last() =~= old_done);
                    lemma_pieces_fail(all_pieces, old_done.len() + 1 as int, path@);
                }
            }
            let mut more = piece_tokens(&cur, path)?;
            let ghost before = segs_of(tokens@);
            let ghost added = segs_of(more@);
            tokens.append(&mut more);
            proof {
                assert(segs_of(tokens@) =~= before + added);
                assert(old_done.push(piece).drop_last() =~= old_done);
                done = old_done.push(piece);
            }
            cur = Vec::new();
            proof {
                assert(done.push(cur@) =~= done.push(Seq::<char>::empty()));
            }
        } else {
            let ghost prev = cur@;
            cur.push(c);
            proof {
                assert(done.push(prev).update(done.len() as int, prev.push(c)) =~= done.push(cur@));
            }
        }
        i = i + 1;
    }
    proof {
        assert(t.take(i - a) =~= t);
        assert(split_dots(t) == done.push(cur@));
        assert(done.push(cur@).drop_last() =~= done);
    }
    let ghost piece = cur@;
    let mut more = piece_tokens(&cur, path)?;
    let ghost before = segs_of(tokens@);
    let ghost added = segs_of(more@);
    tokens.append(&mut more);
    proof {
        assert(segs_of(tokens@) =~= before + added);
        assert(done.push(piece).drop_last() =~= done);
    }
    Ok(tokens)
}

// ----- replacing -----

/// The message for a field step through something that is not a compound.
pub open spec fn cannot_access_field_message(name: Seq<char>) -> Seq<char> {
    "cannot access field '"@ + name + "' on non-compound node"@
}

/// The message for a missing field.
pub open spec fn missing_field_message(name: Seq<char>) -> Seq<char> {
    "path not found: missing field '"@ + name + "'"@
}

/// The message for an index step through something that is not a list.
pub open spec fn cannot_access_index_message(index: nat) -> Seq<char> {
    "cannot access index ["@ + decimal(index) + "] on non-list node"@
}

/// The message for an index past the end of a list.
pub open spec fn missing_index_message(index: nat) -> Seq<char> {
    "path not found: index out of range ["@ + decimal(index) + "]"@
}

/// The message for a last field step on something that is not a compound.
pub open spec fn cannot_write_field_message(name: Seq<char>) -> Seq<char> {
    "cannot write field '"@ + name + "' on non-compound node"@
}

/// The message for a last index step on something that is not a list.
pub open spec fn cannot_write_index_message(index: nat) -> Seq<char> {
    "cannot write index ["@ + decimal(index) + "] on non-list node"@
}

/// Why the value at the end of a non-empty path cannot be replaced, or `None`
/// when it can.
pub open spec fn set_failure(t: NbtTree, toks: Seq<Seg>) -> Option<Seq<char>>
    decreases toks.len(),
{
    if toks.len() == 0 {
        None
    } else {
        let last = toks.len() == 1;
        match toks[0] {
            Seg::Field(name) => match t {
                NbtTree::Compound(fs) => {
                    let k = field_position(fs, name);
                    if k < 0 {
                        Some(missing_field_message(name))
                    } else if last {
                        None
                    } else {
                        set_failure(fs[k].1, toks.drop_first())
                    }
                },
                _ => Some(if last { cannot_write_field_message(name) } else { cannot_access_field_message(name) }),
            },
            Seg::Index(i) => match t {
                NbtTree::List(_, es) => if i < es.len() {
                    if last { None } else { set_failure(es[i as int], toks.drop_first()) }
                } else {
                    Some(missing_index_message(i as nat))
                },
                _ => Some(
                    if last { cannot_write_index_message(i as nat) } else { cannot_access_index_message(i as nat) },
                ),
            },
        }
    }
}

/// The position of the first field named `name`, or the number of fields.
fn find_field(fields: &Vec<(String, NbtValue)>, name: &String) -> (k: usize)
    ensures
        k <= fields@.len(),
        field_position(fields_of(fields@), name@) == if k < fields@.len() { k as int } else { -1 },
        k < fields@.len() ==> fields_of(fields@)[k as int].0 == name@,
{
    let mut k: usize = 0;
    while k < fields.len()
        invariant
            k <= fields@.len(),
            forall|j: int| 0 <= j < k ==> #[trigger] fields_of(fields@)[j].0 != name@,
        decreases fields@.len() - k,
    {
        if fields[k].0.eq(name) {
            proof {
                crate::edit::lemma_first_field(fields_of(fields@), name@, k as int);
            }
            return k;
        }
        k = k + 1;
    }
    proof {
        crate::edit::lemma_first_field(fields_of(fields@), name@, k as int);
    }
    k
}

fn quoted_error(prefix: &str, name: &str, suffix: &str) -> (e: String)
    ensures
        e@ == prefix@ + name@ + suffix@,
{
    let mut text = String::from_str(prefix);
    text.append(name);
    text.append(suffix);
    text
}

fn index_error(prefix: &str, index: usize, suffix: &str) -> (e: String)
    ensures
        e@ == prefix@ + decimal(index as nat) + suffix@,
{
    let mut text = String::from_str(prefix);
    push_decimal(&mut text, index as u64);
    text.append(suffix);
    text
}

/// Replaces the value at the end of `tokens[depth..]` from `value`.
fn set_in(value: &mut NbtValue, tokens: &[PathSegment], depth: usize, replacement: NbtValue) -> (r: Result<(), String>)
    requires
        depth < tokens@.len(),
    ensures
        match set_failure(old(value)@, segs_of(tokens@).skip(depth as int)) {
            None => r is Ok && final(value)@ == replace_at(old(value)@, segs_of(tokens@).skip(depth as int), replacement@),
            Some(m) => (r matches Err(e) && e@ == m) && final(value)@ == old(value)@,
        },
    decreases tokens@.len() - depth,
{
    let ghost toks = segs_of(tokens@).skip(depth as int);
    let last = depth == tokens.len() - 1;
    assert(toks[0] == tokens@[depth as int]@);
    assert(toks.drop_first() =~= segs_of(tokens@).skip(depth + 1));
    assert(last ==> toks.drop_first().len() == 0);
    match &tokens[depth] {
        PathSegment::Field(name) => {
            match value {
                NbtValue::Compound(fields) => {
                    proof {
                        lemma_compound_view(*fields);
                    }
                    let k = find_field(fields, name);
                    if k == fields.len() {
                        return Err(quoted_error("path not found: missing field '", name.as_str(), "'"));
                    }
                    let ghost before = fields@;
                    if last {
                        fields.set(k, (name.clone(), replacement));
                        proof {
                            lemma_compound_view(*fields);
                            assert(replace_at(fields_of(before)[k as int].1, toks.drop_first(), replacement@)
                                == replacement@);
                            assert(fields_of(fields@) =~= fields_of(before).update(
                                k as int,
                                (fields_of(before)[k as int].0, replacement@),
                            ));
                        }
                        return Ok(());
                    }
                    let res = set_in(&mut fields[k].1, tokens, depth + 1, replacement);
                    proof {
                        lemma_compound_view(*fields);
                        assert(fields_of(fields@) =~= fields_of(before).update(
                            k as int,
                            (fields_of(before)[k as int].0, fields@[k as int].1@),
                        ));
                        if res is Err {
                            assert(fields_of(fields@) =~= fields_of(before));
                        }
                    }
                    res
                },
                _ => {
                    if last {
                        Err(quoted_error("cannot write field '", name.as_str(), "' on non-compound node"))
                    } else {
                        Err(quoted_error("cannot access field '", name.as_str(), "' on non-compound node"))
                    }
                },
            }
        },
        PathSegment::Index(index) => {
            match value {
                NbtValue::List { id, elements } => {
                    proof {
                        lemma_list_view(*id, *elements);
                    }
                    if *index >= elements.len() {
                        return Err(index_error("path not found: index out of range [", *index, "]"));
                    }
                    let ghost before = elements@;
                    if last {
                        elements.set(*index, replacement);
                        proof {
                            lemma_list_view(*id, *elements);
                            assert(replace_at(trees_of(before)[*index as int], toks.drop_first(), replacement@)
                                == replacement@);
                            assert(trees_of(elements@) =~= trees_of(before).update(*index as int, replacement@));
                        }
                        return Ok(());
                    }
                    let res = set_in(&mut elements[*index], tokens, depth + 1, replacement);
                    proof {
                        lemma_list_view(*id, *elements);
                        assert(trees_of(elements@) =~= trees_of(before).update(*index as int, elements@[*index as int]@));
                        if res is Err {
                            assert(trees_of(elements@) =~= trees_of(before));
                        }
                    }
                    res
                },
                _ => {
                    if last {
                        Err(index_error("cannot write index [", *index, "] on non-list node"))
                    } else {
                        Err(index_error("cannot access index [", *index, "] on non-list node"))
                    }
                },
            }
        },
    }
}

/// Replaces the value at the end of `tokens`; `replaced` records success.
pub fn set_value(root: &mut NbtValue, tokens: &[PathSegment], replacement: NbtValue, replaced: &mut bool) -> (r: Result<(), ParseError>)
    ensures
        tokens@.len() == 0 ==> r is Ok && final(root)@ == old(root)@ && *final(replaced) == *old(replaced),
        tokens@.len() > 0 ==> match set_failure(old(root)@, segs_of(tokens@)) {
            None => r is Ok && final(root)@ == replace_at(old(root)@, segs_of(tokens@), replacement@) && *final(replaced),
            Some(m) => (r matches Err(ParseError::Other(e)) && e@ == m) && final(root)@ == old(root)@
                && *final(replaced) == *old(replaced),
        },
{
    if tokens.len() == 0 {
        return Ok(());
    }
    assert(segs_of(tokens@).skip(0) =~= segs_of(tokens@));
    match set_in(root, tokens, 0, replacement) {
        Ok(()) => {
            *replaced = true;
            Ok(())
        },
        Err(m) => Err(ParseError::Other(m)),
    }
}

/// The message for a replacement that is a container or TAG_End.
pub open spec fn container_update_message() -> Seq<char> {
    "updating path only supports non-container values"@
}

/// The tree of a component that holds no other values.
pub open spec fn component_tree(c: CompView) -> Option<NbtTree> {
    match c {
        CompView::Byte(x) => Some(NbtTree::Byte(x)),
        CompView::Short(x) => Some(NbtTree::Short(x)),
        CompView::Int(x) => Some(NbtTree::Int(x)),
        CompView::Long(x) => Some(NbtTree::Long(x)),
        CompView::Float(x) => Some(NbtTree::Float(x)),
        CompView::Double(x) => Some(NbtTree::Double(x)),
        CompView::ByteArray(x) => Some(NbtTree::ByteArray(x)),
        CompView::String(x) => Some(NbtTree::String(x)),
        CompView::IntArray(x) => Some(NbtTree::IntArray(x)),
        CompView::LongArray(x) => Some(NbtTree::LongArray(x)),
        _ => None,
    }
}

/// The value of a component that holds no other values.
pub fn from_component(component: NbtComponent) -> (r: Result<NbtValue, ParseError>)
    ensures
        match component_tree(component@) {
            Some(t) => r matches Ok(v) && v@ == t,
            None => r matches Err(ParseError::Other(m)) && m@ == container_update_message(),
        },
{
    let value = match component {
        NbtComponent::Byte(value) => NbtValue::Byte(value),
        NbtComponent::Short(value) => NbtValue::Short(value),
        NbtComponent::Int(value) => NbtValue::Int(value),
        NbtComponent::Long(value) => NbtValue::Long(value),
        NbtComponent::Float(value) => NbtValue::Float(value),
        NbtComponent::Double(value) => NbtValue::Double(value),
        NbtComponent::ByteArray(values) => NbtValue::ByteArray(values),
        NbtComponent::String(value) => NbtValue::String(value),
        NbtComponent::IntArray(values) => NbtValue::IntArray(values),
        NbtComponent::LongArray(values) => NbtValue::LongArray(values),
        NbtComponent::List { .. } | NbtComponent::Compound | NbtComponent::End => {
            return Err(ParseError::Other(String::from_str("updating path only supports non-container values")));
        },
    };
    Ok(value)
}

/// Why updating a document failed.
pub enum UpdateFailure {
    /// Reading the document stopped.
    Read(Fault),
    /// An error with this message.
    Message(Seq<char>),
}

/// Whether the call's result is the failure `f`.
pub open spec fn update_fails_as(r: Result<Vec<u8>, ParseError>, f: UpdateFailure) -> bool {
    match f {
        UpdateFailure::Read(fault) => r matches Err(e) && reports(e, fault),
        UpdateFailure::Message(m) => r matches Err(ParseError::Other(x)) && x@ == m,
    }
}

/// The document `input` with the value at `target` replaced by `c`, written
/// back with the root's own name, or why it cannot be.
pub open spec fn updated_document(p: PlatformType, input: Seq<u8>, target: Seq<char>, c: CompView) -> Result<Seq<u8>, UpdateFailure> {
    match wire_u8(input) {
        Err(f) => Err(UpdateFailure::Read(f)),
        Ok((id, r1)) => if id != tag_id::COMPOUND && id != tag_id::LIST {
            Err(UpdateFailure::Read(Fault::BadRoot(id)))
        } else {
            match wire_tag(p, r1) {
                Err(f) => Err(UpdateFailure::Read(f)),
                Ok((tag, r2)) => match wire_payload(p, id, r2) {
                    Err(f) => Err(UpdateFailure::Read(f)),
                    Ok((t, _)) => match editor_tokens(target) {
                        Err(m) => Err(UpdateFailure::Message(m)),
                        Ok(toks) => if toks.len() == 0 {
                            Err(UpdateFailure::Message(crate::edit::empty_path_message()))
                        } else {
                            match component_tree(c) {
                                None => Err(UpdateFailure::Message(container_update_message())),
                                Some(new) => match set_failure(t, toks) {
                                    Some(m) => Err(UpdateFailure::Message(m)),
                                    None => match enc_tag(p, tag) {
                                        None => Err(UpdateFailure::Message(tag_message(tag))),
                                        Some(tb) => match then(seq![id] + tb, enc_payload(p, replace_at(t, toks, new))) {
                                            Ok(b) => Ok(b),
                                            Err(m) => Err(UpdateFailure::Message(m)),
                                        },
                                    },
                                },
                            }
                        },
                    },
                },
            }
        },
    }
}

/// Replaces the value at `target_path` in the document `input` with
/// `component` and returns the document written back (with the root's name
/// kept).
pub fn update_document(input: Vec<u8>, target_path: &str, component: NbtComponent, platform: PlatformType) -> (r: Result<Vec<u8>, ParseError>)
    ensures
        match updated_document(platform, input@, target_path@, component@) {
            Ok(b) => r matches Ok(out) && out@ == b,
            Err(f) => update_fails_as(r, f),
        },
{
    let mut decoder = build_decoder(input, platform);
    let root_id = decoder.read_id()?;
    if root_id != tag_id::COMPOUND && root_id != tag_id::LIST {
        return Err(ParseError::InvalidRootTag(root_id));
    }
    let root_tag = decoder.read_tag()?;
    let mut root = parse_value_by_id(root_id, &mut decoder)?;
    let tokens = match parse_path(target_path) {
        Ok(t) => t,
        Err(m) => return Err(ParseError::Other(m)),
    };
    if tokens.len() == 0 {
        return Err(ParseError::Other(String::from_str("path cannot be empty")));
    }
    let replacement = from_component(component)?;
    let mut replaced = false;
    set_value(&mut root, tokens.as_slice(), replacement, &mut replaced)?;
    if !replaced {
        let mut text = String::from_str("path not found: ");
        text.append(target_path);
        return Err(ParseError::Other(text));
    }
    let mut encoder = build_encoder(Vec::new(), platform);
    encoder.write_id(root_id)?;
    encoder.write_tag(root_tag.as_str())?;
    let ghost header = encoder.written();
    write_value_payload(&mut encoder, &root)?;
    encoder.flush()?;
    proof {
        let tb = enc_tag(platform, root_tag@)->Some_0;
        let b = enc_payload(platform, root@)->Ok_0;
        assert(encoder.written() =~= seq![root_id] + tb + b);
    }
    Ok(encoder.into_bytes())
}

} // verus!
