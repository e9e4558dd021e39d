//! `--where` expressions: `field op value` clauses joined by `&&` that pick
//! list elements to delete, e.g. `id==123&&count<999`.
use vstd::prelude::*;
use crate::edit::{find_ref, lookup};
use crate::editor::{is_white_space, lemma_trim_end, lemma_trim_start, trim, white_space};
use crate::path::{segs_of, PathSegment, Seg};
use crate::select::{compile_pattern, regex_compile_error, PathPattern};
use crate::text::{chars_of, push_char};
use crate::tree::{NbtTree, NbtValue};

verus! {

/// How a clause compares.
#[derive(Clone, Copy, Debug, PartialEq, Eq, Structural)]
pub enum WhereOp {
    Eq,
    Ne,
    Lt,
    Le,
    Gt,
    Ge,
    Regex,
}

/// The right-hand side of a clause: a number (kept as its text), or text.
#[derive(Debug)]
pub enum WhereValue {
    Number(String),
    Text(String),
}

/// One `field op value` comparison.
pub struct WhereClause {
    /// The field names leading into the element.
    pub field_path: Vec<String>,
    pub op: WhereOp,
    pub value: WhereValue,
    /// The compiled pattern of a `~=` clause.
    pub value_regex: Option<PathPattern>,
}

/// The mathematical form of a clause.
pub struct ClauseView {
    pub path: Seq<Seq<char>>,
    pub op: WhereOp,
    /// Whether the value is a number.
    pub number: bool,
    pub text: Seq<char>,
    /// The pattern of a `~=` clause.
    pub pattern: Option<Seq<char>>,
}

/// The texts of a sequence of strings.
pub open spec fn texts_view(v: Seq<String>) -> Seq<Seq<char>> {
    Seq::new(v.len(), |i: int| v[i]@)
}

impl View for WhereClause {
    type V = ClauseView;

    open spec fn view(&self) -> ClauseView {
        ClauseView {
            path: texts_view(self.field_path@),
            op: self.op,
            number: self.value is Number,
            text: match self.value {
                WhereValue::Number(t) => t@,
                WhereValue::Text(t) => t@,
            },
            pattern: match self.value_regex {
                Some(p) => Some(p@),
                None => None,
            },
        }
    }
}

/// The clauses' mathematical forms.
pub open spec fn clauses_view(v: Seq<WhereClause>) -> Seq<ClauseView> {
    Seq::new(v.len(), |i: int| v[i]@)
}

/// The position of the first occurrence of `pat` in `cs`, or -1.
pub open spec fn find_text(cs: Seq<char>, pat: Seq<char>) -> int
    decreases cs.len(),
{
    if pat.len() == 0 {
        0
    } else if cs.len() < pat.len() {
        -1
    } else if cs.take(pat.len() as int) == pat {
        0
    } else {
        let r = find_text(cs.drop_first(), pat);
        if r < 0 { -1 } else { r + 1 }
    }
}

/// The pieces of `cs` between the occurrences of `sep`, left to right (what
/// `str::split` gives for a nonempty separator).
pub open spec fn split_on(cs: Seq<char>, sep: Seq<char>) -> Seq<Seq<char>>
    decreases cs.len(),
{
    let k = find_text(cs, sep);
    if sep.len() == 0 || k < 0 || k + sep.len() > cs.len() {
        seq![cs]
    } else {
        seq![cs.take(k)] + split_on(cs.skip(k + sep.len()), sep)
    }
}

/// The operators, in the order they are looked for.
pub open spec fn op_symbol(k: int) -> Seq<char> {
    if k == 0 {
        seq!['=', '=']
    } else if k == 1 {
        seq!['!', '=']
    } else if k == 2 {
        seq!['<', '=']
    } else if k == 3 {
        seq!['>', '=']
    } else if k == 4 {
        seq!['~', '=']
    } else if k == 5 {
        seq!['<']
    } else {
        seq!['>']
    }
}

/// The operation of the `k`th operator.
pub open spec fn op_of(k: int) -> WhereOp {
    if k == 0 {
        WhereOp::Eq
    } else if k == 1 {
        WhereOp::Ne
    } else if k == 2 {
        WhereOp::Le
    } else if k == 3 {
        WhereOp::Ge
    } else if k == 4 {
        WhereOp::Regex
    } else if k == 5 {
        WhereOp::Lt
    } else {
        WhereOp::Gt
    }
}

/// The first operator, from the `k`th on, that occurs in the clause, or -1.
pub open spec fn first_op(clause: Seq<char>, k: int) -> int
    decreases 7 - k,
{
    if k < 0 || k >= 7 {
        -1
    } else if find_text(clause, op_symbol(k)) >= 0 {
        k
    } else {
        first_op(clause, k + 1)
    }
}

/// The nonempty trimmed pieces, in order.
pub open spec fn field_names(pieces: Seq<Seq<char>>) -> Seq<Seq<char>>
    decreases pieces.len(),
{
    if pieces.len() == 0 {
        Seq::empty()
    } else {
        let r = field_names(pieces.drop_last());
        let t = trim(pieces.last());
        if t.len() > 0 { r.push(t) } else { r }
    }
}

/// Whether the text is wrapped in a pair of the same quote.
pub open spec fn quoted(t: Seq<char>) -> bool {
    t.len() >= 2 && ((t[0] == '"' && t.last() == '"') || (t[0] == '\'' && t.last() == '\''))
}

/// The value of a clause's right-hand side: whether it is a number (as
/// `num` tells of the trimmed text), and its text.
pub open spec fn where_value(raw: Seq<char>, num: spec_fn(Seq<char>) -> bool) -> (bool, Seq<char>) {
    let t = trim(raw);
    if quoted(t) {
        (false, t.subrange(1, t.len() - 1))
    } else if num(t) {
        (true, t)
    } else {
        (false, t)
    }
}

/// The message for a clause that is not `field op value`.
pub open spec fn invalid_clause_message(clause: Seq<char>) -> Seq<char> {
    "invalid where clause: "@ + clause
}

/// A clause read from its text.
pub open spec fn clause_of(token: Seq<char>, num: spec_fn(Seq<char>) -> bool) -> Result<ClauseView, Seq<char>> {
    let clause = trim(token);
    let k = first_op(clause, 0);
    if clause.len() == 0 {
        Err("empty where clause"@)
    } else if k < 0 {
        Err(invalid_clause_message(clause))
    } else {
        let at = find_text(clause, op_symbol(k));
        let lhs = trim(clause.take(at));
        let rhs = trim(clause.skip(at + op_symbol(k).len()));
        if lhs.len() == 0 || rhs.len() == 0 {
            Err(invalid_clause_message(clause))
        } else {
            let names = field_names(split_on(lhs, seq!['.']));
            let (number, text) = where_value(rhs, num);
            if names.len() == 0 {
                Err("invalid where field path: "@ + lhs)
            } else if op_of(k) == WhereOp::Regex && number {
                Err("where regex operator expects text value"@)
            } else if op_of(k) == WhereOp::Regex && regex_compile_error(text) is Some {
                Err("invalid where regex: "@ + regex_compile_error(text)->Some_0)
            } else {
                Ok(ClauseView {
                    path: names,
                    op: op_of(k),
                    number,
                    text,
                    pattern: if op_of(k) == WhereOp::Regex { Some(text) } else { None },
                })
            }
        }
    }
}

/// The clauses of the tokens, or the first token's error.
pub open spec fn clauses_of(tokens: Seq<Seq<char>>, num: spec_fn(Seq<char>) -> bool) -> Result<Seq<ClauseView>, Seq<char>>
    decreases tokens.len(),
{
    if tokens.len() == 0 {
        Ok(Seq::empty())
    } else {
        match clauses_of(tokens.drop_last(), num) {
            Err(m) => Err(m),
            Ok(cs) => match clause_of(tokens.last(), num) {
                Err(m) => Err(m),
                Ok(c) => Ok(cs.push(c)),
            },
        }
    }
}

/// The clauses of a whole expression.
pub open spec fn where_clauses(raw: Seq<char>, num: spec_fn(Seq<char>) -> bool) -> Result<Seq<ClauseView>, Seq<char>> {
    match clauses_of(split_on(raw, seq!['&', '&']), num) {
        Err(m) => Err(m),
        Ok(cs) => if cs.len() == 0 { Err("where expression is empty"@) } else { Ok(cs) },
    }
}

/// A string of the characters.
pub fn string_of(cs: &[char]) -> (s: String)
    ensures
        s@ == cs@,
{
    let mut s = String::new();
    let mut i: usize = 0;
    while i < cs.len()
        invariant
            i <= cs@.len(),
            s@ == cs@.take(i as int),
        decreases cs@.len() - i,
    {
        push_char(&mut s, cs[i]);
        i = i + 1;
        assert(s@ =~= cs@.take(i as int));
    }
    assert(cs@.take(cs@.len() as int) =~= cs@);
    s
}

/// The characters `cs[from..to]`.
pub fn sub_chars(cs: &Vec<char>, from: usize, to: usize) -> (r: Vec<char>)
    requires
        from <= to <= cs@.len(),
    ensures
        r@ == cs@.subrange(from as int, to as int),
{
    let mut r: Vec<char> = Vec::new();
    let mut i = from;
    while i < to
        invariant
            from <= i <= to <= cs@.len(),
            r@ == cs@.subrange(from as int, i as int),
        decreases to - i,
    {
        r.push(cs[i]);
        i = i + 1;
        assert(r@ =~= cs@.subrange(from as int, i as int));
    }
    r
}

/// The characters without leading or trailing white space.
pub fn trim_chars(cs: &Vec<char>) -> (r: Vec<char>)
    ensures
        r@ == trim(cs@),
{
    let n = cs.len();
    let mut a: usize = 0;
    while a < n && white_space(cs[a])
        invariant
            a <= n == cs@.len(),
            forall|j: int| 0 <= j < a ==> is_white_space(#[trigger] cs@[j]),
        decreases n - a,
    {
        a = a + 1;
    }
    let mut b: usize = n;
    while b > a && white_space(cs[b - 1])
        invariant
            a <= b <= n == cs@.len(),
            forall|j: int| b <= j < n ==> is_white_space(#[trigger] cs@[j]),
        decreases b,
    {
        b = b - 1;
    }
    proof {
        lemma_trim_start(cs@, a as int);
        let s = cs@.skip(a as int);
        assert forall|j: int| (b - a) <= j < s.len() implies is_white_space(#[trigger] s[j]) by {
            assert(s[j] == cs@[a + j]);
        }
        if b > a {
            assert(s[b - a - 1] == cs@[b - 1]);
        }
        lemma_trim_end(s, (b - a) as int);
        assert(s.take((b - a) as int) =~= cs@.subrange(a as int, b as int));
    }
    sub_chars(cs, a, b)
}

/// The first occurrence of `pat` in `cs` at or after `from`, as an offset
/// from `from`.
fn find_chars(cs: &Vec<char>, pat: &Vec<char>, from: usize) -> (r: Option<usize>)
    requires
        from <= cs@.len(),
    ensures
        match r {
            Some(k) => find_text(cs@.skip(from as int), pat@) == k,
            None => find_text(cs@.skip(from as int), pat@) < 0,
        },
{
    let n = cs.len();
    let m = pat.len();
    let mut i = from;
    while i < n && n - i >= m
        invariant
            from <= i <= n == cs@.len(),
            m == pat@.len(),
            find_text(cs@.skip(from as int), pat@) == if find_text(cs@.skip(i as int), pat@) < 0 {
                -1
            } else {
                find_text(cs@.skip(i as int), pat@) + (i - from)
            },
        decreases n - i,
    {
        let ghost rest = cs@.skip(i as int);
        let mut j: usize = 0;
        while j < m && cs[i + j] == pat[j]
            invariant
                j <= m == pat@.len(),
                i + m <= n == cs@.len(),
                rest == cs@.skip(i as int),
                forall|q: int| 0 <= q < j ==> rest[q] == pat@[q],
            decreases m - j,
        {
            j = j + 1;
        }
        if j == m {
            assert(rest.take(m as int) =~= pat@);
            return Some(i - from);
        }
        assert(rest.take(m as int) != pat@) by {
            assert(rest.take(m as int)[j as int] != pat@[j as int]);
        }
        assert(rest.drop_first() =~= cs@.skip(i + 1));
        i = i + 1;
    }
    if i == n && m == 0 {
        assert(cs@.skip(i as int).take(0) =~= pat@);
        return Some(i - from);
    }
    None
}

/// The pieces of `cs` between the occurrences of a nonempty `sep`.
pub fn split_chars(cs: &Vec<char>, sep: &Vec<char>) -> (r: Vec<Vec<char>>)
    requires
        sep@.len() > 0,
    ensures
        Seq::new(r@.len(), |i: int| r@[i]@) == split_on(cs@, sep@),
{
    let mut pieces: Vec<Vec<char>> = Vec::new();
    let mut i: usize = 0;
    let ghost mut done: Seq<Seq<char>> = Seq::empty();
    assert(cs@.skip(0) =~= cs@);
    loop
        invariant
            i <= cs@.len(),
            sep@.len() > 0,
            done == Seq::new(pieces@.len(), |q: int| pieces@[q]@),
            split_on(cs@, sep@) == done + split_on(cs@.skip(i as int), sep@),
        decreases cs@.len() - i,
    {
        let ghost rest = cs@.skip(i as int);
        match find_chars(cs, sep, i) {
            Some(k) if k <= cs.len() - i && sep.len() <= cs.len() - i - k => {
                let piece = sub_chars(cs, i, i + k);
                assert(piece@ =~= rest.take(k as int));
                assert(rest.skip(k + sep@.len()) =~= cs@.skip(i + k + sep@.len()));
                pieces.push(piece);
                proof {
                    let old_done = done;
                    done = done.push(rest.take(k as int));
                    assert(done =~= Seq::new(pieces@.len(), |q: int| pieces@[q]@));
                    assert(old_done + (seq![rest.take(k as int)] + split_on(rest.skip(k + sep@.len()), sep@))
                        =~= done + split_on(rest.skip(k + sep@.len()), sep@));
                }
                i = i + k + sep.len();
            },
            _ => {
                let piece = sub_chars(cs, i, cs.len());
                assert(piece@ =~= rest);
                pieces.push(piece);
                proof {
                    let old_done = done;
                    done = done.push(rest);
                    assert(done =~= Seq::new(pieces@.len(), |q: int| pieces@[q]@));
                    assert(old_done + seq![rest] =~= done);
                }
                return pieces;
            },
        }
    }
}

/// Where an occurrence found lies.
proof fn lemma_find_text(cs: Seq<char>, pat: Seq<char>)
    ensures
        find_text(cs, pat) >= 0 ==> find_text(cs, pat) + pat.len() <= cs.len(),
    decreases cs.len(),
{
    if pat.len() > 0 && cs.len() >= pat.len() && cs.take(pat.len() as int) != pat {
        lemma_find_text(cs.drop_first(), pat);
    }
}

/// An error among the first tokens is the error of them all.
proof fn lemma_clauses_error(ts: Seq<Seq<char>>, i: int, num: spec_fn(Seq<char>) -> bool)
    requires
        0 <= i <= ts.len(),
        clauses_of(ts.take(i), num) is Err,
    ensures
        clauses_of(ts, num) == clauses_of(ts.take(i), num),
    decreases ts.len() - i,
{
    if i < ts.len() {
        assert(ts.take(i + 1).drop_last() =~= ts.take(i));
        lemma_clauses_error(ts, i + 1, num);
    } else {
        assert(ts.take(i) =~= ts);
    }
}

/// Whether `d` is what the closure answers of every text.
pub open spec fn tells<F: Fn(&str) -> bool>(f: F, d: spec_fn(Seq<char>) -> bool) -> bool {
    forall|s: &str, b: bool| #[trigger] f.ensures((s,), b) ==> b == d(s@)
}

/// The characters of the `k`th operator.
fn symbol_chars(k: usize) -> (r: Vec<char>)
    requires
        k < 7,
    ensures
        r@ == op_symbol(k as int),
{
    let r = if k == 0 {
        vec!['=', '=']
    } else if k == 1 {
        vec!['!', '=']
    } else if k == 2 {
        vec!['<', '=']
    } else if k == 3 {
        vec!['>', '=']
    } else if k == 4 {
        vec!['~', '=']
    } else if k == 5 {
        vec!['<']
    } else {
        vec!['>']
    };
    assert(r@ =~= op_symbol(k as int));
    r
}

/// The operation of the `k`th operator.
fn op_at(k: usize) -> (r: WhereOp)
    ensures
        r == op_of(k as int),
{
    if k == 0 {
        WhereOp::Eq
    } else if k == 1 {
        WhereOp::Ne
    } else if k == 2 {
        WhereOp::Le
    } else if k == 3 {
        WhereOp::Ge
    } else if k == 4 {
        WhereOp::Regex
    } else if k == 5 {
        WhereOp::Lt
    } else {
        WhereOp::Gt
    }
}

/// `prefix` followed by the characters.
fn message_with(prefix: &str, cs: &Vec<char>) -> (s: String)
    ensures
        s@ == prefix@ + cs@,
{
    let mut s = String::from_str(prefix);
    let tail = string_of(cs.as_slice());
    s.append(tail.as_str());
    s
}

/// Reads a clause's right-hand side: quoted text, a number, or text.
fn parse_where_value<F: Fn(&str) -> bool>(raw: &Vec<char>, is_number: &F) -> (r: (bool, String))
    requires
        forall|s: &str| is_number.requires((s,)),
    ensures
        forall|d: spec_fn(Seq<char>) -> bool| #[trigger] tells(*is_number, d) ==> (r.0, r.1@) == where_value(raw@, d),
{
    let t = trim_chars(raw);
    let n = t.len();
    if n >= 2 && ((t[0] == '"' && t[n - 1] == '"') || (t[0] == '\'' && t[n - 1] == '\'')) {
        let inner = sub_chars(&t, 1, n - 1);
        return (false, string_of(inner.as_slice()));
    }
    let text = string_of(t.as_slice());
    let shown = text.as_str();
    let number = is_number(shown);
    proof {
        assert forall|d: spec_fn(Seq<char>) -> bool| #[trigger] tells(*is_number, d) implies number == d(t@) by {
            assert(is_number.ensures((shown,), number));
        }
    }
    (number, text)
}

/// The nonempty trimmed field names of the pieces.
fn names_of(pieces: &Vec<Vec<char>>) -> (r: Vec<String>)
    ensures
        texts_view(r@) == field_names(Seq::new(pieces@.len(), |i: int| pieces@[i]@)),
{
    let ghost all = Seq::new(pieces@.len(), |i: int| pieces@[i]@);
    let mut names: Vec<String> = Vec::new();
    let mut i: usize = 0;
    assert(all.take(0) =~= Seq::<Seq<char>>::empty());
    assert(texts_view(names@) =~= Seq::<Seq<char>>::empty());
    while i < pieces.len()
        invariant
            i <= pieces@.len(),
            all == Seq::new(pieces@.len(), |q: int| pieces@[q]@),
            texts_view(names@) == field_names(all.take(i as int)),
        decreases pieces@.len() - i,
    {
        let t = trim_chars(&pieces[i]);
        assert(all.take(i + 1).drop_last() =~= all.take(i as int));
        assert(all.take(i + 1).last() == pieces@[i as int]@);
        if t.len() > 0 {
            let ghost before = texts_view(names@);
            names.push(string_of(t.as_slice()));
            assert(texts_view(names@) =~= before.push(t@));
        }
        i = i + 1;
    }
    assert(all.take(pieces@.len() as int) =~= all);
    names
}

/// Reads one `field op value` clause.
fn parse_clause<F: Fn(&str) -> bool>(token: &Vec<char>, is_number: &F) -> (r: Result<WhereClause, String>)
    requires
        forall|s: &str| is_number.requires((s,)),
    ensures
        forall|d: spec_fn(Seq<char>) -> bool| #[trigger] tells(*is_number, d) ==> match clause_of(token@, d) {
            Ok(c) => r matches Ok(x) && x@ == c,
            Err(m) => r matches Err(e) && e@ == m,
        },
{
    let clause = trim_chars(token);
    if clause.len() == 0 {
        return Err(String::from_str("empty where clause"));
    }
    let mut k: usize = 0;
    let mut at: usize = 0;
    let mut found = false;
    while k < 7
        invariant
            k <= 7,
            first_op(clause@, 0) == first_op(clause@, k as int),
            found ==> k < 7 && first_op(clause@, 0) == k && find_text(clause@, op_symbol(k as int)) == at,
        ensures
            found ==> k < 7 && first_op(clause@, 0) == k && find_text(clause@, op_symbol(k as int)) == at,
            !found ==> first_op(clause@, 0) == -1,
        decreases 7 - k,
    {
        let sym = symbol_chars(k);
        assert(clause@.skip(0) =~= clause@);
        match find_chars(&clause, &sym, 0) {
            Some(pos) => {
                at = pos;
                found = true;
                break;
            },
            None => {
                k = k + 1;
            },
        }
    }
    if !found {
        return Err(message_with("invalid where clause: ", &clause));
    }
    let sym = symbol_chars(k);
    proof {
        lemma_find_text(clause@, op_symbol(k as int));
    }
    let lhs = trim_chars(&sub_chars(&clause, 0, at));
    let rhs = trim_chars(&sub_chars(&clause, at + sym.len(), clause.len()));
    assert(clause@.subrange(0, at as int) =~= clause@.take(at as int));
    assert(clause@.subrange(at + sym@.len(), clause@.len() as int) =~= clause@.skip(at + op_symbol(k as int).len()));
    if lhs.len() == 0 || rhs.len() == 0 {
        return Err(message_with("invalid where clause: ", &clause));
    }
    let dot = vec!['.'];
    assert(dot@ =~= seq!['.']);
    let pieces = split_chars(&lhs, &dot);
    let names = names_of(&pieces);
    if names.len() == 0 {
        return Err(message_with("invalid where field path: ", &lhs));
    }
    let (number, text) = parse_where_value(&rhs, is_number);
    let op = op_at(k);
    let value_regex = if op == WhereOp::Regex {
        if number {
            return Err(String::from_str("where regex operator expects text value"));
        }
        match compile_pattern(text.as_str()) {
            Ok(p) => Some(p),
            Err(e) => {
                let mut m = String::from_str("invalid where regex: ");
                m.append(e.as_str());
                return Err(m);
            },
        }
    } else {
        None
    };
    let value = if number { WhereValue::Number(text) } else { WhereValue::Text(text) };
    Ok(WhereClause { field_path: names, op, value, value_regex })
}

/// Reads a where expression: clauses joined by `&&`. `is_number` tells
/// whether a value's text reads as a floating-point number; the clauses read
/// are the same for every function it answers by.
pub fn parse_where_expr<F: Fn(&str) -> bool>(raw: &str, is_number: &F) -> (r: Result<Vec<WhereClause>, String>)
    requires
        forall|s: &str| is_number.requires((s,)),
    ensures
        forall|d: spec_fn(Seq<char>) -> bool| #[trigger] tells(*is_number, d) ==> match where_clauses(raw@, d) {
            Ok(cs) => r matches Ok(v) && clauses_view(v@) == cs,
            Err(m) => r matches Err(e) && e@ == m,
        },
{
    let cs = chars_of(raw);
    let amps = vec!['&', '&'];
    assert(amps@ =~= seq!['&', '&']);
    let tokens = split_chars(&cs, &amps);
    let ghost ts = Seq::new(tokens@.len(), |i: int| tokens@[i]@);
    let mut clauses: Vec<WhereClause> = Vec::new();
    let mut i: usize = 0;
    assert(ts.take(0) =~= Seq::<Seq<char>>::empty());
    assert(clauses_view(clauses@) =~= Seq::<ClauseView>::empty());
    while i < tokens.len()
        invariant
            i <= tokens@.len(),
            ts == Seq::new(tokens@.len(), |q: int| tokens@[q]@),
            ts == split_on(raw@, seq!['&', '&']),
            forall|s: &str| is_number.requires((s,)),
            forall|d: spec_fn(Seq<char>) -> bool| #[trigger] tells(*is_number, d)
                ==> clauses_of(ts.take(i as int), d) == Ok::<Seq<ClauseView>, Seq<char>>(clauses_view(clauses@)),
        decreases tokens@.len() - i,
    {
        assert(ts.take(i + 1).drop_last() =~= ts.take(i as int));
        assert(ts.take(i + 1).last() == tokens@[i as int]@);
        match parse_clause(&tokens[i], is_number) {
            Err(e) => {
                proof {
                    assert forall|d: spec_fn(Seq<char>) -> bool| #[trigger] tells(*is_number, d) implies
                        clauses_of(ts, d) == Err::<Seq<ClauseView>, Seq<char>>(e@) by {
                        lemma_clauses_error(ts, i + 1, d);
                    }
                }
                return Err(e);
            },
            Ok(c) => {
                let ghost before = clauses_view(clauses@);
                clauses.push(c);
                assert(clauses_view(clauses@) =~= before.push(c@));
            },
        }
        i = i + 1;
    }
    assert(ts.take(tokens@.len() as int) =~= ts);
    if clauses.len() == 0 {
        return Err(String::from_str("where expression is empty"));
    }
    Ok(clauses)
}

/// The value that the field names lead to inside an element, if each step
/// is a compound with that field.
pub fn lookup_compound_field<'a>(value: &'a NbtValue, field_path: &Vec<String>) -> (r: Option<&'a NbtValue>)
    ensures
        match lookup(value@, Seq::new(field_path@.len(), |i: int| Seg::Field(field_path@[i]@))) {
            Ok(t) => r matches Some(x) && x@ == t,
            Err(_) => r is None,
        },
{
    let mut segments: Vec<PathSegment> = Vec::new();
    let mut i: usize = 0;
    while i < field_path.len()
        invariant
            i <= field_path@.len(),
            segs_of(segments@) == Seq::new(i as nat, |q: int| Seg::Field(field_path@[q]@)),
        decreases field_path@.len() - i,
    {
        let name = field_path[i].clone();
        let ghost before = segs_of(segments@);
        segments.push(PathSegment::Field(name));
        assert(segs_of(segments@) =~= before.push(Seg::Field(field_path@[i as int]@)));
        i = i + 1;
        assert(segs_of(segments@) =~= Seq::new(i as nat, |q: int| Seg::Field(field_path@[q]@)));
    }
    match find_ref(value, segments.as_slice()) {
        Ok(x) => Some(x),
        Err(_) => None,
    }
}

} // verus!
