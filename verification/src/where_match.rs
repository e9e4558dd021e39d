//! Whether a list element satisfies `--where` clauses. Comparing numbers is
//! done by the caller's function, which orders a value against a number's
//! text; the rest (finding the field, comparing text, matching patterns) is
//! here.
use vstd::prelude::*;
use crate::edit::{chars_equal, lookup};
use crate::filter::{lookup_compound_field, ClauseView, WhereClause, WhereOp, WhereValue};
use crate::path::Seg;
use crate::select::regex_is_match;
use crate::text::chars_of;
use crate::tree::{NbtTree, NbtValue};

verus! {

/// Whether a value is a number: a byte, short, int, long, float or double.
pub open spec fn is_numeric(t: NbtTree) -> bool {
    t is Byte || t is Short || t is Int || t is Long || t is Float || t is Double
}

/// Whether `f` orders values against number texts as `d` does: `None` when
/// the text is no number, `Some(-1)`, `Some(0)` or `Some(1)` when the value
/// is less than, equal to or greater than it, and `Some(2)` when the two are
/// unordered.
pub open spec fn orders<F: Fn(&NbtValue, &str) -> Option<i8>>(
    f: F,
    d: spec_fn(NbtTree, Seq<char>) -> Option<i8>,
) -> bool {
    forall|v: &NbtValue, s: &str, r: Option<i8>| #[trigger] f.ensures((v, s), r) ==> r == d(v@, s@)
}

/// The path of a clause's field names.
pub open spec fn field_segs(path: Seq<Seq<char>>) -> Seq<Seg> {
    Seq::new(path.len(), |i: int| Seg::Field(path[i]))
}

/// Whether the element `v` satisfies the clause `c`, numbers being ordered
/// by `order`. The clause's field must exist. A number clause compares a
/// numeric field by `order`; a text clause compares a string field by `==`
/// and `!=`; `~=` matches a string field against the pattern. Any other
/// pairing does not hold.
pub open spec fn clause_holds(v: NbtTree, c: ClauseView, order: spec_fn(NbtTree, Seq<char>) -> Option<i8>) -> bool {
    match lookup(v, field_segs(c.path)) {
        Err(_) => false,
        Ok(x) => {
            let num = c.number && is_numeric(x) && order(x, c.text) is Some;
            let o = order(x, c.text)->Some_0;
            let txt = !c.number && x is String;
            match c.op {
                WhereOp::Eq => if num { o == 0 } else { txt && x->String_0 == c.text },
                WhereOp::Ne => if num { o != 0 } else { txt && x->String_0 != c.text },
                WhereOp::Lt => num && o == -1,
                WhereOp::Le => num && (o == -1 || o == 0),
                WhereOp::Gt => num && o == 1,
                WhereOp::Ge => num && (o == 1 || o == 0),
                WhereOp::Regex => c.pattern is Some && x is String && regex_is_match(
                    c.pattern->Some_0,
                    x->String_0,
                ),
            }
        },
    }
}

/// Whether `value` satisfies `clause`; `number_order` orders a numeric value
/// against a number's text.
pub fn where_clause_matches<F: Fn(&NbtValue, &str) -> Option<i8>>(
    value: &NbtValue,
    clause: &WhereClause,
    number_order: &F,
) -> (b: bool)
    requires
        forall|v: &NbtValue, s: &str| number_order.requires((v, s)),
    ensures
        forall|d: spec_fn(NbtTree, Seq<char>) -> Option<i8>| #[trigger] orders(*number_order, d) ==> b
            == clause_holds(value@, clause@, d),
{
    assert(field_segs(clause@.path) =~= Seq::new(
        clause.field_path@.len(),
        |i: int| Seg::Field(clause.field_path@[i]@),
    ));
    let target = match lookup_compound_field(value, &clause.field_path) {
        Some(t) => t,
        None => return false,
    };
    let numeric = match target {
        NbtValue::Byte(_) | NbtValue::Short(_) | NbtValue::Int(_) | NbtValue::Long(_) | NbtValue::Float(_)
        | NbtValue::Double(_) => true,
        _ => false,
    };
    let order: Option<i8> = match &clause.value {
        WhereValue::Number(t) => if numeric { number_order(target, t.as_str()) } else { None },
        WhereValue::Text(_) => None,
    };
    let same_text: Option<bool> = match (&clause.value, target) {
        (WhereValue::Text(e), NbtValue::String(a)) => Some(chars_equal(&chars_of(a.as_str()), &chars_of(e.as_str()))),
        _ => None,
    };
    match clause.op {
        WhereOp::Eq => match (order, same_text) {
            (Some(o), _) => o == 0,
            (None, Some(s)) => s,
            _ => false,
        },
        WhereOp::Ne => match (order, same_text) {
            (Some(o), _) => o != 0,
            (None, Some(s)) => !s,
            _ => false,
        },
        WhereOp::Lt => order == Some(-1i8),
        WhereOp::Le => order == Some(-1i8) || order == Some(0i8),
        WhereOp::Gt => order == Some(1i8),
        WhereOp::Ge => order == Some(1i8) || order == Some(0i8),
        WhereOp::Regex => match (&clause.value_regex, target) {
            (Some(pattern), NbtValue::String(actual)) => pattern.is_match(actual.as_str()),
            _ => false,
        },
    }
}

/// Whether `value` satisfies every clause; `number_order` orders a numeric
/// value against a number's text.
pub fn where_matches_all<F: Fn(&NbtValue, &str) -> Option<i8>>(
    value: &NbtValue,
    clauses: &[WhereClause],
    number_order: &F,
) -> (b: bool)
    requires
        forall|v: &NbtValue, s: &str| number_order.requires((v, s)),
    ensures
        forall|d: spec_fn(NbtTree, Seq<char>) -> Option<i8>| #[trigger] orders(*number_order, d) ==> (b <==> forall|
            i: int,
        | 0 <= i < clauses@.len() ==> clause_holds(value@, #[trigger] clauses@[i]@, d)),
{
    let mut i: usize = 0;
    while i < clauses.len()
        invariant
            i <= clauses@.len(),
            forall|v: &NbtValue, s: &str| number_order.requires((v, s)),
            forall|d: spec_fn(NbtTree, Seq<char>) -> Option<i8>| #[trigger] orders(*number_order, d) ==> forall|
                k: int,
            | 0 <= k < i ==> clause_holds(value@, #[trigger] clauses@[k]@, d),
        decreases clauses@.len() - i,
    {
        if !where_clause_matches(value, &clauses[i], number_order) {
            return false;
        }
        i = i + 1;
    }
    true
}

/// How a clause judges an element, stated apart from [`clause_holds`]'s
/// shape. A clause whose field is missing never holds (`!=` included). On a
/// numeric field, a number clause holds for `>` exactly when the caller's
/// order says the value is strictly greater, for `<` strictly less, for `>=`
/// and `<=` when greater or less or equal, for `==` when equal, and for `!=`
/// when it says anything but equal (unordered values included). On a string
/// field, a text clause holds for `==` exactly when the texts are the same and
/// for `!=` when they differ, and no ordering clause holds.
pub proof fn lemma_clause_meaning(v: NbtTree, c: ClauseView, order: spec_fn(NbtTree, Seq<char>) -> Option<i8>)
    ensures
        lookup(v, field_segs(c.path)) is Err ==> !clause_holds(v, c, order),
        lookup(v, field_segs(c.path)) matches Ok(x) ==> {
            &&& (c.number && is_numeric(x) && order(x, c.text) is Some) ==> {
                let o = order(x, c.text)->Some_0;
                &&& c.op == WhereOp::Gt ==> (clause_holds(v, c, order) <==> o == 1)
                &&& c.op == WhereOp::Lt ==> (clause_holds(v, c, order) <==> o == -1)
                &&& c.op == WhereOp::Ge ==> (clause_holds(v, c, order) <==> (o == 1 || o == 0))
                &&& c.op == WhereOp::Le ==> (clause_holds(v, c, order) <==> (o == -1 || o == 0))
                &&& c.op == WhereOp::Eq ==> (clause_holds(v, c, order) <==> o == 0)
                &&& c.op == WhereOp::Ne ==> (clause_holds(v, c, order) <==> o != 0)
            }
            &&& (!c.number && x is String) ==> {
                let s = x->String_0;
                &&& c.op == WhereOp::Eq ==> (clause_holds(v, c, order) <==> s == c.text)
                &&& c.op == WhereOp::Ne ==> (clause_holds(v, c, order) <==> s != c.text)
                &&& (c.op == WhereOp::Gt || c.op == WhereOp::Lt || c.op == WhereOp::Ge || c.op == WhereOp::Le)
                    ==> !clause_holds(v, c, order)
            }
            &&& (c.number && is_numeric(x) && order(x, c.text) is None) ==> (c.op != WhereOp::Regex
                ==> !clause_holds(v, c, order))
        },
{
}

/// When the caller's order says a numeric field equals a number clause's
/// value, `>` and `<` fail while `>=`, `<=` and `==` hold.
pub proof fn lemma_equal_numbers(v: NbtTree, c: ClauseView, order: spec_fn(NbtTree, Seq<char>) -> Option<i8>)
    requires
        c.number,
        lookup(v, field_segs(c.path)) matches Ok(x) && is_numeric(x) && order(x, c.text) == Some(0i8),
    ensures
        !clause_holds(v, ClauseView { op: WhereOp::Gt, ..c }, order),
        !clause_holds(v, ClauseView { op: WhereOp::Lt, ..c }, order),
        clause_holds(v, ClauseView { op: WhereOp::Ge, ..c }, order),
        clause_holds(v, ClauseView { op: WhereOp::Le, ..c }, order),
        clause_holds(v, ClauseView { op: WhereOp::Eq, ..c }, order),
        !clause_holds(v, ClauseView { op: WhereOp::Ne, ..c }, order),
{
}

} // verus!
