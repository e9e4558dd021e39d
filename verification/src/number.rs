//! Reading integers and integer lists from command-line text, as `str::parse`
//! reads them for the integer types.
use vstd::prelude::*;
use crate::editor::trim;
use crate::filter::{split_chars, split_on, trim_chars};
use crate::text::{chars_of, digit_value, is_digit, push_char};

verus! {

/// Why integer text does not read.
#[derive(Debug, Clone, Copy, PartialEq, Eq, Structural)]
pub enum IntFault {
    Empty,
    InvalidDigit,
    PosOverflow,
    NegOverflow,
}

/// The message that `std` gives for each fault.
pub open spec fn int_fault_message(f: IntFault) -> Seq<char> {
    match f {
        IntFault::Empty => "cannot parse integer from empty string"@,
        IntFault::InvalidDigit => "invalid digit found in string"@,
        IntFault::PosOverflow => "number too large to fit in target type"@,
        IntFault::NegOverflow => "number too small to fit in target type"@,
    }
}

/// Reading the digits `ds[i..]` onto `acc`, left to right, within `min..=max`.
pub open spec fn fold_digits(ds: Seq<char>, i: int, acc: int, neg: bool, min: int, max: int) -> Result<int, IntFault>
    decreases ds.len() - i,
{
    if i < 0 || i >= ds.len() {
        Ok(acc)
    } else if !is_digit(ds[i]) {
        Err(IntFault::InvalidDigit)
    } else {
        let next = if neg { acc * 10 - digit_value(ds[i]) } else { acc * 10 + digit_value(ds[i]) };
        if next > max {
            Err(IntFault::PosOverflow)
        } else if next < min {
            Err(IntFault::NegOverflow)
        } else {
            fold_digits(ds, i + 1, next, neg, min, max)
        }
    }
}

/// What `str::parse` gives for decimal integer text of a type with the range
/// `min..=max` (signed when `min < 0`): an optional sign, then digits.
pub open spec fn parse_int(cs: Seq<char>, min: int, max: int) -> Result<int, IntFault> {
    if cs.len() == 0 {
        Err(IntFault::Empty)
    } else if (cs[0] == '+' || cs[0] == '-') && cs.len() == 1 {
        Err(IntFault::InvalidDigit)
    } else if cs[0] == '+' {
        fold_digits(cs, 1, 0, false, min, max)
    } else if cs[0] == '-' && min < 0 {
        fold_digits(cs, 1, 0, true, min, max)
    } else {
        fold_digits(cs, 0, 0, false, min, max)
    }
}

/// Reads decimal integer text within `min..=max`.
fn parse_int_chars(cs: &Vec<char>, min: i64, max: i64) -> (r: Result<i64, IntFault>)
    requires
        min <= 0 <= max,
    ensures
        match parse_int(cs@, min as int, max as int) {
            Ok(v) => r == Ok::<i64, IntFault>(v as i64) && min <= v <= max,
            Err(f) => r == Err::<i64, IntFault>(f),
        },
{
    let n = cs.len();
    if n == 0 {
        return Err(IntFault::Empty);
    }
    if (cs[0] == '+' || cs[0] == '-') && n == 1 {
        return Err(IntFault::InvalidDigit);
    }
    let mut i: usize = 0;
    let mut neg = false;
    if cs[0] == '+' {
        i = 1;
    } else if cs[0] == '-' && min < 0 {
        i = 1;
        neg = true;
    }
    let ghost start = i as int;
    let mut acc: i128 = 0;
    while i < n
        invariant
            i <= n == cs@.len(),
            min <= acc <= max,
            min <= 0 <= max,
            parse_int(cs@, min as int, max as int) == fold_digits(cs@, i as int, acc as int, neg, min as int, max as int),
        decreases n - i,
    {
        let c = cs[i];
        if !('0' <= c && c <= '9') {
            return Err(IntFault::InvalidDigit);
        }
        let d = (c as u32 - '0' as u32) as i128;
        assert(d == digit_value(c));
        let next = if neg { acc * 10 - d } else { acc * 10 + d };
        if next > max as i128 {
            return Err(IntFault::PosOverflow);
        }
        if next < min as i128 {
            return Err(IntFault::NegOverflow);
        }
        acc = next;
        i = i + 1;
    }
    Ok(acc as i64)
}

/// The message of a fault.
fn fault_text(f: IntFault) -> (m: String)
    ensures
        m@ == int_fault_message(f),
{
    match f {
        IntFault::Empty => String::from_str("cannot parse integer from empty string"),
        IntFault::InvalidDigit => String::from_str("invalid digit found in string"),
        IntFault::PosOverflow => String::from_str("number too large to fit in target type"),
        IntFault::NegOverflow => String::from_str("number too small to fit in target type"),
    }
}

/// Reads trimmed decimal integer text within `min..=max`, with `std`'s message
/// on failure.
pub fn parse_trimmed_int(raw: &str, min: i64, max: i64) -> (r: Result<i64, String>)
    requires
        min <= 0 <= max,
    ensures
        match parse_int(trim(raw@), min as int, max as int) {
            Ok(v) => r == Ok::<i64, String>(v as i64) && min <= v <= max,
            Err(f) => r matches Err(m) && m@ == int_fault_message(f),
        },
{
    let cs = chars_of(raw);
    let t = trim_chars(&cs);
    match parse_int_chars(&t, min, max) {
        Ok(v) => Ok(v),
        Err(f) => Err(fault_text(f)),
    }
}

/// The message for one list item that does not read.
pub open spec fn item_message(token: Seq<char>, f: IntFault) -> Seq<char> {
    "failed to parse '"@ + token + "': "@ + int_fault_message(f)
}

/// The items of a list's inner text: each piece between commas, trimmed and
/// read, or the first piece's error.
pub open spec fn list_items(pieces: Seq<Seq<char>>, min: int, max: int) -> Result<Seq<int>, Seq<char>>
    decreases pieces.len(),
{
    if pieces.len() == 0 {
        Ok(Seq::empty())
    } else {
        match list_items(pieces.drop_last(), min, max) {
            Err(m) => Err(m),
            Ok(vs) => match parse_int(trim(pieces.last()), min, max) {
                Err(f) => Err(item_message(trim(pieces.last()), f)),
                Ok(v) => Ok(vs.push(v)),
            },
        }
    }
}

/// What a number list reads as: an optional pair of brackets around items
/// separated by commas; blank inner text is the empty list.
pub open spec fn number_list(raw: Seq<char>, min: int, max: int) -> Result<Seq<int>, Seq<char>> {
    let t = trim(raw);
    if t.len() > 0 && t[0] == '[' && !(t.last() == ']') {
        Err("array literal is missing closing ']'"@)
    } else {
        let inner = if t.len() > 0 && t[0] == '[' { t.subrange(1, t.len() - 1) } else { t };
        if trim(inner).len() == 0 {
            Ok(Seq::empty())
        } else {
            list_items(split_on(inner, seq![',']), min, max)
        }
    }
}

/// Reads a number list within `min..=max`.
pub fn parse_number_list(raw: &str, min: i64, max: i64) -> (r: Result<Vec<i64>, String>)
    requires
        min <= 0 <= max,
    ensures
        match number_list(raw@, min as int, max as int) {
            Ok(vs) => r matches Ok(v) && v@.len() == vs.len() && forall|i: int| 0 <= i < vs.len() ==> v@[i] == vs[i],
            Err(m) => r matches Err(e) && e@ == m,
        },
{
    let cs = chars_of(raw);
    let t = trim_chars(&cs);
    let n = t.len();
    if n > 0 && t[0] == '[' && !(t[n - 1] == ']') {
        return Err(String::from_str("array literal is missing closing ']'"));
    }
    let inner = if n > 0 && t[0] == '[' {
        let mut v: Vec<char> = Vec::new();
        let mut k: usize = 1;
        while k < n - 1
            invariant
                1 <= k <= n - 1 || (n == 1 && k == 1),
                n == t@.len(),
                n >= 1,
                v@ == t@.subrange(1, k as int),
            decreases n - k,
        {
            v.push(t[k]);
            k = k + 1;
            assert(v@ =~= t@.subrange(1, k as int));
        }
        v
    } else {
        t
    };
    let blank = trim_chars(&inner);
    if blank.len() == 0 {
        return Ok(Vec::new());
    }
    let comma = vec![','];
    assert(comma@ =~= seq![',']);
    let pieces = split_chars(&inner, &comma);
    let ghost ps = Seq::new(pieces@.len(), |i: int| pieces@[i]@);
    let mut out: Vec<i64> = Vec::new();
    let mut i: usize = 0;
    assert(ps.take(0) =~= Seq::<Seq<char>>::empty());
    assert(number_list(raw@, min as int, max as int) == list_items(ps, min as int, max as int));
    while i < pieces.len()
        invariant
            i <= pieces@.len(),
            ps == Seq::new(pieces@.len(), |q: int| pieces@[q]@),
            min <= 0 <= max,
            number_list(raw@, min as int, max as int) == list_items(ps, min as int, max as int),
            list_items(ps.take(i as int), min as int, max as int) matches Ok(vs) && out@.len() == vs.len()
                && forall|q: int| 0 <= q < vs.len() ==> out@[q] == vs[q],
        decreases pieces@.len() - i,
    {
        assert(ps.take(i + 1).drop_last() =~= ps.take(i as int));
        assert(ps.take(i + 1).last() == pieces@[i as int]@);
        let token = trim_chars(&pieces[i]);
        match parse_int_chars(&token, min, max) {
            Ok(v) => {
                out.push(v);
            },
            Err(f) => {
                let mut m = String::from_str("failed to parse '");
                let mut k: usize = 0;
                let ghost base = m@;
                while k < token.len()
                    invariant
                        k <= token@.len(),
                        m@ == base + token@.take(k as int),
                    decreases token@.len() - k,
                {
                    push_char(&mut m, token[k]);
                    k = k + 1;
                    assert(m@ =~= base + token@.take(k as int));
                }
                assert(token@.take(token@.len() as int) =~= token@);
                m.append("': ");
                let tail = fault_text(f);
                m.append(tail.as_str());
                proof {
                    assert(m@ =~= item_message(token@, f));
                    assert(list_items(ps.take(i + 1), min as int, max as int) == Err::<Seq<int>, Seq<char>>(item_message(token@, f)));
                    lemma_items_error(ps, i as int + 1, min as int, max as int);
                }
                return Err(m);
            },
        }
        i = i + 1;
    }
    assert(ps.take(pieces@.len() as int) =~= ps);
    Ok(out)
}

/// An error among the first pieces is the error of them all.
proof fn lemma_items_error(ps: Seq<Seq<char>>, i: int, min: int, max: int)
    requires
        0 <= i <= ps.len(),
        list_items(ps.take(i), min, max) is Err,
    ensures
        list_items(ps, min, max) == list_items(ps.take(i), min, max),
    decreases ps.len() - i,
{
    if i < ps.len() {
        assert(ps.take(i + 1).drop_last() =~= ps.take(i));
        lemma_items_error(ps, i + 1, min, max);
    } else {
        assert(ps.take(i) =~= ps);
    }
}

} // verus!
