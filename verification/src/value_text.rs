//! Values typed on the command line: `kind:value` for a value to create, or
//! text read as the kind of the value it replaces. Floating-point text is
//! read by the caller's functions, which give the bits or std's message.
use vstd::prelude::*;
use crate::codec::component_id;
use crate::edit::chars_equal;
use crate::editor::{first_index_of, lemma_first_index_is, lemma_first_index_of, trim};
use crate::filter::{string_of, sub_chars, trim_chars};
use crate::number::{fold_digits, int_fault_message, list_items, number_list, parse_int, parse_number_list, parse_trimmed_int};
use crate::filter::split_on;
use crate::tag_id;
use crate::text::{
    all_digits, chars_of, decimal, digit_value, digits_value, is_digit, lemma_decimal_digits, lemma_decimal_value, push_char,
    push_decimal, signed_decimal,
};
use crate::editor::{is_white_space, lemma_trim_end, lemma_trim_start, trim_end, trim_start};
use crate::number::IntFault;
use crate::tree::{NbtTree, NbtValue};

verus! {

/// A float reader's answer as text: the bits, or the message.
pub open spec fn bits_view<T>(r: Result<T, String>) -> Result<T, Seq<char>> {
    match r {
        Ok(b) => Ok(b),
        Err(e) => Err(e@),
    }
}

/// Whether `f` reads every text as `d` says (`f32` bits).
pub open spec fn reads_f32<F: Fn(&str) -> Result<u32, String>>(
    f: F,
    d: spec_fn(Seq<char>) -> Result<u32, Seq<char>>,
) -> bool {
    forall|s: &str, r: Result<u32, String>| #[trigger] f.ensures((s,), r) ==> bits_view(r) == d(s@)
}

/// Whether `f` reads every text as `d` says (`f64` bits).
pub open spec fn reads_f64<F: Fn(&str) -> Result<u64, String>>(
    f: F,
    d: spec_fn(Seq<char>) -> Result<u64, Seq<char>>,
) -> bool {
    forall|s: &str, r: Result<u64, String>| #[trigger] f.ensures((s,), r) ==> bits_view(r) == d(s@)
}

/// The message for a value that holds others.
pub open spec fn leaf_only_message() -> Seq<char> {
    "only leaf values can be modified by --set"@
}

/// An integer of kind `name` read from `text`, within `min..=max`.
pub open spec fn int_value(text: Seq<char>, min: int, max: int, name: Seq<char>) -> Result<int, Seq<char>> {
    match parse_int(trim(text), min, max) {
        Ok(v) => Ok(v),
        Err(f) => Err("invalid "@ + name + ": "@ + int_fault_message(f)),
    }
}

/// A value of kind `id` read from `text`; `d32` and `d64` read float text.
pub open spec fn leaf_value(
    id: u8,
    text: Seq<char>,
    d32: spec_fn(Seq<char>) -> Result<u32, Seq<char>>,
    d64: spec_fn(Seq<char>) -> Result<u64, Seq<char>>,
) -> Result<NbtTree, Seq<char>> {
    if id == tag_id::BYTE {
        match int_value(text, -128, 127, "byte"@) {
            Ok(v) => Ok(NbtTree::Byte(v as i8)),
            Err(m) => Err(m),
        }
    } else if id == tag_id::SHORT {
        match int_value(text, -32768, 32767, "short"@) {
            Ok(v) => Ok(NbtTree::Short(v as i16)),
            Err(m) => Err(m),
        }
    } else if id == tag_id::INT {
        match int_value(text, i32::MIN as int, i32::MAX as int, "int"@) {
            Ok(v) => Ok(NbtTree::Int(v as i32)),
            Err(m) => Err(m),
        }
    } else if id == tag_id::LONG {
        match int_value(text, i64::MIN as int, i64::MAX as int, "long"@) {
            Ok(v) => Ok(NbtTree::Long(v as i64)),
            Err(m) => Err(m),
        }
    } else if id == tag_id::FLOAT {
        match d32(trim(text)) {
            Ok(b) => Ok(NbtTree::Float(b)),
            Err(m) => Err("invalid float: "@ + m),
        }
    } else if id == tag_id::DOUBLE {
        match d64(trim(text)) {
            Ok(b) => Ok(NbtTree::Double(b)),
            Err(m) => Err("invalid double: "@ + m),
        }
    } else if id == tag_id::STRING {
        Ok(NbtTree::String(text))
    } else if id == tag_id::BYTE_ARRAY {
        match number_list(text, 0, 255) {
            Ok(vs) => Ok(NbtTree::ByteArray(vs.map_values(|v: int| v as u8))),
            Err(m) => Err(m),
        }
    } else if id == tag_id::INT_ARRAY {
        match number_list(text, i32::MIN as int, i32::MAX as int) {
            Ok(vs) => Ok(NbtTree::IntArray(vs.map_values(|v: int| v as i32))),
            Err(m) => Err(m),
        }
    } else if id == tag_id::LONG_ARRAY {
        match number_list(text, i64::MIN as int, i64::MAX as int) {
            Ok(vs) => Ok(NbtTree::LongArray(vs.map_values(|v: int| v as i64))),
            Err(m) => Err(m),
        }
    } else if id == tag_id::LIST || id == tag_id::COMPOUND {
        Err(leaf_only_message())
    } else {
        Err("unsupported tag id: "@ + decimal(id as nat))
    }
}

/// Reads an integer of kind `name` within `min..=max`.
fn int_of(raw: &str, min: i64, max: i64, name: &str) -> (r: Result<i64, String>)
    requires
        min <= 0 <= max,
    ensures
        match int_value(raw@, min as int, max as int, name@) {
            Ok(v) => r == Ok::<i64, String>(v as i64) && min <= v <= max,
            Err(m) => r matches Err(e) && e@ == m,
        },
{
    match parse_trimmed_int(raw, min, max) {
        Ok(v) => Ok(v),
        Err(f) => {
            let mut m = String::from_str("invalid ");
            m.append(name);
            m.append(": ");
            m.append(f.as_str());
            Err(m)
        },
    }
}

proof fn lemma_fold_range(ds: Seq<char>, i: int, acc: int, neg: bool, min: int, max: int)
    requires
        min <= acc <= max,
    ensures
        fold_digits(ds, i, acc, neg, min, max) matches Ok(v) ==> min <= v <= max,
    decreases ds.len() - i,
{
    if 0 <= i < ds.len() {
        let d = crate::text::digit_value(ds[i]);
        let next = if neg { acc * 10 - d } else { acc * 10 + d };
        if min <= next <= max {
            lemma_fold_range(ds, i + 1, next, neg, min, max);
        }
    }
}

proof fn lemma_int_range(cs: Seq<char>, min: int, max: int)
    requires
        min <= 0 <= max,
    ensures
        parse_int(cs, min, max) matches Ok(v) ==> min <= v <= max,
{
    lemma_fold_range(cs, 0, 0, false, min, max);
    lemma_fold_range(cs, 1, 0, false, min, max);
    lemma_fold_range(cs, 1, 0, true, min, max);
}

proof fn lemma_items_range(ps: Seq<Seq<char>>, min: int, max: int)
    requires
        min <= 0 <= max,
    ensures
        list_items(ps, min, max) matches Ok(vs) ==> forall|k: int| 0 <= k < vs.len() ==> min <= #[trigger] vs[k] <= max,
    decreases ps.len(),
{
    if ps.len() > 0 {
        lemma_items_range(ps.drop_last(), min, max);
        lemma_int_range(trim(ps.last()), min, max);
    }
}

/// The numbers of a list lie within its bounds.
proof fn lemma_list_range(raw: Seq<char>, min: int, max: int)
    requires
        min <= 0 <= max,
    ensures
        number_list(raw, min, max) matches Ok(vs) ==> forall|k: int| 0 <= k < vs.len() ==> min <= #[trigger] vs[k] <= max,
{
    let t = trim(raw);
    let inner = if t.len() > 0 && t[0] == '[' { t.subrange(1, t.len() - 1) } else { t };
    lemma_items_range(split_on(inner, seq![',']), min, max);
}

/// Reads a list of numbers within `min..=max`.
fn numbers_of(raw: &str, min: i64, max: i64) -> (r: Result<Vec<i64>, String>)
    requires
        min <= 0 <= max,
    ensures
        match number_list(raw@, min as int, max as int) {
            Ok(vs) => r matches Ok(v) && v@.len() == vs.len() && (forall|k: int| 0 <= k < vs.len() ==> v@[k] == vs[k])
                && (forall|k: int| 0 <= k < v@.len() ==> min <= #[trigger] v@[k] <= max),
            Err(m) => r matches Err(e) && e@ == m,
        },
{
    proof {
        lemma_list_range(raw@, min as int, max as int);
    }
    let r = parse_number_list(raw, min, max);
    proof {
        if number_list(raw@, min as int, max as int) is Ok && r is Ok {
            let vs = number_list(raw@, min as int, max as int)->Ok_0;
            let v = r->Ok_0@;
            assert forall|k: int| 0 <= k < v.len() implies min <= #[trigger] v[k] <= max by {
                assert(v[k] == vs[k]);
            }
        }
    }
    r
}

/// Reads a value of kind `id` from `raw`; `read_f32` and `read_f64` read the
/// trimmed float text, giving the bits or std's message.
fn leaf_of<F: Fn(&str) -> Result<u32, String>, G: Fn(&str) -> Result<u64, String>>(
    id: u8,
    raw: &str,
    read_f32: &F,
    read_f64: &G,
) -> (r: Result<NbtValue, String>)
    requires
        forall|s: &str| read_f32.requires((s,)),
        forall|s: &str| read_f64.requires((s,)),
    ensures
        forall|d32: spec_fn(Seq<char>) -> Result<u32, Seq<char>>, d64: spec_fn(Seq<char>) -> Result<u64, Seq<char>>|
            reads_f32(*read_f32, d32) && reads_f64(*read_f64, d64) ==> match leaf_value(id, raw@, d32, d64) {
                Ok(t) => r matches Ok(v) && v@ == t,
                Err(m) => r matches Err(e) && e@ == m,
            },
{
    if id == tag_id::BYTE {
        match int_of(raw, -128, 127, "byte") {
            Ok(v) => Ok(NbtValue::Byte(v as i8)),
            Err(m) => Err(m),
        }
    } else if id == tag_id::SHORT {
        match int_of(raw, -32768, 32767, "short") {
            Ok(v) => Ok(NbtValue::Short(v as i16)),
            Err(m) => Err(m),
        }
    } else if id == tag_id::INT {
        match int_of(raw, i32::MIN as i64, i32::MAX as i64, "int") {
            Ok(v) => Ok(NbtValue::Int(v as i32)),
            Err(m) => Err(m),
        }
    } else if id == tag_id::LONG {
        match int_of(raw, i64::MIN, i64::MAX, "long") {
            Ok(v) => Ok(NbtValue::Long(v)),
            Err(m) => Err(m),
        }
    } else if id == tag_id::FLOAT || id == tag_id::DOUBLE {
        let t = string_of(trim_chars(&chars_of(raw)).as_slice());
        if id == tag_id::FLOAT {
            match read_f32(t.as_str()) {
                Ok(b) => Ok(NbtValue::Float(b)),
                Err(e) => {
                    let mut m = String::from_str("invalid float: ");
                    m.append(e.as_str());
                    Err(m)
                },
            }
        } else {
            match read_f64(t.as_str()) {
                Ok(b) => Ok(NbtValue::Double(b)),
                Err(e) => {
                    let mut m = String::from_str("invalid double: ");
                    m.append(e.as_str());
                    Err(m)
                },
            }
        }
    } else if id == tag_id::STRING {
        Ok(NbtValue::String(string_of(chars_of(raw).as_slice())))
    } else if id == tag_id::BYTE_ARRAY {
        match numbers_of(raw, 0, 255) {
            Ok(vs) => {
                let mut out: Vec<u8> = Vec::new();
                let mut i: usize = 0;
                while i < vs.len()
                    invariant
                        i <= vs@.len(),
                        forall|k: int| 0 <= k < vs@.len() ==> 0 <= #[trigger] vs@[k] <= 255,
                        out@.len() == i,
                        forall|k: int| 0 <= k < i ==> out@[k] == vs@[k],
                    decreases vs@.len() - i,
                {
                    out.push(vs[i] as u8);
                    i = i + 1;
                }
                proof {
                    let nl = number_list(raw@, 0, 255)->Ok_0;
                    assert(out@ =~= nl.map_values(|v: int| v as u8));
                }
                Ok(NbtValue::ByteArray(out))
            },
            Err(m) => Err(m),
        }
    } else if id == tag_id::INT_ARRAY {
        match numbers_of(raw, i32::MIN as i64, i32::MAX as i64) {
            Ok(vs) => {
                let mut out: Vec<i32> = Vec::new();
                let mut i: usize = 0;
                while i < vs.len()
                    invariant
                        i <= vs@.len(),
                        forall|k: int| 0 <= k < vs@.len() ==> i32::MIN <= #[trigger] vs@[k] <= i32::MAX,
                        out@.len() == i,
                        forall|k: int| 0 <= k < i ==> out@[k] == vs@[k],
                    decreases vs@.len() - i,
                {
                    out.push(vs[i] as i32);
                    i = i + 1;
                }
                proof {
                    let nl = number_list(raw@, i32::MIN as int, i32::MAX as int)->Ok_0;
                    assert(out@ =~= nl.map_values(|v: int| v as i32));
                }
                Ok(NbtValue::IntArray(out))
            },
            Err(m) => Err(m),
        }
    } else if id == tag_id::LONG_ARRAY {
        match numbers_of(raw, i64::MIN, i64::MAX) {
            Ok(vs) => {
                proof {
                    let nl = number_list(raw@, i64::MIN as int, i64::MAX as int)->Ok_0;
                    assert(vs@ =~= nl.map_values(|v: int| v as i64));
                }
                Ok(NbtValue::LongArray(vs))
            },
            Err(m) => Err(m),
        }
    } else if id == tag_id::LIST || id == tag_id::COMPOUND {
        Err(String::from_str("only leaf values can be modified by --set"))
    } else {
        let mut m = String::from_str("unsupported tag id: ");
        push_decimal(&mut m, id as u64);
        Err(m)
    }
}

/// A value of the same kind as `target`, read from `raw`; `read_f32` and
/// `read_f64` read trimmed float text, giving the bits or std's message.
pub fn parse_value_like<F: Fn(&str) -> Result<u32, String>, G: Fn(&str) -> Result<u64, String>>(
    target: &NbtValue,
    raw: &str,
    read_f32: &F,
    read_f64: &G,
) -> (r: Result<NbtValue, String>)
    requires
        forall|s: &str| read_f32.requires((s,)),
        forall|s: &str| read_f64.requires((s,)),
    ensures
        forall|d32: spec_fn(Seq<char>) -> Result<u32, Seq<char>>, d64: spec_fn(Seq<char>) -> Result<u64, Seq<char>>|
            reads_f32(*read_f32, d32) && reads_f64(*read_f64, d64) ==> match leaf_value(
                crate::tree::tree_id(target@),
                raw@,
                d32,
                d64,
            ) {
                Ok(t) => r matches Ok(v) && v@ == t,
                Err(m) => r matches Err(e) && e@ == m,
            },
{
    leaf_of(component_id(target), raw, read_f32, read_f64)
}

/// The replacement for a leaf of kind `id`, read from `raw`; `read_f32` and
/// `read_f64` read trimmed float text, giving the bits or std's message.
pub fn parse_set_value_for_id<F: Fn(&str) -> Result<u32, String>, G: Fn(&str) -> Result<u64, String>>(
    id: u8,
    raw: &str,
    read_f32: &F,
    read_f64: &G,
) -> (r: Result<NbtValue, String>)
    requires
        forall|s: &str| read_f32.requires((s,)),
        forall|s: &str| read_f64.requires((s,)),
    ensures
        forall|d32: spec_fn(Seq<char>) -> Result<u32, Seq<char>>, d64: spec_fn(Seq<char>) -> Result<u64, Seq<char>>|
            reads_f32(*read_f32, d32) && reads_f64(*read_f64, d64) ==> match leaf_value(id, raw@, d32, d64) {
                Ok(t) => r matches Ok(v) && v@ == t,
                Err(m) => r matches Err(e) && e@ == m,
            },
{
    leaf_of(id, raw, read_f32, read_f64)
}

/// An ASCII capital letter made small; other characters stay.
pub open spec fn lower_char(c: char) -> char {
    if 'A' <= c && c <= 'Z' { ((c as u8) + 32) as char } else { c }
}

/// The text with ASCII capital letters made small.
pub open spec fn ascii_lower(s: Seq<char>) -> Seq<char> {
    s.map_values(|c: char| lower_char(c))
}

/// The tag id that a kind name of `--create` names, or 0.
pub open spec fn kind_of_name(k: Seq<char>) -> u8 {
    if k == "byte"@ {
        tag_id::BYTE
    } else if k == "short"@ {
        tag_id::SHORT
    } else if k == "int"@ {
        tag_id::INT
    } else if k == "long"@ {
        tag_id::LONG
    } else if k == "float"@ {
        tag_id::FLOAT
    } else if k == "double"@ {
        tag_id::DOUBLE
    } else if k == "string"@ {
        tag_id::STRING
    } else if k == "bytes"@ {
        tag_id::BYTE_ARRAY
    } else if k == "ints"@ {
        tag_id::INT_ARRAY
    } else if k == "longs"@ {
        tag_id::LONG_ARRAY
    } else {
        0
    }
}

/// The message for a kind name that `--create` does not know.
pub open spec fn unknown_kind_message(kind: Seq<char>) -> Seq<char> {
    "unsupported create type '"@ + kind
        + "', expected one of: byte, short, int, long, float, double, string, bytes, ints, longs"@
}

/// The value that `--create` text stands for: `kind:value` (the kind's name
/// in any ASCII case, both parts trimmed), or else, for the trimmed text, an
/// int, a long, a double (as `d64` reads it) or the text itself.
pub open spec fn created_value(
    raw: Seq<char>,
    d32: spec_fn(Seq<char>) -> Result<u32, Seq<char>>,
    d64: spec_fn(Seq<char>) -> Result<u64, Seq<char>>,
) -> Result<NbtTree, Seq<char>> {
    let t = trim(raw);
    let k = first_index_of(t, ':');
    if k >= 0 {
        let kind = ascii_lower(trim(t.take(k)));
        let id = kind_of_name(kind);
        if id == 0 {
            Err(unknown_kind_message(kind))
        } else {
            leaf_value(id, trim(t.skip(k + 1)), d32, d64)
        }
    } else if parse_int(trim(t), i32::MIN as int, i32::MAX as int) is Ok {
        Ok(NbtTree::Int(parse_int(trim(t), i32::MIN as int, i32::MAX as int)->Ok_0 as i32))
    } else if parse_int(trim(t), i64::MIN as int, i64::MAX as int) is Ok {
        Ok(NbtTree::Long(parse_int(trim(t), i64::MIN as int, i64::MAX as int)->Ok_0 as i64))
    } else {
        match d64(t) {
            Ok(b) => Ok(NbtTree::Double(b)),
            Err(_) => Ok(NbtTree::String(t)),
        }
    }
}

/// The characters with ASCII capital letters made small.
fn lower_chars(cs: &Vec<char>) -> (r: Vec<char>)
    ensures
        r@ == ascii_lower(cs@),
{
    let mut r: Vec<char> = Vec::new();
    let mut i: usize = 0;
    while i < cs.len()
        invariant
            i <= cs@.len(),
            r@ == cs@.take(i as int).map_values(|c: char| lower_char(c)),
        decreases cs@.len() - i,
    {
        let c = cs[i];
        let l = if 'A' <= c && c <= 'Z' { ((c as u8) + 32) as char } else { c };
        r.push(l);
        i = i + 1;
        assert(r@ =~= cs@.take(i as int).map_values(|c: char| lower_char(c)));
    }
    assert(cs@.take(cs@.len() as int) =~= cs@);
    r
}

/// The tag id that a kind name names, or 0.
fn kind_id(kind: &Vec<char>) -> (id: u8)
    ensures
        id == kind_of_name(kind@),
{
    if chars_equal(kind, &chars_of("byte")) {
        tag_id::BYTE
    } else if chars_equal(kind, &chars_of("short")) {
        tag_id::SHORT
    } else if chars_equal(kind, &chars_of("int")) {
        tag_id::INT
    } else if chars_equal(kind, &chars_of("long")) {
        tag_id::LONG
    } else if chars_equal(kind, &chars_of("float")) {
        tag_id::FLOAT
    } else if chars_equal(kind, &chars_of("double")) {
        tag_id::DOUBLE
    } else if chars_equal(kind, &chars_of("string")) {
        tag_id::STRING
    } else if chars_equal(kind, &chars_of("bytes")) {
        tag_id::BYTE_ARRAY
    } else if chars_equal(kind, &chars_of("ints")) {
        tag_id::INT_ARRAY
    } else if chars_equal(kind, &chars_of("longs")) {
        tag_id::LONG_ARRAY
    } else {
        0
    }
}

/// A value to create, read from `raw`: `kind:value`, or an int, a long, a
/// double or else a string; `read_f32` and `read_f64` read trimmed float
/// text, giving the bits or std's message.
pub fn parse_value_for_create<F: Fn(&str) -> Result<u32, String>, G: Fn(&str) -> Result<u64, String>>(
    raw: &str,
    read_f32: &F,
    read_f64: &G,
) -> (r: Result<NbtValue, String>)
    requires
        forall|s: &str| read_f32.requires((s,)),
        forall|s: &str| read_f64.requires((s,)),
    ensures
        forall|d32: spec_fn(Seq<char>) -> Result<u32, Seq<char>>, d64: spec_fn(Seq<char>) -> Result<u64, Seq<char>>|
            reads_f32(*read_f32, d32) && reads_f64(*read_f64, d64) ==> match created_value(raw@, d32, d64) {
                Ok(t) => r matches Ok(v) && v@ == t,
                Err(m) => r matches Err(e) && e@ == m,
            },
{
    let t = trim_chars(&chars_of(raw));
    let n = t.len();
    let mut k: usize = 0;
    while k < n && t[k] != ':'
        invariant
            k <= n == t@.len(),
            forall|j: int| 0 <= j < k ==> t@[j] != ':',
        decreases n - k,
    {
        k = k + 1;
    }
    proof {
        lemma_first_index_is(t@, ':', k as int);
    }
    if k < n {
        let kind = lower_chars(&trim_chars(&sub_chars(&t, 0, k)));
        let value = trim_chars(&sub_chars(&t, k + 1, n));
        proof {
            assert(t@.subrange(0, k as int) =~= t@.take(k as int));
            assert(t@.subrange(k + 1, n as int) =~= t@.skip(k + 1));
        }
        let id = kind_id(&kind);
        if id == 0 {
            let mut m = String::from_str("unsupported create type '");
            let name = string_of(kind.as_slice());
            m.append(name.as_str());
            m.append("', expected one of: byte, short, int, long, float, double, string, bytes, ints, longs");
            return Err(m);
        }
        let payload = string_of(value.as_slice());
        return leaf_of(id, payload.as_str(), read_f32, read_f64);
    }
    let text = string_of(t.as_slice());
    if let Ok(v) = parse_trimmed_int(text.as_str(), i32::MIN as i64, i32::MAX as i64) {
        return Ok(NbtValue::Int(v as i32));
    }
    if let Ok(v) = parse_trimmed_int(text.as_str(), i64::MIN, i64::MAX) {
        return Ok(NbtValue::Long(v));
    }
    match read_f64(text.as_str()) {
        Ok(b) => Ok(NbtValue::Double(b)),
        Err(_) => Ok(NbtValue::String(text)),
    }
}

// ----- what the integer kinds accept -----

proof fn lemma_digits_prefix(s: Seq<char>, j: int)
    requires
        0 <= j <= s.len(),
    ensures
        digits_value(s.take(j)) <= digits_value(s),
    decreases s.len(),
{
    if j < s.len() {
        assert(s.take(j) =~= s.drop_last().take(j));
        lemma_digits_prefix(s.drop_last(), j);
        let x = digits_value(s.drop_last());
        assert(x * 10 + digit_value(s.last()) >= x) by (nonlinear_arith)
            requires
                x >= 0,
        ;
    } else {
        assert(s.take(j) =~= s);
    }
}

/// Reading digits on from `ds[..i]`, whose value is already within bounds,
/// gives the value of them all, or the overflow of its side.
proof fn lemma_fold_value(ds: Seq<char>, i: int, neg: bool, min: int, max: int)
    requires
        all_digits(ds),
        0 <= i <= ds.len(),
        min <= 0 <= max,
        neg ==> min <= -digits_value(ds.take(i)),
        !neg ==> digits_value(ds.take(i)) <= max,
    ensures
        fold_digits(ds, i, if neg { -digits_value(ds.take(i)) } else { digits_value(ds.take(i)) as int }, neg, min, max)
            == (if neg {
            if min <= -digits_value(ds) {
                Ok::<int, IntFault>(-digits_value(ds))
            } else {
                Err(IntFault::NegOverflow)
            }
        } else {
            if digits_value(ds) <= max {
                Ok::<int, IntFault>(digits_value(ds) as int)
            } else {
                Err(IntFault::PosOverflow)
            }
        }),
    decreases ds.len() - i,
{
    if i == ds.len() {
        assert(ds.take(i) =~= ds);
    } else {
        let a = digits_value(ds.take(i));
        assert(ds.take(i + 1).drop_last() =~= ds.take(i));
        assert(ds.take(i + 1).last() == ds[i]);
        assert(is_digit(ds[i]));
        let b = digits_value(ds.take(i + 1));
        assert(b == a * 10 + digit_value(ds[i]));
        lemma_digits_prefix(ds, i + 1);
        if neg {
            if -b < min {
                assert(-digits_value(ds) < min);
            } else {
                lemma_fold_value(ds, i + 1, neg, min, max);
            }
        } else {
            if b > max {
                assert(digits_value(ds) > max);
            } else {
                lemma_fold_value(ds, i + 1, neg, min, max);
            }
        }
    }
}

proof fn lemma_fold_shift(ds: Seq<char>, i: int, acc: int, neg: bool, min: int, max: int)
    requires
        0 <= i,
    ensures
        fold_digits(seq!['-'] + ds, i + 1, acc, neg, min, max) == fold_digits(ds, i, acc, neg, min, max),
    decreases ds.len() - i,
{
    let cs = seq!['-'] + ds;
    if i < ds.len() {
        assert(cs[i + 1] == ds[i]);
        let d = digit_value(ds[i]);
        let next = if neg { acc * 10 - d } else { acc * 10 + d };
        lemma_fold_shift(ds, i + 1, next, neg, min, max);
    }
}

/// Reading the decimal text of `n` as an integer type of range `min..=max`
/// (signed) gives `n` exactly when it lies within the range.
proof fn lemma_parse_signed(n: int, min: int, max: int)
    requires
        min < 0 <= max,
    ensures
        parse_int(signed_decimal(n), min, max) == (if min <= n <= max {
            Ok::<int, IntFault>(n)
        } else if n > max {
            Err(IntFault::PosOverflow)
        } else {
            Err(IntFault::NegOverflow)
        }),
{
    let m: nat = if n < 0 { (-n) as nat } else { n as nat };
    let ds = decimal(m);
    lemma_decimal_digits(m);
    lemma_decimal_value(m);
    assert(ds.take(0) =~= Seq::<char>::empty());
    if n < 0 {
        let cs = seq!['-'] + ds;
        assert(cs.len() >= 2);
        assert(cs[0] == '-');
        lemma_fold_value(ds, 0, true, min, max);
        lemma_fold_shift(ds, 0, 0, true, min, max);
    } else {
        assert(is_digit(ds[0]));
        lemma_fold_value(ds, 0, false, min, max);
    }
}

/// The decimal text of a number has no white space around it.
proof fn lemma_signed_trimmed(n: int)
    ensures
        trim(signed_decimal(n)) == signed_decimal(n),
        signed_decimal(n).len() > 0,
        !is_white_space(signed_decimal(n)[0]),
        !is_white_space(signed_decimal(n).last()),
{
    let m: nat = if n < 0 { (-n) as nat } else { n as nat };
    lemma_decimal_digits(m);
    let s = signed_decimal(n);
    let ds = decimal(m);
    assert(is_digit(ds[0]));
    assert(is_digit(ds.last()));
    if n < 0 {
        assert(s[0] == '-');
        assert(s.last() == ds.last());
    }
    lemma_trim_start(s, 0);
    assert(s.skip(0) =~= s);
    lemma_trim_end(s, s.len() as int);
    assert(s.take(s.len() as int) =~= s);
}

/// `name:text`, with a lowercase kind name and a text with no white space
/// around it, is read as the kind that the name names.
proof fn lemma_created_prefixed(name: Seq<char>, text: Seq<char>, d32: spec_fn(Seq<char>) -> Result<u32, Seq<char>>, d64: spec_fn(
    Seq<char>,
) -> Result<u64, Seq<char>>)
    requires
        name.len() > 0,
        forall|j: int| 0 <= j < name.len() ==> 'a' <= #[trigger] name[j] && name[j] <= 'z',
        text.len() > 0,
        !is_white_space(text[0]),
        !is_white_space(text.last()),
        kind_of_name(name) != 0,
    ensures
        created_value(name + seq![':'] + text, d32, d64) == leaf_value(kind_of_name(name), text, d32, d64),
{
    let t = name + seq![':'] + text;
    let k = name.len() as int;
    assert(t[0] == name[0]);
    assert(t.last() == text.last());
    lemma_trim_start(t, 0);
    assert(t.skip(0) =~= t);
    lemma_trim_end(t, t.len() as int);
    assert(t.take(t.len() as int) =~= t);
    assert(trim(t) == t);
    assert forall|j: int| 0 <= j < k implies t[j] != ':' by {
        assert(t[j] == name[j]);
    }
    assert(t[k] == ':');
    lemma_first_index_is(t, ':', k);
    assert(t.take(k) =~= name);
    assert(name[0] == t[0]);
    lemma_trim_start(name, 0);
    assert(name.skip(0) =~= name);
    lemma_trim_end(name, name.len() as int);
    assert(name.take(name.len() as int) =~= name);
    assert(ascii_lower(name) =~= name);
    assert(t.skip(k + 1) =~= text);
    lemma_trim_start(text, 0);
    assert(text.skip(0) =~= text);
    lemma_trim_end(text, text.len() as int);
    assert(text.take(text.len() as int) =~= text);
}

/// The integer kinds accept exactly the numbers of their Rust types: the
/// decimal text of `n` is read, for a leaf of kind byte, short, int or long
/// (and after `byte:`, `short:`, `int:` or `long:` for `--create`), as that
/// kind holding `n` when `n` lies in `i8`, `i16`, `i32` or `i64` range, and
/// is refused otherwise.
pub proof fn lemma_integer_kinds(n: int, d32: spec_fn(Seq<char>) -> Result<u32, Seq<char>>, d64: spec_fn(
    Seq<char>,
) -> Result<u64, Seq<char>>)
    ensures
        leaf_value(tag_id::BYTE, signed_decimal(n), d32, d64) == if -128 <= n <= 127 {
            Ok::<NbtTree, Seq<char>>(NbtTree::Byte(n as i8))
        } else {
            Err(leaf_value(tag_id::BYTE, signed_decimal(n), d32, d64)->Err_0)
        },
        leaf_value(tag_id::SHORT, signed_decimal(n), d32, d64) == if -32768 <= n <= 32767 {
            Ok::<NbtTree, Seq<char>>(NbtTree::Short(n as i16))
        } else {
            Err(leaf_value(tag_id::SHORT, signed_decimal(n), d32, d64)->Err_0)
        },
        leaf_value(tag_id::INT, signed_decimal(n), d32, d64) == if -2147483648 <= n <= 2147483647 {
            Ok::<NbtTree, Seq<char>>(NbtTree::Int(n as i32))
        } else {
            Err(leaf_value(tag_id::INT, signed_decimal(n), d32, d64)->Err_0)
        },
        leaf_value(tag_id::LONG, signed_decimal(n), d32, d64) == if -9223372036854775808 <= n
            <= 9223372036854775807 {
            Ok::<NbtTree, Seq<char>>(NbtTree::Long(n as i64))
        } else {
            Err(leaf_value(tag_id::LONG, signed_decimal(n), d32, d64)->Err_0)
        },
        created_value("byte:"@ + signed_decimal(n), d32, d64) == leaf_value(tag_id::BYTE, signed_decimal(n), d32, d64),
        created_value("short:"@ + signed_decimal(n), d32, d64) == leaf_value(
            tag_id::SHORT,
            signed_decimal(n),
            d32,
            d64,
        ),
        created_value("int:"@ + signed_decimal(n), d32, d64) == leaf_value(tag_id::INT, signed_decimal(n), d32, d64),
        created_value("long:"@ + signed_decimal(n), d32, d64) == leaf_value(tag_id::LONG, signed_decimal(n), d32, d64),
{
    lemma_signed_trimmed(n);
    let s = signed_decimal(n);
    lemma_parse_signed(n, -128, 127);
    lemma_parse_signed(n, -32768, 32767);
    lemma_parse_signed(n, i32::MIN as int, i32::MAX as int);
    lemma_parse_signed(n, i64::MIN as int, i64::MAX as int);
    reveal_strlit("byte");
    reveal_strlit("short");
    reveal_strlit("int");
    reveal_strlit("long");
    reveal_strlit("byte:");
    reveal_strlit("short:");
    reveal_strlit("int:");
    reveal_strlit("long:");
    assert("byte:"@ =~= "byte"@ + seq![':']);
    assert("short:"@ =~= "short"@ + seq![':']);
    assert("int:"@ =~= "int"@ + seq![':']);
    assert("long:"@ =~= "long"@ + seq![':']);
    assert(kind_of_name("byte"@) == tag_id::BYTE);
    assert("short"@ != "byte"@);
    assert(kind_of_name("short"@) == tag_id::SHORT);
    assert("int"@ != "byte"@ && "int"@ != "short"@);
    assert(kind_of_name("int"@) == tag_id::INT);
    assert("long"@ != "byte"@ && "long"@ != "short"@ && "long"@ != "int"@);
    assert(kind_of_name("long"@) == tag_id::LONG);
    lemma_created_prefixed("byte"@, s, d32, d64);
    lemma_created_prefixed("short"@, s, d32, d64);
    lemma_created_prefixed("int"@, s, d32, d64);
    lemma_created_prefixed("long"@, s, d32, d64);
}

/// Every text that `str::parse::<i32>` accepts after trimming is read, for a
/// leaf of kind int, as an int holding that number; every other text is
/// refused with the `invalid int: ` message.
pub proof fn lemma_int_kind_reads(t: Seq<char>, d32: spec_fn(Seq<char>) -> Result<u32, Seq<char>>, d64: spec_fn(
    Seq<char>,
) -> Result<u64, Seq<char>>)
    ensures
        parse_int(trim(t), i32::MIN as int, i32::MAX as int) matches Ok(v) ==> leaf_value(tag_id::INT, t, d32, d64)
            == Ok::<NbtTree, Seq<char>>(NbtTree::Int(v as i32)) && i32::MIN <= v <= i32::MAX,
        parse_int(trim(t), i32::MIN as int, i32::MAX as int) matches Err(f) ==> leaf_value(tag_id::INT, t, d32, d64)
            == Err::<NbtTree, Seq<char>>("invalid int: "@ + int_fault_message(f)),
{
    reveal_strlit("int");
    reveal_strlit("invalid ");
    reveal_strlit(": ");
    reveal_strlit("invalid int: ");
    assert("invalid "@ + "int"@ + ": "@ =~= "invalid int: "@);
    lemma_int_range(trim(t), i32::MIN as int, i32::MAX as int);
}


/// The other kinds: float and double text is read (trimmed) by the caller's
/// readers for `f32` and `f64`, their failures prefixed with `invalid float: `
/// or `invalid double: `; a string is the text as given; arrays are number
/// lists whose items lie in `u8`, `i32` or `i64` range; lists and compounds
/// cannot be set; any other kind id is refused as unsupported.
pub proof fn lemma_other_kinds(t: Seq<char>, d32: spec_fn(Seq<char>) -> Result<u32, Seq<char>>, d64: spec_fn(
    Seq<char>,
) -> Result<u64, Seq<char>>, id: u8)
    ensures
        leaf_value(tag_id::FLOAT, t, d32, d64) == match d32(trim(t)) {
            Ok(b) => Ok::<NbtTree, Seq<char>>(NbtTree::Float(b)),
            Err(m) => Err("invalid float: "@ + m),
        },
        leaf_value(tag_id::DOUBLE, t, d32, d64) == match d64(trim(t)) {
            Ok(b) => Ok::<NbtTree, Seq<char>>(NbtTree::Double(b)),
            Err(m) => Err("invalid double: "@ + m),
        },
        leaf_value(tag_id::STRING, t, d32, d64) == Ok::<NbtTree, Seq<char>>(NbtTree::String(t)),
        leaf_value(tag_id::BYTE_ARRAY, t, d32, d64) is Ok <==> number_list(t, 0, 255) is Ok,
        leaf_value(tag_id::BYTE_ARRAY, t, d32, d64) matches Ok(NbtTree::ByteArray(bs)) ==> bs.len()
            == number_list(t, 0, 255)->Ok_0.len() && forall|k: int| 0 <= k < bs.len() ==> bs[k] as int
            == #[trigger] number_list(t, 0, 255)->Ok_0[k],
        leaf_value(tag_id::INT_ARRAY, t, d32, d64) is Ok <==> number_list(t, -2147483648, 2147483647) is Ok,
        leaf_value(tag_id::INT_ARRAY, t, d32, d64) matches Ok(NbtTree::IntArray(xs)) ==> xs.len() == number_list(
            t,
            -2147483648,
            2147483647,
        )->Ok_0.len() && forall|k: int| 0 <= k < xs.len() ==> xs[k] as int == #[trigger] number_list(
            t,
            -2147483648,
            2147483647,
        )->Ok_0[k],
        leaf_value(tag_id::LONG_ARRAY, t, d32, d64) is Ok <==> number_list(
            t,
            -9223372036854775808,
            9223372036854775807,
        ) is Ok,
        leaf_value(tag_id::LONG_ARRAY, t, d32, d64) matches Ok(NbtTree::LongArray(xs)) ==> xs.len() == number_list(
            t,
            -9223372036854775808,
            9223372036854775807,
        )->Ok_0.len() && forall|k: int| 0 <= k < xs.len() ==> xs[k] as int == #[trigger] number_list(
            t,
            -9223372036854775808,
            9223372036854775807,
        )->Ok_0[k],
        leaf_value(tag_id::LIST, t, d32, d64) == Err::<NbtTree, Seq<char>>(
            "only leaf values can be modified by --set"@,
        ),
        leaf_value(tag_id::COMPOUND, t, d32, d64) == Err::<NbtTree, Seq<char>>(
            "only leaf values can be modified by --set"@,
        ),
        (id == 0 || id > 12) ==> leaf_value(id, t, d32, d64) is Err,
        1 <= id <= 12 && id != tag_id::LIST && id != tag_id::COMPOUND ==> (leaf_value(id, t, d32, d64) matches Ok(
            x,
        ) ==> crate::tree::tree_id(x) == id),
{
    lemma_list_range(t, 0, 255);
    lemma_list_range(t, i32::MIN as int, i32::MAX as int);
    lemma_list_range(t, i64::MIN as int, i64::MAX as int);
}

/// `--create` text without a colon is, once trimmed, an int when it reads as
/// one, else a long when it reads as one: the decimal text of `n` makes an
/// int for `n` in `i32` range and a long for other `n` in `i64` range.
pub proof fn lemma_created_numbers(n: int, d32: spec_fn(Seq<char>) -> Result<u32, Seq<char>>, d64: spec_fn(
    Seq<char>,
) -> Result<u64, Seq<char>>)
    ensures
        -2147483648 <= n <= 2147483647 ==> created_value(signed_decimal(n), d32, d64) == Ok::<NbtTree, Seq<char>>(
            NbtTree::Int(n as i32),
        ),
        (n < -2147483648 || n > 2147483647) && -9223372036854775808 <= n <= 9223372036854775807 ==> created_value(
            signed_decimal(n),
            d32,
            d64,
        ) == Ok::<NbtTree, Seq<char>>(NbtTree::Long(n as i64)),
{
    lemma_signed_trimmed(n);
    let s = signed_decimal(n);
    let m: nat = if n < 0 { (-n) as nat } else { n as nat };
    lemma_decimal_digits(m);
    assert forall|j: int| 0 <= j < s.len() implies s[j] != ':' by {
        if n < 0 && j == 0 {
        } else if n < 0 {
            assert(s[j] == decimal(m)[j - 1]);
            assert(is_digit(decimal(m)[j - 1]));
        } else {
            assert(is_digit(decimal(m)[j]));
        }
    }
    lemma_first_index_is(s, ':', s.len() as int);
    lemma_parse_signed(n, i32::MIN as int, i32::MAX as int);
    lemma_parse_signed(n, i64::MIN as int, i64::MAX as int);
}

} // verus!
