//! A streaming writer: it emits a document value by value and keeps track of
//! the containers that are still open.
use vstd::prelude::*;
use crate::byte_order::{u16_bytes, u32_bytes};
use crate::codec::mismatch_error;
use crate::component::NbtComponent;
use crate::encoder::{build, Encoder};
use crate::error::ParseError;
use crate::platform::PlatformType;
use crate::tag_id;
use crate::text::modified_utf8_bytes;
use crate::tree::{enc_payload, mismatch_message, tag_message, NbtTree};
use crate::wire::enc_tag;

verus! {

/// Root type used to initialize a streaming NBT writer.
pub enum RootType {
    /// Root is a compound (`0x0a`) with an empty name.
    Compound,
    /// Root is a list (`0x09`) with an empty name.
    List { id: u8, length: i32 },
}

/// A container that the writer holds open.
#[derive(Clone, Copy, PartialEq, Eq, Structural)]
pub enum Scope {
    /// A compound, closed by [`Writer::end`].
    Compound,
    /// A list of kind `id` that still expects `remaining` elements.
    List { id: u8, remaining: i32 },
}

/// Why a writer call failed.
pub enum Failure {
    /// An error with this message.
    Message(Seq<char>),
    /// A negative list length.
    BadLength(i32),
}

/// Whether the call's result is the failure `f`.
pub open spec fn fails_as(r: Result<(), ParseError>, f: Failure) -> bool {
    match f {
        Failure::Message(m) => r matches Err(ParseError::Other(x)) && x@ == m,
        Failure::BadLength(n) => r matches Err(ParseError::InvalidLength(x)) && x == n,
    }
}

/// The message for a call after the document is complete.
pub open spec fn finished_message() -> Seq<char> {
    "writer is already finished"@
}

/// The message for an attempt to write TAG_End as a value.
pub open spec fn end_value_message() -> Seq<char> {
    "TAG_End cannot be written as a value"@
}

/// The message for a named element inside a list.
pub open spec fn list_tag_message() -> Seq<char> {
    "list elements cannot have tags"@
}

/// The message for one element too many in a list.
pub open spec fn list_full_message() -> Seq<char> {
    "list is already full"@
}

/// The message for [`Writer::end`] on a list.
pub open spec fn end_list_message() -> Seq<char> {
    "cannot manually end a list scope"@
}

/// The message for [`Writer::finish`] with open containers.
pub open spec fn unfinished_message() -> Seq<char> {
    "unfinished nbt document: open containers remain"@
}

/// Whether `s` is a list that has all its elements.
pub open spec fn is_spent(s: Scope) -> bool {
    s matches Scope::List { remaining, .. } && remaining == 0
}

/// The open containers once the complete lists on top are closed.
pub open spec fn trimmed(st: Seq<Scope>) -> Seq<Scope>
    decreases st.len(),
{
    if st.len() > 0 && is_spent(st.last()) { trimmed(st.drop_last()) } else { st }
}

/// The tag id of a component's kind.
pub open spec fn component_kind(c: NbtComponent) -> u8 {
    match c {
        NbtComponent::End => tag_id::END,
        NbtComponent::Byte(_) => tag_id::BYTE,
        NbtComponent::Short(_) => tag_id::SHORT,
        NbtComponent::Int(_) => tag_id::INT,
        NbtComponent::Long(_) => tag_id::LONG,
        NbtComponent::Float(_) => tag_id::FLOAT,
        NbtComponent::Double(_) => tag_id::DOUBLE,
        NbtComponent::ByteArray(_) => tag_id::BYTE_ARRAY,
        NbtComponent::String(_) => tag_id::STRING,
        NbtComponent::List { .. } => tag_id::LIST,
        NbtComponent::Compound => tag_id::COMPOUND,
        NbtComponent::IntArray(_) => tag_id::INT_ARRAY,
        NbtComponent::LongArray(_) => tag_id::LONG_ARRAY,
    }
}

/// The tree of a component that holds no other values.
pub open spec fn leaf_tree(c: NbtComponent) -> NbtTree {
    match c {
        NbtComponent::Byte(x) => NbtTree::Byte(x),
        NbtComponent::Short(x) => NbtTree::Short(x),
        NbtComponent::Int(x) => NbtTree::Int(x),
        NbtComponent::Long(x) => NbtTree::Long(x),
        NbtComponent::Float(x) => NbtTree::Float(x),
        NbtComponent::Double(x) => NbtTree::Double(x),
        NbtComponent::ByteArray(x) => NbtTree::ByteArray(x@),
        NbtComponent::String(x) => NbtTree::String(x@),
        NbtComponent::IntArray(x) => NbtTree::IntArray(x@),
        NbtComponent::LongArray(x) => NbtTree::LongArray(x@),
        _ => NbtTree::Byte(0),
    }
}

/// The bytes that a component's payload is written as: a list's element id
/// and length, nothing for a compound, the encoding of anything else.
pub open spec fn payload_of(p: PlatformType, c: NbtComponent) -> Result<Seq<u8>, Failure> {
    match c {
        NbtComponent::End => Err(Failure::Message(end_value_message())),
        NbtComponent::List { id, length } => if length < 0 {
            Err(Failure::BadLength(length))
        } else {
            Ok(seq![id] + u32_bytes(p, length as u32))
        },
        NbtComponent::Compound => Ok(Seq::empty()),
        _ => match enc_payload(p, leaf_tree(c)) {
            Ok(b) => Ok(b),
            Err(m) => Err(Failure::Message(m)),
        },
    }
}

/// The containers after a component's payload: a non-empty list or a compound
/// opens a new one.
pub open spec fn opened(st: Seq<Scope>, c: NbtComponent) -> Seq<Scope> {
    match c {
        NbtComponent::List { id, length } => if length > 0 {
            st.push(Scope::List { id, remaining: length })
        } else {
            st
        },
        NbtComponent::Compound => st.push(Scope::Compound),
        _ => st,
    }
}

/// What [`Writer::write`] does from the open containers `scopes`: the bytes it
/// appends, the open containers after it, and its failure, if any.
pub open spec fn write_effect(p: PlatformType, scopes: Seq<Scope>, tag: Seq<char>, c: NbtComponent) -> (
    Seq<u8>,
    Seq<Scope>,
    Option<Failure>,
) {
    let st = trimmed(scopes);
    let id = component_kind(c);
    if c is End {
        (Seq::empty(), st, Some(Failure::Message(end_value_message())))
    } else if st.len() == 0 {
        (Seq::empty(), st, Some(Failure::Message(finished_message())))
    } else {
        match st.last() {
            Scope::Compound => match enc_tag(p, tag) {
                None => (seq![id], st, Some(Failure::Message(tag_message(tag)))),
                Some(tb) => match payload_of(p, c) {
                    Err(f) => (seq![id] + tb, st, Some(f)),
                    Ok(b) => (seq![id] + tb + b, trimmed(opened(st, c)), None),
                },
            },
            Scope::List { id: list_id, remaining } => if tag.len() != 0 {
                (Seq::empty(), st, Some(Failure::Message(list_tag_message())))
            } else if remaining <= 0 {
                (Seq::empty(), st, Some(Failure::Message(list_full_message())))
            } else if list_id != id {
                (Seq::empty(), st, Some(Failure::Message(mismatch_message(list_id, id))))
            } else {
                let st2 = st.update(st.len() - 1, Scope::List { id: list_id, remaining: (remaining - 1) as i32 });
                match payload_of(p, c) {
                    Err(f) => (Seq::empty(), st2, Some(f)),
                    Ok(b) => (b, trimmed(opened(st2, c)), None),
                }
            },
        }
    }
}

/// What [`Writer::end`] does from the open containers `scopes`: the bytes it
/// appends, the open containers after it, and its failure, if any.
pub open spec fn end_effect(scopes: Seq<Scope>) -> (Seq<u8>, Seq<Scope>, Option<Failure>) {
    let st = trimmed(scopes);
    if st.len() == 0 {
        (Seq::empty(), st, Some(Failure::Message(finished_message())))
    } else if st.last() is Compound {
        (seq![tag_id::END], trimmed(st.drop_last()), None)
    } else {
        (Seq::empty(), st.drop_last(), Some(Failure::Message(end_list_message())))
    }
}

/// Whether every container is a list that has all its elements.
pub open spec fn all_spent(st: Seq<Scope>) -> bool {
    forall|i: int| 0 <= i < st.len() ==> is_spent(#[trigger] st[i])
}

/// Streaming NBT writer.
///
/// The writer emits an NBT document incrementally into a byte buffer while
/// keeping the open containers on a stack.
pub struct Writer {
    encoder: Encoder,
    stack: Vec<Scope>,
}

impl Writer {
    /// The platform the writer encodes for.
    pub closed spec fn kind(&self) -> PlatformType {
        self.encoder.kind()
    }

    /// The bytes written so far.
    pub closed spec fn written(&self) -> Seq<u8> {
        self.encoder.written()
    }

    /// The open containers, innermost last.
    pub closed spec fn scopes(&self) -> Seq<Scope> {
        self.stack@
    }

    /// Creates a writer for the given root container, appending to `output`.
    ///
    /// The root must not be a list of negative length (use [`Writer::try_new`]
    /// to get that case as an error).
    pub fn new(output: Vec<u8>, platform: PlatformType, root: RootType) -> (w: Writer)
        requires
            root matches RootType::List { length, .. } ==> length >= 0,
        ensures
            w.kind() == platform,
            match root {
                RootType::Compound => w.written() == output@ + seq![tag_id::COMPOUND] + u16_bytes(platform, 0)
                    && w.scopes() == seq![Scope::Compound],
                RootType::List { id, length } => w.written() == output@ + seq![tag_id::LIST]
                    + u16_bytes(platform, 0) + seq![id] + u32_bytes(platform, length as u32)
                    && w.scopes() == if length > 0 { seq![Scope::List { id, remaining: length }] } else { Seq::empty() },
            },
    {
        match Writer::try_new(output, platform, root) {
            Ok(w) => w,
            Err(_) => {
                proof { assert(false); }
                Writer { encoder: build(Vec::new(), platform), stack: Vec::new() }
            },
        }
    }

    /// Creates a writer for the given root container, appending to `output`:
    /// the root's id and empty name, and for a list its element id and length.
    pub fn try_new(output: Vec<u8>, platform: PlatformType, root: RootType) -> (r: Result<Writer, ParseError>)
        ensures
            match root {
                RootType::Compound => r matches Ok(w) && w.kind() == platform
                    && w.written() == output@ + seq![tag_id::COMPOUND] + u16_bytes(platform, 0)
                    && w.scopes() == seq![Scope::Compound],
                RootType::List { id, length } => if length < 0 {
                    r matches Err(ParseError::InvalidLength(n)) && n == length
                } else {
                    r matches Ok(w) && w.kind() == platform
                        && w.written() == output@ + seq![tag_id::LIST] + u16_bytes(platform, 0) + seq![id]
                            + u32_bytes(platform, length as u32)
                        && w.scopes() == if length > 0 {
                            seq![Scope::List { id, remaining: length }]
                        } else {
                            Seq::empty()
                        }
                },
            },
    {
        let mut encoder = build(output, platform);
        let mut stack: Vec<Scope> = Vec::new();
        proof {
            reveal_strlit("");
            assert(""@ =~= Seq::<char>::empty());
        }
        match root {
            RootType::Compound => {
                encoder.write_id(tag_id::COMPOUND)?;
                encoder.write_tag("")?;
                stack.push(Scope::Compound);
                proof {
                    assert(u16_bytes(platform, 0) + modified_utf8_bytes(""@) =~= u16_bytes(platform, 0));
                }
            },
            RootType::List { id, length } => {
                if length < 0 {
                    return Err(ParseError::InvalidLength(length));
                }
                encoder.write_id(tag_id::LIST)?;
                encoder.write_tag("")?;
                encoder.write_id(id)?;
                encoder.write_int(length)?;
                if length > 0 {
                    stack.push(Scope::List { id, remaining: length });
                }
                proof {
                    assert(u16_bytes(platform, 0) + modified_utf8_bytes(""@) =~= u16_bytes(platform, 0));
                    assert(encoder.written() =~= output@ + seq![tag_id::LIST] + u16_bytes(platform, 0) + seq![id]
                        + u32_bytes(platform, length as u32));
                }
            },
        }
        proof {
            assert(stack@ =~= if root is Compound {
                seq![Scope::Compound]
            } else if root->length > 0 {
                seq![Scope::List { id: root->id, remaining: root->length }]
            } else {
                Seq::empty()
            });
        }
        Ok(Writer { encoder, stack })
    }

    /// The error for a call after the document is complete.
    fn writer_finished_error() -> (e: ParseError)
        ensures
            e matches ParseError::Other(m) && m@ == finished_message(),
    {
        ParseError::Other(String::from_str("writer is already finished"))
    }

    /// The error for an attempt to write TAG_End as a value.
    fn invalid_end_value_error() -> (e: ParseError)
        ensures
            e matches ParseError::Other(m) && m@ == end_value_message(),
    {
        ParseError::Other(String::from_str("TAG_End cannot be written as a value"))
    }

    /// Closes the complete lists on top of the stack.
    fn pop_completed_lists(&mut self)
        ensures
            final(self).encoder == old(self).encoder,
            final(self).stack@ == trimmed(old(self).stack@),
    {
        loop
            invariant
                self.encoder == old(self).encoder,
                trimmed(self.stack@) == trimmed(old(self).stack@),
            ensures
                self.encoder == old(self).encoder,
                self.stack@ == trimmed(old(self).stack@),
            decreases self.stack@.len(),
        {
            let n = self.stack.len();
            if n == 0 {
                return;
            }
            let top = self.stack[n - 1];
            match top {
                Scope::List { remaining, .. } => {
                    if remaining == 0 {
                        self.stack.pop();
                    } else {
                        return;
                    }
                },
                Scope::Compound => {
                    return;
                },
            }
        }
    }

    /// The tag id of a component, or an error for TAG_End.
    fn component_id(component: &NbtComponent) -> (r: Result<u8, ParseError>)
        ensures
            match component {
                NbtComponent::End => r matches Err(ParseError::Other(m)) && m@ == end_value_message(),
                _ => r == Ok::<u8, ParseError>(component_kind(*component)),
            },
    {
        let id = match component {
            NbtComponent::End => return Err(Self::invalid_end_value_error()),
            NbtComponent::Byte(_) => tag_id::BYTE,
            NbtComponent::Short(_) => tag_id::SHORT,
            NbtComponent::Int(_) => tag_id::INT,
            NbtComponent::Long(_) => tag_id::LONG,
            NbtComponent::Float(_) => tag_id::FLOAT,
            NbtComponent::Double(_) => tag_id::DOUBLE,
            NbtComponent::ByteArray(_) => tag_id::BYTE_ARRAY,
            NbtComponent::String(_) => tag_id::STRING,
            NbtComponent::List { .. } => tag_id::LIST,
            NbtComponent::Compound => tag_id::COMPOUND,
            NbtComponent::IntArray(_) => tag_id::INT_ARRAY,
            NbtComponent::LongArray(_) => tag_id::LONG_ARRAY,
        };
        Ok(id)
    }

    /// Writes a component's payload; a non-empty list or a compound opens a
    /// new container.
    fn write_payload(&mut self, component: &NbtComponent) -> (r: Result<(), ParseError>)
        ensures
            final(self).kind() == old(self).kind(),
            match payload_of(old(self).kind(), *component) {
                Ok(b) => r is Ok && final(self).written() == old(self).written() + b
                    && final(self).scopes() == opened(old(self).scopes(), *component),
                Err(f) => fails_as(r, f) && final(self).written() == old(self).written()
                    && final(self).scopes() == old(self).scopes(),
            },
    {
        let ghost p = self.kind();
        let ghost start = self.written();
        match component {
            NbtComponent::Byte(value) => {
                let r = self.encoder.write_byte(*value);
                assert(self.written() =~= start + seq![*value as u8]);
                r
            },
            NbtComponent::Short(value) => self.encoder.write_short(*value),
            NbtComponent::Int(value) => self.encoder.write_int(*value),
            NbtComponent::Long(value) => self.encoder.write_long(*value),
            NbtComponent::Float(value) => self.encoder.write_float(*value),
            NbtComponent::Double(value) => self.encoder.write_double(*value),
            NbtComponent::ByteArray(values) => self.encoder.write_byte_array(values.as_slice()),
            NbtComponent::String(value) => self.encoder.write_string(value.as_str()),
            NbtComponent::IntArray(values) => self.encoder.write_int_array(values.as_slice()),
            NbtComponent::LongArray(values) => self.encoder.write_long_array(values.as_slice()),
            NbtComponent::List { id, length } => {
                if *length < 0 {
                    return Err(ParseError::InvalidLength(*length));
                }
                self.encoder.write_id(*id)?;
                self.encoder.write_int(*length)?;
                if *length > 0 {
                    self.stack.push(Scope::List { id: *id, remaining: *length });
                }
                assert(self.written() =~= start + (seq![*id] + u32_bytes(p, *length as u32)));
                Ok(())
            },
            NbtComponent::Compound => {
                self.stack.push(Scope::Compound);
                assert(self.written() =~= start + Seq::<u8>::empty());
                Ok(())
            },
            NbtComponent::End => Err(Self::invalid_end_value_error()),
        }
    }

    /// Writes one value into the current container.
    ///
    /// - In a compound scope, `tag` is emitted as the field name.
    /// - In a list scope, `tag` must be empty and element type must match.
    pub fn write(&mut self, tag: &str, component: NbtComponent) -> (r: Result<(), ParseError>)
        ensures
            final(self).kind() == old(self).kind(),
            ({
                let (bytes, after, failure) = write_effect(old(self).kind(), old(self).scopes(), tag@, component);
                &&& final(self).written() == old(self).written() + bytes
                &&& final(self).scopes() == after
                &&& match failure {
                    None => r is Ok,
                    Some(f) => fails_as(r, f),
                }
            }),
    {
        let ghost p = self.kind();
        let ghost start = self.written();
        self.pop_completed_lists();
        let ghost st = self.stack@;
        let component_id = match Self::component_id(&component) {
            Ok(id) => id,
            Err(e) => {
                assert(start + Seq::<u8>::empty() =~= start);
                return Err(e);
            },
        };
        let n = self.stack.len();
        if n == 0 {
            assert(start + Seq::<u8>::empty() =~= start);
            return Err(Self::writer_finished_error());
        }
        let top = self.stack[n - 1];
        match top {
            Scope::Compound => {
                self.encoder.write_id(component_id)?;
                self.encoder.write_tag(tag)?;
                let ghost header = self.written();
                let res = self.write_payload(&component);
                if res.is_err() {
                    return res;
                }
                proof {
                    let tb = enc_tag(p, tag@)->Some_0;
                    let b = payload_of(p, component)->Ok_0;
                    assert(self.written() =~= start + (seq![component_id] + tb + b));
                }
            },
            Scope::List { id, remaining } => {
                if !tag.is_empty() {
                    assert(start + Seq::<u8>::empty() =~= start);
                    return Err(ParseError::Other(String::from_str("list elements cannot have tags")));
                }
                if remaining <= 0 {
                    assert(start + Seq::<u8>::empty() =~= start);
                    return Err(ParseError::Other(String::from_str("list is already full")));
                }
                if id != component_id {
                    assert(start + Seq::<u8>::empty() =~= start);
                    return Err(mismatch_error(id, component_id));
                }
                self.stack.set(n - 1, Scope::List { id, remaining: remaining - 1 });
                let res = self.write_payload(&component);
                if res.is_err() {
                    assert(start + Seq::<u8>::empty() =~= start);
                    return res;
                }
            },
        }
        self.pop_completed_lists();
        Ok(())
    }

    /// Closes the current compound by writing `TAG_End`.
    pub fn end(&mut self) -> (r: Result<(), ParseError>)
        ensures
            final(self).kind() == old(self).kind(),
            ({
                let (bytes, after, failure) = end_effect(old(self).scopes());
                &&& final(self).written() == old(self).written() + bytes
                &&& final(self).scopes() == after
                &&& match failure {
                    None => r is Ok,
                    Some(f) => fails_as(r, f),
                }
            }),
    {
        self.pop_completed_lists();
        let scope = match self.stack.pop() {
            Some(scope) => scope,
            None => return Err(Self::writer_finished_error()),
        };
        match scope {
            Scope::Compound => {
                self.encoder.write_id(tag_id::END)?;
                self.pop_completed_lists();
                Ok(())
            },
            Scope::List { .. } => Err(ParseError::Other(String::from_str("cannot manually end a list scope"))),
        }
    }

    /// Returns whether writing has completed: no container is left that still
    /// expects a value or its end.
    pub fn is_finished(&self) -> (b: bool)
        ensures
            b == all_spent(self.scopes()),
    {
        let mut i: usize = 0;
        while i < self.stack.len()
            invariant
                i <= self.stack@.len(),
                forall|k: int| 0 <= k < i ==> is_spent(#[trigger] self.stack@[k]),
            decreases self.stack@.len() - i,
        {
            match self.stack[i] {
                Scope::List { remaining, .. } => {
                    if remaining != 0 {
                        return false;
                    }
                },
                Scope::Compound => {
                    return false;
                },
            }
            i = i + 1;
        }
        true
    }

    /// Checks that the document is complete.
    pub fn finish(&mut self) -> (r: Result<(), ParseError>)
        ensures
            *final(self) == *old(self),
            all_spent(old(self).scopes()) ==> r is Ok,
            !all_spent(old(self).scopes()) ==> (r matches Err(ParseError::Other(m)) && m@ == unfinished_message()),
    {
        if !self.is_finished() {
            return Err(ParseError::Other(String::from_str("unfinished nbt document: open containers remain")));
        }
        self.encoder.flush()
    }

    /// The bytes written so far.
    pub fn bytes(&self) -> (b: &Vec<u8>)
        ensures
            b@ == self.written(),
    {
        self.encoder.bytes()
    }

    /// Gives up the writer and returns the bytes written.
    pub fn into_bytes(self) -> (b: Vec<u8>)
        ensures
            b@ == self.written(),
    {
        self.encoder.into_bytes()
    }
}

} // verus!
