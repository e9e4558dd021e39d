//! A streaming reader: it walks a document and yields each value that holds
//! no others, with the text of its path (`Rank.Winner`, `NameList[2]`).
use vstd::prelude::*;
use crate::compression::{announced, inflated, open_bytes};
use crate::component::{CompView, NbtComponent};
use crate::decoder::Decoder;
use crate::error::ParseError;
use crate::platform::PlatformType;
use crate::tag_id;
use vstd::string::StrSliceExecFns;
use crate::text::{decimal, push_decimal};
use crate::decoder::build;
use crate::wire::{
    reports, wire_byte_array, wire_i16, wire_i32, wire_i64, wire_int_array, wire_long_array, wire_string, wire_tag,
    wire_u32, wire_u64, wire_u8, Fault, Parsed,
};

verus! {

/// Reads the component of kind `id`: the payload of a value that holds no
/// others, a list's element id and length, or nothing for a compound or TAG_End.
pub open spec fn wire_component(p: PlatformType, id: u8, s: Seq<u8>) -> Parsed<CompView> {
    if id == tag_id::END {
        Ok((CompView::End, s))
    } else if id == tag_id::BYTE {
        match wire_u8(s) { Ok((v, r)) => Ok((CompView::Byte(v as i8), r)), Err(f) => Err(f) }
    } else if id == tag_id::SHORT {
        match wire_i16(p, s) { Ok((v, r)) => Ok((CompView::Short(v), r)), Err(f) => Err(f) }
    } else if id == tag_id::INT {
        match wire_i32(p, s) { Ok((v, r)) => Ok((CompView::Int(v), r)), Err(f) => Err(f) }
    } else if id == tag_id::LONG {
        match wire_i64(p, s) { Ok((v, r)) => Ok((CompView::Long(v), r)), Err(f) => Err(f) }
    } else if id == tag_id::FLOAT {
        match wire_u32(p, s) { Ok((v, r)) => Ok((CompView::Float(v), r)), Err(f) => Err(f) }
    } else if id == tag_id::DOUBLE {
        match wire_u64(p, s) { Ok((v, r)) => Ok((CompView::Double(v), r)), Err(f) => Err(f) }
    } else if id == tag_id::BYTE_ARRAY {
        match wire_byte_array(p, s) { Ok((v, r)) => Ok((CompView::ByteArray(v), r)), Err(f) => Err(f) }
    } else if id == tag_id::STRING {
        match wire_string(p, s) { Ok((v, r)) => Ok((CompView::String(v), r)), Err(f) => Err(f) }
    } else if id == tag_id::LIST {
        match wire_u8(s) {
            Err(f) => Err(f),
            Ok((eid, r1)) => match wire_i32(p, r1) {
                Ok((n, r2)) => Ok((CompView::List { id: eid, length: n }, r2)),
                Err(f) => Err(f),
            },
        }
    } else if id == tag_id::COMPOUND {
        Ok((CompView::Compound, s))
    } else if id == tag_id::INT_ARRAY {
        match wire_int_array(p, s) { Ok((v, r)) => Ok((CompView::IntArray(v), r)), Err(f) => Err(f) }
    } else if id == tag_id::LONG_ARRAY {
        match wire_long_array(p, s) { Ok((v, r)) => Ok((CompView::LongArray(v), r)), Err(f) => Err(f) }
    } else {
        Err(Fault::UnsupportedTag(id))
    }
}

/// Reads the component of kind `id`.
pub fn next_by_id(id: u8, decoder: &mut Decoder) -> (r: Result<NbtComponent, ParseError>)
    ensures
        final(decoder).kind() == old(decoder).kind(),
        match wire_component(old(decoder).kind(), id, old(decoder).rest()) {
            Ok((c, rest)) => r matches Ok(x) && x@ == c && final(decoder).rest() == rest,
            Err(f) => r matches Err(e) && reports(e, f),
        },
{
    match id {
        tag_id::END => Ok(NbtComponent::End),
        tag_id::BYTE => Ok(NbtComponent::Byte(decoder.read_byte()?)),
        tag_id::SHORT => Ok(NbtComponent::Short(decoder.read_short()?)),
        tag_id::INT => Ok(NbtComponent::Int(decoder.read_int()?)),
        tag_id::LONG => Ok(NbtComponent::Long(decoder.read_long()?)),
        tag_id::FLOAT => Ok(NbtComponent::Float(decoder.read_float()?)),
        tag_id::DOUBLE => Ok(NbtComponent::Double(decoder.read_double()?)),
        tag_id::BYTE_ARRAY => Ok(NbtComponent::ByteArray(decoder.read_byte_array()?)),
        tag_id::STRING => Ok(NbtComponent::String(decoder.read_string()?)),
        tag_id::LIST => {
            let element_id = decoder.read_id()?;
            let length = decoder.read_int()?;
            Ok(NbtComponent::List { id: element_id, length })
        },
        tag_id::COMPOUND => Ok(NbtComponent::Compound),
        tag_id::INT_ARRAY => Ok(NbtComponent::IntArray(decoder.read_int_array()?)),
        tag_id::LONG_ARRAY => Ok(NbtComponent::LongArray(decoder.read_long_array()?)),
        _ => Err(ParseError::UnsupportedTagId(id)),
    }
}

/// The mathematical form of an open container in the reader.
pub enum FrameView {
    /// A list of kind `id` whose next element is number `index` of `length`.
    List { tag: Seq<char>, id: u8, index: i32, length: i32 },
    /// A compound, until its TAG_End has been read.
    Compound { tag: Seq<char>, has_next: bool },
}

/// Whether a container has more to read.
pub open spec fn frame_has_next(f: FrameView) -> bool {
    match f {
        FrameView::List { index, length, .. } => index < length,
        FrameView::Compound { has_next, .. } => has_next,
    }
}

/// The name under which a container was opened.
pub open spec fn frame_tag(f: FrameView) -> Seq<char> {
    match f {
        FrameView::List { tag, .. } => tag,
        FrameView::Compound { tag, .. } => tag,
    }
}

/// The text of list element number `index`.
pub open spec fn index_tag(index: int) -> Seq<char> {
    "["@ + decimal(index as nat) + "]"@
}

/// Reads the next child of a container: the container afterwards, the
/// child's name, its component, and the input left.
pub open spec fn frame_next(p: PlatformType, f: FrameView, s: Seq<u8>) -> Result<(FrameView, Seq<char>, CompView, Seq<u8>), Fault> {
    match f {
        FrameView::List { tag, id, index, length } => match wire_component(p, id, s) {
            Err(e) => Err(e),
            Ok((c, r)) => Ok((FrameView::List { tag, id, index: (index + 1) as i32, length }, index_tag(index as int), c, r)),
        },
        FrameView::Compound { tag, has_next } => match wire_u8(s) {
            Err(e) => Err(e),
            Ok((id, r1)) => if id == tag_id::END {
                Ok((FrameView::Compound { tag, has_next: false }, Seq::empty(), CompView::End, r1))
            } else {
                match wire_tag(p, r1) {
                    Err(e) => Err(e),
                    Ok((name, r2)) => match wire_component(p, id, r2) {
                        Err(e) => Err(e),
                        Ok((c, r3)) => Ok((f, name, c, r3)),
                    },
                }
            },
        },
    }
}

/// The containers once the finished ones on top are closed.
pub open spec fn drop_finished(fs: Seq<FrameView>) -> Seq<FrameView>
    decreases fs.len(),
{
    if fs.len() > 0 && !frame_has_next(fs.last()) { drop_finished(fs.drop_last()) } else { fs }
}

/// `path` followed by one more part: a `[..]` part directly, a name after a dot.
pub open spec fn append_part(path: Seq<char>, part: Seq<char>) -> Seq<char> {
    if path.len() == 0 || (part.len() > 0 && part[0] == '[') { path + part } else { path + "."@ + part }
}

/// The names of the containers, joined.
pub open spec fn join_tags(fs: Seq<FrameView>) -> Seq<char>
    decreases fs.len(),
{
    if fs.len() == 0 { Seq::empty() } else { append_part(join_tags(fs.drop_last()), frame_tag(fs.last())) }
}

/// The text of the path to a child named `tag` of the innermost container
/// (the root's own name is left out).
pub open spec fn leaf_path(fs: Seq<FrameView>, tag: Seq<char>) -> Seq<char> {
    append_part(join_tags(if fs.len() > 0 { fs.drop_first() } else { fs }), tag)
}

/// The containers after a child that opens one: a compound, or a non-empty list.
pub open spec fn push_nested(fs: Seq<FrameView>, tag: Seq<char>, c: CompView) -> Seq<FrameView> {
    match c {
        CompView::Compound => fs.push(FrameView::Compound { tag, has_next: true }),
        CompView::List { id, length } => if length > 0 {
            fs.push(FrameView::List { tag, id, index: 0, length })
        } else {
            fs
        },
        _ => fs,
    }
}

/// What remains to be read from a container, weighted so that reading a
/// child without consuming input makes it smaller.
pub open spec fn frame_weight(f: FrameView) -> int {
    match f {
        FrameView::List { index, length, .. } => if index < length { 2 * (length - index) } else { 0 },
        FrameView::Compound { has_next, .. } => if has_next { 1 } else { 0 },
    }
}

/// The weight of all containers.
pub open spec fn weight(fs: Seq<FrameView>) -> int
    decreases fs.len(),
{
    if fs.len() == 0 { 0 } else { weight(fs.drop_last()) + frame_weight(fs.last()) }
}

/// A component read consumes input, except for TAG_End and a compound.
pub proof fn lemma_component_consumes(p: PlatformType, id: u8, s: Seq<u8>)
    ensures
        wire_component(p, id, s) matches Ok((c, r)) ==> (r.len() <= s.len() && (id != tag_id::END
            && id != tag_id::COMPOUND ==> r.len() < s.len()) && (id == tag_id::END || id == tag_id::COMPOUND ==> r == s)
            && (c is End ==> id == tag_id::END) && (c is Compound ==> id == tag_id::COMPOUND)),
{
}

/// Closing finished containers removes no weight.
pub proof fn lemma_drop_finished(fs: Seq<FrameView>)
    ensures
        weight(drop_finished(fs)) == weight(fs),
        drop_finished(fs).len() > 0 ==> frame_has_next(drop_finished(fs).last()),
        drop_finished(fs).len() <= fs.len(),
    decreases fs.len(),
{
    if fs.len() > 0 && !frame_has_next(fs.last()) {
        lemma_drop_finished(fs.drop_last());
    }
}

/// The weight is never negative.
pub proof fn lemma_weight_nonneg(fs: Seq<FrameView>)
    ensures
        weight(fs) >= 0,
    decreases fs.len(),
{
    if fs.len() > 0 {
        lemma_weight_nonneg(fs.drop_last());
    }
}

/// The weight after replacing the innermost container, or adding one.
pub proof fn lemma_weight_last(fs: Seq<FrameView>, f: FrameView)
    ensures
        fs.len() > 0 ==> weight(fs.update(fs.len() - 1, f)) == weight(fs) - frame_weight(fs.last()) + frame_weight(f),
        weight(fs.push(f)) == weight(fs) + frame_weight(f),
{
    if fs.len() > 0 {
        assert(fs.update(fs.len() - 1, f).drop_last() =~= fs.drop_last());
    }
    assert(fs.push(f).drop_last() =~= fs);
}

/// Reading on to the next value that holds no others: the containers and
/// input afterwards, and that value with the text of its path (none when the
/// document has ended).
pub open spec fn advance(p: PlatformType, frames: Seq<FrameView>, s: Seq<u8>) -> Result<
    (Seq<FrameView>, Seq<u8>, Option<(Seq<char>, CompView)>),
    Fault,
>
    decreases s.len(), weight(frames),
{
    let fr = drop_finished(frames);
    if fr.len() == 0 {
        Ok((fr, s, None))
    } else {
        match frame_next(p, fr.last(), s) {
            Err(e) => Err(e),
            Ok((f2, tag, c, r)) => {
                let fr2 = fr.update(fr.len() - 1, f2);
                proof {
                    lemma_drop_finished(frames);
                    lemma_weight_last(fr, f2);
                    lemma_drop_finished(fr2);
                    lemma_weight_last(fr2, FrameView::Compound { tag, has_next: true });
                    match fr.last() {
                        FrameView::List { id, index, length, .. } => {
                            lemma_component_consumes(p, id, s);
                            assert(index < length);
                            assert(frame_weight(f2) <= frame_weight(fr.last()) - 2);
                        },
                        FrameView::Compound { .. } => {
                            if let Ok((id, r1)) = wire_u8(s) {
                                if id != tag_id::END {
                                    if let Ok((name, r2)) = wire_tag(p, r1) {
                                        lemma_component_consumes(p, id, r2);
                                    }
                                }
                            }
                            assert(r.len() < s.len());
                        },
                    }
                    lemma_weight_nonneg(drop_finished(fr2));
                    lemma_weight_nonneg(push_nested(fr2, tag, c));
                    if c is End {
                        assert(r.len() < s.len() || (r == s && weight(drop_finished(fr2)) < weight(frames)));
                    } else if c is Compound || c is List {
                        assert(r.len() < s.len() || (r == s && weight(push_nested(fr2, tag, c)) < weight(frames)));
                    }
                }
                if c is End {
                    advance(p, drop_finished(fr2), r)
                } else if c is Compound || c is List {
                    advance(p, push_nested(fr2, tag, c), r)
                } else {
                    Ok((drop_finished(fr2), r, Some((leaf_path(fr2, tag), c))))
                }
            },
        }
    }
}

/// An open container that the reader reads children from.
pub trait Content {
    /// Whether [`Content::next`] may be called.
    spec fn can_read(&self) -> bool;

    /// Reads the next child: its name and its component.
    fn next(&mut self, decoder: &mut Decoder) -> Result<(String, NbtComponent), ParseError>
        requires
            old(self).can_read(),
    ;

    /// Whether the container has more children.
    fn has_next(&self) -> bool;

    /// The name the container was opened under.
    fn format(&self) -> &str;
}

/// An open list.
pub struct ListContent {
    tag: String,
    id: u8,
    index: i32,
    length: i32,
}

impl View for ListContent {
    type V = FrameView;

    closed spec fn view(&self) -> FrameView {
        FrameView::List { tag: self.tag@, id: self.id, index: self.index, length: self.length }
    }
}

impl ListContent {
    #[verifier::type_invariant]
    closed spec fn index_counts_up(&self) -> bool {
        self.index >= 0
    }

    /// A list of `length` elements of kind `id`, opened under `tag`.
    pub fn new(tag: String, id: u8, length: i32) -> (c: ListContent)
        ensures
            c@ == (FrameView::List { tag: tag@, id, index: 0, length }),
    {
        ListContent { tag, id, index: 0, length }
    }
}

impl Content for ListContent {
    closed spec fn can_read(&self) -> bool {
        self.index < i32::MAX
    }

    /// Reads the next element, named by its index in brackets.
    fn next(&mut self, decoder: &mut Decoder) -> (r: Result<(String, NbtComponent), ParseError>)
        ensures
            final(decoder).kind() == old(decoder).kind(),
            match frame_next(old(decoder).kind(), old(self)@, old(decoder).rest()) {
                Ok((f2, tag, c, rest)) => (r matches Ok((t, x)) && t@ == tag && x@ == c) && final(self)@ == f2
                    && final(decoder).rest() == rest,
                Err(f) => (r matches Err(e) && reports(e, f)) && final(self)@ == old(self)@,
            },
    {
        proof {
            use_type_invariant(&*self);
        }
        let component = next_by_id(self.id, decoder)?;
        let mut tag = String::from_str("[");
        push_decimal(&mut tag, self.index as u64);
        tag.append("]");
        self.index = self.index + 1;
        Ok((tag, component))
    }

    fn has_next(&self) -> (b: bool)
        ensures
            b == frame_has_next(self@),
    {
        self.index < self.length
    }

    fn format(&self) -> (t: &str)
        ensures
            t@ == frame_tag(self@),
    {
        self.tag.as_str()
    }
}

/// An open compound.
pub struct ComponentContent {
    tag: String,
    has_next: bool,
}

impl View for ComponentContent {
    type V = FrameView;

    closed spec fn view(&self) -> FrameView {
        FrameView::Compound { tag: self.tag@, has_next: self.has_next }
    }
}

impl ComponentContent {
    /// A compound opened under `tag`.
    pub fn new(tag: String) -> (c: ComponentContent)
        ensures
            c@ == (FrameView::Compound { tag: tag@, has_next: true }),
    {
        ComponentContent { tag, has_next: true }
    }
}

impl Content for ComponentContent {
    closed spec fn can_read(&self) -> bool {
        true
    }

    /// Reads the next field, or the TAG_End that closes the compound.
    fn next(&mut self, decoder: &mut Decoder) -> (r: Result<(String, NbtComponent), ParseError>)
        ensures
            final(decoder).kind() == old(decoder).kind(),
            match frame_next(old(decoder).kind(), old(self)@, old(decoder).rest()) {
                Ok((f2, tag, c, rest)) => (r matches Ok((t, x)) && t@ == tag && x@ == c) && final(self)@ == f2
                    && final(decoder).rest() == rest,
                Err(f) => (r matches Err(e) && reports(e, f)) && final(self)@ == old(self)@,
            },
    {
        let id = decoder.read_id()?;
        if id == tag_id::END {
            self.has_next = false;
            return Ok((String::new(), NbtComponent::End));
        }
        let tag = decoder.read_tag()?;
        let component = next_by_id(id, decoder)?;
        Ok((tag, component))
    }

    fn has_next(&self) -> (b: bool)
        ensures
            b == frame_has_next(self@),
    {
        self.has_next
    }

    fn format(&self) -> (t: &str)
        ensures
            t@ == frame_tag(self@),
    {
        self.tag.as_str()
    }
}

/// An open container of either kind.
pub enum Frame {
    List(ListContent),
    Compound(ComponentContent),
}

impl View for Frame {
    type V = FrameView;

    open spec fn view(&self) -> FrameView {
        match self {
            Frame::List(c) => c@,
            Frame::Compound(c) => c@,
        }
    }
}

/// The containers of a stack.
pub open spec fn frames_of(v: Seq<Frame>) -> Seq<FrameView> {
    Seq::new(v.len(), |i: int| v[i]@)
}

/// The containers a document starts with, read from its root's id and name
/// (and, for a list, its element id and length), and the input left.
pub open spec fn start_frames(p: PlatformType, s: Seq<u8>) -> Result<(Seq<FrameView>, Seq<u8>), Fault> {
    match wire_u8(s) {
        Err(f) => Err(f),
        Ok((id, r1)) => match wire_tag(p, r1) {
            Err(f) => Err(f),
            Ok((tag, r2)) => if id == tag_id::LIST {
                match wire_u8(r2) {
                    Err(f) => Err(f),
                    Ok((eid, r3)) => match wire_i32(p, r3) {
                        Err(f) => Err(f),
                        Ok((n, r4)) => Ok((
                            if n > 0 { seq![FrameView::List { tag, id: eid, index: 0, length: n }] } else { Seq::empty() },
                            r4,
                        )),
                    },
                }
            } else if id == tag_id::COMPOUND {
                Ok((seq![FrameView::Compound { tag, has_next: true }], r2))
            } else {
                Err(Fault::BadRoot(id))
            },
        },
    }
}

/// Streaming NBT reader that yields flattened leaf values.
///
/// Each call to [`Reader::next`] returns a `(path, value)` pair, where `path`
/// is a dotted path with list indices (for example `foo.bar[0].name`).
pub struct Reader {
    decoder: Decoder,
    stack: Vec<Frame>,
    next: Option<(String, NbtComponent)>,
}

impl Reader {
    /// The platform of the input.
    pub closed spec fn kind(&self) -> PlatformType {
        self.decoder.kind()
    }

    /// The input not read yet.
    pub closed spec fn rest(&self) -> Seq<u8> {
        self.decoder.rest()
    }

    /// The open containers, outermost first.
    pub closed spec fn frames(&self) -> Seq<FrameView> {
        frames_of(self.stack@)
    }

    /// The value that [`Reader::next`] returns next, with the text of its path.
    pub closed spec fn pending(&self) -> Option<(Seq<char>, CompView)> {
        match self.next {
            Some((path, c)) => Some((path@, c@)),
            None => None,
        }
    }

    /// What reading a document from `input` gives: the reader's state after
    /// its first value, or the fault.
    pub open spec fn opening(p: PlatformType, input: Seq<u8>) -> Result<
        (Seq<FrameView>, Seq<u8>, Option<(Seq<char>, CompView)>),
        Fault,
    > {
        match start_frames(p, input) {
            Err(f) => Err(f),
            Ok((fs, r)) => advance(p, fs, r),
        }
    }

    /// Creates a reader over `input`.
    ///
    /// The input must start a document whose first value can be read (use
    /// [`Reader::try_new`] to get a failure as an error).
    pub fn new(input: Vec<u8>, platform: PlatformType) -> (r: Reader)
        requires
            Self::opening(platform, input@) is Ok,
        ensures
            r.kind() == platform,
            Self::opening(platform, input@) matches Ok((fs, rest, ev)) && r.frames() == fs && r.rest() == rest
                && r.pending() == ev,
    {
        match Reader::try_new(input, platform) {
            Ok(r) => r,
            Err(_) => {
                proof {
                    assert(false);
                }
                Reader { decoder: build(Vec::new(), platform), stack: Vec::new(), next: None }
            },
        }
    }

    /// Creates a reader over `input`: reads the root's id and name and the
    /// first value.
    pub fn try_new(input: Vec<u8>, platform: PlatformType) -> (r: Result<Reader, ParseError>)
        ensures
            match Self::opening(platform, input@) {
                Ok((fs, rest, ev)) => r matches Ok(x) && x.kind() == platform && x.frames() == fs && x.rest() == rest
                    && x.pending() == ev,
                Err(f) => r matches Err(e) && reports(e, f),
            },
    {
        let decoder = build(input, platform);
        let mut reader = Reader { decoder, stack: Vec::new(), next: None };
        assert(reader.frames() =~= Seq::<FrameView>::empty());
        reader.init()?;
        Ok(reader)
    }

    /// Creates a reader over the contents `raw` of a file, which may be gzip
    /// or zlib compressed, as its first two bytes announce.
    pub fn try_new_compressed(raw: Vec<u8>, platform: PlatformType) -> (r: Result<Reader, ParseError>)
        ensures
            raw@.len() < 2 ==> r matches Err(ParseError::UnexpectedEOF),
            raw@.len() >= 2 ==> match inflated(announced(raw@[0], raw@[1]), raw@) {
                None => r matches Err(e) && e is Io,
                Some(b) => match Self::opening(platform, b) {
                    Ok((fs, rest, ev)) => r matches Ok(x) && x.kind() == platform && x.frames() == fs
                        && x.rest() == rest && x.pending() == ev,
                    Err(f) => r matches Err(e) && reports(e, f),
                },
            },
    {
        let (_, bytes) = open_bytes(raw.as_slice())?;
        Reader::try_new(bytes, platform)
    }

    /// Appends one part to a path: a `[..]` part directly, a name after a dot.
    fn append_path_part(path: &mut String, part: &str)
        ensures
            final(path)@ == append_part(old(path)@, part@),
    {
        if path.as_str().is_empty() || (part.unicode_len() > 0 && part.get_char(0) == '[') {
            path.append(part);
            return;
        }
        path.append(".");
        path.append(part);
    }

    /// The text of the path to a child named `tag` of the innermost container.
    fn path(&self, tag: &str) -> (r: String)
        ensures
            r@ == leaf_path(self.frames(), tag@),
    {
        let mut path = String::new();
        let ghost fs = self.frames();
        let ghost inner = if fs.len() > 0 { fs.drop_first() } else { fs };
        let mut i: usize = 1;
        assert(inner.take(0) =~= Seq::<FrameView>::empty());
        while i < self.stack.len()
            invariant
                1 <= i,
                fs == self.frames(),
                inner == (if fs.len() > 0 { fs.drop_first() } else { fs }),
                i <= fs.len() || fs.len() == 0,
                fs.len() == 0 ==> i == 1,
                path@ == join_tags(inner.take(i - 1)),
            decreases self.stack@.len() - i,
        {
            let part = match &self.stack[i] {
                Frame::List(c) => c.format(),
                Frame::Compound(c) => c.format(),
            };
            Self::append_path_part(&mut path, part);
            proof {
                assert(inner.take(i as int).drop_last() =~= inner.take(i - 1));
                assert(inner.take(i as int).last() == fs[i as int]);
            }
            i = i + 1;
        }
        proof {
            if fs.len() > 0 {
                assert(inner.take(i - 1) =~= inner);
            } else {
                assert(inner.take(0) =~= inner);
            }
        }
        Self::append_path_part(&mut path, tag);
        path
    }

    /// Opens a container for a child that is a compound or a non-empty list.
    fn push_nested_content(&mut self, tag: String, component: &NbtComponent)
        ensures
            final(self).decoder == old(self).decoder,
            final(self).next == old(self).next,
            final(self).frames() == push_nested(old(self).frames(), tag@, component@),
    {
        let ghost fs = self.frames();
        match component {
            NbtComponent::Compound => {
                self.stack.push(Frame::Compound(ComponentContent::new(tag)));
                assert(self.frames() =~= fs.push(FrameView::Compound { tag: tag@, has_next: true }));
            },
            NbtComponent::List { id, length } => {
                if *length > 0 {
                    self.stack.push(Frame::List(ListContent::new(tag, *id, *length)));
                    assert(self.frames() =~= fs.push(FrameView::List { tag: tag@, id: *id, index: 0, length: *length }));
                }
            },
            _ => {},
        }
    }

    /// Returns whether another leaf value is available.
    pub fn has_next(&self) -> (b: bool)
        ensures
            b == self.pending() is Some,
    {
        self.next.is_some()
    }

    /// Closes the finished containers on top of the stack.
    fn pop_until_has_next(&mut self)
        ensures
            final(self).decoder == old(self).decoder,
            final(self).next == old(self).next,
            final(self).frames() == drop_finished(old(self).frames()),
    {
        loop
            invariant
                self.decoder == old(self).decoder,
                self.next == old(self).next,
                drop_finished(self.frames()) == drop_finished(old(self).frames()),
            ensures
                self.decoder == old(self).decoder,
                self.next == old(self).next,
                self.frames() == drop_finished(old(self).frames()),
            decreases self.stack@.len(),
        {
            let n = self.stack.len();
            if n == 0 {
                return;
            }
            let more = match &self.stack[n - 1] {
                Frame::List(c) => c.has_next(),
                Frame::Compound(c) => c.has_next(),
            };
            if more {
                return;
            }
            let ghost fs = self.frames();
            self.stack.pop();
            assert(self.frames() =~= fs.drop_last());
        }
    }

    /// Reads the root's id and name, opens the root container, and reads on
    /// to the first value.
    fn init(&mut self) -> (r: Result<(), ParseError>)
        requires
            old(self).frames().len() == 0,
            old(self).next is None,
        ensures
            final(self).kind() == old(self).kind(),
            match Self::opening(old(self).kind(), old(self).rest()) {
                Ok((fs, rest, ev)) => r is Ok && final(self).frames() == fs && final(self).rest() == rest
                    && final(self).pending() == ev,
                Err(f) => r matches Err(e) && reports(e, f),
            },
    {
        let ghost fs0 = self.frames();
        let id = self.decoder.read_id()?;
        let tag = self.decoder.read_tag()?;
        if id == tag_id::LIST {
            let element_id = self.decoder.read_id()?;
            let length = self.decoder.read_int()?;
            if length > 0 {
                self.stack.push(Frame::List(ListContent::new(tag, element_id, length)));
            }
            assert(self.frames() =~= if length > 0 {
                seq![FrameView::List { tag: tag@, id: element_id, index: 0, length }]
            } else {
                Seq::empty()
            });
        } else if id == tag_id::COMPOUND {
            self.stack.push(Frame::Compound(ComponentContent::new(tag)));
            assert(self.frames() =~= seq![FrameView::Compound { tag: tag@, has_next: true }]);
        } else {
            return Err(ParseError::InvalidRootTag(id));
        }
        self.advance_to_next_leaf()
    }

    /// Returns the next `(path, value)` pair in traversal order.
    ///
    /// Returns [`ParseError::UnexpectedEOF`] when the stream has been exhausted.
    pub fn next(&mut self) -> (r: Result<(String, NbtComponent), ParseError>)
        ensures
            final(self).kind() == old(self).kind(),
            match old(self).pending() {
                None => r matches Err(ParseError::UnexpectedEOF) && *final(self) == *old(self),
                Some(ev) => match advance(old(self).kind(), old(self).frames(), old(self).rest()) {
                    Ok((fs, rest, ev2)) => (r matches Ok((path, c)) && path@ == ev.0 && c@ == ev.1)
                        && final(self).frames() == fs && final(self).rest() == rest && final(self).pending() == ev2,
                    Err(f) => (r matches Err(e) && reports(e, f)) && final(self).pending() is None,
                },
            },
    {
        let current = match self.next.take() {
            Some(c) => c,
            None => return Err(ParseError::UnexpectedEOF),
        };
        self.advance_to_next_leaf()?;
        Ok(current)
    }

    /// Reads on to the next value that holds no others.
    fn advance_to_next_leaf(&mut self) -> (r: Result<(), ParseError>)
        ensures
            final(self).kind() == old(self).kind(),
            match advance(old(self).kind(), old(self).frames(), old(self).rest()) {
                Ok((fs, rest, ev)) => r is Ok && final(self).frames() == fs && final(self).rest() == rest
                    && final(self).pending() == ev,
                Err(f) => (r matches Err(e) && reports(e, f)) && final(self).pending() is None,
            },
    {
        self.next = None;
        let ghost p = self.kind();
        let ghost goal = advance(p, self.frames(), self.rest());
        loop
            invariant
                self.kind() == p,
                p == old(self).kind(),
                self.next is None,
                goal == advance(old(self).kind(), old(self).frames(), old(self).rest()),
                goal == advance(p, self.frames(), self.rest()),
            decreases self.rest().len(), weight(self.frames()),
        {
            let ghost fs0 = self.frames();
            let ghost s0 = self.rest();
            self.pop_until_has_next();
            let n = self.stack.len();
            if n == 0 {
                return Ok(());
            }
            let ghost fr = self.frames();
            proof {
                lemma_drop_finished(fs0);
            }
            let res = match &mut self.stack[n - 1] {
                Frame::List(c) => {
                    proof {
                        use_type_invariant(&*c);
                    }
                    c.next(&mut self.decoder)
                },
                Frame::Compound(c) => c.next(&mut self.decoder),
            };
            let (tag, component) = match res {
                Ok(x) => x,
                Err(e) => {
                    return Err(e);
                },
            };
            let ghost fr2 = self.frames();
            let ghost s1 = self.rest();
            proof {
                assert(fr2 =~= fr.update(fr.len() - 1, fr2.last()));
                lemma_weight_last(fr, fr2.last());
                lemma_drop_finished(fr2);
                lemma_weight_last(fr2, FrameView::Compound { tag: tag@, has_next: true });
                lemma_weight_nonneg(drop_finished(fr2));
                lemma_weight_nonneg(push_nested(fr2, tag@, component@));
                match fr.last() {
                    FrameView::List { id, index, length, .. } => {
                        lemma_component_consumes(p, id, s0);
                        assert(frame_weight(fr2.last()) <= frame_weight(fr.last()) - 2);
                    },
                    FrameView::Compound { .. } => {
                        if let Ok((id, r1)) = wire_u8(s0) {
                            if id != tag_id::END {
                                if let Ok((name, r2)) = wire_tag(p, r1) {
                                    lemma_component_consumes(p, id, r2);
                                }
                            }
                        }
                        assert(s1.len() < s0.len());
                    },
                }
            }
            match &component {
                NbtComponent::End => {
                    self.pop_until_has_next();
                },
                NbtComponent::Compound | NbtComponent::List { .. } => {
                    self.push_nested_content(tag, &component);
                },
                _ => {
                    let path = self.path(tag.as_str());
                    self.pop_until_has_next();
                    self.next = Some((path, component));
                    return Ok(());
                },
            }
        }
    }
}

} // verus!
