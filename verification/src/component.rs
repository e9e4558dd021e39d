use vstd::prelude::*;

verus! {

/// One NBT tag payload, as the streaming reader reports it and the streaming
/// writer accepts it.
///
/// Floating-point payloads are carried as their IEEE-754 bit patterns
/// (`f32::to_bits` / `f64::to_bits`), exactly as they stand in the stream.
#[derive(Debug, PartialEq)]
pub enum NbtComponent {
    /// TAG_End (0x00), used as a sentinel inside compounds.
    End,
    /// TAG_Byte (0x01).
    Byte(i8),
    /// TAG_Short (0x02).
    Short(i16),
    /// TAG_Int (0x03).
    Int(i32),
    /// TAG_Long (0x04).
    Long(i64),
    /// TAG_Float (0x05), as the bits of an `f32`.
    Float(u32),
    /// TAG_Double (0x06), as the bits of an `f64`.
    Double(u64),
    /// TAG_Byte_Array (0x07).
    ByteArray(Vec<u8>),
    /// TAG_String (0x08).
    String(String),
    /// TAG_List (0x09), with element tag id and element count.
    List { id: u8, length: i32 },
    /// TAG_Compound (0x0A), signals a nested compound scope.
    Compound,
    /// TAG_Int_Array (0x0B).
    IntArray(Vec<i32>),
    /// TAG_Long_Array (0x0C).
    LongArray(Vec<i64>),
}

} // verus!

verus! {

/// The mathematical form of an [`NbtComponent`].
pub enum CompView {
    End,
    Byte(i8),
    Short(i16),
    Int(i32),
    Long(i64),
    Float(u32),
    Double(u64),
    ByteArray(Seq<u8>),
    String(Seq<char>),
    List { id: u8, length: i32 },
    Compound,
    IntArray(Seq<i32>),
    LongArray(Seq<i64>),
}

impl View for NbtComponent {
    type V = CompView;

    open spec fn view(&self) -> CompView {
        match self {
            NbtComponent::End => CompView::End,
            NbtComponent::Byte(x) => CompView::Byte(*x),
            NbtComponent::Short(x) => CompView::Short(*x),
            NbtComponent::Int(x) => CompView::Int(*x),
            NbtComponent::Long(x) => CompView::Long(*x),
            NbtComponent::Float(x) => CompView::Float(*x),
            NbtComponent::Double(x) => CompView::Double(*x),
            NbtComponent::ByteArray(x) => CompView::ByteArray(x@),
            NbtComponent::String(x) => CompView::String(x@),
            NbtComponent::List { id, length } => CompView::List { id: *id, length: *length },
            NbtComponent::Compound => CompView::Compound,
            NbtComponent::IntArray(x) => CompView::IntArray(x@),
            NbtComponent::LongArray(x) => CompView::LongArray(x@),
        }
    }
}

} // verus!
