use vstd::prelude::*;

verus! {

/// Minecraft NBT binary format variant.
#[derive(Copy, Clone, Debug, PartialEq, Eq, Structural)]
pub enum PlatformType {
    /// Java Edition NBT encoding: big-endian numbers, modified UTF-8 text.
    JavaEdition,
    /// Bedrock Edition NBT encoding: little-endian numbers, UTF-8 text.
    BedrockEdition,
}

} // verus!
