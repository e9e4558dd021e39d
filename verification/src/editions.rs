//! Decoders and encoders fixed to one edition.
use vstd::prelude::*;
use crate::decoder::Decoder;
use crate::encoder::Encoder;
use crate::platform::PlatformType;

verus! {

/// A decoder for Java Edition data (big-endian numbers, modified UTF-8 text).
pub struct JavaNbtDecoder {
    decoder: Decoder,
}

impl JavaNbtDecoder {
    #[verifier::type_invariant]
    closed spec fn fixed_edition(&self) -> bool {
        self.decoder.kind() == PlatformType::JavaEdition
    }

    /// The input not read yet.
    pub closed spec fn rest(&self) -> Seq<u8> {
        self.decoder.rest()
    }

    /// A decoder over `input`, at its first byte.
    pub fn new(input: Vec<u8>) -> (d: Self)
        ensures
            d.rest() == input@,
    {
        JavaNbtDecoder { decoder: Decoder::new(input, PlatformType::JavaEdition) }
    }

    /// The general decoder, set to Java Edition.
    pub fn into_decoder(self) -> (d: Decoder)
        ensures
            d.kind() == PlatformType::JavaEdition,
            d.rest() == self.rest(),
    {
        proof {
            use_type_invariant(&self);
        }
        self.decoder
    }
}

/// A encoder for Java Edition data (big-endian numbers, modified UTF-8 text).
pub struct JavaNbtEncoder {
    encoder: Encoder,
}

impl JavaNbtEncoder {
    #[verifier::type_invariant]
    closed spec fn fixed_edition(&self) -> bool {
        self.encoder.kind() == PlatformType::JavaEdition
    }

    /// The bytes written so far.
    pub closed spec fn written(&self) -> Seq<u8> {
        self.encoder.written()
    }

    /// An encoder that appends to `output`.
    pub fn new(output: Vec<u8>) -> (d: Self)
        ensures
            d.written() == output@,
    {
        JavaNbtEncoder { encoder: Encoder::new(output, PlatformType::JavaEdition) }
    }

    /// The general encoder, set to Java Edition.
    pub fn into_encoder(self) -> (d: Encoder)
        ensures
            d.kind() == PlatformType::JavaEdition,
            d.written() == self.written(),
    {
        proof {
            use_type_invariant(&self);
        }
        self.encoder
    }
}

/// A decoder for Bedrock Edition data (little-endian numbers, UTF-8 text).
pub struct BedrockNbtDecoder {
    decoder: Decoder,
}

impl BedrockNbtDecoder {
    #[verifier::type_invariant]
    closed spec fn fixed_edition(&self) -> bool {
        self.decoder.kind() == PlatformType::BedrockEdition
    }

    /// The input not read yet.
    pub closed spec fn rest(&self) -> Seq<u8> {
        self.decoder.rest()
    }

    /// A decoder over `input`, at its first byte.
    pub fn new(input: Vec<u8>) -> (d: Self)
        ensures
            d.rest() == input@,
    {
        BedrockNbtDecoder { decoder: Decoder::new(input, PlatformType::BedrockEdition) }
    }

    /// The general decoder, set to Bedrock Edition.
    pub fn into_decoder(self) -> (d: Decoder)
        ensures
            d.kind() == PlatformType::BedrockEdition,
            d.rest() == self.rest(),
    {
        proof {
            use_type_invariant(&self);
        }
        self.decoder
    }
}

/// A encoder for Bedrock Edition data (little-endian numbers, UTF-8 text).
pub struct BedrockNbtEncoder {
    encoder: Encoder,
}

impl BedrockNbtEncoder {
    #[verifier::type_invariant]
    closed spec fn fixed_edition(&self) -> bool {
        self.encoder.kind() == PlatformType::BedrockEdition
    }

    /// The bytes written so far.
    pub closed spec fn written(&self) -> Seq<u8> {
        self.encoder.written()
    }

    /// An encoder that appends to `output`.
    pub fn new(output: Vec<u8>) -> (d: Self)
        ensures
            d.written() == output@,
    {
        BedrockNbtEncoder { encoder: Encoder::new(output, PlatformType::BedrockEdition) }
    }

    /// The general encoder, set to Bedrock Edition.
    pub fn into_encoder(self) -> (d: Encoder)
        ensures
            d.kind() == PlatformType::BedrockEdition,
            d.written() == self.written(),
    {
        proof {
            use_type_invariant(&self);
        }
        self.encoder
    }
}

} // verus!
