//! Reading and writing Minecraft NBT data (Java and Bedrock editions).
//!
//! The binary codec, the streaming reader and writer, the document tree with
//! its path-based edits, the streaming editor, and the helpers of the
//! command-line tool live here with their contracts, together with the laws
//! that tie them to one another.
#![allow(unused_imports)]

pub mod platform;
pub mod tag_id;
pub mod error;
pub mod byte_order;

pub use platform::PlatformType;
pub use error::ParseError;
pub use component::NbtComponent;
pub use reader::Reader;
pub use writer::{RootType, Writer};

// the binary format
pub mod text;
pub mod wire;
pub mod component;
pub mod decoder;
pub mod encoder;
pub mod tree;
pub mod codec;
pub mod roundtrip;
pub mod editions;
pub mod compression;

// streaming reader and writer
pub mod writer;
pub mod session;
pub mod reader;
pub mod leaves;

// paths and edits on the tree
pub mod path;
pub mod path_text;
pub mod path_order;
pub mod edit;
pub mod inverse;
pub mod select;
pub mod editor;
pub mod delete_run;
pub mod read_path;
pub mod value_text;
pub mod where_match;
pub mod where_delete;
pub mod replace_kind;

// editing while streaming
pub mod stream;
pub mod scan;
pub mod filter;
pub mod number;
pub mod passthrough;
pub mod set_edit;
pub mod create_edit;
pub mod delete_edit;
pub mod decide_edit;
pub mod delete_agree;
