//! Decoder for length-prefixed, self-describing binary documents
//! (integers, byte strings, lists, and ordered key-value maps) into
//! typed file-distribution descriptors, with a verified serializer,
//! a verified parser, and a content hash over one embedded sub-document.

pub mod node;
pub mod codec;
pub mod decodeutil;
pub mod hash;
pub mod metainfo;
