//! # Multipart streams
//!
//! Reading and writing multipart streams, with the behaviour of every step stated
//! and proved. The core types are [`MultipartStream`], which turns
//! [`MultipartSection`]s into the body of a `multipart/mixed` response, and
//! [`MultipartReader`], which reads a multipart stream as a sequence of
//! [`MultipartReadSection`]s.
//!
//! Nothing here waits for anything. A function that needs bytes, a frame or a
//! section says so in its result, and is called again with what came.
//!
//! The modules that end in `_laws`, and [`streams`], [`reading`], [`writing`],
//! [`round_trip`] and [`boundaries`], state what holds of several calls together. Those
//! that start with `plain_` state what single calls do, on the characters and the bytes.

pub mod boundaries;
pub mod buffer;
pub mod content_type;
pub mod decoder;
pub mod decoder_laws;
pub mod error;
pub mod header;
pub mod header_laws;
pub mod json;
pub mod plain_admission;
pub mod plain_decoding;
pub mod plain_reading;
pub mod plain_text;
pub mod plain_views;
pub mod plain_writing;
pub mod reader;
pub mod reading;
pub mod round_trip;
pub mod search;
pub mod streams;
pub mod text;
pub mod text_laws;
pub mod writer;
pub mod writing;

pub use content_type::ContentType;
pub use decoder::{MultipartDecoder, MultipartDecoderState, MultipartFrame};
pub use error::{Error, JsonFailure};
pub use header::Header;
pub use reader::{
    BodyAction, FillAction, FrameEvent, FromData, MultipartReadSection, MultipartReader,
    NextAction, NextProgress, ReadAction,
};
pub use text::Utf8Failure;
pub use writer::{
    MultipartSection, MultipartStream, MultipartStreamInner, StreamAction, StreamEvent,
    StreamResponse,
};
