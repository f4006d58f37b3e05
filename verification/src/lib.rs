//! Protocol Buffers JSON: messages read from and written as JSON, in the way that the ProtoJSON
//! format lays down.
//!
//! A message is read from a JSON text or from a tree of plain values, and written as either. The
//! readers and writers are described by functions from a schema, a message and a JSON value, and
//! the laws say what holds between them.
#![allow(unused_imports)]

// Values and their texts.
pub mod text;
pub mod integer;
pub mod double;
pub mod octets;
pub mod names;
pub mod value;

// What messages are made of.
pub mod descriptor;
pub mod wkt;

// What can go wrong, and what the host is asked.
pub mod error;
pub mod question;
pub mod report;

// The JSON forms of the well-known types.
pub mod civil;
pub mod wkt_json;
pub mod field_mask;

// Where JSON is read from and written to.
pub mod json_text;
pub mod json_source;
pub mod json_sink;

// Reading and writing.
pub mod json_scalars;
pub mod json_parse;
pub mod json_serialize;

// Laws.
pub mod json_shown;
pub mod json_printed;
pub mod json_form;
pub mod scalar_forms;
pub mod merging;
pub mod emitting;
pub mod well_known;
pub mod replies;
pub mod round_trip;

// Memory layout.
pub mod raw_alloc;
