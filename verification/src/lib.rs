//! A small JSON engine: a grammar parser that turns text into an in-memory
//! `Value`, a serializer that renders a `Value` back as compact JSON text,
//! and a conversion protocol between `Value` and typed program data,
//! together with the HTTP request-line, header, cookie and configuration
//! helpers that surround it.

pub mod config;
pub mod convert;
pub mod num;
pub mod parse;
pub mod request;
pub mod round_trip;
pub mod ser;
pub mod strutil;
pub mod value;

pub use value::Value;
