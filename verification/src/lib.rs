//! A two-party encrypted chat session over a raw byte stream, and a few small
//! tools for text and files.
//!
//! The peers of a chat agree on a 64-bit secret with a Diffie-Hellman exchange
//! and then pass every chunk of traffic through a rotating XOR keystream
//! derived from that secret. The arithmetic ([`modexp`], [`dh`]), the cipher
//! ([`cipher`]), the wire encoding ([`wire`]) and the session's decisions
//! ([`session`], [`listener`]) live here.
//!
//! Beside them stand the tools: numbers read from text ([`parse`]), bytes
//! shown and read in hexadecimal ([`hexdump`]), a greeting ([`greeting`]) and
//! a count of the words of a text ([`wordfreq`]).
//!
//! Every function has a contract that Verus proves. The exceptions are four
//! one-line calls out of the library, whose results are taken as they come:
//! the draw of a random number and three look-ups in the standard library's
//! Unicode tables. Sockets, files, threads and the console are left to the
//! programs that use the library.

pub mod cipher;
pub mod dh;
pub mod greeting;
pub mod hexdump;
pub mod listener;
pub mod modexp;
pub mod parse;
pub mod session;
pub mod wire;
pub mod wordfreq;
