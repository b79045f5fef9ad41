//! Durable storage format for one end-to-end-encrypted conversation: the local
//! send stream, one cursor per remote stream, and the table of key windows used
//! to decrypt by stream position.
//!
//! Every record has an exact model (`InteractionView`, `SendStreamView`, ...),
//! its byte layout is a spec function of that model, and each reader is proved
//! to return exactly what the matching spec parser gives. Reading back what was
//! written gives the same value: see `interaction::lemma_load_save`.

mod bytes;
pub mod error;
pub mod interaction;
pub mod key_table;
pub mod recv_stream;
pub mod send_stream;
pub mod varint;
