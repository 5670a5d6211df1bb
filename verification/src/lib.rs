//! A compact, self-describing binary message format for exchanging small
//! sets of typed values between two components that share no in-memory
//! type system.
//!
//! A [`MessagePayload`] holds an optional ordered collection of
//! [`MessageItem`]s (single tagged values) and an optional ordered
//! collection of [`MessageVec`]s (tagged arrays of values), each keyed by a
//! 128-bit identifier that is unique within its own collection.  The
//! payload encodes to and decodes from the SCALE wire layout: fixed-width
//! little-endian identifiers, one discriminant byte per [`MsgType`],
//! compact (variable-width) length prefixes, and one presence byte per
//! optional collection.

pub mod payload;
pub mod records;
pub mod seqs;
pub mod tag;
pub mod wire;

pub use payload::MessagePayload;
pub use payload::PayloadView;
pub use payload::lemma_cross_collection_independence;
pub use payload::lemma_duplicate_rejected;
pub use payload::lemma_insertion_order;
pub use payload::lemma_payload_round_trip;
pub use records::ItemView;
pub use records::MessageItem;
pub use records::MessageVec;
pub use records::VecView;
pub use wire::CodecError;
pub use tag::MsgType;
