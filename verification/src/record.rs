//! Typed records: values a collection can store as text and read back.

use vstd::prelude::*;

use crate::codec::{deserialize_spec, lemma_round_trip, ser};
use crate::doc::{Doc, DocV};

verus! {

/// A record type with a text encoding that its decoding inverts.
/// Implementations fix the encoding of a record's model, prove the
/// round trip, and can copy a record without changing its model.
pub trait Record: DeepView + Sized {
    /// The encoded text of a record with model `v`.
    spec fn encode_of(v: Self::V) -> Seq<char>;

    /// The model read back from `s`, if `s` decodes at all.
    spec fn decode_of(s: Seq<char>) -> Option<Self::V>;

    /// Encodes this record.
    fn encode(&self) -> (r: String)
        ensures
            r@ == Self::encode_of(self.deep_view()),
    ;

    /// Decodes a record from text; exactly the texts with a decodable
    /// model succeed.
    fn decode(s: &str) -> (r: Option<Self>)
        ensures
            match r {
                Some(t) => Self::decode_of(s@) == Some(t.deep_view()),
                None => Self::decode_of(s@) is None,
            },
    ;

    /// Copies the record, keeping its model.
    fn duplicate(&self) -> (r: Self)
        ensures
            r.deep_view() == self.deep_view(),
    ;

    /// Decoding inverts encoding on every model.
    proof fn round_trip(v: Self::V)
        ensures
            Self::decode_of(Self::encode_of(v)) == Some(v),
    ;
}

impl Record for Doc {
    open spec fn encode_of(v: DocV) -> Seq<char> {
        ser(v)
    }

    open spec fn decode_of(s: Seq<char>) -> Option<DocV> {
        deserialize_spec(s)
    }

    fn encode(&self) -> (r: String) {
        self.emit()
    }

    fn decode(s: &str) -> (r: Option<Doc>) {
        Doc::from_str(s)
    }

    fn duplicate(&self) -> (r: Doc) {
        self.duplicate()
    }

    proof fn round_trip(v: DocV) {
        lemma_round_trip(v);
    }
}

} // verus!
