//! What the store asks of a record type.
//!
//! A record has a mathematical value, its view, and an encoding of that value
//! as bytes. The encoding of a record says where it ends: no encoding is the
//! beginning of another. That is what lets records be written one after the
//! other and read back.

use crate::wire::{lemma_str_bytes_unique, occurs_at, put_str, str_bytes, str_fits, take_string};
use vstd::prelude::*;

verus! {

/// A type whose values the store can hold: it says how a value is written as
/// bytes and how it is read back.
pub trait Record: View + Sized {
    /// The value is small enough to be held in memory. A length that could
    /// not be written as a 64-bit integer is the only thing that rules a value
    /// out, so every value that a program holds is representable.
    spec fn representable(v: Self::V) -> bool;

    /// The bytes that stand for the value.
    spec fn encoding(v: Self::V) -> Seq<u8>;

    /// No value is encoded as nothing.
    proof fn lemma_encoding_nonempty(v: Self::V)
        ensures
            Self::encoding(v).len() > 0,
    ;

    /// At most one value has its encoding at a given place.
    proof fn lemma_encoding_unique(s: Seq<u8>, at: int, a: Self::V, b: Self::V)
        requires
            Self::representable(a),
            Self::representable(b),
            occurs_at(s, at, Self::encoding(a)),
            occurs_at(s, at, Self::encoding(b)),
        ensures
            a == b,
    ;

    /// Appends the encoding of the record to `out`.
    fn encode(&self, out: &mut Vec<u8>)
        ensures
            Self::representable(self@),
            final(out)@ == old(out)@ + Self::encoding(self@),
    ;

    /// Reads the record whose encoding stands at `at`, and says where it
    /// ends. There is none exactly when no value has its encoding there.
    fn decode(bytes: &[u8], at: usize) -> (r: Option<(Self, usize)>)
        ensures
            match r {
                Some((record, end)) => {
                    &&& Self::representable(record@)
                    &&& occurs_at(bytes@, at as int, Self::encoding(record@))
                    &&& end == at + Self::encoding(record@).len() <= bytes@.len()
                },
                None => forall|v: Self::V|
                    Self::representable(v) ==> !occurs_at(
                        bytes@,
                        at as int,
                        #[trigger] Self::encoding(v),
                    ),
            },
    ;
}

/// Some value has its encoding at `at`.
pub open spec fn decodable_at<T: Record>(s: Seq<u8>, at: int) -> bool {
    exists|v: T::V| T::representable(v) && occurs_at(s, at, #[trigger] T::encoding(v))
}

/// A line of text, as the command and search histories hold it.
impl Record for String {
    open spec fn representable(v: Seq<char>) -> bool {
        str_fits(v)
    }

    open spec fn encoding(v: Seq<char>) -> Seq<u8> {
        str_bytes(v)
    }

    proof fn lemma_encoding_nonempty(v: Seq<char>) {
    }

    proof fn lemma_encoding_unique(s: Seq<u8>, at: int, a: Seq<char>, b: Seq<char>) {
        lemma_str_bytes_unique(s, at, a, b);
    }

    fn encode(&self, out: &mut Vec<u8>) {
        put_str(out, self.as_str());
    }

    fn decode(bytes: &[u8], at: usize) -> (r: Option<(Self, usize)>) {
        take_string(bytes, at)
    }
}

} // verus!
