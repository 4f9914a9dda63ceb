//! The history store: append, read all, and trim to a maximum count, over
//! the content of one backing file.
//!
//! A backing file holds the encodings of its records back to back, oldest
//! first, with nothing before, between or after them. A file that does not
//! exist stands for an empty history. The store never touches a file itself:
//! it is handed the content and returns what is to be appended or written.

use crate::record::{decodable_at, Record};
use crate::sequence::{
    all_representable, encode_all, lemma_encode_all_concat, lemma_encode_all_empty,
    lemma_encode_all_front, lemma_spells_prefix, lemma_spells_unique, spells, views,
};
use crate::wire::{lemma_occurs_at_concat, lemma_occurs_at_skip, lemma_occurs_at_start};
use vstd::prelude::*;

verus! {

/// The read of a backing file failed: its content is not a sequence of
/// records. `offset` is where the first piece that is no record begins.
#[derive(Clone, Copy, Debug, PartialEq, Eq)]
pub struct DecodeError {
    pub offset: usize,
}

/// The bytes that a backing file holds; none for a file that does not exist.
pub open spec fn file_bytes(content: Option<&[u8]>) -> Seq<u8> {
    match content {
        Some(bytes) => bytes@,
        None => Seq::empty(),
    }
}

/// The history that a content holds: the values whose encodings it is made
/// of, oldest first, and none if it is not made of encodings.
pub open spec fn stored<T: Record>(content: Seq<u8>) -> Option<Seq<T::V>> {
    if exists|records: Seq<T::V>| spells::<T>(content, records) {
        Some(choose|records: Seq<T::V>| spells::<T>(content, records))
    } else {
        None
    }
}

/// What a failed read says of a content: it is not made of encodings of
/// records, and `e.offset` is where the first piece that is no record
/// begins. What stands before that point is made of encodings.
pub open spec fn read_fails_at<T: Record>(content: Seq<u8>, e: DecodeError) -> bool {
    &&& stored::<T>(content) is None
    &&& e.offset < content.len()
    &&& stored::<T>(content.take(e.offset as int)) is Some
    &&& !decodable_at::<T>(content, e.offset as int)
}

/// What a read returns of a content: the records it holds, oldest first; or
/// an error where it is not made of encodings of records.
pub open spec fn reads<T: Record>(content: Option<&[u8]>, r: Result<Vec<T>, DecodeError>) -> bool {
    match r {
        Ok(records) => stored::<T>(file_bytes(content)) == Some(views(records@)),
        Err(e) => read_fails_at::<T>(file_bytes(content), e),
    }
}

/// What a trim to `max_entries` keeps of a history: all of it if it is no
/// longer than that, else the last `max_entries` values.
pub open spec fn kept<V>(records: Seq<V>, max_entries: nat) -> Seq<V> {
    if records.len() <= max_entries {
        records
    } else {
        records.skip(records.len() - max_entries)
    }
}

/// The content of a backing file after a trim to `max_entries`: the
/// encodings of what the trim keeps where the file held more than that, and
/// the content as it was where it held no more or could not be read.
pub open spec fn after_trim<T: Record>(content: Seq<u8>, max_entries: nat) -> Seq<u8> {
    match stored::<T>(content) {
        Some(records) => if records.len() > max_entries {
            encode_all::<T>(kept(records, max_entries))
        } else {
            content
        },
        None => content,
    }
}

/// The content of a backing file after what a trim returned has been done
/// to it.
pub open spec fn rewritten(content: Seq<u8>, rewrite: Option<Vec<u8>>) -> Seq<u8> {
    match rewrite {
        Some(trimmed) => trimmed@,
        None => content,
    }
}

/// What a trim to the last `max_entries` records returns of a content: no
/// new content where it holds no more than that, else the encodings of its
/// last `max_entries` records; or an error where it is not made of encodings
/// of records.
pub open spec fn trims<T: Record>(
    content: Option<&[u8]>,
    max_entries: usize,
    r: Result<Option<Vec<u8>>, DecodeError>,
) -> bool {
    match r {
        Ok(rewrite) => {
            &&& stored::<T>(file_bytes(content)) matches Some(records)
            &&& rewrite is Some <==> records.len() > max_entries
            &&& rewrite matches Some(trimmed) ==> {
                &&& trimmed@ == encode_all::<T>(kept(records, max_entries as nat))
                &&& stored::<T>(trimmed@) == Some(kept(records, max_entries as nat))
            }
            &&& rewritten(file_bytes(content), rewrite) == after_trim::<T>(
                file_bytes(content),
                max_entries as nat,
            )
        },
        Err(e) => read_fails_at::<T>(file_bytes(content), e),
    }
}

/// The history of a content that is made of the encodings of `records` is
/// `records`.
pub proof fn lemma_stored<T: Record>(content: Seq<u8>, records: Seq<T::V>)
    requires
        spells::<T>(content, records),
    ensures
        stored::<T>(content) == Some(records),
{
    let found = choose|found: Seq<T::V>| spells::<T>(content, found);
    lemma_spells_unique::<T>(content, found, records);
}

/// The bytes to append to a backing file so that it holds one more record,
/// behind those it held. Nothing that the file holds is read or written
/// again.
pub fn push<T: Record>(record: &T) -> (appended: Vec<u8>)
    ensures
        T::representable(record@),
        appended@ == T::encoding(record@),
{
    let mut appended: Vec<u8> = Vec::new();
    record.encode(&mut appended);
    appended
}

/// The encodings of the records from index `from` on, back to back.
fn encode_from<T: Record>(records: &Vec<T>, from: usize) -> (content: Vec<u8>)
    requires
        from <= records@.len(),
    ensures
        spells::<T>(content@, views(records@).skip(from as int)),
{
    let mut content: Vec<u8> = Vec::new();
    let mut i: usize = from;
    while i < records.len()
        invariant
            from <= i <= records@.len(),
            spells::<T>(content@, views(records@).subrange(from as int, i as int)),
        decreases records@.len() - i,
    {
        records[i].encode(&mut content);
        proof {
            let before = views(records@).subrange(from as int, i as int);
            let after = views(records@).subrange(from as int, i + 1);
            assert(after.drop_last() =~= before);
        }
        i += 1;
    }
    content
}

/// The whole content of a backing file that holds exactly these records, in
/// this order.
pub fn write_all<T: Record>(records: &Vec<T>) -> (content: Vec<u8>)
    ensures
        all_representable::<T>(views(records@)),
        content@ == encode_all::<T>(views(records@)),
        stored::<T>(content@) == Some(views(records@)),
{
    let content = encode_from(records, 0);
    proof {
        assert(views(records@).skip(0) =~= views(records@));
        lemma_stored::<T>(content@, views(records@));
    }
    content
}

/// The records that a backing file holds, oldest first. A file that does not
/// exist holds none. The read fails exactly when the content is not made of
/// encodings of records; the error then says where the first piece that is no
/// record begins, and nothing of what stands before it is returned.
pub fn read_all<T: Record>(content: Option<&[u8]>) -> (r: Result<Vec<T>, DecodeError>)
    ensures
        reads::<T>(content, r),
        content is None ==> r is Ok && r->Ok_0@.len() == 0,
{
    let mut records: Vec<T> = Vec::new();
    let bytes = match content {
        Some(bytes) => bytes,
        None => {
            proof {
                lemma_stored::<T>(file_bytes(content), views(records@));
            }
            return Ok(records);
        },
    };
    let mut at: usize = 0;
    assert(bytes@.take(0) =~= encode_all::<T>(views(records@)));
    while at < bytes.len()
        invariant
            content == Some(bytes),
            at <= bytes@.len(),
            spells::<T>(bytes@.take(at as int), views(records@)),
        decreases bytes@.len() - at,
    {
        match T::decode(bytes, at) {
            None => {
                // Were the whole content made of encodings, the encoding of
                // the next record would stand here.
                assert(stored::<T>(bytes@) is None) by {
                    if stored::<T>(bytes@) is Some {
                        let whole = stored::<T>(bytes@)->Some_0;
                        let done = views(records@);
                        lemma_spells_prefix::<T>(bytes@, whole, at as int, done);
                        let rest = whole.skip(done.len() as int);
                        lemma_encode_all_empty::<T>(rest);
                        lemma_encode_all_front::<T>(rest);
                        lemma_occurs_at_start(bytes@.skip(at as int));
                        lemma_occurs_at_concat(
                            bytes@.skip(at as int),
                            0,
                            T::encoding(rest[0]),
                            encode_all::<T>(rest.drop_first()),
                        );
                        lemma_occurs_at_skip(bytes@, at as int, T::encoding(rest[0]));
                    }
                }
                return Err(DecodeError { offset: at });
            },
            Some((record, end)) => {
                proof {
                    T::lemma_encoding_nonempty(record@);
                    let before = views(records@);
                    let after = before.push(record@);
                    assert(after.drop_last() =~= before);
                    assert(bytes@.take(end as int) =~= bytes@.take(at as int) + T::encoding(
                        record@,
                    ));
                    assert(views(records@.push(record)) =~= after);
                }
                records.push(record);
                at = end;
            },
        }
    }
    proof {
        assert(bytes@.take(at as int) =~= bytes@);
        lemma_stored::<T>(bytes@, views(records@));
    }
    Ok(records)
}

/// Trims a backing file to its last `max_entries` records. `Ok(None)` says
/// that the file holds no more than that and is to be left as it is;
/// `Ok(Some(content))` says that it held more and gives its new content, the
/// encodings of its last `max_entries` records in their order. A content that
/// is not made of encodings of records is an error, and the file is to be
/// left as it is.
pub fn trim<T: Record>(content: Option<&[u8]>, max_entries: usize) -> (r: Result<
    Option<Vec<u8>>,
    DecodeError,
>)
    ensures
        trims::<T>(content, max_entries, r),
{
    let records = match read_all::<T>(content) {
        Ok(records) => records,
        Err(e) => {
            return Err(e);
        },
    };
    if records.len() > max_entries {
        let trimmed = encode_from(&records, records.len() - max_entries);
        proof {
            lemma_stored::<T>(trimmed@, kept(views(records@), max_entries as nat));
        }
        Ok(Some(trimmed))
    } else {
        Ok(None)
    }
}

/// Appends are read back in call order: a file that holds `records`, with
/// the encodings of `pushed` appended to it one after the other, holds
/// `records` followed by `pushed`.
pub proof fn law_pushes_are_read_in_order<T: Record>(
    content: Seq<u8>,
    records: Seq<T::V>,
    pushed: Seq<T::V>,
)
    requires
        stored::<T>(content) == Some(records),
        all_representable::<T>(pushed),
    ensures
        stored::<T>(content + encode_all::<T>(pushed)) == Some(records + pushed),
{
    lemma_encode_all_concat::<T>(records, pushed);
    lemma_stored::<T>(content + encode_all::<T>(pushed), records + pushed);
}

/// One append adds one record at the end of the history.
pub proof fn law_push_appends<T: Record>(content: Seq<u8>, records: Seq<T::V>, record: T::V)
    requires
        stored::<T>(content) == Some(records),
        T::representable(record),
    ensures
        stored::<T>(content + T::encoding(record)) == Some(records.push(record)),
{
    assert(records.push(record).drop_last() =~= records);
    lemma_stored::<T>(content + T::encoding(record), records.push(record));
}

/// What is encoded is read back: the encodings of a list of records, back to
/// back, hold exactly that list; and the encoding of one record holds that
/// record alone.
pub proof fn law_round_trip<T: Record>(records: Seq<T::V>, record: T::V)
    requires
        all_representable::<T>(records),
        T::representable(record),
    ensures
        stored::<T>(encode_all::<T>(records)) == Some(records),
        stored::<T>(T::encoding(record)) == Some(seq![record]),
{
    lemma_stored::<T>(encode_all::<T>(records), records);
    let one = seq![record];
    assert(encode_all::<T>(one.drop_last()) =~= Seq::<u8>::empty());
    lemma_stored::<T>(T::encoding(record), one);
}

/// A trim leaves a file that holds no more than the cap as it is, and leaves
/// of a longer one exactly its last `max_entries` records, in their order and
/// in the bytes in which they stood.
pub proof fn law_trim_keeps_the_last<T: Record>(
    content: Seq<u8>,
    records: Seq<T::V>,
    max_entries: nat,
)
    requires
        stored::<T>(content) == Some(records),
    ensures
        records.len() <= max_entries ==> after_trim::<T>(content, max_entries) == content,
        stored::<T>(after_trim::<T>(content, max_entries)) == Some(kept(records, max_entries)),
        kept(records, max_entries).len() <= max_entries,
        kept(records, max_entries) == records.skip(
            records.len() - kept(records, max_entries).len(),
        ),
        after_trim::<T>(content, max_entries) == content.skip(
            content.len() - after_trim::<T>(content, max_entries).len(),
        ),
{
    let last = kept(records, max_entries);
    let dropped = records.take(records.len() - last.len());
    assert(dropped + last =~= records);
    lemma_encode_all_concat::<T>(dropped, last);
    lemma_stored::<T>(encode_all::<T>(last), last);
}

} // verus!
