//! Records laid back to back.
//!
//! The encodings of a list of records, one after the other with nothing
//! between them, can be taken apart again in one way only, because no
//! encoding is the beginning of another.

use crate::record::Record;
use crate::wire::{
    lemma_occurs_at_concat, lemma_occurs_at_start, lemma_occurs_at_take, lemma_u64_bytes_injective,
    occurs_at, put_u64, take_u64, u64_bytes,
};
use vstd::prelude::*;

verus! {

/// The values of a list of records.
pub open spec fn views<T: Record>(records: Seq<T>) -> Seq<T::V> {
    Seq::new(records.len(), |i: int| records[i]@)
}

/// Every value of the list is representable.
pub open spec fn all_representable<T: Record>(records: Seq<T::V>) -> bool {
    forall|i: int| 0 <= i < records.len() ==> T::representable(#[trigger] records[i])
}

/// The encodings of the values, back to back and in order.
pub open spec fn encode_all<T: Record>(records: Seq<T::V>) -> Seq<u8>
    decreases records.len(),
{
    if records.len() == 0 {
        Seq::empty()
    } else {
        encode_all::<T>(records.drop_last()) + T::encoding(records.last())
    }
}

/// The content is exactly the encodings of these values.
pub open spec fn spells<T: Record>(content: Seq<u8>, records: Seq<T::V>) -> bool {
    all_representable::<T>(records) && encode_all::<T>(records) == content
}

/// The encodings of two lists, one after the other, are the encodings of the
/// lists joined.
pub proof fn lemma_encode_all_concat<T: Record>(a: Seq<T::V>, b: Seq<T::V>)
    ensures
        encode_all::<T>(a + b) == encode_all::<T>(a) + encode_all::<T>(b),
    decreases b.len(),
{
    if b.len() == 0 {
    } else {
        lemma_encode_all_concat::<T>(a, b.drop_last());
        assert((a + b).drop_last() =~= a + b.drop_last());
    }
}

/// The encodings of a list begin with the encoding of its first value.
pub proof fn lemma_encode_all_front<T: Record>(records: Seq<T::V>)
    requires
        records.len() > 0,
    ensures
        encode_all::<T>(records) == T::encoding(records[0]) + encode_all::<T>(
            records.drop_first(),
        ),
{
    let head = seq![records[0]];
    assert(head + records.drop_first() =~= records);
    lemma_encode_all_concat::<T>(head, records.drop_first());
    assert(encode_all::<T>(head.drop_last()) =~= Seq::<u8>::empty());
}

/// Only the empty list is encoded as nothing.
pub proof fn lemma_encode_all_empty<T: Record>(records: Seq<T::V>)
    ensures
        encode_all::<T>(records).len() == 0 <==> records.len() == 0,
{
    if records.len() > 0 {
        T::lemma_encoding_nonempty(records.last());
    }
}

/// Where a content and a beginning of it are both made of encodings, the
/// values of the beginning are the first values of the whole, and the rest
/// of the content is made of the encodings of the other values.
pub proof fn lemma_spells_prefix<T: Record>(
    whole: Seq<u8>,
    records: Seq<T::V>,
    upto: int,
    done: Seq<T::V>,
)
    requires
        0 <= upto <= whole.len(),
        spells::<T>(whole, records),
        spells::<T>(whole.take(upto), done),
    ensures
        done.len() <= records.len(),
        records.take(done.len() as int) == done,
        spells::<T>(whole.skip(upto), records.skip(done.len() as int)),
    decreases done.len(),
{
    if done.len() == 0 {
        assert(whole.skip(0) =~= whole);
        assert(records.skip(0) =~= records);
    } else {
        let first = T::encoding(done[0]);
        lemma_encode_all_front::<T>(done);
        T::lemma_encoding_nonempty(done[0]);
        lemma_occurs_at_start(whole.take(upto));
        lemma_occurs_at_concat(whole.take(upto), 0, first, encode_all::<T>(done.drop_first()));
        lemma_occurs_at_take(whole, upto, 0, first);
        lemma_encode_all_front::<T>(records);
        let other = T::encoding(records[0]);
        lemma_occurs_at_start(whole);
        lemma_occurs_at_concat(whole, 0, other, encode_all::<T>(records.drop_first()));
        T::lemma_encoding_unique(whole, 0, done[0], records[0]);
        let cut = first.len() as int;
        assert(whole.skip(cut) =~= encode_all::<T>(records.drop_first()));
        assert(whole.skip(cut).take(upto - cut) =~= encode_all::<T>(done.drop_first())) by {
            assert(whole.skip(cut).take(upto - cut) =~= whole.take(upto).subrange(
                cut,
                cut + (upto - cut),
            ));
        }
        lemma_spells_prefix::<T>(
            whole.skip(cut),
            records.drop_first(),
            upto - cut,
            done.drop_first(),
        );
        assert(records.take(done.len() as int) =~= done) by {
            assert forall|i: int| 0 <= i < done.len() implies records[i] == done[i] by {
                if i > 0 {
                    assert(records.drop_first().take(done.len() - 1)[i - 1] == done.drop_first()[i
                        - 1]);
                }
            }
        }
        assert(whole.skip(cut).skip(upto - cut) =~= whole.skip(upto));
        assert(records.drop_first().skip(done.len() - 1) =~= records.skip(done.len() as int));
    }
}

/// A content is made of the encodings of at most one list of values.
pub proof fn lemma_spells_unique<T: Record>(content: Seq<u8>, a: Seq<T::V>, b: Seq<T::V>)
    requires
        spells::<T>(content, a),
        spells::<T>(content, b),
    ensures
        a == b,
{
    assert(content.take(content.len() as int) =~= content);
    lemma_spells_prefix::<T>(content, a, content.len() as int, b);
    lemma_encode_all_empty::<T>(a.skip(b.len() as int));
}

/// Two lists whose encodings stand at the same place agree as far as the
/// shorter one goes.
pub proof fn lemma_encode_all_agree<T: Record>(s: Seq<u8>, at: int, a: Seq<T::V>, b: Seq<T::V>)
    requires
        all_representable::<T>(a),
        all_representable::<T>(b),
        occurs_at(s, at, encode_all::<T>(a)),
        occurs_at(s, at, encode_all::<T>(b)),
        a.len() <= b.len(),
    ensures
        b.take(a.len() as int) == a,
    decreases a.len(),
{
    if a.len() == 0 {
    } else {
        lemma_encode_all_front::<T>(a);
        lemma_encode_all_front::<T>(b);
        lemma_occurs_at_concat(s, at, T::encoding(a[0]), encode_all::<T>(a.drop_first()));
        lemma_occurs_at_concat(s, at, T::encoding(b[0]), encode_all::<T>(b.drop_first()));
        T::lemma_encoding_unique(s, at, a[0], b[0]);
        lemma_encode_all_agree::<T>(
            s,
            at + T::encoding(a[0]).len(),
            a.drop_first(),
            b.drop_first(),
        );
        assert(b.take(a.len() as int) =~= a) by {
            assert forall|i: int| 0 <= i < a.len() implies b[i] == a[i] by {
                if i > 0 {
                    assert(b.drop_first().take(a.len() - 1)[i - 1] == a.drop_first()[i - 1]);
                }
            }
        }
    }
}

/// Where the encodings of a list stand at `at`, the encodings of what is
/// left of the list after its first `n` values stand behind the encodings of
/// those.
pub proof fn lemma_encode_all_split<T: Record>(s: Seq<u8>, at: int, items: Seq<T::V>, n: int)
    requires
        0 <= n <= items.len(),
    ensures
        occurs_at(s, at, encode_all::<T>(items)) <==> {
            &&& occurs_at(s, at, encode_all::<T>(items.take(n)))
            &&& occurs_at(
                s,
                at + encode_all::<T>(items.take(n)).len(),
                encode_all::<T>(items.skip(n)),
            )
        },
{
    assert(items.take(n) + items.skip(n) =~= items);
    lemma_encode_all_concat::<T>(items.take(n), items.skip(n));
    lemma_occurs_at_concat(
        s,
        at,
        encode_all::<T>(items.take(n)),
        encode_all::<T>(items.skip(n)),
    );
}

/// A list of values as their number followed by their encodings.
pub open spec fn counted_bytes<T: Record>(items: Seq<T::V>) -> Seq<u8> {
    u64_bytes(items.len() as u64) + encode_all::<T>(items)
}

/// The list is short enough for its length to be written as a 64-bit
/// integer, and each of its values is representable.
pub open spec fn counted_fits<T: Record>(items: Seq<T::V>) -> bool {
    items.len() <= u64::MAX && all_representable::<T>(items)
}

/// At most one counted list stands at a given place.
pub proof fn lemma_counted_unique<T: Record>(s: Seq<u8>, at: int, a: Seq<T::V>, b: Seq<T::V>)
    requires
        counted_fits::<T>(a),
        counted_fits::<T>(b),
        occurs_at(s, at, counted_bytes::<T>(a)),
        occurs_at(s, at, counted_bytes::<T>(b)),
    ensures
        a == b,
{
    lemma_occurs_at_concat(s, at, u64_bytes(a.len() as u64), encode_all::<T>(a));
    lemma_occurs_at_concat(s, at, u64_bytes(b.len() as u64), encode_all::<T>(b));
    lemma_u64_bytes_injective(a.len() as u64, b.len() as u64);
    lemma_encode_all_agree::<T>(s, at + 8, a, b);
}

/// Appends the number of the items and then their encodings.
pub fn put_counted<T: Record>(out: &mut Vec<u8>, items: &Vec<T>)
    ensures
        counted_fits::<T>(views(items@)),
        final(out)@ == old(out)@ + counted_bytes::<T>(views(items@)),
{
    put_u64(out, items.len() as u64);
    let ghost start = out@;
    let mut i: usize = 0;
    assert(start + encode_all::<T>(views(items@).take(0)) =~= start);
    while i < items.len()
        invariant
            i <= items@.len(),
            all_representable::<T>(views(items@).take(i as int)),
            out@ == start + encode_all::<T>(views(items@).take(i as int)),
        decreases items@.len() - i,
    {
        items[i].encode(out);
        proof {
            let before = views(items@).take(i as int);
            let after = views(items@).take(i + 1);
            assert(after.drop_last() =~= before);
            assert(after.last() == items@[i as int]@);
        }
        i += 1;
    }
    proof {
        assert(views(items@).take(i as int) =~= views(items@));
        assert(out@ =~= old(out)@ + counted_bytes::<T>(views(items@)));
    }
}

/// Reads the counted list that stands at `at`, and says where it ends. There
/// is none exactly when no counted list has its encoding there: the number is
/// cut short, or fewer items follow than it announces.
pub fn take_counted<T: Record>(bytes: &[u8], at: usize) -> (r: Option<(Vec<T>, usize)>)
    ensures
        match r {
            Some((items, end)) => {
                &&& counted_fits::<T>(views(items@))
                &&& occurs_at(bytes@, at as int, counted_bytes::<T>(views(items@)))
                &&& end == at + counted_bytes::<T>(views(items@)).len() <= bytes@.len()
            },
            None => forall|items: Seq<T::V>|
                counted_fits::<T>(items) ==> !occurs_at(
                    bytes@,
                    at as int,
                    #[trigger] counted_bytes::<T>(items),
                ),
        },
{
    let (count, start) = match take_u64(bytes, at) {
        Some(found) => found,
        None => {
            assert forall|items: Seq<T::V>| counted_fits::<T>(items) implies !occurs_at(
                bytes@,
                at as int,
                #[trigger] counted_bytes::<T>(items),
            ) by {
                lemma_occurs_at_concat(
                    bytes@,
                    at as int,
                    u64_bytes(items.len() as u64),
                    encode_all::<T>(items),
                );
            }
            return None;
        },
    };
    // What any counted list standing here must look like: it has as many
    // items as the number just read, and their encodings stand behind it.
    assert forall|items: Seq<T::V>|
        counted_fits::<T>(items) && occurs_at(
            bytes@,
            at as int,
            #[trigger] counted_bytes::<T>(items),
        ) implies items.len() == count && occurs_at(
        bytes@,
        start as int,
        encode_all::<T>(items),
    ) by {
        lemma_occurs_at_concat(
            bytes@,
            at as int,
            u64_bytes(items.len() as u64),
            encode_all::<T>(items),
        );
        lemma_u64_bytes_injective(items.len() as u64, count);
    }
    let mut items: Vec<T> = Vec::new();
    let mut end: usize = start;
    let mut i: u64 = 0;
    assert(encode_all::<T>(views(items@)) =~= Seq::<u8>::empty());
    assert(bytes@.subrange(start as int, start + 0) =~= Seq::<u8>::empty());
    while i < count
        invariant
            i <= count,
            items@.len() == i,
            start <= end <= bytes@.len(),
            all_representable::<T>(views(items@)),
            occurs_at(bytes@, start as int, encode_all::<T>(views(items@))),
            end == start + encode_all::<T>(views(items@)).len(),
            forall|all: Seq<T::V>|
                counted_fits::<T>(all) && occurs_at(
                    bytes@,
                    at as int,
                    #[trigger] counted_bytes::<T>(all),
                ) ==> all.len() == count && occurs_at(
                    bytes@,
                    start as int,
                    encode_all::<T>(all),
                ),
        decreases count - i,
    {
        match T::decode(bytes, end) {
            None => {
                assert forall|all: Seq<T::V>| counted_fits::<T>(all) implies !occurs_at(
                    bytes@,
                    at as int,
                    #[trigger] counted_bytes::<T>(all),
                ) by {
                    if occurs_at(bytes@, at as int, counted_bytes::<T>(all)) {
                        let done = views(items@);
                        lemma_encode_all_agree::<T>(bytes@, start as int, done, all);
                        lemma_encode_all_split::<T>(bytes@, start as int, all, i as int);
                        let rest = all.skip(i as int);
                        lemma_encode_all_front::<T>(rest);
                        lemma_occurs_at_concat(
                            bytes@,
                            end as int,
                            T::encoding(rest[0]),
                            encode_all::<T>(rest.drop_first()),
                        );
                    }
                }
                return None;
            },
            Some((item, next)) => {
                proof {
                    let before = views(items@);
                    let after = before.push(item@);
                    assert(after.drop_last() =~= before);
                    assert(views(items@.push(item)) =~= after);
                    lemma_occurs_at_concat(
                        bytes@,
                        start as int,
                        encode_all::<T>(before),
                        T::encoding(item@),
                    );
                }
                items.push(item);
                end = next;
                i += 1;
            },
        }
    }
    proof {
        lemma_occurs_at_concat(
            bytes@,
            at as int,
            u64_bytes(count),
            encode_all::<T>(views(items@)),
        );
    }
    Some((items, end))
}

} // verus!
