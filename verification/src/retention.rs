//! Which saved layouts a trim retains.
//!
//! Saved layouts are kept by name. A trim walks the stored layouts from the
//! oldest on and holds, for each name it meets, the layout it met last under
//! that name. It stops as soon as it holds as many names as the cap allows:
//! layouts that stand behind that point are not looked at, even where they
//! are newer than what is held.

use crate::record::Record;
use crate::sequence::{encode_all, spells, views};
use crate::splits::{SplitEntry, SplitEntryView};
use crate::store::{file_bytes, lemma_stored, read_all, read_fails_at, stored, DecodeError};
use vstd::prelude::*;

verus! {

/// Where the layout of that name stands in the list, if one does.
pub open spec fn position_of(held: Seq<SplitEntryView>, name: Seq<char>) -> Option<int>
    decreases held.len(),
{
    if held.len() == 0 {
        None
    } else if held.last().name == name {
        Some(held.len() - 1)
    } else {
        position_of(held.drop_last(), name)
    }
}

/// The list after it has taken in one more layout: the layout replaces the
/// one held under its name, or is added at the end if there is none.
pub open spec fn take_in(held: Seq<SplitEntryView>, entry: SplitEntryView) -> Seq<SplitEntryView> {
    match position_of(held, entry.name) {
        Some(i) => held.update(i, entry),
        None => held.push(entry),
    }
}

/// What is held after all of `entries` have been taken in, oldest first: for
/// each name the layout that came last, in the order in which the names first
/// came.
pub open spec fn latest(entries: Seq<SplitEntryView>) -> Seq<SplitEntryView>
    decreases entries.len(),
{
    if entries.len() == 0 {
        Seq::empty()
    } else {
        take_in(latest(entries.drop_last()), entries.last())
    }
}

/// How many of `entries` a trim walks: up to the first point at which it
/// holds `max_entries` names, and all of them if there is no such point.
pub open spec fn walked(entries: Seq<SplitEntryView>, max_entries: nat) -> nat
    decreases entries.len(),
{
    if entries.len() == 0 {
        0
    } else {
        let before = walked(entries.drop_last(), max_entries);
        if latest(entries.take(before as int)).len() == max_entries {
            before
        } else {
            entries.len()
        }
    }
}

/// What a trim to `max_entries` retains of `entries`.
pub open spec fn retained(entries: Seq<SplitEntryView>, max_entries: nat) -> Seq<SplitEntryView> {
    latest(entries.take(walked(entries, max_entries) as int))
}

/// The values of the entries that stand at the given places.
pub open spec fn picked(entries: Seq<SplitEntry>, places: Seq<usize>) -> Seq<SplitEntryView> {
    Seq::new(places.len(), |k: int| entries[places[k] as int]@)
}

/// No two layouts of the list have the same name.
pub open spec fn names_differ(held: Seq<SplitEntryView>) -> bool {
    forall|i: int, j: int| 0 <= i < j < held.len() ==> held[i].name != held[j].name
}

/// `position_of` finds the place of a name, and finds none only where the
/// name does not occur.
pub proof fn lemma_position_of(held: Seq<SplitEntryView>, name: Seq<char>)
    ensures
        match position_of(held, name) {
            Some(i) => 0 <= i < held.len() && held[i].name == name,
            None => forall|i: int| 0 <= i < held.len() ==> held[i].name != name,
        },
    decreases held.len(),
{
    if held.len() > 0 && held.last().name != name {
        lemma_position_of(held.drop_last(), name);
        if position_of(held, name) is None {
            assert forall|i: int| 0 <= i < held.len() implies held[i].name != name by {
                if i < held.len() - 1 {
                    assert(held.drop_last()[i] == held[i]);
                }
            }
        }
    }
}

/// In a list without repeated names, a name stands where `position_of` says.
pub proof fn lemma_position_of_at(held: Seq<SplitEntryView>, i: int)
    requires
        names_differ(held),
        0 <= i < held.len(),
    ensures
        position_of(held, held[i].name) == Some(i),
    decreases held.len(),
{
    if i < held.len() - 1 {
        lemma_position_of_at(held.drop_last(), i);
    }
}

/// Taking a layout in keeps the names apart, and adds at most one.
pub proof fn lemma_take_in(held: Seq<SplitEntryView>, entry: SplitEntryView)
    requires
        names_differ(held),
    ensures
        names_differ(take_in(held, entry)),
        held.len() <= take_in(held, entry).len() <= held.len() + 1,
{
    lemma_position_of(held, entry.name);
}

/// What is held has no name twice, and no more layouts than were taken in.
pub proof fn lemma_latest(entries: Seq<SplitEntryView>)
    ensures
        names_differ(latest(entries)),
        latest(entries).len() <= entries.len(),
    decreases entries.len(),
{
    if entries.len() > 0 {
        lemma_latest(entries.drop_last());
        lemma_take_in(latest(entries.drop_last()), entries.last());
    }
}

/// The walk ends at `upto` when that is the first point at which
/// `max_entries` names are held, or the end if there is no such point.
pub proof fn lemma_walked(entries: Seq<SplitEntryView>, max_entries: nat, upto: int)
    requires
        0 <= upto <= entries.len(),
        forall|j: int| 0 <= j < upto ==> latest(#[trigger] entries.take(j)).len() != max_entries,
        upto == entries.len() || latest(entries.take(upto)).len() == max_entries,
    ensures
        walked(entries, max_entries) == upto,
    decreases entries.len(),
{
    if entries.len() > 0 {
        let shorter = entries.drop_last();
        assert forall|j: int| 0 <= j <= shorter.len() implies #[trigger] shorter.take(j)
            == entries.take(j) by {
        }
        if upto < entries.len() {
            lemma_walked(shorter, max_entries, upto);
        } else {
            lemma_walked(shorter, max_entries, upto - 1);
        }
    }
}

/// Where among the held places the layout of that name stands, if one does.
fn place_of(entries: &Vec<SplitEntry>, places: &Vec<usize>, name: &String) -> (r: Option<usize>)
    requires
        forall|k: int| 0 <= k < places@.len() ==> places@[k] < entries@.len(),
        names_differ(picked(entries@, places@)),
    ensures
        match r {
            Some(k) => k < places@.len() && position_of(picked(entries@, places@), name@) == Some(
                k as int,
            ),
            None => position_of(picked(entries@, places@), name@) is None,
        },
{
    let mut k: usize = 0;
    while k < places.len()
        invariant
            k <= places@.len(),
            forall|k: int| 0 <= k < places@.len() ==> places@[k] < entries@.len(),
            names_differ(picked(entries@, places@)),
            forall|j: int| 0 <= j < k ==> picked(entries@, places@)[j].name != name@,
        decreases places@.len() - k,
    {
        if entries[places[k]].name == *name {
            proof {
                lemma_position_of_at(picked(entries@, places@), k as int);
            }
            return Some(k);
        }
        k += 1;
    }
    proof {
        lemma_position_of(picked(entries@, places@), name@);
    }
    None
}

/// The places, in `entries`, of the layouts that a trim to `max_entries`
/// retains, in the order in which it holds them.
pub fn retain_by_name(entries: &Vec<SplitEntry>, max_entries: usize) -> (places: Vec<usize>)
    ensures
        forall|k: int| 0 <= k < places@.len() ==> places@[k] < entries@.len(),
        picked(entries@, places@) == retained(views(entries@), max_entries as nat),
{
    let ghost all = views(entries@);
    let mut places: Vec<usize> = Vec::new();
    let mut i: usize = 0;
    while i < entries.len() && places.len() != max_entries
        invariant
            all == views(entries@),
            i <= entries@.len(),
            forall|k: int| 0 <= k < places@.len() ==> places@[k] < entries@.len(),
            picked(entries@, places@) == latest(all.take(i as int)),
            forall|j: int| 0 <= j < i ==> latest(#[trigger] all.take(j)).len() != max_entries,
        decreases entries@.len() - i,
    {
        proof {
            lemma_latest(all.take(i as int));
            assert(all.take(i + 1).drop_last() =~= all.take(i as int));
        }
        match place_of(entries, &places, &entries[i].name) {
            Some(k) => {
                places[k] = i;
            },
            None => {
                places.push(i);
            },
        }
        i += 1;
    }
    proof {
        lemma_walked(all, max_entries as nat, i as int);
    }
    places
}

/// What a trim of the saved layouts to `max_entries` names returns of a
/// content: no new content where it holds fewer layouts than that, else the
/// encodings of the layouts that the walk retains, which are no more than
/// `max_entries` and have no name twice; or an error where the content is
/// not made of encodings of saved layouts.
pub open spec fn trims_by_name(
    content: Option<&[u8]>,
    max_entries: usize,
    r: Result<Option<Vec<u8>>, DecodeError>,
) -> bool {
    match r {
        Ok(rewrite) => {
            &&& stored::<SplitEntry>(file_bytes(content)) matches Some(entries)
            &&& rewrite is Some <==> entries.len() >= max_entries
            &&& rewrite matches Some(trimmed) ==> {
                &&& trimmed@ == encode_all::<SplitEntry>(retained(entries, max_entries as nat))
                &&& stored::<SplitEntry>(trimmed@) == Some(retained(entries, max_entries as nat))
                &&& retained(entries, max_entries as nat).len() <= max_entries
                &&& names_differ(retained(entries, max_entries as nat))
            }
        },
        Err(e) => read_fails_at::<SplitEntry>(file_bytes(content), e),
    }
}

/// The encodings of the entries at the given places, back to back.
fn encode_picked(entries: &Vec<SplitEntry>, places: &Vec<usize>) -> (content: Vec<u8>)
    requires
        forall|k: int| 0 <= k < places@.len() ==> places@[k] < entries@.len(),
    ensures
        spells::<SplitEntry>(content@, picked(entries@, places@)),
{
    let ghost all = picked(entries@, places@);
    let mut content: Vec<u8> = Vec::new();
    let mut k: usize = 0;
    while k < places.len()
        invariant
            all == picked(entries@, places@),
            k <= places@.len(),
            forall|k: int| 0 <= k < places@.len() ==> places@[k] < entries@.len(),
            spells::<SplitEntry>(content@, all.take(k as int)),
        decreases places@.len() - k,
    {
        entries[places[k]].encode(&mut content);
        proof {
            assert(all.take(k + 1).drop_last() =~= all.take(k as int));
        }
        k += 1;
    }
    assert(all.take(k as int) =~= all);
    content
}

/// Trims the backing file of the saved layouts to `max_entries` names.
/// `Ok(None)` says that the file holds fewer layouts than that and is to be
/// left as it is. `Ok(Some(content))` gives its new content: the layouts
/// that the walk retains, each name once. A content that is not made of
/// encodings of saved layouts is an error, and the file is to be left as it
/// is.
pub fn trim_split(content: Option<&[u8]>, max_entries: usize) -> (r: Result<
    Option<Vec<u8>>,
    DecodeError,
>)
    ensures
        trims_by_name(content, max_entries, r),
{
    let entries = match read_all::<SplitEntry>(content) {
        Ok(entries) => entries,
        Err(e) => {
            return Err(e);
        },
    };
    if entries.len() < max_entries {
        return Ok(None);
    }
    let places = retain_by_name(&entries, max_entries);
    let trimmed = encode_picked(&entries, &places);
    proof {
        lemma_stored::<SplitEntry>(trimmed@, retained(views(entries@), max_entries as nat));
        law_retained_within_cap(views(entries@), max_entries as nat);
    }
    Ok(Some(trimmed))
}

/// The layouts by name: under each name the layout that comes last in the
/// list.
pub open spec fn by_name(entries: Seq<SplitEntryView>) -> Map<Seq<char>, SplitEntryView>
    decreases entries.len(),
{
    if entries.len() == 0 {
        Map::empty()
    } else {
        by_name(entries.drop_last()).insert(entries.last().name, entries.last())
    }
}

/// What is held after a list of layouts has been taken in is that list by
/// name: each name once, with the layout that came last under it.
pub proof fn law_latest_is_by_name(entries: Seq<SplitEntryView>)
    ensures
        names_differ(latest(entries)),
        forall|i: int|
            0 <= i < latest(entries).len() ==> {
                let held = #[trigger] latest(entries)[i];
                by_name(entries).contains_key(held.name) && by_name(entries)[held.name] == held
            },
        forall|name: Seq<char>| #[trigger]
            by_name(entries).contains_key(name) ==> position_of(latest(entries), name) is Some,
    decreases entries.len(),
{
    if entries.len() > 0 {
        let before = latest(entries.drop_last());
        let entry = entries.last();
        law_latest_is_by_name(entries.drop_last());
        lemma_position_of(before, entry.name);
        let after = latest(entries);
        assert forall|i: int| 0 <= i < after.len() implies {
            let held = #[trigger] after[i];
            by_name(entries).contains_key(held.name) && by_name(entries)[held.name] == held
        } by {
            if after[i] != entry {
            }
        }
        assert forall|name: Seq<char>| #[trigger]
            by_name(entries).contains_key(name) implies position_of(after, name) is Some by {
            lemma_position_of(after, name);
            if name == entry.name {
                match position_of(before, entry.name) {
                    Some(i) => {
                        assert(after[i].name == name);
                    },
                    None => {
                    },
                }
            } else {
                lemma_position_of(before, name);
                let i = position_of(before, name)->Some_0;
                assert(after[i].name == name);
            }
        }
    }
}

/// The walk ends at the first point at which `max_entries` names are held,
/// or at the end if there is no such point.
pub proof fn lemma_walked_is_first(entries: Seq<SplitEntryView>, max_entries: nat)
    ensures
        walked(entries, max_entries) <= entries.len(),
        forall|j: int|
            0 <= j < walked(entries, max_entries) ==> latest(#[trigger] entries.take(j)).len()
                != max_entries,
        walked(entries, max_entries) == entries.len() || retained(entries, max_entries).len()
            == max_entries,
    decreases entries.len(),
{
    if entries.len() > 0 {
        let shorter = entries.drop_last();
        lemma_walked_is_first(shorter, max_entries);
        assert forall|j: int| 0 <= j <= shorter.len() implies #[trigger] shorter.take(j)
            == entries.take(j) by {
        }
        let before = walked(shorter, max_entries);
        assert forall|j: int| 0 <= j < walked(entries, max_entries) implies latest(
            #[trigger] entries.take(j),
        ).len() != max_entries by {
            if j < before {
                assert(shorter.take(j) == entries.take(j));
            }
        }
    }
}

/// A trim never retains more layouts than the cap, and never a name twice.
pub proof fn law_retained_within_cap(entries: Seq<SplitEntryView>, max_entries: nat)
    ensures
        retained(entries, max_entries).len() <= max_entries,
        names_differ(retained(entries, max_entries)),
{
    lemma_walked_is_first(entries, max_entries);
    let upto = walked(entries, max_entries) as int;
    lemma_latest(entries.take(upto));
    lemma_never_reached(entries, max_entries, upto);
}

/// As long as the walk has not held `max_entries` names at any point, it
/// holds fewer: the number held starts at none and grows by one at most.
proof fn lemma_never_reached(entries: Seq<SplitEntryView>, max_entries: nat, upto: int)
    requires
        0 <= upto <= entries.len(),
        forall|j: int| 0 <= j < upto ==> latest(#[trigger] entries.take(j)).len() != max_entries,
    ensures
        latest(entries.take(upto)).len() <= max_entries,
    decreases upto,
{
    if upto == 0 {
    } else {
        lemma_never_reached(entries, max_entries, upto - 1);
        assert(entries.take(upto).drop_last() =~= entries.take(upto - 1));
        lemma_latest(entries.take(upto - 1));
        lemma_take_in(latest(entries.take(upto - 1)), entries.take(upto).last());
    }
}

/// Once the walk has held `max_entries` names it has stopped: whatever is
/// stored behind that point changes nothing of what the trim retains, not
/// even where it is a newer layout under a name that is held.
pub proof fn law_walk_stops_at_cap(
    entries: Seq<SplitEntryView>,
    newer: Seq<SplitEntryView>,
    max_entries: nat,
)
    requires
        retained(entries, max_entries).len() == max_entries,
    ensures
        retained(entries + newer, max_entries) == retained(entries, max_entries),
{
    lemma_walked_is_first(entries, max_entries);
    let upto = walked(entries, max_entries) as int;
    let longer = entries + newer;
    assert forall|j: int| 0 <= j <= upto implies #[trigger] longer.take(j) == entries.take(j) by {
    }
    lemma_walked(longer, max_entries, upto);
}

} // verus!
