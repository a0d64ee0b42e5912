//! Replay: what a log says the store holds.
//!
//! Replaying the records of a log in order, oldest generation first, gives
//! the index, the count of stale bytes and the contents of the store.

use vstd::prelude::*;
use crate::error::KvsError;
use crate::index::{credit, delete, distinct_keys, find, has_key, lemma_delete, lemma_upsert,
    live_bytes, position, upsert, Index, Location, Slot};
use crate::log::{ascending, generation_position, lemma_generation_unique,
    lemma_total_len_bounds, log_records, record_at, records_from, total_len, views_of,
    GenerationView, Log, Record};
use crate::record::{decode_at, lemma_decode_bounds, Command, CommandView};

verus! {

/// What replay has rebuilt.
pub struct Replayed {
    /// The live keys, each with the location of its latest record.
    pub slots: Seq<Slot>,
    /// The bytes of records that later records made stale.
    pub stale: nat,
    /// The value of each live key.
    pub contents: Map<Seq<char>, Seq<char>>,
}

/// The state before any record.
pub open spec fn fresh() -> Replayed {
    Replayed { slots: Seq::empty(), stale: 0, contents: Map::empty() }
}

/// The contents after `command`.
pub open spec fn effect(contents: Map<Seq<char>, Seq<char>>, command: CommandView) -> Map<
    Seq<char>,
    Seq<char>,
> {
    match command {
        CommandView::Put { key, value } => contents.insert(key, value),
        CommandView::Remove { key } => contents.remove(key),
    }
}

/// The slots after one more record: a put binds its key to the record, a
/// remove unbinds its key.
pub open spec fn slots_after(slots: Seq<Slot>, record: Record) -> Seq<Slot> {
    match record.command {
        CommandView::Put { key, .. } => upsert(slots, key, record.location),
        CommandView::Remove { key } => delete(slots, key),
    }
}

/// The bytes that one more record makes stale: the record that its key was
/// bound to, or, for a remove of an unbound key, the remove record itself.
pub open spec fn staled_by(slots: Seq<Slot>, record: Record) -> nat {
    match record.command {
        CommandView::Put { key, .. } => credit(slots, key),
        CommandView::Remove { key } => if has_key(slots, key) {
            credit(slots, key)
        } else {
            record.location.length as nat
        },
    }
}

/// The state after one more record.
pub open spec fn apply(state: Replayed, record: Record) -> Replayed {
    Replayed {
        slots: slots_after(state.slots, record),
        stale: state.stale + staled_by(state.slots, record),
        contents: effect(state.contents, record.command),
    }
}

/// The state after the records, applied in order to `state`.
pub open spec fn replay_onto(state: Replayed, records: Seq<Record>) -> Replayed
    decreases records.len(),
{
    if records.len() == 0 {
        state
    } else {
        apply(replay_onto(state, records.drop_last()), records.last())
    }
}

/// The state that the log stands for, or `None` where a generation is not
/// a sequence of records.
pub open spec fn replay_log(generations: Seq<GenerationView>) -> Option<Replayed> {
    match log_records(generations) {
        Some(records) => Some(replay_onto(fresh(), records)),
        None => None,
    }
}

/// The bytes of the records.
pub open spec fn records_len(records: Seq<Record>) -> nat
    decreases records.len(),
{
    if records.len() == 0 {
        0
    } else {
        records_len(records.drop_last()) + records.last().location.length as nat
    }
}

/// Whether each record stands in the log where its location says.
pub open spec fn placed(generations: Seq<GenerationView>, records: Seq<Record>) -> bool {
    forall|i: int|
        0 <= i < records.len() ==> record_at(generations, (#[trigger] records[i]).location)
            == Some(records[i].command)
}

/// Whether the state agrees with the log: no key has two slots, each slot
/// points at a put record of its key with the key's value, the contents
/// hold the keys of the slots and no others, and the live and stale bytes
/// together are at most `budget`.
pub open spec fn consistent(generations: Seq<GenerationView>, state: Replayed, budget: nat) -> bool {
    &&& distinct_keys(state.slots)
    &&& forall|slot: Slot| #[trigger]
        state.slots.contains(slot) ==> state.contents.contains_key(slot.key) && record_at(
            generations,
            slot.location,
        ) == Some(CommandView::Put { key: slot.key, value: state.contents[slot.key] })
    &&& forall|key: Seq<char>| #[trigger]
        state.contents.contains_key(key) ==> has_key(state.slots, key)
    &&& live_bytes(state.slots) + state.stale <= budget
}

/// A slot that holds a key is the slot of that key.
pub proof fn lemma_slot_found(slots: Seq<Slot>, key: Seq<char>)
    requires
        has_key(slots, key),
    ensures
        slots.contains(slots[position(slots, key)]),
        slots[position(slots, key)].key == key,
        find(slots, key) == Some(slots[position(slots, key)].location),
{
}

/// One more record that stands where it says keeps the state consistent,
/// with the record's bytes added to the budget.
pub proof fn lemma_apply_consistent(
    generations: Seq<GenerationView>,
    state: Replayed,
    record: Record,
    budget: nat,
)
    requires
        consistent(generations, state, budget),
        record_at(generations, record.location) == Some(record.command),
    ensures
        consistent(generations, apply(state, record), budget + record.location.length as nat),
{
    let after = apply(state, record);
    match record.command {
        CommandView::Put { key, value } => {
            lemma_upsert(state.slots, key, record.location);
            assert forall|slot: Slot| #[trigger] after.slots.contains(slot) implies {
                &&& after.contents.contains_key(slot.key)
                &&& record_at(generations, slot.location) == Some(
                    CommandView::Put { key: slot.key, value: after.contents[slot.key] },
                )
            } by {
                if slot != (Slot { key, location: record.location }) {
                    assert(state.slots.contains(slot));
                }
            }
            assert forall|other: Seq<char>| #[trigger]
                after.contents.contains_key(other) implies has_key(after.slots, other) by {
                if other != key {
                    assert(state.contents.contains_key(other));
                }
            }
        },
        CommandView::Remove { key } => {
            lemma_delete(state.slots, key);
            assert forall|slot: Slot| #[trigger] after.slots.contains(slot) implies {
                &&& after.contents.contains_key(slot.key)
                &&& record_at(generations, slot.location) == Some(
                    CommandView::Put { key: slot.key, value: after.contents[slot.key] },
                )
            } by {
                assert(state.slots.contains(slot));
            }
            assert forall|other: Seq<char>| #[trigger]
                after.contents.contains_key(other) implies has_key(after.slots, other) by {
                assert(state.contents.contains_key(other));
            }
        },
    }
}

/// Records that stand where they say keep the state consistent, with
/// their bytes added to the budget.
pub proof fn lemma_replay_onto_consistent(
    generations: Seq<GenerationView>,
    state: Replayed,
    records: Seq<Record>,
    budget: nat,
)
    requires
        consistent(generations, state, budget),
        placed(generations, records),
    ensures
        consistent(generations, replay_onto(state, records), budget + records_len(records)),
    decreases records.len(),
{
    if records.len() > 0 {
        let earlier = records.drop_last();
        assert forall|i: int| 0 <= i < earlier.len() implies record_at(
            generations,
            (#[trigger] earlier[i]).location,
        ) == Some(earlier[i].command) by {
            assert(earlier[i] == records[i]);
        }
        lemma_replay_onto_consistent(generations, state, earlier, budget);
        lemma_apply_consistent(
            generations,
            replay_onto(state, earlier),
            records.last(),
            budget + records_len(earlier),
        );
    }
}

/// Replaying two runs of records is replaying the first and then the second.
pub proof fn lemma_replay_onto_concat(state: Replayed, first: Seq<Record>, second: Seq<Record>)
    ensures
        replay_onto(state, first + second) == replay_onto(replay_onto(state, first), second),
    decreases second.len(),
{
    if second.len() == 0 {
        assert(first + second =~= first);
    } else {
        assert((first + second).drop_last() =~= first + second.drop_last());
        lemma_replay_onto_concat(state, first, second.drop_last());
    }
}

/// The bytes of two runs of records add up.
pub proof fn lemma_records_len_concat(first: Seq<Record>, second: Seq<Record>)
    ensures
        records_len(first + second) == records_len(first) + records_len(second),
    decreases second.len(),
{
    if second.len() == 0 {
        assert(first + second =~= first);
    } else {
        assert((first + second).drop_last() =~= first + second.drop_last());
        lemma_records_len_concat(first, second.drop_last());
    }
}

/// The records of a generation stand in it where their locations say, and
/// their bytes are the bytes of the generation from `at` on.
pub proof fn lemma_records_placed(bytes: Seq<u8>, generation: u64, at: int)
    requires
        0 <= at <= bytes.len() <= u64::MAX,
        records_from(bytes, generation, at) is Some,
    ensures
        forall|i: int|
            0 <= i < records_from(bytes, generation, at).unwrap().len() ==> {
                let record = #[trigger] records_from(bytes, generation, at).unwrap()[i];
                &&& record.location.generation == generation
                &&& decode_at(bytes, record.location.offset as int) == Some(
                    (record.command, record.location.length as int),
                )
            },
        records_len(records_from(bytes, generation, at).unwrap()) == bytes.len() - at,
    decreases bytes.len() - at,
{
    let records = records_from(bytes, generation, at).unwrap();
    if at < bytes.len() {
        let (command, length) = decode_at(bytes, at).unwrap();
        lemma_decode_bounds(bytes, at);
        lemma_records_placed(bytes, generation, at + length);
        let head = Record {
            command,
            location: Location { generation, offset: at as u64, length: length as u64 },
        };
        let rest = records_from(bytes, generation, at + length).unwrap();
        assert(records == seq![head] + rest);
        assert forall|i: int| 0 <= i < records.len() implies {
            let record = #[trigger] records[i];
            &&& record.location.generation == generation
            &&& decode_at(bytes, record.location.offset as int) == Some(
                (record.command, record.location.length as int),
            )
        } by {
            if i > 0 {
                assert(records[i] == rest[i - 1]);
            }
        }
        lemma_records_len_concat(seq![head], rest);
        assert(seq![head].drop_last() =~= Seq::<Record>::empty());
        assert(records_len(Seq::<Record>::empty()) == 0);
    }
}

/// A record that stands in some generations stands in any log that
/// starts with them.
pub proof fn lemma_record_at_older(
    generations: Seq<GenerationView>,
    location: Location,
)
    requires
        ascending(generations),
        generations.len() > 0,
        record_at(generations.drop_last(), location) is Some,
    ensures
        record_at(generations, location) == record_at(generations.drop_last(), location),
{
    let older = generations.drop_last();
    let p = generation_position(older, location.generation);
    assert(older[p] == generations[p]);
    lemma_generation_unique(generations, p);
}

/// The records of a log stand in it where their locations say, and their
/// bytes are the bytes of the log.
pub proof fn lemma_log_placed(generations: Seq<GenerationView>)
    requires
        ascending(generations),
        total_len(generations) <= u64::MAX,
        log_records(generations) is Some,
    ensures
        placed(generations, log_records(generations).unwrap()),
        records_len(log_records(generations).unwrap()) == total_len(generations),
    decreases generations.len(),
{
    if generations.len() > 0 {
        let older = generations.drop_last();
        let last = generations.last();
        assert forall|i: int, j: int| 0 <= i < j < older.len() implies (#[trigger] older[i]).id < (
        #[trigger] older[j]).id by {
            assert(generations[i].id < generations[j].id);
        }
        lemma_log_placed(older);
        lemma_records_placed(last.bytes, last.id, 0);
        let first = log_records(older).unwrap();
        let second = records_from(last.bytes, last.id, 0).unwrap();
        let records = log_records(generations).unwrap();
        lemma_records_len_concat(first, second);
        lemma_generation_unique(generations, generations.len() - 1);
        assert forall|i: int| 0 <= i < records.len() implies record_at(
            generations,
            (#[trigger] records[i]).location,
        ) == Some(records[i].command) by {
            if i < first.len() {
                assert(records[i] == first[i]);
                lemma_record_at_older(generations, first[i].location);
            } else {
                assert(records[i] == second[i - first.len()]);
            }
        }
    }
}

/// What replay rebuilds agrees with the log it was rebuilt from: each slot
/// of the index points at the latest put record of its key, the contents
/// hold the value of that record, and the live and stale bytes together
/// are no more than the log holds.
pub proof fn lemma_replay_consistent(generations: Seq<GenerationView>)
    requires
        ascending(generations),
        total_len(generations) <= u64::MAX,
        replay_log(generations) is Some,
    ensures
        consistent(generations, replay_log(generations).unwrap(), total_len(generations)),
{
    lemma_log_placed(generations);
    let records = log_records(generations).unwrap();
    assert(consistent(generations, fresh(), 0)) by {
        assert(live_bytes(Seq::<Slot>::empty()) == 0);
    }
    lemma_replay_onto_consistent(generations, fresh(), records, 0);
}

/// A log with a generation that is not a sequence of records has no records.
pub proof fn lemma_log_records_prefix(generations: Seq<GenerationView>, k: int)
    requires
        0 <= k <= generations.len(),
        log_records(generations.take(k)) is None,
    ensures
        log_records(generations) is None,
    decreases generations.len(),
{
    if k == generations.len() {
        assert(generations.take(k) =~= generations);
    } else {
        assert(generations.drop_last().take(k) =~= generations.take(k));
        lemma_log_records_prefix(generations.drop_last(), k);
    }
}

/// Whether `current` holds the records of the generation before offset
/// `at`: with the records from `at` on they make up the records of the
/// generation, and where the rest does not decode, neither does the whole.
pub open spec fn scanned(bytes: Seq<u8>, generation: u64, at: int, current: Seq<Record>) -> bool {
    match records_from(bytes, generation, at) {
        Some(rest) => records_from(bytes, generation, 0) == Some(current + rest),
        None => records_from(bytes, generation, 0) is None,
    }
}

/// Applies a record to the index and returns the number of bytes that the
/// record makes stale.
pub fn apply_to_index(index: &mut Index, command: Command, location: Location) -> (stale: u64)
    requires
        old(index).wf(),
    ensures
        final(index).wf(),
        final(index)@ == slots_after(old(index)@, Record { command: command@, location }),
        stale == staled_by(old(index)@, Record { command: command@, location }),
{
    match command {
        Command::Put { key, value } => {
            match index.insert(key, location) {
                Some(before) => before.length,
                None => 0,
            }
        },
        Command::Remove { key } => {
            match index.remove(&key) {
                Some(before) => before.length,
                None => location.length,
            }
        },
    }
}

/// Rebuilds the index and the count of stale bytes from the log, or gives
/// `CorruptLog` where a generation is not a sequence of records.
pub fn replay(log: &Log) -> (r: Result<(Index, u64), KvsError>)
    requires
        log.wf(),
    ensures
        match replay_log(log@) {
            Some(state) => r matches Ok((index, stale)) && index.wf() && index@ == state.slots
                && stale == state.stale,
            None => r == Err::<(Index, u64), KvsError>(KvsError::CorruptLog),
        },
{
    let generations = log.generations();
    let ghost views = log@;
    proof {
        log.lemma_wf();
    }
    let mut index = Index::new();
    let mut stale: u64 = 0;
    let ghost mut done: Seq<Record> = Seq::empty();
    let mut g: usize = 0;
    assert(views.take(0) =~= Seq::<GenerationView>::empty());
    assert(live_bytes(Seq::<Slot>::empty()) == 0);
    while g < generations.len()
        invariant
            g <= generations.len(),
            views == log@,
            views_of(generations@) == views,
            total_len(views) <= u64::MAX,
            log_records(views.take(g as int)) == Some(done),
            index.wf(),
            index@ == replay_onto(fresh(), done).slots,
            stale == replay_onto(fresh(), done).stale,
            live_bytes(index@) + stale <= total_len(views.take(g as int)),
        decreases generations.len() - g,
    {
        let bytes = generations[g].bytes.as_slice();
        let id: u64 = generations[g].id;
        let ghost prior = done;
        let ghost mut current: Seq<Record> = Seq::empty();
        let mut at: usize = 0;
        proof {
            lemma_total_len_bounds(views, g as int);
            assert(views.take(g + 1).drop_last() =~= views.take(g as int));
            assert(prior + current =~= prior);
            if records_from(bytes@, id, 0) is Some {
                assert(current + records_from(bytes@, id, 0).unwrap() =~= records_from(
                    bytes@,
                    id,
                    0,
                ).unwrap());
            }
        }
        while at < bytes.len()
            invariant
                at <= bytes.len(),
                g < generations.len(),
                views == log@,
                views_of(generations@) == views,
                bytes@ == views[g as int].bytes,
                id == views[g as int].id,
                total_len(views.take(g as int)) + bytes.len() <= u64::MAX,
                log_records(views.take(g as int)) == Some(prior),
                scanned(bytes@, id, at as int, current),
                done == prior + current,
                index.wf(),
                index@ == replay_onto(fresh(), done).slots,
                stale == replay_onto(fresh(), done).stale,
                live_bytes(index@) + stale <= total_len(views.take(g as int)) + at,
            decreases bytes.len() - at,
        {
            match Command::decode(bytes, at) {
                None => {
                    proof {
                        assert(records_from(bytes@, id, at as int) is None);
                        assert(views.take(g + 1).drop_last() =~= views.take(g as int));
                        assert(views.take(g + 1).last() == views[g as int]);
                        assert(log_records(views.take(g + 1)) is None);
                        lemma_log_records_prefix(views, g + 1);
                    }
                    return Err(KvsError::CorruptLog);
                },
                Some((command, length)) => {
                    let location = Location {
                        generation: id,
                        offset: at as u64,
                        length: length as u64,
                    };
                    let ghost record = Record { command: command@, location };
                    let ghost state = replay_onto(fresh(), done);
                    proof {
                        lemma_decode_bounds(bytes@, at as int);
                        let rest = records_from(bytes@, id, at + length);
                        if rest is Some {
                            assert(current + (seq![record] + rest.unwrap()) =~= current.push(record)
                                + rest.unwrap());
                        }
                        assert(done.push(record).drop_last() =~= done);
                        assert(prior + current.push(record) =~= done.push(record));
                        lemma_upsert(index@, command@.key(), location);
                        lemma_delete(index@, command@.key());
                    }
                    let made_stale: u64 = apply_to_index(&mut index, command, location);
                    stale = stale + made_stale;
                    at = at + length;
                    proof {
                        current = current.push(record);
                        done = done.push(record);
                    }
                },
            }
        }
        proof {
            assert(views.take(g + 1).drop_last() =~= views.take(g as int));
            assert(current + Seq::<Record>::empty() =~= current);
        }
        g = g + 1;
    }
    assert(views.take(g as int) =~= views);
    Ok((index, stale))
}

} // verus!
