//! Compaction: the live records written anew, the stale ones left behind.
//!
//! Compaction writes the record of each live key, in the order of the
//! index, into a generation of its own. That generation takes the place of
//! all the others.

use vstd::prelude::*;
use crate::index::{has_key, live_bytes, Location, Slot};
use crate::log::{ascending, bytes_at, generation_position, lemma_records_append,
    log_records, records_from, total_len, GenerationView, Record};
use crate::record::{lemma_decode_bounds, lemma_decode_local, CommandView};
use crate::replay::{apply, consistent, fresh, lemma_replay_consistent, lemma_replay_onto_concat,
    replay_log, replay_onto, Replayed};

verus! {

/// The bytes of the records that the slots point at, in the order of the
/// slots.
pub open spec fn live_image(generations: Seq<GenerationView>, slots: Seq<Slot>) -> Seq<u8>
    decreases slots.len(),
{
    if slots.len() == 0 {
        Seq::empty()
    } else {
        live_image(generations, slots.drop_last()) + bytes_at(generations, slots.last().location)
    }
}

/// The slots after their records were written one after another into the
/// generation `id`.
pub open spec fn relocated(slots: Seq<Slot>, id: u64) -> Seq<Slot> {
    Seq::new(
        slots.len(),
        |i: int|
            Slot {
                key: slots[i].key,
                location: Location {
                    generation: id,
                    offset: live_bytes(slots.take(i)) as u64,
                    length: slots[i].location.length,
                },
            },
    )
}

/// The records that compaction writes into the generation `id`.
pub open spec fn rewritten(state: Replayed, id: u64) -> Seq<Record> {
    Seq::new(
        state.slots.len(),
        |i: int|
            Record {
                command: CommandView::Put {
                    key: state.slots[i].key,
                    value: state.contents[state.slots[i].key],
                },
                location: relocated(state.slots, id)[i].location,
            },
    )
}

/// The generation that compaction writes.
pub open spec fn compacted_generation(generations: Seq<GenerationView>) -> GenerationView {
    GenerationView {
        id: (generations.last().id + 1) as u64,
        bytes: live_image(generations, replay_log(generations).unwrap().slots),
    }
}

/// The log after compaction.
pub open spec fn compacted(generations: Seq<GenerationView>) -> Seq<GenerationView> {
    seq![compacted_generation(generations)]
}

/// The contents of the first `i` slots.
pub open spec fn kept(state: Replayed, i: int) -> Map<Seq<char>, Seq<char>> {
    Map::new(|key: Seq<char>| has_key(state.slots.take(i), key), |key: Seq<char>| state.contents[key])
}

/// The first slots hold no more live bytes than all of them.
pub proof fn lemma_live_bytes_take(slots: Seq<Slot>, i: int)
    requires
        0 <= i <= slots.len(),
    ensures
        live_bytes(slots.take(i)) <= live_bytes(slots),
    decreases slots.len(),
{
    if i == slots.len() {
        assert(slots.take(i) =~= slots);
    } else {
        assert(slots.drop_last().take(i) =~= slots.take(i));
        lemma_live_bytes_take(slots.drop_last(), i);
    }
}

/// What compaction writes for the first `i` slots: as many bytes as their
/// records have, which decode to the rewritten records, which replay to
/// the relocated slots with the contents of those slots and nothing stale.
pub proof fn lemma_live_image(
    generations: Seq<GenerationView>,
    state: Replayed,
    budget: nat,
    id: u64,
    i: int,
)
    requires
        consistent(generations, state, budget),
        budget <= u64::MAX,
        0 <= i <= state.slots.len(),
    ensures
        live_image(generations, state.slots.take(i)).len() == live_bytes(state.slots.take(i)),
        records_from(live_image(generations, state.slots.take(i)), id, 0) == Some(
            rewritten(state, id).take(i),
        ),
        replay_onto(fresh(), rewritten(state, id).take(i)) == (Replayed {
            slots: relocated(state.slots, id).take(i),
            stale: 0,
            contents: kept(state, i),
        }),
    decreases i,
{
    let slots = state.slots;
    let moved = rewritten(state, id);
    if i == 0 {
        assert(slots.take(0) =~= Seq::<Slot>::empty());
        assert(moved.take(0) =~= Seq::<Record>::empty());
        assert(relocated(slots, id).take(0) =~= Seq::<Slot>::empty());
        assert(kept(state, 0) =~= Map::<Seq<char>, Seq<char>>::empty());
    } else {
        let j = i - 1;
        lemma_live_image(generations, state, budget, id, j);
        lemma_live_bytes_take(slots, j);
        lemma_live_bytes_take(slots, i);
        let slot = slots[j];
        assert(slots.contains(slot));
        assert(slots.take(i).drop_last() =~= slots.take(j));
        assert(slots.take(i).last() == slot);
        let image = live_image(generations, slots.take(j));
        let source = generations[generation_position(generations, slot.location.generation)].bytes;
        let record = bytes_at(generations, slot.location);
        let command = CommandView::Put { key: slot.key, value: state.contents[slot.key] };
        lemma_decode_bounds(source, slot.location.offset as int);
        assert(record.subrange(0, record.len() as int) =~= record);
        lemma_decode_local(source, slot.location.offset as int, record, 0);
        lemma_records_append(image, id, 0, record, command);
        assert(moved.take(j).push(moved[j]) =~= moved.take(i));
        assert(moved.take(i).drop_last() =~= moved.take(j));
        let before = replay_onto(fresh(), moved.take(j));
        assert(!has_key(before.slots, slot.key)) by {
            if has_key(before.slots, slot.key) {
                let p = choose|p: int|
                    0 <= p < before.slots.len() && #[trigger] before.slots[p].key == slot.key;
                assert(slots[p].key != slots[j].key);
            }
        }
        let after = apply(before, moved[j]);
        assert(after.slots =~= relocated(slots, id).take(i));
        assert(after.contents =~= kept(state, i)) by {
            assert forall|key: Seq<char>| has_key(slots.take(i), key) <==> (key == slot.key
                || has_key(slots.take(j), key)) by {
                if has_key(slots.take(i), key) {
                    let p = choose|p: int|
                        0 <= p < slots.take(i).len() && #[trigger] slots.take(i)[p].key == key;
                    if p < j {
                        assert(slots.take(j)[p].key == key);
                    }
                }
                if has_key(slots.take(j), key) {
                    let p = choose|p: int|
                        0 <= p < slots.take(j).len() && #[trigger] slots.take(j)[p].key == key;
                    assert(slots.take(i)[p].key == key);
                }
                if key == slot.key {
                    assert(slots.take(i)[j].key == key);
                }
            }
        }
    }
}

/// All the slots keep all the contents.
pub proof fn lemma_kept_all(generations: Seq<GenerationView>, state: Replayed, budget: nat)
    requires
        consistent(generations, state, budget),
    ensures
        kept(state, state.slots.len() as int) == state.contents,
{
    let n = state.slots.len() as int;
    assert(state.slots.take(n) =~= state.slots);
    assert forall|key: Seq<char>| has_key(state.slots, key) implies state.contents.contains_key(
        key,
    ) by {
        let p = choose|p: int| 0 <= p < state.slots.len() && #[trigger] state.slots[p].key == key;
        assert(state.slots.contains(state.slots[p]));
    }
    assert(kept(state, n) =~= state.contents);
}

/// Compaction keeps what the store holds: the compacted log replays to the
/// same contents, with the slots relocated into the new generation and
/// nothing stale, and it has as many bytes as the live records had.
pub proof fn lemma_compacted(generations: Seq<GenerationView>)
    requires
        generations.len() > 0,
        ascending(generations),
        total_len(generations) <= u64::MAX,
        replay_log(generations) is Some,
        generations.last().id < u64::MAX,
    ensures
        replay_log(compacted(generations)) == Some(
            Replayed {
                slots: relocated(
                    replay_log(generations).unwrap().slots,
                    compacted_generation(generations).id,
                ),
                stale: 0,
                contents: replay_log(generations).unwrap().contents,
            },
        ),
        total_len(compacted(generations)) == live_bytes(replay_log(generations).unwrap().slots),
        live_bytes(replay_log(generations).unwrap().slots) + replay_log(
            generations,
        ).unwrap().stale <= total_len(generations),
        ascending(compacted(generations)),
{
    let state = replay_log(generations).unwrap();
    let budget = total_len(generations);
    let fresh_generation = compacted_generation(generations);
    let n = state.slots.len() as int;
    lemma_replay_consistent(generations);
    lemma_live_image(generations, state, budget, fresh_generation.id, n);
    lemma_kept_all(generations, state, budget);
    assert(state.slots.take(n) =~= state.slots);
    assert(rewritten(state, fresh_generation.id).take(n) =~= rewritten(state, fresh_generation.id));
    assert(relocated(state.slots, fresh_generation.id).take(n) =~= relocated(
        state.slots,
        fresh_generation.id,
    ));
    let after = compacted(generations);
    assert(after.drop_last() =~= Seq::<GenerationView>::empty());
    assert(log_records(Seq::<GenerationView>::empty()) == Some(Seq::<Record>::empty()));
    assert(Seq::<Record>::empty() + rewritten(state, fresh_generation.id) =~= rewritten(
        state,
        fresh_generation.id,
    ));
    assert(total_len(Seq::<GenerationView>::empty()) == 0);
}

/// Replaying the rewritten records onto the state they were rewritten from
/// leaves the contents as they were.
pub proof fn lemma_rewritten_keeps_contents(
    generations: Seq<GenerationView>,
    state: Replayed,
    budget: nat,
    id: u64,
    i: int,
)
    requires
        consistent(generations, state, budget),
        0 <= i <= state.slots.len(),
    ensures
        replay_onto(state, rewritten(state, id).take(i)).contents == state.contents,
    decreases i,
{
    let moved = rewritten(state, id);
    if i == 0 {
        assert(moved.take(0) =~= Seq::<Record>::empty());
    } else {
        lemma_rewritten_keeps_contents(generations, state, budget, id, i - 1);
        assert(moved.take(i).drop_last() =~= moved.take(i - 1));
        let slot = state.slots[i - 1];
        assert(state.slots.contains(slot));
        let before = replay_onto(state, moved.take(i - 1));
        assert(before.contents.insert(slot.key, state.contents[slot.key]) =~= state.contents);
    }
}

/// A crash in the middle of compaction loses nothing. Where the new
/// generation was written and the older ones were not yet taken away, the
/// older generations are as they were and replay as before, and all the
/// generations together replay to the same contents.
pub proof fn lemma_compaction_crash_safe(generations: Seq<GenerationView>)
    requires
        generations.len() > 0,
        ascending(generations),
        total_len(generations) <= u64::MAX,
        replay_log(generations) is Some,
        generations.last().id < u64::MAX,
    ensures
        generations.push(compacted_generation(generations)).drop_last() == generations,
        ascending(generations.push(compacted_generation(generations))),
        replay_log(generations.push(compacted_generation(generations))) is Some,
        replay_log(generations.push(compacted_generation(generations))).unwrap().contents
            == replay_log(generations).unwrap().contents,
{
    let state = replay_log(generations).unwrap();
    let budget = total_len(generations);
    let fresh_generation = compacted_generation(generations);
    let n = state.slots.len() as int;
    let both = generations.push(fresh_generation);
    assert(both.drop_last() =~= generations);
    lemma_replay_consistent(generations);
    lemma_live_image(generations, state, budget, fresh_generation.id, n);
    assert(state.slots.take(n) =~= state.slots);
    let moved = rewritten(state, fresh_generation.id);
    assert(moved.take(n) =~= moved);
    lemma_replay_onto_concat(fresh(), log_records(generations).unwrap(), moved);
    lemma_rewritten_keeps_contents(generations, state, budget, fresh_generation.id, n);
    assert forall|i: int, j: int| 0 <= i < j < both.len() implies (#[trigger] both[i]).id < (
    #[trigger] both[j]).id by {
        if j < generations.len() {
            assert(generations[i].id < generations[j].id);
        } else if i < generations.len() - 1 {
            assert(generations[i].id < generations[generations.len() - 1].id);
        }
    }
}

} // verus!
