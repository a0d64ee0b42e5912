//! What holds of the store whatever was written to it.
//!
//! The laws speak of logs: a store is what replaying its log gives, so what
//! holds of the replayed log holds of the store.

use vstd::prelude::*;
use crate::compact::{compacted, compacted_generation, lemma_compacted,
    lemma_compaction_crash_safe};
use crate::error::KvsError;
use crate::index::{live_bytes, Location};
use crate::kv::{accepts, due, settled, KvStore};
use crate::log::{appended, ascending, lemma_log_append, lemma_total_len_appended, log_records,
    started, total_len, GenerationView, Record};
use crate::record::{encoding, lemma_decode_encoding, CommandView};
use crate::replay::{apply, effect, replay_log};

verus! {

/// Whether the generations are the log of a store: there is one, their
/// numbers strictly increase, 64 bits count their bytes, and each is a
/// sequence of records.
pub open spec fn valid_log(generations: Seq<GenerationView>) -> bool {
    &&& generations.len() > 0
    &&& ascending(generations)
    &&& total_len(generations) <= u64::MAX
    &&& replay_log(generations) is Some
}

/// The contents that a log stands for.
pub open spec fn contents_of(generations: Seq<GenerationView>) -> Map<Seq<char>, Seq<char>> {
    replay_log(generations).unwrap().contents
}

/// The log after the record of `command` was written to it, compacted
/// where that was due.
pub open spec fn written(generations: Seq<GenerationView>, threshold: u64, command: CommandView)
    -> Seq<GenerationView> {
    settled(appended(generations, encoding(command)), threshold)
}

/// The log of a store is a valid log.
pub proof fn law_store_log_valid(store: KvStore)
    requires
        store.wf(),
    ensures
        valid_log(store.spec_log()),
        store@ == contents_of(store.spec_log()),
{
    store.lemma_wf();
}

/// Replay after a write is the write applied to replay before it: the
/// appended record is the last record of the log, and it decodes to the
/// command it was made from.
pub proof fn law_append_then_replay(generations: Seq<GenerationView>, command: CommandView)
    requires
        valid_log(generations),
        accepts(generations, command),
    ensures
        valid_log(appended(generations, encoding(command))),
        replay_log(appended(generations, encoding(command))) == Some(
            apply(
                replay_log(generations).unwrap(),
                Record {
                    command,
                    location: Location {
                        generation: generations.last().id,
                        offset: generations.last().bytes.len() as u64,
                        length: encoding(command).len() as u64,
                    },
                },
            ),
        ),
{
    let record = encoding(command);
    let after = appended(generations, record);
    lemma_decode_encoding(Seq::empty(), command, Seq::empty());
    assert(Seq::<u8>::empty() + record + Seq::<u8>::empty() =~= record);
    lemma_log_append(generations, record, command);
    lemma_total_len_appended(generations, record);
    let records = log_records(generations).unwrap();
    let added = Record {
        command,
        location: Location {
            generation: generations.last().id,
            offset: generations.last().bytes.len() as u64,
            length: record.len() as u64,
        },
    };
    assert(records.push(added).drop_last() =~= records);
    assert forall|i: int, j: int| 0 <= i < j < after.len() implies (#[trigger] after[i]).id < (
    #[trigger] after[j]).id by {
        assert(generations[i].id < generations[j].id);
    }
}

/// A write changes the contents by its command and nothing else, whether
/// or not it compacts the log.
pub proof fn law_write(generations: Seq<GenerationView>, threshold: u64, command: CommandView)
    requires
        valid_log(generations),
        accepts(generations, command),
    ensures
        valid_log(written(generations, threshold, command)),
        contents_of(written(generations, threshold, command)) == effect(
            contents_of(generations),
            command,
        ),
{
    law_append_then_replay(generations, command);
    let after = appended(generations, encoding(command));
    if due(after, threshold) {
        lemma_compacted(after);
    }
}

/// Round trip: after a key was set to a value, the store holds that value
/// for the key.
pub proof fn law_round_trip(
    generations: Seq<GenerationView>,
    threshold: u64,
    key: Seq<char>,
    value: Seq<char>,
)
    requires
        valid_log(generations),
        accepts(generations, CommandView::Put { key, value }),
    ensures
        contents_of(
            written(generations, threshold, CommandView::Put { key, value }),
        ).contains_key(key),
        contents_of(written(generations, threshold, CommandView::Put { key, value }))[key]
            == value,
{
    law_write(generations, threshold, CommandView::Put { key, value });
}

/// Overwrite: after a key was set twice, the store holds the second value
/// for the key, never the first.
pub proof fn law_overwrite(
    generations: Seq<GenerationView>,
    threshold: u64,
    key: Seq<char>,
    first: Seq<char>,
    second: Seq<char>,
)
    requires
        valid_log(generations),
        accepts(generations, CommandView::Put { key, value: first }),
        accepts(
            written(generations, threshold, CommandView::Put { key, value: first }),
            CommandView::Put { key, value: second },
        ),
    ensures
        contents_of(
            written(
                written(generations, threshold, CommandView::Put { key, value: first }),
                threshold,
                CommandView::Put { key, value: second },
            ),
        )[key] == second,
{
    let once = written(generations, threshold, CommandView::Put { key, value: first });
    law_write(generations, threshold, CommandView::Put { key, value: first });
    law_write(once, threshold, CommandView::Put { key, value: second });
}

/// Delete: after a key was set and removed, the store does not hold the
/// key, so that removing it once more finds no key to remove.
pub proof fn law_delete(
    generations: Seq<GenerationView>,
    threshold: u64,
    key: Seq<char>,
    value: Seq<char>,
)
    requires
        valid_log(generations),
        accepts(generations, CommandView::Put { key, value }),
        accepts(
            written(generations, threshold, CommandView::Put { key, value }),
            CommandView::Remove { key },
        ),
    ensures
        !contents_of(
            written(
                written(generations, threshold, CommandView::Put { key, value }),
                threshold,
                CommandView::Remove { key },
            ),
        ).contains_key(key),
{
    let once = written(generations, threshold, CommandView::Put { key, value });
    law_write(generations, threshold, CommandView::Put { key, value });
    law_write(once, threshold, CommandView::Remove { key });
}

/// Replay gives back the store: opening the generations of a store gives a
/// store with the same index, the same count of stale bytes and the same
/// contents.
pub proof fn law_reopen(store: KvStore, threshold: u64, r: Result<KvStore, KvsError>)
    requires
        store.wf(),
        KvStore::opens(store.spec_log(), threshold, r),
    ensures
        r matches Ok(reopened) && reopened.spec_log() == store.spec_log() && reopened.spec_index()
            == store.spec_index() && reopened.spec_uncompacted() == store.spec_uncompacted()
            && reopened@ == store@,
{
    store.lemma_wf();
    assert(started(store.spec_log()) == store.spec_log());
    r.unwrap().lemma_wf();
}

/// Compaction keeps the contents, leaves nothing stale, and leaves as many
/// bytes as the live records had: fewer than before wherever a byte was
/// stale.
pub proof fn law_compaction(generations: Seq<GenerationView>)
    requires
        valid_log(generations),
        generations.last().id < u64::MAX,
    ensures
        valid_log(compacted(generations)),
        contents_of(compacted(generations)) == contents_of(generations),
        replay_log(compacted(generations)).unwrap().stale == 0,
        total_len(compacted(generations)) == live_bytes(replay_log(generations).unwrap().slots),
        total_len(compacted(generations)) <= total_len(generations),
        replay_log(generations).unwrap().stale > 0 ==> total_len(compacted(generations))
            < total_len(generations),
{
    lemma_compacted(generations);
}

/// A crash in the middle of compaction loses nothing: with the new
/// generation written and the older ones still there, the older ones are
/// untouched, and replaying all of them gives the contents from before.
pub proof fn law_crash_mid_compaction(generations: Seq<GenerationView>)
    requires
        valid_log(generations),
        generations.last().id < u64::MAX,
    ensures
        generations.push(compacted_generation(generations)).drop_last() == generations,
        ascending(generations.push(compacted_generation(generations))),
        replay_log(generations.push(compacted_generation(generations))) is Some,
        contents_of(generations.push(compacted_generation(generations))) == contents_of(
            generations,
        ),
{
    lemma_compaction_crash_safe(generations);
}

/// Opening after a crash in the middle of compaction: where the new
/// generation stands beside the older ones, and 64 bits still count the
/// bytes of all of them, opening them gives a store with the contents from
/// before the compaction.
pub proof fn law_open_after_crash(
    generations: Seq<GenerationView>,
    threshold: u64,
    r: Result<KvStore, KvsError>,
)
    requires
        valid_log(generations),
        generations.last().id < u64::MAX,
        total_len(generations.push(compacted_generation(generations))) <= u64::MAX,
        KvStore::opens(generations.push(compacted_generation(generations)), threshold, r),
    ensures
        r matches Ok(store) && store@ == contents_of(generations),
{
    lemma_compaction_crash_safe(generations);
    let both = generations.push(compacted_generation(generations));
    assert(started(both) == both);
}

} // verus!
