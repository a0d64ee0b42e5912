//! The store: a map from keys to values kept in a command log.
//!
//! The store holds the log and an index into it. What the store holds is
//! what replaying its log gives, after every operation: the index, the
//! count of stale bytes and the contents are never anything else.

use vstd::prelude::*;
use vstd::string::*;
use crate::compact::{compacted, lemma_compacted, lemma_live_image, relocated};
pub use crate::error::KvsError;
use crate::index::{lemma_delete, lemma_upsert, live_bytes, position, Index, Location, Slot};
use crate::log::{appended, ascending, generation_position, lemma_log_append, log_records,
    started, total_len, views_of, Generation, GenerationView, Log, Record};
use crate::record::{encodable, encoding, lemma_decode_encoding, lemma_decode_is_encoding,
    Command, CommandView};
use crate::replay::{apply, apply_to_index, consistent, effect, lemma_replay_consistent,
    lemma_slot_found, replay, replay_log, Replayed};

pub use crate::entry::Entry;
pub use crate::prelude::W;

verus! {

/// The count of stale bytes beyond which a write compacts the log, unless
/// the store was opened with another.
pub const COMPACTION_THRESHOLD: u64 = 1048576;

/// Whether a log takes the record of `command`: the command can be encoded
/// and the log stays within what 64 bits count.
pub open spec fn accepts(generations: Seq<GenerationView>, command: CommandView) -> bool {
    encodable(command) && total_len(generations) + encoding(command).len() <= u64::MAX
}

/// Whether compaction is due: more bytes are stale than the threshold
/// allows, and there is a number left for the new generation.
pub open spec fn due(generations: Seq<GenerationView>, threshold: u64) -> bool {
    replay_log(generations).unwrap().stale > threshold && generations.last().id < u64::MAX
}

/// The log after a write: compacted where compaction is due.
pub open spec fn settled(generations: Seq<GenerationView>, threshold: u64) -> Seq<
    GenerationView,
> {
    if due(generations, threshold) {
        compacted(generations)
    } else {
        generations
    }
}

/// The store.
#[derive(Debug, Clone)]
pub struct KvStore {
    log: Log,
    index: Index,
    uncompacted: u64,
    threshold: u64,
}

impl View for KvStore {
    type V = Map<Seq<char>, Seq<char>>;

    closed spec fn view(&self) -> Map<Seq<char>, Seq<char>> {
        replay_log(self.log@).unwrap().contents
    }
}

impl KvStore {
    /// Whether the store is well formed: its log is, and its index and its
    /// count of stale bytes are what replaying the log gives.
    pub closed spec fn wf(&self) -> bool {
        &&& self.log.wf()
        &&& self.index.wf()
        &&& replay_log(self.log@) is Some
        &&& replay_log(self.log@).unwrap().slots == self.index@
        &&& replay_log(self.log@).unwrap().stale == self.uncompacted
    }

    /// The generations of the log.
    pub closed spec fn spec_log(&self) -> Seq<GenerationView> {
        self.log@
    }

    /// The slots of the index.
    pub closed spec fn spec_index(&self) -> Seq<Slot> {
        self.index@
    }

    /// The count of stale bytes.
    pub closed spec fn spec_uncompacted(&self) -> u64 {
        self.uncompacted
    }

    /// The count of stale bytes beyond which a write compacts the log.
    pub closed spec fn spec_threshold(&self) -> u64 {
        self.threshold
    }

    /// What well-formedness says: the store is what replaying its log gives.
    pub proof fn lemma_wf(&self)
        requires
            self.wf(),
        ensures
            self.spec_log().len() > 0,
            ascending(self.spec_log()),
            total_len(self.spec_log()) <= u64::MAX,
            replay_log(self.spec_log()) == Some(
                Replayed {
                    slots: self.spec_index(),
                    stale: self.spec_uncompacted() as nat,
                    contents: self@,
                },
            ),
            consistent(
                self.spec_log(),
                replay_log(self.spec_log()).unwrap(),
                total_len(self.spec_log()),
            ),
    {
        self.log.lemma_wf();
        lemma_replay_consistent(self.log@);
    }

    /// Opens the store on the given generations, oldest first, with the
    /// default threshold.
    pub fn open(generations: Vec<Generation>) -> (r: Result<KvStore, KvsError>)
        ensures
            Self::opens(views_of(generations@), COMPACTION_THRESHOLD, r),
            generations@.len() == 0 ==> r is Ok,
    {
        Self::open_with(generations, COMPACTION_THRESHOLD)
    }

    /// What opening gives. Generations whose numbers do not strictly
    /// increase, or with more bytes than 64 bits count, give a `Generic`
    /// error; a generation that is not a sequence of records gives
    /// `CorruptLog`; otherwise the store holds the generations, or an empty
    /// first one where there were none, and what they replay to.
    pub open spec fn opens(
        generations: Seq<GenerationView>,
        threshold: u64,
        r: Result<KvStore, KvsError>,
    ) -> bool {
        if !ascending(generations) {
            r matches Err(e) && e.is_generic("generations out of order"@)
        } else if total_len(generations) > u64::MAX {
            r matches Err(e) && e.is_generic("log too large"@)
        } else if replay_log(started(generations)) is None {
            r matches Err(e) && e == KvsError::CorruptLog
        } else {
            &&& r matches Ok(store)
            &&& store.wf()
            &&& store.spec_log() == started(generations)
            &&& store.spec_threshold() == threshold
            &&& store@ == replay_log(started(generations)).unwrap().contents
        }
    }

    /// Opens the store on the given generations, oldest first, with the
    /// given threshold.
    pub fn open_with(generations: Vec<Generation>, threshold: u64) -> (r: Result<
        KvStore,
        KvsError,
    >)
        ensures
            Self::opens(views_of(generations@), threshold, r),
            generations@.len() == 0 ==> r is Ok,
    {
        proof {
            if generations@.len() == 0 {
                let views = views_of(generations@);
                assert(views =~= Seq::<GenerationView>::empty());
                assert(started(views).drop_last() =~= Seq::<GenerationView>::empty());
                assert(total_len(views) == 0);
                assert(log_records(Seq::<GenerationView>::empty()) == Some(
                    Seq::<Record>::empty(),
                ));
                assert(crate::log::records_from(Seq::<u8>::empty(), crate::log::FIRST_GENERATION, 0)
                    == Some(Seq::<Record>::empty()));
                assert(log_records(started(views)) is Some);
            }
        }
        let log = match Log::new(generations) {
            Ok(log) => log,
            Err(e) => {
                return Err(e);
            },
        };
        let (index, uncompacted) = match replay(&log) {
            Ok(rebuilt) => rebuilt,
            Err(e) => {
                return Err(e);
            },
        };
        Ok(KvStore { log, index, uncompacted, threshold })
    }

    /// The generations of the log, oldest first.
    pub fn generations(&self) -> (generations: &Vec<Generation>)
        ensures
            views_of(generations@) == self.spec_log(),
    {
        self.log.generations()
    }

    /// The number of the active generation.
    pub fn current_gen(&self) -> (id: u64)
        requires
            self.wf(),
        ensures
            id == self.spec_log().last().id,
    {
        self.log.active()
    }

    /// The count of stale bytes.
    pub fn uncompacted(&self) -> (stale: u64)
        requires
            self.wf(),
        ensures
            stale == replay_log(self.spec_log()).unwrap().stale,
    {
        self.uncompacted
    }

    /// The number of bytes in all generations.
    pub fn total_bytes(&self) -> (total: u64)
        requires
            self.wf(),
        ensures
            total == total_len(self.spec_log()),
    {
        self.log.total_bytes()
    }

    /// The number of keys.
    pub fn len(&self) -> (n: usize)
        requires
            self.wf(),
        ensures
            n == self.spec_index().len(),
    {
        self.index.len()
    }

    /// The value of `key`, or `None` where the key is not in the store.
    pub fn get(&self, key: String) -> (r: Result<Option<String>, KvsError>)
        requires
            self.wf(),
        ensures
            r matches Ok(found) && match found {
                Some(value) => self@.contains_key(key@) && self@[key@] == value@,
                None => !self@.contains_key(key@),
            },
    {
        proof {
            self.lemma_wf();
        }
        match self.index.lookup(&key) {
            None => Ok(None),
            Some(location) => {
                proof {
                    lemma_slot_found(self.index@, key@);
                }
                match self.log.read_at(location) {
                    Ok(Command::Put { key: _, value }) => Ok(Some(value)),
                    Ok(Command::Remove { key: _ }) => Err(KvsError::CorruptRecord),
                    Err(e) => Err(e),
                }
            },
        }
    }

    /// The keys with their values, in the order of the index: the order in
    /// which the keys were first bound.
    pub fn entries(&self) -> (r: Result<Vec<(String, String)>, KvsError>)
        requires
            self.wf(),
        ensures
            r matches Ok(pairs) && pairs@.len() == self.spec_index().len() && forall|i: int|
                0 <= i < pairs@.len() ==> {
                    &&& (#[trigger] pairs@[i]).0@ == self.spec_index()[i].key
                    &&& self@.contains_key(pairs@[i].0@)
                    &&& pairs@[i].1@ == self@[pairs@[i].0@]
                },
    {
        proof {
            self.lemma_wf();
        }
        let mut pairs: Vec<(String, String)> = Vec::new();
        let mut i: usize = 0;
        while i < self.index.len()
            invariant
                i <= self.index@.len(),
                self.wf(),
                consistent(self.log@, replay_log(self.log@).unwrap(), total_len(self.log@)),
                pairs@.len() == i,
                forall|j: int|
                    0 <= j < i ==> {
                        &&& (#[trigger] pairs@[j]).0@ == self.index@[j].key
                        &&& self@.contains_key(pairs@[j].0@)
                        &&& pairs@[j].1@ == self@[pairs@[j].0@]
                    },
            decreases self.index@.len() - i,
        {
            let entry = self.index.entry(i);
            proof {
                assert(self.index@.contains(self.index@[i as int]));
            }
            match self.log.read_at(entry.location) {
                Ok(Command::Put { key, value }) => {
                    pairs.push((key, value));
                },
                Ok(Command::Remove { key: _ }) => {
                    return Err(KvsError::CorruptRecord);
                },
                Err(e) => {
                    return Err(e);
                },
            }
            i += 1;
        }
        Ok(pairs)
    }

    /// Binds `key` to `value`: appends the record to the log, binds the key
    /// in the index, and compacts the log where that is due. Where the log
    /// does not take the record the store is as it was, and the result is
    /// `Serialization` for a command that cannot be encoded and a `Generic`
    /// error for a log that would grow too large.
    pub fn set(&mut self, key: String, value: String) -> (r: Result<(), KvsError>)
        requires
            old(self).wf(),
        ensures
            final(self).wf(),
            final(self).spec_threshold() == old(self).spec_threshold(),
            ({
                let command = CommandView::Put { key: key@, value: value@ };
                let log = old(self).spec_log();
                if !encodable(command) {
                    r == Err::<(), KvsError>(KvsError::Serialization)
                } else if !accepts(log, command) {
                    r matches Err(e) && e.is_generic("log too large"@)
                } else {
                    &&& r is Ok
                    &&& final(self).spec_log() == settled(
                        appended(log, encoding(command)),
                        old(self).spec_threshold(),
                    )
                    &&& final(self)@ == old(self)@.insert(key@, value@)
                }
            }),
            r is Err ==> *final(self) == *old(self),
    {
        self.write(Command::Put { key, value })
    }

    /// Drops the binding of `key`: appends the record to the log, unbinds
    /// the key in the index, and compacts the log where that is due. A key
    /// that is not in the store gives `NotFound`, and nothing is written; a
    /// log that would grow too large gives a `Generic` error.
    pub fn remove(&mut self, key: String) -> (r: Result<(), KvsError>)
        requires
            old(self).wf(),
        ensures
            final(self).wf(),
            final(self).spec_threshold() == old(self).spec_threshold(),
            ({
                let command = CommandView::Remove { key: key@ };
                let log = old(self).spec_log();
                if !old(self)@.contains_key(key@) {
                    r matches Err(e) && e.is_not_found(key@)
                } else if total_len(log) + encoding(command).len() > u64::MAX {
                    r matches Err(e) && e.is_generic("log too large"@)
                } else {
                    &&& r is Ok
                    &&& final(self).spec_log() == settled(
                        appended(log, encoding(command)),
                        old(self).spec_threshold(),
                    )
                    &&& final(self)@ == old(self)@.remove(key@)
                }
            }),
            r is Err ==> *final(self) == *old(self),
    {
        proof {
            self.lemma_wf();
        }
        if self.index.lookup(&key).is_none() {
            return Err(KvsError::NotFound(key));
        }
        proof {
            lemma_slot_found(self.index@, key@);
            let slot = self.index@[position(self.index@, key@)];
            let bytes = self.log@[generation_position(self.log@, slot.location.generation)].bytes;
            lemma_decode_is_encoding(bytes, slot.location.offset as int);
        }
        self.write(Command::Remove { key })
    }

    /// Appends the record of `command`, applies it to the index, and
    /// compacts the log where that is due.
    fn write(&mut self, command: Command) -> (r: Result<(), KvsError>)
        requires
            old(self).wf(),
        ensures
            final(self).wf(),
            final(self).spec_threshold() == old(self).spec_threshold(),
            ({
                let log = old(self).spec_log();
                if !encodable(command@) {
                    r == Err::<(), KvsError>(KvsError::Serialization)
                } else if !accepts(log, command@) {
                    r matches Err(e) && e.is_generic("log too large"@)
                } else {
                    &&& r is Ok
                    &&& final(self).spec_log() == settled(
                        appended(log, encoding(command@)),
                        old(self).spec_threshold(),
                    )
                    &&& final(self)@ == effect(old(self)@, command@)
                }
            }),
            r is Err ==> *final(self) == *old(self),
    {
        proof {
            self.lemma_wf();
        }
        let ghost log = self.log@;
        let ghost state = replay_log(log).unwrap();
        let location = match self.log.append(&command) {
            Ok(location) => location,
            Err(e) => {
                return Err(e);
            },
        };
        let ghost record = Record { command: command@, location };
        proof {
            lemma_decode_encoding(Seq::empty(), command@, Seq::empty());
            assert(Seq::<u8>::empty() + encoding(command@) + Seq::<u8>::empty() =~= encoding(
                command@,
            ));
            lemma_log_append(log, encoding(command@), command@);
            let records = log_records(log).unwrap();
            assert(records.push(record).drop_last() =~= records);
            lemma_upsert(state.slots, command@.key(), location);
            lemma_delete(state.slots, command@.key());
        }
        let made_stale: u64 = apply_to_index(&mut self.index, command, location);
        self.uncompacted = self.uncompacted + made_stale;
        assert(replay_log(self.log@) == Some(apply(state, record)));
        if self.uncompacted > self.threshold && self.log.active() < u64::MAX {
            self.rewrite();
        }
        Ok(())
    }

    /// Compacts the log: writes the record of each live key into a new
    /// generation, which takes the place of all the others. The contents
    /// stay as they were and nothing is stale any more. Where no number is
    /// left for the new generation the result is a `Generic` error and the
    /// store is as it was.
    pub fn compact(&mut self) -> (r: Result<(), KvsError>)
        requires
            old(self).wf(),
        ensures
            final(self).wf(),
            final(self).spec_threshold() == old(self).spec_threshold(),
            if old(self).spec_log().last().id == u64::MAX {
                &&& r matches Err(e) && e.is_generic("generation numbers exhausted"@)
                &&& *final(self) == *old(self)
            } else {
                &&& r is Ok
                &&& final(self).spec_log() == compacted(old(self).spec_log())
                &&& final(self)@ == old(self)@
                &&& final(self).spec_uncompacted() == 0
                &&& total_len(final(self).spec_log()) == live_bytes(old(self).spec_index())
                &&& live_bytes(old(self).spec_index()) + old(self).spec_uncompacted() <= total_len(
                    old(self).spec_log(),
                )
            },
    {
        if self.log.active() == u64::MAX {
            return Err(KvsError::Generic("generation numbers exhausted".to_owned()));
        }
        self.rewrite();
        Ok(())
    }

    /// Writes the live records into a new generation and puts it in the
    /// place of the others.
    fn rewrite(&mut self)
        requires
            old(self).wf(),
            old(self).spec_log().last().id < u64::MAX,
        ensures
            final(self).wf(),
            final(self).spec_threshold() == old(self).spec_threshold(),
            final(self).spec_log() == compacted(old(self).spec_log()),
            final(self)@ == old(self)@,
            final(self).spec_uncompacted() == 0,
            total_len(final(self).spec_log()) == live_bytes(old(self).spec_index()),
            live_bytes(old(self).spec_index()) + old(self).spec_uncompacted() <= total_len(
                old(self).spec_log(),
            ),
    {
        proof {
            self.lemma_wf();
            lemma_compacted(self.log@);
        }
        let ghost log = self.log@;
        let ghost state = replay_log(log).unwrap();
        let ghost slots = self.index@;
        let id: u64 = self.log.active() + 1;
        let mut bytes: Vec<u8> = Vec::new();
        let n: usize = self.index.len();
        let mut i: usize = 0;
        proof {
            assert(slots.take(0) =~= Seq::<Slot>::empty());
            assert(relocated(slots, id).take(0) + slots.skip(0) =~= slots);
        }
        while i < n
            invariant
                i <= n,
                n == slots.len(),
                self.log@ == log,
                self.log.wf(),
                self.index.wf(),
                self.threshold == old(self).threshold,
                state == replay_log(log).unwrap(),
                state.slots == slots,
                consistent(log, state, total_len(log)),
                total_len(log) <= u64::MAX,
                bytes@ == crate::compact::live_image(log, slots.take(i as int)),
                bytes@.len() == live_bytes(slots.take(i as int)),
                self.index@ == relocated(slots, id).take(i as int) + slots.skip(i as int),
            decreases n - i,
        {
            let location = self.index.entry(i).location;
            let offset: u64 = bytes.len() as u64;
            proof {
                assert(self.index@[i as int] == slots[i as int]);
                assert(slots.contains(slots[i as int]));
                assert(slots.take(i + 1).drop_last() =~= slots.take(i as int));
                lemma_live_image(log, state, total_len(log), id, i + 1);
            }
            self.log.copy_record(location, &mut bytes);
            self.index.relocate(
                i,
                Location { generation: id, offset, length: location.length },
            );
            proof {
                assert(self.index@ =~= relocated(slots, id).take(i + 1) + slots.skip(i + 1));
            }
            i += 1;
        }
        proof {
            assert(slots.take(n as int) =~= slots);
            assert(relocated(slots, id).take(n as int) + slots.skip(n as int) =~= relocated(
                slots,
                id,
            ));
        }
        self.log.replace(Generation { id, bytes });
        self.uncompacted = 0;
    }
}

} // verus!
