//! The command log: generations of records, appended to and read back.
//!
//! A generation is the image of one log file. Generations are numbered in
//! the order in which they were made, and only the last one, the active
//! generation, is ever appended to.

use vstd::prelude::*;
use vstd::string::*;
use crate::error::KvsError;
use crate::index::Location;
use crate::record::{decode_at, encodable, encoding, lemma_decode_bounds, lemma_decode_local,
    Command, CommandView};

verus! {

/// The number of the generation that an empty log starts with.
pub const FIRST_GENERATION: u64 = 0;

/// One generation of the log: its number and the bytes of its records.
#[derive(Debug, Clone, PartialEq, Eq)]
pub struct Generation {
    pub id: u64,
    pub bytes: Vec<u8>,
}

/// A generation as a mathematical value.
pub struct GenerationView {
    pub id: u64,
    pub bytes: Seq<u8>,
}

impl View for Generation {
    type V = GenerationView;

    open spec fn view(&self) -> GenerationView {
        GenerationView { id: self.id, bytes: self.bytes@ }
    }
}

/// The views of a sequence of generations.
pub open spec fn views_of(generations: Seq<Generation>) -> Seq<GenerationView> {
    generations.map_values(|g: Generation| g@)
}

/// A record of the log: the command and where it stands.
pub struct Record {
    pub command: CommandView,
    pub location: Location,
}

/// The records of a generation from offset `at` on, in file order, or `None`
/// where the bytes from there on are not a sequence of records.
pub open spec fn records_from(bytes: Seq<u8>, generation: u64, at: int) -> Option<Seq<Record>>
    decreases bytes.len() - at,
{
    if at >= bytes.len() {
        Some(Seq::empty())
    } else {
        match decode_at(bytes, at) {
            None => None,
            Some((command, length)) => {
                if length <= 0 {
                    None
                } else {
                    match records_from(bytes, generation, at + length) {
                        None => None,
                        Some(rest) => Some(
                            seq![
                                Record {
                                    command,
                                    location: Location {
                                        generation,
                                        offset: at as u64,
                                        length: length as u64,
                                    },
                                },
                            ] + rest,
                        ),
                    }
                }
            },
        }
    }
}

/// The records of all generations, oldest generation first.
pub open spec fn log_records(generations: Seq<GenerationView>) -> Option<Seq<Record>>
    decreases generations.len(),
{
    if generations.len() == 0 {
        Some(Seq::empty())
    } else {
        match (
            log_records(generations.drop_last()),
            records_from(generations.last().bytes, generations.last().id, 0),
        ) {
            (Some(older), Some(newest)) => Some(older + newest),
            _ => None,
        }
    }
}

/// The number of bytes in all generations.
pub open spec fn total_len(generations: Seq<GenerationView>) -> nat
    decreases generations.len(),
{
    if generations.len() == 0 {
        0
    } else {
        total_len(generations.drop_last()) + generations.last().bytes.len()
    }
}

/// Whether the numbers of the generations strictly increase.
pub open spec fn ascending(generations: Seq<GenerationView>) -> bool {
    forall|i: int, j: int|
        0 <= i < j < generations.len() ==> (#[trigger] generations[i]).id < (
        #[trigger] generations[j]).id
}

/// Whether there is a generation with this number.
pub open spec fn has_generation(generations: Seq<GenerationView>, id: u64) -> bool {
    exists|i: int| 0 <= i < generations.len() && (#[trigger] generations[i]).id == id
}

/// The position of a generation with this number, where there is one.
pub open spec fn generation_position(generations: Seq<GenerationView>, id: u64) -> int {
    choose|i: int| 0 <= i < generations.len() && (#[trigger] generations[i]).id == id
}

/// The command of the record that stands exactly at `location`, or `None`
/// where no record stands there.
pub open spec fn record_at(generations: Seq<GenerationView>, location: Location) -> Option<
    CommandView,
> {
    if has_generation(generations, location.generation) {
        let bytes = generations[generation_position(generations, location.generation)].bytes;
        match decode_at(bytes, location.offset as int) {
            Some((command, length)) => if length == location.length {
                Some(command)
            } else {
                None
            },
            None => None,
        }
    } else {
        None
    }
}

/// The generations after `record` was appended to the last of them.
pub open spec fn appended(generations: Seq<GenerationView>, record: Seq<u8>) -> Seq<
    GenerationView,
> {
    generations.update(
        generations.len() - 1,
        GenerationView { id: generations.last().id, bytes: generations.last().bytes + record },
    )
}

/// The bytes that `location` spans in its generation.
pub open spec fn bytes_at(generations: Seq<GenerationView>, location: Location) -> Seq<u8> {
    generations[generation_position(generations, location.generation)].bytes.subrange(
        location.offset as int,
        location.offset + location.length,
    )
}

/// The generations that a log starts with when it is given `generations`:
/// those, or an empty first generation where there are none.
pub open spec fn started(generations: Seq<GenerationView>) -> Seq<GenerationView> {
    if generations.len() == 0 {
        seq![GenerationView { id: FIRST_GENERATION, bytes: Seq::empty() }]
    } else {
        generations
    }
}

/// With ascending numbers, the generation of a number is the only one.
pub proof fn lemma_generation_unique(generations: Seq<GenerationView>, i: int)
    requires
        ascending(generations),
        0 <= i < generations.len(),
    ensures
        has_generation(generations, generations[i].id),
        generation_position(generations, generations[i].id) == i,
{
    let p = generation_position(generations, generations[i].id);
    if p < i {
        assert(generations[p].id < generations[i].id);
    } else if i < p {
        assert(generations[i].id < generations[p].id);
    }
}

/// Numbers that increase from each generation to the next increase
/// throughout.
pub proof fn lemma_adjacent_ascending(generations: Seq<GenerationView>, a: int, b: int)
    requires
        forall|i: int|
            0 <= i && i + 1 < generations.len() ==> (#[trigger] generations[i]).id < generations[i
                + 1].id,
        0 <= a < b < generations.len(),
    ensures
        generations[a].id < generations[b].id,
    decreases b - a,
{
    if a + 1 < b {
        lemma_adjacent_ascending(generations, a, b - 1);
    }
}

/// No generation is longer than the whole log.
pub proof fn lemma_total_len_bounds(generations: Seq<GenerationView>, i: int)
    requires
        0 <= i < generations.len(),
    ensures
        total_len(generations.take(i)) + generations[i].bytes.len() == total_len(
            generations.take(i + 1),
        ),
        total_len(generations.take(i + 1)) <= total_len(generations),
    decreases generations.len(),
{
    assert(generations.take(i + 1).drop_last() =~= generations.take(i));
    if i + 1 == generations.len() {
        assert(generations.take(i + 1) =~= generations);
    } else {
        lemma_total_len_bounds(generations.drop_last(), i);
        assert(generations.drop_last().take(i + 1) =~= generations.take(i + 1));
        assert(generations.drop_last().take(i) =~= generations.take(i));
    }
}

/// Appending a record to a generation adds that record to its records.
pub proof fn lemma_records_append(
    bytes: Seq<u8>,
    generation: u64,
    at: int,
    record: Seq<u8>,
    command: CommandView,
)
    requires
        0 <= at <= bytes.len(),
        records_from(bytes, generation, at) is Some,
        decode_at(record, 0) == Some((command, record.len() as int)),
    ensures
        records_from(bytes + record, generation, at) == Some(
            records_from(bytes, generation, at).unwrap().push(
                Record {
                    command,
                    location: Location {
                        generation,
                        offset: bytes.len() as u64,
                        length: record.len() as u64,
                    },
                },
            ),
        ),
    decreases bytes.len() - at,
{
    let longer = bytes + record;
    let added = Record {
        command,
        location: Location {
            generation,
            offset: bytes.len() as u64,
            length: record.len() as u64,
        },
    };
    if at == bytes.len() {
        lemma_decode_bounds(record, 0);
        assert(record.subrange(0, record.len() as int) =~= longer.subrange(
            at,
            at + record.len(),
        ));
        lemma_decode_local(record, 0, longer, at);
        assert(records_from(longer, generation, at + record.len()) == Some(
            Seq::<Record>::empty(),
        ));
        assert(seq![added] + Seq::<Record>::empty() =~= Seq::<Record>::empty().push(added));
    } else {
        let (first, length) = decode_at(bytes, at).unwrap();
        lemma_decode_bounds(bytes, at);
        assert(bytes.subrange(at, at + length) =~= longer.subrange(at, at + length));
        lemma_decode_local(bytes, at, longer, at);
        lemma_records_append(bytes, generation, at + length, record, command);
        let head = Record {
            command: first,
            location: Location { generation, offset: at as u64, length: length as u64 },
        };
        let rest = records_from(bytes, generation, at + length).unwrap();
        assert(seq![head] + rest.push(added) =~= (seq![head] + rest).push(added));
    }
}

/// Appending a record to the active generation adds that record to the
/// records of the log.
pub proof fn lemma_log_append(
    generations: Seq<GenerationView>,
    record: Seq<u8>,
    command: CommandView,
)
    requires
        generations.len() > 0,
        log_records(generations) is Some,
        decode_at(record, 0) == Some((command, record.len() as int)),
    ensures
        log_records(appended(generations, record)) == Some(
            log_records(generations).unwrap().push(
                Record {
                    command,
                    location: Location {
                        generation: generations.last().id,
                        offset: generations.last().bytes.len() as u64,
                        length: record.len() as u64,
                    },
                },
            ),
        ),
{
    let after = appended(generations, record);
    let last = generations.last();
    assert(after.drop_last() =~= generations.drop_last());
    lemma_records_append(last.bytes, last.id, 0, record, command);
    let older = log_records(generations.drop_last()).unwrap();
    let newest = records_from(last.bytes, last.id, 0).unwrap();
    let added = Record {
        command,
        location: Location {
            generation: last.id,
            offset: last.bytes.len() as u64,
            length: record.len() as u64,
        },
    };
    assert(older + newest.push(added) =~= (older + newest).push(added));
}

/// Appending bytes to the active generation adds them to the total.
pub proof fn lemma_total_len_appended(generations: Seq<GenerationView>, record: Seq<u8>)
    requires
        generations.len() > 0,
    ensures
        total_len(appended(generations, record)) == total_len(generations) + record.len(),
{
    assert(appended(generations, record).drop_last() =~= generations.drop_last());
}

/// The log of the store.
#[derive(Debug, Clone)]
pub struct Log {
    generations: Vec<Generation>,
    total: u64,
}

impl View for Log {
    type V = Seq<GenerationView>;

    closed spec fn view(&self) -> Seq<GenerationView> {
        Seq::new(self.generations@.len(), |i: int| self.generations@[i]@)
    }
}

impl Log {
    /// Whether the log is well formed: it has a generation, the numbers of
    /// its generations strictly increase, and the count of its bytes is kept.
    pub closed spec fn wf(&self) -> bool {
        &&& self@.len() > 0
        &&& ascending(self@)
        &&& self.total == total_len(self@)
    }

    /// What well-formedness says of the views.
    pub proof fn lemma_wf(&self)
        requires
            self.wf(),
        ensures
            self@.len() > 0,
            ascending(self@),
            total_len(self@) <= u64::MAX,
    {
    }

    /// The log that holds the given generations; a log without generations
    /// gets an empty first one. The numbers of the generations must strictly
    /// increase and their bytes be countable in 64 bits:
    /// otherwise the result is a `Generic` error.
    pub fn new(generations: Vec<Generation>) -> (r: Result<Log, KvsError>)
        ensures
            match r {
                Ok(log) => {
                    &&& log.wf()
                    &&& ascending(views_of(generations@))
                    &&& total_len(views_of(generations@)) <= u64::MAX
                    &&& log@ == started(views_of(generations@))
                },
                Err(e) => {
                    let views = views_of(generations@);
                    if !ascending(views) {
                        e.is_generic("generations out of order"@)
                    } else {
                        total_len(views) > u64::MAX && e.is_generic("log too large"@)
                    }
                },
            },
    {
        let ghost views = views_of(generations@);
        let mut i: usize = 1;
        while i < generations.len()
            invariant
                1 <= i,
                views == views_of(generations@),
                forall|a: int| 0 <= a < i - 1 && a + 1 < views.len() ==> (#[trigger] views[a]).id
                    < views[a + 1].id,
            decreases generations.len() - i,
        {
            if generations[i - 1].id >= generations[i].id {
                assert(views[i - 1].id >= views[i as int].id);
                return Err(KvsError::Generic("generations out of order".to_owned()));
            }
            i += 1;
        }
        assert(ascending(views)) by {
            assert forall|a: int, b: int| 0 <= a < b < views.len() implies (#[trigger] views[a]).id
                < (#[trigger] views[b]).id by {
                lemma_adjacent_ascending(views, a, b);
            }
        }
        let mut total: u64 = 0;
        let mut i: usize = 0;
        while i < generations.len()
            invariant
                i <= generations.len(),
                views == views_of(generations@),
                ascending(views),
                total == total_len(views.take(i as int)),
            decreases generations.len() - i,
        {
            proof {
                lemma_total_len_bounds(views, i as int);
            }
            let len: u64 = generations[i].bytes.len() as u64;
            if len > u64::MAX - total {
                return Err(KvsError::Generic("log too large".to_owned()));
            }
            total = total + len;
            i += 1;
        }
        assert(views.take(i as int) =~= views);
        let mut generations = generations;
        if generations.len() == 0 {
            generations.push(Generation { id: FIRST_GENERATION, bytes: Vec::new() });
        }
        let log = Log { generations, total };
        assert(log@ =~= started(views));
        assert(total_len(log@) == total) by {
            if views.len() == 0 {
                assert(log@.drop_last() =~= Seq::<GenerationView>::empty());
                assert(total_len(Seq::<GenerationView>::empty()) == 0);
            }
        }
        Ok(log)
    }

    /// The generations, oldest first.
    pub fn generations(&self) -> (generations: &Vec<Generation>)
        ensures
            views_of(generations@) == self@,
    {
        assert(views_of(self.generations@) =~= self@);
        &self.generations
    }

    /// The number of the active generation.
    pub fn active(&self) -> (id: u64)
        requires
            self.wf(),
        ensures
            id == self@.last().id,
    {
        self.generations[self.generations.len() - 1].id
    }

    /// The number of bytes in all generations.
    pub fn total_bytes(&self) -> (total: u64)
        requires
            self.wf(),
        ensures
            total == total_len(self@),
    {
        self.total
    }

    /// Appends the record of `command` to the active generation and returns
    /// where it stands. A command that cannot be encoded gives
    /// `Serialization`, and one that would take the log beyond what 64 bits
    /// count gives a `Generic` error; the log is then as it was.
    pub fn append(&mut self, command: &Command) -> (r: Result<Location, KvsError>)
        requires
            old(self).wf(),
        ensures
            final(self).wf(),
            !encodable(command@) ==> r == Err::<Location, KvsError>(KvsError::Serialization),
            encodable(command@) && total_len(old(self)@) + encoding(command@).len() > u64::MAX
                ==> (r matches Err(e) && e.is_generic("log too large"@)),
            encodable(command@) && total_len(old(self)@) + encoding(command@).len() <= u64::MAX
                ==> r == Ok::<Location, KvsError>(
                Location {
                    generation: old(self)@.last().id,
                    offset: old(self)@.last().bytes.len() as u64,
                    length: encoding(command@).len() as u64,
                },
            ),
            r is Ok ==> final(self)@ == appended(old(self)@, encoding(command@)),
            r is Err ==> *final(self) == *old(self),
    {
        let mut record = match command.encode() {
            Ok(record) => record,
            Err(e) => {
                return Err(e);
            },
        };
        let length: u64 = record.len() as u64;
        if length > u64::MAX - self.total {
            return Err(KvsError::Generic("log too large".to_owned()));
        }
        let mut active = self.generations.pop().unwrap();
        let generation: u64 = active.id;
        let offset: u64 = active.bytes.len() as u64;
        active.bytes.append(&mut record);
        self.generations.push(active);
        self.total = self.total + length;
        proof {
            assert(self@ =~= appended(old(self)@, encoding(command@)));
            lemma_total_len_appended(old(self)@, encoding(command@));
            assert forall|i: int, j: int| 0 <= i < j < self@.len() implies (#[trigger] self@[i]).id
                < (#[trigger] self@[j]).id by {
                assert(old(self)@[i].id < old(self)@[j].id);
            }
        }
        Ok(Location { generation, offset, length })
    }

    /// Reads the record that stands at `location`, or gives `CorruptRecord`
    /// where none stands exactly there.
    pub fn read_at(&self, location: Location) -> (r: Result<Command, KvsError>)
        requires
            self.wf(),
        ensures
            match record_at(self@, location) {
                Some(command) => r matches Ok(read) && read@ == command,
                None => r == Err::<Command, KvsError>(KvsError::CorruptRecord),
            },
    {
        let mut i: usize = 0;
        while i < self.generations.len()
            invariant
                i <= self.generations.len(),
                self.wf(),
                forall|j: int| 0 <= j < i ==> (#[trigger] self@[j]).id != location.generation,
            decreases self.generations.len() - i,
        {
            if self.generations[i].id == location.generation {
                proof {
                    lemma_generation_unique(self@, i as int);
                }
                let bytes = &self.generations[i].bytes;
                if location.offset > bytes.len() as u64 {
                    return Err(KvsError::CorruptRecord);
                }
                return match Command::decode(bytes.as_slice(), location.offset as usize) {
                    Some((command, length)) => {
                        if length as u64 == location.length {
                            Ok(command)
                        } else {
                            Err(KvsError::CorruptRecord)
                        }
                    },
                    None => Err(KvsError::CorruptRecord),
                };
            }
            i += 1;
        }
        Err(KvsError::CorruptRecord)
    }

    /// Appends to `out` the bytes of the record that stands at `location`.
    pub fn copy_record(&self, location: Location, out: &mut Vec<u8>)
        requires
            self.wf(),
            record_at(self@, location) is Some,
        ensures
            final(out)@ == old(out)@ + bytes_at(self@, location),
    {
        let mut i: usize = 0;
        while i < self.generations.len()
            invariant
                i <= self.generations.len(),
                self.wf(),
                record_at(self@, location) is Some,
                out@ == old(out)@,
                forall|j: int| 0 <= j < i ==> (#[trigger] self@[j]).id != location.generation,
            decreases self.generations.len() - i,
        {
            if self.generations[i].id == location.generation {
                proof {
                    lemma_generation_unique(self@, i as int);
                    lemma_decode_bounds(self@[i as int].bytes, location.offset as int);
                    assert(self@[i as int].bytes == self.generations[i as int].bytes@);
                    assert(location.offset + location.length <= self.generations[i as int].bytes@.len());
                }
                let whole = self.generations[i].bytes.as_slice();
                assert(location.offset + location.length <= whole.len());
                let start: usize = location.offset as usize;
                let end: usize = start + location.length as usize;
                let bytes = vstd::slice::slice_subrange(whole, start, end);
                out.extend_from_slice(bytes);
                return ;
            }
            i += 1;
        }
        assert(false);
    }

    /// Puts `generation` in the place of all generations.
    pub fn replace(&mut self, generation: Generation)
        ensures
            final(self)@ == seq![generation@],
            final(self).wf(),
    {
        self.total = generation.bytes.len() as u64;
        self.generations = vec![generation];
        proof {
            assert(self@ =~= seq![generation@]);
            assert(self@.drop_last() =~= Seq::<GenerationView>::empty());
            assert(total_len(Seq::<GenerationView>::empty()) == 0);
        }
    }
}

} // verus!
