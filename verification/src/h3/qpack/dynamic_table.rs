//! The QPACK dynamic table (RFC 9204).
//!
//! A queue of header field lines that encoder and decoder build up in step.
//! Every line keeps the absolute index that it got when it was inserted; when
//! room is needed, the oldest lines leave first.

use std::collections::VecDeque;

use vstd::prelude::*;

use crate::bytes::{bytes_equal, eq_ignore_ascii_case, same_ignoring_case};
use crate::h3::Http3Error;

verus! {

/// Overhead bytes that every entry counts beside its name and its value.
pub const ENTRY_OVERHEAD: usize = 32;

/// A header field line as mathematics: a name and a value.
#[verifier::ext_equal]
pub struct FieldLine {
    pub name: Seq<u8>,
    pub value: Seq<u8>,
}

impl FieldLine {
    /// The bytes that the line counts in the table.
    pub open spec fn size(self) -> nat {
        self.name.len() + self.value.len() + ENTRY_OVERHEAD as nat
    }
}

/// The bytes that a sequence of lines counts in all.
pub open spec fn total_size(lines: Seq<FieldLine>) -> nat
    decreases lines.len(),
{
    if lines.len() == 0 {
        0
    } else {
        lines[0].size() + total_size(lines.skip(1))
    }
}

/// How many of the oldest lines have to leave before the rest counts at most
/// `room` bytes; all of them, where even the empty sequence is too much.
pub open spec fn evictions(lines: Seq<FieldLine>, room: int) -> nat
    decreases lines.len(),
{
    if lines.len() == 0 || total_size(lines) <= room {
        0
    } else {
        1 + evictions(lines.skip(1), room)
    }
}

/// The state of a dynamic table as mathematics.
#[verifier::ext_equal]
pub struct TableState {
    /// The bytes that the lines may count at most.
    pub capacity: nat,
    /// The lines, oldest first.
    pub lines: Seq<FieldLine>,
    /// How many lines have left the table.
    pub dropped: nat,
}

impl TableState {
    /// A table without lines into which none was ever inserted.
    pub open spec fn empty(capacity: nat) -> TableState {
        TableState { capacity, lines: Seq::empty(), dropped: 0 }
    }

    /// The number of lines ever inserted, which is the absolute index that the
    /// next one gets.
    pub open spec fn insert_count(self) -> nat {
        self.dropped + self.lines.len()
    }

    /// The bytes that the lines count.
    pub open spec fn size(self) -> nat {
        total_size(self.lines)
    }

    /// Whether the table holds a line at an absolute index.
    pub open spec fn holds(self, index: int) -> bool {
        self.dropped <= index < self.insert_count()
    }

    /// The line at an absolute index.
    pub open spec fn at(self, index: int) -> FieldLine
        recommends
            self.holds(index),
    {
        self.lines[index - self.dropped]
    }

    /// The table without its `n` oldest lines.
    pub open spec fn without_oldest(self, n: nat) -> TableState {
        TableState { lines: self.lines.skip(n as int), dropped: self.dropped + n, ..self }
    }

    /// The table after just as many of its oldest lines have left that `needed`
    /// more bytes fit.
    pub open spec fn make_room(self, needed: nat) -> TableState {
        self.without_oldest(evictions(self.lines, self.capacity - needed))
    }

    /// The table after a line that fits was inserted.
    pub open spec fn insert(self, line: FieldLine) -> TableState {
        let roomy = self.make_room(line.size());
        TableState { lines: roomy.lines.push(line), ..roomy }
    }

    /// The table after its capacity was changed.
    pub open spec fn set_capacity(self, capacity: nat) -> TableState {
        TableState { capacity, ..self }.make_room(0)
    }

    /// The table after all its lines have left.
    pub open spec fn clear(self) -> TableState {
        self.without_oldest(self.lines.len())
    }

    /// `found` is the absolute index of the newest line that has the given name,
    /// up to the case of ASCII letters, and exactly the given value; `None` where
    /// no line has.
    pub open spec fn newest_line(self, name: Seq<u8>, value: Seq<u8>, found: Option<u64>) -> bool {
        match found {
            Some(index) => {
                &&& self.holds(index as int)
                &&& line_matches(self.at(index as int), name, value)
                &&& forall|j: int|
                    index < j < self.insert_count() ==> !line_matches(
                        #[trigger] self.at(j),
                        name,
                        value,
                    )
            },
            None => forall|j: int|
                self.holds(j) ==> !line_matches(#[trigger] self.at(j), name, value),
        }
    }

    /// `found` is the absolute index of the newest line that has the given name,
    /// up to the case of ASCII letters; `None` where no line has.
    pub open spec fn newest_name(self, name: Seq<u8>, found: Option<u64>) -> bool {
        match found {
            Some(index) => {
                &&& self.holds(index as int)
                &&& name_matches(self.at(index as int), name)
                &&& forall|j: int|
                    index < j < self.insert_count() ==> !name_matches(#[trigger] self.at(j), name)
            },
            None => forall|j: int| self.holds(j) ==> !name_matches(#[trigger] self.at(j), name),
        }
    }

    /// What every table keeps: its lines fit.
    pub open spec fn valid(self) -> bool {
        self.size() <= self.capacity
    }
}

/// Lines whose name is `name`, up to the case of ASCII letters.
pub open spec fn name_matches(line: FieldLine, name: Seq<u8>) -> bool {
    same_ignoring_case(line.name, name)
}

/// Lines with that name and exactly that value.
pub open spec fn line_matches(line: FieldLine, name: Seq<u8>, value: Seq<u8>) -> bool {
    name_matches(line, name) && line.value == value
}

pub(crate) proof fn lemma_total_size_push(lines: Seq<FieldLine>, line: FieldLine)
    ensures
        total_size(lines.push(line)) == total_size(lines) + line.size(),
    decreases lines.len(),
{
    if lines.len() == 0 {
        assert(lines.push(line).skip(1) =~= Seq::empty());
        reveal_with_fuel(total_size, 2);
    } else {
        assert(lines.push(line).skip(1) =~= lines.skip(1).push(line));
        lemma_total_size_push(lines.skip(1), line);
    }
}

pub(crate) proof fn lemma_evictions_bounds(lines: Seq<FieldLine>, room: int)
    ensures
        evictions(lines, room) <= lines.len(),
        total_size(lines.skip(evictions(lines, room) as int)) <= room || evictions(lines, room)
            == lines.len(),
    decreases lines.len(),
{
    if lines.len() == 0 || total_size(lines) <= room {
        assert(lines.skip(0) =~= lines);
    } else {
        lemma_evictions_bounds(lines.skip(1), room);
        let rest = evictions(lines.skip(1), room);
        assert(lines.skip(1).skip(rest as int) =~= lines.skip(rest as int + 1));
    }
}

pub(crate) proof fn lemma_line_within_total(lines: Seq<FieldLine>, i: int)
    requires
        0 <= i < lines.len(),
    ensures
        lines[i].size() <= total_size(lines),
    decreases lines.len(),
{
    if i > 0 {
        lemma_line_within_total(lines.skip(1), i - 1);
    }
}

/// A single entry in the dynamic table.
#[derive(Clone, Debug, PartialEq, Eq)]
pub struct DynamicTableEntry {
    /// Header field name.
    pub name: Vec<u8>,
    /// Header field value.
    pub value: Vec<u8>,
}

impl View for DynamicTableEntry {
    type V = FieldLine;

    open spec fn view(&self) -> FieldLine {
        FieldLine { name: self.name@, value: self.value@ }
    }
}

impl DynamicTableEntry {
    /// Creates an entry from a name and a value.
    pub fn new(name: Vec<u8>, value: Vec<u8>) -> (entry: Self)
        ensures
            entry.name == name,
            entry.value == value,
            entry@ == (FieldLine { name: name@, value: value@ }),
    {
        DynamicTableEntry { name, value }
    }

    /// The bytes that the entry counts: those of its name and of its value, and
    /// 32 more.
    pub fn size(&self) -> (size: usize)
        requires
            self@.size() <= usize::MAX,
        ensures
            size == self@.size(),
            size == self.name@.len() + self.value@.len() + 32,
    {
        self.name.len() + self.value.len() + ENTRY_OVERHEAD
    }
}

/// The QPACK dynamic table.
///
/// The first entry ever inserted has absolute index 0, and each further one the
/// next index. Entries leave oldest first, when the capacity asks for it.
#[derive(Debug)]
pub struct DynamicTable {
    /// The bytes that the entries may count at most.
    capacity: usize,
    /// The bytes that the entries count.
    size: usize,
    /// The entries, oldest first.
    entries: VecDeque<DynamicTableEntry>,
    /// The number of entries ever inserted.
    insert_count: u64,
    /// The number of entries that have left.
    dropped_count: u64,
}

impl View for DynamicTable {
    type V = TableState;

    closed spec fn view(&self) -> TableState {
        TableState {
            capacity: self.capacity as nat,
            lines: self.entries@.map_values(|e: DynamicTableEntry| e@),
            dropped: self.dropped_count as nat,
        }
    }
}

impl DynamicTable {
    /// The counters agree with the entries.
    spec fn counted(&self) -> bool {
        &&& self.size == self@.size()
        &&& self.insert_count == self@.insert_count()
    }

    /// Well-formedness: the counters agree with the entries, and the entries fit.
    pub closed spec fn wf(&self) -> bool {
        self.counted() && self@.valid()
    }

    /// Law: a table's entries never count more bytes than its capacity, and its
    /// counters stay within their machine types.
    pub proof fn lemma_within_capacity(&self)
        requires
            self.wf(),
        ensures
            self@.size() <= self@.capacity <= usize::MAX,
            self@.insert_count() <= u64::MAX,
            self@.lines.len() <= usize::MAX,
    {
        assert(self.entries.len() == self@.lines.len());
    }

    /// Evicts entries from the front until `needed_size` more bytes fit, or none
    /// is left.
    fn evict_to_fit(&mut self, needed_size: usize)
        requires
            old(self).counted(),
        ensures
            final(self).counted(),
            final(self)@ == old(self)@.make_room(needed_size as nat),
            needed_size <= old(self)@.capacity ==> final(self)@.size() + needed_size
                <= old(self)@.capacity,
    {
        let ghost room = self@.capacity - needed_size;
        let ghost start = self@;
        let ghost mut gone: nat = 0;
        assert(start.without_oldest(0) =~= start);
        while (needed_size > self.capacity || self.size > self.capacity - needed_size)
            && self.entries.len() > 0
            invariant
                self.counted(),
                self@ == start.without_oldest(gone),
                gone <= start.lines.len(),
                room == start.capacity - needed_size,
                evictions(start.lines, room) == gone + evictions(self@.lines, room),
            decreases self.entries.len(),
        {
            let ghost before = self@;
            if let Some(entry) = self.entries.pop_front() {
                proof {
                    assert(before.lines[0] == entry@);
                    assert(self@.lines =~= before.lines.skip(1));
                    assert(before.lines.skip(1) =~= start.lines.skip(gone as int + 1));
                }
                self.size -= entry.size();
                self.dropped_count += 1;
                proof {
                    gone = gone + 1;
                }
            }
        }
    }

    /// Creates an empty table with capacity zero.
    pub fn new() -> (table: Self)
        ensures
            table.wf(),
            table@ == TableState::empty(0),
            table@.capacity == 0 && table@.lines.len() == 0 && table@.dropped == 0,
    {
        DynamicTable::with_capacity(0)
    }

    /// Creates an empty table with the given capacity.
    pub fn with_capacity(capacity: usize) -> (table: Self)
        ensures
            table.wf(),
            table@ == TableState::empty(capacity as nat),
            table@.capacity == capacity && table@.lines.len() == 0 && table@.dropped == 0,
    {
        let table = DynamicTable {
            capacity,
            size: 0,
            entries: VecDeque::new(),
            insert_count: 0,
            dropped_count: 0,
        };
        assert(table@ =~= TableState::empty(capacity as nat));
        table
    }

    /// Sets the capacity, and evicts the oldest entries until the rest fits.
    pub fn set_capacity(&mut self, capacity: usize)
        requires
            old(self).wf(),
        ensures
            final(self).wf(),
            final(self)@ == old(self)@.set_capacity(capacity as nat),
    {
        self.capacity = capacity;
        assert(self@ =~= (TableState { capacity: capacity as nat, ..old(self)@ }));
        self.evict_to_fit(0);
    }

    /// The capacity in bytes.
    pub fn capacity(&self) -> (capacity: usize)
        ensures
            capacity == self@.capacity,
    {
        self.capacity
    }

    /// The bytes that the entries count.
    pub fn size(&self) -> (size: usize)
        requires
            self.wf(),
        ensures
            size == self@.size(),
    {
        self.size
    }

    /// The number of entries in the table.
    pub fn len(&self) -> (len: usize)
        ensures
            len == self@.lines.len(),
    {
        self.entries.len()
    }

    /// Whether the table has no entry.
    pub fn is_empty(&self) -> (empty: bool)
        ensures
            empty == (self@.lines.len() == 0),
    {
        self.entries.len() == 0
    }

    /// The number of entries ever inserted.
    pub fn insert_count(&self) -> (count: u64)
        requires
            self.wf(),
        ensures
            count == self@.insert_count(),
    {
        self.insert_count
    }

    /// Inserts an entry at the new end of the table, and returns its absolute
    /// index.
    ///
    /// The oldest entries are evicted until there is room. An entry that counts
    /// more than the whole capacity is refused, and the table stays as it was.
    pub fn insert(&mut self, name: Vec<u8>, value: Vec<u8>) -> (r: Result<u64, Http3Error>)
        requires
            old(self).wf(),
            name@.len() + value@.len() + 32 <= usize::MAX,
            name@.len() + value@.len() + 32 <= old(self)@.capacity ==> old(self)@.insert_count()
                < u64::MAX,
        ensures
            final(self).wf(),
            ({
                let line = FieldLine { name: name@, value: value@ };
                if line.size() <= old(self)@.capacity {
                    &&& r == Ok::<u64, Http3Error>(old(self)@.insert_count() as u64)
                    &&& final(self)@ == old(self)@.insert(line)
                    &&& final(self)@.insert_count() == old(self)@.insert_count() + 1
                    &&& final(self)@.holds(old(self)@.insert_count() as int)
                    &&& final(self)@.at(old(self)@.insert_count() as int) == line
                    &&& final(self)@.capacity == old(self)@.capacity
                    &&& final(self)@.lines == old(self)@.lines.skip(
                        final(self)@.dropped - old(self)@.dropped,
                    ).push(line)
                    &&& old(self)@.size() + name@.len() + value@.len() + 32 <= old(self)@.capacity
                        ==> final(self)@.lines == old(self)@.lines.push(line)
                } else {
                    &&& r == Err::<u64, Http3Error>(Http3Error::QpackEncoderStreamError)
                    &&& final(self)@ == old(self)@
                }
            }),
    {
        let entry = DynamicTableEntry::new(name, value);
        let entry_size: usize = entry.size();

        if entry_size > self.capacity {
            return Err(Http3Error::QpackEncoderStreamError);
        }
        self.evict_to_fit(entry_size);
        let ghost roomy = self@;

        self.entries.push_back(entry);
        self.size += entry_size;
        let absolute_index: u64 = self.insert_count;
        proof {
            lemma_evictions_bounds(old(self)@.lines, old(self)@.capacity - entry_size);
            assert(self@.lines =~= roomy.lines.push(entry@));
            lemma_total_size_push(roomy.lines, entry@);
        }
        self.insert_count += 1;
        Ok(absolute_index)
    }

    /// Inserts an entry whose name the encoder took from another table entry.
    pub fn insert_with_name_ref(&mut self, name: Vec<u8>, value: Vec<u8>) -> (r: Result<
        u64,
        Http3Error,
    >)
        requires
            old(self).wf(),
            name@.len() + value@.len() + 32 <= usize::MAX,
            name@.len() + value@.len() + 32 <= old(self)@.capacity ==> old(self)@.insert_count()
                < u64::MAX,
        ensures
            final(self).wf(),
            ({
                let line = FieldLine { name: name@, value: value@ };
                if line.size() <= old(self)@.capacity {
                    &&& r == Ok::<u64, Http3Error>(old(self)@.insert_count() as u64)
                    &&& final(self)@ == old(self)@.insert(line)
                    &&& final(self)@.insert_count() == old(self)@.insert_count() + 1
                    &&& final(self)@.holds(old(self)@.insert_count() as int)
                    &&& final(self)@.at(old(self)@.insert_count() as int) == line
                    &&& final(self)@.capacity == old(self)@.capacity
                    &&& final(self)@.lines == old(self)@.lines.skip(
                        final(self)@.dropped - old(self)@.dropped,
                    ).push(line)
                    &&& old(self)@.size() + name@.len() + value@.len() + 32 <= old(self)@.capacity
                        ==> final(self)@.lines == old(self)@.lines.push(line)
                } else {
                    &&& r == Err::<u64, Http3Error>(Http3Error::QpackEncoderStreamError)
                    &&& final(self)@ == old(self)@
                }
            }),
    {
        self.insert(name, value)
    }

    /// Inserts a copy of the entry at an absolute index, and returns the copy's
    /// index. Fails where the table does not hold that entry.
    pub fn duplicate(&mut self, absolute_index: u64) -> (r: Result<u64, Http3Error>)
        requires
            old(self).wf(),
            old(self)@.holds(absolute_index as int) ==> old(self)@.insert_count() < u64::MAX,
        ensures
            final(self).wf(),
            if old(self)@.holds(absolute_index as int) {
                &&& final(self)@.capacity == old(self)@.capacity
                &&& final(self)@.lines == old(self)@.lines.skip(
                    final(self)@.dropped - old(self)@.dropped,
                ).push(old(self)@.at(absolute_index as int))
                &&& r == Ok::<u64, Http3Error>(old(self)@.insert_count() as u64)
                &&& final(self)@ == old(self)@.insert(old(self)@.at(absolute_index as int))
                &&& final(self)@.insert_count() == old(self)@.insert_count() + 1
                &&& final(self)@.holds(old(self)@.insert_count() as int)
                &&& final(self)@.at(old(self)@.insert_count() as int) == old(self)@.at(
                    absolute_index as int,
                )
            } else {
                &&& r == Err::<u64, Http3Error>(Http3Error::QpackDecompressionFailed)
                &&& final(self)@ == old(self)@
            },
    {
        let (name, value) = match self.get(absolute_index) {
            Ok(entry) => {
                let name = entry.name.clone();
                let value = entry.value.clone();
                assert(name@ =~= entry.name@);
                assert(value@ =~= entry.value@);
                (name, value)
            },
            Err(e) => {
                return Err(e);
            },
        };
        proof {
            lemma_line_within_total(self@.lines, absolute_index - self@.dropped);
        }
        self.insert(name, value)
    }

    /// The entry at an absolute index. Fails where that index was not given out
    /// yet, or its entry has left.
    pub fn get(&self, absolute_index: u64) -> (r: Result<&DynamicTableEntry, Http3Error>)
        requires
            self.wf(),
        ensures
            match r {
                Ok(entry) => {
                    &&& self@.holds(absolute_index as int)
                    &&& entry@ == self@.at(absolute_index as int)
                    &&& entry.name@ == self@.at(absolute_index as int).name
                    &&& entry.value@ == self@.at(absolute_index as int).value
                },
                Err(e) => {
                    &&& !self@.holds(absolute_index as int)
                    &&& e == Http3Error::QpackDecompressionFailed
                },
            },
    {
        if absolute_index >= self.insert_count {
            return Err(Http3Error::QpackDecompressionFailed);
        }
        if absolute_index < self.dropped_count {
            return Err(Http3Error::QpackDecompressionFailed);
        }
        assert(absolute_index - self.dropped_count < self.entries.len());
        let position: usize = (absolute_index - self.dropped_count) as usize;
        Ok(&self.entries[position])
    }

    /// Converts a relative index, counted backwards from the entry before `base`,
    /// to an absolute index. Fails where the table does not hold that entry.
    pub fn relative_to_absolute(&self, relative_index: u64, base: u64) -> (r: Result<
        u64,
        Http3Error,
    >)
        requires
            self.wf(),
        ensures
            r == (if relative_index < base && self@.holds(base - 1 - relative_index) {
                Ok::<u64, Http3Error>((base - 1 - relative_index) as u64)
            } else {
                Err::<u64, Http3Error>(Http3Error::QpackDecompressionFailed)
            }),
    {
        if relative_index >= base {
            return Err(Http3Error::QpackDecompressionFailed);
        }
        let absolute_index: u64 = base - 1 - relative_index;
        if absolute_index < self.dropped_count || absolute_index >= self.insert_count {
            return Err(Http3Error::QpackDecompressionFailed);
        }
        Ok(absolute_index)
    }

    /// Converts a post-base index, counted forwards from `base`, to an absolute
    /// index. Fails where the table does not hold that entry.
    pub fn post_base_to_absolute(&self, post_base_index: u64, base: u64) -> (r: Result<
        u64,
        Http3Error,
    >)
        requires
            self.wf(),
            base + post_base_index <= u64::MAX,
        ensures
            r == (if self@.holds(base + post_base_index) {
                Ok::<u64, Http3Error>((base + post_base_index) as u64)
            } else {
                Err::<u64, Http3Error>(Http3Error::QpackDecompressionFailed)
            }),
    {
        let absolute_index: u64 = base + post_base_index;
        if absolute_index < self.dropped_count || absolute_index >= self.insert_count {
            return Err(Http3Error::QpackDecompressionFailed);
        }
        Ok(absolute_index)
    }

    /// The absolute index of the newest entry with the given name, up to the case
    /// of ASCII letters, and exactly the given value.
    pub fn find(&self, name: &[u8], value: &[u8]) -> (r: Option<u64>)
        requires
            self.wf(),
        ensures
            self@.newest_line(name@, value@, r),
            r is Some ==> self@.at(r->0 as int).value == value@ && same_ignoring_case(
                self@.at(r->0 as int).name,
                name@,
            ),
    {
        let mut i: usize = self.entries.len();
        while i > 0
            invariant
                self.wf(),
                i <= self.entries.len(),
                forall|j: int|
                    self@.dropped + i <= j < self@.insert_count() ==> !line_matches(
                        #[trigger] self@.at(j),
                        name@,
                        value@,
                    ),
            decreases i,
        {
            i -= 1;
            let entry = &self.entries[i];
            assert(self@.at(self@.dropped + i) == entry@);
            if eq_ignore_ascii_case(entry.name.as_slice(), name) && bytes_equal(
                entry.value.as_slice(),
                value,
            ) {
                return Some(self.dropped_count + i as u64);
            }
        }
        None
    }

    /// The absolute index of the newest entry with the given name, up to the case
    /// of ASCII letters.
    pub fn find_name(&self, name: &[u8]) -> (r: Option<u64>)
        requires
            self.wf(),
        ensures
            self@.newest_name(name@, r),
            r is Some ==> same_ignoring_case(self@.at(r->0 as int).name, name@),
    {
        let mut i: usize = self.entries.len();
        while i > 0
            invariant
                self.wf(),
                i <= self.entries.len(),
                forall|j: int|
                    self@.dropped + i <= j < self@.insert_count() ==> !name_matches(
                        #[trigger] self@.at(j),
                        name@,
                    ),
            decreases i,
        {
            i -= 1;
            let entry = &self.entries[i];
            assert(self@.at(self@.dropped + i) == entry@);
            if eq_ignore_ascii_case(entry.name.as_slice(), name) {
                return Some(self.dropped_count + i as u64);
            }
        }
        None
    }

    /// Drops all entries. Their absolute indices are not given out again.
    pub fn clear(&mut self)
        requires
            old(self).wf(),
        ensures
            final(self).wf(),
            final(self)@ == old(self)@.clear(),
    {
        assert(self.entries.len() == self@.lines.len());
        self.dropped_count += self.entries.len() as u64;
        self.entries.clear();
        self.size = 0;
        assert(self@ =~= old(self)@.clear());
    }
}

impl Default for DynamicTable {
    /// An empty table with capacity zero.
    fn default() -> (table: Self)
        ensures
            table.wf(),
            table@ == TableState::empty(0),
            table@.capacity == 0 && table@.lines.len() == 0 && table@.dropped == 0,
    {
        DynamicTable::new()
    }
}

} // verus!
