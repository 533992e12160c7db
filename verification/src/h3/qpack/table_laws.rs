//! What holds of a dynamic table across its operations.

use vstd::prelude::*;

use crate::bytes::same_ignoring_case;
use crate::h3::qpack::dynamic_table::{
    evictions, lemma_evictions_bounds, lemma_line_within_total, lemma_total_size_push, line_matches, name_matches,
    total_size, FieldLine, TableState,
};

verus! {

/// `after` is a later state of the table `before`: no absolute index changes its
/// meaning or comes back, and none that was given out is given out again.
pub open spec fn succeeds(before: TableState, after: TableState) -> bool {
    &&& before.dropped <= after.dropped
    &&& before.insert_count() <= after.insert_count()
    &&& forall|i: int| #[trigger]
        after.holds(i) && i < before.insert_count() ==> before.holds(i) && after.at(i)
            == before.at(i)
}

/// Law: later states of later states are later states.
pub proof fn law_succeeds_transitive(a: TableState, b: TableState, c: TableState)
    requires
        succeeds(a, b),
        succeeds(b, c),
    ensures
        succeeds(a, c),
{
    assert forall|i: int| #[trigger] c.holds(i) && i < a.insert_count() implies a.holds(i)
        && c.at(i) == a.at(i) by {
        assert(b.holds(i));
    }
}

/// Law: inserting keeps the table within its capacity, gives the line the next
/// absolute index, and a read at that index gives the line back. All other
/// indices keep their meaning.
pub proof fn law_insert(table: TableState, line: FieldLine)
    requires
        table.valid(),
        line.size() <= table.capacity,
    ensures
        table.insert(line).valid(),
        table.insert(line).capacity == table.capacity,
        table.insert(line).insert_count() == table.insert_count() + 1,
        table.insert(line).holds(table.insert_count() as int),
        table.insert(line).at(table.insert_count() as int) == line,
        succeeds(table, table.insert(line)),
{
    lemma_evictions_bounds(table.lines, table.capacity - line.size());
    lemma_total_size_push(table.make_room(line.size()).lines, line);
}

/// Law: changing the capacity leaves a table within the new one, adds nothing,
/// and keeps the meaning of all indices.
pub proof fn law_set_capacity(table: TableState, capacity: nat)
    ensures
        table.set_capacity(capacity).valid(),
        table.set_capacity(capacity).capacity == capacity,
        table.set_capacity(capacity).insert_count() == table.insert_count(),
        succeeds(table, table.set_capacity(capacity)),
{
    lemma_evictions_bounds(table.lines, capacity as int);
}

/// Law: a cleared table holds nothing and counts no bytes, but its insert count
/// stays, so that no index is given out twice.
pub proof fn law_clear(table: TableState)
    ensures
        table.clear().valid(),
        table.clear().capacity == table.capacity,
        table.clear().size() == 0,
        table.clear().insert_count() == table.insert_count(),
        forall|i: int| !table.clear().holds(i),
        succeeds(table, table.clear()),
{
}

/// Law: eviction takes no more than it must. The lines that stay leave the
/// needed room (or none stays), and with any smaller number gone they would not.
pub proof fn law_eviction_is_least(table: TableState, needed: nat)
    ensures
        table.make_room(needed).size() + needed <= table.capacity || table.make_room(
            needed,
        ).lines.len() == 0,
        forall|n: nat|
            table.dropped + n < table.make_room(needed).dropped ==> #[trigger] table.without_oldest(
                n,
            ).size() + needed > table.capacity,
{
    lemma_evictions_bounds(table.lines, table.capacity - needed);
    assert forall|n: nat|
        table.dropped + n < table.make_room(needed).dropped implies #[trigger] table.without_oldest(
        n,
    ).size() + needed > table.capacity by {
        lemma_fewer_do_not_fit(table.lines, table.capacity - needed, n);
    }
}

proof fn lemma_fewer_do_not_fit(lines: Seq<FieldLine>, room: int, n: nat)
    requires
        n < evictions(lines, room),
    ensures
        total_size(lines.skip(n as int)) > room,
    decreases n,
{
    if n == 0 {
        assert(lines.skip(0) =~= lines);
    } else {
        lemma_fewer_do_not_fit(lines.skip(1), room, (n - 1) as nat);
        lemma_evictions_bounds(lines, room);
        assert(lines.skip(1).skip(n - 1) =~= lines.skip(n as int));
    }
}

/// Law: where there is room already, nothing is evicted.
pub proof fn law_no_needless_eviction(table: TableState, needed: nat)
    requires
        table.size() + needed <= table.capacity,
    ensures
        table.make_room(needed) == table,
{
    assert(table.make_room(needed) =~= table);
}

/// Law: duplicating a line that the table holds always succeeds, and the copy
/// reads like the line it was made of. Where that line is still held, both read
/// alike.
pub proof fn law_duplicate(table: TableState, index: int)
    requires
        table.valid(),
        table.holds(index),
    ensures
        table.at(index).size() <= table.capacity,
        ({
            let after = table.insert(table.at(index));
            &&& after.at(table.insert_count() as int) == table.at(index)
            &&& after.holds(index) ==> after.at(index) == after.at(table.insert_count() as int)
        }),
{
    lemma_line_within_total(table.lines, index - table.dropped);
    law_insert(table, table.at(index));
}

/// Law: with the insert count as base, relative index 0 is the newest line, and
/// each step up is one line older.
pub proof fn law_relative_from_newest(table: TableState, relative_index: nat)
    requires
        relative_index < table.lines.len(),
    ensures
        table.holds(table.insert_count() - 1 - relative_index),
        table.at(table.insert_count() - 1 - relative_index) == table.lines[table.lines.len() - 1
            - relative_index],
{
}

/// Law: post-base index 0 is the first line inserted after the base was taken,
/// and the next one is the line inserted after that.
pub proof fn law_post_base_after_base(table: TableState, first: FieldLine, second: FieldLine)
    requires
        table.valid(),
        first.size() <= table.capacity,
        second.size() <= table.capacity,
    ensures
        ({
            let base = table.insert_count() as int;
            let after = table.insert(first).insert(second);
            &&& table.insert(first).at(base + 0) == first
            &&& after.at(base + 1) == second
            &&& after.holds(base + 0) ==> after.at(base + 0) == first
        }),
{
    law_insert(table, first);
    law_insert(table.insert(first), second);
}

/// Law: equality up to the case of ASCII letters is an equivalence.
pub proof fn law_same_ignoring_case(a: Seq<u8>, b: Seq<u8>, c: Seq<u8>)
    ensures
        same_ignoring_case(a, a),
        same_ignoring_case(a, b) ==> same_ignoring_case(b, a),
        same_ignoring_case(a, b) && same_ignoring_case(b, c) ==> same_ignoring_case(a, c),
{
}

/// Law: a search has one answer, and the answer does not depend on the case in
/// which the name is written.
pub proof fn law_search_is_case_blind(
    table: TableState,
    name: Seq<u8>,
    other_name: Seq<u8>,
    value: Seq<u8>,
    found: Option<u64>,
    other_found: Option<u64>,
)
    requires
        same_ignoring_case(name, other_name),
    ensures
        table.newest_name(name, found) && table.newest_name(other_name, other_found) ==> found
            == other_found,
        table.newest_line(name, value, found) && table.newest_line(other_name, value, other_found)
            ==> found == other_found,
{
    assert forall|l: FieldLine| #[trigger] name_matches(l, name) == name_matches(l, other_name) by {
        law_same_ignoring_case(l.name, name, other_name);
        law_same_ignoring_case(l.name, other_name, name);
        law_same_ignoring_case(name, other_name, name);
    }
    assert forall|l: FieldLine| #[trigger]
        line_matches(l, name, value) == line_matches(l, other_name, value) by {
        assert(name_matches(l, name) == name_matches(l, other_name));
    }
    if table.newest_name(name, found) && table.newest_name(other_name, other_found) {
        match (found, other_found) {
            (Some(i), Some(j)) => {
                assert(name_matches(table.at(i as int), name));
                assert(name_matches(table.at(j as int), name));
            },
            (Some(i), None) => {
                assert(name_matches(table.at(i as int), name));
            },
            (None, Some(j)) => {
                assert(name_matches(table.at(j as int), name));
            },
            (None, None) => {},
        }
    }
    if table.newest_line(name, value, found) && table.newest_line(other_name, value, other_found) {
        match (found, other_found) {
            (Some(i), Some(j)) => {
                assert(line_matches(table.at(i as int), name, value));
                assert(line_matches(table.at(j as int), name, value));
            },
            (Some(i), None) => {
                assert(line_matches(table.at(i as int), name, value));
            },
            (None, Some(j)) => {
                assert(line_matches(table.at(j as int), name, value));
            },
            (None, None) => {},
        }
    }
}

/// Law: a search right after an insertion finds the line that was inserted.
pub proof fn law_search_finds_inserted(table: TableState, line: FieldLine, found: Option<u64>)
    requires
        table.valid(),
        line.size() <= table.capacity,
    ensures
        table.insert(line).newest_line(line.name, line.value, found) ==> found is Some
            && found->0 == table.insert_count(),
        table.insert(line).newest_name(line.name, found) ==> found is Some && found->0
            == table.insert_count(),
{
    law_insert(table, line);
    law_same_ignoring_case(line.name, line.name, line.name);
    let after = table.insert(line);
    let index = table.insert_count() as int;
    assert(name_matches(after.at(index), line.name));
    assert(line_matches(after.at(index), line.name, line.value));
}

/// Law: a table counts the names and values of its lines and 32 bytes for each.
/// One more line at the new end adds its own bytes and changes nothing else.
pub proof fn law_size_adds_up(table: TableState)
    ensures
        table.size() == total_size(table.lines),
        table.lines.len() == 0 ==> table.size() == 0,
        table.lines.len() > 0 ==> table.size() == total_size(table.lines.drop_last())
            + table.lines.last().name.len() + table.lines.last().value.len() + 32,
        forall|line: FieldLine| #[trigger]
            line.size() == line.name.len() + line.value.len() + 32,
{
    if table.lines.len() > 0 {
        lemma_total_size_push(table.lines.drop_last(), table.lines.last());
        assert(table.lines.drop_last().push(table.lines.last()) =~= table.lines);
    }
}

/// Law: the bytes of two sequences of lines add up.
pub proof fn law_total_size_of_parts(older: Seq<FieldLine>, newer: Seq<FieldLine>)
    ensures
        total_size(older + newer) == total_size(older) + total_size(newer),
    decreases newer.len(),
{
    if newer.len() == 0 {
        assert(older + newer =~= older);
    } else {
        law_total_size_of_parts(older, newer.drop_last());
        lemma_total_size_push(newer.drop_last(), newer.last());
        lemma_total_size_push(older + newer.drop_last(), newer.last());
        assert(newer.drop_last().push(newer.last()) =~= newer);
        assert((older + newer.drop_last()).push(newer.last()) =~= older + newer);
    }
}

/// Law: the lines that a table holds have the absolute indices from the number of
/// lines that have left on, oldest first, and the next line gets the index after
/// them.
pub proof fn law_indices_run_from_oldest(table: TableState, i: int)
    ensures
        table.holds(i) <==> 0 <= i - table.dropped < table.lines.len(),
        table.holds(i) ==> table.at(i) == table.lines[i - table.dropped],
        table.insert_count() - table.dropped == table.lines.len(),
{
}

/// Law: an insertion evicts no more than it must. The lines that stay are the
/// newest ones, with the inserted line behind them; they leave room for it, and
/// with any smaller number of lines gone the rest would not.
pub proof fn law_insert_evicts_least(table: TableState, line: FieldLine)
    requires
        line.name.len() + line.value.len() + 32 <= table.capacity,
    ensures
        ({
            let after = table.insert(line);
            let gone = after.dropped - table.dropped;
            &&& 0 <= gone <= table.lines.len()
            &&& after.capacity == table.capacity
            &&& after.lines == table.lines.skip(gone).push(line)
            &&& total_size(table.lines.skip(gone)) + line.name.len() + line.value.len() + 32
                <= table.capacity
            &&& forall|n: int|
                0 <= n < gone ==> #[trigger] total_size(table.lines.skip(n)) + line.name.len()
                    + line.value.len() + 32 > table.capacity
        }),
{
    let room = table.capacity - line.size();
    let gone = table.insert(line).dropped - table.dropped;
    lemma_evictions_bounds(table.lines, room);
    assert(gone == table.lines.len() ==> table.lines.skip(gone).len() == 0);
    assert forall|n: int| 0 <= n < gone implies #[trigger] total_size(table.lines.skip(n))
        + line.name.len() + line.value.len() + 32 > table.capacity by {
        lemma_fewer_do_not_fit(table.lines, room, n as nat);
    }
}

/// Law: an insertion for which there is room evicts nothing: all lines stay where
/// they are, and the inserted one comes behind them.
pub proof fn law_insert_with_room_keeps_all(table: TableState, line: FieldLine)
    requires
        table.size() + line.name.len() + line.value.len() + 32 <= table.capacity,
    ensures
        table.insert(line).lines == table.lines.push(line),
        table.insert(line).dropped == table.dropped,
        table.insert(line).capacity == table.capacity,
        forall|i: int| table.holds(i) ==> #[trigger] table.insert(line).holds(i),
{
    law_insert_evicts_least(table, line);
    assert(table.lines.skip(0) =~= table.lines);
}

/// Law: a change of the capacity evicts no more than it must. The lines that stay
/// are the newest ones; they fit, and with any smaller number of lines gone the
/// rest would not. A capacity that all lines fit loses none.
pub proof fn law_set_capacity_evicts_least(table: TableState, capacity: nat)
    ensures
        ({
            let after = table.set_capacity(capacity);
            let gone = after.dropped - table.dropped;
            &&& 0 <= gone <= table.lines.len()
            &&& after.capacity == capacity
            &&& after.lines == table.lines.skip(gone)
            &&& total_size(table.lines.skip(gone)) <= capacity
            &&& forall|n: int|
                0 <= n < gone ==> #[trigger] total_size(table.lines.skip(n)) > capacity
        }),
        total_size(table.lines) <= capacity ==> table.set_capacity(capacity).lines == table.lines
            && table.set_capacity(capacity).dropped == table.dropped,
{
    let gone = table.set_capacity(capacity).dropped - table.dropped;
    lemma_evictions_bounds(table.lines, capacity as int);
    assert(gone == table.lines.len() ==> table.lines.skip(gone).len() == 0);
    assert forall|n: int| 0 <= n < gone implies #[trigger] total_size(table.lines.skip(n))
        > capacity by {
        lemma_fewer_do_not_fit(table.lines, capacity as int, n as nat);
    }
    assert(table.lines.skip(0) =~= table.lines);
}

/// Law: clearing a table counts every line that it held as gone.
pub proof fn law_clear_drops_all(table: TableState)
    ensures
        table.clear().lines.len() == 0,
        table.clear().dropped == table.dropped + table.lines.len(),
        table.clear().capacity == table.capacity,
{
}

/// Law: a search by name and value answers with a line that has exactly the value
/// sought, byte for byte, and the name sought up to the case of its letters. No
/// newer line has both. Where the answer is none, no line at all has both.
pub proof fn law_found_line_is_exact(
    table: TableState,
    name: Seq<u8>,
    value: Seq<u8>,
    found: Option<u64>,
)
    requires
        table.newest_line(name, value, found),
    ensures
        match found {
            Some(index) => {
                let p = index - table.dropped;
                &&& 0 <= p < table.lines.len()
                &&& table.lines[p].value == value
                &&& table.lines[p].value.len() == value.len()
                &&& same_ignoring_case(table.lines[p].name, name)
                &&& forall|q: int|
                    p < q < table.lines.len() && (#[trigger] table.lines[q]).value == value
                        ==> !same_ignoring_case(table.lines[q].name, name)
            },
            None => forall|q: int|
                0 <= q < table.lines.len() && (#[trigger] table.lines[q]).value == value
                    ==> !same_ignoring_case(table.lines[q].name, name),
        },
{
    assert forall|q: int|
        0 <= q < table.lines.len() && (#[trigger] table.lines[q]).value == value && (match found {
            Some(index) => index - table.dropped < q,
            None => true,
        }) implies !same_ignoring_case(table.lines[q].name, name) by {
        assert(table.at(q + table.dropped) == table.lines[q]);
        assert(table.holds(q + table.dropped));
    }
}

/// Law: a search by name answers with the newest line that has the name sought up
/// to the case of its letters, whatever its value, and with none only where no
/// line has it.
pub proof fn law_found_name_is_newest(table: TableState, name: Seq<u8>, found: Option<u64>)
    requires
        table.newest_name(name, found),
    ensures
        match found {
            Some(index) => {
                let p = index - table.dropped;
                &&& 0 <= p < table.lines.len()
                &&& same_ignoring_case(table.lines[p].name, name)
                &&& forall|q: int|
                    p < q < table.lines.len() ==> !same_ignoring_case(
                        (#[trigger] table.lines[q]).name,
                        name,
                    )
            },
            None => forall|q: int|
                0 <= q < table.lines.len() ==> !same_ignoring_case(
                    (#[trigger] table.lines[q]).name,
                    name,
                ),
        },
{
    assert forall|q: int|
        0 <= q < table.lines.len() && (match found {
            Some(index) => index - table.dropped < q,
            None => true,
        }) implies !same_ignoring_case((#[trigger] table.lines[q]).name, name) by {
        assert(table.at(q + table.dropped) == table.lines[q]);
        assert(table.holds(q + table.dropped));
    }
}

/// Law: names are alike exactly where each byte is the same, or one is a capital
/// ASCII letter and the other its small form, which is 32 above it.
pub proof fn law_only_letter_case_is_ignored(a: Seq<u8>, b: Seq<u8>)
    ensures
        same_ignoring_case(a, b) <==> {
            &&& a.len() == b.len()
            &&& forall|i: int|
                0 <= i < a.len() ==> {
                    ||| #[trigger] a[i] == b[i]
                    ||| 65 <= a[i] <= 90 && b[i] == a[i] + 32
                    ||| 65 <= b[i] <= 90 && a[i] == b[i] + 32
                }
        },
{
}

} // verus!
