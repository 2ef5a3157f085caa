//! The aggregation of classical outcomes over repeated shots.
//!
//! A histogram holds, for each classical register, how often each value was
//! seen; the stats hold how often each joint outcome of all registers was
//! seen. Both keep what they hold in the order in which it first came.
use crate::binary::{padded_binary, push_padded_binary};
use crate::content::{
    bump_content, histogram_content, lemma_content_bump, lemma_content_record_all,
    record_all_content, stats_content, HistogramContent, StatsContent,
};
use vstd::prelude::*;

verus! {

/// The registers of one shot as the aggregation sees them: name, then
/// observed value, width in bits and declaration order.
pub type Memory = Vec<(String, (u64, usize, usize))>;

/// For each register the list of (value, count), in increasing order of the
/// values, and the register's width in bits.
pub type Histogram = Vec<(String, (Vec<(u64, usize)>, usize))>;

/// How often each joint outcome was seen.
pub type Stats = Vec<(String, usize)>;

/// A `Memory` as a sequence of plain values.
pub type MemoryView = Seq<(Seq<char>, (u64, usize, usize))>;

/// A `Histogram` as a sequence of plain values.
pub type HistogramView = Seq<(Seq<char>, (Seq<(u64, usize)>, usize))>;

/// A `Stats` as a sequence of plain values.
pub type StatsView = Seq<(Seq<char>, usize)>;

/// The plain values of a memory.
pub open spec fn memory_view(memory: Seq<(String, (u64, usize, usize))>) -> MemoryView {
    memory.map_values(|entry: (String, (u64, usize, usize))| (entry.0@, entry.1))
}

/// The plain values of a histogram.
pub open spec fn histogram_view(histogram: Seq<(String, (Vec<(u64, usize)>, usize))>)
    -> HistogramView {
    histogram.map_values(
        |entry: (String, (Vec<(u64, usize)>, usize))| (entry.0@, (entry.1.0@, entry.1.1)),
    )
}

/// The plain values of the counts of joint outcomes.
pub open spec fn stats_view(stats: Seq<(String, usize)>) -> StatsView {
    stats.map_values(|entry: (String, usize)| (entry.0@, entry.1))
}

/// Whether the values of a list of (value, count) come in increasing order,
/// none of them twice.
pub open spec fn increasing(values: Seq<(u64, usize)>) -> bool {
    forall|i: int, j: int| 0 <= i < j < values.len() ==> values[i].0 < values[j].0
}

/// The number of entries of `values` whose value is less than `value`. In
/// an increasing list this is the place where `value` stands or belongs.
pub open spec fn below(values: Seq<(u64, usize)>, value: u64) -> nat
    decreases values.len(),
{
    if values.len() == 0 {
        0
    } else {
        below(values.drop_last(), value) + if values.last().0 < value {
            1nat
        } else {
            0nat
        }
    }
}

/// The list `values` after one more observation of `value`: the count of
/// `value` is one higher where the list holds it, and `value` comes in at
/// its place with the count 1 where it does not.
pub open spec fn tally(values: Seq<(u64, usize)>, value: u64) -> Seq<(u64, usize)> {
    let place = below(values, value) as int;
    if place < values.len() && values[place].0 == value {
        values.update(place, (value, (values[place].1 + 1) as usize))
    } else {
        values.insert(place, (value, 1usize))
    }
}

/// Whether no count of a list of (value, count) is above `limit`.
pub open spec fn counts_within(values: Seq<(u64, usize)>, limit: nat) -> bool {
    forall|i: int| 0 <= i < values.len() ==> (#[trigger] values[i]).1 <= limit
}

/// In an increasing list, the place that parts the values below `value`
/// from the others is `below(values, value)`.
pub proof fn lemma_below(values: Seq<(u64, usize)>, value: u64, place: int)
    requires
        0 <= place <= values.len(),
        forall|i: int| 0 <= i < place ==> values[i].0 < value,
        forall|i: int| place <= i < values.len() ==> values[i].0 >= value,
    ensures
        below(values, value) == place,
    decreases values.len(),
{
    if values.len() > 0 {
        let shorter = values.drop_last();
        if place == values.len() {
            lemma_below(shorter, value, place - 1);
        } else {
            lemma_below(shorter, value, place);
        }
    }
}

/// Look for `value` in an increasing list: `Ok` with its place where the
/// list holds it, `Err` with the place where it belongs where not.
pub fn search(values: &Vec<(u64, usize)>, value: u64) -> (r: Result<usize, usize>)
    requires
        increasing(values@),
    ensures
        match r {
            Ok(place) => place < values@.len() && values@[place as int].0 == value && place
                == below(values@, value),
            Err(place) => place <= values@.len() && place == below(values@, value) && (forall|
                i: int,
            |
                0 <= i < place ==> values@[i].0 < value) && (forall|i: int|
                place <= i < values@.len() ==> values@[i].0 > value),
        },
{
    let mut low: usize = 0;
    let mut high: usize = values.len();
    while low < high
        invariant
            increasing(values@),
            low <= high <= values@.len(),
            forall|i: int| 0 <= i < low ==> values@[i].0 < value,
            forall|i: int| high <= i < values@.len() ==> values@[i].0 > value,
        decreases high - low,
    {
        let middle: usize = low + (high - low) / 2;
        let probe: u64 = values[middle].0;
        if probe == value {
            proof {
                lemma_below(values@, value, middle as int);
            }
            return Ok(middle);
        } else if probe < value {
            low = middle + 1;
        } else {
            high = middle;
        }
    }
    proof {
        lemma_below(values@, value, low as int);
    }
    Err(low)
}

/// Count one more observation of `value` in an increasing list of
/// (value, count).
pub fn tally_value(values: &mut Vec<(u64, usize)>, value: u64)
    requires
        increasing(old(values)@),
        counts_within(old(values)@, (usize::MAX - 1) as nat),
    ensures
        final(values)@ == tally(old(values)@, value),
        increasing(final(values)@),
        forall|limit: nat| #[trigger]
            counts_within(old(values)@, limit) ==> counts_within(final(values)@, limit + 1),
{
    match search(values, value) {
        Ok(found) => {
            let count: usize = values[found].1;
            values[found] = (value, count + 1);
            proof {
                let before = old(values)@;
                let after = values@;
                assert forall|limit: nat| #[trigger]
                    counts_within(before, limit) implies counts_within(after, limit + 1) by {
                    assert forall|i: int| 0 <= i < after.len() implies (#[trigger] after[i]).1
                        <= limit + 1 by {
                        if i != found {
                            assert(after[i] == before[i]);
                        } else {
                            assert(before[i].1 <= limit);
                        }
                    }
                }
            }
        },
        Err(place) => {
            values.insert(place, (value, 1));
            proof {
                let before = old(values)@;
                let after = values@;
                assert forall|i: int, j: int| 0 <= i < j < after.len() implies after[i].0
                    < after[j].0 by {
                    let from_i = if i < place {
                        i
                    } else {
                        i - 1
                    };
                    let from_j = if j < place {
                        j
                    } else {
                        j - 1
                    };
                    if i != place && j != place {
                        assert(after[i] == before[from_i]);
                        assert(after[j] == before[from_j]);
                    } else if i == place {
                        assert(after[j] == before[from_j]);
                    } else {
                        assert(after[i] == before[from_i]);
                    }
                }
                assert forall|limit: nat| #[trigger]
                    counts_within(before, limit) implies counts_within(after, limit + 1) by {
                    assert forall|i: int| 0 <= i < after.len() implies (#[trigger] after[i]).1
                        <= limit + 1 by {
                        if i < place {
                            assert(after[i] == before[i]);
                        } else if i > place {
                            assert(after[i] == before[i - 1]);
                        }
                    }
                }
            }
        },
    }
}

/// The place of the first entry called `name`, or the number of entries
/// where none is.
pub open spec fn find_name<V>(entries: Seq<(Seq<char>, V)>, name: Seq<char>) -> int
    decreases entries.len(),
{
    if entries.len() == 0 {
        0
    } else if entries[0].0 == name {
        0
    } else {
        1 + find_name(entries.drop_first(), name)
    }
}

/// The histogram after one more observation of `value` in the register
/// `name`. A register seen for the first time comes last, with `width`; one
/// seen before keeps its place and its width.
pub open spec fn record(histogram: HistogramView, name: Seq<char>, value: u64, width: usize)
    -> HistogramView {
    let place = find_name(histogram, name);
    if place < histogram.len() {
        histogram.update(
            place,
            (name, (tally(histogram[place].1.0, value), histogram[place].1.1)),
        )
    } else {
        histogram.push((name, (tally(Seq::empty(), value), width)))
    }
}

/// Whether no name stands twice in a histogram and every list of values is
/// increasing.
pub open spec fn histogram_ordered(histogram: HistogramView) -> bool {
    &&& forall|i: int, j: int| 0 <= i < j < histogram.len() ==> histogram[i].0 != histogram[j].0
    &&& forall|i: int| 0 <= i < histogram.len() ==> increasing(#[trigger] histogram[i].1.0)
}

/// Whether no count of a histogram is above `limit`.
pub open spec fn histogram_within(histogram: HistogramView, limit: nat) -> bool {
    forall|i: int| 0 <= i < histogram.len() ==> counts_within(#[trigger] histogram[i].1.0, limit)
}

/// The place that a forward search for `name` stops at is `find_name`.
pub proof fn lemma_find_name<V>(entries: Seq<(Seq<char>, V)>, name: Seq<char>, place: int)
    requires
        0 <= place <= entries.len(),
        forall|i: int| 0 <= i < place ==> entries[i].0 != name,
        place < entries.len() ==> entries[place].0 == name,
    ensures
        find_name(entries, name) == place,
    decreases entries.len(),
{
    if entries.len() > 0 && place > 0 {
        let rest = entries.drop_first();
        assert forall|i: int| 0 <= i < place - 1 implies rest[i].0 != name by {
            assert(rest[i] == entries[i + 1]);
        }
        lemma_find_name(rest, name, place - 1);
    }
}

/// The place of the first entry called `name`, or the number of entries
/// where none is.
pub fn find_register(histogram: &Histogram, name: &String) -> (place: usize)
    ensures
        place == find_name(histogram_view(histogram@), name@),
        place <= histogram@.len(),
        place < histogram@.len() ==> histogram@[place as int].0@ == name@,
        forall|i: int| 0 <= i < place ==> histogram@[i].0@ != name@,
{
    let mut place: usize = 0;
    while place < histogram.len() && !(histogram[place].0 == *name)
        invariant
            place <= histogram@.len(),
            forall|i: int| 0 <= i < place ==> histogram@[i].0@ != name@,
        decreases histogram@.len() - place,
    {
        place += 1;
    }
    proof {
        lemma_find_name(histogram_view(histogram@), name@, place as int);
    }
    place
}

/// Count one more observation of `value` in the register `name`.
pub fn record_value(histogram: &mut Histogram, name: &String, value: u64, width: usize)
    requires
        histogram_ordered(histogram_view(old(histogram)@)),
        histogram_within(histogram_view(old(histogram)@), (usize::MAX - 1) as nat),
    ensures
        histogram_view(final(histogram)@) == record(
            histogram_view(old(histogram)@),
            name@,
            value,
            width,
        ),
        histogram_ordered(histogram_view(final(histogram)@)),
        forall|limit: nat| #[trigger]
            histogram_within(histogram_view(old(histogram)@), limit) ==> histogram_within(
                histogram_view(final(histogram)@),
                limit + 1,
            ),
{
    let place: usize = find_register(histogram, name);
    if place == histogram.len() {
        histogram.push((name.clone(), (Vec::new(), width)));
    }
    let ghost middle = histogram@;
    proof {
        assert(increasing(histogram_view(middle)[place as int].1.0));
        if place < old(histogram)@.len() {
            assert(counts_within(
                histogram_view(old(histogram)@)[place as int].1.0,
                (usize::MAX - 1) as nat,
            ));
        }
    }
    tally_value(&mut histogram[place].1.0, value);
    proof {
        let before = histogram_view(old(histogram)@);
        let after = histogram_view(histogram@);
        assert(histogram@.len() == middle.len());
        assert(histogram@[place as int].0 == middle[place as int].0);
        assert(histogram@[place as int].1.1 == middle[place as int].1.1);
        assert(histogram@[place as int].1.0@ == tally(middle[place as int].1.0@, value));
        assert forall|i: int| 0 <= i < middle.len() && i != place implies histogram@[i]
            == middle[i] by {}
        if place == old(histogram)@.len() {
            assert(middle[place as int].1.0@ =~= Seq::<(u64, usize)>::empty());
            assert(after.len() == before.len() + 1);
            assert forall|i: int| 0 <= i < before.len() implies after[i] == before[i] by {
                assert(histogram@[i] == middle[i]);
                assert(middle[i] == old(histogram)@[i]);
            }
        } else {
            assert(middle == old(histogram)@);
        }
        let between = histogram_view(middle);
        assert forall|i: int| 0 <= i < after.len() && i != place implies after[i]
            == between[i] by {
            assert(histogram@[i] == middle[i]);
        }
        assert forall|i: int| 0 <= i < after.len() implies increasing(
            #[trigger] after[i].1.0,
        ) by {
            if i != place {
                assert(after[i] == between[i]);
                if i < before.len() {
                    assert(between[i] == before[i]);
                }
            }
        }
        assert forall|i: int, j: int| 0 <= i < j < after.len() implies after[i].0
            != after[j].0 by {
            assert(after[i].0 == between[i].0);
            assert(after[j].0 == between[j].0);
            if j < before.len() {
                assert(between[i] == before[i]);
                assert(between[j] == before[j]);
            } else {
                assert(between[i] == before[i]);
                assert(histogram@[i].0@ != name@);
            }
        }
        assert forall|limit: nat| #[trigger]
            histogram_within(before, limit) implies histogram_within(after, limit + 1) by {
            assert forall|i: int| 0 <= i < after.len() implies counts_within(
                #[trigger] after[i].1.0,
                limit + 1,
            ) by {
                if i != place {
                    assert(after[i] == between[i]);
                    assert(between[i] == before[i]);
                    assert(counts_within(before[i].1.0, limit));
                } else if place < before.len() {
                    assert(between[i] == before[i]);
                    assert(counts_within(before[i].1.0, limit));
                    assert(counts_within(middle[place as int].1.0@, limit));
                } else {
                    assert(counts_within(middle[place as int].1.0@, limit));
                }
            }
        }
    }
    assert(histogram_view(histogram@) =~= record(
        histogram_view(old(histogram)@),
        name@,
        value,
        width,
    ));
}

/// The registers of a memory without their names: observed value, width
/// in bits and declaration order.
pub open spec fn registers_of(memory: MemoryView) -> Seq<(u64, usize, usize)> {
    memory.map_values(|entry: (Seq<char>, (u64, usize, usize))| entry.1)
}

/// Whether the registers come with the one declared last first.
pub open spec fn later_first(registers: Seq<(u64, usize, usize)>) -> bool {
    forall|i: int, j: int| 0 <= i < j < registers.len() ==> registers[i].2 >= registers[j].2
}

/// The number of registers that are declared at `order` or later.
pub open spec fn ahead(registers: Seq<(u64, usize, usize)>, order: usize) -> nat
    decreases registers.len(),
{
    if registers.len() == 0 {
        0
    } else {
        ahead(registers.drop_last(), order) + if registers.last().2 >= order {
            1nat
        } else {
            0nat
        }
    }
}

/// The registers with the one declared last first. Registers of the same
/// declaration order stay in the order in which they are given.
pub open spec fn by_order(registers: Seq<(u64, usize, usize)>) -> Seq<(u64, usize, usize)>
    decreases registers.len(),
{
    if registers.len() == 0 {
        registers
    } else {
        let sorted = by_order(registers.drop_last());
        sorted.insert(ahead(sorted, registers.last().2) as int, registers.last())
    }
}

/// The values of the registers in binary, one after the other, each with
/// zeros in front up to the register's width. A value takes at least one
/// digit, and all the digits it has, also where the width is less.
pub open spec fn concat_binary(registers: Seq<(u64, usize, usize)>) -> Seq<char>
    decreases registers.len(),
{
    if registers.len() == 0 {
        Seq::empty()
    } else {
        concat_binary(registers.drop_last()) + padded_binary(
            registers.last().0 as nat,
            registers.last().1 as nat,
        )
    }
}

/// The joint outcome of a shot: the values of all registers in binary, each
/// with zeros in front up to its width, the register declared last first.
pub open spec fn joint_key(memory: MemoryView) -> Seq<char> {
    concat_binary(by_order(registers_of(memory)))
}

/// The counts after one more observation of the joint outcome `key`. An
/// outcome seen for the first time comes last.
pub open spec fn bump(stats: StatsView, key: Seq<char>) -> StatsView {
    let place = find_name(stats, key);
    if place < stats.len() {
        stats.update(place, (key, (stats[place].1 + 1) as usize))
    } else {
        stats.push((key, 1usize))
    }
}

/// Whether no joint outcome stands twice.
pub open spec fn stats_distinct(stats: StatsView) -> bool {
    forall|i: int, j: int| 0 <= i < j < stats.len() ==> stats[i].0 != stats[j].0
}

/// Whether no count of a joint outcome is above `limit`.
pub open spec fn stats_within(stats: StatsView, limit: nat) -> bool {
    forall|i: int| 0 <= i < stats.len() ==> (#[trigger] stats[i]).1 <= limit
}

/// The histogram after the observations of one shot, taken in the order of
/// the memory.
pub open spec fn record_all(histogram: HistogramView, memory: MemoryView) -> HistogramView
    decreases memory.len(),
{
    if memory.len() == 0 {
        histogram
    } else {
        record(
            record_all(histogram, memory.drop_last()),
            memory.last().0,
            memory.last().1.0,
            memory.last().1.1,
        )
    }
}

/// The joint outcome of two registers holds the value of the one declared
/// later first, then that of the other, each in binary with zeros in front
/// up to its width. Two registers of the same declaration order come as
/// they are given.
pub proof fn lemma_joint_key_of_two(
    first: (Seq<char>, (u64, usize, usize)),
    second: (Seq<char>, (u64, usize, usize)),
)
    ensures
        joint_key(seq![first, second]) == if first.1.2 >= second.1.2 {
            padded_binary(first.1.0 as nat, first.1.1 as nat) + padded_binary(
                second.1.0 as nat,
                second.1.1 as nat,
            )
        } else {
            padded_binary(second.1.0 as nat, second.1.1 as nat) + padded_binary(
                first.1.0 as nat,
                first.1.1 as nat,
            )
        },
{
    let registers = registers_of(seq![first, second]);
    let one = seq![first.1];
    let none = Seq::<(u64, usize, usize)>::empty();
    assert(registers =~= seq![first.1, second.1]);
    assert(registers.drop_last() =~= one);
    assert(one.drop_last() =~= none);
    assert(by_order(none) == none);
    assert(ahead(none, first.1.2) == 0);
    assert(by_order(one) =~= one);
    assert(ahead(none, second.1.2) == 0);
    assert(one.last() == first.1);
    assert(ahead(one, second.1.2) == if first.1.2 >= second.1.2 {
        1nat
    } else {
        0nat
    });
    let sorted = by_order(registers);
    let expected = if first.1.2 >= second.1.2 {
        seq![first.1, second.1]
    } else {
        seq![second.1, first.1]
    };
    assert(sorted =~= expected);
    assert(expected.drop_last() =~= seq![expected[0]]);
    assert(seq![expected[0]].drop_last() =~= none);
    assert(concat_binary(none) =~= Seq::<char>::empty());
    assert(concat_binary(seq![expected[0]]) =~= padded_binary(
        expected[0].0 as nat,
        expected[0].1 as nat,
    ));
}

/// Among registers with the latest first, the place that parts those
/// declared at `order` or later from the others is `ahead(registers, order)`.
pub proof fn lemma_ahead(registers: Seq<(u64, usize, usize)>, order: usize, place: int)
    requires
        0 <= place <= registers.len(),
        forall|i: int| 0 <= i < place ==> registers[i].2 >= order,
        forall|i: int| place <= i < registers.len() ==> registers[i].2 < order,
    ensures
        ahead(registers, order) == place,
    decreases registers.len(),
{
    if registers.len() > 0 {
        let shorter = registers.drop_last();
        if place == registers.len() {
            lemma_ahead(shorter, order, place - 1);
        } else {
            lemma_ahead(shorter, order, place);
        }
    }
}

/// The registers of a memory, the one declared last first.
pub fn sort_by_order(memory: &Memory) -> (sorted: Vec<(u64, usize, usize)>)
    ensures
        sorted@ == by_order(registers_of(memory_view(memory@))),
        later_first(sorted@),
{
    let ghost registers = registers_of(memory_view(memory@));
    let mut sorted: Vec<(u64, usize, usize)> = Vec::new();
    let mut taken: usize = 0;
    assert(registers.take(0) =~= Seq::empty());
    while taken < memory.len()
        invariant
            taken <= memory@.len(),
            registers == registers_of(memory_view(memory@)),
            sorted@ == by_order(registers.take(taken as int)),
            later_first(sorted@),
        decreases memory@.len() - taken,
    {
        let register: (u64, usize, usize) = memory[taken].1;
        let mut place: usize = 0;
        while place < sorted.len() && sorted[place].2 >= register.2
            invariant
                place <= sorted@.len(),
                forall|i: int| 0 <= i < place ==> sorted@[i].2 >= register.2,
            decreases sorted@.len() - place,
        {
            place += 1;
        }
        proof {
            lemma_ahead(sorted@, register.2, place as int);
            assert(registers.take(taken + 1).drop_last() =~= registers.take(taken as int));
            assert(registers.take(taken + 1).last() == register);
        }
        let ghost previous = sorted@;
        sorted.insert(place, register);
        proof {
            let after = sorted@;
            assert forall|i: int, j: int| 0 <= i < j < after.len() implies after[i].2
                >= after[j].2 by {
                let from_i = if i < place {
                    i
                } else {
                    i - 1
                };
                let from_j = if j < place {
                    j
                } else {
                    j - 1
                };
                if i != place && j != place {
                    assert(after[i] == previous[from_i]);
                    assert(after[j] == previous[from_j]);
                } else if i == place {
                    assert(after[j] == previous[from_j]);
                } else {
                    assert(after[i] == previous[from_i]);
                }
            }
        }
        taken += 1;
    }
    assert(registers.take(taken as int) =~= registers);
    sorted
}

/// The joint outcome of a shot as a string of binary digits.
pub fn joint_outcome(memory: &Memory) -> (key: String)
    ensures
        key@ == joint_key(memory_view(memory@)),
{
    let sorted = sort_by_order(memory);
    let mut binary = String::new();
    let mut written: usize = 0;
    assert(sorted@.take(0) =~= Seq::empty());
    while written < sorted.len()
        invariant
            written <= sorted@.len(),
            binary@ == concat_binary(sorted@.take(written as int)),
        decreases sorted@.len() - written,
    {
        let register: (u64, usize, usize) = sorted[written];
        proof {
            assert(sorted@.take(written + 1).drop_last() =~= sorted@.take(written as int));
            assert(sorted@.take(written + 1).last() == register);
        }
        push_padded_binary(&mut binary, register.0, register.1);
        written += 1;
    }
    assert(sorted@.take(written as int) =~= sorted@);
    binary
}

/// Count one more observation of the joint outcome `key`.
pub fn bump_outcome(stats: &mut Stats, key: String)
    requires
        stats_distinct(stats_view(old(stats)@)),
        stats_within(stats_view(old(stats)@), (usize::MAX - 1) as nat),
    ensures
        stats_view(final(stats)@) == bump(stats_view(old(stats)@), key@),
        stats_distinct(stats_view(final(stats)@)),
        forall|limit: nat| #[trigger]
            stats_within(stats_view(old(stats)@), limit) ==> stats_within(
                stats_view(final(stats)@),
                limit + 1,
            ),
{
    let mut place: usize = 0;
    while place < stats.len() && !(stats[place].0 == key)
        invariant
            place <= stats@.len(),
            stats@ == old(stats)@,
            forall|i: int| 0 <= i < place ==> stats@[i].0@ != key@,
        decreases stats@.len() - place,
    {
        place += 1;
    }
    let ghost before = stats_view(old(stats)@);
    proof {
        assert forall|i: int| 0 <= i < place implies before[i].0 != key@ by {
            assert(before[i].0 == old(stats)@[i].0@);
        }
        lemma_find_name(before, key@, place as int);
    }
    if place < stats.len() {
        proof {
            assert(before[place as int].1 <= usize::MAX - 1);
        }
        let count: usize = stats[place].1;
        stats[place] = (key, count + 1);
    } else {
        stats.push((key, 1));
    }
    proof {
        let after = stats_view(stats@);
        assert(after =~= bump(before, key@));
        assert forall|i: int, j: int| 0 <= i < j < after.len() implies after[i].0
            != after[j].0 by {
            if i < before.len() && i != place {
                assert(after[i].0 == before[i].0);
            }
            if j < before.len() && j != place {
                assert(after[j].0 == before[j].0);
            }
        }
        assert forall|limit: nat| #[trigger]
            stats_within(before, limit) implies stats_within(after, limit + 1) by {
            assert forall|i: int| 0 <= i < after.len() implies (#[trigger] after[i]).1 <= limit
                + 1 by {
                if i < before.len() {
                    assert(before[i].1 <= limit);
                }
            }
        }
    }
}

/// The histogram of a single shot: every register with the one value that
/// it holds, counted once.
pub open spec fn single_shot(memory: MemoryView) -> HistogramView {
    memory.map_values(
        |entry: (Seq<char>, (u64, usize, usize))|
            (entry.0, (seq![(entry.1.0, 1usize)], entry.1.1)),
    )
}

/// The memory of a single shot as a histogram.
pub fn memory_histogram(memory: &Memory) -> (histogram: Histogram)
    ensures
        histogram_view(histogram@) == single_shot(memory_view(memory@)),
{
    let mut histogram: Histogram = Vec::with_capacity(memory.len());
    let mut taken: usize = 0;
    while taken < memory.len()
        invariant
            taken <= memory@.len(),
            histogram@.len() == taken,
            forall|i: int|
                0 <= i < taken ==> #[trigger] histogram_view(histogram@)[i] == single_shot(
                    memory_view(memory@),
                )[i],
        decreases memory@.len() - taken,
    {
        let ghost so_far = histogram@;
        let mut values: Vec<(u64, usize)> = Vec::new();
        values.push((memory[taken].1.0, 1));
        assert(values@ =~= seq![(memory@[taken as int].1.0, 1usize)]);
        histogram.push((memory[taken].0.clone(), (values, memory[taken].1.1)));
        proof {
            assert forall|i: int| 0 <= i < taken + 1 implies #[trigger] histogram_view(
                histogram@,
            )[i] == single_shot(memory_view(memory@))[i] by {
                if i < taken {
                    assert(histogram@[i] == so_far[i]);
                    assert(histogram_view(so_far)[i] == single_shot(memory_view(memory@))[i]);
                }
            }
        }
        taken += 1;
    }
    assert(histogram_view(histogram@) =~= single_shot(memory_view(memory@)));
    histogram
}

/// Whether the joint outcome at `place` was seen most often: no other was
/// seen more often, and none that stands after it as often.
pub open spec fn is_most_seen(stats: StatsView, place: int) -> bool {
    &&& 0 <= place < stats.len()
    &&& forall|i: int| 0 <= i < place ==> stats[i].1 <= stats[place].1
    &&& forall|i: int| place < i < stats.len() ==> stats[i].1 < stats[place].1
}

/// Whether the joint outcome at `place` was seen least often: no other was
/// seen less often, and none that stands before it as rarely.
pub open spec fn is_least_seen(stats: StatsView, place: int) -> bool {
    &&& 0 <= place < stats.len()
    &&& forall|i: int| 0 <= i < place ==> stats[i].1 > stats[place].1
    &&& forall|i: int| place < i < stats.len() ==> stats[i].1 >= stats[place].1
}

/// The place of the joint outcome that was seen most often, the last of
/// them where there are several; `None` where no outcome was seen.
pub fn most_seen(stats: &Stats) -> (r: Option<usize>)
    ensures
        match r {
            Some(place) => is_most_seen(stats_view(stats@), place as int),
            None => stats@.len() == 0,
        },
{
    if stats.len() == 0 {
        return None;
    }
    let mut place: usize = 0;
    let mut next: usize = 1;
    while next < stats.len()
        invariant
            place < next <= stats@.len(),
            forall|i: int| 0 <= i < place ==> stats@[i].1 <= stats@[place as int].1,
            forall|i: int| place < i < next ==> stats@[i].1 < stats@[place as int].1,
        decreases stats@.len() - next,
    {
        if stats[next].1 >= stats[place].1 {
            place = next;
        }
        next += 1;
    }
    Some(place)
}

/// The place of the joint outcome that was seen least often, the first of
/// them where there are several; `None` where no outcome was seen.
pub fn least_seen(stats: &Stats) -> (r: Option<usize>)
    ensures
        match r {
            Some(place) => is_least_seen(stats_view(stats@), place as int),
            None => stats@.len() == 0,
        },
{
    if stats.len() == 0 {
        return None;
    }
    let mut place: usize = 0;
    let mut next: usize = 1;
    while next < stats.len()
        invariant
            place < next <= stats@.len(),
            forall|i: int| 0 <= i < place ==> stats@[i].1 > stats@[place as int].1,
            forall|i: int| place < i < next ==> stats@[i].1 >= stats@[place as int].1,
        decreases stats@.len() - next,
    {
        if stats[next].1 < stats[place].1 {
            place = next;
        }
        next += 1;
    }
    Some(place)
}

/// Collects the outcomes of repeated shots: for each register how often
/// each value was seen, and how often each joint outcome.
#[derive(Debug, Clone, PartialEq, Eq)]
pub struct HistogramBuilder {
    /// For each register, in the order in which they were first seen, the
    /// values seen and their counts.
    pub histogram: Histogram,
    /// For each joint outcome, in the order in which they were first seen,
    /// its count.
    pub stats: Stats,
}

impl Default for HistogramBuilder {
    /// The builder that has seen no shot.
    fn default() -> (r: Self)
        ensures
            r.histogram@.len() == 0,
            r.stats@.len() == 0,
    {
        HistogramBuilder { histogram: Vec::new(), stats: Vec::new() }
    }
}

impl HistogramBuilder {
    /// The histogram so far, as plain values.
    pub open spec fn histogram_view(&self) -> HistogramView {
        histogram_view(self.histogram@)
    }

    /// The counts of joint outcomes so far, as plain values.
    pub open spec fn stats_view(&self) -> StatsView {
        stats_view(self.stats@)
    }

    /// What the histogram so far holds under each name, whatever the order
    /// in which the registers were first seen.
    pub open spec fn histogram_content(&self) -> HistogramContent {
        histogram_content(self.histogram_view())
    }

    /// The count so far of each joint outcome, whatever the order in which
    /// the outcomes were first seen.
    pub open spec fn stats_content(&self) -> StatsContent {
        stats_content(self.stats_view())
    }

    /// No register and no joint outcome stands twice, and the values of
    /// each register are in increasing order.
    pub open spec fn wf(&self) -> bool {
        &&& histogram_ordered(self.histogram_view())
        &&& stats_distinct(self.stats_view())
    }

    /// No count is above `limit`.
    pub open spec fn within(&self, limit: nat) -> bool {
        &&& histogram_within(self.histogram_view(), limit)
        &&& stats_within(self.stats_view(), limit)
    }

    /// Counts that are within a limit are within every higher one.
    pub proof fn lemma_within(self, limit: nat, higher: nat)
        requires
            self.within(limit),
            limit <= higher,
        ensures
            self.within(higher),
    {
        lemma_histogram_within(self.histogram_view(), limit, higher);
        lemma_stats_within(self.stats_view(), limit, higher);
    }

    /// The builder that has seen no shot.
    pub fn new() -> (r: Self)
        ensures
            r.wf(),
            r.within(0),
            r.histogram_view() == Seq::<(Seq<char>, (Seq<(u64, usize)>, usize))>::empty(),
            r.stats_view() == Seq::<(Seq<char>, usize)>::empty(),
    {
        let builder = HistogramBuilder { histogram: Vec::new(), stats: Vec::new() };
        assert(builder.histogram_view() =~= Seq::empty());
        assert(builder.stats_view() =~= Seq::empty());
        builder
    }

    /// Take in the outcome of one shot: count the value of each register of
    /// `memory` in the histogram, and the joint outcome of all of them in
    /// the stats. The result is stated twice: as it stands, in the order of
    /// first sight, and by name and outcome, where the order of the shots
    /// does not show.
    pub fn update(&mut self, memory: &Memory)
        requires
            old(self).wf(),
            memory@.len() < usize::MAX,
            old(self).within((usize::MAX - 1 - memory@.len()) as nat),
        ensures
            final(self).wf(),
            final(self).histogram_view() == record_all(
                old(self).histogram_view(),
                memory_view(memory@),
            ),
            final(self).stats_view() == bump(
                old(self).stats_view(),
                joint_key(memory_view(memory@)),
            ),
            final(self).histogram_content() == record_all_content(
                old(self).histogram_content(),
                memory_view(memory@),
            ),
            final(self).stats_content() == bump_content(
                old(self).stats_content(),
                joint_key(memory_view(memory@)),
            ),
            forall|limit: nat| #[trigger]
                old(self).within(limit) ==> final(self).within(limit + memory@.len() + 1),
    {
        let ghost shot = memory_view(memory@);
        let ghost start = self.histogram_view();
        let mut taken: usize = 0;
        assert(shot.take(0) =~= Seq::empty());
        while taken < memory.len()
            invariant
                taken <= memory@.len(),
                memory@.len() < usize::MAX,
                shot == memory_view(memory@),
                self.stats == old(self).stats,
                self.histogram_view() == record_all(start, shot.take(taken as int)),
                histogram_ordered(self.histogram_view()),
                histogram_within(
                    self.histogram_view(),
                    (usize::MAX - 1 - memory@.len() + taken) as nat,
                ),
                forall|limit: nat| #[trigger]
                    histogram_within(start, limit) ==> histogram_within(
                        self.histogram_view(),
                        limit + taken as nat,
                    ),
            decreases memory@.len() - taken,
        {
            let ghost previous = self.histogram_view();
            proof {
                assert(shot.take(taken + 1).drop_last() =~= shot.take(taken as int));
                assert(shot.take(taken + 1).last() == shot[taken as int]);
                lemma_histogram_within(
                    previous,
                    (usize::MAX - 1 - memory@.len() + taken) as nat,
                    (usize::MAX - 1) as nat,
                );
            }
            record_value(&mut self.histogram, &memory[taken].0, memory[taken].1.0, memory[taken].1.1);
            proof {
                assert forall|limit: nat| #[trigger]
                    histogram_within(start, limit) implies histogram_within(
                    self.histogram_view(),
                    limit + (taken + 1) as nat,
                ) by {
                    assert(histogram_within(previous, limit + taken as nat));
                    assert(histogram_within(self.histogram_view(), limit + taken as nat + 1));
                }
                assert(histogram_within(
                    previous,
                    (usize::MAX - 1 - memory@.len() + taken) as nat,
                ));
                assert(histogram_within(
                    self.histogram_view(),
                    (usize::MAX - 1 - memory@.len() + taken) as nat + 1,
                ));
            }
            taken += 1;
        }
        assert(shot.take(taken as int) =~= shot);
        let binary = joint_outcome(memory);
        proof {
            lemma_stats_within(
                self.stats_view(),
                (usize::MAX - 1 - memory@.len()) as nat,
                (usize::MAX - 1) as nat,
            );
        }
        bump_outcome(&mut self.stats, binary);
        proof {
            lemma_content_record_all(start, shot);
            lemma_content_bump(old(self).stats_view(), joint_key(shot));
            assert forall|limit: nat| #[trigger]
                old(self).within(limit) implies self.within(limit + memory@.len() + 1) by {
                assert(histogram_within(self.histogram_view(), limit + taken as nat));
                lemma_histogram_within(
                    self.histogram_view(),
                    limit + taken as nat,
                    limit + memory@.len() + 1,
                );
                assert(stats_within(self.stats_view(), limit + 1));
                lemma_stats_within(self.stats_view(), limit + 1, limit + memory@.len() + 1);
            }
        }
    }

    /// Give the histogram up: for each register the values seen, in
    /// increasing order, with their counts, and the register's width.
    pub fn histogram(self) -> (r: Histogram)
        ensures
            r == self.histogram,
    {
        self.histogram
    }

    /// Give the counts of the joint outcomes up.
    pub fn stats(self) -> (r: Stats)
        ensures
            r == self.stats,
    {
        self.stats
    }
}

/// Counts that are within a limit are within every higher one.
pub proof fn lemma_histogram_within(histogram: HistogramView, limit: nat, higher: nat)
    requires
        histogram_within(histogram, limit),
        limit <= higher,
    ensures
        histogram_within(histogram, higher),
{
    assert forall|i: int| 0 <= i < histogram.len() implies counts_within(
        #[trigger] histogram[i].1.0,
        higher,
    ) by {
        assert(counts_within(histogram[i].1.0, limit));
    }
}

/// Counts that are within a limit are within every higher one.
pub proof fn lemma_stats_within(stats: StatsView, limit: nat, higher: nat)
    requires
        stats_within(stats, limit),
        limit <= higher,
    ensures
        stats_within(stats, higher),
{
}

} // verus!
