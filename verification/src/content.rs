//! What a histogram and the counts of joint outcomes hold, whatever the
//! order in which it first came.
//!
//! A histogram keeps its registers, and the stats keep their outcomes, in
//! the order of first sight. Read by name, two histograms hold the same if
//! they give each register the same values, counts and width, and that is
//! what does not depend on the order of the shots.
use crate::histogram::{
    below, bump, find_name, histogram_ordered, increasing, joint_key, lemma_below,
    lemma_find_name, record, record_all, tally, HistogramView, MemoryView, StatsView,
};
use vstd::prelude::*;

verus! {

/// For each register by name: the list of (value, count) and the width.
pub type HistogramContent = Map<Seq<char>, (Seq<(u64, usize)>, usize)>;

/// For each joint outcome: its count.
pub type StatsContent = Map<Seq<char>, usize>;

/// What a histogram holds under each name.
pub open spec fn histogram_content(histogram: HistogramView) -> HistogramContent {
    Map::new(
        |name: Seq<char>| find_name(histogram, name) < histogram.len(),
        |name: Seq<char>| histogram[find_name(histogram, name)].1,
    )
}

/// What the counts of joint outcomes hold under each outcome.
pub open spec fn stats_content(stats: StatsView) -> StatsContent {
    Map::new(
        |key: Seq<char>| find_name(stats, key) < stats.len(),
        |key: Seq<char>| stats[find_name(stats, key)].1,
    )
}

/// What a histogram holds after one more observation of `value` in the
/// register `name`: a register seen before has the value counted and keeps
/// its width, one seen for the first time has the value alone and `width`.
pub open spec fn record_content(
    content: HistogramContent,
    name: Seq<char>,
    value: u64,
    width: usize,
) -> HistogramContent {
    if content.contains_key(name) {
        content.insert(name, (tally(content[name].0, value), content[name].1))
    } else {
        content.insert(name, (tally(Seq::empty(), value), width))
    }
}

/// What a histogram holds after the observations of one shot.
pub open spec fn record_all_content(content: HistogramContent, memory: MemoryView)
    -> HistogramContent
    decreases memory.len(),
{
    if memory.len() == 0 {
        content
    } else {
        record_content(
            record_all_content(content, memory.drop_last()),
            memory.last().0,
            memory.last().1.0,
            memory.last().1.1,
        )
    }
}

/// What the counts hold after one more observation of the joint outcome
/// `key`.
pub open spec fn bump_content(content: StatsContent, key: Seq<char>) -> StatsContent {
    if content.contains_key(key) {
        content.insert(key, (content[key] + 1) as usize)
    } else {
        content.insert(key, 1usize)
    }
}

/// Whether every list of values that a histogram holds is increasing.
pub open spec fn content_ordered(content: HistogramContent) -> bool {
    forall|name: Seq<char>| #[trigger]
        content.contains_key(name) ==> increasing(content[name].0)
}

/// Whether a register that stands in both shots, and that the histogram
/// does not hold yet, has the same width in both.
pub open spec fn same_widths(content: HistogramContent, first: MemoryView, second: MemoryView)
    -> bool {
    forall|i: int, j: int|
        0 <= i < first.len() && 0 <= j < second.len() && (#[trigger] first[i]).0 == (
        #[trigger] second[j]).0 && !content.contains_key(first[i].0) ==> first[i].1.1
            == second[j].1.1
}

/// What a histogram holds under a name it goes on holding, shot after shot.
pub proof fn lemma_record_all_content_keeps(
    content: HistogramContent,
    memory: MemoryView,
    name: Seq<char>,
)
    requires
        content.contains_key(name),
    ensures
        record_all_content(content, memory).contains_key(name),
    decreases memory.len(),
{
    if memory.len() > 0 {
        lemma_record_all_content_keeps(content, memory.drop_last(), name);
    }
}

/// In an increasing list, `below` parts the values below `value` from the
/// others.
pub proof fn lemma_below_parts(values: Seq<(u64, usize)>, value: u64)
    requires
        increasing(values),
    ensures
        below(values, value) <= values.len(),
        forall|i: int| 0 <= i < below(values, value) ==> values[i].0 < value,
        forall|i: int| below(values, value) <= i < values.len() ==> values[i].0 >= value,
    decreases values.len(),
{
    if values.len() > 0 {
        let shorter = values.drop_last();
        assert forall|i: int, j: int| 0 <= i < j < shorter.len() implies shorter[i].0
            < shorter[j].0 by {
            assert(shorter[i] == values[i]);
            assert(shorter[j] == values[j]);
        }
        lemma_below_parts(shorter, value);
        let place = below(shorter, value) as int;
        assert forall|i: int| 0 <= i < place implies values[i].0 < value by {
            assert(shorter[i] == values[i]);
        }
        assert forall|i: int| place <= i < shorter.len() implies values[i].0 >= value by {
            assert(shorter[i] == values[i]);
        }
        if values.last().0 < value {
            if place < shorter.len() {
                assert(values[place].0 >= value);
                assert(values[place].0 < values[values.len() - 1].0);
            }
        }
    }
}

/// A list with one more observation is increasing as the list was.
pub proof fn lemma_tally_increasing(values: Seq<(u64, usize)>, value: u64)
    requires
        increasing(values),
    ensures
        increasing(tally(values, value)),
{
    lemma_below_parts(values, value);
    let place = below(values, value) as int;
    let after = tally(values, value);
    assert forall|i: int, j: int| 0 <= i < j < after.len() implies after[i].0 < after[j].0 by {
        if place < values.len() && values[place].0 == value {
            assert(after[i].0 == values[i].0);
            assert(after[j].0 == values[j].0);
        } else {
            let from_i = if i < place {
                i
            } else {
                i - 1
            };
            let from_j = if j < place {
                j
            } else {
                j - 1
            };
            if i != place && j != place {
                assert(after[i] == values[from_i]);
                assert(after[j] == values[from_j]);
            } else if i == place {
                assert(after[j] == values[from_j]);
            } else {
                assert(after[i] == values[from_i]);
            }
        }
    }
}

/// A list with another count at one place is increasing as the list was.
proof fn lemma_update_increasing(values: Seq<(u64, usize)>, place: int, count: usize)
    requires
        increasing(values),
        0 <= place < values.len(),
    ensures
        increasing(values.update(place, (values[place].0, count))),
{
    let after = values.update(place, (values[place].0, count));
    assert forall|i: int, j: int| 0 <= i < j < after.len() implies after[i].0 < after[j].0 by {
        assert(after[i].0 == values[i].0);
        assert(after[j].0 == values[j].0);
    }
}

/// A list with a value put in where it belongs is increasing as the list
/// was.
proof fn lemma_insert_increasing(values: Seq<(u64, usize)>, place: int, value: u64)
    requires
        increasing(values),
        0 <= place <= values.len(),
        forall|i: int| 0 <= i < place ==> values[i].0 < value,
        forall|i: int| place <= i < values.len() ==> values[i].0 > value,
    ensures
        increasing(values.insert(place, (value, 1usize))),
{
    let after = values.insert(place, (value, 1usize));
    assert forall|i: int, j: int| 0 <= i < j < after.len() implies after[i].0 < after[j].0 by {
        let from_i = if i < place {
            i
        } else {
            i - 1
        };
        let from_j = if j < place {
            j
        } else {
            j - 1
        };
        if i != place && j != place {
            assert(after[i] == values[from_i]);
            assert(after[j] == values[from_j]);
        } else if i == place {
            assert(after[j] == values[from_j]);
        } else {
            assert(after[i] == values[from_i]);
        }
    }
}

/// Where an increasing list holds `value` at `place`, one more observation
/// raises the count there.
proof fn lemma_tally_present(values: Seq<(u64, usize)>, value: u64, place: int)
    requires
        increasing(values),
        0 <= place < values.len(),
        values[place].0 == value,
    ensures
        tally(values, value) == values.update(place, (value, (values[place].1 + 1) as usize)),
{
    lemma_below(values, value, place);
}

/// Where an increasing list does not hold `value`, and `place` parts the
/// values below it from those above, one more observation puts it in at
/// `place`.
proof fn lemma_tally_absent(values: Seq<(u64, usize)>, value: u64, place: int)
    requires
        increasing(values),
        0 <= place <= values.len(),
        forall|i: int| 0 <= i < place ==> values[i].0 < value,
        forall|i: int| place <= i < values.len() ==> values[i].0 > value,
    ensures
        tally(values, value) == values.insert(place, (value, 1usize)),
{
    lemma_below(values, value, place);
}

/// Two values that the list holds: the counts rise in either order.
#[verifier::rlimit(40)]
proof fn lemma_tally_commute_both_present(values: Seq<(u64, usize)>, a: u64, b: u64, p: int, q: int)
    requires
        increasing(values),
        0 <= p < q < values.len(),
        values[p].0 == a,
        values[q].0 == b,
    ensures
        tally(tally(values, a), b) == tally(tally(values, b), a),
{
    let with_a = values.update(p, (a, (values[p].1 + 1) as usize));
    let with_b = values.update(q, (b, (values[q].1 + 1) as usize));
    lemma_tally_present(values, a, p);
    lemma_tally_present(values, b, q);
    lemma_update_increasing(values, p, (values[p].1 + 1) as usize);
    lemma_update_increasing(values, q, (values[q].1 + 1) as usize);
    lemma_tally_present(with_a, b, q);
    lemma_tally_present(with_b, a, p);
    assert(with_a.update(q, (b, (with_a[q].1 + 1) as usize)) =~= with_b.update(
        p,
        (a, (with_b[p].1 + 1) as usize),
    ));
}

/// The list holds the lesser value at `p`, and the greater belongs at `q`.
#[verifier::rlimit(40)]
proof fn lemma_tally_commute_lesser_present(
    values: Seq<(u64, usize)>,
    a: u64,
    b: u64,
    p: int,
    q: int,
)
    requires
        increasing(values),
        a < b,
        0 <= p < q <= values.len(),
        values[p].0 == a,
        forall|i: int| 0 <= i < q ==> values[i].0 < b,
        forall|i: int| q <= i < values.len() ==> values[i].0 > b,
    ensures
        tally(tally(values, a), b) == tally(tally(values, b), a),
{
    let with_a = values.update(p, (a, (values[p].1 + 1) as usize));
    let with_b = values.insert(q, (b, 1usize));
    lemma_tally_present(values, a, p);
    lemma_tally_absent(values, b, q);
    lemma_update_increasing(values, p, (values[p].1 + 1) as usize);
    lemma_insert_increasing(values, q, b);
    assert forall|i: int| 0 <= i < q implies with_a[i].0 < b by {
        assert(with_a[i].0 == values[i].0);
    }
    assert forall|i: int| q <= i < with_a.len() implies with_a[i].0 > b by {
        assert(with_a[i].0 == values[i].0);
    }
    lemma_tally_absent(with_a, b, q);
    assert(with_b[p] == values[p]);
    lemma_tally_present(with_b, a, p);
    assert(with_a.insert(q, (b, 1usize)) =~= with_b.update(p, (a, (with_b[p].1 + 1) as usize)));
}

/// The list holds the greater value at `q`, and the lesser belongs at `p`.
#[verifier::rlimit(40)]
proof fn lemma_tally_commute_greater_present(
    values: Seq<(u64, usize)>,
    a: u64,
    b: u64,
    p: int,
    q: int,
)
    requires
        increasing(values),
        a < b,
        0 <= p <= q < values.len(),
        values[q].0 == b,
        forall|i: int| 0 <= i < p ==> values[i].0 < a,
        forall|i: int| p <= i < values.len() ==> values[i].0 > a,
    ensures
        tally(tally(values, a), b) == tally(tally(values, b), a),
{
    let with_a = values.insert(p, (a, 1usize));
    let with_b = values.update(q, (b, (values[q].1 + 1) as usize));
    lemma_tally_absent(values, a, p);
    lemma_tally_present(values, b, q);
    lemma_insert_increasing(values, p, a);
    lemma_update_increasing(values, q, (values[q].1 + 1) as usize);
    assert(with_a[q + 1] == values[q]);
    lemma_tally_present(with_a, b, q + 1);
    assert forall|i: int| 0 <= i < p implies with_b[i].0 < a by {
        assert(with_b[i].0 == values[i].0);
    }
    assert forall|i: int| p <= i < with_b.len() implies with_b[i].0 > a by {
        assert(with_b[i].0 == values[i].0);
    }
    lemma_tally_absent(with_b, a, p);
    assert(with_a.update(q + 1, (b, (with_a[q + 1].1 + 1) as usize)) =~= with_b.insert(
        p,
        (a, 1usize),
    ));
}

/// The list holds neither value: the lesser belongs at `p`, the greater at
/// `q`.
#[verifier::rlimit(40)]
proof fn lemma_tally_commute_both_absent(values: Seq<(u64, usize)>, a: u64, b: u64, p: int, q: int)
    requires
        increasing(values),
        a < b,
        0 <= p <= q <= values.len(),
        forall|i: int| 0 <= i < p ==> values[i].0 < a,
        forall|i: int| p <= i < values.len() ==> values[i].0 > a,
        forall|i: int| 0 <= i < q ==> values[i].0 < b,
        forall|i: int| q <= i < values.len() ==> values[i].0 > b,
    ensures
        tally(tally(values, a), b) == tally(tally(values, b), a),
{
    let with_a = values.insert(p, (a, 1usize));
    let with_b = values.insert(q, (b, 1usize));
    lemma_tally_absent(values, a, p);
    lemma_tally_absent(values, b, q);
    lemma_insert_increasing(values, p, a);
    lemma_insert_increasing(values, q, b);
    assert forall|i: int| 0 <= i < q + 1 implies with_a[i].0 < b by {
        if i < p {
            assert(with_a[i] == values[i]);
        } else if i > p {
            assert(with_a[i] == values[i - 1]);
        }
    }
    assert forall|i: int| q + 1 <= i < with_a.len() implies with_a[i].0 > b by {
        assert(with_a[i] == values[i - 1]);
    }
    lemma_tally_absent(with_a, b, q + 1);
    assert forall|i: int| 0 <= i < p implies with_b[i].0 < a by {
        assert(with_b[i] == values[i]);
    }
    assert forall|i: int| p <= i < with_b.len() implies with_b[i].0 > a by {
        if i < q {
            assert(with_b[i] == values[i]);
        } else if i > q {
            assert(with_b[i] == values[i - 1]);
        }
    }
    lemma_tally_absent(with_b, a, p);
    assert(with_a.insert(q + 1, (b, 1usize)) =~= with_b.insert(p, (a, 1usize)));
}

/// Two observations of values, the lesser first or the greater first, leave
/// the same list.
proof fn lemma_tally_commute_ordered(values: Seq<(u64, usize)>, a: u64, b: u64)
    requires
        increasing(values),
        a < b,
    ensures
        tally(tally(values, a), b) == tally(tally(values, b), a),
{
    lemma_below_parts(values, a);
    lemma_below_parts(values, b);
    let p = below(values, a) as int;
    let q = below(values, b) as int;
    if q < p {
        assert(values[q].0 < a);
        assert(values[q].0 >= b);
    }
    let has_a = p < values.len() && values[p].0 == a;
    let has_b = q < values.len() && values[q].0 == b;
    if has_a {
        if has_b {
            lemma_tally_commute_both_present(values, a, b, p, q);
        } else {
            lemma_tally_commute_lesser_present(values, a, b, p, q);
        }
    } else {
        assert forall|i: int| p <= i < values.len() implies values[i].0 > a by {
            if i > p {
                assert(values[p].0 < values[i].0);
            }
        }
        if has_b {
            lemma_tally_commute_greater_present(values, a, b, p, q);
        } else {
            assert forall|i: int| q <= i < values.len() implies values[i].0 > b by {
                if i > q {
                    assert(values[q].0 < values[i].0);
                }
            }
            lemma_tally_commute_both_absent(values, a, b, p, q);
        }
    }
}

/// Two observations of values leave the same list in either order.
pub proof fn lemma_tally_commute(values: Seq<(u64, usize)>, a: u64, b: u64)
    requires
        increasing(values),
    ensures
        tally(tally(values, a), b) == tally(tally(values, b), a),
{
    if a < b {
        lemma_tally_commute_ordered(values, a, b);
    } else if b < a {
        lemma_tally_commute_ordered(values, b, a);
    }
}

/// `find_name` is the place of the first entry called `name`.
pub proof fn lemma_find_first<V>(entries: Seq<(Seq<char>, V)>, name: Seq<char>)
    ensures
        0 <= find_name(entries, name) <= entries.len(),
        find_name(entries, name) < entries.len() ==> entries[find_name(entries, name)].0 == name,
        forall|i: int| 0 <= i < find_name(entries, name) ==> entries[i].0 != name,
    decreases entries.len(),
{
    if entries.len() > 0 && entries[0].0 != name {
        let rest = entries.drop_first();
        lemma_find_first(rest, name);
        let place = find_name(rest, name);
        if place < rest.len() {
            assert(rest[place] == entries[place + 1]);
        }
        assert forall|i: int| 0 <= i < place + 1 implies entries[i].0 != name by {
            if i > 0 {
                assert(rest[i - 1] == entries[i]);
            }
        }
    }
}

/// Where a name stands after one more observation in the register `name`:
/// `name` at the place where it stood or at the end, and every other name
/// where it stood, with what it held.
proof fn lemma_find_after_record(
    histogram: HistogramView,
    name: Seq<char>,
    value: u64,
    width: usize,
    other: Seq<char>,
)
    ensures
        ({
            let after = record(histogram, name, value, width);
            let place = find_name(histogram, name);
            let there = find_name(histogram, other);
            &&& 0 <= place <= histogram.len()
            &&& 0 <= there <= histogram.len()
            &&& other == name ==> find_name(after, other) == place && place < after.len()
            &&& other != name && there < histogram.len() ==> find_name(after, other) == there
                && there < after.len() && after[there] == histogram[there]
            &&& other != name && there == histogram.len() ==> find_name(after, other)
                == after.len()
        }),
{
    let after = record(histogram, name, value, width);
    let place = find_name(histogram, name);
    let there = find_name(histogram, other);
    lemma_find_first(histogram, name);
    lemma_find_first(histogram, other);
    if other == name {
        assert forall|i: int| 0 <= i < place implies after[i].0 != other by {
            assert(after[i] == histogram[i]);
        }
        lemma_find_name(after, other, place);
    } else if there < histogram.len() {
        assert forall|i: int| 0 <= i < there implies after[i].0 != other by {
            if i != place {
                assert(after[i] == histogram[i]);
            }
        }
        assert(after[there] == histogram[there]);
        lemma_find_name(after, other, there);
    } else {
        assert forall|i: int| 0 <= i < after.len() implies after[i].0 != other by {
            if i < histogram.len() && i != place {
                assert(after[i] == histogram[i]);
            }
        }
        lemma_find_name(after, other, after.len() as int);
    }
}

/// Read by name, a histogram with one more observation holds what
/// `record_content` says.
pub proof fn lemma_content_record(
    histogram: HistogramView,
    name: Seq<char>,
    value: u64,
    width: usize,
)
    ensures
        histogram_content(record(histogram, name, value, width)) == record_content(
            histogram_content(histogram),
            name,
            value,
            width,
        ),
{
    let after = record(histogram, name, value, width);
    let left = histogram_content(after);
    let right = record_content(histogram_content(histogram), name, value, width);
    assert forall|other: Seq<char>| #[trigger]
        left.dom().contains(other) == right.dom().contains(other) by {
        lemma_find_after_record(histogram, name, value, width, other);
    }
    assert forall|other: Seq<char>| left.dom().contains(other) implies #[trigger] left[other]
        == right[other] by {
        lemma_find_after_record(histogram, name, value, width, other);
    }
    assert(left.dom() =~= right.dom());
    assert(left =~= right);
}

/// Read by name, a histogram after the observations of one shot holds what
/// `record_all_content` says.
pub proof fn lemma_content_record_all(histogram: HistogramView, memory: MemoryView)
    ensures
        histogram_content(record_all(histogram, memory)) == record_all_content(
            histogram_content(histogram),
            memory,
        ),
    decreases memory.len(),
{
    if memory.len() > 0 {
        lemma_content_record_all(histogram, memory.drop_last());
        lemma_content_record(
            record_all(histogram, memory.drop_last()),
            memory.last().0,
            memory.last().1.0,
            memory.last().1.1,
        );
    }
}

/// Where an outcome stands after one more observation of the outcome
/// `key`: `key` at the place where it stood or at the end, and every other
/// outcome where it stood, with its count.
proof fn lemma_find_after_bump(stats: StatsView, key: Seq<char>, other: Seq<char>)
    ensures
        ({
            let after = bump(stats, key);
            let place = find_name(stats, key);
            let there = find_name(stats, other);
            &&& 0 <= place <= stats.len()
            &&& 0 <= there <= stats.len()
            &&& other == key ==> find_name(after, other) == place && place < after.len()
            &&& other != key && there < stats.len() ==> find_name(after, other) == there && there
                < after.len() && after[there] == stats[there]
            &&& other != key && there == stats.len() ==> find_name(after, other) == after.len()
        }),
{
    let after = bump(stats, key);
    let place = find_name(stats, key);
    let there = find_name(stats, other);
    lemma_find_first(stats, key);
    lemma_find_first(stats, other);
    if other == key {
        assert forall|i: int| 0 <= i < place implies after[i].0 != other by {
            assert(after[i] == stats[i]);
        }
        lemma_find_name(after, other, place);
    } else if there < stats.len() {
        assert forall|i: int| 0 <= i < there implies after[i].0 != other by {
            if i != place {
                assert(after[i] == stats[i]);
            }
        }
        assert(after[there] == stats[there]);
        lemma_find_name(after, other, there);
    } else {
        assert forall|i: int| 0 <= i < after.len() implies after[i].0 != other by {
            if i < stats.len() && i != place {
                assert(after[i] == stats[i]);
            }
        }
        lemma_find_name(after, other, after.len() as int);
    }
}

/// Read by outcome, the counts with one more observation hold what
/// `bump_content` says.
pub proof fn lemma_content_bump(stats: StatsView, key: Seq<char>)
    ensures
        stats_content(bump(stats, key)) == bump_content(stats_content(stats), key),
{
    let after = bump(stats, key);
    let left = stats_content(after);
    let right = bump_content(stats_content(stats), key);
    assert forall|other: Seq<char>| #[trigger]
        left.dom().contains(other) == right.dom().contains(other) by {
        lemma_find_after_bump(stats, key, other);
    }
    assert forall|other: Seq<char>| left.dom().contains(other) implies #[trigger] left[other]
        == right[other] by {
        lemma_find_after_bump(stats, key, other);
    }
    assert(left.dom() =~= right.dom());
    assert(left =~= right);
}

/// Read by name, an ordered histogram holds increasing lists.
pub proof fn lemma_content_ordered(histogram: HistogramView)
    requires
        histogram_ordered(histogram),
    ensures
        content_ordered(histogram_content(histogram)),
{
    let content = histogram_content(histogram);
    assert forall|name: Seq<char>| #[trigger] content.contains_key(name) implies increasing(
        content[name].0,
    ) by {
        lemma_find_first(histogram, name);
        assert(increasing(histogram[find_name(histogram, name)].1.0));
    }
}

/// One more observation leaves every list increasing.
pub proof fn lemma_record_content_ordered(
    content: HistogramContent,
    name: Seq<char>,
    value: u64,
    width: usize,
)
    requires
        content_ordered(content),
    ensures
        content_ordered(record_content(content, name, value, width)),
{
    let after = record_content(content, name, value, width);
    if content.contains_key(name) {
        lemma_tally_increasing(content[name].0, value);
    } else {
        lemma_tally_increasing(Seq::empty(), value);
    }
    assert forall|other: Seq<char>| #[trigger] after.contains_key(other) implies increasing(
        after[other].0,
    ) by {
        if other != name {
            assert(content.contains_key(other));
        }
    }
}

/// The observations of one shot leave every list increasing.
pub proof fn lemma_record_all_content_ordered(content: HistogramContent, memory: MemoryView)
    requires
        content_ordered(content),
    ensures
        content_ordered(record_all_content(content, memory)),
    decreases memory.len(),
{
    if memory.len() > 0 {
        lemma_record_all_content_ordered(content, memory.drop_last());
        lemma_record_content_ordered(
            record_all_content(content, memory.drop_last()),
            memory.last().0,
            memory.last().1.0,
            memory.last().1.1,
        );
    }
}

/// Two observations leave the same in either order, unless they are the
/// first of one register and differ in its width.
pub proof fn lemma_record_content_commute(
    content: HistogramContent,
    first: (Seq<char>, (u64, usize, usize)),
    second: (Seq<char>, (u64, usize, usize)),
)
    requires
        content_ordered(content),
        first.0 == second.0 && !content.contains_key(first.0) ==> first.1.1 == second.1.1,
    ensures
        record_content(
            record_content(content, first.0, first.1.0, first.1.1),
            second.0,
            second.1.0,
            second.1.1,
        ) == record_content(
            record_content(content, second.0, second.1.0, second.1.1),
            first.0,
            first.1.0,
            first.1.1,
        ),
{
    let left = record_content(
        record_content(content, first.0, first.1.0, first.1.1),
        second.0,
        second.1.0,
        second.1.1,
    );
    let right = record_content(
        record_content(content, second.0, second.1.0, second.1.1),
        first.0,
        first.1.0,
        first.1.1,
    );
    if first.0 == second.0 {
        if content.contains_key(first.0) {
            lemma_tally_commute(content[first.0].0, first.1.0, second.1.0);
        } else {
            lemma_tally_commute(Seq::empty(), first.1.0, second.1.0);
        }
    }
    assert(left =~= right);
}

/// One observation and the observations of a shot leave the same in either
/// order, where the register of the one is held already or has the same
/// width in the shot.
pub proof fn lemma_record_all_content_commute_one(
    content: HistogramContent,
    memory: MemoryView,
    entry: (Seq<char>, (u64, usize, usize)),
)
    requires
        content_ordered(content),
        forall|i: int|
            0 <= i < memory.len() && (#[trigger] memory[i]).0 == entry.0 && !content.contains_key(
                entry.0,
            ) ==> memory[i].1.1 == entry.1.1,
    ensures
        record_content(
            record_all_content(content, memory),
            entry.0,
            entry.1.0,
            entry.1.1,
        ) == record_all_content(
            record_content(content, entry.0, entry.1.0, entry.1.1),
            memory,
        ),
    decreases memory.len(),
{
    if memory.len() > 0 {
        let shorter = memory.drop_last();
        let last = memory.last();
        assert forall|i: int|
            0 <= i < shorter.len() && (#[trigger] shorter[i]).0 == entry.0
                && !content.contains_key(entry.0) implies shorter[i].1.1 == entry.1.1 by {
            assert(shorter[i] == memory[i]);
        }
        lemma_record_all_content_commute_one(content, shorter, entry);
        lemma_record_all_content_ordered(content, shorter);
        assert(last == memory[memory.len() - 1]);
        if content.contains_key(entry.0) {
            lemma_record_all_content_keeps(content, shorter, entry.0);
        }
        lemma_record_content_commute(record_all_content(content, shorter), last, entry);
    }
}

/// The observations of two shots leave the same in either order, where a
/// register that stands in both is held already or has the same width in
/// both.
pub proof fn lemma_record_all_content_commute(
    content: HistogramContent,
    first: MemoryView,
    second: MemoryView,
)
    requires
        content_ordered(content),
        same_widths(content, first, second),
    ensures
        record_all_content(record_all_content(content, first), second) == record_all_content(
            record_all_content(content, second),
            first,
        ),
    decreases second.len(),
{
    if second.len() > 0 {
        let shorter = second.drop_last();
        let last = second.last();
        assert(last == second[second.len() - 1]);
        assert forall|i: int, j: int|
            0 <= i < first.len() && 0 <= j < shorter.len() && (#[trigger] first[i]).0 == (
            #[trigger] shorter[j]).0 && !content.contains_key(first[i].0) implies first[i].1.1
                == shorter[j].1.1 by {
            assert(shorter[j] == second[j]);
        }
        lemma_record_all_content_commute(content, first, shorter);
        lemma_record_all_content_ordered(content, shorter);
        let so_far = record_all_content(content, shorter);
        assert forall|i: int|
            0 <= i < first.len() && (#[trigger] first[i]).0 == last.0 && !so_far.contains_key(
                last.0,
            ) implies first[i].1.1 == last.1.1 by {
            if content.contains_key(last.0) {
                lemma_record_all_content_keeps(content, shorter, last.0);
            }
        }
        lemma_record_all_content_commute_one(so_far, first, last);
    }
}

/// Two observations of joint outcomes leave the same counts in either
/// order.
pub proof fn lemma_bump_content_commute(content: StatsContent, first: Seq<char>, second: Seq<char>)
    ensures
        bump_content(bump_content(content, first), second) == bump_content(
            bump_content(content, second),
            first,
        ),
{
    assert(bump_content(bump_content(content, first), second) =~= bump_content(
        bump_content(content, second),
        first,
    ));
}

/// Two shots taken in by a builder commute: read by name and by outcome,
/// the histogram and the counts hold the same whichever shot came first,
/// where a register that stands in both shots is held already or has the
/// same width in both. (The width of a register is the one it is first seen
/// with.)
pub proof fn lemma_updates_commute(
    histogram: HistogramView,
    stats: StatsView,
    first: MemoryView,
    second: MemoryView,
)
    requires
        histogram_ordered(histogram),
        same_widths(histogram_content(histogram), first, second),
    ensures
        histogram_content(record_all(record_all(histogram, first), second)) == histogram_content(
            record_all(record_all(histogram, second), first),
        ),
        stats_content(bump(bump(stats, joint_key(first)), joint_key(second))) == stats_content(
            bump(bump(stats, joint_key(second)), joint_key(first)),
        ),
{
    let content = histogram_content(histogram);
    lemma_content_ordered(histogram);
    lemma_content_record_all(histogram, first);
    lemma_content_record_all(record_all(histogram, first), second);
    lemma_content_record_all(histogram, second);
    lemma_content_record_all(record_all(histogram, second), first);
    lemma_record_all_content_commute(content, first, second);
    let counts = stats_content(stats);
    lemma_content_bump(stats, joint_key(first));
    lemma_content_bump(bump(stats, joint_key(first)), joint_key(second));
    lemma_content_bump(stats, joint_key(second));
    lemma_content_bump(bump(stats, joint_key(second)), joint_key(first));
    lemma_bump_content_commute(counts, joint_key(first), joint_key(second));
}

} // verus!
