//! The list of placement-group states and how many groups are in each.

use crate::common::PgStats;
use crate::monitor::data::label::{parse_state, spec_parse_state, Tone};
use vstd::prelude::*;

verus! {

/// How many states the list shows at most.
pub const SHOWN_STATES: usize = 10;

/// A state and the number of groups that are in it.
#[derive(Debug, Clone)]
pub struct StateCount {
    /// The state label.
    pub state: String,
    /// The number of groups with that label.
    pub count: usize,
}

/// The number of groups of `pgs` whose state label is `state`.
pub open spec fn occurrences(pgs: Seq<PgStats>, state: Seq<char>) -> nat
    decreases pgs.len(),
{
    if pgs.len() == 0 {
        0
    } else if pgs.last().state@ == state {
        occurrences(pgs.drop_last(), state) + 1
    } else {
        occurrences(pgs.drop_last(), state)
    }
}

/// The state labels of `pgs`, each once, in the order in which they first
/// occur.
pub open spec fn distinct_states(pgs: Seq<PgStats>) -> Seq<Seq<char>>
    decreases pgs.len(),
{
    if pgs.len() == 0 {
        Seq::empty()
    } else {
        let earlier = distinct_states(pgs.drop_last());
        if earlier.contains(pgs.last().state@) {
            earlier
        } else {
            earlier.push(pgs.last().state@)
        }
    }
}

/// Whether `counts` lists the states of `pgs`, each once, in the order in
/// which they first occur, each with the number of groups that are in it.
pub open spec fn counts_states(counts: Seq<StateCount>, pgs: Seq<PgStats>) -> bool {
    &&& counts.len() == distinct_states(pgs).len()
    &&& forall|k: int|
        0 <= k < counts.len() ==> (#[trigger] counts[k]).state@ == distinct_states(pgs)[k]
            && counts[k].count == occurrences(pgs, counts[k].state@)
}

/// There are no more groups in a state than there are groups.
pub proof fn lemma_occurrences_bounded(pgs: Seq<PgStats>, state: Seq<char>)
    ensures
        occurrences(pgs, state) <= pgs.len(),
    decreases pgs.len(),
{
    if pgs.len() > 0 {
        lemma_occurrences_bounded(pgs.drop_last(), state);
    }
}

/// A state is listed where a group is in it, and no state is listed twice.
pub proof fn lemma_distinct_states(pgs: Seq<PgStats>)
    ensures
        forall|k: int| 0 <= k < pgs.len() ==> distinct_states(pgs).contains((#[trigger] pgs[k]).state@),
        forall|i: int, j: int|
            0 <= i < j < distinct_states(pgs).len() ==> distinct_states(pgs)[i] != distinct_states(
                pgs,
            )[j],
        forall|i: int|
            0 <= i < distinct_states(pgs).len() ==> occurrences(
                pgs,
                #[trigger] distinct_states(pgs)[i],
            ) > 0,
        distinct_states(pgs).len() <= pgs.len(),
    decreases pgs.len(),
{
    if pgs.len() > 0 {
        let front = pgs.drop_last();
        let earlier = distinct_states(front);
        let all = distinct_states(pgs);
        lemma_distinct_states(front);
        assert forall|k: int| 0 <= k < pgs.len() implies all.contains(
            (#[trigger] pgs[k]).state@,
        ) by {
            if k < front.len() {
                assert(front[k] == pgs[k]);
                let j = choose|j: int| 0 <= j < earlier.len() && earlier[j] == pgs[k].state@;
                assert(all[j] == pgs[k].state@);
            } else if earlier.contains(pgs.last().state@) {
            } else {
                assert(all[all.len() - 1] == pgs[k].state@);
            }
        }
        assert forall|i: int| 0 <= i < all.len() implies occurrences(pgs, #[trigger] all[i])
            > 0 by {
            if i < earlier.len() {
                assert(all[i] == earlier[i]);
                assert(occurrences(front, earlier[i]) > 0);
            }
        }
    }
}

/// Where `state` stands among `counts`, if it does.
fn find_state(counts: &Vec<StateCount>, state: &String) -> (at: Option<usize>)
    ensures
        match at {
            Some(k) => k < counts@.len() && counts@[k as int].state@ == state@,
            None => forall|k: int| 0 <= k < counts@.len() ==> (#[trigger] counts@[k]).state@ != state@,
        },
{
    let mut i: usize = 0;
    while i < counts.len()
        invariant
            i <= counts.len(),
            forall|k: int| 0 <= k < i ==> (#[trigger] counts@[k]).state@ != state@,
        decreases counts.len() - i,
    {
        if counts[i].state == *state {
            return Some(i);
        }
        i = i + 1;
    }
    None
}

/// The states of `pg_stats`, each once, in the order in which they first
/// occur, each with the number of groups that are in it.
pub fn count_pg_states(pg_stats: &Vec<PgStats>) -> (counts: Vec<StateCount>)
    ensures
        counts_states(counts@, pg_stats@),
{
    let mut counts: Vec<StateCount> = Vec::new();
    let mut i: usize = 0;
    assert(pg_stats@.subrange(0, 0) =~= Seq::<PgStats>::empty());
    while i < pg_stats.len()
        invariant
            i <= pg_stats.len(),
            counts_states(counts@, pg_stats@.subrange(0, i as int)),
        decreases pg_stats.len() - i,
    {
        let ghost done = pg_stats@.subrange(0, i as int);
        let ghost next = pg_stats@.subrange(0, i + 1);
        let ghost before = counts@;
        let ghost label = pg_stats@[i as int].state@;
        proof {
            assert(next.drop_last() =~= done);
            assert(next.last() == pg_stats@[i as int]);
            lemma_distinct_states(done);
        }
        match find_state(&counts, &pg_stats[i].state) {
            Some(k) => {
                proof {
                    lemma_occurrences_bounded(done, label);
                    assert(distinct_states(done)[k as int] == label);
                    assert(distinct_states(done).contains(label));
                }
                counts[k].count = counts[k].count + 1;
                proof {
                    assert forall|j: int| 0 <= j < counts@.len() implies (
                    #[trigger] counts@[j]).state@ == distinct_states(next)[j] && counts@[j].count
                        == occurrences(next, counts@[j].state@) by {
                        if j != k {
                            assert(counts@[j] == before[j]);
                            assert(before[j].state@ == distinct_states(done)[j]);
                            assert(distinct_states(done)[j] != distinct_states(done)[k as int]);
                        }
                    }
                }
            },
            None => {
                proof {
                    if distinct_states(done).contains(label) {
                        let j = choose|j: int|
                            0 <= j < distinct_states(done).len() && distinct_states(done)[j]
                                == label;
                        assert(before[j].state@ == label);
                    }
                    lemma_occurrences_none(done, label);
                }
                counts.push(StateCount { state: pg_stats[i].state.clone(), count: 1 });
                proof {
                    assert forall|j: int| 0 <= j < counts@.len() implies (
                    #[trigger] counts@[j]).state@ == distinct_states(next)[j] && counts@[j].count
                        == occurrences(next, counts@[j].state@) by {
                        if j < before.len() {
                            assert(counts@[j] == before[j]);
                            assert(before[j].state@ == distinct_states(done)[j]);
                            assert(distinct_states(done).contains(before[j].state@));
                        }
                    }
                }
            },
        }
        i = i + 1;
    }
    assert(pg_stats@.subrange(0, i as int) =~= pg_stats@);
    counts
}

/// No group is in a state that is not listed.
proof fn lemma_occurrences_none(pgs: Seq<PgStats>, state: Seq<char>)
    requires
        !distinct_states(pgs).contains(state),
    ensures
        occurrences(pgs, state) == 0,
    decreases pgs.len(),
{
    if pgs.len() > 0 {
        let front = pgs.drop_last();
        let earlier = distinct_states(front);
        let all = distinct_states(pgs);
        if earlier.contains(state) {
            let j = choose|j: int| 0 <= j < earlier.len() && earlier[j] == state;
            assert(all[j] == state);
        }
        if pgs.last().state@ == state {
            if earlier.contains(state) {
            } else {
                assert(all[all.len() - 1] == state);
            }
        }
        lemma_occurrences_none(front, state);
    }
}

/// The number of lines that the list of states takes: a line for each state
/// that a group is in, and ten at most.
pub fn count_unique_pg_states(pg_stats: &Vec<PgStats>) -> (shown: usize)
    ensures
        shown == if distinct_states(pg_stats@).len() < SHOWN_STATES {
            distinct_states(pg_stats@).len()
        } else {
            SHOWN_STATES as nat
        },
{
    let counts = count_pg_states(pg_stats);
    if counts.len() < SHOWN_STATES {
        counts.len()
    } else {
        SHOWN_STATES
    }
}

/// Whether the state at `a` stands above the state at `b` in the list: the
/// state with more groups in it, and of two states with as many groups the
/// one that occurs first.
pub open spec fn ranks_before(pgs: Seq<PgStats>, a: int, b: int) -> bool {
    let states = distinct_states(pgs);
    occurrences(pgs, states[a]) > occurrences(pgs, states[b]) || (occurrences(pgs, states[a])
        == occurrences(pgs, states[b]) && a < b)
}

/// `order` names each of the first `count` states of `pgs` once, the states
/// with most groups first.
pub open spec fn ranked(pgs: Seq<PgStats>, order: Seq<usize>, count: int) -> bool {
    &&& order.len() == count
    &&& forall|i: int| 0 <= i < order.len() ==> 0 <= #[trigger] order[i] < count
    &&& forall|i: int, j: int|
        0 <= i < j < order.len() ==> ranks_before(pgs, order[i] as int, order[j] as int)
}

/// The order in which the states are shown: the states with most groups
/// first.
fn pg_state_order(counts: &Vec<StateCount>, Ghost(pgs): Ghost<Seq<PgStats>>) -> (order: Vec<usize>)
    requires
        counts_states(counts@, pgs),
    ensures
        ranked(pgs, order@, counts@.len() as int),
{
    let mut order: Vec<usize> = Vec::new();
    let mut next: usize = 0;
    while next < counts.len()
        invariant
            next <= counts.len(),
            counts_states(counts@, pgs),
            ranked(pgs, order@, next as int),
        decreases counts.len() - next,
    {
        let ghost before = order@;
        let mut at: usize = 0;
        while at < order.len() && counts[order[at]].count >= counts[next].count
            invariant
                at <= order.len(),
                order@ == before,
                next < counts.len(),
                counts_states(counts@, pgs),
                ranked(pgs, before, next as int),
                forall|i: int|
                    0 <= i < at ==> counts@[#[trigger] before[i] as int].count
                        >= counts@[next as int].count,
            decreases order.len() - at,
        {
            at = at + 1;
        }
        order.insert(at, next);
        proof {
            let after = order@;
            assert forall|i: int| 0 <= i < after.len() implies 0 <= #[trigger] after[i] < next
                + 1 by {
                if i < at {
                    assert(after[i] == before[i]);
                } else if i > at {
                    assert(after[i] == before[i - 1]);
                }
            }
            assert forall|i: int, j: int| 0 <= i < j < after.len() implies ranks_before(
                pgs,
                after[i] as int,
                after[j] as int,
            ) by {
                assert(counts@[after[i] as int].count == occurrences(
                    pgs,
                    distinct_states(pgs)[after[i] as int],
                ));
                assert(counts@[after[j] as int].count == occurrences(
                    pgs,
                    distinct_states(pgs)[after[j] as int],
                ));
                if j < at {
                    assert(after[i] == before[i] && after[j] == before[j]);
                } else if j == at {
                    assert(after[i] == before[i]);
                    assert(before[i] < next);
                } else if i == at {
                    assert(after[j] == before[j - 1]);
                    assert(counts@[before[at as int] as int].count < counts@[next as int].count);
                    assert(counts@[before[at as int] as int].count == occurrences(
                        pgs,
                        distinct_states(pgs)[before[at as int] as int],
                    ));
                    if at < j - 1 {
                        assert(ranks_before(pgs, before[at as int] as int, before[j - 1] as int));
                    }
                } else if i < at {
                    assert(after[i] == before[i] && after[j] == before[j - 1]);
                } else {
                    assert(after[i] == before[i - 1] && after[j] == before[j - 1]);
                }
            }
        }
        next = next + 1;
    }
    order
}

/// One line of the list of states.
#[derive(Debug, Clone)]
pub struct StateRow {
    /// The number of groups in the state.
    pub count: usize,
    /// The state label.
    pub state: String,
    /// How the state is shown.
    pub tone: Tone,
}

/// The lines of the list of states: the ten states with most groups in
/// them, or all where there are fewer, the state with most groups first and
/// of two states with as many groups the one that occurs first. Each line
/// has the state's label, the number of groups in it, and the tone that the
/// label calls for.
pub fn pg_state_rows(pg_stats: &Vec<PgStats>) -> (rows: Vec<StateRow>)
    ensures
        rows@.len() == if distinct_states(pg_stats@).len() < SHOWN_STATES {
            distinct_states(pg_stats@).len()
        } else {
            SHOWN_STATES as nat
        },
        exists|order: Seq<usize>|
            ranked(pg_stats@, order, distinct_states(pg_stats@).len() as int) && forall|i: int|
                0 <= i < rows@.len() ==> (#[trigger] rows@[i]).state@ == distinct_states(
                    pg_stats@,
                )[order[i] as int] && rows@[i].count == occurrences(pg_stats@, rows@[i].state@)
                    && rows@[i].tone == spec_parse_state(rows@[i].state@).spec_tone(),
{
    let counts = count_pg_states(pg_stats);
    let order = pg_state_order(&counts, Ghost(pg_stats@));
    let shown: usize = if order.len() < SHOWN_STATES {
        order.len()
    } else {
        SHOWN_STATES
    };
    let mut rows: Vec<StateRow> = Vec::new();
    let mut i: usize = 0;
    while i < shown
        invariant
            i <= shown <= order.len(),
            counts_states(counts@, pg_stats@),
            ranked(pg_stats@, order@, counts@.len() as int),
            rows@.len() == i,
            forall|k: int|
                0 <= k < i ==> (#[trigger] rows@[k]).state@ == distinct_states(
                    pg_stats@,
                )[order@[k] as int] && rows@[k].count == occurrences(pg_stats@, rows@[k].state@)
                    && rows@[k].tone == spec_parse_state(rows@[k].state@).spec_tone(),
        decreases shown - i,
    {
        let entry = &counts[order[i]];
        let tone = parse_state(entry.state.as_str()).tone();
        rows.push(StateRow { count: entry.count, state: entry.state.clone(), tone });
        i = i + 1;
    }
    rows
}

} // verus!
