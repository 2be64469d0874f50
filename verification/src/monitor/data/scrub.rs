//! Scrub progress of the placement groups that are flagged inconsistent.
//!
//! A group is followed from the poll in which its state first holds
//! `inconsistent` to the last poll in which it does. A group that comes back
//! later starts over.

use crate::common::{InconsistentPgProgress, PgStats};
use crate::monitor::data::estimator::{
    counter_rate, eta_to_goal, spec_counter_rate, spec_eta_to_goal, Rate,
};
use crate::monitor::data::history::{record, recorded, HISTORY_SIZE};
use crate::monitor::data::label::{label_holds, spec_parse_state};
use vstd::prelude::*;

verus! {

/// What a record of scrub progress says, in plain values.
pub struct ProgressView {
    pub pgid: Seq<char>,
    pub num_objects: i64,
    pub primary_osd: u32,
    pub up_osds: Seq<u32>,
    pub state: Seq<char>,
    pub objects_scrubbed: u64,
    pub scrubbed_history: Seq<u64>,
    pub scrub_rate: Option<Rate>,
    pub eta_seconds: Option<u64>,
}

impl View for InconsistentPgProgress {
    type V = ProgressView;

    open spec fn view(&self) -> ProgressView {
        ProgressView {
            pgid: self.pgid@,
            num_objects: self.num_objects,
            primary_osd: self.primary_osd,
            up_osds: self.up_osds@,
            state: self.state@,
            objects_scrubbed: self.objects_scrubbed,
            scrubbed_history: self.scrubbed_history@,
            scrub_rate: self.scrub_rate,
            eta_seconds: self.eta_seconds,
        }
    }
}

/// What each record of `records` says.
pub open spec fn views(records: Seq<InconsistentPgProgress>) -> Seq<ProgressView> {
    Seq::new(records.len(), |k: int| records[k]@)
}

/// Whether the group's state holds `inconsistent`.
pub open spec fn is_inconsistent(pg: PgStats) -> bool {
    spec_parse_state(pg.state@).inconsistent
}

/// The objects scrubbed so far: none where the cluster does not say.
pub open spec fn scrubbed_so_far(pg: PgStats) -> u64 {
    match pg.objects_scrubbed {
        Some(n) => n,
        None => 0,
    }
}

/// What a scrub has to cover: the group's object copies, none where the
/// count is below zero.
pub open spec fn scrub_goal(num_objects: i64) -> nat {
    if num_objects > 0 {
        num_objects as nat
    } else {
        0
    }
}

/// Where the first record about `pgid` stands, if there is one.
pub open spec fn index_of(records: Seq<ProgressView>, pgid: Seq<char>) -> Option<int>
    decreases records.len(),
{
    if records.len() == 0 {
        None
    } else {
        match index_of(records.drop_last(), pgid) {
            Some(k) => Some(k),
            None => if records.last().pgid == pgid {
                Some(records.len() - 1)
            } else {
                None
            },
        }
    }
}

/// Whether a record of `records` is about `pgid`.
pub open spec fn on_record(records: Seq<ProgressView>, pgid: Seq<char>) -> bool {
    exists|k: int| 0 <= k < records.len() && (#[trigger] records[k]).pgid == pgid
}

/// The record that a group starts with at its first inconsistent poll:
/// nothing is recorded in it yet.
pub open spec fn blank(pgid: Seq<char>) -> ProgressView {
    ProgressView {
        pgid,
        num_objects: 0,
        primary_osd: 0,
        up_osds: Seq::empty(),
        state: Seq::empty(),
        objects_scrubbed: 0,
        scrubbed_history: Seq::empty(),
        scrub_rate: None,
        eta_seconds: None,
    }
}

/// The rate at which the scrub count rises, while the window of its history
/// shows a rise.
pub open spec fn rising_rate(history: Seq<u64>, interval: nat) -> Option<Rate> {
    let rate = spec_counter_rate(history, interval);
    if rate.rises() {
        Some(rate)
    } else {
        None
    }
}

/// A record brought up to what the snapshot says of its group: the group's
/// object copies and state are taken over, and so is its current node set,
/// the nodes that hold the group now, with the primary of that set; the
/// scrub count goes into the history, and the rate and the remaining time
/// are those of the new history.
pub open spec fn refreshed(r: ProgressView, pg: PgStats, interval: nat) -> ProgressView {
    let history = recorded(r.scrubbed_history, scrubbed_so_far(pg), HISTORY_SIZE as nat);
    ProgressView {
        pgid: r.pgid,
        num_objects: pg.stat_sum.num_object_copies,
        primary_osd: pg.acting_primary,
        up_osds: pg.acting@,
        state: pg.state@,
        objects_scrubbed: scrubbed_so_far(pg),
        scrubbed_history: history,
        scrub_rate: rising_rate(history, interval),
        eta_seconds: spec_eta_to_goal(
            scrubbed_so_far(pg) as nat,
            scrub_goal(pg.stat_sum.num_object_copies),
            spec_counter_rate(history, interval),
        ),
    }
}

/// The records after one group of the snapshot has been looked at: a group
/// that is inconsistent has its record refreshed, or begun at the end where
/// it had none; any other group changes nothing.
pub open spec fn scrub_step(records: Seq<ProgressView>, pg: PgStats, interval: nat) -> Seq<
    ProgressView,
> {
    if !is_inconsistent(pg) {
        records
    } else {
        match index_of(records, pg.pgid@) {
            Some(k) => records.update(k, refreshed(records[k], pg, interval)),
            None => records.push(refreshed(blank(pg.pgid@), pg, interval)),
        }
    }
}

/// The records after every group of `pgs` has been looked at, in order.
pub open spec fn scrub_fold(records: Seq<ProgressView>, pgs: Seq<PgStats>, interval: nat) -> Seq<
    ProgressView,
>
    decreases pgs.len(),
{
    if pgs.len() == 0 {
        records
    } else {
        scrub_step(scrub_fold(records, pgs.drop_last(), interval), pgs.last(), interval)
    }
}

/// Whether a group of `pgs` with the identifier `pgid` is inconsistent.
pub open spec fn still_inconsistent(pgs: Seq<PgStats>, pgid: Seq<char>) -> bool {
    exists|k: int| 0 <= k < pgs.len() && is_inconsistent(#[trigger] pgs[k]) && pgs[k].pgid@ == pgid
}

/// The records whose group is inconsistent in `pgs`, in their order.
pub open spec fn retained(records: Seq<ProgressView>, pgs: Seq<PgStats>) -> Seq<ProgressView>
    decreases records.len(),
{
    if records.len() == 0 {
        records
    } else {
        let rest = retained(records.drop_last(), pgs);
        if still_inconsistent(pgs, records.last().pgid) {
            rest.push(records.last())
        } else {
            rest
        }
    }
}

/// No two records are about the same group.
pub open spec fn distinct_groups(records: Seq<ProgressView>) -> bool {
    forall|i: int, j: int|
        0 <= i < j < records.len() ==> (#[trigger] records[i]).pgid != (#[trigger] records[j]).pgid
}

/// The records without repeats: of the records about one group only the
/// first is kept.
pub open spec fn first_of_each_group(records: Seq<ProgressView>) -> Seq<ProgressView>
    decreases records.len(),
{
    if records.len() == 0 {
        records
    } else {
        let front = first_of_each_group(records.drop_last());
        if on_record(records.drop_last(), records.last().pgid) {
            front
        } else {
            front.push(records.last())
        }
    }
}

/// The records after a poll: a record of a group that has an earlier record
/// is dropped first; then every inconsistent group of the snapshot is taken
/// in, and the records of all other groups are gone.
pub open spec fn progress_after(before: Seq<ProgressView>, pgs: Seq<PgStats>, interval: nat) -> Seq<
    ProgressView,
> {
    retained(scrub_fold(first_of_each_group(before), pgs, interval), pgs)
}

/// `index_of` finds the first record about `pgid`.
pub proof fn lemma_index_of_first(records: Seq<ProgressView>, pgid: Seq<char>, k: int)
    requires
        0 <= k < records.len(),
        records[k].pgid == pgid,
        forall|j: int| 0 <= j < k ==> (#[trigger] records[j]).pgid != pgid,
    ensures
        index_of(records, pgid) == Some(k),
    decreases records.len(),
{
    let front = records.drop_last();
    if k == records.len() - 1 {
        assert forall|j: int| 0 <= j < front.len() implies (#[trigger] front[j]).pgid != pgid by {
            assert(front[j] == records[j]);
        }
        lemma_index_of_none(front, pgid);
    } else {
        assert(front[k] == records[k]);
        assert forall|j: int| 0 <= j < k implies (#[trigger] front[j]).pgid != pgid by {
            assert(front[j] == records[j]);
        }
        lemma_index_of_first(front, pgid, k);
    }
}

/// `index_of` finds nothing where no record is about `pgid`.
pub proof fn lemma_index_of_none(records: Seq<ProgressView>, pgid: Seq<char>)
    requires
        forall|j: int| 0 <= j < records.len() ==> (#[trigger] records[j]).pgid != pgid,
    ensures
        index_of(records, pgid) is None,
    decreases records.len(),
{
    if records.len() > 0 {
        let front = records.drop_last();
        assert forall|j: int| 0 <= j < front.len() implies (#[trigger] front[j]).pgid != pgid by {
            assert(front[j] == records[j]);
        }
        lemma_index_of_none(front, pgid);
    }
}

/// What `index_of` finds is a record about `pgid`, and a record about
/// `pgid` is found.
pub proof fn lemma_index_of_found(records: Seq<ProgressView>, pgid: Seq<char>)
    ensures
        match index_of(records, pgid) {
            Some(k) => 0 <= k < records.len() && records[k].pgid == pgid,
            None => !on_record(records, pgid),
        },
    decreases records.len(),
{
    if records.len() > 0 {
        let front = records.drop_last();
        lemma_index_of_found(front, pgid);
        match index_of(front, pgid) {
            Some(k) => {
                assert(front[k] == records[k]);
            },
            None => {
                if records.last().pgid != pgid {
                    assert forall|j: int| 0 <= j < records.len() implies (
                    #[trigger] records[j]).pgid != pgid by {
                        if j < front.len() {
                            assert(front[j] == records[j]);
                        }
                    }
                }
            },
        }
    }
}

/// What one more group adds to the fold.
proof fn lemma_fold_next(records: Seq<ProgressView>, pgs: Seq<PgStats>, i: int, interval: nat)
    requires
        0 <= i < pgs.len(),
    ensures
        scrub_fold(records, pgs.subrange(0, i + 1), interval) == scrub_step(
            scrub_fold(records, pgs.subrange(0, i), interval),
            pgs[i],
            interval,
        ),
{
    let next = pgs.subrange(0, i + 1);
    assert(next.drop_last() =~= pgs.subrange(0, i));
    assert(next.last() == pgs[i]);
}

/// What one more record adds to the records that are retained.
proof fn lemma_retained_next(records: Seq<ProgressView>, pgs: Seq<PgStats>, j: int)
    requires
        0 <= j < records.len(),
    ensures
        retained(records.subrange(0, j + 1), pgs) == if still_inconsistent(pgs, records[j].pgid) {
            retained(records.subrange(0, j), pgs).push(records[j])
        } else {
            retained(records.subrange(0, j), pgs)
        },
{
    let next = records.subrange(0, j + 1);
    assert(next.drop_last() =~= records.subrange(0, j));
    assert(next.last() == records[j]);
}

/// Where the first record about `pgid` stands, if there is one.
fn find_record(records: &Vec<InconsistentPgProgress>, pgid: &String) -> (at: Option<usize>)
    ensures
        match at {
            Some(k) => k < records@.len() && index_of(views(records@), pgid@) == Some(k as int),
            None => index_of(views(records@), pgid@) is None,
        },
{
    let mut i: usize = 0;
    while i < records.len()
        invariant
            i <= records.len(),
            forall|j: int| 0 <= j < i ==> (#[trigger] views(records@)[j]).pgid != pgid@,
        decreases records.len() - i,
    {
        if records[i].pgid == *pgid {
            proof {
                assert(views(records@)[i as int].pgid == pgid@);
                lemma_index_of_first(views(records@), pgid@, i as int);
            }
            return Some(i);
        }
        assert(views(records@)[i as int].pgid != pgid@);
        i = i + 1;
    }
    proof {
        lemma_index_of_none(views(records@), pgid@);
    }
    None
}

/// A copy of `nodes`.
fn copy_nodes(nodes: &Vec<u32>) -> (copy: Vec<u32>)
    ensures
        copy@ == nodes@,
{
    let mut copy: Vec<u32> = Vec::new();
    let mut i: usize = 0;
    while i < nodes.len()
        invariant
            i <= nodes.len(),
            copy@ == nodes@.subrange(0, i as int),
        decreases nodes.len() - i,
    {
        copy.push(nodes[i]);
        i = i + 1;
        assert(copy@ =~= nodes@.subrange(0, i as int));
    }
    assert(copy@ =~= nodes@);
    copy
}

/// A copy of `samples`.
fn copy_counts(samples: &Vec<u64>) -> (copy: Vec<u64>)
    ensures
        copy@ == samples@,
{
    let mut copy: Vec<u64> = Vec::new();
    let mut i: usize = 0;
    while i < samples.len()
        invariant
            i <= samples.len(),
            copy@ == samples@.subrange(0, i as int),
        decreases samples.len() - i,
    {
        copy.push(samples[i]);
        i = i + 1;
        assert(copy@ =~= samples@.subrange(0, i as int));
    }
    assert(copy@ =~= samples@);
    copy
}

/// Brings a record up to what the snapshot says of its group.
fn refresh(r: &mut InconsistentPgProgress, pg: &PgStats, interval: u64)
    ensures
        final(r)@ == refreshed(old(r)@, *pg, interval as nat),
{
    let scrubbed: u64 = match pg.objects_scrubbed {
        Some(n) => n,
        None => 0,
    };
    let copies: i64 = pg.stat_sum.num_object_copies;
    let goal: u64 = if copies > 0 {
        copies as u64
    } else {
        0
    };
    r.num_objects = copies;
    r.primary_osd = pg.acting_primary;
    r.up_osds = copy_nodes(&pg.acting);
    r.state = pg.state.clone();
    r.objects_scrubbed = scrubbed;
    record(&mut r.scrubbed_history, scrubbed, HISTORY_SIZE);
    let rate = counter_rate(&r.scrubbed_history, interval);
    r.scrub_rate = if rate.amount > 0 && rate.seconds > 0 && rate.rising {
        Some(rate)
    } else {
        None
    };
    r.eta_seconds = eta_to_goal(scrubbed, goal, rate);
}

/// Looks at one group of the snapshot: an inconsistent group has its record
/// refreshed, or begun at the end where it had none.
fn take_in(records: &mut Vec<InconsistentPgProgress>, pg: &PgStats, interval: u64) -> (flagged: bool)
    ensures
        flagged == is_inconsistent(*pg),
        views(final(records)@) == scrub_step(views(old(records)@), *pg, interval as nat),
{
    let ghost before = views(records@);
    if !label_holds(pg.state.as_str(), "inconsistent") {
        return false;
    }
    match find_record(records, &pg.pgid) {
        Some(k) => {
            refresh(&mut records[k], pg, interval);
            assert(views(records@) =~= before.update(
                k as int,
                refreshed(before[k as int], *pg, interval as nat),
            ));
        },
        None => {
            let mut fresh = InconsistentPgProgress {
                pgid: pg.pgid.clone(),
                num_objects: 0,
                primary_osd: 0,
                up_osds: Vec::new(),
                state: String::new(),
                objects_scrubbed: 0,
                scrubbed_history: Vec::new(),
                scrub_rate: None,
                eta_seconds: None,
            };
            assert(fresh@ == blank(pg.pgid@));
            refresh(&mut fresh, pg, interval);
            records.push(fresh);
            assert(views(records@) =~= before.push(
                refreshed(blank(pg.pgid@), *pg, interval as nat),
            ));
        },
    }
    true
}

/// Whether a group of `pgs` with the identifier `pgid` is inconsistent,
/// given which groups are.
fn inconsistent_now(pgs: &Vec<PgStats>, flags: &Vec<bool>, pgid: &String) -> (found: bool)
    requires
        flags@.len() == pgs@.len(),
        forall|k: int| 0 <= k < pgs@.len() ==> flags@[k] == is_inconsistent(#[trigger] pgs@[k]),
    ensures
        found == still_inconsistent(pgs@, pgid@),
{
    let mut i: usize = 0;
    while i < pgs.len()
        invariant
            i <= pgs.len(),
            flags@.len() == pgs@.len(),
            forall|k: int| 0 <= k < pgs@.len() ==> flags@[k] == is_inconsistent(#[trigger] pgs@[k]),
            forall|k: int|
                0 <= k < i ==> !(is_inconsistent(#[trigger] pgs@[k]) && pgs@[k].pgid@ == pgid@),
        decreases pgs.len() - i,
    {
        if flags[i] && pgs[i].pgid == *pgid {
            assert(is_inconsistent(pgs@[i as int]) && pgs@[i as int].pgid@ == pgid@);
            return true;
        }
        i = i + 1;
    }
    false
}

/// Drops the records whose group is not inconsistent in `pgs`.
fn drop_consistent(records: &mut Vec<InconsistentPgProgress>, pgs: &Vec<PgStats>, flags: &Vec<bool>)
    requires
        flags@.len() == pgs@.len(),
        forall|k: int| 0 <= k < pgs@.len() ==> flags@[k] == is_inconsistent(#[trigger] pgs@[k]),
    ensures
        views(final(records)@) == retained(views(old(records)@), pgs@),
{
    let ghost all = views(records@);
    let mut done: usize = 0;
    let mut seen: Ghost<int> = Ghost(0);
    assert(views(records@).subrange(0, 0) =~= retained(all.subrange(0, 0), pgs@));
    while done < records.len()
        invariant
            flags@.len() == pgs@.len(),
            forall|k: int| 0 <= k < pgs@.len() ==> flags@[k] == is_inconsistent(#[trigger] pgs@[k]),
            done <= records@.len(),
            0 <= seen@ <= all.len(),
            records@.len() - done == all.len() - seen@,
            views(records@).subrange(0, done as int) == retained(all.subrange(0, seen@), pgs@),
            views(records@).subrange(done as int, records@.len() as int) == all.subrange(
                seen@,
                all.len() as int,
            ),
        decreases records@.len() - done,
    {
        let ghost current = views(records@);
        proof {
            lemma_retained_next(all, pgs@, seen@);
            assert(current[done as int] == current.subrange(done as int, current.len() as int)[0]);
            assert(current[done as int] == all[seen@]);
        }
        let ghost tail = current.subrange(done as int, current.len() as int);
        let ghost rest = all.subrange(seen@, all.len() as int);
        proof {
            assert(all.subrange(seen@ + 1, all.len() as int) =~= rest.subrange(
                1,
                rest.len() as int,
            ));
        }
        if inconsistent_now(pgs, flags, &records[done].pgid) {
            proof {
                assert(current.subrange(0, done + 1) =~= current.subrange(0, done as int).push(
                    current[done as int],
                ));
                assert(current.subrange(done + 1, current.len() as int) =~= tail.subrange(
                    1,
                    tail.len() as int,
                ));
            }
            done = done + 1;
        } else {
            records.remove(done);
            proof {
                let after = views(records@);
                assert(after.subrange(0, done as int) =~= current.subrange(0, done as int));
                assert(after.subrange(done as int, after.len() as int) =~= tail.subrange(
                    1,
                    tail.len() as int,
                ));
            }
        }
        proof {
            seen@ = seen@ + 1;
        }
    }
    assert(views(records@).subrange(0, done as int) =~= views(records@));
    assert(all.subrange(0, seen@) =~= all);
}

/// What one more record adds to the records without repeats.
proof fn lemma_first_of_each_group_next(records: Seq<ProgressView>, i: int)
    requires
        0 <= i < records.len(),
    ensures
        first_of_each_group(records.subrange(0, i + 1)) == if on_record(
            records.subrange(0, i),
            records[i].pgid,
        ) {
            first_of_each_group(records.subrange(0, i))
        } else {
            first_of_each_group(records.subrange(0, i)).push(records[i])
        },
{
    let next = records.subrange(0, i + 1);
    assert(next.drop_last() =~= records.subrange(0, i));
    assert(next.last() == records[i]);
}

/// Without repeats no two records are about the same group, the groups on
/// record are those that were, and every record is one of the records that
/// were there. Records that had no repeats are left as they are.
pub proof fn lemma_first_of_each_group(records: Seq<ProgressView>)
    ensures
        distinct_groups(first_of_each_group(records)),
        forall|pgid: Seq<char>|
            on_record(first_of_each_group(records), pgid) <==> on_record(records, pgid),
        first_of_each_group(records).len() <= records.len(),
        forall|k: int|
            0 <= k < first_of_each_group(records).len() ==> records.contains(
                #[trigger] first_of_each_group(records)[k],
            ),
        distinct_groups(records) ==> first_of_each_group(records) == records,
    decreases records.len(),
{
    if records.len() > 0 {
        let front = records.drop_last();
        let last = records.last();
        let kept = first_of_each_group(front);
        let all = first_of_each_group(records);
        lemma_first_of_each_group(front);
        assert forall|pgid: Seq<char>| on_record(all, pgid) <==> on_record(records, pgid) by {
            assert(on_record(kept, pgid) <==> on_record(front, pgid));
            if on_record(front, pgid) {
                let k = choose|k: int| 0 <= k < front.len() && front[k].pgid == pgid;
                assert(records[k].pgid == pgid);
            }
            if on_record(records, pgid) {
                let k = choose|k: int| 0 <= k < records.len() && records[k].pgid == pgid;
                if k < front.len() {
                    assert(front[k].pgid == pgid);
                }
            }
            if on_record(kept, pgid) {
                let k = choose|k: int| 0 <= k < kept.len() && kept[k].pgid == pgid;
                assert(all[k].pgid == pgid);
            }
            if on_record(all, pgid) {
                let k = choose|k: int| 0 <= k < all.len() && all[k].pgid == pgid;
                if k < kept.len() {
                    assert(kept[k].pgid == pgid);
                }
            }
            if !on_record(front, last.pgid) && pgid == last.pgid {
                assert(all[all.len() - 1].pgid == pgid);
                assert(records[records.len() - 1].pgid == pgid);
            }
        }
        assert forall|i: int, j: int| 0 <= i < j < all.len() implies (#[trigger] all[i]).pgid != (
        #[trigger] all[j]).pgid by {
            if j < kept.len() {
                assert(all[i] == kept[i] && all[j] == kept[j]);
            } else {
                assert(all[i] == kept[i]);
                assert(on_record(kept, kept[i].pgid));
                assert(on_record(front, kept[i].pgid));
            }
        }
        assert forall|k: int| 0 <= k < all.len() implies records.contains(#[trigger] all[k]) by {
            if k < kept.len() {
                assert(all[k] == kept[k]);
                let j = choose|j: int| 0 <= j < front.len() && front[j] == kept[k];
                assert(records[j] == all[k]);
            } else {
                assert(records[records.len() - 1] == all[k]);
            }
        }
        if distinct_groups(records) {
            assert forall|i: int, j: int| 0 <= i < j < front.len() implies (
            #[trigger] front[i]).pgid != (#[trigger] front[j]).pgid by {
                assert(front[i] == records[i] && front[j] == records[j]);
            }
            if on_record(front, last.pgid) {
                let k = choose|k: int| 0 <= k < front.len() && front[k].pgid == last.pgid;
                assert(records[k].pgid == records[records.len() - 1].pgid);
            }
            assert(all =~= records);
        }
    }
}

/// One group leaves records about different groups about different groups.
pub proof fn lemma_step_keeps_distinct(records: Seq<ProgressView>, pg: PgStats, interval: nat)
    requires
        distinct_groups(records),
    ensures
        distinct_groups(scrub_step(records, pg, interval)),
{
    lemma_step_keeps_others(records, pg, interval);
    lemma_index_of_found(records, pg.pgid@);
    let after = scrub_step(records, pg, interval);
    assert(after.len() <= records.len() + 1);
    assert forall|i: int, j: int| 0 <= i < j < after.len() implies (#[trigger] after[i]).pgid != (
    #[trigger] after[j]).pgid by {
        if j < records.len() {
            assert(after[i].pgid == records[i].pgid && after[j].pgid == records[j].pgid);
        } else {
            assert(after[j] == refreshed(blank(pg.pgid@), pg, interval));
            assert(!on_record(records, pg.pgid@));
            assert(after[i].pgid == records[i].pgid);
        }
    }
}

/// All groups leave records about different groups about different groups.
pub proof fn lemma_fold_keeps_distinct(records: Seq<ProgressView>, pgs: Seq<PgStats>, interval: nat)
    requires
        distinct_groups(records),
    ensures
        distinct_groups(scrub_fold(records, pgs, interval)),
    decreases pgs.len(),
{
    if pgs.len() > 0 {
        lemma_fold_keeps_distinct(records, pgs.drop_last(), interval);
        lemma_step_keeps_distinct(
            scrub_fold(records, pgs.drop_last(), interval),
            pgs.last(),
            interval,
        );
    }
}

/// Of records about different groups, those that are retained are about
/// different groups.
pub proof fn lemma_retained_keeps_distinct(records: Seq<ProgressView>, pgs: Seq<PgStats>)
    requires
        distinct_groups(records),
    ensures
        distinct_groups(retained(records, pgs)),
    decreases records.len(),
{
    if records.len() > 0 {
        let front = records.drop_last();
        let rest = retained(front, pgs);
        let all = retained(records, pgs);
        assert forall|i: int, j: int| 0 <= i < j < front.len() implies (#[trigger] front[i]).pgid
            != (#[trigger] front[j]).pgid by {
            assert(front[i] == records[i] && front[j] == records[j]);
        }
        lemma_retained_keeps_distinct(front, pgs);
        lemma_retained_members(front, pgs);
        assert forall|i: int, j: int| 0 <= i < j < all.len() implies (#[trigger] all[i]).pgid != (
        #[trigger] all[j]).pgid by {
            if j < rest.len() {
                assert(all[i] == rest[i] && all[j] == rest[j]);
            } else {
                assert(all[i] == rest[i]);
                assert(front.contains(rest[i]));
                let k = choose|k: int| 0 <= k < front.len() && front[k] == rest[i];
                assert(records[k].pgid != records[records.len() - 1].pgid);
            }
        }
    }
}

/// After a poll no two records are about the same group, whatever the
/// records were before it.
pub proof fn lemma_progress_distinct(before: Seq<ProgressView>, pgs: Seq<PgStats>, interval: nat)
    ensures
        distinct_groups(progress_after(before, pgs, interval)),
{
    lemma_first_of_each_group(before);
    lemma_fold_keeps_distinct(first_of_each_group(before), pgs, interval);
    lemma_retained_keeps_distinct(scrub_fold(first_of_each_group(before), pgs, interval), pgs);
}

/// Drops every record of a group that has an earlier record.
fn drop_repeated_groups(records: &mut Vec<InconsistentPgProgress>)
    ensures
        views(final(records)@) == first_of_each_group(views(old(records)@)),
{
    let ghost all = views(records@);
    let mut done: usize = 0;
    let mut seen: Ghost<int> = Ghost(0);
    assert(views(records@).subrange(0, 0) =~= first_of_each_group(all.subrange(0, 0)));
    while done < records.len()
        invariant
            done <= records@.len(),
            0 <= seen@ <= all.len(),
            records@.len() - done == all.len() - seen@,
            views(records@).subrange(0, done as int) == first_of_each_group(
                all.subrange(0, seen@),
            ),
            views(records@).subrange(done as int, records@.len() as int) == all.subrange(
                seen@,
                all.len() as int,
            ),
        decreases records@.len() - done,
    {
        let ghost current = views(records@);
        let ghost head = current.subrange(0, done as int);
        let ghost tail = current.subrange(done as int, current.len() as int);
        let ghost rest = all.subrange(seen@, all.len() as int);
        proof {
            lemma_first_of_each_group_next(all, seen@);
            lemma_first_of_each_group(all.subrange(0, seen@));
            assert(current[done as int] == tail[0]);
            assert(tail[0] == rest[0]);
            assert(all.subrange(seen@ + 1, all.len() as int) =~= rest.subrange(
                1,
                rest.len() as int,
            ));
        }
        // Whether an earlier record is about the group.
        let mut k: usize = 0;
        let mut repeat: bool = false;
        while k < done
            invariant
                k <= done < records.len(),
                views(records@) == current,
                head == current.subrange(0, done as int),
                !repeat ==> forall|j: int|
                    0 <= j < k ==> (#[trigger] current[j]).pgid != current[done as int].pgid,
                repeat ==> on_record(head, current[done as int].pgid),
            decreases done - k,
        {
            if records[k].pgid == records[done].pgid {
                repeat = true;
                assert(current[k as int].pgid == current[done as int].pgid);
                assert(head[k as int].pgid == current[done as int].pgid);
            } else {
                assert(current[k as int].pgid != current[done as int].pgid);
            }
            k = k + 1;
        }
        proof {
            let pgid = current[done as int].pgid;
            if !repeat {
                if on_record(head, pgid) {
                    let j = choose|j: int| 0 <= j < head.len() && head[j].pgid == pgid;
                    assert(current[j].pgid == pgid);
                }
            }
            assert(on_record(head, pgid) <==> on_record(all.subrange(0, seen@), pgid));
        }
        if repeat {
            records.remove(done);
            proof {
                let after = views(records@);
                assert(after.subrange(0, done as int) =~= head);
                assert(after.subrange(done as int, after.len() as int) =~= tail.subrange(
                    1,
                    tail.len() as int,
                ));
            }
        } else {
            proof {
                assert(current.subrange(0, done + 1) =~= head.push(current[done as int]));
                assert(current.subrange(done + 1, current.len() as int) =~= tail.subrange(
                    1,
                    tail.len() as int,
                ));
            }
            done = done + 1;
        }
        proof {
            seen@ = seen@ + 1;
        }
    }
    assert(views(records@).subrange(0, done as int) =~= views(records@));
    assert(all.subrange(0, seen@) =~= all);
}

/// Brings the records of the inconsistent placement groups up to the groups
/// `pgs` of a snapshot.
///
/// A record of a group that has an earlier record is dropped first. Then
/// every group whose state holds `inconsistent` has its record refreshed, or
/// begun where it had none; then every record whose group is not
/// inconsistent in the snapshot is dropped. No two of the records that are
/// left are about the same group.
pub fn update_progress(records: &mut Vec<InconsistentPgProgress>, pgs: &Vec<PgStats>, interval: u64)
    ensures
        views(final(records)@) == progress_after(views(old(records)@), pgs@, interval as nat),
        distinct_groups(views(final(records)@)),
{
    proof {
        lemma_progress_distinct(views(records@), pgs@, interval as nat);
    }
    drop_repeated_groups(records);
    let ghost before = views(records@);
    let mut flags: Vec<bool> = Vec::new();
    let mut i: usize = 0;
    while i < pgs.len()
        invariant
            i <= pgs.len(),
            flags@.len() == i,
            forall|k: int| 0 <= k < i ==> flags@[k] == is_inconsistent(#[trigger] pgs@[k]),
            views(records@) == scrub_fold(before, pgs@.subrange(0, i as int), interval as nat),
        decreases pgs.len() - i,
    {
        proof {
            lemma_fold_next(before, pgs@, i as int, interval as nat);
        }
        let flagged = take_in(records, &pgs[i], interval);
        flags.push(flagged);
        i = i + 1;
    }
    assert(pgs@.subrange(0, i as int) =~= pgs@);
    drop_consistent(records, pgs, &flags);
}

/// One group leaves every record in its place and about its group, changes
/// no record of another group, and adds at most a record of its own.
pub proof fn lemma_step_keeps_others(records: Seq<ProgressView>, pg: PgStats, interval: nat)
    ensures
        scrub_step(records, pg, interval).len() >= records.len(),
        forall|m: int|
            0 <= m < records.len() ==> (#[trigger] scrub_step(records, pg, interval)[m]).pgid
                == records[m].pgid,
        forall|m: int|
            0 <= m < records.len() && records[m].pgid != pg.pgid@ ==> #[trigger] scrub_step(
                records,
                pg,
                interval,
            )[m] == records[m],
        forall|m: int|
            records.len() <= m < scrub_step(records, pg, interval).len() ==> is_inconsistent(pg)
                && !on_record(records, pg.pgid@) && #[trigger] scrub_step(records, pg, interval)[m]
                == refreshed(blank(pg.pgid@), pg, interval),
        on_record(records, pg.pgid@) ==> scrub_step(records, pg, interval).len() == records.len(),
        is_inconsistent(pg) ==> on_record(scrub_step(records, pg, interval), pg.pgid@),
{
    lemma_index_of_found(records, pg.pgid@);
    let after = scrub_step(records, pg, interval);
    if is_inconsistent(pg) {
        match index_of(records, pg.pgid@) {
            Some(k) => {
                assert(after[k].pgid == pg.pgid@);
            },
            None => {
                assert(after[records.len() as int].pgid == pg.pgid@);
            },
        }
    }
}

/// After one group, the groups on record are those that were, and the
/// group itself where it is inconsistent.
pub proof fn lemma_step_on_record(
    records: Seq<ProgressView>,
    pg: PgStats,
    interval: nat,
    pgid: Seq<char>,
)
    ensures
        on_record(scrub_step(records, pg, interval), pgid) <==> on_record(records, pgid) || (
        is_inconsistent(pg) && pg.pgid@ == pgid),
{
    lemma_step_keeps_others(records, pg, interval);
    let after = scrub_step(records, pg, interval);
    if on_record(records, pgid) {
        let m = choose|m: int| 0 <= m < records.len() && records[m].pgid == pgid;
        assert(after[m].pgid == pgid);
    }
    if on_record(after, pgid) {
        let m = choose|m: int| 0 <= m < after.len() && after[m].pgid == pgid;
        if m < records.len() {
            assert(records[m].pgid == after[m].pgid);
        }
    }
}

/// After all groups, the groups on record are those that were, and those
/// that are inconsistent in the snapshot.
pub proof fn lemma_fold_on_record(
    records: Seq<ProgressView>,
    pgs: Seq<PgStats>,
    interval: nat,
    pgid: Seq<char>,
)
    ensures
        on_record(scrub_fold(records, pgs, interval), pgid) <==> on_record(records, pgid)
            || still_inconsistent(pgs, pgid),
    decreases pgs.len(),
{
    if pgs.len() > 0 {
        let front = pgs.drop_last();
        lemma_fold_on_record(records, front, interval, pgid);
        lemma_step_on_record(scrub_fold(records, front, interval), pgs.last(), interval, pgid);
        if still_inconsistent(front, pgid) {
            let k = choose|k: int|
                0 <= k < front.len() && is_inconsistent(#[trigger] front[k]) && front[k].pgid@
                    == pgid;
            assert(is_inconsistent(pgs[k]) && pgs[k].pgid@ == pgid);
        }
        if is_inconsistent(pgs.last()) && pgs.last().pgid@ == pgid {
            assert(is_inconsistent(pgs[pgs.len() - 1]) && pgs[pgs.len() - 1].pgid@ == pgid);
        }
        if still_inconsistent(pgs, pgid) {
            let k = choose|k: int|
                0 <= k < pgs.len() && is_inconsistent(#[trigger] pgs[k]) && pgs[k].pgid@ == pgid;
            if k < front.len() {
                assert(is_inconsistent(front[k]) && front[k].pgid@ == pgid);
            }
        }
    }
}

/// A record is retained where it was on record and its group is
/// inconsistent in the snapshot, and every retained record is one of the
/// records that were there.
pub proof fn lemma_retained_members(records: Seq<ProgressView>, pgs: Seq<PgStats>)
    ensures
        forall|m: int|
            0 <= m < retained(records, pgs).len() ==> still_inconsistent(
                pgs,
                (#[trigger] retained(records, pgs)[m]).pgid,
            ) && records.contains(retained(records, pgs)[m]),
        forall|m: int|
            0 <= m < records.len() && still_inconsistent(pgs, (#[trigger] records[m]).pgid)
                ==> retained(records, pgs).contains(records[m]),
    decreases records.len(),
{
    if records.len() > 0 {
        let front = records.drop_last();
        let rest = retained(front, pgs);
        let all = retained(records, pgs);
        lemma_retained_members(front, pgs);
        assert forall|m: int| 0 <= m < all.len() implies still_inconsistent(
            pgs,
            (#[trigger] all[m]).pgid,
        ) && records.contains(all[m]) by {
            if m < rest.len() {
                assert(all[m] == rest[m]);
                let j = choose|j: int| 0 <= j < front.len() && front[j] == rest[m];
                assert(records[j] == all[m]);
            } else {
                assert(all[m] == records[records.len() - 1]);
            }
        }
        assert forall|m: int|
            0 <= m < records.len() && still_inconsistent(
                pgs,
                (#[trigger] records[m]).pgid,
            ) implies all.contains(records[m]) by {
            if m < front.len() {
                assert(front[m] == records[m]);
                let j = choose|j: int| 0 <= j < rest.len() && rest[j] == front[m];
                assert(all[j] == records[m]);
            } else {
                assert(all[all.len() - 1] == records[m]);
            }
        }
    }
}

/// After a poll, the groups on record are exactly those that are
/// inconsistent in the snapshot: a group whose state no longer holds
/// `inconsistent` is gone, whatever was recorded of it.
pub proof fn lemma_on_record_iff_inconsistent(
    before: Seq<ProgressView>,
    pgs: Seq<PgStats>,
    interval: nat,
    pgid: Seq<char>,
)
    ensures
        on_record(progress_after(before, pgs, interval), pgid) <==> still_inconsistent(pgs, pgid),
{
    let start = first_of_each_group(before);
    let folded = scrub_fold(start, pgs, interval);
    let after = progress_after(before, pgs, interval);
    lemma_fold_on_record(start, pgs, interval, pgid);
    lemma_retained_members(folded, pgs);
    if on_record(after, pgid) {
        let m = choose|m: int| 0 <= m < after.len() && after[m].pgid == pgid;
        assert(still_inconsistent(pgs, after[m].pgid));
    }
    if still_inconsistent(pgs, pgid) {
        let m = choose|m: int| 0 <= m < folded.len() && folded[m].pgid == pgid;
        assert(after.contains(folded[m]));
        let j = choose|j: int| 0 <= j < after.len() && after[j] == folded[m];
        assert(after[j].pgid == pgid);
    }
}

/// No history holds more samples than a history keeps.
pub open spec fn histories_bounded(records: Seq<ProgressView>) -> bool {
    forall|k: int|
        0 <= k < records.len() ==> (#[trigger] records[k]).scrubbed_history.len() <= HISTORY_SIZE
}

/// Histories that are within their bound stay within it when the groups of
/// a snapshot are taken in.
proof fn lemma_fold_keeps_bounded(records: Seq<ProgressView>, pgs: Seq<PgStats>, interval: nat)
    requires
        histories_bounded(records),
    ensures
        histories_bounded(scrub_fold(records, pgs, interval)),
    decreases pgs.len(),
{
    let folded = scrub_fold(records, pgs, interval);
    if pgs.len() > 0 {
        let front = pgs.drop_last();
        let middle = scrub_fold(records, front, interval);
        lemma_fold_keeps_bounded(records, front, interval);
        lemma_index_of_found(middle, pgs.last().pgid@);
        assert forall|k: int| 0 <= k < folded.len() implies (
        #[trigger] folded[k]).scrubbed_history.len() <= HISTORY_SIZE by {
            if k < middle.len() {
                assert(middle[k].scrubbed_history.len() <= HISTORY_SIZE);
            }
        }
    }
}

/// Histories that are within their bound stay within it from poll to poll.
pub proof fn lemma_histories_stay_bounded(
    before: Seq<ProgressView>,
    pgs: Seq<PgStats>,
    interval: nat,
)
    requires
        histories_bounded(before),
    ensures
        histories_bounded(progress_after(before, pgs, interval)),
{
    let start = first_of_each_group(before);
    lemma_first_of_each_group(before);
    assert forall|k: int| 0 <= k < start.len() implies (#[trigger] start[k]).scrubbed_history.len()
        <= HISTORY_SIZE by {
        assert(before.contains(start[k]));
        let j = choose|j: int| 0 <= j < before.len() && before[j] == start[k];
        assert(before[j].scrubbed_history.len() <= HISTORY_SIZE);
    }
    lemma_fold_keeps_bounded(start, pgs, interval);
    let folded = scrub_fold(start, pgs, interval);
    let after = progress_after(before, pgs, interval);
    lemma_retained_members(folded, pgs);
    assert forall|k: int| 0 <= k < after.len() implies (#[trigger] after[k]).scrubbed_history.len()
        <= HISTORY_SIZE by {
        assert(folded.contains(after[k]));
        let j = choose|j: int| 0 <= j < folded.len() && folded[j] == after[k];
        assert(folded[j].scrubbed_history.len() <= HISTORY_SIZE);
    }
}

/// Every record about `pgid` is `wanted`, and there is one.
pub open spec fn recorded_as(records: Seq<ProgressView>, pgid: Seq<char>, wanted: ProgressView) -> bool {
    &&& on_record(records, pgid)
    &&& forall|m: int|
        0 <= m < records.len() && (#[trigger] records[m]).pgid == pgid ==> records[m] == wanted
}

/// A group that was not on record and is inconsistent in the snapshot, under
/// an identifier that no other group of the snapshot has, starts over: its
/// record after the poll is the one that a first inconsistent poll gives,
/// with the scrub count of this snapshot as the only sample of its history.
pub proof fn lemma_returning_group_starts_over(
    before: Seq<ProgressView>,
    pgs: Seq<PgStats>,
    interval: nat,
    k: int,
)
    requires
        0 <= k < pgs.len(),
        is_inconsistent(pgs[k]),
        !on_record(before, pgs[k].pgid@),
        forall|j: int| 0 <= j < pgs.len() && j != k ==> (#[trigger] pgs[j]).pgid@ != pgs[k].pgid@,
    ensures
        recorded_as(
            progress_after(before, pgs, interval),
            pgs[k].pgid@,
            refreshed(blank(pgs[k].pgid@), pgs[k], interval),
        ),
        refreshed(blank(pgs[k].pgid@), pgs[k], interval).scrubbed_history == seq![
            scrubbed_so_far(pgs[k]),
        ],
        refreshed(blank(pgs[k].pgid@), pgs[k], interval).scrub_rate is None,
        refreshed(blank(pgs[k].pgid@), pgs[k], interval).eta_seconds is None,
{
    let pg = pgs[k];
    let pgid = pg.pgid@;
    let wanted = refreshed(blank(pgid), pg, interval);
    let head = pgs.subrange(0, k);
    let upto = pgs.subrange(0, k + 1);
    let tail = pgs.subrange(k + 1, pgs.len() as int);
    // Without repeats the group is as little on record as it was.
    let start = first_of_each_group(before);
    lemma_first_of_each_group(before);
    assert(!on_record(start, pgid));
    // Up to the group, nothing is on record for it.
    let early = scrub_fold(start, head, interval);
    lemma_fold_on_record(start, head, interval, pgid);
    if still_inconsistent(head, pgid) {
        let j = choose|j: int|
            0 <= j < head.len() && is_inconsistent(#[trigger] head[j]) && head[j].pgid@ == pgid;
        assert(head[j] == pgs[j]);
    }
    // The group itself begins its record.
    lemma_fold_next(start, pgs, k, interval);
    let begun = scrub_fold(start, upto, interval);
    lemma_index_of_found(early, pgid);
    lemma_step_keeps_others(early, pg, interval);
    assert(begun == early.push(wanted));
    assert forall|m: int| 0 <= m < begun.len() && (#[trigger] begun[m]).pgid
        == pgid implies begun[m] == wanted by {
        if m < early.len() {
            assert(early[m].pgid == pgid);
        }
    }
    assert(begun[early.len() as int].pgid == pgid);
    assert(recorded_as(begun, pgid, wanted));
    // The groups after it leave the record alone.
    lemma_fold_split(start, pgs, k + 1, interval);
    assert forall|j: int| 0 <= j < tail.len() implies (#[trigger] tail[j]).pgid@ != pgid by {
        assert(tail[j] == pgs[k + 1 + j]);
    }
    lemma_fold_leaves_record(begun, tail, interval, pgid, wanted);
    let folded = scrub_fold(start, pgs, interval);
    assert(recorded_as(folded, pgid, wanted));
    // The group is inconsistent, so its record stays.
    lemma_retained_members(folded, pgs);
    lemma_on_record_iff_inconsistent(before, pgs, interval, pgid);
    assert(is_inconsistent(pgs[k]) && pgs[k].pgid@ == pgid);
    let after = progress_after(before, pgs, interval);
    assert forall|m: int| 0 <= m < after.len() && (#[trigger] after[m]).pgid
        == pgid implies after[m] == wanted by {
        assert(folded.contains(after[m]));
        let j = choose|j: int| 0 <= j < folded.len() && folded[j] == after[m];
        assert(folded[j].pgid == pgid);
    }
    // What a first poll records.
    let first = seq![scrubbed_so_far(pg)];
    assert(Seq::<u64>::empty().push(scrubbed_so_far(pg)) =~= first);
    assert(wanted.scrubbed_history =~= first);
}

/// What a snapshot says of a group: its object copies, its state, its
/// current node set with the primary of that set, and its scrub count.
pub open spec fn shows_group(r: ProgressView, pg: PgStats) -> bool {
    &&& r.pgid == pg.pgid@
    &&& r.num_objects == pg.stat_sum.num_object_copies
    &&& r.state == pg.state@
    &&& r.up_osds == pg.acting@
    &&& r.primary_osd == pg.acting_primary
    &&& r.objects_scrubbed == scrubbed_so_far(pg)
    &&& r.scrubbed_history.len() > 0
    &&& r.scrubbed_history.last() == scrubbed_so_far(pg)
}

/// After a poll the record of an inconsistent group shows the group as the
/// snapshot has it: there is one record of the group and no more, and it
/// holds the group's current node set, the nodes that hold the group now,
/// with the primary of that set, whatever the record held before and
/// whatever the nodes are that should hold the group. Where the snapshot
/// lists a group more than once, the record shows the last of the entries
/// that are inconsistent.
pub proof fn lemma_record_shows_its_group(
    before: Seq<ProgressView>,
    pgs: Seq<PgStats>,
    interval: nat,
    k: int,
)
    requires
        0 <= k < pgs.len(),
        is_inconsistent(pgs[k]),
        forall|j: int|
            k < j < pgs.len() && is_inconsistent(#[trigger] pgs[j]) ==> pgs[j].pgid@
                != pgs[k].pgid@,
    ensures
        on_record(progress_after(before, pgs, interval), pgs[k].pgid@),
        distinct_groups(progress_after(before, pgs, interval)),
        forall|m: int|
            0 <= m < progress_after(before, pgs, interval).len() && (#[trigger] progress_after(
                before,
                pgs,
                interval,
            )[m]).pgid == pgs[k].pgid@ ==> shows_group(
                progress_after(before, pgs, interval)[m],
                pgs[k],
            ),
{
    let pg = pgs[k];
    let pgid = pg.pgid@;
    let head = pgs.subrange(0, k);
    let upto = pgs.subrange(0, k + 1);
    let tail = pgs.subrange(k + 1, pgs.len() as int);
    let start = first_of_each_group(before);
    lemma_first_of_each_group(before);
    // Up to the group no two records are about one group.
    let early = scrub_fold(start, head, interval);
    lemma_fold_keeps_distinct(start, head, interval);
    // The group itself has its record refreshed or begun.
    lemma_fold_next(start, pgs, k, interval);
    let begun = scrub_fold(start, upto, interval);
    lemma_index_of_found(early, pgid);
    lemma_step_keeps_others(early, pg, interval);
    lemma_step_keeps_distinct(early, pg, interval);
    let earlier = match index_of(early, pgid) {
        Some(m) => early[m],
        None => blank(pgid),
    };
    let wanted = refreshed(earlier, pg, interval);
    assert(shows_group(wanted, pg));
    match index_of(early, pgid) {
        Some(m) => {
            assert(begun[m] == wanted);
        },
        None => {
            assert(begun[early.len() as int] == wanted);
        },
    }
    assert forall|m: int| 0 <= m < begun.len() && (#[trigger] begun[m]).pgid
        == pgid implies begun[m] == wanted by {
        match index_of(early, pgid) {
            Some(at) => {
                if m != at {
                    assert(begun[at].pgid == pgid);
                }
            },
            None => {
                if m < early.len() {
                    assert(early[m].pgid == begun[m].pgid);
                }
            },
        }
    }
    assert(recorded_as(begun, pgid, wanted));
    // The groups after it are other groups, or are not taken in.
    lemma_fold_split(start, pgs, k + 1, interval);
    assert forall|j: int| 0 <= j < tail.len() && is_inconsistent(
        #[trigger] tail[j],
    ) implies tail[j].pgid@ != pgid by {
        assert(tail[j] == pgs[k + 1 + j]);
    }
    lemma_fold_leaves_record(begun, tail, interval, pgid, wanted);
    let folded = scrub_fold(start, pgs, interval);
    // The group is inconsistent, so its record stays.
    lemma_retained_members(folded, pgs);
    lemma_on_record_iff_inconsistent(before, pgs, interval, pgid);
    lemma_progress_distinct(before, pgs, interval);
    assert(is_inconsistent(pgs[k]) && pgs[k].pgid@ == pgid);
    let after = progress_after(before, pgs, interval);
    assert forall|m: int| 0 <= m < after.len() && (#[trigger] after[m]).pgid
        == pgid implies shows_group(after[m], pg) by {
        assert(folded.contains(after[m]));
        let j = choose|j: int| 0 <= j < folded.len() && folded[j] == after[m];
        assert(folded[j].pgid == pgid);
    }
}

/// Groups that are not taken in under an identifier leave the record of
/// that identifier as it is.
proof fn lemma_fold_leaves_record(
    records: Seq<ProgressView>,
    pgs: Seq<PgStats>,
    interval: nat,
    pgid: Seq<char>,
    wanted: ProgressView,
)
    requires
        recorded_as(records, pgid, wanted),
        forall|j: int| 0 <= j < pgs.len() && is_inconsistent(#[trigger] pgs[j]) ==> pgs[j].pgid@
            != pgid,
    ensures
        recorded_as(scrub_fold(records, pgs, interval), pgid, wanted),
    decreases pgs.len(),
{
    if pgs.len() > 0 {
        let front = pgs.drop_last();
        assert forall|j: int| 0 <= j < front.len() && is_inconsistent(
            #[trigger] front[j],
        ) implies front[j].pgid@ != pgid by {
            assert(front[j] == pgs[j]);
        }
        lemma_fold_leaves_record(records, front, interval, pgid, wanted);
        let middle = scrub_fold(records, front, interval);
        let pg = pgs.last();
        assert(pg == pgs[pgs.len() - 1]);
        lemma_step_keeps_others(middle, pg, interval);
        lemma_step_on_record(middle, pg, interval, pgid);
        let after = scrub_step(middle, pg, interval);
        assert forall|m: int| 0 <= m < after.len() && (#[trigger] after[m]).pgid
            == pgid implies after[m] == wanted by {
            if m < middle.len() {
                assert(middle[m].pgid == after[m].pgid);
            }
        }
    }
}

/// A group whose state no longer holds `inconsistent` is off the record
/// after the very poll that finds it so, whatever was recorded of it; and
/// when a later poll finds the group inconsistent again, its record begins
/// anew, with the scrub count of that poll as the only sample.
pub proof fn lemma_gone_then_fresh(
    before: Seq<ProgressView>,
    consistent: Seq<PgStats>,
    inconsistent: Seq<PgStats>,
    interval: nat,
    k: int,
)
    requires
        0 <= k < inconsistent.len(),
        is_inconsistent(inconsistent[k]),
        !still_inconsistent(consistent, inconsistent[k].pgid@),
        forall|j: int|
            0 <= j < inconsistent.len() && j != k ==> (#[trigger] inconsistent[j]).pgid@
                != inconsistent[k].pgid@,
    ensures
        !on_record(progress_after(before, consistent, interval), inconsistent[k].pgid@),
        recorded_as(
            progress_after(
                progress_after(before, consistent, interval),
                inconsistent,
                interval,
            ),
            inconsistent[k].pgid@,
            refreshed(blank(inconsistent[k].pgid@), inconsistent[k], interval),
        ),
        refreshed(blank(inconsistent[k].pgid@), inconsistent[k], interval).scrubbed_history
            == seq![scrubbed_so_far(inconsistent[k])],
{
    let pgid = inconsistent[k].pgid@;
    lemma_on_record_iff_inconsistent(before, consistent, interval, pgid);
    lemma_returning_group_starts_over(
        progress_after(before, consistent, interval),
        inconsistent,
        interval,
        k,
    );
}

/// Looking at all groups is looking at the first `i` and then at the rest.
proof fn lemma_fold_split(records: Seq<ProgressView>, pgs: Seq<PgStats>, i: int, interval: nat)
    requires
        0 <= i <= pgs.len(),
    ensures
        scrub_fold(records, pgs, interval) == scrub_fold(
            scrub_fold(records, pgs.subrange(0, i), interval),
            pgs.subrange(i, pgs.len() as int),
            interval,
        ),
    decreases pgs.len(),
{
    let tail = pgs.subrange(i, pgs.len() as int);
    if i == pgs.len() {
        assert(pgs.subrange(0, i) =~= pgs);
        assert(tail.len() == 0);
    } else {
        let front = pgs.drop_last();
        assert(tail.drop_last() =~= front.subrange(i, front.len() as int));
        assert(tail.last() == pgs.last());
        assert(front.subrange(0, i) =~= pgs.subrange(0, i));
        lemma_fold_split(records, front, i, interval);
    }
}

/// A copy of `r`.
pub fn copy_record(r: &InconsistentPgProgress) -> (copy: InconsistentPgProgress)
    ensures
        copy@ == r@,
{
    InconsistentPgProgress {
        pgid: r.pgid.clone(),
        num_objects: r.num_objects,
        primary_osd: r.primary_osd,
        up_osds: copy_nodes(&r.up_osds),
        state: r.state.clone(),
        objects_scrubbed: r.objects_scrubbed,
        scrubbed_history: copy_counts(&r.scrubbed_history),
        scrub_rate: r.scrub_rate,
        eta_seconds: r.eta_seconds,
    }
}

/// A copy of `records`.
pub fn copy_records(records: &Vec<InconsistentPgProgress>) -> (copy: Vec<InconsistentPgProgress>)
    ensures
        views(copy@) == views(records@),
{
    let mut copy: Vec<InconsistentPgProgress> = Vec::new();
    let mut i: usize = 0;
    while i < records.len()
        invariant
            i <= records.len(),
            copy@.len() == i,
            forall|k: int| 0 <= k < i ==> (#[trigger] copy@[k])@ == records@[k]@,
        decreases records.len() - i,
    {
        copy.push(copy_record(&records[i]));
        i = i + 1;
    }
    assert(views(copy@) =~= views(records@));
    copy
}

} // verus!
