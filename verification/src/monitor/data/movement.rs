//! What a snapshot says of each storage node: how many objects the node is
//! due to receive and to shed, how fast, and for how long.
//!
//! The records are kept by node. The counts are made anew from every
//! snapshot. Only the histories of the totals go on from poll to poll, and
//! with them the rates and the remaining times.

use crate::common::{CephPgDump, OsdDataMovement, OsdStats, PgStats};
use crate::monitor::data::estimator::{
    eta_to_zero, series_rate, spec_eta_to_zero, spec_series_rate, Eta, Rate,
};
use crate::monitor::data::history::{record, recorded, HISTORY_SIZE};
use crate::monitor::data::label::{parse_state, spec_parse_state, Movement};
use std::collections::{HashMap, HashSet};
use vstd::prelude::*;

verus! {

broadcast use vstd::std_specs::hash::group_hash_axioms;

/// The two directions in which a node can be out of place for a group.
#[derive(Clone, Copy, Debug, PartialEq, Eq, Structural)]
pub enum Side {
    /// The node should hold the group and does not.
    Missing,
    /// The node holds the group and should not.
    Excess,
}

/// A group moves while it has misplaced objects.
pub open spec fn moves(pg: PgStats) -> bool {
    pg.stat_sum.num_objects_misplaced > 0
}

/// Whether `node` is among `wanted` and not among `held`.
pub open spec fn out_of_place(wanted: Seq<u32>, held: Seq<u32>, node: u32) -> bool {
    wanted.contains(node) && !held.contains(node)
}

/// The nodes among `wanted` that are not among `held`.
pub open spec fn without(wanted: Seq<u32>, held: Seq<u32>) -> Set<u32> {
    Set::new(|node: u32| out_of_place(wanted, held, node))
}

/// The nodes that should hold the group and do not: target without current.
pub open spec fn missing_nodes(pg: PgStats) -> Set<u32> {
    without(pg.up@, pg.acting@)
}

/// The nodes that hold the group and should not: current without target.
pub open spec fn excess_nodes(pg: PgStats) -> Set<u32> {
    without(pg.acting@, pg.up@)
}

/// The nodes that are out of place for the group on `side`.
pub open spec fn side_nodes(pg: PgStats, side: Side) -> Set<u32> {
    match side {
        Side::Missing => missing_nodes(pg),
        Side::Excess => excess_nodes(pg),
    }
}

/// How far the movement of the group's misplaced objects has got.
pub open spec fn pg_movement(pg: PgStats) -> Movement {
    spec_parse_state(pg.state@).spec_movement()
}

/// The counts that are kept of a node on each side: of all groups, of those
/// whose movement is active, and of those whose movement is waiting.
#[derive(Clone, Copy, Debug, PartialEq, Eq, Structural)]
pub enum Bucket {
    /// Every group counts.
    Total,
    /// Groups count whose objects are being transferred.
    Active,
    /// Groups count whose transfer is queued.
    Waiting,
}

/// Whether a group with `movement` counts towards `bucket`.
pub open spec fn applies(bucket: Bucket, movement: Movement) -> bool {
    match bucket {
        Bucket::Total => true,
        Bucket::Active => movement == Movement::Active,
        Bucket::Waiting => movement == Movement::Waiting,
    }
}

/// What one group adds to a node's count on `side` in `bucket`: its
/// misplaced objects, where the group moves, the node is out of place for it
/// on that side, and the group counts towards the bucket.
pub open spec fn credit(pg: PgStats, node: u32, side: Side, bucket: Bucket) -> nat {
    if moves(pg) && side_nodes(pg, side).contains(node) && applies(bucket, pg_movement(pg)) {
        pg.stat_sum.num_objects_misplaced as nat
    } else {
        0
    }
}

/// What all of `pgs` add to a node's count on `side` in `bucket`.
pub open spec fn credited(pgs: Seq<PgStats>, node: u32, side: Side, bucket: Bucket) -> nat
    decreases pgs.len(),
{
    if pgs.len() == 0 {
        0
    } else {
        credited(pgs.drop_last(), node, side, bucket) + credit(pgs.last(), node, side, bucket)
    }
}

/// The count that a record keeps on `side` in `bucket`.
pub open spec fn count_of(m: OsdDataMovement, side: Side, bucket: Bucket) -> i64 {
    match (side, bucket) {
        (Side::Missing, Bucket::Total) => m.missing_objects,
        (Side::Missing, Bucket::Active) => m.missing_objects_active,
        (Side::Missing, Bucket::Waiting) => m.missing_objects_waiting,
        (Side::Excess, Bucket::Total) => m.excess_objects,
        (Side::Excess, Bucket::Active) => m.excess_objects_active,
        (Side::Excess, Bucket::Waiting) => m.excess_objects_waiting,
    }
}

/// The counts of a record are what `pgs` add up to for `node`, each held at
/// the largest `i64` where the sum exceeds it; the incoming and outgoing
/// counts repeat the missing and excess totals.
pub open spec fn counters_match(m: OsdDataMovement, node: u32, pgs: Seq<PgStats>) -> bool {
    &&& forall|side: Side, bucket: Bucket| #[trigger]
        count_of(m, side, bucket) == saturated(credited(pgs, node, side, bucket))
    &&& m.incoming_objects == m.missing_objects
    &&& m.outgoing_objects == m.excess_objects
}

/// `n`, or the largest `i64` where `n` does not fit.
pub open spec fn saturated(n: nat) -> i64 {
    if n <= i64::MAX {
        n as i64
    } else {
        i64::MAX
    }
}

/// Whether `node` is listed in `stats`.
pub open spec fn listed(stats: Seq<OsdStats>, node: u32) -> bool {
    exists|k: int| 0 <= k < stats.len() && #[trigger] stats[k].osd == node
}

/// The nodes that are listed in `stats`.
pub open spec fn listed_nodes(stats: Seq<OsdStats>) -> Set<u32> {
    Set::new(|node: u32| listed(stats, node))
}

/// Whether `node` is out of place for `pg`, a group that moves.
pub open spec fn displaced_in(pg: PgStats, node: u32) -> bool {
    moves(pg) && (missing_nodes(pg).contains(node) || excess_nodes(pg).contains(node))
}

/// Whether `node` is out of place for a group of `pgs` that moves.
pub open spec fn displaced(pgs: Seq<PgStats>, node: u32) -> bool {
    exists|k: int| 0 <= k < pgs.len() && displaced_in(#[trigger] pgs[k], node)
}

/// The nodes that are out of place for a group of `pgs` that moves.
pub open spec fn displaced_nodes(pgs: Seq<PgStats>) -> Set<u32> {
    Set::new(|node: u32| displaced(pgs, node))
}

/// The nodes that a snapshot shows: those listed among the nodes that exist,
/// and those out of place for a group that moves.
pub open spec fn observed_nodes(data: CephPgDump) -> Set<u32> {
    listed_nodes(data.pg_map.osd_stats@).union(displaced_nodes(data.pg_map.pg_stats@))
}

/// A record as it is made for a node that was not known: nothing counted,
/// nothing recorded, nothing projected.
pub open spec fn is_fresh(m: OsdDataMovement, node: u32) -> bool {
    &&& m.osd_id == node
    &&& m.incoming_objects == 0
    &&& m.outgoing_objects == 0
    &&& m.missing_objects == 0
    &&& m.excess_objects == 0
    &&& m.missing_objects_waiting == 0
    &&& m.excess_objects_waiting == 0
    &&& m.missing_objects_active == 0
    &&& m.excess_objects_active == 0
    &&& m.incoming_predicted_time_secs is None
    &&& m.outgoing_predicted_time_secs is None
    &&& m.missing_objects_history@ == Seq::<i64>::empty()
    &&& m.excess_objects_history@ == Seq::<i64>::empty()
    &&& m.incoming_rate is None
    &&& m.outgoing_rate is None
}

/// The nodes of `nodes` as a set.
pub fn node_set(nodes: &Vec<u32>) -> (set: HashSet<u32>)
    ensures
        set@ == nodes@.to_set(),
{
    let mut set: HashSet<u32> = HashSet::new();
    let mut i: usize = 0;
    assert(set@ =~= nodes@.subrange(0, 0).to_set());
    while i < nodes.len()
        invariant
            i <= nodes.len(),
            set@ == nodes@.subrange(0, i as int).to_set(),
        decreases nodes.len() - i,
    {
        set.insert(nodes[i]);
        proof {
            let done = nodes@.subrange(0, i as int);
            let next = nodes@.subrange(0, i + 1);
            assert(next =~= done.push(nodes@[i as int]));
            assert forall|node: u32| next.contains(node) <==> done.contains(node) || node
                == nodes@[i as int] by {
                if done.contains(node) {
                    let k = choose|k: int| 0 <= k < done.len() && done[k] == node;
                    assert(next[k] == node);
                }
                if node == nodes@[i as int] {
                    assert(next[i as int] == node);
                }
            }
            assert(set@ =~= next.to_set());
        }
        i = i + 1;
    }
    assert(nodes@.subrange(0, i as int) =~= nodes@);
    set
}

/// A record for a node that was not known.
pub fn fresh_movement(node: u32) -> (m: OsdDataMovement)
    ensures
        is_fresh(m, node),
{
    OsdDataMovement {
        osd_id: node,
        incoming_objects: 0,
        outgoing_objects: 0,
        missing_objects: 0,
        excess_objects: 0,
        missing_objects_waiting: 0,
        excess_objects_waiting: 0,
        missing_objects_active: 0,
        excess_objects_active: 0,
        incoming_predicted_time_secs: None,
        outgoing_predicted_time_secs: None,
        missing_objects_history: Vec::new(),
        excess_objects_history: Vec::new(),
        incoming_rate: None,
        outgoing_rate: None,
    }
}

/// `after` holds every record of `before` as it was, and beside them fresh
/// records of nodes that `before` had no record of.
pub open spec fn grown(
    before: Map<u32, OsdDataMovement>,
    after: Map<u32, OsdDataMovement>,
) -> bool {
    &&& before.dom().subset_of(after.dom())
    &&& forall|node: u32| before.dom().contains(node) ==> #[trigger] after[node] == before[node]
    &&& forall|node: u32|
        after.dom().contains(node) && !before.dom().contains(node) ==> is_fresh(
            #[trigger] after[node],
            node,
        )
}

/// Records that have grown from records that have grown have grown from the
/// first.
proof fn lemma_grown_twice(
    a: Map<u32, OsdDataMovement>,
    b: Map<u32, OsdDataMovement>,
    c: Map<u32, OsdDataMovement>,
)
    requires
        grown(a, b),
        grown(b, c),
    ensures
        grown(a, c),
{
    assert forall|node: u32| a.dom().contains(node) implies #[trigger] c[node] == a[node] by {
        assert(b[node] == a[node]);
    }
    assert forall|node: u32| c.dom().contains(node) && !a.dom().contains(node) implies is_fresh(
        #[trigger] c[node],
        node,
    ) by {
        if b.dom().contains(node) {
            assert(is_fresh(b[node], node));
        }
    }
}

/// Adds a fresh record for `node` unless the node has one.
fn ensure_node(movements: &mut HashMap<u32, OsdDataMovement>, node: u32)
    ensures
        grown(old(movements)@, final(movements)@),
        final(movements)@.dom() == old(movements)@.dom().insert(node),
{
    if !movements.contains_key(&node) {
        movements.insert(node, fresh_movement(node));
    } else {
        assert(movements@.dom() =~= movements@.dom().insert(node));
    }
}

/// What one more element adds to the nodes among `wanted` that are not
/// among `held`.
proof fn lemma_without_next(wanted: Seq<u32>, held: Seq<u32>, j: int)
    requires
        0 <= j < wanted.len(),
    ensures
        without(wanted.subrange(0, j + 1), held) == if held.contains(wanted[j]) {
            without(wanted.subrange(0, j), held)
        } else {
            without(wanted.subrange(0, j), held).insert(wanted[j])
        },
{
    let done = wanted.subrange(0, j);
    let next = wanted.subrange(0, j + 1);
    let node = wanted[j];
    assert(next =~= done.push(node));
    assert forall|other: u32| next.contains(other) <==> done.contains(other) || other
        == node by {
        if done.contains(other) {
            let k = choose|k: int| 0 <= k < done.len() && done[k] == other;
            assert(next[k] == other);
        }
        if other == node {
            assert(next[j] == node);
        }
    }
    if held.contains(node) {
        assert(without(next, held) =~= without(done, held));
    } else {
        assert(without(next, held) =~= without(done, held).insert(node));
    }
}

/// Gives every node a record that is among `wanted` and not among `held`.
fn observe_side(movements: &mut HashMap<u32, OsdDataMovement>, wanted: &Vec<u32>, held: &Vec<u32>)
    ensures
        grown(old(movements)@, final(movements)@),
        final(movements)@.dom() == old(movements)@.dom().union(without(wanted@, held@)),
{
    let ghost before = movements@;
    let held_set = node_set(held);
    let mut j: usize = 0;
    assert(before.dom() =~= before.dom().union(without(wanted@.subrange(0, 0), held@)));
    while j < wanted.len()
        invariant
            j <= wanted.len(),
            held_set@ == held@.to_set(),
            grown(before, movements@),
            movements@.dom() == before.dom().union(without(wanted@.subrange(0, j as int), held@)),
        decreases wanted.len() - j,
    {
        let node: u32 = wanted[j];
        let ghost middle = movements@;
        proof {
            lemma_without_next(wanted@, held@, j as int);
        }
        if !held_set.contains(&node) {
            ensure_node(movements, node);
            proof {
                lemma_grown_twice(before, middle, movements@);
            }
        }
        assert(movements@.dom() =~= before.dom().union(
            without(wanted@.subrange(0, j + 1), held@),
        ));
        j = j + 1;
    }
    assert(wanted@.subrange(0, j as int) =~= wanted@);
}

/// What one more group adds to the nodes that are out of place.
proof fn lemma_displaced_next(pgs: Seq<PgStats>, i: int)
    requires
        0 <= i < pgs.len(),
    ensures
        displaced_nodes(pgs.subrange(0, i + 1)) == if moves(pgs[i]) {
            displaced_nodes(pgs.subrange(0, i)).union(missing_nodes(pgs[i])).union(
                excess_nodes(pgs[i]),
            )
        } else {
            displaced_nodes(pgs.subrange(0, i))
        },
{
    let done = pgs.subrange(0, i);
    let next = pgs.subrange(0, i + 1);
    assert(next =~= done.push(pgs[i]));
    assert forall|node: u32| displaced(next, node) <==> displaced(done, node) || displaced_in(
        pgs[i],
        node,
    ) by {
        if displaced(done, node) {
            let k = choose|k: int| 0 <= k < done.len() && displaced_in(done[k], node);
            assert(displaced_in(next[k], node));
        }
        if displaced_in(pgs[i], node) {
            assert(displaced_in(next[i], node));
        }
        if displaced(next, node) {
            let k = choose|k: int| 0 <= k < next.len() && displaced_in(next[k], node);
            if k < i {
                assert(displaced_in(done[k], node));
            }
        }
    }
    if moves(pgs[i]) {
        assert(displaced_nodes(next) =~= displaced_nodes(done).union(missing_nodes(pgs[i])).union(
            excess_nodes(pgs[i]),
        ));
    } else {
        assert(displaced_nodes(next) =~= displaced_nodes(done));
    }
}

/// Gives every node a record that is out of place for a group of `pgs` that
/// moves.
fn observe_groups(movements: &mut HashMap<u32, OsdDataMovement>, pgs: &Vec<PgStats>)
    ensures
        grown(old(movements)@, final(movements)@),
        final(movements)@.dom() == old(movements)@.dom().union(displaced_nodes(pgs@)),
{
    let ghost before = movements@;
    let mut i: usize = 0;
    assert(before.dom() =~= before.dom().union(displaced_nodes(pgs@.subrange(0, 0))));
    while i < pgs.len()
        invariant
            i <= pgs.len(),
            grown(before, movements@),
            movements@.dom() == before.dom().union(displaced_nodes(pgs@.subrange(0, i as int))),
        decreases pgs.len() - i,
    {
        let ghost middle = movements@;
        proof {
            lemma_displaced_next(pgs@, i as int);
        }
        if pgs[i].stat_sum.num_objects_misplaced > 0 {
            observe_side(movements, &pgs[i].up, &pgs[i].acting);
            let ghost half = movements@;
            observe_side(movements, &pgs[i].acting, &pgs[i].up);
            proof {
                lemma_grown_twice(middle, half, movements@);
                lemma_grown_twice(before, middle, movements@);
            }
        }
        assert(movements@.dom() =~= before.dom().union(
            displaced_nodes(pgs@.subrange(0, i + 1)),
        ));
        i = i + 1;
    }
    assert(pgs@.subrange(0, i as int) =~= pgs@);
}

/// What one more entry adds to the nodes that are listed.
proof fn lemma_listed_next(stats: Seq<OsdStats>, i: int)
    requires
        0 <= i < stats.len(),
    ensures
        listed_nodes(stats.subrange(0, i + 1)) == listed_nodes(stats.subrange(0, i)).insert(
            stats[i].osd,
        ),
{
    let done = stats.subrange(0, i);
    let next = stats.subrange(0, i + 1);
    assert(next =~= done.push(stats[i]));
    assert forall|node: u32| listed(next, node) <==> listed(done, node) || node
        == stats[i].osd by {
        if listed(done, node) {
            let k = choose|k: int| 0 <= k < done.len() && done[k].osd == node;
            assert(next[k].osd == node);
        }
        if node == stats[i].osd {
            assert(next[i].osd == node);
        }
        if listed(next, node) {
            let k = choose|k: int| 0 <= k < next.len() && next[k].osd == node;
            if k < i {
                assert(done[k].osd == node);
            }
        }
    }
    assert(listed_nodes(next) =~= listed_nodes(done).insert(stats[i].osd));
}

/// Gives every node a record that is listed in `stats`.
fn observe_listed(movements: &mut HashMap<u32, OsdDataMovement>, stats: &Vec<OsdStats>)
    ensures
        grown(old(movements)@, final(movements)@),
        final(movements)@.dom() == old(movements)@.dom().union(listed_nodes(stats@)),
{
    let ghost before = movements@;
    let mut i: usize = 0;
    assert(before.dom() =~= before.dom().union(listed_nodes(stats@.subrange(0, 0))));
    while i < stats.len()
        invariant
            i <= stats.len(),
            grown(before, movements@),
            movements@.dom() == before.dom().union(listed_nodes(stats@.subrange(0, i as int))),
        decreases stats.len() - i,
    {
        let ghost middle = movements@;
        proof {
            lemma_listed_next(stats@, i as int);
        }
        ensure_node(movements, stats[i].osd);
        proof {
            lemma_grown_twice(before, middle, movements@);
        }
        assert(movements@.dom() =~= before.dom().union(
            listed_nodes(stats@.subrange(0, i + 1)),
        ));
        i = i + 1;
    }
    assert(stats@.subrange(0, i as int) =~= stats@);
}

/// Whether `keys` names every node that has a record once.
pub open spec fn lists(keys: Seq<u32>, movements: Map<u32, OsdDataMovement>) -> bool {
    keys.no_duplicates() && keys.to_set() == movements.dom()
}

/// The nodes that have a record, each once, in the order in which the map
/// gives them.
pub fn keys_of(movements: &HashMap<u32, OsdDataMovement>) -> (keys: Vec<u32>)
    ensures
        lists(keys@, movements@),
{
    let mut keys: Vec<u32> = Vec::new();
    for node in it: movements.keys()
        invariant
            it.seq().unref().to_set() == movements@.dom(),
            it.seq().no_duplicates(),
            keys@ == it.seq().unref().subrange(0, it.index()),
            it.index() == it.seq().len() ==> keys@ =~= it.seq().unref(),
    {
        keys.push(*node);
        assert(keys@ =~= it.seq().unref().subrange(0, it.index() + 1));
    }
    keys
}

/// `count` and `amount` together, held at the largest `i64`.
pub open spec fn plus(count: i64, amount: i64) -> i64 {
    if count + amount > i64::MAX {
        i64::MAX
    } else {
        (count + amount) as i64
    }
}

/// `after` is `before` but for its counts.
pub open spec fn kept(before: OsdDataMovement, after: OsdDataMovement) -> bool {
    &&& after.osd_id == before.osd_id
    &&& after.incoming_predicted_time_secs == before.incoming_predicted_time_secs
    &&& after.outgoing_predicted_time_secs == before.outgoing_predicted_time_secs
    &&& after.missing_objects_history == before.missing_objects_history
    &&& after.excess_objects_history == before.excess_objects_history
    &&& after.incoming_rate == before.incoming_rate
    &&& after.outgoing_rate == before.outgoing_rate
}

/// `after` is `before` with `amount` added, where `hit`, to the counts on
/// `side` that a group with `movement` counts towards.
pub open spec fn bumped(
    before: OsdDataMovement,
    after: OsdDataMovement,
    hit: bool,
    side: Side,
    movement: Movement,
    amount: i64,
) -> bool {
    &&& kept(before, after)
    &&& after.incoming_objects == after.missing_objects
    &&& after.outgoing_objects == after.excess_objects
    &&& forall|s: Side, b: Bucket| #[trigger]
        count_of(after, s, b) == if hit && s == side && applies(b, movement) {
            plus(count_of(before, s, b), amount)
        } else {
            count_of(before, s, b)
        }
}

/// `count` and `amount` together, held at the largest `i64`.
fn add_held(count: i64, amount: i64) -> (sum: i64)
    requires
        amount > 0,
    ensures
        sum == plus(count, amount),
{
    if count > i64::MAX - amount {
        i64::MAX
    } else {
        count + amount
    }
}

/// Adds `amount` to the counts on `side` that a group with `movement` counts
/// towards.
fn add_to(m: &mut OsdDataMovement, side: Side, movement: Movement, amount: i64)
    requires
        amount > 0,
        old(m).incoming_objects == old(m).missing_objects,
        old(m).outgoing_objects == old(m).excess_objects,
    ensures
        bumped(*old(m), *final(m), true, side, movement, amount),
{
    match side {
        Side::Missing => {
            m.missing_objects = add_held(m.missing_objects, amount);
            m.incoming_objects = m.missing_objects;
            match movement {
                Movement::Active => {
                    m.missing_objects_active = add_held(m.missing_objects_active, amount);
                },
                Movement::Waiting => {
                    m.missing_objects_waiting = add_held(m.missing_objects_waiting, amount);
                },
                Movement::Idle => {},
            }
        },
        Side::Excess => {
            m.excess_objects = add_held(m.excess_objects, amount);
            m.outgoing_objects = m.excess_objects;
            match movement {
                Movement::Active => {
                    m.excess_objects_active = add_held(m.excess_objects_active, amount);
                },
                Movement::Waiting => {
                    m.excess_objects_waiting = add_held(m.excess_objects_waiting, amount);
                },
                Movement::Idle => {},
            }
        },
    }
}

/// A record whose incoming and outgoing counts repeat its totals.
pub open spec fn tidy(m: OsdDataMovement) -> bool {
    m.incoming_objects == m.missing_objects && m.outgoing_objects == m.excess_objects
}

/// Adds `amount` to the counts on `side` of every node that is among
/// `wanted` and not among `held`, once per node.
fn credit_side(
    movements: &mut HashMap<u32, OsdDataMovement>,
    wanted: &Vec<u32>,
    held: &Vec<u32>,
    side: Side,
    movement: Movement,
    amount: i64,
)
    requires
        amount > 0,
        without(wanted@, held@).subset_of(old(movements)@.dom()),
        forall|node: u32|
            old(movements)@.dom().contains(node) ==> tidy(#[trigger] old(movements)@[node]),
    ensures
        final(movements)@.dom() == old(movements)@.dom(),
        forall|node: u32|
            old(movements)@.dom().contains(node) ==> bumped(
                old(movements)@[node],
                #[trigger] final(movements)@[node],
                without(wanted@, held@).contains(node),
                side,
                movement,
                amount,
            ),
{
    let ghost start = movements@;
    let held_set = node_set(held);
    let mut seen: HashSet<u32> = HashSet::new();
    let mut j: usize = 0;
    assert(seen@ =~= without(wanted@.subrange(0, 0), held@));
    while j < wanted.len()
        invariant
            amount > 0,
            j <= wanted.len(),
            held_set@ == held@.to_set(),
            seen@ == without(wanted@.subrange(0, j as int), held@),
            movements@.dom() == start.dom(),
            without(wanted@, held@).subset_of(start.dom()),
            forall|node: u32|
                start.dom().contains(node) ==> bumped(
                    start[node],
                    #[trigger] movements@[node],
                    without(wanted@.subrange(0, j as int), held@).contains(node),
                    side,
                    movement,
                    amount,
                ),
        decreases wanted.len() - j,
    {
        let node: u32 = wanted[j];
        let ghost middle = movements@;
        let ghost done = without(wanted@.subrange(0, j as int), held@);
        let ghost next = without(wanted@.subrange(0, j + 1), held@);
        proof {
            lemma_without_next(wanted@, held@, j as int);
        }
        if !held_set.contains(&node) && seen.insert(node) {
            assert(!done.contains(node));
            assert(next == done.insert(node));
            assert(without(wanted@, held@).contains(node)) by {
                assert(wanted@[j as int] == node);
            }
            assert(start.dom().contains(node));
            assert(bumped(start[node], middle[node], false, side, movement, amount));
            match movements.remove(&node) {
                Some(taken) => {
                    let mut changed = taken;
                    add_to(&mut changed, side, movement, amount);
                    movements.insert(node, changed);
                    proof {
                        assert(movements@.dom() =~= start.dom());
                        assert forall|other: u32| start.dom().contains(other) implies bumped(
                            start[other],
                            #[trigger] movements@[other],
                            next.contains(other),
                            side,
                            movement,
                            amount,
                        ) by {
                            assert(bumped(
                                start[other],
                                middle[other],
                                done.contains(other),
                                side,
                                movement,
                                amount,
                            ));
                            if other == node {
                                assert(bumped(
                                    middle[node],
                                    movements@[node],
                                    true,
                                    side,
                                    movement,
                                    amount,
                                ));
                                assert forall|s: Side, b: Bucket| #[trigger]
                                    count_of(movements@[node], s, b) == if s == side && applies(
                                        b,
                                        movement,
                                    ) {
                                        plus(count_of(start[node], s, b), amount)
                                    } else {
                                        count_of(start[node], s, b)
                                    } by {
                                    assert(count_of(middle[node], s, b) == count_of(
                                        start[node],
                                        s,
                                        b,
                                    ));
                                }
                            } else {
                                assert(movements@[other] == middle[other]);
                            }
                        }
                    }
                },
                None => {
                    assert(false);
                },
            }
        } else {
            assert(next == done) by {
                if !held@.contains(node) {
                    assert(done.contains(node));
                    assert(done.insert(node) =~= done);
                }
            }
        }
        j = j + 1;
    }
    assert(wanted@.subrange(0, j as int) =~= wanted@);
}

/// Sets every count of every record to zero.
fn reset_counts(movements: &mut HashMap<u32, OsdDataMovement>, keys: &Vec<u32>)
    requires
        lists(keys@, old(movements)@),
    ensures
        final(movements)@.dom() == old(movements)@.dom(),
        forall|node: u32|
            old(movements)@.dom().contains(node) ==> kept(
                old(movements)@[node],
                #[trigger] final(movements)@[node],
            ) && counters_match(final(movements)@[node], node, Seq::<PgStats>::empty()),
{
    let ghost start = movements@;
    let mut i: usize = 0;
    while i < keys.len()
        invariant
            i <= keys.len(),
            lists(keys@, start),
            movements@.dom() == start.dom(),
            forall|j: int|
                0 <= j < i ==> kept(start[keys@[j]], #[trigger] movements@[keys@[j]])
                    && counters_match(movements@[keys@[j]], keys@[j], Seq::<PgStats>::empty()),
            forall|j: int| i <= j < keys@.len() ==> #[trigger] movements@[keys@[j]] == start[keys@[j]],
        decreases keys.len() - i,
    {
        let node: u32 = keys[i];
        let ghost middle = movements@;
        assert(keys@.to_set().contains(keys@[i as int]));
        match movements.remove(&node) {
            Some(taken) => {
                let mut changed = taken;
                changed.incoming_objects = 0;
                changed.outgoing_objects = 0;
                changed.missing_objects = 0;
                changed.excess_objects = 0;
                changed.missing_objects_waiting = 0;
                changed.excess_objects_waiting = 0;
                changed.missing_objects_active = 0;
                changed.excess_objects_active = 0;
                movements.insert(node, changed);
                proof {
                    assert(movements@.dom() =~= start.dom());
                    assert forall|j: int| 0 <= j < i implies kept(
                        start[keys@[j]],
                        #[trigger] movements@[keys@[j]],
                    ) && counters_match(
                        movements@[keys@[j]],
                        keys@[j],
                        Seq::<PgStats>::empty(),
                    ) by {
                        assert(keys@[j] != keys@[i as int]);
                        assert(movements@[keys@[j]] == middle[keys@[j]]);
                    }
                    assert forall|j: int| i < j < keys@.len() implies #[trigger] movements@[keys@[j]]
                        == start[keys@[j]] by {
                        assert(keys@[j] != keys@[i as int]);
                        assert(movements@[keys@[j]] == middle[keys@[j]]);
                    }
                }
            },
            None => {
                assert(false);
            },
        }
        i = i + 1;
    }
    assert forall|node: u32| start.dom().contains(node) implies kept(
        start[node],
        #[trigger] movements@[node],
    ) && counters_match(movements@[node], node, Seq::<PgStats>::empty()) by {
        assert(keys@.to_set().contains(node));
        let j = choose|j: int| 0 <= j < keys@.len() && keys@[j] == node;
        assert(kept(start[keys@[j]], movements@[keys@[j]]));
    }
}

/// What one more group adds to what a node is credited with.
proof fn lemma_credited_next(pgs: Seq<PgStats>, i: int, node: u32, side: Side, bucket: Bucket)
    requires
        0 <= i < pgs.len(),
    ensures
        credited(pgs.subrange(0, i + 1), node, side, bucket) == credited(
            pgs.subrange(0, i),
            node,
            side,
            bucket,
        ) + credit(pgs[i], node, side, bucket),
{
    let next = pgs.subrange(0, i + 1);
    assert(next.drop_last() =~= pgs.subrange(0, i));
    assert(next.last() == pgs[i]);
}

/// Adds up, for every record, what `pgs` credit its node with.
fn tally_groups(movements: &mut HashMap<u32, OsdDataMovement>, pgs: &Vec<PgStats>)
    requires
        displaced_nodes(pgs@).subset_of(old(movements)@.dom()),
        forall|node: u32|
            old(movements)@.dom().contains(node) ==> counters_match(
                #[trigger] old(movements)@[node],
                node,
                Seq::<PgStats>::empty(),
            ),
    ensures
        final(movements)@.dom() == old(movements)@.dom(),
        forall|node: u32|
            old(movements)@.dom().contains(node) ==> kept(
                old(movements)@[node],
                #[trigger] final(movements)@[node],
            ) && counters_match(final(movements)@[node], node, pgs@),
{
    let ghost start = movements@;
    let mut i: usize = 0;
    assert(pgs@.subrange(0, 0) =~= Seq::<PgStats>::empty());
    while i < pgs.len()
        invariant
            i <= pgs.len(),
            movements@.dom() == start.dom(),
            displaced_nodes(pgs@).subset_of(start.dom()),
            forall|node: u32|
                start.dom().contains(node) ==> kept(start[node], #[trigger] movements@[node])
                    && counters_match(movements@[node], node, pgs@.subrange(0, i as int)),
        decreases pgs.len() - i,
    {
        let ghost done = pgs@.subrange(0, i as int);
        let ghost next = pgs@.subrange(0, i + 1);
        let ghost pg = pgs@[i as int];
        let ghost first = movements@;
        let amount: i64 = pgs[i].stat_sum.num_objects_misplaced;
        if amount > 0 {
            let movement = parse_state(pgs[i].state.as_str()).movement();
            proof {
                assert forall|node: u32| missing_nodes(pg).contains(node) implies first.dom().contains(
                    node,
                ) by {
                    assert(displaced_in(pgs@[i as int], node));
                    assert(displaced_nodes(pgs@).contains(node));
                }
                assert forall|node: u32| excess_nodes(pg).contains(node) implies first.dom().contains(
                    node,
                ) by {
                    assert(displaced_in(pgs@[i as int], node));
                    assert(displaced_nodes(pgs@).contains(node));
                }
                assert forall|node: u32| first.dom().contains(node) implies tidy(
                    #[trigger] first[node],
                ) by {
                    assert(counters_match(first[node], node, done));
                }
            }
            credit_side(movements, &pgs[i].up, &pgs[i].acting, Side::Missing, movement, amount);
            let ghost second = movements@;
            proof {
                assert forall|node: u32| second.dom().contains(node) implies tidy(
                    #[trigger] second[node],
                ) by {
                    assert(bumped(
                        first[node],
                        second[node],
                        missing_nodes(pg).contains(node),
                        Side::Missing,
                        movement,
                        amount,
                    ));
                }
            }
            credit_side(movements, &pgs[i].acting, &pgs[i].up, Side::Excess, movement, amount);
            proof {
                assert forall|node: u32| start.dom().contains(node) implies kept(
                    start[node],
                    #[trigger] movements@[node],
                ) && counters_match(movements@[node], node, next) by {
                    assert(kept(start[node], first[node]) && counters_match(
                        first[node],
                        node,
                        done,
                    ));
                    assert(bumped(
                        first[node],
                        second[node],
                        missing_nodes(pg).contains(node),
                        Side::Missing,
                        movement,
                        amount,
                    ));
                    assert(bumped(
                        second[node],
                        movements@[node],
                        excess_nodes(pg).contains(node),
                        Side::Excess,
                        movement,
                        amount,
                    ));
                    assert forall|s: Side, b: Bucket| #[trigger]
                        count_of(movements@[node], s, b) == saturated(
                            credited(next, node, s, b),
                        ) by {
                        lemma_credited_next(pgs@, i as int, node, s, b);
                        assert(count_of(first[node], s, b) == saturated(
                            credited(done, node, s, b),
                        ));
                        assert(count_of(second[node], s, b) == if missing_nodes(pg).contains(node)
                            && s == Side::Missing && applies(b, movement) {
                            plus(count_of(first[node], s, b), amount)
                        } else {
                            count_of(first[node], s, b)
                        });
                        assert(count_of(movements@[node], s, b) == if excess_nodes(pg).contains(
                            node,
                        ) && s == Side::Excess && applies(b, movement) {
                            plus(count_of(second[node], s, b), amount)
                        } else {
                            count_of(second[node], s, b)
                        });
                    }
                }
            }
        } else {
            proof {
                assert forall|node: u32| start.dom().contains(node) implies counters_match(
                    #[trigger] movements@[node],
                    node,
                    next,
                ) by {
                    assert(counters_match(first[node], node, done));
                    assert forall|s: Side, b: Bucket| #[trigger]
                        count_of(movements@[node], s, b) == saturated(
                            credited(next, node, s, b),
                        ) by {
                        lemma_credited_next(pgs@, i as int, node, s, b);
                        assert(count_of(first[node], s, b) == saturated(
                            credited(done, node, s, b),
                        ));
                    }
                }
            }
        }
        i = i + 1;
    }
    assert(pgs@.subrange(0, i as int) =~= pgs@);
}

/// The rate at which a count falls, while objects are being transferred and
/// the window of its history shows a fall.
pub open spec fn falling_rate(history: Seq<i64>, active: i64, interval: nat) -> Option<Rate> {
    let rate = spec_series_rate(history, interval);
    if active > 0 && rate.falls() {
        Some(rate)
    } else {
        None
    }
}

/// The seconds that a count above zero needs to fall to zero, while objects
/// are being transferred and the window of its history shows a fall.
pub open spec fn falling_eta(history: Seq<i64>, active: i64, interval: nat) -> Option<u64> {
    if active > 0 && history.len() > 0 {
        match spec_eta_to_zero(history.last() as int, spec_series_rate(history, interval)) {
            Eta::Seconds(seconds) => Some(seconds),
            _ => None,
        }
    } else {
        None
    }
}

/// The record of `node` after a poll, given the histories that the node had
/// before it: its counts are what the groups add up to, each history has
/// taken in the new total, and the rate and the remaining time of each side
/// are those of the new history.
pub open spec fn node_updated(
    m: OsdDataMovement,
    node: u32,
    earlier_missing: Seq<i64>,
    earlier_excess: Seq<i64>,
    pgs: Seq<PgStats>,
    interval: nat,
) -> bool {
    &&& counters_match(m, node, pgs)
    &&& m.missing_objects_history@ == recorded(
        earlier_missing,
        m.missing_objects,
        HISTORY_SIZE as nat,
    )
    &&& m.excess_objects_history@ == recorded(earlier_excess, m.excess_objects, HISTORY_SIZE as nat)
    &&& m.incoming_rate == falling_rate(m.missing_objects_history@, m.missing_objects_active, interval)
    &&& m.outgoing_rate == falling_rate(m.excess_objects_history@, m.excess_objects_active, interval)
    &&& m.incoming_predicted_time_secs == falling_eta(
        m.missing_objects_history@,
        m.missing_objects_active,
        interval,
    )
    &&& m.outgoing_predicted_time_secs == falling_eta(
        m.excess_objects_history@,
        m.excess_objects_active,
        interval,
    )
}

/// The records of the nodes after a poll of `data`: the nodes with a record
/// are those that had one and those that the snapshot shows, and every
/// record is that of its node after the poll. A node that had no record
/// starts from empty histories, under its own identifier.
pub open spec fn movement_updated(
    before: Map<u32, OsdDataMovement>,
    data: CephPgDump,
    interval: nat,
    after: Map<u32, OsdDataMovement>,
) -> bool {
    &&& after.dom() == before.dom().union(observed_nodes(data))
    &&& forall|node: u32|
        before.dom().contains(node) ==> (#[trigger] after[node]).osd_id == before[node].osd_id
            && node_updated(
            after[node],
            node,
            before[node].missing_objects_history@,
            before[node].excess_objects_history@,
            data.pg_map.pg_stats@,
            interval,
        )
    &&& forall|node: u32|
        after.dom().contains(node) && !before.dom().contains(node) ==> (
        #[trigger] after[node]).osd_id == node && node_updated(
            after[node],
            node,
            Seq::<i64>::empty(),
            Seq::<i64>::empty(),
            data.pg_map.pg_stats@,
            interval,
        )
}

/// The rate and the remaining time of a count with `history`, of which
/// `active` objects are being transferred.
fn project(history: &Vec<i64>, active: i64, interval: u64) -> (projection: (
    Option<Rate>,
    Option<u64>,
))
    ensures
        projection.0 == falling_rate(history@, active, interval as nat),
        projection.1 == falling_eta(history@, active, interval as nat),
{
    let n: usize = history.len();
    if active <= 0 || n == 0 {
        return (None, None);
    }
    let rate = series_rate(history, interval);
    let falls: bool = rate.amount > 0 && rate.seconds > 0 && !rate.rising;
    let seconds = match eta_to_zero(history[n - 1], rate) {
        Eta::Seconds(seconds) => Some(seconds),
        _ => None,
    };
    if falls {
        (Some(rate), seconds)
    } else {
        (None, seconds)
    }
}

/// `after` is `before` once the totals have gone into the histories: the
/// counts are as they were, each history has taken in its total, and the
/// rate and the remaining time of each side are those of the new history.
pub open spec fn settled(before: OsdDataMovement, after: OsdDataMovement, interval: nat) -> bool {
    &&& after.osd_id == before.osd_id
    &&& after.incoming_objects == before.incoming_objects
    &&& after.outgoing_objects == before.outgoing_objects
    &&& forall|s: Side, b: Bucket| #[trigger] count_of(after, s, b) == count_of(before, s, b)
    &&& after.missing_objects_history@ == recorded(
        before.missing_objects_history@,
        before.missing_objects,
        HISTORY_SIZE as nat,
    )
    &&& after.excess_objects_history@ == recorded(
        before.excess_objects_history@,
        before.excess_objects,
        HISTORY_SIZE as nat,
    )
    &&& after.incoming_rate == falling_rate(
        after.missing_objects_history@,
        after.missing_objects_active,
        interval,
    )
    &&& after.outgoing_rate == falling_rate(
        after.excess_objects_history@,
        after.excess_objects_active,
        interval,
    )
    &&& after.incoming_predicted_time_secs == falling_eta(
        after.missing_objects_history@,
        after.missing_objects_active,
        interval,
    )
    &&& after.outgoing_predicted_time_secs == falling_eta(
        after.excess_objects_history@,
        after.excess_objects_active,
        interval,
    )
}

/// Takes the totals of a record into its histories and projects the rate
/// and the remaining time of each side from them.
fn settle_one(m: &mut OsdDataMovement, interval: u64)
    ensures
        settled(*old(m), *final(m), interval as nat),
{
    let missing: i64 = m.missing_objects;
    let excess: i64 = m.excess_objects;
    record(&mut m.missing_objects_history, missing, HISTORY_SIZE);
    record(&mut m.excess_objects_history, excess, HISTORY_SIZE);
    let incoming = project(&m.missing_objects_history, m.missing_objects_active, interval);
    let outgoing = project(&m.excess_objects_history, m.excess_objects_active, interval);
    m.incoming_rate = incoming.0;
    m.incoming_predicted_time_secs = incoming.1;
    m.outgoing_rate = outgoing.0;
    m.outgoing_predicted_time_secs = outgoing.1;
}

/// Takes the new totals into the histories of every record and projects the
/// rate and the remaining time of each side from them.
fn settle(movements: &mut HashMap<u32, OsdDataMovement>, keys: &Vec<u32>, interval: u64)
    requires
        lists(keys@, old(movements)@),
    ensures
        final(movements)@.dom() == old(movements)@.dom(),
        forall|node: u32|
            old(movements)@.dom().contains(node) ==> settled(
                old(movements)@[node],
                #[trigger] final(movements)@[node],
                interval as nat,
            ),
{
    let ghost start = movements@;
    let mut i: usize = 0;
    while i < keys.len()
        invariant
            i <= keys.len(),
            lists(keys@, start),
            movements@.dom() == start.dom(),
            forall|j: int|
                0 <= j < i ==> settled(
                    start[keys@[j]],
                    #[trigger] movements@[keys@[j]],
                    interval as nat,
                ),
            forall|j: int| i <= j < keys@.len() ==> #[trigger] movements@[keys@[j]] == start[keys@[j]],
        decreases keys.len() - i,
    {
        let node: u32 = keys[i];
        let ghost middle = movements@;
        assert(keys@.to_set().contains(keys@[i as int]));
        match movements.remove(&node) {
            Some(taken) => {
                let mut changed = taken;
                settle_one(&mut changed, interval);
                movements.insert(node, changed);
                proof {
                    assert(movements@.dom() =~= start.dom());
                    assert forall|j: int| 0 <= j < i implies settled(
                        start[keys@[j]],
                        #[trigger] movements@[keys@[j]],
                        interval as nat,
                    ) by {
                        assert(keys@[j] != keys@[i as int]);
                        assert(movements@[keys@[j]] == middle[keys@[j]]);
                    }
                    assert forall|j: int| i < j < keys@.len() implies #[trigger] movements@[keys@[j]]
                        == start[keys@[j]] by {
                        assert(keys@[j] != keys@[i as int]);
                        assert(movements@[keys@[j]] == middle[keys@[j]]);
                    }
                }
            },
            None => {
                assert(false);
            },
        }
        i = i + 1;
    }
    assert forall|node: u32| start.dom().contains(node) implies settled(
        start[node],
        #[trigger] movements@[node],
        interval as nat,
    ) by {
        assert(keys@.to_set().contains(node));
        let j = choose|j: int| 0 <= j < keys@.len() && keys@[j] == node;
        assert(settled(start[keys@[j]], movements@[keys@[j]], interval as nat));
    }
}

/// Brings the records of the storage nodes up to the snapshot `data`.
///
/// Every node that the snapshot shows gets a record. The counts of every
/// record are added up anew from the placement groups that move; nothing of
/// the earlier counts remains. Then each record's histories take in the new
/// totals, and the rates and remaining times are projected from them.
pub fn update_movements(
    movements: &mut HashMap<u32, OsdDataMovement>,
    data: &CephPgDump,
    interval: u64,
)
    ensures
        movement_updated(old(movements)@, *data, interval as nat, final(movements)@),
{
    let ghost before = movements@;
    observe_listed(movements, &data.pg_map.osd_stats);
    let ghost listed = movements@;
    observe_groups(movements, &data.pg_map.pg_stats);
    let ghost observed = movements@;
    proof {
        lemma_grown_twice(before, listed, observed);
        assert(observed.dom() =~= before.dom().union(observed_nodes(*data)));
    }
    let keys = keys_of(movements);
    reset_counts(movements, &keys);
    let ghost cleared = movements@;
    tally_groups(movements, &data.pg_map.pg_stats);
    let ghost tallied = movements@;
    settle(movements, &keys, interval);
    proof {
        let after = movements@;
        let pgs = data.pg_map.pg_stats@;
        assert forall|node: u32| after.dom().contains(node) implies counters_match(
            #[trigger] after[node],
            node,
            pgs,
        ) && after[node].osd_id == observed[node].osd_id && after[node].missing_objects_history@
            == recorded(
            observed[node].missing_objects_history@,
            after[node].missing_objects,
            HISTORY_SIZE as nat,
        ) && after[node].excess_objects_history@ == recorded(
            observed[node].excess_objects_history@,
            after[node].excess_objects,
            HISTORY_SIZE as nat,
        ) && settled(tallied[node], after[node], interval as nat) by {
            assert(kept(observed[node], cleared[node]));
            assert(kept(cleared[node], tallied[node]) && counters_match(
                tallied[node],
                node,
                pgs,
            ));
            assert(settled(tallied[node], after[node], interval as nat));
            assert forall|s: Side, b: Bucket| #[trigger]
                count_of(after[node], s, b) == saturated(credited(pgs, node, s, b)) by {
                assert(count_of(after[node], s, b) == count_of(tallied[node], s, b));
            }
            assert(count_of(after[node], Side::Missing, Bucket::Total) == count_of(
                tallied[node],
                Side::Missing,
                Bucket::Total,
            ));
            assert(count_of(after[node], Side::Excess, Bucket::Total) == count_of(
                tallied[node],
                Side::Excess,
                Bucket::Total,
            ));
        }
        assert forall|node: u32| before.dom().contains(node) implies (
        #[trigger] after[node]).osd_id == before[node].osd_id && node_updated(
            after[node],
            node,
            before[node].missing_objects_history@,
            before[node].excess_objects_history@,
            pgs,
            interval as nat,
        ) by {
            assert(observed[node] == before[node]);
            assert(after.dom().contains(node));
        }
        assert forall|node: u32|
            after.dom().contains(node) && !before.dom().contains(node) implies (
        #[trigger] after[node]).osd_id == node && node_updated(
            after[node],
            node,
            Seq::<i64>::empty(),
            Seq::<i64>::empty(),
            pgs,
            interval as nat,
        ) by {
            assert(is_fresh(observed[node], node));
        }
    }
}

/// Polling the same snapshot again changes no count: the nodes with a
/// record stay as they are, and every count of every node is what it was.
/// Only the histories move on.
pub proof fn lemma_movement_idempotent(
    before: Map<u32, OsdDataMovement>,
    data: CephPgDump,
    first_interval: nat,
    once: Map<u32, OsdDataMovement>,
    second_interval: nat,
    twice: Map<u32, OsdDataMovement>,
)
    requires
        movement_updated(before, data, first_interval, once),
        movement_updated(once, data, second_interval, twice),
    ensures
        twice.dom() == once.dom(),
        forall|node: u32|
            once.dom().contains(node) ==> (#[trigger] twice[node]).osd_id == once[node].osd_id
                && twice[node].incoming_objects == once[node].incoming_objects
                && twice[node].outgoing_objects == once[node].outgoing_objects && (forall|
                side: Side,
                bucket: Bucket,
            | #[trigger] count_of(twice[node], side, bucket) == count_of(once[node], side, bucket)),
{
    assert(twice.dom() =~= once.dom());
    let pgs = data.pg_map.pg_stats@;
    assert forall|node: u32| once.dom().contains(node) implies (#[trigger] twice[node]).osd_id
        == once[node].osd_id && twice[node].incoming_objects == once[node].incoming_objects
        && twice[node].outgoing_objects == once[node].outgoing_objects && (forall|
        side: Side,
        bucket: Bucket,
    | #[trigger] count_of(twice[node], side, bucket) == count_of(once[node], side, bucket)) by {
        assert(counters_match(twice[node], node, pgs));
        assert(counters_match(once[node], node, pgs)) by {
            if before.dom().contains(node) {
                assert(node_updated(
                    once[node],
                    node,
                    before[node].missing_objects_history@,
                    before[node].excess_objects_history@,
                    pgs,
                    first_interval,
                ));
            } else {
                assert(node_updated(
                    once[node],
                    node,
                    Seq::<i64>::empty(),
                    Seq::<i64>::empty(),
                    pgs,
                    first_interval,
                ));
            }
        }
        assert forall|side: Side, bucket: Bucket| #[trigger]
            count_of(twice[node], side, bucket) == count_of(once[node], side, bucket) by {
            assert(count_of(twice[node], side, bucket) == saturated(
                credited(pgs, node, side, bucket),
            ));
            assert(count_of(once[node], side, bucket) == saturated(
                credited(pgs, node, side, bucket),
            ));
        }
        assert(count_of(twice[node], Side::Missing, Bucket::Total) == count_of(
            once[node],
            Side::Missing,
            Bucket::Total,
        ));
        assert(count_of(twice[node], Side::Excess, Bucket::Total) == count_of(
            once[node],
            Side::Excess,
            Bucket::Total,
        ));
    }
}

/// After a poll every history holds at least the total of the poll and at
/// most as many samples as a history keeps, and its newest sample is the
/// total of the poll.
pub proof fn lemma_histories_bounded(
    before: Map<u32, OsdDataMovement>,
    data: CephPgDump,
    interval: nat,
    after: Map<u32, OsdDataMovement>,
)
    requires
        movement_updated(before, data, interval, after),
    ensures
        forall|node: u32|
            after.dom().contains(node) ==> 1 <= (
            #[trigger] after[node]).missing_objects_history@.len() <= HISTORY_SIZE && 1
                <= after[node].excess_objects_history@.len() <= HISTORY_SIZE
                && after[node].missing_objects_history@.last() == after[node].missing_objects
                && after[node].excess_objects_history@.last() == after[node].excess_objects,
{
    assert forall|node: u32| after.dom().contains(node) implies 1 <= (
    #[trigger] after[node]).missing_objects_history@.len() <= HISTORY_SIZE && 1
        <= after[node].excess_objects_history@.len() <= HISTORY_SIZE
        && after[node].missing_objects_history@.last() == after[node].missing_objects
        && after[node].excess_objects_history@.last() == after[node].excess_objects by {
        if before.dom().contains(node) {
            assert(node_updated(
                after[node],
                node,
                before[node].missing_objects_history@,
                before[node].excess_objects_history@,
                data.pg_map.pg_stats@,
                interval,
            ));
        } else {
            assert(node_updated(
                after[node],
                node,
                Seq::<i64>::empty(),
                Seq::<i64>::empty(),
                data.pg_map.pg_stats@,
                interval,
            ));
        }
    }
}

/// Two records say the same of the same node.
pub open spec fn same_movement(a: OsdDataMovement, b: OsdDataMovement) -> bool {
    &&& a.osd_id == b.osd_id
    &&& a.incoming_objects == b.incoming_objects
    &&& a.outgoing_objects == b.outgoing_objects
    &&& a.missing_objects == b.missing_objects
    &&& a.excess_objects == b.excess_objects
    &&& a.missing_objects_waiting == b.missing_objects_waiting
    &&& a.excess_objects_waiting == b.excess_objects_waiting
    &&& a.missing_objects_active == b.missing_objects_active
    &&& a.excess_objects_active == b.excess_objects_active
    &&& a.incoming_predicted_time_secs == b.incoming_predicted_time_secs
    &&& a.outgoing_predicted_time_secs == b.outgoing_predicted_time_secs
    &&& a.missing_objects_history@ == b.missing_objects_history@
    &&& a.excess_objects_history@ == b.excess_objects_history@
    &&& a.incoming_rate == b.incoming_rate
    &&& a.outgoing_rate == b.outgoing_rate
}

/// Two maps of records say the same of the same nodes.
pub open spec fn same_movements(
    a: Map<u32, OsdDataMovement>,
    b: Map<u32, OsdDataMovement>,
) -> bool {
    a.dom() == b.dom() && forall|node: u32|
        a.dom().contains(node) ==> same_movement(#[trigger] a[node], b[node])
}

/// A copy of `samples`.
fn copy_samples(samples: &Vec<i64>) -> (copy: Vec<i64>)
    ensures
        copy@ == samples@,
{
    let mut copy: Vec<i64> = Vec::new();
    let mut i: usize = 0;
    while i < samples.len()
        invariant
            i <= samples.len(),
            copy@ == samples@.subrange(0, i as int),
        decreases samples.len() - i,
    {
        copy.push(samples[i]);
        i = i + 1;
        assert(copy@ =~= samples@.subrange(0, i as int));
    }
    assert(copy@ =~= samples@);
    copy
}

/// A copy of `m`.
pub fn copy_movement(m: &OsdDataMovement) -> (copy: OsdDataMovement)
    ensures
        same_movement(copy, *m),
{
    OsdDataMovement {
        osd_id: m.osd_id,
        incoming_objects: m.incoming_objects,
        outgoing_objects: m.outgoing_objects,
        missing_objects: m.missing_objects,
        excess_objects: m.excess_objects,
        missing_objects_waiting: m.missing_objects_waiting,
        excess_objects_waiting: m.excess_objects_waiting,
        missing_objects_active: m.missing_objects_active,
        excess_objects_active: m.excess_objects_active,
        incoming_predicted_time_secs: m.incoming_predicted_time_secs,
        outgoing_predicted_time_secs: m.outgoing_predicted_time_secs,
        missing_objects_history: copy_samples(&m.missing_objects_history),
        excess_objects_history: copy_samples(&m.excess_objects_history),
        incoming_rate: m.incoming_rate,
        outgoing_rate: m.outgoing_rate,
    }
}

/// A copy of `movements`.
pub fn copy_movements(movements: &HashMap<u32, OsdDataMovement>) -> (copy: HashMap<
    u32,
    OsdDataMovement,
>)
    ensures
        same_movements(copy@, movements@),
{
    let keys = keys_of(movements);
    let mut copy: HashMap<u32, OsdDataMovement> = HashMap::new();
    let mut i: usize = 0;
    assert(copy@.dom() =~= keys@.subrange(0, 0).to_set());
    while i < keys.len()
        invariant
            i <= keys.len(),
            lists(keys@, movements@),
            copy@.dom() == keys@.subrange(0, i as int).to_set(),
            forall|node: u32|
                copy@.dom().contains(node) ==> same_movement(#[trigger] copy@[node], movements@[node]),
        decreases keys.len() - i,
    {
        let node: u32 = keys[i];
        assert(keys@.to_set().contains(keys@[i as int]));
        let ghost middle = copy@;
        match movements.get(&node) {
            Some(m) => {
                copy.insert(node, copy_movement(m));
                proof {
                    assert(keys@.subrange(0, i + 1) =~= keys@.subrange(0, i as int).push(node));
                    assert(copy@.dom() =~= keys@.subrange(0, i + 1).to_set()) by {
                        assert forall|other: u32| keys@.subrange(0, i + 1).contains(other)
                            <==> keys@.subrange(0, i as int).contains(other) || other == node by {
                            if keys@.subrange(0, i as int).contains(other) {
                                let k = choose|k: int|
                                    0 <= k < i && keys@.subrange(0, i as int)[k] == other;
                                assert(keys@.subrange(0, i + 1)[k] == other);
                            }
                            if other == node {
                                assert(keys@.subrange(0, i + 1)[i as int] == node);
                            }
                        }
                    }
                    assert forall|other: u32| copy@.dom().contains(other) implies same_movement(
                        #[trigger] copy@[other],
                        movements@[other],
                    ) by {
                        if other != node {
                            assert(copy@[other] == middle[other]);
                        }
                    }
                }
            },
            None => {
                assert(false);
            },
        }
        i = i + 1;
    }
    assert(keys@.subrange(0, i as int) =~= keys@);
    copy
}

} // verus!
