//! The table of storage nodes that have data to receive or to shed.

use crate::common::OsdDataMovement;
use crate::monitor::data::estimator::Rate;
use crate::monitor::data::movement::{keys_of, lists};
use crate::monitor::data::formatter::{
    decimal, format_count, format_number, format_optional_rate, format_optional_time, pad_left,
    spec_format_number, spec_format_optional_rate, spec_format_optional_time, spec_pad_left,
};
use std::collections::HashMap;
use vstd::prelude::*;

verus! {

broadcast use vstd::std_specs::hash::group_hash_axioms;

/// One line of the table: what a node is due to receive and to shed.
#[derive(Clone, Copy, Debug, PartialEq, Eq, Structural)]
pub struct OsdMovementRow {
    /// The node's identifier.
    pub osd_id: u32,
    /// Everything the node is missing.
    pub missing_total: i64,
    /// Everything the node has in excess.
    pub excess_total: i64,
    /// The missing objects whose transfer is queued.
    pub missing_waiting: i64,
    /// The missing objects that are being transferred.
    pub missing_active: i64,
    /// How fast the missing objects come in.
    pub missing_rate: Option<Rate>,
    /// Seconds until nothing is missing.
    pub missing_eta: Option<u64>,
    /// The excess objects whose transfer is queued.
    pub excess_waiting: i64,
    /// The excess objects that are being transferred.
    pub excess_active: i64,
    /// How fast the excess objects go out.
    pub excess_rate: Option<Rate>,
    /// Seconds until nothing is in excess.
    pub excess_eta: Option<u64>,
}

/// The line that shows the record `m` of `node`.
pub open spec fn row_of(node: u32, m: OsdDataMovement) -> OsdMovementRow {
    OsdMovementRow {
        osd_id: node,
        missing_total: m.missing_objects,
        excess_total: m.excess_objects,
        missing_waiting: m.missing_objects_waiting,
        missing_active: m.missing_objects_active,
        missing_rate: m.incoming_rate,
        missing_eta: m.incoming_predicted_time_secs,
        excess_waiting: m.excess_objects_waiting,
        excess_active: m.excess_objects_active,
        excess_rate: m.outgoing_rate,
        excess_eta: m.outgoing_predicted_time_secs,
    }
}

/// A node is shown while it is missing something or has something in
/// excess.
pub open spec fn shown(m: OsdDataMovement) -> bool {
    m.missing_objects > 0 || m.excess_objects > 0
}

/// The lines of the nodes that are shown, in the order in which `keys` names
/// the nodes.
pub open spec fn shown_rows(movements: Map<u32, OsdDataMovement>, keys: Seq<u32>) -> Seq<
    OsdMovementRow,
>
    decreases keys.len(),
{
    if keys.len() == 0 {
        Seq::empty()
    } else if shown(movements[keys.last()]) {
        shown_rows(movements, keys.drop_last()).push(row_of(keys.last(), movements[keys.last()]))
    } else {
        shown_rows(movements, keys.drop_last())
    }
}

/// Whether `a` stands above `b`: the node that misses more comes first,
/// among those the node with more in excess, among those the node with the
/// smaller identifier.
pub open spec fn above(a: OsdMovementRow, b: OsdMovementRow) -> bool {
    a.missing_total > b.missing_total || (a.missing_total == b.missing_total && (a.excess_total
        > b.excess_total || (a.excess_total == b.excess_total && a.osd_id < b.osd_id)))
}

/// No line stands below a line that it should stand above.
pub open spec fn in_order(rows: Seq<OsdMovementRow>) -> bool {
    forall|i: int, j: int| 0 <= i < j < rows.len() ==> !above(rows[j], rows[i])
}

/// Whether `a` stands above `b`.
fn stands_above(a: &OsdMovementRow, b: &OsdMovementRow) -> (r: bool)
    ensures
        r == above(*a, *b),
{
    a.missing_total > b.missing_total || (a.missing_total == b.missing_total && (a.excess_total
        > b.excess_total || (a.excess_total == b.excess_total && a.osd_id < b.osd_id)))
}

/// The line that shows the record `m` of `node`.
pub fn movement_row(node: u32, m: &OsdDataMovement) -> (row: OsdMovementRow)
    ensures
        row == row_of(node, *m),
{
    OsdMovementRow {
        osd_id: node,
        missing_total: m.missing_objects,
        excess_total: m.excess_objects,
        missing_waiting: m.missing_objects_waiting,
        missing_active: m.missing_objects_active,
        missing_rate: m.incoming_rate,
        missing_eta: m.incoming_predicted_time_secs,
        excess_waiting: m.excess_objects_waiting,
        excess_active: m.excess_objects_active,
        excess_rate: m.outgoing_rate,
        excess_eta: m.outgoing_predicted_time_secs,
    }
}

/// Puts `row` into `rows` at its place.
fn place(rows: &mut Vec<OsdMovementRow>, row: OsdMovementRow)
    requires
        in_order(old(rows)@),
    ensures
        in_order(final(rows)@),
        final(rows)@.to_multiset() == old(rows)@.to_multiset().insert(row),
{
    let ghost before = rows@;
    let mut at: usize = 0;
    while at < rows.len() && !stands_above(&row, &rows[at])
        invariant
            at <= rows.len(),
            rows@ == before,
            forall|k: int| 0 <= k < at ==> !above(row, rows@[k]),
        decreases rows.len() - at,
    {
        at = at + 1;
    }
    rows.insert(at, row);
    proof {
        let after = rows@;
        assert forall|i: int, j: int| 0 <= i < j < after.len() implies !above(
            after[j],
            after[i],
        ) by {
            if i == at {
                // `row` stands above the line that was at its place, and that
                // line is not below any later one.
                assert(after[j] == before[j - 1]);
                if at < j - 1 {
                    assert(!above(before[j - 1], before[at as int]));
                }
            } else if j == at {
                assert(after[i] == before[i]);
            } else if i < at && j > at {
                assert(after[i] == before[i] && after[j] == before[j - 1]);
            } else if i > at {
                assert(after[i] == before[i - 1] && after[j] == before[j - 1]);
            } else {
                assert(after[i] == before[i] && after[j] == before[j]);
            }
        }
        assert(after.remove(at as int) =~= before);
        vstd::seq_lib::to_multiset_remove(after, at as int);
        assert(after[at as int] == row);
        after.to_multiset_ensures();
        assert(after.contains(row));
        assert(after.to_multiset() =~= before.to_multiset().insert(row));
    }
}

/// What one more node adds to the lines that are shown.
proof fn lemma_shown_next(movements: Map<u32, OsdDataMovement>, keys: Seq<u32>, i: int)
    requires
        0 <= i < keys.len(),
    ensures
        shown_rows(movements, keys.subrange(0, i + 1)) == if shown(movements[keys[i]]) {
            shown_rows(movements, keys.subrange(0, i)).push(row_of(keys[i], movements[keys[i]]))
        } else {
            shown_rows(movements, keys.subrange(0, i))
        },
{
    let next = keys.subrange(0, i + 1);
    assert(next.drop_last() =~= keys.subrange(0, i));
    assert(next.last() == keys[i]);
}

/// Every line that is shown is of a node that misses something or has
/// something in excess.
pub proof fn lemma_shown_rows_move(movements: Map<u32, OsdDataMovement>, keys: Seq<u32>)
    ensures
        forall|k: int|
            0 <= k < shown_rows(movements, keys).len() ==> (#[trigger] shown_rows(
                movements,
                keys,
            )[k]).missing_total > 0 || shown_rows(movements, keys)[k].excess_total > 0,
    decreases keys.len(),
{
    if keys.len() > 0 {
        lemma_shown_rows_move(movements, keys.drop_last());
    }
}

/// The lines of the table: one for each node that misses something or has
/// something in excess, and none for any other node. The node that misses
/// most stands first; among nodes that miss the same, the one with most in
/// excess; among those, the one with the smallest identifier.
pub fn osd_movement_rows(movements: &HashMap<u32, OsdDataMovement>) -> (rows: Vec<OsdMovementRow>)
    ensures
        in_order(rows@),
        exists|keys: Seq<u32>|
            lists(keys, movements@) && rows@.to_multiset() == shown_rows(
                movements@,
                keys,
            ).to_multiset(),
        forall|k: int|
            0 <= k < rows@.len() ==> (#[trigger] rows@[k]).missing_total > 0
                || rows@[k].excess_total > 0,
{
    let keys = keys_of(movements);
    let mut rows: Vec<OsdMovementRow> = Vec::new();
    let mut i: usize = 0;
    assert(shown_rows(movements@, keys@.subrange(0, 0)) =~= Seq::<OsdMovementRow>::empty());
    while i < keys.len()
        invariant
            i <= keys.len(),
            lists(keys@, movements@),
            in_order(rows@),
            rows@.to_multiset() == shown_rows(
                movements@,
                keys@.subrange(0, i as int),
            ).to_multiset(),
        decreases keys.len() - i,
    {
        proof {
            lemma_shown_next(movements@, keys@, i as int);
            assert(keys@.to_set().contains(keys@[i as int]));
        }
        match movements.get(&keys[i]) {
            Some(m) => {
                if m.missing_objects > 0 || m.excess_objects > 0 {
                    let row = movement_row(keys[i], m);
                    place(&mut rows, row);
                    proof {
                        vstd::seq_lib::to_multiset_build(
                            shown_rows(movements@, keys@.subrange(0, i as int)),
                            row,
                        );
                    }
                }
            },
            None => {
                assert(false);
            },
        }
        i = i + 1;
    }
    proof {
        assert(keys@.subrange(0, i as int) =~= keys@);
        let all = shown_rows(movements@, keys@);
        lemma_shown_rows_move(movements@, keys@);
        rows@.to_multiset_ensures();
        all.to_multiset_ensures();
        assert forall|k: int| 0 <= k < rows@.len() implies (#[trigger] rows@[k]).missing_total > 0
            || rows@[k].excess_total > 0 by {
            assert(rows@.contains(rows@[k]));
            assert(all.to_multiset().count(rows@[k]) > 0);
            assert(all.contains(rows@[k]));
            let j = choose|j: int| 0 <= j < all.len() && all[j] == rows@[k];
            assert(all[j].missing_total > 0 || all[j].excess_total > 0);
        }
    }
    rows
}

/// The texts of one line of the table.
#[derive(Debug, Clone)]
pub struct OsdMovementCells {
    /// The node's identifier.
    pub osd: String,
    /// The missing objects whose transfer is queued.
    pub missing_waiting: String,
    /// The missing objects that are being transferred.
    pub missing_active: String,
    /// Whether any missing objects are being transferred.
    pub missing_active_bold: bool,
    /// How fast the missing objects come in, per second.
    pub missing_rate: String,
    /// The time until nothing is missing.
    pub missing_eta: String,
    /// The excess objects whose transfer is queued.
    pub excess_waiting: String,
    /// The excess objects that are being transferred.
    pub excess_active: String,
    /// Whether any excess objects are being transferred.
    pub excess_active_bold: bool,
    /// How fast the excess objects go out, per second.
    pub excess_rate: String,
    /// The time until nothing is in excess.
    pub excess_eta: String,
}

/// A count in short, at the right edge of a field of six characters.
pub open spec fn count_cell(count: i64) -> Seq<char> {
    spec_pad_left(spec_format_number(count as int), 6)
}

/// Whether `cells` are the texts of `row`: counts in short in fields of six
/// characters, rates in fields of seven and remaining times in fields of
/// nine, each `N/A` where there is none; a count of objects in transfer is
/// set in bold while it is above zero.
pub open spec fn renders(cells: OsdMovementCells, row: OsdMovementRow) -> bool {
    &&& cells.osd@ == decimal(row.osd_id as nat)
    &&& cells.missing_waiting@ == count_cell(row.missing_waiting)
    &&& cells.missing_active@ == count_cell(row.missing_active)
    &&& cells.missing_active_bold == (row.missing_active > 0)
    &&& cells.missing_rate@ == spec_pad_left(spec_format_optional_rate(row.missing_rate), 7)
    &&& cells.missing_eta@ == spec_pad_left(spec_format_optional_time(row.missing_eta), 9)
    &&& cells.excess_waiting@ == count_cell(row.excess_waiting)
    &&& cells.excess_active@ == count_cell(row.excess_active)
    &&& cells.excess_active_bold == (row.excess_active > 0)
    &&& cells.excess_rate@ == spec_pad_left(spec_format_optional_rate(row.excess_rate), 7)
    &&& cells.excess_eta@ == spec_pad_left(spec_format_optional_time(row.excess_eta), 9)
}

/// A count in short, at the right edge of a field of six characters.
fn count_text(count: i64) -> (text: String)
    ensures
        text@ == count_cell(count),
{
    let short = format_number(count);
    pad_left(short.as_str(), 6)
}

/// The texts of `row`.
pub fn osd_movement_cells(row: &OsdMovementRow) -> (cells: OsdMovementCells)
    ensures
        renders(cells, *row),
{
    let missing_rate = format_optional_rate(row.missing_rate);
    let missing_eta = format_optional_time(row.missing_eta);
    let excess_rate = format_optional_rate(row.excess_rate);
    let excess_eta = format_optional_time(row.excess_eta);
    OsdMovementCells {
        osd: format_count(row.osd_id as u64),
        missing_waiting: count_text(row.missing_waiting),
        missing_active: count_text(row.missing_active),
        missing_active_bold: row.missing_active > 0,
        missing_rate: pad_left(missing_rate.as_str(), 7),
        missing_eta: pad_left(missing_eta.as_str(), 9),
        excess_waiting: count_text(row.excess_waiting),
        excess_active: count_text(row.excess_active),
        excess_active_bold: row.excess_active > 0,
        excess_rate: pad_left(excess_rate.as_str(), 7),
        excess_eta: pad_left(excess_eta.as_str(), 9),
    }
}

} // verus!
