//! The table of placement groups that are flagged inconsistent.

use crate::common::InconsistentPgProgress;
use crate::monitor::data::formatter::{
    format_number, format_optional_rate, format_optional_time, format_percentage,
    spec_format_number, spec_format_optional_rate, spec_format_optional_time,
    spec_format_percentage,
};
use crate::monitor::data::label::{
    chars_of, comes_before, lemma_text_before_total, lemma_text_before_transitive, parse_state,
    spec_parse_state, text_before,
};
use vstd::prelude::*;

verus! {

/// Whether the record at `a` stands above the record at `b`: the one whose
/// group identifier comes first in the order of a dictionary, and of two
/// records of one identifier the one that stands first among the records.
pub open spec fn precedes(records: Seq<InconsistentPgProgress>, a: int, b: int) -> bool {
    text_before(records[a].pgid@, records[b].pgid@) || (records[a].pgid@ == records[b].pgid@ && a
        < b)
}

/// `order` names each of the first `count` records once, the records in the
/// order of their group identifiers.
pub open spec fn orders(records: Seq<InconsistentPgProgress>, order: Seq<usize>, count: int) -> bool {
    &&& order.len() == count
    &&& forall|i: int| 0 <= i < order.len() ==> 0 <= #[trigger] order[i] < count
    &&& forall|i: int, j: int|
        0 <= i < j < order.len() ==> precedes(records, order[i] as int, order[j] as int)
}

/// An order names no record twice.
pub proof fn lemma_order_names_once(
    records: Seq<InconsistentPgProgress>,
    order: Seq<usize>,
    count: int,
)
    requires
        count <= records.len(),
        orders(records, order, count),
    ensures
        forall|i: int, j: int| 0 <= i < j < order.len() ==> order[i] != order[j],
{
    assert forall|i: int, j: int| 0 <= i < j < order.len() implies order[i] != order[j] by {
        assert(precedes(records, order[i] as int, order[j] as int));
        if order[i] == order[j] {
            crate::monitor::data::label::lemma_text_before_irreflexive(
                records[order[i] as int].pgid@,
            );
        }
    }
}

/// The order in which the records are shown: by group identifier.
pub fn inconsistent_pg_order(records: &Vec<InconsistentPgProgress>) -> (order: Vec<usize>)
    ensures
        orders(records@, order@, records@.len() as int),
{
    let mut keys: Vec<Vec<char>> = Vec::new();
    let mut k: usize = 0;
    while k < records.len()
        invariant
            k <= records.len(),
            keys@.len() == k,
            forall|i: int| 0 <= i < k ==> (#[trigger] keys@[i])@ == records@[i].pgid@,
        decreases records.len() - k,
    {
        keys.push(chars_of(records[k].pgid.as_str()));
        k = k + 1;
    }
    let mut order: Vec<usize> = Vec::new();
    let mut next: usize = 0;
    while next < records.len()
        invariant
            next <= records.len(),
            keys@.len() == records@.len(),
            forall|i: int| 0 <= i < keys@.len() ==> (#[trigger] keys@[i])@ == records@[i].pgid@,
            orders(records@, order@, next as int),
        decreases records.len() - next,
    {
        let ghost before = order@;
        let mut at: usize = 0;
        while at < order.len() && !comes_before(&keys[next], &keys[order[at]])
            invariant
                at <= order.len(),
                order@ == before,
                next < records.len(),
                keys@.len() == records@.len(),
                forall|i: int| 0 <= i < keys@.len() ==> (#[trigger] keys@[i])@ == records@[i].pgid@,
                orders(records@, before, next as int),
                forall|i: int|
                    0 <= i < at ==> !text_before(
                        records@[next as int].pgid@,
                        records@[#[trigger] before[i] as int].pgid@,
                    ),
            decreases order.len() - at,
        {
            at = at + 1;
        }
        order.insert(at, next);
        proof {
            let after = order@;
            let key = records@[next as int].pgid@;
            assert forall|i: int| 0 <= i < after.len() implies 0 <= #[trigger] after[i] < next
                + 1 by {
                if i < at {
                    assert(after[i] == before[i]);
                } else if i > at {
                    assert(after[i] == before[i - 1]);
                }
            }
            assert forall|i: int, j: int| 0 <= i < j < after.len() implies precedes(
                records@,
                after[i] as int,
                after[j] as int,
            ) by {
                if j < at {
                    assert(after[i] == before[i] && after[j] == before[j]);
                } else if j == at {
                    assert(after[i] == before[i]);
                    lemma_text_before_total(records@[before[i] as int].pgid@, key);
                    assert(before[i] < next);
                } else if i == at {
                    assert(after[j] == before[j - 1]);
                    let first = records@[before[at as int] as int].pgid@;
                    let other = records@[before[j - 1] as int].pgid@;
                    assert(text_before(key, first));
                    if at < j - 1 {
                        assert(precedes(records@, before[at as int] as int, before[j - 1] as int));
                        if text_before(first, other) {
                            lemma_text_before_transitive(key, first, other);
                        }
                    }
                } else if i < at {
                    assert(after[i] == before[i] && after[j] == before[j - 1]);
                } else {
                    assert(after[i] == before[i - 1] && after[j] == before[j - 1]);
                }
            }
        }
        next = next + 1;
    }
    order
}

/// A node of a group, and whether it is the group's primary.
#[derive(Clone, Copy, Debug, PartialEq, Eq, Structural)]
pub struct OsdMark {
    /// The node's identifier.
    pub osd: u32,
    /// Whether the node is the primary of the group's current node set.
    pub primary: bool,
}

/// The group's current node set, in its order, the primary among the nodes
/// marked.
pub fn osd_marks(record: &InconsistentPgProgress) -> (marks: Vec<OsdMark>)
    ensures
        marks@.len() == record.up_osds@.len(),
        forall|i: int|
            0 <= i < marks@.len() ==> #[trigger] marks@[i] == (OsdMark {
                osd: record.up_osds@[i],
                primary: record.up_osds@[i] == record.primary_osd,
            }),
{
    let mut marks: Vec<OsdMark> = Vec::new();
    let mut i: usize = 0;
    while i < record.up_osds.len()
        invariant
            i <= record.up_osds.len(),
            marks@.len() == i,
            forall|k: int|
                0 <= k < i ==> #[trigger] marks@[k] == (OsdMark {
                    osd: record.up_osds@[k],
                    primary: record.up_osds@[k] == record.primary_osd,
                }),
        decreases record.up_osds.len() - i,
    {
        let osd: u32 = record.up_osds[i];
        marks.push(OsdMark { osd, primary: osd == record.primary_osd });
        i = i + 1;
    }
    marks
}

/// One line of the table.
#[derive(Debug, Clone)]
pub struct InconsistentPgRow {
    /// The group's identifier.
    pub pgid: String,
    /// The group's object copies, in short.
    pub objects: String,
    /// The group's current node set, the primary marked.
    pub osds: Vec<OsdMark>,
    /// The share of the object copies that has been scrubbed, in percent.
    pub scrubbed: String,
    /// Objects scrubbed per second.
    pub rate: String,
    /// The time until the scrub has covered every copy.
    pub eta: String,
    /// Whether the group is under repair.
    pub repair: bool,
}

/// Whether `row` is the line that shows `record`: its identifier, its
/// object copies in short, its current node set with the primary marked,
/// the scrubbed share in percent, which
/// is `0.0%` for a group without object copies, the scrub rate and the
/// remaining time, each `N/A` where there is none, and whether the group's
/// state holds `repair`.
pub open spec fn shows(row: InconsistentPgRow, record: InconsistentPgProgress) -> bool {
    &&& row.pgid@ == record.pgid@
    &&& row.objects@ == spec_format_number(record.num_objects as int)
    &&& row.osds@.len() == record.up_osds@.len()
    &&& forall|i: int|
        0 <= i < row.osds@.len() ==> #[trigger] row.osds@[i] == (OsdMark {
            osd: record.up_osds@[i],
            primary: record.up_osds@[i] == record.primary_osd,
        })
    &&& row.scrubbed@ == spec_format_percentage(
        record.objects_scrubbed as nat,
        record.num_objects as int,
    )
    &&& row.rate@ == spec_format_optional_rate(record.scrub_rate)
    &&& row.eta@ == spec_format_optional_time(record.eta_seconds)
    &&& row.repair == spec_parse_state(record.state@).repair
}

/// The line that shows `record`.
pub fn inconsistent_pg_row(record: &InconsistentPgProgress) -> (row: InconsistentPgRow)
    ensures
        shows(row, *record),
{
    InconsistentPgRow {
        pgid: record.pgid.clone(),
        objects: format_number(record.num_objects),
        osds: osd_marks(record),
        scrubbed: format_percentage(record.objects_scrubbed, record.num_objects),
        rate: format_optional_rate(record.scrub_rate),
        eta: format_optional_time(record.eta_seconds),
        repair: parse_state(record.state.as_str()).repair,
    }
}

/// The lines of the table: one for each record, in the order of the group
/// identifiers.
pub fn inconsistent_pg_rows(records: &Vec<InconsistentPgProgress>) -> (rows: Vec<InconsistentPgRow>)
    ensures
        rows@.len() == records@.len(),
        forall|i: int, j: int|
            0 <= i < j < rows@.len() ==> !text_before(rows@[j].pgid@, rows@[i].pgid@),
        exists|order: Seq<usize>|
            orders(records@, order, records@.len() as int) && forall|i: int|
                0 <= i < rows@.len() ==> shows(#[trigger] rows@[i], records@[order[i] as int]),
{
    let order = inconsistent_pg_order(records);
    let mut rows: Vec<InconsistentPgRow> = Vec::new();
    let mut i: usize = 0;
    while i < order.len()
        invariant
            i <= order.len(),
            orders(records@, order@, records@.len() as int),
            rows@.len() == i,
            forall|k: int| 0 <= k < i ==> shows(#[trigger] rows@[k], records@[order@[k] as int]),
        decreases order.len() - i,
    {
        rows.push(inconsistent_pg_row(&records[order[i]]));
        i = i + 1;
    }
    proof {
        assert forall|a: int, b: int| 0 <= a < b < rows@.len() implies !text_before(
            rows@[b].pgid@,
            rows@[a].pgid@,
        ) by {
            assert(shows(rows@[a], records@[order@[a] as int]));
            assert(shows(rows@[b], records@[order@[b] as int]));
            assert(precedes(records@, order@[a] as int, order@[b] as int));
            lemma_text_before_total(rows@[a].pgid@, rows@[b].pgid@);
            crate::monitor::data::label::lemma_text_before_irreflexive(rows@[a].pgid@);
        }
    }
    rows
}

} // verus!
