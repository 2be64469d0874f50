//! The table of recovery categories: objects that are missing, unfound,
//! misplaced or degraded, how fast each count falls and when it is expected
//! to reach zero.
//!
//! A category is sampled and shown while its count is above zero. A
//! category whose count is zero is neither sampled nor shown, and the
//! samples taken of it earlier are kept: should the count rise again, the
//! series goes on from them.

use crate::common::{CephPgDump, StatSum};
use crate::monitor::data::estimator::{
    eta_to_zero, spec_eta_to_zero, spec_window_rate, window_rate, Eta, Rate,
};
use crate::monitor::data::formatter::{
    format_bytes_per_second, format_eta, format_number, format_per_second,
    spec_format_bytes_per_second, spec_format_eta, spec_format_number, spec_format_per_second,
};
use crate::monitor::data::history::{recorded, HISTORY_SIZE};
use crate::monitor::state::{
    distinct_categories, samples_of, samples_or_empty, MonitorState, RecoveryData, RecoverySeries,
};
use vstd::prelude::*;
use vstd::string::StringExecFns;

verus! {

/// The four recovery categories, in the order in which they are shown.
#[derive(Clone, Copy, Debug, PartialEq, Eq, Structural)]
pub enum Category {
    /// Objects of which no copy can be reached now.
    Missing,
    /// Objects of which no copy is known.
    Unfound,
    /// Objects that are not where they should be.
    Misplaced,
    /// Objects with fewer copies than they should have.
    Degraded,
}

impl Category {
    /// The name under which the category is shown and its samples are kept.
    pub open spec fn spec_name(self) -> Seq<char> {
        match self {
            Category::Missing => "Missing"@,
            Category::Unfound => "Unfound"@,
            Category::Misplaced => "Misplaced"@,
            Category::Degraded => "Degraded"@,
        }
    }

    /// The name under which the category is shown and its samples are kept.
    pub fn name(self) -> (name: &'static str)
        ensures
            name@ == self.spec_name(),
    {
        match self {
            Category::Missing => "Missing",
            Category::Unfound => "Unfound",
            Category::Misplaced => "Misplaced",
            Category::Degraded => "Degraded",
        }
    }

    /// The objects outstanding in the category.
    pub open spec fn spec_count(self, sum: StatSum) -> i64 {
        match self {
            Category::Missing => sum.num_objects_missing,
            Category::Unfound => sum.num_objects_unfound,
            Category::Misplaced => sum.num_objects_misplaced,
            Category::Degraded => sum.num_objects_degraded,
        }
    }

    /// The objects outstanding in the category.
    pub fn count(self, sum: &StatSum) -> (count: i64)
        ensures
            count == self.spec_count(*sum),
    {
        match self {
            Category::Missing => sum.num_objects_missing,
            Category::Unfound => sum.num_objects_unfound,
            Category::Misplaced => sum.num_objects_misplaced,
            Category::Degraded => sum.num_objects_degraded,
        }
    }
}

/// No two categories share a name.
pub proof fn lemma_names_differ(a: Category, b: Category)
    ensures
        a.spec_name() == b.spec_name() ==> a == b,
{
    reveal_strlit("Missing");
    reveal_strlit("Unfound");
    reveal_strlit("Misplaced");
    reveal_strlit("Degraded");
    if a != b && a.spec_name() == b.spec_name() {
        assert(a.spec_name().len() == b.spec_name().len());
        assert(a.spec_name()[0] == b.spec_name()[0]);
    }
}

/// `n / d` with the fraction cut off, for a divisor above zero.
pub open spec fn cut_quotient(n: int, d: int) -> int
    recommends
        d > 0,
{
    if n >= 0 {
        n / d
    } else {
        -((-n) / d)
    }
}

/// `n`, or the nearest `i64` where `n` does not fit.
pub open spec fn held(n: int) -> i64 {
    if n > i64::MAX {
        i64::MAX
    } else if n < i64::MIN {
        i64::MIN
    } else {
        n as i64
    }
}

/// The estimated size of `objects` objects: as many times the average
/// object size of the cluster, the fraction of a byte cut off; nothing
/// where the cluster holds no objects.
pub open spec fn spec_estimate_bytes(objects: i64, sum: StatSum) -> i64 {
    if sum.num_objects > 0 {
        held(cut_quotient(objects * sum.num_bytes, sum.num_objects as int))
    } else {
        0
    }
}

/// The estimated size of `objects` objects.
pub fn estimate_bytes(objects: i64, sum: &StatSum) -> (bytes: i64)
    ensures
        bytes == spec_estimate_bytes(objects, *sum),
{
    if sum.num_objects <= 0 {
        return 0;
    }
    let negative: bool = (objects < 0) != (sum.num_bytes < 0);
    let a: u128 = if objects < 0 {
        (-(objects as i128)) as u128
    } else {
        objects as u128
    };
    let b: u128 = if sum.num_bytes < 0 {
        (-(sum.num_bytes as i128)) as u128
    } else {
        sum.num_bytes as u128
    };
    assert(a * b <= 0x8000_0000_0000_0000 * 0x8000_0000_0000_0000) by (nonlinear_arith)
        requires
            a <= 0x8000_0000_0000_0000,
            b <= 0x8000_0000_0000_0000,
    ;
    let size: u128 = (a * b) / (sum.num_objects as u128);
    proof {
        let x = objects as int;
        let y = sum.num_bytes as int;
        let product = x * y;
        assert(product == if negative {
            -(a * b)
        } else {
            a * b
        }) by {
            assert((-x) * y == -(x * y) && x * (-y) == -(x * y) && (-x) * (-y) == x * y)
                by (nonlinear_arith);
        }
        if a * b == 0 {
            assert(0int / (sum.num_objects as int) == 0);
        }
    }
    if negative {
        if size > 0x8000_0000_0000_0000 {
            i64::MIN
        } else {
            (-(size as i128)) as i64
        }
    } else {
        if size > 0x7fff_ffff_ffff_ffff {
            i64::MAX
        } else {
            size as i64
        }
    }
}

/// One line of the table.
#[derive(Clone, Copy, Debug, PartialEq, Eq, Structural)]
pub struct RecoveryRow {
    /// The category.
    pub category: Category,
    /// The objects outstanding in it.
    pub count: i64,
    /// Their estimated size in bytes.
    pub bytes: i64,
    /// How fast the count changes.
    pub object_rate: Rate,
    /// How fast the estimated size changes.
    pub byte_rate: Rate,
    /// When the count is expected to reach zero.
    pub eta: Eta,
}

/// The sample that a snapshot gives of a category.
pub open spec fn sample_of(sum: StatSum, category: Category) -> RecoveryData {
    RecoveryData {
        objects: category.spec_count(sum),
        bytes: spec_estimate_bytes(category.spec_count(sum), sum),
    }
}

/// The samples of a category once a snapshot has been taken into them.
pub open spec fn history_after(before: Seq<RecoverySeries>, sum: StatSum, category: Category) -> Seq<
    RecoveryData,
> {
    recorded(
        samples_or_empty(before, category.spec_name()),
        sample_of(sum, category),
        HISTORY_SIZE as nat,
    )
}

/// The samples of a category after a snapshot are at least the sample of
/// the snapshot and at most as many as a history keeps, and the newest of
/// them is the sample of the snapshot.
pub proof fn lemma_history_after_bounded(
    before: Seq<RecoverySeries>,
    sum: StatSum,
    category: Category,
)
    ensures
        1 <= history_after(before, sum, category).len() <= HISTORY_SIZE,
        history_after(before, sum, category).last() == sample_of(sum, category),
{
}

/// The line that the samples `history` of a category give: the newest count
/// and size, their rates between the oldest and the newest sample, and the
/// time in which the count reaches zero at its rate.
pub open spec fn row_from(history: Seq<RecoveryData>, category: Category, interval: nat) -> RecoveryRow
    recommends
        history.len() > 0,
{
    let oldest = history.first();
    let newest = history.last();
    let object_rate = spec_window_rate(
        oldest.objects as int,
        newest.objects as int,
        history.len(),
        interval,
    );
    RecoveryRow {
        category,
        count: newest.objects,
        bytes: newest.bytes,
        object_rate,
        byte_rate: spec_window_rate(oldest.bytes as int, newest.bytes as int, history.len(), interval),
        eta: spec_eta_to_zero(newest.objects as int, object_rate),
    }
}

/// The line of a category after a snapshot, where the category has objects
/// outstanding; no line where it has none.
pub open spec fn lines_of(
    before: Seq<RecoverySeries>,
    sum: StatSum,
    category: Category,
    interval: nat,
) -> Seq<RecoveryRow> {
    if category.spec_count(sum) > 0 {
        seq![row_from(history_after(before, sum, category), category, interval)]
    } else {
        Seq::empty()
    }
}

/// The lines of the table after a snapshot.
pub open spec fn rows_after(before: Seq<RecoverySeries>, sum: StatSum, interval: nat) -> Seq<
    RecoveryRow,
> {
    lines_of(before, sum, Category::Missing, interval) + lines_of(
        before,
        sum,
        Category::Unfound,
        interval,
    ) + lines_of(before, sum, Category::Misplaced, interval) + lines_of(
        before,
        sum,
        Category::Degraded,
        interval,
    )
}

/// Whether a snapshot leaves the samples kept under `name` alone: no
/// category with objects outstanding has that name.
pub open spec fn untouched(sum: StatSum, name: Seq<char>) -> bool {
    forall|category: Category|
        category.spec_count(sum) > 0 ==> #[trigger] category.spec_name() != name
}

/// Whether `after` are the samples of the categories once a snapshot has
/// been taken into `before`: every category with objects outstanding has
/// its sample recorded, and the samples under every other name are as they
/// were.
pub open spec fn sampled(
    before: Seq<RecoverySeries>,
    sum: StatSum,
    after: Seq<RecoverySeries>,
) -> bool {
    &&& forall|category: Category|
        category.spec_count(sum) > 0 ==> samples_of(after, #[trigger] category.spec_name())
            == Some(history_after(before, sum, category))
    &&& forall|name: Seq<char>|
        untouched(sum, name) ==> #[trigger] samples_of(after, name) == samples_of(before, name)
}

/// Takes a snapshot into the samples of one category, where the category has
/// objects outstanding, and adds its line to `rows`.
fn sample_category(
    state: &mut MonitorState,
    sum: &StatSum,
    category: Category,
    interval: u64,
    rows: &mut Vec<RecoveryRow>,
)
    ensures
        final(rows)@ == old(rows)@ + lines_of(
            old(state).recovery(),
            *sum,
            category,
            interval as nat,
        ),
        category.spec_count(*sum) > 0 ==> samples_of(
            final(state).recovery(),
            category.spec_name(),
        ) == Some(history_after(old(state).recovery(), *sum, category)),
        category.spec_count(*sum) <= 0 ==> samples_of(
            final(state).recovery(),
            category.spec_name(),
        ) == samples_of(old(state).recovery(), category.spec_name()),
        forall|other: Seq<char>|
            other != category.spec_name() ==> samples_of(final(state).recovery(), other)
                == samples_of(old(state).recovery(), other),
        distinct_categories(old(state).recovery()) ==> distinct_categories(final(state).recovery()),
        final(state).movements() == old(state).movements(),
        final(state).progress() == old(state).progress(),
        final(state).popup() == old(state).popup(),
{
    let objects: i64 = category.count(sum);
    if objects <= 0 {
        assert(rows@ + Seq::<RecoveryRow>::empty() =~= rows@);
        return ;
    }
    let bytes: i64 = estimate_bytes(objects, sum);
    let ghost wanted = history_after(old(state).recovery(), *sum, category);
    state.add_recovery_data(category.name(), RecoveryData { objects, bytes }, HISTORY_SIZE);
    match state.get_recovery_history(category.name()) {
        Some(history) => {
            assert(history@ == wanted);
            assert(history@.len() > 0 && history@.last() == sample_of(*sum, category));
            let n: usize = history.len();
            let oldest = history[0];
            let object_rate = window_rate(oldest.objects, objects, n, interval);
            let byte_rate = window_rate(oldest.bytes, bytes, n, interval);
            let row = RecoveryRow {
                category,
                count: objects,
                bytes,
                object_rate,
                byte_rate,
                eta: eta_to_zero(objects, object_rate),
            };
            assert(row == row_from(wanted, category, interval as nat));
            rows.push(row);
            assert(rows@ =~= old(rows)@ + seq![row]);
        },
        None => {
            assert(false);
        },
    }
}

/// Takes a snapshot into the samples of the recovery categories and gives
/// the lines of the table.
///
/// Each category with objects outstanding has its sample recorded and gets
/// a line, in the order missing, unfound, misplaced, degraded. A category
/// without objects outstanding gets no line, and its samples stay as they
/// are; so does everything else in the session. Series that were one to a
/// category stay one to a category.
pub fn recovery_progress_rows(data: &CephPgDump, state: &mut MonitorState, interval: u64) -> (rows:
    Vec<RecoveryRow>)
    ensures
        rows@ == rows_after(
            old(state).recovery(),
            data.pg_map.pg_stats_sum.stat_sum,
            interval as nat,
        ),
        sampled(
            old(state).recovery(),
            data.pg_map.pg_stats_sum.stat_sum,
            final(state).recovery(),
        ),
        distinct_categories(old(state).recovery()) ==> distinct_categories(final(state).recovery()),
        final(state).movements() == old(state).movements(),
        final(state).progress() == old(state).progress(),
        final(state).popup() == old(state).popup(),
{
    let sum = &data.pg_map.pg_stats_sum.stat_sum;
    let ghost s0 = state.recovery();
    let mut rows: Vec<RecoveryRow> = Vec::new();
    proof {
        lemma_names_differ(Category::Missing, Category::Unfound);
        lemma_names_differ(Category::Missing, Category::Misplaced);
        lemma_names_differ(Category::Missing, Category::Degraded);
        lemma_names_differ(Category::Unfound, Category::Misplaced);
        lemma_names_differ(Category::Unfound, Category::Degraded);
        lemma_names_differ(Category::Misplaced, Category::Degraded);
    }
    sample_category(state, sum, Category::Missing, interval, &mut rows);
    let ghost s1 = state.recovery();
    assert(lines_of(s1, *sum, Category::Unfound, interval as nat) == lines_of(
        s0,
        *sum,
        Category::Unfound,
        interval as nat,
    ));
    sample_category(state, sum, Category::Unfound, interval, &mut rows);
    let ghost s2 = state.recovery();
    assert(lines_of(s2, *sum, Category::Misplaced, interval as nat) == lines_of(
        s0,
        *sum,
        Category::Misplaced,
        interval as nat,
    ));
    sample_category(state, sum, Category::Misplaced, interval, &mut rows);
    let ghost s3 = state.recovery();
    assert(lines_of(s3, *sum, Category::Degraded, interval as nat) == lines_of(
        s0,
        *sum,
        Category::Degraded,
        interval as nat,
    ));
    sample_category(state, sum, Category::Degraded, interval, &mut rows);
    proof {
        let s4 = state.recovery();
        assert(rows@ =~= rows_after(s0, *sum, interval as nat));
        assert forall|category: Category| category.spec_count(*sum) > 0 implies samples_of(
            s4,
            #[trigger] category.spec_name(),
        ) == Some(history_after(s0, *sum, category)) by {
            match category {
                Category::Missing => {
                    assert(samples_of(s1, category.spec_name()) == Some(
                        history_after(s0, *sum, category),
                    ));
                },
                Category::Unfound => {
                    assert(samples_of(s2, category.spec_name()) == Some(
                        history_after(s1, *sum, category),
                    ));
                },
                Category::Misplaced => {
                    assert(samples_of(s3, category.spec_name()) == Some(
                        history_after(s2, *sum, category),
                    ));
                },
                Category::Degraded => {},
            }
        }
        assert forall|name: Seq<char>| untouched(*sum, name) implies #[trigger] samples_of(
            s4,
            name,
        ) == samples_of(s0, name) by {
            assert(Category::Missing.spec_count(*sum) > 0 ==> Category::Missing.spec_name()
                != name);
            assert(Category::Unfound.spec_count(*sum) > 0 ==> Category::Unfound.spec_name()
                != name);
            assert(Category::Misplaced.spec_count(*sum) > 0 ==> Category::Misplaced.spec_name()
                != name);
            assert(Category::Degraded.spec_count(*sum) > 0 ==> Category::Degraded.spec_name()
                != name);
        }
    }
    rows
}

/// The texts of one line of the table.
#[derive(Debug, Clone)]
pub struct RecoveryCells {
    /// The category's name.
    pub category: String,
    /// The objects outstanding, in short.
    pub count: String,
    /// Objects per second.
    pub object_rate: String,
    /// Data per second.
    pub data_rate: String,
    /// When the count is expected to reach zero.
    pub eta: String,
}

/// Whether a data rate is below a kilobyte per second.
pub open spec fn below_kilobyte(rate: Rate) -> bool {
    rate.seconds == 0 || rate.amount < 1024 * rate.seconds
}

/// A data rate as it is shown in the table: nothing below a kilobyte per
/// second.
pub open spec fn data_rate_text(rate: Rate) -> Seq<char> {
    if below_kilobyte(rate) {
        "0B/s"@
    } else {
        spec_format_bytes_per_second(rate)
    }
}

/// Whether `cells` are the texts of `row`: the category's name, the count
/// in short, the object rate with one decimal, the data rate in its largest
/// unit, and the remaining time. Rates are shown without their direction.
pub open spec fn renders(cells: RecoveryCells, row: RecoveryRow) -> bool {
    &&& cells.category@ == row.category.spec_name()
    &&& cells.count@ == spec_format_number(row.count as int)
    &&& cells.object_rate@ == spec_format_per_second(row.object_rate) + "/s"@
    &&& cells.data_rate@ == data_rate_text(row.byte_rate)
    &&& cells.eta@ == spec_format_eta(row.eta)
}

/// The texts of `row`.
pub fn recovery_cells(row: &RecoveryRow) -> (cells: RecoveryCells)
    ensures
        renders(cells, *row),
{
    let mut object_rate = format_per_second(row.object_rate);
    object_rate.append("/s");
    let slow: bool = row.byte_rate.seconds == 0 || (row.byte_rate.amount as u128) / 1024
        < row.byte_rate.seconds;
    let data_rate = if slow {
        "0B/s".to_owned()
    } else {
        format_bytes_per_second(row.byte_rate)
    };
    RecoveryCells {
        category: row.category.name().to_owned(),
        count: format_number(row.count),
        object_rate,
        data_rate,
        eta: format_eta(row.eta),
    }
}

} // verus!
