//! What a monitoring session carries from poll to poll.

use crate::common::{InconsistentPgProgress, OsdDataMovement};
use crate::monitor::data::history::{record, recorded};
use std::collections::HashMap;
use vstd::prelude::*;

verus! {

broadcast use vstd::std_specs::hash::group_hash_axioms;

/// One sample of a recovery category.
#[derive(Debug, Clone, Copy, PartialEq, Eq, Structural)]
pub struct RecoveryData {
    /// Objects outstanding in the category.
    pub objects: i64,
    /// Their estimated size in bytes.
    pub bytes: i64,
}

/// A failed run of the command that fetches the snapshot, as shown to the
/// user.
#[derive(Debug, Clone)]
pub struct CommandError {
    /// The command line that was run.
    pub command: String,
    /// What the command wrote to its standard output.
    pub stdout: String,
    /// What the command wrote to its standard error.
    pub stderr: String,
    /// The command's exit code.
    pub exit_code: i32,
    /// How many lines the view of the error is scrolled down.
    pub scroll_offset: u16,
}

/// The samples of one recovery category, oldest first.
#[derive(Debug, Clone)]
pub struct RecoverySeries {
    /// The category's name.
    pub category: String,
    /// The samples recorded for it.
    pub samples: Vec<RecoveryData>,
}

/// Whether a series of `all` is about `category`.
pub open spec fn category_known(all: Seq<RecoverySeries>, category: Seq<char>) -> bool {
    exists|k: int| 0 <= k < all.len() && (#[trigger] all[k]).category@ == category
}

/// No two series are about the same category.
pub open spec fn distinct_categories(all: Seq<RecoverySeries>) -> bool {
    forall|i: int, j: int|
        0 <= i < j < all.len() ==> (#[trigger] all[i]).category@ != (#[trigger] all[j]).category@
}

/// Series that keep their categories in their places are as distinct as
/// they were.
pub proof fn lemma_distinct_categories_kept(before: Seq<RecoverySeries>, after: Seq<RecoverySeries>)
    requires
        distinct_categories(before),
        after.len() == before.len(),
        forall|k: int| 0 <= k < before.len() ==> (#[trigger] after[k]).category@ == before[k].category@,
    ensures
        distinct_categories(after),
{
    assert forall|i: int, j: int| 0 <= i < j < after.len() implies (#[trigger] after[i]).category@
        != (#[trigger] after[j]).category@ by {
        assert(before[i].category@ != before[j].category@);
    }
}

/// A series of a category that no series was about leaves the series
/// distinct.
pub proof fn lemma_distinct_categories_push(before: Seq<RecoverySeries>, added: RecoverySeries)
    requires
        distinct_categories(before),
        !category_known(before, added.category@),
    ensures
        distinct_categories(before.push(added)),
{
    let after = before.push(added);
    assert forall|i: int, j: int| 0 <= i < j < after.len() implies (#[trigger] after[i]).category@
        != (#[trigger] after[j]).category@ by {
        if j < before.len() {
            assert(after[i] == before[i] && after[j] == before[j]);
        } else {
            assert(after[i] == before[i]);
        }
    }
}

/// The samples recorded for `category`, if any series is about it.
pub open spec fn samples_of(all: Seq<RecoverySeries>, category: Seq<char>) -> Option<
    Seq<RecoveryData>,
>
    decreases all.len(),
{
    if all.len() == 0 {
        None
    } else if all.first().category@ == category {
        Some(all.first().samples@)
    } else {
        samples_of(all.drop_first(), category)
    }
}

/// The samples recorded for `category`: none where no series is about it.
pub open spec fn samples_or_empty(all: Seq<RecoverySeries>, category: Seq<char>) -> Seq<
    RecoveryData,
> {
    match samples_of(all, category) {
        Some(samples) => samples,
        None => Seq::empty(),
    }
}

/// Where no series is about `category`, `samples_of` finds none.
pub proof fn lemma_samples_of_unknown(all: Seq<RecoverySeries>, category: Seq<char>)
    requires
        !category_known(all, category),
    ensures
        samples_of(all, category) is None,
    decreases all.len(),
{
    if all.len() > 0 {
        let rest = all.drop_first();
        assert(all[0].category@ != category);
        assert forall|k: int| 0 <= k < rest.len() implies (#[trigger] rest[k]).category@
            != category by {
            assert(rest[k] == all[k + 1]);
        }
        lemma_samples_of_unknown(rest, category);
    }
}

/// Whether two texts are the same.
pub fn same_text(a: &str, b: &str) -> (same: bool)
    ensures
        same == (a@ == b@),
{
    let x = a.to_owned();
    let y = b.to_owned();
    x == y
}

/// The first series about `category` is the one that `samples_of` finds.
pub proof fn lemma_samples_of_first(all: Seq<RecoverySeries>, category: Seq<char>, k: int)
    requires
        0 <= k < all.len(),
        all[k].category@ == category,
        forall|j: int| 0 <= j < k ==> (#[trigger] all[j]).category@ != category,
    ensures
        samples_of(all, category) == Some(all[k].samples@),
    decreases all.len(),
{
    if k > 0 {
        let rest = all.drop_first();
        assert(all[0].category@ != category);
        assert(rest[k - 1] == all[k]);
        assert forall|j: int| 0 <= j < k - 1 implies (#[trigger] rest[j]).category@
            != category by {
            assert(rest[j] == all[j + 1]);
        }
        lemma_samples_of_first(rest, category, k - 1);
    }
}

/// A series that keeps its category leaves the samples of every other
/// category as they were.
pub proof fn lemma_samples_of_others(
    before: Seq<RecoverySeries>,
    after: Seq<RecoverySeries>,
    k: int,
    other: Seq<char>,
)
    requires
        0 <= k < before.len(),
        after.len() == before.len(),
        after[k].category@ == before[k].category@,
        before[k].category@ != other,
        forall|j: int| 0 <= j < before.len() && j != k ==> after[j] == before[j],
    ensures
        samples_of(after, other) == samples_of(before, other),
    decreases before.len(),
{
    let rest_before = before.drop_first();
    let rest_after = after.drop_first();
    if k == 0 {
        assert(rest_after =~= rest_before);
    } else {
        assert(after[0] == before[0]);
        if before[0].category@ != other {
            assert forall|j: int| 0 <= j < rest_before.len() && j != k - 1 implies rest_after[j]
                == rest_before[j] by {
                assert(rest_after[j] == after[j + 1] && rest_before[j] == before[j + 1]);
            }
            assert(rest_after[k - 1] == after[k] && rest_before[k - 1] == before[k]);
            lemma_samples_of_others(rest_before, rest_after, k - 1, other);
        }
    }
}

/// A series added at the end is found for its own category where none was
/// known for it, and changes nothing for any other category.
pub proof fn lemma_samples_of_push(all: Seq<RecoverySeries>, added: RecoverySeries, category: Seq<char>)
    ensures
        samples_of(all, category) is Some ==> samples_of(all.push(added), category)
            == samples_of(all, category),
        samples_of(all, category) is None && added.category@ == category ==> samples_of(
            all.push(added),
            category,
        ) == Some(added.samples@),
        samples_of(all, category) is None && added.category@ != category ==> samples_of(
            all.push(added),
            category,
        ) is None,
    decreases all.len(),
{
    let pushed = all.push(added);
    if all.len() == 0 {
        assert(pushed.first() == added);
        assert(pushed.drop_first() =~= Seq::<RecoverySeries>::empty());
        assert(samples_of(pushed.drop_first(), category) is None);
    } else {
        assert(pushed.first() == all.first());
        assert(pushed.drop_first() =~= all.drop_first().push(added));
        if all.first().category@ != category {
            lemma_samples_of_push(all.drop_first(), added, category);
        }
    }
}

/// `after` is `before` but for the samples of the series at `at`.
pub open spec fn same_but_samples(
    before: Seq<RecoverySeries>,
    after: Seq<RecoverySeries>,
    at: int,
) -> bool {
    &&& 0 <= at < before.len()
    &&& after.len() == before.len()
    &&& after[at].category@ == before[at].category@
    &&& forall|j: int| 0 <= j < before.len() && j != at ==> after[j] == before[j]
}

/// `error` with its view scrolled to `offset`.
pub open spec fn scrolled(error: CommandError, offset: u16) -> CommandError {
    CommandError {
        command: error.command,
        stdout: error.stdout,
        stderr: error.stderr,
        exit_code: error.exit_code,
        scroll_offset: offset,
    }
}

/// What a monitoring session carries from poll to poll: the samples of each
/// recovery category, the record of each storage node, the record of each
/// inconsistent placement group, and the command error on show, if any.
#[derive(Debug)]
pub struct MonitorState {
    recovery_history: Vec<RecoverySeries>,
    osd_movements: HashMap<u32, OsdDataMovement>,
    inconsistent_pg_progress: Vec<InconsistentPgProgress>,
    command_error_popup: Option<CommandError>,
}

impl MonitorState {
    /// The series of the recovery categories, in the order of their first
    /// sample.
    pub closed spec fn recovery(self) -> Seq<RecoverySeries> {
        self.recovery_history@
    }

    /// The records of the storage nodes, by node.
    pub closed spec fn movements(self) -> Map<u32, OsdDataMovement> {
        self.osd_movements@
    }

    /// The records of the inconsistent placement groups.
    pub closed spec fn progress(self) -> Seq<InconsistentPgProgress> {
        self.inconsistent_pg_progress@
    }

    /// The command error on show, if any.
    pub closed spec fn popup(self) -> Option<CommandError> {
        self.command_error_popup
    }

    /// A session that has seen nothing yet.
    pub fn new() -> (state: Self)
        ensures
            state.recovery() == Seq::<RecoverySeries>::empty(),
            state.movements() == Map::<u32, OsdDataMovement>::empty(),
            state.progress() == Seq::<InconsistentPgProgress>::empty(),
            state.popup() is None,
    {
        MonitorState {
            recovery_history: Vec::new(),
            osd_movements: HashMap::new(),
            inconsistent_pg_progress: Vec::new(),
            command_error_popup: None,
        }
    }

    /// Where the first series about `category` stands, if there is one.
    fn category_position(&self, category: &str) -> (at: Option<usize>)
        ensures
            match at {
                Some(k) => k < self.recovery().len() && self.recovery()[k as int].category@
                    == category@ && forall|j: int|
                    0 <= j < k ==> (#[trigger] self.recovery()[j]).category@ != category@,
                None => !category_known(self.recovery(), category@),
            },
    {
        let mut i: usize = 0;
        while i < self.recovery_history.len()
            invariant
                i <= self.recovery_history.len(),
                forall|j: int| 0 <= j < i ==> (#[trigger] self.recovery_history@[j]).category@
                    != category@,
            decreases self.recovery_history.len() - i,
        {
            if same_text(self.recovery_history[i].category.as_str(), category) {
                return Some(i);
            }
            i = i + 1;
        }
        None
    }

    /// The samples recorded for `category`, oldest first, if any were.
    pub fn get_recovery_history(&self, category: &str) -> (samples: Option<&Vec<RecoveryData>>)
        ensures
            match samples {
                Some(found) => samples_of(self.recovery(), category@) == Some(found@),
                None => samples_of(self.recovery(), category@) is None,
            },
    {
        match self.category_position(category) {
            Some(k) => {
                proof {
                    lemma_samples_of_first(self.recovery(), category@, k as int);
                }
                Some(&self.recovery_history[k].samples)
            },
            None => {
                proof {
                    lemma_samples_of_unknown(self.recovery(), category@);
                }
                None
            },
        }
    }

    /// Records `data` for `category`: the sample is appended to the
    /// category's series, which is begun where there was none, and the
    /// series is then cut from the front to `max_history` samples. No other
    /// category is touched, nor anything else in the session.
    pub fn add_recovery_data(&mut self, category: &str, data: RecoveryData, max_history: usize)
        ensures
            samples_of(final(self).recovery(), category@) == Some(
                recorded(samples_or_empty(old(self).recovery(), category@), data, max_history as nat),
            ),
            forall|other: Seq<char>|
                other != category@ ==> samples_of(final(self).recovery(), other) == samples_of(
                    old(self).recovery(),
                    other,
                ),
            distinct_categories(old(self).recovery()) ==> distinct_categories(
                final(self).recovery(),
            ),
            final(self).movements() == old(self).movements(),
            final(self).progress() == old(self).progress(),
            final(self).popup() == old(self).popup(),
    {
        let ghost before = self.recovery();
        match self.category_position(category) {
            Some(k) => {
                record(&mut self.recovery_history[k].samples, data, max_history);
                proof {
                    let after = self.recovery();
                    if distinct_categories(before) {
                        lemma_distinct_categories_kept(before, after);
                    }
                    lemma_samples_of_first(before, category@, k as int);
                    assert forall|j: int| 0 <= j < k implies (#[trigger] after[j]).category@
                        != category@ by {
                        assert(after[j] == before[j]);
                    }
                    lemma_samples_of_first(after, category@, k as int);
                    assert forall|other: Seq<char>| other != category@ implies samples_of(
                        after,
                        other,
                    ) == samples_of(before, other) by {
                        lemma_samples_of_others(before, after, k as int, other);
                    }
                }
            },
            None => {
                let mut samples: Vec<RecoveryData> = Vec::new();
                record(&mut samples, data, max_history);
                let series = RecoverySeries { category: category.to_owned(), samples };
                self.recovery_history.push(series);
                proof {
                    if distinct_categories(before) {
                        lemma_distinct_categories_push(before, series);
                    }
                    lemma_samples_of_unknown(before, category@);
                    lemma_samples_of_push(before, series, category@);
                    assert forall|other: Seq<char>| other != category@ implies samples_of(
                        self.recovery(),
                        other,
                    ) == samples_of(before, other) by {
                        lemma_samples_of_push(before, series, other);
                    }
                }
            },
        }
    }

    /// Forgets the samples of every recovery category.
    pub fn clear_recovery_history(&mut self)
        ensures
            final(self).recovery() == Seq::<RecoverySeries>::empty(),
            final(self).movements() == old(self).movements(),
            final(self).progress() == old(self).progress(),
            final(self).popup() == old(self).popup(),
    {
        self.recovery_history.clear();
    }

    /// The command error on show, if any.
    pub fn get_command_error_popup(&self) -> (error: Option<&CommandError>)
        ensures
            match error {
                Some(shown) => self.popup() == Some(*shown),
                None => self.popup() is None,
            },
    {
        self.command_error_popup.as_ref()
    }

    /// Puts `error` on show in place of any other.
    pub fn set_command_error_popup(&mut self, error: CommandError)
        ensures
            final(self).popup() == Some(error),
            final(self).recovery() == old(self).recovery(),
            final(self).movements() == old(self).movements(),
            final(self).progress() == old(self).progress(),
    {
        self.command_error_popup = Some(error);
    }

    /// Takes the command error off show.
    pub fn clear_command_error_popup(&mut self)
        ensures
            final(self).popup() is None,
            final(self).recovery() == old(self).recovery(),
            final(self).movements() == old(self).movements(),
            final(self).progress() == old(self).progress(),
    {
        self.command_error_popup = None;
    }

    /// Whether a command error is on show.
    pub fn has_command_error_popup(&self) -> (shown: bool)
        ensures
            shown == self.popup() is Some,
    {
        self.command_error_popup.is_some()
    }

    /// The samples recorded for `category`, to be changed in place; an empty
    /// series is begun for the category where there was none.
    pub fn get_recovery_history_mut(&mut self, category: &str) -> (samples: &mut Vec<RecoveryData>)
        ensures
            samples@ == samples_or_empty(old(self).recovery(), category@),
            samples_of(final(self).recovery(), category@) == Some(final(samples)@),
            forall|other: Seq<char>|
                other != category@ ==> samples_of(final(self).recovery(), other) == samples_of(
                    old(self).recovery(),
                    other,
                ),
            distinct_categories(old(self).recovery()) ==> distinct_categories(
                final(self).recovery(),
            ),
            final(self).movements() == old(self).movements(),
            final(self).progress() == old(self).progress(),
            final(self).popup() == old(self).popup(),
    {
        let ghost before = self.recovery();
        let at: usize = match self.category_position(category) {
            Some(k) => {
                proof {
                    lemma_samples_of_first(before, category@, k as int);
                }
                k
            },
            None => {
                let series = RecoverySeries { category: category.to_owned(), samples: Vec::new() };
                self.recovery_history.push(series);
                proof {
                    if distinct_categories(before) {
                        lemma_distinct_categories_push(before, series);
                    }
                    lemma_samples_of_unknown(before, category@);
                    assert forall|j: int| 0 <= j < before.len() implies (
                    #[trigger] self.recovery()[j]).category@ != category@ by {
                        assert(self.recovery()[j] == before[j]);
                    }
                }
                self.recovery_history.len() - 1
            },
        };
        let ghost middle = self.recovery();
        proof {
            assert forall|other: Seq<char>| other != category@ implies samples_of(middle, other)
                == samples_of(before, other) by {
                if middle.len() != before.len() {
                    lemma_samples_of_push(before, middle[at as int], other);
                    assert(middle =~= before.push(middle[at as int]));
                }
            }
        }
        proof {
            assert forall|after: Seq<RecoverySeries>|
                #[trigger] same_but_samples(middle, after, at as int) && distinct_categories(
                    middle,
                ) implies distinct_categories(after) by {
                assert forall|k: int| 0 <= k < middle.len() implies (#[trigger] after[k]).category@
                    == middle[k].category@ by {
                    if k != at {
                        assert(after[k] == middle[k]);
                    }
                }
                lemma_distinct_categories_kept(middle, after);
            }
            assert(distinct_categories(before) ==> distinct_categories(middle));
            assert forall|after: Seq<RecoverySeries>|
                same_but_samples(middle, after, at as int) implies #[trigger] samples_of(
                after,
                category@,
            ) == Some(after[at as int].samples@) by {
                assert forall|j: int| 0 <= j < at implies (#[trigger] after[j]).category@
                    != category@ by {
                    assert(after[j] == middle[j]);
                }
                lemma_samples_of_first(after, category@, at as int);
            }
            assert forall|after: Seq<RecoverySeries>, other: Seq<char>|
                same_but_samples(middle, after, at as int) && other
                    != category@ implies #[trigger] samples_of(after, other) == samples_of(
                before,
                other,
            ) by {
                lemma_samples_of_others(middle, after, at as int, other);
            }
        }
        &mut self.recovery_history[at].samples
    }

    /// The records of the storage nodes.
    pub fn get_osd_movements(&self) -> (movements: &HashMap<u32, OsdDataMovement>)
        ensures
            movements@ == self.movements(),
    {
        &self.osd_movements
    }

    /// The records of the storage nodes, to be changed in place.
    pub fn get_osd_movements_mut(&mut self) -> (movements: &mut HashMap<u32, OsdDataMovement>)
        ensures
            movements@ == old(self).movements(),
            final(self).movements() == final(movements)@,
            final(self).recovery() == old(self).recovery(),
            final(self).progress() == old(self).progress(),
            final(self).popup() == old(self).popup(),
    {
        &mut self.osd_movements
    }

    /// Puts `movements` in place of the records of the storage nodes.
    pub fn set_osd_movements(&mut self, movements: HashMap<u32, OsdDataMovement>)
        ensures
            final(self).movements() == movements@,
            final(self).recovery() == old(self).recovery(),
            final(self).progress() == old(self).progress(),
            final(self).popup() == old(self).popup(),
    {
        self.osd_movements = movements;
    }

    /// The records of the inconsistent placement groups.
    pub fn get_inconsistent_pg_progress(&self) -> (progress: &Vec<InconsistentPgProgress>)
        ensures
            progress@ == self.progress(),
    {
        &self.inconsistent_pg_progress
    }

    /// The records of the inconsistent placement groups, to be changed in
    /// place.
    pub fn get_inconsistent_pg_progress_mut(&mut self) -> (progress: &mut Vec<
        InconsistentPgProgress,
    >)
        ensures
            progress@ == old(self).progress(),
            final(self).progress() == final(progress)@,
            final(self).recovery() == old(self).recovery(),
            final(self).movements() == old(self).movements(),
            final(self).popup() == old(self).popup(),
    {
        &mut self.inconsistent_pg_progress
    }

    /// Puts `progress` in place of the records of the inconsistent placement
    /// groups.
    pub fn set_inconsistent_pg_progress(&mut self, progress: Vec<InconsistentPgProgress>)
        ensures
            final(self).progress() == progress@,
            final(self).recovery() == old(self).recovery(),
            final(self).movements() == old(self).movements(),
            final(self).popup() == old(self).popup(),
    {
        self.inconsistent_pg_progress = progress;
    }

    /// Forgets the record of every storage node.
    pub fn clear_osd_movements(&mut self)
        ensures
            final(self).movements() == Map::<u32, OsdDataMovement>::empty(),
            final(self).recovery() == old(self).recovery(),
            final(self).progress() == old(self).progress(),
            final(self).popup() == old(self).popup(),
    {
        self.osd_movements.clear();
    }

    /// Forgets the record of every inconsistent placement group.
    pub fn clear_inconsistent_pg_progress(&mut self)
        ensures
            final(self).progress() == Seq::<InconsistentPgProgress>::empty(),
            final(self).recovery() == old(self).recovery(),
            final(self).movements() == old(self).movements(),
            final(self).popup() == old(self).popup(),
    {
        self.inconsistent_pg_progress.clear();
    }

    /// Scrolls the view of the command error up by a line, if one is on
    /// show and its view is not at the top.
    pub fn scroll_popup_up(&mut self)
        ensures
            final(self).popup() == match old(self).popup() {
                Some(error) => Some(
                    scrolled(
                        error,
                        if error.scroll_offset == 0 {
                            0
                        } else {
                            (error.scroll_offset - 1) as u16
                        },
                    ),
                ),
                None => None,
            },
            final(self).recovery() == old(self).recovery(),
            final(self).movements() == old(self).movements(),
            final(self).progress() == old(self).progress(),
    {
        match &mut self.command_error_popup {
            Some(error) => {
                if error.scroll_offset > 0 {
                    error.scroll_offset = error.scroll_offset - 1;
                }
            },
            None => {},
        }
    }

    /// Scrolls the view of the command error down by a line, if one is on
    /// show and the offset has room for it.
    pub fn scroll_popup_down(&mut self)
        ensures
            final(self).popup() == match old(self).popup() {
                Some(error) => Some(
                    scrolled(
                        error,
                        if error.scroll_offset == u16::MAX {
                            u16::MAX
                        } else {
                            (error.scroll_offset + 1) as u16
                        },
                    ),
                ),
                None => None,
            },
            final(self).recovery() == old(self).recovery(),
            final(self).movements() == old(self).movements(),
            final(self).progress() == old(self).progress(),
    {
        match &mut self.command_error_popup {
            Some(error) => {
                if error.scroll_offset < u16::MAX {
                    error.scroll_offset = error.scroll_offset + 1;
                }
            },
            None => {},
        }
    }
}

} // verus!
