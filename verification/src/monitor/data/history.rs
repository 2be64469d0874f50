//! Bounded sample windows: the newest samples of a series, oldest first.

use vstd::prelude::*;

verus! {

/// Number of samples that every series keeps.
pub const HISTORY_SIZE: usize = 20;

/// The last `capacity` elements of `s`, or all of `s` where it is shorter.
pub open spec fn newest<T>(s: Seq<T>, capacity: nat) -> Seq<T> {
    if s.len() <= capacity {
        s
    } else {
        s.subrange(s.len() - capacity, s.len() as int)
    }
}

/// The window that holds `s` after `sample` has been recorded into it.
pub open spec fn recorded<T>(s: Seq<T>, sample: T, capacity: nat) -> Seq<T> {
    newest(s.push(sample), capacity)
}

/// A window that is not yet full grows by the sample and loses nothing.
pub proof fn lemma_recorded_grows<T>(s: Seq<T>, sample: T, capacity: nat)
    requires
        s.len() < capacity,
    ensures
        recorded(s, sample, capacity) == s.push(sample),
{
}

/// A window stays within its capacity, and a push into a full window evicts
/// exactly the oldest sample: what remains is the old window without its
/// first element, followed by the new sample.
pub proof fn lemma_recorded_evicts_oldest<T>(s: Seq<T>, sample: T, capacity: nat)
    requires
        capacity > 0,
        s.len() == capacity,
    ensures
        recorded(s, sample, capacity).len() == capacity,
        recorded(s, sample, capacity) == s.subrange(1, s.len() as int).push(sample),
{
    assert(recorded(s, sample, capacity) =~= s.subrange(1, s.len() as int).push(sample));
}

/// No window exceeds its capacity, and the newest sample of a window with
/// room for one is the sample recorded last.
pub proof fn lemma_recorded_bounded<T>(s: Seq<T>, sample: T, capacity: nat)
    ensures
        recorded(s, sample, capacity).len() <= capacity,
        recorded(s, sample, capacity).len() == if s.len() < capacity {
            s.len() + 1
        } else {
            capacity
        },
        capacity > 0 ==> recorded(s, sample, capacity).last() == sample,
{
}

/// Appends `sample` to `series`, then drops samples from the front until at
/// most `capacity` remain.
pub fn record<T>(series: &mut Vec<T>, sample: T, capacity: usize)
    ensures
        final(series)@ == recorded(old(series)@, sample, capacity as nat),
{
    series.push(sample);
    let ghost pushed = series@;
    while series.len() > capacity
        invariant
            series@.len() <= pushed.len(),
            series@.len() >= capacity || series@.len() == pushed.len(),
            series@ == pushed.subrange(pushed.len() - series@.len(), pushed.len() as int),
        decreases series.len(),
    {
        series.remove(0);
        assert(series@ =~= pushed.subrange(pushed.len() - series@.len(), pushed.len() as int));
    }
    assert(series@ =~= newest(pushed, capacity as nat));
}

} // verus!
