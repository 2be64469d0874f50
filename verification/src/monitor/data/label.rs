//! State labels of placement groups.
//!
//! A label is free text such as `active+remapped+backfill_wait`. It is read
//! once into the set of tags that the derivations care about.

use vstd::prelude::*;

verus! {

/// Whether `needle` stands in `hay` at position `at`.
pub open spec fn occurs_at(hay: Seq<char>, needle: Seq<char>, at: int) -> bool {
    0 <= at && at + needle.len() <= hay.len() && hay.subrange(at, at + needle.len()) == needle
}

/// Whether `needle` stands somewhere in `hay`.
pub open spec fn contains_text(hay: Seq<char>, needle: Seq<char>) -> bool {
    exists|at: int| occurs_at(hay, needle, at)
}

/// The characters of `text`.
pub fn chars_of(text: &str) -> (chars: Vec<char>)
    ensures
        chars@ == text@,
{
    broadcast use vstd::string::group_string_axioms;

    let mut chars: Vec<char> = Vec::new();
    for c in it: text.chars()
        invariant
            it.seq() == text@,
            chars@ == it.seq().subrange(0, it.index()),
    {
        chars.push(c);
        assert(chars@ =~= it.seq().subrange(0, it.index() + 1));
    }
    assert(chars@ =~= text@);
    chars
}

/// Whether `needle` stands in `hay` at position `at`.
fn matches_at(hay: &Vec<char>, needle: &Vec<char>, at: usize) -> (found: bool)
    requires
        at + needle@.len() <= hay@.len(),
    ensures
        found == occurs_at(hay@, needle@, at as int),
{
    let mut j: usize = 0;
    while j < needle.len()
        invariant
            at + needle.len() <= hay.len(),
            j <= needle.len(),
            forall|k: int| 0 <= k < j ==> hay@[at + k] == needle@[k],
        decreases needle@.len() - j,
    {
        if hay[at + j] != needle[j] {
            assert(hay@.subrange(at as int, at + needle@.len())[j as int] != needle@[j as int]);
            return false;
        }
        j = j + 1;
    }
    assert(hay@.subrange(at as int, at + needle@.len()) =~= needle@);
    true
}

/// Whether `needle` stands somewhere in `hay`.
pub fn contains(hay: &Vec<char>, needle: &Vec<char>) -> (found: bool)
    ensures
        found == contains_text(hay@, needle@),
{
    if needle.len() > hay.len() {
        return false;
    }
    let last: usize = hay.len() - needle.len();
    let mut at: usize = 0;
    while at < last
        invariant
            last == hay.len() - needle.len(),
            needle.len() <= hay.len(),
            at <= last,
            forall|k: int| 0 <= k < at ==> !occurs_at(hay@, needle@, k),
        decreases last - at,
    {
        if matches_at(hay, needle, at) {
            return true;
        }
        at = at + 1;
    }
    matches_at(hay, needle, last)
}

/// The tags of a state label that the derivations and the display look at.
#[derive(Clone, Copy, Debug, PartialEq, Eq, Structural)]
pub struct StateFlags {
    /// The label holds `recovering`.
    pub recovering: bool,
    /// The label holds `backfilling`.
    pub backfilling: bool,
    /// The label holds `backfill_wait`.
    pub backfill_wait: bool,
    /// The label holds `inconsistent`.
    pub inconsistent: bool,
    /// The label holds `repair`.
    pub repair: bool,
    /// The label holds `incomplete`.
    pub incomplete: bool,
    /// The label holds `down`.
    pub down: bool,
    /// The label holds `recovery`.
    pub recovery: bool,
    /// The label holds `remapped`.
    pub remapped: bool,
    /// The label is `active+clean` and nothing else.
    pub active_clean: bool,
}

/// How far the movement of a group's misplaced objects has got.
#[derive(Clone, Copy, Debug, PartialEq, Eq, Structural)]
pub enum Movement {
    /// Objects are being transferred.
    Active,
    /// The transfer is queued.
    Waiting,
    /// Neither.
    Idle,
}

/// How a state is shown in the list of states.
#[derive(Clone, Copy, Debug, PartialEq, Eq, Structural)]
pub enum Tone {
    /// The state needs attention.
    Alert,
    /// The state is the healthy one.
    Healthy,
    /// Data is on its way.
    Moving,
    /// Anything else.
    Plain,
}

/// The tags of `label`.
pub open spec fn spec_parse_state(label: Seq<char>) -> StateFlags {
    StateFlags {
        recovering: contains_text(label, "recovering"@),
        backfilling: contains_text(label, "backfilling"@),
        backfill_wait: contains_text(label, "backfill_wait"@),
        inconsistent: contains_text(label, "inconsistent"@),
        repair: contains_text(label, "repair"@),
        incomplete: contains_text(label, "incomplete"@),
        down: contains_text(label, "down"@),
        recovery: contains_text(label, "recovery"@),
        remapped: contains_text(label, "remapped"@),
        active_clean: label == "active+clean"@,
    }
}

impl StateFlags {
    /// A group is active while it recovers or backfills, waiting while its
    /// backfill is queued, and idle otherwise.
    pub open spec fn spec_movement(self) -> Movement {
        if self.recovering || self.backfilling {
            Movement::Active
        } else if self.backfill_wait {
            Movement::Waiting
        } else {
            Movement::Idle
        }
    }

    /// Trouble comes first, then the healthy state, then movement.
    pub open spec fn spec_tone(self) -> Tone {
        if self.inconsistent || self.incomplete || self.down {
            Tone::Alert
        } else if self.active_clean {
            Tone::Healthy
        } else if self.backfilling || self.recovery || self.remapped {
            Tone::Moving
        } else {
            Tone::Plain
        }
    }

    /// How far the movement of the group's misplaced objects has got.
    #[verifier::when_used_as_spec(spec_movement)]
    pub fn movement(self) -> (m: Movement)
        ensures
            m == self.spec_movement(),
    {
        if self.recovering || self.backfilling {
            Movement::Active
        } else if self.backfill_wait {
            Movement::Waiting
        } else {
            Movement::Idle
        }
    }

    /// How the state is shown in the list of states.
    #[verifier::when_used_as_spec(spec_tone)]
    pub fn tone(self) -> (t: Tone)
        ensures
            t == self.spec_tone(),
    {
        if self.inconsistent || self.incomplete || self.down {
            Tone::Alert
        } else if self.active_clean {
            Tone::Healthy
        } else if self.backfilling || self.recovery || self.remapped {
            Tone::Moving
        } else {
            Tone::Plain
        }
    }
}

/// Whether `tag` stands somewhere in `label`.
pub fn label_holds(label: &str, tag: &str) -> (found: bool)
    ensures
        found == contains_text(label@, tag@),
{
    let chars = chars_of(label);
    has_tag(&chars, tag)
}

/// Whether `tag` stands somewhere in the label whose characters are `label`.
fn has_tag(label: &Vec<char>, tag: &str) -> (found: bool)
    ensures
        found == contains_text(label@, tag@),
{
    let needle = chars_of(tag);
    contains(label, &needle)
}

/// Reads a state label into its tags.
pub fn parse_state(label: &str) -> (flags: StateFlags)
    ensures
        flags == spec_parse_state(label@),
{
    let chars = chars_of(label);
    let clean = chars_of("active+clean");
    let whole: bool = chars.len() == clean.len() && contains(&chars, &clean);
    proof {
        if chars@.len() == clean@.len() {
            if contains_text(chars@, clean@) {
                let at = choose|at: int| occurs_at(chars@, clean@, at);
                assert(chars@.subrange(0, chars@.len() as int) =~= chars@);
            }
            if chars@ == clean@ {
                assert(chars@.subrange(0, chars@.len() as int) =~= chars@);
                assert(occurs_at(chars@, clean@, 0));
            }
        }
    }
    StateFlags {
        recovering: has_tag(&chars, "recovering"),
        backfilling: has_tag(&chars, "backfilling"),
        backfill_wait: has_tag(&chars, "backfill_wait"),
        inconsistent: has_tag(&chars, "inconsistent"),
        repair: has_tag(&chars, "repair"),
        incomplete: has_tag(&chars, "incomplete"),
        down: has_tag(&chars, "down"),
        recovery: has_tag(&chars, "recovery"),
        remapped: has_tag(&chars, "remapped"),
        active_clean: whole,
    }
}

/// Whether `a` comes before `b` in the order of a dictionary: at the first
/// place where they differ `a` has the smaller character, or `a` ends there
/// and `b` goes on.
pub open spec fn text_before(a: Seq<char>, b: Seq<char>) -> bool
    decreases a.len(),
{
    if b.len() == 0 {
        false
    } else if a.len() == 0 {
        true
    } else if a[0] != b[0] {
        (a[0] as int) < (b[0] as int)
    } else {
        text_before(a.drop_first(), b.drop_first())
    }
}

/// No text comes before itself.
pub proof fn lemma_text_before_irreflexive(a: Seq<char>)
    ensures
        !text_before(a, a),
    decreases a.len(),
{
    if a.len() > 0 {
        lemma_text_before_irreflexive(a.drop_first());
    }
}

/// A text that comes before a second, which comes before a third, comes
/// before the third.
pub proof fn lemma_text_before_transitive(a: Seq<char>, b: Seq<char>, c: Seq<char>)
    requires
        text_before(a, b),
        text_before(b, c),
    ensures
        text_before(a, c),
    decreases a.len(),
{
    if a.len() > 0 && b.len() > 0 && c.len() > 0 {
        if a[0] == b[0] && b[0] == c[0] {
            lemma_text_before_transitive(a.drop_first(), b.drop_first(), c.drop_first());
        }
    }
}

/// Of two texts that differ, one comes before the other.
pub proof fn lemma_text_before_total(a: Seq<char>, b: Seq<char>)
    ensures
        text_before(a, b) || text_before(b, a) || a == b,
        !(text_before(a, b) && text_before(b, a)),
    decreases a.len(),
{
    if a.len() > 0 && b.len() > 0 {
        if a[0] == b[0] {
            lemma_text_before_total(a.drop_first(), b.drop_first());
            if a.drop_first() == b.drop_first() {
                assert(a =~= seq![a[0]] + a.drop_first());
                assert(b =~= seq![b[0]] + b.drop_first());
                assert(a =~= b);
            }
        } else {
            assert((a[0] as int) != (b[0] as int));
        }
    } else if a.len() == 0 && b.len() == 0 {
        assert(a =~= b);
    }
}

/// Texts that agree up to a place compare as what follows the place.
proof fn lemma_text_before_skip(a: Seq<char>, b: Seq<char>, i: int)
    requires
        0 <= i <= a.len(),
        i <= b.len(),
        a.subrange(0, i) == b.subrange(0, i),
    ensures
        text_before(a, b) == text_before(
            a.subrange(i, a.len() as int),
            b.subrange(i, b.len() as int),
        ),
    decreases i,
{
    if i == 0 {
        assert(a.subrange(0, a.len() as int) =~= a);
        assert(b.subrange(0, b.len() as int) =~= b);
    } else {
        assert(a[0] == a.subrange(0, i)[0]);
        assert(b[0] == b.subrange(0, i)[0]);
        let ra = a.drop_first();
        let rb = b.drop_first();
        assert(ra.subrange(0, i - 1) =~= a.subrange(0, i).drop_first());
        assert(rb.subrange(0, i - 1) =~= b.subrange(0, i).drop_first());
        lemma_text_before_skip(ra, rb, i - 1);
        assert(ra.subrange(i - 1, ra.len() as int) =~= a.subrange(i, a.len() as int));
        assert(rb.subrange(i - 1, rb.len() as int) =~= b.subrange(i, b.len() as int));
    }
}

/// Whether `a` comes before `b` in the order of a dictionary.
pub fn comes_before(a: &Vec<char>, b: &Vec<char>) -> (before: bool)
    ensures
        before == text_before(a@, b@),
{
    let mut i: usize = 0;
    while i < a.len() && i < b.len()
        invariant
            i <= a.len(),
            i <= b.len(),
            a@.subrange(0, i as int) == b@.subrange(0, i as int),
        decreases a.len() - i,
    {
        proof {
            lemma_text_before_skip(a@, b@, i as int);
            assert(a@.subrange(i as int, a@.len() as int)[0] == a@[i as int]);
            assert(b@.subrange(i as int, b@.len() as int)[0] == b@[i as int]);
        }
        if a[i] != b[i] {
            return a[i] < b[i];
        }
        assert(a@.subrange(0, i + 1) =~= a@.subrange(0, i as int).push(a@[i as int]));
        assert(b@.subrange(0, i + 1) =~= b@.subrange(0, i as int).push(b@[i as int]));
        i = i + 1;
    }
    proof {
        lemma_text_before_skip(a@, b@, i as int);
    }
    i < b.len()
}

} // verus!
