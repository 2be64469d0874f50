use ceph_doctor::monitor::data::label::{
    chars_of, comes_before, contains, label_holds, parse_state, Movement, StateFlags, Tone,
};

fn chars(text: &str) -> Vec<char> {
    text.chars().collect()
}

#[test]
fn chars_of_gives_the_characters() {
    assert_eq!(chars_of("a+b"), vec!['a', '+', 'b']);
    assert_eq!(chars_of("é✓"), vec!['é', '✓']);
    assert!(chars_of("").is_empty());
}

#[test]
fn contains_finds_texts_anywhere() {
    assert!(contains(&chars("active+recovering"), &chars("recovering")));
    assert!(contains(&chars("recovering+active"), &chars("recovering")));
    assert!(contains(&chars("a+recovering+b"), &chars("recovering")));
    assert!(!contains(&chars("active+recoverin"), &chars("recovering")));
    assert!(!contains(&chars("rec"), &chars("recovering")));
    assert!(contains(&chars("abc"), &chars("")));
    assert!(contains(&chars(""), &chars("")));
    assert!(!contains(&chars(""), &chars("a")));
    assert!(contains(&chars("aab"), &chars("ab")));
}

#[test]
fn a_label_holds_its_tags() {
    assert!(label_holds("active+clean+inconsistent", "inconsistent"));
    assert!(label_holds("inconsistent", "inconsistent"));
    assert!(!label_holds("active+clean", "inconsistent"));
    assert!(!label_holds("", "inconsistent"));
    assert!(label_holds("", ""));
}

#[test]
fn a_label_is_read_into_its_tags() {
    let flags = parse_state("active+remapped+backfill_wait+inconsistent");
    assert_eq!(
        flags,
        StateFlags {
            recovering: false,
            backfilling: false,
            backfill_wait: true,
            inconsistent: true,
            repair: false,
            incomplete: false,
            down: false,
            recovery: false,
            remapped: true,
            active_clean: false,
        }
    );
    let none = parse_state("");
    assert!(!none.inconsistent && !none.active_clean && !none.remapped);
    assert!(parse_state("active+clean").active_clean);
    assert!(!parse_state("active+clean+scrubbing").active_clean);
    assert!(parse_state("recovery_wait").recovery);
    assert!(!parse_state("recovery_wait").recovering);
    assert!(parse_state("down+incomplete").down);
    assert!(parse_state("down+incomplete").incomplete);
    assert!(parse_state("inconsistent+repair").repair);
}

#[test]
fn movement_is_active_before_it_is_waiting() {
    assert_eq!(parse_state("active+recovering").movement(), Movement::Active);
    assert_eq!(parse_state("active+backfilling").movement(), Movement::Active);
    assert_eq!(parse_state("active+backfill_wait").movement(), Movement::Waiting);
    assert_eq!(parse_state("backfill_wait+backfilling").movement(), Movement::Active);
    assert_eq!(parse_state("active+remapped").movement(), Movement::Idle);
    assert_eq!(parse_state("recovery_wait").movement(), Movement::Idle);
}

#[test]
fn tone_puts_trouble_first() {
    assert_eq!(parse_state("active+clean+inconsistent").tone(), Tone::Alert);
    assert_eq!(parse_state("incomplete").tone(), Tone::Alert);
    assert_eq!(parse_state("down+remapped").tone(), Tone::Alert);
    assert_eq!(parse_state("active+clean").tone(), Tone::Healthy);
    assert_eq!(parse_state("active+remapped+backfilling").tone(), Tone::Moving);
    assert_eq!(parse_state("active+recovery_wait").tone(), Tone::Moving);
    assert_eq!(parse_state("active+remapped").tone(), Tone::Moving);
    assert_eq!(parse_state("active+recovering").tone(), Tone::Plain);
    assert_eq!(parse_state("peering").tone(), Tone::Plain);
}

#[test]
fn texts_are_ordered_as_in_a_dictionary() {
    assert!(comes_before(&chars("1.ff"), &chars("10.3")));
    assert!(comes_before(&chars("10.3"), &chars("2.1")));
    assert!(comes_before(&chars("2.1"), &chars("2.1f")));
    assert!(!comes_before(&chars("2.1f"), &chars("2.1")));
    assert!(!comes_before(&chars("abc"), &chars("abc")));
    assert!(comes_before(&chars(""), &chars("a")));
    assert!(!comes_before(&chars("a"), &chars("")));
    assert!(!comes_before(&chars(""), &chars("")));
    assert!(comes_before(&chars("Z"), &chars("a")));
    assert!(comes_before(&chars("z"), &chars("é")));
}

#[test]
fn the_order_of_texts_is_that_of_strings() {
    let words = ["", "a", "ab", "b", "B", "1.ff", "10.3", "é", "z", "zz", "✓"];
    for a in words {
        for b in words {
            assert_eq!(comes_before(&chars(a), &chars(b)), a < b, "{a:?} before {b:?}");
        }
    }
}
