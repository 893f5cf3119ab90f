use thai_practice::schedule::{check_mode, leitner, needs_phonetic, needs_thai, MODES};

#[test]
fn correct_climbs_one_box_and_caps_at_five() {
    assert_eq!(leitner(1, true), (2, 86_400));
    assert_eq!(leitner(2, true), (3, 3 * 86_400));
    assert_eq!(leitner(3, true), (4, 7 * 86_400));
    assert_eq!(leitner(4, true), (5, 21 * 86_400));
    assert_eq!(leitner(5, true), (5, 21 * 86_400));
}

#[test]
fn wrong_falls_to_box_one_due_immediately() {
    for b in 1..=5 {
        assert_eq!(leitner(b, false), (1, 0));
    }
}

#[test]
fn garbage_box_from_db_is_clamped() {
    assert_eq!(leitner(0, true), (2, 86_400));
    assert_eq!(leitner(99, true), (5, 21 * 86_400));
}

#[test]
fn mode_field_requirements() {
    assert!(needs_thai("listen") && !needs_phonetic("listen"));
    assert!(needs_phonetic("pspell") && !needs_thai("pspell"));
    assert!(needs_thai("plisten") && needs_phonetic("plisten"));
    for m in MODES {
        assert!(needs_thai(m) || needs_phonetic(m), "{m} needs some field");
    }
}

#[test]
fn extreme_boxes_stay_in_range() {
    assert_eq!(leitner(i64::MIN, true), (2, 86_400));
    assert_eq!(leitner(i64::MAX, true), (5, 21 * 86_400));
    assert_eq!(leitner(i64::MIN, false), (1, 0));
    assert_eq!(leitner(-3, false), (1, 0));
}

#[test]
fn four_correct_answers_reach_the_top_box() {
    let mut b = 1;
    for _ in 0..4 {
        b = leitner(b, true).0;
    }
    assert_eq!(b, 5);
    assert_eq!(leitner(b, true).0, 5);
}

#[test]
fn intervals_grow_with_the_box() {
    let mut last = 0;
    for b in 0..5 {
        let (_, secs) = leitner(b, true);
        assert!(secs >= last);
        assert!(secs >= 86_400);
        last = secs;
    }
}

#[test]
fn mode_requirements_of_every_mode() {
    let thai = ["spell", "read", "translate", "phonetic", "listen", "plisten"];
    let phonetic = ["phonetic", "pspell", "ptranslate", "plisten"];
    for m in MODES {
        assert_eq!(needs_thai(m), thai.contains(&m), "{m}");
        assert_eq!(needs_phonetic(m), phonetic.contains(&m), "{m}");
    }
    assert!(!needs_thai("hack") && !needs_phonetic("hack"));
    assert!(!needs_thai("") && !needs_phonetic(""));
    assert!(!needs_thai("Spell"));
}

#[test]
fn known_modes_are_accepted() {
    for m in MODES {
        assert_eq!(check_mode(m), Ok(()));
    }
}

#[test]
fn unknown_mode_is_refused() {
    assert_eq!(check_mode("hack"), Err("unknown mode 'hack'".to_string()));
    assert_eq!(check_mode(""), Err("unknown mode ''".to_string()));
    assert_eq!(check_mode("spell "), Err("unknown mode 'spell '".to_string()));
}
