use cellular_automata::rules::{presets, preset_rule, Class, RuleSet};

#[test]
fn parses_golly_spellings_to_the_same_rule() {
    let life = RuleSet::from_counts(&[3], &[2, 3]);
    for text in ["B3/S23", "b3/s23", " S23/B3 ", "23/3"] {
        assert_eq!(RuleSet::from_bs_string(text), Ok(life), "{text}");
    }
}

#[test]
fn every_preset_round_trips_through_its_string() {
    for preset in presets() {
        let rule = preset_rule(&preset);
        assert_eq!(
            RuleSet::from_bs_string(&rule.to_bs_string()),
            Ok(rule),
            "{}",
            preset.name
        );
    }
}

#[test]
fn rejects_what_the_engine_cannot_run() {
    for text in [
        "",
        "B3",
        "B3/S23/4",
        "B0/S",
        "B3/S23:T30,20",
        "B3/S23V",
        "B39/S23",
        "B3/Sx",
    ] {
        assert!(
            RuleSet::from_bs_string(text).is_err(),
            "{text:?} should be rejected"
        );
    }
}

#[test]
fn no_preset_uses_b0() {
    assert!(presets().iter().all(|p| !p.birth.contains(&0)));
}

#[test]
fn error_messages_name_the_problem() {
    assert_eq!(
        RuleSet::from_bs_string("B3/S23:T30,20"),
        Err("bounded-grid suffix (:T/:P) is not supported".to_string())
    );
    assert_eq!(
        RuleSet::from_bs_string(" B3 "),
        Err("expected two parts separated by '/', got \"b3\"".to_string())
    );
    assert_eq!(
        RuleSet::from_bs_string("B39/S23"),
        Err("unsupported character '9' in rule \"b39/s23\"".to_string())
    );
    assert_eq!(
        RuleSet::from_bs_string("B3/Sx"),
        Err("unsupported character 'x' in rule \"b3/sx\"".to_string())
    );
    assert_eq!(RuleSet::from_bs_string("B0/S"), Err("B0 rules are not supported".to_string()));
}

#[test]
fn formats_birth_then_survival_digits_in_order() {
    assert_eq!(RuleSet::from_counts(&[6, 3], &[3, 2]).to_bs_string(), "B36/S23");
    assert_eq!(RuleSet::from_counts(&[2], &[]).to_bs_string(), "B2/S");
    assert_eq!(RuleSet::from_counts(&[], &[]).to_bs_string(), "B/S");
}

#[test]
fn legacy_digits_are_survival_then_birth() {
    let rule = RuleSet::from_bs_string("23/36").unwrap();
    assert_eq!(rule, RuleSet::from_counts(&[3, 6], &[2, 3]));
    let swapped = RuleSet::from_bs_string("s23/B36").unwrap();
    assert_eq!(swapped, rule);
}

#[test]
fn b0_round_trip_is_refused() {
    let rule = RuleSet::from_counts(&[0, 3], &[2, 3]);
    assert_eq!(rule.to_bs_string(), "B03/S23");
    assert!(RuleSet::from_bs_string(&rule.to_bs_string()).is_err());
}

#[test]
fn class_labels_and_presets() {
    assert_eq!(Class::all(), [Class::Chaotic, Class::Explosive, Class::Stable]);
    assert_eq!(Class::Chaotic.label(), "chaotic");
    assert_eq!(Class::Explosive.label(), "explosive");
    assert_eq!(Class::Stable.label(), "stable");
    let ps = presets();
    assert_eq!(ps.len(), 21);
    assert_eq!(ps[0].name, "Conway's Life");
    assert_eq!(preset_rule(&ps[0]).to_bs_string(), "B3/S23");
    assert_eq!(preset_rule(&ps[8]).to_bs_string(), "B3/S012345678");
}

#[test]
fn spellings_case_and_spaces_read_alike() {
    for (b, s) in [("3", "23"), ("36", "23"), ("2", ""), ("", "9")] {
        let bs = RuleSet::from_bs_string(&format!("B{b}/S{s}")).ok();
        assert_eq!(bs, RuleSet::from_bs_string(&format!("S{s}/B{b}")).ok(), "{b}/{s}");
        assert_eq!(bs, RuleSet::from_bs_string(&format!("{s}/{b}")).ok(), "{b}/{s}");
    }
    for text in ["b3678/s34678", "s23/b3", "B0/S", "b3/s23:t5,5", "x"] {
        assert_eq!(
            RuleSet::from_bs_string(text),
            RuleSet::from_bs_string(&format!(" {} ", text.to_ascii_uppercase()))
        );
    }
}
