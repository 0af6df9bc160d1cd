use eschaton::hospital::same_text;
use eschaton::{Course, HospitalType, TermVacants};

#[test]
fn labels_are_read() {
    assert_eq!(HospitalType::from_str("院内内科"), Ok(HospitalType::InnerMedical));
    assert_eq!(HospitalType::from_str("院内外科"), Ok(HospitalType::InnerSurgical));
    assert_eq!(HospitalType::from_str("院外内科"), Ok(HospitalType::OuterMedical));
    assert_eq!(HospitalType::from_str("院外外科"), Ok(HospitalType::OuterSurgical));
}

#[test]
fn whitespace_around_a_label_is_set_aside() {
    assert_eq!(HospitalType::from_str("  院外外科\n"), Ok(HospitalType::OuterSurgical));
    assert_eq!(HospitalType::from_str("\t院内内科 "), Ok(HospitalType::InnerMedical));
}

#[test]
fn whitespace_is_not_set_aside_by_from_label() {
    assert_eq!(HospitalType::from_label("院内内科"), Ok(HospitalType::InnerMedical));
    assert_eq!(
        HospitalType::from_label(" 院内内科"),
        Err("Could not parse the &str as HospitalType")
    );
}

#[test]
fn unknown_labels_are_refused() {
    assert_eq!(HospitalType::from_str(""), Err("Could not parse the &str as HospitalType"));
    assert_eq!(HospitalType::from_str("院内"), Err("Could not parse the &str as HospitalType"));
    assert_eq!(
        HospitalType::from_str("InnerMedical"),
        Err("Could not parse the &str as HospitalType")
    );
    assert_eq!(
        HospitalType::from_str("院内内科科"),
        Err("Could not parse the &str as HospitalType")
    );
}

#[test]
fn glyphs_are_written() {
    assert_eq!(HospitalType::InnerMedical.to_string(), "🏠💊");
    assert_eq!(HospitalType::InnerSurgical.to_string(), "🏠🔪");
    assert_eq!(HospitalType::OuterMedical.to_string(), "🚙💊");
    assert_eq!(HospitalType::OuterSurgical.to_string(), "🚙🔪");
}

#[test]
fn repeated_kind_decides_the_course() {
    assert_eq!(HospitalType::InnerMedical.course(), Course::Avoidance);
    assert_eq!(HospitalType::InnerSurgical.course(), Course::Eschaton);
    assert_eq!(HospitalType::OuterMedical.course(), Course::Eschaton);
    assert_eq!(HospitalType::OuterSurgical.course(), Course::Avoidance);
}

#[test]
fn same_text_compares_characters() {
    assert!(same_text("", ""));
    assert!(same_text("院内内科", "院内内科"));
    assert!(!same_text("院内内科", "院内外科"));
    assert!(!same_text("abc", "abcd"));
    assert!(!same_text("abcd", "abc"));
    assert!(!same_text("abc", "abd"));
}

#[test]
fn course_quotas() {
    assert_eq!(
        TermVacants::from(&Course::Eschaton),
        TermVacants { inner_medical: 1, inner_surgical: 2, outer_medical: 2, outer_surgical: 1 }
    );
    assert_eq!(
        TermVacants::from(&Course::Avoidance),
        TermVacants { inner_medical: 2, inner_surgical: 1, outer_medical: 1, outer_surgical: 2 }
    );
    assert_eq!(TermVacants::from(&Course::Eschaton).len(), 6);
    assert_eq!(TermVacants::from(&Course::Avoidance).len(), 6);
}
