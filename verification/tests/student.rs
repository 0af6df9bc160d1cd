use eschaton::{Course, HospitalTable, HospitalType, InitStudentOption, Student, TermVacants};

use eschaton::HospitalType::{InnerMedical, InnerSurgical, OuterMedical, OuterSurgical};

fn ample_table() -> HospitalTable {
    HospitalTable::new([
        TermVacants::new(9, 9, 9, 9),
        TermVacants::new(9, 9, 9, 9),
        TermVacants::new(9, 9, 9, 9),
        TermVacants::new(9, 9, 9, 9),
        TermVacants::new(9, 9, 9, 9),
        TermVacants::new(9, 9, 9, 9),
    ])
}

fn enrolled(name: &str, terms: [Option<HospitalType>; 6]) -> Student {
    let mut table = ample_table();
    table.init_student(InitStudentOption {
        name: name.to_string(),
        term1: terms[0],
        term2: terms[1],
        term3: terms[2],
        term4: terms[3],
        term5: terms[4],
        term6: terms[5],
    })
}

#[test]
fn default_student_has_nothing() {
    let student = Student::default();
    assert_eq!(student.get_name(), "");
    assert_eq!(student.get_selection(), &[None; 6]);
    assert!(student.course().is_none());
    assert!(!student.done());
    assert_eq!(student.selectable_terms(), vec![0, 1, 2, 3, 4, 5]);
    assert_eq!(student.required_hospitals(), TermVacants::infinite());
}

#[test]
fn name_and_selection_are_kept() {
    let terms = [Some(InnerMedical), None, Some(OuterSurgical), None, None, Some(OuterMedical)];
    let student = enrolled("佐藤", terms);
    assert_eq!(student.get_name(), "佐藤");
    assert_eq!(student.get_selection(), &terms);
    assert_eq!(student.clone().get_selection(), &terms);
    assert_eq!(student.clone().get_name(), "佐藤");
    assert_eq!(student.into_name(), "佐藤".to_string());
}

#[test]
fn course_is_unknown_without_a_repeat() {
    assert_eq!(enrolled("a", [None; 6]).course(), None);
    assert_eq!(enrolled("a", [Some(InnerMedical), None, None, None, None, None]).course(), None);
    assert_eq!(
        enrolled(
            "a",
            [Some(InnerMedical), Some(InnerSurgical), Some(OuterMedical), Some(OuterSurgical), None, None]
        )
        .course(),
        None
    );
}

#[test]
fn course_follows_the_first_repeat() {
    assert_eq!(
        enrolled("a", [Some(InnerSurgical), Some(InnerSurgical), None, None, None, None]).course(),
        Some(Course::Eschaton)
    );
    assert_eq!(
        enrolled("a", [None, Some(OuterMedical), None, None, Some(OuterMedical), None]).course(),
        Some(Course::Eschaton)
    );
    assert_eq!(
        enrolled("a", [Some(InnerMedical), None, None, None, None, Some(InnerMedical)]).course(),
        Some(Course::Avoidance)
    );
    assert_eq!(
        enrolled("a", [None, None, Some(OuterSurgical), Some(OuterSurgical), None, None]).course(),
        Some(Course::Avoidance)
    );
}

#[test]
fn course_goes_by_term_order_not_by_kind() {
    // The second inner-medical placement stands in term 3, the second
    // outer-medical one in term 4: inner medical repeats first.
    let student = enrolled(
        "a",
        [Some(OuterMedical), Some(InnerMedical), Some(InnerMedical), Some(OuterMedical), None, None],
    );
    assert_eq!(student.course(), Some(Course::Avoidance));
}

#[test]
fn two_inner_surgical_placements_leave_eschaton_need() {
    let student = enrolled("a", [Some(InnerSurgical), Some(InnerSurgical), None, None, None, None]);
    assert_eq!(student.course(), Some(Course::Eschaton));
    assert_eq!(
        student.required_hospitals(),
        TermVacants { inner_medical: 1, inner_surgical: 0, outer_medical: 2, outer_surgical: 1 }
    );
    assert_eq!(
        student.checked_required_hospitals(),
        Some(TermVacants { inner_medical: 1, inner_surgical: 0, outer_medical: 2, outer_surgical: 1 })
    );
}

#[test]
fn need_of_an_avoidance_student() {
    let student = enrolled(
        "a",
        [Some(OuterSurgical), None, Some(InnerMedical), Some(OuterSurgical), None, Some(OuterMedical)],
    );
    assert_eq!(student.course(), Some(Course::Avoidance));
    assert_eq!(
        student.required_hospitals(),
        TermVacants { inner_medical: 1, inner_surgical: 1, outer_medical: 0, outer_surgical: 0 }
    );
}

#[test]
fn need_is_unbounded_while_the_course_is_unknown() {
    let student = enrolled("a", [Some(InnerSurgical), None, Some(OuterMedical), None, None, None]);
    assert_eq!(student.required_hospitals(), TermVacants::infinite());
    assert_eq!(student.checked_required_hospitals(), Some(TermVacants::infinite()));
}

#[test]
fn too_many_of_one_kind_is_found_out() {
    let student = enrolled(
        "a",
        [Some(InnerSurgical), Some(InnerSurgical), Some(InnerSurgical), None, None, None],
    );
    assert_eq!(student.course(), Some(Course::Eschaton));
    assert_eq!(student.checked_required_hospitals(), None);
    let student = enrolled(
        "a",
        [Some(InnerSurgical), Some(InnerSurgical), Some(InnerMedical), None, Some(InnerMedical), None],
    );
    assert_eq!(student.checked_required_hospitals(), None);
}

#[test]
fn selectable_terms_are_the_open_ones_in_order() {
    let student = enrolled(
        "a",
        [Some(InnerMedical), None, Some(OuterSurgical), None, None, Some(OuterMedical)],
    );
    assert_eq!(student.selectable_terms(), vec![1, 3, 4]);
    let full = enrolled(
        "a",
        [
            Some(InnerMedical),
            Some(InnerSurgical),
            Some(InnerSurgical),
            Some(OuterMedical),
            Some(OuterMedical),
            Some(OuterSurgical),
        ],
    );
    assert_eq!(full.selectable_terms(), Vec::<usize>::new());
}

#[test]
fn done_means_every_term_filled() {
    let mut student = enrolled(
        "a",
        [
            Some(InnerMedical),
            Some(InnerSurgical),
            Some(InnerSurgical),
            Some(OuterMedical),
            Some(OuterMedical),
            None,
        ],
    );
    assert!(!student.done());
    student.assign(5, OuterSurgical);
    assert!(student.done());
    assert_eq!(student.get_selection()[5], Some(OuterSurgical));
    assert_eq!(student.required_hospitals(), TermVacants::zero());
}

#[test]
fn same_history_gives_the_same_course() {
    let terms = [Some(OuterMedical), None, Some(OuterMedical), None, Some(InnerMedical), None];
    let a = enrolled("first", terms);
    let b = enrolled("second", terms);
    assert_eq!(a.course(), b.course());
    assert_eq!(a.course(), Some(Course::Eschaton));
    assert_eq!(a.required_hospitals(), b.required_hospitals());
    let open = [Some(OuterMedical), None, None, None, Some(InnerMedical), None];
    assert_eq!(enrolled("first", open).course(), enrolled("second", open).course());
    assert_eq!(enrolled("first", open).course(), None);
}
