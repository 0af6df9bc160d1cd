use eschaton::table::WrongTermCount;
use eschaton::{HospitalTable, HospitalType, InitStudentOption, Student, TermVacants};
use rand::rngs::StdRng;
use rand::SeedableRng;

use eschaton::HospitalType::{InnerMedical, InnerSurgical, OuterMedical, OuterSurgical};

fn record(name: &str, terms: [Option<HospitalType>; 6]) -> InitStudentOption {
    InitStudentOption {
        name: name.to_string(),
        term1: terms[0],
        term2: terms[1],
        term3: terms[2],
        term4: terms[3],
        term5: terms[4],
        term6: terms[5],
    }
}

fn empty_slots() -> [TermVacants; 6] {
    [TermVacants::zero(); 6]
}

fn sample_table() -> HospitalTable {
    HospitalTable::new([
        TermVacants { inner_medical: 1, inner_surgical: 2, outer_medical: 3, outer_surgical: 4 },
        TermVacants::zero(),
        TermVacants { inner_medical: 0, inner_surgical: 1, outer_medical: 0, outer_surgical: 0 },
        TermVacants { inner_medical: 2, inner_surgical: 0, outer_medical: 2, outer_surgical: 0 },
        TermVacants::zero(),
        TermVacants { inner_medical: 0, inner_surgical: 0, outer_medical: 1, outer_surgical: 1 },
    ])
}

#[test]
fn table_keeps_its_slots() {
    let table = sample_table();
    assert_eq!(table.as_inner()[0], TermVacants::new(1, 2, 4, 3));
    assert_eq!(table.as_inner()[5], TermVacants::new(0, 0, 1, 1));
    let copy = table.clone();
    assert_eq!(copy.as_inner(), table.as_inner());
    let slots = table.into_inner();
    assert_eq!(slots[3], TermVacants::new(2, 0, 0, 2));
}

#[test]
fn table_len_and_is_empty() {
    assert_eq!(sample_table().len(), 17);
    assert_eq!(sample_table().checked_len(), Some(17));
    assert!(!sample_table().is_empty());
    let none = HospitalTable::new(empty_slots());
    assert_eq!(none.len(), 0);
    assert!(none.is_empty());
    let mut slots = empty_slots();
    slots[5].outer_surgical = 1;
    assert!(!HospitalTable::new(slots).is_empty());
}

#[test]
fn checked_len_notices_overflow() {
    let mut slots = empty_slots();
    slots[0].inner_medical = usize::MAX;
    assert_eq!(HospitalTable::new(slots).checked_len(), Some(usize::MAX));
    slots[4].outer_medical = 1;
    assert_eq!(HospitalTable::new(slots).checked_len(), None);
    let mut slots = empty_slots();
    slots[2].inner_surgical = usize::MAX;
    slots[2].outer_surgical = usize::MAX;
    assert_eq!(HospitalTable::new(slots).checked_len(), None);
}

#[test]
fn index_walks_terms_then_kinds_in_declaration_order() {
    let table = sample_table();
    let expected = [
        (0, InnerMedical),
        (0, InnerSurgical),
        (0, InnerSurgical),
        (0, OuterSurgical),
        (0, OuterSurgical),
        (0, OuterSurgical),
        (0, OuterSurgical),
        (0, OuterMedical),
        (0, OuterMedical),
        (0, OuterMedical),
        (2, InnerSurgical),
        (3, InnerMedical),
        (3, InnerMedical),
        (3, OuterMedical),
        (3, OuterMedical),
        (5, OuterSurgical),
        (5, OuterMedical),
    ];
    for (i, pair) in expected.iter().enumerate() {
        assert_eq!(table.index(i), Some(*pair));
    }
    assert_eq!(table.index(17), None);
    assert_eq!(table.index(usize::MAX), None);
    assert_eq!(HospitalTable::new(empty_slots()).index(0), None);
}

#[test]
fn init_student_takes_what_is_settled() {
    let mut table = sample_table();
    let terms = [Some(OuterSurgical), None, Some(InnerSurgical), None, None, Some(OuterMedical)];
    assert!(table.has_room_for(&record("a", terms)));
    let student = table.init_student(record("a", terms));
    assert_eq!(student.get_name(), "a");
    assert_eq!(student.get_selection(), &terms);
    let slots = table.as_inner();
    assert_eq!(
        slots[0],
        TermVacants { inner_medical: 1, inner_surgical: 2, outer_medical: 3, outer_surgical: 3 }
    );
    assert_eq!(slots[1], TermVacants::zero());
    assert_eq!(slots[2], TermVacants::zero());
    assert_eq!(
        slots[3],
        TermVacants { inner_medical: 2, inner_surgical: 0, outer_medical: 2, outer_surgical: 0 }
    );
    assert_eq!(
        slots[5],
        TermVacants { inner_medical: 0, inner_surgical: 0, outer_medical: 0, outer_surgical: 1 }
    );
    assert_eq!(table.len(), 14);
}

#[test]
fn has_room_for_looks_at_every_settled_term() {
    let table = sample_table();
    assert!(table.has_room_for(&record("a", [None; 6])));
    assert!(!table.has_room_for(&record("a", [None, Some(InnerMedical), None, None, None, None])));
    assert!(!table.has_room_for(&record(
        "a",
        [Some(InnerMedical), None, Some(InnerMedical), None, None, None]
    )));
    assert!(table.has_room_for(&record(
        "a",
        [Some(InnerMedical), None, Some(InnerSurgical), Some(OuterMedical), None, Some(OuterSurgical)]
    )));
    assert!(!table.has_room_for(&record("a", [None, None, None, None, None, Some(InnerSurgical)])));
}

#[test]
fn intersect_offers_open_terms_within_the_need() {
    let mut ample = HospitalTable::new([TermVacants::new(5, 5, 5, 5); 6]);
    let student = ample.init_student(record(
        "a",
        [Some(InnerSurgical), Some(InnerSurgical), None, Some(OuterMedical), None, None],
    ));
    // Eschaton; still needed: one inner medical, one outer medical, one outer surgical.
    let offer = sample_table().intersect(&student);
    let slots = offer.as_inner();
    assert_eq!(slots[0], TermVacants::zero());
    assert_eq!(slots[1], TermVacants::zero());
    assert_eq!(slots[2], TermVacants::zero());
    assert_eq!(slots[3], TermVacants::zero());
    assert_eq!(slots[4], TermVacants::zero());
    assert_eq!(
        slots[5],
        TermVacants { inner_medical: 0, inner_surgical: 0, outer_medical: 1, outer_surgical: 1 }
    );
    let fresh = Student::default();
    assert_eq!(sample_table().intersect(&fresh).as_inner(), sample_table().as_inner());
}

#[test]
fn intersect_caps_counts_at_the_need() {
    let mut ample = HospitalTable::new([TermVacants::new(5, 5, 5, 5); 6]);
    let student = ample.init_student(record(
        "a",
        [Some(OuterMedical), Some(OuterMedical), None, None, None, None],
    ));
    let offer = ample.intersect(&student);
    let slots = offer.as_inner();
    assert_eq!(slots[0], TermVacants::zero());
    assert_eq!(slots[1], TermVacants::zero());
    for term in 2..6 {
        assert_eq!(
            slots[term],
            TermVacants { inner_medical: 1, inner_surgical: 2, outer_medical: 0, outer_surgical: 1 }
        );
    }
    assert_eq!(offer.len(), 16);
}

#[test]
fn select_at_places_the_numbered_candidate() {
    // Candidates of a fresh student on the sample table: number 12 is the
    // second inner-medical vacancy of the fourth term.
    let mut table = sample_table();
    let mut student = Student::default();
    assert_eq!(table.select_at(&mut student, 12), Ok(()));
    assert_eq!(student.get_selection(), &[None, None, None, Some(InnerMedical), None, None]);
    assert_eq!(
        table.as_inner()[3],
        TermVacants { inner_medical: 1, inner_surgical: 0, outer_medical: 2, outer_surgical: 0 }
    );
    assert_eq!(table.len(), 16);
    // Now the fourth term is closed to the student; candidate 10 is still
    // the inner-surgical vacancy of the third term, 11 the outer-surgical one of the sixth.
    assert_eq!(table.select_at(&mut student, 11), Ok(()));
    assert_eq!(
        student.get_selection(),
        &[None, None, None, Some(InnerMedical), None, Some(OuterSurgical)]
    );
    assert_eq!(table.len(), 15);
}

#[test]
fn select_at_beyond_the_offer_changes_nothing() {
    let mut table = sample_table();
    let mut student = Student::default();
    assert_eq!(table.select_at(&mut student, 17), Err(()));
    assert_eq!(table.as_inner(), sample_table().as_inner());
    assert_eq!(student.get_selection(), &[None; 6]);
}

#[test]
fn sole_vacancy_is_drawn_and_finishes_the_student() {
    // Five terms are settled; the student still needs one inner-medical
    // placement and the table has exactly one vacancy, of that kind.
    let mut slots = empty_slots();
    slots[0] = TermVacants { inner_medical: 1, inner_surgical: 0, outer_medical: 0, outer_surgical: 0 };
    slots[1].inner_surgical = 1;
    slots[2].inner_surgical = 1;
    slots[3].outer_medical = 1;
    slots[4].outer_medical = 1;
    slots[5].outer_surgical = 1;
    let mut table = HospitalTable::new(slots);
    let mut student = table.init_student(record(
        "a",
        [
            None,
            Some(InnerSurgical),
            Some(InnerSurgical),
            Some(OuterMedical),
            Some(OuterMedical),
            Some(OuterSurgical),
        ],
    ));
    assert_eq!(table.len(), 1);
    let mut rng = StdRng::seed_from_u64(7);
    assert_eq!(table.random_select(&mut student, &mut rng), Ok(()));
    assert!(student.done());
    assert_eq!(student.get_selection()[0], Some(InnerMedical));
    assert_eq!(table.as_inner(), &empty_slots());
    assert!(table.is_empty());
}

#[test]
fn unconstrained_student_draws_the_only_kind_on_offer() {
    let mut slots = empty_slots();
    slots[0] = TermVacants { inner_medical: 1, inner_surgical: 0, outer_medical: 0, outer_surgical: 0 };
    for seed in 0..20 {
        let mut table = HospitalTable::new(slots);
        let mut student = Student::default();
        let mut rng = StdRng::seed_from_u64(seed);
        assert_eq!(table.random_select(&mut student, &mut rng), Ok(()));
        assert_eq!(student.get_selection(), &[Some(InnerMedical), None, None, None, None, None]);
        assert_eq!(table.as_inner(), &empty_slots());
    }
}

#[test]
fn exhausted_table_offers_nothing() {
    let mut table = HospitalTable::new(empty_slots());
    let mut student = Student::default();
    let mut rng = StdRng::seed_from_u64(1);
    assert_eq!(table.random_select(&mut student, &mut rng), Err(()));
    assert_eq!(student.get_selection(), &[None; 6]);
    assert_eq!(table.as_inner(), &empty_slots());
}

#[test]
fn vacancies_outside_the_need_do_not_help() {
    // The student is on Eschaton and holds both inner-surgical placements;
    // the table has inner-surgical vacancies only.
    let mut table = HospitalTable::new([TermVacants::new(0, 3, 0, 0); 6]);
    let mut student = table.init_student(record(
        "a",
        [Some(InnerSurgical), Some(InnerSurgical), None, None, None, None],
    ));
    let before = table.clone();
    let mut rng = StdRng::seed_from_u64(3);
    assert_eq!(table.random_select(&mut student, &mut rng), Err(()));
    assert_eq!(table.as_inner(), before.as_inner());
}

#[test]
fn draw_never_takes_from_an_empty_count() {
    for seed in 0..200 {
        let mut table = sample_table();
        let mut student = Student::default();
        let mut rng = StdRng::seed_from_u64(seed);
        let before = table.clone();
        assert_eq!(table.random_select(&mut student, &mut rng), Ok(()));
        let term = student.get_selection().iter().position(|s| s.is_some()).unwrap();
        let kind = student.get_selection()[term].unwrap();
        assert!(before.as_inner()[term].count(kind) > 0);
        assert_eq!(table.as_inner()[term].count(kind) + 1, before.as_inner()[term].count(kind));
        assert_eq!(table.len() + 1, before.len());
        assert_eq!(student.selectable_terms().len(), 5);
    }
}

#[test]
fn draw_is_weighted_by_capacity() {
    // One term with nine inner-medical vacancies and one outer-surgical one:
    // over many draws about nine in ten take inner medical.
    let mut slots = empty_slots();
    slots[0] = TermVacants { inner_medical: 9, inner_surgical: 0, outer_medical: 0, outer_surgical: 1 };
    let mut rng = StdRng::seed_from_u64(99);
    let mut inner = 0;
    let trials = 4000;
    for _ in 0..trials {
        let mut table = HospitalTable::new(slots);
        let mut student = Student::default();
        assert_eq!(table.random_select(&mut student, &mut rng), Ok(()));
        if student.get_selection()[0] == Some(InnerMedical) {
            inner += 1;
        } else {
            assert_eq!(student.get_selection()[0], Some(OuterSurgical));
        }
    }
    let share = inner as f64 / trials as f64;
    assert!(share > 0.87 && share < 0.93);
}

#[test]
fn from_rows_wants_six_rows() {
    let rows = vec![
        TermVacants::new(1, 0, 0, 0),
        TermVacants::new(0, 2, 0, 0),
        TermVacants::new(0, 0, 3, 0),
        TermVacants::new(0, 0, 0, 4),
        TermVacants::new(5, 0, 0, 0),
        TermVacants::new(0, 6, 0, 0),
    ];
    let table = HospitalTable::from_rows(rows.clone()).unwrap();
    assert_eq!(table.as_inner().to_vec(), rows);
    assert_eq!(table.remaining(2), TermVacants::new(0, 0, 3, 0));
    let short = rows[..5].to_vec();
    assert_eq!(HospitalTable::from_rows(short).unwrap_err(), WrongTermCount { found: 5 });
    let mut long = rows.clone();
    long.push(TermVacants::zero());
    assert_eq!(HospitalTable::from_rows(long).unwrap_err(), WrongTermCount { found: 7 });
    assert_eq!(HospitalTable::from_rows(Vec::new()).unwrap_err(), WrongTermCount { found: 0 });
}

#[test]
fn consume_takes_one_vacancy() {
    let mut table = sample_table();
    table.consume(3, OuterMedical);
    assert_eq!(
        table.remaining(3),
        TermVacants { inner_medical: 2, inner_surgical: 0, outer_medical: 1, outer_surgical: 0 }
    );
    assert_eq!(table.remaining(0), sample_table().remaining(0));
    assert_eq!(table.len(), 16);
}
