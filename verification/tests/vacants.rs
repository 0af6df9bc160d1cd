use eschaton::{HospitalType, TermVacants};

#[test]
fn new_takes_outer_surgical_third() {
    let counts = TermVacants::new(1, 2, 3, 4);
    assert_eq!(counts.inner_medical, 1);
    assert_eq!(counts.inner_surgical, 2);
    assert_eq!(counts.outer_surgical, 3);
    assert_eq!(counts.outer_medical, 4);
}

#[test]
fn count_reads_each_kind() {
    let counts = TermVacants::new(1, 2, 3, 4);
    assert_eq!(counts.count(HospitalType::InnerMedical), 1);
    assert_eq!(counts.count(HospitalType::InnerSurgical), 2);
    assert_eq!(counts.count(HospitalType::OuterSurgical), 3);
    assert_eq!(counts.count(HospitalType::OuterMedical), 4);
}

#[test]
fn len_is_the_sum() {
    assert_eq!(TermVacants::new(1, 2, 3, 4).len(), 10);
    assert_eq!(TermVacants::zero().len(), 0);
    assert_eq!(TermVacants::new(usize::MAX, 0, 0, 0).len(), usize::MAX);
}

#[test]
fn is_empty_means_all_zero() {
    assert!(TermVacants::zero().is_empty());
    assert!(!TermVacants::new(0, 0, 0, 1).is_empty());
    assert!(!TermVacants::new(0, 0, 1, 0).is_empty());
    assert!(!TermVacants::new(0, 1, 0, 0).is_empty());
    assert!(!TermVacants::new(1, 0, 0, 0).is_empty());
    assert!(!TermVacants::infinite().is_empty());
}

#[test]
fn zero_and_infinite() {
    assert_eq!(TermVacants::zero(), TermVacants::new(0, 0, 0, 0));
    let all = TermVacants::infinite();
    assert_eq!(all.inner_medical, usize::MAX);
    assert_eq!(all.inner_surgical, usize::MAX);
    assert_eq!(all.outer_medical, usize::MAX);
    assert_eq!(all.outer_surgical, usize::MAX);
}

#[test]
fn decrement_takes_one_of_one_kind() {
    let mut counts = TermVacants::new(1, 2, 3, 4);
    counts.decrement(HospitalType::OuterSurgical);
    assert_eq!(counts, TermVacants::new(1, 2, 2, 4));
    counts.decrement(HospitalType::InnerMedical);
    assert_eq!(counts, TermVacants::new(0, 2, 2, 4));
    counts.decrement(HospitalType::OuterMedical);
    assert_eq!(counts, TermVacants::new(0, 2, 2, 3));
    counts.decrement(HospitalType::InnerSurgical);
    assert_eq!(counts, TermVacants::new(0, 1, 2, 3));
}

#[test]
fn intersect_is_the_minimum_kind_by_kind() {
    let a = TermVacants::new(5, 0, 2, 7);
    let b = TermVacants::new(1, 3, 2, 9);
    assert_eq!(a.intersect(&b), TermVacants::new(1, 0, 2, 7));
    assert_eq!(b.intersect(&a), TermVacants::new(1, 0, 2, 7));
    assert_eq!(a.intersect(&TermVacants::infinite()), a);
    assert_eq!(a.intersect(&TermVacants::zero()), TermVacants::zero());
}

#[test]
fn add_is_the_sum_kind_by_kind() {
    let mut a = TermVacants::new(5, 0, 2, 7);
    a.add(&TermVacants::new(1, 3, 2, 9));
    assert_eq!(a, TermVacants::new(6, 3, 4, 16));
    a.add(&TermVacants::zero());
    assert_eq!(a, TermVacants::new(6, 3, 4, 16));
}
