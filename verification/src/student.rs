//! A student: a name and the placements held so far, one slot per term.

use crate::history::{
    consistent, first_repeat, inferred_course, lemma_done_meets_quota,
    lemma_first_repeat_is_earliest, lemma_repeat_prefix, lemma_tally_prefix, lemma_tally_step,
    meets_quota, remaining_need, repeats_at, tally, vacant, History,
};
use crate::hospital::{Course, HospitalType};
use crate::vacants::{nothing, TermVacants};
use vstd::prelude::*;

verus! {

/// A student and the placements held so far.
#[derive(Debug)]
pub struct Student {
    name: String,
    selection: [Option<HospitalType>; 6],
}

/// A student as read from a record: a name and what is already settled for
/// each of the six terms.
#[derive(Debug)]
pub struct InitStudentOption {
    pub name: String,
    pub term1: Option<HospitalType>,
    pub term2: Option<HospitalType>,
    pub term3: Option<HospitalType>,
    pub term4: Option<HospitalType>,
    pub term5: Option<HospitalType>,
    pub term6: Option<HospitalType>,
}

/// What a student is, to a contract.
pub struct StudentView {
    pub name: Seq<char>,
    pub selection: History,
}

impl View for Student {
    type V = StudentView;

    closed spec fn view(&self) -> StudentView {
        StudentView { name: self.name@, selection: self.selection@ }
    }
}

impl InitStudentOption {
    /// The six settled-or-open terms in order.
    pub open spec fn selection(self) -> History {
        seq![self.term1, self.term2, self.term3, self.term4, self.term5, self.term6]
    }
}

impl Clone for Student {
    fn clone(&self) -> (copy: Student)
        ensures
            copy == *self,
    {
        Student { name: self.name.clone(), selection: self.selection }
    }
}

impl Default for Student {
    /// A student without a name and with all six terms open.
    fn default() -> (student: Student)
        ensures
            student@.name == Seq::<char>::empty(),
            student@.selection == Seq::new(6, |i: int| None::<HospitalType>),
    {
        let student = Student { name: String::new(), selection: [None; 6] };
        assert(student.selection@ =~= Seq::new(6, |i: int| None::<HospitalType>));
        student
    }
}

impl Student {
    /// Every student has six terms.
    pub broadcast proof fn lemma_six_terms(self)
        ensures
            #[trigger] self@.selection.len() == 6,
    {
    }

    /// Whether the student holds no more of any kind than the course allows.
    pub open spec fn consistent(self) -> bool {
        consistent(self@.selection)
    }

    /// Whether every term is filled.
    pub open spec fn spec_done(self) -> bool {
        vacant(self@.selection) == 0
    }

    /// A student with the given name and placements.
    pub(crate) fn assemble(name: String, selection: [Option<HospitalType>; 6]) -> (student: Student)
        ensures
            student@.name == name@,
            student@.selection == selection@,
    {
        Student { name, selection }
    }

    /// The student's name.
    pub fn get_name(&self) -> (name: &str)
        ensures
            name@ == self@.name,
    {
        self.name.as_str()
    }

    /// Gives up the student for the name.
    pub fn into_name(self) -> (name: String)
        ensures
            name@ == self@.name,
    {
        self.name
    }

    /// The placements, term by term.
    pub fn get_selection(&self) -> (selection: &[Option<HospitalType>; 6])
        ensures
            selection@ == self@.selection,
    {
        &self.selection
    }

    /// The course, as soon as a kind of hospital has been taken twice: it goes
    /// by the kind of the earliest term that repeats the kind of a term before it.
    pub fn course(&self) -> (course: Option<Course>)
        ensures
            course == inferred_course(self@.selection),
            course is None <==> forall|j: int| !repeats_at(self@.selection, j),
            course is Some ==> exists|j: int|
                repeats_at(self@.selection, j) && course == Some(
                    self@.selection[j]->Some_0.spec_course(),
                ) && forall|k: int| 0 <= k < j ==> !repeats_at(self@.selection, k),
    {
        let ghost history = self.selection@;
        let mut inner_medical = false;
        let mut inner_surgical = false;
        let mut outer_medical = false;
        let mut outer_surgical = false;
        let mut i: usize = 0;
        while i < 6
            invariant
                i <= 6,
                history == self.selection@,
                history.len() == 6,
                first_repeat(history.take(i as int)) is None,
                inner_medical == (tally(history.take(i as int), HospitalType::InnerMedical) > 0),
                inner_surgical == (tally(history.take(i as int), HospitalType::InnerSurgical) > 0),
                outer_medical == (tally(history.take(i as int), HospitalType::OuterMedical) > 0),
                outer_surgical == (tally(history.take(i as int), HospitalType::OuterSurgical) > 0),
            decreases 6 - i,
        {
            proof {
                assert(history.take(i + 1).drop_last() =~= history.take(i as int));
                lemma_tally_step(history, i as int, HospitalType::InnerMedical);
                lemma_tally_step(history, i as int, HospitalType::InnerSurgical);
                lemma_tally_step(history, i as int, HospitalType::OuterMedical);
                lemma_tally_step(history, i as int, HospitalType::OuterSurgical);
            }
            match self.selection[i] {
                Some(h) => {
                    let already = match h {
                        HospitalType::InnerMedical => inner_medical,
                        HospitalType::InnerSurgical => inner_surgical,
                        HospitalType::OuterMedical => outer_medical,
                        HospitalType::OuterSurgical => outer_surgical,
                    };
                    if already {
                        proof {
                            assert(tally(history.take(i as int), h) > 0);
                            assert(first_repeat(history.take(i + 1)) == Some(h));
                            lemma_repeat_prefix(history, i + 1);
                            lemma_first_repeat_is_earliest(history);
                        }
                        return Some(h.course());
                    }
                    match h {
                        HospitalType::InnerMedical => inner_medical = true,
                        HospitalType::InnerSurgical => inner_surgical = true,
                        HospitalType::OuterMedical => outer_medical = true,
                        HospitalType::OuterSurgical => outer_surgical = true,
                    }
                },
                None => {},
            }
            i += 1;
        }
        proof {
            assert(history.take(6) =~= history);
            lemma_first_repeat_is_earliest(history);
        }
        None
    }

    /// The terms that are still open, in ascending order.
    pub fn selectable_terms(&self) -> (terms: Vec<usize>)
        ensures
            forall|k: int|
                0 <= k < terms@.len() ==> terms@[k] < 6 && self@.selection[terms@[k] as int]
                    is None,
            forall|j: int, k: int| 0 <= j < k < terms@.len() ==> terms@[j] < terms@[k],
            forall|t: int|
                0 <= t < 6 && self@.selection[t] is None ==> terms@.contains(t as usize),
            terms@.len() == vacant(self@.selection),
    {
        let ghost history = self.selection@;
        let mut terms: Vec<usize> = Vec::new();
        let mut i: usize = 0;
        while i < 6
            invariant
                i <= 6,
                history == self.selection@,
                history.len() == 6,
                forall|k: int|
                    0 <= k < terms@.len() ==> terms@[k] < i && history[terms@[k] as int] is None,
                forall|j: int, k: int| 0 <= j < k < terms@.len() ==> terms@[j] < terms@[k],
                forall|t: int| 0 <= t < i && history[t] is None ==> terms@.contains(t as usize),
                terms@.len() == vacant(history.take(i as int)),
            decreases 6 - i,
        {
            proof {
                lemma_tally_step(history, i as int, HospitalType::InnerMedical);
            }
            if self.selection[i].is_none() {
                let ghost before = terms@;
                terms.push(i);
                proof {
                    assert(terms@[before.len() as int] == i);
                    assert forall|t: int|
                        0 <= t < i + 1 && history[t] is None implies terms@.contains(
                        t as usize,
                    ) by {
                        if t < i {
                            let k = choose|k: int| 0 <= k < before.len() && before[k] == t as usize;
                            assert(terms@[k] == t as usize);
                        }
                    }
                }
            }
            i += 1;
        }
        proof {
            assert(history.take(6) =~= history);
        }
        terms
    }

    /// What the student still has to take of each kind.
    pub fn required_hospitals(&self) -> (need: TermVacants)
        requires
            self.consistent(),
        ensures
            need == remaining_need(self@.selection),
    {
        self.checked_required_hospitals().unwrap()
    }

    /// What the student still has to take of each kind, unless the student
    /// holds more of some kind than the course allows.
    pub fn checked_required_hospitals(&self) -> (need: Option<TermVacants>)
        ensures
            match need {
                Some(counts) => self.consistent() && counts == remaining_need(self@.selection),
                None => !self.consistent(),
            },
    {
        let ghost history = self.selection@;
        match self.course() {
            Some(course) => {
                let mut slot = TermVacants::from(&course);
                let ghost quota = course.quota();
                let mut i: usize = 0;
                while i < 6
                    invariant
                        i <= 6,
                        history == self.selection@,
                        history.len() == 6,
                        inferred_course(history) == Some(course),
                        quota == course.quota(),
                        forall|h: HospitalType| #[trigger]
                            slot.spec_count(h) + tally(history.take(i as int), h)
                                == quota.spec_count(h),
                    decreases 6 - i,
                {
                    let ghost before = slot;
                    match self.selection[i] {
                        Some(h) => {
                            proof {
                                lemma_tally_step(history, i as int, h);
                                lemma_tally_prefix(history, i + 1, 6, h);
                                assert(history.take(6) =~= history);
                                assert(slot.spec_count(h) + tally(history.take(i as int), h)
                                    == quota.spec_count(h));
                            }
                            if slot.count(h) == 0 {
                                proof {
                                    assert(tally(history, h) > quota.spec_count(h));
                                }
                                return None;
                            }
                            slot.decrement(h);
                        },
                        None => {},
                    }
                    proof {
                        assert forall|x: HospitalType| #[trigger]
                            slot.spec_count(x) + tally(history.take(i + 1), x) == quota.spec_count(
                                x,
                            ) by {
                            lemma_tally_step(history, i as int, x);
                            assert(before.spec_count(x) + tally(history.take(i as int), x)
                                == quota.spec_count(x));
                        }
                    }
                    i += 1;
                }
                proof {
                    assert(history.take(6) =~= history);
                    assert forall|x: HospitalType| #[trigger]
                        tally(history, x) <= quota.spec_count(x) by {
                        assert(slot.spec_count(x) + tally(history.take(6), x) == quota.spec_count(
                            x,
                        ));
                    }
                    assert(slot.spec_count(HospitalType::InnerMedical) + tally(
                        history,
                        HospitalType::InnerMedical,
                    ) == quota.spec_count(HospitalType::InnerMedical));
                    assert(slot.spec_count(HospitalType::InnerSurgical) + tally(
                        history,
                        HospitalType::InnerSurgical,
                    ) == quota.spec_count(HospitalType::InnerSurgical));
                    assert(slot.spec_count(HospitalType::OuterMedical) + tally(
                        history,
                        HospitalType::OuterMedical,
                    ) == quota.spec_count(HospitalType::OuterMedical));
                    assert(slot.spec_count(HospitalType::OuterSurgical) + tally(
                        history,
                        HospitalType::OuterSurgical,
                    ) == quota.spec_count(HospitalType::OuterSurgical));
                }
                Some(slot)
            },
            None => Some(TermVacants::infinite()),
        }
    }

    /// Whether every term is filled.
    pub fn done(&self) -> (done: bool)
        ensures
            done == self.spec_done(),
            done == (forall|t: int| 0 <= t < 6 ==> self@.selection[t] is Some),
    {
        let ghost history = self.selection@;
        let mut i: usize = 0;
        while i < 6
            invariant
                i <= 6,
                history == self.selection@,
                history.len() == 6,
                vacant(history.take(i as int)) == 0,
                forall|t: int| 0 <= t < i ==> history[t] is Some,
            decreases 6 - i,
        {
            proof {
                lemma_tally_step(history, i as int, HospitalType::InnerMedical);
            }
            if self.selection[i].is_none() {
                proof {
                    lemma_vacant_prefix(history, i + 1);
                }
                return false;
            }
            i += 1;
        }
        proof {
            assert(history.take(6) =~= history);
        }
        true
    }

    /// Settles an open term.
    pub fn assign(&mut self, term: usize, h: HospitalType)
        requires
            term < 6,
            old(self)@.selection[term as int] is None,
        ensures
            final(self)@.name == old(self)@.name,
            final(self)@.selection == old(self)@.selection.update(term as int, Some(h)),
    {
        self.selection[term] = Some(h);
    }
}

/// A prefix of a history has no more open terms than the whole.
pub proof fn lemma_vacant_prefix(history: History, i: int)
    requires
        0 <= i <= history.len(),
    ensures
        vacant(history.take(i)) <= vacant(history),
    decreases history.len() - i,
{
    if i < history.len() {
        lemma_tally_step(history, i, HospitalType::InnerMedical);
        lemma_vacant_prefix(history, i + 1);
    } else {
        assert(history.take(i) =~= history);
    }
}

/// A student who has every term filled, and no more of any kind than the
/// course allows, holds of every kind exactly what the course asks for.
pub proof fn lemma_done_student_meets_quota(student: Student)
    requires
        student.spec_done(),
        student.consistent(),
    ensures
        meets_quota(student@.selection),
        remaining_need(student@.selection) == nothing(),
{
    student.lemma_six_terms();
    let history = student@.selection;
    lemma_done_meets_quota(history);
    let quota = inferred_course(history)->Some_0.quota();
    assert(tally(history, HospitalType::InnerMedical) == quota.spec_count(
        HospitalType::InnerMedical,
    ));
    assert(tally(history, HospitalType::InnerSurgical) == quota.spec_count(
        HospitalType::InnerSurgical,
    ));
    assert(tally(history, HospitalType::OuterMedical) == quota.spec_count(
        HospitalType::OuterMedical,
    ));
    assert(tally(history, HospitalType::OuterSurgical) == quota.spec_count(
        HospitalType::OuterSurgical,
    ));
}

/// Two students with the same placements are on the same course, or both on
/// none yet, and need the same: the name plays no part.
pub proof fn lemma_course_follows_history(a: Student, b: Student)
    requires
        a@.selection == b@.selection,
    ensures
        inferred_course(a@.selection) == inferred_course(b@.selection),
        remaining_need(a@.selection) == remaining_need(b@.selection),
        a.consistent() == b.consistent(),
        a.spec_done() == b.spec_done(),
{
}

} // verus!
