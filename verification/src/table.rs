//! The table of vacancies: six terms, each with a count for every kind of
//! hospital, and the draw that places one student into one of them.

use crate::chance::draw_below;
use crate::history::{lemma_assign_consistent, meets_quota, remaining_need};
use crate::hospital::HospitalType;
use crate::layout::{
    covers, holds, lemma_offered_is_vacant, lemma_offered_within, lemma_taken, lemma_total_prefix,
    lemma_total_step, lemma_total_zero, lemma_within_self, offered, reserved, taken, total,
    within, Terms,
};
use crate::student::{
    lemma_done_student_meets_quota, InitStudentOption, Student, StudentView,
};
use crate::vacants::{nothing, TermVacants};
use rand::rngs::StdRng;
use vstd::prelude::*;

verus! {

/// The vacancies of the six terms.
pub type HospitalTableInner = [TermVacants; 6];

/// The vacancies that are left, term by term.
#[derive(Debug)]
pub struct HospitalTable(HospitalTableInner);

impl View for HospitalTable {
    type V = Terms;

    closed spec fn view(&self) -> Terms {
        self.0@
    }
}

impl Clone for HospitalTable {
    fn clone(&self) -> (copy: HospitalTable)
        ensures
            copy == *self,
    {
        HospitalTable(self.0)
    }
}

/// A list of rows that is no table: it has `found` rows, not six.
#[derive(Clone, Copy, Debug, PartialEq, Eq, Structural)]
pub struct WrongTermCount {
    pub found: usize,
}

/// Whether a table and a student come about from `terms` and `student` by
/// placing the student in term `term` with a hospital of kind `h`: the term
/// was open, its kind had a vacancy in that term and was still needed; the
/// table gives up that vacancy, the student's term is settled, nothing else
/// changes.
pub open spec fn places(
    terms: Terms,
    student: StudentView,
    term: int,
    h: HospitalType,
    terms_after: Terms,
    student_after: StudentView,
) -> bool {
    &&& 0 <= term < terms.len()
    &&& 0 <= term < student.selection.len()
    &&& student.selection[term] is None
    &&& terms[term].spec_count(h) > 0
    &&& remaining_need(student.selection).spec_count(h) > 0
    &&& terms_after == taken(terms, term, h)
    &&& student_after.name == student.name
    &&& student_after.selection == student.selection.update(term, Some(h))
}

impl HospitalTable {
    /// Every table has six terms.
    pub broadcast proof fn lemma_six_terms(self)
        ensures
            #[trigger] self@.len() == 6,
    {
    }

    /// Whether the number of all vacancies fits the machine's word.
    pub open spec fn fits(self) -> bool {
        total(self@) <= usize::MAX
    }

    /// Gives up the table for the counts.
    pub fn into_inner(self) -> (slots: HospitalTableInner)
        ensures
            slots@ == self@,
    {
        self.0
    }

    /// The counts, term by term.
    pub fn as_inner(&self) -> (slots: &HospitalTableInner)
        ensures
            slots@ == self@,
    {
        &self.0
    }

    /// A table with the given counts.
    pub fn new(slots: HospitalTableInner) -> (table: HospitalTable)
        ensures
            table@ == slots@,
    {
        HospitalTable(slots)
    }

    /// A table from a list of rows, one for every term in order; refused
    /// where the list does not hold exactly six rows.
    pub fn from_rows(rows: Vec<TermVacants>) -> (table: Result<HospitalTable, WrongTermCount>)
        ensures
            match table {
                Ok(made) => rows@.len() == 6 && made@ == rows@,
                Err(refused) => rows@.len() != 6 && refused.found == rows@.len(),
            },
    {
        if rows.len() != 6 {
            return Err(WrongTermCount { found: rows.len() });
        }
        let slots = [rows[0], rows[1], rows[2], rows[3], rows[4], rows[5]];
        proof {
            assert(slots@ =~= rows@);
        }
        Ok(HospitalTable(slots))
    }

    /// Whether no term has a vacancy left.
    pub fn is_empty(&self) -> (empty: bool)
        ensures
            empty == (total(self@) == 0),
    {
        let mut term: usize = 0;
        while term < 6
            invariant
                term <= 6,
                self@.len() == 6,
                forall|t: int| 0 <= t < term ==> (#[trigger] self@[t]).spec_len() == 0,
            decreases 6 - term,
        {
            if !self.0[term].is_empty() {
                proof {
                    assert(self@[term as int].spec_len() != 0);
                    lemma_total_zero(self@);
                }
                return false;
            }
            term += 1;
        }
        proof {
            lemma_total_zero(self@);
        }
        true
    }

    /// The number of vacancies in all terms together.
    pub fn len(&self) -> (count: usize)
        requires
            self.fits(),
        ensures
            count == total(self@),
    {
        let mut count: usize = 0;
        let mut term: usize = 0;
        while term < 6
            invariant
                term <= 6,
                self@.len() == 6,
                self.fits(),
                count == total(self@.take(term as int)),
            decreases 6 - term,
        {
            proof {
                lemma_total_step(self@, term as int);
            }
            count += self.0[term].len();
            term += 1;
        }
        proof {
            assert(self@.take(6) =~= self@);
        }
        count
    }

    /// The number of vacancies in all terms together, where it fits the
    /// machine's word.
    pub fn checked_len(&self) -> (count: Option<usize>)
        ensures
            match count {
                Some(n) => self.fits() && n == total(self@),
                None => !self.fits(),
            },
    {
        let mut count: usize = 0;
        let mut term: usize = 0;
        while term < 6
            invariant
                term <= 6,
                self@.len() == 6,
                count == total(self@.take(term as int)),
            decreases 6 - term,
        {
            proof {
                lemma_total_step(self@, term as int);
            }
            let row = &self.0[term];
            let sum = row.inner_medical.checked_add(row.inner_surgical);
            let sum = match sum {
                Some(n) => n.checked_add(row.outer_medical),
                None => None,
            };
            let sum = match sum {
                Some(n) => n.checked_add(row.outer_surgical),
                None => None,
            };
            let sum = match sum {
                Some(n) => count.checked_add(n),
                None => None,
            };
            match sum {
                Some(n) => {
                    count = n;
                },
                None => {
                    return None;
                },
            }
            term += 1;
        }
        proof {
            assert(self@.take(6) =~= self@);
        }
        Some(count)
    }

    /// The vacancies that are left in one term.
    pub fn remaining(&self, term: usize) -> (counts: TermVacants)
        requires
            term < 6,
        ensures
            counts == self@[term as int],
    {
        self.0[term]
    }

    /// Takes one vacancy of kind `h` in term `term`, which must be there.
    pub fn consume(&mut self, term: usize, h: HospitalType)
        requires
            term < 6,
            old(self)@[term as int].spec_count(h) > 0,
        ensures
            final(self)@ == taken(old(self)@, term as int, h),
    {
        self.0[term].decrement(h);
        proof {
            assert(self@ =~= taken(old(self)@, term as int, h));
        }
    }

    /// What the table offers to a student: in every term that the student has
    /// open, the vacancies limited to what the student still needs.
    pub fn intersect(&self, student: &Student) -> (choices: HospitalTable)
        requires
            student.consistent(),
        ensures
            choices@ == offered(self@, student@.selection),
    {
        let mut hospitals: HospitalTableInner = [TermVacants::zero(); 6];
        let slots = student.required_hospitals();
        let selection = student.get_selection();
        let mut term: usize = 0;
        while term < 6
            invariant
                term <= 6,
                self@.len() == 6,
                selection@ == student@.selection,
                selection@.len() == 6,
                slots == remaining_need(student@.selection),
                forall|t: int|
                    0 <= t < term ==> hospitals@[t] == offered(self@, student@.selection)[t],
                forall|t: int| term <= t < 6 ==> hospitals@[t] == nothing(),
            decreases 6 - term,
        {
            if selection[term].is_none() {
                hospitals[term] = self.0[term].intersect(&slots);
            }
            term += 1;
        }
        proof {
            assert(hospitals@ =~= offered(self@, student@.selection));
        }
        HospitalTable(hospitals)
    }

    /// The term and kind of the vacancy with candidate number `i`, if the
    /// table has that many vacancies.
    pub fn index(&self, i: usize) -> (found: Option<(usize, HospitalType)>)
        requires
            self.fits(),
        ensures
            found is Some <==> i < total(self@),
            match found {
                Some((term, h)) => holds(self@, term as int, h, i as int),
                None => i >= total(self@),
            },
    {
        let mut rest: usize = i;
        let mut term: usize = 0;
        while term < 6
            invariant
                term <= 6,
                self@.len() == 6,
                self.fits(),
                rest + total(self@.take(term as int)) == i,
            decreases 6 - term,
        {
            proof {
                lemma_total_step(self@, term as int);
            }
            let slot = &self.0[term];
            let size = slot.len();
            if rest < size {
                proof {
                    lemma_total_prefix(self@, term as int, term + 1);
                }
                let mut count: usize = slot.count(HospitalType::InnerMedical);
                if rest < count {
                    return Some((term, HospitalType::InnerMedical));
                }
                count += slot.count(HospitalType::InnerSurgical);
                if rest < count {
                    return Some((term, HospitalType::InnerSurgical));
                }
                count += slot.count(HospitalType::OuterSurgical);
                if rest < count {
                    return Some((term, HospitalType::OuterSurgical));
                }
                return Some((term, HospitalType::OuterMedical));
            } else {
                rest -= size;
            }
            term += 1;
        }
        proof {
            assert(self@.take(6) =~= self@);
        }
        None
    }

    /// Places the student into the vacancy that has candidate number `draw`
    /// among the given choices, which are what the table offers the student.
    fn commit(&mut self, student: &mut Student, choices: &HospitalTable, draw: usize) -> (placed:
        Result<(), ()>)
        requires
            old(self).fits(),
            old(student).consistent(),
            choices@ == offered(old(self)@, old(student)@.selection),
        ensures
            placed is Ok <==> draw < total(offered(old(self)@, old(student)@.selection)),
            match placed {
                Ok(_) => exists|term: int, h: HospitalType|
                    holds(offered(old(self)@, old(student)@.selection), term, h, draw as int)
                        && places(
                        old(self)@,
                        old(student)@,
                        term,
                        h,
                        final(self)@,
                        final(student)@,
                    ),
                Err(_) => *final(self) == *old(self) && *final(student) == *old(student),
            },
            placed is Ok ==> total(final(self)@) + 1 == total(old(self)@),
            final(self).fits(),
            final(student).consistent(),
            final(student).spec_done() ==> meets_quota(final(student)@.selection),
            within(final(self)@, old(self)@),
    {
        proof {
            lemma_offered_within(self@, student@.selection);
            lemma_within_self(self@);
        }
        match choices.index(draw) {
            Some((term, hospital)) => {
                proof {
                    lemma_offered_is_vacant(
                        self@,
                        student@.selection,
                        term as int,
                        hospital,
                        draw as int,
                    );
                    lemma_assign_consistent(student@.selection, term as int, hospital);
                    lemma_taken(self@, term as int, hospital);
                }
                self.consume(term, hospital);
                student.assign(term, hospital);
                proof {
                    assert(holds(
                        offered(old(self)@, old(student)@.selection),
                        term as int,
                        hospital,
                        draw as int,
                    ));
                    assert(places(
                        old(self)@,
                        old(student)@,
                        term as int,
                        hospital,
                        self@,
                        student@,
                    ));
                    if student.spec_done() {
                        lemma_done_student_meets_quota(*student);
                    }
                }
                Ok(())
            },
            None => {
                proof {
                    if student.spec_done() {
                        lemma_done_student_meets_quota(*student);
                    }
                }
                Err(())
            },
        }
    }

    /// Places the student into the vacancy with candidate number `draw` among
    /// those that the table offers the student, where there are that many.
    pub fn select_at(&mut self, student: &mut Student, draw: usize) -> (placed: Result<(), ()>)
        requires
            old(self).fits(),
            old(student).consistent(),
        ensures
            placed is Ok <==> draw < total(offered(old(self)@, old(student)@.selection)),
            match placed {
                Ok(_) => exists|term: int, h: HospitalType|
                    holds(offered(old(self)@, old(student)@.selection), term, h, draw as int)
                        && places(
                        old(self)@,
                        old(student)@,
                        term,
                        h,
                        final(self)@,
                        final(student)@,
                    ),
                Err(_) => *final(self) == *old(self) && *final(student) == *old(student),
            },
            placed is Ok ==> total(final(self)@) + 1 == total(old(self)@),
            final(self).fits(),
            final(student).consistent(),
            final(student).spec_done() ==> meets_quota(final(student)@.selection),
            within(final(self)@, old(self)@),
    {
        let choices = self.intersect(student);
        self.commit(student, &choices, draw)
    }

    /// Places the student, who must have a term open, into one of the
    /// vacancies that the table offers the student, each vacancy being as
    /// likely as any other; fails, changes nothing and draws nothing, where
    /// the table offers the student none.
    pub fn random_select(&mut self, student: &mut Student, rng: &mut StdRng) -> (placed: Result<
        (),
        (),
    >)
        requires
            old(self).fits(),
            old(student).consistent(),
            !old(student).spec_done(),
        ensures
            placed is Err <==> total(offered(old(self)@, old(student)@.selection)) == 0,
            placed is Err ==> *final(self) == *old(self) && *final(student) == *old(student),
            placed is Ok ==> exists|term: int, h: HospitalType, draw: int|
                holds(offered(old(self)@, old(student)@.selection), term, h, draw) && places(
                    old(self)@,
                    old(student)@,
                    term,
                    h,
                    final(self)@,
                    final(student)@,
                ),
            placed is Ok ==> total(final(self)@) + 1 == total(old(self)@),
            placed is Err ==> *final(rng) == *old(rng),
            final(self).fits(),
            final(student).consistent(),
            final(student).spec_done() ==> meets_quota(final(student)@.selection),
            within(final(self)@, old(self)@),
    {
        let choices = self.intersect(student);
        if choices.is_empty() {
            proof {
                lemma_within_self(self@);
            }
            return Err(());
        }
        proof {
            lemma_offered_within(self@, student@.selection);
        }
        let rnd_index = draw_below(rng, choices.len());
        self.commit(student, &choices, rnd_index)
    }

    /// Whether the table holds a vacancy for everything that is already
    /// settled in a student's record.
    pub fn has_room_for(&self, student: &InitStudentOption) -> (room: bool)
        ensures
            room == covers(self@, student.selection()),
    {
        let selection = [
            student.term1,
            student.term2,
            student.term3,
            student.term4,
            student.term5,
            student.term6,
        ];
        assert(selection@ =~= student.selection());
        let mut term: usize = 0;
        while term < 6
            invariant
                term <= 6,
                self@.len() == 6,
                selection@ == student.selection(),
                forall|t: int|
                    0 <= t < term && selection@[t] is Some ==> (#[trigger] self@[t]).spec_count(
                        selection@[t]->Some_0,
                    ) > 0,
            decreases 6 - term,
        {
            if let Some(hospital) = selection[term] {
                if self.0[term].count(hospital) == 0 {
                    return false;
                }
            }
            term += 1;
        }
        true
    }

    /// Enters a student from a record and takes what is already settled for
    /// the student out of the table.
    pub fn init_student(&mut self, student: InitStudentOption) -> (entered: Student)
        requires
            covers(old(self)@, student.selection()),
        ensures
            entered@.name == student.name@,
            entered@.selection == student.selection(),
            final(self)@ == reserved(old(self)@, student.selection()),
    {
        let InitStudentOption { name, term1, term2, term3, term4, term5, term6 } = student;
        let selection = [term1, term2, term3, term4, term5, term6];
        assert(selection@ =~= student.selection());
        let mut term: usize = 0;
        while term < 6
            invariant
                term <= 6,
                self@.len() == 6,
                old(self)@.len() == 6,
                selection@ == student.selection(),
                covers(old(self)@, selection@),
                forall|t: int| 0 <= t < term ==> self@[t] == reserved(old(self)@, selection@)[t],
                forall|t: int| term <= t < 6 ==> self@[t] == old(self)@[t],
            decreases 6 - term,
        {
            if let Some(hospital) = selection[term] {
                assert(old(self)@[term as int].spec_count(hospital) > 0);
                self.consume(term, hospital);
            }
            term += 1;
        }
        proof {
            assert(self@ =~= reserved(old(self)@, selection@));
        }
        Student::assemble(name, selection)
    }
}

} // verus!
