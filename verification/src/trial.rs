//! One trial: placements are drawn, pass after pass over the students in a
//! fresh random order, until every student is finished or cannot be served.
//!
//! A student who cannot be served is set aside for good, and the trial goes on
//! with the others: its outcome names every student who got stuck, not only
//! the first.

use crate::chance::shuffle;
use crate::history::{lemma_assign_tally, meets_quota, vacant};
use crate::hospital::HospitalType;
use crate::layout::{
    holds, lemma_holds_bound, lemma_offered_shrinks, lemma_taken, lemma_within_chain,
    lemma_within_self, offered, total, within, Terms,
};
use crate::roster::{
    lemma_names_handed_on, lemma_names_moved, lemma_permuted_members, lemma_roster_joined,
    lemma_roster_permuted, lemma_roster_push, lemma_roster_step, lemma_settled_permuted,
    lemma_settled_push, lemma_settled_step, names, open_terms, settled, settled_in,
};
use crate::student::{Student, StudentView};
use crate::table::{places, HospitalTable};
use rand::rngs::StdRng;
use vstd::prelude::*;

verus! {

/// What one visit of a student within a pass comes to.
#[derive(Debug)]
pub enum Step {
    /// The student had every term filled and was not offered anything.
    Finished,
    /// The student was placed into one more term.
    Advanced(Student),
    /// The table had nothing to offer the student, who is left as before.
    Stuck(Student),
}

/// Whether `later` is `earlier` with, possibly, more terms settled: the same
/// name, and every term that was settled still holds what it held.
pub open spec fn descends(earlier: StudentView, later: StudentView) -> bool {
    &&& later.name == earlier.name
    &&& later.selection.len() == earlier.selection.len()
    &&& forall|t: int|
        0 <= t < earlier.selection.len() && earlier.selection[t] is Some
            ==> later.selection[t] == earlier.selection[t]
}

/// Whether the student has open terms and the table nothing to fill them with.
pub open spec fn stuck_at(terms: Terms, student: Student) -> bool {
    &&& !student.spec_done()
    &&& student.consistent()
    &&& total(offered(terms, student@.selection)) == 0
}

/// Whether the student is one of the enrolled who has finished: every term is
/// filled, with no more of any kind than the course allows, and what was
/// settled at enrolment is still in place.
pub open spec fn finished_of(enrolled: Seq<Student>, student: Student) -> bool {
    &&& student.spec_done()
    &&& student.consistent()
    &&& exists|j: int| 0 <= j < enrolled.len() && descends((#[trigger] enrolled[j])@, student@)
}

/// Whether a trial that started with the table `terms` and the students
/// `enrolled` is accounted for by the table `left`, the students `finished`
/// and the students `stuck`: every enrolled student is, by name, either among
/// the finished or among the stuck; the finished have finished; and for every
/// term and kind the table has lost exactly as many vacancies as the students
/// hold more placements of that term and kind than when they enrolled.
pub open spec fn accounted(
    terms: Terms,
    enrolled: Seq<Student>,
    left: Terms,
    finished: Seq<Student>,
    stuck: Seq<Student>,
) -> bool {
    &&& forall|k: int| 0 <= k < finished.len() ==> finished_of(enrolled, #[trigger] finished[k])
    &&& names(finished).add(names(stuck)) == names(enrolled)
    &&& left.len() == terms.len()
    &&& forall|term: int, h: HospitalType|
        0 <= term < terms.len() ==> left[term].spec_count(h) + settled(finished, term, h)
            + settled(stuck, term, h) == terms[term].spec_count(h) + #[trigger] settled(
            enrolled,
            term,
            h,
        )
}

/// The vacancies of one term and kind that the table holds, together with the
/// placements of that term and kind that the students of three lists hold.
spec fn stock(
    terms: Terms,
    a: Seq<Student>,
    b: Seq<Student>,
    c: Seq<Student>,
    term: int,
    h: HospitalType,
) -> nat {
    terms[term].spec_count(h) + settled(a, term, h) + settled(b, term, h) + settled(c, term, h)
}

/// Visits one student: a finished student is passed over, any other is
/// offered what the table has and either placed or found stuck.  Nothing is
/// drawn unless the student is placed.
pub fn advance(table: &mut HospitalTable, student: Student, rng: &mut StdRng) -> (step: Step)
    requires
        old(table).fits(),
        student.consistent(),
    ensures
        final(table).fits(),
        within(final(table)@, old(table)@),
        step is Finished || step is Stuck ==> *final(rng) == *old(rng),
        match step {
            Step::Finished => student.spec_done() && *final(table) == *old(table),
            Step::Advanced(after) => !student.spec_done() && after.consistent() && (
            after.spec_done() ==> meets_quota(after@.selection)) && exists|
                term: int,
                h: HospitalType,
                draw: int,
            |
                holds(offered(old(table)@, student@.selection), term, h, draw) && places(
                    old(table)@,
                    student@,
                    term,
                    h,
                    final(table)@,
                    after@,
                ),
            Step::Stuck(same) => same == student && stuck_at(old(table)@, student) && *final(table)
                == *old(table),
        },
{
    if student.done() {
        proof {
            lemma_within_self(table@);
        }
        Step::Finished
    } else {
        let mut student = student;
        if table.random_select(&mut student, rng).is_err() {
            Step::Stuck(student)
        } else {
            Step::Advanced(student)
        }
    }
}

/// One pass: every student of `order` is visited once, in that order.  Those
/// who were placed come back as the list for the next pass, those who got
/// stuck are added to `stuck`, and the finished drop out; which students
/// those were is handed back for the proof alone.
fn pass(
    table: &mut HospitalTable,
    order: Vec<Student>,
    stuck: &mut Vec<Student>,
    rng: &mut StdRng,
) -> (out: (Vec<Student>, Ghost<Seq<Student>>))
    requires
        old(table).fits(),
        forall|i: int| 0 <= i < order@.len() ==> (#[trigger] order@[i]).consistent(),
        forall|k: int|
            0 <= k < old(stuck)@.len() ==> stuck_at(old(table)@, #[trigger] old(stuck)@[k]),
    ensures
        final(table).fits(),
        within(final(table)@, old(table)@),
        forall|i: int| 0 <= i < out.0@.len() ==> (#[trigger] out.0@[i]).consistent(),
        forall|i: int|
            0 <= i < out.0@.len() ==> exists|j: int|
                0 <= j < order@.len() && descends(order@[j]@, (#[trigger] out.0@[i])@),
        forall|k: int|
            0 <= k < final(stuck)@.len() ==> stuck_at(final(table)@, #[trigger] final(stuck)@[k]),
        old(stuck)@.len() <= final(stuck)@.len(),
        final(stuck)@.take(old(stuck)@.len() as int) == old(stuck)@,
        forall|k: int|
            old(stuck)@.len() <= k < final(stuck)@.len() ==> order@.contains(
                #[trigger] final(stuck)@[k],
            ),
        forall|k: int|
            0 <= k < out.1@.len() ==> (#[trigger] out.1@[k]).spec_done() && out.1@[k].consistent()
                && order@.contains(out.1@[k]),
        total(old(table)@) + open_terms(out.0@) + open_terms(final(stuck)@) == total(
            final(table)@,
        ) + open_terms(order@) + open_terms(old(stuck)@),
        open_terms(out.0@) + out.0@.len() <= open_terms(order@),
        names(out.0@).add(names(final(stuck)@)).add(names(out.1@)) == names(order@).add(
            names(old(stuck)@),
        ),
        forall|term: int, h: HospitalType|
            0 <= term < old(table)@.len() ==> #[trigger] stock(
                final(table)@,
                out.0@,
                final(stuck)@,
                out.1@,
                term,
                h,
            ) == stock(old(table)@, order@, old(stuck)@, Seq::empty(), term, h),
{
    let ghost roster = order@;
    let ghost terms_before = table@;
    let ghost stuck_before = stuck@;
    let ghost mut done: Seq<Student> = Seq::empty();
    let mut next: Vec<Student> = Vec::new();
    proof {
        assert(names(next@).add(names(stuck@)).add(names(done)) =~= names(roster.take(0)).add(
            names(stuck_before),
        ));
        lemma_within_self(terms_before);
    }
    for student in it: order
        invariant
            it.seq() == roster,
            table.fits(),
            within(table@, terms_before),
            forall|i: int| 0 <= i < roster.len() ==> (#[trigger] roster[i]).consistent(),
            forall|i: int| 0 <= i < next@.len() ==> (#[trigger] next@[i]).consistent(),
            forall|i: int|
                0 <= i < next@.len() ==> exists|j: int|
                    0 <= j < roster.len() && descends(roster[j]@, (#[trigger] next@[i])@),
            forall|k: int| 0 <= k < stuck@.len() ==> stuck_at(table@, #[trigger] stuck@[k]),
            stuck_before.len() <= stuck@.len(),
            stuck@.take(stuck_before.len() as int) == stuck_before,
            forall|k: int|
                stuck_before.len() <= k < stuck@.len() ==> roster.contains(#[trigger] stuck@[k]),
            forall|k: int|
                0 <= k < done.len() ==> (#[trigger] done[k]).spec_done() && done[k].consistent()
                    && roster.contains(done[k]),
            total(terms_before) + open_terms(next@) + open_terms(stuck@) == total(table@)
                + open_terms(roster.take(it.index() as int)) + open_terms(stuck_before),
            open_terms(next@) + next@.len() <= open_terms(roster.take(it.index() as int)),
            names(next@).add(names(stuck@)).add(names(done)) == names(
                roster.take(it.index() as int),
            ).add(names(stuck_before)),
            forall|term: int, h: HospitalType|
                0 <= term < terms_before.len() ==> #[trigger] stock(
                    table@,
                    next@,
                    stuck@,
                    done,
                    term,
                    h,
                ) == stock(
                    terms_before,
                    roster.take(it.index() as int),
                    stuck_before,
                    Seq::empty(),
                    term,
                    h,
                ),
    {
        let ghost i = it.index() as int;
        let ghost terms = table@;
        let ghost next_before = next@;
        let ghost stuck_now = stuck@;
        let ghost done_before = done;
        proof {
            assert(student == roster[i]);
            lemma_roster_step(roster, i);
            lemma_names_moved(
                names(next_before),
                names(stuck_now),
                names(done_before),
                names(roster.take(i)),
                names(stuck_before),
                student@.name,
            );
        }
        match advance(table, student, rng) {
            Step::Finished => {
                proof {
                    done = done_before.push(student);
                    lemma_roster_push(done_before, student);
                    assert forall|k: int| 0 <= k < done.len() implies (
                    #[trigger] done[k]).spec_done() && done[k].consistent() && roster.contains(
                        done[k],
                    ) by {
                        if k < done_before.len() {
                            assert(done[k] == done_before[k]);
                        } else {
                            assert(roster[i] == done[k]);
                        }
                    }
                    assert forall|term: int, h: HospitalType|
                        0 <= term < terms_before.len() implies #[trigger] stock(
                        table@,
                        next@,
                        stuck@,
                        done,
                        term,
                        h,
                    ) == stock(
                        terms_before,
                        roster.take(i + 1),
                        stuck_before,
                        Seq::empty(),
                        term,
                        h,
                    ) by {
                        lemma_settled_push(done_before, student, term, h);
                        lemma_settled_step(roster, i, term, h);
                        assert(stock(terms, next_before, stuck_now, done_before, term, h) == stock(
                            terms_before,
                            roster.take(i),
                            stuck_before,
                            Seq::empty(),
                            term,
                            h,
                        ));
                    }
                    assert(names(next@).add(names(stuck@)).add(names(done)) =~= names(
                        roster.take(i + 1),
                    ).add(names(stuck_before)));
                }
            },
            Step::Advanced(after) => {
                proof {
                    let (term0, h0, draw) = choose|term: int, h: HospitalType, draw: int|
                        holds(offered(terms, student@.selection), term, h, draw) && places(
                            terms,
                            student@,
                            term,
                            h,
                            table@,
                            after@,
                        );
                    lemma_placed(terms, student, term0, h0, draw, table@, after);
                    lemma_within_chain(table@, terms, terms_before);
                    lemma_roster_push(next_before, after);
                    assert forall|k: int| 0 <= k < stuck@.len() implies stuck_at(
                        table@,
                        #[trigger] stuck@[k],
                    ) by {
                        lemma_offered_shrinks(terms, table@, stuck@[k]@.selection);
                    }
                    assert forall|term: int, h: HospitalType|
                        0 <= term < terms_before.len() implies #[trigger] stock(
                        table@,
                        next_before.push(after),
                        stuck@,
                        done,
                        term,
                        h,
                    ) == stock(
                        terms_before,
                        roster.take(i + 1),
                        stuck_before,
                        Seq::empty(),
                        term,
                        h,
                    ) by {
                        lemma_settled_push(next_before, after, term, h);
                        lemma_settled_step(roster, i, term, h);
                        lemma_placed_cell(terms, student, term0, h0, table@, after, term, h);
                        assert(stock(terms, next_before, stuck_now, done_before, term, h) == stock(
                            terms_before,
                            roster.take(i),
                            stuck_before,
                            Seq::empty(),
                            term,
                            h,
                        ));
                    }
                    assert(names(next_before.push(after)).add(names(stuck@)).add(names(done))
                        =~= names(roster.take(i + 1)).add(names(stuck_before)));
                }
                next.push(after);
                proof {
                    assert forall|n: int| 0 <= n < next@.len() implies exists|j: int|
                        0 <= j < roster.len() && descends(roster[j]@, (#[trigger] next@[n])@) by {
                        if n == next_before.len() {
                            assert(descends(roster[i]@, next@[n]@));
                        } else {
                            assert(next@[n] == next_before[n]);
                        }
                    }
                    assert forall|n: int| 0 <= n < next@.len() implies (
                    #[trigger] next@[n]).consistent() by {
                        if n < next_before.len() {
                            assert(next@[n] == next_before[n]);
                        }
                    }
                }
            },
            Step::Stuck(same) => {
                proof {
                    lemma_roster_push(stuck_now, same);
                    assert forall|term: int, h: HospitalType|
                        0 <= term < terms_before.len() implies #[trigger] stock(
                        table@,
                        next@,
                        stuck_now.push(same),
                        done,
                        term,
                        h,
                    ) == stock(
                        terms_before,
                        roster.take(i + 1),
                        stuck_before,
                        Seq::empty(),
                        term,
                        h,
                    ) by {
                        lemma_settled_push(stuck_now, same, term, h);
                        lemma_settled_step(roster, i, term, h);
                        assert(stock(terms, next_before, stuck_now, done_before, term, h) == stock(
                            terms_before,
                            roster.take(i),
                            stuck_before,
                            Seq::empty(),
                            term,
                            h,
                        ));
                    }
                    assert(names(next@).add(names(stuck_now.push(same))).add(names(done))
                        =~= names(roster.take(i + 1)).add(names(stuck_before)));
                }
                stuck.push(same);
                proof {
                    assert(stuck@.take(stuck_before.len() as int) =~= stuck_now.take(
                        stuck_before.len() as int,
                    ));
                    assert forall|k: int| 0 <= k < stuck@.len() implies stuck_at(
                        table@,
                        #[trigger] stuck@[k],
                    ) by {
                        if k < stuck_now.len() {
                            assert(stuck@[k] == stuck_now[k]);
                        }
                    }
                    assert forall|k: int|
                        stuck_before.len() <= k < stuck@.len() implies roster.contains(
                        #[trigger] stuck@[k],
                    ) by {
                        if k < stuck_now.len() {
                            assert(stuck@[k] == stuck_now[k]);
                        } else {
                            assert(roster[i] == stuck@[k]);
                        }
                    }
                }
            },
        }
    }
    proof {
        assert(roster.take(roster.len() as int) =~= roster);
    }
    (next, Ghost(done))
}

/// What a placement does to the numbers a trial keeps track of: the table
/// stays within what it was and loses one vacancy, and the student keeps name
/// and settled terms and has one open term fewer.
proof fn lemma_placed(
    terms: Terms,
    student: Student,
    term: int,
    h: HospitalType,
    draw: int,
    terms_after: Terms,
    after: Student,
)
    requires
        holds(offered(terms, student@.selection), term, h, draw),
        places(terms, student@, term, h, terms_after, after@),
    ensures
        within(terms_after, terms),
        total(terms_after) + 1 == total(terms),
        vacant(after@.selection) + 1 == vacant(student@.selection),
        descends(student@, after@),
{
    let offer = offered(terms, student@.selection);
    lemma_holds_bound(offer, term, h, draw);
    assert(offer[term].spec_count(h) > 0);
    assert(student@.selection[term] is None);
    assert(terms[term].spec_count(h) > 0);
    lemma_taken(terms, term, h);
    lemma_assign_tally(student@.selection, term, h, h);
}

/// What a placement does to one term and kind: the vacancy that the table
/// gives up is the placement that the student gains.
proof fn lemma_placed_cell(
    terms: Terms,
    student: Student,
    placed_term: int,
    placed: HospitalType,
    terms_after: Terms,
    after: Student,
    term: int,
    h: HospitalType,
)
    requires
        places(terms, student@, placed_term, placed, terms_after, after@),
        0 <= term < terms.len(),
    ensures
        terms_after[term].spec_count(h) + settled_in(after, term, h) == terms[term].spec_count(h)
            + settled_in(student, term, h),
{
}

/// Being a later state of a student is passed on.
proof fn lemma_descends_chain(a: StudentView, b: StudentView, c: StudentView)
    requires
        descends(a, b),
        descends(b, c),
    ensures
        descends(a, c),
{
    assert forall|t: int|
        0 <= t < a.selection.len() && a.selection[t] is Some implies c.selection[t]
        == a.selection[t] by {
        assert(b.selection[t] == a.selection[t]);
    }
}

/// Runs one trial on a table and a list of students and returns the students
/// who got stuck together with the table as the trial left it.
///
/// Each pass visits the students who are still open in a fresh random order.
/// A student without an open term is never offered anything; a student to whom
/// the table has nothing to offer is set aside as stuck and stays so.  The
/// trial ends with the first pass in which nobody was placed.  Every student
/// who is not handed back as stuck has finished, and the table has lost
/// exactly the vacancies that the students were placed into.
pub fn run_trial(table: HospitalTable, students: Vec<Student>, rng: &mut StdRng) -> (outcome: (
    Vec<Student>,
    HospitalTable,
))
    requires
        table.fits(),
        forall|i: int| 0 <= i < students@.len() ==> (#[trigger] students@[i]).consistent(),
    ensures
        within(outcome.1@, table@),
        forall|k: int|
            0 <= k < outcome.0@.len() ==> stuck_at(outcome.1@, #[trigger] outcome.0@[k]),
        forall|k: int|
            0 <= k < outcome.0@.len() ==> exists|j: int|
                0 <= j < students@.len() && descends(students@[j]@, (#[trigger] outcome.0@[k])@),
        names(outcome.0@).subset_of(names(students@)),
        total(table@) + open_terms(outcome.0@) == total(outcome.1@) + open_terms(students@),
        exists|finished: Seq<Student>|
            accounted(table@, students@, outcome.1@, finished, outcome.0@),
{
    let ghost enrolled = students@;
    let ghost terms_at_start = table@;
    let ghost mut finished: Seq<Student> = Seq::empty();
    let mut left = table;
    let mut open = students;
    let mut stuck: Vec<Student> = Vec::new();
    proof {
        assert(names(finished).add(names(open@)).add(names(stuck@)) =~= names(enrolled));
        assert forall|i: int| 0 <= i < open@.len() implies exists|j: int|
            0 <= j < enrolled.len() && descends(enrolled[j]@, (#[trigger] open@[i])@) by {
            assert(descends(enrolled[i]@, open@[i]@));
        }
        lemma_within_self(terms_at_start);
    }
    loop
        invariant
            enrolled == students@,
            terms_at_start == table@,
            left.fits(),
            within(left@, terms_at_start),
            forall|i: int| 0 <= i < open@.len() ==> (#[trigger] open@[i]).consistent(),
            forall|i: int|
                0 <= i < open@.len() ==> exists|j: int|
                    0 <= j < enrolled.len() && descends(enrolled[j]@, (#[trigger] open@[i])@),
            forall|k: int| 0 <= k < stuck@.len() ==> stuck_at(left@, #[trigger] stuck@[k]),
            forall|k: int|
                0 <= k < stuck@.len() ==> exists|j: int|
                    0 <= j < enrolled.len() && descends(enrolled[j]@, (#[trigger] stuck@[k])@),
            forall|k: int|
                0 <= k < finished.len() ==> finished_of(enrolled, #[trigger] finished[k]),
            names(finished).add(names(open@)).add(names(stuck@)) == names(enrolled),
            total(terms_at_start) + open_terms(open@) + open_terms(stuck@) == total(left@)
                + open_terms(enrolled),
            forall|term: int, h: HospitalType|
                0 <= term < terms_at_start.len() ==> #[trigger] stock(
                    left@,
                    open@,
                    stuck@,
                    finished,
                    term,
                    h,
                ) == terms_at_start[term].spec_count(h) + settled(enrolled, term, h),
        decreases open_terms(open@) + open@.len(),
    {
        let ghost before = open@;
        let ghost terms = left@;
        let ghost stuck_before = stuck@;
        let ghost finished_before = finished;
        shuffle(&mut open, rng);
        let ghost order = open@;
        proof {
            lemma_roster_permuted(order, before);
            lemma_permuted_members(order, before);
            assert forall|i: int| 0 <= i < order.len() implies (#[trigger] order[i]).consistent()
                && exists|j: int|
                0 <= j < enrolled.len() && descends(enrolled[j]@, order[i]@) by {
                let n = choose|n: int| 0 <= n < before.len() && before[n] == order[i];
                assert(before[n].consistent());
            }
        }
        let (next, Ghost(done_now)) = pass(&mut left, open, &mut stuck, rng);
        proof {
            finished = finished_before + done_now;
            lemma_within_chain(left@, terms, terms_at_start);
            assert forall|i: int| 0 <= i < next@.len() implies exists|j: int|
                0 <= j < enrolled.len() && descends(enrolled[j]@, (#[trigger] next@[i])@) by {
                let m = choose|m: int| 0 <= m < order.len() && descends(order[m]@, next@[i]@);
                let j = choose|j: int| 0 <= j < enrolled.len() && descends(enrolled[j]@, order[m]@);
                lemma_descends_chain(enrolled[j]@, order[m]@, next@[i]@);
            }
            assert forall|k: int| 0 <= k < stuck@.len() implies exists|j: int|
                0 <= j < enrolled.len() && descends(enrolled[j]@, (#[trigger] stuck@[k])@) by {
                if k < stuck_before.len() {
                    assert(stuck@.take(stuck_before.len() as int)[k] == stuck_before[k]);
                } else {
                    assert(order.contains(stuck@[k]));
                    let m = choose|m: int| 0 <= m < order.len() && order[m] == stuck@[k];
                    let j = choose|j: int|
                        0 <= j < enrolled.len() && descends(enrolled[j]@, order[m]@);
                }
            }
            assert forall|k: int| 0 <= k < finished.len() implies finished_of(
                enrolled,
                #[trigger] finished[k],
            ) by {
                if k < finished_before.len() {
                    assert(finished[k] == finished_before[k]);
                } else {
                    let d = k - finished_before.len();
                    assert(finished[k] == done_now[d]);
                    assert(order.contains(done_now[d]));
                    let m = choose|m: int| 0 <= m < order.len() && order[m] == done_now[d];
                    let j = choose|j: int|
                        0 <= j < enrolled.len() && descends(enrolled[j]@, order[m]@);
                    assert(descends(enrolled[j]@, finished[k]@));
                }
            }
            lemma_roster_joined(finished_before, done_now, 0, HospitalType::InnerMedical);
            lemma_names_handed_on(
                names(enrolled),
                names(finished_before),
                names(before),
                names(stuck_before),
                names(next@),
                names(stuck@),
                names(done_now),
            );
            assert forall|term: int, h: HospitalType|
                0 <= term < terms_at_start.len() implies #[trigger] stock(
                left@,
                next@,
                stuck@,
                finished,
                term,
                h,
            ) == terms_at_start[term].spec_count(h) + settled(enrolled, term, h) by {
                lemma_roster_joined(finished_before, done_now, term, h);
                lemma_settled_permuted(order, before, term, h);
                assert(stock(left@, next@, stuck@, done_now, term, h) == stock(
                    terms,
                    order,
                    stuck_before,
                    Seq::empty(),
                    term,
                    h,
                ));
                assert(stock(terms, before, stuck_before, finished_before, term, h)
                    == terms_at_start[term].spec_count(h) + settled(enrolled, term, h));
            }
        }
        if next.is_empty() {
            proof {
                assert(open_terms(next@) == 0);
                assert(names(next@) =~= vstd::multiset::Multiset::empty());
                assert(names(finished).add(names(stuck@)) =~= names(enrolled));
                assert(names(stuck@).subset_of(names(enrolled))) by {
                    assert forall|v: Seq<char>|
                        names(stuck@).count(v) <= names(enrolled).count(v) by {
                        assert(names(finished).add(names(stuck@)).count(v) == names(
                            enrolled,
                        ).count(v));
                    }
                }
                assert forall|term: int, h: HospitalType|
                    0 <= term < terms_at_start.len() implies left@[term].spec_count(h) + settled(
                    finished,
                    term,
                    h,
                ) + settled(stuck@, term, h) == terms_at_start[term].spec_count(h)
                    + #[trigger] settled(enrolled, term, h) by {
                    assert(stock(left@, next@, stuck@, finished, term, h)
                        == terms_at_start[term].spec_count(h) + settled(enrolled, term, h));
                }
                assert(accounted(terms_at_start, enrolled, left@, finished, stuck@));
            }
            return (stuck, left);
        }
        open = next;
    }
}

} // verus!
