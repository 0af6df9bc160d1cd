//! What a sequence of per-term placements says about its holder: how often each
//! kind occurs, which kind repeats first, and what is still needed.

use crate::hospital::{Course, HospitalType};
use crate::vacants::{everything, TermVacants};
use vstd::prelude::*;

verus! {

/// The placements of one student, term by term; `None` marks an open term.
pub type History = Seq<Option<HospitalType>>;

/// How often kind `h` occurs in the history.
pub open spec fn tally(history: History, h: HospitalType) -> nat
    decreases history.len(),
{
    if history.len() == 0 {
        0
    } else {
        tally(history.drop_last(), h) + if history.last() == Some(h) {
            1nat
        } else {
            0nat
        }
    }
}

/// How many terms of the history are still open.
pub open spec fn vacant(history: History) -> nat
    decreases history.len(),
{
    if history.len() == 0 {
        0
    } else {
        vacant(history.drop_last()) + if history.last() is None {
            1nat
        } else {
            0nat
        }
    }
}

/// Whether the placement of term `j` repeats the kind of an earlier term.
pub open spec fn repeats_at(history: History, j: int) -> bool {
    &&& 0 <= j < history.len()
    &&& history[j] is Some
    &&& exists|i: int| 0 <= i < j && history[i] == history[j]
}

/// The kind that is the first to occur a second time, going through the terms
/// in order.
pub open spec fn first_repeat(history: History) -> Option<HospitalType>
    decreases history.len(),
{
    if history.len() == 0 {
        None
    } else {
        let earlier = history.drop_last();
        match first_repeat(earlier) {
            Some(h) => Some(h),
            None => match history.last() {
                Some(h) => if tally(earlier, h) > 0 {
                    Some(h)
                } else {
                    None
                },
                None => None,
            },
        }
    }
}

/// The course that the history gives away, if it does.
pub open spec fn inferred_course(history: History) -> Option<Course> {
    match first_repeat(history) {
        Some(h) => Some(h.spec_course()),
        None => None,
    }
}

/// Whether the history holds no more of any kind than its course asks for.
/// A history that gives no course away holds each kind at most once.
pub open spec fn consistent(history: History) -> bool {
    match inferred_course(history) {
        Some(course) => forall|h: HospitalType| #[trigger]
            tally(history, h) <= course.quota().spec_count(h),
        None => true,
    }
}

/// Whether the history gives a course away and holds of every kind exactly
/// what that course asks for.
pub open spec fn meets_quota(history: History) -> bool {
    &&& inferred_course(history) is Some
    &&& forall|h: HospitalType| #[trigger]
        tally(history, h) == inferred_course(history)->Some_0.quota().spec_count(h)
}

/// What the holder of the history still has to take: the quota of the course
/// less what is held, or the largest counts while the course is unknown.
pub open spec fn remaining_need(history: History) -> TermVacants
    recommends
        consistent(history),
{
    match inferred_course(history) {
        Some(course) => {
            let quota = course.quota();
            TermVacants {
                inner_medical: (quota.inner_medical - tally(
                    history,
                    HospitalType::InnerMedical,
                )) as usize,
                inner_surgical: (quota.inner_surgical - tally(
                    history,
                    HospitalType::InnerSurgical,
                )) as usize,
                outer_medical: (quota.outer_medical - tally(
                    history,
                    HospitalType::OuterMedical,
                )) as usize,
                outer_surgical: (quota.outer_surgical - tally(
                    history,
                    HospitalType::OuterSurgical,
                )) as usize,
            }
        },
        None => everything(),
    }
}

/// Every term is either open or holds exactly one of the four kinds.
pub proof fn lemma_tally_sum(history: History)
    ensures
        tally(history, HospitalType::InnerMedical) + tally(history, HospitalType::InnerSurgical)
            + tally(history, HospitalType::OuterMedical) + tally(
            history,
            HospitalType::OuterSurgical,
        ) + vacant(history) == history.len(),
    decreases history.len(),
{
    if history.len() > 0 {
        lemma_tally_sum(history.drop_last());
        match history.last() {
            Some(HospitalType::InnerMedical) => {},
            Some(HospitalType::InnerSurgical) => {},
            Some(HospitalType::OuterMedical) => {},
            Some(HospitalType::OuterSurgical) => {},
            None => {},
        }
    }
}

/// A kind occurs in the history exactly when its tally is positive.
pub proof fn lemma_tally_positive(history: History, h: HospitalType)
    ensures
        tally(history, h) > 0 <==> exists|i: int|
            0 <= i < history.len() && history[i] == Some(h),
    decreases history.len(),
{
    if history.len() > 0 {
        let earlier = history.drop_last();
        lemma_tally_positive(earlier, h);
        if tally(history, h) > 0 {
            if history.last() == Some(h) {
                assert(history[history.len() - 1] == Some(h));
            } else {
                let i = choose|i: int| 0 <= i < earlier.len() && earlier[i] == Some(h);
                assert(history[i] == Some(h));
            }
        }
        if exists|i: int| 0 <= i < history.len() && history[i] == Some(h) {
            let i = choose|i: int| 0 <= i < history.len() && history[i] == Some(h);
            if i < history.len() - 1 {
                assert(earlier[i] == Some(h));
            }
        }
    }
}

/// A longer prefix of a history holds at least as many of each kind.
pub proof fn lemma_tally_prefix(history: History, i: int, j: int, h: HospitalType)
    requires
        0 <= i <= j <= history.len(),
    ensures
        tally(history.take(i), h) <= tally(history.take(j), h),
    decreases j - i,
{
    if i < j {
        assert(history.take(j).drop_last() =~= history.take(j - 1));
        lemma_tally_prefix(history, i, j - 1, h);
    }
}

/// Taking one more term into a prefix adds that term's kind to the tallies.
pub proof fn lemma_tally_step(history: History, i: int, h: HospitalType)
    requires
        0 <= i < history.len(),
    ensures
        tally(history.take(i + 1), h) == tally(history.take(i), h) + if history[i] == Some(h) {
            1nat
        } else {
            0nat
        },
        vacant(history.take(i + 1)) == vacant(history.take(i)) + if history[i] is None {
            1nat
        } else {
            0nat
        },
{
    assert(history.take(i + 1).drop_last() =~= history.take(i));
}

/// Filling an open term raises the tally of the kind placed there by one and
/// leaves the other tallies alone; one term fewer is open.
pub proof fn lemma_assign_tally(history: History, term: int, h: HospitalType, other: HospitalType)
    requires
        0 <= term < history.len(),
        history[term] is None,
    ensures
        tally(history.update(term, Some(h)), other) == tally(history, other) + if other == h {
            1nat
        } else {
            0nat
        },
        vacant(history.update(term, Some(h))) + 1 == vacant(history),
    decreases history.len(),
{
    let after = history.update(term, Some(h));
    if term == history.len() - 1 {
        assert(after.drop_last() =~= history.drop_last());
    } else {
        assert(after.drop_last() =~= history.drop_last().update(term, Some(h)));
        lemma_assign_tally(history.drop_last(), term, h, other);
    }
}

/// A history has a first repeat exactly when some kind occurs in it twice, and
/// the kind that repeats first is one of those.
pub proof fn lemma_repeat_tally(history: History)
    ensures
        first_repeat(history) is None <==> forall|h: HospitalType| #[trigger]
            tally(history, h) <= 1,
        first_repeat(history) matches Some(h) ==> tally(history, h) >= 2,
    decreases history.len(),
{
    if history.len() > 0 {
        let earlier = history.drop_last();
        lemma_repeat_tally(earlier);
        assert forall|h: HospitalType| tally(earlier, h) <= #[trigger] tally(history, h) by {}
        match first_repeat(earlier) {
            Some(h) => {
                assert(tally(history, h) >= 2);
            },
            None => {
                match history.last() {
                    Some(h) => {
                        if tally(earlier, h) > 0 {
                            assert(tally(history, h) >= 2);
                        } else {
                            assert forall|x: HospitalType| #[trigger] tally(history, x) <= 1 by {
                                assert(tally(earlier, x) <= 1);
                            }
                        }
                    },
                    None => {
                        assert forall|x: HospitalType| #[trigger] tally(history, x) <= 1 by {
                            assert(tally(earlier, x) <= 1);
                        }
                    },
                }
            },
        }
    } else {
        assert forall|x: HospitalType| #[trigger] tally(history, x) <= 1 by {}
    }
}

/// The first repeat of a prefix is the first repeat of the whole history.
pub proof fn lemma_repeat_prefix(history: History, i: int)
    requires
        0 <= i <= history.len(),
        first_repeat(history.take(i)) is Some,
    ensures
        first_repeat(history) == first_repeat(history.take(i)),
    decreases history.len() - i,
{
    if i < history.len() {
        assert(history.take(i + 1).drop_last() =~= history.take(i));
        lemma_repeat_prefix(history, i + 1);
    } else {
        assert(history.take(i) =~= history);
    }
}

/// The first repeat read off the terms themselves: it stands at the earliest
/// term whose placement repeats the kind of a term before it.
pub proof fn lemma_first_repeat_is_earliest(history: History)
    ensures
        first_repeat(history) is None <==> forall|j: int| !repeats_at(history, j),
        first_repeat(history) matches Some(h) ==> exists|j: int|
            repeats_at(history, j) && history[j] == Some(h) && forall|k: int|
                0 <= k < j ==> !repeats_at(history, k),
    decreases history.len(),
{
    if history.len() > 0 {
        let earlier = history.drop_last();
        let n = history.len() - 1;
        lemma_first_repeat_is_earliest(earlier);
        assert forall|j: int| 0 <= j < n implies (repeats_at(earlier, j) <==> repeats_at(
            history,
            j,
        )) by {
            if repeats_at(earlier, j) {
                let i = choose|i: int| 0 <= i < j && earlier[i] == earlier[j];
                assert(history[i] == history[j]);
            }
            if repeats_at(history, j) {
                let i = choose|i: int| 0 <= i < j && history[i] == history[j];
                assert(earlier[i] == earlier[j]);
            }
        }
        match first_repeat(earlier) {
            Some(h) => {
                let j = choose|j: int|
                    repeats_at(earlier, j) && earlier[j] == Some(h) && forall|k: int|
                        0 <= k < j ==> !repeats_at(earlier, k);
                assert(repeats_at(history, j));
                assert(history[j] == Some(h));
                assert forall|k: int| 0 <= k < j implies !repeats_at(history, k) by {
                    assert(!repeats_at(earlier, k));
                }
            },
            None => {
                assert forall|k: int| 0 <= k < n implies !repeats_at(history, k) by {
                    assert(!repeats_at(earlier, k));
                }
                match history.last() {
                    Some(h) => {
                        lemma_tally_positive(earlier, h);
                        if tally(earlier, h) > 0 {
                            let i = choose|i: int| 0 <= i < earlier.len() && earlier[i] == Some(h);
                            assert(history[i] == history[n]);
                            assert(repeats_at(history, n));
                        } else {
                            if repeats_at(history, n) {
                                let i = choose|i: int| 0 <= i < n && history[i] == history[n];
                                assert(earlier[i] == Some(h));
                            }
                        }
                    },
                    None => {},
                }
            },
        }
    }
}

/// Only the kinds of which a course asks for two can be held twice, so a
/// consistent history whose course is known keeps that course whatever is
/// placed next within the remaining need; and a history without a course
/// stays consistent under any placement.
pub proof fn lemma_assign_consistent(history: History, term: int, h: HospitalType)
    requires
        consistent(history),
        0 <= term < history.len(),
        history[term] is None,
        remaining_need(history).spec_count(h) > 0,
    ensures
        consistent(history.update(term, Some(h))),
        inferred_course(history) is Some ==> inferred_course(history.update(term, Some(h)))
            == inferred_course(history),
{
    let after = history.update(term, Some(h));
    lemma_repeat_tally(history);
    lemma_repeat_tally(after);
    assert forall|x: HospitalType| tally(after, x) == tally(history, x) + if x == h {
        1nat
    } else {
        0nat
    } by {
        lemma_assign_tally(history, term, h, x);
    }
    match first_repeat(history) {
        Some(r) => {
            let course = r.spec_course();
            assert(tally(history, r) <= course.quota().spec_count(r));
            assert(tally(history, h) <= course.quota().spec_count(h));
            assert(tally(after, r) >= 2);
            assert(first_repeat(after) is Some);
            let r2 = first_repeat(after)->Some_0;
            assert(tally(after, r2) >= 2);
            assert(tally(history, r2) <= course.quota().spec_count(r2));
            assert(r2.spec_course() == course);
        },
        None => {
            assert(tally(history, HospitalType::InnerMedical) <= 1);
            assert(tally(history, HospitalType::InnerSurgical) <= 1);
            assert(tally(history, HospitalType::OuterMedical) <= 1);
            assert(tally(history, HospitalType::OuterSurgical) <= 1);
            match first_repeat(after) {
                Some(r2) => {
                    assert(tally(after, r2) >= 2);
                    assert(r2 == h);
                },
                None => {},
            }
        },
    }
}

/// A student who has filled all six terms consistently holds exactly what the
/// inferred course asks for, kind by kind.
pub proof fn lemma_done_meets_quota(history: History)
    requires
        history.len() == 6,
        vacant(history) == 0,
        consistent(history),
    ensures
        meets_quota(history),
{
    lemma_tally_sum(history);
    lemma_repeat_tally(history);
    if first_repeat(history) is None {
        assert(tally(history, HospitalType::InnerMedical) <= 1);
        assert(tally(history, HospitalType::InnerSurgical) <= 1);
        assert(tally(history, HospitalType::OuterMedical) <= 1);
        assert(tally(history, HospitalType::OuterSurgical) <= 1);
        assert(false);
    }
    let course = inferred_course(history)->Some_0;
    assert(tally(history, HospitalType::InnerMedical) <= course.quota().spec_count(
        HospitalType::InnerMedical,
    ));
    assert(tally(history, HospitalType::InnerSurgical) <= course.quota().spec_count(
        HospitalType::InnerSurgical,
    ));
    assert(tally(history, HospitalType::OuterMedical) <= course.quota().spec_count(
        HospitalType::OuterMedical,
    ));
    assert(tally(history, HospitalType::OuterSurgical) <= course.quota().spec_count(
        HospitalType::OuterSurgical,
    ));
}

} // verus!
