//! A table of vacancies as a sequence of terms, and the order in which its
//! vacancies are laid out for a weighted draw.

use crate::history::{remaining_need, History};
use crate::hospital::HospitalType;
use crate::vacants::{nothing, TermVacants};
use vstd::prelude::*;

verus! {

/// The vacancies of every term, in term order.
pub type Terms = Seq<TermVacants>;

/// The number of vacancies in all terms together.
pub open spec fn total(terms: Terms) -> nat
    decreases terms.len(),
{
    if terms.len() == 0 {
        0
    } else {
        total(terms.drop_last()) + terms.last().spec_len()
    }
}

/// Whether candidate number `i` is a vacancy of kind `h` in term `term`.
/// The candidates are numbered from zero, term after term, and within a term
/// kind after kind in declaration order, one number for every vacancy.
pub open spec fn holds(terms: Terms, term: int, h: HospitalType, i: int) -> bool {
    &&& 0 <= term < terms.len()
    &&& total(terms.take(term)) + terms[term].before(h) <= i
    &&& i < total(terms.take(term)) + terms[term].before(h) + terms[term].spec_count(h)
}

/// Whether `a` has, term by term and kind by kind, no more than `b`.
pub open spec fn within(a: Terms, b: Terms) -> bool {
    &&& a.len() == b.len()
    &&& forall|t: int| 0 <= t < a.len() ==> (#[trigger] a[t]).within(b[t])
}

/// What the table offers to the holder of a history: in every open term the
/// vacancies that the remaining need still admits, and nothing in the others.
pub open spec fn offered(terms: Terms, history: History) -> Terms {
    Seq::new(
        terms.len(),
        |t: int|
            if 0 <= t < history.len() && history[t] is None {
                terms[t].spec_intersect(remaining_need(history))
            } else {
                nothing()
            },
    )
}

/// The table after one vacancy of kind `h` in term `term` is taken.
pub open spec fn taken(terms: Terms, term: int, h: HospitalType) -> Terms
    recommends
        0 <= term < terms.len(),
        terms[term].spec_count(h) > 0,
{
    terms.update(term, terms[term].less_one(h))
}

/// The table after the placements of a history are taken from it, each from
/// its own term.
pub open spec fn reserved(terms: Terms, history: History) -> Terms {
    Seq::new(
        terms.len(),
        |t: int|
            if 0 <= t < history.len() && history[t] is Some {
                terms[t].less_one(history[t]->Some_0)
            } else {
                terms[t]
            },
    )
}

/// Whether the table holds a vacancy for every placement of the history.
pub open spec fn covers(terms: Terms, history: History) -> bool {
    forall|t: int|
        0 <= t < history.len() && t < terms.len() && history[t] is Some ==> (
        #[trigger] terms[t]).spec_count(history[t]->Some_0) > 0
}

/// The vacancies of the first terms are part of the vacancies of all.
pub proof fn lemma_total_prefix(terms: Terms, i: int, j: int)
    requires
        0 <= i <= j <= terms.len(),
    ensures
        total(terms.take(i)) <= total(terms.take(j)),
        total(terms.take(j)) <= total(terms),
{
    lemma_total_grows(terms, i, j);
    lemma_total_grows(terms, j, terms.len() as int);
    assert(terms.take(terms.len() as int) =~= terms);
}

proof fn lemma_total_grows(terms: Terms, i: int, j: int)
    requires
        0 <= i <= j <= terms.len(),
    ensures
        total(terms.take(i)) <= total(terms.take(j)),
    decreases j - i,
{
    if i < j {
        assert(terms.take(j).drop_last() =~= terms.take(j - 1));
        lemma_total_grows(terms, i, j - 1);
    }
}

/// Taking one more term into a prefix adds that term's vacancies.
pub proof fn lemma_total_step(terms: Terms, i: int)
    requires
        0 <= i < terms.len(),
    ensures
        total(terms.take(i + 1)) == total(terms.take(i)) + terms[i].spec_len(),
        total(terms.take(i + 1)) <= total(terms),
{
    assert(terms.take(i + 1).drop_last() =~= terms.take(i));
    lemma_total_prefix(terms, i, i + 1);
}

/// A candidate number that belongs to a vacancy is below the total, and the
/// vacancy's kind has a positive count in its term.
pub proof fn lemma_holds_bound(terms: Terms, term: int, h: HospitalType, i: int)
    requires
        holds(terms, term, h, i),
    ensures
        0 <= i < total(terms),
        terms[term].spec_count(h) > 0,
{
    lemma_total_step(terms, term);
}

/// A vacancy that is offered to the holder of a history is a vacancy of the
/// table, in a term that the holder has open and of a kind that the holder
/// still needs: no draw among the offered can take from an empty count.
pub proof fn lemma_offered_is_vacant(
    terms: Terms,
    history: History,
    term: int,
    h: HospitalType,
    i: int,
)
    requires
        holds(offered(terms, history), term, h, i),
    ensures
        0 <= term < terms.len(),
        0 <= term < history.len(),
        history[term] is None,
        terms[term].spec_count(h) > 0,
        remaining_need(history).spec_count(h) > 0,
{
    lemma_holds_bound(offered(terms, history), term, h, i);
}

/// No candidate number belongs to two vacancies.
proof fn lemma_holds_unique(
    terms: Terms,
    term1: int,
    h1: HospitalType,
    term2: int,
    h2: HospitalType,
    i: int,
)
    requires
        holds(terms, term1, h1, i),
        holds(terms, term2, h2, i),
    ensures
        term1 == term2,
        h1 == h2,
{
    lemma_total_step(terms, term1);
    lemma_total_step(terms, term2);
    if term1 < term2 {
        lemma_total_prefix(terms, term1 + 1, term2);
    }
    if term2 < term1 {
        lemma_total_prefix(terms, term2 + 1, term1);
    }
}

/// Every candidate number below the total belongs to a vacancy.
proof fn lemma_holds_exists(terms: Terms, i: int)
    requires
        0 <= i < total(terms),
    ensures
        exists|term: int, h: HospitalType| holds(terms, term, h, i),
    decreases terms.len(),
{
    let n = terms.len() - 1;
    let earlier = terms.drop_last();
    assert(terms.take(n) =~= earlier);
    if i < total(earlier) {
        lemma_holds_exists(earlier, i);
        let (term, h) = choose|term: int, h: HospitalType| holds(earlier, term, h, i);
        assert(earlier.take(term) =~= terms.take(term));
        assert(holds(terms, term, h, i));
    } else {
        let row = terms[n];
        let rest = i - total(earlier);
        let h = if rest < row.before(HospitalType::InnerSurgical) {
            HospitalType::InnerMedical
        } else if rest < row.before(HospitalType::OuterSurgical) {
            HospitalType::InnerSurgical
        } else if rest < row.before(HospitalType::OuterMedical) {
            HospitalType::OuterSurgical
        } else {
            HospitalType::OuterMedical
        };
        assert(holds(terms, n, h, i));
    }
}

/// The candidate numbers below the total are shared out among the vacancies:
/// each belongs to exactly one term and kind, and a term and kind has as many
/// numbers as it has vacancies, so a draw of a number is a draw of a vacancy.
pub proof fn lemma_layout_partitions(terms: Terms, i: int)
    requires
        0 <= i < total(terms),
    ensures
        exists|term: int, h: HospitalType|
            holds(terms, term, h, i) && forall|other: int, k: HospitalType|
                holds(terms, other, k, i) ==> other == term && k == h,
{
    lemma_holds_exists(terms, i);
    let (term, h) = choose|term: int, h: HospitalType| holds(terms, term, h, i);
    assert forall|other: int, k: HospitalType| holds(terms, other, k, i) implies other == term
        && k == h by {
        lemma_holds_unique(terms, term, h, other, k, i);
    }
}

/// A table within another holds no more vacancies in total.
pub proof fn lemma_total_within(a: Terms, b: Terms)
    requires
        within(a, b),
    ensures
        total(a) <= total(b),
    decreases a.len(),
{
    if a.len() > 0 {
        let n = a.len() - 1;
        assert(a[n].within(b[n]));
        assert(a[n].spec_count(HospitalType::InnerMedical) <= b[n].spec_count(
            HospitalType::InnerMedical,
        ));
        assert(a[n].spec_count(HospitalType::InnerSurgical) <= b[n].spec_count(
            HospitalType::InnerSurgical,
        ));
        assert(a[n].spec_count(HospitalType::OuterMedical) <= b[n].spec_count(
            HospitalType::OuterMedical,
        ));
        assert(a[n].spec_count(HospitalType::OuterSurgical) <= b[n].spec_count(
            HospitalType::OuterSurgical,
        ));
        assert forall|t: int| 0 <= t < n implies (#[trigger] a.drop_last()[t]).within(
            b.drop_last()[t],
        ) by {
            assert(a[t].within(b[t]));
        }
        lemma_total_within(a.drop_last(), b.drop_last());
    }
}

/// A table holds no vacancy exactly when none of its terms does.
pub proof fn lemma_total_zero(terms: Terms)
    ensures
        total(terms) == 0 <==> forall|t: int|
            0 <= t < terms.len() ==> (#[trigger] terms[t]).spec_len() == 0,
    decreases terms.len(),
{
    if terms.len() > 0 {
        let earlier = terms.drop_last();
        lemma_total_zero(earlier);
        if total(terms) == 0 {
            assert forall|t: int| 0 <= t < terms.len() implies (#[trigger] terms[t]).spec_len()
                == 0 by {
                if t < terms.len() - 1 {
                    assert(earlier[t].spec_len() == 0);
                }
            }
        }
        if forall|t: int| 0 <= t < terms.len() ==> (#[trigger] terms[t]).spec_len() == 0 {
            assert forall|t: int| 0 <= t < earlier.len() implies (#[trigger] earlier[t]).spec_len()
                == 0 by {
                assert(terms[t].spec_len() == 0);
            }
            assert(terms[terms.len() - 1].spec_len() == 0);
        }
    }
}

/// Replacing one term changes the total by the difference in that term.
pub proof fn lemma_total_update(terms: Terms, term: int, row: TermVacants)
    requires
        0 <= term < terms.len(),
    ensures
        total(terms.update(term, row)) + terms[term].spec_len() == total(terms) + row.spec_len(),
    decreases terms.len(),
{
    let after = terms.update(term, row);
    if term == terms.len() - 1 {
        assert(after.drop_last() =~= terms.drop_last());
    } else {
        assert(after.drop_last() =~= terms.drop_last().update(term, row));
        lemma_total_update(terms.drop_last(), term, row);
    }
}

/// Taking a vacancy lowers the total by one and leaves a table within the old.
pub proof fn lemma_taken(terms: Terms, term: int, h: HospitalType)
    requires
        0 <= term < terms.len(),
        terms[term].spec_count(h) > 0,
    ensures
        total(taken(terms, term, h)) + 1 == total(terms),
        within(taken(terms, term, h), terms),
{
    lemma_total_update(terms, term, terms[term].less_one(h));
    let after = taken(terms, term, h);
    assert forall|t: int| 0 <= t < after.len() implies (#[trigger] after[t]).within(terms[t]) by {}
}

/// What is offered never exceeds what the table holds.
pub proof fn lemma_offered_within(terms: Terms, history: History)
    ensures
        within(offered(terms, history), terms),
        total(offered(terms, history)) <= total(terms),
{
    let offer = offered(terms, history);
    assert forall|t: int| 0 <= t < offer.len() implies (#[trigger] offer[t]).within(terms[t]) by {}
    lemma_total_within(offer, terms);
}

/// A smaller table offers the holder of a history no more than a larger one.
pub proof fn lemma_offered_shrinks(larger: Terms, smaller: Terms, history: History)
    requires
        within(smaller, larger),
    ensures
        within(offered(smaller, history), offered(larger, history)),
        total(offered(smaller, history)) <= total(offered(larger, history)),
{
    let a = offered(smaller, history);
    let b = offered(larger, history);
    assert forall|t: int| 0 <= t < a.len() implies (#[trigger] a[t]).within(b[t]) by {
        assert(smaller[t].within(larger[t]));
        assert(smaller[t].spec_count(HospitalType::InnerMedical) <= larger[t].spec_count(
            HospitalType::InnerMedical,
        ));
        assert(smaller[t].spec_count(HospitalType::InnerSurgical) <= larger[t].spec_count(
            HospitalType::InnerSurgical,
        ));
        assert(smaller[t].spec_count(HospitalType::OuterMedical) <= larger[t].spec_count(
            HospitalType::OuterMedical,
        ));
        assert(smaller[t].spec_count(HospitalType::OuterSurgical) <= larger[t].spec_count(
            HospitalType::OuterSurgical,
        ));
    }
    lemma_total_within(a, b);
}

/// Every table is within itself.
pub proof fn lemma_within_self(terms: Terms)
    ensures
        within(terms, terms),
{
    assert forall|t: int| 0 <= t < terms.len() implies (#[trigger] terms[t]).within(terms[t]) by {}
}

/// Being within is passed on: what is within a table that is within a third
/// is within the third.
pub proof fn lemma_within_chain(a: Terms, b: Terms, c: Terms)
    requires
        within(a, b),
        within(b, c),
    ensures
        within(a, c),
{
    assert forall|t: int| 0 <= t < a.len() implies (#[trigger] a[t]).within(c[t]) by {
        assert(a[t].within(b[t]));
        assert(b[t].within(c[t]));
        assert forall|h: HospitalType| a[t].spec_count(h) <= c[t].spec_count(h) by {
            assert(a[t].spec_count(h) <= b[t].spec_count(h));
            assert(b[t].spec_count(h) <= c[t].spec_count(h));
        }
    }
}

} // verus!
