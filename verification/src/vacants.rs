//! Counts per kind of hospital: the vacancies of one term, or what a student
//! still has to take.

use crate::hospital::{Course, HospitalType};
use vstd::prelude::*;
use vstd::std_specs::convert::FromSpecImpl;

verus! {

/// One count for each kind of hospital.
#[derive(Clone, Copy, Debug, PartialEq, Eq, Structural)]
pub struct TermVacants {
    pub inner_medical: usize,
    pub inner_surgical: usize,
    pub outer_medical: usize,
    pub outer_surgical: usize,
}

/// The counts that hold nothing.
pub open spec fn nothing() -> TermVacants {
    TermVacants { inner_medical: 0, inner_surgical: 0, outer_medical: 0, outer_surgical: 0 }
}

/// The largest count for every kind.
pub open spec fn everything() -> TermVacants {
    TermVacants {
        inner_medical: usize::MAX,
        inner_surgical: usize::MAX,
        outer_medical: usize::MAX,
        outer_surgical: usize::MAX,
    }
}

impl Course {
    /// How many placements of each kind the course asks for.
    pub open spec fn quota(self) -> TermVacants {
        match self {
            Course::Eschaton => TermVacants {
                inner_medical: 1,
                inner_surgical: 2,
                outer_medical: 2,
                outer_surgical: 1,
            },
            Course::Avoidance => TermVacants {
                inner_medical: 2,
                inner_surgical: 1,
                outer_medical: 1,
                outer_surgical: 2,
            },
        }
    }
}

impl TermVacants {
    /// The count held for one kind.
    pub open spec fn spec_count(self, h: HospitalType) -> nat {
        match h {
            HospitalType::InnerMedical => self.inner_medical as nat,
            HospitalType::InnerSurgical => self.inner_surgical as nat,
            HospitalType::OuterMedical => self.outer_medical as nat,
            HospitalType::OuterSurgical => self.outer_surgical as nat,
        }
    }

    /// The sum of the four counts.
    pub open spec fn spec_len(self) -> nat {
        (self.inner_medical + self.inner_surgical + self.outer_medical
            + self.outer_surgical) as nat
    }

    /// How many candidates of a term stand before those of kind `h`, when the
    /// kinds are laid out in declaration order.
    pub open spec fn before(self, h: HospitalType) -> nat {
        match h {
            HospitalType::InnerMedical => 0,
            HospitalType::InnerSurgical => self.inner_medical as nat,
            HospitalType::OuterSurgical => (self.inner_medical + self.inner_surgical) as nat,
            HospitalType::OuterMedical => (self.inner_medical + self.inner_surgical
                + self.outer_surgical) as nat,
        }
    }

    /// The counts with one taken from kind `h`.
    pub open spec fn less_one(self, h: HospitalType) -> TermVacants
        recommends
            self.spec_count(h) > 0,
    {
        match h {
            HospitalType::InnerMedical => TermVacants {
                inner_medical: (self.inner_medical - 1) as usize,
                ..self
            },
            HospitalType::InnerSurgical => TermVacants {
                inner_surgical: (self.inner_surgical - 1) as usize,
                ..self
            },
            HospitalType::OuterMedical => TermVacants {
                outer_medical: (self.outer_medical - 1) as usize,
                ..self
            },
            HospitalType::OuterSurgical => TermVacants {
                outer_surgical: (self.outer_surgical - 1) as usize,
                ..self
            },
        }
    }

    /// The smaller of the two counts, kind by kind.
    pub open spec fn spec_intersect(self, rhs: TermVacants) -> TermVacants {
        TermVacants {
            inner_medical: if self.inner_medical <= rhs.inner_medical {
                self.inner_medical
            } else {
                rhs.inner_medical
            },
            inner_surgical: if self.inner_surgical <= rhs.inner_surgical {
                self.inner_surgical
            } else {
                rhs.inner_surgical
            },
            outer_medical: if self.outer_medical <= rhs.outer_medical {
                self.outer_medical
            } else {
                rhs.outer_medical
            },
            outer_surgical: if self.outer_surgical <= rhs.outer_surgical {
                self.outer_surgical
            } else {
                rhs.outer_surgical
            },
        }
    }

    /// Whether the two counts can be added kind by kind within `usize`.
    pub open spec fn addable(self, rhs: TermVacants) -> bool {
        forall|h: HospitalType| self.spec_count(h) + rhs.spec_count(h) <= usize::MAX
    }

    /// The sum of the two counts, kind by kind.
    pub open spec fn plus(self, rhs: TermVacants) -> TermVacants
        recommends
            self.addable(rhs),
    {
        TermVacants {
            inner_medical: (self.inner_medical + rhs.inner_medical) as usize,
            inner_surgical: (self.inner_surgical + rhs.inner_surgical) as usize,
            outer_medical: (self.outer_medical + rhs.outer_medical) as usize,
            outer_surgical: (self.outer_surgical + rhs.outer_surgical) as usize,
        }
    }

    /// Whether no count of `self` exceeds the matching count of `rhs`.
    pub open spec fn within(self, rhs: TermVacants) -> bool {
        forall|h: HospitalType| self.spec_count(h) <= rhs.spec_count(h)
    }

    /// The sum of the four counts.
    pub fn len(&self) -> (total: usize)
        requires
            self.spec_len() <= usize::MAX,
        ensures
            total == self.spec_len(),
    {
        self.inner_medical + self.inner_surgical + self.outer_medical + self.outer_surgical
    }

    /// Whether every count is zero.
    pub fn is_empty(&self) -> (empty: bool)
        ensures
            empty == (self.spec_len() == 0),
            empty == (forall|h: HospitalType| self.spec_count(h) == 0),
    {
        proof {
            if self.spec_len() != 0 {
                assert(self.spec_count(HospitalType::InnerMedical) != 0 || self.spec_count(
                    HospitalType::InnerSurgical,
                ) != 0 || self.spec_count(HospitalType::OuterMedical) != 0 || self.spec_count(
                    HospitalType::OuterSurgical,
                ) != 0);
            }
        }
        self.inner_medical == 0 && self.inner_surgical == 0 && self.outer_medical == 0
            && self.outer_surgical == 0
    }

    /// Counts from the four numbers; the outer surgical count comes third.
    pub fn new(
        inner_medical: usize,
        inner_surgical: usize,
        outer_surgical: usize,
        outer_medical: usize,
    ) -> (counts: TermVacants)
        ensures
            counts == (TermVacants {
                inner_medical,
                inner_surgical,
                outer_medical,
                outer_surgical,
            }),
    {
        TermVacants { inner_medical, inner_surgical, outer_medical, outer_surgical }
    }

    /// Nothing of any kind.
    pub fn zero() -> (counts: TermVacants)
        ensures
            counts == nothing(),
    {
        TermVacants::new(0, 0, 0, 0)
    }

    /// The largest count for every kind: a need that rules nothing out.
    pub fn infinite() -> (counts: TermVacants)
        ensures
            counts == everything(),
    {
        TermVacants::new(usize::MAX, usize::MAX, usize::MAX, usize::MAX)
    }

    /// The count held for one kind.
    pub fn count(&self, h: HospitalType) -> (n: usize)
        ensures
            n == self.spec_count(h),
    {
        match h {
            HospitalType::InnerMedical => self.inner_medical,
            HospitalType::InnerSurgical => self.inner_surgical,
            HospitalType::OuterMedical => self.outer_medical,
            HospitalType::OuterSurgical => self.outer_surgical,
        }
    }

    /// Takes one from the count of kind `h`, which must hold one.
    pub fn decrement(&mut self, h: HospitalType)
        requires
            old(self).spec_count(h) > 0,
        ensures
            *final(self) == old(self).less_one(h),
            final(self).spec_count(h) + 1 == old(self).spec_count(h),
            forall|other: HospitalType|
                other != h ==> final(self).spec_count(other) == old(self).spec_count(other),
            final(self).within(*old(self)),
    {
        match h {
            HospitalType::InnerMedical => self.inner_medical -= 1,
            HospitalType::InnerSurgical => self.inner_surgical -= 1,
            HospitalType::OuterMedical => self.outer_medical -= 1,
            HospitalType::OuterSurgical => self.outer_surgical -= 1,
        }
    }

    /// The smaller of the two counts, kind by kind.
    pub fn intersect(self, rhs: &TermVacants) -> (counts: TermVacants)
        ensures
            counts == self.spec_intersect(*rhs),
    {
        TermVacants {
            inner_medical: if self.inner_medical <= rhs.inner_medical {
                self.inner_medical
            } else {
                rhs.inner_medical
            },
            inner_surgical: if self.inner_surgical <= rhs.inner_surgical {
                self.inner_surgical
            } else {
                rhs.inner_surgical
            },
            outer_medical: if self.outer_medical <= rhs.outer_medical {
                self.outer_medical
            } else {
                rhs.outer_medical
            },
            outer_surgical: if self.outer_surgical <= rhs.outer_surgical {
                self.outer_surgical
            } else {
                rhs.outer_surgical
            },
        }
    }

    /// Adds the counts of `rhs`, kind by kind.
    pub fn add(&mut self, rhs: &TermVacants)
        requires
            old(self).addable(*rhs),
        ensures
            *final(self) == old(self).plus(*rhs),
    {
        proof {
            assert(self.spec_count(HospitalType::InnerMedical) + rhs.spec_count(
                HospitalType::InnerMedical,
            ) <= usize::MAX);
            assert(self.spec_count(HospitalType::InnerSurgical) + rhs.spec_count(
                HospitalType::InnerSurgical,
            ) <= usize::MAX);
            assert(self.spec_count(HospitalType::OuterMedical) + rhs.spec_count(
                HospitalType::OuterMedical,
            ) <= usize::MAX);
            assert(self.spec_count(HospitalType::OuterSurgical) + rhs.spec_count(
                HospitalType::OuterSurgical,
            ) <= usize::MAX);
        }
        self.inner_medical += rhs.inner_medical;
        self.inner_surgical += rhs.inner_surgical;
        self.outer_medical += rhs.outer_medical;
        self.outer_surgical += rhs.outer_surgical;
    }
}

impl From<&Course> for TermVacants {
    fn from(value: &Course) -> (counts: TermVacants) {
        match value {
            Course::Eschaton => TermVacants {
                inner_medical: 1,
                inner_surgical: 2,
                outer_medical: 2,
                outer_surgical: 1,
            },
            Course::Avoidance => TermVacants {
                inner_medical: 2,
                inner_surgical: 1,
                outer_medical: 1,
                outer_surgical: 2,
            },
        }
    }
}

impl FromSpecImpl<&Course> for TermVacants {
    open spec fn obeys_from_spec() -> bool {
        true
    }

    open spec fn from_spec(value: &Course) -> TermVacants {
        value.quota()
    }
}

} // verus!
