//! A Monte-Carlo estimator for a lottery of hospital placements.
//!
//! Every student must fill six terms, one placement per term, out of a shared
//! table of vacancies that depletes as placements are handed out.  The quota a
//! student has to meet is not given up front: it follows from the first kind of
//! hospital that the student holds twice.  One trial hands out placements by
//! capacity-weighted random draws until every student is either finished or can
//! no longer be served; many trials are merged into running statistics.

pub mod cadence;
pub mod chance;
pub mod history;
pub mod hospital;
pub mod layout;
pub mod report;
pub mod roster;
pub mod state;
pub mod student;
pub mod table;
pub mod trial;
pub mod vacants;

pub use hospital::{Course, HospitalType};
pub use student::{InitStudentOption, Student};
pub use table::{HospitalTable, HospitalTableInner};
pub use vacants::TermVacants;
