//! Lists of students: what they add up to, and what stays the same when a
//! list is put into another order.

use crate::history::vacant;
use crate::hospital::HospitalType;
use crate::student::Student;
use vstd::multiset::Multiset;
use vstd::prelude::*;
use vstd::seq_lib::group_to_multiset_ensures;

verus! {

/// The number of open terms of all students in the list together.
pub open spec fn open_terms(students: Seq<Student>) -> nat
    decreases students.len(),
{
    if students.len() == 0 {
        0
    } else {
        open_terms(students.drop_last()) + vacant(students.last()@.selection)
    }
}

/// The names of the students in the list, each as often as it occurs.
pub open spec fn names(students: Seq<Student>) -> Multiset<Seq<char>>
    decreases students.len(),
{
    if students.len() == 0 {
        Multiset::empty()
    } else {
        names(students.drop_last()).insert(students.last()@.name)
    }
}

/// One if the student holds a placement of kind `h` in term `term`, else zero.
pub open spec fn settled_in(student: Student, term: int, h: HospitalType) -> nat {
    if 0 <= term < student@.selection.len() && student@.selection[term] == Some(h) {
        1
    } else {
        0
    }
}

/// How many students of the list hold a placement of kind `h` in term `term`.
pub open spec fn settled(students: Seq<Student>, term: int, h: HospitalType) -> nat
    decreases students.len(),
{
    if students.len() == 0 {
        0
    } else {
        settled(students.drop_last(), term, h) + settled_in(students.last(), term, h)
    }
}

/// Adding a student to the end of a list adds the student's placement.
pub proof fn lemma_settled_push(
    students: Seq<Student>,
    student: Student,
    term: int,
    h: HospitalType,
)
    ensures
        settled(students.push(student), term, h) == settled(students, term, h) + settled_in(
            student,
            term,
            h,
        ),
{
    assert(students.push(student).drop_last() =~= students);
}

/// Taking one more student into a prefix of a list adds that student's
/// placement.
pub proof fn lemma_settled_step(students: Seq<Student>, i: int, term: int, h: HospitalType)
    requires
        0 <= i < students.len(),
    ensures
        settled(students.take(i + 1), term, h) == settled(students.take(i), term, h) + settled_in(
            students[i],
            term,
            h,
        ),
{
    assert(students.take(i + 1).drop_last() =~= students.take(i));
}

/// Taking a student out of a list takes the student's placement out.
pub proof fn lemma_settled_remove(students: Seq<Student>, k: int, term: int, h: HospitalType)
    requires
        0 <= k < students.len(),
    ensures
        settled(students, term, h) == settled(students.remove(k), term, h) + settled_in(
            students[k],
            term,
            h,
        ),
    decreases students.len(),
{
    if k == students.len() - 1 {
        assert(students.remove(k) =~= students.drop_last());
    } else {
        assert(students.remove(k).drop_last() =~= students.drop_last().remove(k));
        lemma_settled_remove(students.drop_last(), k, term, h);
    }
}

/// Two lists that hold the same students, in whatever order, hold the same
/// placements.
pub proof fn lemma_settled_permuted(
    a: Seq<Student>,
    b: Seq<Student>,
    term: int,
    h: HospitalType,
)
    requires
        a.to_multiset() == b.to_multiset(),
    ensures
        settled(a, term, h) == settled(b, term, h),
    decreases a.len(),
{
    broadcast use group_to_multiset_ensures;

    if a.len() == 0 {
        assert(b.to_multiset().len() == 0);
        assert(b.len() == 0);
    } else {
        let x = a.last();
        let rest = a.drop_last();
        assert(a =~= rest.push(x));
        assert(a.to_multiset() =~= rest.to_multiset().insert(x));
        assert(b.to_multiset().count(x) > 0);
        assert(b.contains(x));
        let k = choose|k: int| 0 <= k < b.len() && b[k] == x;
        assert(b.remove(k).to_multiset() =~= b.to_multiset().remove(x));
        assert(rest.to_multiset() =~= b.remove(k).to_multiset());
        lemma_settled_permuted(rest, b.remove(k), term, h);
        lemma_settled_remove(b, k, term, h);
    }
}

/// A list followed by another holds the placements and the names of both.
pub proof fn lemma_roster_joined(a: Seq<Student>, b: Seq<Student>, term: int, h: HospitalType)
    ensures
        settled(a + b, term, h) == settled(a, term, h) + settled(b, term, h),
        names(a + b) == names(a).add(names(b)),
    decreases b.len(),
{
    if b.len() == 0 {
        assert(a + b =~= a);
        assert(names(a).add(names(b)) =~= names(a));
    } else {
        assert((a + b).drop_last() =~= a + b.drop_last());
        lemma_roster_joined(a, b.drop_last(), term, h);
        assert(names(a).add(names(b.drop_last())).insert(b.last()@.name) =~= names(a).add(
            names(b.drop_last()).insert(b.last()@.name),
        ));
    }
}

/// Adding a student to the end of a list adds the student's open terms and name.
pub proof fn lemma_roster_push(students: Seq<Student>, student: Student)
    ensures
        open_terms(students.push(student)) == open_terms(students) + vacant(student@.selection),
        names(students.push(student)) == names(students).insert(student@.name),
{
    assert(students.push(student).drop_last() =~= students);
}

/// Taking one more student into a prefix of a list adds that student's open
/// terms and name.
pub proof fn lemma_roster_step(students: Seq<Student>, i: int)
    requires
        0 <= i < students.len(),
    ensures
        open_terms(students.take(i + 1)) == open_terms(students.take(i)) + vacant(
            students[i]@.selection,
        ),
        names(students.take(i + 1)) == names(students.take(i)).insert(students[i]@.name),
{
    assert(students.take(i + 1).drop_last() =~= students.take(i));
}

/// Taking a student out of a list takes the student's open terms and name out.
pub proof fn lemma_roster_remove(students: Seq<Student>, k: int)
    requires
        0 <= k < students.len(),
    ensures
        open_terms(students) == open_terms(students.remove(k)) + vacant(students[k]@.selection),
        names(students) == names(students.remove(k)).insert(students[k]@.name),
    decreases students.len(),
{
    if k == students.len() - 1 {
        assert(students.remove(k) =~= students.drop_last());
    } else {
        assert(students.remove(k).drop_last() =~= students.drop_last().remove(k));
        lemma_roster_remove(students.drop_last(), k);
        assert(names(students.drop_last().remove(k)).insert(students[k]@.name).insert(
            students.last()@.name,
        ) =~= names(students.drop_last().remove(k)).insert(students.last()@.name).insert(
            students[k]@.name,
        ));
    }
}

/// Two lists that hold the same students, in whatever order, have the same
/// length, the same number of open terms and the same names.
pub proof fn lemma_roster_permuted(a: Seq<Student>, b: Seq<Student>)
    requires
        a.to_multiset() == b.to_multiset(),
    ensures
        a.len() == b.len(),
        open_terms(a) == open_terms(b),
        names(a) == names(b),
    decreases a.len(),
{
    broadcast use group_to_multiset_ensures;

    if a.len() == 0 {
        assert(b.to_multiset().len() == 0);
        assert(b.len() == 0);
    } else {
        let x = a.last();
        let rest = a.drop_last();
        assert(a =~= rest.push(x));
        assert(a.to_multiset() =~= rest.to_multiset().insert(x));
        assert(b.to_multiset().count(x) > 0);
        assert(b.contains(x));
        let k = choose|k: int| 0 <= k < b.len() && b[k] == x;
        assert(b.remove(k).to_multiset() =~= b.to_multiset().remove(x));
        assert(rest.to_multiset() =~= b.remove(k).to_multiset());
        lemma_roster_permuted(rest, b.remove(k));
        lemma_roster_remove(b, k);
    }
}

/// Three heaps of names that together hold what two others hold still do so
/// when one name is added to one heap on either side.
pub proof fn lemma_names_moved(
    a: Multiset<Seq<char>>,
    b: Multiset<Seq<char>>,
    c: Multiset<Seq<char>>,
    d: Multiset<Seq<char>>,
    e: Multiset<Seq<char>>,
    name: Seq<char>,
)
    requires
        a.add(b).add(c) == d.add(e),
    ensures
        a.insert(name).add(b).add(c) == d.insert(name).add(e),
        a.add(b.insert(name)).add(c) == d.insert(name).add(e),
        a.add(b).add(c.insert(name)) == d.insert(name).add(e),
{
    assert forall|v: Seq<char>|
        a.insert(name).add(b).add(c).count(v) == d.insert(name).add(e).count(v) && a.add(
            b.insert(name),
        ).add(c).count(v) == d.insert(name).add(e).count(v) && a.add(b).add(
            c.insert(name),
        ).count(v) == d.insert(name).add(e).count(v) by {
        assert(a.add(b).add(c).count(v) == d.add(e).count(v));
        assert(a.add(b).add(c).count(v) == a.count(v) + b.count(v) + c.count(v));
        assert(d.add(e).count(v) == d.count(v) + e.count(v));
        let extra: nat = if v == name {
            1
        } else {
            0
        };
        assert(a.insert(name).count(v) == a.count(v) + extra);
        assert(b.insert(name).count(v) == b.count(v) + extra);
        assert(c.insert(name).count(v) == c.count(v) + extra);
        assert(d.insert(name).count(v) == d.count(v) + extra);
    }
    assert(a.insert(name).add(b).add(c) =~= d.insert(name).add(e));
    assert(a.add(b.insert(name)).add(c) =~= d.insert(name).add(e));
    assert(a.add(b).add(c.insert(name)) =~= d.insert(name).add(e));
}

/// What three heaps of names hold when one of them is handed on: if `kept`,
/// `open` and `stuck` hold all names, and the open ones are shared out anew
/// among `next`, `stuck_after` and `gone` together with the stuck, then
/// `kept` with `gone`, `next` and `stuck_after` hold all names.
pub proof fn lemma_names_handed_on(
    all: Multiset<Seq<char>>,
    kept: Multiset<Seq<char>>,
    open: Multiset<Seq<char>>,
    stuck: Multiset<Seq<char>>,
    next: Multiset<Seq<char>>,
    stuck_after: Multiset<Seq<char>>,
    gone: Multiset<Seq<char>>,
)
    requires
        kept.add(open).add(stuck) == all,
        next.add(stuck_after).add(gone) == open.add(stuck),
    ensures
        kept.add(gone).add(next).add(stuck_after) == all,
{
    assert forall|v: Seq<char>| kept.add(gone).add(next).add(stuck_after).count(v) == all.count(
        v,
    ) by {
        assert(kept.add(open).add(stuck).count(v) == kept.count(v) + open.count(v) + stuck.count(
            v,
        ));
        assert(next.add(stuck_after).add(gone).count(v) == next.count(v) + stuck_after.count(v)
            + gone.count(v));
        assert(open.add(stuck).count(v) == open.count(v) + stuck.count(v));
        assert(kept.add(gone).add(next).add(stuck_after).count(v) == kept.count(v) + gone.count(v)
            + next.count(v) + stuck_after.count(v));
    }
    assert(kept.add(gone).add(next).add(stuck_after) =~= all);
}

/// Two lists that hold the same students hold each other's members.
pub proof fn lemma_permuted_members(a: Seq<Student>, b: Seq<Student>)
    requires
        a.to_multiset() == b.to_multiset(),
    ensures
        forall|i: int| 0 <= i < a.len() ==> b.contains(#[trigger] a[i]),
{
    broadcast use group_to_multiset_ensures;

    assert forall|i: int| 0 <= i < a.len() implies b.contains(#[trigger] a[i]) by {
        assert(a.contains(a[i]));
        assert(a.to_multiset().count(a[i]) > 0);
        assert(b.to_multiset().count(a[i]) > 0);
    }
}

/// A list has as many names as students, and a prefix of it no name more
/// often than the whole.
pub proof fn lemma_names_prefix(students: Seq<Student>, i: int, name: Seq<char>)
    requires
        0 <= i <= students.len(),
    ensures
        names(students).len() == students.len(),
        names(students.take(i)).count(name) <= names(students).count(name),
    decreases students.len(),
{
    if students.len() > 0 {
        let rest = students.drop_last();
        if i <= rest.len() {
            lemma_names_prefix(rest, i, name);
            assert(rest.take(i) =~= students.take(i));
        } else {
            lemma_names_prefix(rest, rest.len() as int, name);
            assert(students.take(i) =~= students);
        }
    } else {
        assert(students.take(i) =~= students);
    }
}

/// A name that the list holds is the name of one of its students.
pub proof fn lemma_names_member(students: Seq<Student>, name: Seq<char>)
    requires
        names(students).count(name) > 0,
    ensures
        exists|k: int| 0 <= k < students.len() && (#[trigger] students[k])@.name == name,
    decreases students.len(),
{
    if students.len() > 0 {
        let rest = students.drop_last();
        if students.last()@.name == name {
            assert(students[students.len() - 1]@.name == name);
        } else {
            lemma_names_member(rest, name);
            let k = choose|k: int| 0 <= k < rest.len() && (#[trigger] rest[k])@.name == name;
            assert(students[k]@.name == name);
        }
    }
}

} // verus!
