//! What a report needs worked out before it is laid out: the rows of its two
//! tables, cell by cell, the order in which the students are ranked, and a
//! name filled up to the width of its column.

use crate::hospital::HospitalType;
use crate::layout::Terms;
use crate::student::{Student, StudentView};
use crate::table::HospitalTable;
use unicode_width::UnicodeWidthStr;
use vstd::prelude::*;
use vstd::string::StringExecFns;

verus! {

/// The number of columns that the name of a student is given in a report.
pub const NAME_COLUMNS: usize = 20;

/// The number of terminal columns a text takes up, as the `unicode_width`
/// crate counts them.
pub uninterp spec fn display_width(text: Seq<char>) -> nat;

/// `unicode_width::UnicodeWidthStr::width`: the displayed width of a text in
/// columns.  The contract only names that width.
#[verifier::external_body]
fn width(text: &str) -> (columns: usize)
    ensures
        columns == display_width(text@),
{
    UnicodeWidthStr::width(text)
}

/// The text followed by `count` spaces.
pub open spec fn padded(text: Seq<char>, count: nat) -> Seq<char> {
    text + Seq::new(count, |i: int| ' ')
}

/// Whether entry `a` comes before entry `b` in the ranking: the one with more
/// failures first, and of two with the same number the one entered first.
pub open spec fn ranks_before(entries: Seq<(String, usize)>, a: int, b: int) -> bool {
    entries[a].1 > entries[b].1 || (entries[a].1 == entries[b].1 && a < b)
}

/// Whether `order` lists the positions of the entries in the order of the
/// ranking.  There is one such list for every list of entries.
pub open spec fn ranked(entries: Seq<(String, usize)>, order: Seq<usize>) -> bool {
    &&& order.len() == entries.len()
    &&& forall|p: int| 0 <= p < order.len() ==> (#[trigger] order[p]) < entries.len()
    &&& forall|p: int, q: int|
        0 <= p < q < order.len() ==> ranks_before(
            entries,
            (#[trigger] order[p]) as int,
            (#[trigger] order[q]) as int,
        )
}

/// The character that stands for a digit.
pub open spec fn digit(d: nat) -> char {
    if d == 0 {
        '0'
    } else if d == 1 {
        '1'
    } else if d == 2 {
        '2'
    } else if d == 3 {
        '3'
    } else if d == 4 {
        '4'
    } else if d == 5 {
        '5'
    } else if d == 6 {
        '6'
    } else if d == 7 {
        '7'
    } else if d == 8 {
        '8'
    } else {
        '9'
    }
}

/// A number written in decimal, without leading zeros.
pub open spec fn decimal_of(n: nat) -> Seq<char>
    decreases n,
{
    if n < 10 {
        seq![digit(n)]
    } else {
        decimal_of(n / 10).push(digit(n % 10))
    }
}

/// The first row of the table of vacancies: its title and the six terms.
pub open spec fn headline() -> Seq<Seq<char>> {
    seq!["LAST REPORT"@, "①"@, "②"@, "③"@, "④"@, "⑤"@, "⑥"@]
}

/// The row of one kind of hospital: its label and its vacancies, term by term.
pub open spec fn count_cells(terms: Terms, h: HospitalType) -> Seq<Seq<char>> {
    seq![h.label()] + Seq::new(terms.len(), |t: int| decimal_of(terms[t].spec_count(h)))
}

/// What stands for an open term in the row of a student.
pub open spec fn blank() -> Seq<char> {
    "    "@
}

/// The row of a student: the name filled up to its column, and for every term
/// the pictograph of the placement or a blank.
pub open spec fn student_cells(student: StudentView) -> Seq<Seq<char>> {
    seq![padded(student.name, (NAME_COLUMNS - display_width(student.name)) as nat)] + Seq::new(
        student.selection.len(),
        |t: int|
            match student.selection[t] {
                Some(h) => h.glyph(),
                None => blank(),
            },
    )
}

/// The rows of the table of vacancies: the headline, one row for every kind
/// of hospital, and the row of a student where one is shown.
pub open spec fn inventory_cells(terms: Terms, student: Option<StudentView>) -> Seq<
    Seq<Seq<char>>,
> {
    let rows = seq![
        headline(),
        count_cells(terms, HospitalType::InnerMedical),
        count_cells(terms, HospitalType::InnerSurgical),
        count_cells(terms, HospitalType::OuterMedical),
        count_cells(terms, HospitalType::OuterSurgical),
    ];
    match student {
        Some(shown) => rows.push(student_cells(shown)),
        None => rows,
    }
}

/// The rows of the ranking: for every rank, counted from one, the rank, the
/// name, the number of failures and the rate of the entry that holds it.
pub open spec fn ranking_cells(
    entries: Seq<(String, usize)>,
    rates: Seq<Seq<char>>,
    order: Seq<usize>,
) -> Seq<Seq<Seq<char>>> {
    Seq::new(
        order.len(),
        |p: int|
            seq![
                decimal_of((p + 1) as nat),
                entries[order[p] as int].0@,
                decimal_of(entries[order[p] as int].1 as nat),
                rates[order[p] as int],
            ],
    )
}

/// A number written in decimal.
pub fn decimal(n: usize) -> (text: String)
    ensures
        text@ == decimal_of(n as nat),
    decreases n,
{
    let mut text = if n < 10 {
        String::new()
    } else {
        decimal(n / 10)
    };
    let last = n % 10;
    let glyph = if last == 0 {
        "0"
    } else if last == 1 {
        "1"
    } else if last == 2 {
        "2"
    } else if last == 3 {
        "3"
    } else if last == 4 {
        "4"
    } else if last == 5 {
        "5"
    } else if last == 6 {
        "6"
    } else if last == 7 {
        "7"
    } else if last == 8 {
        "8"
    } else {
        "9"
    };
    proof {
        reveal_strlit("0");
        reveal_strlit("1");
        reveal_strlit("2");
        reveal_strlit("3");
        reveal_strlit("4");
        reveal_strlit("5");
        reveal_strlit("6");
        reveal_strlit("7");
        reveal_strlit("8");
        reveal_strlit("9");
        assert(glyph@ =~= seq![digit(last as nat)]);
    }
    text.append(glyph);
    proof {
        assert(text@ =~= decimal_of(n as nat));
    }
    text
}

/// Fills a text that takes up `width` columns with spaces up to `columns`.
pub fn pad_to(text: &str, width: usize, columns: usize) -> (cell: String)
    requires
        width <= columns,
    ensures
        cell@ == padded(text@, (columns - width) as nat),
{
    let mut cell = String::new();
    cell.append(text);
    let mut filled: usize = width;
    proof {
        assert(cell@ =~= padded(text@, 0));
    }
    while filled < columns
        invariant
            width <= filled <= columns,
            cell@ == padded(text@, (filled - width) as nat),
        decreases columns - filled,
    {
        proof {
            reveal_strlit(" ");
        }
        cell.append(" ");
        proof {
            assert(cell@ =~= padded(text@, (filled + 1 - width) as nat));
        }
        filled += 1;
    }
    cell
}

/// The name of a student as it stands in a report: filled with spaces up to
/// the width of the name column.  There is no such cell for a name that is
/// wider than the column.
pub fn name_cell(name: &str) -> (cell: Option<String>)
    ensures
        match cell {
            Some(text) => display_width(name@) <= NAME_COLUMNS && text@ == padded(
                name@,
                (NAME_COLUMNS - display_width(name@)) as nat,
            ),
            None => display_width(name@) > NAME_COLUMNS,
        },
{
    let columns = width(name);
    if columns <= NAME_COLUMNS {
        Some(pad_to(name, columns, NAME_COLUMNS))
    } else {
        None
    }
}

/// The positions of the entries in the order of the ranking: most failures
/// first, and entries with the same number in the order in which they stand.
pub fn ranking(entries: &Vec<(String, usize)>) -> (order: Vec<usize>)
    ensures
        ranked(entries@, order@),
{
    let mut order: Vec<usize> = Vec::new();
    let mut k: usize = 0;
    while k < entries.len()
        invariant
            k <= entries@.len(),
            order@.len() == k,
            forall|p: int| 0 <= p < order@.len() ==> (#[trigger] order@[p]) < k,
            forall|p: int, q: int|
                0 <= p < q < order@.len() ==> ranks_before(
                    entries@,
                    (#[trigger] order@[p]) as int,
                    (#[trigger] order@[q]) as int,
                ),
        decreases entries@.len() - k,
    {
        let failures = entries[k].1;
        let mut at: usize = 0;
        while at < order.len() && entries[order[at]].1 >= failures
            invariant
                at <= order@.len(),
                order@.len() == k,
                k < entries@.len(),
                failures == entries@[k as int].1,
                forall|p: int| 0 <= p < order@.len() ==> (#[trigger] order@[p]) < k,
                forall|p: int|
                    0 <= p < at ==> entries@[(#[trigger] order@[p]) as int].1 >= failures,
            decreases order@.len() - at,
        {
            at += 1;
        }
        let ghost before = order@;
        order.insert(at, k);
        proof {
            assert forall|p: int, q: int| 0 <= p < q < order@.len() implies ranks_before(
                entries@,
                (#[trigger] order@[p]) as int,
                (#[trigger] order@[q]) as int,
            ) by {
                if q < at {
                    assert(order@[p] == before[p] && order@[q] == before[q]);
                } else if q == at {
                    assert(order@[p] == before[p]);
                } else if p < at {
                    assert(order@[p] == before[p] && order@[q] == before[q - 1]);
                } else if p == at {
                    assert(order@[q] == before[q - 1]);
                    if at < q - 1 {
                        assert(ranks_before(
                            entries@,
                            before[at as int] as int,
                            before[q - 1] as int,
                        ));
                    }
                } else {
                    assert(order@[p] == before[p - 1] && order@[q] == before[q - 1]);
                }
            }
            assert forall|p: int| 0 <= p < order@.len() implies (#[trigger] order@[p]) < k + 1 by {
                if p < at {
                    assert(order@[p] == before[p]);
                } else if p > at {
                    assert(order@[p] == before[p - 1]);
                }
            }
        }
        k += 1;
    }
    order
}

/// The row of one kind of hospital in the table of vacancies.
fn count_row(table: &HospitalTable, h: HospitalType) -> (row: Vec<String>)
    ensures
        row.deep_view() == count_cells(table@, h),
{
    let label = match h {
        HospitalType::InnerMedical => "院内内科",
        HospitalType::InnerSurgical => "院内外科",
        HospitalType::OuterMedical => "院外内科",
        HospitalType::OuterSurgical => "院外外科",
    };
    let mut row: Vec<String> = Vec::new();
    row.push(label.to_owned());
    let mut term: usize = 0;
    proof {
        table.lemma_six_terms();
    }
    while term < 6
        invariant
            term <= 6,
            table@.len() == 6,
            row@.len() == term + 1,
            row@[0]@ == h.label(),
            forall|t: int|
                0 <= t < term ==> (#[trigger] row@[t + 1])@ == decimal_of(
                    table@[t].spec_count(h),
                ),
        decreases 6 - term,
    {
        row.push(decimal(table.remaining(term).count(h)));
        term += 1;
    }
    proof {
        let cells = count_cells(table@, h);
        assert(cells.len() == 7);
        assert forall|i: int| 0 <= i < 7 implies row.deep_view()[i] == cells[i] by {
            if i > 0 {
                assert(row@[(i - 1) + 1]@ == decimal_of(table@[i - 1].spec_count(h)));
            }
        }
        assert(row.deep_view() =~~= cells);
    }
    row
}

/// The row of a student in the table of vacancies, given the cell that holds
/// the name.
fn student_row(student: &Student, name: String) -> (row: Vec<String>)
    requires
        name@ == padded(student@.name, (NAME_COLUMNS - display_width(student@.name)) as nat),
    ensures
        row.deep_view() == student_cells(student@),
{
    let selection = student.get_selection();
    let mut row: Vec<String> = Vec::new();
    row.push(name);
    let mut term: usize = 0;
    while term < 6
        invariant
            term <= 6,
            selection@ == student@.selection,
            selection@.len() == 6,
            row@.len() == term + 1,
            row@[0]@ == padded(
                student@.name,
                (NAME_COLUMNS - display_width(student@.name)) as nat,
            ),
            forall|t: int|
                0 <= t < term ==> (#[trigger] row@[t + 1])@ == match selection@[t] {
                    Some(h) => h.glyph(),
                    None => blank(),
                },
        decreases 6 - term,
    {
        let cell = match selection[term] {
            Some(hospital) => hospital.to_string(),
            None => "    ".to_owned(),
        };
        row.push(cell);
        term += 1;
    }
    proof {
        let cells = student_cells(student@);
        assert(cells.len() == 7);
        assert forall|i: int| 0 <= i < 7 implies row.deep_view()[i] == cells[i] by {
            if i > 0 {
                assert(row@[(i - 1) + 1]@ == match selection@[i - 1] {
                    Some(h) => h.glyph(),
                    None => blank(),
                });
            }
        }
        assert(row.deep_view() =~~= cells);
    }
    row
}

/// The rows of the table of vacancies, with the row of a student where one is
/// given.  There are none where the student's name is wider than its column.
pub fn inventory_rows(table: &HospitalTable, student: Option<&Student>) -> (rows: Option<
    Vec<Vec<String>>,
>)
    ensures
        match student {
            Some(shown) => match rows {
                Some(list) => display_width(shown@.name) <= NAME_COLUMNS && list.deep_view()
                    == inventory_cells(table@, Some(shown@)),
                None => display_width(shown@.name) > NAME_COLUMNS,
            },
            None => rows is Some && rows->Some_0.deep_view() == inventory_cells(table@, None),
        },
{
    let mut head: Vec<String> = Vec::new();
    head.push("LAST REPORT".to_owned());
    head.push("①".to_owned());
    head.push("②".to_owned());
    head.push("③".to_owned());
    head.push("④".to_owned());
    head.push("⑤".to_owned());
    head.push("⑥".to_owned());
    proof {
        assert(head.deep_view() =~~= headline());
    }
    let mut rows: Vec<Vec<String>> = Vec::new();
    rows.push(head);
    rows.push(count_row(table, HospitalType::InnerMedical));
    rows.push(count_row(table, HospitalType::InnerSurgical));
    rows.push(count_row(table, HospitalType::OuterMedical));
    rows.push(count_row(table, HospitalType::OuterSurgical));
    proof {
        assert(rows.deep_view() =~~= inventory_cells(table@, None));
    }
    match student {
        Some(shown) => match name_cell(shown.get_name()) {
            Some(name) => {
                rows.push(student_row(shown, name));
                proof {
                    assert(rows.deep_view() =~~= inventory_cells(table@, Some(shown@)));
                }
                Some(rows)
            },
            None => None,
        },
        None => Some(rows),
    }
}

/// The rows of the ranking, given for every entry its rate as it is to be
/// shown.
pub fn ranking_rows(entries: &Vec<(String, usize)>, rates: &Vec<String>) -> (rows: Vec<
    Vec<String>,
>)
    requires
        rates@.len() == entries@.len(),
    ensures
        exists|order: Seq<usize>|
            ranked(entries@, order) && rows.deep_view() == ranking_cells(
                entries@,
                rates.deep_view(),
                order,
            ),
{
    let order = ranking(entries);
    let mut rows: Vec<Vec<String>> = Vec::new();
    let mut p: usize = 0;
    while p < order.len()
        invariant
            p <= order@.len(),
            ranked(entries@, order@),
            rates@.len() == entries@.len(),
            rows@.len() == p,
            forall|k: int|
                0 <= k < p ==> (#[trigger] rows@[k]).deep_view() == ranking_cells(
                    entries@,
                    rates.deep_view(),
                    order@,
                )[k],
        decreases order@.len() - p,
    {
        let at = order[p];
        let mut row: Vec<String> = Vec::new();
        row.push(decimal(p + 1));
        row.push(entries[at].0.clone());
        row.push(decimal(entries[at].1));
        row.push(rates[at].clone());
        proof {
            assert(row.deep_view() =~~= ranking_cells(entries@, rates.deep_view(), order@)[
                p as int
            ]);
        }
        rows.push(row);
        p += 1;
    }
    proof {
        assert(rows.deep_view() =~~= ranking_cells(entries@, rates.deep_view(), order@));
    }
    rows
}

} // verus!
