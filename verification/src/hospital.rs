//! The kinds of hospital and the two courses built from them.

use vstd::prelude::*;
use vstd::utf8::{encode_utf8, encode_utf8_decode_utf8};

verus! {

/// The four kinds of placement.  The declaration order is the order in which
/// the candidates of one term are laid out for a weighted draw.
#[derive(Clone, Copy, Debug, PartialEq, Eq, Hash, Structural)]
pub enum HospitalType {
    InnerMedical,
    InnerSurgical,
    OuterSurgical,
    OuterMedical,
}

/// The quota pattern a student ends up with.
#[derive(Clone, Copy, Debug, PartialEq, Eq, Structural)]
pub enum Course {
    /// One inner medical, two inner surgical, two outer medical, one outer surgical.
    Eschaton,
    /// Two inner medical, one inner surgical, one outer medical, two outer surgical.
    Avoidance,
}

/// The message that comes with a label that names no kind of hospital.
pub open spec fn unknown_label() -> Seq<char> {
    "Could not parse the &str as HospitalType"@
}

/// Whether `parsed` is what reading `text` as a label should give: the kind
/// whose label the text is, and the message where it is the label of none.
pub open spec fn reads(parsed: Result<HospitalType, &'static str>, text: Seq<char>) -> bool {
    &&& parsed == Ok::<HospitalType, &str>(HospitalType::InnerMedical) <==> text
        == HospitalType::InnerMedical.label()
    &&& parsed == Ok::<HospitalType, &str>(HospitalType::InnerSurgical) <==> text
        == HospitalType::InnerSurgical.label()
    &&& parsed == Ok::<HospitalType, &str>(HospitalType::OuterMedical) <==> text
        == HospitalType::OuterMedical.label()
    &&& parsed == Ok::<HospitalType, &str>(HospitalType::OuterSurgical) <==> text
        == HospitalType::OuterSurgical.label()
    &&& parsed is Err <==> text != HospitalType::InnerMedical.label() && text
        != HospitalType::InnerSurgical.label() && text != HospitalType::OuterMedical.label()
        && text != HospitalType::OuterSurgical.label()
    &&& parsed matches Err(message) ==> message@ == unknown_label()
}

/// Whether a character is white space to `str::trim`, that is, whether it has
/// the Unicode property White_Space.
pub uninterp spec fn white_space(c: char) -> bool;

/// The text without the white space at its two ends.
pub open spec fn trimmed(text: Seq<char>) -> Seq<char>
    decreases text.len(),
{
    if text.len() == 0 {
        text
    } else if white_space(text.first()) {
        trimmed(text.drop_first())
    } else if white_space(text.last()) {
        trimmed(text.drop_last())
    } else {
        text
    }
}

/// `str::trim`: the slice that is left when the white space at the start and
/// at the end of the text is removed, so that what is left neither starts nor
/// ends with white space.  Which characters are white space is left to the
/// name `white_space`.
#[verifier::external_body]
fn trim(text: &str) -> (inner: &str)
    ensures
        inner@ == trimmed(text@),
        inner@.len() > 0 ==> !white_space(inner@.first()) && !white_space(inner@.last()),
{
    text.trim()
}

/// Whether two strings hold the same characters.
pub fn same_text(a: &str, b: &str) -> (same: bool)
    ensures
        same == (a@ == b@),
{
    let x = a.as_bytes();
    let y = b.as_bytes();
    if x.len() != y.len() {
        return false;
    }
    let mut i: usize = 0;
    while i < x.len()
        invariant
            x@.len() == y@.len(),
            i <= x@.len(),
            forall|k: int| 0 <= k < i ==> x@[k] == y@[k],
            x@ == encode_utf8(a@),
            y@ == encode_utf8(b@),
        decreases x@.len() - i,
    {
        if x[i] != y[i] {
            return false;
        }
        i += 1;
    }
    proof {
        assert(x@ =~= y@);
        encode_utf8_decode_utf8(a@);
        encode_utf8_decode_utf8(b@);
    }
    true
}

impl HospitalType {
    /// The label under which a kind of hospital appears in a student record.
    pub open spec fn label(self) -> Seq<char> {
        match self {
            HospitalType::InnerMedical => "院内内科"@,
            HospitalType::InnerSurgical => "院内外科"@,
            HospitalType::OuterMedical => "院外内科"@,
            HospitalType::OuterSurgical => "院外外科"@,
        }
    }

    /// The pictograph that stands for a kind of hospital in a report.
    pub open spec fn glyph(self) -> Seq<char> {
        match self {
            HospitalType::InnerMedical => "🏠💊"@,
            HospitalType::InnerSurgical => "🏠🔪"@,
            HospitalType::OuterMedical => "🚙💊"@,
            HospitalType::OuterSurgical => "🚙🔪"@,
        }
    }

    /// The course that a student is on once this kind is the first to repeat.
    pub open spec fn spec_course(self) -> Course {
        match self {
            HospitalType::InnerMedical => Course::Avoidance,
            HospitalType::InnerSurgical => Course::Eschaton,
            HospitalType::OuterMedical => Course::Eschaton,
            HospitalType::OuterSurgical => Course::Avoidance,
        }
    }

    /// Reads a label that carries no surrounding white space: the kind whose
    /// label the text is, or the message that it is nobody's.
    pub fn from_label(text: &str) -> (parsed: Result<HospitalType, &'static str>)
        ensures
            reads(parsed, text@),
    {
        proof {
            lemma_labels_distinct(HospitalType::InnerMedical, HospitalType::InnerSurgical);
            lemma_labels_distinct(HospitalType::InnerMedical, HospitalType::OuterMedical);
            lemma_labels_distinct(HospitalType::InnerMedical, HospitalType::OuterSurgical);
            lemma_labels_distinct(HospitalType::InnerSurgical, HospitalType::OuterMedical);
            lemma_labels_distinct(HospitalType::InnerSurgical, HospitalType::OuterSurgical);
            lemma_labels_distinct(HospitalType::OuterMedical, HospitalType::OuterSurgical);
        }
        if same_text(text, "院内内科") {
            Ok(HospitalType::InnerMedical)
        } else if same_text(text, "院内外科") {
            Ok(HospitalType::InnerSurgical)
        } else if same_text(text, "院外内科") {
            Ok(HospitalType::OuterMedical)
        } else if same_text(text, "院外外科") {
            Ok(HospitalType::OuterSurgical)
        } else {
            Err("Could not parse the &str as HospitalType")
        }
    }

    /// Reads a label, white space around it set aside.
    pub fn from_str(text: &str) -> (parsed: Result<HospitalType, &'static str>)
        ensures
            reads(parsed, trimmed(text@)),
    {
        HospitalType::from_label(trim(text))
    }

    /// The course decided by a repetition of this kind.
    pub fn course(self) -> (course: Course)
        ensures
            course == self.spec_course(),
    {
        match self {
            HospitalType::InnerMedical => Course::Avoidance,
            HospitalType::InnerSurgical => Course::Eschaton,
            HospitalType::OuterMedical => Course::Eschaton,
            HospitalType::OuterSurgical => Course::Avoidance,
        }
    }

    /// The pictograph of this kind, as text for a report.
    pub fn to_string(&self) -> (text: String)
        ensures
            text@ == self.glyph(),
    {
        match self {
            HospitalType::InnerMedical => "🏠💊".to_owned(),
            HospitalType::InnerSurgical => "🏠🔪".to_owned(),
            HospitalType::OuterMedical => "🚙💊".to_owned(),
            HospitalType::OuterSurgical => "🚙🔪".to_owned(),
        }
    }
}

/// What is left of a text after trimming neither starts nor ends with white space.
pub proof fn lemma_trimmed_ends(text: Seq<char>)
    ensures
        trimmed(text).len() > 0 ==> !white_space(trimmed(text).first()) && !white_space(
            trimmed(text).last(),
        ),
    decreases text.len(),
{
    if text.len() == 0 {
    } else if white_space(text.first()) {
        lemma_trimmed_ends(text.drop_first());
    } else if white_space(text.last()) {
        lemma_trimmed_ends(text.drop_last());
    }
}

/// No two kinds of hospital share a label, so a label names at most one kind.
pub proof fn lemma_labels_distinct(a: HospitalType, b: HospitalType)
    ensures
        a.label() == b.label() ==> a == b,
{
    reveal_strlit("院内内科");
    reveal_strlit("院内外科");
    reveal_strlit("院外内科");
    reveal_strlit("院外外科");
    let la = a.label();
    let lb = b.label();
    if la == lb {
        assert(la[1] == lb[1]);
        assert(la[2] == lb[2]);
    }
}

} // verus!
