//! The issue data model: one work-tracking record, its components, and the
//! "flagged" custom field with its defensive decoding result.

use vstd::prelude::*;

verus! {

/// One entry of the flag custom field's array value.
#[derive(Debug, PartialEq, Eq)]
pub struct Flagged {
    pub disabled: bool,
    pub id: String,
    pub self_link: String,
    pub value: String,
}

/// Spec-level image of a [`Flagged`] entry.
#[verifier::ext_equal]
pub struct FlaggedView {
    pub disabled: bool,
    pub id: Seq<char>,
    pub self_link: Seq<char>,
    pub value: Seq<char>,
}

impl View for Flagged {
    type V = FlaggedView;

    open spec fn view(&self) -> FlaggedView {
        FlaggedView {
            disabled: self.disabled,
            id: self.id@,
            self_link: self.self_link@,
            value: self.value@,
        }
    }
}

impl DeepView for Flagged {
    type V = FlaggedView;

    open spec fn deep_view(&self) -> FlaggedView {
        self.view()
    }
}

impl Clone for Flagged {
    fn clone(&self) -> (res: Self)
        ensures
            res@ == self@,
    {
        Flagged {
            disabled: self.disabled,
            id: self.id.clone(),
            self_link: self.self_link.clone(),
            value: self.value.clone(),
        }
    }
}

/// The decoded value of the flag custom field on one issue: the field may be
/// missing from the record, may hold a well-shaped array of entries, or may
/// hold a value of any other shape, which is kept as an explicit fallback
/// case rather than failing the run.
#[derive(Debug, PartialEq, Eq)]
pub enum FlagField {
    Absent,
    Entries(Vec<Flagged>),
    Malformed,
}

/// Spec-level image of a [`FlagField`].
#[verifier::ext_equal]
pub enum FlagFieldView {
    Absent,
    Entries(Seq<FlaggedView>),
    Malformed,
}

impl View for FlagField {
    type V = FlagFieldView;

    open spec fn view(&self) -> FlagFieldView {
        match self {
            FlagField::Absent => FlagFieldView::Absent,
            FlagField::Entries(es) => FlagFieldView::Entries(es.deep_view()),
            FlagField::Malformed => FlagFieldView::Malformed,
        }
    }
}

impl DeepView for FlagField {
    type V = FlagFieldView;

    open spec fn deep_view(&self) -> FlagFieldView {
        self.view()
    }
}

impl Clone for FlagField {
    fn clone(&self) -> (res: Self)
        ensures
            res@ == self@,
    {
        match self {
            FlagField::Absent => FlagField::Absent,
            FlagField::Entries(es) => {
                let mut out: Vec<Flagged> = Vec::new();
                let mut i: usize = 0;
                while i < es.len()
                    invariant
                        i <= es.len(),
                        out@.len() == i,
                        forall|j: int| 0 <= j < i ==> out.deep_view()[j] == es.deep_view()[j],
                    decreases es.len() - i,
                {
                    let x = es[i].clone();
                    proof {
                        assert(x.deep_view() == es.deep_view()[i as int]);
                    }
                    out.push(x);
                    i = i + 1;
                }
                proof {
                    assert(out.deep_view() =~~= es.deep_view());
                }
                FlagField::Entries(out)
            },
            FlagField::Malformed => FlagField::Malformed,
        }
    }
}

/// One work-tracking record, reduced to the fields the reporting logic reads.
#[derive(Debug, PartialEq, Eq)]
pub struct IssueRecord {
    pub key: String,
    pub summary: Option<String>,
    pub status_name: Option<String>,
    pub issue_type_name: String,
    pub components: Vec<String>,
    pub flag_field: FlagField,
}

/// Spec-level image of an [`IssueRecord`].
#[verifier::ext_equal]
pub struct IssueView {
    pub key: Seq<char>,
    pub summary: Option<Seq<char>>,
    pub status_name: Option<Seq<char>>,
    pub issue_type_name: Seq<char>,
    pub components: Seq<Seq<char>>,
    pub flag_field: FlagFieldView,
}

impl View for IssueRecord {
    type V = IssueView;

    open spec fn view(&self) -> IssueView {
        IssueView {
            key: self.key@,
            summary: self.summary.deep_view(),
            status_name: self.status_name.deep_view(),
            issue_type_name: self.issue_type_name@,
            components: self.components.deep_view(),
            flag_field: self.flag_field@,
        }
    }
}

impl DeepView for IssueRecord {
    type V = IssueView;

    open spec fn deep_view(&self) -> IssueView {
        self.view()
    }
}

impl Clone for IssueRecord {
    fn clone(&self) -> (res: Self)
        ensures
            res@ == self@,
    {
        let res = IssueRecord {
            key: self.key.clone(),
            summary: clone_opt_string(&self.summary),
            status_name: clone_opt_string(&self.status_name),
            issue_type_name: self.issue_type_name.clone(),
            components: clone_strings(&self.components),
            flag_field: self.flag_field.clone(),
        };
        proof {
            assert(res@ =~~= self@);
        }
        res
    }
}

/// Clones an optional string, field for field.
pub fn clone_opt_string(s: &Option<String>) -> (res: Option<String>)
    ensures
        res.deep_view() == s.deep_view(),
{
    match s {
        Some(x) => Some(x.clone()),
        None => None,
    }
}

/// Clones a vector of strings, element for element.
pub fn clone_strings(v: &Vec<String>) -> (res: Vec<String>)
    ensures
        res.deep_view() == v.deep_view(),
{
    let mut out: Vec<String> = Vec::new();
    let mut i: usize = 0;
    while i < v.len()
        invariant
            i <= v.len(),
            out@.len() == i,
            forall|j: int| 0 <= j < i ==> out.deep_view()[j] == v.deep_view()[j],
        decreases v.len() - i,
    {
        let x = v[i].clone();
        proof {
            assert(x.deep_view() == v.deep_view()[i as int]);
        }
        out.push(x);
        i = i + 1;
    }
    proof {
        assert(out.deep_view() =~~= v.deep_view());
    }
    out
}

/// Whether the decoded flag field marks the issue as an impediment: true
/// exactly when the field decoded to an array with at least one entry whose
/// value is the impediment literal; a missing or malformed field never flags.
pub open spec fn spec_any_impediment(es: Seq<FlaggedView>) -> bool {
    exists|i: int| 0 <= i < es.len() && (#[trigger] es[i]).value == "Impediment"@
}

pub open spec fn spec_flagged(f: FlagFieldView) -> bool {
    match f {
        FlagFieldView::Entries(es) => spec_any_impediment(es),
        _ => false,
    }
}

/// Decides the derived "flagged" attribute of an issue from its decoded flag
/// custom field.
pub fn is_flagged(f: &FlagField) -> (r: bool)
    ensures
        r == spec_flagged(f@),
{
    match f {
        FlagField::Entries(es) => {
            let needle: String = String::from_str("Impediment");
            let mut i: usize = 0;
            while i < es.len()
                invariant
                    i <= es.len(),
                    needle@ == "Impediment"@,
                    f@ == FlagFieldView::Entries(es.deep_view()),
                    forall|j: int| 0 <= j < i ==> es.deep_view()[j].value != "Impediment"@,
                decreases es.len() - i,
            {
                if es[i].value == needle {
                    proof {
                        let j = i as int;
                        let dv = es.deep_view();
                        assert(dv.len() == es@.len());
                        assert(0 <= j < dv.len() && dv[j].value == "Impediment"@);
                        assert(spec_any_impediment(dv));
                        assert(spec_flagged(f@));
                    }
                    return true;
                }
                i = i + 1;
            }
            false
        },
        _ => false,
    }
}

} // verus!
