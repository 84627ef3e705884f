//! Report assembly: one display row per issue of a bucket, with the flag
//! marker prepended to the status name, and the joined status-group label for
//! the bucket header.  Drawing the table is left to the console renderer.

use vstd::prelude::*;
use crate::issues::{IssueRecord, IssueView, FlagField, spec_flagged, is_flagged};

verus! {

/// The marker prepended to a flagged issue's status: the flag glyph and a
/// space; unflagged issues get no marker.
pub open spec fn spec_flag_marker(flagged: bool) -> Seq<char> {
    if flagged {
        "\u{1F6A9} "@
    } else {
        Seq::empty()
    }
}

/// Renders the flag marker for a decoded flag field.
pub fn flag_marker(f: &FlagField) -> (r: String)
    ensures
        r@ == spec_flag_marker(spec_flagged(f@)),
{
    if is_flagged(f) {
        String::from_str("\u{1F6A9} ")
    } else {
        String::new()
    }
}

/// The status names of a group joined with `/`, as shown in a bucket header.
pub open spec fn spec_join_slash(parts: Seq<Seq<char>>) -> Seq<char>
    decreases parts.len(),
{
    if parts.len() == 0 {
        Seq::empty()
    } else if parts.len() == 1 {
        parts[0]
    } else {
        spec_join_slash(parts.drop_last()) + "/"@ + parts.last()
    }
}

/// Joins the status names of a group with `/` for the bucket header.
pub fn join_statuses(statuses: &Vec<String>) -> (r: String)
    ensures
        r@ == spec_join_slash(statuses.deep_view()),
{
    let mut out = String::new();
    let mut i: usize = 0;
    while i < statuses.len()
        invariant
            i <= statuses.len(),
            out@ == spec_join_slash(statuses.deep_view().take(i as int)),
        decreases statuses.len() - i,
    {
        if i > 0 {
            out.append("/");
        }
        out.append(statuses[i].as_str());
        i = i + 1;
        proof {
            let dv = statuses.deep_view();
            assert(dv.take(i as int).drop_last() =~= dv.take(i - 1));
            assert(dv.take(i as int).last() == dv[i - 1]);
        }
    }
    proof {
        assert(statuses.deep_view().take(statuses@.len() as int) =~= statuses.deep_view());
    }
    out
}

/// One display row: the flag marker joined with the status name, the issue
/// key, the summary (or `-` when absent) and the issue type name.
#[derive(Debug, PartialEq, Eq)]
pub struct Row {
    pub leading: String,
    pub key: String,
    pub summary: String,
    pub issue_type: String,
}

/// Spec-level image of a [`Row`].
#[verifier::ext_equal]
pub struct RowView {
    pub leading: Seq<char>,
    pub key: Seq<char>,
    pub summary: Seq<char>,
    pub issue_type: Seq<char>,
}

impl View for Row {
    type V = RowView;

    open spec fn view(&self) -> RowView {
        RowView {
            leading: self.leading@,
            key: self.key@,
            summary: self.summary@,
            issue_type: self.issue_type@,
        }
    }
}

impl DeepView for Row {
    type V = RowView;

    open spec fn deep_view(&self) -> RowView {
        self.view()
    }
}

/// The display row owed to an issue that carries a status.
pub open spec fn spec_row(iv: IssueView) -> RowView
    recommends
        iv.status_name is Some,
{
    RowView {
        leading: spec_flag_marker(spec_flagged(iv.flag_field)) + iv.status_name->0,
        key: iv.key,
        summary: match iv.summary {
            Some(s) => s,
            None => "-"@,
        },
        issue_type: iv.issue_type_name,
    }
}

/// Turns one bucket into its ordered sequence of display rows.  Every record
/// reaching report assembly must carry a status; a record without one is a
/// data-integrity violation upstream and is ruled out here.
pub fn assemble_rows(bucket: &Vec<IssueRecord>) -> (rows: Vec<Row>)
    requires
        forall|i: int| 0 <= i < bucket@.len() ==> (#[trigger] bucket.deep_view()[i]).status_name
            is Some,
    ensures
        rows@.len() == bucket@.len(),
        forall|i: int| 0 <= i < bucket@.len() ==> #[trigger] rows.deep_view()[i] == spec_row(
            bucket.deep_view()[i],
        ),
{
    let mut rows: Vec<Row> = Vec::new();
    let mut i: usize = 0;
    while i < bucket.len()
        invariant
            i <= bucket.len(),
            rows@.len() == i,
            forall|j: int| 0 <= j < bucket@.len() ==> (#[trigger] bucket.deep_view()[j]).status_name
                is Some,
            forall|j: int| 0 <= j < i ==> #[trigger] rows.deep_view()[j] == spec_row(
                bucket.deep_view()[j],
            ),
        decreases bucket.len() - i,
    {
        let issue = &bucket[i];
        proof {
            assert(bucket.deep_view()[i as int].status_name is Some);
        }
        let mut leading = flag_marker(&issue.flag_field);
        match &issue.status_name {
            Some(s) => leading.append(s.as_str()),
            None => (),
        }
        let summary: String = match &issue.summary {
            Some(s) => s.clone(),
            None => String::from_str("-"),
        };
        let row = Row {
            leading,
            key: issue.key.clone(),
            summary,
            issue_type: issue.issue_type_name.clone(),
        };
        proof {
            assert(row@ =~~= spec_row(bucket.deep_view()[i as int]));
        }
        let ghost pre = rows.deep_view();
        rows.push(row);
        i = i + 1;
        proof {
            assert forall|j: int| 0 <= j < i implies #[trigger] rows.deep_view()[j] == spec_row(
                bucket.deep_view()[j],
            ) by {
                if j < i - 1 {
                    assert(rows.deep_view()[j] == pre[j]);
                } else {
                    assert(rows.deep_view()[j] == row@);
                }
            }
        }
    }
    rows
}

} // verus!
