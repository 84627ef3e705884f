//! Partitioning of an issue set: first by component membership, with a
//! catch-all bucket for issues claimed by no configured component, then by
//! status membership, with a wildcard status group.  Original order is
//! preserved within every bucket and no bucket ever sorts.

use vstd::prelude::*;
use crate::issues::{IssueRecord, IssueView};
use crate::issues::clone_strings;
use vstd::arithmetic::div_mod::lemma_fundamental_div_mod;

verus! {

/// One report bucket: the component label shown in the header (`"Others"`
/// for the catch-all), the status group it was filtered by, and the issues
/// that fell into it, in their original order.
#[derive(Debug, PartialEq, Eq)]
pub struct Bucket {
    pub component_label: String,
    pub statuses: Vec<String>,
    pub issues: Vec<IssueRecord>,
}

/// Spec-level image of a [`Bucket`].
#[verifier::ext_equal]
pub struct BucketView {
    pub component_label: Seq<char>,
    pub statuses: Seq<Seq<char>>,
    pub issues: Seq<IssueView>,
}

impl View for Bucket {
    type V = BucketView;

    open spec fn view(&self) -> BucketView {
        BucketView {
            component_label: self.component_label@,
            statuses: self.statuses.deep_view(),
            issues: self.issues.deep_view(),
        }
    }
}

impl DeepView for Bucket {
    type V = BucketView;

    open spec fn deep_view(&self) -> BucketView {
        self.view()
    }
}

/// The label displayed for a component selector: the catch-all selector is
/// shown as `"Others"`.
pub open spec fn spec_component_label(comp: Seq<char>) -> Seq<char> {
    if comp == "*"@ {
        "Others"@
    } else {
        comp
    }
}

/// The bucket for component index `ci` and status-group index `si`.
pub open spec fn spec_bucket(
    issues: Seq<IssueView>,
    comps: Seq<Seq<char>>,
    tables: Seq<Seq<Seq<char>>>,
    ci: int,
    si: int,
) -> BucketView {
    BucketView {
        component_label: spec_component_label(comps[ci]),
        statuses: tables[si],
        issues: spec_status_bucket(spec_component_bucket(issues, comps[ci], comps), tables[si]),
    }
}

/// The bucket at position `k` of the classification: buckets are emitted
/// component-major, status-group-minor.
pub open spec fn spec_bucket_at(
    issues: Seq<IssueView>,
    comps: Seq<Seq<char>>,
    tables: Seq<Seq<Seq<char>>>,
    k: int,
) -> BucketView {
    spec_bucket(issues, comps, tables, k / tables.len() as int, k % tables.len() as int)
}

/// Whether any of the issue's own components is named in the configured
/// component list.
pub open spec fn spec_claimed(iv: IssueView, all: Seq<Seq<char>>) -> bool {
    exists|i: int| 0 <= i < iv.components.len() && all.contains(#[trigger] iv.components[i])
}

/// Whether the issue belongs to the bucket of component selector `comp`:
/// the literal `"*"` claims every issue no configured component claims;
/// any other name claims the issues carrying a component of that exact name.
pub open spec fn spec_component_matches(
    iv: IssueView,
    comp: Seq<char>,
    all: Seq<Seq<char>>,
) -> bool {
    if comp == "*"@ {
        !spec_claimed(iv, all)
    } else {
        iv.components.contains(comp)
    }
}

/// Whether the issue belongs to the status group `statuses`: a `"*"` anywhere
/// in the group admits the whole component bucket; otherwise the issue's
/// status must be present and a member of the group.
pub open spec fn spec_status_matches(iv: IssueView, statuses: Seq<Seq<char>>) -> bool {
    statuses.contains("*"@) || (iv.status_name matches Some(s) && statuses.contains(s))
}

/// The subsequence of `issues`, in order, claimed by component selector
/// `comp` under the full configured list `all`.
pub open spec fn spec_component_bucket(
    issues: Seq<IssueView>,
    comp: Seq<char>,
    all: Seq<Seq<char>>,
) -> Seq<IssueView>
    decreases issues.len(),
{
    if issues.len() == 0 {
        Seq::empty()
    } else {
        let rest = spec_component_bucket(issues.drop_last(), comp, all);
        if spec_component_matches(issues.last(), comp, all) {
            rest.push(issues.last())
        } else {
            rest
        }
    }
}

/// The subsequence of `issues`, in order, admitted by the status group.
pub open spec fn spec_status_bucket(
    issues: Seq<IssueView>,
    statuses: Seq<Seq<char>>,
) -> Seq<IssueView>
    decreases issues.len(),
{
    if issues.len() == 0 {
        Seq::empty()
    } else {
        let rest = spec_status_bucket(issues.drop_last(), statuses);
        if spec_status_matches(issues.last(), statuses) {
            rest.push(issues.last())
        } else {
            rest
        }
    }
}

/// Whether a list of strings contains the given string.
pub fn vec_contains_str(v: &Vec<String>, x: &String) -> (r: bool)
    ensures
        r == v.deep_view().contains(x@),
{
    let mut i: usize = 0;
    while i < v.len()
        invariant
            i <= v.len(),
            forall|j: int| 0 <= j < i ==> v.deep_view()[j] != x@,
        decreases v.len() - i,
    {
        if v[i] == *x {
            proof {
                assert(v.deep_view()[i as int] == x@);
            }
            return true;
        }
        i = i + 1;
    }
    proof {
        assert(!v.deep_view().contains(x@));
    }
    false
}

/// Whether any component of the issue appears in the configured list.
pub fn is_claimed(issue: &IssueRecord, all: &Vec<String>) -> (r: bool)
    ensures
        r == spec_claimed(issue@, all.deep_view()),
{
    let mut i: usize = 0;
    while i < issue.components.len()
        invariant
            i <= issue.components.len(),
            forall|j: int| 0 <= j < i ==> !all.deep_view().contains(
                #[trigger] issue@.components[j],
            ),
        decreases issue.components.len() - i,
    {
        if vec_contains_str(all, &issue.components[i]) {
            proof {
                assert(all.deep_view().contains(issue@.components[i as int]));
            }
            return true;
        }
        i = i + 1;
    }
    false
}

/// Decides component membership for one issue.
pub fn component_matches(issue: &IssueRecord, comp: &String, all: &Vec<String>) -> (r: bool)
    ensures
        r == spec_component_matches(issue@, comp@, all.deep_view()),
{
    let star: String = String::from_str("*");
    if *comp == star {
        !is_claimed(issue, all)
    } else {
        vec_contains_str(&issue.components, comp)
    }
}

/// Decides status-group membership for one issue.
pub fn status_matches(issue: &IssueRecord, statuses: &Vec<String>) -> (r: bool)
    ensures
        r == spec_status_matches(issue@, statuses.deep_view()),
{
    let star: String = String::from_str("*");
    if vec_contains_str(statuses, &star) {
        true
    } else {
        match &issue.status_name {
            Some(s) => vec_contains_str(statuses, s),
            None => false,
        }
    }
}

/// Collects, in their original order, the issues claimed by one component
/// selector.
pub fn component_bucket(issues: &Vec<IssueRecord>, comp: &String, all: &Vec<String>) -> (r: Vec<
    IssueRecord,
>)
    ensures
        r.deep_view() == spec_component_bucket(issues.deep_view(), comp@, all.deep_view()),
{
    let mut out: Vec<IssueRecord> = Vec::new();
    let mut i: usize = 0;
    while i < issues.len()
        invariant
            i <= issues.len(),
            out.deep_view() == spec_component_bucket(
                issues.deep_view().take(i as int),
                comp@,
                all.deep_view(),
            ),
        decreases issues.len() - i,
    {
        let m = component_matches(&issues[i], comp, all);
        proof {
            let dv = issues.deep_view();
            assert(dv.take(i + 1).drop_last() =~= dv.take(i as int));
            assert(dv.take(i + 1).last() == dv[i as int]);
        }
        if m {
            let x = issues[i].clone();
            proof {
                assert(x.deep_view() == issues.deep_view()[i as int]);
            }
            out.push(x);
        }
        i = i + 1;
    }
    proof {
        assert(issues.deep_view().take(issues@.len() as int) =~= issues.deep_view());
    }
    out
}

/// Collects, in their original order, the issues of a component bucket that
/// the status group admits.
pub fn status_bucket(issues: &Vec<IssueRecord>, statuses: &Vec<String>) -> (r: Vec<IssueRecord>)
    ensures
        r.deep_view() == spec_status_bucket(issues.deep_view(), statuses.deep_view()),
{
    let mut out: Vec<IssueRecord> = Vec::new();
    let mut i: usize = 0;
    while i < issues.len()
        invariant
            i <= issues.len(),
            out.deep_view() == spec_status_bucket(
                issues.deep_view().take(i as int),
                statuses.deep_view(),
            ),
        decreases issues.len() - i,
    {
        let m = status_matches(&issues[i], statuses);
        proof {
            let dv = issues.deep_view();
            assert(dv.take(i + 1).drop_last() =~= dv.take(i as int));
            assert(dv.take(i + 1).last() == dv[i as int]);
        }
        if m {
            let x = issues[i].clone();
            proof {
                assert(x.deep_view() == issues.deep_view()[i as int]);
            }
            out.push(x);
        }
        i = i + 1;
    }
    proof {
        assert(issues.deep_view().take(issues@.len() as int) =~= issues.deep_view());
    }
    out
}

/// Partitions the issue set, outer over the configured components and inner
/// over the status groups, into the full ordered list of report buckets.
pub fn classify(
    issues: &Vec<IssueRecord>,
    components: &Vec<String>,
    status_tables: &Vec<Vec<String>>,
) -> (r: Vec<Bucket>)
    requires
        components@.len() * status_tables@.len() <= usize::MAX,
    ensures
        r@.len() == components@.len() * status_tables@.len(),
        forall|k: int| 0 <= k < r@.len() ==> #[trigger] r.deep_view()[k] == spec_bucket_at(
            issues.deep_view(),
            components.deep_view(),
            status_tables.deep_view(),
            k,
        ),
{
    let t: usize = status_tables.len();
    let n: usize = components.len() * t;
    let star: String = String::from_str("*");
    let mut out: Vec<Bucket> = Vec::new();
    let mut k: usize = 0;
    while k < n
        invariant
            t == status_tables@.len(),
            n == components@.len() * t,
            star@ == "*"@,
            k <= n,
            out@.len() == k,
            forall|j: int| 0 <= j < k ==> #[trigger] out.deep_view()[j] == spec_bucket_at(
                issues.deep_view(),
                components.deep_view(),
                status_tables.deep_view(),
                j,
            ),
        decreases n - k,
    {
        proof {
            let kk = k as int;
            let tt = t as int;
            let cl = components@.len() as int;
            lemma_fundamental_div_mod(kk, tt);
            assert(kk / tt < cl) by (nonlinear_arith)
                requires
                    tt > 0,
                    kk == tt * (kk / tt) + (kk % tt),
                    0 <= kk % tt < tt,
                    kk < cl * tt,
            ;
        }
        let ci: usize = k / t;
        let si: usize = k % t;
        let comp = &components[ci];
        let by_comp = component_bucket(issues, comp, components);
        let by_status = status_bucket(&by_comp, &status_tables[si]);
        let label: String = if *comp == star {
            String::from_str("Others")
        } else {
            comp.clone()
        };
        let bucket = Bucket {
            component_label: label,
            statuses: clone_strings(&status_tables[si]),
            issues: by_status,
        };
        proof {
            assert(bucket@ =~~= spec_bucket_at(
                issues.deep_view(),
                components.deep_view(),
                status_tables.deep_view(),
                k as int,
            ));
        }
        let ghost pre = out.deep_view();
        out.push(bucket);
        k = k + 1;
        proof {
            assert forall|j: int| 0 <= j < k implies #[trigger] out.deep_view()[j]
                == spec_bucket_at(
                issues.deep_view(),
                components.deep_view(),
                status_tables.deep_view(),
                j,
            ) by {
                if j < k - 1 {
                    assert(out.deep_view()[j] == pre[j]);
                } else {
                    assert(out.deep_view()[j] == bucket@);
                }
            }
        }
    }
    out
}

/// Classification is a pure function of the issue set and the configuration:
/// two runs of [`classify`] on the same inputs yield buckets equal in their
/// labels, status groups, contents and order.  This is immediate from the
/// classification contract, which pins every bucket to [`spec_bucket_at`].
pub proof fn lemma_classify_deterministic(
    issues: Seq<IssueView>,
    comps: Seq<Seq<char>>,
    tables: Seq<Seq<Seq<char>>>,
    a: Seq<BucketView>,
    b: Seq<BucketView>,
)
    requires
        a.len() == comps.len() * tables.len(),
        b.len() == comps.len() * tables.len(),
        forall|k: int| 0 <= k < a.len() ==> #[trigger] a[k] == spec_bucket_at(
            issues,
            comps,
            tables,
            k,
        ),
        forall|k: int| 0 <= k < b.len() ==> #[trigger] b[k] == spec_bucket_at(
            issues,
            comps,
            tables,
            k,
        ),
    ensures
        a == b,
{
    assert(a =~= b);
}

} // verus!
