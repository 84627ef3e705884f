//! The remote filter expression: one fixed template with the sprint, board
//! and project substituted verbatim, each wrapped in double quotes.

use vstd::prelude::*;
use crate::config::{Config, ConfigError};

verus! {

/// The query text for a sprint, board and project: the fixed template with
/// the three values substituted verbatim.
pub open spec fn spec_query(sprint: Seq<char>, board: Seq<char>, project: Seq<char>) -> Seq<
    char,
> {
    "issueFunction not in removedAfterSprintStart(\""@ + board + "\", \""@ + sprint
        + "\") AND sprint = \""@ + sprint + "\" and Project = \""@ + project
        + "\" ORDER BY status"@
}

/// Builds the remote query string from the three identifiers.
pub fn build_query(sprint: &String, board: &String, project: &String) -> (r: String)
    ensures
        r@ == spec_query(sprint@, board@, project@),
{
    let mut q = String::from_str("issueFunction not in removedAfterSprintStart(\"");
    q.append(board.as_str());
    q.append("\", \"");
    q.append(sprint.as_str());
    q.append("\") AND sprint = \"");
    q.append(sprint.as_str());
    q.append("\" and Project = \"");
    q.append(project.as_str());
    q.append("\" ORDER BY status");
    q
}

/// Builds the query from the configuration, failing when the board or the
/// project identifier is missing; the board is checked first.
pub fn resolve_query(conf: &Config, sprint: &String) -> (r: Result<String, ConfigError>)
    ensures
        conf@.board is None ==> r == Err::<String, ConfigError>(ConfigError::MissingBoard),
        conf@.board is Some && conf@.project is None ==> r == Err::<String, ConfigError>(
            ConfigError::MissingProject,
        ),
        conf@.board is Some && conf@.project is Some ==> (r matches Ok(q) && q@ == spec_query(
            sprint@,
            conf@.board->0,
            conf@.project->0,
        )),
{
    match (&conf.board, &conf.project) {
        (None, _) => Err(ConfigError::MissingBoard),
        (Some(_), None) => Err(ConfigError::MissingProject),
        (Some(board), Some(project)) => Ok(build_query(sprint, board, project)),
    }
}

/// Whether a string contains no double-quote character.
pub open spec fn quote_free(s: Seq<char>) -> bool {
    forall|i: int| 0 <= i < s.len() ==> s[i] != '"'
}

proof fn lemma_cancel_prefix(a: Seq<char>, x: Seq<char>, y: Seq<char>)
    requires
        a + x == a + y,
    ensures
        x == y,
{
    assert(x =~= (a + x).skip(a.len() as int));
    assert(y =~= (a + y).skip(a.len() as int));
}

proof fn lemma_quote_delimited(x1: Seq<char>, t1: Seq<char>, x2: Seq<char>, t2: Seq<char>)
    requires
        x1 + t1 == x2 + t2,
        quote_free(x1),
        quote_free(x2),
        t1.len() > 0,
        t2.len() > 0,
        t1[0] == '"',
        t2[0] == '"',
    ensures
        x1 == x2,
        t1 == t2,
{
    if x1.len() < x2.len() {
        assert((x1 + t1)[x1.len() as int] == t1[0]);
        assert((x2 + t2)[x1.len() as int] == x2[x1.len() as int]);
        assert(false);
    } else if x2.len() < x1.len() {
        assert((x2 + t2)[x2.len() as int] == t2[0]);
        assert((x1 + t1)[x2.len() as int] == x1[x2.len() as int]);
        assert(false);
    } else {
        assert(x1 =~= x2) by {
            assert(forall|i: int| 0 <= i < x1.len() ==> (x1 + t1)[i] == x1[i] && (x2 + t2)[i]
                == x2[i]);
        }
        lemma_cancel_prefix(x1, t1, t2);
    }
}

/// Distinct (sprint, board, project) triples always produce distinct query
/// strings, as long as none of the three contains a double quote: the quotes
/// of the template delimit each substituted value unambiguously.
pub proof fn lemma_query_injective(
    s1: Seq<char>,
    b1: Seq<char>,
    p1: Seq<char>,
    s2: Seq<char>,
    b2: Seq<char>,
    p2: Seq<char>,
)
    requires
        quote_free(s1),
        quote_free(b1),
        quote_free(p1),
        quote_free(s2),
        quote_free(b2),
        quote_free(p2),
        spec_query(s1, b1, p1) == spec_query(s2, b2, p2),
    ensures
        s1 == s2,
        b1 == b2,
        p1 == p2,
{
    let a = "issueFunction not in removedAfterSprintStart(\""@;
    let b = "\", \""@;
    let c = "\") AND sprint = \""@;
    let d = "\" and Project = \""@;
    let e = "\" ORDER BY status"@;
    reveal_strlit("issueFunction not in removedAfterSprintStart(\"");
    reveal_strlit("\", \"");
    reveal_strlit("\") AND sprint = \"");
    reveal_strlit("\" and Project = \"");
    reveal_strlit("\" ORDER BY status");
    let t1 = b + (s1 + (c + (s1 + (d + (p1 + e)))));
    let t2 = b + (s2 + (c + (s2 + (d + (p2 + e)))));
    assert(spec_query(s1, b1, p1) =~= a + (b1 + t1));
    assert(spec_query(s2, b2, p2) =~= a + (b2 + t2));
    lemma_cancel_prefix(a, b1 + t1, b2 + t2);
    assert(t1[0] == '"');
    assert(t2[0] == '"');
    lemma_quote_delimited(b1, t1, b2, t2);
    let u1 = s1 + (c + (s1 + (d + (p1 + e))));
    let u2 = s2 + (c + (s2 + (d + (p2 + e))));
    lemma_cancel_prefix(b, u1, u2);
    assert((c + (s1 + (d + (p1 + e))))[0] == '"');
    assert((c + (s2 + (d + (p2 + e))))[0] == '"');
    lemma_quote_delimited(s1, c + (s1 + (d + (p1 + e))), s2, c + (s2 + (d + (p2 + e))));
    lemma_cancel_prefix(c, s1 + (d + (p1 + e)), s2 + (d + (p2 + e)));
    lemma_cancel_prefix(s1, d + (p1 + e), d + (p2 + e));
    lemma_cancel_prefix(d, p1 + e, p2 + e);
    assert(e[0] == '"');
    lemma_quote_delimited(p1, e, p2, e);
}

} // verus!
