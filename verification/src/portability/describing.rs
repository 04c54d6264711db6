//! What findings and issues say in words.

use crate::portability::{issue_text, IssueModel};
use crate::rules::binding::{description, KindModel, ViolationModel};
use vstd::prelude::*;

verus! {

/// A finding in words names its node first. Where the form has words for it,
/// it says those and no others; a rule that could not be evaluated says why.
pub proof fn law_findings_name_their_node(v: ViolationModel)
    ensures
        exists|rest: Seq<char>| description(v) == #[trigger] (v.node_path + ": "@ + rest),
        (v.kind is Constraint || v.kind is Required) && v.message is Some ==> description(v)
            == v.node_path + ": "@ + v.message->0,
        v.kind matches KindModel::Failed(why) ==> exists|start: Seq<char>|
            description(v) == #[trigger] (start + why),
{
    reveal_strlit(": ");
    reveal_strlit(": the answer does not satisfy the form's constraint");
    reveal_strlit(": required, and unanswered");
    reveal_strlit(": holds ");
    reveal_strlit(", but the form calculates ");
    reveal_strlit(": rule could not be evaluated — ");
    let d = description(v);
    let k = v.node_path.len() as int + 2;
    assert(": "@.len() == 2 && ": "@[0] == ':' && ": "@[1] == ' ');
    assert(d.len() >= k);
    assert(d[k - 2] == ':' && d[k - 1] == ' ');
    assert(d =~= v.node_path + ": "@ + d.skip(k));
    if let KindModel::Failed(why) = v.kind {
        let start = v.node_path + ": rule could not be evaluated — "@;
        assert(d == start + why);
    }
}

/// An issue in words names the path and the rule, what was found there and
/// what it does, and what to write instead where that is known.
pub proof fn law_issues_name_their_rule(i: IssueModel)
    ensures
        exists|rest: Seq<char>|
            issue_text(i) == #[trigger] (i.path + " ("@ + i.rule + "): "@ + i.finding.construct
                + " — "@ + i.finding.effect + rest),
        i.finding.suggestion matches Some(s) ==> exists|start: Seq<char>|
            issue_text(i) == #[trigger] (start + s + " instead."@),
        i.finding.breaks is Everywhere && i.finding.suggestion is None ==> exists|start: Seq<char>|
            issue_text(i) == #[trigger] (start + ", identically on both engines."@),
{
    reveal_strlit(")");
    reveal_strlit(": ");
    reveal_strlit("): ");
    reveal_strlit(", ");
    reveal_strlit(".");
    reveal_strlit("");
    reveal_strlit("identically on both engines");
    reveal_strlit(", identically on both engines.");
    assert("): "@ =~= ")"@ + ": "@);
    let clause = crate::portability::engine_clause(i.finding.breaks);
    let advice = crate::portability::advice(i.finding.suggestion);
    let rest = ", "@ + clause + "."@ + advice;
    let d = issue_text(i);
    let head = i.path + " ("@ + i.rule + "): "@ + i.finding.construct + " — "@ + i.finding.effect;
    assert(d =~= head + rest);
    if let Some(s) = i.finding.suggestion {
        let start = head + (", "@ + clause + "."@ + " Write "@);
        assert(d =~= start + s + " instead."@);
    } else if i.finding.breaks is Everywhere {
        assert(", identically on both engines."@ =~= ", "@ + "identically on both engines"@
            + "."@);
        assert(d =~= head + ", identically on both engines."@);
    }
}

} // verus!
