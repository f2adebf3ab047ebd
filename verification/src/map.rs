//! Filling the site-map template with one workspace's identifiers.

use vstd::prelude::*;

use crate::text::{
    brace_free, braces_open, chars_of, lemma_replace_leaves_other_braces, lemma_replace_other_placeholder,
    lemma_replace_sole_placeholder, lemma_replace_all_untouched,
    lemma_replace_removes_braces, occurs_in, opens_with_only_brace, replace_all, replace_chars,
    string_from_chars, trim_chars, trim_whitespace,
};

verus! {

/// Why the site map could not be filled in.
#[derive(Debug, Clone, Copy, PartialEq, Eq, Structural)]
pub enum MapError {
    /// The workspace subdomain is empty, or the team id is blank.
    MissingWorkspace,
}

/// Message for a missing workspace subdomain or team id.
pub const MISSING_WORKSPACE: &'static str =
    "SlackConfig needs a non-empty workspace subdomain and team_id";

impl MapError {
    /// The error message.
    pub fn message(&self) -> (r: String)
        ensures
            r@ == MISSING_WORKSPACE@,
    {
        String::from_str(MISSING_WORKSPACE)
    }
}

/// The places template with `{workspace}` and then `{team_id}` replaced
/// everywhere.
pub open spec fn filled_places(template: Seq<char>, workspace: Seq<char>, team_id: Seq<char>) -> Seq<
    char,
> {
    replace_all(replace_all(template, "{workspace}"@, workspace), "{team_id}"@, team_id)
}

/// Fills the places template for one workspace: the subdomain, and the team
/// id without surrounding whitespace. Fails when either is empty.
pub fn fill_places(template: &str, workspace: &str, team_id: &str) -> (r: Result<String, MapError>)
    ensures
        r is Err <==> (workspace@.len() == 0 || trim_whitespace(team_id@).len() == 0),
        r matches Ok(t) ==> t@ == filled_places(template@, workspace@, trim_whitespace(team_id@)),
{
    let ws = chars_of(workspace);
    let team = trim_chars(&chars_of(team_id));
    if ws.len() == 0 || team.len() == 0 {
        return Err(MapError::MissingWorkspace);
    }
    proof {
        reveal_strlit("{workspace}");
        reveal_strlit("{team_id}");
    }
    let step1 = replace_chars(&chars_of(template), &chars_of("{workspace}"), &ws);
    let step2 = replace_chars(&step1, &chars_of("{team_id}"), &team);
    Ok(string_from_chars(&step2))
}

/// No placeholder survives filling: where every `{` of the template opens a
/// `{workspace}` or a `{team_id}` placeholder and neither value holds a `{`,
/// the filled text holds no `{` at all, so neither placeholder occurs in it.
pub proof fn law_filled_places_keep_no_placeholder(
    template: Seq<char>,
    workspace: Seq<char>,
    team_id: Seq<char>,
)
    requires
        braces_open(template, "{workspace}"@, "{team_id}"@),
        brace_free(workspace),
        brace_free(team_id),
    ensures
        brace_free(filled_places(template, workspace, team_id)),
        !occurs_in("{workspace}"@, filled_places(template, workspace, team_id)),
        !occurs_in("{team_id}"@, filled_places(template, workspace, team_id)),
{
    reveal_strlit("{workspace}");
    reveal_strlit("{team_id}");
    let pw = "{workspace}"@;
    let pt = "{team_id}"@;
    assert(opens_with_only_brace(pw)) by {
        assert forall|i: int| 0 <= i < pw.skip(1).len() implies pw.skip(1)[i] != '{' by {
            assert(pw.skip(1)[i] == pw[i + 1]);
        }
    }
    assert(opens_with_only_brace(pt)) by {
        assert forall|i: int| 0 <= i < pt.skip(1).len() implies pt.skip(1)[i] != '{' by {
            assert(pt.skip(1)[i] == pt[i + 1]);
        }
    }
    lemma_replace_leaves_other_braces(template, pw, workspace, pt);
    let step1 = replace_all(template, pw, workspace);
    lemma_replace_removes_braces(step1, pt, team_id);
    let out = filled_places(template, workspace, team_id);
    assert(out == replace_all(step1, pt, team_id));
    if occurs_in(pw, out) {
        let k = choose|k: int|
            0 <= k && k + pw.len() <= out.len() && #[trigger] out.subrange(k, k + pw.len()) == pw;
        assert(out.subrange(k, k + pw.len())[0] == out[k]);
    }
    if occurs_in(pt, out) {
        let k = choose|k: int|
            0 <= k && k + pt.len() <= out.len() && #[trigger] out.subrange(k, k + pt.len()) == pt;
        assert(out.subrange(k, k + pt.len())[0] == out[k]);
    }
}

/// Each placeholder takes its own value: in a template whose other text
/// holds no `{`, a `{workspace}` becomes the workspace (when it holds no
/// `{`) and a `{team_id}` becomes the team id, the text around it unchanged.
pub proof fn law_placeholders_take_their_values(
    before: Seq<char>,
    after: Seq<char>,
    workspace: Seq<char>,
    team_id: Seq<char>,
)
    requires
        brace_free(before),
        brace_free(after),
    ensures
        brace_free(workspace) ==> filled_places(before + "{workspace}"@ + after, workspace, team_id)
            == before + workspace + after,
        filled_places(before + "{team_id}"@ + after, workspace, team_id) == before + team_id + after,
{
    reveal_strlit("{workspace}");
    reveal_strlit("{team_id}");
    let pw = "{workspace}"@;
    let pt = "{team_id}"@;
    assert(opens_with_only_brace(pw)) by {
        assert forall|i: int| 0 <= i < pw.skip(1).len() implies pw.skip(1)[i] != '{' by {
            assert(pw.skip(1)[i] == pw[i + 1]);
        }
    }
    assert(opens_with_only_brace(pt)) by {
        assert forall|i: int| 0 <= i < pt.skip(1).len() implies pt.skip(1)[i] != '{' by {
            assert(pt.skip(1)[i] == pt[i + 1]);
        }
    }
    if brace_free(workspace) {
        lemma_replace_sole_placeholder(before, pw, after, workspace);
        let mid = before + workspace + after;
        assert(!mid.contains(pt[0])) by {
            if mid.contains(pt[0]) {
                let k = choose|k: int| 0 <= k < mid.len() && mid[k] == pt[0];
                if k < before.len() {
                    assert(mid[k] == before[k]);
                } else if k < before.len() + workspace.len() {
                    assert(mid[k] == workspace[k - before.len()]);
                } else {
                    assert(mid[k] == after[k - before.len() - workspace.len()]);
                }
            }
        }
        lemma_replace_all_untouched(mid, pt, team_id);
    }
    lemma_replace_other_placeholder(before, pt, after, pw, workspace);
    lemma_replace_sole_placeholder(before, pt, after, team_id);
}

} // verus!
