//! Names under which runs are recorded, and the small derivations the
//! records need (which gateway answered, the unit id of a country).

use vstd::prelude::*;

use crate::text::{chars_of, contains, decimal, owned, push_decimal, push_str, str_contains};

verus! {

/// The experiment's name (also the program's name).
pub const EXPERIMENT: &'static str = "waragent";

/// The stable id of the repository.
pub const REPO_ID: &'static str = "hua2024";

/// The field of study.
pub const DOMAIN: &'static str = "simulation";

/// The scope of metrics aggregated across the conditions of a sweep.
pub const SWEEP_SCOPE: &'static str = "sweep";

/// The kind of the per-action events.
pub const ACTION_EVENT: &'static str = "x.hua2024.action";

/// `p` is a prefix of `s`.
pub open spec fn starts_with(s: Seq<char>, p: Seq<char>) -> bool {
    p.len() <= s.len() && s.subrange(0, p.len() as int) == p
}

/// The gateway that answered, classified by its endpoint: `mock` for a
/// `mock://` endpoint, `openai` when the endpoint mentions `openai`, else
/// `ollama`.
pub open spec fn provider_spec(endpoint: Seq<char>) -> Seq<char> {
    if starts_with(endpoint, "mock://"@) {
        "mock"@
    } else if contains(endpoint, "openai"@) {
        "openai"@
    } else {
        "ollama"@
    }
}

fn starts_with_exec(s: &str, p: &str) -> (r: bool)
    ensures
        r == starts_with(s@, p@),
{
    let sc = chars_of(s);
    let pc = chars_of(p);
    if pc.len() > sc.len() {
        return false;
    }
    let mut i: usize = 0;
    while i < pc.len()
        invariant
            pc@.len() <= sc@.len(),
            sc@ == s@,
            pc@ == p@,
            0 <= i <= pc@.len(),
            forall|k: int| 0 <= k < i ==> sc@[k] == pc@[k],
        decreases pc@.len() - i,
    {
        if sc[i] != pc[i] {
            assert(sc@.subrange(0, pc@.len() as int)[i as int] != pc@[i as int]);
            return false;
        }
        i = i + 1;
    }
    assert(sc@.subrange(0, pc@.len() as int) =~= pc@);
    true
}

/// The provider recorded for a model endpoint.
pub fn llm_provider(endpoint: &str) -> (r: &'static str)
    ensures
        r@ == provider_spec(endpoint@),
{
    if starts_with_exec(endpoint, "mock://") {
        "mock"
    } else if str_contains(endpoint, "openai") {
        "openai"
    } else {
        "ollama"
    }
}

/// The unit id of a country in the action log: `country-<id>`.
pub fn unit_id(actor: u64) -> (r: String)
    ensures
        r@ == "country-"@ + decimal(actor as nat),
{
    let mut s = owned("country-");
    push_decimal(&mut s, actor);
    s
}

} // verus!
