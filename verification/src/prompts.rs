//! Prompt construction for the country decision and the secretary check,
//! and parsing of the model's answer into an action.

use vstd::prelude::*;

use crate::text::{
    is_ws, lemma_plain_key, all_digits, chars_of, contains, contains_exec, decimal, digits_value, is_digit, lower_chars,
    lower_seq, parse_u64, parse_u64_exec, push_decimal, push_str, seq_eq_str, string_of, trim,
    trim_chars,
};
use crate::world::{ActionKind, Country, Publicity};

verus! {

/// What the decision prompt of one country shows besides its own profile.
pub struct DecisionContext<'a> {
    /// The country's id.
    pub actor: u64,
    /// The country's state.
    pub country: &'a Country,
    /// The paragraph describing its board and domestic state.
    pub board_context: String,
    /// The breaking event of the first round, if any.
    pub trigger: Option<&'a str>,
    /// Summaries of recently received actions.
    pub inbox_summary: Vec<String>,
    /// The other countries `(id, name)` it may target.
    pub targets: Vec<(u64, String)>,
    /// The current round, from 0.
    pub round: u64,
}

/// `"- " + line + "\n"` for each line.
pub open spec fn bullet_lines(items: Seq<Seq<char>>) -> Seq<char>
    decreases items.len(),
{
    if items.len() == 0 {
        seq![]
    } else {
        bullet_lines(items.drop_last()) + "- "@ + items.last() + "\n"@
    }
}

/// `"- id <id>: <name>\n"` for each target.
pub open spec fn target_lines(ts: Seq<(u64, Seq<char>)>) -> Seq<char>
    decreases ts.len(),
{
    if ts.len() == 0 {
        seq![]
    } else {
        target_lines(ts.drop_last()) + "- id "@ + decimal(ts.last().0 as nat) + ": "@ + ts.last().1
            + "\n"@
    }
}

pub open spec fn strings_view(v: Seq<String>) -> Seq<Seq<char>> {
    v.map_values(|s: String| s@)
}

pub open spec fn targets_view(v: Seq<(u64, String)>) -> Seq<(u64, Seq<char>)> {
    v.map_values(|p: (u64, String)| (p.0, p.1@))
}

fn push_bullet_lines(s: &mut String, items: &Vec<String>)
    ensures
        final(s)@ == old(s)@ + bullet_lines(strings_view(items@)),
{
    let ghost s0 = s@;
    let mut i: usize = 0;
    while i < items.len()
        invariant
            0 <= i <= items@.len(),
            s@ == s0 + bullet_lines(strings_view(items@).take(i as int)),
        decreases items@.len() - i,
    {
        push_str(s, "- ");
        push_str(s, items[i].as_str());
        push_str(s, "\n");
        proof {
            let v = strings_view(items@);
            assert(v.take(i + 1).drop_last() =~= v.take(i as int));
            assert(v.take(i + 1).last() == items@[i as int]@);
        }
        i = i + 1;
    }
    assert(strings_view(items@).take(items@.len() as int) =~= strings_view(items@));
}

fn push_target_lines(s: &mut String, targets: &Vec<(u64, String)>)
    ensures
        final(s)@ == old(s)@ + target_lines(targets_view(targets@)),
{
    let ghost s0 = s@;
    let mut i: usize = 0;
    while i < targets.len()
        invariant
            0 <= i <= targets@.len(),
            s@ == s0 + target_lines(targets_view(targets@).take(i as int)),
        decreases targets@.len() - i,
    {
        push_str(s, "- id ");
        push_decimal(s, targets[i].0);
        push_str(s, ": ");
        push_str(s, targets[i].1.as_str());
        push_str(s, "\n");
        proof {
            let v = targets_view(targets@);
            assert(v.take(i + 1).drop_last() =~= v.take(i as int));
            assert(v.take(i + 1).last() == (targets@[i as int].0, targets@[i as int].1@));
        }
        i = i + 1;
    }
    assert(targets_view(targets@).take(targets@.len() as int) =~= targets_view(targets@));
}

pub open spec fn decision_intro() -> Seq<char> {
    "You are the leadership of a country in a multi-country international crisis. You must decide this round's single action that best serves your national interest.\n\n"@
}

pub open spec fn decision_outro() -> Seq<char> {
    ")\nThink step by step, then act:\n1. Identify which countries are your natural allies.\n2. Recognize which countries are your adversaries or threats.\n3. Recommend the action that best advances your interest.\n4. Commit to ONE final action from the action space below.\n\n## Action space\n- \"wait\": do nothing this round.\n- \"mobilize\": order full mobilization (no target).\n- \"declare_war\": declare war on a target.\n- \"alliance\": propose a military alliance to a target.\n- \"non_aggression\": propose a non-aggression treaty to a target.\n- \"peace\": offer peace to a target you are at war with.\n- \"message\": send a diplomatic message to a target (no relation change).\n\n## Output\nAnswer with JSON only, e.g. {\"action\": \"alliance\", \"target\": 3, \"publicity\": \"public\"}.\nFor \"wait\"/\"mobilize\" omit target. \"publicity\" is \"public\" or \"secret\" (default public).\n"@
}

/// The view of an optional borrowed text.
pub open spec fn opt_text(t: Option<&str>) -> Option<Seq<char>> {
    match t {
        Some(x) => Some(x@),
        None => None,
    }
}

/// The decision prompt: profile and stance, the situation paragraph, the
/// breaking event (when given), the received signals (when any), the target
/// ids, then the four reasoning steps, the action space and the answer
/// format.
pub open spec fn decision_text(
    c: Country,
    board_context: Seq<char>,
    trigger: Option<Seq<char>>,
    inbox: Seq<Seq<char>>,
    targets: Seq<(u64, Seq<char>)>,
    round: u64,
) -> Seq<char> {
    let head = decision_intro() + "## Your country: "@ + c.name@ + "\n"@ + "- Leadership: "@
        + c.profile.leadership@ + "\n"@ + "- Military capability: "@ + c.profile.military@ + "\n"@
        + "- Resources: "@ + c.profile.resources@ + "\n"@ + "- Historical background: "@
        + c.profile.history@ + "\n"@ + "- Key policy: "@ + c.profile.policy@ + "\n"@
        + "- Public morale: "@ + c.profile.morale@ + "\n"@ + "- Stance: "@ + c.stance.describe_spec()
        + "\n"@ + "\n## Current situation\n"@ + board_context;
    let with_trigger = match trigger {
        Some(t) => head + "\n## Breaking event this round\n"@ + t + "\n"@,
        None => head,
    };
    let with_inbox = if inbox.len() == 0 {
        with_trigger
    } else {
        with_trigger + "\n## Recent diplomatic signals you have received\n"@ + bullet_lines(inbox)
    };
    with_inbox + "\n## Other countries (target ids)\n"@ + target_lines(targets)
        + "\n## Reasoning (round "@ + decimal(round as nat) + decision_outro()
}

pub open spec fn decision_prompt_spec(cx: &DecisionContext) -> Seq<char> {
    decision_text(
        *cx.country,
        cx.board_context@,
        opt_text(cx.trigger),
        strings_view(cx.inbox_summary@),
        targets_view(cx.targets@),
        cx.round,
    )
}

/// Builds a country's decision prompt.
pub fn decision_prompt(cx: &DecisionContext) -> (r: String)
    ensures
        r@ == decision_prompt_spec(cx),
{
    let c = cx.country;
    let mut s = String::new();
    push_str(&mut s, "You are the leadership of a country in a multi-country international crisis. You must decide this round's single action that best serves your national interest.\n\n");
    push_str(&mut s, "## Your country: ");
    push_str(&mut s, c.name.as_str());
    push_str(&mut s, "\n");
    push_str(&mut s, "- Leadership: ");
    push_str(&mut s, c.profile.leadership.as_str());
    push_str(&mut s, "\n");
    push_str(&mut s, "- Military capability: ");
    push_str(&mut s, c.profile.military.as_str());
    push_str(&mut s, "\n");
    push_str(&mut s, "- Resources: ");
    push_str(&mut s, c.profile.resources.as_str());
    push_str(&mut s, "\n");
    push_str(&mut s, "- Historical background: ");
    push_str(&mut s, c.profile.history.as_str());
    push_str(&mut s, "\n");
    push_str(&mut s, "- Key policy: ");
    push_str(&mut s, c.profile.policy.as_str());
    push_str(&mut s, "\n");
    push_str(&mut s, "- Public morale: ");
    push_str(&mut s, c.profile.morale.as_str());
    push_str(&mut s, "\n");
    push_str(&mut s, "- Stance: ");
    push_str(&mut s, c.stance.describe());
    push_str(&mut s, "\n");
    push_str(&mut s, "\n## Current situation\n");
    push_str(&mut s, cx.board_context.as_str());
    match cx.trigger {
        Some(t) => {
            push_str(&mut s, "\n## Breaking event this round\n");
            push_str(&mut s, t);
            push_str(&mut s, "\n");
        },
        None => {},
    }
    if cx.inbox_summary.len() > 0 {
        push_str(&mut s, "\n## Recent diplomatic signals you have received\n");
        push_bullet_lines(&mut s, &cx.inbox_summary);
    }
    push_str(&mut s, "\n## Other countries (target ids)\n");
    push_target_lines(&mut s, &cx.targets);
    push_str(&mut s, "\n## Reasoning (round ");
    push_decimal(&mut s, cx.round);
    push_str(&mut s, ")\nThink step by step, then act:\n1. Identify which countries are your natural allies.\n2. Recognize which countries are your adversaries or threats.\n3. Recommend the action that best advances your interest.\n4. Commit to ONE final action from the action space below.\n\n## Action space\n- \"wait\": do nothing this round.\n- \"mobilize\": order full mobilization (no target).\n- \"declare_war\": declare war on a target.\n- \"alliance\": propose a military alliance to a target.\n- \"non_aggression\": propose a non-aggression treaty to a target.\n- \"peace\": offer peace to a target you are at war with.\n- \"message\": send a diplomatic message to a target (no relation change).\n\n## Output\nAnswer with JSON only, e.g. {\"action\": \"alliance\", \"target\": 3, \"publicity\": \"public\"}.\nFor \"wait\"/\"mobilize\" omit target. \"publicity\" is \"public\" or \"secret\" (default public).\n");
    s
}

pub open spec fn secretary_intro() -> Seq<char> {
    "You are the secretary verifying your country's proposed diplomatic action for format and logical validity before it is dispatched.\n\n"@
}

pub open spec fn secretary_task() -> Seq<char> {
    "\n## Task\nVerify the action is one of wait/mobilize/declare_war/alliance/non_aggression/peace/message, that target-bearing actions name a valid other-country id, and that wait/mobilize have no target. If valid, return it unchanged. If invalid, correct it (e.g. fall back to \"wait\").\nAnswer with JSON only, same schema: {\"action\": ..., \"target\": ..., \"publicity\": ...}.\n"@
}

/// The secretary prompt: the country, the valid target ids, the proposed
/// action and the checking task.
pub open spec fn secretary_text(name: Seq<char>, targets: Seq<(u64, Seq<char>)>, proposed: Seq<char>) -> Seq<char> {
    secretary_intro() + "## Country: "@ + name + "\n"@ + "## Valid target ids\n"@ + target_lines(
        targets,
    ) + "\n## Proposed action\n"@ + proposed + "\n"@ + secretary_task()
}

pub open spec fn secretary_prompt_spec(cx: &DecisionContext, proposed: Seq<char>) -> Seq<char> {
    secretary_text(cx.country.name@, targets_view(cx.targets@), proposed)
}

/// Builds the secretary's check of a proposed action (given as JSON text).
pub fn secretary_prompt(cx: &DecisionContext, proposed: &str) -> (r: String)
    ensures
        r@ == secretary_prompt_spec(cx, proposed@),
{
    let mut s = String::new();
    push_str(&mut s, "You are the secretary verifying your country's proposed diplomatic action for format and logical validity before it is dispatched.\n\n");
    push_str(&mut s, "## Country: ");
    push_str(&mut s, cx.country.name.as_str());
    push_str(&mut s, "\n");
    push_str(&mut s, "## Valid target ids\n");
    push_target_lines(&mut s, &cx.targets);
    push_str(&mut s, "\n## Proposed action\n");
    push_str(&mut s, proposed);
    push_str(&mut s, "\n");
    push_str(&mut s, "\n## Task\nVerify the action is one of wait/mobilize/declare_war/alliance/non_aggression/peace/message, that target-bearing actions name a valid other-country id, and that wait/mobilize have no target. If valid, return it unchanged. If invalid, correct it (e.g. fall back to \"wait\").\nAnswer with JSON only, same schema: {\"action\": ..., \"target\": ..., \"publicity\": ...}.\n");
    s
}

/// Characters that a JSON string holds without escaping: no quote, no
/// backslash, no control character.
pub open spec fn json_plain(s: Seq<char>) -> bool {
    forall|i: int| 0 <= i < s.len() ==> s[i] != '"' && s[i] != '\\' && (s[i] as u32) >= 32u32
}

/// The compact JSON object `{"action":..,"publicity":..,"target":..}` with
/// its keys in sorted order; the target is a decimal number or `null`.
pub open spec fn proposal_text(action: Seq<char>, target: Option<u64>, publicity: Seq<char>) -> Seq<char> {
    "{\"action\":\""@ + action + "\",\"publicity\":\""@ + publicity + "\",\"target\":"@ + match target {
        Some(t) => decimal(t as nat),
        None => "null"@,
    } + "}"@
}

/// Builds a `serde_json::Value::Object` with the keys `action`, `target`
/// and `publicity` and writes it with `Value`'s `Display` (the compact form).
/// The map of this `serde_json` build is a `BTreeMap` (the `preserve_order`
/// feature is off), so the keys come out sorted; a string without quotes,
/// backslashes or control characters is written between quotes as it is,
/// a `u64` in decimal and `None` as `null`.
#[verifier::external_body]
fn json_proposal(action: &str, target: Option<u64>, publicity: &str) -> (r: String)
    requires
        json_plain(action@),
        json_plain(publicity@),
    ensures
        r@ == proposal_text(action@, target, publicity@),
{
    let mut m = serde_json::Map::new();
    m.insert("action".to_string(), serde_json::Value::from(action));
    m.insert("target".to_string(), serde_json::Value::from(target));
    m.insert("publicity".to_string(), serde_json::Value::from(publicity));
    serde_json::Value::Object(m).to_string()
}

/// The labels are plain JSON text.
pub proof fn lemma_labels_plain(k: ActionKind, p: Publicity)
    ensures
        json_plain(k.label_spec()),
        json_plain(p.label_spec()),
{
    reveal_strlit("wait");
    reveal_strlit("mobilize");
    reveal_strlit("declare_war");
    reveal_strlit("alliance");
    reveal_strlit("non_aggression");
    reveal_strlit("peace");
    reveal_strlit("message");
    reveal_strlit("public");
    reveal_strlit("secret");
}

/// The proposed action handed to the secretary, as JSON text.
pub fn proposal_json(a: &ParsedAction) -> (r: String)
    ensures
        r@ == proposal_text(a.kind.label_spec(), a.target, a.publicity.label_spec()),
{
    proof {
        lemma_labels_plain(a.kind, a.publicity);
    }
    json_proposal(a.kind.label(), a.target, a.publicity.label())
}

/// A parsed final action (the target as a raw id).
#[derive(Clone, Copy, Debug, PartialEq, Eq, Structural)]
pub struct ParsedAction {
    pub kind: ActionKind,
    /// The target's raw id (none for untargeted actions).
    pub target: Option<u64>,
    pub publicity: Publicity,
}

pub open spec fn wait_spec() -> ParsedAction {
    ParsedAction { kind: ActionKind::Wait, target: None, publicity: Publicity::Public }
}

impl ParsedAction {
    /// The fallback action: wait, in public.
    pub fn wait() -> (r: ParsedAction)
        ensures
            r == wait_spec(),
    {
        ParsedAction { kind: ActionKind::Wait, target: None, publicity: Publicity::Public }
    }
}

/// What a JSON object holds under one key, as far as the parser is
/// concerned.
#[derive(Clone, Debug)]
pub enum JsonField {
    /// The text is not a JSON object, or the key is missing.
    Absent,
    /// A JSON string.
    Text(String),
    /// A JSON number, with its value when it is a non-negative integer that
    /// fits in a `u64`.
    Number(Option<u64>),
    /// Any other JSON value.
    Other,
}

/// The view of a [`JsonField`].
pub enum JsonFieldView {
    Absent,
    Text(Seq<char>),
    Number(Option<u64>),
    Other,
}

impl View for JsonField {
    type V = JsonFieldView;

    open spec fn view(&self) -> JsonFieldView {
        match self {
            JsonField::Absent => JsonFieldView::Absent,
            JsonField::Text(s) => JsonFieldView::Text(s@),
            JsonField::Number(n) => JsonFieldView::Number(*n),
            JsonField::Other => JsonFieldView::Other,
        }
    }
}

/// What `serde_json` parses under `key` when it reads `text` as a JSON value.
pub uninterp spec fn json_object_field(text: Seq<char>, key: Seq<char>) -> JsonFieldView;

/// Parses `text` with `serde_json::from_str::<serde_json::Value>` and looks
/// up `key` with `Value::get`: a string value is returned as text, a number
/// with `Number::as_u64`, anything else as `Other`; a parse error or a
/// missing key (or a value that is not an object) gives `Absent`. The
/// contract only names this result (`json_object_field`): what JSON text
/// parses to what value is `serde_json`'s grammar and is not stated here.
#[verifier::external_body]
fn json_field(text: &str, key: &str) -> (r: JsonField)
    ensures
        r@ == json_object_field(text@, key@),
{
    match serde_json::from_str::<serde_json::Value>(text) {
        Ok(v) => match v.get(key) {
            None => JsonField::Absent,
            Some(serde_json::Value::String(s)) => JsonField::Text(s.clone()),
            Some(serde_json::Value::Number(n)) => JsonField::Number(n.as_u64()),
            Some(serde_json::Value::Null) => JsonField::Other,
            Some(serde_json::Value::Bool(_)) => JsonField::Other,
            Some(serde_json::Value::Array(_)) => JsonField::Other,
            Some(serde_json::Value::Object(_)) => JsonField::Other,
        },
        Err(_) => JsonField::Absent,
    }
}

/// The action named by a (trimmed, lower-cased) action string.
pub open spec fn action_kind_spec(s: Seq<char>) -> Option<ActionKind> {
    if s == "wait"@ {
        Some(ActionKind::Wait)
    } else if s == "mobilize"@ || s == "mobilise"@ {
        Some(ActionKind::Mobilize)
    } else if s == "declare_war"@ || s == "declarewar"@ || s == "war"@ {
        Some(ActionKind::DeclareWar)
    } else if s == "alliance"@ || s == "ally"@ {
        Some(ActionKind::Alliance)
    } else if s == "non_aggression"@ || s == "nonaggression"@ || s == "non-aggression"@ || s
        == "treaty"@ {
        Some(ActionKind::NonAggression)
    } else if s == "peace"@ {
        Some(ActionKind::Peace)
    } else if s == "message"@ || s == "msg"@ {
        Some(ActionKind::Message)
    } else {
        None
    }
}


/// Maps an action string to an action kind.
pub fn action_kind_from_str(s: &Vec<char>) -> (r: Option<ActionKind>)
    ensures
        r == action_kind_spec(s@),
{
    if seq_eq_str(s, "wait") {
        Some(ActionKind::Wait)
    } else if seq_eq_str(s, "mobilize") || seq_eq_str(s, "mobilise") {
        Some(ActionKind::Mobilize)
    } else if seq_eq_str(s, "declare_war") || seq_eq_str(s, "declarewar") || seq_eq_str(s, "war") {
        Some(ActionKind::DeclareWar)
    } else if seq_eq_str(s, "alliance") || seq_eq_str(s, "ally") {
        Some(ActionKind::Alliance)
    } else if seq_eq_str(s, "non_aggression") || seq_eq_str(s, "nonaggression") || seq_eq_str(
        s,
        "non-aggression",
    ) || seq_eq_str(s, "treaty") {
        Some(ActionKind::NonAggression)
    } else if seq_eq_str(s, "peace") {
        Some(ActionKind::Peace)
    } else if seq_eq_str(s, "message") || seq_eq_str(s, "msg") {
        Some(ActionKind::Message)
    } else {
        None
    }
}

/// Confirms the target: a targeted action with no valid target falls back
/// to waiting; an untargeted action drops any target.
pub open spec fn finalize_spec(
    kind: ActionKind,
    target: Option<u64>,
    publicity: Publicity,
    valid: Seq<u64>,
) -> ParsedAction {
    if kind.needs_target_spec() {
        match target {
            Some(t) => if valid.contains(t) {
                ParsedAction { kind, target: Some(t), publicity }
            } else {
                wait_spec()
            },
            None => wait_spec(),
        }
    } else {
        ParsedAction { kind, target: None, publicity }
    }
}

fn contains_id(valid: &[u64], t: u64) -> (r: bool)
    ensures
        r == valid@.contains(t),
{
    let mut i: usize = 0;
    while i < valid.len()
        invariant
            0 <= i <= valid@.len(),
            forall|k: int| 0 <= k < i ==> valid@[k] != t,
        decreases valid@.len() - i,
    {
        if valid[i] == t {
            assert(valid@[i as int] == t);
            return true;
        }
        i = i + 1;
    }
    false
}

pub fn finalize(kind: ActionKind, target: Option<u64>, publicity: Publicity, valid: &[u64]) -> (r: ParsedAction)
    ensures
        r == finalize_spec(kind, target, publicity, valid@),
{
    if kind.needs_target() {
        match target {
            Some(t) => {
                if contains_id(valid, t) {
                    ParsedAction { kind, target: Some(t), publicity }
                } else {
                    ParsedAction::wait()
                }
            },
            None => ParsedAction::wait(),
        }
    } else {
        ParsedAction { kind, target: None, publicity }
    }
}

/// The action string: the `action` field, or `final_action` when `action`
/// is missing; anything but a string reads as empty. Trimmed and
/// lower-cased.
pub open spec fn action_string(action: JsonFieldView, final_action: JsonFieldView) -> Seq<char> {
    let f = if action is Absent {
        final_action
    } else {
        action
    };
    match f {
        JsonFieldView::Text(s) => lower_seq(trim(s)),
        _ => seq![],
    }
}

/// Publicity: secret only for a string equal to `secret` up to case and
/// surrounding white space.
pub open spec fn publicity_of(p: JsonFieldView) -> Publicity {
    match p {
        JsonFieldView::Text(s) => if lower_seq(trim(s)) == "secret"@ {
            Publicity::Secret
        } else {
            Publicity::Public
        },
        _ => Publicity::Public,
    }
}

/// Target: a non-negative integer number, or a string holding one.
pub open spec fn target_of(t: JsonFieldView) -> Option<u64> {
    match t {
        JsonFieldView::Number(n) => n,
        JsonFieldView::Text(s) => parse_u64(trim(s)),
        _ => None,
    }
}

/// The action read from the JSON fields, when the action string names one.
pub open spec fn action_from_fields_spec(
    action: JsonFieldView,
    final_action: JsonFieldView,
    publicity: JsonFieldView,
    target: JsonFieldView,
    valid: Seq<u64>,
) -> Option<ParsedAction> {
    match action_kind_spec(action_string(action, final_action)) {
        Some(k) => Some(finalize_spec(k, target_of(target), publicity_of(publicity), valid)),
        None => None,
    }
}

/// Reads an action from the `action`/`final_action`, `publicity` and
/// `target` fields of a JSON answer.
pub fn action_from_fields(
    action: &JsonField,
    final_action: &JsonField,
    publicity: &JsonField,
    target: &JsonField,
    valid: &[u64],
) -> (r: Option<ParsedAction>)
    ensures
        r == action_from_fields_spec(action@, final_action@, publicity@, target@, valid@),
{
    let f = match action {
        JsonField::Absent => final_action,
        _ => action,
    };
    let action_str: Vec<char> = match f {
        JsonField::Text(s) => {
            let cs = chars_of(s.as_str());
            let t = trim_chars(&cs);
            lower_chars(&t)
        },
        _ => Vec::new(),
    };
    assert(action_str@ == action_string(action@, final_action@));
    let kind = action_kind_from_str(&action_str);
    let publ = match publicity {
        JsonField::Text(p) => {
            let cs = chars_of(p.as_str());
            let t = trim_chars(&cs);
            let l = lower_chars(&t);
            if seq_eq_str(&l, "secret") {
                Publicity::Secret
            } else {
                Publicity::Public
            }
        },
        _ => Publicity::Public,
    };
    let tgt = match target {
        JsonField::Number(n) => *n,
        JsonField::Text(s) => {
            let cs = chars_of(s.as_str());
            let t = trim_chars(&cs);
            parse_u64_exec(&t)
        },
        _ => None,
    };
    match kind {
        Some(k) => Some(finalize(k, tgt, publ, valid)),
        None => None,
    }
}

/// The first index at or after `i` holding `c` (`s.len()` when none).
pub open spec fn find_from(s: Seq<char>, c: char, i: int) -> int
    decreases s.len() - i,
{
    if i < 0 || i >= s.len() {
        s.len() as int
    } else if s[i] == c {
        i
    } else {
        find_from(s, c, i + 1)
    }
}

/// The last index before `j` holding `c` (`-1` when none).
pub open spec fn rfind_before(s: Seq<char>, c: char, j: int) -> int
    decreases j,
{
    if j <= 0 || j > s.len() {
        -1
    } else if s[j - 1] == c {
        j - 1
    } else {
        rfind_before(s, c, j - 1)
    }
}

/// The text from the first `{` to the last `}`, both included, when both
/// occur in that order.
pub open spec fn extract_json_spec(s: Seq<char>) -> Option<Seq<char>> {
    let a = find_from(s, '{', 0);
    let b = rfind_before(s, '}', s.len() as int);
    if a >= s.len() || b < 0 || b < a {
        None
    } else {
        Some(s.subrange(a, b + 1))
    }
}

/// Cuts the first `{ ... }` block out of a text.
pub fn extract_json_object(s: &Vec<char>) -> (r: Option<Vec<char>>)
    ensures
        match r {
            Some(v) => extract_json_spec(s@) == Some(v@),
            None => extract_json_spec(s@) is None,
        },
{
    let n = s.len();
    let mut a: usize = 0;
    while a < n && s[a] != '{'
        invariant
            n == s@.len(),
            0 <= a <= n,
            find_from(s@, '{', 0) == find_from(s@, '{', a as int),
        decreases n - a,
    {
        a = a + 1;
    }
    let mut b: usize = n;
    while b > 0 && s[b - 1] != '}'
        invariant
            n == s@.len(),
            0 <= b <= n,
            rfind_before(s@, '}', n as int) == rfind_before(s@, '}', b as int),
        decreases b,
    {
        b = b - 1;
    }
    if a >= n || b == 0 || b - 1 < a {
        return None;
    }
    let mut v: Vec<char> = Vec::new();
    let mut k: usize = a;
    while k < b
        invariant
            n == s@.len(),
            a <= k <= b <= n,
            v@ == s@.subrange(a as int, k as int),
        decreases b - k,
    {
        v.push(s[k]);
        k = k + 1;
        assert(v@ =~= s@.subrange(a as int, k as int));
    }
    Some(v)
}

/// The end of the run of digits starting at `i`.
pub open spec fn run_end(s: Seq<char>, i: int) -> int
    decreases s.len() - i,
{
    if 0 <= i < s.len() && is_digit(s[i]) {
        run_end(s, i + 1)
    } else {
        i
    }
}

/// The value of the first maximal run of ASCII digits, at or after `i`,
/// that fits in a `u64` (runs that overflow are skipped).
pub open spec fn first_number_from(s: Seq<char>, i: int) -> Option<u64>
    decreases s.len() - i,
{
    if i < 0 || i >= s.len() {
        None
    } else if !is_digit(s[i]) {
        first_number_from(s, i + 1)
    } else {
        let j = run_end(s, i);
        if j > i && digits_value(s.subrange(i, j)) <= u64::MAX {
            Some(digits_value(s.subrange(i, j)) as u64)
        } else if j > i {
            proof {
                lemma_run_end(s, i);
            }
            first_number_from(s, j)
        } else {
            None
        }
    }
}

pub proof fn lemma_run_end(s: Seq<char>, i: int)
    requires
        0 <= i <= s.len(),
    ensures
        i <= run_end(s, i) <= s.len(),
        all_digits(s.subrange(i, run_end(s, i))),
        run_end(s, i) == s.len() || !is_digit(s[run_end(s, i)]),
    decreases s.len() - i,
{
    if i < s.len() && is_digit(s[i]) {
        lemma_run_end(s, i + 1);
        let j = run_end(s, i);
        assert forall|k: int| 0 <= k < j - i implies is_digit(#[trigger] s.subrange(i, j)[k]) by {
            if k > 0 {
                assert(s.subrange(i, j)[k] == s.subrange(i + 1, j)[k - 1]);
            }
        }
    }
}

/// The first number in a text: the first maximal run of ASCII digits whose
/// value fits in a `u64`.
pub fn first_number(s: &Vec<char>) -> (r: Option<u64>)
    ensures
        r == first_number_from(s@, 0),
{
    let n = s.len();
    let mut i: usize = 0;
    while i < n
        invariant
            n == s@.len(),
            0 <= i <= n,
            first_number_from(s@, 0) == first_number_from(s@, i as int),
        decreases n - i,
    {
        let c = s[i];
        if !('0' <= c && c <= '9') {
            i = i + 1;
        } else {
            proof {
                lemma_run_end(s@, i as int);
            }
            let mut j: usize = i;
            while j < n && '0' <= s[j] && s[j] <= '9'
                invariant
                    n == s@.len(),
                    i <= j <= n,
                    run_end(s@, i as int) == run_end(s@, j as int),
                decreases n - j,
            {
                j = j + 1;
            }
            let mut run: Vec<char> = Vec::new();
            let mut k: usize = i;
            while k < j
                invariant
                    n == s@.len(),
                    i <= k <= j <= n,
                    run@ == s@.subrange(i as int, k as int),
                decreases j - k,
            {
                run.push(s[k]);
                k = k + 1;
                assert(run@ =~= s@.subrange(i as int, k as int));
            }
            let v = parse_u64_exec(&run);
            assert(run@.len() > 0);
            assert(!(run@.len() > 1 && run@[0] == '+'));
            match v {
                Some(x) => {
                    return Some(x);
                },
                None => {
                    i = j;
                },
            }
        }
    }
    None
}

/// The action named by keywords in a (lower-cased) prose answer.
pub open spec fn keyword_kind(lower: Seq<char>) -> Option<ActionKind> {
    if contains(lower, "declare_war"@) || contains(lower, "declare war"@) {
        Some(ActionKind::DeclareWar)
    } else if contains(lower, "alliance"@) {
        Some(ActionKind::Alliance)
    } else if contains(lower, "non_aggression"@) || contains(lower, "non-aggression"@) {
        Some(ActionKind::NonAggression)
    } else if contains(lower, "mobilize"@) || contains(lower, "mobilise"@) {
        Some(ActionKind::Mobilize)
    } else if contains(lower, "peace"@) {
        Some(ActionKind::Peace)
    } else if contains(lower, "message"@) {
        Some(ActionKind::Message)
    } else if contains(lower, "wait"@) {
        Some(ActionKind::Wait)
    } else {
        None
    }
}

fn has(lower: &Vec<char>, t: &str) -> (r: bool)
    ensures
        r == contains(lower@, t@),
{
    let tc = chars_of(t);
    contains_exec(lower, &tc)
}

fn keyword_kind_exec(lower: &Vec<char>) -> (r: Option<ActionKind>)
    ensures
        r == keyword_kind(lower@),
{
    if has(lower, "declare_war") || has(lower, "declare war") {
        Some(ActionKind::DeclareWar)
    } else if has(lower, "alliance") {
        Some(ActionKind::Alliance)
    } else if has(lower, "non_aggression") || has(lower, "non-aggression") {
        Some(ActionKind::NonAggression)
    } else if has(lower, "mobilize") || has(lower, "mobilise") {
        Some(ActionKind::Mobilize)
    } else if has(lower, "peace") {
        Some(ActionKind::Peace)
    } else if has(lower, "message") {
        Some(ActionKind::Message)
    } else if has(lower, "wait") {
        Some(ActionKind::Wait)
    } else {
        None
    }
}

/// The action read from a model answer: the JSON object in it when its
/// action string names an action; otherwise the first action keyword in
/// the prose (with the first number as target, published); otherwise wait.
/// Targeted actions without a valid target fall back to waiting.
pub open spec fn parse_action_spec(text: Seq<char>, valid: Seq<u64>) -> ParsedAction {
    let via_json = match extract_json_spec(text) {
        Some(j) => action_from_fields_spec(
            json_object_field(j, "action"@),
            json_object_field(j, "final_action"@),
            json_object_field(j, "publicity"@),
            json_object_field(j, "target"@),
            valid,
        ),
        None => None,
    };
    match via_json {
        Some(a) => a,
        None => match keyword_kind(lower_seq(text)) {
            Some(k) => finalize_spec(k, first_number_from(text, 0), Publicity::Public, valid),
            None => wait_spec(),
        },
    }
}

/// Parses a model answer into an action, checking the target against the
/// valid target ids.
pub fn parse_action(text: &str, valid: &[u64]) -> (r: ParsedAction)
    ensures
        r == parse_action_spec(text@, valid@),
        r.kind.needs_target_spec() ==> (r.target matches Some(t) && valid@.contains(t)),
        !r.kind.needs_target_spec() ==> r.target is None,
{
    let cs = chars_of(text);
    let via_json = match extract_json_object(&cs) {
        Some(j) => {
            let js = string_of(&j);
            let fa = json_field(js.as_str(), "action");
            let ff = json_field(js.as_str(), "final_action");
            let fp = json_field(js.as_str(), "publicity");
            let ft = json_field(js.as_str(), "target");
            action_from_fields(&fa, &ff, &fp, &ft, valid)
        },
        None => None,
    };
    match via_json {
        Some(a) => a,
        None => {
            let lower = lower_chars(&cs);
            match keyword_kind_exec(&lower) {
                Some(k) => {
                    let t = first_number(&cs);
                    finalize(k, t, Publicity::Public, valid)
                },
                None => ParsedAction::wait(),
            }
        },
    }
}

/// Every action label written in an answer's `action` field reads back as
/// that action, and the `secret` label reads back as secret.
pub proof fn lemma_action_label_parses(k: ActionKind)
    ensures
        action_kind_spec(lower_seq(trim(k.label_spec()))) == Some(k),
        publicity_of(JsonFieldView::Text(Publicity::Secret.label_spec())) == Publicity::Secret,
        publicity_of(JsonFieldView::Text(Publicity::Public.label_spec())) == Publicity::Public,
{
    reveal_strlit("wait");
    reveal_strlit("mobilize");
    reveal_strlit("mobilise");
    reveal_strlit("declare_war");
    reveal_strlit("declarewar");
    reveal_strlit("war");
    reveal_strlit("alliance");
    reveal_strlit("ally");
    reveal_strlit("non_aggression");
    reveal_strlit("nonaggression");
    reveal_strlit("non-aggression");
    reveal_strlit("treaty");
    reveal_strlit("peace");
    reveal_strlit("message");
    reveal_strlit("msg");
    reveal_strlit("secret");
    reveal_strlit("public");
    let sec = "secret"@;
    assert forall|i: int| 0 <= i < sec.len() implies !is_ws(#[trigger] sec[i]) && !('A' <= sec[i]
        && sec[i] <= 'Z') by {}
    lemma_plain_key(sec);
    let pbl = "public"@;
    assert forall|i: int| 0 <= i < pbl.len() implies !is_ws(#[trigger] pbl[i]) && !('A' <= pbl[i]
        && pbl[i] <= 'Z') by {}
    lemma_plain_key(pbl);
    match k {
        ActionKind::Wait => {
            let s = "wait"@;
            assert forall|i: int| 0 <= i < s.len() implies !is_ws(#[trigger] s[i]) && !('A' <= s[i]
                && s[i] <= 'Z') by {}
            lemma_plain_key(s);
        },
        ActionKind::Mobilize => {
            let s = "mobilize"@;
            assert forall|i: int| 0 <= i < s.len() implies !is_ws(#[trigger] s[i]) && !('A' <= s[i]
                && s[i] <= 'Z') by {}
            lemma_plain_key(s);
        },
        ActionKind::DeclareWar => {
            let s = "declare_war"@;
            assert forall|i: int| 0 <= i < s.len() implies !is_ws(#[trigger] s[i]) && !('A' <= s[i]
                && s[i] <= 'Z') by {}
            lemma_plain_key(s);
        },
        ActionKind::Alliance => {
            let s = "alliance"@;
            assert forall|i: int| 0 <= i < s.len() implies !is_ws(#[trigger] s[i]) && !('A' <= s[i]
                && s[i] <= 'Z') by {}
            lemma_plain_key(s);
        },
        ActionKind::NonAggression => {
            let s = "non_aggression"@;
            assert forall|i: int| 0 <= i < s.len() implies !is_ws(#[trigger] s[i]) && !('A' <= s[i]
                && s[i] <= 'Z') by {}
            lemma_plain_key(s);
        },
        ActionKind::Peace => {
            let s = "peace"@;
            assert forall|i: int| 0 <= i < s.len() implies !is_ws(#[trigger] s[i]) && !('A' <= s[i]
                && s[i] <= 'Z') by {}
            lemma_plain_key(s);
        },
        ActionKind::Message => {
            let s = "message"@;
            assert forall|i: int| 0 <= i < s.len() implies !is_ws(#[trigger] s[i]) && !('A' <= s[i]
                && s[i] <= 'Z') by {}
            lemma_plain_key(s);
        },
    }
}

/// A prose answer (no JSON object in it) that speaks of mobilizing, and of
/// none of the actions that take precedence (declaring war, an alliance, a
/// non-aggression treaty), reads as a public mobilization without target,
/// whatever numbers it holds and whatever the valid targets are.
pub proof fn lemma_prose_mobilize(text: Seq<char>, valid: Seq<u64>)
    requires
        extract_json_spec(text) is None,
        contains(lower_seq(text), "mobilize"@) || contains(lower_seq(text), "mobilise"@),
        !contains(lower_seq(text), "declare_war"@),
        !contains(lower_seq(text), "declare war"@),
        !contains(lower_seq(text), "alliance"@),
        !contains(lower_seq(text), "non_aggression"@),
        !contains(lower_seq(text), "non-aggression"@),
    ensures
        parse_action_spec(text, valid) == (ParsedAction {
            kind: ActionKind::Mobilize,
            target: None,
            publicity: Publicity::Public,
        }),
{
}

/// A prose answer (no JSON object in it) that speaks of peace, and of none
/// of the actions that take precedence, offers peace to the first number it
/// holds when that is a valid target, and otherwise waits.
pub proof fn lemma_prose_peace(text: Seq<char>, valid: Seq<u64>)
    requires
        extract_json_spec(text) is None,
        contains(lower_seq(text), "peace"@),
        !contains(lower_seq(text), "declare_war"@),
        !contains(lower_seq(text), "declare war"@),
        !contains(lower_seq(text), "alliance"@),
        !contains(lower_seq(text), "non_aggression"@),
        !contains(lower_seq(text), "non-aggression"@),
        !contains(lower_seq(text), "mobilize"@),
        !contains(lower_seq(text), "mobilise"@),
    ensures
        parse_action_spec(text, valid) == (match first_number_from(text, 0) {
            Some(t) => if valid.contains(t) {
                ParsedAction { kind: ActionKind::Peace, target: Some(t), publicity: Publicity::Public }
            } else {
                wait_spec()
            },
            None => wait_spec(),
        }),
{
}

/// A prose answer (no JSON object in it) that names no action at all
/// reads as waiting.
pub proof fn lemma_prose_without_action(text: Seq<char>, valid: Seq<u64>)
    requires
        extract_json_spec(text) is None,
        !contains(lower_seq(text), "declare_war"@),
        !contains(lower_seq(text), "declare war"@),
        !contains(lower_seq(text), "alliance"@),
        !contains(lower_seq(text), "non_aggression"@),
        !contains(lower_seq(text), "non-aggression"@),
        !contains(lower_seq(text), "mobilize"@),
        !contains(lower_seq(text), "mobilise"@),
        !contains(lower_seq(text), "peace"@),
        !contains(lower_seq(text), "message"@),
    ensures
        parse_action_spec(text, valid) == wait_spec(),
{
}

} // verus!
