use waragent_simulation::prompts::{parse_action, proposal_json, ParsedAction};
use waragent_simulation::world::{ActionKind, Publicity};

fn valid() -> Vec<u64> {
    vec![1, 2, 3]
}

#[test]
fn parses_alliance_json() {
    let a = parse_action(
        "{\"action\": \"alliance\", \"target\": 3, \"publicity\": \"public\"}",
        &valid(),
    );
    assert_eq!(a.kind, ActionKind::Alliance);
    assert_eq!(a.target, Some(3));
    assert_eq!(a.publicity, Publicity::Public);
}

#[test]
fn secret_declare_war_parsed() {
    let a = parse_action(
        "{\"action\": \"declare_war\", \"target\": 1, \"publicity\": \"secret\"}",
        &valid(),
    );
    assert_eq!(a.kind, ActionKind::DeclareWar);
    assert_eq!(a.publicity, Publicity::Secret);
}

#[test]
fn mobilize_needs_no_target() {
    let a = parse_action("{\"action\": \"mobilize\"}", &valid());
    assert_eq!(a.kind, ActionKind::Mobilize);
    assert_eq!(a.target, None);
}

#[test]
fn invalid_target_falls_back_to_wait() {
    // target 9 is not a valid country id.
    let a = parse_action("{\"action\": \"alliance\", \"target\": 9}", &valid());
    assert_eq!(a.kind, ActionKind::Wait);
}

#[test]
fn garbage_falls_back_to_wait() {
    let a = parse_action("I am unsure what to do.", &valid());
    assert_eq!(a.kind, ActionKind::Wait);
}

#[test]
fn prose_keyword_fallback() {
    let a = parse_action("We should declare war on country 2.", &valid());
    assert_eq!(a.kind, ActionKind::DeclareWar);
    assert_eq!(a.target, Some(2));
}

#[test]
fn json_inside_prose_and_aliases() {
    let a = parse_action(
        "Step 4: {\"final_action\": \" Ally \", \"target\": \" 2 \", \"publicity\": \"SECRET\"} done",
        &valid(),
    );
    assert_eq!(
        a,
        ParsedAction { kind: ActionKind::Alliance, target: Some(2), publicity: Publicity::Secret }
    );
    // a message needs a target; none given -> wait.
    assert_eq!(parse_action("{\"action\": \"msg\"}", &valid()), ParsedAction::wait());
    // untargeted actions drop any target.
    let m = parse_action("{\"action\": \"mobilise\", \"target\": 2}", &valid());
    assert_eq!(m.kind, ActionKind::Mobilize);
    assert_eq!(m.target, None);
}

#[test]
fn unknown_json_action_uses_the_prose() {
    // the JSON names no known action, so the keywords of the whole text decide.
    let a = parse_action("{\"action\": \"ponder\"} maybe peace with 3", &valid());
    assert_eq!(a.kind, ActionKind::Peace);
    assert_eq!(a.target, Some(3));
    // broken JSON: keywords; the first number is 4, which is not a valid target.
    let b = parse_action("{alliance with 4, then 2}", &valid());
    assert_eq!(b.kind, ActionKind::Wait);
    // non-aggression keyword.
    let c = parse_action("a non-aggression treaty with 1", &valid());
    assert_eq!(c.kind, ActionKind::NonAggression);
    assert_eq!(c.target, Some(1));
}

#[test]
fn proposal_json_is_compact_and_sorted() {
    let a = ParsedAction { kind: ActionKind::DeclareWar, target: Some(2), publicity: Publicity::Public };
    assert_eq!(
        proposal_json(&a),
        "{\"action\":\"declare_war\",\"publicity\":\"public\",\"target\":2}"
    );
    assert_eq!(
        proposal_json(&ParsedAction::wait()),
        "{\"action\":\"wait\",\"publicity\":\"public\",\"target\":null}"
    );
    // and it parses back to the same action.
    assert_eq!(parse_action(&proposal_json(&a), &valid()), a);
}

#[test]
fn every_action_label_reads_back() {
    for kind in [
        ActionKind::Wait,
        ActionKind::Mobilize,
        ActionKind::DeclareWar,
        ActionKind::Alliance,
        ActionKind::NonAggression,
        ActionKind::Peace,
        ActionKind::Message,
    ] {
        for publicity in [Publicity::Public, Publicity::Secret] {
            let text = format!(
                "{{\"action\": \"{}\", \"target\": 2, \"publicity\": \"{}\"}}",
                kind.label(),
                publicity.label()
            );
            let a = parse_action(&text, &valid());
            assert_eq!(a.kind, kind);
            assert_eq!(a.publicity, publicity);
            assert_eq!(a.target, if kind.needs_target() { Some(2) } else { None });
        }
    }
}
