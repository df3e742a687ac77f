use waragent_simulation::board::Relation;
use waragent_simulation::config::{Config, Scenario, Trigger};
use waragent_simulation::mechanisms::{
    describe_action, BoardUpdateMechanism, CountryDecisionMechanism, DiplomacyMechanism,
    EscalationMechanism, SituationMechanism,
};
use waragent_simulation::simulation::init_world;
use waragent_simulation::world::{Action, ActionKind, Country, Profile, Publicity, Stance, WarWorld};

fn act(actor: u64, kind: ActionKind, target: Option<u64>, publicity: Publicity) -> Action {
    Action { actor, kind, target, publicity, round: 0 }
}

fn wwi_world() -> WarWorld {
    let cfg = Config { scenario: Scenario::Wwi, trigger: Trigger::Null, ..Config::default() };
    init_world(&cfg)
}

#[test]
fn describe_action_formats() {
    let names = vec!["Country A".to_string(), "Country B".to_string()];
    let a = Action {
        actor: 0,
        kind: ActionKind::Alliance,
        target: Some(1),
        publicity: Publicity::Public,
        round: 0,
    };
    let s = describe_action(&a, &names);
    assert!(s.contains("Country A -> Country B: alliance (public)"));
    let _ = Country::new("x".to_string(), Profile::default(), Stance::Neutral);
}

#[test]
fn describe_action_without_target_or_name() {
    let names = vec!["Country A".to_string()];
    let a = act(0, ActionKind::Mobilize, None, Publicity::Secret);
    assert_eq!(describe_action(&a, &names), "Country A: mobilize (secret)");
    let b = act(0, ActionKind::Message, Some(5), Publicity::Public);
    assert_eq!(describe_action(&b, &names), "Country A -> Country#5: message (public)");
}

#[test]
fn delivery_public_to_all_others_secret_to_target() {
    let mut w = wwi_world();
    w.pending_actions = vec![
        act(0, ActionKind::Message, Some(2), Publicity::Secret),
        act(1, ActionKind::Mobilize, None, Publicity::Public),
    ];
    DiplomacyMechanism.apply(&mut w);
    assert_eq!(w.inbox[2].len(), 2);
    assert_eq!(w.inbox[1].len(), 0);
    assert_eq!(w.inbox[0].len(), 1);
    assert_eq!(w.inbox[5], vec![act(1, ActionKind::Mobilize, None, Publicity::Public)]);
}

#[test]
fn resolution_of_treaties_and_war() {
    let mut w = wwi_world();
    w.pending_actions = vec![
        act(5, ActionKind::Alliance, Some(6), Publicity::Public),
        act(6, ActionKind::Message, Some(5), Publicity::Public),
        act(3, ActionKind::NonAggression, Some(7), Publicity::Public),
        act(0, ActionKind::DeclareWar, Some(4), Publicity::Public),
        act(2, ActionKind::Alliance, Some(7), Publicity::Public),
        act(0, ActionKind::Peace, Some(4), Publicity::Secret),
    ];
    DiplomacyMechanism.apply(&mut w);
    // mutual consent (the reply is a message) forms the alliance both ways.
    assert_eq!(w.boards[5].relation_to(6), Relation::Alliance);
    assert_eq!(w.boards[6].relation_to(5), Relation::Alliance);
    // one-sided non-aggression: the target's board records T toward the
    // proposer; the proposer's board is unchanged.
    assert_eq!(w.boards[7].relation_to(3), Relation::NonAggression);
    assert_eq!(w.boards[3].relation_to(7), Relation::Peace);
    // war, then peace in the same round: back to peace on both sides.
    assert_eq!(w.boards[0].relation_to(4), Relation::Peace);
    assert_eq!(w.boards[4].relation_to(0), Relation::Peace);
    // unanswered alliance: nothing changes.
    assert_eq!(w.boards[2].relation_to(7), Relation::Peace);
}

#[test]
fn escalation_joins_allies_of_the_victim() {
    let mut w = wwi_world();
    w.pending_actions = vec![act(0, ActionKind::DeclareWar, Some(2), Publicity::Public)];
    DiplomacyMechanism.apply(&mut w);
    let joins = EscalationMechanism.apply(&mut w);
    // C (2) allies with D (3) and E (4); both join against A (0).
    assert_eq!(joins, vec![(3, 0), (4, 0)]);
    assert_eq!(w.boards[3].relation_to(0), Relation::War);
    assert_eq!(w.boards[0].relation_to(4), Relation::War);
    // a second pass adds nothing: they are already at war.
    let again = EscalationMechanism.apply(&mut w);
    assert!(again.is_empty());
}

#[test]
fn situation_and_board_update() {
    let mut w = wwi_world();
    w.clock.t = 1;
    let contexts = SituationMechanism.apply(&mut w);
    assert_eq!(contexts.len(), 8);
    assert!(contexts[0].starts_with("You are the leadership of Country A."));
    assert!(contexts[4].contains("in a military alliance with Country H [M]"));
    assert_eq!(w.round, 0);
    assert!(w.trigger_injected);
    w.pending_actions = vec![
        act(0, ActionKind::DeclareWar, Some(2), Publicity::Public),
        act(1, ActionKind::Mobilize, None, Publicity::Public),
    ];
    DiplomacyMechanism.apply(&mut w);
    let joins = EscalationMechanism.apply(&mut w);
    let bu = BoardUpdateMechanism::new(6, 3);
    let (counts, stop) = bu.apply(&mut w, &joins);
    // pairs {0,2}, {0,3}, {0,4}.
    assert_eq!(counts.n_conflicts, 3);
    assert_eq!(counts.war_outbreak, 1);
    assert!(stop);
    // A, C, D, E at war; B mobilized.
    assert_eq!(counts.n_mobilized, 5);
    assert_eq!(w.event_log.len(), 4);
    assert_eq!(w.event_log[2].action, "escalate_join_war");
    assert_eq!(w.event_log[2].target, Some(0));
    // memories hold the received actions, most recent first.
    assert_eq!(w.countries[5].memory, vec![
        "Country B: mobilize (public)".to_string(),
        "Country A -> Country C: declare_war (public)".to_string(),
    ]);
    assert_eq!(w.countries[0].memory, vec!["Country B: mobilize (public)".to_string()]);
    assert_eq!(bu.name(), "board_update");
    assert_eq!(CountryDecisionMechanism::new(1).name(), "country_decision");
}

#[test]
fn mutual_non_aggression_sets_both_boards() {
    let mut w = wwi_world();
    w.pending_actions = vec![
        act(3, ActionKind::NonAggression, Some(7), Publicity::Public),
        act(7, ActionKind::NonAggression, Some(3), Publicity::Secret),
    ];
    DiplomacyMechanism.apply(&mut w);
    assert_eq!(w.boards[3].relation_to(7), Relation::NonAggression);
    assert_eq!(w.boards[7].relation_to(3), Relation::NonAggression);
}
