use waragent_simulation::board::{Board, Relation};
use waragent_simulation::world::{
    ActionKind, Country, Profile, Publicity, RoundClock, Stance, WarWorld,
};

fn world_with_wars() -> WarWorld {
    let mut countries = Vec::new();
    let mut boards = Vec::new();
    for i in 0..3u64 {
        countries.push(Country::new(format!("Country {i}"), Profile::default(), Stance::Neutral));
        boards.push(Board::new(i));
    }
    // 0<->1 mutual war, 1->2 one-sided war.
    boards[0].set_relation(1, Relation::War);
    boards[1].set_relation(0, Relation::War);
    boards[1].set_relation(2, Relation::War);
    WarWorld {
        clock: RoundClock::new(6),
        countries,
        boards,
        pending_actions: Vec::new(),
        inbox: vec![Vec::new(), Vec::new(), Vec::new()],
        event_log: Vec::new(),
        round: 0,
        trigger: None,
        trigger_injected: false,
    }
}

#[test]
fn agent_ids_sorted() {
    let w = world_with_wars();
    assert_eq!(w.agent_ids(), vec![0, 1, 2]);
}

#[test]
fn counts_war_pairs_undirected() {
    let w = world_with_wars();
    // {0,1} and {1,2} -> 2 pairs.
    assert_eq!(w.n_war_pairs(), 2);
}

#[test]
fn action_kind_target_requirement() {
    assert!(!ActionKind::Wait.needs_target());
    assert!(!ActionKind::Mobilize.needs_target());
    assert!(ActionKind::DeclareWar.needs_target());
    assert!(ActionKind::Alliance.needs_target());
}

#[test]
fn war_pairs_listed_in_order() {
    let w = world_with_wars();
    assert_eq!(w.war_pairs(), vec![(0, 1), (1, 2)]);
    assert_eq!(w.counterparts(1, Relation::War), vec![0, 2]);
    assert!(w.counterparts(9, Relation::War).is_empty());
    assert_eq!(w.n_countries(), 3);
    assert_eq!(w.name_map(), vec!["Country 0", "Country 1", "Country 2"]);
}

#[test]
fn current_round_follows_the_clock() {
    let mut w = world_with_wars();
    assert_eq!(w.current_round(), 0);
    w.clock.t = 1;
    assert_eq!(w.current_round(), 0);
    w.clock.t = 4;
    assert_eq!(w.current_round(), 3);
}

#[test]
fn labels() {
    assert_eq!(ActionKind::DeclareWar.label(), "declare_war");
    assert_eq!(ActionKind::NonAggression.label(), "non_aggression");
    assert_eq!(Publicity::Secret.label(), "secret");
    assert_eq!(Stance::Aggressive.label(), "aggressive");
    assert!(Stance::Conservative.describe().contains("risk-averse"));
    let c = Country::new("X".to_string(), Profile::default(), Stance::Neutral);
    assert!(!c.mobilized());
}
