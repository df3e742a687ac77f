use waragent_simulation::board::Relation;
use waragent_simulation::config::{Config, Scenario, Trigger};
use waragent_simulation::metrics::{
    common_ids, common_pairs, compute_round_counts, historical_alliance_partition,
    historical_mobilized, historical_war_pairs, mobilized_set, war_pair_set,
};
use waragent_simulation::partition::alliance_partition;
use waragent_simulation::simulation::init_world;
use waragent_simulation::world::WarWorld;

fn world() -> WarWorld {
    let cfg = Config { scenario: Scenario::Wwi, trigger: Trigger::Null, ..Config::default() };
    init_world(&cfg)
}

#[test]
fn alliance_partition_uses_transitive_closure() {
    let mut w = world();
    let part = alliance_partition(&w);
    // {0,1} should be one cluster.
    assert!(part.iter().any(|g| g.contains(&0) && g.contains(&1)));
    // {2,3,4} should be one cluster (C-D, C-E transitive).
    assert!(part.iter().any(|g| g.contains(&2) && g.contains(&3) && g.contains(&4)));
    // mutate: declare a war and recompute conflicts.
    w.boards[0].set_relation(2, Relation::War);
    let m = compute_round_counts(&w, 0, 3);
    assert!(m.n_conflicts >= 1);
}

#[test]
fn initial_partition_exactly() {
    let w = world();
    let mut part = alliance_partition(&w);
    part.sort();
    // alliances: A-B, C-D, C-E, E-H; F and G alone.
    assert_eq!(part, vec![vec![0, 1], vec![2, 3, 4, 7], vec![5], vec![6]]);
}

#[test]
fn historical_sets() {
    assert_eq!(historical_alliance_partition(), vec![vec![0, 1, 6], vec![2, 3, 4, 7], vec![5]]);
    assert_eq!(
        historical_war_pairs(),
        vec![(0, 2), (0, 3), (0, 4), (1, 4), (1, 7), (4, 6)]
    );
    assert_eq!(historical_mobilized(), vec![0, 1, 2, 3, 4, 6, 7]);
}

#[test]
fn initial_world_has_no_wars_or_mobilizations() {
    let w = world();
    assert!(war_pair_set(&w).is_empty());
    assert!(mobilized_set(&w).is_empty());
    let m = compute_round_counts(&w, 0, 3);
    assert_eq!(m.n_conflicts, 0);
    assert_eq!(m.n_mobilized, 0);
    assert_eq!(m.war_outbreak, 0);
    assert_eq!(m.n_alliance_clusters, 4);
    assert_eq!(m.declaration_common, 0);
    assert_eq!(m.mobilization_common, 0);
}

#[test]
fn counts_after_wars_and_mobilization() {
    let mut w = world();
    w.boards[0].set_relation(2, Relation::War);
    w.boards[4].set_relation(6, Relation::War);
    w.boards[6].set_relation(4, Relation::War);
    w.boards[5].set_relation(1, Relation::War);
    w.countries[5].stick.mobilized = true;
    w.countries[0].stick.mobilized = true;
    let m = compute_round_counts(&w, 2, 3);
    assert_eq!(war_pair_set(&w), vec![(0, 2), (1, 5), (4, 6)]);
    assert_eq!(m.round, 2);
    assert_eq!(m.n_conflicts, 3);
    assert_eq!(m.war_outbreak, 1);
    // (0,2) and (4,6) are historical declarations.
    assert_eq!(m.declaration_common, 2);
    assert_eq!(mobilized_set(&w), vec![0, 5]);
    assert_eq!(m.n_mobilized, 2);
    // 0 mobilized historically, 5 did not.
    assert_eq!(m.mobilization_common, 1);
}

#[test]
fn common_element_counts() {
    assert_eq!(common_ids(&vec![0, 1, 2], &vec![1, 2, 3]), 2);
    assert_eq!(common_ids(&vec![], &vec![1]), 0);
    assert_eq!(common_pairs(&vec![(0, 1), (2, 3)], &vec![(2, 3), (4, 5)]), 1);
}
