use std::collections::BTreeSet;

use waragent_simulation::commands::scripted_war_reply;
use waragent_simulation::config::{Config, Scenario, Trigger};
use waragent_simulation::metrics::historical_alliance_partition;
use waragent_simulation::simulation::{run_with, Simulation, SimulationResult};

/// Answers with `reply(letter)` for the country named in the prompt, and
/// waits otherwise.
fn scripted(reply: impl Fn(&str) -> String) -> impl Fn(&str) -> String {
    move |prompt: &str| {
        for letter in ["A", "B", "C", "D", "E", "F", "G", "H"] {
            if prompt.contains(&format!("Your country: Country {letter}")) {
                return reply(letter);
            }
            if prompt.contains(&format!("## Country: Country {letter}")) {
                return reply(letter);
            }
        }
        "{\"action\": \"wait\"}".to_string()
    }
}

fn a_declares_on(target: u64) -> impl Fn(&str) -> String {
    scripted(move |c| {
        if c == "A" {
            format!("{{\"action\": \"declare_war\", \"target\": {target}, \"publicity\": \"public\"}}")
        } else {
            "{\"action\": \"wait\"}".to_string()
        }
    })
}

fn small_cfg() -> Config {
    Config {
        scenario: Scenario::WwiSmall,
        trigger: Trigger::ArchdukeAssassination,
        secretary_passes: 1,
        rounds: 3,
        war_threshold: 1,
        seed: Some(7),
        ..Config::default()
    }
}

/// Normalized mutual information of two partitions (1 when both have a
/// single cluster, 0 when only one has).
fn nmi(sim: &[Vec<u64>], hist: &[Vec<u64>]) -> f64 {
    let mut universe: BTreeSet<u64> = BTreeSet::new();
    for g in sim.iter().chain(hist.iter()) {
        for &x in g {
            universe.insert(x);
        }
    }
    let n = universe.len() as f64;
    if universe.is_empty() {
        return 0.0;
    }
    let sets = |gs: &[Vec<u64>]| -> Vec<BTreeSet<u64>> {
        gs.iter()
            .map(|g| g.iter().copied().collect::<BTreeSet<u64>>())
            .filter(|s| !s.is_empty())
            .collect()
    };
    let u = sets(sim);
    let v = sets(hist);
    let mut mi = 0.0;
    for a in &u {
        for b in &v {
            let k = a.intersection(b).count();
            if k > 0 {
                let pij = k as f64 / n;
                mi += pij * (pij / ((a.len() as f64 / n) * (b.len() as f64 / n))).ln();
            }
        }
    }
    let h = |gs: &[BTreeSet<u64>]| -> f64 {
        gs.iter().map(|g| g.len() as f64 / n).map(|p| -p * p.ln()).sum()
    };
    let (hu, hv) = (h(&u), h(&v));
    let d = (hu * hv).sqrt();
    if hu < 1e-12 && hv < 1e-12 {
        1.0
    } else if d < 1e-12 {
        0.0
    } else {
        (mi / d).clamp(0.0, 1.0)
    }
}

fn last_mi(r: &SimulationResult) -> f64 {
    nmi(&r.metrics_history.last().unwrap().clusters, &historical_alliance_partition())
}

#[test]
fn run_produces_metrics_and_events() {
    let cfg = Config { rounds: 2, ..small_cfg() };
    let r = run_with(&cfg, &a_declares_on(1));
    assert!(!r.metrics_history.is_empty());
    assert!(r.final_round >= 1);
    assert!(r.event_log.iter().any(|e| e.action == "declare_war"));
}

#[test]
fn deterministic_given_mock() {
    let cfg = Config { rounds: 2, ..small_cfg() };
    let a = run_with(&cfg, &a_declares_on(1));
    let b = run_with(&cfg, &a_declares_on(1));
    let ma: Vec<u64> = a.metrics_history.iter().map(|m| m.n_conflicts).collect();
    let mb: Vec<u64> = b.metrics_history.iter().map(|m| m.n_conflicts).collect();
    assert_eq!(ma, mb);
}

#[test]
fn declare_war_resolves_to_war_relation() {
    let cfg = Config { rounds: 1, ..small_cfg() };
    let r = run_with(&cfg, &a_declares_on(2));
    assert!(r
        .event_log
        .iter()
        .any(|e| e.action == "declare_war" && e.actor == 0 && e.target == Some(2)));
    assert!(r.n_conflicts >= 1, "n_conflicts={}", r.n_conflicts);
}

#[test]
fn mutual_alliance_request_forms_alliance() {
    let cfg = Config { rounds: 1, war_threshold: 99, ..small_cfg() };
    let client = scripted(|c| match c {
        "C" => "{\"action\": \"alliance\", \"target\": 3, \"publicity\": \"public\"}".to_string(),
        "D" => "{\"action\": \"alliance\", \"target\": 2, \"publicity\": \"public\"}".to_string(),
        _ => "{\"action\": \"wait\"}".to_string(),
    });
    let r = run_with(&cfg, &client);
    assert!(r.event_log.iter().any(|e| e.action == "alliance" && e.actor == 2));
    assert!(r.event_log.iter().any(|e| e.action == "alliance" && e.actor == 3));
}

#[test]
fn escalation_pulls_allies_into_war() {
    let cfg = Config {
        scenario: Scenario::Wwi,
        trigger: Trigger::ArchdukeAssassination,
        secretary_passes: 1,
        rounds: 1,
        war_threshold: 99,
        seed: Some(7),
        ..Config::default()
    };
    let r = run_with(&cfg, &a_declares_on(2));
    assert!(
        r.event_log
            .iter()
            .any(|e| e.action == "escalate_join_war" && e.target == Some(0)),
        "expected an ally to escalate into war against A"
    );
}

#[test]
fn secret_action_reaches_only_target() {
    let cfg = Config {
        scenario: Scenario::Wwi,
        rounds: 1,
        war_threshold: 99,
        secretary_passes: 1,
        seed: Some(7),
        ..Config::default()
    };
    let client = scripted(|c| {
        if c == "A" {
            "{\"action\": \"message\", \"target\": 2, \"publicity\": \"secret\"}".to_string()
        } else {
            "{\"action\": \"wait\"}".to_string()
        }
    });
    let r = run_with(&cfg, &client);
    assert_eq!(r.n_conflicts, 0);
    assert!(r
        .event_log
        .iter()
        .any(|e| e.action == "message" && e.publicity == "secret" && e.target == Some(2)));
}

#[test]
fn war_triggers_mobilization() {
    let cfg = Config {
        scenario: Scenario::Wwi,
        rounds: 1,
        war_threshold: 99,
        secretary_passes: 0,
        seed: Some(7),
        ..Config::default()
    };
    let r = run_with(&cfg, &a_declares_on(2));
    let last = r.metrics_history.last().unwrap();
    assert!(last.n_mobilized >= 2, "n_mobilized={}", last.n_mobilized);
}

#[test]
fn deterministic_given_fixed_mock() {
    let cfg = small_cfg();
    let a = run_with(&cfg, &a_declares_on(2));
    let b = run_with(&cfg, &a_declares_on(2));
    let ma: Vec<u64> = a.metrics_history.iter().map(|m| m.n_conflicts).collect();
    let mb: Vec<u64> = b.metrics_history.iter().map(|m| m.n_conflicts).collect();
    let ja: Vec<f64> = a
        .metrics_history
        .iter()
        .map(|m| nmi(&m.clusters, &historical_alliance_partition()))
        .collect();
    let jb: Vec<f64> = b
        .metrics_history
        .iter()
        .map(|m| nmi(&m.clusters, &historical_alliance_partition()))
        .collect();
    assert_eq!(ma, mb, "the same answers reproduce the conflict counts");
    assert_eq!(ja, jb, "the same answers reproduce the alliance MI");
}

#[test]
fn stops_at_war_threshold() {
    let cfg = Config {
        scenario: Scenario::Wwi,
        rounds: 10,
        war_threshold: 1,
        secretary_passes: 1,
        seed: Some(7),
        ..Config::default()
    };
    let r = run_with(&cfg, &a_declares_on(2));
    assert!(r.war_outbreak);
    assert!(r.final_round < 10);
    assert_eq!(r.escalation_round, Some(0));
}

#[test]
fn stops_at_final_round_without_war() {
    let cfg = Config {
        scenario: Scenario::WwiSmall,
        rounds: 2,
        war_threshold: 99,
        secretary_passes: 1,
        seed: Some(7),
        ..small_cfg()
    };
    let r = run_with(&cfg, &scripted(|_| "{\"action\": \"wait\"}".to_string()));
    assert!(!r.war_outbreak);
    assert_eq!(r.final_round, 2);
    let max_round = r.metrics_history.iter().map(|m| m.round).max().unwrap();
    assert!(max_round < cfg.rounds as u64);
}

fn reproduce_one(trigger: Trigger) -> SimulationResult {
    let cfg = Config {
        scenario: Scenario::WwiSmall,
        trigger,
        stance_override: None,
        secretary_passes: 1,
        rounds: 6,
        war_threshold: 2,
        seed: Some(42),
        ..Config::default()
    };
    run_with(&cfg, &scripted_war_reply)
}

#[test]
fn reproduce_recovers_table_2_5_ordering() {
    let null = reproduce_one(Trigger::Null);
    let dardanelles = reproduce_one(Trigger::Dardanelles);
    let archduke = reproduce_one(Trigger::ArchdukeAssassination);

    assert!(archduke.war_outbreak, "archduke: war breaks out");
    assert!(
        archduke.n_conflicts >= 2,
        "archduke: allies are pulled in, n_conflicts={}",
        archduke.n_conflicts
    );
    assert!(!null.war_outbreak, "null: no war");
    assert!(!null.cold_war_flag, "null: no tension either");
    assert!(!dardanelles.war_outbreak, "dardanelles: no war");
    assert!(dardanelles.cold_war_flag, "dardanelles: cold war");

    let mi_null = last_mi(&null);
    let mi_arch = last_mi(&archduke);
    assert!(mi_arch >= mi_null, "MI_archduke({mi_arch}) >= MI_null({mi_null})");
}

#[test]
fn reproduce_mock_is_bit_deterministic() {
    let a = reproduce_one(Trigger::ArchdukeAssassination);
    let b = reproduce_one(Trigger::ArchdukeAssassination);
    let series = |r: &SimulationResult| -> Vec<(u64, u64, u64)> {
        r.metrics_history
            .iter()
            .map(|m| (m.round, m.n_conflicts, m.n_mobilized))
            .collect()
    };
    assert_eq!(series(&a), series(&b));
    assert_eq!(a.war_outbreak, b.war_outbreak);
    assert_eq!(a.escalation_round, b.escalation_round);
}

#[test]
fn driver_prompts_in_order() {
    let cfg = Config {
        scenario: Scenario::WwiSmall,
        trigger: Trigger::NavalIncident,
        secretary_passes: 1,
        rounds: 2,
        war_threshold: 99,
        ..Config::default()
    };
    let mut sim = Simulation::new(&cfg);
    assert!(sim.prompt().is_none());
    assert!(!sim.finish_round());
    assert!(sim.begin_round());
    assert!(!sim.begin_round());
    let p0 = sim.prompt().unwrap();
    assert!(p0.starts_with("You are the leadership of a country"));
    assert!(p0.contains("## Your country: Country A\n"));
    assert!(p0.contains("## Breaking event this round\nA naval skirmish"));
    assert!(p0.contains("- id 1: Country B\n- id 2: Country C\n- id 3: Country D\n"));
    assert!(p0.contains("## Reasoning (round 0)\n"));
    assert!(!p0.contains("Recent diplomatic signals"));
    sim.answer("{\"action\": \"message\", \"target\": 2}");
    let s0 = sim.prompt().unwrap();
    assert!(s0.starts_with("You are the secretary"));
    assert!(s0.contains(
        "## Proposed action\n{\"action\":\"message\",\"publicity\":\"public\",\"target\":2}\n"
    ));
    sim.answer("{\"action\": \"message\", \"target\": 2}");
    for _ in 0..6 {
        assert!(sim.prompt().is_some());
        sim.answer("{\"action\": \"wait\"}");
    }
    assert!(sim.prompt().is_none());
    assert!(sim.finish_round());
    assert_eq!(sim.history.len(), 1);
    assert!(sim.begin_round());
    let p1 = sim.prompt().unwrap();
    // round 1: no breaking event any more.
    assert!(!p1.contains("Breaking event"));
    assert!(p1.contains("## Reasoning (round 1)\n"));
    sim.answer("{\"action\": \"wait\"}");
    sim.answer("{\"action\": \"wait\"}");
    let p_b = sim.prompt().unwrap();
    assert!(p_b.contains("## Your country: Country B\n"));
    // public actions, waits included, reach every other country; most
    // recent first.
    assert!(p_b.contains(
        "## Recent diplomatic signals you have received\n\
         - Country D: wait (public)\n\
         - Country C: wait (public)\n\
         - Country A -> Country C: message (public)\n"
    ));
    let r = sim.into_result();
    assert_eq!(r.final_round, 1);
    assert!(!r.war_outbreak);
    assert_eq!(r.event_log.len(), 4);
}

#[test]
fn escalation_outcome_in_detail() {
    for passes in [0usize, 1] {
        let cfg = Config {
            scenario: Scenario::Wwi,
            trigger: Trigger::ArchdukeAssassination,
            secretary_passes: passes,
            rounds: 1,
            war_threshold: 99,
            seed: Some(7),
            ..Config::default()
        };
        let r = run_with(&cfg, &a_declares_on(2));
        let mut joiners: Vec<u64> = r
            .event_log
            .iter()
            .filter(|e| e.action == "escalate_join_war" && e.target == Some(0))
            .map(|e| e.actor)
            .collect();
        joiners.sort();
        assert_eq!(joiners, vec![3, 4]);
        assert_eq!(r.n_conflicts, 3);
        assert_eq!(r.metrics_history.last().unwrap().n_mobilized, 4);
        assert!(!r.war_outbreak);
        assert_eq!(r.escalation_round, None);
    }
}

#[test]
fn quiet_run_summary() {
    let cfg = Config { rounds: 2, war_threshold: 99, ..small_cfg() };
    let r = run_with(&cfg, &scripted(|_| "{\"action\": \"wait\"}".to_string()));
    assert_eq!(r.final_round, 2);
    assert_eq!(r.metrics_history.iter().map(|m| m.round).collect::<Vec<_>>(), vec![0, 1]);
    assert!(!r.war_outbreak);
    assert_eq!(r.escalation_round, None);
    assert_eq!(r.n_conflicts, 0);
    assert!(!r.cold_war_flag);
}

#[test]
fn mutual_alliance_merges_clusters() {
    let cfg = Config { rounds: 1, war_threshold: 99, ..small_cfg() };
    let client = scripted(|c| match c {
        "C" => "{\"action\": \"alliance\", \"target\": 3, \"publicity\": \"public\"}".to_string(),
        "D" => "{\"action\": \"alliance\", \"target\": 2, \"publicity\": \"public\"}".to_string(),
        _ => "{\"action\": \"wait\"}".to_string(),
    });
    let r = run_with(&cfg, &client);
    let last = r.metrics_history.last().unwrap();
    assert_eq!(last.n_alliance_clusters, 2);
    assert_eq!(r.n_conflicts, 0);
    assert!(!r.war_outbreak);
    // the number of clusters moved from 3 to 2: tension without war.
    assert!(r.cold_war_flag);
}

#[test]
fn secret_message_logged_exactly() {
    let cfg = Config {
        scenario: Scenario::Wwi,
        rounds: 1,
        war_threshold: 99,
        secretary_passes: 1,
        seed: Some(7),
        ..Config::default()
    };
    let client = scripted(|c| {
        if c == "A" {
            "{\"action\": \"message\", \"target\": 2, \"publicity\": \"secret\"}".to_string()
        } else {
            "{\"action\": \"wait\"}".to_string()
        }
    });
    let r = run_with(&cfg, &client);
    assert_eq!(r.n_conflicts, 0);
    let e = &r.event_log[0];
    assert_eq!((e.round, e.actor, e.action.as_str(), e.target, e.publicity.as_str()),
        (0, 0, "message", Some(2), "secret"));
}
