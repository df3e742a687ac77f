use waragent_simulation::board::Relation;
use waragent_simulation::config::{
    build_countries, initial_relations, parse_scenario, parse_stance, parse_trigger,
    scenario_country_count, wwi_specs, Config, Scenario, Trigger,
};
use waragent_simulation::world::Stance;

#[test]
fn wwi_has_eight_countries() {
    let (countries, boards) = build_countries(Scenario::Wwi, None);
    assert_eq!(countries.len(), 8);
    assert_eq!(boards.len(), 8);
    assert_eq!(countries[0].name, "Country A");
    assert_eq!(countries[7].name, "Country H");
}

#[test]
fn small_scenario_has_four() {
    let (countries, _) = build_countries(Scenario::WwiSmall, None);
    assert_eq!(countries.len(), 4);
}

#[test]
fn initial_alliances_are_symmetric() {
    let (_, boards) = build_countries(Scenario::Wwi, None);
    assert_eq!(boards[0].relation_to(1), Relation::Alliance);
    assert_eq!(boards[1].relation_to(0), Relation::Alliance);
}

#[test]
fn stance_override_applies() {
    let (countries, _) = build_countries(Scenario::Wwi, Some(Stance::Aggressive));
    assert!(countries.iter().all(|c| c.stance == Stance::Aggressive));
}

#[test]
fn stance_override_reaches_all_countries() {
    let (countries, _) = build_countries(Scenario::Wwi, Some(Stance::Conservative));
    assert!(countries.iter().all(|c| c.stance == Stance::Conservative));
}

#[test]
fn parse_helpers() {
    assert_eq!(parse_scenario("wwi").unwrap(), Scenario::Wwi);
    assert_eq!(parse_trigger("null").unwrap(), Trigger::Null);
    assert_eq!(parse_stance("aggressive").unwrap(), Stance::Aggressive);
    assert!(parse_trigger("bogus").is_err());
}

#[test]
fn parsing_trims_and_ignores_case() {
    assert_eq!(parse_scenario("  WWI-Small ").unwrap(), Scenario::WwiSmall);
    assert_eq!(parse_scenario("ww1").unwrap(), Scenario::Wwi);
    assert_eq!(parse_trigger(" Archduke").unwrap(), Trigger::ArchdukeAssassination);
    assert_eq!(parse_trigger("naval_incident").unwrap(), Trigger::NavalIncident);
    assert_eq!(parse_stance("Defensive").unwrap(), Stance::Conservative);
    assert_eq!(parse_stance("offensive").unwrap(), Stance::Aggressive);
}

#[test]
fn parse_errors_name_the_input() {
    assert_eq!(
        parse_scenario("ww3").unwrap_err(),
        "不正なシナリオ: \"ww3\" (wwi / wwi-small)"
    );
    assert_eq!(
        parse_trigger("bogus").unwrap_err(),
        "不正なトリガー: \"bogus\" (null / naval-incident / dardanelles / archduke-assassination)"
    );
    assert_eq!(
        parse_stance(" calm ").unwrap_err(),
        "不正なスタンス: \" calm \" (conservative / neutral / aggressive)"
    );
}

#[test]
fn labels_parse_back() {
    for s in [Scenario::Wwi, Scenario::WwiSmall] {
        assert_eq!(parse_scenario(s.label()).unwrap(), s);
    }
    for t in [
        Trigger::Null,
        Trigger::NavalIncident,
        Trigger::Dardanelles,
        Trigger::ArchdukeAssassination,
    ] {
        assert_eq!(parse_trigger(t.label()).unwrap(), t);
    }
    for s in [Stance::Conservative, Stance::Neutral, Stance::Aggressive] {
        assert_eq!(parse_stance(s.label()).unwrap(), s);
    }
}

#[test]
fn trigger_descriptions() {
    assert!(Trigger::Null.description().is_none());
    assert!(Trigger::ArchdukeAssassination
        .description()
        .unwrap()
        .contains("assassinated"));
    assert!(Trigger::Dardanelles.description().unwrap().contains("blockaded"));
    assert!(Trigger::NavalIncident
        .description()
        .unwrap()
        .starts_with("A naval skirmish has occurred"));
}

#[test]
fn country_counts_and_defaults() {
    assert_eq!(scenario_country_count(Scenario::Wwi), 8);
    assert_eq!(scenario_country_count(Scenario::WwiSmall), 4);
    let c = Config::default();
    assert_eq!(c.scenario, Scenario::Wwi);
    assert_eq!(c.trigger, Trigger::ArchdukeAssassination);
    assert_eq!(c.stance_override, None);
    assert_eq!(c.secretary_passes, 1);
    assert_eq!(c.rounds, 6);
    assert_eq!(c.war_threshold, 3);
    assert_eq!(c.seed, Some(42));
    assert_eq!(c.output_dir, "results");
}

#[test]
fn initial_treaties_are_written_both_ways() {
    let (countries, boards) = build_countries(Scenario::Wwi, None);
    for (a, b, rel) in initial_relations(Scenario::Wwi) {
        assert_eq!(boards[a as usize].relation_to(b), rel);
        assert_eq!(boards[b as usize].relation_to(a), rel);
    }
    // Country F (5) has no alliance; Country E (4) allies with C and H.
    assert!(boards[5].counterparts(Relation::Alliance).is_empty());
    assert_eq!(boards[4].counterparts(Relation::Alliance), vec![2, 7]);
    assert_eq!(boards[4].counterparts(Relation::NonAggression), vec![3]);
    // default stances and profiles come from the specs.
    let specs = wwi_specs();
    assert_eq!(countries[0].stance, Stance::Aggressive);
    assert_eq!(countries[2].stance, Stance::Conservative);
    assert_eq!(countries[4].stance, Stance::Neutral);
    assert_eq!(countries[3].profile.military, specs[3].military);
    assert!(countries.iter().all(|c| !c.stick.mobilized && c.memory.is_empty()));
}

#[test]
fn small_scenario_keeps_treaties_in_range() {
    let (_, boards) = build_countries(Scenario::WwiSmall, None);
    assert_eq!(boards.len(), 4);
    assert_eq!(boards[0].relation_to(1), Relation::Alliance);
    assert_eq!(boards[3].relation_to(2), Relation::NonAggression);
    assert!(boards.iter().all(|b| b.relations.keys().all(|o| *o < 4)));
}
