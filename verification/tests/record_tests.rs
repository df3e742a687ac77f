use waragent_simulation::commands::{label_hash, scripted_war_reply, split_csv};
use waragent_simulation::record::{
    llm_provider, unit_id, ACTION_EVENT, DOMAIN, EXPERIMENT, REPO_ID, SWEEP_SCOPE,
};

#[test]
fn the_provider_comes_from_the_endpoint() {
    assert_eq!(llm_provider("mock://scripted"), "mock");
    assert_eq!(llm_provider("https://api.openai.com/v1"), "openai");
    assert_eq!(llm_provider("http://localhost:11434"), "ollama");
}

#[test]
fn record_names() {
    assert_eq!(EXPERIMENT, "waragent");
    assert_eq!(REPO_ID, "hua2024");
    assert_eq!(DOMAIN, "simulation");
    assert_eq!(SWEEP_SCOPE, "sweep");
    assert_eq!(ACTION_EVENT, "x.hua2024.action");
    assert_eq!(unit_id(3), "country-3");
    assert_eq!(unit_id(120), "country-120");
}

#[test]
fn split_csv_trims_and_drops_empty() {
    assert_eq!(
        split_csv("null, naval-incident,,dardanelles ,"),
        vec!["null", "naval-incident", "dardanelles"]
    );
    assert!(split_csv("").is_empty());
    assert!(split_csv(" , ,").is_empty());
    assert_eq!(split_csv("conservative"), vec!["conservative"]);
}

#[test]
fn label_hash_is_fnv1a() {
    assert_eq!(label_hash(""), 14695981039346656037);
    assert_eq!(label_hash("null"), 6601085983368743140);
    assert_eq!(label_hash("conservative"), 11719790696807449076);
    assert_eq!(label_hash("dardanelles"), 8568329608818627174);
    assert_ne!(label_hash("aggressive"), label_hash("conservative"));
}

#[test]
fn scripted_policy_reads_the_trigger() {
    let arch = "## Your country: Country A\n## Breaking event this round\nThe heir ... has been assassinated ...";
    assert!(scripted_war_reply(arch).contains("declare_war"));
    let b = "## Your country: Country B\nassassinated";
    assert_eq!(scripted_war_reply(b), "{\"action\": \"mobilize\"}");
    let d = "## Your country: Country A\nhas been blockaded";
    assert_eq!(scripted_war_reply(d), "{\"action\": \"mobilize\"}");
    let n = "## Your country: Country A\nA naval skirmish has occurred";
    assert_eq!(
        scripted_war_reply(n),
        "{\"action\": \"message\", \"target\": 2, \"publicity\": \"public\"}"
    );
    assert_eq!(scripted_war_reply("## Your country: Country A\n"), "{\"action\": \"wait\"}");
    // the secretary's check is echoed.
    let sec = "## Country: Country A\n\n## Proposed action\n  {\"action\":\"wait\"}  \n\n## Task\n";
    assert_eq!(scripted_war_reply(sec), "{\"action\":\"wait\"}");
}
