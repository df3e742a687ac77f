//! Run settings and the scenario data: the anonymized countries of the
//! First World War, their profiles and their initial treaties.

use vstd::prelude::*;

use crate::board::{Board, Relation};
use crate::mechanisms::{boards_ok, matrix_of, set_board_relation, set_both, RelMatrix};
use crate::text::{
    is_plain_key, key_of, lemma_plain_key, lower_seq, owned, push_str, seq_eq_str, trim,
};
use crate::world::{Country, Profile, Stance};

verus! {

/// The historical scenario.
#[derive(Clone, Copy, Debug, PartialEq, Eq, Structural)]
pub enum Scenario {
    /// The First World War (eight countries).
    Wwi,
    /// Its first four countries (a light smoke-test scenario).
    WwiSmall,
}

impl Scenario {
    pub open spec fn label_spec(self) -> Seq<char> {
        match self {
            Scenario::Wwi => "wwi"@,
            Scenario::WwiSmall => "wwi-small"@,
        }
    }

    pub fn label(&self) -> (r: &'static str)
        ensures
            r@ == self.label_spec(),
    {
        match self {
            Scenario::Wwi => "wwi",
            Scenario::WwiSmall => "wwi-small",
        }
    }
}

/// The scenario a (trimmed, lower-cased) name stands for.
pub open spec fn scenario_named(k: Seq<char>) -> Option<Scenario> {
    if k == "wwi"@ || k == "ww1"@ || k == "wwone"@ {
        Some(Scenario::Wwi)
    } else if k == "wwi-small"@ || k == "wwi_small"@ || k == "small"@ {
        Some(Scenario::WwiSmall)
    } else {
        None
    }
}

pub open spec fn scenario_error(s: Seq<char>) -> Seq<char> {
    "不正なシナリオ: \""@ + s + "\" (wwi / wwi-small)"@
}

/// Parses a scenario name (trimmed, case-insensitive).
pub fn parse_scenario(s: &str) -> (r: Result<Scenario, String>)
    ensures
        match r {
            Ok(x) => scenario_named(lower_seq(trim(s@))) == Some(x),
            Err(e) => scenario_named(lower_seq(trim(s@))) is None && e@ == scenario_error(s@),
        },
{
    let k = key_of(s);
    if seq_eq_str(&k, "wwi") || seq_eq_str(&k, "ww1") || seq_eq_str(&k, "wwone") {
        Ok(Scenario::Wwi)
    } else if seq_eq_str(&k, "wwi-small") || seq_eq_str(&k, "wwi_small") || seq_eq_str(
        &k,
        "small",
    ) {
        Ok(Scenario::WwiSmall)
    } else {
        let mut e = String::new();
        push_str(&mut e, "不正なシナリオ: \"");
        push_str(&mut e, s);
        push_str(&mut e, "\" (wwi / wwi-small)");
        Err(e)
    }
}

/// The breaking event injected in the first round.
#[derive(Clone, Copy, Debug, PartialEq, Eq, Structural)]
pub enum Trigger {
    /// No event.
    Null,
    /// A naval incident (low intensity).
    NavalIncident,
    /// A blockade of the straits (high intensity).
    Dardanelles,
    /// The assassination of an heir to a throne (the historical trigger).
    ArchdukeAssassination,
}

impl Trigger {
    pub open spec fn label_spec(self) -> Seq<char> {
        match self {
            Trigger::Null => "null"@,
            Trigger::NavalIncident => "naval-incident"@,
            Trigger::Dardanelles => "dardanelles"@,
            Trigger::ArchdukeAssassination => "archduke-assassination"@,
        }
    }

    pub open spec fn description_spec(self) -> Option<Seq<char>> {
        match self {
            Trigger::Null => None,
            Trigger::NavalIncident => Some(
                "A naval skirmish has occurred between two great powers in contested waters. Casualties are limited but the press is inflamed."@,
            ),
            Trigger::Dardanelles => Some(
                "A major strait controlling access to a great power's heartland has been blockaded, cutting off vital trade. The affected power demands immediate reversal."@,
            ),
            Trigger::ArchdukeAssassination => Some(
                "The heir to the throne of one of the great powers has been assassinated by a nationalist from a neighbouring state. An ultimatum is being drafted."@,
            ),
        }
    }

    pub fn label(&self) -> (r: &'static str)
        ensures
            r@ == self.label_spec(),
    {
        match self {
            Trigger::Null => "null",
            Trigger::NavalIncident => "naval-incident",
            Trigger::Dardanelles => "dardanelles",
            Trigger::ArchdukeAssassination => "archduke-assassination",
        }
    }

    /// The text shown in the first round (none for the null trigger). The
    /// countries are named anonymously.
    pub fn description(&self) -> (r: Option<&'static str>)
        ensures
            match r {
                Some(t) => self.description_spec() == Some(t@),
                None => self.description_spec() is None,
            },
    {
        match self {
            Trigger::Null => None,
            Trigger::NavalIncident => Some(
                "A naval skirmish has occurred between two great powers in contested waters. Casualties are limited but the press is inflamed.",
            ),
            Trigger::Dardanelles => Some(
                "A major strait controlling access to a great power's heartland has been blockaded, cutting off vital trade. The affected power demands immediate reversal.",
            ),
            Trigger::ArchdukeAssassination => Some(
                "The heir to the throne of one of the great powers has been assassinated by a nationalist from a neighbouring state. An ultimatum is being drafted.",
            ),
        }
    }
}

/// The trigger a (trimmed, lower-cased) name stands for.
pub open spec fn trigger_named(k: Seq<char>) -> Option<Trigger> {
    if k == "null"@ || k == "none"@ {
        Some(Trigger::Null)
    } else if k == "naval-incident"@ || k == "naval"@ || k == "naval_incident"@ {
        Some(Trigger::NavalIncident)
    } else if k == "dardanelles"@ {
        Some(Trigger::Dardanelles)
    } else if k == "archduke-assassination"@ || k == "archduke"@ || k == "assassination"@ {
        Some(Trigger::ArchdukeAssassination)
    } else {
        None
    }
}

pub open spec fn trigger_error(s: Seq<char>) -> Seq<char> {
    "不正なトリガー: \""@ + s + "\" (null / naval-incident / dardanelles / archduke-assassination)"@
}

/// Parses a trigger name (trimmed, case-insensitive).
pub fn parse_trigger(s: &str) -> (r: Result<Trigger, String>)
    ensures
        match r {
            Ok(x) => trigger_named(lower_seq(trim(s@))) == Some(x),
            Err(e) => trigger_named(lower_seq(trim(s@))) is None && e@ == trigger_error(s@),
        },
{
    let k = key_of(s);
    if seq_eq_str(&k, "null") || seq_eq_str(&k, "none") {
        Ok(Trigger::Null)
    } else if seq_eq_str(&k, "naval-incident") || seq_eq_str(&k, "naval") || seq_eq_str(
        &k,
        "naval_incident",
    ) {
        Ok(Trigger::NavalIncident)
    } else if seq_eq_str(&k, "dardanelles") {
        Ok(Trigger::Dardanelles)
    } else if seq_eq_str(&k, "archduke-assassination") || seq_eq_str(&k, "archduke")
        || seq_eq_str(&k, "assassination") {
        Ok(Trigger::ArchdukeAssassination)
    } else {
        let mut e = String::new();
        push_str(&mut e, "不正なトリガー: \"");
        push_str(&mut e, s);
        push_str(&mut e, "\" (null / naval-incident / dardanelles / archduke-assassination)");
        Err(e)
    }
}

/// The stance a (trimmed, lower-cased) name stands for.
pub open spec fn stance_named(k: Seq<char>) -> Option<Stance> {
    if k == "conservative"@ || k == "defensive"@ {
        Some(Stance::Conservative)
    } else if k == "neutral"@ {
        Some(Stance::Neutral)
    } else if k == "aggressive"@ || k == "offensive"@ {
        Some(Stance::Aggressive)
    } else {
        None
    }
}

pub open spec fn stance_error(s: Seq<char>) -> Seq<char> {
    "不正なスタンス: \""@ + s + "\" (conservative / neutral / aggressive)"@
}

/// Parses a stance name (trimmed, case-insensitive).
pub fn parse_stance(s: &str) -> (r: Result<Stance, String>)
    ensures
        match r {
            Ok(x) => stance_named(lower_seq(trim(s@))) == Some(x),
            Err(e) => stance_named(lower_seq(trim(s@))) is None && e@ == stance_error(s@),
        },
{
    let k = key_of(s);
    if seq_eq_str(&k, "conservative") || seq_eq_str(&k, "defensive") {
        Ok(Stance::Conservative)
    } else if seq_eq_str(&k, "neutral") {
        Ok(Stance::Neutral)
    } else if seq_eq_str(&k, "aggressive") || seq_eq_str(&k, "offensive") {
        Ok(Stance::Aggressive)
    } else {
        let mut e = String::new();
        push_str(&mut e, "不正なスタンス: \"");
        push_str(&mut e, s);
        push_str(&mut e, "\" (conservative / neutral / aggressive)");
        Err(e)
    }
}

/// The settings of one run.
#[derive(Clone, Debug)]
pub struct Config {
    pub scenario: Scenario,
    pub trigger: Trigger,
    /// A stance imposed on every country (none keeps the scenario's).
    pub stance_override: Option<Stance>,
    /// Secretary checks after each country's decision.
    pub secretary_passes: usize,
    /// Maximum number of rounds.
    pub rounds: usize,
    /// Number of conflict pairs at which war has broken out.
    pub war_threshold: usize,
    /// Random seed (none: chosen at random).
    pub seed: Option<u64>,
    /// Results directory.
    pub output_dir: String,
}

impl Default for Config {
    fn default() -> (r: Config)
        ensures
            r.scenario == Scenario::Wwi,
            r.trigger == Trigger::ArchdukeAssassination,
            r.stance_override is None,
            r.secretary_passes == 1,
            r.rounds == 6,
            r.war_threshold == 3,
            r.seed == Some(42u64),
            r.output_dir@ == "results"@,
    {
        Config {
            scenario: Scenario::Wwi,
            trigger: Trigger::ArchdukeAssassination,
            stance_override: None,
            secretary_passes: 1,
            rounds: 6,
            war_threshold: 3,
            seed: Some(42),
            output_dir: owned("results"),
        }
    }
}

pub open spec fn country_count_spec(scenario: Scenario) -> nat {
    match scenario {
        Scenario::Wwi => 8,
        Scenario::WwiSmall => 4,
    }
}

/// The number of countries of a scenario.
pub fn scenario_country_count(scenario: Scenario) -> (r: usize)
    ensures
        r == country_count_spec(scenario),
{
    match scenario {
        Scenario::Wwi => 8,
        Scenario::WwiSmall => 4,
    }
}

/// One anonymized country of a scenario.
#[derive(Clone, Copy, Debug)]
pub struct CountrySpec {
    pub name: &'static str,
    pub stance: Stance,
    pub leadership: &'static str,
    pub military: &'static str,
    pub resources: &'static str,
    pub history: &'static str,
    pub policy: &'static str,
    pub morale: &'static str,
}

/// A profile holding the texts of a country spec.
pub open spec fn profile_matches(p: Profile, c: CountrySpec) -> bool {
    &&& p.leadership@ == c.leadership@
    &&& p.military@ == c.military@
    &&& p.resources@ == c.resources@
    &&& p.history@ == c.history@
    &&& p.policy@ == c.policy@
    &&& p.morale@ == c.morale@
}

impl CountrySpec {
    /// The six-dimension profile.
    pub fn profile(&self) -> (p: Profile)
        ensures
            profile_matches(p, *self),
    {
        Profile {
            leadership: owned(self.leadership),
            military: owned(self.military),
            resources: owned(self.resources),
            history: owned(self.history),
            policy: owned(self.policy),
            morale: owned(self.morale),
        }
    }
}

/// The eight anonymized countries A..H of the First World War.
pub open spec fn wwi_specs_spec() -> Seq<CountrySpec> {
    seq![
        CountrySpec {
            name: "Country A",
            stance: Stance::Aggressive,
            leadership: "A centralized monarchy with an assertive general staff.",
            military: "The strongest standing army on the continent, highly mechanized for the era.",
            resources: "An advanced industrial base but limited overseas supply lines.",
            history: "A long rivalry and a disputed border province with Country C.",
            policy: "Seeks to secure its position before rivals encircle it.",
            morale: "High; the public is confident and nationalistic.",
        },
        CountrySpec {
            name: "Country B",
            stance: Stance::Aggressive,
            leadership: "A multi-ethnic empire ruled by an aging court.",
            military: "Large but unevenly equipped; internal nationalities strain cohesion.",
            resources: "Moderate; agrarian heartland with some industry.",
            history: "Bitter friction with neighbouring Country H over border nationalism.",
            policy: "Wants to punish Country H and preserve imperial prestige.",
            morale: "Mixed across its many nationalities.",
        },
        CountrySpec {
            name: "Country C",
            stance: Stance::Conservative,
            leadership: "A republic with a cautious but proud government.",
            military: "A strong army oriented toward defending its eastern border.",
            resources: "Solid industry and a global colonial supply network.",
            history: "Lost a border province to Country A in a past war; deep resentment remains.",
            policy: "Defensive, but will honour its alliance commitments.",
            morale: "Determined, with a desire to recover lost territory.",
        },
        CountrySpec {
            name: "Country D",
            stance: Stance::Conservative,
            leadership: "A constitutional government with a powerful navy ministry.",
            military: "The dominant naval power; a small but professional army.",
            resources: "Vast colonial and maritime resources.",
            history: "Wary of any single power dominating the continent.",
            policy: "Balance-of-power; intervenes if a rival grows too strong or a neutral is invaded.",
            morale: "Steady and confident in naval supremacy.",
        },
        CountrySpec {
            name: "Country E",
            stance: Stance::Neutral,
            leadership: "A vast autocratic empire with a slow-moving bureaucracy.",
            military: "Enormous manpower but poor logistics and equipment.",
            resources: "Abundant raw materials, weak industrialization.",
            history: "Sees itself as protector of smaller kindred states such as Country H.",
            policy: "Will mobilize to defend client states it patronises.",
            morale: "Fragile; domestic unrest simmers beneath patriotism.",
        },
        CountrySpec {
            name: "Country F",
            stance: Stance::Neutral,
            leadership: "A young kingdom balancing rival blocs opportunistically.",
            military: "Modest; modernizing but not first-rate.",
            resources: "Limited industry; dependent on imports.",
            history: "Nominal ties to Country A and B but unresolved claims against Country B.",
            policy: "Joins whichever side best serves its territorial ambitions.",
            morale: "Eager for gains but cautious of overreach.",
        },
        CountrySpec {
            name: "Country G",
            stance: Stance::Neutral,
            leadership: "A reforming empire seeking to halt its decline.",
            military: "Weakened but controls strategic straits.",
            resources: "Strained; geography gives it leverage over trade routes.",
            history: "Long enmity with Country E over territory and straits.",
            policy: "Aligns with whoever can guarantee its integrity against Country E.",
            morale: "Anxious but proud.",
        },
        CountrySpec {
            name: "Country H",
            stance: Stance::Aggressive,
            leadership: "A small assertive kingdom riding a wave of nationalism.",
            military: "Small but battle-hardened.",
            resources: "Scarce; relies on a great-power patron (Country E).",
            history: "Aspires to unite kindred peoples currently under Country B's rule.",
            policy: "Defiant toward Country B; counts on Country E's protection.",
            morale: "Fervent and defiant.",
        }
    ]
}

/// The eight anonymized countries A..H of the First World War (profiles
/// and default stances).
pub fn wwi_specs() -> (r: Vec<CountrySpec>)
    ensures
        r@ == wwi_specs_spec(),
{
    let mut v: Vec<CountrySpec> = Vec::new();
    v.push(
        CountrySpec {
            name: "Country A",
            stance: Stance::Aggressive,
            leadership: "A centralized monarchy with an assertive general staff.",
            military: "The strongest standing army on the continent, highly mechanized for the era.",
            resources: "An advanced industrial base but limited overseas supply lines.",
            history: "A long rivalry and a disputed border province with Country C.",
            policy: "Seeks to secure its position before rivals encircle it.",
            morale: "High; the public is confident and nationalistic.",
        },
    );
    v.push(
        CountrySpec {
            name: "Country B",
            stance: Stance::Aggressive,
            leadership: "A multi-ethnic empire ruled by an aging court.",
            military: "Large but unevenly equipped; internal nationalities strain cohesion.",
            resources: "Moderate; agrarian heartland with some industry.",
            history: "Bitter friction with neighbouring Country H over border nationalism.",
            policy: "Wants to punish Country H and preserve imperial prestige.",
            morale: "Mixed across its many nationalities.",
        },
    );
    v.push(
        CountrySpec {
            name: "Country C",
            stance: Stance::Conservative,
            leadership: "A republic with a cautious but proud government.",
            military: "A strong army oriented toward defending its eastern border.",
            resources: "Solid industry and a global colonial supply network.",
            history: "Lost a border province to Country A in a past war; deep resentment remains.",
            policy: "Defensive, but will honour its alliance commitments.",
            morale: "Determined, with a desire to recover lost territory.",
        },
    );
    v.push(
        CountrySpec {
            name: "Country D",
            stance: Stance::Conservative,
            leadership: "A constitutional government with a powerful navy ministry.",
            military: "The dominant naval power; a small but professional army.",
            resources: "Vast colonial and maritime resources.",
            history: "Wary of any single power dominating the continent.",
            policy: "Balance-of-power; intervenes if a rival grows too strong or a neutral is invaded.",
            morale: "Steady and confident in naval supremacy.",
        },
    );
    v.push(
        CountrySpec {
            name: "Country E",
            stance: Stance::Neutral,
            leadership: "A vast autocratic empire with a slow-moving bureaucracy.",
            military: "Enormous manpower but poor logistics and equipment.",
            resources: "Abundant raw materials, weak industrialization.",
            history: "Sees itself as protector of smaller kindred states such as Country H.",
            policy: "Will mobilize to defend client states it patronises.",
            morale: "Fragile; domestic unrest simmers beneath patriotism.",
        },
    );
    v.push(
        CountrySpec {
            name: "Country F",
            stance: Stance::Neutral,
            leadership: "A young kingdom balancing rival blocs opportunistically.",
            military: "Modest; modernizing but not first-rate.",
            resources: "Limited industry; dependent on imports.",
            history: "Nominal ties to Country A and B but unresolved claims against Country B.",
            policy: "Joins whichever side best serves its territorial ambitions.",
            morale: "Eager for gains but cautious of overreach.",
        },
    );
    v.push(
        CountrySpec {
            name: "Country G",
            stance: Stance::Neutral,
            leadership: "A reforming empire seeking to halt its decline.",
            military: "Weakened but controls strategic straits.",
            resources: "Strained; geography gives it leverage over trade routes.",
            history: "Long enmity with Country E over territory and straits.",
            policy: "Aligns with whoever can guarantee its integrity against Country E.",
            morale: "Anxious but proud.",
        },
    );
    v.push(
        CountrySpec {
            name: "Country H",
            stance: Stance::Aggressive,
            leadership: "A small assertive kingdom riding a wave of nationalism.",
            military: "Small but battle-hardened.",
            resources: "Scarce; relies on a great-power patron (Country E).",
            history: "Aspires to unite kindred peoples currently under Country B's rule.",
            policy: "Defiant toward Country B; counts on Country E's protection.",
            morale: "Fervent and defiant.",
        },
    );
    assert(v@ =~= wwi_specs_spec());
    v
}

/// The initial treaties (both directions): alliances (M) and
/// non-aggression treaties (T).
pub open spec fn initial_relations_spec(scenario: Scenario) -> Seq<(u64, u64, Relation)> {
    match scenario {
        Scenario::Wwi => seq![
            (0u64, 1u64, Relation::Alliance),
            (1u64, 5u64, Relation::NonAggression),
            (2u64, 3u64, Relation::Alliance),
            (2u64, 4u64, Relation::Alliance),
            (3u64, 4u64, Relation::NonAggression),
            (4u64, 7u64, Relation::Alliance),
            (0u64, 6u64, Relation::NonAggression),
        ],
        Scenario::WwiSmall => seq![
            (0u64, 1u64, Relation::Alliance),
            (2u64, 3u64, Relation::NonAggression),
        ],
    }
}

/// The initial treaties of a scenario.
pub fn initial_relations(scenario: Scenario) -> (r: Vec<(u64, u64, Relation)>)
    ensures
        r@ == initial_relations_spec(scenario),
{
    let mut v: Vec<(u64, u64, Relation)> = Vec::new();
    match scenario {
        Scenario::Wwi => {
            v.push((0, 1, Relation::Alliance));
            v.push((1, 5, Relation::NonAggression));
            v.push((2, 3, Relation::Alliance));
            v.push((2, 4, Relation::Alliance));
            v.push((3, 4, Relation::NonAggression));
            v.push((4, 7, Relation::Alliance));
            v.push((0, 6, Relation::NonAggression));
        },
        Scenario::WwiSmall => {
            v.push((0, 1, Relation::Alliance));
            v.push((2, 3, Relation::NonAggression));
        },
    }
    assert(v@ =~= initial_relations_spec(scenario));
    v
}

/// Peace between every pair.
pub open spec fn peace_matrix() -> RelMatrix {
    |a: u64, b: u64| Relation::Peace
}

/// The relations after writing each treaty among countries `0..n` in both
/// directions, in order.
pub open spec fn initial_matrix(rels: Seq<(u64, u64, Relation)>, n: nat) -> RelMatrix
    decreases rels.len(),
{
    if rels.len() == 0 {
        peace_matrix()
    } else {
        let m = initial_matrix(rels.drop_last(), n);
        let t = rels.last();
        if t.0 < n && t.1 < n {
            set_both(m, t.0, t.1, t.2)
        } else {
            m
        }
    }
}

/// The countries of a scenario, by id, as built by [`build_countries`].
pub open spec fn scenario_country(scenario: Scenario, stance_override: Option<Stance>, i: int, c: Country) -> bool {
    let sp = wwi_specs_spec()[i];
    &&& c.name@ == sp.name@
    &&& profile_matches(c.profile, sp)
    &&& c.stance == (match stance_override {
        Some(s) => s,
        None => sp.stance,
    })
    &&& !c.stick.mobilized
    &&& c.memory@.len() == 0
}

/// The countries of a scenario and their boards, by id: the first `n`
/// anonymized countries (with the stance override, if any) and boards
/// holding the scenario's initial treaties in both directions.
pub fn build_countries(scenario: Scenario, stance_override: Option<Stance>) -> (r: (Vec<Country>, Vec<Board>))
    ensures
        r.0@.len() == country_count_spec(scenario),
        forall|i: int| 0 <= i < r.0@.len() ==> scenario_country(scenario, stance_override, i, #[trigger] r.0@[i]),
        boards_ok(r.1@, country_count_spec(scenario)),
        matrix_of(r.1@) == initial_matrix(initial_relations_spec(scenario), country_count_spec(scenario)),
{
    let specs = wwi_specs();
    let n = scenario_country_count(scenario);
    let mut countries: Vec<Country> = Vec::new();
    let mut boards: Vec<Board> = Vec::new();
    let mut i: usize = 0;
    while i < n
        invariant
            n == country_count_spec(scenario),
            n <= 8,
            specs@ == wwi_specs_spec(),
            0 <= i <= n,
            countries@.len() == i,
            boards@.len() == i,
            forall|j: int| 0 <= j < i ==> scenario_country(scenario, stance_override, j, #[trigger] countries@[j]),
            forall|j: int| 0 <= j < i ==> (#[trigger] boards@[j]).owner == j && boards@[j].wf()
                && boards@[j].entries().len() == 0,
        decreases n - i,
    {
        let sp = specs[i];
        let stance = match stance_override {
            Some(s) => s,
            None => sp.stance,
        };
        let c = Country::new(owned(sp.name), sp.profile(), stance);
        countries.push(c);
        boards.push(Board::new(i as u64));
        i = i + 1;
    }
    proof {
        assert forall|a: u64, b: u64| #[trigger] matrix_of(boards@)(a, b) == peace_matrix()(a, b) by {
            if a < boards@.len() {
                crate::board::lemma_rel_absent(boards@[a as int].entries(), b);
            }
        }
        assert(matrix_of(boards@) =~= peace_matrix());
        assert(boards_ok(boards@, n as nat));
    }
    let rels = initial_relations(scenario);
    let mut k: usize = 0;
    while k < rels.len()
        invariant
            n == country_count_spec(scenario),
            boards@.len() == n,
            rels@ == initial_relations_spec(scenario),
            boards_ok(boards@, n as nat),
            0 <= k <= rels@.len(),
            matrix_of(boards@) == initial_matrix(rels@.take(k as int), n as nat),
        decreases rels@.len() - k,
    {
        let (a, b, rel) = rels[k];
        assert(rels@.take(k + 1).drop_last() =~= rels@.take(k as int));
        assert(rels@.take(k + 1).last() == (a, b, rel));
        if a < n as u64 && b < n as u64 {
            set_board_relation(&mut boards, a, b, rel);
            set_board_relation(&mut boards, b, a, rel);
        }
        k = k + 1;
    }
    assert(rels@.take(rels@.len() as int) =~= rels@);
    (countries, boards)
}


/// Every treaty of the initial relations holds in both directions: the
/// relation `a` records toward `b` is the one `b` records toward `a`.
pub proof fn lemma_initial_symmetric(rels: Seq<(u64, u64, Relation)>, n: nat)
    ensures
        forall|a: u64, b: u64| #[trigger] initial_matrix(rels, n)(a, b) == initial_matrix(rels, n)(b, a),
    decreases rels.len(),
{
    if rels.len() > 0 {
        lemma_initial_symmetric(rels.drop_last(), n);
        let m = initial_matrix(rels.drop_last(), n);
        assert forall|a: u64, b: u64| #[trigger] initial_matrix(rels, n)(a, b) == initial_matrix(
            rels,
            n,
        )(b, a) by {
            assert(m(a, b) == m(b, a));
        }
    }
}

proof fn lemma_plain_lit(s: Seq<char>)
    requires
        forall|i: int|
            0 <= i < s.len() ==> (('a' <= #[trigger] s[i] && s[i] <= 'z') || s[i] == '-' || s[i]
                == '_'),
    ensures
        lower_seq(trim(s)) == s,
{
    lemma_plain_key(s);
}

/// A scenario's label parses back to the scenario.
pub proof fn lemma_scenario_label_parses(x: Scenario)
    ensures
        scenario_named(lower_seq(trim(x.label_spec()))) == Some(x),
{
    reveal_strlit("wwi");
    reveal_strlit("ww1");
    reveal_strlit("wwone");
    reveal_strlit("wwi-small");
    reveal_strlit("wwi_small");
    reveal_strlit("small");
    match x {
        Scenario::Wwi => {
            reveal_strlit("wwi");
            let s = "wwi"@;
            assert forall|i: int| 0 <= i < s.len() implies (('a' <= #[trigger] s[i] && s[i] <= 'z')
                || s[i] == '-' || s[i] == '_') by {}
            lemma_plain_lit(s);
        },
        Scenario::WwiSmall => {
            reveal_strlit("wwi-small");
            let s = "wwi-small"@;
            assert forall|i: int| 0 <= i < s.len() implies (('a' <= #[trigger] s[i] && s[i] <= 'z')
                || s[i] == '-' || s[i] == '_') by {}
            lemma_plain_lit(s);
        },
    }
}

/// A trigger's label parses back to the trigger.
pub proof fn lemma_trigger_label_parses(x: Trigger)
    ensures
        trigger_named(lower_seq(trim(x.label_spec()))) == Some(x),
{
    reveal_strlit("null");
    reveal_strlit("none");
    reveal_strlit("naval-incident");
    reveal_strlit("naval");
    reveal_strlit("naval_incident");
    reveal_strlit("dardanelles");
    reveal_strlit("archduke-assassination");
    reveal_strlit("archduke");
    reveal_strlit("assassination");
    match x {
        Trigger::Null => {
            reveal_strlit("null");
            let s = "null"@;
            assert forall|i: int| 0 <= i < s.len() implies (('a' <= #[trigger] s[i] && s[i] <= 'z')
                || s[i] == '-' || s[i] == '_') by {}
            lemma_plain_lit(s);
        },
        Trigger::NavalIncident => {
            reveal_strlit("naval-incident");
            let s = "naval-incident"@;
            assert forall|i: int| 0 <= i < s.len() implies (('a' <= #[trigger] s[i] && s[i] <= 'z')
                || s[i] == '-' || s[i] == '_') by {}
            lemma_plain_lit(s);
        },
        Trigger::Dardanelles => {
            reveal_strlit("dardanelles");
            let s = "dardanelles"@;
            assert forall|i: int| 0 <= i < s.len() implies (('a' <= #[trigger] s[i] && s[i] <= 'z')
                || s[i] == '-' || s[i] == '_') by {}
            lemma_plain_lit(s);
        },
        Trigger::ArchdukeAssassination => {
            reveal_strlit("archduke-assassination");
            let s = "archduke-assassination"@;
            assert forall|i: int| 0 <= i < s.len() implies (('a' <= #[trigger] s[i] && s[i] <= 'z')
                || s[i] == '-' || s[i] == '_') by {}
            lemma_plain_lit(s);
        },
    }
}

/// A stance's label parses back to the stance.
pub proof fn lemma_stance_label_parses(x: Stance)
    ensures
        stance_named(lower_seq(trim(x.label_spec()))) == Some(x),
{
    reveal_strlit("conservative");
    reveal_strlit("defensive");
    reveal_strlit("neutral");
    reveal_strlit("aggressive");
    reveal_strlit("offensive");
    match x {
        Stance::Conservative => {
            reveal_strlit("conservative");
            let s = "conservative"@;
            assert forall|i: int| 0 <= i < s.len() implies (('a' <= #[trigger] s[i] && s[i] <= 'z')
                || s[i] == '-' || s[i] == '_') by {}
            lemma_plain_lit(s);
        },
        Stance::Neutral => {
            reveal_strlit("neutral");
            let s = "neutral"@;
            assert forall|i: int| 0 <= i < s.len() implies (('a' <= #[trigger] s[i] && s[i] <= 'z')
                || s[i] == '-' || s[i] == '_') by {}
            lemma_plain_lit(s);
        },
        Stance::Aggressive => {
            reveal_strlit("aggressive");
            let s = "aggressive"@;
            assert forall|i: int| 0 <= i < s.len() implies (('a' <= #[trigger] s[i] && s[i] <= 'z')
                || s[i] == '-' || s[i] == '_') by {}
            lemma_plain_lit(s);
        },
    }
}

/// The treaty a scenario starts with between `a` and `b`, in either order:
/// WWI has the alliances A-B, C-D, C-E, E-H and the non-aggression
/// treaties B-F, D-E, A-G; its small version has A-B (alliance) and C-D
/// (non-aggression); every other pair is at peace.
pub open spec fn treaty_between(scenario: Scenario, a: u64, b: u64) -> Relation {
    let lo = if a <= b { a } else { b };
    let hi = if a <= b { b } else { a };
    match scenario {
        Scenario::Wwi => if (lo == 0 && hi == 1) || (lo == 2 && hi == 3) || (lo == 2 && hi == 4) || (
        lo == 4 && hi == 7) {
            Relation::Alliance
        } else if (lo == 1 && hi == 5) || (lo == 3 && hi == 4) || (lo == 0 && hi == 6) {
            Relation::NonAggression
        } else {
            Relation::Peace
        },
        Scenario::WwiSmall => if lo == 0 && hi == 1 {
            Relation::Alliance
        } else if lo == 2 && hi == 3 {
            Relation::NonAggression
        } else {
            Relation::Peace
        },
    }
}

/// A scenario's initial boards hold exactly its treaty table, each treaty
/// in both directions and every other pair at peace.
pub proof fn lemma_initial_treaties(scenario: Scenario)
    ensures
        forall|a: u64, b: u64|
            #[trigger] initial_matrix(initial_relations_spec(scenario), country_count_spec(scenario))(
                a,
                b,
            ) == treaty_between(scenario, a, b),
{
    reveal_with_fuel(initial_matrix, 8);
}

} // verus!
