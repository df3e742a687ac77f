//! A run is determined by its answers: states that agree on everything a
//! later step reads stay in agreement step by step, so two runs with the
//! same settings whose prompts get the same answers have the same outcome.

use vstd::prelude::*;

use crate::board::{lemma_entries_eq, Board};
use crate::config::Config;
use crate::mechanisms::{
    boards_ok, event_view, matrix_of, memory_view, world_names,
};
use crate::metrics::{mobilized_spec, war_pair_spec, RoundCounts};
use crate::partition::{alliance_step, cluster_count, cluster_head};
use crate::simulation::{run_over, run_step, run_trace, Simulation, SimulationResult};
use crate::world::{is_war_pair, rel_of, Country, Event, RoundClock, WarWorld};

verus! {

/// The same boards: owners and entries.
pub open spec fn boards_same(b1: Seq<Board>, b2: Seq<Board>) -> bool {
    &&& b1.len() == b2.len()
    &&& forall|i: int|
        0 <= i < b1.len() ==> (#[trigger] b1[i]).owner == b2[i].owner && b1[i].entries()
            == b2[i].entries()
}

/// The same country, as far as any step reads it.
pub open spec fn country_same(c1: Country, c2: Country) -> bool {
    &&& c1.name@ == c2.name@
    &&& c1.profile.leadership@ == c2.profile.leadership@
    &&& c1.profile.military@ == c2.profile.military@
    &&& c1.profile.resources@ == c2.profile.resources@
    &&& c1.profile.history@ == c2.profile.history@
    &&& c1.profile.policy@ == c2.profile.policy@
    &&& c1.profile.morale@ == c2.profile.morale@
    &&& c1.stance == c2.stance
    &&& c1.stick.mobilized == c2.stick.mobilized
    &&& memory_view(c1) == memory_view(c2)
}

pub open spec fn opt_view(t: Option<String>) -> Option<Seq<char>> {
    match t {
        Some(s) => Some(s@),
        None => None,
    }
}

/// The same world, as far as any step reads it.
pub open spec fn world_same(w1: WarWorld, w2: WarWorld) -> bool {
    &&& w1.clock == w2.clock
    &&& w1.round == w2.round
    &&& w1.trigger_injected == w2.trigger_injected
    &&& opt_view(w1.trigger) == opt_view(w2.trigger)
    &&& w1.countries@.len() == w2.countries@.len()
    &&& forall|i: int|
        0 <= i < w1.countries@.len() ==> country_same(#[trigger] w1.countries@[i], w2.countries@[i])
    &&& boards_same(w1.boards@, w2.boards@)
    &&& w1.pending_actions@ == w2.pending_actions@
    &&& w1.inbox@.len() == w2.inbox@.len()
    &&& forall|c: int| 0 <= c < w1.inbox@.len() ==> (#[trigger] w1.inbox@[c])@ == w2.inbox@[c]@
    &&& w1.event_log@.map_values(|e: Event| event_view(e)) == w2.event_log@.map_values(
        |e: Event| event_view(e),
    )
}

/// The same counts (the order of the listed clusters aside).
pub open spec fn counts_same(a: RoundCounts, b: RoundCounts) -> bool {
    &&& a.round == b.round
    &&& a.n_conflicts == b.n_conflicts
    &&& a.n_mobilized == b.n_mobilized
    &&& a.n_alliance_clusters == b.n_alliance_clusters
    &&& a.war_outbreak == b.war_outbreak
    &&& a.declaration_common == b.declaration_common
    &&& a.mobilization_common == b.mobilization_common
}

pub open spec fn history_same(h1: Seq<RoundCounts>, h2: Seq<RoundCounts>) -> bool {
    &&& h1.len() == h2.len()
    &&& forall|i: int| 0 <= i < h1.len() ==> counts_same(#[trigger] h1[i], h2[i])
}

/// The same run state, as far as any later step or the outcome reads it.
pub open spec fn sim_same(a: Simulation, b: Simulation) -> bool {
    &&& world_same(a.world, b.world)
    &&& a.rounds == b.rounds
    &&& a.war_threshold == b.war_threshold
    &&& a.decision == b.decision
    &&& a.board_update == b.board_update
    &&& a.initial_clusters == b.initial_clusters
    &&& history_same(a.history@, b.history@)
    &&& a.escalation_round == b.escalation_round
    &&& a.final_round == b.final_round
    &&& a.stopped == b.stopped
    &&& a.in_round == b.in_round
    &&& a.contexts@.len() == b.contexts@.len()
    &&& forall|i: int| 0 <= i < a.contexts@.len() ==> (#[trigger] a.contexts@[i])@ == b.contexts@[i]@
    &&& a.decided@ == b.decided@
    &&& a.answers == b.answers
    &&& a.current == b.current
}

/// The same outcome.
pub open spec fn results_same(r1: SimulationResult, r2: SimulationResult) -> bool {
    &&& history_same(r1.metrics_history@, r2.metrics_history@)
    &&& r1.event_log@.map_values(|e: Event| event_view(e)) == r2.event_log@.map_values(
        |e: Event| event_view(e),
    )
    &&& r1.final_round == r2.final_round
    &&& r1.war_outbreak == r2.war_outbreak
    &&& r1.escalation_round == r2.escalation_round
    &&& r1.n_conflicts == r2.n_conflicts
    &&& r1.cold_war_flag == r2.cold_war_flag
}

proof fn lemma_matrix_same(b1: Seq<Board>, b2: Seq<Board>)
    requires
        boards_same(b1, b2),
    ensures
        matrix_of(b1) == matrix_of(b2),
        forall|a: u64, b: u64| #[trigger] rel_of(b1, a, b) == rel_of(b2, a, b),
{
    assert forall|a: u64, b: u64| #[trigger] rel_of(b1, a, b) == rel_of(b2, a, b) by {
        if a < b1.len() {
            assert(b1[a as int].entries() == b2[a as int].entries());
        }
    }
    assert(matrix_of(b1) =~= matrix_of(b2));
}

proof fn lemma_boards_from_matrix(b1: Seq<Board>, b2: Seq<Board>, n: nat)
    requires
        boards_ok(b1, n),
        boards_ok(b2, n),
        matrix_of(b1) == matrix_of(b2),
    ensures
        boards_same(b1, b2),
{
    assert forall|i: int| 0 <= i < b1.len() implies (#[trigger] b1[i]).owner == b2[i].owner
        && b1[i].entries() == b2[i].entries() by {
        assert(b1[i].wf() && b2[i].wf());
        assert forall|k: u64| #[trigger] crate::board::rel_in(b1[i].entries(), k)
            == crate::board::rel_in(b2[i].entries(), k) by {
            let m1 = matrix_of(b1);
            let m2 = matrix_of(b2);
            assert(m1(i as u64, k) == rel_of(b1, i as u64, k));
            assert(m2(i as u64, k) == rel_of(b2, i as u64, k));
            assert(m1(i as u64, k) == m2(i as u64, k));
            assert(b1[(i as u64) as int] == b1[i]);
            assert(b2[(i as u64) as int] == b2[i]);
        }
        lemma_entries_eq(b1[i].entries(), b2[i].entries());
    }
}

/// Worlds with the same boards have the same conflicts, mobilizations and
/// number of alliance clusters.
proof fn lemma_world_counts_same(w1: WarWorld, w2: WarWorld)
    requires
        world_same(w1, w2),
    ensures
        war_pair_spec(&w1) == war_pair_spec(&w2),
        mobilized_spec(&w1) == mobilized_spec(&w2),
        cluster_count(w1.boards@) == cluster_count(w2.boards@),
{
    lemma_matrix_same(w1.boards@, w2.boards@);
    assert forall|p: (u64, u64)| #[trigger] is_war_pair(w1.boards@, p) == is_war_pair(w2.boards@, p) by {
        assert(rel_of(w1.boards@, p.0, p.1) == rel_of(w2.boards@, p.0, p.1));
        assert(rel_of(w1.boards@, p.1, p.0) == rel_of(w2.boards@, p.1, p.0));
    }
    assert(war_pair_spec(&w1) =~= war_pair_spec(&w2));
    assert forall|x: u64| #[trigger] mobilized_spec(&w1).contains(x) == mobilized_spec(&w2).contains(x) by {
        if x < w1.n() {
            assert(country_same(w1.countries@[x as int], w2.countries@[x as int]));
        }
    }
    assert(mobilized_spec(&w1) =~= mobilized_spec(&w2));
    assert forall|a: u64, b: u64| #[trigger] alliance_step(w1.boards@)(a, b) == alliance_step(w2.boards@)(a, b) by {
        assert(rel_of(w1.boards@, a, b) == rel_of(w2.boards@, a, b));
        assert(rel_of(w1.boards@, b, a) == rel_of(w2.boards@, b, a));
    }
    assert(alliance_step(w1.boards@) =~= alliance_step(w2.boards@));
    let b1 = w1.boards@;
    let b2 = w2.boards@;
    assert(b1.len() == b2.len());
    assert forall|x: u64| cluster_head(b1, x) implies #[trigger] cluster_head(b2, x) by {
        assert forall|y: u64| y < b2.len() && #[trigger] crate::partition::allied(b2, x, y) implies x
            <= y by {
            assert(crate::partition::allied(b1, x, y));
        }
    }
    assert forall|x: u64| cluster_head(b2, x) implies #[trigger] cluster_head(b1, x) by {
        assert forall|y: u64| y < b1.len() && #[trigger] crate::partition::allied(b1, x, y) implies x
            <= y by {
            assert(crate::partition::allied(b2, x, y));
        }
    }
    assert(Set::new(|x: u64| cluster_head(w1.boards@, x)) =~= Set::new(
        |x: u64| cluster_head(w2.boards@, x),
    ));
}

proof fn lemma_names_same(w1: WarWorld, w2: WarWorld)
    requires
        world_same(w1, w2),
    ensures
        world_names(&w1) == world_names(&w2),
{
    assert forall|i: int| 0 <= i < world_names(&w1).len() implies world_names(&w1)[i] == world_names(
        &w2,
    )[i] by {
        assert(country_same(w1.countries@[i], w2.countries@[i]));
    }
    assert(world_names(&w1) =~= world_names(&w2));
}

/// Two starts from the same settings agree.
proof fn lemma_start_same(cfg: &Config, a: Simulation, b: Simulation)
    requires
        a.started_from(cfg),
        b.started_from(cfg),
    ensures
        sim_same(a, b),
{
    let n = crate::config::country_count_spec(cfg.scenario);
    assert forall|i: int| 0 <= i < a.world.countries@.len() implies country_same(
        #[trigger] a.world.countries@[i],
        b.world.countries@[i],
    ) by {
        assert(crate::config::scenario_country(cfg.scenario, cfg.stance_override, i, a.world.countries@[i]));
        assert(crate::config::scenario_country(cfg.scenario, cfg.stance_override, i, b.world.countries@[i]));
        assert(memory_view(a.world.countries@[i]) =~= memory_view(b.world.countries@[i]));
    }
    lemma_boards_from_matrix(a.world.boards@, b.world.boards@, n);
    assert forall|c: int| 0 <= c < a.world.inbox@.len() implies (#[trigger] a.world.inbox@[c])@
        == b.world.inbox@[c]@ by {
        assert(a.world.inbox@[c]@ =~= b.world.inbox@[c]@);
    }
    assert(a.world.pending_actions@ =~= b.world.pending_actions@);
    assert(a.world.event_log@.map_values(|e: Event| event_view(e)) =~= b.world.event_log@.map_values(
        |e: Event| event_view(e),
    ));
    assert(a.decided@ =~= b.decided@);
    assert(world_same(a.world, b.world));
    lemma_world_counts_same(a.world, b.world);
}


/// Starting a round from agreeing states gives agreeing states.
proof fn lemma_begun_same(a1: Simulation, a2: Simulation, b1: Simulation, b2: Simulation)
    requires
        sim_same(a1, a2),
        a1.begun(&b1),
        a2.begun(&b2),
    ensures
        sim_same(b1, b2),
{
    let w01 = WarWorld {
        clock: RoundClock { t: (a1.world.clock.t + 1) as u64, max_steps: a1.world.clock.max_steps },
        ..a1.world
    };
    let w02 = WarWorld {
        clock: RoundClock { t: (a2.world.clock.t + 1) as u64, max_steps: a2.world.clock.max_steps },
        ..a2.world
    };
    lemma_names_same(a1.world, a2.world);
    assert(world_names(&w01) == world_names(&a1.world));
    assert(world_names(&w02) == world_names(&a2.world));
    assert forall|i: int| 0 <= i < b1.contexts@.len() implies (#[trigger] b1.contexts@[i])@
        == b2.contexts@[i]@ by {
        assert(country_same(a1.world.countries@[i], a2.world.countries@[i]));
        assert(a1.world.boards@[i].entries() == a2.world.boards@[i].entries());
    }
    assert(b1.world.pending_actions@ =~= b2.world.pending_actions@);
    assert(b1.decided@ =~= b2.decided@);
    assert(world_same(b1.world, b2.world));
}

/// Agreeing states show the same prompt.
proof fn lemma_prompt_same(a1: Simulation, a2: Simulation)
    requires
        sim_same(a1, a2),
        a1.inv(),
        a1.awaiting(),
    ensures
        a1.prompt_text() == a2.prompt_text(),
        a1.valid_ids() == a2.valid_ids(),
{
    lemma_names_same(a1.world, a2.world);
    let k = a1.actor() as int;
    assert(country_same(a1.world.countries@[k], a2.world.countries@[k]));
    assert(a1.world.inbox@[k]@ == a2.world.inbox@[k]@);
    assert(a1.contexts@[k]@ == a2.contexts@[k]@);
}

/// Handing the same answer to agreeing states gives agreeing states.
proof fn lemma_answered_same(
    a1: Simulation,
    a2: Simulation,
    text: Seq<char>,
    b1: Simulation,
    b2: Simulation,
)
    requires
        sim_same(a1, a2),
        a1.inv(),
        a1.awaiting(),
        a1.answered(text, &b1),
        a2.answered(text, &b2),
    ensures
        sim_same(b1, b2),
{
    lemma_prompt_same(a1, a2);
}

/// Ending a round from agreeing states gives agreeing states.
proof fn lemma_finished_same(a1: Simulation, a2: Simulation, b1: Simulation, b2: Simulation)
    requires
        sim_same(a1, a2),
        a1.finished(&b1),
        a2.finished(&b2),
    ensures
        sim_same(b1, b2),
{
    let c1 = b1.history@.last();
    let c2 = b2.history@.last();
    let (x1, y1, j1, s1) = choose|w1: WarWorld, w2: WarWorld, joins: Seq<(u64, u64)>, stop: bool|
        {
            &&& crate::mechanisms::diplomacy_post(&a1.world, a1.decided@, &w1)
            &&& crate::mechanisms::escalation_post(&w1, &w2, joins)
            &&& crate::mechanisms::board_update_post(
                &w2,
                &b1.world,
                joins,
                a1.rounds,
                a1.war_threshold,
                &c1,
                stop,
            )
            &&& b1.stopped == (stop || b1.world.clock.t >= b1.world.clock.max_steps)
        };
    let (x2, y2, j2, s2) = choose|w1: WarWorld, w2: WarWorld, joins: Seq<(u64, u64)>, stop: bool|
        {
            &&& crate::mechanisms::diplomacy_post(&a2.world, a2.decided@, &w1)
            &&& crate::mechanisms::escalation_post(&w1, &w2, joins)
            &&& crate::mechanisms::board_update_post(
                &w2,
                &b2.world,
                joins,
                a2.rounds,
                a2.war_threshold,
                &c2,
                stop,
            )
            &&& b2.stopped == (stop || b2.world.clock.t >= b2.world.clock.max_steps)
        };
    // diplomacy
    lemma_matrix_same(a1.world.boards@, a2.world.boards@);
    let n = x1.n();
    lemma_boards_from_matrix(x1.boards@, x2.boards@, n);
    assert forall|c: int| 0 <= c < x1.inbox@.len() implies (#[trigger] x1.inbox@[c])@
        == x2.inbox@[c]@ by {
        assert(a1.world.inbox@[c]@ == a2.world.inbox@[c]@);
    }
    assert forall|i: int| 0 <= i < x1.countries@.len() implies country_same(
        #[trigger] x1.countries@[i],
        x2.countries@[i],
    ) by {
        assert(country_same(a1.world.countries@[i], a2.world.countries@[i]));
    }
    assert(world_same(x1, x2));
    // escalation
    lemma_matrix_same(x1.boards@, x2.boards@);
    assert(j1 == j2);
    lemma_boards_from_matrix(y1.boards@, y2.boards@, n);
    assert forall|i: int| 0 <= i < y1.countries@.len() implies country_same(
        #[trigger] y1.countries@[i],
        y2.countries@[i],
    ) by {
        assert(country_same(x1.countries@[i], x2.countries@[i]));
    }
    assert forall|c: int| 0 <= c < y1.inbox@.len() implies (#[trigger] y1.inbox@[c])@
        == y2.inbox@[c]@ by {
        assert(x1.inbox@[c]@ == x2.inbox@[c]@);
    }
    assert(world_same(y1, y2));
    // board update
    lemma_matrix_same(y1.boards@, y2.boards@);
    lemma_names_same(y1, y2);
    assert forall|i: int| 0 <= i < b1.world.countries@.len() implies country_same(
        #[trigger] b1.world.countries@[i],
        b2.world.countries@[i],
    ) by {
        assert(country_same(y1.countries@[i], y2.countries@[i]));
        assert(y1.inbox@[i]@ == y2.inbox@[i]@);
        let c = i as u64;
        if crate::mechanisms::has_war(y1.boards@, c) {
            let k = choose|k: u64| rel_of(y1.boards@, c, k) == crate::board::Relation::War;
            assert(rel_of(y2.boards@, c, k) == crate::board::Relation::War);
        }
        if crate::mechanisms::has_war(y2.boards@, c) {
            let k = choose|k: u64| rel_of(y2.boards@, c, k) == crate::board::Relation::War;
            assert(rel_of(y1.boards@, c, k) == crate::board::Relation::War);
        }
        assert(b1.world.countries@[i].profile == y1.countries@[i].profile);
        assert(b2.world.countries@[i].profile == y2.countries@[i].profile);
    }
    assert(world_same(b1.world, b2.world));
    lemma_world_counts_same(b1.world, b2.world);
    assert(counts_same(c1, c2));
    assert forall|i: int| 0 <= i < b1.history@.len() implies counts_same(
        #[trigger] b1.history@[i],
        b2.history@[i],
    ) by {
        if i < a1.history@.len() {
            assert(b1.history@[i] == b1.history@.drop_last()[i]);
            assert(b2.history@[i] == b2.history@.drop_last()[i]);
            assert(counts_same(a1.history@[i], a2.history@[i]));
        }
    }
    assert(b1.decided@ =~= b2.decided@);
}


/// `respond` gives answers with the same text to prompts with the same
/// text.
pub open spec fn answers_fixed<F: Fn(&str) -> String>(respond: F) -> bool {
    forall|p: &str, q: &str, x: String, y: String|
        #![trigger call_ensures(respond, (p,), x), call_ensures(respond, (q,), y)]
        p@ == q@ && call_ensures(respond, (p,), x) && call_ensures(respond, (q,), y) ==> x@ == y@
}

/// One step from agreeing states gives agreeing states.
proof fn lemma_step_same<F: Fn(&str) -> String>(
    respond: F,
    a1: Simulation,
    a2: Simulation,
    b1: Simulation,
    b2: Simulation,
)
    requires
        answers_fixed(respond),
        sim_same(a1, a2),
        a1.inv(),
        run_step(respond, a1, b1),
        run_step(respond, a2, b2),
    ensures
        sim_same(b1, b2),
{
    if !a1.in_round {
        lemma_begun_same(a1, a2, b1, b2);
    } else if a1.awaiting() {
        let (p1, x1) = choose|p: &str, text: String|
            #![trigger call_ensures(respond, (p,), text)]
            p@ == a1.prompt_text() && call_ensures(respond, (p,), text) && a1.answered(text@, &b1);
        let (p2, x2) = choose|p: &str, text: String|
            #![trigger call_ensures(respond, (p,), text)]
            p@ == a2.prompt_text() && call_ensures(respond, (p,), text) && a2.answered(text@, &b2);
        lemma_prompt_same(a1, a2);
        assert(x1@ == x2@);
        lemma_answered_same(a1, a2, x1@, b1, b2);
    } else {
        lemma_finished_same(a1, a2, b1, b2);
    }
}

proof fn lemma_prefix_same<F: Fn(&str) -> String>(
    cfg: &Config,
    respond: F,
    t1: Seq<Simulation>,
    t2: Seq<Simulation>,
    i: int,
)
    requires
        answers_fixed(respond),
        run_trace(cfg, respond, t1),
        run_trace(cfg, respond, t2),
        0 <= i < t1.len(),
        i < t2.len(),
    ensures
        sim_same(t1[i], t2[i]),
    decreases i,
{
    if i == 0 {
        lemma_start_same(cfg, t1[0], t2[0]);
    } else {
        lemma_prefix_same(cfg, respond, t1, t2, i - 1);
        assert(run_step(respond, t1[i - 1], t1[(i - 1) + 1]));
        assert(run_step(respond, t2[i - 1], t2[(i - 1) + 1]));
        assert(t1[i - 1].inv());
        lemma_step_same(respond, t1[i - 1], t2[i - 1], t1[i], t2[i]);
    }
}

/// Two runs that are over, with the same settings and answers of the same
/// text to prompts of the same text, took the same number of steps and end
/// in agreeing states.
pub proof fn lemma_runs_agree<F: Fn(&str) -> String>(
    cfg: &Config,
    respond: F,
    t1: Seq<Simulation>,
    t2: Seq<Simulation>,
)
    requires
        answers_fixed(respond),
        run_trace(cfg, respond, t1),
        run_trace(cfg, respond, t2),
        run_over(t1.last()),
        run_over(t2.last()),
    ensures
        t1.len() == t2.len(),
        sim_same(t1.last(), t2.last()),
{
    if t1.len() < t2.len() {
        let m = t1.len() - 1;
        lemma_prefix_same(cfg, respond, t1, t2, m);
        assert(run_step(respond, t2[m], t2[m + 1]));
    } else if t2.len() < t1.len() {
        let m = t2.len() - 1;
        lemma_prefix_same(cfg, respond, t1, t2, m);
        assert(run_step(respond, t1[m], t1[m + 1]));
    } else {
        lemma_prefix_same(cfg, respond, t1, t2, t1.len() - 1);
    }
}

/// A run is determined by its answers: two runs with the same settings
/// whose prompts get answers of the same text for prompts of the same text
/// have the same outcome — the same counts every round, the same action
/// log, rounds played, outbreak, first round of war, conflicts and
/// cold-war flag.
pub proof fn lemma_run_determined<F: Fn(&str) -> String>(
    cfg: &Config,
    respond: F,
    r1: SimulationResult,
    r2: SimulationResult,
)
    requires
        answers_fixed(respond),
        crate::simulation::run_outcome(cfg, respond, r1),
        crate::simulation::run_outcome(cfg, respond, r2),
    ensures
        results_same(r1, r2),
{
    let t1 = choose|t: Seq<Simulation>|
        {
            &&& run_trace(cfg, respond, t)
            &&& run_over(t.last())
            &&& t.last().result_is(&r1)
            &&& t.last().initial_clusters == cluster_count(t[0].world.boards@)
        };
    let t2 = choose|t: Seq<Simulation>|
        {
            &&& run_trace(cfg, respond, t)
            &&& run_over(t.last())
            &&& t.last().result_is(&r2)
            &&& t.last().initial_clusters == cluster_count(t[0].world.boards@)
        };
    lemma_runs_agree(cfg, respond, t1, t2);
    let s1 = t1.last();
    let s2 = t2.last();
    let h1 = s1.history@;
    let h2 = s2.history@;
    if h1.len() > 0 {
        assert(counts_same(h1[h1.len() - 1], h2[h2.len() - 1]));
    }
    let tense1 = exists|i: int|
        0 <= i < h1.len() && ((#[trigger] h1[i]).n_mobilized > 0 || h1[i].n_conflicts > 0
            || h1[i].n_alliance_clusters != s1.initial_clusters);
    let tense2 = exists|i: int|
        0 <= i < h2.len() && ((#[trigger] h2[i]).n_mobilized > 0 || h2[i].n_conflicts > 0
            || h2[i].n_alliance_clusters != s2.initial_clusters);
    if tense1 {
        let i = choose|i: int|
            0 <= i < h1.len() && ((#[trigger] h1[i]).n_mobilized > 0 || h1[i].n_conflicts > 0
                || h1[i].n_alliance_clusters != s1.initial_clusters);
        assert(counts_same(h1[i], h2[i]));
    }
    if tense2 {
        let i = choose|i: int|
            0 <= i < h2.len() && ((#[trigger] h2[i]).n_mobilized > 0 || h2[i].n_conflicts > 0
                || h2[i].n_alliance_clusters != s2.initial_clusters);
        assert(counts_same(h1[i], h2[i]));
    }
    assert(tense1 == tense2);
}

} // verus!
