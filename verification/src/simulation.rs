//! The run driver: the initial world, and the round loop whose model
//! answers are handed in from outside.
//!
//! A round is: [`Simulation::begin_round`] (situation), then for each
//! country in id order one decision prompt and `secretary_passes` secretary
//! prompts ([`Simulation::prompt`] / [`Simulation::answer`]), then
//! [`Simulation::finish_round`] (diplomacy, escalation, board update).

use vstd::prelude::*;

use crate::config::{
    build_countries, country_count_spec, initial_matrix, initial_relations_spec,
    scenario_country, Config,
};
use crate::mechanisms::{
    board_update_post, diplomacy_post, escalation_post, matrix_of, other_targets, recent_summaries,
    round_at, situation_post, target_ids, world_names, BoardUpdateMechanism,
    CountryDecisionMechanism, DiplomacyMechanism, EscalationMechanism, SituationMechanism,
};
use crate::metrics::RoundCounts;
use crate::partition::{alliance_partition, cluster_count};
use crate::prompts::{
    decision_prompt, decision_text, parse_action, parse_action_spec, proposal_json, proposal_text,
    secretary_prompt, secretary_text, wait_spec, ParsedAction,
};
use crate::text::owned;
use crate::world::{action_in_range, Action, Event, RoundClock, WarWorld};

verus! {

/// The world a run starts from: the scenario's countries and boards, empty
/// inboxes and log, round 0, the clock at 0 of `rounds` ticks, and the
/// trigger's text (not yet shown).
pub open spec fn initial_world(cfg: &Config, w: &WarWorld) -> bool {
    let n = country_count_spec(cfg.scenario);
    &&& w.wf()
    &&& w.clock == RoundClock { t: 0, max_steps: cfg.rounds as u64 }
    &&& w.n() == n
    &&& forall|i: int|
        0 <= i < n ==> scenario_country(cfg.scenario, cfg.stance_override, i, #[trigger] w.countries@[i])
    &&& matrix_of(w.boards@) == initial_matrix(initial_relations_spec(cfg.scenario), n)
    &&& w.pending_actions@.len() == 0
    &&& forall|i: int| 0 <= i < n ==> (#[trigger] w.inbox@[i])@.len() == 0
    &&& w.event_log@.len() == 0
    &&& w.round == 0
    &&& match cfg.trigger.description_spec() {
        Some(d) => w.trigger is Some && w.trigger->0@ == d,
        None => w.trigger is None,
    }
    &&& !w.trigger_injected
}

/// Builds the initial world of a run.
pub fn init_world(cfg: &Config) -> (w: WarWorld)
    ensures
        initial_world(cfg, &w),
{
    let (countries, boards) = build_countries(cfg.scenario, cfg.stance_override);
    let n = countries.len();
    let mut inbox: Vec<Vec<Action>> = Vec::new();
    let mut i: usize = 0;
    while i < n
        invariant
            0 <= i <= n,
            inbox@.len() == i,
            forall|j: int| 0 <= j < i ==> (#[trigger] inbox@[j])@.len() == 0,
        decreases n - i,
    {
        inbox.push(Vec::new());
        i = i + 1;
    }
    let trigger = match cfg.trigger.description() {
        Some(t) => Some(owned(t)),
        None => None,
    };
    WarWorld {
        clock: RoundClock::new(cfg.rounds as u64),
        countries,
        boards,
        pending_actions: Vec::new(),
        inbox,
        event_log: Vec::new(),
        round: 0,
        trigger,
        trigger_injected: false,
    }
}

/// The outcome of a run.
pub struct SimulationResult {
    /// The counts of each round played.
    pub metrics_history: Vec<RoundCounts>,
    /// The action log.
    pub event_log: Vec<Event>,
    /// The number of rounds played.
    pub final_round: u64,
    /// Whether war broke out (in the last round played).
    pub war_outbreak: bool,
    /// The first round in which war broke out.
    pub escalation_round: Option<u64>,
    /// The conflict pairs at the end.
    pub n_conflicts: u64,
    /// No war, but tension: some round had a mobilization, a conflict, or a
    /// number of alliance clusters other than at the start.
    pub cold_war_flag: bool,
}

/// The ids of the countries other than `actor` among `0..n`, ascending.
pub open spec fn other_ids(names: Seq<Seq<char>>, actor: u64, n: nat) -> Seq<u64> {
    other_targets(names, actor, n).map_values(|p: (u64, Seq<char>)| p.0)
}

/// The targets other than `actor` are countries `0..k` other than `actor`.
pub proof fn lemma_other_targets(names: Seq<Seq<char>>, actor: u64, k: nat)
    ensures
        forall|j: int|
            0 <= j < other_targets(names, actor, k).len() ==> (#[trigger] other_targets(
                names,
                actor,
                k,
            )[j]).0 < k && other_targets(names, actor, k)[j].0 != actor,
    decreases k,
{
    if k > 0 {
        lemma_other_targets(names, actor, (k - 1) as nat);
        let rest = other_targets(names, actor, (k - 1) as nat);
        let all = other_targets(names, actor, k);
        assert forall|j: int| 0 <= j < all.len() implies (#[trigger] all[j]).0 < k && all[j].0
            != actor by {
            if j < rest.len() {
                assert(all[j] == rest[j]);
            }
        }
    }
}

/// The first round (index) whose counts show an outbreak of war.
pub open spec fn first_outbreak(h: Seq<RoundCounts>) -> Option<u64>
    decreases h.len(),
{
    if h.len() == 0 {
        None
    } else {
        match first_outbreak(h.drop_last()) {
            Some(i) => Some(i),
            None => if h.last().war_outbreak == 1 {
                Some((h.len() - 1) as u64)
            } else {
                None
            },
        }
    }
}

/// A run in progress.
pub struct Simulation {
    /// The world.
    pub world: WarWorld,
    /// The maximum number of rounds.
    pub rounds: u64,
    /// Conflict pairs at which war has broken out.
    pub war_threshold: u64,
    /// The decision stage (secretary passes).
    pub decision: CountryDecisionMechanism,
    /// The end-of-round stage.
    pub board_update: BoardUpdateMechanism,
    /// The number of alliance clusters at the start.
    pub initial_clusters: u64,
    /// The counts of each round played.
    pub history: Vec<RoundCounts>,
    /// The first round in which war broke out.
    pub escalation_round: Option<u64>,
    /// The number of rounds played.
    pub final_round: u64,
    /// Whether the run has stopped (war broke out, or the last round).
    pub stopped: bool,
    /// Whether a round is under way.
    pub in_round: bool,
    /// This round's context paragraphs, by country id.
    pub contexts: Vec<String>,
    /// This round's decided actions, of countries `0..decided.len()`.
    pub decided: Vec<Action>,
    /// Answers received for the country now deciding.
    pub answers: u64,
    /// The action read from its latest answer.
    pub current: ParsedAction,
    /// The answers handed in during this round.
    pub round_calls: Ghost<nat>,
}

impl Simulation {
    pub open spec fn inv(&self) -> bool {
        &&& self.world.wf()
        &&& self.world.clock.t <= self.world.clock.max_steps
        &&& self.world.clock.max_steps == self.rounds
        &&& self.board_update.rounds == self.rounds
        &&& self.board_update.war_threshold == self.war_threshold
        &&& self.answers <= self.decision.secretary_passes
        &&& self.history@.len() == (if self.in_round {
            self.world.clock.t - 1
        } else {
            self.world.clock.t as int
        })
        &&& self.final_round == self.history@.len()
        &&& forall|i: int|
            0 <= i < self.history@.len() ==> (#[trigger] self.history@[i]).round == i
                && self.history@[i].war_outbreak <= 1
        &&& self.stopped ==> (self.world.clock.t == self.world.clock.max_steps || (
        self.history@.len() > 0 && self.history@.last().war_outbreak == 1))
        &&& self.escalation_round == first_outbreak(self.history@)
        &&& forall|i: int|
            0 <= i < self.history@.len() && (#[trigger] self.history@[i]).war_outbreak == 1 ==> i
                == self.history@.len() - 1 && self.stopped && !self.in_round
        &&& self.in_round ==> {
            &&& self.round_calls@ == self.decided@.len() * (self.decision.secretary_passes + 1)
                + self.answers
            &&& self.decided@.len() == self.world.n() ==> self.answers == 0
            &&& self.world.clock.t >= 1
            &&& self.world.round == self.world.clock.t - 1
            &&& self.contexts@.len() == self.world.n()
            &&& self.decided@.len() <= self.world.n()
            &&& self.world.pending_actions@.len() == 0
            &&& forall|i: int|
                0 <= i < self.decided@.len() ==> (#[trigger] self.decided@[i]).actor == i
                    && action_in_range(self.decided@[i], self.world.n()) && self.decided@[i].round
                    == self.world.round
        }
    }

    /// A country still has to decide this round.
    pub open spec fn awaiting(&self) -> bool {
        self.in_round && self.decided@.len() < self.world.n()
    }

    /// The country now deciding.
    pub open spec fn actor(&self) -> u64 {
        self.decided@.len() as u64
    }

    /// The ids it may target.
    pub open spec fn valid_ids(&self) -> Seq<u64> {
        other_ids(world_names(&self.world), self.actor(), self.world.n())
    }

    /// The prompt it is shown next: the decision prompt before any answer,
    /// then the secretary's check of the latest proposed action.
    pub open spec fn prompt_text(&self) -> Seq<char> {
        let w = &self.world;
        let a = self.actor();
        let targets = other_targets(world_names(w), a, w.n());
        if self.answers == 0 {
            decision_text(
                w.countries@[a as int],
                self.contexts@[a as int]@,
                if w.round == 0 {
                    match w.trigger {
                        Some(t) => Some(t@),
                        None => None,
                    }
                } else {
                    None
                },
                recent_summaries(world_names(w), w.inbox@[a as int]@, 5),
                targets,
                w.round,
            )
        } else {
            secretary_text(
                w.countries@[a as int].name@,
                targets,
                proposal_text(
                    self.current.kind.label_spec(),
                    self.current.target,
                    self.current.publicity.label_spec(),
                ),
            )
        }
    }

    /// `next` is this state after [`Simulation::begin_round`] started a
    /// round: the clock ticked and the situation stage ran.
    pub open spec fn begun(&self, next: &Simulation) -> bool {
        let w0 = WarWorld {
            clock: RoundClock {
                t: (self.world.clock.t + 1) as u64,
                max_steps: self.world.clock.max_steps,
            },
            ..self.world
        };
        &&& situation_post(&w0, &next.world, next.contexts@)
        &&& next.in_round
        &&& next.decided@.len() == 0
        &&& next.answers == 0
        &&& next.round_calls@ == 0
        &&& next.current == self.current
        &&& next.rounds == self.rounds
        &&& next.war_threshold == self.war_threshold
        &&& next.decision == self.decision
        &&& next.board_update == self.board_update
        &&& next.initial_clusters == self.initial_clusters
        &&& next.history@ == self.history@
        &&& next.escalation_round == self.escalation_round
        &&& next.final_round == self.final_round
        &&& next.stopped == self.stopped
    }

    /// `next` is this state after [`Simulation::answer`] handed in `text`
    /// for the country now deciding.
    pub open spec fn answered(&self, text: Seq<char>, next: &Simulation) -> bool {
        let a = parse_action_spec(text, self.valid_ids());
        &&& next.world == self.world
        &&& next.contexts@ == self.contexts@
        &&& next.in_round
        &&& next.rounds == self.rounds
        &&& next.war_threshold == self.war_threshold
        &&& next.decision == self.decision
        &&& next.board_update == self.board_update
        &&& next.initial_clusters == self.initial_clusters
        &&& next.history@ == self.history@
        &&& next.escalation_round == self.escalation_round
        &&& next.final_round == self.final_round
        &&& next.stopped == self.stopped
        &&& next.round_calls@ == self.round_calls@ + 1
        &&& if self.answers >= self.decision.secretary_passes {
            &&& next.decided@ == self.decided@.push(
                Action {
                    actor: self.actor(),
                    kind: a.kind,
                    target: a.target,
                    publicity: a.publicity,
                    round: self.world.round,
                },
            )
            &&& next.answers == 0
            &&& next.current == self.current
        } else {
            &&& next.decided@ == self.decided@
            &&& next.answers == self.answers + 1
            &&& next.current == a
        }
    }

    /// `next` is this state after [`Simulation::finish_round`] ended the
    /// round: diplomacy, escalation and the board update ran, the counts
    /// were recorded, the first round of war noted, and the stop decided.
    pub open spec fn finished(&self, next: &Simulation) -> bool {
        let counts = next.history@.last();
        &&& exists|w1: WarWorld, w2: WarWorld, joins: Seq<(u64, u64)>, stop: bool|
            {
                &&& diplomacy_post(&self.world, self.decided@, &w1)
                &&& escalation_post(&w1, &w2, joins)
                &&& board_update_post(
                    &w2,
                    &next.world,
                    joins,
                    self.rounds,
                    self.war_threshold,
                    &counts,
                    stop,
                )
                &&& next.stopped == (stop || next.world.clock.t
                    >= next.world.clock.max_steps)
            }
        &&& next.history@.len() == self.history@.len() + 1
        &&& next.history@.drop_last() == self.history@
        &&& next.final_round == next.world.clock.t
        &&& next.escalation_round == if self.escalation_round is None
            && counts.war_outbreak == 1 {
            Some(next.world.round)
        } else {
            self.escalation_round
        }
        &&& !next.in_round
        &&& next.rounds == self.rounds
        &&& next.war_threshold == self.war_threshold
        &&& next.decision == self.decision
        &&& next.board_update == self.board_update
        &&& next.initial_clusters == self.initial_clusters
        &&& next.decided@.len() == 0
        &&& next.answers == 0
        &&& next.contexts@ == self.contexts@
        &&& next.current == self.current
        &&& next.round_calls == self.round_calls
    }

    /// This state is the start of a run with the settings `cfg`: the
    /// initial world, no round played, and the number of alliance clusters
    /// at the start recorded.
    pub open spec fn started_from(&self, cfg: &Config) -> bool {
        &&& initial_world(cfg, &self.world)
        &&& self.rounds == cfg.rounds
        &&& self.war_threshold == cfg.war_threshold
        &&& self.decision.secretary_passes == cfg.secretary_passes
        &&& self.board_update.rounds == self.rounds
        &&& self.board_update.war_threshold == self.war_threshold
        &&& self.initial_clusters == cluster_count(self.world.boards@)
        &&& self.history@.len() == 0
        &&& self.escalation_round is None
        &&& self.final_round == 0
        &&& !self.stopped
        &&& !self.in_round
        &&& self.contexts@.len() == 0
        &&& self.decided@.len() == 0
        &&& self.answers == 0
        &&& self.current == wait_spec()
        &&& self.round_calls@ == 0
    }

    /// `r` summarizes this state: its history and event log, the rounds
    /// played, whether the last round had an outbreak, its conflicts, the
    /// first round of war, and the cold-war flag (no war, but some round had
    /// a mobilization, a conflict, or another number of alliance clusters
    /// than at the start).
    pub open spec fn result_is(&self, r: &SimulationResult) -> bool {
        &&& r.metrics_history@ == self.history@
        &&& r.event_log@ == self.world.event_log@
        &&& r.final_round == self.final_round
        &&& r.escalation_round == self.escalation_round
        &&& r.war_outbreak == (self.history@.len() > 0 && self.history@.last().war_outbreak == 1)
        &&& r.n_conflicts == (if self.history@.len() > 0 {
            self.history@.last().n_conflicts
        } else {
            0
        })
        &&& r.cold_war_flag == (!r.war_outbreak && exists|i: int|
            0 <= i < self.history@.len() && ((#[trigger] self.history@[i]).n_mobilized > 0
                || self.history@[i].n_conflicts > 0 || self.history@[i].n_alliance_clusters
                != self.initial_clusters))
    }

    /// A run at its start.
    pub fn new(cfg: &Config) -> (s: Simulation)
        ensures
            s.inv(),
            s.started_from(cfg),
    {
        let world = init_world(cfg);
        let groups = alliance_partition(&world);
        let initial_clusters = groups.len() as u64;
        let rounds = cfg.rounds as u64;
        let war_threshold = cfg.war_threshold as u64;
        Simulation {
            world,
            rounds,
            war_threshold,
            decision: CountryDecisionMechanism::new(cfg.secretary_passes as u64),
            board_update: BoardUpdateMechanism::new(rounds, war_threshold),
            initial_clusters,
            history: Vec::new(),
            escalation_round: None,
            final_round: 0,
            stopped: false,
            in_round: false,
            contexts: Vec::new(),
            decided: Vec::new(),
            answers: 0,
            current: ParsedAction::wait(),
            round_calls: Ghost(0),
        }
    }

    /// Starts the next round: the clock ticks and the situation stage runs.
    /// Returns false (and changes nothing) when a round is under way, the
    /// run has stopped, or the clock has run out.
    pub fn begin_round(&mut self) -> (r: bool)
        requires
            old(self).inv(),
        ensures
            final(self).inv(),
            r == (!old(self).in_round && !old(self).stopped && old(self).world.clock.t < old(
                self,
            ).world.clock.max_steps),
            !r ==> *final(self) == *old(self),
            r ==> old(self).begun(&*final(self)),
    {
        if self.in_round || self.stopped || self.world.clock.t >= self.world.clock.max_steps {
            return false;
        }
        self.world.clock.t = self.world.clock.t + 1;
        let contexts = SituationMechanism.apply(&mut self.world);
        self.contexts = contexts;
        self.decided = Vec::new();
        self.answers = 0;
        self.round_calls = Ghost(0);
        self.in_round = true;
        proof {
            let p = self.decision.secretary_passes as int;
            assert(0 * (p + 1) == 0) by (nonlinear_arith);
        }
        true
    }

    /// The next prompt to answer, if a country still has to decide.
    pub fn prompt(&self) -> (p: Option<String>)
        requires
            self.inv(),
        ensures
            p is Some <==> self.awaiting(),
            p is Some ==> p->0@ == self.prompt_text(),
    {
        if !self.in_round || self.decided.len() >= self.world.countries.len() {
            return None;
        }
        let actor = self.decided.len() as u64;
        let cx = self.decision.context(&self.world, actor, self.contexts[actor as usize].clone());
        if self.answers == 0 {
            Some(decision_prompt(&cx))
        } else {
            let proposed = proposal_json(&self.current);
            Some(secretary_prompt(&cx, proposed.as_str()))
        }
    }

    /// Hands in the answer to the current prompt. After the decision prompt
    /// and `secretary_passes` secretary checks, the action read from the
    /// last answer is the country's action for the round. Does nothing when
    /// no country is deciding.
    pub fn answer(&mut self, text: &str)
        requires
            old(self).inv(),
        ensures
            final(self).inv(),
            !old(self).awaiting() ==> *final(self) == *old(self),
            old(self).awaiting() ==> old(self).answered(text@, &*final(self)),
    {
        if !self.in_round || self.decided.len() >= self.world.countries.len() {
            return;
        }
        let actor = self.decided.len() as u64;
        let ghost names = world_names(&self.world);
        let ghost n = self.world.n();
        let parsed;
        {
            let cx = self.decision.context(&self.world, actor, String::new());
            let valid = target_ids(&cx);
            proof {
                assert(valid@ =~= other_ids(names, actor, n)) by {
                    assert forall|j: int| 0 <= j < valid@.len() implies valid@[j] == other_ids(
                        names,
                        actor,
                        n,
                    )[j] by {
                        assert(crate::prompts::targets_view(cx.targets@)[j].0 == cx.targets@[j].0);
                    }
                }
            }
            parsed = parse_action(text, &valid);
            proof {
                lemma_other_targets(names, actor, n);
                if parsed.target is Some {
                    let t = parsed.target->0;
                    if parsed.kind.needs_target_spec() {
                        let j = choose|j: int| 0 <= j < valid@.len() && valid@[j] == t;
                        assert(other_targets(names, actor, n)[j].0 == t);
                    }
                }
            }
        }
        if self.answers >= self.decision.secretary_passes {
            let act = Action {
                actor,
                kind: parsed.kind,
                target: parsed.target,
                publicity: parsed.publicity,
                round: self.world.round,
            };
            proof {
                let d = self.decided@.len() as int;
                let p = self.decision.secretary_passes as int;
                assert((d + 1) * (p + 1) == d * (p + 1) + p + 1) by (nonlinear_arith);
            }
            self.decided.push(act);
            self.answers = 0;
        } else {
            self.answers = self.answers + 1;
            self.current = parsed;
        }
        self.round_calls = Ghost(self.round_calls@ + 1);
    }

    /// Ends the round once every country has decided: the decided actions
    /// are delivered and resolved, escalation follows, then the board
    /// update; the round's counts are recorded, the first round of war is
    /// noted, and the run stops when war broke out or the clock has run
    /// out. Returns false (and changes nothing) before every country has
    /// decided.
    pub fn finish_round(&mut self) -> (r: bool)
        requires
            old(self).inv(),
        ensures
            final(self).inv(),
            r == (old(self).in_round && old(self).decided@.len() == old(self).world.n()),
            !r ==> *final(self) == *old(self),
            r ==> old(self).round_calls@ == old(self).world.n() * (old(self).decision.secretary_passes
                + 1),
            r ==> old(self).finished(&*final(self)),
    {
        if !self.in_round || self.decided.len() != self.world.countries.len() {
            return false;
        }
        let ghost w0 = self.world;
        let ghost acts = self.decided@;
        let ghost h0 = self.history@;
        std::mem::swap(&mut self.world.pending_actions, &mut self.decided);
        assert(self.world.pending_actions@ == acts);
        assert(self.world.wf());
        DiplomacyMechanism.apply(&mut self.world);
        let ghost w1 = self.world;
        let joins = EscalationMechanism.apply(&mut self.world);
        let ghost w2 = self.world;
        let (counts, stop) = self.board_update.apply(&mut self.world, &joins);
        let outbreak = counts.war_outbreak == 1;
        self.history.push(counts);
        assert(self.history@.drop_last() =~= h0);
        self.final_round = self.world.clock.t;
        if self.escalation_round.is_none() && outbreak {
            self.escalation_round = Some(self.world.round);
        }
        self.stopped = stop || self.world.clock.t >= self.world.clock.max_steps;
        self.in_round = false;
        self.decided = Vec::new();
        self.answers = 0;
        proof {
            let counts_v = self.history@.last();
            assert(diplomacy_post(&w0, acts, &w1));
            assert(escalation_post(&w1, &w2, joins@));
            assert(board_update_post(
                &w2,
                &self.world,
                joins@,
                self.rounds,
                self.war_threshold,
                &counts_v,
                stop,
            ));
            assert(self.stopped == (stop || self.world.clock.t >= self.world.clock.max_steps));
        }
        true
    }

    /// The outcome of the run so far.
    pub fn into_result(self) -> (r: SimulationResult)
        requires
            self.inv(),
        ensures
            self.result_is(&r),
    {
        let len = self.history.len();
        let war_outbreak = len > 0 && self.history[len - 1].war_outbreak == 1;
        let n_conflicts = if len > 0 {
            self.history[len - 1].n_conflicts
        } else {
            0
        };
        let mut tension = false;
        let mut i: usize = 0;
        while i < len
            invariant
                len == self.history@.len(),
                0 <= i <= len,
                tension == exists|j: int|
                    0 <= j < i && ((#[trigger] self.history@[j]).n_mobilized > 0
                        || self.history@[j].n_conflicts > 0
                        || self.history@[j].n_alliance_clusters != self.initial_clusters),
            decreases len - i,
        {
            let m = &self.history[i];
            if m.n_mobilized > 0 || m.n_conflicts > 0 || m.n_alliance_clusters
                != self.initial_clusters {
                tension = true;
            }
            i = i + 1;
        }
        let cold_war_flag = !war_outbreak && tension;
        SimulationResult {
            metrics_history: self.history,
            event_log: self.world.event_log,
            final_round: self.final_round,
            war_outbreak,
            escalation_round: self.escalation_round,
            n_conflicts,
            cold_war_flag,
        }
    }
}


/// One step of a run whose prompts `respond` answers: a round starts; the
/// country now deciding is handed `respond`'s answer to its prompt; or,
/// everyone having decided, the round ends.
pub open spec fn run_step<F: Fn(&str) -> String>(respond: F, a: Simulation, b: Simulation) -> bool {
    ||| (!a.in_round && !a.stopped && a.world.clock.t < a.world.clock.max_steps && a.begun(&b))
    ||| (a.awaiting() && exists|p: &str, text: String|
        #![trigger call_ensures(respond, (p,), text)]
        p@ == a.prompt_text() && call_ensures(respond, (p,), text) && a.answered(text@, &b))
    ||| (a.in_round && a.decided@.len() == a.world.n() && a.finished(&b))
}

/// `t` is a run with the settings `cfg` whose prompts `respond` answers,
/// from its start, one step at a time.
pub open spec fn run_trace<F: Fn(&str) -> String>(cfg: &Config, respond: F, t: Seq<Simulation>) -> bool {
    &&& t.len() > 0
    &&& t[0].started_from(cfg)
    &&& forall|i: int| 0 <= i < t.len() ==> (#[trigger] t[i]).inv()
    &&& forall|i: int| 0 <= i < t.len() - 1 ==> #[trigger] run_step(respond, t[i], t[i + 1])
}

/// `r` is the outcome of a whole run with the settings `cfg` whose prompts
/// `respond` answers: a run trace from the start that is over, summarized
/// by `r`.
pub open spec fn run_outcome<F: Fn(&str) -> String>(cfg: &Config, respond: F, r: SimulationResult) -> bool {
    exists|t: Seq<Simulation>|
        {
            &&& run_trace(cfg, respond, t)
            &&& run_over(t.last())
            &&& t.last().result_is(&r)
            &&& t.last().initial_clusters == cluster_count(t[0].world.boards@)
        }
}

/// The run is over: no round under way, and it stopped (war broke out) or
/// the clock ran out.
pub open spec fn run_over(s: Simulation) -> bool {
    !s.in_round && (s.stopped || s.world.clock.t >= s.world.clock.max_steps)
}

proof fn lemma_trace_push<F: Fn(&str) -> String>(cfg: &Config, respond: F, t: Seq<Simulation>, b: Simulation)
    requires
        run_trace(cfg, respond, t),
        run_step(respond, t.last(), b),
        b.inv(),
    ensures
        run_trace(cfg, respond, t.push(b)),
{
    let u = t.push(b);
    assert forall|i: int| 0 <= i < u.len() implies (#[trigger] u[i]).inv() by {
        if i < t.len() {
            assert(u[i] == t[i]);
        }
    }
    assert forall|i: int| 0 <= i < u.len() - 1 implies #[trigger] run_step(respond, u[i], u[i + 1]) by {
        if i < t.len() - 1 {
            assert(u[i] == t[i] && u[i + 1] == t[i + 1]);
        } else {
            assert(u[i] == t.last() && u[i + 1] == b);
        }
    }
}

/// Runs a whole simulation, asking `respond` for the answer to each prompt
/// (in the order of [`Simulation::prompt`]). The outcome is that of a run
/// trace from the start: each round begins, each country gets `respond`'s
/// answer to each of its prompts, and the round ends, until war breaks out
/// or `cfg.rounds` rounds have been played.
pub fn run_with<F: Fn(&str) -> String>(cfg: &Config, respond: &F) -> (r: SimulationResult)
    requires
        forall|p: &str| #[trigger] respond.requires((p,)),
    ensures
        run_outcome(cfg, *respond, r),
        r.final_round <= cfg.rounds,
        r.metrics_history@.len() == r.final_round,
        forall|i: int| 0 <= i < r.metrics_history@.len() ==> (#[trigger] r.metrics_history@[i]).round == i,
        r.final_round < cfg.rounds ==> r.war_outbreak,
        forall|i: int|
            0 <= i < r.metrics_history@.len() - 1 ==> (#[trigger] r.metrics_history@[i]).war_outbreak
                == 0,
        r.war_outbreak == (r.metrics_history@.len() > 0 && r.metrics_history@.last().war_outbreak == 1),
        r.n_conflicts == (if r.metrics_history@.len() > 0 {
            r.metrics_history@.last().n_conflicts
        } else {
            0
        }),
        r.escalation_round == first_outbreak(r.metrics_history@),
{
    let mut sim = Simulation::new(cfg);
    let ghost mut trace: Seq<Simulation> = seq![sim];
    loop
        invariant
            sim.inv(),
            !sim.in_round,
            sim.rounds == cfg.rounds,
            forall|p: &str| #[trigger] respond.requires((p,)),
            run_trace(cfg, *respond, trace),
            trace.last() == sim,
            sim.initial_clusters == cluster_count(trace[0].world.boards@),
        ensures
            sim.inv(),
            !sim.in_round,
            sim.rounds == cfg.rounds,
            sim.stopped || sim.world.clock.t >= sim.world.clock.max_steps,
            run_trace(cfg, *respond, trace),
            trace.last() == sim,
            sim.initial_clusters == cluster_count(trace[0].world.boards@),
        decreases sim.world.clock.max_steps - sim.world.clock.t,
    {
        let ghost s0 = sim;
        if !sim.begin_round() {
            break;
        }
        proof {
            assert(run_step(*respond, s0, sim));
            lemma_trace_push(cfg, *respond, trace, sim);
            trace = trace.push(sim);
        }
        let ghost t = sim.world.clock.t;
        loop
            invariant
                sim.inv(),
                sim.in_round,
                sim.rounds == cfg.rounds,
                sim.world.clock.t == t,
                t <= sim.world.clock.max_steps,
                forall|p: &str| #[trigger] respond.requires((p,)),
                run_trace(cfg, *respond, trace),
                trace.last() == sim,
                sim.initial_clusters == cluster_count(trace[0].world.boards@),
            ensures
                sim.inv(),
                sim.in_round,
                sim.rounds == cfg.rounds,
                sim.world.clock.t == t,
                t <= sim.world.clock.max_steps,
                !sim.awaiting(),
                run_trace(cfg, *respond, trace),
                trace.last() == sim,
                sim.initial_clusters == cluster_count(trace[0].world.boards@),
            decreases sim.world.n() - sim.decided@.len(), sim.decision.secretary_passes - sim.answers,
        {
            let ghost s1 = sim;
            match sim.prompt() {
                Some(p) => {
                    let ps = p.as_str();
                    let text = respond(ps);
                    sim.answer(text.as_str());
                    proof {
                        assert(call_ensures(*respond, (ps,), text));
                        assert(ps@ == s1.prompt_text());
                        assert(s1.answered(text@, &sim));
                        assert(run_step(*respond, s1, sim));
                        lemma_trace_push(cfg, *respond, trace, sim);
                        trace = trace.push(sim);
                    }
                },
                None => {
                    break;
                },
            }
        }
        let ghost s2 = sim;
        sim.finish_round();
        proof {
            assert(run_step(*respond, s2, sim));
            lemma_trace_push(cfg, *respond, trace, sim);
            trace = trace.push(sim);
        }
    }
    let ghost last = sim;
    let r = sim.into_result();
    proof {
        assert(run_trace(cfg, *respond, trace) && run_over(trace.last()) && trace.last().result_is(
            &r,
        ) && trace.last().initial_clusters == cluster_count(trace[0].world.boards@));
        if r.metrics_history@.len() > 0 {
            assert forall|i: int| 0 <= i < r.metrics_history@.len() - 1 implies (
            #[trigger] r.metrics_history@[i]).war_outbreak == 0 by {
                if r.metrics_history@[i].war_outbreak == 1 {
                    assert(last.history@[i].war_outbreak == 1);
                }
            }
        }
    }
    r
}

} // verus!
