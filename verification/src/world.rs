//! The world state: countries, their boards, pending and delivered actions
//! and the event log.

use vstd::prelude::*;

use crate::board::{keys_with, Board, Relation, Stick};

verus! {

/// The seven-action space.
#[derive(Clone, Copy, Debug, PartialEq, Eq, Structural)]
pub enum ActionKind {
    /// Keep the status quo.
    Wait,
    /// Order full mobilization (sets the stick's MO).
    Mobilize,
    /// Declare war on the target (board: W).
    DeclareWar,
    /// Propose a military alliance to the target (board: M on mutual consent).
    Alliance,
    /// Propose a non-aggression treaty to the target (board: T).
    NonAggression,
    /// Offer peace to the target (board back to P).
    Peace,
    /// Send a message to the target (no relation change).
    Message,
}

impl ActionKind {
    pub open spec fn label_spec(self) -> Seq<char> {
        match self {
            ActionKind::Wait => "wait"@,
            ActionKind::Mobilize => "mobilize"@,
            ActionKind::DeclareWar => "declare_war"@,
            ActionKind::Alliance => "alliance"@,
            ActionKind::NonAggression => "non_aggression"@,
            ActionKind::Peace => "peace"@,
            ActionKind::Message => "message"@,
        }
    }

    pub open spec fn needs_target_spec(self) -> bool {
        !(self is Wait || self is Mobilize)
    }

    /// Lower-case label used in logs.
    pub fn label(&self) -> (r: &'static str)
        ensures
            r@ == self.label_spec(),
    {
        match self {
            ActionKind::Wait => "wait",
            ActionKind::Mobilize => "mobilize",
            ActionKind::DeclareWar => "declare_war",
            ActionKind::Alliance => "alliance",
            ActionKind::NonAggression => "non_aggression",
            ActionKind::Peace => "peace",
            ActionKind::Message => "message",
        }
    }

    /// Whether the action is directed at a target country.
    pub fn needs_target(&self) -> (r: bool)
        ensures
            r == self.needs_target_spec(),
    {
        match self {
            ActionKind::Wait | ActionKind::Mobilize => false,
            _ => true,
        }
    }
}

/// How far an action travels.
#[derive(Clone, Copy, Debug, PartialEq, Eq, Structural)]
pub enum Publicity {
    /// Broadcast to every other country.
    Public,
    /// Delivered to the target only.
    Secret,
}

impl Publicity {
    pub open spec fn label_spec(self) -> Seq<char> {
        match self {
            Publicity::Public => "public"@,
            Publicity::Secret => "secret"@,
        }
    }

    pub fn label(&self) -> (r: &'static str)
        ensures
            r@ == self.label_spec(),
    {
        match self {
            Publicity::Public => "public",
            Publicity::Secret => "secret",
        }
    }
}

/// The action one country chose in one round.
#[derive(Clone, Copy, Debug, PartialEq, Eq, Structural)]
pub struct Action {
    /// The acting country.
    pub actor: u64,
    /// The kind of action.
    pub kind: ActionKind,
    /// The target country, for directed actions.
    pub target: Option<u64>,
    /// Publicity of the action.
    pub publicity: Publicity,
    /// The round (from 0) the action was taken in.
    pub round: u64,
}

/// One row of the event log.
#[derive(Clone, Debug)]
pub struct Event {
    /// Round (from 0).
    pub round: u64,
    /// Raw id of the acting country.
    pub actor: u64,
    /// Action label.
    pub action: String,
    /// Raw id of the target, if any.
    pub target: Option<u64>,
    /// Publicity label.
    pub publicity: String,
}

/// A country's aggressiveness.
#[derive(Clone, Copy, Debug, PartialEq, Eq, Structural)]
pub enum Stance {
    /// Defensive, risk-averse.
    Conservative,
    /// Pragmatic.
    Neutral,
    /// Expansionist.
    Aggressive,
}

impl Stance {
    pub open spec fn label_spec(self) -> Seq<char> {
        match self {
            Stance::Conservative => "conservative"@,
            Stance::Neutral => "neutral"@,
            Stance::Aggressive => "aggressive"@,
        }
    }

    pub open spec fn describe_spec(self) -> Seq<char> {
        match self {
            Stance::Conservative => "Your government is conservative and risk-averse; you prefer defensive treaties and avoid initiating conflict."@,
            Stance::Neutral => "Your government weighs costs and benefits pragmatically."@,
            Stance::Aggressive => "Your government is aggressive and expansionist; you are willing to mobilize and strike pre-emptively to secure your interests."@,
        }
    }

    pub fn label(&self) -> (r: &'static str)
        ensures
            r@ == self.label_spec(),
    {
        match self {
            Stance::Conservative => "conservative",
            Stance::Neutral => "neutral",
            Stance::Aggressive => "aggressive",
        }
    }

    /// One sentence describing the stance for the decision prompt.
    pub fn describe(&self) -> (r: &'static str)
        ensures
            r@ == self.describe_spec(),
    {
        match self {
            Stance::Conservative => "Your government is conservative and risk-averse; you prefer defensive treaties and avoid initiating conflict.",
            Stance::Neutral => "Your government weighs costs and benefits pragmatically.",
            Stance::Aggressive => "Your government is aggressive and expansionist; you are willing to mobilize and strike pre-emptively to secure your interests.",
        }
    }
}

/// A country's six-dimension profile.
#[derive(Clone, Debug, Default)]
pub struct Profile {
    pub leadership: String,
    pub military: String,
    pub resources: String,
    pub history: String,
    pub policy: String,
    pub morale: String,
}

/// One country agent.
#[derive(Clone, Debug)]
pub struct Country {
    /// Anonymized name ("Country B").
    pub name: String,
    /// Six-dimension profile.
    pub profile: Profile,
    /// Aggressiveness.
    pub stance: Stance,
    /// Domestic state.
    pub stick: Stick,
    /// Summaries of received actions (most recent last, at most ten kept).
    pub memory: Vec<String>,
}

impl Country {
    /// A country with the given profile and stance, not mobilized and with
    /// an empty memory.
    pub fn new(name: String, profile: Profile, stance: Stance) -> (c: Country)
        ensures
            c.name@ == name@,
            c.profile == profile,
            c.stance == stance,
            !c.stick.mobilized,
            c.memory@.len() == 0,
    {
        Country { name, profile, stance, stick: Stick { mobilized: false }, memory: Vec::new() }
    }

    /// Whether the country has fully mobilized.
    pub fn mobilized(&self) -> (r: bool)
        ensures
            r == self.stick.mobilized,
    {
        self.stick.mobilized
    }
}

/// The round clock: `t` ticks have been taken out of `max_steps`.
#[derive(Clone, Copy, Debug)]
pub struct RoundClock {
    pub t: u64,
    pub max_steps: u64,
}

impl RoundClock {
    pub fn new(max_steps: u64) -> (c: RoundClock)
        ensures
            c.t == 0,
            c.max_steps == max_steps,
    {
        RoundClock { t: 0, max_steps }
    }
}

/// The world state.
///
/// Country ids are `0..n`: `countries[i]`, `boards[i]` and `inbox[i]` belong
/// to country `i`.
pub struct WarWorld {
    /// The round clock (one tick per round).
    pub clock: RoundClock,
    /// The countries, indexed by id.
    pub countries: Vec<Country>,
    /// Each country's own board, indexed by owner id.
    pub boards: Vec<Board>,
    /// Actions chosen this round, not yet resolved.
    pub pending_actions: Vec<Action>,
    /// Actions delivered to each country.
    pub inbox: Vec<Vec<Action>>,
    /// All events, in order.
    pub event_log: Vec<Event>,
    /// The current round (from 0).
    pub round: u64,
    /// The breaking event shown in round 0, if any.
    pub trigger: Option<String>,
    /// Whether the breaking event has been shown.
    pub trigger_injected: bool,
}

/// An action's ids refer to countries `0..n`.
pub open spec fn action_in_range(a: Action, n: nat) -> bool {
    &&& a.actor < n
    &&& (a.target matches Some(t) ==> t < n)
}

/// Every board's counterparts are countries `0..n`.
pub open spec fn boards_in_range(boards: Seq<Board>, n: nat) -> bool {
    forall|i: int, j: int|
        0 <= i < boards.len() && 0 <= j < boards[i].entries().len() ==> #[trigger] boards[i].entries()[j].0
            < n
}

/// Board `i` belongs to country `i` and is well formed.
pub open spec fn boards_wf(boards: Seq<Board>) -> bool {
    forall|i: int| 0 <= i < boards.len() ==> (#[trigger] boards[i]).wf() && boards[i].owner == i
}

/// The relation country `a` records toward country `b` (`Peace` when `a`
/// has no board).
pub open spec fn rel_of(boards: Seq<Board>, a: u64, b: u64) -> Relation {
    if a < boards.len() {
        boards[a as int].rel(b)
    } else {
        Relation::Peace
    }
}

/// Countries `a` and `b` are in conflict: either records war on the other.
pub open spec fn at_war(boards: Seq<Board>, a: u64, b: u64) -> bool {
    rel_of(boards, a, b) == Relation::War || rel_of(boards, b, a) == Relation::War
}

/// The undirected conflict pairs `(a, b)`, `a <= b`.
pub open spec fn is_war_pair(boards: Seq<Board>, p: (u64, u64)) -> bool {
    p.0 <= p.1 && p.1 < boards.len() && at_war(boards, p.0, p.1)
}

/// Strict lexicographic order on pairs.
pub open spec fn pair_lt(p: (u64, u64), q: (u64, u64)) -> bool {
    p.0 < q.0 || (p.0 == q.0 && p.1 < q.1)
}

impl WarWorld {
    pub open spec fn n(&self) -> nat {
        self.countries@.len()
    }

    pub open spec fn wf(&self) -> bool {
        &&& self.boards@.len() == self.n()
        &&& self.inbox@.len() == self.n()
        &&& boards_wf(self.boards@)
        &&& boards_in_range(self.boards@, self.n())
        &&& forall|i: int|
            0 <= i < self.pending_actions@.len() ==> action_in_range(
                #[trigger] self.pending_actions@[i],
                self.n(),
            )
    }

    /// Number of countries.
    pub fn n_countries(&self) -> (r: usize)
        ensures
            r == self.n(),
    {
        self.countries.len()
    }

    /// The current round, from 0 (one less than the clock's tick count).
    pub fn current_round(&self) -> (r: u64)
        ensures
            r == if self.clock.t == 0 {
                0
            } else {
                (self.clock.t - 1) as u64
            },
    {
        if self.clock.t == 0 {
            0
        } else {
            self.clock.t - 1
        }
    }

    /// The country ids in ascending order.
    pub fn agent_ids(&self) -> (r: Vec<u64>)
        ensures
            r@.len() == self.n(),
            forall|i: int| 0 <= i < r@.len() ==> r@[i] == i,
    {
        let mut r: Vec<u64> = Vec::new();
        let mut i: usize = 0;
        while i < self.countries.len()
            invariant
                0 <= i <= self.n(),
                r@.len() == i,
                forall|j: int| 0 <= j < i ==> r@[j] == j,
            decreases self.n() - i,
        {
            r.push(i as u64);
            i = i + 1;
        }
        r
    }

    /// The countries' names, indexed by id.
    pub fn name_map(&self) -> (r: Vec<String>)
        ensures
            r@.len() == self.n(),
            forall|i: int| 0 <= i < r@.len() ==> (#[trigger] r@[i])@ == self.countries@[i].name@,
    {
        let mut r: Vec<String> = Vec::new();
        let mut i: usize = 0;
        while i < self.countries.len()
            invariant
                0 <= i <= self.n(),
                r@.len() == i,
                forall|j: int| 0 <= j < i ==> (#[trigger] r@[j])@ == self.countries@[j].name@,
            decreases self.n() - i,
        {
            r.push(self.countries[i].name.clone());
            i = i + 1;
        }
        r
    }

    /// The countries `owner` records with relation `rel`, ascending (empty
    /// when `owner` is not a country).
    pub fn counterparts(&self, owner: u64, rel: Relation) -> (r: Vec<u64>)
        requires
            self.wf(),
        ensures
            owner < self.n() ==> r@ == keys_with(self.boards@[owner as int].entries(), rel),
            owner >= self.n() ==> r@.len() == 0,
    {
        if owner < self.boards.len() as u64 {
            self.boards[owner as usize].counterparts(rel)
        } else {
            Vec::new()
        }
    }

    /// The undirected conflict pairs `(a, b)` with `a <= b`, in ascending
    /// lexicographic order.
    pub fn war_pairs(&self) -> (r: Vec<(u64, u64)>)
        requires
            self.wf(),
        ensures
            forall|p: (u64, u64)| #[trigger] r@.contains(p) <==> is_war_pair(self.boards@, p),
            forall|a: int, b: int| 0 <= a < b < r@.len() ==> pair_lt(r@[a], r@[b]),
    {
        let n = self.boards.len();
        let mut r: Vec<(u64, u64)> = Vec::new();
        let mut a: usize = 0;
        while a < n
            invariant
                n == self.boards@.len(),
                self.wf(),
                0 <= a <= n,
                forall|p: (u64, u64)| #[trigger]
                    r@.contains(p) <==> (is_war_pair(self.boards@, p) && p.0 < a),
                forall|x: int, y: int| 0 <= x < y < r@.len() ==> pair_lt(r@[x], r@[y]),
                forall|x: int| 0 <= x < r@.len() ==> r@[x].0 < a,
            decreases n - a,
        {
            let mut b: usize = a;
            while b < n
                invariant
                    n == self.boards@.len(),
                    self.wf(),
                    0 <= a < n,
                    a <= b <= n,
                    forall|p: (u64, u64)| #[trigger]
                        r@.contains(p) <==> (is_war_pair(self.boards@, p) && (p.0 < a || (p.0
                            == a && p.1 < b))),
                    forall|x: int, y: int| 0 <= x < y < r@.len() ==> pair_lt(r@[x], r@[y]),
                    forall|x: int|
                        0 <= x < r@.len() ==> pair_lt(r@[x], (a as u64, b as u64)),
                decreases n - b,
            {
                let w = self.boards[a].relation_to(b as u64) == Relation::War
                    || self.boards[b].relation_to(a as u64) == Relation::War;
                let ghost old_r = r@;
                if w {
                    r.push((a as u64, b as u64));
                }
                proof {
                    assert forall|p: (u64, u64)| #[trigger]
                        r@.contains(p) <==> (is_war_pair(self.boards@, p) && (p.0 < a || (p.0
                            == a && p.1 < b + 1))) by {
                        if r@.contains(p) && !old_r.contains(p) {
                            assert(p == (a as u64, b as u64));
                        }
                        if old_r.contains(p) {
                            let x = choose|x: int| 0 <= x < old_r.len() && old_r[x] == p;
                            assert(r@[x] == p);
                        }
                        if p == (a as u64, b as u64) && w {
                            assert(r@[r@.len() - 1] == p);
                        }
                    }
                }
                b = b + 1;
            }
            a = a + 1;
        }
        r
    }

    /// Number of undirected conflict pairs at this point (a one-sided
    /// declaration counts as a conflict).
    pub fn n_war_pairs(&self) -> (r: usize)
        requires
            self.wf(),
        ensures
            r == Set::new(|p: (u64, u64)| is_war_pair(self.boards@, p)).len(),
    {
        let v = self.war_pairs();
        proof {
            lemma_sorted_pairs_card(v@, Set::new(|p: (u64, u64)| is_war_pair(self.boards@, p)));
        }
        v.len()
    }
}

/// A strictly sorted sequence holds each of its elements once, so its length
/// is the size of the set it enumerates.
pub proof fn lemma_sorted_pairs_card(v: Seq<(u64, u64)>, s: Set<(u64, u64)>)
    requires
        forall|a: int, b: int| 0 <= a < b < v.len() ==> pair_lt(v[a], v[b]),
        forall|p: (u64, u64)| #[trigger] v.contains(p) <==> s.contains(p),
    ensures
        s.finite(),
        s.len() == v.len(),
{
    assert(v.no_duplicates()) by {
        assert forall|a: int, b: int| 0 <= a < v.len() && 0 <= b < v.len() && a != b implies v[a]
            != v[b] by {
            if a < b {
                assert(pair_lt(v[a], v[b]));
            } else {
                assert(pair_lt(v[b], v[a]));
            }
        }
    }
    v.unique_seq_to_set();
    assert(v.to_set() =~= s);
}

} // verus!
