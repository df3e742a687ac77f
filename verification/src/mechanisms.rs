//! The deterministic round mechanisms: situation (context paragraphs),
//! diplomacy (delivery and resolution of the round's actions), escalation
//! (allies joining a war) and the board update at the end of the round.

use vstd::prelude::*;

use crate::board::{
    keys_with, name_of, names_view, push_name, translate, translate_spec, Board, Relation,
};
use crate::metrics::{compute_round_counts, counts_of, RoundCounts};
use crate::prompts::{strings_view, targets_view, DecisionContext};
use crate::text::{owned, push_str};
use crate::world::{
    action_in_range, boards_in_range, boards_wf, rel_of, Action, ActionKind, Country, Event,
    Publicity, WarWorld,
};

verus! {

/// A relation matrix: `m(a, b)` is the relation `a` records toward `b`.
pub type RelMatrix = spec_fn(u64, u64) -> Relation;

/// The relation matrix of a list of boards.
pub open spec fn matrix_of(boards: Seq<Board>) -> RelMatrix {
    |a: u64, b: u64| rel_of(boards, a, b)
}

/// `m` with `a`'s relation toward `b` replaced by `r`.
pub open spec fn set_rel(m: RelMatrix, a: u64, b: u64, r: Relation) -> RelMatrix {
    |x: u64, y: u64|
        if x == a && y == b {
            r
        } else {
            m(x, y)
        }
}

/// Both directions of the pair set to `r`.
pub open spec fn set_both(m: RelMatrix, a: u64, b: u64, r: Relation) -> RelMatrix {
    set_rel(set_rel(m, a, b, r), b, a, r)
}

/// Within the round's actions, `from` proposes `kind` (or sends a message)
/// to `to`.
pub open spec fn proposes(all: Seq<Action>, kind: ActionKind, from: u64, to: u64) -> bool {
    exists|i: int|
        0 <= i < all.len() && all[i].actor == from && all[i].target == Some(to) && (all[i].kind
            == kind || all[i].kind == ActionKind::Message)
}

/// The effect of one action on the relation matrix.
///
/// - declare war: both directions become W;
/// - alliance: both directions become M when the target proposes an alliance
///   (or sends a message) back in the same round;
/// - non-aggression: even a one-sided offer sets T on the target's board
///   toward the proposer (the offer eases tension from the target's
///   viewpoint); a mutual offer sets T on both boards;
/// - peace: both directions back to P;
/// - wait, mobilize and message change no relation.
pub open spec fn apply_action(m: RelMatrix, act: Action, all: Seq<Action>) -> RelMatrix {
    match act.target {
        None => m,
        Some(t) => match act.kind {
            ActionKind::DeclareWar => set_both(m, act.actor, t, Relation::War),
            ActionKind::Alliance => if proposes(all, ActionKind::Alliance, t, act.actor) {
                set_both(m, act.actor, t, Relation::Alliance)
            } else {
                m
            },
            ActionKind::NonAggression => {
                let m1 = set_rel(m, t, act.actor, Relation::NonAggression);
                if proposes(all, ActionKind::NonAggression, t, act.actor) {
                    set_rel(m1, act.actor, t, Relation::NonAggression)
                } else {
                    m1
                }
            },
            ActionKind::Peace => set_both(m, act.actor, t, Relation::Peace),
            _ => m,
        },
    }
}

/// Resolving the actions `acts` in order, `all` being the round's actions.
pub open spec fn resolve(m: RelMatrix, acts: Seq<Action>, all: Seq<Action>) -> RelMatrix
    decreases acts.len(),
{
    if acts.len() == 0 {
        m
    } else {
        apply_action(resolve(m, acts.drop_last(), all), acts.last(), all)
    }
}

/// Whether action `a` reaches country `c`: public actions reach every other
/// country, secret ones only their target.
pub open spec fn delivered_to(a: Action, c: u64) -> bool {
    match a.publicity {
        Publicity::Public => c != a.actor,
        Publicity::Secret => a.target == Some(c),
    }
}

/// The actions of `acts` that reach country `c`, in order.
pub open spec fn deliveries(acts: Seq<Action>, c: u64) -> Seq<Action>
    decreases acts.len(),
{
    if acts.len() == 0 {
        seq![]
    } else if delivered_to(acts.last(), c) {
        deliveries(acts.drop_last(), c).push(acts.last())
    } else {
        deliveries(acts.drop_last(), c)
    }
}

/// Boards that are well formed, owned in order and refer to countries `0..n`.
pub open spec fn boards_ok(boards: Seq<Board>, n: nat) -> bool {
    boards.len() == n && boards_wf(boards) && boards_in_range(boards, n)
}

/// Records `r` on `a`'s board toward `b`.
pub fn set_board_relation(boards: &mut Vec<Board>, a: u64, b: u64, r: Relation)
    requires
        boards_ok(old(boards)@, old(boards)@.len()),
        a < old(boards)@.len(),
        b < old(boards)@.len(),
    ensures
        boards_ok(final(boards)@, old(boards)@.len()),
        matrix_of(final(boards)@) == set_rel(matrix_of(old(boards)@), a, b, r),
{
    let ghost old_b = boards@;
    let ghost n = old_b.len();
    let len = boards.len();
    assert(a < len);
    let ai = a as usize;
    let mut bd = boards[ai].clone_board();
    let ghost bd0 = bd;
    assert(bd0.entries() == old_b[a as int].entries());
    bd.set_relation(b, r);
    proof {
        assert forall|k: u64| k != b implies #[trigger] bd.rel(k) == old_b[a as int].rel(k) by {
            assert(bd.rel(k) == bd0.rel(k));
        }
        lemma_set_keeps_range(old_b[a as int], bd, b, n);
    }
    boards.set(ai, bd);
    assert(boards@ == old_b.update(a as int, bd));
    proof {
        assert forall|i: int, j: int|
            0 <= i < boards@.len() && 0 <= j < boards@[i].entries().len() implies #[trigger] boards@[i].entries()[j].0
            < n by {
            if i != a {
                assert(boards@[i] == old_b[i]);
            }
        }
        assert forall|x: u64, y: u64| #[trigger] rel_of(boards@, x, y) == (if x == a && y == b {
            r
        } else {
            rel_of(old_b, x, y)
        }) by {
            if x != a && x < n {
                assert(boards@[x as int] == old_b[x as int]);
            }
        }
        assert(matrix_of(boards@) =~= set_rel(matrix_of(old_b), a, b, r));
    }
}

/// After `set_relation(b, r)` with `b < n`, a board whose counterparts were
/// all below `n` still has only counterparts below `n`.
proof fn lemma_set_keeps_range(before: Board, after: Board, b: u64, n: nat)
    requires
        before.wf(),
        after.wf(),
        b < n,
        forall|j: int| 0 <= j < before.entries().len() ==> before.entries()[j].0 < n,
        forall|k: u64| k != b ==> #[trigger] after.rel(k) == before.rel(k),
    ensures
        forall|j: int| 0 <= j < after.entries().len() ==> after.entries()[j].0 < n,
{
    assert forall|j: int| 0 <= j < after.entries().len() implies after.entries()[j].0 < n by {
        let k = after.entries()[j].0;
        if k != b {
            crate::board::lemma_rel_at(after.entries(), j);
            assert(after.rel(k) != Relation::Peace);
            assert(before.rel(k) != Relation::Peace);
            if !(exists|i: int|
                0 <= i < before.entries().len() && before.entries()[i].0 == k) {
                crate::board::lemma_rel_absent(before.entries(), k);
            }
        }
    }
}

/// Whether `from` proposes `kind` (or sends a message) to `to` this round.
fn proposes_exec(all: &Vec<Action>, kind: ActionKind, from: u64, to: u64) -> (r: bool)
    ensures
        r == proposes(all@, kind, from, to),
{
    let mut i: usize = 0;
    while i < all.len()
        invariant
            0 <= i <= all@.len(),
            forall|j: int|
                0 <= j < i ==> !(all@[j].actor == from && all@[j].target == Some(to) && (
                all@[j].kind == kind || all@[j].kind == ActionKind::Message)),
        decreases all@.len() - i,
    {
        let x = all[i];
        if x.actor == from && x.target == Some(to) && (x.kind == kind || x.kind
            == ActionKind::Message) {
            return true;
        }
        i = i + 1;
    }
    false
}

/// Every action's ids refer to countries `0..n`.
pub open spec fn actions_in_range(acts: Seq<Action>, n: nat) -> bool {
    forall|i: int| 0 <= i < acts.len() ==> action_in_range(#[trigger] acts[i], n)
}

/// Appends each action to the inbox of every country it reaches: public
/// actions to all other countries, secret ones to their target only.
pub fn deliver_actions(inbox: &mut Vec<Vec<Action>>, acts: &Vec<Action>)
    requires
        actions_in_range(acts@, old(inbox)@.len()),
    ensures
        final(inbox)@.len() == old(inbox)@.len(),
        forall|c: int|
            0 <= c < old(inbox)@.len() ==> #[trigger] final(inbox)@[c]@ == old(inbox)@[c]@
                + deliveries(acts@, c as u64),
{
    let ghost old_in = inbox@;
    let n = inbox.len();
    let mut i: usize = 0;
    while i < acts.len()
        invariant
            n == inbox@.len(),
            n == old_in.len(),
            actions_in_range(acts@, n as nat),
            0 <= i <= acts@.len(),
            forall|c: int|
                0 <= c < n ==> #[trigger] inbox@[c]@ == old_in[c]@ + deliveries(
                    acts@.take(i as int),
                    c as u64,
                ),
        decreases acts@.len() - i,
    {
        let act = acts[i];
        assert(action_in_range(acts@[i as int], n as nat));
        proof {
            assert(acts@.take(i + 1).drop_last() =~= acts@.take(i as int));
            assert(acts@.take(i + 1).last() == act);
        }
        match act.publicity {
            Publicity::Public => {
                let mut c: usize = 0;
                while c < n
                    invariant
                        n == inbox@.len(),
                        0 <= c <= n,
                        act == acts@[i as int],
                        act.publicity == Publicity::Public,
                        0 <= i < acts@.len(),
                        acts@.take(i + 1).drop_last() == acts@.take(i as int),
                        acts@.take(i + 1).last() == act,
                        forall|d: int|
                            0 <= d < c ==> #[trigger] inbox@[d]@ == old_in[d]@ + deliveries(
                                acts@.take(i + 1),
                                d as u64,
                            ),
                        forall|d: int|
                            c <= d < n ==> #[trigger] inbox@[d]@ == old_in[d]@ + deliveries(
                                acts@.take(i as int),
                                d as u64,
                            ),
                    decreases n - c,
                {
                    if c as u64 != act.actor {
                        inbox[c].push(act);
                    }
                    proof {
                        assert(inbox@[c as int]@ =~= old_in[c as int]@ + deliveries(
                            acts@.take(i + 1),
                            c as u64,
                        ));
                    }
                    c = c + 1;
                }
            },
            Publicity::Secret => {
                match act.target {
                    Some(t) => {
                        let ti = t as usize;
                        inbox[ti].push(act);
                        proof {
                            assert forall|d: int| 0 <= d < n implies #[trigger] inbox@[d]@
                                =~= old_in[d]@ + deliveries(acts@.take(i + 1), d as u64) by {
                                if d != t {
                                }
                            }
                        }
                    },
                    None => {
                        proof {
                            assert forall|d: int| 0 <= d < n implies #[trigger] inbox@[d]@
                                =~= old_in[d]@ + deliveries(acts@.take(i + 1), d as u64) by {}
                        }
                    },
                }
            },
        }
        i = i + 1;
    }
    assert(acts@.take(acts@.len() as int) =~= acts@);
}

/// Resolves the round's actions on the boards, in order (see
/// [`apply_action`]).
pub fn resolve_actions(boards: &mut Vec<Board>, acts: &Vec<Action>)
    requires
        boards_ok(old(boards)@, old(boards)@.len()),
        actions_in_range(acts@, old(boards)@.len()),
    ensures
        boards_ok(final(boards)@, old(boards)@.len()),
        matrix_of(final(boards)@) == resolve(matrix_of(old(boards)@), acts@, acts@),
{
    let ghost m0 = matrix_of(boards@);
    let ghost n = boards@.len();
    let mut i: usize = 0;
    while i < acts.len()
        invariant
            boards_ok(boards@, n),
            actions_in_range(acts@, n),
            0 <= i <= acts@.len(),
            matrix_of(boards@) == resolve(m0, acts@.take(i as int), acts@),
        decreases acts@.len() - i,
    {
        let act = acts[i];
        assert(action_in_range(acts@[i as int], n));
        let ghost before = resolve(m0, acts@.take(i as int), acts@);
        proof {
            assert(acts@.take(i + 1).drop_last() =~= acts@.take(i as int));
            assert(acts@.take(i + 1).last() == act);
        }
        let ghost after = resolve(m0, acts@.take(i + 1), acts@);
        assert(after == apply_action(before, act, acts@));
        match act.target {
            None => {},
            Some(t) => {
                match act.kind {
                    ActionKind::DeclareWar => {
                        set_board_relation(boards, act.actor, t, Relation::War);
                        set_board_relation(boards, t, act.actor, Relation::War);
                    },
                    ActionKind::Alliance => {
                        if proposes_exec(acts, ActionKind::Alliance, t, act.actor) {
                            set_board_relation(boards, act.actor, t, Relation::Alliance);
                            set_board_relation(boards, t, act.actor, Relation::Alliance);
                        }
                    },
                    ActionKind::NonAggression => {
                        set_board_relation(boards, t, act.actor, Relation::NonAggression);
                        if proposes_exec(acts, ActionKind::NonAggression, t, act.actor) {
                            set_board_relation(boards, act.actor, t, Relation::NonAggression);
                        }
                    },
                    ActionKind::Peace => {
                        set_board_relation(boards, act.actor, t, Relation::Peace);
                        set_board_relation(boards, t, act.actor, Relation::Peace);
                    },
                    _ => {},
                }
            },
        }
        i = i + 1;
    }
    assert(acts@.take(acts@.len() as int) =~= acts@);
}

/// The round's declarations of war on a target, as `(aggressor, victim)`,
/// in order.
pub open spec fn new_wars(acts: Seq<Action>) -> Seq<(u64, u64)>
    decreases acts.len(),
{
    if acts.len() == 0 {
        seq![]
    } else {
        let a = acts.last();
        if a.kind == ActionKind::DeclareWar && a.target is Some {
            new_wars(acts.drop_last()).push((a.actor, a.target->0))
        } else {
            new_wars(acts.drop_last())
        }
    }
}

/// The allies of `v` (`m(v, x)` is `Alliance`) among countries `0..k`,
/// ascending.
pub open spec fn allies_below(m: RelMatrix, v: u64, k: nat) -> Seq<u64>
    decreases k,
{
    if k == 0 {
        seq![]
    } else {
        let x = (k - 1) as u64;
        if m(v, x) == Relation::Alliance {
            allies_below(m, v, (k - 1) as nat).push(x)
        } else {
            allies_below(m, v, (k - 1) as nat)
        }
    }
}

/// Escalation state: the relation matrix and the `(ally, aggressor)` joins
/// recorded so far.
pub type EscState = (RelMatrix, Seq<(u64, u64)>);

/// One ally of the victim joins the war against the aggressor, unless it is
/// the aggressor itself or already at war with it.
pub open spec fn join_step(st: EscState, ally: u64, aggressor: u64) -> EscState {
    if ally == aggressor || st.0(ally, aggressor) == Relation::War {
        st
    } else {
        (set_both(st.0, ally, aggressor, Relation::War), st.1.push((ally, aggressor)))
    }
}

/// The allies in `allies`, in order, join the war against `aggressor`.
pub open spec fn join_allies(st: EscState, allies: Seq<u64>, aggressor: u64) -> EscState
    decreases allies.len(),
{
    if allies.len() == 0 {
        st
    } else {
        join_step(join_allies(st, allies.drop_last(), aggressor), allies.last(), aggressor)
    }
}

/// Escalation over the round's war declarations, in order: for each
/// `(aggressor, victim)`, the victim's current allies among countries `0..n`
/// join the war against the aggressor (one hop).
pub open spec fn escalate(st: EscState, wars: Seq<(u64, u64)>, n: nat) -> EscState
    decreases wars.len(),
{
    if wars.len() == 0 {
        st
    } else {
        let s1 = escalate(st, wars.drop_last(), n);
        let w = wars.last();
        join_allies(s1, allies_below(s1.0, w.1, n), w.0)
    }
}

proof fn lemma_allies_below(m: RelMatrix, v: u64, k: nat)
    requires
        k <= u64::MAX,
    ensures
        forall|x: u64| #[trigger]
            allies_below(m, v, k).contains(x) <==> (x < k && m(v, x) == Relation::Alliance),
        forall|i: int, j: int|
            0 <= i < j < allies_below(m, v, k).len() ==> allies_below(m, v, k)[i] < allies_below(
                m,
                v,
                k,
            )[j],
        forall|i: int|
            0 <= i < allies_below(m, v, k).len() ==> #[trigger] allies_below(m, v, k)[i] < k,
    decreases k,
{
    if k > 0 {
        lemma_allies_below(m, v, (k - 1) as nat);
        let p = allies_below(m, v, (k - 1) as nat);
        let x = (k - 1) as u64;
        if m(v, x) == Relation::Alliance {
            assert(allies_below(m, v, k) == p.push(x));
            assert forall|y: u64| #[trigger] allies_below(m, v, k).contains(y) <==> (y < k && m(
                v,
                y,
            ) == Relation::Alliance) by {
                if y == x {
                    assert(allies_below(m, v, k)[p.len() as int] == y);
                } else if p.contains(y) {
                    let i = choose|i: int| 0 <= i < p.len() && p[i] == y;
                    assert(allies_below(m, v, k)[i] == y);
                } else if allies_below(m, v, k).contains(y) {
                    let i = choose|i: int|
                        0 <= i < allies_below(m, v, k).len() && allies_below(m, v, k)[i] == y;
                    assert(p[i] == y);
                }
            }
        }
    }
}

/// On well-formed boards over countries `0..n`, the alliance counterparts of
/// `v` are its allies below `n`.
proof fn lemma_counterparts_are_allies(boards: Seq<Board>, v: u64)
    requires
        boards_ok(boards, boards.len()),
        v < boards.len(),
        boards.len() <= u64::MAX,
    ensures
        keys_with(boards[v as int].entries(), Relation::Alliance) == allies_below(
            matrix_of(boards),
            v,
            boards.len(),
        ),
{
    let s = boards[v as int].entries();
    let n = boards.len();
    crate::board::lemma_keys_with(s, Relation::Alliance);
    lemma_allies_below(matrix_of(boards), v, n);
    let a = keys_with(s, Relation::Alliance);
    let b = allies_below(matrix_of(boards), v, n);
    assert forall|x: u64| a.contains(x) <==> b.contains(x) by {
        if a.contains(x) {
            let i = choose|i: int| 0 <= i < a.len() && a[i] == x;
            let j = choose|j: int| 0 <= j < s.len() && s[j].0 == a[i];
            assert(boards[v as int].entries()[j].0 < n);
        }
    }
    crate::board::lemma_ascending_eq(a, b);
}

/// The round's declarations of war on a target, as `(aggressor, victim)`.
fn war_declarations(acts: &Vec<Action>) -> (r: Vec<(u64, u64)>)
    ensures
        r@ == new_wars(acts@),
{
    let mut r: Vec<(u64, u64)> = Vec::new();
    let mut i: usize = 0;
    while i < acts.len()
        invariant
            0 <= i <= acts@.len(),
            r@ == new_wars(acts@.take(i as int)),
        decreases acts@.len() - i,
    {
        let a = acts[i];
        assert(acts@.take(i + 1).drop_last() =~= acts@.take(i as int));
        if a.kind == ActionKind::DeclareWar {
            match a.target {
                Some(t) => {
                    r.push((a.actor, t));
                },
                None => {},
            }
        }
        i = i + 1;
    }
    assert(acts@.take(acts@.len() as int) =~= acts@);
    r
}

proof fn lemma_new_wars_in_range(acts: Seq<Action>, n: nat)
    requires
        actions_in_range(acts, n),
    ensures
        forall|i: int|
            0 <= i < new_wars(acts).len() ==> (#[trigger] new_wars(acts)[i]).0 < n
                && new_wars(acts)[i].1 < n,
    decreases acts.len(),
{
    if acts.len() > 0 {
        assert(actions_in_range(acts.drop_last(), n)) by {
            assert forall|i: int| 0 <= i < acts.drop_last().len() implies action_in_range(
                #[trigger] acts.drop_last()[i],
                n,
            ) by {
                assert(acts.drop_last()[i] == acts[i]);
            }
        }
        lemma_new_wars_in_range(acts.drop_last(), n);
        assert(action_in_range(acts[acts.len() - 1], n));
        let p = new_wars(acts.drop_last());
        let a = acts.last();
        if a.kind == ActionKind::DeclareWar && a.target is Some {
            assert(new_wars(acts) == p.push((a.actor, a.target->0)));
            assert forall|i: int| 0 <= i < new_wars(acts).len() implies (#[trigger] new_wars(
                acts,
            )[i]).0 < n && new_wars(acts)[i].1 < n by {
                if i < p.len() {
                    assert(new_wars(acts)[i] == p[i]);
                }
            }
        }
    }
}

/// Escalation: for each declaration of war this round, in order, every
/// current ally of the victim that is not the aggressor and not yet at war
/// with it goes to war with the aggressor (both boards); the joins are
/// returned as `(ally, aggressor)` pairs.
pub fn escalate_wars(boards: &mut Vec<Board>, acts: &Vec<Action>) -> (joins: Vec<(u64, u64)>)
    requires
        boards_ok(old(boards)@, old(boards)@.len()),
        actions_in_range(acts@, old(boards)@.len()),
    ensures
        boards_ok(final(boards)@, old(boards)@.len()),
        (matrix_of(final(boards)@), joins@) == escalate(
            (matrix_of(old(boards)@), Seq::empty()),
            new_wars(acts@),
            old(boards)@.len(),
        ),
{
    let ghost st0: EscState = (matrix_of(boards@), Seq::empty());
    let ghost n = boards@.len();
    let len = boards.len();
    let wars = war_declarations(acts);
    proof {
        lemma_new_wars_in_range(acts@, n);
    }
    let mut joins: Vec<(u64, u64)> = Vec::new();
    let mut i: usize = 0;
    while i < wars.len()
        invariant
            boards_ok(boards@, n),
            len == n,
            forall|k: int| 0 <= k < wars@.len() ==> (#[trigger] wars@[k]).0 < n && wars@[k].1 < n,
            0 <= i <= wars@.len(),
            (matrix_of(boards@), joins@) == escalate(st0, wars@.take(i as int), n),
        decreases wars@.len() - i,
    {
        let (aggressor, victim) = wars[i];
        assert(wars@[i as int].0 < n && wars@[i as int].1 < n);
        let ghost s1: EscState = (matrix_of(boards@), joins@);
        assert(wars@.take(i + 1).drop_last() =~= wars@.take(i as int));
        let vi = victim as usize;
        let allies = boards[vi].counterparts(Relation::Alliance);
        proof {
            lemma_counterparts_are_allies(boards@, victim);
            lemma_allies_below(s1.0, victim, n);
            assert(allies@ == allies_below(s1.0, victim, n));
            assert(wars@.take(i + 1).last() == (aggressor, victim));
            assert(escalate(st0, wars@.take(i + 1), n) == join_allies(s1, allies@, aggressor));
        }
        let mut j: usize = 0;
        while j < allies.len()
            invariant
                boards_ok(boards@, n),
                len == n,
                aggressor < n,
                forall|k: int| 0 <= k < allies@.len() ==> #[trigger] allies@[k] < n,
                0 <= j <= allies@.len(),
                (matrix_of(boards@), joins@) == join_allies(s1, allies@.take(j as int), aggressor),
            decreases allies@.len() - j,
        {
            let ally = allies[j];
            assert(allies@.take(j + 1).drop_last() =~= allies@.take(j as int));
            assert(allies@.take(j + 1).last() == ally);
            assert(ally < n);
            let ghost sj: EscState = (matrix_of(boards@), joins@);
            if ally != aggressor {
                let ai = ally as usize;
                let already = boards[ai].relation_to(aggressor) == Relation::War;
                if !already {
                    set_board_relation(boards, ally, aggressor, Relation::War);
                    set_board_relation(boards, aggressor, ally, Relation::War);
                    joins.push((ally, aggressor));
                    assert((matrix_of(boards@), joins@) == join_step(sj, ally, aggressor));
                } else {
                    assert(sj == join_step(sj, ally, aggressor));
                }
            }
            j = j + 1;
        }
        assert(allies@.take(allies@.len() as int) =~= allies@);
        i = i + 1;
    }
    assert(wars@.take(wars@.len() as int) =~= wars@);
    joins
}

/// One-line summary of an action: `"<actor> -> <target>: <kind> (<publicity>)"`,
/// or `"<actor>: <kind> (<publicity>)"` without a target.
pub open spec fn describe_action_spec(names: Seq<Seq<char>>, act: Action) -> Seq<char> {
    match act.target {
        Some(t) => name_of(names, act.actor) + " -> "@ + name_of(names, t) + ": "@
            + act.kind.label_spec() + " ("@ + act.publicity.label_spec() + ")"@,
        None => name_of(names, act.actor) + ": "@ + act.kind.label_spec() + " ("@
            + act.publicity.label_spec() + ")"@,
    }
}

/// Summarizes an action in one line (inbox, memory and logs).
pub fn describe_action(act: &Action, names: &Vec<String>) -> (r: String)
    ensures
        r@ == describe_action_spec(names_view(names@), *act),
{
    let mut s = String::new();
    push_name(&mut s, names, act.actor);
    match act.target {
        Some(t) => {
            push_str(&mut s, " -> ");
            push_name(&mut s, names, t);
            push_str(&mut s, ": ");
        },
        None => {
            push_str(&mut s, ": ");
        },
    }
    push_str(&mut s, act.kind.label());
    push_str(&mut s, " (");
    push_str(&mut s, act.publicity.label());
    push_str(&mut s, ")");
    s
}

/// The view of an event log row.
pub open spec fn event_view(e: Event) -> (u64, u64, Seq<char>, Option<u64>, Seq<char>) {
    (e.round, e.actor, e.action@, e.target, e.publicity@)
}

/// The log row of an action taken in round `round`.
pub open spec fn action_event(round: u64, a: Action) -> (u64, u64, Seq<char>, Option<u64>, Seq<char>) {
    (round, a.actor, a.kind.label_spec(), a.target, a.publicity.label_spec())
}

/// The log row of an ally joining a war against `aggressor`.
pub open spec fn join_event(round: u64, j: (u64, u64)) -> (u64, u64, Seq<char>, Option<u64>, Seq<char>) {
    (round, j.0, "escalate_join_war"@, Some(j.1), "public"@)
}

/// Country `c` chose to mobilize this round.
pub open spec fn mobilizes(acts: Seq<Action>, c: u64) -> bool {
    exists|i: int| 0 <= i < acts.len() && acts[i].actor == c && acts[i].kind == ActionKind::Mobilize
}

/// Country `c` records war on some country.
pub open spec fn has_war(boards: Seq<Board>, c: u64) -> bool {
    exists|k: u64| rel_of(boards, c, k) == Relation::War
}

/// The summaries of the last `k` delivered actions, most recent first.
pub open spec fn recent_summaries(names: Seq<Seq<char>>, inbox: Seq<Action>, k: nat) -> Seq<Seq<char>> {
    let m = if inbox.len() < k { inbox.len() } else { k };
    Seq::new(m, |i: int| describe_action_spec(names, inbox[inbox.len() - 1 - i]))
}

/// The last `k` entries of `s`.
pub open spec fn keep_last(s: Seq<Seq<char>>, k: nat) -> Seq<Seq<char>> {
    if s.len() > k {
        s.subrange(s.len() - k, s.len() as int)
    } else {
        s
    }
}

pub open spec fn memory_view(c: Country) -> Seq<Seq<char>> {
    c.memory@.map_values(|s: String| s@)
}


/// Appends the summaries of the three most recent delivered actions to a
/// country's memory and keeps its last ten entries.
fn update_memory(country: &mut Country, inbox: &Vec<Action>, names: &Vec<String>)
    ensures
        final(country).name == old(country).name,
        final(country).profile == old(country).profile,
        final(country).stance == old(country).stance,
        final(country).stick == old(country).stick,
        memory_view(*final(country)) == keep_last(
            memory_view(*old(country)) + recent_summaries(names_view(names@), inbox@, 3),
            10,
        ),
{
    let ghost nv = names_view(names@);
    let ghost target = memory_view(*country) + recent_summaries(nv, inbox@, 3);
    let ghost m0 = memory_view(*country);
    let len = inbox.len();
    let take = if len < 3 { len } else { 3 };
    let mut i: usize = 0;
    while i < take
        invariant
            len == inbox@.len(),
            take == (if len < 3 { len } else { 3 }),
            0 <= i <= take,
            nv == names_view(names@),
            memory_view(*country) == m0 + recent_summaries(nv, inbox@, 3).take(i as int),
            country.name == old(country).name,
            country.profile == old(country).profile,
            country.stance == old(country).stance,
            country.stick == old(country).stick,
        decreases take - i,
    {
        let line = describe_action(&inbox[len - 1 - i], names);
        let ghost before = memory_view(*country);
        assert(line@ == recent_summaries(nv, inbox@, 3)[i as int]);
        assert(recent_summaries(nv, inbox@, 3).take(i + 1) =~= recent_summaries(nv, inbox@, 3).take(
            i as int,
        ).push(line@));
        country.memory.push(line);
        assert(memory_view(*country) =~= before.push(line@));
        i = i + 1;
        assert(memory_view(*country) =~= m0 + recent_summaries(nv, inbox@, 3).take(i as int));
    }
    assert(recent_summaries(nv, inbox@, 3).take(take as int) =~= recent_summaries(nv, inbox@, 3));
    let ml = country.memory.len();
    if ml > 10 {
        let mut kept: Vec<String> = Vec::new();
        let mut k: usize = ml - 10;
        let ghost full = country.memory@;
        while k < ml
            invariant
                ml == full.len(),
                ml > 10,
                ml - 10 <= k <= ml,
                full == country.memory@,
                kept@ == full.subrange(ml - 10, k as int),
            decreases ml - k,
        {
            kept.push(country.memory[k].clone());
            k = k + 1;
            assert(kept@ =~= full.subrange(ml - 10, k as int));
        }
        country.memory = kept;
        assert(memory_view(*country) =~= keep_last(target, 10));
    }
}

/// The world after the end-of-round update of `w0`, with the round's
/// escalation joins `joins`: mobilization (chosen this round, or forced by
/// being at war), the event log (the round's actions, then the joins), the
/// memories (the three most recent received actions appended, ten kept),
/// the round's counts and whether the run stops (war broke out, or this was
/// the last round).
pub open spec fn board_update_post(
    w0: &WarWorld,
    w1: &WarWorld,
    joins: Seq<(u64, u64)>,
    rounds: u64,
    war_threshold: u64,
    counts: &RoundCounts,
    stop: bool,
) -> bool {
    &&& w1.wf()
    &&& w1.countries@.len() == w0.countries@.len()
    &&& w1.boards@ == w0.boards@
    &&& w1.pending_actions@ == w0.pending_actions@
    &&& w1.inbox@ == w0.inbox@
    &&& w1.round == w0.round
    &&& w1.clock == w0.clock
    &&& w1.trigger == w0.trigger
    &&& w1.trigger_injected == w0.trigger_injected
    &&& forall|c: int| 0 <= c < w0.countries@.len() ==> {
        &&& (#[trigger] w1.countries@[c]).name == w0.countries@[c].name
        &&& w1.countries@[c].profile == w0.countries@[c].profile
        &&& w1.countries@[c].stance == w0.countries@[c].stance
        &&& w1.countries@[c].stick.mobilized == (w0.countries@[c].stick.mobilized || mobilizes(
            w0.pending_actions@,
            c as u64,
        ) || has_war(w0.boards@, c as u64))
        &&& memory_view(w1.countries@[c]) == keep_last(
            memory_view(w0.countries@[c]) + recent_summaries(
                world_names(w0),
                w0.inbox@[c]@,
                3,
            ),
            10,
        )
    }
    &&& w1.event_log@.map_values(|e: Event| event_view(e)) == w0.event_log@.map_values(
        |e: Event| event_view(e),
    ) + w0.pending_actions@.map_values(|a: Action| action_event(w0.round, a)) + joins.map_values(
        |j: (u64, u64)| join_event(w0.round, j),
    )
    &&& counts_of(w1, w0.round, war_threshold, counts)
    &&& stop == (counts.war_outbreak == 1 || w0.round + 1 >= rounds)
}

/// The end-of-round update: mobilization (chosen, or forced by being at
/// war), the event log, the countries' memories, the round's counts and the
/// decision to stop.
pub struct BoardUpdateMechanism {
    pub rounds: u64,
    pub war_threshold: u64,
}

impl BoardUpdateMechanism {
    pub fn new(rounds: u64, war_threshold: u64) -> (m: BoardUpdateMechanism)
        ensures
            m.rounds == rounds,
            m.war_threshold == war_threshold,
    {
        BoardUpdateMechanism { rounds, war_threshold }
    }

    pub fn name(&self) -> (r: &'static str)
        ensures
            r@ == "board_update"@,
    {
        "board_update"
    }

    /// Applies the update; returns the round's counts and whether the run
    /// stops (war broke out, or this was the last round).
    pub fn apply(&self, world: &mut WarWorld, joins: &Vec<(u64, u64)>) -> (r: (RoundCounts, bool))
        requires
            old(world).wf(),
        ensures
            board_update_post(
                &*old(world),
                &*final(world),
                joins@,
                self.rounds,
                self.war_threshold,
                &r.0,
                r.1,
            ),
    {
        let round = world.round;
        let names = world.name_map();
        let ghost nv = names_view(names@);
        assert(nv =~= old(world).countries@.map_values(|x: Country| x.name@));
        let n = world.countries.len();
        // mobilization chosen this round
        let mut i: usize = 0;
        while i < world.pending_actions.len()
            invariant
                world.wf(),
                n == world.n(),
                world.boards@ == old(world).boards@,
                world.pending_actions@ == old(world).pending_actions@,
                world.inbox@ == old(world).inbox@,
                world.event_log@ == old(world).event_log@,
                world.round == old(world).round,
                world.clock == old(world).clock,
                world.trigger == old(world).trigger,
                world.trigger_injected == old(world).trigger_injected,
                0 <= i <= world.pending_actions@.len(),
                forall|c: int| 0 <= c < n ==> {
                    &&& (#[trigger] world.countries@[c]).name == old(world).countries@[c].name
                    &&& world.countries@[c].profile == old(world).countries@[c].profile
                    &&& world.countries@[c].stance == old(world).countries@[c].stance
                    &&& world.countries@[c].memory == old(world).countries@[c].memory
                    &&& world.countries@[c].stick.mobilized == (old(world).countries@[c].stick.mobilized
                        || mobilizes(world.pending_actions@.take(i as int), c as u64))
                },
            decreases world.pending_actions@.len() - i,
        {
            let act = world.pending_actions[i];
            assert(action_in_range(world.pending_actions@[i as int], n as nat));
            if act.kind == ActionKind::Mobilize {
                world.countries[act.actor as usize].stick.mobilized = true;
            }
            proof {
                let acts = world.pending_actions@;
                let t1 = acts.take(i + 1);
                let t0 = acts.take(i as int);
                assert forall|c: u64| c < n implies #[trigger] mobilizes(t1, c) == (
                    mobilizes(t0, c) || (acts[i as int].actor == c
                    && acts[i as int].kind == ActionKind::Mobilize)) by {
                    if mobilizes(t1, c) {
                        let k = choose|k: int| 0 <= k < t1.len() && t1[k].actor == c
                            && t1[k].kind == ActionKind::Mobilize;
                        if k < i {
                            assert(t0[k] == acts[k]);
                        }
                    }
                    if mobilizes(t0, c) {
                        let k = choose|k: int| 0 <= k < t0.len() && t0[k].actor == c
                            && t0[k].kind == ActionKind::Mobilize;
                        assert(t1[k] == acts[k]);
                    }
                    if acts[i as int].actor == c && acts[i as int].kind == ActionKind::Mobilize {
                        assert(t1[i as int] == acts[i as int]);
                    }
                }
            }
            i = i + 1;
        }
        assert(world.pending_actions@.take(world.pending_actions@.len() as int) =~= world.pending_actions@);
        // countries at war mobilize
        let mut c: usize = 0;
        while c < n
            invariant
                world.wf(),
                n == world.n(),
                world.boards@ == old(world).boards@,
                world.pending_actions@ == old(world).pending_actions@,
                world.inbox@ == old(world).inbox@,
                world.event_log@ == old(world).event_log@,
                world.round == old(world).round,
                world.clock == old(world).clock,
                world.trigger == old(world).trigger,
                world.trigger_injected == old(world).trigger_injected,
                0 <= c <= n,
                forall|d: int| 0 <= d < n ==> {
                    &&& (#[trigger] world.countries@[d]).name == old(world).countries@[d].name
                    &&& world.countries@[d].profile == old(world).countries@[d].profile
                    &&& world.countries@[d].stance == old(world).countries@[d].stance
                    &&& world.countries@[d].memory == old(world).countries@[d].memory
                    &&& world.countries@[d].stick.mobilized == (old(world).countries@[d].stick.mobilized
                        || mobilizes(world.pending_actions@, d as u64)
                        || (d < c && has_war(world.boards@, d as u64)))
                },
            decreases n - c,
        {
            let wars = world.boards[c].counterparts(Relation::War);
            proof {
                assert(world.boards@[c as int].wf());
                if wars@.len() > 0 {
                    assert(wars@.contains(wars@[0]));
                    assert(rel_of(world.boards@, c as u64, wars@[0]) == Relation::War);
                }
                let cc = c as u64;
                if has_war(world.boards@, cc) {
                    let k = choose|k: u64| rel_of(world.boards@, cc, k) == Relation::War;
                    assert(wars@.contains(k));
                }
            }
            if wars.len() > 0 {
                world.countries[c].stick.mobilized = true;
            }
            c = c + 1;
        }
        // event log: actions, then escalation joins
        let ghost cs = world.countries@;
        let ghost log0 = world.event_log@.map_values(|e: Event| event_view(e));
        let ghost acts = world.pending_actions@;
        let mut i: usize = 0;
        while i < world.pending_actions.len()
            invariant
                world.wf(),
                n == world.n(),
                acts == world.pending_actions@,
                world.round == round,
                0 <= i <= acts.len(),
                world.boards@ == old(world).boards@,
                world.inbox@ == old(world).inbox@,
                world.countries@ == cs,
                world.clock == old(world).clock,
                world.trigger == old(world).trigger,
                world.trigger_injected == old(world).trigger_injected,
                world.event_log@.map_values(|e: Event| event_view(e)) == log0 + acts.take(i as int).map_values(
                    |a: Action| action_event(round, a),
                ),
            decreases acts.len() - i,
        {
            let act = world.pending_actions[i];
            let target = act.target;
            let e = Event {
                round,
                actor: act.actor,
                action: owned(act.kind.label()),
                target,
                publicity: owned(act.publicity.label()),
            };
            let ghost ev = event_view(e);
            let ghost pre = world.event_log@;
            assert(ev == action_event(round, acts[i as int]));
            world.event_log.push(e);
            assert(world.event_log@ == pre.push(e));
            assert(world.event_log@.map_values(|e: Event| event_view(e)) =~= pre.map_values(
                |e: Event| event_view(e),
            ).push(ev));
            assert(acts.take(i + 1).map_values(|a: Action| action_event(round, a)) =~= acts.take(
                i as int,
            ).map_values(|a: Action| action_event(round, a)).push(ev));
            i = i + 1;
            assert(world.event_log@.map_values(|e: Event| event_view(e)) =~= log0 + acts.take(i as int).map_values(
                |a: Action| action_event(round, a),
            ));
        }
        assert(acts.take(acts.len() as int) =~= acts);
        let ghost log1 = world.event_log@.map_values(|e: Event| event_view(e));
        let mut j: usize = 0;
        while j < joins.len()
            invariant
                world.wf(),
                n == world.n(),
                world.round == round,
                0 <= j <= joins@.len(),
                world.boards@ == old(world).boards@,
                world.inbox@ == old(world).inbox@,
                world.countries@ == cs,
                world.pending_actions@ == old(world).pending_actions@,
                world.clock == old(world).clock,
                world.trigger == old(world).trigger,
                world.trigger_injected == old(world).trigger_injected,
                world.event_log@.map_values(|e: Event| event_view(e)) == log1 + joins@.take(j as int).map_values(
                    |x: (u64, u64)| join_event(round, x),
                ),
            decreases joins@.len() - j,
        {
            let (ally, aggressor) = joins[j];
            let e = Event {
                round,
                actor: ally,
                action: owned("escalate_join_war"),
                target: Some(aggressor),
                publicity: owned(Publicity::Public.label()),
            };
            let ghost ev = event_view(e);
            let ghost pre = world.event_log@;
            assert(ev == join_event(round, joins@[j as int]));
            world.event_log.push(e);
            assert(world.event_log@ == pre.push(e));
            assert(world.event_log@.map_values(|e: Event| event_view(e)) =~= pre.map_values(
                |e: Event| event_view(e),
            ).push(ev));
            assert(joins@.take(j + 1).map_values(|x: (u64, u64)| join_event(round, x)) =~= joins@.take(
                j as int,
            ).map_values(|x: (u64, u64)| join_event(round, x)).push(ev));
            j = j + 1;
            assert(world.event_log@.map_values(|e: Event| event_view(e)) =~= log1 + joins@.take(j as int).map_values(
                |x: (u64, u64)| join_event(round, x),
            ));
        }
        assert(joins@.take(joins@.len() as int) =~= joins@);
        // memories
        let ghost before_mem = world.countries@;
        let mut c: usize = 0;
        while c < n
            invariant
                world.wf(),
                n == world.n(),
                nv == names_view(names@),
                world.round == round,
                0 <= c <= n,
                world.boards@ == old(world).boards@,
                world.inbox@ == old(world).inbox@,
                world.pending_actions@ == old(world).pending_actions@,
                world.clock == old(world).clock,
                world.trigger == old(world).trigger,
                world.trigger_injected == old(world).trigger_injected,
                world.event_log@.map_values(|e: Event| event_view(e)) == log1 + joins@.map_values(
                    |x: (u64, u64)| join_event(round, x),
                ),
                forall|d: int| 0 <= d < n ==> {
                    &&& (#[trigger] world.countries@[d]).name == before_mem[d].name
                    &&& world.countries@[d].profile == before_mem[d].profile
                    &&& world.countries@[d].stance == before_mem[d].stance
                    &&& world.countries@[d].stick == before_mem[d].stick
                    &&& memory_view(world.countries@[d]) == if d < c {
                        keep_last(memory_view(before_mem[d]) + recent_summaries(nv, world.inbox@[d]@, 3), 10)
                    } else {
                        memory_view(before_mem[d])
                    }
                },
            decreases n - c,
        {
            update_memory(&mut world.countries[c], &world.inbox[c], &names);
            c = c + 1;
        }
        let counts = compute_round_counts(world, round, self.war_threshold);
        let stop = counts.war_outbreak == 1 || round >= self.rounds || self.rounds - round <= 1;
        (counts, stop)
    }
}


/// The countries' names, by id.
pub open spec fn world_names(world: &WarWorld) -> Seq<Seq<char>> {
    world.countries@.map_values(|c: Country| c.name@)
}

/// The round a clock with `t` ticks is in (from 0).
pub open spec fn round_at(t: u64) -> u64 {
    if t == 0 {
        0
    } else {
        (t - 1) as u64
    }
}

/// The world after the first stage of a round of `w0`, with the context
/// paragraph of each country.
pub open spec fn situation_post(w0: &WarWorld, w1: &WarWorld, contexts: Seq<String>) -> bool {
    &&& w1.wf()
    &&& w1.round == round_at(w0.clock.t)
    &&& w1.pending_actions@.len() == 0
    &&& w1.trigger_injected == (w0.trigger_injected || w1.round == 0)
    &&& w1.clock == w0.clock
    &&& w1.countries@ == w0.countries@
    &&& w1.boards@ == w0.boards@
    &&& w1.inbox@ == w0.inbox@
    &&& w1.event_log@ == w0.event_log@
    &&& w1.trigger == w0.trigger
    &&& contexts.len() == w0.n()
    &&& forall|i: int|
        0 <= i < contexts.len() ==> (#[trigger] contexts[i])@ == translate_spec(
            world_names(w0),
            i as u64,
            w0.boards@[i].entries(),
            w0.countries@[i].stick.mobilized,
        )
}

/// The first stage of a round: it sets the round from the clock, clears the
/// pending actions, marks the breaking event as shown in round 0, and gives
/// each country the paragraph describing its board and domestic state.
pub struct SituationMechanism;

impl SituationMechanism {
    pub fn name(&self) -> (r: &'static str)
        ensures
            r@ == "situation"@,
    {
        "situation"
    }

    /// Prepares the round; returns the context paragraph of each country,
    /// by id.
    pub fn apply(&self, world: &mut WarWorld) -> (contexts: Vec<String>)
        requires
            old(world).wf(),
        ensures
            situation_post(&*old(world), &*final(world), contexts@),
    {
        let round = world.current_round();
        world.round = round;
        world.pending_actions = Vec::new();
        let names = world.name_map();
        assert(names_view(names@) =~= world_names(&*old(world)));
        let mut contexts: Vec<String> = Vec::new();
        let n = world.countries.len();
        let mut i: usize = 0;
        while i < n
            invariant
                world.wf(),
                n == world.n(),
                world.countries@ == old(world).countries@,
                world.boards@ == old(world).boards@,
                names_view(names@) == world_names(&*old(world)),
                0 <= i <= n,
                contexts@.len() == i,
                forall|j: int|
                    0 <= j < i ==> (#[trigger] contexts@[j])@ == translate_spec(
                        world_names(&*old(world)),
                        j as u64,
                        old(world).boards@[j].entries(),
                        old(world).countries@[j].stick.mobilized,
                    ),
            decreases n - i,
        {
            assert(world.boards@[i as int].wf() && world.boards@[i as int].owner == i);
            let para = translate(&world.boards[i], &world.countries[i].stick, &names);
            contexts.push(para);
            i = i + 1;
        }
        if round == 0 && !world.trigger_injected {
            world.trigger_injected = true;
        }
        contexts
    }
}

/// The world after delivering and resolving the actions `acts` in `w0`
/// (whose pending actions they are).
pub open spec fn diplomacy_post(w0: &WarWorld, acts: Seq<Action>, w1: &WarWorld) -> bool {
    &&& w1.wf()
    &&& w1.inbox@.len() == w0.inbox@.len()
    &&& forall|c: int|
        0 <= c < w0.inbox@.len() ==> #[trigger] w1.inbox@[c]@ == w0.inbox@[c]@ + deliveries(
            acts,
            c as u64,
        )
    &&& matrix_of(w1.boards@) == resolve(matrix_of(w0.boards@), acts, acts)
    &&& w1.countries@ == w0.countries@
    &&& w1.pending_actions@ == acts
    &&& w1.event_log@ == w0.event_log@
    &&& w1.round == w0.round
    &&& w1.clock == w0.clock
    &&& w1.trigger == w0.trigger
    &&& w1.trigger_injected == w0.trigger_injected
}

/// Delivers the round's actions (public ones to every other country, secret
/// ones to their target) and resolves them on the boards.
pub struct DiplomacyMechanism;

impl DiplomacyMechanism {
    pub fn name(&self) -> (r: &'static str)
        ensures
            r@ == "diplomacy"@,
    {
        "diplomacy"
    }

    /// Delivers and resolves the pending actions (see [`deliveries`] and
    /// [`apply_action`]).
    pub fn apply(&self, world: &mut WarWorld)
        requires
            old(world).wf(),
        ensures
            diplomacy_post(&*old(world), old(world).pending_actions@, &*final(world)),
    {
        let ghost n = world.n();
        assert(actions_in_range(world.pending_actions@, n));
        deliver_actions(&mut world.inbox, &world.pending_actions);
        resolve_actions(&mut world.boards, &world.pending_actions);
    }
}

/// The world after escalation of the declarations of war pending in `w0`,
/// with the joins recorded.
pub open spec fn escalation_post(w0: &WarWorld, w1: &WarWorld, joins: Seq<(u64, u64)>) -> bool {
    &&& w1.wf()
    &&& (matrix_of(w1.boards@), joins) == escalate(
        (matrix_of(w0.boards@), Seq::empty()),
        new_wars(w0.pending_actions@),
        w0.n(),
    )
    &&& w1.countries@ == w0.countries@
    &&& w1.inbox@ == w0.inbox@
    &&& w1.pending_actions@ == w0.pending_actions@
    &&& w1.event_log@ == w0.event_log@
    &&& w1.round == w0.round
    &&& w1.clock == w0.clock
    &&& w1.trigger == w0.trigger
    &&& w1.trigger_injected == w0.trigger_injected
}

/// Allies of a country that war was declared on join the war against the
/// aggressor (one hop).
pub struct EscalationMechanism;

impl EscalationMechanism {
    pub fn name(&self) -> (r: &'static str)
        ensures
            r@ == "escalation"@,
    {
        "escalation"
    }

    /// Applies escalation for the round's declarations of war; returns the
    /// joins as `(ally, aggressor)` pairs (see [`escalate`]).
    pub fn apply(&self, world: &mut WarWorld) -> (joins: Vec<(u64, u64)>)
        requires
            old(world).wf(),
        ensures
            escalation_post(&*old(world), &*final(world), joins@),
    {
        let ghost n = world.n();
        assert(actions_in_range(world.pending_actions@, n));
        escalate_wars(&mut world.boards, &world.pending_actions)
    }
}


/// The countries other than `actor` among ids `0..k`, ascending, with their
/// names.
pub open spec fn other_targets(names: Seq<Seq<char>>, actor: u64, k: nat) -> Seq<(u64, Seq<char>)>
    decreases k,
{
    if k == 0 {
        seq![]
    } else {
        let x = (k - 1) as u64;
        let rest = other_targets(names, actor, (k - 1) as nat);
        if x == actor {
            rest
        } else {
            rest.push((x, names[x as int]))
        }
    }
}

/// The summaries of the last `k` actions of `inbox`, most recent first.
pub fn recent_lines(inbox: &Vec<Action>, names: &Vec<String>, k: usize) -> (r: Vec<String>)
    ensures
        strings_view(r@) == recent_summaries(names_view(names@), inbox@, k as nat),
{
    let ghost nv = names_view(names@);
    let len = inbox.len();
    let take = if len < k { len } else { k };
    let mut r: Vec<String> = Vec::new();
    let mut i: usize = 0;
    while i < take
        invariant
            len == inbox@.len(),
            take == (if len < k { len } else { k }),
            0 <= i <= take,
            nv == names_view(names@),
            strings_view(r@) == recent_summaries(nv, inbox@, k as nat).take(i as int),
        decreases take - i,
    {
        let line = describe_action(&inbox[len - 1 - i], names);
        let ghost before = strings_view(r@);
        assert(line@ == recent_summaries(nv, inbox@, k as nat)[i as int]);
        r.push(line);
        assert(strings_view(r@) =~= before.push(line@));
        i = i + 1;
        assert(strings_view(r@) =~= recent_summaries(nv, inbox@, k as nat).take(i as int));
    }
    assert(recent_summaries(nv, inbox@, k as nat).take(take as int) =~= recent_summaries(
        nv,
        inbox@,
        k as nat,
    ));
    r
}

/// Each country decides its action: a decision prompt, then the given
/// number of secretary checks of the proposed action; the answer to the
/// last prompt is the action. The prompts themselves are answered outside
/// the library; this type builds what they show.
pub struct CountryDecisionMechanism {
    /// How many secretary checks follow each decision.
    pub secretary_passes: u64,
}

impl CountryDecisionMechanism {
    pub fn new(secretary_passes: u64) -> (m: CountryDecisionMechanism)
        ensures
            m.secretary_passes == secretary_passes,
    {
        CountryDecisionMechanism { secretary_passes }
    }

    pub fn name(&self) -> (r: &'static str)
        ensures
            r@ == "country_decision"@,
    {
        "country_decision"
    }

    /// What `actor`'s prompts show: its state, its context paragraph, the
    /// breaking event in round 0, the five most recent received actions
    /// (most recent first) and the other countries as targets.
    pub fn context<'a>(&self, world: &'a WarWorld, actor: u64, board_context: String) -> (cx:
        DecisionContext<'a>)
        requires
            world.wf(),
            actor < world.n(),
        ensures
            cx.actor == actor,
            *cx.country == world.countries@[actor as int],
            cx.board_context@ == board_context@,
            world.round == 0 && world.trigger is Some ==> (cx.trigger matches Some(t) && t@
                == world.trigger->0@),
            !(world.round == 0 && world.trigger is Some) ==> cx.trigger is None,
            strings_view(cx.inbox_summary@) == recent_summaries(
                world_names(world),
                world.inbox@[actor as int]@,
                5,
            ),
            targets_view(cx.targets@) == other_targets(world_names(world), actor, world.n()),
            cx.round == world.round,
    {
        let names = world.name_map();
        assert(names_view(names@) =~= world_names(world));
        let n = world.countries.len();
        let mut targets: Vec<(u64, String)> = Vec::new();
        let mut i: usize = 0;
        while i < n
            invariant
                n == world.n(),
                0 <= i <= n,
                names_view(names@) == world_names(world),
                names@.len() == n,
                targets_view(targets@) == other_targets(world_names(world), actor, i as nat),
            decreases n - i,
        {
            let ghost before = targets_view(targets@);
            if i as u64 != actor {
                let nm = names[i].clone();
                assert(nm@ == world_names(world)[i as int]);
                targets.push((i as u64, nm));
                assert(targets_view(targets@) =~= before.push((i as u64, nm@)));
            }
            i = i + 1;
        }
        let inbox_summary = recent_lines(&world.inbox[actor as usize], &names, 5);
        let trigger: Option<&'a str> = if world.round == 0 {
            match &world.trigger {
                Some(t) => Some(t.as_str()),
                None => None,
            }
        } else {
            None
        };
        DecisionContext {
            actor,
            country: &world.countries[actor as usize],
            board_context,
            trigger,
            inbox_summary,
            targets,
            round: world.round,
        }
    }
}

/// The ids of a context's targets, in order.
pub fn target_ids(cx: &DecisionContext) -> (r: Vec<u64>)
    ensures
        r@ == cx.targets@.map_values(|p: (u64, String)| p.0),
{
    let mut r: Vec<u64> = Vec::new();
    let mut i: usize = 0;
    while i < cx.targets.len()
        invariant
            0 <= i <= cx.targets@.len(),
            r@ == cx.targets@.take(i as int).map_values(|p: (u64, String)| p.0),
        decreases cx.targets@.len() - i,
    {
        r.push(cx.targets[i].0);
        i = i + 1;
        assert(r@ =~= cx.targets@.take(i as int).map_values(|p: (u64, String)| p.0));
    }
    assert(cx.targets@.take(cx.targets@.len() as int) =~= cx.targets@);
    r
}


/// The action concerns the pair `a`, `b` (in either direction).
pub open spec fn touches(act: Action, a: u64, b: u64) -> bool {
    match act.target {
        Some(t) => (act.actor == a && t == b) || (act.actor == b && t == a),
        None => false,
    }
}

/// The relation an action leaves between its actor and its target in both
/// directions, when it decides both: a declaration of war, peace, or an
/// alliance answered in the same round.
pub open spec fn settles(act: Action, all: Seq<Action>) -> Option<Relation> {
    match act.target {
        None => None,
        Some(t) => match act.kind {
            ActionKind::DeclareWar => Some(Relation::War),
            ActionKind::Peace => Some(Relation::Peace),
            ActionKind::Alliance => if proposes(all, ActionKind::Alliance, t, act.actor) {
                Some(Relation::Alliance)
            } else {
                None
            },
            _ => None,
        },
    }
}

/// Resolving two runs of actions one after the other is resolving them
/// together.
pub proof fn lemma_resolve_append(m: RelMatrix, s1: Seq<Action>, s2: Seq<Action>, all: Seq<Action>)
    ensures
        resolve(m, s1 + s2, all) == resolve(resolve(m, s1, all), s2, all),
    decreases s2.len(),
{
    if s2.len() == 0 {
        assert(s1 + s2 =~= s1);
    } else {
        lemma_resolve_append(m, s1, s2.drop_last(), all);
        assert((s1 + s2).drop_last() =~= s1 + s2.drop_last());
        assert((s1 + s2).last() == s2.last());
    }
}

/// Actions that do not concern a pair leave its relations as they were.
pub proof fn lemma_resolve_untouched(m: RelMatrix, acts: Seq<Action>, all: Seq<Action>, a: u64, b: u64)
    requires
        forall|i: int| 0 <= i < acts.len() ==> !touches(#[trigger] acts[i], a, b),
    ensures
        resolve(m, acts, all)(a, b) == m(a, b),
    decreases acts.len(),
{
    if acts.len() > 0 {
        assert forall|i: int| 0 <= i < acts.drop_last().len() implies !touches(
            #[trigger] acts.drop_last()[i],
            a,
            b,
        ) by {
            assert(acts.drop_last()[i] == acts[i]);
        }
        lemma_resolve_untouched(m, acts.drop_last(), all, a, b);
        assert(!touches(acts[acts.len() - 1], a, b));
    }
}

/// The last word on a pair: when the `i`-th action of the round settles
/// the relation between its actor and target (war, peace, or an answered
/// alliance) and no later action of the round concerns that pair, both
/// sides end the round with that relation.
pub proof fn lemma_last_word(m: RelMatrix, acts: Seq<Action>, i: int)
    requires
        0 <= i < acts.len(),
        settles(acts[i], acts) is Some,
        forall|j: int|
            i < j < acts.len() ==> !touches(
                #[trigger] acts[j],
                acts[i].actor,
                acts[i].target->0,
            ),
    ensures
        ({
            let a = acts[i].actor;
            let t = acts[i].target->0;
            let r = settles(acts[i], acts)->0;
            &&& resolve(m, acts, acts)(a, t) == r
            &&& resolve(m, acts, acts)(t, a) == r
        }),
{
    let a = acts[i].actor;
    let t = acts[i].target->0;
    let pre = acts.take(i + 1);
    let post = acts.skip(i + 1);
    assert(pre + post =~= acts);
    lemma_resolve_append(m, pre, post, acts);
    assert(pre.drop_last() =~= acts.take(i));
    assert(pre.last() == acts[i]);
    let mid = resolve(m, pre, acts);
    assert forall|j: int| 0 <= j < post.len() implies !touches(#[trigger] post[j], a, t) by {
        assert(post[j] == acts[i + 1 + j]);
    }
    assert forall|j: int| 0 <= j < post.len() implies !touches(#[trigger] post[j], t, a) by {
        assert(post[j] == acts[i + 1 + j]);
    }
    lemma_resolve_untouched(mid, post, acts, a, t);
    lemma_resolve_untouched(mid, post, acts, t, a);
}

/// `st1` follows `st0` by adding wars only: wars stay wars, every relation
/// that changed became war in both directions, the joins are extended, and
/// each new join is a war in both directions.
pub open spec fn adds_wars(st0: EscState, st1: EscState) -> bool {
    &&& forall|a: u64, b: u64| st0.0(a, b) == Relation::War ==> #[trigger] st1.0(a, b) == Relation::War
    &&& forall|a: u64, b: u64|
        #[trigger] st1.0(a, b) != st0.0(a, b) ==> st1.0(a, b) == Relation::War && st1.0(b, a)
            == Relation::War
    &&& st0.1.len() <= st1.1.len()
    &&& st1.1.take(st0.1.len() as int) == st0.1
    &&& forall|k: int|
        st0.1.len() <= k < st1.1.len() ==> st1.0((#[trigger] st1.1[k]).0, st1.1[k].1)
            == Relation::War && st1.0(st1.1[k].1, st1.1[k].0) == Relation::War
}

proof fn lemma_adds_wars_trans(st0: EscState, st1: EscState, st2: EscState)
    requires
        adds_wars(st0, st1),
        adds_wars(st1, st2),
    ensures
        adds_wars(st0, st2),
{
    assert forall|a: u64, b: u64| st0.0(a, b) == Relation::War implies #[trigger] st2.0(a, b)
        == Relation::War by {
        assert(st1.0(a, b) == Relation::War);
    }
    assert(st2.1.take(st0.1.len() as int) == st0.1) by {
        assert(st2.1.take(st0.1.len() as int) =~= st2.1.take(st1.1.len() as int).take(
            st0.1.len() as int,
        ));
    }
    assert forall|a: u64, b: u64| #[trigger] st2.0(a, b) != st0.0(a, b) implies st2.0(a, b)
        == Relation::War && st2.0(b, a) == Relation::War by {
        if st1.0(a, b) != st0.0(a, b) {
            assert(st1.0(b, a) == Relation::War);
            assert(st2.0(a, b) == Relation::War);
            assert(st2.0(b, a) == Relation::War);
        } else {
            assert(st2.0(a, b) != st1.0(a, b));
        }
    }
    assert forall|k: int| st0.1.len() <= k < st2.1.len() implies st2.0(
        (#[trigger] st2.1[k]).0,
        st2.1[k].1,
    ) == Relation::War && st2.0(st2.1[k].1, st2.1[k].0) == Relation::War by {
        if k < st1.1.len() {
            assert(st2.1[k] == st2.1.take(st1.1.len() as int)[k]);
            assert(st1.1[k] == st2.1[k]);
            assert(st1.0(st1.1[k].0, st1.1[k].1) == Relation::War);
            assert(st1.0(st1.1[k].1, st1.1[k].0) == Relation::War);
        }
    }
}

proof fn lemma_join_allies_adds_wars(st: EscState, allies: Seq<u64>, aggressor: u64)
    ensures
        adds_wars(st, join_allies(st, allies, aggressor)),
    decreases allies.len(),
{
    if allies.len() == 0 {
        assert(st.1.take(st.1.len() as int) =~= st.1);
    } else {
        let s1 = join_allies(st, allies.drop_last(), aggressor);
        lemma_join_allies_adds_wars(st, allies.drop_last(), aggressor);
        let s2 = join_step(s1, allies.last(), aggressor);
        assert(adds_wars(s1, s2)) by {
            assert(s1.1.take(s1.1.len() as int) =~= s1.1);
            if s2 != s1 {
                assert(s2.1.take(s1.1.len() as int) =~= s1.1);
            }
        }
        lemma_adds_wars_trans(st, s1, s2);
    }
}

/// Escalation only adds wars: a pair at war stays at war, every relation
/// it changes becomes war in both directions, and every recorded join
/// `(ally, aggressor)` is a war in both directions.
pub proof fn lemma_escalate_adds_wars(st: EscState, wars: Seq<(u64, u64)>, n: nat)
    ensures
        adds_wars(st, escalate(st, wars, n)),
    decreases wars.len(),
{
    if wars.len() == 0 {
        assert(st.1.take(st.1.len() as int) =~= st.1);
    } else {
        let s1 = escalate(st, wars.drop_last(), n);
        lemma_escalate_adds_wars(st, wars.drop_last(), n);
        let w = wars.last();
        lemma_join_allies_adds_wars(s1, allies_below(s1.0, w.1, n), w.0);
        lemma_adds_wars_trans(st, s1, escalate(st, wars, n));
    }
}


proof fn lemma_join_allies_member(st: EscState, allies: Seq<u64>, aggressor: u64, x: u64)
    requires
        allies.contains(x),
        x != aggressor,
    ensures
        join_allies(st, allies, aggressor).0(x, aggressor) == Relation::War,
    decreases allies.len(),
{
    let s1 = join_allies(st, allies.drop_last(), aggressor);
    if allies.last() != x {
        let i = choose|i: int| 0 <= i < allies.len() && allies[i] == x;
        assert(allies.drop_last()[i] == x);
        lemma_join_allies_member(st, allies.drop_last(), aggressor, x);
    }
}

proof fn lemma_escalate_append(st: EscState, w1: Seq<(u64, u64)>, w2: Seq<(u64, u64)>, n: nat)
    ensures
        escalate(st, w1 + w2, n) == escalate(escalate(st, w1, n), w2, n),
    decreases w2.len(),
{
    if w2.len() == 0 {
        assert(w1 + w2 =~= w1);
    } else {
        lemma_escalate_append(st, w1, w2.drop_last(), n);
        assert((w1 + w2).drop_last() =~= w1 + w2.drop_last());
        assert((w1 + w2).last() == w2.last());
    }
}

/// Allies are pulled in: for the `k`-th declaration of war of the round,
/// every country (other than the aggressor) allied to the victim at that
/// point ends the escalation at war with the aggressor.
pub proof fn lemma_allies_join(st: EscState, wars: Seq<(u64, u64)>, n: nat, k: int, x: u64)
    requires
        n <= u64::MAX,
        0 <= k < wars.len(),
        x < n,
        x != wars[k].0,
        escalate(st, wars.take(k), n).0(wars[k].1, x) == Relation::Alliance,
    ensures
        escalate(st, wars, n).0(x, wars[k].0) == Relation::War,
{
    let sk = escalate(st, wars.take(k), n);
    let a = wars[k].0;
    let v = wars[k].1;
    assert(wars.take(k + 1).drop_last() =~= wars.take(k));
    assert(wars.take(k + 1).last() == wars[k]);
    let sk1 = escalate(st, wars.take(k + 1), n);
    lemma_allies_below(sk.0, v, n);
    assert(allies_below(sk.0, v, n).contains(x));
    lemma_join_allies_member(sk, allies_below(sk.0, v, n), a, x);
    assert(sk1.0(x, a) == Relation::War);
    assert(wars.take(k + 1) + wars.skip(k + 1) =~= wars);
    lemma_escalate_append(st, wars.take(k + 1), wars.skip(k + 1), n);
    lemma_escalate_adds_wars(sk1, wars.skip(k + 1), n);
}

/// Delivery: the actions that reach country `c` are exactly the round's
/// actions delivered to it — public actions of the other countries and
/// secret actions aimed at `c` — so a secret action reaches no one but its
/// target.
pub proof fn lemma_deliveries_members(acts: Seq<Action>, c: u64)
    ensures
        forall|x: Action| #[trigger] deliveries(acts, c).contains(x) <==> (acts.contains(x)
            && delivered_to(x, c)),
    decreases acts.len(),
{
    if acts.len() > 0 {
        let p = acts.drop_last();
        lemma_deliveries_members(p, c);
        let d = deliveries(acts, c);
        let dp = deliveries(p, c);
        assert forall|x: Action| #[trigger] d.contains(x) <==> (acts.contains(x) && delivered_to(x, c)) by {
            if acts.contains(x) && delivered_to(x, c) {
                let i = choose|i: int| 0 <= i < acts.len() && acts[i] == x;
                if i < p.len() {
                    assert(p[i] == x);
                    assert(dp.contains(x));
                    let j = choose|j: int| 0 <= j < dp.len() && dp[j] == x;
                    if delivered_to(acts.last(), c) {
                        assert(d[j] == x);
                    } else {
                        assert(d[j] == x);
                    }
                } else {
                    assert(d[d.len() - 1] == x);
                }
            }
            if d.contains(x) {
                let j = choose|j: int| 0 <= j < d.len() && d[j] == x;
                if j < dp.len() {
                    assert(dp[j] == x);
                    assert(dp.contains(x));
                    let i = choose|i: int| 0 <= i < p.len() && p[i] == x;
                    assert(acts[i] == x);
                } else {
                    assert(acts[acts.len() - 1] == x);
                }
            }
        }
    }
}

/// `a` is a declaration of war by `x` on `y`.
pub open spec fn declares_war_on(a: Action, x: u64, y: u64) -> bool {
    a.kind == ActionKind::DeclareWar && a.actor == x && a.target == Some(y)
}

/// Each escalated pair comes from a war declaration of the round.
proof fn lemma_new_wars_sound(acts: Seq<Action>, j: int)
    requires
        0 <= j < new_wars(acts).len(),
    ensures
        exists|i: int|
            0 <= i < acts.len() && #[trigger] declares_war_on(
                acts[i],
                new_wars(acts)[j].0,
                new_wars(acts)[j].1,
            ),
    decreases acts.len(),
{
    let d = acts.drop_last();
    let a = acts.last();
    let p = new_wars(d);
    if a.kind == ActionKind::DeclareWar && a.target is Some {
        assert(new_wars(acts) == p.push((a.actor, a.target->0)));
    } else {
        assert(new_wars(acts) == p);
    }
    if j < p.len() {
        lemma_new_wars_sound(d, j);
        assert(new_wars(acts)[j] == p[j]);
        let i = choose|i: int| 0 <= i < d.len() && declares_war_on(d[i], p[j].0, p[j].1);
        assert(acts[i] == d[i]);
        assert(declares_war_on(acts[i], new_wars(acts)[j].0, new_wars(acts)[j].1));
    } else {
        let i = acts.len() - 1;
        assert(acts[i] == a);
        assert(declares_war_on(acts[i], new_wars(acts)[j].0, new_wars(acts)[j].1));
    }
}

/// Some action of `acts` is a declaration of war by `x` on `y`.
pub open spec fn declared(acts: Seq<Action>, x: u64, y: u64) -> bool {
    exists|i: int| 0 <= i < acts.len() && #[trigger] declares_war_on(acts[i], x, y)
}

/// Every war declaration of the round that names a target is escalated,
/// public or secret, and nothing else is: the escalated pairs are exactly
/// the (actor, target) pairs of the round's targeted war declarations.
pub proof fn lemma_new_wars_exact(acts: Seq<Action>)
    ensures
        forall|x: u64, y: u64| #[trigger] new_wars(acts).contains((x, y)) <==> declared(acts, x, y),
    decreases acts.len(),
{
    if acts.len() > 0 {
        let d = acts.drop_last();
        let a = acts.last();
        lemma_new_wars_exact(d);
        let p = new_wars(d);
        let q = new_wars(acts);
        if a.kind == ActionKind::DeclareWar && a.target is Some {
            assert(q == p.push((a.actor, a.target->0)));
        } else {
            assert(q == p);
        }
        assert forall|x: u64, y: u64| #[trigger] q.contains((x, y)) <==> declared(acts, x, y) by {
            if q.contains((x, y)) {
                let j = choose|j: int| 0 <= j < q.len() && q[j] == (x, y);
                lemma_new_wars_sound(acts, j);
            }
            if declared(acts, x, y) {
                let i = choose|i: int| 0 <= i < acts.len() && declares_war_on(acts[i], x, y);
                if i < d.len() {
                    assert(d[i] == acts[i]);
                    assert(declares_war_on(d[i], x, y));
                    assert(declared(d, x, y));
                    assert(p.contains((x, y)));
                    let k = choose|k: int| 0 <= k < p.len() && p[k] == (x, y);
                    assert(q[k] == p[k]);
                } else {
                    assert(acts[i] == a);
                    assert(q[p.len() as int] == (x, y));
                }
            }
        }
    } else {
        assert(new_wars(acts) =~= Seq::<(u64, u64)>::empty());
    }
}

/// An alliance request changes the boards only when its target answers it
/// in the same round (proposing an alliance or sending a message back):
/// then both record an alliance and nothing else changes; unanswered, no
/// relation changes at all.
pub proof fn lemma_alliance_request(m: RelMatrix, act: Action, all: Seq<Action>, t: u64)
    requires
        act.kind == ActionKind::Alliance,
        act.target == Some(t),
    ensures
        (forall|j: int|
            0 <= j < all.len() ==> !((#[trigger] all[j]).actor == t && all[j].target == Some(
                act.actor,
            ) && (all[j].kind == ActionKind::Alliance || all[j].kind == ActionKind::Message)))
            ==> forall|x: u64, y: u64| #[trigger] apply_action(m, act, all)(x, y) == m(x, y),
        (exists|j: int|
            0 <= j < all.len() && (#[trigger] all[j]).actor == t && all[j].target == Some(act.actor)
                && (all[j].kind == ActionKind::Alliance || all[j].kind == ActionKind::Message))
            ==> {
            &&& apply_action(m, act, all)(act.actor, t) == Relation::Alliance
            &&& apply_action(m, act, all)(t, act.actor) == Relation::Alliance
            &&& forall|x: u64, y: u64|
                !((x == act.actor && y == t) || (x == t && y == act.actor)) ==> #[trigger] apply_action(
                    m,
                    act,
                    all,
                )(x, y) == m(x, y)
        },
{
}

/// A non-aggression offer always sets a treaty on the target's board
/// toward the proposer; the proposer's board records it too only when the
/// target offers non-aggression (or sends a message) back in the same
/// round; no other relation changes.
pub proof fn lemma_non_aggression_offer(m: RelMatrix, act: Action, all: Seq<Action>, t: u64)
    requires
        act.kind == ActionKind::NonAggression,
        act.target == Some(t),
    ensures
        apply_action(m, act, all)(t, act.actor) == Relation::NonAggression,
        (exists|j: int|
            0 <= j < all.len() && (#[trigger] all[j]).actor == t && all[j].target == Some(act.actor)
                && (all[j].kind == ActionKind::NonAggression || all[j].kind == ActionKind::Message))
            ==> apply_action(m, act, all)(act.actor, t) == Relation::NonAggression,
        (forall|j: int|
            0 <= j < all.len() ==> !((#[trigger] all[j]).actor == t && all[j].target == Some(
                act.actor,
            ) && (all[j].kind == ActionKind::NonAggression || all[j].kind == ActionKind::Message)))
            && t != act.actor ==> apply_action(m, act, all)(act.actor, t) == m(act.actor, t),
        forall|x: u64, y: u64|
            !((x == act.actor && y == t) || (x == t && y == act.actor)) ==> #[trigger] apply_action(
                m,
                act,
                all,
            )(x, y) == m(x, y),
{
}

/// Waiting, mobilizing and messages change no relation, and neither does
/// an action without a target.
pub proof fn lemma_no_relation_change(m: RelMatrix, act: Action, all: Seq<Action>)
    requires
        act.kind == ActionKind::Wait || act.kind == ActionKind::Mobilize || act.kind
            == ActionKind::Message || act.target is None,
    ensures
        forall|x: u64, y: u64| #[trigger] apply_action(m, act, all)(x, y) == m(x, y),
{
}

/// Delivery by publicity: a public action reaches every country other than
/// its actor (its target included), a secret one reaches its target, and
/// nothing else reaches `c`.
pub proof fn lemma_deliveries_by_publicity(acts: Seq<Action>, c: u64)
    ensures
        forall|i: int|
            0 <= i < acts.len() && (#[trigger] acts[i]).publicity == Publicity::Public && c
                != acts[i].actor ==> deliveries(acts, c).contains(acts[i]),
        forall|i: int|
            0 <= i < acts.len() && (#[trigger] acts[i]).publicity == Publicity::Secret
                && acts[i].target == Some(c) ==> deliveries(acts, c).contains(acts[i]),
        forall|j: int|
            0 <= j < deliveries(acts, c).len() ==> acts.contains(#[trigger] deliveries(acts, c)[j])
                && ((deliveries(acts, c)[j].publicity == Publicity::Public && c != deliveries(
                acts,
                c,
            )[j].actor) || (deliveries(acts, c)[j].publicity == Publicity::Secret && deliveries(
                acts,
                c,
            )[j].target == Some(c))),
    decreases acts.len(),
{
    if acts.len() > 0 {
        let d = acts.drop_last();
        let a = acts.last();
        lemma_deliveries_by_publicity(d, c);
        let p = deliveries(d, c);
        let q = deliveries(acts, c);
        assert forall|i: int|
            0 <= i < acts.len() && ((#[trigger] acts[i]).publicity == Publicity::Public && c
                != acts[i].actor || acts[i].publicity == Publicity::Secret && acts[i].target == Some(
                c,
            )) implies q.contains(acts[i]) by {
            if i < d.len() {
                assert(d[i] == acts[i]);
                assert(p.contains(d[i]));
                let k = choose|k: int| 0 <= k < p.len() && p[k] == d[i];
                assert(q[k] == p[k]);
            } else {
                assert(acts[i] == a);
                assert(q[p.len() as int] == a);
            }
        }
        assert forall|j: int| 0 <= j < q.len() implies acts.contains(#[trigger] q[j]) && ((
        q[j].publicity == Publicity::Public && c != q[j].actor) || (q[j].publicity
            == Publicity::Secret && q[j].target == Some(c))) by {
            if j < p.len() {
                assert(q[j] == p[j]);
                assert(d.contains(p[j]));
                let i = choose|i: int| 0 <= i < d.len() && d[i] == p[j];
                assert(acts[i] == d[i]);
            } else {
                assert(q[j] == a);
                assert(acts[acts.len() - 1] == a);
            }
        }
    }
}

} // verus!
