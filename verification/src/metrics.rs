//! Round metrics: conflict pairs, mobilized countries, alliance clusters and
//! their overlap with the historical reference sets.

use vstd::prelude::*;

use crate::partition::{alliance_partition, cluster_count, is_cluster_partition};
use crate::world::{is_war_pair, pair_lt, WarWorld};

verus! {

/// The historical alliance partition (anonymized ids): `{A,B,G}`,
/// `{C,D,E,H}`, `{F}`.
pub open spec fn historical_partition_spec() -> Seq<Seq<u64>> {
    seq![seq![0u64, 1, 6], seq![2u64, 3, 4, 7], seq![5u64]]
}

/// The historical alliance partition.
pub fn historical_alliance_partition() -> (r: Vec<Vec<u64>>)
    ensures
        r@.len() == 3,
        forall|g: int| 0 <= g < 3 ==> (#[trigger] r@[g])@ == historical_partition_spec()[g],
{
    let r = vec![vec![0u64, 1, 6], vec![2u64, 3, 4, 7], vec![5u64]];
    assert(r@[0]@ =~= historical_partition_spec()[0]);
    assert(r@[1]@ =~= historical_partition_spec()[1]);
    assert(r@[2]@ =~= historical_partition_spec()[2]);
    r
}

/// The historical declaration-of-war pairs (undirected, ascending).
pub open spec fn historical_war_pairs_spec() -> Seq<(u64, u64)> {
    seq![(0u64, 2u64), (0u64, 3u64), (0u64, 4u64), (1u64, 4u64), (1u64, 7u64), (4u64, 6u64)]
}

/// The historical declaration-of-war pairs, in ascending order.
pub fn historical_war_pairs() -> (r: Vec<(u64, u64)>)
    ensures
        r@ == historical_war_pairs_spec(),
{
    let r = vec![(0u64, 2u64), (0u64, 3u64), (0u64, 4u64), (1u64, 4u64), (1u64, 7u64), (4u64, 6u64)];
    assert(r@ =~= historical_war_pairs_spec());
    r
}

/// The historically mobilized countries.
pub open spec fn historical_mobilized_spec() -> Seq<u64> {
    seq![0u64, 1, 2, 3, 4, 6, 7]
}

/// The historically mobilized countries, ascending.
pub fn historical_mobilized() -> (r: Vec<u64>)
    ensures
        r@ == historical_mobilized_spec(),
{
    let r = vec![0u64, 1, 2, 3, 4, 6, 7];
    assert(r@ =~= historical_mobilized_spec());
    r
}

/// The undirected conflict pairs of the world, ascending.
pub fn war_pair_set(world: &WarWorld) -> (r: Vec<(u64, u64)>)
    requires
        world.wf(),
    ensures
        forall|p: (u64, u64)| #[trigger] r@.contains(p) <==> is_war_pair(world.boards@, p),
        forall|a: int, b: int| 0 <= a < b < r@.len() ==> pair_lt(r@[a], r@[b]),
{
    world.war_pairs()
}

/// The mobilized countries, ascending.
pub open spec fn mobilized_upto(world: &WarWorld, k: nat) -> Seq<u64>
    decreases k,
{
    if k == 0 {
        seq![]
    } else if world.countries@[k - 1].stick.mobilized {
        mobilized_upto(world, (k - 1) as nat).push((k - 1) as u64)
    } else {
        mobilized_upto(world, (k - 1) as nat)
    }
}

/// The countries whose stick records full mobilization, ascending.
pub fn mobilized_set(world: &WarWorld) -> (r: Vec<u64>)
    ensures
        r@ == mobilized_upto(world, world.n()),
{
    let mut r: Vec<u64> = Vec::new();
    let mut i: usize = 0;
    while i < world.countries.len()
        invariant
            0 <= i <= world.n(),
            r@ == mobilized_upto(world, i as nat),
        decreases world.n() - i,
    {
        if world.countries[i].mobilized() {
            r.push(i as u64);
        }
        i = i + 1;
    }
    r
}

pub proof fn lemma_mobilized_upto(world: &WarWorld, k: nat)
    requires
        k <= u64::MAX,
        k <= world.n(),
    ensures
        forall|x: u64| #[trigger] mobilized_upto(world, k).contains(x) <==> (x < k
            && world.countries@[x as int].stick.mobilized),
        mobilized_upto(world, k).no_duplicates(),
        forall|a: int, b: int|
            0 <= a < b < mobilized_upto(world, k).len() ==> mobilized_upto(world, k)[a]
                < mobilized_upto(world, k)[b],
        forall|a: int| 0 <= a < mobilized_upto(world, k).len() ==> mobilized_upto(world, k)[a] < k,
    decreases k,
{
    if k > 0 {
        lemma_mobilized_upto(world, (k - 1) as nat);
        let p = mobilized_upto(world, (k - 1) as nat);
        let x = (k - 1) as u64;
        if world.countries@[k - 1].stick.mobilized {
            let q = p.push(x);
            assert(mobilized_upto(world, k) == q);
            assert forall|y: u64| #[trigger] q.contains(y) <==> (y < k
                && world.countries@[y as int].stick.mobilized) by {
                if y == x {
                    assert(q[p.len() as int] == y);
                } else if p.contains(y) {
                    let i = choose|i: int| 0 <= i < p.len() && p[i] == y;
                    assert(q[i] == y);
                } else if q.contains(y) {
                    let i = choose|i: int| 0 <= i < q.len() && q[i] == y;
                    assert(p[i] == y);
                }
            }
        }
    }
}

/// Number of members of `a` that `b` also holds, for a duplicate-free `a`.
pub fn common_ids(a: &Vec<u64>, b: &Vec<u64>) -> (r: usize)
    requires
        a@.no_duplicates(),
    ensures
        r == a@.to_set().intersect(b@.to_set()).len(),
        r <= a@.len(),
{
    let mut r: usize = 0;
    let mut i: usize = 0;
    proof {
        assert(a@.take(0).to_set() =~= Set::<u64>::empty());
        assert(a@.take(0).to_set().intersect(b@.to_set()) =~= Set::<u64>::empty());
    }
    while i < a.len()
        invariant
            a@.no_duplicates(),
            0 <= i <= a@.len(),
            r <= i,
            r == a@.take(i as int).to_set().intersect(b@.to_set()).len(),
        decreases a@.len() - i,
    {
        let x = a[i];
        let mut found = false;
        let mut j: usize = 0;
        while j < b.len()
            invariant
                0 <= j <= b@.len(),
                found <==> exists|k: int| 0 <= k < j && b@[k] == x,
            decreases b@.len() - j,
        {
            if b[j] == x {
                found = true;
            }
            j = j + 1;
        }
        let ghost before = a@.take(i as int).to_set().intersect(b@.to_set());
        let ghost after = a@.take(i + 1).to_set().intersect(b@.to_set());
        proof {
            assert(!a@.take(i as int).contains(x)) by {
                if a@.take(i as int).contains(x) {
                    let k = choose|k: int| 0 <= k < i && a@.take(i as int)[k] == x;
                    assert(a@[k] == a@[i as int]);
                }
            }
            assert(a@.take(i + 1) =~= a@.take(i as int).push(x));
            Seq::lemma_to_set_insert_commutes(a@.take(i as int), x);
            assert(a@.take(i + 1) =~= a@.take(i as int) + seq![x]);
            assert(a@.take(i + 1).to_set() =~= a@.take(i as int).to_set().insert(x));
            if found {
                assert(b@.contains(x));
                assert(after =~= before.insert(x));
            } else {
                assert(after =~= before);
            }
        }
        if found {
            r = r + 1;
        }
        i = i + 1;
    }
    assert(a@.take(a@.len() as int) =~= a@);
    r
}

/// Number of members of `a` that `b` also holds, for a duplicate-free `a`.
pub fn common_pairs(a: &Vec<(u64, u64)>, b: &Vec<(u64, u64)>) -> (r: usize)
    requires
        a@.no_duplicates(),
    ensures
        r == a@.to_set().intersect(b@.to_set()).len(),
        r <= a@.len(),
{
    let mut r: usize = 0;
    let mut i: usize = 0;
    proof {
        assert(a@.take(0).to_set() =~= Set::<(u64, u64)>::empty());
        assert(a@.take(0).to_set().intersect(b@.to_set()) =~= Set::<(u64, u64)>::empty());
    }
    while i < a.len()
        invariant
            a@.no_duplicates(),
            0 <= i <= a@.len(),
            r <= i,
            r == a@.take(i as int).to_set().intersect(b@.to_set()).len(),
        decreases a@.len() - i,
    {
        let x = a[i];
        let mut found = false;
        let mut j: usize = 0;
        while j < b.len()
            invariant
                0 <= j <= b@.len(),
                found <==> exists|k: int| 0 <= k < j && b@[k] == x,
            decreases b@.len() - j,
        {
            let y = b[j];
            if y.0 == x.0 && y.1 == x.1 {
                found = true;
            }
            j = j + 1;
        }
        let ghost before = a@.take(i as int).to_set().intersect(b@.to_set());
        let ghost after = a@.take(i + 1).to_set().intersect(b@.to_set());
        proof {
            assert(!a@.take(i as int).contains(x)) by {
                if a@.take(i as int).contains(x) {
                    let k = choose|k: int| 0 <= k < i && a@.take(i as int)[k] == x;
                    assert(a@[k] == a@[i as int]);
                }
            }
            assert(a@.take(i + 1) =~= a@.take(i as int).push(x));
            Seq::lemma_to_set_insert_commutes(a@.take(i as int), x);
            assert(a@.take(i + 1) =~= a@.take(i as int) + seq![x]);
            assert(a@.take(i + 1).to_set() =~= a@.take(i as int).to_set().insert(x));
            if found {
                assert(b@.contains(x));
                assert(after =~= before.insert(x));
            } else {
                assert(after =~= before);
            }
        }
        if found {
            r = r + 1;
        }
        i = i + 1;
    }
    assert(a@.take(a@.len() as int) =~= a@);
    r
}

/// The integer part of one round's metrics row.
#[derive(Clone, Debug)]
pub struct RoundCounts {
    /// Round (from 0).
    pub round: u64,
    /// Number of undirected conflict pairs.
    pub n_conflicts: u64,
    /// Number of mobilized countries.
    pub n_mobilized: u64,
    /// Number of alliance clusters.
    pub n_alliance_clusters: u64,
    /// 1 when the conflicts reach the war threshold, else 0.
    pub war_outbreak: u8,
    /// Conflict pairs that are also historical declaration pairs.
    pub declaration_common: u64,
    /// Mobilized countries that also mobilized historically.
    pub mobilization_common: u64,
    /// The alliance clusters.
    pub clusters: Vec<Vec<u64>>,
}

/// The set of undirected conflict pairs.
pub open spec fn war_pair_spec(world: &WarWorld) -> Set<(u64, u64)> {
    Set::new(|p: (u64, u64)| is_war_pair(world.boards@, p))
}

/// The set of mobilized countries.
pub open spec fn mobilized_spec(world: &WarWorld) -> Set<u64> {
    Set::new(|x: u64| x < world.n() && world.countries@[x as int].stick.mobilized)
}

/// Computes one round's counts: conflict pairs, mobilized countries,
/// clusters, whether the war threshold is reached, and the overlaps with the
/// historical declaration pairs and mobilized countries.
pub open spec fn counts_of(world: &WarWorld, round: u64, war_threshold: u64, m: &RoundCounts) -> bool {
    &&& m.round == round
    &&& m.n_conflicts == war_pair_spec(world).len()
    &&& m.n_mobilized == mobilized_spec(world).len()
    &&& is_cluster_partition(world.boards@, m.clusters@)
    &&& m.n_alliance_clusters == m.clusters@.len()
    &&& m.n_alliance_clusters == cluster_count(world.boards@)
    &&& m.war_outbreak == (if m.n_conflicts >= war_threshold { 1u8 } else { 0u8 })
    &&& m.declaration_common == war_pair_spec(world).intersect(
        historical_war_pairs_spec().to_set(),
    ).len()
    &&& m.mobilization_common == mobilized_spec(world).intersect(
        historical_mobilized_spec().to_set(),
    ).len()
}

pub fn compute_round_counts(world: &WarWorld, round: u64, war_threshold: u64) -> (m: RoundCounts)
    requires
        world.wf(),
    ensures
        counts_of(world, round, war_threshold, &m),
{
    let clusters = alliance_partition(world);
    let _n = world.countries.len();
    let wars = world.war_pairs();
    let hist_wars = historical_war_pairs();
    let mob = mobilized_set(world);
    let hist_mob = historical_mobilized();
    proof {
        crate::world::lemma_sorted_pairs_card(wars@, war_pair_spec(world));
        assert(wars@.no_duplicates()) by {
            assert forall|a: int, b: int| 0 <= a < wars@.len() && 0 <= b < wars@.len() && a != b implies wars@[a]
                != wars@[b] by {
                if a < b {
                    assert(pair_lt(wars@[a], wars@[b]));
                } else {
                    assert(pair_lt(wars@[b], wars@[a]));
                }
            }
        }
        assert(wars@.to_set() =~= war_pair_spec(world));
        lemma_mobilized_upto(world, world.n());
        assert(mob@.to_set() =~= mobilized_spec(world));
        mob@.unique_seq_to_set();
    }
    let dc = common_pairs(&wars, &hist_wars);
    let mc = common_ids(&mob, &hist_mob);
    let n_conflicts = wars.len() as u64;
    let outbreak: u8 = if n_conflicts >= war_threshold { 1 } else { 0 };
    RoundCounts {
        round,
        n_conflicts,
        n_mobilized: mob.len() as u64,
        n_alliance_clusters: clusters.len() as u64,
        war_outbreak: outbreak,
        declaration_common: dc as u64,
        mobilization_common: mc as u64,
        clusters,
    }
}

} // verus!
