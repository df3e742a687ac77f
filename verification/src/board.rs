//! Boards (international relations seen from one country), the Stick
//! (domestic mobilization state) and the rule-based rendering of both into
//! a context paragraph.

use vstd::prelude::*;

use std::collections::BTreeMap;
use vstd::laws_cmp::obeys_cmp;
use vstd::std_specs::btree::{axiom_increasing_seq_meaning, increasing_seq, spec_keys_iter};
use vstd::std_specs::iter::IteratorSpec;

use crate::text::{decimal, push_decimal, push_str};

verus! {

/// The relation one country holds toward another (board labels W/M/T/P).
#[derive(Clone, Copy, Debug, PartialEq, Eq, Structural)]
pub enum Relation {
    /// W: at war.
    War,
    /// M: military alliance.
    Alliance,
    /// T: non-aggression treaty.
    NonAggression,
    /// P: peace, the default when nothing is recorded.
    Peace,
}

impl Relation {
    pub open spec fn label_spec(self) -> Seq<char> {
        match self {
            Relation::War => "W"@,
            Relation::Alliance => "M"@,
            Relation::NonAggression => "T"@,
            Relation::Peace => "P"@,
        }
    }

    pub open spec fn describe_spec(self) -> Seq<char> {
        match self {
            Relation::War => "at war with"@,
            Relation::Alliance => "in a military alliance with"@,
            Relation::NonAggression => "bound by a non-aggression treaty with"@,
            Relation::Peace => "at peace with"@,
        }
    }

    /// Board label (W/M/T/P).
    pub fn label(&self) -> (r: &'static str)
        ensures
            r@ == self.label_spec(),
    {
        match self {
            Relation::War => "W",
            Relation::Alliance => "M",
            Relation::NonAggression => "T",
            Relation::Peace => "P",
        }
    }

    /// Human-readable relation phrase.
    pub fn describe(&self) -> (r: &'static str)
        ensures
            r@ == self.describe_spec(),
    {
        match self {
            Relation::War => "at war with",
            Relation::Alliance => "in a military alliance with",
            Relation::NonAggression => "bound by a non-aggression treaty with",
            Relation::Peace => "at peace with",
        }
    }
}

/// Board entries are strictly increasing in the counterpart id and never
/// record `Peace` (peace is the absence of an entry).
pub open spec fn entries_wf(s: Seq<(u64, Relation)>) -> bool {
    &&& forall|i: int, j: int| 0 <= i < j < s.len() ==> s[i].0 < s[j].0
    &&& forall|i: int| 0 <= i < s.len() ==> s[i].1 != Relation::Peace
}

/// The relation recorded for counterpart `k` (`Peace` when none is).
pub open spec fn rel_in(s: Seq<(u64, Relation)>, k: u64) -> Relation {
    if exists|i: int| 0 <= i < s.len() && s[i].0 == k {
        s[choose|i: int| 0 <= i < s.len() && s[i].0 == k].1
    } else {
        Relation::Peace
    }
}

/// The counterparts recorded with relation `rel`, in entry order.
pub open spec fn keys_with(s: Seq<(u64, Relation)>, rel: Relation) -> Seq<u64>
    decreases s.len(),
{
    if s.len() == 0 {
        seq![]
    } else if s.last().1 == rel {
        keys_with(s.drop_last(), rel).push(s.last().0)
    } else {
        keys_with(s.drop_last(), rel)
    }
}

pub proof fn lemma_rel_at(s: Seq<(u64, Relation)>, i: int)
    requires
        entries_wf(s),
        0 <= i < s.len(),
    ensures
        rel_in(s, s[i].0) == s[i].1,
{
    let j = choose|j: int| 0 <= j < s.len() && s[j].0 == s[i].0;
    if j != i {
        if j < i {
        } else {
        }
    }
}

pub proof fn lemma_rel_absent(s: Seq<(u64, Relation)>, k: u64)
    requires
        forall|i: int| 0 <= i < s.len() ==> s[i].0 != k,
    ensures
        rel_in(s, k) == Relation::Peace,
{
}

proof fn lemma_rel_drop_last(s: Seq<(u64, Relation)>, k: u64)
    requires
        entries_wf(s),
        s.len() > 0,
        k != s.last().0,
    ensures
        rel_in(s.drop_last(), k) == rel_in(s, k),
{
    let d = s.drop_last();
    if exists|i: int| 0 <= i < d.len() && d[i].0 == k {
        let i = choose|i: int| 0 <= i < d.len() && d[i].0 == k;
        lemma_rel_at(d, i);
        lemma_rel_at(s, i);
    } else {
        lemma_rel_absent(d, k);
        assert forall|i: int| 0 <= i < s.len() implies s[i].0 != k by {
            if i < d.len() {
                assert(d[i] == s[i]);
            }
        }
        lemma_rel_absent(s, k);
    }
}

/// Two well-formed entry lists that record the same relation toward every
/// counterpart are the same list.
pub proof fn lemma_entries_eq(s1: Seq<(u64, Relation)>, s2: Seq<(u64, Relation)>)
    requires
        entries_wf(s1),
        entries_wf(s2),
        forall|k: u64| #[trigger] rel_in(s1, k) == rel_in(s2, k),
    ensures
        s1 == s2,
    decreases s1.len() + s2.len(),
{
    if s1.len() == 0 {
        if s2.len() > 0 {
            lemma_rel_at(s2, 0);
            lemma_rel_absent(s1, s2[0].0);
            assert(rel_in(s1, s2[0].0) == rel_in(s2, s2[0].0));
        }
        assert(s1 =~= s2);
    } else if s2.len() == 0 {
        lemma_rel_at(s1, 0);
        lemma_rel_absent(s2, s1[0].0);
        assert(rel_in(s1, s1[0].0) == rel_in(s2, s1[0].0));
    } else {
        let k1 = s1.last().0;
        let k2 = s2.last().0;
        lemma_rel_at(s1, s1.len() - 1);
        lemma_rel_at(s2, s2.len() - 1);
        if k1 < k2 {
            assert forall|i: int| 0 <= i < s1.len() implies s1[i].0 != k2 by {
                if i < s1.len() - 1 {
                    assert(s1[i].0 < s1[s1.len() - 1].0);
                }
            }
            lemma_rel_absent(s1, k2);
            assert(rel_in(s1, k2) == rel_in(s2, k2));
        } else if k2 < k1 {
            assert forall|i: int| 0 <= i < s2.len() implies s2[i].0 != k1 by {
                if i < s2.len() - 1 {
                    assert(s2[i].0 < s2[s2.len() - 1].0);
                }
            }
            lemma_rel_absent(s2, k1);
            assert(rel_in(s1, k1) == rel_in(s2, k1));
        } else {
            assert(rel_in(s1, k1) == rel_in(s2, k1));
            let d1 = s1.drop_last();
            let d2 = s2.drop_last();
            assert forall|k: u64| #[trigger] rel_in(d1, k) == rel_in(d2, k) by {
                if k == k1 {
                    assert forall|i: int| 0 <= i < d1.len() implies d1[i].0 != k by {
                        assert(s1[i].0 < s1[s1.len() - 1].0);
                    }
                    assert forall|i: int| 0 <= i < d2.len() implies d2[i].0 != k by {
                        assert(s2[i].0 < s2[s2.len() - 1].0);
                    }
                    lemma_rel_absent(d1, k);
                    lemma_rel_absent(d2, k);
                } else {
                    lemma_rel_drop_last(s1, k);
                    lemma_rel_drop_last(s2, k);
                    assert(rel_in(s1, k) == rel_in(s2, k));
                }
            }
            lemma_entries_eq(d1, d2);
            assert(s1 =~= d1.push(s1.last()));
            assert(s2 =~= d2.push(s2.last()));
        }
    }
}

/// Membership and order facts about `keys_with`.
#[verifier::spinoff_prover]
pub proof fn lemma_keys_with(s: Seq<(u64, Relation)>, rel: Relation)
    requires
        entries_wf(s),
    ensures
        forall|k: u64| #[trigger]
            keys_with(s, rel).contains(k) <==> (rel != Relation::Peace && rel_in(s, k) == rel),
        forall|a: int, b: int|
            0 <= a < b < keys_with(s, rel).len() ==> keys_with(s, rel)[a] < keys_with(s, rel)[b],
        forall|a: int|
            0 <= a < keys_with(s, rel).len() ==> exists|i: int|
                0 <= i < s.len() && s[i].0 == #[trigger] keys_with(s, rel)[a],
    decreases s.len(),
{
    if s.len() > 0 {
        let p = s.drop_last();
        assert(entries_wf(p));
        lemma_keys_with(p, rel);
        let last = s.last();
        let n = (s.len() - 1) as int;
        lemma_rel_at(s, n);
        assert forall|k: u64| #[trigger] keys_with(s, rel).contains(k) <==> (rel != Relation::Peace
            && rel_in(s, k) == rel) by {
            if k == last.0 {
                if keys_with(p, rel).contains(k) {
                    let i = choose|i: int| 0 <= i < p.len() && p[i].0 == k;
                }
                if last.1 == rel {
                    assert(keys_with(s, rel)[keys_with(s, rel).len() - 1] == k);
                }
            } else {
                if exists|i: int| 0 <= i < s.len() && s[i].0 == k {
                    let i = choose|i: int| 0 <= i < s.len() && s[i].0 == k;
                    assert(p[i].0 == k);
                    lemma_rel_at(s, i);
                    lemma_rel_at(p, i);
                } else {
                    assert forall|i: int| 0 <= i < p.len() implies p[i].0 != k by {
                        assert(s[i] == p[i]);
                    }
                    lemma_rel_absent(p, k);
                }
                if last.1 == rel {
                    assert(keys_with(s, rel) == keys_with(p, rel).push(last.0));
                    if keys_with(s, rel).contains(k) {
                        let a = choose|a: int|
                            0 <= a < keys_with(s, rel).len() && keys_with(s, rel)[a] == k;
                        assert(keys_with(p, rel)[a] == k);
                    }
                    if keys_with(p, rel).contains(k) {
                        let a = choose|a: int|
                            0 <= a < keys_with(p, rel).len() && keys_with(p, rel)[a] == k;
                        assert(keys_with(s, rel)[a] == k);
                    }
                }
            }
        }
        assert forall|a: int|
            0 <= a < keys_with(s, rel).len() implies exists|i: int|
            0 <= i < s.len() && s[i].0 == #[trigger] keys_with(s, rel)[a] by {
            if a < keys_with(p, rel).len() {
                let i = choose|i: int| 0 <= i < p.len() && p[i].0 == keys_with(p, rel)[a];
                assert(s[i] == p[i]);
            } else {
                assert(s[n].0 == keys_with(s, rel)[a]);
            }
        }
        assert forall|a: int, b: int|
            0 <= a < b < keys_with(s, rel).len() implies keys_with(s, rel)[a] < keys_with(
            s,
            rel,
        )[b] by {
            if last.1 == rel && b == keys_with(s, rel).len() - 1 {
                let i = choose|i: int| 0 <= i < p.len() && p[i].0 == keys_with(p, rel)[a];
                assert(s[i] == p[i]);
            }
        }
    }
}

/// `a <= b` on counterpart ids.
pub open spec fn id_le() -> spec_fn(u64, u64) -> bool {
    |a: u64, b: u64| a <= b
}

/// The ids of a set in ascending order.
pub open spec fn sorted_ids(d: Set<u64>) -> Seq<u64> {
    d.to_sorted_seq(id_le())
}

/// Strictly ascending, hence free of repeats.
pub open spec fn ascending(s: Seq<u64>) -> bool {
    forall|i: int, j: int| 0 <= i < j < s.len() ==> s[i] < s[j]
}

/// The entries of a relation map in ascending counterpart order.
pub open spec fn map_entries(m: Map<u64, Relation>) -> Seq<(u64, Relation)> {
    sorted_ids(m.dom()).map_values(|k: u64| (k, m[k]))
}

/// The relation recorded in a map (`Peace` when absent).
pub open spec fn map_rel(m: Map<u64, Relation>, k: u64) -> Relation {
    if m.contains_key(k) {
        m[k]
    } else {
        Relation::Peace
    }
}

/// A map that never records `Peace`.
pub open spec fn no_peace(m: Map<u64, Relation>) -> bool {
    forall|k: u64| #[trigger] m.contains_key(k) ==> m[k] != Relation::Peace
}

proof fn lemma_to_seq(d: Set<u64>)
    requires
        d.finite(),
    ensures
        d.to_seq().no_duplicates(),
        forall|k: u64| #[trigger] d.to_seq().contains(k) <==> d.contains(k),
    decreases d.len(),
{
    if d.len() > 0 {
        let x = d.choose();
        let rest = d.remove(x);
        lemma_to_seq(rest);
        let t = d.to_seq();
        let r = rest.to_seq();
        assert(t == Seq::<u64>::empty().push(x) + r);
        assert(d.contains(x));
        assert forall|k: u64| #[trigger] t.contains(k) <==> d.contains(k) by {
            if t.contains(k) {
                let i = choose|i: int| 0 <= i < t.len() && t[i] == k;
                if i > 0 {
                    assert(r[i - 1] == k);
                    assert(r.contains(k));
                    assert(rest.contains(k));
                } else {
                    assert(t[0] == x);
                }
            }
            if d.contains(k) {
                if k == x {
                    assert(t[0] == k);
                } else {
                    assert(r.contains(k));
                    let i = choose|i: int| 0 <= i < r.len() && r[i] == k;
                    assert(t[i + 1] == k);
                }
            }
        }
        assert forall|i: int, j: int| 0 <= i < t.len() && 0 <= j < t.len() && i != j implies t[i]
            != t[j] by {
            if i == 0 && j > 0 {
                assert(t[j] == r[j - 1]);
                assert(r.contains(t[j]));
            } else if j == 0 && i > 0 {
                assert(t[i] == r[i - 1]);
                assert(r.contains(t[i]));
            } else if i > 0 && j > 0 {
                assert(t[i] == r[i - 1]);
                assert(t[j] == r[j - 1]);
            }
        }
    } else {
        assert(d.to_seq() =~= Seq::<u64>::empty());
    }
}

/// The ids of a finite set, sorted: ascending and holding exactly the set.
pub proof fn lemma_sorted_ids(d: Set<u64>)
    requires
        d.finite(),
    ensures
        ascending(sorted_ids(d)),
        forall|k: u64| #[trigger] sorted_ids(d).contains(k) <==> d.contains(k),
{
    let leq = id_le();
    assert(vstd::relations::total_ordering(leq));
    let t = d.to_seq();
    let ks = sorted_ids(d);
    lemma_to_seq(d);
    t.lemma_sort_by_ensures(leq);
    t.to_multiset_ensures();
    ks.to_multiset_ensures();
    t.lemma_multiset_has_no_duplicates();
    ks.lemma_multiset_has_no_duplicates_conv();
    assert forall|k: u64| #[trigger] ks.contains(k) <==> d.contains(k) by {
        assert(ks.contains(k) <==> ks.to_multiset().count(k) > 0);
        assert(t.contains(k) <==> t.to_multiset().count(k) > 0);
    }
    assert forall|i: int, j: int| 0 <= i < j < ks.len() implies ks[i] < ks[j] by {
        assert(leq(ks[i], ks[j]));
    }
}

/// Two ascending id lists holding the same ids are the same list.
pub proof fn lemma_ascending_eq(a: Seq<u64>, b: Seq<u64>)
    requires
        ascending(a),
        ascending(b),
        forall|k: u64| #[trigger] a.contains(k) <==> b.contains(k),
    ensures
        a == b,
    decreases a.len() + b.len(),
{
    if a.len() == 0 || b.len() == 0 {
        if a.len() > 0 {
            assert(a.contains(a[0]));
            assert(b.contains(a[0]));
        }
        if b.len() > 0 {
            assert(b.contains(b[0]));
            assert(a.contains(b[0]));
        }
        assert(a =~= b);
    } else {
        let x = a.last();
        let y = b.last();
        assert(a.contains(x));
        assert(b.contains(y));
        assert(b.contains(x));
        assert(a.contains(y));
        let i = choose|i: int| 0 <= i < b.len() && b[i] == x;
        let j = choose|j: int| 0 <= j < a.len() && a[j] == y;
        assert(x == y) by {
            if j < a.len() - 1 {
                assert(a[j] < a[a.len() - 1]);
            }
            if i < b.len() - 1 {
                assert(b[i] < b[b.len() - 1]);
            }
        }
        let da = a.drop_last();
        let db = b.drop_last();
        assert forall|k: u64| #[trigger] da.contains(k) <==> db.contains(k) by {
            if da.contains(k) {
                let p = choose|p: int| 0 <= p < da.len() && da[p] == k;
                assert(a.contains(k));
                let q = choose|q: int| 0 <= q < b.len() && b[q] == k;
                assert(k < x);
                assert(q < b.len() - 1);
                assert(db[q] == k);
            }
            if db.contains(k) {
                let p = choose|p: int| 0 <= p < db.len() && db[p] == k;
                assert(b.contains(k));
                assert(a.contains(k));
                let q = choose|q: int| 0 <= q < a.len() && a[q] == k;
                assert(k < y);
                assert(q < a.len() - 1);
                assert(da[q] == k);
            }
        }
        lemma_ascending_eq(da, db);
        assert(a =~= da.push(x));
        assert(b =~= db.push(y));
    }
}

/// A finite map without `Peace` values has well-formed entries, and they
/// record what the map records.
pub proof fn lemma_map_entries(m: Map<u64, Relation>)
    requires
        m.dom().finite(),
    ensures
        map_entries(m).len() == sorted_ids(m.dom()).len(),
        forall|i: int|
            0 <= i < map_entries(m).len() ==> #[trigger] map_entries(m)[i] == (
                sorted_ids(m.dom())[i],
                m[sorted_ids(m.dom())[i]],
            ),
        no_peace(m) ==> entries_wf(map_entries(m)),
        no_peace(m) ==> forall|k: u64| #[trigger] rel_in(map_entries(m), k) == map_rel(m, k),
        entries_wf(map_entries(m)) ==> no_peace(m),
{
    let ks = sorted_ids(m.dom());
    let es = map_entries(m);
    lemma_sorted_ids(m.dom());
    if no_peace(m) {
        assert forall|i: int| 0 <= i < es.len() implies es[i].1 != Relation::Peace by {
            assert(ks.contains(ks[i]));
        }
        assert(entries_wf(es));
        assert forall|k: u64| #[trigger] rel_in(es, k) == map_rel(m, k) by {
            if m.contains_key(k) {
                assert(ks.contains(k));
                let i = choose|i: int| 0 <= i < ks.len() && ks[i] == k;
                lemma_rel_at(es, i);
            } else {
                assert forall|i: int| 0 <= i < es.len() implies es[i].0 != k by {
                    assert(ks.contains(ks[i]));
                }
                lemma_rel_absent(es, k);
            }
        }
    }
    if entries_wf(es) {
        assert forall|k: u64| #[trigger] m.contains_key(k) implies m[k] != Relation::Peace by {
            assert(ks.contains(k));
            let i = choose|i: int| 0 <= i < ks.len() && ks[i] == k;
            assert(es[i].1 != Relation::Peace);
        }
    }
}

/// The ids of a map's domain in ascending order.
fn ascending_ids(m: &BTreeMap<u64, Relation>) -> (r: Vec<u64>)
    ensures
        r@ == sorted_ids(m@.dom()),
{
    let mut r: Vec<u64> = Vec::new();
    for k in it: m.keys()
        invariant
            r@ == it.seq().unref().take(it.index()),
            it.seq() == spec_keys_iter(m).remaining(),
    {
        r.push(*k);
    }
    proof {
        let s = spec_keys_iter(m).remaining();
        assert(increasing_seq::<&u64>(s));
        assert(obeys_cmp::<u64>());
        assert(obeys_cmp::<&u64>());
        axiom_increasing_seq_meaning::<&u64>(s);
        assert(r@ =~= s.unref());
        assert(r@.len() == s.len());
        assert forall|i: int, j: int| 0 <= i < j < r@.len() implies r@[i] < r@[j] by {
            assert(vstd::std_specs::cmp::OrdSpec::cmp_spec(&s[i], &s[j]) is Less);
        }
        lemma_sorted_ids(m@.dom());
        assert forall|k: u64| #[trigger] r@.contains(k) <==> sorted_ids(m@.dom()).contains(k) by {
            assert(r@.to_set().contains(k) <==> r@.contains(k));
        }
        lemma_ascending_eq(r@, sorted_ids(m@.dom()));
    }
    r
}

/// One country's board: counterpart id -> relation (absent means `Peace`).
///
/// The map never records `Peace`; its entries, in ascending counterpart
/// order, are `entries()`.
#[derive(Clone, Debug)]
pub struct Board {
    /// The country that owns this board.
    pub owner: u64,
    /// Counterpart id -> relation, `Peace` omitted.
    pub relations: BTreeMap<u64, Relation>,
}

impl Board {
    /// The board's entries in ascending counterpart order.
    pub open spec fn entries(&self) -> Seq<(u64, Relation)> {
        map_entries(self.relations@)
    }

    pub open spec fn wf(&self) -> bool {
        entries_wf(self.entries())
    }

    /// The relation toward `other` recorded on this board.
    pub open spec fn rel(&self, other: u64) -> Relation {
        rel_in(self.entries(), other)
    }

    /// A copy of this board.
    pub fn clone_board(&self) -> (b: Board)
        ensures
            b.owner == self.owner,
            b.entries() == self.entries(),
    {
        Board { owner: self.owner, relations: self.relations.clone() }
    }

    /// An empty board: peace with everyone.
    pub fn new(owner: u64) -> (b: Board)
        ensures
            b.owner == owner,
            b.entries() == Seq::<(u64, Relation)>::empty(),
            b.wf(),
    {
        let b = Board { owner, relations: BTreeMap::new() };
        proof {
            lemma_sorted_ids(b.relations@.dom());
            if sorted_ids(b.relations@.dom()).len() > 0 {
                assert(sorted_ids(b.relations@.dom()).contains(sorted_ids(b.relations@.dom())[0]));
            }
            assert(b.entries() =~= Seq::<(u64, Relation)>::empty());
        }
        b
    }

    /// The relation toward `other` (`Peace` when none is recorded).
    pub fn relation_to(&self, other: u64) -> (r: Relation)
        requires
            self.wf(),
        ensures
            r == self.rel(other),
    {
        proof {
            lemma_map_entries(self.relations@);
        }
        match self.relations.get(&other) {
            Some(v) => *v,
            None => Relation::Peace,
        }
    }

    /// Records `rel` toward `other`; `Peace` removes the entry.
    pub fn set_relation(&mut self, other: u64, rel: Relation)
        requires
            old(self).wf(),
        ensures
            final(self).wf(),
            final(self).owner == old(self).owner,
            final(self).rel(other) == rel,
            forall|k: u64| k != other ==> #[trigger] final(self).rel(k) == old(self).rel(k),
    {
        proof {
            lemma_map_entries(self.relations@);
        }
        if rel == Relation::Peace {
            self.relations.remove(&other);
        } else {
            self.relations.insert(other, rel);
        }
        proof {
            let m = self.relations@;
            assert(no_peace(m));
            lemma_map_entries(m);
        }
    }

    /// The board's rows keyed by the `(owner, other)` pair.
    pub fn pairs(&self) -> (r: Vec<((u64, u64), Relation)>)
        ensures
            r@.len() == self.entries().len(),
            forall|i: int|
                0 <= i < r@.len() ==> #[trigger] r@[i] == ((self.owner, self.entries()[i].0),
                self.entries()[i].1),
    {
        let ks = ascending_ids(&self.relations);
        proof {
            lemma_map_entries(self.relations@);
            lemma_sorted_ids(self.relations@.dom());
        }
        let ghost es = self.entries();
        let mut r: Vec<((u64, u64), Relation)> = Vec::new();
        let mut i: usize = 0;
        while i < ks.len()
            invariant
                es == self.entries(),
                ks@ == sorted_ids(self.relations@.dom()),
                es.len() == ks@.len(),
                forall|j: int| 0 <= j < es.len() ==> #[trigger] es[j] == (ks@[j], self.relations@[ks@[j]]),
                forall|k: u64| #[trigger] ks@.contains(k) <==> self.relations@.dom().contains(k),
                0 <= i <= ks@.len(),
                r@.len() == i,
                forall|j: int|
                    0 <= j < i ==> #[trigger] r@[j] == ((self.owner, es[j].0), es[j].1),
            decreases ks@.len() - i,
        {
            let k = ks[i];
            assert(ks@.contains(k));
            let v = match self.relations.get(&k) {
                Some(v) => *v,
                None => Relation::Peace,
            };
            r.push(((self.owner, k), v));
            i = i + 1;
        }
        r
    }

    /// The counterparts holding relation `rel`, in ascending id order.
    pub fn counterparts(&self, rel: Relation) -> (r: Vec<u64>)
        requires
            self.wf(),
        ensures
            r@ == keys_with(self.entries(), rel),
            forall|k: u64| #[trigger] r@.contains(k) <==> (rel != Relation::Peace && self.rel(k) == rel),
            forall|a: int, b: int| 0 <= a < b < r@.len() ==> r@[a] < r@[b],
    {
        let ps = self.pairs();
        let ghost s = self.entries();
        let mut r: Vec<u64> = Vec::new();
        let mut i: usize = 0;
        while i < ps.len()
            invariant
                s == self.entries(),
                ps@.len() == s.len(),
                forall|j: int|
                    0 <= j < ps@.len() ==> #[trigger] ps@[j] == ((self.owner, s[j].0), s[j].1),
                0 <= i <= s.len(),
                r@ == keys_with(s.take(i as int), rel),
            decreases s.len() - i,
        {
            let e = ps[i];
            assert(s.take(i + 1).drop_last() =~= s.take(i as int));
            if e.1 == rel {
                r.push(e.0.1);
            }
            i = i + 1;
        }
        assert(s.take(s.len() as int) =~= s);
        proof {
            lemma_keys_with(s, rel);
        }
        r
    }
}

/// The domestic state: full mobilization (MO).
#[derive(Clone, Copy, Debug, Default)]
pub struct Stick {
    /// MO: has the country fully mobilized.
    pub mobilized: bool,
}

pub open spec fn stick_label_spec(mobilized: bool) -> Seq<char> {
    if mobilized {
        "MO (fully mobilized)"@
    } else {
        "not mobilized"@
    }
}

impl Stick {
    /// Mobilization label used in the context paragraph.
    pub fn label(&self) -> (r: &'static str)
        ensures
            r@ == stick_label_spec(self.mobilized),
    {
        if self.mobilized {
            "MO (fully mobilized)"
        } else {
            "not mobilized"
        }
    }
}

/// The display name of country `id`: `names[id]`, or `Country#<id>` when the
/// list has no entry for it.
pub open spec fn name_of(names: Seq<Seq<char>>, id: u64) -> Seq<char> {
    if id < names.len() {
        names[id as int]
    } else {
        "Country#"@ + decimal(id as nat)
    }
}

/// The views of a list of names.
pub open spec fn names_view(names: Seq<String>) -> Seq<Seq<char>> {
    names.map_values(|s: String| s@)
}

/// Appends the display name of country `id`.
pub fn push_name(s: &mut String, names: &Vec<String>, id: u64)
    ensures
        final(s)@ == old(s)@ + name_of(names_view(names@), id),
{
    if id < names.len() as u64 {
        push_str(s, names[id as usize].as_str());
    } else {
        push_str(s, "Country#");
        push_decimal(s, id);
    }
}

/// One relation line of the context paragraph.
pub open spec fn relation_line(names: Seq<Seq<char>>, e: (u64, Relation)) -> Seq<char> {
    "- You are "@ + e.1.describe_spec() + " "@ + name_of(names, e.0) + " ["@ + e.1.label_spec()
        + "].\n"@
}

/// The relation lines for a list of board entries, in order.
pub open spec fn relation_lines(names: Seq<Seq<char>>, es: Seq<(u64, Relation)>) -> Seq<char>
    decreases es.len(),
{
    if es.len() == 0 {
        seq![]
    } else {
        relation_lines(names, es.drop_last()) + relation_line(names, es.last())
    }
}

/// The context paragraph for a board and a stick.
pub open spec fn translate_spec(
    names: Seq<Seq<char>>,
    owner: u64,
    es: Seq<(u64, Relation)>,
    mobilized: bool,
) -> Seq<char> {
    let head = "You are the leadership of "@ + name_of(names, owner)
        + ". Your domestic mobilization status: "@ + stick_label_spec(mobilized) + ".\n"@;
    if es.len() == 0 {
        head + "You currently have no active treaties or active conflicts with any other country.\n"@
    } else {
        head + "Your current international relations:\n"@ + relation_lines(names, es)
    }
}

/// Rule-based rendering of a board and a stick as one context paragraph:
/// the owner's name and mobilization status, then each active relation in
/// ascending counterpart order (or an explicit line when there is none).
pub fn translate(board: &Board, stick: &Stick, names: &Vec<String>) -> (r: String)
    requires
        board.wf(),
    ensures
        r@ == translate_spec(names_view(names@), board.owner, board.entries(), stick.mobilized),
{
    let ghost nv = names_view(names@);
    let ps = board.pairs();
    let ghost es = board.entries();
    let mut s = String::new();
    push_str(&mut s, "You are the leadership of ");
    push_name(&mut s, names, board.owner);
    push_str(&mut s, ". Your domestic mobilization status: ");
    push_str(&mut s, stick.label());
    push_str(&mut s, ".\n");
    let ghost head = s@;
    if ps.len() == 0 {
        push_str(
            &mut s,
            "You currently have no active treaties or active conflicts with any other country.\n",
        );
    } else {
        push_str(&mut s, "Your current international relations:\n");
        let ghost head2 = s@;
        let mut i: usize = 0;
        while i < ps.len()
            invariant
                es == board.entries(),
                ps@.len() == es.len(),
                forall|j: int|
                    0 <= j < ps@.len() ==> #[trigger] ps@[j] == ((board.owner, es[j].0), es[j].1),
                nv == names_view(names@),
                0 <= i <= es.len(),
                s@ == head2 + relation_lines(nv, es.take(i as int)),
            decreases es.len() - i,
        {
            let ((_, other), rel) = ps[i];
            assert(es.take(i + 1).drop_last() =~= es.take(i as int));
            push_str(&mut s, "- You are ");
            push_str(&mut s, rel.describe());
            push_str(&mut s, " ");
            push_name(&mut s, names, other);
            push_str(&mut s, " [");
            push_str(&mut s, rel.label());
            push_str(&mut s, "].\n");
            i = i + 1;
            assert(s@ =~= head2 + relation_lines(nv, es.take(i as int)));
        }
        assert(es.take(es.len() as int) =~= es);
    }
    s
}

} // verus!
