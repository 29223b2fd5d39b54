//! The cluster merger's two tables.
//!
//! `Matches` maps a canonical match — the cluster's key, an arbitrary but
//! stable member — to the list of the other members. `MatchesLookup` maps
//! every known match to its cluster's key. Both are association lists over
//! match values, read through `Map` views, and `clusters_wf` ties the pair
//! together: keys point at themselves, members point at their key, members
//! are listed exactly once, and a cluster's members all share its size.

use vstd::prelude::*;
use vstd::pervasive::VecAdditionalExecFns;

use crate::types::{Match, MatchV};

verus! {

/// A bunch of Matches.
///
/// Consists of an original match that is deemed similar to a list of other
/// matches. The match that is the key is arbitrarily chosen and is fungible.
pub struct Matches(pub Vec<(Match, Vec<Match>)>);

/// A lookup that points some arbitrary match to the key match.
///
/// Used to check which key some match belongs to, in order to insert into
/// `Matches`.
pub struct MatchesLookup(pub Vec<(Match, Match)>);

/// The views of a member list.
pub open spec fn members_view(ms: Seq<Match>) -> Seq<MatchV> {
    ms.map_values(|m: Match| m@)
}

/// The map a lookup association list stands for.
pub open spec fn lookup_map(entries: Seq<(Match, Match)>) -> Map<MatchV, MatchV>
    decreases entries.len(),
{
    if entries.len() == 0 {
        Map::empty()
    } else {
        lookup_map(entries.drop_last()).insert(entries.last().0@, entries.last().1@)
    }
}

/// The map a cluster association list stands for.
pub open spec fn clusters_map(entries: Seq<(Match, Vec<Match>)>) -> Map<MatchV, Seq<MatchV>>
    decreases entries.len(),
{
    if entries.len() == 0 {
        Map::empty()
    } else {
        clusters_map(entries.drop_last()).insert(
            entries.last().0@,
            members_view(entries.last().1@),
        )
    }
}

impl View for MatchesLookup {
    type V = Map<MatchV, MatchV>;

    open spec fn view(&self) -> Map<MatchV, MatchV> {
        lookup_map(self.0@)
    }
}

impl View for Matches {
    type V = Map<MatchV, Seq<MatchV>>;

    open spec fn view(&self) -> Map<MatchV, Seq<MatchV>> {
        clusters_map(self.0@)
    }
}

impl MatchesLookup {
    /// No match occurs twice on the left-hand side.
    pub open spec fn wf(&self) -> bool {
        forall|i: int, j: int| 0 <= i < j < self.0@.len() ==> self.0@[i].0@ != self.0@[j].0@
    }

    /// An empty lookup.
    pub fn new() -> (r: MatchesLookup)
        ensures
            r.wf(),
            r@ == Map::<MatchV, MatchV>::empty(),
            r.0@.len() == 0,
    {
        MatchesLookup(Vec::new())
    }
}

impl Matches {
    /// No match occurs twice as a key.
    pub open spec fn wf(&self) -> bool {
        forall|i: int, j: int| 0 <= i < j < self.0@.len() ==> self.0@[i].0@ != self.0@[j].0@
    }

    /// An empty table.
    pub fn new() -> (r: Matches)
        ensures
            r.wf(),
            r@ == Map::<MatchV, Seq<MatchV>>::empty(),
            r.0@.len() == 0,
    {
        Matches(Vec::new())
    }
}

proof fn lemma_lookup_map_props(entries: Seq<(Match, Match)>)
    ensures
        forall|k: MatchV|
            lookup_map(entries).contains_key(k) <==> exists|i: int|
                0 <= i < entries.len() && entries[i].0@ == k,
        forall|i: int|
            #![trigger entries[i]]
            0 <= i < entries.len() && (forall|j: int| i < j < entries.len() ==> entries[j].0@
                != entries[i].0@) ==> lookup_map(entries).contains_key(entries[i].0@)
                && lookup_map(entries)[entries[i].0@] == entries[i].1@,
    decreases entries.len(),
{
    if entries.len() > 0 {
        let pre = entries.drop_last();
        lemma_lookup_map_props(pre);
        assert forall|k: MatchV| lookup_map(entries).contains_key(k) implies exists|i: int|
            0 <= i < entries.len() && entries[i].0@ == k by {
            if k == entries.last().0@ {
                assert(entries[entries.len() - 1].0@ == k);
            } else {
                assert(lookup_map(pre).contains_key(k));
                let i = choose|i: int| 0 <= i < pre.len() && pre[i].0@ == k;
                assert(pre[i] == entries[i]);
                assert(entries[i].0@ == k);
            }
        }
        assert forall|i: int| 0 <= i < entries.len() implies lookup_map(entries).contains_key(
            entries[i].0@,
        ) by {
            if i < entries.len() - 1 {
                assert(pre[i] == entries[i]);
                assert(0 <= i < pre.len() && pre[i].0@ == entries[i].0@);
                assert(lookup_map(pre).contains_key(entries[i].0@));
            }
        }
        assert forall|i: int|
            #![trigger entries[i]]
            0 <= i < entries.len() && (forall|j: int| i < j < entries.len() ==> entries[j].0@
                != entries[i].0@) implies lookup_map(entries).contains_key(entries[i].0@)
            && lookup_map(entries)[entries[i].0@] == entries[i].1@ by {
            if i < entries.len() - 1 {
                assert(pre[i] == entries[i]);
                assert forall|j: int| i < j < pre.len() implies pre[j].0@ != pre[i].0@ by {
                    assert(pre[j] == entries[j]);
                }
                assert(lookup_map(pre)[pre[i].0@] == pre[i].1@);
                assert(entries[entries.len() - 1].0@ != entries[i].0@);
            }
        }
    }
}

pub proof fn lemma_clusters_map_props(entries: Seq<(Match, Vec<Match>)>)
    ensures
        forall|k: MatchV|
            clusters_map(entries).contains_key(k) <==> exists|i: int|
                0 <= i < entries.len() && entries[i].0@ == k,
        forall|i: int|
            #![trigger entries[i]]
            0 <= i < entries.len() && (forall|j: int| i < j < entries.len() ==> entries[j].0@
                != entries[i].0@) ==> clusters_map(entries).contains_key(entries[i].0@)
                && clusters_map(entries)[entries[i].0@] == members_view(entries[i].1@),
    decreases entries.len(),
{
    if entries.len() > 0 {
        let pre = entries.drop_last();
        lemma_clusters_map_props(pre);
        assert forall|k: MatchV| clusters_map(entries).contains_key(k) implies exists|i: int|
            0 <= i < entries.len() && entries[i].0@ == k by {
            if k == entries.last().0@ {
                assert(entries[entries.len() - 1].0@ == k);
            } else {
                assert(clusters_map(pre).contains_key(k));
                let i = choose|i: int| 0 <= i < pre.len() && pre[i].0@ == k;
                assert(pre[i] == entries[i]);
                assert(entries[i].0@ == k);
            }
        }
        assert forall|i: int| 0 <= i < entries.len() implies clusters_map(entries).contains_key(
            entries[i].0@,
        ) by {
            if i < entries.len() - 1 {
                assert(pre[i] == entries[i]);
                assert(0 <= i < pre.len() && pre[i].0@ == entries[i].0@);
                assert(clusters_map(pre).contains_key(entries[i].0@));
            }
        }
        assert forall|i: int|
            #![trigger entries[i]]
            0 <= i < entries.len() && (forall|j: int| i < j < entries.len() ==> entries[j].0@
                != entries[i].0@) implies clusters_map(entries).contains_key(entries[i].0@)
            && clusters_map(entries)[entries[i].0@] == members_view(entries[i].1@) by {
            if i < entries.len() - 1 {
                assert(pre[i] == entries[i]);
                assert forall|j: int| i < j < pre.len() implies pre[j].0@ != pre[i].0@ by {
                    assert(pre[j] == entries[j]);
                }
                assert(clusters_map(pre)[pre[i].0@] == members_view(pre[i].1@));
                assert(entries[entries.len() - 1].0@ != entries[i].0@);
            }
        }
    }
}

/// Replacing an entry, keeping its key, replaces its value in the map.
proof fn lemma_lookup_map_update(entries: Seq<(Match, Match)>, i: int, e: (Match, Match))
    requires
        forall|p: int, q: int| 0 <= p < q < entries.len() ==> entries[p].0@ != entries[q].0@,
        0 <= i < entries.len(),
        e.0@ == entries[i].0@,
    ensures
        lookup_map(entries.update(i, e)) == lookup_map(entries).insert(e.0@, e.1@),
    decreases entries.len(),
{
    let s2 = entries.update(i, e);
    if i == entries.len() - 1 {
        assert(s2.drop_last() =~= entries.drop_last());
        assert(lookup_map(s2) == lookup_map(entries.drop_last()).insert(e.0@, e.1@));
        assert(lookup_map(entries).insert(e.0@, e.1@) =~= lookup_map(entries.drop_last()).insert(
            e.0@,
            e.1@,
        ));
    } else {
        let pre = entries.drop_last();
        assert(s2.drop_last() =~= pre.update(i, e));
        assert(pre[i] == entries[i]);
        lemma_lookup_map_update(pre, i, e);
        let last = entries.last();
        assert(s2.last() == last);
        assert(lookup_map(s2) == lookup_map(pre).insert(e.0@, e.1@).insert(last.0@, last.1@));
        assert(entries[entries.len() - 1].0@ != entries[i].0@);
        assert(lookup_map(pre).insert(e.0@, e.1@).insert(last.0@, last.1@) =~= lookup_map(
            pre,
        ).insert(last.0@, last.1@).insert(e.0@, e.1@));
    }
}

/// Removing an entry removes its key from the map, when keys are unique.
proof fn lemma_clusters_map_remove(entries: Seq<(Match, Vec<Match>)>, i: int)
    requires
        forall|p: int, q: int| 0 <= p < q < entries.len() ==> entries[p].0@ != entries[q].0@,
        0 <= i < entries.len(),
    ensures
        clusters_map(entries.remove(i)) == clusters_map(entries).remove(entries[i].0@),
    decreases entries.len(),
{
    lemma_clusters_map_props(entries);
    lemma_clusters_map_props(entries.drop_last());
    let s2 = entries.remove(i);
    if i == entries.len() - 1 {
        assert(s2 =~= entries.drop_last());
        assert forall|k: MatchV| #[trigger] clusters_map(s2).contains_key(k) implies k
            != entries[i].0@ by {
            let p = choose|p: int| 0 <= p < s2.len() && s2[p].0@ == k;
            assert(s2[p] == entries[p]);
        }
        assert(clusters_map(s2) =~= clusters_map(entries).remove(entries[i].0@));
    } else {
        let pre = entries.drop_last();
        assert(s2.drop_last() =~= pre.remove(i));
        assert(pre[i] == entries[i]);
        lemma_clusters_map_remove(pre, i);
        let last = entries.last();
        assert(s2.last() == last);
        assert(clusters_map(s2) == clusters_map(pre).remove(entries[i].0@).insert(
            last.0@,
            members_view(last.1@),
        ));
        assert(entries[entries.len() - 1].0@ != entries[i].0@);
        assert(clusters_map(pre).remove(entries[i].0@).insert(last.0@, members_view(last.1@))
            =~= clusters_map(pre).insert(last.0@, members_view(last.1@)).remove(entries[i].0@));
    }
}

/// Replacing an entry, keeping its key, replaces its value in the map.
proof fn lemma_clusters_map_update(entries: Seq<(Match, Vec<Match>)>, i: int, e: (Match, Vec<Match>))
    requires
        forall|p: int, q: int| 0 <= p < q < entries.len() ==> entries[p].0@ != entries[q].0@,
        0 <= i < entries.len(),
        e.0@ == entries[i].0@,
    ensures
        clusters_map(entries.update(i, e)) == clusters_map(entries).insert(
            e.0@,
            members_view(e.1@),
        ),
    decreases entries.len(),
{
    let s2 = entries.update(i, e);
    if i == entries.len() - 1 {
        assert(s2.drop_last() =~= entries.drop_last());
        assert(clusters_map(entries).insert(e.0@, members_view(e.1@)) =~= clusters_map(
            entries.drop_last(),
        ).insert(e.0@, members_view(e.1@)));
    } else {
        let pre = entries.drop_last();
        assert(s2.drop_last() =~= pre.update(i, e));
        assert(pre[i] == entries[i]);
        lemma_clusters_map_update(pre, i, e);
        let last = entries.last();
        assert(s2.last() == last);
        assert(clusters_map(s2) == clusters_map(pre).insert(e.0@, members_view(e.1@)).insert(
            last.0@,
            members_view(last.1@),
        ));
        assert(entries[entries.len() - 1].0@ != entries[i].0@);
        assert(clusters_map(pre).insert(e.0@, members_view(e.1@)).insert(
            last.0@,
            members_view(last.1@),
        ) =~= clusters_map(pre).insert(last.0@, members_view(last.1@)).insert(
            e.0@,
            members_view(e.1@),
        ));
    }
}

impl MatchesLookup {
    /// The key of the cluster the given match belongs to, if it is known.
    pub fn get_cloned(&self, m: &Match) -> (r: Option<Match>)
        requires
            self.wf(),
        ensures
            match r {
                Option::Some(k) => self@.contains_key(m@) && k@ == self@[m@],
                Option::None => !self@.contains_key(m@),
            },
    {
        proof {
            lemma_lookup_map_props(self.0@);
        }
        let n = self.0.len();
        let mut i: usize = 0;
        while i < n
            invariant
                i <= n,
                n == self.0@.len(),
                self.wf(),
                forall|j: int| 0 <= j < i ==> self.0@[j].0@ != m@,
                forall|k: MatchV|
                    lookup_map(self.0@).contains_key(k) <==> exists|ii: int|
                        0 <= ii < self.0@.len() && self.0@[ii].0@ == k,
                forall|ii: int|
                    #![trigger self.0@[ii]]
                    0 <= ii < self.0@.len() && (forall|j: int|
                        ii < j < self.0@.len() ==> self.0@[j].0@ != self.0@[ii].0@)
                        ==> lookup_map(self.0@).contains_key(self.0@[ii].0@) && lookup_map(
                        self.0@,
                    )[self.0@[ii].0@] == self.0@[ii].1@,
            decreases n - i,
        {
            if self.0[i].0 == *m {
                let k = self.0[i].1.clone();
                return Some(k);
            }
            i = i + 1;
        }
        None
    }

    /// Point a match at a cluster key, adding or overwriting its entry.
    pub fn set_key(&mut self, m: Match, key: Match)
        requires
            old(self).wf(),
        ensures
            final(self).wf(),
            final(self)@ == old(self)@.insert(m@, key@),
    {
        proof {
            lemma_lookup_map_props(self.0@);
        }
        let n = self.0.len();
        let mut i: usize = 0;
        while i < n
            invariant
                i <= n,
                n == self.0@.len(),
                self.wf(),
                self.0@ == old(self).0@,
                forall|j: int| 0 <= j < i ==> self.0@[j].0@ != m@,
            decreases n - i,
        {
            if self.0[i].0 == *(&m) {
                proof {
                    lemma_lookup_map_update(self.0@, i as int, (m, key));
                }
                self.0.set(i, (m, key));
                proof {
                    assert forall|p: int, q: int|
                        0 <= p < q < self.0@.len() implies self.0@[p].0@ != self.0@[q].0@ by {
                        assert(old(self).0@[p].0@ != old(self).0@[q].0@);
                    }
                }
                return ;
            }
            i = i + 1;
        }
        self.0.push((m, key));
        proof {
            assert(self.0@.drop_last() =~= old(self).0@);
            assert forall|p: int, q: int| 0 <= p < q < self.0@.len() implies self.0@[p].0@
                != self.0@[q].0@ by {
                if q < self.0@.len() - 1 {
                    assert(old(self).0@[p].0@ != old(self).0@[q].0@);
                } else {
                    assert(old(self).0@[p].0@ != m@);
                }
            }
        }
    }
}

impl Matches {
    /// Find the position of a cluster key.
    fn find(&self, key: &Match) -> (r: Option<usize>)
        requires
            self.wf(),
        ensures
            match r {
                Option::Some(i) => {
                    &&& i < self.0@.len()
                    &&& self.0@[i as int].0@ == key@
                    &&& self@.contains_key(key@)
                    &&& self@[key@] == members_view(self.0@[i as int].1@)
                },
                Option::None => !self@.contains_key(key@),
            },
    {
        proof {
            lemma_clusters_map_props(self.0@);
        }
        let n = self.0.len();
        let mut i: usize = 0;
        while i < n
            invariant
                i <= n,
                n == self.0@.len(),
                self.wf(),
                forall|j: int| 0 <= j < i ==> self.0@[j].0@ != key@,
                forall|k: MatchV|
                    clusters_map(self.0@).contains_key(k) <==> exists|ii: int|
                        0 <= ii < self.0@.len() && self.0@[ii].0@ == k,
                forall|ii: int|
                    #![trigger self.0@[ii]]
                    0 <= ii < self.0@.len() && (forall|j: int|
                        ii < j < self.0@.len() ==> self.0@[j].0@ != self.0@[ii].0@)
                        ==> clusters_map(self.0@).contains_key(self.0@[ii].0@) && clusters_map(
                        self.0@,
                    )[self.0@[ii].0@] == members_view(self.0@[ii].1@),
            decreases n - i,
        {
            if self.0[i].0 == *key {
                return Some(i);
            }
            i = i + 1;
        }
        None
    }

    /// Start a new cluster.
    pub fn insert_new(&mut self, key: Match, members: Vec<Match>)
        requires
            old(self).wf(),
            !old(self)@.contains_key(key@),
        ensures
            final(self).wf(),
            final(self)@ == old(self)@.insert(key@, members_view(members@)),
    {
        proof {
            lemma_clusters_map_props(old(self).0@);
        }
        self.0.push((key, members));
        proof {
            assert(self.0@.drop_last() =~= old(self).0@);
            assert forall|p: int, q: int| 0 <= p < q < self.0@.len() implies self.0@[p].0@
                != self.0@[q].0@ by {
                if q < self.0@.len() - 1 {
                    assert(old(self).0@[p].0@ != old(self).0@[q].0@);
                } else {
                    assert(0 <= p < old(self).0@.len() && old(self).0@[p].0@ == self.0@[p].0@);
                }
            }
        }
    }

    /// Add one member to an existing cluster.
    pub fn push_member(&mut self, key: &Match, m: Match)
        requires
            old(self).wf(),
            old(self)@.contains_key(key@),
        ensures
            final(self).wf(),
            final(self)@ == old(self)@.insert(key@, old(self)@[key@].push(m@)),
    {
        let ghost m_v = m@;
        let i = match self.find(key) {
            Option::Some(i) => i,
            Option::None => {
                proof {
                    assert(false);
                }
                0
            },
        };
        let mut entry = self.0.remove(i);
        entry.1.push(m);
        let ghost entry_v = entry;
        self.0.insert(i, entry);
        proof {
            assert(self.0@ =~= old(self).0@.update(i as int, entry_v));
            assert(members_view(entry_v.1@) =~= members_view(old(self).0@[i as int].1@).push(m_v));
            lemma_clusters_map_update(old(self).0@, i as int, entry_v);
            assert forall|p: int, q: int| 0 <= p < q < self.0@.len() implies self.0@[p].0@
                != self.0@[q].0@ by {
                assert(old(self).0@[p].0@ != old(self).0@[q].0@);
            }
        }
    }

    /// Take a whole cluster out, returning its member list.
    pub fn remove_entry(&mut self, key: &Match) -> (r: Vec<Match>)
        requires
            old(self).wf(),
            old(self)@.contains_key(key@),
        ensures
            final(self).wf(),
            final(self)@ == old(self)@.remove(key@),
            members_view(r@) == old(self)@[key@],
    {
        let i = match self.find(key) {
            Option::Some(i) => i,
            Option::None => {
                proof {
                    assert(false);
                }
                0
            },
        };
        proof {
            lemma_clusters_map_remove(self.0@, i as int);
        }
        let entry = self.0.remove(i);
        proof {
            assert forall|p: int, q: int| 0 <= p < q < self.0@.len() implies self.0@[p].0@
                != self.0@[q].0@ by {
                if q < i as int {
                    assert(old(self).0@[p].0@ != old(self).0@[q].0@);
                } else if p < i as int {
                    assert(old(self).0@[p].0@ != old(self).0@[q + 1].0@);
                } else {
                    assert(old(self).0@[p + 1].0@ != old(self).0@[q + 1].0@);
                }
            }
        }
        entry.1
    }

    /// Move every match of `other` into an existing cluster's member list.
    pub fn append_members(&mut self, key: &Match, other: &mut Vec<Match>)
        requires
            old(self).wf(),
            old(self)@.contains_key(key@),
        ensures
            final(self).wf(),
            final(self)@ == old(self)@.insert(key@, old(self)@[key@] + members_view(old(other)@)),
            final(other)@.len() == 0,
    {
        let i = match self.find(key) {
            Option::Some(i) => i,
            Option::None => {
                proof {
                    assert(false);
                }
                0
            },
        };
        let mut entry = self.0.remove(i);
        entry.1.append(other);
        let ghost entry_v = entry;
        self.0.insert(i, entry);
        proof {
            assert(self.0@ =~= old(self).0@.update(i as int, entry_v));
            assert(members_view(entry_v.1@) =~= members_view(old(self).0@[i as int].1@)
                + members_view(old(other)@));
            lemma_clusters_map_update(old(self).0@, i as int, entry_v);
            assert forall|p: int, q: int| 0 <= p < q < self.0@.len() implies self.0@[p].0@
                != self.0@[q].0@ by {
                assert(old(self).0@[p].0@ != old(self).0@[q].0@);
            }
        }
    }
}

/// What ties the two tables together. Keys point at themselves, every known
/// match points at a live cluster key, listed members point back at their
/// key, no member is listed twice or is itself a key, every non-key match is
/// listed under its key, and a cluster's members all share the key's size.
pub open spec fn clusters_wf(lk: Map<MatchV, MatchV>, cl: Map<MatchV, Seq<MatchV>>) -> bool {
    &&& forall|k: MatchV| #[trigger] cl.contains_key(k) ==> lk.contains_key(k) && lk[k] == k
    &&& forall|m: MatchV| #[trigger] lk.contains_key(m) ==> cl.contains_key(lk[m])
    &&& forall|k: MatchV, i: int|
        #![trigger cl[k][i]]
        cl.contains_key(k) && 0 <= i < cl[k].len() ==> lk.contains_key(cl[k][i]) && lk[cl[k][i]]
            == k && cl[k][i].size == k.size && cl[k][i] != k
    &&& forall|k: MatchV, i: int, j: int|
        #![trigger cl[k][i], cl[k][j]]
        cl.contains_key(k) && 0 <= i < j < cl[k].len() ==> cl[k][i] != cl[k][j]
    &&& forall|m: MatchV| #[trigger] lk.contains_key(m) && lk[m] != m ==> cl[lk[m]].contains(m)
}

/// What well-formed tables promise of every cluster: each listed member
/// points back at its cluster's key, the key points at itself, every
/// member has the key's size — so a cluster's matches all share one size —
/// and no match is listed under two different keys.
pub proof fn lemma_cluster_table_laws(lk: Map<MatchV, MatchV>, cl: Map<MatchV, Seq<MatchV>>)
    requires
        clusters_wf(lk, cl),
    ensures
        forall|k: MatchV| #[trigger] cl.contains_key(k) ==> lk.contains_key(k) && lk[k] == k,
        forall|k: MatchV, i: int|
            #![trigger cl[k][i]]
            cl.contains_key(k) && 0 <= i < cl[k].len() ==> lk.contains_key(cl[k][i])
                && lk[cl[k][i]] == k && cl[k][i].size == k.size,
        forall|k1: MatchV, k2: MatchV, i1: int, i2: int|
            #![trigger cl[k1][i1], cl[k2][i2]]
            cl.contains_key(k1) && cl.contains_key(k2) && 0 <= i1 < cl[k1].len() && 0 <= i2
                < cl[k2].len() && cl[k1][i1] == cl[k2][i2] ==> k1 == k2,
{
}

/// What one row of a well-formed cluster table stands for: its key maps to
/// its member list, points at itself, and the whole cluster — key first,
/// members after — lists each of its matches exactly once, covering the
/// key's recorded equivalents.
pub proof fn lemma_cluster_entry_shape(t: Matches, lk: Map<MatchV, MatchV>, i: int)
    requires
        t.wf(),
        clusters_wf(lk, t@),
        0 <= i < t.0@.len(),
    ensures
        t@.contains_key(t.0@[i].0@),
        t@[t.0@[i].0@] == members_view(t.0@[i].1@),
        lk.contains_key(t.0@[i].0@) && lk[t.0@[i].0@] == t.0@[i].0@,
        members_view(seq![t.0@[i].0] + t.0@[i].1@).no_duplicates(),
        members_view(seq![t.0@[i].0] + t.0@[i].1@).to_set() == cluster_of(lk, t@, t.0@[i].0@),
{
    lemma_clusters_map_props(t.0@);
    let entries = t.0@;
    let k = entries[i].0@;
    assert(forall|j: int| i < j < entries.len() ==> entries[j].0@ != entries[i].0@);
    assert(t@.contains_key(k) && t@[k] == members_view(entries[i].1@));
    let v = members_view(seq![entries[i].0] + entries[i].1@);
    let ms = t@[k];
    assert(v.len() == 1 + ms.len());
    assert(v[0] == k);
    assert forall|j: int| 1 <= j < v.len() implies v[j] == ms[j - 1] by {
        assert((seq![entries[i].0] + entries[i].1@)[j] == entries[i].1@[j - 1]);
    }
    assert(v.no_duplicates()) by {
        assert forall|p: int, q: int| 0 <= p < q < v.len() implies v[p] != v[q] by {
            if p == 0 {
                assert(ms[q - 1] != k);
            } else {
                assert(ms[p - 1] != ms[q - 1]);
            }
        }
    }
    assert(v.to_set() =~= cluster_of(lk, t@, k)) by {
        assert(cluster_of(lk, t@, k) == ms.to_set().insert(k));
        assert forall|x: MatchV| #[trigger] v.to_set().contains(x) implies ms.to_set().insert(
            k,
        ).contains(x) by {
            let j = choose|j: int| 0 <= j < v.len() && v[j] == x;
            if j > 0 {
                assert(ms[j - 1] == x);
            }
        }
        assert forall|x: MatchV| #[trigger] ms.to_set().insert(k).contains(x) implies
        v.to_set().contains(x) by {
            if x == k {
                assert(v[0] == x);
            } else {
                let j = choose|j: int| 0 <= j < ms.len() && ms[j] == x;
                assert(v[j + 1] == x);
            }
        }
    }
}

/// The set of matches recorded as equivalent to `m`: its cluster's key and
/// members, or `m` alone when it is not yet known.
pub open spec fn cluster_of(lk: Map<MatchV, MatchV>, cl: Map<MatchV, Seq<MatchV>>, m: MatchV) -> Set<
    MatchV,
> {
    if lk.contains_key(m) {
        cl[lk[m]].to_set().insert(lk[m])
    } else {
        Set::<MatchV>::empty().insert(m)
    }
}

/// Everything a cluster holds belongs to that cluster: the recorded
/// equivalents of any listed equivalent of `m` are exactly those of `m`.
pub proof fn lemma_cluster_of_member(
    lk: Map<MatchV, MatchV>,
    cl: Map<MatchV, Seq<MatchV>>,
    m: MatchV,
    m2: MatchV,
)
    requires
        clusters_wf(lk, cl),
        cluster_of(lk, cl, m).contains(m2),
    ensures
        cluster_of(lk, cl, m2) == cluster_of(lk, cl, m),
        lk.contains_key(m) ==> lk.contains_key(m2) && lk[m2] == lk[m],
{
    if lk.contains_key(m) {
        let k = lk[m];
        assert(cl.contains_key(k));
        if m2 == k {
        } else {
            assert(cl[k].to_set().contains(m2));
            assert(cl[k].contains(m2));
            let i = choose|i: int| 0 <= i < cl[k].len() && cl[k][i] == m2;
            assert(lk[cl[k][i]] == k);
        }
    } else {
        assert(m2 == m);
    }
}

/// A known match's cluster set holds only known matches, and holds the match
/// itself.
pub proof fn lemma_cluster_of_bounds(lk: Map<MatchV, MatchV>, cl: Map<MatchV, Seq<MatchV>>, m: MatchV)
    requires
        clusters_wf(lk, cl),
    ensures
        cluster_of(lk, cl, m).contains(m),
        forall|m2: MatchV|
            cluster_of(lk, cl, m).contains(m2) && m2 != m ==> lk.contains_key(m2)
                && lk.contains_key(m),
{
    if lk.contains_key(m) {
        let k = lk[m];
        assert(cl.contains_key(k));
        if lk[m] == m {
            assert(cluster_of(lk, cl, m).contains(m));
        } else {
            assert(cl[k].contains(m));
            assert(cl[k].to_set().contains(m));
        }
        assert forall|m2: MatchV| cluster_of(lk, cl, m).contains(m2) && m2 != m implies
        lk.contains_key(m2) && lk.contains_key(m) by {
            if m2 != k {
                assert(cl[k].contains(m2));
                let i = choose|i: int| 0 <= i < cl[k].len() && cl[k][i] == m2;
                assert(lk.contains_key(cl[k][i]));
            }
        }
    }
}

/// The case of a pair of entirely new matches: a fresh cluster keyed by the
/// second holds the first.
proof fn lemma_update_case_new(
    lk0: Map<MatchV, MatchV>,
    cl0: Map<MatchV, Seq<MatchV>>,
    lk1: Map<MatchV, MatchV>,
    cl1: Map<MatchV, Seq<MatchV>>,
    av: MatchV,
    bv: MatchV,
)
    requires
        clusters_wf(lk0, cl0),
        !lk0.contains_key(av),
        !lk0.contains_key(bv),
        av != bv,
        av.size == bv.size,
        cl1 == cl0.insert(bv, seq![av]),
        lk1 == lk0.insert(av, bv).insert(bv, bv),
    ensures
        clusters_wf(lk1, cl1),
        lk1.dom() == lk0.dom().insert(av).insert(bv),
        forall|m: MatchV|
            #![trigger cluster_of(lk1, cl1, m)]
            cluster_of(lk1, cl1, m) == (if cluster_of(lk0, cl0, av).contains(m) || cluster_of(
                lk0,
                cl0,
                bv,
            ).contains(m) {
                cluster_of(lk0, cl0, av).union(cluster_of(lk0, cl0, bv))
            } else {
                cluster_of(lk0, cl0, m)
            }),
{
    assert(lk1.dom() =~= lk0.dom().insert(av).insert(bv));
    assert(!cl0.contains_key(bv));
    assert(!cl0.contains_key(av));
    assert(seq![av].len() == 1);
    assert forall|k: MatchV, i: int|
        #![trigger cl1[k][i]]
        cl1.contains_key(k) && 0 <= i < cl1[k].len() implies lk1.contains_key(cl1[k][i])
        && lk1[cl1[k][i]] == k && cl1[k][i].size == k.size && cl1[k][i] != k by {
        if k == bv {
            assert(cl1[k] == seq![av]);
            assert(cl1[k][i] == av);
        } else {
            assert(cl1[k] == cl0[k]);
            assert(lk0.contains_key(cl0[k][i]));
        }
    }
    assert forall|k: MatchV, i: int, j: int|
        #![trigger cl1[k][i], cl1[k][j]]
        cl1.contains_key(k) && 0 <= i < j < cl1[k].len() implies cl1[k][i] != cl1[k][j] by {
        if k != bv {
            assert(cl1[k] == cl0[k]);
        }
    }
    assert forall|m: MatchV| #[trigger] lk1.contains_key(m) && lk1[m] != m implies cl1[lk1[m]].contains(
        m,
    ) by {
        if m == av {
            assert(cl1[bv][0] == av);
        } else if m != bv {
            assert(cl0[lk0[m]].contains(m));
        }
    }
    let ca = cluster_of(lk0, cl0, av);
    let cb = cluster_of(lk0, cl0, bv);
    assert(ca =~= Set::<MatchV>::empty().insert(av));
    assert(cb =~= Set::<MatchV>::empty().insert(bv));
    assert forall|m: MatchV|
        #![trigger cluster_of(lk1, cl1, m)]
        cluster_of(lk1, cl1, m) == (if ca.contains(m) || cb.contains(m) {
            ca.union(cb)
        } else {
            cluster_of(lk0, cl0, m)
        }) by {
        if m == av || m == bv {
            assert(lk1[m] == bv);
            assert(cl1[bv] == seq![av]);
            assert forall|x: MatchV| #[trigger] cl1[bv].to_set().contains(x) implies x == av by {
                let i = choose|i: int| 0 <= i < cl1[bv].len() && cl1[bv][i] == x;
                assert(i == 0);
            }
            assert(cl1[bv].contains(av)) by {
                assert(cl1[bv][0] == av);
            }
            assert(cl1[bv].to_set() =~= Set::<MatchV>::empty().insert(av));
            assert(cluster_of(lk1, cl1, m) =~= ca.union(cb));
        } else if lk0.contains_key(m) {
            assert(lk1[m] == lk0[m]);
            assert(lk0[m] != bv);
            assert(cl1[lk0[m]] == cl0[lk0[m]]);
        } else {
            assert(!lk1.contains_key(m));
        }
    }
}

/// The case of one known and one new match: the new one joins the known
/// one's cluster.
proof fn lemma_update_case_join(
    lk0: Map<MatchV, MatchV>,
    cl0: Map<MatchV, Seq<MatchV>>,
    lk1: Map<MatchV, MatchV>,
    cl1: Map<MatchV, Seq<MatchV>>,
    known: MatchV,
    fresh: MatchV,
    kv: MatchV,
)
    requires
        clusters_wf(lk0, cl0),
        lk0.contains_key(known),
        lk0[known] == kv,
        !lk0.contains_key(fresh),
        known.size == fresh.size,
        cl1 == cl0.insert(kv, cl0[kv].push(fresh)),
        lk1 == lk0.insert(fresh, kv),
    ensures
        clusters_wf(lk1, cl1),
        lk1.dom() == lk0.dom().insert(known).insert(fresh),
        forall|m: MatchV|
            #![trigger cluster_of(lk1, cl1, m)]
            cluster_of(lk1, cl1, m) == (if cluster_of(lk0, cl0, known).contains(m) || cluster_of(
                lk0,
                cl0,
                fresh,
            ).contains(m) {
                cluster_of(lk0, cl0, known).union(cluster_of(lk0, cl0, fresh))
            } else {
                cluster_of(lk0, cl0, m)
            }),
{
    broadcast use vstd::seq_lib::group_seq_properties;

    assert(lk1.dom() =~= lk0.dom().insert(known).insert(fresh));
    assert(cl0.contains_key(kv));
    assert(!cl0.contains_key(fresh));
    assert(kv.size == known.size) by {
        if known != kv {
            assert(cl0[kv].contains(known));
            let i = choose|i: int| 0 <= i < cl0[kv].len() && cl0[kv][i] == known;
            assert(cl0[kv][i].size == kv.size);
        }
    }
    // fresh is nowhere in any old member list
    assert forall|k: MatchV, i: int|
        cl0.contains_key(k) && 0 <= i < cl0[k].len() implies #[trigger] cl0[k][i] != fresh by {
        assert(lk0.contains_key(cl0[k][i]));
    }
    assert forall|k: MatchV| #[trigger] cl1.contains_key(k) implies lk1.contains_key(k) && lk1[k]
        == k by {
        assert(cl0.contains_key(k));
    }
    assert forall|k: MatchV, i: int|
        #![trigger cl1[k][i]]
        cl1.contains_key(k) && 0 <= i < cl1[k].len() implies lk1.contains_key(cl1[k][i])
        && lk1[cl1[k][i]] == k && cl1[k][i].size == k.size && cl1[k][i] != k by {
        if k == kv {
            if i < cl0[kv].len() {
                assert(cl1[k][i] == cl0[kv][i]);
                assert(lk0.contains_key(cl0[kv][i]));
            } else {
                assert(cl1[k][i] == fresh);
                assert(fresh != kv);
            }
        } else {
            assert(cl1[k] == cl0[k]);
            assert(lk0.contains_key(cl0[k][i]));
        }
    }
    assert forall|k: MatchV, i: int, j: int|
        #![trigger cl1[k][i], cl1[k][j]]
        cl1.contains_key(k) && 0 <= i < j < cl1[k].len() implies cl1[k][i] != cl1[k][j] by {
        if k == kv {
            if j < cl0[kv].len() {
                assert(cl1[k][i] == cl0[kv][i] && cl1[k][j] == cl0[kv][j]);
            } else {
                assert(cl1[k][j] == fresh);
                assert(cl1[k][i] == cl0[kv][i]);
            }
        } else {
            assert(cl1[k] == cl0[k]);
        }
    }
    assert forall|m: MatchV| #[trigger] lk1.contains_key(m) && lk1[m] != m implies cl1[lk1[m]].contains(
        m,
    ) by {
        if m == fresh {
            assert(cl1[kv][cl0[kv].len() as int] == fresh);
        } else {
            assert(cl0[lk0[m]].contains(m));
            if lk0[m] == kv {
                let i = choose|i: int| 0 <= i < cl0[kv].len() && cl0[kv][i] == m;
                assert(cl1[kv][i] == m);
            }
        }
    }
    let ca = cluster_of(lk0, cl0, known);
    let cb = cluster_of(lk0, cl0, fresh);
    assert(ca == cl0[kv].to_set().insert(kv));
    assert(cb =~= Set::<MatchV>::empty().insert(fresh));
    assert forall|m: MatchV|
        #![trigger cluster_of(lk1, cl1, m)]
        cluster_of(lk1, cl1, m) == (if ca.contains(m) || cb.contains(m) {
            ca.union(cb)
        } else {
            cluster_of(lk0, cl0, m)
        }) by {
        assert(cl1[kv].to_set() =~= cl0[kv].to_set().insert(fresh));
        if ca.contains(m) || cb.contains(m) {
            if m == fresh {
                assert(lk1[m] == kv);
            } else {
                lemma_cluster_of_member(lk0, cl0, known, m);
                assert(lk0[m] == kv);
                assert(lk1[m] == kv);
            }
            assert(cluster_of(lk1, cl1, m) == cl1[kv].to_set().insert(kv));
            assert(cl1[kv].to_set().insert(kv) =~= ca.union(cb));
        } else {
            assert(m != fresh);
            if lk0.contains_key(m) {
                assert(lk0[m] != kv) by {
                    if lk0[m] == kv {
                        if m != kv {
                            assert(cl0[kv].contains(m));
                            assert(cl0[kv].to_set().contains(m));
                        }
                        assert(ca.contains(m));
                    }
                }
                assert(lk1[m] == lk0[m]);
                assert(cl1[lk0[m]] == cl0[lk0[m]]);
            } else {
                assert(!lk1.contains_key(m));
            }
        }
    }
}

/// The case of two known matches in different clusters: the second cluster
/// is dissolved into the first.
proof fn lemma_update_case_merge(
    lk0: Map<MatchV, MatchV>,
    cl0: Map<MatchV, Seq<MatchV>>,
    lk1: Map<MatchV, MatchV>,
    cl1: Map<MatchV, Seq<MatchV>>,
    av: MatchV,
    bv: MatchV,
    kav: MatchV,
    kbv: MatchV,
    ms: Seq<MatchV>,
)
    requires
        clusters_wf(lk0, cl0),
        lk0.contains_key(av),
        lk0[av] == kav,
        lk0.contains_key(bv),
        lk0[bv] == kbv,
        kav != kbv,
        av.size == bv.size,
        ms == cl0[kbv].push(kbv),
        cl1 == cl0.remove(kbv).insert(kav, cl0[kav] + ms),
        lk1.dom() == lk0.dom(),
        forall|m: MatchV|
            lk0.contains_key(m) ==> lk1[m] == (if ms.contains(m) {
                kav
            } else {
                lk0[m]
            }),
    ensures
        clusters_wf(lk1, cl1),
        lk1.dom() == lk0.dom().insert(av).insert(bv),
        forall|m: MatchV|
            #![trigger cluster_of(lk1, cl1, m)]
            cluster_of(lk1, cl1, m) == (if cluster_of(lk0, cl0, av).contains(m) || cluster_of(
                lk0,
                cl0,
                bv,
            ).contains(m) {
                cluster_of(lk0, cl0, av).union(cluster_of(lk0, cl0, bv))
            } else {
                cluster_of(lk0, cl0, m)
            }),
{
    broadcast use vstd::seq_lib::group_seq_properties;

    assert(lk1.dom() =~= lk0.dom().insert(av).insert(bv));
    assert(cl0.contains_key(kav));
    assert(cl0.contains_key(kbv));
    assert(kav.size == av.size) by {
        if av != kav {
            assert(cl0[kav].contains(av));
            let i = choose|i: int| 0 <= i < cl0[kav].len() && cl0[kav][i] == av;
            assert(cl0[kav][i].size == kav.size);
        }
    }
    assert(kbv.size == bv.size) by {
        if bv != kbv {
            assert(cl0[kbv].contains(bv));
            let i = choose|i: int| 0 <= i < cl0[kbv].len() && cl0[kbv][i] == bv;
            assert(cl0[kbv][i].size == kbv.size);
        }
    }
    // ms holds exactly the matches that pointed at kbv
    assert forall|m: MatchV| ms.contains(m) implies lk0.contains_key(m) && lk0[m] == kbv by {
        if m == kbv {
        } else {
            let i = choose|i: int| 0 <= i < ms.len() && ms[i] == m;
            assert(cl0[kbv][i] == m);
        }
    }
    assert forall|m: MatchV| lk0.contains_key(m) && lk0[m] == kbv implies ms.contains(m) by {
        if m == kbv {
            assert(ms[ms.len() - 1] == kbv);
        } else {
            assert(cl0[kbv].contains(m));
            let i = choose|i: int| 0 <= i < cl0[kbv].len() && cl0[kbv][i] == m;
            assert(ms[i] == m);
        }
    }
    // ms members have the key's size and are never kav or members of kav
    assert forall|m: MatchV| ms.contains(m) implies m.size == kbv.size && m != kav by {
        if m == kbv {
        } else {
            let i = choose|i: int| 0 <= i < ms.len() && ms[i] == m;
            assert(cl0[kbv][i] == m);
            assert(cl0[kbv][i].size == kbv.size);
        }
    }
    assert(!ms.contains(kav));
    assert forall|k: MatchV| #[trigger] cl1.contains_key(k) implies lk1.contains_key(k) && lk1[k]
        == k by {
        assert(cl0.contains_key(k));
        assert(k != kbv);
        assert(!ms.contains(k));
    }
    assert forall|m: MatchV| #[trigger] lk1.contains_key(m) implies cl1.contains_key(lk1[m]) by {
        if ms.contains(m) {
            assert(lk1[m] == kav);
        } else {
            assert(lk1[m] == lk0[m]);
            assert(lk0[m] != kbv);
            assert(cl0.contains_key(lk0[m]));
        }
    }
    assert forall|k: MatchV, i: int|
        #![trigger cl1[k][i]]
        cl1.contains_key(k) && 0 <= i < cl1[k].len() implies lk1.contains_key(cl1[k][i])
        && lk1[cl1[k][i]] == k && cl1[k][i].size == k.size && cl1[k][i] != k by {
        if k == kav {
            if i < cl0[kav].len() {
                assert(cl1[k][i] == cl0[kav][i]);
                assert(lk0.contains_key(cl0[kav][i]) && lk0[cl0[kav][i]] == kav);
                assert(!ms.contains(cl0[kav][i]));
            } else {
                assert(cl1[k][i] == ms[i - cl0[kav].len()]);
                assert(ms.contains(cl1[k][i]));
                assert(kbv.size == kav.size);
            }
        } else {
            assert(cl1[k] == cl0[k]);
            assert(lk0.contains_key(cl0[k][i]) && lk0[cl0[k][i]] == k);
            assert(lk0[cl0[k][i]] != kbv);
            assert(!ms.contains(cl0[k][i]));
        }
    }
    assert forall|k: MatchV, i: int, j: int|
        #![trigger cl1[k][i], cl1[k][j]]
        cl1.contains_key(k) && 0 <= i < j < cl1[k].len() implies cl1[k][i] != cl1[k][j] by {
        if k == kav {
            let la = cl0[kav].len() as int;
            if j < la {
                assert(cl1[k][i] == cl0[kav][i] && cl1[k][j] == cl0[kav][j]);
            } else if i >= la {
                assert(cl1[k][i] == ms[i - la] && cl1[k][j] == ms[j - la]);
                if i - la < ms.len() - 1 && j - la < ms.len() - 1 {
                    assert(cl0[kbv][i - la] != cl0[kbv][j - la]);
                } else {
                    // the later one is kbv itself, never a member of its own list
                    assert(cl1[k][j] == kbv);
                    assert(cl0[kbv][i - la] != kbv);
                }
            } else {
                assert(cl1[k][i] == cl0[kav][i] && cl1[k][j] == ms[j - la]);
                assert(lk0[cl0[kav][i]] == kav);
                assert(ms.contains(ms[j - la]));
                assert(lk0[ms[j - la]] == kbv);
            }
        } else {
            assert(cl1[k] == cl0[k]);
        }
    }
    assert forall|m: MatchV| #[trigger] lk1.contains_key(m) && lk1[m] != m implies cl1[lk1[m]].contains(
        m,
    ) by {
        if ms.contains(m) {
            assert(lk1[m] == kav);
            let i = choose|i: int| 0 <= i < ms.len() && ms[i] == m;
            assert(cl1[kav][cl0[kav].len() + i] == m);
        } else {
            assert(lk1[m] == lk0[m]);
            assert(lk0[m] != kbv);
            assert(cl0[lk0[m]].contains(m));
            if lk0[m] == kav {
                let i = choose|i: int| 0 <= i < cl0[kav].len() && cl0[kav][i] == m;
                assert(cl1[kav][i] == m);
            } else {
                assert(cl1[lk0[m]] == cl0[lk0[m]]);
            }
        }
    }
    let ca = cluster_of(lk0, cl0, av);
    let cb = cluster_of(lk0, cl0, bv);
    assert(ca == cl0[kav].to_set().insert(kav));
    assert(cb == cl0[kbv].to_set().insert(kbv));
    assert(cb =~= ms.to_set()) by {
        assert forall|m: MatchV| cb.contains(m) implies ms.to_set().contains(m) by {
            if m == kbv {
                assert(ms[ms.len() - 1] == kbv);
            } else {
                assert(cl0[kbv].to_set().contains(m));
                let i = choose|i: int| 0 <= i < cl0[kbv].len() && cl0[kbv][i] == m;
                assert(ms[i] == m);
            }
        }
        assert forall|m: MatchV| ms.to_set().contains(m) implies cb.contains(m) by {
            let i = choose|i: int| 0 <= i < ms.len() && ms[i] == m;
            if i < ms.len() - 1 {
                assert(cl0[kbv][i] == m);
                assert(cl0[kbv].to_set().contains(m));
            }
        }
    }
    assert forall|m: MatchV|
        #![trigger cluster_of(lk1, cl1, m)]
        cluster_of(lk1, cl1, m) == (if ca.contains(m) || cb.contains(m) {
            ca.union(cb)
        } else {
            cluster_of(lk0, cl0, m)
        }) by {
        assert(cl1[kav].to_set() =~= cl0[kav].to_set().union(ms.to_set()));
        if ca.contains(m) || cb.contains(m) {
            if cb.contains(m) {
                assert(ms.contains(m));
                assert(lk1.contains_key(m));
                assert(lk1[m] == kav);
            } else {
                lemma_cluster_of_member(lk0, cl0, av, m);
                assert(lk0[m] == kav);
                assert(!ms.contains(m));
                assert(lk1[m] == kav);
            }
            assert(cluster_of(lk1, cl1, m) == cl1[kav].to_set().insert(kav));
            assert(cl1[kav].to_set().insert(kav) =~= ca.union(cb));
        } else {
            if lk0.contains_key(m) {
                assert(lk0[m] != kav) by {
                    if lk0[m] == kav {
                        if m != kav {
                            assert(cl0[kav].contains(m));
                            assert(cl0[kav].to_set().contains(m));
                        }
                        assert(ca.contains(m));
                    }
                }
                assert(lk0[m] != kbv) by {
                    if lk0[m] == kbv {
                        if m != kbv {
                            assert(cl0[kbv].contains(m));
                            assert(cl0[kbv].to_set().contains(m));
                        }
                        assert(cb.contains(m));
                    }
                }
                assert(!ms.contains(m));
                assert(lk1[m] == lk0[m]);
                assert(cl1[lk0[m]] == cl0[lk0[m]]);
            } else {
                assert(!lk1.contains_key(m));
            }
        }
    }
}

/// Add or remove entries from lookup and matches based on given pair of matches.
///
/// There are 4 situations that we prepare for.
///
/// 1. **The pair of matches both exist in the same bucket.** We don't need to do anything.
/// 2. **The pair of matches both exist in different buckets.** We combine both buckets.
/// 3. **One of the pair of matches exist in a bucket.** We put the other one in that bucket.
/// 4. **None of the matches exist in any bucket.** We put one of them in a bucket labelled with
///    the other.
///
/// Afterwards the recorded equivalents of either match are the union of what
/// was recorded for each, and nothing else moves. The ensures also pin each
/// situation's exact table actions: a fresh pair starts a cluster keyed by
/// the second match holding the first; a fresh match joins the known one's
/// cluster at the end of its member list and its lookup entry points there;
/// two different keys dissolve the second cluster into the first, its
/// members and old key appended in order and re-pointed; one shared key
/// leaves both tables exactly as they were.
pub fn update_matches(
    pair: (Match, Match),
    where_is_match: &mut MatchesLookup,
    matches_hash: &mut Matches,
)
    requires
        old(where_is_match).wf(),
        old(matches_hash).wf(),
        clusters_wf(old(where_is_match)@, old(matches_hash)@),
        pair.0@.size == pair.1@.size,
        pair.0@ != pair.1@,
    ensures
        final(where_is_match).wf(),
        final(matches_hash).wf(),
        clusters_wf(final(where_is_match)@, final(matches_hash)@),
        final(where_is_match)@.dom() == old(where_is_match)@.dom().insert(pair.0@).insert(
            pair.1@,
        ),
        forall|m: MatchV|
            #![trigger cluster_of(final(where_is_match)@, final(matches_hash)@, m)]
            cluster_of(final(where_is_match)@, final(matches_hash)@, m) == (if cluster_of(
                old(where_is_match)@,
                old(matches_hash)@,
                pair.0@,
            ).contains(m) || cluster_of(old(where_is_match)@, old(matches_hash)@, pair.1@).contains(
                m,
            ) {
                cluster_of(old(where_is_match)@, old(matches_hash)@, pair.0@).union(
                    cluster_of(old(where_is_match)@, old(matches_hash)@, pair.1@),
                )
            } else {
                cluster_of(old(where_is_match)@, old(matches_hash)@, m)
            }),
        !old(where_is_match)@.contains_key(pair.0@) && !old(where_is_match)@.contains_key(pair.1@)
            ==> final(matches_hash)@ == old(matches_hash)@.insert(pair.1@, seq![pair.0@])
                && final(where_is_match)@ == old(where_is_match)@.insert(pair.0@, pair.1@).insert(
                pair.1@,
                pair.1@,
            ),
        old(where_is_match)@.contains_key(pair.0@) && !old(where_is_match)@.contains_key(pair.1@)
            ==> final(matches_hash)@ == old(matches_hash)@.insert(
                old(where_is_match)@[pair.0@],
                old(matches_hash)@[old(where_is_match)@[pair.0@]].push(pair.1@),
            ) && final(where_is_match)@ == old(where_is_match)@.insert(
                pair.1@,
                old(where_is_match)@[pair.0@],
            ),
        !old(where_is_match)@.contains_key(pair.0@) && old(where_is_match)@.contains_key(pair.1@)
            ==> final(matches_hash)@ == old(matches_hash)@.insert(
                old(where_is_match)@[pair.1@],
                old(matches_hash)@[old(where_is_match)@[pair.1@]].push(pair.0@),
            ) && final(where_is_match)@ == old(where_is_match)@.insert(
                pair.0@,
                old(where_is_match)@[pair.1@],
            ),
        old(where_is_match)@.contains_key(pair.0@) && old(where_is_match)@.contains_key(pair.1@)
            && old(where_is_match)@[pair.0@] == old(where_is_match)@[pair.1@]
            ==> final(matches_hash)@ == old(matches_hash)@ && final(where_is_match)@ == old(
                where_is_match,
            )@,
        old(where_is_match)@.contains_key(pair.0@) && old(where_is_match)@.contains_key(pair.1@)
            && old(where_is_match)@[pair.0@] != old(where_is_match)@[pair.1@]
            ==> final(matches_hash)@ == old(matches_hash)@.remove(
                old(where_is_match)@[pair.1@],
            ).insert(
                old(where_is_match)@[pair.0@],
                old(matches_hash)@[old(where_is_match)@[pair.0@]] + old(matches_hash)@[old(
                    where_is_match,
                )@[pair.1@]] + seq![old(where_is_match)@[pair.1@]],
            ) && final(where_is_match)@.dom() == old(where_is_match)@.dom() && (forall|mv: MatchV|
                #[trigger] old(where_is_match)@.contains_key(mv)
                    ==> final(where_is_match)@[mv] == (if old(matches_hash)@[old(
                    where_is_match,
                )@[pair.1@]].contains(mv) || mv == old(where_is_match)@[pair.1@] {
                    old(where_is_match)@[pair.0@]
                } else {
                    old(where_is_match)@[mv]
                })),
{
    let (a, b) = pair;
    let ghost lk0 = where_is_match@;
    let ghost cl0 = matches_hash@;
    let ghost av = a@;
    let ghost bv = b@;
    let refa = where_is_match.get_cloned(&a);
    let refb = where_is_match.get_cloned(&b);
    match (refa, refb) {
        (Some(ka), Some(kb)) => {
            if ka != kb {
                // Reassign all of kb's references to ka, and move its bucket
                let mut refb_v = matches_hash.remove_entry(&kb);
                refb_v.push(kb.clone());
                let ghost ms = members_view(refb_v@);
                proof {
                    assert(ms =~= cl0[kb@].push(kb@));
                    assert forall|t: int| 0 <= t < ms.len() implies lk0.contains_key(ms[t]) by {
                        if t < ms.len() - 1 {
                            assert(cl0[kb@][t] == ms[t]);
                        }
                    }
                }
                let n = refb_v.len();
                let mut idx: usize = 0;
                while idx < n
                    invariant
                        idx <= n,
                        n == refb_v@.len(),
                        ms == members_view(refb_v@),
                        where_is_match.wf(),
                        forall|t: int| 0 <= t < ms.len() ==> lk0.contains_key(ms[t]),
                        where_is_match@.dom() == lk0.dom(),
                        forall|m: MatchV|
                            lk0.contains_key(m) ==> where_is_match@[m] == (if ms.take(
                                idx as int,
                            ).contains(m) {
                                ka@
                            } else {
                                lk0[m]
                            }),
                    decreases n - idx,
                {
                    let mv = refb_v[idx].clone();
                    let ghost pre = where_is_match@;
                    where_is_match.set_key(mv, ka.clone());
                    proof {
                        assert(ms[idx as int] == mv@);
                        assert(where_is_match@.dom() =~= lk0.dom());
                        assert(ms.take(idx + 1) =~= ms.take(idx as int).push(ms[idx as int]));
                        assert forall|m: MatchV| lk0.contains_key(m) implies where_is_match@[m] == (
                        if ms.take(idx + 1).contains(m) {
                            ka@
                        } else {
                            lk0[m]
                        }) by {
                            if m == mv@ {
                                assert(ms.take(idx + 1)[idx as int] == mv@);
                                assert(ms.take(idx + 1).contains(mv@));
                            } else {
                                assert(where_is_match@[m] == pre[m]);
                                assert(ms.take(idx + 1).contains(m) == ms.take(
                                    idx as int,
                                ).contains(m)) by {
                                    if ms.take(idx + 1).contains(m) {
                                        let t = choose|t: int|
                                            0 <= t < ms.take(idx + 1).len() && #[trigger] ms.take(
                                                idx + 1,
                                            )[t] == m;
                                        if t == idx {
                                            assert(m == ms[idx as int]);
                                            assert(false);
                                        } else {
                                            assert(ms.take(idx as int)[t] == m);
                                        }
                                    }
                                    if ms.take(idx as int).contains(m) {
                                        let t = choose|t: int|
                                            0 <= t < ms.take(idx as int).len() && ms.take(
                                                idx as int,
                                            )[t] == m;
                                        assert(ms.take(idx + 1)[t] == m);
                                    }
                                }
                            }
                        }
                    }
                    idx = idx + 1;
                }
                proof {
                    assert(ms.take(n as int) =~= ms);
                }
                matches_hash.append_members(&ka, &mut refb_v);
                proof {
                    assert(matches_hash@ =~= cl0.remove(kb@).insert(ka@, cl0[ka@] + ms));
                    assert(ms =~= cl0[kb@] + seq![kb@]);
                    assert(cl0[ka@] + ms =~= cl0[ka@] + cl0[kb@] + seq![kb@]);
                    assert(matches_hash@ =~= cl0.remove(kb@).insert(
                        ka@,
                        cl0[ka@] + cl0[kb@] + seq![kb@],
                    ));
                    assert forall|mv: MatchV| #[trigger] lk0.contains_key(mv) implies
                    where_is_match@[mv] == (if cl0[kb@].contains(mv) || mv == kb@ {
                        ka@
                    } else {
                        lk0[mv]
                    }) by {
                        assert(where_is_match@[mv] == (if ms.contains(mv) {
                            ka@
                        } else {
                            lk0[mv]
                        }));
                        assert(ms.contains(mv) == (cl0[kb@].contains(mv) || mv == kb@)) by {
                            if ms.contains(mv) {
                                let t = choose|t: int| 0 <= t < ms.len() && ms[t] == mv;
                                if t < ms.len() - 1 {
                                    assert(cl0[kb@][t] == mv);
                                }
                            }
                            if cl0[kb@].contains(mv) {
                                let t = choose|t: int|
                                    0 <= t < cl0[kb@].len() && cl0[kb@][t] == mv;
                                assert(ms[t] == mv);
                            }
                            if mv == kb@ {
                                assert(ms[ms.len() - 1] == mv);
                            }
                        }
                    }
                    lemma_update_case_merge(
                        lk0,
                        cl0,
                        where_is_match@,
                        matches_hash@,
                        av,
                        bv,
                        ka@,
                        kb@,
                        ms,
                    );
                }
            } else {
                proof {
                    assert(where_is_match@.dom() =~= lk0.dom().insert(av).insert(bv));
                    let ca = cluster_of(lk0, cl0, av);
                    let cb = cluster_of(lk0, cl0, bv);
                    assert(ca == cb);
                    assert forall|m: MatchV|
                        #![trigger cluster_of(lk0, cl0, m)]
                        cluster_of(lk0, cl0, m) == (if ca.contains(m) || cb.contains(m) {
                            ca.union(cb)
                        } else {
                            cluster_of(lk0, cl0, m)
                        }) by {
                        if ca.contains(m) || cb.contains(m) {
                            lemma_cluster_of_member(lk0, cl0, av, m);
                            assert(cluster_of(lk0, cl0, m) =~= ca.union(cb));
                        }
                    }
                }
            }
        },
        (Some(refblock), None) => {
            proof {
                assert(cl0.contains_key(lk0[av]));
            }
            matches_hash.push_member(&refblock, b.clone());
            where_is_match.set_key(b, refblock);
            proof {
                lemma_update_case_join(lk0, cl0, where_is_match@, matches_hash@, av, bv, lk0[av]);
            }
        },
        (None, Some(refblock)) => {
            proof {
                assert(cl0.contains_key(lk0[bv]));
            }
            matches_hash.push_member(&refblock, a.clone());
            where_is_match.set_key(a, refblock);
            proof {
                lemma_update_case_join(lk0, cl0, where_is_match@, matches_hash@, bv, av, lk0[bv]);
                assert(cluster_of(lk0, cl0, av).union(cluster_of(lk0, cl0, bv)) =~= cluster_of(
                    lk0,
                    cl0,
                    bv,
                ).union(cluster_of(lk0, cl0, av)));
                assert(lk0.dom().insert(bv).insert(av) =~= lk0.dom().insert(av).insert(bv));
            }
        },
        (None, None) => {
            proof {
                assert(!cl0.contains_key(bv));
            }
            let mut v: Vec<Match> = Vec::new();
            v.push(a.clone());
            let ghost v_v = v@;
            matches_hash.insert_new(b.clone(), v);
            where_is_match.set_key(a, b.clone());
            where_is_match.set_key(b.clone(), b);
            proof {
                assert(members_view(v_v) =~= seq![av]);
                assert(matches_hash@ =~= cl0.insert(bv, seq![av]));
                assert(where_is_match@ =~= lk0.insert(av, bv).insert(bv, bv));
                lemma_update_case_new(lk0, cl0, where_is_match@, matches_hash@, av, bv);
            }
        },
    }
}

} // verus!
