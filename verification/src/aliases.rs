//! The pool of topic aliases that the broker gives out on one connection.

use crate::slots::{slab_insert, slab_new, slab_next_key, slab_occupied, slab_remove, slab_vacant};
use slab::Slab;
use vstd::hash_map::StringHashMap;
use vstd::prelude::*;
use vstd::relations::injective_on;
use vstd::set_lib::{lemma_int_range, lemma_len_subset, lemma_map_size, set_int_range};

verus! {

/// A pool of aliases as plain values.
pub struct AliasTable {
    /// The alias of each topic that has one.
    pub aliases: Map<Seq<char>, u16>,
    /// The slots in use. Slot 0 is always among them: it stands for "no
    /// alias" and is never given out.
    pub occupied: Set<int>,
    /// The slots that were given back and not given out again, in the
    /// order in which they will be given out: the one given back last
    /// comes first.
    pub vacant: Seq<int>,
    /// The largest alias that may be given out.
    pub max: u16,
}

impl AliasTable {
    /// The pool before any alias is given out.
    pub open spec fn fresh(max: u16) -> AliasTable {
        AliasTable { aliases: Map::empty(), occupied: set![0int], vacant: Seq::empty(), max }
    }

    /// What holds of the slots of every pool: the slots in use lie in
    /// `0..=max` and slot 0 is one of them; the vacant slots lie in
    /// `1..=max`, none twice and none in use; and the slots in use and the
    /// vacant ones together are `0..n` for some `n`.
    pub open spec fn slots_wf(self) -> bool {
        &&& self.occupied.finite()
        &&& self.occupied.contains(0)
        &&& forall|s: int| self.occupied.contains(s) ==> 0 <= s <= self.max
        &&& self.vacant.no_duplicates()
        &&& forall|i: int|
            0 <= i < self.vacant.len() ==> 1 <= #[trigger] self.vacant[i] <= self.max
                && !self.occupied.contains(self.vacant[i])
        &&& self.occupied.union(self.vacant.to_set()) == set_int_range(
            0,
            (self.occupied.len() + self.vacant.len()) as int,
        )
    }

    /// Whether every slot in use but slot 0 is the alias of some topic.
    pub open spec fn exact(self) -> bool {
        forall|s: int|
            self.occupied.contains(s) && s != 0 ==> exists|t: Seq<char>| #[trigger]
                self.aliases.contains_key(t) && self.aliases[t] == s
    }

    /// What holds of the aliases of every pool: every alias is a slot in
    /// use other than 0, no two topics have the same alias, and every slot
    /// in use but slot 0 is the alias of some topic. So the topics that
    /// have an alias and the slots in use but slot 0 go one to one.
    pub open spec fn aliases_wf(self) -> bool {
        &&& self.aliases.dom().finite()
        &&& forall|t: Seq<char>| #[trigger]
            self.aliases.contains_key(t) ==> self.aliases[t] >= 1 && self.occupied.contains(
                self.aliases[t] as int,
            )
        &&& forall|t: Seq<char>, u: Seq<char>|
            self.aliases.contains_key(t) && self.aliases.contains_key(u) && t != u
                ==> self.aliases[t] != self.aliases[u]
        &&& self.exact()
    }

    /// What holds of every pool.
    pub open spec fn wf(self) -> bool {
        self.slots_wf() && self.aliases_wf()
    }

    /// The slot that the next alias would take: the vacant slot given back
    /// last, or, where none is vacant, the one after the last slot in use.
    pub open spec fn next_slot(self) -> int {
        if self.vacant.len() > 0 {
            self.vacant[0]
        } else {
            self.occupied.len() as int
        }
    }

    /// The alias of a topic, if it has one.
    pub open spec fn get_alias(self, topic: Seq<char>) -> Option<u16> {
        if self.aliases.contains_key(topic) {
            Some(self.aliases[topic])
        } else {
            None
        }
    }

    /// The alias that a topic would get now: the next slot, unless that
    /// lies beyond `max`.
    pub open spec fn new_alias(self) -> Option<u16> {
        if self.next_slot() > self.max {
            None
        } else {
            Some(self.next_slot() as u16)
        }
    }

    /// The pool with its next slot taken into use.
    pub open spec fn take(self) -> AliasTable {
        AliasTable {
            occupied: self.occupied.insert(self.next_slot()),
            vacant: if self.vacant.len() > 0 {
                self.vacant.drop_first()
            } else {
                self.vacant
            },
            ..self
        }
    }

    /// The pool with a slot given back: it is vacant, and the first to be
    /// given out again.
    pub open spec fn release(self, slot: int) -> AliasTable {
        AliasTable {
            occupied: self.occupied.remove(slot),
            vacant: seq![slot] + self.vacant,
            ..self
        }
    }

    /// The pool after a topic asked for a new alias. Where none is to be
    /// had, nothing changes. Else the next slot is taken into use and is
    /// the topic's alias; and where the topic had an alias before, that
    /// slot is given back.
    pub open spec fn set_new_alias(self, topic: Seq<char>) -> AliasTable {
        if self.next_slot() > self.max {
            self
        } else {
            let slots = if self.aliases.contains_key(topic) {
                self.take().release(self.aliases[topic] as int)
            } else {
                self.take()
            };
            AliasTable { aliases: self.aliases.insert(topic, self.next_slot() as u16), ..slots }
        }
    }

    /// The pool after a topic gave up its alias. Where it had none,
    /// nothing changes. Else its slot is given back.
    pub open spec fn remove_alias(self, topic: Seq<char>) -> AliasTable {
        if self.aliases.contains_key(topic) {
            AliasTable {
                aliases: self.aliases.remove(topic),
                ..self.release(self.aliases[topic] as int)
            }
        } else {
            self
        }
    }

    /// A pool before any alias is given out is as every pool must be.
    pub proof fn lemma_fresh_wf(max: u16)
        ensures
            Self::fresh(max).wf(),
    {
        let t = Self::fresh(max);
        assert(t.vacant.to_set() =~= Set::<int>::empty());
        assert(t.occupied.union(t.vacant.to_set()) =~= set_int_range(0, 1));
    }

    /// The next slot is not in use, and is never slot 0. It lies within
    /// `max` exactly where at most `max` slots, slot 0 among them, are in
    /// use: one more alias can then be given out.
    pub proof fn lemma_next_slot(self)
        requires
            self.slots_wf(),
        ensures
            1 <= self.next_slot() <= self.max + 1,
            !self.occupied.contains(self.next_slot()),
            self.next_slot() <= self.max <==> self.occupied.len() <= self.max,
            self.occupied.len() + self.vacant.len() <= self.max + 1,
    {
        let n = self.occupied.len() + self.vacant.len();
        let all = self.occupied.union(self.vacant.to_set());
        lemma_int_range(0, n as int);
        lemma_int_range(0, self.max + 1);
        assert(all.subset_of(set_int_range(0, self.max + 1))) by {
            assert forall|k: int| all.contains(k) implies set_int_range(0, self.max + 1).contains(
                k,
            ) by {
                if !self.occupied.contains(k) {
                    let i = choose|i: int| 0 <= i < self.vacant.len() && self.vacant[i] == k;
                    assert(1 <= self.vacant[i] <= self.max);
                }
            }
        }
        lemma_len_subset(all, set_int_range(0, self.max + 1));
        assert(self.occupied.len() >= 1) by {
            if self.occupied.len() == 0 {
                assert(self.occupied =~= Set::empty());
            }
        }
        if self.vacant.len() > 0 {
            let v = self.vacant[0];
            assert(self.vacant.to_set().contains(v));
            assert(self.occupied.len() <= self.max) by {
                let rest = set_int_range(0, self.max + 1).remove(v);
                assert(self.occupied.subset_of(rest));
                lemma_len_subset(self.occupied, rest);
            }
        } else {
            let k = self.occupied.len() as int;
            assert(!all.contains(k));
        }
    }

    /// Taking the next slot into use, where it lies within `max`, leaves
    /// the slots as they must be.
    pub proof fn lemma_take(self)
        requires
            self.slots_wf(),
            self.next_slot() <= self.max,
        ensures
            self.take().slots_wf(),
    {
        self.lemma_next_slot();
        let slot = self.next_slot();
        let after = self.take();
        let n = (self.occupied.len() + self.vacant.len()) as int;
        let all = self.occupied.union(self.vacant.to_set());
        if self.vacant.len() > 0 {
            assert forall|i: int| 0 <= i < after.vacant.len() implies 1
                <= #[trigger] after.vacant[i] <= after.max && !after.occupied.contains(
                after.vacant[i],
            ) by {
                assert(after.vacant[i] == self.vacant[i + 1]);
            }
            assert(after.occupied.union(after.vacant.to_set()) =~= all) by {
                assert forall|k: int| after.vacant.to_set().contains(k) implies all.contains(
                    k,
                ) by {
                    let i = choose|i: int| 0 <= i < after.vacant.len() && after.vacant[i] == k;
                    assert(self.vacant[i + 1] == k);
                }
                assert forall|k: int| self.vacant.to_set().contains(k) implies after.occupied.union(
                    after.vacant.to_set(),
                ).contains(k) by {
                    let i = choose|i: int| 0 <= i < self.vacant.len() && self.vacant[i] == k;
                    if i > 0 {
                        assert(after.vacant[i - 1] == k);
                    }
                }
            }
        } else {
            assert(after.occupied.union(after.vacant.to_set()) =~= all.insert(slot));
            assert(all.insert(slot) =~= set_int_range(0, n + 1));
        }
    }

    /// Giving back a slot that is in use, other than slot 0, leaves the
    /// slots as they must be.
    pub proof fn lemma_release(self, slot: int)
        requires
            self.slots_wf(),
            self.occupied.contains(slot),
            slot != 0,
        ensures
            self.release(slot).slots_wf(),
    {
        let after = self.release(slot);
        let all = self.occupied.union(self.vacant.to_set());
        assert(after.vacant.no_duplicates()) by {
            assert forall|i: int, j: int|
                0 <= i < after.vacant.len() && 0 <= j < after.vacant.len() && i != j implies after.vacant[i]
                != after.vacant[j] by {
                if i > 0 {
                    assert(after.vacant[i] == self.vacant[i - 1]);
                }
                if j > 0 {
                    assert(after.vacant[j] == self.vacant[j - 1]);
                }
            }
        }
        assert forall|i: int| 0 <= i < after.vacant.len() implies 1
            <= #[trigger] after.vacant[i] <= after.max && !after.occupied.contains(
            after.vacant[i],
        ) by {
            if i > 0 {
                assert(after.vacant[i] == self.vacant[i - 1]);
            }
        }
        assert(after.occupied.union(after.vacant.to_set()) =~= all) by {
            assert(after.vacant[0] == slot);
            assert forall|k: int| after.vacant.to_set().contains(k) implies all.contains(k) by {
                let i = choose|i: int| 0 <= i < after.vacant.len() && after.vacant[i] == k;
                if i > 0 {
                    assert(self.vacant[i - 1] == k);
                }
            }
            assert forall|k: int| self.vacant.to_set().contains(k) implies after.vacant.to_set().contains(
                k,
            ) by {
                let i = choose|i: int| 0 <= i < self.vacant.len() && self.vacant[i] == k;
                assert(after.vacant[i + 1] == k);
            }
        }
    }

    /// Asking for a new alias leaves a pool as every pool must be.
    pub proof fn lemma_set_new_alias_wf(self, topic: Seq<char>)
        requires
            self.wf(),
        ensures
            self.set_new_alias(topic).wf(),
    {
        self.lemma_next_slot();
        let slot = self.next_slot();
        if slot <= self.max {
            let after = self.set_new_alias(topic);
            self.lemma_take();
            if self.aliases.contains_key(topic) {
                self.take().lemma_release(self.aliases[topic] as int);
            }
            assert(after.aliases.contains_key(topic));
            assert forall|s: int| after.occupied.contains(s) && s != 0 implies exists|
                t: Seq<char>,
            | #[trigger]
                after.aliases.contains_key(t) && after.aliases[t] == s by {
                if s != slot {
                    let t = choose|t: Seq<char>| #[trigger]
                        self.aliases.contains_key(t) && self.aliases[t] == s;
                    assert(after.aliases.contains_key(t));
                }
            }
        }
    }

    /// Giving up an alias leaves a pool as every pool must be.
    pub proof fn lemma_remove_alias_wf(self, topic: Seq<char>)
        requires
            self.wf(),
        ensures
            self.remove_alias(topic).wf(),
    {
        if self.aliases.contains_key(topic) {
            let after = self.remove_alias(topic);
            self.lemma_release(self.aliases[topic] as int);
            assert forall|s: int| after.occupied.contains(s) && s != 0 implies exists|
                t: Seq<char>,
            | #[trigger]
                after.aliases.contains_key(t) && after.aliases[t] == s by {
                let t = choose|t: Seq<char>| #[trigger]
                    self.aliases.contains_key(t) && self.aliases[t] == s;
                assert(after.aliases.contains_key(t));
            }
        }
    }

    /// The slots in use but slot 0 are as many as the topics that have an
    /// alias. So a new alias is to be had exactly while fewer than `max`
    /// topics have one.
    pub proof fn lemma_one_slot_per_topic(self)
        requires
            self.wf(),
        ensures
            self.occupied.len() == self.aliases.dom().len() + 1,
            self.new_alias() is Some <==> self.aliases.dom().len() < self.max,
    {
        self.lemma_next_slot();
        let alias_of = |t: Seq<char>| self.aliases[t] as int;
        let given = self.occupied.remove(0);
        assert(self.aliases.dom().map(alias_of) =~= given) by {
            assert forall|s: int| given.contains(s) implies self.aliases.dom().map(
                alias_of,
            ).contains(s) by {
                let t = choose|t: Seq<char>| #[trigger]
                    self.aliases.contains_key(t) && self.aliases[t] == s;
                assert(self.aliases.dom().contains(t) && alias_of(t) == s);
            }
        }
        assert(injective_on(alias_of, self.aliases.dom()));
        lemma_map_size(self.aliases.dom(), given, alias_of);
    }

    /// The pool after each of `topics` in turn asked for a new alias.
    pub open spec fn set_new_aliases(self, topics: Seq<Seq<char>>) -> AliasTable
        decreases topics.len(),
    {
        if topics.len() == 0 {
            self
        } else {
            self.set_new_aliases(topics.drop_last()).set_new_alias(topics.last())
        }
    }

    /// While a pool before any alias is given out is asked for no more
    /// aliases than it has, for topics that differ, it gives them out in
    /// order, from 1 on, and no slot falls vacant.
    pub proof fn lemma_fresh_pool_counts_up(max: u16, topics: Seq<Seq<char>>, n: int)
        requires
            topics.no_duplicates(),
            0 <= n <= topics.len(),
            n <= max,
        ensures
            Self::fresh(max).set_new_aliases(topics.take(n)).occupied == set_int_range(0, n + 1),
            Self::fresh(max).set_new_aliases(topics.take(n)).vacant.len() == 0,
            Self::fresh(max).set_new_aliases(topics.take(n)).max == max,
            forall|t: Seq<char>|
                Self::fresh(max).set_new_aliases(topics.take(n)).aliases.contains_key(t)
                    <==> topics.take(n).contains(t),
            forall|i: int|
                0 <= i < n ==> #[trigger] Self::fresh(max).set_new_aliases(
                    topics.take(n),
                ).aliases[topics[i]] == i + 1,
        decreases n,
    {
        let start = Self::fresh(max);
        if n == 0 {
            assert(start.occupied =~= set_int_range(0, 1));
        } else {
            let before = start.set_new_aliases(topics.take(n - 1));
            let after = start.set_new_aliases(topics.take(n));
            Self::lemma_fresh_pool_counts_up(max, topics, n - 1);
            assert(topics.take(n).drop_last() =~= topics.take(n - 1));
            assert(topics.take(n).last() == topics[n - 1]);
            lemma_int_range(0, n);
            assert(before.next_slot() == n);
            assert(!before.aliases.contains_key(topics[n - 1])) by {
                let earlier = topics.take(n - 1);
                if earlier.contains(topics[n - 1]) {
                    let i = choose|i: int| 0 <= i < earlier.len() && earlier[i] == topics[n - 1];
                    assert(topics[i] == topics[n - 1]);
                }
            }
            assert(after == before.set_new_alias(topics[n - 1]));
            assert(after.occupied =~= set_int_range(0, n + 1));
            let prev = topics.take(n - 1);
            let cur = topics.take(n);
            assert forall|t: Seq<char>| after.aliases.contains_key(t) <==> cur.contains(t) by {
                if cur.contains(t) {
                    let i = choose|i: int| 0 <= i < cur.len() && cur[i] == t;
                    if i < n - 1 {
                        assert(prev[i] == t);
                    }
                }
                if prev.contains(t) {
                    let i = choose|i: int| 0 <= i < prev.len() && prev[i] == t;
                    assert(cur[i] == t);
                }
                if t == topics[n - 1] {
                    assert(cur[n - 1] == t);
                }
            }
            assert forall|i: int| 0 <= i < n implies #[trigger] after.aliases[topics[i]] == i
                + 1 by {
                if i < n - 1 {
                    assert(topics[i] != topics[n - 1]);
                    assert(before.aliases[topics[i]] == i + 1);
                }
            }
        }
    }

    /// A pool before any alias is given out, asked `max + 1` times for a
    /// new alias, each time for another topic, gives out the aliases 1 to
    /// `max`, in this order. The last time it gives none, and is left as
    /// it was before that: slot 0 and `max` others are in use.
    pub proof fn lemma_fresh_pool_exhausts(max: u16, topics: Seq<Seq<char>>)
        requires
            topics.no_duplicates(),
            topics.len() == max + 1,
        ensures
            forall|i: int|
                0 <= i < max ==> #[trigger] Self::fresh(max).set_new_aliases(
                    topics.take(i),
                ).new_alias() == Some((i + 1) as u16),
            Self::fresh(max).set_new_aliases(topics.take(max as int)).new_alias() is None,
            Self::fresh(max).set_new_aliases(topics) == Self::fresh(max).set_new_aliases(
                topics.take(max as int),
            ),
            Self::fresh(max).set_new_aliases(topics).occupied == set_int_range(0, max + 1),
            forall|i: int|
                0 <= i < max ==> #[trigger] Self::fresh(max).set_new_aliases(
                    topics,
                ).aliases[topics[i]] == i + 1,
    {
        let start = Self::fresh(max);
        assert forall|i: int| 0 <= i < max implies #[trigger] start.set_new_aliases(
            topics.take(i),
        ).new_alias() == Some((i + 1) as u16) by {
            Self::lemma_fresh_pool_counts_up(max, topics, i);
            lemma_int_range(0, i + 1);
        }
        Self::lemma_fresh_pool_counts_up(max, topics, max as int);
        lemma_int_range(0, max + 1);
        assert(topics.drop_last() =~= topics.take(max as int));
    }

    /// An alias that was given up is the next to be given out, whichever
    /// topic asks. Where no other slot was vacant, it is the lowest slot
    /// that is not in use.
    pub proof fn lemma_alias_reused(self, given_up: Seq<char>, topic: Seq<char>)
        requires
            self.wf(),
            self.aliases.contains_key(given_up),
        ensures
            self.remove_alias(given_up).new_alias() == Some(self.aliases[given_up]),
            self.remove_alias(given_up).set_new_alias(topic).aliases[topic]
                == self.aliases[given_up],
            self.vacant.len() == 0 ==> forall|s: int|
                0 <= s < self.aliases[given_up] ==> self.remove_alias(given_up).occupied.contains(
                    s,
                ),
    {
        let slot = self.aliases[given_up] as int;
        let after = self.remove_alias(given_up);
        assert(after.vacant[0] == slot);
        if self.vacant.len() == 0 {
            assert(self.vacant.to_set() =~= Set::<int>::empty());
            assert forall|s: int| 0 <= s < slot implies after.occupied.contains(s) by {
                self.lemma_next_slot();
                lemma_int_range(0, self.occupied.len() as int);
                assert(self.occupied.union(self.vacant.to_set()) =~= self.occupied);
                assert(self.occupied.contains(slot));
                assert(set_int_range(0, self.occupied.len() as int).contains(slot));
                assert(set_int_range(0, self.occupied.len() as int).contains(s));
            }
        }
    }
}

/// The vacant slots that an alias can take: all of them but a slot beyond
/// `max`, which the slab may hold at the end of its stack.
spec fn within(vacant: Seq<int>, max: u16) -> Seq<int> {
    if vacant.len() > 0 && vacant.last() == max + 1 {
        vacant.drop_last()
    } else {
        vacant
    }
}

/// The aliases that the broker gives out for the topics of one connection:
/// small numbers that stand for a topic on the wire.
pub struct BrokerAliases {
    pub(crate) broker_topic_aliases: StringHashMap<u16>,
    pub(crate) used_aliases: Slab<()>,
    pub(crate) topic_alias_max: u16,
}

impl View for BrokerAliases {
    type V = AliasTable;

    closed spec fn view(&self) -> AliasTable {
        AliasTable {
            aliases: self.broker_topic_aliases@,
            occupied: slab_occupied(self.used_aliases),
            vacant: within(slab_vacant(self.used_aliases), self.topic_alias_max),
            max: self.topic_alias_max,
        }
    }
}

impl BrokerAliases {
    /// What every pool made and changed by the functions below keeps to:
    /// its slab and its map of aliases agree, as `AliasTable::wf` says.
    pub closed spec fn wf(&self) -> bool {
        &&& self@.wf()
        &&& slab_vacant(self.used_aliases) != self@.vacant ==> self@.occupied.len()
            + self@.vacant.len() == self.topic_alias_max + 1
    }

    /// A pool that gives out the aliases `1..=topic_alias_max`.
    pub fn new(topic_alias_max: u16) -> (r: BrokerAliases)
        ensures
            r.wf(),
            r@ == AliasTable::fresh(topic_alias_max),
    {
        let mut used_aliases = slab_new();
        // slot 0 is taken for good: 0 is no alias
        let reserved = slab_insert(&mut used_aliases);
        assert(reserved == 0);
        let broker_topic_aliases = StringHashMap::new();
        proof {
            AliasTable::lemma_fresh_wf(topic_alias_max);
            assert(slab_occupied(used_aliases) =~= set![0int]);
        }
        BrokerAliases { broker_topic_aliases, used_aliases, topic_alias_max }
    }

    /// A pool that keeps to `wf` is, as plain values, as every pool must
    /// be.
    pub proof fn lemma_wf(&self)
        requires
            self.wf(),
        ensures
            self@.wf(),
    {
    }

    /// The alias of a topic, if it has one.
    pub fn get_alias(&self, topic: &str) -> (r: Option<u16>)
        ensures
            r == self@.get_alias(topic@),
    {
        match self.broker_topic_aliases.get(topic) {
            Some(alias) => Some(*alias),
            None => None,
        }
    }

    /// Takes a topic's alias away, if it has one. The slot is then the
    /// first to be given out again.
    pub fn remove_alias(&mut self, topic: &str)
        requires
            old(self).wf(),
        ensures
            final(self).wf(),
            final(self)@ == old(self)@.remove_alias(topic@),
    {
        let ghost before = self@;
        let ghost vacant = slab_vacant(self.used_aliases);
        proof {
            before.lemma_remove_alias_wf(topic@);
        }
        let found = match self.broker_topic_aliases.get(topic) {
            Some(alias) => Some(*alias),
            None => None,
        };
        if let Some(alias) = found {
            self.broker_topic_aliases.remove(topic);
            slab_remove(&mut self.used_aliases, alias as usize);
            proof {
                let released = seq![alias as int] + vacant;
                assert(released.len() == vacant.len() + 1);
                assert(released.last() == if vacant.len() > 0 {
                    vacant.last()
                } else {
                    alias as int
                });
                assert(within(released, before.max) =~= seq![alias as int] + before.vacant);
                assert(self@ == before.remove_alias(topic@));
                assert(released != self@.vacant ==> vacant != before.vacant) by {
                    if vacant == before.vacant {
                        assert(released =~= self@.vacant);
                    }
                }
            }
        }
    }

    /// Gives a topic a new alias and returns it; `None` where every alias
    /// up to the largest is taken. Then nothing has changed. An alias that
    /// the topic had before is given back.
    pub fn set_new_alias(&mut self, topic: &str) -> (r: Option<u16>)
        requires
            old(self).wf(),
        ensures
            final(self).wf(),
            r == old(self)@.new_alias(),
            final(self)@ == old(self)@.set_new_alias(topic@),
    {
        let ghost before = self@;
        let ghost vacant = slab_vacant(self.used_aliases);
        let ghost max = self.topic_alias_max as int;
        proof {
            before.lemma_next_slot();
            before.lemma_set_new_alias_wf(topic@);
            if vacant != before.vacant {
                assert(vacant =~= before.vacant.push(max + 1));
                if before.vacant.len() > 0 {
                    assert(vacant[0] == before.vacant[0]);
                }
            }
            assert(slab_next_key(self.used_aliases) == before.next_slot());
        }
        let alias_to_use = slab_insert(&mut self.used_aliases);
        if alias_to_use > self.topic_alias_max as usize {
            slab_remove(&mut self.used_aliases, alias_to_use);
            proof {
                let after = slab_vacant(self.used_aliases);
                assert(alias_to_use == max + 1);
                assert(slab_occupied(self.used_aliases) =~= before.occupied);
                assert(before.vacant.len() == 0) by {
                    if before.vacant.len() > 0 {
                        assert(before.vacant[0] <= max);
                    }
                }
                assert(after =~= seq![max + 1]);
                assert(within(after, before.max) =~= before.vacant);
                assert(self@ == before);
            }
            return None;
        }
        let ghost taken = slab_vacant(self.used_aliases);
        proof {
            before.lemma_take();
            if vacant.len() > 0 {
                if vacant != before.vacant {
                    assert(before.vacant.len() > 0) by {
                        if before.vacant.len() == 0 {
                            assert(vacant[0] == max + 1);
                        }
                    }
                    assert(taken.last() == max + 1);
                } else if taken.len() > 0 {
                    assert(taken.last() == before.vacant[before.vacant.len() - 1]);
                }
                assert(within(taken, before.max) =~= before.vacant.drop_first());
            } else {
                assert(within(taken, before.max) =~= before.vacant);
            }
            assert(within(taken, before.max) == before.take().vacant);
            assert(taken != before.take().vacant ==> vacant != before.vacant) by {
                if vacant == before.vacant && taken.len() > 0 {
                    assert(taken.last() == before.vacant[before.vacant.len() - 1]);
                }
            }
        }
        let alias_to_use = alias_to_use as u16;
        let replaced = match self.broker_topic_aliases.get(topic) {
            Some(alias) => Some(*alias),
            None => None,
        };
        self.broker_topic_aliases.insert(topic.to_owned(), alias_to_use);
        if let Some(alias) = replaced {
            // the topic's alias until now is given back
            slab_remove(&mut self.used_aliases, alias as usize);
            proof {
                let released = seq![alias as int] + taken;
                assert(released.last() == if taken.len() > 0 {
                    taken.last()
                } else {
                    alias as int
                });
                assert(within(released, before.max) =~= seq![alias as int] + before.take().vacant);
                assert(released != self@.vacant ==> taken != before.take().vacant) by {
                    if taken == before.take().vacant {
                        assert(released =~= self@.vacant);
                    }
                }
            }
        }
        assert(self@ == before.set_new_alias(topic@));
        Some(alias_to_use)
    }
}

} // verus!
