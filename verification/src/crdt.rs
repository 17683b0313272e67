//! Conflict-free replicated data types: grow-only counters, PN-counters,
//! last-write-wins maps, observed-remove sets and vector clocks.
//!
//! Every CRDT here is modelled by a mathematical map from node (or element)
//! names to its per-node contribution, and `merge` is proved to compute the
//! pointwise join of the two abstract states.

use vstd::prelude::*;

verus! {

/// Larger of two counters.
pub open spec fn max64(x: u64, y: u64) -> u64 {
    if x >= y {
        x
    } else {
        y
    }
}

/// Abstract state of a string-keyed entry table: the map the entry list denotes.
pub open spec fn entries_map<V>(s: Seq<(String, V)>) -> Map<Seq<char>, V>
    decreases s.len(),
{
    if s.len() == 0 {
        Map::empty()
    } else {
        entries_map(s.drop_last()).insert(s.last().0@, s.last().1)
    }
}

/// No two entries name the same key.
pub open spec fn keys_unique<V>(s: Seq<(String, V)>) -> bool {
    forall|i: int, j: int| 0 <= i < j < s.len() ==> s[i].0@ != s[j].0@
}

/// Abbreviation for the counter instance of the entry-table model.
pub open spec fn counts_map(s: Seq<(String, u64)>) -> Map<Seq<char>, u64> {
    entries_map(s)
}

/// The count a map assigns to a key, with absent keys reading as zero.
pub open spec fn count_of(m: Map<Seq<char>, u64>, k: Seq<char>) -> u64 {
    if m.contains_key(k) {
        m[k]
    } else {
        0
    }
}

/// Pointwise maximum of two counter maps, over the union of their keys.
pub open spec fn join_max(a: Map<Seq<char>, u64>, b: Map<Seq<char>, u64>) -> Map<
    Seq<char>,
    u64,
> {
    Map::new(
        |k: Seq<char>| a.contains_key(k) || b.contains_key(k),
        |k: Seq<char>| max64(count_of(a, k), count_of(b, k)),
    )
}

pub(crate) proof fn lemma_entries_map_domain<V>(s: Seq<(String, V)>)
    ensures
        forall|k: Seq<char>|
            entries_map(s).contains_key(k) <==> exists|i: int| 0 <= i < s.len() && s[i].0@ == k,
        entries_map(s).dom().finite(),
    decreases s.len(),
{
    if s.len() > 0 {
        lemma_entries_map_domain(s.drop_last());
        assert forall|k: Seq<char>| entries_map(s).contains_key(k) implies exists|i: int|
            0 <= i < s.len() && s[i].0@ == k by {
            if s.last().0@ == k {
                assert(s[s.len() - 1].0@ == k);
            } else {
                let i = choose|i: int| 0 <= i < s.len() - 1 && s.drop_last()[i].0@ == k;
                assert(s[i].0@ == k);
            }
        }
        assert forall|k: Seq<char>|
            (exists|i: int| 0 <= i < s.len() && s[i].0@ == k) implies entries_map(
            s,
        ).contains_key(k) by {
            let i = choose|i: int| 0 <= i < s.len() && s[i].0@ == k;
            if i < s.len() - 1 {
                assert(s.drop_last()[i].0@ == k);
            }
        }
    }
}

pub(crate) proof fn lemma_entries_map_index<V>(s: Seq<(String, V)>, i: int)
    requires
        keys_unique(s),
        0 <= i < s.len(),
    ensures
        entries_map(s).contains_key(s[i].0@),
        entries_map(s)[s[i].0@] == s[i].1,
    decreases s.len(),
{
    lemma_entries_map_domain(s);
    if i < s.len() - 1 {
        lemma_entries_map_index(s.drop_last(), i);
        assert(s.drop_last()[i] == s[i]);
        assert(s.last().0@ != s[i].0@);
    }
}

pub(crate) proof fn lemma_entries_map_update<V>(s: Seq<(String, V)>, i: int, p: (String, V))
    requires
        keys_unique(s),
        0 <= i < s.len(),
        p.0@ == s[i].0@,
    ensures
        entries_map(s.update(i, p)) == entries_map(s).insert(p.0@, p.1),
        keys_unique(s.update(i, p)),
    decreases s.len(),
{
    let t = s.update(i, p);
    assert forall|x: int, y: int| 0 <= x < y < t.len() implies t[x].0@ != t[y].0@ by {
        assert(s[x].0@ != s[y].0@);
    }
    if i == s.len() - 1 {
        assert(t.drop_last() =~= s.drop_last());
        assert(entries_map(t) =~= entries_map(s).insert(p.0@, p.1));
    } else {
        lemma_entries_map_update(s.drop_last(), i, p);
        assert(t.drop_last() =~= s.drop_last().update(i, p));
        assert(t.last() == s.last());
        assert(entries_map(t) == entries_map(s.drop_last()).insert(p.0@, p.1).insert(
            s.last().0@,
            s.last().1,
        ));
        assert(s.last().0@ != p.0@);
        assert(entries_map(s.drop_last()).insert(p.0@, p.1).insert(s.last().0@, s.last().1)
            =~= entries_map(s).insert(p.0@, p.1));
    }
}

pub(crate) proof fn lemma_entries_map_push<V>(s: Seq<(String, V)>, p: (String, V))
    requires
        keys_unique(s),
        forall|i: int| 0 <= i < s.len() ==> s[i].0@ != p.0@,
    ensures
        entries_map(s.push(p)) == entries_map(s).insert(p.0@, p.1),
        keys_unique(s.push(p)),
{
    assert(s.push(p).drop_last() =~= s);
    assert(entries_map(s.push(p)) =~= entries_map(s).insert(p.0@, p.1));
}

pub(crate) proof fn lemma_entries_map_remove<V>(s: Seq<(String, V)>, i: int)
    requires
        keys_unique(s),
        0 <= i < s.len(),
    ensures
        entries_map(s.remove(i)) == entries_map(s).remove(s[i].0@),
        keys_unique(s.remove(i)),
    decreases s.len(),
{
    let t = s.remove(i);
    assert forall|x: int, y: int| 0 <= x < y < t.len() implies t[x].0@ != t[y].0@ by {
        let xs: int = if x < i { x } else { x + 1 };
        let ys: int = if y < i { y } else { y + 1 };
        assert(s[xs].0@ != s[ys].0@);
    }
    lemma_entries_map_domain(s);
    lemma_entries_map_domain(t);
    if i == s.len() - 1 {
        assert(t =~= s.drop_last());
        assert(!entries_map(s.drop_last()).contains_key(s[i].0@));
        assert(entries_map(t) =~= entries_map(s).remove(s[i].0@));
    } else {
        lemma_entries_map_remove(s.drop_last(), i);
        assert(t.drop_last() =~= s.drop_last().remove(i));
        assert(t.last() == s.last());
        assert(s.last().0@ != s[i].0@);
        assert(entries_map(t) =~= entries_map(s).remove(s[i].0@));
    }
}

/// Sum of all counts in a finite counter map.
pub open spec fn sum_of(m: Map<Seq<char>, u64>) -> int
    decreases m.dom().len() when m.dom().finite()
{
    if m.dom().finite() && m.dom().len() > 0 {
        let k = m.dom().choose();
        m[k] + sum_of(m.remove(k))
    } else {
        0
    }
}

/// Removing a key takes its count out of the sum.
pub proof fn lemma_sum_remove(m: Map<Seq<char>, u64>, k: Seq<char>)
    requires
        m.dom().finite(),
        m.contains_key(k),
    ensures
        sum_of(m) == m[k] + sum_of(m.remove(k)),
    decreases m.dom().len(),
{
    let k0 = m.dom().choose();
    assert(m.dom().contains(k0));
    if k0 == k {
    } else {
        lemma_sum_remove(m.remove(k0), k);
        lemma_sum_remove(m.remove(k), k0);
        assert(m.remove(k0).remove(k) =~= m.remove(k).remove(k0));
        assert(sum_of(m) == m[k0] + sum_of(m.remove(k0)));
    }
}

/// Inserting a fresh key adds its count to the sum.
pub proof fn lemma_sum_insert(m: Map<Seq<char>, u64>, k: Seq<char>, v: u64)
    requires
        m.dom().finite(),
        !m.contains_key(k),
    ensures
        sum_of(m.insert(k, v)) == sum_of(m) + v,
{
    lemma_sum_remove(m.insert(k, v), k);
    assert(m.insert(k, v).remove(k) =~= m);
}

/// A counter map's sum is never negative.
pub proof fn lemma_sum_nonneg(m: Map<Seq<char>, u64>)
    requires
        m.dom().finite(),
    ensures
        sum_of(m) >= 0,
    decreases m.dom().len(),
{
    if m.dom().len() > 0 {
        let k = m.dom().choose();
        assert(m.dom().contains(k));
        lemma_sum_nonneg(m.remove(k));
    }
}

/// Look up the position of `key` in an entry list.
pub(crate) fn find_key<V>(entries: &Vec<(String, V)>, key: &String) -> (r: Option<usize>)
    ensures
        match r {
            Some(i) => i < entries@.len() && entries@[i as int].0@ == key@,
            None => forall|j: int| 0 <= j < entries@.len() ==> entries@[j].0@ != key@,
        },
{
    let n = entries.len();
    let mut i: usize = 0;
    while i < n
        invariant
            n == entries@.len(),
            i <= n,
            forall|j: int| 0 <= j < i ==> entries@[j].0@ != key@,
        decreases n - i,
    {
        if entries[i].0 == *key {
            return Some(i);
        }
        i = i + 1;
    }
    None
}

/// Grow-only counter: one non-negative count per node, merged by pointwise
/// maximum; its value is the sum over all nodes.
pub struct GCounter {
    counts: Vec<(String, u64)>,
    node_id: String,
}

impl View for GCounter {
    type V = Map<Seq<char>, u64>;

    closed spec fn view(&self) -> Map<Seq<char>, u64> {
        counts_map(self.counts@)
    }
}

impl GCounter {
    /// Entry keys are unique, so the entry list denotes its map faithfully.
    pub closed spec fn wf(self) -> bool {
        keys_unique(self.counts@)
    }

    /// Name of the replica that owns the local slot.
    pub closed spec fn spec_node_id(self) -> Seq<char> {
        self.node_id@
    }

    /// The view of a well-formed counter has finitely many keys.
    pub proof fn lemma_view_finite(self)
        ensures
            self@.dom().finite(),
    {
        lemma_entries_map_domain(self.counts@);
    }

    pub fn new(node_id: String) -> (r: GCounter)
        ensures
            r.wf(),
            r@ == Map::<Seq<char>, u64>::empty(),
            r.spec_node_id() == node_id@,
    {
        GCounter { counts: Vec::new(), node_id }
    }

    /// Raise this node's own count by one.
    pub fn increment(&mut self)
        requires
            old(self).wf(),
            count_of(old(self)@, old(self).spec_node_id()) < u64::MAX,
        ensures
            final(self).wf(),
            final(self).spec_node_id() == old(self).spec_node_id(),
            final(self)@ == old(self)@.insert(
                old(self).spec_node_id(),
                (count_of(old(self)@, old(self).spec_node_id()) + 1) as u64,
            ),
    {
        let key = self.node_id.clone();
        match find_key(&self.counts, &key) {
            Some(i) => {
                proof {
                    lemma_entries_map_index(self.counts@, i as int);
                }
                let v = self.counts[i].1;
                let ghost s = self.counts@;
                self.counts[i] = (key, v + 1);
                proof {
                    lemma_entries_map_update(s, i as int, (self.counts@[i as int].0, (v + 1) as u64));
                }
            },
            None => {
                proof {
                    lemma_entries_map_domain(self.counts@);
                    lemma_entries_map_push(self.counts@, (self.node_id, 1u64));
                }
                self.counts.push((key, 1));
            },
        }
    }

    /// Total of the counter: the sum of every node's count.
    pub fn value(&self) -> (r: u64)
        requires
            self.wf(),
            sum_of(self@) <= u64::MAX,
        ensures
            r == sum_of(self@),
    {
        proof {
            self.lemma_view_finite();
        }
        let n = self.counts.len();
        let mut acc: u64 = 0;
        let mut i: usize = 0;
        proof {
            assert(self.counts@.take(0) =~= Seq::<(String, u64)>::empty());
        }
        while i < n
        invariant
            self.wf(),
            sum_of(self@) <= u64::MAX,
            self@ == counts_map(self.counts@),
            n == self.counts@.len(),
            i <= n,
            acc == sum_of(counts_map(self.counts@.take(i as int))),
            decreases n - i,
        {
            proof {
                let pre = self.counts@.take(i as int);
                let post = self.counts@.take(i + 1);
                assert(post.drop_last() =~= pre);
                assert forall|x: int, y: int| 0 <= x < y < post.len() implies post[x].0@
                    != post[y].0@ by {
                    assert(self.counts@[x].0@ != self.counts@[y].0@);
                }
                lemma_entries_map_domain(pre);
                assert(!counts_map(pre).contains_key(post.last().0@)) by {
                    if counts_map(pre).contains_key(post.last().0@) {
                        let j = choose|j: int|
                            0 <= j < pre.len() && pre[j].0@ == post.last().0@;
                        assert(self.counts@[j].0@ == self.counts@[i as int].0@);
                    }
                }
                lemma_sum_insert(counts_map(pre), post.last().0@, post.last().1);
                assert(counts_map(post) == counts_map(pre).insert(post.last().0@, post.last().1));
                // the running total never exceeds the full sum
                lemma_sum_suffix_bound(self.counts@, i + 1);
                assert(self.counts@.take(n as int) =~= self.counts@);
            }
            acc = acc + self.counts[i].1;
            i = i + 1;
        }
        proof {
            assert(self.counts@.take(n as int) =~= self.counts@);
        }
        acc
    }

    /// Merge with another counter: keep the larger count for every node.
    pub fn merge(&mut self, other: &GCounter)
        requires
            old(self).wf(),
            other.wf(),
        ensures
            final(self).wf(),
            final(self).spec_node_id() == old(self).spec_node_id(),
            final(self)@ == join_max(old(self)@, other@),
    {
        let ghost a = old(self)@;
        let n = other.counts.len();
        let mut i: usize = 0;
        proof {
            assert(other.counts@.take(0) =~= Seq::<(String, u64)>::empty());
            lemma_entries_map_domain(other.counts@.take(0));
            assert(self@ =~= join_max(a, counts_map(other.counts@.take(0))));
        }
        while i < n
            invariant
                other.wf(),
                n == other.counts@.len(),
                i <= n,
                self.wf(),
                self.spec_node_id() == old(self).spec_node_id(),
                self@ == join_max(a, counts_map(other.counts@.take(i as int))),
            decreases n - i,
        {
            let ghost pre = other.counts@.take(i as int);
            let ghost post = other.counts@.take(i + 1);
            proof {
                assert(post.drop_last() =~= pre);
                assert forall|x: int, y: int| 0 <= x < y < post.len() implies post[x].0@
                    != post[y].0@ by {
                    assert(other.counts@[x].0@ != other.counts@[y].0@);
                }
                lemma_entries_map_domain(pre);
                assert(!counts_map(pre).contains_key(post.last().0@)) by {
                    if counts_map(pre).contains_key(post.last().0@) {
                        let j = choose|j: int|
                            0 <= j < pre.len() && pre[j].0@ == post.last().0@;
                        assert(other.counts@[j].0@ == other.counts@[i as int].0@);
                    }
                }
                assert(counts_map(post) == counts_map(pre).insert(post.last().0@, post.last().1));
            }
            let key = other.counts[i].0.clone();
            let v = other.counts[i].1;
            match find_key(&self.counts, &key) {
                Some(j) => {
                    proof {
                        lemma_entries_map_index(self.counts@, j as int);
                    }
                    let cur = self.counts[j].1;
                    let nv = if cur >= v {
                        cur
                    } else {
                        v
                    };
                    let ghost s = self.counts@;
                    self.counts[j] = (key, nv);
                    proof {
                        lemma_entries_map_update(s, j as int, (self.counts@[j as int].0, nv));
                        assert(self@ =~= join_max(a, counts_map(post)));
                    }
                },
                None => {
                    proof {
                        lemma_entries_map_domain(self.counts@);
                        lemma_entries_map_push(self.counts@, (key, v));
                        assert(!self@.contains_key(key@));
                        assert(!a.contains_key(key@)) by {
                            if a.contains_key(key@) {
                                assert(join_max(a, counts_map(pre)).contains_key(key@));
                            }
                        }
                    }
                    self.counts.push((key, v));
                    proof {
                        assert(self@ =~= join_max(a, counts_map(post)));
                    }
                },
            }
            i = i + 1;
        }
        proof {
            assert(other.counts@.take(n as int) =~= other.counts@);
        }
    }
}

proof fn lemma_sum_suffix_bound(s: Seq<(String, u64)>, i: int)
    requires
        keys_unique(s),
        0 <= i <= s.len(),
    ensures
        sum_of(counts_map(s.take(i))) <= sum_of(counts_map(s)),
    decreases s.len() - i,
{
    lemma_entries_map_domain(s.take(i));
    lemma_entries_map_domain(s);
    if i == s.len() {
        assert(s.take(i) =~= s);
    } else {
        let pre = s.take(i);
        let post = s.take(i + 1);
        lemma_entries_map_domain(post);
        assert(post.drop_last() =~= pre);
        lemma_entries_map_domain(pre);
        assert(!counts_map(pre).contains_key(post.last().0@)) by {
            if counts_map(pre).contains_key(post.last().0@) {
                let j = choose|j: int| 0 <= j < pre.len() && pre[j].0@ == post.last().0@;
                assert(s[j].0@ == s[i].0@);
            }
        }
        lemma_sum_insert(counts_map(pre), post.last().0@, post.last().1);
        assert(counts_map(post) == counts_map(pre).insert(post.last().0@, post.last().1));
        lemma_sum_suffix_bound(s, i + 1);
    }
}

/// Positive-negative counter: a pair of grow-only counters, one for
/// increments and one for decrements; its value is their difference.
pub struct PNCounter {
    positive: GCounter,
    negative: GCounter,
}

impl View for PNCounter {
    type V = (Map<Seq<char>, u64>, Map<Seq<char>, u64>);

    closed spec fn view(&self) -> (Map<Seq<char>, u64>, Map<Seq<char>, u64>) {
        (self.positive@, self.negative@)
    }
}

impl PNCounter {
    pub closed spec fn wf(self) -> bool {
        &&& self.positive.wf()
        &&& self.negative.wf()
        &&& self.positive.spec_node_id() == self.negative.spec_node_id()
    }

    pub closed spec fn spec_node_id(self) -> Seq<char> {
        self.positive.spec_node_id()
    }

    pub fn new(node_id: String) -> (r: PNCounter)
        ensures
            r.wf(),
            r@ == (Map::<Seq<char>, u64>::empty(), Map::<Seq<char>, u64>::empty()),
            r.spec_node_id() == node_id@,
    {
        PNCounter { positive: GCounter::new(node_id.clone()), negative: GCounter::new(node_id) }
    }

    /// Record one increment against this node.
    pub fn increment(&mut self)
        requires
            old(self).wf(),
            count_of(old(self)@.0, old(self).spec_node_id()) < u64::MAX,
        ensures
            final(self).wf(),
            final(self).spec_node_id() == old(self).spec_node_id(),
            final(self)@.0 == old(self)@.0.insert(
                old(self).spec_node_id(),
                (count_of(old(self)@.0, old(self).spec_node_id()) + 1) as u64,
            ),
            final(self)@.1 == old(self)@.1,
    {
        self.positive.increment();
    }

    /// Record one decrement against this node.
    pub fn decrement(&mut self)
        requires
            old(self).wf(),
            count_of(old(self)@.1, old(self).spec_node_id()) < u64::MAX,
        ensures
            final(self).wf(),
            final(self).spec_node_id() == old(self).spec_node_id(),
            final(self)@.1 == old(self)@.1.insert(
                old(self).spec_node_id(),
                (count_of(old(self)@.1, old(self).spec_node_id()) + 1) as u64,
            ),
            final(self)@.0 == old(self)@.0,
    {
        self.negative.increment();
    }

    /// Net value: total increments minus total decrements.
    pub fn value(&self) -> (r: i64)
        requires
            self.wf(),
            sum_of(self@.0) <= i64::MAX,
            sum_of(self@.1) <= i64::MAX,
        ensures
            r == sum_of(self@.0) - sum_of(self@.1),
    {
        proof {
            self.positive.lemma_view_finite();
            self.negative.lemma_view_finite();
            lemma_sum_nonneg(self@.0);
            lemma_sum_nonneg(self@.1);
        }
        let p = self.positive.value();
        let n = self.negative.value();
        p as i64 - n as i64
    }

    /// Merge both halves with the other counter's halves.
    pub fn merge(&mut self, other: &PNCounter)
        requires
            old(self).wf(),
            other.wf(),
        ensures
            final(self).wf(),
            final(self).spec_node_id() == old(self).spec_node_id(),
            final(self)@.0 == join_max(old(self)@.0, other@.0),
            final(self)@.1 == join_max(old(self)@.1, other@.1),
    {
        self.positive.merge(&other.positive);
        self.negative.merge(&other.negative);
    }
}

/// Vector clock: one logical counter per node, capturing causal dominance.
pub struct VectorClock {
    clocks: Vec<(String, u64)>,
    node_id: String,
}

/// Outcome of comparing two vector clocks under the dominance relation.
#[derive(Debug, Clone, Copy, PartialEq, Eq, Structural)]
pub enum CausalOrder {
    Before,
    After,
    Equal,
    Concurrent,
}

/// Some component of `a` is strictly below the matching component of `b`.
pub open spec fn vc_some_less(a: Map<Seq<char>, u64>, b: Map<Seq<char>, u64>) -> bool {
    exists|k: Seq<char>| count_of(a, k) < count_of(b, k)
}

/// Every component of `a` is at or below the matching component of `b`.
pub open spec fn vc_le(a: Map<Seq<char>, u64>, b: Map<Seq<char>, u64>) -> bool {
    forall|k: Seq<char>| count_of(a, k) <= count_of(b, k)
}

/// `a` happened strictly before `b`: dominated everywhere, below somewhere.
pub open spec fn vc_lt(a: Map<Seq<char>, u64>, b: Map<Seq<char>, u64>) -> bool {
    vc_le(a, b) && vc_some_less(a, b)
}

/// The causal order two clocks exhibit, from their pointwise comparison.
pub open spec fn vc_compare(a: Map<Seq<char>, u64>, b: Map<Seq<char>, u64>) -> CausalOrder {
    if vc_some_less(a, b) && !vc_some_less(b, a) {
        CausalOrder::Before
    } else if !vc_some_less(a, b) && vc_some_less(b, a) {
        CausalOrder::After
    } else if !vc_some_less(a, b) && !vc_some_less(b, a) {
        CausalOrder::Equal
    } else {
        CausalOrder::Concurrent
    }
}

impl View for VectorClock {
    type V = Map<Seq<char>, u64>;

    closed spec fn view(&self) -> Map<Seq<char>, u64> {
        entries_map(self.clocks@)
    }
}

impl VectorClock {
    pub closed spec fn wf(self) -> bool {
        keys_unique(self.clocks@)
    }

    pub closed spec fn spec_node_id(self) -> Seq<char> {
        self.node_id@
    }

    pub fn new(node_id: String) -> (r: VectorClock)
        ensures
            r.wf(),
            r@ == Map::<Seq<char>, u64>::empty(),
            r.spec_node_id() == node_id@,
    {
        VectorClock { clocks: Vec::new(), node_id }
    }

    /// Advance this node's own component by one local event.
    pub fn increment(&mut self)
        requires
            old(self).wf(),
            count_of(old(self)@, old(self).spec_node_id()) < u64::MAX,
        ensures
            final(self).wf(),
            final(self).spec_node_id() == old(self).spec_node_id(),
            final(self)@ == old(self)@.insert(
                old(self).spec_node_id(),
                (count_of(old(self)@, old(self).spec_node_id()) + 1) as u64,
            ),
    {
        let key = self.node_id.clone();
        match find_key(&self.clocks, &key) {
            Some(i) => {
                proof {
                    lemma_entries_map_index(self.clocks@, i as int);
                }
                let v = self.clocks[i].1;
                let ghost s = self.clocks@;
                self.clocks[i] = (key, v + 1);
                proof {
                    lemma_entries_map_update(s, i as int, (self.clocks@[i as int].0, (v + 1) as u64));
                }
            },
            None => {
                proof {
                    lemma_entries_map_domain(self.clocks@);
                    lemma_entries_map_push(self.clocks@, (self.node_id, 1u64));
                }
                self.clocks.push((key, 1));
            },
        }
    }

    /// Fold another clock in: take the pointwise maximum, then count the
    /// merge itself as one local event.
    pub fn update(&mut self, other: &VectorClock)
        requires
            old(self).wf(),
            other.wf(),
            count_of(join_max(old(self)@, other@), old(self).spec_node_id()) < u64::MAX,
        ensures
            final(self).wf(),
            final(self).spec_node_id() == old(self).spec_node_id(),
            final(self)@ == join_max(old(self)@, other@).insert(
                old(self).spec_node_id(),
                (count_of(join_max(old(self)@, other@), old(self).spec_node_id()) + 1) as u64,
            ),
    {
        let ghost a = old(self)@;
        let n = other.clocks.len();
        let mut i: usize = 0;
        proof {
            assert(other.clocks@.take(0) =~= Seq::<(String, u64)>::empty());
            lemma_entries_map_domain(other.clocks@.take(0));
            assert(self@ =~= join_max(a, entries_map(other.clocks@.take(0))));
        }
        while i < n
            invariant
                other.wf(),
                n == other.clocks@.len(),
                i <= n,
                self.wf(),
                self.spec_node_id() == old(self).spec_node_id(),
                self@ == join_max(a, entries_map(other.clocks@.take(i as int))),
            decreases n - i,
        {
            let ghost pre = other.clocks@.take(i as int);
            let ghost post = other.clocks@.take(i + 1);
            proof {
                assert(post.drop_last() =~= pre);
                assert forall|x: int, y: int| 0 <= x < y < post.len() implies post[x].0@
                    != post[y].0@ by {
                    assert(other.clocks@[x].0@ != other.clocks@[y].0@);
                }
                lemma_entries_map_domain(pre);
                assert(!entries_map(pre).contains_key(post.last().0@)) by {
                    if entries_map(pre).contains_key(post.last().0@) {
                        let j = choose|j: int|
                            0 <= j < pre.len() && pre[j].0@ == post.last().0@;
                        assert(other.clocks@[j].0@ == other.clocks@[i as int].0@);
                    }
                }
                assert(entries_map(post) == entries_map(pre).insert(post.last().0@, post.last().1));
            }
            let key = other.clocks[i].0.clone();
            let v = other.clocks[i].1;
            match find_key(&self.clocks, &key) {
                Some(j) => {
                    proof {
                        lemma_entries_map_index(self.clocks@, j as int);
                    }
                    let cur = self.clocks[j].1;
                    let nv = if cur >= v {
                        cur
                    } else {
                        v
                    };
                    let ghost s = self.clocks@;
                    self.clocks[j] = (key, nv);
                    proof {
                        lemma_entries_map_update(s, j as int, (self.clocks@[j as int].0, nv));
                        assert(self@ =~= join_max(a, entries_map(post)));
                    }
                },
                None => {
                    proof {
                        lemma_entries_map_domain(self.clocks@);
                        lemma_entries_map_push(self.clocks@, (key, v));
                        assert(!self@.contains_key(key@));
                        assert(!a.contains_key(key@)) by {
                            if a.contains_key(key@) {
                                assert(join_max(a, entries_map(pre)).contains_key(key@));
                            }
                        }
                    }
                    self.clocks.push((key, v));
                    proof {
                        assert(self@ =~= join_max(a, entries_map(post)));
                    }
                },
            }
            i = i + 1;
        }
        proof {
            assert(other.clocks@.take(n as int) =~= other.clocks@);
        }
        self.increment();
    }

    /// Whether a write stamped with this clock may be applied on a replica
    /// whose applied state is summarized by `applied`: the sender's
    /// component is the very next event from that sender, and every other
    /// component is already covered, so all causally prior writes are in.
    pub fn delivery_ready(&self, applied: &VectorClock, sender: &String) -> (r: bool)
        requires
            self.wf(),
            applied.wf(),
        ensures
            r == (count_of(self@, sender@) == count_of(applied@, sender@) + 1 && (forall|
                k: Seq<char>,
            |
                k != sender@ ==> count_of(self@, k) <= count_of(applied@, k))),
    {
        proof {
            lemma_entries_map_domain(self.clocks@);
            lemma_entries_map_domain(applied.clocks@);
        }
        let sender_incoming = match find_key(&self.clocks, sender) {
            Some(i) => {
                proof {
                    lemma_entries_map_index(self.clocks@, i as int);
                }
                self.clocks[i].1
            },
            None => 0,
        };
        let sender_applied = match find_key(&applied.clocks, sender) {
            Some(i) => {
                proof {
                    lemma_entries_map_index(applied.clocks@, i as int);
                }
                applied.clocks[i].1
            },
            None => 0,
        };
        if !(sender_applied < u64::MAX && sender_incoming == sender_applied + 1) {
            return false;
        }
        let n = self.clocks.len();
        let mut i: usize = 0;
        while i < n
            invariant
                self.wf(),
                applied.wf(),
                n == self.clocks@.len(),
                i <= n,
                forall|j: int|
                    0 <= j < i && self.clocks@[j].0@ != sender@ ==> count_of(
                        self@,
                        self.clocks@[j].0@,
                    ) <= count_of(applied@, self.clocks@[j].0@),
            decreases n - i,
        {
            proof {
                lemma_entries_map_index(self.clocks@, i as int);
            }
            if !(self.clocks[i].0 == *sender) {
                let covered = match find_key(&applied.clocks, &self.clocks[i].0) {
                    Some(j) => {
                        proof {
                            lemma_entries_map_index(applied.clocks@, j as int);
                        }
                        self.clocks[i].1 <= applied.clocks[j].1
                    },
                    None => {
                        proof {
                            lemma_entries_map_domain(applied.clocks@);
                        }
                        self.clocks[i].1 == 0
                    },
                };
                if !covered {
                    proof {
                        let ghost k = self.clocks@[i as int].0@;
                        assert(k != sender@ && count_of(self@, k) > count_of(applied@, k));
                    }
                    return false;
                }
            }
            i = i + 1;
        }
        proof {
            assert forall|k: Seq<char>| k != sender@ implies count_of(self@, k) <= count_of(
                applied@,
                k,
            ) by {
                if count_of(self@, k) > count_of(applied@, k) {
                    assert(self@.contains_key(k));
                    let j = choose|j: int| 0 <= j < self.clocks@.len() && self.clocks@[j].0@ == k;
                    lemma_entries_map_index(self.clocks@, j);
                }
            }
        }
        true
    }

    /// Decide the causal order between this clock and another.
    pub fn compare(&self, other: &VectorClock) -> (r: CausalOrder)
        requires
            self.wf(),
            other.wf(),
        ensures
            r == vc_compare(self@, other@),
    {
        let less = Self::some_component_less(&self.clocks, &other.clocks);
        let greater = Self::some_component_less(&other.clocks, &self.clocks);
        proof {
            lemma_entries_map_domain(self.clocks@);
            lemma_entries_map_domain(other.clocks@);
        }
        match (less, greater) {
            (true, false) => CausalOrder::Before,
            (false, true) => CausalOrder::After,
            (false, false) => CausalOrder::Equal,
            (true, true) => CausalOrder::Concurrent,
        }
    }

    /// Whether some component of `a` is strictly below its counterpart in `b`.
    fn some_component_less(a: &Vec<(String, u64)>, b: &Vec<(String, u64)>) -> (r: bool)
        requires
            keys_unique(a@),
            keys_unique(b@),
        ensures
            r == vc_some_less(entries_map(a@), entries_map(b@)),
    {
        let ghost am = entries_map(a@);
        let ghost bm = entries_map(b@);
        proof {
            lemma_entries_map_domain(a@);
            lemma_entries_map_domain(b@);
        }
        let n = b.len();
        let mut i: usize = 0;
        while i < n
            invariant
                keys_unique(a@),
                keys_unique(b@),
                am == entries_map(a@),
                bm == entries_map(b@),
                n == b@.len(),
                i <= n,
                forall|j: int| 0 <= j < i ==> count_of(am, b@[j].0@) >= b@[j].1,
            decreases n - i,
        {
            let key_count = match find_key(a, &b[i].0) {
                Some(j) => {
                    proof {
                        lemma_entries_map_index(a@, j as int);
                    }
                    a[j].1
                },
                None => {
                    proof {
                        lemma_entries_map_domain(a@);
                    }
                    0
                },
            };
            proof {
                lemma_entries_map_index(b@, i as int);
            }
            if key_count < b[i].1 {
                proof {
                    assert(count_of(am, b@[i as int].0@) < count_of(bm, b@[i as int].0@));
                }
                return true;
            }
            i = i + 1;
        }
        proof {
            assert(!vc_some_less(am, bm)) by {
                if vc_some_less(am, bm) {
                    let k = choose|k: Seq<char>| count_of(am, k) < count_of(bm, k);
                    assert(count_of(bm, k) > 0);
                    assert(bm.contains_key(k));
                    let j = choose|j: int| 0 <= j < b@.len() && b@[j].0@ == k;
                    lemma_entries_map_index(b@, j);
                    assert(count_of(am, b@[j].0@) >= b@[j].1);
                }
            }
        }
        false
    }
}

/// A local event advances a clock strictly: the clock before the event
/// happened-before the clock after it.
pub proof fn lemma_local_event_happens_before(a: Map<Seq<char>, u64>, node: Seq<char>)
    requires
        count_of(a, node) < u64::MAX,
    ensures
        vc_lt(a, a.insert(node, (count_of(a, node) + 1) as u64)),
{
    let b = a.insert(node, (count_of(a, node) + 1) as u64);
    assert(count_of(a, node) < count_of(b, node));
}

/// Receiving another clock and counting the receipt as a local event
/// produces a clock that both predecessors happened-before.
pub proof fn lemma_update_happens_before(
    a: Map<Seq<char>, u64>,
    o: Map<Seq<char>, u64>,
    node: Seq<char>,
)
    requires
        count_of(join_max(a, o), node) < u64::MAX,
    ensures
        vc_lt(a, join_max(a, o).insert(node, (count_of(join_max(a, o), node) + 1) as u64)),
        vc_lt(o, join_max(a, o).insert(node, (count_of(join_max(a, o), node) + 1) as u64)),
{
    let j = join_max(a, o);
    let b = j.insert(node, (count_of(j, node) + 1) as u64);
    assert forall|k: Seq<char>| count_of(a, k) <= count_of(b, k) && count_of(o, k) <= count_of(
        b,
        k,
    ) by {
        assert(count_of(j, k) == max64(count_of(a, k), count_of(o, k)));
    }
    assert(count_of(j, node) == max64(count_of(a, node), count_of(o, node)));
    assert(count_of(a, node) < count_of(b, node));
    assert(count_of(o, node) < count_of(b, node));
}

/// If one clock happened strictly before another, comparing them yields
/// `Before`.
pub proof fn lemma_happens_before_compare(a: Map<Seq<char>, u64>, b: Map<Seq<char>, u64>)
    requires
        vc_lt(a, b),
    ensures
        vc_compare(a, b) == CausalOrder::Before,
        vc_compare(b, a) == CausalOrder::After,
{
}

/// Clocks that each run ahead of the other somewhere compare as concurrent.
pub proof fn lemma_independent_compare(a: Map<Seq<char>, u64>, b: Map<Seq<char>, u64>)
    requires
        vc_some_less(a, b),
        vc_some_less(b, a),
    ensures
        vc_compare(a, b) == CausalOrder::Concurrent,
{
}

/// Happened-before is transitive.
pub proof fn lemma_happens_before_transitive(
    a: Map<Seq<char>, u64>,
    b: Map<Seq<char>, u64>,
    c: Map<Seq<char>, u64>,
)
    requires
        vc_lt(a, b),
        vc_lt(b, c),
    ensures
        vc_lt(a, c),
{
    let k = choose|k: Seq<char>| count_of(a, k) < count_of(b, k);
    assert(count_of(a, k) < count_of(c, k));
}

/// Merging is commutative: the pointwise join does not depend on argument order.
pub proof fn lemma_join_max_commutative(a: Map<Seq<char>, u64>, b: Map<Seq<char>, u64>)
    ensures
        join_max(a, b) == join_max(b, a),
{
    assert(join_max(a, b) =~= join_max(b, a));
}

/// Merging is associative.
pub proof fn lemma_join_max_associative(
    a: Map<Seq<char>, u64>,
    b: Map<Seq<char>, u64>,
    c: Map<Seq<char>, u64>,
)
    ensures
        join_max(join_max(a, b), c) == join_max(a, join_max(b, c)),
{
    assert(join_max(join_max(a, b), c) =~= join_max(a, join_max(b, c)));
}

/// Merging is idempotent: merging a state with itself changes nothing.
pub proof fn lemma_join_max_idempotent(a: Map<Seq<char>, u64>)
    ensures
        join_max(a, a) == a,
{
    assert(join_max(a, a) =~= a);
}

/// Write tag of a last-write-wins entry: wall-clock milliseconds, tiebroken
/// by a deterministic hash of the writing node's name.
#[derive(Debug, Clone, Copy, PartialEq, Eq, Structural)]
pub struct Timestamp {
    pub time: u64,
    pub node_id_hash: u64,
}

/// Lexicographic order on write tags: later wall-clock time wins, equal
/// times fall back to the node hash.
pub open spec fn ts_ge(a: Timestamp, b: Timestamp) -> bool {
    a.time > b.time || (a.time == b.time && a.node_id_hash >= b.node_id_hash)
}

/// The deterministic node-name hash: a left fold of the UTF-8 bytes with
/// wrapping multiply-by-31 and add.
pub open spec fn fold_hash(bs: Seq<u8>) -> u64
    decreases bs.len(),
{
    if bs.len() == 0 {
        0
    } else {
        vstd::wrapping::u64_specs::wrapping_add(
            vstd::wrapping::u64_specs::wrapping_mul(fold_hash(bs.drop_last()), 31),
            bs.last() as u64,
        )
    }
}

/// Hash of a node name, as the tiebreaker stored in write tags.
pub open spec fn node_id_hash_of(s: Seq<char>) -> u64 {
    fold_hash(vstd::utf8::encode_utf8(s))
}

/// Join of two last-write-wins states: keep the entry with the greater tag,
/// and on an exactly equal tag keep the left (existing) entry.
pub open spec fn lww_join(
    a: Map<Seq<char>, (String, Timestamp)>,
    b: Map<Seq<char>, (String, Timestamp)>,
) -> Map<Seq<char>, (String, Timestamp)> {
    Map::new(
        |k: Seq<char>| a.contains_key(k) || b.contains_key(k),
        |k: Seq<char>|
            if a.contains_key(k) && b.contains_key(k) {
                if ts_ge(a[k].1, b[k].1) {
                    a[k]
                } else {
                    b[k]
                }
            } else if a.contains_key(k) {
                a[k]
            } else {
                b[k]
            },
    )
}

/// Last-write-wins map: each key holds the value carrying the greatest
/// write tag any replica has assigned to it.
pub struct LWWMap {
    entries: Vec<(String, (String, Timestamp))>,
    node_id: String,
}

impl View for LWWMap {
    type V = Map<Seq<char>, (String, Timestamp)>;

    closed spec fn view(&self) -> Map<Seq<char>, (String, Timestamp)> {
        entries_map(self.entries@)
    }
}

impl LWWMap {
    pub closed spec fn wf(self) -> bool {
        keys_unique(self.entries@)
    }

    pub closed spec fn spec_node_id(self) -> Seq<char> {
        self.node_id@
    }

    pub fn new(node_id: String) -> (r: LWWMap)
        ensures
            r.wf(),
            r@ == Map::<Seq<char>, (String, Timestamp)>::empty(),
            r.spec_node_id() == node_id@,
    {
        LWWMap { entries: Vec::new(), node_id }
    }

    /// Write `value` under `key` with an explicit tag. The write replaces
    /// whatever the key held locally, whatever its tag.
    pub fn set_at(&mut self, key: String, value: String, stamp: Timestamp)
        requires
            old(self).wf(),
        ensures
            final(self).wf(),
            final(self).spec_node_id() == old(self).spec_node_id(),
            final(self)@ == old(self)@.insert(key@, (value, stamp)),
    {
        match find_key(&self.entries, &key) {
            Some(i) => {
                let ghost s = self.entries@;
                self.entries[i] = (key, (value, stamp));
                proof {
                    lemma_entries_map_update(
                        s,
                        i as int,
                        (self.entries@[i as int].0, self.entries@[i as int].1),
                    );
                }
            },
            None => {
                proof {
                    lemma_entries_map_push(self.entries@, (key, (value, stamp)));
                }
                self.entries.push((key, (value, stamp)));
            },
        }
    }

    /// Write `value` under `key`, tagging it with the current wall-clock
    /// time and this node's hash.
    pub fn set(&mut self, key: String, value: String)
        requires
            old(self).wf(),
        ensures
            final(self).wf(),
            final(self).spec_node_id() == old(self).spec_node_id(),
            exists|t: u64|
                final(self)@ == old(self)@.insert(
                    key@,
                    (value, (Timestamp { time: t, node_id_hash: node_id_hash_of(old(self).spec_node_id()) })),
                ),
    {
        let t = wall_clock_millis();
        let h = self.hash_node_id();
        self.set_at(key, value, Timestamp { time: t, node_id_hash: h });
    }

    /// Read the value currently held under `key`, if any.
    pub fn get(&self, key: &String) -> (r: Option<&String>)
        requires
            self.wf(),
        ensures
            match r {
                Some(v) => self@.contains_key(key@) && v@ == self@[key@].0@,
                None => !self@.contains_key(key@),
            },
    {
        proof {
            lemma_entries_map_domain(self.entries@);
        }
        match find_key(&self.entries, key) {
            Some(i) => {
                proof {
                    lemma_entries_map_index(self.entries@, i as int);
                }
                Some(&self.entries[i].1.0)
            },
            None => None,
        }
    }

    /// Merge with another replica: for every key keep the entry whose tag is
    /// greater, keeping the existing entry on an exactly equal tag.
    pub fn merge(&mut self, other: &LWWMap)
        requires
            old(self).wf(),
            other.wf(),
        ensures
            final(self).wf(),
            final(self).spec_node_id() == old(self).spec_node_id(),
            final(self)@ == lww_join(old(self)@, other@),
    {
        let ghost a = old(self)@;
        let n = other.entries.len();
        let mut i: usize = 0;
        proof {
            assert(other.entries@.take(0) =~= Seq::<(String, (String, Timestamp))>::empty());
            lemma_entries_map_domain(other.entries@.take(0));
            assert(self@ =~= lww_join(a, entries_map(other.entries@.take(0))));
        }
        while i < n
            invariant
                other.wf(),
                n == other.entries@.len(),
                i <= n,
                self.wf(),
                self.spec_node_id() == old(self).spec_node_id(),
                self@ == lww_join(a, entries_map(other.entries@.take(i as int))),
            decreases n - i,
        {
            let ghost pre = other.entries@.take(i as int);
            let ghost post = other.entries@.take(i + 1);
            proof {
                assert(post.drop_last() =~= pre);
                assert forall|x: int, y: int| 0 <= x < y < post.len() implies post[x].0@
                    != post[y].0@ by {
                    assert(other.entries@[x].0@ != other.entries@[y].0@);
                }
                lemma_entries_map_domain(pre);
                assert(!entries_map(pre).contains_key(post.last().0@)) by {
                    if entries_map(pre).contains_key(post.last().0@) {
                        let j = choose|j: int|
                            0 <= j < pre.len() && pre[j].0@ == post.last().0@;
                        assert(other.entries@[j].0@ == other.entries@[i as int].0@);
                    }
                }
                assert(entries_map(post) == entries_map(pre).insert(post.last().0@, post.last().1));
                lemma_entries_map_index(other.entries@, i as int);
            }
            let key = other.entries[i].0.clone();
            let value = other.entries[i].1.0.clone();
            let stamp = other.entries[i].1.1;
            match find_key(&self.entries, &key) {
                Some(j) => {
                    proof {
                        lemma_entries_map_index(self.entries@, j as int);
                    }
                    let keep = {
                        let cur = self.entries[j].1.1;
                        cur.time > stamp.time || (cur.time == stamp.time && cur.node_id_hash
                            >= stamp.node_id_hash)
                    };
                    if !keep {
                        let ghost s = self.entries@;
                        self.entries[j] = (key, (value, stamp));
                        proof {
                            lemma_entries_map_update(
                                s,
                                j as int,
                                (self.entries@[j as int].0, self.entries@[j as int].1),
                            );
                        }
                    }
                    proof {
                        assert(self@ =~= lww_join(a, entries_map(post)));
                    }
                },
                None => {
                    proof {
                        lemma_entries_map_domain(self.entries@);
                        lemma_entries_map_push(self.entries@, (key, (value, stamp)));
                        assert(!self@.contains_key(key@));
                        assert(!a.contains_key(key@)) by {
                            if a.contains_key(key@) {
                                assert(lww_join(a, entries_map(pre)).contains_key(key@));
                            }
                        }
                    }
                    self.entries.push((key, (value, stamp)));
                    proof {
                        assert(self@ =~= lww_join(a, entries_map(post)));
                    }
                },
            }
            i = i + 1;
        }
        proof {
            assert(other.entries@.take(n as int) =~= other.entries@);
        }
    }

    /// Deterministic hash of this node's name, used to tiebreak write tags.
    pub fn hash_node_id(&self) -> (r: u64)
        ensures
            r == node_id_hash_of(self.spec_node_id()),
    {
        let bytes = self.node_id.as_str().as_bytes();
        let n = bytes.len();
        let ghost bs = self.node_id@;
        let mut acc: u64 = 0;
        let mut i: usize = 0;
        proof {
            assert(bytes@.take(0) =~= Seq::<u8>::empty());
        }
        let ghost all = bytes@;
        while i < n
            invariant
                n == all.len(),
                i <= n,
                bytes@ == all,
                acc == fold_hash(all.take(i as int)),
            decreases n - i,
        {
            proof {
                assert(all.take(i + 1).drop_last() =~= all.take(i as int));
            }
            let b = bytes[i];
            acc = acc.wrapping_mul(31).wrapping_add(b as u64);
            i = i + 1;
        }
        proof {
            assert(all.take(n as int) =~= all);
        }
        acc
    }
}

/// Relies on std::time::SystemTime: the milliseconds elapsed since the Unix
/// epoch, by the machine's wall clock. Nothing is assumed of the value.
#[verifier::external_body]
fn wall_clock_millis() -> u64 {
    std::time::SystemTime::now().duration_since(std::time::UNIX_EPOCH).map(
        |d| d.as_millis() as u64,
    ).unwrap_or(0)
}

/// The tag order is total: any two tags compare one way or the other.
pub proof fn lemma_ts_total(a: Timestamp, b: Timestamp)
    ensures
        ts_ge(a, b) || ts_ge(b, a),
{
}

/// Last-write-wins merging is commutative wherever no two replicas carry an
/// exactly equal tag with different entries.
pub proof fn lemma_lww_join_commutative(
    a: Map<Seq<char>, (String, Timestamp)>,
    b: Map<Seq<char>, (String, Timestamp)>,
)
    requires
        forall|k: Seq<char>|
            a.contains_key(k) && b.contains_key(k) && a[k].1 == b[k].1 ==> a[k] == b[k],
    ensures
        lww_join(a, b) == lww_join(b, a),
{
    assert(lww_join(a, b) =~= lww_join(b, a));
}

/// Last-write-wins merging is associative.
pub proof fn lemma_lww_join_associative(
    a: Map<Seq<char>, (String, Timestamp)>,
    b: Map<Seq<char>, (String, Timestamp)>,
    c: Map<Seq<char>, (String, Timestamp)>,
)
    ensures
        lww_join(lww_join(a, b), c) == lww_join(a, lww_join(b, c)),
{
    assert(lww_join(lww_join(a, b), c) =~= lww_join(a, lww_join(b, c)));
}

/// Last-write-wins merging is idempotent.
pub proof fn lemma_lww_join_idempotent(a: Map<Seq<char>, (String, Timestamp)>)
    ensures
        lww_join(a, a) == a,
{
    assert(lww_join(a, a) =~= a);
}

/// A unique add-tag: the replica that minted it and its local counter then.
#[derive(Debug, Clone)]
pub struct UniqueTag {
    pub node_id: String,
    pub counter: u64,
}

/// Abstract form of an add-tag.
pub open spec fn tag_view(t: UniqueTag) -> (Seq<char>, u64) {
    (t.node_id@, t.counter)
}

/// The set of abstract tags a tag list denotes.
pub open spec fn tag_set(s: Seq<UniqueTag>) -> Set<(Seq<char>, u64)>
    decreases s.len(),
{
    if s.len() == 0 {
        Set::empty()
    } else {
        tag_set(s.drop_last()).insert(tag_view(s.last()))
    }
}

proof fn lemma_tag_set_members(s: Seq<UniqueTag>)
    ensures
        forall|t: (Seq<char>, u64)|
            tag_set(s).contains(t) <==> exists|i: int| 0 <= i < s.len() && tag_view(s[i]) == t,
        tag_set(s).finite(),
    decreases s.len(),
{
    if s.len() > 0 {
        lemma_tag_set_members(s.drop_last());
        assert forall|t: (Seq<char>, u64)| tag_set(s).contains(t) implies exists|i: int|
            0 <= i < s.len() && tag_view(s[i]) == t by {
            if tag_view(s.last()) == t {
                assert(tag_view(s[s.len() - 1]) == t);
            } else {
                let i = choose|i: int| 0 <= i < s.len() - 1 && tag_view(s.drop_last()[i]) == t;
                assert(tag_view(s[i]) == t);
            }
        }
        assert forall|t: (Seq<char>, u64)|
            (exists|i: int| 0 <= i < s.len() && tag_view(s[i]) == t) implies tag_set(s).contains(
            t,
        ) by {
            let i = choose|i: int| 0 <= i < s.len() && tag_view(s[i]) == t;
            if i < s.len() - 1 {
                assert(tag_view(s.drop_last()[i]) == t);
            }
        }
    }
}

proof fn lemma_tag_set_push(s: Seq<UniqueTag>, t: UniqueTag)
    ensures
        tag_set(s.push(t)) == tag_set(s).insert(tag_view(t)),
{
    assert(s.push(t).drop_last() =~= s);
}

/// The abstract state an observed-remove set's entry table denotes: each
/// element mapped to the set of add-tags supporting it.
pub open spec fn or_map(s: Seq<(String, Vec<UniqueTag>)>) -> Map<Seq<char>, Set<(Seq<char>, u64)>> {
    entries_map(s).map_values(|tags: Vec<UniqueTag>| tag_set(tags@))
}

/// Join of two observed-remove states: the union of the supporting tag sets,
/// element by element.
pub open spec fn or_join(
    a: Map<Seq<char>, Set<(Seq<char>, u64)>>,
    b: Map<Seq<char>, Set<(Seq<char>, u64)>>,
) -> Map<Seq<char>, Set<(Seq<char>, u64)>> {
    Map::new(
        |k: Seq<char>| a.contains_key(k) || b.contains_key(k),
        |k: Seq<char>|
            if a.contains_key(k) && b.contains_key(k) {
                a[k].union(b[k])
            } else if a.contains_key(k) {
                a[k]
            } else {
                b[k]
            },
    )
}

/// Observed-remove set: an element is present while some replica's add-tag
/// for it has not been removed; removal drops the locally observed tags.
pub struct ORSet {
    elements: Vec<(String, Vec<UniqueTag>)>,
    node_id: String,
    counter: u64,
}

impl View for ORSet {
    type V = Map<Seq<char>, Set<(Seq<char>, u64)>>;

    closed spec fn view(&self) -> Map<Seq<char>, Set<(Seq<char>, u64)>> {
        or_map(self.elements@)
    }
}

impl ORSet {
    pub closed spec fn wf(self) -> bool {
        &&& keys_unique(self.elements@)
        &&& forall|i: int| 0 <= i < self.elements@.len() ==> self.elements@[i].1@.len() > 0
    }

    pub closed spec fn spec_node_id(self) -> Seq<char> {
        self.node_id@
    }

    /// The local tag counter, from which fresh add-tags are minted.
    pub closed spec fn spec_counter(self) -> u64 {
        self.counter
    }

    pub fn new(node_id: String) -> (r: ORSet)
        ensures
            r.wf(),
            r@ == Map::<Seq<char>, Set<(Seq<char>, u64)>>::empty(),
            r.spec_node_id() == node_id@,
            r.spec_counter() == 0,
    {
        let r = ORSet { elements: Vec::new(), node_id, counter: 0 };
        proof {
            assert(r@ =~= Map::<Seq<char>, Set<(Seq<char>, u64)>>::empty());
        }
        r
    }

    /// Add `element`, supported by a freshly minted tag of this replica.
    pub fn add(&mut self, element: String)
        requires
            old(self).wf(),
            old(self).spec_counter() < u64::MAX,
        ensures
            final(self).wf(),
            final(self).spec_node_id() == old(self).spec_node_id(),
            final(self).spec_counter() == old(self).spec_counter() + 1,
            final(self)@ == old(self)@.insert(
                element@,
                (if old(self)@.contains_key(element@) {
                    old(self)@[element@]
                } else {
                    Set::empty()
                }).insert((old(self).spec_node_id(), old(self).spec_counter())),
            ),
    {
        let tag = UniqueTag { node_id: self.node_id.clone(), counter: self.counter };
        self.counter = self.counter + 1;
        proof {
            lemma_entries_map_domain(self.elements@);
        }
        match find_key(&self.elements, &element) {
            Some(i) => {
                proof {
                    lemma_entries_map_index(self.elements@, i as int);
                }
                let ghost s = self.elements@;
                let ghost oldtags = self.elements@[i as int].1;
                let tags = &mut self.elements[i].1;
                proof {
                    lemma_tag_set_push(oldtags@, tag);
                }
                tags.push(tag);
                proof {
                    lemma_entries_map_update(s, i as int, (s[i as int].0, (self.elements@[i as int].1)));
                    assert(self.elements@ =~= s.update(i as int, (s[i as int].0, self.elements@[i as int].1)));
                    assert(self@ =~= old(self)@.insert(
                        element@,
                        old(self)@[element@].insert((old(self).spec_node_id(), old(self).spec_counter())),
                    ));
                }
            },
            None => {
                let mut tags: Vec<UniqueTag> = Vec::new();
                tags.push(tag);
                proof {
                    lemma_entries_map_push(self.elements@, (element, tags));
                    assert(tags@.drop_last() =~= Seq::<UniqueTag>::empty());
                    assert(tags@.len() == 1);
                    assert(tag_view(tags@.last()) == (
                        old(self).spec_node_id(),
                        old(self).spec_counter(),
                    ));
                    assert(tag_set(tags@) == tag_set(tags@.drop_last()).insert(
                        tag_view(tags@.last()),
                    ));
                    assert(tag_set(tags@) =~= Set::empty().insert(
                        (old(self).spec_node_id(), old(self).spec_counter()),
                    ));
                }
                self.elements.push((element, tags));
                proof {
                    assert(self@ =~= old(self)@.insert(
                        element@,
                        Set::empty().insert((old(self).spec_node_id(), old(self).spec_counter())),
                    ));
                }
            },
        }
    }

    /// Remove `element`: drop every add-tag this replica has observed for it.
    pub fn remove(&mut self, element: &String)
        requires
            old(self).wf(),
        ensures
            final(self).wf(),
            final(self).spec_node_id() == old(self).spec_node_id(),
            final(self).spec_counter() == old(self).spec_counter(),
            final(self)@ == old(self)@.remove(element@),
    {
        match find_key(&self.elements, element) {
            Some(i) => {
                proof {
                    lemma_entries_map_remove(self.elements@, i as int);
                }
                self.elements.remove(i);
                proof {
                    assert(self@ =~= old(self)@.remove(element@));
                }
            },
            None => {
                proof {
                    lemma_entries_map_domain(self.elements@);
                    assert(self@ =~= old(self)@.remove(element@));
                }
            },
        }
    }

    /// An element is in the set while a supporting tag remains.
    pub fn contains(&self, element: &String) -> (r: bool)
        requires
            self.wf(),
        ensures
            r == self@.contains_key(element@),
            r ==> self@[element@].len() > 0,
    {
        proof {
            lemma_entries_map_domain(self.elements@);
        }
        match find_key(&self.elements, element) {
            Some(i) => {
                proof {
                    lemma_entries_map_index(self.elements@, i as int);
                    let tags = self.elements@[i as int].1;
                    lemma_tag_set_members(tags@);
                    assert(self@[element@] == tag_set(tags@));
                    // the first tag witnesses that the supporting set is inhabited
                    assert(exists|j: int|
                        0 <= j < tags@.len() && #[trigger] tag_view(tags@[j]) == tag_view(
                            tags@[0],
                        ));
                    assert(tag_set(tags@).contains(tag_view(tags@[0])));
                    assert(tag_set(tags@).len() > 0) by {
                        if tag_set(tags@).len() == 0 {
                            assert(tag_set(tags@) =~= Set::empty());
                        }
                    }
                }
                true
            },
            None => false,
        }
    }

    /// The elements currently present, each exactly once.
    pub fn elements(&self) -> (r: Vec<String>)
        requires
            self.wf(),
        ensures
            forall|k: Seq<char>|
                (exists|i: int| 0 <= i < r@.len() && r@[i]@ == k) <==> self@.contains_key(k),
            forall|i: int, j: int| 0 <= i < j < r@.len() ==> r@[i]@ != r@[j]@,
    {
        proof {
            lemma_entries_map_domain(self.elements@);
        }
        let n = self.elements.len();
        let mut r: Vec<String> = Vec::new();
        let mut i: usize = 0;
        while i < n
            invariant
                self.wf(),
                n == self.elements@.len(),
                i <= n,
                r@.len() == i,
                forall|j: int| 0 <= j < i ==> r@[j]@ == self.elements@[j].0@,
            decreases n - i,
        {
            r.push(self.elements[i].0.clone());
            i = i + 1;
        }
        proof {
            assert forall|k: Seq<char>| self@.contains_key(k) implies exists|j: int|
                0 <= j < r@.len() && r@[j]@ == k by {
                let j = choose|j: int| 0 <= j < self.elements@.len() && self.elements@[j].0@ == k;
                assert(r@[j]@ == k);
            }
            assert forall|k: Seq<char>|
                (exists|j: int| 0 <= j < r@.len() && r@[j]@ == k) implies self@.contains_key(
                k,
            ) by {
                let j = choose|j: int| 0 <= j < r@.len() && r@[j]@ == k;
                assert(self.elements@[j].0@ == k);
            }
        }
        r
    }

    /// Merge with another replica: union the supporting tags per element.
    pub fn merge(&mut self, other: &ORSet)
        requires
            old(self).wf(),
            other.wf(),
        ensures
            final(self).wf(),
            final(self).spec_node_id() == old(self).spec_node_id(),
            final(self).spec_counter() == old(self).spec_counter(),
            final(self)@ == or_join(old(self)@, other@),
    {
        let ghost a = old(self)@;
        let n = other.elements.len();
        let mut i: usize = 0;
        proof {
            assert(other.elements@.take(0) =~= Seq::<(String, Vec<UniqueTag>)>::empty());
            lemma_entries_map_domain(other.elements@.take(0));
            assert(self@ =~= or_join(a, or_map(other.elements@.take(0))));
        }
        while i < n
            invariant
                other.wf(),
                n == other.elements@.len(),
                i <= n,
                self.wf(),
                self.spec_node_id() == old(self).spec_node_id(),
                self.spec_counter() == old(self).spec_counter(),
                self@ == or_join(a, or_map(other.elements@.take(i as int))),
            decreases n - i,
        {
            let ghost pre = other.elements@.take(i as int);
            let ghost post = other.elements@.take(i + 1);
            proof {
                assert(post.drop_last() =~= pre);
                assert forall|x: int, y: int| 0 <= x < y < post.len() implies post[x].0@
                    != post[y].0@ by {
                    assert(other.elements@[x].0@ != other.elements@[y].0@);
                }
                lemma_entries_map_domain(pre);
                assert(!entries_map(pre).contains_key(post.last().0@)) by {
                    if entries_map(pre).contains_key(post.last().0@) {
                        let j = choose|j: int|
                            0 <= j < pre.len() && pre[j].0@ == post.last().0@;
                        assert(other.elements@[j].0@ == other.elements@[i as int].0@);
                    }
                }
                assert(entries_map(post) == entries_map(pre).insert(post.last().0@, post.last().1));
                assert(or_map(post) =~= or_map(pre).insert(
                    post.last().0@,
                    tag_set(post.last().1@),
                ));
                lemma_entries_map_index(other.elements@, i as int);
            }
            let key = other.elements[i].0.clone();
            match find_key(&self.elements, &key) {
                Some(j) => {
                    proof {
                        lemma_entries_map_index(self.elements@, j as int);
                    }
                    let ghost s = self.elements@;
                    let ghost oldtags = self.elements@[j as int].1;
                    let m = other.elements[i].1.len();
                    let tags = &mut self.elements[j].1;
                    let mut t: usize = 0;
                    while t < m
                        invariant
                            other.wf(),
                            0 <= i < other.elements@.len(),
                            m == other.elements@[i as int].1@.len(),
                            t <= m,
                            tags@.len() > 0,
                            tag_set(tags@) == tag_set(oldtags@).union(
                                tag_set(other.elements@[i as int].1@.take(t as int)),
                            ),
                        decreases m - t,
                    {
                        let ghost tpre = other.elements@[i as int].1@.take(t as int);
                        let ghost tpost = other.elements@[i as int].1@.take(t + 1);
                        proof {
                            assert(tpost.drop_last() =~= tpre);
                            lemma_tag_set_members(tags@);
                        }
                        let ot = &other.elements[i].1[t];
                        if !tag_in_list(tags, ot) {
                            let ghost tl = tags@;
                            proof {
                                lemma_tag_set_push(
                                    tl,
                                    (UniqueTag { node_id: ot.node_id, counter: ot.counter }),
                                );
                            }
                            tags.push(UniqueTag { node_id: ot.node_id.clone(), counter: ot.counter });
                            proof {
                                assert(tag_set(tags@) =~= tag_set(oldtags@).union(tag_set(tpost)));
                            }
                        } else {
                            proof {
                                assert(tag_set(tags@) =~= tag_set(oldtags@).union(tag_set(tpost)));
                            }
                        }
                        t = t + 1;
                    }
                    proof {
                        assert(other.elements@[i as int].1@.take(m as int) =~= other.elements@[i as int].1@);
                        let newtags = self.elements@[j as int].1;
                        assert(tag_set(newtags@) == tag_set(oldtags@).union(
                            tag_set(other.elements@[i as int].1@),
                        ));
                        lemma_entries_map_update(s, j as int, (s[j as int].0, newtags));
                        assert(self.elements@ =~= s.update(j as int, (s[j as int].0, newtags)));
                        assert(entries_map(self.elements@) == entries_map(s).insert(key@, newtags));
                        assert(self@ =~= or_map(s).insert(key@, tag_set(newtags@)));
                        assert(!or_map(pre).contains_key(key@));
                        assert(or_map(s).contains_key(key@));
                        assert(a.contains_key(key@)) by {
                            if !a.contains_key(key@) {
                                assert(!or_join(a, or_map(pre)).contains_key(key@));
                            }
                        }
                        assert(or_map(s)[key@] == tag_set(oldtags@));
                        assert(tag_set(oldtags@) == a[key@]);
                        assert(self@ =~= or_join(a, or_map(post)));
                    }
                },
                None => {
                    let m = other.elements[i].1.len();
                    let mut tags: Vec<UniqueTag> = Vec::new();
                    let mut t: usize = 0;
                    proof {
                        assert(other.elements@[i as int].1@.take(0) =~= Seq::<UniqueTag>::empty());
                        assert(tag_set(tags@) =~= tag_set(other.elements@[i as int].1@.take(0)));
                    }
                    while t < m
                        invariant
                            other.wf(),
                            0 <= i < other.elements@.len(),
                            m == other.elements@[i as int].1@.len(),
                            t <= m,
                            tags@.len() == t,
                            tag_set(tags@) == tag_set(other.elements@[i as int].1@.take(t as int)),
                        decreases m - t,
                    {
                        let ghost tpre = other.elements@[i as int].1@.take(t as int);
                        let ghost tpost = other.elements@[i as int].1@.take(t + 1);
                        proof {
                            assert(tpost.drop_last() =~= tpre);
                            lemma_tag_set_push(
                                tags@,
                                (UniqueTag {
                                    node_id: other.elements@[i as int].1@[t as int].node_id,
                                    counter: other.elements@[i as int].1@[t as int].counter,
                                }),
                            );
                        }
                        let ot = &other.elements[i].1[t];
                        tags.push(UniqueTag { node_id: ot.node_id.clone(), counter: ot.counter });
                        t = t + 1;
                    }
                    let ghost s2 = self.elements@;
                    let ghost gt = tags@;
                    proof {
                        assert(other.elements@[i as int].1@.take(m as int) =~= other.elements@[i as int].1@);
                        lemma_entries_map_domain(self.elements@);
                        lemma_entries_map_push(self.elements@, (key, tags));
                        assert(!self@.contains_key(key@));
                        assert(!a.contains_key(key@)) by {
                            if a.contains_key(key@) {
                                assert(or_join(a, or_map(pre)).contains_key(key@));
                            }
                        }
                        assert(other.elements@[i as int].1@.len() > 0);
                    }
                    self.elements.push((key, tags));
                    proof {
                        assert(self@ =~= or_map(s2).insert(key@, tag_set(gt)));
                        assert(tag_set(gt) == tag_set(other.elements@[i as int].1@));
                        assert(self@ =~= or_join(a, or_map(post)));
                    }
                },
            }
            i = i + 1;
        }
        proof {
            assert(other.elements@.take(n as int) =~= other.elements@);
        }
    }
}

/// Whether the abstract tag of `t` already occurs in `tags`.
fn tag_in_list(tags: &Vec<UniqueTag>, t: &UniqueTag) -> (r: bool)
    ensures
        r == tag_set(tags@).contains(tag_view(*t)),
{
    proof {
        lemma_tag_set_members(tags@);
    }
    let n = tags.len();
    let mut i: usize = 0;
    while i < n
        invariant
            n == tags@.len(),
            i <= n,
            forall|j: int| 0 <= j < i ==> tag_view(tags@[j]) != tag_view(*t),
        decreases n - i,
    {
        if tags[i].counter == t.counter && tags[i].node_id == t.node_id {
            proof {
                lemma_tag_set_members(tags@);
                assert(tag_view(tags@[i as int]) == tag_view(*t));
                let ghost w = i as int;
                assert(exists|j: int| 0 <= j < tags@.len() && tag_view(tags@[j]) == tag_view(*t))
                    by {
                    assert(0 <= w < tags@.len() && tag_view(tags@[w]) == tag_view(*t));
                }
                assert(tag_set(tags@).contains(tag_view(*t)));
            }
            return true;
        }
        i = i + 1;
    }
    proof {
        assert(!tag_set(tags@).contains(tag_view(*t))) by {
            if tag_set(tags@).contains(tag_view(*t)) {
                let j = choose|j: int| 0 <= j < tags@.len() && tag_view(tags@[j]) == tag_view(*t);
            }
        }
    }
    false
}

/// Observed-remove merging is commutative.
pub proof fn lemma_or_join_commutative(
    a: Map<Seq<char>, Set<(Seq<char>, u64)>>,
    b: Map<Seq<char>, Set<(Seq<char>, u64)>>,
)
    ensures
        or_join(a, b) == or_join(b, a),
{
    assert forall|k: Seq<char>|
        or_join(a, b).contains_key(k) implies #[trigger] or_join(a, b)[k] == or_join(b, a)[k] by {
        if a.contains_key(k) && b.contains_key(k) {
            assert(a[k].union(b[k]) =~= b[k].union(a[k]));
        }
    }
    assert(or_join(a, b) =~= or_join(b, a));
}

/// Observed-remove merging is associative.
pub proof fn lemma_or_join_associative(
    a: Map<Seq<char>, Set<(Seq<char>, u64)>>,
    b: Map<Seq<char>, Set<(Seq<char>, u64)>>,
    c: Map<Seq<char>, Set<(Seq<char>, u64)>>,
)
    ensures
        or_join(or_join(a, b), c) == or_join(a, or_join(b, c)),
{
    assert forall|k: Seq<char>|
        or_join(or_join(a, b), c).contains_key(k) implies #[trigger] or_join(or_join(a, b), c)[k]
        == or_join(a, or_join(b, c))[k] by {
        assert(or_join(or_join(a, b), c)[k] =~= or_join(a, or_join(b, c))[k]);
    }
    assert(or_join(or_join(a, b), c) =~= or_join(a, or_join(b, c)));
}

/// Observed-remove merging is idempotent.
pub proof fn lemma_or_join_idempotent(a: Map<Seq<char>, Set<(Seq<char>, u64)>>)
    ensures
        or_join(a, a) == a,
{
    assert forall|k: Seq<char>| or_join(a, a).contains_key(k) implies #[trigger] or_join(a, a)[k]
        == a[k] by {
        assert(a[k].union(a[k]) =~= a[k]);
    }
    assert(or_join(a, a) =~= a);
}

} // verus!
