//! The skip list engine and its forward cursor.
//!
//! Nodes are held in an arena (`Vec<Node>`); index 0 is the keyless head
//! sentinel, every other index is a real entry. Each node carries one forward
//! link per level it participates in; the link at a level always points to the
//! node with the smallest key among the nodes on that level whose keys are
//! greater than the current node's key. That single fact, stated for every
//! node and level by `wf`, is the whole structural invariant: it implies that
//! a level-0 walk visits every entry in strictly ascending key order and that
//! higher levels are sparse shortcuts over the same order.

use vstd::prelude::*;

verus! {

/// Relies on fastrand::bool: one draw from that crate's thread-local
/// generator. Nothing is promised of the outcome.
#[verifier::external_body]
fn coin_flip() -> bool {
    fastrand::bool()
}

/// One stored entry: a key, its payload, and one forward link per level.
/// A link holds the arena index of the next node on that level, if any.
/// The number of links (the node's height) is fixed at creation.
pub struct Node {
    key: i64,
    value: u64,
    links: Vec<Option<usize>>,
}

impl Node {
    /// The key held by this node.
    pub closed spec fn spec_key(self) -> i64 {
        self.key
    }

    /// The payload held by this node.
    pub closed spec fn spec_value(self) -> u64 {
        self.value
    }

    /// The forward links, lowest level first.
    pub closed spec fn spec_links(self) -> Seq<Option<usize>> {
        self.links@
    }

    /// A fresh node of the given height with no successors yet.
    pub fn new(key: i64, value: u64, height: usize) -> (r: Node)
        ensures
            r.spec_key() == key,
            r.spec_value() == value,
            r.spec_links().len() == height,
            forall|i: int| 0 <= i < height ==> r.spec_links()[i] is None,
    {
        let mut links: Vec<Option<usize>> = Vec::new();
        let mut i: usize = 0;
        while i < height
            invariant
                i <= height,
                links@.len() == i,
                forall|j: int| 0 <= j < i ==> links@[j] is None,
            decreases height - i,
        {
            links.push(None);
            i = i + 1;
        }
        Node { key, value, links }
    }

    /// The forward link at level `n`.
    pub fn next(&self, n: usize) -> (r: Option<usize>)
        requires
            n < self.spec_links().len(),
        ensures
            r == self.spec_links()[n as int],
    {
        self.links[n]
    }

    /// Replaces the forward link at level `n`.
    pub fn set_next(&mut self, n: usize, x: Option<usize>)
        requires
            n < old(self).spec_links().len(),
        ensures
            final(self).spec_key() == old(self).spec_key(),
            final(self).spec_value() == old(self).spec_value(),
            final(self).spec_links() == old(self).spec_links().update(n as int, x),
    {
        self.links[n] = x;
    }
}

/// The sentinel-headed multi-level skip list over `i64` keys with `u64`
/// payloads. Equal-key insertion overwrites the payload in place, so the
/// structure is a sorted association, never a multiset.
pub struct LinkedListSkipList {
    nodes: Vec<Node>,
    current_height: usize,
    current_size: usize,
    max_height: usize,
}

impl LinkedListSkipList {
    /// True of the arena indices that hold real entries (everything but the
    /// head sentinel at index 0).
    pub closed spec fn is_real(self, i: int) -> bool {
        1 <= i < self.nodes@.len()
    }

    /// The key stored at arena index `i`.
    pub closed spec fn key_of(self, i: int) -> int {
        self.nodes@[i].key as int
    }

    /// The payload stored at arena index `i`.
    pub closed spec fn value_of(self, i: int) -> u64 {
        self.nodes@[i].value
    }

    /// The height of the node at arena index `i`: the number of levels it
    /// participates in.
    pub closed spec fn height_of(self, i: int) -> int {
        self.nodes@[i].links@.len() as int
    }

    /// The forward link of node `i` at level `lvl`.
    pub closed spec fn link_of(self, i: int, lvl: int) -> Option<usize> {
        self.nodes@[i].links@[lvl]
    }

    /// True when the real node `i` participates in level `lvl`.
    pub closed spec fn on_level(self, i: int, lvl: int) -> bool {
        self.is_real(i) && 0 <= lvl < self.height_of(i)
    }

    /// The key of node `i` for ordering purposes: the head sentinel counts as
    /// strictly below every representable key, so it precedes all entries.
    pub closed spec fn key_floor(self, i: int) -> int {
        if i == 0 {
            i64::MIN - 1
        } else {
            self.key_of(i)
        }
    }

    /// The one structural fact about a forward link: it points to the node
    /// with the least key after `i` on this level, or nowhere when no node on
    /// this level comes after `i`.
    pub closed spec fn link_ok(self, i: int, lvl: int) -> bool {
        match self.link_of(i, lvl) {
            None => forall|m: int|
                self.on_level(m, lvl) ==> self.key_of(m) <= self.key_floor(i),
            Some(j) => {
                &&& self.on_level(j as int, lvl)
                &&& self.key_of(j as int) > self.key_floor(i)
                &&& forall|m: int|
                    self.on_level(m, lvl) && self.key_of(m) > self.key_floor(i)
                        ==> self.key_of(m) >= self.key_of(j as int)
            },
        }
    }

    /// Well-formedness of the whole structure.
    pub closed spec fn wf(self) -> bool {
        &&& self.nodes@.len() >= 1
        &&& 1 <= self.max_height
        &&& self.height_of(0) == self.max_height
        &&& self.current_height <= self.max_height
        &&& (self.nodes@.len() == 1 ==> self.current_height == 0)
        &&& self.current_size == self.nodes@.len() - 1
        &&& forall|i: int|
            self.is_real(i) ==> 1 <= #[trigger] self.height_of(i) <= self.current_height
        &&& forall|i: int, j: int|
            self.is_real(i) && self.is_real(j) && i != j
                ==> #[trigger] self.key_of(i) != #[trigger] self.key_of(j)
        &&& forall|i: int, lvl: int|
            0 <= i < self.nodes@.len() && 0 <= lvl < self.height_of(i)
                ==> #[trigger] self.link_ok(i, lvl)
    }

    /// The set of keys currently stored.
    pub closed spec fn key_set(self) -> Set<int> {
        Set::new(|k: int| exists|i: int| self.is_real(i) && self.key_of(i) == k)
    }

    /// The stored association: every key to the payload most recently
    /// inserted with it.
    pub closed spec fn as_map(self) -> Map<int, u64> {
        Map::new(
            |k: int| self.key_set().contains(k),
            |k: int| self.value_of(choose|i: int| self.is_real(i) && self.key_of(i) == k),
        )
    }

    /// The number of entries stored.
    pub closed spec fn num_entries(self) -> int {
        self.nodes@.len() - 1
    }

    /// The height bound fixed at construction.
    pub closed spec fn max_height_spec(self) -> int {
        self.max_height as int
    }

    /// The current maximum active height: the height of the tallest entry
    /// inserted so far.
    pub closed spec fn cur_height_spec(self) -> int {
        self.current_height as int
    }

    /// An empty list. The head sentinel spans `max_height` levels; the height
    /// of every later entry is drawn in `1..=max_height`.
    pub fn new(max_height: usize) -> (r: LinkedListSkipList)
        requires
            1 <= max_height,
        ensures
            r.wf(),
            r.max_height_spec() == max_height,
            r.cur_height_spec() == 0,
            r.num_entries() == 0,
            r.key_set() == Set::<int>::empty(),
            r.as_map() == Map::<int, u64>::empty(),
    {
        let head = Node::new(0, 0, max_height);
        let mut nodes: Vec<Node> = Vec::new();
        nodes.push(head);
        let r = LinkedListSkipList { nodes, current_height: 0, current_size: 0, max_height };
        proof {
            assert forall|i: int, lvl: int|
                0 <= i < r.nodes@.len() && 0 <= lvl < r.height_of(i)
                    implies #[trigger] r.link_ok(i, lvl) by {
                assert(r.link_of(i, lvl) is None);
            }
            assert(r.key_set() =~= Set::<int>::empty());
            assert(r.as_map() =~= Map::<int, u64>::empty());
        }
        r
    }

    /// The active height never exceeds the construction-time bound, and it is
    /// positive exactly when the list holds an entry: it starts at zero and
    /// grows only as taller nodes are inserted.
    pub proof fn lemma_active_height_bounds(self)
        requires
            self.wf(),
        ensures
            0 <= self.cur_height_spec() <= self.max_height_spec(),
            self.cur_height_spec() >= 1 <==> self.num_entries() > 0,
    {
        if self.num_entries() > 0 {
            assert(self.is_real(1));
            assert(1 <= self.height_of(1) <= self.current_height);
        }
    }

    /// The current maximum active height, as grown by insertions so far.
    pub fn get_max_height(&self) -> (r: usize)
        ensures
            r == self.cur_height_spec(),
            self.wf() ==> r <= self.max_height_spec(),
            self.wf() ==> (r >= 1 <==> self.num_entries() > 0),
    {
        proof {
            if self.wf() {
                self.lemma_active_height_bounds();
            }
        }
        self.current_height
    }

    /// The real nodes whose key lies strictly above `k`. A forward step always
    /// shrinks this set, which makes it the walk's termination measure.
    spec fn above_set(self, k: int) -> Set<int> {
        Set::new(|i: int| self.is_real(i) && self.key_of(i) > k)
    }

    proof fn lemma_above_set_finite(self, k: int)
        ensures
            self.above_set(k).finite(),
            self.above_set(k).len() <= self.nodes@.len(),
    {
        let r = vstd::set_lib::set_int_range(0, self.nodes@.len() as int);
        vstd::set_lib::lemma_int_range(0, self.nodes@.len() as int);
        assert(self.above_set(k).subset_of(r));
        vstd::set_lib::lemma_len_subset(self.above_set(k), r);
    }

    proof fn lemma_above_set_strict(self, k: int, j: int)
        requires
            self.is_real(j),
            self.key_of(j) > k,
        ensures
            self.above_set(self.key_of(j)).len() < self.above_set(k).len(),
    {
        let a = self.above_set(k);
        let b = self.above_set(self.key_of(j));
        self.lemma_above_set_finite(k);
        self.lemma_above_set_finite(self.key_of(j));
        assert(a.contains(j));
        assert(b.subset_of(a.remove(j)));
        vstd::set_lib::lemma_len_subset(b, a.remove(j));
    }

    /// `p` is the level-`lvl` predecessor of `target`: the last node on that
    /// level, head included, whose key stays below `target`.
    spec fn is_pred(self, p: int, lvl: int, target: int) -> bool {
        &&& p == 0 || (self.on_level(p, lvl) && self.key_of(p) < target)
        &&& self.key_floor(p) < target
        &&& forall|m: int|
            self.on_level(m, lvl) && self.key_of(m) < target
                ==> self.key_of(m) <= self.key_floor(p)
    }

    /// At a given level a target has exactly one predecessor.
    proof fn lemma_pred_unique(self, lvl: int, target: int, p1: int, p2: int)
        requires
            self.wf(),
            self.is_pred(p1, lvl, target),
            self.is_pred(p2, lvl, target),
        ensures
            p1 == p2,
    {
        if p1 != p2 {
            if p1 == 0 {
                assert(self.key_of(p2) <= self.key_floor(0));
                assert(false);
            } else if p2 == 0 {
                assert(self.key_of(p1) <= self.key_floor(0));
                assert(false);
            } else {
                assert(self.key_of(p1) <= self.key_floor(p2));
                assert(self.key_of(p2) <= self.key_floor(p1));
                assert(self.key_of(p1) == self.key_of(p2));
                assert(false);
            }
        }
    }

    /// Above the current active height no node participates in any level, so
    /// the head is the predecessor of every target there.
    proof fn lemma_pred_head_high(self, lvl: int, target: int)
        requires
            self.wf(),
            lvl >= self.current_height,
            i64::MIN <= target,
        ensures
            self.is_pred(0, lvl, target),
    {
        assert forall|m: int| self.on_level(m, lvl) && self.key_of(m) < target
            implies self.key_of(m) <= self.key_floor(0) by {
            assert(self.height_of(m) <= self.current_height);
        }
    }

    /// The shared downward search. Returns the node holding `target` if it is
    /// stored, and the per-level predecessor trace used for splicing.
    fn find_predecessors(&self, target: i64) -> (res: (Option<usize>, Vec<usize>))
        requires
            self.wf(),
        ensures
            res.1@.len() == self.max_height,
            forall|lvl: int|
                0 <= lvl < self.max_height
                    ==> self.is_pred(#[trigger] res.1@[lvl] as int, lvl, target as int),
            forall|lvl: int|
                0 <= lvl < self.max_height ==> #[trigger] res.1@[lvl] < self.nodes@.len(),
            match res.0 {
                Some(i) => self.is_real(i as int) && self.key_of(i as int) == target,
                None => !self.key_set().contains(target as int),
            },
            res.0 is Some <==> self.key_set().contains(target as int),
    {
        let ghost t = target as int;
        let mut prev: Vec<usize> = Vec::new();
        let mut l: usize = 0;
        while l < self.max_height
            invariant
                l <= self.max_height,
                prev@.len() == l,
                forall|q: int| 0 <= q < l ==> prev@[q] == 0,
            decreases self.max_height - l,
        {
            prev.push(0);
            l = l + 1;
        }
        proof {
            assert forall|lvl: int| self.current_height <= lvl implies self.is_pred(
                0,
                lvl,
                t,
            ) by {
                self.lemma_pred_head_high(lvl, t);
            }
        }
        let mut current: usize = 0;
        let mut level: usize = self.current_height;
        while level > 0
            invariant
                self.wf(),
                t == target as int,
                level <= self.current_height,
                current == 0 || (self.is_real(current as int) && self.key_of(current as int) < t
                    && level <= self.height_of(current as int)),
                current < self.nodes@.len(),
                prev@.len() == self.max_height,
                forall|q: int|
                    level <= q < self.max_height
                        ==> self.is_pred(#[trigger] prev@[q] as int, q, t),
                forall|q: int| level <= q < self.max_height ==> #[trigger] prev@[q] == 0
                    || prev@[q] < self.nodes@.len(),
            decreases level,
        {
            level = level - 1;
            loop
                invariant
                    self.wf(),
                    t == target as int,
                    current == 0 || (self.is_real(current as int) && self.key_of(
                        current as int,
                    ) < t),
                    current < self.nodes@.len(),
                    level < self.height_of(current as int),
                ensures
                    current == 0 || (self.is_real(current as int) && self.key_of(
                        current as int,
                    ) < t),
                    current < self.nodes@.len(),
                    level < self.height_of(current as int),
                    self.is_pred(current as int, level as int, t),
                decreases self.above_set(self.key_floor(current as int)).len(),
            {
                proof {
                    assert(self.link_ok(current as int, level as int));
                }
                match self.nodes[current].next(level) {
                    None => {
                        break ;
                    },
                    Some(j) => {
                        if self.nodes[j].key < target {
                            proof {
                                self.lemma_above_set_strict(
                                    self.key_floor(current as int),
                                    j as int,
                                );
                            }
                            current = j;
                        } else {
                            break ;
                        }
                    },
                }
            }
            prev[level] = current;
        }
        let p0 = prev[0];
        proof {
            assert(self.is_pred(p0 as int, 0, t));
            assert(p0 == 0 || self.is_real(p0 as int));
            if p0 != 0 {
                assert(self.height_of(p0 as int) >= 1);
            }
            assert(self.link_ok(p0 as int, 0));
        }
        let found: Option<usize>;
        match self.nodes[p0].next(0) {
            Some(j) => {
                if self.nodes[j].key == target {
                    found = Some(j);
                    proof {
                        assert(self.key_set().contains(t));
                    }
                } else {
                    found = None;
                    proof {
                        if self.key_set().contains(t) {
                            let m = choose|i: int| self.is_real(i) && self.key_of(i) == t;
                            assert(self.on_level(m, 0));
                            assert(self.key_of(j as int) >= t);
                            assert(self.key_of(j as int) <= self.key_of(m));
                            assert(false);
                        }
                    }
                }
            },
            None => {
                found = None;
                proof {
                    if self.key_set().contains(t) {
                        let m = choose|i: int| self.is_real(i) && self.key_of(i) == t;
                        assert(self.on_level(m, 0));
                        assert(self.key_of(m) <= self.key_floor(p0 as int));
                        assert(false);
                    }
                }
            },
        }
        (found, prev)
    }

    /// Draws the height of a new node: a geometric draw that starts at one,
    /// keeps climbing on heads, and is capped by the construction-time bound.
    fn random_height(&self) -> (h: usize)
        requires
            1 <= self.max_height,
        ensures
            1 <= h <= self.max_height,
    {
        let mut height: usize = 1;
        loop
            invariant
                1 <= height <= self.max_height,
            ensures
                1 <= height <= self.max_height,
            decreases self.max_height - height,
        {
            if height >= self.max_height {
                break ;
            }
            if !coin_flip() {
                break ;
            }
            height = height + 1;
        }
        height
    }

    /// Two states with the same counters, keys, heights and links agree on
    /// well-formedness and on the stored key set, whatever the payloads.
    proof fn lemma_same_links_wf(o: Self, f: Self)
        requires
            o.wf(),
            f.nodes@.len() == o.nodes@.len(),
            forall|i: int| 0 <= i < o.nodes@.len() ==> #[trigger] f.key_of(i) == o.key_of(i),
            forall|i: int| 0 <= i < o.nodes@.len() ==> #[trigger] f.height_of(i) == o.height_of(i),
            forall|i: int, lvl: int|
                0 <= i < o.nodes@.len() && 0 <= lvl < o.height_of(i)
                    ==> #[trigger] f.link_of(i, lvl) == o.link_of(i, lvl),
            f.current_height == o.current_height,
            f.current_size == o.current_size,
            f.max_height == o.max_height,
        ensures
            f.wf(),
            f.key_set() == o.key_set(),
    {
        assert forall|i: int, j: int|
            f.is_real(i) && f.is_real(j) && i != j implies #[trigger] f.key_of(i)
            != #[trigger] f.key_of(j) by {
            assert(f.key_of(i) == o.key_of(i));
            assert(f.key_of(j) == o.key_of(j));
            assert(o.key_of(i) != o.key_of(j));
        }
        assert forall|i: int| f.is_real(i) implies 1 <= #[trigger] f.height_of(i)
            <= f.current_height by {
            assert(f.height_of(i) == o.height_of(i));
            assert(1 <= o.height_of(i) <= o.current_height);
        }
        assert(f.height_of(0) == o.height_of(0));
        assert forall|i: int, lvl: int|
            0 <= i < f.nodes@.len() && 0 <= lvl < f.height_of(i) implies #[trigger] f.link_ok(
            i,
            lvl,
        ) by {
            assert(f.height_of(i) == o.height_of(i));
            assert(f.key_of(i) == o.key_of(i));
            assert(o.link_ok(i, lvl));
            assert(f.link_of(i, lvl) == o.link_of(i, lvl));
            match o.link_of(i, lvl) {
                None => {
                    assert forall|m: int| f.on_level(m, lvl) implies f.key_of(m) <= f.key_floor(
                        i,
                    ) by {
                        assert(f.height_of(m) == o.height_of(m));
                        assert(f.key_of(m) == o.key_of(m));
                        assert(o.on_level(m, lvl));
                    }
                },
                Some(j) => {
                    assert(f.height_of(j as int) == o.height_of(j as int));
                    assert(f.key_of(j as int) == o.key_of(j as int));
                    assert(o.on_level(j as int, lvl));
                    assert forall|m: int|
                        f.on_level(m, lvl) && f.key_of(m) > f.key_floor(i) implies f.key_of(m)
                        >= f.key_of(j as int) by {
                        assert(f.height_of(m) == o.height_of(m));
                        assert(f.key_of(m) == o.key_of(m));
                        assert(o.on_level(m, lvl));
                    }
                },
            }
        }
        assert(f.key_set() =~= o.key_set()) by {
            assert forall|k: int| f.key_set().contains(k) implies o.key_set().contains(k) by {
                let i = choose|i: int| f.is_real(i) && f.key_of(i) == k;
                assert(f.key_of(i) == o.key_of(i));
                assert(o.is_real(i) && o.key_of(i) == k);
            }
            assert forall|k: int| o.key_set().contains(k) implies f.key_set().contains(k) by {
                let i = choose|i: int| o.is_real(i) && o.key_of(i) == k;
                assert(f.key_of(i) == o.key_of(i));
                assert(f.is_real(i) && f.key_of(i) == k);
            }
        }
    }

    /// Splicing a fresh node behind its per-level predecessors preserves the
    /// structural invariant and adds exactly the new entry.
    proof fn lemma_splice_preserves(
        o: Self,
        f: Self,
        prev: Seq<usize>,
        n: int,
        key: i64,
        v: u64,
        height: int,
    )
        requires
            o.wf(),
            !o.key_set().contains(key as int),
            prev.len() == o.max_height,
            forall|lvl: int|
                0 <= lvl < o.max_height ==> o.is_pred(#[trigger] prev[lvl] as int, lvl, key as int),
            n == o.nodes@.len(),
            1 <= height <= o.max_height,
            f.nodes@.len() == n + 1,
            f.max_height == o.max_height,
            f.current_height as int == if height > o.current_height as int {
                height
            } else {
                o.current_height as int
            },
            f.current_size == o.current_size + 1,
            forall|i: int| 0 <= i < n ==> #[trigger] f.key_of(i) == o.key_of(i),
            forall|i: int| 0 <= i < n ==> #[trigger] f.value_of(i) == o.value_of(i),
            forall|i: int| 0 <= i < n ==> #[trigger] f.height_of(i) == o.height_of(i),
            f.key_of(n) == key as int,
            f.value_of(n) == v,
            f.height_of(n) == height,
            forall|i: int, lvl: int|
                0 <= i < n && 0 <= lvl < o.height_of(i)
                    ==> #[trigger] f.link_of(i, lvl) == if lvl < height && i == prev[lvl] as int {
                    Some(n as usize)
                } else {
                    o.link_of(i, lvl)
                },
            forall|lvl: int|
                0 <= lvl < height ==> #[trigger] f.link_of(n, lvl) == o.link_of(
                    prev[lvl] as int,
                    lvl,
                ),
        ensures
            f.wf(),
            f.key_set() == o.key_set().insert(key as int),
            f.as_map() == o.as_map().insert(key as int, v),
    {
        let k = key as int;
        // the key is fresh
        assert forall|i: int| o.is_real(i) implies #[trigger] o.key_of(i) != k by {
            if o.key_of(i) == k {
                assert(o.key_set().contains(k));
            }
        }
        // keys stay distinct
        assert forall|i: int, j: int|
            f.is_real(i) && f.is_real(j) && i != j implies #[trigger] f.key_of(i)
            != #[trigger] f.key_of(j) by {
            if i < n && j < n {
                assert(f.key_of(i) == o.key_of(i));
                assert(f.key_of(j) == o.key_of(j));
                assert(o.key_of(i) != o.key_of(j));
            } else if i == n {
                assert(f.key_of(j) == o.key_of(j));
                assert(o.key_of(j) != k);
            } else {
                assert(f.key_of(i) == o.key_of(i));
                assert(o.key_of(i) != k);
            }
        }
        // heights stay bounded by the active height
        assert forall|i: int| f.is_real(i) implies 1 <= #[trigger] f.height_of(i)
            <= f.current_height by {
            if i < n {
                assert(f.height_of(i) == o.height_of(i));
                assert(1 <= o.height_of(i) <= o.current_height);
            }
        }
        assert(f.height_of(0) == o.height_of(0));
        // every link still points at the least node beyond it on its level
        assert forall|i: int, lvl: int|
            0 <= i < f.nodes@.len() && 0 <= lvl < f.height_of(i) implies #[trigger] f.link_ok(
            i,
            lvl,
        ) by {
            if i == n {
                let p = prev[lvl] as int;
                assert(o.is_pred(p, lvl, k));
                assert(o.link_ok(p, lvl));
                assert(f.link_of(n, lvl) == o.link_of(p, lvl));
                match o.link_of(p, lvl) {
                    None => {
                        assert forall|m: int| f.on_level(m, lvl) implies f.key_of(m)
                            <= f.key_floor(n) by {
                            if m < n {
                                assert(f.height_of(m) == o.height_of(m));
                                assert(f.key_of(m) == o.key_of(m));
                                assert(o.on_level(m, lvl));
                                assert(o.key_of(m) <= o.key_floor(p));
                            }
                        }
                    },
                    Some(j) => {
                        assert(f.height_of(j as int) == o.height_of(j as int));
                        assert(f.key_of(j as int) == o.key_of(j as int));
                        assert(o.on_level(j as int, lvl));
                        assert(o.key_of(j as int) > o.key_floor(p));
                        if o.key_of(j as int) < k {
                            assert(o.key_of(j as int) <= o.key_floor(p));
                            assert(false);
                        }
                        assert(o.key_of(j as int) != k);
                        assert(f.key_of(j as int) > f.key_floor(n));
                        assert forall|m: int|
                            f.on_level(m, lvl) && f.key_of(m) > f.key_floor(n) implies f.key_of(m)
                            >= f.key_of(j as int) by {
                            if m < n {
                                assert(f.height_of(m) == o.height_of(m));
                                assert(f.key_of(m) == o.key_of(m));
                                assert(o.on_level(m, lvl));
                                assert(o.key_of(m) > o.key_floor(p));
                            }
                        }
                    },
                }
            } else if 0 <= lvl < height && i == prev[lvl] as int {
                // the spliced link now points at the new node
                assert(o.is_pred(i, lvl, k));
                assert(f.height_of(i) == o.height_of(i));
                if i != 0 {
                    assert(f.key_of(i) == o.key_of(i));
                }
                assert(f.link_of(i, lvl) == Some(n as usize));
                assert(f.on_level(n, lvl));
                assert(f.key_of(n) > f.key_floor(i));
                assert forall|m: int|
                    f.on_level(m, lvl) && f.key_of(m) > f.key_floor(i) implies f.key_of(m)
                    >= f.key_of(n) by {
                    if m < n {
                        assert(f.height_of(m) == o.height_of(m));
                        assert(f.key_of(m) == o.key_of(m));
                        assert(o.on_level(m, lvl));
                        if o.key_of(m) < k {
                            assert(o.key_of(m) <= o.key_floor(i));
                            assert(false);
                        }
                    }
                }
            } else {
                // an untouched link: the new node never falls between its
                // owner and its target, else the owner would have been the
                // level's predecessor of the new key
                assert(f.height_of(i) == o.height_of(i));
                if i != 0 {
                    assert(f.key_of(i) == o.key_of(i));
                }
                assert(f.link_of(i, lvl) == o.link_of(i, lvl));
                assert(o.link_ok(i, lvl));
                if lvl < height {
                    let p = prev[lvl] as int;
                    assert(o.is_pred(p, lvl, k));
                    match o.link_of(i, lvl) {
                        None => {
                            if o.key_floor(i) < k {
                                assert forall|m: int|
                                    o.on_level(m, lvl) && o.key_of(m) < k implies o.key_of(m)
                                    <= o.key_floor(i) by {
                                    assert(o.key_of(m) <= o.key_floor(i));
                                }
                                assert(o.is_pred(i, lvl, k));
                                o.lemma_pred_unique(lvl, k, i, p);
                                assert(false);
                            }
                            assert forall|m: int| f.on_level(m, lvl) implies f.key_of(m)
                                <= f.key_floor(i) by {
                                if m < n {
                                    assert(f.height_of(m) == o.height_of(m));
                                    assert(f.key_of(m) == o.key_of(m));
                                    assert(o.on_level(m, lvl));
                                } else {
                                    assert(f.key_of(m) == k);
                                    assert(k <= o.key_floor(i));
                                }
                            }
                        },
                        Some(j) => {
                            assert(f.height_of(j as int) == o.height_of(j as int));
                            assert(f.key_of(j as int) == o.key_of(j as int));
                            assert(o.on_level(j as int, lvl));
                            if o.key_floor(i) < k && k < o.key_of(j as int) {
                                assert forall|m: int|
                                    o.on_level(m, lvl) && o.key_of(m) < k implies o.key_of(m)
                                    <= o.key_floor(i) by {
                                    if o.key_of(m) > o.key_floor(i) {
                                        assert(o.key_of(m) >= o.key_of(j as int));
                                        assert(false);
                                    }
                                }
                                assert(o.is_pred(i, lvl, k));
                                o.lemma_pred_unique(lvl, k, i, p);
                                assert(false);
                            }
                            assert(o.key_of(j as int) != k);
                            assert forall|m: int|
                                f.on_level(m, lvl) && f.key_of(m) > f.key_floor(i) implies f.key_of(
                                m,
                            ) >= f.key_of(j as int) by {
                                if m < n {
                                    assert(f.height_of(m) == o.height_of(m));
                                    assert(f.key_of(m) == o.key_of(m));
                                    assert(o.on_level(m, lvl));
                                } else {
                                    assert(f.key_of(m) == k);
                                    assert(k > o.key_floor(i));
                                    assert(k > o.key_of(j as int));
                                }
                            }
                        },
                    }
                } else {
                    // the new node is below this level, so nothing changed here
                    match o.link_of(i, lvl) {
                        None => {
                            assert forall|m: int| f.on_level(m, lvl) implies f.key_of(m)
                                <= f.key_floor(i) by {
                                if m < n {
                                    assert(f.height_of(m) == o.height_of(m));
                                    assert(f.key_of(m) == o.key_of(m));
                                    assert(o.on_level(m, lvl));
                                } else {
                                    assert(f.height_of(n) <= lvl);
                                }
                            }
                        },
                        Some(j) => {
                            assert(f.height_of(j as int) == o.height_of(j as int));
                            assert(f.key_of(j as int) == o.key_of(j as int));
                            assert(o.on_level(j as int, lvl));
                            assert forall|m: int|
                                f.on_level(m, lvl) && f.key_of(m) > f.key_floor(i) implies f.key_of(
                                m,
                            ) >= f.key_of(j as int) by {
                                if m < n {
                                    assert(f.height_of(m) == o.height_of(m));
                                    assert(f.key_of(m) == o.key_of(m));
                                    assert(o.on_level(m, lvl));
                                } else {
                                    assert(f.height_of(n) <= lvl);
                                }
                            }
                        },
                    }
                }
            }
        }
        // the key set gains exactly the new key
        assert(f.key_set() =~= o.key_set().insert(k)) by {
            assert forall|q: int| f.key_set().contains(q) implies o.key_set().insert(k).contains(
                q,
            ) by {
                let i = choose|i: int| f.is_real(i) && f.key_of(i) == q;
                if i < n {
                    assert(f.key_of(i) == o.key_of(i));
                    assert(o.is_real(i) && o.key_of(i) == q);
                    assert(o.key_set().contains(q));
                }
            }
            assert forall|q: int| o.key_set().insert(k).contains(q) implies f.key_set().contains(
                q,
            ) by {
                if q == k {
                    assert(f.is_real(n) && f.key_of(n) == q);
                } else {
                    let i = choose|i: int| o.is_real(i) && o.key_of(i) == q;
                    assert(f.key_of(i) == o.key_of(i));
                    assert(f.is_real(i) && f.key_of(i) == q);
                }
            }
        }
        // and the association gains exactly the new entry
        assert(f.as_map() =~= o.as_map().insert(k, v)) by {
            assert forall|q: int| f.as_map().dom().contains(q) implies f.as_map()[q] == o.as_map()
                .insert(k, v)[q] by {
                let i = choose|i: int| f.is_real(i) && f.key_of(i) == q;
                if q == k {
                    assert(f.key_of(n) == q);
                    assert(i == n);
                    assert(f.as_map()[q] == v);
                } else {
                    assert(i != n);
                    assert(f.key_of(i) == o.key_of(i));
                    assert(f.value_of(i) == o.value_of(i));
                    assert(o.is_real(i) && o.key_of(i) == q);
                    let i2 = choose|i2: int| o.is_real(i2) && o.key_of(i2) == q;
                    assert(o.key_of(i2) == o.key_of(i));
                    assert(i2 == i);
                    assert(f.as_map()[q] == f.value_of(i));
                    assert(o.as_map()[q] == o.value_of(i2));
                }
            }
        }
    }

    /// Inserts an entry. A key already present keeps its single node and
    /// takes the new payload in place; a fresh key gets a node of random
    /// height spliced in behind its predecessor at each of its levels.
    pub fn insert(&mut self, key: i64, value: u64)
        requires
            old(self).wf(),
        ensures
            final(self).wf(),
            final(self).as_map() == old(self).as_map().insert(key as int, value),
            final(self).key_set() == old(self).key_set().insert(key as int),
            old(self).key_set().contains(key as int) ==> final(self).num_entries() == old(
                self,
            ).num_entries(),
            !old(self).key_set().contains(key as int) ==> final(self).num_entries() == old(
                self,
            ).num_entries() + 1,
            final(self).max_height_spec() == old(self).max_height_spec(),
            old(self).cur_height_spec() <= final(self).cur_height_spec() <= old(
                self,
            ).max_height_spec(),
            final(self).cur_height_spec() >= 1,
            old(self).key_set().contains(key as int) ==> final(self).cur_height_spec() == old(
                self,
            ).cur_height_spec(),
            old(self).key_set().contains(key as int) ==> forall|i: int, lvl: int|
                #[trigger] final(self).on_level(i, lvl) == old(self).on_level(i, lvl),
            old(self).key_set().contains(key as int) ==> forall|i: int, lvl: int|
                old(self).on_level(i, lvl) ==> #[trigger] final(self).link_of(i, lvl) == old(
                    self,
                ).link_of(i, lvl),
    {
        let ghost o = *self;
        let (found, prev) = self.find_predecessors(key);
        match found {
            Some(i) => {
                self.nodes[i].value = value;
                proof {
                    assert forall|w: int| 0 <= w < o.nodes@.len() implies #[trigger] self.key_of(w)
                        == o.key_of(w) by {}
                    assert forall|w: int| 0 <= w < o.nodes@.len() implies #[trigger] self.height_of(
                        w,
                    ) == o.height_of(w) by {}
                    assert forall|w: int, lvl: int|
                        0 <= w < o.nodes@.len() && 0 <= lvl < o.height_of(w)
                            implies #[trigger] self.link_of(w, lvl) == o.link_of(w, lvl) by {}
                    Self::lemma_same_links_wf(o, *self);
                    let w0 = choose|w0: int| o.is_real(w0) && o.key_of(w0) == key as int;
                    assert(o.is_real(1));
                    assert(1 <= o.height_of(1) <= o.current_height);
                    assert forall|i2: int, lvl: int| #[trigger] self.on_level(i2, lvl)
                        == o.on_level(i2, lvl) by {
                        if 0 <= i2 < o.nodes@.len() {
                            assert(self.height_of(i2) == o.height_of(i2));
                        }
                    }
                    assert forall|i2: int, lvl: int| o.on_level(i2, lvl)
                        implies #[trigger] self.link_of(i2, lvl) == o.link_of(i2, lvl) by {}
                    assert(self.key_set() =~= o.key_set().insert(key as int));
                    assert(self.as_map() =~= o.as_map().insert(key as int, value)) by {
                        assert forall|q: int| self.as_map().dom().contains(q) implies self.as_map()[q]
                            == o.as_map().insert(key as int, value)[q] by {
                            let w = choose|w: int| self.is_real(w) && self.key_of(w) == q;
                            let w2 = choose|w2: int| o.is_real(w2) && o.key_of(w2) == q;
                            assert(self.key_of(w) == o.key_of(w));
                            assert(o.is_real(w) && o.key_of(w) == q);
                            assert(o.key_of(w2) == o.key_of(w));
                            assert(w2 == w);
                            if q == key as int {
                                assert(o.key_of(i as int) == key as int);
                                assert(w == i as int);
                                assert(self.value_of(w) == value);
                            } else {
                                assert(w != i as int);
                                assert(self.value_of(w) == o.value_of(w));
                            }
                        }
                    }
                }
            },
            None => {
                let height = self.random_height();
                let new_idx = self.nodes.len();
                let mut node = Node::new(key, value, height);
                let mut lvl: usize = 0;
                while lvl < height
                    invariant
                        *self == o,
                        self.wf(),
                        lvl <= height,
                        height <= self.max_height,
                        prev@.len() == self.max_height,
                        forall|q: int|
                            0 <= q < self.max_height
                                ==> self.is_pred(#[trigger] prev@[q] as int, q, key as int),
                        forall|q: int|
                            0 <= q < self.max_height ==> #[trigger] prev@[q] < self.nodes@.len(),
                        node.spec_links().len() == height,
                        node.spec_key() == key,
                        node.spec_value() == value,
                        forall|l: int|
                            0 <= l < lvl ==> #[trigger] node.spec_links()[l] == self.link_of(
                                prev@[l] as int,
                                l,
                            ),
                    decreases height - lvl,
                {
                    let p = prev[lvl];
                    proof {
                        assert(self.is_pred(p as int, lvl as int, key as int));
                        if p != 0 {
                            assert(self.on_level(p as int, lvl as int));
                        }
                    }
                    let x = self.nodes[p].next(lvl);
                    node.set_next(lvl, x);
                    lvl = lvl + 1;
                }
                self.nodes.push(node);
                let ghost snap = *self;
                proof {
                    assert(snap.key_of(new_idx as int) == key as int);
                    assert(snap.value_of(new_idx as int) == value);
                    assert(snap.height_of(new_idx as int) == height);
                    assert forall|w: int| 0 <= w < new_idx implies #[trigger] snap.key_of(w)
                        == o.key_of(w) by {}
                    assert forall|w: int| 0 <= w < new_idx implies #[trigger] snap.value_of(w)
                        == o.value_of(w) by {}
                    assert forall|w: int| 0 <= w < new_idx implies #[trigger] snap.height_of(w)
                        == o.height_of(w) by {}
                    assert forall|w: int, l: int|
                        0 <= w < new_idx && 0 <= l < o.height_of(w)
                            implies #[trigger] snap.link_of(w, l) == o.link_of(w, l) by {}
                    assert forall|l: int|
                        0 <= l < height implies #[trigger] snap.link_of(new_idx as int, l)
                            == o.link_of(prev@[l] as int, l) by {}
                }
                let mut lvl2: usize = 0;
                while lvl2 < height
                    invariant
                        lvl2 <= height,
                        snap.nodes@.len() == new_idx + 1,
                        new_idx == o.nodes@.len(),
                        o.wf(),
                        1 <= height <= o.max_height,
                        prev@.len() == o.max_height,
                        forall|q: int|
                            0 <= q < o.max_height
                                ==> o.is_pred(#[trigger] prev@[q] as int, q, key as int),
                        forall|q: int|
                            0 <= q < o.max_height ==> #[trigger] prev@[q] < o.nodes@.len(),
                        snap.current_height == o.current_height,
                        snap.current_size == o.current_size,
                        snap.max_height == o.max_height,
                        snap.key_of(new_idx as int) == key as int,
                        snap.value_of(new_idx as int) == value,
                        snap.height_of(new_idx as int) == height,
                        forall|w: int| 0 <= w < new_idx ==> #[trigger] snap.key_of(w) == o.key_of(w),
                        forall|w: int|
                            0 <= w < new_idx ==> #[trigger] snap.value_of(w) == o.value_of(w),
                        forall|w: int|
                            0 <= w < new_idx ==> #[trigger] snap.height_of(w) == o.height_of(w),
                        forall|w: int, l: int|
                            0 <= w < new_idx && 0 <= l < o.height_of(w)
                                ==> #[trigger] snap.link_of(w, l) == o.link_of(w, l),
                        forall|l: int|
                            0 <= l < height ==> #[trigger] snap.link_of(new_idx as int, l)
                                == o.link_of(prev@[l] as int, l),
                        self.nodes@.len() == snap.nodes@.len(),
                        self.current_height == snap.current_height,
                        self.current_size == snap.current_size,
                        self.max_height == snap.max_height,
                        forall|w: int|
                            0 <= w <= new_idx ==> #[trigger] self.key_of(w) == snap.key_of(w),
                        forall|w: int|
                            0 <= w <= new_idx ==> #[trigger] self.value_of(w) == snap.value_of(w),
                        forall|w: int|
                            0 <= w <= new_idx ==> #[trigger] self.height_of(w) == snap.height_of(w),
                        forall|w: int, l: int|
                            0 <= w <= new_idx && 0 <= l < snap.height_of(w)
                                ==> #[trigger] self.link_of(w, l) == (if l < lvl2 && w
                                == prev@[l] as int {
                                Some(new_idx)
                            } else {
                                snap.link_of(w, l)
                            }),
                    decreases height - lvl2,
                {
                    let p = prev[lvl2];
                    proof {
                        assert(o.is_pred(p as int, lvl2 as int, key as int));
                        if p != 0 {
                            assert(o.on_level(p as int, lvl2 as int));
                        }
                        assert(snap.height_of(p as int) == o.height_of(p as int));
                        assert(self.height_of(p as int) == snap.height_of(p as int));
                    }
                    let ghost mid = *self;
                    self.nodes[p].set_next(lvl2, Some(new_idx));
                    proof {
                        let bound: int = lvl2 as int + 1;
                        let pi = p as int;
                        assert(self.nodes@.len() == mid.nodes@.len());
                        assert(self.nodes@[pi].spec_key() == mid.nodes@[pi].spec_key());
                        assert(self.nodes@[pi].spec_value() == mid.nodes@[pi].spec_value());
                        assert(self.nodes@[pi].spec_links() == mid.nodes@[pi].spec_links().update(
                            lvl2 as int,
                            Some(new_idx),
                        ));
                        assert forall|w: int|
                            0 <= w <= new_idx implies #[trigger] self.key_of(w) == snap.key_of(
                            w,
                        ) by {
                            assert(mid.key_of(w) == snap.key_of(w));
                            if w != pi {
                                assert(self.nodes@[w] == mid.nodes@[w]);
                            }
                        }
                        assert forall|w: int|
                            0 <= w <= new_idx implies #[trigger] self.value_of(w) == snap.value_of(
                            w,
                        ) by {
                            assert(mid.value_of(w) == snap.value_of(w));
                            if w != pi {
                                assert(self.nodes@[w] == mid.nodes@[w]);
                            }
                        }
                        assert forall|w: int|
                            0 <= w <= new_idx implies #[trigger] self.height_of(w)
                                == snap.height_of(w) by {
                            assert(mid.height_of(w) == snap.height_of(w));
                            if w != pi {
                                assert(self.nodes@[w] == mid.nodes@[w]);
                            }
                        }
                        assert forall|w: int, l: int|
                            0 <= w <= new_idx && 0 <= l < snap.height_of(w)
                                implies #[trigger] self.link_of(w, l) == (if l < bound && w
                                == prev@[l] as int {
                                Some(new_idx)
                            } else {
                                snap.link_of(w, l)
                            }) by {
                            assert(mid.link_of(w, l) == (if l < lvl2 as int && w
                                == prev@[l] as int {
                                Some(new_idx)
                            } else {
                                snap.link_of(w, l)
                            }));
                            if w == pi {
                                if l == lvl2 as int {
                                    assert(self.link_of(w, l) == Some(new_idx));
                                } else {
                                    assert(self.nodes@[w].links@[l] == mid.nodes@[w].links@[l]);
                                }
                            } else {
                                assert(self.nodes@[w] == mid.nodes@[w]);
                            }
                        }
                    }
                    lvl2 = lvl2 + 1;
                }
                let ghost done = *self;
                if height > self.current_height {
                    self.current_height = height;
                }
                self.current_size = self.current_size + 1;
                proof {
                    assert(self.nodes@ == done.nodes@);
                    assert forall|w: int| 0 <= w < new_idx implies #[trigger] self.key_of(w)
                        == o.key_of(w) by {
                        assert(done.key_of(w) == snap.key_of(w));
                        assert(self.key_of(w) == done.key_of(w));
                    }
                    assert forall|w: int| 0 <= w < new_idx implies #[trigger] self.value_of(w)
                        == o.value_of(w) by {
                        assert(done.value_of(w) == snap.value_of(w));
                        assert(self.value_of(w) == done.value_of(w));
                    }
                    assert forall|w: int| 0 <= w < new_idx implies #[trigger] self.height_of(w)
                        == o.height_of(w) by {
                        assert(done.height_of(w) == snap.height_of(w));
                        assert(self.height_of(w) == done.height_of(w));
                    }
                    assert(done.key_of(new_idx as int) == key as int);
                    assert(self.key_of(new_idx as int) == key as int);
                    assert(done.value_of(new_idx as int) == value);
                    assert(self.value_of(new_idx as int) == value);
                    assert(done.height_of(new_idx as int) == height);
                    assert(self.height_of(new_idx as int) == height);
                    assert forall|w: int, l: int|
                        0 <= w < new_idx && 0 <= l < o.height_of(w)
                            implies #[trigger] self.link_of(w, l) == (if l < height && w
                            == prev@[l] as int {
                            Some(new_idx)
                        } else {
                            o.link_of(w, l)
                        }) by {
                        assert(done.height_of(w) == snap.height_of(w));
                        assert(snap.height_of(w) == o.height_of(w));
                        assert(done.link_of(w, l) == (if l < height && w == prev@[l] as int {
                            Some(new_idx)
                        } else {
                            snap.link_of(w, l)
                        }));
                        assert(self.link_of(w, l) == done.link_of(w, l));
                        if !(l < height && w == prev@[l] as int) {
                            assert(snap.link_of(w, l) == o.link_of(w, l));
                        }
                    }
                    assert forall|l: int|
                        0 <= l < height implies #[trigger] self.link_of(new_idx as int, l)
                            == o.link_of(prev@[l] as int, l) by {
                        assert(done.height_of(new_idx as int) == height);
                        assert(prev@[l] < new_idx);
                        assert(done.link_of(new_idx as int, l) == snap.link_of(new_idx as int, l));
                        assert(self.link_of(new_idx as int, l) == done.link_of(
                            new_idx as int,
                            l,
                        ));
                    }
                    Self::lemma_splice_preserves(
                        o,
                        *self,
                        prev@,
                        new_idx as int,
                        key,
                        value,
                        height as int,
                    );
                }
            },
        }
    }

    /// Mapping an index set through `key_of` keeps its size: keys are
    /// distinct, so the mapping is injective.
    proof fn lemma_key_card(self, s: Set<int>, ks: Set<int>)
        requires
            self.wf(),
            s.finite(),
            forall|i: int| s.contains(i) ==> self.is_real(i),
            ks == s.map(|i: int| self.key_of(i)),
        ensures
            ks.finite(),
            ks.len() == s.len(),
    {
        let f = |i: int| self.key_of(i);
        assert(vstd::relations::injective_on(f, s)) by {
            assert forall|x1: int, x2: int|
                s.contains(x1) && s.contains(x2) && #[trigger] f(x1) == #[trigger] f(x2)
                    implies x1 == x2 by {
                assert(self.key_of(x1) == self.key_of(x2));
            }
        }
        vstd::set_lib::lemma_map_size(s, ks, f);
    }

    /// The stored key set has exactly one key per entry.
    proof fn lemma_entry_count(self)
        requires
            self.wf(),
        ensures
            self.key_set().finite(),
            self.key_set().len() == self.num_entries(),
    {
        let n = self.nodes@.len() as int;
        let s = vstd::set_lib::set_int_range(1, n);
        vstd::set_lib::lemma_int_range(1, n);
        let f = |i: int| self.key_of(i);
        assert(self.key_set() =~= s.map(f)) by {
            assert forall|k: int| self.key_set().contains(k) implies s.map(f).contains(k) by {
                let i = choose|i: int| self.is_real(i) && self.key_of(i) == k;
                assert(s.contains(i) && f(i) == k);
            }
            assert forall|k: int| s.map(f).contains(k) implies self.key_set().contains(k) by {
                let i = choose|i: int| s.contains(i) && f(i) == k;
                assert(self.is_real(i) && self.key_of(i) == k);
            }
        }
        self.lemma_key_card(s, self.key_set());
    }

    /// The number of entries currently stored.
    pub fn len(&self) -> (r: usize)
        requires
            self.wf(),
        ensures
            r == self.num_entries(),
            r == self.key_set().len(),
    {
        proof {
            self.lemma_entry_count();
        }
        self.current_size
    }

    /// True iff an entry with this exact key is stored.
    pub fn contains(&self, key: i64) -> (r: bool)
        requires
            self.wf(),
        ensures
            r == self.key_set().contains(key as int),
            r == self.as_map().dom().contains(key as int),
    {
        let (found, _) = self.find_predecessors(key);
        found.is_some()
    }

    /// The payload stored with this key, if the key is present.
    pub fn get(&self, key: i64) -> (r: Option<u64>)
        requires
            self.wf(),
        ensures
            match r {
                Some(v) => self.as_map().dom().contains(key as int) && v == self.as_map()[key as int],
                None => !self.as_map().dom().contains(key as int),
            },
    {
        let (found, _) = self.find_predecessors(key);
        match found {
            Some(i) => {
                proof {
                    let w = choose|w: int| self.is_real(w) && self.key_of(w) == key as int;
                    assert(self.key_of(w) == self.key_of(i as int));
                    assert(w == i as int);
                }
                Some(self.nodes[i].value)
            },
            None => None,
        }
    }

    /// The keys stored strictly below `t`.
    pub open spec fn keys_below(self, t: int) -> Set<int> {
        Set::new(|k: int| self.key_set().contains(k) && k < t)
    }

    /// The real nodes whose key lies strictly below `t`.
    spec fn idx_below(self, t: int) -> Set<int> {
        Set::new(|i: int| self.is_real(i) && self.key_of(i) < t)
    }

    /// The real nodes whose key is at most `c`.
    spec fn idx_at_most(self, c: int) -> Set<int> {
        Set::new(|i: int| self.is_real(i) && self.key_of(i) <= c)
    }

    proof fn lemma_idx_finite(self, s: Set<int>)
        requires
            self.nodes@.len() >= 1,
            forall|i: int| s.contains(i) ==> self.is_real(i),
        ensures
            s.finite(),
            s.len() <= self.nodes@.len() - 1,
    {
        let r = vstd::set_lib::set_int_range(1, self.nodes@.len() as int);
        vstd::set_lib::lemma_int_range(1, self.nodes@.len() as int);
        assert(s.subset_of(r));
        vstd::set_lib::lemma_len_subset(s, r);
    }

    /// The number of entries whose key is strictly less than `key`: the
    /// documented meaning of the count estimate, realised exactly by walking
    /// the base level up to the key.
    pub fn estimate_count(&self, key: i64) -> (r: u64)
        requires
            self.wf(),
        ensures
            r == self.keys_below(key as int).len(),
    {
        let ghost t = key as int;
        let n = self.nodes.len();
        let mut current: usize = 0;
        let mut count: usize = 0;
        proof {
            assert(self.idx_at_most(self.key_floor(0)) =~= Set::<int>::empty());
            self.lemma_idx_finite(self.idx_at_most(self.key_floor(0)));
        }
        loop
            invariant
                self.wf(),
                t == key as int,
                n == self.nodes@.len(),
                current == 0 || (self.is_real(current as int) && self.key_of(current as int) < t),
                current < n,
                0 < self.height_of(current as int),
                count == self.idx_at_most(self.key_floor(current as int)).len(),
                self.idx_at_most(self.key_floor(current as int)).finite(),
                count <= n - 1,
            ensures
                current == 0 || (self.is_real(current as int) && self.key_of(current as int) < t),
                count == self.idx_at_most(self.key_floor(current as int)).len(),
                self.link_of(current as int, 0) matches Some(j) ==> self.key_of(j as int) >= t,
                self.link_of(current as int, 0) is None ==> forall|m: int|
                    self.on_level(m, 0) ==> self.key_of(m) <= self.key_floor(current as int),
            decreases self.above_set(self.key_floor(current as int)).len(),
        {
            proof {
                assert(self.link_ok(current as int, 0));
            }
            match self.nodes[current].next(0) {
                None => {
                    break ;
                },
                Some(j) => {
                    if self.nodes[j].key < key {
                        proof {
                            let c = self.key_floor(current as int);
                            let cj = self.key_of(j as int);
                            assert(self.idx_at_most(cj) =~= self.idx_at_most(c).insert(
                                j as int,
                            )) by {
                                assert forall|m: int| self.idx_at_most(cj).contains(m)
                                    implies self.idx_at_most(c).insert(j as int).contains(m) by {
                                    if m != j as int && self.key_of(m) > c {
                                        assert(self.on_level(m, 0));
                                        assert(self.key_of(m) >= cj);
                                        assert(self.key_of(m) == cj);
                                        assert(false);
                                    }
                                }
                            }
                            assert(!self.idx_at_most(c).contains(j as int));
                            self.lemma_idx_finite(self.idx_at_most(cj));
                            self.lemma_above_set_strict(c, j as int);
                            self.lemma_idx_finite(self.idx_at_most(c));
                        }
                        count = count + 1;
                        current = j;
                    } else {
                        break ;
                    }
                },
            }
        }
        proof {
            let c = self.key_floor(current as int);
            assert(self.idx_below(t) =~= self.idx_at_most(c)) by {
                assert forall|m: int| self.idx_below(t).contains(m) implies self.idx_at_most(
                    c,
                ).contains(m) by {
                    assert(self.on_level(m, 0));
                    if self.key_of(m) > c {
                        match self.link_of(current as int, 0) {
                            Some(j) => {
                                assert(self.link_ok(current as int, 0));
                                assert(self.key_of(m) >= self.key_of(j as int));
                                assert(false);
                            },
                            None => {
                                assert(false);
                            },
                        }
                    }
                }
            }
            self.lemma_idx_finite(self.idx_below(t));
            assert(self.keys_below(t) =~= self.idx_below(t).map(|i: int| self.key_of(i))) by {
                let f = |i: int| self.key_of(i);
                assert forall|k: int| self.keys_below(t).contains(k) implies self.idx_below(t).map(
                    f,
                ).contains(k) by {
                    let i = choose|i: int| self.is_real(i) && self.key_of(i) == k;
                    assert(self.idx_below(t).contains(i) && f(i) == k);
                }
                assert forall|k: int| self.idx_below(t).map(f).contains(k)
                    implies self.keys_below(t).contains(k) by {
                    let i = choose|i: int| self.idx_below(t).contains(i) && f(i) == k;
                    assert(self.is_real(i) && self.key_of(i) == k);
                }
            }
            self.lemma_key_card(self.idx_below(t), self.keys_below(t));
        }
        count as u64
    }

    /// Some stored key is at least `t`.
    pub open spec fn has_ge(self, t: int) -> bool {
        exists|k: int| self.key_set().contains(k) && k >= t
    }

    /// `k` is the least stored key that is at least `t`.
    pub open spec fn is_least_ge(self, t: int, k: int) -> bool {
        &&& self.key_set().contains(k)
        &&& k >= t
        &&& forall|m: int| self.key_set().contains(m) && m >= t ==> m >= k
    }

    /// `s` lists, first to last, exactly the keys that a full forward walk of
    /// the base level visits: each entry is the least stored key above its
    /// predecessor, and nothing is stored beyond the last.
    pub open spec fn is_full_traversal(self, s: Seq<int>) -> bool {
        &&& (s.len() == 0 ==> !self.has_ge(i64::MIN as int))
        &&& (s.len() > 0 ==> self.is_least_ge(i64::MIN as int, s[0]))
        &&& forall|p: int| 0 < p < s.len() ==> self.is_least_ge(s[p - 1] + 1, #[trigger] s[p])
        &&& (s.len() > 0 ==> !self.has_ge(s[s.len() - 1] + 1))
    }

    /// The node holding the least stored key at least `target`, if any: the
    /// downward search stopped at the first candidate not below the target.
    fn find_ge(&self, target: i64) -> (r: Option<usize>)
        requires
            self.wf(),
        ensures
            match r {
                Some(j) => self.is_real(j as int) && self.is_least_ge(
                    target as int,
                    self.key_of(j as int),
                ),
                None => !self.has_ge(target as int),
            },
    {
        let ghost t = target as int;
        let (_found, prev) = self.find_predecessors(target);
        let p0 = prev[0];
        proof {
            assert(self.is_pred(p0 as int, 0, t));
            if p0 != 0 {
                assert(self.height_of(p0 as int) >= 1);
            }
            assert(self.link_ok(p0 as int, 0));
        }
        let r = self.nodes[p0].next(0);
        proof {
            match r {
                Some(j) => {
                    assert(self.on_level(j as int, 0));
                    if self.key_of(j as int) < t {
                        assert(self.key_of(j as int) <= self.key_floor(p0 as int));
                        assert(false);
                    }
                    assert(self.key_set().contains(self.key_of(j as int)));
                    assert forall|m: int| self.key_set().contains(m) && m >= t implies m
                        >= self.key_of(j as int) by {
                        let i = choose|i: int| self.is_real(i) && self.key_of(i) == m;
                        assert(self.on_level(i, 0));
                        assert(self.key_of(i) > self.key_floor(p0 as int));
                    }
                },
                None => {
                    if self.has_ge(t) {
                        let m = choose|k: int| self.key_set().contains(k) && k >= t;
                        let i = choose|i: int| self.is_real(i) && self.key_of(i) == m;
                        assert(self.on_level(i, 0));
                        assert(self.key_of(i) <= self.key_floor(p0 as int));
                        assert(false);
                    }
                },
            }
        }
        r
    }

    /// All stored keys in ascending order, read off the base level.
    pub fn keys_in_order(&self) -> (r: Vec<i64>)
        requires
            self.wf(),
        ensures
            self.is_full_traversal(r@.map_values(|x: i64| x as int)),
    {
        let mut r: Vec<i64> = Vec::new();
        let mut current: usize = 0;
        loop
            invariant
                self.wf(),
                current == 0 || self.is_real(current as int),
                current < self.nodes@.len(),
                0 < self.height_of(current as int),
                ({
                    let s = r@.map_values(|x: i64| x as int);
                    &&& (current == 0 ==> s.len() == 0)
                    &&& (current != 0 ==> s.len() > 0 && s[s.len() - 1] == self.key_of(
                        current as int,
                    ))
                    &&& (s.len() > 0 ==> self.is_least_ge(i64::MIN as int, s[0]))
                    &&& forall|p: int|
                        0 < p < s.len() ==> self.is_least_ge(s[p - 1] + 1, #[trigger] s[p])
                }),
            ensures
                ({
                    let s = r@.map_values(|x: i64| x as int);
                    self.is_full_traversal(s)
                }),
            decreases self.above_set(self.key_floor(current as int)).len(),
        {
            proof {
                assert(self.link_ok(current as int, 0));
            }
            match self.nodes[current].next(0) {
                None => {
                    proof {
                        let s = r@.map_values(|x: i64| x as int);
                        if s.len() == 0 {
                            if self.has_ge(i64::MIN as int) {
                                let m = choose|k: int|
                                    self.key_set().contains(k) && k >= i64::MIN as int;
                                let i = choose|i: int| self.is_real(i) && self.key_of(i) == m;
                                assert(self.on_level(i, 0));
                                assert(false);
                            }
                        } else {
                            if self.has_ge(s[s.len() - 1] + 1) {
                                let m = choose|k: int|
                                    self.key_set().contains(k) && k >= s[s.len() - 1] + 1;
                                let i = choose|i: int| self.is_real(i) && self.key_of(i) == m;
                                assert(self.on_level(i, 0));
                                assert(self.key_of(i) <= self.key_floor(current as int));
                                assert(false);
                            }
                        }
                    }
                    break ;
                },
                Some(j) => {
                    proof {
                        let s = r@.map_values(|x: i64| x as int);
                        let c = self.key_floor(current as int);
                        let kj = self.key_of(j as int);
                        assert(self.on_level(j as int, 0));
                        assert(self.key_set().contains(kj));
                        assert(self.is_least_ge(c + 1, kj)) by {
                            assert forall|m: int| self.key_set().contains(m) && m >= c + 1
                                implies m >= kj by {
                                let i = choose|i: int| self.is_real(i) && self.key_of(i) == m;
                                assert(self.on_level(i, 0));
                                assert(self.key_of(i) > c);
                            }
                        }
                        self.lemma_above_set_strict(c, j as int);
                    }
                    let ghost old_r = r@;
                    r.push(self.nodes[j].key);
                    proof {
                        assert(r@.map_values(|x: i64| x as int) =~= old_r.map_values(
                            |x: i64| x as int,
                        ).push(self.key_of(j as int)));
                    }
                    current = j;
                },
            }
        }
        r
    }

    /// The keys of the nodes linked on the given level, in ascending order.
    pub fn level_keys(&self, level: usize) -> (r: Vec<i64>)
        requires
            self.wf(),
            level < self.max_height_spec(),
        ensures
            forall|p: int| 0 < p < r@.len() ==> r@[p - 1] < #[trigger] r@[p],
            forall|p: int|
                0 <= p < r@.len() ==> exists|i: int|
                    self.on_level(i, level as int) && self.key_of(i) == #[trigger] r@[p] as int,
            forall|i: int|
                self.on_level(i, level as int) ==> r@.map_values(|x: i64| x as int).contains(
                    #[trigger] self.key_of(i),
                ),
    {
        let mut r: Vec<i64> = Vec::new();
        let mut current: usize = 0;
        loop
            invariant
                self.wf(),
                level < self.max_height,
                current == 0 || self.on_level(current as int, level as int),
                current < self.nodes@.len(),
                level < self.height_of(current as int),
                current == 0 ==> r@.len() == 0,
                current != 0 ==> r@.len() > 0 && r@[r@.len() - 1] as int == self.key_of(
                    current as int,
                ),
                forall|p: int| 0 < p < r@.len() ==> r@[p - 1] < #[trigger] r@[p],
                forall|p: int|
                    0 <= p < r@.len() ==> exists|i: int|
                        self.on_level(i, level as int) && self.key_of(i) == #[trigger] r@[p] as int,
                forall|i: int|
                    self.on_level(i, level as int) && self.key_of(i) <= self.key_floor(
                        current as int,
                    ) ==> r@.map_values(|x: i64| x as int).contains(#[trigger] self.key_of(i)),
            ensures
                forall|p: int| 0 < p < r@.len() ==> r@[p - 1] < #[trigger] r@[p],
                forall|p: int|
                    0 <= p < r@.len() ==> exists|i: int|
                        self.on_level(i, level as int) && self.key_of(i) == #[trigger] r@[p] as int,
                forall|i: int|
                    self.on_level(i, level as int) ==> r@.map_values(|x: i64| x as int).contains(
                        #[trigger] self.key_of(i),
                    ),
            decreases self.above_set(self.key_floor(current as int)).len(),
        {
            proof {
                assert(self.link_ok(current as int, level as int));
            }
            match self.nodes[current].next(level) {
                None => {
                    proof {
                        assert forall|i: int| self.on_level(i, level as int) implies r@.map_values(
                            |x: i64| x as int,
                        ).contains(#[trigger] self.key_of(i)) by {
                            assert(self.key_of(i) <= self.key_floor(current as int));
                        }
                    }
                    break ;
                },
                Some(j) => {
                    proof {
                        let c = self.key_floor(current as int);
                        assert(self.on_level(j as int, level as int));
                        assert(self.key_of(j as int) > c);
                        self.lemma_above_set_strict(c, j as int);
                    }
                    let ghost old_r = r@;
                    r.push(self.nodes[j].key);
                    proof {
                        let s = r@.map_values(|x: i64| x as int);
                        let olds = old_r.map_values(|x: i64| x as int);
                        assert(s =~= olds.push(self.key_of(j as int)));
                        assert forall|i: int|
                            self.on_level(i, level as int) && self.key_of(i) <= self.key_floor(
                                j as int,
                            ) implies s.contains(#[trigger] self.key_of(i)) by {
                            if self.key_of(i) <= self.key_floor(current as int) {
                                assert(olds.contains(self.key_of(i)));
                                let p = choose|p: int|
                                    0 <= p < olds.len() && olds[p] == self.key_of(i);
                                assert(s[p] == self.key_of(i));
                            } else {
                                assert(self.key_of(i) >= self.key_of(j as int));
                                assert(self.key_of(i) == self.key_of(j as int));
                                assert(s[s.len() - 1] == self.key_of(i));
                            }
                        }
                    }
                    current = j;
                },
            }
        }
        r
    }

    /// Stored keys are representable: the key set only ever holds `i64`
    /// values.
    proof fn lemma_key_range(self, k: int)
        requires
            self.key_set().contains(k),
        ensures
            i64::MIN <= k <= i64::MAX,
    {
        let i = choose|i: int| self.is_real(i) && self.key_of(i) == k;
        assert(self.key_of(i) == k);
    }

    /// Level inclusion: a node linked at some level is linked at every lower
    /// level, so each level's node set is a subset of the one below it.
    pub proof fn lemma_level_inclusion(self, i: int, lvl: int)
        requires
            self.wf(),
            self.on_level(i, lvl),
            0 < lvl,
        ensures
            self.on_level(i, lvl - 1),
    {
    }

    proof fn lemma_traversal_ascending_step(self, s: Seq<int>, p: int, q: int)
        requires
            self.is_full_traversal(s),
            0 <= p < q < s.len(),
        ensures
            s[p] < s[q],
        decreases q - p,
    {
        assert(self.is_least_ge(s[q - 1] + 1, s[q]));
        if q > p + 1 {
            self.lemma_traversal_ascending_step(s, p, q - 1);
        }
    }

    /// Ordering invariant: a full forward traversal of the base level yields
    /// strictly ascending keys, hence no duplicates.
    pub proof fn lemma_traversal_ascending(self, s: Seq<int>)
        requires
            self.wf(),
            self.is_full_traversal(s),
        ensures
            forall|p: int, q: int| 0 <= p < q < s.len() ==> s[p] < s[q],
            s.no_duplicates(),
    {
        assert forall|p: int, q: int| 0 <= p < q < s.len() implies s[p] < s[q] by {
            self.lemma_traversal_ascending_step(s, p, q);
        }
        assert forall|p: int, q: int|
            0 <= p < s.len() && 0 <= q < s.len() && p != q implies s[p] != s[q] by {
            if p < q {
                self.lemma_traversal_ascending_step(s, p, q);
            } else {
                self.lemma_traversal_ascending_step(s, q, p);
            }
        }
    }

    proof fn lemma_traversal_covers(self, s: Seq<int>, k: int, p: int)
        requires
            self.wf(),
            self.is_full_traversal(s),
            self.key_set().contains(k),
            0 <= p < s.len(),
            k <= s[p],
        ensures
            s.contains(k),
        decreases p,
    {
        if p == 0 {
            self.lemma_key_range(k);
            assert(self.is_least_ge(i64::MIN as int, s[0]));
            assert(k >= s[0]);
            assert(s[0] == k);
        } else {
            if k <= s[p - 1] {
                self.lemma_traversal_covers(s, k, p - 1);
            } else {
                assert(self.is_least_ge(s[p - 1] + 1, s[p]));
                assert(k >= s[p]);
                assert(s[p] == k);
            }
        }
    }

    /// A full traversal visits exactly the stored keys: every stored key
    /// appears, nothing else does, and the walk's length is the entry count.
    pub proof fn lemma_traversal_enumerates(self, s: Seq<int>)
        requires
            self.wf(),
            self.is_full_traversal(s),
        ensures
            forall|k: int| #[trigger] s.contains(k) <==> self.key_set().contains(k),
            s.len() == self.key_set().len(),
            s.len() == self.num_entries(),
    {
        assert forall|k: int| #[trigger] s.contains(k) implies self.key_set().contains(k) by {
            let p = choose|p: int| 0 <= p < s.len() && s[p] == k;
            if p == 0 {
                assert(self.is_least_ge(i64::MIN as int, s[0]));
            } else {
                assert(self.is_least_ge(s[p - 1] + 1, s[p]));
            }
        }
        assert forall|k: int| self.key_set().contains(k) implies #[trigger] s.contains(k) by {
            self.lemma_key_range(k);
            if s.len() == 0 {
                assert(self.has_ge(i64::MIN as int));
                assert(false);
            } else {
                if k > s[s.len() - 1] {
                    assert(self.has_ge(s[s.len() - 1] + 1));
                    assert(false);
                }
                self.lemma_traversal_covers(s, k, s.len() - 1);
            }
        }
        self.lemma_traversal_ascending(s);
        s.unique_seq_to_set();
        assert(s.to_set() =~= self.key_set()) by {
            assert forall|k: int| s.to_set().contains(k) implies self.key_set().contains(k) by {
                assert(s.contains(k));
            }
            assert forall|k: int| self.key_set().contains(k) implies s.to_set().contains(k) by {
                assert(s.contains(k));
                let p = choose|p: int| 0 <= p < s.len() && s[p] == k;
                assert(s.to_set().contains(s[p]));
            }
        }
        self.lemma_entry_count();
    }

    proof fn lemma_traversal_prefix_eq(self, s1: Seq<int>, s2: Seq<int>, p: int)
        requires
            self.wf(),
            self.is_full_traversal(s1),
            self.is_full_traversal(s2),
            0 <= p < s1.len(),
            p < s2.len(),
        ensures
            s1[p] == s2[p],
        decreases p,
    {
        if p == 0 {
            assert(self.is_least_ge(i64::MIN as int, s1[0]));
            assert(self.is_least_ge(i64::MIN as int, s2[0]));
            assert(s1[0] >= s2[0]);
            assert(s2[0] >= s1[0]);
        } else {
            self.lemma_traversal_prefix_eq(s1, s2, p - 1);
            assert(self.is_least_ge(s1[p - 1] + 1, s1[p]));
            assert(self.is_least_ge(s2[p - 1] + 1, s2[p]));
            assert(s1[p] >= s2[p]);
            assert(s2[p] >= s1[p]);
        }
    }

    /// Idempotent re-traversal: any two full forward walks of the same list
    /// read off the same key sequence, so positioning at the first entry and
    /// advancing to the end reproduces exactly what a fresh walk yields.
    pub proof fn lemma_traversal_reproducible(self, s1: Seq<int>, s2: Seq<int>)
        requires
            self.wf(),
            self.is_full_traversal(s1),
            self.is_full_traversal(s2),
        ensures
            s1 == s2,
    {
        if s1.len() < s2.len() {
            if s1.len() == 0 {
                assert(self.is_least_ge(i64::MIN as int, s2[0]));
                self.lemma_key_range(s2[0]);
                assert(self.has_ge(i64::MIN as int));
                assert(false);
            } else {
                let e = s1.len() - 1;
                self.lemma_traversal_prefix_eq(s1, s2, e);
                assert(self.is_least_ge(s2[e] + 1, s2[e + 1]));
                assert(self.has_ge(s1[e] + 1));
                assert(false);
            }
        }
        if s2.len() < s1.len() {
            if s2.len() == 0 {
                assert(self.is_least_ge(i64::MIN as int, s1[0]));
                self.lemma_key_range(s1[0]);
                assert(self.has_ge(i64::MIN as int));
                assert(false);
            } else {
                let e = s2.len() - 1;
                self.lemma_traversal_prefix_eq(s1, s2, e);
                assert(self.is_least_ge(s1[e] + 1, s1[e + 1]));
                assert(self.has_ge(s2[e] + 1));
                assert(false);
            }
        }
        assert forall|p: int| 0 <= p < s1.len() implies s1[p] == s2[p] by {
            self.lemma_traversal_prefix_eq(s1, s2, p);
        }
        assert(s1 =~= s2);
    }

    /// Consumes the list, yielding a cursor that stands before the first
    /// entry: its first `next` returns the smallest stored key.
    pub fn into_iter(self) -> (r: LinkedListSkipListIterator)
        requires
            self.wf(),
        ensures
            r.wf(),
            r.list_spec() == self,
            !r.valid_spec(),
            !r.at_end(),
            r.lower_bound() == i64::MIN - 1,
    {
        LinkedListSkipListIterator { skip_list: self, current: Some(0) }
    }
}

/// A forward cursor over a skip list, which it owns. It is either positioned
/// at a stored entry (valid), or it holds no entry: fresh from `into_iter`
/// and not yet positioned, or past the last entry / beyond every sought key.
pub struct LinkedListSkipListIterator {
    skip_list: LinkedListSkipList,
    current: Option<usize>,
}

impl LinkedListSkipListIterator {
    /// The list the cursor walks.
    pub closed spec fn list_spec(self) -> LinkedListSkipList {
        self.skip_list
    }

    /// The cursor's invariant: the list's own, and a position inside the
    /// arena (the head standing for "not yet positioned").
    pub closed spec fn wf(self) -> bool {
        &&& self.skip_list.wf()
        &&& match self.current {
            Some(i) => i == 0 || self.skip_list.is_real(i as int),
            None => true,
        }
    }

    /// True when the cursor stands at a stored entry.
    pub closed spec fn valid_spec(self) -> bool {
        match self.current {
            Some(i) => self.skip_list.is_real(i as int),
            None => false,
        }
    }

    /// The key at the cursor's position; meaningful only when valid.
    pub closed spec fn cur_key(self) -> int {
        match self.current {
            Some(i) => self.skip_list.key_of(i as int),
            None => 0,
        }
    }

    /// True when the cursor has run past every entry it can reach: a `next`
    /// from here yields nothing.
    pub closed spec fn at_end(self) -> bool {
        self.current is None
    }

    /// The bound below which the cursor will not look again: its own key when
    /// positioned, below every key when fresh. `next` yields the least stored
    /// key above this bound.
    pub closed spec fn lower_bound(self) -> int {
        match self.current {
            Some(i) => self.skip_list.key_floor(i as int),
            None => 0,
        }
    }

    /// A valid cursor is never at the end, and the bound it has passed is
    /// exactly the key it stands at: after any positioning call that lands on
    /// an entry, `next` yields that entry's successor.
    pub proof fn lemma_valid_position(self)
        requires
            self.wf(),
            self.valid_spec(),
        ensures
            !self.at_end(),
            self.lower_bound() == self.cur_key(),
    {
    }

    /// True iff the cursor stands at a stored entry.
    pub fn valid(&self) -> (r: bool)
        requires
            self.wf(),
        ensures
            r == self.valid_spec(),
    {
        match self.current {
            Some(i) => i != 0,
            None => false,
        }
    }

    /// The key at the cursor's position. The cursor must be valid: calling
    /// this while invalid is a contract violation, caught by verification.
    pub fn key(&self) -> (r: i64)
        requires
            self.wf(),
            self.valid_spec(),
        ensures
            r as int == self.cur_key(),
    {
        let i = self.current.unwrap();
        self.skip_list.nodes[i].key
    }

    /// Moves to the entry after the current one: the least stored key above
    /// it. The cursor becomes invalid exactly when no entry follows. Requires
    /// a valid cursor.
    pub fn advance(&mut self)
        requires
            old(self).wf(),
            old(self).valid_spec(),
        ensures
            final(self).wf(),
            final(self).list_spec() == old(self).list_spec(),
            final(self).valid_spec() <==> old(self).list_spec().has_ge(old(self).cur_key() + 1),
            final(self).valid_spec() ==> final(self).list_spec().is_least_ge(
                old(self).cur_key() + 1,
                final(self).cur_key(),
            ),
            !final(self).valid_spec() ==> final(self).at_end(),
    {
        let i = self.current.unwrap();
        proof {
            assert(self.skip_list.height_of(i as int) >= 1);
            assert(self.skip_list.link_ok(i as int, 0));
        }
        let ghost l = self.skip_list;
        let ghost c = l.key_of(i as int);
        let nxt = self.skip_list.nodes[i].next(0);
        match nxt {
            Some(j) => {
                self.current = Some(j);
                proof {
                    assert(l.on_level(j as int, 0));
                    let kj = l.key_of(j as int);
                    assert(l.key_set().contains(kj));
                    assert(l.is_least_ge(c + 1, kj)) by {
                        assert forall|m: int| l.key_set().contains(m) && m >= c + 1 implies m
                            >= kj by {
                            let w = choose|w: int| l.is_real(w) && l.key_of(w) == m;
                            assert(l.on_level(w, 0));
                            assert(l.key_of(w) > c);
                        }
                    }
                }
            },
            None => {
                self.current = None;
                proof {
                    if l.has_ge(c + 1) {
                        let m = choose|k: int| l.key_set().contains(k) && k >= c + 1;
                        let w = choose|w: int| l.is_real(w) && l.key_of(w) == m;
                        assert(l.on_level(w, 0));
                        assert(l.key_of(w) <= c);
                        assert(false);
                    }
                }
            },
        }
    }

    /// Positions the cursor at the entry with the least stored key at least
    /// `target`, or leaves it invalid exactly when every stored key is below
    /// `target`.
    pub fn seek(&mut self, target: i64)
        requires
            old(self).wf(),
        ensures
            final(self).wf(),
            final(self).list_spec() == old(self).list_spec(),
            final(self).valid_spec() <==> old(self).list_spec().has_ge(target as int),
            final(self).valid_spec() ==> final(self).list_spec().is_least_ge(
                target as int,
                final(self).cur_key(),
            ),
            !final(self).valid_spec() ==> final(self).at_end(),
    {
        let r = self.skip_list.find_ge(target);
        match r {
            Some(j) => {
                self.current = Some(j);
            },
            None => {
                self.current = None;
            },
        }
    }

    /// Positions the cursor at the entry with the smallest stored key; it is
    /// valid afterwards exactly when the list holds any entry.
    pub fn seek_to_first(&mut self)
        requires
            old(self).wf(),
        ensures
            final(self).wf(),
            final(self).list_spec() == old(self).list_spec(),
            final(self).valid_spec() <==> old(self).list_spec().num_entries() > 0,
            final(self).valid_spec() <==> old(self).list_spec().has_ge(i64::MIN as int),
            final(self).valid_spec() ==> final(self).list_spec().is_least_ge(
                i64::MIN as int,
                final(self).cur_key(),
            ),
            !final(self).valid_spec() ==> final(self).at_end(),
    {
        let ghost l = self.skip_list;
        proof {
            assert(l.link_ok(0, 0));
        }
        let nxt = self.skip_list.nodes[0].next(0);
        match nxt {
            Some(j) => {
                self.current = Some(j);
                proof {
                    assert(l.on_level(j as int, 0));
                    let kj = l.key_of(j as int);
                    assert(l.key_set().contains(kj));
                    assert forall|m: int| l.key_set().contains(m) && m >= i64::MIN as int
                        implies m >= kj by {
                        let w = choose|w: int| l.is_real(w) && l.key_of(w) == m;
                        assert(l.on_level(w, 0));
                        assert(l.key_of(w) > l.key_floor(0));
                    }
                }
            },
            None => {
                self.current = None;
                proof {
                    if l.num_entries() > 0 {
                        assert(l.on_level(1, 0));
                        assert(l.key_of(1) <= l.key_floor(0));
                        assert(false);
                    }
                    if l.has_ge(i64::MIN as int) {
                        let m = choose|k: int| l.key_set().contains(k) && k >= i64::MIN as int;
                        let w = choose|w: int| l.is_real(w) && l.key_of(w) == m;
                        assert(l.on_level(w, 0));
                        assert(false);
                    }
                }
            },
        }
    }

    /// One step of iteration: yields the least stored key above the bound the
    /// cursor has passed and stands there, or yields nothing and is at the
    /// end. A fresh cursor therefore yields every stored key in ascending
    /// order, one `next` at a time.
    pub fn next(&mut self) -> (r: Option<i64>)
        requires
            old(self).wf(),
        ensures
            final(self).wf(),
            final(self).list_spec() == old(self).list_spec(),
            old(self).at_end() ==> r is None && final(self).at_end(),
            !old(self).at_end() ==> match r {
                Some(k) => {
                    &&& final(self).valid_spec()
                    &&& !final(self).at_end()
                    &&& final(self).cur_key() == k as int
                    &&& final(self).lower_bound() == k as int
                    &&& final(self).list_spec().is_least_ge(old(self).lower_bound() + 1, k as int)
                },
                None => {
                    &&& !old(self).list_spec().has_ge(old(self).lower_bound() + 1)
                    &&& final(self).at_end()
                },
            },
    {
        match self.current {
            None => None,
            Some(i) => {
                proof {
                    if i != 0 {
                        assert(self.skip_list.height_of(i as int) >= 1);
                    }
                    assert(self.skip_list.link_ok(i as int, 0));
                }
                let ghost l = self.skip_list;
                let ghost c = l.key_floor(i as int);
                let nxt = self.skip_list.nodes[i].next(0);
                match nxt {
                    Some(j) => {
                        self.current = Some(j);
                        proof {
                            assert(l.on_level(j as int, 0));
                            let kj = l.key_of(j as int);
                            assert(l.key_set().contains(kj));
                            assert forall|m: int| l.key_set().contains(m) && m >= c + 1 implies m
                                >= kj by {
                                let w = choose|w: int| l.is_real(w) && l.key_of(w) == m;
                                assert(l.on_level(w, 0));
                                assert(l.key_of(w) > c);
                            }
                        }
                        Some(self.skip_list.nodes[j].key)
                    },
                    None => {
                        self.current = None;
                        proof {
                            if l.has_ge(c + 1) {
                                let m = choose|k: int| l.key_set().contains(k) && k >= c + 1;
                                let w = choose|w: int| l.is_real(w) && l.key_of(w) == m;
                                assert(l.on_level(w, 0));
                                assert(l.key_of(w) <= c);
                                assert(false);
                            }
                        }
                        None
                    },
                }
            },
        }
    }
}

impl crate::skiplist::SkipList for LinkedListSkipList {
    open spec fn index_map(&self) -> Map<int, u64> {
        self.as_map()
    }

    open spec fn inv(&self) -> bool {
        self.wf()
    }

    fn insert(&mut self, key: i64, value: u64) {
        LinkedListSkipList::insert(self, key, value);
    }

    fn contains(&self, key: i64) -> (r: bool) {
        LinkedListSkipList::contains(self, key)
    }

    fn estimate_count(&self, key: i64) -> (r: u64) {
        let r = LinkedListSkipList::estimate_count(self, key);
        proof {
            assert(Set::new(|k: int| self.as_map().dom().contains(k) && k < key as int)
                =~= self.keys_below(key as int));
        }
        r
    }
}

impl crate::skiplist::SkipListIterator for LinkedListSkipListIterator {
    open spec fn key_dom(&self) -> Set<int> {
        self.list_spec().key_set()
    }

    open spec fn inv(&self) -> bool {
        self.wf()
    }

    open spec fn cursor_valid(&self) -> bool {
        self.valid_spec()
    }

    open spec fn cursor_key(&self) -> int {
        self.cur_key()
    }

    fn valid(&self) -> (r: bool) {
        LinkedListSkipListIterator::valid(self)
    }

    fn key(&self) -> (r: i64) {
        LinkedListSkipListIterator::key(self)
    }

    fn advance(&mut self) {
        LinkedListSkipListIterator::advance(self);
        proof {
            let l = old(self).list_spec();
            let c = old(self).cur_key();
            if l.has_ge(c + 1) {
                let m = choose|m: int| l.key_set().contains(m) && m >= c + 1;
                assert(l.key_set().contains(m) && m > c);
            }
            if exists|m: int| l.key_set().contains(m) && m > c {
                let m = choose|m: int| l.key_set().contains(m) && m > c;
                assert(l.key_set().contains(m) && m >= c + 1);
            }
        }
    }

    fn seek(&mut self, target: i64) {
        LinkedListSkipListIterator::seek(self, target);
        proof {
            let l = old(self).list_spec();
            let t = target as int;
            if l.has_ge(t) {
                let m = choose|m: int| l.key_set().contains(m) && m >= t;
                assert(l.key_set().contains(m) && m >= t);
            }
            if exists|m: int| l.key_set().contains(m) && m >= t {
                let m = choose|m: int| l.key_set().contains(m) && m >= t;
                assert(l.has_ge(t));
            }
        }
    }

    fn seek_to_first(&mut self) {
        LinkedListSkipListIterator::seek_to_first(self);
        proof {
            let l = old(self).list_spec();
            if l.num_entries() > 0 {
                assert(l.is_real(1));
                assert(l.key_set().contains(l.key_of(1)));
                assert(l.key_set() != Set::<int>::empty());
            } else {
                assert(l.key_set() =~= Set::<int>::empty());
            }
        }
    }
}

} // verus!
