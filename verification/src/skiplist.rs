//! The skip list itself: an arena of nodes linked at multiple levels.
//!
//! Nodes live in a dense, append-only arena and every link is an index into
//! that arena. Each node spans a number of levels; at every level the nodes
//! spanning it form a chain in strictly increasing key order, and the list
//! keeps, per level, the index of the last node of that chain (the tail
//! frontier), which makes appending a new highest-key entry O(max level).

use vstd::prelude::*;
use vstd::pervasive::VecAdditionalExecFns;

use crate::rng::random_bool;

verus! {

/// Ceiling on the number of levels a node may span beyond the base level.
pub const L_MAX_LEVEL: usize = 10;

/// One indexed record: its forward links (one per level it spans, `None`
/// while it is the last of that level's chain), its key, and its payload.
struct Node {
    next: Vec<Option<usize>>,
    offset: u64,
    command: String,
}

/// Append-oriented skip list mapping strictly increasing `u64` keys to
/// string payloads.
pub struct SkipList {
    nodes: Vec<Node>,
    head: Option<usize>,
    tails: Vec<Option<usize>>,
    max_level: usize,
    pub length: u64,
}

/// Whether node `m` of `s` spans level `v`, that is, takes part in the
/// level-`v` chain.
spec fn spans(s: Seq<Node>, m: int, v: int) -> bool {
    v < s[m].next@.len()
}

/// The level-`v` link of node `i` is correct for the arena prefix `s[..end]`:
/// it points at the next node of the level-`v` chain inside that prefix, or
/// is `None` when no later node of the prefix spans `v`.
spec fn link_ok_upto(s: Seq<Node>, i: int, v: int, end: int) -> bool {
    match s[i].next@[v] {
        Some(j) => {
            &&& i < j < end
            &&& spans(s, j as int, v)
            &&& forall|m: int| i < m < j ==> !spans(s, m, v)
        },
        None => forall|m: int| i < m < end ==> !spans(s, m, v),
    }
}

/// The recorded tail of level `v` is correct for the arena prefix
/// `s[..end]`: it is the last node of the prefix spanning `v`, or `None`
/// when the prefix has none.
spec fn tail_ok_upto(s: Seq<Node>, t: Option<usize>, v: int, end: int) -> bool {
    match t {
        Some(t) => {
            &&& 0 <= t < end
            &&& spans(s, t as int, v)
            &&& forall|m: int| t < m < end ==> !spans(s, m, v)
        },
        None => forall|m: int| 0 <= m < end ==> !spans(s, m, v),
    }
}

/// The payload of the most recently appended entry whose key is `key`, or
/// `None` when no entry has that key.
pub open spec fn spec_find(entries: Seq<(u64, Seq<char>)>, key: u64) -> Option<Seq<char>>
    decreases entries.len(),
{
    if entries.len() == 0 {
        None
    } else if entries.last().0 == key {
        Some(entries.last().1)
    } else {
        spec_find(entries.drop_last(), key)
    }
}

/// When no entry carries the key, the lookup result is empty.
pub proof fn lemma_spec_find_none(entries: Seq<(u64, Seq<char>)>, key: u64)
    requires
        forall|i: int| 0 <= i < entries.len() ==> (#[trigger] entries[i]).0 != key,
    ensures
        spec_find(entries, key) is None,
    decreases entries.len(),
{
    if entries.len() > 0 {
        lemma_spec_find_none(entries.drop_last(), key);
    }
}

/// When entry `i` carries the key and no later entry does, the lookup
/// result is exactly entry `i`'s payload.
pub proof fn lemma_spec_find_hit(entries: Seq<(u64, Seq<char>)>, key: u64, i: int)
    requires
        0 <= i < entries.len(),
        entries[i].0 == key,
        forall|j: int| i < j < entries.len() ==> (#[trigger] entries[j]).0 != key,
    ensures
        spec_find(entries, key) == Some(entries[i].1),
    decreases entries.len(),
{
    if i < entries.len() - 1 {
        lemma_spec_find_hit(entries.drop_last(), key, i);
    }
}

/// Query idempotence: with no intervening append the entries are unchanged,
/// so two results of looking the same key up in them are the same.
pub proof fn lemma_find_idempotent(
    entries: Seq<(u64, Seq<char>)>,
    key: u64,
    r1: Option<Seq<char>>,
    r2: Option<Seq<char>>,
)
    requires
        r1 == spec_find(entries, key),
        r2 == spec_find(entries, key),
    ensures
        r1 == r2,
{
}

/// The keys met when following level-`v` links from node `i`, reading at
/// most `fuel` nodes.
spec fn chain_keys_from(s: Seq<Node>, i: int, v: int, fuel: nat) -> Seq<u64>
    decreases fuel,
{
    if fuel == 0 {
        Seq::empty()
    } else {
        match s[i].next@[v] {
            Some(j) => seq![s[i].offset] + chain_keys_from(s, j as int, v, (fuel - 1) as nat),
            None => seq![s[i].offset],
        }
    }
}

/// Following one level's links from any node yields strictly increasing
/// keys, all at least the starting node's key.
proof fn lemma_chain_from_sorted(s: Seq<Node>, i: int, v: int, fuel: nat)
    requires
        0 <= i < s.len(),
        0 <= v < s[i].next@.len(),
        fuel >= s.len() - i,
        forall|a: int, b: int|
            0 <= a < b < s.len() ==> (#[trigger] s[a]).offset < (#[trigger] s[b]).offset,
        forall|m: int, w: int|
            0 <= m < s.len() && 0 <= w < s[m].next@.len()
                ==> #[trigger] link_ok_upto(s, m, w, s.len() as int),
    ensures
        chain_keys_from(s, i, v, fuel).len() >= 1,
        chain_keys_from(s, i, v, fuel)[0] == s[i].offset,
        forall|a: int|
            0 <= a < chain_keys_from(s, i, v, fuel).len()
                ==> #[trigger] chain_keys_from(s, i, v, fuel)[a] >= s[i].offset,
        forall|a: int, b: int|
            0 <= a < b < chain_keys_from(s, i, v, fuel).len()
                ==> chain_keys_from(s, i, v, fuel)[a] < chain_keys_from(s, i, v, fuel)[b],
    decreases fuel,
{
    let c = chain_keys_from(s, i, v, fuel);
    match s[i].next@[v] {
        Some(j) => {
            assert(link_ok_upto(s, i, v, s.len() as int));
            lemma_chain_from_sorted(s, j as int, v, (fuel - 1) as nat);
            let rest = chain_keys_from(s, j as int, v, (fuel - 1) as nat);
            assert(c == seq![s[i].offset] + rest);
            assert(s[i].offset < s[j as int].offset);
            assert forall|a: int| 0 <= a < c.len() implies #[trigger] c[a] >= s[i].offset by {
                if a > 0 {
                    assert(c[a] == rest[a - 1]);
                    assert(rest[a - 1] >= s[j as int].offset);
                }
            }
            assert forall|a: int, b: int| 0 <= a < b < c.len() implies c[a] < c[b] by {
                if a == 0 {
                    assert(c[b] == rest[b - 1]);
                    assert(rest[b - 1] >= s[j as int].offset);
                } else {
                    assert(c[a] == rest[a - 1]);
                    assert(c[b] == rest[b - 1]);
                }
            }
        },
        None => {},
    }
}

/// A level-`v` link that was correct stays correct when the arena changes
/// without touching that link or any node's level count.
proof fn lemma_link_ok_preserved(s1: Seq<Node>, s2: Seq<Node>, i: int, v: int, end: int)
    requires
        s1.len() == s2.len(),
        0 <= i < s1.len(),
        end <= s1.len(),
        link_ok_upto(s1, i, v, end),
        s2[i].next@[v] == s1[i].next@[v],
        forall|k: int| 0 <= k < s1.len() ==> #[trigger] s2[k].next@.len() == s1[k].next@.len(),
    ensures
        link_ok_upto(s2, i, v, end),
{
    match s1[i].next@[v] {
        Some(j) => {
            assert(spans(s2, j as int, v));
            assert forall|m: int| i < m < j implies !spans(s2, m, v) by {
                assert(!spans(s1, m, v));
            }
        },
        None => {
            assert forall|m: int| i < m < end implies !spans(s2, m, v) by {
                assert(!spans(s1, m, v));
            }
        },
    }
}

impl View for SkipList {
    type V = Seq<(u64, Seq<char>)>;

    /// The entries in append order, each as its key and its payload.
    closed spec fn view(&self) -> Seq<(u64, Seq<char>)> {
        self.nodes@.map(|i: int, n: Node| (n.offset, n.command@))
    }
}

impl SkipList {
    /// Structural well-formedness: the fixed level ceiling, the bookkeeping
    /// fields, strictly increasing keys in arena order, the first node
    /// spanning every level, and every link and every recorded tail correct
    /// for its level's chain.
    pub closed spec fn wf(self) -> bool {
        &&& self.max_level == L_MAX_LEVEL
        &&& self.tails@.len() == self.max_level + 1
        &&& self.length as int == self.nodes@.len()
        &&& (self.head is None <==> self.nodes@.len() == 0)
        &&& (self.nodes@.len() > 0 ==> self.head == Some(0usize))
        &&& (forall|i: int, j: int|
            0 <= i < j < self.nodes@.len()
                ==> #[trigger] self.nodes@[i].offset < #[trigger] self.nodes@[j].offset)
        &&& (self.nodes@.len() > 0 ==> self.nodes@[0].next@.len() == self.max_level + 1)
        &&& (forall|i: int|
            0 <= i < self.nodes@.len()
                ==> 1 <= #[trigger] self.nodes@[i].next@.len() <= self.max_level + 1)
        &&& (forall|i: int, v: int|
            0 <= i < self.nodes@.len() && 0 <= v < self.nodes@[i].next@.len()
                ==> #[trigger] link_ok_upto(self.nodes@, i, v, self.nodes@.len() as int))
        &&& (forall|v: int|
            0 <= v <= self.max_level
                ==> tail_ok_upto(self.nodes@, #[trigger] self.tails@[v], v, self.nodes@.len() as int))
    }

    /// The number of levels (base level included) that entry `i` spans.
    pub closed spec fn node_levels(self, i: int) -> int {
        self.nodes@[i].next@.len() as int
    }

    /// The value of the public `length` counter.
    pub closed spec fn spec_length(self) -> u64 {
        self.length
    }

    /// The key sequence reachable from the head by following level-`v`
    /// links; empty while the list is.
    pub closed spec fn level_chain_keys(self, v: int) -> Seq<u64> {
        if self.nodes@.len() == 0 {
            Seq::empty()
        } else {
            chain_keys_from(self.nodes@, 0, v, self.nodes@.len() as nat)
        }
    }

    /// Level invariant: after any sequence of appends, and at every level,
    /// the keys reachable by following that level's links from the head
    /// are strictly increasing.
    pub proof fn lemma_level_chain_strictly_increasing(self, v: int)
        requires
            self.wf(),
            0 <= v <= L_MAX_LEVEL,
        ensures
            forall|a: int, b: int|
                0 <= a < b < self.level_chain_keys(v).len()
                    ==> self.level_chain_keys(v)[a] < self.level_chain_keys(v)[b],
    {
        if self.nodes@.len() > 0 {
            lemma_chain_from_sorted(self.nodes@, 0, v, self.nodes@.len() as nat);
        }
    }

    /// Height cap: no entry's level array exceeds `L_MAX_LEVEL + 1` slots,
    /// whatever the random draws were.
    pub proof fn lemma_height_cap(self)
        requires
            self.wf(),
        ensures
            forall|i: int|
                0 <= i < self@.len() ==> #[trigger] self.node_levels(i) <= L_MAX_LEVEL + 1,
    {
    }

    /// The length counter equals the number of entries appended.
    pub proof fn lemma_length_counts_entries(self)
        requires
            self.wf(),
        ensures
            self.spec_length() as int == self@.len(),
    {
    }

    /// Creates an empty list with the fixed level ceiling and zero length.
    pub fn new() -> (result: SkipList)
        ensures
            result.wf(),
            result@ == Seq::<(u64, Seq<char>)>::empty(),
            result.spec_length() == 0,
    {
        let mut tails: Vec<Option<usize>> = Vec::new();
        while tails.len() < L_MAX_LEVEL + 1
            invariant
                tails@.len() <= L_MAX_LEVEL + 1,
                forall|k: int| 0 <= k < tails@.len() ==> tails@[k] is None,
            decreases L_MAX_LEVEL + 1 - tails@.len(),
        {
            tails.push(None);
        }
        let result = SkipList { nodes: Vec::new(), head: None, tails, max_level: L_MAX_LEVEL, length: 0 };
        proof {
            assert(result@ =~= Seq::<(u64, Seq<char>)>::empty());
        }
        result
    }

    /// Appends a new trailing entry: links it into every level chain it
    /// spans, moves those levels' tail frontiers onto it, and bumps the
    /// length counter. The first entry ever appended spans every level, so
    /// that each level's chain has an entry point from then on.
    ///
    /// The key must be strictly greater than every key appended before:
    /// tail tracking replaces the descent a general skip list would need to
    /// locate the insertion point, and is only correct for trailing inserts.
    pub fn append(&mut self, offset: u64, value: String)
        requires
            old(self).wf(),
            forall|i: int| 0 <= i < old(self)@.len() ==> #[trigger] old(self)@[i].0 < offset,
            old(self).spec_length() < u64::MAX,
        ensures
            final(self).wf(),
            final(self)@ == old(self)@.push((offset, value@)),
            final(self).spec_length() == old(self).spec_length() + 1,
            old(self)@.len() == 0 ==> final(self).node_levels(0) == L_MAX_LEVEL + 1,
    {
        let ghost olds = old(self).nodes@;
        let ghost num_old = olds.len() as int;
        let ghost cmd = value@;
        proof {
            assert forall|m: int| 0 <= m < num_old implies olds[m].offset < offset by {
                assert(old(self)@[m].0 == olds[m].offset);
            }
        }
        let level: usize = 1 + if self.head.is_none() {
            self.max_level
        } else {
            self.get_level()
        };
        let mut next: Vec<Option<usize>> = Vec::new();
        while next.len() < level
            invariant
                next@.len() <= level,
                forall|k: int| 0 <= k < next@.len() ==> next@[k] is None,
            decreases level - next@.len(),
        {
            next.push(None);
        }
        let new_idx: usize = self.nodes.len();
        self.nodes.push(Node { next, offset, command: value });
        if self.head.is_none() {
            self.head = Some(new_idx);
        }
        let mut i: usize = 0;
        while i < level
            invariant
                old(self).wf(),
                self.max_level == L_MAX_LEVEL,
                self.tails@.len() == L_MAX_LEVEL + 1,
                self.length == old(self).length,
                self.head == Some(0usize),
                i <= level,
                1 <= level <= L_MAX_LEVEL + 1,
                olds == old(self).nodes@,
                num_old == olds.len() as int,
                num_old == 0 ==> level == L_MAX_LEVEL + 1,
                new_idx as int == num_old,
                self.nodes@.len() == num_old + 1,
                forall|m: int| 0 <= m < num_old ==> (#[trigger] self.nodes@[m]).offset == olds[m].offset,
                forall|m: int| 0 <= m < num_old ==> (#[trigger] self.nodes@[m]).command == olds[m].command,
                forall|m: int| 0 <= m < num_old
                    ==> (#[trigger] self.nodes@[m]).next@.len() == olds[m].next@.len(),
                self.nodes@[num_old].offset == offset,
                self.nodes@[num_old].command@ == cmd,
                self.nodes@[num_old].next@.len() == level as int,
                forall|v: int| 0 <= v < level ==> self.nodes@[num_old].next@[v] is None,
                forall|m: int| 0 <= m < num_old ==> olds[m].offset < offset,
                forall|v: int| 0 <= v < i ==> #[trigger] self.tails@[v] == Some(new_idx),
                forall|m: int, v: int|
                    0 <= m <= num_old && 0 <= v < i && v < self.nodes@[m].next@.len()
                        ==> #[trigger] link_ok_upto(self.nodes@, m, v, num_old + 1),
                forall|m: int, v: int|
                    0 <= m < num_old && i <= v < self.nodes@[m].next@.len()
                        ==> #[trigger] self.nodes@[m].next@[v] == olds[m].next@[v],
                forall|v: int| i <= v <= L_MAX_LEVEL ==> #[trigger] self.tails@[v] == old(self).tails@[v],
            decreases level - i,
        {
            let ghost pre = self.nodes@;
            let t: Option<usize> = self.tails[i];
            proof {
                assert(tail_ok_upto(olds, old(self).tails@[i as int], i as int, num_old));
            }
            match t {
                Some(old_t) => {
                    proof {
                        assert(spans(olds, old_t as int, i as int));
                        assert(self.nodes@[old_t as int].next@.len() == olds[old_t as int].next@.len());
                    }
                    let node = &mut self.nodes[old_t];
                    node.next.set(i, Some(new_idx));
                    proof {
                        assert(self.nodes@ =~= pre.update(
                            old_t as int,
                            Node {
                                next: self.nodes@[old_t as int].next,
                                offset: pre[old_t as int].offset,
                                command: pre[old_t as int].command,
                            },
                        ));
                        assert(self.nodes@[old_t as int].next@ =~= pre[old_t as int].next@.update(
                            i as int,
                            Some(new_idx),
                        ));
                        // links settled at lower levels are untouched
                        assert forall|m: int, v: int|
                            0 <= m <= num_old && 0 <= v < i && v < self.nodes@[m].next@.len()
                            implies #[trigger] link_ok_upto(self.nodes@, m, v, num_old + 1) by {
                            assert(link_ok_upto(pre, m, v, num_old + 1));
                            assert(self.nodes@[m].next@[v] == pre[m].next@[v]);
                            lemma_link_ok_preserved(pre, self.nodes@, m, v, num_old + 1);
                        }
                        // the level-i chain now ends in the new node
                        assert forall|m: int|
                            0 <= m <= num_old && (i as int) < self.nodes@[m].next@.len()
                            implies #[trigger] link_ok_upto(self.nodes@, m, i as int, num_old + 1) by {
                            if m == old_t as int {
                                assert(self.nodes@[m].next@[i as int] == Some(new_idx));
                                assert forall|k: int| m < k < num_old implies !spans(self.nodes@, k, i as int) by {
                                    assert(!spans(olds, k, i as int));
                                }
                                assert(spans(self.nodes@, num_old, i as int));
                            } else if m < num_old {
                                assert(link_ok_upto(olds, m, i as int, num_old));
                                match olds[m].next@[i as int] {
                                    Some(j) => {
                                        assert(self.nodes@[m].next@[i as int] == Some(j));
                                        assert(spans(self.nodes@, j as int, i as int));
                                        assert forall|k: int| m < k < j implies !spans(self.nodes@, k, i as int) by {
                                            assert(!spans(olds, k, i as int));
                                        }
                                    },
                                    None => {
                                        // impossible: the old tail spans level i and sits
                                        // beyond m, yet a None link says nothing does
                                        assert(spans(olds, old_t as int, i as int));
                                        assert(old_t as int != m);
                                        if (old_t as int) < m {
                                            assert(!spans(olds, m, i as int));
                                            assert(false);
                                        } else {
                                            assert(!spans(olds, old_t as int, i as int));
                                            assert(false);
                                        }
                                    },
                                }
                            } else {
                                assert(self.nodes@[m].next@[i as int] is None);
                            }
                        }
                    }
                },
                None => {
                    proof {
                        assert forall|m: int|
                            0 <= m <= num_old && (i as int) < self.nodes@[m].next@.len()
                            implies #[trigger] link_ok_upto(self.nodes@, m, i as int, num_old + 1) by {
                            if m < num_old {
                                assert(!spans(olds, m, i as int));
                                assert(false);
                            } else {
                                assert(self.nodes@[m].next@[i as int] is None);
                            }
                        }
                    }
                },
            }
            self.tails.set(i, Some(new_idx));
            i += 1;
        }
        self.length = self.length + 1;
        proof {
            assert forall|m: int, v: int|
                0 <= m < self.nodes@.len() && 0 <= v < self.nodes@[m].next@.len()
                implies #[trigger] link_ok_upto(self.nodes@, m, v, num_old + 1) by {
                if v >= level {
                    assert(m < num_old);
                    assert(link_ok_upto(olds, m, v, num_old));
                    assert(self.nodes@[m].next@[v] == olds[m].next@[v]);
                    match olds[m].next@[v] {
                        Some(j) => {
                            assert(spans(self.nodes@, j as int, v));
                            assert forall|k: int| m < k < j implies !spans(self.nodes@, k, v) by {
                                assert(!spans(olds, k, v));
                            }
                        },
                        None => {
                            assert forall|k: int| m < k < num_old + 1 implies !spans(self.nodes@, k, v) by {
                                if k < num_old {
                                    assert(!spans(olds, k, v));
                                }
                            }
                        },
                    }
                }
            }
            assert forall|v: int| 0 <= v <= L_MAX_LEVEL
                implies tail_ok_upto(self.nodes@, self.tails@[v], v, num_old + 1) by {
                if v < level {
                    assert(self.tails@[v] == Some(new_idx));
                    assert(spans(self.nodes@, num_old, v));
                } else {
                    assert(self.tails@[v] == old(self).tails@[v]);
                    assert(tail_ok_upto(olds, old(self).tails@[v], v, num_old));
                    match old(self).tails@[v] {
                        Some(tl) => {
                            assert(spans(self.nodes@, tl as int, v));
                            assert forall|k: int| tl < k < num_old + 1 implies !spans(self.nodes@, k, v) by {
                                if k < num_old {
                                    assert(!spans(olds, k, v));
                                }
                            }
                        },
                        None => {
                            assert forall|k: int| 0 <= k < num_old + 1 implies !spans(self.nodes@, k, v) by {
                                if k < num_old {
                                    assert(!spans(olds, k, v));
                                }
                            }
                        },
                    }
                }
            }
            assert forall|a: int, b: int| 0 <= a < b < self.nodes@.len()
                implies self.nodes@[a].offset < self.nodes@[b].offset by {
                if b < num_old {
                    assert(olds[a].offset < olds[b].offset);
                }
            }
            assert(self@ =~= old(self)@.push((offset, cmd)));
        }
    }

    /// Draws a level for a new node: counts fair coin flips that come up
    /// true, stopping at the first false flip or at the configured ceiling.
    pub fn get_level(&self) -> (level: usize)
        requires
            self.wf(),
        ensures
            level <= L_MAX_LEVEL,
    {
        let mut n: usize = 0;
        loop
            invariant
                self.wf(),
                n <= L_MAX_LEVEL,
            ensures
                n <= L_MAX_LEVEL,
            decreases L_MAX_LEVEL - n,
        {
            if !(random_bool() && n < self.max_level) {
                break;
            }
            n += 1;
        }
        n
    }

    /// Looks up the payload stored under an exact key. The descent starts
    /// at the highest level where the head has a successor, advances along
    /// each level's chain while the next key does not pass the target, and
    /// drops a level each time it stops; an exact match is then checked at
    /// the node the base level ends on. Read-only, and pure: the result is
    /// the payload of the most recently appended entry with that key, or
    /// `None` when no entry has it.
    pub fn find(&self, offset: u64) -> (result: Option<String>)
        requires
            self.wf(),
        ensures
            match result {
                Some(command) => spec_find(self@, offset) == Some(command@),
                None => spec_find(self@, offset) is None,
            },
    {
        if self.nodes.len() == 0 {
            proof {
                assert(self@.len() == 0);
            }
            return None;
        }
        let ghost s = self.nodes@;
        let ghost len = s.len() as int;
        let mut start_level: usize = self.max_level;
        loop
            invariant
                self.wf(),
                s == self.nodes@,
                len == s.len() as int,
                len > 0,
                start_level <= L_MAX_LEVEL,
                forall|m: int| 0 < m < len ==> (#[trigger] s[m]).next@.len() <= start_level + 1,
            ensures
                start_level <= L_MAX_LEVEL,
                forall|m: int| 0 < m < len ==> (#[trigger] s[m]).next@.len() <= start_level + 1,
            decreases start_level,
        {
            if start_level == 0 {
                break;
            }
            if self.nodes[0].next[start_level].is_some() {
                break;
            }
            proof {
                assert(link_ok_upto(s, 0, start_level as int, len));
                assert forall|m: int| 0 < m < len implies (#[trigger] s[m]).next@.len()
                    <= start_level by {
                    assert(!spans(s, m, start_level as int));
                }
            }
            start_level -= 1;
        }
        let mut n: usize = 0;
        let mut level: usize = start_level;
        loop
            invariant
                self.wf(),
                s == self.nodes@,
                len == s.len() as int,
                len > 0,
                level <= L_MAX_LEVEL,
                n < len,
                (level as int) < s[n as int].next@.len(),
                n == 0 || s[n as int].offset <= offset,
                forall|m: int|
                    (n as int) < m < len && (#[trigger] s[m]).offset <= offset
                        ==> s[m].next@.len() <= level + 1,
            ensures
                n < len,
                n == 0 || s[n as int].offset <= offset,
                forall|m: int| (n as int) < m < len ==> (#[trigger] s[m]).offset > offset,
            decreases level,
        {
            loop
                invariant
                    self.wf(),
                    s == self.nodes@,
                    len == s.len() as int,
                    len > 0,
                    level <= L_MAX_LEVEL,
                    n < len,
                    (level as int) < s[n as int].next@.len(),
                    n == 0 || s[n as int].offset <= offset,
                    forall|m: int|
                        (n as int) < m < len && (#[trigger] s[m]).offset <= offset
                            ==> s[m].next@.len() <= level + 1,
                ensures
                    n < len,
                    (level as int) < s[n as int].next@.len(),
                    n == 0 || s[n as int].offset <= offset,
                    forall|m: int|
                        (n as int) < m < len && (#[trigger] s[m]).offset <= offset
                            ==> s[m].next@.len() <= level,
                decreases len - n,
            {
                proof {
                    assert(link_ok_upto(s, n as int, level as int, len));
                }
                let nxt: Option<usize> = self.nodes[n].next[level];
                match nxt {
                    Some(j) => {
                        if self.nodes[j].offset <= offset {
                            n = j;
                        } else {
                            proof {
                                assert forall|m: int|
                                    (n as int) < m < len && (#[trigger] s[m]).offset <= offset
                                    implies s[m].next@.len() <= level by {
                                    if m < j as int {
                                        assert(!spans(s, m, level as int));
                                    } else if m > j as int {
                                        assert(s[j as int].offset < s[m].offset);
                                    }
                                }
                            }
                            break;
                        }
                    },
                    None => {
                        proof {
                            assert forall|m: int|
                                (n as int) < m < len && (#[trigger] s[m]).offset <= offset
                                implies s[m].next@.len() <= level by {
                                assert(!spans(s, m, level as int));
                            }
                        }
                        break;
                    },
                }
            }
            if level == 0 {
                proof {
                    assert forall|m: int| (n as int) < m < len implies (#[trigger] s[m]).offset
                        > offset by {
                        if s[m].offset <= offset {
                            assert(s[m].next@.len() <= 0);
                            assert(1 <= s[m].next@.len());
                        }
                    }
                }
                break;
            }
            level -= 1;
        }
        if self.nodes[n].offset == offset {
            let result = Some(self.nodes[n].command.clone());
            proof {
                assert forall|j: int| (n as int) < j < self@.len() implies (#[trigger] self@[j]).0
                    != offset by {
                    assert(self@[j].0 == s[j].offset);
                }
                assert(self@[n as int].0 == offset);
                lemma_spec_find_hit(self@, offset, n as int);
            }
            result
        } else {
            proof {
                assert forall|i: int| 0 <= i < self@.len() implies (#[trigger] self@[i]).0
                    != offset by {
                    assert(self@[i].0 == s[i].offset);
                    if i < n as int {
                        assert(s[i].offset < s[n as int].offset);
                    }
                }
                lemma_spec_find_none(self@, offset);
            }
            None
        }
    }
}

} // verus!
