//! The state of a signal graph, what a wave does to it, and what holds of
//! every wave.
//!
//! Nodes are numbered in the order in which they were made, and a derived
//! node is made from nodes that exist, so every node depends on nodes of
//! lower numbers only.
//!
//! A node is *live* while somebody is subscribed to it or to a node that
//! depends on it. Only live nodes are recomputed. A derived node that is not
//! live is marked stale when something it depends on changes, and is brought
//! up to date by the first wave in which it is live again.

use vstd::prelude::*;

verus! {


/// A node of the graph: a cell, or a value derived from one or two nodes.
#[allow(inconsistent_fields)]
pub enum Node<M, C> {
    Cell,
    Mapped { source: usize, func: M },
    Combined { left: usize, right: usize, func: C },
}

/// The state of a graph.
pub struct Wiring<T, M, C> {
    /// The nodes, in the order in which they were made.
    pub nodes: Seq<Node<M, C>>,
    /// The value of each node, if it has one yet.
    pub values: Seq<Option<T>>,
    /// Whether the value of a derived node is behind what it depends on.
    pub stale: Seq<bool>,
    /// Whether a cell was written since the last wave.
    pub pending: Seq<bool>,
    /// Whether a subscriber that came since the last wave has yet to be
    /// handed the value of the node.
    pub owed: Seq<bool>,
    /// How many subscribers each node has.
    pub subscribers: Seq<usize>,
}

/// The node `from` is a source of the node `to`.
pub open spec fn feeds<M, C>(nodes: Seq<Node<M, C>>, from: int, to: int) -> bool {
    match nodes[to] {
        Node::Cell => false,
        Node::Mapped { source, .. } => source == from,
        Node::Combined { left, right, .. } => left == from || right == from,
    }
}

/// Every node has its state, depends on earlier nodes only, and its function
/// can be called on all values; a cell has a value, and only a cell can be
/// written.
pub open spec fn shaped<T, M: Fn(&T) -> T, C: Fn(&T, &T) -> T>(g: Wiring<T, M, C>) -> bool {
    &&& g.values.len() == g.nodes.len()
    &&& g.stale.len() == g.nodes.len()
    &&& g.pending.len() == g.nodes.len()
    &&& g.owed.len() == g.nodes.len()
    &&& g.subscribers.len() == g.nodes.len()
    &&& forall|k: int|
        0 <= k < g.nodes.len() ==> match #[trigger] g.nodes[k] {
            Node::Cell => g.values[k] is Some && !g.stale[k],
            Node::Mapped { source, func } => {
                &&& source < k
                &&& !g.pending[k]
                &&& forall|x: T| call_requires(func, (&x,))
            },
            Node::Combined { left, right, func } => {
                &&& left < k
                &&& right < k
                &&& !g.pending[k]
                &&& forall|x: T, y: T| call_requires(func, (&x, &y))
            },
        }
}

/// The value of the node is what its function gives for the values that its
/// sources have now.
pub open spec fn computed<T, M: Fn(&T) -> T, C: Fn(&T, &T) -> T>(g: Wiring<T, M, C>, k: int) -> bool {
    match g.nodes[k] {
        Node::Cell => g.values[k] is Some,
        Node::Mapped { source, func } => {
            &&& g.values[k] is Some
            &&& g.values[source as int] is Some
            &&& call_ensures(func, (&g.values[source as int]->0,), g.values[k]->0)
        },
        Node::Combined { left, right, func } => {
            &&& g.values[k] is Some
            &&& g.values[left as int] is Some
            &&& g.values[right as int] is Some
            &&& call_ensures(
                func,
                (&g.values[left as int]->0, &g.values[right as int]->0),
                g.values[k]->0,
            )
        },
    }
}

/// The next wave has news of the node: a cell that was written, a derived
/// node that is stale, or a node that depends on such a node.
pub open spec fn touched<T, M, C>(g: Wiring<T, M, C>, k: int) -> bool
    decreases k,
{
    if 0 <= k < g.nodes.len() {
        match g.nodes[k] {
            Node::Cell => g.pending[k],
            Node::Mapped { source, .. } => g.stale[k] || (source < k && touched(g, source as int)),
            Node::Combined { left, right, .. } => g.stale[k] || (left < k && touched(
                g,
                left as int,
            )) || (right < k && touched(g, right as int)),
        }
    } else {
        false
    }
}

/// Somebody is subscribed to the node, or a live node among those from
/// `from` on depends on it.
pub open spec fn wanted<T, M, C>(g: Wiring<T, M, C>, k: int, from: int) -> bool
    decreases g.nodes.len() - k, g.nodes.len() - from,
{
    if 0 <= k < from < g.nodes.len() {
        wanted(g, k, from + 1) || (feeds(g.nodes, k, from) && live(g, from))
    } else {
        0 <= k < g.nodes.len() && g.subscribers[k] > 0
    }
}

/// The node is live: somebody is subscribed to it or to a node that depends
/// on it.
pub open spec fn live<T, M, C>(g: Wiring<T, M, C>, k: int) -> bool
    decreases g.nodes.len() - k, g.nodes.len() - k,
{
    if 0 <= k < g.nodes.len() {
        wanted(g, k, k + 1)
    } else {
        false
    }
}

/// The node emits in the next wave: it is live, and there is news of it or a
/// subscriber is owed its value.
pub open spec fn emits<T, M, C>(g: Wiring<T, M, C>, k: int) -> bool {
    0 <= k < g.nodes.len() && live(g, k) && (touched(g, k) || g.owed[k])
}

/// The graph is sound: it is shaped, and every derived node of which the
/// next wave has no news has the value that its function gives for the
/// values of its sources.
pub open spec fn sound<T, M: Fn(&T) -> T, C: Fn(&T, &T) -> T>(g: Wiring<T, M, C>) -> bool {
    &&& shaped(g)
    &&& forall|k: int| 0 <= k < g.nodes.len() && !#[trigger] touched(g, k) ==> computed(g, k)
}

/// The sources of a live node are live.
pub proof fn lemma_sources_are_live<T, M, C>(g: Wiring<T, M, C>, from: int, to: int)
    requires
        0 <= from < to < g.nodes.len(),
        feeds(g.nodes, from, to),
        live(g, to),
    ensures
        live(g, from),
{
    lemma_wanted_from(g, from, from + 1, to);
}

pub proof fn lemma_wanted_from<T, M, C>(g: Wiring<T, M, C>, k: int, from: int, to: int)
    requires
        0 <= k < from <= to < g.nodes.len(),
        feeds(g.nodes, k, to),
        live(g, to),
    ensures
        wanted(g, k, from),
    decreases to - from,
{
    if from < to {
        lemma_wanted_from(g, k, from + 1, to);
    }
}

/// The state of a graph after a node was added to it.
pub open spec fn extended<T, M, C>(g: Wiring<T, M, C>, node: Node<M, C>, value: Option<T>) -> Wiring<
    T,
    M,
    C,
> {
    Wiring {
        nodes: g.nodes.push(node),
        values: g.values.push(value),
        stale: g.stale.push(value is None),
        pending: g.pending.push(false),
        owed: g.owed.push(false),
        subscribers: g.subscribers.push(0),
    }
}

/// Adding a node changes no news of the nodes that were there.
pub proof fn lemma_extended_touched<T, M, C>(
    g: Wiring<T, M, C>,
    node: Node<M, C>,
    value: Option<T>,
    k: int,
)
    requires
        g.stale.len() == g.nodes.len(),
        g.pending.len() == g.nodes.len(),
        0 <= k < g.nodes.len(),
    ensures
        touched(extended(g, node, value), k) == touched(g, k),
    decreases k,
{
    let e = extended(g, node, value);
    assert(e.nodes[k] == g.nodes[k]);
    match g.nodes[k] {
        Node::Cell => {},
        Node::Mapped { source, .. } => {
            if source < k {
                lemma_extended_touched(g, node, value, source as int);
            }
        },
        Node::Combined { left, right, .. } => {
            if left < k {
                lemma_extended_touched(g, node, value, left as int);
            }
            if right < k {
                lemma_extended_touched(g, node, value, right as int);
            }
        },
    }
}

/// Adding a node that depends on earlier nodes keeps a graph sound.
pub proof fn lemma_extended_sound<T, M: Fn(&T) -> T, C: Fn(&T, &T) -> T>(
    g: Wiring<T, M, C>,
    node: Node<M, C>,
    value: Option<T>,
)
    requires
        sound(g),
        match node {
            Node::Cell => value is Some,
            Node::Mapped { source, func } => {
                &&& value is None
                &&& source < g.nodes.len()
                &&& forall|x: T| call_requires(func, (&x,))
            },
            Node::Combined { left, right, func } => {
                &&& value is None
                &&& left < g.nodes.len()
                &&& right < g.nodes.len()
                &&& forall|x: T, y: T| call_requires(func, (&x, &y))
            },
        },
    ensures
        sound(extended(g, node, value)),
{
    let e = extended(g, node, value);
    let n = g.nodes.len() as int;
    assert forall|k: int| 0 <= k < e.nodes.len() implies match #[trigger] e.nodes[k] {
        Node::Cell => e.values[k] is Some && !e.stale[k],
        Node::Mapped { source, func } => {
            &&& source < k
            &&& !e.pending[k]
            &&& forall|x: T| call_requires(func, (&x,))
        },
        Node::Combined { left, right, func } => {
            &&& left < k
            &&& right < k
            &&& !e.pending[k]
            &&& forall|x: T, y: T| call_requires(func, (&x, &y))
        },
    } by {
        if k < n {
            assert(e.nodes[k] == g.nodes[k]);
        }
    }
    assert forall|k: int| 0 <= k < e.nodes.len() && !#[trigger] touched(e, k) implies computed(
        e,
        k,
    ) by {
        if k < n {
            lemma_extended_touched(g, node, value, k);
            assert(computed(g, k));
            assert(e.nodes[k] == g.nodes[k]);
        }
    }
}

/// The state of a graph after the cell at `k` was written.
pub open spec fn written<T, M, C>(g: Wiring<T, M, C>, k: int, value: T) -> Wiring<T, M, C> {
    Wiring { values: g.values.update(k, Some(value)), pending: g.pending.update(k, true), ..g }
}

/// The state of a graph in which the node at `k` has the given number of
/// subscribers. A subscriber that has come is owed the value of the node.
pub open spec fn subscribed<T, M, C>(g: Wiring<T, M, C>, k: int, count: usize) -> Wiring<T, M, C> {
    Wiring {
        subscribers: g.subscribers.update(k, count),
        owed: g.owed.update(k, g.owed[k] || count > g.subscribers[k]),
        ..g
    }
}

/// What a wave from the state `b` to the state `a` has done to the node at
/// `k`: a cell keeps its value; a live derived node of which there was news
/// is up to date; any other derived node keeps its value and is stale if
/// there was news of it.
pub open spec fn waved_at<T, M: Fn(&T) -> T, C: Fn(&T, &T) -> T>(
    b: Wiring<T, M, C>,
    a: Wiring<T, M, C>,
    k: int,
) -> bool {
    if b.nodes[k] is Cell {
        a.values[k] == b.values[k] && a.stale[k] == b.stale[k]
    } else if touched(b, k) && live(b, k) {
        !a.stale[k] && computed(a, k)
    } else {
        a.values[k] == b.values[k] && a.stale[k] == touched(b, k)
    }
}

/// A wave has taken a graph from the state `b` to the state `a`: the nodes
/// and their subscribers are the same, no write is pending and no subscriber
/// is owed a value any more, and every node is as a wave leaves it.
pub open spec fn waved<T, M: Fn(&T) -> T, C: Fn(&T, &T) -> T>(
    b: Wiring<T, M, C>,
    a: Wiring<T, M, C>,
) -> bool {
    &&& a.nodes == b.nodes
    &&& a.subscribers == b.subscribers
    &&& a.values.len() == b.values.len()
    &&& a.stale.len() == b.stale.len()
    &&& a.pending.len() == b.pending.len()
    &&& a.owed.len() == b.owed.len()
    &&& forall|k: int| 0 <= k < a.pending.len() ==> !#[trigger] a.pending[k]
    &&& forall|k: int| 0 <= k < a.owed.len() ==> !#[trigger] a.owed[k]
    &&& forall|k: int| 0 <= k < b.nodes.len() ==> #[trigger] waved_at(b, a, k)
}

/// News of a node depends on the nodes, on what is stale and on what is
/// pending, and on nothing else.
pub proof fn lemma_touched_depends<T, M, C>(g: Wiring<T, M, C>, h: Wiring<T, M, C>, k: int)
    requires
        g.nodes == h.nodes,
        g.stale == h.stale,
        g.pending == h.pending,
    ensures
        touched(g, k) == touched(h, k),
    decreases k,
{
    if 0 <= k < g.nodes.len() {
        match g.nodes[k] {
            Node::Cell => {},
            Node::Mapped { source, .. } => {
                if source < k {
                    lemma_touched_depends(g, h, source as int);
                }
            },
            Node::Combined { left, right, .. } => {
                if left < k {
                    lemma_touched_depends(g, h, left as int);
                }
                if right < k {
                    lemma_touched_depends(g, h, right as int);
                }
            },
        }
    }
}

/// A write takes no news away.
pub proof fn lemma_written_touched<T, M, C>(g: Wiring<T, M, C>, at: int, value: T, k: int)
    requires
        0 <= at < g.nodes.len(),
        g.pending.len() == g.nodes.len(),
    ensures
        touched(g, k) ==> touched(written(g, at, value), k),
        k == at && g.nodes[at] is Cell ==> touched(written(g, at, value), k),
    decreases k,
{
    if 0 <= k < g.nodes.len() {
        match g.nodes[k] {
            Node::Cell => {},
            Node::Mapped { source, .. } => {
                if source < k {
                    lemma_written_touched(g, at, value, source as int);
                }
            },
            Node::Combined { left, right, .. } => {
                if left < k {
                    lemma_written_touched(g, at, value, left as int);
                }
                if right < k {
                    lemma_written_touched(g, at, value, right as int);
                }
            },
        }
    }
}

/// A write to a cell keeps a graph sound.
pub proof fn lemma_written_sound<T, M: Fn(&T) -> T, C: Fn(&T, &T) -> T>(
    g: Wiring<T, M, C>,
    at: int,
    value: T,
)
    requires
        sound(g),
        0 <= at < g.nodes.len(),
        g.nodes[at] is Cell,
    ensures
        sound(written(g, at, value)),
{
    let w = written(g, at, value);
    assert forall|k: int| 0 <= k < w.nodes.len() implies match #[trigger] w.nodes[k] {
        Node::Cell => w.values[k] is Some && !w.stale[k],
        Node::Mapped { source, func } => {
            &&& source < k
            &&& !w.pending[k]
            &&& forall|x: T| call_requires(func, (&x,))
        },
        Node::Combined { left, right, func } => {
            &&& left < k
            &&& right < k
            &&& !w.pending[k]
            &&& forall|x: T, y: T| call_requires(func, (&x, &y))
        },
    } by {
        assert(w.nodes[k] == g.nodes[k]);
    }
    assert forall|k: int| 0 <= k < w.nodes.len() && !#[trigger] touched(w, k) implies computed(
        w,
        k,
    ) by {
        lemma_written_touched(g, at, value, k);
        assert(!touched(g, k));
        assert(computed(g, k));
        match g.nodes[k] {
            Node::Cell => {},
            Node::Mapped { source, .. } => {
                lemma_written_touched(g, at, value, source as int);
            },
            Node::Combined { left, right, .. } => {
                lemma_written_touched(g, at, value, left as int);
                lemma_written_touched(g, at, value, right as int);
            },
        }
    }
}

/// A change in the number of subscribers keeps a graph sound.
pub proof fn lemma_subscribed_sound<T, M: Fn(&T) -> T, C: Fn(&T, &T) -> T>(
    g: Wiring<T, M, C>,
    at: int,
    count: usize,
)
    requires
        sound(g),
        0 <= at < g.nodes.len(),
    ensures
        sound(subscribed(g, at, count)),
{
    let h = subscribed(g, at, count);
    assert forall|k: int| 0 <= k < h.nodes.len() && !#[trigger] touched(h, k) implies computed(
        h,
        k,
    ) by {
        lemma_touched_depends(g, h, k);
        assert(computed(g, k));
    }
}

/// After a wave no node that was live has news left.
pub proof fn lemma_waved_settles<T, M: Fn(&T) -> T, C: Fn(&T, &T) -> T>(
    b: Wiring<T, M, C>,
    a: Wiring<T, M, C>,
    k: int,
)
    requires
        sound(b),
        waved(b, a),
        0 <= k < b.nodes.len(),
    ensures
        live(b, k) || !touched(b, k) ==> !touched(a, k) && computed(a, k),
        !touched(b, k) ==> a.values[k] == b.values[k],
    decreases k,
{
    assert(waved_at(b, a, k));
    match b.nodes[k] {
        Node::Cell => {},
        Node::Mapped { source, .. } => {
            lemma_waved_settles(b, a, source as int);
            if live(b, k) {
                lemma_sources_are_live(b, source as int, k);
            }
            if !touched(b, k) {
                assert(computed(b, k));
            }
        },
        Node::Combined { left, right, .. } => {
            lemma_waved_settles(b, a, left as int);
            lemma_waved_settles(b, a, right as int);
            if live(b, k) {
                lemma_sources_are_live(b, left as int, k);
                lemma_sources_are_live(b, right as int, k);
            }
            if !touched(b, k) {
                assert(computed(b, k));
            }
        },
    }
}

/// **No glitch.** A wave keeps a graph sound, and after it every node that
/// is live has the value that its function gives for the values that its
/// sources have then: no value is built from a source as it was before the
/// wave and another as it is after.
pub proof fn lemma_waved_sound<T, M: Fn(&T) -> T, C: Fn(&T, &T) -> T>(
    b: Wiring<T, M, C>,
    a: Wiring<T, M, C>,
)
    requires
        sound(b),
        waved(b, a),
    ensures
        sound(a),
        forall|k: int| 0 <= k < a.nodes.len() && #[trigger] live(a, k) ==> computed(a, k),
        forall|k: int| 0 <= k < a.nodes.len() && #[trigger] live(a, k) ==> !touched(a, k),
{
    assert forall|k: int| 0 <= k < a.nodes.len() implies match #[trigger] a.nodes[k] {
        Node::Cell => a.values[k] is Some && !a.stale[k],
        Node::Mapped { source, func } => {
            &&& source < k
            &&& !a.pending[k]
            &&& forall|x: T| call_requires(func, (&x,))
        },
        Node::Combined { left, right, func } => {
            &&& left < k
            &&& right < k
            &&& !a.pending[k]
            &&& forall|x: T, y: T| call_requires(func, (&x, &y))
        },
    } by {
        assert(b.nodes[k] == a.nodes[k]);
        assert(waved_at(b, a, k));
    }
    assert forall|k: int| 0 <= k < a.nodes.len() && !#[trigger] touched(a, k) implies computed(
        a,
        k,
    ) by {
        lemma_waved_settles(b, a, k);
        assert(waved_at(b, a, k));
        if touched(b, k) && !live(b, k) {
            assert(b.nodes[k] is Cell);
        }
    }
    assert forall|k: int| 0 <= k < a.nodes.len() && #[trigger] live(a, k) implies computed(a, k)
        && !touched(a, k) by {
        lemma_live_depends(b, a, k);
        lemma_waved_settles(b, a, k);
    }
}

/// Whether a node is live depends on the nodes and their subscribers, and on
/// nothing else.
pub proof fn lemma_live_depends<T, M, C>(g: Wiring<T, M, C>, h: Wiring<T, M, C>, k: int)
    requires
        g.nodes == h.nodes,
        g.subscribers == h.subscribers,
    ensures
        live(g, k) == live(h, k),
    decreases g.nodes.len() - k, g.nodes.len() - k,
{
    if 0 <= k < g.nodes.len() {
        lemma_wanted_depends(g, h, k, k + 1);
    }
}

pub proof fn lemma_wanted_depends<T, M, C>(g: Wiring<T, M, C>, h: Wiring<T, M, C>, k: int, from: int)
    requires
        g.nodes == h.nodes,
        g.subscribers == h.subscribers,
    ensures
        wanted(g, k, from) == wanted(h, k, from),
    decreases g.nodes.len() - k, g.nodes.len() - from,
{
    if 0 <= k < from < g.nodes.len() {
        lemma_wanted_depends(g, h, k, from + 1);
        lemma_live_depends(g, h, from);
    }
}

} // verus!
