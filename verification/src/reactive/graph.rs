//! The signal graph: cells, the signals derived from them, and the waves in
//! which a change reaches what depends on it. A wave visits the nodes in the
//! order in which they were made.

use vstd::prelude::*;
use super::wiring::{
    computed,
    emits,
    extended,
    lemma_extended_sound,
    lemma_sources_are_live,
    lemma_subscribed_sound,
    lemma_waved_sound,
    lemma_written_sound,
    live,
    shaped,
    sound,
    subscribed,
    touched,
    wanted,
    waved,
    waved_at,
    written,
    Node,
    Wiring,
};

verus! {

/// The handle of a cell.
#[derive(Debug, Clone, Copy, PartialEq, Eq, Structural)]
pub struct ReactiveCell {
    pub node: usize,
}

/// The handle of a node as something to read and to subscribe to.
#[derive(Debug, Clone, Copy, PartialEq, Eq, Structural)]
pub struct Signal {
    pub node: usize,
}

impl ReactiveCell {
    /// The cell as a signal.
    pub fn signal(&self) -> (signal: Signal)
        ensures
            signal.node == self.node,
    {
        Signal { node: self.node }
    }
}

/// Why the graph was left as it was.
#[derive(Debug, Clone, Copy, PartialEq, Eq, Structural)]
pub enum GraphError {
    /// The handle names no node of this graph.
    UnknownNode,
    /// The node is no cell.
    NotACell,
    /// Nobody is subscribed to the node.
    NotSubscribed,
    /// The node has as many subscribers as can be counted.
    TooManySubscribers,
}

/// A graph of cells and of the signals derived from them.
pub struct SignalGraph<T, M, C> {
    nodes: Vec<Node<M, C>>,
    values: Vec<Option<T>>,
    stale: Vec<bool>,
    pending: Vec<bool>,
    owed: Vec<bool>,
    subscribers: Vec<usize>,
}

impl<T, M, C> View for SignalGraph<T, M, C> {
    type V = Wiring<T, M, C>;

    closed spec fn view(&self) -> Wiring<T, M, C> {
        Wiring {
            nodes: self.nodes@,
            values: self.values@,
            stale: self.stale@,
            pending: self.pending@,
            owed: self.owed@,
            subscribers: self.subscribers@,
        }
    }
}

impl<T, M: Fn(&T) -> T, C: Fn(&T, &T) -> T> SignalGraph<T, M, C> {
    /// The graph is sound.
    pub open spec fn wf(&self) -> bool {
        sound(self@)
    }

    /// A graph without nodes.
    pub fn new() -> (graph: Self)
        ensures
            graph@.nodes.len() == 0,
            graph.wf(),
    {
        SignalGraph {
            nodes: Vec::new(),
            values: Vec::new(),
            stale: Vec::new(),
            pending: Vec::new(),
            owed: Vec::new(),
            subscribers: Vec::new(),
        }
    }

    /// The number of nodes.
    pub fn len(&self) -> (len: usize)
        ensures
            len == self@.nodes.len(),
    {
        self.nodes.len()
    }

    fn add(&mut self, node: Node<M, C>, value: Option<T>) -> (place: usize)
        requires
            old(self).wf(),
            match node {
                Node::Cell => value is Some,
                Node::Mapped { source, func } => {
                    &&& value is None
                    &&& source < old(self)@.nodes.len()
                    &&& forall|x: T| call_requires(func, (&x,))
                },
                Node::Combined { left, right, func } => {
                    &&& value is None
                    &&& left < old(self)@.nodes.len()
                    &&& right < old(self)@.nodes.len()
                    &&& forall|x: T, y: T| call_requires(func, (&x, &y))
                },
            },
        ensures
            final(self)@ == extended(old(self)@, node, value),
            final(self).wf(),
            place == old(self)@.nodes.len(),
    {
        proof {
            lemma_extended_sound(self@, node, value);
        }
        let place: usize = self.nodes.len();
        let unset: bool = value.is_none();
        self.nodes.push(node);
        self.values.push(value);
        self.stale.push(unset);
        self.pending.push(false);
        self.owed.push(false);
        self.subscribers.push(0);
        place
    }

    /// Makes a cell that holds `value`.
    pub fn cell(&mut self, value: T) -> (cell: ReactiveCell)
        requires
            old(self).wf(),
        ensures
            final(self)@ == extended(old(self)@, Node::Cell, Some(value)),
            final(self).wf(),
            cell.node == old(self)@.nodes.len(),
    {
        ReactiveCell { node: self.add(Node::Cell, Some(value)) }
    }

    /// Makes the signal of what `func` gives for the value of `source`.
    /// Nothing is computed before the signal is live.
    pub fn map(&mut self, source: Signal, func: M) -> (outcome: Result<Signal, GraphError>)
        requires
            old(self).wf(),
            forall|x: T| call_requires(func, (&x,)),
        ensures
            final(self).wf(),
            match outcome {
                Ok(signal) => {
                    &&& source.node < old(self)@.nodes.len()
                    &&& signal.node == old(self)@.nodes.len()
                    &&& final(self)@ == extended(
                        old(self)@,
                        Node::Mapped { source: source.node, func },
                        None,
                    )
                },
                Err(error) => {
                    &&& error == GraphError::UnknownNode
                    &&& source.node >= old(self)@.nodes.len()
                    &&& final(self)@ == old(self)@
                },
            },
    {
        if source.node >= self.nodes.len() {
            return Err(GraphError::UnknownNode);
        }
        Ok(Signal { node: self.add(Node::Mapped { source: source.node, func }, None) })
    }

    /// Makes the signal of what `func` gives for the values of `left` and of
    /// `right`. Nothing is computed before the signal is live.
    pub fn combine(&mut self, left: Signal, right: Signal, func: C) -> (outcome: Result<
        Signal,
        GraphError,
    >)
        requires
            old(self).wf(),
            forall|x: T, y: T| call_requires(func, (&x, &y)),
        ensures
            final(self).wf(),
            match outcome {
                Ok(signal) => {
                    &&& left.node < old(self)@.nodes.len()
                    &&& right.node < old(self)@.nodes.len()
                    &&& signal.node == old(self)@.nodes.len()
                    &&& final(self)@ == extended(
                        old(self)@,
                        Node::Combined { left: left.node, right: right.node, func },
                        None,
                    )
                },
                Err(error) => {
                    &&& error == GraphError::UnknownNode
                    &&& (left.node >= old(self)@.nodes.len() || right.node >= old(
                        self,
                    )@.nodes.len())
                    &&& final(self)@ == old(self)@
                },
            },
    {
        if left.node >= self.nodes.len() || right.node >= self.nodes.len() {
            return Err(GraphError::UnknownNode);
        }
        Ok(
            Signal {
                node: self.add(
                    Node::Combined { left: left.node, right: right.node, func },
                    None,
                ),
            },
        )
    }

    /// The value that the node has now: for a cell the value last written,
    /// for a derived node the value last computed, if any.
    pub fn get(&self, signal: Signal) -> (value: Option<&T>)
        requires
            self.wf(),
        ensures
            match value {
                Some(v) => signal.node < self@.nodes.len() && self@.values[signal.node as int]
                    == Some(*v),
                None => signal.node >= self@.nodes.len() || self@.values[signal.node as int]
                    is None,
            },
    {
        if signal.node >= self.values.len() {
            return None;
        }
        self.values[signal.node].as_ref()
    }

    /// Writes `value` to a cell. The nodes that depend on the cell hear of
    /// it in the next wave.
    pub fn set(&mut self, cell: ReactiveCell, value: T) -> (outcome: Result<(), GraphError>)
        requires
            old(self).wf(),
        ensures
            final(self).wf(),
            match outcome {
                Ok(()) => {
                    &&& cell.node < old(self)@.nodes.len()
                    &&& old(self)@.nodes[cell.node as int] is Cell
                    &&& final(self)@ == written(old(self)@, cell.node as int, value)
                },
                Err(GraphError::UnknownNode) => {
                    &&& cell.node >= old(self)@.nodes.len()
                    &&& final(self)@ == old(self)@
                },
                Err(GraphError::NotACell) => {
                    &&& cell.node < old(self)@.nodes.len()
                    &&& !(old(self)@.nodes[cell.node as int] is Cell)
                    &&& final(self)@ == old(self)@
                },
                Err(_) => false,
            },
    {
        if cell.node >= self.nodes.len() {
            return Err(GraphError::UnknownNode);
        }
        let is_cell: bool = match &self.nodes[cell.node] {
            Node::Cell => true,
            _ => false,
        };
        if !is_cell {
            return Err(GraphError::NotACell);
        }
        proof {
            lemma_written_sound(self@, cell.node as int, value);
        }
        self.values.set(cell.node, Some(value));
        self.pending.set(cell.node, true);
        Ok(())
    }

    /// Adds a subscriber to a node.
    pub fn subscribe(&mut self, signal: Signal) -> (outcome: Result<(), GraphError>)
        requires
            old(self).wf(),
        ensures
            final(self).wf(),
            match outcome {
                Ok(()) => {
                    &&& signal.node < old(self)@.nodes.len()
                    &&& old(self)@.subscribers[signal.node as int] < usize::MAX
                    &&& final(self)@ == subscribed(
                        old(self)@,
                        signal.node as int,
                        (old(self)@.subscribers[signal.node as int] + 1) as usize,
                    )
                },
                Err(GraphError::UnknownNode) => {
                    &&& signal.node >= old(self)@.nodes.len()
                    &&& final(self)@ == old(self)@
                },
                Err(GraphError::TooManySubscribers) => {
                    &&& signal.node < old(self)@.nodes.len()
                    &&& old(self)@.subscribers[signal.node as int] == usize::MAX
                    &&& final(self)@ == old(self)@
                },
                Err(_) => false,
            },
    {
        if signal.node >= self.nodes.len() {
            return Err(GraphError::UnknownNode);
        }
        let count: usize = self.subscribers[signal.node];
        if count == usize::MAX {
            return Err(GraphError::TooManySubscribers);
        }
        proof {
            lemma_subscribed_sound(self@, signal.node as int, (count + 1) as usize);
        }
        self.subscribers.set(signal.node, count + 1);
        self.owed.set(signal.node, true);
        assert(self@.owed =~= subscribed(
            old(self)@,
            signal.node as int,
            (count + 1) as usize,
        ).owed);
        Ok(())
    }

    /// Takes a subscriber from a node. A node that nobody is subscribed to,
    /// directly or through a node that depends on it, does no more work.
    pub fn unsubscribe(&mut self, signal: Signal) -> (outcome: Result<(), GraphError>)
        requires
            old(self).wf(),
        ensures
            final(self).wf(),
            match outcome {
                Ok(()) => {
                    &&& signal.node < old(self)@.nodes.len()
                    &&& old(self)@.subscribers[signal.node as int] > 0
                    &&& final(self)@ == subscribed(
                        old(self)@,
                        signal.node as int,
                        (old(self)@.subscribers[signal.node as int] - 1) as usize,
                    )
                },
                Err(GraphError::UnknownNode) => {
                    &&& signal.node >= old(self)@.nodes.len()
                    &&& final(self)@ == old(self)@
                },
                Err(GraphError::NotSubscribed) => {
                    &&& signal.node < old(self)@.nodes.len()
                    &&& old(self)@.subscribers[signal.node as int] == 0
                    &&& final(self)@ == old(self)@
                },
                Err(_) => false,
            },
    {
        if signal.node >= self.nodes.len() {
            return Err(GraphError::UnknownNode);
        }
        let count: usize = self.subscribers[signal.node];
        if count == 0 {
            return Err(GraphError::NotSubscribed);
        }
        proof {
            lemma_subscribed_sound(self@, signal.node as int, (count - 1) as usize);
        }
        self.subscribers.set(signal.node, count - 1);
        assert(self@.owed =~= subscribed(
            old(self)@,
            signal.node as int,
            (count - 1) as usize,
        ).owed);
        Ok(())
    }

    /// Which nodes are live.
    pub fn liveness(&self) -> (flags: Vec<bool>)
        requires
            self.wf(),
        ensures
            flags.len() == self@.nodes.len(),
            forall|k: int| 0 <= k < flags.len() ==> flags[k] == live(self@, k),
    {
        let ghost g = self@;
        let n: usize = self.nodes.len();
        let mut flags: Vec<bool> = Vec::new();
        let mut j: usize = 0;
        while j < n
            invariant
                j <= n,
                n == self.nodes.len(),
                n == self.subscribers.len(),
                g == self@,
                flags.len() == j,
                forall|i: int| 0 <= i < j ==> flags[i] == wanted(g, i, n as int),
            decreases n - j,
        {
            flags.push(self.subscribers[j] > 0);
            j = j + 1;
        }
        let mut k: usize = n;
        while k > 0
            invariant
                k <= n,
                n == self.nodes.len(),
                g == self@,
                shaped(g),
                flags.len() == n,
                forall|i: int| k <= i < n ==> flags[i] == live(g, i),
                forall|i: int| 0 <= i < k ==> flags[i] == wanted(g, i, k as int),
            decreases k,
        {
            k = k - 1;
            let ghost marks = flags@;
            assert(marks[k as int] == live(g, k as int));
            if flags[k] {
                match &self.nodes[k] {
                    Node::Cell => {},
                    Node::Mapped { source, .. } => {
                        flags.set(*source, true);
                    },
                    Node::Combined { left, right, .. } => {
                        flags.set(*left, true);
                        flags.set(*right, true);
                    },
                }
            }
            assert forall|i: int| 0 <= i < k implies flags[i] == wanted(g, i, k as int) by {
                assert(marks[i] == wanted(g, i, k + 1));
            }
        }
        flags
    }

    /// Runs a wave: every live node of which there is news is brought up to
    /// date, in the order of the nodes, each once. The signals that emit in
    /// the wave are handed back in that order: the live nodes that were
    /// written or computed, and those whose value a new subscriber is owed.
    pub fn run_wave(&mut self) -> (emitted: Vec<Signal>)
        requires
            old(self).wf(),
        ensures
            final(self).wf(),
            waved(old(self)@, final(self)@),
            forall|i: int, j: int|
                0 <= i < j < emitted.len() ==> emitted[i].node < emitted[j].node,
            forall|i: int|
                0 <= i < emitted.len() ==> (#[trigger] emitted[i]).node < old(self)@.nodes.len()
                    && emits(old(self)@, emitted[i].node as int),
            forall|k: int|
                0 <= k < old(self)@.nodes.len() && emits(old(self)@, k) ==> exists|i: int|
                    0 <= i < emitted.len() && (#[trigger] emitted[i]).node == k,
    {
        let ghost b = self@;
        let flags = self.liveness();
        let n: usize = self.nodes.len();
        let mut news: Vec<bool> = Vec::new();
        let mut emitted: Vec<Signal> = Vec::new();
        let mut k: usize = 0;
        while k < n
            invariant
                k <= n,
                sound(b),
                n == b.nodes.len(),
                self@.nodes == b.nodes,
                self@.pending == b.pending,
                self@.owed == b.owed,
                self@.subscribers == b.subscribers,
                self@.values.len() == n,
                self@.stale.len() == n,
                flags.len() == n,
                forall|j: int| 0 <= j < n ==> flags[j] == live(b, j),
                news.len() == k,
                forall|j: int| 0 <= j < k ==> news[j] == touched(b, j),
                self@.values.subrange(k as int, n as int) == b.values.subrange(k as int, n as int),
                self@.stale.subrange(k as int, n as int) == b.stale.subrange(k as int, n as int),
                forall|j: int| 0 <= j < k ==> #[trigger] waved_at(b, self@, j),
                forall|j: int| 0 <= j < k && #[trigger] live(b, j) ==> self@.values[j] is Some,
                forall|i: int, j: int|
                    0 <= i < j < emitted.len() ==> emitted[i].node < emitted[j].node,
                forall|i: int|
                    0 <= i < emitted.len() ==> (#[trigger] emitted[i]).node < k && emits(
                        b,
                        emitted[i].node as int,
                    ),
                forall|j: int|
                    0 <= j < k && emits(b, j) ==> exists|i: int|
                        0 <= i < emitted.len() && (#[trigger] emitted[i]).node == j,
            decreases n - k,
        {
            let ghost held = self@;
            let ghost sent = emitted@;
            proof {
                assert(held.values[k as int] == held.values.subrange(k as int, n as int)[0]);
                assert(held.stale[k as int] == held.stale.subrange(k as int, n as int)[0]);
                assert(b.values[k as int] == b.values.subrange(k as int, n as int)[0]);
                assert(b.stale[k as int] == b.stale.subrange(k as int, n as int)[0]);
                assert(b.nodes[k as int] == b.nodes[k as int]);
            }
            let mut fresh: Option<T> = None;
            let mut derived: bool = true;
            let heard: bool = match &self.nodes[k] {
                Node::Cell => {
                    derived = false;
                    self.pending[k]
                },
                Node::Mapped { source, func } => {
                    let heard: bool = self.stale[k] || news[*source];
                    if heard && flags[k] {
                        proof {
                            lemma_sources_are_live(b, *source as int, k as int);
                            assert(live(b, *source as int));
                            assert(held.values[*source as int] is Some);
                        }
                        match &self.values[*source] {
                            Some(x) => {
                                fresh = Some(func(x));
                            },
                            None => {},
                        }
                    }
                    heard
                },
                Node::Combined { left, right, func } => {
                    let heard: bool = self.stale[k] || news[*left] || news[*right];
                    if heard && flags[k] {
                        proof {
                            lemma_sources_are_live(b, *left as int, k as int);
                            lemma_sources_are_live(b, *right as int, k as int);
                            assert(live(b, *left as int));
                            assert(live(b, *right as int));
                            assert(held.values[*left as int] is Some);
                            assert(held.values[*right as int] is Some);
                        }
                        match &self.values[*left] {
                            Some(x) => {
                                match &self.values[*right] {
                                    Some(y) => {
                                        fresh = Some(func(x, y));
                                    },
                                    None => {},
                                }
                            },
                            None => {},
                        }
                    }
                    heard
                },
            };
            assert(heard == touched(b, k as int));
            if heard {
                if flags[k] {
                    if derived {
                        assert(fresh is Some);
                        self.values.set(k, fresh);
                        self.stale.set(k, false);
                        assert(computed(self@, k as int));
                    }
                } else if derived {
                    self.stale.set(k, true);
                }
            }
            if flags[k] && (heard || self.owed[k]) {
                emitted.push(Signal { node: k });
            }
            news.push(heard);
            proof {
                assert(self@.values.subrange(k + 1, n as int) =~= held.values.subrange(
                    k as int,
                    n as int,
                ).subrange(1, n - k));
                assert(b.values.subrange(k + 1, n as int) =~= b.values.subrange(
                    k as int,
                    n as int,
                ).subrange(1, n - k));
                assert(self@.stale.subrange(k + 1, n as int) =~= held.stale.subrange(
                    k as int,
                    n as int,
                ).subrange(1, n - k));
                assert(b.stale.subrange(k + 1, n as int) =~= b.stale.subrange(
                    k as int,
                    n as int,
                ).subrange(1, n - k));
                assert forall|j: int| 0 <= j < k + 1 implies #[trigger] waved_at(b, self@, j) by {
                    if j < k {
                        assert(waved_at(b, held, j));
                        assert(self@.values[j] == held.values[j]);
                        assert(self@.stale[j] == held.stale[j]);
                        match b.nodes[j] {
                            Node::Cell => {},
                            Node::Mapped { source, .. } => {
                                assert(self@.values[source as int] == held.values[source as int]);
                            },
                            Node::Combined { left, right, .. } => {
                                assert(self@.values[left as int] == held.values[left as int]);
                                assert(self@.values[right as int] == held.values[right as int]);
                            },
                        }
                    }
                }
                assert forall|j: int| 0 <= j < k + 1 && #[trigger] live(b, j) implies self@.values[j]
                    is Some by {
                    if j < k {
                        assert(held.values[j] is Some);
                        assert(self@.values[j] == held.values[j]);
                    } else if !touched(b, k as int) {
                        assert(computed(b, k as int));
                    }
                }
                assert forall|j: int| 0 <= j < k + 1 && emits(b, j) implies exists|i: int|
                    0 <= i < emitted.len() && (#[trigger] emitted[i]).node == j by {
                    if j < k {
                        let i = choose|i: int| 0 <= i < sent.len() && (#[trigger] sent[i]).node == j;
                        assert(emitted[i].node == j);
                    } else {
                        assert(emitted[emitted.len() - 1].node == k);
                    }
                }
            }
            k = k + 1;
        }
        let mut j: usize = 0;
        let ghost computed_state = self@;
        while j < n
            invariant
                j <= n,
                n == self.pending.len(),
                n == self.owed.len(),
                self@.nodes == computed_state.nodes,
                self@.values == computed_state.values,
                self@.stale == computed_state.stale,
                self@.subscribers == computed_state.subscribers,
                forall|i: int| 0 <= i < j ==> !#[trigger] self@.pending[i],
                forall|i: int| 0 <= i < j ==> !#[trigger] self@.owed[i],
            decreases n - j,
        {
            let ghost had = self@;
            self.pending.set(j, false);
            self.owed.set(j, false);
            assert forall|i: int| 0 <= i < j + 1 implies !#[trigger] self@.pending[i] by {
                if i < j {
                    assert(!had.pending[i]);
                }
            }
            assert forall|i: int| 0 <= i < j + 1 implies !#[trigger] self@.owed[i] by {
                if i < j {
                    assert(!had.owed[i]);
                }
            }
            j = j + 1;
        }
        proof {
            let a = self@;
            assert forall|i: int| 0 <= i < b.nodes.len() implies #[trigger] waved_at(b, a, i) by {
                assert(waved_at(b, computed_state, i));
            }
            assert(waved(b, a));
            lemma_waved_sound(b, a);
        }
        emitted
    }

    /// Whether the value of the node is behind what it depends on.
    pub fn is_stale(&self, signal: Signal) -> (stale: bool)
        requires
            self.wf(),
        ensures
            stale == (signal.node < self@.nodes.len() && self@.stale[signal.node as int]),
    {
        signal.node < self.stale.len() && self.stale[signal.node]
    }
}

} // verus!
