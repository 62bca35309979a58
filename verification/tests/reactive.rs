use std::cell::Cell;
use std::rc::Rc;
use ui_composer::reactive::graph::{GraphError, ReactiveCell, Signal, SignalGraph};

type Mapper = Box<dyn Fn(&i64) -> i64>;
type Combiner = Box<dyn Fn(&i64, &i64) -> i64>;
type Graph = SignalGraph<i64, Mapper, Combiner>;

fn counting_sum(runs: &Rc<Cell<u32>>) -> Combiner {
    let runs = runs.clone();
    Box::new(move |a: &i64, b: &i64| {
        runs.set(runs.get() + 1);
        *a + *b
    })
}

#[test]
fn combine_sees_both_writes_of_a_wave_at_once() {
    let mut graph: Graph = SignalGraph::new();
    let a = graph.cell(10);
    let b = graph.cell(20);
    let runs = Rc::new(Cell::new(0));
    let sum = graph.combine(a.signal(), b.signal(), counting_sum(&runs)).unwrap();
    graph.subscribe(sum).unwrap();
    assert_eq!(graph.run_wave(), vec![sum]);
    assert_eq!(graph.get(sum), Some(&30));
    assert_eq!(runs.get(), 1);

    graph.set(a, 15).unwrap();
    graph.set(b, 25).unwrap();
    assert_eq!(graph.get(sum), Some(&30));
    let emitted = graph.run_wave();
    assert_eq!(emitted, vec![a.signal(), b.signal(), sum]);
    assert_eq!(graph.get(sum), Some(&40));
    assert_eq!(runs.get(), 2);
}

#[test]
fn cell_holds_the_value_last_written() {
    let mut graph: Graph = SignalGraph::new();
    let cell = graph.cell(1);
    assert_eq!(graph.get(cell.signal()), Some(&1));
    graph.set(cell, 2).unwrap();
    graph.set(cell, 3).unwrap();
    assert_eq!(graph.get(cell.signal()), Some(&3));
    assert_eq!(graph.len(), 1);
}

#[test]
fn signal_without_subscriber_does_no_work() {
    let mut graph: Graph = SignalGraph::new();
    let cell = graph.cell(1);
    let runs = Rc::new(Cell::new(0));
    let counted = runs.clone();
    let doubled = graph
        .map(
            cell.signal(),
            Box::new(move |x: &i64| {
                counted.set(counted.get() + 1);
                2 * *x
            }),
        )
        .unwrap();
    assert!(graph.run_wave().is_empty());
    assert_eq!(graph.get(doubled), None);
    assert!(graph.is_stale(doubled));
    graph.set(cell, 5).unwrap();
    assert!(graph.run_wave().is_empty());
    assert_eq!(runs.get(), 0);

    graph.subscribe(doubled).unwrap();
    assert_eq!(graph.run_wave(), vec![doubled]);
    assert_eq!(graph.get(doubled), Some(&10));
    assert!(!graph.is_stale(doubled));
    assert_eq!(runs.get(), 1);
}

#[test]
fn wave_without_news_runs_nothing() {
    let mut graph: Graph = SignalGraph::new();
    let cell = graph.cell(1);
    let runs = Rc::new(Cell::new(0));
    let counted = runs.clone();
    let next = graph
        .map(
            cell.signal(),
            Box::new(move |x: &i64| {
                counted.set(counted.get() + 1);
                *x + 1
            }),
        )
        .unwrap();
    graph.subscribe(next).unwrap();
    assert_eq!(graph.run_wave(), vec![next]);
    assert!(graph.run_wave().is_empty());
    assert!(graph.run_wave().is_empty());
    assert_eq!(runs.get(), 1);
    assert_eq!(graph.get(next), Some(&2));
}

#[test]
fn dropping_the_last_subscriber_stops_recomputation() {
    let mut graph: Graph = SignalGraph::new();
    let cell = graph.cell(1);
    let runs = Rc::new(Cell::new(0));
    let counted = runs.clone();
    let next = graph
        .map(
            cell.signal(),
            Box::new(move |x: &i64| {
                counted.set(counted.get() + 1);
                *x + 1
            }),
        )
        .unwrap();
    graph.subscribe(next).unwrap();
    graph.subscribe(next).unwrap();
    graph.run_wave();
    graph.unsubscribe(next).unwrap();
    graph.set(cell, 2).unwrap();
    assert_eq!(graph.run_wave(), vec![cell.signal(), next]);
    assert_eq!(runs.get(), 2);

    graph.unsubscribe(next).unwrap();
    graph.set(cell, 3).unwrap();
    assert!(graph.run_wave().is_empty());
    assert_eq!(runs.get(), 2);
    assert_eq!(graph.get(next), Some(&3));
    assert!(graph.is_stale(next));
    assert_eq!(graph.unsubscribe(next), Err(GraphError::NotSubscribed));

    graph.subscribe(next).unwrap();
    assert_eq!(graph.run_wave(), vec![next]);
    assert_eq!(graph.get(next), Some(&4));
}

#[test]
fn chain_is_recomputed_once_per_wave_in_order() {
    let mut graph: Graph = SignalGraph::new();
    let a = graph.cell(1);
    let b = graph.cell(2);
    let runs = Rc::new(Cell::new(0));
    let sum = graph.combine(a.signal(), b.signal(), counting_sum(&runs)).unwrap();
    let twice = graph.map(sum, Box::new(|x: &i64| 2 * *x)).unwrap();
    let both = graph.combine(sum, twice, counting_sum(&runs)).unwrap();
    graph.subscribe(both).unwrap();
    assert_eq!(graph.liveness(), vec![true, true, true, true, true]);
    assert_eq!(graph.run_wave(), vec![sum, twice, both]);
    assert_eq!(graph.get(both), Some(&9));
    assert_eq!(runs.get(), 2);
    graph.set(b, 10).unwrap();
    assert_eq!(graph.run_wave(), vec![b.signal(), sum, twice, both]);
    assert_eq!(graph.get(sum), Some(&11));
    assert_eq!(graph.get(twice), Some(&22));
    assert_eq!(graph.get(both), Some(&33));
    assert_eq!(runs.get(), 4);
}

#[test]
fn only_what_depends_on_the_written_cell_is_recomputed() {
    let mut graph: Graph = SignalGraph::new();
    let a = graph.cell(1);
    let b = graph.cell(2);
    let left_runs = Rc::new(Cell::new(0));
    let right_runs = Rc::new(Cell::new(0));
    let counted = left_runs.clone();
    let left = graph
        .map(
            a.signal(),
            Box::new(move |x: &i64| {
                counted.set(counted.get() + 1);
                *x
            }),
        )
        .unwrap();
    let counted = right_runs.clone();
    let right = graph
        .map(
            b.signal(),
            Box::new(move |x: &i64| {
                counted.set(counted.get() + 1);
                *x
            }),
        )
        .unwrap();
    graph.subscribe(left).unwrap();
    graph.subscribe(right).unwrap();
    graph.run_wave();
    graph.set(a, 7).unwrap();
    assert_eq!(graph.run_wave(), vec![a.signal(), left]);
    assert_eq!((left_runs.get(), right_runs.get()), (2, 1));
    assert_eq!(graph.liveness(), vec![true, true, true, true]);
}

#[test]
fn handles_of_other_graphs_are_refused() {
    let mut graph: Graph = SignalGraph::new();
    let cell = graph.cell(1);
    let derived = graph.map(cell.signal(), Box::new(|x: &i64| *x)).unwrap();
    let beyond = Signal { node: 9 };
    assert_eq!(graph.set(ReactiveCell { node: 9 }, 1), Err(GraphError::UnknownNode));
    assert_eq!(graph.set(ReactiveCell { node: derived.node }, 1), Err(GraphError::NotACell));
    assert_eq!(graph.map(beyond, Box::new(|x: &i64| *x)).err(), Some(GraphError::UnknownNode));
    assert_eq!(
        graph.combine(cell.signal(), beyond, Box::new(|x: &i64, _: &i64| *x)).err(),
        Some(GraphError::UnknownNode)
    );
    assert_eq!(graph.subscribe(beyond), Err(GraphError::UnknownNode));
    assert_eq!(graph.unsubscribe(beyond), Err(GraphError::UnknownNode));
    assert_eq!(graph.get(beyond), None);
    assert!(!graph.is_stale(beyond));
    assert_eq!(graph.len(), 2);
}

#[test]
fn new_subscriber_is_handed_the_current_value_once() {
    let mut graph: Graph = SignalGraph::new();
    let cell = graph.cell(4);
    graph.subscribe(cell.signal()).unwrap();
    assert_eq!(graph.run_wave(), vec![cell.signal()]);
    assert_eq!(graph.get(cell.signal()), Some(&4));
    assert!(graph.run_wave().is_empty());

    let next = graph.map(cell.signal(), Box::new(|x: &i64| *x + 1)).unwrap();
    graph.subscribe(next).unwrap();
    assert_eq!(graph.run_wave(), vec![next]);
    graph.subscribe(next).unwrap();
    assert_eq!(graph.run_wave(), vec![next]);
    assert_eq!(graph.get(next), Some(&5));
    assert!(graph.run_wave().is_empty());
}

#[test]
fn writes_before_a_wave_emit_once_with_the_last_value() {
    let mut graph: Graph = SignalGraph::new();
    let cell = graph.cell(0);
    let next = graph.map(cell.signal(), Box::new(|x: &i64| *x * 10)).unwrap();
    graph.subscribe(next).unwrap();
    graph.run_wave();
    graph.set(cell, 1).unwrap();
    graph.set(cell, 2).unwrap();
    graph.set(cell, 3).unwrap();
    assert_eq!(graph.run_wave(), vec![cell.signal(), next]);
    assert_eq!(graph.get(next), Some(&30));
}
