use ui_composer::splice::engine::{Change, Composition};
use ui_composer::splice::range::FragmentId;
use ui_composer::splice::rerender::{Rerender, RerenderInner};
use ui_composer::splice::table::SpliceError;
use ui_composer::splice::wave::SpliceRequest;

type Producer = fn() -> Vec<&'static str>;

fn app() -> Composition<&'static str, Producer> {
    let mut composition: Composition<&'static str, Producer> = Composition::new();
    composition.mount(FragmentId(0), vec!["title"], None).unwrap();
    composition.mount(FragmentId(1), vec!["Lorem ipsum dolor sit amet!"], None).unwrap();
    composition
}

#[test]
fn nested_rerender_is_renumbered_into_the_parent() {
    let mut composition = app();
    let event = Rerender::nested(0, 2, Rerender::leaf(1, "This is a new text that has been set!"));
    assert_eq!(composition.apply(event), Ok(Change { start: 1, end: 2, dirty_end: 2 }));
    assert_eq!(composition.primitives(), &["title", "This is a new text that has been set!"]);
    assert_eq!(composition.range_of(FragmentId(1)), Some((1, 2)));
}

#[test]
fn rerender_resolves_through_every_level() {
    let event = Rerender::nested(4, 9, Rerender::nested(1, 4, Rerender::leaf(2, 'x')));
    assert_eq!(event.resolve(), Ok((7, 'x')));
    assert_eq!(Rerender::leaf(3, 'y').resolve(), Ok((3, 'y')));
}

#[test]
fn rerender_outside_its_parent_is_refused() {
    let event = Rerender::nested(4, 6, Rerender::leaf(2, 'x'));
    assert_eq!(event.resolve(), Err(SpliceError::UnknownRange));
    let empty = Rerender::nested(4, 4, Rerender::leaf(0, 'x'));
    assert_eq!(empty.resolve(), Err(SpliceError::UnknownRange));
    let backwards = Rerender::nested(4, 2, Rerender::leaf(0, 'x'));
    assert_eq!(backwards.resolve(), Err(SpliceError::UnknownRange));
}

#[test]
fn leaf_rerender_is_for_one_primitive() {
    let wide = Rerender { start: 1, end: 3, command: RerenderInner::Primitive('x') };
    assert_eq!(
        wide.resolve(),
        Err(SpliceError::ReplacementCountMismatch { expected: 2, found: 1 })
    );
    let none = Rerender { start: 3, end: 3, command: RerenderInner::Primitive('x') };
    assert_eq!(
        none.resolve(),
        Err(SpliceError::ReplacementCountMismatch { expected: 0, found: 1 })
    );
    let backwards = Rerender { start: 3, end: 1, command: RerenderInner::Primitive('x') };
    assert_eq!(
        backwards.resolve(),
        Err(SpliceError::ReplacementCountMismatch { expected: 0, found: 1 })
    );
    let nested = Rerender::nested(0, 9, wide_event());
    assert_eq!(
        nested.resolve(),
        Err(SpliceError::ReplacementCountMismatch { expected: 2, found: 1 })
    );
}

fn wide_event() -> Rerender<char> {
    Rerender { start: 1, end: 3, command: RerenderInner::Primitive('x') }
}

#[test]
fn rerender_beyond_the_buffer_is_refused() {
    let mut composition = app();
    assert_eq!(composition.apply(Rerender::leaf(2, "late")), Err(SpliceError::UnknownRange));
    assert_eq!(composition.primitives(), &["title", "Lorem ipsum dolor sit amet!"]);
}

fn numbers() -> Composition<i32, fn() -> Vec<i32>> {
    let mut composition: Composition<i32, fn() -> Vec<i32>> = Composition::new();
    composition.mount(FragmentId(1), vec![10, 11], None).unwrap();
    composition.mount(FragmentId(2), vec![20], None).unwrap();
    composition.mount(FragmentId(3), vec![30, 31], None).unwrap();
    composition
}

#[test]
fn wave_applies_splices_in_document_order() {
    let mut composition = numbers();
    let changes = composition
        .splice_wave(vec![
            SpliceRequest { fragment: FragmentId(3), content: vec![7] },
            SpliceRequest { fragment: FragmentId(1), content: vec![1, 2, 3] },
            SpliceRequest { fragment: FragmentId(2), content: vec![9] },
        ])
        .unwrap();
    assert_eq!(
        changes,
        vec![
            Change { start: 0, end: 3, dirty_end: 6 },
            Change { start: 3, end: 4, dirty_end: 4 },
            Change { start: 4, end: 5, dirty_end: 5 },
        ]
    );
    assert_eq!(composition.primitives(), &[1, 2, 3, 9, 7]);
    assert_eq!(composition.range_of(FragmentId(1)), Some((0, 3)));
    assert_eq!(composition.range_of(FragmentId(2)), Some((3, 4)));
    assert_eq!(composition.range_of(FragmentId(3)), Some((4, 5)));
}

#[test]
fn wave_applies_requests_for_one_fragment_as_they_were_made() {
    let mut composition = numbers();
    let changes = composition
        .splice_wave(vec![
            SpliceRequest { fragment: FragmentId(2), content: vec![1, 2] },
            SpliceRequest { fragment: FragmentId(2), content: vec![] },
        ])
        .unwrap();
    assert_eq!(
        changes,
        vec![Change { start: 2, end: 4, dirty_end: 6 }, Change { start: 2, end: 2, dirty_end: 4 }]
    );
    assert_eq!(composition.primitives(), &[10, 11, 30, 31]);
}

#[test]
fn wave_with_an_unknown_fragment_changes_nothing() {
    let mut composition = numbers();
    let outcome = composition.splice_wave(vec![
        SpliceRequest { fragment: FragmentId(1), content: vec![] },
        SpliceRequest { fragment: FragmentId(8), content: vec![1] },
    ]);
    assert_eq!(outcome, Err(SpliceError::UnknownRange));
    assert_eq!(composition.primitives(), &[10, 11, 20, 30, 31]);
    assert_eq!(composition.splice_wave(vec![]), Ok(vec![]));
}
