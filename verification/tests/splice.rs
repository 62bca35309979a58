use ui_composer::splice::engine::{Change, Composition};
use ui_composer::splice::range::{FragmentId, UIRange};
use ui_composer::splice::table::{RangeTable, SpliceError};

type Producer = fn() -> Vec<i32>;

fn three_siblings() -> Composition<i32, Producer> {
    let mut composition: Composition<i32, Producer> = Composition::new();
    assert_eq!(composition.mount(FragmentId(1), vec![10, 11], None), Ok((0, 2)));
    assert_eq!(composition.mount(FragmentId(2), vec![20], None), Ok((2, 3)));
    assert_eq!(composition.mount(FragmentId(3), vec![30, 31], None), Ok((3, 5)));
    composition
}

#[test]
fn resize_of_middle_fragment_shifts_later_sibling() {
    let mut composition = three_siblings();
    let change = composition.splice(FragmentId(2), vec![21, 22, 23]).unwrap();
    assert_eq!(change, Change { start: 2, end: 5, dirty_end: 7 });
    assert_eq!(composition.range_of(FragmentId(1)), Some((0, 2)));
    assert_eq!(composition.range_of(FragmentId(2)), Some((2, 5)));
    assert_eq!(composition.range_of(FragmentId(3)), Some((5, 7)));
    assert_eq!(composition.len(), 7);
    assert_eq!(composition.primitives(), &[10, 11, 21, 22, 23, 30, 31]);
}

#[test]
fn equal_length_splice_writes_in_place() {
    let mut composition = three_siblings();
    let change = composition.splice(FragmentId(3), vec![32, 33]).unwrap();
    assert_eq!(change, Change { start: 3, end: 5, dirty_end: 5 });
    assert_eq!(composition.primitives(), &[10, 11, 20, 32, 33]);
    assert_eq!(composition.range_of(FragmentId(1)), Some((0, 2)));
    assert_eq!(composition.range_of(FragmentId(2)), Some((2, 3)));
    assert_eq!(composition.range_of(FragmentId(3)), Some((3, 5)));
}

#[test]
fn splice_of_same_content_changes_nothing() {
    let mut composition = three_siblings();
    composition.splice(FragmentId(1), vec![10, 11]).unwrap();
    assert_eq!(composition.primitives(), &[10, 11, 20, 30, 31]);
    assert_eq!(composition.range_of(FragmentId(1)), Some((0, 2)));
    assert_eq!(composition.range_of(FragmentId(2)), Some((2, 3)));
    assert_eq!(composition.range_of(FragmentId(3)), Some((3, 5)));
}

#[test]
fn shrinking_splice_moves_later_ranges_down() {
    let mut composition = three_siblings();
    let change = composition.splice(FragmentId(1), vec![]).unwrap();
    assert_eq!(change, Change { start: 0, end: 0, dirty_end: 3 });
    assert_eq!(composition.primitives(), &[20, 30, 31]);
    assert_eq!(composition.range_of(FragmentId(1)), Some((0, 0)));
    assert_eq!(composition.range_of(FragmentId(2)), Some((0, 1)));
    assert_eq!(composition.range_of(FragmentId(3)), Some((1, 3)));
}

#[test]
fn splice_of_unknown_fragment_is_an_error() {
    let mut composition = three_siblings();
    assert_eq!(composition.splice(FragmentId(9), vec![1]), Err(SpliceError::UnknownRange));
    assert_eq!(composition.primitives(), &[10, 11, 20, 30, 31]);
}

#[test]
fn overwrite_with_wrong_count_is_an_error() {
    let mut composition = three_siblings();
    assert_eq!(
        composition.overwrite(FragmentId(3), vec![1]),
        Err(SpliceError::ReplacementCountMismatch { expected: 2, found: 1 })
    );
    assert_eq!(
        composition.overwrite(FragmentId(2), vec![1, 2]),
        Err(SpliceError::ReplacementCountMismatch { expected: 1, found: 2 })
    );
    assert_eq!(composition.overwrite(FragmentId(9), vec![1]), Err(SpliceError::UnknownRange));
    assert_eq!(composition.primitives(), &[10, 11, 20, 30, 31]);
    assert_eq!(
        composition.overwrite(FragmentId(3), vec![1, 2]),
        Ok(Change { start: 3, end: 5, dirty_end: 5 })
    );
    assert_eq!(composition.primitives(), &[10, 11, 20, 1, 2]);
}

#[test]
fn mounting_twice_is_an_error() {
    let mut composition = three_siblings();
    assert_eq!(composition.mount(FragmentId(2), vec![1], None), Err(SpliceError::DuplicateFragment));
    assert_eq!(composition.len(), 5);
    assert_eq!(composition.fragment_count(), 3);
}

#[test]
fn release_takes_the_entry_and_its_primitives() {
    let mut composition = three_siblings();
    let change = composition.release(FragmentId(2)).unwrap();
    assert_eq!(change, Change { start: 2, end: 2, dirty_end: 4 });
    assert_eq!(composition.primitives(), &[10, 11, 30, 31]);
    assert_eq!(composition.range_of(FragmentId(2)), None);
    assert_eq!(composition.range_of(FragmentId(3)), Some((2, 4)));
    assert_eq!(composition.fragment_count(), 2);
    assert_eq!(composition.release(FragmentId(2)), Err(SpliceError::UnknownRange));
}

#[test]
fn ranges_tile_after_a_sequence_of_splices() {
    let mut composition = three_siblings();
    composition.splice(FragmentId(2), vec![1, 2, 3, 4]).unwrap();
    composition.splice(FragmentId(1), vec![]).unwrap();
    composition.splice(FragmentId(3), vec![7]).unwrap();
    composition.splice(FragmentId(1), vec![5, 6, 7]).unwrap();
    let table = composition.table();
    let mut expected_start = 0;
    for k in 0..table.len() {
        let (start, end) = table.bounds(k);
        assert_eq!(start, expected_start);
        assert!(start <= end);
        expected_start = end;
    }
    assert_eq!(expected_start, composition.len());
    assert_eq!(table.covered(), composition.len());
    assert_eq!(composition.primitives(), &[5, 6, 7, 1, 2, 3, 4, 7]);
}

#[test]
fn range_table_resizes_and_releases() {
    let mut table: RangeTable<Producer> = RangeTable::new();
    assert_eq!(table.append(FragmentId(7), 2, None), Ok((0, 2)));
    assert_eq!(table.append(FragmentId(8), 0, None), Ok((2, 2)));
    assert_eq!(table.append(FragmentId(9), 3, None), Ok((2, 5)));
    assert_eq!(table.find(FragmentId(9)), Some(2));
    assert_eq!(table.find(FragmentId(1)), None);
    assert_eq!(table.fragment_at(1), FragmentId(8));
    table.resize(0, 5);
    assert_eq!(table.bounds(0), (0, 5));
    assert_eq!(table.bounds(1), (5, 5));
    assert_eq!(table.bounds(2), (5, 8));
    table.release(0);
    assert_eq!(table.len(), 2);
    assert_eq!(table.range_of(FragmentId(9)), Some((0, 3)));
    assert_eq!(table.covered(), 3);
    assert!(table.replacer(0).is_none());
}

#[test]
fn range_is_renumbered_into_parent_coordinates() {
    let local: UIRange<Producer> = UIRange::new(1, 4);
    assert_eq!(local.range(), (1, 4));
    assert_eq!(local.len(), 3);
    assert!(!local.is_empty());
    assert!(!local.has_replacer());
    let global = local.rebased(10).unwrap();
    assert_eq!(global.range(), (11, 14));
    let far: UIRange<Producer> = UIRange::new(0, 2);
    assert!(far.rebased(usize::MAX - 1).is_none());
    let held: UIRange<Producer> = UIRange::new(2, 4).with_replacer(four as Producer);
    assert!(held.has_replacer());
    assert_eq!(held.range(), (2, 4));
    let empty: UIRange<Producer> = UIRange::new(3, 3);
    assert!(empty.is_empty());
    assert_eq!(empty.len(), 0);
}

fn four() -> Vec<i32> {
    vec![40, 41]
}

fn one() -> Vec<i32> {
    vec![50]
}

#[test]
fn refresh_takes_what_the_producer_yields() {
    let mut composition = three_siblings();
    composition.mount(FragmentId(4), vec![0, 0], Some(four as Producer)).unwrap();
    composition.mount(FragmentId(5), vec![0, 0], Some(one as Producer)).unwrap();
    assert_eq!(composition.refresh(FragmentId(4)), Ok(Change { start: 5, end: 7, dirty_end: 7 }));
    assert_eq!(composition.primitives(), &[10, 11, 20, 30, 31, 40, 41, 0, 0]);
    assert_eq!(
        composition.refresh(FragmentId(5)),
        Err(SpliceError::ReplacementCountMismatch { expected: 2, found: 1 })
    );
    assert_eq!(composition.refresh(FragmentId(1)), Err(SpliceError::NoReplacer));
    assert_eq!(composition.refresh(FragmentId(9)), Err(SpliceError::UnknownRange));
    assert_eq!(composition.primitives(), &[10, 11, 20, 30, 31, 40, 41, 0, 0]);
    assert!(composition.table().replacer(3).is_some());
}

#[test]
fn put_writes_one_primitive() {
    let mut composition = three_siblings();
    composition.put(4, 99);
    assert_eq!(composition.primitives(), &[10, 11, 20, 30, 99]);
    assert_eq!(composition.range_of(FragmentId(3)), Some((3, 5)));
}

#[test]
fn splice_at_place_resizes() {
    let mut composition = three_siblings();
    assert_eq!(composition.splice_at(0, vec![1]), Change { start: 0, end: 1, dirty_end: 4 });
    assert_eq!(composition.primitives(), &[1, 20, 30, 31]);
}
