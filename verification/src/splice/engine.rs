//! The splice engine: the flat primitive buffer together with its range
//! table, and the operations that rewrite one fragment's range without
//! disturbing its siblings.

use vstd::prelude::*;
use super::range::{
    appended,
    covered,
    distinct,
    known,
    lemma_appended_tiles,
    lemma_released_tiles,
    lemma_resized_tiles,
    lemma_tiles_in_order,
    released,
    resized,
    respliced,
    tiles,
    FragmentId,
    Span,
};
use super::table::{RangeTable, SpliceError};

verus! {

/// What a composition is made of: the primitives in buffer order and the
/// spans of the fragments in document order.
pub struct Composed<T, R> {
    pub primitives: Seq<T>,
    pub spans: Seq<Span<R>>,
}

/// The spans tile the primitives, and no fragment has two spans.
pub open spec fn composed<T, R>(c: Composed<T, R>) -> bool {
    &&& tiles(c.spans)
    &&& distinct(c.spans)
    &&& covered(c.spans) == c.primitives.len()
}

/// The place in document order of the span of a fragment that has one.
pub open spec fn place_of<R>(spans: Seq<Span<R>>, fragment: FragmentId) -> int {
    choose|k: int| 0 <= k < spans.len() && (#[trigger] spans[k]).fragment == fragment
}

/// The primitives that the span at `k` owns.
pub open spec fn content_at<T, R>(c: Composed<T, R>, k: int) -> Seq<T> {
    c.primitives.subrange(c.spans[k].start, c.spans[k].end)
}

/// The composition after the content of the span at `k` was replaced: the
/// span has the length of the new content, and the primitives and spans
/// after it have moved by the change in length.
pub open spec fn spliced<T, R>(c: Composed<T, R>, k: int, content: Seq<T>) -> Composed<T, R> {
    Composed {
        primitives: respliced(c.primitives, c.spans[k].start, c.spans[k].end, content),
        spans: resized(c.spans, k, content.len() as int),
    }
}

/// The composition after a fragment with the given content was mounted
/// behind all others.
pub open spec fn mounted<T, R>(
    c: Composed<T, R>,
    fragment: FragmentId,
    content: Seq<T>,
    replacer: Option<R>,
) -> Composed<T, R> {
    Composed {
        primitives: c.primitives + content,
        spans: appended(c.spans, fragment, content.len() as int, replacer),
    }
}

/// The composition after the span at `k` was released with its primitives.
pub open spec fn unmounted<T, R>(c: Composed<T, R>, k: int) -> Composed<T, R> {
    Composed {
        primitives: respliced(c.primitives, c.spans[k].start, c.spans[k].end, Seq::empty()),
        spans: released(c.spans, k),
    }
}

/// What the renderer is told after a splice.
#[derive(Debug, Clone, Copy, PartialEq, Eq, Structural)]
pub struct Change {
    /// Where the fragment's range starts.
    pub start: usize,
    /// Where the fragment's range ends now.
    pub end: usize,
    /// Where the part of the buffer ends that has to be uploaded again: the
    /// end of the range if it kept its length, and the end of the buffer if
    /// the primitives behind it have moved.
    pub dirty_end: usize,
}

/// What the renderer is told when the span at `k` was given `content`.
pub open spec fn change_of<T, R>(c: Composed<T, R>, k: int, content: Seq<T>) -> Change {
    let start = c.spans[k].start;
    let end = start + content.len();
    Change {
        start: start as usize,
        end: end as usize,
        dirty_end: if content.len() == c.spans[k].end - start {
            end as usize
        } else {
            spliced(c, k, content).primitives.len() as usize
        },
    }
}

/// In a composition a fragment has one place only.
pub proof fn lemma_place_of<R>(spans: Seq<Span<R>>, k: int)
    requires
        distinct(spans),
        0 <= k < spans.len(),
    ensures
        place_of(spans, spans[k].fragment) == k,
        known(spans, spans[k].fragment),
{
    let found = place_of(spans, spans[k].fragment);
    assert(0 <= found < spans.len() && spans[found].fragment == spans[k].fragment);
}

/// **Tiling is kept.** A splice leaves a composition a composition.
pub proof fn lemma_spliced_composed<T, R>(c: Composed<T, R>, k: int, content: Seq<T>)
    requires
        composed(c),
        0 <= k < c.spans.len(),
    ensures
        composed(spliced(c, k, content)),
        spliced(c, k, content).primitives.len() == c.primitives.len() + content.len() - (
        c.spans[k].end - c.spans[k].start),
{
    lemma_resized_tiles(c.spans, k, content.len() as int);
    lemma_tiles_in_order(c.spans, k, k);
}

/// **Idempotence.** Splicing into a range the content that it holds leaves
/// the composition as it is.
pub proof fn lemma_splice_of_same_content<T, R>(c: Composed<T, R>, k: int)
    requires
        composed(c),
        0 <= k < c.spans.len(),
    ensures
        spliced(c, k, content_at(c, k)) == c,
{
    lemma_tiles_in_order(c.spans, k, k);
    super::range::lemma_same_content_changes_nothing(c.primitives, c.spans, k);
    assert(content_at(c, k).len() == c.spans[k].end - c.spans[k].start);
}

/// One splice of a sequence of splices: the place of the span whose content
/// is replaced, and the content that replaces it.
pub struct Step<T> {
    pub place: int,
    pub content: Seq<T>,
}

/// The composition after the splices were made one after the other. A
/// splice at a place that has no span changes nothing.
pub open spec fn spliced_in_turn<T, R>(c: Composed<T, R>, steps: Seq<Step<T>>) -> Composed<T, R>
    decreases steps.len(),
{
    if steps.len() == 0 {
        c
    } else {
        let before = spliced_in_turn(c, steps.drop_last());
        let step = steps.last();
        if 0 <= step.place < before.spans.len() {
            spliced(before, step.place, step.content)
        } else {
            before
        }
    }
}

/// **Tiling is kept by every sequence of splices.** After any sequence of
/// splices, of content longer or shorter than what it replaces or of the
/// same length, the ranges are contiguous, start at zero and cover the
/// buffer exactly, and the fragments are those that were there, in their
/// order.
pub proof fn lemma_spliced_in_turn_composed<T, R>(c: Composed<T, R>, steps: Seq<Step<T>>)
    requires
        composed(c),
    ensures
        composed(spliced_in_turn(c, steps)),
        spliced_in_turn(c, steps).spans.len() == c.spans.len(),
        forall|k: int|
            0 <= k < c.spans.len() ==> (#[trigger] spliced_in_turn(c, steps).spans[k]).fragment
                == c.spans[k].fragment,
    decreases steps.len(),
{
    if steps.len() > 0 {
        let before = spliced_in_turn(c, steps.drop_last());
        let step = steps.last();
        lemma_spliced_in_turn_composed(c, steps.drop_last());
        if 0 <= step.place < before.spans.len() {
            lemma_spliced_composed(before, step.place, step.content);
            lemma_resized_tiles(before.spans, step.place, step.content.len() as int);
            assert forall|k: int| 0 <= k < c.spans.len() implies (#[trigger] spliced_in_turn(
                c,
                steps,
            ).spans[k]).fragment == c.spans[k].fragment by {
                assert(before.spans[k].fragment == c.spans[k].fragment);
            }
        }
    }
}

/// A splice of content that is no longer than what it replaces makes the
/// buffer no longer, so that it stays within any bound that held it.
pub proof fn lemma_shrinking_splice_fits<T, R>(c: Composed<T, R>, k: int, content: Seq<T>)
    requires
        composed(c),
        0 <= k < c.spans.len(),
        content.len() <= c.spans[k].end - c.spans[k].start,
    ensures
        spliced(c, k, content).primitives.len() <= c.primitives.len(),
        composed(spliced(c, k, content)),
{
    lemma_spliced_composed(c, k, content);
}

/// After a splice the fragment owns the content that it was given.
pub proof fn lemma_content_of_spliced<T, R>(c: Composed<T, R>, k: int, content: Seq<T>)
    requires
        composed(c),
        0 <= k < c.spans.len(),
    ensures
        content_at(spliced(c, k, content), k) == content,
{
    lemma_tiles_in_order(c.spans, k, k);
    assert(content_at(spliced(c, k, content), k) =~= content);
}

/// **Siblings are left alone.** After a splice every other fragment owns the
/// primitives that it owned before.
pub proof fn lemma_splice_keeps_siblings<T, R>(c: Composed<T, R>, k: int, content: Seq<T>, j: int)
    requires
        composed(c),
        0 <= k < c.spans.len(),
        0 <= j < c.spans.len(),
        j != k,
    ensures
        content_at(spliced(c, k, content), j) == content_at(c, j),
        content_at(spliced(c, k, content), k) == content,
{
    let after = spliced(c, k, content);
    lemma_tiles_in_order(c.spans, k, k);
    lemma_tiles_in_order(c.spans, j, j);
    if j < k {
        lemma_tiles_in_order(c.spans, j, k);
    } else {
        lemma_tiles_in_order(c.spans, k, j);
    }
    assert(content_at(after, j) =~= content_at(c, j));
    assert(content_at(after, k) =~= content);
}

/// The flat primitive buffer with the range table of the fragments that
/// share it.
pub struct Composition<T, R> {
    primitives: Vec<T>,
    table: RangeTable<R>,
}

impl<T, R> View for Composition<T, R> {
    type V = Composed<T, R>;

    closed spec fn view(&self) -> Composed<T, R> {
        Composed { primitives: self.primitives@, spans: self.table@ }
    }
}

impl<T, R> Composition<T, R> {
    /// The ranges tile the buffer, and no fragment has two of them.
    pub open spec fn wf(&self) -> bool {
        composed(self@)
    }

    /// A composition without fragments.
    pub fn new() -> (composition: Self)
        ensures
            composition@.primitives == Seq::<T>::empty(),
            composition@.spans == Seq::<Span<R>>::empty(),
            composition.wf(),
    {
        Composition { primitives: Vec::new(), table: RangeTable::new() }
    }

    /// The number of primitives in the buffer.
    pub fn len(&self) -> (len: usize)
        ensures
            len == self@.primitives.len(),
    {
        self.primitives.len()
    }

    /// The number of fragments.
    pub fn fragment_count(&self) -> (count: usize)
        ensures
            count == self@.spans.len(),
    {
        self.table.len()
    }

    /// The buffer.
    pub fn primitives(&self) -> (buffer: &[T])
        ensures
            buffer@ == self@.primitives,
    {
        self.primitives.as_slice()
    }

    /// The range table.
    pub fn table(&self) -> (table: &RangeTable<R>)
        ensures
            table@ == self@.spans,
    {
        &self.table
    }

    /// The range that a fragment owns.
    pub fn range_of(&self, fragment: FragmentId) -> (bounds: Option<(usize, usize)>)
        requires
            self.wf(),
        ensures
            match bounds {
                Some((start, end)) => {
                    &&& known(self@.spans, fragment)
                    &&& start == self@.spans[place_of(self@.spans, fragment)].start
                    &&& end == self@.spans[place_of(self@.spans, fragment)].end
                },
                None => !known(self@.spans, fragment),
            },
    {
        match self.table.find(fragment) {
            Some(k) => {
                proof {
                    lemma_place_of(self@.spans, k as int);
                }
                Some(self.table.bounds(k))
            },
            None => None,
        }
    }

    /// Mounts a fragment behind all others, with the primitives it starts
    /// with and the producer of its replacement content, if it has one.
    pub fn mount(&mut self, fragment: FragmentId, content: Vec<T>, replacer: Option<R>) -> (outcome:
        Result<(usize, usize), SpliceError>)
        requires
            old(self).wf(),
            old(self)@.primitives.len() + content.len() <= usize::MAX,
        ensures
            final(self).wf(),
            match outcome {
                Ok((start, end)) => {
                    &&& !known(old(self)@.spans, fragment)
                    &&& final(self)@ == mounted(old(self)@, fragment, content@, replacer)
                    &&& start == old(self)@.primitives.len()
                    &&& end == start + content.len()
                },
                Err(error) => {
                    &&& error == SpliceError::DuplicateFragment
                    &&& known(old(self)@.spans, fragment)
                    &&& final(self)@ == old(self)@
                },
            },
    {
        let mut content = content;
        let ghost given = content@;
        match self.table.append(fragment, content.len(), replacer) {
            Ok(bounds) => {
                self.primitives.append(&mut content);
                Ok(bounds)
            },
            Err(error) => Err(error),
        }
    }

    /// Writes one primitive in place.
    pub fn put(&mut self, at: usize, primitive: T)
        requires
            old(self).wf(),
            at < old(self)@.primitives.len(),
        ensures
            final(self)@.primitives == old(self)@.primitives.update(at as int, primitive),
            final(self)@.spans == old(self)@.spans,
            final(self).wf(),
    {
        self.primitives.set(at, primitive);
    }

    /// Writes `content` over the range at `k`, which holds as many
    /// primitives.
    fn write_over(&mut self, k: usize, content: Vec<T>)
        requires
            old(self).wf(),
            k < old(self)@.spans.len(),
            content.len() == old(self)@.spans[k as int].end - old(self)@.spans[k as int].start,
        ensures
            final(self)@ == spliced(old(self)@, k as int, content@),
            final(self).wf(),
    {
        let ghost before = self@;
        let ghost given = content@;
        proof {
            lemma_tiles_in_order(before.spans, k as int, k as int);
            lemma_spliced_composed(before, k as int, given);
        }
        let (start, end) = self.table.bounds(k);
        let mut content = content;
        let mut i: usize = content.len();
        while i > 0
            invariant
                i <= given.len(),
                start + given.len() == end,
                end <= before.primitives.len(),
                self.table@ == before.spans,
                content@ == given.take(i as int),
                self.primitives@ == before.primitives.subrange(0, start + i) + given.skip(
                    i as int,
                ) + before.primitives.subrange(end as int, before.primitives.len() as int),
            decreases i,
        {
            i = i - 1;
            let item = content.pop().unwrap();
            let ghost held = self.primitives@;
            self.primitives.set(start + i, item);
            assert(self.primitives@ =~= before.primitives.subrange(0, start + i) + given.skip(
                i as int,
            ) + before.primitives.subrange(end as int, before.primitives.len() as int));
        }
        assert(self@.primitives =~= spliced(before, k as int, given).primitives);
        assert(self@.spans =~= spliced(before, k as int, given).spans);
    }

    /// Replaces the primitives of the range at `k` by `content`, which may
    /// be of another length.
    pub fn splice_at(&mut self, k: usize, content: Vec<T>) -> (change: Change)
        requires
            old(self).wf(),
            k < old(self)@.spans.len(),
            spliced(old(self)@, k as int, content@).primitives.len() <= usize::MAX,
        ensures
            final(self)@ == spliced(old(self)@, k as int, content@),
            final(self).wf(),
            change == change_of(old(self)@, k as int, content@),
    {
        let ghost before = self@;
        let ghost given = content@;
        proof {
            lemma_tiles_in_order(before.spans, k as int, k as int);
            lemma_spliced_composed(before, k as int, given);
            self.table.lemma_bounds_fit();
        }
        let (start, end) = self.table.bounds(k);
        let len: usize = content.len();
        if len == end - start {
            self.write_over(k, content);
            Change { start, end, dirty_end: end }
        } else {
            let mut content = content;
            let mut tail = self.primitives.split_off(end);
            self.primitives.truncate(start);
            self.primitives.append(&mut content);
            self.primitives.append(&mut tail);
            self.table.resize(k, len);
            assert(self@.primitives =~= spliced(before, k as int, given).primitives);
            Change { start, end: start + len, dirty_end: self.primitives.len() }
        }
    }

    /// Replaces the content of a fragment. Content of the length that the
    /// fragment has is written in place; content of another length resizes
    /// the fragment's range and moves every later range by the change. The
    /// buffer has to stay within the machine's indices, as it does whenever
    /// the content is no longer than what it replaces.
    pub fn splice(&mut self, fragment: FragmentId, content: Vec<T>) -> (outcome: Result<
        Change,
        SpliceError,
    >)
        requires
            old(self).wf(),
            known(old(self)@.spans, fragment) ==> spliced(
                old(self)@,
                place_of(old(self)@.spans, fragment),
                content@,
            ).primitives.len() <= usize::MAX,
        ensures
            final(self).wf(),
            match outcome {
                Ok(change) => {
                    &&& known(old(self)@.spans, fragment)
                    &&& final(self)@ == spliced(
                        old(self)@,
                        place_of(old(self)@.spans, fragment),
                        content@,
                    )
                    &&& change == change_of(
                        old(self)@,
                        place_of(old(self)@.spans, fragment),
                        content@,
                    )
                },
                Err(error) => {
                    &&& error == SpliceError::UnknownRange
                    &&& !known(old(self)@.spans, fragment)
                    &&& final(self)@ == old(self)@
                },
            },
    {
        match self.table.find(fragment) {
            Some(k) => {
                proof {
                    lemma_place_of(self@.spans, k as int);
                }
                Ok(self.splice_at(k, content))
            },
            None => Err(SpliceError::UnknownRange),
        }
    }

    /// Replaces the content of a fragment whose range is not to be resized.
    pub fn overwrite(&mut self, fragment: FragmentId, content: Vec<T>) -> (outcome: Result<
        Change,
        SpliceError,
    >)
        requires
            old(self).wf(),
        ensures
            final(self).wf(),
            match outcome {
                Ok(change) => {
                    let k = place_of(old(self)@.spans, fragment);
                    &&& known(old(self)@.spans, fragment)
                    &&& content.len() == old(self)@.spans[k].end - old(self)@.spans[k].start
                    &&& final(self)@ == spliced(old(self)@, k, content@)
                    &&& change == change_of(old(self)@, k, content@)
                },
                Err(SpliceError::UnknownRange) => {
                    &&& !known(old(self)@.spans, fragment)
                    &&& final(self)@ == old(self)@
                },
                Err(SpliceError::ReplacementCountMismatch { expected, found }) => {
                    let k = place_of(old(self)@.spans, fragment);
                    &&& known(old(self)@.spans, fragment)
                    &&& expected == old(self)@.spans[k].end - old(self)@.spans[k].start
                    &&& found == content.len()
                    &&& expected != found
                    &&& final(self)@ == old(self)@
                },
                Err(_) => false,
            },
    {
        match self.table.find(fragment) {
            Some(k) => {
                proof {
                    lemma_place_of(self@.spans, k as int);
                    lemma_tiles_in_order(self@.spans, k as int, k as int);
                }
                let (start, end) = self.table.bounds(k);
                if content.len() == end - start {
                    self.write_over(k, content);
                    Ok(Change { start, end, dirty_end: end })
                } else {
                    Err(
                        SpliceError::ReplacementCountMismatch {
                            expected: end - start,
                            found: content.len(),
                        },
                    )
                }
            },
            None => Err(SpliceError::UnknownRange),
        }
    }

    /// Releases a fragment: its primitives and its entry are taken out, and
    /// every later range moves down by its length.
    pub fn release(&mut self, fragment: FragmentId) -> (outcome: Result<Change, SpliceError>)
        requires
            old(self).wf(),
        ensures
            final(self).wf(),
            match outcome {
                Ok(change) => {
                    let k = place_of(old(self)@.spans, fragment);
                    &&& known(old(self)@.spans, fragment)
                    &&& final(self)@ == unmounted(old(self)@, k)
                    &&& change.start == old(self)@.spans[k].start
                    &&& change.end == change.start
                    &&& change.dirty_end == final(self)@.primitives.len()
                },
                Err(error) => {
                    &&& error == SpliceError::UnknownRange
                    &&& !known(old(self)@.spans, fragment)
                    &&& final(self)@ == old(self)@
                },
            },
    {
        match self.table.find(fragment) {
            Some(k) => {
                let ghost before = self@;
                proof {
                    lemma_place_of(before.spans, k as int);
                    lemma_tiles_in_order(before.spans, k as int, k as int);
                    lemma_released_tiles(before.spans, k as int);
                }
                let (start, end) = self.table.bounds(k);
                let mut tail = self.primitives.split_off(end);
                self.primitives.truncate(start);
                self.primitives.append(&mut tail);
                self.table.release(k);
                assert(self@.primitives =~= unmounted(before, k as int).primitives);
                Ok(Change { start, end: start, dirty_end: self.primitives.len() })
            },
            None => Err(SpliceError::UnknownRange),
        }
    }
}

impl<T, R: Fn() -> Vec<T>> Composition<T, R> {
    /// Every producer can be called.
    pub open spec fn producers_ready(&self) -> bool {
        forall|k: int|
            0 <= k < self@.spans.len() ==> ((#[trigger] self@.spans[k]).replacer matches Some(f)
                ==> call_requires(f, ()))
    }

    /// Replaces the content of a fragment by what its producer yields. The
    /// fragment's range is not resized: the producer has to yield as many
    /// primitives as the range holds.
    pub fn refresh(&mut self, fragment: FragmentId) -> (outcome: Result<Change, SpliceError>)
        requires
            old(self).wf(),
            old(self).producers_ready(),
        ensures
            final(self).wf(),
            match outcome {
                Ok(change) => {
                    let k = place_of(old(self)@.spans, fragment);
                    &&& known(old(self)@.spans, fragment)
                    &&& old(self)@.spans[k].replacer is Some
                    &&& exists|content: Vec<T>|
                        {
                            &&& call_ensures(old(self)@.spans[k].replacer->0, (), content)
                            &&& content.len() == old(self)@.spans[k].end - old(self)@.spans[k].start
                            &&& final(self)@ == spliced(old(self)@, k, #[trigger] content@)
                            &&& change == change_of(old(self)@, k, content@)
                        }
                },
                Err(SpliceError::UnknownRange) => {
                    &&& !known(old(self)@.spans, fragment)
                    &&& final(self)@ == old(self)@
                },
                Err(SpliceError::NoReplacer) => {
                    &&& known(old(self)@.spans, fragment)
                    &&& old(self)@.spans[place_of(old(self)@.spans, fragment)].replacer is None
                    &&& final(self)@ == old(self)@
                },
                Err(SpliceError::ReplacementCountMismatch { expected, found }) => {
                    let k = place_of(old(self)@.spans, fragment);
                    &&& known(old(self)@.spans, fragment)
                    &&& old(self)@.spans[k].replacer is Some
                    &&& expected == old(self)@.spans[k].end - old(self)@.spans[k].start
                    &&& expected != found
                    &&& exists|content: Vec<T>|
                        call_ensures(old(self)@.spans[k].replacer->0, (), content)
                            && #[trigger] content.len() == found
                    &&& final(self)@ == old(self)@
                },
                Err(SpliceError::DuplicateFragment) => false,
            },
    {
        let k: usize = match self.table.find(fragment) {
            Some(k) => k,
            None => {
                return Err(SpliceError::UnknownRange);
            },
        };
        proof {
            lemma_place_of(self@.spans, k as int);
            lemma_tiles_in_order(self@.spans, k as int, k as int);
        }
        let (start, end) = self.table.bounds(k);
        let content: Vec<T> = match self.table.replacer(k) {
            Some(producer) => {
                assert(self@.spans[k as int].replacer == Some(*producer));
                producer()
            },
            None => {
                return Err(SpliceError::NoReplacer);
            },
        };
        if content.len() != end - start {
            return Err(
                SpliceError::ReplacementCountMismatch {
                    expected: end - start,
                    found: content.len(),
                },
            );
        }
        let ghost given = content@;
        self.write_over(k, content);
        Ok(Change { start, end, dirty_end: end })
    }
}

} // verus!
