//! Index ranges of the flat primitive buffer.
//!
//! The ranges of sibling fragments tile the buffer: the first starts at zero,
//! each ends where the next starts, and the last ends at the buffer's length.

use vstd::prelude::*;

verus! {

/// The identity of a fragment. It stays the same when the fragment is
/// composed again, so that the fragment keeps its entry in the range table.
#[derive(Debug, Clone, Copy, PartialEq, Eq, Hash, Structural)]
pub struct FragmentId(pub u64);

/// What a range table records of one fragment: the half-open range
/// `[start, end)` of the buffer that the fragment owns, and the producer of
/// its replacement content, if it has one.
pub struct Span<R> {
    pub fragment: FragmentId,
    pub start: int,
    pub end: int,
    pub replacer: Option<R>,
}

/// A half-open range `[start, end)` of the flat primitive buffer, with the
/// producer of its replacement content, if it has one.
///
/// The range is as long as the number of primitives that occupy it, and a
/// producer yields exactly that many unless the range is resized first.
pub struct UIRange<R> {
    pub start: usize,
    pub end: usize,
    pub replacer: Option<R>,
}

impl<R> UIRange<R> {
    /// The range does not end before it starts.
    pub open spec fn wf(&self) -> bool {
        self.start <= self.end
    }

    /// What a range table records of this range for a fragment.
    pub open spec fn span(&self, fragment: FragmentId) -> Span<R> {
        Span { fragment, start: self.start as int, end: self.end as int, replacer: self.replacer }
    }

    /// A range without a producer.
    pub fn new(start: usize, end: usize) -> (range: Self)
        ensures
            range.start == start,
            range.end == end,
            range.replacer is None,
    {
        UIRange { start, end, replacer: None }
    }

    /// The same range with `replacer` as its producer.
    pub fn with_replacer(self, replacer: R) -> (range: Self)
        ensures
            range.start == self.start,
            range.end == self.end,
            range.replacer == Some(replacer),
    {
        UIRange { start: self.start, end: self.end, replacer: Some(replacer) }
    }

    /// The bounds of the range.
    pub fn range(&self) -> (bounds: (usize, usize))
        ensures
            bounds == (self.start, self.end),
    {
        (self.start, self.end)
    }

    /// The number of primitives in the range.
    pub fn len(&self) -> (len: usize)
        requires
            self.wf(),
        ensures
            len == self.end - self.start,
    {
        self.end - self.start
    }

    /// Whether the range holds no primitive.
    pub fn is_empty(&self) -> (empty: bool)
        ensures
            empty == (self.start >= self.end),
    {
        self.start >= self.end
    }

    /// Whether the range has a producer.
    pub fn has_replacer(&self) -> (has: bool)
        ensures
            has == self.replacer is Some,
    {
        self.replacer.is_some()
    }

    /// The range in the coordinates of a parent in whose buffer this
    /// fragment's own buffer starts at `offset`: the local range `[a, b)`
    /// becomes `[offset + a, offset + b)`. There is none if that range does
    /// not fit the machine's indices.
    pub fn rebased(self, offset: usize) -> (moved: Option<Self>)
        requires
            self.wf(),
        ensures
            match moved {
                Some(range) => {
                    &&& range.start == offset + self.start
                    &&& range.end == offset + self.end
                    &&& range.replacer == self.replacer
                    &&& range.wf()
                },
                None => offset + self.end > usize::MAX,
            },
    {
        if self.end > usize::MAX - offset {
            None
        } else {
            Some(UIRange { start: offset + self.start, end: offset + self.end, replacer: self.replacer })
        }
    }
}

/// The spans are contiguous and start at zero.
pub open spec fn tiles<R>(spans: Seq<Span<R>>) -> bool {
    &&& forall|k: int| 0 <= k < spans.len() ==> (#[trigger] spans[k]).start <= spans[k].end
    &&& spans.len() > 0 ==> spans[0].start == 0
    &&& forall|a: int, b: int|
        0 <= a && b == a + 1 && b < spans.len() ==> (#[trigger] spans[a]).end == (
        #[trigger] spans[b]).start
}

/// The length of the buffer that the spans tile.
pub open spec fn covered<R>(spans: Seq<Span<R>>) -> int {
    if spans.len() == 0 {
        0
    } else {
        spans.last().end
    }
}

/// No fragment has two spans.
pub open spec fn distinct<R>(spans: Seq<Span<R>>) -> bool {
    forall|a: int, b: int|
        0 <= a < spans.len() && 0 <= b < spans.len() && a != b ==> (#[trigger] spans[a]).fragment
            != (#[trigger] spans[b]).fragment
}

/// The fragment has a span.
pub open spec fn known<R>(spans: Seq<Span<R>>, fragment: FragmentId) -> bool {
    exists|k: int| 0 <= k < spans.len() && (#[trigger] spans[k]).fragment == fragment
}

/// The spans after one more fragment of `len` primitives was appended.
pub open spec fn appended<R>(
    spans: Seq<Span<R>>,
    fragment: FragmentId,
    len: int,
    replacer: Option<R>,
) -> Seq<Span<R>> {
    spans.push(
        Span { fragment, start: covered(spans), end: covered(spans) + len, replacer },
    )
}

/// The spans after the span at `k` was given the length `len`: that span
/// keeps its start, and every later span moves by the change in length.
pub open spec fn resized<R>(spans: Seq<Span<R>>, k: int, len: int) -> Seq<Span<R>> {
    let delta = len - (spans[k].end - spans[k].start);
    Seq::new(
        spans.len(),
        |j: int|
            if j < k {
                spans[j]
            } else if j == k {
                Span { end: spans[k].start + len, ..spans[k] }
            } else {
                Span { start: spans[j].start + delta, end: spans[j].end + delta, ..spans[j] }
            },
    )
}

/// The spans after the span at `k` was released: it is gone, and every later
/// span moves down by its length.
pub open spec fn released<R>(spans: Seq<Span<R>>, k: int) -> Seq<Span<R>> {
    resized(spans, k, 0).remove(k)
}

/// A buffer after the primitives in `[start, end)` were replaced by `content`.
pub open spec fn respliced<T>(buffer: Seq<T>, start: int, end: int, content: Seq<T>) -> Seq<T> {
    buffer.subrange(0, start) + content + buffer.subrange(end, buffer.len() as int)
}

/// Spans that tile lie in order within what they cover.
pub proof fn lemma_tiles_in_order<R>(spans: Seq<Span<R>>, a: int, b: int)
    requires
        tiles(spans),
        0 <= a <= b < spans.len(),
    ensures
        0 <= spans[a].start <= spans[a].end <= covered(spans),
        spans[a].start <= spans[b].start,
        spans[a].end <= spans[b].end,
        a < b ==> spans[a].end <= spans[b].start,
    decreases spans.len() - a,
{
    lemma_tiles_from_zero(spans, a);
    assert(spans[a].start <= spans[a].end);
    if a < b {
        lemma_tiles_in_order(spans, a + 1, b);
        assert(spans[a].end == spans[a + 1].start);
    } else if a < spans.len() - 1 {
        lemma_tiles_in_order(spans, a + 1, spans.len() - 1);
        assert(spans[a].end == spans[a + 1].start);
    }
}

proof fn lemma_tiles_from_zero<R>(spans: Seq<Span<R>>, a: int)
    requires
        tiles(spans),
        0 <= a < spans.len(),
    ensures
        0 <= spans[a].start,
    decreases a,
{
    if a > 0 {
        lemma_tiles_from_zero(spans, a - 1);
        assert(spans[a - 1].start <= spans[a - 1].end);
        assert(spans[a - 1].end == spans[a].start);
    }
}

/// **Tiling is kept.** Appending a span keeps the tiling and adds its length
/// to what is covered.
pub proof fn lemma_appended_tiles<R>(
    spans: Seq<Span<R>>,
    fragment: FragmentId,
    len: int,
    replacer: Option<R>,
)
    requires
        tiles(spans),
        distinct(spans),
        !known(spans, fragment),
        0 <= len,
    ensures
        tiles(appended(spans, fragment, len, replacer)),
        distinct(appended(spans, fragment, len, replacer)),
        covered(appended(spans, fragment, len, replacer)) == covered(spans) + len,
{
    let after = appended(spans, fragment, len, replacer);
    if spans.len() > 0 {
        lemma_tiles_in_order(spans, 0, spans.len() - 1);
    }
    assert forall|a: int, b: int| 0 <= a && b == a + 1 && b < after.len() implies (
    #[trigger] after[a]).end == (#[trigger] after[b]).start by {
        if b < spans.len() {
            assert(spans[a].end == spans[b].start);
        }
    }
    assert forall|a: int, b: int|
        0 <= a < after.len() && 0 <= b < after.len() && a != b implies (#[trigger] after[a]).fragment
        != (#[trigger] after[b]).fragment by {
        if a < spans.len() && b < spans.len() {
            assert(spans[a].fragment != spans[b].fragment);
        } else if a < spans.len() {
            assert(spans[a].fragment != fragment);
        } else {
            assert(spans[b].fragment != fragment);
        }
    }
}

/// **Tiling is kept.** Giving a span another length keeps the tiling, keeps
/// every fragment where it is in the order, and changes what is covered by
/// the change in length.
pub proof fn lemma_resized_tiles<R>(spans: Seq<Span<R>>, k: int, len: int)
    requires
        tiles(spans),
        0 <= k < spans.len(),
        0 <= len,
    ensures
        tiles(resized(spans, k, len)),
        distinct(spans) ==> distinct(resized(spans, k, len)),
        covered(resized(spans, k, len)) == covered(spans) + len - (spans[k].end - spans[k].start),
        forall|j: int|
            0 <= j < spans.len() ==> (#[trigger] resized(spans, k, len)[j]).fragment
                == spans[j].fragment,
{
    let after = resized(spans, k, len);
    assert forall|j: int| 0 <= j < after.len() implies (#[trigger] after[j]).start
        <= after[j].end by {
        assert(spans[j].start <= spans[j].end);
    }
    assert forall|a: int, b: int| 0 <= a && b == a + 1 && b < after.len() implies (
    #[trigger] after[a]).end == (#[trigger] after[b]).start by {
        assert(spans[a].end == spans[b].start);
    }
    if distinct(spans) {
        assert forall|a: int, b: int|
            0 <= a < after.len() && 0 <= b < after.len() && a != b implies (
        #[trigger] after[a]).fragment != (#[trigger] after[b]).fragment by {
            assert(spans[a].fragment != spans[b].fragment);
        }
    }
}

/// **Tiling is kept.** Releasing a span keeps the tiling and takes its length
/// from what is covered.
pub proof fn lemma_released_tiles<R>(spans: Seq<Span<R>>, k: int)
    requires
        tiles(spans),
        0 <= k < spans.len(),
    ensures
        tiles(released(spans, k)),
        distinct(spans) ==> distinct(released(spans, k)),
        covered(released(spans, k)) == covered(spans) - (spans[k].end - spans[k].start),
        forall|j: int| 0 <= j < k ==> released(spans, k)[j] == spans[j],
{
    let shrunk = resized(spans, k, 0);
    let after = released(spans, k);
    lemma_resized_tiles(spans, k, 0);
    lemma_tiles_in_order(spans, 0, k);
    assert forall|j: int| 0 <= j < after.len() implies (#[trigger] after[j]).start
        <= after[j].end by {
        let i = if j < k { j } else { j + 1 };
        assert(after[j] == shrunk[i]);
        assert(shrunk[i].start <= shrunk[i].end);
    }
    assert forall|a: int, b: int| 0 <= a && b == a + 1 && b < after.len() implies (
    #[trigger] after[a]).end == (#[trigger] after[b]).start by {
        if b < k {
            assert(after[a] == shrunk[a] && after[b] == shrunk[b]);
            assert(shrunk[a].end == shrunk[b].start);
        } else if b == k {
            assert(after[a] == shrunk[a] && after[b] == shrunk[k + 1]);
            assert(shrunk[a].end == shrunk[k].start);
            assert(shrunk[k].end == shrunk[k + 1].start);
        } else {
            assert(after[a] == shrunk[a + 1] && after[b] == shrunk[b + 1]);
            assert(shrunk[a + 1].end == shrunk[b + 1].start);
        }
    }
    if after.len() > 0 && k == 0 {
        assert(after[0] == shrunk[1]);
        assert(shrunk[0].end == shrunk[1].start);
    }
    if distinct(spans) {
        assert forall|a: int, b: int|
            0 <= a < after.len() && 0 <= b < after.len() && a != b implies (
        #[trigger] after[a]).fragment != (#[trigger] after[b]).fragment by {
            let ia = if a < k { a } else { a + 1 };
            let ib = if b < k { b } else { b + 1 };
            assert(shrunk[ia].fragment != shrunk[ib].fragment);
        }
    }
    if k == spans.len() - 1 && k > 0 {
        assert(after.last() == shrunk[k - 1]);
        assert(shrunk[k - 1].end == shrunk[k].start);
    } else if k < spans.len() - 1 {
        assert(after.last() == shrunk[spans.len() - 1]);
    }
}

/// **Idempotence.** Replacing the primitives of a range by themselves leaves
/// the buffer as it is, and giving a span the length it has leaves the spans
/// as they are.
pub proof fn lemma_same_content_changes_nothing<T, R>(
    buffer: Seq<T>,
    spans: Seq<Span<R>>,
    k: int,
)
    requires
        tiles(spans),
        covered(spans) == buffer.len(),
        0 <= k < spans.len(),
    ensures
        respliced(
            buffer,
            spans[k].start,
            spans[k].end,
            buffer.subrange(spans[k].start, spans[k].end),
        ) == buffer,
        resized(spans, k, spans[k].end - spans[k].start) == spans,
{
    lemma_tiles_in_order(spans, k, k);
    assert(respliced(
        buffer,
        spans[k].start,
        spans[k].end,
        buffer.subrange(spans[k].start, spans[k].end),
    ) =~= buffer);
    assert(resized(spans, k, spans[k].end - spans[k].start) =~= spans);
}

} // verus!
