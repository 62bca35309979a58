//! Splices that are asked for in the same notification wave.
//!
//! They are applied in document order, which is the ascending order of the
//! starts that the ranges had before the wave, so that the range of a later
//! sibling has been moved by the resize of an earlier one before it is
//! written to. Of several requests for one fragment the one made first is
//! applied first.

use vstd::prelude::*;
use super::engine::{
    change_of,
    composed,
    lemma_place_of,
    lemma_spliced_composed,
    place_of,
    spliced,
    Change,
    Composed,
    Composition,
};
use super::range::{known, lemma_resized_tiles, lemma_tiles_in_order, FragmentId, Span};
use super::table::SpliceError;

verus! {

/// The request to replace the content of a fragment.
pub struct SpliceRequest<T> {
    pub fragment: FragmentId,
    pub content: Vec<T>,
}

/// What a request asks for.
pub struct Asked<T> {
    pub fragment: FragmentId,
    pub content: Seq<T>,
}

impl<T> View for SpliceRequest<T> {
    type V = Asked<T>;

    open spec fn view(&self) -> Asked<T> {
        Asked { fragment: self.fragment, content: self.content@ }
    }
}

/// What a sequence of requests asks for.
pub open spec fn asked<T>(requests: Seq<SpliceRequest<T>>) -> Seq<Asked<T>> {
    requests.map_values(|r: SpliceRequest<T>| r@)
}

/// The number of primitives that the requests bring.
pub open spec fn brought<T>(wave: Seq<Asked<T>>) -> int
    decreases wave.len(),
{
    if wave.len() == 0 {
        0
    } else {
        brought(wave.drop_last()) + wave.last().content.len()
    }
}

/// Every request is for a fragment that has a span.
pub open spec fn all_known<T, R>(spans: Seq<Span<R>>, wave: Seq<Asked<T>>) -> bool {
    forall|r: int| 0 <= r < wave.len() ==> known(spans, (#[trigger] wave[r]).fragment)
}

/// Among the first `n` requests, the one that is applied first: that for the
/// fragment that comes first in document order, and of several for that
/// fragment the one made first.
pub open spec fn first_of<T, R>(spans: Seq<Span<R>>, wave: Seq<Asked<T>>, n: int) -> int
    decreases n,
{
    if n <= 1 {
        0
    } else {
        let best = first_of(spans, wave, n - 1);
        if place_of(spans, wave[n - 1].fragment) < place_of(spans, wave[best].fragment) {
            n - 1
        } else {
            best
        }
    }
}

/// The composition after the requests of a wave were applied.
pub open spec fn after_wave<T, R>(c: Composed<T, R>, wave: Seq<Asked<T>>) -> Composed<T, R>
    decreases wave.len(),
{
    if wave.len() == 0 {
        c
    } else {
        let r = first_of(c.spans, wave, wave.len() as int);
        if 0 <= r < wave.len() {
            after_wave(
                spliced(c, place_of(c.spans, wave[r].fragment), wave[r].content),
                wave.remove(r),
            )
        } else {
            c
        }
    }
}

/// What the renderer is told of the requests of a wave, in the order in
/// which they were applied.
pub open spec fn changes_of_wave<T, R>(c: Composed<T, R>, wave: Seq<Asked<T>>) -> Seq<Change>
    decreases wave.len(),
{
    if wave.len() == 0 {
        Seq::empty()
    } else {
        let r = first_of(c.spans, wave, wave.len() as int);
        if 0 <= r < wave.len() {
            let k = place_of(c.spans, wave[r].fragment);
            seq![change_of(c, k, wave[r].content)] + changes_of_wave(
                spliced(c, k, wave[r].content),
                wave.remove(r),
            )
        } else {
            Seq::empty()
        }
    }
}

/// Taking a request out takes its primitives from what the requests bring.
pub proof fn lemma_brought_remove<T>(wave: Seq<Asked<T>>, r: int)
    requires
        0 <= r < wave.len(),
    ensures
        brought(wave) == brought(wave.remove(r)) + wave[r].content.len(),
        brought(wave.remove(r)) >= 0,
    decreases wave.len(),
{
    if r == wave.len() - 1 {
        assert(wave.remove(r) =~= wave.drop_last());
    } else {
        lemma_brought_remove(wave.drop_last(), r);
        assert(wave.remove(r).drop_last() =~= wave.drop_last().remove(r));
        assert(wave.remove(r).last() == wave.last());
    }
    lemma_brought_nonnegative(wave.remove(r));
}

proof fn lemma_brought_nonnegative<T>(wave: Seq<Asked<T>>)
    ensures
        brought(wave) >= 0,
    decreases wave.len(),
{
    if wave.len() > 0 {
        lemma_brought_nonnegative(wave.drop_last());
    }
}

/// A splice keeps every fragment at its place.
pub proof fn lemma_spliced_keeps_places<T, R>(
    c: Composed<T, R>,
    k: int,
    content: Seq<T>,
    fragment: FragmentId,
)
    requires
        composed(c),
        0 <= k < c.spans.len(),
        known(c.spans, fragment),
    ensures
        known(spliced(c, k, content).spans, fragment),
        place_of(spliced(c, k, content).spans, fragment) == place_of(c.spans, fragment),
{
    let after = spliced(c, k, content).spans;
    lemma_resized_tiles(c.spans, k, content.len() as int);
    let at = place_of(c.spans, fragment);
    assert(after[at].fragment == fragment);
    lemma_place_of(after, at);
}

/// **Tiling is kept.** A wave of splices for fragments that have spans
/// leaves a composition a composition, with every fragment at its place.
pub proof fn lemma_after_wave_composed<T, R>(c: Composed<T, R>, wave: Seq<Asked<T>>)
    requires
        composed(c),
        all_known(c.spans, wave),
    ensures
        composed(after_wave(c, wave)),
        after_wave(c, wave).spans.len() == c.spans.len(),
        forall|k: int|
            0 <= k < c.spans.len() ==> (#[trigger] after_wave(c, wave).spans[k]).fragment
                == c.spans[k].fragment,
    decreases wave.len(),
{
    if wave.len() > 0 {
        let r = first_of(c.spans, wave, wave.len() as int);
        if 0 <= r < wave.len() {
            let k = place_of(c.spans, wave[r].fragment);
            let next = spliced(c, k, wave[r].content);
            let rest = wave.remove(r);
            assert(known(c.spans, wave[r].fragment));
            lemma_spliced_composed(c, k, wave[r].content);
            lemma_resized_tiles(c.spans, k, wave[r].content.len() as int);
            assert forall|j: int| 0 <= j < rest.len() implies known(
                next.spans,
                (#[trigger] rest[j]).fragment,
            ) by {
                let from = if j < r { j } else { j + 1 };
                assert(rest[j] == wave[from]);
                assert(known(c.spans, wave[from].fragment));
                lemma_spliced_keeps_places(c, k, wave[r].content, wave[from].fragment);
            }
            lemma_after_wave_composed(next, rest);
            assert forall|i: int| 0 <= i < c.spans.len() implies (#[trigger] after_wave(
                c,
                wave,
            ).spans[i]).fragment == c.spans[i].fragment by {
                assert(after_wave(next, rest).spans[i].fragment == next.spans[i].fragment);
                assert(next.spans[i].fragment == c.spans[i].fragment);
            }
        }
    }
}

impl<T, R> Composition<T, R> {
    /// Applies the splices that were asked for in one wave, in document
    /// order. If one of them is for a fragment that has no entry, none is
    /// applied.
    pub fn splice_wave(&mut self, requests: Vec<SpliceRequest<T>>) -> (outcome: Result<
        Vec<Change>,
        SpliceError,
    >)
        requires
            old(self).wf(),
            old(self)@.primitives.len() + brought(asked(requests@)) <= usize::MAX,
        ensures
            final(self).wf(),
            match outcome {
                Ok(changes) => {
                    &&& all_known(old(self)@.spans, asked(requests@))
                    &&& final(self)@ == after_wave(old(self)@, asked(requests@))
                    &&& changes@ == changes_of_wave(old(self)@, asked(requests@))
                },
                Err(error) => {
                    &&& error == SpliceError::UnknownRange
                    &&& !all_known(old(self)@.spans, asked(requests@))
                    &&& final(self)@ == old(self)@
                },
            },
    {
        let ghost start = self@;
        let ghost whole = asked(requests@);
        let mut r: usize = 0;
        while r < requests.len()
            invariant
                r <= requests.len(),
                self@ == start,
                self.wf(),
                whole == asked(requests@),
                forall|i: int| 0 <= i < r ==> known(start.spans, (#[trigger] whole[i]).fragment),
            decreases requests.len() - r,
        {
            if self.table().find(requests[r].fragment).is_none() {
                assert(!known(start.spans, whole[r as int].fragment));
                return Err(SpliceError::UnknownRange);
            }
            r = r + 1;
        }
        let mut requests = requests;
        let mut changes: Vec<Change> = Vec::new();
        assert(changes@ + changes_of_wave(start, whole) =~= changes_of_wave(start, whole));
        while requests.len() > 0
            invariant
                self.wf(),
                all_known(self@.spans, asked(requests@)),
                self@.primitives.len() + brought(asked(requests@)) <= usize::MAX,
                after_wave(self@, asked(requests@)) == after_wave(start, whole),
                changes@ + changes_of_wave(self@, asked(requests@)) == changes_of_wave(
                    start,
                    whole,
                ),
            decreases requests.len(),
        {
            let ghost held = self@;
            let ghost wave = asked(requests@);
            let n: usize = requests.len();
            let mut best: usize = 0;
            let mut best_place: usize = match self.table().find(requests[0].fragment) {
                Some(k) => k,
                None => 0,
            };
            proof {
                assert(known(held.spans, wave[0].fragment));
                lemma_place_of(held.spans, best_place as int);
            }
            let mut i: usize = 1;
            while i < n
                invariant
                    1 <= i <= n,
                    n == requests.len(),
                    self@ == held,
                    self.wf(),
                    wave == asked(requests@),
                    all_known(held.spans, wave),
                    best == first_of(held.spans, wave, i as int),
                    best < i,
                    best_place == place_of(held.spans, wave[best as int].fragment),
                    best_place < held.spans.len(),
                decreases n - i,
            {
                let place: usize = match self.table().find(requests[i].fragment) {
                    Some(k) => k,
                    None => 0,
                };
                proof {
                    assert(known(held.spans, wave[i as int].fragment));
                    lemma_place_of(held.spans, place as int);
                }
                if place < best_place {
                    best = i;
                    best_place = place;
                }
                i = i + 1;
            }
            let request = requests.remove(best);
            proof {
                assert(request@ == wave[best as int]);
                assert(asked(requests@) =~= wave.remove(best as int));
                lemma_brought_remove(wave, best as int);
                lemma_spliced_composed(held, best_place as int, request.content@);
                lemma_tiles_in_order(held.spans, best_place as int, best_place as int);
                assert forall|j: int| 0 <= j < wave.remove(best as int).len() implies known(
                    spliced(held, best_place as int, request.content@).spans,
                    (#[trigger] wave.remove(best as int)[j]).fragment,
                ) by {
                    let from = if j < best { j } else { j + 1 };
                    assert(wave.remove(best as int)[j] == wave[from]);
                    assert(known(held.spans, wave[from].fragment));
                    lemma_spliced_keeps_places(
                        held,
                        best_place as int,
                        request.content@,
                        wave[from].fragment,
                    );
                }
            }
            let ghost told = changes@;
            let change = self.splice_at(best_place, request.content);
            changes.push(change);
            proof {
                let rest = wave.remove(best as int);
                assert(changes@ =~= told + seq![change]);
                assert(changes_of_wave(held, wave) =~= seq![change] + changes_of_wave(
                    self@,
                    rest,
                ));
                assert(changes@ + changes_of_wave(self@, rest) =~= told + changes_of_wave(
                    held,
                    wave,
                ));
            }
        }
        Ok(changes)
    }
}

} // verus!
