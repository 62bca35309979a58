//! The range table: which fragment owns which range of the buffer.
//!
//! Entries stand in document order, which is the order in which the
//! fragments were appended. The ranges tile the buffer at all times.

use vstd::prelude::*;
use super::range::{
    appended,
    covered,
    distinct,
    known,
    lemma_appended_tiles,
    lemma_released_tiles,
    lemma_resized_tiles,
    lemma_tiles_in_order,
    released,
    resized,
    tiles,
    FragmentId,
    Span,
    UIRange,
};

verus! {

/// Why the range table or the buffer was left as it was.
#[derive(Debug, Clone, Copy, PartialEq, Eq, Structural)]
pub enum SpliceError {
    /// The fragment has no entry in the range table, or the range lies
    /// outside the buffer.
    UnknownRange,
    /// A range that is not to be resized was given another number of
    /// primitives than it holds.
    ReplacementCountMismatch { expected: usize, found: usize },
    /// The fragment has an entry already.
    DuplicateFragment,
    /// The fragment's range has no producer.
    NoReplacer,
}

struct Entry<R> {
    fragment: FragmentId,
    range: UIRange<R>,
}

/// The ordered record of the ranges that sibling fragments own.
pub struct RangeTable<R> {
    entries: Vec<Entry<R>>,
}

impl<R> View for RangeTable<R> {
    type V = Seq<Span<R>>;

    closed spec fn view(&self) -> Seq<Span<R>> {
        Seq::new(
            self.entries.len() as nat,
            |k: int| self.entries[k].range.span(self.entries[k].fragment),
        )
    }
}

impl<R> RangeTable<R> {
    /// The ranges tile what they cover, and no fragment has two of them.
    pub open spec fn wf(&self) -> bool {
        tiles(self@) && distinct(self@)
    }

    /// Every bound of the table is an index of the machine.
    pub proof fn lemma_bounds_fit(&self)
        ensures
            forall|k: int|
                0 <= k < self@.len() ==> 0 <= (#[trigger] self@[k]).start <= usize::MAX && 0
                    <= self@[k].end <= usize::MAX,
            0 <= covered(self@) <= usize::MAX,
    {
    }

    /// A table without entries.
    pub fn new() -> (table: Self)
        ensures
            table@ == Seq::<Span<R>>::empty(),
            table.wf(),
    {
        let table = RangeTable { entries: Vec::new() };
        assert(table@ =~= Seq::<Span<R>>::empty());
        table
    }

    /// The number of entries.
    pub fn len(&self) -> (len: usize)
        ensures
            len == self@.len(),
    {
        self.entries.len()
    }

    /// The length of the buffer that the ranges tile.
    pub fn covered(&self) -> (len: usize)
        ensures
            len == covered(self@),
    {
        let n: usize = self.entries.len();
        if n == 0 {
            0
        } else {
            self.entries[n - 1].range.end
        }
    }

    /// The place of a fragment's entry in document order.
    pub fn find(&self, fragment: FragmentId) -> (place: Option<usize>)
        ensures
            match place {
                Some(k) => k < self@.len() && self@[k as int].fragment == fragment,
                None => !known(self@, fragment),
            },
    {
        let n: usize = self.entries.len();
        let mut k: usize = 0;
        while k < n
            invariant
                k <= n,
                n == self.entries.len(),
                forall|j: int| 0 <= j < k ==> (#[trigger] self@[j]).fragment != fragment,
            decreases n - k,
        {
            if self.entries[k].fragment == fragment {
                return Some(k);
            }
            k = k + 1;
        }
        None
    }

    /// The fragment of the entry at `k`.
    pub fn fragment_at(&self, k: usize) -> (fragment: FragmentId)
        requires
            k < self@.len(),
        ensures
            fragment == self@[k as int].fragment,
    {
        self.entries[k].fragment
    }

    /// The bounds of the entry at `k`.
    pub fn bounds(&self, k: usize) -> (bounds: (usize, usize))
        requires
            k < self@.len(),
        ensures
            bounds.0 == self@[k as int].start,
            bounds.1 == self@[k as int].end,
    {
        (self.entries[k].range.start, self.entries[k].range.end)
    }

    /// The producer of the entry at `k`.
    pub fn replacer(&self, k: usize) -> (replacer: Option<&R>)
        requires
            k < self@.len(),
        ensures
            match replacer {
                Some(f) => self@[k as int].replacer == Some(*f),
                None => self@[k as int].replacer is None,
            },
    {
        self.entries[k].range.replacer.as_ref()
    }

    /// The range that a fragment owns.
    pub fn range_of(&self, fragment: FragmentId) -> (bounds: Option<(usize, usize)>)
        requires
            self.wf(),
        ensures
            match bounds {
                Some((start, end)) => exists|k: int|
                    0 <= k < self@.len() && (#[trigger] self@[k]).fragment == fragment
                        && self@[k].start == start && self@[k].end == end,
                None => !known(self@, fragment),
            },
    {
        match self.find(fragment) {
            Some(k) => Some(self.bounds(k)),
            None => None,
        }
    }

    /// Appends an entry for `fragment` that owns the `len` primitives after
    /// those covered so far.
    pub fn append(&mut self, fragment: FragmentId, len: usize, replacer: Option<R>) -> (outcome:
        Result<(usize, usize), SpliceError>)
        requires
            old(self).wf(),
            covered(old(self)@) + len <= usize::MAX,
        ensures
            final(self).wf(),
            match outcome {
                Ok((start, end)) => {
                    &&& !known(old(self)@, fragment)
                    &&& final(self)@ == appended(old(self)@, fragment, len as int, replacer)
                    &&& start == covered(old(self)@)
                    &&& end == start + len
                },
                Err(error) => {
                    &&& error == SpliceError::DuplicateFragment
                    &&& known(old(self)@, fragment)
                    &&& final(self)@ == old(self)@
                },
            },
    {
        if self.find(fragment).is_some() {
            return Err(SpliceError::DuplicateFragment);
        }
        let start: usize = self.covered();
        let end: usize = start + len;
        proof {
            lemma_appended_tiles(old(self)@, fragment, len as int, replacer);
        }
        self.entries.push(Entry { fragment, range: UIRange { start, end, replacer } });
        assert(self@ =~= appended(old(self)@, fragment, len as int, replacer));
        Ok((start, end))
    }

    /// Gives the entry at `k` the length `len` and moves every later entry by
    /// the change in length.
    pub fn resize(&mut self, k: usize, len: usize)
        requires
            old(self).wf(),
            k < old(self)@.len(),
            covered(old(self)@) - (old(self)@[k as int].end - old(self)@[k as int].start) + len
                <= usize::MAX,
        ensures
            final(self)@ == resized(old(self)@, k as int, len as int),
            final(self).wf(),
    {
        let ghost before = self@;
        let ghost after = resized(before, k as int, len as int);
        proof {
            lemma_resized_tiles(before, k as int, len as int);
            lemma_tiles_in_order(before, k as int, k as int);
        }
        let n: usize = self.entries.len();
        let start: usize = self.entries[k].range.start;
        let held: usize = self.entries[k].range.end - start;
        self.entries[k].range.end = start + len;
        let mut j: usize = k + 1;
        while j < n
            invariant
                k < j <= n,
                n == self.entries.len(),
                n == before.len(),
                tiles(before),
                after == resized(before, k as int, len as int),
                held == before[k as int].end - before[k as int].start,
                covered(before) - held + len <= usize::MAX,
                forall|i: int| 0 <= i < j ==> #[trigger] self@[i] == after[i],
                forall|i: int| j <= i < n ==> #[trigger] self@[i] == before[i],
            decreases n - j,
        {
            proof {
                lemma_tiles_in_order(before, k as int, j as int);
                lemma_tiles_in_order(before, j as int, j as int);
                assert(self@[j as int] == before[j as int]);
                assert(self.entries[j as int].range.end == before[j as int].end);
                assert(self.entries[j as int].range.start == before[j as int].start);
            }
            let ghost moving = self@;
            if len >= held {
                let delta: usize = len - held;
                self.entries[j].range.start = self.entries[j].range.start + delta;
                self.entries[j].range.end = self.entries[j].range.end + delta;
            } else {
                let delta: usize = held - len;
                self.entries[j].range.start = self.entries[j].range.start - delta;
                self.entries[j].range.end = self.entries[j].range.end - delta;
            }
            proof {
                assert forall|i: int| 0 <= i < j + 1 implies #[trigger] self@[i] == after[i] by {
                    if i < j {
                        assert(moving[i] == after[i]);
                    }
                }
                assert forall|i: int| j + 1 <= i < n implies #[trigger] self@[i] == before[i] by {
                    assert(moving[i] == before[i]);
                }
            }
            j = j + 1;
        }
        assert(self@ =~= after);
    }

    /// Releases the entry at `k`: it is taken out, and every later entry
    /// moves down by its length.
    pub fn release(&mut self, k: usize)
        requires
            old(self).wf(),
            k < old(self)@.len(),
        ensures
            final(self)@ == released(old(self)@, k as int),
            final(self).wf(),
    {
        proof {
            lemma_released_tiles(old(self)@, k as int);
            lemma_tiles_in_order(old(self)@, k as int, k as int);
        }
        self.resize(k, 0);
        let ghost shrunk = self@;
        self.entries.remove(k);
        assert(self@ =~= shrunk.remove(k as int));
    }
}

} // verus!
