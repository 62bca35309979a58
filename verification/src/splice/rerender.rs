//! Rerender events: what a fragment emits when what it shows has changed.
//!
//! A leaf emits the primitive that it shows now, for a range that holds one
//! primitive. A container passes on what a child emitted, wrapped in the
//! range that the child owns in the container's buffer; the child's range
//! counts from the start of that range.

use vstd::prelude::*;
use super::engine::{composed, Change, Composed, Composition};
use super::table::SpliceError;

verus! {

/// What a rerender event carries.
pub enum RerenderInner<T> {
    /// The event of a child, in the child's coordinates.
    Nested(Box<Rerender<T>>),
    /// The primitive that a leaf shows now.
    Primitive(T),
}

/// The notice that the primitives in the range `[start, end)` have changed.
pub struct Rerender<T> {
    pub start: usize,
    pub end: usize,
    pub command: RerenderInner<T>,
}

/// Where a rerender event puts its primitive, counted from the start of the
/// buffer that its range belongs to, or why it puts it nowhere.
pub open spec fn placed<T>(event: Rerender<T>) -> Result<(int, T), SpliceError>
    decreases event,
{
    match event.command {
        RerenderInner::Primitive(primitive) => if event.end - event.start == 1 {
            Ok((event.start as int, primitive))
        } else {
            Err(
                SpliceError::ReplacementCountMismatch {
                    expected: if event.end >= event.start {
                        (event.end - event.start) as usize
                    } else {
                        0
                    },
                    found: 1,
                },
            )
        },
        RerenderInner::Nested(inner) => match placed(*inner) {
            Ok((at, primitive)) => if event.start + at < event.end {
                Ok((event.start + at, primitive))
            } else {
                Err(SpliceError::UnknownRange)
            },
            Err(error) => Err(error),
        },
    }
}

/// A composition after one primitive was written in place.
pub open spec fn rewritten<T, R>(c: Composed<T, R>, at: int, primitive: T) -> Composed<T, R> {
    Composed { primitives: c.primitives.update(at, primitive), spans: c.spans }
}

/// Writing a primitive in place leaves a composition a composition.
pub proof fn lemma_rewritten_composed<T, R>(c: Composed<T, R>, at: int, primitive: T)
    requires
        composed(c),
        0 <= at < c.primitives.len(),
    ensures
        composed(rewritten(c, at, primitive)),
{
}

impl<T> Rerender<T> {
    /// The event of a leaf that shows `primitive` at the index `at`.
    pub fn leaf(at: usize, primitive: T) -> (event: Self)
        requires
            at < usize::MAX,
        ensures
            event.start == at,
            event.end == at + 1,
            event.command == RerenderInner::Primitive(primitive),
            placed(event) == Ok::<(int, T), SpliceError>((at as int, primitive)),
    {
        Rerender { start: at, end: at + 1, command: RerenderInner::Primitive(primitive) }
    }

    /// The event of a child, passed on by the container in whose buffer the
    /// child owns the range `[start, end)`.
    pub fn nested(start: usize, end: usize, inner: Rerender<T>) -> (event: Self)
        ensures
            event.start == start,
            event.end == end,
            event.command == RerenderInner::Nested(Box::new(inner)),
    {
        Rerender { start, end, command: RerenderInner::Nested(Box::new(inner)) }
    }

    /// Finds the index at which the event puts its primitive.
    pub fn resolve(self) -> (outcome: Result<(usize, T), SpliceError>)
        ensures
            match outcome {
                Ok((at, primitive)) => placed(self) == Ok::<(int, T), SpliceError>(
                    (at as int, primitive),
                ),
                Err(error) => placed(self) == Err::<(int, T), SpliceError>(error),
            },
        decreases self,
    {
        let start: usize = self.start;
        let end: usize = self.end;
        match self.command {
            RerenderInner::Primitive(primitive) => {
                if end > start && end - start == 1 {
                    Ok((start, primitive))
                } else {
                    Err(
                        SpliceError::ReplacementCountMismatch {
                            expected: if end >= start {
                                end - start
                            } else {
                                0
                            },
                            found: 1,
                        },
                    )
                }
            },
            RerenderInner::Nested(inner) => {
                match (*inner).resolve() {
                    Ok((at, primitive)) => {
                        if end > start && at < end - start {
                            Ok((start + at, primitive))
                        } else {
                            Err(SpliceError::UnknownRange)
                        }
                    },
                    Err(error) => Err(error),
                }
            },
        }
    }
}

impl<T, R> Composition<T, R> {
    /// Applies a rerender event: the primitive that it carries is written
    /// at the index that it names, and the range table stays as it is.
    pub fn apply(&mut self, event: Rerender<T>) -> (outcome: Result<Change, SpliceError>)
        requires
            old(self).wf(),
        ensures
            final(self).wf(),
            match outcome {
                Ok(change) => {
                    &&& placed(event) is Ok
                    &&& placed(event)->Ok_0.0 < old(self)@.primitives.len()
                    &&& final(self)@ == rewritten(
                        old(self)@,
                        placed(event)->Ok_0.0,
                        placed(event)->Ok_0.1,
                    )
                    &&& change.start == placed(event)->Ok_0.0
                    &&& change.end == change.start + 1
                    &&& change.dirty_end == change.end
                },
                Err(error) => {
                    &&& final(self)@ == old(self)@
                    &&& match placed(event) {
                        Ok((at, _)) => at >= old(self)@.primitives.len() && error
                            == SpliceError::UnknownRange,
                        Err(found) => error == found,
                    }
                },
            },
    {
        match event.resolve() {
            Ok((at, primitive)) => {
                if at < self.len() {
                    self.put(at, primitive);
                    Ok(Change { start: at, end: at + 1, dirty_end: at + 1 })
                } else {
                    Err(SpliceError::UnknownRange)
                }
            },
            Err(error) => Err(error),
        }
    }
}

} // verus!
