//! Fragment trees.
//!
//! A fragment is a leaf, which shows one primitive, or a container, which
//! shows its children one after the other. The set of variants is closed.

use vstd::prelude::*;
use super::elements::{shown, Fragment, Primitive, Shown};
use super::geometry::FlowDirection;
use super::utils::RefStr;
use crate::splice::engine::{
    content_at,
    lemma_content_of_spliced,
    lemma_splice_keeps_siblings,
    lemma_spliced_composed,
    place_of,
    Change,
    Composition,
};
use crate::splice::range::{known, lemma_tiles_in_order, resized, FragmentId};
use crate::splice::table::SpliceError;

verus! {

/// A node of a fragment tree.
#[derive(Debug)]
pub enum UIFragment {
    Container(UIFragmentList),
    Leaf(Primitive),
}

/// A fragment that shows exactly one primitive.
pub trait UIFragmentLeaf: Fragment {
    /// A leaf shows one primitive.
    proof fn lemma_shows_one(&self)
        ensures
            self.rendered().len() == 1,
    ;
}

/// A fragment that lays out children along a direction.
pub trait UIFragmentContainer: Fragment {
    /// The direction along which the children follow each other.
    spec fn flow(&self) -> FlowDirection;

    /// The direction along which the children follow each other.
    fn direction(&self) -> (direction: FlowDirection)
        ensures
            direction == self.flow(),
    ;
}

/// A tree of fragments under a name.
#[derive(Debug)]
pub struct Workspace<'a> {
    pub name: RefStr,
    pub root_node: &'a UIFragment,
}

/// A container that shows its children in list order.
#[derive(Debug)]
pub struct UIFragmentList {
    pub direction: FlowDirection,
    pub list: Vec<UIFragment>,
}

/// What a fragment shows: a leaf its primitive, a container what its
/// children show, in their order.
pub open spec fn flat(fragment: UIFragment) -> Seq<Shown>
    decreases fragment, 0nat,
{
    match fragment {
        UIFragment::Leaf(primitive) => seq![primitive@],
        UIFragment::Container(container) => flat_first(container.list@, container.list@.len()),
    }
}

/// What the first `n` of the children show.
pub open spec fn flat_first(children: Seq<UIFragment>, n: nat) -> Seq<Shown>
    decreases children, n,
{
    if n == 0 || n > children.len() {
        Seq::empty()
    } else {
        flat_first(children, (n - 1) as nat) + flat(children[n - 1])
    }
}

impl UIFragment {
    /// The primitives that show the fragment, in buffer order.
    pub fn flatten(&self) -> (out: Vec<Primitive>)
        ensures
            shown(out@) == flat(*self),
        decreases self,
    {
        match self {
            UIFragment::Leaf(primitive) => {
                let mut out: Vec<Primitive> = Vec::new();
                out.push(primitive.clone());
                assert(shown(out@) =~= seq![primitive@]);
                out
            },
            UIFragment::Container(container) => container.flatten(),
        }
    }
}

impl UIFragmentList {
    /// A container of the given children.
    pub fn new(direction: FlowDirection, list: Vec<UIFragment>) -> (container: Self)
        ensures
            container.direction == direction,
            container.list == list,
    {
        UIFragmentList { direction, list }
    }

    /// The primitives that show the children, in buffer order.
    pub fn flatten(&self) -> (out: Vec<Primitive>)
        ensures
            shown(out@) == flat_first(self.list@, self.list@.len()),
        decreases self,
    {
        let mut out: Vec<Primitive> = Vec::new();
        let n: usize = self.list.len();
        let mut i: usize = 0;
        assert(shown(out@) =~= flat_first(self.list@, 0));
        while i < n
            invariant
                i <= n,
                n == self.list.len(),
                shown(out@) == flat_first(self.list@, i as nat),
            decreases n - i,
        {
            let mut part = self.list[i].flatten();
            let ghost before = out@;
            let ghost added = part@;
            out.append(&mut part);
            assert(shown(out@) =~= shown(before) + shown(added));
            i = i + 1;
        }
        out
    }

    /// The composition of the children: the flat buffer of what they show,
    /// with one range for each child, in list order. The child at place `i`
    /// has the identity `i`. There is none if the buffer would not fit the
    /// machine's indices.
    pub fn compose<R>(&self) -> (outcome: Option<Composition<Primitive, R>>)
        ensures
            match outcome {
                Some(composition) => {
                    &&& composition.wf()
                    &&& shown(composition@.primitives) == flat_first(self.list@, self.list@.len())
                    &&& composition@.spans.len() == self.list@.len()
                    &&& forall|i: int|
                        0 <= i < self.list@.len() ==> {
                            &&& (#[trigger] composition@.spans[i]).fragment == FragmentId(i as u64)
                            &&& composition@.spans[i].replacer is None
                            &&& composition@.spans[i].end - composition@.spans[i].start == flat(
                                self.list@[i],
                            ).len()
                        }
                },
                None => flat_first(self.list@, self.list@.len()).len() > usize::MAX,
            },
    {
        let mut composition: Composition<Primitive, R> = Composition::new();
        let n: usize = self.list.len();
        let mut i: usize = 0;
        assert(shown(composition@.primitives) =~= flat_first(self.list@, 0));
        while i < n
            invariant
                i <= n,
                n == self.list.len(),
                composition.wf(),
                shown(composition@.primitives) == flat_first(self.list@, i as nat),
                composition@.spans.len() == i,
                forall|j: int|
                    0 <= j < i ==> {
                        &&& (#[trigger] composition@.spans[j]).fragment == FragmentId(j as u64)
                        &&& composition@.spans[j].replacer is None
                        &&& composition@.spans[j].end - composition@.spans[j].start == flat(
                            self.list@[j],
                        ).len()
                    },
            decreases n - i,
        {
            let part = self.list[i].flatten();
            let ghost before = composition@;
            let ghost added = part@;
            if part.len() > usize::MAX - composition.len() {
                proof {
                    lemma_flat_first_grows(self.list@, (i + 1) as nat, n as nat);
                    assert(shown(before.primitives).len() == before.primitives.len());
                    assert(shown(added).len() == added.len());
                }
                return None;
            }
            proof {
                assert forall|j: int| 0 <= j < i implies (#[trigger] before.spans[j]).fragment
                    != FragmentId(i as u64) by {
                    assert(before.spans[j].fragment == FragmentId(j as u64));
                }
            }
            let mounted = composition.mount(FragmentId(i as u64), part, None);
            assert(mounted is Ok);
            assert(shown(composition@.primitives) =~= shown(before.primitives) + shown(added));
            assert forall|j: int| 0 <= j < i + 1 implies {
                &&& (#[trigger] composition@.spans[j]).fragment == FragmentId(j as u64)
                &&& composition@.spans[j].replacer is None
                &&& composition@.spans[j].end - composition@.spans[j].start == flat(
                    self.list@[j],
                ).len()
            } by {
                if j < i {
                    assert(composition@.spans[j] == before.spans[j]);
                } else {
                    assert(shown(added).len() == added.len());
                }
            }
            i = i + 1;
        }
        Some(composition)
    }
}

impl UIFragmentList {
    /// Writes what the child at place `i` shows now into the range that the
    /// child owns in a composition of this container. The ranges of the
    /// children after it move if the child shows more or fewer primitives
    /// than before; what the other children show is not touched. The
    /// buffer has to stay within the machine's indices.
    pub fn recompose_child<R>(&self, composition: &mut Composition<Primitive, R>, i: usize) -> (outcome:
        Result<Change, SpliceError>)
        requires
            old(composition).wf(),
            i < self.list.len(),
            known(old(composition)@.spans, FragmentId(i as u64)) ==> {
                let k = place_of(old(composition)@.spans, FragmentId(i as u64));
                old(composition)@.primitives.len() - (old(composition)@.spans[k].end - old(
                    composition,
                )@.spans[k].start) + flat(self.list@[i as int]).len() <= usize::MAX
            },
        ensures
            final(composition).wf(),
            match outcome {
                Ok(change) => {
                    let k = place_of(old(composition)@.spans, FragmentId(i as u64));
                    &&& known(old(composition)@.spans, FragmentId(i as u64))
                    &&& final(composition)@.spans == resized(
                        old(composition)@.spans,
                        k,
                        flat(self.list@[i as int]).len() as int,
                    )
                    &&& shown(content_at(final(composition)@, k)) == flat(self.list@[i as int])
                    &&& forall|j: int|
                        0 <= j < old(composition)@.spans.len() && j != k ==> content_at(
                            final(composition)@,
                            j,
                        ) == content_at(old(composition)@, j)
                    &&& change.start == old(composition)@.spans[k].start
                    &&& change.end == change.start + flat(self.list@[i as int]).len()
                },
                Err(error) => {
                    &&& error == SpliceError::UnknownRange
                    &&& !known(old(composition)@.spans, FragmentId(i as u64))
                    &&& final(composition)@ == old(composition)@
                },
            },
    {
        let content = self.list[i].flatten();
        let ghost before = composition@;
        let ghost given = content@;
        assert(shown(given).len() == given.len());
        proof {
            if known(before.spans, FragmentId(i as u64)) {
                let k = place_of(before.spans, FragmentId(i as u64));
                lemma_spliced_composed(before, k, given);
            }
        }
        let outcome = composition.splice(FragmentId(i as u64), content);
        proof {
            if outcome is Ok {
                let k = place_of(before.spans, FragmentId(i as u64));
                assert forall|j: int| 0 <= j < before.spans.len() && j != k implies content_at(
                    composition@,
                    j,
                ) == content_at(before, j) by {
                    lemma_splice_keeps_siblings(before, k, given, j);
                }
                assert(0 <= k < before.spans.len() && before.spans[k].fragment == FragmentId(
                    i as u64,
                ));
                lemma_content_of_spliced(before, k, given);
                lemma_tiles_in_order(before.spans, k, k);
            }
        }
        outcome
    }
}

/// What more children show is no shorter.
pub proof fn lemma_flat_first_grows(children: Seq<UIFragment>, a: nat, b: nat)
    requires
        a <= b <= children.len(),
    ensures
        flat_first(children, a).len() <= flat_first(children, b).len(),
    decreases b,
{
    if a < b {
        lemma_flat_first_grows(children, a, (b - 1) as nat);
    }
}

impl Fragment for UIFragment {
    open spec fn rendered(&self) -> Seq<Shown> {
        flat(*self)
    }

    fn primitives(&self) -> (out: Vec<Primitive>) {
        self.flatten()
    }
}

impl Fragment for UIFragmentList {
    open spec fn rendered(&self) -> Seq<Shown> {
        flat_first(self.list@, self.list@.len())
    }

    fn primitives(&self) -> (out: Vec<Primitive>) {
        self.flatten()
    }
}

impl UIFragmentLeaf for Primitive {
    proof fn lemma_shows_one(&self) {
    }
}

impl UIFragmentLeaf for i32 {
    proof fn lemma_shows_one(&self) {
    }
}

impl UIFragmentContainer for UIFragmentList {
    open spec fn flow(&self) -> FlowDirection {
        self.direction
    }

    fn direction(&self) -> (direction: FlowDirection) {
        self.direction
    }
}

impl<'a> Workspace<'a> {
    /// The workspace of the given name over the given tree.
    pub fn new(name: RefStr, root_node: &'a UIFragment) -> (workspace: Self)
        ensures
            workspace.name == name,
            workspace.root_node == root_node,
    {
        Workspace { name, root_node }
    }

    /// The primitives that show the workspace.
    pub fn primitives(&self) -> (out: Vec<Primitive>)
        ensures
            shown(out@) == flat(*self.root_node),
    {
        self.root_node.flatten()
    }
}

} // verus!
