//! The error boundary: a view that shows its children while they build, and a
//! fallback made from the error once they fail.

use vstd::prelude::*;
use std::marker::PhantomData;

verus! {

broadcast use vstd::function::group_function_axioms;

/// The error that a failed build or rebuild reports.
pub struct AnyError {
    pub message: String,
}

/// The kinds of node that a renderer draws.
pub trait Tree: Sized {
    type Node;

    type Element;
}

/// What draws the views: how it marks a place, and how a built view is put in
/// front of a node.
pub trait Renderer: Tree {
    type Placeholder: Mountable<Self>;

    fn create_placeholder() -> Self::Placeholder;

    /// The node that stands for `placeholder` in the tree.
    fn node_of(placeholder: &Self::Placeholder) -> &Self::Node;

    fn mount_before<M: Mountable<Self>>(new_child: &mut M, before: &Self::Node);
}

/// The built state of a view, which can be put into the tree and taken out.
pub trait Mountable<R: Tree> {
    fn unmount(&mut self);

    fn mount(&mut self, parent: &R::Element, marker: Option<&R::Node>);
}

/// A built view in front of which another can be put into the tree.
pub trait Anchor<R: Tree>: Mountable<R> {
    fn insert_before_this<M: Mountable<R>>(&self, parent: &R::Element, child: &mut M) -> bool;
}

/// A view: something that can be built, and rebuilt against what it built before.
pub trait Render<R: Renderer>: Sized {
    type State: Anchor<R>;

    type FallibleState: Anchor<R>;

    fn build(self) -> Self::State;

    fn rebuild(self, state: &mut Self::State);

    fn try_build(self) -> Result<Self::FallibleState, AnyError>;

    fn try_rebuild(self, state: &mut Self::FallibleState) -> Result<(), AnyError>;
}

/// `fallback` accepts every error.
pub open spec fn catches_everything<Fal, FalFn: FnMut(AnyError) -> Fal>(fallback: FalFn) -> bool {
    forall|error: AnyError| call_requires(fallback, (error,))
}

/// A view with a fallback: it shows `child`, and where `child` fails to build
/// or to rebuild, what `fal` makes of the error.
#[verifier::reject_recursive_types(T)]
#[verifier::reject_recursive_types(Fal)]
#[verifier::reject_recursive_types(FalFn)]
#[verifier::reject_recursive_types(Rndr)]
pub struct Try<T, Fal, FalFn, Rndr> where
    T: Render<Rndr>,
    Fal: Render<Rndr>,
    FalFn: FnMut(AnyError) -> Fal,
    Rndr: Renderer,
 {
    child: T,
    fal: FalFn,
    ty: PhantomData<Rndr>,
}

impl<T, Fal, FalFn, Rndr> Try<T, Fal, FalFn, Rndr> where
    T: Render<Rndr>,
    Fal: Render<Rndr>,
    FalFn: FnMut(AnyError) -> Fal,
    Rndr: Renderer,
 {
    #[verifier::type_invariant]
    spec fn fallback_is_total(self) -> bool {
        catches_everything(self.fal)
    }

    /// The view that the boundary shows while it builds.
    pub closed spec fn child(self) -> T {
        self.child
    }

    /// What makes the fallback view from an error.
    pub closed spec fn fallback(self) -> FalFn {
        self.fal
    }

    /// The boundary that shows `child` and falls back on `fallback`.
    pub fn new(fallback: FalFn, child: T) -> (boundary: Self)
        requires
            catches_everything(fallback),
        ensures
            boundary.child() == child,
            boundary.fallback() == fallback,
    {
        Try { child, fal: fallback, ty: PhantomData }
    }
}

/// Which of its three shapes the state of a boundary has.
pub enum Phase {
    /// The children are shown.
    Children,
    /// The children failed when first built; the fallback is shown.
    FirstFallback,
    /// The children failed when rebuilt; the fallback is shown, and what the
    /// children had built is kept alive behind it.
    LaterFallback,
}

/// What a boundary has built: what it shows, the children or a fallback; what
/// the children had built before a fallback took their place; and the marker in
/// front of which what is shown is mounted.
#[verifier::reject_recursive_types(T)]
#[verifier::reject_recursive_types(Fal)]
#[verifier::reject_recursive_types(Rndr)]
pub struct TryState<T, Fal, Rndr> where T: Render<Rndr>, Fal: Render<Rndr>, Rndr: Renderer {
    inner: TryStateState<T, Fal, Rndr>,
    // kept alive only: the children may hold the reactive state that made the
    // boundary fail in the first place
    kept: Option<T::FallibleState>,
    marker: Rndr::Placeholder,
}

/// What a boundary shows. Either way there is something to show: no state
/// stands for children that are shown and are not there.
#[verifier::reject_recursive_types(T)]
#[verifier::reject_recursive_types(Fal)]
#[verifier::reject_recursive_types(Rndr)]
enum TryStateState<T, Fal, Rndr> where T: Render<Rndr>, Fal: Render<Rndr>, Rndr: Renderer {
    Success(T::FallibleState),
    Failure(Fal::State),
}

impl<T, Fal, Rndr> TryStateState<T, Fal, Rndr> where
    T: Render<Rndr>,
    Fal: Render<Rndr>,
    Rndr: Renderer,
 {
    /// Whether the children are shown.
    spec fn phase(self) -> Phase {
        match self {
            TryStateState::Success(_) => Phase::Children,
            TryStateState::Failure(_) => Phase::FirstFallback,
        }
    }

    /// The children, where they are shown.
    spec fn children(self) -> Option<T::FallibleState> {
        match self {
            TryStateState::Success(children) => Some(children),
            TryStateState::Failure(_) => None,
        }
    }

    /// The fallback, where it is shown.
    spec fn fallback(self) -> Option<Fal::State> {
        match self {
            TryStateState::Success(_) => None,
            TryStateState::Failure(fallback) => Some(fallback),
        }
    }

    /// Rebuilds the shown children in place with `child`: what they had built is
    /// handed to `try_rebuild` of `child`, and the outcome is what that returns.
    fn rebuild_children(&mut self, child: T) -> (outcome: Result<(), AnyError>)
        requires
            old(self).phase() == Phase::Children,
        ensures
            final(self).phase() == Phase::Children,
            exists|r: &mut T::FallibleState|
                {
                    &&& old(self).children() == Some(*r)
                    &&& final(self).children() == Some(*final(r))
                    &&& #[trigger] call_ensures(T::try_rebuild, (child, r), outcome)
                },
    {
        match self {
            TryStateState::Success(children) => child.try_rebuild(children),
            TryStateState::Failure(_) => Ok(()),
        }
    }

    /// What is shown leaves the tree: it is handed to its own `unmount`.
    fn unmount(&mut self)
        ensures
            final(self).phase() == old(self).phase(),
            old(self).phase() == Phase::Children ==> final(self).fallback() is None && exists|r: &mut T::FallibleState|
                    {
                        &&& old(self).children() == Some(*r)
                        &&& final(self).children() == Some(*final(r))
                        &&& #[trigger] call_ensures(
                            <T::FallibleState as Mountable<Rndr>>::unmount,
                            (r,),
                            (),
                        )
                    },
            old(self).phase() != Phase::Children ==> final(self).children() == old(self).children()
                && exists|r: &mut Fal::State|
                    {
                        &&& old(self).fallback() == Some(*r)
                        &&& final(self).fallback() == Some(*final(r))
                        &&& #[trigger] call_ensures(
                            <Fal::State as Mountable<Rndr>>::unmount,
                            (r,),
                            (),
                        )
                    },
    {
        match self {
            TryStateState::Success(children) => children.unmount(),
            TryStateState::Failure(fallback) => fallback.unmount(),
        }
    }

    /// What is shown enters the tree under `parent`, in front of `marker`: it is
    /// handed to its own `mount` with the two.
    fn mount(&mut self, parent: &Rndr::Element, marker: &Rndr::Node)
        ensures
            final(self).phase() == old(self).phase(),
            old(self).phase() == Phase::Children ==> final(self).fallback() is None && exists|r: &mut T::FallibleState|
                    {
                        &&& old(self).children() == Some(*r)
                        &&& final(self).children() == Some(*final(r))
                        &&& #[trigger] call_ensures(
                            <T::FallibleState as Mountable<Rndr>>::mount,
                            (r, parent, Some(marker)),
                            (),
                        )
                    },
            old(self).phase() != Phase::Children ==> final(self).children() == old(self).children()
                && exists|r: &mut Fal::State|
                    {
                        &&& old(self).fallback() == Some(*r)
                        &&& final(self).fallback() == Some(*final(r))
                        &&& #[trigger] call_ensures(
                            <Fal::State as Mountable<Rndr>>::mount,
                            (r, parent, Some(marker)),
                            (),
                        )
                    },
    {
        match self {
            TryStateState::Success(children) => children.mount(parent, Some(marker)),
            TryStateState::Failure(fallback) => fallback.mount(parent, Some(marker)),
        }
    }

    /// Puts `child` into the tree in front of what is shown, and tells whether
    /// that was done: `parent` and `child` are handed to `insert_before_this` of
    /// what is shown, and the answer is its answer.
    fn insert_before_this<M: Mountable<Rndr>>(
        &self,
        parent: &Rndr::Element,
        child: &mut M,
    ) -> (done: bool)
        ensures
            match (self.fallback(), self.children()) {
                (Some(shown), _) => exists|r: &mut M|
                    *r == *old(child) && *final(r) == *final(child) && #[trigger] call_ensures(
                        <Fal::State as Anchor<Rndr>>::insert_before_this::<M>,
                        (&shown, parent, r),
                        done,
                    ),
                (None, Some(shown)) => exists|r: &mut M|
                    *r == *old(child) && *final(r) == *final(child) && #[trigger] call_ensures(
                        <T::FallibleState as Anchor<Rndr>>::insert_before_this::<M>,
                        (&shown, parent, r),
                        done,
                    ),
                (None, None) => false,
            },
    {
        match self {
            TryStateState::Success(children) => {
                let done = children.insert_before_this(parent, child);
                assert(self.children() == Some(*children) && self.fallback() is None);
                assert(exists|r: &mut M|
                    *r == *old(child) && *final(r) == *final(child) && #[trigger] call_ensures(
                        <T::FallibleState as Anchor<Rndr>>::insert_before_this::<M>,
                        (&self.children().unwrap(), parent, r),
                        done,
                    ));
                done
            },
            TryStateState::Failure(fallback) => {
                let done = fallback.insert_before_this(parent, child);
                assert(self.fallback() == Some(*fallback));
                assert(exists|r: &mut M|
                    *r == *old(child) && *final(r) == *final(child) && #[trigger] call_ensures(
                        <Fal::State as Anchor<Rndr>>::insert_before_this::<M>,
                        (&self.fallback().unwrap(), parent, r),
                        done,
                    ));
                done
            },
        }
    }
}

impl<T, Fal, Rndr> TryState<T, Fal, Rndr> where T: Render<Rndr>, Fal: Render<Rndr>, Rndr: Renderer {
    /// The shape of the state: what the boundary shows, and whether children
    /// are kept behind a fallback.
    pub closed spec fn phase(self) -> Phase {
        match self.inner {
            TryStateState::Success(_) => Phase::Children,
            TryStateState::Failure(_) => if self.kept is Some {
                Phase::LaterFallback
            } else {
                Phase::FirstFallback
            },
        }
    }

    /// What the children have built: shown, or kept behind a later fallback.
    pub closed spec fn children(self) -> Option<T::FallibleState> {
        match self.inner {
            TryStateState::Success(children) => Some(children),
            TryStateState::Failure(_) => self.kept,
        }
    }

    /// The fallback that is shown, if one is.
    pub closed spec fn shown_fallback(self) -> Option<Fal::State> {
        self.inner.fallback()
    }

    /// The marker in front of which what is shown is mounted.
    pub closed spec fn marker(self) -> Rndr::Placeholder {
        self.marker
    }

    /// While the children are shown they are there, and while a fallback is
    /// shown it is.
    pub proof fn lemma_something_is_shown(self)
        ensures
            self.phase() == Phase::Children <==> self.shown_fallback() is None,
            self.phase() == Phase::Children ==> self.children() is Some,
            self.phase() == Phase::FirstFallback ==> self.children() is None,
            self.phase() == Phase::LaterFallback ==> self.children() is Some,
    {
    }

    /// Puts `child` into the tree in front of what is shown, and tells whether
    /// that was done: `parent` and `child` are handed to `insert_before_this` of
    /// what is shown, and the answer is its answer.
    pub fn insert_before_shown<M: Mountable<Rndr>>(
        &self,
        parent: &Rndr::Element,
        child: &mut M,
    ) -> (done: bool)
        ensures
            match self.shown_fallback() {
                Some(shown) => exists|r: &mut M|
                    *r == *old(child) && *final(r) == *final(child) && #[trigger] call_ensures(
                        <Fal::State as Anchor<Rndr>>::insert_before_this::<M>,
                        (&shown, parent, r),
                        done,
                    ),
                None => exists|r: &mut M|
                    *r == *old(child) && *final(r) == *final(child) && #[trigger] call_ensures(
                        <T::FallibleState as Anchor<Rndr>>::insert_before_this::<M>,
                        (&self.children().unwrap(), parent, r),
                        done,
                    ),
            },
    {
        self.inner.insert_before_this(parent, child)
    }

    /// What a first build ends in, given what building the children returned:
    /// the children where they were built, else what the view that `fallback`
    /// makes of the error builds; and a new marker for the place.
    pub fn first<FalFn: FnMut(AnyError) -> Fal>(
        outcome: Result<T::FallibleState, AnyError>,
        fallback: FalFn,
    ) -> (state: Self)
        requires
            catches_everything(fallback),
        ensures
            first_state(outcome, fallback, state),
    {
        let mut fallback = fallback;
        let inner = match outcome {
            Ok(children) => TryStateState::Success(children),
            Err(error) => TryStateState::Failure(fallback(error).build()),
        };
        let marker = Rndr::create_placeholder();
        TryState { inner, kept: None, marker }
    }

    /// What a rebuild of the shown children ends in, given what rebuilding them
    /// in place returned. Where that worked, nothing changes. Where it failed,
    /// the children leave the tree and are kept; the view that `fallback` makes
    /// of the error is built, and what it builds is mounted in front of the
    /// marker's node and shown. The marker stays.
    pub fn after_rebuild<FalFn: FnMut(AnyError) -> Fal>(
        &mut self,
        outcome: Result<(), AnyError>,
        fallback: FalFn,
    )
        requires
            old(self).phase() == Phase::Children,
            catches_everything(fallback),
        ensures
            final(self).phase() == shown_or(outcome, Phase::LaterFallback),
            final(self).marker() == old(self).marker(),
            match outcome {
                Ok(_) => *final(self) == *old(self),
                Err(error) => {
                &&& final(self).phase() == Phase::LaterFallback
                &&& exists|r: &mut T::FallibleState|
                    *r == old(self).children().unwrap() && final(self).children() == Some(*final(r)) && #[trigger] call_ensures(
                        <T::FallibleState as Mountable<Rndr>>::unmount,
                        (r,),
                        (),
                    )
                &&& exists|view: Fal, built: Fal::State, r: &mut Fal::State, node: &Rndr::Node|
                    #![trigger
                        call_ensures(fallback, (error,), view),
                        call_ensures(Fal::build, (view,), built),
                        call_ensures(Rndr::mount_before::<Fal::State>, (r, node), ()),
                    ]
                    {
                        &&& call_ensures(fallback, (error,), view)
                        &&& call_ensures(Fal::build, (view,), built)
                        &&& call_ensures(Rndr::node_of, (&old(self).marker(),), node)
                        &&& *r == built
                        &&& final(self).shown_fallback() == Some(*final(r))
                        &&& call_ensures(Rndr::mount_before::<Fal::State>, (r, node), ())
                    }
            },
            },
    {
        match outcome {
            Ok(()) => {},
            Err(error) => {
                let mut fallback = fallback;
                self.inner.unmount();
                let mut new_state = fallback(error).build();
                Rndr::mount_before(&mut new_state, Rndr::node_of(&self.marker));
                let mut next = TryStateState::Failure(new_state);
                core::mem::swap(&mut self.inner, &mut next);
                match next {
                    TryStateState::Success(children) => {
                        self.kept = Some(children);
                    },
                    TryStateState::Failure(_) => {},
                }
            },
        }
    }

    /// What a rebuild behind a fallback ends in, given what building the
    /// children anew returned. Where that failed, the view that `fallback`
    /// makes of the error is rebuilt into the fallback that is shown, and
    /// nothing else changes. Where it worked, the fallback leaves the tree, and
    /// the children are mounted in front of the marker's node and shown; what
    /// was kept of earlier children is let go. The marker stays.
    pub fn after_build<FalFn: FnMut(AnyError) -> Fal>(
        &mut self,
        outcome: Result<T::FallibleState, AnyError>,
        fallback: FalFn,
    )
        requires
            old(self).phase() != Phase::Children,
            catches_everything(fallback),
        ensures
            final(self).phase() == shown_or(outcome, old(self).phase()),
            final(self).marker() == old(self).marker(),
            match outcome {
                Err(error) => {
                    &&& final(self).phase() == old(self).phase()
                    &&& final(self).children() == old(self).children()
                    &&& exists|view: Fal, r: &mut Fal::State|
                        #![trigger
                            call_ensures(fallback, (error,), view),
                            call_ensures(Fal::rebuild, (view, r), ()),
                        ]
                        {
                            &&& call_ensures(fallback, (error,), view)
                            &&& old(self).shown_fallback() == Some(*r)
                            &&& final(self).shown_fallback() == Some(*final(r))
                            &&& call_ensures(Fal::rebuild, (view, r), ())
                        }
                },
                Ok(new_children) => {
                    &&& final(self).phase() == Phase::Children
                    &&& final(self).shown_fallback() is None
                    &&& exists|r: &mut Fal::State|
                        old(self).shown_fallback() == Some(*r) && #[trigger] call_ensures(
                            <Fal::State as Mountable<Rndr>>::unmount,
                            (r,),
                            (),
                        )
                    &&& exists|r: &mut T::FallibleState, node: &Rndr::Node|
                        {
                            &&& call_ensures(Rndr::node_of, (&old(self).marker(),), node)
                            &&& *r == new_children
                            &&& final(self).children() == Some(*final(r))
                            &&& #[trigger] call_ensures(
                                Rndr::mount_before::<T::FallibleState>,
                                (r, node),
                                (),
                            )
                        }
                },
            },
    {
        let mut fallback = fallback;
        match outcome {
            Err(error) => {
                match &mut self.inner {
                    TryStateState::Failure(old) => fallback(error).rebuild(old),
                    TryStateState::Success(_) => {},
                }
            },
            Ok(new_children) => {
                let mut new_children = new_children;
                self.inner.unmount();
                Rndr::mount_before(&mut new_children, Rndr::node_of(&self.marker));
                self.inner = TryStateState::Success(new_children);
                self.kept = None;
            },
        }
    }
}

/// What a first build ends in: a marker that `create_placeholder` made; with
/// it the children, where they were built; else what the view that `fallback`
/// makes of the error builds.
pub open spec fn first_state<T, Fal, FalFn, Rndr>(
    outcome: Result<T::FallibleState, AnyError>,
    fallback: FalFn,
    state: TryState<T, Fal, Rndr>,
) -> bool where T: Render<Rndr>, Fal: Render<Rndr>, FalFn: FnMut(AnyError) -> Fal, Rndr: Renderer {
    &&& call_ensures(Rndr::create_placeholder, (), state.marker())
    &&& match outcome {
        Ok(children) => {
            &&& state.phase() == Phase::Children
            &&& state.children() == Some(children)
            &&& state.shown_fallback() is None
        },
        Err(error) => {
            &&& state.phase() == Phase::FirstFallback
            &&& state.children() is None
            &&& exists|view: Fal, built: Fal::State|
                #![trigger call_ensures(fallback, (error,), view), call_ensures(Fal::build, (view,), built)]
                {
                    &&& call_ensures(fallback, (error,), view)
                    &&& call_ensures(Fal::build, (view,), built)
                    &&& state.shown_fallback() == Some(built)
                }
        },
    }
}

/// The shape behind an attempt on the children: they are shown where it
/// worked, and `otherwise` where it failed.
pub open spec fn shown_or<S>(outcome: Result<S, AnyError>, otherwise: Phase) -> Phase {
    if outcome is Ok {
        Phase::Children
    } else {
        otherwise
    }
}

/// The shapes that one rebuild can lead to from `before`: the children stay or
/// give way to a fallback that keeps them alive; a fallback stays or gives way to
/// the children.
pub open spec fn follows(before: Phase, after: Phase) -> bool {
    match before {
        Phase::Children => after == Phase::Children || after == Phase::LaterFallback,
        Phase::FirstFallback => after == Phase::FirstFallback || after == Phase::Children,
        Phase::LaterFallback => after == Phase::LaterFallback || after == Phase::Children,
    }
}

impl<T, Fal, FalFn, Rndr> Render<Rndr> for Try<T, Fal, FalFn, Rndr> where
    T: Render<Rndr>,
    Fal: Render<Rndr>,
    FalFn: FnMut(AnyError) -> Fal,
    Rndr: Renderer,
 {
    type State = TryState<T, Fal, Rndr>;

    type FallibleState = Self::State;

    /// Builds the children, or the fallback where they fail, and marks the place:
    /// the state is what `first` makes of what `try_build` of the child returned.
    fn build(self) -> (state: Self::State)
        ensures
            exists|outcome: Result<T::FallibleState, AnyError>| #[trigger]
                call_ensures(T::try_build, (self.child(),), outcome) && first_state(
                    outcome,
                    self.fallback(),
                    state,
                ),
    {
        proof {
            use_type_invariant(&self);
        }
        let Try { child, fal, ty: _ty } = self;
        let ghost shown = child;
        let outcome = child.try_build();
        assert(call_ensures(T::try_build, (shown,), outcome));
        assert(shown == self.child());
        let state = TryState::first(outcome, fal);
        assert(call_ensures(T::try_build, (self.child(),), outcome) && first_state(
            outcome,
            self.fallback(),
            state,
        ));
        state
    }

    /// Rebuilds against `state`. Shown children are handed to `try_rebuild` of
    /// the child, and the state is what `after_rebuild` makes of the outcome;
    /// behind a fallback the child is built anew with `try_build`, and the
    /// state is what `after_build` makes of the outcome. The marker stays.
    fn rebuild(self, state: &mut Self::State)
        ensures
            follows(old(state).phase(), final(state).phase()),
            final(state).marker() == old(state).marker(),
            old(state).phase() != Phase::Children ==> exists|built: Result<T::FallibleState, AnyError>|
                #[trigger] call_ensures(T::try_build, (self.child(),), built) && match built {
                Err(error) => {
                    &&& final(state).phase() == old(state).phase()
                    &&& final(state).children() == old(state).children()
                    &&& exists|view: Fal, r: &mut Fal::State|
                        #![trigger
                            call_ensures(self.fallback(), (error,), view),
                            call_ensures(Fal::rebuild, (view, r), ()),
                        ]
                        {
                            &&& call_ensures(self.fallback(), (error,), view)
                            &&& old(state).shown_fallback() == Some(*r)
                            &&& final(state).shown_fallback() == Some(*final(r))
                            &&& call_ensures(Fal::rebuild, (view, r), ())
                        }
                },
                Ok(new_children) => {
                    &&& final(state).phase() == Phase::Children
                    &&& final(state).shown_fallback() is None
                    &&& exists|r: &mut Fal::State|
                        old(state).shown_fallback() == Some(*r) && #[trigger] call_ensures(
                            <Fal::State as Mountable<Rndr>>::unmount,
                            (r,),
                            (),
                        )
                    &&& exists|r: &mut T::FallibleState, node: &Rndr::Node|
                        {
                            &&& call_ensures(Rndr::node_of, (&old(state).marker(),), node)
                            &&& *r == new_children
                            &&& final(state).children() == Some(*final(r))
                            &&& #[trigger] call_ensures(
                                Rndr::mount_before::<T::FallibleState>,
                                (r, node),
                                (),
                            )
                        }
                },
            },
            old(state).phase() == Phase::Children ==> exists|
                r0: &mut T::FallibleState,
                rebuilt: Result<(), AnyError>,
            |
                {
                    &&& old(state).children() == Some(*r0)
                    &&& #[trigger] call_ensures(T::try_rebuild, (self.child(), r0), rebuilt)
                    &&& match rebuilt {
                        Ok(_) => {
                            &&& final(state).phase() == Phase::Children
                            &&& final(state).children() == Some(*final(r0))
                            &&& final(state).shown_fallback() is None
                        },
                        Err(error) => {
                &&& final(state).phase() == Phase::LaterFallback
                &&& exists|r: &mut T::FallibleState|
                    *r == *final(r0) && final(state).children() == Some(*final(r)) && #[trigger] call_ensures(
                        <T::FallibleState as Mountable<Rndr>>::unmount,
                        (r,),
                        (),
                    )
                &&& exists|view: Fal, built: Fal::State, r: &mut Fal::State, node: &Rndr::Node|
                    #![trigger
                        call_ensures(self.fallback(), (error,), view),
                        call_ensures(Fal::build, (view,), built),
                        call_ensures(Rndr::mount_before::<Fal::State>, (r, node), ()),
                    ]
                    {
                        &&& call_ensures(self.fallback(), (error,), view)
                        &&& call_ensures(Fal::build, (view,), built)
                        &&& call_ensures(Rndr::node_of, (&old(state).marker(),), node)
                        &&& *r == built
                        &&& final(state).shown_fallback() == Some(*final(r))
                        &&& call_ensures(Rndr::mount_before::<Fal::State>, (r, node), ())
                    }
            },
                    }
                },
    {
        proof {
            use_type_invariant(&self);
        }
        let Try { child, fal, ty: _ty } = self;
        let ghost shown = child;
        assert(shown == self.child() && fal == self.fallback());
        match &state.inner {
            TryStateState::Success(_) => {
                let outcome = state.inner.rebuild_children(child);
                state.after_rebuild(outcome, fal);
            },
            TryStateState::Failure(_) => {
                let outcome = child.try_build();
                assert(call_ensures(T::try_build, (shown,), outcome));
                state.after_build(outcome, fal);
            },
        }
    }

    /// Builds as `build` does, and never fails itself.
    fn try_build(self) -> (outcome: Result<Self::FallibleState, AnyError>)
        ensures
            outcome matches Ok(state) && exists|built: Result<T::FallibleState, AnyError>| #[trigger]
                call_ensures(T::try_build, (self.child(),), built) && first_state(
                    built,
                    self.fallback(),
                    state,
                ),
    {
        Ok(self.build())
    }

    /// Rebuilds against `state`, as `rebuild` does, and never fails itself.
    fn try_rebuild(self, state: &mut Self::FallibleState) -> (outcome: Result<(), AnyError>)
        ensures
            outcome is Ok,
            follows(old(state).phase(), final(state).phase()),
            final(state).marker() == old(state).marker(),
            old(state).phase() != Phase::Children ==> exists|built: Result<T::FallibleState, AnyError>|
                #[trigger] call_ensures(T::try_build, (self.child(),), built) && match built {
                Err(error) => {
                    &&& final(state).phase() == old(state).phase()
                    &&& final(state).children() == old(state).children()
                    &&& exists|view: Fal, r: &mut Fal::State|
                        #![trigger
                            call_ensures(self.fallback(), (error,), view),
                            call_ensures(Fal::rebuild, (view, r), ()),
                        ]
                        {
                            &&& call_ensures(self.fallback(), (error,), view)
                            &&& old(state).shown_fallback() == Some(*r)
                            &&& final(state).shown_fallback() == Some(*final(r))
                            &&& call_ensures(Fal::rebuild, (view, r), ())
                        }
                },
                Ok(new_children) => {
                    &&& final(state).phase() == Phase::Children
                    &&& final(state).shown_fallback() is None
                    &&& exists|r: &mut Fal::State|
                        old(state).shown_fallback() == Some(*r) && #[trigger] call_ensures(
                            <Fal::State as Mountable<Rndr>>::unmount,
                            (r,),
                            (),
                        )
                    &&& exists|r: &mut T::FallibleState, node: &Rndr::Node|
                        {
                            &&& call_ensures(Rndr::node_of, (&old(state).marker(),), node)
                            &&& *r == new_children
                            &&& final(state).children() == Some(*final(r))
                            &&& #[trigger] call_ensures(
                                Rndr::mount_before::<T::FallibleState>,
                                (r, node),
                                (),
                            )
                        }
                },
            },
            old(state).phase() == Phase::Children ==> exists|
                r0: &mut T::FallibleState,
                rebuilt: Result<(), AnyError>,
            |
                {
                    &&& old(state).children() == Some(*r0)
                    &&& #[trigger] call_ensures(T::try_rebuild, (self.child(), r0), rebuilt)
                    &&& match rebuilt {
                        Ok(_) => {
                            &&& final(state).phase() == Phase::Children
                            &&& final(state).children() == Some(*final(r0))
                            &&& final(state).shown_fallback() is None
                        },
                        Err(error) => {
                &&& final(state).phase() == Phase::LaterFallback
                &&& exists|r: &mut T::FallibleState|
                    *r == *final(r0) && final(state).children() == Some(*final(r)) && #[trigger] call_ensures(
                        <T::FallibleState as Mountable<Rndr>>::unmount,
                        (r,),
                        (),
                    )
                &&& exists|view: Fal, built: Fal::State, r: &mut Fal::State, node: &Rndr::Node|
                    #![trigger
                        call_ensures(self.fallback(), (error,), view),
                        call_ensures(Fal::build, (view,), built),
                        call_ensures(Rndr::mount_before::<Fal::State>, (r, node), ()),
                    ]
                    {
                        &&& call_ensures(self.fallback(), (error,), view)
                        &&& call_ensures(Fal::build, (view,), built)
                        &&& call_ensures(Rndr::node_of, (&old(state).marker(),), node)
                        &&& *r == built
                        &&& final(state).shown_fallback() == Some(*final(r))
                        &&& call_ensures(Rndr::mount_before::<Fal::State>, (r, node), ())
                    }
            },
                    }
                },
    {
        self.rebuild(state);
        Ok(())
    }
}

impl<T, Fal, Rndr> Mountable<Rndr> for TryState<T, Fal, Rndr> where
    T: Render<Rndr>,
    Fal: Render<Rndr>,
    Rndr: Renderer,
 {
    /// What is shown leaves the tree, and then the marker: each is handed to its
    /// own `unmount`, and nothing else changes.
    fn unmount(&mut self)
        ensures
            old(self).phase() == Phase::Children ==> final(self).shown_fallback() is None && exists|
                r: &mut T::FallibleState,
            |
                {
                    &&& old(self).children() == Some(*r)
                    &&& final(self).children() == Some(*final(r))
                    &&& #[trigger] call_ensures(<T::FallibleState as Mountable<Rndr>>::unmount, (r,), ())
                },
            old(self).phase() != Phase::Children ==> final(self).children() == old(self).children()
                && exists|r: &mut Fal::State|
                {
                    &&& old(self).shown_fallback() == Some(*r)
                    &&& final(self).shown_fallback() == Some(*final(r))
                    &&& #[trigger] call_ensures(<Fal::State as Mountable<Rndr>>::unmount, (r,), ())
                },
            final(self).phase() == old(self).phase(),
            exists|r: &mut Rndr::Placeholder|
                *r == old(self).marker() && *final(r) == final(self).marker()
                    && #[trigger] call_ensures(
                    <Rndr::Placeholder as Mountable<Rndr>>::unmount,
                    (r,),
                    (),
                ),
    {
        self.inner.unmount();
        self.marker.unmount();
    }

    /// The marker enters the tree under `parent`, in front of `marker`, and then
    /// what is shown, in front of the marker's node: each is handed to its own
    /// `mount`, and nothing else changes.
    fn mount(&mut self, parent: &Rndr::Element, marker: Option<&Rndr::Node>)
        ensures
            final(self).phase() == old(self).phase(),
            exists|r: &mut Rndr::Placeholder|
                *r == old(self).marker() && *final(r) == final(self).marker()
                    && #[trigger] call_ensures(
                    <Rndr::Placeholder as Mountable<Rndr>>::mount,
                    (r, parent, marker),
                    (),
                ),
            old(self).phase() == Phase::Children ==> final(self).shown_fallback() is None && exists|
                r: &mut T::FallibleState,
                node: &Rndr::Node,
            |
                {
                    &&& call_ensures(Rndr::node_of, (&final(self).marker(),), node)
                    &&& old(self).children() == Some(*r)
                    &&& final(self).children() == Some(*final(r))
                    &&& #[trigger] call_ensures(
                        <T::FallibleState as Mountable<Rndr>>::mount,
                        (r, parent, Some(node)),
                        (),
                    )
                },
            old(self).phase() != Phase::Children ==> final(self).children() == old(self).children()
                && exists|r: &mut Fal::State, node: &Rndr::Node|
                {
                    &&& call_ensures(Rndr::node_of, (&final(self).marker(),), node)
                    &&& old(self).shown_fallback() == Some(*r)
                    &&& final(self).shown_fallback() == Some(*final(r))
                    &&& #[trigger] call_ensures(
                        <Fal::State as Mountable<Rndr>>::mount,
                        (r, parent, Some(node)),
                        (),
                    )
                },
    {
        self.marker.mount(parent, marker);
        self.inner.mount(parent, Rndr::node_of(&self.marker));
    }
}

impl<T, Fal, Rndr> Anchor<Rndr> for TryState<T, Fal, Rndr> where
    T: Render<Rndr>,
    Fal: Render<Rndr>,
    Rndr: Renderer,
 {
    /// As `insert_before_shown`, which it calls and which says what is done.
    fn insert_before_this<M: Mountable<Rndr>>(&self, parent: &Rndr::Element, child: &mut M) -> bool {
        self.insert_before_shown(parent, child)
    }
}

/// Builds a view that may have failed before it came to be built: the view is
/// built where there is one, and the error is passed on where there is none.
pub fn try_build_result<R: Renderer, T: Render<R>>(view: Result<T, AnyError>) -> (outcome: Result<
    T::State,
    AnyError,
>)
    ensures
        match view {
            Ok(inner) => outcome matches Ok(state) && call_ensures(T::build, (inner,), state),
            Err(error) => outcome == Err::<T::State, AnyError>(error),
        },
{
    match view {
        Ok(inner) => Ok(inner.build()),
        Err(error) => Err(error),
    }
}

/// Rebuilds a view that may have failed before it came to be rebuilt: `state`
/// is handed to `rebuild` of the view where there is one; where there is none,
/// the error is passed on and `state` is left as it is.
pub fn try_rebuild_result<R: Renderer, T: Render<R>>(
    view: Result<T, AnyError>,
    state: &mut T::State,
) -> (outcome: Result<(), AnyError>)
    ensures
        match view {
            Ok(inner) => outcome is Ok && exists|r: &mut T::State|
                *r == *old(state) && *final(r) == *final(state) && #[trigger] call_ensures(
                    T::rebuild,
                    (inner, r),
                    (),
                ),
            Err(error) => outcome == Err::<(), AnyError>(error) && *final(state) == *old(state),
        },
{
    match view {
        Ok(inner) => {
            inner.rebuild(state);
            Ok(())
        },
        Err(error) => Err(error),
    }
}

/// Views that can be given a fallback for the case that they fail.
pub trait TryCatchBoundary<Fal, FalFn, Rndr> where
    Self: Sized + Render<Rndr>,
    Fal: Render<Rndr>,
    FalFn: FnMut(AnyError) -> Fal,
    Rndr: Renderer,
 {
    /// The boundary that shows `self` and falls back on `fallback`.
    fn catch(self, fallback: FalFn) -> (boundary: Try<Self, Fal, FalFn, Rndr>)
        requires
            catches_everything(fallback),
        ensures
            boundary.child() == self,
            boundary.fallback() == fallback,
    ;
}

impl<T, Fal, FalFn, Rndr> TryCatchBoundary<Fal, FalFn, Rndr> for T where
    T: Sized + Render<Rndr>,
    Fal: Render<Rndr>,
    FalFn: FnMut(AnyError) -> Fal,
    Rndr: Renderer,
 {
    fn catch(self, fallback: FalFn) -> (boundary: Try<Self, Fal, FalFn, Rndr>) {
        Try::new(fallback, self)
    }
}

} // verus!
