//! Content that has to be loaded before it can be shown.

use std::marker::PhantomData;

use vstd::prelude::*;

verus! {

/// Something that is being loaded: a result that is there at some time, and can be taken once it
/// is.
pub trait Loadable<C, E> {
    /// Whether the result may be asked for.
    spec fn valid(&self) -> bool;

    /// Whether the result is there.
    spec fn is_ready(&self) -> bool;

    /// Whether `result` may come out.
    spec fn yields(&self, result: Result<C, E>) -> bool;

    /// Looks whether the result is there. One that is there stays there.
    fn ready(&mut self) -> (there: bool)
        requires
            old(self).valid(),
        ensures
            final(self).valid(),
            there == final(self).is_ready(),
            old(self).is_ready() ==> there,
            forall|result: Result<C, E>| #[trigger]
                final(self).yields(result) ==> old(self).yields(result),
    ;

    /// Takes the result.
    fn take(&mut self) -> (result: Result<C, E>)
        requires
            old(self).valid(),
            old(self).is_ready(),
        ensures
            old(self).yields(result),
    ;
}

/// Content in the course of being loaded: it was not asked for yet, it is loading, or there is a
/// result.
pub enum Lce<L, C, E> {
    Waiting,
    Loading(L),
    Content(C),
    Error(E),
}

/// Content whose loader can be of any type.
pub type DynamicLce<C, E> = Lce<Box<dyn Loadable<C, E>>, C, E>;

impl<C, E> Loadable<C, E> for Box<dyn Loadable<C, E>> {
    open spec fn valid(&self) -> bool {
        (**self).valid()
    }

    open spec fn is_ready(&self) -> bool {
        (**self).is_ready()
    }

    open spec fn yields(&self, result: Result<C, E>) -> bool {
        (**self).yields(result)
    }

    fn ready(&mut self) -> (there: bool) {
        (**self).ready()
    }

    fn take(&mut self) -> (result: Result<C, E>) {
        (**self).take()
    }
}

impl<L, C, E> Default for Lce<L, C, E> {
    fn default() -> (lce: Self)
        ensures
            lce is Waiting,
    {
        Lce::Waiting
    }
}

/// A [`Loadable`] whose result is converted when it is taken.
pub struct MappedLoadable<F, L, C, E, Co, Eo>(L, F, PhantomData<(C, E, Co, Eo)>);

impl<F, L, C, E, Co, Eo> MappedLoadable<F, L, C, E, Co, Eo> {
    /// What is being loaded.
    pub closed spec fn loader(&self) -> L {
        self.0
    }

    /// What the result is converted with.
    pub closed spec fn convert(&self) -> F {
        self.1
    }
}

impl<F, L, C, E, Co, Eo> Loadable<Co, Eo> for MappedLoadable<F, L, C, E, Co, Eo> where
    L: Loadable<C, E>,
    F: FnMut(Result<C, E>) -> Result<Co, Eo>,
 {
    open spec fn valid(&self) -> bool {
        &&& self.loader().valid()
        &&& forall|result: Result<C, E>| #[trigger]
            self.loader().yields(result) ==> call_requires(self.convert(), (result,))
    }

    open spec fn is_ready(&self) -> bool {
        self.loader().is_ready()
    }

    open spec fn yields(&self, result: Result<Co, Eo>) -> bool {
        exists|loaded: Result<C, E>| #[trigger]
            self.loader().yields(loaded) && call_ensures(self.convert(), (loaded,), result)
    }

    fn take(&mut self) -> (result: Result<Co, Eo>) {
        let loaded = self.0.take();
        (self.1)(loaded)
    }

    fn ready(&mut self) -> (there: bool) {
        self.0.ready()
    }
}

/// What can be done with everything that is loadable.
pub trait LoadableExt<C, E>: Sized {
    /// Converts the result with `convert` when it is taken.
    fn map_res<F, Co, Eo>(self, convert: F) -> (mapped: MappedLoadable<F, Self, C, E, Co, Eo>) where
        F: FnMut(Result<C, E>) -> Result<Co, Eo>,

        ensures
            mapped.loader() == self,
            mapped.convert() == convert,
    ;
}

impl<L, C, E> LoadableExt<C, E> for L where L: Loadable<C, E> {
    fn map_res<F, Co, Eo>(self, convert: F) -> (mapped: MappedLoadable<F, Self, C, E, Co, Eo>) where
        F: FnMut(Result<C, E>) -> Result<Co, Eo>,
     {
        MappedLoadable(self, convert, PhantomData)
    }
}

/// A loader behind a box.
struct Boxed<L>(L);

impl<L, C, E> Loadable<C, E> for Boxed<L> where L: Loadable<C, E> {
    closed spec fn valid(&self) -> bool {
        self.0.valid()
    }

    closed spec fn is_ready(&self) -> bool {
        self.0.is_ready()
    }

    closed spec fn yields(&self, result: Result<C, E>) -> bool {
        self.0.yields(result)
    }

    fn ready(&mut self) -> (there: bool) {
        self.0.ready()
    }

    fn take(&mut self) -> (result: Result<C, E>) {
        self.0.take()
    }
}

impl<L, C, E> Lce<L, C, E> {
    /// The state that a result leads to.
    pub fn settled(result: Result<C, E>) -> (lce: Self)
        ensures
            match result {
                Ok(content) => lce == Lce::<L, C, E>::Content(content),
                Err(error) => lce == Lce::<L, C, E>::Error(error),
            },
    {
        match result {
            Ok(content) => Lce::Content(content),
            Err(error) => Lce::Error(error),
        }
    }
}

impl<L, C, E> Lce<L, C, E> where L: Loadable<C, E> {
    /// Whether the loader, if there is one, may be asked for its result.
    pub open spec fn valid(&self) -> bool {
        self matches Lce::Loading(loading) ==> loading.valid()
    }

    /// Whether there is a loader whose result is there.
    pub open spec fn is_ready(&self) -> bool {
        self matches Lce::Loading(loading) && loading.is_ready()
    }

    /// Whether there is a loader that `result` may come out of.
    pub open spec fn yields(&self, result: Result<C, E>) -> bool {
        self matches Lce::Loading(loading) && loading.yields(result)
    }

    /// Whether `after` is what this state moves on to: only a loader moves on, to its result once
    /// it is there.
    pub open spec fn moves_on(&self, after: Self) -> bool {
        match *self {
            Lce::Loading(_) => match after {
                Lce::Waiting => false,
                Lce::Loading(later) => {
                    &&& !self.is_ready()
                    &&& forall|result: Result<C, E>| #[trigger]
                        later.yields(result) ==> self.yields(result)
                },
                Lce::Content(content) => self.yields(Ok(content)),
                Lce::Error(error) => self.yields(Err(error)),
            },
            _ => after == *self,
        }
    }

    /// Moves on to the result once it is there.
    pub fn process(&mut self)
        requires
            old(self).valid(),
        ensures
            final(self).valid(),
            !final(self).is_ready(),
            old(self).moves_on(*final(self)),
    {
        let mut current: Lce<L, C, E> = Lce::Waiting;
        std::mem::swap(self, &mut current);
        match current {
            Lce::Loading(mut loading) => {
                if loading.ready() {
                    *self = Lce::settled(loading.take());
                } else {
                    *self = Lce::Loading(loading);
                }
            },
            it => {
                *self = it;
            },
        }
    }

    /// The same state, with a loader whose type does not show.
    pub fn to_dyn_lce(self) -> (lce: DynamicLce<C, E>) where L: 'static
        ensures
            self is Waiting ==> lce is Waiting,
            self matches Lce::Content(content) ==> lce == DynamicLce::<C, E>::Content(content),
            self matches Lce::Error(error) ==> lce == DynamicLce::<C, E>::Error(error),
            self is Loading ==> lce is Loading,
            lce.valid() == self.valid(),
            lce.is_ready() == self.is_ready(),
            forall|result: Result<C, E>| #[trigger] lce.yields(result) == self.yields(result),
    {
        match self {
            Lce::Waiting => Lce::Waiting,
            Lce::Loading(loading) => Lce::Loading(Box::new(Boxed(loading))),
            Lce::Content(content) => Lce::Content(content),
            Lce::Error(error) => Lce::Error(error),
        }
    }
}

/// However often content is processed: what is not loading stays as it is, and what is loading does
/// not go back to waiting. There is at most one step in which a loader gives its result.
pub proof fn law_result_stays<L: Loadable<C, E>, C, E>(states: Seq<Lce<L, C, E>>, from: int, to: int)
    requires
        forall|i: int, j: int|
            0 <= i && j == i + 1 && j < states.len() ==> (#[trigger] states[i]).moves_on(
                #[trigger] states[j],
            ),
        0 <= from <= to < states.len(),
    ensures
        !(states[from] is Loading) ==> states[to] == states[from],
        states[from] is Loading ==> !(states[to] is Waiting),
        from + 1 <= to && states[from] is Loading && !(states[from + 1] is Loading) ==> !(
        states[to] is Loading),
    decreases to - from,
{
    if from < to {
        law_result_stays(states, from + 1, to);
        assert(states[from].moves_on(states[from + 1]));
    }
}

/// A loader moves on to a result that may come out of it, and to no other; it moves on if its result
/// is there, and as long as it is loading nothing else may come out of it than before.
pub proof fn law_result_comes_from_the_loader<L: Loadable<C, E>, C, E>(
    loading: L,
    after: Lce<L, C, E>,
)
    requires
        Lce::<L, C, E>::Loading(loading).moves_on(after),
    ensures
        !(after is Waiting),
        loading.is_ready() ==> !(after is Loading),
        after matches Lce::Content(content) ==> loading.yields(Ok(content)),
        after matches Lce::Error(error) ==> loading.yields(Err(error)),
        after matches Lce::Loading(later) ==> forall|result: Result<C, E>| #[trigger]
            later.yields(result) ==> loading.yields(result),
{
    if let Lce::Loading(later) = after {
        assert forall|result: Result<C, E>| #[trigger] later.yields(result) implies loading.yields(
            result,
        ) by {
            assert(Lce::<L, C, E>::Loading(loading).yields(result));
        }
    }
}

/// What is known of content that is loading is what is known of its loader; nothing comes out of
/// anything else.
pub proof fn law_loading_is_up_to_the_loader<L: Loadable<C, E>, C, E>(
    lce: Lce<L, C, E>,
    result: Result<C, E>,
)
    ensures
        match lce {
            Lce::Loading(loading) => {
                &&& lce.valid() == loading.valid()
                &&& lce.is_ready() == loading.is_ready()
                &&& lce.yields(result) == loading.yields(result)
            },
            _ => lce.valid() && !lce.is_ready() && !lce.yields(result),
        },
{
}

/// What comes out of a mapped loader is what the conversion makes of something that may come out of
/// the loader. It is ready when the loader is.
pub proof fn law_mapped_result_is_converted<
    F: FnMut(Result<C, E>) -> Result<Co, Eo>,
    L: Loadable<C, E>,
    C,
    E,
    Co,
    Eo,
>(mapped: MappedLoadable<F, L, C, E, Co, Eo>, result: Result<Co, Eo>)
    ensures
        mapped.is_ready() == mapped.loader().is_ready(),
        mapped.yields(result) ==> exists|loaded: Result<C, E>| #[trigger]
            mapped.loader().yields(loaded) && call_ensures(mapped.convert(), (loaded,), result),
        forall|loaded: Result<C, E>| #[trigger]
            mapped.loader().yields(loaded) && call_ensures(mapped.convert(), (loaded,), result)
                ==> mapped.yields(result),
{
}

} // verus!
