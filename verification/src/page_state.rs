//! The tri-state model of one slot of a hierarchical paging tree.

use vstd::prelude::*;

verus! {

/// A hierarchical paging is composed of entries. An entry can be in the
/// following states:
///
/// - `Available`, aka unused;
/// - `Guarded`, which is reserved and will cause a pagefault on use;
/// - `Present`, which is used and has a backing physical address.
///
/// `PageState` is generic over various kinds of `Present` states, similar to
/// the `Option` type: at leaf level the payload is a physical address, at
/// parent levels it stands for a child table.
#[derive(Debug, Clone, Copy, PartialEq, Eq, Structural)]
pub enum PageState<T> {
    Available,
    Guarded,
    Present(T),
}

impl<T> PageState<T> {
    /// Move the value `T` out of the `PageState<T>`.
    ///
    /// The caller must know the state is `Present`; asking for the value of
    /// an `Available` or `Guarded` slot is a bookkeeping error.
    pub fn unwrap(self) -> (t: T)
        requires
            self is Present,
        ensures
            self == PageState::Present(t),
    {
        match self {
            PageState::Present(t) => t,
            _ => vstd::pervasive::unreached(),
        }
    }

    /// Maps a `PageState<T>` to `PageState<U>` by applying a function to a
    /// contained value.
    pub fn map<U, F: FnOnce(T) -> U>(self, f: F) -> (r: PageState<U>)
        requires
            self matches PageState::Present(t) ==> call_requires(f, (t,)),
        ensures
            self is Available ==> r is Available,
            self is Guarded ==> r is Guarded,
            self matches PageState::Present(t) ==> r matches PageState::Present(u)
                && call_ensures(f, (t,), u),
    {
        match self {
            PageState::Present(t) => PageState::Present(f(t)),
            PageState::Guarded => PageState::Guarded,
            PageState::Available => PageState::Available,
        }
    }

    /// Turns the `PageState` into an `Option`, sending both `Guarded` and
    /// `Available` to `None`, and `Present(t)` to `Some(t)`.
    pub fn as_option(&self) -> (r: Option<&T>)
        ensures
            (match *self {
                PageState::Present(t) => r matches Some(u) && *u == t,
                _ => r is None,
            }),
    {
        match self {
            PageState::Present(t) => Some(t),
            PageState::Guarded => None,
            PageState::Available => None,
        }
    }
}

} // verus!
