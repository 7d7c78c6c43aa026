//! Layered error values.
//!
//! An [`Error<E, P>`] carries one layer's error value `E` together with an
//! optional cause of type `P` (usually an earlier `Error`), forming a linear
//! cause chain of unbounded depth in which no layer's information is lost.
//! [`Initial`] is the uninhabited cause of an innermost error.

use vstd::prelude::*;

verus! {

/// Adds an outer context layer to an error (or to the error of a `Result`).
pub trait WithContext<E>: Sized {
    type Output;

    fn with_context(self, err: E) -> Self::Output;
}

#[derive(Debug, Clone, PartialEq, Eq)]
pub struct Error<E, P = Initial> {
    pub err: E,
    pub cause: Option<P>,
}

/// The cause type of an innermost error: a unit stand-in for a cause that
/// never exists (Verus refuses uninhabited enums). Every `Error<E, Initial>`
/// built by this module has `cause == None`, and nothing else builds one.
#[derive(Debug, Clone, Copy, PartialEq, Eq, Structural, Hash)]
pub struct Initial;

impl<E> Error<E, Initial> {
    /// An innermost error: no cause below it.
    pub fn initial(err: E) -> (r: Self)
        ensures
            r.err == err,
            r.cause is None,
    {
        Error { err, cause: None }
    }
}

impl<E, P> Error<E, P> {
    /// An error without a cause.
    pub fn new(err: E) -> (r: Self)
        ensures
            r.err == err,
            r.cause is None,
    {
        Error { err, cause: None }
    }

    /// Wraps this error as the cause of a new outer error.
    pub fn with_context<T>(self, err: T) -> (r: Error<T, Self>)
        ensures
            r.err == err,
            r.cause == Some(self),
    {
        Error { err, cause: Some(self) }
    }

    /// This layer's own error value.
    pub fn err(&self) -> (r: &E)
        ensures
            *r == self.err,
    {
        &self.err
    }

    /// The next layer down the cause chain, if any.
    pub fn cause(&self) -> (r: Option<&P>)
        ensures
            match r {
                Some(c) => self.cause == Some(*c),
                None => self.cause is None,
            },
    {
        self.cause.as_ref()
    }
}

impl<N, E, P> WithContext<N> for Error<E, P> {
    type Output = Error<N, Error<E, P>>;

    fn with_context(self, err: N) -> (r: Self::Output)
        ensures
            r.err == err,
            r.cause == Some(self),
    {
        Error { err, cause: Some(self) }
    }
}

impl<T, N, E, P> WithContext<N> for Result<T, Error<E, P>> {
    type Output = Result<T, Error<N, Error<E, P>>>;

    fn with_context(self, err: N) -> (r: Self::Output)
        ensures
            self matches Ok(v) ==> r == Ok::<T, Error<N, Error<E, P>>>(v),
            self matches Err(c) ==> r == Err::<T, Error<N, Error<E, P>>>(
                Error { err, cause: Some(c) },
            ),
    {
        match self {
            Ok(value) => Ok(value),
            Err(cause) => Err(Error { err, cause: Some(cause) }),
        }
    }
}

impl<E, P> From<E> for Error<E, P> {
    fn from(err: E) -> (r: Self) {
        Error { err, cause: None }
    }
}

impl<E, P> vstd::std_specs::convert::FromSpecImpl<E> for Error<E, P> {
    open spec fn obeys_from_spec() -> bool {
        true
    }

    open spec fn from_spec(err: E) -> Self {
        Error { err, cause: None }
    }
}

} // verus!
