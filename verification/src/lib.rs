//! Monads in the style of OCaml and MTL, written as traits: a type `M` is a
//! monad through `Monad<T>` (what a computation of a `T` is, and how to return
//! a value) and `MonadBind<A, B>` (how to chain a computation of an `A` with a
//! continuation that builds a computation of a `B`).
//!
//! Every computation comes with a meaning that the contracts speak of, and
//! the laws of each monad are proved over those meanings.
pub mod bind;
pub mod control;
pub mod identity;
pub mod reader;
pub mod reader_owned;
pub mod reader_writer;
pub mod state;
pub mod writer;
