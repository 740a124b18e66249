//! The vocabulary of session types: markers that describe, at the type
//! level, the protocol a channel follows, and the duality between the two
//! ends of a channel.
use std::marker::PhantomData;
use vstd::prelude::*;

verus! {

/// A buffer of bytes carried by a packet.
pub type Buffer = Vec<u8>;

/// A buffer with its sequence number: its index in the list of buffers that
/// the sender wants to send.
pub struct Packet {
    pub buf: Buffer,
    pub seqno: usize,
}

/// Send a `T`, then continue as `S`.
pub struct Send<T, S>(PhantomData<(T, S)>);

/// Receive a `T`, then continue as `S`.
pub struct Recv<T, S>(PhantomData<(T, S)>);

/// Let the other side choose between `Left` and `Right`.
pub struct Offer<Left, Right>(PhantomData<(Left, Right)>);

/// Choose between `Left` and `Right`.
pub struct Choose<Left, Right>(PhantomData<(Left, Right)>);

/// End of the protocol.
pub struct Close;

/// A recursion point: `S` may jump back here.
pub struct Rec<S>(PhantomData<S>);

/// Peano zero.
pub struct Z;

/// Peano successor.
pub struct S<N>(PhantomData<N>);

/// A jump back to the recursion point with de Bruijn index `N`.
pub struct Var<N>(PhantomData<N>);

/// The outcome of an offer: the branch the other side chose.
pub enum Branch<L, R> {
    Left(L),
    Right(R),
}

/// The protocol seen from the other end of the channel.
pub trait HasDual {
    type Dual;
}

impl HasDual for Close {
    type Dual = Close;
}

impl<T, S: HasDual> HasDual for Send<T, S> {
    type Dual = Recv<T, S::Dual>;
}

impl<T, S: HasDual> HasDual for Recv<T, S> {
    type Dual = Send<T, S::Dual>;
}

impl<Left: HasDual, Right: HasDual> HasDual for Choose<Left, Right> {
    type Dual = Offer<Left::Dual, Right::Dual>;
}

impl<Left: HasDual, Right: HasDual> HasDual for Offer<Left, Right> {
    type Dual = Choose<Left::Dual, Right::Dual>;
}

impl<N> HasDual for Var<N> {
    type Dual = Var<N>;
}

impl<N> HasDual for S<N> {
    type Dual = S<N>;
}

impl HasDual for Z {
    type Dual = Z;
}

impl<S: HasDual> HasDual for Rec<S> {
    type Dual = Rec<S::Dual>;
}

} // verus!
