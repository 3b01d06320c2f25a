use std::marker::PhantomData;
use vstd::prelude::*;

verus! {

/// Marks the embedding types; only this library implements it.
pub trait Sealed {}

impl<T, const N: usize> Sealed for FixedSizeEmbedding<T, N> {}

/// A type with a fixed-width embedding; `T` is that embedding's type.
pub trait FixedSize {
    type T: Sealed;
}

/// A type with a variable-width embedding. Inside a composite, a value of the
/// type stands as one field, whose payload is `field_payload`.
pub trait VariableSize: Sized {
    /// The payload of `v` as a field.
    spec fn field_payload(v: &Self) -> Seq<u8>;

    /// Why `p` is the field payload of no value, if it is not one.
    spec fn payload_error(p: Seq<u8>) -> Option<DecodeError>;

    fn to_field_payload(&self) -> (r: Vec<u8>)
        ensures
            r@ == Self::field_payload(self),
    ;

    fn from_field_payload(p: Vec<u8>) -> (r: Result<Self, DecodeError>)
        ensures
            match Self::payload_error(p@) {
                Some(e) => r == Err::<Self, DecodeError>(e),
                None => r is Ok && Self::field_payload(&r->Ok_0) == p@,
            },
    ;

    /// The payload of every value reads back.
    proof fn lemma_payload_reads_back(v: &Self)
        ensures
            Self::payload_error(Self::field_payload(v)) is None,
    ;
}

/// Why a byte string could not be decoded.
#[derive(Debug, Clone, Copy, PartialEq, Eq, Structural)]
pub enum DecodeError {
    /// A zero byte was followed by a byte other than `0x00` or `0x01`.
    InvalidEscapeSequence,
    /// The input ended before a field was complete.
    UnexpectedEndOfInput,
    /// Bytes were left over after the last expected field.
    TrailingData,
    /// The bytes stand for no value of the target type.
    InvalidScalarValue,
}

/// Exactly `N` bytes standing for a value of type `T`.
#[derive(Debug, Hash, PartialEq, Eq, PartialOrd, Ord)]
pub struct FixedSizeEmbedding<T, const N: usize> {
    data: [u8; N],
    _type: PhantomData<T>,
}

impl<T, const N: usize> View for FixedSizeEmbedding<T, N> {
    type V = Seq<u8>;

    closed spec fn view(&self) -> Seq<u8> {
        self.data@
    }
}

impl<T, const N: usize> FixedSizeEmbedding<T, N> {
    /// The embedding has exactly `N` bytes.
    pub broadcast proof fn lemma_len(&self)
        ensures
            #[trigger] self@.len() == N,
    {
    }

    pub fn new(data: [u8; N]) -> (r: Self)
        ensures
            r@ == data@,
    {
        FixedSizeEmbedding { data, _type: PhantomData }
    }

    pub fn data(&self) -> (r: &[u8; N])
        ensures
            r@ == self@,
    {
        &self.data
    }

    pub fn into_data(&self) -> (r: [u8; N])
        ensures
            r@ == self@,
    {
        self.data
    }
}

impl<T, const N: usize> Clone for FixedSizeEmbedding<T, N> {
    fn clone(&self) -> (r: Self)
        ensures
            r@ == self@,
    {
        FixedSizeEmbedding::new(self.data)
    }
}

/// A byte string of any length standing for a value of type `T`.
#[derive(Debug, Hash, PartialEq, Eq, PartialOrd, Ord)]
pub struct VariableSizeEmbedding<T> {
    data: Vec<u8>,
    _type: PhantomData<T>,
}

impl<T> View for VariableSizeEmbedding<T> {
    type V = Seq<u8>;

    closed spec fn view(&self) -> Seq<u8> {
        self.data@
    }
}

impl<T> VariableSizeEmbedding<T> {
    pub fn new(data: Vec<u8>) -> (r: Self)
        ensures
            r@ == data@,
    {
        VariableSizeEmbedding { data, _type: PhantomData }
    }

    pub fn data(&self) -> (r: &[u8])
        ensures
            r@ == self@,
    {
        self.data.as_slice()
    }

    pub fn into_data(self) -> (r: Vec<u8>)
        ensures
            r@ == self@,
    {
        self.data
    }
}

impl<T> Clone for VariableSizeEmbedding<T> {
    fn clone(&self) -> (r: Self)
        ensures
            r@ == self@,
    {
        VariableSizeEmbedding::new(self.data.clone())
    }
}

} // verus!
