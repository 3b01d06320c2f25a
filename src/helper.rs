use crate::escape::{escape, frame, lemma_escape_push, lemma_unframe_len, lift, unframe};
use crate::interface::{DecodeError, VariableSizeEmbedding};
use std::marker::PhantomData;
use vstd::prelude::*;

verus! {

/// Builds an embedding of `T` from fields pushed one after another.
#[derive(Debug)]
pub struct VariableSizeEmbeddingEncoder<T> {
    data: Vec<u8>,
    _type: PhantomData<T>,
}

impl<T> View for VariableSizeEmbeddingEncoder<T> {
    type V = Seq<u8>;

    /// The bytes written so far.
    closed spec fn view(&self) -> Seq<u8> {
        self.data@
    }
}

impl<T> Default for VariableSizeEmbeddingEncoder<T> {
    fn default() -> (r: Self)
        ensures
            r@ == Seq::<u8>::empty(),
    {
        VariableSizeEmbeddingEncoder { data: Vec::new(), _type: PhantomData }
    }
}

impl<T> VariableSizeEmbeddingEncoder<T> {
    /// Appends one field: the escaped bytes of `data`, then the terminator.
    pub fn push_variable<S>(&mut self, data: VariableSizeEmbedding<S>)
        ensures
            final(self)@ == old(self)@ + frame(data@),
    {
        let bytes = data.data();
        let mut i: usize = 0;
        while i < bytes.len()
            invariant
                i <= bytes@.len(),
                bytes@ == data@,
                self@ == old(self)@ + escape(bytes@.take(i as int)),
            decreases bytes@.len() - i,
        {
            let x = bytes[i];
            if x == 0 {
                self.data.push(0);
                self.data.push(1);
            } else {
                self.data.push(x);
            }
            proof {
                lemma_escape_push(bytes@.take(i as int), x);
                assert(bytes@.take(i + 1) =~= bytes@.take(i as int).push(x));
            }
            i += 1;
        }
        self.data.push(0);
        self.data.push(0);
        proof {
            assert(bytes@.take(i as int) =~= data@);
        }
    }

    /// The embedding made of the fields pushed so far.
    pub fn finalize(self) -> (r: VariableSizeEmbedding<T>)
        ensures
            r@ == self@,
    {
        VariableSizeEmbedding::new(self.data)
    }
}

/// Reads the fields of an embedding of `T` back, in the order they were pushed.
#[derive(Debug)]
pub struct VariableSizeEmbeddingDecoder<T> {
    data: Vec<u8>,
    pos: usize,
    _type: PhantomData<T>,
}

impl<T> View for VariableSizeEmbeddingDecoder<T> {
    type V = Seq<u8>;

    /// The bytes not read yet.
    closed spec fn view(&self) -> Seq<u8> {
        self.data@.subrange(self.pos as int, self.data@.len() as int)
    }
}

impl<T> VariableSizeEmbeddingDecoder<T> {
    pub closed spec fn wf(&self) -> bool {
        self.pos <= self.data@.len()
    }

    pub fn new(data: VariableSizeEmbedding<T>) -> (r: Self)
        ensures
            r.wf(),
            r@ == data@,
    {
        let data = data.into_data();
        let r = VariableSizeEmbeddingDecoder { data, pos: 0, _type: PhantomData };
        assert(r@ =~= r.data@);
        r
    }

    fn read_byte(&mut self) -> (r: Result<u8, DecodeError>)
        requires
            old(self).wf(),
        ensures
            final(self).wf(),
            final(self).data == old(self).data,
            old(self)@.len() == 0 ==> r == Err::<u8, DecodeError>(DecodeError::UnexpectedEndOfInput)
                && final(self).pos == old(self).pos,
            old(self)@.len() > 0 ==> r == Ok::<u8, DecodeError>(old(self)@[0]) && final(self).pos
                == old(self).pos + 1,
    {
        if self.pos < self.data.len() {
            let b = self.data[self.pos];
            self.pos = self.pos + 1;
            Ok(b)
        } else {
            Err(DecodeError::UnexpectedEndOfInput)
        }
    }

    /// Reads the next field and returns its payload, unescaped.
    pub fn read_variable<S>(&mut self) -> (r: Result<VariableSizeEmbedding<S>, DecodeError>)
        requires
            old(self).wf(),
        ensures
            final(self).wf(),
            match unframe(old(self)@) {
                Ok((p, n)) => r is Ok && r->Ok_0@ == p && n <= old(self)@.len() && final(self)@ == old(self)@.subrange(
                    n as int,
                    old(self)@.len() as int,
                ),
                Err(e) => r == Err::<VariableSizeEmbedding<S>, DecodeError>(e),
            },
    {
        let ghost s0 = self@;
        let ghost pos0 = self.pos;
        proof {
            lemma_unframe_len(s0);
        }
        let mut out: Vec<u8> = Vec::new();
        loop
            invariant
                self.wf(),
                self.data == old(self).data,
                s0 == old(self)@,
                pos0 == old(self).pos,
                pos0 <= self.pos,
                lift(unframe(self@), out@, (self.pos - pos0) as nat) == unframe(s0),
            decreases self.data@.len() - self.pos,
        {
            let ghost cur = self@;
            let ghost k = (self.pos - pos0) as nat;
            let ghost out0 = out@;
            let next = match self.read_byte() {
                Ok(b) => b,
                Err(e) => {
                    return Err(e);
                },
            };
            if next == 0 {
                let second = match self.read_byte() {
                    Ok(b) => b,
                    Err(e) => {
                        return Err(e);
                    },
                };
                if second == 0 {
                    proof {
                        assert(out@ + seq![] =~= out@);
                        assert(self@ =~= s0.subrange(k + 2int, s0.len() as int));
                    }
                    return Ok(VariableSizeEmbedding::new(out));
                } else if second == 1 {
                    out.push(0);
                    proof {
                        lemma_lift_lift(unframe(self@), seq![0u8], 2, out0, k);
                        assert(self@ =~= cur.subrange(2, cur.len() as int));
                        assert(out0 + seq![0u8] =~= out@);
                    }
                } else {
                    return Err(DecodeError::InvalidEscapeSequence);
                }
            } else {
                out.push(next);
                proof {
                    lemma_lift_lift(unframe(self@), seq![next], 1, out0, k);
                    assert(self@ =~= cur.drop_first());
                    assert(out0 + seq![next] =~= out@);
                }
            }
        }
    }

    /// Succeeds only when every byte has been read.
    pub fn finalize(self) -> (r: Result<(), DecodeError>)
        requires
            self.wf(),
        ensures
            r == if self@.len() == 0 {
                Ok::<(), DecodeError>(())
            } else {
                Err(DecodeError::TrailingData)
            },
    {
        if self.pos == self.data.len() {
            Ok(())
        } else {
            Err(DecodeError::TrailingData)
        }
    }
}

proof fn lemma_lift_lift(
    r: Result<(Seq<u8>, nat), DecodeError>,
    f1: Seq<u8>,
    k1: nat,
    f0: Seq<u8>,
    k0: nat,
)
    ensures
        lift(lift(r, f1, k1), f0, k0) == lift(r, f0 + f1, k0 + k1),
{
    if let Ok((p, n)) = r {
        assert(f0 + (f1 + p) =~= (f0 + f1) + p);
    }
}

} // verus!
