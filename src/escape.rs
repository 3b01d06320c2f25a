use crate::interface::DecodeError;
use crate::order::{lex_lt, lemma_lex_common_prefix};
use vstd::prelude::*;

verus! {

/// How one payload byte is written: a zero becomes `00 01`, any other byte stays.
pub open spec fn escape_byte(b: u8) -> Seq<u8> {
    if b == 0 {
        seq![0u8, 1u8]
    } else {
        seq![b]
    }
}

/// A payload with each byte escaped.
pub open spec fn escape(p: Seq<u8>) -> Seq<u8>
    decreases p.len(),
{
    if p.len() == 0 {
        seq![]
    } else {
        escape_byte(p[0]) + escape(p.drop_first())
    }
}

/// One field as it stands in a buffer: the escaped payload, then the terminator `00 00`.
pub open spec fn frame(p: Seq<u8>) -> Seq<u8> {
    escape(p) + seq![0u8, 0u8]
}

/// Reads one field from the front of `s`: its payload and the number of bytes
/// it took, or why no field could be read.
pub open spec fn unframe(s: Seq<u8>) -> Result<(Seq<u8>, nat), DecodeError>
    decreases s.len(),
{
    if s.len() == 0 {
        Err(DecodeError::UnexpectedEndOfInput)
    } else if s[0] != 0 {
        lift(unframe(s.drop_first()), seq![s[0]], 1)
    } else if s.len() == 1 {
        Err(DecodeError::UnexpectedEndOfInput)
    } else if s[1] == 0 {
        Ok((seq![], 2))
    } else if s[1] == 1 {
        lift(unframe(s.subrange(2, s.len() as int)), seq![0u8], 2)
    } else {
        Err(DecodeError::InvalidEscapeSequence)
    }
}

/// A read result with `front` put before its payload and `k` bytes added to its count.
pub open spec fn lift(r: Result<(Seq<u8>, nat), DecodeError>, front: Seq<u8>, k: nat) -> Result<
    (Seq<u8>, nat),
    DecodeError,
> {
    match r {
        Ok((p, n)) => Ok((front + p, n + k)),
        Err(e) => Err(e),
    }
}

/// Read from the front, every zero byte opens a pair `00 01` (an escaped
/// zero) or `00 00` (a terminator): no zero is followed by another byte value
/// or stands last on its own.
pub open spec fn well_escaped(s: Seq<u8>) -> bool
    decreases s.len(),
{
    if s.len() == 0 {
        true
    } else if s[0] != 0 {
        well_escaped(s.drop_first())
    } else {
        s.len() >= 2 && (s[1] == 0 || s[1] == 1) && well_escaped(s.subrange(2, s.len() as int))
    }
}

pub proof fn lemma_well_escaped_append(a: Seq<u8>, b: Seq<u8>)
    requires
        well_escaped(a),
        well_escaped(b),
    ensures
        well_escaped(a + b),
    decreases a.len(),
{
    if a.len() == 0 {
        assert(a + b =~= b);
    } else if a[0] != 0 {
        lemma_well_escaped_append(a.drop_first(), b);
        assert((a + b).drop_first() =~= a.drop_first() + b);
    } else {
        let a2 = a.subrange(2, a.len() as int);
        lemma_well_escaped_append(a2, b);
        assert((a + b).subrange(2, (a + b).len() as int) =~= a2 + b);
    }
}

/// A field that was read took no more bytes than there were.
pub proof fn lemma_unframe_len(s: Seq<u8>)
    ensures
        unframe(s) is Ok ==> 2 <= unframe(s)->Ok_0.1 <= s.len(),
    decreases s.len(),
{
    if s.len() > 0 {
        if s[0] != 0 {
            lemma_unframe_len(s.drop_first());
        } else if s.len() >= 2 && s[1] == 1 {
            lemma_unframe_len(s.subrange(2, s.len() as int));
        }
    }
}

/// A field that was read is the framed form of its payload.
pub proof fn lemma_unframe_prefix(s: Seq<u8>)
    ensures
        unframe(s) is Ok ==> s.take(unframe(s)->Ok_0.1 as int) == frame(unframe(s)->Ok_0.0),
    decreases s.len(),
{
    if s.len() > 0 {
        if s[0] != 0 {
            let t = s.drop_first();
            lemma_unframe_prefix(t);
            lemma_unframe_len(t);
            if unframe(t) is Ok {
                let (p, n) = unframe(t)->Ok_0;
                assert(frame(seq![s[0]] + p) =~= escape_byte(s[0]) + frame(p)) by {
                    assert((seq![s[0]] + p).drop_first() =~= p);
                }
                assert(s.take(n + 1int) =~= seq![s[0]] + t.take(n as int));
            }
        } else if s.len() >= 2 && s[1] == 1 {
            let t = s.subrange(2, s.len() as int);
            lemma_unframe_prefix(t);
            lemma_unframe_len(t);
            if unframe(t) is Ok {
                let (p, n) = unframe(t)->Ok_0;
                assert(frame(seq![0u8] + p) =~= escape_byte(0) + frame(p)) by {
                    assert((seq![0u8] + p).drop_first() =~= p);
                }
                assert(s.take(n + 2int) =~= seq![0u8, 1u8] + t.take(n as int));
            }
        } else if s.len() >= 2 && s[1] == 0 {
            assert(s.take(2) =~= frame(seq![]));
        }
    }
}

pub proof fn lemma_escape_append(a: Seq<u8>, b: Seq<u8>)
    ensures
        escape(a + b) == escape(a) + escape(b),
    decreases a.len(),
{
    if a.len() == 0 {
        assert(a + b =~= b);
        assert(escape(a) + escape(b) =~= escape(b));
    } else {
        assert((a + b).drop_first() =~= a.drop_first() + b);
        lemma_escape_append(a.drop_first(), b);
        assert(escape_byte(a[0]) + (escape(a.drop_first()) + escape(b)) =~= (escape_byte(a[0])
            + escape(a.drop_first())) + escape(b));
    }
}

pub proof fn lemma_escape_push(a: Seq<u8>, b: u8)
    ensures
        escape(a.push(b)) == escape(a) + escape_byte(b),
{
    lemma_escape_append(a, seq![b]);
    assert(a + seq![b] =~= a.push(b));
    assert(seq![b].drop_first() =~= seq![]);
    assert(escape(seq![b]) =~= escape_byte(b) + escape(seq![]));
    assert(escape_byte(b) + seq![] =~= escape_byte(b));
}

/// Reading a framed payload, whatever follows it, gives back the payload.
pub proof fn lemma_unframe_frame(p: Seq<u8>, rest: Seq<u8>)
    ensures
        unframe(frame(p) + rest) == Ok::<(Seq<u8>, nat), DecodeError>((p, frame(p).len())),
    decreases p.len(),
{
    let s = frame(p) + rest;
    if p.len() == 0 {
        assert(s[0] == 0 && s[1] == 0);
        assert(p =~= seq![]);
    } else {
        let t = p.drop_first();
        lemma_unframe_frame(t, rest);
        assert(frame(p) =~= escape_byte(p[0]) + frame(t));
        if p[0] == 0 {
            assert(s.subrange(2, s.len() as int) =~= frame(t) + rest);
        } else {
            assert(s.drop_first() =~= frame(t) + rest);
        }
        assert(p =~= seq![p[0]] + t);
    }
}

proof fn lemma_escape_well_escaped(p: Seq<u8>)
    ensures
        well_escaped(escape(p)),
    decreases p.len(),
{
    if p.len() > 0 {
        let h = escape_byte(p[0]);
        lemma_escape_well_escaped(p.drop_first());
        if p[0] == 0 {
            assert(h.subrange(2, 2) =~= seq![]);
            assert(well_escaped(h.subrange(2, 2)));
        } else {
            assert(h.drop_first() =~= seq![]);
            assert(well_escaped(h.drop_first()));
        }
        assert(well_escaped(h));
        lemma_well_escaped_append(h, escape(p.drop_first()));
    }
}

/// A framed payload is well escaped.
pub proof fn lemma_frame_well_escaped(p: Seq<u8>)
    ensures
        well_escaped(frame(p)),
{
    let z = seq![0u8, 0u8];
    assert(z.subrange(2, 2) =~= seq![]);
    assert(well_escaped(z.subrange(2, 2)));
    assert(well_escaped(z));
    lemma_escape_well_escaped(p);
    lemma_well_escaped_append(escape(p), z);
}

/// Two fields followed by anything compare as their payloads do, unless the
/// payloads are equal.
pub proof fn lemma_frame_order(p: Seq<u8>, x: Seq<u8>, q: Seq<u8>, y: Seq<u8>)
    requires
        p != q,
    ensures
        lex_lt(frame(p) + x, frame(q) + y) == lex_lt(p, q),
    decreases p.len() + q.len(),
{
    let s = frame(p) + x;
    let t = frame(q) + y;
    if p.len() == 0 {
        assert(s[0] == 0 && s[1] == 0);
        assert(q.len() > 0) by {
            if q.len() == 0 {
                assert(p =~= q);
            }
        }
        assert(frame(q) =~= escape_byte(q[0]) + frame(q.drop_first()));
        if q[0] != 0 {
            assert(t[0] == q[0]);
        } else {
            assert(t[0] == 0 && t[1] == 1);
            assert(s.drop_first()[0] == 0 && t.drop_first()[0] == 1);
            assert(lex_lt(s.drop_first(), t.drop_first()));
        }
        assert(lex_lt(s, t));
        assert(lex_lt(p, q));
    } else if q.len() == 0 {
        assert(t[0] == 0 && t[1] == 0);
        assert(frame(p) =~= escape_byte(p[0]) + frame(p.drop_first()));
        if p[0] != 0 {
            assert(s[0] == p[0]);
        } else {
            assert(s[0] == 0 && s[1] == 1);
            assert(s.drop_first()[0] == 1 && t.drop_first()[0] == 0);
            assert(!lex_lt(s.drop_first(), t.drop_first()));
        }
        assert(!lex_lt(s, t));
        assert(!lex_lt(p, q));
    } else {
        let p1 = p.drop_first();
        let q1 = q.drop_first();
        assert(frame(p) =~= escape_byte(p[0]) + frame(p1));
        assert(frame(q) =~= escape_byte(q[0]) + frame(q1));
        if p[0] == q[0] {
            let h = escape_byte(p[0]);
            assert(p1 != q1) by {
                if p1 == q1 {
                    assert(p =~= seq![p[0]] + p1);
                    assert(q =~= seq![q[0]] + q1);
                }
            }
            lemma_frame_order(p1, x, q1, y);
            assert(s =~= h + (frame(p1) + x));
            assert(t =~= h + (frame(q1) + y));
            lemma_lex_common_prefix(h, frame(p1) + x, frame(q1) + y);
        } else if p[0] != 0 && q[0] != 0 {
            assert(s[0] == p[0] && t[0] == q[0]);
        } else if p[0] == 0 {
            assert(s[0] == 0 && t[0] == q[0]);
        } else {
            assert(s[0] == p[0] && t[0] == 0);
        }
    }
}

} // verus!
