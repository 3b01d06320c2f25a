use vstd::prelude::*;

verus! {

/// Unsigned byte-wise lexicographic order: `a` sorts strictly before `b`.
/// A strict prefix sorts before the longer sequence.
pub open spec fn lex_lt(a: Seq<u8>, b: Seq<u8>) -> bool
    decreases a.len(),
{
    if a.len() == 0 {
        b.len() > 0
    } else if b.len() == 0 {
        false
    } else if a[0] != b[0] {
        a[0] < b[0]
    } else {
        lex_lt(a.drop_first(), b.drop_first())
    }
}

/// `256` to the power `n`.
pub open spec fn pow256(n: nat) -> nat
    decreases n,
{
    if n == 0 {
        1
    } else {
        256 * pow256((n - 1) as nat)
    }
}

/// The number that a big-endian byte string stands for.
pub open spec fn be_value(s: Seq<u8>) -> nat
    decreases s.len(),
{
    if s.len() == 0 {
        0
    } else {
        be_value(s.drop_last()) * 256 + s.last() as nat
    }
}

/// The `n` low-order bytes of `v`, most significant first.
pub open spec fn be_bytes(v: nat, n: nat) -> Seq<u8>
    decreases n,
{
    if n == 0 {
        seq![]
    } else {
        be_bytes(v / 256, (n - 1) as nat).push((v % 256) as u8)
    }
}

pub proof fn lemma_lex_irreflexive(a: Seq<u8>)
    ensures
        !lex_lt(a, a),
    decreases a.len(),
{
    if a.len() > 0 {
        lemma_lex_irreflexive(a.drop_first());
    }
}

pub proof fn lemma_lex_asymmetric(a: Seq<u8>, b: Seq<u8>)
    ensures
        !(lex_lt(a, b) && lex_lt(b, a)),
    decreases a.len(),
{
    if a.len() > 0 && b.len() > 0 && a[0] == b[0] {
        lemma_lex_asymmetric(a.drop_first(), b.drop_first());
    }
}

/// Two different byte strings are ordered one way or the other.
pub proof fn lemma_lex_total(a: Seq<u8>, b: Seq<u8>)
    ensures
        a != b ==> (lex_lt(a, b) || lex_lt(b, a)),
    decreases a.len(),
{
    if a.len() > 0 && b.len() > 0 && a[0] == b[0] {
        lemma_lex_total(a.drop_first(), b.drop_first());
        if a.drop_first() == b.drop_first() {
            assert(a =~= seq![a[0]] + a.drop_first());
            assert(b =~= seq![b[0]] + b.drop_first());
        }
    } else if a.len() == 0 && b.len() == 0 {
        assert(a =~= b);
    }
}

/// A common prefix does not change the order.
pub proof fn lemma_lex_common_prefix(h: Seq<u8>, u: Seq<u8>, v: Seq<u8>)
    ensures
        lex_lt(h + u, h + v) == lex_lt(u, v),
    decreases h.len(),
{
    if h.len() > 0 {
        assert((h + u).drop_first() =~= h.drop_first() + u);
        assert((h + v).drop_first() =~= h.drop_first() + v);
        lemma_lex_common_prefix(h.drop_first(), u, v);
    } else {
        assert(h + u =~= u);
        assert(h + v =~= v);
    }
}

/// For byte strings of one length, a last byte decides only between equal fronts.
pub proof fn lemma_lex_push(s1: Seq<u8>, a: u8, s2: Seq<u8>, b: u8)
    requires
        s1.len() == s2.len(),
    ensures
        lex_lt(s1.push(a), s2.push(b)) == (lex_lt(s1, s2) || (s1 == s2 && a < b)),
    decreases s1.len(),
{
    if s1.len() == 0 {
        assert(s1 =~= s2);
        assert(s1.push(a).drop_first() =~= seq![]);
        assert(s2.push(b).drop_first() =~= seq![]);
        assert(!lex_lt(seq![], seq![]));
        assert(s1.push(a)[0] == a && s2.push(b)[0] == b);
    } else {
        assert(s1.push(a).drop_first() =~= s1.drop_first().push(a));
        assert(s2.push(b).drop_first() =~= s2.drop_first().push(b));
        lemma_lex_push(s1.drop_first(), a, s2.drop_first(), b);
        assert(s1.push(a)[0] == s1[0] && s2.push(b)[0] == s2[0]);
        if s1 == s2 {
            assert(s1.drop_first() == s2.drop_first());
        }
        if s1[0] == s2[0] && s1.drop_first() == s2.drop_first() {
            assert(s1 =~= seq![s1[0]] + s1.drop_first());
            assert(s2 =~= seq![s2[0]] + s2.drop_first());
        }
    }
}

pub proof fn lemma_be_bytes_len(v: nat, n: nat)
    ensures
        be_bytes(v, n).len() == n,
    decreases n,
{
    if n > 0 {
        lemma_be_bytes_len(v / 256, (n - 1) as nat);
    }
}

pub proof fn lemma_be_value_bound(s: Seq<u8>)
    ensures
        be_value(s) < pow256(s.len()),
    decreases s.len(),
{
    if s.len() > 0 {
        let t = s.drop_last();
        lemma_be_value_bound(t);
        let x = be_value(t);
        let p = pow256(t.len());
        assert(x * 256 + s.last() < p * 256) by (nonlinear_arith)
            requires
                x < p,
                s.last() < 256,
        ;
    }
}

/// The first byte of a big-endian byte string weighs `256^(len - 1)`.
pub proof fn lemma_be_value_front(s: Seq<u8>)
    requires
        s.len() > 0,
    ensures
        be_value(s) == s[0] * pow256((s.len() - 1) as nat) + be_value(s.drop_first()),
    decreases s.len(),
{
    if s.len() == 1 {
        assert(s.drop_last() =~= seq![]);
        assert(s.drop_first() =~= seq![]);
        assert(be_value(s.drop_last()) == 0);
        assert(be_value(s.drop_first()) == 0);
        assert(pow256(0) == 1);
        assert(s.last() == s[0]);
        assert(s[0] * pow256(0) == s[0]);
    } else {
        let t = s.drop_last();
        lemma_be_value_front(t);
        assert(t.drop_first() =~= s.drop_first().drop_last());
        assert(s.drop_first().last() == s.last());
        let p = pow256((t.len() - 1) as nat);
        let a = s[0] as nat;
        let m = be_value(t.drop_first());
        assert(pow256((s.len() - 1) as nat) == 256 * p);
        assert(be_value(s.drop_first()) == m * 256 + s.last());
        assert(be_value(s) == be_value(t) * 256 + s.last());
        assert(t[0] == s[0]);
        assert((a * p + m) * 256 + s.last() == a * (256 * p) + (m * 256 + s.last())) by (nonlinear_arith);
        assert(be_value(t) == a * p + m);
        assert(be_value(s) == a * (256 * p) + be_value(s.drop_first()));
    }
}

/// Reading back the `n` bytes of a number below `256^n` gives the number.
pub proof fn lemma_be_value_of_bytes(v: nat, n: nat)
    requires
        v < pow256(n),
    ensures
        be_value(be_bytes(v, n)) == v,
    decreases n,
{
    if n > 0 {
        let q = v / 256;
        assert(q < pow256((n - 1) as nat)) by (nonlinear_arith)
            requires
                v < 256 * pow256((n - 1) as nat),
                q == v / 256,
        ;
        lemma_be_value_of_bytes(q, (n - 1) as nat);
        let s = be_bytes(v, n);
        assert(s.drop_last() =~= be_bytes(q, (n - 1) as nat));
        assert(q * 256 + v % 256 == v);
    }
}

/// A byte string is the big-endian form of its own value.
pub proof fn lemma_be_bytes_of_value(s: Seq<u8>)
    ensures
        be_bytes(be_value(s), s.len()) == s,
    decreases s.len(),
{
    if s.len() > 0 {
        let t = s.drop_last();
        lemma_be_bytes_of_value(t);
        let v = be_value(s);
        assert(v / 256 == be_value(t) && v % 256 == s.last()) by (nonlinear_arith)
            requires
                v == be_value(t) * 256 + s.last() as nat,
                s.last() < 256,
        ;
        assert(be_bytes(v, s.len()) =~= t.push(s.last()));
        assert(t.push(s.last()) =~= s);
    }
}

/// On byte strings of one length, lexicographic order is numeric order.
pub proof fn lemma_be_order(s1: Seq<u8>, s2: Seq<u8>)
    requires
        s1.len() == s2.len(),
    ensures
        lex_lt(s1, s2) == (be_value(s1) < be_value(s2)),
    decreases s1.len(),
{
    if s1.len() > 0 {
        let t1 = s1.drop_last();
        let t2 = s2.drop_last();
        lemma_be_order(t1, t2);
        assert(s1 =~= t1.push(s1.last()));
        assert(s2 =~= t2.push(s2.last()));
        lemma_lex_push(t1, s1.last(), t2, s2.last());
        lemma_be_bytes_of_value(t1);
        lemma_be_bytes_of_value(t2);
        let x1 = be_value(t1);
        let x2 = be_value(t2);
        let a = s1.last() as nat;
        let b = s2.last() as nat;
        assert((x1 * 256 + a < x2 * 256 + b) == (x1 < x2 || (x1 == x2 && a < b))) by (nonlinear_arith)
            requires
                a < 256,
                b < 256,
        ;
    } else {
        assert(s1 =~= s2);
    }
}

/// Numeric order of values below `256^n` is the order of their `n`-byte forms.
pub proof fn lemma_be_bytes_order(v1: nat, v2: nat, n: nat)
    requires
        v1 < pow256(n),
        v2 < pow256(n),
    ensures
        (v1 < v2) == lex_lt(be_bytes(v1, n), be_bytes(v2, n)),
        (v1 == v2) == (be_bytes(v1, n) == be_bytes(v2, n)),
{
    lemma_be_bytes_len(v1, n);
    lemma_be_bytes_len(v2, n);
    lemma_be_value_of_bytes(v1, n);
    lemma_be_value_of_bytes(v2, n);
    lemma_be_order(be_bytes(v1, n), be_bytes(v2, n));
}

pub proof fn lemma_pow256_monotonic(m: nat, n: nat)
    requires
        m <= n,
    ensures
        pow256(m) <= pow256(n),
    decreases n,
{
    if m < n {
        lemma_pow256_monotonic(m, (n - 1) as nat);
    }
}

pub proof fn lemma_pow256_values()
    ensures
        pow256(1) == 0x100,
        pow256(2) == 0x1_0000,
        pow256(4) == 0x1_0000_0000,
        pow256(8) == 0x1_0000_0000_0000_0000,
        pow256(16) == 0x1_0000_0000_0000_0000_0000_0000_0000_0000,
{
    reveal_with_fuel(pow256, 17);
}

} // verus!
