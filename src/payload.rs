//! The encrypted payload file: the number of size tokens and each token as
//! 8-byte big-endian integers, then the ciphertext bytes.

use vstd::prelude::*;
use crate::permutation::copy_range;

verus! {

/// `256` to the power `k`.
pub open spec fn radix(k: nat) -> nat
    decreases k,
{
    if k == 0 {
        1
    } else {
        256 * radix((k - 1) as nat)
    }
}

/// The `k` low bytes of `n`, most significant first.
pub open spec fn be_bytes(n: nat, k: nat) -> Seq<u8>
    decreases k,
{
    if k == 0 {
        Seq::empty()
    } else {
        be_bytes(n / 256, (k - 1) as nat).push((n % 256) as u8)
    }
}

/// The value of big-endian bytes.
pub open spec fn be_value(b: Seq<u8>) -> nat
    decreases b.len(),
{
    if b.len() == 0 {
        0
    } else {
        be_value(b.drop_last()) * 256 + b.last() as nat
    }
}

pub open spec fn tokens_bytes(t: Seq<usize>) -> Seq<u8>
    decreases t.len(),
{
    if t.len() == 0 {
        Seq::empty()
    } else {
        tokens_bytes(t.drop_last()) + be_bytes(t.last() as nat, 8)
    }
}

/// The payload file of size tokens `t` and ciphertext `d`.
pub open spec fn payload_bytes(t: Seq<usize>, d: Seq<u8>) -> Seq<u8> {
    be_bytes(t.len(), 8) + tokens_bytes(t) + d
}

/// The `i`-th token of a payload file.
pub open spec fn token_at(b: Seq<u8>, i: int) -> nat {
    be_value(b.subrange(8 + 8 * i, 16 + 8 * i))
}

/// Reads a payload file: `None` when it is shorter than its token count
/// says or a token does not fit in a `usize`.
pub open spec fn read_payload(b: Seq<u8>) -> Option<(Seq<usize>, Seq<u8>)> {
    if b.len() < 8 {
        None
    } else {
        let n = be_value(b.take(8));
        if b.len() < 8 + 8 * n {
            None
        } else if exists|i: int| 0 <= i < n && #[trigger] token_at(b, i) > usize::MAX {
            None
        } else {
            Some((Seq::new(n, |i: int| token_at(b, i) as usize), b.skip(8 + 8 * n as int)))
        }
    }
}

proof fn lemma_radix_8()
    ensures
        radix(8) == u64::MAX + 1,
{
    assert(radix(0) == 1);
    assert(radix(1) == 256);
    assert(radix(2) == 65536);
    assert(radix(3) == 16777216);
    assert(radix(4) == 4294967296);
    assert(radix(5) == 1099511627776);
    assert(radix(6) == 281474976710656);
    assert(radix(7) == 72057594037927936);
    assert(radix(8) == 18446744073709551616);
}

proof fn lemma_be_round_trip(n: nat, k: nat)
    requires
        n < radix(k),
    ensures
        be_bytes(n, k).len() == k,
        be_value(be_bytes(n, k)) == n,
    decreases k,
{
    if k > 0 {
        let q = n / 256;
        let r = n % 256;
        vstd::arithmetic::div_mod::lemma_fundamental_div_mod(n as int, 256);
        assert(q < radix((k - 1) as nat)) by (nonlinear_arith)
            requires
                n == 256 * q + r,
                0 <= r,
                n < 256 * radix((k - 1) as nat),
        ;
        lemma_be_round_trip(q, (k - 1) as nat);
        assert(be_bytes(n, k).drop_last() =~= be_bytes(q, (k - 1) as nat));
    } else {
        assert(n == 0);
    }
}

proof fn lemma_be_bound(b: Seq<u8>)
    ensures
        be_value(b) < radix(b.len()),
    decreases b.len(),
{
    if b.len() > 0 {
        lemma_be_bound(b.drop_last());
        let v = be_value(b.drop_last());
        let p = radix((b.len() - 1) as nat);
        assert(v * 256 + b.last() < 256 * p) by (nonlinear_arith)
            requires
                v < p,
                b.last() < 256,
        ;
    }
}

proof fn lemma_tokens_bytes(t: Seq<usize>)
    ensures
        tokens_bytes(t).len() == 8 * t.len(),
        forall|i: int| 0 <= i < t.len() ==> #[trigger] tokens_bytes(t).subrange(8 * i, 8 * i + 8) == be_bytes(t[i] as nat, 8),
    decreases t.len(),
{
    if t.len() > 0 {
        let init = t.drop_last();
        lemma_tokens_bytes(init);
        lemma_radix_8();
        lemma_be_round_trip(t.last() as nat, 8);
        let all = tokens_bytes(t);
        assert forall|i: int| 0 <= i < t.len() implies #[trigger] all.subrange(8 * i, 8 * i + 8) == be_bytes(t[i] as nat, 8) by {
            if i < init.len() {
                assert(all.subrange(8 * i, 8 * i + 8) =~= tokens_bytes(init).subrange(8 * i, 8 * i + 8));
                assert(init[i] == t[i]);
            } else {
                assert(all.subrange(8 * i, 8 * i + 8) =~= be_bytes(t.last() as nat, 8));
            }
        }
    }
}

/// Reading a written payload file gives back its tokens and ciphertext.
pub proof fn lemma_payload_round_trip(t: Seq<usize>, d: Seq<u8>)
    requires
        t.len() <= usize::MAX,
    ensures
        read_payload(payload_bytes(t, d)) == Some::<(Seq<usize>, Seq<u8>)>((t, d)),
{
    let b = payload_bytes(t, d);
    let n = t.len();
    lemma_radix_8();
    lemma_be_round_trip(n as nat, 8);
    lemma_tokens_bytes(t);
    assert(b.take(8) =~= be_bytes(n as nat, 8));
    assert forall|i: int| 0 <= i < n implies #[trigger] token_at(b, i) == t[i] as nat by {
        assert(b.subrange(8 + 8 * i, 16 + 8 * i) =~= tokens_bytes(t).subrange(8 * i, 8 * i + 8));
        lemma_be_round_trip(t[i] as nat, 8);
    }
    assert(b.skip(8 + 8 * n as int) =~= d);
    assert(Seq::new(n, |i: int| token_at(b, i) as usize) =~= t);
}

fn push_be(buf: &mut Vec<u8>, n: u64, k: usize)
    ensures
        final(buf)@ == old(buf)@ + be_bytes(n as nat, k as nat),
    decreases k,
{
    if k > 0 {
        push_be(buf, n / 256, k - 1);
        buf.push((n % 256) as u8);
        proof {
            assert(final(buf)@ =~= old(buf)@ + be_bytes(n as nat, k as nat));
        }
    } else {
        proof {
            assert(buf@ =~= old(buf)@ + be_bytes(n as nat, k as nat));
        }
    }
}

/// Writes the payload file of `tokens` and `data`.
pub fn write_payload(tokens: &[usize], data: &[u8]) -> (r: Vec<u8>)
    ensures
        r@ == payload_bytes(tokens@, data@),
{
    let mut out: Vec<u8> = Vec::new();
    push_be(&mut out, tokens.len() as u64, 8);
    let mut i: usize = 0;
    while i < tokens.len()
        invariant
            0 <= i <= tokens@.len(),
            out@ == be_bytes(tokens@.len() as nat, 8) + tokens_bytes(tokens@.take(i as int)),
        decreases tokens@.len() - i,
    {
        push_be(&mut out, tokens[i] as u64, 8);
        proof {
            assert(tokens@.take(i + 1).drop_last() =~= tokens@.take(i as int));
            assert(out@ =~= be_bytes(tokens@.len() as nat, 8) + tokens_bytes(tokens@.take(i + 1)));
        }
        i = i + 1;
    }
    let mut k: usize = 0;
    let ghost mid = out@;
    while k < data.len()
        invariant
            0 <= k <= data@.len(),
            out@ == mid + data@.take(k as int),
        decreases data@.len() - k,
    {
        out.push(data[k]);
        proof {
            assert(out@ =~= mid + data@.take(k + 1));
        }
        k = k + 1;
    }
    proof {
        assert(tokens@.take(tokens@.len() as int) =~= tokens@);
        assert(data@.take(data@.len() as int) =~= data@);
        assert(out@ =~= payload_bytes(tokens@, data@));
    }
    out
}

/// The big-endian value of `b[start..start + 8]`.
fn be_at(b: &[u8], start: usize) -> (r: u64)
    requires
        start + 8 <= b@.len(),
    ensures
        r as nat == be_value(b@.subrange(start as int, start + 8)),
{
    let len = b.len();
    let mut v: u64 = 0;
    let mut j: usize = 0;
    while j < 8
        invariant
            len == b@.len(),
            start + 8 <= b@.len(),
            0 <= j <= 8,
            v as nat == be_value(b@.subrange(start as int, start + j)),
        decreases 8 - j,
    {
        proof {
            let s = b@.subrange(start as int, start + j + 1);
            assert(s.drop_last() =~= b@.subrange(start as int, start + j));
            lemma_be_bound(s);
            lemma_radix_8();
            assert(radix(s.len()) <= radix(8)) by {
                lemma_radix_mono(s.len(), 8);
            }
        }
        v = v * 256 + b[start + j] as u64;
        j = j + 1;
    }
    v
}

proof fn lemma_radix_mono(a: nat, b: nat)
    requires
        a <= b,
    ensures
        radix(a) <= radix(b),
    decreases b,
{
    if a < b {
        lemma_radix_mono(a, (b - 1) as nat);
    }
}

/// Reads a payload file.
pub fn parse_payload(b: &[u8]) -> (r: Option<(Vec<usize>, Vec<u8>)>)
    ensures
        match read_payload(b@) {
            None => r is None,
            Some((t, d)) => r matches Some(x) && x.0@ == t && x.1@ == d,
        },
{
    if b.len() < 8 {
        return None;
    }
    let count = be_at(b, 0);
    proof {
        assert(b@.subrange(0, 8) =~= b@.take(8));
    }
    if count > ((b.len() - 8) / 8) as u64 {
        return None;
    }
    let n = count as usize;
    let len = b.len();
    let mut tokens: Vec<usize> = Vec::new();
    let mut i: usize = 0;
    while i < n
        invariant
            len == b@.len(),
            b@.len() >= 8 + 8 * n,
            n as nat == be_value(b@.take(8)),
            0 <= i <= n,
            tokens@ == Seq::new(i as nat, |x: int| token_at(b@, x) as usize),
            forall|x: int| 0 <= x < i ==> #[trigger] token_at(b@, x) <= usize::MAX,
        decreases n - i,
    {
        proof {
            assert(8 + 8 * i + 8 <= 8 + 8 * n) by (nonlinear_arith)
                requires i < n;
        }
        let v = be_at(b, 8 + 8 * i);
        if v > usize::MAX as u64 {
            proof {
                assert(token_at(b@, i as int) > usize::MAX);
            }
            return None;
        }
        tokens.push(v as usize);
        proof {
            assert(tokens@ =~= Seq::new((i + 1) as nat, |x: int| token_at(b@, x) as usize));
        }
        i = i + 1;
    }
    let data = copy_range(b, 8 + 8 * n, b.len());
    proof {
        assert(data@ =~= b@.skip(8 + 8 * n));
    }
    Some((tokens, data))
}

} // verus!
