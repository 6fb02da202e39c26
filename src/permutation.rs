//! Index permutations: validation, inversion and application.
//!
//! A permutation `p` of length `n` sends position `i` to position `p[i]`:
//! applying it to `s` yields `r` with `r[p[i]] == s[i]`.

use vstd::prelude::*;
use vstd::set_lib::{lemma_int_range, lemma_subset_equality, set_int_range};
use crate::cyphers::{BlockEncrypt, Blocky, IndexEncrypt};

verus! {

/// `p` is a non-empty bijection on `0..p.len()`.
pub open spec fn is_perm(p: Seq<usize>) -> bool {
    &&& 0 < p.len() <= usize::MAX
    &&& forall|i: int| 0 <= i < p.len() ==> (#[trigger] p[i] as int) < p.len()
    &&& forall|i: int, j: int|
        0 <= i < p.len() && 0 <= j < p.len() && i != j ==> #[trigger] p[i] != #[trigger] p[j]
}

/// The inverse permutation: the position that is sent to `j`.
pub open spec fn perm_inverse(p: Seq<usize>) -> Seq<usize> {
    Seq::new(p.len(), |j: int| (choose|i: int| 0 <= i < p.len() && p[i] as int == j) as usize)
}

/// Applying `p` to `s`: the symbol at position `i` moves to position `p[i]`.
pub open spec fn apply_perm<T>(p: Seq<usize>, s: Seq<T>) -> Seq<T> {
    Seq::new(s.len(), |j: int| s[perm_inverse(p)[j] as int])
}

/// The identity permutation of size `n`.
pub open spec fn identity_perm(n: nat) -> Seq<usize> {
    Seq::new(n, |i: int| i as usize)
}

/// Every position below the length is hit by a permutation.
pub proof fn lemma_perm_onto(p: Seq<usize>, j: int)
    requires
        is_perm(p),
        0 <= j < p.len(),
    ensures
        exists|i: int| 0 <= i < p.len() && p[i] as int == j,
{
    let n = p.len() as int;
    let ps = p.map_values(|x: usize| x as int);
    assert(ps.no_duplicates()) by {
        assert forall|a: int, b: int| 0 <= a < ps.len() && 0 <= b < ps.len() && a != b implies ps[a]
            != ps[b] by {
            assert(p[a] != p[b]);
        }
    }
    ps.unique_seq_to_set();
    lemma_int_range(0, n);
    assert(ps.to_set().subset_of(set_int_range(0, n))) by {
        assert forall|x: int| ps.to_set().contains(x) implies set_int_range(0, n).contains(x) by {
            let k = choose|k: int| 0 <= k < ps.len() && ps[k] == x;
            assert(p[k] as int == x);
        }
    }
    lemma_subset_equality(ps.to_set(), set_int_range(0, n));
    assert(set_int_range(0, n).contains(j));
    assert(ps.to_set().contains(j));
    let k = choose|k: int| 0 <= k < ps.len() && ps[k] == j;
    assert(p[k] as int == j);
}

/// The inverse undoes the permutation on both sides and is itself a permutation.
pub proof fn lemma_inverse(p: Seq<usize>)
    requires
        is_perm(p),
    ensures
        perm_inverse(p).len() == p.len(),
        forall|i: int| 0 <= i < p.len() ==> #[trigger] perm_inverse(p)[p[i] as int] as int == i,
        forall|j: int| 0 <= j < p.len() ==> #[trigger] p[perm_inverse(p)[j] as int] as int == j,
        is_perm(perm_inverse(p)),
{
    let q = perm_inverse(p);
    assert forall|j: int| 0 <= j < p.len() implies 0 <= #[trigger] q[j] < p.len() && p[q[j] as int]
        as int == j by {
        lemma_perm_onto(p, j);
        let i = choose|i: int| 0 <= i < p.len() && p[i] as int == j;
        assert(q[j] == i as usize);
    }
    assert forall|i: int| 0 <= i < p.len() implies #[trigger] q[p[i] as int] as int == i by {
        let j = p[i] as int;
        let k = q[j] as int;
        assert(p[k] as int == j);
        if k != i {
            assert(p[k] != p[i]);
        }
    }
    assert forall|a: int, b: int| 0 <= a < q.len() && 0 <= b < q.len() && a != b implies #[trigger] q[a]
        != #[trigger] q[b] by {
        assert(p[q[a] as int] as int == a);
        assert(p[q[b] as int] as int == b);
    }
}

/// A sequence that undoes `p` at every position is the inverse of `p`.
pub proof fn lemma_inverse_unique(p: Seq<usize>, q: Seq<usize>)
    requires
        is_perm(p),
        q.len() == p.len(),
        forall|i: int| 0 <= i < p.len() ==> #[trigger] q[p[i] as int] as int == i,
    ensures
        q == perm_inverse(p),
{
    lemma_inverse(p);
    assert forall|j: int| 0 <= j < q.len() implies q[j] == perm_inverse(p)[j] by {
        let k = perm_inverse(p)[j] as int;
        assert(p[k] as int == j);
        assert(q[p[k] as int] as int == k);
    }
    assert(q =~= perm_inverse(p));
}

/// The inverse of the inverse is the permutation itself.
pub proof fn lemma_inverse_involutive(p: Seq<usize>)
    requires
        is_perm(p),
    ensures
        perm_inverse(perm_inverse(p)) == p,
{
    lemma_inverse(p);
    let q = perm_inverse(p);
    assert forall|j: int| 0 <= j < q.len() implies #[trigger] p[q[j] as int] as int == j by {}
    lemma_inverse_unique(q, p);
}

/// Applying the inverse after a permutation gives back the input sequence.
pub proof fn lemma_apply_inverse<T>(p: Seq<usize>, s: Seq<T>)
    requires
        is_perm(p),
        s.len() == p.len(),
    ensures
        apply_perm(perm_inverse(p), apply_perm(p, s)) == s,
{
    lemma_inverse(p);
    lemma_inverse_involutive(p);
    let r = apply_perm(perm_inverse(p), apply_perm(p, s));
    assert forall|j: int| 0 <= j < s.len() implies r[j] == s[j] by {
        let k = p[j] as int;
        assert(perm_inverse(perm_inverse(p))[j] == p[j]);
        assert(perm_inverse(p)[k] as int == j);
    }
    assert(r =~= s);
}

/// A permutation of size one leaves its input as it is.
pub proof fn lemma_size_one_is_identity<T>(p: Seq<usize>, s: Seq<T>)
    requires
        is_perm(p),
        p.len() == 1,
        s.len() == 1,
    ensures
        p[0] == 0,
        apply_perm(p, s) == s,
{
    lemma_inverse(p);
    assert(apply_perm(p, s) =~= s);
}

/// The identity sequence is a permutation that moves nothing.
pub proof fn lemma_identity_perm<T>(n: nat, s: Seq<T>)
    requires
        0 < n <= usize::MAX,
        s.len() == n,
    ensures
        is_perm(identity_perm(n)),
        apply_perm(identity_perm(n), s) == s,
{
    let p = identity_perm(n);
    assert forall|i: int| 0 <= i < n implies #[trigger] p[i] as int == i by {}
    lemma_inverse_unique(p, p);
    assert(apply_perm(p, s) =~= s);
}

/// Computes the inverse of a valid permutation.
pub fn invert(indices: &[usize]) -> (r: Vec<usize>)
    requires
        is_perm(indices@),
    ensures
        r@ == perm_inverse(indices@),
{
    let n = indices.len();
    let mut inv: Vec<usize> = vec![0; n];
    let mut i: usize = 0;
    while i < n
        invariant
            is_perm(indices@),
            n == indices@.len(),
            inv@.len() == n,
            0 <= i <= n,
            forall|k: int| 0 <= k < i ==> #[trigger] inv@[indices@[k] as int] as int == k,
        decreases n - i,
    {
        let target = indices[i];
        inv.set(target, i);
        proof {
            assert forall|k: int| 0 <= k < i + 1 implies #[trigger] inv@[indices@[k] as int] as int
                == k by {
                if k < i {
                    assert(indices@[k] != indices@[i as int]);
                }
            }
        }
        i = i + 1;
    }
    proof {
        lemma_inverse_unique(indices@, inv@);
    }
    inv
}

/// Moves every item of `data` to the position that `indices` gives for it:
/// `r[indices[i]] == data[i]`.
pub fn move_by_indices<T: Copy>(data: Vec<T>, indices: &[usize]) -> (r: Vec<T>)
    requires
        is_perm(indices@),
        data@.len() == indices@.len(),
    ensures
        r@ == apply_perm(indices@, data@),
{
    let inv = invert(indices);
    proof {
        lemma_inverse(indices@);
    }
    let n = data.len();
    let mut r: Vec<T> = Vec::with_capacity(n);
    let mut j: usize = 0;
    while j < n
        invariant
            n == data@.len(),
            inv@ == perm_inverse(indices@),
            inv@.len() == n,
            forall|k: int| 0 <= k < n ==> (#[trigger] inv@[k] as int) < n,
            0 <= j <= n,
            r@ == apply_perm(indices@, data@).take(j as int),
        decreases n - j,
    {
        let source = inv[j];
        r.push(data[source]);
        proof {
            assert(r@ =~= apply_perm(indices@, data@).take(j + 1));
        }
        j = j + 1;
    }
    proof {
        assert(r@ =~= apply_perm(indices@, data@));
    }
    r
}

/// A validated index permutation: a non-empty bijection on `0..len`.
#[derive(Debug, PartialEq, Eq)]
pub struct SimplePermutation {
    pub(crate) indices: Vec<usize>,
}

impl View for SimplePermutation {
    type V = Seq<usize>;

    closed spec fn view(&self) -> Seq<usize> {
        self.indices@
    }
}

impl SimplePermutation {
    #[verifier::type_invariant]
    pub open spec fn wf(&self) -> bool {
        is_perm(self@)
    }

    /// Accepts `indices` when it is a non-empty permutation of `0..indices.len()`.
    pub fn try_from(indices: Vec<usize>) -> (r: Option<Self>)
        ensures
            r is Some <==> is_perm(indices@),
            r matches Some(p) ==> p@ == indices@,
    {
        let n = indices.len();
        if n == 0 {
            return None;
        }
        let mut seen: Vec<bool> = vec![false; n];
        let mut i: usize = 0;
        while i < n
            invariant
                n == indices@.len(),
                seen@.len() == n,
                0 <= i <= n,
                forall|k: int| 0 <= k < i ==> (#[trigger] indices@[k] as int) < n,
                forall|a: int, b: int|
                    0 <= a < i && 0 <= b < i && a != b ==> #[trigger] indices@[a]
                        != #[trigger] indices@[b],
                forall|x: int| 0 <= x < n ==> (#[trigger] seen@[x] <==> exists|k: int| 0 <= k < i
                    && indices@[k] as int == x),
            decreases n - i,
        {
            let target = indices[i];
            if target >= n || seen[target] {
                proof {
                    if target < n {
                        let k = choose|k: int| 0 <= k < i && indices@[k] as int == target as int;
                        assert(indices@[k] == indices@[i as int]);
                    }
                }
                return None;
            }
            seen.set(target, true);
            proof {
                assert forall|x: int| 0 <= x < n implies (#[trigger] seen@[x] <==> exists|k: int|
                    0 <= k < i + 1 && indices@[k] as int == x) by {
                    if x == target as int {
                        assert(indices@[i as int] as int == x);
                    } else if seen@[x] {
                        let k = choose|k: int| 0 <= k < i && indices@[k] as int == x;
                        assert(0 <= k < i + 1 && indices@[k] as int == x);
                    }
                }
                assert forall|a: int, b: int|
                    0 <= a < i + 1 && 0 <= b < i + 1 && a != b implies #[trigger] indices@[a]
                        != #[trigger] indices@[b] by {
                    if a == i && b < i {
                        assert(seen@.len() == n);
                    } else if b == i && a < i {
                        assert(seen@.len() == n);
                    }
                }
            }
            i = i + 1;
        }
        Some(SimplePermutation { indices })
    }

    /// Computes the inverse of `indices`.
    pub fn inverse(indices: &[usize]) -> (r: Vec<usize>)
        requires
            is_perm(indices@),
        ensures
            r@ == perm_inverse(indices@),
            is_perm(r@),
    {
        proof {
            lemma_inverse(indices@);
        }
        invert(indices)
    }

    /// The identity permutation of the given size.
    pub fn trivial(size: usize) -> (r: Self)
        requires
            size > 0,
        ensures
            r@ == identity_perm(size as nat),
    {
        let mut indices: Vec<usize> = Vec::with_capacity(size);
        let mut i: usize = 0;
        while i < size
            invariant
                0 <= i <= size,
                indices@ == identity_perm(i as nat),
            decreases size - i,
        {
            indices.push(i);
            proof {
                assert(indices@ =~= identity_perm((i + 1) as nat));
            }
            i = i + 1;
        }
        proof {
            lemma_identity_perm(size as nat, identity_perm(size as nat));
        }
        SimplePermutation { indices }
    }

    /// The positions the permutation sends each index to.
    pub fn indices(&self) -> (r: &Vec<usize>)
        ensures
            r@ == self@,
            is_perm(r@),
    {
        proof {
            use_type_invariant(self);
        }
        &self.indices
    }
}

/// A copy of a slice of plain values.
pub fn copy_of<T: Copy>(v: &[T]) -> (r: Vec<T>)
    ensures
        r@ == v@,
{
    let mut r: Vec<T> = Vec::with_capacity(v.len());
    let mut i: usize = 0;
    while i < v.len()
        invariant
            0 <= i <= v@.len(),
            r@ == v@.take(i as int),
        decreases v@.len() - i,
    {
        r.push(v[i]);
        proof {
            assert(r@ =~= v@.take(i + 1));
        }
        i = i + 1;
    }
    proof {
        assert(r@ =~= v@);
    }
    r
}

/// A copy of `v[start..end]`.
pub fn copy_range<T: Copy>(v: &[T], start: usize, end: usize) -> (r: Vec<T>)
    requires
        start <= end <= v@.len(),
    ensures
        r@ == v@.subrange(start as int, end as int),
{
    let mut r: Vec<T> = Vec::with_capacity(end - start);
    let mut i: usize = start;
    while i < end
        invariant
            start <= i <= end <= v@.len(),
            r@ == v@.subrange(start as int, i as int),
        decreases end - i,
    {
        r.push(v[i]);
        proof {
            assert(r@ =~= v@.subrange(start as int, i + 1));
        }
        i = i + 1;
    }
    r
}

impl Blocky for SimplePermutation {
    open spec fn block_size_spec(&self) -> nat {
        self@.len()
    }

    fn get_block_size(&self) -> (r: usize) {
        self.indices().len()
    }
}

impl IndexEncrypt for SimplePermutation {
    open spec fn encrypt_indices_spec(&self) -> Seq<usize> {
        self@
    }

    fn encrypt_indices(&self) -> (r: Vec<usize>) {
        copy_of(self.indices().as_slice())
    }
}

impl BlockEncrypt for SimplePermutation {}

} // verus!
