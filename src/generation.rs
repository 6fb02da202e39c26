//! Random transposers. Chance enters only here; encryption and decryption
//! never draw random numbers.

use vstd::prelude::*;
use rand::Rng;
use rand::seq::SliceRandom;
use crate::error::CipherError;
use crate::permutation::{SimplePermutation, identity_perm, is_perm};
use crate::rail_fence::RailFenceCypher;
use crate::vertical::VerticalPermutation;

verus! {

/// Relies on `rand::seq::SliceRandom::shuffle` with `rand::thread_rng`:
/// the slice is rearranged in place, so it holds the same items.
#[verifier::external_body]
fn shuffle_indices(v: &mut Vec<usize>)
    ensures
        final(v)@.to_multiset() == old(v)@.to_multiset(),
{
    v.shuffle(&mut rand::thread_rng());
}

/// Relies on `rand::Rng::gen_range` over `lo..=hi` with `rand::thread_rng`:
/// the number lies in the range, which must not be empty.
#[verifier::external_body]
fn random_in(lo: usize, hi: usize) -> (r: usize)
    requires
        lo <= hi,
    ensures
        lo <= r <= hi,
{
    rand::thread_rng().gen_range(lo..=hi)
}

/// A rearrangement of the identity of size `n > 0` is a permutation.
proof fn lemma_shuffled_identity(s: Seq<usize>, n: nat)
    requires
        0 < n <= usize::MAX,
        s.to_multiset() == identity_perm(n).to_multiset(),
    ensures
        is_perm(s),
        s.len() == n,
{
    let id = identity_perm(n);
    s.to_multiset_ensures();
    id.to_multiset_ensures();
    assert(id.no_duplicates()) by {
        assert forall|i: int, j: int| 0 <= i < id.len() && 0 <= j < id.len() && i != j implies id[i] != id[j] by {}
    }
    id.lemma_multiset_has_no_duplicates();
    assert forall|i: int| 0 <= i < s.len() implies (#[trigger] s[i] as int) < s.len() by {
        assert(s.contains(s[i]));
        assert(s.to_multiset().count(s[i]) > 0);
        assert(id.contains(s[i]));
        let k = choose|k: int| 0 <= k < id.len() && id[k] == s[i];
    }
    assert forall|x: usize| s.to_multiset().contains(x) implies s.to_multiset().count(x) == 1 by {}
    s.lemma_multiset_has_no_duplicates_conv();
}

/// The identity of size `n`, rearranged at random.
fn shuffled(n: usize) -> (r: Vec<usize>)
    requires
        n > 0,
    ensures
        is_perm(r@),
        r@.len() == n,
{
    let mut v: Vec<usize> = Vec::with_capacity(n);
    let mut i: usize = 0;
    while i < n
        invariant
            0 <= i <= n,
            v@ == identity_perm(i as nat),
        decreases n - i,
    {
        v.push(i);
        proof {
            assert(v@ =~= identity_perm((i + 1) as nat));
        }
        i = i + 1;
    }
    shuffle_indices(&mut v);
    proof {
        lemma_shuffled_identity(v@, n as nat);
    }
    v
}

impl SimplePermutation {
    /// A random permutation of the given size; `InvalidConfig` for size 0.
    pub fn random_with_size(size: usize) -> (r: Result<Self, CipherError>)
        ensures
            r is Ok <==> size > 0,
            r matches Ok(p) ==> p@.len() == size,
            r is Err ==> r == Err::<Self, CipherError>(CipherError::InvalidConfig),
    {
        if size == 0 {
            return Err(CipherError::InvalidConfig);
        }
        let indices = shuffled(size);
        match SimplePermutation::try_from(indices) {
            Some(p) => Ok(p),
            None => vstd::pervasive::unreached(),
        }
    }

    /// A random permutation of a random size from 2 to 20.
    pub fn random() -> (r: Self)
        ensures
            2 <= r@.len() <= 20,
    {
        let size = random_in(2, 20);
        let indices = shuffled(size);
        match SimplePermutation::try_from(indices) {
            Some(p) => p,
            None => vstd::pervasive::unreached(),
        }
    }
}

/// A random rail fence: 4 to 16 columns, 2 to `columns - 2` rows.
pub fn random_rail_fence() -> (r: RailFenceCypher)
    ensures
        4 <= r@.1 <= 16,
        2 <= r@.0 <= r@.1 - 2,
{
    let columns = random_in(4, 16);
    let rows = random_in(2, columns - 2);
    match RailFenceCypher::try_new(rows, columns) {
        Ok(c) => c,
        Err(_) => vstd::pervasive::unreached(),
    }
}

/// A random vertical transposer: 4 to 16 columns, 2 to `columns - 2` rows,
/// and a random column permutation.
pub fn random_vertical() -> (r: VerticalPermutation)
    ensures
        4 <= r@.1 <= 16,
        2 <= r@.0 <= r@.1 - 2,
        r@.2.len() == r@.1,
{
    let columns = random_in(4, 16);
    let rows = random_in(2, columns - 2);
    let indices = shuffled(columns);
    assert(rows * columns <= 256) by (nonlinear_arith)
        requires
            rows <= 16,
            columns <= 16,
    ;
    let permutation = match SimplePermutation::try_from(indices) {
        Some(p) => p,
        None => vstd::pervasive::unreached(),
    };
    match VerticalPermutation::try_new(rows, columns, permutation) {
        Ok(v) => v,
        Err(_) => vstd::pervasive::unreached(),
    }
}

} // verus!
