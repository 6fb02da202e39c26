//! Block layouts: how a permutation of block size `B` acts on a sequence of
//! any length under the padding and the unpadding regime.
//!
//! Every regime is described by a *map*: output position `j` takes the input
//! symbol at `map[j]`, or the fill symbol where `map[j]` is past the input.

use vstd::prelude::*;
use vstd::set_lib::{lemma_int_range, set_int_range};
use crate::permutation::{is_perm, perm_inverse, lemma_inverse};

verus! {

broadcast use vstd::seq_lib::group_seq_properties, vstd::seq_lib::group_filter_ensures;

/// `l` rounded up to a multiple of `b`.
pub open spec fn padded_len(l: int, b: int) -> int {
    if l % b == 0 {
        l
    } else {
        l + (b - l % b)
    }
}

/// The input position that lands at output position `j` of a padded encryption.
pub open spec fn src_pos(p: Seq<usize>, j: int) -> int {
    let b = p.len() as int;
    (j / b) * b + perm_inverse(p)[j % b] as int
}

/// The output position that input position `i` is sent to.
pub open spec fn dst_pos(p: Seq<usize>, i: int) -> int {
    let b = p.len() as int;
    (i / b) * b + p[i % b] as int
}

/// The permuted index sequence of a padded encryption of `l` symbols: entry
/// `j` names the input position shown at output `j`; entries `>= l` are fill.
pub open spec fn layout(p: Seq<usize>, l: int) -> Seq<int> {
    Seq::new(padded_len(l, p.len() as int) as nat, |j: int| src_pos(p, j))
}

pub open spec fn below(l: int) -> spec_fn(int) -> bool {
    |x: int| x < l
}

/// The layout with the holes dropped: the order in which the unpadding
/// regime emits the `l` input positions.
pub open spec fn kept(p: Seq<usize>, l: int) -> Seq<int> {
    layout(p, l).filter(below(l))
}

/// How many real symbols precede slot `k` of the layout.
pub open spec fn rank(p: Seq<usize>, l: int, k: int) -> int {
    layout(p, l).take(k).filter(below(l)).len() as int
}

/// Output position `j` shows `s[map[j]]`, or `fill` where `map[j]` is outside `s`.
pub open spec fn gather<T>(s: Seq<T>, map: Seq<int>, fill: T) -> Seq<T> {
    Seq::new(map.len(), |j: int| if 0 <= map[j] < s.len() { s[map[j]] } else { fill })
}

pub open spec fn as_ints(s: Seq<usize>) -> Seq<int> {
    s.map_values(|x: usize| x as int)
}

/// Map of the padded decryption of `c_len` symbols back to `token` symbols.
pub open spec fn pad_restore_map(p: Seq<usize>, c_len: int, token: int) -> Seq<int> {
    let n = if token < c_len { token } else { c_len };
    Seq::new(n as nat, |i: int| dst_pos(p, i))
}

/// Map of the unpadded decryption of `c_len` symbols.
pub open spec fn unpad_restore_map(p: Seq<usize>, c_len: int) -> Seq<int> {
    Seq::new(c_len as nat, |i: int| rank(p, c_len, dst_pos(p, i)))
}

/// Padded encryption: fill up to whole blocks, then permute every block.
pub open spec fn pad_encrypt<T>(p: Seq<usize>, s: Seq<T>, fill: T) -> Seq<T> {
    gather(s, layout(p, s.len() as int), fill)
}

/// Padded decryption: undo every block and keep the first `token` symbols.
pub open spec fn pad_decrypt<T>(p: Seq<usize>, c: Seq<T>, token: int) -> Seq<T> {
    let n = if token < c.len() { token } else { c.len() as int };
    Seq::new(n as nat, |i: int| c[dst_pos(p, i)])
}

/// Unpadded encryption: the real symbols in layout order, holes skipped.
pub open spec fn unpad_encrypt<T>(p: Seq<usize>, s: Seq<T>) -> Seq<T> {
    kept(p, s.len() as int).map_values(|x: int| s[x])
}

/// Unpadded decryption: each position takes the ciphertext symbol whose
/// rank matches the slot it was sent to.
pub open spec fn unpad_decrypt<T>(p: Seq<usize>, c: Seq<T>) -> Seq<T> {
    Seq::new(c.len(), |i: int| c[rank(p, c.len() as int, dst_pos(p, i))])
}

/// Positions of a block-aligned range stay in their block.
pub proof fn lemma_block_pos(b: int, m: int, j: int, r: int)
    requires
        b > 0,
        m % b == 0,
        0 <= j < m,
        0 <= r < b,
    ensures
        0 <= (j / b) * b + r < m,
        ((j / b) * b + r) / b == j / b,
        ((j / b) * b + r) % b == r,
{
    let k = j / b;
    let q = m / b;
    assert(j == b * k + j % b) by {
        vstd::arithmetic::div_mod::lemma_fundamental_div_mod(j, b);
    }
    assert(m == b * q) by {
        vstd::arithmetic::div_mod::lemma_fundamental_div_mod(m, b);
    }
    assert(0 <= j % b < b) by {
        vstd::arithmetic::div_mod::lemma_mod_bound(j, b);
    }
    assert(k >= 0) by {
        vstd::arithmetic::div_mod::lemma_div_pos_is_pos(j, b);
    }
    assert(k < q) by (nonlinear_arith)
        requires
            j == b * k + j % b,
            m == b * q,
            j < m,
            0 <= j % b,
            b > 0,
    ;
    assert(k * b + r < m) by (nonlinear_arith)
        requires
            k < q,
            m == b * q,
            r < b,
            b > 0,
    ;
    assert(k * b >= 0) by (nonlinear_arith)
        requires
            k >= 0,
            b > 0,
    ;
    vstd::arithmetic::div_mod::lemma_fundamental_div_mod_converse(k * b + r, b, k, r);
}

/// Facts on the rounded-up length.
pub proof fn lemma_padded_len(l: int, b: int)
    requires
        b > 0,
        l >= 0,
    ensures
        padded_len(l, b) % b == 0,
        l <= padded_len(l, b) < l + b,
        l % b == 0 ==> padded_len(l, b) == l,
{
    vstd::arithmetic::div_mod::lemma_mod_bound(l, b);
    if l % b != 0 {
        vstd::arithmetic::div_mod::lemma_fundamental_div_mod(l, b);
        let q = l / b;
        assert(padded_len(l, b) == b * (q + 1)) by (nonlinear_arith)
            requires
                l == b * q + l % b,
                padded_len(l, b) == l + (b - l % b),
        ;
        vstd::arithmetic::div_mod::lemma_mod_multiples_basic(q + 1, b);
        assert(b * (q + 1) == (q + 1) * b) by (nonlinear_arith);
    }
}

/// Source and destination positions are inverse bijections on a
/// block-aligned range.
pub proof fn lemma_src_dst(p: Seq<usize>, m: int)
    requires
        is_perm(p),
        m >= 0,
        m % (p.len() as int) == 0,
    ensures
        forall|j: int| 0 <= j < m ==> 0 <= #[trigger] src_pos(p, j) < m && dst_pos(p, src_pos(p, j)) == j,
        forall|i: int| 0 <= i < m ==> 0 <= #[trigger] dst_pos(p, i) < m && src_pos(p, dst_pos(p, i)) == i,
{
    let b = p.len() as int;
    lemma_inverse(p);
    let q = perm_inverse(p);
    assert forall|j: int| 0 <= j < m implies 0 <= #[trigger] src_pos(p, j) < m && dst_pos(p, src_pos(p, j)) == j by {
        vstd::arithmetic::div_mod::lemma_mod_bound(j, b);
        let r = q[j % b] as int;
        lemma_block_pos(b, m, j, r);
        lemma_block_pos(b, m, j, j % b);
        vstd::arithmetic::div_mod::lemma_fundamental_div_mod(j, b);
        assert((j / b) * b == b * (j / b)) by (nonlinear_arith);
    }
    assert forall|i: int| 0 <= i < m implies 0 <= #[trigger] dst_pos(p, i) < m && src_pos(p, dst_pos(p, i)) == i by {
        vstd::arithmetic::div_mod::lemma_mod_bound(i, b);
        let r = p[i % b] as int;
        lemma_block_pos(b, m, i, r);
        vstd::arithmetic::div_mod::lemma_fundamental_div_mod(i, b);
        assert((i / b) * b == b * (i / b)) by (nonlinear_arith);
    }
}

/// The layout is a bijection on `0..padded_len`.
pub proof fn lemma_layout(p: Seq<usize>, l: int)
    requires
        is_perm(p),
        l >= 0,
    ensures
        layout(p, l).len() == padded_len(l, p.len() as int),
        forall|j: int| 0 <= j < layout(p, l).len() ==> 0 <= #[trigger] layout(p, l)[j] < layout(p, l).len(),
        forall|i: int| 0 <= i < layout(p, l).len() ==> 0 <= #[trigger] dst_pos(p, i) < layout(p, l).len() && layout(p, l)[dst_pos(p, i)] == i,
        forall|a: int, b: int| 0 <= a < layout(p, l).len() && 0 <= b < layout(p, l).len() && a != b
            ==> #[trigger] layout(p, l)[a] != #[trigger] layout(p, l)[b],
{
    let b = p.len() as int;
    lemma_padded_len(l, b);
    let m = padded_len(l, b);
    lemma_src_dst(p, m);
    assert forall|x: int, y: int| 0 <= x < m && 0 <= y < m && x != y
        implies #[trigger] layout(p, l)[x] != #[trigger] layout(p, l)[y] by {
        assert(dst_pos(p, src_pos(p, x)) == x);
        assert(dst_pos(p, src_pos(p, y)) == y);
    }
}

/// Filtering a prefix gives a prefix of the filtered sequence.
pub proof fn lemma_filter_prefix(a: Seq<int>, pred: spec_fn(int) -> bool, n: int)
    requires
        0 <= n <= a.len(),
    ensures
        a.take(n).filter(pred).len() <= a.filter(pred).len(),
        forall|t: int| 0 <= t < a.take(n).filter(pred).len() ==> #[trigger] a.take(n).filter(pred)[t] == a.filter(pred)[t],
    decreases a.len() - n,
{
    if n == a.len() {
        assert(a.take(n) =~= a);
    } else {
        lemma_filter_prefix(a, pred, n + 1);
        assert(a.take(n + 1) =~= a.take(n).push(a[n]));
        a.take(n).lemma_filter_push(a[n], pred);
        let f0 = a.take(n).filter(pred);
        let f1 = a.take(n + 1).filter(pred);
        assert forall|t: int| 0 <= t < f0.len() implies #[trigger] f0[t] == a.filter(pred)[t] by {
            assert(f1[t] == f0[t]);
            assert(f1[t] == a.filter(pred)[t]);
        }
    }
}

/// Filtering keeps a sequence free of duplicates.
pub proof fn lemma_filter_no_dup(a: Seq<int>, pred: spec_fn(int) -> bool)
    requires
        a.no_duplicates(),
    ensures
        a.filter(pred).no_duplicates(),
    decreases a.len(),
{
    if a.len() == 0 {
        reveal(Seq::filter);
    } else {
        let rest = a.drop_last();
        let last = a.last();
        assert(rest.no_duplicates());
        lemma_filter_no_dup(rest, pred);
        assert(a =~= rest.push(last));
        rest.lemma_filter_push(last, pred);
        let f0 = rest.filter(pred);
        if pred(last) {
            assert(!f0.contains(last)) by {
                if f0.contains(last) {
                    rest.lemma_filter_contains_rev(pred, last);
                    let k = choose|k: int| 0 <= k < rest.len() && rest[k] == last;
                    assert(a[k] == a[a.len() - 1]);
                }
            }
            let f1 = f0.push(last);
            assert forall|x: int, y: int| 0 <= x < f1.len() && 0 <= y < f1.len() && x != y implies f1[x] != f1[y] by {
                if x == f0.len() {
                    assert(f0.contains(f1[y]));
                } else if y == f0.len() {
                    assert(f0.contains(f1[x]));
                }
            }
        }
    }
}

/// Where the predicate holds at `k`, the filtered sequence shows `a[k]` at the rank of `k`.
pub proof fn lemma_rank(a: Seq<int>, pred: spec_fn(int) -> bool, k: int)
    requires
        0 <= k < a.len(),
        pred(a[k]),
    ensures
        a.take(k).filter(pred).len() < a.filter(pred).len(),
        a.filter(pred)[a.take(k).filter(pred).len() as int] == a[k],
{
    lemma_filter_prefix(a, pred, k + 1);
    assert(a.take(k + 1) =~= a.take(k).push(a[k]));
    a.take(k).lemma_filter_push(a[k], pred);
    let t = a.take(k).filter(pred).len() as int;
    assert(a.take(k + 1).filter(pred)[t] == a[k]);
    assert(a.take(k + 1).filter(pred)[t] == a.filter(pred)[t]);
}

/// The unpadding order lists every input position exactly once, and the
/// rank of the slot that position `i` is sent to finds it again.
pub proof fn lemma_kept(p: Seq<usize>, l: int)
    requires
        is_perm(p),
        l >= 0,
    ensures
        kept(p, l).len() == l,
        kept(p, l).no_duplicates(),
        forall|t: int| 0 <= t < l ==> 0 <= #[trigger] kept(p, l)[t] < l,
        forall|i: int| 0 <= i < l ==> 0 <= #[trigger] rank(p, l, dst_pos(p, i)) < l
            && kept(p, l)[rank(p, l, dst_pos(p, i))] == i,
{
    let a = layout(p, l);
    let pred = below(l);
    let f = kept(p, l);
    lemma_layout(p, l);
    lemma_padded_len(l, p.len() as int);
    // values
    assert forall|t: int| 0 <= t < f.len() implies 0 <= #[trigger] f[t] < l by {
        assert(f.contains(f[t]));
        a.lemma_filter_contains_rev(pred, f[t]);
        a.lemma_filter_pred(pred, t);
    }
    // each position is found again through its rank
    assert forall|i: int| 0 <= i < l implies 0 <= #[trigger] rank(p, l, dst_pos(p, i)) < f.len()
        && f[rank(p, l, dst_pos(p, i))] == i by {
        let k = dst_pos(p, i);
        assert(a[k] == i);
        lemma_rank(a, pred, k);
    }
    // no duplicates
    assert(a.no_duplicates()) by {
        assert forall|x: int, y: int| 0 <= x < a.len() && 0 <= y < a.len() && x != y implies a[x] != a[y] by {
            assert(layout(p, l)[x] != layout(p, l)[y]);
        }
    }
    lemma_filter_no_dup(a, pred);
    f.unique_seq_to_set();
    lemma_int_range(0, l);
    assert(f.to_set() =~= set_int_range(0, l)) by {
        assert forall|x: int| f.to_set().contains(x) implies set_int_range(0, l).contains(x) by {
            let t = choose|t: int| 0 <= t < f.len() && f[t] == x;
        }
        assert forall|x: int| set_int_range(0, l).contains(x) implies f.to_set().contains(x) by {
            assert(f[rank(p, l, dst_pos(p, x))] == x);
        }
    }
}

/// Padded decryption with the input length as token undoes padded encryption.
pub proof fn lemma_pad_round_trip<T>(p: Seq<usize>, s: Seq<T>, fill: T)
    requires
        is_perm(p),
    ensures
        pad_decrypt(p, pad_encrypt(p, s, fill), s.len() as int) == s,
        pad_encrypt(p, s, fill).len() == padded_len(s.len() as int, p.len() as int),
        (pad_encrypt(p, s, fill).len() as int) % (p.len() as int) == 0,
{
    let l = s.len() as int;
    lemma_layout(p, l);
    lemma_padded_len(l, p.len() as int);
    let c = pad_encrypt(p, s, fill);
    let d = pad_decrypt(p, c, l);
    assert forall|i: int| 0 <= i < l implies d[i] == s[i] by {
        assert(layout(p, l)[dst_pos(p, i)] == i);
    }
    assert(d =~= s);
}

/// Unpadded decryption undoes unpadded encryption, and the length is kept.
pub proof fn lemma_unpad_round_trip<T>(p: Seq<usize>, s: Seq<T>)
    requires
        is_perm(p),
    ensures
        unpad_encrypt(p, s).len() == s.len(),
        unpad_decrypt(p, unpad_encrypt(p, s)) == s,
{
    let l = s.len() as int;
    lemma_kept(p, l);
    let c = unpad_encrypt(p, s);
    let d = unpad_decrypt(p, c);
    assert forall|i: int| 0 <= i < l implies d[i] == s[i] by {
        let t = rank(p, l, dst_pos(p, i));
        assert(kept(p, l)[t] == i);
    }
    assert(d =~= s);
}

pub proof fn lemma_as_ints_push(s: Seq<usize>, v: usize)
    ensures
        as_ints(s.push(v)) == as_ints(s).push(v as int),
{
    assert(as_ints(s.push(v)) =~= as_ints(s).push(v as int));
}

/// Rounds `len` up to a multiple of `b`.
pub fn round_up(len: usize, b: usize) -> (r: usize)
    requires
        b > 0,
        padded_len(len as int, b as int) <= usize::MAX,
    ensures
        r as int == padded_len(len as int, b as int),
{
    if len % b == 0 {
        len
    } else {
        len + (b - len % b)
    }
}

/// The layout of a padded encryption of `len` symbols, computed from the
/// inverse `inv` of the block permutation `perm`.
pub fn pad_layout(perm: &[usize], inv: &[usize], len: usize) -> (r: Vec<usize>)
    requires
        is_perm(perm@),
        inv@ == perm_inverse(perm@),
        padded_len(len as int, perm@.len() as int) <= usize::MAX,
    ensures
        as_ints(r@) == layout(perm@, len as int),
{
    let b = perm.len();
    let m = round_up(len, b);
    proof {
        lemma_inverse(perm@);
        lemma_padded_len(len as int, b as int);
    }
    let mut r: Vec<usize> = Vec::with_capacity(m);
    let mut j: usize = 0;
    while j < m
        invariant
            is_perm(perm@),
            is_perm(inv@),
            inv@ == perm_inverse(perm@),
            b == perm@.len(),
            inv@.len() == b,
            m as int == padded_len(len as int, b as int),
            (m as int) % (b as int) == 0,
            0 <= j <= m,
            as_ints(r@) == layout(perm@, len as int).take(j as int),
        decreases m - j,
    {
        let k = j % b;
        let q = inv[k];
        proof {
            lemma_block_pos(b as int, m as int, j as int, q as int);
            lemma_block_pos(b as int, m as int, j as int, 0);
        }
        let v = (j / b) * b + q;
        let ghost before = r@;
        r.push(v);
        proof {
            assert(v as int == src_pos(perm@, j as int));
            lemma_as_ints_push(before, v);
            assert(layout(perm@, len as int).take(j + 1) =~= layout(perm@, len as int).take(j as int).push(layout(perm@, len as int)[j as int]));
            assert(as_ints(r@) =~= layout(perm@, len as int).take(j + 1));
        }
        j = j + 1;
    }
    proof {
        assert(as_ints(r@) =~= layout(perm@, len as int));
    }
    r
}

/// The unpadding order of `len` symbols: the layout with its holes dropped.
pub fn unpad_layout(perm: &[usize], inv: &[usize], len: usize) -> (r: Vec<usize>)
    requires
        is_perm(perm@),
        inv@ == perm_inverse(perm@),
        padded_len(len as int, perm@.len() as int) <= usize::MAX,
    ensures
        as_ints(r@) == kept(perm@, len as int),
{
    let full = pad_layout(perm, inv, len);
    let ghost a = layout(perm@, len as int);
    let mut r: Vec<usize> = Vec::with_capacity(len);
    let mut j: usize = 0;
    while j < full.len()
        invariant
            as_ints(full@) == a,
            0 <= j <= full@.len(),
            as_ints(r@) == a.take(j as int).filter(below(len as int)),
        decreases full@.len() - j,
    {
        let x = full[j];
        proof {
            assert(a.take(j + 1) =~= a.take(j as int).push(a[j as int]));
            a.take(j as int).lemma_filter_push(a[j as int], below(len as int));
            assert(a[j as int] == x as int);
        }
        if x < len {
            r.push(x);
        }
        proof {
            assert(as_ints(r@) =~= a.take(j + 1).filter(below(len as int)));
        }
        j = j + 1;
    }
    proof {
        assert(a.take(full@.len() as int) =~= a);
    }
    r
}

/// The map of a padded decryption: the first `min(token, c_len)` positions,
/// each read from the slot it was sent to.
pub fn pad_restore(perm: &[usize], c_len: usize, token: usize) -> (r: Vec<usize>)
    requires
        is_perm(perm@),
        (c_len as int) % (perm@.len() as int) == 0,
    ensures
        as_ints(r@) == pad_restore_map(perm@, c_len as int, token as int),
        forall|i: int| 0 <= i < r@.len() ==> (#[trigger] r@[i] as int) < c_len,
{
    let b = perm.len();
    let n = if token < c_len { token } else { c_len };
    proof {
        lemma_src_dst(perm@, c_len as int);
    }
    let mut r: Vec<usize> = Vec::with_capacity(n);
    let mut i: usize = 0;
    while i < n
        invariant
            is_perm(perm@),
            b == perm@.len(),
            (c_len as int) % (b as int) == 0,
            n <= c_len,
            n == if token < c_len { token } else { c_len },
            0 <= i <= n,
            forall|x: int| 0 <= x < c_len ==> 0 <= #[trigger] dst_pos(perm@, x) < c_len,
            as_ints(r@) == pad_restore_map(perm@, c_len as int, token as int).take(i as int),
            forall|x: int| 0 <= x < r@.len() ==> (#[trigger] r@[x] as int) < c_len,
        decreases n - i,
    {
        let k = i % b;
        let q = perm[k];
        proof {
            lemma_block_pos(b as int, c_len as int, i as int, q as int);
            lemma_block_pos(b as int, c_len as int, i as int, 0);
        }
        let v = (i / b) * b + q;
        let ghost before = r@;
        r.push(v);
        proof {
            assert(v as int == dst_pos(perm@, i as int));
            lemma_as_ints_push(before, v);
            assert(pad_restore_map(perm@, c_len as int, token as int).take(i + 1) =~= pad_restore_map(perm@, c_len as int, token as int).take(i as int).push(pad_restore_map(perm@, c_len as int, token as int)[i as int]));
            assert(as_ints(r@) =~= pad_restore_map(perm@, c_len as int, token as int).take(i + 1));
        }
        i = i + 1;
    }
    proof {
        assert(as_ints(r@) =~= pad_restore_map(perm@, c_len as int, token as int));
    }
    r
}

/// The map of an unpadded decryption of `c_len` symbols.
pub fn unpad_restore(perm: &[usize], inv: &[usize], c_len: usize) -> (r: Vec<usize>)
    requires
        is_perm(perm@),
        inv@ == perm_inverse(perm@),
        padded_len(c_len as int, perm@.len() as int) <= usize::MAX,
    ensures
        as_ints(r@) == unpad_restore_map(perm@, c_len as int),
        forall|i: int| 0 <= i < r@.len() ==> (#[trigger] r@[i] as int) < c_len,
{
    let b = perm.len();
    let full = pad_layout(perm, inv, c_len);
    let ghost a = layout(perm@, c_len as int);
    proof {
        lemma_layout(perm@, c_len as int);
        lemma_kept(perm@, c_len as int);
        lemma_padded_len(c_len as int, b as int);
    }
    // ranks[k]: how many real symbols precede slot k
    let mut ranks: Vec<usize> = Vec::with_capacity(full.len());
    let mut count: usize = 0;
    let mut k: usize = 0;
    while k < full.len()
        invariant
            as_ints(full@) == a,
            a == layout(perm@, c_len as int),
            0 <= k <= full@.len(),
            ranks@.len() == k,
            count as int == a.take(k as int).filter(below(c_len as int)).len(),
            count <= c_len,
            forall|x: int| 0 <= x < k ==> #[trigger] ranks@[x] as int == rank(perm@, c_len as int, x),
            kept(perm@, c_len as int).len() == c_len,
        decreases full@.len() - k,
    {
        ranks.push(count);
        let x = full[k];
        proof {
            assert(a.take(k + 1) =~= a.take(k as int).push(a[k as int]));
            a.take(k as int).lemma_filter_push(a[k as int], below(c_len as int));
            assert(a[k as int] == x as int);
            lemma_filter_prefix(a, below(c_len as int), k + 1);
        }
        if x < c_len {
            count = count + 1;
        }
        k = k + 1;
    }
    let mut r: Vec<usize> = Vec::with_capacity(c_len);
    let mut i: usize = 0;
    while i < c_len
        invariant
            is_perm(perm@),
            b == perm@.len(),
            ranks@.len() == a.len(),
            a.len() == padded_len(c_len as int, b as int),
            a.len() <= usize::MAX,
            (a.len() as int) % (b as int) == 0,
            c_len <= a.len(),
            forall|x: int| 0 <= x < a.len() ==> #[trigger] ranks@[x] as int == rank(perm@, c_len as int, x),
            forall|x: int| 0 <= x < c_len ==> 0 <= #[trigger] rank(perm@, c_len as int, dst_pos(perm@, x)) < c_len,
            0 <= i <= c_len,
            as_ints(r@) == unpad_restore_map(perm@, c_len as int).take(i as int),
            forall|x: int| 0 <= x < r@.len() ==> (#[trigger] r@[x] as int) < c_len,
        decreases c_len - i,
    {
        let q = perm[i % b];
        proof {
            lemma_block_pos(b as int, a.len() as int, i as int, q as int);
            lemma_block_pos(b as int, a.len() as int, i as int, 0);
        }
        let slot = (i / b) * b + q;
        let v = ranks[slot];
        let ghost before = r@;
        r.push(v);
        proof {
            assert(slot as int == dst_pos(perm@, i as int));
            lemma_as_ints_push(before, v);
            assert(unpad_restore_map(perm@, c_len as int).take(i + 1) =~= unpad_restore_map(perm@, c_len as int).take(i as int).push(unpad_restore_map(perm@, c_len as int)[i as int]));
            assert(as_ints(r@) =~= unpad_restore_map(perm@, c_len as int).take(i + 1));
        }
        i = i + 1;
    }
    proof {
        assert(as_ints(r@) =~= unpad_restore_map(perm@, c_len as int));
    }
    r
}

/// Builds the output that `map` describes: position `j` takes `data[map[j]]`,
/// or `fill` where `map[j]` is past the end of `data`.
pub fn gather_by_map<T: Copy>(data: &[T], map: &[usize], fill: T) -> (r: Vec<T>)
    ensures
        r@ == gather(data@, as_ints(map@), fill),
{
    let mut r: Vec<T> = Vec::with_capacity(map.len());
    let mut j: usize = 0;
    while j < map.len()
        invariant
            0 <= j <= map@.len(),
            r@ == gather(data@, as_ints(map@), fill).take(j as int),
        decreases map@.len() - j,
    {
        let k = map[j];
        if k < data.len() {
            r.push(data[k]);
        } else {
            r.push(fill);
        }
        proof {
            assert(r@ =~= gather(data@, as_ints(map@), fill).take(j + 1));
        }
        j = j + 1;
    }
    proof {
        assert(r@ =~= gather(data@, as_ints(map@), fill));
    }
    r
}

/// The four regimes expressed through their maps.
pub proof fn lemma_regimes_as_maps<T>(p: Seq<usize>, s: Seq<T>, c: Seq<T>, token: int, fill: T)
    requires
        is_perm(p),
        token >= 0,
    ensures
        pad_encrypt(p, s, fill) == gather(s, layout(p, s.len() as int), fill),
        unpad_encrypt(p, s) == gather(s, kept(p, s.len() as int), fill),
        (c.len() as int) % (p.len() as int) == 0 ==> pad_decrypt(p, c, token) == gather(
            c,
            pad_restore_map(p, c.len() as int, token),
            fill,
        ),
        unpad_decrypt(p, c) == gather(c, unpad_restore_map(p, c.len() as int), fill),
{
    lemma_kept(p, s.len() as int);
    assert(unpad_encrypt(p, s) =~= gather(s, kept(p, s.len() as int), fill));
    if (c.len() as int) % (p.len() as int) == 0 {
        lemma_src_dst(p, c.len() as int);
        let g = gather(c, pad_restore_map(p, c.len() as int, token), fill);
        assert forall|i: int| 0 <= i < g.len() implies g[i] == pad_decrypt(p, c, token)[i] by {
            assert(0 <= dst_pos(p, i) < c.len());
        }
        assert(pad_decrypt(p, c, token) =~= gather(c, pad_restore_map(p, c.len() as int, token), fill));
    }
    lemma_kept(p, c.len() as int);
    assert(unpad_decrypt(p, c) =~= gather(c, unpad_restore_map(p, c.len() as int), fill));
}

} // verus!
