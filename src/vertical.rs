//! The vertical (columnar) transposer: a block is written row by row into
//! a `rows x columns` grid, the columns are reordered by a permutation, and
//! the grid is read column by column.

use vstd::prelude::*;
use crate::cyphers::{BlockEncrypt, Blocky, IndexEncrypt};
use crate::error::CipherError;
use crate::permutation::{
    SimplePermutation, invert, is_perm, lemma_inverse, perm_inverse,
};

verus! {

/// Output position `i` of a vertical reading shows input position
/// `(i % rows) * columns + column`, where `column` is the grid column that the
/// permutation sends to bucket `i / rows`.
pub open spec fn vertical_source(rows: int, columns: int, pi: Seq<usize>, i: int) -> int {
    (i % rows) * columns + perm_inverse(pi)[i / rows] as int
}

/// The encrypt indices: the vertical reading of the identity block.
pub open spec fn vertical_perm(rows: int, columns: int, pi: Seq<usize>) -> Seq<usize> {
    Seq::new((rows * columns) as nat, |i: int| vertical_source(rows, columns, pi, i) as usize)
}

proof fn lemma_source_parts(rows: int, columns: int, pi: Seq<usize>, i: int)
    requires
        rows >= 1,
        columns >= 1,
        is_perm(pi),
        pi.len() == columns,
        0 <= i < rows * columns,
    ensures
        0 <= i / rows < columns,
        0 <= i % rows < rows,
        0 <= vertical_source(rows, columns, pi, i) < rows * columns,
        vertical_source(rows, columns, pi, i) / columns == i % rows,
        vertical_source(rows, columns, pi, i) % columns == perm_inverse(pi)[i / rows] as int,
{
    lemma_inverse(pi);
    let q = i / rows;
    let t = i % rows;
    vstd::arithmetic::div_mod::lemma_fundamental_div_mod(i, rows);
    vstd::arithmetic::div_mod::lemma_mod_bound(i, rows);
    vstd::arithmetic::div_mod::lemma_div_pos_is_pos(i, rows);
    assert(q < columns) by (nonlinear_arith)
        requires
            i == rows * q + t,
            0 <= t,
            i < rows * columns,
            rows >= 1,
    ;
    let k = perm_inverse(pi)[q] as int;
    assert(0 <= k < columns);
    assert(0 <= t * columns + k < rows * columns) by (nonlinear_arith)
        requires
            0 <= t < rows,
            0 <= k < columns,
    ;
    vstd::arithmetic::div_mod::lemma_fundamental_div_mod_converse(t * columns + k, columns, t, k);
}

/// The vertical indices form a permutation.
pub proof fn lemma_vertical_perm(rows: int, columns: int, pi: Seq<usize>)
    requires
        rows >= 1,
        columns >= 1,
        rows * columns <= usize::MAX,
        is_perm(pi),
        pi.len() == columns,
    ensures
        is_perm(vertical_perm(rows, columns, pi)),
{
    lemma_inverse(pi);
    let v = vertical_perm(rows, columns, pi);
    assert(rows * columns >= 1) by (nonlinear_arith)
        requires
            rows >= 1,
            columns >= 1,
    ;
    assert forall|i: int| 0 <= i < v.len() implies (#[trigger] v[i] as int) < v.len() by {
        lemma_source_parts(rows, columns, pi, i);
    }
    assert forall|a: int, b: int| 0 <= a < v.len() && 0 <= b < v.len() && a != b implies #[trigger] v[a]
        != #[trigger] v[b] by {
        lemma_source_parts(rows, columns, pi, a);
        lemma_source_parts(rows, columns, pi, b);
        if v[a] == v[b] {
            let qa = a / rows;
            let qb = b / rows;
            assert(perm_inverse(pi)[qa] == perm_inverse(pi)[qb]);
            assert(qa == qb);
            vstd::arithmetic::div_mod::lemma_fundamental_div_mod(a, rows);
            vstd::arithmetic::div_mod::lemma_fundamental_div_mod(b, rows);
        }
    }
}

/// Columnar transposition of a `rows x columns` block; `permutation` sends
/// grid column `i` to bucket `permutation[i]`.
#[derive(Debug, PartialEq, Eq)]
pub struct VerticalPermutation {
    pub(crate) rows: usize,
    pub(crate) columns: usize,
    pub(crate) permutation: SimplePermutation,
}

impl View for VerticalPermutation {
    /// (rows, columns, column permutation)
    type V = (usize, usize, Seq<usize>);

    closed spec fn view(&self) -> (usize, usize, Seq<usize>) {
        (self.rows, self.columns, self.permutation@)
    }
}

/// The constraints on a vertical transposer's shape.
pub open spec fn vertical_ok(rows: int, columns: int, pi: Seq<usize>) -> bool {
    &&& rows >= 1
    &&& columns >= 1
    &&& rows * columns <= usize::MAX
    &&& is_perm(pi)
    &&& pi.len() == columns
}

impl VerticalPermutation {
    #[verifier::type_invariant]
    pub open spec fn wf(&self) -> bool {
        vertical_ok(self@.0 as int, self@.1 as int, self@.2)
    }

    /// Fails with `InvalidConfig` when `rows` or `columns` is zero, when the
    /// permutation's size differs from `columns`, or when the block size
    /// `rows * columns` does not fit in a `usize`.
    pub fn try_new(rows: usize, columns: usize, permutation: SimplePermutation) -> (r: Result<
        Self,
        CipherError,
    >)
        ensures
            r is Ok <==> (rows >= 1 && columns >= 1 && rows * columns <= usize::MAX
                && permutation@.len() == columns),
            r matches Ok(v) ==> v@ == (rows, columns, permutation@),
            r is Err ==> r == Err::<Self, CipherError>(CipherError::InvalidConfig),
    {
        proof {
            use_type_invariant(&permutation);
        }
        if rows == 0 || columns == 0 {
            return Err(CipherError::InvalidConfig);
        }
        if permutation.indices().len() != columns {
            return Err(CipherError::InvalidConfig);
        }
        match rows.checked_mul(columns) {
            None => Err(CipherError::InvalidConfig),
            Some(_) => Ok(VerticalPermutation { rows, columns, permutation }),
        }
    }

    pub fn rows(&self) -> (r: usize)
        ensures
            r == self@.0,
    {
        self.rows
    }

    pub fn columns(&self) -> (r: usize)
        ensures
            r == self@.1,
    {
        self.columns
    }

    pub fn permutation(&self) -> (r: &SimplePermutation)
        ensures
            r@ == self@.2,
    {
        &self.permutation
    }

    /// Splits `data` row by row into `columns` column buckets, places bucket
    /// `i` at position `permutation[i]`, and concatenates the buckets.
    pub fn run<T: Copy>(&self, data: Vec<T>) -> (r: Vec<T>)
        requires
            data@.len() == self@.0 * self@.1,
        ensures
            r@ == Seq::new(
                data@.len(),
                |i: int| data@[vertical_source(self@.0 as int, self@.1 as int, self@.2, i)],
            ),
    {
        proof {
            use_type_invariant(self);
            lemma_inverse(self@.2);
        }
        let rows = self.rows;
        let columns = self.columns;
        let n = rows * columns;
        let inv = invert(self.permutation.indices().as_slice());
        let ghost target = Seq::new(
            data@.len(),
            |i: int| data@[vertical_source(rows as int, columns as int, self@.2, i)],
        );
        let mut r: Vec<T> = Vec::with_capacity(n);
        let mut i: usize = 0;
        while i < n
            invariant
                vertical_ok(rows as int, columns as int, self@.2),
                n == rows * columns,
                data@.len() == n,
                inv@ == perm_inverse(self@.2),
                0 <= i <= n,
                target == Seq::new(
                    data@.len(),
                    |i: int| data@[vertical_source(rows as int, columns as int, self@.2, i)],
                ),
                r@ == target.take(i as int),
            decreases n - i,
        {
            proof {
                lemma_source_parts(rows as int, columns as int, self@.2, i as int);
            }
            let t = i % rows;
            let q = i / rows;
            let k = inv[q];
            let source = t * columns + k;
            r.push(data[source]);
            proof {
                assert(r@ =~= target.take(i + 1));
            }
            i = i + 1;
        }
        proof {
            assert(r@ =~= target);
        }
        r
    }
}

impl Blocky for VerticalPermutation {
    open spec fn block_size_spec(&self) -> nat {
        (self@.0 * self@.1) as nat
    }

    fn get_block_size(&self) -> (r: usize) {
        proof {
            use_type_invariant(self);
        }
        self.rows * self.columns
    }
}

impl IndexEncrypt for VerticalPermutation {
    open spec fn encrypt_indices_spec(&self) -> Seq<usize> {
        vertical_perm(self@.0 as int, self@.1 as int, self@.2)
    }

    fn encrypt_indices(&self) -> (r: Vec<usize>) {
        proof {
            use_type_invariant(self);
            lemma_vertical_perm(self@.0 as int, self@.1 as int, self@.2);
        }
        let n = self.rows * self.columns;
        let mut identity: Vec<usize> = Vec::with_capacity(n);
        let mut i: usize = 0;
        while i < n
            invariant
                0 <= i <= n,
                identity@ == Seq::new(i as nat, |x: int| x as usize),
            decreases n - i,
        {
            identity.push(i);
            proof {
                assert(identity@ =~= Seq::new((i + 1) as nat, |x: int| x as usize));
            }
            i = i + 1;
        }
        let r = self.run(identity);
        proof {
            assert forall|x: int| 0 <= x < n implies #[trigger] r@[x] == vertical_perm(self@.0 as int, self@.1 as int, self@.2)[x] by {
                lemma_source_parts(self@.0 as int, self@.1 as int, self@.2, x);
            }
            assert(r@ =~= vertical_perm(self@.0 as int, self@.1 as int, self@.2));
        }
        r
    }
}

impl BlockEncrypt for VerticalPermutation {}

} // verus!
