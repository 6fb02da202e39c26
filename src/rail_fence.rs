//! The rail-fence transposer: positions are laid out on a zig-zag fence of
//! `rows` rails and read rail by rail.

use vstd::prelude::*;
use crate::cyphers::{BlockEncrypt, Blocky, IndexEncrypt};
use crate::error::CipherError;
use crate::permutation::is_perm;

verus! {

/// The rail of position `j` on a fence of `rows` rails that starts on rail 0
/// moving down and turns at the top and bottom rails.
pub open spec fn rail_row(rows: int, j: int) -> int {
    if rows <= 1 {
        0
    } else {
        let period = 2 * (rows - 1);
        let m = j % period;
        if m < rows {
            m
        } else {
            period - m
        }
    }
}

/// Position `k` is read before position `j`: on a higher rail, or on the
/// same rail further left.
pub open spec fn read_before(rows: int, k: int, j: int) -> bool {
    rail_row(rows, k) < rail_row(rows, j) || (rail_row(rows, k) == rail_row(rows, j) && k < j)
}

/// How many of the positions `0..n` are read before `j`.
pub open spec fn count_read_before(rows: int, n: int, j: int) -> int
    decreases n,
{
    if n <= 0 {
        0
    } else {
        count_read_before(rows, n - 1, j) + if read_before(rows, n - 1, j) {
            1int
        } else {
            0int
        }
    }
}

/// The encrypt permutation: position `j` goes to its rank in the read order.
pub open spec fn rail_perm(rows: int, columns: int) -> Seq<usize> {
    Seq::new(columns as nat, |j: int| count_read_before(rows, columns, j) as usize)
}

proof fn lemma_count_bounds(rows: int, n: int, j: int)
    requires
        n >= 0,
    ensures
        0 <= count_read_before(rows, n, j) <= n,
        0 <= j < n ==> count_read_before(rows, n, j) < n,
    decreases n,
{
    if n > 0 {
        lemma_count_bounds(rows, n - 1, j);
    }
}

/// What is read before `a` is read before `b` when `a` is; `a` itself adds one.
proof fn lemma_count_mono(rows: int, n: int, a: int, b: int)
    requires
        n >= 0,
        read_before(rows, a, b),
    ensures
        count_read_before(rows, n, a) + (if 0 <= a < n { 1int } else { 0int }) <= count_read_before(rows, n, b),
    decreases n,
{
    if n > 0 {
        lemma_count_mono(rows, n - 1, a, b);
    }
}

/// The rail-fence indices form a permutation.
pub proof fn lemma_rail_perm(rows: int, columns: int)
    requires
        1 <= rows < columns <= usize::MAX,
    ensures
        is_perm(rail_perm(rows, columns)),
{
    let p = rail_perm(rows, columns);
    assert forall|i: int| 0 <= i < columns implies (#[trigger] p[i] as int) < columns
        && p[i] as int == count_read_before(rows, columns, i) by {
        lemma_count_bounds(rows, columns, i);
    }
    assert forall|a: int, b: int| 0 <= a < columns && 0 <= b < columns && a != b implies #[trigger] p[a]
        != #[trigger] p[b] by {
        lemma_count_bounds(rows, columns, a);
        lemma_count_bounds(rows, columns, b);
        if read_before(rows, a, b) {
            lemma_count_mono(rows, columns, a, b);
        } else {
            lemma_count_mono(rows, columns, b, a);
        }
    }
}

proof fn lemma_two_rail_count(n: int, j: int)
    requires
        n >= 0,
        j >= 0,
    ensures
        j % 2 == 0 ==> count_read_before(2, n, j) == ((if n < j { n } else { j }) + 1) / 2,
        j % 2 == 1 ==> count_read_before(2, n, j) == (n + 1) / 2 + (if n < j { n } else { j }) / 2,
    decreases n,
{
    if n > 0 {
        let k = n - 1;
        lemma_two_rail_count(k, j);
        assert(rail_row(2, k) == k % 2);
        assert(rail_row(2, j) == j % 2);
    }
}

/// Two rails over at least three positions give a valid permutation that is
/// not the identity: even positions go to `j / 2`, odd positions to
/// `(columns + 1) / 2 + j / 2`.
pub proof fn lemma_two_rails(columns: int)
    requires
        3 <= columns <= usize::MAX,
    ensures
        is_perm(rail_perm(2, columns)),
        forall|j: int| 0 <= j < columns ==> #[trigger] rail_perm(2, columns)[j] as int == if j % 2 == 0 {
            j / 2
        } else {
            (columns + 1) / 2 + j / 2
        },
        rail_perm(2, columns)[1] != 1,
{
    lemma_rail_perm(2, columns);
    assert forall|j: int| 0 <= j < columns implies #[trigger] rail_perm(2, columns)[j] as int == if j % 2 == 0 {
        j / 2
    } else {
        (columns + 1) / 2 + j / 2
    } by {
        lemma_two_rail_count(columns, j);
        lemma_count_bounds(2, columns, j);
    }
    assert(rail_perm(2, columns)[1] as int == (columns + 1) / 2);
}

/// Rail fence of `rows` rails over blocks of `columns` positions, `1 <= rows < columns`.
#[derive(Debug, PartialEq, Eq)]
pub struct RailFenceCypher {
    pub(crate) rows: usize,
    pub(crate) columns: usize,
}

impl View for RailFenceCypher {
    /// (rows, columns)
    type V = (usize, usize);

    closed spec fn view(&self) -> (usize, usize) {
        (self.rows, self.columns)
    }
}

impl RailFenceCypher {
    #[verifier::type_invariant]
    pub open spec fn wf(&self) -> bool {
        1 <= self@.0 < self@.1
    }

    /// Fails with `InvalidConfig` unless `1 <= rows < columns`.
    pub fn try_new(rows: usize, columns: usize) -> (r: Result<Self, CipherError>)
        ensures
            r is Ok <==> 1 <= rows < columns,
            r matches Ok(c) ==> c@ == (rows, columns),
            r is Err ==> r == Err::<Self, CipherError>(CipherError::InvalidConfig),
    {
        if rows == 0 || columns == 0 || rows >= columns {
            return Err(CipherError::InvalidConfig);
        }
        Ok(RailFenceCypher { rows, columns })
    }

    pub fn rows(&self) -> (r: usize)
        ensures
            r == self@.0,
    {
        self.rows
    }

    pub fn columns(&self) -> (r: usize)
        ensures
            r == self@.1,
    {
        self.columns
    }
}

/// The rail of position `j`, computed without overflow.
fn row_of(rows: usize, j: usize) -> (r: usize)
    requires
        rows >= 1,
    ensures
        r as int == rail_row(rows as int, j as int),
        r < rows,
{
    if rows == 1 {
        0
    } else {
        let period: u128 = 2 * (rows as u128 - 1);
        let m: u128 = (j as u128) % period;
        if m < rows as u128 {
            m as usize
        } else {
            (period - m) as usize
        }
    }
}

impl Blocky for RailFenceCypher {
    open spec fn block_size_spec(&self) -> nat {
        self@.1 as nat
    }

    fn get_block_size(&self) -> (r: usize) {
        self.columns
    }
}

impl IndexEncrypt for RailFenceCypher {
    open spec fn encrypt_indices_spec(&self) -> Seq<usize> {
        rail_perm(self@.0 as int, self@.1 as int)
    }

    fn encrypt_indices(&self) -> (r: Vec<usize>) {
        proof {
            use_type_invariant(self);
            lemma_rail_perm(self.rows as int, self.columns as int);
        }
        let rows = self.rows;
        let columns = self.columns;
        let mut r: Vec<usize> = Vec::with_capacity(columns);
        let mut j: usize = 0;
        while j < columns
            invariant
                1 <= rows < columns,
                0 <= j <= columns,
                r@ == rail_perm(rows as int, columns as int).take(j as int),
            decreases columns - j,
        {
            let rj = row_of(rows, j);
            let mut count: usize = 0;
            let mut k: usize = 0;
            while k < columns
                invariant
                    1 <= rows < columns,
                    0 <= j < columns,
                    0 <= k <= columns,
                    rj as int == rail_row(rows as int, j as int),
                    count as int == count_read_before(rows as int, k as int, j as int),
                    count <= k,
                decreases columns - k,
            {
                let rk = row_of(rows, k);
                if rk < rj || (rk == rj && k < j) {
                    count = count + 1;
                }
                k = k + 1;
            }
            r.push(count);
            proof {
                assert(r@ =~= rail_perm(rows as int, columns as int).take(j + 1));
            }
            j = j + 1;
        }
        proof {
            assert(r@ =~= rail_perm(rows as int, columns as int));
        }
        r
    }
}

impl BlockEncrypt for RailFenceCypher {}

} // verus!
