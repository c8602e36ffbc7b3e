//! The coordinate matrix, its operations, and the laws that relate them.

use vstd::prelude::*;

use crate::csr_mat::CsrMat;
use crate::error::MatError;
use crate::entries::{
    coord_lt, entries_in_shape, entries_map, key_of, lemma_entries_map_all, lemma_insert_map,
    lemma_prefix_map_step, lemma_push_map, lemma_remove_map, lemma_sorted_canonical,
    lemma_update_map, sorted_entries,
};

verus! {

/// Position `p` of a row-major sequence is where row `q` begins: every triple
/// before it lies in an earlier row, and none from it on does.
pub open spec fn row_split<V>(s: Seq<(usize, usize, V)>, p: usize, q: int) -> bool {
    &&& p <= s.len()
    &&& forall|k: int| 0 <= k < p ==> (#[trigger] s[k]).0 < q
    &&& forall|k: int| p <= k < s.len() ==> (#[trigger] s[k]).0 >= q
}

/// `c` is the compressed-row form of the row-major triples `s` of a
/// `rows` x `columns` matrix.
pub open spec fn compresses<V>(
    s: Seq<(usize, usize, V)>,
    rows: nat,
    columns: nat,
    c: CsrMat<V>,
) -> bool {
    &&& c.rows == rows
    &&& c.columns == columns
    &&& c.values@.len() == s.len()
    &&& c.columns_index@.len() == s.len()
    &&& c.rows_index@.len() == rows + 1
    &&& forall|k: int| 0 <= k < s.len() ==> #[trigger] c.values@[k] == s[k].2
    &&& forall|k: int| 0 <= k < s.len() ==> #[trigger] c.columns_index@[k] == s[k].1
    &&& forall|q: int| 0 <= q <= rows ==> row_split(s, #[trigger] c.rows_index@[q], q)
}

/// The compressed-row form of a well-formed coordinate sequence is well formed
/// and stores the same mapping.
pub proof fn lemma_compressed_view<V>(
    s: Seq<(usize, usize, V)>,
    rows: nat,
    columns: nat,
    c: CsrMat<V>,
)
    requires
        sorted_entries(s),
        entries_in_shape(s, rows, columns),
        compresses(s, rows, columns, c),
    ensures
        c.wf(),
        c@ == entries_map(s),
{
    let n = s.len() as int;
    assert(row_split(s, c.rows_index@[0], 0));
    assert(c.rows_index@[0] == 0) by {
        if c.rows_index@[0] > 0 {
            assert(s[0].0 < 0);
        }
    }
    assert(row_split(s, c.rows_index@[rows as int], rows as int));
    assert(c.rows_index@[rows as int] == n) by {
        if c.rows_index@[rows as int] < n {
            let k = c.rows_index@[rows as int] as int;
            assert(s[k].0 >= rows);
        }
    }
    assert forall|q: int| 0 <= q < rows implies #[trigger] c.rows_index@[q] <= c.rows_index@[q
        + 1] by {
        assert(row_split(s, c.rows_index@[q], q));
        assert(row_split(s, c.rows_index@[q + 1], q + 1));
        if c.rows_index@[q + 1] < c.rows_index@[q] {
            let k = c.rows_index@[q + 1] as int;
            assert(s[k].0 < q);
        }
    }
    assert forall|p: int| 0 <= p < c.columns_index@.len() implies #[trigger] c.columns_index@[p]
        < c.columns by {
        assert(c.columns_index@[p] == s[p].1);
    }
    assert forall|q: int, p1: int, p2: int|
        #![trigger c.rows_index@[q], c.columns_index@[p1], c.columns_index@[p2]]
        0 <= q < c.rows && c.rows_index@[q] <= p1 < p2 < c.rows_index@[q + 1] implies c.columns_index@[p1]
        < c.columns_index@[p2] by {
        assert(row_split(s, c.rows_index@[q], q));
        assert(row_split(s, c.rows_index@[q + 1], q + 1));
        assert(s[p1].0 == q && s[p2].0 == q);
        assert(c.columns_index@[p1] == s[p1].1 && c.columns_index@[p2] == s[p2].1);
        assert(coord_lt(s[p1].0 as int, s[p1].1 as int, s[p2].0 as int, s[p2].1 as int));
    }
    lemma_entries_map_all(s);
    let m = entries_map(s);
    assert forall|k: (int, int)| #[trigger] c@.contains_key(k) <==> m.contains_key(k) by {
        if c@.contains_key(k) {
            let p = choose|p: int| #[trigger] c.slot_holds(p, k);
            assert(row_split(s, c.rows_index@[k.0], k.0));
            assert(row_split(s, c.rows_index@[k.0 + 1], k.0 + 1));
            assert(c.columns_index@[p] == s[p].1);
            assert(key_of(s[p]) == k);
        }
        if m.contains_key(k) {
            let i = choose|i: int| 0 <= i < s.len() && key_of(#[trigger] s[i]) == k;
            assert(s[i].0 < rows);
            assert(row_split(s, c.rows_index@[k.0], k.0));
            assert(row_split(s, c.rows_index@[k.0 + 1], k.0 + 1));
            assert(c.columns_index@[i] == s[i].1);
            assert(c.slot_holds(i, k));
        }
    }
    assert forall|k: (int, int)| #[trigger] c@.contains_key(k) implies c@[k] == m[k] by {
        let p = choose|p: int| #[trigger] c.slot_holds(p, k);
        assert(row_split(s, c.rows_index@[k.0], k.0));
        assert(row_split(s, c.rows_index@[k.0 + 1], k.0 + 1));
        assert(c.columns_index@[p] == s[p].1);
        assert(key_of(s[p]) == k);
        assert(c.values@[p] == s[p].2);
    }
    assert(c@ =~= m);
}

/// The mapping with every coordinate `(r, c)` moved to `(c, r)`.
pub open spec fn transpose_map<V>(m: Map<(int, int), V>) -> Map<(int, int), V> {
    Map::new(|k: (int, int)| m.contains_key((k.1, k.0)), |k: (int, int)| m[(k.1, k.0)])
}

/// The mapping left after removing row `k` and moving every later row up by one.
pub open spec fn drop_row_map<V>(m: Map<(int, int), V>, k: int) -> Map<(int, int), V> {
    Map::new(
        |key: (int, int)|
            if key.0 < k {
                m.contains_key(key)
            } else {
                m.contains_key((key.0 + 1, key.1))
            },
        |key: (int, int)|
            if key.0 < k {
                m[key]
            } else {
                m[(key.0 + 1, key.1)]
            },
    )
}

/// The mapping left after removing column `k` and moving every later column left by one.
pub open spec fn drop_col_map<V>(m: Map<(int, int), V>, k: int) -> Map<(int, int), V> {
    Map::new(
        |key: (int, int)|
            if key.1 < k {
                m.contains_key(key)
            } else {
                m.contains_key((key.0, key.1 + 1))
            },
        |key: (int, int)|
            if key.1 < k {
                m[key]
            } else {
                m[(key.0, key.1 + 1)]
            },
    )
}

/// A product term `(i, j, pa, pb)` pairs triple `pa` of `a`, at `(i, k)`,
/// with triple `pb` of `b`, at `(k, j)`.
pub open spec fn term_ok<V>(
    a: Seq<(usize, usize, V)>,
    b: Seq<(usize, usize, V)>,
    t: (usize, usize, usize, usize),
) -> bool {
    &&& t.2 < a.len()
    &&& t.3 < b.len()
    &&& a[t.2 as int].1 == b[t.3 as int].0
    &&& t.0 == a[t.2 as int].0
    &&& t.1 == b[t.3 as int].1
}

/// Lexicographic order of product terms by `(pa, pb)`.
pub open spec fn term_lt(t1: (usize, usize, usize, usize), t2: (usize, usize, usize, usize)) -> bool {
    t1.2 < t2.2 || (t1.2 == t2.2 && t1.3 < t2.3)
}

/// `terms` lists, in `(pa, pb)` order and once each, every pair of a triple
/// of `a` and a triple of `b` whose inner indices meet.
pub open spec fn all_product_terms<V>(
    a: Seq<(usize, usize, V)>,
    b: Seq<(usize, usize, V)>,
    terms: Seq<(usize, usize, usize, usize)>,
) -> bool {
    &&& forall|x: int| 0 <= x < terms.len() ==> term_ok(a, b, #[trigger] terms[x])
    &&& forall|x: int, y: int|
        0 <= x < y < terms.len() ==> term_lt(#[trigger] terms[x], #[trigger] terms[y])
    &&& forall|pa: int, pb: int|
        0 <= pa < a.len() && 0 <= pb < b.len() && #[trigger] a[pa].1 == #[trigger] b[pb].0
            ==> exists|x: int|
            0 <= x < terms.len() && (#[trigger] terms[x]).2 == pa && terms[x].3 == pb
}

/// Dense materialisation of a mapping: `rows` rows of `columns` values, with
/// `zero` wherever nothing is stored.
pub open spec fn dense_of<V>(m: Map<(int, int), V>, rows: nat, columns: nat, zero: V) -> Seq<
    Seq<V>,
> {
    Seq::new(
        rows,
        |i: int|
            Seq::new(
                columns,
                |j: int|
                    if m.contains_key((i, j)) {
                        m[(i, j)]
                    } else {
                        zero
                    },
            ),
    )
}

/// A mapping built by storing each `(row, col, value)` of `e` in turn, a
/// later value at the same coordinate replacing an earlier one.
pub open spec fn build_map<V>(e: Seq<(int, int, V)>) -> Map<(int, int), V>
    decreases e.len(),
{
    if e.len() == 0 {
        Map::empty()
    } else {
        build_map(e.drop_last()).insert((e.last().0, e.last().1), e.last().2)
    }
}

/// The triples of `e` outside row `k`, those below it moved up by one row.
pub open spec fn without_row<V>(e: Seq<(int, int, V)>, k: int) -> Seq<(int, int, V)>
    decreases e.len(),
{
    if e.len() == 0 {
        Seq::empty()
    } else {
        let t = e.last();
        let rest = without_row(e.drop_last(), k);
        if t.0 == k {
            rest
        } else if t.0 > k {
            rest.push((t.0 - 1, t.1, t.2))
        } else {
            rest.push(t)
        }
    }
}

/// Dropping row `k` from a matrix built from `e` gives the matrix built from
/// the triples of `e` outside row `k`, stored at their shifted coordinates:
/// the matrix that would have resulted had row `k` never been there.
pub proof fn lemma_drop_row_rebuild<V>(e: Seq<(int, int, V)>, k: int)
    ensures
        drop_row_map(build_map(e), k) == build_map(without_row(e, k)),
    decreases e.len(),
{
    if e.len() == 0 {
        assert(drop_row_map(build_map(e), k) =~= build_map(without_row(e, k)));
    } else {
        let t = e.last();
        let rest = e.drop_last();
        lemma_drop_row_rebuild(rest, k);
        let w = without_row(rest, k);
        if t.0 == k {
            assert(drop_row_map(build_map(e), k) =~= drop_row_map(build_map(rest), k));
        } else if t.0 > k {
            let t2 = (t.0 - 1, t.1, t.2);
            assert(w.push(t2).drop_last() =~= w);
            assert(drop_row_map(build_map(e), k) =~= build_map(without_row(e, k)));
        } else {
            assert(w.push(t).drop_last() =~= w);
            assert(drop_row_map(build_map(e), k) =~= build_map(without_row(e, k)));
        }
    }
}

/// `b` holds exactly the diagonal coordinates `(q, q)` of an `n` x `n` matrix.
pub open spec fn is_diagonal_pattern<V>(b: Seq<(usize, usize, V)>, n: nat) -> bool {
    &&& b.len() == n
    &&& forall|q: int| 0 <= q < n ==> (#[trigger] b[q]).0 == q && b[q].1 == q
}

/// Some position of `f` holds `v`.
spec fn takes_value(f: Seq<int>, v: int) -> bool {
    exists|x: int| 0 <= x < f.len() && #[trigger] f[x] == v
}

/// A strictly increasing sequence with values below `n` that takes every
/// value below `n` is `0, 1, ..., n - 1`.
proof fn lemma_increasing_onto(f: Seq<int>, n: int)
    requires
        n >= 0,
        forall|x: int, y: int| 0 <= x < y < f.len() ==> #[trigger] f[x] < #[trigger] f[y],
        forall|x: int| 0 <= x < f.len() ==> 0 <= #[trigger] f[x] < n,
        forall|v: int| 0 <= v < n ==> #[trigger] takes_value(f, v),
    ensures
        f.len() == n,
        forall|x: int| 0 <= x < f.len() ==> #[trigger] f[x] == x,
{
    lemma_increasing_at_least(f);
    if n > 0 {
        lemma_onto_prefix(f, n, n - 1);
    }
    if f.len() > 0 {
        assert(f[f.len() - 1] >= f.len() - 1);
        assert(f[f.len() - 1] < n);
    }
}

proof fn lemma_increasing_at_least(f: Seq<int>)
    requires
        forall|x: int, y: int| 0 <= x < y < f.len() ==> #[trigger] f[x] < #[trigger] f[y],
        forall|x: int| 0 <= x < f.len() ==> 0 <= #[trigger] f[x],
    ensures
        forall|x: int| 0 <= x < f.len() ==> #[trigger] f[x] >= x,
    decreases f.len(),
{
    if f.len() > 0 {
        let g = f.drop_last();
        assert forall|x: int, y: int| 0 <= x < y < g.len() implies #[trigger] g[x] < #[trigger] g[y] by {
            assert(f[x] < f[y]);
        }
        lemma_increasing_at_least(g);
        assert forall|x: int| 0 <= x < f.len() implies #[trigger] f[x] >= x by {
            if x < f.len() - 1 {
                assert(g[x] == f[x]);
            } else if x > 0 {
                assert(g[x - 1] == f[x - 1]);
                assert(f[x - 1] < f[x]);
            }
        }
    }
}

proof fn lemma_onto_prefix(f: Seq<int>, n: int, v: int)
    requires
        0 <= v < n,
        forall|x: int, y: int| 0 <= x < y < f.len() ==> #[trigger] f[x] < #[trigger] f[y],
        forall|x: int| 0 <= x < f.len() ==> 0 <= #[trigger] f[x] < n,
        forall|x: int| 0 <= x < f.len() ==> #[trigger] f[x] >= x,
        forall|w: int| 0 <= w < n ==> #[trigger] takes_value(f, w),
    ensures
        v < f.len(),
        forall|y: int| 0 <= y <= v ==> y < f.len() && #[trigger] f[y] == y,
    decreases v,
{
    if v > 0 {
        lemma_onto_prefix(f, n, v - 1);
    }
    assert(takes_value(f, v));
    let x = choose|x: int| 0 <= x < f.len() && #[trigger] f[x] == v;
    if x < v {
        assert(f[x] == x);
    } else if x > v {
        assert(f[v] < f[x]);
    }
}

/// A mutable sparse matrix in coordinate form: each stored coordinate holds
/// one value, and coordinates that were never given a value read as absent.
///
/// The triples are kept sorted in row-major order, so iteration is
/// deterministic and conversion to compressed rows is a single scan.
#[derive(Debug, Clone, PartialEq)]
pub struct CooMat<V: Copy> {
    rows: usize,
    columns: usize,
    entries: Vec<(usize, usize, V)>,
}

impl<V: Copy> CooMat<V> {
    /// The stored triples are sorted, distinct and inside the shape.
    pub closed spec fn wf(&self) -> bool {
        sorted_entries(self.entries@) && entries_in_shape(
            self.entries@,
            self.rows as nat,
            self.columns as nat,
        )
    }

    /// Number of rows of the declared shape.
    pub closed spec fn spec_rows(&self) -> nat {
        self.rows as nat
    }

    /// Number of columns of the declared shape.
    pub closed spec fn spec_columns(&self) -> nat {
        self.columns as nat
    }

    /// The stored triples in row-major order.
    pub closed spec fn spec_entries(&self) -> Seq<(usize, usize, V)> {
        self.entries@
    }

    /// The stored values keyed by coordinate.
    pub open spec fn view(&self) -> Map<(int, int), V> {
        entries_map(self.spec_entries())
    }

    /// An empty `rows` x `columns` matrix.
    pub fn new(rows: usize, columns: usize) -> (r: Self)
        ensures
            r.wf(),
            r.spec_rows() == rows,
            r.spec_columns() == columns,
            r.spec_entries() == Seq::<(usize, usize, V)>::empty(),
            r@ == Map::<(int, int), V>::empty(),
    {
        let r = CooMat { rows, columns, entries: Vec::new() };
        assert(r@ =~= Map::<(int, int), V>::empty());
        r
    }

    pub fn rows(&self) -> (r: usize)
        ensures
            r == self.spec_rows(),
    {
        self.rows
    }

    pub fn columns(&self) -> (r: usize)
        ensures
            r == self.spec_columns(),
    {
        self.columns
    }

    /// Number of stored entries.
    pub fn nnz(&self) -> (r: usize)
        ensures
            r == self.spec_entries().len(),
    {
        self.entries.len()
    }

    /// The first position whose coordinate is not below `(row, col)`.
    fn lower_bound(&self, row: usize, col: usize) -> (pos: usize)
        requires
            self.wf(),
        ensures
            pos <= self.spec_entries().len(),
            forall|i: int|
                0 <= i < pos ==> coord_lt(
                    (#[trigger] self.spec_entries()[i]).0 as int,
                    self.spec_entries()[i].1 as int,
                    row as int,
                    col as int,
                ),
            forall|i: int|
                pos <= i < self.spec_entries().len() ==> !coord_lt(
                    (#[trigger] self.spec_entries()[i]).0 as int,
                    self.spec_entries()[i].1 as int,
                    row as int,
                    col as int,
                ),
    {
        let mut lo: usize = 0;
        let mut hi: usize = self.entries.len();
        while lo < hi
            invariant
                lo <= hi <= self.entries@.len(),
                sorted_entries(self.entries@),
                forall|i: int|
                    0 <= i < lo ==> coord_lt(
                        (#[trigger] self.entries@[i]).0 as int,
                        self.entries@[i].1 as int,
                        row as int,
                        col as int,
                    ),
                forall|i: int|
                    hi <= i < self.entries@.len() ==> !coord_lt(
                        (#[trigger] self.entries@[i]).0 as int,
                        self.entries@[i].1 as int,
                        row as int,
                        col as int,
                    ),
            decreases hi - lo,
        {
            let mid = lo + (hi - lo) / 2;
            let (r, c, _) = self.entries[mid];
            if r < row || (r == row && c < col) {
                assert forall|i: int| 0 <= i < mid + 1 implies coord_lt(
                    (#[trigger] self.entries@[i]).0 as int,
                    self.entries@[i].1 as int,
                    row as int,
                    col as int,
                ) by {
                    if i < mid {
                        assert(coord_lt(
                            self.entries@[i].0 as int,
                            self.entries@[i].1 as int,
                            self.entries@[mid as int].0 as int,
                            self.entries@[mid as int].1 as int,
                        ));
                    }
                }
                lo = mid + 1;
            } else {
                assert forall|i: int| mid <= i < self.entries@.len() implies !coord_lt(
                    (#[trigger] self.entries@[i]).0 as int,
                    self.entries@[i].1 as int,
                    row as int,
                    col as int,
                ) by {
                    if i > mid {
                        assert(coord_lt(
                            self.entries@[mid as int].0 as int,
                            self.entries@[mid as int].1 as int,
                            self.entries@[i].0 as int,
                            self.entries@[i].1 as int,
                        ));
                    }
                }
                hi = mid;
            }
        }
        lo
    }

    /// The value stored at `(row, col)`, or `None` where nothing is stored
    /// (including any coordinate outside the shape).
    pub fn get(&self, row: usize, col: usize) -> (r: Option<V>)
        requires
            self.wf(),
        ensures
            r.is_some() == self@.contains_key((row as int, col as int)),
            r.is_some() ==> r.unwrap() == self@[(row as int, col as int)],
    {
        proof {
            lemma_entries_map_all(self.entries@);
        }
        let pos = self.lower_bound(row, col);
        if pos < self.entries.len() && self.entries[pos].0 == row && self.entries[pos].1 == col {
            Some(self.entries[pos].2)
        } else {
            proof {
                if self@.contains_key((row as int, col as int)) {
                    let i = choose|i: int|
                        0 <= i < self.entries@.len() && key_of(#[trigger] self.entries@[i]) == (
                        row as int,
                        col as int,
                    );
                    if i < pos {
                    } else if i > pos {
                        assert(coord_lt(
                            self.entries@[pos as int].0 as int,
                            self.entries@[pos as int].1 as int,
                            self.entries@[i].0 as int,
                            self.entries@[i].1 as int,
                        ));
                    }
                }
            }
            None
        }
    }
    /// Stores `value` at `(row, col)`, replacing what was there.
    /// Fails with `IndexOutOfBounds`, changing nothing, where the coordinate is
    /// outside the shape.
    pub fn insert(&mut self, row: usize, col: usize, value: V) -> (r: Result<(), MatError>)
        requires
            old(self).wf(),
        ensures
            final(self).wf(),
            final(self).spec_rows() == old(self).spec_rows(),
            final(self).spec_columns() == old(self).spec_columns(),
            (row < old(self).spec_rows() && col < old(self).spec_columns()) ==> r == Ok::<
                (),
                MatError,
            >(()) && final(self)@ == old(self)@.insert((row as int, col as int), value),
            !(row < old(self).spec_rows() && col < old(self).spec_columns()) ==> r == Err::<
                (),
                MatError,
            >(MatError::IndexOutOfBounds) && final(self)@ == old(self)@,
    {
        if row >= self.rows || col >= self.columns {
            return Err(MatError::IndexOutOfBounds);
        }
        let pos = self.lower_bound(row, col);
        let ghost s = self.entries@;
        let t = (row, col, value);
        if pos < self.entries.len() && self.entries[pos].0 == row && self.entries[pos].1 == col {
            self.entries.set(pos, t);
            proof {
                lemma_update_map(s, pos as int, t);
            }
        } else {
            self.entries.insert(pos, t);
            proof {
                let s2 = s.insert(pos as int, t);
                assert forall|i: int, j: int| 0 <= i < j < s2.len() implies coord_lt(
                    #[trigger] s2[i].0 as int,
                    s2[i].1 as int,
                    #[trigger] s2[j].0 as int,
                    s2[j].1 as int,
                ) by {
                    if j < pos {
                        assert(s2[i] == s[i] && s2[j] == s[j]);
                    } else if j == pos {
                        assert(s2[i] == s[i]);
                    } else if i < pos {
                        assert(s2[i] == s[i] && s2[j] == s[j - 1]);
                    } else if i == pos {
                        assert(s2[j] == s[j - 1]);
                    } else {
                        assert(s2[i] == s[i - 1] && s2[j] == s[j - 1]);
                    }
                }
                lemma_insert_map(s, pos as int, t);
            }
        }
        Ok(())
    }

    /// Removes the entry at `(row, col)` if there is one.
    pub fn drop(&mut self, row: usize, col: usize)
        requires
            old(self).wf(),
        ensures
            final(self).wf(),
            final(self).spec_rows() == old(self).spec_rows(),
            final(self).spec_columns() == old(self).spec_columns(),
            final(self)@ == old(self)@.remove((row as int, col as int)),
    {
        let pos = self.lower_bound(row, col);
        let ghost s = self.entries@;
        if pos < self.entries.len() && self.entries[pos].0 == row && self.entries[pos].1 == col {
            self.entries.remove(pos);
            proof {
                lemma_remove_map(s, pos as int);
            }
        } else {
            proof {
                lemma_entries_map_all(s);
                if self@.contains_key((row as int, col as int)) {
                    let i = choose|i: int|
                        0 <= i < s.len() && key_of(#[trigger] s[i]) == (row as int, col as int);
                    if i > pos {
                        assert(coord_lt(
                            s[pos as int].0 as int,
                            s[pos as int].1 as int,
                            s[i].0 as int,
                            s[i].1 as int,
                        ));
                    }
                }
                assert(self@ =~= self@.remove((row as int, col as int)));
            }
        }
    }
    /// The compressed-row snapshot of this matrix: one scan over the
    /// row-major triples, with a boundary for every row, empty ones included.
    pub fn to_csr(&self) -> (r: CsrMat<V>)
        requires
            self.wf(),
        ensures
            compresses(self.spec_entries(), self.spec_rows(), self.spec_columns(), r),
            r.wf(),
            r.rows == self.spec_rows(),
            r.columns == self.spec_columns(),
            r@ == self@,
    {
        let ghost s = self.entries@;
        let n = self.entries.len();
        let mut values: Vec<V> = Vec::new();
        let mut columns_index: Vec<usize> = Vec::new();
        let mut rows_index: Vec<usize> = Vec::new();
        rows_index.push(0);
        let mut current_row: usize = 0;
        let mut i: usize = 0;
        while i < n
            invariant
                n == s.len(),
                s == self.entries@,
                sorted_entries(s),
                entries_in_shape(s, self.rows as nat, self.columns as nat),
                0 <= i <= n,
                current_row <= self.rows,
                i > 0 ==> current_row == s[i - 1].0,
                i == 0 ==> current_row == 0,
                rows_index@.len() == current_row + 1,
                forall|q: int|
                    0 <= q <= current_row ==> #[trigger] rows_index@[q] <= i && row_split(
                        s,
                        rows_index@[q],
                        q,
                    ),
                values@.len() == i,
                columns_index@.len() == i,
                forall|k: int| 0 <= k < i ==> #[trigger] values@[k] == s[k].2,
                forall|k: int| 0 <= k < i ==> #[trigger] columns_index@[k] == s[k].1,
            decreases n - i,
        {
            let (r, c, v) = self.entries[i];
            proof {
                if i > 0 {
                    assert(coord_lt(
                        s[i - 1].0 as int,
                        s[i - 1].1 as int,
                        s[i as int].0 as int,
                        s[i as int].1 as int,
                    ));
                }
            }
            while current_row < r
                invariant
                    n == s.len(),
                    sorted_entries(s),
                    0 <= i < n,
                    r == s[i as int].0,
                    r < self.rows,
                    current_row <= r,
                    i > 0 ==> s[i - 1].0 <= current_row,
                    rows_index@.len() == current_row + 1,
                    forall|q: int|
                        0 <= q <= current_row ==> #[trigger] rows_index@[q] <= i && row_split(
                            s,
                            rows_index@[q],
                            q,
                        ),
                decreases r - current_row,
            {
                current_row = current_row + 1;
                rows_index.push(i);
                proof {
                    assert forall|k: int| 0 <= k < i implies (#[trigger] s[k]).0 < current_row by {
                        if k < i - 1 {
                            assert(coord_lt(
                                s[k].0 as int,
                                s[k].1 as int,
                                s[i - 1].0 as int,
                                s[i - 1].1 as int,
                            ));
                        }
                    }
                    assert forall|k: int| i <= k < n implies (#[trigger] s[k]).0 >= current_row by {
                        if k > i {
                            assert(coord_lt(
                                s[i as int].0 as int,
                                s[i as int].1 as int,
                                s[k].0 as int,
                                s[k].1 as int,
                            ));
                        }
                    }
                    assert(row_split(s, rows_index@[current_row as int], current_row as int));
                }
            }
            columns_index.push(c);
            values.push(v);
            i = i + 1;
        }
        while current_row < self.rows
            invariant
                n == s.len(),
                sorted_entries(s),
                entries_in_shape(s, self.rows as nat, self.columns as nat),
                current_row <= self.rows,
                n > 0 ==> current_row >= s[n - 1].0,
                rows_index@.len() == current_row + 1,
                forall|q: int|
                    0 <= q <= current_row ==> #[trigger] rows_index@[q] <= n && row_split(
                        s,
                        rows_index@[q],
                        q,
                    ),
            decreases self.rows - current_row,
        {
            current_row = current_row + 1;
            rows_index.push(n);
            proof {
                assert forall|k: int| 0 <= k < n implies (#[trigger] s[k]).0 < current_row by {
                    if k < n - 1 {
                        assert(coord_lt(
                            s[k].0 as int,
                            s[k].1 as int,
                            s[n - 1].0 as int,
                            s[n - 1].1 as int,
                        ));
                    }
                }
                assert(row_split(s, rows_index@[current_row as int], current_row as int));
            }
        }
        let r = CsrMat { rows: self.rows, columns: self.columns, values, columns_index, rows_index };
        proof {
            lemma_compressed_view(s, self.rows as nat, self.columns as nat, r);
        }
        r
    }
    /// `self` has the shape of `m` with rows and columns swapped, and holds
    /// each value of `m` at the mirrored coordinate.
    pub open spec fn is_transpose_of(&self, m: &Self) -> bool {
        &&& self.spec_rows() == m.spec_columns()
        &&& self.spec_columns() == m.spec_rows()
        &&& self@ == transpose_map(m@)
    }

    /// A new matrix with the shape swapped and every `(r, c) -> v` moved to `(c, r) -> v`.
    pub fn transpose(&self) -> (r: Self)
        requires
            self.wf(),
        ensures
            r.wf(),
            r.is_transpose_of(self),
    {
        let ghost s = self.entries@;
        let mut result = CooMat::new(self.columns, self.rows);
        let n = self.entries.len();
        let mut i: usize = 0;
        proof {
            assert(entries_map(s.take(0)) =~= Map::<(int, int), V>::empty());
            assert(transpose_map(entries_map(s.take(0))) =~= result@);
        }
        while i < n
            invariant
                n == s.len(),
                s == self.entries@,
                sorted_entries(s),
                entries_in_shape(s, self.rows as nat, self.columns as nat),
                i <= n,
                result.wf(),
                result.spec_rows() == self.columns,
                result.spec_columns() == self.rows,
                result@ == transpose_map(entries_map(s.take(i as int))),
            decreases n - i,
        {
            let (r, c, v) = self.entries[i];
            let _ = result.insert(c, r, v);
            proof {
                lemma_prefix_map_step(s, i as int);
                assert(result@ =~= transpose_map(entries_map(s.take(i + 1))));
            }
            i = i + 1;
        }
        proof {
            assert(s.take(n as int) =~= s);
        }
        result
    }

    /// Removes every entry of row `row`, then moves every later row up by one
    /// and shrinks the shape by one row. Fails with `IndexOutOfBounds`,
    /// changing nothing, where `row` is not a row of the shape.
    pub fn drop_row(&mut self, row: usize) -> (r: Result<(), MatError>)
        requires
            old(self).wf(),
        ensures
            final(self).wf(),
            row < old(self).spec_rows() ==> r == Ok::<(), MatError>(()) && final(self).spec_rows()
                == old(self).spec_rows() - 1 && final(self).spec_columns()
                == old(self).spec_columns() && final(self)@ == drop_row_map(old(self)@, row as int),
            row >= old(self).spec_rows() ==> r == Err::<(), MatError>(MatError::IndexOutOfBounds)
                && *final(self) == *old(self),
    {
        if row >= self.rows {
            return Err(MatError::IndexOutOfBounds);
        }
        let ghost s = self.entries@;
        let n = self.entries.len();
        let mut out: Vec<(usize, usize, V)> = Vec::new();
        let mut i: usize = 0;
        let ghost mut last: int = -1;
        proof {
            assert(entries_map(s.take(0)) =~= Map::<(int, int), V>::empty());
            assert(entries_map(out@) =~= Map::<(int, int), V>::empty());
            assert(drop_row_map(entries_map(s.take(0)), row as int) =~= entries_map(out@));
        }
        while i < n
            invariant
                n == s.len(),
                s == self.entries@,
                sorted_entries(s),
                entries_in_shape(s, self.rows as nat, self.columns as nat),
                row < self.rows,
                i <= n,
                sorted_entries(out@),
                entries_in_shape(out@, (self.rows - 1) as nat, self.columns as nat),
                -1 <= last < i,
                out@.len() == 0 <==> last == -1,
                last >= 0 ==> s[last].0 != row && out@.last() == (
                    if s[last].0 > row {
                        ((s[last].0 - 1) as usize, s[last].1, s[last].2)
                    } else {
                        s[last]
                    }
                ),
                entries_map(out@) == drop_row_map(entries_map(s.take(i as int)), row as int),
            decreases n - i,
        {
            let (r, c, v) = self.entries[i];
            proof {
                lemma_prefix_map_step(s, i as int);
                if last >= 0 {
                    assert(coord_lt(
                        s[last].0 as int,
                        s[last].1 as int,
                        s[i as int].0 as int,
                        s[i as int].1 as int,
                    ));
                }
            }
            if r != row {
                let t = if r > row {
                    (r - 1, c, v)
                } else {
                    (r, c, v)
                };
                let ghost prev = out@;
                out.push(t);
                proof {
                    assert forall|a: int, b: int| 0 <= a < b < out@.len() implies coord_lt(
                        #[trigger] out@[a].0 as int,
                        out@[a].1 as int,
                        #[trigger] out@[b].0 as int,
                        out@[b].1 as int,
                    ) by {
                        if b == out@.len() - 1 && a < b - 1 {
                            assert(coord_lt(
                                prev[a].0 as int,
                                prev[a].1 as int,
                                prev.last().0 as int,
                                prev.last().1 as int,
                            ));
                        }
                    }
                    lemma_push_map(prev, t);
                    last = i as int;
                    assert(entries_map(out@) =~= drop_row_map(
                        entries_map(s.take(i + 1)),
                        row as int,
                    ));
                }
            } else {
                proof {
                    assert(entries_map(out@) =~= drop_row_map(
                        entries_map(s.take(i + 1)),
                        row as int,
                    ));
                }
            }
            i = i + 1;
        }
        proof {
            assert(s.take(n as int) =~= s);
        }
        self.entries = out;
        self.rows = self.rows - 1;
        Ok(())
    }

    /// Removes every entry of column `col`, then moves every later column left
    /// by one and shrinks the shape by one column. Fails with
    /// `IndexOutOfBounds`, changing nothing, where `col` is not a column of the shape.
    pub fn drop_col(&mut self, col: usize) -> (r: Result<(), MatError>)
        requires
            old(self).wf(),
        ensures
            final(self).wf(),
            col < old(self).spec_columns() ==> r == Ok::<(), MatError>(()) && final(self).spec_rows()
                == old(self).spec_rows() && final(self).spec_columns()
                == old(self).spec_columns() - 1 && final(self)@ == drop_col_map(old(self)@, col as int),
            col >= old(self).spec_columns() ==> r == Err::<(), MatError>(MatError::IndexOutOfBounds)
                && *final(self) == *old(self),
    {
        if col >= self.columns {
            return Err(MatError::IndexOutOfBounds);
        }
        let ghost s = self.entries@;
        let n = self.entries.len();
        let mut out: Vec<(usize, usize, V)> = Vec::new();
        let mut i: usize = 0;
        let ghost mut last: int = -1;
        proof {
            assert(entries_map(s.take(0)) =~= Map::<(int, int), V>::empty());
            assert(entries_map(out@) =~= Map::<(int, int), V>::empty());
            assert(drop_col_map(entries_map(s.take(0)), col as int) =~= entries_map(out@));
        }
        while i < n
            invariant
                n == s.len(),
                s == self.entries@,
                sorted_entries(s),
                entries_in_shape(s, self.rows as nat, self.columns as nat),
                col < self.columns,
                i <= n,
                sorted_entries(out@),
                entries_in_shape(out@, self.rows as nat, (self.columns - 1) as nat),
                -1 <= last < i,
                out@.len() == 0 <==> last == -1,
                last >= 0 ==> s[last].1 != col && out@.last() == (
                    if s[last].1 > col {
                        (s[last].0, (s[last].1 - 1) as usize, s[last].2)
                    } else {
                        s[last]
                    }
                ),
                entries_map(out@) == drop_col_map(entries_map(s.take(i as int)), col as int),
            decreases n - i,
        {
            let (r, c, v) = self.entries[i];
            proof {
                lemma_prefix_map_step(s, i as int);
                if last >= 0 {
                    assert(coord_lt(
                        s[last].0 as int,
                        s[last].1 as int,
                        s[i as int].0 as int,
                        s[i as int].1 as int,
                    ));
                }
            }
            if c != col {
                let t = if c > col {
                    (r, c - 1, v)
                } else {
                    (r, c, v)
                };
                let ghost prev = out@;
                out.push(t);
                proof {
                    assert forall|a: int, b: int| 0 <= a < b < out@.len() implies coord_lt(
                        #[trigger] out@[a].0 as int,
                        out@[a].1 as int,
                        #[trigger] out@[b].0 as int,
                        out@[b].1 as int,
                    ) by {
                        if b == out@.len() - 1 && a < b - 1 {
                            assert(coord_lt(
                                prev[a].0 as int,
                                prev[a].1 as int,
                                prev.last().0 as int,
                                prev.last().1 as int,
                            ));
                        }
                    }
                    lemma_push_map(prev, t);
                    last = i as int;
                    assert(entries_map(out@) =~= drop_col_map(
                        entries_map(s.take(i + 1)),
                        col as int,
                    ));
                }
            } else {
                proof {
                    assert(entries_map(out@) =~= drop_col_map(
                        entries_map(s.take(i + 1)),
                        col as int,
                    ));
                }
            }
            i = i + 1;
        }
        proof {
            assert(s.take(n as int) =~= s);
        }
        self.entries = out;
        self.columns = self.columns - 1;
        Ok(())
    }
    /// The triple at position `i` of the row-major order.
    pub fn entry(&self, i: usize) -> (r: (usize, usize, V))
        requires
            i < self.spec_entries().len(),
        ensures
            r == self.spec_entries()[i as int],
    {
        self.entries[i]
    }

    /// The positions `lo .. hi` of the row-major order that hold row `row`.
    pub fn row_span(&self, row: usize) -> (r: (usize, usize))
        requires
            self.wf(),
        ensures
            r.0 <= r.1 <= self.spec_entries().len(),
            forall|k: int| r.0 <= k < r.1 ==> (#[trigger] self.spec_entries()[k]).0 == row,
            forall|k: int|
                0 <= k < self.spec_entries().len() && !(r.0 <= k < r.1) ==> (
                #[trigger] self.spec_entries()[k]).0 != row,
    {
        let lo = self.lower_bound(row, 0);
        let hi = if row < usize::MAX {
            self.lower_bound(row + 1, 0)
        } else {
            self.entries.len()
        };
        proof {
            let s = self.entries@;
            if hi < lo {
                assert(!coord_lt(s[hi as int].0 as int, s[hi as int].1 as int, row + 1, 0));
                assert(coord_lt(s[hi as int].0 as int, s[hi as int].1 as int, row as int, 0));
            }
        }
        (lo, hi)
    }

    /// Every pairing of a triple of `self` at `(i, k)` with a triple of
    /// `other` at `(k, j)`: the terms of the sparse product, found by
    /// looking up row `k` of `other` for each triple of `self`, so only pairs
    /// that meet are visited. Fails with `DimensionMismatch` unless
    /// `self.columns == other.rows`.
    pub fn product_terms(&self, other: &Self) -> (r: Result<
        Vec<(usize, usize, usize, usize)>,
        MatError,
    >)
        requires
            self.wf(),
            other.wf(),
        ensures
            self.spec_columns() != other.spec_rows() ==> r == Err::<
                Vec<(usize, usize, usize, usize)>,
                MatError,
            >(MatError::DimensionMismatch),
            self.spec_columns() == other.spec_rows() ==> r.is_ok() && all_product_terms(
                self.spec_entries(),
                other.spec_entries(),
                r.unwrap()@,
            ),
    {
        if self.columns != other.rows {
            return Err(MatError::DimensionMismatch);
        }
        let ghost a = self.entries@;
        let ghost b = other.entries@;
        let mut terms: Vec<(usize, usize, usize, usize)> = Vec::new();
        let na = self.entries.len();
        let mut pa: usize = 0;
        while pa < na
            invariant
                na == a.len(),
                a == self.entries@,
                b == other.entries@,
                other.wf(),
                pa <= na,
                forall|x: int| 0 <= x < terms@.len() ==> term_ok(a, b, #[trigger] terms@[x]),
                forall|x: int| 0 <= x < terms@.len() ==> (#[trigger] terms@[x]).2 < pa,
                forall|x: int, y: int|
                    0 <= x < y < terms@.len() ==> term_lt(#[trigger] terms@[x], #[trigger] terms@[y]),
                forall|p: int, q: int|
                    0 <= p < pa && 0 <= q < b.len() && #[trigger] a[p].1 == #[trigger] b[q].0
                        ==> exists|x: int|
                        0 <= x < terms@.len() && (#[trigger] terms@[x]).2 == p && terms@[x].3 == q,
            decreases na - pa,
        {
            let (i, k, _) = self.entries[pa];
            let (lo, hi) = other.row_span(k);
            let mut pb: usize = lo;
            let ghost start = terms@.len();
            while pb < hi
                invariant
                    na == a.len(),
                    a == self.entries@,
                    b == other.entries@,
                    pa < na,
                    a[pa as int].0 == i,
                    a[pa as int].1 == k,
                    lo <= pb <= hi <= b.len(),
                    forall|q: int| lo <= q < hi ==> (#[trigger] b[q]).0 == k,
                    forall|q: int| 0 <= q < b.len() && !(lo <= q < hi) ==> (#[trigger] b[q]).0 != k,
                    start <= terms@.len(),
                    forall|x: int| 0 <= x < terms@.len() ==> term_ok(a, b, #[trigger] terms@[x]),
                    forall|x: int| 0 <= x < start ==> (#[trigger] terms@[x]).2 < pa,
                    terms@.len() == start + (pb - lo),
                    forall|x: int|
                        start <= x < terms@.len() ==> (#[trigger] terms@[x]).2 == pa && terms@[x].3
                            == lo + (x - start),
                    forall|x: int, y: int|
                        0 <= x < y < terms@.len() ==> term_lt(#[trigger] terms@[x], #[trigger] terms@[y]),
                    forall|p: int, q: int|
                        0 <= p < pa && 0 <= q < b.len() && #[trigger] a[p].1 == #[trigger] b[q].0
                            ==> exists|x: int|
                            0 <= x < terms@.len() && (#[trigger] terms@[x]).2 == p && terms@[x].3 == q,
                decreases hi - pb,
            {
                let (_, j, _) = other.entries[pb];
                let ghost prev = terms@;
                terms.push((i, j, pa, pb));
                proof {
                    let last = terms@.len() - 1;
                    assert(terms@[last].2 == pa && terms@[last].3 == pb);
                    assert forall|p: int, q: int|
                        0 <= p < pa && 0 <= q < b.len() && #[trigger] a[p].1 == #[trigger] b[q].0
                            implies exists|x: int|
                            0 <= x < terms@.len() && (#[trigger] terms@[x]).2 == p && terms@[x].3
                                == q by {
                        let x = choose|x: int|
                            0 <= x < prev.len() && (#[trigger] prev[x]).2 == p && prev[x].3 == q;
                        assert(terms@[x] == prev[x]);
                    }
                }
                pb = pb + 1;
            }
            proof {
                assert forall|p: int, q: int|
                    0 <= p < pa + 1 && 0 <= q < b.len() && #[trigger] a[p].1 == #[trigger] b[q].0
                        implies exists|x: int|
                        0 <= x < terms@.len() && (#[trigger] terms@[x]).2 == p && terms@[x].3
                            == q by {
                    if p == pa {
                        assert(lo <= q < hi);
                        let x = start + (q - lo);
                        assert(terms@[x].2 == p && terms@[x].3 == q);
                    }
                }
            }
            pa = pa + 1;
        }
        Ok(terms)
    }
    /// The dense `rows` x `columns` grid of this matrix, with `zero` at every
    /// coordinate that stores nothing.
    pub fn to_dense(&self, zero: V) -> (r: Vec<Vec<V>>)
        requires
            self.wf(),
        ensures
            r@.len() == self.spec_rows(),
            forall|i: int|
                0 <= i < r@.len() ==> (#[trigger] r@[i])@ == dense_of(
                    self@,
                    self.spec_rows(),
                    self.spec_columns(),
                    zero,
                )[i],
    {
        let ghost d = dense_of(self@, self.rows as nat, self.columns as nat, zero);
        let mut dense: Vec<Vec<V>> = Vec::new();
        let mut i: usize = 0;
        while i < self.rows
            invariant
                self.wf(),
                i <= self.rows,
                d == dense_of(self@, self.rows as nat, self.columns as nat, zero),
                dense@.len() == i,
                forall|x: int| 0 <= x < i ==> (#[trigger] dense@[x])@ == d[x],
            decreases self.rows - i,
        {
            let mut line: Vec<V> = Vec::new();
            let mut j: usize = 0;
            while j < self.columns
                invariant
                    self.wf(),
                    i < self.rows,
                    j <= self.columns,
                    d == dense_of(self@, self.rows as nat, self.columns as nat, zero),
                    line@.len() == j,
                    forall|y: int| 0 <= y < j ==> #[trigger] line@[y] == d[i as int][y],
                decreases self.columns - j,
            {
                let v = match self.get(i, j) {
                    Some(v) => v,
                    None => zero,
                };
                line.push(v);
                j = j + 1;
            }
            proof {
                assert(line@ =~= d[i as int]);
            }
            dense.push(line);
            i = i + 1;
        }
        dense
    }

    /// The single value of a 1x1 matrix (`None` where it stores nothing).
    /// Fails with `NotAScalar` for any other shape.
    pub fn to_scalar(&self) -> (r: Result<Option<V>, MatError>)
        requires
            self.wf(),
        ensures
            (self.spec_rows() == 1 && self.spec_columns() == 1) ==> r.is_ok() && (r.unwrap().is_some()
                == self@.contains_key((0, 0))) && (r.unwrap().is_some() ==> r.unwrap().unwrap()
                == self@[(0, 0)]),
            !(self.spec_rows() == 1 && self.spec_columns() == 1) ==> r == Err::<Option<V>, MatError>(
                MatError::NotAScalar,
            ),
    {
        if self.rows == 1 && self.columns == 1 {
            Ok(self.get(0, 0))
        } else {
            Err(MatError::NotAScalar)
        }
    }
    /// Transposing twice gives back the matrix: the same shape, the same
    /// stored values and the same row-major triples.
    pub proof fn lemma_transpose_twice(m: &Self, t: &Self, tt: &Self)
        requires
            m.wf(),
            tt.wf(),
            t.is_transpose_of(m),
            tt.is_transpose_of(t),
        ensures
            tt.spec_rows() == m.spec_rows(),
            tt.spec_columns() == m.spec_columns(),
            tt@ == m@,
            tt.spec_entries() == m.spec_entries(),
    {
        assert(tt@ =~= m@);
        lemma_sorted_canonical(tt.spec_entries(), m.spec_entries());
    }

    /// Converting to compressed rows and materialising densely gives the same
    /// grid as materialising the coordinate form directly.
    pub proof fn lemma_csr_dense_agrees(m: &Self, c: &CsrMat<V>, zero: V)
        requires
            m.wf(),
            compresses(m.spec_entries(), m.spec_rows(), m.spec_columns(), *c),
        ensures
            dense_of(c@, c.rows as nat, c.columns as nat, zero) == dense_of(
                m@,
                m.spec_rows(),
                m.spec_columns(),
                zero,
            ),
    {
        lemma_compressed_view(m.spec_entries(), m.spec_rows(), m.spec_columns(), *c);
    }
    /// Multiplying by a diagonal pattern of matching size pairs each triple
    /// of `a` with exactly the diagonal triple of its own column, in order:
    /// term `x` is `(a[x].row, a[x].col, x, a[x].col)`. With 1 on the
    /// diagonal the product therefore holds `a`'s values at `a`'s coordinates.
    pub proof fn lemma_identity_terms(
        a: &Self,
        b: &Self,
        terms: Seq<(usize, usize, usize, usize)>,
    )
        requires
            a.wf(),
            b.wf(),
            a.spec_columns() == b.spec_rows(),
            is_diagonal_pattern(b.spec_entries(), a.spec_columns()),
            all_product_terms(a.spec_entries(), b.spec_entries(), terms),
        ensures
            terms.len() == a.spec_entries().len(),
            forall|x: int|
                0 <= x < terms.len() ==> #[trigger] terms[x] == (
                    a.spec_entries()[x].0,
                    a.spec_entries()[x].1,
                    x as usize,
                    a.spec_entries()[x].1,
                ),
    {
        let sa = a.spec_entries();
        let sb = b.spec_entries();
        let n = sa.len() as int;
        let f = Seq::new(terms.len(), |x: int| terms[x].2 as int);
        assert forall|x: int| 0 <= x < terms.len() implies (#[trigger] terms[x]).3 == sa[
            terms[x].2 as int
        ].1 by {
            assert(term_ok(sa, sb, terms[x]));
            assert(sb[terms[x].3 as int].0 == terms[x].3);
        }
        assert forall|x: int, y: int| 0 <= x < y < f.len() implies #[trigger] f[x] < #[trigger] f[y] by {
            assert(term_lt(terms[x], terms[y]));
            assert(terms[x].3 == sa[terms[x].2 as int].1);
            assert(terms[y].3 == sa[terms[y].2 as int].1);
        }
        assert forall|x: int| 0 <= x < f.len() implies 0 <= #[trigger] f[x] < n by {
            assert(term_ok(sa, sb, terms[x]));
        }
        assert forall|v: int| 0 <= v < n implies #[trigger] takes_value(f, v) by {
            let q = sa[v].1 as int;
            assert(sa[v].1 < a.spec_columns());
            assert(sb[q].0 == q);
            assert(sa[v].1 == sb[q].0);
            let x = choose|x: int|
                0 <= x < terms.len() && (#[trigger] terms[x]).2 == v && terms[x].3 == q;
            assert(f[x] == v);
        }
        lemma_increasing_onto(f, n);
        assert forall|x: int| 0 <= x < terms.len() implies #[trigger] terms[x] == (
            sa[x].0,
            sa[x].1,
            x as usize,
            sa[x].1,
        ) by {
            assert(f[x] == x);
            assert(term_ok(sa, sb, terms[x]));
        }
    }
}

} // verus!
