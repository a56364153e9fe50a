//! A square grid held row after row in one buffer.

use vstd::prelude::*;

verus! {

/// A cell as a fresh grid holds it: a copy of the type's default value.
pub open spec fn default_cell<T: Clone + Default>(cell: T) -> bool {
    exists|d: T| call_ensures(T::default, (), d) && cloned(d, cell)
}

/// A grid of as many rows as columns. Its view is the sequence of its rows.
pub struct Matrix<T> {
    data: Vec<T>,
    sz: usize,
}

impl<T> View for Matrix<T> {
    type V = Seq<Seq<T>>;

    /// The rows, from the first to the last.
    closed spec fn view(&self) -> Seq<Seq<T>> {
        Seq::new(self.sz as nat, |i: int| self.data@.subrange(i * self.sz, i * self.sz + self.sz))
    }
}

/// Where the cell of row `i` and column `j` lies in a buffer of `n` rows.
proof fn lemma_cell_offset(n: int, i: int, j: int)
    requires
        0 <= i < n,
        0 <= j < n,
    ensures
        0 <= i * n + j < n * n,
        i * n + n <= n * n,
        0 <= i * n,
{
    assert(i * n + n <= n * n) by (nonlinear_arith)
        requires
            0 <= i < n,
    ;
    assert(0 <= i * n) by (nonlinear_arith)
        requires
            0 <= i < n,
    ;
}

impl<T> Matrix<T> where T: Clone + Default {
    /// The buffer holds as many rows as each row has cells.
    pub closed spec fn wf(&self) -> bool {
        self.data@.len() == self.sz * self.sz
    }

    /// The cells, row after row.
    pub closed spec fn cells(&self) -> Seq<T> {
        self.data@
    }

    /// A well-formed grid is square, and its buffer holds the cell of row
    /// `i` and column `j` at `i * n + j`.
    pub proof fn lemma_square(&self)
        requires
            self.wf(),
        ensures
            self.cells().len() == self@.len() * self@.len(),
            forall|i: int| 0 <= i < self@.len() ==> (#[trigger] self@[i]).len() == self@.len(),
            forall|i: int, j: int|
                0 <= i < self@.len() && 0 <= j < self@.len() ==> #[trigger] self@[i][j] == self.cells()[i * self@.len() + j],
    {
        let n = self.sz as int;
        assert(self@.len() == n);
        assert forall|i: int| 0 <= i < self@.len() implies (#[trigger] self@[i]).len() == self@.len() by {
            lemma_cell_offset(n, i, 0);
        }
        assert forall|i: int, j: int| 0 <= i < self@.len() && 0 <= j < self@.len() implies #[trigger] self@[i][j]
            == self.cells()[i * self@.len() + j] by {
            lemma_cell_offset(n, i, j);
            assert(self@[i] == self.data@.subrange(i * n, i * n + n));
            assert(i * self@.len() == i * n);
            assert(self@[i][j] == self.data@[i * n + j]);
        }
    }

    /// A grid of `sz` rows and `sz` columns of default cells.
    pub fn new(sz: usize) -> (matrix: Matrix<T>)
        requires
            sz * sz <= usize::MAX,
        ensures
            matrix.wf(),
            matrix@.len() == sz,
            forall|i: int| 0 <= i < sz ==> (#[trigger] matrix@[i]).len() == sz,
            forall|i: int, j: int| 0 <= i < sz && 0 <= j < sz ==> default_cell(#[trigger] matrix@[i][j]),
    {
        let mut data: Vec<T> = Vec::new();
        let fill = T::default();
        data.resize(sz * sz, fill);
        let matrix = Matrix { data, sz };
        proof {
            matrix.lemma_square();
            assert forall|i: int, j: int| 0 <= i < sz && 0 <= j < sz implies default_cell(#[trigger] matrix@[i][j]) by {
                lemma_cell_offset(sz as int, i, j);
                assert(cloned(fill, matrix.data@[i * sz + j]));
            }
        }
        matrix
    }

    /// The number of rows, which is the number of columns.
    pub fn size(&self) -> (n: usize)
        ensures
            n == self@.len(),
    {
        self.sz
    }

    /// The cell of row `i` and column `j`.
    pub fn get(&self, i: usize, j: usize) -> (cell: &T)
        requires
            self.wf(),
            i < self@.len(),
            j < self@.len(),
        ensures
            *cell == self@[i as int][j as int],
    {
        let len: usize = self.data.len();
        proof {
            lemma_cell_offset(self.sz as int, i as int, j as int);
        }
        &self.data[i * self.sz + j]
    }

    /// Puts `value` in the cell of row `i` and column `j`.
    pub fn set(&mut self, i: usize, j: usize, value: T)
        requires
            old(self).wf(),
            i < old(self)@.len(),
            j < old(self)@.len(),
        ensures
            final(self).wf(),
            final(self)@ == old(self)@.update(i as int, old(self)@[i as int].update(j as int, value)),
    {
        let len: usize = self.data.len();
        proof {
            lemma_cell_offset(self.sz as int, i as int, j as int);
        }
        let at: usize = i * self.sz + j;
        self.data[at] = value;
        proof {
            let n = self.sz as int;
            let want = old(self)@.update(i as int, old(self)@[i as int].update(j as int, value));
            assert(self@.len() == want.len());
            assert forall|r: int| 0 <= r < n implies self@[r] == want[r] by {
                lemma_cell_offset(n, r, 0);
                if r == i {
                    assert(self@[r] =~= old(self)@[i as int].update(j as int, value));
                } else {
                    if r < i {
                        assert(r * n + n <= i * n) by (nonlinear_arith)
                            requires
                                0 <= r < i,
                                n > 0,
                        ;
                    } else {
                        assert(i * n + n <= r * n) by (nonlinear_arith)
                            requires
                                0 <= i < r,
                                n > 0,
                        ;
                    }
                    assert(self@[r] =~= old(self)@[r]);
                }
            }
            assert(self@ =~= want);
        }
    }

    /// The cells, row after row.
    pub fn as_slice(&self) -> (cells: &[T])
        ensures
            cells@ == self.cells(),
    {
        self.data.as_slice()
    }

    /// The rows, each as a slice of the buffer.
    pub fn as_matrix(&self) -> (rows: Vec<&[T]>)
        requires
            self.wf(),
            self@.len() > 0,
        ensures
            rows@.len() == self@.len(),
            forall|i: int| #![trigger rows@[i]] 0 <= i < rows@.len() ==> rows@[i]@ == self@[i],
    {
        let sz: usize = self.sz;
        let mut rows: Vec<&[T]> = Vec::new();
        let mut rest: &[T] = self.data.as_slice();
        let mut i: usize = 0;
        assert(rest@ =~= self.data@.subrange(0, sz * sz));
        while i < sz
            invariant
                i <= sz == self.sz,
                sz > 0,
                self.data@.len() == sz * sz,
                rows@.len() == i,
                rest@ == self.data@.subrange(i * sz, sz * sz),
                forall|k: int| #![trigger rows@[k]] 0 <= k < i ==> rows@[k]@ == self.data@.subrange(k * sz, k * sz + sz),
            decreases sz - i,
        {
            proof {
                lemma_cell_offset(sz as int, i as int, 0);
                assert(i * sz + sz == (i + 1) * sz) by (nonlinear_arith);
            }
            let (row, tail) = rest.split_at(sz);
            assert(row@ =~= self.data@.subrange(i * sz, i * sz + sz));
            assert(tail@ =~= self.data@.subrange((i + 1) * sz, sz * sz));
            rows.push(row);
            rest = tail;
            i += 1;
        }
        rows
    }

    /// The rows, each as a slice of the buffer that can be written to. What
    /// is written to a row is written to the grid.
    pub fn as_matrix_mut(&mut self) -> (rows: Vec<&mut [T]>)
        requires
            old(self).wf(),
            old(self)@.len() > 0,
        ensures
            rows@.len() == old(self)@.len(),
            forall|i: int| #![trigger rows@[i]] 0 <= i < rows@.len() ==> rows@[i]@ == old(self)@[i],
            (forall|k: int| 0 <= k < rows@.len() ==> (*final(#[trigger] rows@[k]))@.len() == rows@.len()) ==> {
                &&& final(self).wf()
                &&& final(self)@.len() == old(self)@.len()
                &&& forall|i: int| 0 <= i < rows@.len() ==> final(self)@[i] == (*final(#[trigger] rows@[i]))@
            },
    {
        let sz: usize = self.sz;
        let mut rows: Vec<&mut [T]> = Vec::new();
        let mut rest: &mut [T] = self.data.as_mut_slice();
        let ghost whole = final(rest)@;
        let mut i: usize = 0;
        assert(rest@ =~= old(self).data@.subrange(0, sz * sz));
        assert(whole.subrange(0, whole.len() as int) =~= whole);
        while i < sz
            invariant
                i <= sz == old(self).sz,
                sz > 0,
                old(self).data@.len() == sz * sz,
                rows@.len() == i,
                rest@ == old(self).data@.subrange(i * sz, sz * sz),
                forall|k: int| #![trigger rows@[k]] 0 <= k < i ==> rows@[k]@ == old(self).data@.subrange(k * sz, k * sz + sz),
                (*final(rest))@.len() <= whole.len(),
                whole.subrange(whole.len() - (*final(rest))@.len(), whole.len() as int) == (*final(rest))@,
                (forall|k: int| 0 <= k < i ==> (*final(#[trigger] rows@[k]))@.len() == sz) ==> {
                    &&& whole.len() - (*final(rest))@.len() == i * sz
                    &&& forall|k: int| 0 <= k < i ==> whole.subrange(k * sz, k * sz + sz) == (*final(#[trigger] rows@[k]))@
                },
            decreases sz - i,
        {
            proof {
                lemma_cell_offset(sz as int, i as int, 0);
                assert(i * sz + sz == (i + 1) * sz) by (nonlinear_arith);
            }
            let ghost before = rows@;
            let ghost tail_before = (*final(rest))@;
            let (row, tail) = rest.split_at_mut(sz);
            let ghost here = (*final(row))@;
            assert(row@ =~= old(self).data@.subrange(i * sz, i * sz + sz));
            assert(tail@ =~= old(self).data@.subrange((i + 1) * sz, sz * sz));
            rows.push(row);
            rest = tail;
            proof {
                let start = whole.len() - tail_before.len();
                assert(whole.subrange(start, whole.len() as int) == tail_before);
                assert((*final(rest))@ =~= tail_before.subrange(here.len() as int, tail_before.len() as int));
                assert(here =~= tail_before.subrange(0, here.len() as int));
                assert forall|j: int| 0 <= j < tail_before.len() implies whole[start + j] == tail_before[j] by {
                    assert(whole.subrange(start, whole.len() as int)[j] == whole[start + j]);
                }
                assert(whole.subrange(whole.len() - (*final(rest))@.len(), whole.len() as int) =~= (*final(rest))@);
                assert(whole.subrange(start, start + here.len()) =~= here);
                assert forall|k: int|
                    0 <= k < i + 1 && (forall|j: int| 0 <= j < i + 1 ==> (*final(#[trigger] rows@[j]))@.len() == sz) implies {
                        &&& start == i * sz
                        &&& whole.subrange(k * sz, k * sz + sz) == (*final(#[trigger] rows@[k]))@
                    } by {
                    assert forall|j: int| 0 <= j < i implies (*final(#[trigger] before[j]))@.len() == sz by {
                        assert(rows@[j] == before[j]);
                    }
                    assert((*final(rows@[i as int]))@ == here);
                    if k < i {
                        assert(rows@[k] == before[k]);
                    }
                }
                assert((*final(rows@[i as int]))@ == here);
            }
            i += 1;
        }
        assert(rest@.len() == 0);
        rows
    }
}

} // verus!
