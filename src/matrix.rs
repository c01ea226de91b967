use vstd::prelude::*;

verus! {

/// A dense matrix stored row by row: the entry in row `i` and column `j`
/// sits at `values[i * cols + j]`.
#[derive(Debug, PartialEq, Clone)]
pub struct Matrix<T> {
    pub values: Vec<T>,
    pub rows: usize,
    pub cols: usize,
}

/// One more row of `cols` entries takes `cols` more places.
proof fn lemma_next_row(i: int, cols: int)
    ensures
        (i + 1) * cols == i * cols + cols,
{
    assert((i + 1) * cols == i * cols + cols) by (nonlinear_arith);
}

/// Row `i` and column `j` of a `rows` by `cols` matrix sit inside its storage.
pub(crate) proof fn lemma_index_in_range(i: int, j: int, rows: int, cols: int)
    requires
        0 <= i < rows,
        0 <= j < cols,
    ensures
        0 <= i * cols + j < rows * cols,
        0 <= i * cols,
{
    assert(0 <= i * cols + j < rows * cols) by (nonlinear_arith)
        requires
            0 <= i < rows,
            0 <= j < cols,
    ;
    assert(0 <= i * cols) by (nonlinear_arith)
        requires
            0 <= i,
            0 <= cols,
    ;
}

/// `func` applied to each element of `v`, in order.
fn map_values<T: Copy, F: Fn(T) -> T>(v: &Vec<T>, func: &F) -> (r: Vec<T>)
    requires
        forall|x: T| call_requires(*func, (x,)),
    ensures
        r@.len() == v@.len(),
        forall|k: int| 0 <= k < v@.len() ==> call_ensures(*func, (v@[k],), #[trigger] r@[k]),
{
    let mut out: Vec<T> = Vec::with_capacity(v.len());
    let mut k: usize = 0;
    while k < v.len()
        invariant
            k <= v@.len(),
            out@.len() == k,
            forall|x: T| call_requires(*func, (x,)),
            forall|m: int| 0 <= m < k ==> call_ensures(*func, (v@[m],), #[trigger] out@[m]),
        decreases v@.len() - k,
    {
        out.push(func(v[k]));
        k = k + 1;
    }
    out
}

impl<T> Matrix<T> {
    /// The storage holds exactly `rows * cols` entries.
    pub open spec fn wf(&self) -> bool {
        self.values@.len() == self.rows * self.cols
    }

    /// The entry in row `i` and column `j`.
    pub open spec fn at(&self, i: int, j: int) -> T {
        self.values@[i * self.cols + j]
    }
}

impl<T: Copy> Matrix<T> {
    /// A `rows` by `cols` matrix over the row-major entries `vector`.
    pub fn from(vector: Vec<T>, rows: usize, cols: usize) -> (r: Self)
        requires
            vector@.len() == rows * cols,
        ensures
            r.wf(),
            r.rows == rows,
            r.cols == cols,
            r.values@ == vector@,
    {
        Matrix { rows, cols, values: vector }
    }

    /// A column vector (one column, `vector.len()` rows) holding `vector`.
    pub fn into_row(vector: Vec<T>) -> (r: Self)
        ensures
            r.wf(),
            r.rows == vector@.len(),
            r.cols == 1,
            r.values@ == vector@,
    {
        Matrix { rows: vector.len(), cols: 1, values: vector }
    }

    /// A `rows` by `columns` matrix whose entries are drawn, row by row, from
    /// `rand_fn`.
    pub fn from_rand<F: Fn() -> T>(rows: usize, columns: usize, rand_fn: &F) -> (r: Self)
        requires
            rows * columns <= usize::MAX,
            call_requires(*rand_fn, ()),
        ensures
            r.wf(),
            r.rows == rows,
            r.cols == columns,
            forall|k: int| 0 <= k < r.values@.len() ==> call_ensures(*rand_fn, (), #[trigger] r.values@[k]),
    {
        let total = rows * columns;
        let mut values: Vec<T> = Vec::with_capacity(total);
        let mut k: usize = 0;
        while k < total
            invariant
                k <= total,
                values@.len() == k,
                call_requires(*rand_fn, ()),
                forall|m: int| 0 <= m < k ==> call_ensures(*rand_fn, (), #[trigger] values@[m]),
            decreases total - k,
        {
            let v = rand_fn();
            values.push(v);
            k = k + 1;
        }
        Matrix { rows, cols: columns, values }
    }

    /// A `rows` by `columns` matrix whose entries all hold `T`'s default value.
    pub fn alloca(rows: usize, columns: usize) -> (r: Self)
        where
            T: Default,
        requires
            rows * columns <= usize::MAX,
        ensures
            r.wf(),
            r.rows == rows,
            r.cols == columns,
            forall|k: int| 0 <= k < r.values@.len() ==> #[trigger] r.values@[k] == r.values@[0],
    {
        let d = T::default();
        let total = rows * columns;
        let mut values: Vec<T> = Vec::with_capacity(total);
        let mut k: usize = 0;
        while k < total
            invariant
                k <= total,
                values@.len() == k,
                forall|m: int| 0 <= m < k ==> #[trigger] values@[m] == d,
            decreases total - k,
        {
            values.push(d);
            k = k + 1;
        }
        Matrix { rows, cols: columns, values }
    }

    /// The transpose: a `cols` by `rows` matrix with entry `(j, i)` equal to
    /// entry `(i, j)` of `self`.
    #[allow(non_snake_case)]
    pub fn T(self) -> (r: Self)
        requires
            self.wf(),
        ensures
            r.wf(),
            r.rows == self.cols,
            r.cols == self.rows,
            forall|i: int, j: int|
                0 <= i < self.rows && 0 <= j < self.cols ==> #[trigger] r.at(j, i) == self.at(i, j),
    {
        self.transpose()
    }

    fn transpose(self) -> (r: Self)
        requires
            self.wf(),
        ensures
            r.wf(),
            r.rows == self.cols,
            r.cols == self.rows,
            forall|i: int, j: int|
                0 <= i < self.rows && 0 <= j < self.cols ==> #[trigger] r.at(j, i) == self.at(i, j),
    {
        let rows = self.rows;
        let cols = self.cols;
        let n = self.values.len();
        let mut values: Vec<T> = Vec::with_capacity(n);
        let mut j: usize = 0;
        while j < cols
            invariant
                self.wf(),
                n == self.values@.len(),
                rows == self.rows,
                cols == self.cols,
                j <= cols,
                values@.len() == j * rows,
                forall|b: int, a: int|
                    0 <= b < j && 0 <= a < rows ==> values@[b * rows + a] == #[trigger] self.at(a, b),
            decreases cols - j,
        {
            let mut i: usize = 0;
            while i < rows
                invariant
                    self.wf(),
                    n == self.values@.len(),
                    rows == self.rows,
                    cols == self.cols,
                    j < cols,
                    i <= rows,
                    values@.len() == j * rows + i,
                    forall|b: int, a: int|
                        0 <= b < j && 0 <= a < rows ==> values@[b * rows + a] == #[trigger] self.at(a, b),
                    forall|a: int| 0 <= a < i ==> values@[j * rows + a] == #[trigger] self.at(a, j as int),
                decreases rows - i,
            {
                proof {
                    lemma_index_in_range(i as int, j as int, rows as int, cols as int);
                    lemma_index_in_range(j as int, i as int, cols as int, rows as int);
                }
                let ghost prev = values@;
                values.push(self.values[i * cols + j]);
                assert forall|b: int, a: int|
                    0 <= b < j && 0 <= a < rows implies values@[b * rows + a] == #[trigger] self.at(a, b) by {
                    lemma_index_in_range(b, a, j as int, rows as int);
                    assert(values@[b * rows + a] == prev[b * rows + a]);
                }
                i = i + 1;
            }
            proof {
                lemma_next_row(j as int, rows as int);
                assert forall|b: int, a: int|
                    0 <= b < j + 1 && 0 <= a < rows implies values@[b * rows + a] == #[trigger] self.at(a, b) by {
                    if b == j {
                    }
                }
            }
            j = j + 1;
        }
        let r = Matrix { rows: cols, cols: rows, values };
        assert forall|i: int, j: int|
            0 <= i < self.rows && 0 <= j < self.cols implies #[trigger] r.at(j, i) == self.at(i, j) by {
        }
        proof {
            assert(cols * rows == rows * cols) by (nonlinear_arith);
        }
        r
    }

    /// The matrix with `func` applied to every entry.
    pub fn mapped<F: Fn(T) -> T>(self, func: &F) -> (r: Self)
        requires
            forall|x: T| call_requires(*func, (x,)),
        ensures
            r.rows == self.rows,
            r.cols == self.cols,
            r.values@.len() == self.values@.len(),
            forall|k: int|
                0 <= k < self.values@.len() ==> call_ensures(*func, (self.values@[k],), #[trigger] r.values@[k]),
    {
        let values = map_values(&self.values, func);
        Matrix { cols: self.cols, rows: self.rows, values }
    }

    /// Replaces every entry `x` with `func(x)`.
    pub fn map<F: Fn(T) -> T>(&mut self, func: &F)
        requires
            forall|x: T| call_requires(*func, (x,)),
        ensures
            final(self).rows == old(self).rows,
            final(self).cols == old(self).cols,
            final(self).values@.len() == old(self).values@.len(),
            forall|k: int|
                0 <= k < old(self).values@.len() ==> call_ensures(
                    *func,
                    (old(self).values@[k],),
                    #[trigger] final(self).values@[k],
                ),
    {
        self.values = map_values(&self.values, func);
    }

    /// Replaces the entry `x` in row `i` and column `j` with `func(i, j, x)`.
    pub fn map_enumerate<F: Fn(usize, usize, T) -> T>(&mut self, func: &F)
        requires
            old(self).wf(),
            forall|i: usize, j: usize, x: T| call_requires(*func, (i, j, x)),
        ensures
            final(self).wf(),
            final(self).rows == old(self).rows,
            final(self).cols == old(self).cols,
            forall|i: int, j: int|
                0 <= i < old(self).rows && 0 <= j < old(self).cols ==> call_ensures(
                    *func,
                    (i as usize, j as usize, old(self).at(i, j)),
                    #[trigger] final(self).at(i, j),
                ),
    {
        let rows = self.rows;
        let cols = self.cols;
        let n = self.values.len();
        let mut values: Vec<T> = Vec::with_capacity(n);
        let mut i: usize = 0;
        while i < rows
            invariant
                self.wf(),
                n == self.values@.len(),
                rows == self.rows,
                cols == self.cols,
                i <= rows,
                forall|i: usize, j: usize, x: T| call_requires(*func, (i, j, x)),
                values@.len() == i * cols,
                forall|a: int, b: int|
                    0 <= a < i && 0 <= b < cols ==> call_ensures(
                        *func,
                        (a as usize, b as usize, self.at(a, b)),
                        #[trigger] values@[a * cols + b],
                    ),
            decreases rows - i,
        {
            let mut j: usize = 0;
            while j < cols
                invariant
                    self.wf(),
                    n == self.values@.len(),
                    rows == self.rows,
                    cols == self.cols,
                    i < rows,
                    j <= cols,
                    forall|i: usize, j: usize, x: T| call_requires(*func, (i, j, x)),
                    values@.len() == i * cols + j,
                    forall|a: int, b: int|
                        0 <= a < i && 0 <= b < cols ==> call_ensures(
                            *func,
                            (a as usize, b as usize, self.at(a, b)),
                            #[trigger] values@[a * cols + b],
                        ),
                    forall|b: int|
                        0 <= b < j ==> call_ensures(
                            *func,
                            (i, b as usize, self.at(i as int, b)),
                            #[trigger] values@[i * cols + b],
                        ),
                decreases cols - j,
            {
                proof {
                    lemma_index_in_range(i as int, j as int, rows as int, cols as int);
                }
                let x = self.values[i * cols + j];
                let y = func(i, j, x);
                let ghost prev = values@;
                values.push(y);
                assert forall|a: int, b: int|
                    0 <= a < i && 0 <= b < cols implies call_ensures(
                        *func,
                        (a as usize, b as usize, self.at(a, b)),
                        #[trigger] values@[a * cols + b],
                    ) by {
                    lemma_index_in_range(a, b, i as int, cols as int);
                    assert(values@[a * cols + b] == prev[a * cols + b]);
                }
                j = j + 1;
            }
            proof {
                lemma_next_row(i as int, cols as int);
            }
            i = i + 1;
        }
        self.values = values;
    }

    /// The place of row `row` and column `col` in the storage.
    pub fn cidx(&self, row: usize, col: usize) -> (r: usize)
        requires
            self.wf(),
            row < self.rows,
            col < self.cols,
        ensures
            r == row * self.cols + col,
            r < self.values@.len(),
    {
        let n = self.values.len();
        proof {
            lemma_index_in_range(row as int, col as int, self.rows as int, self.cols as int);
        }
        row * self.cols + col
    }

    /// Appends `values` as a new last row; `values` is left empty.
    pub fn push(&mut self, values: &mut Vec<T>)
        requires
            old(self).wf(),
            old(self).rows < usize::MAX,
            old(values)@.len() == old(self).cols,
        ensures
            final(self).wf(),
            final(self).rows == old(self).rows + 1,
            final(self).cols == old(self).cols,
            final(self).values@ == old(self).values@ + old(values)@,
            final(values)@.len() == 0,
    {
        proof {
            lemma_next_row(self.rows as int, self.cols as int);
        }
        self.rows = self.rows + 1;
        self.values.append(values);
    }

    /// The entry in row `row` and column `col`.
    pub fn get(&self, row: usize, col: usize) -> (r: T)
        requires
            self.wf(),
            row < self.rows,
            col < self.cols,
        ensures
            r == self.at(row as int, col as int),
    {
        self.values[self.cidx(row, col)]
    }
}

/// The sum of the first `k` products of row `i` of `a` with column `j` of `b`.
pub open spec fn dot(a: Matrix<i64>, b: Matrix<i64>, i: int, j: int, k: int) -> int
    decreases k,
{
    if k <= 0 {
        0
    } else {
        dot(a, b, i, j, k - 1) + a.at(i, k - 1) * b.at(k - 1, j)
    }
}

/// Every product and every partial sum of the product `a * b` fits in `i64`.
pub open spec fn product_fits(a: Matrix<i64>, b: Matrix<i64>) -> bool {
    forall|i: int, j: int, k: int|
        0 <= i < a.rows && 0 <= j < b.cols && 0 < k <= a.cols ==> {
            &&& i64::MIN <= #[trigger] dot(a, b, i, j, k) <= i64::MAX
            &&& i64::MIN <= a.at(i, k - 1) * b.at(k - 1, j) <= i64::MAX
        }
}

impl Matrix<i64> {
    /// The entrywise sum; the result keeps the shape of `self`.
    pub fn add(self, other: Matrix<i64>) -> (r: Matrix<i64>)
        requires
            self.values@.len() == other.values@.len(),
            forall|k: int|
                0 <= k < self.values@.len() ==> i64::MIN <= #[trigger] self.values@[k] + other.values@[k]
                    <= i64::MAX,
        ensures
            r.rows == self.rows,
            r.cols == self.cols,
            r.values@.len() == self.values@.len(),
            forall|k: int|
                0 <= k < self.values@.len() ==> #[trigger] r.values@[k] == self.values@[k] + other.values@[k],
    {
        let mut values: Vec<i64> = Vec::with_capacity(self.values.len());
        let mut k: usize = 0;
        while k < self.values.len()
            invariant
                self.values@.len() == other.values@.len(),
                forall|m: int|
                    0 <= m < self.values@.len() ==> i64::MIN <= #[trigger] self.values@[m] + other.values@[m]
                        <= i64::MAX,
                k <= self.values@.len(),
                values@.len() == k,
                forall|m: int| 0 <= m < k ==> #[trigger] values@[m] == self.values@[m] + other.values@[m],
            decreases self.values@.len() - k,
        {
            values.push(self.values[k] + other.values[k]);
            k = k + 1;
        }
        Matrix { rows: self.rows, cols: self.cols, values }
    }

    /// `other` added to every entry.
    pub fn add_scalar(self, other: i64) -> (r: Matrix<i64>)
        requires
            forall|k: int|
                0 <= k < self.values@.len() ==> i64::MIN <= #[trigger] self.values@[k] + other <= i64::MAX,
        ensures
            r.rows == self.rows,
            r.cols == self.cols,
            r.values@.len() == self.values@.len(),
            forall|k: int| 0 <= k < self.values@.len() ==> #[trigger] r.values@[k] == self.values@[k] + other,
    {
        let mut values: Vec<i64> = Vec::with_capacity(self.values.len());
        let mut k: usize = 0;
        while k < self.values.len()
            invariant
                forall|m: int|
                    0 <= m < self.values@.len() ==> i64::MIN <= #[trigger] self.values@[m] + other <= i64::MAX,
                k <= self.values@.len(),
                values@.len() == k,
                forall|m: int| 0 <= m < k ==> #[trigger] values@[m] == self.values@[m] + other,
            decreases self.values@.len() - k,
        {
            values.push(self.values[k] + other);
            k = k + 1;
        }
        Matrix { rows: self.rows, cols: self.cols, values }
    }

    /// Every entry multiplied by `other`.
    pub fn mul_scalar(self, other: i64) -> (r: Matrix<i64>)
        requires
            forall|k: int|
                0 <= k < self.values@.len() ==> i64::MIN <= #[trigger] self.values@[k] * other <= i64::MAX,
        ensures
            r.rows == self.rows,
            r.cols == self.cols,
            r.values@.len() == self.values@.len(),
            forall|k: int| 0 <= k < self.values@.len() ==> #[trigger] r.values@[k] == self.values@[k] * other,
    {
        let mut values: Vec<i64> = Vec::with_capacity(self.values.len());
        let mut k: usize = 0;
        while k < self.values.len()
            invariant
                forall|m: int|
                    0 <= m < self.values@.len() ==> i64::MIN <= #[trigger] self.values@[m] * other <= i64::MAX,
                k <= self.values@.len(),
                values@.len() == k,
                forall|m: int| 0 <= m < k ==> #[trigger] values@[m] == self.values@[m] * other,
            decreases self.values@.len() - k,
        {
            values.push(self.values[k] * other);
            k = k + 1;
        }
        Matrix { rows: self.rows, cols: self.cols, values }
    }

    /// The matrix product `self * other`: entry `(i, j)` is the sum over `k`
    /// of `self(i, k) * other(k, j)`.
    pub fn mul(&self, other: &Matrix<i64>) -> (r: Matrix<i64>)
        requires
            self.wf(),
            other.wf(),
            self.cols == other.rows,
            self.rows * other.cols <= usize::MAX,
            product_fits(*self, *other),
        ensures
            r.wf(),
            r.rows == self.rows,
            r.cols == other.cols,
            forall|i: int, j: int|
                0 <= i < self.rows && 0 <= j < other.cols ==> #[trigger] r.at(i, j) == dot(
                    *self,
                    *other,
                    i,
                    j,
                    self.cols as int,
                ),
    {
        let n = self.rows;
        let m = self.cols;
        let p = other.cols;
        let la = self.values.len();
        let lb = other.values.len();
        let mut values: Vec<i64> = Vec::with_capacity(n * p);
        let mut i: usize = 0;
        while i < n
            invariant
                self.wf(),
                other.wf(),
                la == self.values@.len(),
                lb == other.values@.len(),
                n == self.rows,
                m == self.cols,
                m == other.rows,
                p == other.cols,
                n * p <= usize::MAX,
                product_fits(*self, *other),
                i <= n,
                values@.len() == i * p,
                forall|a: int, b: int|
                    0 <= a < i && 0 <= b < p ==> #[trigger] values@[a * p + b] == dot(*self, *other, a, b, m as int),
            decreases n - i,
        {
            let mut j: usize = 0;
            while j < p
                invariant
                    self.wf(),
                    other.wf(),
                    la == self.values@.len(),
                    lb == other.values@.len(),
                    n == self.rows,
                    m == self.cols,
                    m == other.rows,
                    p == other.cols,
                    n * p <= usize::MAX,
                    product_fits(*self, *other),
                    i < n,
                    j <= p,
                    values@.len() == i * p + j,
                    forall|a: int, b: int|
                        0 <= a < i && 0 <= b < p ==> #[trigger] values@[a * p + b] == dot(*self, *other, a, b, m as int),
                    forall|b: int| 0 <= b < j ==> #[trigger] values@[i * p + b] == dot(*self, *other, i as int, b, m as int),
                decreases p - j,
            {
                let mut sum: i64 = 0;
                let mut k: usize = 0;
                while k < m
                    invariant
                        self.wf(),
                        other.wf(),
                        la == self.values@.len(),
                        lb == other.values@.len(),
                        n == self.rows,
                        m == self.cols,
                        m == other.rows,
                        p == other.cols,
                        product_fits(*self, *other),
                        i < n,
                        j < p,
                        k <= m,
                        sum == dot(*self, *other, i as int, j as int, k as int),
                    decreases m - k,
                {
                    proof {
                        lemma_index_in_range(i as int, k as int, n as int, m as int);
                        lemma_index_in_range(k as int, j as int, m as int, p as int);
                        assert(i64::MIN <= dot(*self, *other, i as int, j as int, k + 1) <= i64::MAX);
                    }
                    let x = self.values[i * m + k];
                    let y = other.values[k * p + j];
                    sum = sum + x * y;
                    k = k + 1;
                }
                proof {
                    lemma_index_in_range(i as int, j as int, n as int, p as int);
                }
                let ghost prev = values@;
                values.push(sum);
                assert forall|a: int, b: int|
                    0 <= a < i && 0 <= b < p implies #[trigger] values@[a * p + b] == dot(*self, *other, a, b, m as int) by {
                    lemma_index_in_range(a, b, i as int, p as int);
                    assert(values@[a * p + b] == prev[a * p + b]);
                }
                j = j + 1;
            }
            proof {
                lemma_next_row(i as int, p as int);
            }
            i = i + 1;
        }
        Matrix { rows: n, cols: p, values }
    }
}

} // verus!
