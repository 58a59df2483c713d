//! Chain complexes with Z2 coefficients: sequences of graded matrices
//! representing free persistence modules.

use vstd::prelude::*;

use crate::io_utils::{dec_rep, push_u64_decimal};
use crate::OneCriticalGrade;

verus! {

/// A column with coefficients in Z2.
#[derive(Debug)]
pub struct Column {
    /// Position of the non-zero entries of the column.
    pub non_zeros: Vec<usize>,
}

impl Column {
    /// A column with no non-zero entries.
    pub fn new_empty() -> (r: Self)
        ensures
            r.non_zeros@ == Seq::<usize>::empty(),
    {
        Self::new(Vec::new())
    }

    /// A column with the given non-zero entries.
    pub fn new(non_zeros: Vec<usize>) -> (r: Self)
        ensures
            r.non_zeros@ == non_zeros@,
    {
        Self { non_zeros }
    }
}

/// A column matrix with coefficients in Z2.
#[derive(Debug)]
pub struct ColumnMatrix {
    /// The columns of the matrix.
    pub columns: Vec<Column>,
}

impl ColumnMatrix {
    /// A matrix of `n_columns` empty columns.
    pub fn new_empty(n_columns: usize) -> (r: Self)
        ensures
            r.columns@.len() == n_columns,
            forall|i: int|
                0 <= i < n_columns ==> (#[trigger] r.columns@[i]).non_zeros@ == Seq::<
                    usize,
                >::empty(),
    {
        let mut columns: Vec<Column> = Vec::new();
        let mut i: usize = 0;
        while i < n_columns
            invariant
                columns@.len() == i <= n_columns,
                forall|k: int|
                    0 <= k < i ==> (#[trigger] columns@[k]).non_zeros@ == Seq::<usize>::empty(),
            decreases n_columns - i,
        {
            columns.push(Column::new_empty());
            i = i + 1;
        }
        Self::new(columns)
    }

    /// A matrix of the given columns.
    pub fn new(columns: Vec<Column>) -> (r: Self)
        ensures
            r.columns@ == columns@,
    {
        Self { columns }
    }

    /// Appends a column to the matrix.
    pub fn add_column(&mut self, column: Column)
        ensures
            final(self).columns@ == old(self).columns@.push(column),
    {
        self.columns.push(column)
    }

    /// Returns the number of columns.
    pub fn n_cols(&self) -> (r: usize)
        ensures
            r == self.columns@.len(),
    {
        self.columns.len()
    }
}

/// A column matrix with a grade associated to each column.
/// The matrix has Z2 coefficients.
#[derive(Debug)]
pub struct GradedMatrix {
    /// The grade of each column.
    pub grades: Vec<OneCriticalGrade>,
    /// The columns themselves.
    pub matrix: ColumnMatrix,
}

impl GradedMatrix {
    /// Whether the matrix has as many grades as columns.
    pub open spec fn wf(self) -> bool {
        self.grades@.len() == self.matrix.columns@.len()
    }

    /// A graded matrix of `n_columns` empty columns, each at the least
    /// grade.
    pub fn new_empty(n_columns: usize) -> (r: Self)
        ensures
            r.wf(),
            r.matrix.columns@.len() == n_columns,
            forall|i: int| 0 <= i < n_columns ==> r.grades@[i] == OneCriticalGrade(0, 0),
    {
        let mut grades: Vec<OneCriticalGrade> = Vec::new();
        let mut i: usize = 0;
        while i < n_columns
            invariant
                grades@.len() == i <= n_columns,
                forall|k: int| 0 <= k < i ==> grades@[k] == OneCriticalGrade(0, 0),
            decreases n_columns - i,
        {
            grades.push(OneCriticalGrade::min_value());
            i = i + 1;
        }
        Self::new(ColumnMatrix::new_empty(n_columns), grades)
    }

    /// A graded matrix of the given columns and grades. The number of grades
    /// must be equal to the number of columns.
    pub fn new(matrix: ColumnMatrix, grades: Vec<OneCriticalGrade>) -> (r: Self)
        requires
            matrix.columns@.len() == grades@.len(),
        ensures
            r.wf(),
            r.matrix.columns@ == matrix.columns@,
            r.grades@ == grades@,
    {
        Self { grades, matrix }
    }

    /// Appends a column at the given grade.
    pub fn add_column(&mut self, grade: OneCriticalGrade, column: Column)
        ensures
            final(self).grades@ == old(self).grades@.push(grade),
            final(self).matrix.columns@ == old(self).matrix.columns@.push(column),
            old(self).wf() ==> final(self).wf(),
    {
        self.grades.push(grade);
        self.matrix.add_column(column);
    }

    /// Returns the number of columns.
    pub fn n_cols(&self) -> (r: usize)
        ensures
            r == self.matrix.columns@.len(),
    {
        self.matrix.n_cols()
    }
}

/// A chain complex: a sequence of graded matrices representing free
/// persistence modules.
#[derive(Debug)]
pub struct ChainComplex {
    /// The graded matrix of each dimension.
    pub matrices: Vec<GradedMatrix>,
}

impl ChainComplex {
    /// A chain complex of the given graded matrices.
    pub fn new(matrices: Vec<GradedMatrix>) -> (r: Self)
        ensures
            r.matrices@ == matrices@,
    {
        Self { matrices }
    }

    /// Writes the chain complex in the scc2020 exchange format: the header,
    /// the parameter count, the dimension-size row, and the graded columns
    /// of every dimension but the last, whose generators homology does not
    /// need.
    #[verifier::loop_isolation(false)]
    #[verifier::rlimit(80)]
    #[verifier::spinoff_prover]
    pub fn write_scc2020(&self) -> (r: Vec<u8>)
        requires
            forall|t: int| 0 <= t < self.matrices@.len() ==> (#[trigger] self.matrices@[t]).wf(),
        ensures
            r@ == scc2020_bytes(*self),
    {
        let mut w: Vec<u8> = Vec::new();
        w.push(115);
        w.push(99);
        w.push(99);
        w.push(50);
        w.push(48);
        w.push(50);
        w.push(48);
        w.push(10);
        w.push(50);
        w.push(10);
        let ghost header = w@;
        proof {
            assert(header =~= seq![115u8, 99u8, 99u8, 50u8, 48u8, 50u8, 48u8, 10u8] + seq![
                50u8,
                10u8,
            ]);
        }

        let n_matrices = self.matrices.len();
        for idx in 0..n_matrices
            invariant
                w@ == header + sizes_row(self.matrices@, idx as int),
        {
            push_u64_decimal(&mut w, self.matrices[idx].matrix.n_cols() as u64);
            if idx != n_matrices - 1 {
                w.push(32);
            }
            proof {
                assert(w@ =~= header + sizes_row(self.matrices@, idx + 1));
            }
        }
        w.push(10);
        let ghost preamble = w@;
        proof {
            assert(preamble =~= header + sizes_row(
                self.matrices@,
                self.matrices@.len() as int,
            ) + seq![10u8]);
            assert(matrix_blocks(self.matrices@, 0) =~= Seq::<u8>::empty());
            assert(w@ =~= preamble + matrix_blocks(self.matrices@, 0));
        }

        for idx_matrix in 0..n_matrices
            invariant
                w@ == preamble + matrix_blocks(
                    self.matrices@,
                    if idx_matrix > n_matrices - 1 {
                        n_matrices - 1
                    } else {
                        idx_matrix as int
                    },
                ),
        {
            // We do not need a description of the generators of the last
            // matrix to calculate homology.
            if idx_matrix != n_matrices - 1 {
                let graded_matrix = &self.matrices[idx_matrix];
                let n_cols = graded_matrix.matrix.n_cols();
                let ghost block_start = w@;
                for c in 0..n_cols
                    invariant
                        n_cols == graded_matrix.matrix.columns@.len(),
                        graded_matrix == &self.matrices@[idx_matrix as int],
                        graded_matrix.wf(),
                        w@ == block_start + matrix_lines(*graded_matrix, c as int),
                {
                    let grade = graded_matrix.grades[c];
                    push_u64_decimal(&mut w, grade.0);
                    w.push(32);
                    push_u64_decimal(&mut w, grade.1);
                    w.push(32);
                    w.push(59);
                    let column = &graded_matrix.matrix.columns[c];
                    let n_entries = column.non_zeros.len();
                    let ghost line_start = w@;
                    for e in 0..n_entries
                        invariant
                            n_entries == column.non_zeros@.len(),
                            column == &graded_matrix.matrix.columns@[c as int],
                            w@ == line_start + indices_bytes(
                                column.non_zeros@.subrange(0, e as int),
                            ),
                    {
                        w.push(32);
                        push_u64_decimal(&mut w, column.non_zeros[e] as u64);
                        proof {
                            assert(column.non_zeros@.subrange(0, e + 1).drop_last()
                                =~= column.non_zeros@.subrange(0, e as int));
                            assert(w@ =~= line_start + indices_bytes(
                                column.non_zeros@.subrange(0, e + 1),
                            ));
                        }
                    }
                    w.push(10);
                    proof {
                        assert(column.non_zeros@.subrange(0, n_entries as int)
                            =~= column.non_zeros@);
                        assert(w@ =~= block_start + matrix_lines(*graded_matrix, c + 1));
                    }
                }
                if idx_matrix != n_matrices - 2 {
                    w.push(10);
                }
                proof {
                    assert(w@ =~= preamble + matrix_blocks(self.matrices@, idx_matrix + 1));
                }
            }
        }
        proof {
            assert(w@ =~= scc2020_bytes(*self));
        }
        w
    }
}

/// The bytes of a column's boundary indices: each one preceded by a space.
pub open spec fn indices_bytes(s: Seq<usize>) -> Seq<u8>
    decreases s.len(),
{
    if s.len() == 0 {
        Seq::empty()
    } else {
        indices_bytes(s.drop_last()) + seq![32u8] + dec_rep(s.last() as nat)
    }
}

/// The line of one column: its grade coordinates, a semicolon, and its
/// boundary indices.
pub open spec fn column_line(g: OneCriticalGrade, col: Seq<usize>) -> Seq<u8> {
    dec_rep(g.0 as nat) + seq![32u8] + dec_rep(g.1 as nat) + seq![32u8, 59u8] + indices_bytes(col)
        + seq![10u8]
}

/// The lines of the first `i` columns of a graded matrix.
pub open spec fn matrix_lines(m: GradedMatrix, i: int) -> Seq<u8>
    decreases i,
{
    if i <= 0 {
        Seq::empty()
    } else {
        matrix_lines(m, i - 1) + column_line(m.grades@[i - 1], m.matrix.columns@[i - 1].non_zeros@)
    }
}

/// The dimension-size row of the first `i` matrices: the column counts,
/// separated by spaces.
pub open spec fn sizes_row(ms: Seq<GradedMatrix>, i: int) -> Seq<u8>
    decreases i,
{
    if i <= 0 {
        Seq::empty()
    } else {
        sizes_row(ms, i - 1) + dec_rep(ms[i - 1].matrix.columns@.len()) + (if i < ms.len() {
            seq![32u8]
        } else {
            Seq::<u8>::empty()
        })
    }
}

/// The per-dimension blocks of the first `i` matrices. The last matrix gets
/// no block, and a blank line stands between blocks.
pub open spec fn matrix_blocks(ms: Seq<GradedMatrix>, i: int) -> Seq<u8>
    decreases i,
{
    if i <= 0 {
        Seq::empty()
    } else {
        matrix_blocks(ms, i - 1) + matrix_lines(ms[i - 1], ms[i - 1].matrix.columns@.len() as int)
            + (if i < ms.len() - 1 {
            seq![10u8]
        } else {
            Seq::<u8>::empty()
        })
    }
}

/// The whole scc2020 document of a chain complex: the header, the parameter
/// count, the dimension-size row, and one block of column lines per
/// dimension but the last.
pub open spec fn scc2020_bytes(c: ChainComplex) -> Seq<u8> {
    seq![115u8, 99u8, 99u8, 50u8, 48u8, 50u8, 48u8, 10u8] + seq![50u8, 10u8] + sizes_row(
        c.matrices@,
        c.matrices@.len() as int,
    ) + seq![10u8] + matrix_blocks(c.matrices@, c.matrices@.len() - 1)
}

} // verus!
