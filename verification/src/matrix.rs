//! Matrices of bits, and their textual wire format.

use vstd::prelude::*;
use vstd::string::*;

use crate::lexical::{chars_of, parse_number, split_words, NumberError};
#[allow(unused_imports)]
use crate::lexical::{number, texts, words};
use crate::pbc::{Pauli, PhysicalPauliString, PhysicalQubit};
#[allow(unused_imports)]
use crate::pbc::sort_sites;
use crate::text::{push_decimal, Text};
#[allow(unused_imports)]
use crate::text::decimal;

verus! {

/// A matrix of bits, held in an ndarray.
#[verifier::external_body]
pub struct BitMatrix {
    inner: ndarray::Array2<bool>,
}

/// The rows of a matrix.
pub uninterp spec fn rows_of(m: BitMatrix) -> Seq<Seq<bool>>;

/// The number of columns of a matrix.
pub uninterp spec fn width_of(m: BitMatrix) -> nat;

/// The axis lengths are within what ndarray can hold.
pub open spec fn shape_fits(rows: usize, cols: usize) -> bool {
    rows <= isize::MAX && cols <= isize::MAX && rows * cols <= isize::MAX
}

/// Bits in rows of one length.
pub open spec fn rectangular(rows: Seq<Seq<bool>>, width: nat) -> bool {
    forall|i: int| 0 <= i < rows.len() ==> (#[trigger] rows[i]).len() == width
}

/// `Array2::default` for a pair of axis lengths: every entry is the default of `bool`,
/// which is `false`. It panics where the product of the non-zero lengths is more than
/// `isize::MAX`.
#[verifier::external_body]
fn ndarray_default(rows: usize, cols: usize) -> (m: BitMatrix)
    requires
        shape_fits(rows, cols),
    ensures
        rows_of(m) == Seq::new(rows as nat, |i: int| Seq::new(cols as nat, |j: int| false)),
        width_of(m) == cols,
{
    BitMatrix { inner: ndarray::Array2::default((rows, cols)) }
}

/// `IndexMut` of `Array2` by a pair: writes that entry and no other.
#[verifier::external_body]
fn ndarray_set(m: &mut BitMatrix, i: usize, j: usize, bit: bool)
    requires
        i < rows_of(*old(m)).len(),
        j < width_of(*old(m)),
    ensures
        rows_of(*final(m)) == rows_of(*old(m)).update(
            i as int,
            rows_of(*old(m))[i as int].update(j as int, bit),
        ),
        width_of(*final(m)) == width_of(*old(m)),
{
    m.inner[[i, j]] = bit;
}

/// `Index` of `Array2` by a pair: reads that entry.
#[verifier::external_body]
fn ndarray_get(m: &BitMatrix, i: usize, j: usize) -> (bit: bool)
    requires
        i < rows_of(*m).len(),
        j < width_of(*m),
    ensures
        bit == rows_of(*m)[i as int][j as int],
{
    m.inner[[i, j]]
}

/// `ArrayBase::nrows` of a two-dimensional array: the length of its first axis.
#[verifier::external_body]
fn ndarray_nrows(m: &BitMatrix) -> (n: usize)
    ensures
        n == rows_of(*m).len(),
{
    m.inner.nrows()
}

/// `ArrayBase::ncols` of a two-dimensional array: the length of its second axis, which
/// is the length of every row.
#[verifier::external_body]
fn ndarray_ncols(m: &BitMatrix) -> (n: usize)
    ensures
        n == width_of(*m),
        rectangular(rows_of(*m), n as nat),
{
    m.inner.ncols()
}

impl BitMatrix {
    /// A matrix of zeros.
    pub fn zeros(rows: usize, cols: usize) -> (m: Self)
        requires
            shape_fits(rows, cols),
        ensures
            rows_of(m) == Seq::new(rows as nat, |i: int| Seq::new(cols as nat, |j: int| false)),
            width_of(m) == cols,
    {
        ndarray_default(rows, cols)
    }

    pub fn set(&mut self, i: usize, j: usize, bit: bool)
        requires
            i < rows_of(*old(self)).len(),
            j < width_of(*old(self)),
        ensures
            rows_of(*final(self)) == rows_of(*old(self)).update(
                i as int,
                rows_of(*old(self))[i as int].update(j as int, bit),
            ),
            width_of(*final(self)) == width_of(*old(self)),
    {
        ndarray_set(self, i, j, bit);
    }

    pub fn get(&self, i: usize, j: usize) -> (bit: bool)
        requires
            i < rows_of(*self).len(),
            j < width_of(*self),
        ensures
            bit == rows_of(*self)[i as int][j as int],
    {
        ndarray_get(self, i, j)
    }

    pub fn nrows(&self) -> (n: usize)
        ensures
            n == rows_of(*self).len(),
    {
        ndarray_nrows(self)
    }

    pub fn ncols(&self) -> (n: usize)
        ensures
            n == width_of(*self),
            rectangular(rows_of(*self), n as nat),
    {
        ndarray_ncols(self)
    }
}

// ---------------------------------------------------------------------------
// Reading
// ---------------------------------------------------------------------------
/// What a number on the wire stands for.
#[derive(Clone, Copy, PartialEq, Eq, Debug, Structural)]
pub enum Field {
    RowCount,
    ColumnCount,
    MatrixEntry,
}

impl Text for Field {
    open spec fn text(&self) -> Seq<char> {
        match *self {
            Field::RowCount => "row count"@,
            Field::ColumnCount => "column count"@,
            Field::MatrixEntry => "matrix entry"@,
        }
    }

    fn write_text(&self, out: &mut String) {
        match self {
            Field::RowCount => out.append("row count"),
            Field::ColumnCount => out.append("column count"),
            Field::MatrixEntry => out.append("matrix entry"),
        }
    }
}

/// Why no matrix could be read.
#[derive(Debug)]
pub enum WireError {
    /// The text ended where a number was expected.
    Ended(Field),
    /// A word is no number.
    Bad { field: Field, word: Vec<char>, error: NumberError },
    /// The counts are more than a matrix can hold.
    TooLarge { rows: usize, cols: usize },
    /// A matrix of logical operators has an odd number of columns.
    OddWidth(usize),
    /// The X and Z checks of a code have different numbers of columns.
    Widths { x: usize, z: usize },
}

/// The content of a [`WireError`].
#[verifier::ext_equal]
pub enum WireFault {
    Ended(Field),
    Bad { field: Field, word: Seq<char>, error: NumberError },
    TooLarge { rows: usize, cols: usize },
    OddWidth(usize),
    Widths { x: usize, z: usize },
}

impl View for WireError {
    type V = WireFault;

    open spec fn view(&self) -> WireFault {
        match *self {
            WireError::Ended(f) => WireFault::Ended(f),
            WireError::Bad { field, word, error } => WireFault::Bad { field, word: word@, error },
            WireError::TooLarge { rows, cols } => WireFault::TooLarge { rows, cols },
            WireError::OddWidth(n) => WireFault::OddWidth(n),
            WireError::Widths { x, z } => WireFault::Widths { x, z },
        }
    }
}

/// The number that word `k` is.
pub open spec fn field_at(ws: Seq<Seq<char>>, k: int, field: Field) -> Result<usize, WireFault> {
    if k >= ws.len() {
        Err(WireFault::Ended(field))
    } else {
        match number(ws[k]) {
            Ok(n) => Ok(n),
            Err(error) => Err(WireFault::Bad { field, word: ws[k], error }),
        }
    }
}

/// The first fault among the `n` matrix entries from word `k` on.
pub open spec fn entry_fault(ws: Seq<Seq<char>>, k: int, n: int) -> Option<WireFault>
    decreases n,
{
    if n <= 0 {
        None
    } else {
        match entry_fault(ws, k, n - 1) {
            Some(e) => Some(e),
            None => match field_at(ws, k + n - 1, Field::MatrixEntry) {
                Ok(_) => None,
                Err(e) => Some(e),
            },
        }
    }
}

/// A matrix on the wire: its rows, its width, and the word behind it.
pub struct WireMatrix {
    pub rows: Seq<Seq<bool>>,
    pub width: nat,
    pub next: int,
}

/// The matrix from word `k` on: the two counts, then the entries row by row, where
/// every number but zero is a one.
pub open spec fn matrix_at(ws: Seq<Seq<char>>, k: int) -> Result<WireMatrix, WireFault> {
    match field_at(ws, k, Field::RowCount) {
        Err(e) => Err(e),
        Ok(rows) => match field_at(ws, k + 1, Field::ColumnCount) {
            Err(e) => Err(e),
            Ok(cols) => if !shape_fits(rows, cols) {
                Err(WireFault::TooLarge { rows, cols })
            } else {
                match entry_fault(ws, k + 2, rows * cols) {
                    Some(e) => Err(e),
                    None => Ok(
                        WireMatrix {
                            rows: Seq::new(
                                rows as nat,
                                |i: int|
                                    Seq::new(
                                        cols as nat,
                                        |j: int| number(ws[k + 2 + i * cols + j]) != Ok::<
                                            usize,
                                            NumberError,
                                        >(0),
                                    ),
                            ),
                            width: cols as nat,
                            next: k + 2 + rows * cols,
                        },
                    ),
                }
            },
        },
    }
}

/// A cursor over the words of a text.
pub struct Tokens {
    words: Vec<Vec<char>>,
    cur: usize,
}

impl Tokens {
    pub closed spec fn words(self) -> Seq<Seq<char>> {
        texts(self.words@)
    }

    /// The number of words that were taken.
    pub closed spec fn taken(self) -> nat {
        self.cur as nat
    }

    pub fn new(text: &str) -> (r: Self)
        ensures
            r.words() == words(text@),
            r.taken() == 0,
    {
        let chars = chars_of(text);
        Tokens { words: split_words(&chars), cur: 0 }
    }

    fn take(&mut self, field: Field) -> (r: Result<usize, WireError>)
        requires
            old(self).taken() <= old(self).words().len(),
        ensures
            final(self).words() == old(self).words(),
            final(self).taken() == old(self).taken() + if old(self).taken() < old(self).words().len() {
                1nat
            } else {
                0
            },
            match field_at(old(self).words(), old(self).taken() as int, field) {
                Ok(n) => r == Ok::<usize, WireError>(n),
                Err(e) => r matches Err(w) && w@ == e,
            },
    {
        let k: usize = self.cur;
        if k >= self.words.len() {
            return Err(WireError::Ended(field));
        }
        self.cur = k + 1;
        match parse_number(&self.words[k]) {
            Ok(n) => Ok(n),
            Err(error) => {
                let word = crate::lexical::slice(&self.words[k], 0, self.words[k].len());
                assert(word@ =~= self.words@[k as int]@);
                Err(WireError::Bad { field, word, error })
            },
        }
    }

    /// Read a matrix: the two counts, then the entries row by row.
    #[verifier::spinoff_prover]
    pub fn read_matrix(&mut self) -> (r: Result<BitMatrix, WireError>)
        requires
            old(self).taken() <= old(self).words().len(),
        ensures
            final(self).words() == old(self).words(),
            final(self).taken() <= final(self).words().len(),
            match matrix_at(old(self).words(), old(self).taken() as int) {
                Ok(w) => (r matches Ok(m) && rows_of(m) == w.rows && width_of(m) == w.width)
                    && final(self).taken() == w.next,
                Err(e) => r matches Err(w) && w@ == e,
            },
    {
        let ghost ws = self.words();
        let ghost k = self.taken() as int;
        let rows = match self.take(Field::RowCount) {
            Ok(n) => n,
            Err(e) => {
                return Err(e);
            },
        };
        let cols = match self.take(Field::ColumnCount) {
            Ok(n) => n,
            Err(e) => {
                return Err(e);
            },
        };
        if rows > isize::MAX as usize || cols > isize::MAX as usize || (cols > 0 && rows
            > isize::MAX as usize / cols) {
            proof {
                if cols > 0 && rows > isize::MAX as usize / cols {
                    let (x, y, m) = (rows as int, cols as int, isize::MAX as int);
                    assert(x * y > m) by (nonlinear_arith)
                        requires
                            y > 0,
                            x > m / y,
                            m >= 0,
                    ;
                }
            }
            return Err(WireError::TooLarge { rows, cols });
        }
        proof {
            let (x, y, m) = (rows as int, cols as int, isize::MAX as int);
            if cols > 0 {
                assert(x * y <= m) by (nonlinear_arith)
                    requires
                        y > 0,
                        0 <= x <= m / y,
                        m >= 0,
                ;
            } else {
                assert(x * 0 == 0) by (nonlinear_arith);
            }
        }
        let mut m = BitMatrix::zeros(rows, cols);
        let ghost goal = Seq::new(
            rows as nat,
            |i: int|
                Seq::new(
                    cols as nat,
                    |j: int| number(ws[k + 2 + i * cols + j]) != Ok::<usize, NumberError>(0),
                ),
        );
        assert(0 * cols == 0) by (nonlinear_arith);
        let mut i: usize = 0;
        while i < rows
            invariant
                i <= rows,
                rows * cols <= isize::MAX,
                shape_fits(rows, cols),
                self.words() == ws,
                ws == old(self).words(),
                k == old(self).taken(),
                self.taken() == k + 2 + i * cols,
                self.taken() <= ws.len(),
                field_at(ws, k, Field::RowCount) == Ok::<usize, WireFault>(rows),
                field_at(ws, k + 1, Field::ColumnCount) == Ok::<usize, WireFault>(cols),
                entry_fault(ws, k + 2, i * cols) is None,
                goal == Seq::new(
                    rows as nat,
                    |i: int|
                        Seq::new(
                            cols as nat,
                            |j: int|
                                number(ws[k + 2 + i * cols + j]) != Ok::<usize, NumberError>(0),
                        ),
                ),
                rows_of(m).len() == rows,
                width_of(m) == cols,
                forall|a: int| 0 <= a < i ==> #[trigger] rows_of(m)[a] == goal[a],
                forall|a: int|
                    i <= a < rows ==> #[trigger] rows_of(m)[a] == Seq::new(
                        cols as nat,
                        |j: int| false,
                    ),
            decreases rows - i,
        {
            let ghost row = goal[i as int];
            proof {
                let (x, y, z) = (i as int, rows as int, cols as int);
                assert(x * z + z <= y * z) by (nonlinear_arith)
                    requires
                        0 <= x < y,
                        0 <= z,
                ;
                assert((x + 1) * z == x * z + z) by (nonlinear_arith);
            }
            let mut j: usize = 0;
            while j < cols
                invariant
                    i < rows,
                    j <= cols,
                    i * cols + cols <= rows * cols,
                    rows * cols <= isize::MAX,
                    shape_fits(rows, cols),
                    self.words() == ws,
                    ws == old(self).words(),
                    k == old(self).taken(),
                    self.taken() == k + 2 + i * cols + j,
                    self.taken() <= ws.len(),
                    field_at(ws, k, Field::RowCount) == Ok::<usize, WireFault>(rows),
                    field_at(ws, k + 1, Field::ColumnCount) == Ok::<usize, WireFault>(cols),
                    entry_fault(ws, k + 2, i * cols + j) is None,
                    row == goal[i as int],
                    row == Seq::new(
                        cols as nat,
                        |j: int| number(ws[k + 2 + i * cols + j]) != Ok::<usize, NumberError>(0),
                    ),
                    rows_of(m).len() == rows,
                    width_of(m) == cols,
                    forall|a: int| 0 <= a < i ==> #[trigger] rows_of(m)[a] == goal[a],
                    rows_of(m)[i as int].len() == cols,
                    forall|b: int| 0 <= b < j ==> rows_of(m)[i as int][b] == row[b],
                    forall|a: int|
                        i < a < rows ==> #[trigger] rows_of(m)[a] == Seq::new(
                            cols as nat,
                            |j: int| false,
                        ),
                decreases cols - j,
            {
                match self.take(Field::MatrixEntry) {
                    Ok(n) => {
                        m.set(i, j, n != 0);
                    },
                    Err(e) => {
                        proof {
                            lemma_fault_prefix(ws, k + 2, i * cols + j + 1, rows * cols);
                        }
                        return Err(e);
                    },
                }
                j = j + 1;
            }
            assert(rows_of(m)[i as int] =~= row);
            i = i + 1;
        }
        assert(rows_of(m) =~= goal);
        Ok(m)
    }
}

proof fn lemma_fault_prefix(ws: Seq<Seq<char>>, k: int, a: int, b: int)
    requires
        a <= b,
        entry_fault(ws, k, a) is Some,
    ensures
        entry_fault(ws, k, b) == entry_fault(ws, k, a),
    decreases b - a,
{
    if a < b {
        lemma_fault_prefix(ws, k, a, b - 1);
    }
}

impl WireFault {
    pub open spec fn message(self) -> Seq<char> {
        match self {
            WireFault::Ended(field) => "helper stdout ended while reading "@ + field.text(),
            WireFault::Bad { field, word, error } => "helper stdout: bad "@ + field.text() + " `"@
                + word + "`: "@ + error.message(),
            WireFault::TooLarge { rows, cols } => "matrix of "@ + decimal(rows as nat) + " by "@
                + decimal(cols as nat) + " entries is too large"@,
            WireFault::OddWidth(n) => "logical-ops matrix has odd width "@ + decimal(n as nat)
                + "; expected 2n columns"@,
            WireFault::Widths { x, z } => "h_x has "@ + decimal(x as nat) + " columns but h_z has "@
                + decimal(z as nat),
        }
    }
}

impl Text for WireError {
    open spec fn text(&self) -> Seq<char> {
        self@.message()
    }

    fn write_text(&self, out: &mut String) {
        let ghost before = out@;
        match self {
            WireError::Ended(field) => {
                out.append("helper stdout ended while reading ");
                field.write_text(out);
            },
            WireError::Bad { field, word, error } => {
                out.append("helper stdout: bad ");
                field.write_text(out);
                out.append(" `");
                crate::lexical::push_chars(out, word);
                out.append("`: ");
                error.write_text(out);
            },
            WireError::TooLarge { rows, cols } => {
                out.append("matrix of ");
                push_decimal(out, *rows);
                out.append(" by ");
                push_decimal(out, *cols);
                out.append(" entries is too large");
            },
            WireError::OddWidth(n) => {
                out.append("logical-ops matrix has odd width ");
                push_decimal(out, *n);
                out.append("; expected 2n columns");
            },
            WireError::Widths { x, z } => {
                out.append("h_x has ");
                push_decimal(out, *x);
                out.append(" columns but h_z has ");
                push_decimal(out, *z);
            },
        }
        assert(out@ =~= before + self@.message());
    }
}

// ---------------------------------------------------------------------------
// Writing
// ---------------------------------------------------------------------------
/// The first `n` entries of a row, with spaces between them.
pub open spec fn row_text(row: Seq<bool>, n: int) -> Seq<char>
    decreases n,
{
    if n <= 0 {
        Seq::empty()
    } else {
        let before = if n == 1 {
            Seq::empty()
        } else {
            row_text(row, n - 1).push(' ')
        };
        before.push(
            if row[n - 1] {
                '1'
            } else {
                '0'
            },
        )
    }
}

/// The first `n` rows, a line each.
pub open spec fn rows_text(rows: Seq<Seq<bool>>, width: nat, n: int) -> Seq<char>
    decreases n,
{
    if n <= 0 {
        Seq::empty()
    } else {
        rows_text(rows, width, n - 1) + row_text(rows[n - 1], width as int).push('\n')
    }
}

/// A matrix on the wire: a line with the two counts, then a line for each row.
pub open spec fn matrix_text(rows: Seq<Seq<bool>>, width: nat) -> Seq<char> {
    (decimal(rows.len()).push(' ') + decimal(width)).push('\n') + rows_text(
        rows,
        width,
        rows.len() as int,
    )
}

/// Append a matrix in the wire format.
pub fn write_matrix(out: &mut String, m: &BitMatrix)
    ensures
        final(out)@ == old(out)@ + matrix_text(rows_of(*m), width_of(*m)),
{
    let ghost before = out@;
    let n: usize = m.nrows();
    let w: usize = m.ncols();
    let ghost rows = rows_of(*m);
    push_decimal(out, n);
    out.push(' ');
    push_decimal(out, w);
    out.push('\n');
    let ghost head = (decimal(n as nat).push(' ') + decimal(w as nat)).push('\n');
    assert(out@ =~= before + head);
    let ghost start = out@;
    let mut i: usize = 0;
    assert(start + rows_text(rows, w as nat, 0) =~= start);
    while i < n
        invariant
            i <= n,
            rows == rows_of(*m),
            n == rows.len(),
            w == width_of(*m),
            out@ == start + rows_text(rows, w as nat, i as int),
        decreases n - i,
    {
        let ghost line = out@;
        let mut j: usize = 0;
        assert(line + row_text(rows[i as int], 0) =~= line);
        while j < w
            invariant
                i < n,
                j <= w,
                rows == rows_of(*m),
                n == rows.len(),
                w == width_of(*m),
                out@ == line + row_text(rows[i as int], j as int),
            decreases w - j,
        {
            if j > 0 {
                out.push(' ');
            }
            if m.get(i, j) {
                out.push('1');
            } else {
                out.push('0');
            }
            j = j + 1;
            assert(out@ =~= line + row_text(rows[i as int], j as int));
        }
        out.push('\n');
        i = i + 1;
        assert(out@ =~= start + rows_text(rows, w as nat, i as int));
    }
    assert(out@ =~= before + matrix_text(rows, w as nat));
}

// ---------------------------------------------------------------------------
// Pauli strings of rows
// ---------------------------------------------------------------------------
/// The Pauli of a pair of X and Z bits.
pub open spec fn pauli_of_bits(x: bool, z: bool) -> Pauli {
    match (x, z) {
        (false, false) => Pauli::I,
        (true, false) => Pauli::X,
        (false, true) => Pauli::Z,
        (true, true) => Pauli::Y,
    }
}

/// The sites of the first `q` qubits of a row with X bits before Z bits, `n` of each.
pub open spec fn symplectic_sites(row: Seq<bool>, n: int, q: int) -> Seq<(PhysicalQubit, Pauli)>
    decreases q,
{
    if q <= 0 {
        Seq::empty()
    } else {
        let rest = symplectic_sites(row, n, q - 1);
        let p = pauli_of_bits(row[q - 1], row[n + q - 1]);
        if p is I {
            rest
        } else {
            rest.push((PhysicalQubit((q - 1) as usize), p))
        }
    }
}

/// The sites of the first `q` qubits of a row of checks of one type.
pub open spec fn check_sites(row: Seq<bool>, p: Pauli, q: int) -> Seq<(PhysicalQubit, Pauli)>
    decreases q,
{
    if q <= 0 {
        Seq::empty()
    } else {
        let rest = check_sites(row, p, q - 1);
        if row[q - 1] {
            rest.push((PhysicalQubit((q - 1) as usize), p))
        } else {
            rest
        }
    }
}

/// The logical operators that a wire text holds, one for each row.
pub open spec fn logical_ops(text: Seq<char>) -> Result<Seq<Seq<(PhysicalQubit, Pauli)>>, WireFault> {
    match matrix_at(words(text), 0) {
        Err(e) => Err(e),
        Ok(m) => if m.width % 2 != 0 {
            Err(WireFault::OddWidth(m.width as usize))
        } else {
            let n = (m.width / 2) as int;
            Ok(
                Seq::new(
                    m.rows.len(),
                    |i: int| sort_sites(symplectic_sites(m.rows[i], n, n)),
                ),
            )
        },
    }
}

/// The contents of Pauli strings.
pub open spec fn string_views(v: Seq<PhysicalPauliString>) -> Seq<Seq<(PhysicalQubit, Pauli)>> {
    Seq::new(v.len(), |i: int| v[i]@)
}

/// Read a matrix of logical operators: in each row the X bit of qubit `q` is in column
/// `q`, and its Z bit in column `n + q`.
pub fn parse_logical_ops(text: &str) -> (r: Result<Vec<PhysicalPauliString>, WireError>)
    ensures
        match logical_ops(text@) {
            Ok(ops) => r matches Ok(v) && string_views(v@) == ops,
            Err(e) => r matches Err(w) && w@ == e,
        },
{
    let mut tokens = Tokens::new(text);
    let m = match tokens.read_matrix() {
        Ok(m) => m,
        Err(e) => {
            return Err(e);
        },
    };
    let cols: usize = m.ncols();
    if cols % 2 != 0 {
        return Err(WireError::OddWidth(cols));
    }
    let n: usize = cols / 2;
    let n_rows: usize = m.nrows();
    let ghost rows = rows_of(m);
    let ghost goal = Seq::new(
        rows.len(),
        |i: int| sort_sites(symplectic_sites(rows[i], n as int, n as int)),
    );
    let mut basis: Vec<PhysicalPauliString> = Vec::new();
    assert(string_views(basis@) =~= goal.take(0));
    let mut i: usize = 0;
    while i < n_rows
        invariant
            i <= n_rows,
            rows == rows_of(m),
            n_rows == rows.len(),
            2 * n == width_of(m),
            2 * n == cols,
            goal == Seq::new(
                rows.len(),
                |i: int| sort_sites(symplectic_sites(rows[i], n as int, n as int)),
            ),
            string_views(basis@) == goal.take(i as int),
        decreases n_rows - i,
    {
        let mut pairs: Vec<(PhysicalQubit, Pauli)> = Vec::new();
        let mut q: usize = 0;
        while q < n
            invariant
                i < n_rows,
                q <= n,
                rows == rows_of(m),
                n_rows == rows.len(),
                2 * n == width_of(m),
                2 * n == cols,
                pairs@ == symplectic_sites(rows[i as int], n as int, q as int),
            decreases n - q,
        {
            let x = m.get(i, q);
            let z = m.get(i, n + q);
            if x && z {
                pairs.push((PhysicalQubit(q), Pauli::Y));
            } else if x {
                pairs.push((PhysicalQubit(q), Pauli::X));
            } else if z {
                pairs.push((PhysicalQubit(q), Pauli::Z));
            }
            q = q + 1;
        }
        let op = PhysicalPauliString::new(pairs);
        proof {
            assert(string_views(basis@.push(op)) =~= string_views(basis@).push(op@));
            assert(goal.take(i + 1) =~= goal.take(i as int).push(goal[i as int]));
        }
        basis.push(op);
        i = i + 1;
    }
    assert(goal.take(goal.len() as int) =~= goal);
    Ok(basis)
}

/// The parity checks of a CSS code.
pub struct CSSCodeBlock {
    pub hx: BitMatrix,
    pub hz: BitMatrix,
}

/// The checks of one type: one for each row.
pub open spec fn checks_of(m: BitMatrix, p: Pauli) -> Seq<Seq<(PhysicalQubit, Pauli)>> {
    Seq::new(
        rows_of(m).len(),
        |i: int| sort_sites(check_sites(rows_of(m)[i], p, width_of(m) as int)),
    )
}

fn push_checks(m: &BitMatrix, p: Pauli, out: &mut Vec<PhysicalPauliString>)
    ensures
        string_views(final(out)@) == string_views(old(out)@) + checks_of(*m, p),
{
    let ghost before = string_views(out@);
    let ghost goal = checks_of(*m, p);
    let n_rows: usize = m.nrows();
    let w: usize = m.ncols();
    assert(before + goal.take(0) =~= before);
    let mut i: usize = 0;
    while i < n_rows
        invariant
            i <= n_rows,
            n_rows == rows_of(*m).len(),
            w == width_of(*m),
            goal == checks_of(*m, p),
            string_views(out@) == before + goal.take(i as int),
        decreases n_rows - i,
    {
        let mut pairs: Vec<(PhysicalQubit, Pauli)> = Vec::new();
        let mut j: usize = 0;
        while j < w
            invariant
                i < n_rows,
                j <= w,
                n_rows == rows_of(*m).len(),
                w == width_of(*m),
                pairs@ == check_sites(rows_of(*m)[i as int], p, j as int),
            decreases w - j,
        {
            if m.get(i, j) {
                pairs.push((PhysicalQubit(j), p));
            }
            j = j + 1;
        }
        let op = PhysicalPauliString::new(pairs);
        proof {
            assert(string_views(out@.push(op)) =~= string_views(out@).push(op@));
            assert(goal.take(i + 1) =~= goal.take(i as int).push(goal[i as int]));
            assert(before + goal.take(i + 1) =~= (before + goal.take(i as int)).push(
                goal[i as int],
            ));
        }
        out.push(op);
        i = i + 1;
    }
    assert(goal.take(goal.len() as int) =~= goal);
}

/// The stabilizer generators of a code: its X checks, then its Z checks.
pub fn get_stabilizers(code_block: &CSSCodeBlock) -> (r: Vec<PhysicalPauliString>)
    ensures
        string_views(r@) == checks_of(code_block.hx, Pauli::X) + checks_of(
            code_block.hz,
            Pauli::Z,
        ),
{
    let mut r: Vec<PhysicalPauliString> = Vec::new();
    push_checks(&code_block.hx, Pauli::X, &mut r);
    push_checks(&code_block.hz, Pauli::Z, &mut r);
    assert(string_views(r@) =~= checks_of(code_block.hx, Pauli::X) + checks_of(
        code_block.hz,
        Pauli::Z,
    ));
    r
}

/// The code that a wire text holds: the X checks, then the Z checks, of one width.
pub open spec fn code_at(text: Seq<char>) -> Result<(WireMatrix, WireMatrix), WireFault> {
    match matrix_at(words(text), 0) {
        Err(e) => Err(e),
        Ok(x) => match matrix_at(words(text), x.next) {
            Err(e) => Err(e),
            Ok(z) => if x.width != z.width {
                Err(WireFault::Widths { x: x.width as usize, z: z.width as usize })
            } else {
                Ok((x, z))
            },
        },
    }
}

/// Read the parity checks of a code.
pub fn parse_css_block(text: &str) -> (r: Result<CSSCodeBlock, WireError>)
    ensures
        match code_at(text@) {
            Ok((x, z)) => r matches Ok(b) && rows_of(b.hx) == x.rows && width_of(b.hx) == x.width
                && rows_of(b.hz) == z.rows && width_of(b.hz) == z.width,
            Err(e) => r matches Err(w) && w@ == e,
        },
{
    let mut tokens = Tokens::new(text);
    let hx = match tokens.read_matrix() {
        Ok(m) => m,
        Err(e) => {
            return Err(e);
        },
    };
    let hz = match tokens.read_matrix() {
        Ok(m) => m,
        Err(e) => {
            return Err(e);
        },
    };
    let x: usize = hx.ncols();
    let z: usize = hz.ncols();
    if x != z {
        return Err(WireError::Widths { x, z });
    }
    Ok(CSSCodeBlock { hx, hz })
}

/// What is asked of the logical-basis helper: whether to reduce the weights, then the
/// two matrices.
pub fn logical_basis_request(block: &CSSCodeBlock, reduce: bool) -> (r: String)
    ensures
        r@ == seq![
            if reduce {
                '1'
            } else {
                '0'
            },
            '\n',
        ] + matrix_text(rows_of(block.hx), width_of(block.hx)) + matrix_text(
            rows_of(block.hz),
            width_of(block.hz),
        ),
{
    let mut r = String::new();
    if reduce {
        r.push('1');
    } else {
        r.push('0');
    }
    r.push('\n');
    let ghost head = r@;
    assert(head =~= seq![
        if reduce {
            '1'
        } else {
            '0'
        },
        '\n',
    ]);
    write_matrix(&mut r, &block.hx);
    write_matrix(&mut r, &block.hz);
    r
}

// ---------------------------------------------------------------------------
// Cache names
// ---------------------------------------------------------------------------
/// The 64-bit FNV-1a hash `h` continued over bytes.
pub open spec fn fnv_from(h: u64, bytes: Seq<u8>) -> u64
    decreases bytes.len(),
{
    if bytes.len() == 0 {
        h
    } else {
        let before = fnv_from(h, bytes.drop_last());
        vstd::wrapping::u64_specs::wrapping_mul(before ^ (bytes.last() as u64), 0x100_0000_01b3)
    }
}

/// The start value of the hash.
pub const FNV_OFFSET: u64 = 0xcbf2_9ce4_8422_2325;

fn fnv_bytes(h: u64, bytes: &[u8]) -> (r: u64)
    ensures
        r == fnv_from(h, bytes@),
{
    let mut r: u64 = h;
    assert(bytes@.take(0) =~= Seq::empty());
    for i in 0..bytes.len()
        invariant
            r == fnv_from(h, bytes@.take(i as int)),
    {
        assert(bytes@.take(i + 1).drop_last() =~= bytes@.take(i as int));
        let b: u64 = bytes[i] as u64;
        r = (r ^ b).wrapping_mul(0x100_0000_01b3);
    }
    assert(bytes@.take(bytes@.len() as int) =~= bytes@);
    r
}

/// The 64-bit FNV-1a hash of two byte strings, one behind the other.
pub fn fnv1a64(first: &[u8], second: &[u8]) -> (h: u64)
    ensures
        h == fnv_from(FNV_OFFSET, first@ + second@),
{
    let h = fnv_bytes(FNV_OFFSET, first);
    proof {
        lemma_fnv_add(FNV_OFFSET, first@, second@);
    }
    fnv_bytes(h, second)
}

proof fn lemma_fnv_add(h: u64, a: Seq<u8>, b: Seq<u8>)
    ensures
        fnv_from(h, a + b) == fnv_from(fnv_from(h, a), b),
    decreases b.len(),
{
    if b.len() == 0 {
        assert(a + b =~= a);
    } else {
        assert((a + b).drop_last() =~= a + b.drop_last());
        lemma_fnv_add(h, a, b.drop_last());
    }
}

/// The hexadecimal digit `d`.
pub open spec fn hex_digit(d: int) -> char {
    if d < 10 {
        crate::text::digit_char(d)
    } else if d == 10 {
        'a'
    } else if d == 11 {
        'b'
    } else if d == 12 {
        'c'
    } else if d == 13 {
        'd'
    } else if d == 14 {
        'e'
    } else {
        'f'
    }
}

/// The last `n` hexadecimal digits of a number.
pub open spec fn hex(x: int, n: nat) -> Seq<char>
    decreases n,
{
    if n == 0 {
        Seq::empty()
    } else {
        hex(x / 16, (n - 1) as nat).push(hex_digit(x % 16))
    }
}

fn push_hex(out: &mut String, x: u64, n: usize)
    ensures
        final(out)@ == old(out)@ + hex(x as int, n as nat),
    decreases n,
{
    let ghost before = out@;
    if n > 0 {
        push_hex(out, x / 16, n - 1);
        let d: u64 = x % 16;
        let c: char = match d {
            0 => '0',
            1 => '1',
            2 => '2',
            3 => '3',
            4 => '4',
            5 => '5',
            6 => '6',
            7 => '7',
            8 => '8',
            9 => '9',
            10 => 'a',
            11 => 'b',
            12 => 'c',
            13 => 'd',
            14 => 'e',
            _ => 'f',
        };
        out.push(c);
    }
    assert(out@ =~= before + hex(x as int, n as nat));
}

/// The name under which the answer of a helper is kept: the hashes of script and input
/// in both orders, and the length of the input.
pub fn cache_name(script: &[u8], input: &[u8]) -> (r: String)
    ensures
        r@ == hex(fnv_from(FNV_OFFSET, script@ + input@) as int, 16) + hex(
            fnv_from(FNV_OFFSET, input@ + script@) as int,
            16,
        ) + seq!['-'] + decimal(input@.len()),
{
    let mut r = String::new();
    let h1 = fnv1a64(script, input);
    let h2 = fnv1a64(input, script);
    push_hex(&mut r, h1, 16);
    push_hex(&mut r, h2, 16);
    r.push('-');
    push_decimal(&mut r, input.len());
    assert(r@ =~= hex(h1 as int, 16) + hex(h2 as int, 16) + seq!['-'] + decimal(input@.len()));
    r
}

} // verus!
