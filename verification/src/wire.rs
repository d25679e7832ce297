//! Laws of the wire format: a matrix that was written is read back, and what the rows of a
//! matrix stand for.

use vstd::prelude::*;

#[allow(unused_imports)]
use crate::keyed::{has_key, key_lt, key_position, strictly_keyed, OrderedKey};
#[allow(unused_imports)]
use crate::lexical::{is_space, number, number_from, words, NumberError};
#[allow(unused_imports)]
use crate::matrix::{
    check_sites, checks_of, code_at, entry_fault, hex, hex_digit, logical_ops, matrix_at,
    matrix_text, pauli_of_bits, rectangular, row_text, rows_of, rows_text, shape_fits,
    symplectic_sites, width_of, BitMatrix,
};
#[allow(unused_imports)]
use crate::pbc::{law_sort_sorted_sites, pauli_at, sites_sorted, sort_sites, Pauli, PhysicalQubit};
#[allow(unused_imports)]
use crate::round_trip::{law_number_of_decimal, lemma_decimal_digits};
#[allow(unused_imports)]
use crate::text::decimal;

verus! {

// ---------------------------------------------------------------------------
// Words
// ---------------------------------------------------------------------------
/// What follows starts a new word.
pub open spec fn ended(s: Seq<char>) -> bool {
    s.len() == 0 || is_space(s.last())
}

/// The words of a text that was ended, and of what follows.
pub(crate) proof fn lemma_words_add(a: Seq<char>, b: Seq<char>)
    requires
        ended(a),
    ensures
        words(a + b) == words(a) + words(b),
        b.len() > 0 && !is_space(b.last()) ==> words(b).len() > 0,
    decreases b.len(),
{
    let s = a + b;
    if b.len() == 0 {
        assert(s =~= a);
        assert(words(a) + words(b) =~= words(a));
    } else {
        let t = b.drop_last();
        lemma_words_add(a, t);
        assert(s.drop_last() =~= a + t);
        assert(s.last() == b.last());
        if is_space(b.last()) {
        } else if b.len() == 1 || is_space(b[b.len() - 2]) {
            assert(s.len() == 1 || is_space(s[s.len() - 2]));
            assert(words(s) =~= words(a) + words(b));
        } else {
            assert(s[s.len() - 2] == b[b.len() - 2]);
            assert(t.last() == b[b.len() - 2]);
            assert(words(s) =~= words(a) + words(b));
        }
    }
}

/// A word alone.
pub(crate) proof fn lemma_one_word(w: Seq<char>)
    requires
        w.len() > 0,
        forall|i: int| 0 <= i < w.len() ==> !is_space(#[trigger] w[i]),
    ensures
        words(w) == seq![w],
    decreases w.len(),
{
    let t = w.drop_last();
    assert(!is_space(w[w.len() - 1]));
    if w.len() == 1 {
        assert(words(t) =~= Seq::empty());
        assert(seq![w.last()] =~= w);
        assert(words(w) =~= seq![w]);
    } else {
        assert forall|i: int| 0 <= i < t.len() implies !is_space(#[trigger] t[i]) by {
            assert(!is_space(w[i]));
        }
        lemma_one_word(t);
        assert(!is_space(w[w.len() - 2]));
        assert(t.push(w.last()) =~= w);
        assert(words(w) =~= seq![w]);
    }
}

/// A word and the space behind it.
pub(crate) proof fn lemma_spaced_word(a: Seq<char>, w: Seq<char>, c: char)
    requires
        ended(a),
        w.len() > 0,
        forall|i: int| 0 <= i < w.len() ==> !is_space(#[trigger] w[i]),
        is_space(c),
    ensures
        words(a + w.push(c)) == words(a).push(w),
        ended(a + w.push(c)),
{
    lemma_words_add(a, w.push(c));
    assert(w.push(c).drop_last() =~= w);
    lemma_one_word(w);
    assert(words(a) + seq![w] =~= words(a).push(w));
}

// ---------------------------------------------------------------------------
// A matrix that was written
// ---------------------------------------------------------------------------
/// The word of an entry.
spec fn entry(b: bool) -> Seq<char> {
    seq![
        if b {
            '1'
        } else {
            '0'
        },
    ]
}

/// The words of a row.
spec fn entries(row: Seq<bool>, n: int) -> Seq<Seq<char>> {
    Seq::new(n as nat, |j: int| entry(row[j]))
}

/// The words of the first `n` rows.
spec fn all_entries(rows: Seq<Seq<bool>>, width: nat, n: int) -> Seq<Seq<char>>
    decreases n,
{
    if n <= 0 {
        Seq::empty()
    } else {
        all_entries(rows, width, n - 1) + entries(rows[n - 1], width as int)
    }
}

proof fn lemma_row_words(row: Seq<bool>, n: int)
    requires
        0 <= n <= row.len(),
    ensures
        words(row_text(row, n)) == entries(row, n),
    decreases n,
{
    if n == 0 {
        assert(words(row_text(row, n)) =~= entries(row, n));
    } else {
        let d = entry(row[n - 1]);
        lemma_one_word(d);
        lemma_row_words(row, n - 1);
        if n == 1 {
            assert(row_text(row, n) =~= d);
            assert(entries(row, n) =~= seq![d]);
        } else {
            let a = row_text(row, n - 1).push(' ');
            assert(a.drop_last() =~= row_text(row, n - 1));
            lemma_words_add(a, d);
            assert(row_text(row, n) =~= a + d);
            assert(entries(row, n) =~= entries(row, n - 1) + seq![d]);
        }
    }
}

proof fn lemma_rows_words(rows: Seq<Seq<bool>>, width: nat, n: int)
    requires
        rectangular(rows, width),
        0 <= n <= rows.len(),
    ensures
        words(rows_text(rows, width, n)) == all_entries(rows, width, n),
        ended(rows_text(rows, width, n)),
    decreases n,
{
    if n > 0 {
        lemma_rows_words(rows, width, n - 1);
        let line = row_text(rows[n - 1], width as int);
        assert(rows[n - 1].len() == width);
        lemma_row_words(rows[n - 1], width as int);
        lemma_words_add(rows_text(rows, width, n - 1), line.push('\n'));
        assert(line.push('\n').drop_last() =~= line);
    }
}

proof fn lemma_all_entries(rows: Seq<Seq<bool>>, width: nat, n: int)
    requires
        0 <= n,
    ensures
        all_entries(rows, width, n).len() == n * width,
    decreases n,
{
    if n > 0 {
        lemma_all_entries(rows, width, n - 1);
        assert((n - 1) * width + width == n * width) by (nonlinear_arith);
    } else {
        assert(n * width == 0) by (nonlinear_arith)
            requires
                n == 0,
        ;
    }
}

proof fn lemma_entry_at(rows: Seq<Seq<bool>>, width: nat, n: int, i: int, j: int)
    requires
        0 <= i < n,
        0 <= j < width,
    ensures
        0 <= i * width + j < n * width,
        all_entries(rows, width, n)[i * width + j] == entry(rows[i][j]),
    decreases n,
{
    lemma_all_entries(rows, width, n - 1);
    lemma_all_entries(rows, width, n);
    assert(0 <= i * width) by (nonlinear_arith)
        requires
            0 <= i,
    ;
    assert((n - 1) * width + width == n * width) by (nonlinear_arith);
    if i < n - 1 {
        lemma_entry_at(rows, width, n - 1, i, j);
    }
}

/// Every word of the rows is an entry.
proof fn lemma_are_entries(rows: Seq<Seq<bool>>, width: nat, n: int, k: int)
    requires
        0 <= k < all_entries(rows, width, n).len(),
    ensures
        number(all_entries(rows, width, n)[k]) is Ok,
    decreases n,
{
    let before = all_entries(rows, width, n - 1);
    if k < before.len() {
        lemma_are_entries(rows, width, n - 1, k);
    } else {
        lemma_entry_number(rows[n - 1][k - before.len()]);
    }
}

proof fn lemma_entry_number(b: bool)
    ensures
        number(entry(b)) == Ok::<usize, NumberError>(
            if b {
                1
            } else {
                0
            },
        ),
{
    let s = entry(b);
    reveal_with_fuel(number_from, 2);
    assert(s.len() == 1);
    assert(s[0] == '0' || s[0] == '1');
}

proof fn lemma_no_fault(ws: Seq<Seq<char>>, k: int, n: int)
    requires
        0 <= k,
        k + n <= ws.len(),
        forall|i: int| k <= i < k + n ==> number(#[trigger] ws[i]) is Ok,
    ensures
        entry_fault(ws, k, n) is None,
    decreases n,
{
    if n > 0 {
        lemma_no_fault(ws, k, n - 1);
        assert(number(ws[k + n - 1]) is Ok);
    }
}

/// A matrix that was written behind an ended text is read back from there, whatever follows,
/// and reading goes on with what follows.
#[verifier::spinoff_prover]
pub proof fn law_written_matrix_is_read_back(
    before: Seq<char>,
    rows: Seq<Seq<bool>>,
    width: nat,
    after: Seq<char>,
)
    requires
        ended(before),
        rectangular(rows, width),
        rows.len() <= usize::MAX,
        width <= usize::MAX,
        shape_fits(rows.len() as usize, width as usize),
    ensures
        ({
            let text = before + matrix_text(rows, width) + after;
            let k = words(before).len() as int;
            &&& matrix_at(words(text), k) matches Ok(m) && m.rows == rows && m.width == width
                && words(text).skip(m.next) == words(after)
            &&& ended(before + matrix_text(rows, width))
        }),
{
    let n = rows.len() as int;
    let a = decimal(rows.len());
    let b = decimal(width);
    let body = rows_text(rows, width, n);
    let all = matrix_text(rows, width);
    let text = before + all + after;
    let k = words(before).len() as int;
    lemma_decimal_digits(rows.len());
    lemma_decimal_digits(width);
    assert forall|i: int| 0 <= i < a.len() implies !is_space(#[trigger] a[i]) by {}
    assert forall|i: int| 0 <= i < b.len() implies !is_space(#[trigger] b[i]) by {}
    let none = Seq::<char>::empty();
    lemma_spaced_word(none, a, ' ');
    let one = none + a.push(' ');
    lemma_spaced_word(one, b, '\n');
    let two = one + b.push('\n');
    lemma_rows_words(rows, width, n);
    lemma_words_add(two, body);
    assert(all =~= two + body);
    assert(words(none) =~= Seq::empty());
    assert(words(all) =~= seq![a, b] + all_entries(rows, width, n));
    lemma_words_add(before, all);
    assert(ended(before + all));
    lemma_words_add(before + all, after);
    let ws = words(text);
    let inner = all_entries(rows, width, n);
    assert(ws =~= words(before) + seq![a, b] + inner + words(after));
    lemma_all_entries(rows, width, n);
    law_number_of_decimal(n as usize);
    law_number_of_decimal(width as usize);
    assert(ws[k] == a);
    assert(ws[k + 1] == b);
    assert forall|i: int| k + 2 <= i < k + 2 + n * width implies number(#[trigger] ws[i]) is Ok by {
        assert(ws[i] == inner[i - k - 2]);
        lemma_are_entries(rows, width, n, i - k - 2);
    }
    lemma_no_fault(ws, k + 2, n * width);
    let m = matrix_at(ws, k)->Ok_0;
    assert(matrix_at(ws, k) is Ok);
    assert forall|i: int| 0 <= i < n implies m.rows[i] =~= rows[i] by {
        assert(rows[i].len() == width);
        assert forall|j: int| 0 <= j < width implies m.rows[i][j] == rows[i][j] by {
            lemma_entry_at(rows, width, n, i, j);
            assert(ws[k + 2 + i * width + j] == inner[i * width + j]);
            lemma_entry_number(rows[i][j]);
        }
    }
    assert(m.rows =~= rows);
    assert(ws.skip(m.next) =~= words(after));
}

/// The parity checks of a code that were written, X checks before Z checks, are read back.
pub proof fn law_written_code_is_read_back(
    hx: Seq<Seq<bool>>,
    hz: Seq<Seq<bool>>,
    width: nat,
)
    requires
        rectangular(hx, width),
        rectangular(hz, width),
        hx.len() <= usize::MAX,
        hz.len() <= usize::MAX,
        width <= usize::MAX,
        shape_fits(hx.len() as usize, width as usize),
        shape_fits(hz.len() as usize, width as usize),
    ensures
        code_at(matrix_text(hx, width) + matrix_text(hz, width)) matches Ok((x, z)) && x.rows == hx
            && z.rows == hz && x.width == width && z.width == width,
{
    let a = matrix_text(hx, width);
    let b = matrix_text(hz, width);
    let none = Seq::<char>::empty();
    law_written_matrix_is_read_back(none, hx, width, b);
    assert(none + a + b =~= a + b);
    assert(none + a =~= a);
    assert(words(none).len() == 0);
    law_written_matrix_is_read_back(a, hz, width, none);
    assert(a + b + none =~= a + b);
    let ws = words(a + b);
    lemma_words_add(a, b);
    let x = matrix_at(ws, 0)->Ok_0;
    assert(x.next == words(a).len()) by {
        lemma_words_add(none, a);
        assert(ws.skip(x.next) == words(b));
        assert(0 <= x.next <= ws.len()) by {
            assert(x.next == 2 + hx.len() * width);
            lemma_written_length(hx, width);
        }
        assert(ws.skip(x.next).len() == ws.len() - x.next);
    }
}

proof fn lemma_written_length(rows: Seq<Seq<bool>>, width: nat)
    requires
        rectangular(rows, width),
    ensures
        words(matrix_text(rows, width)).len() == 2 + rows.len() * width,
{
    let n = rows.len() as int;
    let a = decimal(rows.len());
    let b = decimal(width);
    lemma_decimal_digits(rows.len());
    lemma_decimal_digits(width);
    assert forall|i: int| 0 <= i < a.len() implies !is_space(#[trigger] a[i]) by {}
    assert forall|i: int| 0 <= i < b.len() implies !is_space(#[trigger] b[i]) by {}
    let none = Seq::<char>::empty();
    lemma_spaced_word(none, a, ' ');
    let one = none + a.push(' ');
    lemma_spaced_word(one, b, '\n');
    let two = one + b.push('\n');
    lemma_rows_words(rows, width, n);
    lemma_words_add(two, rows_text(rows, width, n));
    assert(matrix_text(rows, width) =~= two + rows_text(rows, width, n));
    lemma_all_entries(rows, width, n);
}

// ---------------------------------------------------------------------------
// Rows as Pauli strings
// ---------------------------------------------------------------------------
/// The sites are on qubits below `n`, in order.
spec fn rising(s: Seq<(PhysicalQubit, Pauli)>, n: int) -> bool {
    &&& strictly_keyed(s)
    &&& forall|i: int| 0 <= i < s.len() ==> (#[trigger] s[i]).0.0 < n
}

proof fn lemma_rising_push(s: Seq<(PhysicalQubit, Pauli)>, n: int, p: Pauli)
    requires
        rising(s, n),
        0 <= n <= usize::MAX,
    ensures
        ({
            let t = s.push((PhysicalQubit(n as usize), p));
            &&& rising(t, n + 1)
            &&& forall|q: PhysicalQubit| #[trigger]
                pauli_at(t, q) == if q.0 == n {
                    p
                } else {
                    pauli_at(s, q)
                }
        }),
{
    let t = s.push((PhysicalQubit(n as usize), p));
    assert forall|i: int, j: int| 0 <= i < j < t.len() implies key_lt(
        (#[trigger] t[i]).0.key(),
        (#[trigger] t[j]).0.key(),
    ) by {
        if j < s.len() {
            assert(key_lt(s[i].0.key(), s[j].0.key()));
        } else {
            assert(s[i].0.0 < n);
        }
    }
    assert forall|q: PhysicalQubit| #[trigger] pauli_at(t, q) == if q.0 == n {
        p
    } else {
        pauli_at(s, q)
    } by {
        assert(t[s.len() as int].0 == PhysicalQubit(n as usize));
        if q.0 == n {
            assert(has_key(t, q));
            let k = key_position(t, q);
            if k < s.len() {
                assert(s[k].0.0 < n);
            }
        } else if has_key(s, q) {
            let k = key_position(s, q);
            assert(t[k].0 == q);
            assert(has_key(t, q));
            let l = key_position(t, q);
            if k < l {
                assert(key_lt(t[k].0.key(), t[l].0.key()));
            } else if l < k {
                assert(key_lt(t[l].0.key(), t[k].0.key()));
            }
        } else if has_key(t, q) {
            let l = key_position(t, q);
            assert(s[l].0 == q);
        }
    }
}

proof fn lemma_rising_sorted(s: Seq<(PhysicalQubit, Pauli)>, n: int)
    requires
        rising(s, n),
    ensures
        sort_sites(s) == s,
{
    assert(sites_sorted(s));
    law_sort_sorted_sites(s);
}

proof fn lemma_symplectic(row: Seq<bool>, n: int, q: int)
    requires
        0 <= q <= n <= usize::MAX,
    ensures
        rising(symplectic_sites(row, n, q), q),
        forall|x: PhysicalQubit|
            x.0 < q ==> (#[trigger] pauli_at(symplectic_sites(row, n, q), x)).has_x()
                == row[x.0 as int] && pauli_at(symplectic_sites(row, n, q), x).has_z() == row[n
                + x.0],
        forall|x: PhysicalQubit|
            q <= x.0 ==> #[trigger] pauli_at(symplectic_sites(row, n, q), x) is I,
    decreases q,
{
    if q > 0 {
        lemma_symplectic(row, n, q - 1);
        let rest = symplectic_sites(row, n, q - 1);
        let p = pauli_of_bits(row[q - 1], row[n + q - 1]);
        lemma_rising_push(rest, q - 1, p);
    }
}

proof fn lemma_check_row(row: Seq<bool>, p: Pauli, q: int)
    requires
        0 <= q <= usize::MAX,
    ensures
        rising(check_sites(row, p, q), q),
        forall|x: PhysicalQubit| #[trigger]
            pauli_at(check_sites(row, p, q), x) == if x.0 < q && row[x.0 as int] {
                p
            } else {
                Pauli::I
            },
    decreases q,
{
    if q > 0 {
        lemma_check_row(row, p, q - 1);
        lemma_rising_push(check_sites(row, p, q - 1), q - 1, p);
    }
}

/// The logical operators that were written in `2n` columns are read as such: operator `i`
/// flips bits on the qubits whose columns in the first half hold ones, and phases on those
/// whose columns in the second half do.
pub proof fn law_logical_rows_hold_bits(
    rows: Seq<Seq<bool>>,
    n: nat,
    i: int,
    x: PhysicalQubit,
)
    requires
        rectangular(rows, 2 * n),
        rows.len() <= usize::MAX,
        2 * n <= usize::MAX,
        shape_fits(rows.len() as usize, (2 * n) as usize),
        0 <= i < rows.len(),
    ensures
        logical_ops(matrix_text(rows, 2 * n)) matches Ok(ops) && ops.len() == rows.len()
            && strictly_keyed(ops[i]) && pauli_at(ops[i], x).has_x() == (x.0 < n
            && rows[i][x.0 as int]) && pauli_at(ops[i], x).has_z() == (x.0 < n && rows[i][n + x.0]),
{
    let none = Seq::<char>::empty();
    let text = matrix_text(rows, 2 * n);
    law_written_matrix_is_read_back(none, rows, 2 * n, none);
    assert(none + text + none =~= text);
    assert(words(none).len() == 0);
    lemma_symplectic(rows[i], n as int, n as int);
    lemma_rising_sorted(symplectic_sites(rows[i], n as int, n as int), n as int);
}

/// Check `i` of a matrix has its Pauli on the qubits whose columns hold ones.
pub proof fn law_check_rows_hold_bits(m: BitMatrix, p: Pauli, i: int, x: PhysicalQubit)
    requires
        0 <= i < rows_of(m).len(),
        width_of(m) <= usize::MAX,
    ensures
        strictly_keyed(checks_of(m, p)[i]),
        pauli_at(checks_of(m, p)[i], x) == if x.0 < width_of(m) && rows_of(m)[i][x.0 as int] {
            p
        } else {
            Pauli::I
        },
{
    let row = rows_of(m)[i];
    let w = width_of(m) as int;
    lemma_check_row(row, p, w);
    lemma_rising_sorted(check_sites(row, p, w), w);
}

// ---------------------------------------------------------------------------
// Hexadecimal numbers
// ---------------------------------------------------------------------------
/// The value of a hexadecimal digit in lower case.
pub open spec fn hex_value(c: char) -> int {
    if '0' <= c && c <= '9' {
        c as int - '0' as int
    } else {
        c as int - 'a' as int + 10
    }
}

/// The number that hexadecimal digits denote.
pub open spec fn hex_number(s: Seq<char>) -> int
    decreases s.len(),
{
    if s.len() == 0 {
        0
    } else {
        16 * hex_number(s.drop_last()) + hex_value(s.last())
    }
}

/// As many hexadecimal digits as a number needs denote the number.
pub proof fn law_hexadecimal_digits_denote(x: int, n: nat)
    requires
        0 <= x < vstd::arithmetic::power::pow(16, n),
    ensures
        hex(x, n).len() == n,
        hex_number(hex(x, n)) == x,
    decreases n,
{
    vstd::arithmetic::power::lemma_pow0(16);
    if n > 0 {
        let m = (n - 1) as nat;
        assert(vstd::arithmetic::power::pow(16, n) == 16 * vstd::arithmetic::power::pow(16, m))
            by {
            vstd::arithmetic::power::lemma_pow_adds(16, 1, m);
            vstd::arithmetic::power::lemma_pow1(16);
        }
        law_hexadecimal_digits_denote(x / 16, m);
        let d = x % 16;
        assert(hex(x, n).drop_last() =~= hex(x / 16, m));
        assert(hex_value(hex_digit(d)) == d);
    }
}

} // verus!
