//! A gate that was written is read back from its line.

use vstd::prelude::*;

#[allow(unused_imports)]
use crate::lexical::{is_space, number, words};
#[allow(unused_imports)]
use crate::pbc::Pauli;
#[allow(unused_imports)]
use crate::physical::GateModel;
#[allow(unused_imports)]
use crate::round_trip::{law_number_of_decimal, lemma_decimal_digits};
#[allow(unused_imports)]
use crate::stim::{gate_text, run_head, run_item, run_of};
#[allow(unused_imports)]
use crate::text::{decimal, Text};
#[allow(unused_imports)]
use crate::wire::{lemma_one_word, lemma_spaced_word, lemma_words_add};

verus! {

/// The Pauli that a letter names.
pub open spec fn pauli_named(c: char) -> Pauli {
    if c == 'X' {
        Pauli::X
    } else if c == 'Y' {
        Pauli::Y
    } else if c == 'Z' {
        Pauli::Z
    } else {
        Pauli::I
    }
}

/// The number that a word is.
pub open spec fn number_in(w: Seq<char>) -> usize {
    match number(w) {
        Ok(n) => n,
        Err(_) => 0,
    }
}

/// What is on a line of these words: `R` resets and `M` measures in the basis behind it, a
/// qubit behind `!` inverted; `C` applies the Pauli behind it to the second qubit, controlled
/// on the first; `CNOT` applies X to a qubit, controlled on the record that many back.
pub open spec fn read_gate(ws: Seq<Seq<char>>) -> Option<GateModel<usize>> {
    if ws.len() == 2 && ws[0].len() == 2 && ws[0][0] == 'R' {
        Some(GateModel::Reset(pauli_named(ws[0][1]), number_in(ws[1])))
    } else if ws.len() == 2 && ws[0].len() == 2 && ws[0][0] == 'M' {
        if ws[1].len() > 0 && ws[1][0] == '!' {
            Some(GateModel::Measure(pauli_named(ws[0][1]), number_in(ws[1].skip(1)), true))
        } else {
            Some(GateModel::Measure(pauli_named(ws[0][1]), number_in(ws[1]), false))
        }
    } else if ws.len() == 3 && ws[0].len() == 2 && ws[0][0] == 'C' {
        Some(
            GateModel::Controlled(pauli_named(ws[0][1]), number_in(ws[1]), number_in(ws[2])),
        )
    } else if ws.len() == 3 && ws[0] == "CNOT"@ && ws[1].len() > 6 && ws[1].take(5) == "rec[-"@ {
        Some(
            GateModel::XCorrection(
                number_in(ws[1].subrange(5, ws[1].len() - 1)),
                number_in(ws[2]),
            ),
        )
    } else {
        None
    }
}

/// A word has no white space in it.
spec fn wordy(w: Seq<char>) -> bool {
    w.len() > 0 && forall|i: int| 0 <= i < w.len() ==> !is_space(#[trigger] w[i])
}

proof fn lemma_number_word(n: usize)
    ensures
        wordy(decimal(n as nat)),
        number_in(decimal(n as nat)) == n,
        decimal(n as nat)[0] != '!',
{
    lemma_decimal_digits(n as nat);
    law_number_of_decimal(n);
    assert('0' <= decimal(n as nat)[0] <= '9');
}

/// Two words with a space between them.
proof fn lemma_two_words(a: Seq<char>, b: Seq<char>)
    requires
        wordy(a),
        wordy(b),
    ensures
        words(a + (seq![' '] + b)) == seq![a, b],
{
    let none = Seq::<char>::empty();
    lemma_spaced_word(none, a, ' ');
    let head = none + a.push(' ');
    lemma_words_add(head, b);
    lemma_one_word(b);
    assert(words(none) =~= Seq::empty());
    assert(head + b =~= a + (seq![' '] + b));
    assert(words(head) + seq![b] =~= seq![a, b]);
}

/// Three words with spaces between them.
proof fn lemma_three_words(a: Seq<char>, b: Seq<char>, c: Seq<char>)
    requires
        wordy(a),
        wordy(b),
        wordy(c),
    ensures
        words(a + (seq![' '] + b) + (seq![' '] + c)) == seq![a, b, c],
{
    lemma_two_words(a, b);
    let two = a + (seq![' '] + b);
    let head = two + seq![' '];
    assert(head.drop_last() =~= two);
    assert(words(head) == words(two));
    lemma_words_add(head, c);
    lemma_one_word(c);
    assert(head + c =~= two + (seq![' '] + c));
    assert(words(head) + seq![c] =~= seq![a, b, c]);
}

/// The letter of a Pauli names it.
proof fn lemma_letter_of(p: Pauli)
    ensures
        p.text().len() == 1,
        pauli_named(p.text()[0]) == p,
        !is_space(p.text()[0]),
{
    reveal_strlit("I");
    reveal_strlit("X");
    reveal_strlit("Y");
    reveal_strlit("Z");
}

/// The first word of a line.
proof fn lemma_head_word(c: char, s: Seq<char>, p: Pauli)
    requires
        s == seq![c],
        !is_space(c),
    ensures
        wordy(s + p.text()),
        (s + p.text()).len() == 2,
        (s + p.text())[0] == c,
        pauli_named((s + p.text())[1]) == p,
{
    lemma_letter_of(p);
}

/// A reset, a measurement, a controlled Pauli or a correction that was written by itself is
/// read back from its words.
#[verifier::spinoff_prover]
pub proof fn law_written_gate_is_read_back(g: GateModel<usize>)
    requires
        g is Reset || g is Measure || g is Controlled || g is XCorrection,
    ensures
        read_gate(words(gate_text(g))) == Some(g),
        read_gate(words(run_head(run_of(g)) + run_item(g))) == Some(g),
{
    reveal_strlit("R");
    reveal_strlit("M");
    reveal_strlit("C");
    reveal_strlit("CNOT");
    reveal_strlit(" ");
    reveal_strlit(" !");
    reveal_strlit(" rec[-");
    reveal_strlit("] ");
    reveal_strlit("rec[-");
    let head = run_head(run_of(g));
    let sp = seq![' '];
    assert(" "@ =~= sp);
    match g {
        GateModel::Reset(b, q) => {
            assert("R"@ =~= seq!['R']);
            lemma_head_word('R', "R"@, b);
            lemma_number_word(q);
            lemma_two_words(head, decimal(q as nat));
            assert(run_item(g) == sp + decimal(q as nat));
        },
        GateModel::Measure(b, q, invert) => {
            assert("M"@ =~= seq!['M']);
            lemma_head_word('M', "M"@, b);
            lemma_number_word(q);
            let n = decimal(q as nat);
            if invert {
                let w = seq!['!'] + n;
                assert(wordy(w)) by {
                    assert forall|i: int| 0 <= i < w.len() implies !is_space(#[trigger] w[i]) by {
                        if i > 0 {
                            assert(w[i] == n[i - 1]);
                        }
                    }
                }
                lemma_two_words(head, w);
                assert(run_item(g) =~= sp + w);
                assert(w.skip(1) =~= n);
            } else {
                lemma_two_words(head, n);
                assert(run_item(g) == sp + n);
            }
        },
        GateModel::Controlled(p, c, t) => {
            assert("C"@ =~= seq!['C']);
            lemma_head_word('C', "C"@, p);
            lemma_number_word(c);
            lemma_number_word(t);
            lemma_three_words(head, decimal(c as nat), decimal(t as nat));
            assert(head + run_item(g) =~= head + (sp + decimal(c as nat)) + (sp + decimal(
                t as nat,
            )));
        },
        GateModel::XCorrection(k, q) => {
            lemma_number_word(k);
            lemma_number_word(q);
            let n = decimal(k as nat);
            let w = "rec[-"@ + n + seq![']'];
            assert(wordy(head));
            assert(wordy(w)) by {
                assert forall|i: int| 0 <= i < w.len() implies !is_space(#[trigger] w[i]) by {
                    if 5 <= i < 5 + n.len() {
                        assert(w[i] == n[i - 5]);
                    }
                }
            }
            lemma_three_words(head, w, decimal(q as nat));
            assert(head + run_item(g) =~= head + (sp + w) + (sp + decimal(q as nat)));
            assert(w.take(5) =~= "rec[-"@);
            assert(w.subrange(5, w.len() - 1) =~= n);
        },
        _ => {},
    }
}

} // verus!
