//! Rendering values as text.

use vstd::prelude::*;
use vstd::string::*;

verus! {

/// `String::push` appends one character.
pub assume_specification[ String::push ](s: &mut String, c: char)
    ensures
        final(s)@ == old(s)@.push(c),
;

/// The decimal digit `d`.
pub open spec fn digit_char(d: int) -> char {
    if d == 0 {
        '0'
    } else if d == 1 {
        '1'
    } else if d == 2 {
        '2'
    } else if d == 3 {
        '3'
    } else if d == 4 {
        '4'
    } else if d == 5 {
        '5'
    } else if d == 6 {
        '6'
    } else if d == 7 {
        '7'
    } else if d == 8 {
        '8'
    } else {
        '9'
    }
}

/// The decimal notation of `n`, without leading zeros.
pub open spec fn decimal(n: nat) -> Seq<char>
    decreases n,
{
    if n < 10 {
        seq![digit_char(n as int)]
    } else {
        decimal(n / 10).push(digit_char((n % 10) as int))
    }
}

/// Append the decimal notation of `n`.
pub fn push_decimal(out: &mut String, n: usize)
    ensures
        final(out)@ == old(out)@ + decimal(n as nat),
    decreases n,
{
    let ghost before = out@;
    if n >= 10 {
        push_decimal(out, n / 10);
    }
    let d: usize = n % 10;
    let c: char = match d {
        0 => '0',
        1 => '1',
        2 => '2',
        3 => '3',
        4 => '4',
        5 => '5',
        6 => '6',
        7 => '7',
        8 => '8',
        _ => '9',
    };
    out.push(c);
    assert(out@ =~= before + decimal(n as nat));
}

/// Append the decimal notation of `n`.
pub fn push_decimal_u64(out: &mut String, n: u64)
    ensures
        final(out)@ == old(out)@ + decimal(n as nat),
    decreases n,
{
    let ghost before = out@;
    if n >= 10 {
        push_decimal_u64(out, n / 10);
    }
    push_decimal(out, (n % 10) as usize);
    assert(out@ =~= before + decimal(n as nat));
}

/// A value with a textual form.
pub trait Text {
    /// The characters of the textual form.
    spec fn text(&self) -> Seq<char>;

    /// Append the textual form to `out`.
    fn write_text(&self, out: &mut String)
        ensures
            final(out)@ == old(out)@ + self.text(),
    ;
}

/// The textual form of `value`.
pub fn to_text<T: Text>(value: &T) -> (s: String)
    ensures
        s@ == value.text(),
{
    let mut out = String::new();
    value.write_text(&mut out);
    assert(out@ =~= value.text());
    out
}

impl Text for usize {
    open spec fn text(&self) -> Seq<char> {
        decimal(*self as nat)
    }

    fn write_text(&self, out: &mut String) {
        push_decimal(out, *self);
    }
}

/// The texts of `items`, one after another, with `sep` between neighbours.
pub open spec fn joined<T: Text>(items: Seq<T>, sep: Seq<char>) -> Seq<char>
    decreases items.len(),
{
    if items.len() == 0 {
        Seq::empty()
    } else if items.len() == 1 {
        items[0].text()
    } else {
        joined(items.drop_last(), sep) + sep + items.last().text()
    }
}

/// Append the texts of `items` with `sep` between neighbours.
pub fn push_joined<T: Text>(out: &mut String, items: &Vec<T>, sep: &str)
    ensures
        final(out)@ == old(out)@ + joined(items@, sep@),
{
    let ghost before = out@;
    for i in 0..items.len()
        invariant
            out@ == before + joined(items@.take(i as int), sep@),
    {
        if i > 0 {
            out.append(sep);
        }
        items[i].write_text(out);
        proof {
            let t = items@.take(i + 1);
            assert(t.drop_last() =~= items@.take(i as int));
            assert(t.last() == items@[i as int]);
            assert(out@ =~= before + joined(t, sep@));
        }
    }
    assert(items@.take(items@.len() as int) =~= items@);
}

} // verus!
