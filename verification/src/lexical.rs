//! Characters, words and numbers in text.

use vstd::prelude::*;
use vstd::string::*;

use crate::text::Text;

verus! {

/// The characters of a text.
pub fn chars_of(s: &str) -> (r: Vec<char>)
    ensures
        r@ == s@,
{
    broadcast use vstd::string::axiom_spec_iter;

    let mut r: Vec<char> = Vec::new();
    for c in it: s.chars()
        invariant
            it.seq() == s@,
            r@ == s@.take(it.index() as int),
    {
        r.push(c);
        assert(r@ =~= s@.take(it.index() + 1));
    }
    assert(s@.take(s@.len() as int) =~= s@);
    r
}

/// A character with the Unicode property `White_Space`.
pub open spec fn is_space(c: char) -> bool {
    let x = c as u32;
    ||| 9 <= x <= 13
    ||| x == 32
    ||| x == 0x85
    ||| x == 0xa0
    ||| x == 0x1680
    ||| 0x2000 <= x <= 0x200a
    ||| x == 0x2028
    ||| x == 0x2029
    ||| x == 0x202f
    ||| x == 0x205f
    ||| x == 0x3000
}

pub fn char_is_space(c: char) -> (r: bool)
    ensures
        r == is_space(c),
{
    let x: u32 = c as u32;
    (9 <= x && x <= 13) || x == 32 || x == 0x85 || x == 0xa0 || x == 0x1680 || (0x2000 <= x && x
        <= 0x200a) || x == 0x2028 || x == 0x2029 || x == 0x202f || x == 0x205f || x == 0x3000
}

/// The text without white space at its start.
pub open spec fn trim_start(s: Seq<char>) -> Seq<char>
    decreases s.len(),
{
    if s.len() > 0 && is_space(s[0]) {
        trim_start(s.skip(1))
    } else {
        s
    }
}

/// The text without white space at its end.
pub open spec fn trim_end(s: Seq<char>) -> Seq<char>
    decreases s.len(),
{
    if s.len() > 0 && is_space(s.last()) {
        trim_end(s.drop_last())
    } else {
        s
    }
}

/// The text without white space at its ends.
pub open spec fn trimmed(s: Seq<char>) -> Seq<char> {
    trim_end(trim_start(s))
}

/// A copy of the characters from `a` to `b`.
pub fn slice(s: &Vec<char>, a: usize, b: usize) -> (r: Vec<char>)
    requires
        a <= b <= s@.len(),
    ensures
        r@ == s@.subrange(a as int, b as int),
{
    let mut r: Vec<char> = Vec::new();
    let mut i: usize = a;
    while i < b
        invariant
            a <= i <= b <= s@.len(),
            r@ == s@.subrange(a as int, i as int),
        decreases b - i,
    {
        r.push(s[i]);
        i = i + 1;
        assert(r@ =~= s@.subrange(a as int, i as int));
    }
    r
}

/// The text without white space at its ends.
pub fn trim(s: &Vec<char>) -> (r: Vec<char>)
    ensures
        r@ == trimmed(s@),
{
    let n: usize = s.len();
    let mut a: usize = 0;
    assert(s@.skip(0) =~= s@);
    while a < n && char_is_space(s[a])
        invariant
            n == s@.len(),
            a <= n,
            trim_start(s@) == trim_start(s@.skip(a as int)),
        decreases n - a,
    {
        assert(s@.skip(a as int)[0] == s@[a as int]);
        assert(s@.skip(a as int).skip(1) =~= s@.skip(a + 1));
        a = a + 1;
    }
    let ghost rest = s@.skip(a as int);
    assert(trim_start(s@) == rest) by {
        if a < n {
            assert(rest[0] == s@[a as int]);
        }
    }
    let mut b: usize = n;
    assert(rest.take(n - a) =~= rest);
    while b > a && char_is_space(s[b - 1])
        invariant
            n == s@.len(),
            a <= b <= n,
            rest == s@.skip(a as int),
            trim_end(rest) == trim_end(rest.take(b - a)),
        decreases b,
    {
        assert(rest.take(b - a).last() == s@[b - 1]);
        assert(rest.take(b - a).drop_last() =~= rest.take(b - a - 1));
        b = b - 1;
    }
    proof {
        let part = rest.take(b - a);
        if b > a {
            assert(part.last() == s@[b - 1]);
        }
        assert(trim_end(part) == part);
        assert(part =~= s@.subrange(a as int, b as int));
    }
    slice(s, a, b)
}

/// The pieces of the text between occurrences of `c`.
pub open spec fn pieces(s: Seq<char>, c: char) -> Seq<Seq<char>>
    decreases s.len(),
{
    if s.len() == 0 {
        seq![Seq::<char>::empty()]
    } else {
        let rest = pieces(s.drop_last(), c);
        if s.last() == c {
            rest.push(Seq::empty())
        } else {
            rest.drop_last().push(rest.last().push(s.last()))
        }
    }
}

/// The contents of texts.
pub open spec fn texts(v: Seq<Vec<char>>) -> Seq<Seq<char>> {
    Seq::new(v.len(), |i: int| v[i]@)
}

/// Split a text at every `c`.
pub fn split_at_char(s: &Vec<char>, c: char) -> (r: Vec<Vec<char>>)
    ensures
        texts(r@) == pieces(s@, c),
{
    let mut r: Vec<Vec<char>> = Vec::new();
    let mut part: Vec<char> = Vec::new();
    assert(s@.take(0) =~= Seq::empty());
    assert(texts(r@).push(part@) =~= pieces(s@.take(0), c));
    for i in 0..s.len()
        invariant
            texts(r@).push(part@) == pieces(s@.take(i as int), c),
    {
        let ghost before = texts(r@);
        assert(s@.take(i + 1).drop_last() =~= s@.take(i as int));
        if s[i] == c {
            let mut done: Vec<char> = Vec::new();
            core::mem::swap(&mut done, &mut part);
            assert(texts(r@.push(done)) =~= before.push(done@));
            r.push(done);
            assert(texts(r@).push(part@) =~= pieces(s@.take(i + 1), c));
        } else {
            let ghost old_part = part@;
            part.push(s[i]);
            assert(before.push(old_part).drop_last() =~= before);
            assert(before.push(part@) =~= pieces(s@.take(i + 1), c));
        }
    }
    assert(s@.take(s@.len() as int) =~= s@);
    assert(texts(r@.push(part)) =~= texts(r@).push(part@));
    r.push(part);
    r
}

/// The words of a text: its longest pieces without white space.
pub open spec fn words(s: Seq<char>) -> Seq<Seq<char>>
    decreases s.len(),
{
    if s.len() == 0 {
        Seq::empty()
    } else if is_space(s.last()) {
        words(s.drop_last())
    } else if s.len() == 1 || is_space(s[s.len() - 2]) {
        words(s.drop_last()).push(seq![s.last()])
    } else {
        let rest = words(s.drop_last());
        rest.drop_last().push(rest.last().push(s.last()))
    }
}

/// Split a text into its words.
pub fn split_words(s: &Vec<char>) -> (r: Vec<Vec<char>>)
    ensures
        texts(r@) == words(s@),
{
    let mut r: Vec<Vec<char>> = Vec::new();
    let mut part: Vec<char> = Vec::new();
    assert(s@.take(0) =~= Seq::empty());
    for i in 0..s.len()
        invariant
            part@.len() > 0 <==> (i > 0 && !is_space(s@[i - 1])),
            part@.len() > 0 ==> texts(r@).push(part@) == words(s@.take(i as int)),
            part@.len() == 0 ==> texts(r@) == words(s@.take(i as int)),
    {
        let ghost before = texts(r@);
        let ghost now = s@.take(i + 1);
        proof {
            assert(now.drop_last() =~= s@.take(i as int));
            if i > 0 {
                assert(now[now.len() - 2] == s@[i - 1]);
            }
        }
        if char_is_space(s[i]) {
            if part.len() > 0 {
                let mut done: Vec<char> = Vec::new();
                core::mem::swap(&mut done, &mut part);
                assert(texts(r@.push(done)) =~= before.push(done@));
                r.push(done);
            }
        } else {
            let ghost old_part = part@;
            part.push(s[i]);
            proof {
                if old_part.len() > 0 {
                    assert(before.push(old_part).drop_last() =~= before);
                } else {
                    assert(part@ =~= seq![s@[i as int]]);
                }
                assert(before.push(part@) =~= words(now));
            }
        }
    }
    assert(s@.take(s@.len() as int) =~= s@);
    if part.len() > 0 {
        assert(texts(r@.push(part)) =~= texts(r@).push(part@));
        r.push(part);
    }
    r
}

/// The first position of `c` from `k` on.
pub open spec fn find_from(s: Seq<char>, c: char, k: int) -> Option<int>
    decreases s.len() - k,
{
    if k < 0 || k >= s.len() {
        None
    } else if s[k] == c {
        Some(k)
    } else {
        find_from(s, c, k + 1)
    }
}

/// The first position of `c`.
pub fn find_char(s: &Vec<char>, c: char) -> (r: Option<usize>)
    ensures
        r matches Some(p) ==> find_from(s@, c, 0) == Some(p as int) && p < s@.len(),
        r is None ==> find_from(s@, c, 0) is None,
{
    let mut k: usize = 0;
    while k < s.len()
        invariant
            k <= s@.len(),
            find_from(s@, c, 0) == find_from(s@, c, k as int),
        decreases s@.len() - k,
    {
        if s[k] == c {
            return Some(k);
        }
        k = k + 1;
    }
    None
}

/// `p` is at the start of `s`.
pub open spec fn starts_with(s: Seq<char>, p: Seq<char>) -> bool {
    p.len() <= s.len() && s.take(p.len() as int) == p
}

/// Whether `p` is at the start of `s`.
pub fn has_prefix(s: &Vec<char>, p: &str) -> (r: bool)
    ensures
        r == starts_with(s@, p@),
{
    let head = chars_of(p);
    if head.len() > s.len() {
        return false;
    }
    let mut i: usize = 0;
    while i < head.len()
        invariant
            head@ == p@,
            i <= head@.len() <= s@.len(),
            forall|k: int| 0 <= k < i ==> s@[k] == head@[k],
        decreases head@.len() - i,
    {
        if s[i] != head[i] {
            assert(s@.take(head@.len() as int)[i as int] != head@[i as int]);
            return false;
        }
        i = i + 1;
    }
    assert(s@.take(head@.len() as int) =~= head@);
    true
}

/// Whether two texts are the same.
pub fn same_text(a: &Vec<char>, b: &Vec<char>) -> (r: bool)
    ensures
        r == (a@ == b@),
{
    if a.len() != b.len() {
        return false;
    }
    let mut i: usize = 0;
    while i < a.len()
        invariant
            i <= a@.len(),
            a@.len() == b@.len(),
            forall|k: int| 0 <= k < i ==> a@[k] == b@[k],
        decreases a@.len() - i,
    {
        if a[i] != b[i] {
            return false;
        }
        i = i + 1;
    }
    assert(a@ =~= b@);
    true
}

/// Append characters.
pub fn push_chars(out: &mut String, s: &Vec<char>)
    ensures
        final(out)@ == old(out)@ + s@,
{
    let ghost before = out@;
    assert(before + s@.take(0) =~= before);
    for i in 0..s.len()
        invariant
            out@ == before + s@.take(i as int),
    {
        out.push(s[i]);
        assert(out@ =~= before + s@.take(i + 1));
    }
    assert(s@.take(s@.len() as int) =~= s@);
}

// ---------------------------------------------------------------------------
// Numbers
// ---------------------------------------------------------------------------
/// Why a text is no number.
#[derive(Clone, Copy, PartialEq, Eq, Debug, Structural)]
pub enum NumberError {
    Empty,
    InvalidDigit,
    TooLarge,
}

/// The value of a decimal digit.
pub open spec fn digit_value(c: char) -> Option<int> {
    if '0' <= c && c <= '9' {
        Some(c as int - '0' as int)
    } else {
        None
    }
}

/// The number that the digits from `k` on make behind the number `acc`.
pub open spec fn number_from(s: Seq<char>, k: int, acc: int) -> Result<usize, NumberError>
    decreases s.len() - k,
{
    if k >= s.len() {
        Ok(acc as usize)
    } else {
        match digit_value(s[k]) {
            None => Err(NumberError::InvalidDigit),
            Some(d) => if acc * 10 + d > usize::MAX {
                Err(NumberError::TooLarge)
            } else {
                number_from(s, k + 1, acc * 10 + d)
            },
        }
    }
}

/// The number that a text denotes: decimal digits, with a plus sign before them or
/// without.
pub open spec fn number(s: Seq<char>) -> Result<usize, NumberError> {
    if s.len() == 0 {
        Err(NumberError::Empty)
    } else if s.len() > 1 && s[0] == '+' {
        number_from(s, 1, 0)
    } else {
        number_from(s, 0, 0)
    }
}

/// The number that a text denotes.
pub fn parse_number(s: &Vec<char>) -> (r: Result<usize, NumberError>)
    ensures
        r == number(s@),
{
    if s.len() == 0 {
        return Err(NumberError::Empty);
    }
    let mut k: usize = if s.len() > 1 && s[0] == '+' {
        1
    } else {
        0
    };
    let mut acc: usize = 0;
    while k < s.len()
        invariant
            k <= s@.len(),
            number(s@) == number_from(s@, k as int, acc as int),
        decreases s@.len() - k,
    {
        let c = s[k];
        if c < '0' || c > '9' {
            return Err(NumberError::InvalidDigit);
        }
        let d: usize = (c as u32 - '0' as u32) as usize;
        if acc > (usize::MAX - d) / 10 {
            proof {
                assert(acc * 10 + d > usize::MAX);
            }
            return Err(NumberError::TooLarge);
        }
        acc = acc * 10 + d;
        k = k + 1;
    }
    Ok(acc)
}

impl NumberError {
    pub open spec fn message(self) -> Seq<char> {
        match self {
            NumberError::Empty => "cannot parse integer from empty string"@,
            NumberError::InvalidDigit => "invalid digit found in string"@,
            NumberError::TooLarge => "number too large to fit in target type"@,
        }
    }
}

impl Text for NumberError {
    open spec fn text(&self) -> Seq<char> {
        self.message()
    }

    fn write_text(&self, out: &mut String) {
        match self {
            NumberError::Empty => out.append("cannot parse integer from empty string"),
            NumberError::InvalidDigit => out.append("invalid digit found in string"),
            NumberError::TooLarge => out.append("number too large to fit in target type"),
        }
    }
}

} // verus!
