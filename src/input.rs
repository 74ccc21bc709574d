//! Reading what the user types at the prompts: a book's number, a menu choice.
use crate::tokenizer::{char_is_space, chars_of, is_space};
use vstd::prelude::*;

verus! {

/// What `char::is_numeric` reports of a character.
pub uninterp spec fn is_numeric(c: char) -> bool;

/// Relies on `char::is_numeric`: whether `c` is in a Unicode number category.
#[verifier::external_body]
fn char_is_numeric(c: char) -> (r: bool)
    ensures
        r == is_numeric(c),
{
    c.is_numeric()
}

/// `s` without its leading white space.
pub open spec fn trim_space_start(s: Seq<char>) -> Seq<char>
    decreases s.len(),
{
    if s.len() > 0 && is_space(s[0]) {
        trim_space_start(s.drop_first())
    } else {
        s
    }
}

/// `s` without its trailing white space.
pub open spec fn trim_space_end(s: Seq<char>) -> Seq<char>
    decreases s.len(),
{
    if s.len() > 0 && is_space(s.last()) {
        trim_space_end(s.drop_last())
    } else {
        s
    }
}

/// `s` from its first numeric character on; empty when it has none.
pub open spec fn from_first_numeric(s: Seq<char>) -> Seq<char>
    decreases s.len(),
{
    if s.len() > 0 && !is_numeric(s[0]) {
        from_first_numeric(s.drop_first())
    } else {
        s
    }
}

/// Whether `c` is one of the ASCII digits `0` to `9`.
pub open spec fn is_digit(c: char) -> bool {
    48 <= c as u32 <= 57
}

/// Whether `s` is a non-empty run of ASCII digits.
pub open spec fn all_digits(s: Seq<char>) -> bool {
    s.len() > 0 && forall|i: int| 0 <= i < s.len() ==> is_digit(#[trigger] s[i])
}

/// The number that the decimal digits `s` write.
pub open spec fn decimal_value(s: Seq<char>) -> nat
    decreases s.len(),
{
    if s.len() == 0 {
        0
    } else {
        decimal_value(s.drop_last()) * 10 + (s.last() as u32 - 48) as nat
    }
}

/// The book number written in `line`: after trimming white space and
/// skipping everything before the first numeric character, the rest must be
/// a decimal number from 1 to `u32::MAX`.
pub open spec fn book_id(line: Seq<char>) -> Option<u32> {
    let d = from_first_numeric(trim_space_end(trim_space_start(line)));
    if all_digits(d) && 0 < decimal_value(d) <= u32::MAX {
        Some(decimal_value(d) as u32)
    } else {
        None
    }
}

/// The bounds of `cs` once white space is trimmed from both ends.
fn trim_space_range(cs: &Vec<char>) -> (r: (usize, usize))
    ensures
        r.0 <= r.1 <= cs@.len(),
        cs@.subrange(r.0 as int, r.1 as int) == trim_space_end(trim_space_start(cs@)),
{
    let ghost s = cs@;
    let mut a: usize = 0;
    assert(s.subrange(0, s.len() as int) =~= s);
    while a < cs.len()
        invariant_except_break
            a <= cs@.len(),
            trim_space_start(s) == trim_space_start(s.subrange(a as int, s.len() as int)),
        invariant
            s == cs@,
        ensures
            a <= cs@.len(),
            trim_space_start(s) == s.subrange(a as int, s.len() as int),
        decreases cs@.len() - a,
    {
        if !char_is_space(cs[a]) {
            assert(s.subrange(a as int, s.len() as int)[0] == s[a as int]);
            break;
        }
        assert(s.subrange(a as int, s.len() as int).drop_first() =~= s.subrange(a + 1, s.len() as int));
        a = a + 1;
    }
    let mut b: usize = cs.len();
    while b > a
        invariant_except_break
            a <= b <= cs@.len(),
            trim_space_end(s.subrange(a as int, s.len() as int)) == trim_space_end(s.subrange(a as int, b as int)),
        invariant
            s == cs@,
            a <= cs@.len(),
        ensures
            a <= b <= cs@.len(),
            trim_space_end(s.subrange(a as int, s.len() as int)) == s.subrange(a as int, b as int),
        decreases b - a,
    {
        if !char_is_space(cs[b - 1]) {
            assert(s.subrange(a as int, b as int).last() == s[b - 1]);
            break;
        }
        assert(s.subrange(a as int, b as int).drop_last() =~= s.subrange(a as int, b - 1));
        b = b - 1;
    }
    (a, b)
}

/// Reads a book number out of `line`; `None` where there is none, where it
/// is zero, or where it does not fit in a `u32`.
pub fn parse_book_id(line: &str) -> (r: Option<u32>)
    ensures
        r == book_id(line@),
{
    let cs = chars_of(line);
    let ghost s = cs@;
    let (a, b) = trim_space_range(&cs);
    let mut c: usize = a;
    while c < b
        invariant_except_break
            a <= c <= b,
            from_first_numeric(s.subrange(a as int, b as int)) == from_first_numeric(s.subrange(c as int, b as int)),
        invariant
            s == cs@,
            b <= cs@.len(),
        ensures
            a <= c <= b,
            from_first_numeric(s.subrange(a as int, b as int)) == s.subrange(c as int, b as int),
        decreases b - c,
    {
        if char_is_numeric(cs[c]) {
            assert(s.subrange(c as int, b as int)[0] == s[c as int]);
            break;
        }
        assert(s.subrange(c as int, b as int).drop_first() =~= s.subrange(c + 1, b as int));
        c = c + 1;
    }
    let ghost d = s.subrange(c as int, b as int);
    assert(d == from_first_numeric(trim_space_end(trim_space_start(line@))));
    if c == b {
        return None;
    }
    let mut value: u64 = 0;
    let mut i: usize = c;
    assert(s.subrange(c as int, c as int) =~= Seq::<char>::empty());
    while i < b
        invariant
            s == cs@,
            c <= i <= b <= cs@.len(),
            d == s.subrange(c as int, b as int),
            d == from_first_numeric(trim_space_end(trim_space_start(line@))),
            value as nat == decimal_value(s.subrange(c as int, i as int)),
            value <= u32::MAX,
            forall|j: int| c <= j < i ==> is_digit(#[trigger] s[j]),
        decreases b - i,
    {
        let v = cs[i] as u32;
        if v < 48 || v > 57 {
            assert(!is_digit(d[i - c]));
            return None;
        }
        let ghost next = s.subrange(c as int, i + 1);
        assert(next.drop_last() =~= s.subrange(c as int, i as int));
        value = value * 10 + (v - 48) as u64;
        if value > 0xffff_ffff {
            proof {
                if all_digits(d) {
                    lemma_decimal_value_grows(d, (i + 1 - c) as nat);
                    assert(d.subrange(0, (i + 1 - c) as int) =~= next);
                }
            }
            return None;
        }
        i = i + 1;
    }
    assert(s.subrange(c as int, i as int) =~= d);
    assert(all_digits(d)) by {
        assert forall|j: int| 0 <= j < d.len() implies is_digit(#[trigger] d[j]) by {
            assert(d[j] == s[c + j]);
        }
    }
    if value == 0 {
        return None;
    }
    Some(value as u32)
}

/// A run of digits is worth at least as much as any prefix of it.
proof fn lemma_decimal_value_grows(d: Seq<char>, n: nat)
    requires
        n <= d.len(),
        forall|i: int| 0 <= i < d.len() ==> is_digit(#[trigger] d[i]),
    ensures
        decimal_value(d.subrange(0, n as int)) <= decimal_value(d),
    decreases d.len(),
{
    if n < d.len() {
        let p = d.drop_last();
        assert forall|i: int| 0 <= i < p.len() implies is_digit(#[trigger] p[i]) by {
            assert(p[i] == d[i]);
        }
        lemma_decimal_value_grows(p, n);
        assert(p.subrange(0, n as int) =~= d.subrange(0, n as int));
        assert(is_digit(d[d.len() - 1]));
    } else {
        assert(d.subrange(0, n as int) =~= d);
    }
}

/// What the user asked for at the menu.
#[derive(Clone, Copy, Debug, PartialEq, Eq, Structural)]
pub enum Choice {
    /// Generate a Markov chain from the text.
    Markov,
    /// Show the most frequent words of the text.
    Frequent,
}

/// The choice that `line` names, once trimmed: a single `M` or `m`, or a
/// single `F` or `f`.
pub open spec fn choice_of(line: Seq<char>) -> Option<Choice> {
    let t = trim_space_end(trim_space_start(line));
    if t.len() != 1 {
        None
    } else if t[0] == 'M' || t[0] == 'm' {
        Some(Choice::Markov)
    } else if t[0] == 'F' || t[0] == 'f' {
        Some(Choice::Frequent)
    } else {
        None
    }
}

/// Reads the menu choice out of `line`; `None` where it names none.
pub fn parse_choice(line: &str) -> (r: Option<Choice>)
    ensures
        r == choice_of(line@),
{
    let cs = chars_of(line);
    let (a, b) = trim_space_range(&cs);
    if b - a != 1 {
        return None;
    }
    let ch = cs[a];
    assert(cs@.subrange(a as int, b as int)[0] == ch);
    if ch == 'M' || ch == 'm' {
        Some(Choice::Markov)
    } else if ch == 'F' || ch == 'f' {
        Some(Choice::Frequent)
    } else {
        None
    }
}

} // verus!
