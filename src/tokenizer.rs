//! Splitting raw text into normalized word tokens.
use vstd::prelude::*;

verus! {

/// Whether `c` is white space: its Unicode White_Space property, the set of
/// characters on which `char::is_whitespace` holds.
pub open spec fn is_space(c: char) -> bool {
    let v = c as u32;
    ||| 9 <= v <= 13
    ||| v == 32
    ||| v == 0x85
    ||| v == 0xa0
    ||| v == 0x1680
    ||| 0x2000 <= v <= 0x200a
    ||| v == 0x2028
    ||| v == 0x2029
    ||| v == 0x202f
    ||| v == 0x205f
    ||| v == 0x3000
}

/// What `char::is_alphanumeric` reports of a character.
pub uninterp spec fn is_alnum(c: char) -> bool;

/// The string that `str::to_lowercase` makes of a string.
pub uninterp spec fn lower_of(s: Seq<char>) -> Seq<char>;

/// Whether `c` is white space.
pub fn char_is_space(c: char) -> (r: bool)
    ensures
        r == is_space(c),
{
    let v = c as u32;
    (9 <= v && v <= 13) || v == 32 || v == 0x85 || v == 0xa0 || v == 0x1680 || (0x2000 <= v
        && v <= 0x200a) || v == 0x2028 || v == 0x2029 || v == 0x202f || v == 0x205f || v == 0x3000
}

/// Relies on `char::is_alphanumeric`: whether `c` is alphabetic or numeric.
#[verifier::external_body]
fn char_is_alnum(c: char) -> (r: bool)
    ensures
        r == is_alnum(c),
{
    c.is_alphanumeric()
}

/// Relies on `str::to_lowercase`: the result depends on the characters alone.
#[verifier::external_body]
fn lowercase(s: &str) -> (r: String)
    ensures
        r@ == lower_of(s@),
{
    s.to_lowercase()
}

/// Relies on `str::chars`: the characters of `s`, in order.
#[verifier::external_body]
pub(crate) fn chars_of(s: &str) -> (r: Vec<char>)
    ensures
        r@ == s@,
{
    s.chars().collect()
}

/// Relies on `String: FromIterator<char>`: the string of exactly these characters.
#[verifier::external_body]
fn string_of(cs: Vec<char>) -> (r: String)
    ensures
        r@ == cs@,
{
    cs.into_iter().collect()
}

/// The character sequences of a list of strings.
pub open spec fn views(ts: Seq<String>) -> Seq<Seq<char>> {
    ts.map_values(|t: String| t@)
}

/// `s` without its leading characters that are not alphanumeric.
pub open spec fn trim_start(s: Seq<char>) -> Seq<char>
    decreases s.len(),
{
    if s.len() > 0 && !is_alnum(s[0]) {
        trim_start(s.drop_first())
    } else {
        s
    }
}

/// `s` without its trailing characters that are not alphanumeric.
pub open spec fn trim_end(s: Seq<char>) -> Seq<char>
    decreases s.len(),
{
    if s.len() > 0 && !is_alnum(s.last()) {
        trim_end(s.drop_last())
    } else {
        s
    }
}

/// `s` without the characters that are not alphanumeric at either end.
pub open spec fn trim(s: Seq<char>) -> Seq<char> {
    trim_end(trim_start(s))
}

/// The normal form of one whitespace-free run: trimmed, then lowercased.
pub open spec fn normalize(run: Seq<char>) -> Seq<char> {
    lower_of(trim(run))
}

/// `done` followed by the token of a finished run, when the run is non-empty
/// and its normal form is non-empty.
pub open spec fn flush(done: Seq<Seq<char>>, run: Seq<char>) -> Seq<Seq<char>> {
    if run.len() > 0 && normalize(run).len() > 0 {
        done.push(normalize(run))
    } else {
        done
    }
}

/// After reading the first `n` characters of `s`: the tokens of the runs
/// already closed by whitespace, and the run still open.
pub open spec fn scan(s: Seq<char>, n: nat) -> (Seq<Seq<char>>, Seq<char>)
    decreases n,
{
    if n == 0 {
        (Seq::empty(), Seq::empty())
    } else {
        let prev = scan(s, (n - 1) as nat);
        if is_space(s[n - 1]) {
            (flush(prev.0, prev.1), Seq::empty())
        } else {
            (prev.0, prev.1.push(s[n - 1]))
        }
    }
}

/// The tokens of a text: the non-empty normal forms of its whitespace-separated runs.
pub open spec fn tokens_of(s: Seq<char>) -> Seq<Seq<char>> {
    flush(scan(s, s.len()).0, scan(s, s.len()).1)
}

/// The bounds within `lo..hi` of the run `cs[lo..hi]` once trimmed.
fn trim_range(cs: &Vec<char>, lo: usize, hi: usize) -> (r: (usize, usize))
    requires
        lo <= hi <= cs@.len(),
    ensures
        lo <= r.0 <= r.1 <= hi,
        cs@.subrange(r.0 as int, r.1 as int) == trim(cs@.subrange(lo as int, hi as int)),
{
    let mut a: usize = lo;
    while a < hi
        invariant_except_break
            lo <= a <= hi,
            trim_start(cs@.subrange(lo as int, hi as int)) == trim_start(cs@.subrange(a as int, hi as int)),
        invariant
            hi <= cs@.len(),
        ensures
            lo <= a <= hi,
            trim_start(cs@.subrange(lo as int, hi as int)) == cs@.subrange(a as int, hi as int),
        decreases hi - a,
    {
        if char_is_alnum(cs[a]) {
            assert(cs@.subrange(a as int, hi as int)[0] == cs@[a as int]);
            break;
        }
        assert(cs@.subrange(a as int, hi as int).drop_first() =~= cs@.subrange(a + 1, hi as int));
        a = a + 1;
    }
    let mut b: usize = hi;
    while b > a
        invariant_except_break
            a <= b <= hi,
            trim_end(cs@.subrange(a as int, hi as int)) == trim_end(cs@.subrange(a as int, b as int)),
        invariant
            hi <= cs@.len(),
            lo <= a,
        ensures
            a <= b <= hi,
            trim_end(cs@.subrange(a as int, hi as int)) == cs@.subrange(a as int, b as int),
        decreases b - a,
    {
        if char_is_alnum(cs[b - 1]) {
            assert(cs@.subrange(a as int, b as int).last() == cs@[b - 1]);
            break;
        }
        assert(cs@.subrange(a as int, b as int).drop_last() =~= cs@.subrange(a as int, b - 1));
        b = b - 1;
    }
    (a, b)
}

/// Appends to `out` the token of the run `cs[lo..hi]`, if it has one.
fn push_token(cs: &Vec<char>, lo: usize, hi: usize, out: &mut Vec<String>)
    requires
        lo <= hi <= cs@.len(),
    ensures
        views(final(out)@) == flush(views(old(out)@), cs@.subrange(lo as int, hi as int)),
{
    if lo < hi {
        let (a, b) = trim_range(cs, lo, hi);
        let mut piece: Vec<char> = Vec::new();
        let mut j: usize = a;
        while j < b
            invariant
                a <= j <= b <= cs@.len(),
                piece@ == cs@.subrange(a as int, j as int),
            decreases b - j,
        {
            piece.push(cs[j]);
            assert(piece@ =~= cs@.subrange(a as int, j + 1));
            j = j + 1;
        }
        let word = string_of(piece);
        let t = lowercase(word.as_str());
        if !t.as_str().is_empty() {
            let ghost before = out@;
            out.push(t);
            assert(views(out@) =~= views(before).push(t@));
        }
    }
}

/// Splits `text` on whitespace, strips the characters that are not
/// alphanumeric from both ends of each run, lowercases what is left, and
/// keeps the non-empty results in order.
pub fn tokenize(text: &str) -> (r: Vec<String>)
    ensures
        views(r@) == tokens_of(text@),
{
    let cs = chars_of(text);
    let mut out: Vec<String> = Vec::new();
    let mut start: usize = 0;
    let mut i: usize = 0;
    assert(views(out@) =~= Seq::<Seq<char>>::empty());
    assert(cs@.subrange(0, 0) =~= Seq::<char>::empty());
    while i < cs.len()
        invariant
            start <= i <= cs@.len(),
            cs@ == text@,
            scan(cs@, i as nat) == (views(out@), cs@.subrange(start as int, i as int)),
        decreases cs@.len() - i,
    {
        if char_is_space(cs[i]) {
            push_token(&cs, start, i, &mut out);
            start = i + 1;
            assert(cs@.subrange(start as int, start as int) =~= Seq::<char>::empty());
        } else {
            assert(cs@.subrange(start as int, i + 1) =~= cs@.subrange(start as int, i as int).push(cs@[i as int]));
        }
        i = i + 1;
    }
    push_token(&cs, start, i, &mut out);
    out
}

/// The tokens joined into one text, with a single space between neighbours.
pub open spec fn join(ts: Seq<Seq<char>>) -> Seq<char>
    decreases ts.len(),
{
    if ts.len() == 0 {
        Seq::empty()
    } else if ts.len() == 1 {
        ts[0]
    } else {
        join(ts.drop_last()) + seq![' '] + ts.last()
    }
}

/// A token that tokenizing leaves as it is: non-empty, without white space,
/// and its own normal form.
pub open spec fn is_stable(t: Seq<char>) -> bool {
    &&& t.len() > 0
    &&& forall|i: int| 0 <= i < t.len() ==> !is_space(#[trigger] t[i])
    &&& normalize(t) == t
}

proof fn lemma_scan_prefix(a: Seq<char>, b: Seq<char>, n: nat)
    requires
        n <= a.len(),
    ensures
        scan(a + b, n) == scan(a, n),
    decreases n,
{
    if n > 0 {
        lemma_scan_prefix(a, b, (n - 1) as nat);
        assert((a + b)[n - 1] == a[n - 1]);
    }
}

proof fn lemma_scan_run(s: Seq<char>, base: nat, m: nat)
    requires
        base + m <= s.len(),
        scan(s, base).1.len() == 0,
        forall|i: int| base <= i < base + m ==> !is_space(#[trigger] s[i]),
    ensures
        scan(s, base + m) == (scan(s, base).0, s.subrange(base as int, (base + m) as int)),
    decreases m,
{
    if m > 0 {
        lemma_scan_run(s, base, (m - 1) as nat);
        assert(!is_space(s[base + m - 1]));
        assert(s.subrange(base as int, (base + m) as int) =~= s.subrange(base as int, base + m - 1).push(s[base + m - 1]));
    } else {
        assert(s.subrange(base as int, base as int) =~= scan(s, base).1);
    }
}

proof fn lemma_scan_join(ts: Seq<Seq<char>>)
    requires
        ts.len() > 0,
        forall|i: int| 0 <= i < ts.len() ==> is_stable(#[trigger] ts[i]),
    ensures
        scan(join(ts), join(ts).len()) == (ts.drop_last(), ts.last()),
    decreases ts.len(),
{
    let x = join(ts);
    let t = ts.last();
    assert(is_stable(ts[ts.len() - 1]));
    if ts.len() == 1 {
        lemma_scan_run(x, 0, t.len());
        assert(x.subrange(0, t.len() as int) =~= t);
        assert(ts.drop_last() =~= Seq::<Seq<char>>::empty());
    } else {
        let p = ts.drop_last();
        let j = join(p);
        assert forall|i: int| 0 <= i < p.len() implies is_stable(#[trigger] p[i]) by {
            assert(p[i] == ts[i]);
        }
        lemma_scan_join(p);
        assert(x =~= j + (seq![' '] + t));
        lemma_scan_prefix(j, seq![' '] + t, j.len());
        assert(x[j.len() as int] == ' ');
        assert(is_stable(p[p.len() - 1]));
        assert(p.drop_last().push(p.last()) =~= p);
        assert(scan(x, j.len() + 1) == (p, Seq::<char>::empty()));
        assert forall|i: int| j.len() + 1 <= i < j.len() + 1 + t.len() implies !is_space(#[trigger] x[i]) by {
            assert(x[i] == t[i - j.len() - 1]);
        }
        lemma_scan_run(x, j.len() + 1, t.len());
        assert(x.subrange(j.len() + 1 as int, (j.len() + 1 + t.len()) as int) =~= t);
    }
}

/// Joining stable tokens with single spaces and tokenizing the result gives
/// back the same tokens.
pub proof fn lemma_tokens_of_join(ts: Seq<Seq<char>>)
    requires
        forall|i: int| 0 <= i < ts.len() ==> is_stable(#[trigger] ts[i]),
    ensures
        tokens_of(join(ts)) == ts,
{
    if ts.len() == 0 {
        assert(tokens_of(join(ts)) =~= ts);
    } else {
        lemma_scan_join(ts);
        assert(is_stable(ts[ts.len() - 1]));
        assert(ts.drop_last().push(ts.last()) =~= ts);
    }
}

/// Re-tokenizing the tokens of a text, joined with single spaces, gives the
/// same tokens, wherever each token is its own normal form.
pub proof fn lemma_retokenize(text: Seq<char>)
    requires
        forall|i: int| 0 <= i < tokens_of(text).len() ==> is_stable(#[trigger] tokens_of(text)[i]),
    ensures
        tokens_of(join(tokens_of(text))) == tokens_of(text),
{
    lemma_tokens_of_join(tokens_of(text));
}

} // verus!
