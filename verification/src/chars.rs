//! Character classification and the small string transformations the
//! normalizer and the extractor need: trimming, whitespace collapsing,
//! removal of invisible direction marks, and rebuilding strings from
//! character lists.
//!
//! The two Unicode character classes rest on `std`'s tables and are only
//! named here, not restated: nothing short states them exactly.

use vstd::prelude::*;
use vstd::std_specs::iter::IteratorSpec;

verus! {

broadcast use vstd::string::next_postcondition, vstd::string::axiom_spec_iter;

/// Whether `c` has the Unicode White_Space property, as `std` and the
/// `regex` crate's `\s` class both define it.
pub uninterp spec fn is_whitespace_char(c: char) -> bool;

/// Whether `c` is Unicode-alphanumeric, as `std` defines it.
pub uninterp spec fn is_alphanumeric_char(c: char) -> bool;

/// Relies on char::is_whitespace: whether `c` has the Unicode White_Space
/// property.
#[verifier::external_body]
pub fn char_is_whitespace(c: char) -> (r: bool)
    ensures
        r == is_whitespace_char(c),
{
    c.is_whitespace()
}

/// Relies on char::is_alphanumeric: whether `c` is in one of the Unicode
/// Alphabetic or Number classes.
#[verifier::external_body]
pub fn char_is_alphanumeric(c: char) -> (r: bool)
    ensures
        r == is_alphanumeric_char(c),
{
    c.is_alphanumeric()
}

/// Relies on String::push: appends one character.
#[verifier::external_body]
pub fn push_char(s: &mut String, c: char)
    ensures
        final(s)@ === old(s)@.push(c),
{
    s.push(c);
}

/// The characters of `s`, as a vector.
pub fn chars_of(s: &str) -> (v: Vec<char>)
    ensures
        v@ === s@,
{
    let mut it = s.chars();
    let mut v: Vec<char> = Vec::new();
    loop
        invariant
            it.decrease() is Some,
            v@ + it.remaining() === s@,
        ensures
            v@ === s@,
        decreases it.decrease()->0,
    {
        match it.next() {
            Some(c) => {
                v.push(c);
                proof {
                    assert(v@ + it.remaining() =~= s@);
                }
            },
            None => {
                proof {
                    assert(v@ =~= s@);
                }
                break ;
            },
        }
    }
    v
}

/// The string holding exactly the characters of `cs`.
pub fn string_from_chars(cs: &Vec<char>) -> (r: String)
    ensures
        r@ === cs@,
{
    let mut r = String::new();
    let mut i: usize = 0;
    while i < cs.len()
        invariant
            0 <= i <= cs@.len(),
            r@ === cs@.take(i as int),
        decreases cs@.len() - i,
    {
        push_char(&mut r, cs[i]);
        proof {
            assert(cs@.take(i as int).push(cs@[i as int]) =~= cs@.take(i + 1));
        }
        i += 1;
    }
    proof {
        assert(cs@.take(cs@.len() as int) =~= cs@);
    }
    r
}

/// `s` without its leading whitespace.
pub open spec fn trim_start_spec(s: Seq<char>) -> Seq<char>
    decreases s.len(),
{
    if s.len() == 0 {
        s
    } else if is_whitespace_char(s[0]) {
        trim_start_spec(s.drop_first())
    } else {
        s
    }
}

/// `s` without its trailing whitespace.
pub open spec fn trim_end_spec(s: Seq<char>) -> Seq<char>
    decreases s.len(),
{
    if s.len() == 0 {
        s
    } else if is_whitespace_char(s.last()) {
        trim_end_spec(s.drop_last())
    } else {
        s
    }
}

/// `s` without leading and trailing whitespace, as `str::trim` yields it.
pub open spec fn trim_spec(s: Seq<char>) -> Seq<char> {
    trim_end_spec(trim_start_spec(s))
}

/// Dropping a whitespace prefix is what `trim_start_spec` does.
proof fn lemma_trim_start_at(s: Seq<char>, lo: int)
    requires
        0 <= lo <= s.len(),
        forall|i: int| 0 <= i < lo ==> is_whitespace_char(#[trigger] s[i]),
        lo == s.len() || !is_whitespace_char(s[lo]),
    ensures
        trim_start_spec(s) === s.subrange(lo, s.len() as int),
    decreases lo,
{
    if lo == 0 {
        assert(s.subrange(0, s.len() as int) =~= s);
    } else {
        lemma_trim_start_at(s.drop_first(), lo - 1);
        assert(s.drop_first().subrange(lo - 1, s.drop_first().len() as int) =~= s.subrange(
            lo,
            s.len() as int,
        ));
    }
}

/// Dropping a whitespace suffix is what `trim_end_spec` does.
proof fn lemma_trim_end_at(s: Seq<char>, hi: int)
    requires
        0 <= hi <= s.len(),
        forall|i: int| hi <= i < s.len() ==> is_whitespace_char(#[trigger] s[i]),
        hi == 0 || !is_whitespace_char(s[hi - 1]),
    ensures
        trim_end_spec(s) === s.subrange(0, hi),
    decreases s.len() - hi,
{
    if hi == s.len() {
        assert(s.subrange(0, hi) =~= s);
    } else {
        lemma_trim_end_at(s.drop_last(), hi);
        assert(s.drop_last().subrange(0, hi) =~= s.subrange(0, hi));
    }
}

/// The characters of `cs` without leading and trailing whitespace.
pub fn trim_chars(cs: &Vec<char>) -> (r: Vec<char>)
    ensures
        r@ === trim_spec(cs@),
{
    let n = cs.len();
    let mut lo: usize = 0;
    while lo < n && char_is_whitespace(cs[lo])
        invariant
            0 <= lo <= n,
            n == cs@.len(),
            forall|i: int| 0 <= i < lo ==> is_whitespace_char(#[trigger] cs@[i]),
        decreases n - lo,
    {
        lo += 1;
    }
    let mut hi: usize = n;
    while hi > lo && char_is_whitespace(cs[hi - 1])
        invariant
            lo <= hi <= n,
            n == cs@.len(),
            forall|i: int| hi <= i < n ==> is_whitespace_char(#[trigger] cs@[i]),
        decreases hi,
    {
        hi -= 1;
    }
    proof {
        lemma_trim_start_at(cs@, lo as int);
        let t = cs@.subrange(lo as int, n as int);
        if hi == lo {
            lemma_trim_end_at(t, 0);
        } else {
            lemma_trim_end_at(t, hi - lo);
        }
        assert(t.subrange(0, hi - lo) =~= cs@.subrange(lo as int, hi as int));
    }
    let mut r: Vec<char> = Vec::new();
    let mut i: usize = lo;
    while i < hi
        invariant
            lo <= i <= hi <= cs@.len(),
            r@ === cs@.subrange(lo as int, i as int),
        decreases hi - i,
    {
        r.push(cs[i]);
        proof {
            assert(cs@.subrange(lo as int, i as int).push(cs@[i as int]) =~= cs@.subrange(
                lo as int,
                i + 1,
            ));
        }
        i += 1;
    }
    r
}

/// `s` with every whitespace run replaced by one space, as replacing `\s+`
/// by a space leaves it.
pub open spec fn collapse_ws_spec(s: Seq<char>) -> Seq<char>
    decreases s.len(),
{
    if s.len() == 0 {
        Seq::empty()
    } else if is_whitespace_char(s[0]) && s.len() > 1 && is_whitespace_char(s[1]) {
        collapse_ws_spec(s.drop_first())
    } else if is_whitespace_char(s[0]) {
        seq![' '] + collapse_ws_spec(s.drop_first())
    } else {
        seq![s[0]] + collapse_ws_spec(s.drop_first())
    }
}

/// The characters of `cs` with every whitespace run replaced by one space.
pub fn collapse_ws_chars(cs: &Vec<char>) -> (r: Vec<char>)
    ensures
        r@ === collapse_ws_spec(cs@),
{
    let n = cs.len();
    let mut r: Vec<char> = Vec::new();
    let mut i: usize = 0;
    proof {
        assert(cs@.subrange(0, n as int) =~= cs@);
        assert(Seq::<char>::empty() + collapse_ws_spec(cs@) =~= collapse_ws_spec(cs@));
    }
    while i < n
        invariant
            0 <= i <= n,
            n == cs@.len(),
            collapse_ws_spec(cs@) === r@ + collapse_ws_spec(cs@.subrange(i as int, n as int)),
        decreases n - i,
    {
        let ghost suffix = cs@.subrange(i as int, n as int);
        proof {
            assert(suffix.drop_first() =~= cs@.subrange(i + 1, n as int));
            assert(suffix[0] == cs@[i as int]);
            if i + 1 < n {
                assert(suffix[1] == cs@[i + 1]);
            }
        }
        let c = cs[i];
        if char_is_whitespace(c) {
            if !(i + 1 < n && char_is_whitespace(cs[i + 1])) {
                r.push(' ');
                proof {
                    assert(r@ =~= r@.drop_last() + seq![' ']);
                    assert(r@.drop_last() + (seq![' '] + collapse_ws_spec(suffix.drop_first()))
                        =~= r@ + collapse_ws_spec(suffix.drop_first()));
                }
            }
        } else {
            r.push(c);
            proof {
                assert(r@ =~= r@.drop_last() + seq![c]);
                assert(r@.drop_last() + (seq![c] + collapse_ws_spec(suffix.drop_first())) =~= r@
                    + collapse_ws_spec(suffix.drop_first()));
            }
        }
        i += 1;
    }
    proof {
        assert(cs@.subrange(n as int, n as int) =~= Seq::<char>::empty());
        assert(r@ + Seq::<char>::empty() =~= r@);
    }
    r
}

/// `s` without left-to-right marks, the one invisible control character the
/// normalizer strips.
pub open spec fn strip_marks_spec(s: Seq<char>) -> Seq<char>
    decreases s.len(),
{
    if s.len() == 0 {
        Seq::empty()
    } else if s[0] == '\u{200E}' {
        strip_marks_spec(s.drop_first())
    } else {
        seq![s[0]] + strip_marks_spec(s.drop_first())
    }
}

/// The characters of `cs` without left-to-right marks.
pub fn strip_marks_chars(cs: &Vec<char>) -> (r: Vec<char>)
    ensures
        r@ === strip_marks_spec(cs@),
{
    let n = cs.len();
    let mut r: Vec<char> = Vec::new();
    let mut i: usize = 0;
    proof {
        assert(cs@.subrange(0, n as int) =~= cs@);
        assert(Seq::<char>::empty() + strip_marks_spec(cs@) =~= strip_marks_spec(cs@));
    }
    while i < n
        invariant
            0 <= i <= n,
            n == cs@.len(),
            strip_marks_spec(cs@) === r@ + strip_marks_spec(cs@.subrange(i as int, n as int)),
        decreases n - i,
    {
        let ghost suffix = cs@.subrange(i as int, n as int);
        proof {
            assert(suffix.drop_first() =~= cs@.subrange(i + 1, n as int));
            assert(suffix[0] == cs@[i as int]);
        }
        let c = cs[i];
        if c != '\u{200E}' {
            r.push(c);
            proof {
                assert(r@ =~= r@.drop_last() + seq![c]);
                assert(r@.drop_last() + (seq![c] + strip_marks_spec(suffix.drop_first())) =~= r@
                    + strip_marks_spec(suffix.drop_first()));
            }
        }
        i += 1;
    }
    proof {
        assert(cs@.subrange(n as int, n as int) =~= Seq::<char>::empty());
        assert(r@ + Seq::<char>::empty() =~= r@);
    }
    r
}

} // verus!
