//! Title normalization: strips a recognized category-namespace prefix,
//! trims and collapses whitespace, and removes invisible direction marks.
//! The graph's whole identity space is downstream of this function, so it is
//! deterministic by construction.

use vstd::prelude::*;

use crate::chars::{
    chars_of, collapse_ws_chars, collapse_ws_spec, string_from_chars, strip_marks_chars,
    strip_marks_spec, trim_chars, trim_spec,
};

verus! {

/// Whether `s` starts with a recognized category-namespace prefix,
/// `Kategoria:` or `Category:` compared case-insensitively.
pub uninterp spec fn has_category_prefix(s: Seq<char>) -> bool;

/// Relies on regex::RegexBuilder and regex::Regex::is_match, with the
/// anchored, case-insensitive pattern whose text stands in the body: whether
/// `s` starts with `Kategoria:` or `Category:`. The pattern is fixed and
/// valid, so building it cannot fail; the pattern ends in a colon, so a
/// match guarantees `s` holds one.
#[verifier::external_body]
fn match_category_prefix(s: &str) -> (r: bool)
    ensures
        r == has_category_prefix(s@),
        r ==> exists|i: int| 0 <= i < s@.len() && s@[i] == ':',
{
    regex::RegexBuilder::new(r"^(Kategoria|Category):").case_insensitive(true).build().unwrap()
        .is_match(s)
}

/// Everything after the first colon of `s` (all of `s` consumed if no colon
/// stands in it).
pub open spec fn strip_prefix_spec(s: Seq<char>) -> Seq<char>
    decreases s.len(),
{
    if s.len() == 0 {
        s
    } else if s[0] == ':' {
        s.drop_first()
    } else {
        strip_prefix_spec(s.drop_first())
    }
}

/// What normalization yields: the cleaned name, and whether the title named
/// a category.
pub open spec fn normalize_spec(s: Seq<char>) -> (Seq<char>, bool) {
    if has_category_prefix(s) {
        (strip_marks_spec(collapse_ws_spec(trim_spec(strip_prefix_spec(s)))), true)
    } else {
        (strip_marks_spec(collapse_ws_spec(trim_spec(s))), false)
    }
}

/// Cutting at the first colon is what `strip_prefix_spec` does.
pub(crate) proof fn lemma_strip_prefix_at(s: Seq<char>, at: int)
    requires
        0 <= at < s.len(),
        forall|j: int| 0 <= j < at ==> (#[trigger] s[j]) != ':',
        s[at] == ':',
    ensures
        strip_prefix_spec(s) === s.subrange(at + 1, s.len() as int),
    decreases at,
{
    if at == 0 {
        assert(s.drop_first() =~= s.subrange(1, s.len() as int));
    } else {
        lemma_strip_prefix_at(s.drop_first(), at - 1);
        assert(s.drop_first().subrange(at, s.drop_first().len() as int) =~= s.subrange(
            at + 1,
            s.len() as int,
        ));
    }
}

/// The characters of `cs` after the first colon.
fn strip_after_colon(cs: &Vec<char>) -> (r: Vec<char>)
    requires
        exists|i: int| 0 <= i < cs@.len() && cs@[i] == ':',
    ensures
        r@ === strip_prefix_spec(cs@),
{
    let n = cs.len();
    let mut i: usize = 0;
    while cs[i] != ':'
        invariant
            n == cs@.len(),
            0 <= i < n,
            forall|j: int| 0 <= j < i ==> (#[trigger] cs@[j]) != ':',
            exists|j: int| i <= j < n && cs@[j] == ':',
        decreases n - i,
    {
        proof {
            let j = choose|j: int| i <= j < n && cs@[j] == ':';
            assert(j != i);
            assert(i + 1 <= j < n && cs@[j] == ':');
        }
        i += 1;
    }
    proof {
        lemma_strip_prefix_at(cs@, i as int);
    }
    let mut r: Vec<char> = Vec::new();
    let mut t: usize = i + 1;
    while t < n
        invariant
            i < t <= n,
            n == cs@.len(),
            r@ === cs@.subrange(i + 1, t as int),
        decreases n - t,
    {
        r.push(cs[t]);
        proof {
            assert(cs@.subrange(i + 1, t as int).push(cs@[t as int]) =~= cs@.subrange(
                i + 1,
                t + 1,
            ));
        }
        t += 1;
    }
    r
}

/// The title normalizer. Its matching rules are fixed, so it carries no
/// state of its own.
pub struct Normalizer {}

impl Default for Normalizer {
    fn default() -> (r: Normalizer)
        ensures
            r === (Normalizer {  }),
    {
        Normalizer {}
    }
}

impl Normalizer {
    /// Strips a recognized category-namespace prefix (case-insensitively),
    /// trims whitespace, collapses internal whitespace runs to one space,
    /// and strips left-to-right marks. Returns the cleaned name and whether
    /// the title named a category.
    pub fn normalize_category_name(&self, s: &str) -> (r: (String, bool))
        ensures
            (r.0@, r.1) === normalize_spec(s@),
    {
        let matched = match_category_prefix(s);
        let cs = chars_of(s);
        let stripped = if matched {
            strip_after_colon(&cs)
        } else {
            cs
        };
        let trimmed = trim_chars(&stripped);
        let collapsed = collapse_ws_chars(&trimmed);
        let cleaned = strip_marks_chars(&collapsed);
        (string_from_chars(&cleaned), matched)
    }
}

} // verus!
