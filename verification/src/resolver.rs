//! The facade: pick an engine and a rule set, hand it an input string, get
//! the ordered lowercase words back.

use std::marker::PhantomData;
use vstd::prelude::*;

verus! {

use crate::WordBoundResolverImpl;
use crate::chars::ascii_upper;
use crate::chars::push_char;
use crate::chars::str_to_chars;
use crate::impls::charwalk::Charwalk;
use crate::rules::DefaultRules;
use crate::rules::ResolverRules;
use crate::rules::rule_set_valid;
use crate::word_views;

/// A resolution: an input string, an engine choice, a rule set choice, and
/// the words resolved so far.
pub struct WordBoundResolver<
    'a,
    I: WordBoundResolverImpl<R> = Charwalk,
    R: ResolverRules = DefaultRules,
> {
    _phantom_data: PhantomData<(I, R)>,
    input: &'a str,
    words: Vec<String>,
}

impl<'a, I: WordBoundResolverImpl<R>, R: ResolverRules> WordBoundResolver<'a, I, R> {
    pub closed spec fn spec_input(self) -> Seq<char> {
        self.input@
    }

    pub closed spec fn spec_words(self) -> Seq<String> {
        self.words@
    }

    pub fn new(s: &'a str) -> (r: Self)
        ensures
            r.spec_input() == s@,
            r.spec_words().len() == 0,
    {
        Self { _phantom_data: PhantomData, input: s, words: Vec::new() }
    }

    /// Resolves `s` into its lowercase words with the engine `I` under the
    /// rules `R`.
    pub fn resolve(s: &str) -> (words: Vec<String>)
        requires
            rule_set_valid(R::spec_resolution_pass_rules()),
        ensures
            word_views(words@) == I::spec_resolver(s@),
            forall|i: int| 0 <= i < words@.len() ==> (#[trigger] words@[i])@.len() > 0,
            forall|i: int, j: int|
                0 <= i < words@.len() && 0 <= j < words@[i]@.len() ==> !ascii_upper(
                    #[trigger] words@[i]@[j],
                ),
    {
        I::resolver(s)
    }

    /// Resolves `s` with another engine and rule set, chosen at the call.
    #[inline]
    pub fn resolve_with<I2: WordBoundResolverImpl<R2>, R2: ResolverRules>(s: &str) -> (words: Vec<
        String,
    >)
        requires
            rule_set_valid(R2::spec_resolution_pass_rules()),
        ensures
            word_views(words@) == I2::spec_resolver(s@),
            forall|i: int| 0 <= i < words@.len() ==> (#[trigger] words@[i])@.len() > 0,
            forall|i: int, j: int|
                0 <= i < words@.len() && 0 <= j < words@[i]@.len() ==> !ascii_upper(
                    #[trigger] words@[i]@[j],
                ),
    {
        I2::resolver(s)
    }

    /// Runs the resolution on the held input and stores the words.
    #[inline]
    pub fn run(self) -> (r: Self)
        requires
            rule_set_valid(R::spec_resolution_pass_rules()),
        ensures
            r.spec_input() == self.spec_input(),
            word_views(r.spec_words()) == I::spec_resolver(self.spec_input()),
    {
        let mut next = self;
        next.words = Self::resolve(next.input);
        next
    }
}

/// Determinism: an engine's output is a function of the input and rule set
/// alone, so any two word sequences it returns for the same input are
/// identical, irrespective of state kept between the calls.
pub proof fn lemma_resolver_deterministic<I: WordBoundResolverImpl<R>, R: ResolverRules>(
    input: Seq<char>,
    w1: Seq<String>,
    w2: Seq<String>,
)
    requires
        word_views(w1) == I::spec_resolver(input),
        word_views(w2) == I::spec_resolver(input),
    ensures
        word_views(w1) == word_views(w2),
{
}

pub open spec fn spec_is_special_char(c: char) -> bool {
    c == '-' || c == '_'
}

/// Whether `c` is a dash or an underscore.
#[inline]
pub fn is_special_char(c: char) -> (r: bool)
    ensures
        r == spec_is_special_char(c),
{
    c == '-' || c == '_'
}

/// Whether any character of `word` is a dash or an underscore.
#[inline]
pub fn contains_special_chars(word: &str) -> (r: bool)
    ensures
        r == exists|i: int| 0 <= i < word@.len() && spec_is_special_char(#[trigger] word@[i]),
{
    let chars = str_to_chars(word);
    let mut i: usize = 0;
    while i < chars.len()
        invariant
            chars@ == word@,
            0 <= i <= chars@.len(),
            forall|k: int| 0 <= k < i ==> !spec_is_special_char(#[trigger] chars@[k]),
        decreases chars@.len() - i,
    {
        if is_special_char(chars[i]) {
            return true;
        }
        i += 1;
    }
    false
}

/// A word without its leading underscores.
pub open spec fn drop_leading_underscores(s: Seq<char>) -> Seq<char>
    decreases s.len(),
{
    if s.len() > 0 && s[0] == '_' {
        drop_leading_underscores(s.drop_first())
    } else {
        s
    }
}

proof fn lemma_drop_leading_underscores(s: Seq<char>, i: int)
    requires
        0 <= i <= s.len(),
        forall|k: int| 0 <= k < i ==> s[k] == '_',
        i == s.len() || s[i] != '_',
    ensures
        drop_leading_underscores(s) == s.skip(i),
    decreases i,
{
    if i == 0 {
        assert(s.skip(0) =~= s);
    } else {
        assert(s[0] == '_');
        lemma_drop_leading_underscores(s.drop_first(), i - 1);
        assert(s.drop_first().skip(i - 1) =~= s.skip(i));
    }
}

/// Strips every leading underscore from `word`.
#[inline]
pub fn remove_prepended_underscores(word: String) -> (r: String)
    ensures
        r@ == drop_leading_underscores(word@),
{
    let chars = str_to_chars(word.as_str());
    let n = chars.len();
    let mut i: usize = 0;
    while i < n && chars[i] == '_'
        invariant
            chars@ == word@,
            n == chars@.len(),
            0 <= i <= n,
            forall|k: int| 0 <= k < i ==> chars@[k] == '_',
        decreases n - i,
    {
        i += 1;
    }
    proof {
        lemma_drop_leading_underscores(word@, i as int);
    }
    let mut out = String::new();
    let mut j: usize = i;
    while j < n
        invariant
            chars@ == word@,
            n == chars@.len(),
            i <= j <= n,
            out@ == chars@.subrange(i as int, j as int),
        decreases n - j,
    {
        push_char(&mut out, chars[j]);
        proof {
            assert(chars@.subrange(i as int, j + 1) =~= chars@.subrange(i as int, j as int).push(
                chars@[j as int],
            ));
        }
        j += 1;
    }
    proof {
        assert(chars@.subrange(i as int, n as int) =~= chars@.skip(i as int));
    }
    out
}

} // verus!
