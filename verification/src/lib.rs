//! Rule-driven splitting of identifier-like strings into lowercase words.
//!
//! A `ResolverRules` implementation supplies the boundary rules; an engine
//! implementing `WordBoundResolverImpl` consumes them together with an input
//! string and produces the ordered sequence of lowercase word tokens.

use vstd::prelude::*;

pub mod chars;
pub mod impls;
pub mod resolver;
pub mod rules;

verus! {

use crate::chars::ascii_upper;
use crate::rules::ResolverRules;
use crate::rules::rule_set_valid;

/// The view of a sequence of produced words: each word as its character
/// sequence.
pub open spec fn word_views(ws: Seq<String>) -> Seq<Seq<char>> {
    ws.map_values(|w: String| w@)
}

/// A word-boundary engine: turns an input string into the ordered sequence of
/// lowercase words that the rule set `R` dictates.
///
/// Every engine pins its output down as a function of the input alone
/// (`spec_resolver`), produces no empty word, and produces no word holding an
/// ASCII capital letter.
///
/// The engines agree on the common identifier shapes, but their outputs are
/// not related by contract and do differ on some inputs: a digit run
/// followed directly by a letter stays one word under the character walk
/// and is cut apart by the pattern engines, and a boundary character ending
/// the input is kept by the character walk and dropped by the split engine.
/// The pattern engines' outputs also rest on named, uninterpreted match
/// results, so no equality between engines can be derived. When a pattern
/// engine's matcher fails internally (a pattern that does not compile, a
/// match error, or a token mixing digits and other characters), that engine
/// returns the empty word sequence; the contracts state exactly when.
pub trait WordBoundResolverImpl<R: ResolverRules> {
    /// The exact word sequence this engine produces for `input`.
    spec fn spec_resolver(input: Seq<char>) -> Seq<Seq<char>>;

    /// The pattern this engine compiles from the rules, if it is a
    /// pattern-based engine.
    spec fn spec_compiled_pattern() -> Option<Seq<char>>;

    fn resolver(s: &str) -> (words: Vec<String>)
        requires
            rule_set_valid(R::spec_resolution_pass_rules()),
        ensures
            word_views(words@) == Self::spec_resolver(s@),
            forall|i: int| 0 <= i < words@.len() ==> (#[trigger] words@[i])@.len() > 0,
            forall|i: int, j: int|
                0 <= i < words@.len() && 0 <= j < words@[i]@.len() ==> !ascii_upper(
                    #[trigger] words@[i]@[j],
                ),
    ;

    fn compile_rules() -> (r: CompiledRules)
        requires
            rule_set_valid(R::spec_resolution_pass_rules()),
        ensures
            match r {
                CompiledRules::Regex(p) => Self::spec_compiled_pattern() == Some(p@),
                CompiledRules::NotApplicable => Self::spec_compiled_pattern() is None,
                CompiledRules::Str(_) => false,
            },
    ;
}

/// What an engine's rule compilation step yields: a single pattern string, a
/// plain string, or nothing for engines that do not precompile anything.
pub enum CompiledRules {
    Regex(String),
    Str(String),
    NotApplicable,
}

} // verus!
