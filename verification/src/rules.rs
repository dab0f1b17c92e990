//! The rule model: what a rule matches (`RuleTarget`), what a removal rule
//! does (`RemoveMode`, `Scope`), the rules themselves
//! (`ResolverProcessingRule`), the `ResolverRules` policy trait, and the
//! derivation of the punctuation / non-punctuation-special character classes.

use vstd::prelude::*;

verus! {

use crate::chars::push_char;
use crate::chars::str_contains_char;
use crate::chars::str_to_chars;

/// Whether an `Ends`/`Middle` removal counts positions over the whole input
/// or within the word being formed (the latter has no defined semantics in
/// any engine and is rejected).
pub enum Scope {
    SingleWord,
    FullInput,
}

/// Where a `Remove` rule applies. `NoRemove`, `Prepended` and `Appended`
/// are reserved placeholders that no engine interprets.
pub enum RemoveMode {
    NoRemove,
    Prepended(Scope),
    Appended(Scope),
    Ends(Scope),
    Middle(Scope),
    All,
}

/// What a rule matches against. `Word` and `String` are reserved and
/// unsupported: a rule set using them is invalid input to every engine.
pub enum RuleTarget {
    Word,
    String(String),
    Char(char),
    Numerics,
    Acronym,
    PunctSpecialChar,
    NonPunctSpecialChar,
    CaseChangeNonAcronym,
}

/// A single processing rule: delete matched occurrences, or turn an
/// occurrence into the start or the end of a word.
pub enum ResolverProcessingRule {
    Remove(RuleTarget, RemoveMode),
    BoundStart(RuleTarget),
    BoundEnd(RuleTarget),
}

/// Which neighboring word a character attaches to.
pub enum Direction {
    Previous,
    Next,
    Auto,
}

// ---------------------------------------------------------------------------
// Equality of targets, modes and rules, as the engines compare them.
// ---------------------------------------------------------------------------

pub open spec fn target_matches(a: RuleTarget, b: RuleTarget) -> bool {
    match (a, b) {
        (RuleTarget::Word, RuleTarget::Word) => true,
        (RuleTarget::String(x), RuleTarget::String(y)) => x@ == y@,
        (RuleTarget::Char(x), RuleTarget::Char(y)) => x == y,
        (RuleTarget::Numerics, RuleTarget::Numerics) => true,
        (RuleTarget::Acronym, RuleTarget::Acronym) => true,
        (RuleTarget::PunctSpecialChar, RuleTarget::PunctSpecialChar) => true,
        (RuleTarget::NonPunctSpecialChar, RuleTarget::NonPunctSpecialChar) => true,
        (RuleTarget::CaseChangeNonAcronym, RuleTarget::CaseChangeNonAcronym) => true,
        _ => false,
    }
}

pub open spec fn scope_matches(a: Scope, b: Scope) -> bool {
    match (a, b) {
        (Scope::SingleWord, Scope::SingleWord) => true,
        (Scope::FullInput, Scope::FullInput) => true,
        _ => false,
    }
}

pub open spec fn mode_matches(a: RemoveMode, b: RemoveMode) -> bool {
    match (a, b) {
        (RemoveMode::NoRemove, RemoveMode::NoRemove) => true,
        (RemoveMode::Prepended(x), RemoveMode::Prepended(y)) => scope_matches(x, y),
        (RemoveMode::Appended(x), RemoveMode::Appended(y)) => scope_matches(x, y),
        (RemoveMode::Ends(x), RemoveMode::Ends(y)) => scope_matches(x, y),
        (RemoveMode::Middle(x), RemoveMode::Middle(y)) => scope_matches(x, y),
        (RemoveMode::All, RemoveMode::All) => true,
        _ => false,
    }
}

/// The target a rule matches against, whichever kind of rule it is.
pub open spec fn spec_target_of(r: ResolverProcessingRule) -> RuleTarget {
    match r {
        ResolverProcessingRule::Remove(t, _) => t,
        ResolverProcessingRule::BoundStart(t) => t,
        ResolverProcessingRule::BoundEnd(t) => t,
    }
}

pub open spec fn rule_is_remove_of(r: ResolverProcessingRule, t: RuleTarget, m: RemoveMode) -> bool {
    match r {
        ResolverProcessingRule::Remove(t2, m2) => target_matches(t2, t) && mode_matches(m2, m),
        _ => false,
    }
}

pub open spec fn rule_is_bound_start_of(r: ResolverProcessingRule, t: RuleTarget) -> bool {
    match r {
        ResolverProcessingRule::BoundStart(t2) => target_matches(t2, t),
        _ => false,
    }
}

pub open spec fn rule_is_bound_end_of(r: ResolverProcessingRule, t: RuleTarget) -> bool {
    match r {
        ResolverProcessingRule::BoundEnd(t2) => target_matches(t2, t),
        _ => false,
    }
}

pub open spec fn has_remove(rules: Seq<ResolverProcessingRule>, t: RuleTarget, m: RemoveMode) -> bool {
    exists|i: int| 0 <= i < rules.len() && rule_is_remove_of(#[trigger] rules[i], t, m)
}

pub open spec fn has_bound_start(rules: Seq<ResolverProcessingRule>, t: RuleTarget) -> bool {
    exists|i: int| 0 <= i < rules.len() && rule_is_bound_start_of(#[trigger] rules[i], t)
}

pub open spec fn has_bound_end(rules: Seq<ResolverProcessingRule>, t: RuleTarget) -> bool {
    exists|i: int| 0 <= i < rules.len() && rule_is_bound_end_of(#[trigger] rules[i], t)
}

pub fn target_eq(a: &RuleTarget, b: &RuleTarget) -> (r: bool)
    ensures
        r == target_matches(*a, *b),
{
    match (a, b) {
        (RuleTarget::Word, RuleTarget::Word) => true,
        (RuleTarget::String(x), RuleTarget::String(y)) => *x == *y,
        (RuleTarget::Char(x), RuleTarget::Char(y)) => *x == *y,
        (RuleTarget::Numerics, RuleTarget::Numerics) => true,
        (RuleTarget::Acronym, RuleTarget::Acronym) => true,
        (RuleTarget::PunctSpecialChar, RuleTarget::PunctSpecialChar) => true,
        (RuleTarget::NonPunctSpecialChar, RuleTarget::NonPunctSpecialChar) => true,
        (RuleTarget::CaseChangeNonAcronym, RuleTarget::CaseChangeNonAcronym) => true,
        _ => false,
    }
}

pub fn scope_eq(a: &Scope, b: &Scope) -> (r: bool)
    ensures
        r == scope_matches(*a, *b),
{
    match (a, b) {
        (Scope::SingleWord, Scope::SingleWord) => true,
        (Scope::FullInput, Scope::FullInput) => true,
        _ => false,
    }
}

pub fn mode_eq(a: &RemoveMode, b: &RemoveMode) -> (r: bool)
    ensures
        r == mode_matches(*a, *b),
{
    match (a, b) {
        (RemoveMode::NoRemove, RemoveMode::NoRemove) => true,
        (RemoveMode::Prepended(x), RemoveMode::Prepended(y)) => scope_eq(x, y),
        (RemoveMode::Appended(x), RemoveMode::Appended(y)) => scope_eq(x, y),
        (RemoveMode::Ends(x), RemoveMode::Ends(y)) => scope_eq(x, y),
        (RemoveMode::Middle(x), RemoveMode::Middle(y)) => scope_eq(x, y),
        (RemoveMode::All, RemoveMode::All) => true,
        _ => false,
    }
}

pub fn rules_have_remove(rules: &Vec<ResolverProcessingRule>, t: &RuleTarget, m: &RemoveMode) -> (r:
    bool)
    ensures
        r == has_remove(rules@, *t, *m),
{
    let mut i: usize = 0;
    while i < rules.len()
        invariant
            0 <= i <= rules@.len(),
            forall|k: int| 0 <= k < i ==> !rule_is_remove_of(#[trigger] rules@[k], *t, *m),
        decreases rules@.len() - i,
    {
        let found = match &rules[i] {
            ResolverProcessingRule::Remove(t2, m2) => target_eq(t2, t) && mode_eq(m2, m),
            _ => false,
        };
        if found {
            return true;
        }
        i += 1;
    }
    false
}

pub fn rules_have_bound_start(rules: &Vec<ResolverProcessingRule>, t: &RuleTarget) -> (r: bool)
    ensures
        r == has_bound_start(rules@, *t),
{
    let mut i: usize = 0;
    while i < rules.len()
        invariant
            0 <= i <= rules@.len(),
            forall|k: int| 0 <= k < i ==> !rule_is_bound_start_of(#[trigger] rules@[k], *t),
        decreases rules@.len() - i,
    {
        let found = match &rules[i] {
            ResolverProcessingRule::BoundStart(t2) => target_eq(t2, t),
            _ => false,
        };
        if found {
            return true;
        }
        i += 1;
    }
    false
}

pub fn rules_have_bound_end(rules: &Vec<ResolverProcessingRule>, t: &RuleTarget) -> (r: bool)
    ensures
        r == has_bound_end(rules@, *t),
{
    let mut i: usize = 0;
    while i < rules.len()
        invariant
            0 <= i <= rules@.len(),
            forall|k: int| 0 <= k < i ==> !rule_is_bound_end_of(#[trigger] rules@[k], *t),
        decreases rules@.len() - i,
    {
        let found = match &rules[i] {
            ResolverProcessingRule::BoundEnd(t2) => target_eq(t2, t),
            _ => false,
        };
        if found {
            return true;
        }
        i += 1;
    }
    false
}

// ---------------------------------------------------------------------------
// Validity: the combinations with defined semantics in every engine.
// ---------------------------------------------------------------------------

pub open spec fn target_supported(t: RuleTarget) -> bool {
    match t {
        RuleTarget::Word => false,
        RuleTarget::String(_) => false,
        _ => true,
    }
}

pub open spec fn remove_rule_supported(t: RuleTarget, m: RemoveMode) -> bool {
    &&& (t matches RuleTarget::Char(_) || t is PunctSpecialChar)
    &&& match m {
        RemoveMode::All => true,
        RemoveMode::Middle(s) => s is FullInput,
        RemoveMode::Ends(s) => s is FullInput,
        _ => false,
    }
}

/// A rule has defined semantics in every engine: no reserved target, no
/// acronym bound-start, no single-word-scoped or placeholder removal mode,
/// and removal only of literal characters or the punctuation class.
pub open spec fn rule_supported(r: ResolverProcessingRule) -> bool {
    match r {
        ResolverProcessingRule::Remove(t, m) => target_supported(t) && remove_rule_supported(t, m),
        ResolverProcessingRule::BoundStart(t) => target_supported(t) && !(t is Acronym),
        ResolverProcessingRule::BoundEnd(t) => target_supported(t),
    }
}

/// A rule set every engine accepts. Engines reject anything else rather than
/// silently skipping a rule.
pub open spec fn rule_set_valid(rules: Seq<ResolverProcessingRule>) -> bool {
    forall|i: int| 0 <= i < rules.len() ==> rule_supported(#[trigger] rules[i])
}

/// Checks a rule list for validity, so unverified callers can reject an
/// unsupported rule set before resolving with it.
pub fn rules_valid(rules: &Vec<ResolverProcessingRule>) -> (r: bool)
    ensures
        r == rule_set_valid(rules@),
{
    let mut i: usize = 0;
    while i < rules.len()
        invariant
            0 <= i <= rules@.len(),
            forall|k: int| 0 <= k < i ==> rule_supported(#[trigger] rules@[k]),
        decreases rules@.len() - i,
    {
        let ok = match &rules[i] {
            ResolverProcessingRule::Remove(t, m) => {
                let t_ok = match t {
                    RuleTarget::Char(_) => true,
                    RuleTarget::PunctSpecialChar => true,
                    _ => false,
                };
                let m_ok = match m {
                    RemoveMode::All => true,
                    RemoveMode::Middle(s) => match s {
                        Scope::FullInput => true,
                        _ => false,
                    },
                    RemoveMode::Ends(s) => match s {
                        Scope::FullInput => true,
                        _ => false,
                    },
                    _ => false,
                };
                t_ok && m_ok
            },
            ResolverProcessingRule::BoundStart(t) => match t {
                RuleTarget::Word => false,
                RuleTarget::String(_) => false,
                RuleTarget::Acronym => false,
                _ => true,
            },
            ResolverProcessingRule::BoundEnd(t) => match t {
                RuleTarget::Word => false,
                RuleTarget::String(_) => false,
                _ => true,
            },
        };
        if !ok {
            return false;
        }
        i += 1;
    }
    true
}

impl ResolverProcessingRule {
    /// The target this rule matches against. Every rule kind carries one, so
    /// the result is never absent.
    pub fn target(&self) -> (t: Option<&RuleTarget>)
        ensures
            t matches Some(t2) && target_matches(*t2, spec_target_of(*self)),
    {
        match self {
            ResolverProcessingRule::Remove(t, _) => Some(t),
            ResolverProcessingRule::BoundStart(t) => Some(t),
            ResolverProcessingRule::BoundEnd(t) => Some(t),
        }
    }
}

// ---------------------------------------------------------------------------
// Derived character classes.
// ---------------------------------------------------------------------------

/// The literal characters referenced by `Char`-targeted rules, in rule order.
pub open spec fn char_rule_chars(rules: Seq<ResolverProcessingRule>) -> Seq<char>
    decreases rules.len(),
{
    if rules.len() == 0 {
        Seq::empty()
    } else {
        char_rule_chars(rules.drop_last()) + (match spec_target_of(rules.last()) {
            RuleTarget::Char(c) => seq![c],
            _ => Seq::empty(),
        })
    }
}

/// The pattern-syntax class of characters that are neither alphanumeric, nor
/// configured punctuation, nor referenced by a `Char` rule.
pub open spec fn spec_npsc_class(punct: Seq<char>, rules: Seq<ResolverProcessingRule>) -> Seq<char> {
    "[^a-zA-Z0-9"@ + punct + char_rule_chars(rules) + "]"@
}

/// The ASCII punctuation characters eligible for the non-punct-special class.
pub open spec fn spec_special_candidates() -> Seq<char> {
    "!\"#$%&'()*+,-.:;<=>?[\\]^_{|}~"@
}

/// The literal list of characters that are ASCII punctuation but neither
/// configured punctuation nor referenced by a `Char` rule.
pub open spec fn spec_npsc_non_regex(punct_nr: Seq<char>, rules: Seq<ResolverProcessingRule>) -> Seq<
    char,
> {
    spec_special_candidates().filter(
        |c: char| !(punct_nr.contains(c) || char_rule_chars(rules).contains(c)),
    )
}

/// Membership in a concatenation is membership in either part.
pub proof fn lemma_concat_contains<A>(a: Seq<A>, b: Seq<A>, x: A)
    ensures
        (a + b).contains(x) == (a.contains(x) || b.contains(x)),
{
    if a.contains(x) {
        let i = choose|i: int| 0 <= i < a.len() && a[i] == x;
        assert((a + b)[i] == x);
    }
    if b.contains(x) {
        let i = choose|i: int| 0 <= i < b.len() && b[i] == x;
        assert((a + b)[a.len() + i] == x);
    }
    if (a + b).contains(x) {
        let i = choose|i: int| 0 <= i < (a + b).len() && (a + b)[i] == x;
        if i < a.len() {
            assert(a[i] == x);
        } else {
            assert(b[i - a.len()] == x);
        }
    }
}

/// Appends the `Char`-rule characters of `rules` to `out`.
fn append_char_rule_chars(out: &mut String, rules: &Vec<ResolverProcessingRule>)
    ensures
        final(out)@ == old(out)@ + char_rule_chars(rules@),
{
    let ghost out0 = out@;
    let mut i: usize = 0;
    while i < rules.len()
        invariant
            0 <= i <= rules@.len(),
            out@ == out0 + char_rule_chars(rules@.take(i as int)),
        decreases rules@.len() - i,
    {
        let ghost prefix = rules@.take(i as int);
        match rules[i].target() {
            Some(RuleTarget::Char(c)) => {
                push_char(out, *c);
            },
            _ => {},
        }
        proof {
            assert(rules@.take(i + 1).drop_last() =~= prefix);
            assert(rules@.take(i + 1).last() == rules@[i as int]);
        }
        i += 1;
    }
    proof {
        assert(rules@.take(rules@.len() as int) =~= rules@);
    }
}

/// Derives the pattern-syntax non-punct-special class from a punctuation
/// class and a rule list.
pub fn derive_npsc_class(punct: &str, rules: &Vec<ResolverProcessingRule>) -> (s: String)
    ensures
        s@ == spec_npsc_class(punct@, rules@),
{
    let mut out = "[^a-zA-Z0-9".to_owned();
    out.append(punct);
    append_char_rule_chars(&mut out, rules);
    out.append("]");
    out
}

/// Derives the literal (non-pattern) non-punct-special character list from a
/// literal punctuation list and a rule list.
pub fn derive_npsc_non_regex(punct_nr: &str, rules: &Vec<ResolverProcessingRule>) -> (s: String)
    ensures
        s@ == spec_npsc_non_regex(punct_nr@, rules@),
{
    let candidates = "!\"#$%&'()*+,-.:;<=>?[\\]^_{|}~";
    let mut excluded = punct_nr.to_owned();
    append_char_rule_chars(&mut excluded, rules);
    let cand_chars = str_to_chars(candidates);
    let ghost pred = |c: char|
        !(punct_nr@.contains(c) || char_rule_chars(rules@).contains(c));
    let mut out = String::new();
    let mut i: usize = 0;
    while i < cand_chars.len()
        invariant
            0 <= i <= cand_chars@.len(),
            cand_chars@ == spec_special_candidates(),
            excluded@ == punct_nr@ + char_rule_chars(rules@),
            pred == (|c: char|
                !(punct_nr@.contains(c) || char_rule_chars(rules@).contains(c))),
            out@ == cand_chars@.take(i as int).filter(pred),
        decreases cand_chars@.len() - i,
    {
        let ghost prefix = cand_chars@.take(i as int);
        let c = cand_chars[i];
        proof {
            lemma_concat_contains(punct_nr@, char_rule_chars(rules@), c);
        }
        if !str_contains_char(excluded.as_str(), c) {
            push_char(&mut out, c);
        }
        proof {
            assert(cand_chars@.take(i + 1).drop_last() =~= prefix);
            assert(cand_chars@.take(i + 1).last() == c);
            reveal(Seq::filter);
            if pred(c) {
                assert(out@ == prefix.filter(pred).push(c));
            }
            assert(cand_chars@.take(i + 1).filter(pred) =~= if pred(c) {
                prefix.filter(pred).push(c)
            } else {
                prefix.filter(pred)
            });
        }
        i += 1;
    }
    proof {
        assert(cand_chars@.take(cand_chars@.len() as int) =~= cand_chars@);
    }
    out
}

/// Disjointness of the derived class from the punctuation class: a character
/// in the derived non-punct-special list is never a configured punctuation
/// character (and never a `Char`-rule character).
pub proof fn lemma_npsc_disjoint_from_punct(
    punct_nr: Seq<char>,
    rules: Seq<ResolverProcessingRule>,
)
    ensures
        forall|c: char| #[trigger]
            spec_npsc_non_regex(punct_nr, rules).contains(c) ==> !punct_nr.contains(c)
                && !char_rule_chars(rules).contains(c),
{
    let pred = |c: char| !(punct_nr.contains(c) || char_rule_chars(rules).contains(c));
    let cand = spec_special_candidates();
    assert forall|c: char| #[trigger] spec_npsc_non_regex(punct_nr, rules).contains(c) implies
        !punct_nr.contains(c) && !char_rule_chars(rules).contains(c) by {
        let filtered = cand.filter(pred);
        let i = choose|i: int| 0 <= i < filtered.len() && filtered[i] == c;
        cand.lemma_filter_pred(pred, i);
    }
}

// ---------------------------------------------------------------------------
// The policy trait and the default rule set.
// ---------------------------------------------------------------------------

/// A rule set: the three ordered rule lists and the punctuation classes, with
/// the non-punct-special classes derived from them.
pub trait ResolverRules {
    /// The punctuation class, in pattern syntax.
    spec fn spec_punct_chars() -> Seq<char>;

    /// The punctuation characters as a literal list.
    spec fn spec_punct_chars_non_regex() -> Seq<char>;

    /// The punctuation class without whitespace, in pattern syntax.
    spec fn spec_punct_chars_allow_whitespace() -> Seq<char>;

    spec fn spec_pre_pass_rules() -> Seq<ResolverProcessingRule>;

    spec fn spec_resolution_pass_rules() -> Seq<ResolverProcessingRule>;

    spec fn spec_post_pass_rules() -> Seq<ResolverProcessingRule>;

    fn punct_chars() -> (s: String)
        ensures
            s@ == Self::spec_punct_chars(),
    ;

    fn punct_chars_non_regex() -> (s: String)
        ensures
            s@ == Self::spec_punct_chars_non_regex(),
    ;

    fn punct_chars_allow_whitespace() -> (s: String)
        ensures
            s@ == Self::spec_punct_chars_allow_whitespace(),
    ;

    /// Rules applied to the whole raw input before resolution; empty means
    /// the pre-pass is skipped.
    fn pre_pass_rules() -> (v: Vec<ResolverProcessingRule>)
        ensures
            v@ == Self::spec_pre_pass_rules(),
    ;

    /// The rule list the engines interpret during the main walk.
    fn resolution_pass_rules() -> (v: Vec<ResolverProcessingRule>)
        ensures
            v@ == Self::spec_resolution_pass_rules(),
    ;

    /// Rules applied to the finished word sequence; empty means the post-pass
    /// is skipped.
    fn post_pass_rules() -> (v: Vec<ResolverProcessingRule>)
        ensures
            v@ == Self::spec_post_pass_rules(),
    ;

    /// The complement class of `punct_chars`, in pattern syntax.
    fn non_punct_special_chars() -> (s: String)
        ensures
            s@ == spec_npsc_class(Self::spec_punct_chars(), Self::spec_resolution_pass_rules()),
    {
        derive_npsc_class(Self::punct_chars().as_str(), &Self::resolution_pass_rules())
    }

    /// The complement class as a literal character list.
    fn non_punct_special_chars_non_regex() -> (s: String)
        ensures
            s@ == spec_npsc_non_regex(
                Self::spec_punct_chars_non_regex(),
                Self::spec_resolution_pass_rules(),
            ),
    {
        derive_npsc_non_regex(Self::punct_chars_non_regex().as_str(), &Self::resolution_pass_rules())
    }

    /// The complement class of `punct_chars_allow_whitespace`, in pattern
    /// syntax.
    fn non_punct_special_chars_allow_whitespace() -> (s: String)
        ensures
            s@ == spec_npsc_class(
                Self::spec_punct_chars_allow_whitespace(),
                Self::spec_resolution_pass_rules(),
            ),
    {
        derive_npsc_class(
            Self::punct_chars_allow_whitespace().as_str(),
            &Self::resolution_pass_rules(),
        )
    }
}

/// The default policy: dashes, underscores and sentence punctuation delimit
/// words; spaces are deleted; case changes, acronym ends and digit runs bound
/// words; `#` prefixes and `%` suffixes attach to their neighbor.
pub struct DefaultRules;

impl ResolverRules for DefaultRules {
    open spec fn spec_punct_chars() -> Seq<char> {
        r"\-_\.,:;\?! \ \s"@
    }

    open spec fn spec_punct_chars_non_regex() -> Seq<char> {
        "-_.,:;?! "@
    }

    open spec fn spec_punct_chars_allow_whitespace() -> Seq<char> {
        r"\-_\.,:;\?!"@
    }

    open spec fn spec_pre_pass_rules() -> Seq<ResolverProcessingRule> {
        Seq::empty()
    }

    open spec fn spec_resolution_pass_rules() -> Seq<ResolverProcessingRule> {
        default_resolution_rules()
    }

    open spec fn spec_post_pass_rules() -> Seq<ResolverProcessingRule> {
        Seq::empty()
    }

    fn punct_chars() -> (s: String) {
        r"\-_\.,:;\?! \ \s".to_owned()
    }

    fn punct_chars_non_regex() -> (s: String) {
        "-_.,:;?! ".to_owned()
    }

    fn punct_chars_allow_whitespace() -> (s: String) {
        r"\-_\.,:;\?!".to_owned()
    }

    fn pre_pass_rules() -> (v: Vec<ResolverProcessingRule>) {
        Vec::new()
    }

    fn resolution_pass_rules() -> (v: Vec<ResolverProcessingRule>) {
        let mut v: Vec<ResolverProcessingRule> = Vec::new();
        v.push(
            ResolverProcessingRule::Remove(
                RuleTarget::PunctSpecialChar,
                RemoveMode::Middle(Scope::FullInput),
            ),
        );
        v.push(ResolverProcessingRule::Remove(RuleTarget::Char(' '), RemoveMode::All));
        v.push(ResolverProcessingRule::BoundStart(RuleTarget::CaseChangeNonAcronym));
        v.push(ResolverProcessingRule::BoundEnd(RuleTarget::Acronym));
        v.push(ResolverProcessingRule::BoundStart(RuleTarget::PunctSpecialChar));
        v.push(ResolverProcessingRule::BoundEnd(RuleTarget::PunctSpecialChar));
        v.push(ResolverProcessingRule::BoundStart(RuleTarget::Numerics));
        v.push(ResolverProcessingRule::BoundEnd(RuleTarget::Numerics));
        v.push(ResolverProcessingRule::BoundStart(RuleTarget::Char('#')));
        v.push(ResolverProcessingRule::BoundEnd(RuleTarget::Char('%')));
        v.push(ResolverProcessingRule::BoundStart(RuleTarget::NonPunctSpecialChar));
        v.push(ResolverProcessingRule::BoundEnd(RuleTarget::NonPunctSpecialChar));
        proof {
            assert(v@ =~= default_resolution_rules());
        }
        v
    }

    fn post_pass_rules() -> (v: Vec<ResolverProcessingRule>) {
        Vec::new()
    }
}

/// The default resolution-pass rule list.
pub open spec fn default_resolution_rules() -> Seq<ResolverProcessingRule> {
    seq![
        ResolverProcessingRule::Remove(
            RuleTarget::PunctSpecialChar,
            RemoveMode::Middle(Scope::FullInput),
        ),
        ResolverProcessingRule::Remove(RuleTarget::Char(' '), RemoveMode::All),
        ResolverProcessingRule::BoundStart(RuleTarget::CaseChangeNonAcronym),
        ResolverProcessingRule::BoundEnd(RuleTarget::Acronym),
        ResolverProcessingRule::BoundStart(RuleTarget::PunctSpecialChar),
        ResolverProcessingRule::BoundEnd(RuleTarget::PunctSpecialChar),
        ResolverProcessingRule::BoundStart(RuleTarget::Numerics),
        ResolverProcessingRule::BoundEnd(RuleTarget::Numerics),
        ResolverProcessingRule::BoundStart(RuleTarget::Char('#')),
        ResolverProcessingRule::BoundEnd(RuleTarget::Char('%')),
        ResolverProcessingRule::BoundStart(RuleTarget::NonPunctSpecialChar),
        ResolverProcessingRule::BoundEnd(RuleTarget::NonPunctSpecialChar),
    ]
}

/// The default rule set is valid for every engine.
pub proof fn lemma_default_rules_valid()
    ensures
        rule_set_valid(default_resolution_rules()),
{
    let rules = default_resolution_rules();
    assert forall|i: int| 0 <= i < rules.len() implies rule_supported(#[trigger] rules[i]) by {
        if i == 0 {
            assert(rule_supported(rules[0]));
        } else if i == 1 {
            assert(rule_supported(rules[1]));
        } else if i == 2 {
            assert(rule_supported(rules[2]));
        } else if i == 3 {
            assert(rule_supported(rules[3]));
        } else if i == 4 {
            assert(rule_supported(rules[4]));
        } else if i == 5 {
            assert(rule_supported(rules[5]));
        } else if i == 6 {
            assert(rule_supported(rules[6]));
        } else if i == 7 {
            assert(rule_supported(rules[7]));
        } else if i == 8 {
            assert(rule_supported(rules[8]));
        } else if i == 9 {
            assert(rule_supported(rules[9]));
        } else if i == 10 {
            assert(rule_supported(rules[10]));
        } else {
            assert(rule_supported(rules[11]));
        }
    }
}

} // verus!
