//! The boundary automaton: a single left-to-right walk over the input
//! characters. At each position every rule target is dispatched against the
//! current character, folding delete / commit / bound-start / bound-end
//! flags, which then drive how the character joins the forming word and when
//! that word is flushed to the output, lowercased.

use std::marker::PhantomData;
use vstd::prelude::*;

verus! {

use crate::CompiledRules;
use crate::WordBoundResolverImpl;
use crate::chars::ascii_digit;
use crate::chars::ascii_lower;
use crate::chars::ascii_lower_char;
use crate::chars::ascii_lower_seq;
use crate::chars::ascii_upper;
use crate::chars::char_is_ascii;
use crate::chars::char_is_lowercase;
use crate::chars::char_is_numeric;
use crate::chars::char_is_uppercase;
use crate::chars::chars_to_string;
use crate::chars::is_lowercase_char;
use crate::chars::is_numeric_char;
use crate::chars::is_uppercase_char;
use crate::chars::lower_of;
use crate::chars::lowercase;
use crate::chars::seq_is_ascii;
use crate::chars::str_to_chars;
use crate::chars::vec_contains_char;
use crate::rules::DefaultRules;
use crate::rules::RemoveMode;
use crate::rules::ResolverProcessingRule;
use crate::rules::ResolverRules;
use crate::rules::RuleTarget;
use crate::rules::Scope;
use crate::rules::default_resolution_rules;
use crate::rules::has_bound_end;
use crate::rules::has_bound_start;
use crate::rules::has_remove;
use crate::rules::rule_is_bound_end_of;
use crate::rules::rule_is_bound_start_of;
use crate::rules::rule_is_remove_of;
use crate::rules::rules_have_bound_end;
use crate::rules::rules_have_bound_start;
use crate::rules::rules_have_remove;
use crate::rules::spec_npsc_non_regex;
use crate::rules::spec_target_of;
use crate::word_views;

/// The per-position outcome of rule dispatch.
#[derive(Clone, Copy)]
pub struct StepFlags {
    pub delete: bool,
    pub commit: bool,
    pub bound_start: bool,
    pub bound_end: bool,
}

/// Whether a `Remove` rule on `t` deletes the occurrence at `idx`, with
/// `last` the final position of the input.
pub open spec fn mode_del(
    rules: Seq<ResolverProcessingRule>,
    t: RuleTarget,
    idx: int,
    last: int,
) -> bool {
    if has_remove(rules, t, RemoveMode::All) {
        true
    } else if has_remove(rules, t, RemoveMode::Middle(Scope::FullInput)) {
        idx != 0 && idx != last
    } else if has_remove(rules, t, RemoveMode::Ends(Scope::FullInput)) {
        idx == 0 || idx == last
    } else {
        false
    }
}

/// The flag updates a matching target contributes.
pub open spec fn dispatch_body(
    rules: Seq<ResolverProcessingRule>,
    t: RuleTarget,
    idx: int,
    last: int,
    f: StepFlags,
) -> StepFlags {
    let bs = has_bound_start(rules, t);
    let be = has_bound_end(rules, t);
    StepFlags {
        delete: f.delete || mode_del(rules, t, idx, last),
        commit: f.commit || bs || be,
        bound_start: f.bound_start || bs,
        bound_end: f.bound_end || be,
    }
}

/// One target dispatch: applies only while its predicate holds and no
/// earlier target has deleted the character.
pub open spec fn dispatch(
    rules: Seq<ResolverProcessingRule>,
    t: RuleTarget,
    pred: bool,
    idx: int,
    last: int,
    f: StepFlags,
) -> StepFlags {
    if pred && !f.delete {
        dispatch_body(rules, t, idx, last, f)
    } else {
        f
    }
}

/// An absent neighbor never matches a class.
pub open spec fn opt_is_numeric(o: Option<char>) -> bool {
    o matches Some(p) && is_numeric_char(p)
}

pub open spec fn opt_is_uppercase(o: Option<char>) -> bool {
    o matches Some(p) && is_uppercase_char(p)
}

pub open spec fn opt_is_lowercase(o: Option<char>) -> bool {
    o matches Some(p) && is_lowercase_char(p)
}

/// The neighbor-sensitive adjustment for digits: interior digits of a run
/// bound nothing; a run start — a digit preceded by a non-digit or by
/// nothing and followed by a digit or by the end of the input — honors only
/// `BoundStart(Numerics)`; a run end honors only `BoundEnd(Numerics)`,
/// committing nothing by itself.
pub open spec fn numerics_extra(
    rules: Seq<ResolverProcessingRule>,
    prev: Option<char>,
    next: Option<char>,
    f: StepFlags,
) -> StepFlags {
    if opt_is_numeric(prev) && opt_is_numeric(next) {
        StepFlags { delete: f.delete, commit: false, bound_start: false, bound_end: false }
    } else if !opt_is_numeric(prev) && (opt_is_numeric(next) || next is None) {
        StepFlags {
            delete: f.delete,
            commit: f.commit,
            bound_start: if has_bound_start(rules, RuleTarget::Numerics) {
                true
            } else {
                f.bound_start
            },
            bound_end: false,
        }
    } else if opt_is_numeric(prev) && ((next is Some && !opt_is_numeric(next)) || next is None) {
        if has_bound_end(rules, RuleTarget::Numerics) {
            StepFlags { delete: f.delete, commit: false, bound_start: false, bound_end: true }
        } else {
            StepFlags {
                delete: f.delete,
                commit: f.commit,
                bound_start: false,
                bound_end: f.bound_end,
            }
        }
    } else {
        f
    }
}

pub open spec fn dispatch_numerics(
    rules: Seq<ResolverProcessingRule>,
    c: char,
    prev: Option<char>,
    next: Option<char>,
    idx: int,
    last: int,
    f: StepFlags,
) -> StepFlags {
    if is_numeric_char(c) && !f.delete {
        numerics_extra(rules, prev, next, dispatch_body(rules, RuleTarget::Numerics, idx, last, f))
    } else {
        f
    }
}

/// The fold of the `Char`-targeted rules among the first `k` rules.
pub open spec fn dispatch_char_rules_upto(
    rules: Seq<ResolverProcessingRule>,
    c: char,
    idx: int,
    last: int,
    f0: StepFlags,
    k: int,
) -> StepFlags
    decreases k,
{
    if k <= 0 {
        f0
    } else {
        let f = dispatch_char_rules_upto(rules, c, idx, last, f0, k - 1);
        match spec_target_of(rules[k - 1]) {
            RuleTarget::Char(cc) => dispatch(rules, RuleTarget::Char(cc), c == cc, idx, last, f),
            _ => f,
        }
    }
}

/// A case-change boundary: an upper-to-lower transition at the last capital
/// of a run, or a lower-to-upper transition.
pub open spec fn case_change_pred(prev: Option<char>, c: char, next: Option<char>) -> bool {
    (opt_is_uppercase(prev) && opt_is_lowercase(next) && is_uppercase_char(c)) || (opt_is_lowercase(
        prev,
    ) && is_uppercase_char(c))
}

/// All flags for position `i`: every target dispatched in order against the
/// character there.
pub open spec fn charwalk_flags(
    rules: Seq<ResolverProcessingRule>,
    punct: Seq<char>,
    npsc: Seq<char>,
    input: Seq<char>,
    i: int,
) -> StepFlags
    recommends
        0 <= i < input.len(),
{
    let c = input[i];
    let last = input.len() - 1;
    let prev = if i > 0 {
        Some(input[i - 1])
    } else {
        None
    };
    let next = if i < last {
        Some(input[i + 1])
    } else {
        None
    };
    let f0 = StepFlags { delete: false, commit: false, bound_start: false, bound_end: false };
    let f1 = dispatch(rules, RuleTarget::PunctSpecialChar, punct.contains(c), i, last, f0);
    let f2 = dispatch_numerics(rules, c, prev, next, i, last, f1);
    let f3 = dispatch_char_rules_upto(rules, c, i, last, f2, rules.len() as int);
    let f4 = dispatch(rules, RuleTarget::NonPunctSpecialChar, npsc.contains(c), i, last, f3);
    dispatch(rules, RuleTarget::CaseChangeNonAcronym, case_change_pred(prev, c, next), i, last, f4)
}

/// The word being formed and the words already produced.
pub struct WalkState {
    pub curr: Seq<char>,
    pub words: Seq<Seq<char>>,
}

/// How one character changes the state, given its flags. A character joins
/// the forming word unless deleted or marked bound-start; a commit flushes
/// the nonempty forming word, lowercased; a bound-start character then opens
/// the next word; the final character, or one marked both bound-start and
/// bound-end, force-flushes what remains.
pub open spec fn charwalk_step(st: WalkState, c: char, f: StepFlags, at_last: bool) -> WalkState {
    let curr1 = if !f.delete && (!f.commit || f.bound_end) && !f.bound_start {
        st.curr.push(c)
    } else {
        st.curr
    };
    let words2 = if f.commit && curr1.len() > 0 {
        st.words.push(lower_of(curr1))
    } else {
        st.words
    };
    let curr2 = if f.commit && curr1.len() > 0 {
        Seq::empty()
    } else {
        curr1
    };
    let curr3 = if !f.delete && f.commit && f.bound_start {
        curr2.push(c)
    } else {
        curr2
    };
    if at_last || (!f.delete && f.bound_start && f.bound_end) {
        let curr4 = if !f.delete && !(curr3.len() > 0 && curr3.last() == c) {
            curr3.push(c)
        } else {
            curr3
        };
        let words4 = if curr4.len() > 0 {
            words2.push(lower_of(curr4))
        } else {
            words2
        };
        WalkState { curr: Seq::empty(), words: words4 }
    } else {
        WalkState { curr: curr3, words: words2 }
    }
}

/// The state after the first `n` characters.
pub open spec fn charwalk_walk(
    rules: Seq<ResolverProcessingRule>,
    punct: Seq<char>,
    npsc: Seq<char>,
    input: Seq<char>,
    n: int,
) -> WalkState
    decreases n,
{
    if n <= 0 {
        WalkState { curr: Seq::empty(), words: Seq::empty() }
    } else {
        charwalk_step(
            charwalk_walk(rules, punct, npsc, input, n - 1),
            input[n - 1],
            charwalk_flags(rules, punct, npsc, input, n - 1),
            n == input.len(),
        )
    }
}

/// The words the automaton produces for `input` under the given rule list
/// and character classes.
pub open spec fn charwalk_words(
    rules: Seq<ResolverProcessingRule>,
    punct: Seq<char>,
    npsc: Seq<char>,
    input: Seq<char>,
) -> Seq<Seq<char>> {
    charwalk_walk(rules, punct, npsc, input, input.len() as int).words
}

/// The ASCII rows of the classification tables, for one character.
pub open spec fn char_fact(c: char) -> bool {
    char_is_ascii(c) ==> (is_numeric_char(c) == ascii_digit(c) && is_uppercase_char(c)
        == ascii_upper(c) && is_lowercase_char(c) == ascii_lower(c))
}

fn mode_del_exec(
    rules: &Vec<ResolverProcessingRule>,
    t: &RuleTarget,
    idx: usize,
    last: usize,
) -> (r: bool)
    ensures
        r == mode_del(rules@, *t, idx as int, last as int),
{
    if rules_have_remove(rules, t, &RemoveMode::All) {
        true
    } else if rules_have_remove(rules, t, &RemoveMode::Middle(Scope::FullInput)) {
        idx != 0 && idx != last
    } else if rules_have_remove(rules, t, &RemoveMode::Ends(Scope::FullInput)) {
        idx == 0 || idx == last
    } else {
        false
    }
}

fn dispatch_exec(
    rules: &Vec<ResolverProcessingRule>,
    t: &RuleTarget,
    pred: bool,
    idx: usize,
    last: usize,
    f: StepFlags,
) -> (r: StepFlags)
    ensures
        r == dispatch(rules@, *t, pred, idx as int, last as int, f),
{
    if pred && !f.delete {
        let del = mode_del_exec(rules, t, idx, last);
        let bs = rules_have_bound_start(rules, t);
        let be = rules_have_bound_end(rules, t);
        StepFlags {
            delete: f.delete || del,
            commit: f.commit || bs || be,
            bound_start: f.bound_start || bs,
            bound_end: f.bound_end || be,
        }
    } else {
        f
    }
}

/// Classifies one character: (numeric, uppercase, lowercase).
fn classify(c: char) -> (r: (bool, bool, bool))
    ensures
        r.0 == is_numeric_char(c),
        r.1 == is_uppercase_char(c),
        r.2 == is_lowercase_char(c),
        char_fact(c),
{
    (char_is_numeric(c), char_is_uppercase(c), char_is_lowercase(c))
}

/// Computes the flags for position `idx` exactly as `charwalk_flags` states
/// them, and records the ASCII classification of the character there.
fn flags_for(
    rules: &Vec<ResolverProcessingRule>,
    punct: &Vec<char>,
    npsc: &Vec<char>,
    chars: &Vec<char>,
    idx: usize,
) -> (f: StepFlags)
    requires
        idx < chars@.len(),
    ensures
        f == charwalk_flags(rules@, punct@, npsc@, chars@, idx as int),
        char_fact(chars@[idx as int]),
        idx > 0 ==> char_fact(chars@[idx - 1]),
        idx + 1 < chars@.len() ==> char_fact(chars@[idx + 1]),
{
    let c = chars[idx];
    let last = chars.len() - 1;
    let cl = classify(c);
    let c_num = cl.0;
    let c_up = cl.1;
    let pc = if idx > 0 {
        classify(chars[idx - 1])
    } else {
        (false, false, false)
    };
    let nc = if idx < last {
        classify(chars[idx + 1])
    } else {
        (false, false, false)
    };
    let ghost prev = if idx > 0 {
        Some(chars@[idx - 1])
    } else {
        None::<char>
    };
    let ghost next = if (idx as int) < chars@.len() - 1 {
        Some(chars@[idx + 1])
    } else {
        None::<char>
    };

    let mut f = StepFlags { delete: false, commit: false, bound_start: false, bound_end: false };
    let pred_punct = vec_contains_char(punct, c);
    f = dispatch_exec(rules, &RuleTarget::PunctSpecialChar, pred_punct, idx, last, f);
    let ghost f1 = f;

    if c_num && !f.delete {
        f = dispatch_exec(rules, &RuleTarget::Numerics, true, idx, last, f);
        let prev_some = idx > 0;
        let prev_num = pc.0;
        let next_some = idx < last;
        let next_num = nc.0;
        if prev_some && prev_num && next_some && next_num {
            f.commit = false;
            f.bound_start = false;
            f.bound_end = false;
        } else if !(prev_some && prev_num) && (next_some && next_num || !next_some) {
            f.bound_end = false;
            if rules_have_bound_start(rules, &RuleTarget::Numerics) {
                f.bound_start = true;
            }
        } else if prev_some && prev_num && (next_some && !next_num || !next_some) {
            f.bound_start = false;
            if rules_have_bound_end(rules, &RuleTarget::Numerics) {
                f.bound_end = true;
                f.commit = false;
            }
        }
        proof {
            assert(f == dispatch_numerics(
                rules@,
                c,
                prev,
                next,
                idx as int,
                last as int,
                f1,
            ));
        }
    }
    proof {
        assert(f == dispatch_numerics(rules@, c, prev, next, idx as int, last as int, f1));
    }
    let ghost f2 = f;

    let mut j: usize = 0;
    while j < rules.len()
        invariant
            0 <= j <= rules@.len(),
            idx < chars@.len(),
            last == chars@.len() - 1,
            c == chars@[idx as int],
            f == dispatch_char_rules_upto(rules@, c, idx as int, last as int, f2, j as int),
        decreases rules@.len() - j,
    {
        match rules[j].target() {
            Some(RuleTarget::Char(cc)) => {
                f = dispatch_exec(rules, &RuleTarget::Char(*cc), c == *cc, idx, last, f);
            },
            _ => {},
        }
        j += 1;
    }
    proof {
        assert(f == dispatch_char_rules_upto(
            rules@,
            c,
            idx as int,
            last as int,
            f2,
            rules@.len() as int,
        ));
    }

    let pred_npsc = vec_contains_char(npsc, c);
    f = dispatch_exec(rules, &RuleTarget::NonPunctSpecialChar, pred_npsc, idx, last, f);

    let pred_cc = if idx > 0 {
        (pc.1 && (idx < last && nc.2) && c_up) || (pc.2 && c_up)
    } else {
        false
    };
    proof {
        assert(pred_cc == case_change_pred(prev, c, next));
    }
    f = dispatch_exec(rules, &RuleTarget::CaseChangeNonAcronym, pred_cc, idx, last, f);
    f
}

/// The primary engine: resolves word bounds by walking the characters once.
pub struct Charwalk<R: ResolverRules = crate::rules::DefaultRules> {
    _phantom_data: PhantomData<R>,
}

impl<R: ResolverRules> WordBoundResolverImpl<R> for Charwalk<R> {
    open spec fn spec_resolver(input: Seq<char>) -> Seq<Seq<char>> {
        charwalk_words(
            R::spec_resolution_pass_rules(),
            R::spec_punct_chars_non_regex(),
            spec_npsc_non_regex(
                R::spec_punct_chars_non_regex(),
                R::spec_resolution_pass_rules(),
            ),
            input,
        )
    }

    open spec fn spec_compiled_pattern() -> Option<Seq<char>> {
        None
    }

    fn resolver(s: &str) -> (words: Vec<String>)
        ensures
            forall|i: int|
                0 <= i < words@.len() ==> lower_of((#[trigger] words@[i])@) == words@[i]@,
            (R::spec_resolution_pass_rules() == default_resolution_rules()
                && R::spec_punct_chars_non_regex() == DefaultRules::spec_punct_chars_non_regex()
                && digit_run_hyp(s@)) ==> forall|i: int, j: int|
                #[trigger] is_digit_run(s@, i, j) ==> run_in_one_word(
                    word_views(words@),
                    s@.subrange(i, j),
                ),
    {
        let ghost hyp = R::spec_resolution_pass_rules() == default_resolution_rules()
            && R::spec_punct_chars_non_regex() == DefaultRules::spec_punct_chars_non_regex()
            && digit_run_hyp(s@);
        let rules = R::resolution_pass_rules();
        let punct_s = R::punct_chars_non_regex();
        let punct = str_to_chars(punct_s.as_str());
        let npsc_s = R::non_punct_special_chars_non_regex();
        let npsc = str_to_chars(npsc_s.as_str());
        let chars = str_to_chars(s);
        let n = chars.len();
        let mut words: Vec<String> = Vec::new();
        let mut curr: Vec<char> = Vec::new();
        let mut idx: usize = 0;
        while idx < n
            invariant
                rules@ == R::spec_resolution_pass_rules(),
                punct@ == R::spec_punct_chars_non_regex(),
                npsc@ == spec_npsc_non_regex(
                    R::spec_punct_chars_non_regex(),
                    R::spec_resolution_pass_rules(),
                ),
                chars@ == s@,
                n == chars@.len(),
                0 <= idx <= n,
                curr@ == charwalk_walk(rules@, punct@, npsc@, chars@, idx as int).curr,
                word_views(words@) == charwalk_walk(rules@, punct@, npsc@, chars@, idx as int).words,
                forall|i: int| 0 <= i < words@.len() ==> (#[trigger] words@[i])@.len() > 0,
                forall|i: int, j: int|
                    0 <= i < words@.len() && 0 <= j < words@[i]@.len() ==> !ascii_upper(
                        #[trigger] words@[i]@[j],
                    ),
                forall|i: int|
                    0 <= i < words@.len() ==> lower_of((#[trigger] words@[i])@) == words@[i]@,
                hyp == (R::spec_resolution_pass_rules() == default_resolution_rules()
                    && R::spec_punct_chars_non_regex()
                    == DefaultRules::spec_punct_chars_non_regex() && digit_run_hyp(s@)),
                hyp ==> runs_tracked(chars@, idx as int, word_views(words@), curr@),
                hyp && idx < n && ascii_digit(chars@[idx as int]) ==> run_suffix_tracked(
                    chars@,
                    idx as int,
                    curr@,
                ),
                hyp ==> seq_is_ascii(curr@),
            decreases n - idx,
        {
            let ghost st0 = charwalk_walk(rules@, punct@, npsc@, chars@, idx as int);
            let c = chars[idx];
            let f = flags_for(&rules, &punct, &npsc, &chars, idx);
            let ghost at_last = idx + 1 == n;

            if !f.delete && (!f.commit || f.bound_end) && !f.bound_start {
                curr.push(c);
            }
            let ghost curr1 = curr@;
            if f.commit && curr.len() > 0 {
                let w = chars_to_string(&curr);
                let lw = lowercase(w.as_str());
                proof {
                    assert(word_views(words@.push(lw)) =~= word_views(words@).push(lw@));
                }
                words.push(lw);
                curr.clear();
            }
            if !f.delete && f.commit && f.bound_start {
                curr.push(c);
            }
            let ghost curr3 = curr@;
            if idx == n - 1 || (!f.delete && f.bound_start && f.bound_end) {
                if !f.delete {
                    let needs_push = if curr.len() == 0 {
                        true
                    } else {
                        curr[curr.len() - 1] != c
                    };
                    if needs_push {
                        curr.push(c);
                    }
                }
                let ghost curr4 = curr@;
                if curr.len() > 0 {
                    let w = chars_to_string(&curr);
                    let lw = lowercase(w.as_str());
                    proof {
                        assert(word_views(words@.push(lw)) =~= word_views(words@).push(lw@));
                    }
                    words.push(lw);
                    curr.clear();
                }
            }
            proof {
                let st1 = charwalk_step(st0, c, f, at_last);
                assert(charwalk_walk(rules@, punct@, npsc@, chars@, idx + 1) == st1);
                assert(curr@ =~= st1.curr);
                assert(word_views(words@) =~= st1.words);
                if hyp {
                    let inp = chars@;
                    let i_ = idx as int;
                    assert(digit_run_hyp(s@));
                    assert(seq_is_ascii(chars@));
                    assert(char_is_ascii(chars@[i_]));
                    assert(char_is_ascii(c));
                    assert(seq_is_ascii(st0.curr));
                    assert(seq_is_ascii(curr1)) by {
                        assert forall|k: int| 0 <= k < curr1.len() implies char_is_ascii(
                            #[trigger] curr1[k],
                        ) by {
                            if k < st0.curr.len() {
                                assert(char_is_ascii(st0.curr[k]));
                                assert(curr1[k] == st0.curr[k]);
                            } else {
                                assert(curr1[k] == c);
                            }
                        }
                    }
                    let curr2g = if f.commit && curr1.len() > 0 {
                        Seq::<char>::empty()
                    } else {
                        curr1
                    };
                    let curr3g = if !f.delete && f.commit && f.bound_start {
                        curr2g.push(c)
                    } else {
                        curr2g
                    };
                    let curr4g = if !f.delete && !(curr3g.len() > 0 && curr3g.last() == c) {
                        curr3g.push(c)
                    } else {
                        curr3g
                    };
                    assert(curr3 == curr3g);
                    assert(seq_is_ascii(curr2g)) by {
                        assert forall|k: int| 0 <= k < curr2g.len() implies char_is_ascii(
                            #[trigger] curr2g[k],
                        ) by {
                            assert(curr2g[k] == curr1[k]);
                            assert(char_is_ascii(curr1[k]));
                        }
                    }
                    assert(seq_is_ascii(curr3g)) by {
                        assert forall|k: int| 0 <= k < curr3g.len() implies char_is_ascii(
                            #[trigger] curr3g[k],
                        ) by {
                            if k < curr2g.len() {
                                assert(char_is_ascii(curr2g[k]));
                                assert(curr3g[k] == curr2g[k]);
                            } else {
                                assert(curr3g[k] == c);
                            }
                        }
                    }
                    assert(seq_is_ascii(curr4g)) by {
                        assert forall|k: int| 0 <= k < curr4g.len() implies char_is_ascii(
                            #[trigger] curr4g[k],
                        ) by {
                            if k < curr3g.len() {
                                assert(char_is_ascii(curr3g[k]));
                                assert(curr4g[k] == curr3g[k]);
                            } else {
                                assert(curr4g[k] == c);
                            }
                        }
                    }
                    assert(f.commit && curr1.len() > 0 ==> lower_of(curr1) == ascii_lower_seq(
                        curr1,
                    ));
                    assert((at_last || (!f.delete && f.bound_start && f.bound_end))
                        && curr4g.len() > 0 ==> lower_of(curr4g) == ascii_lower_seq(curr4g));
                    assert forall|i2: int, j2: int|
                        #[trigger] is_digit_run(inp, i2, j2) && j2 <= i_ + 1 implies
                        run_in_one_word(st1.words, inp.subrange(i2, j2)) || seq_has_substring(
                        st1.curr,
                        inp.subrange(i2, j2),
                    ) by {
                        let run = inp.subrange(i2, j2);
                        assert(run.len() == j2 - i2);
                        assert forall|k: int| 0 <= k < run.len() implies ascii_digit(
                            #[trigger] run[k],
                        ) by {
                            assert(run[k] == inp[i2 + k]);
                        }
                        if j2 <= i_ {
                            assert(run_in_one_word(st0.words, run) || seq_has_substring(
                                st0.curr,
                                run,
                            ));
                            lemma_step_preserves_run(st0, c, f, at_last, run);
                        } else {
                            assert(j2 == i_ + 1);
                            assert(ascii_digit(inp[i_]));
                            lemma_default_digit_flags(punct@, npsc@, inp, i_);
                            let next_digit = i_ + 1 < inp.len() && ascii_digit(inp[i_ + 1]);
                            assert(!next_digit);
                            if i2 == i_ {
                                assert(i_ == 0 || !ascii_digit(inp[i_ - 1]));
                                if i_ == 0 {
                                    assert(st0.curr =~= Seq::<char>::empty());
                                }
                                assert(f.commit && f.bound_start && !f.delete);
                                assert(curr1 == st0.curr);
                                assert(curr2g =~= Seq::<char>::empty());
                                assert(curr3g =~= seq![c]);
                                assert(at_last || (f.bound_start && f.bound_end));
                                assert(curr4g =~= seq![c]);
                                assert(lower_of(curr4g) == ascii_lower_seq(curr4g));
                                assert(ascii_lower_seq(curr4g) =~= seq![c]) by {
                                    assert(!ascii_upper(c));
                                    assert(ascii_lower_seq(curr4g)[0] == ascii_lower_char(c));
                                }
                                assert(run =~= seq![c]);
                                assert(st1.words.len() > 0 && st1.words[st1.words.len() - 1]
                                    == lower_of(curr4g));
                                assert(seq_has_substring_at(
                                    st1.words[st1.words.len() - 1],
                                    run,
                                    0,
                                )) by {
                                    assert(seq![c].subrange(0, 1) =~= seq![c]);
                                }
                                assert(run_in_one_word(st1.words, run));
                            } else {
                                assert(ascii_digit(inp[i_ - 1])) by {
                                    assert(inp[i2 + (i_ - 1 - i2)] == inp[i_ - 1]);
                                }
                                assert(run_started_at(inp, i2, i_));
                                let m = i_ - i2;
                                assert(st0.curr.len() >= m && st0.curr.subrange(
                                    st0.curr.len() - m,
                                    st0.curr.len() as int,
                                ) == inp.subrange(i2, i_));
                                assert(curr1 == st0.curr.push(c));
                                let off = curr1.len() - run.len();
                                assert(seq_has_substring_at(curr1, run, off)) by {
                                    assert forall|k: int| 0 <= k < run.len() implies curr1.subrange(
                                        off,
                                        off + run.len() as int,
                                    )[k] == run[k] by {
                                        if k < m {
                                            assert(st0.curr.subrange(
                                                st0.curr.len() - m,
                                                st0.curr.len() as int,
                                            )[k] == inp.subrange(i2, i_)[k]);
                                            assert(curr1[off + k] == st0.curr[off + k]);
                                        } else {
                                            assert(curr1[off + k] == c);
                                        }
                                    }
                                    assert(curr1.subrange(off, off + run.len() as int) =~= run);
                                }
                                assert(!f.commit && !f.bound_start && !f.delete);
                                assert(curr3g == curr1);
                                if at_last {
                                    assert(curr4g == curr1);
                                    assert(curr1.len() > 0);
                                    assert(lower_of(curr1) == ascii_lower_seq(curr1));
                                    assert(seq_has_substring(curr1, run));
                                    lemma_substring_ascii_lower(curr1, run);
                                    assert(st1.words.len() > 0 && st1.words[st1.words.len() - 1]
                                        == lower_of(curr1));
                                    assert(run_in_one_word(st1.words, run));
                                } else {
                                    assert(st1.curr == curr1);
                                    assert(seq_has_substring(st1.curr, run));
                                }
                            }
                        }
                    }
                    assert(runs_tracked(inp, i_ + 1, st1.words, st1.curr));
                    if i_ + 1 < n && ascii_digit(inp[i_ + 1]) {
                        assert forall|a: int| #[trigger] run_started_at(inp, a, i_ + 1) implies
                            st1.curr.len() >= i_ + 1 - a && st1.curr.subrange(
                            st1.curr.len() - (i_ + 1 - a),
                            st1.curr.len() as int,
                        ) == inp.subrange(a, i_ + 1) by {
                            assert(ascii_digit(inp[i_])) by {
                                assert(inp[a + (i_ - a)] == inp[i_]);
                            }
                            lemma_default_digit_flags(punct@, npsc@, inp, i_);
                            let prev_digit = i_ > 0 && ascii_digit(inp[i_ - 1]);
                            if prev_digit {
                                if a < i_ {
                                    assert(run_started_at(inp, a, i_));
                                    let m = i_ - a;
                                    assert(st0.curr.len() >= m && st0.curr.subrange(
                                        st0.curr.len() - m,
                                        st0.curr.len() as int,
                                    ) == inp.subrange(a, i_));
                                    assert(!f.delete && !f.commit && !f.bound_start);
                                    assert(st1.curr == st0.curr.push(c));
                                    assert(st1.curr.subrange(
                                        st1.curr.len() - (m + 1),
                                        st1.curr.len() as int,
                                    ) =~= inp.subrange(a, i_ + 1)) by {
                                        assert forall|k: int| 0 <= k < m + 1 implies #[trigger] st1.curr.subrange(
                                            st1.curr.len() - (m + 1),
                                            st1.curr.len() as int,
                                        )[k] == inp.subrange(a, i_ + 1)[k] by {
                                            if k < m {
                                                assert(st0.curr.subrange(
                                                    st0.curr.len() - m,
                                                    st0.curr.len() as int,
                                                )[k] == inp.subrange(a, i_)[k]);
                                                assert(st1.curr[st1.curr.len() - (m + 1) + k]
                                                    == st0.curr[st0.curr.len() - m + k]);
                                            } else {
                                                assert(st1.curr[st1.curr.len() - 1] == c);
                                            }
                                        }
                                    }
                                } else {
                                    assert(a == i_);
                                    assert(!ascii_digit(inp[i_ - 1]));
                                    assert(false);
                                }
                            } else {
                                assert(a == i_) by {
                                    if a < i_ {
                                        assert(inp[a + (i_ - 1 - a)] == inp[i_ - 1]);
                                    }
                                }
                                assert(f.commit && f.bound_start && !f.bound_end && !f.delete);
                                assert(curr1 == st0.curr);
                                assert(curr3g =~= seq![c]);
                                assert(!at_last);
                                assert(st1.curr == curr3g);
                                assert(st1.curr.subrange(0, 1) =~= inp.subrange(i_, i_ + 1));
                            }
                        }
                        assert(run_suffix_tracked(inp, i_ + 1, st1.curr));
                    }
                    assert(seq_is_ascii(st1.curr)) by {
                        assert forall|k: int| 0 <= k < st1.curr.len() implies char_is_ascii(
                            #[trigger] st1.curr[k],
                        ) by {
                            assert(st1.curr[k] == curr3g[k]);
                            assert(char_is_ascii(curr3g[k]));
                        }
                    }
                }
            }
            idx += 1;
        }
        proof {
            if hyp {
                assert forall|i2: int, j2: int| #[trigger] is_digit_run(s@, i2, j2) implies
                    run_in_one_word(word_views(words@), s@.subrange(i2, j2)) by {
                    assert(j2 <= n);
                    if n > 0 {
                        assert(curr@ =~= Seq::<char>::empty());
                    }
                    if seq_has_substring(curr@, s@.subrange(i2, j2)) {
                        let off = choose|off: int|
                            seq_has_substring_at(curr@, s@.subrange(i2, j2), off);
                        assert(s@.subrange(i2, j2).len() > 0);
                    }
                }
            }
        }
        words
    }

    fn compile_rules() -> (r: CompiledRules) {
        CompiledRules::NotApplicable
    }
}


// ---------------------------------------------------------------------------
// Digit-run atomicity: under the default rule set, a maximal run of digits
// is never split across two output words.
// ---------------------------------------------------------------------------

/// A maximal run of ASCII digits spanning positions `i` to `j` of `input`.
pub open spec fn is_digit_run(input: Seq<char>, i: int, j: int) -> bool {
    &&& 0 <= i < j <= input.len()
    &&& (forall|k: int| i <= k < j ==> ascii_digit(#[trigger] input[k]))
    &&& (i == 0 || !ascii_digit(input[i - 1]))
    &&& (j == input.len() || !ascii_digit(input[j]))
}

pub open spec fn seq_has_substring_at(w: Seq<char>, run: Seq<char>, off: int) -> bool {
    0 <= off && off + run.len() <= w.len() && w.subrange(off, off + run.len() as int) == run
}

pub open spec fn seq_has_substring(w: Seq<char>, run: Seq<char>) -> bool {
    exists|off: int| seq_has_substring_at(w, run, off)
}

/// The run appears whole inside one of the words.
pub open spec fn run_in_one_word(words: Seq<Seq<char>>, run: Seq<char>) -> bool {
    exists|w: int| 0 <= w < words.len() && seq_has_substring(#[trigger] words[w], run)
}

/// The inputs for which digit-run atomicity is stated: ASCII input, where
/// the classification tables are pinned exactly.
pub open spec fn digit_run_hyp(input: Seq<char>) -> bool {
    seq_is_ascii(input)
}

/// A digit run reaches from `a` up to (at least) position `idx`.
pub open spec fn run_started_at(input: Seq<char>, a: int, idx: int) -> bool {
    &&& 0 <= a < idx
    &&& (forall|k: int| a <= k < idx ==> ascii_digit(#[trigger] input[k]))
    &&& (a == 0 || !ascii_digit(input[a - 1]))
}

/// Every finished digit run lies whole in one produced word or inside the
/// word being formed.
pub open spec fn runs_tracked(
    input: Seq<char>,
    upto: int,
    words: Seq<Seq<char>>,
    curr: Seq<char>,
) -> bool {
    forall|i: int, j: int|
        #[trigger] is_digit_run(input, i, j) && j <= upto ==> run_in_one_word(
            words,
            input.subrange(i, j),
        ) || seq_has_substring(curr, input.subrange(i, j))
}

/// The processed part of the digit run continuing at `idx` sits at the end
/// of the word being formed.
pub open spec fn run_suffix_tracked(input: Seq<char>, idx: int, curr: Seq<char>) -> bool {
    forall|a: int|
        #[trigger] run_started_at(input, a, idx) ==> curr.len() >= idx - a && curr.subrange(
            curr.len() - (idx - a),
            curr.len() as int,
        ) == input.subrange(a, idx)
}

proof fn lemma_filter_member<A>(s: Seq<A>, pred: spec_fn(A) -> bool, x: A)
    requires
        s.filter(pred).contains(x),
    ensures
        s.contains(x),
    decreases s.len(),
{
    reveal(Seq::filter);
    if s.len() > 0 {
        let out = s.filter(pred);
        let sub = s.drop_last().filter(pred);
        let i = choose|i: int| 0 <= i < out.len() && out[i] == x;
        if pred(s.last()) && i == out.len() - 1 {
            assert(s[s.len() - 1] == x);
        } else {
            assert(sub.contains(x)) by {
                assert(sub[i] == x);
            }
            lemma_filter_member(s.drop_last(), pred, x);
            let j = choose|j: int| 0 <= j < s.drop_last().len() && s.drop_last()[j] == x;
            assert(s[j] == x);
        }
    }
}

proof fn lemma_default_punct_no_digits()
    ensures
        forall|c: char|
            DefaultRules::spec_punct_chars_non_regex().contains(c) ==> !ascii_digit(c),
{
    reveal_strlit("-_.,:;?! ");
    let p = DefaultRules::spec_punct_chars_non_regex();
    assert forall|c: char| p.contains(c) implies !ascii_digit(c) by {
        let i = choose|i: int| 0 <= i < p.len() && p[i] == c;
            if i == 0 {
                assert(!ascii_digit(p[0]));
            } else if i == 1 {
                assert(!ascii_digit(p[1]));
            } else if i == 2 {
                assert(!ascii_digit(p[2]));
            } else if i == 3 {
                assert(!ascii_digit(p[3]));
            } else if i == 4 {
                assert(!ascii_digit(p[4]));
            } else if i == 5 {
                assert(!ascii_digit(p[5]));
            } else if i == 6 {
                assert(!ascii_digit(p[6]));
            } else if i == 7 {
                assert(!ascii_digit(p[7]));
            } else if i == 8 {
                assert(!ascii_digit(p[8]));
            } else {
                assert(!ascii_digit(p[8]));
            }
    }
}

proof fn lemma_npsc_no_digits(punct: Seq<char>, rules: Seq<ResolverProcessingRule>)
    ensures
        forall|c: char| spec_npsc_non_regex(punct, rules).contains(c) ==> !ascii_digit(c),
{
    reveal_strlit("!\"#$%&'()*+,-.:;<=>?[\\]^_{|}~");
    let cand = crate::rules::spec_special_candidates();
    let npsc = spec_npsc_non_regex(punct, rules);
    assert forall|c: char| npsc.contains(c) implies !ascii_digit(c) by {
        let pred = |c2: char|
            !(punct.contains(c2) || crate::rules::char_rule_chars(rules).contains(c2));
        lemma_filter_member(cand, pred, c);
        let i = choose|i: int| 0 <= i < cand.len() && cand[i] == c;
            if i == 0 {
                assert(!ascii_digit(cand[0]));
            } else if i == 1 {
                assert(!ascii_digit(cand[1]));
            } else if i == 2 {
                assert(!ascii_digit(cand[2]));
            } else if i == 3 {
                assert(!ascii_digit(cand[3]));
            } else if i == 4 {
                assert(!ascii_digit(cand[4]));
            } else if i == 5 {
                assert(!ascii_digit(cand[5]));
            } else if i == 6 {
                assert(!ascii_digit(cand[6]));
            } else if i == 7 {
                assert(!ascii_digit(cand[7]));
            } else if i == 8 {
                assert(!ascii_digit(cand[8]));
            } else if i == 9 {
                assert(!ascii_digit(cand[9]));
            } else if i == 10 {
                assert(!ascii_digit(cand[10]));
            } else if i == 11 {
                assert(!ascii_digit(cand[11]));
            } else if i == 12 {
                assert(!ascii_digit(cand[12]));
            } else if i == 13 {
                assert(!ascii_digit(cand[13]));
            } else if i == 14 {
                assert(!ascii_digit(cand[14]));
            } else if i == 15 {
                assert(!ascii_digit(cand[15]));
            } else if i == 16 {
                assert(!ascii_digit(cand[16]));
            } else if i == 17 {
                assert(!ascii_digit(cand[17]));
            } else if i == 18 {
                assert(!ascii_digit(cand[18]));
            } else if i == 19 {
                assert(!ascii_digit(cand[19]));
            } else if i == 20 {
                assert(!ascii_digit(cand[20]));
            } else if i == 21 {
                assert(!ascii_digit(cand[21]));
            } else if i == 22 {
                assert(!ascii_digit(cand[22]));
            } else if i == 23 {
                assert(!ascii_digit(cand[23]));
            } else if i == 24 {
                assert(!ascii_digit(cand[24]));
            } else if i == 25 {
                assert(!ascii_digit(cand[25]));
            } else if i == 26 {
                assert(!ascii_digit(cand[26]));
            } else if i == 27 {
                assert(!ascii_digit(cand[27]));
            } else if i == 28 {
                assert(!ascii_digit(cand[28]));
            } else {
                assert(!ascii_digit(cand[28]));
            }
    }
}

proof fn lemma_default_numerics_rules()
    ensures
        has_bound_start(default_resolution_rules(), RuleTarget::Numerics),
        has_bound_end(default_resolution_rules(), RuleTarget::Numerics),
        !has_remove(default_resolution_rules(), RuleTarget::Numerics, RemoveMode::All),
        !has_remove(
            default_resolution_rules(),
            RuleTarget::Numerics,
            RemoveMode::Middle(Scope::FullInput),
        ),
        !has_remove(
            default_resolution_rules(),
            RuleTarget::Numerics,
            RemoveMode::Ends(Scope::FullInput),
        ),
{
    let rules = default_resolution_rules();
    assert(rule_is_bound_start_of(rules[6], RuleTarget::Numerics));
    assert(rule_is_bound_end_of(rules[7], RuleTarget::Numerics));
    assert forall|i: int| 0 <= i < rules.len() implies !rule_is_remove_of(
        #[trigger] rules[i],
        RuleTarget::Numerics,
        RemoveMode::All,
    ) && !rule_is_remove_of(rules[i], RuleTarget::Numerics, RemoveMode::Middle(Scope::FullInput))
        && !rule_is_remove_of(
        rules[i],
        RuleTarget::Numerics,
        RemoveMode::Ends(Scope::FullInput),
    ) by {
            if i == 0 {
                assert(!rule_is_remove_of(rules[0], RuleTarget::Numerics, RemoveMode::All));
                assert(!rule_is_remove_of(rules[0], RuleTarget::Numerics, RemoveMode::Middle(Scope::FullInput)));
                assert(!rule_is_remove_of(rules[0], RuleTarget::Numerics, RemoveMode::Ends(Scope::FullInput)));
            } else if i == 1 {
                assert(!rule_is_remove_of(rules[1], RuleTarget::Numerics, RemoveMode::All));
                assert(!rule_is_remove_of(rules[1], RuleTarget::Numerics, RemoveMode::Middle(Scope::FullInput)));
                assert(!rule_is_remove_of(rules[1], RuleTarget::Numerics, RemoveMode::Ends(Scope::FullInput)));
            } else if i == 2 {
                assert(!rule_is_remove_of(rules[2], RuleTarget::Numerics, RemoveMode::All));
                assert(!rule_is_remove_of(rules[2], RuleTarget::Numerics, RemoveMode::Middle(Scope::FullInput)));
                assert(!rule_is_remove_of(rules[2], RuleTarget::Numerics, RemoveMode::Ends(Scope::FullInput)));
            } else if i == 3 {
                assert(!rule_is_remove_of(rules[3], RuleTarget::Numerics, RemoveMode::All));
                assert(!rule_is_remove_of(rules[3], RuleTarget::Numerics, RemoveMode::Middle(Scope::FullInput)));
                assert(!rule_is_remove_of(rules[3], RuleTarget::Numerics, RemoveMode::Ends(Scope::FullInput)));
            } else if i == 4 {
                assert(!rule_is_remove_of(rules[4], RuleTarget::Numerics, RemoveMode::All));
                assert(!rule_is_remove_of(rules[4], RuleTarget::Numerics, RemoveMode::Middle(Scope::FullInput)));
                assert(!rule_is_remove_of(rules[4], RuleTarget::Numerics, RemoveMode::Ends(Scope::FullInput)));
            } else if i == 5 {
                assert(!rule_is_remove_of(rules[5], RuleTarget::Numerics, RemoveMode::All));
                assert(!rule_is_remove_of(rules[5], RuleTarget::Numerics, RemoveMode::Middle(Scope::FullInput)));
                assert(!rule_is_remove_of(rules[5], RuleTarget::Numerics, RemoveMode::Ends(Scope::FullInput)));
            } else if i == 6 {
                assert(!rule_is_remove_of(rules[6], RuleTarget::Numerics, RemoveMode::All));
                assert(!rule_is_remove_of(rules[6], RuleTarget::Numerics, RemoveMode::Middle(Scope::FullInput)));
                assert(!rule_is_remove_of(rules[6], RuleTarget::Numerics, RemoveMode::Ends(Scope::FullInput)));
            } else if i == 7 {
                assert(!rule_is_remove_of(rules[7], RuleTarget::Numerics, RemoveMode::All));
                assert(!rule_is_remove_of(rules[7], RuleTarget::Numerics, RemoveMode::Middle(Scope::FullInput)));
                assert(!rule_is_remove_of(rules[7], RuleTarget::Numerics, RemoveMode::Ends(Scope::FullInput)));
            } else if i == 8 {
                assert(!rule_is_remove_of(rules[8], RuleTarget::Numerics, RemoveMode::All));
                assert(!rule_is_remove_of(rules[8], RuleTarget::Numerics, RemoveMode::Middle(Scope::FullInput)));
                assert(!rule_is_remove_of(rules[8], RuleTarget::Numerics, RemoveMode::Ends(Scope::FullInput)));
            } else if i == 9 {
                assert(!rule_is_remove_of(rules[9], RuleTarget::Numerics, RemoveMode::All));
                assert(!rule_is_remove_of(rules[9], RuleTarget::Numerics, RemoveMode::Middle(Scope::FullInput)));
                assert(!rule_is_remove_of(rules[9], RuleTarget::Numerics, RemoveMode::Ends(Scope::FullInput)));
            } else if i == 10 {
                assert(!rule_is_remove_of(rules[10], RuleTarget::Numerics, RemoveMode::All));
                assert(!rule_is_remove_of(rules[10], RuleTarget::Numerics, RemoveMode::Middle(Scope::FullInput)));
                assert(!rule_is_remove_of(rules[10], RuleTarget::Numerics, RemoveMode::Ends(Scope::FullInput)));
            } else if i == 11 {
                assert(!rule_is_remove_of(rules[11], RuleTarget::Numerics, RemoveMode::All));
                assert(!rule_is_remove_of(rules[11], RuleTarget::Numerics, RemoveMode::Middle(Scope::FullInput)));
                assert(!rule_is_remove_of(rules[11], RuleTarget::Numerics, RemoveMode::Ends(Scope::FullInput)));
            } else {
                assert(!rule_is_remove_of(rules[11], RuleTarget::Numerics, RemoveMode::All));
                assert(!rule_is_remove_of(rules[11], RuleTarget::Numerics, RemoveMode::Middle(Scope::FullInput)));
                assert(!rule_is_remove_of(rules[11], RuleTarget::Numerics, RemoveMode::Ends(Scope::FullInput)));
            }
    }
}

proof fn lemma_default_char_rules_identity(c: char, idx: int, last: int, f: StepFlags)
    requires
        c != ' ',
        c != '#',
        c != '%',
    ensures
        dispatch_char_rules_upto(
            default_resolution_rules(),
            c,
            idx,
            last,
            f,
            default_resolution_rules().len() as int,
        ) == f,
{
    let rules = default_resolution_rules();
    reveal_with_fuel(dispatch_char_rules_upto, 13);
    assert(dispatch_char_rules_upto(rules, c, idx, last, f, 12) == f);
}

/// Under the default rule set, what the flags are at an ASCII digit, by the
/// digit's place in its run.
proof fn lemma_default_digit_flags(punct: Seq<char>, npsc: Seq<char>, input: Seq<char>, i: int)
    requires
        0 <= i < input.len(),
        punct == DefaultRules::spec_punct_chars_non_regex(),
        npsc == spec_npsc_non_regex(punct, default_resolution_rules()),
        seq_is_ascii(input),
        ascii_digit(input[i]),
        char_fact(input[i]),
        i > 0 ==> char_fact(input[i - 1]),
        i + 1 < input.len() ==> char_fact(input[i + 1]),
    ensures
        ({
            let f = charwalk_flags(default_resolution_rules(), punct, npsc, input, i);
            let prev_digit = i > 0 && ascii_digit(input[i - 1]);
            let next_digit = i + 1 < input.len() && ascii_digit(input[i + 1]);
            &&& (prev_digit && next_digit ==> f == (StepFlags {
                delete: false,
                commit: false,
                bound_start: false,
                bound_end: false,
            }))
            &&& (prev_digit && !next_digit ==> f == (StepFlags {
                delete: false,
                commit: false,
                bound_start: false,
                bound_end: true,
            }))
            &&& (!prev_digit && (next_digit || i + 1 == input.len()) ==> f == (StepFlags {
                delete: false,
                commit: true,
                bound_start: true,
                bound_end: false,
            }))
            &&& (!prev_digit && !next_digit && i + 1 < input.len() ==> f == (StepFlags {
                delete: false,
                commit: true,
                bound_start: true,
                bound_end: true,
            }))
        }),
{
    let rules = default_resolution_rules();
    let c = input[i];
    let last = input.len() - 1;
    let prev = if i > 0 {
        Some(input[i - 1])
    } else {
        None::<char>
    };
    let next = if i < last {
        Some(input[i + 1])
    } else {
        None::<char>
    };
    assert(char_is_ascii(c));
    assert(is_numeric_char(c));
    assert(!is_uppercase_char(c));
    lemma_default_punct_no_digits();
    assert(!punct.contains(c));
    let f0 = StepFlags { delete: false, commit: false, bound_start: false, bound_end: false };
    let f1 = dispatch(rules, RuleTarget::PunctSpecialChar, punct.contains(c), i, last, f0);
    assert(f1 == f0);
    lemma_default_numerics_rules();
    assert(!mode_del(rules, RuleTarget::Numerics, i, last));
    let fb = dispatch_body(rules, RuleTarget::Numerics, i, last, f1);
    assert(fb == StepFlags { delete: false, commit: true, bound_start: true, bound_end: true });
    let f2 = dispatch_numerics(rules, c, prev, next, i, last, f1);
    assert(f2 == numerics_extra(rules, prev, next, fb));
    assert(i > 0 ==> opt_is_numeric(prev) == ascii_digit(input[i - 1]));
    assert(i < last ==> opt_is_numeric(next) == ascii_digit(input[i + 1]));
    assert(c != ' ' && c != '#' && c != '%');
    lemma_default_char_rules_identity(c, i, last, f2);
    let f3 = dispatch_char_rules_upto(rules, c, i, last, f2, rules.len() as int);
    assert(f3 == f2);
    lemma_npsc_no_digits(punct, rules);
    assert(!npsc.contains(c));
    let f4 = dispatch(rules, RuleTarget::NonPunctSpecialChar, npsc.contains(c), i, last, f3);
    assert(f4 == f3);
    assert(!case_change_pred(prev, c, next));
    let f5 = dispatch(
        rules,
        RuleTarget::CaseChangeNonAcronym,
        case_change_pred(prev, c, next),
        i,
        last,
        f4,
    );
    assert(f5 == f4);
    assert(charwalk_flags(rules, punct, npsc, input, i) == f5);
}

proof fn lemma_substring_push(w: Seq<char>, run: Seq<char>, c: char)
    requires
        seq_has_substring(w, run),
    ensures
        seq_has_substring(w.push(c), run),
{
    let off = choose|off: int| seq_has_substring_at(w, run, off);
    assert(w.push(c).subrange(off, off + run.len() as int) =~= w.subrange(
        off,
        off + run.len() as int,
    ));
    assert(seq_has_substring_at(w.push(c), run, off));
}

proof fn lemma_substring_ascii_lower(w: Seq<char>, run: Seq<char>)
    requires
        seq_has_substring(w, run),
        forall|k: int| 0 <= k < run.len() ==> ascii_digit(#[trigger] run[k]),
    ensures
        seq_has_substring(ascii_lower_seq(w), run),
{
    let off = choose|off: int| seq_has_substring_at(w, run, off);
    assert(ascii_lower_seq(w).subrange(off, off + run.len() as int) =~= run) by {
        assert forall|k: int| 0 <= k < run.len() implies ascii_lower_seq(w).subrange(
            off,
            off + run.len() as int,
        )[k] == run[k] by {
            assert(w.subrange(off, off + run.len() as int)[k] == run[k]);
            assert(w[off + k] == run[k]);
            assert(!ascii_upper(run[k]));
            assert(ascii_lower_seq(w)[off + k] == ascii_lower_char(w[off + k]));
        }
    }
    assert(seq_has_substring_at(ascii_lower_seq(w), run, off));
}

proof fn lemma_run_words_push(words: Seq<Seq<char>>, w: Seq<char>, run: Seq<char>)
    requires
        run_in_one_word(words, run),
    ensures
        run_in_one_word(words.push(w), run),
{
    let i = choose|i: int| 0 <= i < words.len() && seq_has_substring(#[trigger] words[i], run);
    assert(words.push(w)[i] == words[i]);
}

/// One automaton step never tears a digit run that lies in a produced word
/// or in the word being formed: the forming word only grows at its end, and
/// a flush always moves it whole.
proof fn lemma_step_preserves_run(
    st: WalkState,
    c: char,
    f: StepFlags,
    at_last: bool,
    run: Seq<char>,
)
    requires
        run.len() > 0,
        forall|k: int| 0 <= k < run.len() ==> ascii_digit(#[trigger] run[k]),
        run_in_one_word(st.words, run) || seq_has_substring(st.curr, run),
        ({
            let curr1 = if !f.delete && (!f.commit || f.bound_end) && !f.bound_start {
                st.curr.push(c)
            } else {
                st.curr
            };
            f.commit && curr1.len() > 0 ==> lower_of(curr1) == ascii_lower_seq(curr1)
        }),
        ({
            let curr1 = if !f.delete && (!f.commit || f.bound_end) && !f.bound_start {
                st.curr.push(c)
            } else {
                st.curr
            };
            let curr2 = if f.commit && curr1.len() > 0 {
                Seq::<char>::empty()
            } else {
                curr1
            };
            let curr3 = if !f.delete && f.commit && f.bound_start {
                curr2.push(c)
            } else {
                curr2
            };
            let curr4 = if !f.delete && !(curr3.len() > 0 && curr3.last() == c) {
                curr3.push(c)
            } else {
                curr3
            };
            (at_last || (!f.delete && f.bound_start && f.bound_end)) && curr4.len() > 0
                ==> lower_of(curr4) == ascii_lower_seq(curr4)
        }),
    ensures
        ({
            let st1 = charwalk_step(st, c, f, at_last);
            run_in_one_word(st1.words, run) || seq_has_substring(st1.curr, run)
        }),
{
    let curr1 = if !f.delete && (!f.commit || f.bound_end) && !f.bound_start {
        st.curr.push(c)
    } else {
        st.curr
    };
    if seq_has_substring(st.curr, run) && curr1 != st.curr {
        lemma_substring_push(st.curr, run, c);
    }
    let flush2 = f.commit && curr1.len() > 0;
    let words2 = if flush2 {
        st.words.push(lower_of(curr1))
    } else {
        st.words
    };
    let curr2 = if flush2 {
        Seq::<char>::empty()
    } else {
        curr1
    };
    if run_in_one_word(st.words, run) && flush2 {
        lemma_run_words_push(st.words, lower_of(curr1), run);
    }
    if seq_has_substring(curr1, run) && flush2 {
        lemma_substring_ascii_lower(curr1, run);
        assert(seq_has_substring(words2[words2.len() - 1], run));
        assert(run_in_one_word(words2, run));
    }
    let curr3 = if !f.delete && f.commit && f.bound_start {
        curr2.push(c)
    } else {
        curr2
    };
    if seq_has_substring(curr2, run) && curr3 != curr2 {
        lemma_substring_push(curr2, run, c);
    }
    if at_last || (!f.delete && f.bound_start && f.bound_end) {
        let curr4 = if !f.delete && !(curr3.len() > 0 && curr3.last() == c) {
            curr3.push(c)
        } else {
            curr3
        };
        if seq_has_substring(curr3, run) && curr4 != curr3 {
            lemma_substring_push(curr3, run, c);
        }
        if curr4.len() > 0 {
            let words4 = words2.push(lower_of(curr4));
            if run_in_one_word(words2, run) {
                lemma_run_words_push(words2, lower_of(curr4), run);
            }
            if seq_has_substring(curr4, run) {
                lemma_substring_ascii_lower(curr4, run);
                assert(seq_has_substring(words4[words4.len() - 1], run));
                assert(run_in_one_word(words4, run));
            }
        } else {
            assert(!seq_has_substring(curr4, run)) by {
                if seq_has_substring(curr4, run) {
                    let off = choose|off: int| seq_has_substring_at(curr4, run, off);
                }
            }
            assert(!seq_has_substring(curr3, run)) by {
                if seq_has_substring(curr3, run) {
                    let off = choose|off: int| seq_has_substring_at(curr3, run, off);
                    assert(curr3.len() > 0);
                    assert(!f.delete ==> curr3.last() == c);
                }
            }
        }
    }
}

} // verus!
