//! The split engine: one fixed pattern partitions the input into coarse
//! runs (letter runs, digit runs, single other characters); the resolution
//! rules are then applied to each run as local transformations — removals,
//! folding a run into a neighboring word, and a marker-based case-split —
//! and the processed runs are split on the marker, trimmed and filtered.

use std::marker::PhantomData;
use vstd::prelude::*;

verus! {

use crate::CompiledRules;
use crate::WordBoundResolverImpl;
use crate::chars::ascii_digit;
use crate::chars::ascii_lower;
use crate::chars::ascii_upper;
use crate::chars::char_is_ascii;
use crate::chars::char_is_lowercase;
use crate::chars::char_is_numeric;
use crate::chars::char_is_uppercase;
use crate::chars::char_is_whitespace;
use crate::chars::chars_to_string;
use crate::chars::is_lowercase_char;
use crate::chars::is_numeric_char;
use crate::chars::is_uppercase_char;
use crate::chars::is_whitespace_char;
use crate::chars::lower_of;
use crate::chars::lowercase;
use crate::chars::push_char;
use crate::chars::str_to_chars;
use crate::chars::vec_contains_char;
use crate::rules::RemoveMode;
use crate::rules::ResolverProcessingRule;
use crate::rules::ResolverRules;
use crate::rules::RuleTarget;
use crate::rules::Scope;
use crate::rules::char_rule_chars;
use crate::rules::has_bound_end;
use crate::rules::has_bound_start;
use crate::rules::rules_have_bound_end;
use crate::rules::rules_have_bound_start;
use crate::word_views;
use vstd::string::StringExecFns;

/// What `regex` finds for a pattern in an input: the successive
/// non-overlapping match texts. None when the pattern does not compile.
pub uninterp spec fn coarse_runs_of(pattern: Seq<char>, input: Seq<char>) -> Option<Seq<Seq<char>>>;

/// The fixed coarse partition pattern: maximal ASCII letter runs, maximal
/// digit runs, single non-word characters.
pub open spec fn coarse_pattern() -> Seq<char> {
    r"([a-zA-Z]+|\d+|[\W_])"@
}

pub open spec fn ascii_letter(c: char) -> bool {
    ascii_upper(c) || ascii_lower(c)
}

pub open spec fn ascii_alnum(c: char) -> bool {
    ascii_letter(c) || ascii_digit(c)
}

/// Relies on `regex::Regex::new` and `Regex::find_iter`: both are functions
/// of the pattern and the input alone, so the sequence of match texts is
/// too. None exactly when the pattern does not compile.
#[verifier::external_body]
fn regex_match_texts(pattern: &str, input: &str) -> (r: Option<Vec<String>>)
    ensures
        match (r, coarse_runs_of(pattern@, input@)) {
            (Some(v), Some(g)) => word_views(v@) == g,
            (None, None) => true,
            _ => false,
        },
{
    let re = match regex::Regex::new(pattern) {
        Ok(re) => re,
        Err(_) => return None,
    };
    Some(re.find_iter(input).map(|m| m.as_str().to_string()).collect())
}

// ---------------------------------------------------------------------------
// The character sets and predicates the run transformations use.
// ---------------------------------------------------------------------------

/// The punctuation characters with whitespace dropped: the set this engine
/// matches runs against.
pub open spec fn engine_punct(punct_nr: Seq<char>) -> Seq<char> {
    punct_nr.filter(|c: char| !is_whitespace_char(c))
}

/// Membership in the non-punct-special class: not alphanumeric, not
/// configured punctuation, not a `Char`-rule character.
pub open spec fn npsc_match(c: char, punct_set: Seq<char>, crc: Seq<char>) -> bool {
    !ascii_alnum(c) && !punct_set.contains(c) && !crc.contains(c)
}

pub open spec fn has_punct(w: Seq<char>, punct_set: Seq<char>) -> bool {
    exists|i: int| 0 <= i < w.len() && punct_set.contains(#[trigger] w[i])
}

pub open spec fn has_npsc(w: Seq<char>, punct_set: Seq<char>, crc: Seq<char>) -> bool {
    exists|i: int| 0 <= i < w.len() && npsc_match(#[trigger] w[i], punct_set, crc)
}

pub open spec fn all_numeric(w: Seq<char>) -> bool {
    forall|i: int| 0 <= i < w.len() ==> is_numeric_char(#[trigger] w[i])
}

pub open spec fn any_numeric(w: Seq<char>) -> bool {
    exists|i: int| 0 <= i < w.len() && is_numeric_char(#[trigger] w[i])
}

/// The position of the first occurrence of `c` in `s`, or -1.
pub open spec fn first_index_of(s: Seq<char>, c: char) -> int
    decreases s.len(),
{
    if s.len() == 0 {
        -1
    } else if s[0] == c {
        0
    } else {
        let r = first_index_of(s.drop_first(), c);
        if r < 0 {
            -1
        } else {
            r + 1
        }
    }
}

proof fn lemma_first_index_of(s: Seq<char>, c: char, i: int)
    requires
        0 <= i <= s.len(),
        forall|k: int| 0 <= k < i ==> s[k] != c,
        i == s.len() || s[i] == c,
    ensures
        i < s.len() ==> first_index_of(s, c) == i,
        i == s.len() ==> first_index_of(s, c) == -1,
    decreases s.len(),
{
    if s.len() > 0 && s[0] != c {
        lemma_first_index_of(s.drop_first(), c, if i > 0 {
            i - 1
        } else {
            0
        });
    }
}

// ---------------------------------------------------------------------------
// The marker-based case-split scans. The marker is a space; a final pass
// explodes words on it.
// ---------------------------------------------------------------------------

/// One step of the bound-start scan: insert a marker before an upper-case
/// letter after a lower-case one, or before the last letter on an
/// upper-to-lower transition, skipping the two characters after an
/// insertion.
pub open spec fn scan_start_step(acc: Seq<char>, lc: int, sp: int, c: char) -> (Seq<char>, int, int) {
    if lc == 1 && is_uppercase_char(c) && sp == 0 {
        (acc + seq![' ', c], 0, 2)
    } else if lc == 0 && is_lowercase_char(c) && sp == 0 {
        (
            if acc.len() > 0 {
                acc.drop_last() + seq![' ', acc.last(), c]
            } else {
                seq![' ', c]
            },
            1,
            2,
        )
    } else {
        (
            acc.push(c),
            if is_lowercase_char(c) {
                1
            } else {
                0
            },
            if sp > 0 {
                sp - 1
            } else {
                0
            },
        )
    }
}

pub open spec fn scan_start_upto(w: Seq<char>, k: int) -> (Seq<char>, int, int)
    decreases k,
{
    if k <= 0 {
        (Seq::empty(), -1, 1)
    } else {
        let p = scan_start_upto(w, k - 1);
        scan_start_step(p.0, p.1, p.2, w[k - 1])
    }
}

pub open spec fn marker_scan_start(w: Seq<char>) -> Seq<char> {
    scan_start_upto(w, w.len() as int).0
}

/// One step of the bound-end scan: insert a marker at every case
/// transition.
pub open spec fn scan_end_step(acc: Seq<char>, lc: int, c: char) -> (Seq<char>, int) {
    if lc == -1 {
        (
            acc.push(c),
            if is_lowercase_char(c) {
                1
            } else {
                0
            },
        )
    } else if lc == 1 && is_uppercase_char(c) {
        (acc + seq![' ', c], 0)
    } else if lc == 0 && is_lowercase_char(c) {
        (acc + seq![' ', c], 1)
    } else {
        (acc.push(c), lc)
    }
}

pub open spec fn scan_end_upto(w: Seq<char>, k: int) -> (Seq<char>, int)
    decreases k,
{
    if k <= 0 {
        (Seq::empty(), -1)
    } else {
        let p = scan_end_upto(w, k - 1);
        scan_end_step(p.0, p.1, w[k - 1])
    }
}

pub open spec fn marker_scan_end(w: Seq<char>) -> Seq<char> {
    scan_end_upto(w, w.len() as int).0
}

// ---------------------------------------------------------------------------
// The per-run rule fold.
// ---------------------------------------------------------------------------

/// The state while one run is processed: the text of the token, the words
/// already produced, whether the token has been claimed by a rule, and what
/// it hands to the next run.
pub struct RunState {
    pub word: Seq<char>,
    pub words: Seq<Seq<char>>,
    pub removed: bool,
    pub attach: Seq<char>,
}

/// The token with every occurrence of `c` deleted.
pub open spec fn remove_char(w: Seq<char>, c: char) -> Seq<char> {
    w.filter(|x: char| x != c)
}

/// A punctuation-bearing token is dropped whole.
pub open spec fn punct_remove(st: RunState, punct_set: Seq<char>) -> RunState {
    if has_punct(st.word, punct_set) {
        RunState { word: st.word, words: st.words, removed: true, attach: st.attach }
    } else {
        st
    }
}

/// Prepends `x` to the last produced word; with no word yet, `x` opens one.
pub open spec fn prepend_to_last(words: Seq<Seq<char>>, x: Seq<char>) -> Seq<Seq<char>> {
    if words.len() == 0 {
        words.push(x)
    } else {
        words.update(words.len() - 1, x + words.last())
    }
}

/// What one rule does to the token of run `k` out of `n_runs`. None is the
/// mixed-token failure: the coarse partition and the rules disagree, and
/// the whole resolution is abandoned.
pub open spec fn apply_rule(
    r: ResolverProcessingRule,
    st: RunState,
    rules: Seq<ResolverProcessingRule>,
    input: Seq<char>,
    punct_set: Seq<char>,
    crc: Seq<char>,
    k: int,
    n_runs: int,
) -> Option<RunState> {
    match r {
        ResolverProcessingRule::Remove(t, m) => match t {
            RuleTarget::Char(c) => Some(
                RunState { word: remove_char(st.word, c), words: st.words, removed: st.removed, attach: st.attach },
            ),
            RuleTarget::PunctSpecialChar => match m {
                RemoveMode::All => Some(punct_remove(st, punct_set)),
                RemoveMode::Middle(Scope::FullInput) => if k != 0 && k != n_runs - 1 {
                    Some(punct_remove(st, punct_set))
                } else {
                    Some(st)
                },
                RemoveMode::Ends(Scope::FullInput) => if k == 0 || k == n_runs - 1 {
                    Some(punct_remove(st, punct_set))
                } else {
                    Some(st)
                },
                _ => Some(st),
            },
            _ => Some(st),
        },
        ResolverProcessingRule::BoundStart(t) => match t {
            RuleTarget::Char(c) => if st.word == seq![c] {
                let i = first_index_of(input, c);
                if i >= 0 && i + 1 < input.len() && input[i + 1] == ' ' {
                    Some(st)
                } else if i >= 0 {
                    Some(RunState { word: st.word, words: st.words, removed: true, attach: seq![c] })
                } else {
                    Some(st)
                }
            } else {
                Some(st)
            },
            RuleTarget::CaseChangeNonAcronym => Some(
                RunState { word: marker_scan_start(st.word), words: st.words, removed: st.removed, attach: st.attach },
            ),
            RuleTarget::Numerics => if has_bound_end(rules, RuleTarget::Numerics) {
                Some(st)
            } else if all_numeric(st.word) {
                if k == n_runs - 1 {
                    Some(st)
                } else {
                    Some(RunState { word: st.word, words: st.words, removed: true, attach: st.word })
                }
            } else if any_numeric(st.word) {
                None
            } else {
                Some(st)
            },
            RuleTarget::NonPunctSpecialChar => if has_bound_end(
                rules,
                RuleTarget::NonPunctSpecialChar,
            ) {
                Some(st)
            } else if has_npsc(st.word, punct_set, crc) {
                Some(RunState { word: st.word, words: st.words, removed: true, attach: st.word })
            } else {
                Some(st)
            },
            _ => Some(st),
        },
        ResolverProcessingRule::BoundEnd(t) => match t {
            RuleTarget::Char(c) => if st.word == seq![c] {
                Some(
                    RunState {
                        word: st.word,
                        words: append_to_last_or_empty(st.words, lower_of(seq![c])),
                        removed: true,
                        attach: st.attach,
                    },
                )
            } else {
                Some(st)
            },
            RuleTarget::CaseChangeNonAcronym => Some(
                RunState { word: marker_scan_end(st.word), words: st.words, removed: st.removed, attach: st.attach },
            ),
            RuleTarget::Numerics => if has_bound_start(rules, RuleTarget::Numerics) {
                Some(st)
            } else if all_numeric(st.word) {
                Some(
                    RunState {
                        word: st.word,
                        words: append_to_last_or_empty(st.words, st.word),
                        removed: true,
                        attach: st.attach,
                    },
                )
            } else if any_numeric(st.word) {
                None
            } else {
                Some(st)
            },
            RuleTarget::NonPunctSpecialChar => if has_bound_start(
                rules,
                RuleTarget::NonPunctSpecialChar,
            ) {
                Some(st)
            } else if has_npsc(st.word, punct_set, crc) {
                Some(
                    RunState {
                        word: st.word,
                        words: prepend_to_last(st.words, lower_of(st.word)),
                        removed: true,
                        attach: st.attach,
                    },
                )
            } else {
                Some(st)
            },
            _ => Some(st),
        },
    }
}

/// Appending through a bound-end rule: with no word yet an empty word is
/// opened and the text is lost, as the append has nothing to join.
pub open spec fn append_to_last_or_empty(words: Seq<Seq<char>>, x: Seq<char>) -> Seq<Seq<char>> {
    if words.len() == 0 {
        words.push(Seq::empty())
    } else {
        words.update(words.len() - 1, words.last() + x)
    }
}

pub open spec fn apply_rules_upto(
    rules: Seq<ResolverProcessingRule>,
    input: Seq<char>,
    punct_set: Seq<char>,
    crc: Seq<char>,
    k: int,
    n_runs: int,
    st: RunState,
    j: int,
) -> Option<RunState>
    decreases j,
{
    if j <= 0 {
        Some(st)
    } else {
        match apply_rules_upto(rules, input, punct_set, crc, k, n_runs, st, j - 1) {
            Some(s) => apply_rule(rules[j - 1], s, rules, input, punct_set, crc, k, n_runs),
            None => None,
        }
    }
}

/// Processes run `k`: the pending attachment is prepended, the rules fold
/// over the token, and an unclaimed token is pushed lowercased.
pub open spec fn process_run(
    run: Seq<char>,
    attach_in: Seq<char>,
    words_in: Seq<Seq<char>>,
    rules: Seq<ResolverProcessingRule>,
    input: Seq<char>,
    punct_set: Seq<char>,
    crc: Seq<char>,
    k: int,
    n_runs: int,
) -> Option<(Seq<Seq<char>>, Seq<char>)> {
    let st0 = RunState {
        word: attach_in + run,
        words: words_in,
        removed: false,
        attach: Seq::empty(),
    };
    match apply_rules_upto(rules, input, punct_set, crc, k, n_runs, st0, rules.len() as int) {
        Some(st) => Some(
            (
                if !st.removed {
                    st.words.push(lower_of(st.word))
                } else {
                    st.words
                },
                st.attach,
            ),
        ),
        None => None,
    }
}

pub open spec fn process_runs_upto(
    runs: Seq<Seq<char>>,
    rules: Seq<ResolverProcessingRule>,
    input: Seq<char>,
    punct_set: Seq<char>,
    crc: Seq<char>,
    k: int,
) -> Option<(Seq<Seq<char>>, Seq<char>)>
    decreases k,
{
    if k <= 0 {
        Some((Seq::empty(), Seq::empty()))
    } else {
        match process_runs_upto(runs, rules, input, punct_set, crc, k - 1) {
            Some(p) => process_run(
                runs[k - 1],
                p.1,
                p.0,
                rules,
                input,
                punct_set,
                crc,
                k - 1,
                runs.len() as int,
            ),
            None => None,
        }
    }
}

proof fn lemma_process_runs_none(
    runs: Seq<Seq<char>>,
    rules: Seq<ResolverProcessingRule>,
    input: Seq<char>,
    punct_set: Seq<char>,
    crc: Seq<char>,
    k: int,
    n: int,
)
    requires
        process_runs_upto(runs, rules, input, punct_set, crc, k) is None,
        k <= n,
    ensures
        process_runs_upto(runs, rules, input, punct_set, crc, n) is None,
    decreases n - k,
{
    if k < n {
        lemma_process_runs_none(runs, rules, input, punct_set, crc, k + 1, n);
    }
}

proof fn lemma_apply_rules_none(
    rules: Seq<ResolverProcessingRule>,
    input: Seq<char>,
    punct_set: Seq<char>,
    crc: Seq<char>,
    k: int,
    n_runs: int,
    st: RunState,
    j: int,
    n: int,
)
    requires
        apply_rules_upto(rules, input, punct_set, crc, k, n_runs, st, j) is None,
        j <= n,
    ensures
        apply_rules_upto(rules, input, punct_set, crc, k, n_runs, st, n) is None,
    decreases n - j,
{
    if j < n {
        lemma_apply_rules_none(rules, input, punct_set, crc, k, n_runs, st, j + 1, n);
    }
}

// ---------------------------------------------------------------------------
// The final pass: explode on the marker, trim, drop empties.
// ---------------------------------------------------------------------------

pub open spec fn split_step(parts: Seq<Seq<char>>, cur: Seq<char>, c: char) -> (
    Seq<Seq<char>>,
    Seq<char>,
) {
    if c == ' ' {
        (parts.push(cur), Seq::empty())
    } else {
        (parts, cur.push(c))
    }
}

pub open spec fn split_upto(w: Seq<char>, k: int) -> (Seq<Seq<char>>, Seq<char>)
    decreases k,
{
    if k <= 0 {
        (Seq::empty(), Seq::empty())
    } else {
        let p = split_upto(w, k - 1);
        split_step(p.0, p.1, w[k - 1])
    }
}

/// The pieces of `w` between its spaces.
pub open spec fn split_spaces(w: Seq<char>) -> Seq<Seq<char>> {
    let p = split_upto(w, w.len() as int);
    p.0.push(p.1)
}

pub open spec fn split_all_upto(ws: Seq<Seq<char>>, k: int) -> Seq<Seq<char>>
    decreases k,
{
    if k <= 0 {
        Seq::empty()
    } else {
        split_all_upto(ws, k - 1) + split_spaces(ws[k - 1])
    }
}

pub open spec fn trim_front(w: Seq<char>) -> Seq<char>
    decreases w.len(),
{
    if w.len() > 0 && is_whitespace_char(w[0]) {
        trim_front(w.drop_first())
    } else {
        w
    }
}

pub open spec fn trim_back(w: Seq<char>) -> Seq<char>
    decreases w.len(),
{
    if w.len() > 0 && is_whitespace_char(w.last()) {
        trim_back(w.drop_last())
    } else {
        w
    }
}

/// `w` without leading and trailing whitespace.
pub open spec fn trim_ws(w: Seq<char>) -> Seq<char> {
    trim_back(trim_front(w))
}

pub open spec fn final_filter_upto(ws: Seq<Seq<char>>, k: int) -> Seq<Seq<char>>
    decreases k,
{
    if k <= 0 {
        Seq::empty()
    } else {
        let prev = final_filter_upto(ws, k - 1);
        if trim_ws(ws[k - 1]).len() > 0 {
            prev.push(trim_ws(ws[k - 1]))
        } else {
            prev
        }
    }
}

/// The final pass over the produced words: explode on the marker, trim,
/// drop what is empty.
pub open spec fn postprocess_spec(ws: Seq<Seq<char>>) -> Seq<Seq<char>> {
    let flat = split_all_upto(ws, ws.len() as int);
    final_filter_upto(flat, flat.len() as int)
}

/// The words this engine produces for `input` under a rule list and the
/// derived character sets.
pub open spec fn regex_engine_words(
    rules: Seq<ResolverProcessingRule>,
    punct_set: Seq<char>,
    crc: Seq<char>,
    input: Seq<char>,
) -> Seq<Seq<char>> {
    match coarse_runs_of(coarse_pattern(), input) {
        None => Seq::empty(),
        Some(runs) => match process_runs_upto(
            runs,
            rules,
            input,
            punct_set,
            crc,
            runs.len() as int,
        ) {
            None => Seq::empty(),
            Some(p) => postprocess_spec(p.0),
        },
    }
}


// ---------------------------------------------------------------------------
// Executable helpers, each pinned to its part of the model.
// ---------------------------------------------------------------------------

fn append_chars(dst: &mut Vec<char>, src: &Vec<char>)
    ensures
        final (dst)@ == old(dst)@ + src@,
{
    let ghost d0 = dst@;
    let mut i: usize = 0;
    while i < src.len()
        invariant
            0 <= i <= src@.len(),
            dst@ == d0 + src@.take(i as int),
        decreases src@.len() - i,
    {
        dst.push(src[i]);
        proof {
            assert(src@.take(i + 1) =~= src@.take(i as int).push(src@[i as int]));
            assert(d0 + src@.take(i + 1) =~= (d0 + src@.take(i as int)).push(src@[i as int]));
        }
        i += 1;
    }
    proof {
        assert(src@.take(src@.len() as int) =~= src@);
    }
}

fn copy_chars(src: &Vec<char>) -> (v: Vec<char>)
    ensures
        v@ == src@,
{
    let mut v: Vec<char> = Vec::new();
    append_chars(&mut v, src);
    proof {
        assert(Seq::<char>::empty() + src@ =~= src@);
    }
    v
}

/// The literal characters of the `Char`-targeted rules, in rule order.
fn collect_char_rule_chars(rules: &Vec<ResolverProcessingRule>) -> (v: Vec<char>)
    ensures
        v@ == char_rule_chars(rules@),
{
    let mut v: Vec<char> = Vec::new();
    let mut i: usize = 0;
    while i < rules.len()
        invariant
            0 <= i <= rules@.len(),
            v@ == char_rule_chars(rules@.take(i as int)),
        decreases rules@.len() - i,
    {
        let ghost prefix = rules@.take(i as int);
        match rules[i].target() {
            Some(RuleTarget::Char(c)) => {
                v.push(*c);
            },
            _ => {},
        }
        proof {
            assert(rules@.take(i + 1).drop_last() =~= prefix);
            assert(rules@.take(i + 1).last() == rules@[i as int]);
            assert(v@ =~= char_rule_chars(rules@.take(i + 1)));
        }
        i += 1;
    }
    proof {
        assert(rules@.take(rules@.len() as int) =~= rules@);
    }
    v
}

/// The punctuation set with whitespace dropped.
fn engine_punct_exec(punct_nr: &str) -> (v: Vec<char>)
    ensures
        v@ == engine_punct(punct_nr@),
{
    let chars = str_to_chars(punct_nr);
    let mut v: Vec<char> = Vec::new();
    let mut i: usize = 0;
    while i < chars.len()
        invariant
            chars@ == punct_nr@,
            0 <= i <= chars@.len(),
            v@ == engine_punct(punct_nr@.take(i as int)),
        decreases chars@.len() - i,
    {
        let ghost prefix = punct_nr@.take(i as int);
        let c = chars[i];
        if !char_is_whitespace(c) {
            v.push(c);
        }
        proof {
            reveal(Seq::filter);
            assert(punct_nr@.take(i + 1).drop_last() =~= prefix);
            assert(punct_nr@.take(i + 1).last() == c);
            assert(v@ =~= engine_punct(punct_nr@.take(i + 1)));
        }
        i += 1;
    }
    proof {
        assert(punct_nr@.take(punct_nr@.len() as int) =~= punct_nr@);
    }
    v
}

/// The token with every occurrence of `c` deleted.
fn remove_char_exec(w: &Vec<char>, c: char) -> (v: Vec<char>)
    ensures
        v@ == remove_char(w@, c),
{
    let mut v: Vec<char> = Vec::new();
    let mut i: usize = 0;
    while i < w.len()
        invariant
            0 <= i <= w@.len(),
            v@ == remove_char(w@.take(i as int), c),
        decreases w@.len() - i,
    {
        let ghost prefix = w@.take(i as int);
        let x = w[i];
        if x != c {
            v.push(x);
        }
        proof {
            reveal(Seq::filter);
            assert(w@.take(i + 1).drop_last() =~= prefix);
            assert(w@.take(i + 1).last() == x);
            assert(v@ =~= remove_char(w@.take(i + 1), c));
        }
        i += 1;
    }
    proof {
        assert(w@.take(w@.len() as int) =~= w@);
    }
    v
}

fn word_has_punct_exec(w: &Vec<char>, punct_set: &Vec<char>) -> (r: bool)
    ensures
        r == has_punct(w@, punct_set@),
{
    let mut i: usize = 0;
    while i < w.len()
        invariant
            0 <= i <= w@.len(),
            forall|k: int| 0 <= k < i ==> !punct_set@.contains(#[trigger] w@[k]),
        decreases w@.len() - i,
    {
        if vec_contains_char(punct_set, w[i]) {
            return true;
        }
        i += 1;
    }
    false
}

fn word_has_npsc_exec(w: &Vec<char>, punct_set: &Vec<char>, crc: &Vec<char>) -> (r: bool)
    ensures
        r == has_npsc(w@, punct_set@, crc@),
{
    let mut i: usize = 0;
    while i < w.len()
        invariant
            0 <= i <= w@.len(),
            forall|k: int| 0 <= k < i ==> !npsc_match(#[trigger] w@[k], punct_set@, crc@),
        decreases w@.len() - i,
    {
        let c = w[i];
        let u = c as u32;
        let alnum = (u >= 'A' as u32 && u <= 'Z' as u32) || (u >= 'a' as u32 && u <= 'z' as u32)
            || (u >= '0' as u32 && u <= '9' as u32);
        if !alnum && !vec_contains_char(punct_set, c) && !vec_contains_char(crc, c) {
            return true;
        }
        i += 1;
    }
    false
}

fn word_all_numeric_exec(w: &Vec<char>) -> (r: bool)
    ensures
        r == all_numeric(w@),
        r ==> forall|i: int| 0 <= i < w@.len() ==> !ascii_upper(#[trigger] w@[i]),
{
    let mut i: usize = 0;
    while i < w.len()
        invariant
            0 <= i <= w@.len(),
            forall|k: int| 0 <= k < i ==> is_numeric_char(#[trigger] w@[k]),
            forall|k: int| 0 <= k < i ==> !ascii_upper(#[trigger] w@[k]),
        decreases w@.len() - i,
    {
        let c = w[i];
        if !char_is_numeric(c) {
            return false;
        }
        proof {
            if char_is_ascii(c) {
                assert(ascii_digit(c));
            }
            assert(!ascii_upper(c));
        }
        i += 1;
    }
    true
}

fn word_any_numeric_exec(w: &Vec<char>) -> (r: bool)
    ensures
        r == any_numeric(w@),
{
    let mut i: usize = 0;
    while i < w.len()
        invariant
            0 <= i <= w@.len(),
            forall|k: int| 0 <= k < i ==> !is_numeric_char(#[trigger] w@[k]),
        decreases w@.len() - i,
    {
        if char_is_numeric(w[i]) {
            return true;
        }
        i += 1;
    }
    false
}

fn find_first_exec(v: &Vec<char>, c: char) -> (r: (bool, usize))
    ensures
        r.0 ==> r.1 < v@.len() && first_index_of(v@, c) == r.1 as int,
        !r.0 ==> first_index_of(v@, c) == -1,
{
    let mut i: usize = 0;
    while i < v.len()
        invariant
            0 <= i <= v@.len(),
            forall|k: int| 0 <= k < i ==> v@[k] != c,
        decreases v@.len() - i,
    {
        if v[i] == c {
            proof {
                lemma_first_index_of(v@, c, i as int);
            }
            return (true, i);
        }
        i += 1;
    }
    proof {
        lemma_first_index_of(v@, c, v@.len() as int);
    }
    (false, 0)
}

/// The bound-start case-split scan over one token.
fn scan_start_exec(w: &Vec<char>) -> (v: Vec<char>)
    ensures
        v@ == marker_scan_start(w@),
{
    let mut acc: Vec<char> = Vec::new();
    let mut lc: i32 = -1;
    let mut sp: i32 = 1;
    let mut i: usize = 0;
    while i < w.len()
        invariant
            0 <= i <= w@.len(),
            (acc@, lc as int, sp as int) == scan_start_upto(w@, i as int),
            0 <= sp <= 2 || i == 0,
            -1 <= lc <= 1,
        decreases w@.len() - i,
    {
        let c = w[i];
        let c_up = char_is_uppercase(c);
        let c_low = char_is_lowercase(c);
        if lc == 1 && c_up && sp == 0 {
            acc.push(' ');
            acc.push(c);
            lc = 0;
            sp = 2;
            proof {
                assert(acc@ =~= scan_start_upto(w@, i as int).0 + seq![' ', c]);
            }
        } else if lc == 0 && c_low && sp == 0 {
            if acc.len() > 0 {
                let last_c = acc[acc.len() - 1];
                let ghost acc0 = acc@;
                let _ = acc.pop();
                acc.push(' ');
                acc.push(last_c);
                acc.push(c);
                proof {
                    assert(acc@ =~= acc0.drop_last() + seq![' ', acc0.last(), c]);
                }
            } else {
                acc.push(' ');
                acc.push(c);
                proof {
                    assert(acc@ =~= seq![' ', c]);
                }
            }
            lc = 1;
            sp = 2;
        } else {
            acc.push(c);
            lc = if c_low {
                1
            } else {
                0
            };
            sp = if sp > 0 {
                sp - 1
            } else {
                0
            };
        }
        i += 1;
    }
    acc
}

/// The bound-end case-split scan over one token.
fn scan_end_exec(w: &Vec<char>) -> (v: Vec<char>)
    ensures
        v@ == marker_scan_end(w@),
{
    let mut acc: Vec<char> = Vec::new();
    let mut lc: i32 = -1;
    let mut i: usize = 0;
    while i < w.len()
        invariant
            0 <= i <= w@.len(),
            (acc@, lc as int) == scan_end_upto(w@, i as int),
            -1 <= lc <= 1,
        decreases w@.len() - i,
    {
        let c = w[i];
        let c_up = char_is_uppercase(c);
        let c_low = char_is_lowercase(c);
        if lc == -1 {
            acc.push(c);
            lc = if c_low {
                1
            } else {
                0
            };
        } else if lc == 1 && c_up {
            acc.push(' ');
            acc.push(c);
            lc = 0;
            proof {
                assert(acc@ =~= scan_end_upto(w@, i as int).0 + seq![' ', c]);
            }
        } else if lc == 0 && c_low {
            acc.push(' ');
            acc.push(c);
            lc = 1;
            proof {
                assert(acc@ =~= scan_end_upto(w@, i as int).0 + seq![' ', c]);
            }
        } else {
            acc.push(c);
        }
        i += 1;
    }
    acc
}

proof fn lemma_trim_front_skip(w: Seq<char>, a: int)
    requires
        0 <= a <= w.len(),
        forall|k: int| 0 <= k < a ==> is_whitespace_char(#[trigger] w[k]),
        a == w.len() || !is_whitespace_char(w[a]),
    ensures
        trim_front(w) == w.skip(a),
    decreases a,
{
    if a == 0 {
        assert(w.skip(0) =~= w);
    } else {
        assert(is_whitespace_char(w[0]));
        lemma_trim_front_skip(w.drop_first(), a - 1);
        assert(w.drop_first().skip(a - 1) =~= w.skip(a));
    }
}

proof fn lemma_trim_back_take(w: Seq<char>, b: int)
    requires
        0 <= b <= w.len(),
        forall|k: int| b <= k < w.len() ==> is_whitespace_char(#[trigger] w[k]),
        b == 0 || !is_whitespace_char(w[b - 1]),
    ensures
        trim_back(w) == w.take(b),
    decreases w.len() - b,
{
    if b == w.len() {
        assert(w.take(b) =~= w);
    } else {
        assert(is_whitespace_char(w.last()));
        lemma_trim_back_take(w.drop_last(), b);
        assert(w.drop_last().take(b) =~= w.take(b));
    }
}

/// The token without leading and trailing whitespace; every character of
/// the result occurs in the token.
fn trim_exec(w: &str) -> (t: String)
    ensures
        t@ == trim_ws(w@),
        forall|i: int| 0 <= i < t@.len() ==> w@.contains(#[trigger] t@[i]),
{
    let chars = str_to_chars(w);
    let n = chars.len();
    let mut a: usize = 0;
    let mut done: bool = false;
    let mut i: usize = 0;
    while i < n
        invariant
            chars@ == w@,
            n == chars@.len(),
            0 <= a <= i <= n,
            forall|k: int| 0 <= k < a ==> is_whitespace_char(#[trigger] chars@[k]),
            done ==> a < n && !is_whitespace_char(chars@[a as int]),
            !done ==> a == i,
        decreases n - i,
    {
        if !done {
            if char_is_whitespace(chars[i]) {
                a = i + 1;
            } else {
                done = true;
                proof {
                    assert(a == i);
                }
            }
        }
        i += 1;
    }
    if !done {
        proof {
            lemma_trim_front_skip(w@, n as int);
            assert(trim_front(w@) =~= Seq::<char>::empty());
            assert(trim_back(Seq::<char>::empty()) =~= Seq::<char>::empty());
        }
        return String::new();
    }
    proof {
        lemma_trim_front_skip(w@, a as int);
    }
    let mut b: usize = n;
    let mut done2: bool = false;
    let mut j: usize = 0;
    while j < n
        invariant
            chars@ == w@,
            n == chars@.len(),
            a < n,
            !is_whitespace_char(chars@[a as int]),
            0 <= b <= n,
            n - j <= b,
            forall|k: int| b <= k < n ==> is_whitespace_char(#[trigger] chars@[k]),
            done2 ==> b >= 1 && !is_whitespace_char(chars@[b - 1]),
            !done2 ==> b == n - j,
        decreases n - j,
    {
        if !done2 {
            if char_is_whitespace(chars[n - 1 - j]) {
                b = n - 1 - j;
            } else {
                done2 = true;
            }
        }
        j += 1;
    }
    proof {
        assert(done2) by {
            if !done2 {
                assert(b == 0);
                assert(is_whitespace_char(chars@[a as int]));
            }
        }
        assert(b >= 1);
        assert(a < b) by {
            if b <= a {
                assert(is_whitespace_char(chars@[a as int]));
            }
        }
        lemma_trim_back_take(w@.skip(a as int), b - a);
        assert(trim_ws(w@) =~= w@.subrange(a as int, b as int)) by {
            assert(w@.skip(a as int).take(b - a) =~= w@.subrange(a as int, b as int));
        }
    }
    let mut t = String::new();
    let mut p: usize = a;
    while p < b
        invariant
            chars@ == w@,
            n == chars@.len(),
            a <= p <= b <= n,
            t@ == chars@.subrange(a as int, p as int),
        decreases b - p,
    {
        push_char(&mut t, chars[p]);
        proof {
            assert(chars@.subrange(a as int, p + 1) =~= chars@.subrange(a as int, p as int).push(
                chars@[p as int],
            ));
        }
        p += 1;
    }
    proof {
        assert(forall|i2: int| 0 <= i2 < t@.len() ==> w@.contains(#[trigger] t@[i2])) by {
            assert forall|i2: int| 0 <= i2 < t@.len() implies w@.contains(#[trigger] t@[i2]) by {
                assert(t@[i2] == w@[a + i2]);
            }
        }
    }
    t
}

/// Explodes every word on the marker, trims the pieces, and drops the
/// empty ones.
fn explode_and_filter(words: Vec<String>) -> (out: Vec<String>)
    requires
        forall|i: int, j: int|
            0 <= i < words@.len() && 0 <= j < words@[i]@.len() ==> !ascii_upper(
                #[trigger] words@[i]@[j],
            ),
    ensures
        word_views(out@) == postprocess_spec(word_views(words@)),
        forall|i: int| 0 <= i < out@.len() ==> (#[trigger] out@[i])@.len() > 0,
        forall|i: int, j: int|
            0 <= i < out@.len() && 0 <= j < out@[i]@.len() ==> !ascii_upper(
                #[trigger] out@[i]@[j],
            ),
{
    let ghost wsv = word_views(words@);
    let mut flat: Vec<String> = Vec::new();
    let mut k: usize = 0;
    while k < words.len()
        invariant
            wsv == word_views(words@),
            forall|i: int, j: int|
                0 <= i < words@.len() && 0 <= j < words@[i]@.len() ==> !ascii_upper(
                    #[trigger] words@[i]@[j],
                ),
            0 <= k <= words@.len(),
            word_views(flat@) == split_all_upto(wsv, k as int),
            forall|i: int, j: int|
                0 <= i < flat@.len() && 0 <= j < flat@[i]@.len() ==> !ascii_upper(
                    #[trigger] flat@[i]@[j],
                ),
        decreases words@.len() - k,
    {
        let chars = str_to_chars(words[k].as_str());
        let mut cur: Vec<char> = Vec::new();
        let mut i: usize = 0;
        while i < chars.len()
            invariant
                wsv == word_views(words@),
                0 <= k < words@.len(),
                chars@ == words@[k as int]@,
                forall|j: int| 0 <= j < chars@.len() ==> !ascii_upper(#[trigger] chars@[j]),
                0 <= i <= chars@.len(),
                (word_views(flat@), cur@) == {
                    let p = split_upto(chars@, i as int);
                    (split_all_upto(wsv, k as int) + p.0, p.1)
                },
                forall|i2: int, j2: int|
                    0 <= i2 < flat@.len() && 0 <= j2 < flat@[i2]@.len() ==> !ascii_upper(
                        #[trigger] flat@[i2]@[j2],
                    ),
                forall|j2: int| 0 <= j2 < cur@.len() ==> !ascii_upper(#[trigger] cur@[j2]),
            decreases chars@.len() - i,
        {
            let c = chars[i];
            if c == ' ' {
                let pc = chars_to_string(&cur);
                proof {
                    assert(word_views(flat@.push(pc)) =~= word_views(flat@).push(pc@));
                }
                flat.push(pc);
                cur.clear();
            } else {
                cur.push(c);
            }
            i += 1;
        }
        let pc = chars_to_string(&cur);
        proof {
            assert(word_views(flat@.push(pc)) =~= word_views(flat@).push(pc@));
            assert(split_all_upto(wsv, k as int) + split_spaces(chars@) =~= (split_all_upto(
                wsv,
                k as int,
            ) + split_upto(chars@, chars@.len() as int).0).push(
                split_upto(chars@, chars@.len() as int).1,
            ));
            assert(split_all_upto(wsv, k + 1) == split_all_upto(wsv, k as int) + split_spaces(
                wsv[k as int],
            ));
        }
        flat.push(pc);
        k += 1;
    }
    proof {
        assert(split_all_upto(wsv, wsv.len() as int) == split_all_upto(
            wsv,
            words@.len() as int,
        ));
    }
    let ghost flatv = word_views(flat@);
    let mut out: Vec<String> = Vec::new();
    let mut k2: usize = 0;
    while k2 < flat.len()
        invariant
            flatv == word_views(flat@),
            forall|i: int, j: int|
                0 <= i < flat@.len() && 0 <= j < flat@[i]@.len() ==> !ascii_upper(
                    #[trigger] flat@[i]@[j],
                ),
            0 <= k2 <= flat@.len(),
            word_views(out@) == final_filter_upto(flatv, k2 as int),
            forall|i: int| 0 <= i < out@.len() ==> (#[trigger] out@[i])@.len() > 0,
            forall|i: int, j: int|
                0 <= i < out@.len() && 0 <= j < out@[i]@.len() ==> !ascii_upper(
                    #[trigger] out@[i]@[j],
                ),
        decreases flat@.len() - k2,
    {
        let t = trim_exec(flat[k2].as_str());
        if !t.as_str().is_empty() {
            proof {
                assert(word_views(out@.push(t)) =~= word_views(out@).push(t@));
                assert forall|j2: int| 0 <= j2 < t@.len() implies !ascii_upper(
                    #[trigger] t@[j2],
                ) by {
                    let w0 = flat@[k2 as int]@;
                    assert(w0.contains(t@[j2]));
                    let ix = choose|ix: int| 0 <= ix < w0.len() && w0[ix] == t@[j2];
                    assert(!ascii_upper(w0[ix]));
                }
            }
            out.push(t);
        }
        k2 += 1;
    }
    out
}

/// The split engine, backed by `regex` for the coarse partition.
pub struct Regex<R: ResolverRules = crate::rules::DefaultRules> {
    _phantom_data: PhantomData<R>,
}

impl<R: ResolverRules> WordBoundResolverImpl<R> for Regex<R> {
    open spec fn spec_resolver(input: Seq<char>) -> Seq<Seq<char>> {
        regex_engine_words(
            R::spec_resolution_pass_rules(),
            engine_punct(R::spec_punct_chars_non_regex()),
            char_rule_chars(R::spec_resolution_pass_rules()),
            input,
        )
    }

    open spec fn spec_compiled_pattern() -> Option<Seq<char>> {
        Some(coarse_pattern())
    }

    fn resolver(s: &str) -> (words_out: Vec<String>) {
        let rules = R::resolution_pass_rules();
        let punct_nr = R::punct_chars_non_regex();
        let punct_set = engine_punct_exec(punct_nr.as_str());
        let crc = collect_char_rule_chars(&rules);
        let input_chars = str_to_chars(s);
        let pattern = r"([a-zA-Z]+|\d+|[\W_])".to_owned();
        let runs_opt = regex_match_texts(pattern.as_str(), s);
        match runs_opt {
            None => Vec::new(),
            Some(runs) => {
                let ghost runsv = word_views(runs@);
                let n_runs = runs.len();
                let mut words: Vec<String> = Vec::new();
                let mut attach: Vec<char> = Vec::new();
                let mut aborted = false;
                let mut k: usize = 0;
                while k < n_runs && !aborted
                    invariant
                        rules@ == R::spec_resolution_pass_rules(),
                        punct_set@ == engine_punct(R::spec_punct_chars_non_regex()),
                        crc@ == char_rule_chars(R::spec_resolution_pass_rules()),
                        input_chars@ == s@,
                        runsv == word_views(runs@),
                        coarse_runs_of(coarse_pattern(), s@) == Some(runsv),
                        n_runs == runs@.len(),
                        0 <= k <= n_runs,
                        !aborted ==> process_runs_upto(
                            runsv,
                            rules@,
                            s@,
                            punct_set@,
                            crc@,
                            k as int,
                        ) == Some((word_views(words@), attach@)),
                        aborted ==> process_runs_upto(
                            runsv,
                            rules@,
                            s@,
                            punct_set@,
                            crc@,
                            runsv.len() as int,
                        ) is None,
                        forall|i: int, j: int|
                            0 <= i < words@.len() && 0 <= j < words@[i]@.len() ==> !ascii_upper(
                                #[trigger] words@[i]@[j],
                            ),
                    decreases n_runs - k,
                {
                    let run_chars = str_to_chars(runs[k].as_str());
                    let mut word = copy_chars(&attach);
                    append_chars(&mut word, &run_chars);
                    let ghost st0 = RunState {
                        word: attach@ + runsv[k as int],
                        words: word_views(words@),
                        removed: false,
                        attach: Seq::<char>::empty(),
                    };
                    let ghost words_in = word_views(words@);
                    let ghost attach_in = attach@;
                    let mut removed = false;
                    let mut attach_new: Vec<char> = Vec::new();
                    let mut j: usize = 0;
                    while j < rules.len() && !aborted
                        invariant
                            rules@ == R::spec_resolution_pass_rules(),
                            punct_set@ == engine_punct(R::spec_punct_chars_non_regex()),
                            crc@ == char_rule_chars(R::spec_resolution_pass_rules()),
                            input_chars@ == s@,
                            runsv == word_views(runs@),
                            n_runs == runs@.len(),
                            0 <= k < n_runs,
                            st0 == (RunState {
                                word: attach_in + runsv[k as int],
                                words: words_in,
                                removed: false,
                                attach: Seq::<char>::empty(),
                            }),
                            0 <= j <= rules@.len(),
                            !aborted ==> apply_rules_upto(
                                rules@,
                                s@,
                                punct_set@,
                                crc@,
                                k as int,
                                n_runs as int,
                                st0,
                                j as int,
                            ) == Some(
                                RunState {
                                    word: word@,
                                    words: word_views(words@),
                                    removed: removed,
                                    attach: attach_new@,
                                },
                            ),
                            aborted ==> apply_rules_upto(
                                rules@,
                                s@,
                                punct_set@,
                                crc@,
                                k as int,
                                n_runs as int,
                                st0,
                                rules@.len() as int,
                            ) is None,
                            forall|i: int, j2: int|
                                0 <= i < words@.len() && 0 <= j2 < words@[i]@.len()
                                    ==> !ascii_upper(#[trigger] words@[i]@[j2]),
                        decreases rules@.len() - j,
                    {
                        let ghost st_pre = RunState {
                            word: word@,
                            words: word_views(words@),
                            removed: removed,
                            attach: attach_new@,
                        };
                        match &rules[j] {
                            ResolverProcessingRule::Remove(t, m) => match t {
                                RuleTarget::Char(c) => {
                                    word = remove_char_exec(&word, *c);
                                },
                                RuleTarget::PunctSpecialChar => match m {
                                    RemoveMode::All => {
                                        if word_has_punct_exec(&word, &punct_set) {
                                            removed = true;
                                        }
                                    },
                                    RemoveMode::Middle(sc) => match sc {
                                        Scope::FullInput => {
                                            if k != 0 && k != n_runs - 1 {
                                                if word_has_punct_exec(&word, &punct_set) {
                                                    removed = true;
                                                }
                                            }
                                        },
                                        _ => {},
                                    },
                                    RemoveMode::Ends(sc) => match sc {
                                        Scope::FullInput => {
                                            if k == 0 || k == n_runs - 1 {
                                                if word_has_punct_exec(&word, &punct_set) {
                                                    removed = true;
                                                }
                                            }
                                        },
                                        _ => {},
                                    },
                                    _ => {},
                                },
                                _ => {},
                            },
                            ResolverProcessingRule::BoundStart(t) => match t {
                                RuleTarget::Char(c) => {
                                    let is_single = word.len() == 1 && word[0] == *c;
                                    proof {
                                        if is_single {
                                            assert(word@ =~= seq![*c]);
                                        } else {
                                            if word@.len() == 1 {
                                                assert(word@[0] != *c);
                                            }
                                            assert(word@ != seq![*c]);
                                        }
                                    }
                                    if is_single {
                                        let fr = find_first_exec(&input_chars, *c);
                                        if fr.0 {
                                            let fi = fr.1;
                                            let n_in = input_chars.len();
                                            if fi + 1 < n_in && input_chars[fi + 1] == ' ' {
                                            } else {
                                                removed = true;
                                                attach_new = Vec::new();
                                                attach_new.push(*c);
                                                proof {
                                                    assert(attach_new@ =~= seq![*c]);
                                                }
                                            }
                                        }
                                    }
                                },
                                RuleTarget::CaseChangeNonAcronym => {
                                    word = scan_start_exec(&word);
                                },
                                RuleTarget::Numerics => {
                                    if !rules_have_bound_end(&rules, &RuleTarget::Numerics) {
                                        let all = word_all_numeric_exec(&word);
                                        if all {
                                            if k == n_runs - 1 {
                                            } else {
                                                removed = true;
                                                attach_new = copy_chars(&word);
                                            }
                                        } else if word_any_numeric_exec(&word) {
                                            aborted = true;
                                        }
                                    }
                                },
                                RuleTarget::NonPunctSpecialChar => {
                                    if !rules_have_bound_end(
                                        &rules,
                                        &RuleTarget::NonPunctSpecialChar,
                                    ) {
                                        if word_has_npsc_exec(&word, &punct_set, &crc) {
                                            removed = true;
                                            attach_new = copy_chars(&word);
                                        }
                                    }
                                },
                                _ => {},
                            },
                            ResolverProcessingRule::BoundEnd(t) => match t {
                                RuleTarget::Char(c) => {
                                    let is_single = word.len() == 1 && word[0] == *c;
                                    proof {
                                        if is_single {
                                            assert(word@ =~= seq![*c]);
                                        } else {
                                            if word@.len() == 1 {
                                                assert(word@[0] != *c);
                                            }
                                            assert(word@ != seq![*c]);
                                        }
                                    }
                                    if is_single {
                                        removed = true;
                                        if words.len() == 0 {
                                            let empty_w = String::new();
                                            proof {
                                                assert(word_views(words@.push(empty_w))
                                                    =~= word_views(words@).push(empty_w@));
                                            }
                                            words.push(empty_w);
                                        } else {
                                            let ghost words0 = word_views(words@);
                                            let lastw = words.pop().unwrap();
                                            let mut cs = String::new();
                                            push_char(&mut cs, *c);
                                            let lc2 = lowercase(cs.as_str());
                                            let joined = lastw.concat(lc2.as_str());
                                            proof {
                                                assert(cs@ =~= seq![*c]);
                                            }
                                            words.push(joined);
                                            proof {
                                                assert(word_views(words@) =~= words0.update(
                                                    words0.len() - 1,
                                                    words0.last() + lower_of(seq![*c]),
                                                ));
                                            }
                                        }
                                    }
                                },
                                RuleTarget::CaseChangeNonAcronym => {
                                    word = scan_end_exec(&word);
                                },
                                RuleTarget::Numerics => {
                                    if !rules_have_bound_start(&rules, &RuleTarget::Numerics) {
                                        let all = word_all_numeric_exec(&word);
                                        if all {
                                            removed = true;
                                            if words.len() == 0 {
                                                let empty_w = String::new();
                                                proof {
                                                    assert(word_views(words@.push(empty_w))
                                                        =~= word_views(words@).push(empty_w@));
                                                }
                                                words.push(empty_w);
                                            } else {
                                                let ghost words0 = word_views(words@);
                                                let lastw = words.pop().unwrap();
                                                let ws2 = chars_to_string(&word);
                                                let joined = lastw.concat(ws2.as_str());
                                                words.push(joined);
                                                proof {
                                                    assert(word_views(words@) =~= words0.update(
                                                        words0.len() - 1,
                                                        words0.last() + word@,
                                                    ));
                                                }
                                            }
                                        } else if word_any_numeric_exec(&word) {
                                            aborted = true;
                                        }
                                    }
                                },
                                RuleTarget::NonPunctSpecialChar => {
                                    if !rules_have_bound_start(
                                        &rules,
                                        &RuleTarget::NonPunctSpecialChar,
                                    ) {
                                        if word_has_npsc_exec(&word, &punct_set, &crc) {
                                            removed = true;
                                            let ws2 = chars_to_string(&word);
                                            let lw = lowercase(ws2.as_str());
                                            if words.len() == 0 {
                                                proof {
                                                    assert(word_views(words@.push(lw))
                                                        =~= word_views(words@).push(lw@));
                                                }
                                                words.push(lw);
                                            } else {
                                                let ghost words0 = word_views(words@);
                                                let lastw = words.pop().unwrap();
                                                let joined = lw.concat(lastw.as_str());
                                                words.push(joined);
                                                proof {
                                                    assert(word_views(words@) =~= words0.update(
                                                        words0.len() - 1,
                                                        lower_of(word@) + words0.last(),
                                                    ));
                                                }
                                            }
                                        }
                                    }
                                },
                                _ => {},
                            },
                        }
                        proof {
                            if aborted {
                                assert(apply_rule(
                                    rules@[j as int],
                                    st_pre,
                                    rules@,
                                    s@,
                                    punct_set@,
                                    crc@,
                                    k as int,
                                    n_runs as int,
                                ) is None);
                                lemma_apply_rules_none(
                                    rules@,
                                    s@,
                                    punct_set@,
                                    crc@,
                                    k as int,
                                    n_runs as int,
                                    st0,
                                    j + 1,
                                    rules@.len() as int,
                                );
                            } else {
                                assert(apply_rule(
                                    rules@[j as int],
                                    st_pre,
                                    rules@,
                                    s@,
                                    punct_set@,
                                    crc@,
                                    k as int,
                                    n_runs as int,
                                ) == Some(
                                    RunState {
                                        word: word@,
                                        words: word_views(words@),
                                        removed: removed,
                                        attach: attach_new@,
                                    },
                                ));
                            }
                        }
                        j += 1;
                    }
                    if !aborted {
                        if !removed {
                            let w2 = chars_to_string(&word);
                            let lw = lowercase(w2.as_str());
                            proof {
                                assert(word_views(words@.push(lw)) =~= word_views(words@).push(
                                    lw@,
                                ));
                            }
                            words.push(lw);
                        }
                        attach = attach_new;
                        proof {
                            assert(process_runs_upto(
                                runsv,
                                rules@,
                                s@,
                                punct_set@,
                                crc@,
                                k + 1,
                            ) == Some((word_views(words@), attach@)));
                        }
                    } else {
                        proof {
                            assert(process_run(
                                runsv[k as int],
                                attach_in,
                                words_in,
                                rules@,
                                s@,
                                punct_set@,
                                crc@,
                                k as int,
                                runsv.len() as int,
                            ) is None);
                            lemma_process_runs_none(
                                runsv,
                                rules@,
                                s@,
                                punct_set@,
                                crc@,
                                k + 1,
                                runsv.len() as int,
                            );
                        }
                    }
                    k += 1;
                }
                if aborted {
                    Vec::new()
                } else {
                    explode_and_filter(words)
                }
            },
        }
    }

    fn compile_rules() -> (r: CompiledRules) {
        CompiledRules::Regex(r"([a-zA-Z]+|\d+|[\W_])".to_owned())
    }
}

} // verus!
