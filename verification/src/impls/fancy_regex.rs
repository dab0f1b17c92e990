//! The pattern-compiler engine: the rule list is compiled into one
//! alternation of lookaround branches, and the word partition is read off
//! the gaps between the pattern's matches in the input.

use std::marker::PhantomData;
use vstd::prelude::*;

verus! {

use crate::CompiledRules;
use crate::WordBoundResolverImpl;
use crate::chars::ascii_upper;
use crate::chars::lower_of;
use crate::chars::lowercase;
use crate::chars::push_char;
use crate::rules::RemoveMode;
use crate::rules::ResolverProcessingRule;
use crate::rules::ResolverRules;
use crate::rules::RuleTarget;
use crate::rules::Scope;
use crate::rules::has_remove;
use crate::rules::rules_have_remove;
use crate::rules::spec_npsc_class;
use crate::word_views;
use vstd::string::StringExecFns;

/// What `fancy_regex` finds for a pattern in an input: one span per match,
/// in character positions, in match order. None when the pattern does not
/// compile or matching reports an error.
pub uninterp spec fn fancy_spans_of(pattern: Seq<char>, input: Seq<char>) -> Option<
    Seq<(usize, usize)>,
>;

/// Spans of successive non-overlapping matches: each within the input and
/// no earlier than the end of the one before it.
pub open spec fn span_list_wf(spans: Seq<(usize, usize)>, len: int) -> bool {
    forall|k: int|
        0 <= k < spans.len() ==> ((#[trigger] spans[k]).0 <= spans[k].1 && spans[k].1 <= len && (k
            > 0 ==> spans[k - 1].1 <= spans[k].0))
}

/// Relies on `fancy_regex::Regex::new` and `Regex::find_iter`: both are
/// functions of the pattern and the input alone, and the matches come in
/// order, non-overlapping, within the input. One span per match; the byte
/// offsets the matcher reports are converted to character positions by
/// counting the characters before them. None exactly when compilation or
/// matching fails.
#[verifier::external_body]
fn fancy_match_spans(pattern: &str, input: &str) -> (r: Option<Vec<(usize, usize)>>)
    ensures
        match (r, fancy_spans_of(pattern@, input@)) {
            (Some(v), Some(sp)) => v@ == sp && span_list_wf(sp, input@.len() as int),
            (None, None) => true,
            _ => false,
        },
{
    let re = match fancy_regex::Regex::new(pattern) { Ok(re) => re, Err(_) => return None };
    let mut out: Vec<(usize, usize)> = Vec::new();
    for m in re.find_iter(input) {
        let m = match m { Ok(m) => m, Err(_) => return None };
        out.push((input[..m.start()].chars().count(), input[..m.end()].chars().count()));
    }
    Some(out)
}

/// The gap texts the first `k` spans delimit, and the position after the
/// `k`-th match.
pub open spec fn gaps_upto(input: Seq<char>, spans: Seq<(usize, usize)>, k: int) -> (
    Seq<Seq<char>>,
    int,
)
    decreases k,
{
    if k <= 0 {
        (Seq::empty(), 0)
    } else {
        let p = gaps_upto(input, spans, k - 1);
        (p.0.push(input.subrange(p.1, spans[k - 1].0 as int)), spans[k - 1].1 as int)
    }
}

/// The word partition the match spans induce: the text before the first
/// match, between consecutive matches, and after the last one.
pub open spec fn gaps_from_spans(input: Seq<char>, spans: Seq<(usize, usize)>) -> Seq<Seq<char>> {
    let p = gaps_upto(input, spans, spans.len() as int);
    p.0.push(input.subrange(p.1, input.len() as int))
}

/// Cuts the input at the match spans, keeping what stands between them.
fn gap_segments(s: &str, spans: &Vec<(usize, usize)>) -> (gaps: Vec<String>)
    requires
        span_list_wf(spans@, s@.len() as int),
    ensures
        word_views(gaps@) == gaps_from_spans(s@, spans@),
{
    let n = s.unicode_len();
    let mut gaps: Vec<String> = Vec::new();
    let mut last: usize = 0;
    let mut i: usize = 0;
    while i < spans.len()
        invariant
            span_list_wf(spans@, s@.len() as int),
            n == s@.len(),
            0 <= i <= spans@.len(),
            (word_views(gaps@), last as int) == gaps_upto(s@, spans@, i as int),
        decreases spans@.len() - i,
    {
        let sp = spans[i];
        proof {
            assert((spans@[i as int]).0 <= spans@[i as int].1 <= s@.len());
            if i > 0 {
                assert((spans@[i - 1]).0 <= spans@[i - 1].1);
                assert(spans@[i - 1].1 <= spans@[i as int].0);
            }
        }
        let g = s.substring_char(last, sp.0);
        let gs = g.to_owned();
        proof {
            assert(word_views(gaps@.push(gs)) =~= word_views(gaps@).push(gs@));
        }
        gaps.push(gs);
        last = sp.1;
        i += 1;
    }
    let tail = s.substring_char(last, n);
    let ts = tail.to_owned();
    proof {
        assert(word_views(gaps@.push(ts)) =~= word_views(gaps@).push(ts@));
    }
    gaps.push(ts);
    gaps
}

// ---------------------------------------------------------------------------
// The compiled pattern, branch by branch.
// ---------------------------------------------------------------------------

/// The parts of a pattern joined with `|`.
pub open spec fn join_bar(parts: Seq<Seq<char>>) -> Seq<char>
    decreases parts.len(),
{
    if parts.len() == 0 {
        Seq::empty()
    } else if parts.len() == 1 {
        parts[0]
    } else {
        join_bar(parts.drop_last()) + "|"@ + parts.last()
    }
}

pub open spec fn punct_exclude_pattern(punct: Seq<char>) -> Seq<char> {
    "["@ + punct + "]"@
}

pub open spec fn punct_start_pattern(punct: Seq<char>) -> Seq<char> {
    r"(?<=^|\W)["@ + punct + r"](?=\w)"@
}

pub open spec fn punct_middle_pattern(punct: Seq<char>, npsc: Seq<char>) -> Seq<char> {
    r"(?<=^["@ + punct + r"]|\W["@ + punct + r"])(?=\w|"@ + npsc + r")|(?<=(\w|"@ + npsc + r"))["@
        + punct + r"]+(?=(\w|"@ + npsc + r"))|(?<=(\w|"@ + npsc + r"))(?=["@ + punct + r"]+$)"@
}

pub open spec fn punct_end_pattern(punct: Seq<char>) -> Seq<char> {
    r"(?<=\w)["@ + punct + r"](?=\W|$)"@
}

/// The pieces of the punctuation boundary branch that the configured
/// removal modes select.
pub open spec fn punct_merge_parts(
    punct: Seq<char>,
    npsc: Seq<char>,
    rules: Seq<ResolverProcessingRule>,
) -> Seq<Seq<char>> {
    (if has_remove(rules, RuleTarget::PunctSpecialChar, RemoveMode::Ends(Scope::FullInput)) {
        seq![
            punct_start_pattern(punct),
            punct_middle_pattern(punct, npsc),
            punct_end_pattern(punct),
        ]
    } else {
        Seq::empty()
    }) + (if has_remove(rules, RuleTarget::PunctSpecialChar, RemoveMode::Middle(Scope::FullInput)) {
        seq![punct_middle_pattern(punct, npsc)]
    } else {
        Seq::empty()
    })
}

/// The single branch emitted for the first punctuation bound rule.
pub open spec fn punct_bound_branch(
    punct: Seq<char>,
    npsc: Seq<char>,
    rules: Seq<ResolverProcessingRule>,
) -> Seq<char> {
    if has_remove(rules, RuleTarget::PunctSpecialChar, RemoveMode::All) {
        punct_exclude_pattern(punct)
    } else {
        join_bar(punct_merge_parts(punct, npsc, rules))
    }
}

/// The branches of the removal rules, in rule order: one literal class per
/// `Char` removal.
pub open spec fn remove_branches(rules: Seq<ResolverProcessingRule>) -> Seq<Seq<char>>
    decreases rules.len(),
{
    if rules.len() == 0 {
        Seq::empty()
    } else {
        remove_branches(rules.drop_last()) + (match rules.last() {
            ResolverProcessingRule::Remove(RuleTarget::Char(c), _) => seq![seq!['[', c, ']']],
            _ => Seq::empty(),
        })
    }
}

/// The branches of the first `k` bound rules, together with whether a
/// punctuation bound branch has been emitted (it is emitted once).
pub open spec fn bound_branches_upto(
    rules: Seq<ResolverProcessingRule>,
    punct: Seq<char>,
    npsc: Seq<char>,
    k: int,
) -> (Seq<Seq<char>>, bool)
    decreases k,
{
    if k <= 0 {
        (Seq::empty(), false)
    } else {
        let prev = bound_branches_upto(rules, punct, npsc, k - 1);
        let bs = prev.0;
        let fp = prev.1;
        match rules[k - 1] {
            ResolverProcessingRule::BoundStart(t) => match t {
                RuleTarget::Char(c) => (bs.push("(?="@ + seq![c] + ")"@), fp),
                RuleTarget::CaseChangeNonAcronym => (
                    bs.push(r"(?=\p{Lu})\p{Ll}|(?<=\p{Ll})(?=\p{Lu})"@),
                    fp,
                ),
                RuleTarget::PunctSpecialChar => if !fp {
                    (bs.push(punct_bound_branch(punct, npsc, rules)), true)
                } else {
                    (bs, fp)
                },
                RuleTarget::Numerics => (bs.push(r"(?<=\D)(?=\d)"@), fp),
                RuleTarget::NonPunctSpecialChar => (bs.push("(?="@ + npsc + ")"@), fp),
                _ => (bs, fp),
            },
            ResolverProcessingRule::BoundEnd(t) => match t {
                RuleTarget::Char(c) => (bs.push("(?<="@ + seq![c] + ")"@), fp),
                RuleTarget::Acronym => (bs.push(r"(?<=\p{Lu})(?=\p{Lu}\p{Ll})"@), fp),
                RuleTarget::PunctSpecialChar => if !fp {
                    (bs.push(punct_bound_branch(punct, npsc, rules)), true)
                } else {
                    (bs, fp)
                },
                RuleTarget::Numerics => (bs.push(r"(?<=\d)(?=\D)"@), fp),
                RuleTarget::NonPunctSpecialChar => (bs.push("(?<="@ + npsc + ")(?=.)"@), fp),
                _ => (bs, fp),
            },
            _ => (bs, fp),
        }
    }
}

/// The whole compiled pattern for a rule set.
pub open spec fn spec_fancy_pattern(
    punct: Seq<char>,
    npsc: Seq<char>,
    rules: Seq<ResolverProcessingRule>,
) -> Seq<char> {
    join_bar(
        remove_branches(rules) + bound_branches_upto(rules, punct, npsc, rules.len() as int).0,
    )
}

/// Joins pattern parts with `|`.
fn join_with_bar(parts: &Vec<String>) -> (s: String)
    ensures
        s@ == join_bar(word_views(parts@)),
{
    let mut s = String::new();
    let mut i: usize = 0;
    while i < parts.len()
        invariant
            0 <= i <= parts@.len(),
            s@ == join_bar(word_views(parts@).take(i as int)),
        decreases parts@.len() - i,
    {
        let ghost prefix = word_views(parts@).take(i as int);
        if i > 0 {
            s.append("|");
        }
        s.append(parts[i].as_str());
        proof {
            let next = word_views(parts@).take(i + 1);
            assert(next.drop_last() =~= prefix);
            assert(next.last() == parts@[i as int]@);
            if i == 0 {
                assert(s@ == join_bar(next));
            } else {
                assert(s@ == join_bar(next));
            }
        }
        i += 1;
    }
    proof {
        assert(word_views(parts@).take(parts@.len() as int) =~= word_views(parts@));
    }
    s
}

/// Builds the punctuation boundary branch.
fn build_punct_branch(punct: &str, npsc: &str, rules: &Vec<ResolverProcessingRule>) -> (b: String)
    ensures
        b@ == punct_bound_branch(punct@, npsc@, rules@),
{
    if rules_have_remove(rules, &RuleTarget::PunctSpecialChar, &RemoveMode::All) {
        let mut b = "[".to_owned();
        b.append(punct);
        b.append("]");
        b
    } else {
        let mut start = r"(?<=^|\W)[".to_owned();
        start.append(punct);
        start.append(r"](?=\w)");
        let mut middle = r"(?<=^[".to_owned();
        middle.append(punct);
        middle.append(r"]|\W[");
        middle.append(punct);
        middle.append(r"])(?=\w|");
        middle.append(npsc);
        middle.append(r")|(?<=(\w|");
        middle.append(npsc);
        middle.append(r"))[");
        middle.append(punct);
        middle.append(r"]+(?=(\w|");
        middle.append(npsc);
        middle.append(r"))|(?<=(\w|");
        middle.append(npsc);
        middle.append(r"))(?=[");
        middle.append(punct);
        middle.append(r"]+$)");
        let mut end = r"(?<=\w)[".to_owned();
        end.append(punct);
        end.append(r"](?=\W|$)");
        proof {
            assert(start@ == punct_start_pattern(punct@));
            assert(middle@ == punct_middle_pattern(punct@, npsc@));
            assert(end@ == punct_end_pattern(punct@));
        }
        let mut parts: Vec<String> = Vec::new();
        if rules_have_remove(
            rules,
            &RuleTarget::PunctSpecialChar,
            &RemoveMode::Ends(Scope::FullInput),
        ) {
            parts.push(start);
            parts.push(middle.clone());
            parts.push(end);
        }
        if rules_have_remove(
            rules,
            &RuleTarget::PunctSpecialChar,
            &RemoveMode::Middle(Scope::FullInput),
        ) {
            parts.push(middle);
        }
        proof {
            assert(word_views(parts@) =~= punct_merge_parts(punct@, npsc@, rules@));
        }
        join_with_bar(&parts)
    }
}

/// Compiles the rule set of `R` into one alternation pattern.
fn build_fancy_pattern<R: ResolverRules>() -> (p: String)
    requires
        crate::rules::rule_set_valid(R::spec_resolution_pass_rules()),
    ensures
        p@ == spec_fancy_pattern(
            R::spec_punct_chars(),
            spec_npsc_class(R::spec_punct_chars(), R::spec_resolution_pass_rules()),
            R::spec_resolution_pass_rules(),
        ),
{
    let rules = R::resolution_pass_rules();
    let punct = R::punct_chars();
    let npsc = R::non_punct_special_chars();
    let ghost npsc_seq = spec_npsc_class(R::spec_punct_chars(), R::spec_resolution_pass_rules());
    let mut branches: Vec<String> = Vec::new();

    let mut i: usize = 0;
    while i < rules.len()
        invariant
            rules@ == R::spec_resolution_pass_rules(),
            0 <= i <= rules@.len(),
            word_views(branches@) == remove_branches(rules@.take(i as int)),
        decreases rules@.len() - i,
    {
        let ghost prefix = rules@.take(i as int);
        match &rules[i] {
            ResolverProcessingRule::Remove(RuleTarget::Char(c), _) => {
                let mut b = "[".to_owned();
                push_char(&mut b, *c);
                b.append("]");
                proof {
                    reveal_strlit("[");
                    reveal_strlit("]");
                    assert(word_views(branches@.push(b)) =~= word_views(branches@).push(b@));
                    assert(b@ =~= seq!['[', *c, ']']);
                }
                branches.push(b);
            },
            _ => {},
        }
        proof {
            assert(rules@.take(i + 1).drop_last() =~= prefix);
            assert(rules@.take(i + 1).last() == rules@[i as int]);
            assert(word_views(branches@) =~= remove_branches(rules@.take(i + 1)));
        }
        i += 1;
    }
    proof {
        assert(rules@.take(rules@.len() as int) =~= rules@);
    }
    let ghost removal = remove_branches(rules@);

    let mut flag_punct = false;
    let mut j: usize = 0;
    while j < rules.len()
        invariant
            rules@ == R::spec_resolution_pass_rules(),
            punct@ == R::spec_punct_chars(),
            npsc@ == npsc_seq,
            removal == remove_branches(rules@),
            0 <= j <= rules@.len(),
            word_views(branches@) == removal + bound_branches_upto(
                rules@,
                punct@,
                npsc@,
                j as int,
            ).0,
            flag_punct == bound_branches_upto(rules@, punct@, npsc@, j as int).1,
        decreases rules@.len() - j,
    {
        match &rules[j] {
            ResolverProcessingRule::BoundStart(t) => match t {
                RuleTarget::Char(c) => {
                    let mut b = "(?=".to_owned();
                    push_char(&mut b, *c);
                    b.append(")");
                    proof {
                        assert(b@ =~= "(?="@ + seq![*c] + ")"@);
                        assert(word_views(branches@.push(b)) =~= word_views(branches@).push(b@));
                    }
                    branches.push(b);
                },
                RuleTarget::CaseChangeNonAcronym => {
                    let b = r"(?=\p{Lu})\p{Ll}|(?<=\p{Ll})(?=\p{Lu})".to_owned();
                    proof {
                        assert(word_views(branches@.push(b)) =~= word_views(branches@).push(b@));
                    }
                    branches.push(b);
                },
                RuleTarget::PunctSpecialChar => {
                    if !flag_punct {
                        let b = build_punct_branch(punct.as_str(), npsc.as_str(), &rules);
                        proof {
                            assert(word_views(branches@.push(b)) =~= word_views(branches@).push(
                                b@,
                            ));
                        }
                        branches.push(b);
                        flag_punct = true;
                    }
                },
                RuleTarget::Numerics => {
                    let b = r"(?<=\D)(?=\d)".to_owned();
                    proof {
                        assert(word_views(branches@.push(b)) =~= word_views(branches@).push(b@));
                    }
                    branches.push(b);
                },
                RuleTarget::NonPunctSpecialChar => {
                    let mut b = "(?=".to_owned();
                    b.append(npsc.as_str());
                    b.append(")");
                    proof {
                        assert(word_views(branches@.push(b)) =~= word_views(branches@).push(b@));
                    }
                    branches.push(b);
                },
                _ => {},
            },
            ResolverProcessingRule::BoundEnd(t) => match t {
                RuleTarget::Char(c) => {
                    let mut b = "(?<=".to_owned();
                    push_char(&mut b, *c);
                    b.append(")");
                    proof {
                        assert(b@ =~= "(?<="@ + seq![*c] + ")"@);
                        assert(word_views(branches@.push(b)) =~= word_views(branches@).push(b@));
                    }
                    branches.push(b);
                },
                RuleTarget::Acronym => {
                    let b = r"(?<=\p{Lu})(?=\p{Lu}\p{Ll})".to_owned();
                    proof {
                        assert(word_views(branches@.push(b)) =~= word_views(branches@).push(b@));
                    }
                    branches.push(b);
                },
                RuleTarget::PunctSpecialChar => {
                    if !flag_punct {
                        let b = build_punct_branch(punct.as_str(), npsc.as_str(), &rules);
                        proof {
                            assert(word_views(branches@.push(b)) =~= word_views(branches@).push(
                                b@,
                            ));
                        }
                        branches.push(b);
                        flag_punct = true;
                    }
                },
                RuleTarget::Numerics => {
                    let b = r"(?<=\d)(?=\D)".to_owned();
                    proof {
                        assert(word_views(branches@.push(b)) =~= word_views(branches@).push(b@));
                    }
                    branches.push(b);
                },
                RuleTarget::NonPunctSpecialChar => {
                    let mut b = "(?<=".to_owned();
                    b.append(npsc.as_str());
                    b.append(")(?=.)");
                    proof {
                        assert(word_views(branches@.push(b)) =~= word_views(branches@).push(b@));
                    }
                    branches.push(b);
                },
                _ => {},
            },
            _ => {},
        }
        j += 1;
    }
    join_with_bar(&branches)
}

/// The nonempty segments of a gap list.
pub open spec fn nonempty_gaps(gaps: Seq<Seq<char>>) -> Seq<Seq<char>> {
    gaps.filter(|g: Seq<char>| g.len() > 0)
}

/// Each segment lowercased.
pub open spec fn lowered(gaps: Seq<Seq<char>>) -> Seq<Seq<char>> {
    gaps.map_values(|g: Seq<char>| lower_of(g))
}

/// The lookaround-pattern engine, backed by `fancy_regex`.
pub struct FancyRegex<R: ResolverRules = crate::rules::DefaultRules> {
    _phantom_data: PhantomData<R>,
}

impl<R: ResolverRules> WordBoundResolverImpl<R> for FancyRegex<R> {
    open spec fn spec_resolver(input: Seq<char>) -> Seq<Seq<char>> {
        match fancy_spans_of(
            spec_fancy_pattern(
                R::spec_punct_chars(),
                spec_npsc_class(R::spec_punct_chars(), R::spec_resolution_pass_rules()),
                R::spec_resolution_pass_rules(),
            ),
            input,
        ) {
            Some(spans) => lowered(nonempty_gaps(gaps_from_spans(input, spans))),
            None => Seq::empty(),
        }
    }

    open spec fn spec_compiled_pattern() -> Option<Seq<char>> {
        Some(
            spec_fancy_pattern(
                R::spec_punct_chars(),
                spec_npsc_class(R::spec_punct_chars(), R::spec_resolution_pass_rules()),
                R::spec_resolution_pass_rules(),
            ),
        )
    }

    fn resolver(s: &str) -> (words: Vec<String>)
        ensures
            forall|i: int|
                0 <= i < words@.len() ==> lower_of((#[trigger] words@[i])@) == words@[i]@,
    {
        let pat = build_fancy_pattern::<R>();
        let mut words: Vec<String> = Vec::new();
        match fancy_match_spans(pat.as_str(), s) {
            Some(spans) => {
                let gaps = gap_segments(s, &spans);
                let ghost gseq = word_views(gaps@);
                let mut i: usize = 0;
                while i < gaps.len()
                    invariant
                        gseq == word_views(gaps@),
                        0 <= i <= gaps@.len(),
                        word_views(words@) == lowered(nonempty_gaps(gseq.take(i as int))),
                        forall|k: int| 0 <= k < words@.len() ==> (#[trigger] words@[k])@.len() > 0,
                        forall|k: int, l: int|
                            0 <= k < words@.len() && 0 <= l < words@[k]@.len() ==> !ascii_upper(
                                #[trigger] words@[k]@[l],
                            ),
                        forall|k: int|
                            0 <= k < words@.len() ==> lower_of((#[trigger] words@[k])@)
                                == words@[k]@,
                    decreases gaps@.len() - i,
                {
                    let ghost prefix = gseq.take(i as int);
                    let g = &gaps[i];
                    if !g.as_str().is_empty() {
                        let lw = lowercase(g.as_str());
                        proof {
                            reveal(Seq::filter);
                            assert(word_views(words@.push(lw)) =~= word_views(words@).push(lw@));
                            assert(gseq.take(i + 1).drop_last() =~= prefix);
                            assert(nonempty_gaps(gseq.take(i + 1)) =~= nonempty_gaps(prefix).push(
                                g@,
                            ));
                            assert(lowered(nonempty_gaps(prefix).push(g@)) =~= lowered(
                                nonempty_gaps(prefix),
                            ).push(lower_of(g@)));
                        }
                        words.push(lw);
                    } else {
                        proof {
                            reveal(Seq::filter);
                            assert(gseq.take(i + 1).drop_last() =~= prefix);
                            assert(nonempty_gaps(gseq.take(i + 1)) =~= nonempty_gaps(prefix));
                        }
                    }
                    i += 1;
                }
                proof {
                    assert(gseq.take(gaps@.len() as int) =~= gseq);
                }
            },
            None => {},
        }
        words
    }

    fn compile_rules() -> (r: CompiledRules) {
        CompiledRules::Regex(build_fancy_pattern::<R>())
    }
}

} // verus!
