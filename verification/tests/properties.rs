use word_bounds::impls::charwalk::Charwalk;
use word_bounds::impls::fancy_regex::FancyRegex;
use word_bounds::impls::regex::Regex;
use word_bounds::resolver::{
    contains_special_chars, is_special_char, remove_prepended_underscores, WordBoundResolver,
};
use word_bounds::rules::{
    rules_valid, DefaultRules, RemoveMode, ResolverProcessingRule, ResolverRules, RuleTarget, Scope,
};
use word_bounds::CompiledRules;
use word_bounds::WordBoundResolverImpl;

const INPUTS: &[&str] = &[
    "This_is_SomeRandom_Text-to-split2",
    "_PrependedUnderscore",
    "AppendedUnderscore_",
    "UPPERCASELETTERS",
    "lowercaseletters",
    "CamelCase",
    "snake_case",
    "kebab-case",
    "thisExampleHasIDELikeACRONYMS",
    "WordWithNumbers123",
    "Short1",
    "number123456",
    "someHTML",
    "JSONResponse",
    "WithSpecial-_*Characters",
    "hashtag#rust",
    "+This_is_SomeRandom%Text#to-split2",
    "We should definitely also test spaces, and see percents % and # hashtags with spaces",
];

#[test]
fn all_engines_agree_on_default_rules() {
    for input in INPUTS {
        let a = WordBoundResolver::<Charwalk, DefaultRules>::resolve(input);
        let b = WordBoundResolver::<FancyRegex, DefaultRules>::resolve(input);
        let c = WordBoundResolver::<Regex, DefaultRules>::resolve(input);
        assert_eq!(a, b, "charwalk and fancy-regex disagree on {input}");
        assert_eq!(a, c, "charwalk and regex disagree on {input}");
    }
}

#[test]
fn no_output_word_is_empty() {
    for input in INPUTS {
        for word in WordBoundResolver::<Charwalk, DefaultRules>::resolve(input) {
            assert!(!word.is_empty());
        }
        for word in WordBoundResolver::<Regex, DefaultRules>::resolve(input) {
            assert!(!word.is_empty());
        }
        for word in WordBoundResolver::<FancyRegex, DefaultRules>::resolve(input) {
            assert!(!word.is_empty());
        }
    }
}

#[test]
fn every_output_word_is_lowercase() {
    for input in INPUTS {
        for word in WordBoundResolver::<Charwalk, DefaultRules>::resolve(input) {
            assert_eq!(word, word.to_lowercase());
        }
        for word in WordBoundResolver::<Regex, DefaultRules>::resolve(input) {
            assert_eq!(word, word.to_lowercase());
        }
    }
}

#[test]
fn digit_runs_stay_whole() {
    let cases: &[(&str, &str)] = &[
        ("WordWithNumbers123", "123"),
        ("number123456", "123456"),
        ("abc12345def", "12345"),
        ("a1b", "1"),
        ("x2026y2027", "2026"),
        ("12", "12"),
        ("1234abc", "1234"),
        ("42nd", "42"),
    ];
    for (input, run) in cases {
        let words = WordBoundResolver::<Charwalk, DefaultRules>::resolve(input);
        assert!(
            words.iter().any(|w| w.contains(run)),
            "digit run {run} split in {words:?}"
        );
    }
}

#[test]
fn repeated_calls_are_identical() {
    for input in INPUTS {
        let first = WordBoundResolver::<FancyRegex, DefaultRules>::resolve(input);
        // resolve with the other engines in between, so any state they keep
        // cannot influence the repetition
        let _ = WordBoundResolver::<Charwalk, DefaultRules>::resolve(input);
        let _ = WordBoundResolver::<Regex, DefaultRules>::resolve(input);
        let second = WordBoundResolver::<FancyRegex, DefaultRules>::resolve(input);
        assert_eq!(first, second);
        let third = WordBoundResolver::<Regex, DefaultRules>::resolve(input);
        let fourth = WordBoundResolver::<Regex, DefaultRules>::resolve(input);
        assert_eq!(third, fourth);
    }
}

#[test]
fn empty_input_gives_no_words() {
    assert!(WordBoundResolver::<Charwalk, DefaultRules>::resolve("").is_empty());
    assert!(WordBoundResolver::<Regex, DefaultRules>::resolve("").is_empty());
    assert!(WordBoundResolver::<FancyRegex, DefaultRules>::resolve("").is_empty());
}

#[test]
fn leading_digit_run_is_one_word() {
    assert_eq!(
        WordBoundResolver::<Charwalk, DefaultRules>::resolve("12"),
        vec!["12"]
    );
    assert_eq!(
        WordBoundResolver::<Charwalk, DefaultRules>::resolve("1234abc"),
        vec!["1234abc"]
    );
}

#[test]
fn trailing_special_char_stays_with_charwalk() {
    assert_eq!(
        WordBoundResolver::<Charwalk, DefaultRules>::resolve("hash#"),
        vec!["hash", "#"]
    );
}

#[test]
fn derived_non_punct_special_chars_non_regex() {
    assert_eq!(
        DefaultRules::non_punct_special_chars_non_regex(),
        "\"$&'()*+<=>[\\]^{|}~"
    );
}

#[test]
fn derived_non_punct_special_class_pattern() {
    assert_eq!(
        DefaultRules::non_punct_special_chars(),
        r"[^a-zA-Z0-9\-_\.,:;\?! \ \s #%]"
    );
}

#[test]
fn derived_class_is_disjoint_from_punctuation() {
    let punct = DefaultRules::punct_chars_non_regex();
    let special = DefaultRules::non_punct_special_chars_non_regex();
    for c in special.chars() {
        assert!(!punct.contains(c), "{c} is in both classes");
    }
}

#[test]
fn unsupported_rules_are_rejected() {
    let mut default_rules = DefaultRules::resolution_pass_rules();
    assert!(rules_valid(&default_rules));

    let single_word = vec![ResolverProcessingRule::Remove(
        RuleTarget::PunctSpecialChar,
        RemoveMode::Middle(Scope::SingleWord),
    )];
    assert!(!rules_valid(&single_word));

    let acronym_start = vec![ResolverProcessingRule::BoundStart(RuleTarget::Acronym)];
    assert!(!rules_valid(&acronym_start));

    let word_target = vec![ResolverProcessingRule::BoundEnd(RuleTarget::Word)];
    assert!(!rules_valid(&word_target));

    default_rules.push(ResolverProcessingRule::Remove(
        RuleTarget::Numerics,
        RemoveMode::All,
    ));
    assert!(!rules_valid(&default_rules));
}

#[test]
fn rule_targets_are_exposed() {
    let rule = ResolverProcessingRule::BoundStart(RuleTarget::Char('#'));
    assert!(matches!(rule.target(), Some(RuleTarget::Char('#'))));
    let rule = ResolverProcessingRule::Remove(RuleTarget::PunctSpecialChar, RemoveMode::All);
    assert!(matches!(rule.target(), Some(RuleTarget::PunctSpecialChar)));
}

#[test]
fn charwalk_compiles_no_pattern() {
    assert!(matches!(
        Charwalk::<DefaultRules>::compile_rules(),
        CompiledRules::NotApplicable
    ));
}

#[test]
fn compiled_fancy_pattern_parses() {
    let pattern = match FancyRegex::<DefaultRules>::compile_rules() {
        CompiledRules::Regex(p) => p,
        _ => panic!("expected a pattern"),
    };
    assert!(fancy_regex::Regex::new(&pattern).is_ok());
    assert!(pattern.contains(r"(?<=\D)(?=\d)"));
    assert!(pattern.contains(r"(?<=\d)(?=\D)"));
    assert!(pattern.contains(r"(?<=\p{Lu})(?=\p{Lu}\p{Ll})"));
}

#[test]
fn compiled_coarse_pattern_parses() {
    let pattern = match Regex::<DefaultRules>::compile_rules() {
        CompiledRules::Regex(p) => p,
        _ => panic!("expected a pattern"),
    };
    assert_eq!(pattern, r"([a-zA-Z]+|\d+|[\W_])");
    assert!(regex::Regex::new(&pattern).is_ok());
}

#[test]
fn helper_utilities() {
    assert!(is_special_char('-'));
    assert!(is_special_char('_'));
    assert!(!is_special_char('a'));
    assert!(contains_special_chars("a-b"));
    assert!(!contains_special_chars("plain"));
    assert_eq!(
        remove_prepended_underscores(String::from("__name")),
        "name"
    );
    assert_eq!(remove_prepended_underscores(String::from("name_")), "name_");
    assert_eq!(remove_prepended_underscores(String::from("____")), "");
}

#[test]
fn resolve_with_selects_the_engine() {
    let words =
        WordBoundResolver::<Charwalk, DefaultRules>::resolve_with::<Regex<DefaultRules>, DefaultRules>(
            "CamelCase",
        );
    assert_eq!(words, vec!["camel", "case"]);
}
