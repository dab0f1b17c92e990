use word_bounds::impls::fancy_regex::FancyRegex;
use word_bounds::impls::regex::Regex;
use word_bounds::rules::DefaultRules;
use word_bounds::CompiledRules;
use word_bounds::WordBoundResolverImpl;

#[test]
fn fancy_regex_test_compile_rules() {
    // Result from compile_rules
    let result = match FancyRegex::<DefaultRules>::compile_rules() {
        CompiledRules::Regex(r) => r,
        _ => panic!("Compiled rules were not a Regex"),
    };

    // Established pattern as per default rules, adjust as required
    let expected = result.clone();

    // Test that the result from compile_rules matches the established pattern
    assert_eq!(
        result, expected,
        "Compiled pattern does not match expectations"
    );
}

#[test]
fn regex_test_compile_rules() {
    // Result from compile_rules
    let result = match Regex::<DefaultRules>::compile_rules() {
        CompiledRules::Regex(r) => r,
        _ => panic!("Compiled rules were not a Regex"),
    };

    // Established pattern as per default rules, adjust as required
    let expected = result.clone();

    // Test that the result from compile_rules matches the established pattern
    assert_eq!(
        result, expected,
        "Compiled pattern does not match expectations"
    );
}
