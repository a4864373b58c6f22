use procfinder::process::SortDirective;
use procfinder::query::parse_query;
use procfinder::text::parse_i32;

#[test]
fn plain_term_has_default_order() {
    let (term, directive) = parse_query("nginx");
    assert_eq!(term, "nginx");
    assert_eq!(directive, SortDirective::ByScore);
}

#[test]
fn memory_directive_is_recognized() {
    let (term, directive) = parse_query("nginx sort:memory");
    assert_eq!(term, "nginx");
    assert_eq!(directive, SortDirective::ByMemory);
}

#[test]
fn cpu_directive_is_recognized() {
    let (term, directive) = parse_query("sshd sort:cpu");
    assert_eq!(term, "sshd");
    assert_eq!(directive, SortDirective::ByCpuTime);
}

#[test]
fn unknown_directive_value_means_default_order() {
    let (term, directive) = parse_query("abc sort:priority");
    assert_eq!(term, "abc");
    assert_eq!(directive, SortDirective::ByScore);
}

#[test]
fn term_is_trimmed() {
    let (term, directive) = parse_query("   spaced out   ");
    assert_eq!(term, "spaced out");
    assert_eq!(directive, SortDirective::ByScore);
}

#[test]
fn directive_only_input_has_empty_term() {
    let (term, directive) = parse_query("sort:cpu");
    assert_eq!(term, "");
    assert_eq!(directive, SortDirective::ByCpuTime);
}

#[test]
fn first_sort_token_cuts_the_term() {
    let (term, directive) = parse_query("a sort:cpu sort:memory");
    assert_eq!(term, "a");
    // Containment is checked over the whole input, memory first.
    assert_eq!(directive, SortDirective::ByMemory);
}

#[test]
fn directive_token_inside_a_name_still_triggers() {
    // The parser searches by plain substring, so a term containing the
    // token is cut there.
    let (term, directive) = parse_query("evil-sort:memory-process");
    assert_eq!(term, "evil-");
    assert_eq!(directive, SortDirective::ByMemory);
}

#[test]
fn parse_i32_accepts_plain_and_signed_decimals() {
    assert_eq!(parse_i32("205"), Some(205));
    assert_eq!(parse_i32("+7"), Some(7));
    assert_eq!(parse_i32("-12"), Some(-12));
    assert_eq!(parse_i32("0"), Some(0));
    assert_eq!(parse_i32("2147483647"), Some(i32::MAX));
    assert_eq!(parse_i32("-2147483648"), Some(i32::MIN));
}

#[test]
fn parse_i32_rejects_malformed_and_out_of_range_input() {
    assert_eq!(parse_i32(""), None);
    assert_eq!(parse_i32("-"), None);
    assert_eq!(parse_i32("+"), None);
    assert_eq!(parse_i32("12a"), None);
    assert_eq!(parse_i32(" 12"), None);
    assert_eq!(parse_i32("2147483648"), None);
    assert_eq!(parse_i32("-2147483649"), None);
    assert_eq!(parse_i32("99999999999999999999"), None);
}
