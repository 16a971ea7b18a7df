use ankichess::filter::{page_bounds, parse_filter, BrowseFilter};

#[test]
fn range_filter_parses_inclusive_bounds() {
    let f = parse_filter("1200-1400");
    assert!(matches!(f, BrowseFilter::Range(1200, 1400)));
}

#[test]
fn bare_integer_becomes_fuzzy_range() {
    let f = parse_filter("1500");
    assert!(matches!(f, BrowseFilter::Range(1450, 1550)));
}

#[test]
fn greater_than_filter() {
    let f = parse_filter(">2000");
    assert!(matches!(f, BrowseFilter::Gt(2000)));
}

#[test]
fn less_than_filter() {
    let f = parse_filter("<1000");
    assert!(matches!(f, BrowseFilter::Lt(1000)));
}

#[test]
fn non_numeric_falls_back_to_text_search() {
    let f = parse_filter("mateIn2");
    match f {
        BrowseFilter::Text(t) => assert_eq!(t, "mateIn2"),
        _ => panic!("expected the text fallback"),
    }
}

#[test]
fn empty_filter_applies_no_predicate() {
    let f = parse_filter("   ");
    assert!(matches!(f, BrowseFilter::All));
}

#[test]
fn filter_input_is_trimmed() {
    let f = parse_filter("  1200-1400  ");
    assert!(matches!(f, BrowseFilter::Range(1200, 1400)));
}

#[test]
fn range_with_spaces_around_dash() {
    let f = parse_filter("1200 - 1400");
    assert!(matches!(f, BrowseFilter::Range(1200, 1400)));
}

#[test]
fn malformed_range_falls_back_to_text() {
    let f = parse_filter("abc-def");
    match f {
        BrowseFilter::Text(t) => assert_eq!(t, "abc-def"),
        _ => panic!("expected the text fallback"),
    }
}

#[test]
fn greater_than_without_number_is_text() {
    let f = parse_filter(">high");
    assert!(matches!(f, BrowseFilter::Text(_)));
}

#[test]
fn page_bounds_third_page_of_45() {
    let (start, end) = page_bounds(3, 20, 45);
    assert_eq!(start, 40);
    assert_eq!(end, 45);
}

#[test]
fn page_bounds_zero_page_is_page_one() {
    let (start, end) = page_bounds(0, 20, 45);
    assert_eq!(start, 0);
    assert_eq!(end, 20);
}

#[test]
fn page_bounds_past_the_end_is_empty() {
    let (start, end) = page_bounds(4, 20, 45);
    assert_eq!(start, 45);
    assert_eq!(end, 45);
}

#[test]
fn sort_field_format() {
    let s = ankichess::format_anki_sfld("00sHx", "Tactics");
    assert_eq!(s, "00sHx (Tactics)");
}

#[test]
fn near_match_saturates_at_the_integer_bound() {
    let f = parse_filter("2147483647");
    assert!(matches!(f, BrowseFilter::Range(2147483597, 2147483647)));
}

#[test]
fn out_of_range_number_is_text() {
    let f = parse_filter("99999999999999999999");
    assert!(matches!(f, BrowseFilter::Text(_)));
}
