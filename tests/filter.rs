use rflatten::filter::{has_prefix, should_include_top_level_dir, starts_with_pattern, FilterRules, UsageError};

#[test]
fn test_starts_with_pattern() {
    assert!(starts_with_pattern("docs", "doc"));
    assert!(starts_with_pattern("documentation", "doc"));
    assert!(starts_with_pattern("DOCS", "doc"));
    assert!(starts_with_pattern("docs", "DOC"));
    assert!(!starts_with_pattern("src", "doc"));
    assert!(starts_with_pattern("src", "src"));
    assert!(starts_with_pattern("tests", "test"));
    assert!(!starts_with_pattern("mydocs", "doc"));
    assert!(!starts_with_pattern("src", "rc"));
}

#[test]
fn test_should_include_no_filters() {
    assert!(should_include_top_level_dir("docs", &None, &None));
    assert!(should_include_top_level_dir("src", &None, &None));
    assert!(should_include_top_level_dir("tests", &None, &None));
}

#[test]
fn test_should_include_with_include_filter() {
    let includes = Some(vec!["src".to_string()]);
    assert!(!should_include_top_level_dir("docs", &includes, &None));
    assert!(should_include_top_level_dir("src", &includes, &None));
    assert!(!should_include_top_level_dir("tests", &includes, &None));
}

#[test]
fn test_should_include_with_multiple_include_filters() {
    let includes = Some(vec!["src".to_string(), "test".to_string()]);
    assert!(!should_include_top_level_dir("docs", &includes, &None));
    assert!(should_include_top_level_dir("src", &includes, &None));
    assert!(should_include_top_level_dir("tests", &includes, &None));
}

#[test]
fn test_should_include_with_exclude_filter() {
    let excludes = Some(vec!["src".to_string()]);
    assert!(should_include_top_level_dir("docs", &None, &excludes));
    assert!(!should_include_top_level_dir("src", &None, &excludes));
    assert!(should_include_top_level_dir("tests", &None, &excludes));
}

#[test]
fn test_should_include_with_prefix_matching() {
    let includes = Some(vec!["doc".to_string()]);
    assert!(should_include_top_level_dir("docs", &includes, &None));
    assert!(should_include_top_level_dir("documentation", &includes, &None));
    assert!(!should_include_top_level_dir("src", &includes, &None));
    assert!(!should_include_top_level_dir("mydocs", &includes, &None));
}

#[test]
fn prefix_filter_is_not_substring() {
    let includes = Some(vec!["doc".to_string()]);
    assert!(should_include_top_level_dir("documentation", &includes, &None));
    assert!(!should_include_top_level_dir("mydocs", &includes, &None));
}

#[test]
fn exclude_list_is_case_insensitive() {
    let excludes = Some(vec!["SRC".to_string()]);
    assert!(!should_include_top_level_dir("src", &None, &excludes));
    assert!(!should_include_top_level_dir("Src2", &None, &excludes));
    assert!(should_include_top_level_dir("docs", &None, &excludes));
}

#[test]
fn empty_pattern_selects_everything() {
    assert!(starts_with_pattern("anything", ""));
    assert!(starts_with_pattern("", ""));
    assert!(!starts_with_pattern("", "a"));
}

#[test]
fn has_prefix_is_exact() {
    assert!(has_prefix("Documentation", "Doc"));
    assert!(!has_prefix("Documentation", "doc"));
    assert!(!has_prefix("do", "doc"));
    assert!(has_prefix("été", "ét"));
}

#[test]
fn both_lists_are_a_usage_error() {
    let r = FilterRules::new(Some(vec!["a".to_string()]), Some(vec!["b".to_string()]));
    assert!(matches!(r, Err(UsageError::IncludesWithExcludes)));
    assert!(FilterRules::new(Some(vec!["a".to_string()]), None).is_ok());
    assert!(FilterRules::new(None, Some(vec!["b".to_string()])).is_ok());
    assert!(FilterRules::new(None, None).is_ok());
}

#[test]
fn rules_admit_like_the_filter() {
    let rules = FilterRules::new(Some(vec!["doc".to_string()]), None).unwrap();
    assert!(rules.admits("docs"));
    assert!(!rules.admits("src"));
}
