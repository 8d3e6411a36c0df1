use comparer_rust::lang::{adjusted_time_limit_ms, lang_from_name, CmpError, RunLang};

#[test]
fn known_names_parse() {
    assert_eq!(lang_from_name("c"), Ok(RunLang::C));
    assert_eq!(lang_from_name("cpp"), Ok(RunLang::Cpp));
    assert_eq!(lang_from_name("c++"), Ok(RunLang::Cpp));
    assert_eq!(lang_from_name("py"), Ok(RunLang::Python));
    assert_eq!(lang_from_name("python"), Ok(RunLang::Python));
    assert_eq!(lang_from_name("pypy"), Ok(RunLang::Python));
    assert_eq!(lang_from_name("java"), Ok(RunLang::Java));
    assert_eq!(lang_from_name("go"), Ok(RunLang::Go));
    assert_eq!(lang_from_name("golang"), Ok(RunLang::Go));
    assert_eq!(lang_from_name("rust"), Ok(RunLang::Rust));
    assert_eq!(lang_from_name("rs"), Ok(RunLang::Rust));
}

#[test]
fn names_parse_without_regard_to_case() {
    assert_eq!(lang_from_name("CPP"), Ok(RunLang::Cpp));
    assert_eq!(lang_from_name("Java"), Ok(RunLang::Java));
    assert_eq!(lang_from_name("RS"), Ok(RunLang::Rust));
}

#[test]
fn unknown_name_fails_before_anything_runs() {
    assert_eq!(lang_from_name("lang77"), Err(CmpError::InvalidLanguage));
    assert_eq!(lang_from_name(""), Err(CmpError::InvalidLanguage));
    assert_eq!(lang_from_name("javascript"), Err(CmpError::InvalidLanguage));
}

#[test]
fn compiled_languages_keep_the_nominal_limit() {
    assert_eq!(adjusted_time_limit_ms(RunLang::C, 2000), 2000);
    assert_eq!(adjusted_time_limit_ms(RunLang::Cpp, 2000), 2000);
    assert_eq!(adjusted_time_limit_ms(RunLang::Rust, 2000), 2000);
}

#[test]
fn managed_languages_get_startup_grace() {
    assert_eq!(adjusted_time_limit_ms(RunLang::Go, 2000), 4000);
    assert_eq!(adjusted_time_limit_ms(RunLang::Java, 2000), 5000);
    assert_eq!(adjusted_time_limit_ms(RunLang::Python, 2000), 8000);
}

#[test]
fn negative_adjusted_limits_clamp_to_zero() {
    assert_eq!(adjusted_time_limit_ms(RunLang::C, -5), 0);
    assert_eq!(adjusted_time_limit_ms(RunLang::Python, -1000), 0);
    // A small negative nominal limit can still leave Go a positive grace.
    assert_eq!(adjusted_time_limit_ms(RunLang::Go, -1500), 500);
}
