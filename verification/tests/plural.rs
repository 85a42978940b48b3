use leptos_i18n_macro::load_locales::key::Key;
use leptos_i18n_macro::load_locales::parsed_value::ParsedValue;
use leptos_i18n_macro::load_locales::plural::judge_fallbacks;
use leptos_i18n_macro::load_locales::plural::FallbackFault;
use leptos_i18n_macro::load_locales::plural::PluralBranch;
use leptos_i18n_macro::load_locales::plural::PluralForm;
use leptos_i18n_macro::load_locales::plural::PluralType;
use leptos_i18n_macro::load_locales::plural::Plurals;
use leptos_i18n_macro::load_locales::seed::ParsedValueSeed;
use leptos_i18n_macro::load_locales::seed::PluralError;
use leptos_i18n_macro::load_locales::seed::PluralErrorKind;
use leptos_i18n_macro::load_locales::seed::RawBranch;
use leptos_i18n_macro::load_locales::seed::RawValue;

const ALL_TYPES: [PluralType; 10] = [
    PluralType::I8,
    PluralType::I16,
    PluralType::I32,
    PluralType::I64,
    PluralType::U8,
    PluralType::U16,
    PluralType::U32,
    PluralType::U64,
    PluralType::F32,
    PluralType::F64,
];

fn seed() -> ParsedValueSeed<'static> {
    ParsedValueSeed { in_plural: false, locale: "en", locale_key: "clicks", namespace: None }
}

fn seed_in(namespace: &'static str) -> ParsedValueSeed<'static> {
    ParsedValueSeed {
        in_plural: false,
        locale: "fr",
        locale_key: "clicks",
        namespace: Some(namespace),
    }
}

fn form(selector: &str) -> PluralForm {
    PluralForm::new(selector)
}

fn entries(pairs: &[(&str, &str)]) -> Vec<RawBranch> {
    pairs
        .iter()
        .map(|(selector, text)| RawBranch {
            form: form(selector),
            value: RawValue::Text(text.to_string()),
        })
        .collect()
}

fn plurals(plural_type: PluralType, selectors: &[&str]) -> Plurals {
    let branches = selectors
        .iter()
        .map(|selector| PluralBranch { form: form(selector), value: ParsedValue::new("x") })
        .collect();
    Plurals { plural_type, branches }
}

fn error(kind: PluralErrorKind, message: &str) -> PluralError {
    PluralError { kind, message: message.to_string() }
}

#[test]
fn underscore_selects_the_fallback() {
    assert_eq!(form("_"), PluralForm::Fallback);
    assert_eq!(form("0"), PluralForm::Category("0".to_string()));
    assert_eq!(form("1..5"), PluralForm::Category("1..5".to_string()));
    assert_eq!(form(" _ "), PluralForm::Category(" _ ".to_string()));
    assert_eq!(form("__"), PluralForm::Category("__".to_string()));
    assert_eq!(form(""), PluralForm::Category(String::new()));
    assert!(form("_").is_fallback());
    assert!(!form("1").is_fallback());
    assert_eq!(form("1").clone(), form("1"));
    assert_eq!(form("_").clone(), form("_"));
}

#[test]
fn kinds_of_count_have_their_names() {
    let names = ["I8", "I16", "I32", "I64", "U8", "U16", "U32", "U64", "F32", "F64"];
    for (name, plural_type) in names.iter().zip(ALL_TYPES) {
        assert_eq!(plural_type.name(), *name);
        assert_eq!(plural_type.name(), format!("{:?}", plural_type));
    }
}

#[test]
fn only_counts_with_a_fraction_ask_for_a_fallback() {
    for plural_type in ALL_TYPES {
        let expected = matches!(plural_type, PluralType::F32 | PluralType::F64);
        assert_eq!(plural_type.should_have_fallback(), expected);
    }
}

#[test]
fn check_deserialization_reports_the_fallbacks() {
    assert_eq!(plurals(PluralType::U8, &[]).check_deserialization(), (false, 0, false));
    assert_eq!(plurals(PluralType::F32, &[]).check_deserialization(), (false, 0, true));
    assert_eq!(plurals(PluralType::U8, &["0", "1"]).check_deserialization(), (false, 0, false));
    assert_eq!(plurals(PluralType::U8, &["_"]).check_deserialization(), (false, 1, false));
    assert_eq!(plurals(PluralType::F64, &["0", "_"]).check_deserialization(), (false, 1, true));
    assert_eq!(plurals(PluralType::U8, &["_", "0"]).check_deserialization(), (true, 1, false));
    assert_eq!(plurals(PluralType::U8, &["_", "_"]).check_deserialization(), (true, 2, false));
    assert_eq!(
        plurals(PluralType::U8, &["0", "_", "1", "_", "_"]).check_deserialization(),
        (true, 3, false)
    );
}

#[test]
fn judge_fallbacks_takes_the_first_fault() {
    assert_eq!(judge_fallbacks(true, 1, false), Some(FallbackFault::Misplaced));
    assert_eq!(judge_fallbacks(true, 2, true), Some(FallbackFault::Misplaced));
    assert_eq!(judge_fallbacks(true, 0, true), Some(FallbackFault::Misplaced));
    assert_eq!(judge_fallbacks(false, 2, false), Some(FallbackFault::Multiple));
    assert_eq!(judge_fallbacks(false, usize::MAX, true), Some(FallbackFault::Multiple));
    assert_eq!(judge_fallbacks(false, 0, true), Some(FallbackFault::Missing));
    assert_eq!(judge_fallbacks(false, 0, false), None);
    assert_eq!(judge_fallbacks(false, 1, false), None);
    assert_eq!(judge_fallbacks(false, 1, true), None);
}

#[test]
fn faults_become_error_kinds() {
    assert_eq!(
        PluralErrorKind::from_fault(FallbackFault::Misplaced, PluralType::U8),
        PluralErrorKind::MisplacedFallback
    );
    assert_eq!(
        PluralErrorKind::from_fault(FallbackFault::Multiple, PluralType::U8),
        PluralErrorKind::MultipleFallbacks
    );
    assert_eq!(
        PluralErrorKind::from_fault(FallbackFault::Missing, PluralType::F32),
        PluralErrorKind::MissingFallback(PluralType::F32)
    );
}

#[test]
fn messages_name_the_place_and_the_reason() {
    assert_eq!(
        seed().error(PluralErrorKind::NestedPlurals),
        error(
            PluralErrorKind::NestedPlurals,
            "in locale \"en\" at key \"clicks\": nested plurals are not allowed"
        )
    );
    assert_eq!(
        seed_in("home").error(PluralErrorKind::MisplacedFallback),
        error(
            PluralErrorKind::MisplacedFallback,
            "in locale \"fr\" at namespace \"home\" at key \"clicks\": fallback is only allowed in last position"
        )
    );
    assert_eq!(
        seed().error(PluralErrorKind::MultipleFallbacks),
        error(
            PluralErrorKind::MultipleFallbacks,
            "in locale \"en\" at key \"clicks\": multiple fallbacks are not allowed"
        )
    );
    assert_eq!(
        seed_in("home").error(PluralErrorKind::MissingFallback(PluralType::F64)),
        error(
            PluralErrorKind::MissingFallback(PluralType::F64),
            "in locale \"fr\" at namespace \"home\" at key \"clicks\": for plural type F64 a fallback is required"
        )
    );
}

#[test]
fn messages_escape_the_names_as_debug_does() {
    let seed = ParsedValueSeed {
        in_plural: true,
        locale: "e\"n",
        locale_key: "a\\b\n",
        namespace: Some("tab\t"),
    };
    assert_eq!(
        seed.error(PluralErrorKind::NestedPlurals).message,
        "in locale \"e\\\"n\" at namespace \"tab\\t\" at key \"a\\\\b\\n\": nested plurals are not allowed"
    );
    assert_eq!(
        seed.error(PluralErrorKind::NestedPlurals).message,
        format!(
            "in locale {:?} at namespace {:?} at key {:?}: nested plurals are not allowed",
            "e\"n", "tab\t", "a\\b\n"
        )
    );
}

#[test]
fn reasons_without_the_place() {
    assert_eq!(PluralErrorKind::NestedPlurals.reason(), "nested plurals are not allowed");
    assert_eq!(
        PluralErrorKind::MissingFallback(PluralType::F32).reason(),
        "for plural type F32 a fallback is required"
    );
}

#[test]
fn text_is_read_as_a_locale_string() {
    let raw = RawValue::Text("a {{ x }}".to_string());
    assert_eq!(seed().deserialize(&raw), Ok(ParsedValue::new("a {{ x }}")));
    assert_eq!(seed().visit_str("a {{ x }}"), ParsedValue::new("a {{ x }}"));
    let inner = ParsedValueSeed { in_plural: true, ..seed() };
    assert_eq!(inner.deserialize(&raw), Ok(ParsedValue::new("a {{ x }}")));
}

#[test]
fn mapping_without_fallback_is_a_plural_where_none_is_asked_for() {
    let mapping = entries(&[("0", "none"), ("1", "one"), ("2..", "{{ count }} clicks")]);
    let expected = ParsedValue::Plural(Plurals {
        plural_type: PluralType::U32,
        branches: vec![
            PluralBranch { form: form("0"), value: ParsedValue::new("none") },
            PluralBranch { form: form("1"), value: ParsedValue::new("one") },
            PluralBranch {
                form: form("2.."),
                value: ParsedValue::Bloc(vec![
                    ParsedValue::String(String::new()),
                    ParsedValue::Variable(Key::try_new("var_count").unwrap()),
                    ParsedValue::String(" clicks".to_string()),
                ]),
            },
        ],
    });
    assert_eq!(seed().visit_map(PluralType::U32, &mapping), Ok(expected));
}

#[test]
fn mapping_with_one_fallback_at_the_end_is_a_plural() {
    let mapping = entries(&[("0", "none"), ("_", "some")]);
    for plural_type in ALL_TYPES {
        let expected = ParsedValue::Plural(Plurals {
            plural_type,
            branches: vec![
                PluralBranch { form: form("0"), value: ParsedValue::new("none") },
                PluralBranch { form: PluralForm::Fallback, value: ParsedValue::new("some") },
            ],
        });
        let raw = RawValue::Mapping(plural_type, entries(&[("0", "none"), ("_", "some")]));
        assert_eq!(seed().deserialize(&raw), Ok(expected));
        assert!(seed().visit_map(plural_type, &mapping).is_ok());
    }
}

#[test]
fn empty_mapping_is_a_plural_where_no_fallback_is_asked_for() {
    let expected = ParsedValue::Plural(Plurals { plural_type: PluralType::I8, branches: vec![] });
    assert_eq!(seed().visit_map(PluralType::I8, &vec![]), Ok(expected));
    assert_eq!(
        seed().visit_map(PluralType::F32, &vec![]),
        Err(seed().error(PluralErrorKind::MissingFallback(PluralType::F32)))
    );
}

#[test]
fn fallback_before_the_last_branch_is_refused() {
    let mapping = entries(&[("_", "some"), ("0", "none")]);
    assert_eq!(
        seed().visit_map(PluralType::U8, &mapping),
        Err(error(
            PluralErrorKind::MisplacedFallback,
            "in locale \"en\" at key \"clicks\": fallback is only allowed in last position"
        ))
    );
    let mapping = entries(&[("0", "none"), ("_", "some"), ("1", "one")]);
    assert_eq!(
        seed_in("ns").visit_map(PluralType::F32, &mapping).unwrap_err().kind,
        PluralErrorKind::MisplacedFallback
    );
}

#[test]
fn two_fallbacks_are_refused_for_the_one_that_is_not_last() {
    for mapping in [
        entries(&[("_", "a"), ("_", "b")]),
        entries(&[("0", "none"), ("_", "a"), ("_", "b")]),
        entries(&[("_", "a"), ("0", "none"), ("_", "b")]),
    ] {
        assert_eq!(
            seed().visit_map(PluralType::U8, &mapping),
            Err(seed().error(PluralErrorKind::MisplacedFallback))
        );
    }
}

#[test]
fn missing_fallback_is_refused_where_one_is_asked_for() {
    let mapping = entries(&[("0", "none"), ("1", "one")]);
    assert_eq!(
        seed().visit_map(PluralType::F32, &mapping),
        Err(error(
            PluralErrorKind::MissingFallback(PluralType::F32),
            "in locale \"en\" at key \"clicks\": for plural type F32 a fallback is required"
        ))
    );
    assert_eq!(
        seed_in("ns").visit_map(PluralType::F64, &mapping),
        Err(error(
            PluralErrorKind::MissingFallback(PluralType::F64),
            "in locale \"fr\" at namespace \"ns\" at key \"clicks\": for plural type F64 a fallback is required"
        ))
    );
    assert!(seed().visit_map(PluralType::I64, &mapping).is_ok());
}

#[test]
fn mapping_inside_a_plural_is_refused() {
    let inner = ParsedValueSeed { in_plural: true, ..seed() };
    let mapping = entries(&[("0", "none"), ("_", "some")]);
    assert_eq!(
        inner.visit_map(PluralType::U8, &mapping),
        Err(error(
            PluralErrorKind::NestedPlurals,
            "in locale \"en\" at key \"clicks\": nested plurals are not allowed"
        ))
    );
    assert_eq!(
        inner.visit_map(PluralType::U8, &vec![]),
        Err(seed().error(PluralErrorKind::NestedPlurals))
    );
}

#[test]
fn mapping_in_a_branch_is_refused_at_any_depth() {
    let mut raw = RawValue::Mapping(PluralType::U8, entries(&[("0", "none"), ("_", "some")]));
    for _ in 0..5 {
        let mut branches = entries(&[("0", "none")]);
        branches.push(RawBranch { form: PluralForm::Fallback, value: raw });
        raw = RawValue::Mapping(PluralType::U8, branches);
        assert_eq!(
            seed_in("deep").deserialize(&raw),
            Err(error(
                PluralErrorKind::NestedPlurals,
                "in locale \"fr\" at namespace \"deep\" at key \"clicks\": nested plurals are not allowed"
            ))
        );
    }
}

#[test]
fn nested_mapping_is_reported_before_the_fallbacks() {
    let inner = RawValue::Mapping(PluralType::U8, vec![]);
    let mut mapping = entries(&[("_", "a"), ("_", "b")]);
    mapping.push(RawBranch { form: form("3"), value: inner });
    assert_eq!(
        seed().visit_map(PluralType::F32, &mapping),
        Err(seed().error(PluralErrorKind::NestedPlurals))
    );
}

#[test]
fn enter_plural_gives_the_seed_for_the_branches() {
    let inner = seed_in("ns").enter_plural().unwrap();
    assert!(inner.in_plural);
    assert_eq!(inner.locale, "fr");
    assert_eq!(inner.locale_key, "clicks");
    assert_eq!(inner.namespace, Some("ns"));
    assert_eq!(
        inner.enter_plural().unwrap_err(),
        error(
            PluralErrorKind::NestedPlurals,
            "in locale \"fr\" at namespace \"ns\" at key \"clicks\": nested plurals are not allowed"
        )
    );
}

#[test]
fn check_plural_judges_the_branches_that_were_read() {
    let branches = |selectors: &[&str]| plurals(PluralType::U8, selectors).branches;
    assert_eq!(
        seed().check_plural(PluralType::U8, branches(&["0", "_"])),
        Ok(ParsedValue::Plural(plurals(PluralType::U8, &["0", "_"])))
    );
    assert_eq!(
        seed().check_plural(PluralType::U8, branches(&["_", "0"])),
        Err(seed().error(PluralErrorKind::MisplacedFallback))
    );
    assert_eq!(
        seed().check_plural(PluralType::F64, branches(&["0"])),
        Err(seed().error(PluralErrorKind::MissingFallback(PluralType::F64)))
    );
    let inner = ParsedValueSeed { in_plural: true, ..seed() };
    assert!(inner.check_plural(PluralType::U8, branches(&["0"])).is_ok());
}

#[test]
fn expecting_says_what_an_entry_may_be() {
    assert_eq!(seed().expecting(), "either a string or a map of string:string");
}
