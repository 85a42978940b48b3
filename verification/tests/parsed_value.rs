use leptos_i18n_macro::load_locales::key::Key;
use leptos_i18n_macro::load_locales::parsed_value::ParsedValue;

#[test]
fn parse_normal_string() {
    let value = ParsedValue::new("test");

    assert_eq!(value, ParsedValue::String("test".to_string()));
}

#[test]
fn parse_variable() {
    let value = ParsedValue::new("before {{ var }} after");

    assert_eq!(
        value,
        ParsedValue::Bloc(vec![
            ParsedValue::String("before ".to_string()),
            ParsedValue::Variable(Key::try_new("var_var").unwrap()),
            ParsedValue::String(" after".to_string())
        ])
    )
}

#[test]
fn parse_comp() {
    let value = ParsedValue::new("before <comp>inner</comp> after");

    assert_eq!(
        value,
        ParsedValue::Bloc(vec![
            ParsedValue::String("before ".to_string()),
            ParsedValue::Component {
                key: Key::try_new("comp_comp").unwrap(),
                inner: Box::new(ParsedValue::String("inner".to_string()))
            },
            ParsedValue::String(" after".to_string())
        ])
    )
}

#[test]
fn parse_nested_comp() {
    let value = ParsedValue::new(
        "before <comp>inner before<comp>inner inner</comp>inner after</comp> after",
    );

    assert_eq!(
        value,
        ParsedValue::Bloc(vec![
            ParsedValue::String("before ".to_string()),
            ParsedValue::Component {
                key: Key::try_new("comp_comp").unwrap(),
                inner: Box::new(ParsedValue::Bloc(vec![
                    ParsedValue::String("inner before".to_string()),
                    ParsedValue::Component {
                        key: Key::try_new("comp_comp").unwrap(),
                        inner: Box::new(ParsedValue::String("inner inner".to_string()))
                    },
                    ParsedValue::String("inner after".to_string()),
                ]))
            },
            ParsedValue::String(" after".to_string())
        ])
    )
}

#[test]
fn parse_skipped_tag() {
    let value = ParsedValue::new("<p>test<h3>this is a h3</h3>not closing p");

    assert_eq!(
        value,
        ParsedValue::Bloc(vec![
            ParsedValue::String("<p>test".to_string()),
            ParsedValue::Component {
                key: Key::try_new("comp_h3").unwrap(),
                inner: Box::new(ParsedValue::String("this is a h3".to_string()))
            },
            ParsedValue::String("not closing p".to_string())
        ])
    )
}
