use leptos_i18n_macro::load_locales::tag::scan_closing_tag;
use leptos_i18n_macro::load_locales::text::chars_eq;
use leptos_i18n_macro::load_locales::text::find_first;
use leptos_i18n_macro::load_locales::text::split_once_char;
use leptos_i18n_macro::load_locales::text::split_once_chars;
use leptos_i18n_macro::load_locales::text::split_once_pair;
use leptos_i18n_macro::load_locales::text::starts_with_at;
use leptos_i18n_macro::load_locales::text::str_eq;
use leptos_i18n_macro::load_locales::text::to_chars;
use leptos_i18n_macro::load_locales::text::to_string;
use leptos_i18n_macro::load_locales::text::trim_chars;
use leptos_i18n_macro::load_locales::text::trim_end_chars;
use leptos_i18n_macro::load_locales::text::trim_start_chars;

fn chars(text: &str) -> Vec<char> {
    text.chars().collect()
}

#[test]
fn to_chars_and_to_string_are_inverse() {
    for text in ["", "a", "abc", "é日本\u{1F600}", " \t\n", "<b>{{x}}</b>"] {
        assert_eq!(to_chars(text), chars(text));
        assert_eq!(to_string(&chars(text)), text);
    }
    assert_eq!(to_chars("aé").len(), 2);
    assert_eq!(to_string(&['b', 'a']), "ba");
}

#[test]
fn chars_eq_and_str_eq_compare_every_character() {
    assert!(chars_eq(&[], &[]));
    assert!(chars_eq(&['a', 'b'], &['a', 'b']));
    assert!(!chars_eq(&['a', 'b'], &['a', 'c']));
    assert!(!chars_eq(&['a', 'b'], &['b', 'b']));
    assert!(!chars_eq(&['a'], &['a', 'b']));
    assert!(!chars_eq(&['a', 'b'], &['a']));
    assert!(str_eq("", ""));
    assert!(str_eq("é_", "é_"));
    assert!(!str_eq("_", "__"));
    assert!(!str_eq("a", "b"));
}

#[test]
fn starts_with_at_looks_at_one_place() {
    let text = chars("abcabc");
    assert!(starts_with_at(&text, &chars("abc"), 0));
    assert!(starts_with_at(&text, &chars("abc"), 3));
    assert!(!starts_with_at(&text, &chars("abc"), 1));
    assert!(starts_with_at(&text, &chars("c"), 5));
    assert!(starts_with_at(&text, &[], 6));
    assert!(!starts_with_at(&text, &chars("abc"), 4));
    assert!(!starts_with_at(&text, &chars("c"), 6));
    assert!(!starts_with_at(&text, &[], 7));
    assert!(!starts_with_at(&text, &chars("abcabca"), 0));
    assert!(!starts_with_at(&text, &chars("a"), usize::MAX));
}

#[test]
fn find_first_gives_the_first_place() {
    assert_eq!(find_first(&chars("a<b<c"), &['<']), Some(1));
    assert_eq!(find_first(&chars("<"), &['<']), Some(0));
    assert_eq!(find_first(&chars("abc"), &['<']), None);
    assert_eq!(find_first(&chars(""), &['<']), None);
    assert_eq!(find_first(&chars("a{b{{c{{"), &['{', '{']), Some(3));
    assert_eq!(find_first(&chars("{{{"), &['{', '{']), Some(0));
    assert_eq!(find_first(&chars("{"), &['{', '{']), None);
    assert_eq!(find_first(&chars("ab"), &chars("ab")), Some(0));
    assert_eq!(find_first(&chars("ab"), &chars("abc")), None);
    assert_eq!(find_first(&chars("ab"), &[]), Some(0));
    assert_eq!(find_first(&[], &[]), Some(0));
}

#[test]
fn split_once_cuts_at_the_first_place() {
    let text = chars("a<b<c");
    assert_eq!(split_once_char(&text, '<'), Some((&text[..1], &text[2..])));
    assert_eq!(split_once_char(&text, 'a'), Some((&text[..0], &text[1..])));
    assert_eq!(split_once_char(&text, 'c'), Some((&text[..4], &text[5..])));
    assert_eq!(split_once_char(&text, '>'), None);
    let text = chars("a{b{{c{{d");
    assert_eq!(split_once_pair(&text, '{'), Some((&text[..3], &text[5..])));
    assert_eq!(split_once_pair(&text, '}'), None);
    let text = chars("one, two, three");
    assert_eq!(split_once_chars(&text, &chars(", ")), Some((&text[..3], &text[5..])));
    for text in ["", "a<b", "{{x}}", "é日本<"] {
        let expected = text.split_once('<').map(|(a, b)| (chars(a), chars(b)));
        let text = chars(text);
        let found = split_once_char(&text, '<').map(|(a, b)| (a.to_vec(), b.to_vec()));
        assert_eq!(found, expected);
    }
}

#[test]
fn trim_takes_white_space_from_the_ends_only() {
    for text in ["", " ", "a", " a", "a ", " a b ", "\t\na\r\n", "\u{a0}a\u{2003}\u{3000}", "a\u{200b}", " é 日 "]
    {
        assert_eq!(to_string(trim_chars(&chars(text))), text.trim(), "{text:?}");
        assert_eq!(to_string(trim_start_chars(&chars(text))), text.trim_start(), "{text:?}");
        assert_eq!(to_string(trim_end_chars(&chars(text))), text.trim_end(), "{text:?}");
    }
}

#[test]
fn scan_closing_tag_finds_the_tag_at_depth_zero() {
    assert_eq!(scan_closing_tag(&chars("x</b>y"), &['b']), Some((1, 5)));
    assert_eq!(scan_closing_tag(&chars("</b>"), &['b']), Some((0, 4)));
    assert_eq!(scan_closing_tag(&chars("x< / b >y"), &['b']), Some((1, 8)));
    assert_eq!(scan_closing_tag(&chars("x</i>y"), &['b']), None);
    assert_eq!(scan_closing_tag(&chars("x</b"), &['b']), None);
    assert_eq!(scan_closing_tag(&chars(""), &['b']), None);
    assert_eq!(scan_closing_tag(&chars("<b></b>"), &['b']), None);
    assert_eq!(scan_closing_tag(&chars("<b></b></b>"), &['b']), Some((7, 11)));
    assert_eq!(scan_closing_tag(&chars("</b><b></b>"), &['b']), Some((0, 4)));
    assert_eq!(scan_closing_tag(&chars("</b></b>"), &['b']), Some((0, 4)));
    assert_eq!(scan_closing_tag(&chars("x</b>y</b>"), &['b']), Some((1, 5)));
    assert_eq!(scan_closing_tag(&chars("<i></b></i>"), &['b']), Some((3, 7)));
    assert_eq!(scan_closing_tag(&chars("é</b>"), &['b']), Some((1, 5)));
    assert_eq!(scan_closing_tag(&chars("</>"), &[]), Some((0, 3)));
}

#[test]
fn white_space_is_what_has_the_unicode_property() {
    let listed = |c: char| {
        matches!(
            c as u32,
            0x0009..=0x000D
                | 0x0020
                | 0x0085
                | 0x00A0
                | 0x1680
                | 0x2000..=0x200A
                | 0x2028
                | 0x2029
                | 0x202F
                | 0x205F
                | 0x3000
        )
    };
    let mut count = 0;
    for code in 0..=0x10FFFFu32 {
        let Some(c) = char::from_u32(code) else { continue };
        assert_eq!(trim_chars(&[c]).is_empty(), listed(c), "U+{code:04X}");
        assert_eq!(trim_start_chars(&[c, 'x']).len() == 1, listed(c), "U+{code:04X}");
        assert_eq!(trim_end_chars(&['x', c]).len() == 1, listed(c), "U+{code:04X}");
        if listed(c) {
            count += 1;
        }
    }
    assert_eq!(count, 25);
}
