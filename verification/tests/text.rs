use cfg_loader::chars::{is_whitespace, string_from, to_chars};
use cfg_loader::get_variable_map;
use cfg_loader::trim::trim_bounds;
use std::collections::BTreeMap;

#[test]
fn whitespace_is_what_the_standard_library_calls_whitespace() {
    for code in 0..=0x10FFFFu32 {
        if let Some(c) = char::from_u32(code) {
            assert_eq!(is_whitespace(c), c.is_whitespace(), "U+{:04X}", code);
        }
    }
}

#[test]
fn whitespace_of_common_characters() {
    for c in [' ', '\t', '\n', '\r', '\u{b}', '\u{c}', '\u{85}', '\u{a0}', '\u{3000}'] {
        assert!(is_whitespace(c));
    }
    for c in ['a', '=', '#', '0', '_', '\0', '\u{8}', '\u{e}', '\u{200b}', '\u{180e}', '\u{feff}'] {
        assert!(!is_whitespace(c));
    }
}

#[test]
fn to_chars_gives_each_character() {
    assert_eq!(to_chars(""), Vec::<char>::new());
    assert_eq!(to_chars("a=b"), vec!['a', '=', 'b']);
    assert_eq!(to_chars("é値\n"), vec!['é', '値', '\n']);
}

#[test]
fn to_string_gives_the_range() {
    let chars = to_chars("héllo wörld");

    assert_eq!(string_from(&chars, 0, 11), "héllo wörld");
    assert_eq!(string_from(&chars, 0, 5), "héllo");
    assert_eq!(string_from(&chars, 6, 11), "wörld");
    assert_eq!(string_from(&chars, 1, 2), "é");
    assert_eq!(string_from(&chars, 4, 4), "");
    assert_eq!(string_from(&chars, 11, 11), "");
}

#[test]
fn trim_bounds_cuts_both_ends() {
    let chars = to_chars("  ab c \t");

    assert_eq!(trim_bounds(&chars, 0, 8), (2, 6));
    assert_eq!(trim_bounds(&chars, 2, 6), (2, 6));
    assert_eq!(trim_bounds(&chars, 0, 3), (2, 3));
    assert_eq!(trim_bounds(&chars, 3, 8), (3, 6));
}

#[test]
fn trim_bounds_of_blank_range_is_empty() {
    let chars = to_chars("a \t\n b");

    let (lo, hi) = trim_bounds(&chars, 1, 5);
    assert_eq!(lo, hi);
    let (lo, hi) = trim_bounds(&chars, 3, 3);
    assert_eq!((lo, hi), (3, 3));
    let (lo, hi) = trim_bounds(&chars, 0, 0);
    assert_eq!((lo, hi), (0, 0));
}

#[test]
fn trim_bounds_agrees_with_str_trim() {
    let texts = [
        "",
        " ",
        "a",
        " a",
        "a ",
        " a b ",
        "\t\r\n x \u{a0}\u{3000}",
        "\u{2003}é\u{2003}é\u{2003}",
        "\u{200b} a \u{200b}",
        "   ",
    ];
    for text in texts {
        let chars = to_chars(text);
        let (lo, hi) = trim_bounds(&chars, 0, chars.len());
        assert_eq!(string_from(&chars, lo, hi), text.trim());
    }
}

fn by_std(text: &str) -> BTreeMap<String, String> {
    let mut map = BTreeMap::new();
    for line in text.split('\n') {
        if let Some((key, value)) = line.split_once('=') {
            map.insert(key.trim().to_string(), value.trim().to_string());
        }
    }
    map
}

#[test]
fn parsing_agrees_with_the_standard_string_functions() {
    let texts = [
        "",
        "\n",
        "=",
        "==",
        "=\n=",
        "a",
        "a=",
        "=a",
        "a=b",
        "a=b\n",
        "\na=b",
        "a=b\n\nc=d",
        "a = b = c",
        " a=1 \n a =2\na= 3",
        "a=1\r\nb=2\r\n",
        "\r=\r",
        "k\u{a0}=\u{3000}v\u{85}\nk\u{200b}=v",
        "x=\u{b}\u{c}y\u{b}",
        "one\ntwo=2\nthree\nfour = 4 = 4\n",
        "tab\t=\tsep\nsp ace = in side",
        "ключ=значение\nключ = другое",
        "\u{2028}=\u{2029}",
        "a=1\n\n\n\n",
    ];
    for text in texts {
        let expected = by_std(text);
        let varmap = get_variable_map(text.to_string());
        assert_eq!(varmap.len(), expected.len(), "{:?}", text);
        for (key, value) in expected.iter() {
            assert_eq!(varmap.get_val(key), Some(value.as_str()), "{:?}", text);
        }
    }
}
