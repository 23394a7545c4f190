use metrics_exporter_csv::util::{sanitize_component, write_sanitized_component};

#[test]
fn sanitize_component_lowercases_and_replaces_whitespace_and_delimiters() {
    let input = "HeLLo  WORLD\tOk|Key=Value";
    let output = sanitize_component(input);
    assert_eq!(output, "hello__world_ok_key_value");
}

#[test]
fn sanitize_component_preserves_non_whitespace() {
    let input = "Metric-Name_123";
    let output = sanitize_component(input);
    assert_eq!(output, "metric-name_123");
}

#[test]
fn sanitized_components_are_appended() {
    let mut out = String::from("a=");
    write_sanitized_component(&mut out, "B C");
    assert_eq!(out, "a=b_c");
}

#[test]
fn letters_of_all_scripts_are_lowercased() {
    assert_eq!(sanitize_component("\u{c9}"), "\u{e9}");
    assert_eq!(sanitize_component("\u{d7}\u{de}\u{df}"), "\u{d7}\u{fe}\u{df}");
    assert_eq!(sanitize_component("\u{394}|\u{416}"), "\u{3b4}_\u{436}");
    assert_eq!(sanitize_component("\u{130}"), "i\u{307}");
    assert_eq!(sanitize_component("\u{5c71}"), "\u{5c71}");
}

#[test]
fn latin_capitals_stand_32_places_before_their_lower_case() {
    for code in 0..0x100_u32 {
        let c = char::from_u32(code).expect("character");
        let capital = c.is_ascii_uppercase() || (0xc0..=0xde).contains(&code) && code != 0xd7;
        let expected = char::from_u32(if capital { code + 32 } else { code }).expect("character");
        assert_eq!(c.to_lowercase().to_string(), expected.to_string());
    }
}

#[test]
fn sanitizing_twice_changes_nothing_more() {
    let once = sanitize_component("A\u{2003}b|C=\u{c4}");
    assert_eq!(once, "a_b_c_\u{e4}");
    assert_eq!(sanitize_component(&once), once);
}

#[test]
fn sanitizing_leaves_no_capital_letter() {
    let once = sanitize_component("ABCXYZ\u{212a}\u{130}\u{394}");
    assert_eq!(once, "abcxyzki\u{307}\u{3b4}");
    assert_eq!(sanitize_component(&once), once);
}

#[test]
fn every_character_is_sanitized_by_its_class() {
    for code in 0..=0x10ffff_u32 {
        if let Some(c) = char::from_u32(code) {
            let expected: String = c
                .to_lowercase()
                .map(|c| if c.is_whitespace() || c == '|' || c == '=' { '_' } else { c })
                .collect();
            let once = sanitize_component(&c.to_string());
            assert_eq!(once, expected);
            assert_eq!(sanitize_component(&once), once);
            assert!(!once.chars().any(|c| c.is_ascii_uppercase()));
        }
    }
}
