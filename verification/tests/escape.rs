use text_ingest::escape::convert;

fn decoded(quoted: &str) -> String {
    serde_json::from_str::<String>(quoted).expect("the output is a JSON string")
}

#[test]
fn ascii_passes_through_between_quotes() {
    assert_eq!(convert("plain text"), "\"plain text\"");
}

#[test]
fn empty_input_gives_two_quotes() {
    assert_eq!(convert(""), "\"\"");
}

#[test]
fn non_ascii_becomes_a_unicode_escape() {
    assert_eq!(convert("café"), "\"caf\\u00e9\"");
    assert_eq!(decoded(&convert("café")), "café");
}

#[test]
fn quote_and_backslash_are_escaped() {
    assert_eq!(convert("say \"hi\" \\ bye"), "\"say \\\"hi\\\" \\\\ bye\"");
}

#[test]
fn control_characters_get_their_json_escapes() {
    assert_eq!(convert("a\nb\tc\rd"), "\"a\\nb\\tc\\rd\"");
    assert_eq!(convert("\u{8}\u{c}"), "\"\\b\\f\"");
    assert_eq!(convert("\u{0}\u{1}\u{1f}"), "\"\\u0000\\u0001\\u001f\"");
}

#[test]
fn slash_is_not_escaped() {
    assert_eq!(convert("a/b"), "\"a/b\"");
}

#[test]
fn hex_digits_are_lower_case_and_four() {
    assert_eq!(convert("\u{abcd}"), "\"\\uabcd\"");
    assert_eq!(convert("\u{80}"), "\"\\u0080\"");
    assert_eq!(convert("\u{ffff}"), "\"\\uffff\"");
    assert_eq!(convert("日本"), "\"\\u65e5\\u672c\"");
}

#[test]
fn characters_above_the_basic_plane_become_surrogate_pairs() {
    assert_eq!(convert("😀"), "\"\\ud83d\\ude00\"");
    assert_eq!(convert("\u{10000}"), "\"\\ud800\\udc00\"");
    assert_eq!(convert("\u{10ffff}"), "\"\\udbff\\udfff\"");
}

#[test]
fn delete_stands_for_itself() {
    assert_eq!(convert("a\u{7f}b"), "\"a\u{7f}b\"");
}

#[test]
fn output_is_ascii_for_every_kind_of_character() {
    let input = "plain \"q\" \\ \n\t\u{0}\u{7f} café 日本 😀 \u{e000}\u{d7ff}\u{10ffff}";
    let out = convert(input);
    assert!(out.bytes().all(|b| (0x20..=0x7f).contains(&b)));
    assert!(out.is_ascii());
}

#[test]
fn output_is_printable_where_the_input_holds_no_delete() {
    let input = "plain \"q\" \\ \n\t\u{0} café 日本 😀";
    let out = convert(input);
    assert!(out.bytes().all(|b| (0x20..=0x7e).contains(&b)));
}

#[test]
fn a_json_decoder_gives_the_input_back() {
    let inputs = [
        "",
        "plain",
        "café",
        "\"\\/\u{8}\u{c}\n\r\t",
        "\u{0}\u{1}\u{1f}\u{20}\u{7e}\u{7f}\u{80}",
        "日本語のテキスト",
        "😀 and 𓀀 and \u{10ffff}",
        "\u{d7ff}\u{e000}\u{ffff}\u{10000}",
        "\\u00e9 is not é",
    ];
    for input in inputs {
        assert_eq!(decoded(&convert(input)), input);
    }
}

#[test]
fn every_character_up_to_the_third_plane_survives_the_round_trip() {
    let mut input = String::new();
    let mut code: u32 = 0;
    while code < 0x30000 {
        if let Some(c) = char::from_u32(code) {
            input.push(c);
        }
        code += 7;
    }
    assert_eq!(decoded(&convert(&input)), input);
}
