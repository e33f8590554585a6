use quo::sanitize::{
    convert_to_smart_quotes, remove_invisible_chars, replace_ambiguous_chars, sanitize_string,
    AttrKey, AttrValue, Content, HtmlBlock, SafeString, SanitizationRules,
};

fn cyrillic_rules() -> SanitizationRules {
    // Р -> P, у -> y, с -> c, А -> A, а -> a, С -> C, and NBSP -> space.
    let ambiguous = vec![(
        "_default".to_string(),
        vec![
            0x420, 0x50, 0x443, 0x79, 0x441, 0x63, 0x410, 0x41, 0x430, 0x61, 0x421, 0x43, 0xA0,
            0x20,
        ],
    )];
    // The zero-width space is invisible; NBSP is listed too but is
    // withheld because it has a substitution.
    let invisible = vec![("_common".to_string(), vec![0x200B, 0xA0])];
    SanitizationRules::from_data(invisible, ambiguous)
}

#[test]
fn test_content_sanitization() {
    let malicious_input = "<script>alert('XSS & Fun')</script>";
    let expected = "&lt;script&gt;alert(&#39;XSS &amp; Fun&#39;)&lt;/script&gt;";
    let sanitized_content = Content::from_str(malicious_input);
    assert_eq!(sanitized_content.into_inner(), expected);
}

#[test]
fn test_attr_value_sanitization() {
    let malicious_input = "\"><script>alert(\"danger\")</script>";
    let expected = "&quot;&gt;&lt;script&gt;alert(&quot;danger&quot;)&lt;/script&gt;";
    let sanitized_value = AttrValue::from_str(malicious_input);
    assert_eq!(sanitized_value.into_inner(), expected);
}

#[test]
fn test_trusted_types_do_not_sanitize() {
    let raw_html = "<div class='trusted'><span>Hello</span></div>";
    let raw_key = "data-trusted-id";

    let html_block = HtmlBlock::new_trusted(raw_html);
    let attr_key = AttrKey::new_trusted(raw_key);

    assert_eq!(html_block.into_inner(), raw_html);
    assert_eq!(attr_key.into_inner(), raw_key);
}

#[test]
fn test_smart_quotes_improved_logic() {
    let input_1 = "It's a beautiful day.";
    let expected_1 = "It\u{2019}s a beautiful day.";
    assert_eq!(convert_to_smart_quotes(input_1), expected_1);

    let input_2 = "'Hello world,' she said.";
    let expected_2 = "\u{2018}Hello world,\u{2019} she said.";
    assert_eq!(convert_to_smart_quotes(input_2), expected_2);

    let input_3 = "She replied, 'It's my cat.'";
    let expected_3 = "She replied, \u{2018}It\u{2019}s my cat.\u{2019}";
    assert_eq!(convert_to_smart_quotes(input_3), expected_3);

    let input_4 = "\"'Tis the season,' he sang.\"";
    let expected_4 = "\u{201C}\u{2018}Tis the season,\u{2019} he sang.\u{201D}";
    assert_eq!(convert_to_smart_quotes(input_4), expected_4);
}

#[test]
fn test_remove_invisible() {
    let rules = cyrillic_rules();
    let input = "Hello\u{200B}World";
    assert_eq!(remove_invisible_chars(input, &rules), "HelloWorld");
}

#[test]
fn test_replace_ambiguous() {
    let rules = cyrillic_rules();
    let input = "Русский Алфавит";
    let expected = "Pyccкий Aлфaвит";
    assert_eq!(replace_ambiguous_chars(input, &rules), expected);
}

#[test]
fn test_full_sanitization() {
    let rules = cyrillic_rules();
    let input = "С\u{200b}АША\u{00a0}the\u{00a0}spy";
    let expected = "CAШA the spy";

    assert_eq!(sanitize_string(input, &rules), expected);
}

#[test]
fn test_escape_scenario() {
    let escaped = Content::from_str("<script>alert('x & y')</script>");
    assert_eq!(
        escaped.into_inner(),
        "&lt;script&gt;alert(&#39;x &amp; y&#39;)&lt;/script&gt;"
    );
}

#[test]
fn test_smart_quotes_apostrophe_scenario() {
    let result = convert_to_smart_quotes("It's a \"test\"");
    assert_eq!(result, "It\u{2019}s a \u{201C}test\u{201D}");
}

#[test]
fn test_smart_quotes_idempotent_on_curly() {
    let once = convert_to_smart_quotes("She said, \"don't 'quote' me\"");
    let twice = convert_to_smart_quotes(&once);
    assert_eq!(once, twice);

    let curly = "\u{201C}already \u{2018}curly\u{2019}\u{201D}";
    assert_eq!(convert_to_smart_quotes(curly), curly);
}

#[test]
fn test_invalid_codepoints_are_skipped() {
    // 0xD800 is a surrogate, not a character: the pair is dropped.
    let ambiguous = vec![("_default".to_string(), vec![0xD800, 0x41, 0x42, 0x43])];
    let rules = SanitizationRules::from_data(vec![], ambiguous);
    assert_eq!(replace_ambiguous_chars("AB", &rules), "AC");
}

#[test]
fn test_escaped_values_equal_by_content() {
    let a = Content::from_str("x < y");
    let b = Content::from_str("x < y");
    let c = Content::from_str("x > y");
    assert_eq!(a, b);
    assert_ne!(a, c);
}
