use quo::attributes::{AttrBuilder, AttrValues};
use quo::elements::{Div, H1, H2, Img};
use quo::node::{Element, Node};
use quo::renderer::{HtmlRenderer, Renderer};
use quo::rules::{DefaultPunc, Punctuation, RuleList, Rules, SanitizationRules};
use quo::trust::{AttrValue, Content, HtmlBlock, SafeString};

fn plain_rules() -> quo::rules::Default {
    quo::rules::Default::new(Vec::new(), SanitizationRules::new(vec![], vec![]))
}

fn render(node: &quo::node::IRNode) -> String {
    node.accept(HtmlRenderer::new()).finalize().as_str().to_string()
}

#[test]
fn test_render_div_with_text_child() {
    let rule = plain_rules();
    let div = Div::new(
        AttrBuilder::global(),
        vec![Element::Text(Content::from_str("Hi", &rule))],
    );
    assert_eq!(render(&div.to_irnode()), "<div>Hi</div>");
}

#[test]
fn test_render_void_img_with_attributes() {
    let rule = plain_rules();
    let img = Img::new(
        AttrBuilder::image()
            .src(AttrValue::from_str("a.png", &rule))
            .alt(AttrValue::from_str("A", &rule)),
    );
    assert_eq!(render(&img.to_irnode()), "<img alt=\"A\" src=\"a.png\" >");
}

#[test]
fn test_render_nested_structure() {
    let rule = plain_rules();
    let title = H1::new(AttrBuilder::global(), Content::from_str("Welcome", &rule));
    let subtitle = H2::new(AttrBuilder::global(), Content::from_str("x > 0", &rule));
    let div = Div::new(
        AttrBuilder::global().id(AttrValue::from_str("page", &rule)),
        vec![
            Element::Node(title.to_irnode()),
            Element::Node(subtitle.to_irnode()),
        ],
    );
    assert_eq!(
        render(&div.to_irnode()),
        "<div id=\"page\"><h1>Welcome</h1><h2>x &gt; 0</h2></div>"
    );
}

#[test]
fn test_render_raw_fragment_verbatim() {
    let div = Div::new(
        AttrBuilder::global(),
        vec![Element::Raw(HtmlBlock::from_str("<svg><path/></svg>"))],
    );
    assert_eq!(render(&div.to_irnode()), "<div><svg><path/></svg></div>");
}

#[test]
fn test_trusted_kinds_round_trip() {
    let block = HtmlBlock::from_str("<em>kept as is</em>");
    assert_eq!(block.as_str(), "<em>kept as is</em>");
    let key = quo::trust::AttrKey::from_str("data-x");
    assert_eq!(key.as_str(), "data-x");
}

#[test]
fn test_rules_apply_all_stages() {
    // 0x3000 (ideographic space) maps to a plain space; 0x200B vanishes.
    let tables = SanitizationRules::new(
        vec![("_common".to_string(), vec![0x200B])],
        vec![("_default".to_string(), vec![0x3000, 0x20])],
    );
    let rule = quo::rules::Default::new(vec![RuleList::All], tables);
    let output = rule.apply("a\u{3000}b\u{200B}c says 'hi'");
    assert_eq!(output, "a bc says \u{2018}hi\u{2019}");
}

#[test]
fn test_rules_single_stages() {
    let tables = SanitizationRules::new(
        vec![("_common".to_string(), vec![0x200B])],
        vec![("_default".to_string(), vec![0x3000, 0x20])],
    );
    let rule = quo::rules::Default::new(
        vec![RuleList::AmbiguousChar, RuleList::InvisibleCharacters],
        tables,
    );
    assert_eq!(rule.apply("a\u{3000}b\u{200B}c"), "a bc");
    assert_eq!(rule.replace_ambiguous_chars("x\u{3000}y"), "x y");
    assert_eq!(rule.remove_invisible_chars("x\u{200B}y"), "xy");
    assert_eq!(rule.punctuation_rule("\"q\""), "\u{201C}q\u{201D}");
}

#[test]
fn test_locale_fallback_chain() {
    let tables = SanitizationRules::new(
        vec![
            ("_common".to_string(), vec![0x200B]),
            ("zh".to_string(), vec![0xFEFF]),
        ],
        vec![
            ("zh".to_string(), vec![0x3000, 0x20]),
            ("_default".to_string(), vec![0xFF12, 0x32]),
        ],
    );
    // Exact locale is absent, so `zh-hans` falls back to `zh`.
    let map = tables.get_ambiguous_pairs("zh-hans").unwrap();
    assert_eq!(map.get('\u{3000}'), Some(' '));
    assert_eq!(map.get('\u{FF12}'), None);
    // A locale with no tier of its own reaches `_default`.
    let map = tables.get_ambiguous_pairs("ko").unwrap();
    assert_eq!(map.get('\u{FF12}'), Some('2'));
    // Invisible sets always include `_common`, plus the base language.
    let set = tables.get_invisible_chars("zh-hans");
    assert!(set.contains('\u{200B}'));
    assert!(set.contains('\u{FEFF}'));
    let set = tables.get_invisible_chars("ko");
    assert!(set.contains('\u{200B}'));
    assert!(!set.contains('\u{FEFF}'));
}

#[test]
fn test_punctuation_glyphs() {
    assert_eq!(DefaultPunc::ellipsis(), '\u{2026}');
    assert_eq!(DefaultPunc::en_dash(), '\u{2013}');
    assert_eq!(DefaultPunc::em_dash(), '\u{2013}');
}

#[test]
fn test_escaped_content_applies_ruleset_first() {
    // The ruleset turns straight quotes curly before escaping, so no
    // straight quote remains to be escaped.
    let tables = SanitizationRules::new(vec![], vec![]);
    let rule = quo::rules::Default::new(vec![RuleList::All], tables);
    let content = Content::from_str("it's <b>", &rule);
    assert_eq!(content.as_str(), "it\u{2019}s &lt;b&gt;");
}
