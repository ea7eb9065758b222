use loom::html::{
    attr_val, close_tag, open_section, open_tag, tag, text_markup, HtmlOutput, HtmlStyle,
};

fn style(t: &str, header: Option<&str>) -> HtmlStyle {
    HtmlStyle { tag: t.to_string(), header: header.map(|h| h.to_string()) }
}

fn output() -> HtmlOutput {
    HtmlOutput {
        styles: vec![
            ("chapter".to_string(), style("section", Some("h1"))),
            ("*".to_string(), style("div", None)),
            ("list".to_string(), style("ul", None)),
        ],
    }
}

#[test]
fn names_are_written_unchanged() {
    assert_eq!(tag("section"), "section");
    assert_eq!(attr_val("a b"), "a b");
}

#[test]
fn a_section_has_its_own_style() {
    let o = output();
    assert_eq!(o.style("chapter"), Some(&style("section", Some("h1"))));
    assert_eq!(o.style("list"), Some(&style("ul", None)));
}

#[test]
fn a_section_without_a_style_has_the_default_one() {
    let o = output();
    assert_eq!(o.style("quote"), Some(&style("div", None)));
}

#[test]
fn no_style_without_a_default() {
    let o = HtmlOutput { styles: vec![("list".to_string(), style("ul", None))] };
    assert_eq!(o.style("quote"), None);
    assert_eq!(o.style("list"), Some(&style("ul", None)));
}

#[test]
fn tags() {
    assert_eq!(open_tag("h1"), "<h1>");
    assert_eq!(close_tag("section"), "</section>");
    assert_eq!(open_section("section", "chapter"), r#"<section name="chapter">"#);
}

#[test]
fn plain_words_are_kept() {
    assert_eq!(text_markup("Hello"), b"<w>Hello</w>".to_vec());
    assert_eq!(text_markup("Grüße 42"), "<w>Grüße 42</w>".as_bytes().to_vec());
    assert_eq!(text_markup(""), b"<w></w>".to_vec());
}

#[test]
fn special_characters_are_escaped() {
    assert_eq!(text_markup("<a>&b"), b"<w>&lt;a&gt;&amp;b</w>".to_vec());
    assert_eq!(text_markup("\"x\""), b"<w>&#34;x&#34;</w>".to_vec());
}

#[test]
fn every_escaped_character() {
    assert_eq!(
        text_markup("'`!$%()+=@[]{}"),
        b"<w>&#39;&#96;&#33;&#36;&#37;&#40;&#41;&#43;&#61;&#64;&#91;&#93;&#123;&#125;</w>".to_vec()
    );
    assert_eq!(text_markup("a.b,c-d_e#f"), b"<w>a.b,c-d_e#f</w>".to_vec());
}
