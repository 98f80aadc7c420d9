use html_prune::filter::{filter_tokens, modify_xml, HtmlToken};

fn start(name: &str, attrs: &[(&str, &str)]) -> HtmlToken {
    HtmlToken::StartTag {
        name: name.as_bytes().to_vec(),
        attributes: attrs
            .iter()
            .map(|(k, v)| (k.as_bytes().to_vec(), v.as_bytes().to_vec()))
            .collect(),
    }
}

fn end(name: &str) -> HtmlToken {
    HtmlToken::EndTag { name: name.as_bytes().to_vec() }
}

fn text(t: &str) -> HtmlToken {
    HtmlToken::Text { text: t.as_bytes().to_vec() }
}

#[test]
fn style_subtree_dropped() {
    let out = modify_xml("<div class=\"a\"><style>.a{color:red}</style><p>Hello</p></div>");
    assert_eq!(out, b"<div class=\"a\"><p>Hello</p></div>".to_vec());
}

#[test]
fn script_and_form_subtrees_dropped() {
    let out = modify_xml("<p>a</p><script>alert(1)</script><form><b>in</b></form><p>b</p>");
    assert_eq!(out, b"<p>a</p></b><p>b</p>".to_vec());
}

#[test]
fn comments_and_doctype_dropped() {
    let out = modify_xml("<!DOCTYPE html><!-- note --><p>x</p>");
    assert_eq!(out, b"<p>x</p>".to_vec());
}

#[test]
fn empty_document_gives_empty_output() {
    assert_eq!(modify_xml(""), Vec::<u8>::new());
}

#[test]
fn plain_tokens_kept_in_order() {
    let toks = vec![
        start("a", &[("z", "1"), ("b", "two words"), ("z", "3")]),
        text("t"),
        end("a"),
        HtmlToken::Comment { text: b"c".to_vec() },
        HtmlToken::Doctype { name: b"html".to_vec() },
        HtmlToken::Error,
        start("br", &[]),
    ];
    assert_eq!(
        filter_tokens(&toks),
        b"<a z=\"1\" b=\"two words\" z=\"3\">t</a><br>".to_vec()
    );
}

#[test]
fn attribute_values_copied_verbatim() {
    let toks = vec![start("i", &[("title", "say \"hi\"")])];
    assert_eq!(filter_tokens(&toks), b"<i title=\"say \"hi\"\">".to_vec());
}

#[test]
fn end_tags_of_other_names_pass_inside_ignored_subtree() {
    let toks = vec![
        start("script", &[]),
        start("p", &[("x", "y")]),
        text("hidden"),
        end("p"),
        end("script"),
        text("shown"),
    ];
    assert_eq!(filter_tokens(&toks), b"</p>shown".to_vec());
}

#[test]
fn first_ignored_end_tag_clears_suppression() {
    let toks = vec![
        start("form", &[]),
        start("form", &[]),
        text("a"),
        end("form"),
        text("b"),
        end("form"),
        text("c"),
    ];
    assert_eq!(filter_tokens(&toks), b"bc".to_vec());
}

#[test]
fn ignored_names_match_case_sensitively() {
    let toks = vec![start("Script", &[]), text("x"), end("Script")];
    assert_eq!(filter_tokens(&toks), b"<Script>x</Script>".to_vec());
}

#[test]
fn filter_is_idempotent_on_its_output() {
    let doc = "<div id=\"m\"><script>var a;</script><p>one</p><style>b{}</style><em>two</em></div>";
    let once = modify_xml(doc);
    let again = modify_xml(std::str::from_utf8(&once).unwrap());
    assert_eq!(again, once);
    assert_eq!(once, b"<div id=\"m\"><p>one</p><em>two</em></div>".to_vec());
}
