use life::error::AppError;
use life::html::render::render;
use life::htmlc::error::TemplateError;
use life::htmlc::token::{generate_r, parse_html, Token};
use life::http::error::HttpError;
use life::util::{decode_form, escape_html};

#[test]
fn render_wraps_the_child_between_siblings() {
    assert_eq!(render("p", "hi", "<a>", "<b>"), "<a><p>hi</p><b>");
}

#[test]
fn legacy_templates_fill_placeholders_at_build_time() {
    let tokens = parse_html("<h1>{title}</h1>");
    assert!(matches!(&tokens[0], Token::Literal(l) if l == "<h1>"));
    assert!(matches!(&tokens[1], Token::Variable(v) if v == "title"));
    assert!(matches!(&tokens[2], Token::Literal(l) if l == "</h1>"));
    let code = generate_r(tokens, "Page", &[("title", "Hello")]);
    assert_eq!(
        code,
        "pub fn template_page(out: &mut String) {out.push_str(\"<h1>\");out.push_str(\"Hello\");out.push_str(\"</h1>\");}"
    );
}

#[test]
fn error_messages() {
    assert_eq!(AppError::RequestLineInvalid.message(), "Invalid Request Line");
    assert_eq!(
        HttpError::FormMissingField("name".into()).message(),
        "Missing form field: name"
    );
    assert_eq!(TemplateError::InvalidOperation.message(), "Invalid Operation");
}

#[test]
fn escaping_replaces_every_special_character() {
    let mut out = String::from(">");
    escape_html("<a href='x'>\"&\"</a>", &mut out);
    assert_eq!(
        out,
        ">&lt;a href=&#x27;x&#x27;&gt;&quot;&amp;&quot;&lt;/a&gt;"
    );
}

#[test]
fn form_decoding_handles_plus_and_percent() {
    assert_eq!(decode_form(b"a+b%2Bc").unwrap(), "a b+c");
    assert!(decode_form(b"%zz").is_err());
    assert!(decode_form(b"%FF").is_err());
}

#[test]
fn escape_html_appends_all_text_escapes_to_the_existing_buffer() {
    let mut output = String::from("prefix:");

    escape_html("&<>\"'", &mut output);

    assert_eq!(output, "prefix:&amp;&lt;&gt;&quot;&#x27;");
}
