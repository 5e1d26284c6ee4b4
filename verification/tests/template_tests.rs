use rustache::parser::parse_nodes;
use rustache::parser::Node;
use rustache::parser::Token;
use rustache::template::Template;
use rustache::template::TemplateError;
use rustache::Data;
use rustache::Lambda;
use rustache::RustacheError;

struct NoLambda;

impl Lambda for NoLambda {
    fn call(&self, _text: String) -> String {
        String::new()
    }
}

struct Bracketer;

impl Lambda for Bracketer {
    fn call(&self, text: String) -> String {
        format!("[{}]", text)
    }
}

fn no_partials() -> Vec<(String, Vec<Node>)> {
    vec![]
}

#[test]
fn test_escape_html() {
    let s1 = "a < b > c & d \"spam\"\'";
    let a1 = "a &lt; b &gt; c &amp; d &quot;spam&quot;'";
    let s2 = "1<2 <b>hello</b>";
    let a2 = "1&lt;2 &lt;b&gt;hello&lt;/b&gt;";

    let tokens: Vec<Token> = vec![Token::Variable("value".to_string(), "{{ value }}".to_string())];
    let nodes = parse_nodes(&tokens);
    let data: Vec<(String, Data<NoLambda>)> =
        vec![("value".to_string(), Data::Strng(s1.to_string()))];
    let out = Template::render_data(&nodes, &data, &no_partials()).unwrap();
    assert_eq!(a1, out);

    let data: Vec<(String, Data<NoLambda>)> =
        vec![("value".to_string(), Data::Strng(s2.to_string()))];
    let out = Template::render_data(&nodes, &data, &no_partials()).unwrap();
    assert_eq!(a2, out);
}

#[test]
fn test_not_escape_html() {
    let s2 = "1<2 <b>hello</b>";
    let tokens: Vec<Token> = vec![Token::Raw("value".to_string(), "{{& value }}".to_string())];
    let nodes = parse_nodes(&tokens);
    let data: Vec<(String, Data<NoLambda>)> =
        vec![("value".to_string(), Data::Strng(s2.to_string()))];
    let out = Template::render_data(&nodes, &data, &no_partials()).unwrap();
    assert_eq!(s2, out);
}

#[test]
fn test_render_to_io_stream() {
    let tokens: Vec<Token> = vec![
        Token::Text("<h1>".to_string()),
        Token::Variable("value1".to_string(), "{{ value1 }}".to_string()),
        Token::Text("</h1>".to_string()),
    ];
    let nodes = parse_nodes(&tokens);
    let data: Vec<(String, Data<NoLambda>)> =
        vec![("value1".to_string(), Data::Strng("The heading".to_string()))];
    let out = Template::render_data(&nodes, &data, &no_partials()).unwrap();
    assert_eq!("<h1>The heading</h1>".to_string(), out);
}

#[test]
fn test_unescaped_node_correct_string_data() {
    let tokens: Vec<Token> = vec![
        Token::Text("<h1>".to_string()),
        Token::Variable("value1".to_string(), "{{ value1 }}".to_string()),
        Token::Text("</h1>".to_string()),
    ];
    let nodes = parse_nodes(&tokens);
    let data: Vec<(String, Data<NoLambda>)> =
        vec![("value1".to_string(), Data::Strng("The heading".to_string()))];
    let out = Template::render_data(&nodes, &data, &no_partials()).unwrap();
    assert_eq!("<h1>The heading</h1>".to_string(), out);
}

#[test]
fn test_unescaped_node_correct_bool_data() {
    let tokens: Vec<Token> = vec![Token::Variable(
        "value1".to_string(),
        "{{ value1 }}".to_string(),
    )];
    let nodes = parse_nodes(&tokens);
    let data: Vec<(String, Data<NoLambda>)> = vec![("value1".to_string(), Data::Bool(true))];
    let out = Template::render_data(&nodes, &data, &no_partials()).unwrap();
    assert_eq!("true".to_string(), out);
}

#[test]
fn test_unescaped_node_incorrect_vector_data() {
    let tokens: Vec<Token> = vec![
        Token::Text("<h1>".to_string()),
        Token::Variable("value1".to_string(), "{{ value1 }}".to_string()),
        Token::Text("</h1>".to_string()),
    ];
    let nodes = parse_nodes(&tokens);
    let data: Vec<(String, Data<NoLambda>)> = vec![(
        "value1".to_string(),
        Data::Vector(vec![Data::Strng("Prophet Velen".to_string())]),
    )];
    let result = Template::render_data(&nodes, &data, &no_partials());
    assert!(matches!(
        result,
        Err(RustacheError::TemplateErrorType(TemplateError::RenderTypeError(_)))
    ));
}

#[test]
fn test_unescaped_node_incorrect_hash_data() {
    let tokens: Vec<Token> = vec![
        Token::Text("<h1>".to_string()),
        Token::Variable("value1".to_string(), "{{ value1 }}".to_string()),
        Token::Text("</h1>".to_string()),
    ];
    let nodes = parse_nodes(&tokens);
    let data: Vec<(String, Data<NoLambda>)> = vec![(
        "value1".to_string(),
        Data::Hash(vec![(
            "name".to_string(),
            Data::Strng("Hearthstone: Heroes of Warcraft".to_string()),
        )]),
    )];
    let result = Template::render_data(&nodes, &data, &no_partials());
    assert!(matches!(
        result,
        Err(RustacheError::TemplateErrorType(TemplateError::RenderTypeError(_)))
    ));
}

#[test]
fn test_inverted_section_on_missing_key() {
    let present: Vec<Token> = vec![
        Token::OTag("missing".to_string(), true, "{{^ missing }}".to_string()),
        Token::Text("X".to_string()),
        Token::CTag("missing".to_string(), "{{/ missing }}".to_string()),
    ];
    let nodes = parse_nodes(&present);
    let data: Vec<(String, Data<NoLambda>)> = vec![];
    let out = Template::render_data(&nodes, &data, &no_partials()).unwrap();
    assert_eq!("X", out);

    let normal: Vec<Token> = vec![
        Token::OTag("missing".to_string(), false, "{{# missing }}".to_string()),
        Token::Text("X".to_string()),
        Token::CTag("missing".to_string(), "{{/ missing }}".to_string()),
    ];
    let nodes = parse_nodes(&normal);
    let out = Template::render_data(&nodes, &data, &no_partials()).unwrap();
    assert_eq!("", out);
}

#[test]
fn test_list_section_renders_each_element() {
    let tokens: Vec<Token> = vec![
        Token::OTag("items".to_string(), false, "{{# items }}".to_string()),
        Token::Variable("name".to_string(), "{{ name }}".to_string()),
        Token::CTag("items".to_string(), "{{/ items }}".to_string()),
    ];
    let nodes = parse_nodes(&tokens);
    let data: Vec<(String, Data<NoLambda>)> = vec![(
        "items".to_string(),
        Data::Vector(vec![
            Data::Hash(vec![("name".to_string(), Data::Strng("a".to_string()))]),
            Data::Hash(vec![("name".to_string(), Data::Strng("b".to_string()))]),
        ]),
    )];
    let out = Template::render_data(&nodes, &data, &no_partials()).unwrap();
    assert_eq!("ab", out);
}

#[test]
fn test_integer_and_float_rendering() {
    let tokens: Vec<Token> = vec![
        Token::Variable("n".to_string(), "{{ n }}".to_string()),
        Token::Text(" ".to_string()),
        Token::Variable("z".to_string(), "{{ z }}".to_string()),
        Token::Text(" ".to_string()),
        Token::Variable("f".to_string(), "{{ f }}".to_string()),
        Token::Text(" ".to_string()),
        Token::Variable("no".to_string(), "{{ no }}".to_string()),
    ];
    let nodes = parse_nodes(&tokens);
    let data: Vec<(String, Data<NoLambda>)> = vec![
        ("n".to_string(), Data::Integer(-42)),
        ("z".to_string(), Data::Integer(0)),
        ("f".to_string(), Data::Float("3.25".to_string())),
        ("no".to_string(), Data::Bool(false)),
    ];
    let out = Template::render_data(&nodes, &data, &no_partials()).unwrap();
    assert_eq!("-42 0 3.25 false", out);
}

#[test]
fn test_hash_section_pushes_scope() {
    let tokens: Vec<Token> = vec![
        Token::OTag("person".to_string(), false, "{{# person }}".to_string()),
        Token::Variable("name".to_string(), "{{ name }}".to_string()),
        Token::Text("/".to_string()),
        Token::Variable("outer".to_string(), "{{ outer }}".to_string()),
        Token::CTag("person".to_string(), "{{/ person }}".to_string()),
    ];
    let nodes = parse_nodes(&tokens);
    let data: Vec<(String, Data<NoLambda>)> = vec![
        ("outer".to_string(), Data::Strng("o".to_string())),
        (
            "person".to_string(),
            Data::Hash(vec![("name".to_string(), Data::Strng("n".to_string()))]),
        ),
    ];
    let out = Template::render_data(&nodes, &data, &no_partials()).unwrap();
    assert_eq!("n/o", out);
}

#[test]
fn test_partial_renders_in_current_scope() {
    let tokens: Vec<Token> = vec![
        Token::Text("pre ".to_string()),
        Token::Partial("greet".to_string(), "{{> greet }}".to_string()),
        Token::Text(" post".to_string()),
    ];
    let nodes = parse_nodes(&tokens);
    let partial_tokens: Vec<Token> = vec![Token::Variable(
        "name".to_string(),
        "{{ name }}".to_string(),
    )];
    let partials: Vec<(String, Vec<Node>)> =
        vec![("greet".to_string(), parse_nodes(&partial_tokens))];
    let data: Vec<(String, Data<NoLambda>)> =
        vec![("name".to_string(), Data::Strng("world".to_string()))];
    let out = Template::render_data(&nodes, &data, &partials).unwrap();
    assert_eq!("pre world post", out);
}

#[test]
fn test_unknown_partial_renders_nothing() {
    let tokens: Vec<Token> = vec![
        Token::Text("a".to_string()),
        Token::Partial("nowhere".to_string(), "{{> nowhere }}".to_string()),
        Token::Text("b".to_string()),
    ];
    let nodes = parse_nodes(&tokens);
    let data: Vec<(String, Data<NoLambda>)> = vec![];
    let out = Template::render_data(&nodes, &data, &no_partials()).unwrap();
    assert_eq!("ab", out);
}

#[test]
fn test_lambda_section_gets_raw_inner_text() {
    let tokens: Vec<Token> = vec![
        Token::OTag("wrap".to_string(), false, "{{# wrap }}".to_string()),
        Token::Text("inner ".to_string()),
        Token::Variable("x".to_string(), "{{ x }}".to_string()),
        Token::CTag("wrap".to_string(), "{{/ wrap }}".to_string()),
    ];
    let nodes = parse_nodes(&tokens);
    let data: Vec<(String, Data<Bracketer>)> = vec![("wrap".to_string(), Data::Lambda(Bracketer))];
    let out = Template::render_data(&nodes, &data, &no_partials()).unwrap();
    assert_eq!("[inner {{ x }}]", out);
}

#[test]
fn test_template_new() {
    let _t: Template = Template::new();
}

#[test]
fn test_error_descriptions() {
    let e = RustacheError::JsonError("bad json".to_string());
    assert_eq!("bad json", e.description());
    let e = RustacheError::FileError("no file".to_string());
    assert_eq!("no file", e.description());
    let e = RustacheError::TemplateErrorType(TemplateError::RenderTypeError(
        "expecting text, found vector data".to_string(),
    ));
    assert_eq!("expecting text, found vector data", e.description());
}

#[test]
fn test_data_eq() {
    let a: Data<NoLambda> = Data::Vector(vec![
        Data::Strng("x".to_string()),
        Data::Integer(3),
        Data::Bool(true),
    ]);
    let b: Data<NoLambda> = Data::Vector(vec![
        Data::Strng("x".to_string()),
        Data::Integer(3),
        Data::Bool(true),
    ]);
    assert_eq!(Ok(true), a.data_eq(&b));
    let c: Data<NoLambda> = Data::Vector(vec![Data::Strng("x".to_string())]);
    assert_eq!(Ok(false), a.data_eq(&c));
    let h1: Data<NoLambda> =
        Data::Hash(vec![("k".to_string(), Data::Float("1.5".to_string()))]);
    let h2: Data<NoLambda> =
        Data::Hash(vec![("k".to_string(), Data::Float("1.5".to_string()))]);
    assert_eq!(Ok(true), h1.data_eq(&h2));
    assert_eq!(Ok(false), h1.data_eq(&a));
}

#[test]
fn test_data_eq_lambda_comparison_fails() {
    let a: Data<NoLambda> = Data::Lambda(NoLambda);
    let b: Data<NoLambda> = Data::Lambda(NoLambda);
    let result = a.data_eq(&b);
    assert!(matches!(
        result,
        Err(RustacheError::TemplateErrorType(TemplateError::RenderTypeError(_)))
    ));
}

#[test]
fn test_escape_not_idempotent_on_special_text() {
    let x = "1<2 & \"q\"";
    let once = Template::escape_html(x);
    let twice = Template::escape_html(&once);
    assert_ne!(once, twice);

    let plain = "no special characters here";
    let once = Template::escape_html(plain);
    let twice = Template::escape_html(&once);
    assert_eq!(plain, once);
    assert_eq!(once, twice);
}

#[test]
fn test_inverted_section_on_empty_list() {
    let tokens: Vec<Token> = vec![
        Token::OTag("items".to_string(), true, "{{^ items }}".to_string()),
        Token::Text("none".to_string()),
        Token::CTag("items".to_string(), "{{/ items }}".to_string()),
    ];
    let nodes = parse_nodes(&tokens);
    let data: Vec<(String, Data<NoLambda>)> = vec![("items".to_string(), Data::Vector(vec![]))];
    let out = Template::render_data(&nodes, &data, &no_partials()).unwrap();
    assert_eq!("none", out);

    let data: Vec<(String, Data<NoLambda>)> = vec![(
        "items".to_string(),
        Data::Vector(vec![Data::Integer(1)]),
    )];
    let out = Template::render_data(&nodes, &data, &no_partials()).unwrap();
    assert_eq!("", out);
}

#[test]
fn test_cyclic_partial_terminates() {
    let tokens: Vec<Token> = vec![
        Token::Text("x".to_string()),
        Token::Partial("again".to_string(), "{{> again }}".to_string()),
    ];
    let nodes = parse_nodes(&tokens);
    let partials: Vec<(String, Vec<Node>)> = vec![("again".to_string(), parse_nodes(&tokens))];
    let data: Vec<(String, Data<NoLambda>)> = vec![];
    let out = Template::render_data(&nodes, &data, &partials).unwrap();
    assert_eq!("x".repeat(65), out);
}

#[test]
fn test_scalar_section_is_truthy() {
    let tokens: Vec<Token> = vec![
        Token::OTag("name".to_string(), false, "{{# name }}".to_string()),
        Token::Text("yes".to_string()),
        Token::CTag("name".to_string(), "{{/ name }}".to_string()),
    ];
    let nodes = parse_nodes(&tokens);
    let data: Vec<(String, Data<NoLambda>)> =
        vec![("name".to_string(), Data::Strng("hi".to_string()))];
    let out = Template::render_data(&nodes, &data, &no_partials()).unwrap();
    assert_eq!("yes", out);
}

#[test]
fn test_render_empty_template() {
    let tokens: Vec<Token> = vec![];
    let nodes = parse_nodes(&tokens);
    assert!(nodes.is_empty());
    let data: Vec<(String, Data<NoLambda>)> = vec![];
    let out = Template::render_data(&nodes, &data, &no_partials()).unwrap();
    assert_eq!("", out);
}

#[test]
fn test_escape_html_directly() {
    assert_eq!(
        "a &lt; b &gt; c &amp; d &quot;spam&quot;'",
        Template::escape_html("a < b > c & d \"spam\"\'")
    );
    assert_eq!("", Template::escape_html(""));
    assert_eq!("héllo wörld", Template::escape_html("héllo wörld"));
}

#[test]
fn test_integer_extremes_render() {
    let tokens: Vec<Token> = vec![
        Token::Variable("lo".to_string(), "{{ lo }}".to_string()),
        Token::Text(" ".to_string()),
        Token::Variable("hi".to_string(), "{{ hi }}".to_string()),
    ];
    let nodes = parse_nodes(&tokens);
    let data: Vec<(String, Data<NoLambda>)> = vec![
        ("lo".to_string(), Data::Integer(i32::MIN)),
        ("hi".to_string(), Data::Integer(i32::MAX)),
    ];
    let out = Template::render_data(&nodes, &data, &no_partials()).unwrap();
    assert_eq!("-2147483648 2147483647", out);
}

#[test]
fn test_missing_value_renders_nothing() {
    let tokens: Vec<Token> = vec![
        Token::Text("a".to_string()),
        Token::Variable("gone".to_string(), "{{ gone }}".to_string()),
        Token::Text("b".to_string()),
    ];
    let nodes = parse_nodes(&tokens);
    let data: Vec<(String, Data<NoLambda>)> = vec![];
    let out = Template::render_data(&nodes, &data, &no_partials()).unwrap();
    assert_eq!("ab", out);
}

#[test]
fn test_innermost_scope_wins() {
    let tokens: Vec<Token> = vec![
        Token::OTag("inner".to_string(), false, "{{# inner }}".to_string()),
        Token::Variable("k".to_string(), "{{ k }}".to_string()),
        Token::CTag("inner".to_string(), "{{/ inner }}".to_string()),
    ];
    let nodes = parse_nodes(&tokens);
    let data: Vec<(String, Data<NoLambda>)> = vec![
        ("k".to_string(), Data::Strng("outer".to_string())),
        (
            "inner".to_string(),
            Data::Hash(vec![("k".to_string(), Data::Strng("shadow".to_string()))]),
        ),
    ];
    let out = Template::render_data(&nodes, &data, &no_partials()).unwrap();
    assert_eq!("shadow", out);
}
