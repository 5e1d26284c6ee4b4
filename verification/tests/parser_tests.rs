use rustache::parser::parse_nodes;
use rustache::parser::Node;
use rustache::parser::Token;

#[test]
fn parse_dot_notation() {
    let tokens: Vec<Token> = vec![Token::Variable(
        "section.child_tag".to_string(),
        "{{ section.child_tag }}".to_string(),
    )];
    let nodes = parse_nodes(&tokens);
    let expected: Vec<Node> = vec![Node::Section(
        "section".to_string(),
        vec![Node::Value("child_tag".to_string(), "{{child_tag}}".to_string())],
        false,
        "{{#section}}".to_string(),
        "{{/section}}".to_string(),
    )];
    assert_eq!(nodes, expected);

    let tokens: Vec<Token> = vec![Token::Raw(
        "section.child_tag".to_string(),
        "{{& section.child_tag }}".to_string(),
    )];
    let nodes = parse_nodes(&tokens);
    let expected: Vec<Node> = vec![Node::Section(
        "section".to_string(),
        vec![Node::Unescaped("child_tag".to_string(), "{{&child_tag}}".to_string())],
        false,
        "{{#section}}".to_string(),
        "{{/section}}".to_string(),
    )];
    assert_eq!(nodes, expected);

    let tokens: Vec<Token> = vec![Token::Raw(
        "section.child_tag".to_string(),
        "{{{ section.child_tag }}}".to_string(),
    )];
    let nodes = parse_nodes(&tokens);
    let expected: Vec<Node> = vec![Node::Section(
        "section".to_string(),
        vec![Node::Unescaped("child_tag".to_string(), "{{{child_tag}}}".to_string())],
        false,
        "{{#section}}".to_string(),
        "{{/section}}".to_string(),
    )];
    assert_eq!(nodes, expected);
}

#[test]
fn parse_static() {
    let tokens: Vec<Token> = vec![Token::Text("Static String ".to_string())];
    let nodes = parse_nodes(&tokens);
    let expected: Vec<Node> = vec![Node::Static("Static String ".to_string())];
    assert_eq!(nodes, expected);
}

#[test]
fn parse_value() {
    let tokens: Vec<Token> = vec![Token::Variable("token".to_string(), "{{ token }}".to_string())];
    let nodes = parse_nodes(&tokens);
    let expected: Vec<Node> = vec![Node::Value("token".to_string(), "{{ token }}".to_string())];
    assert_eq!(nodes, expected);
}

#[test]
fn parse_section() {
    let tokens: Vec<Token> = vec![
        Token::OTag("section".to_string(), false, "{{# section }}".to_string()),
        Token::Variable("child_tag".to_string(), "{{ child_tag }}".to_string()),
        Token::CTag("section".to_string(), "{{/ section }}".to_string()),
    ];
    let nodes = parse_nodes(&tokens);
    let expected: Vec<Node> = vec![Node::Section(
        "section".to_string(),
        vec![Node::Value("child_tag".to_string(), "{{ child_tag }}".to_string())],
        false,
        "{{# section }}".to_string(),
        "{{/ section }}".to_string(),
    )];
    assert_eq!(nodes, expected);
}

#[test]
fn parse_inverted() {
    let tokens: Vec<Token> = vec![
        Token::OTag("inverted".to_string(), true, "{{^ inverted }}".to_string()),
        Token::Variable("child_tag".to_string(), "{{ child_tag }}".to_string()),
        Token::CTag("inverted".to_string(), "{{/ inverted }}".to_string()),
    ];
    let nodes = parse_nodes(&tokens);
    let expected: Vec<Node> = vec![Node::Section(
        "inverted".to_string(),
        vec![Node::Value("child_tag".to_string(), "{{ child_tag }}".to_string())],
        true,
        "{{^ inverted }}".to_string(),
        "{{/ inverted }}".to_string(),
    )];
    assert_eq!(nodes, expected);
}

#[test]
fn parse_unescaped() {
    let tokens: Vec<Token> = vec![Token::Raw(
        "unescaped".to_string(),
        "{{& unescaped }}".to_string(),
    )];
    let nodes = parse_nodes(&tokens);
    let expected: Vec<Node> = vec![Node::Unescaped(
        "unescaped".to_string(),
        "{{& unescaped }}".to_string(),
    )];
    assert_eq!(nodes, expected);
}

#[test]
fn parse_partial() {
    let tokens: Vec<Token> = vec![Token::Partial("new".to_string(), "{{> new }}".to_string())];
    let nodes = parse_nodes(&tokens);
    let expected: Vec<Node> = vec![Node::Part("new".to_string(), "{{> new }}".to_string())];
    assert_eq!(nodes, expected);
}

#[test]
fn parse_all() {
    let tokens: Vec<Token> = vec![
        Token::Text("Static String ".to_string()),
        Token::Variable("token".to_string(), "{{ token }}".to_string()),
        Token::OTag("section".to_string(), false, "{{# section }}".to_string()),
        Token::Variable("child_tag".to_string(), "{{ child_tag }}".to_string()),
        Token::CTag("section".to_string(), "{{/ section }}".to_string()),
        Token::Partial("new".to_string(), "{{> new }}".to_string()),
        Token::Raw("unescaped".to_string(), "{{& unescaped }}".to_string()),
    ];
    let nodes = parse_nodes(&tokens);
    let static_node = Node::Static("Static String ".to_string());
    let value_node = Node::Value("token".to_string(), "{{ token }}".to_string());
    let section_node = Node::Section(
        "section".to_string(),
        vec![Node::Value("child_tag".to_string(), "{{ child_tag }}".to_string())],
        false,
        "{{# section }}".to_string(),
        "{{/ section }}".to_string(),
    );
    let file_node = Node::Part("new".to_string(), "{{> new }}".to_string());
    let undescaped_node = Node::Unescaped("unescaped".to_string(), "{{& unescaped }}".to_string());
    let expected: Vec<Node> =
        vec![static_node, value_node, section_node, file_node, undescaped_node];
    assert_eq!(nodes, expected);
}

#[test]
fn parse_same_name_nesting() {
    let tokens: Vec<Token> = vec![
        Token::OTag("s".to_string(), false, "{{#s}}".to_string()),
        Token::OTag("s".to_string(), false, "{{#s}}".to_string()),
        Token::Text("x".to_string()),
        Token::CTag("s".to_string(), "{{/s}}".to_string()),
        Token::CTag("s".to_string(), "{{/s}}".to_string()),
    ];
    let nodes = parse_nodes(&tokens);
    let expected: Vec<Node> = vec![Node::Section(
        "s".to_string(),
        vec![Node::Section(
            "s".to_string(),
            vec![Node::Static("x".to_string())],
            false,
            "{{#s}}".to_string(),
            "{{/s}}".to_string(),
        )],
        false,
        "{{#s}}".to_string(),
        "{{/s}}".to_string(),
    )];
    assert_eq!(nodes, expected);
}

#[test]
fn parse_dangling_close_dropped() {
    let tokens: Vec<Token> = vec![
        Token::CTag("nowhere".to_string(), "{{/ nowhere }}".to_string()),
        Token::Text("hi".to_string()),
    ];
    let nodes = parse_nodes(&tokens);
    let expected: Vec<Node> = vec![Node::Static("hi".to_string())];
    assert_eq!(nodes, expected);
}

#[test]
fn parse_unterminated_section_dropped() {
    let tokens: Vec<Token> = vec![
        Token::Text("before".to_string()),
        Token::OTag("s".to_string(), false, "{{#s}}".to_string()),
        Token::Text("inside".to_string()),
    ];
    let nodes = parse_nodes(&tokens);
    let expected: Vec<Node> = vec![Node::Static("before".to_string())];
    assert_eq!(nodes, expected);
}

#[test]
fn parse_unterminated_nested_siblings_kept() {
    let tokens: Vec<Token> = vec![
        Token::Text("before".to_string()),
        Token::OTag("a".to_string(), false, "{{#a}}".to_string()),
        Token::OTag("b".to_string(), false, "{{#b}}".to_string()),
        Token::Text("x".to_string()),
        Token::CTag("a".to_string(), "{{/a}}".to_string()),
        Token::Text("after".to_string()),
    ];
    let nodes = parse_nodes(&tokens);
    let expected: Vec<Node> = vec![
        Node::Static("before".to_string()),
        Node::Section(
            "a".to_string(),
            vec![],
            false,
            "{{#a}}".to_string(),
            "{{/a}}".to_string(),
        ),
        Node::Static("after".to_string()),
    ];
    assert_eq!(nodes, expected);
}

#[test]
fn parse_no_sections_keeps_length_and_order() {
    let tokens: Vec<Token> = vec![
        Token::Text("a".to_string()),
        Token::Variable("v".to_string(), "{{v}}".to_string()),
        Token::Raw("r".to_string(), "{{&r}}".to_string()),
        Token::Partial("p".to_string(), "{{>p}}".to_string()),
        Token::Text("z".to_string()),
    ];
    let nodes = parse_nodes(&tokens);
    assert_eq!(nodes.len(), tokens.len());
    let expected: Vec<Node> = vec![
        Node::Static("a".to_string()),
        Node::Value("v".to_string(), "{{v}}".to_string()),
        Node::Unescaped("r".to_string(), "{{&r}}".to_string()),
        Node::Part("p".to_string(), "{{>p}}".to_string()),
        Node::Static("z".to_string()),
    ];
    assert_eq!(nodes, expected);
}

#[test]
fn parse_dotted_matches_explicit_section() {
    let dotted: Vec<Token> = vec![Token::Variable("a.b".to_string(), "{{ a.b }}".to_string())];
    let explicit: Vec<Token> = vec![
        Token::OTag("a".to_string(), false, "{{#a}}".to_string()),
        Token::Variable("b".to_string(), "{{b}}".to_string()),
        Token::CTag("a".to_string(), "{{/a}}".to_string()),
    ];
    assert_eq!(parse_nodes(&dotted), parse_nodes(&explicit));
}

#[test]
fn parse_three_segment_path_drops_middle() {
    let tokens: Vec<Token> = vec![Token::Variable("a.b.c".to_string(), "{{ a.b.c }}".to_string())];
    let nodes = parse_nodes(&tokens);
    let expected: Vec<Node> = vec![Node::Section(
        "a".to_string(),
        vec![Node::Value("c".to_string(), "{{c}}".to_string())],
        false,
        "{{#a}}".to_string(),
        "{{/a}}".to_string(),
    )];
    assert_eq!(nodes, expected);
}
