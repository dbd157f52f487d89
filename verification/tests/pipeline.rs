use xml_overview::convert;
use xml_overview::lex_graph;
use xml_overview::lex_tokens;
use xml_overview::BuildError;
use xml_overview::Config;
use xml_overview::ConvertError;
use xml_overview::LexError;
use xml_overview::NodeOrToken;
use xml_overview::Token;

fn tokens_of(input: &str) -> Vec<Token> {
    lex_tokens(String::from(input), Config::new(false)).expect("scanning failed")
}

fn overview(input: &str) -> String {
    convert(String::from(input), Config::new(false)).expect("conversion failed")
}

#[test]
fn single_selfclosing_element_scans_to_two_tokens() {
    assert_eq!(
        tokens_of("<x/>"),
        vec![
            Token::TagOpenStart(String::from("x")),
            Token::TagSelfClosing
        ]
    );
}

#[test]
fn single_selfclosing_element_with_space_scans_with_whitespace() {
    assert_eq!(
        tokens_of("<x />"),
        vec![
            Token::TagOpenStart(String::from("x")),
            Token::Whitespace,
            Token::TagSelfClosing
        ]
    );
}

#[test]
fn single_selfclosing_element_builds_one_child_of_the_root() {
    let graph = lex_graph(tokens_of("<x/>")).expect("build failed");
    let root = graph.get_node(0).expect("no root");
    assert_eq!(root.children.len(), 1);
    match &root.children[0] {
        NodeOrToken::N(id) => {
            let node = graph.get_node(*id).expect("dangling child");
            assert_eq!(node.name, String::from("x"));
            assert!(node.keys.is_empty());
            assert!(node.children.is_empty());
        }
        NodeOrToken::T(_) => panic!("expected a node child"),
    }
}

#[test]
fn attribute_values_are_discarded() {
    let graph = lex_graph(tokens_of("<a><b k=\"1\">t</b></a>")).expect("build failed");
    // the node for `b` carries the attribute name alone
    let b = graph.get_node(2).expect("no node for b");
    assert_eq!(b.name, String::from("b"));
    assert_eq!(b.keys, vec![String::from("k")]);
    // and the literal value never reaches the rendered output
    let out = overview("<a><b k=\"1\">t</b></a>");
    assert!(!out.contains('1'));
    assert_eq!(out, String::from("<><a><b k=\"\">t</b></a></>"));
}

#[test]
fn homogeneous_siblings_collapse_to_one() {
    let out = overview("<p><item/><item/><item/></p>");
    assert_eq!(out, String::from("<><p><item/></p></>"));
}

#[test]
fn minimization_is_idempotent_on_homogeneous_siblings() {
    let mut graph = lex_graph(tokens_of("<p><item/><item/><item/></p>")).expect("build failed");
    graph.minimize();
    let once = graph.print();
    graph.minimize();
    let twice = graph.print();
    assert_eq!(once, twice);
}

#[test]
fn minimization_keeps_the_richer_shape() {
    let out = overview("<p><r/><r><c/></r></p>");
    assert_eq!(out, String::from("<><p><r><c/></r></p></>"));
}

#[test]
fn minimization_keeps_the_first_on_ties() {
    // both `r` elements have one node child; the first seen survives
    let out = overview("<p><r><c/></r><r><d/></r></p>");
    assert_eq!(out, String::from("<><p><r><c/></r></p></>"));
}

#[test]
fn different_shapes_both_survive() {
    let out = overview("<p><r/><q/></p>");
    assert_eq!(out, String::from("<><p><r/><q/></p></>"));
}

#[test]
fn attribute_names_make_shapes_differ() {
    let out = overview("<p><r a=\"1\"/><r b=\"2\"/></p>");
    assert_eq!(out, String::from("<><p><r a=\"\"/><r b=\"\"/></p></>"));
}

#[test]
fn comments_never_reach_the_rendered_output() {
    let out = overview("<!-- note --><a/>");
    assert!(!out.contains("note"));
    assert_eq!(out, String::from("<><a/></>"));
}

#[test]
fn unmatched_opening_tag_fails_the_build() {
    assert!(matches!(
        lex_graph(tokens_of("<a><b></a>")),
        Err(BuildError::NoClosingTag)
    ));
}

#[test]
fn unclosed_element_fails_the_build() {
    assert!(matches!(
        lex_graph(tokens_of("<a>")),
        Err(BuildError::NoClosingTag)
    ));
}

#[test]
fn empty_token_stream_fails_the_build() {
    assert!(matches!(lex_graph(Vec::new()), Err(BuildError::EmptyInput)));
}

#[test]
fn opening_tag_without_closing_marker_fails_the_build() {
    // `<a` scans to a single opening-tag token with no `>` anywhere after it
    assert!(matches!(
        lex_graph(tokens_of("<a")),
        Err(BuildError::NoClosingTag)
    ));
}

#[test]
fn convert_surfaces_lexical_errors() {
    assert_eq!(
        convert(String::from("\""), Config::new(false)),
        Err(ConvertError::Lex(LexError::UnexpectedString(String::from(
            "\""
        ))))
    );
}

#[test]
fn convert_surfaces_build_errors() {
    assert_eq!(
        convert(String::from("<a><b></a>"), Config::new(false)),
        Err(ConvertError::Build(BuildError::NoClosingTag))
    );
    assert_eq!(
        convert(String::new(), Config::new(false)),
        Err(ConvertError::Build(BuildError::EmptyInput))
    );
}

#[test]
fn newlines_collapse_in_the_rendered_output() {
    let out = overview("<a>\n\n</a>");
    assert_eq!(out, String::from("<><a>\n</a></>"));
}

#[test]
fn whitespace_leaves_render_as_single_spaces() {
    let out = overview("<a>  </a>");
    assert_eq!(out, String::from("<><a>  </a></>"));
}

#[test]
fn text_between_tags_is_kept_verbatim() {
    let out = overview("<a>hello world</a>");
    assert_eq!(out, String::from("<><a>hello world</a></>"));
}

#[test]
fn closing_tag_names_are_not_validated() {
    // the pop is asymmetric: `</b>` closes the open `a`
    let out = overview("<a></b>");
    assert_eq!(out, String::from("<><a/></>"));
}

#[test]
fn print_tree_lists_every_node_with_its_children() {
    let graph = lex_graph(tokens_of("<a/>")).expect("build failed");
    let listing = graph.print_tree();
    assert_eq!(
        listing,
        String::from(", children: [\"a\"]\na, children: [\"\"]\na, children: [\"\"]\n")
    );
}

#[test]
fn get_node_is_none_out_of_range() {
    let graph = lex_graph(tokens_of("<a/>")).expect("build failed");
    assert!(graph.get_node(0).is_some());
    assert!(graph.get_node(1).is_some());
    assert!(graph.get_node(2).is_none());
}

#[test]
fn config_carries_the_verbosity_flag() {
    assert!(Config::new(true).verbose);
    assert!(!Config::new(false).verbose);
}
