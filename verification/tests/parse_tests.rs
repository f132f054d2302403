use wikitemplates::Node;
use wikitemplates::parse::parse_wikitext;
use wikitemplates::serialize::to_wikitext_nodes;
use wikitemplates::text::dec_str;
use wikitemplates::text::normalize_name;

#[test]
fn plain_text_parses_to_one_text_node() {
    let nodes = parse_wikitext("Hello, World!");
    assert_eq!(nodes.len(), 1);
    match &nodes[0] {
        Node::Text { text } => assert_eq!(text, "Hello, World!"),
        other => panic!("expected text, got {:?}", other),
    }
}

#[test]
fn plain_text_roundtrips() {
    let nodes = parse_wikitext("just some plain words");
    assert_eq!(to_wikitext_nodes(&nodes), "just some plain words");
}

#[test]
fn template_with_named_and_positional_parameters() {
    let nodes = parse_wikitext("{{P|a|b=2|c}}");
    assert_eq!(nodes.len(), 1);
    match &nodes[0] {
        Node::Template { name, parameters } => {
            assert_eq!(name, "P");
            assert_eq!(parameters.len(), 3);
            assert_eq!(parameters[0].name, "1");
            assert_eq!(parameters[0].value, "a");
            assert_eq!(parameters[1].name, "b");
            assert_eq!(parameters[1].value, "2");
            assert_eq!(parameters[2].name, "2");
            assert_eq!(parameters[2].value, "c");
        }
        other => panic!("expected template, got {:?}", other),
    }
}

#[test]
fn placeholder_with_default_parses() {
    let nodes = parse_wikitext("{{{name|World}}}");
    assert_eq!(nodes.len(), 1);
    match &nodes[0] {
        Node::TemplateParameterUse { name, default } => {
            assert_eq!(name, "name");
            let d = default.as_ref().expect("default expected");
            assert_eq!(to_wikitext_nodes(d), "World");
        }
        other => panic!("expected placeholder, got {:?}", other),
    }
}

#[test]
fn link_with_label_parses_and_roundtrips() {
    let nodes = parse_wikitext("[[Foo|bar]]");
    assert_eq!(nodes.len(), 1);
    match &nodes[0] {
        Node::Link { text, title } => {
            assert_eq!(title, "Foo");
            assert_eq!(text, "bar");
        }
        other => panic!("expected link, got {:?}", other),
    }
    assert_eq!(to_wikitext_nodes(&nodes), "[[Foo|bar]]");
}

#[test]
fn unclosed_braces_stay_literal_text() {
    let nodes = parse_wikitext("a {{ b");
    assert_eq!(to_wikitext_nodes(&nodes), "a {{ b");
    assert!(nodes.iter().all(|n| matches!(n, Node::Text { .. })));
}

#[test]
fn bold_and_italic_parse() {
    let nodes = parse_wikitext("''em'' and '''strong'''");
    assert!(nodes.iter().any(|n| matches!(n, Node::Italic { .. })));
    assert!(nodes.iter().any(|n| matches!(n, Node::Bold { .. })));
    assert_eq!(to_wikitext_nodes(&nodes), "''em'' and '''strong'''");
}

#[test]
fn nested_template_in_parameter_value_is_kept_raw() {
    let nodes = parse_wikitext("{{a|x={{b}}}}");
    match &nodes[0] {
        Node::Template { name, parameters } => {
            assert_eq!(name, "a");
            assert_eq!(parameters.len(), 1);
            assert_eq!(parameters[0].name, "x");
            assert_eq!(parameters[0].value, "{{b}}");
        }
        other => panic!("expected template, got {:?}", other),
    }
}

#[test]
fn table_with_header_and_caption_parses() {
    let nodes = parse_wikitext("{| class=\"x\"\n|+ A caption\n!H1\n!H2\n|-\n|a\n|b\n|}");
    let table = nodes
        .iter()
        .find(|n| matches!(n, Node::Table { .. }))
        .expect("table expected");
    match table {
        Node::Table { attributes, captions, rows } => {
            assert_eq!(to_wikitext_nodes(attributes), " class=\"x\"");
            assert_eq!(captions.len(), 1);
            assert_eq!(to_wikitext_nodes(&captions[0].content), " A caption");
            assert_eq!(rows.len(), 2);
            assert_eq!(rows[0].cells.len(), 2);
            assert_eq!(rows[1].cells.len(), 2);
            assert_eq!(to_wikitext_nodes(&rows[1].cells[0].content), "a");
        }
        _ => unreachable!(),
    }
}

#[test]
fn double_pipe_splits_cells_on_one_line() {
    let nodes = parse_wikitext("{|\n|a||b||c\n|}");
    let table = nodes
        .iter()
        .find(|n| matches!(n, Node::Table { .. }))
        .expect("table expected");
    match table {
        Node::Table { rows, .. } => {
            assert_eq!(rows.len(), 1);
            assert_eq!(rows[0].cells.len(), 3);
        }
        _ => unreachable!(),
    }
}

#[test]
fn cell_attribute_split_ignores_pipes_in_braces() {
    let nodes = parse_wikitext("{|\n|{{T|k=v}} | content\n|}");
    let table = nodes
        .iter()
        .find(|n| matches!(n, Node::Table { .. }))
        .expect("table expected");
    match table {
        Node::Table { rows, .. } => {
            assert_eq!(rows.len(), 1);
            assert_eq!(rows[0].cells.len(), 1);
            let cell = &rows[0].cells[0];
            let attrs = cell.attributes.as_ref().expect("attributes expected");
            assert!(attrs.iter().any(|n| matches!(n, Node::Template { .. })));
            assert_eq!(to_wikitext_nodes(&cell.content), " content");
        }
        _ => unreachable!(),
    }
}

#[test]
fn normalize_name_lowers_and_replaces_spaces() {
    assert_eq!(normalize_name("My Template NAME"), "my_template_name");
    assert_eq!(normalize_name("Lua/TestTable"), "lua/testtable");
    assert_eq!(normalize_name("CAFÉ Menu"), "café_menu");
}

#[test]
fn decimal_rendering_is_exact() {
    assert_eq!(dec_str(0), "0");
    assert_eq!(dec_str(7), "7");
    assert_eq!(dec_str(10), "10");
    assert_eq!(dec_str(12345), "12345");
}

#[test]
fn serializer_prints_template_and_placeholder_forms() {
    let tpl = Node::Template {
        name: "Greet".to_string(),
        parameters: vec![wikitemplates::TemplateParameter {
            name: "name".to_string(),
            value: "Ada".to_string(),
        }],
    };
    assert_eq!(tpl.to_wikitext(), "{{Greet|name=Ada}}");

    let tpu = Node::TemplateParameterUse {
        name: "name".to_string(),
        default: Some(vec![Node::Text { text: "World".to_string() }]),
    };
    assert_eq!(tpu.to_wikitext(), "{{{name|World}}}");
}
