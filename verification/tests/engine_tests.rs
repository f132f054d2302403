use wikitemplates::Node;
use wikitemplates::PageContext;
use wikitemplates::TemplateToInstantiate;
use wikitemplates::Templates;
use wikitemplates::template::Error;
use wikitemplates::template::MemoryLoader;
use wikitemplates::serialize::to_wikitext_nodes;

fn test_page_context() -> PageContext {
    PageContext { title: "Test".to_string(), sub_page_name: "Test".to_string() }
}

#[test]
fn test_nested_table_template_instantiation() {
    // This test verifies that nested template instantiation preserves table cell structure:
    // multiple cells must not end up merged after the wikitext roundtrip, with pipe
    // characters appearing as literal text.

    let mut loader = MemoryLoader::new();

    // Create a simple cell attribute template
    loader.add("lua/cellalign", r#"align="right""#);

    // Create a table template with nested template in cell attributes
    loader.add(
        "lua/testtable",
        r#"{| class="wikitable"
!Returns
!Prototype
|-
|{{Lua/CellAlign}} | TypeA
|align="left" | FunctionA()
|-
|{{Lua/CellAlign}} | TypeB
|align="left" | FunctionB()
|}"#,
    );

    let mut templates = Templates::new(loader);

    let page_context = test_page_context();

    // Instantiate the table template
    let result = templates
        .instantiate(TemplateToInstantiate::Name("Lua/TestTable"), &Vec::new(), &page_context)
        .unwrap();

    // Verify the result is a table (possibly wrapped in a Fragment)
    let table_node = match &result {
        Node::Table { .. } => &result,
        Node::Fragment { children } => children
            .iter()
            .find(|node| matches!(node, Node::Table { .. }))
            .expect("Fragment should contain a Table node"),
        _ => panic!("Expected Table or Fragment with Table node, got {:?}", result),
    };

    match table_node {
        Node::Table { rows, .. } => {
            // Should have 2 data rows (plus header row handled separately)
            assert_eq!(rows.len(), 3, "Table should have 3 rows (1 header + 2 data)");

            // Check first data row has 2 cells
            assert_eq!(rows[1].cells.len(), 2, "First data row should have 2 cells");

            // Verify the first cell has the correct attribute from the template
            if let Some(attrs) = &rows[1].cells[0].attributes {
                let attrs_text = to_wikitext_nodes(attrs);
                assert!(
                    attrs_text.contains("right"),
                    "First cell should have 'align=right' attribute from template expansion"
                );
            }

            // Verify the first cell content is just "TypeA", not merged with second cell
            let cell_content = to_wikitext_nodes(&rows[1].cells[0].content);
            assert!(
                !cell_content.contains("FunctionA"),
                "First cell should not contain content from second cell"
            );
            assert!(cell_content.contains("TypeA"), "First cell should contain TypeA");

            // Verify the second cell exists and has correct content
            let cell2_content = to_wikitext_nodes(&rows[1].cells[1].content);
            assert!(cell2_content.contains("FunctionA"), "Second cell should contain FunctionA");
        }
        _ => panic!("Expected Table node, got {:?}", result),
    }
}

#[test]
fn test_non_table_template_uses_roundtrip() {
    // Verify that non-table templates still use the wikitext roundtrip.
    // This is important for templates that expand to wikitext markup like '''bold'''.

    let mut loader = MemoryLoader::new();

    // Create a template that expands to bold text
    loader.add("boldtext", "'''important'''");

    let mut templates = Templates::new(loader);

    let page_context = test_page_context();

    // Instantiate the template
    let result = templates
        .instantiate(TemplateToInstantiate::Name("BoldText"), &Vec::new(), &page_context)
        .unwrap();

    // The result should be a Fragment containing a Bold node (due to roundtrip parsing)
    match result {
        Node::Fragment { children } => {
            assert!(
                children.iter().any(|node| matches!(node, Node::Bold { .. })),
                "Template should be reparsed into Bold node through wikitext roundtrip"
            );
        }
        Node::Bold { .. } => {
            // Direct Bold node is also acceptable
        }
        _ => panic!("Expected Bold or Fragment with Bold node, got {:?}", result),
    }
}

fn instantiate_to_text(
    templates: &mut Templates<MemoryLoader>,
    name: &str,
    parameters: &Vec<wikitemplates::TemplateParameter>,
    ctx: &PageContext,
) -> String {
    let result = templates
        .instantiate(TemplateToInstantiate::Name(name), parameters, ctx)
        .unwrap();
    result.to_wikitext()
}

#[test]
fn greeting_without_arguments_uses_default() {
    let mut loader = MemoryLoader::new();
    loader.add("Greeting", "Hello, {{{name|World}}}!");
    let mut templates = Templates::new(loader);
    let ctx = test_page_context();

    let text = instantiate_to_text(&mut templates, "Greeting", &Vec::new(), &ctx);
    assert_eq!(text, "Hello, World!");
}

#[test]
fn greeting_with_argument_uses_argument() {
    let mut loader = MemoryLoader::new();
    loader.add("Greeting", "Hello, {{{name|World}}}!");
    let mut templates = Templates::new(loader);
    let ctx = test_page_context();

    let params = vec![wikitemplates::TemplateParameter {
        name: "name".to_string(),
        value: "Ada".to_string(),
    }];
    let text = instantiate_to_text(&mut templates, "Greeting", &params, &ctx);
    assert_eq!(text, "Hello, Ada!");
}

#[test]
fn wrapper_resolves_through_two_levels() {
    let mut loader = MemoryLoader::new();
    loader.add("Greeting", "Hello, {{{name|World}}}!");
    loader.add("Wrapper", "{{Greeting}}");
    let mut templates = Templates::new(loader);
    let ctx = test_page_context();

    let text = instantiate_to_text(&mut templates, "Wrapper", &Vec::new(), &ctx);
    assert_eq!(text, "Hello, World!");
}

#[test]
fn unbound_placeholder_without_default_is_empty() {
    let mut loader = MemoryLoader::new();
    loader.add("bare", "[{{{x}}}]ok");
    let mut templates = Templates::new(loader);
    let ctx = test_page_context();

    let text = instantiate_to_text(&mut templates, "bare", &Vec::new(), &ctx);
    assert_eq!(text, "[]ok");
}

#[test]
fn magic_template_name_short_circuits_the_store() {
    // No template named "subpagename" exists anywhere in the store; the
    // invocation must still succeed, from the context alone.
    let loader = MemoryLoader::new();
    let mut templates = Templates::new(loader);
    let ctx = PageContext { title: "Test".to_string(), sub_page_name: "Overview".to_string() };

    let result = templates
        .instantiate(TemplateToInstantiate::Name("SUBPAGENAME"), &Vec::new(), &ctx)
        .unwrap();
    match result {
        Node::Text { text } => assert_eq!(text, "Overview"),
        other => panic!("Expected Text node, got {:?}", other),
    }
}

#[test]
fn magic_name_inside_template_body() {
    let mut loader = MemoryLoader::new();
    loader.add("callsub", "{{SUBPAGENAME}}");
    let mut templates = Templates::new(loader);
    let ctx = PageContext { title: "Test".to_string(), sub_page_name: "Overview".to_string() };

    let text = instantiate_to_text(&mut templates, "callsub", &Vec::new(), &ctx);
    assert_eq!(text, "Overview");
}

#[test]
fn magic_placeholder_prefers_argument_then_context_over_default() {
    let mut loader = MemoryLoader::new();
    loader.add("sub", "{{{subpagename|DFLT}}}");
    let mut templates = Templates::new(loader);
    let ctx = PageContext { title: "Test".to_string(), sub_page_name: "Overview".to_string() };

    // Unbound: the context's sub-page name wins over the default.
    let text = instantiate_to_text(&mut templates, "sub", &Vec::new(), &ctx);
    assert_eq!(text, "Overview");

    // Bound: the explicit argument wins over the context.
    let params = vec![wikitemplates::TemplateParameter {
        name: "subpagename".to_string(),
        value: "Explicit".to_string(),
    }];
    let text = instantiate_to_text(&mut templates, "sub", &params, &ctx);
    assert_eq!(text, "Explicit");
}

#[test]
fn missing_template_reports_name_and_normalized_key() {
    let loader = MemoryLoader::new();
    let mut templates = Templates::new(loader);
    let ctx = test_page_context();

    let result =
        templates.instantiate(TemplateToInstantiate::Name("My Template"), &Vec::new(), &ctx);
    match result {
        Err(Error::TemplateNotFound { name, key }) => {
            assert_eq!(name, "My Template");
            assert_eq!(key, "my_template");
        }
        other => panic!("Expected TemplateNotFound, got {:?}", other),
    }
}

#[test]
fn cyclic_templates_hit_the_recursion_limit() {
    let mut loader = MemoryLoader::new();
    loader.add("LoopA", "{{LoopB}}");
    loader.add("LoopB", "{{LoopA}}");
    let mut templates = Templates::new(loader);
    let ctx = test_page_context();

    let result = templates.instantiate(TemplateToInstantiate::Name("LoopA"), &Vec::new(), &ctx);
    match result {
        Err(Error::RecursionLimitExceeded) => {}
        other => panic!("Expected RecursionLimitExceeded, got {:?}", other),
    }
}

#[test]
fn template_names_are_normalized_case_insensitively() {
    let mut loader = MemoryLoader::new();
    loader.add("My Template", "payload");
    let mut templates = Templates::new(loader);
    let ctx = test_page_context();

    let text = instantiate_to_text(&mut templates, "MY template", &Vec::new(), &ctx);
    assert_eq!(text, "payload");
}

#[test]
fn resolved_tree_is_returned_unchanged() {
    let loader = MemoryLoader::new();
    let mut templates = Templates::new(loader);
    let ctx = test_page_context();

    let tree = Node::Fragment {
        children: vec![
            Node::Text { text: "plain ".to_string() },
            Node::Bold { children: vec![Node::Text { text: "strong".to_string() }] },
        ],
    };
    let result = templates
        .instantiate(TemplateToInstantiate::Node(tree), &Vec::new(), &ctx)
        .unwrap();
    assert_eq!(result.to_wikitext(), "plain '''strong'''");
}

#[test]
fn parameter_link_in_cell_becomes_structured_node() {
    // Markup introduced into a cell purely via parameter substitution becomes
    // a structured node without changing the row's cell count or the sibling
    // cell's content.
    let mut loader = MemoryLoader::new();
    loader.add(
        "linkrow",
        "{|\n|{{{content}}}\n|Second\n|}",
    );
    let mut templates = Templates::new(loader);
    let ctx = test_page_context();

    let params = vec![wikitemplates::TemplateParameter {
        name: "content".to_string(),
        value: "[[Foo]]".to_string(),
    }];
    let result = templates
        .instantiate(TemplateToInstantiate::Name("linkrow"), &params, &ctx)
        .unwrap();

    let table_node = match &result {
        Node::Table { .. } => &result,
        Node::Fragment { children } => children
            .iter()
            .find(|node| matches!(node, Node::Table { .. }))
            .expect("Fragment should contain a Table node"),
        other => panic!("Expected a table, got {:?}", other),
    };
    match table_node {
        Node::Table { rows, .. } => {
            assert_eq!(rows.len(), 1);
            assert_eq!(rows[0].cells.len(), 2, "cell count must survive substitution");
            let first = &rows[0].cells[0].content;
            assert!(
                first.iter().any(|node| matches!(node, Node::Link { .. })),
                "substituted link markup should become a structured Link node"
            );
            let second = to_wikitext_nodes(&rows[0].cells[1].content);
            assert_eq!(second, "Second");
        }
        _ => unreachable!(),
    }
}

#[test]
fn empty_template_body_resolves_to_nothing() {
    let mut loader = MemoryLoader::new();
    loader.add("empty", "");
    let mut templates = Templates::new(loader);
    let ctx = test_page_context();

    let text = instantiate_to_text(&mut templates, "empty", &Vec::new(), &ctx);
    assert_eq!(text, "");
}

#[test]
fn template_names_normalize_unicode_case() {
    // Name normalization lowercases per Unicode, not just ASCII: case variants
    // of a non-ASCII name reach the same stored template.
    let mut loader = MemoryLoader::new();
    loader.add("Café Menu", "espresso");
    let mut templates = Templates::new(loader);
    let ctx = test_page_context();

    let text = instantiate_to_text(&mut templates, "CAFÉ MENU", &Vec::new(), &ctx);
    assert_eq!(text, "espresso");
}
