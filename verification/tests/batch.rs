use biome_formatter::batch::{
    AnyJsObjectMember, AnyJsStatement, AnyJsxChild, BatchMutation, Change, JsBatchMutation,
    JsFormalParameter, JsVariableDeclarator, NewNode, NewSlot,
};
use biome_formatter::syntax::{
    NodeId, Slot, SyntaxKind, SyntaxToken, SyntaxTree, TokenId, TriviaPiece, TriviaPieceKind,
};

fn piece(kind: TriviaPieceKind, text: &str) -> TriviaPiece {
    TriviaPiece {
        kind,
        text: text.to_string(),
    }
}

fn spaces(text: &str) -> Vec<TriviaPiece> {
    if text.is_empty() {
        Vec::new()
    } else {
        vec![piece(TriviaPieceKind::Whitespace, text)]
    }
}

/// Adds a token. The spaces at the end of the text are its trailing trivia.
fn token(tree: &mut SyntaxTree, text: &str) -> Slot {
    let trimmed = text.trim_end();
    let token = SyntaxToken {
        text: trimmed.to_string(),
        leading: Vec::new(),
        trailing: spaces(&text[trimmed.len()..]),
    };
    Slot::Token(tree.add_token(token).unwrap())
}

fn node(tree: &mut SyntaxTree, kind: SyntaxKind, slots: Vec<Slot>) -> Slot {
    Slot::Node(tree.add_node(kind, slots).unwrap())
}

fn node_id(slot: Slot) -> NodeId {
    match slot {
        Slot::Node(id) => id,
        _ => panic!("no node"),
    }
}

fn render_token(token: &SyntaxToken, output: &mut String) {
    for piece in &token.leading {
        output.push_str(&piece.text);
    }
    output.push_str(&token.text);
    for piece in &token.trailing {
        output.push_str(&piece.text);
    }
}

fn render(tree: &SyntaxTree, changes: &[Change], id: NodeId, output: &mut String) {
    for change in changes {
        match change {
            Change::RemoveNode(removed) if *removed == id => return,
            Change::ReplaceNode { node, new_node, .. } if *node == id => {
                for slot in &new_node.slots {
                    match slot {
                        NewSlot::Node(child) => render(tree, changes, *child, output),
                        NewSlot::Token(text) => output.push_str(text),
                    }
                }
                return;
            }
            _ => {}
        }
    }
    for slot in tree.slots(id) {
        match slot {
            Slot::Node(child) => render(tree, changes, *child, output),
            Slot::Token(token) => {
                let mut removed = false;
                let mut replacement = None;
                for change in changes {
                    match change {
                        Change::RemoveToken(other) if other == token => removed = true,
                        Change::ReplaceToken {
                            token: other,
                            new_token,
                            ..
                        } if other == token => replacement = Some(new_token),
                        _ => {}
                    }
                }
                if !removed {
                    render_token(replacement.unwrap_or(tree.token(*token)), output);
                }
            }
            Slot::Empty => {}
        }
    }
}

fn text_of(batch: &BatchMutation, root: NodeId) -> String {
    let mut output = String::new();
    render(batch.tree(), batch.changes(), root, &mut output);
    output
}

/// A list of nodes with the given texts, separated by commas. The last comma, if there is one, may
/// have a missing node behind it.
fn list(
    tree: &mut SyntaxTree,
    kind: SyntaxKind,
    element_kind: SyntaxKind,
    elements: &[&[&str]],
    trailing_comma: bool,
    missing_node: bool,
) -> (Slot, Vec<NodeId>) {
    let mut slots = Vec::new();
    let mut ids = Vec::new();
    for (index, texts) in elements.iter().enumerate() {
        let tokens = texts.iter().map(|text| token(tree, text)).collect();
        let element = node(tree, element_kind, tokens);
        ids.push(node_id(element));
        slots.push(element);
        if index + 1 < elements.len() {
            slots.push(token(tree, ", "));
        } else if trailing_comma {
            slots.push(token(tree, ","));
            if missing_node {
                slots.push(Slot::Empty);
            }
        }
    }
    (node(tree, kind, slots), ids)
}

fn find(elements: &[&[&str]], name: &str) -> usize {
    elements.iter().position(|texts| texts[0] == name).unwrap()
}

/// Removes the declarator `a` from a variable statement.
fn remove_declarator(names: &[&str], trailing_comma: bool) -> String {
    let mut tree = SyntaxTree::new();
    let elements: Vec<[&str; 1]> = names.iter().map(|name| [*name]).collect();
    let elements: Vec<&[&str]> = elements.iter().map(|texts| &texts[..]).collect();
    let keyword = token(&mut tree, "let ");
    let (declarators, ids) = list(
        &mut tree,
        SyntaxKind::JsVariableDeclaratorList,
        SyntaxKind::JsVariableDeclarator,
        &elements,
        trailing_comma,
        true,
    );
    let declaration = node(
        &mut tree,
        SyntaxKind::JsVariableDeclaration,
        vec![keyword, declarators],
    );
    let semicolon = token(&mut tree, ";");
    let statement = node(
        &mut tree,
        SyntaxKind::JsVariableStatement,
        vec![declaration, semicolon],
    );
    let items = node(&mut tree, SyntaxKind::JsModuleItemList, vec![statement]);
    let mut batch = BatchMutation::new(tree);
    let declarator = JsVariableDeclarator {
        syntax: ids[find(&elements, "a")],
    };
    assert!(batch.remove_js_variable_declarator(&declarator));
    text_of(&batch, node_id(items))
}

/// Removes the parameter `a` from a function or a constructor.
fn remove_parameter(
    kind: SyntaxKind,
    before: &[&str],
    names: &[&str],
    trailing_comma: bool,
    behind: &[&str],
) -> String {
    let mut tree = SyntaxTree::new();
    let elements: Vec<[&str; 1]> = names.iter().map(|name| [*name]).collect();
    let elements: Vec<&[&str]> = elements.iter().map(|texts| &texts[..]).collect();
    let mut slots: Vec<Slot> = before.iter().map(|text| token(&mut tree, text)).collect();
    let (parameters, ids) = list(
        &mut tree,
        kind,
        SyntaxKind::JsFormalParameter,
        &elements,
        trailing_comma,
        false,
    );
    slots.push(parameters);
    slots.extend(behind.iter().map(|text| token(&mut tree, text)));
    let root = node(&mut tree, SyntaxKind::Other, slots);
    let mut batch = BatchMutation::new(tree);
    let parameter = JsFormalParameter {
        syntax: ids[find(&elements, "a")],
    };
    assert!(batch.remove_js_formal_parameter(&parameter));
    text_of(&batch, node_id(root))
}

fn remove_function_parameter(names: &[&str], trailing_comma: bool) -> String {
    remove_parameter(
        SyntaxKind::JsParameterList,
        &["function ", "f", "("],
        names,
        trailing_comma,
        &[") ", "{", "}"],
    )
}

fn remove_constructor_parameter(names: &[&str], trailing_comma: bool) -> String {
    remove_parameter(
        SyntaxKind::JsConstructorParameterList,
        &["class ", "A ", "{ ", "constructor", "("],
        names,
        trailing_comma,
        &[") ", "{", "} ", "}"],
    )
}

/// Removes the member `a` from an object.
fn remove_member(members: &[(&str, &str)], trailing_comma: bool) -> String {
    let mut tree = SyntaxTree::new();
    let elements: Vec<[&str; 3]> = members
        .iter()
        .map(|(name, value)| [*name, ": ", *value])
        .collect();
    let elements: Vec<&[&str]> = elements.iter().map(|texts| &texts[..]).collect();
    let mut slots = vec![token(&mut tree, "("), token(&mut tree, "{ ")];
    let mut list_slots = Vec::new();
    let mut ids = Vec::new();
    for (index, texts) in elements.iter().enumerate() {
        let tokens = texts.iter().map(|text| token(&mut tree, text)).collect();
        let member = node(&mut tree, SyntaxKind::JsPropertyObjectMember, tokens);
        ids.push(node_id(member));
        list_slots.push(member);
        if index + 1 < elements.len() || trailing_comma {
            list_slots.push(token(&mut tree, ", "));
        }
    }
    slots.push(node(&mut tree, SyntaxKind::JsObjectMemberList, list_slots));
    slots.push(token(&mut tree, "}"));
    slots.push(token(&mut tree, ")"));
    let root = node(&mut tree, SyntaxKind::Other, slots);
    let mut batch = BatchMutation::new(tree);
    let member = AnyJsObjectMember {
        syntax: ids[find(&elements, "a")],
    };
    assert!(batch.remove_js_object_member(member));
    text_of(&batch, node_id(root))
}

#[test]
fn ok_remove_variable_declarator_single() {
    assert_eq!("", remove_declarator(&["a"], false));
}

#[test]
fn ok_remove_variable_declarator_fist() {
    assert_eq!("let b;", remove_declarator(&["a", "b"], false));
}

#[test]
fn ok_remove_variable_declarator_second() {
    assert_eq!("let b;", remove_declarator(&["b", "a"], false));
}

#[test]
fn ok_remove_variable_declarator_second_trailling_comma() {
    assert_eq!("let b;", remove_declarator(&["b", "a"], true));
}

#[test]
fn ok_remove_variable_declarator_middle() {
    assert_eq!("let b, c;", remove_declarator(&["b", "a", "c"], false));
}

#[test]
fn the_only_declarator_takes_the_statement_along() {
    assert_eq!("", remove_declarator(&["a"], true));
}

#[test]
fn ok_remove_formal_parameter_single() {
    assert_eq!("function f() {}", remove_function_parameter(&["a"], false));
}

#[test]
fn ok_remove_formal_parameter_first() {
    assert_eq!(
        "function f(b) {}",
        remove_function_parameter(&["a", "b"], false)
    );
}

#[test]
fn ok_remove_formal_parameter_second() {
    assert_eq!(
        "function f(b) {}",
        remove_function_parameter(&["b", "a"], false)
    );
}

#[test]
fn ok_remove_formal_parameter_second_trailing_comma() {
    assert_eq!(
        "function f(b) {}",
        remove_function_parameter(&["b", "a"], true)
    );
}

#[test]
fn ok_remove_formal_parameter_middle() {
    assert_eq!(
        "function f(b, c) {}",
        remove_function_parameter(&["b", "a", "c"], false)
    );
}

#[test]
fn ok_remove_formal_parameter_from_class_constructor_single() {
    assert_eq!(
        "class A { constructor() {} }",
        remove_constructor_parameter(&["a"], false)
    );
}

#[test]
fn ok_remove_formal_parameter_from_class_constructor_first() {
    assert_eq!(
        "class A { constructor(b) {} }",
        remove_constructor_parameter(&["a", "b"], false)
    );
}

#[test]
fn ok_remove_formal_parameter_from_class_constructor_second() {
    assert_eq!(
        "class A { constructor(b) {} }",
        remove_constructor_parameter(&["b", "a"], false)
    );
}

#[test]
fn ok_remove_formal_parameter_from_class_constructor_second_trailing_comma() {
    assert_eq!(
        "class A { constructor(b) {} }",
        remove_constructor_parameter(&["b", "a"], true)
    );
}

#[test]
fn ok_remove_formal_parameter_from_class_constructor_middle() {
    assert_eq!(
        "class A { constructor(b, c) {} }",
        remove_constructor_parameter(&["b", "a", "c"], false)
    );
}

#[test]
fn ok_remove_first_member() {
    assert_eq!(
        "({ b: 2 })",
        remove_member(&[("a", "1"), ("b", "2 ")], false)
    );
}

#[test]
fn ok_remove_middle_member() {
    assert_eq!(
        "({ z: 1, b: 3 })",
        remove_member(&[("z", "1"), ("a", "2"), ("b", "3 ")], false)
    );
}

#[test]
fn ok_remove_last_member() {
    assert_eq!(
        "({ z: 1, })",
        remove_member(&[("z", "1"), ("a", "2 ")], false)
    );
}

#[test]
fn ok_remove_last_member_trailing_comma() {
    assert_eq!(
        "({ z: 1, })",
        remove_member(&[("z", "1"), ("a", "2")], true)
    );
}

#[test]
fn ok_remove_only_member() {
    assert_eq!("({ })", remove_member(&[("a", "2 ")], false));
}

#[test]
fn nodes_outside_of_a_list_are_not_removed() {
    let mut tree = SyntaxTree::new();
    let name = token(&mut tree, "a");
    let orphan = node_id(node(&mut tree, SyntaxKind::Other, vec![name]));
    let name = token(&mut tree, "b");
    let child = node(&mut tree, SyntaxKind::JsFormalParameter, vec![name]);
    node(&mut tree, SyntaxKind::Other, vec![child]);
    let mut batch = BatchMutation::new(tree);
    for syntax in [orphan, node_id(child)] {
        assert!(!batch.remove_js_variable_declarator(&JsVariableDeclarator { syntax }));
        assert!(!batch.remove_js_formal_parameter(&JsFormalParameter { syntax }));
        assert!(!batch.remove_js_object_member(AnyJsObjectMember { syntax }));
        assert!(!batch.add_jsx_elements_after_element(&AnyJsxChild { syntax }, Vec::new()));
        assert!(!batch.replace_jsx_element_with_own_children(&AnyJsxChild { syntax }));
    }
    assert!(batch.changes().is_empty());
}

#[test]
fn a_declarator_of_a_for_loop_is_not_removed() {
    let mut tree = SyntaxTree::new();
    let (declarators, ids) = list(
        &mut tree,
        SyntaxKind::JsVariableDeclaratorList,
        SyntaxKind::JsVariableDeclarator,
        &[&["a"]],
        false,
        false,
    );
    let declaration = node(
        &mut tree,
        SyntaxKind::JsVariableDeclaration,
        vec![declarators],
    );
    node(&mut tree, SyntaxKind::Other, vec![declaration]);
    let mut batch = BatchMutation::new(tree);
    assert!(!batch.remove_js_variable_declarator(&JsVariableDeclarator { syntax: ids[0] }));
    assert!(batch.changes().is_empty());
}

#[test]
fn statements_are_removed_from_lists_and_replaced_elsewhere() {
    for (kind, expected) in [
        (SyntaxKind::JsStatementList, "x;"),
        (SyntaxKind::JsModuleItemList, "x;"),
        (SyntaxKind::Other, "x;;"),
    ] {
        let mut tree = SyntaxTree::new();
        let first = token(&mut tree, "x;");
        let first = node(&mut tree, SyntaxKind::Other, vec![first]);
        let second = token(&mut tree, "y;");
        let second = node(&mut tree, SyntaxKind::Other, vec![second]);
        let root = node(&mut tree, kind, vec![first, second]);
        let mut batch = BatchMutation::new(tree);
        batch.remove_statement(AnyJsStatement {
            syntax: node_id(root),
        });
        assert!(batch.changes().is_empty());
        batch.remove_statement(AnyJsStatement {
            syntax: node_id(second),
        });
        assert_eq!(expected, text_of(&batch, node_id(root)));
    }
}

#[test]
fn an_empty_statement_keeps_the_trivia() {
    let mut tree = SyntaxTree::new();
    let text = token(&mut tree, "x;");
    let statement = node(&mut tree, SyntaxKind::Other, vec![text]);
    node(&mut tree, SyntaxKind::Other, vec![statement]);
    let mut batch = BatchMutation::new(tree);
    let syntax = node_id(statement);
    batch.remove_statement(AnyJsStatement { syntax });
    assert_eq!(
        &[Change::ReplaceNode {
            node: syntax,
            new_node: NewNode {
                kind: SyntaxKind::JsEmptyStatement,
                slots: vec![NewSlot::Token(";".to_string())]
            },
            keeps_trivia: true
        }],
        batch.changes()
    );
}

/// `<ul>` with the children `a` and `b`, beside detached elements `c` and `d`.
fn jsx() -> (SyntaxTree, NodeId, NodeId, Vec<AnyJsxChild>) {
    let mut tree = SyntaxTree::new();
    let mut children = Vec::new();
    for text in ["<a/>", "<b/>", "<c/>", "<d/>"] {
        let text = token(&mut tree, text);
        let child = node(&mut tree, SyntaxKind::JsxText, vec![text]);
        children.push(child);
    }
    let open = token(&mut tree, "<ul>");
    let items = node(
        &mut tree,
        SyntaxKind::JsxChildList,
        vec![children[0], children[1]],
    );
    let close = token(&mut tree, "</ul>");
    let element = node(&mut tree, SyntaxKind::JsxElement, vec![open, items, close]);
    let before = token(&mut tree, "<x/>");
    let before = node(&mut tree, SyntaxKind::JsxText, vec![before]);
    let root = node(&mut tree, SyntaxKind::JsxChildList, vec![before, element]);
    let children = children
        .into_iter()
        .map(|child| AnyJsxChild {
            syntax: node_id(child),
        })
        .collect();
    (tree, node_id(root), node_id(element), children)
}

#[test]
fn jsx_elements_are_added_after_an_element() {
    let (tree, root, _, children) = jsx();
    let mut batch = BatchMutation::new(tree);
    assert!(batch.add_jsx_elements_after_element(&children[0], vec![children[2], children[3]]));
    assert_eq!(
        "<x/><ul><a/><c/><d/><b/></ul>",
        text_of(&batch, root)
    );
}

#[test]
fn jsx_elements_are_added_before_an_element() {
    let (tree, root, _, children) = jsx();
    let mut batch = BatchMutation::new(tree);
    assert!(batch.add_jsx_elements_before_element(&children[1], vec![children[2], children[3]]));
    assert_eq!(
        "<x/><ul><a/><c/><d/><b/></ul>",
        text_of(&batch, root)
    );
}

#[test]
fn jsx_elements_replace_an_element() {
    let (tree, root, _, children) = jsx();
    let mut batch = BatchMutation::new(tree);
    assert!(batch.add_jsx_elements_replacing_element(&children[0], vec![children[2], children[3]]));
    assert_eq!("<x/><ul><c/><d/><b/></ul>", text_of(&batch, root));
}

#[test]
fn a_jsx_element_is_replaced_with_its_children() {
    let (tree, root, element, children) = jsx();
    let mut batch = BatchMutation::new(tree);
    assert!(batch.replace_jsx_element_with_own_children(&AnyJsxChild { syntax: element }));
    assert_eq!("<x/><a/><b/>", text_of(&batch, root));
    assert!(!batch.replace_jsx_element_with_own_children(&children[0]));
    assert_eq!(1, batch.changes().len());
}

fn commented(tree: &mut SyntaxTree, text: &str, leading: Vec<TriviaPiece>) -> TokenId {
    tree.add_token(SyntaxToken {
        text: text.to_string(),
        leading,
        trailing: spaces(" "),
    })
    .unwrap()
}

#[test]
fn leading_trivia_goes_to_the_next_token() {
    let newline = || piece(TriviaPieceKind::Newline, "\n");
    let comment = || piece(TriviaPieceKind::SingleLineComment, "// c");
    let mut tree = SyntaxTree::new();
    let first = commented(&mut tree, "a", vec![newline(), comment(), newline()]);
    let first = node(&mut tree, SyntaxKind::Other, vec![Slot::Token(first)]);
    let second = commented(&mut tree, "b", vec![newline(), newline()]);
    let inner = node(&mut tree, SyntaxKind::Other, vec![Slot::Token(second)]);
    node(&mut tree, SyntaxKind::Other, vec![first, Slot::Empty, inner]);
    let mut batch = BatchMutation::new(tree);
    batch.transfer_leading_trivia_to_sibling(node_id(first));
    assert_eq!(
        &[Change::ReplaceToken {
            token: second,
            new_token: SyntaxToken {
                text: "b".to_string(),
                leading: vec![newline(), comment(), newline(), newline()],
                trailing: spaces(" "),
            },
            keeps_trivia: false
        }],
        batch.changes()
    );
}

#[test]
fn leading_trivia_goes_to_the_previous_token_at_the_end() {
    let comment = || piece(TriviaPieceKind::MultiLineComment, "/* c */");
    let mut tree = SyntaxTree::new();
    let first = commented(&mut tree, "a", Vec::new());
    let second = commented(&mut tree, "b", vec![comment()]);
    let inner = node(&mut tree, SyntaxKind::Other, vec![Slot::Token(second)]);
    let outer = node(&mut tree, SyntaxKind::Other, vec![inner]);
    let root = node(
        &mut tree,
        SyntaxKind::Other,
        vec![Slot::Token(first), outer],
    );
    let mut batch = BatchMutation::new(tree);
    batch.transfer_leading_trivia_to_sibling(node_id(root));
    assert!(batch.changes().is_empty());
    batch.transfer_leading_trivia_to_sibling(node_id(inner));
    assert_eq!(
        &[Change::ReplaceToken {
            token: first,
            new_token: SyntaxToken {
                text: "a".to_string(),
                leading: Vec::new(),
                trailing: vec![piece(TriviaPieceKind::Whitespace, " "), comment()],
            },
            keeps_trivia: false
        }],
        batch.changes()
    );
}

#[test]
fn nodes_without_tokens_have_no_trivia_to_transfer() {
    let mut tree = SyntaxTree::new();
    let empty = node(&mut tree, SyntaxKind::Other, vec![Slot::Empty]);
    let text = token(&mut tree, "a");
    node(&mut tree, SyntaxKind::Other, vec![empty, text]);
    let mut batch = BatchMutation::new(tree);
    batch.transfer_leading_trivia_to_sibling(node_id(empty));
    assert!(batch.changes().is_empty());
}

#[test]
fn a_tree_refuses_children_that_do_not_fit() {
    let mut tree = SyntaxTree::new();
    let text = token(&mut tree, "a");
    let comma = token(&mut tree, ",");
    assert!(tree
        .add_node(SyntaxKind::JsParameterList, vec![comma, text])
        .is_none());
    assert!(tree.add_node(SyntaxKind::Other, vec![text, text]).is_none());
    assert!(tree.add_node(SyntaxKind::JsxChildList, vec![text]).is_none());
    assert!(tree.add_node(SyntaxKind::JsxElement, vec![text]).is_none());
    assert!(tree
        .add_node(
            SyntaxKind::Other,
            vec![Slot::Node(NodeId { index: 0 })]
        )
        .is_none());
    let parent = node(&mut tree, SyntaxKind::Other, vec![text]);
    assert!(tree.add_node(SyntaxKind::Other, vec![text]).is_none());
    assert_eq!(None, tree.parent(node_id(parent)));
    assert_eq!(SyntaxKind::Other, tree.kind(node_id(parent)));
}
