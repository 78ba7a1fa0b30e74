use ra_ide_api::split_import::{split_import, Assist};
use ra_ide_api::syntax_kind::SyntaxKind as K;
use ra_ide_api::tree::{SyntaxTree, TreeBuilder};

enum Shape {
    Node(K, Vec<Shape>),
    Token(K, &'static str),
}

fn n(kind: K, children: Vec<Shape>) -> Shape {
    Shape::Node(kind, children)
}

fn t(kind: K, text: &'static str) -> Shape {
    Shape::Token(kind, text)
}

fn add(b: &mut TreeBuilder, s: &Shape) {
    match s {
        Shape::Node(kind, children) => {
            b.start_node(*kind);
            for c in children {
                add(b, c);
            }
            b.finish_node();
        }
        Shape::Token(kind, text) => b.token(*kind, text.chars().collect()),
    }
}

fn build(s: &Shape) -> SyntaxTree {
    let mut b = TreeBuilder::new();
    add(&mut b, s);
    b.finish()
}

fn segment(name: &'static str) -> Shape {
    match name {
        "crate" => n(K::PATH_SEGMENT, vec![t(K::CRATE_KW, name)]),
        "self" => n(K::PATH_SEGMENT, vec![t(K::SELF_KW, name)]),
        "super" => n(K::PATH_SEGMENT, vec![t(K::SUPER_KW, name)]),
        _ => n(K::PATH_SEGMENT, vec![n(K::NAME_REF, vec![t(K::IDENT, name)])]),
    }
}

/// A path `a::b::c`, nested as qualifier paths: `((a)::b)::c`.
fn path(names: &[&'static str]) -> Shape {
    let mut p = n(K::PATH, vec![segment(names[0])]);
    for name in &names[1..] {
        p = n(K::PATH, vec![p, t(K::COLONCOLON, "::"), segment(name)]);
    }
    p
}

fn extract_offset(text: &str) -> (u32, String) {
    let cursor = text.find("<|>").expect("no cursor marker");
    let mut s = String::new();
    s.push_str(&text[..cursor]);
    s.push_str(&text[cursor + 3..]);
    (cursor as u32, s)
}

fn apply(text: &str, assist: &Assist) -> String {
    let mut inserts: Vec<(u32, &str)> = assist.inserts.iter().map(|i| (i.offset, i.text)).collect();
    inserts.sort_by(|a, b| b.0.cmp(&a.0));
    let mut s = text.to_string();
    for (offset, ins) in inserts {
        s.insert_str(offset as usize, ins);
    }
    if let Some(cursor) = assist.cursor_position {
        s.insert_str(cursor as usize, "<|>");
    }
    s
}

fn check_assist(before: &str, shape: Shape, after: &str) {
    let (offset, text) = extract_offset(before);
    let tree = build(&shape);
    assert_eq!(tree.elem_text(0).iter().collect::<String>(), text);
    let assist = split_import(&tree, offset).expect("assist is not applicable");
    assert_eq!(apply(&text, &assist), after);
}

fn check_assist_target(before: &str, shape: Shape, target: &str) {
    let (offset, text) = extract_offset(before);
    let tree = build(&shape);
    assert_eq!(tree.elem_text(0).iter().collect::<String>(), text);
    let assist = split_import(&tree, offset).expect("assist is not applicable");
    assert_eq!(&text[assist.target.start as usize..assist.target.end as usize], target);
}

fn check_assist_not_applicable(before: &str, shape: Shape) {
    let (offset, text) = extract_offset(before);
    let tree = build(&shape);
    assert_eq!(tree.elem_text(0).iter().collect::<String>(), text);
    assert!(split_import(&tree, offset).is_none());
}

fn use_crate_db() -> Shape {
    n(
        K::SOURCE_FILE,
        vec![n(
            K::USE_ITEM,
            vec![
                t(K::USE_KW, "use"),
                t(K::WHITESPACE, " "),
                n(K::USE_TREE, vec![path(&["crate", "db", "RootDatabase"])]),
                t(K::SEMI, ";"),
            ],
        )],
    )
}

fn use_algo_visitor() -> Shape {
    n(
        K::SOURCE_FILE,
        vec![n(
            K::USE_ITEM,
            vec![
                t(K::USE_KW, "use"),
                t(K::WHITESPACE, " "),
                n(
                    K::USE_TREE,
                    vec![
                        path(&["algo", "visitor"]),
                        t(K::COLONCOLON, "::"),
                        n(
                            K::USE_TREE_LIST,
                            vec![
                                t(K::L_CURLY, "{"),
                                n(K::USE_TREE, vec![path(&["Visitor"])]),
                                t(K::COMMA, ","),
                                t(K::WHITESPACE, " "),
                                n(K::USE_TREE, vec![path(&["visit"])]),
                                t(K::R_CURLY, "}"),
                            ],
                        ),
                    ],
                ),
            ],
        )],
    )
}

#[test]
fn test_split_import() {
    check_assist(
        "use crate::<|>db::RootDatabase;",
        use_crate_db(),
        "use crate::{<|>db::RootDatabase};",
    )
}

#[test]
fn split_import_works_with_trees() {
    check_assist(
        "use algo:<|>:visitor::{Visitor, visit}",
        use_algo_visitor(),
        "use algo::{<|>visitor::{Visitor, visit}}",
    )
}

#[test]
fn split_import_target() {
    check_assist_target("use algo::<|>visitor::{Visitor, visit}", use_algo_visitor(), "::");
}

#[test]
fn split_import_at_second_separator() {
    check_assist(
        "use crate::db::<|>RootDatabase;",
        use_crate_db(),
        "use crate::db::{<|>RootDatabase};",
    )
}

#[test]
fn split_import_inside_a_tree_list() {
    let shape = n(
        K::SOURCE_FILE,
        vec![n(
            K::USE_ITEM,
            vec![
                t(K::USE_KW, "use"),
                t(K::WHITESPACE, " "),
                n(
                    K::USE_TREE,
                    vec![
                        path(&["a"]),
                        t(K::COLONCOLON, "::"),
                        n(
                            K::USE_TREE_LIST,
                            vec![
                                t(K::L_CURLY, "{"),
                                n(K::USE_TREE, vec![path(&["b", "c"])]),
                                t(K::R_CURLY, "}"),
                            ],
                        ),
                    ],
                ),
                t(K::SEMI, ";"),
            ],
        )],
    );
    check_assist("use a::{b::<|>c};", shape, "use a::{b::{<|>c}};")
}

#[test]
fn split_import_needs_coloncolon() {
    check_assist_not_applicable("use crate::db::Root<|>Database;", use_crate_db());
    check_assist_not_applicable("use<|> crate::db::RootDatabase;", use_crate_db());
}

#[test]
fn split_import_needs_a_use_tree() {
    // `a::b();` as an expression statement: the path is in no use tree.
    let shape = n(
        K::SOURCE_FILE,
        vec![n(
            K::FN_DEF,
            vec![
                t(K::FN_KW, "fn"),
                t(K::WHITESPACE, " "),
                n(K::NAME, vec![t(K::IDENT, "f")]),
                n(K::PARAM_LIST, vec![t(K::L_PAREN, "("), t(K::R_PAREN, ")")]),
                t(K::WHITESPACE, " "),
                n(
                    K::BLOCK,
                    vec![
                        t(K::L_CURLY, "{"),
                        t(K::WHITESPACE, " "),
                        n(
                            K::EXPR_STMT,
                            vec![
                                n(
                                    K::CALL_EXPR,
                                    vec![
                                        n(K::PATH_EXPR, vec![path(&["a", "b"])]),
                                        n(K::ARG_LIST, vec![t(K::L_PAREN, "("), t(K::R_PAREN, ")")]),
                                    ],
                                ),
                                t(K::SEMI, ";"),
                            ],
                        ),
                        t(K::WHITESPACE, " "),
                        t(K::R_CURLY, "}"),
                    ],
                ),
            ],
        )],
    );
    check_assist_not_applicable("fn f() { a::<|>b(); }", shape);
}

#[test]
fn split_import_assist_fields() {
    let (offset, _) = extract_offset("use crate::<|>db::RootDatabase;");
    let tree = build(&use_crate_db());
    let assist = split_import(&tree, offset).unwrap();
    assert_eq!(assist.id, "split_import");
    assert_eq!(assist.label, "split import");
    assert_eq!(assist.target.start, 9);
    assert_eq!(assist.target.end, 11);
    assert_eq!(assist.inserts.len(), 2);
    assert_eq!((assist.inserts[0].offset, assist.inserts[0].text), (11, "{"));
    assert_eq!((assist.inserts[1].offset, assist.inserts[1].text), (27, "}"));
    assert_eq!(assist.cursor_position, Some(12));
}
