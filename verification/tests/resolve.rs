use ra_ide_api::resolve::{
    child_module_symbols, module_symbol, symbol_lookup_at, FileSymbol, SymbolLookup, SymbolQuery,
    NAME_LOOKUP_LIMIT,
};
use ra_ide_api::text::TextRange;
use ra_ide_api::syntax_kind::SyntaxKind as K;
use ra_ide_api::tree::{SyntaxTree, TreeBuilder};
use ra_ide_api::world::{FileId, WorldError, WorldState};

enum Shape {
    Node(K, Vec<Shape>),
    Token(K, &'static str),
}

fn n(kind: K, children: Vec<Shape>) -> Shape {
    Shape::Node(kind, children)
}

fn t(kind: K, text: &'static str) -> Shape {
    Shape::Token(kind, text)
}

fn add(b: &mut TreeBuilder, s: &Shape) {
    match s {
        Shape::Node(kind, children) => {
            b.start_node(*kind);
            for c in children {
                add(b, c);
            }
            b.finish_node();
        }
        Shape::Token(kind, text) => b.token(*kind, text.chars().collect()),
    }
}

fn build(s: &Shape) -> SyntaxTree {
    let mut b = TreeBuilder::new();
    add(&mut b, s);
    b.finish()
}

fn chars(s: &str) -> Vec<char> {
    s.chars().collect()
}

/// `fn main() { foo(); }`
fn call_file() -> Shape {
    n(
        K::SOURCE_FILE,
        vec![n(
            K::FN_DEF,
            vec![
                t(K::FN_KW, "fn"),
                t(K::WHITESPACE, " "),
                n(K::NAME, vec![t(K::IDENT, "main")]),
                n(K::PARAM_LIST, vec![t(K::L_PAREN, "("), t(K::R_PAREN, ")")]),
                t(K::WHITESPACE, " "),
                n(
                    K::BLOCK,
                    vec![
                        t(K::L_CURLY, "{"),
                        t(K::WHITESPACE, " "),
                        n(
                            K::EXPR_STMT,
                            vec![
                                n(
                                    K::CALL_EXPR,
                                    vec![
                                        n(
                                            K::PATH_EXPR,
                                            vec![n(
                                                K::PATH,
                                                vec![n(
                                                    K::PATH_SEGMENT,
                                                    vec![n(K::NAME_REF, vec![t(K::IDENT, "foo")])],
                                                )],
                                            )],
                                        ),
                                        n(K::ARG_LIST, vec![t(K::L_PAREN, "("), t(K::R_PAREN, ")")]),
                                    ],
                                ),
                                t(K::SEMI, ";"),
                            ],
                        ),
                        t(K::WHITESPACE, " "),
                        t(K::R_CURLY, "}"),
                    ],
                ),
            ],
        )],
    )
}

/// `mod foo;` or, with `body`, `mod foo {}`.
fn module_file(body: bool) -> Shape {
    let mut m = vec![
        t(K::MOD_KW, "mod"),
        t(K::WHITESPACE, " "),
        n(K::NAME, vec![t(K::IDENT, "foo")]),
    ];
    if body {
        m.push(t(K::WHITESPACE, " "));
        m.push(n(K::ITEM_LIST, vec![t(K::L_CURLY, "{"), t(K::R_CURLY, "}")]));
    } else {
        m.push(t(K::SEMI, ";"));
    }
    n(K::SOURCE_FILE, vec![n(K::MODULE, m)])
}

fn by_name(name: &str) -> SymbolLookup {
    SymbolLookup::Symbols(SymbolQuery { name: chars(name), exact: true, limit: NAME_LOOKUP_LIMIT })
}

#[test]
fn name_reference_asks_for_exact_symbols() {
    let tree = build(&call_file());
    // `fn main() { f|oo(); }`
    assert_eq!(symbol_lookup_at(&tree, 13), by_name("foo"));
    assert_eq!(NAME_LOOKUP_LIMIT, 4);
}

#[test]
fn offset_between_trivia_and_name_reference_takes_the_name() {
    let tree = build(&call_file());
    // `fn main() { |foo(); }`: between the space and `foo`.
    assert_eq!(symbol_lookup_at(&tree, 12), by_name("foo"));
    // `fn main() { foo|(); }`: between `foo` and `(`; the left token wins.
    assert_eq!(symbol_lookup_at(&tree, 15), by_name("foo"));
}

#[test]
fn offset_away_from_names_asks_for_nothing() {
    let tree = build(&call_file());
    // Inside `fn`.
    assert_eq!(symbol_lookup_at(&tree, 1), SymbolLookup::Nothing);
    // On the name of the function: a name, but not of a module.
    assert_eq!(symbol_lookup_at(&tree, 4), SymbolLookup::Nothing);
    // After `;`, on the closing brace side.
    assert_eq!(symbol_lookup_at(&tree, 20), SymbolLookup::Nothing);
}

#[test]
fn module_declared_with_semicolon_asks_for_child_module() {
    let tree = build(&module_file(false));
    // `mod f|oo;`
    assert_eq!(symbol_lookup_at(&tree, 5), SymbolLookup::ChildModule(chars("foo")));
}

#[test]
fn inline_module_asks_for_nothing() {
    let tree = build(&module_file(true));
    // `mod f|oo {}`
    assert_eq!(symbol_lookup_at(&tree, 5), SymbolLookup::Nothing);
}

#[test]
fn empty_file_asks_for_nothing() {
    let tree = build(&n(K::SOURCE_FILE, vec![]));
    assert_eq!(symbol_lookup_at(&tree, 0), SymbolLookup::Nothing);
}

#[test]
fn resolving_in_unknown_file_fails() {
    let mut state = WorldState::new();
    state.change_file(FileId(1), Some("mod foo;".to_string()));
    let world = state.snapshot();
    let tree = build(&module_file(false));
    assert_eq!(
        world.approximately_resolve_symbol(FileId(2), &tree, 5),
        Err(WorldError::UnknownFile(FileId(2)))
    );
    assert_eq!(
        world.approximately_resolve_symbol(FileId(1), &tree, 5),
        Ok(SymbolLookup::ChildModule(chars("foo")))
    );
}

#[test]
fn child_module_symbols_name_each_file() {
    let files = vec![FileId(4), FileId(9)];
    let symbols = child_module_symbols(&chars("foo"), &files);
    let expected = |f: u32| {
        (
            FileId(f),
            FileSymbol { name: chars("foo"), node_range: TextRange { start: 0, end: 0 }, kind: K::MODULE },
        )
    };
    assert_eq!(symbols, vec![expected(4), expected(9)]);
    assert!(child_module_symbols(&chars("foo"), &vec![]).is_empty());
}

#[test]
fn module_symbol_takes_name_and_node_range() {
    // `mod foo {}`: the module node is the first child of the file.
    let tree = build(&module_file(true));
    assert_eq!(
        module_symbol(&tree, 1),
        Some(FileSymbol { name: chars("foo"), node_range: TextRange { start: 0, end: 10 }, kind: K::MODULE })
    );
    // The file node has no name child.
    assert_eq!(module_symbol(&tree, 0), None);
}
