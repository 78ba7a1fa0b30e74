use ra_ide_api::syntax_kind::SyntaxKind as K;
use ra_ide_api::text::TextRange;
use ra_ide_api::tree::{SyntaxTree, TokenAtOffset, TreeBuilder};

/// `fn f(a, b) {}` built by hand:
/// SOURCE_FILE
///   FN_DEF
///     FN_KW "fn", WHITESPACE " ", NAME (IDENT "f"),
///     PARAM_LIST ( L_PAREN "(", PARAM (IDENT "a"), COMMA ",", WHITESPACE " ",
///                  PARAM (IDENT "b"), R_PAREN ")" ),
///     WHITESPACE " ", BLOCK ( L_CURLY "{", R_CURLY "}" )
fn sample() -> SyntaxTree {
    let mut b = TreeBuilder::new();
    b.start_node(K::SOURCE_FILE);
    b.start_node(K::FN_DEF);
    b.token(K::FN_KW, "fn".chars().collect());
    b.token(K::WHITESPACE, " ".chars().collect());
    b.start_node(K::NAME);
    b.token(K::IDENT, "f".chars().collect());
    b.finish_node();
    b.start_node(K::PARAM_LIST);
    b.token(K::L_PAREN, "(".chars().collect());
    b.start_node(K::PARAM);
    b.token(K::IDENT, "a".chars().collect());
    b.finish_node();
    b.token(K::COMMA, ",".chars().collect());
    b.token(K::WHITESPACE, " ".chars().collect());
    b.start_node(K::PARAM);
    b.token(K::IDENT, "b".chars().collect());
    b.finish_node();
    b.token(K::R_PAREN, ")".chars().collect());
    b.finish_node();
    b.token(K::WHITESPACE, " ".chars().collect());
    b.start_node(K::BLOCK);
    b.token(K::L_CURLY, "{".chars().collect());
    b.token(K::R_CURLY, "}".chars().collect());
    b.finish_node();
    b.finish_node();
    b.finish_node();
    b.finish()
}

fn text_of(tree: &SyntaxTree, i: usize) -> String {
    tree.elem_text(i).into_iter().collect()
}

#[test]
fn builder_records_ranges_and_links() {
    let tree = sample();
    assert_eq!(tree.text_len(), 13);
    assert_eq!(tree.root(), 0);
    assert_eq!(tree.kind(0), K::SOURCE_FILE);
    assert_eq!(tree.range(0), TextRange { start: 0, end: 13 });
    assert_eq!(text_of(&tree, 0), "fn f(a, b) {}");
    let fn_def = tree.first_child(0).unwrap();
    assert_eq!(tree.kind(fn_def), K::FN_DEF);
    assert_eq!(tree.parent(fn_def), Some(0));
    let fn_kw = tree.first_child(fn_def).unwrap();
    assert!(tree.is_token(fn_kw));
    assert_eq!(tree.token_text(fn_kw), &vec!['f', 'n']);
    let ws = tree.next_sibling(fn_kw).unwrap();
    assert_eq!(tree.prev_sibling(ws), Some(fn_kw));
    assert_eq!(tree.range(ws), TextRange { start: 2, end: 3 });
    assert_eq!(tree.kind(tree.last_child(fn_def).unwrap()), K::BLOCK);
}

#[test]
fn token_at_offset_finds_one_or_two_tokens() {
    let tree = sample();
    // Inside `fn`.
    match tree.token_at_offset(1) {
        TokenAtOffset::Single(t) => assert_eq!(tree.kind(t), K::FN_KW),
        other => panic!("unexpected {:?}", other),
    }
    // Between `fn` and the space.
    match tree.token_at_offset(2) {
        TokenAtOffset::Between(l, r) => {
            assert_eq!(tree.kind(l), K::FN_KW);
            assert_eq!(tree.kind(r), K::WHITESPACE);
        }
        other => panic!("unexpected {:?}", other),
    }
    // At the very end: only the last token.
    match tree.token_at_offset(13) {
        TokenAtOffset::Single(t) => assert_eq!(tree.kind(t), K::R_CURLY),
        other => panic!("unexpected {:?}", other),
    }
}

#[test]
fn empty_tree_has_no_token() {
    let mut b = TreeBuilder::new();
    b.start_node(K::SOURCE_FILE);
    b.finish_node();
    let tree = b.finish();
    assert_eq!(tree.len(), 1);
    assert_eq!(tree.text_len(), 0);
    assert_eq!(tree.token_at_offset(0), TokenAtOffset::NoToken);
}

#[test]
fn covering_element_is_the_deepest_holder() {
    let tree = sample();
    // `a, b` lies in the parameter list.
    let e = tree.covering_element(TextRange { start: 5, end: 9 });
    assert_eq!(tree.kind(e), K::PARAM_LIST);
    // `a` alone is its token.
    let e = tree.covering_element(TextRange { start: 5, end: 6 });
    assert_eq!(tree.kind(e), K::IDENT);
    // A range across the name and the list is the function.
    let e = tree.covering_element(TextRange { start: 3, end: 6 });
    assert_eq!(tree.kind(e), K::FN_DEF);
}

#[test]
fn children_and_ancestors_by_kind() {
    let tree = sample();
    let fn_def = tree.first_child(0).unwrap();
    let list = tree.child_of_kind(fn_def, K::PARAM_LIST).unwrap();
    assert_eq!(text_of(&tree, list), "(a, b)");
    assert_eq!(tree.child_of_kind(fn_def, K::COMMA), None);
    let param = tree.child_of_kind(list, K::PARAM).unwrap();
    assert_eq!(text_of(&tree, param), "a");
    let ident = tree.first_child(param).unwrap();
    assert_eq!(tree.ancestor_of_kind(ident, K::FN_DEF), Some(fn_def));
    assert_eq!(tree.ancestor_of_kind(ident, K::IDENT), Some(ident));
    assert_eq!(tree.ancestor_of_kind(ident, K::BLOCK), None);
}

#[test]
fn char_after_reads_the_next_token() {
    let tree = sample();
    let fn_def = tree.first_child(0).unwrap();
    let name = tree.child_of_kind(fn_def, K::NAME).unwrap();
    assert_eq!(tree.char_after(name), Some('('));
    assert_eq!(tree.char_after(0), None);
}
