use ra_ide_api::extend_selection::{extend_selection, select_word, try_extend_selection};
use ra_ide_api::syntax_kind::SyntaxKind as K;
use ra_ide_api::text::TextRange;
use ra_ide_api::tree::{SyntaxTree, TreeBuilder};

enum Shape {
    Node(K, Vec<Shape>),
    Token(K, &'static str),
}

fn n(kind: K, children: Vec<Shape>) -> Shape {
    Shape::Node(kind, children)
}

fn t(kind: K, text: &'static str) -> Shape {
    Shape::Token(kind, text)
}

fn add(b: &mut TreeBuilder, s: &Shape) {
    match s {
        Shape::Node(kind, children) => {
            b.start_node(*kind);
            for c in children {
                add(b, c);
            }
            b.finish_node();
        }
        Shape::Token(kind, text) => b.token(*kind, text.chars().collect()),
    }
}

fn build(s: &Shape) -> SyntaxTree {
    let mut b = TreeBuilder::new();
    add(&mut b, s);
    b.finish()
}

fn segment(name: &'static str) -> Shape {
    match name {
        "crate" => n(K::PATH_SEGMENT, vec![t(K::CRATE_KW, name)]),
        "self" => n(K::PATH_SEGMENT, vec![t(K::SELF_KW, name)]),
        "super" => n(K::PATH_SEGMENT, vec![t(K::SUPER_KW, name)]),
        _ => n(K::PATH_SEGMENT, vec![n(K::NAME_REF, vec![t(K::IDENT, name)])]),
    }
}

/// A path `a::b::c`, nested as qualifier paths: `((a)::b)::c`.
fn path(names: &[&'static str]) -> Shape {
    let mut p = n(K::PATH, vec![segment(names[0])]);
    for name in &names[1..] {
        p = n(K::PATH, vec![p, t(K::COLONCOLON, "::"), segment(name)]);
    }
    p
}

fn extract_offset(text: &str) -> (u32, String) {
    let cursor = text.find("<|>").expect("no cursor marker");
    let mut s = String::new();
    s.push_str(&text[..cursor]);
    s.push_str(&text[cursor + 3..]);
    (cursor as u32, s)
}

fn ws(text: &'static str) -> Shape {
    t(K::WHITESPACE, text)
}

fn name(text: &'static str) -> Shape {
    n(K::NAME, vec![t(K::IDENT, text)])
}

fn lit(text: &'static str) -> Shape {
    n(K::LITERAL, vec![t(K::INT_NUMBER, text)])
}

fn empty_params() -> Shape {
    n(K::PARAM_LIST, vec![t(K::L_PAREN, "("), t(K::R_PAREN, ")")])
}

fn empty_block() -> Shape {
    n(K::BLOCK, vec![t(K::L_CURLY, "{"), t(K::R_CURLY, "}")])
}

/// `name: ty` as a function parameter.
fn param(pat: &'static str, ty: &'static str) -> Shape {
    n(
        K::PARAM,
        vec![
            n(K::BIND_PAT, vec![name(pat)]),
            t(K::COLON, ":"),
            ws(" "),
            n(K::PATH_TYPE, vec![path(&[ty])]),
        ],
    )
}

/// `fn <name>(<params>) {}` with the given parameter-list children.
fn fn_with_params(fn_name: &'static str, params: Vec<Shape>) -> Shape {
    let mut list = vec![t(K::L_PAREN, "(")];
    list.extend(params);
    list.push(t(K::R_PAREN, ")"));
    n(
        K::FN_DEF,
        vec![
            t(K::FN_KW, "fn"),
            ws(" "),
            name(fn_name),
            n(K::PARAM_LIST, list),
            ws(" "),
            empty_block(),
        ],
    )
}

/// `const FOO: [usize; 2] = [<items>]` with the given array children
/// between the brackets.
fn const_array(items: Vec<Shape>) -> Shape {
    let mut array = vec![t(K::L_BRACK, "[")];
    array.extend(items);
    array.push(t(K::R_BRACK, "]"));
    n(
        K::CONST_DEF,
        vec![
            t(K::CONST_KW, "const"),
            ws(" "),
            name("FOO"),
            t(K::COLON, ":"),
            ws(" "),
            n(
                K::ARRAY_TYPE,
                vec![
                    t(K::L_BRACK, "["),
                    n(K::PATH_TYPE, vec![path(&["usize"])]),
                    t(K::SEMI, ";"),
                    ws(" "),
                    lit("2"),
                    t(K::R_BRACK, "]"),
                ],
            ),
            ws(" "),
            t(K::EQ, "="),
            ws(" "),
            n(K::ARRAY_EXPR, array),
        ],
    )
}

/// `fn bar(){}`
fn fn_bar() -> Shape {
    n(K::FN_DEF, vec![t(K::FN_KW, "fn"), ws(" "), name("bar"), empty_params(), empty_block()])
}

fn file(children: Vec<Shape>) -> Shape {
    n(K::SOURCE_FILE, children)
}

fn do_check(before: &str, shape: Shape, afters: &[&str]) {
    let (cursor, text) = extract_offset(before);
    let tree = build(&shape);
    assert_eq!(tree.elem_text(0).iter().collect::<String>(), text);
    let mut range = TextRange::empty_at(cursor);
    for &after in afters {
        let next = try_extend_selection(&tree, range).unwrap();
        assert!(next.start <= range.start && range.end <= next.end);
        range = next;
        let actual = &text[range.start as usize..range.end as usize];
        assert_eq!(after, actual);
    }
}

fn arith_file() -> Shape {
    file(vec![n(
        K::FN_DEF,
        vec![
            t(K::FN_KW, "fn"),
            ws(" "),
            name("foo"),
            empty_params(),
            ws(" "),
            n(
                K::BLOCK,
                vec![
                    t(K::L_CURLY, "{"),
                    ws(" "),
                    n(K::BIN_EXPR, vec![lit("1"), ws(" "), t(K::PLUS, "+"), ws(" "), lit("1")]),
                    ws(" "),
                    t(K::R_CURLY, "}"),
                ],
            ),
        ],
    )])
}

#[test]
fn test_extend_selection_arith() {
    do_check(r#"fn foo() { <|>1 + 1 }"#, arith_file(), &["1", "1 + 1", "{ 1 + 1 }"]);
}

#[test]
fn test_extend_selection_list() {
    let one = || file(vec![fn_with_params("foo", vec![param("x", "i32")])]);
    let two = || {
        file(vec![fn_with_params(
            "foo",
            vec![param("x", "i32"), t(K::COMMA, ","), ws(" "), param("y", "i32")],
        )])
    };
    let two_tight = || {
        file(vec![fn_with_params("foo", vec![param("x", "i32"), t(K::COMMA, ","), param("y", "i32")])])
    };
    let two_trailing = || {
        file(vec![fn_with_params(
            "foo",
            vec![
                param("x", "i32"),
                t(K::COMMA, ","),
                ws(" "),
                param("y", "i32"),
                t(K::COMMA, ","),
                ws(" "),
            ],
        )])
    };
    do_check(r#"fn foo(<|>x: i32) {}"#, one(), &["x", "x: i32"]);
    do_check(r#"fn foo(<|>x: i32, y: i32) {}"#, two(), &["x", "x: i32", "x: i32, "]);
    do_check(r#"fn foo(<|>x: i32,y: i32) {}"#, two_tight(), &["x", "x: i32", "x: i32,"]);
    do_check(r#"fn foo(x: i32, <|>y: i32) {}"#, two(), &["y", "y: i32", ", y: i32"]);
    do_check(r#"fn foo(x: i32, <|>y: i32, ) {}"#, two_trailing(), &["y", "y: i32", ", y: i32"]);
    do_check(r#"fn foo(x: i32,<|>y: i32) {}"#, two_tight(), &["y", "y: i32", ",y: i32"]);

    let spaced = || {
        file(vec![const_array(vec![
            ws(" "),
            lit("22"),
            ws(" "),
            t(K::COMMA, ","),
            ws(" "),
            lit("33"),
        ]), t(K::SEMI, ";")])
    };
    let spaced_trailing = || {
        file(vec![const_array(vec![
            ws(" "),
            lit("22"),
            ws(" "),
            t(K::COMMA, ","),
            ws(" "),
            lit("33"),
            ws(" "),
            t(K::COMMA, ","),
        ]), t(K::SEMI, ";")])
    };
    do_check(r#"const FOO: [usize; 2] = [ 22<|> , 33];"#, spaced(), &["22", "22 , "]);
    do_check(r#"const FOO: [usize; 2] = [ 22 , 33<|>];"#, spaced(), &["33", ", 33"]);
    do_check(r#"const FOO: [usize; 2] = [ 22 , 33<|> ,];"#, spaced_trailing(), &["33", ", 33"]);

    do_check(
        r#"
const FOO: [usize; 2] = [
    22,
    <|>33,
]"#,
        file(vec![
            ws("\n"),
            const_array(vec![
                ws("\n    "),
                lit("22"),
                t(K::COMMA, ","),
                ws("\n    "),
                lit("33"),
                t(K::COMMA, ","),
                ws("\n"),
            ]),
        ]),
        &["33", "33,"],
    );

    do_check(
        r#"
const FOO: [usize; 2] = [
    22
    , 33<|>,
]"#,
        file(vec![
            ws("\n"),
            const_array(vec![
                ws("\n    "),
                lit("22"),
                ws("\n    "),
                t(K::COMMA, ","),
                ws(" "),
                lit("33"),
                t(K::COMMA, ","),
                ws("\n"),
            ]),
        ]),
        &["33", ", 33"],
    );
}

#[test]
fn test_extend_selection_start_of_the_line() {
    let shape = file(vec![
        ws("\n"),
        n(
            K::IMPL_BLOCK,
            vec![
                t(K::IMPL_KW, "impl"),
                ws(" "),
                n(K::PATH_TYPE, vec![path(&["S"])]),
                ws(" "),
                n(
                    K::ITEM_LIST,
                    vec![
                        t(K::L_CURLY, "{"),
                        ws("\n    "),
                        n(
                            K::FN_DEF,
                            vec![
                                t(K::FN_KW, "fn"),
                                ws(" "),
                                name("foo"),
                                empty_params(),
                                ws(" "),
                                n(K::BLOCK, vec![t(K::L_CURLY, "{"), ws("\n\n    "), t(K::R_CURLY, "}")]),
                            ],
                        ),
                        ws("\n"),
                        t(K::R_CURLY, "}"),
                    ],
                ),
            ],
        ),
    ]);
    do_check(
        r#"
impl S {
<|>    fn foo() {

    }
}"#,
        shape,
        &["    fn foo() {\n\n    }\n"],
    );
}

#[test]
fn test_extend_selection_doc_comments() {
    let shape = file(vec![
        ws("\n"),
        n(K::STRUCT_DEF, vec![t(K::STRUCT_KW, "struct"), ws(" "), name("A"), t(K::SEMI, ";")]),
        ws("\n\n"),
        n(
            K::STRUCT_DEF,
            vec![
                t(K::COMMENT, "/// bla"),
                ws("\n"),
                t(K::COMMENT, "/// bla"),
                ws("\n"),
                t(K::STRUCT_KW, "struct"),
                ws(" "),
                name("B"),
                ws(" "),
                n(K::NAMED_FIELD_DEF_LIST, vec![t(K::L_CURLY, "{"), ws("\n    \n"), t(K::R_CURLY, "}")]),
            ],
        ),
        ws("\n            "),
    ]);
    do_check(
        r#"
struct A;

/// bla
/// bla
struct B {
    <|>
}
            "#,
        shape,
        &["\n    \n", "{\n    \n}", "/// bla\n/// bla\nstruct B {\n    \n}"],
    )
}

#[test]
fn test_extend_selection_comments() {
    do_check(
        r#"
fn bar(){}

// fn foo() {
// 1 + <|>1
// }

// fn foo(){}
    "#,
        file(vec![
            ws("\n"),
            fn_bar(),
            ws("\n\n"),
            t(K::COMMENT, "// fn foo() {"),
            ws("\n"),
            t(K::COMMENT, "// 1 + 1"),
            ws("\n"),
            t(K::COMMENT, "// }"),
            ws("\n\n"),
            t(K::COMMENT, "// fn foo(){}"),
            ws("\n    "),
        ]),
        &["1", "// 1 + 1", "// fn foo() {\n// 1 + 1\n// }"],
    );

    do_check(
        r#"
// #[derive(Debug, Clone, Copy, PartialEq, Eq)]
// pub enum Direction {
//  <|>   Next,
//     Prev
// }
"#,
        file(vec![
            ws("\n"),
            t(K::COMMENT, "// #[derive(Debug, Clone, Copy, PartialEq, Eq)]"),
            ws("\n"),
            t(K::COMMENT, "// pub enum Direction {"),
            ws("\n"),
            t(K::COMMENT, "//     Next,"),
            ws("\n"),
            t(K::COMMENT, "//     Prev"),
            ws("\n"),
            t(K::COMMENT, "// }"),
            ws("\n"),
        ]),
        &[
            "//     Next,",
            "// #[derive(Debug, Clone, Copy, PartialEq, Eq)]\n// pub enum Direction {\n//     Next,\n//     Prev\n// }",
        ],
    );

    do_check(
        r#"
/*
foo
_bar1<|>*/
"#,
        file(vec![ws("\n"), t(K::COMMENT, "/*\nfoo\n_bar1*/"), ws("\n")]),
        &["_bar1", "/*\nfoo\n_bar1*/"],
    );

    do_check(r#"//!<|>foo_2 bar"#, file(vec![t(K::COMMENT, "//!foo_2 bar")]), &["foo_2", "//!foo_2 bar"]);

    do_check(r#"/<|>/foo bar"#, file(vec![t(K::COMMENT, "//foo bar")]), &["//foo bar"]);
}

fn main_with(expr: Shape) -> Shape {
    file(vec![
        ws("\n"),
        n(
            K::FN_DEF,
            vec![
                t(K::FN_KW, "fn"),
                ws(" "),
                name("main"),
                empty_params(),
                ws(" "),
                n(
                    K::BLOCK,
                    vec![
                        t(K::L_CURLY, "{"),
                        ws(" "),
                        n(K::EXPR_STMT, vec![expr, t(K::SEMI, ";")]),
                        t(K::R_CURLY, "}"),
                    ],
                ),
            ],
        ),
        ws("\n"),
    ])
}

fn foo_plus_bar() -> Shape {
    main_with(n(
        K::BIN_EXPR,
        vec![
            n(K::PATH_EXPR, vec![path(&["foo"])]),
            t(K::PLUS, "+"),
            n(K::PATH_EXPR, vec![path(&["bar"])]),
        ],
    ))
}

#[test]
fn test_extend_selection_prefer_idents() {
    do_check(
        r#"
fn main() { foo<|>+bar;}
"#,
        foo_plus_bar(),
        &["foo", "foo+bar"],
    );
    do_check(
        r#"
fn main() { foo+<|>bar;}
"#,
        foo_plus_bar(),
        &["bar", "foo+bar"],
    );
}

fn fn_with_lifetime() -> Shape {
    file(vec![n(
        K::FN_DEF,
        vec![
            t(K::FN_KW, "fn"),
            ws(" "),
            name("foo"),
            n(
                K::TYPE_PARAM_LIST,
                vec![
                    t(K::L_ANGLE, "<"),
                    n(K::LIFETIME_PARAM, vec![t(K::LIFETIME, "'a")]),
                    t(K::R_ANGLE, ">"),
                ],
            ),
            empty_params(),
            ws(" "),
            empty_block(),
        ],
    )])
}

#[test]
fn test_extend_selection_prefer_lifetimes() {
    do_check(r#"fn foo<<|>'a>() {}"#, fn_with_lifetime(), &["'a", "<'a>"]);
    do_check(r#"fn foo<'a<|>>() {}"#, fn_with_lifetime(), &["'a", "<'a>"]);
}

#[test]
fn test_extend_selection_select_first_word() {
    do_check(
        r#"// foo bar b<|>az quxx"#,
        file(vec![t(K::COMMENT, "// foo bar baz quxx")]),
        &["baz", "// foo bar baz quxx"],
    );
    do_check(
        r#"
impl S {
fn foo() {
// hel<|>lo world
}
}
"#,
        file(vec![
            ws("\n"),
            n(
                K::IMPL_BLOCK,
                vec![
                    t(K::IMPL_KW, "impl"),
                    ws(" "),
                    n(K::PATH_TYPE, vec![path(&["S"])]),
                    ws(" "),
                    n(
                        K::ITEM_LIST,
                        vec![
                            t(K::L_CURLY, "{"),
                            ws("\n"),
                            n(
                                K::FN_DEF,
                                vec![
                                    t(K::FN_KW, "fn"),
                                    ws(" "),
                                    name("foo"),
                                    empty_params(),
                                    ws(" "),
                                    n(
                                        K::BLOCK,
                                        vec![
                                            t(K::L_CURLY, "{"),
                                            ws("\n"),
                                            t(K::COMMENT, "// hello world"),
                                            ws("\n"),
                                            t(K::R_CURLY, "}"),
                                        ],
                                    ),
                                ],
                            ),
                            ws("\n"),
                            t(K::R_CURLY, "}"),
                        ],
                    ),
                ],
            ),
            ws("\n"),
        ]),
        &["hello", "// hello world"],
    );
}

#[test]
fn test_extend_selection_string() {
    do_check(
        r#"
fn bar(){}

" fn f<|>oo() {"
"#,
        file(vec![
            ws("\n"),
            fn_bar(),
            ws("\n\n"),
            n(K::ERROR, vec![t(K::STRING, "\" fn foo() {\"")]),
            ws("\n"),
        ]),
        &["foo", "\" fn foo() {\""],
    );
}

#[test]
fn extend_selection_whole_file_stays() {
    let tree = build(&arith_file());
    let whole = TextRange::from_to(0, tree.text_len());
    assert!(try_extend_selection(&tree, whole).is_none());
    let r = extend_selection(&tree, whole);
    assert_eq!((r.start, r.end), (0, tree.text_len()));
}

#[test]
fn extend_selection_of_empty_text() {
    let tree = build(&file(vec![]));
    assert_eq!(tree.text_len(), 0);
    assert!(try_extend_selection(&tree, TextRange::empty_at(0)).is_none());
}

#[test]
fn extend_selection_grows_to_the_whole_file() {
    // Growing over and over ends at the whole text, each step strictly larger.
    let tree = build(&arith_file());
    let mut range = TextRange::empty_at(12);
    let mut steps = 0;
    while let Some(next) = try_extend_selection(&tree, range) {
        assert!(next.start <= range.start && range.end <= next.end);
        if range.start != range.end {
            assert!(next != range);
        }
        range = next;
        steps += 1;
        assert!(steps < 20);
    }
    assert_eq!((range.start, range.end), (0, tree.text_len()));
}

#[test]
fn select_word_exact_ranges() {
    let text: Vec<char> = "// foo_bar baz".chars().collect();
    let alnum: Vec<bool> = text.iter().map(|c| c.is_alphanumeric()).collect();
    let w = select_word(&text, &alnum, 5).unwrap();
    assert_eq!((w.start, w.end), (3, 10));
    // A cursor right after a non-word character selects the word that follows.
    let w = select_word(&text, &alnum, 11).unwrap();
    assert_eq!((w.start, w.end), (11, 14));
    // No non-word character before the cursor: no word.
    let text2: Vec<char> = "abc".chars().collect();
    let alnum2: Vec<bool> = text2.iter().map(|c| c.is_alphanumeric()).collect();
    assert!(select_word(&text2, &alnum2, 1).is_none());
    // An empty word: the cursor between two non-word characters.
    assert!(select_word(&text, &alnum, 2).is_none());
}

#[test]
fn select_word_counts_bytes_of_wide_characters() {
    // "é" takes two bytes: offsets are byte offsets.
    let text: Vec<char> = "/* héllo */".chars().collect();
    let alnum: Vec<bool> = text.iter().map(|c| c.is_alphanumeric()).collect();
    let w = select_word(&text, &alnum, 5).unwrap();
    assert_eq!((w.start, w.end), (3, 9));
}

#[test]
fn extend_selection_word_in_unicode_comment() {
    // `char::is_alphanumeric` takes in non-ASCII letters.
    let shape = file(vec![t(K::COMMENT, "// añb c")]);
    do_check("// a<|>ñb c", shape, &["añb", "// añb c"]);
}

#[test]
fn cursor_between_equal_priorities_takes_the_left_token() {
    let tree = build(&n(K::SOURCE_FILE, vec![empty_params()]));
    assert_eq!(
        extend_selection(&tree, TextRange { start: 1, end: 1 }),
        TextRange { start: 0, end: 1 }
    );
}
