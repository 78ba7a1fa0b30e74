//! The kinds of the tokens and nodes of a Rust syntax tree.
use vstd::prelude::*;

verus! {

/// The kind of a token (a leaf holding text) or of a node (an inner vertex).
#[allow(non_camel_case_types)]
#[derive(Clone, Copy, Debug, PartialEq, Eq, Structural, Hash)]
pub enum SyntaxKind {
    // Punctuation.
    SEMI,
    COMMA,
    L_PAREN,
    R_PAREN,
    L_CURLY,
    R_CURLY,
    L_BRACK,
    R_BRACK,
    L_ANGLE,
    R_ANGLE,
    AT,
    POUND,
    TILDE,
    QUESTION,
    DOLLAR,
    AMP,
    PIPE,
    PLUS,
    STAR,
    SLASH,
    CARET,
    PERCENT,
    UNDERSCORE,
    DOT,
    DOTDOT,
    COLON,
    COLONCOLON,
    EQ,
    EQEQ,
    FAT_ARROW,
    EXCL,
    NEQ,
    MINUS,
    THIN_ARROW,
    // Keywords.
    AS_KW,
    CONST_KW,
    CRATE_KW,
    ELSE_KW,
    ENUM_KW,
    EXTERN_KW,
    FN_KW,
    FOR_KW,
    IF_KW,
    IMPL_KW,
    LET_KW,
    LOOP_KW,
    MATCH_KW,
    MOD_KW,
    MUT_KW,
    PUB_KW,
    REF_KW,
    RETURN_KW,
    SELF_KW,
    STATIC_KW,
    STRUCT_KW,
    SUPER_KW,
    TRAIT_KW,
    TYPE_KW,
    USE_KW,
    WHERE_KW,
    WHILE_KW,
    // Literals and other tokens.
    INT_NUMBER,
    FLOAT_NUMBER,
    CHAR,
    BYTE,
    STRING,
    RAW_STRING,
    BYTE_STRING,
    RAW_BYTE_STRING,
    TRUE_KW,
    FALSE_KW,
    ERROR,
    IDENT,
    WHITESPACE,
    LIFETIME,
    COMMENT,
    SHEBANG,
    // Nodes.
    SOURCE_FILE,
    STRUCT_DEF,
    ENUM_DEF,
    FN_DEF,
    RET_TYPE,
    EXTERN_CRATE_ITEM,
    MODULE,
    USE_ITEM,
    STATIC_DEF,
    CONST_DEF,
    TRAIT_DEF,
    IMPL_BLOCK,
    TYPE_DEF,
    MACRO_CALL,
    TOKEN_TREE,
    PAREN_TYPE,
    TUPLE_TYPE,
    NEVER_TYPE,
    PATH_TYPE,
    POINTER_TYPE,
    ARRAY_TYPE,
    SLICE_TYPE,
    REFERENCE_TYPE,
    PLACEHOLDER_TYPE,
    FN_POINTER_TYPE,
    REF_PAT,
    BIND_PAT,
    PLACEHOLDER_PAT,
    PATH_PAT,
    STRUCT_PAT,
    FIELD_PAT_LIST,
    FIELD_PAT,
    TUPLE_STRUCT_PAT,
    TUPLE_PAT,
    SLICE_PAT,
    RANGE_PAT,
    LITERAL_PAT,
    TUPLE_EXPR,
    ARRAY_EXPR,
    PAREN_EXPR,
    PATH_EXPR,
    LAMBDA_EXPR,
    IF_EXPR,
    WHILE_EXPR,
    CONDITION,
    LOOP_EXPR,
    FOR_EXPR,
    CONTINUE_EXPR,
    BREAK_EXPR,
    LABEL,
    BLOCK_EXPR,
    RETURN_EXPR,
    MATCH_EXPR,
    MATCH_ARM_LIST,
    MATCH_ARM,
    MATCH_GUARD,
    STRUCT_LIT,
    NAMED_FIELD_LIST,
    NAMED_FIELD,
    CALL_EXPR,
    INDEX_EXPR,
    METHOD_CALL_EXPR,
    FIELD_EXPR,
    TRY_EXPR,
    CAST_EXPR,
    REF_EXPR,
    PREFIX_EXPR,
    RANGE_EXPR,
    BIN_EXPR,
    LITERAL,
    ITEM_LIST,
    ATTR,
    USE_TREE,
    USE_TREE_LIST,
    PATH,
    PATH_SEGMENT,
    NAME,
    NAME_REF,
    NAMED_FIELD_DEF_LIST,
    NAMED_FIELD_DEF,
    POS_FIELD_DEF_LIST,
    POS_FIELD_DEF,
    ENUM_VARIANT_LIST,
    ENUM_VARIANT,
    VISIBILITY,
    TYPE_PARAM_LIST,
    TYPE_PARAM,
    LIFETIME_PARAM,
    TYPE_ARG_LIST,
    TYPE_ARG,
    LIFETIME_ARG,
    WHERE_CLAUSE,
    WHERE_PRED,
    BLOCK,
    LET_STMT,
    EXPR_STMT,
    PARAM_LIST,
    SELF_PARAM,
    PARAM,
    ARG_LIST,
}

/// Kinds whose text is a comment or a string literal: inside them a selection
/// grows word by word.
pub open spec fn spec_is_string_like(k: SyntaxKind) -> bool {
    ||| k == SyntaxKind::COMMENT
    ||| k == SyntaxKind::STRING
    ||| k == SyntaxKind::RAW_STRING
    ||| k == SyntaxKind::BYTE_STRING
    ||| k == SyntaxKind::RAW_BYTE_STRING
}

/// Kinds of comma-separated lists: the selection of an item of such a list
/// grows to take in a neighbouring comma.
pub open spec fn spec_is_list_kind(k: SyntaxKind) -> bool {
    ||| k == SyntaxKind::FIELD_PAT_LIST
    ||| k == SyntaxKind::MATCH_ARM_LIST
    ||| k == SyntaxKind::NAMED_FIELD_DEF_LIST
    ||| k == SyntaxKind::POS_FIELD_DEF_LIST
    ||| k == SyntaxKind::NAMED_FIELD_LIST
    ||| k == SyntaxKind::ENUM_VARIANT_LIST
    ||| k == SyntaxKind::USE_TREE_LIST
    ||| k == SyntaxKind::TYPE_PARAM_LIST
    ||| k == SyntaxKind::TYPE_ARG_LIST
    ||| k == SyntaxKind::PARAM_LIST
    ||| k == SyntaxKind::ARG_LIST
    ||| k == SyntaxKind::ARRAY_EXPR
}

/// Whether `k` is one of the comment and string-literal kinds.
pub fn is_string_like(k: SyntaxKind) -> (r: bool)
    ensures
        r == spec_is_string_like(k),
{
    match k {
        SyntaxKind::COMMENT | SyntaxKind::STRING | SyntaxKind::RAW_STRING
        | SyntaxKind::BYTE_STRING | SyntaxKind::RAW_BYTE_STRING => true,
        _ => false,
    }
}

/// Whether `k` is one of the comma-separated list kinds.
pub fn is_list_kind(k: SyntaxKind) -> (r: bool)
    ensures
        r == spec_is_list_kind(k),
{
    match k {
        SyntaxKind::FIELD_PAT_LIST | SyntaxKind::MATCH_ARM_LIST
        | SyntaxKind::NAMED_FIELD_DEF_LIST | SyntaxKind::POS_FIELD_DEF_LIST
        | SyntaxKind::NAMED_FIELD_LIST | SyntaxKind::ENUM_VARIANT_LIST
        | SyntaxKind::USE_TREE_LIST | SyntaxKind::TYPE_PARAM_LIST
        | SyntaxKind::TYPE_ARG_LIST | SyntaxKind::PARAM_LIST | SyntaxKind::ARG_LIST
        | SyntaxKind::ARRAY_EXPR => true,
        _ => false,
    }
}

} // verus!
