//! The vocabulary of the query grammar: its tokens, its rules, and the rows of the
//! parse table built from them.
use vstd::prelude::*;

verus! {

/// A token of the query grammar: a terminal (upper case) or a rule name.
#[allow(non_camel_case_types)]
#[derive(PartialEq, Eq, Hash, Clone, Copy, Debug)]
pub enum Token {
    AND,
    ASTERISK,
    COLON,
    COMMA,
    DOT,
    DOUBLE_EQUALS,
    DOUBLE_QUESTION,
    END,
    EQUAL,
    FALSE,
    FLOAT,
    FORWARD_SLASH,
    F_STRING_DOUBLE_QUOTE_LEFT,
    F_STRING_DOUBLE_QUOTE_MIDDLE,
    F_STRING_DOUBLE_QUOTE_RIGHT,
    F_STRING_SINGLE_QUOTE_LEFT,
    F_STRING_SINGLE_QUOTE_MIDDLE,
    F_STRING_SINGLE_QUOTE_RIGHT,
    GREATER_THAN,
    GREATER_THAN_OR_EQUAL,
    IDENTIFIER,
    INTEGER,
    LEFT_BRACE,
    LEFT_BRACKET,
    LEFT_PAREN,
    LESS_THAN,
    LESS_THAN_OR_EQUAL,
    LET,
    MINUS,
    NOT_EQUALS,
    NULL,
    OR,
    PIPE,
    PLUS,
    RIGHT_BRACE,
    RIGHT_BRACKET,
    RIGHT_PAREN,
    STRING_DOUBLE_QUOTE,
    STRING_SINGLE_QUOTE,
    TRUE,
    main,
    expr,
    assignExpr,
    opPipeExpr,
    opCoalesceExpr,
    opOrExpr,
    opAndExpr,
    equalityOperator,
    opEqualityExpr,
    opAddOperator,
    opAddExpr,
    opMulOperator,
    opMulExpr,
    opAccessExpr,
    baseExpr,
    baseDotExpr,
    baseDotAccess,
    listAccessIdx,
    listAccessExpr,
    mapExpr,
    mapContents,
    mapContentsElem,
    listExpr,
    listExprContents,
    listElem,
    stringLiteral,
    innerFormatStringSingleQuote,
    innerFormatStringDoubleQuote,
    fcnCallExpr,
    fcnCallArgs,
}

/// A rule of the query grammar, named after its token and its steps.
#[allow(non_camel_case_types)]
#[derive(Debug, Clone, Copy)]
pub enum RuleType {
    main__expr_END,
    expr__assignExpr,
    assignExpr__opPipeExpr,
    assignExpr__LET_IDENTIFIER_EQUAL_opCoalesceExpr_PIPE_assignExpr,
    assignExpr__opPipeExpr_PIPE_LET_IDENTIFIER_EQUAL_opCoalesceExpr_PIPE_assignExpr,
    opPipeExpr__opCoalesceExpr,
    opPipeExpr__opPipeExpr_PIPE_opCoalesceExpr,
    opCoalesceExpr__opOrExpr,
    opCoalesceExpr__opCoalesceExpr_DOUBLE_QUESTION_opOrExpr,
    opOrExpr__opAndExpr,
    opOrExpr__opOrExpr_OR_opAndExpr,
    opAndExpr__opEqualityExpr,
    opAndExpr__opAndExpr_AND_opEqualityExpr,
    equalityOperator__DOUBLE_EQUALS,
    equalityOperator__NOT_EQUALS,
    equalityOperator__LESS_THAN,
    equalityOperator__LESS_THAN_OR_EQUAL,
    equalityOperator__GREATER_THAN,
    equalityOperator__GREATER_THAN_OR_EQUAL,
    opEqualityExpr__opAddExpr,
    opEqualityExpr__opAddExpr_equalityOperator_opAddExpr,
    opAddOperator__PLUS,
    opAddOperator__MINUS,
    opAddExpr__opMulExpr,
    opAddExpr__opAddExpr_opAddOperator_opMulExpr,
    opMulOperator__ASTERISK,
    opMulOperator__FORWARD_SLASH,
    opMulExpr__opAccessExpr,
    opMulExpr__opMulExpr_opMulOperator_opAccessExpr,
    opAccessExpr__baseExpr,
    opAccessExpr__opAccessExpr_DOT_IDENTIFIER,
    opAccessExpr__opAccessExpr_LEFT_BRACKET_listAccessExpr_RIGHT_BRACKET,
    baseExpr__baseDotExpr,
    baseExpr__baseDotAccess,
    baseExpr__mapExpr,
    baseExpr__listExpr,
    baseExpr__LEFT_PAREN_expr_RIGHT_PAREN,
    baseExpr__INTEGER,
    baseExpr__FLOAT,
    baseExpr__stringLiteral,
    baseExpr__TRUE,
    baseExpr__FALSE,
    baseExpr__NULL,
    baseExpr__fcnCallExpr,
    baseExpr__IDENTIFIER,
    baseDotExpr__DOT,
    baseDotAccess__DOT_IDENTIFIER,
    listAccessIdx__expr,
    listAccessIdx__FORWARD_SLASH_expr,
    listAccessExpr__listAccessIdx,
    listAccessExpr__listAccessIdx_COLON,
    listAccessExpr__COLON_listAccessIdx,
    listAccessExpr__listAccessIdx_COLON_listAccessIdx,
    listAccessExpr__COLON,
    mapExpr__LEFT_BRACE_RIGHT_BRACE,
    mapExpr__LEFT_BRACE_mapContents_RIGHT_BRACE,
    mapExpr__LEFT_BRACE_mapContents_COMMA_RIGHT_BRACE,
    mapContents__mapContentsElem,
    mapContents__mapContents_COMMA_mapContentsElem,
    mapContentsElem__IDENTIFIER_COLON_expr,
    listExpr__LEFT_BRACKET_RIGHT_BRACKET,
    listExpr__LEFT_BRACKET_listExprContents_RIGHT_BRACKET,
    listExpr__LEFT_BRACKET_listExprContents_COMMA_RIGHT_BRACKET,
    listExprContents__listElem,
    listExprContents__listExprContents_COMMA_listElem,
    listElem__expr,
    stringLiteral__STRING_SINGLE_QUOTE,
    stringLiteral__F_STRING_SINGLE_QUOTE_LEFT_innerFormatStringSingleQuote_F_STRING_SINGLE_QUOTE_RIGHT,
    innerFormatStringSingleQuote__expr,
    innerFormatStringSingleQuote__innerFormatStringSingleQuote_F_STRING_SINGLE_QUOTE_MIDDLE_expr,
    stringLiteral__STRING_DOUBLE_QUOTE,
    stringLiteral__F_STRING_DOUBLE_QUOTE_LEFT_innerFormatStringDoubleQuote_F_STRING_DOUBLE_QUOTE_RIGHT,
    innerFormatStringDoubleQuote__expr,
    innerFormatStringDoubleQuote__innerFormatStringDoubleQuote_F_STRING_DOUBLE_QUOTE_MIDDLE_expr,
    fcnCallExpr__IDENTIFIER_LEFT_PAREN_RIGHT_PAREN,
    fcnCallExpr__IDENTIFIER_LEFT_PAREN_fcnCallArgs_RIGHT_PAREN,
    fcnCallExpr__IDENTIFIER_LEFT_PAREN_fcnCallArgs_COMMA_RIGHT_PAREN,
    fcnCallArgs__expr,
    fcnCallArgs__fcnCallArgs_COMMA_expr,
}

/// A rule: the token it produces and the tokens it is made of.
pub struct Rule<'a> {
    pub rule_type: RuleType,
    pub token: Token,
    pub steps: &'a [Token],
}

/// A set of tokens that may come next in some state of the parser.
pub struct TokenGroup<'a> {
    pub tokens: &'a [Token],
}

/// How a terminal token is recognised: the pattern of its text.
pub struct TokenDef<'a> {
    pub token: Token,
    pub pattern: &'a str,
}

/// A row of the parse table: in `state`, on `token` (or after reducing to `rule_name`),
/// the parser expects `token_group`, moves to `next_state`, or reduces by `reduce_rule`.
#[derive(Clone, Copy)]
pub struct LookupRow {
    pub state: u64,
    pub token: Option<Token>,
    pub rule_name: Option<Token>,
    pub token_group: Option<u64>,
    pub next_state: Option<u64>,
    pub reduce_rule: Option<u64>,
}

} // verus!
