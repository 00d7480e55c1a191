use kilojoule::ast_node_pool::{AstNode, AstNodePool, AstNodePtr};
use kilojoule::parser::Parser;

/// Renders the tree at `ptr` as text, to compare whole trees at once.
fn render(parser: &Parser, text: &str, ptr: AstNodePtr) -> String {
    let r = |p: AstNodePtr| render(parser, text, p);
    let opt = |p: Option<AstNodePtr>| match p {
        None => "-".to_string(),
        Some(p) => render(parser, text, p),
    };
    match *parser.get_node(ptr) {
        AstNode::Null => "null".to_string(),
        AstNode::SubString(s, e) => format!("'{}'", &text[s..e]),
        AstNode::Identifier(s, e) => text[s..e].to_string(),
        AstNode::Integer(v) => v.to_string(),
        AstNode::Bool(b) => b.to_string(),
        AstNode::Dot => ".".to_string(),
        AstNode::Pipe(a, b) => format!("Pipe({}, {})", r(a), r(b)),
        AstNode::Access(a) => format!("Access({})", r(a)),
        AstNode::AccessChain(a, b) => format!("Chain({}, {})", r(a), r(b)),
        AstNode::Coalesce(a, b) => format!("Coalesce({}, {})", r(a), r(b)),
        AstNode::Equals(a, b) => format!("Eq({}, {})", r(a), r(b)),
        AstNode::NotEquals(a, b) => format!("Ne({}, {})", r(a), r(b)),
        AstNode::LessThan(a, b) => format!("Lt({}, {})", r(a), r(b)),
        AstNode::LessThanOrEqual(a, b) => format!("Le({}, {})", r(a), r(b)),
        AstNode::GreaterThan(a, b) => format!("Gt({}, {})", r(a), r(b)),
        AstNode::GreaterThanOrEqual(a, b) => format!("Ge({}, {})", r(a), r(b)),
        AstNode::Or(a, b) => format!("Or({}, {})", r(a), r(b)),
        AstNode::And(a, b) => format!("And({}, {})", r(a), r(b)),
        AstNode::Add(a, b) => format!("Add({}, {})", r(a), r(b)),
        AstNode::Subtract(a, b) => format!("Sub({}, {})", r(a), r(b)),
        AstNode::Multiply(a, b) => format!("Mul({}, {})", r(a), r(b)),
        AstNode::Divide(a, b) => format!("Div({}, {})", r(a), r(b)),
        AstNode::Not(a) => format!("Not({})", r(a)),
        AstNode::Negative(a) => format!("Neg({})", r(a)),
        AstNode::Spread(a) => format!("Spread({})", r(a)),
        AstNode::KeywordArgument(a, b) => format!("Kw({}, {})", r(a), r(b)),
        AstNode::LetStmt { identifier, expr } => format!("Let({}, {})", r(identifier), r(expr)),
        AstNode::FcnCall { name, args } => format!("Call({}, {})", r(name), opt(args)),
        AstNode::ListNode(a, b) => format!("List({}, {})", r(a), r(b)),
        AstNode::MapKeyValPair { key, val } => format!("Kv({}, {})", r(key), r(val)),
        AstNode::MapLiteral(a) => format!("Map({})", opt(a)),
        AstNode::ListLiteral(a) => format!("ListLit({})", opt(a)),
        AstNode::FormatString(a) => format!("Fmt({})", opt(a)),
        AstNode::ReverseIdx(a) => format!("Rev({})", r(a)),
        AstNode::SliceAccess(a, b) => format!("Slice({}, {})", opt(a), opt(b)),
    }
}

fn parse(text: &str) -> String {
    let mut parser = Parser::new(text);
    match parser.external_parse_expr() {
        None => "none".to_string(),
        Some(Err(err)) => err.to_string(),
        Some(Ok(ptr)) => render(&parser, text, ptr),
    }
}

#[test]
fn parser_operator_precedence() {
    assert_eq!(parse("1 + 2 * 3"), "Add(1, Mul(2, 3))");
    assert_eq!(parse("1 * 2 + 3"), "Add(Mul(1, 2), 3)");
    assert_eq!(parse("1 - 2 - 3"), "Sub(Sub(1, 2), 3)");
    assert_eq!(parse("a or b and c"), "Or(a, And(b, c))");
    assert_eq!(parse("not a == b"), "Not(Eq(a, b))");
    assert_eq!(parse("-a * b"), "Mul(Neg(a), b)");
    assert_eq!(parse("x ?? y | z"), "Pipe(Coalesce(x, y), z)");
    assert_eq!(parse("1 <= 2 != 3 > 4"), "Gt(Ne(Le(1, 2), 3), 4)");
}

#[test]
fn parser_literals_and_accesses() {
    assert_eq!(parse(""), "null");
    assert_eq!(parse("  42  "), "42");
    assert_eq!(parse("null"), "null");
    assert_eq!(parse("[1, *x, 3,]"), "ListLit(List(List(1, Spread(x)), 3))");
    assert_eq!(parse("{a: 1, ['b']: 2, *m}"), "Map(List(List(Kv(a, 1), Kv(Fmt('b'), 2)), Spread(m)))");
    assert_eq!(parse("{}"), "Map(-)");
    assert_eq!(parse(".a.b[0]"), "Chain(Chain(Chain(., a), b), 0)");
    assert_eq!(parse(".[1:/2]"), "Chain(., Slice(1, Rev(2)))");
    assert_eq!(parse(".[:]"), "Chain(., Slice(-, -))");
    assert_eq!(parse("'a {1} b'"), "Fmt(List(List('a ', 1), ' b'))");
    assert_eq!(parse("\"x\\\"y\""), "Fmt('x\\\"y')");
    assert_eq!(parse("f(1, :k v)"), "Call(f, List(1, Kw(k, v)))");
    assert_eq!(parse("f()"), "Call(f, -)");
    assert_eq!(parse("let x = 1 | x"), "Pipe(Let(x, 1), x)");
    assert_eq!(parse("18446744073709551617"), "1");
}

#[test]
fn parser_errors() {
    assert_eq!(parse("(1"), "Parser error 'NoClosingParen' at index 2");
    assert_eq!(parse("1 +"), "Parser error 'NoExprAfterOperator' at index 3");
    assert_eq!(parse("[1"), "Parser error 'NoListLiteralEndingBracket' at index 2");
    assert_eq!(parse("{a 1}"), "Parser error 'NoColonInMapLiteral' at index 3");
    assert_eq!(parse("'abc"), "Parser error 'NoClosingQuoteOnString' at index 1");
    assert_eq!(parse("1 2"), "Parser error 'IncompleteParse' at index 2");
    assert_eq!(parse("not"), "Parser error 'NoExprAfterUnaryOperator' at index 3");
    assert_eq!(parse("let = 1"), "Parser error 'NoIdentifierInLetStmt' at index 4");
    assert_eq!(parse("f(:k"), "Parser error 'NoWhitespaceAfterKeywordArgumentKeyword' at index 4");
    assert_eq!(parse(".[]"), "Parser error 'NoExpressionForBracketAccess' at index 2");
    assert_eq!(parse("a."), "Parser error 'NoIdentifierAfterDotAccess' at index 2");
}

#[test]
fn parser_keywords_and_unary_operators() {
    assert_eq!(parse("nothing"), "Not(hing)");
    assert_eq!(parse("-1 - -2"), "Sub(Neg(1), Neg(2))");
    assert_eq!(parse("a ?? b ?? c"), "Coalesce(Coalesce(a, b), c)");
    assert_eq!(parse("(1 | 2) + 3"), "Add(Pipe(1, 2), 3)");
    assert_eq!(parse("x | let y = 1 | y"), "Pipe(Pipe(x, Let(y, 1)), y)");
    assert_eq!(parse("a.b.c"), "Chain(Chain(a, b), c)");
}

#[test]
fn parser_keys_arguments_and_slices() {
    assert_eq!(parse("{[1]: 2}"), "Map(Kv(1, 2))");
    assert_eq!(parse("{'k': 1}"), "Map(Kv(Fmt('k'), 1))");
    assert_eq!(parse("f(:k 1, 2)"), "Call(f, List(Kw(k, 1), 2))");
    assert_eq!(parse(".[/1:]"), "Chain(., Slice(Rev(1), -))");
    assert_eq!(parse("'a\\{b'"), "Fmt('a\\{b')");
}

#[test]
fn parser_more_errors() {
    assert_eq!(parse("( 1)"), "Parser error 'NoParenContents' at index 1");
    assert_eq!(parse("letter"), "Parser error 'NoEqualsInLetStmt' at index 6");
    assert_eq!(parse("let x = "), "Parser error 'NoExprInLetStmt' at index 8");
    assert_eq!(parse("{[1 2]: 3}"), "Parser error 'NoClosingBracketForMapKey' at index 4");
    assert_eq!(parse("[1,,2]"), "Parser error 'NoListLiteralEndingBracket' at index 3");
    assert_eq!(parse("'{1 2}'"), "Parser error 'NoClosingBraceInFormatString' at index 4");
    assert_eq!(parse(".[1"), "Parser error 'NoClosingBracketForBracketAccess' at index 3");
    assert_eq!(parse("f(:k)"), "Parser error 'NoWhitespaceAfterKeywordArgumentKeyword' at index 4");
}

#[test]
fn ast_node_pool_constructors_append_their_node() {
    let mut pool = AstNodePool::new();
    let a = pool.new_integer(7);
    let b = pool.new_identifier(0, 3);
    let c = pool.new_add(a, b);
    let d = pool.new_fcn_call(b, Some(c));
    let e = pool.new_list_literal(None);
    assert_eq!((a, b, c, d, e), (0, 1, 2, 3, 4));
    assert!(matches!(pool.get(c), AstNode::Add(0, 1)));
    assert!(matches!(pool.get(d), AstNode::FcnCall { name: 1, args: Some(2) }));
    assert!(matches!(pool.get(b), AstNode::SubString(0, 3)));
    assert!(matches!(pool.get(e), AstNode::ListLiteral(None)));
}
