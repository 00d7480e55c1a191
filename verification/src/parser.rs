//! The query parser: it reads the text of a query into a syntax tree, or reports where
//! and why it could not.
use vstd::prelude::*;
use vstd::string::StringSliceAdditionalSpecFns;
use crate::syntax::{
    args_end, binary_op_at, binary_tree, boxed, final_tree, join, list_end, lit_at, map_end, read_access,
    read_access_expr, read_arg, read_args, read_base, read_base_with_accesses, read_accesses, read_expr,
    read_format_string, read_inner_expr, read_let, read_list, read_list_items, read_literal, read_map,
    read_map_items, read_map_key, read_map_more, read_operand, read_operators, read_query, read_quoted,
    read_quoted_parts, read_slice, reduce, unary_prefix, unary_tree, Item, Outcome,
};
use crate::ast_node_pool::{
    lemma_new_node_tree, lemma_nodes_wf_empty, lemma_nodes_wf_push, lemma_tree_kept, lemma_trees_kept,
    nodes_prefix, nodes_wf, opt_below, opt_boxed_tree, refs_below, shallow, tree_of, AstNode, AstNodePool,
    AstNodePtr, Tree,
};
use crate::json_lexer::is_ws;

verus! {

/// What the parser found missing or malformed.
#[derive(Clone, Copy, PartialEq, Eq, Structural, Debug)]
pub enum ParseErrorType {
    NoClosingParen,
    NoClosingParenFcnCall,
    NoParenContents,
    NoExprAfterOperator,
    NoColonInMapLiteral,
    NoMapLiteralValue,
    NoMapLiteralEndingBrace,
    NoListLiteralEndingBracket,
    NoIdentifierAfterDotAccess,
    NoClosingBracketForBracketAccess,
    NoExpressionForBracketAccess,
    NoClosingQuoteOnString,
    NoExprInFormatString,
    NoClosingBraceInFormatString,
    IncompleteParse,
    NoExprReverseIndex,
    NoExpressionAfterMapSpread,
    NoExprInMapKey,
    NoClosingBracketForMapKey,
    NoIdentifierAfterKeywordArgument,
    NoWhitespaceAfterKeywordArgumentKeyword,
    NoExprAfterUnaryOperator,
    NoIdentifierInLetStmt,
    NoEqualsInLetStmt,
    NoExprInLetStmt,
}

impl ParseErrorType {
    /// The name of the error kind.
    pub open spec fn name_text(self) -> Seq<char> {
        match self {
            ParseErrorType::NoClosingParen => "NoClosingParen"@,
            ParseErrorType::NoClosingParenFcnCall => "NoClosingParenFcnCall"@,
            ParseErrorType::NoParenContents => "NoParenContents"@,
            ParseErrorType::NoExprAfterOperator => "NoExprAfterOperator"@,
            ParseErrorType::NoColonInMapLiteral => "NoColonInMapLiteral"@,
            ParseErrorType::NoMapLiteralValue => "NoMapLiteralValue"@,
            ParseErrorType::NoMapLiteralEndingBrace => "NoMapLiteralEndingBrace"@,
            ParseErrorType::NoListLiteralEndingBracket => "NoListLiteralEndingBracket"@,
            ParseErrorType::NoIdentifierAfterDotAccess => "NoIdentifierAfterDotAccess"@,
            ParseErrorType::NoClosingBracketForBracketAccess => "NoClosingBracketForBracketAccess"@,
            ParseErrorType::NoExpressionForBracketAccess => "NoExpressionForBracketAccess"@,
            ParseErrorType::NoClosingQuoteOnString => "NoClosingQuoteOnString"@,
            ParseErrorType::NoExprInFormatString => "NoExprInFormatString"@,
            ParseErrorType::NoClosingBraceInFormatString => "NoClosingBraceInFormatString"@,
            ParseErrorType::IncompleteParse => "IncompleteParse"@,
            ParseErrorType::NoExprReverseIndex => "NoExprReverseIndex"@,
            ParseErrorType::NoExpressionAfterMapSpread => "NoExpressionAfterMapSpread"@,
            ParseErrorType::NoExprInMapKey => "NoExprInMapKey"@,
            ParseErrorType::NoClosingBracketForMapKey => "NoClosingBracketForMapKey"@,
            ParseErrorType::NoIdentifierAfterKeywordArgument => "NoIdentifierAfterKeywordArgument"@,
            ParseErrorType::NoWhitespaceAfterKeywordArgumentKeyword => "NoWhitespaceAfterKeywordArgumentKeyword"@,
            ParseErrorType::NoExprAfterUnaryOperator => "NoExprAfterUnaryOperator"@,
            ParseErrorType::NoIdentifierInLetStmt => "NoIdentifierInLetStmt"@,
            ParseErrorType::NoEqualsInLetStmt => "NoEqualsInLetStmt"@,
            ParseErrorType::NoExprInLetStmt => "NoExprInLetStmt"@,
        }
    }

    /// The name of the error kind.
    pub fn name(&self) -> (r: &'static str)
        ensures
            r@ == self.name_text(),
    {
        match self {
            ParseErrorType::NoClosingParen => "NoClosingParen",
            ParseErrorType::NoClosingParenFcnCall => "NoClosingParenFcnCall",
            ParseErrorType::NoParenContents => "NoParenContents",
            ParseErrorType::NoExprAfterOperator => "NoExprAfterOperator",
            ParseErrorType::NoColonInMapLiteral => "NoColonInMapLiteral",
            ParseErrorType::NoMapLiteralValue => "NoMapLiteralValue",
            ParseErrorType::NoMapLiteralEndingBrace => "NoMapLiteralEndingBrace",
            ParseErrorType::NoListLiteralEndingBracket => "NoListLiteralEndingBracket",
            ParseErrorType::NoIdentifierAfterDotAccess => "NoIdentifierAfterDotAccess",
            ParseErrorType::NoClosingBracketForBracketAccess => "NoClosingBracketForBracketAccess",
            ParseErrorType::NoExpressionForBracketAccess => "NoExpressionForBracketAccess",
            ParseErrorType::NoClosingQuoteOnString => "NoClosingQuoteOnString",
            ParseErrorType::NoExprInFormatString => "NoExprInFormatString",
            ParseErrorType::NoClosingBraceInFormatString => "NoClosingBraceInFormatString",
            ParseErrorType::IncompleteParse => "IncompleteParse",
            ParseErrorType::NoExprReverseIndex => "NoExprReverseIndex",
            ParseErrorType::NoExpressionAfterMapSpread => "NoExpressionAfterMapSpread",
            ParseErrorType::NoExprInMapKey => "NoExprInMapKey",
            ParseErrorType::NoClosingBracketForMapKey => "NoClosingBracketForMapKey",
            ParseErrorType::NoIdentifierAfterKeywordArgument => "NoIdentifierAfterKeywordArgument",
            ParseErrorType::NoWhitespaceAfterKeywordArgumentKeyword => "NoWhitespaceAfterKeywordArgumentKeyword",
            ParseErrorType::NoExprAfterUnaryOperator => "NoExprAfterUnaryOperator",
            ParseErrorType::NoIdentifierInLetStmt => "NoIdentifierInLetStmt",
            ParseErrorType::NoEqualsInLetStmt => "NoEqualsInLetStmt",
            ParseErrorType::NoExprInLetStmt => "NoExprInLetStmt",
        }
    }
}

/// A parse error: what went wrong, and at which byte of the query.
pub struct ParseError {
    idx: usize,
    typ: ParseErrorType,
}

/// The decimal digit `d`.
pub open spec fn digit_char(d: int) -> char {
    (48 + d) as char
}

/// The decimal digits of `n`, without leading zeros.
pub open spec fn decimal(n: nat) -> Seq<char>
    decreases n,
{
    if n < 10 {
        seq![digit_char(n as int)]
    } else {
        decimal(n / 10).push(digit_char((n % 10) as int))
    }
}

/// Appends a character to a string (`String::push`, which appends exactly `c`).
#[verifier::external_body]
fn push_char(s: &mut String, c: char)
    ensures
        final(s)@ == old(s)@.push(c),
{
    s.push(c)
}

/// The character of the decimal digit `d`.
fn digit(d: usize) -> (c: char)
    requires
        d < 10,
    ensures
        c == digit_char(d as int),
{
    if d == 0 {
        '0'
    } else if d == 1 {
        '1'
    } else if d == 2 {
        '2'
    } else if d == 3 {
        '3'
    } else if d == 4 {
        '4'
    } else if d == 5 {
        '5'
    } else if d == 6 {
        '6'
    } else if d == 7 {
        '7'
    } else if d == 8 {
        '8'
    } else {
        '9'
    }
}

/// Appends the decimal digits of `n`.
fn push_decimal(s: &mut String, n: usize)
    ensures
        final(s)@ == old(s)@ + decimal(n as nat),
    decreases n,
{
    if n >= 10 {
        push_decimal(s, n / 10);
    }
    push_char(s, digit(n % 10));
    proof {
        if n >= 10 {
            assert(old(s)@ + decimal((n / 10) as nat) + seq![digit_char((n % 10) as int)] =~= old(s)@ + decimal(n as nat));
        } else {
            assert(old(s)@.push(digit_char((n % 10) as int)) =~= old(s)@ + decimal(n as nat));
        }
    }
}

impl ParseError {
    /// An error of kind `typ` at byte `idx`.
    pub fn new(idx: usize, typ: ParseErrorType) -> (r: Self)
        ensures
            r.idx() == idx,
            r.typ() == typ,
    {
        ParseError { idx, typ }
    }

    /// The byte of the query where the error was found.
    pub closed spec fn idx(&self) -> usize {
        self.idx
    }

    /// What went wrong.
    pub closed spec fn typ(&self) -> ParseErrorType {
        self.typ
    }

    /// The message of the error: `Parser error '<kind>' at index <idx>`.
    pub open spec fn message(&self) -> Seq<char> {
        "Parser error '"@ + self.typ().name_text() + "' at index "@ + decimal(self.idx() as nat)
    }

    /// The message of the error.
    pub fn to_string(&self) -> (r: String)
        ensures
            r@ == self.message(),
    {
        let mut s = String::new();
        s.append("Parser error '");
        s.append(self.typ.name());
        s.append("' at index ");
        push_decimal(&mut s, self.idx);
        proof {
            assert(s@ =~= self.message());
        }
        s
    }
}

// ----- the bytes of a query

/// A letter or an underscore.
pub open spec fn is_ident_start(c: u8) -> bool {
    65 <= c <= 90 || 97 <= c <= 122 || c == 95
}

/// A letter, an underscore or a digit.
pub open spec fn is_ident_char(c: u8) -> bool {
    is_ident_start(c) || 48 <= c <= 57
}

/// The first position at or after `k` in `r` that does not hold an identifier character.
pub open spec fn ident_run_end(r: Seq<u8>, k: nat) -> nat
    decreases r.len() - k,
{
    if k < r.len() && is_ident_char(r[k as int]) {
        ident_run_end(r, k + 1)
    } else {
        k
    }
}

/// The length of the identifier at the start of `r`, or 0 when none starts there.
pub open spec fn ident_len(r: Seq<u8>) -> nat {
    if r.len() > 0 && is_ident_start(r[0]) {
        ident_run_end(r, 1)
    } else {
        0
    }
}

/// The first position at or after `k` in `r` that does not hold a decimal digit.
pub open spec fn digit_run_end(r: Seq<u8>, k: nat) -> nat
    decreases r.len() - k,
{
    if k < r.len() && 48 <= r[k as int] <= 57 {
        digit_run_end(r, k + 1)
    } else {
        k
    }
}

/// The number written by the decimal digits `d`.
pub open spec fn decimal_value(d: Seq<u8>) -> nat
    decreases d.len(),
{
    if d.len() == 0 {
        0
    } else {
        10 * decimal_value(d.drop_last()) + (d.last() - 48) as nat
    }
}

/// The number of whitespace bytes at the start of `r`.
pub open spec fn ws_run(r: Seq<u8>) -> nat
    decreases r.len(),
{
    if r.len() > 0 && is_ws(r[0]) {
        1 + ws_run(r.drop_first())
    } else {
        0
    }
}

/// `lit` is at the start of `r`.
pub open spec fn starts_with(r: Seq<u8>, lit: Seq<u8>) -> bool {
    lit.len() <= r.len() && r.subrange(0, lit.len() as int) == lit
}

/// The `n` bytes at the start of `r` are `and` or `or`, the identifiers that are
/// operators.
pub open spec fn is_keyword(r: Seq<u8>, n: nat) -> bool {
    ||| n == 3 && r.subrange(0, 3) == seq![97u8, 110u8, 100u8]
    ||| n == 2 && r.subrange(0, 2) == seq![111u8, 114u8]
}

/// The query's text and the parser's position in it.
pub struct Parser<'a> {
    text: &'a [u8],
    pub pool: AstNodePool,
    idx: usize,
}

impl<'a> Parser<'a> {
    /// The bytes of the query.
    pub closed spec fn text(&self) -> Seq<u8> {
        self.text@
    }

    /// The position of the parser in the query.
    pub closed spec fn pos(&self) -> int {
        self.idx as int
    }

    /// The bytes not read yet.
    pub open spec fn rest(&self) -> Seq<u8> {
        self.text().skip(self.pos())
    }

    /// The nodes built so far.
    pub closed spec fn nodes(&self) -> Seq<AstNode> {
        self.pool.vals@
    }

    /// The position lies in the text, and the nodes form a tree over it.
    pub open spec fn wf(&self) -> bool {
        &&& 0 <= self.pos() <= self.text().len() < usize::MAX
        &&& nodes_wf(self.nodes(), self.text().len() as int)
    }

    /// `new` is `old` moved forward by `n` bytes, with the same nodes.
    pub open spec fn moved(old: &Self, new: &Self, n: int) -> bool {
        &&& new.text() == old.text()
        &&& new.pos() == old.pos() + n
        &&& new.nodes() == old.nodes()
    }

    /// A parser at the start of `text`, with no nodes.
    pub fn new(text: &'a str) -> (r: Self)
        requires
            text.spec_bytes().len() < usize::MAX,
        ensures
            r.text() == text.spec_bytes(),
            r.pos() == 0,
            r.nodes() == Seq::<AstNode>::empty(),
            r.wf(),
    {
        let bytes = text.as_bytes();
        proof {
            broadcast use vstd::slice::axiom_spec_len;

            assert(bytes.len() == bytes@.len());
            lemma_nodes_wf_empty(bytes@.len() as int);
        }
        Parser { text: bytes, pool: AstNodePool::new(), idx: 0 }
    }

    /// The node at `node`.
    pub fn get_node(&self, node: AstNodePtr) -> (r: &AstNode)
        requires
            node < self.nodes().len(),
        ensures
            *r == self.nodes()[node as int],
    {
        self.pool.get(node)
    }

    /// The byte `n` places after the position, if there is one.
    fn peek(&self, n: usize) -> (r: Option<u8>)
        requires
            0 <= self.pos() <= self.text().len(),
        ensures
            r == (if self.pos() + n < self.text().len() {
                Some(self.text()[self.pos() + n])
            } else {
                None::<u8>
            }),
    {
        if n < self.text.len() - self.idx {
            Some(self.text[self.idx + n])
        } else {
            None
        }
    }

    fn is_alpha(val: u8) -> (r: bool)
        ensures
            r == (65 <= val <= 90 || 97 <= val <= 122),
    {
        65 <= val && val <= 90 || 97 <= val && val <= 122
    }

    fn is_alpha_underscore(val: u8) -> (r: bool)
        ensures
            r == is_ident_start(val),
    {
        Parser::is_alpha(val) || val == 95
    }

    fn is_numeric(val: u8) -> (r: bool)
        ensures
            r == (48 <= val <= 57),
    {
        48 <= val && val <= 57
    }

    fn is_alpha_underscore_numeric(val: u8) -> (r: bool)
        ensures
            r == is_ident_char(val),
    {
        Parser::is_alpha_underscore(val) || Parser::is_numeric(val)
    }

    fn is_whitespace(val: u8) -> (r: bool)
        ensures
            r == is_ws(val),
    {
        val == 32 || val == 10 || val == 9 || val == 13
    }

    /// Skips whitespace.
    fn parse_ws(&mut self)
        requires
            old(self).wf(),
        ensures
            final(self).wf(),
            ws_run(old(self).rest()) <= old(self).rest().len(),
            Self::moved(old(self), final(self), ws_run(old(self).rest()) as int),
    {
        let ghost r0 = self.rest();
        let ghost mut k: int = 0;
        proof {
            assert(r0.skip(0) =~= r0);
        }
        loop
            invariant
                self.wf(),
                r0 == old(self).rest(),
                0 <= k <= r0.len(),
                self.rest() == r0.skip(k),
                Self::moved(old(self), self, k),
                ws_run(r0) == k + ws_run(self.rest()),
            ensures
                ws_run(self.rest()) == 0,
                self.wf(),
                0 <= k <= r0.len(),
                Self::moved(old(self), self, k),
                ws_run(r0) == k + ws_run(self.rest()),
            decreases r0.len() - k,
        {
            match self.peek(0) {
                None => {
                    break;
                },
                Some(ch) => {
                    if !Parser::is_whitespace(ch) {
                        break;
                    }
                },
            }
            proof {
                assert(self.rest()[0] == self.text()[self.pos()]);
                assert(r0.skip(k + 1) =~= self.rest().drop_first());
                assert(self.text().skip(self.pos() + 1) =~= self.rest().drop_first());
                k = k + 1;
            }
            self.idx = self.idx + 1;
        }
    }

    /// Skips whitespace; returns whether there was any.
    fn parse_at_least_one_ws(&mut self) -> (r: bool)
        requires
            old(self).wf(),
        ensures
            final(self).wf(),
            r == (ws_run(old(self).rest()) > 0),
            Self::moved(old(self), final(self), ws_run(old(self).rest()) as int),
    {
        match self.peek(0) {
            None => {
                return false;
            },
            Some(ch) => {
                if !Parser::is_whitespace(ch) {
                    proof {
                        assert(self.rest()[0] == self.text()[self.pos()]);
                    }
                    return false;
                }
            },
        }
        self.parse_ws();
        true
    }

    /// Consumes `text` if the query continues with it; returns whether it did.
    fn parse_str_literal(&mut self, text: &[u8]) -> (r: bool)
        requires
            old(self).wf(),
        ensures
            final(self).wf(),
            r == starts_with(old(self).rest(), text@),
            Self::moved(old(self), final(self), if r { text@.len() as int } else { 0 }),
    {
        let ghost r0 = self.rest();
        let mut idx: usize = 0;
        while idx < text.len()
            invariant
                self.wf(),
                r0 == self.rest(),
                0 <= idx <= text@.len(),
                idx <= r0.len(),
                r0.subrange(0, idx as int) == text@.subrange(0, idx as int),
            decreases text@.len() - idx,
        {
            match self.peek(idx) {
                None => {
                    return false;
                },
                Some(ch) => {
                    proof {
                        assert(r0[idx as int] == self.text()[self.pos() + idx]);
                    }
                    if ch != text[idx] {
                        proof {
                            if starts_with(r0, text@) {
                                assert(r0.subrange(0, text@.len() as int)[idx as int] == r0[idx as int]);
                            }
                        }
                        return false;
                    }
                },
            }
            proof {
                assert(r0.subrange(0, idx + 1) =~= text@.subrange(0, idx + 1));
            }
            idx = idx + 1;
        }
        proof {
            assert(text@.subrange(0, text@.len() as int) =~= text@);
        }
        self.idx = self.idx + idx;
        true
    }

    /// Consumes the byte `a` if the query continues with it; returns whether it did.
    fn parse_byte(&mut self, a: u8) -> (r: bool)
        requires
            old(self).wf(),
        ensures
            final(self).wf(),
            r == lit_at(old(self).text(), old(self).pos(), seq![a]),
            Self::moved(old(self), final(self), if r { 1 } else { 0 }),
    {
        let lit: &[u8] = &[a];
        assert(lit@ == seq![a]);
        self.parse_str_literal(lit)
    }

    /// Consumes the bytes `a`, `b` if the query continues with them; returns whether it
    /// did.
    fn parse_bytes2(&mut self, a: u8, b: u8) -> (r: bool)
        requires
            old(self).wf(),
        ensures
            final(self).wf(),
            r == lit_at(old(self).text(), old(self).pos(), seq![a, b]),
            Self::moved(old(self), final(self), if r { 2 } else { 0 }),
    {
        let lit: &[u8] = &[a, b];
        assert(lit@ == seq![a, b]);
        self.parse_str_literal(lit)
    }

    /// Consumes the bytes `a`, `b`, `c` if the query continues with them; returns
    /// whether it did.
    fn parse_bytes3(&mut self, a: u8, b: u8, c: u8) -> (r: bool)
        requires
            old(self).wf(),
        ensures
            final(self).wf(),
            r == lit_at(old(self).text(), old(self).pos(), seq![a, b, c]),
            Self::moved(old(self), final(self), if r { 3 } else { 0 }),
    {
        let lit: &[u8] = &[a, b, c];
        assert(lit@ == seq![a, b, c]);
        self.parse_str_literal(lit)
    }

    /// Consumes the bytes `a`, `b`, `c`, `d` if the query continues with them; returns
    /// whether it did.
    fn parse_bytes4(&mut self, a: u8, b: u8, c: u8, d: u8) -> (r: bool)
        requires
            old(self).wf(),
        ensures
            final(self).wf(),
            r == lit_at(old(self).text(), old(self).pos(), seq![a, b, c, d]),
            Self::moved(old(self), final(self), if r { 4 } else { 0 }),
    {
        let lit: &[u8] = &[a, b, c, d];
        assert(lit@ == seq![a, b, c, d]);
        self.parse_str_literal(lit)
    }

    /// Consumes the bytes `a`, `b`, `c`, `d`, `e` if the query continues with them;
    /// returns whether it did.
    fn parse_bytes5(&mut self, a: u8, b: u8, c: u8, d: u8, e: u8) -> (r: bool)
        requires
            old(self).wf(),
        ensures
            final(self).wf(),
            r == lit_at(old(self).text(), old(self).pos(), seq![a, b, c, d, e]),
            Self::moved(old(self), final(self), if r { 5 } else { 0 }),
    {
        let lit: &[u8] = &[a, b, c, d, e];
        assert(lit@ == seq![a, b, c, d, e]);
        self.parse_str_literal(lit)
    }

    /// Reads an identifier: a letter or an underscore, then letters, underscores and
    /// digits, as many as there are. With `exclude_keywords`, `and` and `or` are not
    /// identifiers.
    fn parse_identifier(&mut self, exclude_keywords: bool) -> (r: Option<AstNodePtr>)
        requires
            old(self).wf(),
        ensures
            final(self).wf(),
            ({
                let n = ident_len(old(self).rest());
                if n == 0 || (exclude_keywords && is_keyword(old(self).rest(), n)) {
                    &&& r is None
                    &&& Self::moved(old(self), final(self), 0)
                } else {
                    &&& r is Some && r->0 == old(self).nodes().len()
                    &&& final(self).text() == old(self).text()
                    &&& final(self).pos() == old(self).pos() + n
                    &&& final(self).nodes() == old(self).nodes().push(
                        AstNode::Identifier(old(self).pos() as usize, (old(self).pos() + n) as usize),
                    )
                    &&& tree_of(final(self).nodes(), old(self).nodes().len() as int) == Tree::Identifier(
                        old(self).pos() as usize,
                        (old(self).pos() + n) as usize,
                    )
                }
            }),
            forall|p: int| 0 <= p < old(self).nodes().len() ==> #[trigger] tree_of(final(self).nodes(), p) == tree_of(old(self).nodes(), p),
    {
        let ghost r0 = self.rest();
        match self.peek(0) {
            None => {
                return None;
            },
            Some(c0) => {
                proof {
                    assert(r0[0] == self.text()[self.pos()]);
                }
                if !Parser::is_alpha_underscore(c0) {
                    return None;
                }
            },
        }
        let mut idx: usize = 1;
        loop
            invariant
                self.wf(),
                r0 == self.rest(),
                r0.len() > 0 && is_ident_start(r0[0]),
                1 <= idx <= r0.len(),
                ident_run_end(r0, 1) == ident_run_end(r0, idx as nat),
            ensures
                ident_run_end(r0, 1) == idx,
                1 <= idx <= r0.len(),
            decreases r0.len() - idx,
        {
            match self.peek(idx) {
                None => {
                    break;
                },
                Some(cn) => {
                    proof {
                        assert(r0[idx as int] == self.text()[self.pos() + idx]);
                    }
                    if !Parser::is_alpha_underscore_numeric(cn) {
                        break;
                    }
                },
            }
            idx = idx + 1;
        }
        let start = self.idx;
        let is_keyword = (idx == 3 && self.text[start] == 97 && self.text[start + 1] == 110 && self.text[start + 2] == 100)
            || (idx == 2 && self.text[start] == 111 && self.text[start + 1] == 114);
        proof {
            if idx == 3 {
                assert(r0[0] == self.text()[start as int]);
                assert(r0[1] == self.text()[start + 1]);
                assert(r0[2] == self.text()[start + 2]);
                assert(is_keyword == (r0.subrange(0, 3) =~= seq![97u8, 110u8, 100u8]));
            }
            if idx == 2 {
                assert(r0[0] == self.text()[start as int]);
                assert(r0[1] == self.text()[start + 1]);
                assert(is_keyword == (r0.subrange(0, 2) =~= seq![111u8, 114u8]));
            }
        }
        if exclude_keywords && is_keyword {
            return None;
        }
        self.idx = self.idx + idx;
        let ptr = self.add_node(AstNode::Identifier(start, start + idx));
        Some(ptr)
    }

    /// Reads an integer: decimal digits, as many as there are. Its value wraps around
    /// past `u64::MAX`.
    fn parse_integer(&mut self) -> (r: Option<AstNodePtr>)
        requires
            old(self).wf(),
        ensures
            final(self).wf(),
            ({
                let n = digit_run_end(old(self).rest(), 0);
                if n == 0 {
                    &&& r is None
                    &&& Self::moved(old(self), final(self), 0)
                } else {
                    &&& r is Some && r->0 == old(self).nodes().len()
                    &&& final(self).text() == old(self).text()
                    &&& final(self).pos() == old(self).pos() + n
                    &&& final(self).nodes() == old(self).nodes().push(
                        AstNode::Integer(
                            (decimal_value(old(self).rest().subrange(0, n as int)) % 0x1_0000_0000_0000_0000) as u64,
                        ),
                    )
                    &&& tree_of(final(self).nodes(), old(self).nodes().len() as int) == Tree::Integer(
                        (decimal_value(old(self).rest().subrange(0, n as int)) % 0x1_0000_0000_0000_0000) as u64,
                    )
                }
            }),
            forall|p: int| 0 <= p < old(self).nodes().len() ==> #[trigger] tree_of(final(self).nodes(), p) == tree_of(old(self).nodes(), p),
    {
        let ghost r0 = self.rest();
        let mut idx: usize = 0;
        let mut val: u64 = 0;
        proof {
            assert(r0.subrange(0, 0) =~= Seq::<u8>::empty());
        }
        loop
            invariant
                self.wf(),
                r0 == self.rest(),
                0 <= idx <= r0.len(),
                digit_run_end(r0, 0) == digit_run_end(r0, idx as nat),
                forall|j: int| 0 <= j < idx ==> 48 <= #[trigger] r0[j] <= 57,
                val == decimal_value(r0.subrange(0, idx as int)) % 0x1_0000_0000_0000_0000,
            ensures
                digit_run_end(r0, 0) == idx,
                0 <= idx <= r0.len(),
                val == decimal_value(r0.subrange(0, idx as int)) % 0x1_0000_0000_0000_0000,
            decreases r0.len() - idx,
        {
            match self.peek(idx) {
                None => {
                    break;
                },
                Some(ch) => {
                    proof {
                        assert(r0[idx as int] == self.text()[self.pos() + idx]);
                    }
                    if Parser::is_numeric(ch) {
                        let ghost prev = decimal_value(r0.subrange(0, idx as int));
                        val = val.wrapping_mul(10).wrapping_add((ch - 48) as u64);
                        proof {
                            assert(r0.subrange(0, idx + 1).drop_last() =~= r0.subrange(0, idx as int));
                            lemma_wrapping_digit(prev, ch);
                        }
                    } else {
                        break;
                    }
                },
            }
            idx = idx + 1;
        }
        if idx == 0 {
            return None;
        }
        self.idx = self.idx + idx;
        let ptr = self.add_node(AstNode::Integer(val));
        Some(ptr)
    }

    /// An error of kind `typ` at the parser's position.
    fn get_err(&self, typ: ParseErrorType) -> (r: ParseError)
        ensures
            r.idx() == self.pos(),
            r.typ() == typ,
    {
        ParseError::new(self.idx, typ)
    }
}

/// Appending a digit with wrapping arithmetic appends it to the number, modulo `2^64`.
proof fn lemma_wrapping_digit(prev: nat, ch: u8)
    requires
        48 <= ch <= 57,
    ensures
        vstd::wrapping::u64_specs::wrapping_add(
            vstd::wrapping::u64_specs::wrapping_mul((prev % 0x1_0000_0000_0000_0000) as u64, 10),
            (ch - 48) as u64,
        ) == (10 * prev + (ch - 48) as nat) % 0x1_0000_0000_0000_0000,
{
    let m: int = 0x1_0000_0000_0000_0000;
    let p: int = prev as int;
    let a: int = p % m;
    let d: int = (ch - 48) as int;
    vstd::arithmetic::div_mod::lemma_mul_mod_noop_left(p, 10, m);
    vstd::arithmetic::div_mod::lemma_add_mod_noop(10 * p, d, m);
    vstd::arithmetic::div_mod::lemma_mod_twice(10 * a, m);
    vstd::arithmetic::div_mod::lemma_mod_bound(10 * a, m);
    assert((a * 10) % m == (p * 10) % m);
}

// ----- expressions

/// A unary operator.
#[derive(Clone, Copy, PartialEq, Eq, Structural)]
pub enum UnaryOp {
    Not,
    Negative,
}

/// A binary operator.
#[derive(Clone, Copy, PartialEq, Eq, Structural)]
pub enum BinaryOp {
    Pipe,
    Coalesce,
    Or,
    And,
    Equals,
    NotEquals,
    LessThan,
    LessThanOrEqual,
    GreaterThan,
    GreaterThanOrEqual,
    Add,
    Subtract,
    Multiply,
    Divide,
}

/// An operator.
#[derive(Clone, Copy, PartialEq, Eq, Structural)]
pub enum Op {
    Unary(UnaryOp),
    Binary(BinaryOp),
}

/// How tightly operators bind, loosest first; the end of an expression binds loosest
/// of all.
pub const ORDER_END: u8 = 0;

pub const ORDER_PIPE: u8 = 1;

pub const ORDER_COALESCE: u8 = 2;

pub const ORDER_OR: u8 = 3;

pub const ORDER_AND: u8 = 4;

pub const ORDER_NOT: u8 = 5;

pub const ORDER_EQUALITY: u8 = 6;

pub const ORDER_ADD: u8 = 7;

pub const ORDER_MULTIPLY: u8 = 8;

pub const ORDER_NEGATIVE: u8 = 9;

/// An entry of the stack of an expression being read: a parsed operand, or an operator
/// with how tightly it binds.
#[derive(Clone, Copy, PartialEq, Eq, Structural)]
enum StackNode {
    Expr(AstNodePtr),
    Op(Op, u8),
}

spec fn is_operand(n: StackNode) -> bool {
    n is Expr
}

spec fn is_binary(n: StackNode) -> bool {
    n matches StackNode::Op(Op::Binary(_), _)
}

/// Operands and operators alternate as in an expression: each operand is followed by a
/// binary operator, each operator by a unary operator or an operand, and no binary
/// operator comes first.
spec fn alternates(s: Seq<StackNode>) -> bool {
    &&& s.len() > 0 ==> !is_binary(s[0])
    &&& forall|i: int| 0 <= i < s.len() - 1 ==> (is_operand(#[trigger] s[i]) <==> is_binary(s[i + 1]))
}

/// The operands on the stack are nodes that exist.
spec fn operands_below(s: Seq<StackNode>, bound: int) -> bool {
    forall|i: int| 0 <= i < s.len() ==> (#[trigger] s[i] matches StackNode::Expr(p) ==> p < bound)
}

/// A complete stack: it alternates and ends with an operand.
spec fn complete(s: Seq<StackNode>) -> bool {
    &&& alternates(s)
    &&& s.len() > 0
    &&& is_operand(s.last())
}

/// A stack waiting for an operand: it alternates and is empty or ends with an operator.
spec fn awaiting_operand(s: Seq<StackNode>) -> bool {
    &&& alternates(s)
    &&& s.len() > 0 ==> !is_operand(s.last())
}

/// The optional tree under `parts`.
pub open spec fn opt_tree(nodes: Seq<AstNode>, parts: Option<AstNodePtr>) -> Option<Tree> {
    match parts {
        None => None,
        Some(p) => Some(tree_of(nodes, p as int)),
    }
}

/// An entry of the stack, with the tree under an operand.
spec fn item_of(nodes: Seq<AstNode>, n: StackNode) -> Item {
    match n {
        StackNode::Expr(p) => Item::Operand(tree_of(nodes, p as int)),
        StackNode::Op(op, order) => Item::Operator(op, order),
    }
}

/// The entries of the stack, with the trees under its operands.
spec fn items_of(nodes: Seq<AstNode>, s: Seq<StackNode>) -> Seq<Item> {
    Seq::new(s.len(), |i: int| item_of(nodes, s[i]))
}

/// Adding nodes keeps the tree under `parts`.
proof fn lemma_opt_tree_kept(old: Seq<AstNode>, new: Seq<AstNode>, parts: Option<AstNodePtr>)
    requires
        nodes_prefix(old, new),
        opt_below(parts, old.len() as int),
    ensures
        opt_tree(new, parts) == opt_tree(old, parts),
{
    if let Some(p) = parts {
        lemma_tree_kept(old, new, p as int);
    }
}

/// Adding nodes keeps the entries of a stack whose operands exist.
proof fn lemma_items_kept(old: Seq<AstNode>, new: Seq<AstNode>, s: Seq<StackNode>)
    requires
        nodes_prefix(old, new),
        operands_below(s, old.len() as int),
    ensures
        items_of(new, s) == items_of(old, s),
{
    assert forall|i: int| 0 <= i < s.len() implies item_of(new, #[trigger] s[i]) == item_of(old, s[i]) by {
        if let StackNode::Expr(p) = s[i] {
            lemma_tree_kept(old, new, p as int);
        }
    }
    assert(items_of(new, s) =~= items_of(old, s));
}

/// The entries of a stack with one more entry on top.
proof fn lemma_items_push(nodes: Seq<AstNode>, s: Seq<StackNode>, n: StackNode)
    ensures
        items_of(nodes, s.push(n)) == items_of(nodes, s).push(item_of(nodes, n)),
{
    assert(items_of(nodes, s.push(n)) =~= items_of(nodes, s).push(item_of(nodes, n)));
}

/// The node of a binary operator applied to the nodes `l` and `r`.
spec fn binary_node(op: BinaryOp, l: AstNodePtr, r: AstNodePtr) -> AstNode {
    match op {
        BinaryOp::Pipe => AstNode::Pipe(l, r),
        BinaryOp::Coalesce => AstNode::Coalesce(l, r),
        BinaryOp::Or => AstNode::Or(l, r),
        BinaryOp::And => AstNode::And(l, r),
        BinaryOp::Equals => AstNode::Equals(l, r),
        BinaryOp::NotEquals => AstNode::NotEquals(l, r),
        BinaryOp::LessThan => AstNode::LessThan(l, r),
        BinaryOp::LessThanOrEqual => AstNode::LessThanOrEqual(l, r),
        BinaryOp::GreaterThan => AstNode::GreaterThan(l, r),
        BinaryOp::GreaterThanOrEqual => AstNode::GreaterThanOrEqual(l, r),
        BinaryOp::Add => AstNode::Add(l, r),
        BinaryOp::Subtract => AstNode::Subtract(l, r),
        BinaryOp::Multiply => AstNode::Multiply(l, r),
        BinaryOp::Divide => AstNode::Divide(l, r),
    }
}

/// The node of a binary operator stands for the operator's tree.
proof fn lemma_binary_node(nodes: Seq<AstNode>, op: BinaryOp, l: AstNodePtr, r: AstNodePtr)
    ensures
        shallow(nodes, binary_node(op, l, r)) == binary_tree(op, tree_of(nodes, l as int), tree_of(nodes, r as int)),
{
    match op {
        BinaryOp::Pipe => {},
        BinaryOp::Coalesce => {},
        BinaryOp::Or => {},
        BinaryOp::And => {},
        BinaryOp::Equals => {},
        BinaryOp::NotEquals => {},
        BinaryOp::LessThan => {},
        BinaryOp::LessThanOrEqual => {},
        BinaryOp::GreaterThan => {},
        BinaryOp::GreaterThanOrEqual => {},
        BinaryOp::Add => {},
        BinaryOp::Subtract => {},
        BinaryOp::Multiply => {},
        BinaryOp::Divide => {},
    }
}

/// The result of a parse function.
pub type ParseResult = Option<Result<AstNodePtr, ParseError>>;

impl<'a> Parser<'a> {
    /// `new` follows `old` after a parse that returned `r`: the text is the same, the
    /// position has not moved back, nodes were only added, and the nodes still form a
    /// tree. Nothing was read when nothing was found; something was read when a node
    /// was built, and the node exists; an error lies between the two positions.
    pub open spec fn parsed(old: &Self, new: &Self, r: ParseResult) -> bool {
        &&& new.wf()
        &&& new.text() == old.text()
        &&& old.pos() <= new.pos()
        &&& nodes_prefix(old.nodes(), new.nodes())
        &&& match r {
            None => new.pos() == old.pos() && new.nodes() == old.nodes(),
            Some(Ok(p)) => p < new.nodes().len() && old.pos() < new.pos(),
            Some(Err(e)) => old.pos() <= e.idx() <= new.pos(),
        }
    }

    /// `new` follows `old` after a parse that returned `r`, and `r` is what reading at
    /// `old`'s position gives, `o`: nothing, the node of the tree found with the
    /// position after it, or the error.
    pub open spec fn gives(old: &Self, new: &Self, r: ParseResult, o: Outcome<Tree>) -> bool {
        &&& Self::parsed(old, new, r)
        &&& match o {
            Outcome::Absent => r is None,
            Outcome::Found(x, e) => r matches Some(Ok(p)) && tree_of(new.nodes(), p as int) == x && new.pos() == e,
            Outcome::Failed(k, i) => r matches Some(Err(err)) && err.typ() == k && err.idx() == i,
        }
    }

    /// Adds `part` after `parts`: the first part stands alone, and each later one is
    /// joined to those before it by a list node.
    fn push_part(&mut self, parts: Option<AstNodePtr>, part: AstNodePtr) -> (r: Option<AstNodePtr>)
        requires
            old(self).wf(),
            opt_below(parts, old(self).nodes().len() as int),
            part < old(self).nodes().len(),
        ensures
            extends(*old(self), *final(self)),
            final(self).pos() == old(self).pos(),
            r is Some,
            opt_below(r, final(self).nodes().len() as int),
            opt_tree(final(self).nodes(), r) == join(
                opt_tree(old(self).nodes(), parts),
                tree_of(old(self).nodes(), part as int),
            ),
            forall|p: int| 0 <= p < old(self).nodes().len() ==> #[trigger] tree_of(final(self).nodes(), p) == tree_of(old(self).nodes(), p),
    {
        match parts {
            None => Some(part),
            Some(prev) => Some(self.add_node(AstNode::ListNode(prev, part))),
        }
    }

    /// Adds a node whose references are to nodes that exist.
    fn add_node(&mut self, node: AstNode) -> (ptr: AstNodePtr)
        requires
            old(self).wf(),
            refs_below(node, old(self).nodes().len() as int, old(self).text().len() as int),
        ensures
            final(self).wf(),
            ptr == old(self).nodes().len(),
            final(self).nodes() == old(self).nodes().push(node),
            final(self).text() == old(self).text(),
            final(self).pos() == old(self).pos(),
            tree_of(final(self).nodes(), ptr as int) == shallow(old(self).nodes(), node),
            forall|p: int| 0 <= p < old(self).nodes().len() ==> #[trigger] tree_of(final(self).nodes(), p) == tree_of(old(self).nodes(), p),
    {
        let ptr = self.pool.new_node(node);
        proof {
            lemma_nodes_wf_push(old(self).nodes(), node, old(self).text().len() as int);
            lemma_new_node_tree(old(self).nodes(), node, old(self).text().len() as int);
            lemma_trees_kept(old(self).nodes(), self.nodes());
        }
        ptr
    }
}

/// Parsing only adds: the text is the same, the position has not moved back, nodes were
/// only added, and the nodes still form a tree.
pub open spec fn extends(old: Parser, new: Parser) -> bool {
    &&& new.wf()
    &&& new.text() == old.text()
    &&& old.pos() <= new.pos()
    &&& nodes_prefix(old.nodes(), new.nodes())
}

proof fn lemma_extends_trans(a: Parser, b: Parser, c: Parser)
    requires
        extends(a, b),
        extends(b, c),
    ensures
        extends(a, c),
{
}

/// A parse whose result `r` followed steps that only added keeps the parse's meaning
/// from the start.
proof fn lemma_parsed_after(a: Parser, b: Parser, c: Parser, r: ParseResult)
    requires
        extends(a, b),
        Parser::parsed(&b, &c, r),
        r is Some,
        r matches Some(Ok(_)) ==> a.pos() < c.pos(),
    ensures
        Parser::parsed(&a, &c, r),
        extends(a, c),
{
    lemma_extends_trans(a, b, c);
}

impl<'a> Parser<'a> {
    /// Reads a list literal: `[`, elements (each possibly spread with `*`) separated by
    /// commas, an optional trailing comma, and `]`.
    #[verifier::spinoff_prover]
    fn parse_list_literal(&mut self) -> (r: ParseResult)
        requires
            old(self).wf(),
        ensures
            Self::gives(old(self), final(self), r, read_list(old(self).text(), old(self).pos())),
        decreases old(self).text().len() - old(self).pos(), 30nat,
    {
        reveal_with_fuel(read_list, 1);
        reveal_with_fuel(read_list_items, 1);
        let ghost t = self.text();
        let ghost p0 = self.pos();
        if !self.parse_byte(91) {
            return None;
        }
        let mut parts: Option<AstNodePtr> = None;
        loop
            invariant_except_break
                read_list(t, p0) == read_list_items(t, self.pos(), opt_tree(self.nodes(), parts)),
            invariant
                extends(*old(self), *self),
                old(self).pos() < self.pos(),
                opt_below(parts, self.nodes().len() as int),
                t == old(self).text(),
                p0 == old(self).pos(),
            ensures
                read_list(t, p0) == list_end(t, self.pos(), opt_tree(self.nodes(), parts)),
            decreases self.text().len() - self.pos(),
        {
            reveal_with_fuel(read_list_items, 1);
            let ghost entry = *self;
            let ghost before_parts = opt_tree(self.nodes(), parts);
            self.parse_ws();
            let is_spread = if self.parse_byte(42) {
                self.parse_ws();
                true
            } else {
                false
            };
            let ghost s1 = *self;
            proof {
                lemma_extends_trans(*old(self), entry, s1);
            }
            let mut elem = match self.parse_expr() {
                None => {
                    break;
                },
                Some(val) => match val {
                    Err(err) => {
                        proof {
                            lemma_parsed_after(*old(self), s1, *self, Some(Err(err)));
                        }
                        return Some(Err(err));
                    },
                    Ok(val) => val,
                },
            };
            let ghost x = tree_of(self.nodes(), elem as int);
            proof {
                lemma_parsed_after(*old(self), s1, *self, Some(Ok(elem)));
                lemma_opt_tree_kept(s1.nodes(), self.nodes(), parts);
            }
            if is_spread {
                elem = self.add_node(AstNode::Spread(elem));
            }
            let ghost part = if is_spread {
                Tree::Spread(Box::new(x))
            } else {
                x
            };
            assert(tree_of(self.nodes(), elem as int) == part);
            assert(opt_tree(self.nodes(), parts) == before_parts);
            parts = self.push_part(parts, elem);
            self.parse_ws();
            if !self.parse_byte(44) {
                break;
            }
        }
        if !self.parse_byte(93) {
            return Some(Err(self.get_err(ParseErrorType::NoListLiteralEndingBracket)));
        }
        let ghost pre = self.nodes();
        let ptr = self.add_node(AstNode::ListLiteral(parts));
        assert(boxed(opt_tree(pre, parts)) == opt_boxed_tree(pre, parts));
        Some(Ok(ptr))
    }

    /// Reads an expression, pipes included.
    #[verifier::spinoff_prover]
    fn parse_expr(&mut self) -> (r: ParseResult)
        requires
            old(self).wf(),
        ensures
            Self::gives(old(self), final(self), r, read_expr(old(self).text(), old(self).pos())),
        decreases old(self).text().len() - old(self).pos(), 40nat,
    {
        reveal_with_fuel(read_expr, 1);
        self.inner_parse_expr(true)
    }

    /// Reads the binary operator at the position, if there is one; a pipe counts only
    /// with `allow_pipe`.
    #[verifier::spinoff_prover]
    fn parse_binary_op(&mut self, allow_pipe: bool) -> (r: Option<(BinaryOp, u8)>)
        requires
            old(self).wf(),
        ensures
            final(self).wf(),
            final(self).text() == old(self).text(),
            final(self).nodes() == old(self).nodes(),
            match binary_op_at(old(self).text(), old(self).pos(), allow_pipe) {
                None => r is None && final(self).pos() == old(self).pos(),
                Some((op, order, n)) => r == Some((op, order)) && final(self).pos() == old(self).pos() + n,
            },
    {
        if allow_pipe && self.parse_byte(124) {
            Some((BinaryOp::Pipe, ORDER_PIPE))
        } else if self.parse_bytes2(63, 63) {
            Some((BinaryOp::Coalesce, ORDER_COALESCE))
        } else if self.parse_bytes2(111, 114) {
            Some((BinaryOp::Or, ORDER_OR))
        } else if self.parse_bytes3(97, 110, 100) {
            Some((BinaryOp::And, ORDER_AND))
        } else if self.parse_bytes2(61, 61) {
            Some((BinaryOp::Equals, ORDER_EQUALITY))
        } else if self.parse_bytes2(33, 61) {
            Some((BinaryOp::NotEquals, ORDER_EQUALITY))
        } else if self.parse_bytes2(60, 61) {
            Some((BinaryOp::LessThanOrEqual, ORDER_EQUALITY))
        } else if self.parse_byte(60) {
            Some((BinaryOp::LessThan, ORDER_EQUALITY))
        } else if self.parse_bytes2(62, 61) {
            Some((BinaryOp::GreaterThanOrEqual, ORDER_EQUALITY))
        } else if self.parse_byte(62) {
            Some((BinaryOp::GreaterThan, ORDER_EQUALITY))
        } else if self.parse_byte(43) {
            Some((BinaryOp::Add, ORDER_ADD))
        } else if self.parse_byte(45) {
            Some((BinaryOp::Subtract, ORDER_ADD))
        } else if self.parse_byte(42) {
            Some((BinaryOp::Multiply, ORDER_MULTIPLY))
        } else if self.parse_byte(47) {
            Some((BinaryOp::Divide, ORDER_MULTIPLY))
        } else {
            None
        }
    }

    /// Reads an expression: operands joined by binary operators, each operand possibly
    /// behind unary operators; operators bind by their order, and those of equal order
    /// group to the left. Without `allow_pipe`, a pipe ends the expression.
    #[verifier::spinoff_prover]
    fn inner_parse_expr(&mut self, allow_pipe: bool) -> (r: ParseResult)
        requires
            old(self).wf(),
        ensures
            Self::gives(old(self), final(self), r, read_inner_expr(old(self).text(), old(self).pos(), allow_pipe)),
        decreases old(self).text().len() - old(self).pos(), 38nat,
    {
        reveal_with_fuel(read_inner_expr, 1);
        reveal_with_fuel(read_operators, 1);
        let ghost t = self.text();
        let ghost p0 = self.pos();
        let mut stack: Vec<StackNode> = Vec::new();
        proof {
            assert(items_of(self.nodes(), stack@) =~= Seq::<Item>::empty());
        }
        match self.push_operand(&mut stack) {
            None => {
                return None;
            },
            Some(res) => match res {
                Err(err) => {
                    return Some(Err(err));
                },
                Ok(_) => {},
            },
        }
        proof {
            assert(Seq::<Item>::empty() + items_of(self.nodes(), stack@) =~= items_of(self.nodes(), stack@));
        }
        loop
            invariant_except_break
                read_inner_expr(t, p0, allow_pipe) == read_operators(
                    t,
                    self.pos(),
                    allow_pipe,
                    items_of(self.nodes(), stack@),
                ),
            invariant
                extends(*old(self), *self),
                old(self).pos() < self.pos(),
                complete(stack@),
                operands_below(stack@, self.nodes().len() as int),
                t == old(self).text(),
                p0 == old(self).pos(),
            ensures
                read_inner_expr(t, p0, allow_pipe) == Outcome::Found(
                    final_tree(reduce(items_of(self.nodes(), stack@), ORDER_END)),
                    self.pos(),
                ),
            decreases self.text().len() - self.pos(),
        {
            reveal_with_fuel(read_operators, 1);
            let ghost entry = *self;
            let ghost s0 = items_of(self.nodes(), stack@);
            self.parse_ws();
            let (next_op, next_order) = match self.parse_binary_op(allow_pipe) {
                None => {
                    break;
                },
                Some(op) => op,
            };
            self.parse_ws();
            let ghost mid = *self;
            self.reduce_for_op_order(&mut stack, next_order);
            let ghost reduced = *self;
            proof {
                lemma_items_push(self.nodes(), stack@, StackNode::Op(Op::Binary(next_op), next_order));
            }
            stack.push(StackNode::Op(Op::Binary(next_op), next_order));
            proof {
                let s = stack@;
                assert(items_of(self.nodes(), s) == reduce(s0, next_order).push(
                    Item::Operator(Op::Binary(next_op), next_order),
                ));
                assert(awaiting_operand(s)) by {
                    assert forall|i: int| 0 <= i < s.len() - 1 implies (is_operand(#[trigger] s[i]) <==> is_binary(
                        s[i + 1],
                    )) by {
                        if i < s.len() - 2 {
                            assert(s[i + 1] == stack@[i + 1]);
                        }
                    }
                }
                assert forall|i: int| 0 <= i < s.len() implies (#[trigger] s[i] matches StackNode::Expr(p) ==> p
                    < self.nodes().len()) by {
                    if i < s.len() - 1 {
                        assert(s[i] == stack@[i]);
                    }
                }
                lemma_extends_trans(*old(self), entry, mid);
                lemma_extends_trans(*old(self), mid, reduced);
            }
            let ghost before = *self;
            match self.push_operand(&mut stack) {
                None => {
                    return Some(Err(self.get_err(ParseErrorType::NoExprAfterOperator)));
                },
                Some(res) => match res {
                    Err(err) => {
                        proof {
                            lemma_extends_trans(*old(self), before, *self);
                        }
                        return Some(Err(err));
                    },
                    Ok(_) => {},
                },
            }
            proof {
                lemma_extends_trans(*old(self), before, *self);
            }
        }
        self.reduce_for_op_order(&mut stack, ORDER_END);
        match stack.pop() {
            Some(StackNode::Expr(expr)) => Some(Ok(expr)),
            _ => vstd::pervasive::unreached(),
        }
    }

    /// Combines the operators on top of the stack that bind at least as tightly as
    /// `order` with their operands, innermost first.
    #[verifier::spinoff_prover]
    fn reduce_for_op_order(&mut self, stack: &mut Vec<StackNode>, order: u8)
        requires
            old(self).wf(),
            complete(old(stack)@),
            operands_below(old(stack)@, old(self).nodes().len() as int),
        ensures
            extends(*old(self), *final(self)),
            final(self).pos() == old(self).pos(),
            complete(final(stack)@),
            operands_below(final(stack)@, final(self).nodes().len() as int),
            final(stack)@.len() <= old(stack)@.len(),
            final(stack)@.len() == 1 || (final(stack)@[final(stack)@.len() - 2] matches StackNode::Op(_, o) && o
                < order),
            items_of(final(self).nodes(), final(stack)@) == reduce(items_of(old(self).nodes(), old(stack)@), order),
    {
        while stack.len() > 1
            invariant
                self.wf(),
                extends(*old(self), *self),
                self.pos() == old(self).pos(),
                complete(stack@),
                operands_below(stack@, self.nodes().len() as int),
                stack@.len() <= old(stack)@.len(),
                reduce(items_of(self.nodes(), stack@), order) == reduce(
                    items_of(old(self).nodes(), old(stack)@),
                    order,
                ),
            ensures
                stack@.len() == 1 || (stack@[stack@.len() - 2] matches StackNode::Op(_, o) && o < order),
                items_of(self.nodes(), stack@) == reduce(items_of(old(self).nodes(), old(stack)@), order),
            decreases stack@.len(),
        {
            let n = stack.len();
            let ghost s = stack@;
            let ghost v = items_of(self.nodes(), s);
            let ghost pre = self.nodes();
            proof {
                assert(is_operand(s[n - 1]));
                assert(!is_operand(s[n - 2]));
                assert(v[n - 1] == item_of(pre, s[n - 1]));
                assert(v[n - 2] == item_of(pre, s[n - 2]));
            }
            let second = stack[n - 2];
            let top = stack[n - 1];
            let right = match top {
                StackNode::Expr(p) => p,
                StackNode::Op(_, _) => vstd::pervasive::unreached(),
            };
            match second {
                StackNode::Op(op, temp_order) => {
                    if temp_order < order {
                        proof {
                            assert(reduce(v, order) == v);
                        }
                        break;
                    }
                    match op {
                        Op::Unary(unary) => {
                            let node = match unary {
                                UnaryOp::Not => AstNode::Not(right),
                                UnaryOp::Negative => AstNode::Negative(right),
                            };
                            let new_expr = self.add_node(node);
                            stack.pop();
                            stack.pop();
                            stack.push(StackNode::Expr(new_expr));
                            proof {
                                let t = stack@;
                                assert(t =~= s.subrange(0, n - 2).push(StackNode::Expr(new_expr)));
                                assert forall|i: int| 0 <= i < t.len() - 1 implies (is_operand(#[trigger] t[i])
                                    <==> is_binary(t[i + 1])) by {
                                    assert(t[i] == s[i]);
                                    if i < t.len() - 2 {
                                        assert(t[i + 1] == s[i + 1]);
                                    }
                                }
                                assert forall|i: int| 0 <= i < t.len() implies (#[trigger] t[i] matches StackNode::Expr(
                                    p,
                                ) ==> p < self.nodes().len()) by {
                                    if i < t.len() - 1 {
                                        assert(t[i] == s[i]);
                                    }
                                }
                                assert(tree_of(self.nodes(), new_expr as int) == unary_tree(
                                    unary,
                                    tree_of(pre, right as int),
                                ));
                                assert forall|i: int| 0 <= i < t.len() implies #[trigger] items_of(self.nodes(), t)[i]
                                    == v.take(n - 2).push(
                                    Item::Operand(unary_tree(unary, tree_of(pre, right as int))),
                                )[i] by {
                                    if i < t.len() - 1 {
                                        assert(t[i] == s[i]);
                                        if let StackNode::Expr(p) = s[i] {
                                            assert(tree_of(self.nodes(), p as int) == tree_of(pre, p as int));
                                        }
                                    }
                                }
                                assert(items_of(self.nodes(), t) =~= v.take(n - 2).push(
                                    Item::Operand(unary_tree(unary, tree_of(pre, right as int))),
                                ));
                            }
                        },
                        Op::Binary(binary) => {
                            proof {
                                assert(n >= 3) by {
                                    if n == 2 {
                                        assert(is_binary(s[0]));
                                    }
                                }
                                assert(is_operand(s[n - 3]));
                                assert(v[n - 3] == item_of(pre, s[n - 3]));
                            }
                            let left = match stack[n - 3] {
                                StackNode::Expr(p) => p,
                                StackNode::Op(_, _) => vstd::pervasive::unreached(),
                            };
                            let node = match binary {
                                BinaryOp::Pipe => AstNode::Pipe(left, right),
                                BinaryOp::Coalesce => AstNode::Coalesce(left, right),
                                BinaryOp::Or => AstNode::Or(left, right),
                                BinaryOp::And => AstNode::And(left, right),
                                BinaryOp::Equals => AstNode::Equals(left, right),
                                BinaryOp::NotEquals => AstNode::NotEquals(left, right),
                                BinaryOp::LessThan => AstNode::LessThan(left, right),
                                BinaryOp::LessThanOrEqual => AstNode::LessThanOrEqual(left, right),
                                BinaryOp::GreaterThan => AstNode::GreaterThan(left, right),
                                BinaryOp::GreaterThanOrEqual => AstNode::GreaterThanOrEqual(left, right),
                                BinaryOp::Add => AstNode::Add(left, right),
                                BinaryOp::Subtract => AstNode::Subtract(left, right),
                                BinaryOp::Multiply => AstNode::Multiply(left, right),
                                BinaryOp::Divide => AstNode::Divide(left, right),
                            };
                            proof {
                                assert(node == binary_node(binary, left, right));
                                lemma_binary_node(pre, binary, left, right);
                            }
                            let new_expr = self.add_node(node);
                            stack.pop();
                            stack.pop();
                            stack.pop();
                            stack.push(StackNode::Expr(new_expr));
                            proof {
                                let t = stack@;
                                let combined = binary_tree(binary, tree_of(pre, left as int), tree_of(pre, right as int));
                                assert(t =~= s.subrange(0, n - 3).push(StackNode::Expr(new_expr)));
                                assert forall|i: int| 0 <= i < t.len() - 1 implies (is_operand(#[trigger] t[i])
                                    <==> is_binary(t[i + 1])) by {
                                    assert(t[i] == s[i]);
                                    if i < t.len() - 2 {
                                        assert(t[i + 1] == s[i + 1]);
                                    }
                                }
                                assert forall|i: int| 0 <= i < t.len() implies (#[trigger] t[i] matches StackNode::Expr(
                                    p,
                                ) ==> p < self.nodes().len()) by {
                                    if i < t.len() - 1 {
                                        assert(t[i] == s[i]);
                                    }
                                }
                                assert(tree_of(self.nodes(), new_expr as int) == combined);
                                assert forall|i: int| 0 <= i < t.len() implies #[trigger] items_of(self.nodes(), t)[i]
                                    == v.take(n - 3).push(Item::Operand(combined))[i] by {
                                    if i < t.len() - 1 {
                                        assert(t[i] == s[i]);
                                        if let StackNode::Expr(p) = s[i] {
                                            assert(tree_of(self.nodes(), p as int) == tree_of(pre, p as int));
                                        }
                                    }
                                }
                                assert(items_of(self.nodes(), t) =~= v.take(n - 3).push(Item::Operand(combined)));
                            }
                        },
                    }
                },
                StackNode::Expr(_) => vstd::pervasive::unreached(),
            }
        }
    }

    /// Pushes an operand, after any unary operators before it.
    #[verifier::spinoff_prover]
    fn push_operand(&mut self, stack: &mut Vec<StackNode>) -> (r: Option<Result<(), ParseError>>)
        requires
            old(self).wf(),
            awaiting_operand(old(stack)@),
            operands_below(old(stack)@, old(self).nodes().len() as int),
        ensures
            extends(*old(self), *final(self)),
            match r {
                None => final(self).pos() == old(self).pos() && final(self).nodes() == old(self).nodes()
                    && final(stack)@ == old(stack)@,
                Some(Ok(_)) => complete(final(stack)@) && operands_below(final(stack)@, final(self).nodes().len() as int)
                    && old(self).pos() < final(self).pos(),
                Some(Err(e)) => old(self).pos() <= e.idx() <= final(self).pos(),
            },
            match read_operand(old(self).text(), old(self).pos()) {
                Outcome::Absent => r is None,
                Outcome::Failed(k, i) => r matches Some(Err(e)) && e.typ() == k && e.idx() == i,
                Outcome::Found(items, e) => r matches Some(Ok(_)) && final(self).pos() == e && items_of(
                    final(self).nodes(),
                    final(stack)@,
                ) == items_of(old(self).nodes(), old(stack)@) + items,
            },
        decreases old(self).text().len() - old(self).pos(), 36nat,
    {
        reveal_with_fuel(read_operand, 1);
        let ghost t = self.text();
        let ghost p0 = self.pos();
        let ghost base = items_of(self.nodes(), stack@);
        let ghost mut pushed: Seq<Item> = Seq::empty();
        let mut has_unary_op = false;
        proof {
            assert(base + pushed =~= base);
            assert(pushed + unary_prefix(t, p0).0 =~= unary_prefix(t, p0).0);
        }
        loop
            invariant
                extends(*old(self), *self),
                awaiting_operand(stack@),
                operands_below(stack@, self.nodes().len() as int),
                has_unary_op ==> old(self).pos() < self.pos(),
                !has_unary_op ==> self.pos() == old(self).pos() && self.nodes() == old(self).nodes() && stack@
                    == old(stack)@,
                t == old(self).text(),
                p0 == old(self).pos(),
                base == items_of(old(self).nodes(), old(stack)@),
                self.nodes() == old(self).nodes(),
                items_of(self.nodes(), stack@) == base + pushed,
                has_unary_op == (pushed.len() > 0),
                unary_prefix(t, p0).0 == pushed + unary_prefix(t, self.pos()).0,
                unary_prefix(t, p0).1 == self.pos() - p0 + unary_prefix(t, self.pos()).1,
            ensures
                !lit_at(t, self.pos(), seq![110u8, 111u8, 116u8]),
                !lit_at(t, self.pos(), seq![45u8]),
            decreases self.text().len() - self.pos(),
        {
            let ghost s = stack@;
            let ghost pos = self.pos();
            let ghost mut op_item = Item::Operand(Tree::Null);
            if self.parse_bytes3(110, 111, 116) {
                self.parse_ws();
                stack.push(StackNode::Op(Op::Unary(UnaryOp::Not), ORDER_NOT));
                proof {
                    op_item = Item::Operator(Op::Unary(UnaryOp::Not), ORDER_NOT);
                }
                has_unary_op = true;
            } else if self.parse_byte(45) {
                self.parse_ws();
                stack.push(StackNode::Op(Op::Unary(UnaryOp::Negative), ORDER_NEGATIVE));
                proof {
                    op_item = Item::Operator(Op::Unary(UnaryOp::Negative), ORDER_NEGATIVE);
                }
                has_unary_op = true;
            } else {
                break;
            }
            proof {
                let t2 = stack@;
                assert forall|i: int| 0 <= i < t2.len() - 1 implies (is_operand(#[trigger] t2[i]) <==> is_binary(
                    t2[i + 1],
                )) by {
                    assert(t2[i] == s[i]);
                    if i < t2.len() - 2 {
                        assert(t2[i + 1] == s[i + 1]);
                    }
                }
                assert forall|i: int| 0 <= i < t2.len() implies (#[trigger] t2[i] matches StackNode::Expr(p) ==> p
                    < self.nodes().len()) by {
                    if i < t2.len() - 1 {
                        assert(t2[i] == s[i]);
                    }
                }
                lemma_items_push(self.nodes(), s, t2.last());
                assert(t2 == s.push(t2.last()));
                let rest = unary_prefix(t, self.pos());
                assert(unary_prefix(t, pos).0 == seq![op_item] + rest.0);
                assert(pushed + (seq![op_item] + rest.0) =~= pushed.push(op_item) + rest.0);
                assert((base + pushed).push(op_item) =~= base + pushed.push(op_item));
                pushed = pushed.push(op_item);
            }
        }
        let ghost before = *self;
        proof {
            assert(unary_prefix(t, self.pos()) == (Seq::<Item>::empty(), 0nat));
            assert(pushed + Seq::<Item>::empty() =~= pushed);
        }
        let expr = match self.parse_base_expr_with_accesses() {
            None => {
                if has_unary_op {
                    return Some(Err(self.get_err(ParseErrorType::NoExprAfterUnaryOperator)));
                }
                return None;
            },
            Some(res) => match res {
                Err(err) => {
                    proof {
                        lemma_extends_trans(*old(self), before, *self);
                    }
                    return Some(Err(err));
                },
                Ok(expr) => expr,
            },
        };
        proof {
            lemma_extends_trans(*old(self), before, *self);
            lemma_items_kept(before.nodes(), self.nodes(), stack@);
            lemma_items_push(self.nodes(), stack@, StackNode::Expr(expr));
        }
        let ghost s = stack@;
        stack.push(StackNode::Expr(expr));
        proof {
            let t2 = stack@;
            assert forall|i: int| 0 <= i < t2.len() - 1 implies (is_operand(#[trigger] t2[i]) <==> is_binary(t2[i + 1])) by {
                assert(t2[i] == s[i]);
                if i < t2.len() - 2 {
                    assert(t2[i + 1] == s[i + 1]);
                }
            }
            assert forall|i: int| 0 <= i < t2.len() implies (#[trigger] t2[i] matches StackNode::Expr(p) ==> p
                < self.nodes().len()) by {
                if i < t2.len() - 1 {
                    assert(t2[i] == s[i]);
                }
            }
            assert((base + pushed).push(Item::Operand(tree_of(self.nodes(), expr as int))) =~= base + pushed.push(
                Item::Operand(tree_of(self.nodes(), expr as int)),
            ));
        }
        Some(Ok(()))
    }

    /// Reads an operand followed by any accesses to it.
    #[verifier::spinoff_prover]
    fn parse_base_expr_with_accesses(&mut self) -> (r: ParseResult)
        requires
            old(self).wf(),
        ensures
            Self::gives(old(self), final(self), r, read_base_with_accesses(old(self).text(), old(self).pos())),
        decreases old(self).text().len() - old(self).pos(), 34nat,
    {
        reveal_with_fuel(read_base_with_accesses, 1);
        reveal_with_fuel(read_accesses, 1);
        let ghost t = self.text();
        let ghost p0 = self.pos();
        let mut expr = match self.parse_base_expr() {
            None => {
                return None;
            },
            Some(res) => match res {
                Err(err) => {
                    return Some(Err(err));
                },
                Ok(expr) => expr,
            },
        };
        loop
            invariant_except_break
                read_base_with_accesses(t, p0) == read_accesses(t, self.pos(), tree_of(self.nodes(), expr as int)),
            invariant
                extends(*old(self), *self),
                old(self).pos() < self.pos(),
                expr < self.nodes().len(),
                t == old(self).text(),
                p0 == old(self).pos(),
            ensures
                read_base_with_accesses(t, p0) == Outcome::Found(tree_of(self.nodes(), expr as int), self.pos()),
            decreases self.text().len() - self.pos(),
        {
            reveal_with_fuel(read_accesses, 1);
            let ghost entry = *self;
            self.parse_ws();
            let ghost before = *self;
            proof {
                lemma_extends_trans(*old(self), entry, before);
            }
            let accessor = match self.parse_access() {
                None => {
                    break;
                },
                Some(res) => match res {
                    Err(err) => {
                        proof {
                            lemma_parsed_after(*old(self), before, *self, Some(Err(err)));
                        }
                        return Some(Err(err));
                    },
                    Ok(accessor) => accessor,
                },
            };
            proof {
                lemma_parsed_after(*old(self), before, *self, Some(Ok(accessor)));
                lemma_tree_kept(before.nodes(), self.nodes(), expr as int);
            }
            expr = self.add_node(AstNode::AccessChain(expr, accessor));
        }
        Some(Ok(expr))
    }

    /// Reads an operand: a `let` statement, `.` possibly followed by a field name, an
    /// expression in parentheses, or a literal, a function call or a name.
    #[verifier::spinoff_prover]
    fn parse_base_expr(&mut self) -> (r: ParseResult)
        requires
            old(self).wf(),
        ensures
            Self::gives(old(self), final(self), r, read_base(old(self).text(), old(self).pos())),
        decreases old(self).text().len() - old(self).pos(), 32nat,
    {
        reveal_with_fuel(read_base, 1);
        match self.parse_let_expr() {
            None => {},
            Some(res) => {
                return Some(res);
            },
        }
        if self.parse_byte(46) {
            let dot = self.add_node(AstNode::Dot);
            self.parse_ws();
            if let Some(iden) = self.parse_identifier(true) {
                proof {
                    assert(tree_of(self.nodes(), dot as int) == Tree::Dot);
                }
                return Some(Ok(self.add_node(AstNode::AccessChain(dot, iden))));
            }
            return Some(Ok(dot));
        }
        if self.parse_byte(40) {
            let ghost before = *self;
            let expr = match self.parse_expr() {
                None => {
                    return Some(Err(self.get_err(ParseErrorType::NoParenContents)));
                },
                Some(res) => match res {
                    Err(err) => {
                        proof {
                            lemma_parsed_after(*old(self), before, *self, Some(Err(err)));
                        }
                        return Some(Err(err));
                    },
                    Ok(expr) => expr,
                },
            };
            proof {
                lemma_parsed_after(*old(self), before, *self, Some(Ok(expr)));
            }
            self.parse_ws();
            if !self.parse_byte(41) {
                return Some(Err(self.get_err(ParseErrorType::NoClosingParen)));
            }
            return Some(Ok(expr));
        }
        self.parse_literal()
    }

    /// Reads a map, list or string literal, an integer, `null`, `true`, `false`, a
    /// function call, or a name.
    #[verifier::spinoff_prover]
    fn parse_literal(&mut self) -> (r: ParseResult)
        requires
            old(self).wf(),
        ensures
            Self::gives(old(self), final(self), r, read_literal(old(self).text(), old(self).pos())),
        decreases old(self).text().len() - old(self).pos(), 31nat,
    {
        reveal_with_fuel(read_literal, 1);
        if let Some(result) = self.parse_map_literal() {
            return Some(result);
        }
        if let Some(result) = self.parse_list_literal() {
            return Some(result);
        }
        if let Some(result) = self.parse_format_string() {
            return Some(result);
        }
        if let Some(expr) = self.parse_integer() {
            return Some(Ok(expr));
        }
        if self.parse_bytes4(110, 117, 108, 108) {
            return Some(Ok(self.add_node(AstNode::Null)));
        }
        if self.parse_bytes4(116, 114, 117, 101) {
            return Some(Ok(self.add_node(AstNode::Bool(true))));
        }
        if self.parse_bytes5(102, 97, 108, 115, 101) {
            return Some(Ok(self.add_node(AstNode::Bool(false))));
        }
        if let Some(expr) = self.parse_identifier(true) {
            self.parse_ws();
            if self.parse_byte(40) {
                // a function call
                self.parse_ws();
                let ghost before = *self;
                let r = self.parse_call_args(expr);
                proof {
                    lemma_parsed_after(*old(self), before, *self, r);
                }
                return r;
            }
            return Some(Ok(expr));
        }
        None
    }

    /// Reads the arguments of a call of the function named at `name`, separated by
    /// commas, and the closing parenthesis. An argument is an expression, possibly
    /// behind `:`, a name and whitespace.
    #[verifier::spinoff_prover]
    fn parse_call_args(&mut self, name: AstNodePtr) -> (r: ParseResult)
        requires
            old(self).wf(),
            name < old(self).nodes().len(),
        ensures
            Self::gives(
                old(self),
                final(self),
                r,
                read_args(old(self).text(), old(self).pos(), tree_of(old(self).nodes(), name as int), None),
            ),
            r is Some,
        decreases old(self).text().len() - old(self).pos(), 46nat,
    {
        reveal_with_fuel(read_args, 1);
        reveal_with_fuel(read_arg, 1);
        let ghost t = self.text();
        let ghost p0 = self.pos();
        let ghost fname = tree_of(self.nodes(), name as int);
        let mut args_node: Option<AstNodePtr> = None;
        loop
            invariant_except_break
                read_args(t, p0, fname, None) == read_args(t, self.pos(), fname, opt_tree(self.nodes(), args_node)),
            invariant
                extends(*old(self), *self),
                old(self).pos() <= self.pos(),
                opt_below(args_node, self.nodes().len() as int),
                t == old(self).text(),
                p0 == old(self).pos(),
                name < old(self).nodes().len(),
                fname == tree_of(self.nodes(), name as int),
                fname == tree_of(old(self).nodes(), name as int),
            ensures
                read_args(t, p0, fname, None) == args_end(t, self.pos(), fname, opt_tree(self.nodes(), args_node)),
            decreases self.text().len() - self.pos(),
        {
            reveal_with_fuel(read_args, 1);
            reveal_with_fuel(read_arg, 1);
            let ghost entry = *self;
            let ghost before_args = opt_tree(self.nodes(), args_node);
            let keyword = if self.parse_byte(58) {
                self.parse_ws();
                match self.parse_identifier(false) {
                    None => {
                        return Some(Err(self.get_err(ParseErrorType::NoIdentifierAfterKeywordArgument)));
                    },
                    Some(keyword) => {
                        if !self.parse_at_least_one_ws() {
                            return Some(Err(self.get_err(ParseErrorType::NoWhitespaceAfterKeywordArgumentKeyword)));
                        }
                        Some(keyword)
                    },
                }
            } else {
                None
            };
            let ghost before = *self;
            let ghost kw_tree = opt_tree(self.nodes(), keyword);
            assert(tree_of(self.nodes(), name as int) == fname);
            proof {
                lemma_extends_trans(*old(self), entry, before);
                lemma_opt_tree_kept(entry.nodes(), before.nodes(), args_node);
                assert(read_args(t, entry.pos(), fname, before_args) == read_arg(
                    t,
                    before.pos(),
                    kw_tree,
                    fname,
                    before_args,
                ));
            }
            match self.parse_expr() {
                None => {
                    break;
                },
                Some(res) => match res {
                    Err(err) => {
                        proof {
                            lemma_parsed_after(*old(self), before, *self, Some(Err(err)));
                        }
                        return Some(Err(err));
                    },
                    Ok(arg) => {
                        proof {
                            lemma_parsed_after(*old(self), before, *self, Some(Ok(arg)));
                            lemma_opt_tree_kept(before.nodes(), self.nodes(), args_node);
                            lemma_opt_tree_kept(before.nodes(), self.nodes(), keyword);
                            lemma_tree_kept(old(self).nodes(), self.nodes(), name as int);
                        }
                        let arg = match keyword {
                            None => arg,
                            Some(keyword) => self.add_node(AstNode::KeywordArgument(keyword, arg)),
                        };
                        args_node = self.push_part(args_node, arg);
                    },
                },
            };
            self.parse_ws();
            if !self.parse_byte(44) {
                break;
            }
            self.parse_ws();
        }
        if self.parse_byte(41) {
            let ghost pre = self.nodes();
            let ptr = self.add_node(AstNode::FcnCall { name, args: args_node });
            assert(boxed(opt_tree(pre, args_node)) == opt_boxed_tree(pre, args_node));
            Some(Ok(ptr))
        } else {
            Some(Err(self.get_err(ParseErrorType::NoClosingParenFcnCall)))
        }
    }

    /// Reads `let`, a name, `=`, and an expression without pipes, bound to the name.
    #[verifier::spinoff_prover]
    fn parse_let_expr(&mut self) -> (r: ParseResult)
        requires
            old(self).wf(),
        ensures
            Self::gives(old(self), final(self), r, read_let(old(self).text(), old(self).pos())),
        decreases old(self).text().len() - old(self).pos(), 30nat,
    {
        reveal_with_fuel(read_let, 1);
        if !self.parse_bytes3(108, 101, 116) {
            return None;
        }
        self.parse_ws();
        let identifier = match self.parse_identifier(true) {
            None => {
                return Some(Err(self.get_err(ParseErrorType::NoIdentifierInLetStmt)));
            },
            Some(res) => res,
        };
        self.parse_ws();
        if !self.parse_byte(61) {
            return Some(Err(self.get_err(ParseErrorType::NoEqualsInLetStmt)));
        }
        self.parse_ws();
        let ghost before = *self;
        let expr = match self.inner_parse_expr(false) {
            None => {
                return Some(Err(self.get_err(ParseErrorType::NoExprInLetStmt)));
            },
            Some(res) => match res {
                Err(err) => {
                    proof {
                        lemma_parsed_after(*old(self), before, *self, Some(Err(err)));
                    }
                    return Some(Err(err));
                },
                Ok(expr) => expr,
            },
        };
        proof {
            lemma_parsed_after(*old(self), before, *self, Some(Ok(expr)));
            lemma_tree_kept(before.nodes(), self.nodes(), identifier as int);
        }
        Some(Ok(self.add_node(AstNode::LetStmt { identifier, expr })))
    }

    /// Reads a map literal: `{`, entries separated by commas, an optional trailing
    /// comma, and `}`. An entry is `*` and an expression to spread, or a key (an
    /// expression in brackets, a string literal or a name), `:` and a value.
    #[verifier::spinoff_prover]
    fn parse_map_literal(&mut self) -> (r: ParseResult)
        requires
            old(self).wf(),
        ensures
            Self::gives(old(self), final(self), r, read_map(old(self).text(), old(self).pos())),
        decreases old(self).text().len() - old(self).pos(), 30nat,
    {
        reveal_with_fuel(read_map, 1);
        reveal_with_fuel(read_map_items, 1);
        reveal_with_fuel(read_map_more, 1);
        let ghost t = self.text();
        let ghost p0 = self.pos();
        if !self.parse_byte(123) {
            return None;
        }
        let mut parts: Option<AstNodePtr> = None;
        loop
            invariant_except_break
                read_map(t, p0) == read_map_items(t, self.pos(), opt_tree(self.nodes(), parts)),
            invariant
                extends(*old(self), *self),
                old(self).pos() < self.pos(),
                opt_below(parts, self.nodes().len() as int),
                t == old(self).text(),
                p0 == old(self).pos(),
            ensures
                read_map(t, p0) == map_end(t, self.pos(), opt_tree(self.nodes(), parts)),
            decreases self.text().len() - self.pos(),
        {
            reveal_with_fuel(read_map_items, 1);
            reveal_with_fuel(read_map_more, 1);
            let ghost entry = *self;
            let ghost before_parts = opt_tree(self.nodes(), parts);
            self.parse_ws();
            let ghost mut entry_part = Tree::Null;
            if self.parse_byte(42) {
                self.parse_ws();
                let ghost before = *self;
                proof {
                    lemma_extends_trans(*old(self), entry, before);
                }
                let expr = match self.parse_expr() {
                    None => {
                        return Some(Err(self.get_err(ParseErrorType::NoExpressionAfterMapSpread)));
                    },
                    Some(res) => match res {
                        Err(err) => {
                            proof {
                                lemma_parsed_after(*old(self), before, *self, Some(Err(err)));
                            }
                            return Some(Err(err));
                        },
                        Ok(expr) => expr,
                    },
                };
                proof {
                    lemma_parsed_after(*old(self), before, *self, Some(Ok(expr)));
                    lemma_opt_tree_kept(entry.nodes(), self.nodes(), parts);
                    entry_part = Tree::Spread(Box::new(tree_of(self.nodes(), expr as int)));
                }
                let new_part = self.add_node(AstNode::Spread(expr));
                parts = self.push_part(parts, new_part);
            } else {
                let ghost s1 = *self;
                proof {
                    lemma_extends_trans(*old(self), entry, s1);
                }
                let key = match self.parse_map_key() {
                    None => {
                        break;
                    },
                    Some(res) => match res {
                        Err(err) => {
                            proof {
                                lemma_parsed_after(*old(self), s1, *self, Some(Err(err)));
                            }
                            return Some(Err(err));
                        },
                        Ok(key) => key,
                    },
                };
                proof {
                    lemma_parsed_after(*old(self), s1, *self, Some(Ok(key)));
                }
                let ghost key_tree = tree_of(self.nodes(), key as int);
                self.parse_ws();
                if !self.parse_byte(58) {
                    return Some(Err(self.get_err(ParseErrorType::NoColonInMapLiteral)));
                }
                self.parse_ws();
                let ghost before = *self;
                let val = match self.parse_expr() {
                    None => {
                        return Some(Err(self.get_err(ParseErrorType::NoMapLiteralValue)));
                    },
                    Some(res) => match res {
                        Err(err) => {
                            proof {
                                lemma_parsed_after(*old(self), before, *self, Some(Err(err)));
                            }
                            return Some(Err(err));
                        },
                        Ok(val) => val,
                    },
                };
                proof {
                    lemma_parsed_after(*old(self), before, *self, Some(Ok(val)));
                    lemma_opt_tree_kept(entry.nodes(), self.nodes(), parts);
                    lemma_tree_kept(before.nodes(), self.nodes(), key as int);
                    entry_part = Tree::MapKeyValPair(Box::new(key_tree), Box::new(tree_of(self.nodes(), val as int)));
                }
                let kv_pair = self.add_node(AstNode::MapKeyValPair { key, val });
                parts = self.push_part(parts, kv_pair);
            }
            proof {
                assert(opt_tree(self.nodes(), parts) == join(before_parts, entry_part));
            }
            self.parse_ws();
            if !self.parse_byte(44) {
                break;
            }
        }
        if !self.parse_byte(125) {
            return Some(Err(self.get_err(ParseErrorType::NoMapLiteralEndingBrace)));
        }
        let ghost pre = self.nodes();
        let ptr = self.add_node(AstNode::MapLiteral(parts));
        assert(boxed(opt_tree(pre, parts)) == opt_boxed_tree(pre, parts));
        Some(Ok(ptr))
    }

    /// Reads the key of a map entry: an expression in brackets, a string literal, or a
    /// name.
    #[verifier::spinoff_prover]
    fn parse_map_key(&mut self) -> (r: ParseResult)
        requires
            old(self).wf(),
        ensures
            Self::gives(old(self), final(self), r, read_map_key(old(self).text(), old(self).pos())),
        decreases old(self).text().len() - old(self).pos(), 44nat,
    {
        reveal_with_fuel(read_map_key, 1);
        if self.parse_byte(91) {
            self.parse_ws();
            let ghost before = *self;
            let key = match self.parse_expr() {
                None => {
                    return Some(Err(self.get_err(ParseErrorType::NoExprInMapKey)));
                },
                Some(res) => match res {
                    Err(err) => {
                        proof {
                            lemma_parsed_after(*old(self), before, *self, Some(Err(err)));
                        }
                        return Some(Err(err));
                    },
                    Ok(key) => key,
                },
            };
            proof {
                lemma_parsed_after(*old(self), before, *self, Some(Ok(key)));
            }
            self.parse_ws();
            if !self.parse_byte(93) {
                return Some(Err(self.get_err(ParseErrorType::NoClosingBracketForMapKey)));
            }
            return Some(Ok(key));
        }
        if let Some(f_string) = self.parse_format_string() {
            return Some(f_string);
        }
        match self.parse_identifier(false) {
            None => None,
            Some(val) => Some(Ok(val)),
        }
    }

    /// Reads a string literal in single quotes, or else in double quotes.
    #[verifier::spinoff_prover]
    fn parse_format_string(&mut self) -> (r: ParseResult)
        requires
            old(self).wf(),
        ensures
            Self::gives(old(self), final(self), r, read_format_string(old(self).text(), old(self).pos())),
        decreases old(self).text().len() - old(self).pos(), 30nat,
    {
        reveal_with_fuel(read_format_string, 1);
        if let Some(result) = self.inner_parse_format_string(39) {
            return Some(result);
        }
        if let Some(result) = self.inner_parse_format_string(34) {
            return Some(result);
        }
        None
    }

    /// Reads a string literal in `quote_char`s: text, with `\` escaping the byte after
    /// it, and expressions in braces. The parts are the text before each brace or the
    /// closing quote, and the expressions, in order.
    #[verifier::spinoff_prover]
    fn inner_parse_format_string(&mut self, quote_char: u8) -> (r: ParseResult)
        requires
            old(self).wf(),
        ensures
            Self::gives(old(self), final(self), r, read_quoted(old(self).text(), old(self).pos(), quote_char)),
        decreases old(self).text().len() - old(self).pos(), 28nat,
    {
        reveal_with_fuel(read_quoted, 1);
        reveal_with_fuel(read_quoted_parts, 1);
        let ghost t = self.text();
        let ghost p0 = self.pos();
        match self.peek(0) {
            None => {
                return None;
            },
            Some(c) => {
                if c != quote_char {
                    return None;
                }
            },
        }
        self.idx = self.idx + 1;
        let mut parts: Option<AstNodePtr> = None;
        let mut idx: usize = 0;
        loop
            invariant_except_break
                read_quoted(t, p0, quote_char) == read_quoted_parts(
                    t,
                    self.pos(),
                    idx as int,
                    quote_char,
                    opt_tree(self.nodes(), parts),
                ),
                self.pos() + idx <= self.text().len() + 1,
            invariant
                extends(*old(self), *self),
                old(self).pos() < self.pos(),
                opt_below(parts, self.nodes().len() as int),
                t == old(self).text(),
                p0 == old(self).pos(),
            ensures
                self.pos() + idx < self.text().len(),
                read_quoted(t, p0, quote_char) == Outcome::Found(
                    Tree::FormatString(boxed(opt_tree(self.nodes(), parts))),
                    self.pos() + idx + 1,
                ),
            decreases self.text().len() + 2 - (self.pos() + idx),
        {
            reveal_with_fuel(read_quoted_parts, 1);
            match self.peek(idx) {
                None => {
                    return Some(Err(self.get_err(ParseErrorType::NoClosingQuoteOnString)));
                },
                Some(ch) => {
                    if ch == quote_char || ch == 123 {
                        let part = self.add_node(AstNode::SubString(self.idx, self.idx + idx));
                        parts = self.push_part(parts, part);
                        if ch == quote_char {
                            break;
                        }
                        self.idx = self.idx + idx + 1;
                        self.parse_ws();
                        let ghost before = *self;
                        let part = match self.parse_expr() {
                            None => {
                                return Some(Err(self.get_err(ParseErrorType::NoExprInFormatString)));
                            },
                            Some(res) => match res {
                                Err(err) => {
                                    proof {
                                        lemma_parsed_after(*old(self), before, *self, Some(Err(err)));
                                    }
                                    return Some(Err(err));
                                },
                                Ok(part) => part,
                            },
                        };
                        proof {
                            lemma_parsed_after(*old(self), before, *self, Some(Ok(part)));
                            lemma_opt_tree_kept(before.nodes(), self.nodes(), parts);
                        }
                        parts = self.push_part(parts, part);
                        self.parse_ws();
                        if !self.parse_byte(125) {
                            return Some(Err(self.get_err(ParseErrorType::NoClosingBraceInFormatString)));
                        }
                        idx = 0;
                    } else if ch == 92 {
                        idx = idx + 2;
                    } else {
                        idx = idx + 1;
                    }
                },
            }
        }
        self.idx = self.idx + idx + 1;
        let ghost pre = self.nodes();
        let ptr = self.add_node(AstNode::FormatString(parts));
        assert(boxed(opt_tree(pre, parts)) == opt_boxed_tree(pre, parts));
        Some(Ok(ptr))
    }

    /// Reads an index: `/` and an expression (counted from the end), or an expression.
    #[verifier::spinoff_prover]
    fn parse_access_expr(&mut self) -> (r: ParseResult)
        requires
            old(self).wf(),
        ensures
            Self::gives(old(self), final(self), r, read_access_expr(old(self).text(), old(self).pos())),
        decreases old(self).text().len() - old(self).pos(), 42nat,
    {
        reveal_with_fuel(read_access_expr, 1);
        if self.parse_byte(47) {
            self.parse_ws();
            let ghost before = *self;
            match self.parse_expr() {
                None => Some(Err(self.get_err(ParseErrorType::NoExprReverseIndex))),
                Some(res) => match res {
                    Err(err) => {
                        proof {
                            lemma_parsed_after(*old(self), before, *self, Some(Err(err)));
                        }
                        Some(Err(err))
                    },
                    Ok(expr) => {
                        proof {
                            lemma_parsed_after(*old(self), before, *self, Some(Ok(expr)));
                        }
                        Some(Ok(self.add_node(AstNode::ReverseIdx(expr))))
                    },
                },
            }
        } else {
            self.parse_expr()
        }
    }

    /// Reads an access: `.` and a name, or `[`, an index or a slice, and `]`.
    #[verifier::spinoff_prover]
    fn parse_access(&mut self) -> (r: ParseResult)
        requires
            old(self).wf(),
        ensures
            Self::gives(old(self), final(self), r, read_access(old(self).text(), old(self).pos())),
        decreases old(self).text().len() - old(self).pos(), 30nat,
    {
        reveal_with_fuel(read_access, 1);
        if self.parse_byte(46) {
            self.parse_ws();
            let identifier = match self.parse_identifier(true) {
                None => {
                    return Some(Err(self.get_err(ParseErrorType::NoIdentifierAfterDotAccess)));
                },
                Some(val) => val,
            };
            Some(Ok(identifier))
        } else if self.parse_byte(91) {
            self.parse_ws();
            let ghost before = *self;
            let start_expr = match self.parse_access_expr() {
                None => None,
                Some(res) => match res {
                    Err(err) => {
                        proof {
                            lemma_parsed_after(*old(self), before, *self, Some(Err(err)));
                        }
                        return Some(Err(err));
                    },
                    Ok(expr) => {
                        proof {
                            lemma_parsed_after(*old(self), before, *self, Some(Ok(expr)));
                        }
                        Some(expr)
                    },
                },
            };
            let ghost s1 = *self;
            proof {
                lemma_extends_trans(*old(self), before, s1);
            }
            let r = self.parse_slice(start_expr);
            proof {
                lemma_parsed_after(*old(self), s1, *self, r);
            }
            r
        } else {
            None
        }
    }

    /// Reads the rest of a bracket access after its first index (`start`, if any): `:`
    /// and an optional second index (a slice), then `]`.
    #[verifier::spinoff_prover]
    fn parse_slice(&mut self, start: Option<AstNodePtr>) -> (r: ParseResult)
        requires
            old(self).wf(),
            opt_below(start, old(self).nodes().len() as int),
        ensures
            Self::parsed(old(self), final(self), r),
            r is Some,
            match read_slice(old(self).text(), old(self).pos(), opt_tree(old(self).nodes(), start)) {
                Outcome::Absent => false,
                Outcome::Found(x, e) => r matches Some(Ok(p)) && tree_of(final(self).nodes(), p as int) == x
                    && final(self).pos() == e,
                Outcome::Failed(k, i) => r matches Some(Err(err)) && err.typ() == k && err.idx() == i,
            },
        decreases old(self).text().len() - old(self).pos(), 29nat,
    {
        reveal_with_fuel(read_slice, 1);
        self.parse_ws();
        let access_expr = if self.parse_byte(58) {
            self.parse_ws();
            let ghost before = *self;
            let end_expr = match self.parse_access_expr() {
                None => None,
                Some(res) => match res {
                    Err(err) => {
                        proof {
                            lemma_parsed_after(*old(self), before, *self, Some(Err(err)));
                        }
                        return Some(Err(err));
                    },
                    Ok(expr) => {
                        proof {
                            lemma_parsed_after(*old(self), before, *self, Some(Ok(expr)));
                        }
                        Some(expr)
                    },
                },
            };
            proof {
                lemma_opt_tree_kept(before.nodes(), self.nodes(), start);
            }
            self.parse_ws();
            let ghost pre = self.nodes();
            let acc = self.add_node(AstNode::SliceAccess(start, end_expr));
            proof {
                assert(boxed(opt_tree(pre, start)) == opt_boxed_tree(pre, start));
                assert(boxed(opt_tree(pre, end_expr)) == opt_boxed_tree(pre, end_expr));
            }
            acc
        } else {
            match start {
                None => {
                    return Some(Err(self.get_err(ParseErrorType::NoExpressionForBracketAccess)));
                },
                Some(expr) => expr,
            }
        };
        if !self.parse_byte(93) {
            return Some(Err(self.get_err(ParseErrorType::NoClosingBracketForBracketAccess)));
        }
        Some(Ok(access_expr))
    }

    /// Parses the whole query: an expression (or nothing, read as `null`) with
    /// whitespace around it, which must reach the end of the text.
    #[verifier::spinoff_prover]
    pub fn external_parse_expr(&mut self) -> (r: ParseResult)
        requires
            old(self).wf(),
        ensures
            final(self).wf(),
            extends(*old(self), *final(self)),
            r is Some,
            r matches Some(Ok(p)) ==> p < final(self).nodes().len() && final(self).pos() == final(self).text().len(),
            r matches Some(Err(e)) ==> old(self).pos() <= e.idx() <= final(self).text().len(),
            match read_query(old(self).text(), old(self).pos()) {
                Outcome::Absent => false,
                Outcome::Found(x, e) => r matches Some(Ok(p)) && tree_of(final(self).nodes(), p as int) == x
                    && final(self).pos() == e,
                Outcome::Failed(k, i) => r matches Some(Err(err)) && err.typ() == k && err.idx() == i,
            },
    {
        self.parse_ws();
        let expr = match self.parse_expr() {
            None => self.add_node(AstNode::Null),
            Some(res) => match res {
                Err(err) => {
                    return Some(Err(err));
                },
                Ok(expr) => expr,
            },
        };
        self.parse_ws();
        if self.idx < self.text.len() {
            return Some(Err(self.get_err(ParseErrorType::IncompleteParse)));
        }
        Some(Ok(expr))
    }
}

} // verus!
