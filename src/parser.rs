//! Tree builder: recursive descent over the token stream, one top-level form at a time.
use crate::lexer::{
    empty_span, lex_at, lex_end, pos, span_of, token_at, Cursor, Span, Token as LexerToken,
    TokenKind as LexerTokenKind,
};
use vstd::prelude::*;

verus! {

/// A reader that builds a syntax tree for each top-level form of a source text.
pub struct Parser<'a> {
    pub string_reader: StringReader<'a>,
}

/// The tree builder: the source and a tokenizer over it.
pub struct StringReader<'a> {
    pub src: &'a str,
    pub cursor: Cursor,
}

/// The kinds of syntax nodes.
#[derive(Debug)]
pub enum TokenKind {
    SExpr(SExpr),
    Atom(AtomKind),
    /// A closing parenthesis: ends every tail, and stands in it as its last element.
    Nil,
    /// The empty list `()`.
    ListNil,
    EOF,
}

/// A form: a head and the cells that follow it.
#[derive(Debug)]
pub enum SExpr {
    Cons { car: Box<Token>, cdr: Vec<Token> },
}

#[derive(Debug)]
pub enum AtomKind {
    Literal(LexerToken),
    Symbol(LexerToken),
}

/// A syntax node and the source range it covers.
#[derive(Debug)]
pub struct Token {
    pub kind: TokenKind,
    pub span: Span,
}

#[derive(Debug)]
pub enum ParseError {
    /// The kinds that were acceptable, and the token that came instead.
    UnexpectedToken(Vec<LexerTokenKind>, LexerToken),
}

impl View for ParseError {
    type V = (Seq<LexerTokenKind>, LexerToken);

    open spec fn view(&self) -> Self::V {
        match self {
            ParseError::UnexpectedToken(v, t) => (v@, *t),
        }
    }
}

/// The mathematical model of a syntax node.
pub enum NodeKind {
    Form(Box<Node>, Seq<Node>),
    Symbol(LexerToken),
    Literal(LexerToken),
    Nil,
    ListNil,
    Eof,
}

pub struct Node {
    pub kind: NodeKind,
    pub span: Span,
}

/// The model of a syntax node.
pub open spec fn node_of(t: Token) -> Node
    decreases t,
{
    Node {
        kind: match t.kind {
            TokenKind::SExpr(SExpr::Cons { car, cdr }) => NodeKind::Form(
                Box::new(node_of(*car)),
                Seq::new(
                    cdr.len() as nat,
                    |k: int|
                        if 0 <= k < cdr.len() {
                            node_of(cdr[k])
                        } else {
                            Node { kind: NodeKind::Nil, span: t.span }
                        },
                ),
            ),
            TokenKind::Atom(AtomKind::Symbol(l)) => NodeKind::Symbol(l),
            TokenKind::Atom(AtomKind::Literal(l)) => NodeKind::Literal(l),
            TokenKind::Nil => NodeKind::Nil,
            TokenKind::ListNil => NodeKind::ListNil,
            TokenKind::EOF => NodeKind::Eof,
        },
        span: t.span,
    }
}

pub open spec fn nodes_of(v: Seq<Token>) -> Seq<Node> {
    Seq::new(v.len(), |k: int| node_of(v[k]))
}

/// The token kinds that may introduce a cell inside a form.
pub open spec fn allowed_kinds() -> Seq<LexerTokenKind> {
    seq![
        LexerTokenKind::Keyword,
        LexerTokenKind::Ident,
        LexerTokenKind::Backquote,
        LexerTokenKind::Literal,
        LexerTokenKind::OpenParen,
        LexerTokenKind::CloseParen,
        LexerTokenKind::OpenAngleBracket,
        LexerTokenKind::CloseAngleBracket,
        LexerTokenKind::Eq,
        LexerTokenKind::Bang,
        LexerTokenKind::And,
    ]
}

/// Index of the next token that is not whitespace.
pub open spec fn skip_whitespace(s: Seq<char>, i: int) -> int {
    if 0 <= i < s.len() && token_at(s, i).0 == LexerTokenKind::Whitespace {
        token_at(s, i).1
    } else {
        i
    }
}

/// Index of the next token that is neither whitespace nor a comment.
pub open spec fn skip_trivia(s: Seq<char>, i: int) -> int
    decreases (s.len() - i) as nat,
{
    if 0 <= i < s.len() && (token_at(s, i).0 == LexerTokenKind::Whitespace || token_at(s, i).0
        == LexerTokenKind::LineComment) && i < token_at(s, i).1 <= s.len() {
        skip_trivia(s, token_at(s, i).1)
    } else {
        i
    }
}

/// The span from the start of `a` to the end of `b`.
pub open spec fn join_spans(a: Span, b: Span) -> Span {
    Span { start_row: a.start_row, start_col: a.start_col, end_row: b.end_row, end_col: b.end_col }
}

/// The cell that token `t` starts, when the input after it begins at `e`.
pub open spec fn cell_from(s: Seq<char>, t: LexerToken, e: int) -> Result<(Node, int), LexerToken>
    decreases (s.len() - e) as nat, 3nat,
{
    if t.kind == LexerTokenKind::OpenParen {
        parse_form(s, t, e)
    } else if t.kind == LexerTokenKind::CloseParen {
        Ok((Node { kind: NodeKind::Nil, span: t.span }, e))
    } else if t.kind == LexerTokenKind::Ident || t.kind == LexerTokenKind::Keyword {
        Ok((Node { kind: NodeKind::Symbol(t), span: t.span }, e))
    } else {
        Ok((Node { kind: NodeKind::Literal(t), span: t.span }, e))
    }
}

/// The next cell at index `i`: its node and the index after it, or the token that
/// may not start a cell.
pub open spec fn parse_cell(s: Seq<char>, i: int) -> Result<(Node, int), LexerToken>
    decreases (s.len() - i) as nat, 0nat,
{
    let k = skip_whitespace(s, i);
    let t = lex_at(s, k);
    let e = lex_end(s, k);
    if allowed_kinds().contains(t.kind) && i < e <= s.len() {
        cell_from(s, t, e)
    } else {
        Err(t)
    }
}

/// The form whose opening parenthesis is `open`, with its body from index `i`.
pub open spec fn parse_form(s: Seq<char>, open: LexerToken, i: int) -> Result<(Node, int), LexerToken>
    decreases (s.len() - i) as nat, 2nat,
{
    match parse_cell(s, i) {
        Err(x) => Err(x),
        Ok((head, j)) => {
            if head.kind is Nil {
                Ok((Node { kind: NodeKind::ListNil, span: join_spans(open.span, head.span) }, j))
            } else if i < j <= s.len() {
                match parse_tail(s, j) {
                    Err(x) => Err(x),
                    Ok((tail, j2)) => Ok(
                        (
                            Node {
                                kind: NodeKind::Form(Box::new(head), tail),
                                span: join_spans(open.span, tail.last().span),
                            },
                            j2,
                        ),
                    ),
                }
            } else {
                Err(open)
            }
        },
    }
}

/// The cells from index `i` up to and including the closing parenthesis.
pub open spec fn parse_tail(s: Seq<char>, i: int) -> Result<(Seq<Node>, int), LexerToken>
    decreases (s.len() - i) as nat, 1nat,
{
    match parse_cell(s, i) {
        Err(x) => Err(x),
        Ok((n, j)) => {
            if n.kind is Nil {
                Ok((seq![n], j))
            } else if i < j <= s.len() {
                match parse_tail(s, j) {
                    Err(x) => Err(x),
                    Ok((rest, j2)) => Ok((seq![n] + rest, j2)),
                }
            } else {
                Err(lex_at(s, i))
            }
        },
    }
}

/// The next top-level node at index `i`, with the index after it, or the error:
/// the kinds that were acceptable and the token that came instead.
pub open spec fn parse_top(s: Seq<char>, i: int) -> Result<
    (Node, int),
    (Seq<LexerTokenKind>, LexerToken),
> {
    let k = skip_trivia(s, i);
    let t = lex_at(s, k);
    if t.kind == LexerTokenKind::OpenParen {
        match parse_form(s, t, lex_end(s, k)) {
            Ok(r) => Ok(r),
            Err(x) => Err((allowed_kinds(), x)),
        }
    } else if t.kind == LexerTokenKind::EOF {
        Ok((Node { kind: NodeKind::Eof, span: empty_span() }, k))
    } else {
        Err((seq![LexerTokenKind::OpenParen], t))
    }
}

/// A whitespace run is followed by the end of the source or by a token of another kind.
pub proof fn lemma_after_whitespace(s: Seq<char>, i: int)
    requires
        0 <= i < s.len(),
        token_at(s, i).0 == LexerTokenKind::Whitespace,
    ensures
        i < token_at(s, i).1 <= s.len(),
        token_at(s, i).1 < s.len() ==> token_at(s, token_at(s, i).1).0
            != LexerTokenKind::Whitespace,
{
    crate::lexer::lemma_token_at_bounds(s, i);
    lemma_whitespace_end_stops(s, i + 1);
}

proof fn lemma_whitespace_end_stops(s: Seq<char>, j: int)
    requires
        0 <= j <= s.len(),
    ensures
        crate::lexer::whitespace_end(s, j) < s.len() ==> !crate::lexer::is_whitespace_spec(
            s[crate::lexer::whitespace_end(s, j)],
        ),
    decreases s.len() - j,
{
    if j < s.len() {
        lemma_whitespace_end_stops(s, j + 1);
    }
}

/// The next significant token starts between `i` and the end of the source.
pub proof fn lemma_skip_whitespace(s: Seq<char>, i: int)
    requires
        0 <= i <= s.len(),
    ensures
        i <= skip_whitespace(s, i) <= s.len(),
        skip_whitespace(s, i) < s.len() ==> skip_whitespace(s, i) < lex_end(
            s,
            skip_whitespace(s, i),
        ) <= s.len(),
{
    if i < s.len() {
        crate::lexer::lemma_token_at_bounds(s, i);
        let e = token_at(s, i).1;
        if e < s.len() {
            crate::lexer::lemma_token_at_bounds(s, e);
        }
    }
}

/// Reading a cell at `i` is building it from the next significant token, when that
/// token may start one.
proof fn lemma_cell_step(s: Seq<char>, i: int)
    requires
        0 <= i <= s.len(),
        allowed_kinds().contains(lex_at(s, skip_whitespace(s, i)).kind),
    ensures
        skip_whitespace(s, i) < s.len(),
        i < lex_end(s, skip_whitespace(s, i)) <= s.len(),
        parse_cell(s, i) == cell_from(
            s,
            lex_at(s, skip_whitespace(s, i)),
            lex_end(s, skip_whitespace(s, i)),
        ),
{
    lemma_skip_whitespace(s, i);
    let k = skip_whitespace(s, i);
    if k >= s.len() {
        assert(lex_at(s, k).kind == LexerTokenKind::EOF);
        assert(!allowed_kinds().contains(LexerTokenKind::EOF)) by {
            if allowed_kinds().contains(LexerTokenKind::EOF) {
                let m = choose|m: int| 0 <= m < 11 && allowed_kinds()[m] == LexerTokenKind::EOF;
                assert(false);
            }
        }
    }
}

/// One step of reading a tail.
proof fn lemma_tail_step(s: Seq<char>, i: int)
    requires
        parse_cell(s, i) is Ok,
        i < parse_cell(s, i)->Ok_0.1 <= s.len(),
    ensures
        ({
            let (n, j) = parse_cell(s, i)->Ok_0;
            parse_tail(s, i) == if n.kind is Nil {
                Ok((seq![n], j))
            } else {
                match parse_tail(s, j) {
                    Err(x) => Err(x),
                    Ok((rest, j2)) => Ok((seq![n] + rest, j2)),
                }
            }
        }),
{
}

/// The model of a form node built from a head and its tail.
proof fn lemma_node_of_form(car: Token, cdr: Vec<Token>, span: Span)
    ensures
        node_of(Token { kind: TokenKind::SExpr(SExpr::Cons { car: Box::new(car), cdr }), span })
            == (Node { kind: NodeKind::Form(Box::new(node_of(car)), nodes_of(cdr@)), span }),
{
    let t = Token { kind: TokenKind::SExpr(SExpr::Cons { car: Box::new(car), cdr }), span };
    if let NodeKind::Form(h, ts) = node_of(t).kind {
        assert(ts =~= nodes_of(cdr@));
    }
}

/// Every tail ends with exactly one `Nil`, which is its last element.
pub open spec fn tail_shape(ts: Seq<Node>) -> bool {
    &&& ts.len() >= 1
    &&& ts.last().kind is Nil
    &&& forall|k: int| 0 <= k < ts.len() - 1 ==> !(#[trigger] ts[k].kind is Nil)
}

/// A tree as the parser builds it: no form has a `Nil` head, every tail has the shape
/// above, and every atom covers characters of `s`.
pub open spec fn well_formed(n: Node, s: Seq<char>) -> bool
    decreases n,
{
    match n.kind {
        NodeKind::Form(h, ts) => {
            &&& !(h.kind is Nil)
            &&& tail_shape(ts)
            &&& well_formed(*h, s)
            &&& forall|k: int| 0 <= k < ts.len() ==> well_formed(#[trigger] ts[k], s)
        },
        NodeKind::Symbol(t) => t.within(s) && t.kind != LexerTokenKind::EOF,
        NodeKind::Literal(t) => t.within(s) && t.kind != LexerTokenKind::EOF,
        _ => true,
    }
}

/// The span whose both ends are the position of `s[j - 1]`.
pub open spec fn closing_span(s: Seq<char>, j: int) -> Span {
    span_of(s, j - 1, j)
}

proof fn lemma_cell_from_wf(s: Seq<char>, k: int, e: int)
    requires
        0 <= k < s.len(),
        e == lex_end(s, k),
        allowed_kinds().contains(lex_at(s, k).kind),
    ensures
        cell_from(s, lex_at(s, k), e) matches Ok((n, j)) ==> {
            &&& e <= j <= s.len()
            &&& well_formed(n, s)
            &&& n.kind is Nil ==> s[j - 1] == ')' && n.span == closing_span(s, j)
        },
    decreases (s.len() - e) as nat, 3nat,
{
    crate::lexer::lemma_token_at_bounds(s, k);
    let t = lex_at(s, k);
    if t.kind == LexerTokenKind::OpenParen {
        lemma_form_wf(s, t, e);
    } else if t.kind == LexerTokenKind::CloseParen {
        assert(s[k] == ')');
        assert(e == k + 1);
    }
}

proof fn lemma_cell_wf(s: Seq<char>, i: int)
    requires
        0 <= i <= s.len(),
    ensures
        parse_cell(s, i) matches Ok((n, j)) ==> {
            &&& i < j <= s.len()
            &&& well_formed(n, s)
            &&& n.kind is Nil ==> s[j - 1] == ')' && n.span == closing_span(s, j)
        },
    decreases (s.len() - i) as nat, 0nat,
{
    let k = skip_whitespace(s, i);
    lemma_skip_whitespace(s, i);
    if allowed_kinds().contains(lex_at(s, k).kind) {
        lemma_cell_step(s, i);
        lemma_cell_from_wf(s, k, lex_end(s, k));
    }
}

proof fn lemma_tail_wf(s: Seq<char>, i: int)
    requires
        0 <= i <= s.len(),
    ensures
        parse_tail(s, i) matches Ok((ts, j)) ==> {
            &&& i < j <= s.len()
            &&& tail_shape(ts)
            &&& forall|k: int| 0 <= k < ts.len() ==> well_formed(#[trigger] ts[k], s)
            &&& s[j - 1] == ')'
            &&& ts.last().span == closing_span(s, j)
        },
    decreases (s.len() - i) as nat, 1nat,
{
    lemma_cell_wf(s, i);
    if let Ok((n, j)) = parse_cell(s, i) {
        if !(n.kind is Nil) {
            lemma_tail_wf(s, j);
            if let Ok((rest, j2)) = parse_tail(s, j) {
                let ts = seq![n] + rest;
                assert(seq![n].len() == 1);
                assert(ts.len() == rest.len() + 1);
                assert(ts.last() == rest.last());
                assert forall|k: int| 0 <= k < ts.len() implies well_formed(#[trigger] ts[k], s) by {
                    if k > 0 {
                        assert(ts[k] == rest[k - 1]);
                    }
                }
                assert forall|k: int| 0 <= k < ts.len() - 1 implies !(#[trigger] ts[k].kind is Nil) by {
                    if k > 0 {
                        assert(ts[k] == rest[k - 1]);
                    }
                }
            }
        }
    }
}

proof fn lemma_form_wf(s: Seq<char>, open: LexerToken, i: int)
    requires
        0 <= i <= s.len(),
    ensures
        parse_form(s, open, i) matches Ok((n, j)) ==> {
            &&& i < j <= s.len()
            &&& well_formed(n, s)
            &&& (n.kind is Form || n.kind is ListNil)
            &&& s[j - 1] == ')'
            &&& n.span == join_spans(open.span, closing_span(s, j))
        },
    decreases (s.len() - i) as nat, 2nat,
{
    lemma_cell_wf(s, i);
    if let Ok((head, j)) = parse_cell(s, i) {
        if !(head.kind is Nil) {
            lemma_tail_wf(s, j);
        }
    }
}

proof fn lemma_skip_trivia(s: Seq<char>, i: int)
    requires
        0 <= i <= s.len(),
    ensures
        i <= skip_trivia(s, i) <= s.len(),
    decreases (s.len() - i) as nat,
{
    if i < s.len() {
        crate::lexer::lemma_token_at_bounds(s, i);
        lemma_skip_trivia(s, token_at(s, i).1);
    }
}

/// A top-level node other than the end of input is a form or `()` that runs from the
/// opening parenthesis at the first significant token to the closing one just before
/// the index it returns, and is well formed.
pub proof fn lemma_top(s: Seq<char>, i: int)
    requires
        0 <= i <= s.len(),
    ensures
        parse_top(s, i) matches Ok((n, j)) ==> {
            &&& i <= j <= s.len()
            &&& well_formed(n, s)
            &&& n.kind is Eof <==> j == skip_trivia(s, i) == s.len()
            &&& !(n.kind is Eof) ==> {
                &&& i < j
                &&& (n.kind is Form || n.kind is ListNil)
                &&& s[skip_trivia(s, i)] == '('
                &&& s[j - 1] == ')'
                &&& n.span == join_spans(
                    span_of(s, skip_trivia(s, i), skip_trivia(s, i) + 1),
                    closing_span(s, j),
                )
            }
        },
{
    lemma_skip_trivia(s, i);
    let k = skip_trivia(s, i);
    if k < s.len() {
        crate::lexer::lemma_token_at_bounds(s, k);
        lemma_form_wf(s, lex_at(s, k), lex_end(s, k));
    }
}

/// `()` is the empty list: when the first significant token after an opening
/// parenthesis closes it, the form parses to `ListNil`, never to a form with an
/// empty tail; and no form that parses has an empty tail.
pub proof fn law_empty_list(s: Seq<char>, open: LexerToken, i: int)
    requires
        0 <= i <= s.len(),
    ensures
        lex_at(s, skip_whitespace(s, i)).kind == LexerTokenKind::CloseParen ==> (parse_form(
            s,
            open,
            i,
        ) matches Ok((n, _)) && n.kind is ListNil),
        parse_form(s, open, i) matches Ok((n, _)) ==> match n.kind {
            NodeKind::Form(_, tail) => tail.len() >= 1,
            NodeKind::ListNil => lex_at(s, skip_whitespace(s, i)).kind
                == LexerTokenKind::CloseParen,
            _ => false,
        },
{
    lemma_form_wf(s, open, i);
    lemma_skip_whitespace(s, i);
    let k = skip_whitespace(s, i);
    if allowed_kinds().contains(lex_at(s, k).kind) {
        lemma_cell_step(s, i);
    }
    if lex_at(s, k).kind == LexerTokenKind::CloseParen {
        assert(allowed_kinds()[5] == LexerTokenKind::CloseParen);
        lemma_cell_step(s, i);
    }
}

fn cons_kinds() -> (r: Vec<LexerTokenKind>)
    ensures
        r@ == allowed_kinds(),
{
    let mut v: Vec<LexerTokenKind> = Vec::new();
    v.push(LexerTokenKind::Keyword);
    v.push(LexerTokenKind::Ident);
    v.push(LexerTokenKind::Backquote);
    v.push(LexerTokenKind::Literal);
    v.push(LexerTokenKind::OpenParen);
    v.push(LexerTokenKind::CloseParen);
    v.push(LexerTokenKind::OpenAngleBracket);
    v.push(LexerTokenKind::CloseAngleBracket);
    v.push(LexerTokenKind::Eq);
    v.push(LexerTokenKind::Bang);
    v.push(LexerTokenKind::And);
    assert(v@ =~= allowed_kinds());
    v
}

impl ParseError {
    fn expected(expect: &[LexerTokenKind], got: LexerToken) -> (r: ParseError)
        ensures
            r@ == (expect@, got),
    {
        ParseError::UnexpectedToken(vstd::slice::slice_to_vec(expect), got)
    }
}

impl<'a> StringReader<'a> {
    /// The tokenizer reads exactly this reader's source.
    pub open spec fn wf(&self) -> bool {
        self.cursor.wf() && self.cursor.text() == self.src@
    }

    /// Index of the next source character to read.
    pub open spec fn index(&self) -> int {
        self.cursor.index()
    }

    pub fn new(src: &'a str) -> (r: StringReader<'a>)
        requires
            src@.len() < usize::MAX,
        ensures
            r.wf(),
            r.src == src,
            r.index() == 0,
    {
        StringReader { src, cursor: Cursor::new(src) }
    }

    /// Parses the next top-level node: a form, `()`, or the end of input, skipping
    /// whitespace and comments before it.
    pub fn next_token(&mut self) -> (r: Result<Token, ParseError>)
        requires
            old(self).wf(),
        ensures
            final(self).wf(),
            final(self).src == old(self).src,
            final(self).index() >= old(self).index(),
            parse_top(old(self).src@, old(self).index()) == match r {
                Ok(t) => Ok((node_of(t), final(self).index())),
                Err(e) => Err(e@),
            },
    {
        let ghost s = self.src@;
        let ghost i0 = self.index();
        loop
            invariant
                self.wf(),
                self.src == old(self).src,
                s == self.src@,
                s == old(self).src@,
                i0 == old(self).index(),
                i0 <= self.index(),
                skip_trivia(s, self.index()) == skip_trivia(s, i0),
            decreases s.len() - self.index(),
        {
            proof {
                self.cursor.lemma_wf();
            }
            let ghost i = self.index();
            let lexer_token = self.cursor.next_token();
            proof {
                if i < s.len() {
                    crate::lexer::lemma_token_at_bounds(s, i);
                }
            }
            match lexer_token.kind {
                LexerTokenKind::Whitespace | LexerTokenKind::LineComment => {},
                LexerTokenKind::OpenParen => {
                    return self.parse_sexpr(lexer_token);
                },
                LexerTokenKind::EOF => {
                    return Ok(Token { kind: TokenKind::EOF, span: Span::new(0, 0, 0, 0) });
                },
                _ => {
                    let mut expected: Vec<LexerTokenKind> = Vec::new();
                    expected.push(LexerTokenKind::OpenParen);
                    proof {
                        assert(expected@ =~= seq![LexerTokenKind::OpenParen]);
                    }
                    return Err(ParseError::UnexpectedToken(expected, lexer_token));
                },
            }
        }
    }

    /// Parses a form whose opening parenthesis `lexer_token` was just read.
    fn parse_sexpr(&mut self, lexer_token: LexerToken) -> (r: Result<Token, ParseError>)
        requires
            old(self).wf(),
        ensures
            final(self).wf(),
            final(self).src == old(self).src,
            final(self).index() >= old(self).index(),
            parse_form(old(self).src@, lexer_token, old(self).index()) == match r {
                Ok(t) => Ok((node_of(t), final(self).index())),
                Err(e) => Err(e@.1),
            },
            r matches Err(e) ==> e@.0 == allowed_kinds(),
        decreases old(self).src@.len() - old(self).index(), 2nat,
    {
        let ghost s = self.src@;
        let ghost i0 = self.index();
        proof {
            self.cursor.lemma_wf();
            lemma_skip_whitespace(s, i0);
        }
        let kinds = cons_kinds();
        let car_lexer = match self.expect_next(kinds.as_slice()) {
            Ok(t) => t,
            Err(e) => {
                return Err(e);
            },
        };
        proof {
            lemma_cell_step(s, i0);
        }
        let cell = match self.parse_cell(car_lexer) {
            Ok(c) => c,
            Err(e) => {
                return Err(e);
            },
        };
        if let TokenKind::Nil = cell.kind {
            return Ok(
                Token {
                    kind: TokenKind::ListNil,
                    span: Span::new(
                        lexer_token.span.start_row,
                        cell.span.end_row,
                        lexer_token.span.start_col,
                        cell.span.end_col,
                    ),
                },
            );
        }
        let ghost head = node_of(cell);
        let ghost j0 = self.index();
        proof {
            self.cursor.lemma_wf();
            assert(parse_cell(s, i0) == Ok::<(Node, int), LexerToken>((head, j0)));
        }
        let mut cdr_tokens: Vec<Token> = Vec::new();
        proof {
            assert(nodes_of(cdr_tokens@) =~= Seq::<Node>::empty());
            match parse_tail(s, j0) {
                Ok((rest, j2)) => {
                    assert(nodes_of(cdr_tokens@) + rest =~= rest);
                },
                Err(x) => {},
            }
        }
        loop
            invariant
                self.wf(),
                self.src == old(self).src,
                s == self.src@,
                s == old(self).src@,
                i0 == old(self).index(),
                i0 < j0 <= self.index(),
                kinds@ == allowed_kinds(),
                !(head.kind is Nil),
                head == node_of(cell),
                parse_form(s, lexer_token, i0) == match parse_tail(s, j0) {
                    Err(x) => Err(x),
                    Ok((tail, j2)) => Ok::<(Node, int), LexerToken>(
                        (
                            Node {
                                kind: NodeKind::Form(Box::new(head), tail),
                                span: join_spans(lexer_token.span, tail.last().span),
                            },
                            j2,
                        ),
                    ),
                },
                parse_tail(s, j0) == match parse_tail(s, self.index()) {
                    Ok((rest, j2)) => Ok((nodes_of(cdr_tokens@) + rest, j2)),
                    Err(x) => Err(x),
                },
            decreases s.len() - self.index(),
        {
            proof {
                self.cursor.lemma_wf();
                lemma_skip_whitespace(s, self.index());
            }
            let ghost i = self.index();
            let cdr_lexer = match self.expect_next(kinds.as_slice()) {
                Ok(t) => t,
                Err(e) => {
                    return Err(e);
                },
            };
            proof {
                lemma_cell_step(s, i);
            }
            let cdr = match self.parse_cell(cdr_lexer) {
                Ok(c) => c,
                Err(e) => {
                    return Err(e);
                },
            };
            proof {
                self.cursor.lemma_wf();
            }
            let is_nil = matches!(cdr.kind, TokenKind::Nil);
            let end_span = cdr.span;
            let ghost n = node_of(cdr);
            let ghost prev = cdr_tokens@;
            cdr_tokens.push(cdr);
            proof {
                assert(nodes_of(cdr_tokens@) =~= nodes_of(prev).push(n));
                lemma_tail_step(s, i);
            }
            if is_nil {
                let t = Token {
                    kind: TokenKind::SExpr(SExpr::Cons { car: Box::new(cell), cdr: cdr_tokens }),
                    span: Span::new(
                        lexer_token.span.start_row,
                        end_span.end_row,
                        lexer_token.span.start_col,
                        end_span.end_col,
                    ),
                };
                proof {
                    assert(nodes_of(prev) + seq![n] =~= nodes_of(cdr_tokens@));
                    lemma_node_of_form(cell, cdr_tokens, t.span);
                }
                return Ok(t);
            }
            proof {
                match parse_tail(s, self.index()) {
                    Ok((rest, j2)) => {
                        assert(nodes_of(prev) + (seq![n] + rest) =~= nodes_of(cdr_tokens@) + rest);
                    },
                    Err(x) => {},
                }
            }
        }
    }

    /// Builds the cell that `lexer_token` starts.
    fn parse_cell(&mut self, lexer_token: LexerToken) -> (r: Result<Token, ParseError>)
        requires
            old(self).wf(),
        ensures
            final(self).wf(),
            final(self).src == old(self).src,
            final(self).index() >= old(self).index(),
            cell_from(old(self).src@, lexer_token, old(self).index()) == match r {
                Ok(t) => Ok((node_of(t), final(self).index())),
                Err(e) => Err(e@.1),
            },
            r matches Err(e) ==> e@.0 == allowed_kinds(),
        decreases old(self).src@.len() - old(self).index(), 3nat,
    {
        proof {
            self.cursor.lemma_wf();
        }
        match lexer_token.kind {
            LexerTokenKind::OpenParen => self.parse_sexpr(lexer_token),
            LexerTokenKind::CloseParen => Ok(Token { span: lexer_token.span, kind: TokenKind::Nil }),
            LexerTokenKind::Ident | LexerTokenKind::Keyword => Ok(
                Token {
                    span: lexer_token.span,
                    kind: TokenKind::Atom(AtomKind::Symbol(lexer_token)),
                },
            ),
            _ => Ok(
                Token {
                    span: lexer_token.span,
                    kind: TokenKind::Atom(AtomKind::Literal(lexer_token)),
                },
            ),
        }
    }

    /// The next token that is not whitespace.
    fn next_lexer(&mut self) -> (t: LexerToken)
        requires
            old(self).wf(),
        ensures
            final(self).wf(),
            final(self).src == old(self).src,
            t == lex_at(old(self).src@, skip_whitespace(old(self).src@, old(self).index())),
            final(self).index() == lex_end(
                old(self).src@,
                skip_whitespace(old(self).src@, old(self).index()),
            ),
    {
        proof {
            self.cursor.lemma_wf();
        }
        let ghost s = self.src@;
        let ghost i = self.index();
        let token = self.cursor.next_token();
        if token.kind != LexerTokenKind::Whitespace {
            return token;
        }
        proof {
            lemma_after_whitespace(s, i);
        }
        self.cursor.next_token()
    }

    /// The next token that is not whitespace, provided its kind is one of `expected_kind`.
    fn expect_next(&mut self, expected_kind: &[LexerTokenKind]) -> (r: Result<
        LexerToken,
        ParseError,
    >)
        requires
            old(self).wf(),
        ensures
            final(self).wf(),
            final(self).src == old(self).src,
            final(self).index() == lex_end(
                old(self).src@,
                skip_whitespace(old(self).src@, old(self).index()),
            ),
            ({
                let t = lex_at(old(self).src@, skip_whitespace(old(self).src@, old(self).index()));
                match r {
                    Ok(x) => x == t && expected_kind@.contains(t.kind),
                    Err(e) => e@ == (expected_kind@, t) && !expected_kind@.contains(t.kind),
                }
            }),
    {
        let lexer_token = self.next_lexer();
        let mut n: usize = 0;
        while n < expected_kind.len()
            invariant
                n <= expected_kind@.len(),
                self.wf(),
                self.src == old(self).src,
                self.index() == lex_end(
                    old(self).src@,
                    skip_whitespace(old(self).src@, old(self).index()),
                ),
                lexer_token == lex_at(
                    old(self).src@,
                    skip_whitespace(old(self).src@, old(self).index()),
                ),
                forall|m: int| 0 <= m < n ==> expected_kind@[m] != lexer_token.kind,
            decreases expected_kind@.len() - n,
        {
            if expected_kind[n] == lexer_token.kind {
                assert(expected_kind@[n as int] == lexer_token.kind);
                return Ok(lexer_token);
            }
            n = n + 1;
        }
        Err(ParseError::expected(expected_kind, lexer_token))
    }
}

} // verus!
