//! Renders syntax trees in call syntax: `head(arg arg ...)`.
use crate::lexer::TokenKind as LexerTokenKind;
use crate::parser::{
    node_of, parse_top, well_formed, AtomKind, Node, NodeKind, ParseError, SExpr, StringReader,
    Token, TokenKind,
};
use crate::parser::lemma_top;
use vstd::prelude::*;

verus! {

/// Characters with the Unicode `White_Space` property.
pub open spec fn is_unicode_whitespace(c: char) -> bool {
    let u = c as u32;
    (0x9 <= u <= 0xd) || u == 0x20 || u == 0x85 || u == 0xa0 || u == 0x1680 || (0x2000 <= u
        <= 0x200a) || u == 0x2028 || u == 0x2029 || u == 0x202f || u == 0x205f || u == 0x3000
}

pub open spec fn trim_start(w: Seq<char>) -> Seq<char>
    decreases w.len(),
{
    if w.len() > 0 && is_unicode_whitespace(w[0]) {
        trim_start(w.drop_first())
    } else {
        w
    }
}

pub open spec fn trim_end(w: Seq<char>) -> Seq<char>
    decreases w.len(),
{
    if w.len() > 0 && is_unicode_whitespace(w.last()) {
        trim_end(w.drop_last())
    } else {
        w
    }
}

/// `w` without its leading and trailing whitespace.
pub open spec fn trimmed(w: Seq<char>) -> Seq<char> {
    trim_end(trim_start(w))
}

/// The parts joined with single spaces.
pub open spec fn join(parts: Seq<Seq<char>>) -> Seq<char>
    decreases parts.len(),
{
    if parts.len() == 0 {
        Seq::empty()
    } else if parts.len() == 1 {
        parts[0]
    } else {
        join(parts.drop_last()) + seq![' '] + parts.last()
    }
}

/// What the top-level nodes from index `i` on render to, appended to `acc`, or the
/// first parse error.
#[verifier::opaque]
pub open spec fn render_from(s: Seq<char>, i: int, acc: Seq<char>) -> Result<
    Seq<char>,
    (Seq<LexerTokenKind>, crate::lexer::Token),
>
    decreases (s.len() - i) as nat,
{
    match parse_top(s, i) {
        Err(e) => Err(e),
        Ok((n, j)) => {
            if n.kind is Eof {
                Ok(acc)
            } else if i < j <= s.len() {
                render_from(s, j, render_top(s, n, acc))
            } else {
                Ok(acc)
            }
        },
    }
}

/// A top-level node appends its rendering to the output.
pub open spec fn render_top(s: Seq<char>, n: Node, acc: Seq<char>) -> Seq<char> {
    if n.kind is ListNil {
        acc + seq!['(', ')']
    } else {
        render(s, n, acc)
    }
}

/// The first `m` tail elements, each rendered on its own from an empty text.
pub open spec fn rendered_parts(s: Seq<char>, ts: Seq<Node>, m: int) -> Seq<Seq<char>>
    decreases ts, 0nat,
{
    Seq::new(
        m as nat,
        |k: int|
            if 0 <= k < ts.len() {
                render(s, ts[k], Seq::empty())
            } else {
                Seq::empty()
            },
    )
}

/// The rendering of node `n` appended to `acc` (source text taken from `s`).
pub open spec fn render(s: Seq<char>, n: Node, acc: Seq<char>) -> Seq<char>
    decreases n, 1nat,
{
    match n.kind {
        NodeKind::Form(h, ts) => match h.kind {
            NodeKind::Form(_, _) => render(s, *h, acc) + seq!['('] + trimmed(join(rendered_parts(s, ts, ts.len() as int))) + seq![')'],
            NodeKind::Literal(t) => acc + seq!['\n'] + t.text_in(s),
            NodeKind::Symbol(t) => acc + seq!['\n'] + t.text_in(s) + seq!['('] + trimmed(join(rendered_parts(s, ts, ts.len() as int))) + seq![')'],
            NodeKind::ListNil => acc + seq!['(', ')'],
            _ => acc,
        },
        NodeKind::Symbol(t) => t.text_in(s),
        NodeKind::Literal(t) => t.text_in(s),
        NodeKind::ListNil => seq!['(', ')'],
        _ => acc,
    }
}

fn is_unicode_whitespace_char(c: char) -> (r: bool)
    ensures
        r == is_unicode_whitespace(c),
{
    let u = c as u32;
    (0x9 <= u && u <= 0xd) || u == 0x20 || u == 0x85 || u == 0xa0 || u == 0x1680 || (0x2000 <= u
        && u <= 0x200a) || u == 0x2028 || u == 0x2029 || u == 0x202f || u == 0x205f || u == 0x3000
}

proof fn lemma_trim_start_skip(w: Seq<char>, i: int)
    requires
        0 <= i < w.len(),
        is_unicode_whitespace(w[i]),
    ensures
        trim_start(w.subrange(i, w.len() as int)) == trim_start(w.subrange(i + 1, w.len() as int)),
{
    assert(w.subrange(i, w.len() as int).drop_first() =~= w.subrange(i + 1, w.len() as int));
}

proof fn lemma_trim_end_skip(w: Seq<char>, a: int, j: int)
    requires
        0 <= a < j <= w.len(),
        is_unicode_whitespace(w[j - 1]),
    ensures
        trim_end(w.subrange(a, j)) == trim_end(w.subrange(a, j - 1)),
{
    assert(w.subrange(a, j).drop_last() =~= w.subrange(a, j - 1));
}

/// `s` without its leading and trailing whitespace.
fn trim(s: &str) -> (r: &str)
    ensures
        r@ == trimmed(s@),
{
    let n = s.unicode_len();
    let mut a: usize = 0;
    proof {
        assert(s@.subrange(0, n as int) =~= s@);
    }
    while a < n && is_unicode_whitespace_char(s.get_char(a))
        invariant
            a <= n,
            n == s@.len(),
            trim_start(s@) == trim_start(s@.subrange(a as int, n as int)),
        decreases n - a,
    {
        proof {
            lemma_trim_start_skip(s@, a as int);
        }
        a = a + 1;
    }
    proof {
        if a < n {
            assert(s@.subrange(a as int, n as int)[0] == s@[a as int]);
        }
    }
    let mut b: usize = n;
    while b > a && is_unicode_whitespace_char(s.get_char(b - 1))
        invariant
            a <= b <= n,
            n == s@.len(),
            trim_start(s@) == s@.subrange(a as int, n as int),
            trimmed(s@) == trim_end(s@.subrange(a as int, b as int)),
        decreases b,
    {
        proof {
            lemma_trim_end_skip(s@, a as int, b as int);
        }
        b = b - 1;
    }
    s.substring_char(a, b)
}

/// Rendering is deterministic: trees with the same model render to the same text
/// onto the same accumulator.
pub proof fn law_render_deterministic(s: Seq<char>, a: Token, b: Token, acc: Seq<char>)
    requires
        node_of(a) == node_of(b),
    ensures
        render(s, node_of(a), acc) == render(s, node_of(b), acc),
{
}

proof fn lemma_render_from_step(s: Seq<char>, i: int, acc: Seq<char>)
    requires
        0 <= i <= s.len(),
    ensures
        parse_top(s, i) matches Err(e) ==> render_from(s, i, acc) == Err::<Seq<char>, _>(e),
        parse_top(s, i) matches Ok((n, j)) ==> {
            &&& i <= j <= s.len()
            &&& well_formed(n, s)
            &&& n.kind is Eof ==> render_from(s, i, acc) == Ok::<_, (Seq<LexerTokenKind>, crate::lexer::Token)>(acc)
            &&& !(n.kind is Eof) ==> i < j && render_from(s, i, acc) == render_from(s, j, render_top(s, n, acc))
        },
{
    lemma_top(s, i);
    reveal(render_from);
}

proof fn lemma_join_push(parts: Seq<Seq<char>>, p: Seq<char>)
    ensures
        join(parts.push(p)) == if parts.len() == 0 {
            p
        } else {
            join(parts) + seq![' '] + p
        },
{
    assert(parts.push(p).drop_last() =~= parts);
}

/// A failure while transpiling.
#[derive(Debug)]
pub enum TranspileError {
    ParseError(ParseError),
}

impl View for TranspileError {
    type V = (Seq<LexerTokenKind>, crate::lexer::Token);

    open spec fn view(&self) -> Self::V {
        match self {
            TranspileError::ParseError(e) => e@,
        }
    }
}

/// Transpiles a source text of parenthesized forms into call syntax.
pub struct Pythonify<'a> {
    src: &'a str,
    parser: StringReader<'a>,
}

impl<'a> Pythonify<'a> {
    pub closed spec fn wf(&self) -> bool {
        self.parser.wf() && self.parser.src == self.src
    }

    /// The source text.
    pub closed spec fn source(&self) -> Seq<char> {
        self.src@
    }

    /// Index of the next source character to read.
    pub closed spec fn index(&self) -> int {
        self.parser.index()
    }

    pub fn new(src: &'a str) -> (r: Pythonify<'a>)
        requires
            src@.len() < usize::MAX,
        ensures
            r.wf(),
            r.source() == src@,
            r.index() == 0,
    {
        Pythonify { src, parser: StringReader::new(src) }
    }

    /// Renders every remaining top-level form, in order, into one text; fails with the
    /// first parse error.
    pub fn transpile(&mut self) -> (r: Result<String, TranspileError>)
        requires
            old(self).wf(),
        ensures
            final(self).wf(),
            final(self).source() == old(self).source(),
            render_from(old(self).source(), old(self).index(), Seq::empty()) == match r {
                Ok(out) => Ok(out@),
                Err(e) => Err(e@),
            },
    {
        let ghost s = self.src@;
        let mut out = String::new();
        loop
            invariant
                self.wf(),
                self.src == old(self).src,
                s == self.src@,
                render_from(s, old(self).index(), Seq::empty()) == render_from(
                    s,
                    self.index(),
                    out@,
                ),
            decreases s.len() - self.index(),
        {
            proof {
                self.parser.cursor.lemma_wf();
                lemma_render_from_step(s, self.index(), out@);
            }
            let ghost prev = out@;
            let token = match self.parser.next_token() {
                Ok(t) => t,
                Err(e) => {
                    return Err(TranspileError::ParseError(e));
                },
            };
            match token.kind {
                TokenKind::EOF => {
                    return Ok(out);
                },
                TokenKind::ListNil => {
                    proof {
                        reveal_strlit("()");
                    }
                    out.append("()");
                    assert(out@ == render_top(s, node_of(token), prev));
                },
                _ => {
                    out = self.transpile_sexpr(&token, out);
                    assert(out@ == render_top(s, node_of(token), prev));
                },
            }
        }
    }

    /// Renders `token` onto `string`: a form in call syntax; an atom alone, as its text.
    fn transpile_sexpr(&self, token: &Token, string: String) -> (r: String)
        requires
            self.wf(),
            well_formed(node_of(*token), self.src@),
        ensures
            r@ == render(self.src@, node_of(*token), string@),
        decreases token,
    {
        let (car, cdr) = match &token.kind {
            TokenKind::SExpr(SExpr::Cons { car, cdr }) => (car, cdr),
            _ => {
                return self.transpose_non_cons(token, string);
            },
        };
        let ghost s = self.src@;
        let ghost ts = node_of(*token).kind->Form_1;
        proof {
            reveal_strlit("\n");
            reveal_strlit("(");
            reveal_strlit(")");
            assert("("@ =~= seq!['(']);
            assert(")"@ =~= seq![')']);
            assert("\n"@ =~= seq!['\n']);
            assert(node_of(*token).kind == NodeKind::Form(Box::new(node_of(**car)), ts));
            assert(well_formed(node_of(**car), s));
        }
        match &car.kind {
            TokenKind::SExpr(_) => {
                let mut func = self.transpile_sexpr(car, string);
                let args = self.transpile_args(token, cdr);
                func.append("(");
                func.append(args.as_str());
                func.append(")");
                assert(func@ =~= render(s, node_of(*token), string@));
                func
            },
            TokenKind::Atom(AtomKind::Literal(literal)) => {
                let mut out = string;
                out.append("\n");
                out.append(literal.as_str(self.src));
                assert(out@ == render(s, node_of(*token), string@));
                out
            },
            TokenKind::Atom(AtomKind::Symbol(symbol)) => {
                let args = self.transpile_args(token, cdr);
                let mut out = string;
                out.append("\n");
                out.append(symbol.as_str(self.src));
                out.append("(");
                out.append(args.as_str());
                out.append(")");
                assert(out@ =~= render(s, node_of(*token), string@));
                out
            },
            TokenKind::ListNil => {
                let mut out = string;
                proof {
                    reveal_strlit("()");
                }
                out.append("()");
                out
            },
            _ => string,
        }
    }

    /// The tail of `token`, each element rendered from an empty text, joined with
    /// spaces and trimmed.
    fn transpile_args(&self, token: &Token, cdr: &Vec<Token>) -> (r: String)
        requires
            self.wf(),
            well_formed(node_of(*token), self.src@),
            token.kind matches TokenKind::SExpr(SExpr::Cons { car, cdr: c }) && c == *cdr,
        ensures
            r@ == trimmed(
                join(rendered_parts(self.src@, node_of(*token).kind->Form_1, cdr.len() as int)),
            ),
        decreases token, 0nat,
    {
        let ghost ts = node_of(*token).kind->Form_1;
        let mut joined = String::new();
        let mut k: usize = 0;
        proof {
            assert(rendered_parts(self.src@, ts, 0) =~= Seq::<Seq<char>>::empty());
        }
        while k < cdr.len()
            invariant
                self.wf(),
                well_formed(node_of(*token), self.src@),
                token.kind matches TokenKind::SExpr(SExpr::Cons { car, cdr: c }) && c == *cdr,
                ts == node_of(*token).kind->Form_1,
                ts.len() == cdr.len(),
                k <= cdr.len(),
                joined@ == join(rendered_parts(self.src@, ts, k as int)),
            decreases cdr.len() - k,
        {
            proof {
                assert(ts[k as int] == node_of(cdr[k as int]));
                assert(well_formed(ts[k as int], self.src@));
            }
            let piece = self.transpile_sexpr(&cdr[k], String::new());
            proof {
                reveal_strlit(" ");
                assert(rendered_parts(self.src@, ts, k + 1) =~= rendered_parts(
                    self.src@,
                    ts,
                    k as int,
                ).push(piece@));
                lemma_join_push(rendered_parts(self.src@, ts, k as int), piece@);
            }
            if k > 0 {
                joined.append(" ");
            }
            joined.append(piece.as_str());
            k = k + 1;
        }
        let trimmed = trim(joined.as_str());
        trimmed.to_owned()
    }

    /// Renders a node that is not a form.
    fn transpose_non_cons(&self, token: &Token, string: String) -> (r: String)
        requires
            self.wf(),
            well_formed(node_of(*token), self.src@),
            !(token.kind is SExpr),
        ensures
            r@ == render(self.src@, node_of(*token), string@),
    {
        match &token.kind {
            TokenKind::Atom(AtomKind::Literal(literal)) => literal.as_str(self.src).to_owned(),
            TokenKind::Atom(AtomKind::Symbol(symbol)) => symbol.as_str(self.src).to_owned(),
            TokenKind::ListNil => {
                proof {
                    reveal_strlit("()");
                }
                "()".to_owned()
            },
            _ => string,
        }
    }
}

} // verus!
