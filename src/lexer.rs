//! Positional tokenizer: turns source characters into classified tokens with spans.
use vstd::prelude::*;

verus! {

/// The lexical classes of the tokenizer.
#[derive(Debug, PartialEq, Eq, Clone, Copy, Structural)]
pub enum TokenKind {
    Keyword,
    Ident,
    Whitespace,
    Comma,
    /// '('
    OpenParen,
    /// ')'
    CloseParen,
    /// '<'
    OpenAngleBracket,
    /// '>'
    CloseAngleBracket,
    /// '='
    Eq,
    /// '!'
    Bang,
    /// '&'
    And,
    /// '`' or '\''
    Backquote,
    Literal,
    /// ';'
    LineComment,
    Dummy,
    EOF,
}

/// A source range: 1-indexed rows and columns of the first and last character, inclusive.
#[derive(Debug, PartialEq, Eq, Clone, Copy, Structural)]
pub struct Span {
    pub start_row: usize,
    pub start_col: usize,
    pub end_row: usize,
    pub end_col: usize,
}

/// A lexical token: its class, where it stands, and its length in characters.
/// `start` is the index of its first character in the source.
#[derive(Debug, PartialEq, Eq, Clone, Copy, Structural)]
pub struct Token {
    pub span: Span,
    pub kind: TokenKind,
    pub len: usize,
    pub start: usize,
}

pub open spec fn is_whitespace_spec(c: char) -> bool {
    c == ' ' || c == '\t' || c == '\n'
}

pub open spec fn is_end_ident_spec(c: char) -> bool {
    c == '(' || c == ')' || is_whitespace_spec(c)
}

/// The fixed keyword set, one word per index in `0..8`.
pub open spec fn keyword(k: int) -> Seq<char> {
    if k == 0 {
        "defun"@
    } else if k == 1 {
        "and"@
    } else if k == 2 {
        "or"@
    } else if k == 3 {
        "not"@
    } else if k == 4 {
        "cond"@
    } else if k == 5 {
        "nil"@
    } else if k == 6 {
        "if"@
    } else {
        "case"@
    }
}

pub open spec fn is_keyword_spec(w: Seq<char>) -> bool {
    exists|k: int| 0 <= k < 8 && keyword(k) == w
}

pub open spec fn is_keyword_prefix_spec(c: char) -> bool {
    exists|k: int| 0 <= k < 8 && keyword(k).len() > 0 && keyword(k)[0] == c
}

/// End of the whitespace run that starts at `i`.
pub open spec fn whitespace_end(s: Seq<char>, i: int) -> int
    decreases s.len() - i,
{
    if 0 <= i < s.len() && is_whitespace_spec(s[i]) {
        whitespace_end(s, i + 1)
    } else {
        i
    }
}

/// End of the identifier-like run that starts at `i`.
pub open spec fn ident_end(s: Seq<char>, i: int) -> int
    decreases s.len() - i,
{
    if 0 <= i < s.len() && !is_end_ident_spec(s[i]) {
        ident_end(s, i + 1)
    } else {
        i
    }
}

/// End of a line comment whose body starts at `i`: the next newline, not included.
pub open spec fn comment_end(s: Seq<char>, i: int) -> int
    decreases s.len() - i,
{
    if 0 <= i < s.len() && s[i] != '\n' {
        comment_end(s, i + 1)
    } else {
        i
    }
}

/// End of a quoted literal whose body starts at `i`: just past the closing `q`,
/// or the end of the source where none follows.
pub open spec fn literal_end(s: Seq<char>, i: int, q: char) -> int
    decreases s.len() - i,
{
    if 0 <= i < s.len() {
        if s[i] == q {
            i + 1
        } else {
            literal_end(s, i + 1, q)
        }
    } else {
        i
    }
}

/// The class of the token that starts at index `i` of `s`, and the index just past it.
pub open spec fn token_at(s: Seq<char>, i: int) -> (TokenKind, int) {
    let c = s[i];
    if c == ';' {
        (TokenKind::LineComment, comment_end(s, i + 1))
    } else if c == '\'' || c == '`' {
        (TokenKind::Backquote, i + 1)
    } else if c == '&' {
        (TokenKind::And, i + 1)
    } else if c == '!' {
        (TokenKind::Bang, i + 1)
    } else if c == '=' {
        (TokenKind::Eq, i + 1)
    } else if c == '<' {
        (TokenKind::OpenAngleBracket, i + 1)
    } else if c == '>' {
        (TokenKind::CloseAngleBracket, i + 1)
    } else if c == '(' {
        (TokenKind::OpenParen, i + 1)
    } else if c == ')' {
        (TokenKind::CloseParen, i + 1)
    } else if c == ',' {
        (TokenKind::Comma, i + 1)
    } else if is_whitespace_spec(c) {
        (TokenKind::Whitespace, whitespace_end(s, i + 1))
    } else if is_keyword_prefix_spec(c) {
        let e = ident_end(s, i + 1);
        (
            if is_keyword_spec(s.subrange(i, e)) {
                TokenKind::Keyword
            } else {
                TokenKind::Ident
            },
            e,
        )
    } else if c == '"' {
        (TokenKind::Literal, literal_end(s, i + 1, c))
    } else {
        (TokenKind::Ident, ident_end(s, i + 1))
    }
}

/// Row and column reached from `(row, col)` after reading the characters of `t`:
/// a newline moves to column 1 of the next row, any other character one column on.
pub open spec fn walk(row: int, col: int, t: Seq<char>) -> (int, int)
    decreases t.len(),
{
    if t.len() == 0 {
        (row, col)
    } else {
        let p = walk(row, col, t.drop_last());
        if t.last() == '\n' {
            (p.0 + 1, 1)
        } else {
            (p.0, p.1 + 1)
        }
    }
}

/// Row and column of the character at index `i` of `s`.
pub open spec fn pos(s: Seq<char>, i: int) -> (int, int) {
    walk(1, 1, s.subrange(0, i))
}

/// The span of the characters `s[i..e]`: from the first to the last.
pub open spec fn span_of(s: Seq<char>, i: int, e: int) -> Span {
    Span {
        start_row: pos(s, i).0 as usize,
        start_col: pos(s, i).1 as usize,
        end_row: pos(s, e - 1).0 as usize,
        end_col: pos(s, e - 1).1 as usize,
    }
}

pub open spec fn empty_span() -> Span {
    Span { start_row: 0, start_col: 0, end_row: 0, end_col: 0 }
}

/// The token that the tokenizer produces at index `i` of `s`.
pub open spec fn lex_at(s: Seq<char>, i: int) -> Token {
    if i < s.len() {
        Token {
            span: span_of(s, i, token_at(s, i).1),
            kind: token_at(s, i).0,
            len: (token_at(s, i).1 - i) as usize,
            start: i as usize,
        }
    } else {
        Token { span: empty_span(), kind: TokenKind::EOF, len: 0, start: i as usize }
    }
}

/// Index just past the token that starts at `i` (or `i` itself at the end of the source).
pub open spec fn lex_end(s: Seq<char>, i: int) -> int {
    if i < s.len() {
        token_at(s, i).1
    } else {
        i
    }
}

pub proof fn lemma_walk_bounds(row: int, col: int, t: Seq<char>)
    requires
        col >= 1,
    ensures
        row <= walk(row, col, t).0 <= row + t.len(),
        1 <= walk(row, col, t).1 <= col + t.len(),
    decreases t.len(),
{
    if t.len() > 0 {
        lemma_walk_bounds(row, col, t.drop_last());
    }
}

/// Walking a concatenation walks its parts in turn.
pub proof fn lemma_walk_concat(row: int, col: int, a: Seq<char>, b: Seq<char>)
    ensures
        walk(row, col, a + b) == walk(walk(row, col, a).0, walk(row, col, a).1, b),
    decreases b.len(),
{
    if b.len() == 0 {
        assert(a + b =~= a);
    } else {
        assert((a + b).drop_last() =~= a + b.drop_last());
        lemma_walk_concat(row, col, a, b.drop_last());
    }
}

/// The position of `s[j]` follows from the position of `s[i]` by walking `s[i..j]`.
pub proof fn lemma_pos_from(s: Seq<char>, i: int, j: int)
    requires
        0 <= i <= j <= s.len(),
    ensures
        pos(s, j) == walk(pos(s, i).0, pos(s, i).1, s.subrange(i, j)),
{
    assert(s.subrange(0, j) =~= s.subrange(0, i) + s.subrange(i, j));
    lemma_walk_concat(1, 1, s.subrange(0, i), s.subrange(i, j));
}


/// Each end of a run lies between its start and the end of the source.
pub proof fn lemma_ends(s: Seq<char>, i: int)
    requires
        0 <= i <= s.len(),
    ensures
        i <= whitespace_end(s, i) <= s.len(),
        i <= ident_end(s, i) <= s.len(),
        i <= comment_end(s, i) <= s.len(),
        forall|q: char| i <= #[trigger] literal_end(s, i, q) <= s.len(),
    decreases s.len() - i,
{
    if i < s.len() {
        lemma_ends(s, i + 1);
    }
    assert forall|q: char| i <= #[trigger] literal_end(s, i, q) <= s.len() by {
        if i < s.len() {
            assert(i + 1 <= literal_end(s, i + 1, q) <= s.len());
        }
    }
}

/// A token that starts inside the source is not empty and ends inside it.
pub proof fn lemma_token_at_bounds(s: Seq<char>, i: int)
    requires
        0 <= i < s.len(),
    ensures
        i < token_at(s, i).1 <= s.len(),
{
    lemma_ends(s, i + 1);
}

/// Which first characters may start a keyword.
pub proof fn lemma_keyword_prefixes(c: char)
    ensures
        is_keyword_prefix_spec(c) <==> (c == 'd' || c == 'a' || c == 'o' || c == 'n' || c == 'c'
            || c == 'i'),
{
    lemma_keywords();
    if c == 'd' {
        assert(keyword(0)[0] == c);
    } else if c == 'a' {
        assert(keyword(1)[0] == c);
    } else if c == 'o' {
        assert(keyword(2)[0] == c);
    } else if c == 'n' {
        assert(keyword(3)[0] == c);
    } else if c == 'c' {
        assert(keyword(4)[0] == c);
    } else if c == 'i' {
        assert(keyword(6)[0] == c);
    }
}

proof fn lemma_keywords()
    ensures
        keyword(0) == seq!['d', 'e', 'f', 'u', 'n'],
        keyword(1) == seq!['a', 'n', 'd'],
        keyword(2) == seq!['o', 'r'],
        keyword(3) == seq!['n', 'o', 't'],
        keyword(4) == seq!['c', 'o', 'n', 'd'],
        keyword(5) == seq!['n', 'i', 'l'],
        keyword(6) == seq!['i', 'f'],
        keyword(7) == seq!['c', 'a', 's', 'e'],
        forall|k: int| 0 <= k < 8 ==> #[trigger] keyword(k).len() > 0,
{
    reveal_strlit("defun");
    reveal_strlit("and");
    reveal_strlit("or");
    reveal_strlit("not");
    reveal_strlit("cond");
    reveal_strlit("nil");
    reveal_strlit("if");
    reveal_strlit("case");
    assert(keyword(0) =~= seq!['d', 'e', 'f', 'u', 'n']);
    assert(keyword(1) =~= seq!['a', 'n', 'd']);
    assert(keyword(2) =~= seq!['o', 'r']);
    assert(keyword(3) =~= seq!['n', 'o', 't']);
    assert(keyword(4) =~= seq!['c', 'o', 'n', 'd']);
    assert(keyword(5) =~= seq!['n', 'i', 'l']);
    assert(keyword(6) =~= seq!['i', 'f']);
    assert(keyword(7) =~= seq!['c', 'a', 's', 'e']);
}

/// A token is a keyword exactly when its whole identifier-like run is one of the
/// keywords; sharing only a prefix with one makes it an identifier.
pub proof fn law_keyword_exact(s: Seq<char>, i: int)
    requires
        0 <= i < s.len(),
    ensures
        token_at(s, i).0 == TokenKind::Keyword <==> is_keyword_spec(
            s.subrange(i, ident_end(s, i + 1)),
        ),
{
    lemma_keywords();
    lemma_keyword_prefixes(s[i]);
    lemma_ends(s, i + 1);
    let w = s.subrange(i, ident_end(s, i + 1));
    if is_keyword_spec(w) {
        let k = choose|k: int| 0 <= k < 8 && keyword(k) == w;
        assert(w[0] == s[i]);
        assert(keyword(k)[0] == s[i]);
        assert(is_keyword_prefix_spec(s[i]));
    }
}

/// A quoted literal with no closing quote runs to the end of the source.
pub proof fn law_unterminated_literal(s: Seq<char>, i: int)
    requires
        0 <= i < s.len(),
        s[i] == '"',
        forall|j: int| i < j < s.len() ==> s[j] != '"',
    ensures
        token_at(s, i) == (TokenKind::Literal, s.len() as int),
{
    lemma_keyword_prefixes(s[i]);
    lemma_literal_to_end(s, i + 1, '"');
}

proof fn lemma_literal_to_end(s: Seq<char>, j: int, q: char)
    requires
        0 <= j <= s.len(),
        forall|m: int| j <= m < s.len() ==> s[m] != q,
    ensures
        literal_end(s, j, q) == s.len(),
    decreases s.len() - j,
{
    if j < s.len() {
        lemma_literal_to_end(s, j + 1, q);
    }
}

fn is_whitespace(c: char) -> (r: bool)
    ensures
        r == is_whitespace_spec(c),
{
    c == ' ' || c == '\t' || c == '\n'
}

fn is_end_ident(c: char) -> (r: bool)
    ensures
        r == is_end_ident_spec(c),
{
    c == '(' || c == ')' || is_whitespace(c)
}

fn is_string_literal(c: char) -> (r: bool)
    ensures
        r == (c == '"'),
{
    c == '"'
}

fn keyword_str(k: usize) -> (w: &'static str)
    requires
        k < 8,
    ensures
        w@ == keyword(k as int),
{
    match k {
        0 => "defun",
        1 => "and",
        2 => "or",
        3 => "not",
        4 => "cond",
        5 => "nil",
        6 => "if",
        _ => "case",
    }
}

fn is_keyword_prefix(c: char) -> (r: bool)
    ensures
        r == is_keyword_prefix_spec(c),
{
    proof {
        lemma_keywords();
    }
    let mut k: usize = 0;
    while k < 8
        invariant
            k <= 8,
            forall|j: int| 0 <= j < 8 ==> #[trigger] keyword(j).len() > 0,
            forall|j: int| 0 <= j < k ==> #[trigger] keyword(j)[0] != c,
        decreases 8 - k,
    {
        let w = keyword_str(k);
        if w.get_char(0) == c {
            return true;
        }
        k = k + 1;
    }
    false
}

/// Whether `s[from..to]` is one of the keywords, as a whole.
fn is_keyword(s: &[char], from: usize, to: usize) -> (r: bool)
    requires
        from <= to <= s@.len(),
    ensures
        r == is_keyword_spec(s@.subrange(from as int, to as int)),
{
    let ghost w = s@.subrange(from as int, to as int);
    let mut k: usize = 0;
    while k < 8
        invariant
            k <= 8,
            from <= to <= s@.len(),
            w == s@.subrange(from as int, to as int),
            forall|j: int| 0 <= j < k ==> #[trigger] keyword(j) != w,
        decreases 8 - k,
    {
        let kw = keyword_str(k);
        let n = kw.unicode_len();
        if n == to - from {
            let mut m: usize = 0;
            let mut same = true;
            while m < n
                invariant
                    m <= n,
                    n == to - from,
                    n == kw@.len(),
                    from <= to <= s@.len(),
                    same <==> forall|x: int| 0 <= x < m ==> kw@[x] == s@[from + x],
                decreases n - m,
            {
                if kw.get_char(m) != s[from + m] {
                    same = false;
                }
                m = m + 1;
            }
            if same {
                assert(kw@ =~= w);
                return true;
            }
            assert(kw@ != w) by {
                if kw@ == w {
                    assert(forall|x: int| 0 <= x < n ==> kw@[x] == s@[from + x]);
                }
            }
        }
        k = k + 1;
    }
    false
}

impl Span {
    /// Builds a span; note the order of the arguments: rows first, then columns.
    pub fn new(start_row: usize, end_row: usize, start_col: usize, end_col: usize) -> (r: Span)
        ensures
            r == (Span { start_row, start_col, end_row, end_col }),
    {
        Span { start_row, start_col, end_row, end_col }
    }

    /// The span of the `len` characters of `src` from index `start`, which begins at
    /// `(start_row, start_col)`, with the rows to advance and the column reached after it.
    pub fn make_span(
        start_row: usize,
        start_col: usize,
        src: &[char],
        start: usize,
        len: usize,
    ) -> (r: (Span, usize, usize))
        requires
            1 <= len,
            start + len <= src@.len(),
            1 <= start_col,
            start_row + len <= usize::MAX,
            start_col + len <= usize::MAX,
        ensures
            ({
                let t = src@.subrange(start as int, start + len);
                let e = walk(start_row as int, start_col as int, t.drop_last());
                let n = walk(start_row as int, start_col as int, t);
                &&& r.0 == Span {
                    start_row,
                    start_col,
                    end_row: e.0 as usize,
                    end_col: e.1 as usize,
                }
                &&& r.1 == n.0 - start_row
                &&& r.2 == n.1
            }),
    {
        let ghost t = src@.subrange(start as int, start + len);
        let n = src.len();
        let mut row = start_row;
        let mut col = start_col;
        let mut k: usize = 0;
        while k + 1 < len
            invariant
                k + 1 <= len,
                start + len <= src@.len(),
                n == src@.len(),
                1 <= start_col,
                start_row + len <= usize::MAX,
                start_col + len <= usize::MAX,
                t == src@.subrange(start as int, start + len),
                (row as int, col as int) == walk(
                    start_row as int,
                    start_col as int,
                    src@.subrange(start as int, start + k),
                ),
            decreases len - k,
        {
            proof {
                let u = src@.subrange(start as int, start + k + 1);
                assert(u.drop_last() =~= src@.subrange(start as int, start + k));
                lemma_walk_bounds(start_row as int, start_col as int, u.drop_last());
            }
            if src[start + k] == '\n' {
                row = row + 1;
                col = 1;
            } else {
                col = col + 1;
            }
            k = k + 1;
        }
        proof {
            assert(t.drop_last() =~= src@.subrange(start as int, start + k));
            lemma_walk_bounds(start_row as int, start_col as int, t.drop_last());
            assert(t.last() == src@[start + len - 1]);
        }
        let span = Span::new(start_row, row, start_col, col);
        if src[start + len - 1] == '\n' {
            (span, row + 1 - start_row, 1)
        } else {
            (span, row - start_row, col + 1)
        }
    }
}

impl Token {
    pub fn new(kind: TokenKind, len: usize, span: Span, start: usize) -> (r: Token)
        ensures
            r == (Token { span, kind, len, start }),
    {
        Token { span, kind, len, start }
    }

    pub fn kind(&self) -> (r: &TokenKind)
        ensures
            *r == self.kind,
    {
        &self.kind
    }

    /// The source characters that the token covers (none for the end of input).
    pub open spec fn text_in(self, s: Seq<char>) -> Seq<char> {
        if self.kind == TokenKind::EOF {
            Seq::empty()
        } else {
            s.subrange(self.start as int, self.start + self.len)
        }
    }

    /// Whether the characters the token covers lie inside `s`.
    pub open spec fn within(self, s: Seq<char>) -> bool {
        self.kind != TokenKind::EOF ==> self.start + self.len <= s.len()
    }

    /// The token's text, sliced out of the source it was read from.
    pub fn as_str<'a>(&self, src: &'a str) -> (r: &'a str)
        requires
            self.within(src@),
        ensures
            r@ == self.text_in(src@),
    {
        if self.kind == TokenKind::EOF {
            proof {
                reveal_strlit("");
            }
            return "";
        }
        let n = src.unicode_len();
        assert(self.start + self.len <= n);
        src.substring_char(self.start, self.start + self.len)
    }
}

/// A cursor over the source characters that hands out one token at a time.
#[derive(Debug)]
pub struct Cursor {
    chars: Vec<char>,
    idx: usize,
    row: usize,
    col: usize,
}

impl Cursor {
    /// The source characters.
    pub closed spec fn text(&self) -> Seq<char> {
        self.chars@
    }

    /// Index of the next character to read.
    pub closed spec fn index(&self) -> int {
        self.idx as int
    }

    /// The cursor stands inside the source, and its row and column are those of its index.
    pub closed spec fn wf(&self) -> bool {
        &&& self.idx <= self.chars.len()
        &&& self.chars.len() < usize::MAX
        &&& (self.row as int, self.col as int) == pos(self.chars@, self.idx as int)
    }

    /// A well-formed cursor stands at or before the end of the source.
    pub proof fn lemma_wf(&self)
        requires
            self.wf(),
        ensures
            0 <= self.index() <= self.text().len(),
            self.text().len() < usize::MAX,
    {
    }

    pub fn new(src: &str) -> (r: Cursor)
        requires
            src@.len() < usize::MAX,
        ensures
            r.wf(),
            r.text() == src@,
            r.index() == 0,
    {
        let mut chars: Vec<char> = Vec::new();
        for c in it: src.chars()
            invariant
                chars@ == it.seq().subrange(0, it.index() as int),
        {
            chars.push(c);
        }
        proof {
            assert(chars@.subrange(0, 0) =~= Seq::<char>::empty());
        }
        Cursor { chars, idx: 0, row: 1, col: 1 }
    }

    /// Reads the next token; at the end of the source, an `EOF` token and no move.
    pub fn next_token(&mut self) -> (t: Token)
        requires
            old(self).wf(),
        ensures
            final(self).wf(),
            final(self).text() == old(self).text(),
            t == lex_at(old(self).text(), old(self).index()),
            final(self).index() == lex_end(old(self).text(), old(self).index()),
    {
        let ghost s = self.chars@;
        let start = self.idx;
        let c = match self.next_char() {
            Some(c) => c,
            None => {
                return Token::new(TokenKind::EOF, 0, Span::new(0, 0, 0, 0), start);
            },
        };
        proof {
            lemma_ends(s, start + 1);
            lemma_keyword_prefixes(c);
        }
        let kind = match c {
            ';' => self.consume_line_comment(),
            '\'' | '`' => TokenKind::Backquote,
            '&' => TokenKind::And,
            '!' => TokenKind::Bang,
            '=' => TokenKind::Eq,
            '<' => TokenKind::OpenAngleBracket,
            '>' => TokenKind::CloseAngleBracket,
            '(' => TokenKind::OpenParen,
            ')' => TokenKind::CloseParen,
            ',' => TokenKind::Comma,
            c if is_whitespace(c) => self.consume_whitespace(),
            c if is_keyword_prefix(c) => self.consume_keyword(start),
            c if is_string_literal(c) => self.consume_string_literal(c),
            _ => self.consume_ident(),
        };
        let len = self.idx - start;
        proof {
            assert(token_at(s, start as int) == (kind, self.idx as int));
            lemma_walk_bounds(1, 1, s.subrange(0, start as int));
            lemma_pos_from(s, start as int, self.idx - 1);
            lemma_pos_from(s, start as int, self.idx as int);
            let t = s.subrange(start as int, start + len);
            assert(t.drop_last() =~= s.subrange(start as int, self.idx - 1));
        }
        let (span, advance_rows, col) = Span::make_span(
            self.row,
            self.col,
            self.chars.as_slice(),
            start,
            len,
        );
        proof {
            lemma_walk_bounds(
                self.row as int,
                self.col as int,
                s.subrange(start as int, start + len),
            );
        }
        self.reset_span(advance_rows, col);
        Token { kind, len, span, start }
    }

    fn reset_span(&mut self, advance_rows: usize, col: usize)
        requires
            old(self).row + advance_rows <= usize::MAX,
        ensures
            final(self).row == old(self).row + advance_rows,
            final(self).col == col,
            final(self).idx == old(self).idx,
            final(self).chars == old(self).chars,
    {
        self.row = self.row + advance_rows;
        self.col = col;
    }

    /// Consumes the rest of an identifier-like run that started at `start`, and tells
    /// a keyword from an identifier by the whole run.
    fn consume_keyword(&mut self, start: usize) -> (k: TokenKind)
        requires
            start + 1 == old(self).idx,
            old(self).idx <= old(self).chars.len(),
        ensures
            final(self).idx == ident_end(old(self).chars@, old(self).idx as int),
            final(self).chars == old(self).chars,
            final(self).row == old(self).row,
            final(self).col == old(self).col,
            k == if is_keyword_spec(old(self).chars@.subrange(start as int, final(self).idx as int)) {
                TokenKind::Keyword
            } else {
                TokenKind::Ident
            },
    {
        proof {
            lemma_ends(self.chars@, self.idx as int);
        }
        self.consume_run_to_end_ident();
        if is_keyword(self.chars.as_slice(), start, self.idx) {
            TokenKind::Keyword
        } else {
            TokenKind::Ident
        }
    }

    fn consume_line_comment(&mut self) -> (k: TokenKind)
        requires
            old(self).idx <= old(self).chars.len(),
        ensures
            final(self).idx == comment_end(old(self).chars@, old(self).idx as int),
            final(self).chars == old(self).chars,
            final(self).row == old(self).row,
            final(self).col == old(self).col,
            k == TokenKind::LineComment,
    {
        loop
            invariant
                self.idx <= self.chars.len(),
                self.chars == old(self).chars,
                self.row == old(self).row,
                self.col == old(self).col,
                comment_end(self.chars@, self.idx as int) == comment_end(
                    old(self).chars@,
                    old(self).idx as int,
                ),
            decreases self.chars.len() - self.idx,
        {
            match self.peak() {
                Some(c) => {
                    if c == '\n' {
                        return TokenKind::LineComment;
                    }
                    self.next_char();
                },
                None => {
                    return TokenKind::LineComment;
                },
            }
        }
    }

    /// Consumes a quoted literal's body up to and including the closing `quote`;
    /// an unterminated one runs to the end of the source.
    fn consume_string_literal(&mut self, quote: char) -> (k: TokenKind)
        requires
            old(self).idx <= old(self).chars.len(),
        ensures
            final(self).idx == literal_end(old(self).chars@, old(self).idx as int, quote),
            final(self).chars == old(self).chars,
            final(self).row == old(self).row,
            final(self).col == old(self).col,
            k == TokenKind::Literal,
    {
        loop
            invariant
                self.idx <= self.chars.len(),
                self.chars == old(self).chars,
                self.row == old(self).row,
                self.col == old(self).col,
                literal_end(self.chars@, self.idx as int, quote) == literal_end(
                    old(self).chars@,
                    old(self).idx as int,
                    quote,
                ),
            decreases self.chars.len() - self.idx,
        {
            match self.next_char() {
                Some(c) => {
                    if c == quote {
                        return TokenKind::Literal;
                    }
                },
                None => {
                    return TokenKind::Literal;
                },
            }
        }
    }

    fn consume_ident(&mut self) -> (k: TokenKind)
        requires
            old(self).idx <= old(self).chars.len(),
        ensures
            final(self).idx == ident_end(old(self).chars@, old(self).idx as int),
            final(self).chars == old(self).chars,
            final(self).row == old(self).row,
            final(self).col == old(self).col,
            k == TokenKind::Ident,
    {
        self.consume_run_to_end_ident();
        TokenKind::Ident
    }

    fn consume_run_to_end_ident(&mut self)
        requires
            old(self).idx <= old(self).chars.len(),
        ensures
            final(self).idx == ident_end(old(self).chars@, old(self).idx as int),
            final(self).chars == old(self).chars,
            final(self).row == old(self).row,
            final(self).col == old(self).col,
    {
        loop
            invariant
                self.idx <= self.chars.len(),
                self.chars == old(self).chars,
                self.row == old(self).row,
                self.col == old(self).col,
                ident_end(self.chars@, self.idx as int) == ident_end(
                    old(self).chars@,
                    old(self).idx as int,
                ),
            decreases self.chars.len() - self.idx,
        {
            match self.peak() {
                Some(c) => {
                    if is_end_ident(c) {
                        return;
                    }
                    self.next_char();
                },
                None => {
                    return;
                },
            }
        }
    }

    fn consume_whitespace(&mut self) -> (k: TokenKind)
        requires
            old(self).idx <= old(self).chars.len(),
        ensures
            final(self).idx == whitespace_end(old(self).chars@, old(self).idx as int),
            final(self).chars == old(self).chars,
            final(self).row == old(self).row,
            final(self).col == old(self).col,
            k == TokenKind::Whitespace,
    {
        loop
            invariant
                self.idx <= self.chars.len(),
                self.chars == old(self).chars,
                self.row == old(self).row,
                self.col == old(self).col,
                whitespace_end(self.chars@, self.idx as int) == whitespace_end(
                    old(self).chars@,
                    old(self).idx as int,
                ),
            decreases self.chars.len() - self.idx,
        {
            match self.peak() {
                Some(c) => {
                    if !is_whitespace(c) {
                        return TokenKind::Whitespace;
                    }
                    self.next_char();
                },
                None => {
                    return TokenKind::Whitespace;
                },
            }
        }
    }

    /// The next character, without consuming it.
    fn peak(&self) -> (r: Option<char>)
        requires
            self.idx <= self.chars.len(),
        ensures
            r == if self.idx < self.chars.len() {
                Some(self.chars@[self.idx as int])
            } else {
                None::<char>
            },
    {
        if self.idx < self.chars.len() {
            Some(self.chars[self.idx])
        } else {
            None
        }
    }

    fn next_char(&mut self) -> (r: Option<char>)
        requires
            old(self).idx <= old(self).chars.len(),
        ensures
            final(self).chars == old(self).chars,
            final(self).row == old(self).row,
            final(self).col == old(self).col,
            old(self).idx < old(self).chars.len() ==> final(self).idx == old(self).idx + 1 && r
                == Some(old(self).chars@[old(self).idx as int]),
            old(self).idx == old(self).chars.len() ==> final(self).idx == old(self).idx && r
                == None::<char>,
    {
        if self.idx < self.chars.len() {
            let c = self.chars[self.idx];
            self.idx = self.idx + 1;
            Some(c)
        } else {
            None
        }
    }
}

} // verus!
