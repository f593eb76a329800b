use vstd::prelude::*;

use crate::entry::{img_views, Img};
use crate::metadata::tag_list;
use crate::tag::{Tag, TagIdx};

verus! {

// ---------------------------------------------------------------------------
// Tokens.
// ---------------------------------------------------------------------------

/// A token of the search language.
pub enum Token {
    /// A tag name.
    Tag(String),
    /// `-`: leave out images with the following tag.
    Not,
    /// `,`: either side may match.
    Or,
    LParen,
    RParen,
}

/// The mathematical value of a [`Token`].
pub enum TokenView {
    Tag(Seq<char>),
    Not,
    Or,
    LParen,
    RParen,
}

impl View for Token {
    type V = TokenView;

    open spec fn view(&self) -> TokenView {
        match self {
            Token::Tag(s) => TokenView::Tag(s@),
            Token::Not => TokenView::Not,
            Token::Or => TokenView::Or,
            Token::LParen => TokenView::LParen,
            Token::RParen => TokenView::RParen,
        }
    }
}

/// The views of a list of tokens.
pub open spec fn token_views(ts: Seq<Token>) -> Seq<TokenView> {
    ts.map_values(|t: Token| t@)
}

/// Characters that end a tag name: the operators and the space.
pub open spec fn is_separator(c: char) -> bool {
    c == '-' || c == ',' || c == '(' || c == ')' || c == ' '
}

/// The end of the tag name that goes on at `i`: the first separator at or
/// after `i`, or the end of the text.
pub open spec fn word_end(s: Seq<char>, i: int) -> int
    decreases s.len() - i,
{
    if i < 0 || i >= s.len() {
        s.len() as int
    } else if is_separator(s[i]) {
        i
    } else {
        word_end(s, i + 1)
    }
}

/// Where a tag name that goes on at `i` ends.
pub proof fn lemma_word_end(s: Seq<char>, i: int)
    requires
        0 <= i <= s.len(),
    ensures
        i <= word_end(s, i) <= s.len(),
        forall|k: int| i <= k < word_end(s, i) ==> !is_separator(#[trigger] s[k]),
        word_end(s, i) < s.len() ==> is_separator(s[word_end(s, i)]),
    decreases s.len() - i,
{
    if i < s.len() && !is_separator(s[i]) {
        lemma_word_end(s, i + 1);
    }
}

/// The tokens of `s` from position `i` on: each operator character is a
/// token, spaces are passed over, and any other character starts a tag name
/// that runs up to the next separator.
pub open spec fn tokens_from(s: Seq<char>, i: int) -> Seq<TokenView>
    decreases s.len() - i,
{
    if i < 0 || i >= s.len() {
        seq![]
    } else if s[i] == '-' {
        seq![TokenView::Not] + tokens_from(s, i + 1)
    } else if s[i] == ',' {
        seq![TokenView::Or] + tokens_from(s, i + 1)
    } else if s[i] == '(' {
        seq![TokenView::LParen] + tokens_from(s, i + 1)
    } else if s[i] == ')' {
        seq![TokenView::RParen] + tokens_from(s, i + 1)
    } else if s[i] == ' ' {
        tokens_from(s, i + 1)
    } else {
        proof {
            lemma_word_end(s, i + 1);
        }
        let e = word_end(s, i + 1);
        seq![TokenView::Tag(s.subrange(i, e))] + tokens_from(s, e)
    }
}

/// The tokens of a search text.
pub open spec fn tokens_of(s: Seq<char>) -> Seq<TokenView> {
    tokens_from(s, 0)
}

fn is_separator_char(c: char) -> (r: bool)
    ensures
        r == is_separator(c),
{
    c == '-' || c == ',' || c == '(' || c == ')' || c == ' '
}

/// Splits a search text into tokens; `None` where it holds none.
pub fn tokenize(input: String) -> (r: Option<Vec<Token>>)
    ensures
        match r {
            None => tokens_of(input@).len() == 0,
            Some(v) => token_views(v@) == tokens_of(input@) && v@.len() > 0,
        },
{
    let s = input.as_str();
    let n = s.unicode_len();
    let mut vec: Vec<Token> = Vec::new();
    let mut i: usize = 0;
    assert(token_views(vec@) + tokens_from(s@, 0) =~= tokens_from(s@, 0));
    while i < n
        invariant
            n == s@.len(),
            s@ == input@,
            i <= n,
            tokens_from(s@, 0) == token_views(vec@) + tokens_from(s@, i as int),
        decreases n - i,
    {
        let c = s.get_char(i);
        let ghost before = token_views(vec@);
        let ghost i0 = i as int;
        if c == '-' {
            vec.push(Token::Not);
            i = i + 1;
        } else if c == ',' {
            vec.push(Token::Or);
            i = i + 1;
        } else if c == '(' {
            vec.push(Token::LParen);
            i = i + 1;
        } else if c == ')' {
            vec.push(Token::RParen);
            i = i + 1;
        } else if c == ' ' {
            i = i + 1;
        } else {
            proof {
                lemma_word_end(s@, i + 1);
            }
            let mut j: usize = i + 1;
            while j < n
                invariant
                    n == s@.len(),
                    i < j <= n,
                    word_end(s@, i + 1) == word_end(s@, j as int),
                ensures
                    i < j <= n,
                    word_end(s@, i + 1) == word_end(s@, j as int),
                    j == n || is_separator(s@[j as int]),
                decreases n - j,
            {
                if is_separator_char(s.get_char(j)) {
                    break;
                }
                j = j + 1;
            }
            let word = String::from_str(s.substring_char(i, j));
            vec.push(Token::Tag(word));
            i = j;
        }
        proof {
            if c == ' ' {
                assert(tokens_from(s@, i0) == tokens_from(s@, i as int));
                assert(token_views(vec@) == before);
            } else {
                let tok = vec@.last()@;
                assert(token_views(vec@) =~= before.push(tok));
                assert(tokens_from(s@, i0) == seq![tok] + tokens_from(s@, i as int));
                assert(before + (seq![tok] + tokens_from(s@, i as int)) =~= before.push(tok)
                    + tokens_from(s@, i as int));
            }
        }
    }
    if vec.len() == 0 {
        assert(token_views(vec@) =~= Seq::<TokenView>::empty());
        return None;
    }
    Some(vec)
}

// ---------------------------------------------------------------------------
// Expressions and the parser.
// ---------------------------------------------------------------------------

/// A search expression.
pub enum Expr {
    /// Images with the tag at this position of the tag list.
    Tag(TagIdx),
    Not(Box<Expr>),
    Or(Vec<Expr>),
    And(Vec<Expr>),
}

/// The mathematical value of an [`Expr`].
pub enum SpecExpr {
    Tag(TagIdx),
    Not(Box<SpecExpr>),
    Or(Seq<SpecExpr>),
    And(Seq<SpecExpr>),
}

impl Expr {
    /// The mathematical value of this expression.
    pub open spec fn model(&self) -> SpecExpr
        decreases self,
    {
        match self {
            Expr::Tag(t) => SpecExpr::Tag(*t),
            Expr::Not(e) => SpecExpr::Not(Box::new((**e).model())),
            Expr::Or(v) => SpecExpr::Or(
                Seq::new(
                    v@.len(),
                    |i: int|
                        if 0 <= i < v@.len() {
                            v@[i].model()
                        } else {
                            SpecExpr::Tag(0)
                        },
                ),
            ),
            Expr::And(v) => SpecExpr::And(
                Seq::new(
                    v@.len(),
                    |i: int|
                        if 0 <= i < v@.len() {
                            v@[i].model()
                        } else {
                            SpecExpr::Tag(0)
                        },
                ),
            ),
        }
    }
}

impl View for Expr {
    type V = SpecExpr;

    open spec fn view(&self) -> SpecExpr {
        self.model()
    }
}

/// The views of a list of expressions.
pub open spec fn expr_views(v: Seq<Expr>) -> Seq<SpecExpr> {
    v.map_values(|e: Expr| e@)
}

/// The view of an `And` or `Or` node is that of its parts.
pub proof fn lemma_list_views(v: Vec<Expr>)
    ensures
        Expr::And(v)@ == SpecExpr::And(expr_views(v@)),
        Expr::Or(v)@ == SpecExpr::Or(expr_views(v@)),
{
    let a = Expr::And(v)@->And_0;
    let o = Expr::Or(v)@->Or_0;
    assert forall|i: int| 0 <= i < v@.len() implies a[i] == expr_views(v@)[i] && o[i]
        == expr_views(v@)[i] by {
        assert(a[i] == v@[i]@);
        assert(o[i] == v@[i]@);
    }
    assert(a =~= expr_views(v@));
    assert(o =~= expr_views(v@));
}

/// The view of an expression has the expression's shape.
pub proof fn lemma_model_shape(e: Expr)
    ensures
        (e@ is Tag) == (e is Tag),
        (e@ is Not) == (e is Not),
        (e@ is Or) == (e is Or),
        (e@ is And) == (e is And),
        e is Tag ==> e@->Tag_0 == e->Tag_0,
        e is Not ==> *e@->Not_0 == (*e->Not_0)@,
{
}

/// The message for unbalanced parentheses.
pub open spec fn parens_message() -> Seq<char> {
    "Could not parse. Invalid parens."@
}

/// The message for a tag name that names no tag.
pub open spec fn unknown_tag_message(name: Seq<char>) -> Seq<char> {
    "No tag of name "@ + name + " exists."@
}

/// The message for any other text that is not a search expression.
pub open spec fn invalid_message() -> Seq<char> {
    "Invalid search expression. Could not parse."@
}

/// Whether `k` is the position of the first name equal to `name`.
pub open spec fn is_first_tag_named(names: Seq<Seq<char>>, name: Seq<char>, k: int) -> bool {
    &&& 0 <= k < names.len()
    &&& names[k] == name
    &&& forall|j: int| 0 <= j < k ==> names[j] != name
}

/// The position of the first tag named `name`, or -1.
pub open spec fn tag_position(names: Seq<Seq<char>>, name: Seq<char>) -> int {
    if exists|k: int| is_first_tag_named(names, name, k) {
        choose|k: int| is_first_tag_named(names, name, k)
    } else {
        -1
    }
}

/// The names of a tag list.
pub open spec fn tag_names(tags: Seq<Tag>) -> Seq<Seq<char>> {
    tags.map_values(|t: Tag| t.name@)
}

/// The result of reading part of the tokens: an expression and the position
/// after it, or the message of the error met.
pub type ParseResult = Result<(SpecExpr, int), Seq<char>>;

/// A primary expression at `pos`: a parenthesised expression or a tag name.
pub open spec fn parse_primary(t: Seq<TokenView>, names: Seq<Seq<char>>, pos: int) -> ParseResult
    decreases t.len() - pos, 0int,
{
    if 0 <= pos < t.len() {
        match t[pos] {
            TokenView::LParen => match parse_and(t, names, pos + 1) {
                Err(m) => Err(m),
                Ok((e, p)) => if 0 <= p < t.len() && t[p] is RParen {
                    Ok((e, p + 1))
                } else {
                    Err(parens_message())
                },
            },
            TokenView::Tag(v) => {
                let k = tag_position(names, v);
                if k < 0 {
                    Err(unknown_tag_message(v))
                } else {
                    Ok((SpecExpr::Tag(k as TagIdx), pos + 1))
                }
            },
            _ => Err(invalid_message()),
        }
    } else {
        Err(invalid_message())
    }
}

/// A primary expression at `pos`, negated where `-` comes first.
pub open spec fn parse_not(t: Seq<TokenView>, names: Seq<Seq<char>>, pos: int) -> ParseResult
    decreases t.len() - pos, 1int,
{
    if 0 <= pos < t.len() && t[pos] is Not {
        match parse_primary(t, names, pos + 1) {
            Err(m) => Err(m),
            Ok((e, p)) => Ok((SpecExpr::Not(Box::new(e)), p)),
        }
    } else {
        parse_primary(t, names, pos)
    }
}

/// The alternatives that follow at `pos`, each after a `,`, added to `acc`.
pub open spec fn parse_or_rest(
    t: Seq<TokenView>,
    names: Seq<Seq<char>>,
    pos: int,
    acc: Seq<SpecExpr>,
) -> Result<(Seq<SpecExpr>, int), Seq<char>>
    decreases t.len() - pos, 2int,
{
    if 0 <= pos < t.len() && t[pos] is Or {
        match parse_not(t, names, pos + 1) {
            Err(m) => Err(m),
            Ok((e, p)) => if pos < p <= t.len() {
                parse_or_rest(t, names, p, acc.push(e))
            } else {
                Err(invalid_message())
            },
        }
    } else {
        Ok((acc, pos))
    }
}

/// A list of alternatives separated by `,`; a single one stands alone.
pub open spec fn parse_or(t: Seq<TokenView>, names: Seq<Seq<char>>, pos: int) -> ParseResult
    decreases t.len() - pos, 3int,
{
    match parse_not(t, names, pos) {
        Err(m) => Err(m),
        Ok((e, p)) => if pos < p <= t.len() {
            match parse_or_rest(t, names, p, seq![e]) {
                Err(m) => Err(m),
                Ok((es, q)) => if es.len() == 1 {
                    Ok((es[0], q))
                } else {
                    Ok((SpecExpr::Or(es), q))
                },
            }
        } else {
            Err(invalid_message())
        },
    }
}

/// The terms that follow at `pos`, up to the end or a `)`, added to `acc`.
pub open spec fn parse_and_rest(
    t: Seq<TokenView>,
    names: Seq<Seq<char>>,
    pos: int,
    acc: Seq<SpecExpr>,
) -> Result<(Seq<SpecExpr>, int), Seq<char>>
    decreases t.len() - pos, 4int,
{
    if 0 <= pos < t.len() && !(t[pos] is RParen) {
        match parse_or(t, names, pos) {
            Err(m) => Err(m),
            Ok((e, p)) => if pos < p <= t.len() {
                parse_and_rest(t, names, p, acc.push(e))
            } else {
                Err(invalid_message())
            },
        }
    } else {
        Ok((acc, pos))
    }
}

/// A list of terms that must all match; a single one stands alone.
pub open spec fn parse_and(t: Seq<TokenView>, names: Seq<Seq<char>>, pos: int) -> ParseResult
    decreases t.len() - pos, 5int,
{
    match parse_or(t, names, pos) {
        Err(m) => Err(m),
        Ok((e, p)) => if pos < p <= t.len() {
            match parse_and_rest(t, names, p, seq![e]) {
                Err(m) => Err(m),
                Ok((es, q)) => if es.len() == 1 {
                    Ok((es[0], q))
                } else {
                    Ok((SpecExpr::And(es), q))
                },
            }
        } else {
            Err(invalid_message())
        },
    }
}

fn parens_error() -> (r: String)
    ensures
        r@ == parens_message(),
{
    String::from_str("Could not parse. Invalid parens.")
}

fn invalid_error() -> (r: String)
    ensures
        r@ == invalid_message(),
{
    String::from_str("Invalid search expression. Could not parse.")
}

fn unknown_tag_error(name: &String) -> (r: String)
    ensures
        r@ == unknown_tag_message(name@),
{
    let mut s = String::from_str("No tag of name ");
    s.append(name.as_str());
    s.append(" exists.");
    s
}

/// The position of the first tag named `name`, if any.
pub(crate) fn find_tag_position(tags: &Vec<Tag>, name: &String) -> (r: Option<usize>)
    ensures
        match r {
            Some(k) => is_first_tag_named(tag_names(tags@), name@, k as int),
            None => tag_position(tag_names(tags@), name@) == -1,
        },
{
    let ghost names = tag_names(tags@);
    let n = tags.len();
    let mut k: usize = 0;
    while k < n
        invariant
            n == tags@.len(),
            names == tag_names(tags@),
            k <= n,
            forall|j: int| 0 <= j < k ==> names[j] != name@,
        decreases n - k,
    {
        if tags[k].name == *name {
            return Some(k);
        }
        k = k + 1;
    }
    proof {
        if exists|k: int| is_first_tag_named(names, name@, k) {
            let k = choose|k: int| is_first_tag_named(names, name@, k);
            assert(names[k] != name@);
        }
    }
    None
}

/// Reads search expressions from a list of tokens.
struct Parser<'a> {
    tokens: &'a Vec<Token>,
    pos: usize,
    tags_list: &'a Vec<Tag>,
}

impl<'a> Parser<'a> {
    spec fn toks(&self) -> Seq<TokenView> {
        token_views(self.tokens@)
    }

    spec fn names(&self) -> Seq<Seq<char>> {
        tag_names(self.tags_list@)
    }

    /// Whether `self` reads the same tokens as `other` with the same tags.
    spec fn same_input(&self, other: &Self) -> bool {
        &&& self.tokens == other.tokens
        &&& self.tags_list == other.tags_list
    }

    /// Whether the result `r`, read from `start` and ending at `self.pos`, is
    /// the one that `spec` gives.
    spec fn agrees(&self, start: int, r: Result<Expr, String>, spec: ParseResult) -> bool {
        &&& start <= self.pos <= self.tokens@.len()
        &&& r is Ok ==> start < self.pos
        &&& match spec {
            Ok((e, p)) => r matches Ok(x) && x@ == e && self.pos == p,
            Err(m) => r matches Err(s) && s@ == m,
        }
    }

    /// Whether the next token is `)`.
    fn at_rparen(&self) -> (b: bool)
        ensures
            b == (self.pos < self.tokens@.len() && self.toks()[self.pos as int] is RParen),
    {
        if self.pos < self.tokens.len() {
            match &self.tokens[self.pos] {
                Token::RParen => true,
                _ => false,
            }
        } else {
            false
        }
    }

    /// Reads terms up to the end or a `)`; all of them must match.
    fn and_expr(&mut self) -> (r: Result<Expr, String>)
        requires
            old(self).pos <= old(self).tokens@.len(),
        ensures
            final(self).same_input(old(self)),
            final(self).agrees(
                old(self).pos as int,
                r,
                parse_and(old(self).toks(), old(self).names(), old(self).pos as int),
            ),
        decreases old(self).tokens@.len() - old(self).pos, 5int,
    {
        let ghost t = self.toks();
        let ghost names = self.names();
        let ghost start = self.pos as int;
        let first = match self.or_expr() {
            Ok(e) => e,
            Err(m) => {
                return Err(m);
            },
        };
        let ghost p1 = self.pos as int;
        let ghost e1 = first@;
        let mut and_vec: Vec<Expr> = Vec::new();
        and_vec.push(first);
        assert(expr_views(and_vec@) =~= seq![e1]);
        loop
            invariant
                self.same_input(old(self)),
                t == self.toks(),
                names == self.names(),
                start == old(self).pos as int,
                start < p1 <= self.pos <= self.tokens@.len(),
                parse_and(t, names, start) == (match parse_and_rest(t, names, p1, seq![e1]) {
                    Err(m) => Err(m),
                    Ok((es, q)) => if es.len() == 1 {
                        Ok((es[0], q))
                    } else {
                        Ok((SpecExpr::And(es), q))
                    },
                }),
                parse_and_rest(t, names, p1, seq![e1]) == parse_and_rest(
                    t,
                    names,
                    self.pos as int,
                    expr_views(and_vec@),
                ),
                and_vec@.len() >= 1,
            ensures
                self.same_input(old(self)),
                start == old(self).pos as int,
                start < p1 <= self.pos <= self.tokens@.len(),
                parse_and(t, names, start) == (match parse_and_rest(t, names, p1, seq![e1]) {
                    Err(m) => Err(m),
                    Ok((es, q)) => if es.len() == 1 {
                        Ok((es[0], q))
                    } else {
                        Ok((SpecExpr::And(es), q))
                    },
                }),
                parse_and_rest(t, names, p1, seq![e1]) == Ok::<(Seq<SpecExpr>, int), Seq<char>>(
                    (expr_views(and_vec@), self.pos as int),
                ),
                and_vec@.len() >= 1,
            decreases self.tokens@.len() - self.pos,
        {
            if self.pos >= self.tokens.len() || self.at_rparen() {
                break;
            }
            let ghost before = expr_views(and_vec@);
            let ghost p = self.pos as int;
            match self.or_expr() {
                Ok(e) => {
                    let ghost ev = e@;
                    and_vec.push(e);
                    assert(expr_views(and_vec@) =~= before.push(ev));
                },
                Err(m) => {
                    return Err(m);
                },
            }
        }
        if and_vec.len() == 1 {
            let ghost v0 = expr_views(and_vec@);
            match and_vec.pop() {
                Some(e) => {
                    assert(e@ == v0[0]);
                    return Ok(e);
                },
                None => {
                    proof {
                        assert(false);
                    }
                    return Err(invalid_error());
                },
            }
        }
        proof {
            lemma_list_views(and_vec);
        }
        Ok(Expr::And(and_vec))
    }

    /// Reads alternatives separated by `,`.
    fn or_expr(&mut self) -> (r: Result<Expr, String>)
        requires
            old(self).pos <= old(self).tokens@.len(),
        ensures
            final(self).same_input(old(self)),
            final(self).agrees(
                old(self).pos as int,
                r,
                parse_or(old(self).toks(), old(self).names(), old(self).pos as int),
            ),
        decreases old(self).tokens@.len() - old(self).pos, 3int,
    {
        let ghost t = self.toks();
        let ghost names = self.names();
        let ghost start = self.pos as int;
        let first = match self.not_expr() {
            Ok(e) => e,
            Err(m) => {
                return Err(m);
            },
        };
        let ghost p1 = self.pos as int;
        let ghost e1 = first@;
        let mut or_vec: Vec<Expr> = Vec::new();
        or_vec.push(first);
        assert(expr_views(or_vec@) =~= seq![e1]);
        loop
            invariant
                self.same_input(old(self)),
                t == self.toks(),
                names == self.names(),
                start == old(self).pos as int,
                start < p1 <= self.pos <= self.tokens@.len(),
                parse_or(t, names, start) == (match parse_or_rest(t, names, p1, seq![e1]) {
                    Err(m) => Err(m),
                    Ok((es, q)) => if es.len() == 1 {
                        Ok((es[0], q))
                    } else {
                        Ok((SpecExpr::Or(es), q))
                    },
                }),
                parse_or_rest(t, names, p1, seq![e1]) == parse_or_rest(
                    t,
                    names,
                    self.pos as int,
                    expr_views(or_vec@),
                ),
                or_vec@.len() >= 1,
            ensures
                self.same_input(old(self)),
                start == old(self).pos as int,
                start < p1 <= self.pos <= self.tokens@.len(),
                parse_or(t, names, start) == (match parse_or_rest(t, names, p1, seq![e1]) {
                    Err(m) => Err(m),
                    Ok((es, q)) => if es.len() == 1 {
                        Ok((es[0], q))
                    } else {
                        Ok((SpecExpr::Or(es), q))
                    },
                }),
                parse_or_rest(t, names, p1, seq![e1]) == Ok::<(Seq<SpecExpr>, int), Seq<char>>(
                    (expr_views(or_vec@), self.pos as int),
                ),
                or_vec@.len() >= 1,
            decreases self.tokens@.len() - self.pos,
        {
            let is_or = self.pos < self.tokens.len() && match &self.tokens[self.pos] {
                Token::Or => true,
                _ => false,
            };
            if !is_or {
                break;
            }
            self.pos = self.pos + 1;
            let ghost before = expr_views(or_vec@);
            match self.not_expr() {
                Ok(e) => {
                    let ghost ev = e@;
                    or_vec.push(e);
                    assert(expr_views(or_vec@) =~= before.push(ev));
                },
                Err(m) => {
                    return Err(m);
                },
            }
        }
        if or_vec.len() == 1 {
            let ghost v0 = expr_views(or_vec@);
            match or_vec.pop() {
                Some(e) => {
                    assert(e@ == v0[0]);
                    return Ok(e);
                },
                None => {
                    proof {
                        assert(false);
                    }
                    return Err(invalid_error());
                },
            }
        }
        proof {
            lemma_list_views(or_vec);
        }
        Ok(Expr::Or(or_vec))
    }

    /// Reads a primary expression, negated where `-` comes first.
    fn not_expr(&mut self) -> (r: Result<Expr, String>)
        requires
            old(self).pos <= old(self).tokens@.len(),
        ensures
            final(self).same_input(old(self)),
            final(self).agrees(
                old(self).pos as int,
                r,
                parse_not(old(self).toks(), old(self).names(), old(self).pos as int),
            ),
        decreases old(self).tokens@.len() - old(self).pos, 1int,
    {
        let is_not = self.pos < self.tokens.len() && match &self.tokens[self.pos] {
            Token::Not => true,
            _ => false,
        };
        if is_not {
            self.pos = self.pos + 1;
            match self.primary_expr() {
                Ok(e) => Ok(Expr::Not(Box::new(e))),
                Err(m) => Err(m),
            }
        } else {
            self.primary_expr()
        }
    }

    /// Reads a parenthesised expression or a tag name.
    fn primary_expr(&mut self) -> (r: Result<Expr, String>)
        requires
            old(self).pos <= old(self).tokens@.len(),
        ensures
            final(self).same_input(old(self)),
            final(self).agrees(
                old(self).pos as int,
                r,
                parse_primary(old(self).toks(), old(self).names(), old(self).pos as int),
            ),
        decreases old(self).tokens@.len() - old(self).pos, 0int,
    {
        if self.pos >= self.tokens.len() {
            return Err(invalid_error());
        }
        let tokens = self.tokens;
        match &tokens[self.pos] {
            Token::LParen => {
                self.pos = self.pos + 1;
                let inside = match self.and_expr() {
                    Ok(e) => e,
                    Err(m) => {
                        return Err(m);
                    },
                };
                if self.at_rparen() {
                    self.pos = self.pos + 1;
                    Ok(inside)
                } else {
                    Err(parens_error())
                }
            },
            Token::Tag(v) => {
                self.pos = self.pos + 1;
                match find_tag_position(self.tags_list, v) {
                    None => Err(unknown_tag_error(v)),
                    Some(i) => {
                        proof {
                            assert(tag_position(self.names(), v@) == i as int);
                        }
                        Ok(Expr::Tag(i as TagIdx))
                    },
                }
            },
            _ => Err(invalid_error()),
        }
    }
}

/// Reads a search expression from the tokens, with tag names looked up in
/// `tags_list`.
pub fn parse(tokens: Vec<Token>, tags_list: &Vec<Tag>) -> (r: Result<Expr, String>)
    ensures
        match parse_and(token_views(tokens@), tag_names(tags_list@), 0) {
            Ok((e, p)) => r matches Ok(x) && x@ == e,
            Err(m) => r matches Err(s) && s@ == m,
        },
{
    let mut parser = Parser { tokens: &tokens, pos: 0, tags_list };
    parser.and_expr()
}

// ---------------------------------------------------------------------------
// Filtering.
// ---------------------------------------------------------------------------

/// Whether an image with the tag indices `tags` matches `e`.
pub open spec fn holds(e: SpecExpr, tags: Seq<TagIdx>) -> bool
    decreases e,
{
    match e {
        SpecExpr::Tag(t) => tags.contains(t),
        SpecExpr::Not(b) => !holds(*b, tags),
        SpecExpr::Or(es) => any_holds(es, tags),
        SpecExpr::And(es) => all_hold(es, tags),
    }
}

/// Whether some expression of `es` matches `tags`.
pub open spec fn any_holds(es: Seq<SpecExpr>, tags: Seq<TagIdx>) -> bool
    decreases es,
{
    exists|i: int| 0 <= i < es.len() && holds(#[trigger] es[i], tags)
}

/// Whether every expression of `es` matches `tags`.
pub open spec fn all_hold(es: Seq<SpecExpr>, tags: Seq<TagIdx>) -> bool
    decreases es,
{
    forall|i: int| 0 <= i < es.len() ==> holds(#[trigger] es[i], tags)
}

/// The positions, in order, of the images among the first `n` whose tags
/// match `e`; an image with no tag list matches as one with no tags.
pub open spec fn matching(imgs: Seq<Img>, e: SpecExpr, n: int) -> Seq<usize>
    decreases n,
{
    if n <= 0 {
        seq![]
    } else {
        let rest = matching(imgs, e, n - 1);
        if holds(e, tag_list(imgs[n - 1]@.tags)) {
            rest.push((n - 1) as usize)
        } else {
            rest
        }
    }
}

/// A term that the fast filter handles: a tag or a negated tag.
pub open spec fn fast_item(e: SpecExpr) -> bool {
    match e {
        SpecExpr::Tag(_) => true,
        SpecExpr::Not(b) => *b is Tag,
        _ => false,
    }
}

/// Whether the fast filter handles `e`: a tag, a negated tag, or a list of
/// such terms that must all match.
pub open spec fn fast_filterable(e: SpecExpr) -> bool {
    match e {
        SpecExpr::Tag(_) => true,
        SpecExpr::Not(b) => *b is Tag,
        SpecExpr::Or(_) => false,
        SpecExpr::And(es) => all_fast(es),
    }
}

/// Whether every term of `es` is one the fast filter handles.
pub open spec fn all_fast(es: Seq<SpecExpr>) -> bool {
    forall|i: int| 0 <= i < es.len() ==> fast_item(#[trigger] es[i])
}

/// The tags that a term requires.
pub open spec fn item_mandatory(e: SpecExpr) -> Seq<TagIdx> {
    match e {
        SpecExpr::Tag(t) => seq![t],
        _ => seq![],
    }
}

/// The tags that a term rules out.
pub open spec fn item_banned(e: SpecExpr) -> Seq<TagIdx> {
    match e {
        SpecExpr::Not(b) => match *b {
            SpecExpr::Tag(t) => seq![t],
            _ => seq![],
        },
        _ => seq![],
    }
}

/// The tags that a list of terms requires, in order.
pub open spec fn mandatory_list(es: Seq<SpecExpr>) -> Seq<TagIdx>
    decreases es.len(),
{
    if es.len() == 0 {
        seq![]
    } else {
        mandatory_list(es.drop_last()) + item_mandatory(es.last())
    }
}

/// The tags that a list of terms rules out, in order.
pub open spec fn banned_list(es: Seq<SpecExpr>) -> Seq<TagIdx>
    decreases es.len(),
{
    if es.len() == 0 {
        seq![]
    } else {
        banned_list(es.drop_last()) + item_banned(es.last())
    }
}

/// The tags that `e` requires.
pub open spec fn mandatory_of(e: SpecExpr) -> Seq<TagIdx> {
    match e {
        SpecExpr::And(es) => mandatory_list(es),
        _ => item_mandatory(e),
    }
}

/// The tags that `e` rules out.
pub open spec fn banned_of(e: SpecExpr) -> Seq<TagIdx> {
    match e {
        SpecExpr::And(es) => banned_list(es),
        _ => item_banned(e),
    }
}

/// The view of an optional list of tag indices.
pub open spec fn opt_view(o: Option<Vec<TagIdx>>) -> Option<Seq<TagIdx>> {
    match o {
        Some(v) => Some(v@),
        None => None,
    }
}

/// No list where `s` is empty.
pub open spec fn nonempty(s: Seq<TagIdx>) -> Option<Seq<TagIdx>> {
    if s.len() == 0 {
        None
    } else {
        Some(s)
    }
}

/// Whether `ts` holds none of `b`.
pub open spec fn none_in(ts: Seq<TagIdx>, b: Seq<TagIdx>) -> bool {
    forall|j: int| 0 <= j < b.len() ==> !ts.contains(#[trigger] b[j])
}

/// Whether `ts` holds all of `m`.
pub open spec fn all_in(ts: Seq<TagIdx>, m: Seq<TagIdx>) -> bool {
    forall|j: int| 0 <= j < m.len() ==> ts.contains(#[trigger] m[j])
}

/// Whether an image with tag list `tags` passes the fast filter: it carries
/// none of the banned tags (an image with no tag list carries none) and all
/// of the mandatory ones (an image with no tag list carries none).
pub open spec fn passes(
    tags: Option<Seq<TagIdx>>,
    banned: Option<Seq<TagIdx>>,
    mandatory: Option<Seq<TagIdx>>,
) -> bool {
    let not_outlawed = banned is None || tags is None || none_in(tags->0, banned->0);
    let has_mandatory = mandatory is None || (tags is Some && all_in(tags->0, mandatory->0));
    not_outlawed && has_mandatory
}

/// The positions, in order, of the images among the first `n` that pass the
/// fast filter.
pub open spec fn passing(
    imgs: Seq<Img>,
    banned: Option<Seq<TagIdx>>,
    mandatory: Option<Seq<TagIdx>>,
    n: int,
) -> Seq<usize>
    decreases n,
{
    if n <= 0 {
        seq![]
    } else {
        let rest = passing(imgs, banned, mandatory, n - 1);
        if passes(imgs[n - 1]@.tags, banned, mandatory) {
            rest.push((n - 1) as usize)
        } else {
            rest
        }
    }
}

/// The positions in `l`, in order, of images that carry all the tags of `m`.
pub open spec fn keep_mandatory(imgs: Seq<Img>, l: Seq<usize>, m: Seq<TagIdx>) -> Seq<usize>
    decreases l.len(),
{
    if l.len() == 0 {
        seq![]
    } else {
        let rest = keep_mandatory(imgs, l.drop_last(), m);
        if passes(imgs[l.last() as int]@.tags, None, Some(m)) {
            rest.push(l.last())
        } else {
            rest
        }
    }
}

proof fn lemma_two_phases(
    imgs: Seq<Img>,
    banned: Option<Seq<TagIdx>>,
    m: Seq<TagIdx>,
    n: int,
)
    requires
        n <= imgs.len() <= usize::MAX,
    ensures
        keep_mandatory(imgs, passing(imgs, banned, None, n), m) == passing(imgs, banned, Some(m), n),
    decreases n,
{
    if n > 0 {
        lemma_two_phases(imgs, banned, m, n - 1);
        let l = passing(imgs, banned, None, n);
        let t = imgs[n - 1]@.tags;
        assert(passes(t, banned, Some(m)) == (passes(t, banned, None) && passes(t, None, Some(m))));
        if passes(t, banned, None) {
            assert(l.drop_last() =~= passing(imgs, banned, None, n - 1));
            assert(l.last() as int == n - 1);
        }
    }
}

/// Whether `v` holds `x`.
pub(crate) fn contains_idx(v: &Vec<TagIdx>, x: TagIdx) -> (r: bool)
    ensures
        r == v@.contains(x),
{
    let n = v.len();
    let mut i: usize = 0;
    while i < n
        invariant
            n == v@.len(),
            i <= n,
            forall|j: int| 0 <= j < i ==> v@[j] != x,
        decreases n - i,
    {
        if v[i] == x {
            assert(v@[i as int] == x);
            return true;
        }
        i = i + 1;
    }
    false
}

/// Whether `tags` holds none of `banned`.
fn holds_none(tags: &Vec<TagIdx>, banned: &Vec<TagIdx>) -> (r: bool)
    ensures
        r == none_in(tags@, banned@),
{
    let n = banned.len();
    let mut i: usize = 0;
    while i < n
        invariant
            n == banned@.len(),
            i <= n,
            forall|j: int| 0 <= j < i ==> !tags@.contains(#[trigger] banned@[j]),
        decreases n - i,
    {
        if contains_idx(tags, banned[i]) {
            return false;
        }
        i = i + 1;
    }
    true
}

/// Whether `tags` holds all of `mandatory`.
fn holds_all(tags: &Vec<TagIdx>, mandatory: &Vec<TagIdx>) -> (r: bool)
    ensures
        r == all_in(tags@, mandatory@),
{
    let n = mandatory.len();
    let mut i: usize = 0;
    while i < n
        invariant
            n == mandatory@.len(),
            i <= n,
            forall|j: int| 0 <= j < i ==> tags@.contains(#[trigger] mandatory@[j]),
        decreases n - i,
    {
        if !contains_idx(tags, mandatory[i]) {
            return false;
        }
        i = i + 1;
    }
    true
}

/// The positions, in order, of the images that carry none of the banned
/// tags and all of the mandatory ones.
pub fn fast_filter(
    banned_tidxs: Option<Vec<TagIdx>>,
    mandatory_tidxs: Option<Vec<TagIdx>>,
    images: &[Img],
) -> (r: Vec<usize>)
    ensures
        r@ == passing(
            images@,
            opt_view(banned_tidxs),
            opt_view(mandatory_tidxs),
            images@.len() as int,
        ),
{
    let ghost bv: Option<Seq<TagIdx>> = opt_view(banned_tidxs);
    let n = images.len();
    let mut non_outlawed: Vec<usize> = Vec::new();
    let mut i: usize = 0;
    while i < n
        invariant
            n == images@.len(),
            i <= n,
            bv == (opt_view(banned_tidxs)),
            non_outlawed@ == passing(images@, bv, None, i as int),
            forall|j: int| 0 <= j < non_outlawed@.len() ==> non_outlawed@[j] < i,
        decreases n - i,
    {
        let ghost tv = images@[i as int]@.tags;
        let fine = match &banned_tidxs {
            Some(banned) => match &images[i].tags {
                Some(tags) => {
                    assert(tv == Some(tags@));
                    assert(bv == Some(banned@));
                    holds_none(tags, banned)
                },
                None => {
                    assert(tv is None);
                    true
                },
            },
            None => {
                assert(bv is None);
                true
            },
        };
        let ghost before = non_outlawed@;
        assert(passes(tv, bv, None) == fine);
        if fine {
            non_outlawed.push(i);
        }
        assert(non_outlawed@ =~= passing(images@, bv, None, i + 1));
        i = i + 1;
    }
    match mandatory_tidxs {
        None => non_outlawed,
        Some(mandatory) => {
            let mut has_mandatory: Vec<usize> = Vec::new();
            let ghost l = non_outlawed@;
            let m = non_outlawed.len();
            let mut k: usize = 0;
            while k < m
                invariant
                    m == non_outlawed@.len(),
                    l == non_outlawed@,
                    k <= m,
                    n == images@.len(),
                    forall|j: int| 0 <= j < l.len() ==> l[j] < n,
                    has_mandatory@ == keep_mandatory(images@, l.take(k as int), mandatory@),
                decreases m - k,
            {
                let idx = non_outlawed[k];
                let img = &images[idx];
                let mut fine = false;
                if let Some(tags) = &img.tags {
                    fine = holds_all(tags, &mandatory);
                }
                assert(l.take(k + 1).drop_last() =~= l.take(k as int));
                if fine {
                    has_mandatory.push(idx);
                }
                k = k + 1;
            }
            assert(l.take(m as int) =~= l);
            proof {
                lemma_two_phases(images@, bv, mandatory@, n as int);
            }
            has_mandatory
        },
    }
}

proof fn lemma_term_lists(es: Seq<SpecExpr>)
    requires
        all_fast(es),
    ensures
        forall|x: TagIdx|
            mandatory_list(es).contains(x) <==> exists|i: int|
                0 <= i < es.len() && #[trigger] es[i] == SpecExpr::Tag(x),
        forall|x: TagIdx|
            banned_list(es).contains(x) <==> exists|i: int|
                0 <= i < es.len() && #[trigger] es[i] == SpecExpr::Not(Box::new(SpecExpr::Tag(x))),
    decreases es.len(),
{
    if es.len() > 0 {
        let d = es.drop_last();
        assert forall|i: int| 0 <= i < d.len() implies fast_item(#[trigger] d[i]) by {
            assert(d[i] == es[i]);
        }
        assert(all_fast(d));
        lemma_term_lists(d);
        let last = es.last();
        assert(fast_item(es[es.len() - 1]));
        let md = mandatory_list(d);
        let bd = banned_list(d);
        assert(mandatory_list(es) == md + item_mandatory(last));
        assert(banned_list(es) == bd + item_banned(last));
        assert forall|x: TagIdx|
            mandatory_list(es).contains(x) <==> exists|i: int|
                0 <= i < es.len() && #[trigger] es[i] == SpecExpr::Tag(x) by {
            let me = mandatory_list(es);
            if me.contains(x) {
                let k = choose|k: int| 0 <= k < me.len() && me[k] == x;
                if k < md.len() {
                    assert(md[k] == x);
                    assert(md.contains(x));
                    let i = choose|i: int| 0 <= i < d.len() && #[trigger] d[i] == SpecExpr::Tag(x);
                    assert(es[i] == d[i]);
                } else {
                    assert(item_mandatory(last)[k - md.len()] == x);
                    assert(es[es.len() - 1] == SpecExpr::Tag(x));
                }
            }
            if exists|i: int| 0 <= i < es.len() && #[trigger] es[i] == SpecExpr::Tag(x) {
                let i = choose|i: int| 0 <= i < es.len() && #[trigger] es[i] == SpecExpr::Tag(x);
                if i < es.len() - 1 {
                    assert(d[i] == es[i]);
                    assert(md.contains(x));
                    let k = choose|k: int| 0 <= k < md.len() && md[k] == x;
                    assert(me[k] == x);
                } else {
                    assert(me[md.len() as int] == x);
                }
            }
        }
        assert forall|x: TagIdx|
            banned_list(es).contains(x) <==> exists|i: int|
                0 <= i < es.len() && #[trigger] es[i] == SpecExpr::Not(Box::new(SpecExpr::Tag(x))) by {
            let be = banned_list(es);
            if be.contains(x) {
                let k = choose|k: int| 0 <= k < be.len() && be[k] == x;
                if k < bd.len() {
                    assert(bd[k] == x);
                    assert(bd.contains(x));
                    let i = choose|i: int|
                        0 <= i < d.len() && #[trigger] d[i] == SpecExpr::Not(Box::new(SpecExpr::Tag(x)));
                    assert(es[i] == d[i]);
                } else {
                    assert(item_banned(last)[k - bd.len()] == x);
                    assert(es[es.len() - 1] == SpecExpr::Not(Box::new(SpecExpr::Tag(x))));
                }
            }
            if exists|i: int|
                0 <= i < es.len() && #[trigger] es[i] == SpecExpr::Not(Box::new(SpecExpr::Tag(x))) {
                let i = choose|i: int|
                    0 <= i < es.len() && #[trigger] es[i] == SpecExpr::Not(Box::new(SpecExpr::Tag(x)));
                if i < es.len() - 1 {
                    assert(d[i] == es[i]);
                    assert(bd.contains(x));
                    let k = choose|k: int| 0 <= k < bd.len() && bd[k] == x;
                    assert(be[k] == x);
                } else {
                    assert(be[bd.len() as int] == x);
                }
            }
        }
    }
}

/// The fast filter decides what the expression says: for an expression it
/// handles, an image passes the filter built from the expression's required
/// and ruled-out tags exactly where its tags match the expression.
pub proof fn lemma_fast_filter_decides(e: SpecExpr, tags: Option<Seq<TagIdx>>)
    requires
        fast_filterable(e),
    ensures
        passes(tags, nonempty(banned_of(e)), nonempty(mandatory_of(e))) == holds(e, tag_list(tags)),
{
    let ts = tag_list(tags);
    let m = mandatory_of(e);
    let bl = banned_of(e);
    // Where an image has no tag list, it holds no tag.
    assert(tags is None ==> none_in(ts, bl));
    assert(tags is None && m.len() > 0 ==> !all_in(ts, m)) by {
        if tags is None && m.len() > 0 {
            assert(!ts.contains(m[0]));
        }
    }
    assert(bl.len() == 0 ==> none_in(ts, bl));
    assert(m.len() == 0 ==> all_in(ts, m));
    assert(passes(tags, nonempty(bl), nonempty(m)) == (none_in(ts, bl) && all_in(ts, m)));
    match e {
        SpecExpr::Tag(t) => {
            assert(m =~= seq![t]);
            assert(bl =~= Seq::<TagIdx>::empty());
            assert(all_in(ts, m) == ts.contains(t)) by {
                assert(m[0] == t);
            }
        },
        SpecExpr::Not(b) => {
            let t = b->Tag_0;
            assert(bl =~= seq![t]);
            assert(m =~= Seq::<TagIdx>::empty());
            assert(none_in(ts, bl) == !ts.contains(t)) by {
                assert(bl[0] == t);
            }
            assert(holds(e, ts) == !holds(SpecExpr::Tag(t), ts));
        },
        SpecExpr::Or(_) => {},
        SpecExpr::And(es) => {
            assert(all_fast(es));
            lemma_term_lists(es);
            assert(m == mandatory_list(es));
            assert(bl == banned_list(es));
            assert(holds(e, ts) == all_hold(es, ts));
            if all_hold(es, ts) {
                assert forall|j: int| 0 <= j < m.len() implies ts.contains(#[trigger] m[j]) by {
                    assert(m.contains(m[j]));
                    let i = choose|i: int| 0 <= i < es.len() && #[trigger] es[i] == SpecExpr::Tag(m[j]);
                    assert(holds(es[i], ts));
                }
                assert forall|j: int| 0 <= j < bl.len() implies !ts.contains(#[trigger] bl[j]) by {
                    assert(bl.contains(bl[j]));
                    let i = choose|i: int|
                        0 <= i < es.len() && #[trigger] es[i] == SpecExpr::Not(
                            Box::new(SpecExpr::Tag(bl[j])),
                        );
                    assert(holds(es[i], ts));
                    assert(holds(es[i], ts) == !holds(SpecExpr::Tag(bl[j]), ts));
                }
            }
            if none_in(ts, bl) && all_in(ts, m) {
                assert forall|i: int| 0 <= i < es.len() implies holds(#[trigger] es[i], ts) by {
                    assert(fast_item(es[i]));
                    match es[i] {
                        SpecExpr::Tag(x) => {
                            assert(m.contains(x));
                            let j = choose|j: int| 0 <= j < m.len() && m[j] == x;
                            assert(ts.contains(m[j]));
                        },
                        SpecExpr::Not(bx) => {
                            let x = bx->Tag_0;
                            assert(es[i] == SpecExpr::Not(Box::new(SpecExpr::Tag(x))));
                            assert(bl.contains(x));
                            let j = choose|j: int| 0 <= j < bl.len() && bl[j] == x;
                            assert(!ts.contains(bl[j]));
                            assert(holds(es[i], ts) == !holds(SpecExpr::Tag(x), ts));
                        },
                        _ => {},
                    }
                }
                assert(all_hold(es, ts));
            }
        },
    }
}

proof fn lemma_passing_is_matching(imgs: Seq<Img>, e: SpecExpr, n: int)
    requires
        fast_filterable(e),
    ensures
        passing(imgs, nonempty(banned_of(e)), nonempty(mandatory_of(e)), n) == matching(imgs, e, n),
    decreases n,
{
    if n > 0 {
        lemma_passing_is_matching(imgs, e, n - 1);
        lemma_fast_filter_decides(e, imgs[n - 1]@.tags);
    }
}

/// Whether the fast filter handles `expr`: a tag, a negated tag, or a list
/// of such terms that must all match.
pub fn can_fast_filter_on(expr: &Expr) -> (r: bool)
    ensures
        r == fast_filterable(expr@),
{
    match expr {
        Expr::Tag(t) => {
            assert(expr.model() == SpecExpr::Tag(*t));
            assert(expr@ == SpecExpr::Tag(*t));
            true
        },
        Expr::Not(other) => {
            proof {
                lemma_model_shape(*expr);
                lemma_model_shape(**other);
            }
            match **other {
                Expr::Tag(_) => true,
                _ => false,
            }
        },
        Expr::Or(_) => {
            proof {
                lemma_model_shape(*expr);
            }
            false
        },
        Expr::And(exprs) => {
            proof {
                lemma_list_views(*exprs);
            }
            let n = exprs.len();
            let mut i: usize = 0;
            while i < n
                invariant
                    n == exprs@.len(),
                    i <= n,
                    forall|j: int| 0 <= j < i ==> fast_item(#[trigger] expr_views(exprs@)[j]),
                    expr@ == SpecExpr::And(expr_views(exprs@)),
                decreases n - i,
            {
                assert(expr_views(exprs@)[i as int] == exprs@[i as int]@);
                match &exprs[i] {
                    Expr::Tag(_) => {},
                    Expr::Not(other) => {
                        proof {
                            lemma_model_shape(exprs@[i as int]);
                            lemma_model_shape(**other);
                        }
                        match **other {
                            Expr::Tag(_) => {},
                            _ => {
                                assert(!fast_item(expr_views(exprs@)[i as int]));
                            assert(expr@ == SpecExpr::And(expr_views(exprs@)));
                            assert(!fast_filterable(expr@));
                                return false;
                            },
                        }
                    },
                    Expr::Or(_) => {
                        proof {
                            lemma_model_shape(exprs@[i as int]);
    assert(!fast_item(expr_views(exprs@)[i as int]));
                            assert(expr@ == SpecExpr::And(expr_views(exprs@)));
                            assert(!fast_filterable(expr@));
                        }
                        return false;
                    },
                    Expr::And(_) => {
                        proof {
                            lemma_model_shape(exprs@[i as int]);
    assert(!fast_item(expr_views(exprs@)[i as int]));
                            assert(expr@ == SpecExpr::And(expr_views(exprs@)));
                            assert(!fast_filterable(expr@));
                        }
                        return false;
                    },
                }
                i = i + 1;
            }
            true
        },
    }
}

/// The positions, in order, of the images that match `expr`, an expression
/// that the fast filter handles.
fn fast_filter_expr(expr: Expr, images: &[Img]) -> (r: Vec<usize>)
    requires
        fast_filterable(expr@),
    ensures
        r@ == matching(images@, expr@, images@.len() as int),
{
    let ghost e = expr@;
    let mut outlawed: Vec<TagIdx> = Vec::new();
    let mut mandatory: Vec<TagIdx> = Vec::new();
    proof {
        lemma_model_shape(expr);
    }
    match expr {
        Expr::Tag(t) => {
            mandatory.push(t);
        },
        Expr::Not(inner) => {
            proof {
                lemma_model_shape(*inner);
            }
            match *inner {
                Expr::Tag(t) => {
                    outlawed.push(t);
                },
                _ => {
                    proof {
                        assert(false);
                    }
                },
            }
        },
        Expr::Or(_) => {
            proof {
                assert(false);
            }
        },
        Expr::And(exprs) => {
            proof {
                lemma_list_views(exprs);
            }
            let ghost es = expr_views(exprs@);
            assert(e == SpecExpr::And(es));
            assert forall|j: int| 0 <= j < es.len() implies fast_item(#[trigger] es[j]) by {
                assert(fast_filterable(e));
            }
            let n = exprs.len();
            let mut i: usize = 0;
            while i < n
                invariant
                    n == exprs@.len(),
                    es == expr_views(exprs@),
                    forall|j: int| 0 <= j < es.len() ==> fast_item(#[trigger] es[j]),
                    i <= n,
                    mandatory@ == mandatory_list(es.take(i as int)),
                    outlawed@ == banned_list(es.take(i as int)),
                decreases n - i,
            {
                assert(es.take(i + 1).drop_last() =~= es.take(i as int));
                assert(es.take(i + 1).last() == es[i as int]);
                assert(fast_item(es[i as int]));
                match &exprs[i] {
                    Expr::Tag(t) => {
                        mandatory.push(*t);
                        assert(mandatory@ =~= mandatory_list(es.take(i + 1)));
                        assert(outlawed@ =~= banned_list(es.take(i + 1)));
                    },
                    Expr::Not(other) => match **other {
                        Expr::Tag(t) => {
                            proof {
                                lemma_model_shape(exprs@[i as int]);
                                lemma_model_shape(**other);
                            }
                            outlawed.push(t);
                            assert(mandatory@ =~= mandatory_list(es.take(i + 1)));
                            assert(outlawed@ =~= banned_list(es.take(i + 1)));
                        },
                        _ => {
                            proof {
                                lemma_model_shape(exprs@[i as int]);
                                lemma_model_shape(**other);
                                assert(false);
                            }
                        },
                    },
                    _ => {
                        proof {
                            assert(false);
                        }
                    },
                }
                i = i + 1;
            }
            assert(es.take(n as int) =~= es);
        },
    }
    proof {
        match e {
            SpecExpr::Tag(t) => {
                assert(mandatory@ =~= mandatory_of(e));
                assert(outlawed@ =~= banned_of(e));
            },
            SpecExpr::Not(b) => {
                assert(mandatory@ =~= mandatory_of(e));
                assert(outlawed@ =~= banned_of(e));
            },
            _ => {},
        }
    }
    let outlawed_option = if outlawed.len() == 0 {
        None
    } else {
        Some(outlawed)
    };
    let mandatory_option = if mandatory.len() == 0 {
        None
    } else {
        Some(mandatory)
    };
    proof {
        lemma_passing_is_matching(images@, e, images@.len() as int);
    }
    fast_filter(outlawed_option, mandatory_option, images)
}

/// The positions `0..n`.
pub open spec fn all_indices(n: nat) -> Seq<usize> {
    Seq::new(n, |i: int| i as usize)
}

/// What a search gives: the positions, in order, of the images whose tags
/// match the search text `s`, all of them where the text holds no token, or
/// the message of the error met in reading the text.
pub open spec fn search_result(s: Seq<char>, names: Seq<Seq<char>>, imgs: Seq<Img>) -> Result<
    Seq<usize>,
    Seq<char>,
> {
    if tokens_of(s).len() == 0 {
        Ok(all_indices(imgs.len()))
    } else {
        match parse_and(tokens_of(s), names, 0) {
            Ok((e, _)) => Ok(matching(imgs, e, imgs.len() as int)),
            Err(m) => Err(m),
        }
    }
}

/// Whether the tag list `tags` matches `e`.
fn expr_holds(e: &Expr, tags: &Vec<TagIdx>) -> (r: bool)
    ensures
        r == holds(e@, tags@),
    decreases e@,
{
    proof {
        lemma_model_shape(*e);
    }
    match e {
        Expr::Tag(t) => contains_idx(tags, *t),
        Expr::Not(inner) => {
            proof {
                lemma_model_shape(*e);
            }
            !expr_holds(inner, tags)
        },
        Expr::Or(v) => {
            proof {
                lemma_list_views(*v);
            }
            let ghost es = expr_views(v@);
            assert(*e == Expr::Or(*v));
            assert(holds(e@, tags@) == any_holds(es, tags@));
            let n = v.len();
            let mut i: usize = 0;
            while i < n
                invariant
                    n == v@.len(),
                    es == expr_views(v@),
                    e@ == SpecExpr::Or(es),
                    i <= n,
                    forall|j: int| 0 <= j < i ==> !holds(#[trigger] es[j], tags@),
                decreases n - i,
            {
                proof {
                    let x = e@;
                    assert(x == SpecExpr::Or(es));
                    assert(decreases_to!(x => x->Or_0));
                    assert(decreases_to!(es => es[i as int]));
                    assert(es[i as int] == v@[i as int]@);
                }
                if expr_holds(&v[i], tags) {
                    assert(holds(es[i as int], tags@));
                    assert(any_holds(es, tags@));
                    return true;
                }
                i = i + 1;
            }
            assert(!any_holds(es, tags@));
            false
        },
        Expr::And(v) => {
            proof {
                lemma_list_views(*v);
            }
            let ghost es = expr_views(v@);
            assert(*e == Expr::And(*v));
            assert(holds(e@, tags@) == all_hold(es, tags@));
            let n = v.len();
            let mut i: usize = 0;
            while i < n
                invariant
                    n == v@.len(),
                    es == expr_views(v@),
                    e@ == SpecExpr::And(es),
                    i <= n,
                    forall|j: int| 0 <= j < i ==> holds(#[trigger] es[j], tags@),
                decreases n - i,
            {
                proof {
                    let x = e@;
                    assert(x == SpecExpr::And(es));
                    assert(decreases_to!(x => x->And_0));
                    assert(decreases_to!(es => es[i as int]));
                    assert(es[i as int] == v@[i as int]@);
                }
                if !expr_holds(&v[i], tags) {
                    assert(!holds(es[i as int], tags@));
                    assert(!all_hold(es, tags@));
                    return false;
                }
                i = i + 1;
            }
            assert(all_hold(es, tags@));
            true
        },
    }
}

/// The positions, in order, of the images whose tags match `expr`.
pub fn filter_to_expr(expr: Expr, images: &[Img]) -> (r: Vec<usize>)
    ensures
        r@ == matching(images@, expr@, images@.len() as int),
{
    if can_fast_filter_on(&expr) {
        return fast_filter_expr(expr, images);
    }
    let ghost e = expr@;
    let empty: Vec<TagIdx> = Vec::new();
    let n = images.len();
    let mut r: Vec<usize> = Vec::new();
    let mut i: usize = 0;
    while i < n
        invariant
            n == images@.len(),
            e == expr@,
            empty@.len() == 0,
            i <= n,
            r@ == matching(images@, e, i as int),
        decreases n - i,
    {
        let tags: &Vec<TagIdx> = match &images[i].tags {
            Some(v) => v,
            None => &empty,
        };
        assert(tags@ =~= tag_list(images@[i as int]@.tags));
        if expr_holds(&expr, tags) {
            r.push(i);
        }
        i = i + 1;
    }
    r
}

/// Runs a search: the positions, in order, of the images whose tags match
/// the search text `input`, all of them where the text holds no token, or
/// the message of the error met in reading the text.
pub fn filter_to_string(input: String, tags: &Vec<Tag>, images: &[Img]) -> (r: Result<
    Vec<usize>,
    String,
>)
    ensures
        match search_result(input@, tag_names(tags@), images@) {
            Ok(v) => r matches Ok(x) && x@ == v,
            Err(m) => r matches Err(x) && x@ == m,
        },
{
    let n = images.len();
    let tokens = match tokenize(input) {
        Some(t) => t,
        None => {
            let mut all: Vec<usize> = Vec::new();
            let mut i: usize = 0;
            while i < n
                invariant
                    n == images@.len(),
                    i <= n,
                    all@ == all_indices(i as nat),
                decreases n - i,
            {
                all.push(i);
                i = i + 1;
                assert(all@ =~= all_indices(i as nat));
            }
            return Ok(all);
        },
    };
    let expr = match parse(tokens, tags) {
        Ok(e) => e,
        Err(m) => {
            return Err(m);
        },
    };
    Ok(filter_to_expr(expr, images))
}

proof fn lemma_matching_in_range(imgs: Seq<Img>, e: SpecExpr, n: int)
    requires
        n <= usize::MAX,
    ensures
        forall|j: int| 0 <= j < matching(imgs, e, n).len() ==> #[trigger] matching(imgs, e, n)[j] < n,
    decreases n,
{
    if n > 0 {
        lemma_matching_in_range(imgs, e, n - 1);
        let rest = matching(imgs, e, n - 1);
        assert forall|j: int| 0 <= j < matching(imgs, e, n).len() implies #[trigger] matching(
            imgs,
            e,
            n,
        )[j] < n by {
            if j < rest.len() {
                assert(rest[j] < n - 1);
            }
        }
    }
}

/// The positions that a search gives name images of the list.
pub proof fn lemma_search_in_range(s: Seq<char>, names: Seq<Seq<char>>, imgs: Seq<Img>)
    requires
        imgs.len() <= usize::MAX,
    ensures
        search_result(s, names, imgs) matches Ok(v) ==> forall|j: int|
            0 <= j < v.len() ==> #[trigger] v[j] < imgs.len(),
{
    if tokens_of(s).len() != 0 {
        if let Ok((e, _)) = parse_and(tokens_of(s), names, 0) {
            lemma_matching_in_range(imgs, e, imgs.len() as int);
        }
    }
}

} // verus!
