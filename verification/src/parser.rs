use crate::ast::{
    BinOp, ExecPart, Expr, ExprKind, FStrPart, IfBranch, Param, Script, Stmt, StmtKind, TypeAnn,
    UnaryOp,
};
use crate::parse_error::ParseError;
use crate::span::{merged, Span};
use crate::grammar::{
    cmp_op, eol, expected, is_stmt_keyword, lemma_p_additive, lemma_p_additive_more, lemma_p_and,
    lemma_p_and_more, lemma_p_args, lemma_p_args_more, lemma_p_block, lemma_p_block_more,
    lemma_p_comparison, lemma_p_comparison_more, lemma_p_exec_more, lemma_p_expr, lemma_p_fn,
    lemma_p_for, lemma_p_fstr, lemma_p_fstr_more, lemma_p_if, lemma_p_if_branch, lemma_p_if_more,
    lemma_p_import_more, lemma_p_list, lemma_p_list_more, lemma_p_map, lemma_p_map_more,
    lemma_p_multiplicative, lemma_p_multiplicative_more, lemma_p_not, lemma_p_or, lemma_p_or_more,
    lemma_p_params_more, lemma_p_postfix, lemma_p_postfix_more, lemma_p_primary, lemma_p_recover,
    lemma_p_script_more, lemma_p_stmt, lemma_p_task, lemma_p_try, lemma_p_unary, lemma_p_while,
    nl_run, nxt, p_additive, p_additive_more, p_and, p_and_more, p_args, p_args_more, p_assign,
    p_block, p_block_more, p_comparison, p_comparison_more, p_exec, p_exec_more, p_exit, p_expr,
    p_fn, p_for, p_fstr, p_fstr_more, p_if, p_if_branch, p_if_more, p_import, p_import_more, p_let,
    p_list, p_list_more, p_map, p_map_more, p_multiplicative, p_multiplicative_more, p_not, p_or,
    p_or_more, p_params, p_params_more, p_postfix, p_postfix_more, p_primary, p_recover, p_return,
    p_script_more, p_stmt, p_task, p_try, p_type_ann, p_unary, p_while, peek2_tok, skip_nl,
};
use crate::syntax::{
    branch_v, branches_v, entries_v, epart_v, eparts_v, exprs_v, fparts_v, param_v, params_v,
    names_v, stmt_kind_v, stmts_v, SExpr, SExprKind, SFStrPart, SIfBranch, SParam, SStmt, SStmtKind,
};
use crate::lexer::tokens_well_placed;
use crate::token::{is_bare, variant_index, Spanned, Token};
use vstd::prelude::*;

verus! {

type PResult<T> = Result<T, ParseError>;

/// A token stream the parser can work on: it ends with `Eof`.
pub open spec fn tokens_ok(t: Seq<Spanned>) -> bool {
    t.len() >= 1 && t.last().token is Eof
}

/// The stream holds an `Eof`.
pub open spec fn has_eof(t: Seq<Spanned>) -> bool {
    exists|i: int| 0 <= i < t.len() && (#[trigger] t[i]).token is Eof
}

/// The index of the first `Eof` in the stream.
pub open spec fn first_eof(t: Seq<Spanned>) -> int
    decreases t.len(),
{
    if t.len() == 0 || t[0].token is Eof {
        0
    } else {
        1 + first_eof(t.drop_first())
    }
}

/// The first `Eof` is at `i` when none comes before it.
proof fn lemma_first_eof(t: Seq<Spanned>, i: int)
    requires
        0 <= i < t.len(),
        t[i].token is Eof,
        forall|j: int| 0 <= j < i ==> !((#[trigger] t[j]).token is Eof),
    ensures
        first_eof(t) == i,
    decreases i,
{
    if i > 0 {
        assert forall|j: int| 0 <= j < i - 1 implies !((#[trigger] t.drop_first()[j]).token is Eof) by {
            assert(t.drop_first()[j] == t[j + 1]);
        }
        lemma_first_eof(t.drop_first(), i - 1);
    }
}

/// The lexer's output is a stream the parser takes whole: whatever the source, the tokens
/// that `Lexer::tokenize` returns end with their one `Eof`.
pub proof fn law_lexed_tokens_parse(t: Seq<Spanned>, n: int)
    requires
        tokens_well_placed(t, n),
    ensures
        tokens_ok(t),
        has_eof(t),
        t.take(first_eof(t) + 1) == t,
{
    let l = t.len() - 1;
    assert(t[l].token is Eof);
    lemma_first_eof(t, l);
    assert(t.take(l + 1) =~= t);
}

pub struct Parser {
    tokens: Vec<Spanned>,
    pos: usize,
}

impl Parser {
    /// The token stream being parsed.
    pub closed spec fn token_list(&self) -> Seq<Spanned> {
        self.tokens@
    }

    /// Index of the current token.
    pub closed spec fn position(&self) -> int {
        self.pos as int
    }

    /// The parser's state is consistent.
    pub closed spec fn wf(&self) -> bool {
        tokens_ok(self.tokens@) && self.pos < self.tokens@.len()
    }

    /// The current token.
    pub closed spec fn current(&self) -> Token {
        self.tokens@[self.pos as int].token
    }

    /// `new` parses the same tokens as `self`, from no earlier position.
    pub closed spec fn same_stream(&self, new: &Self) -> bool {
        &&& new.wf()
        &&& new.tokens@ == self.tokens@
        &&& self.pos <= new.pos
    }

    /// A parser of the tokens up to the first `Eof`: nothing after it is ever read.
    pub fn new(tokens: Vec<Spanned>) -> (r: Self)
        requires
            has_eof(tokens@),
        ensures
            r.wf(),
            r.token_list() == tokens@.take(first_eof(tokens@) + 1),
            r.position() == 0,
    {
        let mut tokens = tokens;
        let ghost t0 = tokens@;
        let mut i: usize = 0;
        while i < tokens.len() && !matches!(tokens[i].token, Token::Eof)
            invariant
                tokens@ == t0,
                has_eof(t0),
                i <= t0.len(),
                forall|j: int| 0 <= j < i ==> !((#[trigger] t0[j]).token is Eof),
            decreases t0.len() - i,
        {
            i = i + 1;
        }
        proof {
            if i == t0.len() {
                let w = choose|j: int| 0 <= j < t0.len() && (#[trigger] t0[j]).token is Eof;
                assert(!(t0[w].token is Eof));
            }
            lemma_first_eof(t0, i as int);
        }
        tokens.truncate(i + 1);
        Self { tokens, pos: 0 }
    }

    /// Parse statements up to `Eof`. A statement that fails to parse is reported and
    /// skipped, and parsing goes on with the next one. The script's span runs from the
    /// first token to the `Eof`.
    pub fn parse_script(&mut self) -> (r: (Script, Vec<ParseError>))
        requires
            old(self).wf(),
        ensures
            old(self).same_stream(&*final(self)),
            final(self).current() is Eof,
            ({
                let t = old(self).token_list();
                let i = old(self).position();
                let read = p_script_more(t, skip_nl(t, i), seq![], seq![]);
                &&& stmts_v(r.0.stmts@) == read.0
                &&& r.1@ == read.1
                &&& final(self).position() == read.2
                &&& r.0.span == merged(t[i].span, t[read.2].span)
            }),
    {
        let ghost t = self.tokens@;
        let start = self.span();
        let mut stmts: Vec<Stmt> = Vec::new();
        let mut errors: Vec<ParseError> = Vec::new();

        self.skip_newlines();
        let ghost i1 = self.pos as int;

        while !self.at_eof()
            invariant
                old(self).same_stream(&*self),
                t == self.tokens@,
                !(self.current() is Newline),
                p_script_more(t, i1, seq![], seq![]) == p_script_more(
                    t,
                    self.pos as int,
                    stmts_v(stmts@),
                    errors@,
                ),
            decreases self.tokens@.len() - self.pos,
        {
            proof {
                lemma_p_script_more(t, self.pos as int, stmts_v(stmts@), errors@);
            }
            match self.parse_stmt() {
                Ok(stmt) => {
                    proof {
                        lemma_stmts_v_push(stmts@, stmt);
                    }
                    stmts.push(stmt);
                },
                Err(e) => {
                    errors.push(e);
                    self.recover();
                },
            }
            self.skip_newlines();
        }
        proof {
            lemma_p_script_more(t, self.pos as int, stmts_v(stmts@), errors@);
        }

        let span = start.merge(self.span());
        (Script { stmts, span }, errors)
    }

    fn peek(&self) -> (r: &Token)
        requires
            self.wf(),
        ensures
            *r == self.current(),
    {
        &self.tokens[self.pos].token
    }

    /// The first token after the current one that is not a newline, or `Eof`.
    fn peek2(&self) -> (r: Token)
        requires
            self.wf(),
        ensures
            r == peek2_tok(self.tokens@, self.pos as int),
    {
        let ghost t = self.tokens@;
        let n = self.tokens.len();
        let mut i = self.pos + 1;
        while i < self.tokens.len()
            invariant
                self.wf(),
                t == self.tokens@,
                self.pos < i <= self.tokens@.len(),
                forall|k: int| self.pos < k < i ==> #[trigger] self.tokens@[k].token is Newline,
                self.pos + 1 + nl_run(t, self.pos + 1) == i + nl_run(t, i as int),
            decreases self.tokens@.len() - i,
        {
            if !matches!(self.tokens[i].token, Token::Newline) {
                let r = self.tokens[i].token.duplicate();
                return r;
            }
            i = i + 1;
        }
        Token::Eof
    }

    fn span(&self) -> (r: Span)
        requires
            self.wf(),
        ensures
            r == self.tokens@[self.pos as int].span,
    {
        self.tokens[self.pos].span
    }

    /// Move to the next token, unless at the last one; give the span of the token that was
    /// current.
    fn advance(&mut self) -> (r: Span)
        requires
            old(self).wf(),
        ensures
            old(self).same_stream(&*final(self)),
            r == old(self).tokens@[old(self).pos as int].span,
            final(self).pos == if old(self).pos + 1 < old(self).tokens@.len() {
                old(self).pos + 1
            } else {
                old(self).pos as int
            },
            !(old(self).current() is Eof) ==> final(self).pos == old(self).pos + 1,
    {
        let s = self.tokens[self.pos].span;
        let n = self.tokens.len();
        if self.pos + 1 < n {
            self.pos = self.pos + 1;
        }
        s
    }

    fn skip_newlines(&mut self)
        requires
            old(self).wf(),
        ensures
            old(self).same_stream(&*final(self)),
            forall|k: int|
                old(self).pos <= k < final(self).pos ==> #[trigger] final(self).tokens@[k].token is Newline,
            !(final(self).current() is Newline),
            final(self).pos == skip_nl(old(self).tokens@, old(self).pos as int),
    {
        while matches!(self.peek(), Token::Newline)
            invariant
                old(self).same_stream(&*self),
                forall|k: int| old(self).pos <= k < self.pos ==> #[trigger] self.tokens@[k].token is Newline,
                old(self).pos + nl_run(self.tokens@, old(self).pos as int) == self.pos + nl_run(
                    self.tokens@,
                    self.pos as int,
                ),
            decreases self.tokens@.len() - self.pos,
        {
            self.advance();
        }
    }

    fn at_eof(&self) -> (r: bool)
        requires
            self.wf(),
        ensures
            r == (self.current() is Eof),
    {
        matches!(self.peek(), Token::Eof)
    }

    /// Consume the current token if it is of the variant of `expected`; otherwise report
    /// what was expected.
    fn expect(&mut self, expected: &Token, label: &'static str) -> (r: PResult<Span>)
        requires
            old(self).wf(),
            is_bare(*expected),
            !(*expected is Eof),
        ensures
            old(self).same_stream(&*final(self)),
            match r {
                Ok(sp) => {
                    &&& old(self).current() == *expected
                    &&& sp == old(self).tokens@[old(self).pos as int].span
                    &&& final(self).pos == old(self).pos + 1
                },
                Err(e) => {
                    &&& variant_index(old(self).current()) != variant_index(*expected)
                    &&& final(self).pos == old(self).pos
                    &&& e == crate::grammar::expected(old(self).tokens@, old(self).pos as int, label)
                },
            },
    {
        if self.peek().same_variant(expected) {
            proof {
                crate::token::lemma_bare_same_variant(*expected, self.current());
            }
            Ok(self.advance())
        } else {
            Err(ParseError::Expected { expected: label, got: self.peek().duplicate(), span: self.span() })
        }
    }

    /// Consume the current token if it is of the variant of `tok`.
    fn eat(&mut self, tok: &Token) -> (r: bool)
        requires
            old(self).wf(),
            is_bare(*tok),
            !(*tok is Eof),
        ensures
            old(self).same_stream(&*final(self)),
            r == (old(self).current() == *tok),
            final(self).pos == old(self).pos + if r { 1int } else { 0int },
    {
        if self.peek().same_variant(tok) {
            proof {
                crate::token::lemma_bare_same_variant(*tok, self.current());
            }
            self.advance();
            true
        } else {
            false
        }
    }

    fn expect_ident(&mut self) -> (r: PResult<(String, Span)>)
        requires
            old(self).wf(),
        ensures
            old(self).same_stream(&*final(self)),
            match r {
                Ok((name, sp)) => {
                    &&& old(self).current() matches Token::Ident(n) && n@ == name@
                    &&& sp == old(self).tokens@[old(self).pos as int].span
                    &&& final(self).pos == old(self).pos + 1
                },
                Err(e) => {
                    &&& !(old(self).current() is Ident)
                    &&& final(self).pos == old(self).pos
                    &&& e == expected(old(self).tokens@, old(self).pos as int, "identifier")
                },
            },
    {
        match self.peek() {
            Token::Ident(name) => {
                let name = name.clone();
                let span = self.advance();
                Ok((name, span))
            },
            other => {
                let got = other.duplicate();
                Err(ParseError::Expected { expected: "identifier", got, span: self.span() })
            },
        }
    }

    /// Skip the rest of a statement that failed to parse: up to a statement keyword or
    /// `Eof`, or past the first newline; then past any newlines.
    fn recover(&mut self)
        requires
            old(self).wf(),
        ensures
            old(self).same_stream(&*final(self)),
            !(final(self).current() is Newline),
            forall|k: int|
                old(self).pos <= k < final(self).pos ==> !(#[trigger] final(self).tokens@[k].token is Eof)
                    && !is_stmt_keyword(final(self).tokens@[k].token),
            !(old(self).current() is Eof) && !is_stmt_keyword(old(self).current())
                ==> final(self).pos > old(self).pos,
            ({
                let rp = p_recover(old(self).tokens@, old(self).pos as int);
                &&& old(self).pos <= rp < old(self).tokens@.len()
                &&& final(self).pos == skip_nl(old(self).tokens@, rp)
            }),
    {
        let ghost t = self.tokens@;
        loop
            invariant_except_break
                old(self).same_stream(&*self),
                forall|k: int|
                    old(self).pos <= k < self.pos ==> !(#[trigger] self.tokens@[k].token is Eof)
                        && !is_stmt_keyword(self.tokens@[k].token),
                !(old(self).current() is Eof) && !is_stmt_keyword(old(self).current())
                    && self.pos == old(self).pos ==> !(self.current() is Eof) && !is_stmt_keyword(
                    self.current(),
                ),
                t == self.tokens@,
                p_recover(t, old(self).pos as int) == p_recover(t, self.pos as int),
            ensures
                old(self).same_stream(&*self),
                forall|k: int|
                    old(self).pos <= k < self.pos ==> !(#[trigger] self.tokens@[k].token is Eof)
                        && !is_stmt_keyword(self.tokens@[k].token),
                !(old(self).current() is Eof) && !is_stmt_keyword(old(self).current())
                    ==> self.pos > old(self).pos,
                t == self.tokens@,
                p_recover(t, old(self).pos as int) == self.pos,
            decreases self.tokens@.len() - self.pos,
        {
            proof {
                lemma_p_recover(t, self.pos as int);
            }
            match self.peek() {
                Token::Eof => {
                    break ;
                },
                Token::Newline => {
                    self.advance();
                    break ;
                },
                Token::Let | Token::Fn | Token::Task | Token::If | Token::For | Token::While
                | Token::Try | Token::Import | Token::Return | Token::Exit | Token::Exec => {
                    break ;
                },
                _ => {
                    self.advance();
                },
            }
        }
        let ghost mid = self.pos;
        self.skip_newlines();
        proof {
            assert forall|k: int| old(self).pos <= k < self.pos implies !(
            #[trigger] self.tokens@[k].token is Eof) && !is_stmt_keyword(self.tokens@[k].token) by {
                if k >= mid {
                    assert(self.tokens@[k].token is Newline);
                }
            }
        }
    }
}

/// The value of a parse result that holds the form of a statement.
pub open spec fn kres_v(r: PResult<StmtKind>) -> Result<SStmtKind, ParseError> {
    match r {
        Ok(k) => Ok(stmt_kind_v(k)),
        Err(x) => Err(x),
    }
}

/// The value of a parse result that holds a statement.
pub open spec fn sres_v(r: PResult<Stmt>) -> Result<SStmt, ParseError> {
    match r {
        Ok(s) => Ok(s@),
        Err(x) => Err(x),
    }
}

/// The value of a parse result that holds a block of statements.
pub open spec fn bres_v(r: PResult<Vec<Stmt>>) -> Result<Seq<SStmt>, ParseError> {
    match r {
        Ok(v) => Ok(stmts_v(v@)),
        Err(x) => Err(x),
    }
}

/// The value of a parse result that holds a branch of an `if`.
pub open spec fn brres_v(r: PResult<IfBranch>) -> Result<SIfBranch, ParseError> {
    match r {
        Ok(b) => Ok(branch_v(b)),
        Err(x) => Err(x),
    }
}

/// The value of a parse result that holds parameters.
pub open spec fn pres_v(r: PResult<Vec<Param>>) -> Result<Seq<SParam>, ParseError> {
    match r {
        Ok(v) => Ok(params_v(v@)),
        Err(x) => Err(x),
    }
}

/// The values of the statements after one more was added.
pub proof fn lemma_stmts_v_push(s: Seq<Stmt>, x: Stmt)
    ensures
        stmts_v(s.push(x)) == stmts_v(s).push(x@),
{
    assert(s.push(x).drop_last() =~= s);
}

/// The values of the branches after one more was added.
pub proof fn lemma_branches_v_push(s: Seq<IfBranch>, b: IfBranch)
    ensures
        branches_v(s.push(b)) == branches_v(s).push(branch_v(b)),
{
    assert(s.push(b).drop_last() =~= s);
}

impl Parser {
    fn parse_stmt(&mut self) -> (r: PResult<Stmt>)
        requires
            old(self).wf(),
        ensures
            old(self).same_stream(&*final(self)),
            r is Ok ==> final(self).pos > old(self).pos,
            is_stmt_keyword(old(self).current()) ==> final(self).pos > old(self).pos,
            (sres_v(r), final(self).pos as int) == p_stmt(old(self).tokens@, old(self).pos as int),
        decreases old(self).tokens@.len() - old(self).pos, 30nat,
    {
        proof {
            lemma_p_stmt(self.tokens@, self.pos as int);
        }
        let start = self.span();
        let kind = match self.peek() {
            Token::Import => self.parse_import()?,
            Token::Let => self.parse_let()?,
            Token::Fn => self.parse_fn()?,
            Token::Task => self.parse_task()?,
            Token::Return => self.parse_return()?,
            Token::If => self.parse_if()?,
            Token::For => self.parse_for()?,
            Token::While => self.parse_while()?,
            Token::Try => self.parse_try()?,
            Token::Exec => self.parse_exec()?,
            Token::Exit => self.parse_exit()?,
            Token::Ident(_) if matches!(self.peek2(), Token::Eq) => self.parse_assign()?,
            _ => {
                let expr = self.parse_expr()?;
                self.expect_newline_or_eof()?;
                StmtKind::ExprStmt(expr)
            },
        };
        Ok(Stmt { kind, span: start.merge(self.span()) })
    }

    /// Consume a newline if one is next; the end of the source or any other token is left.
    fn expect_newline_or_eof(&mut self) -> (r: PResult<()>)
        requires
            old(self).wf(),
        ensures
            old(self).same_stream(&*final(self)),
            r is Ok,
            final(self).pos == eol(old(self).tokens@, old(self).pos as int),
    {
        match self.peek() {
            Token::Newline | Token::Eof => {
                self.eat(&Token::Newline);
                Ok(())
            },
            _ => Ok(()),
        }
    }

    fn parse_import(&mut self) -> (r: PResult<StmtKind>)
        requires
            old(self).wf(),
            old(self).current() is Import,
        ensures
            old(self).same_stream(&*final(self)),
            final(self).pos > old(self).pos,
            (kres_v(r), final(self).pos as int) == p_import(old(self).tokens@, old(self).pos as int),
    {
        let ghost t = self.tokens@;
        self.advance();
        let (module, _) = self.expect_ident()?;
        let mut items = None;
        let ghost mut names_at: Seq<Seq<char>> = seq![];
        if self.eat(&Token::Dot) {
            self.expect(&Token::LBrace, "'{'")?;
            let mut names: Vec<String> = Vec::new();
            proof {
                assert(names_v(names@) =~= seq![]);
            }
            loop
                invariant_except_break
                    old(self).same_stream(&*self),
                    self.pos > old(self).pos,
                    t == self.tokens@,
                    p_import(t, old(self).pos as int) == p_import_more(
                        t,
                        self.pos as int,
                        module@,
                        names_v(names@),
                    ),
                ensures
                    old(self).same_stream(&*self),
                    self.pos > old(self).pos,
                    t == self.tokens@,
                    p_import(t, old(self).pos as int) == (
                        Ok::<SStmtKind, ParseError>(
                            SStmtKind::Import { module: module@, items: Some(names_v(names@)) },
                        ),
                        eol(t, self.pos as int),
                    ),
                decreases self.tokens@.len() - self.pos,
            {
                proof {
                    lemma_p_import_more(t, self.pos as int, module@, names_v(names@));
                }
                self.skip_newlines();
                if self.eat(&Token::RBrace) {
                    break ;
                }
                let (name, _) = self.expect_ident()?;
                proof {
                    assert(names_v(names@.push(name)) =~= names_v(names@).push(name@));
                }
                names.push(name);
                self.skip_newlines();
                if !self.eat(&Token::Comma) {
                    self.skip_newlines();
                    self.expect(&Token::RBrace, "'}'")?;
                    break ;
                }
            }
            items = Some(names);
        }
        self.expect_newline_or_eof()?;
        Ok(StmtKind::Import { module, items })
    }

    fn parse_let(&mut self) -> (r: PResult<StmtKind>)
        requires
            old(self).wf(),
            old(self).current() is Let,
        ensures
            old(self).same_stream(&*final(self)),
            final(self).pos > old(self).pos,
            (kres_v(r), final(self).pos as int) == p_let(old(self).tokens@, old(self).pos as int),
    {
        self.advance();
        let mutable = self.eat(&Token::Mut);
        let (name, _) = self.expect_ident()?;

        let ty = if self.eat(&Token::Colon) {
            Some(self.parse_type_ann()?)
        } else {
            None
        };

        self.expect(&Token::Eq, "'='")?;
        let value = self.parse_expr()?;
        self.expect_newline_or_eof()?;
        Ok(StmtKind::Let { name, mutable, ty, value })
    }

    fn parse_assign(&mut self) -> (r: PResult<StmtKind>)
        requires
            old(self).wf(),
        ensures
            old(self).same_stream(&*final(self)),
            r is Ok ==> final(self).pos > old(self).pos,
            (kres_v(r), final(self).pos as int) == p_assign(old(self).tokens@, old(self).pos as int),
    {
        let (name, _) = self.expect_ident()?;
        self.expect(&Token::Eq, "'='")?;
        let value = self.parse_expr()?;
        self.expect_newline_or_eof()?;
        Ok(StmtKind::Assig { name, value })
    }

    fn parse_fn(&mut self) -> (r: PResult<StmtKind>)
        requires
            old(self).wf(),
            old(self).current() is Fn,
        ensures
            old(self).same_stream(&*final(self)),
            final(self).pos > old(self).pos,
            (kres_v(r), final(self).pos as int) == p_fn(old(self).tokens@, old(self).pos as int),
        decreases old(self).tokens@.len() - old(self).pos, 29nat,
    {
        proof {
            lemma_p_fn(self.tokens@, self.pos as int);
        }
        self.advance();
        let (name, _) = self.expect_ident()?;
        let params = self.parse_params()?;

        let ret = if self.eat(&Token::Arrow) {
            Some(self.parse_type_ann()?)
        } else {
            None
        };

        let body = self.parse_block()?;
        Ok(StmtKind::Fn { name, params, ret, body })
    }

    fn parse_task(&mut self) -> (r: PResult<StmtKind>)
        requires
            old(self).wf(),
            old(self).current() is Task,
        ensures
            old(self).same_stream(&*final(self)),
            final(self).pos > old(self).pos,
            (kres_v(r), final(self).pos as int) == p_task(old(self).tokens@, old(self).pos as int),
        decreases old(self).tokens@.len() - old(self).pos, 29nat,
    {
        proof {
            lemma_p_task(self.tokens@, self.pos as int);
        }
        self.advance();
        let (name, _) = self.expect_ident()?;
        let body = self.parse_block()?;
        Ok(StmtKind::Task { name, body })
    }

    fn parse_return(&mut self) -> (r: PResult<StmtKind>)
        requires
            old(self).wf(),
            old(self).current() is Return,
        ensures
            old(self).same_stream(&*final(self)),
            final(self).pos > old(self).pos,
            (kres_v(r), final(self).pos as int) == p_return(old(self).tokens@, old(self).pos as int),
    {
        self.advance();
        let value = if matches!(self.peek(), Token::Newline | Token::Eof | Token::RBrace) {
            None
        } else {
            Some(self.parse_expr()?)
        };
        self.expect_newline_or_eof()?;
        Ok(StmtKind::Return { value })
    }

    fn parse_if(&mut self) -> (r: PResult<StmtKind>)
        requires
            old(self).wf(),
            old(self).current() is If,
        ensures
            old(self).same_stream(&*final(self)),
            final(self).pos > old(self).pos,
            (kres_v(r), final(self).pos as int) == p_if(old(self).tokens@, old(self).pos as int),
        decreases old(self).tokens@.len() - old(self).pos, 29nat,
    {
        let ghost t = self.tokens@;
        proof {
            lemma_p_if(t, self.pos as int);
        }
        let mut branches = Vec::new();
        let first = self.parse_if_branch()?;
        proof {
            lemma_branches_v_push(branches@, first);
        }
        branches.push(first);

        let mut else_: Option<Vec<Stmt>> = None;
        loop
            invariant_except_break
                old(self).same_stream(&*self),
                self.pos > old(self).pos,
                t == self.tokens@,
                else_.is_none(),
                p_if(t, old(self).pos as int) == p_if_more(t, self.pos as int, branches_v(branches@)),
            ensures
                old(self).same_stream(&*self),
                self.pos > old(self).pos,
                t == self.tokens@,
                p_if(t, old(self).pos as int) == (
                    Ok::<SStmtKind, ParseError>(
                        SStmtKind::If {
                            branches: branches_v(branches@),
                            else_: match else_ {
                                Some(b) => Some(stmts_v(b@)),
                                None => None,
                            },
                        },
                    ),
                    self.pos as int,
                ),
            decreases self.tokens@.len() - self.pos,
        {
            proof {
                lemma_p_if_more(t, self.pos as int, branches_v(branches@));
            }
            let saved = self.pos;
            self.skip_newlines();

            if self.eat(&Token::Else) {
                self.skip_newlines();
                if matches!(self.peek(), Token::If) {
                    let b = self.parse_if_branch()?;
                    proof {
                        lemma_branches_v_push(branches@, b);
                    }
                    branches.push(b);
                } else {
                    else_ = Some(self.parse_block()?);
                    break ;
                }
            } else {
                self.pos = saved;
                break ;
            }
        }

        Ok(StmtKind::If { branches, else_ })
    }

    fn parse_if_branch(&mut self) -> (r: PResult<IfBranch>)
        requires
            old(self).wf(),
        ensures
            old(self).same_stream(&*final(self)),
            old(self).current() is If ==> final(self).pos > old(self).pos,
            r is Ok ==> final(self).pos > old(self).pos,
            (brres_v(r), final(self).pos as int) == p_if_branch(
                old(self).tokens@,
                old(self).pos as int,
            ),
        decreases old(self).tokens@.len() - old(self).pos, 28nat,
    {
        proof {
            lemma_p_if_branch(self.tokens@, self.pos as int);
        }
        let start = self.span();
        self.expect(&Token::If, "'if'")?;
        let cond = self.parse_expr()?;
        let body = self.parse_block()?;
        Ok(IfBranch { cond, body, span: start.merge(self.span()) })
    }

    fn parse_for(&mut self) -> (r: PResult<StmtKind>)
        requires
            old(self).wf(),
            old(self).current() is For,
        ensures
            old(self).same_stream(&*final(self)),
            final(self).pos > old(self).pos,
            (kres_v(r), final(self).pos as int) == p_for(old(self).tokens@, old(self).pos as int),
        decreases old(self).tokens@.len() - old(self).pos, 29nat,
    {
        proof {
            lemma_p_for(self.tokens@, self.pos as int);
        }
        self.advance();
        let (name, _) = self.expect_ident()?;
        self.expect(&Token::In, "'in'")?;
        let iter = self.parse_expr()?;
        let body = self.parse_block()?;
        Ok(StmtKind::For { name, iter, body })
    }

    fn parse_while(&mut self) -> (r: PResult<StmtKind>)
        requires
            old(self).wf(),
            old(self).current() is While,
        ensures
            old(self).same_stream(&*final(self)),
            final(self).pos > old(self).pos,
            (kres_v(r), final(self).pos as int) == p_while(old(self).tokens@, old(self).pos as int),
        decreases old(self).tokens@.len() - old(self).pos, 29nat,
    {
        proof {
            lemma_p_while(self.tokens@, self.pos as int);
        }
        self.advance();
        let cond = self.parse_expr()?;
        let body = self.parse_block()?;
        Ok(StmtKind::While { cond, body })
    }

    fn parse_try(&mut self) -> (r: PResult<StmtKind>)
        requires
            old(self).wf(),
            old(self).current() is Try,
        ensures
            old(self).same_stream(&*final(self)),
            final(self).pos > old(self).pos,
            (kres_v(r), final(self).pos as int) == p_try(old(self).tokens@, old(self).pos as int),
        decreases old(self).tokens@.len() - old(self).pos, 29nat,
    {
        proof {
            lemma_p_try(self.tokens@, self.pos as int);
        }
        self.advance();
        let body = self.parse_block()?;
        self.skip_newlines();
        self.expect(&Token::Catch, "'catch'")?;
        self.expect(&Token::LParen, "'('")?;
        let (catch_var, _) = self.expect_ident()?;
        self.expect(&Token::RParen, "')'")?;
        let handler = self.parse_block()?;
        Ok(StmtKind::Try { body, catch_var, handler })
    }

    fn parse_exec(&mut self) -> (r: PResult<StmtKind>)
        requires
            old(self).wf(),
            old(self).current() is Exec,
        ensures
            old(self).same_stream(&*final(self)),
            final(self).pos > old(self).pos,
            (kres_v(r), final(self).pos as int) == p_exec(old(self).tokens@, old(self).pos as int),
    {
        let ghost t = self.tokens@;
        self.advance();
        let mut parts: Vec<ExecPart> = Vec::new();
        proof {
            assert(eparts_v(parts@) =~= seq![]);
        }
        let mut swallow = false;

        loop
            invariant_except_break
                old(self).same_stream(&*self),
                self.pos > old(self).pos,
                t == self.tokens@,
                !swallow,
                p_exec(t, old(self).pos as int) == p_exec_more(
                    t,
                    self.pos as int,
                    eparts_v(parts@),
                ),
            ensures
                old(self).same_stream(&*self),
                self.pos > old(self).pos,
                t == self.tokens@,
                p_exec(t, old(self).pos as int) == (
                    Ok::<SStmtKind, ParseError>(
                        SStmtKind::Exec { parts: eparts_v(parts@), swallow },
                    ),
                    self.pos as int,
                ),
            decreases self.tokens@.len() - self.pos,
        {
            proof {
                lemma_p_exec_more(t, self.pos as int, eparts_v(parts@));
            }
            match self.peek() {
                Token::ExecEnd => {
                    self.advance();
                    break ;
                },
                Token::Question => {
                    self.advance();
                    swallow = true;
                    break ;
                },
                Token::ExecWord(w) => {
                    let w = w.clone();
                    self.advance();
                    let part = ExecPart::Word(w);
                    proof {
                        assert(eparts_v(parts@.push(part)) =~= eparts_v(parts@).push(epart_v(part)));
                    }
                    parts.push(part);
                },
                Token::ExecOpen => {
                    self.advance();
                    let expr = self.parse_expr()?;
                    self.expect(&Token::ExecClose, "'}'")?;
                    let part = ExecPart::Interp(expr);
                    proof {
                        assert(eparts_v(parts@.push(part)) =~= eparts_v(parts@).push(epart_v(part)));
                    }
                    parts.push(part);
                },
                Token::Eof | Token::Newline => {
                    break ;
                },
                other => {
                    let got = other.duplicate();
                    return Err(
                        ParseError::Unexpected {
                            got,
                            span: self.span(),
                            msg: "unexpected token in exec line",
                        },
                    );
                },
            }
        }

        Ok(StmtKind::Exec { parts, swallow })
    }

    fn parse_exit(&mut self) -> (r: PResult<StmtKind>)
        requires
            old(self).wf(),
            old(self).current() is Exit,
        ensures
            old(self).same_stream(&*final(self)),
            final(self).pos > old(self).pos,
            (kres_v(r), final(self).pos as int) == p_exit(old(self).tokens@, old(self).pos as int),
    {
        self.advance();
        let code = if matches!(self.peek(), Token::Newline | Token::Eof) {
            None
        } else {
            Some(self.parse_expr()?)
        };
        self.expect_newline_or_eof()?;
        Ok(StmtKind::Exit { code })
    }

    fn parse_block(&mut self) -> (r: PResult<Vec<Stmt>>)
        requires
            old(self).wf(),
        ensures
            old(self).same_stream(&*final(self)),
            r is Ok ==> final(self).pos > old(self).pos,
            (bres_v(r), final(self).pos as int) == p_block(old(self).tokens@, old(self).pos as int),
        decreases old(self).tokens@.len() - old(self).pos, 27nat,
    {
        let ghost t = self.tokens@;
        proof {
            lemma_p_block(t, self.pos as int);
        }
        self.skip_newlines();
        self.expect(&Token::LBrace, "'{'")?;
        let mut stmts = Vec::new();
        loop
            invariant_except_break
                old(self).same_stream(&*self),
                self.pos > old(self).pos,
                t == self.tokens@,
                p_block(t, old(self).pos as int) == p_block_more(t, self.pos as int, stmts_v(stmts@)),
            ensures
                old(self).same_stream(&*self),
                self.pos > old(self).pos,
                t == self.tokens@,
                p_block(t, old(self).pos as int) == if t[self.pos as int].token is RBrace {
                    (Ok(stmts_v(stmts@)), nxt(t, self.pos as int))
                } else {
                    (Err(expected(t, self.pos as int, "'}'")), self.pos as int)
                },
            decreases self.tokens@.len() - self.pos,
        {
            proof {
                lemma_p_block_more(t, self.pos as int, stmts_v(stmts@));
            }
            self.skip_newlines();
            if matches!(self.peek(), Token::RBrace) || self.at_eof() {
                break ;
            }
            let st = self.parse_stmt()?;
            proof {
                lemma_stmts_v_push(stmts@, st);
            }
            stmts.push(st);
        }
        self.expect(&Token::RBrace, "'}'")?;
        Ok(stmts)
    }

    fn parse_params(&mut self) -> (r: PResult<Vec<Param>>)
        requires
            old(self).wf(),
        ensures
            old(self).same_stream(&*final(self)),
            r is Ok ==> final(self).pos > old(self).pos,
            (pres_v(r), final(self).pos as int) == p_params(old(self).tokens@, old(self).pos as int),
    {
        let ghost t = self.tokens@;
        self.expect(&Token::LParen, "'('")?;
        let mut params: Vec<Param> = Vec::new();
        proof {
            assert(params_v(params@) =~= seq![]);
        }
        loop
            invariant_except_break
                old(self).same_stream(&*self),
                self.pos > old(self).pos,
                t == self.tokens@,
                p_params(t, old(self).pos as int) == p_params_more(
                    t,
                    self.pos as int,
                    params_v(params@),
                ),
            ensures
                old(self).same_stream(&*self),
                self.pos > old(self).pos,
                t == self.tokens@,
                p_params(t, old(self).pos as int) == if t[self.pos as int].token is RParen {
                    (Ok(params_v(params@)), nxt(t, self.pos as int))
                } else {
                    (Err(expected(t, self.pos as int, "')'")), self.pos as int)
                },
            decreases self.tokens@.len() - self.pos,
        {
            proof {
                lemma_p_params_more(t, self.pos as int, params_v(params@));
            }
            self.skip_newlines();
            if matches!(self.peek(), Token::RParen) {
                break ;
            }
            let start = self.span();
            let (name, _) = self.expect_ident()?;
            self.expect(&Token::Colon, "':'")?;
            let ty = self.parse_type_ann()?;
            let param = Param { name, ty, span: start.merge(self.span()) };
            proof {
                assert(params_v(params@.push(param)) =~= params_v(params@).push(param_v(param)));
            }
            params.push(param);
            self.skip_newlines();
            if !self.eat(&Token::Comma) {
                break ;
            }
        }
        self.expect(&Token::RParen, "')'")?;
        Ok(params)
    }

    /// A type annotation: one of the type names.
    fn parse_type_ann(&mut self) -> (r: PResult<TypeAnn>)
        requires
            old(self).wf(),
        ensures
            old(self).same_stream(&*final(self)),
            (r, final(self).pos as int) == p_type_ann(old(self).tokens@, old(self).pos as int),
    {
        let (name, span) = self.expect_ident()?;
        let n = name.as_str();
        let nb = n.as_bytes();
        let r = if crate::token::bytes_equal(nb, &[115u8, 116u8, 114u8, 105u8, 110u8, 103u8]) {
            Ok(TypeAnn::String)
        } else if crate::token::bytes_equal(nb, &[105u8, 110u8, 116u8]) {
            Ok(TypeAnn::Int)
        } else if crate::token::bytes_equal(nb, &[102u8, 108u8, 111u8, 97u8, 116u8]) {
            Ok(TypeAnn::Float)
        } else if crate::token::bytes_equal(nb, &[98u8, 111u8, 111u8, 108u8]) {
            Ok(TypeAnn::Bool)
        } else if crate::token::bytes_equal(nb, &[108u8, 105u8, 115u8, 116u8]) {
            Ok(TypeAnn::List)
        } else if crate::token::bytes_equal(nb, &[109u8, 97u8, 112u8]) {
            Ok(TypeAnn::Dict)
        } else if crate::token::bytes_equal(nb, &[97u8, 110u8, 121u8]) {
            Ok(TypeAnn::Any)
        } else {
            Err(ParseError::Invalid { span, msg: "unknown type" })
        };
        r
    }
}

/// The value of a parse result that holds an expression.
pub open spec fn res_v(r: PResult<Expr>) -> Result<SExpr, ParseError> {
    match r {
        Ok(e) => Ok(e@),
        Err(x) => Err(x),
    }
}

/// The value of a parse result that holds a list of expressions.
pub open spec fn ress_v(r: PResult<Vec<Expr>>) -> Result<Seq<SExpr>, ParseError> {
    match r {
        Ok(v) => Ok(exprs_v(v@)),
        Err(x) => Err(x),
    }
}

/// The values of the expressions after one more was added.
pub proof fn lemma_exprs_v_push(s: Seq<Expr>, e: Expr)
    ensures
        exprs_v(s.push(e)) == exprs_v(s).push(e@),
{
    assert(s.push(e).drop_last() =~= s);
}

/// The values of the f-string parts after one more was added.
pub proof fn lemma_fparts_v_push(s: Seq<FStrPart>, p: FStrPart)
    ensures
        fparts_v(s.push(p)) == fparts_v(s).push(
            match p {
                FStrPart::Text(x) => SFStrPart::Text(x@),
                FStrPart::Interp(e) => SFStrPart::Interp(e@),
            },
        ),
{
    assert(s.push(p).drop_last() =~= s);
}

/// The values of the map entries after one more was added.
pub proof fn lemma_entries_v_push(s: Seq<(String, Expr)>, k: String, v: Expr)
    ensures
        entries_v(s.push((k, v))) == entries_v(s).push((k@, v@)),
{
    assert(s.push((k, v)).drop_last() =~= s);
}

impl Parser {
    fn parse_expr(&mut self) -> (r: PResult<Expr>)
        requires
            old(self).wf(),
        ensures
            old(self).same_stream(&*final(self)),
            r is Ok ==> final(self).pos > old(self).pos,
            (res_v(r), final(self).pos as int) == p_expr(old(self).tokens@, old(self).pos as int),
        decreases old(self).tokens@.len() - old(self).pos, 20nat,
    {
        proof {
            lemma_p_expr(self.tokens@, self.pos as int);
        }
        self.parse_or()
    }

    /// `a or b or …`, grouped to the left.
    fn parse_or(&mut self) -> (r: PResult<Expr>)
        requires
            old(self).wf(),
        ensures
            old(self).same_stream(&*final(self)),
            r is Ok ==> final(self).pos > old(self).pos,
            (res_v(r), final(self).pos as int) == p_or(old(self).tokens@, old(self).pos as int),
        decreases old(self).tokens@.len() - old(self).pos, 19nat,
    {
        let ghost t = self.tokens@;
        proof {
            lemma_p_or(t, self.pos as int);
        }
        let mut left = self.parse_and()?;
        loop
            invariant_except_break
                old(self).same_stream(&*self),
                self.pos > old(self).pos,
                t == self.tokens@,
                p_or(t, old(self).pos as int) == p_or_more(t, self.pos as int, left@),
            ensures
                old(self).same_stream(&*self),
                self.pos > old(self).pos,
                p_or(t, old(self).pos as int) == (Ok::<SExpr, ParseError>(left@), self.pos as int),
            decreases self.tokens@.len() - self.pos,
        {
            proof {
                lemma_p_or_more(t, self.pos as int, left@);
            }
            if !self.eat(&Token::Or) {
                break ;
            }
            let right = self.parse_and()?;
            let span = left.span.merge(right.span);
            left = Expr { kind: ExprKind::Or { left: Box::new(left), right: Box::new(right) }, span };
        }
        Ok(left)
    }

    /// `a and b and …`, grouped to the left.
    fn parse_and(&mut self) -> (r: PResult<Expr>)
        requires
            old(self).wf(),
        ensures
            old(self).same_stream(&*final(self)),
            r is Ok ==> final(self).pos > old(self).pos,
            (res_v(r), final(self).pos as int) == p_and(old(self).tokens@, old(self).pos as int),
        decreases old(self).tokens@.len() - old(self).pos, 18nat,
    {
        let ghost t = self.tokens@;
        proof {
            lemma_p_and(t, self.pos as int);
        }
        let mut left = self.parse_not()?;
        loop
            invariant_except_break
                old(self).same_stream(&*self),
                self.pos > old(self).pos,
                t == self.tokens@,
                p_and(t, old(self).pos as int) == p_and_more(t, self.pos as int, left@),
            ensures
                old(self).same_stream(&*self),
                self.pos > old(self).pos,
                p_and(t, old(self).pos as int) == (Ok::<SExpr, ParseError>(left@), self.pos as int),
            decreases self.tokens@.len() - self.pos,
        {
            proof {
                lemma_p_and_more(t, self.pos as int, left@);
            }
            if !self.eat(&Token::And) {
                break ;
            }
            let right = self.parse_not()?;
            let span = left.span.merge(right.span);
            left = Expr {
                kind: ExprKind::BinOp { op: BinOp::And, left: Box::new(left), right: Box::new(right) },
                span,
            };
        }
        Ok(left)
    }

    /// `not x`, or a comparison.
    fn parse_not(&mut self) -> (r: PResult<Expr>)
        requires
            old(self).wf(),
        ensures
            old(self).same_stream(&*final(self)),
            r is Ok ==> final(self).pos > old(self).pos,
            (res_v(r), final(self).pos as int) == p_not(old(self).tokens@, old(self).pos as int),
        decreases old(self).tokens@.len() - old(self).pos, 17nat,
    {
        proof {
            lemma_p_not(self.tokens@, self.pos as int);
        }
        if self.eat(&Token::Not) {
            let start = self.span();
            let operand = self.parse_not()?;
            Ok(
                Expr {
                    span: start.merge(operand.span),
                    kind: ExprKind::UnaryOp { op: UnaryOp::Not, operand: Box::new(operand) },
                },
            )
        } else {
            self.parse_comparison()
        }
    }

    /// The comparison operator that the token `t` stands for, if any.
    fn comparison_op(t: &Token) -> (r: Option<BinOp>)
        ensures
            r == cmp_op(*t),
    {
        match t {
            Token::EqEq => Some(BinOp::Eq),
            Token::BangEq => Some(BinOp::NotEq),
            Token::Lt => Some(BinOp::Lt),
            Token::LtEq => Some(BinOp::LtEq),
            Token::Gt => Some(BinOp::Gt),
            Token::GtEq => Some(BinOp::GtEq),
            _ => None,
        }
    }

    /// `a == b`, `a < b`, …, grouped to the left.
    fn parse_comparison(&mut self) -> (r: PResult<Expr>)
        requires
            old(self).wf(),
        ensures
            old(self).same_stream(&*final(self)),
            r is Ok ==> final(self).pos > old(self).pos,
            (res_v(r), final(self).pos as int) == p_comparison(
                old(self).tokens@,
                old(self).pos as int,
            ),
        decreases old(self).tokens@.len() - old(self).pos, 16nat,
    {
        let ghost t = self.tokens@;
        proof {
            lemma_p_comparison(t, self.pos as int);
        }
        let mut left = self.parse_additive()?;
        loop
            invariant_except_break
                old(self).same_stream(&*self),
                self.pos > old(self).pos,
                t == self.tokens@,
                p_comparison(t, old(self).pos as int) == p_comparison_more(
                    t,
                    self.pos as int,
                    left@,
                ),
            ensures
                old(self).same_stream(&*self),
                self.pos > old(self).pos,
                p_comparison(t, old(self).pos as int) == (Ok::<SExpr, ParseError>(left@), self.pos as int),
            decreases self.tokens@.len() - self.pos,
        {
            proof {
                lemma_p_comparison_more(t, self.pos as int, left@);
            }
            let op = match Self::comparison_op(self.peek()) {
                Some(op) => op,
                None => {
                    break ;
                },
            };
            self.advance();
            let right = self.parse_additive()?;
            left = Expr {
                span: left.span.merge(right.span),
                kind: ExprKind::BinOp { op, left: Box::new(left), right: Box::new(right) },
            };
        }
        Ok(left)
    }

    /// `a + b`, `a - b`, grouped to the left.
    fn parse_additive(&mut self) -> (r: PResult<Expr>)
        requires
            old(self).wf(),
        ensures
            old(self).same_stream(&*final(self)),
            r is Ok ==> final(self).pos > old(self).pos,
            (res_v(r), final(self).pos as int) == p_additive(
                old(self).tokens@,
                old(self).pos as int,
            ),
        decreases old(self).tokens@.len() - old(self).pos, 15nat,
    {
        let ghost t = self.tokens@;
        proof {
            lemma_p_additive(t, self.pos as int);
        }
        let mut left = self.parse_multiplicative()?;
        loop
            invariant_except_break
                old(self).same_stream(&*self),
                self.pos > old(self).pos,
                t == self.tokens@,
                p_additive(t, old(self).pos as int) == p_additive_more(t, self.pos as int, left@),
            ensures
                old(self).same_stream(&*self),
                self.pos > old(self).pos,
                p_additive(t, old(self).pos as int) == (Ok::<SExpr, ParseError>(left@), self.pos as int),
            decreases self.tokens@.len() - self.pos,
        {
            proof {
                lemma_p_additive_more(t, self.pos as int, left@);
            }
            let op = match self.peek() {
                Token::Plus => BinOp::Add,
                Token::Minus => BinOp::Sub,
                _ => {
                    break ;
                },
            };
            self.advance();
            let right = self.parse_multiplicative()?;
            left = Expr {
                span: left.span.merge(right.span),
                kind: ExprKind::BinOp { op, left: Box::new(left), right: Box::new(right) },
            };
        }
        Ok(left)
    }

    /// `a * b`, `a / b`, `a % b`, grouped to the left.
    fn parse_multiplicative(&mut self) -> (r: PResult<Expr>)
        requires
            old(self).wf(),
        ensures
            old(self).same_stream(&*final(self)),
            r is Ok ==> final(self).pos > old(self).pos,
            (res_v(r), final(self).pos as int) == p_multiplicative(
                old(self).tokens@,
                old(self).pos as int,
            ),
        decreases old(self).tokens@.len() - old(self).pos, 14nat,
    {
        let ghost t = self.tokens@;
        proof {
            lemma_p_multiplicative(t, self.pos as int);
        }
        let mut left = self.parse_unary()?;
        loop
            invariant_except_break
                old(self).same_stream(&*self),
                self.pos > old(self).pos,
                t == self.tokens@,
                p_multiplicative(t, old(self).pos as int) == p_multiplicative_more(
                    t,
                    self.pos as int,
                    left@,
                ),
            ensures
                old(self).same_stream(&*self),
                self.pos > old(self).pos,
                p_multiplicative(t, old(self).pos as int) == (Ok::<SExpr, ParseError>(left@), self.pos as int),
            decreases self.tokens@.len() - self.pos,
        {
            proof {
                lemma_p_multiplicative_more(t, self.pos as int, left@);
            }
            let op = match self.peek() {
                Token::Star => BinOp::Mul,
                Token::Slash => BinOp::Div,
                Token::Percent => BinOp::Mod,
                _ => {
                    break ;
                },
            };
            self.advance();
            let right = self.parse_unary()?;
            left = Expr {
                span: left.span.merge(right.span),
                kind: ExprKind::BinOp { op, left: Box::new(left), right: Box::new(right) },
            };
        }
        Ok(left)
    }

    /// `-x`, or a postfix expression.
    fn parse_unary(&mut self) -> (r: PResult<Expr>)
        requires
            old(self).wf(),
        ensures
            old(self).same_stream(&*final(self)),
            r is Ok ==> final(self).pos > old(self).pos,
            (res_v(r), final(self).pos as int) == p_unary(old(self).tokens@, old(self).pos as int),
        decreases old(self).tokens@.len() - old(self).pos, 13nat,
    {
        proof {
            lemma_p_unary(self.tokens@, self.pos as int);
        }
        if self.eat(&Token::Minus) {
            let start = self.span();
            let operand = self.parse_unary()?;
            Ok(
                Expr {
                    span: start.merge(operand.span),
                    kind: ExprKind::UnaryOp { op: UnaryOp::Neg, operand: Box::new(operand) },
                },
            )
        } else {
            self.parse_postfix()
        }
    }

    /// A primary expression followed by field reads, method calls, indexing, calls and
    /// ranges.
    fn parse_postfix(&mut self) -> (r: PResult<Expr>)
        requires
            old(self).wf(),
        ensures
            old(self).same_stream(&*final(self)),
            r is Ok ==> final(self).pos > old(self).pos,
            (res_v(r), final(self).pos as int) == p_postfix(
                old(self).tokens@,
                old(self).pos as int,
            ),
        decreases old(self).tokens@.len() - old(self).pos, 12nat,
    {
        let ghost t = self.tokens@;
        proof {
            lemma_p_postfix(t, self.pos as int);
        }
        let mut expr = self.parse_primary()?;
        loop
            invariant_except_break
                old(self).same_stream(&*self),
                self.pos > old(self).pos,
                t == self.tokens@,
                p_postfix(t, old(self).pos as int) == p_postfix_more(t, self.pos as int, expr@),
            ensures
                old(self).same_stream(&*self),
                self.pos > old(self).pos,
                p_postfix(t, old(self).pos as int) == (Ok::<SExpr, ParseError>(expr@), self.pos as int),
            decreases self.tokens@.len() - self.pos,
        {
            proof {
                lemma_p_postfix_more(t, self.pos as int, expr@);
            }
            match self.peek() {
                Token::Dot => {
                    self.advance();
                    let (field, field_span) = self.expect_ident()?;
                    if matches!(self.peek(), Token::LParen) {
                        let args = self.parse_args()?;
                        expr = Expr {
                            span: expr.span.merge(self.span()),
                            kind: ExprKind::MethodCall { object: Box::new(expr), method: field, args },
                        };
                    } else {
                        expr = Expr {
                            span: expr.span.merge(field_span),
                            kind: ExprKind::Field { object: Box::new(expr), field },
                        };
                    }
                },
                Token::LBracket => {
                    self.advance();
                    let index = self.parse_expr()?;
                    let end_span = self.expect(&Token::RBracket, "']'")?;
                    expr = Expr {
                        span: expr.span.merge(end_span),
                        kind: ExprKind::Index { object: Box::new(expr), index: Box::new(index) },
                    };
                },
                Token::LParen => {
                    let args = self.parse_args()?;
                    expr = Expr {
                        span: expr.span.merge(self.span()),
                        kind: ExprKind::Call { callee: Box::new(expr), args },
                    };
                },
                Token::DotDot => {
                    self.advance();
                    let end = self.parse_primary()?;
                    expr = Expr {
                        span: expr.span.merge(end.span),
                        kind: ExprKind::Range { start: Box::new(expr), end: Box::new(end) },
                    };
                },
                _ => {
                    break ;
                },
            }
        }
        Ok(expr)
    }

    /// `(a, b, …)`: arguments in parentheses, with newlines allowed around them.
    fn parse_args(&mut self) -> (r: PResult<Vec<Expr>>)
        requires
            old(self).wf(),
        ensures
            old(self).same_stream(&*final(self)),
            r is Ok ==> final(self).pos > old(self).pos,
            (ress_v(r), final(self).pos as int) == p_args(old(self).tokens@, old(self).pos as int),
        decreases old(self).tokens@.len() - old(self).pos, 10nat,
    {
        let ghost t = self.tokens@;
        proof {
            lemma_p_args(t, self.pos as int);
        }
        self.expect(&Token::LParen, "'('")?;
        let mut args = Vec::new();
        loop
            invariant_except_break
                old(self).same_stream(&*self),
                self.pos > old(self).pos,
                t == self.tokens@,
                p_args(t, old(self).pos as int) == p_args_more(
                    t,
                    self.pos as int,
                    exprs_v(args@),
                ),
            ensures
                old(self).same_stream(&*self),
                self.pos > old(self).pos,
                t == self.tokens@,
                p_args(t, old(self).pos as int) == if t[self.pos as int].token is RParen {
                    (Ok(exprs_v(args@)), nxt(t, self.pos as int))
                } else {
                    (Err(expected(t, self.pos as int, "')'")), self.pos as int)
                },
            decreases self.tokens@.len() - self.pos,
        {
            proof {
                lemma_p_args_more(t, self.pos as int, exprs_v(args@));
            }
            self.skip_newlines();
            if matches!(self.peek(), Token::RParen) {
                break ;
            }
            let a = self.parse_expr()?;
            proof {
                lemma_exprs_v_push(args@, a);
            }
            args.push(a);
            self.skip_newlines();
            if !self.eat(&Token::Comma) {
                break ;
            }
        }
        self.expect(&Token::RParen, "')'")?;
        Ok(args)
    }

    fn parse_primary(&mut self) -> (r: PResult<Expr>)
        requires
            old(self).wf(),
        ensures
            old(self).same_stream(&*final(self)),
            r is Ok ==> final(self).pos > old(self).pos,
            (res_v(r), final(self).pos as int) == p_primary(
                old(self).tokens@,
                old(self).pos as int,
            ),
        decreases old(self).tokens@.len() - old(self).pos, 11nat,
    {
        proof {
            lemma_p_primary(self.tokens@, self.pos as int);
        }
        let start = self.span();
        match self.peek() {
            Token::Int(n) => {
                let n = *n;
                self.advance();
                Ok(Expr { kind: ExprKind::Int(n), span: start })
            },
            Token::Float(f) => {
                let f = f.clone();
                self.advance();
                Ok(Expr { kind: ExprKind::Float(f), span: start })
            },
            Token::Str(s) => {
                let s = s.clone();
                self.advance();
                Ok(Expr { kind: ExprKind::Str(s), span: start })
            },
            Token::True => {
                self.advance();
                Ok(Expr { kind: ExprKind::Bool(true), span: start })
            },
            Token::False => {
                self.advance();
                Ok(Expr { kind: ExprKind::Bool(false), span: start })
            },
            Token::FStrStart => self.parse_fstr(),
            Token::Ident(name) => {
                let name = name.clone();
                self.advance();
                Ok(Expr { kind: ExprKind::Ident(name), span: start })
            },
            Token::LParen => {
                self.advance();
                let inner = self.parse_expr()?;
                self.expect(&Token::RParen, "')'")?;
                Ok(inner)
            },
            Token::LBracket => self.parse_list(),
            Token::LBrace => self.parse_map(),
            other => {
                let got = other.duplicate();
                Err(ParseError::Unexpected { got, span: start, msg: "expected an expression" })
            },
        }
    }

    /// `f"…"`: text runs and `{expr}` parts up to the closing quote.
    fn parse_fstr(&mut self) -> (r: PResult<Expr>)
        requires
            old(self).wf(),
            old(self).current() is FStrStart,
        ensures
            old(self).same_stream(&*final(self)),
            final(self).pos > old(self).pos,
            (res_v(r), final(self).pos as int) == p_fstr(old(self).tokens@, old(self).pos as int),
        decreases old(self).tokens@.len() - old(self).pos, 10nat,
    {
        proof {
            lemma_p_fstr(self.tokens@, self.pos as int);
        }
        let ghost t = self.tokens@;
        let start = self.span();
        self.advance();
        let mut parts = Vec::new();
        loop
            invariant_except_break
                old(self).same_stream(&*self),
                self.pos > old(self).pos,
                t == self.tokens@,
                p_fstr(t, old(self).pos as int) == p_fstr_more(
                    t,
                    self.pos as int,
                    start,
                    fparts_v(parts@),
                ),
            ensures
                old(self).same_stream(&*self),
                self.pos > old(self).pos,
                t == self.tokens@,
                p_fstr(t, old(self).pos as int) == (
                    Ok::<SExpr, ParseError>(
                        SExpr {
                            kind: SExprKind::FStr(fparts_v(parts@)),
                            span: merged(start, t[self.pos as int].span),
                        },
                    ),
                    self.pos as int,
                ),
            decreases self.tokens@.len() - self.pos,
        {
            proof {
                lemma_p_fstr_more(t, self.pos as int, start, fparts_v(parts@));
            }
            match self.peek() {
                Token::FStrEnd => {
                    self.advance();
                    break ;
                },
                Token::FStrText(x) => {
                    let x = x.clone();
                    self.advance();
                    let part = FStrPart::Text(x);
                    proof {
                        lemma_fparts_v_push(parts@, part);
                    }
                    parts.push(part);
                },
                Token::FStrOpen => {
                    self.advance();
                    let e = self.parse_expr()?;
                    self.expect(&Token::FStrClose, "'}'")?;
                    let part = FStrPart::Interp(e);
                    proof {
                        lemma_fparts_v_push(parts@, part);
                    }
                    parts.push(part);
                },
                _ => {
                    break ;
                },
            }
        }
        Ok(Expr { kind: ExprKind::FStr(parts), span: start.merge(self.span()) })
    }

    /// `[a, b, …]`, with newlines allowed around the items and a comma after the last.
    fn parse_list(&mut self) -> (r: PResult<Expr>)
        requires
            old(self).wf(),
            old(self).current() is LBracket,
        ensures
            old(self).same_stream(&*final(self)),
            final(self).pos > old(self).pos,
            (res_v(r), final(self).pos as int) == p_list(old(self).tokens@, old(self).pos as int),
        decreases old(self).tokens@.len() - old(self).pos, 10nat,
    {
        proof {
            lemma_p_list(self.tokens@, self.pos as int);
        }
        let ghost t = self.tokens@;
        let start = self.span();
        self.advance();
        let mut items = Vec::new();
        loop
            invariant_except_break
                old(self).same_stream(&*self),
                self.pos > old(self).pos,
                t == self.tokens@,
                p_list(t, old(self).pos as int) == p_list_more(
                    t,
                    self.pos as int,
                    start,
                    exprs_v(items@),
                ),
            ensures
                old(self).same_stream(&*self),
                self.pos > old(self).pos,
                t == self.tokens@,
                p_list(t, old(self).pos as int) == (
                    Ok::<SExpr, ParseError>(
                        SExpr {
                            kind: SExprKind::List(exprs_v(items@)),
                            span: merged(start, t[self.pos as int].span),
                        },
                    ),
                    self.pos as int,
                ),
            decreases self.tokens@.len() - self.pos,
        {
            proof {
                lemma_p_list_more(t, self.pos as int, start, exprs_v(items@));
            }
            self.skip_newlines();
            if self.eat(&Token::RBracket) {
                break ;
            }
            let x = self.parse_expr()?;
            proof {
                lemma_exprs_v_push(items@, x);
            }
            items.push(x);
            self.skip_newlines();
            if !self.eat(&Token::Comma) {
                self.skip_newlines();
                self.expect(&Token::RBracket, "']'")?;
                break ;
            }
        }
        Ok(Expr { kind: ExprKind::List(items), span: start.merge(self.span()) })
    }

    /// `{ key: value, … }`, with newlines allowed around the entries and a comma after the
    /// last.
    fn parse_map(&mut self) -> (r: PResult<Expr>)
        requires
            old(self).wf(),
            old(self).current() is LBrace,
        ensures
            old(self).same_stream(&*final(self)),
            final(self).pos > old(self).pos,
            (res_v(r), final(self).pos as int) == p_map(old(self).tokens@, old(self).pos as int),
        decreases old(self).tokens@.len() - old(self).pos, 10nat,
    {
        proof {
            lemma_p_map(self.tokens@, self.pos as int);
        }
        let ghost t = self.tokens@;
        let start = self.span();
        self.advance();
        let mut entries = Vec::new();
        loop
            invariant_except_break
                old(self).same_stream(&*self),
                self.pos > old(self).pos,
                t == self.tokens@,
                p_map(t, old(self).pos as int) == p_map_more(
                    t,
                    self.pos as int,
                    start,
                    entries_v(entries@),
                ),
            ensures
                old(self).same_stream(&*self),
                self.pos > old(self).pos,
                t == self.tokens@,
                p_map(t, old(self).pos as int) == (
                    Ok::<SExpr, ParseError>(
                        SExpr {
                            kind: SExprKind::Dict(entries_v(entries@)),
                            span: merged(start, t[self.pos as int].span),
                        },
                    ),
                    self.pos as int,
                ),
            decreases self.tokens@.len() - self.pos,
        {
            proof {
                lemma_p_map_more(t, self.pos as int, start, entries_v(entries@));
            }
            self.skip_newlines();
            if self.eat(&Token::RBrace) {
                break ;
            }
            let (key, _) = self.expect_ident()?;
            self.expect(&Token::Colon, "':'")?;
            let value = self.parse_expr()?;
            proof {
                lemma_entries_v_push(entries@, key, value);
            }
            entries.push((key, value));
            self.skip_newlines();
            if !self.eat(&Token::Comma) {
                self.skip_newlines();
                self.expect(&Token::RBrace, "'}'")?;
                break ;
            }
        }
        Ok(Expr { kind: ExprKind::Dict(entries), span: start.merge(self.span()) })
    }
}

} // verus!
