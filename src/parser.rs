use vstd::prelude::*;

use crate::error::{Error, ErrorKind};
use crate::lexer::{error_at, lemma_scan_bounds, scan, Lexer, Ops, Scan, Token, TokenView};

verus! {

/// A node of the syntax tree; every node owns its children.
#[derive(Debug, PartialEq, Eq)]
pub enum AstNode {
    BinOp { left: Box<AstNode>, op: Ops, right: Box<AstNode> },
    UnOp { op: Ops, operand: Box<AstNode> },
    Number(i32),
}

/// An entry of the parser's stack of pending operators.
#[derive(Debug, Clone, Copy, PartialEq, Eq, Structural)]
pub enum PendingOp {
    /// A sign in front of an operand.
    Unary(Ops),
    /// An operator between two operands.
    Binary(Ops),
    /// An open parenthesis, with the number of operands below it: the bound
    /// of what a closing one reduces, and of the operands that the operators
    /// above it may take.
    OpenParen(usize),
}

/// How tightly an operator binds: unary signs 3, `^` 4, `*` and `/` 2,
/// binary `+` and `-` 1.
pub open spec fn precedence_of(p: PendingOp) -> nat {
    match p {
        PendingOp::Unary(_) => 3,
        PendingOp::Binary(Ops::Pow) => 4,
        PendingOp::Binary(Ops::Mul) => 2,
        PendingOp::Binary(Ops::Div) => 2,
        PendingOp::Binary(Ops::Add) => 1,
        PendingOp::Binary(Ops::Sub) => 1,
        PendingOp::OpenParen(_) => 0,
    }
}

/// Whether the pending operator `top` is reduced before `incoming` is pushed:
/// it binds tighter, or as tightly and is not the right-associative `^`.
pub open spec fn reduces_before(top: PendingOp, incoming: PendingOp) -> bool {
    &&& !(top is OpenParen)
    &&& (precedence_of(top) > precedence_of(incoming) || (precedence_of(top) == precedence_of(
        incoming,
    ) && top != PendingOp::Binary(Ops::Pow)))
}

/// The number of operands below the nearest pending open parenthesis, or 0
/// where none is pending: the operators above it may not take those.
pub open spec fn floor_of(pending: Seq<PendingOp>) -> int
    decreases pending.len(),
{
    if pending.len() == 0 {
        0
    } else if pending.last() is OpenParen {
        pending.last()->OpenParen_0 as int
    } else {
        floor_of(pending.drop_last())
    }
}

/// No parenthesis bounds the operands below zero.
pub proof fn lemma_floor_nonnegative(pending: Seq<PendingOp>)
    ensures
        floor_of(pending) >= 0,
    decreases pending.len(),
{
    if pending.len() > 0 && !(pending.last() is OpenParen) {
        lemma_floor_nonnegative(pending.drop_last());
    }
}

/// Attaches the operator `p` to the operands on top of `nodes`: one for a
/// sign, two for a binary operator (the topmost being the right one). The
/// first `floor` operands are out of its reach.
pub open spec fn apply(p: PendingOp, nodes: Seq<AstNode>, floor: int) -> Option<Seq<AstNode>> {
    match p {
        PendingOp::Unary(op) => if nodes.len() >= floor + 1 {
            Some(nodes.drop_last().push(AstNode::UnOp { op, operand: Box::new(nodes.last()) }))
        } else {
            None
        },
        PendingOp::Binary(op) => if nodes.len() >= floor + 2 {
            Some(
                nodes.subrange(0, nodes.len() - 2).push(
                    AstNode::BinOp {
                        left: Box::new(nodes[nodes.len() - 2]),
                        op,
                        right: Box::new(nodes[nodes.len() - 1]),
                    },
                ),
            )
        } else {
            None
        },
        PendingOp::OpenParen(_) => None,
    }
}

/// Pushes `incoming` after reducing every pending operator on top that
/// `reduces_before` it; `None` where an operator lacks operands.
pub open spec fn shunt(nodes: Seq<AstNode>, pending: Seq<PendingOp>, incoming: PendingOp) -> Option<
    (Seq<AstNode>, Seq<PendingOp>),
>
    decreases pending.len(),
{
    if pending.len() > 0 && reduces_before(pending.last(), incoming) {
        match apply(pending.last(), nodes, floor_of(pending)) {
            Some(reduced) => shunt(reduced, pending.drop_last(), incoming),
            None => None,
        }
    } else {
        Some((nodes, pending.push(incoming)))
    }
}

/// `shunt`, after checking that a unary operator is a sign.
pub open spec fn shunt_checked(
    nodes: Seq<AstNode>,
    pending: Seq<PendingOp>,
    incoming: PendingOp,
) -> Result<(Seq<AstNode>, Seq<PendingOp>), ErrorKind> {
    if incoming is Unary && !(incoming->Unary_0 == Ops::Add || incoming->Unary_0 == Ops::Sub) {
        Err(ErrorKind::InvalidUnaryOperator)
    } else {
        match shunt(nodes, pending, incoming) {
            Some(r) => Ok(r),
            None => Err(ErrorKind::MissingOperand),
        }
    }
}

/// Reduces the pending operators down to the nearest open parenthesis and
/// removes it; exactly one operand must then stand above it.
pub open spec fn close(nodes: Seq<AstNode>, pending: Seq<PendingOp>) -> Result<
    (Seq<AstNode>, Seq<PendingOp>),
    ErrorKind,
>
    decreases pending.len(),
{
    if pending.len() == 0 {
        Err(ErrorKind::MismatchedParen)
    } else if pending.last() is OpenParen {
        if nodes.len() == pending.last()->OpenParen_0 + 1 {
            Ok((nodes, pending.drop_last()))
        } else {
            Err(ErrorKind::UnexpectedToken)
        }
    } else {
        match apply(pending.last(), nodes, floor_of(pending)) {
            Some(reduced) => close(reduced, pending.drop_last()),
            None => Err(ErrorKind::MissingOperand),
        }
    }
}

/// Reduces every pending operator; exactly one node must then be left.
pub open spec fn finish(nodes: Seq<AstNode>, pending: Seq<PendingOp>) -> Result<AstNode, ErrorKind>
    decreases pending.len(),
{
    if pending.len() == 0 {
        if nodes.len() == 1 {
            Ok(nodes[0])
        } else {
            Err(ErrorKind::UnexpectedToken)
        }
    } else if pending.last() is OpenParen {
        Err(ErrorKind::UnclosedParen)
    } else {
        match apply(pending.last(), nodes, floor_of(pending)) {
            Some(reduced) => finish(reduced, pending.drop_last()),
            None => Err(ErrorKind::MissingOperand),
        }
    }
}

/// The two stacks of the parser, and whether an operand comes next.
pub struct ShuntState {
    pub nodes: Seq<AstNode>,
    pub pending: Seq<PendingOp>,
    pub expect_operand: bool,
}

pub open spec fn start_state() -> ShuntState {
    ShuntState { nodes: Seq::empty(), pending: Seq::empty(), expect_operand: true }
}

/// What one token does to the parser's stacks.
pub enum Step {
    Next(ShuntState),
    Done(AstNode),
    Fail(ErrorKind),
}

pub open spec fn next_state(
    r: Result<(Seq<AstNode>, Seq<PendingOp>), ErrorKind>,
    expect_operand: bool,
) -> Step {
    match r {
        Ok((nodes, pending)) => Step::Next(ShuntState { nodes, pending, expect_operand }),
        Err(kind) => Step::Fail(kind),
    }
}

/// One token, taken where an operand is expected (a number, an open
/// parenthesis or a sign) or where an operator is expected (a binary
/// operator, a closing parenthesis or the end of input).
pub open spec fn step(st: ShuntState, t: TokenView) -> Step {
    if st.expect_operand {
        match t {
            TokenView::Number(n) => Step::Next(
                ShuntState {
                    nodes: st.nodes.push(AstNode::Number(n)),
                    pending: st.pending,
                    expect_operand: false,
                },
            ),
            TokenView::OpenParen => Step::Next(
                ShuntState {
                    nodes: st.nodes,
                    pending: st.pending.push(PendingOp::OpenParen(st.nodes.len() as usize)),
                    expect_operand: true,
                },
            ),
            TokenView::Operator(op) => next_state(
                shunt_checked(st.nodes, st.pending, PendingOp::Unary(op)),
                true,
            ),
            _ => Step::Fail(ErrorKind::UnexpectedToken),
        }
    } else {
        match t {
            TokenView::Operator(op) => next_state(
                shunt_checked(st.nodes, st.pending, PendingOp::Binary(op)),
                true,
            ),
            TokenView::CloseParen => next_state(close(st.nodes, st.pending), false),
            TokenView::EOF => match finish(st.nodes, st.pending) {
                Ok(node) => Step::Done(node),
                Err(kind) => Step::Fail(kind),
            },
            _ => Step::Fail(ErrorKind::UnexpectedToken),
        }
    }
}

/// What reading the next token finds, with the parenthesis depth after it.
pub enum Read {
    Got(TokenView, int, int),
    Fail(Error),
}

/// Scans the next token and keeps the parenthesis depth: it may never drop
/// below zero and must be zero at the end of input.
pub open spec fn read(s: Seq<char>, pos: int, depth: int) -> Read {
    match scan(s, pos) {
        Scan::Fail(kind, at) => Read::Fail(error_at(kind, s, at)),
        Scan::Token(t, e) => match t {
            TokenView::OpenParen => Read::Got(t, e, depth + 1),
            TokenView::CloseParen => if depth == 0 {
                Read::Fail(error_at(ErrorKind::MismatchedParen, s, e))
            } else {
                Read::Got(t, e, depth - 1)
            },
            TokenView::EOF => if depth > 0 {
                Read::Fail(error_at(ErrorKind::UnclosedParen, s, e))
            } else {
                Read::Got(t, e, depth)
            },
            _ => Read::Got(t, e, depth),
        },
    }
}

/// The outcome of parsing `s` from the token `cur` on, which ends at index
/// `pos`, with the given depth and stacks. An error of a step is placed at
/// the end of the token that caused it.
pub open spec fn drive(s: Seq<char>, pos: int, cur: TokenView, depth: int, st: ShuntState) -> Result<
    AstNode,
    Error,
>
    decreases 2 * (s.len() - pos) + if cur is EOF {
        0int
    } else {
        1int
    },
    when 0 <= pos <= s.len()
{
    match step(st, cur) {
        Step::Fail(kind) => Err(error_at(kind, s, pos)),
        Step::Done(node) => Ok(node),
        Step::Next(next) => match read(s, pos, depth) {
            Read::Fail(e) => Err(e),
            Read::Got(t, e, d) => {
                proof {
                    lemma_scan_bounds(s, pos);
                }
                drive(s, e, t, d, next)
            },
        },
    }
}

/// The outcome of parsing the whole of `s`.
pub open spec fn parse_spec(s: Seq<char>) -> Result<AstNode, Error> {
    match read(s, 0, 0) {
        Read::Fail(e) => Err(e),
        Read::Got(t, e, d) => drive(s, e, t, d, start_state()),
    }
}

/// A parser as a mathematical value: its input, the end of the current
/// token, the current token, the parenthesis depth and the tokens read.
pub struct ParserView {
    pub source: Seq<char>,
    pub pos: int,
    pub current: TokenView,
    pub depth: int,
    /// Every token read so far, the current one last.
    pub read: Seq<TokenView>,
}

/// Open parentheses less closing ones among `ts`.
pub open spec fn paren_balance(ts: Seq<TokenView>) -> int
    decreases ts.len(),
{
    if ts.len() == 0 {
        0
    } else {
        paren_balance(ts.drop_last()) + if ts.last() is OpenParen {
            1int
        } else if ts.last() is CloseParen {
            -1int
        } else {
            0int
        }
    }
}

/// Parses an expression with a shunting-yard algorithm that builds the tree,
/// pulling one token at a time from its lexer.
pub struct Parser<'a> {
    lexer: Lexer<'a>,
    current_token: Token,
    line: usize,
    col: usize,
    depth: usize,
    tokens_read: Ghost<Seq<TokenView>>,
}

impl<'a> View for Parser<'a> {
    type V = ParserView;

    closed spec fn view(&self) -> ParserView {
        ParserView {
            source: self.lexer.source(),
            pos: self.lexer.position(),
            current: self.current_token@,
            depth: self.depth as int,
            read: self.tokens_read@,
        }
    }
}

/// The new depth after `t`, or the error that `t` raises at the given place.
fn track_depth(depth: usize, token: &Token, line: usize, col: usize) -> (r: Result<usize, Error>)
    requires
        depth < usize::MAX,
    ensures
        match token@ {
            TokenView::OpenParen => r == Ok::<usize, Error>((depth + 1) as usize),
            TokenView::CloseParen => if depth == 0 {
                r == Err::<usize, Error>(
                    Error { kind: ErrorKind::MismatchedParen, line, column: col },
                )
            } else {
                r == Ok::<usize, Error>((depth - 1) as usize)
            },
            TokenView::EOF => if depth > 0 {
                r == Err::<usize, Error>(Error { kind: ErrorKind::UnclosedParen, line, column: col })
            } else {
                r == Ok::<usize, Error>(depth)
            },
            _ => r == Ok::<usize, Error>(depth),
        },
{
    match token {
        Token::OpenParen => Ok(depth + 1),
        Token::CloseParen => {
            if depth == 0 {
                Err(Error { kind: ErrorKind::MismatchedParen, line, column: col })
            } else {
                Ok(depth - 1)
            }
        },
        Token::EOF => {
            if depth > 0 {
                Err(Error { kind: ErrorKind::UnclosedParen, line, column: col })
            } else {
                Ok(depth)
            }
        },
        _ => Ok(depth),
    }
}

impl<'a> Parser<'a> {
    pub closed spec fn wf(&self) -> bool {
        &&& self.lexer.wf()
        &&& self.depth <= self.lexer.position()
        &&& self.depth == paren_balance(self.tokens_read@)
        &&& self.line == crate::lexer::line_at(self.lexer.source(), self.lexer.position())
        &&& self.col == crate::lexer::column_at(self.lexer.source(), self.lexer.position())
    }

    /// The line of the end of the current token.
    pub closed spec fn token_line(&self) -> int {
        self.line as int
    }

    /// The column of the end of the current token.
    pub closed spec fn token_column(&self) -> int {
        self.col as int
    }

    /// The error of the given kind, placed at the current token.
    pub open spec fn error_here(&self, kind: ErrorKind) -> Error {
        error_at(kind, self@.source, self@.pos)
    }

    /// A well-formed parser lies within its input, and its depth is the
    /// balance of the parentheses it has read.
    pub proof fn lemma_bounds(&self)
        requires
            self.wf(),
        ensures
            0 <= self@.depth <= self@.pos <= self@.source.len() < usize::MAX,
            self@.depth == paren_balance(self@.read),
    {
        self.lexer.lemma_bounds();
    }

    /// A parser of `text`, holding its first token.
    pub fn new(text: &'a str) -> (r: Result<Self, Error>)
        requires
            text@.len() < usize::MAX,
        ensures
            match read(text@, 0, 0) {
                Read::Fail(e) => r == Err::<Self, Error>(e),
                Read::Got(t, e, d) => r is Ok && r->Ok_0.wf() && r->Ok_0@ == ParserView {
                    source: text@,
                    pos: e,
                    current: t,
                    depth: d,
                    read: seq![t],
                },
            },
    {
        let mut lexer = Lexer::new(text);
        proof {
            lemma_scan_bounds(text@, 0);
        }
        let (token, line, col) = match lexer.next_token() {
            Ok(found) => found,
            Err(e) => return Err(e),
        };
        let depth = match track_depth(0, &token, line, col) {
            Ok(d) => d,
            Err(e) => return Err(e),
        };
        proof {
            lexer.lemma_bounds();
        }
        let ghost first = seq![token@];
        assert(first.drop_last() =~= Seq::<TokenView>::empty());
        assert(first.last() == token@);
        assert(paren_balance(Seq::<TokenView>::empty()) == 0);
        assert(depth == paren_balance(first));
        Ok(Parser { lexer, current_token: token, line, col, depth, tokens_read: Ghost(first) })
    }

    /// Moves to the next token, keeping the parenthesis depth.
    fn advance(&mut self) -> (r: Result<(), Error>)
        requires
            old(self).wf(),
        ensures
            match read(old(self)@.source, old(self)@.pos, old(self)@.depth) {
                Read::Fail(e) => {
                    &&& r == Err::<(), Error>(e)
                    &&& final(self)@.current == old(self)@.current
                    &&& final(self).token_line() == old(self).token_line()
                    &&& final(self).token_column() == old(self).token_column()
                },
                Read::Got(t, e, d) => r is Ok && final(self).wf() && final(self)@ == ParserView {
                    source: old(self)@.source,
                    pos: e,
                    current: t,
                    depth: d,
                    read: old(self)@.read.push(t),
                },
            },
    {
        proof {
            self.lexer.lemma_bounds();
            lemma_scan_bounds(self@.source, self@.pos);
        }
        let (token, line, col) = match self.lexer.next_token() {
            Ok(found) => found,
            Err(e) => return Err(e),
        };
        let depth = match track_depth(self.depth, &token, line, col) {
            Ok(d) => d,
            Err(e) => return Err(e),
        };
        let ghost read = self.tokens_read@.push(token@);
        assert(read.drop_last() =~= self.tokens_read@);
        self.current_token = token;
        self.line = line;
        self.col = col;
        self.depth = depth;
        self.tokens_read = Ghost(read);
        Ok(())
    }

    /// The precedence of a pending operator.
    fn precedence(op: PendingOp) -> (r: usize)
        ensures
            r == precedence_of(op),
    {
        match op {
            PendingOp::Unary(_) => 3,
            PendingOp::Binary(Ops::Pow) => 4,
            PendingOp::Binary(Ops::Mul) => 2,
            PendingOp::Binary(Ops::Div) => 2,
            PendingOp::Binary(Ops::Add) => 1,
            PendingOp::Binary(Ops::Sub) => 1,
            PendingOp::OpenParen(_) => 0,
        }
    }

    /// Whether `top` is reduced before `incoming` is pushed.
    fn reduces_first(top: PendingOp, incoming: PendingOp) -> (r: bool)
        ensures
            r == reduces_before(top, incoming),
    {
        if let PendingOp::OpenParen(_) = top {
            return false;
        }
        let p = Self::precedence(top);
        let q = Self::precedence(incoming);
        p > q || (p == q && top != PendingOp::Binary(Ops::Pow))
    }

    /// The number of operands below the nearest pending open parenthesis.
    fn floor(pending: &Vec<PendingOp>) -> (r: usize)
        ensures
            r == floor_of(pending@),
    {
        let mut i = pending.len();
        assert(pending@.subrange(0, i as int) =~= pending@);
        while i > 0
            invariant
                i <= pending.len(),
                floor_of(pending@.subrange(0, i as int)) == floor_of(pending@),
            decreases i,
        {
            assert(pending@.subrange(0, i as int).drop_last() =~= pending@.subrange(
                0,
                i - 1 as int,
            ));
            if let PendingOp::OpenParen(n) = pending[i - 1] {
                return n;
            }
            i = i - 1;
        }
        0
    }

    /// Attaches an operator to the operands on top of `nodes`, taking none of
    /// the first `floor` ones.
    fn push_op(&self, op: PendingOp, floor: usize, nodes: &mut Vec<AstNode>) -> (r: Result<
        (),
        Error,
    >)
        requires
            self.wf(),
        ensures
            match apply(op, old(nodes)@, floor as int) {
                Some(reduced) => r is Ok && final(nodes)@ == reduced,
                None => r == Err::<(), Error>(self.error_here(ErrorKind::MissingOperand)),
            },
    {
        let missing = Error { kind: ErrorKind::MissingOperand, line: self.line, column: self.col };
        match op {
            PendingOp::Unary(o) => {
                if nodes.len() <= floor {
                    return Err(missing);
                }
                let operand = match nodes.pop() {
                    Some(n) => n,
                    None => return Err(missing),
                };
                nodes.push(AstNode::UnOp { op: o, operand: Box::new(operand) });
                Ok(())
            },
            PendingOp::Binary(o) => {
                if nodes.len() < 2 || nodes.len() - 2 < floor {
                    return Err(missing);
                }
                let ghost before = nodes@;
                // Right comes before left because it is stack based
                let right = match nodes.pop() {
                    Some(n) => n,
                    None => return Err(missing),
                };
                let left = match nodes.pop() {
                    Some(n) => n,
                    None => return Err(missing),
                };
                assert(nodes@ =~= before.subrange(0, before.len() - 2));
                nodes.push(AstNode::BinOp { left: Box::new(left), op: o, right: Box::new(right) });
                Ok(())
            },
            PendingOp::OpenParen(_) => Err(missing),
        }
    }

    /// Pushes an operator after reducing the pending ones that bind tighter.
    fn shunt_op(&self, op: PendingOp, nodes: &mut Vec<AstNode>, pending: &mut Vec<PendingOp>) -> (r:
        Result<(), Error>)
        requires
            self.wf(),
        ensures
            match shunt_checked(old(nodes)@, old(pending)@, op) {
                Ok((n, p)) => r is Ok && final(nodes)@ == n && final(pending)@ == p,
                Err(kind) => r == Err::<(), Error>(self.error_here(kind)),
            },
    {
        if let PendingOp::Unary(o) = op {
            if o != Ops::Add && o != Ops::Sub {
                return Err(
                    Error {
                        kind: ErrorKind::InvalidUnaryOperator,
                        line: self.line,
                        column: self.col,
                    },
                );
            }
        }
        let ghost goal = shunt(nodes@, pending@, op);
        let floor = Self::floor(pending);
        let mut result: Result<(), Error> = Ok(());
        loop
            invariant_except_break
                shunt(nodes@, pending@, op) == goal,
                floor == floor_of(pending@),
                result is Ok,
            invariant
                self.wf(),
            ensures
                match goal {
                    Some((n, p)) => result is Ok && nodes@ == n && pending@ == p,
                    None => result == Err::<(), Error>(self.error_here(ErrorKind::MissingOperand)),
                },
            decreases pending.len(),
        {
            if pending.len() == 0 {
                pending.push(op);
                break;
            }
            let top = pending[pending.len() - 1];
            if !Self::reduces_first(top, op) {
                pending.push(op);
                break;
            }
            pending.pop();
            match self.push_op(top, floor, nodes) {
                Ok(()) => {},
                Err(e) => {
                    result = Err(e);
                    break;
                },
            }
        }
        result
    }

    /// Reduces the pending operators down to the nearest open parenthesis
    /// and removes it.
    fn close_paren(&self, nodes: &mut Vec<AstNode>, pending: &mut Vec<PendingOp>) -> (r: Result<
        (),
        Error,
    >)
        requires
            self.wf(),
        ensures
            match close(old(nodes)@, old(pending)@) {
                Ok((n, p)) => r is Ok && final(nodes)@ == n && final(pending)@ == p,
                Err(kind) => r == Err::<(), Error>(self.error_here(kind)),
            },
    {
        let ghost goal = close(nodes@, pending@);
        let floor = Self::floor(pending);
        let mut result: Result<(), Error> = Ok(());
        loop
            invariant_except_break
                close(nodes@, pending@) == goal,
                floor == floor_of(pending@),
                result is Ok,
            invariant
                self.wf(),
            ensures
                match goal {
                    Ok((n, p)) => result is Ok && nodes@ == n && pending@ == p,
                    Err(kind) => result == Err::<(), Error>(self.error_here(kind)),
                },
            decreases pending.len(),
        {
            let top = match pending.pop() {
                Some(top) => top,
                None => {
                    result = Err(
                        Error {
                            kind: ErrorKind::MismatchedParen,
                            line: self.line,
                            column: self.col,
                        },
                    );
                    break;
                },
            };
            if let PendingOp::OpenParen(n) = top {
                if nodes.len() == 0 || nodes.len() - 1 != n {
                    result = Err(
                        Error {
                            kind: ErrorKind::UnexpectedToken,
                            line: self.line,
                            column: self.col,
                        },
                    );
                }
                break;
            }
            match self.push_op(top, floor, nodes) {
                Ok(()) => {},
                Err(e) => {
                    result = Err(e);
                    break;
                },
            }
        }
        result
    }

    /// Reduces every pending operator and takes the one node left.
    fn finish(&self, nodes: &mut Vec<AstNode>, pending: &mut Vec<PendingOp>) -> (r: Result<
        AstNode,
        Error,
    >)
        requires
            self.wf(),
        ensures
            match finish(old(nodes)@, old(pending)@) {
                Ok(node) => r == Ok::<AstNode, Error>(node),
                Err(kind) => r == Err::<AstNode, Error>(self.error_here(kind)),
            },
    {
        let ghost goal = finish(nodes@, pending@);
        let floor = Self::floor(pending);
        let mut failure: Option<Error> = None;
        loop
            invariant_except_break
                finish(nodes@, pending@) == goal,
                floor == floor_of(pending@),
                failure is None,
            invariant
                self.wf(),
            ensures
                failure is None ==> pending@.len() == 0 && finish(nodes@, pending@) == goal,
                failure is Some ==> goal == Err::<AstNode, ErrorKind>(failure->Some_0.kind)
                    && failure->Some_0 == self.error_here(failure->Some_0.kind),
            decreases pending.len(),
        {
            let top = match pending.pop() {
                Some(top) => top,
                None => break,
            };
            if let PendingOp::OpenParen(_) = top {
                failure = Some(
                    Error { kind: ErrorKind::UnclosedParen, line: self.line, column: self.col },
                );
                break;
            }
            match self.push_op(top, floor, nodes) {
                Ok(()) => {},
                Err(e) => {
                    failure = Some(e);
                    break;
                },
            }
        }
        match failure {
            Some(e) => Err(e),
            None => {
                if nodes.len() == 1 {
                    match nodes.pop() {
                        Some(node) => Ok(node),
                        None => Err(
                            Error {
                                kind: ErrorKind::UnexpectedToken,
                                line: self.line,
                                column: self.col,
                            },
                        ),
                    }
                } else {
                    Err(
                        Error {
                            kind: ErrorKind::UnexpectedToken,
                            line: self.line,
                            column: self.col,
                        },
                    )
                }
            },
        }
    }

    /// Takes the current token where an operand is expected: a number, an
    /// open parenthesis or a sign. Returns whether an operand is still
    /// expected after it.
    fn parse_operand(&self, nodes: &mut Vec<AstNode>, pending: &mut Vec<PendingOp>) -> (r: Result<
        bool,
        Error,
    >)
        requires
            self.wf(),
        ensures
            match step(
                ShuntState { nodes: old(nodes)@, pending: old(pending)@, expect_operand: true },
                self@.current,
            ) {
                Step::Next(st) => r == Ok::<bool, Error>(st.expect_operand) && final(nodes)@
                    == st.nodes && final(pending)@ == st.pending,
                Step::Fail(kind) => r == Err::<bool, Error>(self.error_here(kind)),
                Step::Done(_) => false,
            },
    {
        match &self.current_token {
            Token::Number(n) => {
                nodes.push(AstNode::Number(*n));
                Ok(false)
            },
            Token::OpenParen => {
                pending.push(PendingOp::OpenParen(nodes.len()));
                Ok(true)
            },
            Token::Operator(op) => {
                match self.shunt_op(PendingOp::Unary(*op), nodes, pending) {
                    Ok(()) => Ok(true),
                    Err(e) => Err(e),
                }
            },
            _ => Err(
                Error { kind: ErrorKind::UnexpectedToken, line: self.line, column: self.col },
            ),
        }
    }

    /// Takes the current token where an operator is expected: a binary
    /// operator, a closing parenthesis or the end of input. Returns the
    /// tree once the input is complete.
    fn parse_operator(&self, nodes: &mut Vec<AstNode>, pending: &mut Vec<PendingOp>) -> (r:
        Result<Option<AstNode>, Error>)
        requires
            self.wf(),
        ensures
            match step(
                ShuntState { nodes: old(nodes)@, pending: old(pending)@, expect_operand: false },
                self@.current,
            ) {
                Step::Next(st) => r == Ok::<Option<AstNode>, Error>(None) && final(nodes)@
                    == st.nodes && final(pending)@ == st.pending && st.expect_operand == (
                self@.current is Operator),
                Step::Done(node) => r == Ok::<Option<AstNode>, Error>(Some(node)),
                Step::Fail(kind) => r == Err::<Option<AstNode>, Error>(self.error_here(kind)),
            },
    {
        match &self.current_token {
            Token::Operator(op) => {
                match self.shunt_op(PendingOp::Binary(*op), nodes, pending) {
                    Ok(()) => Ok(None),
                    Err(e) => Err(e),
                }
            },
            Token::CloseParen => {
                match self.close_paren(nodes, pending) {
                    Ok(()) => Ok(None),
                    Err(e) => Err(e),
                }
            },
            Token::EOF => {
                match self.finish(nodes, pending) {
                    Ok(node) => Ok(Some(node)),
                    Err(e) => Err(e),
                }
            },
            _ => Err(
                Error { kind: ErrorKind::UnexpectedToken, line: self.line, column: self.col },
            ),
        }
    }

    /// Parses the expression from the current token to the end of input.
    pub fn parse_expr(&mut self) -> (r: Result<AstNode, Error>)
        requires
            old(self).wf(),
        ensures
            r == drive(
                old(self)@.source,
                old(self)@.pos,
                old(self)@.current,
                old(self)@.depth,
                start_state(),
            ),
            r is Ok ==> {
                &&& final(self).wf()
                &&& final(self)@.source == old(self)@.source
                &&& final(self)@.current is EOF
            },
    {
        let ghost s = self@.source;
        let ghost goal = drive(self@.source, self@.pos, self@.current, self@.depth, start_state());
        let mut nodes: Vec<AstNode> = Vec::new();
        let mut pending: Vec<PendingOp> = Vec::new();
        let mut expect_operand = true;
        let mut result: Option<Result<AstNode, Error>> = None;
        proof {
            self.lemma_bounds();
        }
        loop
            invariant_except_break
                self.wf(),
                self@.source == s,
                drive(
                    s,
                    self@.pos,
                    self@.current,
                    self@.depth,
                    ShuntState { nodes: nodes@, pending: pending@, expect_operand },
                ) == goal,
                result is None,
            ensures
                result == Some(goal),
                goal is Ok ==> self.wf() && self@.source == s && self@.current is EOF,
            decreases 2 * (s.len() - self@.pos) + if self@.current is EOF {
                0int
            } else {
                1int
            },
        {
            proof {
                self.lemma_bounds();
                lemma_scan_bounds(s, self@.pos);
            }
            if expect_operand {
                match self.parse_operand(&mut nodes, &mut pending) {
                    Ok(more) => {
                        expect_operand = more;
                    },
                    Err(e) => {
                        result = Some(Err(e));
                        break;
                    },
                }
            } else {
                match self.parse_operator(&mut nodes, &mut pending) {
                    Ok(Some(node)) => {
                        result = Some(Ok(node));
                        break;
                    },
                    Ok(None) => {
                        expect_operand = matches!(self.current_token, Token::Operator(_));
                    },
                    Err(e) => {
                        result = Some(Err(e));
                        break;
                    },
                }
            }
            match self.advance() {
                Ok(()) => {},
                Err(e) => {
                    result = Some(Err(e));
                    break;
                },
            }
        }
        match result {
            Some(r) => r,
            None => Err(
                Error { kind: ErrorKind::UnexpectedToken, line: self.line, column: self.col },
            ),
        }
    }
}

/// Parses the whole of `text`.
pub fn parse(text: &str) -> (r: Result<AstNode, Error>)
    requires
        text@.len() < usize::MAX,
    ensures
        r == parse_spec(text@),
{
    let mut parser = match Parser::new(text) {
        Ok(p) => p,
        Err(e) => return Err(e),
    };
    parser.parse_expr()
}

/// With `outer` operands below an open parenthesis, a reduction above it
/// acts on the operands above it as it would on those alone.
proof fn lemma_apply_framed(p: PendingOp, outer: Seq<AstNode>, nodes: Seq<AstNode>)
    ensures
        apply(p, outer + nodes, outer.len() as int) == match apply(p, nodes, 0) {
            Some(r) => Some(outer + r),
            None => None::<Seq<AstNode>>,
        },
{
    let all = outer + nodes;
    let n = nodes.len();
    match p {
        PendingOp::Unary(op) => {
            if n >= 1 {
                assert(all.last() == nodes.last());
                assert(all.drop_last() =~= outer + nodes.drop_last());
                let x = AstNode::UnOp { op, operand: Box::new(nodes.last()) };
                assert(all.drop_last().push(x) =~= outer + nodes.drop_last().push(x));
            }
        },
        PendingOp::Binary(op) => {
            if n >= 2 {
                assert(all[all.len() - 2] == nodes[n - 2]);
                assert(all[all.len() - 1] == nodes[n - 1]);
                assert(all.subrange(0, all.len() - 2) =~= outer + nodes.subrange(0, n - 2));
                let x = AstNode::BinOp {
                    left: Box::new(nodes[n - 2]),
                    op,
                    right: Box::new(nodes[n - 1]),
                };
                assert(all.subrange(0, all.len() - 2).push(x) =~= outer + nodes.subrange(
                    0,
                    n - 2,
                ).push(x));
            }
        },
        PendingOp::OpenParen(_) => {},
    }
}

/// Inside the innermost parentheses an expression parses as it does alone:
/// with `outer` operands below the open parenthesis and no other parenthesis
/// pending above it, shunting an operator acts on the stacks above the
/// parenthesis as it would on those stacks alone, and closing the
/// parenthesis yields what finishing those stacks alone yields, the same
/// tree or the same error. What stands below the parenthesis is untouched.
pub proof fn lemma_parenthesised_alone(
    outer: Seq<AstNode>,
    below: Seq<PendingOp>,
    nodes: Seq<AstNode>,
    pending: Seq<PendingOp>,
    incoming: PendingOp,
)
    requires
        outer.len() <= usize::MAX,
        forall|i: int| 0 <= i < pending.len() ==> !(#[trigger] pending[i] is OpenParen),
        !(incoming is OpenParen),
    ensures
        ({
            let open = PendingOp::OpenParen(outer.len() as usize);
            let framed = below.push(open) + pending;
            &&& shunt(outer + nodes, framed, incoming) == match shunt(nodes, pending, incoming) {
                Some((n, p)) => Some((outer + n, below.push(open) + p)),
                None => None,
            }
            &&& close(outer + nodes, framed) == match finish(nodes, pending) {
                Ok(tree) => Ok((outer.push(tree), below)),
                Err(kind) => Err(kind),
            }
        }),
    decreases pending.len(),
{
    let open = PendingOp::OpenParen(outer.len() as usize);
    let framed = below.push(open) + pending;
    if pending.len() == 0 {
        assert(framed =~= below.push(open));
        assert(framed.drop_last() =~= below);
        assert(below.push(open).push(incoming) =~= below.push(open) + pending.push(incoming));
        if nodes.len() == 1 {
            assert(outer + nodes =~= outer.push(nodes[0]));
        }
    } else {
        let top = pending.last();
        let rest = pending.drop_last();
        assert(framed.last() == top);
        assert(framed.drop_last() =~= below.push(open) + rest);
        assert(!(pending[pending.len() - 1] is OpenParen));
        assert forall|i: int| 0 <= i < rest.len() implies !(#[trigger] rest[i] is OpenParen) by {
            assert(rest[i] == pending[i]);
        }
        lemma_floor_framed(below, open, pending);
        lemma_floor_unbounded(pending);
        lemma_apply_framed(top, outer, nodes);
        match apply(top, nodes, 0) {
            Some(r) => {
                lemma_parenthesised_alone(outer, below, r, rest, incoming);
            },
            None => {},
        }
        if !reduces_before(top, incoming) {
            assert(framed.push(incoming) =~= below.push(open) + pending.push(incoming));
        }
    }
}

/// Above the nearest open parenthesis, the floor is the count it holds.
proof fn lemma_floor_framed(below: Seq<PendingOp>, open: PendingOp, pending: Seq<PendingOp>)
    requires
        open is OpenParen,
        forall|i: int| 0 <= i < pending.len() ==> !(#[trigger] pending[i] is OpenParen),
    ensures
        floor_of(below.push(open) + pending) == open->OpenParen_0 as int,
    decreases pending.len(),
{
    let framed = below.push(open) + pending;
    if pending.len() == 0 {
        assert(framed =~= below.push(open));
    } else {
        assert(framed.drop_last() =~= below.push(open) + pending.drop_last());
        assert(!(pending[pending.len() - 1] is OpenParen));
        assert forall|i: int| 0 <= i < pending.drop_last().len() implies !(
        #[trigger] pending.drop_last()[i] is OpenParen) by {
            assert(pending.drop_last()[i] == pending[i]);
        }
        lemma_floor_framed(below, open, pending.drop_last());
    }
}

/// Without a pending parenthesis, every operand is within reach.
proof fn lemma_floor_unbounded(pending: Seq<PendingOp>)
    requires
        forall|i: int| 0 <= i < pending.len() ==> !(#[trigger] pending[i] is OpenParen),
    ensures
        floor_of(pending) == 0,
    decreases pending.len(),
{
    if pending.len() > 0 {
        assert(!(pending[pending.len() - 1] is OpenParen));
        assert forall|i: int| 0 <= i < pending.drop_last().len() implies !(
        #[trigger] pending.drop_last()[i] is OpenParen) by {
            assert(pending.drop_last()[i] == pending[i]);
        }
        lemma_floor_unbounded(pending.drop_last());
    }
}

/// Parsing is a function of the text alone: two parses of equal texts, in
/// any order and from any state of the program, have equal outcomes.
pub proof fn lemma_parse_reentrant(a: Seq<char>, b: Seq<char>)
    requires
        a == b,
    ensures
        parse_spec(a) == parse_spec(b),
{
}

/// Parentheses must balance: reading the next token of a well-formed parser
/// fails with `MismatchedParen` exactly when it is a closing parenthesis and
/// every parenthesis read so far is closed, and with `UnclosedParen` exactly
/// when it is the end of input and some parenthesis is still open.
pub proof fn lemma_paren_balance(p: &Parser)
    requires
        p.wf(),
    ensures
        p@.depth == paren_balance(p@.read) >= 0,
        match scan(p@.source, p@.pos) {
            Scan::Token(TokenView::CloseParen, e) => {
                &&& (read(p@.source, p@.pos, p@.depth) is Fail) == (paren_balance(p@.read) == 0)
                &&& read(p@.source, p@.pos, p@.depth) is Fail ==> read(
                    p@.source,
                    p@.pos,
                    p@.depth,
                )->Fail_0.kind == ErrorKind::MismatchedParen
            },
            Scan::Token(TokenView::EOF, e) => {
                &&& (read(p@.source, p@.pos, p@.depth) is Fail) == (paren_balance(p@.read) > 0)
                &&& read(p@.source, p@.pos, p@.depth) is Fail ==> read(
                    p@.source,
                    p@.pos,
                    p@.depth,
                )->Fail_0.kind == ErrorKind::UnclosedParen
            },
            _ => true,
        },
{
    p.lemma_bounds();
}

} // verus!
