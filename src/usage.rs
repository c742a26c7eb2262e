//! Parsing uses every token exactly once: the numbers of the tree are those
//! of the input in source order, and the tree holds one operator node for
//! each operator token.
use vstd::prelude::*;

use crate::lexer::{lemma_scan_bounds, scan, Scan, TokenView};
use crate::parser::{
    apply, close, drive, floor_of, lemma_floor_nonnegative, finish, parse_spec, read, shunt, shunt_checked, start_state, step, AstNode,
    PendingOp, Read, ShuntState, Step,
};

verus! {

/// The tokens of `s` from index `pos` on, up to and including `EOF`; the
/// sequence stops short where scanning fails.
pub open spec fn tokens_from(s: Seq<char>, pos: int) -> Seq<TokenView>
    decreases s.len() - pos,
    when 0 <= pos <= s.len()
{
    match scan(s, pos) {
        Scan::Fail(_, _) => Seq::empty(),
        Scan::Token(t, e) => if t is EOF {
            seq![t]
        } else {
            proof {
                lemma_scan_bounds(s, pos);
            }
            seq![t] + tokens_from(s, e)
        },
    }
}

/// The tokens that follow `t`, which ends at index `e`: none after `EOF`.
pub open spec fn tokens_after(s: Seq<char>, e: int, t: TokenView) -> Seq<TokenView> {
    if t is EOF {
        Seq::empty()
    } else {
        tokens_from(s, e)
    }
}

/// The values of the number tokens, in order.
pub open spec fn token_numbers(ts: Seq<TokenView>) -> Seq<i32>
    decreases ts.len(),
{
    if ts.len() == 0 {
        Seq::empty()
    } else {
        (if ts[0] is Number {
            seq![ts[0]->Number_0]
        } else {
            Seq::empty()
        }) + token_numbers(ts.drop_first())
    }
}

/// How many operator tokens there are.
pub open spec fn token_operators(ts: Seq<TokenView>) -> nat
    decreases ts.len(),
{
    if ts.len() == 0 {
        0
    } else {
        (if ts[0] is Operator {
            1nat
        } else {
            0nat
        }) + token_operators(ts.drop_first())
    }
}

/// The numbers of a tree, from left to right.
pub open spec fn leaves(n: AstNode) -> Seq<i32>
    decreases n,
{
    match n {
        AstNode::Number(v) => seq![v],
        AstNode::UnOp { operand, .. } => leaves(*operand),
        AstNode::BinOp { left, right, .. } => leaves(*left) + leaves(*right),
    }
}

/// How many operator nodes a tree holds.
pub open spec fn operator_count(n: AstNode) -> nat
    decreases n,
{
    match n {
        AstNode::Number(_) => 0,
        AstNode::UnOp { operand, .. } => 1 + operator_count(*operand),
        AstNode::BinOp { left, right, .. } => 1 + operator_count(*left) + operator_count(*right),
    }
}

/// The numbers of a stack of trees, bottom first.
pub open spec fn stack_leaves(ns: Seq<AstNode>) -> Seq<i32>
    decreases ns.len(),
{
    if ns.len() == 0 {
        Seq::empty()
    } else {
        stack_leaves(ns.drop_last()) + leaves(ns.last())
    }
}

pub open spec fn stack_operators(ns: Seq<AstNode>) -> nat
    decreases ns.len(),
{
    if ns.len() == 0 {
        0
    } else {
        stack_operators(ns.drop_last()) + operator_count(ns.last())
    }
}

/// How many pending entries are operators rather than parentheses.
pub open spec fn pending_operators(ps: Seq<PendingOp>) -> nat
    decreases ps.len(),
{
    if ps.len() == 0 {
        0
    } else {
        pending_operators(ps.drop_last()) + if ps.last() is OpenParen {
            0nat
        } else {
            1nat
        }
    }
}

/// The operators that a parser state holds, in trees or still pending.
pub open spec fn held_operators(st: ShuntState) -> nat {
    stack_operators(st.nodes) + pending_operators(st.pending)
}

proof fn lemma_one_token(t: TokenView)
    ensures
        token_numbers(seq![t]) == if t is Number {
            seq![t->Number_0]
        } else {
            Seq::<i32>::empty()
        },
        token_operators(seq![t]) == if t is Operator {
            1nat
        } else {
            0nat
        },
{
    let one = seq![t];
    assert(one.drop_first() =~= Seq::<TokenView>::empty());
    assert(token_numbers(one.drop_first()) == Seq::<i32>::empty());
    assert(token_operators(one.drop_first()) == 0);
    assert(token_numbers(one) =~= (if t is Number {
        seq![t->Number_0]
    } else {
        Seq::<i32>::empty()
    }));
}

proof fn lemma_apply(p: PendingOp, nodes: Seq<AstNode>, floor: int)
    requires
        apply(p, nodes, floor) is Some,
        floor >= 0,
    ensures
        stack_leaves(apply(p, nodes, floor)->Some_0) == stack_leaves(nodes),
        stack_operators(apply(p, nodes, floor)->Some_0) == stack_operators(nodes) + 1,
        !(p is OpenParen),
{
    let r = apply(p, nodes, floor)->Some_0;
    match p {
        PendingOp::Unary(op) => {
            let x = nodes.last();
            assert(r.drop_last() =~= nodes.drop_last());
            assert(r.last() == AstNode::UnOp { op, operand: Box::new(x) });
            assert(leaves(r.last()) == leaves(x));
            assert(operator_count(r.last()) == 1 + operator_count(x));
            assert(stack_operators(r) == stack_operators(nodes.drop_last()) + operator_count(
                r.last(),
            ));
        },
        PendingOp::Binary(op) => {
            let n = nodes.len();
            let pre = nodes.subrange(0, n - 2);
            assert(r.drop_last() =~= pre);
            assert(nodes.drop_last().drop_last() =~= pre);
            assert(nodes.drop_last().last() == nodes[n - 2]);
            let a = stack_leaves(pre);
            let b = leaves(nodes[n - 2]);
            let c = leaves(nodes[n - 1]);
            assert(a + (b + c) =~= (a + b) + c);
            assert(stack_leaves(nodes.drop_last()) == a + b);
            assert(stack_operators(nodes.drop_last()) == stack_operators(pre) + operator_count(
                nodes[n - 2],
            ));
            assert(stack_operators(r) == stack_operators(pre) + operator_count(r.last()));
        },
        PendingOp::OpenParen(_) => {},
    }
}

proof fn lemma_shunt(nodes: Seq<AstNode>, pending: Seq<PendingOp>, incoming: PendingOp)
    requires
        shunt(nodes, pending, incoming) is Some,
        !(incoming is OpenParen),
    ensures
        ({
            let (n, p) = shunt(nodes, pending, incoming)->Some_0;
            &&& stack_leaves(n) == stack_leaves(nodes)
            &&& stack_operators(n) + pending_operators(p) == stack_operators(nodes)
                + pending_operators(pending) + 1
        }),
    decreases pending.len(),
{
    if pending.len() > 0 && crate::parser::reduces_before(pending.last(), incoming) {
        lemma_floor_nonnegative(pending);
        lemma_apply(pending.last(), nodes, floor_of(pending));
        lemma_shunt(apply(pending.last(), nodes, floor_of(pending))->Some_0, pending.drop_last(), incoming);
    } else {
        assert(pending.push(incoming).drop_last() =~= pending);
    }
}

proof fn lemma_close(nodes: Seq<AstNode>, pending: Seq<PendingOp>)
    requires
        close(nodes, pending) is Ok,
    ensures
        ({
            let (n, p) = close(nodes, pending)->Ok_0;
            &&& stack_leaves(n) == stack_leaves(nodes)
            &&& stack_operators(n) + pending_operators(p) == stack_operators(nodes)
                + pending_operators(pending)
        }),
    decreases pending.len(),
{
    if pending.len() > 0 && !(pending.last() is OpenParen) {
        lemma_floor_nonnegative(pending);
        lemma_apply(pending.last(), nodes, floor_of(pending));
        lemma_close(apply(pending.last(), nodes, floor_of(pending))->Some_0, pending.drop_last());
    }
}

proof fn lemma_finish(nodes: Seq<AstNode>, pending: Seq<PendingOp>)
    requires
        finish(nodes, pending) is Ok,
    ensures
        leaves(finish(nodes, pending)->Ok_0) == stack_leaves(nodes),
        operator_count(finish(nodes, pending)->Ok_0) == stack_operators(nodes) + pending_operators(
            pending,
        ),
    decreases pending.len(),
{
    if pending.len() == 0 {
        assert(nodes.drop_last() =~= Seq::<AstNode>::empty());
        assert(stack_leaves(nodes.drop_last()) == Seq::<i32>::empty());
        assert(stack_operators(nodes.drop_last()) == 0);
        assert(Seq::<i32>::empty() + leaves(nodes[0]) =~= leaves(nodes[0]));
    } else if !(pending.last() is OpenParen) {
        lemma_floor_nonnegative(pending);
        lemma_apply(pending.last(), nodes, floor_of(pending));
        lemma_finish(apply(pending.last(), nodes, floor_of(pending))->Some_0, pending.drop_last());
    }
}

proof fn lemma_step(st: ShuntState, t: TokenView)
    ensures
        step(st, t) is Next ==> {
            let next = step(st, t)->Next_0;
            &&& stack_leaves(next.nodes) == stack_leaves(st.nodes) + token_numbers(seq![t])
            &&& held_operators(next) == held_operators(st) + token_operators(seq![t])
        },
        step(st, t) is Done ==> {
            &&& t is EOF
            &&& leaves(step(st, t)->Done_0) == stack_leaves(st.nodes)
            &&& operator_count(step(st, t)->Done_0) == held_operators(st)
        },
{
    lemma_one_token(t);
    if st.expect_operand {
        match t {
            TokenView::Number(n) => {
                let ns = st.nodes.push(AstNode::Number(n));
                assert(ns.drop_last() =~= st.nodes);
                assert(stack_leaves(ns) == stack_leaves(st.nodes) + seq![n]);
            },
            TokenView::OpenParen => {
                let opened = PendingOp::OpenParen(st.nodes.len() as usize);
                assert(st.pending.push(opened).drop_last() =~= st.pending);
            },
            TokenView::Operator(op) => {
                if shunt_checked(st.nodes, st.pending, PendingOp::Unary(op)) is Ok {
                    lemma_shunt(st.nodes, st.pending, PendingOp::Unary(op));
                }
            },
            _ => {},
        }
    } else {
        match t {
            TokenView::Operator(op) => {
                if shunt_checked(st.nodes, st.pending, PendingOp::Binary(op)) is Ok {
                    lemma_shunt(st.nodes, st.pending, PendingOp::Binary(op));
                }
            },
            TokenView::CloseParen => {
                if close(st.nodes, st.pending) is Ok {
                    lemma_close(st.nodes, st.pending);
                }
            },
            TokenView::EOF => {
                if finish(st.nodes, st.pending) is Ok {
                    lemma_finish(st.nodes, st.pending);
                }
            },
            _ => {},
        }
    }
}

proof fn lemma_drive(s: Seq<char>, pos: int, cur: TokenView, depth: int, st: ShuntState)
    requires
        0 <= pos <= s.len(),
        drive(s, pos, cur, depth, st) is Ok,
    ensures
        ({
            let ts = seq![cur] + tokens_after(s, pos, cur);
            let tree = drive(s, pos, cur, depth, st)->Ok_0;
            &&& leaves(tree) == stack_leaves(st.nodes) + token_numbers(ts)
            &&& operator_count(tree) == held_operators(st) + token_operators(ts)
        }),
    decreases 2 * (s.len() - pos) + if cur is EOF {
        0int
    } else {
        1int
    },
{
    lemma_step(st, cur);
    let ts = seq![cur] + tokens_after(s, pos, cur);
    assert(ts.drop_first() =~= tokens_after(s, pos, cur));
    assert(ts[0] == cur);
    match step(st, cur) {
        Step::Done(_) => {
            assert(tokens_after(s, pos, cur) =~= Seq::<TokenView>::empty());
            assert(ts =~= seq![cur]);
            lemma_one_token(cur);
            assert(stack_leaves(st.nodes) + Seq::<i32>::empty() =~= stack_leaves(st.nodes));
        },
        Step::Next(next) => {
            lemma_scan_bounds(s, pos);
            match read(s, pos, depth) {
                Read::Got(t, e, d) => {
                    lemma_drive(s, e, t, d, next);
                    let rest = seq![t] + tokens_after(s, e, t);
                    assert(tokens_after(s, pos, cur) == rest);
                    lemma_one_token(cur);
                    let a = stack_leaves(st.nodes);
                    let b = token_numbers(seq![cur]);
                    let c = token_numbers(rest);
                    assert(a + (b + c) =~= (a + b) + c);
                },
                Read::Fail(_) => {},
            }
        },
        Step::Fail(_) => {},
    }
}

/// Parsing uses every token exactly once: where `s` parses, the numbers of
/// the tree, from left to right, are the number tokens of `s` in order, and
/// the tree has as many operator nodes as `s` has operator tokens.
pub proof fn lemma_parse_uses_every_token(s: Seq<char>)
    requires
        parse_spec(s) is Ok,
    ensures
        leaves(parse_spec(s)->Ok_0) == token_numbers(tokens_from(s, 0)),
        operator_count(parse_spec(s)->Ok_0) == token_operators(tokens_from(s, 0)),
{
    lemma_scan_bounds(s, 0);
    match read(s, 0, 0) {
        Read::Got(t, e, d) => {
            lemma_drive(s, e, t, d, start_state());
            assert(stack_leaves(Seq::<AstNode>::empty()) + token_numbers(tokens_from(s, 0))
                =~= token_numbers(tokens_from(s, 0)));
        },
        Read::Fail(_) => {},
    }
}

/// The end of input ends the parse: whatever the stacks hold, `EOF` either
/// completes the tree or fails, and no token is read after it.
pub proof fn lemma_eof_ends_parse(st: ShuntState)
    ensures
        !(step(st, TokenView::EOF) is Next),
{
}

} // verus!
