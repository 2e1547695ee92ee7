//! The validator: semantic rules on a canonical expression.
use vstd::prelude::*;
use crate::atom::{DSLItem, DSLKeywords, DSLOp, DSLType, sign};
use crate::lexer::Expr;

verus! {

/// An expression that passed `check_expr`, without spans.
#[derive(Debug)]
pub struct CheckedExpr {
    /// The atoms.
    pub items: Vec<DSLType>,
    /// `ops[i]` is the sign of `items[i]`.
    pub ops: Vec<DSLOp>,
}

/// Why an expression was rejected.
#[derive(Debug, Clone, Copy, PartialEq, Eq, Structural)]
pub enum CheckError {
    /// Every atom is subtracted.
    Overflow,
    /// A keyword occurs more than once net.
    TooManyKeywords,
    /// The expression refers to itself, or to both bounds.
    Circular,
}

impl CheckError {
    /// The message shown to the user.
    pub fn message(&self) -> (r: &'static str)
        ensures
            *self == CheckError::Overflow ==> r@ == "Overflow: all is sub"@,
            *self == CheckError::TooManyKeywords ==> r@ == "Too many keywords"@,
            *self == CheckError::Circular ==> r@ == "circular references"@,
    {
        match self {
            CheckError::Overflow => "Overflow: all is sub",
            CheckError::TooManyKeywords => "Too many keywords",
            CheckError::Circular => "circular references",
        }
    }
}

/// Number of signed atoms: atoms paired with an operator.
pub open spec fn paired_len(items: Seq<DSLItem<DSLType>>, ops: Seq<DSLItem<DSLOp>>) -> int {
    if items.len() <= ops.len() {
        items.len() as int
    } else {
        ops.len() as int
    }
}

/// The net count of keyword `w` among the first `n` signed atoms: `+1` per
/// added occurrence, `-1` per subtracted one.
pub open spec fn keyword_balance(items: Seq<DSLItem<DSLType>>, ops: Seq<DSLItem<DSLOp>>, w: DSLKeywords, n: nat) -> int
    decreases n,
{
    if n == 0 {
        0
    } else {
        keyword_balance(items, ops, w, (n - 1) as nat) + if items[n - 1].content == DSLType::Keyword(w) {
            sign(ops[n - 1].content)
        } else {
            0
        }
    }
}

/// The keyword `w` occurs among the signed atoms.
pub open spec fn signed_mentions(items: Seq<DSLItem<DSLType>>, ops: Seq<DSLItem<DSLOp>>, w: DSLKeywords) -> bool {
    exists|i: int| 0 <= i < paired_len(items, ops) && #[trigger] items[i].content == DSLType::Keyword(w)
}

/// At least one signed atom is added (or there are no operators at all).
pub open spec fn rule_some_add(items: Seq<DSLItem<DSLType>>, ops: Seq<DSLItem<DSLOp>>) -> bool {
    ops.len() == 0 || exists|i: int| 0 <= i < paired_len(items, ops) && #[trigger] ops[i].content == DSLOp::Add
}

/// Each keyword occurs at most once net.
pub open spec fn rule_keyword_once(items: Seq<DSLItem<DSLType>>, ops: Seq<DSLItem<DSLOp>>) -> bool {
    forall|w: DSLKeywords| -1 <= #[trigger] keyword_balance(items, ops, w, paired_len(items, ops) as nat) <= 1
}

/// `from` and `to` do not both occur.
pub open spec fn rule_not_circular(items: Seq<DSLItem<DSLType>>, ops: Seq<DSLItem<DSLOp>>) -> bool {
    !(signed_mentions(items, ops, DSLKeywords::From) && signed_mentions(items, ops, DSLKeywords::To))
}

/// The verdict of the validator; the rules are checked in this order.
pub open spec fn check_verdict(items: Seq<DSLItem<DSLType>>, ops: Seq<DSLItem<DSLOp>>) -> Result<(), CheckError> {
    if !rule_some_add(items, ops) {
        Err(CheckError::Overflow)
    } else if !rule_keyword_once(items, ops) {
        Err(CheckError::TooManyKeywords)
    } else if !rule_not_circular(items, ops) {
        Err(CheckError::Circular)
    } else {
        Ok(())
    }
}

pub open spec fn item_contents(items: Seq<DSLItem<DSLType>>) -> Seq<DSLType> {
    items.map_values(|x: DSLItem<DSLType>| x.content)
}

pub open spec fn op_contents(ops: Seq<DSLItem<DSLOp>>) -> Seq<DSLOp> {
    ops.map_values(|x: DSLItem<DSLOp>| x.content)
}

/// Validates a canonical expression (`ops[i]` the sign of `items[i]`) and
/// strips its spans.
pub fn check_expr(expr: &Expr) -> (r: Result<CheckedExpr, CheckError>)
    ensures
        match r {
            Ok(c) => check_verdict(expr.items@, expr.ops@) == Ok::<(), CheckError>(()) && c.items@ == item_contents(
                expr.items@,
            ) && c.ops@ == op_contents(expr.ops@),
            Err(e) => check_verdict(expr.items@, expr.ops@) == Err::<(), CheckError>(e),
        },
        r is Err <==> !(rule_some_add(expr.items@, expr.ops@) && rule_keyword_once(expr.items@, expr.ops@)
            && rule_not_circular(expr.items@, expr.ops@)),
{
    let n: usize = if expr.items.len() <= expr.ops.len() {
        expr.items.len()
    } else {
        expr.ops.len()
    };
    let mut end_balance: i128 = 0;
    let mut from_balance: i128 = 0;
    let mut to_balance: i128 = 0;
    let mut has_add = false;
    let mut seen_from = false;
    let mut seen_to = false;
    let mut i: usize = 0;
    while i < n
        invariant
            n == paired_len(expr.items@, expr.ops@),
            i <= n,
            end_balance == keyword_balance(expr.items@, expr.ops@, DSLKeywords::End, i as nat),
            from_balance == keyword_balance(expr.items@, expr.ops@, DSLKeywords::From, i as nat),
            to_balance == keyword_balance(expr.items@, expr.ops@, DSLKeywords::To, i as nat),
            -(i as int) <= end_balance <= i,
            -(i as int) <= from_balance <= i,
            -(i as int) <= to_balance <= i,
            has_add <==> exists|j: int| 0 <= j < i && #[trigger] expr.ops@[j].content == DSLOp::Add,
            seen_from <==> exists|j: int| 0 <= j < i && #[trigger] expr.items@[j].content == DSLType::Keyword(DSLKeywords::From),
            seen_to <==> exists|j: int| 0 <= j < i && #[trigger] expr.items@[j].content == DSLType::Keyword(DSLKeywords::To),
        decreases n - i,
    {
        let add = expr.ops[i].content == DSLOp::Add;
        let step: i128 = if add { 1 } else { -1 };
        match expr.items[i].content {
            DSLType::Keyword(DSLKeywords::End) => { end_balance = end_balance + step; },
            DSLType::Keyword(DSLKeywords::From) => {
                from_balance = from_balance + step;
                seen_from = true;
            },
            DSLType::Keyword(DSLKeywords::To) => {
                to_balance = to_balance + step;
                seen_to = true;
            },
            _ => {},
        }
        if add {
            has_add = true;
        }
        i = i + 1;
    }
    if !has_add && expr.ops.len() != 0 {
        return Err(CheckError::Overflow);
    }
    if end_balance > 1 || end_balance < -1 || from_balance > 1 || from_balance < -1 || to_balance > 1 || to_balance < -1 {
        proof {
            let b_end = keyword_balance(expr.items@, expr.ops@, DSLKeywords::End, paired_len(expr.items@, expr.ops@) as nat);
            let b_from = keyword_balance(expr.items@, expr.ops@, DSLKeywords::From, paired_len(expr.items@, expr.ops@) as nat);
            let b_to = keyword_balance(expr.items@, expr.ops@, DSLKeywords::To, paired_len(expr.items@, expr.ops@) as nat);
            assert(!rule_keyword_once(expr.items@, expr.ops@));
        }
        return Err(CheckError::TooManyKeywords);
    }
    proof {
        assert forall|w: DSLKeywords| -1 <= #[trigger] keyword_balance(expr.items@, expr.ops@, w, n as nat) <= 1 by {
            match w {
                DSLKeywords::End => {},
                DSLKeywords::From => {},
                DSLKeywords::To => {},
            }
        }
    }
    if seen_from && seen_to {
        return Err(CheckError::Circular);
    }
    let mut items: Vec<DSLType> = Vec::new();
    let mut j: usize = 0;
    while j < expr.items.len()
        invariant
            j <= expr.items.len(),
            items@ == item_contents(expr.items@.subrange(0, j as int)),
        decreases expr.items.len() - j,
    {
        items.push(expr.items[j].content);
        j = j + 1;
        assert(items@ =~= item_contents(expr.items@.subrange(0, j as int)));
    }
    let mut ops: Vec<DSLOp> = Vec::new();
    let mut j: usize = 0;
    while j < expr.ops.len()
        invariant
            j <= expr.ops.len(),
            ops@ == op_contents(expr.ops@.subrange(0, j as int)),
        decreases expr.ops.len() - j,
    {
        ops.push(expr.ops[j].content);
        j = j + 1;
        assert(ops@ =~= op_contents(expr.ops@.subrange(0, j as int)));
    }
    assert(expr.items@.subrange(0, expr.items.len() as int) =~= expr.items@);
    assert(expr.ops@.subrange(0, expr.ops.len() as int) =~= expr.ops@);
    Ok(CheckedExpr { items, ops })
}

} // verus!
