//! The two bounds together: building them from source text and resolving
//! each against a video, where either may refer to the other.
use vstd::prelude::*;
use vstd::string::StringSliceAdditionalSpecFns;
use crate::atom::{DSLKeywords, DSLOp, DSLType};
use crate::check::{CheckError, CheckedExpr, check_expr, check_verdict, item_contents, op_contents};
use crate::error::ParseError;
use crate::lexer::{lex_expr, parse_expr};
use crate::optimize::{optimize_expr, optimized};
use crate::video::{VideoInfo, frame_ts, millis_ts, wrap_i64};

verus! {

/// Which bound an expression describes.
#[derive(Debug, Clone, Copy, PartialEq, Eq, Structural)]
pub enum Role {
    FromBound,
    ToBound,
}

pub open spec fn other(role: Role) -> Role {
    match role {
        Role::FromBound => Role::ToBound,
        Role::ToBound => Role::FromBound,
    }
}

/// The keyword that names the bound itself.
pub open spec fn own_keyword(role: Role) -> DSLKeywords {
    match role {
        Role::FromBound => DSLKeywords::From,
        Role::ToBound => DSLKeywords::To,
    }
}

/// The keyword that names the other bound.
pub open spec fn peer_keyword(role: Role) -> DSLKeywords {
    own_keyword(other(role))
}

pub open spec fn mentions(items: Seq<DSLType>, w: DSLKeywords) -> bool {
    exists|i: int| 0 <= i < items.len() && #[trigger] items[i] == DSLType::Keyword(w)
}

/// An expression in `role`, and its peer, can be evaluated: neither refers
/// to itself, and they do not refer to each other.
pub open spec fn references_ok(e: Seq<DSLType>, role: Role, peer: Seq<DSLType>) -> bool {
    &&& !mentions(e, own_keyword(role))
    &&& !mentions(peer, peer_keyword(role))
    &&& !(mentions(e, peer_keyword(role)) && mentions(peer, own_keyword(role)))
}

/// The timestamp of one atom; the peer keyword stands for `peer_value`.
pub open spec fn atom_ts(t: DSLType, role: Role, info: VideoInfo, peer_value: i64) -> i64 {
    match t {
        DSLType::FrameIndex(n) => frame_ts(info, n),
        DSLType::Timestamp(ms) => millis_ts(info, ms),
        DSLType::Keyword(DSLKeywords::End) => info.duration,
        DSLType::Keyword(w) => if w == peer_keyword(role) {
            peer_value
        } else {
            0
        },
    }
}

/// The wrapping signed sum of the first `n` atoms.
pub open spec fn sum_ts(items: Seq<DSLType>, ops: Seq<DSLOp>, role: Role, info: VideoInfo, peer_value: i64, n: nat) -> i64
    decreases n,
{
    if n == 0 {
        0
    } else {
        let acc = sum_ts(items, ops, role, info, peer_value, (n - 1) as nat);
        let v = atom_ts(items[n - 1], role, info, peer_value);
        match ops[n - 1] {
            DSLOp::Add => wrap_i64(acc + v),
            DSLOp::Sub => wrap_i64(acc - v),
        }
    }
}

pub open spec fn signed_len(items: Seq<DSLType>, ops: Seq<DSLOp>) -> nat {
    if items.len() <= ops.len() {
        items.len()
    } else {
        ops.len()
    }
}

/// The timestamp a bound stands for: its signed atoms summed, where the
/// peer keyword is the peer's own value (which, the pair being
/// `references_ok`, does not depend on this one).
pub open spec fn bound_value(e: (Seq<DSLType>, Seq<DSLOp>), role: Role, info: VideoInfo, peer: (Seq<DSLType>, Seq<DSLOp>)) -> i64 {
    let peer_value = sum_ts(peer.0, peer.1, other(role), info, 0, signed_len(peer.0, peer.1));
    sum_ts(e.0, e.1, role, info, peer_value, signed_len(e.0, e.1))
}

proof fn lemma_sum_ignores_peer(items: Seq<DSLType>, ops: Seq<DSLOp>, role: Role, info: VideoInfo, a: i64, b: i64, n: nat)
    requires
        n <= items.len(),
        !mentions(items, peer_keyword(role)),
    ensures
        sum_ts(items, ops, role, info, a, n) == sum_ts(items, ops, role, info, b, n),
    decreases n,
{
    if n > 0 {
        lemma_sum_ignores_peer(items, ops, role, info, a, b, (n - 1) as nat);
        assert(items[n - 1] != DSLType::Keyword(peer_keyword(role)));
    }
}

fn contains_keyword(items: &Vec<DSLType>, w: DSLKeywords) -> (r: bool)
    ensures
        r == mentions(items@, w),
{
    let mut i: usize = 0;
    while i < items.len()
        invariant
            i <= items.len(),
            forall|j: int| 0 <= j < i ==> items@[j] != DSLType::Keyword(w),
        decreases items.len() - i,
    {
        if items[i] == DSLType::Keyword(w) {
            return true;
        }
        i = i + 1;
    }
    false
}

fn keyword_of(role: Role, peer: bool) -> (r: DSLKeywords)
    ensures
        r == if peer { peer_keyword(role) } else { own_keyword(role) },
{
    match (role, peer) {
        (Role::FromBound, false) | (Role::ToBound, true) => DSLKeywords::From,
        _ => DSLKeywords::To,
    }
}

fn other_role(role: Role) -> (r: Role)
    ensures
        r == other(role),
{
    match role {
        Role::FromBound => Role::ToBound,
        Role::ToBound => Role::FromBound,
    }
}

/// Evaluates `expr` as the bound `role` against `info`. The peer keyword
/// is resolved by evaluating `peer` in the other role; `end` is the
/// stream's duration. Sums wrap around in two's complement.
pub fn eval(expr: &CheckedExpr, role: Role, info: &VideoInfo, peer: &CheckedExpr) -> (r: i64)
    requires
        references_ok(expr.items@, role, peer.items@),
    ensures
        r == bound_value((expr.items@, expr.ops@), role, *info, (peer.items@, peer.ops@)),
    decreases
        if mentions(expr.items@, peer_keyword(role)) { 1int } else { 0int },
{
    let n: usize = if expr.items.len() <= expr.ops.len() {
        expr.items.len()
    } else {
        expr.ops.len()
    };
    let ghost peer_value = sum_ts(peer.items@, peer.ops@, other(role), *info, 0, signed_len(peer.items@, peer.ops@));
    let peer_word = keyword_of(role, true);
    let mut acc: i64 = 0;
    let mut i: usize = 0;
    while i < n
        invariant
            n == signed_len(expr.items@, expr.ops@),
            i <= n,
            references_ok(expr.items@, role, peer.items@),
            peer_word == peer_keyword(role),
            peer_value == sum_ts(peer.items@, peer.ops@, other(role), *info, 0, signed_len(peer.items@, peer.ops@)),
            acc == sum_ts(expr.items@, expr.ops@, role, *info, peer_value, i as nat),
        decreases n - i,
    {
        let v: i64 = match expr.items[i] {
            DSLType::FrameIndex(f) => info.frame_to_timestamp(f),
            DSLType::Timestamp(ms) => info.milliseconds_to_timestamp(ms),
            DSLType::Keyword(DSLKeywords::End) => info.end_to_timestamp(),
            DSLType::Keyword(w) => if w == peer_word {
                proof {
                    assert(mentions(expr.items@, peer_keyword(role)));
                }
                let pv = eval(peer, other_role(role), info, expr);
                proof {
                    lemma_sum_ignores_peer(
                        peer.items@, peer.ops@, other(role), *info, 0,
                        sum_ts(expr.items@, expr.ops@, other(other(role)), *info, 0, signed_len(expr.items@, expr.ops@)),
                        signed_len(peer.items@, peer.ops@),
                    );
                    assert(pv == peer_value);
                }
                pv
            } else {
                proof {
                    assert(mentions(expr.items@, own_keyword(role)));
                }
                0
            },
        };
        acc = match expr.ops[i] {
            DSLOp::Add => acc.wrapping_add(v),
            DSLOp::Sub => acc.wrapping_sub(v),
        };
        i = i + 1;
    }
    acc
}

/// Why a pair of bounds could not be built.
#[derive(Debug, Clone, Copy, PartialEq, Eq, Structural)]
pub enum BuildError {
    /// The text of one bound does not parse.
    Parse { role: Role, error: ParseError },
    /// One bound breaks a rule of the validator, or refers to itself.
    Check { role: Role, reason: CheckError },
    /// `from` refers to `to` while `to` refers to `from`.
    Circular,
}

pub type Compiled = (Seq<DSLType>, Seq<DSLOp>);

/// One bound from its text: parsed, optimized, validated, and checked not
/// to name itself.
pub open spec fn compile(s: Seq<u8>, role: Role) -> Result<Compiled, BuildError> {
    match lex_expr(s) {
        Err(error) => Err(BuildError::Parse { role, error }),
        Ok((items, ops)) => {
            let c = optimized(ops, items);
            match check_verdict(c.1, c.0) {
                Err(reason) => Err(BuildError::Check { role, reason }),
                Ok(_) => if mentions(item_contents(c.1), own_keyword(role)) {
                    Err(BuildError::Check { role, reason: CheckError::Circular })
                } else {
                    Ok((item_contents(c.1), op_contents(c.0)))
                },
            }
        },
    }
}

/// Both bounds, `from` first; then the two must not refer to each other.
pub open spec fn build_pair(from_src: Seq<u8>, to_src: Seq<u8>) -> Result<(Compiled, Compiled), BuildError> {
    match compile(from_src, Role::FromBound) {
        Err(e) => Err(e),
        Ok(f) => match compile(to_src, Role::ToBound) {
            Err(e) => Err(e),
            Ok(t) => if mentions(f.0, DSLKeywords::To) && mentions(t.0, DSLKeywords::From) {
                Err(BuildError::Circular)
            } else {
                Ok((f, t))
            },
        },
    }
}

/// The validated `from` and `to` bounds.
#[derive(Debug)]
pub struct BoundPair {
    pub from: CheckedExpr,
    pub to: CheckedExpr,
}

impl BoundPair {
    pub open spec fn wf(&self) -> bool {
        references_ok(self.from.items@, Role::FromBound, self.to.items@)
    }

    pub open spec fn view(&self) -> (Compiled, Compiled) {
        ((self.from.items@, self.from.ops@), (self.to.items@, self.to.ops@))
    }
}

fn compile_bound(src: &[u8], role: Role) -> (r: Result<CheckedExpr, BuildError>)
    ensures
        match r {
            Ok(c) => compile(src@, role) == Ok::<Compiled, BuildError>((c.items@, c.ops@)),
            Err(e) => compile(src@, role) == Err::<Compiled, BuildError>(e),
        },
{
    let mut expr = match parse_expr(src) {
        Err(error) => return Err(BuildError::Parse { role, error }),
        Ok(e) => e,
    };
    let len = src.len();
    proof {
        assert(src@.len() == len);
        crate::lexer::lemma_expr_shape(src@);
    }
    optimize_expr(&mut expr);
    let checked = match check_expr(&expr) {
        Err(reason) => return Err(BuildError::Check { role, reason }),
        Ok(c) => c,
    };
    if contains_keyword(&checked.items, keyword_of(role, false)) {
        return Err(BuildError::Check { role, reason: CheckError::Circular });
    }
    Ok(checked)
}

/// Builds both bounds from their texts. Each is parsed, optimized and
/// validated, `from` first; a bound that names itself is `Circular` for
/// the validator, and a pair that refers both ways is `BuildError::Circular`.
pub fn build(from_src: &str, to_src: &str) -> (r: Result<BoundPair, BuildError>)
    ensures
        match r {
            Ok(p) => build_pair(from_src.spec_bytes(), to_src.spec_bytes()) == Ok::<(Compiled, Compiled), BuildError>(p@)
                && p.wf(),
            Err(e) => build_pair(from_src.spec_bytes(), to_src.spec_bytes()) == Err::<(Compiled, Compiled), BuildError>(e),
        },
{
    let from = match compile_bound(from_src.as_bytes(), Role::FromBound) {
        Err(e) => return Err(e),
        Ok(c) => c,
    };
    let to = match compile_bound(to_src.as_bytes(), Role::ToBound) {
        Err(e) => return Err(e),
        Ok(c) => c,
    };
    if contains_keyword(&from.items, DSLKeywords::To) && contains_keyword(&to.items, DSLKeywords::From) {
        return Err(BuildError::Circular);
    }
    Ok(BoundPair { from, to })
}

/// The timestamp of the bound `which` of a built pair.
pub fn resolve(pair: &BoundPair, info: &VideoInfo, which: Role) -> (r: i64)
    requires
        pair.wf(),
    ensures
        which == Role::FromBound ==> r == bound_value(pair@.0, Role::FromBound, *info, pair@.1),
        which == Role::ToBound ==> r == bound_value(pair@.1, Role::ToBound, *info, pair@.0),
{
    match which {
        Role::FromBound => eval(&pair.from, Role::FromBound, info, &pair.to),
        Role::ToBound => eval(&pair.to, Role::ToBound, info, &pair.from),
    }
}

/// A `from` bound that names `to`, paired with a `to` bound that names
/// `from`, is rejected as circular.
pub proof fn lemma_cross_reference_rejected(from_src: Seq<u8>, to_src: Seq<u8>)
    requires
        compile(from_src, Role::FromBound) matches Ok(f) && mentions(f.0, DSLKeywords::To),
        compile(to_src, Role::ToBound) matches Ok(t) && mentions(t.0, DSLKeywords::From),
    ensures
        build_pair(from_src, to_src) == Err::<(Compiled, Compiled), BuildError>(BuildError::Circular),
{
}

} // verus!
