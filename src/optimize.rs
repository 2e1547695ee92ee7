//! The optimizer: gives every atom its own sign and combines the atoms of
//! each numeric kind into one.
use vstd::prelude::*;
use crate::atom::{AtomKind, DSLItem, DSLKeywords, DSLOp, DSLType, flip, kind_of, magnitude, sign, with_magnitude};
use crate::lexer::{Expr, cap};

verus! {

/// The sign given to the first atom, which has no operator before it.
pub open spec fn synthetic_add() -> DSLItem<DSLOp> {
    DSLItem { content: DSLOp::Add, offset: 0, length: 0 }
}

/// The shapes the optimizer accepts: one operator between each two atoms,
/// with or without a sign before the first one (what the parser produces),
/// or the canonical form of the empty expression.
pub open spec fn parsed_shape(e: Expr) -> bool {
    ||| e.ops@.len() + 1 == e.items@.len()
    ||| e.ops@.len() == e.items@.len()
    ||| (e.items@.len() == 0 && e.ops@.len() == 1)
}

/// Index of the first atom of kind `k`.
pub open spec fn first_of_kind(items: Seq<DSLItem<DSLType>>, k: AtomKind) -> Option<int>
    decreases items.len(),
{
    if items.len() == 0 {
        None
    } else {
        match first_of_kind(items.drop_last(), k) {
            Some(i) => Some(i),
            None => if kind_of(items.last().content) == k {
                Some(items.len() - 1)
            } else {
                None
            },
        }
    }
}

/// Combines the signed magnitude `(op, a)` with `(op2, b)`: equal signs add
/// (up to `u64::MAX`); opposite signs subtract the smaller from the larger,
/// and the result takes the sign of the larger, or the second sign on a tie.
pub open spec fn combine(op: DSLOp, a: u64, op2: DSLOp, b: u64) -> (DSLOp, u64) {
    if op == op2 {
        (op, cap(a + b))
    } else if a > b {
        (op, (a - b) as u64)
    } else {
        (flip(op), (b - a) as u64)
    }
}

/// Signs and atoms, side by side.
pub type Signed = (Seq<DSLItem<DSLOp>>, Seq<DSLItem<DSLType>>);

/// Adds one signed atom: a keyword is appended; a frame index or timestamp
/// is combined into the first atom of its kind, or appended if there is none.
pub open spec fn absorb(c: Signed, op: DSLItem<DSLOp>, it: DSLItem<DSLType>) -> Signed {
    let k = kind_of(it.content);
    if k == AtomKind::Word {
        (c.0.push(op), c.1.push(it))
    } else {
        match first_of_kind(c.1, k) {
            None => (c.0.push(op), c.1.push(it)),
            Some(f) => {
                let (nop, nv) = combine(c.0[f].content, magnitude(c.1[f].content), op.content, magnitude(it.content));
                (
                    c.0.update(f, DSLItem { content: nop, offset: c.0[f].offset, length: c.0[f].length }),
                    c.1.update(f, DSLItem { content: with_magnitude(k, nv), offset: c.1[f].offset, length: c.1[f].length }),
                )
            },
        }
    }
}

/// The first `n` signed atoms, absorbed left to right.
pub open spec fn fold_prefix(ops: Seq<DSLItem<DSLOp>>, items: Seq<DSLItem<DSLType>>, n: nat) -> Signed
    decreases n,
{
    if n == 0 {
        (seq![], seq![])
    } else {
        absorb(fold_prefix(ops, items, (n - 1) as nat), ops[n - 1], items[n - 1])
    }
}

/// The first atom has no sign of its own (or there is nothing at all).
pub open spec fn lacks_leading_sign(ops: Seq<DSLItem<DSLOp>>, n_items: nat) -> bool {
    ops.len() < n_items || ops.len() == 0
}

/// The operators, with the synthetic leading `+` where the first atom has
/// no sign.
pub open spec fn signed_ops(ops: Seq<DSLItem<DSLOp>>, n_items: nat) -> Seq<DSLItem<DSLOp>> {
    if lacks_leading_sign(ops, n_items) {
        seq![synthetic_add()] + ops
    } else {
        ops
    }
}

/// The folding pass over signs and atoms; signs beyond the last atom stay.
pub open spec fn fold_signed(c: Signed) -> Signed {
    let f = fold_prefix(c.0, c.1, c.1.len());
    (f.0 + c.0.subrange(c.1.len() as int, c.0.len() as int), f.1)
}

/// What `optimize_expr` makes of a parsed expression.
pub open spec fn optimized(ops: Seq<DSLItem<DSLOp>>, items: Seq<DSLItem<DSLType>>) -> Signed {
    fold_signed((signed_ops(ops, items.len()), items))
}

/// No two atoms share a numeric kind.
pub open spec fn kinds_unique(items: Seq<DSLItem<DSLType>>) -> bool {
    forall|i: int, j: int|
        0 <= i < items.len() && 0 <= j < items.len() && kind_of(#[trigger] items[i].content) != AtomKind::Word
            && kind_of(items[i].content) == kind_of(#[trigger] items[j].content) ==> i == j
}

proof fn lemma_first_of_kind(items: Seq<DSLItem<DSLType>>, k: AtomKind)
    ensures
        first_of_kind(items, k) matches Some(f) ==> 0 <= f < items.len() && kind_of(items[f].content) == k
            && forall|j: int| 0 <= j < f ==> kind_of(#[trigger] items[j].content) != k,
        first_of_kind(items, k) is None ==> forall|j: int| 0 <= j < items.len() ==> kind_of(#[trigger] items[j].content) != k,
    decreases items.len(),
{
    if items.len() > 0 {
        lemma_first_of_kind(items.drop_last(), k);
        assert forall|j: int| 0 <= j < items.len() - 1 implies #[trigger] items[j] == items.drop_last()[j] by {}
    }
}

proof fn lemma_first_of_kind_push(items: Seq<DSLItem<DSLType>>, x: DSLItem<DSLType>, k: AtomKind)
    ensures
        first_of_kind(items.push(x), k) == (match first_of_kind(items, k) {
            Some(f) => Some(f),
            None => if kind_of(x.content) == k { Some(items.len() as int) } else { None },
        }),
{
    assert(items.push(x).drop_last() =~= items);
}

proof fn lemma_first_of_kind_update(items: Seq<DSLItem<DSLType>>, f: int, x: DSLItem<DSLType>, k: AtomKind)
    requires
        0 <= f < items.len(),
        kind_of(x.content) == kind_of(items[f].content),
    ensures
        first_of_kind(items.update(f, x), k) == first_of_kind(items, k),
    decreases items.len(),
{
    let u = items.update(f, x);
    if f < items.len() - 1 {
        assert(u.drop_last() =~= items.drop_last().update(f, x));
        lemma_first_of_kind_update(items.drop_last(), f, x, k);
    } else {
        assert(u.drop_last() =~= items.drop_last());
    }
}

proof fn lemma_fold_prefix_len(ops: Seq<DSLItem<DSLOp>>, items: Seq<DSLItem<DSLType>>, n: nat)
    ensures
        fold_prefix(ops, items, n).0.len() == fold_prefix(ops, items, n).1.len(),
        fold_prefix(ops, items, n).1.len() <= n,
        n > 0 ==> fold_prefix(ops, items, n).1.len() >= 1,
    decreases n,
{
    if n > 0 {
        lemma_fold_prefix_len(ops, items, (n - 1) as nat);
        let c = fold_prefix(ops, items, (n - 1) as nat);
        lemma_first_of_kind(c.1, kind_of(items[n - 1].content));
    }
}

fn combine_exec(op: DSLOp, a: u64, op2: DSLOp, b: u64) -> (r: (DSLOp, u64))
    ensures
        r == combine(op, a, op2, b),
{
    if op == op2 {
        (op, a.saturating_add(b))
    } else if a > b {
        (op, a - b)
    } else {
        (op.reversed(), b - a)
    }
}

/// Puts a parsed expression in canonical form: a leading `+` is prepended
/// so that `ops[i]` is the sign of `items[i]`, then the frame indexes are
/// combined into the first of them, and likewise the timestamps. Keywords
/// keep their order and their signs.
pub fn optimize_expr(expr: &mut Expr)
    requires
        parsed_shape(*old(expr)),
    ensures
        (final(expr).ops@, final(expr).items@) == optimized(old(expr).ops@, old(expr).items@),
        final(expr).items@.len() > 0 ==> final(expr).ops@.len() == final(expr).items@.len(),
        final(expr).ops@.len() >= final(expr).items@.len(),
        old(expr).items@.len() == 0 && old(expr).ops@.len() == 0 ==> final(expr).ops@ == seq![synthetic_add()]
            && final(expr).items@.len() == 0,
        kinds_unique(final(expr).items@),
{
    let ghost ops0 = expr.ops@;
    let ghost items0 = expr.items@;
    let ghost c = signed_ops(ops0, items0.len());
    if expr.ops.len() < expr.items.len() || expr.ops.len() == 0 {
        expr.ops.insert(0, DSLItem { content: DSLOp::Add, offset: 0, length: 0 });
    }
    assert(expr.ops@ =~= c);
    let ghost n = items0.len();
    let mut frame_index: Option<usize> = None;
    let mut time_index: Option<usize> = None;
    let mut index: usize = 0;
    let ghost mut k: nat = 0;
    proof {
        assert(c.subrange(0, c.len() as int) =~= c);
        assert(items0.subrange(0, n as int) =~= items0);
    }
    while index < expr.items.len()
        invariant
            k <= n,
            n == items0.len(),
            c == signed_ops(ops0, n),
            c.len() >= n,
            n > 0 ==> c.len() == n,
            index as int == fold_prefix(c, items0, k).1.len(),
            expr.items@ == fold_prefix(c, items0, k).1 + items0.subrange(k as int, n as int),
            expr.ops@ == fold_prefix(c, items0, k).0 + c.subrange(k as int, c.len() as int),
            frame_index matches Some(f) ==> first_of_kind(fold_prefix(c, items0, k).1, AtomKind::Frame) == Some(f as int),
            frame_index is None ==> first_of_kind(fold_prefix(c, items0, k).1, AtomKind::Frame) is None,
            time_index matches Some(f) ==> first_of_kind(fold_prefix(c, items0, k).1, AtomKind::Time) == Some(f as int),
            time_index is None ==> first_of_kind(fold_prefix(c, items0, k).1, AtomKind::Time) is None,
        decreases n - k,
    {
        let ghost prev = fold_prefix(c, items0, k);
        proof {
            lemma_fold_prefix_len(c, items0, k);
            lemma_first_of_kind(prev.1, AtomKind::Frame);
            lemma_first_of_kind(prev.1, AtomKind::Time);
            assert(k < n);
            assert(expr.items@[index as int] == items0[k as int]);
            assert(expr.ops@[index as int] == c[k as int]);
        }
        let this = expr.items[index];
        let this_op = expr.ops[index];
        let (slot, kind) = match this.content {
            DSLType::FrameIndex(_) => (frame_index, AtomKind::Frame),
            DSLType::Timestamp(_) => (time_index, AtomKind::Time),
            DSLType::Keyword(_) => (None, AtomKind::Word),
        };
        let ghost next = fold_prefix(c, items0, (k + 1) as nat);
        assert(next == absorb(prev, c[k as int], items0[k as int]));
        match slot {
            Some(first_index) => {
                let first = expr.items[first_index];
                let first_op = expr.ops[first_index];
                let a = match first.content {
                    DSLType::FrameIndex(v) => v,
                    DSLType::Timestamp(v) => v,
                    DSLType::Keyword(_) => 0,
                };
                let b = match this.content {
                    DSLType::FrameIndex(v) => v,
                    DSLType::Timestamp(v) => v,
                    DSLType::Keyword(_) => 0,
                };
                let (nop, nv) = combine_exec(first_op.content, a, this_op.content, b);
                let mut merged = first;
                match kind {
                    AtomKind::Frame => merged.set(DSLType::FrameIndex(nv)),
                    _ => merged.set(DSLType::Timestamp(nv)),
                }
                let mut merged_op = first_op;
                if nop != first_op.content {
                    merged_op.content.reverse();
                }
                expr.items.set(first_index, merged);
                expr.ops.set(first_index, merged_op);
                expr.ops.remove(index);
                expr.items.remove(index);
                proof {
                    assert(next.1 =~= prev.1.update(first_index as int, merged));
                    assert(next.0 =~= prev.0.update(first_index as int, merged_op));
                    assert(expr.items@ =~= next.1 + items0.subrange((k + 1) as int, n as int));
                    assert(expr.ops@ =~= next.0 + c.subrange((k + 1) as int, c.len() as int));
                    lemma_first_of_kind_update(prev.1, first_index as int, merged, AtomKind::Frame);
                    lemma_first_of_kind_update(prev.1, first_index as int, merged, AtomKind::Time);
                    k = k + 1;
                }
            },
            None => {
                match kind {
                    AtomKind::Frame => { frame_index = Some(index); },
                    AtomKind::Time => { time_index = Some(index); },
                    AtomKind::Word => {},
                }
                proof {
                    assert(next.1 =~= prev.1.push(this));
                    assert(next.0 =~= prev.0.push(this_op));
                    assert(expr.items@ =~= next.1 + items0.subrange((k + 1) as int, n as int));
                    assert(expr.ops@ =~= next.0 + c.subrange((k + 1) as int, c.len() as int));
                    lemma_first_of_kind_push(prev.1, this, AtomKind::Frame);
                    lemma_first_of_kind_push(prev.1, this, AtomKind::Time);
                    k = k + 1;
                }
                index = index + 1;
            },
        }
    }
    proof {
        lemma_fold_prefix_len(c, items0, k);
        assert(k == n);
        assert(items0.subrange(n as int, n as int) =~= seq![]);
        assert(expr.items@ =~= fold_prefix(c, items0, n).1);
        lemma_fold_unique(c, items0, n);
        if n == 0 && ops0.len() == 0 {
            assert(c =~= seq![synthetic_add()]);
            assert(expr.ops@ =~= seq![synthetic_add()]);
        }
    }
}

proof fn lemma_fold_unique(ops: Seq<DSLItem<DSLOp>>, items: Seq<DSLItem<DSLType>>, n: nat)
    ensures
        kinds_unique(fold_prefix(ops, items, n).1),
    decreases n,
{
    if n > 0 {
        lemma_fold_unique(ops, items, (n - 1) as nat);
        let c = fold_prefix(ops, items, (n - 1) as nat);
        let x = items[n - 1];
        let k = kind_of(x.content);
        lemma_first_of_kind(c.1, k);
        let r = fold_prefix(ops, items, n).1;
        if k != AtomKind::Word {
            if let Some(f) = first_of_kind(c.1, k) {
                assert forall|i: int, j: int|
                    0 <= i < r.len() && 0 <= j < r.len() && kind_of(#[trigger] r[i].content) != AtomKind::Word
                        && kind_of(r[i].content) == kind_of(#[trigger] r[j].content) implies i == j by {
                    assert(kind_of(r[i].content) == kind_of(c.1[i].content));
                    assert(kind_of(r[j].content) == kind_of(c.1[j].content));
                }
            } else {
                assert forall|i: int, j: int|
                    0 <= i < r.len() && 0 <= j < r.len() && kind_of(#[trigger] r[i].content) != AtomKind::Word
                        && kind_of(r[i].content) == kind_of(#[trigger] r[j].content) implies i == j by {
                    if i < c.1.len() && j < c.1.len() {
                        assert(r[i] == c.1[i] && r[j] == c.1[j]);
                    }
                }
            }
        } else {
            assert forall|i: int, j: int|
                0 <= i < r.len() && 0 <= j < r.len() && kind_of(#[trigger] r[i].content) != AtomKind::Word
                    && kind_of(r[i].content) == kind_of(#[trigger] r[j].content) implies i == j by {
                if i < c.1.len() && j < c.1.len() {
                    assert(r[i] == c.1[i] && r[j] == c.1[j]);
                }
            }
        }
    }
}

/// Folding signs and atoms in which no numeric kind repeats takes each
/// prefix as it is.
proof fn lemma_fold_stable(ops: Seq<DSLItem<DSLOp>>, items: Seq<DSLItem<DSLType>>, m: nat)
    requires
        ops.len() >= items.len(),
        m <= items.len(),
        kinds_unique(items),
    ensures
        fold_prefix(ops, items, m) == (ops.subrange(0, m as int), items.subrange(0, m as int)),
    decreases m,
{
    if m > 0 {
        lemma_fold_stable(ops, items, (m - 1) as nat);
        let prev = items.subrange(0, m - 1);
        let x = items[m - 1];
        let k = kind_of(x.content);
        lemma_first_of_kind(prev, k);
        if k != AtomKind::Word {
            if let Some(f) = first_of_kind(prev, k) {
                assert(prev[f] == items[f]);
                assert(false);
            }
        }
        assert(prev.push(x) =~= items.subrange(0, m as int));
        assert(ops.subrange(0, m - 1).push(ops[m - 1]) =~= ops.subrange(0, m as int));
    }
}

/// Optimizing is idempotent: optimizing the canonical form that
/// `optimize_expr` produces returns it unchanged.
pub proof fn lemma_optimize_idempotent(ops: Seq<DSLItem<DSLOp>>, items: Seq<DSLItem<DSLType>>)
    requires
        ops.len() + 1 == items.len() || ops.len() == items.len() || (items.len() == 0 && ops.len() == 1),
    ensures
        optimized(optimized(ops, items).0, optimized(ops, items).1) == optimized(ops, items),
{
    let c = signed_ops(ops, items.len());
    lemma_fold_prefix_len(c, items, items.len());
    lemma_fold_unique(c, items, items.len());
    let r = optimized(ops, items);
    assert(r.0.len() >= r.1.len() && r.0.len() > 0);
    assert(signed_ops(r.0, r.1.len()) == r.0);
    lemma_fold_stable(r.0, r.1, r.1.len());
    assert(r.0.subrange(0, r.1.len() as int) + r.0.subrange(r.1.len() as int, r.0.len() as int) =~= r.0);
    assert(r.1.subrange(0, r.1.len() as int) =~= r.1);
}

/// What an atom counts towards: frames, milliseconds, or one keyword.
#[derive(Debug, Clone, Copy, PartialEq, Eq, Structural)]
pub enum Probe {
    Frames,
    Millis,
    Word(DSLKeywords),
}

/// How much of `p` the atom `t` holds.
pub open spec fn amount(t: DSLType, p: Probe) -> int {
    match p {
        Probe::Frames => match t {
            DSLType::FrameIndex(n) => n as int,
            _ => 0,
        },
        Probe::Millis => match t {
            DSLType::Timestamp(ms) => ms as int,
            _ => 0,
        },
        Probe::Word(w) => if t == DSLType::Keyword(w) {
            1
        } else {
            0
        },
    }
}

/// The signed total of `p` over the first `n` signed atoms.
pub open spec fn signed_sum(ops: Seq<DSLItem<DSLOp>>, items: Seq<DSLItem<DSLType>>, p: Probe, n: nat) -> int
    decreases n,
{
    if n == 0 {
        0
    } else {
        signed_sum(ops, items, p, (n - 1) as nat) + sign(ops[n - 1].content) * amount(items[n - 1].content, p)
    }
}

/// The signed total of `p` over all signed atoms.
pub open spec fn total(c: Signed, p: Probe) -> int {
    signed_sum(c.0, c.1, p, c.1.len())
}

/// The sum of the magnitudes of the first `n` atoms of kind `k`, signs
/// ignored.
pub open spec fn mass(items: Seq<DSLItem<DSLType>>, k: AtomKind, n: nat) -> nat
    decreases n,
{
    if n == 0 {
        0
    } else {
        mass(items, k, (n - 1) as nat) + if kind_of(items[n - 1].content) == k {
            magnitude(items[n - 1].content) as nat
        } else {
            0
        }
    }
}

pub open spec fn probe_of(k: AtomKind) -> Probe {
    match k {
        AtomKind::Frame => Probe::Frames,
        _ => Probe::Millis,
    }
}

proof fn lemma_sum_prefix(o1: Seq<DSLItem<DSLOp>>, i1: Seq<DSLItem<DSLType>>, o2: Seq<DSLItem<DSLOp>>, i2: Seq<DSLItem<DSLType>>, p: Probe, m: nat)
    requires
        m <= o1.len() && m <= o2.len() && m <= i1.len() && m <= i2.len(),
        forall|j: int| 0 <= j < m ==> o1[j] == o2[j] && i1[j] == i2[j],
    ensures
        signed_sum(o1, i1, p, m) == signed_sum(o2, i2, p, m),
    decreases m,
{
    if m > 0 {
        lemma_sum_prefix(o1, i1, o2, i2, p, (m - 1) as nat);
    }
}

proof fn lemma_sum_update(o: Seq<DSLItem<DSLOp>>, i: Seq<DSLItem<DSLType>>, f: int, a: DSLItem<DSLOp>, b: DSLItem<DSLType>, p: Probe, m: nat)
    requires
        0 <= f < m,
        m <= o.len() && m <= i.len(),
    ensures
        signed_sum(o.update(f, a), i.update(f, b), p, m) == signed_sum(o, i, p, m) - sign(o[f].content) * amount(
            i[f].content,
            p,
        ) + sign(a.content) * amount(b.content, p),
    decreases m,
{
    if m - 1 > f {
        lemma_sum_update(o, i, f, a, b, p, (m - 1) as nat);
    } else {
        lemma_sum_prefix(o.update(f, a), i.update(f, b), o, i, p, (m - 1) as nat);
    }
}

proof fn lemma_amount_kind(t: DSLType, k: AtomKind)
    requires
        k != AtomKind::Word,
    ensures
        amount(t, probe_of(k)) == if kind_of(t) == k { magnitude(t) as int } else { 0 },
{
}

/// Where no numeric kind repeats, the total of a kind is the signed
/// magnitude of its one atom.
proof fn lemma_sum_unique(o: Seq<DSLItem<DSLOp>>, i: Seq<DSLItem<DSLType>>, k: AtomKind, m: nat)
    requires
        k != AtomKind::Word,
        m <= i.len() && m <= o.len(),
        kinds_unique(i),
    ensures
        signed_sum(o, i, probe_of(k), m) == (match first_of_kind(i, k) {
            Some(f) => if f < m { sign(o[f].content) * magnitude(i[f].content) } else { 0 },
            None => 0,
        }),
    decreases m,
{
    lemma_first_of_kind(i, k);
    if m > 0 {
        lemma_sum_unique(o, i, k, (m - 1) as nat);
        let j = m - 1;
        lemma_amount_kind(i[j].content, k);
        if kind_of(i[j].content) == k {
            let f = first_of_kind(i, k)->0;
            assert(kind_of(i[f].content) == k);
            assert(f == j);
        }
    }
}

proof fn lemma_sum_mass(o: Seq<DSLItem<DSLOp>>, i: Seq<DSLItem<DSLType>>, k: AtomKind, m: nat)
    requires
        k != AtomKind::Word,
        m <= i.len() && m <= o.len(),
    ensures
        -mass(i, k, m) <= signed_sum(o, i, probe_of(k), m) <= mass(i, k, m),
    decreases m,
{
    if m > 0 {
        lemma_sum_mass(o, i, k, (m - 1) as nat);
        lemma_amount_kind(i[m - 1].content, k);
    }
}

proof fn lemma_mass_mono(i: Seq<DSLItem<DSLType>>, k: AtomKind, m: nat, n: nat)
    requires
        m <= n,
    ensures
        mass(i, k, m) <= mass(i, k, n),
    decreases n,
{
    if m < n {
        lemma_mass_mono(i, k, m, (n - 1) as nat);
    }
}

/// Folding the first `n` signed atoms keeps every signed total, as long
/// as no sum of magnitudes of one kind exceeds `u64::MAX`.
proof fn lemma_fold_sums(c: Seq<DSLItem<DSLOp>>, items: Seq<DSLItem<DSLType>>, n: nat)
    requires
        n <= items.len() <= c.len(),
        mass(items, AtomKind::Frame, n) <= u64::MAX,
        mass(items, AtomKind::Time, n) <= u64::MAX,
    ensures
        forall|p: Probe| #[trigger] total(fold_prefix(c, items, n), p) == signed_sum(c, items, p, n),
    decreases n,
{
    lemma_fold_prefix_len(c, items, n);
    if n > 0 {
        let m = (n - 1) as nat;
        lemma_mass_mono(items, AtomKind::Frame, m, n);
        lemma_mass_mono(items, AtomKind::Time, m, n);
        lemma_fold_sums(c, items, m);
        lemma_fold_prefix_len(c, items, m);
        lemma_fold_unique(c, items, m);
        let prev = fold_prefix(c, items, m);
        let next = fold_prefix(c, items, n);
        let op = c[m as int];
        let x = items[m as int];
        let k = kind_of(x.content);
        lemma_first_of_kind(prev.1, k);
        let pushed = k == AtomKind::Word || first_of_kind(prev.1, k) is None;
        if pushed {
            assert forall|p: Probe| #[trigger] total(next, p) == signed_sum(c, items, p, n) by {
                lemma_sum_prefix(next.0, next.1, prev.0, prev.1, p, prev.1.len());
                assert(total(prev, p) == signed_sum(c, items, p, m));
            }
        } else {
            let f = first_of_kind(prev.1, k)->0;
            let a = magnitude(prev.1[f].content);
            let b = magnitude(x.content);
            let (nop, nv) = combine(prev.0[f].content, a, op.content, b);
            lemma_sum_unique(prev.0, prev.1, k, prev.1.len());
            lemma_sum_mass(c, items, k, m);
            assert(total(prev, probe_of(k)) == signed_sum(c, items, probe_of(k), m));
            assert(a <= mass(items, k, m));
            lemma_amount_kind(x.content, k);
            assert(mass(items, k, n) == mass(items, k, m) + b);
            assert(a + b <= u64::MAX);
            assert(sign(nop) * nv == sign(prev.0[f].content) * a + sign(op.content) * b) by {
                if prev.0[f].content != op.content {
                    if a > b {
                        assert(sign(prev.0[f].content) * (a - b) == sign(prev.0[f].content) * a - sign(prev.0[f].content) * b)
                            by (nonlinear_arith);
                    } else {
                        assert(sign(flip(prev.0[f].content)) * (b - a) == sign(prev.0[f].content) * a - sign(prev.0[f].content) * b)
                            by (nonlinear_arith)
                            requires
                                sign(flip(prev.0[f].content)) == -sign(prev.0[f].content),
                        ;
                    }
                } else {
                    assert(sign(nop) * (a + b) == sign(nop) * a + sign(nop) * b) by (nonlinear_arith);
                }
            }
            let na = DSLItem { content: nop, offset: prev.0[f].offset, length: prev.0[f].length };
            let nb = DSLItem { content: with_magnitude(k, nv), offset: prev.1[f].offset, length: prev.1[f].length };
            assert forall|p: Probe| #[trigger] total(next, p) == signed_sum(c, items, p, n) by {
                lemma_sum_update(prev.0, prev.1, f, na, nb, p, prev.1.len());
                assert(total(prev, p) == signed_sum(c, items, p, m));
                if p == probe_of(k) {
                    lemma_amount_kind(prev.1[f].content, k);
                    lemma_amount_kind(nb.content, k);
                } else {
                    assert(amount(prev.1[f].content, p) == 0);
                    assert(amount(nb.content, p) == 0);
                    assert(amount(x.content, p) == 0);
                }
            }
        }
    }
}

/// Optimizing keeps the meaning of an expression: the signed number of
/// frames, the signed number of milliseconds and the net count of each
/// keyword are the same before (with the first atom signed `+` where it
/// has no sign) and after, as long as the frames, and the milliseconds,
/// written in it add up to at most `u64::MAX`. A bound's value is a sum of
/// per-atom conversions of these totals, so only the rounding of those
/// conversions can differ.
pub proof fn lemma_optimize_preserves_totals(ops: Seq<DSLItem<DSLOp>>, items: Seq<DSLItem<DSLType>>, p: Probe)
    requires
        ops.len() + 1 == items.len() || ops.len() == items.len() || (items.len() == 0 && ops.len() == 1),
        mass(items, AtomKind::Frame, items.len()) <= u64::MAX,
        mass(items, AtomKind::Time, items.len()) <= u64::MAX,
    ensures
        total(optimized(ops, items), p) == total((signed_ops(ops, items.len()), items), p),
{
    let c = signed_ops(ops, items.len());
    lemma_fold_sums(c, items, items.len());
    lemma_fold_prefix_len(c, items, items.len());
    let f = fold_prefix(c, items, items.len());
    let r = optimized(ops, items);
    lemma_sum_prefix(r.0, r.1, f.0, f.1, p, f.1.len());
    assert(total(f, p) == signed_sum(c, items, p, items.len()));
}

} // verus!
