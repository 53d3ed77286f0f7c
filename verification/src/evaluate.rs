//! The reducer: a resumable generator of leftmost-outermost reduction steps.
//! Each successful step yields the whole term after exactly one reduction.

use vstd::prelude::*;
use crate::expr::{esize, Expr, ExprModel};
use crate::func::FuncModel;
use crate::context::{lookup_func, Context};
use crate::apply::{apply, arity, apply_model, arity_model, models_of, CalcError};

verus! {

broadcast use vstd::std_specs::vec::group_vec_axioms, vstd::seq::group_seq_axioms;

// ------------------------------------------------------------------------ //
// The spine: the left-branching application path from the root to the head.

/// The head of the spine: the leftmost non-application node.
pub open spec fn spine_head(e: ExprModel) -> ExprModel
    decreases e,
{
    match e {
        ExprModel::Apply { lhs, .. } => spine_head(*lhs),
        _ => e,
    }
}

/// The arguments on the spine, in application order: the innermost-applied
/// argument first.
pub open spec fn spine_args(e: ExprModel) -> Seq<ExprModel>
    decreases e,
{
    match e {
        ExprModel::Apply { lhs, rhs } => spine_args(*lhs).push(*rhs),
        _ => Seq::empty(),
    }
}

/// Rebuilds a term from a head and spine arguments in application order.
pub open spec fn spine_fold(h: ExprModel, args: Seq<ExprModel>) -> ExprModel
    decreases args.len(),
{
    if args.len() == 0 {
        h
    } else {
        spine_fold(ExprModel::Apply { lhs: Box::new(h), rhs: Box::new(args[0]) }, args.drop_first())
    }
}

/// Total node count of a sequence of arguments.
pub open spec fn args_size(args: Seq<ExprModel>) -> nat
    decreases args.len(),
{
    if args.len() == 0 {
        0
    } else {
        esize(args[0]) + args_size(args.drop_first())
    }
}

pub proof fn lemma_esize_pos(e: ExprModel)
    ensures
        esize(e) >= 1,
{
    match e {
        ExprModel::Variable { .. } => {},
        ExprModel::Symbol { .. } => {},
        ExprModel::Apply { .. } => {},
        ExprModel::Lambda { .. } => {},
    }
}

pub proof fn lemma_spine_fold_push(h: ExprModel, args: Seq<ExprModel>, a: ExprModel)
    ensures
        spine_fold(h, args.push(a)) == (ExprModel::Apply {
            lhs: Box::new(spine_fold(h, args)),
            rhs: Box::new(a),
        }),
    decreases args.len(),
{
    if args.len() == 0 {
        assert(args.push(a)[0] == a);
        assert(args.push(a).drop_first() =~= Seq::<ExprModel>::empty());
        assert(spine_fold(ExprModel::Apply { lhs: Box::new(h), rhs: Box::new(a) }, Seq::empty())
            == (ExprModel::Apply { lhs: Box::new(h), rhs: Box::new(a) }));
        assert(spine_fold(h, args) == h);
    } else {
        assert(args.push(a)[0] == args[0]);
        assert(args.push(a).drop_first() =~= args.drop_first().push(a));
        lemma_spine_fold_push(
            ExprModel::Apply { lhs: Box::new(h), rhs: Box::new(args[0]) },
            args.drop_first(),
            a,
        );
    }
}

/// A fold from a non-application head decomposes back into exactly that head
/// and those arguments.
pub proof fn lemma_spine_fold_decompose(h: ExprModel, args: Seq<ExprModel>)
    requires
        !(h is Apply),
    ensures
        spine_head(spine_fold(h, args)) == h,
        spine_args(spine_fold(h, args)) == args,
    decreases args.len(),
{
    if args.len() == 0 {
        assert(spine_args(spine_fold(h, args)) =~= args);
    } else {
        lemma_spine_fold_decompose(h, args.drop_last());
        assert(args.drop_last().push(args.last()) =~= args);
        lemma_spine_fold_push(h, args.drop_last(), args.last());
    }
}

pub proof fn lemma_args_size_push(args: Seq<ExprModel>, a: ExprModel)
    ensures
        args_size(args.push(a)) == args_size(args) + esize(a),
    decreases args.len(),
{
    if args.len() == 0 {
        assert(args.push(a)[0] == a);
        assert(args.push(a).drop_first() =~= Seq::<ExprModel>::empty());
        assert(args_size(Seq::<ExprModel>::empty()) == 0);
        assert(args_size(args) == 0);
    } else {
        assert(args.push(a)[0] == args[0]);
        assert(args.push(a).drop_first() =~= args.drop_first().push(a));
        lemma_args_size_push(args.drop_first(), a);
    }
}

/// A term's size is its head's size plus its arguments' sizes plus one node
/// per application on the spine.
pub proof fn lemma_esize_decompose(e: ExprModel)
    ensures
        esize(e) == esize(spine_head(e)) + args_size(spine_args(e)) + spine_args(e).len(),
    decreases e,
{
    match e {
        ExprModel::Apply { lhs, rhs } => {
            lemma_esize_decompose(*lhs);
            lemma_args_size_push(spine_args(*lhs), *rhs);
        },
        _ => {},
    }
}

// ------------------------------------------------------------------------ //
// One leftmost-outermost step.

/// The arity behind an applicable head; zero elsewhere.
pub open spec fn arity_val(ctx: Seq<FuncModel>, h: ExprModel) -> nat {
    match arity_model(ctx, h) {
        Some(a) => a,
        None => 0,
    }
}

/// The head can fire: it has an arity, enough arguments stand on the spine,
/// and an alias fires only in an actual application.
pub open spec fn head_applicable(ctx: Seq<FuncModel>, h: ExprModel, k: nat) -> bool {
    match arity_model(ctx, h) {
        Some(a) => a <= k && (a >= 1 || k >= 1),
        None => false,
    }
}

/// The one leftmost-outermost reduction step of `e` under `ctx`, if any: the
/// head fires when it can; otherwise the first reducible argument steps, in
/// application order; a term where neither holds is in normal form.
pub open spec fn reduce_once(ctx: Seq<FuncModel>, e: ExprModel) -> Option<ExprModel>
    decreases esize(e), 0nat, 0nat,
    via reduce_once_dec
{
    let h = spine_head(e);
    let args = spine_args(e);
    if head_applicable(ctx, h, args.len()) {
        let a = arity_val(ctx, h) as int;
        Some(spine_fold(apply_model(ctx, h, args.take(a)), args.skip(a)))
    } else if args.len() == 0 {
        None
    } else {
        match reduce_first(ctx, args) {
            Some(args2) => Some(spine_fold(h, args2)),
            None => None,
        }
    }
}

/// The arguments after their first reducible member takes one step; `None`
/// when every argument is in normal form.
pub open spec fn reduce_first(ctx: Seq<FuncModel>, args: Seq<ExprModel>) -> Option<Seq<ExprModel>>
    decreases args_size(args), 1nat, args.len(),
    via reduce_first_dec
{
    if args.len() == 0 {
        None
    } else {
        match reduce_once(ctx, args[0]) {
            Some(e0) => Some(args.update(0, e0)),
            None => match reduce_first(ctx, args.drop_first()) {
                Some(rest) => Some(seq![args[0]] + rest),
                None => None,
            },
        }
    }
}

#[via_fn]
proof fn reduce_once_dec(ctx: Seq<FuncModel>, e: ExprModel) {
    lemma_esize_decompose(e);
    lemma_esize_pos(spine_head(e));
}

#[via_fn]
proof fn reduce_first_dec(ctx: Seq<FuncModel>, args: Seq<ExprModel>) {
    if args.len() > 0 {
        assert(args_size(args) == esize(args[0]) + args_size(args.drop_first()));
    }
}

/// No reduction step applies anywhere that weak leftmost-outermost reduction
/// reaches.
pub open spec fn is_normal(ctx: Seq<FuncModel>, e: ExprModel) -> bool {
    reduce_once(ctx, e) is None
}

/// When the arguments before position `n` are normal and the one at `n`
/// steps, the argument list steps exactly there.
pub proof fn lemma_reduce_first_at(
    ctx: Seq<FuncModel>,
    args: Seq<ExprModel>,
    n: int,
    x: ExprModel,
)
    requires
        0 <= n < args.len(),
        forall|i: int| 0 <= i < n ==> is_normal(ctx, #[trigger] args[i]),
        reduce_once(ctx, args[n]) == Some(x),
    ensures
        reduce_first(ctx, args) == Some(args.update(n, x)),
    decreases n,
{
    if n == 0 {
    } else {
        assert(is_normal(ctx, args[0]));
        assert forall|i: int| 0 <= i < n - 1 implies is_normal(
            ctx,
            #[trigger] args.drop_first()[i],
        ) by {
            assert(args.drop_first()[i] == args[i + 1]);
        }
        assert(args.drop_first()[n - 1] == args[n]);
        lemma_reduce_first_at(ctx, args.drop_first(), n - 1, x);
        assert(seq![args[0]] + args.drop_first().update(n - 1, x) =~= args.update(n, x));
    }
}

// ------------------------------------------------------------------------ //
// The reducer state machine.

/// Where the reducer stands: trying the head (after unwinding the spine),
/// trying the `n`-th argument from the top of the spine, or finished.
#[derive(Debug, Clone, Copy, PartialEq, Eq, Structural)]
pub enum Phase {
    LeftTree,
    RightTree(usize),
    Done,
}

/// A resumable reducer over a starting expression against a shared context.
/// The current head sits in `expr`; each spine argument above it has a child
/// reducer of its own on the stack, top of the spine last.
#[derive(Debug, PartialEq)]
pub struct EvalSteps<'a> {
    expr: Expr,
    stack: Stack<'a>,
    context: &'a Context,
    step: Phase,
}

/// The stack of child reducers, one per argument on the spine.
#[derive(Debug, PartialEq)]
pub struct Stack<'a>(pub Vec<EvalSteps<'a>>);

/// The whole term a reducer currently stands for: its head folded with each
/// stacked argument's own snapshot, top of the spine first.
pub closed spec fn snap(r: EvalSteps) -> ExprModel
    decreases r,
{
    spine_fold(r.expr@, snap_args(r.stack.0@))
}

/// The snapshots of stacked arguments, in application order: top of the
/// spine (the end of the stack) first.
pub closed spec fn snap_args(st: Seq<EvalSteps>) -> Seq<ExprModel>
    decreases st,
{
    if st.len() == 0 {
        Seq::empty()
    } else {
        seq![snap(st.last())] + snap_args(st.drop_last())
    }
}

proof fn lemma_snap_args_len(st: Seq<EvalSteps>)
    ensures
        snap_args(st).len() == st.len(),
    decreases st.len(),
{
    if st.len() > 0 {
        lemma_snap_args_len(st.drop_last());
    }
}

/// `snap_args` element by element: position `i` holds the snapshot of the
/// `i`-th child from the top of the stack.
proof fn lemma_snap_args_at(st: Seq<EvalSteps>, i: int)
    requires
        0 <= i < st.len(),
    ensures
        snap_args(st)[i] == snap(st[st.len() - 1 - i]),
    decreases st.len(),
{
    lemma_snap_args_len(st.drop_last());
    if i == 0 {
        assert(snap_args(st)[0] == snap(st.last()));
    } else {
        assert(snap_args(st)[i] == snap_args(st.drop_last())[i - 1]);
        lemma_snap_args_at(st.drop_last(), i - 1);
        assert(st.drop_last()[st.drop_last().len() - 1 - (i - 1)] == st[st.len() - 1 - i]);
    }
}

/// The state invariant. In `RightTree(n)` the head is in weak head normal
/// form and the first `n` arguments from the top of the spine are already
/// normal; `Done` means the whole snapshot is normal. Children always share
/// the context and are well-formed reducers themselves.
pub closed spec fn wf(r: EvalSteps) -> bool
    decreases r,
{
    &&& (forall|i: int|
        0 <= i < r.stack.0@.len() ==> wf(#[trigger] r.stack.0@[i])
            && r.stack.0@[i].context == r.context)
    &&& match r.step {
        Phase::LeftTree => true,
        Phase::RightTree(n) => {
            &&& !(r.expr@ is Apply)
            &&& !head_applicable(r.context@, r.expr@, r.stack.0@.len() as nat)
            &&& n <= r.stack.0@.len()
            &&& forall|i: int|
                0 <= i < n ==> is_normal(
                    r.context@,
                    snap(#[trigger] r.stack.0@[r.stack.0@.len() - 1 - i]),
                )
        },
        Phase::Done => is_normal(r.context@, snap(r)),
    }
}

/// Work measure: the size of the head plus the measures of the children, one
/// extra unit per child. Spine descent conserves it; only a successful head
/// application may grow it.
pub closed spec fn measure(r: EvalSteps) -> nat
    decreases r,
{
    esize(r.expr@) + stack_measure(r.stack.0@)
}

pub closed spec fn stack_measure(st: Seq<EvalSteps>) -> nat
    decreases st,
{
    if st.len() == 0 {
        0
    } else {
        measure(st[0]) + 1 + stack_measure(st.drop_first())
    }
}

proof fn lemma_stack_measure_push(st: Seq<EvalSteps>, c: EvalSteps)
    ensures
        stack_measure(st.push(c)) == stack_measure(st) + measure(c) + 1,
    decreases st.len(),
{
    if st.len() == 0 {
        assert(st.push(c)[0] == c);
        assert(st.push(c).drop_first() =~= Seq::<EvalSteps>::empty());
        assert(stack_measure(Seq::<EvalSteps>::empty()) == 0);
        assert(stack_measure(st) == 0);
    } else {
        assert(st.push(c)[0] == st[0]);
        assert(st.push(c).drop_first() =~= st.drop_first().push(c));
        lemma_stack_measure_push(st.drop_first(), c);
    }
}

proof fn lemma_stack_measure_elem(st: Seq<EvalSteps>, i: int)
    requires
        0 <= i < st.len(),
    ensures
        measure(st[i]) + 1 <= stack_measure(st),
    decreases i,
{
    if i > 0 {
        assert(st.drop_first()[i - 1] == st[i]);
        lemma_stack_measure_elem(st.drop_first(), i - 1);
    }
}

proof fn lemma_stack_measure_remove(st: Seq<EvalSteps>, i: int)
    requires
        0 <= i < st.len(),
    ensures
        stack_measure(st.remove(i)) + measure(st[i]) + 1 == stack_measure(st),
    decreases i,
{
    if i == 0 {
        assert(st.remove(0) =~= st.drop_first());
    } else {
        assert(st.remove(i)[0] == st[0]);
        assert(st.remove(i).drop_first() =~= st.drop_first().remove(i - 1));
        assert(st.drop_first()[i - 1] == st[i]);
        lemma_stack_measure_remove(st.drop_first(), i - 1);
    }
}

proof fn lemma_stack_measure_insert(st: Seq<EvalSteps>, i: int, c: EvalSteps)
    requires
        0 <= i <= st.len(),
    ensures
        stack_measure(st.insert(i, c)) == stack_measure(st) + measure(c) + 1,
    decreases i,
{
    if i == 0 {
        assert(st.insert(0, c)[0] == c);
        assert(st.insert(0, c).drop_first() =~= st);
    } else {
        assert(st.insert(i, c)[0] == st[0]);
        assert(st.insert(i, c).drop_first() =~= st.drop_first().insert(i - 1, c));
        lemma_stack_measure_insert(st.drop_first(), i - 1, c);
    }
}

/// How far along the phases the reducer is; decreases as phases advance.
pub closed spec fn phase_rank(s: Phase) -> nat {
    match s {
        Phase::LeftTree => 2,
        Phase::RightTree(..) => 1,
        Phase::Done => 0,
    }
}

/// Arguments still to try in `RightTree`; nonnegative whenever well-formed.
pub closed spec fn phase_rem(r: EvalSteps) -> int {
    match r.step {
        Phase::RightTree(n) => r.stack.0@.len() - n,
        _ => r.stack.0@.len() as int,
    }
}

/// Structural likeness up to the unverifiable identity of heap storage: the
/// same head, phase and context, with likewise-similar children. A clone is
/// similar to its original, and similar reducers have equal snapshots.
pub closed spec fn sim(a: EvalSteps, b: EvalSteps) -> bool
    decreases a,
{
    &&& a.expr == b.expr
    &&& a.step == b.step
    &&& a.context == b.context
    &&& a.stack.0@.len() == b.stack.0@.len()
    &&& forall|i: int|
        0 <= i < a.stack.0@.len() ==> sim(#[trigger] a.stack.0@[i], b.stack.0@[i])
}

/// Similar reducers stand for the same term.
pub proof fn lemma_sim_snap(a: EvalSteps, b: EvalSteps)
    requires
        sim(a, b),
    ensures
        snap(a) == snap(b),
    decreases a,
{
    lemma_sim_snap_args(a.stack.0@, b.stack.0@);
}

proof fn lemma_sim_snap_args(sa: Seq<EvalSteps>, sb: Seq<EvalSteps>)
    requires
        sa.len() == sb.len(),
        forall|i: int| 0 <= i < sa.len() ==> sim(#[trigger] sa[i], sb[i]),
    ensures
        snap_args(sa) == snap_args(sb),
    decreases sa,
{
    if sa.len() > 0 {
        lemma_sim_snap(sa.last(), sb.last());
        assert forall|i: int| 0 <= i < sa.drop_last().len() implies sim(
            #[trigger] sa.drop_last()[i],
            sb.drop_last()[i],
        ) by {
            assert(sa.drop_last()[i] == sa[i]);
            assert(sb.drop_last()[i] == sb[i]);
        }
        lemma_sim_snap_args(sa.drop_last(), sb.drop_last());
    }
}

impl<'a> Stack<'a> {
    /// The empty stack.
    pub fn new() -> (r: Stack<'a>)
        ensures
            r.0@.len() == 0,
    {
        Stack(Vec::new())
    }

    /// Pushes a child reducer on top.
    pub fn push(&mut self, e: EvalSteps<'a>)
        ensures
            final(self).0@ == old(self).0@.push(e),
    {
        self.0.push(e);
    }

    /// Pops the top `n` children, top first; `None`, and no change, when
    /// fewer are held.
    pub fn pop(&mut self, n: usize) -> (r: Option<Vec<EvalSteps<'a>>>)
        ensures
            match r {
                Some(v) => {
                    &&& old(self).0@.len() >= n
                    &&& v@.len() == n
                    &&& forall|j: int|
                        0 <= j < n ==> v@[j] == old(self).0@[old(self).0@.len() - 1 - j]
                    &&& final(self).0@ == old(self).0@.take(old(self).0@.len() - n)
                },
                None => old(self).0@.len() < n && final(self).0@ == old(self).0@,
            },
    {
        if self.0.len() < n {
            proof {
                assert(final(self).0@ == old(self).0@);
            }
            return None;
        }
        let ghost orig = self.0@;
        let mut out: Vec<EvalSteps<'a>> = Vec::new();
        let mut j: usize = 0;
        while j < n
            invariant
                j <= n,
                n <= orig.len(),
                out@.len() == j,
                forall|k: int| 0 <= k < j ==> out@[k] == orig[orig.len() - 1 - k],
                self.0@ == orig.take(orig.len() - j),
            decreases n - j,
        {
            match self.0.pop() {
                Some(x) => {
                    proof {
                        assert(orig.take(orig.len() - j).last() == orig[orig.len() - 1 - j]);
                        assert(orig.take(orig.len() - j).drop_last() =~= orig.take(
                            orig.len() - (j + 1),
                        ));
                    }
                    out.push(x);
                },
                None => {
                    proof {
                        assert(false);
                    }
                },
            }
            j += 1;
        }
        Some(out)
    }

    /// How many children are on the stack.
    pub fn len(&self) -> (r: usize)
        ensures
            r == self.0@.len(),
    {
        self.0.len()
    }

    /// The children in spine order, top of the spine first.
    pub fn all(&self) -> (r: Vec<EvalSteps<'a>>)
        ensures
            r@.len() == self.0@.len(),
            forall|j: int|
                0 <= j < r@.len() ==> sim(self.0@[self.0@.len() - 1 - j], #[trigger] r@[j]),
    {
        let len = self.0.len();
        let mut all: Vec<EvalSteps<'a>> = Vec::new();
        let mut j: usize = len;
        while j > 0
            invariant
                j <= len,
                len == self.0@.len(),
                all@.len() == len - j,
                forall|k: int|
                    0 <= k < all@.len() ==> sim(self.0@[len - 1 - k], #[trigger] all@[k]),
            decreases j,
        {
            j = j - 1;
            all.push(self.0[j].clone());
        }
        all
    }

    /// The `n`-th child from the top of the spine, if the stack is that
    /// deep.
    pub fn nth(&self, n: usize) -> (r: Option<&EvalSteps<'a>>)
        ensures
            match r {
                Some(c) => n < self.0@.len() && *c == self.0@[self.0@.len() - 1 - n],
                None => n >= self.0@.len(),
            },
    {
        let len = self.0.len();
        if n >= len {
            None
        } else {
            Some(&self.0[len - 1 - n])
        }
    }
}

impl<'a> Clone for EvalSteps<'a> {
    fn clone(&self) -> (r: EvalSteps<'a>)
        ensures
            sim(*self, r),
        decreases *self,
    {
        EvalSteps {
            expr: self.expr.clone(),
            stack: self.stack.clone(),
            context: self.context,
            step: self.step,
        }
    }
}

impl<'a> Clone for Stack<'a> {
    fn clone(&self) -> (r: Stack<'a>)
        ensures
            r.0@.len() == self.0@.len(),
            forall|i: int| 0 <= i < self.0@.len() ==> sim(#[trigger] self.0@[i], r.0@[i]),
        decreases *self,
    {
        let mut out: Vec<EvalSteps<'a>> = Vec::new();
        let mut j: usize = 0;
        while j < self.0.len()
            invariant
                j <= self.0@.len(),
                out@.len() == j,
                forall|k: int| 0 <= k < j ==> sim(#[trigger] self.0@[k], out@[k]),
            decreases self.0@.len() - j,
        {
            out.push(self.0[j].clone());
            j += 1;
        }
        Stack(out)
    }
}

impl<'a> EvalSteps<'a> {
    /// The context the reducer reads.
    pub closed spec fn ctx(self) -> &'a Context {
        self.context
    }

    /// The phase the reducer stands in.
    pub closed spec fn phase(self) -> Phase {
        self.step
    }

    /// A fresh reducer over `expr` against `context`, standing at the start.
    pub fn new(expr: Expr, context: &'a Context) -> (r: EvalSteps<'a>)
        ensures
            wf(r),
            r.ctx() == context,
            snap(r) == expr@,
            measure(r) == esize(expr@),
            r.phase() == Phase::LeftTree,
    {
        let r = EvalSteps { expr, stack: Stack(Vec::new()), context, step: Phase::LeftTree };
        proof {
            assert(snap_args(r.stack.0@) =~= Seq::<ExprModel>::empty());
            assert(snap(r) == spine_fold(r.expr@, snap_args(r.stack.0@)));
            assert(stack_measure(r.stack.0@) == 0);
        }
        r
    }

    /// The whole-term snapshot the reducer currently stands for.
    pub fn expr(&self) -> (r: Expr)
        ensures
            r@ == snap(*self),
        decreases *self,
    {
        let ghost args = snap_args(self.stack.0@);
        let mut e = self.expr.clone();
        let len = self.stack.0.len();
        let mut j: usize = len;
        proof {
            assert(args.take(0) =~= Seq::<ExprModel>::empty());
        }
        while j > 0
            invariant
                j <= len,
                len == self.stack.0@.len(),
                args == snap_args(self.stack.0@),
                e@ == spine_fold(self.expr@, args.take(len - j)),
            decreases j,
        {
            j = j - 1;
            let arg = self.stack.0[j].expr();
            proof {
                lemma_snap_args_len(self.stack.0@);
                lemma_snap_args_at(self.stack.0@, len - 1 - j);
                assert(args[len - 1 - j] == snap(self.stack.0@[j as int]));
                assert(args.take(len - j) =~= args.take(len - 1 - j).push(args[len - 1 - j]));
                lemma_spine_fold_push(self.expr@, args.take(len - 1 - j), args[len - 1 - j]);
            }
            e = Expr::Apply { lhs: Box::new(e), rhs: Box::new(arg) };
        }
        proof {
            lemma_snap_args_len(self.stack.0@);
            assert(args.take(len as int) =~= args);
        }
        e
    }

    /// Advances the reducer by exactly one leftmost-outermost step and
    /// yields the whole term after it; `None` exactly when the snapshot is
    /// already in normal form, in which case nothing changes.
    pub fn next(&mut self) -> (r: Option<Expr>)
        requires
            wf(*old(self)),
        ensures
            wf(*final(self)),
            final(self).ctx() == old(self).ctx(),
            match r {
                Some(e) => reduce_once(old(self).ctx()@, snap(*old(self))) == Some(e@)
                    && snap(*final(self)) == e@,
                None => reduce_once(old(self).ctx()@, snap(*old(self))) is None
                    && snap(*final(self)) == snap(*old(self))
                    && measure(*final(self)) == measure(*old(self)),
            },
        decreases measure(*self), phase_rank(self.phase()), phase_rem(*self), 1int,
    {
        match self.step {
            Phase::LeftTree => self.left_tree(),
            Phase::RightTree(n) => self.right_tree(n),
            Phase::Done => None,
        }
    }

    /// The head-seeking phase: unwinds the spine, fires the head if it can,
    /// and otherwise hands over to the argument phase.
    pub fn left_tree(&mut self) -> (r: Option<Expr>)
        requires
            wf(*old(self)),
            old(self).phase() == Phase::LeftTree,
        ensures
            wf(*final(self)),
            final(self).ctx() == old(self).ctx(),
            match r {
                Some(e) => reduce_once(old(self).ctx()@, snap(*old(self))) == Some(e@)
                    && snap(*final(self)) == e@,
                None => reduce_once(old(self).ctx()@, snap(*old(self))) is None
                    && snap(*final(self)) == snap(*old(self))
                    && measure(*final(self)) == measure(*old(self)),
            },
        decreases measure(*self), 2nat, 0int, 0int,
    {
        let ghost ctx0 = self.context@;
        let ghost snap0 = snap(*self);
        let ghost m0 = measure(*self);
        let mut descending = true;
        while descending
            invariant
                wf(*self),
                self.step == Phase::LeftTree,
                self.context == old(self).context,
                snap(*self) == snap0,
                measure(*self) == m0,
                !descending ==> !(self.expr@ is Apply),
            decreases esize(self.expr@) + (if descending { 1int } else { 0int }),
        {
            let cur = self.expr.clone();
            let ghost pre = *self;
            match cur {
                Expr::Apply { lhs, rhs } => {
                    self.expr = *lhs;
                    let child = EvalSteps::new(*rhs, self.context);
                    let ghost rhsm = snap(child);
                    self.stack.push(child);
                    proof {
                        let st1 = self.stack.0@;
                        assert(st1.last() == child);
                        assert(st1.drop_last() =~= pre.stack.0@);
                        assert(snap_args(st1) == seq![rhsm] + snap_args(pre.stack.0@));
                        let a1 = seq![rhsm] + snap_args(pre.stack.0@);
                        assert(a1[0] == rhsm);
                        assert(a1.drop_first() =~= snap_args(pre.stack.0@));
                        assert(spine_fold(self.expr@, a1) == spine_fold(
                            ExprModel::Apply {
                                lhs: Box::new(self.expr@),
                                rhs: Box::new(rhsm),
                            },
                            snap_args(pre.stack.0@),
                        ));
                        assert(pre.expr@ == (ExprModel::Apply {
                            lhs: Box::new(self.expr@),
                            rhs: Box::new(rhsm),
                        }));
                        assert(snap(*self) == snap(pre));
                        lemma_stack_measure_push(pre.stack.0@, child);
                        assert(measure(*self) == m0);
                        assert forall|i: int| 0 <= i < st1.len() implies wf(#[trigger] st1[i])
                            && st1[i].context == self.context by {
                            if i < st1.len() - 1 {
                                assert(st1[i] == pre.stack.0@[i]);
                            }
                        }
                        assert(wf(*self));
                    }
                },
                _ => {
                    descending = false;
                },
            }
        }
        let ghost st0 = self.stack.0@;
        let ghost a_all = snap_args(st0);
        let ghost h = self.expr@;
        proof {
            lemma_snap_args_len(st0);
            lemma_spine_fold_decompose(h, a_all);
        }
        let maybe_arity = arity(self.context, &self.expr);
        let stack_len = self.stack.len();
        let mut popped: Option<Vec<EvalSteps<'a>>> = None;
        if let Some(a) = maybe_arity {
            if a >= 1 || stack_len >= 1 {
                popped = self.stack.pop(a);
            }
        }
        match popped {
            Some(args_steps) => {
                let a = args_steps.len();
                proof {
                    assert(head_applicable(ctx0, h, a_all.len() as nat));
                    assert(arity_val(ctx0, h) == a);
                }
                let mut argv: Vec<Expr> = Vec::new();
                let mut j: usize = 0;
                while j < a
                    invariant
                        j <= a,
                        a == args_steps@.len(),
                        argv@.len() == j,
                        forall|k: int| 0 <= k < j ==> argv@[k]@ == snap(args_steps@[k]),
                    decreases a - j,
                {
                    let ae = args_steps[j].expr();
                    argv.push(ae);
                    j += 1;
                }
                proof {
                    assert forall|k: int| 0 <= k < a implies models_of(argv@)[k] == a_all[k] by {
                        lemma_snap_args_at(st0, k);
                        assert(args_steps@[k] == st0[st0.len() - 1 - k]);
                    }
                    assert(models_of(argv@) =~= a_all.take(a as int));
                }
                let result = apply(self.context, &mut self.expr, argv);
                proof {
                    assert(result is Ok);
                    // the remaining stack carries exactly the later arguments
                    let st1 = self.stack.0@;
                    assert(st1 =~= st0.take(st0.len() - a));
                    lemma_snap_args_len(st1);
                    assert forall|i: int| 0 <= i < st1.len() implies snap_args(st1)[i]
                        == a_all[a + i] by {
                        lemma_snap_args_at(st1, i);
                        lemma_snap_args_at(st0, a + i);
                        assert(st1[st1.len() - 1 - i] == st0[st0.len() - 1 - (a + i)]);
                    }
                    assert(snap_args(st1) =~= a_all.skip(a as int));
                    assert(snap(*self) == spine_fold(
                        apply_model(ctx0, h, a_all.take(a as int)),
                        a_all.skip(a as int),
                    ));
                    assert(reduce_once(ctx0, snap0) == Some(snap(*self)));
                    // the reducer stays well-formed in the head-seeking phase
                    assert forall|i: int| 0 <= i < st1.len() implies wf(#[trigger] st1[i])
                        && st1[i].context == self.context by {
                        assert(st1[i] == st0[i]);
                    }
                    assert(wf(*self));
                }
                Some(self.expr())
            },
            None => {
                self.step = Phase::RightTree(0);
                proof {
                    assert(!head_applicable(ctx0, h, st0.len() as nat)) by {
                        match arity_model(ctx0, h) {
                            Some(ar) => {
                                assert(maybe_arity == Some(ar as usize));
                            },
                            None => {},
                        }
                    }
                    assert(snap(*self) == snap0);
                    assert(measure(*self) == m0);
                    assert(wf(*self));
                }
                self.next()
            },
        }
    }

    /// The argument phase: the head is in weak head normal form, so the
    /// `n`-th argument from the top of the spine tries to step; exhausted
    /// arguments pass the turn inward until none is left.
    pub fn right_tree(&mut self, n: usize) -> (r: Option<Expr>)
        requires
            wf(*old(self)),
            old(self).phase() == Phase::RightTree(n),
        ensures
            wf(*final(self)),
            final(self).ctx() == old(self).ctx(),
            match r {
                Some(e) => reduce_once(old(self).ctx()@, snap(*old(self))) == Some(e@)
                    && snap(*final(self)) == e@,
                None => reduce_once(old(self).ctx()@, snap(*old(self))) is None
                    && snap(*final(self)) == snap(*old(self))
                    && measure(*final(self)) == measure(*old(self)),
            },
        decreases measure(*self), 1nat, phase_rem(*self), 0int,
    {
        let ghost ctx0 = self.context@;
        let ghost snap0 = snap(*self);
        let ghost m0 = measure(*self);
        let ghost st0 = self.stack.0@;
        let ghost a_all = snap_args(st0);
        let ghost h = self.expr@;
        proof {
            lemma_snap_args_len(st0);
            lemma_spine_fold_decompose(h, a_all);
        }
        let len = self.stack.len();
        if n >= len {
            proof {
                assert forall|i: int| 0 <= i < a_all.len() implies is_normal(
                    ctx0,
                    #[trigger] a_all[i],
                ) by {
                    lemma_snap_args_at(st0, i);
                    assert(is_normal(ctx0, snap(st0[st0.len() - 1 - i])));
                }
                lemma_reduce_first_none(ctx0, a_all);
                assert(reduce_once(ctx0, snap0) is None);
            }
            self.step = Phase::Done;
            proof {
                assert(snap(*self) == snap0);
                assert(measure(*self) == m0);
                assert(wf(*self));
            }
            self.next()
        } else {
            let idx = len - 1 - n;
            let mut child = self.stack.0.remove(idx);
            let ghost child0 = child;
            proof {
                assert(child0 == st0[idx as int]);
                assert(wf(child0));
                lemma_stack_measure_elem(st0, idx as int);
                assert(measure(child0) < m0);
                lemma_snap_args_at(st0, n as int);
                assert(a_all[n as int] == snap(child0));
            }
            let stepped = child.next();
            self.stack.0.insert(idx, child);
            proof {
                assert(self.stack.0@ =~= st0.update(idx as int, child));
            }
            match stepped {
                Some(e) => {
                    proof {
                        let st1 = self.stack.0@;
                        lemma_snap_args_len(st1);
                        assert forall|i: int| 0 <= i < st1.len() implies snap_args(st1)[i]
                            == a_all.update(n as int, e@)[i] by {
                            lemma_snap_args_at(st1, i);
                            lemma_snap_args_at(st0, i);
                            if i != n {
                                assert(st1[st1.len() - 1 - i] == st0[st0.len() - 1 - i]);
                            } else {
                                assert(st1[st1.len() - 1 - i] == child);
                            }
                        }
                        assert(snap_args(st1) =~= a_all.update(n as int, e@));
                        assert forall|i: int| 0 <= i < n implies is_normal(
                            ctx0,
                            #[trigger] a_all[i],
                        ) by {
                            lemma_snap_args_at(st0, i);
                            assert(is_normal(ctx0, snap(st0[st0.len() - 1 - i])));
                        }
                        lemma_reduce_first_at(ctx0, a_all, n as int, e@);
                        assert(reduce_once(ctx0, snap0) == Some(spine_fold(
                            h,
                            a_all.update(n as int, e@),
                        )));
                        assert(snap(*self) == spine_fold(h, a_all.update(n as int, e@)));
                        // still well-formed, still trying the same argument
                        assert forall|i: int| 0 <= i < st1.len() implies wf(#[trigger] st1[i])
                            && st1[i].context == self.context by {
                            if i != idx {
                                assert(st1[i] == st0[i]);
                            }
                        }
                        assert forall|i: int| 0 <= i < n implies is_normal(
                            ctx0,
                            snap(#[trigger] st1[st1.len() - 1 - i]),
                        ) by {
                            assert(st1[st1.len() - 1 - i] == st0[st0.len() - 1 - i]);
                            lemma_snap_args_at(st0, i);
                        }
                        assert(wf(*self));
                    }
                    Some(self.expr())
                },
                None => {
                    self.step = Phase::RightTree(n + 1);
                    proof {
                        let st1 = self.stack.0@;
                        lemma_snap_args_len(st1);
                        assert forall|i: int| 0 <= i < st1.len() implies snap_args(st1)[i]
                            == a_all[i] by {
                            lemma_snap_args_at(st1, i);
                            lemma_snap_args_at(st0, i);
                            if i != n {
                                assert(st1[st1.len() - 1 - i] == st0[st0.len() - 1 - i]);
                            } else {
                                assert(st1[st1.len() - 1 - i] == child);
                            }
                        }
                        assert(snap_args(st1) =~= a_all);
                        assert(snap(*self) == snap0);
                        lemma_stack_measure_remove(st0, idx as int);
                        lemma_stack_measure_insert(st0.remove(idx as int), idx as int, child);
                        assert(st0.remove(idx as int).insert(idx as int, child) =~= st1);
                        assert(measure(*self) == m0);
                        // the argument just exhausted is now known normal
                        assert forall|i: int| 0 <= i < st1.len() implies wf(#[trigger] st1[i])
                            && st1[i].context == self.context by {
                            if i != idx {
                                assert(st1[i] == st0[i]);
                            }
                        }
                        assert forall|i: int| 0 <= i < n + 1 implies is_normal(
                            ctx0,
                            snap(#[trigger] st1[st1.len() - 1 - i]),
                        ) by {
                            if i < n {
                                assert(st1[st1.len() - 1 - i] == st0[st0.len() - 1 - i]);
                                lemma_snap_args_at(st0, i);
                            } else {
                                assert(st1[st1.len() - 1 - i] == child);
                            }
                        }
                        assert(wf(*self));
                    }
                    self.next()
                },
            }
        }
    }
}

/// When every argument is normal, none steps.
pub proof fn lemma_reduce_first_none(ctx: Seq<FuncModel>, args: Seq<ExprModel>)
    requires
        forall|i: int| 0 <= i < args.len() ==> is_normal(ctx, #[trigger] args[i]),
    ensures
        reduce_first(ctx, args) is None,
    decreases args.len(),
{
    if args.len() > 0 {
        assert forall|i: int| 0 <= i < args.drop_first().len() implies is_normal(
            ctx,
            #[trigger] args.drop_first()[i],
        ) by {
            assert(args.drop_first()[i] == args[i + 1]);
        }
        lemma_reduce_first_none(ctx, args.drop_first());
    }
}

// ------------------------------------------------------------------------ //
// Iterated steps and bulk evaluation.

/// The term after exactly `k` leftmost-outermost steps, or `None` when the
/// reduction reaches normal form earlier.
pub open spec fn steps_opt(ctx: Seq<FuncModel>, e: ExprModel, k: nat) -> Option<ExprModel>
    decreases k,
{
    if k == 0 {
        Some(e)
    } else {
        match reduce_once(ctx, e) {
            Some(e1) => steps_opt(ctx, e1, (k - 1) as nat),
            None => None,
        }
    }
}

/// One step prepended to an iteration.
pub proof fn lemma_steps_opt_step(ctx: Seq<FuncModel>, e: ExprModel, e1: ExprModel, k: nat)
    requires
        reduce_once(ctx, e) == Some(e1),
    ensures
        steps_opt(ctx, e, k + 1) == steps_opt(ctx, e1, k),
{
}

/// One step appended to an iteration.
pub proof fn lemma_steps_opt_extend(ctx: Seq<FuncModel>, e: ExprModel, x: ExprModel, y: ExprModel, k: nat)
    requires
        steps_opt(ctx, e, k) == Some(x),
        reduce_once(ctx, x) == Some(y),
    ensures
        steps_opt(ctx, e, k + 1) == Some(y),
    decreases k,
{
    if k == 0 {
        assert(x == e);
        assert(steps_opt(ctx, y, 0) == Some(y));
        assert(steps_opt(ctx, e, 1) == steps_opt(ctx, y, 0));
    } else {
        let e1 = reduce_once(ctx, e).unwrap();
        lemma_steps_opt_extend(ctx, e1, x, y, (k - 1) as nat);
        assert(steps_opt(ctx, e, k + 1) == steps_opt(ctx, e1, k));
    }
}

/// Past a normal form no longer iteration is possible.
pub proof fn lemma_steps_opt_stuck(ctx: Seq<FuncModel>, e: ExprModel, x: ExprModel, k: nat, m: nat)
    requires
        steps_opt(ctx, e, k) == Some(x),
        reduce_once(ctx, x) is None,
        m > k,
    ensures
        steps_opt(ctx, e, m) is None,
    decreases k,
{
    if k == 0 {
    } else {
        let e1 = reduce_once(ctx, e).unwrap();
        lemma_steps_opt_stuck(ctx, e1, x, (k - 1) as nat, (m - 1) as nat);
    }
}

impl<'a> EvalSteps<'a> {
    /// Runs up to `limit` steps and returns the last term produced, with a
    /// best-effort "there may be more" flag. `(None, false)` means the term
    /// was already normal; a `false` flag guarantees the returned term is a
    /// normal form; a `true` flag means the limit was reached, whether or
    /// not a further step exists.
    pub fn eval_last(&mut self, limit: usize) -> (r: (Option<Expr>, bool))
        requires
            0 < limit,
            wf(*old(self)),
        ensures
            wf(*final(self)),
            final(self).ctx() == old(self).ctx(),
            match r.0 {
                None => r.1 == false && reduce_once(old(self).ctx()@, snap(*old(self))) is None,
                Some(e) => {
                    let ctx = old(self).ctx()@;
                    let start = snap(*old(self));
                    if steps_opt(ctx, start, limit as nat) is Some {
                        steps_opt(ctx, start, limit as nat) == Some(e@) && r.1 == true
                    } else {
                        (exists|k: int|
                            1 <= k < limit && #[trigger] steps_opt(ctx, start, k as nat)
                                == Some(e@))
                            && reduce_once(ctx, e@) is None && r.1 == false
                    }
                },
            },
    {
        let ghost ctx0 = self.ctx()@;
        let ghost start = snap(*self);
        match self.next() {
            None => (None, false),
            Some(first) => {
                let mut e = first;
                let mut j: usize = 0;
                proof {
                    assert(steps_opt(ctx0, e@, 0) == Some(e@));
                    assert(steps_opt(ctx0, start, 1) == steps_opt(ctx0, e@, 0));
                }
                while j < limit - 1
                    invariant
                        wf(*self),
                        self.ctx()@ == ctx0,
                        0 < limit,
                        j <= limit - 1,
                        snap(*self) == e@,
                        self.ctx() == old(self).ctx(),
                        ctx0 == old(self).ctx()@,
                        start == snap(*old(self)),
                        steps_opt(ctx0, start, (j + 1) as nat) == Some(e@),
                    decreases limit - 1 - j,
                {
                    match self.next() {
                        Some(stepped) => {
                            proof {
                                lemma_steps_opt_extend(ctx0, start, e@, stepped@, (j + 1) as nat);
                            }
                            e = stepped;
                        },
                        None => {
                            proof {
                                assert(reduce_once(ctx0, e@) is None);
                                lemma_steps_opt_stuck(
                                    ctx0,
                                    start,
                                    e@,
                                    (j + 1) as nat,
                                    limit as nat,
                                );
                                assert(steps_opt(ctx0, start, limit as nat) is None);
                                assert(1 <= j + 1 < limit);
                                assert(steps_opt(ctx0, start, (j + 1) as nat) == Some(e@));
                            }
                            return (Some(e), false);
                        },
                    }
                    j += 1;
                }
                (Some(e), true)
            },
        }
    }
}

// ------------------------------------------------------------------------ //
// Laws of the reducer.

/// `reduce_first` answers `None` only over normal arguments.
proof fn lemma_reduce_first_none_inv(ctx: Seq<FuncModel>, args: Seq<ExprModel>)
    requires
        reduce_first(ctx, args) is None,
    ensures
        forall|i: int| 0 <= i < args.len() ==> is_normal(ctx, #[trigger] args[i]),
    decreases args.len(),
{
    if args.len() > 0 {
        lemma_reduce_first_none_inv(ctx, args.drop_first());
        assert forall|i: int| 0 <= i < args.len() implies is_normal(ctx, #[trigger] args[i]) by {
            if i > 0 {
                assert(args.drop_first()[i - 1] == args[i]);
            }
        }
    }
}

/// A term is normal exactly when its head cannot fire and each spine
/// argument is normal.
pub proof fn lemma_normal_char(ctx: Seq<FuncModel>, e: ExprModel)
    ensures
        is_normal(ctx, e) <==> (!head_applicable(ctx, spine_head(e), spine_args(e).len() as nat)
            && (forall|i: int|
                0 <= i < spine_args(e).len() ==> is_normal(ctx, #[trigger] spine_args(e)[i]))),
{
    let h = spine_head(e);
    let args = spine_args(e);
    if is_normal(ctx, e) {
        if args.len() > 0 {
            lemma_reduce_first_none_inv(ctx, args);
        }
    } else {
        if !head_applicable(ctx, h, args.len() as nat) && (forall|i: int|
            0 <= i < args.len() ==> is_normal(ctx, #[trigger] args[i])) {
            if args.len() > 0 {
                lemma_reduce_first_none(ctx, args);
            }
        }
    }
}

/// A redex reachable without crossing a lambda: the spine head of `e` or of
/// one of its applications can fire.
pub open spec fn has_weak_redex(ctx: Seq<FuncModel>, e: ExprModel) -> bool
    decreases e,
{
    ||| head_applicable(ctx, spine_head(e), spine_args(e).len() as nat)
    ||| match e {
        ExprModel::Apply { lhs, rhs } => has_weak_redex(ctx, *lhs) || has_weak_redex(ctx, *rhs),
        _ => false,
    }
}

/// When the reducer answers `None`, no subterm reachable without crossing a
/// lambda is a redex. (A redex buried under a lambda binder is out of reach
/// of weak reduction and may remain.)
pub proof fn lemma_normal_no_weak_redex(ctx: Seq<FuncModel>, e: ExprModel)
    requires
        is_normal(ctx, e),
    ensures
        !has_weak_redex(ctx, e),
    decreases e,
{
    lemma_normal_char(ctx, e);
    match e {
        ExprModel::Apply { lhs, rhs } => {
            let h = spine_head(e);
            let args = spine_args(e);
            assert(args == spine_args(*lhs).push(*rhs));
            assert(args.last() == *rhs);
            assert(args[args.len() - 1] == *rhs);
            assert(is_normal(ctx, *rhs));
            lemma_normal_no_weak_redex(ctx, *rhs);
            // the left part keeps the same head over one argument fewer
            assert(spine_head(*lhs) == h);
            assert(!head_applicable(ctx, h, spine_args(*lhs).len() as nat)) by {
                if head_applicable(ctx, h, spine_args(*lhs).len() as nat) {
                    assert(head_applicable(ctx, h, args.len() as nat));
                }
            }
            assert forall|i: int| 0 <= i < spine_args(*lhs).len() implies is_normal(
                ctx,
                #[trigger] spine_args(*lhs)[i],
            ) by {
                assert(args[i] == spine_args(*lhs)[i]);
            }
            lemma_normal_char(ctx, *lhs);
            lemma_normal_no_weak_redex(ctx, *lhs);
        },
        _ => {},
    }
}

/// A term of symbols and applications alone.
pub open spec fn symbols_only(e: ExprModel) -> bool
    decreases e,
{
    match e {
        ExprModel::Symbol { .. } => true,
        ExprModel::Apply { lhs, rhs } => symbols_only(*lhs) && symbols_only(*rhs),
        _ => false,
    }
}

proof fn lemma_symbols_only_spine(e: ExprModel)
    requires
        symbols_only(e),
    ensures
        spine_head(e) is Symbol,
        forall|i: int| 0 <= i < spine_args(e).len() ==> symbols_only(#[trigger] spine_args(e)[i]),
    decreases e,
{
    match e {
        ExprModel::Apply { lhs, rhs } => {
            lemma_symbols_only_spine(*lhs);
            assert forall|i: int| 0 <= i < spine_args(e).len() implies symbols_only(
                #[trigger] spine_args(e)[i],
            ) by {
                if i < spine_args(e).len() - 1 {
                    assert(spine_args(e)[i] == spine_args(*lhs)[i]);
                } else {
                    assert(spine_args(e)[i] == *rhs);
                }
            }
        },
        _ => {},
    }
}

/// Symbols are inert: a term consisting only of symbols and applications is
/// already in normal form under every context.
pub proof fn lemma_symbols_inert(ctx: Seq<FuncModel>, e: ExprModel)
    requires
        symbols_only(e),
    ensures
        is_normal(ctx, e),
    decreases esize(e),
{
    lemma_symbols_only_spine(e);
    assert forall|i: int| 0 <= i < spine_args(e).len() implies is_normal(
        ctx,
        #[trigger] spine_args(e)[i],
    ) by {
        lemma_spine_args_smaller(e, i);
        lemma_symbols_inert(ctx, spine_args(e)[i]);
    }
    lemma_normal_char(ctx, e);
}

/// Spine arguments are strictly smaller subterms.
proof fn lemma_spine_args_smaller(e: ExprModel, i: int)
    requires
        0 <= i < spine_args(e).len(),
    ensures
        esize(spine_args(e)[i]) < esize(e),
    decreases e,
{
    match e {
        ExprModel::Apply { lhs, rhs } => {
            if i < spine_args(*lhs).len() {
                assert(spine_args(e)[i] == spine_args(*lhs)[i]);
                lemma_spine_args_smaller(*lhs, i);
            } else {
                assert(spine_args(e)[i] == *rhs);
            }
        },
        _ => {},
    }
}

/// Applying a defined function to exactly as many arguments as it has
/// parameters reduces, in one step, to the simultaneous capture-avoiding
/// substitution of the arguments into its body; since each term has at most
/// one leftmost-outermost step, the application and the substituted body
/// then share every later step, and in particular any normal form.
pub proof fn lemma_apply_function(ctx: Seq<FuncModel>, f: FuncModel, args: Seq<ExprModel>)
    requires
        lookup_func(ctx, f.name) == Some(f),
        f.params.len() == args.len(),
        f.params.len() >= 1,
    ensures
        reduce_once(ctx, spine_fold(ExprModel::Variable { id: f.name }, args)) == Some(
            crate::subst::subst_sim_model(f.body, crate::apply::zip_params(f.params, args)),
        ),
        forall|k: nat|
            steps_opt(ctx, spine_fold(ExprModel::Variable { id: f.name }, args), k + 1)
                == steps_opt(
                ctx,
                crate::subst::subst_sim_model(f.body, crate::apply::zip_params(f.params, args)),
                k,
            ),
{
    let h = ExprModel::Variable { id: f.name };
    let e = spine_fold(h, args);
    lemma_spine_fold_decompose(h, args);
    assert(arity_model(ctx, h) == Some(f.params.len()));
    assert(head_applicable(ctx, h, args.len() as nat));
    assert(args.take(args.len() as int) =~= args);
    assert(args.skip(args.len() as int) =~= Seq::<ExprModel>::empty());
    let reduct = apply_model(ctx, h, args);
    assert(spine_fold(reduct, Seq::empty()) == reduct);
    assert(reduce_once(ctx, e) == Some(reduct));
    assert forall|k: nat|
        steps_opt(ctx, e, k + 1) == steps_opt(ctx, reduct, k) by {
        lemma_steps_opt_step(ctx, e, reduct, k);
    }
}

} // verus!
