//! Rewriting trees. Rules are written against this interface, for expressions
//! and plans alike.

use std::sync::Arc;
use vstd::prelude::*;

use crate::error::{BasaltError, ErrorKind};
use crate::expr::expr::{
    children_round_trip, expr_children, expr_views, expr_with_children, Expr, ExprView,
};
use crate::logical_plan::plan::{
    input_views, inputs_round_trip, plan_inputs, plan_with_inputs, LogicalPlan, PlanView,
};

verus! {

/// Whether a rewrite changed anything.
#[derive(Debug)]
pub enum Transformed<T> {
    /// Changed.
    Yes(T),
    /// Unchanged.
    No(T),
}

impl<T> Transformed<T> {
    /// What was rewritten.
    pub open spec fn inner(self) -> T {
        match self {
            Transformed::Yes(t) => t,
            Transformed::No(t) => t,
        }
    }

    pub fn into_inner(self) -> (r: T)
        ensures
            r == self.inner(),
    {
        match self {
            Transformed::Yes(t) => t,
            Transformed::No(t) => t,
        }
    }

    pub fn is_yes(&self) -> (r: bool)
        ensures
            r == (*self is Yes),
    {
        match self {
            Transformed::Yes(t) => true,
            Transformed::No(t) => false,
        }
    }

    /// Rewrites what is inside, and keeps the flag.
    #[must_use]
    pub fn map<U, F: FnOnce(T) -> U>(self, f: F) -> (r: Transformed<U>)
        requires
            f.requires((self.inner(),)),
        ensures
            (r is Yes) == (self is Yes),
            f.ensures((self.inner(),), r.inner()),
    {
        match self {
            Transformed::Yes(t) => Transformed::Yes(f(t)),
            Transformed::No(t) => Transformed::No(f(t)),
        }
    }

    /// Changed when it was, or when something else was.
    #[must_use]
    pub fn or(self, other_changed: bool) -> (r: Transformed<T>)
        ensures
            r.inner() == self.inner(),
            (r is Yes) == (self is Yes || other_changed),
    {
        match self {
            Transformed::Yes(t) => Transformed::Yes(t),
            Transformed::No(t) => {
                if other_changed {
                    Transformed::Yes(t)
                } else {
                    Transformed::No(t)
                }
            },
        }
    }
}

/// What a read-only walk does next.
#[derive(Debug, Clone, Copy, PartialEq, Eq, Structural)]
pub enum VisitRecursion {
    Continue,
    Stop,
}

/// The model of a rewrite: whether it changed anything, and what came out.
pub struct Rewritten<V> {
    pub changed: bool,
    pub node: V,
}

/// A rewrite of one node.
pub type Step<V> = spec_fn(V) -> Result<Rewritten<V>, ErrorKind>;

/// A tree that can be taken apart and put together again.
pub trait TreeNode: Sized {
    /// What the tree is a value of.
    type Model;

    spec fn model(&self) -> Self::Model;

    /// A bound on the depth of a tree.
    spec fn height(m: Self::Model) -> nat;

    /// The trees directly below the root.
    spec fn parts(m: Self::Model) -> Seq<Self::Model>;

    /// The same root over other trees.
    spec fn with_parts(m: Self::Model, parts: Seq<Self::Model>) -> Self::Model;

    /// A root over what is below it is the tree itself.
    proof fn parts_round_trip(m: Self::Model)
        ensures
            Self::with_parts(m, Self::parts(m)) == m,
    ;

    /// What is below a root is less deep.
    proof fn parts_are_lower(m: Self::Model, i: int)
        requires
            0 <= i < Self::parts(m).len(),
        ensures
            Self::height(Self::parts(m)[i]) < Self::height(m),
    ;

    fn copy_node(&self) -> (r: Self)
        ensures
            r.model() == self.model(),
    ;

    fn children_nodes(&self) -> (r: Vec<&Self>)
        ensures
            r@.len() == Self::parts(self.model()).len(),
            forall|i: int|
                0 <= i < r@.len() ==> (#[trigger] r@[i]).model() == Self::parts(self.model())[i],
    ;

    /// # Errors
    /// An internal error unless there are as many children as before.
    fn with_new_children_nodes(&self, children: Vec<Self>) -> (r: Result<Self, BasaltError>)
        ensures
            match r {
                Ok(n) => children@.len() == Self::parts(self.model()).len() && n.model()
                    == Self::with_parts(
                    self.model(),
                    Seq::new(children@.len(), |i: int| children@[i].model()),
                ),
                Err(e) => children@.len() != Self::parts(self.model()).len() && e@
                    == ErrorKind::Internal,
            },
    ;
}

/// The model of a rewrite's outcome.
pub open spec fn outcome<T: TreeNode>(r: Result<Transformed<T>, BasaltError>) -> Result<
    Rewritten<T::Model>,
    ErrorKind,
> {
    match r {
        Ok(Transformed::Yes(t)) => Ok(Rewritten { changed: true, node: t.model() }),
        Ok(Transformed::No(t)) => Ok(Rewritten { changed: false, node: t.model() }),
        Err(e) => Err(e@),
    }
}

/// Whether a function does what a step says.
pub open spec fn implements<T: TreeNode, F: Fn(T) -> Result<Transformed<T>, BasaltError>>(
    f: F,
    step: Step<T::Model>,
) -> bool {
    forall|x: T, y: Result<Transformed<T>, BasaltError>| #[trigger]
        f.ensures((x,), y) ==> outcome(y) == step(x.model())
}

/// Whether a function can be called on every tree.
pub open spec fn callable<T: TreeNode, F: Fn(T) -> Result<Transformed<T>, BasaltError>>(
    f: F,
) -> bool {
    forall|x: T| #[trigger] f.requires((x,))
}

/// The first `n` trees below a root, rewritten from the leaves up.
pub open spec fn parts_up<T: TreeNode>(m: T::Model, step: Step<T::Model>, n: nat) -> Result<
    Rewritten<Seq<T::Model>>,
    ErrorKind,
>
    decreases T::height(m), n,
{
    if n == 0 {
        Ok(Rewritten { changed: false, node: seq![] })
    } else if n > T::parts(m).len() {
        Err(ErrorKind::Internal)
    } else {
        proof {
            T::parts_are_lower(m, n - 1);
        }
        match parts_up::<T>(m, step, (n - 1) as nat) {
            Err(k) => Err(k),
            Ok(done) => match up::<T>(T::parts(m)[n - 1], step) {
                Err(k) => Err(k),
                Ok(r) => Ok(
                    Rewritten {
                        changed: done.changed || r.changed,
                        node: done.node.push(r.node),
                    },
                ),
            },
        }
    }
}

/// A tree rewritten from the leaves up: first what is below the root, then the
/// root over the result.
pub open spec fn up<T: TreeNode>(m: T::Model, step: Step<T::Model>) -> Result<
    Rewritten<T::Model>,
    ErrorKind,
>
    decreases T::height(m), T::parts(m).len() + 1,
{
    match parts_up::<T>(m, step, T::parts(m).len()) {
        Err(k) => Err(k),
        Ok(below) => match step(T::with_parts(m, below.node)) {
            Err(k) => Err(k),
            Ok(r) => Ok(Rewritten { changed: r.changed || below.changed, node: r.node }),
        },
    }
}

proof fn lemma_parts_up_error<T: TreeNode>(m: T::Model, step: Step<T::Model>, a: nat, n: nat)
    requires
        a <= n <= T::parts(m).len(),
        parts_up::<T>(m, step, a) is Err,
    ensures
        parts_up::<T>(m, step, n) == parts_up::<T>(m, step, a),
    decreases n - a,
{
    if a < n {
        lemma_parts_up_error::<T>(m, step, a, (n - 1) as nat);
    }
}

/// Rewrites a tree from the leaves up.
///
/// # Errors
/// The first error of `f`.
pub fn transform_up<T: TreeNode, F: Fn(T) -> Result<Transformed<T>, BasaltError>>(
    node: &T,
    f: &F,
) -> (r: Result<Transformed<T>, BasaltError>)
    requires
        callable::<T, F>(*f),
    ensures
        forall|step: Step<T::Model>| #[trigger]
            implements::<T, F>(*f, step) ==> outcome(r) == up::<T>(node.model(), step),
    decreases T::height(node.model()),
{
    let ghost m = node.model();
    let children = node.children_nodes();
    let mut any_child_changed = false;
    let mut new_children: Vec<T> = Vec::new();
    let mut i: usize = 0;
    proof {
        assert(Seq::new(new_children@.len(), |k: int| new_children@[k].model()) =~= seq![]);
    }
    while i < children.len()
        invariant
            i <= children@.len(),
            m == node.model(),
            callable::<T, F>(*f),
            children@.len() == T::parts(m).len(),
            forall|k: int| 0 <= k < children@.len() ==> (#[trigger] children@[k]).model() == T::parts(m)[k],
            new_children@.len() == i,
            forall|step: Step<T::Model>| #[trigger]
                implements::<T, F>(*f, step) ==> parts_up::<T>(m, step, i as nat) == Ok::<
                    Rewritten<Seq<T::Model>>,
                    ErrorKind,
                >(
                    (Rewritten {
                        changed: any_child_changed,
                        node: Seq::new(new_children@.len(), |k: int| new_children@[k].model()),
                    }),
                ),
        decreases children@.len() - i,
    {
        proof {
            T::parts_are_lower(m, i as int);
        }
        let ghost was = Seq::new(new_children@.len(), |k: int| new_children@[k].model());
        match transform_up(children[i], f) {
            Err(e) => {
                proof {
                    assert forall|step: Step<T::Model>| #[trigger]
                        implements::<T, F>(*f, step) implies up::<T>(m, step) == Err::<
                        Rewritten<T::Model>,
                        ErrorKind,
                    >(e@) by {
                        lemma_parts_up_error::<T>(m, step, (i + 1) as nat, T::parts(m).len());
                    }
                }
                return Err(e);
            },
            Ok(t) => {
                if t.is_yes() {
                    any_child_changed = true;
                }
                let inner = t.into_inner();
                new_children.push(inner);
                proof {
                    let now = Seq::new(new_children@.len(), |k: int| new_children@[k].model());
                    assert(now =~= was.push(inner.model()));
                }
            },
        }
        i = i + 1;
    }
    let ghost parts = Seq::new(new_children@.len(), |k: int| new_children@[k].model());
    match node.with_new_children_nodes(new_children) {
        Err(e) => Err(e),
        Ok(rebuilt) => {
            assert(f.requires((rebuilt,)));
            match f(rebuilt) {
                Err(e) => Err(e),
                Ok(t) => Ok(t.or(any_child_changed)),
            }
        },
    }
}

/// Whether a step that reports no change makes none.
pub open spec fn honest<V>(step: Step<V>) -> bool {
    forall|m: V| (#[trigger] step(m)) is Ok && !step(m)->Ok_0.changed ==> step(m)->Ok_0.node == m
}

/// If no step reports a change without making one, neither does rewriting a
/// whole tree from the leaves up.
pub proof fn unchanged_trees_are_the_same<T: TreeNode>(m: T::Model, step: Step<T::Model>)
    requires
        honest(step),
        up::<T>(m, step) is Ok,
        !up::<T>(m, step)->Ok_0.changed,
    ensures
        up::<T>(m, step)->Ok_0.node == m,
    decreases T::height(m), T::parts(m).len() + 1,
{
    let n = T::parts(m).len();
    lemma_unchanged_parts::<T>(m, step, n);
    let below = parts_up::<T>(m, step, n)->Ok_0;
    assert(below.node =~= T::parts(m));
    T::parts_round_trip(m);
    assert(step(m) is Ok);
}

proof fn lemma_unchanged_parts<T: TreeNode>(m: T::Model, step: Step<T::Model>, n: nat)
    requires
        honest(step),
        n <= T::parts(m).len(),
        parts_up::<T>(m, step, n) is Ok,
        !parts_up::<T>(m, step, n)->Ok_0.changed,
    ensures
        parts_up::<T>(m, step, n)->Ok_0.node == T::parts(m).take(n as int),
    decreases T::height(m), n,
{
    if n > 0 {
        T::parts_are_lower(m, n - 1);
        lemma_unchanged_parts::<T>(m, step, (n - 1) as nat);
        unchanged_trees_are_the_same::<T>(T::parts(m)[n - 1], step);
        assert(T::parts(m).take(n as int) =~= T::parts(m).take(n - 1).push(T::parts(m)[n - 1]));
    } else {
        assert(T::parts(m).take(0) =~= seq![]);
    }
}

/// The number of nodes of a tree.
pub open spec fn node_count<T: TreeNode>(m: T::Model) -> nat
    decreases T::height(m), T::parts(m).len() + 1,
{
    parts_count::<T>(m, T::parts(m).len()) + 1
}

/// The number of nodes of the first `n` trees below a root.
pub open spec fn parts_count<T: TreeNode>(m: T::Model, n: nat) -> nat
    decreases T::height(m), n,
{
    if n == 0 || n > T::parts(m).len() {
        0
    } else {
        proof {
            T::parts_are_lower(m, n - 1);
        }
        parts_count::<T>(m, (n - 1) as nat) + node_count::<T>(T::parts(m)[n - 1])
    }
}

/// The nodes that a step is given while a tree is rewritten from the leaves up:
/// those below the root, left to right, then the root over their results.
pub open spec fn given_up<T: TreeNode>(m: T::Model, step: Step<T::Model>) -> Seq<T::Model>
    decreases T::height(m), T::parts(m).len() + 1,
{
    let n = T::parts(m).len();
    parts_given_up::<T>(m, step, n).push(
        T::with_parts(m, parts_up::<T>(m, step, n)->Ok_0.node),
    )
}

/// The nodes that a step is given for the first `n` trees below a root.
pub open spec fn parts_given_up<T: TreeNode>(m: T::Model, step: Step<T::Model>, n: nat) -> Seq<
    T::Model,
>
    decreases T::height(m), n,
{
    if n == 0 || n > T::parts(m).len() {
        seq![]
    } else {
        proof {
            T::parts_are_lower(m, n - 1);
        }
        parts_given_up::<T>(m, step, (n - 1) as nat) + given_up::<T>(T::parts(m)[n - 1], step)
    }
}

/// Whether a step succeeds on every one of some nodes.
pub open spec fn all_succeed<V>(step: Step<V>, nodes: Seq<V>) -> bool {
    forall|i: int| 0 <= i < nodes.len() ==> (#[trigger] step(nodes[i])) is Ok
}

/// Whether a step changes one of some nodes.
pub open spec fn some_change<V>(step: Step<V>, nodes: Seq<V>) -> bool {
    exists|i: int| 0 <= i < nodes.len() && (#[trigger] step(nodes[i]))->Ok_0.changed
}

proof fn lemma_given_concat<V>(step: Step<V>, a: Seq<V>, b: Seq<V>)
    ensures
        all_succeed(step, a + b) <==> all_succeed(step, a) && all_succeed(step, b),
        some_change(step, a + b) <==> some_change(step, a) || some_change(step, b),
{
    let all = a + b;
    assert forall|i: int| 0 <= i < a.len() implies #[trigger] step(a[i]) == step(all[i]) by {
        assert(all[i] == a[i]);
    }
    assert forall|i: int| 0 <= i < b.len() implies #[trigger] step(b[i]) == step(
        all[a.len() + i],
    ) by {
        assert(all[a.len() + i] == b[i]);
    }
    assert forall|i: int| 0 <= i < all.len() implies #[trigger] step(all[i]) == if i < a.len() {
        step(a[i])
    } else {
        step(b[i - a.len()])
    } by {}
    if all_succeed(step, all) {
        assert(all_succeed(step, a));
        assert(all_succeed(step, b));
    }
    if some_change(step, a) {
        let i = choose|i: int| 0 <= i < a.len() && (#[trigger] step(a[i]))->Ok_0.changed;
        assert(step(all[i])->Ok_0.changed);
    }
    if some_change(step, b) {
        let i = choose|i: int| 0 <= i < b.len() && (#[trigger] step(b[i]))->Ok_0.changed;
        assert(step(all[a.len() + i])->Ok_0.changed);
    }
    if some_change(step, all) {
        let i = choose|i: int| 0 <= i < all.len() && (#[trigger] step(all[i]))->Ok_0.changed;
        if i < a.len() {
            assert(step(a[i])->Ok_0.changed);
        } else {
            assert(step(b[i - a.len()])->Ok_0.changed);
        }
    }
}

/// Rewriting a tree from the leaves up hands every node to the step once,
/// children before their parent and the parent over their results. It reports a
/// change exactly when some step does, ends with what the step makes of the
/// root, and fails only with an error of the step.
pub proof fn trees_change_where_a_step_does<T: TreeNode>(m: T::Model, step: Step<T::Model>)
    ensures
        up::<T>(m, step) matches Ok(r) ==> {
            let nodes = given_up::<T>(m, step);
            &&& nodes.len() == node_count::<T>(m)
            &&& all_succeed(step, nodes)
            &&& r.changed <==> some_change(step, nodes)
            &&& step(nodes.last()) matches Ok(root) && root.node == r.node
        },
        up::<T>(m, step) matches Err(k) ==> exists|x: T::Model| #[trigger]
            step(x) == Err::<Rewritten<T::Model>, ErrorKind>(k),
    decreases T::height(m), T::parts(m).len() + 1,
{
    let n = T::parts(m).len();
    lemma_parts_change::<T>(m, step, n);
    if let Ok(below) = parts_up::<T>(m, step, n) {
        let root = T::with_parts(m, below.node);
        if step(root) is Ok {
            let before = parts_given_up::<T>(m, step, n);
            let one = seq![root];
            lemma_given_concat(step, before, one);
            assert(given_up::<T>(m, step) =~= before + one);
            assert(one[0] == root);
            assert(all_succeed(step, one));
            assert(some_change(step, one) <==> step(root)->Ok_0.changed) by {
                if step(root)->Ok_0.changed {
                    assert(step(one[0])->Ok_0.changed);
                }
            }
            assert(given_up::<T>(m, step).last() == root);
        }
    }
}

proof fn lemma_parts_change<T: TreeNode>(m: T::Model, step: Step<T::Model>, n: nat)
    requires
        n <= T::parts(m).len(),
    ensures
        parts_up::<T>(m, step, n) matches Ok(r) ==> {
            let nodes = parts_given_up::<T>(m, step, n);
            &&& nodes.len() == parts_count::<T>(m, n)
            &&& all_succeed(step, nodes)
            &&& r.changed <==> some_change(step, nodes)
        },
        parts_up::<T>(m, step, n) matches Err(k) ==> exists|x: T::Model| #[trigger]
            step(x) == Err::<Rewritten<T::Model>, ErrorKind>(k),
    decreases T::height(m), n,
{
    if n > 0 {
        T::parts_are_lower(m, n - 1);
        lemma_parts_change::<T>(m, step, (n - 1) as nat);
        trees_change_where_a_step_does::<T>(T::parts(m)[n - 1], step);
        lemma_given_concat(
            step,
            parts_given_up::<T>(m, step, (n - 1) as nat),
            given_up::<T>(T::parts(m)[n - 1], step),
        );
    }
}

/// Whether what a step leaves below a root is always less than the root was,
/// by some measure. Rewriting from the root down ends where this holds.
pub open spec fn descends<T: TreeNode>(
    step: Step<T::Model>,
    measure: spec_fn(T::Model) -> nat,
) -> bool {
    forall|m: T::Model, i: int|
        #![trigger step(m), T::parts(step(m)->Ok_0.node)[i]]
        step(m) is Ok && 0 <= i < T::parts(step(m)->Ok_0.node).len() ==> measure(
            T::parts(step(m)->Ok_0.node)[i],
        ) < measure(m)
}

/// Whether a measure shows that rewriting with `f` from the root down ends.
pub open spec fn bounds<T: TreeNode, F: Fn(T) -> Result<Transformed<T>, BasaltError>>(
    f: F,
    measure: spec_fn(T::Model) -> nat,
) -> bool {
    exists|step: Step<T::Model>| #[trigger]
        implements::<T, F>(f, step) && descends::<T>(step, measure)
}

/// What is below the root after a step, the first `n` trees rewritten from the
/// root down.
pub open spec fn parts_down<T: TreeNode>(
    m: T::Model,
    step: Step<T::Model>,
    measure: spec_fn(T::Model) -> nat,
    n: nat,
) -> Result<Rewritten<Seq<T::Model>>, ErrorKind>
    decreases measure(m), n,
    when descends::<T>(step, measure)
{
    if n == 0 {
        Ok(Rewritten { changed: false, node: seq![] })
    } else if step(m) is Err || n > T::parts(step(m)->Ok_0.node).len() {
        Err(ErrorKind::Internal)
    } else {
        match parts_down::<T>(m, step, measure, (n - 1) as nat) {
            Err(k) => Err(k),
            Ok(done) => match down::<T>(T::parts(step(m)->Ok_0.node)[n - 1], step, measure) {
                Err(k) => Err(k),
                Ok(r) => Ok(
                    Rewritten {
                        changed: done.changed || r.changed,
                        node: done.node.push(r.node),
                    },
                ),
            },
        }
    }
}

/// A tree rewritten from the root down: first the root, then what is below
/// the result.
pub open spec fn down<T: TreeNode>(
    m: T::Model,
    step: Step<T::Model>,
    measure: spec_fn(T::Model) -> nat,
) -> Result<Rewritten<T::Model>, ErrorKind>
    decreases measure(m), T::parts(step(m)->Ok_0.node).len() + 1,
    when descends::<T>(step, measure)
{
    match step(m) {
        Err(k) => Err(k),
        Ok(top) => match parts_down::<T>(m, step, measure, T::parts(top.node).len()) {
            Err(k) => Err(k),
            Ok(below) => Ok(
                Rewritten {
                    changed: top.changed || below.changed,
                    node: T::with_parts(top.node, below.node),
                },
            ),
        },
    }
}

proof fn lemma_parts_down_error<T: TreeNode>(
    m: T::Model,
    step: Step<T::Model>,
    measure: spec_fn(T::Model) -> nat,
    a: nat,
    n: nat,
)
    requires
        descends::<T>(step, measure),
        step(m) is Ok,
        a <= n <= T::parts(step(m)->Ok_0.node).len(),
        parts_down::<T>(m, step, measure, a) is Err,
    ensures
        parts_down::<T>(m, step, measure, n) == parts_down::<T>(m, step, measure, a),
    decreases n - a,
{
    if a < n {
        lemma_parts_down_error::<T>(m, step, measure, a, (n - 1) as nat);
    }
}

/// Rewrites a tree from the root down.
///
/// # Errors
/// The first error of `f`.
pub fn transform_down<T: TreeNode, F: Fn(T) -> Result<Transformed<T>, BasaltError>>(
    node: &T,
    f: &F,
) -> (r: Result<Transformed<T>, BasaltError>)
    requires
        callable::<T, F>(*f),
        exists|measure: spec_fn(T::Model) -> nat| #[trigger] bounds::<T, F>(*f, measure),
    ensures
        forall|step: Step<T::Model>, measure: spec_fn(T::Model) -> nat|
            #![trigger implements::<T, F>(*f, step), descends::<T>(step, measure)]
            implements::<T, F>(*f, step) && descends::<T>(step, measure) ==> outcome(r)
                == down::<T>(node.model(), step, measure),
    decreases
            (choose|measure: spec_fn(T::Model) -> nat| #[trigger]
                bounds::<T, F>(*f, measure))(node.model()),
{
    let ghost m = node.model();
    let ghost mu = choose|measure: spec_fn(T::Model) -> nat| #[trigger]
        bounds::<T, F>(*f, measure);
    let ghost st = choose|step: Step<T::Model>| #[trigger]
        implements::<T, F>(*f, step) && descends::<T>(step, mu);
    let copy = node.copy_node();
    assert(f.requires((copy,)));
    let top = match f(copy) {
        Ok(t) => t,
        Err(e) => {
            return Err(e);
        },
    };
    let top_changed = top.is_yes();
    let root = top.into_inner();
    let ghost rm = root.model();
    assert(st(m)->Ok_0.node == rm && st(m) is Ok);
    let children = root.children_nodes();
    let mut any_child_changed = false;
    let mut new_children: Vec<T> = Vec::new();
    let mut i: usize = 0;
    proof {
        assert(Seq::new(new_children@.len(), |k: int| new_children@[k].model()) =~= seq![]);
    }
    while i < children.len()
        invariant
            i <= children@.len(),
            m == node.model(),
            callable::<T, F>(*f),
            exists|measure: spec_fn(T::Model) -> nat| #[trigger] bounds::<T, F>(*f, measure),
            mu == choose|measure: spec_fn(T::Model) -> nat| #[trigger]
                bounds::<T, F>(*f, measure),
            implements::<T, F>(*f, st),
            descends::<T>(st, mu),
            st(m) is Ok,
            st(m)->Ok_0.node == rm,
            children@.len() == T::parts(rm).len(),
            forall|k: int|
                0 <= k < children@.len() ==> (#[trigger] children@[k]).model() == T::parts(rm)[k],
            new_children@.len() == i,
            forall|step: Step<T::Model>| #[trigger]
                implements::<T, F>(*f, step) ==> step(m) == Ok::<Rewritten<T::Model>, ErrorKind>(
                    (Rewritten { changed: top_changed, node: rm }),
                ),
            forall|step: Step<T::Model>, measure: spec_fn(T::Model) -> nat|
                #![trigger implements::<T, F>(*f, step), descends::<T>(step, measure)]
                implements::<T, F>(*f, step) && descends::<T>(step, measure) ==> parts_down::<T>(
                    m,
                    step,
                    measure,
                    i as nat,
                ) == Ok::<Rewritten<Seq<T::Model>>, ErrorKind>(
                    (Rewritten {
                        changed: any_child_changed,
                        node: Seq::new(new_children@.len(), |k: int| new_children@[k].model()),
                    }),
                ),
        decreases children@.len() - i,
    {
        proof {
            assert(T::parts(st(m)->Ok_0.node)[i as int] == children@[i as int].model());
            assert(mu(children@[i as int].model()) < mu(m));
        }
        let ghost was = Seq::new(new_children@.len(), |k: int| new_children@[k].model());
        match transform_down(children[i], f) {
            Err(e) => {
                proof {
                    assert forall|step: Step<T::Model>, measure: spec_fn(T::Model) -> nat|
                        #![trigger implements::<T, F>(*f, step), descends::<T>(step, measure)]
                        implements::<T, F>(*f, step) && descends::<T>(
                            step,
                            measure,
                        ) implies down::<T>(m, step, measure) == Err::<
                        Rewritten<T::Model>,
                        ErrorKind,
                    >(e@) by {
                        lemma_parts_down_error::<T>(
                            m,
                            step,
                            measure,
                            (i + 1) as nat,
                            T::parts(rm).len(),
                        );
                    }
                }
                return Err(e);
            },
            Ok(t) => {
                if t.is_yes() {
                    any_child_changed = true;
                }
                let inner = t.into_inner();
                new_children.push(inner);
                proof {
                    let now = Seq::new(new_children@.len(), |k: int| new_children@[k].model());
                    assert(now =~= was.push(inner.model()));
                }
            },
        }
        i = i + 1;
    }
    match root.with_new_children_nodes(new_children) {
        Err(e) => Err(e),
        Ok(rebuilt) => {
            if top_changed || any_child_changed {
                Ok(Transformed::Yes(rebuilt))
            } else {
                Ok(Transformed::No(rebuilt))
            }
        },
    }
}

/// Every tree of a tree, each before those below it.
pub open spec fn preorder<T: TreeNode>(m: T::Model) -> Seq<T::Model>
    decreases T::height(m), T::parts(m).len() + 1,
{
    seq![m] + parts_preorder::<T>(m, T::parts(m).len())
}

/// The same for the first `n` trees below a root, one after the other.
pub open spec fn parts_preorder<T: TreeNode>(m: T::Model, n: nat) -> Seq<T::Model>
    decreases T::height(m), n,
{
    if n == 0 || n > T::parts(m).len() {
        seq![]
    } else {
        proof {
            T::parts_are_lower(m, n - 1);
        }
        parts_preorder::<T>(m, (n - 1) as nat) + preorder::<T>(T::parts(m)[n - 1])
    }
}

/// What a walk over trees comes to: it ends at the first that stops it or
/// fails.
pub open spec fn walk<V>(
    trees: Seq<V>,
    decide: spec_fn(V) -> Result<VisitRecursion, ErrorKind>,
) -> Result<VisitRecursion, ErrorKind>
    decreases trees.len(),
{
    if trees.len() == 0 {
        Ok(VisitRecursion::Continue)
    } else {
        match walk(trees.drop_last(), decide) {
            Ok(VisitRecursion::Continue) => decide(trees.last()),
            r => r,
        }
    }
}

proof fn lemma_walk_concat<V>(
    a: Seq<V>,
    b: Seq<V>,
    decide: spec_fn(V) -> Result<VisitRecursion, ErrorKind>,
)
    ensures
        walk(a + b, decide) == (match walk(a, decide) {
            Ok(VisitRecursion::Continue) => walk(b, decide),
            r => r,
        }),
    decreases b.len(),
{
    if b.len() == 0 {
        assert(a + b =~= a);
    } else {
        lemma_walk_concat(a, b.drop_last(), decide);
        assert((a + b).drop_last() =~= a + b.drop_last());
    }
}

proof fn lemma_walk_parts<T: TreeNode>(
    m: T::Model,
    decide: spec_fn(T::Model) -> Result<VisitRecursion, ErrorKind>,
    a: nat,
    n: nat,
)
    requires
        a <= n <= T::parts(m).len(),
        walk(parts_preorder::<T>(m, a), decide) != Ok::<VisitRecursion, ErrorKind>(
            VisitRecursion::Continue,
        ),
    ensures
        walk(parts_preorder::<T>(m, n), decide) == walk(parts_preorder::<T>(m, a), decide),
    decreases n - a,
{
    if a < n {
        lemma_walk_parts::<T>(m, decide, a, (n - 1) as nat);
        lemma_walk_concat(
            parts_preorder::<T>(m, (n - 1) as nat),
            preorder::<T>(T::parts(m)[n - 1]),
            decide,
        );
    }
}

/// The model of what a walk came to.
pub open spec fn visit_outcome(r: Result<VisitRecursion, BasaltError>) -> Result<
    VisitRecursion,
    ErrorKind,
> {
    match r {
        Ok(v) => Ok(v),
        Err(e) => Err(e@),
    }
}

/// Whether a visitor decides as a function of the tree says.
pub open spec fn observes<T: TreeNode, V: Fn(&T) -> Result<VisitRecursion, BasaltError>>(
    v: V,
    decide: spec_fn(T::Model) -> Result<VisitRecursion, ErrorKind>,
) -> bool {
    forall|x: &T, y: Result<VisitRecursion, BasaltError>| #[trigger]
        v.ensures((x,), y) ==> visit_outcome(y) == decide(x.model())
}

/// Walks a tree, each root before what is below it, until `v` says to stop.
///
/// # Errors
/// The first error of `v`.
pub fn visit<T: TreeNode, V: Fn(&T) -> Result<VisitRecursion, BasaltError>>(node: &T, v: &V) -> (r:
    Result<VisitRecursion, BasaltError>)
    requires
        forall|x: &T| #[trigger] v.requires((x,)),
    ensures
        forall|decide: spec_fn(T::Model) -> Result<VisitRecursion, ErrorKind>| #[trigger]
            observes::<T, V>(*v, decide) ==> visit_outcome(r) == walk(
                preorder::<T>(node.model()),
                decide,
            ),
    decreases T::height(node.model()),
{
    let ghost m = node.model();
    proof {
        assert forall|decide: spec_fn(T::Model) -> Result<VisitRecursion, ErrorKind>| #[trigger]
            observes::<T, V>(*v, decide) implies walk(preorder::<T>(m), decide) == (match decide(
            m,
        ) {
            Ok(VisitRecursion::Continue) => walk(
                parts_preorder::<T>(m, T::parts(m).len()),
                decide,
            ),
            r => r,
        }) by {
            lemma_walk_concat(seq![m], parts_preorder::<T>(m, T::parts(m).len()), decide);
            assert(seq![m].drop_last() =~= seq![]);
            assert(walk(seq![m].drop_last(), decide) == Ok::<VisitRecursion, ErrorKind>(
                VisitRecursion::Continue,
            ));
            assert(seq![m].last() == m);
        }
    }
    match v(node) {
        Err(e) => {
            return Err(e);
        },
        Ok(d) => {
            if d == VisitRecursion::Stop {
                return Ok(VisitRecursion::Stop);
            }
        },
    }
    let children = node.children_nodes();
    let mut i: usize = 0;
    while i < children.len()
        invariant
            i <= children@.len(),
            m == node.model(),
            forall|x: &T| #[trigger] v.requires((x,)),
            children@.len() == T::parts(m).len(),
            forall|k: int|
                0 <= k < children@.len() ==> (#[trigger] children@[k]).model() == T::parts(m)[k],
            forall|decide: spec_fn(T::Model) -> Result<VisitRecursion, ErrorKind>| #[trigger]
                observes::<T, V>(*v, decide) ==> walk(preorder::<T>(m), decide) == walk(
                    parts_preorder::<T>(m, T::parts(m).len()),
                    decide,
                ),
            forall|decide: spec_fn(T::Model) -> Result<VisitRecursion, ErrorKind>| #[trigger]
                observes::<T, V>(*v, decide) ==> walk(parts_preorder::<T>(m, i as nat), decide)
                    == Ok::<VisitRecursion, ErrorKind>(VisitRecursion::Continue),
        decreases children@.len() - i,
    {
        proof {
            T::parts_are_lower(m, i as int);
        }
        let below = visit(children[i], v);
        proof {
            assert forall|decide: spec_fn(T::Model) -> Result<
                VisitRecursion,
                ErrorKind,
            >| #[trigger] observes::<T, V>(*v, decide) implies {
                &&& walk(parts_preorder::<T>(m, (i + 1) as nat), decide) == visit_outcome(below)
                &&& visit_outcome(below) != Ok::<VisitRecursion, ErrorKind>(
                    VisitRecursion::Continue,
                ) ==> walk(preorder::<T>(m), decide) == visit_outcome(below)
            } by {
                lemma_walk_concat(
                    parts_preorder::<T>(m, i as nat),
                    preorder::<T>(T::parts(m)[i as int]),
                    decide,
                );
                if visit_outcome(below) != Ok::<VisitRecursion, ErrorKind>(
                    VisitRecursion::Continue,
                ) {
                    lemma_walk_parts::<T>(m, decide, (i + 1) as nat, T::parts(m).len());
                }
            }
        }
        match below {
            Err(e) => {
                return Err(e);
            },
            Ok(d) => {
                if d == VisitRecursion::Stop {
                    return Ok(VisitRecursion::Stop);
                }
            },
        }
        i = i + 1;
    }
    Ok(VisitRecursion::Continue)
}

// ---------------------------------------------------------------------------
// Expressions and plans

/// The depth of an expression.
pub open spec fn expr_height(e: ExprView) -> nat
    decreases e,
{
    match e {
        ExprView::Column { index, data_type, nullable } => 0,
        ExprView::Literal(v) => 0,
        ExprView::Binary { left, op, right } => 1 + expr_height(*left) + expr_height(*right),
        ExprView::Unary { op, expr } => 1 + expr_height(*expr),
        ExprView::Cast { expr, to } => 1 + expr_height(*expr),
        ExprView::IsNull(inner) => 1 + expr_height(*inner),
        ExprView::IsNotNull(inner) => 1 + expr_height(*inner),
    }
}

impl TreeNode for Expr {
    type Model = ExprView;

    open spec fn model(&self) -> ExprView {
        self@
    }

    open spec fn height(m: ExprView) -> nat {
        expr_height(m)
    }

    open spec fn parts(m: ExprView) -> Seq<ExprView> {
        expr_children(m)
    }

    open spec fn with_parts(m: ExprView, parts: Seq<ExprView>) -> ExprView {
        expr_with_children(m, parts)
    }

    proof fn parts_round_trip(m: ExprView) {
        children_round_trip(m);
    }

    proof fn parts_are_lower(m: ExprView, i: int) {
    }

    fn copy_node(&self) -> (r: Expr) {
        self.copy()
    }

    fn children_nodes(&self) -> (r: Vec<&Expr>) {
        self.children()
    }

    fn with_new_children_nodes(&self, children: Vec<Expr>) -> (r: Result<Expr, BasaltError>) {
        assert(expr_views(children@) =~= Seq::new(
            children@.len(),
            |i: int| children@[i].model(),
        ));
        self.with_new_children(children)
    }
}

/// The depth of a plan.
pub open spec fn plan_height(p: PlanView) -> nat
    decreases p,
{
    match p {
        PlanView::TableScan { table_name, source, projection, filters, schema } => 0,
        PlanView::EmptyRelation { schema } => 0,
        PlanView::Projection { input, exprs, schema } => 1 + plan_height(*input),
        PlanView::Filter { input, predicate } => 1 + plan_height(*input),
        PlanView::Join { left, right, on, filter, join_type, schema } => 1 + plan_height(*left)
            + plan_height(*right),
        PlanView::Aggregate { input, group_expr, aggr_expr, schema } => 1 + plan_height(*input),
        PlanView::Sort { input, exprs } => 1 + plan_height(*input),
        PlanView::Limit { input, skip, fetch } => 1 + plan_height(*input),
    }
}

impl TreeNode for LogicalPlan {
    type Model = PlanView;

    open spec fn model(&self) -> PlanView {
        self@
    }

    open spec fn height(m: PlanView) -> nat {
        plan_height(m)
    }

    open spec fn parts(m: PlanView) -> Seq<PlanView> {
        plan_inputs(m)
    }

    open spec fn with_parts(m: PlanView, parts: Seq<PlanView>) -> PlanView {
        plan_with_inputs(m, parts)
    }

    proof fn parts_round_trip(m: PlanView) {
        inputs_round_trip(m);
    }

    proof fn parts_are_lower(m: PlanView, i: int) {
    }

    fn copy_node(&self) -> (r: LogicalPlan) {
        self.copy()
    }

    fn children_nodes(&self) -> (r: Vec<&LogicalPlan>) {
        self.inputs()
    }

    fn with_new_children_nodes(&self, children: Vec<LogicalPlan>) -> (r: Result<
        LogicalPlan,
        BasaltError,
    >) {
        let ghost models = Seq::new(children@.len(), |i: int| children@[i].model());
        let mut inputs: Vec<Arc<LogicalPlan>> = Vec::new();
        let mut i: usize = 0;
        assert(input_views(inputs@) =~= models.take(0));
        while i < children.len()
            invariant
                i <= children@.len(),
                models == Seq::new(children@.len(), |i: int| children@[i].model()),
                inputs@.len() == i,
                input_views(inputs@) == models.take(i as int),
            decreases children@.len() - i,
        {
            let ghost was = input_views(inputs@);
            inputs.push(Arc::new(children[i].copy()));
            proof {
                assert(input_views(inputs@) =~= was.push(children@[i as int]@));
                assert(models.take(i + 1) =~= models.take(i as int).push(children@[i as int]@));
            }
            i = i + 1;
        }
        assert(models.take(i as int) =~= models);
        self.with_new_inputs(inputs)
    }
}

impl Expr {
    /// Rewrites the tree from the leaves up.
    ///
    /// # Errors
    /// The first error of `f`.
    pub fn transform_up<F: Fn(Expr) -> Result<Transformed<Expr>, BasaltError>>(&self, f: &F) -> (r:
        Result<Transformed<Expr>, BasaltError>)
        requires
            callable::<Expr, F>(*f),
        ensures
            forall|step: Step<ExprView>| #[trigger]
                implements::<Expr, F>(*f, step) ==> outcome(r) == up::<Expr>(self@, step),
    {
        transform_up(self, f)
    }

    /// Rewrites the tree from the root down.
    ///
    /// # Errors
    /// The first error of `f`.
    pub fn transform_down<F: Fn(Expr) -> Result<Transformed<Expr>, BasaltError>>(&self, f: &F) -> (r:
        Result<Transformed<Expr>, BasaltError>)
        requires
            callable::<Expr, F>(*f),
            exists|measure: spec_fn(ExprView) -> nat| #[trigger]
                bounds::<Expr, F>(*f, measure),
        ensures
            forall|step: Step<ExprView>, measure: spec_fn(ExprView) -> nat|
                #![trigger implements::<Expr, F>(*f, step), descends::<Expr>(step, measure)]
                implements::<Expr, F>(*f, step) && descends::<Expr>(step, measure)
                    ==> outcome(r) == down::<Expr>(self@, step, measure),
    {
        transform_down(self, f)
    }

    /// Walks the tree, each root before what is below it, until `v` says to
    /// stop.
    ///
    /// # Errors
    /// The first error of `v`.
    pub fn visit<V: Fn(&Expr) -> Result<VisitRecursion, BasaltError>>(&self, v: &V) -> (r: Result<
        VisitRecursion,
        BasaltError,
    >)
        requires
            forall|x: &Expr| #[trigger] v.requires((x,)),
        ensures
            forall|decide: spec_fn(ExprView) -> Result<VisitRecursion, ErrorKind>| #[trigger]
                observes::<Expr, V>(*v, decide) ==> visit_outcome(r) == walk(
                    preorder::<Expr>(self@),
                    decide,
                ),
    {
        visit(self, v)
    }
}

impl LogicalPlan {
    /// Rewrites the tree from the leaves up.
    ///
    /// # Errors
    /// The first error of `f`.
    pub fn transform_up<F: Fn(LogicalPlan) -> Result<Transformed<LogicalPlan>, BasaltError>>(&self, f: &F) -> (r:
        Result<Transformed<LogicalPlan>, BasaltError>)
        requires
            callable::<LogicalPlan, F>(*f),
        ensures
            forall|step: Step<PlanView>| #[trigger]
                implements::<LogicalPlan, F>(*f, step) ==> outcome(r) == up::<LogicalPlan>(self@, step),
    {
        transform_up(self, f)
    }

    /// Rewrites the tree from the root down.
    ///
    /// # Errors
    /// The first error of `f`.
    pub fn transform_down<F: Fn(LogicalPlan) -> Result<Transformed<LogicalPlan>, BasaltError>>(&self, f: &F) -> (r:
        Result<Transformed<LogicalPlan>, BasaltError>)
        requires
            callable::<LogicalPlan, F>(*f),
            exists|measure: spec_fn(PlanView) -> nat| #[trigger]
                bounds::<LogicalPlan, F>(*f, measure),
        ensures
            forall|step: Step<PlanView>, measure: spec_fn(PlanView) -> nat|
                #![trigger implements::<LogicalPlan, F>(*f, step), descends::<LogicalPlan>(step, measure)]
                implements::<LogicalPlan, F>(*f, step) && descends::<LogicalPlan>(step, measure)
                    ==> outcome(r) == down::<LogicalPlan>(self@, step, measure),
    {
        transform_down(self, f)
    }

    /// Walks the tree, each root before what is below it, until `v` says to
    /// stop.
    ///
    /// # Errors
    /// The first error of `v`.
    pub fn visit<V: Fn(&LogicalPlan) -> Result<VisitRecursion, BasaltError>>(&self, v: &V) -> (r: Result<
        VisitRecursion,
        BasaltError,
    >)
        requires
            forall|x: &LogicalPlan| #[trigger] v.requires((x,)),
        ensures
            forall|decide: spec_fn(PlanView) -> Result<VisitRecursion, ErrorKind>| #[trigger]
                observes::<LogicalPlan, V>(*v, decide) ==> visit_outcome(r) == walk(
                    preorder::<LogicalPlan>(self@),
                    decide,
                ),
    {
        visit(self, v)
    }
}

} // verus!
