//! Formula trees: copying a template with its literals replaced, and volatility.
use crate::reference_type::ReferenceType;
use crate::value::{LiteralValue, ValueView, row_view};
use vstd::prelude::*;

verus! {

/// A formula tree.
#[derive(Debug)]
pub enum AstNode {
    Literal(LiteralValue),
    Reference { original: String, reference: ReferenceType },
    UnaryOp { op: String, expr: Box<AstNode> },
    BinaryOp { op: String, left: Box<AstNode>, right: Box<AstNode> },
    Function { name: String, args: Vec<AstNode> },
    Call { callee: Box<AstNode>, args: Vec<AstNode> },
    Array(Vec<Vec<AstNode>>),
}

/// The model of an [`AstNode`].
pub enum AstView {
    Literal(ValueView),
    Reference { original: String, reference: ReferenceType },
    UnaryOp { op: String, expr: Box<AstView> },
    BinaryOp { op: String, left: Box<AstView>, right: Box<AstView> },
    Function { name: String, args: Seq<AstView> },
    Call { callee: Box<AstView>, args: Seq<AstView> },
    Array(Seq<Seq<AstView>>),
}

impl AstNode {
    pub open spec fn view(&self) -> AstView
        decreases self,
    {
        match self {
            AstNode::Literal(v) => AstView::Literal(v@),
            AstNode::Reference { original, reference } => AstView::Reference {
                original: *original,
                reference: *reference,
            },
            AstNode::UnaryOp { op, expr } => AstView::UnaryOp {
                op: *op,
                expr: Box::new(expr.view()),
            },
            AstNode::BinaryOp { op, left, right } => AstView::BinaryOp {
                op: *op,
                left: Box::new(left.view()),
                right: Box::new(right.view()),
            },
            AstNode::Function { name, args } => AstView::Function {
                name: *name,
                args: Seq::new(
                    args@.len(),
                    |i: int|
                        if 0 <= i < args@.len() {
                            args@[i].view()
                        } else {
                            AstView::Array(Seq::empty())
                        },
                ),
            },
            AstNode::Call { callee, args } => AstView::Call {
                callee: Box::new(callee.view()),
                args: Seq::new(
                    args@.len(),
                    |i: int|
                        if 0 <= i < args@.len() {
                            args@[i].view()
                        } else {
                            AstView::Array(Seq::empty())
                        },
                ),
            },
            AstNode::Array(rows) => AstView::Array(
                Seq::new(
                    rows@.len(),
                    |i: int|
                        if 0 <= i < rows@.len() {
                            let row = rows@[i];
                            Seq::new(
                                row@.len(),
                                |j: int|
                                    if 0 <= j < row@.len() {
                                        row@[j].view()
                                    } else {
                                        AstView::Array(Seq::empty())
                                    },
                            )
                        } else {
                            Seq::empty()
                        },
                ),
            ),
        }
    }
}

/// The models of a list of trees.
pub open spec fn list_view(args: Seq<AstNode>) -> Seq<AstView> {
    Seq::new(args.len(), |i: int| args[i].view())
}

/// The models of a table of trees.
pub open spec fn table_view(rows: Seq<Vec<AstNode>>) -> Seq<Seq<AstView>> {
    Seq::new(rows.len(), |i: int| list_view(rows[i]@))
}

/// How many literals of the tree lie outside array constants.
pub open spec fn slots(a: AstView) -> nat
    decreases a,
{
    match a {
        AstView::Literal(_) => 1,
        AstView::Reference { .. } => 0,
        AstView::UnaryOp { expr, .. } => slots(*expr),
        AstView::BinaryOp { left, right, .. } => slots(*left) + slots(*right),
        AstView::Function { args, .. } => list_slots(args, args.len()),
        AstView::Call { callee, args } => slots(*callee) + list_slots(args, args.len()),
        AstView::Array(_) => 0,
    }
}

/// How many literals of the first `n` trees of the list lie outside array constants.
pub open spec fn list_slots(args: Seq<AstView>, n: nat) -> nat
    decreases args, n,
{
    if n == 0 || n > args.len() {
        0
    } else {
        list_slots(args, (n - 1) as nat) + slots(args[n - 1])
    }
}

/// The tree with its literals outside array constants replaced, from left to right, by the values
/// from position `next` on. Where the values run out the literal becomes empty.
pub open spec fn with_slots(a: AstView, binding: Seq<ValueView>, next: nat) -> AstView
    decreases a,
{
    match a {
        AstView::Literal(_) => AstView::Literal(
            if next < binding.len() {
                binding[next as int]
            } else {
                ValueView::Empty
            },
        ),
        AstView::Reference { .. } => a,
        AstView::UnaryOp { op, expr } => AstView::UnaryOp {
            op,
            expr: Box::new(with_slots(*expr, binding, next)),
        },
        AstView::BinaryOp { op, left, right } => AstView::BinaryOp {
            op,
            left: Box::new(with_slots(*left, binding, next)),
            right: Box::new(with_slots(*right, binding, next + slots(*left))),
        },
        AstView::Function { name, args } => AstView::Function {
            name,
            args: Seq::new(
                args.len(),
                |i: int|
                    if 0 <= i < args.len() {
                        with_slots(args[i], binding, next + list_slots(args, i as nat))
                    } else {
                        a
                    },
            ),
        },
        AstView::Call { callee, args } => AstView::Call {
            callee: Box::new(with_slots(*callee, binding, next)),
            args: Seq::new(
                args.len(),
                |i: int|
                    if 0 <= i < args.len() {
                        with_slots(
                            args[i],
                            binding,
                            next + slots(*callee) + list_slots(args, i as nat),
                        )
                    } else {
                        a
                    },
            ),
        },
        AstView::Array(_) => a,
    }
}

proof fn lemma_array_node_view(rows: Vec<Vec<AstNode>>)
    ensures
        AstNode::Array(rows)@ == AstView::Array(table_view(rows@)),
{
    let v = AstNode::Array(rows)@;
    assert(v->Array_0 =~= table_view(rows@)) by {
        assert forall|i: int| 0 <= i < rows@.len() implies #[trigger] v->Array_0[i] == table_view(
            rows@,
        )[i] by {
            assert(v->Array_0[i] =~= list_view(rows@[i]@));
        }
    }
}

proof fn lemma_function_view(name: String, args: Vec<AstNode>)
    ensures
        (AstNode::Function { name, args })@ == (AstView::Function { name, args: list_view(args@) }),
{
    let v = (AstNode::Function { name, args })@;
    assert(v->Function_args =~= list_view(args@));
}

proof fn lemma_call_view(callee: Box<AstNode>, args: Vec<AstNode>)
    ensures
        (AstNode::Call { callee, args })@ == (AstView::Call {
            callee: Box::new(callee@),
            args: list_view(args@),
        }),
{
    let v = (AstNode::Call { callee, args })@;
    assert(v->Call_args =~= list_view(args@));
}

impl AstNode {
    /// A copy of the tree.
    pub fn duplicate(&self) -> (r: AstNode)
        ensures
            r@ == self@,
        decreases self, 1int,
    {
        match self {
            AstNode::Literal(v) => AstNode::Literal(v.duplicate()),
            AstNode::Reference { original, reference } => AstNode::Reference {
                original: original.clone(),
                reference: reference.duplicate(),
            },
            AstNode::UnaryOp { op, expr } => AstNode::UnaryOp {
                op: op.clone(),
                expr: Box::new(expr.duplicate()),
            },
            AstNode::BinaryOp { op, left, right } => AstNode::BinaryOp {
                op: op.clone(),
                left: Box::new(left.duplicate()),
                right: Box::new(right.duplicate()),
            },
            AstNode::Function { name, args } => {
                let copy = duplicate_list(args);
                proof {
                    lemma_function_view(*name, *args);
                    lemma_function_view(*name, copy);
                }
                AstNode::Function { name: name.clone(), args: copy }
            },
            AstNode::Call { callee, args } => {
                let copy = duplicate_list(args);
                let head = Box::new(callee.duplicate());
                proof {
                    lemma_call_view(*callee, *args);
                    lemma_call_view(head, copy);
                }
                AstNode::Call { callee: head, args: copy }
            },
            AstNode::Array(rows) => {
                let mut out: Vec<Vec<AstNode>> = Vec::new();
                let mut i: usize = 0;
                while i < rows.len()
                    invariant
                        i <= rows@.len(),
                        out@.len() == i,
                        self is Array,
                        *rows == self->Array_0,
                        forall|k: int| 0 <= k < i ==> list_view(#[trigger] out@[k]@) == list_view(rows@[k]@),
                    decreases rows@.len() - i,
                {
                    proof {
                        assert(decreases_to!(*self => self->Array_0));
                        assert(decreases_to!(*rows => rows@[i as int]));
                    }
                    out.push(duplicate_list(&rows[i]));
                    i = i + 1;
                }
                proof {
                    lemma_array_node_view(*rows);
                    lemma_array_node_view(out);
                    assert(table_view(out@) =~= table_view(rows@));
                }
                AstNode::Array(out)
            },
        }
    }
}

fn duplicate_list(args: &Vec<AstNode>) -> (r: Vec<AstNode>)
    ensures
        list_view(r@) == list_view(args@),
    decreases args, 0int,
{
    let mut out: Vec<AstNode> = Vec::new();
    let mut i: usize = 0;
    while i < args.len()
        invariant
            i <= args@.len(),
            out@.len() == i,
            forall|k: int| 0 <= k < i ==> (#[trigger] out@[k])@ == args@[k]@,
        decreases args@.len() - i,
    {
        proof {
            assert(decreases_to!(*args => args@[i as int]));
        }
        out.push(args[i].duplicate());
        i = i + 1;
    }
    assert(list_view(out@) =~= list_view(args@));
    out
}

/// Behind the end of the values all positions fill alike.
proof fn lemma_positions_behind_the_end(a: AstView, binding: Seq<ValueView>, n: nat, m: nat)
    requires
        binding.len() <= n,
        binding.len() <= m,
    ensures
        with_slots(a, binding, n) == with_slots(a, binding, m),
    decreases a,
{
    match a {
        AstView::Literal(_) => {},
        AstView::Reference { .. } => {},
        AstView::UnaryOp { expr, .. } => {
            lemma_positions_behind_the_end(*expr, binding, n, m);
        },
        AstView::BinaryOp { left, right, .. } => {
            lemma_positions_behind_the_end(*left, binding, n, m);
            lemma_positions_behind_the_end(*right, binding, n + slots(*left), m + slots(*left));
        },
        AstView::Function { args, .. } => {
            assert forall|i: int| 0 <= i < args.len() implies with_slots(
                #[trigger] args[i],
                binding,
                n + list_slots(args, i as nat),
            ) == with_slots(args[i], binding, m + list_slots(args, i as nat)) by {
                lemma_positions_behind_the_end(
                    args[i],
                    binding,
                    n + list_slots(args, i as nat),
                    m + list_slots(args, i as nat),
                );
            }
            assert(with_slots(a, binding, n)->Function_args =~= with_slots(
                a,
                binding,
                m,
            )->Function_args);
        },
        AstView::Call { callee, args } => {
            lemma_positions_behind_the_end(*callee, binding, n, m);
            let k = slots(*callee);
            assert forall|i: int| 0 <= i < args.len() implies with_slots(
                #[trigger] args[i],
                binding,
                n + k + list_slots(args, i as nat),
            ) == with_slots(args[i], binding, m + k + list_slots(args, i as nat)) by {
                lemma_positions_behind_the_end(
                    args[i],
                    binding,
                    n + k + list_slots(args, i as nat),
                    m + k + list_slots(args, i as nat),
                );
            }
            assert(with_slots(a, binding, n)->Call_args =~= with_slots(a, binding, m)->Call_args);
        },
        AstView::Array(_) => {},
    }
}

/// A position as a machine integer, stopping at the largest one.
spec fn stopped(n: nat) -> usize {
    if n <= usize::MAX {
        n as usize
    } else {
        usize::MAX
    }
}

/// Filling from the stopped position fills as the true position does.
proof fn lemma_stopped_position(a: AstView, binding: Seq<ValueView>, n: nat)
    requires
        binding.len() <= usize::MAX,
    ensures
        with_slots(a, binding, stopped(n) as nat) == with_slots(a, binding, n),
        stopped(stopped(n) as nat + slots(a)) == stopped(n + slots(a)),
{
    if n > usize::MAX {
        lemma_positions_behind_the_end(a, binding, stopped(n) as nat, n);
    }
}

#[verifier::rlimit(60)]
fn fill_slots(ast: &AstNode, binding: &Vec<LiteralValue>, next: usize) -> (r: (AstNode, usize))
    ensures
        r.0@ == with_slots(ast@, row_view(binding@), next as nat),
        r.1 == stopped(next as nat + slots(ast@)),
    decreases ast, 1int,
{
    let ghost values = row_view(binding@);
    let size: usize = binding.len();
    assert(values.len() == size);
    match ast {
        AstNode::Literal(_) => {
            let value = if next < binding.len() {
                binding[next].duplicate()
            } else {
                LiteralValue::Empty
            };
            (AstNode::Literal(value), next.saturating_add(1))
        },
        AstNode::Reference { original, reference } => (
            AstNode::Reference { original: original.clone(), reference: reference.duplicate() },
            next,
        ),
        AstNode::UnaryOp { op, expr } => {
            let (filled, behind) = fill_slots(expr, binding, next);
            (AstNode::UnaryOp { op: op.clone(), expr: Box::new(filled) }, behind)
        },
        AstNode::BinaryOp { op, left, right } => {
            let (l, middle) = fill_slots(left, binding, next);
            let (r, behind) = fill_slots(right, binding, middle);
            proof {
                lemma_stopped_position(right@, values, next as nat + slots(left@));
            }
            (
                AstNode::BinaryOp { op: op.clone(), left: Box::new(l), right: Box::new(r) },
                behind,
            )
        },
        AstNode::Function { name, args } => {
            let (filled, behind) = fill_list(args, binding, next);
            proof {
                lemma_function_view(*name, *args);
                lemma_function_view(*name, filled);
                assert(list_view(filled@) =~= with_slots(
                    ast@,
                    values,
                    next as nat,
                )->Function_args);
            }
            (AstNode::Function { name: name.clone(), args: filled }, behind)
        },
        AstNode::Call { callee, args } => {
            let (head, middle) = fill_slots(callee, binding, next);
            let (filled, behind) = fill_list(args, binding, middle);
            let head = Box::new(head);
            proof {
                let k = next as nat + slots(callee@);
                lemma_call_view(*callee, *args);
                lemma_call_view(head, filled);
                assert forall|i: int| 0 <= i < args@.len() implies list_view(filled@)[i]
                    == with_slots(
                    #[trigger] list_view(args@)[i],
                    values,
                    k + list_slots(list_view(args@), i as nat),
                ) by {
                    let m = list_slots(list_view(args@), i as nat);
                    if k > usize::MAX {
                        lemma_positions_behind_the_end(
                            list_view(args@)[i],
                            values,
                            middle as nat + m,
                            k + m,
                        );
                    }
                }
                assert(list_view(filled@) =~= with_slots(ast@, values, next as nat)->Call_args);
            }
            (AstNode::Call { callee: head, args: filled }, behind)
        },
        AstNode::Array(_) => (ast.duplicate(), next),
    }
}

fn fill_list(args: &Vec<AstNode>, binding: &Vec<LiteralValue>, next: usize) -> (r: (
    Vec<AstNode>,
    usize,
))
    ensures
        r.0@.len() == args@.len(),
        forall|i: int|
            0 <= i < args@.len() ==> (#[trigger] r.0@[i])@ == with_slots(
                args@[i]@,
                row_view(binding@),
                next as nat + list_slots(list_view(args@), i as nat),
            ),
        r.1 == stopped(next as nat + list_slots(list_view(args@), args@.len())),
    decreases args, 0int,
{
    let ghost values = row_view(binding@);
    let ghost models = list_view(args@);
    let size: usize = binding.len();
    let mut out: Vec<AstNode> = Vec::new();
    let mut position: usize = next;
    let mut i: usize = 0;
    while i < args.len()
        invariant
            i <= args@.len(),
            out@.len() == i,
            values == row_view(binding@),
            values.len() == size,
            models == list_view(args@),
            position == stopped(next as nat + list_slots(models, i as nat)),
            forall|k: int|
                0 <= k < i ==> (#[trigger] out@[k])@ == with_slots(
                    args@[k]@,
                    values,
                    next as nat + list_slots(models, k as nat),
                ),
        decreases args@.len() - i,
    {
        proof {
            assert(decreases_to!(*args => args@[i as int]));
            assert(models[i as int] == args@[i as int]@);
            lemma_stopped_position(
                args@[i as int]@,
                values,
                next as nat + list_slots(models, i as nat),
            );
            assert(list_slots(models, (i + 1) as nat) == list_slots(models, i as nat) + slots(
                models[i as int],
            ));
        }
        let (filled, behind) = fill_slots(&args[i], binding, position);
        out.push(filled);
        position = behind;
        i = i + 1;
    }
    (out, position)
}

/// The formula of a span at one placement: the template with its literals outside array constants
/// replaced, from left to right, by the literals bound at the placement.
pub fn substitute_literal_slots_for_template_placement(
    ast: &AstNode,
    binding: &Vec<LiteralValue>,
) -> (r: AstNode)
    ensures
        r@ == with_slots(ast@, row_view(binding@), 0),
{
    let (filled, _) = fill_slots(ast, binding, 0);
    filled
}

/// Whether the tree calls one of the named functions outside the callee and the arguments of a
/// value call.
pub open spec fn calls_any(a: AstView, names: Seq<String>) -> bool
    decreases a,
{
    match a {
        AstView::Function { name, args } => {
            ||| exists|k: int| 0 <= k < names.len() && #[trigger] names[k]@ == name@
            ||| exists|i: int| 0 <= i < args.len() && calls_any(#[trigger] args[i], names)
        },
        AstView::BinaryOp { left, right, .. } => calls_any(*left, names) || calls_any(*right, names),
        AstView::UnaryOp { expr, .. } => calls_any(*expr, names),
        AstView::Array(rows) => exists|i: int, j: int|
            0 <= i < rows.len() && 0 <= j < rows[i].len() && calls_any(#[trigger] rows[i][j], names),
        _ => false,
    }
}

fn list_holds(names: &Vec<String>, name: &String) -> (b: bool)
    ensures
        b == exists|k: int| 0 <= k < names@.len() && #[trigger] names@[k]@ == name@,
{
    let mut k: usize = 0;
    while k < names.len()
        invariant
            k <= names@.len(),
            forall|m: int| 0 <= m < k ==> #[trigger] names@[m]@ != name@,
        decreases names@.len() - k,
    {
        if names[k] == *name {
            assert(names@[k as int]@ == name@);
            return true;
        }
        k = k + 1;
    }
    false
}

/// Whether the formula is volatile, given the names of the volatile functions.
pub fn is_ast_volatile_with_provider(ast: &AstNode, volatile_names: &Vec<String>) -> (b: bool)
    ensures
        b == calls_any(ast@, volatile_names@),
    decreases ast, 1int,
{
    match ast {
        AstNode::Function { name, args } => {
            proof {
                lemma_function_view(*name, *args);
                assert(ast@ == (AstView::Function { name: *name, args: list_view(args@) }));
                assert(ast@->Function_args == list_view(args@));
            }
            let named = list_holds(volatile_names, name);
            let nested = any_volatile(args, volatile_names);
            assert(calls_any(ast@, volatile_names@) == (named || nested));
            named || nested
        },
        AstNode::BinaryOp { left, right, .. } => is_ast_volatile_with_provider(left, volatile_names)
            || is_ast_volatile_with_provider(right, volatile_names),
        AstNode::UnaryOp { expr, .. } => is_ast_volatile_with_provider(expr, volatile_names),
        AstNode::Array(rows) => {
            let ghost models = table_view(rows@);
            proof {
                lemma_array_node_view(*rows);
            }
            let mut i: usize = 0;
            while i < rows.len()
                invariant
                    i <= rows@.len(),
                    *ast is Array,
                    *rows == ast->Array_0,
                    models == table_view(rows@),
                    ast@ == AstView::Array(models),
                    forall|k: int, j: int|
                        0 <= k < i && 0 <= j < models[k].len() ==> !calls_any(
                            #[trigger] models[k][j],
                            volatile_names@,
                        ),
                decreases rows@.len() - i,
            {
                proof {
                    assert(decreases_to!(*ast => ast->Array_0));
                    assert(decreases_to!(*rows => rows@[i as int]));
                    assert(models[i as int] == list_view(rows@[i as int]@));
                }
                if any_volatile(&rows[i], volatile_names) {
                    proof {
                        let j = choose|j: int|
                            0 <= j < models[i as int].len() && calls_any(
                                #[trigger] models[i as int][j],
                                volatile_names@,
                            );
                        assert(0 <= i < models.len() && 0 <= j < models[i as int].len() && calls_any(models[i as int][j], volatile_names@));
                        assert(ast@->Array_0 == models);
                        assert(calls_any(ast@, volatile_names@));
                    }
                    return true;
                }
                i = i + 1;
            }
            false
        },
        _ => false,
    }
}

fn any_volatile(args: &Vec<AstNode>, volatile_names: &Vec<String>) -> (b: bool)
    ensures
        b == exists|i: int|
            0 <= i < args@.len() && calls_any(#[trigger] list_view(args@)[i], volatile_names@),
    decreases args, 0int,
{
    let ghost models = list_view(args@);
    let mut i: usize = 0;
    while i < args.len()
        invariant
            i <= args@.len(),
            models == list_view(args@),
            forall|k: int| 0 <= k < i ==> !calls_any(#[trigger] models[k], volatile_names@),
        decreases args@.len() - i,
    {
        proof {
            assert(decreases_to!(*args => args@[i as int]));
            assert(models[i as int] == args@[i as int]@);
        }
        if is_ast_volatile_with_provider(&args[i], volatile_names) {
            assert(calls_any(models[i as int], volatile_names@));
            return true;
        }
        i = i + 1;
    }
    false
}

/// The literals of a formula from left to right, as far as they can be bound.
pub open spec fn literals(a: AstView) -> Seq<ValueView>
    decreases a,
{
    match a {
        AstView::Literal(v) => seq![v],
        AstView::Reference { .. } => Seq::empty(),
        AstView::UnaryOp { expr, .. } => literals(*expr),
        AstView::BinaryOp { left, right, .. } => literals(*left) + literals(*right),
        AstView::Function { args, .. } => list_literals(args, args.len()),
        AstView::Call { callee, args } => literals(*callee) + list_literals(args, args.len()),
        AstView::Array(_) => Seq::empty(),
    }
}

/// The literals of the first `n` arguments.
pub open spec fn list_literals(args: Seq<AstView>, n: nat) -> Seq<ValueView>
    decreases args, n,
{
    if n == 0 || n > args.len() {
        Seq::empty()
    } else {
        list_literals(args, (n - 1) as nat) + literals(args[n - 1])
    }
}

/// A formula has a slot for each of its literals. Binding puts the values of the binding into them, from
/// left to right, each into the next; the literals are then the values bound.
pub proof fn bound_literals_are_the_binding(a: AstView, binding: Seq<ValueView>, next: nat)
    ensures
        literals(a).len() == slots(a),
        next + slots(a) <= binding.len() ==> literals(with_slots(a, binding, next)) == binding.subrange(
            next as int,
            (next + slots(a)) as int,
        ),
    decreases a,
{
    match a {
        AstView::Literal(_) => {
            if next + 1 <= binding.len() {
                assert(seq![binding[next as int]] =~= binding.subrange(next as int, (next + 1) as int));
            }
        },
        AstView::Reference { .. } => {
            if next <= binding.len() {
                assert(Seq::<ValueView>::empty() =~= binding.subrange(next as int, next as int));
            }
        },
        AstView::Array(_) => {
            if next <= binding.len() {
                assert(Seq::<ValueView>::empty() =~= binding.subrange(next as int, next as int));
            }
        },
        AstView::UnaryOp { expr, .. } => {
            bound_literals_are_the_binding(*expr, binding, next);
        },
        AstView::BinaryOp { left, right, .. } => {
            bound_literals_are_the_binding(*left, binding, next);
            bound_literals_are_the_binding(*right, binding, next + slots(*left));
            if next + slots(a) <= binding.len() {
                let mid = next + slots(*left);
                assert(binding.subrange(next as int, mid as int) + binding.subrange(
                    mid as int,
                    (mid + slots(*right)) as int,
                ) =~= binding.subrange(next as int, (next + slots(a)) as int));
            }
        },
        AstView::Function { args, .. } => {
            lemma_bound_list(a, args, binding, next, args.len());
            if let AstView::Function { args: bound, .. } = with_slots(a, binding, next) {
                lemma_same_literals(
                    bound,
                    Seq::new(
                        args.len(),
                        |i: int| with_slots(args[i], binding, next + list_slots(args, i as nat)),
                    ),
                    args.len(),
                );
            }
        },
        AstView::Call { callee, args } => {
            bound_literals_are_the_binding(*callee, binding, next);
            let mid = next + slots(*callee);
            lemma_bound_list(a, args, binding, mid, args.len());
            if let AstView::Call { args: bound, .. } = with_slots(a, binding, next) {
                lemma_same_literals(
                    bound,
                    Seq::new(
                        args.len(),
                        |i: int| with_slots(args[i], binding, mid + list_slots(args, i as nat)),
                    ),
                    args.len(),
                );
            }
            if next + slots(a) <= binding.len() {
                assert(binding.subrange(next as int, mid as int) + binding.subrange(
                    mid as int,
                    (mid + list_slots(args, args.len())) as int,
                ) =~= binding.subrange(next as int, (next + slots(a)) as int));
            }
        },
    }
}

proof fn lemma_bound_list(a: AstView, args: Seq<AstView>, binding: Seq<ValueView>, next: nat, n: nat)
    requires
        n <= args.len(),
        forall|i: int| 0 <= i < args.len() ==> decreases_to!(a => #[trigger] args[i]),
    ensures
        list_literals(args, n).len() == list_slots(args, n),
        next + list_slots(args, n) <= binding.len() ==> list_literals(
            Seq::new(
                args.len(),
                |i: int| with_slots(args[i], binding, next + list_slots(args, i as nat)),
            ),
            n,
        ) == binding.subrange(next as int, (next + list_slots(args, n)) as int),
    decreases a, n,
{
    let bound = Seq::new(
        args.len(),
        |i: int| with_slots(args[i], binding, next + list_slots(args, i as nat)),
    );
    if n == 0 {
        if next <= binding.len() {
            assert(Seq::<ValueView>::empty() =~= binding.subrange(next as int, next as int));
        }
    } else {
        let m = (n - 1) as nat;
        lemma_bound_list(a, args, binding, next, m);
        assert(decreases_to!(a => args[n - 1]));
        bound_literals_are_the_binding(args[n - 1], binding, next + list_slots(args, m));
        if next + list_slots(args, n) <= binding.len() {
            let mid = next + list_slots(args, m);
            assert(bound[n - 1] == with_slots(args[n - 1], binding, mid));
            assert(binding.subrange(next as int, mid as int) + binding.subrange(
                mid as int,
                (mid + slots(args[n - 1])) as int,
            ) =~= binding.subrange(next as int, (next + list_slots(args, n)) as int));
        }
    }
}

proof fn lemma_same_literals(a: Seq<AstView>, b: Seq<AstView>, n: nat)
    requires
        a.len() == b.len(),
        n <= a.len(),
        forall|i: int| 0 <= i < a.len() ==> a[i] == #[trigger] b[i],
    ensures
        list_literals(a, n) == list_literals(b, n),
{
    assert(a =~= b);
}

/// A call is found wherever it stands in a formula: as the function itself, among the arguments of a
/// function, on either side of an operator and in an array; literals and references call nothing.
pub proof fn calls_are_found_wherever_they_stand(
    name: String,
    args: Seq<AstView>,
    rows: Seq<Seq<AstView>>,
    a: AstView,
    b: AstView,
    op: String,
    names: Seq<String>,
    i: int,
    j: int,
)
    ensures
        0 <= i < names.len() && names[i]@ == name@ ==> calls_any(AstView::Function { name, args }, names),
        0 <= i < args.len() && calls_any(args[i], names) ==> calls_any(
            AstView::Function { name, args },
            names,
        ),
        (forall|k: int| 0 <= k < names.len() ==> (#[trigger] names[k])@ != name@) && (forall|k: int|
            0 <= k < args.len() ==> !calls_any(#[trigger] args[k], names)) ==> !calls_any(
            AstView::Function { name, args },
            names,
        ),
        calls_any(AstView::BinaryOp { op, left: Box::new(a), right: Box::new(b) }, names) <==> calls_any(
            a,
            names,
        ) || calls_any(b, names),
        calls_any(AstView::UnaryOp { op, expr: Box::new(a) }, names) <==> calls_any(a, names),
        0 <= i < rows.len() && 0 <= j < rows[i].len() && calls_any(rows[i][j], names) ==> calls_any(
            AstView::Array(rows),
            names,
        ),
        a is Literal || a is Reference ==> !calls_any(a, names),
        names.len() == 0 ==> !calls_any(AstView::Function { name, args: Seq::empty() }, names),
{
    let f = AstView::Function { name, args };
    let t = AstView::Array(rows);
    assert(f->Function_args == args);
    assert(t->Array_0 == rows);
    if 0 <= i < args.len() && calls_any(args[i], names) {
        assert(calls_any(f->Function_args[i], names));
        assert(calls_any(f, names));
    }
    if 0 <= i < rows.len() && 0 <= j < rows[i].len() && calls_any(rows[i][j], names) {
        assert(calls_any(t->Array_0[i][j], names));
        assert(calls_any(t, names));
    }
}

} // verus!
