//! Evaluation of syntax trees against the state of a session.
use crate::ast::{
    clone_names, clone_nodes, lemma_node_view_lists, names_view, nodes_view, opcode_of, same_text,
    Node, NodeView, Opcode,
};
use crate::bindings::{find, map_of, put};
use crate::float::{Float, FloatValue, FloatValueView, FloatView, DEFAULT_PRECISION};
use crate::integer::Integer;
use crate::number::{
    answer, apply, as_float, ask, dependable, Builtin, FloatRequest, FloatRequestView, Number,
    NumberView,
};
use vstd::prelude::*;
use vstd::string::{StringExecFns, StringSliceAdditionalSpecFns};
use vstd::utf8::encode_utf8;

verus! {

/// How many calls of defined functions may be under way at once, unless the
/// session is made with a limit of its own.
pub const DEFAULT_DEPTH_LIMIT: usize = 128;

/// Why an evaluation gave no number.
#[derive(Copy, Clone, Debug, PartialEq, Eq, Structural)]
pub enum EvalError {
    /// More calls of defined functions were under way than the session allows.
    DepthExceeded,
}

/// A function that a line of the session defined.
#[derive(Debug, PartialEq, Eq)]
pub struct UserFunction {
    pub params: Vec<String>,
    pub body: Vec<Node>,
}

/// The mathematical content of a `UserFunction`.
pub struct FunctionView {
    pub params: Seq<Seq<char>>,
    pub body: Seq<NodeView>,
}

impl View for UserFunction {
    type V = FunctionView;

    open spec fn view(&self) -> FunctionView {
        FunctionView { params: names_view(self.params@), body: nodes_view(self.body@) }
    }
}

impl Clone for UserFunction {
    fn clone(&self) -> (r: Self)
        ensures
            r@ == self@,
    {
        UserFunction { params: clone_names(&self.params), body: clone_nodes(&self.body) }
    }
}

/// The state of a session, as mathematics.
pub struct ContextView {
    /// The result of the last evaluation, until it is read.
    pub last_result: Option<NumberView>,
    /// The global bindings.
    pub values: Map<Seq<char>, NumberView>,
    /// The defined functions.
    pub functions: Map<Seq<char>, FunctionView>,
    /// The frames of the calls under way, the innermost last.
    pub frames: Seq<Map<Seq<char>, NumberView>>,
    /// How many calls of defined functions may be under way at once.
    pub depth_limit: usize,
}

/// The state of one session.
pub struct EvalContext {
    last_result: Option<Number>,
    values: Vec<(String, Number)>,
    functions: Vec<(String, UserFunction)>,
    local_values: Vec<Vec<(String, Number)>>,
    depth_limit: usize,
}

/// The frames of some calls, each as a map.
pub open spec fn frames_view(frames: Seq<Vec<(String, Number)>>) -> Seq<
    Map<Seq<char>, NumberView>,
> {
    Seq::new(frames.len(), |i: int| map_of(frames[i]@))
}

impl View for EvalContext {
    type V = ContextView;

    closed spec fn view(&self) -> ContextView {
        ContextView {
            last_result: match self.last_result {
                Some(n) => Some(n@),
                None => None,
            },
            values: map_of(self.values@),
            functions: map_of(self.functions@),
            frames: frames_view(self.local_values@),
            depth_limit: self.depth_limit,
        }
    }
}

/// The built-in function that a name names, if it names one.
pub open spec fn builtin_of(name: Seq<char>) -> Option<Builtin> {
    if name == "sin"@ {
        Some(Builtin::Sin)
    } else if name == "cos"@ {
        Some(Builtin::Cos)
    } else if name == "tan"@ {
        Some(Builtin::Tan)
    } else if name == "asin"@ {
        Some(Builtin::Asin)
    } else if name == "acos"@ {
        Some(Builtin::Acos)
    } else if name == "atan"@ {
        Some(Builtin::Atan)
    } else if name == "csc"@ {
        Some(Builtin::Csc)
    } else if name == "sec"@ {
        Some(Builtin::Sec)
    } else if name == "cot"@ {
        Some(Builtin::Cot)
    } else {
        None
    }
}

/// The built-in function that a name names.
pub fn builtin_named(name: &str) -> (r: Option<Builtin>)
    ensures
        r == builtin_of(name@),
{
    if same_text(name, "sin") {
        Some(Builtin::Sin)
    } else if same_text(name, "cos") {
        Some(Builtin::Cos)
    } else if same_text(name, "tan") {
        Some(Builtin::Tan)
    } else if same_text(name, "asin") {
        Some(Builtin::Asin)
    } else if same_text(name, "acos") {
        Some(Builtin::Acos)
    } else if same_text(name, "atan") {
        Some(Builtin::Atan)
    } else if same_text(name, "csc") {
        Some(Builtin::Csc)
    } else if same_text(name, "sec") {
        Some(Builtin::Sec)
    } else if same_text(name, "cot") {
        Some(Builtin::Cot)
    } else {
        None
    }
}

/// Whether a tree can be evaluated: it holds no `Error` node, and every
/// operator in it is one of the language.
pub open spec fn evaluable(node: NodeView) -> bool
    decreases node, 0nat,
{
    match node {
        NodeView::Error => false,
        NodeView::Infix { lhs, op, rhs } => opcode_of(op) is Some && evaluable(*lhs) && evaluable(
            *rhs,
        ),
        NodeView::FunctionDef { name, params, body } => evaluable_from(body, 0),
        NodeView::FunctionCall { name, args } => evaluable_from(args, 0),
        NodeView::Let(name, value) => evaluable(*value),
        _ => true,
    }
}

/// Whether each of some trees from `from` on can be evaluated.
pub open spec fn evaluable_from(nodes: Seq<NodeView>, from: nat) -> bool
    decreases nodes, nodes.len() - from,
{
    if from >= nodes.len() {
        true
    } else {
        evaluable(nodes[from as int]) && evaluable_from(nodes, from + 1)
    }
}

/// Whether each of some trees can be evaluated.
pub open spec fn all_evaluable(nodes: Seq<NodeView>) -> bool {
    forall|i: int| 0 <= i < nodes.len() ==> evaluable(#[trigger] nodes[i])
}

/// Whether every function of a session has a body that can be evaluated.
pub open spec fn context_ok(ctx: ContextView) -> bool {
    forall|name: Seq<char>| #[trigger]
        ctx.functions.contains_key(name) ==> all_evaluable(ctx.functions[name].body)
}

/// The sum of some bytes.
pub open spec fn byte_sum(bytes: Seq<u8>) -> nat
    decreases bytes.len(),
{
    if bytes.len() == 0 {
        0
    } else {
        byte_sum(bytes.drop_last()) + bytes.last() as nat
    }
}

/// What a name stands for: its binding in the innermost frame, else its
/// global binding, else zero.
pub open spec fn lookup(ctx: ContextView, name: Seq<char>) -> NumberView {
    if ctx.frames.len() > 0 && ctx.frames.last().contains_key(name) {
        ctx.frames.last()[name]
    } else if ctx.values.contains_key(name) {
        ctx.values[name]
    } else {
        NumberView::Int(0)
    }
}

/// The frame of a call: each of the first `count` parameters bound to the
/// argument at its place.
pub open spec fn frame_of(params: Seq<Seq<char>>, values: Seq<NumberView>, count: nat) -> Map<
    Seq<char>,
    NumberView,
>
    decreases count,
{
    if count == 0 || count > params.len() || count > values.len() {
        Map::empty()
    } else {
        frame_of(params, values, (count - 1) as nat).insert(params[count - 1], values[count - 1])
    }
}

/// The smaller of two lengths.
pub open spec fn shorter(a: nat, b: nat) -> nat {
    if a <= b {
        a
    } else {
        b
    }
}

/// The state after an evaluation, and what it gave.
pub struct Evaluated {
    pub context: ContextView,
    pub result: Result<NumberView, EvalError>,
}

/// The state after the evaluation of some trees, and what they gave.
pub struct EvaluatedList {
    pub context: ContextView,
    pub result: Result<Seq<NumberView>, EvalError>,
}

/// An evaluation that gave a number.
pub open spec fn gave(context: ContextView, value: NumberView) -> Evaluated {
    Evaluated { context, result: Ok(value) }
}

/// The value of a built-in function: the argument is made a float, and the
/// result is carried at the precision of that float.
pub open spec fn builtin_value<A: Fn(FloatRequest) -> FloatValue>(
    arith: &A,
    function: Builtin,
    argument: NumberView,
) -> NumberView {
    let float = as_float(arith, argument)->Float_0;
    NumberView::Float(
        FloatView {
            prec: float.prec,
            value: answer(arith, FloatRequestView::Apply { function, argument: float }),
        },
    )
}

/// The last of some values, or zero where there is none.
pub open spec fn last_or_zero(values: Seq<NumberView>) -> NumberView {
    if values.len() > 0 {
        values.last()
    } else {
        NumberView::Int(0)
    }
}

/// The evaluation of a tree in a state, with `depth` more calls of defined
/// functions allowed to be under way.
///
/// A number is itself. A string is the sum of its bytes. A name is what it
/// stands for. `#` is the last result, which it takes away. An operator
/// evaluates its left side, then its right side, and combines them. `let`
/// binds a global name and gives the value. A definition binds a function
/// and gives zero. A call of a built-in function evaluates its first
/// argument, or takes zero where it has none, and applies the function. A
/// call of a defined function evaluates all of its arguments where the call
/// stands, binds them to the parameters in a new frame, evaluates the body
/// in it, and gives the last value of the body. A call of a name that names
/// no function gives zero.
///
/// This says what a tree gives that can be evaluated. What it says of an
/// `Error` node, or of an operator that is none of the language, is said of
/// nothing that `EvalContext::eval` takes.
pub open spec fn eval_node<A: Fn(FloatRequest) -> FloatValue>(
    arith: &A,
    ctx: ContextView,
    node: NodeView,
    depth: nat,
) -> Evaluated
    decreases depth, node, 0nat,
{
    match node {
        NodeView::Number(n) => gave(ctx, n),
        NodeView::String(s) => gave(ctx, NumberView::Int(byte_sum(encode_utf8(s)) as int)),
        NodeView::Ident(name) => gave(ctx, lookup(ctx, name)),
        NodeView::Prev => gave(
            ContextView { last_result: None, ..ctx },
            match ctx.last_result {
                Some(v) => v,
                None => NumberView::Int(0),
            },
        ),
        NodeView::Infix { lhs, op, rhs } => {
            let l = eval_node(arith, ctx, *lhs, depth);
            match l.result {
                Ok(lv) => {
                    let r = eval_node(arith, l.context, *rhs, depth);
                    match r.result {
                        Ok(rv) => gave(
                            r.context,
                            apply(
                                arith,
                                match opcode_of(op) {
                                    Some(o) => o,
                                    None => Opcode::Add,
                                },
                                lv,
                                rv,
                            ),
                        ),
                        Err(e) => r,
                    }
                },
                Err(e) => l,
            }
        },
        NodeView::Let(name, value) => {
            let v = eval_node(arith, ctx, *value, depth);
            match v.result {
                Ok(x) => gave(
                    ContextView { values: v.context.values.insert(name, x), ..v.context },
                    x,
                ),
                Err(e) => v,
            }
        },
        NodeView::FunctionDef { name, params, body } => gave(
            ContextView {
                functions: ctx.functions.insert(name, FunctionView { params, body }),
                ..ctx
            },
            NumberView::Int(0),
        ),
        NodeView::FunctionCall { name, args } => match builtin_of(name) {
            Some(function) => if args.len() == 0 {
                gave(ctx, builtin_value(arith, function, NumberView::Int(0)))
            } else {
                let a = eval_node(arith, ctx, args[0], depth);
                match a.result {
                    Ok(v) => gave(a.context, builtin_value(arith, function, v)),
                    Err(e) => a,
                }
            },
            None => if !ctx.functions.contains_key(name) {
                gave(ctx, NumberView::Int(0))
            } else if depth == 0 {
                Evaluated { context: ctx, result: Err(EvalError::DepthExceeded) }
            } else {
                let function = ctx.functions[name];
                let a = eval_list(arith, ctx, args, 0, Seq::empty(), depth);
                match a.result {
                    Ok(values) => {
                        let frame = frame_of(
                            function.params,
                            values,
                            shorter(function.params.len(), values.len()),
                        );
                        let inner = ContextView {
                            frames: a.context.frames.push(frame),
                            ..a.context
                        };
                        let b = eval_list(
                            arith,
                            inner,
                            function.body,
                            0,
                            Seq::empty(),
                            (depth - 1) as nat,
                        );
                        Evaluated {
                            context: ContextView {
                                frames: b.context.frames.drop_last(),
                                ..b.context
                            },
                            result: match b.result {
                                Ok(all) => Ok(last_or_zero(all)),
                                Err(e) => Err(e),
                            },
                        }
                    },
                    Err(e) => Evaluated { context: a.context, result: Err(e) },
                }
            },
        },
        NodeView::Error => gave(ctx, NumberView::Int(0)),
    }
}

/// The evaluation of the trees from `from` on, one after the other, after
/// those that gave `done`. The first that gives no number ends it.
pub open spec fn eval_list<A: Fn(FloatRequest) -> FloatValue>(
    arith: &A,
    ctx: ContextView,
    nodes: Seq<NodeView>,
    from: nat,
    done: Seq<NumberView>,
    depth: nat,
) -> EvaluatedList
    decreases depth, nodes, nodes.len() - from,
{
    if from >= nodes.len() {
        EvaluatedList { context: ctx, result: Ok(done) }
    } else {
        let first = eval_node(arith, ctx, nodes[from as int], depth);
        match first.result {
            Ok(v) => eval_list(arith, first.context, nodes, from + 1, done.push(v), depth),
            Err(e) => EvaluatedList { context: first.context, result: Err(e) },
        }
    }
}

/// The evaluation of one tree for a line of the session: the result, where
/// there is one, becomes the last result.
pub open spec fn evaluate<A: Fn(FloatRequest) -> FloatValue>(
    arith: &A,
    ctx: ContextView,
    node: NodeView,
) -> Evaluated {
    let e = eval_node(arith, ctx, node, ctx.depth_limit as nat);
    match e.result {
        Ok(v) => gave(ContextView { last_result: Some(v), ..e.context }, v),
        Err(_) => e,
    }
}

/// The state of a new session: the name `pi` is bound, and nothing else is.
pub open spec fn initial_context(depth_limit: usize) -> ContextView {
    ContextView {
        last_result: None,
        values: Map::empty().insert("pi"@, pi()),
        functions: Map::empty(),
        frames: Seq::empty(),
        depth_limit,
    }
}

/// The float of 53 bits that is nearest to the ratio of a circle's
/// circumference to its diameter.
pub open spec fn pi() -> NumberView {
    NumberView::Float(
        FloatView {
            prec: DEFAULT_PRECISION,
            value: FloatValueView::Finite { mantissa: 884279719003555, exponent: -48i64 },
        },
    )
}

/// A name that is bound neither in the innermost frame nor globally
/// evaluates to zero, and the state stays as it is.
pub proof fn law_undefined_identifier<A: Fn(FloatRequest) -> FloatValue>(
    arith: &A,
    ctx: ContextView,
    name: Seq<char>,
    depth: nat,
)
    requires
        ctx.frames.len() > 0 ==> !ctx.frames.last().contains_key(name),
        !ctx.values.contains_key(name),
    ensures
        eval_node(arith, ctx, NodeView::Ident(name), depth) == gave(ctx, NumberView::Int(0)),
{
}

/// A call of a name that names no function evaluates to zero, whatever its
/// arguments are, and the state stays as it is.
pub proof fn law_undefined_function<A: Fn(FloatRequest) -> FloatValue>(
    arith: &A,
    ctx: ContextView,
    name: Seq<char>,
    args: Seq<NodeView>,
    depth: nat,
)
    requires
        builtin_of(name) is None,
        !ctx.functions.contains_key(name),
    ensures
        eval_node(arith, ctx, NodeView::FunctionCall { name, args }, depth) == gave(
            ctx,
            NumberView::Int(0),
        ),
{
}

/// `#` gives the last result and takes it away: read again before another
/// result is there, it gives zero.
pub proof fn law_prev_takes_last_result<A: Fn(FloatRequest) -> FloatValue>(
    arith: &A,
    ctx: ContextView,
    value: NumberView,
    depth: nat,
)
    requires
        ctx.last_result == Some(value),
    ensures
        eval_node(arith, ctx, NodeView::Prev, depth).result == Ok::<NumberView, EvalError>(value),
        eval_node(
            arith,
            eval_node(arith, ctx, NodeView::Prev, depth).context,
            NodeView::Prev,
            depth,
        ).result == Ok::<NumberView, EvalError>(NumberView::Int(0)),
{
}

/// After a line has given a result, `#` on the next line gives that result.
pub proof fn law_prev_after_line<A: Fn(FloatRequest) -> FloatValue>(
    arith: &A,
    ctx: ContextView,
    node: NodeView,
)
    requires
        evaluate(arith, ctx, node).result is Ok,
    ensures
        evaluate(arith, evaluate(arith, ctx, node).context, NodeView::Prev).result == evaluate(
            arith,
            ctx,
            node,
        ).result,
{
}

/// What `let` binds on one line, the name gives on a later line.
pub proof fn law_let_binds_globally<A: Fn(FloatRequest) -> FloatValue>(
    arith: &A,
    ctx: ContextView,
    name: Seq<char>,
    value: NodeView,
)
    requires
        ctx.frames.len() == 0,
        evaluate(arith, ctx, NodeView::Let(name, Box::new(value))).result is Ok,
    ensures
        evaluate(
            arith,
            evaluate(arith, ctx, NodeView::Let(name, Box::new(value))).context,
            NodeView::Ident(name),
        ).result == evaluate(arith, ctx, NodeView::Let(name, Box::new(value))).result,
{
    lemma_frames_restored(arith, ctx, value, ctx.depth_limit as nat);
}

/// A parameter for which the call has no argument is not bound in the
/// frame of the call, unless an earlier parameter has its name.
pub proof fn law_unbound_parameter(
    params: Seq<Seq<char>>,
    values: Seq<NumberView>,
    j: int,
)
    requires
        values.len() <= j < params.len(),
        forall|i: int| 0 <= i < values.len() ==> params[i] != params[j],
    ensures
        !frame_of(params, values, shorter(params.len(), values.len())).contains_key(params[j]),
{
    lemma_frame_keys(params, values, shorter(params.len(), values.len()), params[j]);
}

/// A frame binds no name but those of the parameters that it was made of.
pub proof fn lemma_frame_keys(
    params: Seq<Seq<char>>,
    values: Seq<NumberView>,
    count: nat,
    name: Seq<char>,
)
    requires
        forall|i: int| 0 <= i < count && i < params.len() ==> params[i] != name,
    ensures
        !frame_of(params, values, count).contains_key(name),
    decreases count,
{
    if !(count == 0 || count > params.len() || count > values.len()) {
        lemma_frame_keys(params, values, (count - 1) as nat, name);
    }
}

/// Every frame that an evaluation pushes it pops again: whatever the
/// evaluation gives, the frames are those of before.
pub proof fn lemma_frames_restored<A: Fn(FloatRequest) -> FloatValue>(
    arith: &A,
    ctx: ContextView,
    node: NodeView,
    depth: nat,
)
    ensures
        eval_node(arith, ctx, node, depth).context.frames == ctx.frames,
        eval_node(arith, ctx, node, depth).context.depth_limit == ctx.depth_limit,
    decreases depth, node, 0nat,
{
    match node {
        NodeView::Infix { lhs, op, rhs } => {
            lemma_frames_restored(arith, ctx, *lhs, depth);
            let l = eval_node(arith, ctx, *lhs, depth);
            if l.result is Ok {
                lemma_frames_restored(arith, l.context, *rhs, depth);
            }
        },
        NodeView::Let(name, value) => {
            lemma_frames_restored(arith, ctx, *value, depth);
        },
        NodeView::FunctionCall { name, args } => {
            match builtin_of(name) {
                Some(function) => {
                    if args.len() > 0 {
                        lemma_frames_restored(arith, ctx, args[0], depth);
                    }
                },
                None => {
                    if ctx.functions.contains_key(name) && depth > 0 {
                        let function = ctx.functions[name];
                        lemma_list_frames_restored(arith, ctx, args, 0, Seq::empty(), depth);
                        let a = eval_list(arith, ctx, args, 0, Seq::empty(), depth);
                        if a.result is Ok {
                            let values = a.result->Ok_0;
                            let frame = frame_of(
                                function.params,
                                values,
                                shorter(function.params.len(), values.len()),
                            );
                            let inner = ContextView {
                                frames: a.context.frames.push(frame),
                                ..a.context
                            };
                            lemma_list_frames_restored(
                                arith,
                                inner,
                                function.body,
                                0,
                                Seq::empty(),
                                (depth - 1) as nat,
                            );
                            assert(ctx.frames.push(frame).drop_last() =~= ctx.frames);
                        }
                    }
                },
            }
        },
        _ => {},
    }
}

/// The same for the evaluation of some trees.
pub proof fn lemma_list_frames_restored<A: Fn(FloatRequest) -> FloatValue>(
    arith: &A,
    ctx: ContextView,
    nodes: Seq<NodeView>,
    from: nat,
    done: Seq<NumberView>,
    depth: nat,
)
    ensures
        eval_list(arith, ctx, nodes, from, done, depth).context.frames == ctx.frames,
        eval_list(arith, ctx, nodes, from, done, depth).context.depth_limit == ctx.depth_limit,
    decreases depth, nodes, nodes.len() - from,
{
    if from < nodes.len() {
        lemma_frames_restored(arith, ctx, nodes[from as int], depth);
        let first = eval_node(arith, ctx, nodes[from as int], depth);
        if first.result is Ok {
            lemma_list_frames_restored(
                arith,
                first.context,
                nodes,
                from + 1,
                done.push(first.result->Ok_0),
                depth,
            );
        }
    }
}

/// The strict order of the frames: an evaluation leaves the frames as it
/// found them.
pub proof fn law_frames_restored<A: Fn(FloatRequest) -> FloatValue>(
    arith: &A,
    ctx: ContextView,
    node: NodeView,
    depth: nat,
)
    ensures
        eval_node(arith, ctx, node, depth).context.frames == ctx.frames,
{
    lemma_frames_restored(arith, ctx, node, depth);
}

/// The contents of some numbers.
pub open spec fn numbers_view(v: Seq<Number>) -> Seq<NumberView> {
    Seq::new(v.len(), |i: int| v[i]@)
}

/// What an evaluation gave, by its content.
pub open spec fn number_result(r: Result<Number, EvalError>) -> Result<NumberView, EvalError> {
    match r {
        Ok(n) => Ok(n@),
        Err(e) => Err(e),
    }
}

/// What the evaluation of some trees gave, by its content.
pub open spec fn numbers_result(r: Result<Vec<Number>, EvalError>) -> Result<
    Seq<NumberView>,
    EvalError,
> {
    match r {
        Ok(v) => Ok(numbers_view(v@)),
        Err(e) => Err(e),
    }
}

/// Some trees can be evaluated from `from` on when each of them can.
pub proof fn lemma_evaluable_from(nodes: Seq<NodeView>, from: nat)
    ensures
        evaluable_from(nodes, from) == (forall|i: int|
            from <= i < nodes.len() ==> evaluable(#[trigger] nodes[i])),
    decreases nodes.len() - from,
{
    if from < nodes.len() {
        lemma_evaluable_from(nodes, from + 1);
        if evaluable_from(nodes, from) {
            assert forall|i: int| from <= i < nodes.len() implies evaluable(
                #[trigger] nodes[i],
            ) by {
                if i > from {
                    assert(from + 1 <= i);
                }
            }
        }
    }
}

/// A definition can be evaluated when its body can, and a call when its
/// arguments can.
pub proof fn lemma_evaluable_lists(name: Seq<char>, params: Seq<Seq<char>>, nodes: Seq<NodeView>)
    ensures
        evaluable(NodeView::FunctionDef { name, params, body: nodes }) == all_evaluable(nodes),
        evaluable(NodeView::FunctionCall { name, args: nodes }) == all_evaluable(nodes),
{
    lemma_evaluable_from(nodes, 0);
}

/// Whether each of some trees can be evaluated.
pub fn all_are_evaluable(nodes: &Vec<Node>) -> (r: bool)
    ensures
        r == all_evaluable(nodes_view(nodes@)),
    decreases nodes,
{
    let mut i: usize = 0;
    while i < nodes.len()
        invariant
            i <= nodes.len(),
            forall|j: int| 0 <= j < i ==> evaluable(#[trigger] nodes_view(nodes@)[j]),
            forall|j: int| 0 <= j < nodes.len() ==> decreases_to!(nodes => #[trigger] nodes[j]),
        decreases nodes.len() - i,
    {
        if !is_evaluable(&nodes[i]) {
            assert(!evaluable(nodes_view(nodes@)[i as int]));
            return false;
        }
        i += 1;
    }
    true
}

/// Whether a tree can be evaluated.
pub fn is_evaluable(node: &Node) -> (r: bool)
    ensures
        r == evaluable(node@),
    decreases node,
{
    proof {
        lemma_node_view_lists(*node);
    }
    match node {
        Node::Error => false,
        Node::Infix { lhs, op, rhs } => {
            let known = Opcode::from_symbol(op.as_str()).is_some();
            let left = is_evaluable(lhs);
            let right = is_evaluable(rhs);
            assert(node@ == NodeView::Infix { lhs: Box::new(lhs@), op: op@, rhs: Box::new(rhs@) });
            known && left && right
        },
        Node::FunctionDef { name, params, body } => {
            let r = all_are_evaluable(body);
            assert(node@ == NodeView::FunctionDef {
                name: name@,
                params: names_view(params@),
                body: nodes_view(body@),
            });
            proof {
                lemma_evaluable_lists(name@, names_view(params@), nodes_view(body@));
            }
            r
        },
        Node::FunctionCall { name, args } => {
            let r = all_are_evaluable(args);
            assert(node@ == NodeView::FunctionCall { name: name@, args: nodes_view(args@) });
            proof {
                lemma_evaluable_lists(name@, Seq::empty(), nodes_view(args@));
            }
            r
        },
        Node::Let(name, value) => {
            let r = is_evaluable(value);
            assert(node@ == NodeView::Let(name@, Box::new(value@)));
            r
        },
        Node::Number(_) => true,
        Node::String(_) => true,
        Node::Ident(_) => true,
        Node::Prev => true,
    }
}

/// The sum of the bytes of a text.
pub fn byte_total(s: &str) -> (r: Integer)
    ensures
        r@ == byte_sum(s.spec_bytes()),
{
    let bytes = s.as_bytes();
    let mut total = Integer::zero();
    let mut i: usize = 0;
    while i < bytes.len()
        invariant
            i <= bytes@.len(),
            total@ == byte_sum(bytes@.take(i as int)),
        decreases bytes@.len() - i,
    {
        total = total.add(&Integer::from_u64(bytes[i] as u64));
        i += 1;
        assert(bytes@.take(i as int).drop_last() =~= bytes@.take(i - 1));
    }
    assert(bytes@.take(bytes@.len() as int) =~= bytes@);
    total
}

/// The frame of a call.
pub fn build_frame(params: &Vec<String>, values: &Vec<Number>) -> (r: Vec<(String, Number)>)
    ensures
        map_of(r@) == frame_of(
            names_view(params@),
            numbers_view(values@),
            shorter(params.len() as nat, values.len() as nat),
        ),
{
    let count: usize = if params.len() <= values.len() {
        params.len()
    } else {
        values.len()
    };
    let mut frame: Vec<(String, Number)> = Vec::new();
    let mut i: usize = 0;
    while i < count
        invariant
            i <= count,
            count <= params.len(),
            count <= values.len(),
            map_of(frame@) == frame_of(names_view(params@), numbers_view(values@), i as nat),
        decreases count - i,
    {
        put(&mut frame, params[i].clone(), values[i].clone());
        i += 1;
    }
    frame
}

/// What an operator gives on two numbers.
pub fn eval_op<A: Fn(FloatRequest) -> FloatValue>(
    op: Opcode,
    lh: Number,
    rh: Number,
    arith: &A,
) -> (r: Number)
    requires
        dependable(arith),
    ensures
        r@ == apply(arith, op, lh@, rh@),
{
    match op {
        Opcode::Add => lh.add(rh, arith),
        Opcode::Sub => lh.sub(rh, arith),
        Opcode::Mul => lh.mul(rh, arith),
        Opcode::Div => lh.div(rh, arith),
        Opcode::Pow => lh.pow(rh, arith),
        Opcode::Shl => lh.shl(rh, arith),
        Opcode::Shr => lh.shr(rh, arith),
    }
}

/// The value of a built-in function.
pub fn eval_builtin<A: Fn(FloatRequest) -> FloatValue>(
    function: Builtin,
    argument: Number,
    arith: &A,
) -> (r: Number)
    requires
        dependable(arith),
    ensures
        r@ == builtin_value(arith, function, argument@),
{
    let float = argument.into_float(arith);
    let prec: u32 = float.prec;
    let value = ask(arith, FloatRequest::Apply { function, argument: float });
    Number::Float(Float { prec, value })
}

impl EvalContext {
    /// Every function of the session has a body that can be evaluated.
    pub closed spec fn well_formed(&self) -> bool {
        context_ok(self@)
    }

    /// A new session that allows the default number of calls under way.
    pub fn new() -> (r: EvalContext)
        ensures
            r@ == initial_context(DEFAULT_DEPTH_LIMIT),
            r.well_formed(),
    {
        EvalContext::with_depth_limit(DEFAULT_DEPTH_LIMIT)
    }

    /// A new session that allows `depth_limit` calls of defined functions
    /// to be under way at once.
    pub fn with_depth_limit(depth_limit: usize) -> (r: EvalContext)
        ensures
            r@ == initial_context(depth_limit),
            r.well_formed(),
    {
        let mut values: Vec<(String, Number)> = Vec::new();
        let ratio = Number::Float(
            Float {
                prec: DEFAULT_PRECISION,
                value: FloatValue::Finite {
                    mantissa: Integer::from_u64(884279719003555),
                    exponent: -48,
                },
            },
        );
        put(&mut values, String::from_str("pi"), ratio);
        let r = EvalContext {
            last_result: None,
            values,
            functions: Vec::new(),
            local_values: Vec::new(),
            depth_limit,
        };
        assert(r@.frames =~= Seq::empty());
        r
    }

    /// The result of the last evaluation, if it has not been read.
    pub fn last_result(&self) -> (r: Option<Number>)
        ensures
            match r {
                Some(n) => self@.last_result == Some(n@),
                None => self@.last_result is None,
            },
    {
        match &self.last_result {
            Some(n) => Some(n.clone()),
            None => None,
        }
    }

    /// How many calls of defined functions may be under way at once.
    pub fn depth_limit(&self) -> (r: usize)
        ensures
            r == self@.depth_limit,
    {
        self.depth_limit
    }

    /// What a name stands for.
    pub fn lookup_ident(&self, key: &str) -> (r: Number)
        ensures
            r@ == lookup(self@, key@),
    {
        let n: usize = self.local_values.len();
        if n > 0 {
            match find(&self.local_values[n - 1], key) {
                Some(v) => {
                    return v.clone();
                },
                None => {},
            }
        }
        match find(&self.values, key) {
            Some(v) => v.clone(),
            None => Number::default(),
        }
    }

    /// Evaluates some trees one after the other.
    fn eval_all<A: Fn(FloatRequest) -> FloatValue>(
        &mut self,
        nodes: &Vec<Node>,
        depth: usize,
        arith: &A,
    ) -> (r: Result<Vec<Number>, EvalError>)
        requires
            old(self).well_formed(),
            all_evaluable(nodes_view(nodes@)),
            dependable(arith),
        ensures
            final(self).well_formed(),
            final(self)@ == eval_list(
                arith,
                old(self)@,
                nodes_view(nodes@),
                0,
                Seq::empty(),
                depth as nat,
            ).context,
            numbers_result(r) == eval_list(
                arith,
                old(self)@,
                nodes_view(nodes@),
                0,
                Seq::empty(),
                depth as nat,
            ).result,
        decreases depth, nodes, 1nat,
    {
        let ghost start = self@;
        let ghost nv = nodes_view(nodes@);
        let mut out: Vec<Number> = Vec::new();
        let mut i: usize = 0;
        assert(numbers_view(out@) =~= Seq::empty());
        while i < nodes.len()
            invariant
                i <= nodes.len(),
                self.well_formed(),
                dependable(arith),
                nv == nodes_view(nodes@),
                start == old(self)@,
                all_evaluable(nv),
                eval_list(arith, start, nv, 0, Seq::empty(), depth as nat) == eval_list(
                    arith,
                    self@,
                    nv,
                    i as nat,
                    numbers_view(out@),
                    depth as nat,
                ),
                forall|j: int| 0 <= j < nodes.len() ==> decreases_to!(nodes => #[trigger] nodes[j]),
            decreases nodes.len() - i,
        {
            let ghost before = numbers_view(out@);
            let ghost prior = self@;
            assert(evaluable(nv[i as int]));
            assert(nv[i as int] == nodes[i as int]@);
            match self.eval_internal(&nodes[i], depth, arith) {
                Ok(v) => {
                    out.push(v);
                    assert(numbers_view(out@) =~= before.push(v@));
                },
                Err(e) => {
                    assert(eval_list(arith, prior, nv, i as nat, before, depth as nat).result
                        == Err::<Seq<NumberView>, EvalError>(e));
                    return Err(e);
                },
            }
            i += 1;
        }
        Ok(out)
    }

    /// Evaluates the call of a function.
    fn eval_function<A: Fn(FloatRequest) -> FloatValue>(
        &mut self,
        name: &str,
        args: &Vec<Node>,
        depth: usize,
        arith: &A,
    ) -> (r: Result<Number, EvalError>)
        requires
            old(self).well_formed(),
            all_evaluable(nodes_view(args@)),
            dependable(arith),
        ensures
            final(self).well_formed(),
            final(self)@ == eval_node(
                arith,
                old(self)@,
                NodeView::FunctionCall { name: name@, args: nodes_view(args@) },
                depth as nat,
            ).context,
            number_result(r) == eval_node(
                arith,
                old(self)@,
                NodeView::FunctionCall { name: name@, args: nodes_view(args@) },
                depth as nat,
            ).result,
        decreases depth, args, 2nat,
    {
        let ghost start = self@;
        let ghost av = nodes_view(args@);
        match builtin_named(name) {
            Some(function) => {
                if args.len() == 0 {
                    return Ok(eval_builtin(function, Number::default(), arith));
                }
                assert(evaluable(av[0]));
                match self.eval_internal(&args[0], depth, arith) {
                    Ok(v) => Ok(eval_builtin(function, v, arith)),
                    Err(e) => Err(e),
                }
            },
            None => {
                let function = match find(&self.functions, name) {
                    Some(f) => f.clone(),
                    None => {
                        return Ok(Number::default());
                    },
                };
                assert(start.functions.contains_key(name@));
                assert(all_evaluable(function@.body));
                if depth == 0 {
                    return Err(EvalError::DepthExceeded);
                }
                let values = match self.eval_all(args, depth, arith) {
                    Ok(values) => values,
                    Err(e) => {
                        return Err(e);
                    },
                };
                let frame = build_frame(&function.params, &values);
                let ghost bound = map_of(frame@);
                let ghost mid = self@;
                self.local_values.push(frame);
                let ghost inner = ContextView { frames: mid.frames.push(bound), ..mid };
                assert(self@.frames =~= inner.frames);
                assert(self@ == inner);
                proof {
                    lemma_list_frames_restored(
                        arith,
                        inner,
                        function@.body,
                        0,
                        Seq::empty(),
                        (depth - 1) as nat,
                    );
                }
                let outcome = self.eval_all(&function.body, (depth - 1) as usize, arith);
                let ghost done = self@;
                self.local_values.pop();
                assert(self@.frames =~= done.frames.drop_last());
                match outcome {
                    Ok(all) => {
                        let mut all = all;
                        let ghost given = numbers_view(all@);
                        match all.pop() {
                            Some(v) => {
                                assert(v@ == given.last());
                                Ok(v)
                            },
                            None => Ok(Number::default()),
                        }
                    },
                    Err(e) => Err(e),
                }
            },
        }
    }

    /// Evaluates a tree.
    fn eval_internal<A: Fn(FloatRequest) -> FloatValue>(
        &mut self,
        node: &Node,
        depth: usize,
        arith: &A,
    ) -> (r: Result<Number, EvalError>)
        requires
            old(self).well_formed(),
            evaluable(node@),
            dependable(arith),
        ensures
            final(self).well_formed(),
            final(self)@ == eval_node(arith, old(self)@, node@, depth as nat).context,
            number_result(r) == eval_node(arith, old(self)@, node@, depth as nat).result,
        decreases depth, node, 0nat,
    {
        proof {
            lemma_node_view_lists(*node);
            match node {
                Node::FunctionDef { name, params, body } => {
                    lemma_evaluable_lists(name@, names_view(params@), nodes_view(body@));
                },
                Node::FunctionCall { name, args } => {
                    lemma_evaluable_lists(name@, Seq::empty(), nodes_view(args@));
                },
                _ => {},
            }
        }
        match node {
            Node::Number(n) => Ok(n.clone()),
            Node::String(s) => Ok(Number::Int(byte_total(s.as_str()))),
            Node::Ident(key) => Ok(self.lookup_ident(key.as_str())),
            Node::Prev => {
                let taken = match &self.last_result {
                    Some(n) => n.clone(),
                    None => Number::default(),
                };
                self.last_result = None;
                Ok(taken)
            },
            Node::Infix { lhs, op, rhs } => {
                let opcode = match Opcode::from_symbol(op.as_str()) {
                    Some(opcode) => opcode,
                    None => Opcode::Add,
                };
                match self.eval_internal(lhs, depth, arith) {
                    Ok(l) => match self.eval_internal(rhs, depth, arith) {
                        Ok(r) => Ok(eval_op(opcode, l, r, arith)),
                        Err(e) => Err(e),
                    },
                    Err(e) => Err(e),
                }
            },
            Node::Let(key, value) => {
                match self.eval_internal(value, depth, arith) {
                    Ok(v) => {
                        put(&mut self.values, key.clone(), v.clone());
                        Ok(v)
                    },
                    Err(e) => Err(e),
                }
            },
            Node::FunctionDef { name, params, body } => {
                let function = UserFunction { params: clone_names(params), body: clone_nodes(body) };
                let ghost before = self@;
                put(&mut self.functions, name.clone(), function);
                proof {
                    assert forall|other: Seq<char>| #[trigger]
                        self@.functions.contains_key(other) implies all_evaluable(
                        self@.functions[other].body,
                    ) by {
                        if other != name@ {
                            assert(before.functions.contains_key(other));
                        }
                    }
                }
                Ok(Number::default())
            },
            Node::FunctionCall { name, args } => self.eval_function(
                name.as_str(),
                args,
                depth,
                arith,
            ),
            Node::Error => Ok(Number::default()),
        }
    }

    /// Evaluates one tree for a line of the session. The result, where
    /// there is one, becomes the last result.
    pub fn eval<A: Fn(FloatRequest) -> FloatValue>(&mut self, node: Node, arith: &A) -> (r: Result<
        Number,
        EvalError,
    >)
        requires
            old(self).well_formed(),
            evaluable(node@),
            dependable(arith),
        ensures
            final(self).well_formed(),
            final(self)@ == evaluate(arith, old(self)@, node@).context,
            number_result(r) == evaluate(arith, old(self)@, node@).result,
    {
        let limit: usize = self.depth_limit;
        match self.eval_internal(&node, limit, arith) {
            Ok(v) => {
                self.last_result = Some(v.clone());
                Ok(v)
            },
            Err(e) => Err(e),
        }
    }
}

} // verus!
