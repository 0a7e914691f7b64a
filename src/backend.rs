use vstd::prelude::*;
use crate::utils::{
    Error, ErrorView, err_position, error_at, ir_view, lines_view, decimal, decimal_string,
};
use crate::abstract_tree::{
    AbstractTree, TokenType, Tree, joined, same_text, lemma_node_view, length_check, views_of,
    lemma_children_views, argument_block_check, block_shape_message,
};

verus! {

/// The name of the counter that numbers the results of expressions.
pub const RET: &'static str = "ret";

/// A special form: a name whose nodes are lowered by a handler of their own
/// instead of as a call.
///
/// The handlers form a closed set named by this enum rather than function
/// values kept in the registry: the lowering of a tree and the handlers call
/// each other, and only a closed set lets the contract of `compile_inner` say
/// exactly what a handler produces and lets its recursion be shown to end.
/// `handle` still binds any name to any handler; a new kind of special form
/// is a new variant here, with its lowering beside `lower_define`.
#[derive(Debug, Clone, Copy, PartialEq, Eq, Structural)]
pub enum SpecialForm {
    /// A function definition: `define name { arguments \n body }`.
    Define,
}

/// A local variable that a function body has declared.
#[derive(Debug)]
pub struct Assignee {
    pub name: String,
    /// Reserved for numbering the assignments to the variable; not read yet.
    pub count: i64,
}

impl Assignee {
    fn new(name: String) -> (r: Assignee)
        ensures
            r.name@ == name@,
    {
        Assignee { name, count: -1 }
    }

    fn copy(&self) -> (r: Assignee)
        ensures
            r.name@ == self.name@,
    {
        Assignee { name: self.name.clone(), count: self.count }
    }
}

/// Whether some entry of `s` has the key `key`.
pub open spec fn has_key<V>(s: Seq<(Seq<char>, V)>, key: Seq<char>) -> bool {
    exists|i: int| 0 <= i < s.len() && s[i].0 == key
}

/// The index of the entry with the key `key`.
pub open spec fn index_of<V>(s: Seq<(Seq<char>, V)>, key: Seq<char>) -> int {
    choose|i: int| 0 <= i < s.len() && s[i].0 == key
}

/// The value under `key`, where there is one.
pub open spec fn value_of<V>(s: Seq<(Seq<char>, V)>, key: Seq<char>) -> Option<V> {
    if has_key(s, key) {
        Some(s[index_of(s, key)].1)
    } else {
        None
    }
}

pub open spec fn unique_keys<V>(s: Seq<(Seq<char>, V)>) -> bool {
    forall|i: int, j: int| 0 <= i < s.len() && 0 <= j < s.len() && s[i].0 == s[j].0 ==> i == j
}

/// `s` with `key` bound to `v`: the entry is replaced in place, or added at the end.
pub open spec fn stored<V>(s: Seq<(Seq<char>, V)>, key: Seq<char>, v: V) -> Seq<(Seq<char>, V)> {
    if has_key(s, key) {
        s.update(index_of(s, key), (key, v))
    } else {
        s.push((key, v))
    }
}

/// `s` without the entry for `key`.
pub open spec fn removed<V>(s: Seq<(Seq<char>, V)>, key: Seq<char>) -> Seq<(Seq<char>, V)> {
    if has_key(s, key) {
        s.remove(index_of(s, key))
    } else {
        s
    }
}

pub proof fn lemma_index_of<V>(s: Seq<(Seq<char>, V)>, key: Seq<char>, i: int)
    requires
        unique_keys(s),
        0 <= i < s.len(),
        s[i].0 == key,
    ensures
        has_key(s, key),
        index_of(s, key) == i,
        value_of(s, key) == Some(s[i].1),
{
}

pub proof fn lemma_stored_unique<V>(s: Seq<(Seq<char>, V)>, key: Seq<char>, v: V)
    requires
        unique_keys(s),
    ensures
        unique_keys(stored(s, key, v)),
        value_of(stored(s, key, v), key) == Some(v),
{
    let t = stored(s, key, v);
    if has_key(s, key) {
        lemma_index_of(t, key, index_of(s, key));
    } else {
        assert(unique_keys(t));
        lemma_index_of(t, key, s.len() as int);
    }
}

pub proof fn lemma_removed_unique<V>(s: Seq<(Seq<char>, V)>, key: Seq<char>)
    requires
        unique_keys(s),
    ensures
        unique_keys(removed(s, key)),
        !has_key(removed(s, key), key),
{
    let t = removed(s, key);
    if has_key(s, key) {
        let k = index_of(s, key);
        assert forall|i: int, j: int|
            0 <= i < t.len() && 0 <= j < t.len() && t[i].0 == t[j].0 implies i == j by {
            let a = if i < k { i } else { i + 1 };
            let b = if j < k { j } else { j + 1 };
            assert(s[a] == t[i]);
            assert(s[b] == t[j]);
        }
        if has_key(t, key) {
            let i = index_of(t, key);
            let a = if i < k { i } else { i + 1 };
            assert(s[a] == t[i]);
        }
    }
}

/// What the backend holds, as plain values: the named counters, and the frames
/// of local names from the outermost to the innermost.
pub ghost struct BackendState {
    pub counters: Seq<(Seq<char>, nat)>,
    pub locals: Seq<Seq<Seq<char>>>,
}

/// The value that counter `key` hands out next.
pub open spec fn next_value(counters: Seq<(Seq<char>, nat)>, key: Seq<char>) -> nat {
    match value_of(counters, key) {
        Some(v) => v + 1,
        None => 0,
    }
}

/// The text that names value `v` of counter `key`.
pub open spec fn counter_text(key: Seq<char>, v: nat) -> Seq<char> {
    key + "."@ + decimal(v)
}

/// The text of the current value of counter `key`; zero where none was handed out.
pub open spec fn current_text(counters: Seq<(Seq<char>, nat)>, key: Seq<char>) -> Seq<char> {
    match value_of(counters, key) {
        Some(v) => counter_text(key, v),
        None => counter_text(key, 0),
    }
}

/// Hands out the next value of counter `key`.
pub open spec fn bump(st: BackendState, key: Seq<char>) -> (BackendState, nat) {
    let v = next_value(st.counters, key);
    (BackendState { counters: stored(st.counters, key, v), ..st }, v)
}

/// Whether `name` is declared in some frame.
pub open spec fn is_declared(locals: Seq<Seq<Seq<char>>>, name: Seq<char>) -> bool {
    exists|f: int, j: int| 0 <= f < locals.len() && 0 <= j < locals[f].len() && locals[f][j] == name
}

/// `locals` with `name` declared in the innermost frame.
pub open spec fn with_local(locals: Seq<Seq<Seq<char>>>, name: Seq<char>) -> Seq<Seq<Seq<char>>> {
    let last = locals.last();
    locals.update(
        locals.len() - 1,
        if last.contains(name) {
            last
        } else {
            last.push(name)
        },
    )
}

pub open spec fn frame_view(f: Vec<Assignee>) -> Seq<Seq<char>> {
    Seq::new(f@.len(), |i: int| f@[i].name@)
}

/// Index of the variable `name` in `frame`.
fn find_local(frame: &Vec<Assignee>, name: &String) -> (r: Option<usize>)
    ensures
        r matches Some(i) ==> i < frame@.len() && frame_view(*frame)[i as int] == name@,
        r is None ==> !frame_view(*frame).contains(name@),
{
    let mut j: usize = 0;
    while j < frame.len()
        invariant
            0 <= j <= frame@.len(),
            forall|k: int| 0 <= k < j ==> frame_view(*frame)[k] != name@,
        decreases frame.len() - j,
    {
        if same_text(frame[j].name.as_str(), name.as_str()) {
            return Some(j);
        }
        j += 1;
    }
    None
}

/// The lines that open every generated module.
pub open spec fn preamble_lines() -> Seq<Seq<char>> {
    seq![
        "target datalayout = \"e-m:e-i64:64-f80:128-n8:16:32:64-S128\""@,
        "%object = type { i64, i64 }"@,
        "declare %object @print_number(%object) #0"@,
    ]
}

/// `%object %n0,%object %n1,...`: the temporaries `names`, comma separated.
pub open spec fn argument_list(names: Seq<Seq<char>>) -> Seq<char>
    decreases names.len(),
{
    if names.len() == 0 {
        Seq::empty()
    } else {
        argument_list(names.drop_last()) + (if names.len() > 1 {
            ","@
        } else {
            Seq::empty()
        }) + "%object %"@ + names.last()
    }
}

/// The parenthesised operands of a call whose arguments produced `names`.
pub open spec fn call_arguments(names: Seq<Seq<char>>) -> Seq<char> {
    "("@ + argument_list(names) + ")"@
}

/// The temporaries that hold the results of the arguments `c[1]` to
/// `c[c.len() - 1]`, lowered in turn from `st`: the current result after each.
pub open spec fn argument_results(
    forms: Seq<(Seq<char>, SpecialForm)>,
    st: BackendState,
    c: Seq<Tree>,
) -> Seq<Seq<char>>
    decreases c, c.len() + 1,
{
    Seq::new(
        (c.len() - 1) as nat,
        |k: int|
            if 0 <= k < c.len() - 1 {
                current_text(lower_range(forms, st, c, 1, (k + 2) as nat).0.counters, RET@)
            } else {
                Seq::empty()
            },
    )
}

pub open spec fn load_line(target: Seq<char>, local: Seq<char>) -> Seq<char> {
    "%"@ + target + " = load %object, %object* %"@ + local
}

pub open spec fn store_line(value: Seq<char>, local: Seq<char>) -> Seq<char> {
    "store %object %"@ + value + ", %object* %"@ + local
}

/// The comma-separated parameters `%object %in_arg.0, ...` of a function of `n` parameters.
pub open spec fn parameter_list(n: nat) -> Seq<char>
    decreases n,
{
    if n == 0 {
        Seq::empty()
    } else {
        parameter_list((n - 1) as nat) + (if n > 1 {
            ","@
        } else {
            Seq::empty()
        }) + "%object %in_arg."@ + decimal((n - 1) as nat)
    }
}

/// The name of incoming parameter `i`.
pub open spec fn in_arg(i: nat) -> Seq<char> {
    "in_arg."@ + decimal(i)
}

/// The parenthesised operands of a call whose arguments' results are held in
/// the temporaries `arguments`.
pub fn generate_function_arguments(arguments: &Vec<String>) -> (r: String)
    ensures
        r@ == call_arguments(lines_view(*arguments)),
{
    let ghost names = lines_view(*arguments);
    let mut output = "(".to_string();
    let mut x: usize = 0;
    while x < arguments.len()
        invariant
            0 <= x <= arguments@.len(),
            names == lines_view(*arguments),
            output@ == "("@ + argument_list(names.take(x as int)),
        decreases arguments.len() - x,
    {
        if x != 0 {
            output.append(",");
        }
        output.append("%object %");
        output.append(arguments[x].as_str());
        proof {
            let n = names.take(x + 1);
            assert(n.drop_last() =~= names.take(x as int));
            assert(output@ =~= "("@ + argument_list(n));
        }
        x += 1;
    }
    proof {
        assert(names.take(x as int) =~= names);
    }
    output.append(")");
    output
}

pub open spec fn call_line(v: nat, callee: Seq<char>, arguments: Seq<char>) -> Seq<char> {
    "%"@ + counter_text(RET@, v) + " = call %object @"@ + callee + arguments
}

pub open spec fn call_none_line(v: nat, callee: Seq<char>) -> Seq<char> {
    "%"@ + counter_text(RET@, v) + " = call %object @"@ + callee + "()"@
}

pub open spec fn constant_line(v: nat, literal: Seq<char>) -> Seq<char> {
    "%"@ + counter_text(RET@, v) + " =l "@ + literal
}

pub open spec fn alloca_line(local: Seq<char>) -> Seq<char> {
    "%"@ + local + " = alloca %object"@
}

pub open spec fn ret_line(value: Seq<char>) -> Seq<char> {
    "ret %object %"@ + value
}

pub open spec fn header_line(name: Seq<char>, n: nat) -> Seq<char> {
    "define %object @"@ + name + "("@ + parameter_list(n) + ") {"@
}

pub open spec fn kind_name(k: TokenType) -> Seq<char> {
    match k {
        TokenType::Flag => "Flag"@,
        TokenType::Symbol => "Symbol"@,
        TokenType::Int => "Int"@,
    }
}

pub open spec fn closure_message() -> Seq<char> {
    "unimplemented: no support for calling closures yet implemented"@
}

pub open spec fn not_token_message() -> Seq<char> {
    "compile_token not called on a token."@
}

pub open spec fn expects_name_message(name: Seq<char>, n: nat) -> Seq<char> {
    name + " expects a name for its "@ + decimal(n) + "th argument"@
}

/// Whether the parameters of a block, the children between its head and its
/// last child, all have names.
pub open spec fn parameters_named(bc: Seq<Tree>) -> bool {
    forall|i: int| 1 <= i < bc.len() - 1 ==> #[trigger] bc[i].has_name()
}

/// The checks on a `define` node: a name and a block, in that order.
pub open spec fn define_check(t: Tree) -> Result<(), ErrorView> {
    match length_check(t, 3) {
        Err(e) => Err(e),
        Ok(_) => argument_block_check(t, 2),
    }
}

/// A name that a local variable may have: it holds no space and does not look
/// like a generated name (`ret.` and `in_arg.` start those), so that its slot
/// never shares a name with a temporary or an incoming parameter.
pub open spec fn local_name_allowed(n: Seq<char>) -> bool {
    &&& !n.contains(' ')
    &&& !"ret."@.is_prefix_of(n)
    &&& !"in_arg."@.is_prefix_of(n)
}

/// Whether each parameter of a block has a name that a local may have.
pub open spec fn parameters_allowed(bc: Seq<Tree>) -> bool {
    forall|i: int| 1 <= i < bc.len() - 1 ==> local_name_allowed(#[trigger] bc[i].name())
}

pub open spec fn parameter_name_message() -> Seq<char> {
    "a parameter cannot be named like a generated temporary"@
}

/// The checks on a node before it is lowered as a definition: those of
/// `define_check`, then a name for the function and for each parameter, and
/// parameter names that no generated name can take.
pub open spec fn define_shape(t: Tree) -> Result<(), ErrorView> {
    match define_check(t) {
        Err(e) => Err(e),
        Ok(_) => if !t.children()[1].has_name() {
            Err(error_at(expects_name_message(t.name(), 1), t.position()))
        } else if !parameters_named(t.children()[2].children()) {
            Err(error_at(block_shape_message(), t.children()[2].position()))
        } else if !parameters_allowed(t.children()[2].children()) {
            Err(error_at(parameter_name_message(), t.children()[2].position()))
        } else {
            Ok(())
        },
    }
}


/// `locals` with the parameters `bc[1]` to `bc[k]` declared in the innermost frame.
pub open spec fn bind_locals(locals: Seq<Seq<Seq<char>>>, bc: Seq<Tree>, k: nat) -> Seq<
    Seq<Seq<char>>,
>
    decreases k,
{
    if k == 0 {
        locals
    } else {
        with_local(bind_locals(locals, bc, (k - 1) as nat), bc[k as int].name())
    }
}

/// The number of nodes and tokens in a tree.
pub open spec fn tree_size(t: Tree) -> nat
    decreases t, 1nat,
{
    match t {
        Tree::Node(c, _) => 1 + sizes(c, c.len()),
        Tree::Token(..) => 1,
    }
}

/// The sizes of `c[0]` to `c[hi - 1]`, summed.
pub open spec fn sizes(c: Seq<Tree>, hi: nat) -> nat
    decreases c, hi,
{
    if hi == 0 || hi > c.len() {
        0
    } else {
        sizes(c, (hi - 1) as nat) + tree_size(c[hi - 1])
    }
}

/// How many values the result counter has handed out since it was last reset.
pub open spec fn issued(st: BackendState) -> nat {
    next_value(st.counters, RET@)
}

/// Lowering `t` from state `st`: the state after, and the lines or the error.
pub open spec fn lower(forms: Seq<(Seq<char>, SpecialForm)>, st: BackendState, t: Tree) -> (
    BackendState,
    Result<Seq<Seq<char>>, ErrorView>,
)
    decreases t, 2nat,
{
    if t.has_name() && has_key(forms, t.name()) {
        lower_define(forms, st, t)
    } else {
        match t {
            Tree::Node(..) => lower_call(forms, st, t),
            Tree::Token(..) => lower_token(st, t),
        }
    }
}

/// Lowering a token: a local is loaded, another symbol is called without
/// arguments, an integer is materialised.
pub open spec fn lower_token(st: BackendState, t: Tree) -> (
    BackendState,
    Result<Seq<Seq<char>>, ErrorView>,
) {
    match t {
        Tree::Token(TokenType::Symbol, name, _) => {
            let (st1, v) = bump(st, RET@);
            if is_declared(st.locals, name) {
                (st1, Ok(seq![load_line(counter_text(RET@, v), name)]))
            } else {
                (st1, Ok(seq![call_none_line(v, name)]))
            }
        },
        Tree::Token(TokenType::Int, literal, _) => {
            let (st1, v) = bump(st, RET@);
            (st1, Ok(seq![constant_line(v, literal)]))
        },
        _ => (st, Err(error_at(not_token_message(), t.position()))),
    }
}

/// Lowering a node as a call: the arguments from left to right, then the call.
pub open spec fn lower_call(forms: Seq<(Seq<char>, SpecialForm)>, st: BackendState, t: Tree) -> (
    BackendState,
    Result<Seq<Seq<char>>, ErrorView>,
)
    decreases t, 1nat,
{
    match t {
        Tree::Node(c, p) => if c.len() == 0 {
            (st, Err(error_at("node with zero items"@, p)))
        } else if c.len() == 1 {
            lower(forms, st, c[0])
        } else {
            match c[0] {
                Tree::Node(_, q) => (st, Err(error_at(closure_message(), q))),
                Tree::Token(k, data, q) => if k == TokenType::Symbol {
                    call_outcome(forms, st, c, data)
                } else {
                    (
                        st,
                        Err(error_at("cannot call token "@ + data + " of type "@ + kind_name(k), q)),
                    )
                },
            }
        },
        Tree::Token(..) => (st, Err(error_at(not_token_message(), t.position()))),
    }
}

/// Lowering the call of `callee` on the arguments `c[1]` to `c[c.len() - 1]`:
/// the arguments in turn, then the call on the temporaries that hold their results.
pub open spec fn call_outcome(
    forms: Seq<(Seq<char>, SpecialForm)>,
    st: BackendState,
    c: Seq<Tree>,
    callee: Seq<char>,
) -> (BackendState, Result<Seq<Seq<char>>, ErrorView>)
    decreases c, c.len() + 2,
{
    let (st1, r) = lower_range(forms, st, c, 1, c.len());
    match r {
        Err(e) => (st1, Err(e)),
        Ok(ir) => {
            let (st2, v) = bump(st1, RET@);
            let operands = call_arguments(argument_results(forms, st, c));
            (st2, Ok(ir.push(call_line(v, callee, operands))))
        },
    }
}

/// Lowering `c[lo]` to `c[hi - 1]` in turn, stopping at the first error.
pub open spec fn lower_range(
    forms: Seq<(Seq<char>, SpecialForm)>,
    st: BackendState,
    c: Seq<Tree>,
    lo: nat,
    hi: nat,
) -> (BackendState, Result<Seq<Seq<char>>, ErrorView>)
    decreases c, hi,
{
    if hi <= lo || hi > c.len() {
        (st, Ok(Seq::empty()))
    } else {
        let (st1, r1) = lower_range(forms, st, c, lo, (hi - 1) as nat);
        match r1 {
            Err(e) => (st1, Err(e)),
            Ok(a) => {
                let (st2, r2) = lower(forms, st1, c[hi - 1]);
                match r2 {
                    Err(e) => (st2, Err(e)),
                    Ok(b) => (st2, Ok(a + b)),
                }
            },
        }
    }
}

/// Lowering a definition `define name { parameters \n body }`: a fresh frame and
/// result counter, a store of each incoming parameter into its local, the body,
/// and a return of the last result; the locals' slots are declared right after
/// the opening line.
pub open spec fn lower_define(forms: Seq<(Seq<char>, SpecialForm)>, st: BackendState, t: Tree) -> (
    BackendState,
    Result<Seq<Seq<char>>, ErrorView>,
)
    decreases t, 1nat,
{
    match define_shape(t) {
        Err(e) => (st, Err(e)),
        Ok(_) => match t {
            Tree::Node(c, _) => match c[2] {
                Tree::Node(bc, _) => match bc[bc.len() - 1] {
                    Tree::Node(body, _) => {
                        let np = (bc.len() - 2) as nat;
                        let st0 = BackendState {
                            counters: removed(st.counters, RET@),
                            locals: st.locals.push(Seq::empty()),
                        };
                        let st1 = BackendState { locals: bind_locals(st0.locals, bc, np), ..st0 };
                        let (st2, r) = lower_range(forms, st1, body, 0, body.len());
                        let st3 = BackendState { locals: st2.locals.drop_last(), ..st2 };
                        match r {
                            Err(e) => (st3, Err(e)),
                            Ok(ir) => (
                                st3,
                                Ok(
                                    seq![header_line(c[1].name(), np)] + Seq::new(
                                        st2.locals.last().len(),
                                        |i: int| alloca_line(st2.locals.last()[i]),
                                    ) + Seq::new(
                                        np,
                                        |i: int| store_line(in_arg(i as nat), bc[i + 1].name()),
                                    ) + ir + seq![
                                        ret_line(current_text(st2.counters, RET@)),
                                        "}"@,
                                    ],
                                ),
                            ),
                        }
                    },
                    _ => (st, Ok(Seq::empty())),
                },
                _ => (st, Ok(Seq::empty())),
            },
            _ => (st, Ok(Seq::empty())),
        },
    }
}

pub proof fn lemma_sizes_monotone(c: Seq<Tree>, i: nat, hi: nat)
    requires
        i <= hi <= c.len(),
    ensures
        sizes(c, i) <= sizes(c, hi),
        hi <= sizes(c, hi),
    decreases hi,
{
    if hi > 0 {
        if i < hi {
            lemma_sizes_monotone(c, i, (hi - 1) as nat);
        } else {
            lemma_sizes_monotone(c, (hi - 1) as nat, (hi - 1) as nat);
        }
        assert(tree_size(c[hi - 1]) >= 1);
    }
}

/// Each tree of `c` is no larger than the sum over `c`.
pub proof fn lemma_size_within(c: Seq<Tree>, k: int)
    requires
        0 <= k < c.len(),
    ensures
        tree_size(c[k]) <= sizes(c, c.len()),
        sizes(c, (k + 1) as nat) == sizes(c, k as nat) + tree_size(c[k]),
{
    lemma_sizes_monotone(c, (k + 1) as nat, c.len());
}

/// The state facts that lowering keeps: counter names stay unique, the frames
/// keep their number, and the result counter hands out at most one value per
/// node or token lowered.
pub proof fn lemma_lower_state(forms: Seq<(Seq<char>, SpecialForm)>, st: BackendState, t: Tree)
    requires
        unique_keys(st.counters),
    ensures
        unique_keys(lower(forms, st, t).0.counters),
        lower(forms, st, t).0.locals.len() == st.locals.len(),
        issued(lower(forms, st, t).0) <= issued(st) + tree_size(t),
    decreases t, 2nat,
{
    if t.has_name() && has_key(forms, t.name()) {
        lemma_define_state(forms, st, t);
    } else {
        match t {
            Tree::Node(..) => lemma_call_state(forms, st, t),
            Tree::Token(..) => {
                lemma_stored_unique(st.counters, RET@, next_value(st.counters, RET@));
            },
        }
    }
}

pub proof fn lemma_call_state(forms: Seq<(Seq<char>, SpecialForm)>, st: BackendState, t: Tree)
    requires
        unique_keys(st.counters),
    ensures
        unique_keys(lower_call(forms, st, t).0.counters),
        lower_call(forms, st, t).0.locals.len() == st.locals.len(),
        issued(lower_call(forms, st, t).0) <= issued(st) + tree_size(t),
    decreases t, 1nat,
{
    match t {
        Tree::Node(c, p) => if c.len() == 0 {
        } else if c.len() == 1 {
            lemma_lower_state(forms, st, c[0]);
            lemma_size_within(c, 0);
        } else {
            match c[0] {
                Tree::Node(_, q) => {},
                Tree::Token(k, data, q) => if k == TokenType::Symbol {
                    lemma_range_state(forms, st, c, 1, c.len());
                    lemma_size_within(c, 0);
                    let st1 = lower_range(forms, st, c, 1, c.len()).0;
                    lemma_stored_unique(st1.counters, RET@, next_value(st1.counters, RET@));
                } else {
                },
            }
        },
        Tree::Token(..) => {},
    }
}

pub proof fn lemma_range_state(
    forms: Seq<(Seq<char>, SpecialForm)>,
    st: BackendState,
    c: Seq<Tree>,
    lo: nat,
    hi: nat,
)
    requires
        unique_keys(st.counters),
        lo <= hi <= c.len(),
    ensures
        unique_keys(lower_range(forms, st, c, lo, hi).0.counters),
        lower_range(forms, st, c, lo, hi).0.locals.len() == st.locals.len(),
        issued(lower_range(forms, st, c, lo, hi).0) + sizes(c, lo) <= issued(st) + sizes(c, hi),
    decreases c, hi,
{
    if hi > lo {
        lemma_range_state(forms, st, c, lo, (hi - 1) as nat);
        let st1 = lower_range(forms, st, c, lo, (hi - 1) as nat).0;
        lemma_lower_state(forms, st1, c[hi - 1]);
    }
}

/// Once lowering a range has failed, lowering a longer range fails the same way.
pub proof fn lemma_range_failed(
    forms: Seq<(Seq<char>, SpecialForm)>,
    st: BackendState,
    c: Seq<Tree>,
    lo: nat,
    i: nat,
    hi: nat,
)
    requires
        lo <= i <= hi <= c.len(),
        lower_range(forms, st, c, lo, i).1 is Err,
    ensures
        lower_range(forms, st, c, lo, hi) == lower_range(forms, st, c, lo, i),
    decreases hi,
{
    if hi > i {
        lemma_range_failed(forms, st, c, lo, i, (hi - 1) as nat);
    }
}

pub proof fn lemma_define_state(forms: Seq<(Seq<char>, SpecialForm)>, st: BackendState, t: Tree)
    requires
        unique_keys(st.counters),
    ensures
        unique_keys(lower_define(forms, st, t).0.counters),
        lower_define(forms, st, t).0.locals.len() == st.locals.len(),
        issued(lower_define(forms, st, t).0) <= issued(st) + tree_size(t),
    decreases t, 1nat,
{
    if define_shape(t) is Ok {
        match t {
            Tree::Node(c, _) => match c[2] {
                Tree::Node(bc, _) => match bc[bc.len() - 1] {
                    Tree::Node(body, _) => {
                        let np = (bc.len() - 2) as nat;
                        let st0 = BackendState {
                            counters: removed(st.counters, RET@),
                            locals: st.locals.push(Seq::empty()),
                        };
                        lemma_removed_unique(st.counters, RET@);
                        lemma_bind_len(st0.locals, bc, np);
                        let st1 = BackendState { locals: bind_locals(st0.locals, bc, np), ..st0 };
                        lemma_range_state(forms, st1, body, 0, body.len());
                        lemma_size_within(bc, bc.len() - 1);
                        lemma_size_within(c, 2);
                    },
                    _ => {},
                },
                _ => {},
            },
            _ => {},
        }
    }
}

pub proof fn lemma_bind_len(locals: Seq<Seq<Seq<char>>>, bc: Seq<Tree>, k: nat)
    requires
        locals.len() > 0,
    ensures
        bind_locals(locals, bc, k).len() == locals.len(),
    decreases k,
{
    if k > 0 {
        lemma_bind_len(locals, bc, (k - 1) as nat);
    }
}

/// Lowers a tree to lines of intermediate representation: the tree given at
/// construction, the handlers of special forms, named counters for unique
/// temporaries, and a stack of frames of local variables.
pub struct LLVMBackend {
    pub abstract_tree: Option<AbstractTree>,
    pub transformations: Vec<(String, SpecialForm)>,
    pub all_counter: Vec<(String, usize)>,
    pub global_ir: Option<Vec<String>>,
    pub locals: Vec<Vec<Assignee>>,
}

impl LLVMBackend {
    pub open spec fn state(&self) -> BackendState {
        BackendState {
            counters: Seq::new(
                self.all_counter@.len(),
                |i: int| (self.all_counter@[i].0@, self.all_counter@[i].1 as nat),
            ),
            locals: Seq::new(self.locals@.len(), |i: int| frame_view(self.locals@[i])),
        }
    }

    /// The registered special forms, by name.
    pub open spec fn forms(&self) -> Seq<(Seq<char>, SpecialForm)> {
        Seq::new(
            self.transformations@.len(),
            |i: int| (self.transformations@[i].0@, self.transformations@[i].1),
        )
    }

    /// The lines put before the generated code, while they are still held.
    pub open spec fn preamble(&self) -> Option<Seq<Seq<char>>> {
        match self.global_ir {
            Some(v) => Some(lines_view(v)),
            None => None,
        }
    }

    pub open spec fn wf(&self) -> bool {
        &&& unique_keys(self.state().counters)
        &&& unique_keys(self.forms())
    }

    /// Index of the counter `key`.
    fn find_counter(&self, key: &str) -> (r: Option<usize>)
        ensures
            r matches Some(i) ==> i < self.all_counter@.len() && self.state().counters[i as int].0
                == key@,
            r is None ==> !has_key(self.state().counters, key@),
    {
        let mut i: usize = 0;
        while i < self.all_counter.len()
            invariant
                0 <= i <= self.all_counter@.len(),
                forall|j: int| 0 <= j < i ==> self.state().counters[j].0 != key@,
            decreases self.all_counter.len() - i,
        {
            if same_text(self.all_counter[i].0.as_str(), key) {
                return Some(i);
            }
            i += 1;
        }
        None
    }

    /// Index of the special form `key`.
    fn find_form(&self, key: &str) -> (r: Option<usize>)
        ensures
            r matches Some(i) ==> i < self.transformations@.len() && self.forms()[i as int].0
                == key@,
            r is None ==> !has_key(self.forms(), key@),
    {
        let mut i: usize = 0;
        while i < self.transformations.len()
            invariant
                0 <= i <= self.transformations@.len(),
                forall|j: int| 0 <= j < i ==> self.forms()[j].0 != key@,
            decreases self.transformations.len() - i,
        {
            if same_text(self.transformations[i].0.as_str(), key) {
                return Some(i);
            }
            i += 1;
        }
        None
    }

    /// The index that the next value of counter `key` will have.
    pub fn get_var_index(&self, key: &str) -> (r: usize)
        requires
            self.wf(),
            next_value(self.state().counters, key@) <= usize::MAX,
        ensures
            r == next_value(self.state().counters, key@),
    {
        match self.find_counter(key) {
            Some(i) => {
                proof {
                    lemma_index_of(self.state().counters, key@, i as int);
                }
                self.all_counter[i].1 + 1
            },
            None => 0,
        }
    }

    /// The name of the current value of counter `key`.
    pub fn get_counter(&self, key: &str) -> (r: String)
        requires
            self.wf(),
        ensures
            r@ == current_text(self.state().counters, key@),
    {
        let v = match self.find_counter(key) {
            Some(i) => {
                proof {
                    lemma_index_of(self.state().counters, key@, i as int);
                }
                self.all_counter[i].1
            },
            None => 0,
        };
        let mut r = key.to_string();
        r.append(".");
        r.append(decimal_string(v).as_str());
        r
    }

    /// Hands out the next value of counter `key`, and returns its name.
    pub fn inc_counter(&mut self, key: &str) -> (r: String)
        requires
            old(self).wf(),
            next_value(old(self).state().counters, key@) <= usize::MAX,
        ensures
            final(self).wf(),
            final(self).state() == bump(old(self).state(), key@).0,
            r@ == counter_text(key@, bump(old(self).state(), key@).1),
            final(self).forms() == old(self).forms(),
            final(self).preamble() == old(self).preamble(),
            final(self).abstract_tree == old(self).abstract_tree,
    {
        let ghost st = self.state();
        let v = match self.find_counter(key) {
            Some(i) => {
                proof {
                    lemma_index_of(st.counters, key@, i as int);
                }
                let v = self.all_counter[i].1 + 1;
                self.all_counter.set(i, (key.to_string(), v));
                v
            },
            None => {
                self.all_counter.push((key.to_string(), 0));
                0
            },
        };
        proof {
            lemma_stored_unique(st.counters, key@, v as nat);
            assert(self.state().counters =~= stored(st.counters, key@, v as nat));
            assert(self.state().locals =~= st.locals);
        }
        let mut r = key.to_string();
        r.append(".");
        r.append(decimal_string(v).as_str());
        r
    }

    /// A backend for `a`, with no special forms, counters or frames yet.
    pub fn new(a: AbstractTree) -> (r: LLVMBackend)
        ensures
            r.wf(),
            r.abstract_tree == Some(a),
            r.forms() == Seq::<(Seq<char>, SpecialForm)>::empty(),
            r.state() == (BackendState { counters: Seq::empty(), locals: Seq::empty() }),
            r.preamble() == Some(preamble_lines()),
    {
        let mut global = Vec::new();
        global.push("target datalayout = \"e-m:e-i64:64-f80:128-n8:16:32:64-S128\"".to_string());
        global.push("%object = type { i64, i64 }".to_string());
        global.push("declare %object @print_number(%object) #0".to_string());
        let r = LLVMBackend {
            abstract_tree: Some(a),
            transformations: Vec::new(),
            all_counter: Vec::new(),
            global_ir: Some(global),
            locals: Vec::new(),
        };
        proof {
            assert(r.state().counters =~= Seq::empty());
            assert(r.state().locals =~= Seq::empty());
            assert(r.forms() =~= Seq::empty());
            assert(lines_view(global) =~= preamble_lines());
        }
        r
    }

    /// Registers `f` as the handler of the trees named `key`; a name registered
    /// again gets the new handler.
    pub fn handle(self, key: String, f: SpecialForm) -> (r: LLVMBackend)
        requires
            self.wf(),
        ensures
            r.wf(),
            r.forms() == stored(self.forms(), key@, f),
            r.state() == self.state(),
            r.preamble() == self.preamble(),
            r.abstract_tree == self.abstract_tree,
    {
        let mut this = self;
        let ghost old_forms = this.forms();
        match this.find_form(key.as_str()) {
            Some(i) => {
                proof {
                    lemma_index_of(old_forms, key@, i as int);
                }
                this.transformations.set(i, (key, f));
            },
            None => {
                this.transformations.push((key, f));
            },
        }
        proof {
            lemma_stored_unique(old_forms, key@, f);
            assert(this.forms() =~= stored(old_forms, key@, f));
        }
        this
    }

    /// Opens the frame of a function body; its results are numbered from zero again.
    pub fn start_stack(&mut self)
        requires
            old(self).wf(),
        ensures
            final(self).wf(),
            final(self).state() == (BackendState {
                counters: removed(old(self).state().counters, RET@),
                locals: old(self).state().locals.push(Seq::empty()),
            }),
            final(self).forms() == old(self).forms(),
            final(self).preamble() == old(self).preamble(),
            final(self).abstract_tree == old(self).abstract_tree,
    {
        let ghost st = self.state();
        match self.find_counter(RET) {
            Some(i) => {
                proof {
                    lemma_index_of(st.counters, RET@, i as int);
                }
                self.all_counter.remove(i);
            },
            None => {},
        }
        let frame: Vec<Assignee> = Vec::new();
        proof {
            assert(frame_view(frame) =~= Seq::empty());
        }
        self.locals.push(frame);
        proof {
            lemma_removed_unique(st.counters, RET@);
            assert(self.state().counters =~= removed(st.counters, RET@));
            assert(self.state().locals =~= st.locals.push(Seq::empty()));
        }
    }

    /// Closes the innermost frame and returns its variables.
    pub fn end_stack(&mut self) -> (r: Vec<Assignee>)
        requires
            old(self).wf(),
            old(self).state().locals.len() > 0,
        ensures
            final(self).wf(),
            frame_view(r) == old(self).state().locals.last(),
            final(self).state() == (BackendState {
                locals: old(self).state().locals.drop_last(),
                ..old(self).state()
            }),
            final(self).forms() == old(self).forms(),
            final(self).preamble() == old(self).preamble(),
            final(self).abstract_tree == old(self).abstract_tree,
    {
        let ghost st = self.state();
        let r = self.locals.pop().unwrap();
        proof {
            assert(self.state().locals =~= st.locals.drop_last());
            assert(self.state().counters =~= st.counters);
        }
        r
    }

    /// The local called `name`, looked up from the innermost frame outwards.
    pub fn get_assignee(&self, name: &String) -> (r: Option<Assignee>)
        ensures
            r is Some <==> is_declared(self.state().locals, name@),
            r matches Some(a) ==> a.name@ == name@,
    {
        let mut f: usize = self.locals.len();
        while f > 0
            invariant
                0 <= f <= self.locals@.len(),
                forall|g: int, j: int|
                    f <= g < self.locals@.len() && 0 <= j < self.state().locals[g].len()
                        ==> self.state().locals[g][j] != name@,
            decreases f,
        {
            f -= 1;
            match find_local(&self.locals[f], name) {
                Some(j) => {
                    proof {
                        assert(self.state().locals[f as int] == frame_view(self.locals@[f as int]));
                        assert(self.state().locals[f as int][j as int] == name@);
                    }
                    return Some(self.locals[f][j].copy());
                },
                None => {},
            }
        }
        None
    }

    /// Declares `name` in the innermost frame.
    pub fn add_assignee(&mut self, name: &String)
        requires
            old(self).wf(),
            old(self).state().locals.len() > 0,
        ensures
            final(self).wf(),
            final(self).state() == (BackendState {
                locals: with_local(old(self).state().locals, name@),
                ..old(self).state()
            }),
            final(self).forms() == old(self).forms(),
            final(self).preamble() == old(self).preamble(),
            final(self).abstract_tree == old(self).abstract_tree,
    {
        let ghost st = self.state();
        let mut frame = self.locals.pop().unwrap();
        let ghost last = frame_view(frame);
        assert(last == st.locals.last());
        match find_local(&frame, name) {
            Some(j) => {
                frame.set(j, Assignee::new(name.clone()));
                proof {
                    assert(last.contains(name@));
                    assert(frame_view(frame) =~= last);
                }
            },
            None => {
                frame.push(Assignee::new(name.clone()));
                proof {
                    assert(frame_view(frame) =~= last.push(name@));
                }
            },
        }
        self.locals.push(frame);
        proof {
            assert(self.state().locals =~= with_local(st.locals, name@));
            assert(self.state().counters =~= st.counters);
        }
    }

    /// The line that loads the local `local_name` into the temporary `existing_name`.
    pub fn load_var_ir(&self, existing_name: String, local_name: String) -> (r: Vec<String>)
        ensures
            lines_view(r) == seq![load_line(existing_name@, local_name@)],
    {
        let mut line = "%".to_string();
        line.append(existing_name.as_str());
        line.append(" = load %object, %object* %");
        line.append(local_name.as_str());
        let mut r = Vec::new();
        r.push(line);
        proof {
            assert(lines_view(r) =~= seq![load_line(existing_name@, local_name@)]);
        }
        r
    }

    /// The line that stores `new_value` into the local `existing_name`, which is
    /// declared in the innermost frame if no frame has it yet.
    pub fn set_var_ir(&mut self, existing_name: &String, new_value: String) -> (r: Vec<String>)
        requires
            old(self).wf(),
            old(self).state().locals.len() > 0,
        ensures
            final(self).wf(),
            final(self).state() == (BackendState {
                locals: if is_declared(old(self).state().locals, existing_name@) {
                    old(self).state().locals
                } else {
                    with_local(old(self).state().locals, existing_name@)
                },
                ..old(self).state()
            }),
            lines_view(r) == seq![store_line(new_value@, existing_name@)],
            final(self).forms() == old(self).forms(),
            final(self).preamble() == old(self).preamble(),
            final(self).abstract_tree == old(self).abstract_tree,
    {
        if self.get_assignee(existing_name).is_none() {
            self.add_assignee(existing_name);
        }
        let mut line = "store %object %".to_string();
        line.append(new_value.as_str());
        line.append(", %object* %");
        line.append(existing_name.as_str());
        let mut r = Vec::new();
        r.push(line);
        proof {
            assert(lines_view(r) =~= seq![store_line(new_value@, existing_name@)]);
        }
        r
    }

    /// Lowers `ats[lo]` to the last tree of `ats` in turn, stopping at the first error.
    pub fn compile_all(&mut self, ats: &Vec<AbstractTree>, lo: usize) -> (r: Result<
        Vec<String>,
        Error,
    >)
        requires
            old(self).wf(),
            lo <= ats@.len(),
            issued(old(self).state()) + sizes(views_of(*ats), ats@.len() as nat) <= usize::MAX,
        ensures
            final(self).wf(),
            final(self).state() == lower_range(
                old(self).forms(),
                old(self).state(),
                views_of(*ats),
                lo as nat,
                ats@.len() as nat,
            ).0,
            ir_view(r) == lower_range(
                old(self).forms(),
                old(self).state(),
                views_of(*ats),
                lo as nat,
                ats@.len() as nat,
            ).1,
            final(self).forms() == old(self).forms(),
            final(self).preamble() == old(self).preamble(),
            final(self).abstract_tree == old(self).abstract_tree,
        decreases *ats, 0nat,
    {
        let ghost forms = self.forms();
        let ghost st = self.state();
        let ghost pre = self.preamble();
        let ghost tree = self.abstract_tree;
        let ghost c = views_of(*ats);
        let mut ir: Vec<String> = Vec::new();
        let mut i: usize = lo;
        proof {
            assert(lines_view(ir) =~= Seq::empty());
        }
        while i < ats.len()
            invariant
                lo <= i <= ats@.len(),
                c == views_of(*ats),
                forms == old(self).forms(),
                st == old(self).state(),
                pre == old(self).preamble(),
                tree == old(self).abstract_tree,
                self.wf(),
                self.forms() == forms,
                self.preamble() == pre,
                self.abstract_tree == tree,
                unique_keys(st.counters),
                issued(st) + sizes(c, ats@.len() as nat) <= usize::MAX,
                lower_range(forms, st, c, lo as nat, i as nat) == (
                    self.state(),
                    Ok::<Seq<Seq<char>>, ErrorView>(lines_view(ir)),
                ),
            decreases ats.len() - i,
        {
            proof {
                lemma_range_state(forms, st, c, lo as nat, i as nat);
                lemma_size_within(c, i as int);
                lemma_sizes_monotone(c, (i + 1) as nat, c.len());
                lemma_sizes_monotone(c, lo as nat, i as nat);
                assert(decreases_to!(*ats => ats@[i as int]));
            }
            let r = self.compile_inner(&ats[i]);
            match r {
                Err(e) => {
                    proof {
                        assert(c[i as int] == ats@[i as int]@);
                        assert(lower_range(forms, st, c, lo as nat, (i + 1) as nat).1 is Err);
                        lemma_range_failed(forms, st, c, lo as nat, (i + 1) as nat, c.len());
                    }
                    return Err(e);
                },
                Ok(mut a) => {
                    let ghost before = lines_view(ir);
                    let ghost more = lines_view(a);
                    ir.append(&mut a);
                    proof {
                        assert(lines_view(ir) =~= before + more);
                    }
                },
            }
            i += 1;
        }
        Ok(ir)
    }

    /// Lowers a token: a local is loaded, another symbol is called without
    /// arguments, an integer is materialised into a fresh temporary.
    pub fn compile_token(&mut self, tree: &AbstractTree) -> (r: Result<Vec<String>, Error>)
        requires
            old(self).wf(),
            issued(old(self).state()) + 1 <= usize::MAX,
        ensures
            final(self).wf(),
            final(self).state() == lower_token(old(self).state(), tree@).0,
            ir_view(r) == lower_token(old(self).state(), tree@).1,
            final(self).forms() == old(self).forms(),
            final(self).preamble() == old(self).preamble(),
            final(self).abstract_tree == old(self).abstract_tree,
    {
        proof {
            lemma_node_view(tree);
        }
        match tree {
            AbstractTree::Token(TokenType::Symbol, name, _) => {
                match self.get_assignee(name) {
                    Some(local) => {
                        let counter = self.inc_counter(RET);
                        let r = self.load_var_ir(counter, local.name);
                        Ok(r)
                    },
                    None => {
                        let counter = self.inc_counter(RET);
                        let mut line = "%".to_string();
                        line.append(counter.as_str());
                        line.append(" = call %object @");
                        line.append(name.as_str());
                        line.append("()");
                        let mut r = Vec::new();
                        r.push(line);
                        proof {
                            assert(lines_view(r) =~= lower_token(old(self).state(), tree@).1->Ok_0);
                        }
                        Ok(r)
                    },
                }
            },
            AbstractTree::Token(TokenType::Int, integer_literal, _) => {
                let counter = self.inc_counter(RET);
                let mut line = "%".to_string();
                line.append(counter.as_str());
                line.append(" =l ");
                line.append(integer_literal.as_str());
                let mut r = Vec::new();
                r.push(line);
                proof {
                    assert(lines_view(r) =~= lower_token(old(self).state(), tree@).1->Ok_0);
                }
                Ok(r)
            },
            _ => tree.err("compile_token not called on a token.".to_string()),
        }
    }

    /// Lowers a node as a call: its head must be a symbol; the arguments are
    /// lowered from left to right and their results passed to the call.
    pub fn compile_function_call(&mut self, tree: &AbstractTree) -> (r: Result<Vec<String>, Error>)
        requires
            old(self).wf(),
            issued(old(self).state()) + tree_size(tree@) <= usize::MAX,
        ensures
            final(self).wf(),
            final(self).state() == lower_call(old(self).forms(), old(self).state(), tree@).0,
            ir_view(r) == lower_call(old(self).forms(), old(self).state(), tree@).1,
            final(self).forms() == old(self).forms(),
            final(self).preamble() == old(self).preamble(),
            final(self).abstract_tree == old(self).abstract_tree,
        decreases *tree, 1nat,
    {
        proof {
            lemma_node_view(tree);
        }
        match tree {
            AbstractTree::Node(ats, position) => {
                proof {
                    lemma_children_views(tree);
                }
                let ghost c = views_of(*ats);
                let length = ats.len();
                if length == 0 {
                    return err_position(*position, "node with zero items".to_string());
                }
                if length == 1 {
                    proof {
                        lemma_size_within(c, 0);
                        assert(decreases_to!(*tree => tree->Node_0));
                        assert(decreases_to!(tree->Node_0 => tree->Node_0@[0]));
                    }
                    return self.compile_inner(&ats[0]);
                }
                match &ats[0] {
                    AbstractTree::Node(_, p) => {
                        proof {
                            lemma_node_view(&ats[0]);
                        }
                        err_position(
                            *p,
                            "unimplemented: no support for calling closures yet implemented".to_string(),
                        )
                    },
                    AbstractTree::Token(TokenType::Symbol, function_name, _) => {
                        let ghost st = self.state();
                        let ghost forms = self.forms();
                        let ghost pre = self.preamble();
                        let ghost held = self.abstract_tree;
                        proof {
                            lemma_sizes_monotone(c, 0, c.len());
                            lemma_size_within(c, 0);
                            lemma_stored_unique(st.counters, RET@, 0);
                        }
                        let mut ir: Vec<String> = Vec::new();
                        let mut names: Vec<String> = Vec::new();
                        proof {
                            assert(lines_view(ir) =~= Seq::empty());
                            assert(lines_view(names) =~= argument_results(forms, st, c).take(0));
                        }
                        let mut i: usize = 1;
                        while i < length
                            invariant
                                1 <= i <= length,
                                length == ats@.len(),
                                c == views_of(*ats),
                                *tree is Node && tree->Node_0 == *ats,
                                forms == old(self).forms(),
                                st == old(self).state(),
                                pre == old(self).preamble(),
                                held == old(self).abstract_tree,
                                self.wf(),
                                self.forms() == forms,
                                self.preamble() == pre,
                                self.abstract_tree == held,
                                unique_keys(st.counters),
                                issued(st) + sizes(c, c.len()) < usize::MAX,
                                lower_range(forms, st, c, 1, i as nat) == (
                                    self.state(),
                                    Ok::<Seq<Seq<char>>, ErrorView>(lines_view(ir)),
                                ),
                                lines_view(names) == argument_results(forms, st, c).take(
                                    i - 1,
                                ),
                                lower_call(forms, st, tree@) == call_outcome(
                                    forms,
                                    st,
                                    c,
                                    function_name@,
                                ),
                            decreases length - i,
                        {
                            proof {
                                lemma_range_state(forms, st, c, 1, i as nat);
                                lemma_size_within(c, i as int);
                                lemma_sizes_monotone(c, (i + 1) as nat, c.len());
                                let v = tree->Node_0;
                                assert(decreases_to!(*tree => v));
                                assert(decreases_to!(v => v@[i as int]));
                            }
                            let r = self.compile_inner(&ats[i]);
                            match r {
                                Err(e) => {
                                    proof {
                                        assert(c[i as int] == ats@[i as int]@);
                                        assert(lower_range(forms, st, c, 1, (i + 1) as nat).1 is Err);
                                        lemma_range_failed(
                                            forms,
                                            st,
                                            c,
                                            1,
                                            (i + 1) as nat,
                                            c.len(),
                                        );
                                    }
                                    return Err(e);
                                },
                                Ok(mut a) => {
                                    let ghost before = lines_view(ir);
                                    let ghost more = lines_view(a);
                                    ir.append(&mut a);
                                    proof {
                                        assert(lines_view(ir) =~= before + more);
                                    }
                                },
                            }
                            let ghost named = lines_view(names);
                            let result = self.get_counter(RET);
                            proof {
                                assert(self.state() == lower_range(forms, st, c, 1, (i + 1) as nat).0);
                                assert(argument_results(forms, st, c)[i - 1] == result@);
                            }
                            names.push(result);
                            proof {
                                assert(lines_view(names) =~= named.push(result@));
                                assert(lines_view(names) =~= argument_results(forms, st, c).take(
                                    i as int,
                                ));
                            }
                            i += 1;
                        }
                        proof {
                            lemma_range_state(forms, st, c, 1, c.len());
                            assert(lines_view(names) =~= argument_results(forms, st, c));
                        }
                        let argument_names = generate_function_arguments(&names);
                        let counter = self.inc_counter(RET);
                        let mut line = "%".to_string();
                        line.append(counter.as_str());
                        line.append(" = call %object @");
                        line.append(function_name.as_str());
                        line.append(argument_names.as_str());
                        let ghost before = lines_view(ir);
                        ir.push(line);
                        proof {
                            assert(lines_view(ir) =~= before.push(line@));
                        }
                        Ok(ir)
                    },
                    AbstractTree::Token(token_type, data, p) => {
                        let mut d = joined(&"cannot call token ".to_string(), data.as_str());
                        d.append(" of type ");
                        match token_type {
                            TokenType::Flag => d.append("Flag"),
                            TokenType::Symbol => d.append("Symbol"),
                            TokenType::Int => d.append("Int"),
                        }
                        err_position(*p, d)
                    },
                }
            },
            AbstractTree::Token(..) => tree.err("compile_token not called on a token.".to_string()),
        }
    }

    /// Lowers a tree: a tree whose name is a registered special form goes to
    /// its handler, another node is a call, a token is a value.
    pub fn compile_inner(&mut self, tree: &AbstractTree) -> (r: Result<Vec<String>, Error>)
        requires
            old(self).wf(),
            issued(old(self).state()) + tree_size(tree@) <= usize::MAX,
        ensures
            final(self).wf(),
            final(self).state() == lower(old(self).forms(), old(self).state(), tree@).0,
            ir_view(r) == lower(old(self).forms(), old(self).state(), tree@).1,
            final(self).forms() == old(self).forms(),
            final(self).preamble() == old(self).preamble(),
            final(self).abstract_tree == old(self).abstract_tree,
        decreases *tree, 2nat,
    {
        if tree.has_name() {
            match self.find_form(tree.name().as_str()) {
                Some(i) => {
                    proof {
                        assert(has_key(self.forms(), tree@.name()));
                    }
                    match self.transformations[i].1 {
                        SpecialForm::Define => {
                            return crate::compiler::compile_define(self, tree);
                        },
                    }
                },
                None => {},
            }
        }
        if tree.is_node() {
            self.compile_function_call(tree)
        } else {
            self.compile_token(tree)
        }
    }

    /// Lowers the children of the tree given at construction in turn and puts the
    /// preamble before their lines.
    pub fn compile(&mut self) -> (r: Result<Vec<String>, Error>)
        requires
            old(self).wf(),
            old(self).abstract_tree matches Some(t) && t@ is Node && issued(old(self).state())
                + tree_size(t@) <= usize::MAX,
            old(self).preamble() is Some,
        ensures
            final(self).wf(),
            final(self).abstract_tree is None,
            ir_view(r) == (match lower_range(
                old(self).forms(),
                old(self).state(),
                old(self).abstract_tree->Some_0@.children(),
                0,
                old(self).abstract_tree->Some_0@.children().len(),
            ).1 {
                Ok(ir) => Ok(old(self).preamble()->Some_0 + ir),
                Err(e) => Err(e),
            }),
    {
        let abstract_tree = self.abstract_tree.take().unwrap();
        proof {
            lemma_children_views(&abstract_tree);
            lemma_sizes_monotone(abstract_tree@.children(), 0, abstract_tree@.children().len());
        }
        match &abstract_tree {
            AbstractTree::Node(ats, _) => {
                let r = self.compile_all(ats, 0);
                match r {
                    Ok(mut ir) => {
                        let mut global_ir = self.global_ir.take().unwrap();
                        let ghost a = lines_view(global_ir);
                        let ghost b = lines_view(ir);
                        global_ir.append(&mut ir);
                        proof {
                            assert(lines_view(global_ir) =~= a + b);
                        }
                        Ok(global_ir)
                    },
                    Err(e) => Err(e),
                }
            },
            AbstractTree::Token(..) => Ok(Vec::new()),
        }
    }
}

} // verus!