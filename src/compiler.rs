use vstd::prelude::*;
use crate::utils::{Error, ErrorView, error_at, ir_view, lines_view, unit_view, decimal_string};
use crate::abstract_tree::{
    AbstractTree, Tree, joined, lemma_node_view, views_of, lemma_children_views, matches_in,
    below_top_level, top_level_message, passes, returns_on,
};
use crate::backend::{
    LLVMBackend, SpecialForm, BackendState, RET, preamble_lines, define_check, define_shape,
    lower_define, lower_range, issued, tree_size, bind_locals, with_local, is_declared, removed,
    in_arg, store_line, parameter_list, header_line, alloca_line, ret_line, current_text,
    frame_view, parameters_named, parameters_allowed, local_name_allowed, lemma_range_state, lemma_size_within, lemma_bind_len,
    lemma_removed_unique,
};

verus! {

/// The name of the definition form.
pub const DEFINE: &'static str = "define";

/// The outcome of checking the `define` nodes of `m` in turn: the first error.
pub open spec fn first_failure(m: Seq<Tree>) -> Result<(), ErrorView>
    decreases m.len(),
{
    if m.len() == 0 {
        Ok(())
    } else {
        match define_check(m[0]) {
            Err(e) => Err(e),
            Ok(_) => first_failure(m.drop_first()),
        }
    }
}

/// The checks on a whole tree before it is lowered: every `define` node has a
/// name and a block, and none stands below the top level.
pub open spec fn validation(t: Tree) -> Result<(), ErrorView> {
    match first_failure(matches_in(t, DEFINE@)) {
        Err(e) => Err(e),
        Ok(_) => {
            let b = below_top_level(t, DEFINE@);
            if b.len() == 0 {
                Ok(())
            } else {
                Err(error_at(top_level_message(b[0].name()), b[0].position()))
            }
        },
    }
}

/// The registry of special forms that `compile` uses.
pub open spec fn standard_forms() -> Seq<(Seq<char>, SpecialForm)> {
    seq![(DEFINE@, SpecialForm::Define)]
}

/// What `compile` makes of a tree: the validation's error, or the preamble
/// followed by the lines of each top-level form in turn.
pub open spec fn compilation(t: Tree) -> Result<Seq<Seq<char>>, ErrorView> {
    match validation(t) {
        Err(e) => Err(e),
        Ok(_) => match lower_range(
            standard_forms(),
            BackendState { counters: Seq::empty(), locals: Seq::empty() },
            t.children(),
            0,
            t.children().len(),
        ).1 {
            Ok(ir) => Ok(preamble_lines() + ir),
            Err(e) => Err(e),
        },
    }
}

pub proof fn lemma_first_failure(m: Seq<Tree>, i: int)
    requires
        0 <= i < m.len(),
        define_check(m[i]) is Err,
        forall|j: int| 0 <= j < i ==> #[trigger] define_check(m[j]) is Ok,
    ensures
        first_failure(m) == define_check(m[i]),
    decreases m.len(),
{
    if i > 0 {
        assert(define_check(m[0]) is Ok);
        let rest = m.drop_first();
        assert forall|j: int| 0 <= j < i - 1 implies #[trigger] define_check(rest[j]) is Ok by {
            assert(rest[j] == m[j + 1]);
        }
        lemma_first_failure(rest, i - 1);
    }
}

pub proof fn lemma_no_failure(m: Seq<Tree>)
    requires
        forall|j: int| 0 <= j < m.len() ==> #[trigger] define_check(m[j]) is Ok,
    ensures
        first_failure(m) is Ok,
    decreases m.len(),
{
    if m.len() > 0 {
        let rest = m.drop_first();
        assert forall|j: int| 0 <= j < rest.len() implies #[trigger] define_check(rest[j]) is Ok by {
            assert(rest[j] == m[j + 1]);
        }
        lemma_no_failure(rest);
    }
}

/// If the first failure is none, no check fails.
pub proof fn lemma_first_failure_ok(m: Seq<Tree>)
    requires
        first_failure(m) is Ok,
    ensures
        forall|j: int| 0 <= j < m.len() ==> #[trigger] define_check(m[j]) is Ok,
    decreases m.len(),
{
    if m.len() > 0 {
        let rest = m.drop_first();
        lemma_first_failure_ok(rest);
        assert forall|j: int| 0 <= j < m.len() implies #[trigger] define_check(m[j]) is Ok by {
            if j > 0 {
                assert(m[j] == rest[j - 1]);
            }
        }
    }
}

/// Checks that a `define` node has a name and a block.
fn check_define(at: &AbstractTree) -> (r: Result<(), Error>)
    requires
        at@ is Node,
        at@.has_name(),
    ensures
        unit_view(r) == define_check(at@),
{
    proof {
        lemma_node_view(at);
    }
    match at.check_length(3) {
        Err(e) => Err(e),
        Ok(()) => at.check_argument_block(2),
    }
}

/// Whether the children between the first and the last of `bc` all have names.
fn parameters_have_names(bc: &Vec<AbstractTree>) -> (r: bool)
    requires
        bc@.len() >= 2,
    ensures
        r == parameters_named(views_of(*bc)),
{
    let n = bc.len();
    let mut k: usize = 1;
    while k < n - 1
        invariant
            1 <= k <= n - 1,
            n == bc@.len(),
            forall|m: int| 1 <= m < k ==> #[trigger] views_of(*bc)[m].has_name(),
        decreases n - 1 - k,
    {
        if !bc[k].has_name() {
            assert(views_of(*bc)[k as int] == bc@[k as int]@);
            return false;
        }
        k += 1;
    }
    true
}

/// Whether `p` is a prefix of `s`.
fn starts_with_text(s: &str, p: &str) -> (r: bool)
    ensures
        r == p@.is_prefix_of(s@),
{
    let n = p.unicode_len();
    if n > s.unicode_len() {
        return false;
    }
    let mut i: usize = 0;
    while i < n
        invariant
            n == p@.len(),
            n <= s@.len(),
            0 <= i <= n,
            forall|k: int| 0 <= k < i ==> p@[k] == s@[k],
        decreases n - i,
    {
        if p.get_char(i) != s.get_char(i) {
            assert(!(p@ =~= s@.subrange(0, n as int)));
            return false;
        }
        i += 1;
    }
    assert(p@ =~= s@.subrange(0, n as int));
    true
}

/// Whether a local variable may be named `s`.
fn allowed_local_name(s: &String) -> (r: bool)
    ensures
        r == local_name_allowed(s@),
{
    let n = s.as_str().unicode_len();
    let mut i: usize = 0;
    while i < n
        invariant
            n == s@.len(),
            0 <= i <= n,
            forall|k: int| 0 <= k < i ==> s@[k] != ' ',
        decreases n - i,
    {
        if s.as_str().get_char(i) == ' ' {
            assert(s@.contains(' '));
            return false;
        }
        i += 1;
    }
    !starts_with_text(s.as_str(), "ret.") && !starts_with_text(s.as_str(), "in_arg.")
}

/// Whether the parameters between the first and the last child of `bc`, all
/// named, have names that a local may have.
fn parameters_have_allowed_names(bc: &Vec<AbstractTree>) -> (r: bool)
    requires
        bc@.len() >= 2,
        parameters_named(views_of(*bc)),
    ensures
        r == parameters_allowed(views_of(*bc)),
{
    let n = bc.len();
    let mut k: usize = 1;
    while k < n - 1
        invariant
            1 <= k <= n - 1,
            n == bc@.len(),
            parameters_named(views_of(*bc)),
            forall|m: int| 1 <= m < k ==> local_name_allowed(#[trigger] views_of(*bc)[m].name()),
        decreases n - 1 - k,
    {
        assert(views_of(*bc)[k as int] == bc@[k as int]@);
        assert(views_of(*bc)[k as int].has_name());
        if !allowed_local_name(bc[k].name()) {
            return false;
        }
        k += 1;
    }
    true
}

/// Lowers `define name { parameters \n body }` to a function definition.
pub(crate) fn compile_define(backend: &mut LLVMBackend, tree: &AbstractTree) -> (r: Result<
    Vec<String>,
    Error,
>)
    requires
        old(backend).wf(),
        tree@.has_name(),
        issued(old(backend).state()) + tree_size(tree@) <= usize::MAX,
    ensures
        final(backend).wf(),
        final(backend).state() == lower_define(old(backend).forms(), old(backend).state(), tree@).0,
        ir_view(r) == lower_define(old(backend).forms(), old(backend).state(), tree@).1,
        final(backend).forms() == old(backend).forms(),
        final(backend).preamble() == old(backend).preamble(),
        final(backend).abstract_tree == old(backend).abstract_tree,
    decreases *tree, 1nat,
{
    proof {
        lemma_node_view(tree);
    }
    if !tree.is_node() {
        let mut d = joined(tree.name(), " takes ");
        d.append(decimal_string(2).as_str());
        d.append(" arguments");
        return tree.err(d);
    }
    match check_define(tree) {
        Err(e) => {
            return Err(e);
        },
        Ok(()) => {},
    }
    let arguments_to_define = tree.arguments();
    proof {
        lemma_children_views(tree);
    }
    let ghost c = views_of(*arguments_to_define);
    if !arguments_to_define[1].has_name() {
        let mut d = joined(tree.name(), " expects a name for its ");
        d.append(decimal_string(1).as_str());
        d.append("th argument");
        return tree.err(d);
    }
    let block = &arguments_to_define[2];
    proof {
        lemma_node_view(block);
        lemma_children_views(block);
    }
    let arguments_to_block = block.arguments();
    let ghost bc = views_of(*arguments_to_block);
    let n = arguments_to_block.len();
    if !parameters_have_names(arguments_to_block) {
        return block.err(
            "a block takes a list of arguments followed by a list of expressions".to_string(),
        );
    }
    assert(parameters_named(bc));
    if !parameters_have_allowed_names(arguments_to_block) {
        return block.err("a parameter cannot be named like a generated temporary".to_string());
    }
    let name = arguments_to_define[1].name();
    let ghost st = backend.state();
    let ghost forms = backend.forms();
    let ghost pre = backend.preamble();
    let ghost held = backend.abstract_tree;
    backend.start_stack();
    let ghost st0 = backend.state();
    proof {
        lemma_removed_unique(st.counters, RET@);
    }
    let np = n - 2;
    let mut function_definition = "define %object @".to_string();
    function_definition.append(name.as_str());
    function_definition.append("(");
    let mut argument_ir: Vec<String> = Vec::new();
    let mut i: usize = 0;
    proof {
        assert(lines_view(argument_ir) =~= Seq::new(
            0,
            |k: int| store_line(in_arg(k as nat), bc[k + 1].name()),
        ));
    }
    while i < np
        invariant
            0 <= i <= np,
            np == n - 2,
            n == bc.len(),
            bc == views_of(*arguments_to_block),
            parameters_named(bc),
            backend.wf(),
            backend.forms() == forms,
            backend.preamble() == pre,
            backend.abstract_tree == held,
            st0.locals.len() > 0,
            backend.state() == (BackendState { locals: bind_locals(st0.locals, bc, i as nat), ..st0 }),
            function_definition@ == "define %object @"@ + name@ + "("@ + parameter_list(i as nat),
            lines_view(argument_ir) == Seq::new(
                i as nat,
                |k: int| store_line(in_arg(k as nat), bc[k + 1].name()),
            ),
        decreases np - i,
    {
        proof {
            lemma_bind_len(st0.locals, bc, i as nat);
        }
        if i != 0 {
            function_definition.append(",");
        }
        function_definition.append("%object %in_arg.");
        function_definition.append(decimal_string(i).as_str());
        let argument = &arguments_to_block[i + 1];
        assert(argument@ == bc[i + 1]);
        let mut in_name = "in_arg.".to_string();
        in_name.append(decimal_string(i).as_str());
        let ghost locals = backend.state().locals;
        let mut lines = backend.set_var_ir(argument.name(), in_name);
        let ghost before = lines_view(argument_ir);
        let ghost more = lines_view(lines);
        argument_ir.append(&mut lines);
        backend.add_assignee(argument.name());
        proof {
            let nm = bc[i + 1].name();
            if !is_declared(locals, nm) {
                let once = with_local(locals, nm);
                assert(!locals.last().contains(nm)) by {
                    if locals.last().contains(nm) {
                        let j = choose|j: int| 0 <= j < locals.last().len() && locals.last()[j] == nm;
                        assert(locals[locals.len() - 1][j] == nm);
                    }
                }
                let grown = locals.last().push(nm);
                assert(once.last() == grown);
                assert(grown[grown.len() - 1] == nm);
                assert(once.last().contains(nm));
                assert(with_local(once, nm) =~= once);
            }
            assert(lines_view(argument_ir) =~= before + more);
            assert(lines_view(argument_ir) =~= Seq::new(
                (i + 1) as nat,
                |k: int| store_line(in_arg(k as nat), bc[k + 1].name()),
            ));
            assert(function_definition@ =~= "define %object @"@ + name@ + "("@ + parameter_list(
                (i + 1) as nat,
            ));
        }
        i += 1;
    }
    function_definition.append(") {");
    assert(function_definition@ =~= header_line(c[1].name(), np as nat));
    let last = &arguments_to_block[n - 1];
    proof {
        lemma_node_view(last);
        lemma_children_views(last);
        lemma_bind_len(st0.locals, bc, np as nat);
    }
    let statements = last.arguments();
    let ghost body = views_of(*statements);
    let ghost st1 = backend.state();
    proof {
        lemma_size_within(bc, n - 1);
        lemma_size_within(c, 2);
        let v = tree->Node_0;
        assert(decreases_to!(*tree => v));
        let b = v@[2];
        assert(decreases_to!(v => b));
        let w = b->Node_0;
        assert(decreases_to!(b => w));
        let l = w@[n - 1];
        assert(decreases_to!(w => l));
        assert(decreases_to!(l => l->Node_0));
    }
    let ir_result = backend.compile_all(statements, 0);
    let ghost st2 = backend.state();
    proof {
        lemma_range_state(forms, st1, body, 0, body.len());
    }
    let ir_result = match ir_result {
        Ok(mut ir) => {
            let mut ret = "ret %object %".to_string();
            ret.append(backend.get_counter(RET).as_str());
            let ghost before = lines_view(ir);
            ir.push(ret);
            ir.push("}".to_string());
            proof {
                assert(lines_view(ir) =~= before + seq![ret_line(current_text(st2.counters, RET@)), "}"@]);
            }
            Ok(ir)
        },
        Err(e) => Err(e),
    };
    let stack = backend.end_stack();
    let ghost hdr = header_line(c[1].name(), np as nat);
    let mut ir: Vec<String> = Vec::new();
    ir.push(function_definition);
    proof {
        assert(lines_view(ir) =~= seq![hdr] + Seq::new(
            0,
            |k: int| alloca_line(frame_view(stack)[k]),
        ));
    }
    let mut j: usize = 0;
    while j < stack.len()
        invariant
            0 <= j <= stack@.len(),
            lines_view(ir) == seq![hdr] + Seq::new(
                j as nat,
                |k: int| alloca_line(frame_view(stack)[k]),
            ),
        decreases stack.len() - j,
    {
        let mut line = "%".to_string();
        line.append(stack[j].name.as_str());
        line.append(" = alloca %object");
        let ghost before = lines_view(ir);
        ir.push(line);
        proof {
            assert(line@ == alloca_line(frame_view(stack)[j as int]));
            assert(lines_view(ir) =~= before.push(line@));
            assert(lines_view(ir) =~= seq![hdr] + Seq::new(
                (j + 1) as nat,
                |k: int| alloca_line(frame_view(stack)[k]),
            ));
        }
        j += 1;
    }
    match ir_result {
        Ok(mut r) => {
            let ghost a = lines_view(ir);
            let ghost b = lines_view(argument_ir);
            let ghost d = lines_view(r);
            ir.append(&mut argument_ir);
            ir.append(&mut r);
            proof {
                assert(lines_view(ir) =~= a + b + d);
                assert(Seq::new(
                    stack@.len() as nat,
                    |k: int| alloca_line(frame_view(stack)[k]),
                ) =~= Seq::new(st2.locals.last().len(), |k: int| alloca_line(st2.locals.last()[k])));
            }
            proof {
                assert(define_shape(tree@) is Ok);
                assert(c == tree@.children());
                assert(bc == c[2].children());
                assert(body == bc[bc.len() - 1].children());
                assert(st0 == (BackendState {
                    counters: removed(st.counters, RET@),
                    locals: st.locals.push(Seq::empty()),
                }));
                assert(st1 == (BackendState { locals: bind_locals(st0.locals, bc, np as nat), ..st0 }));
                assert(lines_view(ir) == lower_define(forms, st, tree@).1->Ok_0);
            }
            Ok(ir)
        },
        Err(e) => Err(e),
    }
}

/// A tree that passed validation passes each of its checks again: every
/// `define` node has a name and a block, and none stands below the top level.
pub proof fn lemma_revalidation(t: Tree)
    requires
        validation(t) is Ok,
    ensures
        forall|i: int|
            0 <= i < matches_in(t, DEFINE@).len() ==> #[trigger] define_check(
                matches_in(t, DEFINE@)[i],
            ) is Ok,
        below_top_level(t, DEFINE@).len() == 0,
        validation(t) == Ok::<(), ErrorView>(()),
{
    lemma_first_failure_ok(matches_in(t, DEFINE@));
}

/// Runs the checks on a tree before lowering: every `define` node is checked,
/// in pre-order, then `define` is held to the top level.
pub fn validate(at: &AbstractTree) -> (r: Result<(), Error>)
    ensures
        unit_view(r) == validation(at@),
{
    let checked = at.match_symbol(DEFINE, &check_define);
    let ghost m = matches_in(at@, DEFINE@);
    match checked {
        Err(e) => {
            proof {
                let i = choose|i: int|
                    0 <= i < m.len() && returns_on(&check_define, #[trigger] m[i], checked)
                        && forall|j: int| 0 <= j < i ==> passes(&check_define, #[trigger] m[j]);
                assert forall|j: int| 0 <= j < i implies #[trigger] define_check(m[j]) is Ok by {
                    assert(passes(&check_define, m[j]));
                }
                lemma_first_failure(m, i);
            }
            return Err(e);
        },
        Ok(()) => {
            proof {
                assert forall|j: int| 0 <= j < m.len() implies #[trigger] define_check(m[j]) is Ok by {
                    assert(passes(&check_define, m[j]));
                }
                lemma_no_failure(m);
            }
        },
    }
    at.assert_only_top_level(DEFINE)
}

/// Checks a tree, then lowers it with the `define` special form registered.
pub fn compile(at: AbstractTree) -> (r: Result<Vec<String>, Error>)
    requires
        at@ is Node,
        tree_size(at@) <= usize::MAX,
    ensures
        ir_view(r) == compilation(at@),
{
    match validate(&at) {
        Err(e) => {
            return Err(e);
        },
        Ok(()) => {},
    }
    let ghost t = at@;
    let backend = LLVMBackend::new(at);
    let mut backend = backend.handle(DEFINE.to_string(), SpecialForm::Define);
    proof {
        assert(backend.forms() =~= standard_forms());
    }
    backend.compile()
}

} // verus!
