use vstd::prelude::*;
use crate::utils::{Position, ErrorView, error_at, decimal, digit};
use crate::abstract_tree::{
    TokenType, Tree, exactly_message, expects_block_message, matches_in, matches_in_all,
    lemma_all_prefix, lemma_all_take_step, lemma_nested_prefix, lemma_nested_take_step,
};
use crate::backend::{
    define_check, define_shape, SpecialForm, BackendState, RET, counter_text, issued, lower,
    lower_call, lower_token, lower_range, lower_define, call_outcome, call_line, call_arguments,
    argument_results, bump, has_key, unique_keys, next_value, removed, with_local, bind_locals,
    is_declared, local_name_allowed, parameters_allowed, header_line, alloca_line, store_line,
    ret_line, current_text, in_arg, lemma_stored_unique, lemma_removed_unique, lemma_range_state,
    lemma_bind_len,
};
use crate::compiler::{DEFINE, validation, standard_forms, lemma_revalidation};
use crate::parser::{
    ParseState, ListKind, Reader, remaining, current, advanced, is_first, lookup, current_reader,
    initial_table, symbol_run, read_symbol, read_expression, read_list, list_run, top_lines,
    finished, parsing, read_block, block_head, block_tail, block_lines, block_symbol, list_rank,
};

verus! {

/// A character that separates expressions: a space or a newline.
pub open spec fn is_blank(c: char) -> bool {
    c == ' ' || c == '\n'
}

/// A character that can stand in a symbol: none of the trigger characters.
pub open spec fn is_plain(c: char) -> bool {
    !is_blank(c) && c != '(' && c != ')' && c != '{' && c != '}'
}

/// `line` is a node that holds just the symbol `word`.
pub open spec fn holds_symbol(line: Tree, word: Seq<char>) -> bool {
    &&& line is Node
    &&& line.children().len() == 1
    &&& line.children()[0] is Token
    &&& line.children()[0]->Token_0 == TokenType::Symbol
    &&& line.children()[0]->Token_1 == word
}

/// A state reading `s` with the table that `parse` starts with.
pub open spec fn reading(s: Seq<char>, st: ParseState) -> bool {
    st.chars == s && st.table == initial_table() && st.pos <= s.len()
}

/// The first newline of `s` at or after `i`, or the end of `s`.
pub open spec fn line_end(s: Seq<char>, i: nat) -> nat
    decreases s.len() - i,
{
    if i >= s.len() {
        s.len()
    } else if s[i as int] == '\n' {
        i
    } else {
        line_end(s, i + 1)
    }
}

proof fn lemma_line_end(s: Seq<char>, i: nat)
    requires
        i <= s.len(),
    ensures
        i <= line_end(s, i) <= s.len(),
        line_end(s, i) == s.len() || s[line_end(s, i) as int] == '\n',
        forall|k: int| i <= k < line_end(s, i) ==> s[k] != '\n',
    decreases s.len() - i,
{
    if i < s.len() && s[i as int] != '\n' {
        lemma_line_end(s, i + 1);
    }
}

proof fn lemma_table()
    ensures
        lookup(initial_table(), '\n') == Some(Reader::Newline),
        lookup(initial_table(), ' ') == Some(Reader::NoOp),
        forall|c: char| is_plain(c) ==> #[trigger] lookup(initial_table(), c) is None,
{
    let t = initial_table();
    assert(is_first(t, '\n', 0));
    assert(is_first(t, ' ', 1));
    assert forall|i: int| #[trigger] is_first(t, '\n', i) implies i == 0 by {}
    assert forall|i: int| #[trigger] is_first(t, ' ', i) implies i == 1 by {
        assert(t[0].0 != ' ');
    }
    assert forall|c: char| is_plain(c) implies #[trigger] lookup(t, c) is None by {
        assert(forall|i: int| 0 <= i < t.len() ==> t[i].0 != c);
    }
}

/// A top-level line of spaces up to a newline or to the end reads nothing more.
proof fn lemma_line_rest(s: Seq<char>, st: ParseState, e: nat, start: Position, acc: Seq<Tree>)
    requires
        reading(s, st),
        st.pos <= e <= s.len(),
        forall|k: int| st.pos <= k < e ==> s[k] == ' ',
        e == s.len() || s[e as int] == '\n',
    ensures
        list_run(st, ListKind::TopLevel, start, acc).1 == finished(acc, start),
        reading(s, list_run(st, ListKind::TopLevel, start, acc).0),
        list_run(st, ListKind::TopLevel, start, acc).0.pos == if e == s.len() {
            e
        } else {
            e + 1
        },
    decreases e - st.pos,
{
    lemma_table();
    if st.pos < e {
        assert(current(st) == Some(' '));
        assert(read_expression(st) == (advanced(st), Ok::<Option<Tree>, crate::utils::ErrorView>(None)));
        let st1 = advanced(st);
        if current(st1) is Some {
            lemma_line_rest(s, st1, e, start, acc);
        }
    } else if e == s.len() {
        assert(current(st) is None);
        assert(symbol_run(st, Seq::empty()) == (advanced(st), Seq::<char>::empty()));
        assert(read_expression(st).1 == Ok::<Option<Tree>, crate::utils::ErrorView>(None));
    } else {
        assert(current(st) == Some('\n'));
        assert(ListKind::TopLevel.closes("\n"@));
    }
}

/// Blank text to the end reads no more lines.
proof fn lemma_blank_tail(s: Seq<char>, st: ParseState, acc: Seq<Tree>)
    requires
        reading(s, st),
        forall|k: int| st.pos <= k < s.len() ==> is_blank(s[k]),
    ensures
        top_lines(st, acc).1 == Ok::<Seq<Tree>, crate::utils::ErrorView>(acc),
    decreases remaining(st),
{
    lemma_line_end(s, st.pos);
    let e = line_end(s, st.pos);
    lemma_line_rest(s, st, e, st.position, Seq::empty());
    assert(read_list(st, ListKind::TopLevel) == list_run(
        st,
        ListKind::TopLevel,
        st.position,
        Seq::empty(),
    ));
    let st2 = read_list(st, ListKind::TopLevel).0;
    if current(st2) is Some {
        lemma_blank_tail(s, st2, acc);
    }
}

/// Reading a run of plain characters collects them, and stops before a blank
/// or at the end.
proof fn lemma_symbol_run(s: Seq<char>, st: ParseState, m: nat, acc: Seq<char>)
    requires
        reading(s, st),
        st.pos + m <= s.len(),
        forall|k: int| st.pos <= k < st.pos + m ==> is_plain(s[k]),
        st.pos + m == s.len() || is_blank(s[st.pos + m as int]),
    ensures
        reading(s, symbol_run(st, acc).0),
        symbol_run(st, acc).0.pos == st.pos + m,
        symbol_run(st, acc).1 == acc + s.subrange(st.pos as int, (st.pos + m) as int),
    decreases m,
{
    lemma_table();
    if m == 0 {
        if st.pos < s.len() {
            assert(current_reader(st) is Some);
        }
        assert(s.subrange(st.pos as int, st.pos as int) =~= Seq::<char>::empty());
        assert(acc + Seq::<char>::empty() =~= acc);
    } else {
        let c = s[st.pos as int];
        assert(current(st) == Some(c));
        assert(lookup(initial_table(), c) is None);
        let st1 = advanced(st);
        lemma_symbol_run(s, st1, (m - 1) as nat, acc.push(c));
        assert(acc.push(c) + s.subrange(st1.pos as int, (st1.pos + m - 1) as int) =~= acc + s.subrange(
            st.pos as int,
            (st.pos + m) as int,
        ));
    }
}

/// A top-level line of spaces, then a symbol, then blank text to the end, reads
/// one node holding the symbol.
proof fn lemma_symbol_line(s: Seq<char>, st: ParseState, w: nat, m: nat, start: Position)
    requires
        reading(s, st),
        st.pos <= w,
        m > 0,
        w + m <= s.len(),
        forall|k: int| st.pos <= k < w ==> s[k] == ' ',
        forall|k: int| w <= k < w + m ==> is_plain(s[k]),
        forall|k: int| w + m <= k < s.len() ==> is_blank(s[k]),
    ensures
        list_run(st, ListKind::TopLevel, start, Seq::empty()).1 matches Ok(Some(line)) && holds_symbol(
            line,
            s.subrange(w as int, (w + m) as int),
        ) && line.position() == start && (st.pos == w ==> line.children()[0]->Token_2
            == st.position),
        reading(s, list_run(st, ListKind::TopLevel, start, Seq::empty()).0),
        list_run(st, ListKind::TopLevel, start, Seq::empty()).0.pos > st.pos,
        forall|k: int|
            list_run(st, ListKind::TopLevel, start, Seq::empty()).0.pos <= k < s.len() ==> is_blank(
                s[k],
            ),
    decreases w - st.pos,
{
    lemma_table();
    if st.pos < w {
        assert(current(st) == Some(' '));
        let st1 = advanced(st);
        assert(read_expression(st) == (st1, Ok::<Option<Tree>, crate::utils::ErrorView>(None)));
        lemma_symbol_line(s, st1, w, m, start);
    } else {
        let c = s[st.pos as int];
        assert(current(st) == Some(c));
        assert(lookup(initial_table(), c) is None);
        lemma_symbol_run(s, st, m, Seq::empty());
        let word = s.subrange(w as int, (w + m) as int);
        assert(Seq::<char>::empty() + word =~= word);
        let tok = Tree::Token(TokenType::Symbol, word, st.position);
        assert(read_symbol(st).1 == Ok::<Option<Tree>, crate::utils::ErrorView>(Some(tok)));
        let st1 = read_expression(st).0;
        assert(st1.pos == w + m);
        lemma_line_end(s, st1.pos);
        let e = line_end(s, st1.pos);
        assert forall|k: int| st1.pos <= k < e implies s[k] == ' ' by {
            assert(is_blank(s[k]));
        }
        lemma_line_rest(s, st1, e, start, seq![tok]);
        assert(Seq::<Tree>::empty().push(tok) =~= seq![tok]);
    }
}

/// Blank lines, then a line of spaces, a symbol and blank text to the end, read
/// as one line holding the symbol.
proof fn lemma_lead(s: Seq<char>, st: ParseState, w: nat, m: nat)
    requires
        reading(s, st),
        st.pos <= w,
        m > 0,
        w + m <= s.len(),
        forall|k: int| st.pos <= k < w ==> is_blank(s[k]),
        forall|k: int| w <= k < w + m ==> is_plain(s[k]),
        forall|k: int| w + m <= k < s.len() ==> is_blank(s[k]),
    ensures
        top_lines(st, Seq::empty()).1 matches Ok(lines) && lines.len() == 1 && holds_symbol(
            lines[0],
            s.subrange(w as int, (w + m) as int),
        ) && (st.pos == w ==> lines[0].position() == st.position && lines[0].children()[0]->Token_2
            == st.position),
    decreases w - st.pos,
{
    lemma_line_end(s, st.pos);
    let e = line_end(s, st.pos);
    assert(read_list(st, ListKind::TopLevel) == list_run(
        st,
        ListKind::TopLevel,
        st.position,
        Seq::empty(),
    ));
    if e < w {
        assert forall|k: int| st.pos <= k < e implies s[k] == ' ' by {
            assert(is_blank(s[k]));
        }
        lemma_line_rest(s, st, e, st.position, Seq::empty());
        let st2 = read_list(st, ListKind::TopLevel).0;
        assert(current(st2) is Some);
        lemma_lead(s, st2, w, m);
    } else {
        assert forall|k: int| st.pos <= k < w implies s[k] == ' ' by {
            assert(is_blank(s[k]));
        }
        lemma_symbol_line(s, st, w, m, st.position);
        let st2 = read_list(st, ListKind::TopLevel).0;
        let line = read_list(st, ListKind::TopLevel).1->Ok_0->Some_0;
        lemma_blank_tail(s, st2, seq![line]);
        assert(Seq::<Tree>::empty().push(line) =~= seq![line]);
    }
}

/// Whitespace around a single symbol parses to a root at `(0, 0)` holding one
/// line, which holds that symbol; without leading whitespace the line and the
/// symbol are at `(0, 0)` too.
pub proof fn lemma_single_symbol(lead: Seq<char>, word: Seq<char>, trail: Seq<char>)
    requires
        forall|i: int| 0 <= i < lead.len() ==> is_blank(#[trigger] lead[i]),
        forall|i: int| 0 <= i < trail.len() ==> is_blank(#[trigger] trail[i]),
        word.len() > 0,
        forall|i: int| 0 <= i < word.len() ==> is_plain(#[trigger] word[i]),
    ensures
        parsing(lead + word + trail) matches Ok(Some(root)) && root is Node && root.position()
            == Position(0, 0) && root.children().len() == 1 && holds_symbol(root.children()[0], word)
            && (lead.len() == 0 ==> root.children()[0].position() == Position(0, 0)
            && root.children()[0].children()[0]->Token_2 == Position(0, 0)),
{
    let s = lead + word + trail;
    let w = lead.len();
    let m = word.len();
    assert(s.subrange(w as int, (w + m) as int) =~= word);
    assert forall|k: int| 0 <= k < w implies is_blank(s[k]) by {
        assert(s[k] == lead[k]);
    }
    assert forall|k: int| w <= k < w + m implies is_plain(s[k]) by {
        assert(s[k] == word[k - w]);
    }
    assert forall|k: int| w + m <= k < s.len() implies is_blank(s[k]) by {
        assert(s[k] == trail[k - w - m]);
    }
    let st = ParseState {
        chars: s,
        pos: 0,
        position: Position(0, 0),
        last: None,
        table: initial_table(),
    };
    lemma_lead(s, st, w, m);
}

/// A `define` node without exactly a name and a block is rejected: for any
/// other number of children as taking two arguments, and for a last argument
/// that is not a node as not getting a block.
pub proof fn lemma_define_arity(t: Tree)
    requires
        t.headed_by(DEFINE@),
    ensures
        t.children().len() != 3 ==> define_check(t) == Err::<(), ErrorView>(
            error_at(exactly_message(DEFINE@, 2), t.position()),
        ),
        t.children().len() == 3 && t.children()[2] is Token ==> define_check(t) == Err::<
            (),
            ErrorView,
        >(error_at(expects_block_message(DEFINE@, 2), t.position())),
{
}

/// Where the name after position `i` of `line` ends: at the first space, or at the end.
pub open spec fn name_end(line: Seq<char>, i: nat) -> nat
    decreases line.len() - i,
{
    if i >= line.len() || line[i as int] == ' ' {
        i
    } else {
        name_end(line, i + 1)
    }
}

/// The name that a line of intermediate representation assigns: the text
/// after a leading `%` up to the first space.
pub open spec fn assigned(line: Seq<char>) -> Option<Seq<char>> {
    if line.len() > 0 && line[0] == '%' {
        Some(line.subrange(1, name_end(line, 1) as int))
    } else {
        None
    }
}

/// The names that the lines `ir` assign, in order.
pub open spec fn assigned_names(ir: Seq<Seq<char>>) -> Seq<Seq<char>>
    decreases ir.len(),
{
    if ir.len() == 0 {
        Seq::empty()
    } else {
        let a = assigned_names(ir.drop_last());
        match assigned(ir.last()) {
            Some(n) => a.push(n),
            None => a,
        }
    }
}

/// The result temporaries `ret.a` to `ret.(b - 1)`.
pub open spec fn temporaries(a: nat, b: nat) -> Seq<Seq<char>> {
    Seq::new((b - a) as nat, |k: int| counter_text(RET@, (a + k) as nat))
}

/// No node of `t` is headed by a registered special form.
pub open spec fn form_free(forms: Seq<(Seq<char>, SpecialForm)>, t: Tree) -> bool {
    forall|i: int| 0 <= i < forms.len() ==> #[trigger] matches_in(t, forms[i].0).len() == 0
}

proof fn lemma_name_end(line: Seq<char>, i: nat, j: nat)
    requires
        i <= j <= line.len(),
        forall|k: int| i <= k < j ==> line[k] != ' ',
        j == line.len() || line[j as int] == ' ',
    ensures
        name_end(line, i) == j,
    decreases j - i,
{
    if i < j {
        lemma_name_end(line, i + 1, j);
    }
}

proof fn lemma_assigned(x: Seq<char>, y: Seq<char>)
    requires
        !x.contains(' '),
        y.len() > 0,
        y[0] == ' ',
    ensures
        assigned("%"@ + x + y) == Some(x),
{
    reveal_strlit("%");
    let line = "%"@ + x + y;
    assert(line[0] == '%');
    assert forall|k: int| 1 <= k < 1 + x.len() implies line[k] != ' ' by {
        assert(line[k] == x[k - 1]);
        if x[k - 1] == ' ' {
            assert(x.contains(' '));
        }
    }
    assert(line[1 + x.len() as int] == y[0]);
    lemma_name_end(line, 1, (1 + x.len()) as nat);
    assert(line.subrange(1, 1 + x.len() as int) =~= x);
}

proof fn lemma_assigned_concat(a: Seq<Seq<char>>, b: Seq<Seq<char>>)
    ensures
        assigned_names(a + b) == assigned_names(a) + assigned_names(b),
    decreases b.len(),
{
    if b.len() == 0 {
        assert(a + b =~= a);
        assert(assigned_names(a) + assigned_names(b) =~= assigned_names(a));
    } else {
        lemma_assigned_concat(a, b.drop_last());
        assert((a + b).drop_last() =~= a + b.drop_last());
        assert((a + b).last() == b.last());
        match assigned(b.last()) {
            Some(n) => {
                assert(assigned_names(a) + assigned_names(b.drop_last()).push(n) =~= (
                assigned_names(a) + assigned_names(b.drop_last())).push(n));
            },
            None => {},
        }
    }
}

/// Lines that each assign the matching name of `names`.
proof fn lemma_assigned_each(lines: Seq<Seq<char>>, names: Seq<Seq<char>>)
    requires
        lines.len() == names.len(),
        forall|i: int| 0 <= i < lines.len() ==> assigned(#[trigger] lines[i]) == Some(names[i]),
    ensures
        assigned_names(lines) == names,
    decreases lines.len(),
{
    if lines.len() > 0 {
        lemma_assigned_each(lines.drop_last(), names.drop_last());
        assert(assigned(lines[lines.len() - 1]) == Some(names[names.len() - 1]));
        assert(names.drop_last().push(names.last()) =~= names);
    } else {
        assert(names =~= Seq::<Seq<char>>::empty());
    }
}

/// Lines that assign nothing.
proof fn lemma_assigned_none(lines: Seq<Seq<char>>)
    requires
        forall|i: int| 0 <= i < lines.len() ==> assigned(#[trigger] lines[i]) is None,
    ensures
        assigned_names(lines) == Seq::<Seq<char>>::empty(),
    decreases lines.len(),
{
    if lines.len() > 0 {
        lemma_assigned_none(lines.drop_last());
        assert(assigned(lines[lines.len() - 1]) is None);
    }
}

proof fn lemma_decimal(n: nat)
    ensures
        decimal(n).len() >= 1,
        !decimal(n).contains(' '),
    decreases n,
{
    if n >= 10 {
        lemma_decimal(n / 10);
        assert(digit(n % 10) != ' ');
        assert forall|k: int| 0 <= k < decimal(n).len() implies decimal(n)[k] != ' ' by {
            if k < decimal(n / 10).len() {
                assert(decimal(n)[k] == decimal(n / 10)[k]);
            }
        }
    } else {
        assert(decimal(n)[0] == digit(n));
    }
}

proof fn lemma_decimal_injective(a: nat, b: nat)
    requires
        decimal(a) == decimal(b),
    ensures
        a == b,
    decreases a,
{
    lemma_decimal(a);
    lemma_decimal(b);
    if a < 10 && b < 10 {
        assert(decimal(a) == seq![digit(a)]);
        assert(decimal(b) == seq![digit(b)]);
        assert(seq![digit(a)][0] == digit(a));
        assert(seq![digit(b)][0] == digit(b));
        assert(decimal(a)[0] == decimal(b)[0]);
        assert(digit(a) == digit(b));
    } else if a < 10 {
        lemma_decimal(b / 10);
    } else if b < 10 {
        lemma_decimal(a / 10);
    } else {
        assert(decimal(a) == decimal(a / 10).push(digit(a % 10)));
        assert(decimal(b) == decimal(b / 10).push(digit(b % 10)));
        assert(decimal(a).last() == digit(a % 10));
        assert(decimal(b).last() == digit(b % 10));
        assert(decimal(a).last() == decimal(b).last());
        assert(decimal(a).drop_last() =~= decimal(a / 10));
        assert(decimal(b).drop_last() =~= decimal(b / 10));
        assert(digit(a % 10) == digit(b % 10));
        assert(a % 10 == b % 10);
        lemma_decimal_injective(a / 10, b / 10);
        assert(a == 10 * (a / 10) + a % 10);
        assert(b == 10 * (b / 10) + b % 10);
    }
}

proof fn lemma_counter_text(v: nat)
    ensures
        !counter_text(RET@, v).contains(' '),
        "ret."@.is_prefix_of(counter_text(RET@, v)),
{
    reveal_strlit("ret");
    reveal_strlit(".");
    reveal_strlit("ret.");
    lemma_decimal(v);
    let t = counter_text(RET@, v);
    assert forall|k: int| 0 <= k < t.len() implies t[k] != ' ' by {
        if k >= 4 {
            assert(t[k] == decimal(v)[k - 4]);
        }
    }
    assert("ret."@ =~= t.subrange(0, 4));
}

proof fn lemma_counter_text_injective(a: nat, b: nat)
    requires
        counter_text(RET@, a) == counter_text(RET@, b),
    ensures
        a == b,
{
    reveal_strlit("ret");
    reveal_strlit(".");
    assert(decimal(a) =~= counter_text(RET@, a).subrange(4, counter_text(RET@, a).len() as int));
    assert(decimal(b) =~= counter_text(RET@, b).subrange(4, counter_text(RET@, b).len() as int));
    lemma_decimal_injective(a, b);
}

/// A node free of special forms has children free of them too.
proof fn lemma_form_free_child(forms: Seq<(Seq<char>, SpecialForm)>, t: Tree, k: int)
    requires
        form_free(forms, t),
        t is Node,
        0 <= k < t.children().len(),
    ensures
        form_free(forms, t.children()[k]),
{
    let c = t.children();
    assert forall|i: int| 0 <= i < forms.len() implies #[trigger] matches_in(
        c[k],
        forms[i].0,
    ).len() == 0 by {
        assert(matches_in(t, forms[i].0).len() == 0);
        lemma_all_take_step(c, forms[i].0, k);
        lemma_all_prefix(c, forms[i].0, k + 1);
    }
}

/// Lowering a tree free of special forms assigns the next result temporaries,
/// each once and in order, and leaves the frames alone.
pub proof fn lemma_lower_temporaries(
    forms: Seq<(Seq<char>, SpecialForm)>,
    st: BackendState,
    t: Tree,
)
    requires
        unique_keys(st.counters),
        form_free(forms, t),
    ensures
        lower(forms, st, t).1 is Ok ==> {
            &&& issued(st) <= issued(lower(forms, st, t).0)
            &&& assigned_names(lower(forms, st, t).1->Ok_0) == temporaries(
                issued(st),
                issued(lower(forms, st, t).0),
            )
            &&& lower(forms, st, t).0.locals == st.locals
        },
    decreases t, 2nat,
{
    if t.has_name() && has_key(forms, t.name()) {
        if t is Node {
            let i = choose|i: int| 0 <= i < forms.len() && forms[i].0 == t.name();
            assert(matches_in(t, forms[i].0).len() == 0);
            assert(t.headed_by(t.name()));
        }
    } else {
        match t {
            Tree::Node(..) => lemma_call_temporaries(forms, st, t),
            Tree::Token(..) => {
                let (st1, v) = bump(st, RET@);
                lemma_stored_unique(st.counters, RET@, v);
                lemma_counter_text(v);
                reveal_strlit(" = load %object, %object* %");
                reveal_strlit(" = call %object @");
                reveal_strlit(" =l ");
                let ct = counter_text(RET@, v);
                if lower_token(st, t).1 is Ok {
                    let line = lower_token(st, t).1->Ok_0[0];
                    match t {
                        Tree::Token(TokenType::Symbol, name, _) => {
                            if is_declared(st.locals, name) {
                                assert(line =~= "%"@ + ct + (" = load %object, %object* %"@
                                    + name));
                                lemma_assigned(ct, " = load %object, %object* %"@ + name);
                            } else {
                                assert(line =~= "%"@ + ct + (" = call %object @"@ + name
                                    + "()"@));
                                lemma_assigned(ct, " = call %object @"@ + name + "()"@);
                            }
                        },
                        Tree::Token(TokenType::Int, literal, _) => {
                            assert(line =~= "%"@ + ct + (" =l "@ + literal));
                            lemma_assigned(ct, " =l "@ + literal);
                        },
                        _ => {},
                    }
                    let ir = lower_token(st, t).1->Ok_0;
                    assert(ir.len() == 1);
                    assert(assigned(ir.last()) == Some(ct));
                    assert(ir.drop_last() =~= Seq::<Seq<char>>::empty());
                    assert(assigned_names(ir.drop_last()) == Seq::<Seq<char>>::empty());
                    assert(assigned_names(ir) == assigned_names(ir.drop_last()).push(ct));
                    assert(assigned_names(ir) =~= seq![ct]);
                    assert(lower(forms, st, t) == lower_token(st, t));
                    assert(lower_token(st, t).0 == st1);
                    assert(issued(st1) == v + 1);
                    assert(temporaries(v, v + 1) =~= seq![ct]);
                }
            },
        }
    }
}

proof fn lemma_call_temporaries(forms: Seq<(Seq<char>, SpecialForm)>, st: BackendState, t: Tree)
    requires
        unique_keys(st.counters),
        form_free(forms, t),
        t is Node,
    ensures
        lower_call(forms, st, t).1 is Ok ==> {
            &&& issued(st) <= issued(lower_call(forms, st, t).0)
            &&& assigned_names(lower_call(forms, st, t).1->Ok_0) == temporaries(
                issued(st),
                issued(lower_call(forms, st, t).0),
            )
            &&& lower_call(forms, st, t).0.locals == st.locals
        },
    decreases t, 1nat,
{
    let c = t.children();
    if c.len() == 1 {
        lemma_form_free_child(forms, t, 0);
        lemma_lower_temporaries(forms, st, c[0]);
    } else if c.len() > 1 {
        match c[0] {
            Tree::Token(k, data, q) => if k == TokenType::Symbol {
                assert forall|j: int| 1 <= j < c.len() implies form_free(forms, #[trigger] c[j]) by {
                    lemma_form_free_child(forms, t, j);
                }
                lemma_range_temporaries(forms, st, c, 1, c.len());
                lemma_range_state(forms, st, c, 1, c.len());
                let (st1, r) = lower_range(forms, st, c, 1, c.len());
                if r is Ok {
                    let ir = r->Ok_0;
                    let v = next_value(st1.counters, RET@);
                    lemma_stored_unique(st1.counters, RET@, v);
                    lemma_counter_text(v);
                    reveal_strlit(" = call %object @");
                    let ct = counter_text(RET@, v);
                    let args = call_arguments(argument_results(forms, st, c));
                    let line = call_line(v, data, args);
                    assert(line =~= "%"@ + ct + (" = call %object @"@ + data + args));
                    lemma_assigned(ct, " = call %object @"@ + data + args);
                    let out = call_outcome(forms, st, c, data).1->Ok_0;
                    assert(out == ir.push(line));
                    assert(out.drop_last() =~= ir);
                    assert(temporaries(issued(st), v).push(ct) =~= temporaries(issued(st), v + 1));
                }
            },
            _ => {},
        }
    }
}

pub proof fn lemma_range_temporaries(
    forms: Seq<(Seq<char>, SpecialForm)>,
    st: BackendState,
    c: Seq<Tree>,
    lo: nat,
    hi: nat,
)
    requires
        unique_keys(st.counters),
        lo <= hi <= c.len(),
        forall|j: int| lo <= j < hi ==> form_free(forms, #[trigger] c[j]),
    ensures
        lower_range(forms, st, c, lo, hi).1 is Ok ==> {
            &&& issued(st) <= issued(lower_range(forms, st, c, lo, hi).0)
            &&& assigned_names(lower_range(forms, st, c, lo, hi).1->Ok_0) == temporaries(
                issued(st),
                issued(lower_range(forms, st, c, lo, hi).0),
            )
            &&& lower_range(forms, st, c, lo, hi).0.locals == st.locals
        },
    decreases c, hi,
{
    if hi <= lo {
        assert(assigned_names(Seq::empty()) =~= temporaries(issued(st), issued(st)));
    } else {
        lemma_range_temporaries(forms, st, c, lo, (hi - 1) as nat);
        lemma_range_state(forms, st, c, lo, (hi - 1) as nat);
        let (st1, r1) = lower_range(forms, st, c, lo, (hi - 1) as nat);
        if r1 is Ok {
            lemma_lower_temporaries(forms, st1, c[hi - 1]);
            let (st2, r2) = lower(forms, st1, c[hi - 1]);
            if r2 is Ok {
                lemma_assigned_concat(r1->Ok_0, r2->Ok_0);
                assert(temporaries(issued(st), issued(st1)) + temporaries(issued(st1), issued(st2))
                    =~= temporaries(issued(st), issued(st2)));
            }
        }
    }
}

/// Binding allowed parameter names into an empty innermost frame gives a frame
/// of allowed names, each once.
proof fn lemma_bind_frame(locals: Seq<Seq<Seq<char>>>, bc: Seq<Tree>, k: nat)
    requires
        locals.len() > 0,
        locals.last() == Seq::<Seq<char>>::empty(),
        forall|j: int| 1 <= j <= k ==> local_name_allowed(#[trigger] bc[j].name()),
    ensures
        forall|i: int, j: int|
            0 <= i < j < bind_locals(locals, bc, k).last().len() ==> bind_locals(
                locals,
                bc,
                k,
            ).last()[i] != bind_locals(locals, bc, k).last()[j],
        forall|i: int|
            0 <= i < bind_locals(locals, bc, k).last().len() ==> local_name_allowed(
                #[trigger] bind_locals(locals, bc, k).last()[i],
            ),
    decreases k,
{
    if k > 0 {
        lemma_bind_frame(locals, bc, (k - 1) as nat);
        lemma_bind_len(locals, bc, (k - 1) as nat);
        let b = bind_locals(locals, bc, (k - 1) as nat);
        let n = bc[k as int].name();
        assert(local_name_allowed(n));
        let f = with_local(b, n).last();
        if b.last().contains(n) {
            assert(f == b.last());
        } else {
            assert(f == b.last().push(n));
            assert forall|i: int| 0 <= i < b.last().len() implies b.last()[i] != n by {
                if b.last()[i] == n {
                    assert(b.last().contains(n));
                }
            }
        }
    }
}

/// Within a function whose body holds no special form, every name that its
/// lines assign is assigned once: the slots of its locals, each declared once
/// and none named like a generated name, then the result temporaries
/// `ret.0`, `ret.1`, ... in order.
pub proof fn lemma_define_names_distinct(
    forms: Seq<(Seq<char>, SpecialForm)>,
    st: BackendState,
    t: Tree,
)
    requires
        unique_keys(st.counters),
        define_shape(t) is Ok,
        forall|j: int|
            0 <= j < t.children()[2].children().last().children().len() ==> form_free(
                forms,
                #[trigger] t.children()[2].children().last().children()[j],
            ),
    ensures
        lower_define(forms, st, t).1 matches Ok(ir) ==> forall|i: int, j: int|
            0 <= i < j < assigned_names(ir).len() ==> assigned_names(ir)[i]
                != assigned_names(ir)[j],
{
    match t {
        Tree::Node(c, _) => match c[2] {
            Tree::Node(bc, _) => match bc[bc.len() - 1] {
                Tree::Node(body, _) => {
                    let np = (bc.len() - 2) as nat;
                    let st0 = BackendState {
                        counters: removed(st.counters, RET@),
                        locals: st.locals.push(Seq::empty()),
                    };
                    lemma_removed_unique(st.counters, RET@);
                    let st1 = BackendState { locals: bind_locals(st0.locals, bc, np), ..st0 };
                    assert(issued(st1) == 0);
                    assert(t.children() == c);
                    assert(c[2].children() == bc);
                    assert(bc.last().children() == body);
                    lemma_range_temporaries(forms, st1, body, 0, body.len());
                    let (st2, r) = lower_range(forms, st1, body, 0, body.len());
                    if r is Ok {
                        let ir0 = r->Ok_0;
                        assert forall|j: int| 1 <= j <= np implies local_name_allowed(
                            #[trigger] bc[j].name(),
                        ) by {
                            assert(parameters_allowed(bc));
                        }
                        lemma_bind_frame(st0.locals, bc, np);
                        lemma_bind_len(st0.locals, bc, np);
                        let f = st2.locals.last();
                        assert(f == bind_locals(st0.locals, bc, np).last());
                        reveal_strlit("define %object @");
                        reveal_strlit(" = alloca %object");
                        reveal_strlit("store %object %");
                        reveal_strlit("ret %object %");
                        reveal_strlit("}");
                        let hdr = header_line(c[1].name(), np);
                        let a = seq![hdr];
                        let b = Seq::new(f.len(), |i: int| alloca_line(f[i]));
                        let d = Seq::new(np, |i: int| store_line(in_arg(i as nat), bc[i + 1].name()));
                        let e = seq![ret_line(current_text(st2.counters, RET@)), "}"@];
                        assert(hdr[0] == 'd');
                        lemma_assigned_none(a);
                        assert forall|i: int| 0 <= i < b.len() implies assigned(#[trigger] b[i])
                            == Some(f[i]) by {
                            assert(!f[i].contains(' '));
                            lemma_assigned(f[i], " = alloca %object"@);
                        }
                        lemma_assigned_each(b, f);
                        assert forall|i: int| 0 <= i < d.len() implies assigned(#[trigger] d[i])
                            is None by {
                            assert(d[i][0] == 's');
                        }
                        lemma_assigned_none(d);
                        assert(e[0][0] == 'r');
                        assert(e[1][0] == '}');
                        lemma_assigned_none(e);
                        let ir = lower_define(forms, st, t).1->Ok_0;
                        assert(ir == a + b + d + ir0 + e);
                        lemma_assigned_concat(a, b);
                        lemma_assigned_concat(a + b, d);
                        lemma_assigned_concat(a + b + d, ir0);
                        lemma_assigned_concat(a + b + d + ir0, e);
                        let m = issued(st2);
                        let names = assigned_names(ir);
                        assert(names =~= f + temporaries(0, m));
                        assert forall|i: int, j: int|
                            0 <= i < j < names.len() implies names[i] != names[j] by {
                            if j < f.len() {
                            } else if i >= f.len() {
                                if names[i] == names[j] {
                                    lemma_counter_text_injective(
                                        (i - f.len()) as nat,
                                        (j - f.len()) as nat,
                                    );
                                }
                            } else {
                                lemma_counter_text((j - f.len()) as nat);
                                assert(local_name_allowed(f[i]));
                            }
                        }
                    }
                },
                _ => {},
            },
            _ => {},
        },
        _ => {},
    }
}

/// No token of `t` is a flag.
pub open spec fn flag_free(t: Tree) -> bool
    decreases t, 1nat,
{
    match t {
        Tree::Token(k, _, _) => k != TokenType::Flag,
        Tree::Node(c, _) => flag_free_upto(c, c.len()),
    }
}

/// No token of `c[0]` to `c[n - 1]` is a flag.
pub open spec fn flag_free_upto(c: Seq<Tree>, n: nat) -> bool
    decreases c, n,
{
    if n == 0 || n > c.len() {
        true
    } else {
        flag_free_upto(c, (n - 1) as nat) && flag_free(c[n - 1])
    }
}

proof fn lemma_flag_free_upto(c: Seq<Tree>, n: nat)
    requires
        n <= c.len(),
    ensures
        flag_free_upto(c, n) <==> forall|i: int| 0 <= i < n ==> #[trigger] flag_free(c[i]),
    decreases n,
{
    if n > 0 {
        lemma_flag_free_upto(c, (n - 1) as nat);
        assert(flag_free_upto(c, n) == (flag_free_upto(c, (n - 1) as nat) && flag_free(
            c[n - 1],
        )));
        if forall|i: int| 0 <= i < n ==> #[trigger] flag_free(c[i]) {
            assert(flag_free(c[n - 1]));
            assert(forall|i: int| 0 <= i < n - 1 ==> #[trigger] flag_free(c[i]));
        }
        if flag_free_upto(c, n) {
            assert forall|i: int| 0 <= i < n implies #[trigger] flag_free(c[i]) by {
                if i < n - 1 {
                } else {
                    assert(i == n - 1);
                }
            }
        }
    }
}

/// Each tree of `ts` holds no flag.
pub open spec fn all_flag_free(ts: Seq<Tree>) -> bool {
    forall|i: int| 0 <= i < ts.len() ==> #[trigger] flag_free(ts[i])
}

proof fn lemma_node_free(c: Seq<Tree>, p: Position)
    requires
        all_flag_free(c),
    ensures
        flag_free(Tree::Node(c, p)),
        read_flag_free(finished(c, p)),
{
    lemma_flag_free_upto(c, c.len());
}

/// What a reader read, if anything, holds no flag.
pub open spec fn read_flag_free(r: Result<Option<Tree>, ErrorView>) -> bool {
    r matches Ok(Some(x)) ==> flag_free(x)
}

proof fn lemma_expression_flags(st: ParseState)
    ensures
        read_expression(st).1 matches Ok(Some(x)) ==> (x is Token && x->Token_0 == TokenType::Flag)
            || flag_free(x),
    decreases remaining(st), 2nat,
{
    match current_reader(st) {
        Some(Reader::OpenParen) => lemma_list_flags(st, ListKind::Paren),
        Some(Reader::OpenCurly) => lemma_block_flags(st),
        _ => {},
    }
}

proof fn lemma_list_flags(st: ParseState, k: ListKind)
    ensures
        read_flag_free(read_list(st, k).1),
    decreases remaining(st), list_rank(k),
{
    if k is Paren {
        let st1 = advanced(st);
        if remaining(st1) < remaining(st) {
            lemma_run_flags(st1, k, st.position, Seq::empty());
        }
    } else {
        lemma_run_flags(st, k, st.position, Seq::empty());
    }
}

proof fn lemma_run_flags(st: ParseState, k: ListKind, start: Position, acc: Seq<Tree>)
    requires
        all_flag_free(acc),
    ensures
        read_flag_free(list_run(st, k, start, acc).1),
    decreases remaining(st), 3nat,
{
    let sta = if k is Paren {
        ParseState { table: crate::parser::bound(st.table, '\n', Reader::NoOp), ..st }
    } else {
        st
    };
    lemma_expression_flags(sta);
    let (stb, r) = read_expression(sta);
    let stc = if k is Paren {
        ParseState { table: crate::parser::bound(stb.table, '\n', Reader::Newline), ..stb }
    } else {
        stb
    };
    lemma_node_free(acc, start);
    match r {
        Ok(Some(a)) => if !(a is Token && a->Token_0 == TokenType::Flag) {
            assert(all_flag_free(acc.push(a)));
            lemma_node_free(acc.push(a), start);
            if remaining(stc) < remaining(st) {
                lemma_run_flags(stc, k, start, acc.push(a));
            }
        },
        Ok(None) => if current(stc) is Some && remaining(stc) < remaining(st) {
            lemma_run_flags(stc, k, start, acc);
        },
        _ => {},
    }
}

proof fn lemma_block_flags(st: ParseState)
    ensures
        read_flag_free(read_block(st).1),
    decreases remaining(st), 1nat,
{
    let st1 = advanced(st);
    if remaining(st1) < remaining(st) {
        lemma_list_flags(st1, ListKind::BlockLine);
        let (st2, r) = read_list(st1, ListKind::BlockLine);
        if r is Ok && remaining(st2) < remaining(st) {
            lemma_head_flags(st2, st.position, r->Ok_0);
        }
    }
}

proof fn lemma_head_flags(st: ParseState, start: Position, e: Option<Tree>)
    requires
        e matches Some(x) ==> flag_free(x),
    ensures
        read_flag_free(block_head(st, start, e).1),
    decreases remaining(st), 7nat,
{
    match e {
        Some(x) => lemma_tail_flags(st, start, x),
        None => if current(st) is Some {
            if st.last == Some('\n') {
                lemma_tail_flags(st, start, Tree::Node(Seq::empty(), Position(0, 0)));
            } else {
                lemma_list_flags(st, ListKind::BlockLine);
                let (st2, r) = read_list(st, ListKind::BlockLine);
                if r is Ok && remaining(st2) < remaining(st) {
                    lemma_head_flags(st2, start, r->Ok_0);
                }
            }
        },
    }
}

proof fn lemma_tail_flags(st: ParseState, start: Position, e: Tree)
    requires
        flag_free(e),
    ensures
        read_flag_free(block_tail(st, start, e).1),
    decreases remaining(st), 6nat,
{
    if st.last == Some('\n') {
        lemma_lines_flags(st, start, st.position, Seq::empty());
        let (st2, r) = block_lines(st, start, st.position, Seq::empty());
        if r is Ok {
            let body = r->Ok_0;
            let c = seq![block_symbol()] + e.children() + seq![body];
            assert(flag_free(block_symbol()));
            assert forall|i: int| 0 <= i < e.children().len() implies #[trigger] flag_free(
                e.children()[i],
            ) by {
                match e {
                    Tree::Node(ch, _) => {
                        lemma_flag_free_upto(ch, ch.len());
                        assert(flag_free(ch[i]));
                    },
                    _ => {},
                }
            }
            assert forall|i: int| 0 <= i < c.len() implies #[trigger] flag_free(c[i]) by {
                if i == 0 {
                    assert(c[i] == block_symbol());
                } else if i < 1 + e.children().len() {
                    assert(c[i] == e.children()[i - 1]);
                } else {
                    assert(c[i] == body);
                }
            }
            lemma_node_free(c, e.position());
        }
    } else if st.last is Some {
        let c = seq![block_symbol(), e];
        assert(flag_free(block_symbol()));
        assert(flag_free(c[0]) && flag_free(c[1]));
        lemma_node_free(c, start);
    }
}

proof fn lemma_lines_flags(st: ParseState, start: Position, at: Position, acc: Seq<Tree>)
    requires
        all_flag_free(acc),
    ensures
        block_lines(st, start, at, acc).1 matches Ok(t) ==> flag_free(t),
    decreases remaining(st), 5nat,
{
    lemma_list_flags(st, ListKind::BlockLine);
    let (st2, r) = read_list(st, ListKind::BlockLine);
    if r is Ok {
        let acc2 = match r->Ok_0 {
            Some(a) => acc.push(a),
            None => acc,
        };
        assert(all_flag_free(acc2));
        lemma_node_free(acc2, at);
        if st2.last != Some('}') && current(st2) is Some && remaining(st2) < remaining(st) {
            lemma_lines_flags(st2, start, at, acc2);
        }
    }
}

proof fn lemma_top_flags(st: ParseState, acc: Seq<Tree>)
    requires
        all_flag_free(acc),
    ensures
        top_lines(st, acc).1 matches Ok(lines) ==> all_flag_free(lines),
    decreases remaining(st),
{
    lemma_list_flags(st, ListKind::TopLevel);
    let (st2, r) = read_list(st, ListKind::TopLevel);
    match r {
        Ok(Some(a)) => {
            assert(all_flag_free(acc.push(a)));
            if remaining(st2) < remaining(st) {
                lemma_top_flags(st2, acc.push(a));
            }
        },
        Ok(None) => if current(st2) is Some && remaining(st2) < remaining(st) {
            lemma_top_flags(st2, acc);
        },
        _ => {},
    }
}

/// A parsed tree holds no flag token: the delimiters that end lists and blocks
/// are consumed while parsing and never stand in the result.
pub proof fn lemma_parse_flag_free(s: Seq<char>)
    ensures
        parsing(s) matches Ok(Some(t)) ==> flag_free(t),
{
    if s.len() > 0 {
        let st = ParseState {
            chars: s,
            pos: 0,
            position: Position(0, 0),
            last: None,
            table: initial_table(),
        };
        lemma_top_flags(st, Seq::empty());
        if top_lines(st, Seq::empty()).1 is Ok {
            lemma_node_free(top_lines(st, Seq::empty()).1->Ok_0, Position(0, 0));
        }
    }
}

proof fn lemma_run_to(st: ParseState, e: nat, acc: Seq<char>)
    requires
        st.pos <= e <= st.chars.len(),
        forall|k: int| st.pos <= k < e ==> lookup(st.table, #[trigger] st.chars[k]) is None,
        e == st.chars.len() || lookup(st.table, st.chars[e as int]) is Some,
    ensures
        symbol_run(st, acc).0.pos == e,
        symbol_run(st, acc).1 == acc + st.chars.subrange(st.pos as int, e as int),
    decreases e - st.pos,
{
    if st.pos < e {
        lemma_run_to(advanced(st), e, acc.push(st.chars[st.pos as int]));
        assert(acc.push(st.chars[st.pos as int]) + st.chars.subrange(st.pos + 1 as int, e as int)
            =~= acc + st.chars.subrange(st.pos as int, e as int));
    } else {
        assert(acc + st.chars.subrange(st.pos as int, e as int) =~= acc);
    }
}

/// The default reader reads the longest run of characters that have no reader,
/// from the current one on, as a symbol at the current position; nothing if
/// the next character has a reader or the text has ended.
pub proof fn lemma_symbol_is_longest_run(st: ParseState, e: nat)
    requires
        st.pos <= e <= st.chars.len(),
        forall|k: int| st.pos <= k < e ==> lookup(st.table, #[trigger] st.chars[k]) is None,
        e == st.chars.len() || lookup(st.table, st.chars[e as int]) is Some,
    ensures
        read_symbol(st).0.pos == e,
        read_symbol(st).1 == if e == st.pos {
            Ok::<Option<Tree>, ErrorView>(None)
        } else {
            Ok(
                Some(
                    Tree::Token(
                        TokenType::Symbol,
                        st.chars.subrange(st.pos as int, e as int),
                        st.position,
                    ),
                ),
            )
        },
{
    lemma_run_to(st, e, Seq::empty());
    assert(Seq::<char>::empty() + st.chars.subrange(st.pos as int, e as int) =~= st.chars.subrange(
        st.pos as int,
        e as int,
    ));
}

/// In a tree that passed validation, the body of each top-level definition
/// holds no `define`.
pub proof fn lemma_valid_bodies_form_free(t: Tree, k: int)
    requires
        validation(t) is Ok,
        0 <= k < t.children().len(),
        define_shape(t.children()[k]) is Ok,
    ensures
        forall|j: int|
            0 <= j < t.children()[k].children()[2].children().last().children().len()
                ==> form_free(
                standard_forms(),
                #[trigger] t.children()[k].children()[2].children().last().children()[j],
            ),
{
    let forms = standard_forms();
    lemma_revalidation(t);
    let tc = t.children();
    let c = tc[k];
    lemma_nested_take_step(tc, DEFINE@, k);
    lemma_nested_prefix(tc, DEFINE@, k + 1);
    assert(matches_in_all(c.children(), DEFINE@).len() == 0);
    let cc = c.children();
    lemma_all_take_step(cc, DEFINE@, 2);
    lemma_all_prefix(cc, DEFINE@, 3);
    let block = cc[2];
    assert(matches_in(block, DEFINE@).len() == 0);
    assert(form_free(forms, block));
    let bc = block.children();
    lemma_form_free_child(forms, block, bc.len() - 1);
    let last = bc.last();
    assert forall|j: int| 0 <= j < last.children().len() implies form_free(
        forms,
        #[trigger] last.children()[j],
    ) by {
        lemma_form_free_child(forms, last, j);
    }
}

/// Within each function that `compile` lowers from a valid tree, every name
/// that the function's lines assign is assigned once.
pub proof fn lemma_compiled_names_distinct(st: BackendState, t: Tree, k: int)
    requires
        unique_keys(st.counters),
        validation(t) is Ok,
        0 <= k < t.children().len(),
    ensures
        lower_define(standard_forms(), st, t.children()[k]).1 matches Ok(ir) ==> forall|
            i: int,
            j: int,
        | 0 <= i < j < assigned_names(ir).len() ==> assigned_names(ir)[i] != assigned_names(
            ir,
        )[j],
{
    if define_shape(t.children()[k]) is Ok {
        lemma_valid_bodies_form_free(t, k);
        lemma_define_names_distinct(standard_forms(), st, t.children()[k]);
    }
}

} // verus!
