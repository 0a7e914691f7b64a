use vstd::prelude::*;
use crate::utils::{
    Position, Error, ErrorView, err_position, error_at, unit_view, decimal, decimal_string,
};

verus! {

/// The head symbol that the parser puts first in every block.
pub const BLOCK_IDENTIFIER: &'static str = "block";

/// What the first pass of parsing knows of a token.
///
/// `Flag` marks a delimiter while parsing and never stands in a finished tree.
#[derive(Debug, Clone, Copy, PartialEq, Eq, Structural)]
pub enum TokenType {
    Flag,
    Symbol,
    Int,
}

/// A tree of forms: a node holds sub-trees, a token holds its text.
/// Both carry the position at which they start.
#[derive(Debug, PartialEq, Eq)]
pub enum AbstractTree {
    Node(Vec<AbstractTree>, Position),
    Token(TokenType, String, Position),
}

/// An abstract tree as plain values.
pub ghost enum Tree {
    Node(Seq<Tree>, Position),
    Token(TokenType, Seq<char>, Position),
}

/// The plain-value form of a tree.
pub open spec fn tree_view(t: AbstractTree) -> Tree
    decreases t,
{
    match t {
        AbstractTree::Node(ats, p) => Tree::Node(
            Seq::new(
                ats@.len(),
                |i: int|
                    if 0 <= i < ats@.len() {
                        tree_view(ats@[i])
                    } else {
                        Tree::Node(Seq::empty(), p)
                    },
            ),
            p,
        ),
        AbstractTree::Token(k, s, p) => Tree::Token(k, s@, p),
    }
}

impl View for AbstractTree {
    type V = Tree;

    open spec fn view(&self) -> Tree {
        tree_view(*self)
    }
}

impl Tree {
    pub open spec fn position(self) -> Position {
        match self {
            Tree::Node(_, p) => p,
            Tree::Token(_, _, p) => p,
        }
    }

    /// The sub-trees of a node; a token has none.
    pub open spec fn children(self) -> Seq<Tree> {
        match self {
            Tree::Node(c, _) => c,
            Tree::Token(..) => Seq::empty(),
        }
    }

    pub open spec fn is_symbol(self, s: Seq<char>) -> bool {
        match self {
            Tree::Token(k, t, _) => k == TokenType::Symbol && t == s,
            Tree::Node(..) => false,
        }
    }

    pub open spec fn is_any_symbol(self) -> bool {
        match self {
            Tree::Token(k, _, _) => k == TokenType::Symbol,
            Tree::Node(..) => false,
        }
    }

    /// A token's text; meaningless for a node.
    pub open spec fn text(self) -> Seq<char> {
        match self {
            Tree::Token(_, t, _) => t,
            Tree::Node(..) => Seq::empty(),
        }
    }

    /// The name is defined for a token, and for a node whose first child is a symbol.
    pub open spec fn has_name(self) -> bool {
        match self {
            Tree::Node(c, _) => c.len() > 0 && c[0].is_any_symbol(),
            Tree::Token(..) => true,
        }
    }

    pub open spec fn name(self) -> Seq<char> {
        match self {
            Tree::Node(c, _) => c[0].text(),
            Tree::Token(_, t, _) => t,
        }
    }

    /// A node whose first child is the symbol `s`.
    pub open spec fn headed_by(self, s: Seq<char>) -> bool {
        self is Node && self.children().len() > 0 && self.children()[0].is_symbol(s)
    }
}

/// The view of a node lists the views of its children.
pub proof fn lemma_node_view(t: &AbstractTree)
    ensures
        t is Node ==> {
            &&& t@ is Node
            &&& t@.children().len() == t->Node_0@.len()
            &&& forall|i: int|
                0 <= i < t@.children().len() ==> #[trigger] t@.children()[i] == t->Node_0@[i]@
        },
        t@.position() == (match t {
            AbstractTree::Node(_, p) => *p,
            AbstractTree::Token(_, _, p) => *p,
        }),
{
    match t {
        AbstractTree::Node(ats, p) => {
            let c = t@.children();
            assert(c.len() == ats@.len());
            assert forall|i: int| 0 <= i < c.len() implies #[trigger] c[i] == ats@[i]@ by {}
        },
        AbstractTree::Token(..) => {},
    }
}

/// The views of the trees of `ats`.
pub open spec fn views_of(ats: Vec<AbstractTree>) -> Seq<Tree> {
    Seq::new(ats@.len(), |i: int| ats@[i]@)
}

/// A node's children, as plain values, are the views of its vector.
pub proof fn lemma_children_views(t: &AbstractTree)
    requires
        *t is Node,
    ensures
        t@.children() == views_of(t->Node_0),
{
    lemma_node_view(t);
    assert(t@.children() =~= views_of(t->Node_0));
}

/// The nodes headed by `s` in `t`, in pre-order: each node before its children.
pub open spec fn matches_in(t: Tree, s: Seq<char>) -> Seq<Tree>
    decreases t,
{
    match t {
        Tree::Node(c, _) => (if t.headed_by(s) {
            seq![t]
        } else {
            Seq::empty()
        }) + matches_in_all(c, s),
        Tree::Token(..) => Seq::empty(),
    }
}

/// The nodes headed by `s` in each tree of `ts` in turn.
pub open spec fn matches_in_all(ts: Seq<Tree>, s: Seq<char>) -> Seq<Tree>
    decreases ts,
{
    if ts.len() == 0 {
        Seq::empty()
    } else {
        matches_in_all(ts.drop_last(), s) + matches_in(ts.last(), s)
    }
}

/// The nodes headed by `s` that stand below the children of `t`, in pre-order.
pub open spec fn below_top_level(t: Tree, s: Seq<char>) -> Seq<Tree> {
    nested_matches(t.children(), s)
}

pub open spec fn nested_matches(ts: Seq<Tree>, s: Seq<char>) -> Seq<Tree>
    decreases ts.len(),
{
    if ts.len() == 0 {
        Seq::empty()
    } else {
        nested_matches(ts.drop_last(), s) + matches_in_all(ts.last().children(), s)
    }
}

pub proof fn lemma_all_take_step(c: Seq<Tree>, s: Seq<char>, i: int)
    requires
        0 <= i < c.len(),
    ensures
        matches_in_all(c.take(i + 1), s) == matches_in_all(c.take(i), s) + matches_in(c[i], s),
{
    assert(c.take(i + 1).drop_last() =~= c.take(i));
}

pub proof fn lemma_all_prefix(c: Seq<Tree>, s: Seq<char>, i: int)
    requires
        0 <= i <= c.len(),
    ensures
        matches_in_all(c.take(i), s).len() <= matches_in_all(c, s).len(),
        forall|k: int|
            0 <= k < matches_in_all(c.take(i), s).len() ==> matches_in_all(c.take(i), s)[k]
                == matches_in_all(c, s)[k],
    decreases c.len() - i,
{
    if i == c.len() {
        assert(c.take(i) =~= c);
    } else {
        lemma_all_prefix(c, s, i + 1);
        lemma_all_take_step(c, s, i);
    }
}

pub proof fn lemma_nested_take_step(c: Seq<Tree>, s: Seq<char>, i: int)
    requires
        0 <= i < c.len(),
    ensures
        nested_matches(c.take(i + 1), s) == nested_matches(c.take(i), s) + matches_in_all(
            c[i].children(),
            s,
        ),
{
    assert(c.take(i + 1).drop_last() =~= c.take(i));
}

pub proof fn lemma_nested_prefix(c: Seq<Tree>, s: Seq<char>, i: int)
    requires
        0 <= i <= c.len(),
    ensures
        nested_matches(c.take(i), s).len() <= nested_matches(c, s).len(),
        forall|k: int|
            0 <= k < nested_matches(c.take(i), s).len() ==> nested_matches(c.take(i), s)[k]
                == nested_matches(c, s)[k],
    decreases c.len() - i,
{
    if i == c.len() {
        assert(c.take(i) =~= c);
    } else {
        lemma_nested_prefix(c, s, i + 1);
        lemma_nested_take_step(c, s, i);
    }
}

/// `f`, called on some tree whose view is `v`, may return `Ok`.
pub open spec fn passes<F: Fn(&AbstractTree) -> Result<(), Error>>(f: &F, v: Tree) -> bool {
    exists|t: &AbstractTree, r: Result<(), Error>| t@ == v && r is Ok && #[trigger] f.ensures((t,), r)
}

/// `f`, called on some tree whose view is `v`, may return `r`.
pub open spec fn returns_on<F: Fn(&AbstractTree) -> Result<(), Error>>(
    f: &F,
    v: Tree,
    r: Result<(), Error>,
) -> bool {
    exists|t: &AbstractTree| t@ == v && #[trigger] f.ensures((t,), r)
}

pub open spec fn top_level_message(name: Seq<char>) -> Seq<char> {
    name + " was invoked without being on the top level"@
}

pub open spec fn at_least_message(name: Seq<char>, n: nat) -> Seq<char> {
    name + " takes at least "@ + decimal(n) + " arguments"@
}

pub open spec fn exactly_message(name: Seq<char>, n: nat) -> Seq<char> {
    name + " takes "@ + decimal(n) + " arguments"@
}

pub open spec fn expects_block_message(name: Seq<char>, n: nat) -> Seq<char> {
    name + " expects a block for its "@ + decimal(n) + "th argument"@
}

pub open spec fn block_shape_message() -> Seq<char> {
    "a block takes a list of arguments followed by a list of expressions"@
}

/// The outcome of `check_min_length(n)` on the node `t`.
pub open spec fn min_length_check(t: Tree, n: nat) -> Result<(), ErrorView> {
    if t.children().len() >= n {
        Ok(())
    } else {
        Err(error_at(at_least_message(t.name(), (n - 1) as nat), t.position()))
    }
}

/// The outcome of `check_length(n)` on the node `t`.
pub open spec fn length_check(t: Tree, n: nat) -> Result<(), ErrorView> {
    if t.children().len() == n {
        Ok(())
    } else {
        Err(error_at(exactly_message(t.name(), (n - 1) as nat), t.position()))
    }
}

/// The outcome of `check_argument_block(n)` on the node `t`: its child `n` must be a
/// node of at least two children that starts with the block symbol and ends with a node.
pub open spec fn argument_block_check(t: Tree, n: nat) -> Result<(), ErrorView> {
    let outer = Err(error_at(expects_block_message(t.name(), n), t.position()));
    let a = t.children()[n as int];
    match a {
        Tree::Token(..) => outer,
        Tree::Node(c, p) => if c.len() < 2 {
            if a.has_name() {
                Err(error_at(at_least_message(a.name(), 1), p))
            } else {
                outer
            }
        } else if !c[0].is_symbol(BLOCK_IDENTIFIER@) {
            outer
        } else if !(c.last() is Node) {
            Err(error_at(block_shape_message(), t.position()))
        } else {
            Ok(())
        },
    }
}

/// Whether `a` and `b` hold the same characters.
pub fn same_text(a: &str, b: &str) -> (r: bool)
    ensures
        r == (a@ == b@),
{
    let n = a.unicode_len();
    if n != b.unicode_len() {
        return false;
    }
    let mut i: usize = 0;
    while i < n
        invariant
            n == a@.len(),
            n == b@.len(),
            0 <= i <= n,
            a@.take(i as int) == b@.take(i as int),
        decreases n - i,
    {
        if a.get_char(i) != b.get_char(i) {
            return false;
        }
        assert(a@.take(i + 1) =~= a@.take(i as int).push(a@[i as int]));
        assert(b@.take(i + 1) =~= b@.take(i as int).push(b@[i as int]));
        i += 1;
    }
    assert(a@ =~= a@.take(n as int));
    assert(b@ =~= b@.take(n as int));
    true
}

/// `base` followed by `tail`.
pub(crate) fn joined(base: &String, tail: &str) -> (r: String)
    ensures
        r@ == base@ + tail@,
{
    let mut r = base.clone();
    r.append(tail);
    r
}

impl AbstractTree {
    /// Fails on the node it is given: a form there is not at the top level.
    fn fail_for_top_leval_call(a: &AbstractTree) -> (r: Result<(), Error>)
        requires
            a@.has_name(),
        ensures
            unit_view(r) == Err::<(), ErrorView>(
                error_at(top_level_message(a@.name()), a@.position()),
            ),
    {
        a.err(joined(a.name(), " was invoked without being on the top level"))
    }

    /// Whether this is a node whose first child is the symbol `s`.
    fn is_headed_by(&self, s: &str) -> (r: bool)
        ensures
            r == self@.headed_by(s@),
    {
        match self {
            AbstractTree::Node(ats, _) => {
                proof {
                    lemma_node_view(self);
                }
                if ats.len() == 0 {
                    false
                } else {
                    match &ats[0] {
                        AbstractTree::Token(TokenType::Symbol, a, _) => same_text(a.as_str(), s),
                        _ => false,
                    }
                }
            },
            AbstractTree::Token(..) => false,
        }
    }

    pub fn position(&self) -> (r: Position)
        ensures
            r == self@.position(),
    {
        match self {
            AbstractTree::Node(_, p) => *p,
            AbstractTree::Token(_, _, p) => *p,
        }
    }

    /// The `Err` that carries `description` at this tree's position.
    pub fn err<T>(&self, description: String) -> (r: Result<T, Error>)
        ensures
            r matches Err(e) && e@ == error_at(description@, self@.position()),
    {
        err_position(self.position(), description)
    }

    pub fn is_node(&self) -> (r: bool)
        ensures
            r == (self@ is Node),
    {
        match self {
            AbstractTree::Node(..) => true,
            AbstractTree::Token(..) => false,
        }
    }

    /// The name of a token is its text; that of a node is the text of its first
    /// child, which must be a symbol.
    pub fn name(&self) -> (r: &String)
        requires
            self@.has_name(),
        ensures
            r@ == self@.name(),
        decreases self,
    {
        match self {
            AbstractTree::Node(ats, _) => {
                proof {
                    lemma_node_view(self);
                }
                ats[0].name()
            },
            AbstractTree::Token(_, data, _) => data,
        }
    }

    /// Calls `f` on every node headed by `s`, each node before its children, and
    /// stops at the first error, which it returns.
    ///
    /// The visitor reads the node it is given; the checks of this library only
    /// inspect, and a shared borrow lets the contract speak of the nodes of the
    /// tree as it stands.
    pub fn match_symbol<F: Fn(&AbstractTree) -> Result<(), Error>>(&self, s: &str, f: &F) -> (r:
        Result<(), Error>)
        requires
            forall|t: &AbstractTree| t@.headed_by(s@) ==> f.requires((t,)),
        ensures
            r is Ok ==> forall|i: int|
                0 <= i < matches_in(self@, s@).len() ==> passes(
                    f,
                    #[trigger] matches_in(self@, s@)[i],
                ),
            r is Err ==> exists|i: int|
                0 <= i < matches_in(self@, s@).len() && returns_on(
                    f,
                    #[trigger] matches_in(self@, s@)[i],
                    r,
                ) && forall|j: int|
                    0 <= j < i ==> passes(f, #[trigger] matches_in(self@, s@)[j]),
        decreases self,
    {
        proof {
            lemma_node_view(self);
        }
        let ghost m = matches_in(self@, s@);
        let ghost head: Seq<Tree> = if self@.headed_by(s@) {
            seq![self@]
        } else {
            Seq::empty()
        };
        if self.is_headed_by(s) {
            let start = f(self);
            match start {
                Ok(()) => {
                    assert(passes(f, m[0]));
                },
                Err(_) => {
                    assert(m[0] == self@);
                    assert(returns_on(f, m[0], start));
                    return start;
                },
            }
        }
        match self {
            AbstractTree::Node(ats, _) => {
                let ghost c = self@.children();
                assert(m == head + matches_in_all(c, s@));
                let mut i: usize = 0;
                while i < ats.len()
                    invariant
                        0 <= i <= ats@.len(),
                        self is Node && self->Node_0 == *ats,
                        c.len() == ats@.len(),
                        forall|k: int| 0 <= k < c.len() ==> #[trigger] c[k] == ats@[k]@,
                        m == head + matches_in_all(c, s@),
                        m == matches_in(self@, s@),
                        forall|t: &AbstractTree| t@.headed_by(s@) ==> f.requires((t,)),
                        forall|k: int|
                            0 <= k < head.len() + matches_in_all(c.take(i as int), s@).len()
                                ==> passes(f, #[trigger] m[k]),
                    decreases ats.len() - i,
                {
                    proof {
                        let v = self->Node_0;
                        assert(decreases_to!(v => v[i as int]));
                        assert(decreases_to!(*self => v));
                    }
                    let r = ats[i].match_symbol(s, f);
                    proof {
                        lemma_all_take_step(c, s@, i as int);
                        lemma_all_prefix(c, s@, i + 1);
                        let pre = matches_in_all(c.take(i as int), s@);
                        let here = matches_in(c[i as int], s@);
                        let base = head.len() + pre.len();
                        assert forall|k: int| 0 <= k < here.len() implies m[base + k]
                            == #[trigger] here[k] by {
                            assert(matches_in_all(c.take(i + 1), s@)[pre.len() + k] == here[k]);
                        }
                        if r is Err {
                            let k = choose|k: int|
                                0 <= k < here.len() && returns_on(f, #[trigger] here[k], r)
                                    && forall|j: int|
                                    0 <= j < k ==> passes(f, #[trigger] here[j]);
                            assert(m[base + k] == here[k]);
                            assert(returns_on(f, m[base + k], r));
                            assert forall|j: int| 0 <= j < base + k implies passes(f, #[trigger] m[j]) by {
                                if j >= base {
                                    assert(m[j] == here[j - base]);
                                }
                            }
                            assert(0 <= base + k < m.len());
                        } else {
                            assert forall|j: int|
                                0 <= j < head.len() + matches_in_all(
                                    c.take(i + 1),
                                    s@,
                                ).len() implies passes(f, #[trigger] m[j]) by {
                                if j >= base {
                                    assert(m[j] == here[j - base]);
                                }
                            }
                        }
                    }
                    if r.is_err() {
                        return r;
                    }
                    i += 1;
                }
                proof {
                    assert(c.take(i as int) =~= c);
                }
                Ok(())
            },
            AbstractTree::Token(..) => Ok(()),
        }
    }

    /// Fails if a node headed by `s` stands deeper than a child of a child of
    /// this tree; the error names the first such node in pre-order.
    pub fn assert_only_top_level(&self, s: &str) -> (r: Result<(), Error>)
        ensures
            unit_view(r) == (if below_top_level(self@, s@).len() == 0 {
                Ok(())
            } else {
                Err(
                    error_at(
                        top_level_message(below_top_level(self@, s@)[0].name()),
                        below_top_level(self@, s@)[0].position(),
                    ),
                )
            }),
    {
        proof {
            lemma_node_view(self);
        }
        let fail = AbstractTree::fail_for_top_leval_call;
        match self {
            AbstractTree::Node(ats, _) => {
                let ghost c = self@.children();
                let mut i: usize = 0;
                while i < ats.len()
                    invariant
                        0 <= i <= ats@.len(),
                        self is Node && self->Node_0 == *ats,
                        c == self@.children(),
                        c.len() == ats@.len(),
                        forall|k: int| 0 <= k < c.len() ==> #[trigger] c[k] == ats@[k]@,
                        nested_matches(c.take(i as int), s@).len() == 0,
                    decreases ats.len() - i,
                {
                    proof {
                        lemma_nested_take_step(c, s@, i as int);
                        lemma_nested_prefix(c, s@, i + 1);
                        lemma_node_view(&ats[i as int]);
                    }
                    match &ats[i] {
                        AbstractTree::Node(gs, _) => {
                            let ghost g = c[i as int].children();
                            let mut j: usize = 0;
                            while j < gs.len()
                                invariant
                                    0 <= j <= gs@.len(),
                                    g.len() == gs@.len(),
                                    forall|k: int| 0 <= k < g.len() ==> #[trigger] g[k] == gs@[k]@,
                                    matches_in_all(g.take(j as int), s@).len() == 0,
                                    nested_matches(c.take(i + 1), s@) == nested_matches(
                                        c.take(i as int),
                                        s@,
                                    ) + matches_in_all(g, s@),
                                    nested_matches(c.take(i as int), s@).len() == 0,
                                    nested_matches(c.take(i + 1), s@).len() <= below_top_level(
                                        self@,
                                        s@,
                                    ).len(),
                                    forall|k: int|
                                        0 <= k < nested_matches(c.take(i + 1), s@).len()
                                            ==> nested_matches(c.take(i + 1), s@)[k]
                                            == below_top_level(self@, s@)[k],
                                decreases gs.len() - j,
                            {
                                let r = gs[j].match_symbol(s, &fail);
                                proof {
                                    lemma_all_take_step(g, s@, j as int);
                                    lemma_all_prefix(g, s@, j + 1);
                                    let here = matches_in(g[j as int], s@);
                                    if here.len() > 0 {
                                        assert(!passes(&fail, here[0]));
                                    }
                                    if r is Err {
                                        let k = choose|k: int|
                                            0 <= k < here.len() && returns_on(
                                                &fail,
                                                #[trigger] here[k],
                                                r,
                                            ) && forall|j: int|
                                                0 <= j < k ==> passes(&fail, #[trigger] here[j]);
                                        if k > 0 {
                                            assert(!passes(&fail, here[0]));
                                        }
                                        assert(matches_in_all(g.take(j + 1), s@)[0] == here[0]);
                                        assert(matches_in_all(g, s@)[0] == here[0]);
                                        assert(below_top_level(self@, s@)[0] == here[0]);
                                    }
                                }
                                if r.is_err() {
                                    return r;
                                }
                                j += 1;
                            }
                            proof {
                                assert(g.take(j as int) =~= g);
                            }
                        },
                        AbstractTree::Token(..) => {
                            assert(matches_in_all(c[i as int].children(), s@).len() == 0);
                        },
                    }
                    i += 1;
                }
                proof {
                    assert(c.take(i as int) =~= c);
                }
                Ok(())
            },
            AbstractTree::Token(..) => Ok(()),
        }
    }

    /// Fails unless this node has at least `i` children.
    pub fn check_min_length(&self, i: usize) -> (r: Result<(), Error>)
        requires
            self@ is Node,
            self@.children().len() < i ==> self@.has_name(),
        ensures
            unit_view(r) == min_length_check(self@, i as nat),
    {
        proof {
            lemma_node_view(self);
        }
        match self {
            AbstractTree::Node(ats, _) => {
                if ats.len() >= i {
                    Ok(())
                } else {
                    let mut d = joined(self.name(), " takes at least ");
                    d.append(decimal_string(i - 1).as_str());
                    d.append(" arguments");
                    self.err(d)
                }
            },
            AbstractTree::Token(..) => Ok(()),
        }
    }

    /// Fails unless this node has exactly `i` children.
    pub fn check_length(&self, i: usize) -> (r: Result<(), Error>)
        requires
            self@ is Node,
            self@.children().len() != i ==> self@.has_name() && i >= 1,
        ensures
            unit_view(r) == length_check(self@, i as nat),
    {
        proof {
            lemma_node_view(self);
        }
        match self {
            AbstractTree::Node(ats, _) => {
                if ats.len() == i {
                    Ok(())
                } else {
                    let mut d = joined(self.name(), " takes ");
                    d.append(decimal_string(i - 1).as_str());
                    d.append(" arguments");
                    self.err(d)
                }
            },
            AbstractTree::Token(..) => Ok(()),
        }
    }

    /// Fails unless child `argument_number` of this node is shaped as a block.
    pub fn check_argument_block(&self, argument_number: usize) -> (r: Result<(), Error>)
        requires
            self@.has_name(),
            self@ is Node,
            argument_number < self@.children().len(),
        ensures
            unit_view(r) == argument_block_check(self@, argument_number as nat),
    {
        proof {
            lemma_node_view(self);
        }
        let argument = self.argument(argument_number);
        proof {
            lemma_node_view(argument);
        }
        match argument {
            AbstractTree::Node(ats, _) => {
                if ats.len() < 2 {
                    if argument.has_name() {
                        argument.check_min_length(2)
                    } else {
                        self.expects_block(argument_number)
                    }
                } else if !ats[0].is_symbol(BLOCK_IDENTIFIER) {
                    self.expects_block(argument_number)
                } else if !ats[ats.len() - 1].is_node() {
                    self.err(
                        "a block takes a list of arguments followed by a list of expressions".to_string(),
                    )
                } else {
                    Ok(())
                }
            },
            AbstractTree::Token(..) => self.expects_block(argument_number),
        }
    }

    /// The error of a node whose child `n` is not a block.
    fn expects_block(&self, n: usize) -> (r: Result<(), Error>)
        requires
            self@.has_name(),
        ensures
            unit_view(r) == Err::<(), ErrorView>(
                error_at(expects_block_message(self@.name(), n as nat), self@.position()),
            ),
    {
        let mut d = joined(self.name(), " expects a block for its ");
        d.append(decimal_string(n).as_str());
        d.append("th argument");
        self.err(d)
    }

    /// Whether this is the symbol `s`.
    fn is_symbol(&self, s: &str) -> (r: bool)
        ensures
            r == self@.is_symbol(s@),
    {
        match self {
            AbstractTree::Token(TokenType::Symbol, a, _) => same_text(a.as_str(), s),
            _ => false,
        }
    }

    /// Whether the name of this tree is defined.
    pub fn has_name(&self) -> (r: bool)
        ensures
            r == self@.has_name(),
    {
        proof {
            lemma_node_view(self);
        }
        match self {
            AbstractTree::Node(ats, _) => ats.len() > 0 && match &ats[0] {
                AbstractTree::Token(TokenType::Symbol, _, _) => true,
                _ => false,
            },
            AbstractTree::Token(..) => true,
        }
    }

    /// Child `i` of this node.
    pub fn argument(&self, i: usize) -> (r: &AbstractTree)
        requires
            self is Node,
            i < self->Node_0@.len(),
        ensures
            *r == self->Node_0@[i as int],
    {
        &self.arguments()[i]
    }

    /// The children of this node.
    pub fn arguments(&self) -> (r: &Vec<AbstractTree>)
        requires
            self is Node,
        ensures
            *r == self->Node_0,
        decreases self,
    {
        match self {
            AbstractTree::Node(ats, _) => ats,
            AbstractTree::Token(..) => {
                proof {
                    assert(false);
                }
                self.arguments()
            },
        }
    }

    /// The children of this node, to change in place.
    pub fn arguments_mut(&mut self) -> (r: &mut Vec<AbstractTree>)
        requires
            *old(self) is Node,
        ensures
            *r == (*old(self))->Node_0,
            *final(self) == AbstractTree::Node(*final(r), (*old(self))->Node_1),
        decreases *old(self),
    {
        match self {
            AbstractTree::Node(ats, _) => ats,
            AbstractTree::Token(..) => {
                proof {
                    assert(false);
                }
                self.arguments_mut()
            },
        }
    }
}

} // verus!