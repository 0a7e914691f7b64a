use vstd::prelude::*;
use crate::utils::{Position, Error, ErrorView, err_position, error_at, decimal, decimal_string, push_char};
use crate::abstract_tree::{
    AbstractTree, TokenType, Tree, BLOCK_IDENTIFIER, joined, same_text, lemma_node_view, views_of,
    lemma_children_views,
};

verus! {

/// What the parser does on a trigger character.
#[derive(Debug, Clone, Copy, PartialEq, Eq, Structural)]
pub enum Reader {
    /// Skips the character.
    NoOp,
    /// Ends a line: a `\n` flag.
    Newline,
    /// A `)` flag.
    CloseParen,
    /// A parenthesised list of expressions.
    OpenParen,
    /// A `}` flag.
    CloseCurly,
    /// A block.
    OpenCurly,
}

/// The lists of expressions that the parser reads.
#[derive(Debug, Clone, Copy, PartialEq, Eq, Structural)]
pub enum ListKind {
    /// `( ... )`: skips its opening paren, reads across lines, ends at `)`.
    Paren,
    /// One line at the top level: ends at a newline or at the end of the text.
    TopLevel,
    /// One line of a block: ends at a newline, at `}`, or at the end of the text.
    BlockLine,
}

impl ListKind {
    pub open spec fn name(self) -> Seq<char> {
        match self {
            ListKind::Paren => "an open paren"@,
            ListKind::TopLevel => "top level expressions"@,
            ListKind::BlockLine => "expressions of a block"@,
        }
    }

    /// Whether the flag `s` ends this list.
    pub open spec fn closes(self, s: Seq<char>) -> bool {
        match self {
            ListKind::Paren => s == ")"@,
            ListKind::TopLevel => s == "\n"@,
            ListKind::BlockLine => s == "}"@ || s == "\n"@,
        }
    }
}

/// The parser's state as plain values: the text, the index of the next
/// character, its position, the last character read (`None` once a read found
/// the end), and the table of trigger characters.
pub ghost struct ParseState {
    pub chars: Seq<char>,
    pub pos: nat,
    pub position: Position,
    pub last: Option<char>,
    pub table: Seq<(char, Reader)>,
}

pub open spec fn remaining(st: ParseState) -> nat {
    if st.pos <= st.chars.len() {
        (st.chars.len() - st.pos) as nat
    } else {
        0
    }
}

/// The next character, if any.
pub open spec fn current(st: ParseState) -> Option<char> {
    if st.pos < st.chars.len() {
        Some(st.chars[st.pos as int])
    } else {
        None
    }
}

/// The state after reading one character; at the end only `last` changes.
pub open spec fn advanced(st: ParseState) -> ParseState {
    match current(st) {
        None => ParseState { last: None, ..st },
        Some(c) => if c == '\n' {
            ParseState {
                pos: st.pos + 1,
                position: Position((st.position.0 + 1) as i64, 0),
                last: Some(c),
                ..st
            }
        } else {
            ParseState {
                pos: st.pos + 1,
                position: Position(st.position.0, (st.position.1 + 1) as i64),
                last: Some(c),
                ..st
            }
        },
    }
}

/// `i` is the first entry of `t` for `c`.
pub open spec fn is_first(t: Seq<(char, Reader)>, c: char, i: int) -> bool {
    0 <= i < t.len() && t[i].0 == c && forall|j: int| 0 <= j < i ==> t[j].0 != c
}

/// The reader of `c` in the table `t`: its first entry for `c`.
pub open spec fn lookup(t: Seq<(char, Reader)>, c: char) -> Option<Reader> {
    if exists|i: int| is_first(t, c, i) {
        Some(t[choose|i: int| is_first(t, c, i)].1)
    } else {
        None
    }
}

/// The table `t` with `c` read by `r`.
pub open spec fn bound(t: Seq<(char, Reader)>, c: char, r: Reader) -> Seq<(char, Reader)> {
    if exists|i: int| is_first(t, c, i) {
        t.update(choose|i: int| is_first(t, c, i), (c, r))
    } else {
        t.push((c, r))
    }
}

pub proof fn lemma_first_unique(t: Seq<(char, Reader)>, c: char, i: int, j: int)
    requires
        is_first(t, c, i),
        is_first(t, c, j),
    ensures
        i == j,
{
}

/// The reader of the next character, if it has one.
pub open spec fn current_reader(st: ParseState) -> Option<Reader> {
    match current(st) {
        None => None,
        Some(c) => lookup(st.table, c),
    }
}

/// A parser's outcome, as plain values.
pub open spec fn parsed_view(r: Result<Option<AbstractTree>, Error>) -> Result<
    Option<Tree>,
    ErrorView,
> {
    match r {
        Ok(Some(t)) => Ok(Some(t@)),
        Ok(None) => Ok(None),
        Err(e) => Err(e@),
    }
}

/// The outcome of a reader: the state after, and what was read.
pub type Step = (ParseState, Result<Option<Tree>, ErrorView>);

/// The symbol that heads every block.
pub open spec fn block_symbol() -> Tree {
    Tree::Token(TokenType::Symbol, BLOCK_IDENTIFIER@, Position(0, 0))
}

/// A flag token `s` read by consuming one character.
pub open spec fn flag(st: ParseState, s: Seq<char>) -> Step {
    let st1 = advanced(st);
    (st1, Ok(Some(Tree::Token(TokenType::Flag, s, st1.position))))
}

/// Reads characters into `acc` until one with a reader is next or the text ends.
pub open spec fn symbol_run(st: ParseState, acc: Seq<char>) -> (ParseState, Seq<char>)
    decreases remaining(st),
{
    if current_reader(st) is Some {
        (st, acc)
    } else {
        match current(st) {
            Some(c) => if st.pos < st.chars.len() {
                symbol_run(advanced(st), acc.push(c))
            } else {
                (st, acc)
            },
            None => (advanced(st), acc),
        }
    }
}

/// The default reader: a symbol of the characters that have no reader.
pub open spec fn read_symbol(st: ParseState) -> Step {
    let (st1, cs) = symbol_run(st, Seq::empty());
    if cs.len() == 0 {
        (st1, Ok(None))
    } else {
        (st1, Ok(Some(Tree::Token(TokenType::Symbol, cs, st.position))))
    }
}

/// `Position(l, c)`, as its debug text.
pub open spec fn position_text(p: Position) -> Seq<char> {
    "Position("@ + decimal(p.0 as nat) + ", "@ + decimal(p.1 as nat) + ")"@
}

pub open spec fn flag_message(s: Seq<char>, p: Position, k: ListKind) -> Seq<char> {
    "encountered incorrect flag '"@ + s + "',at position "@ + position_text(p)
        + ", while reading "@ + k.name()
}

pub open spec fn end_message(what: Seq<char>) -> Seq<char> {
    "hit end of file while reading "@ + what
}

/// A list's result: nothing if it read nothing, else a node of what it read.
pub open spec fn finished(acc: Seq<Tree>, start: Position) -> Result<Option<Tree>, ErrorView> {
    if acc.len() == 0 {
        Ok(None)
    } else {
        Ok(Some(Tree::Node(acc, start)))
    }
}

/// Reads one expression with the reader of the next character, or as a symbol.
pub open spec fn read_expression(st: ParseState) -> Step
    decreases remaining(st), 2nat,
{
    match current_reader(st) {
        None => read_symbol(st),
        Some(Reader::NoOp) => (advanced(st), Ok(None)),
        Some(Reader::Newline) => flag(st, "\n"@),
        Some(Reader::CloseParen) => flag(st, ")"@),
        Some(Reader::CloseCurly) => flag(st, "}"@),
        Some(Reader::OpenParen) => read_list(st, ListKind::Paren),
        Some(Reader::OpenCurly) => read_block(st),
    }
}

pub open spec fn list_rank(k: ListKind) -> nat {
    if k is Paren {
        1
    } else {
        4
    }
}

/// Reads a list of kind `k` from its start.
pub open spec fn read_list(st: ParseState, k: ListKind) -> Step
    decreases remaining(st), list_rank(k),
{
    let start = st.position;
    if k is Paren {
        let st1 = advanced(st);
        if remaining(st1) < remaining(st) {
            list_run(st1, k, start, Seq::empty())
        } else {
            (st1, Err(error_at(end_message(k.name()), start)))
        }
    } else {
        list_run(st, k, start, Seq::empty())
    }
}

/// Reads the rest of a list of kind `k` that started at `start` and has read `acc`.
pub open spec fn list_run(st: ParseState, k: ListKind, start: Position, acc: Seq<Tree>) -> Step
    decreases remaining(st), 3nat,
{
    let sta = if k is Paren {
        ParseState { table: bound(st.table, '\n', Reader::NoOp), ..st }
    } else {
        st
    };
    let (stb, r) = read_expression(sta);
    let stc = if k is Paren {
        ParseState { table: bound(stb.table, '\n', Reader::Newline), ..stb }
    } else {
        stb
    };
    match r {
        Err(e) => (stc, Err(e)),
        Ok(Some(a)) => if a is Token && a->Token_0 == TokenType::Flag {
            if k.closes(a->Token_1) {
                (stc, finished(acc, start))
            } else {
                (stc, Err(error_at(flag_message(a->Token_1, a->Token_2, k), start)))
            }
        } else if remaining(stc) < remaining(st) {
            list_run(stc, k, start, acc.push(a))
        } else {
            (stc, finished(acc.push(a), start))
        },
        Ok(None) => if current(stc) is None {
            if k is Paren {
                (stc, Err(error_at(end_message(k.name()), start)))
            } else {
                (stc, finished(acc, start))
            }
        } else if remaining(stc) < remaining(st) {
            list_run(stc, k, start, acc)
        } else {
            (stc, finished(acc, start))
        },
    }
}

/// Reads a block from its `{`.
pub open spec fn read_block(st: ParseState) -> Step
    decreases remaining(st), 1nat,
{
    let start = st.position;
    let st1 = advanced(st);
    if remaining(st1) < remaining(st) {
        let (st2, r) = read_list(st1, ListKind::BlockLine);
        match r {
            Err(e) => (st2, Err(e)),
            Ok(e) => if remaining(st2) < remaining(st) {
                block_head(st2, start, e)
            } else {
                (st2, Err(error_at(end_message("a block"@), start)))
            },
        }
    } else {
        (st1, Err(error_at(end_message("a block"@), start)))
    }
}

/// Reads up to the first expression of a block, which ends either the line
/// of its arguments or, before `}`, the whole block.
pub open spec fn block_head(st: ParseState, start: Position, e: Option<Tree>) -> Step
    decreases remaining(st), 7nat,
{
    match e {
        Some(x) => block_tail(st, start, x),
        None => if current(st) is None {
            (st, Err(error_at(end_message("a block"@), start)))
        } else if st.last == Some('\n') {
            block_tail(st, start, Tree::Node(Seq::empty(), Position(0, 0)))
        } else {
            let (st2, r) = read_list(st, ListKind::BlockLine);
            match r {
                Err(x) => (st2, Err(x)),
                Ok(e2) => if remaining(st2) < remaining(st) {
                    block_head(st2, start, e2)
                } else {
                    (st2, Err(error_at(end_message("a block"@), start)))
                },
            }
        },
    }
}

/// Completes a block whose first expression `e` has been read.
pub open spec fn block_tail(st: ParseState, start: Position, e: Tree) -> Step
    decreases remaining(st), 6nat,
{
    if st.last is None {
        (st, Err(error_at(end_message("a block"@), start)))
    } else if st.last == Some('\n') {
        let (st2, r) = block_lines(st, start, st.position, Seq::empty());
        match r {
            Err(x) => (st2, Err(x)),
            Ok(body) => (
                st2,
                Ok(Some(Tree::Node(seq![block_symbol()] + e.children() + seq![body], e.position()))),
            ),
        }
    } else {
        (st, Ok(Some(Tree::Node(seq![block_symbol(), e], start))))
    }
}

/// Reads the lines of a block's body until one ends at `}`; `acc` holds the
/// lines read so far, and the body starts at `at`.
pub open spec fn block_lines(st: ParseState, start: Position, at: Position, acc: Seq<Tree>) -> (
    ParseState,
    Result<Tree, ErrorView>,
)
    decreases remaining(st), 5nat,
{
    let (st2, r) = read_list(st, ListKind::BlockLine);
    match r {
        Err(x) => (st2, Err(x)),
        Ok(line) => {
            let acc2 = match line {
                Some(a) => acc.push(a),
                None => acc,
            };
            if st2.last == Some('}') {
                (st2, Ok(Tree::Node(acc2, at)))
            } else if current(st2) is None {
                (st2, Err(error_at(end_message("a block"@), start)))
            } else if remaining(st2) < remaining(st) {
                block_lines(st2, start, at, acc2)
            } else {
                (st2, Err(error_at(end_message("a block"@), start)))
            }
        },
    }
}

/// Reads the top-level lines until the end of the text.
pub open spec fn top_lines(st: ParseState, acc: Seq<Tree>) -> (ParseState, Result<Seq<Tree>, ErrorView>)
    decreases remaining(st),
{
    let (st2, r) = read_list(st, ListKind::TopLevel);
    match r {
        Err(x) => (st2, Err(x)),
        Ok(Some(a)) => if remaining(st2) < remaining(st) {
            top_lines(st2, acc.push(a))
        } else {
            (st2, Ok(acc.push(a)))
        },
        Ok(None) => if current(st2) is None {
            (st2, Ok(acc))
        } else if remaining(st2) < remaining(st) {
            top_lines(st2, acc)
        } else {
            (st2, Ok(acc))
        },
    }
}

/// The table that `parse` starts with.
pub open spec fn initial_table() -> Seq<(char, Reader)> {
    seq![
        ('\n', Reader::Newline),
        (' ', Reader::NoOp),
        (')', Reader::CloseParen),
        ('(', Reader::OpenParen),
        ('}', Reader::CloseCurly),
        ('{', Reader::OpenCurly),
    ]
}

/// What `parse` makes of the text `s`: nothing for an empty text, else a root
/// node at `(0, 0)` of the lines read.
pub open spec fn parsing(s: Seq<char>) -> Result<Option<Tree>, ErrorView> {
    if s.len() == 0 {
        Ok(None)
    } else {
        let st = ParseState {
            chars: s,
            pos: 0,
            position: Position(0, 0),
            last: None,
            table: initial_table(),
        };
        match top_lines(st, Seq::empty()).1 {
            Err(e) => Err(e),
            Ok(lines) => Ok(Some(Tree::Node(lines, Position(0, 0)))),
        }
    }
}

/// `b` follows `a` in the same text, and is further along wherever `a` was not at the end.
pub open spec fn progressed(a: ParseState, b: ParseState) -> bool {
    &&& b.chars == a.chars
    &&& remaining(b) <= remaining(a)
    &&& current(a) is Some ==> remaining(b) < remaining(a)
}

/// The parser: a cursor over the characters of a text and a table from trigger
/// characters to readers; any other character is part of a symbol.
pub struct Parser {
    pub table: Vec<(char, Reader)>,
    pub chars: Vec<char>,
    pub pos: usize,
    pub position: Position,
    pub last_char: Option<char>,
}

impl View for Parser {
    type V = ParseState;

    open spec fn view(&self) -> ParseState {
        ParseState {
            chars: self.chars@,
            pos: self.pos as nat,
            position: self.position,
            last: self.last_char,
            table: self.table@,
        }
    }
}

impl Parser {
    /// The position stays within the text read so far.
    pub open spec fn wf(&self) -> bool {
        &&& self.pos <= self.chars@.len()
        &&& self.chars@.len() <= i64::MAX
        &&& 0 <= self.position.0 <= self.pos
        &&& 0 <= self.position.1 <= self.pos
    }

    /// A parser at the start of `string`, with no trigger characters yet.
    pub fn new(string: &str) -> (r: Parser)
        requires
            string@.len() <= i64::MAX,
        ensures
            r.wf(),
            r@ == (ParseState {
                chars: string@,
                pos: 0,
                position: Position(0, 0),
                last: None,
                table: Seq::empty(),
            }),
    {
        let n = string.unicode_len();
        let mut chars: Vec<char> = Vec::new();
        let mut i: usize = 0;
        while i < n
            invariant
                n == string@.len(),
                0 <= i <= n,
                chars@ == string@.take(i as int),
            decreases n - i,
        {
            chars.push(string.get_char(i));
            proof {
                assert(string@.take(i + 1) =~= string@.take(i as int).push(string@[i as int]));
            }
            i += 1;
        }
        proof {
            assert(string@.take(n as int) =~= string@);
        }
        Parser { table: Vec::new(), chars, pos: 0, position: Position(0, 0), last_char: None }
    }

    /// Reads one character and moves the position past it.
    pub fn advance_char(&mut self) -> (r: Option<char>)
        requires
            old(self).wf(),
        ensures
            final(self).wf(),
            final(self)@ == advanced(old(self)@),
            r == current(old(self)@),
    {
        let current_char = if self.pos < self.chars.len() {
            Some(self.chars[self.pos])
        } else {
            None
        };
        self.last_char = current_char;
        match current_char {
            Some(c) => {
                self.pos = self.pos + 1;
                if c == '\n' {
                    self.position = Position(self.position.0 + 1, 0);
                } else {
                    self.position = Position(self.position.0, self.position.1 + 1);
                }
            },
            None => {},
        }
        current_char
    }

    /// The next character, if any.
    pub fn current_char(&self) -> (r: Option<char>)
        ensures
            r == current(self@),
    {
        if self.pos < self.chars.len() {
            Some(self.chars[self.pos])
        } else {
            None
        }
    }

    pub fn at_eof(&self) -> (r: bool)
        ensures
            r == (current(self@) is None),
    {
        self.current_char().is_none()
    }

    /// Index of the first entry of the table for `c`.
    fn find_reader(&self, c: char) -> (r: Option<usize>)
        ensures
            r matches Some(i) ==> is_first(self@.table, c, i as int),
            r is None ==> !(exists|i: int| is_first(self@.table, c, i)),
    {
        let mut i: usize = 0;
        while i < self.table.len()
            invariant
                0 <= i <= self.table@.len(),
                forall|j: int| 0 <= j < i ==> self.table@[j].0 != c,
            decreases self.table.len() - i,
        {
            if self.table[i].0 == c {
                return Some(i);
            }
            i += 1;
        }
        None
    }

    /// Reads `key` with `f` from now on.
    pub fn read_as(self, key: char, f: Reader) -> (r: Parser)
        ensures
            r@ == (ParseState { table: bound(self@.table, key, f), ..self@ }),
            r.wf() == self.wf(),
    {
        let mut this = self;
        match this.find_reader(key) {
            Some(i) => {
                proof {
                    let k = choose|k: int| is_first(this@.table, key, k);
                    lemma_first_unique(this@.table, key, i as int, k);
                }
                this.table.set(i, (key, f));
            },
            None => {
                this.table.push((key, f));
            },
        }
        this
    }

    fn set_reader(&mut self, key: char, f: Reader)
        requires
            old(self).wf(),
        ensures
            final(self).wf(),
            final(self)@ == (ParseState { table: bound(old(self)@.table, key, f), ..old(self)@ }),
    {
        match self.find_reader(key) {
            Some(i) => {
                proof {
                    let k = choose|k: int| is_first(self@.table, key, k);
                    lemma_first_unique(self@.table, key, i as int, k);
                }
                self.table.set(i, (key, f));
            },
            None => {
                self.table.push((key, f));
            },
        }
    }

    /// The reader of the next character, if it has one.
    pub fn current_reader(&self) -> (r: Option<Reader>)
        ensures
            r == current_reader(self@),
    {
        match self.current_char() {
            None => None,
            Some(c) => match self.find_reader(c) {
                Some(i) => {
                    proof {
                        let k = choose|k: int| is_first(self@.table, c, k);
                        lemma_first_unique(self@.table, c, i as int, k);
                    }
                    Some(self.table[i].1)
                },
                None => None,
            },
        }
    }

    /// Newlines are skipped from now on.
    pub fn remove_newlines(&mut self)
        requires
            old(self).wf(),
        ensures
            final(self).wf(),
            final(self)@ == (ParseState {
                table: bound(old(self)@.table, '\n', Reader::NoOp),
                ..old(self)@
            }),
    {
        self.set_reader('\n', Reader::NoOp);
    }

    /// Newlines end lines again from now on.
    pub fn add_newlines(&mut self)
        requires
            old(self).wf(),
        ensures
            final(self).wf(),
            final(self)@ == (ParseState {
                table: bound(old(self)@.table, '\n', Reader::Newline),
                ..old(self)@
            }),
    {
        self.set_reader('\n', Reader::Newline);
    }
}

/// The symbol that heads every block.
fn node_token() -> (r: AbstractTree)
    ensures
        r@ == block_symbol(),
{
    AbstractTree::Token(TokenType::Symbol, BLOCK_IDENTIFIER.to_string(), Position(0, 0))
}

/// Nothing if `accumulator` is empty, else a node of it at `start`.
fn finish(accumulator: Vec<AbstractTree>, start: Position) -> (r: Result<Option<AbstractTree>, Error>)
    ensures
        parsed_view(r) == finished(views_of(accumulator), start),
        r matches Ok(Some(t)) ==> t is Node,
{
    if accumulator.len() == 0 {
        Ok(None)
    } else {
        let t = AbstractTree::Node(accumulator, start);
        proof {
            lemma_children_views(&t);
        }
        Ok(Some(t))
    }
}

/// Skips one character.
fn no_op(parser: &mut Parser) -> (r: Result<Option<AbstractTree>, Error>)
    requires
        old(parser).wf(),
    ensures
        final(parser).wf(),
        final(parser)@ == advanced(old(parser)@),
        parsed_view(r) == Ok::<Option<Tree>, ErrorView>(None),
{
    parser.advance_char();
    Ok(None)
}

/// Reads one character as the flag `text`.
fn read_flag(parser: &mut Parser, text: &str) -> (r: Result<Option<AbstractTree>, Error>)
    requires
        old(parser).wf(),
    ensures
        final(parser).wf(),
        final(parser)@ == flag(old(parser)@, text@).0,
        parsed_view(r) == flag(old(parser)@, text@).1,
        r matches Ok(Some(AbstractTree::Token(_, _, p))) ==> 0 <= p.0 <= final(parser).pos && 0
            <= p.1 <= final(parser).pos,
{
    parser.advance_char();
    Ok(Some(AbstractTree::Token(TokenType::Flag, text.to_string(), parser.position)))
}

fn close_paren(parser: &mut Parser) -> (r: Result<Option<AbstractTree>, Error>)
    requires
        old(parser).wf(),
    ensures
        final(parser).wf(),
        final(parser)@ == flag(old(parser)@, ")"@).0,
        parsed_view(r) == flag(old(parser)@, ")"@).1,
        r matches Ok(Some(AbstractTree::Token(_, _, p))) ==> 0 <= p.0 <= final(parser).pos && 0
            <= p.1 <= final(parser).pos,
{
    read_flag(parser, ")")
}

fn close_curly(parser: &mut Parser) -> (r: Result<Option<AbstractTree>, Error>)
    requires
        old(parser).wf(),
    ensures
        final(parser).wf(),
        final(parser)@ == flag(old(parser)@, "}"@).0,
        parsed_view(r) == flag(old(parser)@, "}"@).1,
        r matches Ok(Some(AbstractTree::Token(_, _, p))) ==> 0 <= p.0 <= final(parser).pos && 0
            <= p.1 <= final(parser).pos,
{
    read_flag(parser, "}")
}

fn newline(parser: &mut Parser) -> (r: Result<Option<AbstractTree>, Error>)
    requires
        old(parser).wf(),
    ensures
        final(parser).wf(),
        final(parser)@ == flag(old(parser)@, "\n"@).0,
        parsed_view(r) == flag(old(parser)@, "\n"@).1,
        r matches Ok(Some(AbstractTree::Token(_, _, p))) ==> 0 <= p.0 <= final(parser).pos && 0
            <= p.1 <= final(parser).pos,
{
    read_flag(parser, "\n")
}

impl Parser {
    /// Reads the characters up to the next one with a reader, or to the end,
    /// as a symbol; nothing if there are none.
    fn default_parse(parser: &mut Parser) -> (r: Result<Option<AbstractTree>, Error>)
        requires
            old(parser).wf(),
        ensures
            final(parser).wf(),
            final(parser)@ == read_symbol(old(parser)@).0,
            parsed_view(r) == read_symbol(old(parser)@).1,
            current_reader(old(parser)@) is None ==> progressed(old(parser)@, final(parser)@),
            current(old(parser)@) is None ==> parsed_view(r) == Ok::<Option<Tree>, ErrorView>(None),
            r matches Ok(Some(t)) ==> t is Token && t->Token_0 == TokenType::Symbol,
    {
        let ghost st0 = parser@;
        let mut chars = String::new();
        let mut n: usize = 0;
        let starting_position = parser.position;
        loop
            invariant
                st0 == old(parser)@,
                parser.wf(),
                parser@.chars == st0.chars,
                parser@.table == st0.table,
                starting_position == st0.position,
                remaining(parser@) <= remaining(st0),
                n == chars@.len(),
                n == remaining(st0) - remaining(parser@),
                n == 0 ==> parser@ == st0,
                symbol_run(st0, Seq::empty()) == symbol_run(parser@, chars@),
            decreases remaining(parser@),
        {
            match parser.current_reader() {
                Some(_) => {
                    let r = if n == 0 {
                        Ok(None)
                    } else {
                        Ok(Some(AbstractTree::Token(TokenType::Symbol, chars, starting_position)))
                    };
                    return r;
                },
                None => {
                    match parser.advance_char() {
                        Some(c) => {
                            push_char(&mut chars, c);
                            n = n + 1;
                        },
                        None => {
                            let r = if n == 0 {
                                Ok(None)
                            } else {
                                Ok(Some(AbstractTree::Token(TokenType::Symbol, chars, starting_position)))
                            };
                            return r;
                        },
                    }
                },
            }
        }
    }

    /// Reads one expression with the reader of the next character, or as a symbol.
    pub fn parse_expression(&mut self) -> (r: Result<Option<AbstractTree>, Error>)
        requires
            old(self).wf(),
        ensures
            final(self).wf(),
            final(self)@ == read_expression(old(self)@).0,
            parsed_view(r) == read_expression(old(self)@).1,
            progressed(old(self)@, final(self)@),
            current(old(self)@) is None ==> parsed_view(r) == Ok::<Option<Tree>, ErrorView>(None),
            r matches Ok(Some(AbstractTree::Token(k, _, p))) ==> k == TokenType::Symbol || (0
                <= p.0 <= final(self).pos && 0 <= p.1 <= final(self).pos),
        decreases remaining(old(self)@), 2nat,
    {
        match self.current_reader() {
            None => Parser::default_parse(self),
            Some(Reader::NoOp) => no_op(self),
            Some(Reader::Newline) => newline(self),
            Some(Reader::CloseParen) => close_paren(self),
            Some(Reader::CloseCurly) => close_curly(self),
            Some(Reader::OpenParen) => parse_list(self, ListKind::Paren),
            Some(Reader::OpenCurly) => open_curly(self),
        }
    }
}

/// Whether the flag `s` ends a list of kind `kind`.
fn list_closes(kind: ListKind, s: &String) -> (r: bool)
    ensures
        r == kind.closes(s@),
{
    match kind {
        ListKind::Paren => same_text(s.as_str(), ")"),
        ListKind::TopLevel => same_text(s.as_str(), "\n"),
        ListKind::BlockLine => same_text(s.as_str(), "}") || same_text(s.as_str(), "\n"),
    }
}

fn list_name(kind: ListKind) -> (r: String)
    ensures
        r@ == kind.name(),
{
    match kind {
        ListKind::Paren => "an open paren".to_string(),
        ListKind::TopLevel => "top level expressions".to_string(),
        ListKind::BlockLine => "expressions of a block".to_string(),
    }
}

/// The error of a list that meets a flag `s` at `p` that does not end it.
fn flag_error(s: &String, p: Position, kind: ListKind, start: Position) -> (r: Result<
    Option<AbstractTree>,
    Error,
>)
    requires
        0 <= p.0 <= usize::MAX,
        0 <= p.1 <= usize::MAX,
    ensures
        parsed_view(r) == Err::<Option<Tree>, ErrorView>(
            error_at(flag_message(s@, p, kind), start),
        ),
{
    let mut d = "encountered incorrect flag '".to_string();
    d.append(s.as_str());
    d.append("',at position ");
    d.append("Position(");
    d.append(decimal_string(p.0 as usize).as_str());
    d.append(", ");
    d.append(decimal_string(p.1 as usize).as_str());
    d.append(")");
    d.append(", while reading ");
    d.append(list_name(kind).as_str());
    proof {
        assert((p.0 as usize) as nat == p.0 as nat);
        assert((p.1 as usize) as nat == p.1 as nat);
        assert(d@ =~= flag_message(s@, p, kind));
    }
    err_position(start, d)
}

/// The error of a construct that started at `start` and met the end of the text.
fn end_error(what: &str, start: Position) -> (r: Result<Option<AbstractTree>, Error>)
    ensures
        parsed_view(r) == Err::<Option<Tree>, ErrorView>(error_at(end_message(what@), start)),
{
    err_position(start, joined(&"hit end of file while reading ".to_string(), what))
}

/// Reads a list of kind `kind`: its expressions up to the flag that ends it.
fn parse_list(parser: &mut Parser, kind: ListKind) -> (r: Result<Option<AbstractTree>, Error>)
    requires
        old(parser).wf(),
        kind is Paren ==> current(old(parser)@) is Some,
    ensures
        final(parser).wf(),
        final(parser)@ == read_list(old(parser)@, kind).0,
        parsed_view(r) == read_list(old(parser)@, kind).1,
        progressed(old(parser)@, final(parser)@),
        current(old(parser)@) is None ==> parsed_view(r) == Ok::<Option<Tree>, ErrorView>(None),
        r matches Ok(Some(t)) ==> t is Node,
    decreases remaining(old(parser)@), list_rank(kind),
{
    let ghost st0 = parser@;
    let starting_position = parser.position;
    let ignore_newlines = match kind {
        ListKind::Paren => true,
        _ => false,
    };
    if ignore_newlines {
        parser.advance_char();
    }
    let mut accumulator: Vec<AbstractTree> = Vec::new();
    proof {
        assert(views_of(accumulator) =~= Seq::empty());
    }
    loop
        invariant
            st0 == old(parser)@,
            ignore_newlines == (kind is Paren),
            parser.wf(),
            parser@.chars == st0.chars,
            remaining(parser@) <= remaining(st0),
            kind is Paren ==> remaining(parser@) < remaining(st0),
            starting_position == st0.position,
            read_list(st0, kind) == list_run(parser@, kind, starting_position, views_of(accumulator)),
            current(st0) is None ==> accumulator@.len() == 0 && current(parser@) is None,
        decreases remaining(parser@),
    {
        let ghost st = parser@;
        if ignore_newlines {
            parser.remove_newlines();
        }
        let expression = parser.parse_expression();
        if ignore_newlines {
            parser.add_newlines();
        }
        match expression {
            Err(e) => {
                return Err(e);
            },
            Ok(Some(AbstractTree::Token(TokenType::Flag, s, p))) => {
                if list_closes(kind, &s) {
                    return finish(accumulator, starting_position);
                }
                return flag_error(&s, p, kind, starting_position);
            },
            Ok(Some(a)) => {
                let ghost before = views_of(accumulator);
                accumulator.push(a);
                proof {
                    assert(views_of(accumulator) =~= before.push(a@));
                }
            },
            Ok(None) => {
                if parser.at_eof() {
                    if ignore_newlines {
                        return end_error("an open paren", starting_position);
                    }
                    return finish(accumulator, starting_position);
                }
            },
        }
    }
}

/// Reads a block from its `{`. If its first expression ends with a newline,
/// it is the list of arguments and the lines after it up to `}` are the body;
/// if it ends with `}`, it is the whole body.
fn open_curly(parser: &mut Parser) -> (r: Result<Option<AbstractTree>, Error>)
    requires
        old(parser).wf(),
        current(old(parser)@) is Some,
    ensures
        final(parser).wf(),
        final(parser)@ == read_block(old(parser)@).0,
        parsed_view(r) == read_block(old(parser)@).1,
        progressed(old(parser)@, final(parser)@),
        r matches Ok(Some(t)) ==> t is Node,
    decreases remaining(old(parser)@), 1nat,
{
    let ghost st0 = parser@;
    let starting_position = parser.position;
    parser.advance_char();
    let first = parse_list(parser, ListKind::BlockLine);
    let mut expression = match first {
        Err(e) => {
            return Err(e);
        },
        Ok(x) => x,
    };
    while expression.is_none()
        invariant
            st0 == old(parser)@,
            parser.wf(),
            parser@.chars == st0.chars,
            remaining(parser@) < remaining(st0),
            starting_position == st0.position,
            read_block(st0) == block_head(
                parser@,
                starting_position,
                match expression {
                    Some(t) => Some(t@),
                    None => None,
                },
            ),
            expression matches Some(t) ==> t is Node,
        decreases 2 * remaining(parser@) + if expression is None {
            1nat
        } else {
            0nat
        },
    {
        if parser.at_eof() {
            return end_error("a block", starting_position);
        }
        if parser.last_char == Some('\n') {
            let t = AbstractTree::Node(Vec::new(), Position(0, 0));
            proof {
                lemma_node_view(&t);
                lemma_children_views(&t);
                assert(t@.children() =~= Seq::<Tree>::empty());
                assert(t@ == Tree::Node(Seq::empty(), Position(0, 0)));
            }
            expression = Some(t);
        } else {
            let next = parse_list(parser, ListKind::BlockLine);
            match next {
                Err(e) => {
                    return Err(e);
                },
                Ok(x) => {
                    expression = x;
                },
            }
        }
    }
    let e = expression.unwrap();
    proof {
        assert(block_head(parser@, starting_position, Some(e@)) == block_tail(
            parser@,
            starting_position,
            e@,
        ));
    }
    match parser.last_char {
        None => end_error("a block", starting_position),
        Some(c) => {
            if c == '\n' {
                let position = e.position();
                proof {
                    lemma_children_views(&e);
                }
                let mut arguments = match e {
                    AbstractTree::Node(v, _) => v,
                    AbstractTree::Token(..) => Vec::new(),
                };
                let ghost args = views_of(arguments);
                arguments.insert(0, node_token());
                proof {
                    assert(views_of(arguments) =~= seq![block_symbol()] + args);
                }
                let block = match complete_parse_block(parser, starting_position) {
                    Err(x) => {
                        return Err(x);
                    },
                    Ok(b) => b,
                };
                let ghost with_head = views_of(arguments);
                arguments.push(block);
                proof {
                    assert(views_of(arguments) =~= with_head.push(block@));
                }
                proof {
                    assert(seq![block_symbol()] + args + seq![block@] =~= with_head.push(block@));
                }
                let t = AbstractTree::Node(arguments, position);
                proof {
                    lemma_node_view(&t);
                    lemma_children_views(&t);
                    assert(t@ == Tree::Node(seq![block_symbol()] + e@.children() + seq![block@], e@.position()));
                }
                Ok(Some(t))
            } else {
                let mut arguments = Vec::new();
                arguments.push(node_token());
                arguments.push(e);
                proof {
                    assert(views_of(arguments) =~= seq![block_symbol(), e@]);
                }
                let t = AbstractTree::Node(arguments, starting_position);
                proof {
                    lemma_node_view(&t);
                    lemma_children_views(&t);
                    assert(t@ == Tree::Node(seq![block_symbol(), e@], starting_position));
                }
                Ok(Some(t))
            }
        },
    }
}

/// Reads the lines of a block's body up to the `}` that ends one; `block_start`
/// is where the block began.
fn complete_parse_block(parser: &mut Parser, block_start: Position) -> (r: Result<AbstractTree, Error>)
    requires
        old(parser).wf(),
    ensures
        final(parser).wf(),
        final(parser)@ == block_lines(old(parser)@, block_start, old(parser)@.position, Seq::empty()).0,
        match r {
            Ok(t) => block_lines(old(parser)@, block_start, old(parser)@.position, Seq::empty()).1
                == Ok::<Tree, ErrorView>(t@),
            Err(e) => block_lines(old(parser)@, block_start, old(parser)@.position, Seq::empty()).1
                == Err::<Tree, ErrorView>(e@),
        },
        progressed(old(parser)@, final(parser)@),
    decreases remaining(old(parser)@), 5nat,
{
    let ghost st0 = parser@;
    let starting_position = parser.position;
    let mut accumulator: Vec<AbstractTree> = Vec::new();
    proof {
        assert(views_of(accumulator) =~= Seq::empty());
    }
    loop
        invariant
            st0 == old(parser)@,
            parser.wf(),
            parser@.chars == st0.chars,
            remaining(parser@) <= remaining(st0),
            starting_position == st0.position,
            block_lines(st0, block_start, starting_position, Seq::empty()) == block_lines(
                parser@,
                block_start,
                starting_position,
                views_of(accumulator),
            ),
        decreases remaining(parser@),
    {
        let expression = parse_list(parser, ListKind::BlockLine);
        match expression {
            Err(e) => {
                return Err(e);
            },
            Ok(Some(a)) => {
                let ghost before = views_of(accumulator);
                accumulator.push(a);
                proof {
                    assert(views_of(accumulator) =~= before.push(a@));
                }
            },
            Ok(None) => {},
        }
        if parser.last_char == Some('}') {
            let t = AbstractTree::Node(accumulator, starting_position);
            proof {
                lemma_children_views(&t);
            }
            return Ok(t);
        }
        if parser.at_eof() {
            return err_position(
                block_start,
                joined(&"hit end of file while reading ".to_string(), "a block"),
            );
        }
    }
}

/// Reads the top-level lines up to the end of the text, as children of a root
/// node at the starting position.
fn complete_parse(parser: &mut Parser) -> (r: Result<Option<AbstractTree>, Error>)
    requires
        old(parser).wf(),
    ensures
        parsed_view(r) == (match top_lines(old(parser)@, Seq::empty()).1 {
            Err(e) => Err(e),
            Ok(lines) => Ok(Some(Tree::Node(lines, old(parser)@.position))),
        }),
{
    let ghost st0 = parser@;
    let starting_position = parser.position;
    let mut accumulator: Vec<AbstractTree> = Vec::new();
    proof {
        assert(views_of(accumulator) =~= Seq::empty());
    }
    loop
        invariant
            st0 == old(parser)@,
            parser.wf(),
            parser@.chars == st0.chars,
            starting_position == st0.position,
            top_lines(st0, Seq::empty()).1 == top_lines(parser@, views_of(accumulator)).1,
        decreases remaining(parser@),
    {
        let expression = parse_list(parser, ListKind::TopLevel);
        match expression {
            Err(e) => {
                return Err(e);
            },
            Ok(Some(a)) => {
                let ghost before = views_of(accumulator);
                accumulator.push(a);
                proof {
                    assert(views_of(accumulator) =~= before.push(a@));
                }
            },
            Ok(None) => {
                if parser.at_eof() {
                    let t = AbstractTree::Node(accumulator, starting_position);
                    proof {
                        lemma_node_view(&t);
                        lemma_children_views(&t);
                    }
                    return Ok(Some(t));
                }
            },
        }
    }
}

/// Parses a text: `None` for an empty text, else a root node at `(0, 0)`
/// whose children are the lines of the text, or the first error met.
pub fn parse(string: &str) -> (r: Result<Option<AbstractTree>, Error>)
    requires
        string@.len() <= i64::MAX,
    ensures
        parsed_view(r) == parsing(string@),
{
    if string.unicode_len() == 0 {
        return Ok(None);
    }
    let parser = Parser::new(string);
    proof {
        let t0: Seq<(char, Reader)> = Seq::empty();
        assert(!(exists|i: int| is_first(t0, '\n', i)));
        let t1 = t0.push(('\n', Reader::Newline));
        assert(!(exists|i: int| is_first(t1, ' ', i))) by {
            assert(forall|i: int| 0 <= i < t1.len() ==> t1[i].0 != ' ');
        }
        let t2 = t1.push((' ', Reader::NoOp));
        assert(!(exists|i: int| is_first(t2, ')', i))) by {
            assert(forall|i: int| 0 <= i < t2.len() ==> t2[i].0 != ')');
        }
        let t3 = t2.push((')', Reader::CloseParen));
        assert(!(exists|i: int| is_first(t3, '(', i))) by {
            assert(forall|i: int| 0 <= i < t3.len() ==> t3[i].0 != '(');
        }
        let t4 = t3.push(('(', Reader::OpenParen));
        assert(!(exists|i: int| is_first(t4, '}', i))) by {
            assert(forall|i: int| 0 <= i < t4.len() ==> t4[i].0 != '}');
        }
        let t5 = t4.push(('}', Reader::CloseCurly));
        assert(!(exists|i: int| is_first(t5, '{', i))) by {
            assert(forall|i: int| 0 <= i < t5.len() ==> t5[i].0 != '{');
        }
        assert(t5.push(('{', Reader::OpenCurly)) =~= initial_table());
    }
    let mut parser = parser.read_as('\n', Reader::Newline).read_as(' ', Reader::NoOp).read_as(
        ')',
        Reader::CloseParen,
    ).read_as('(', Reader::OpenParen).read_as('}', Reader::CloseCurly).read_as(
        '{',
        Reader::OpenCurly,
    );
    complete_parse(&mut parser)
}

} // verus!
