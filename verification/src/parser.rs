//! The parser: tokens to a tree of nodes, by recursive descent over a
//! shared cursor.
//!
//! Runs of consecutive pointer-moves fuse into one `Shift` node and runs of
//! consecutive value-changes into one `Add` node, each carrying the signed
//! sum of its run. Brackets nest recursively into `Loop` nodes; an
//! unmatched bracket of either kind is the one parse error.
//!
//! The specification `spec_subparse` parses from a position onward and
//! says how it stopped: `AtEnd` for the end of the tokens, `AtClose` for a
//! closing bracket at the current nesting level, `Fail` for an opening
//! bracket that never closes.

use vstd::prelude::*;

use crate::ast::AstNode;
use crate::ast::Node;
use crate::ast::lemma_nodes_view_push;
use crate::ast::node_view;
use crate::ast::nodes_view;
use crate::lexer::Token;

verus! {

/// The one way a parse can fail.
#[derive(Debug, PartialEq, Eq, Copy, Clone, Structural)]
pub enum ParseError {
    /// An opening bracket without a closing one, or a closing bracket
    /// without an opening one.
    UnmatchedBracket,
}

/// Whether a token is a pointer move.
pub open spec fn is_shift_token(t: Token) -> bool {
    t == Token::Left || t == Token::Right
}

/// Whether a token is a value change.
pub open spec fn is_add_token(t: Token) -> bool {
    t == Token::Plus || t == Token::Minus
}

/// The pointer movement of one move token.
pub open spec fn shift_delta(t: Token) -> int {
    if t == Token::Left {
        -1
    } else {
        1
    }
}

/// The value change of one change token.
pub open spec fn add_delta(t: Token) -> int {
    if t == Token::Minus {
        -1
    } else {
        1
    }
}

/// The length of the run of move tokens starting at `i`.
pub open spec fn shift_run_len(tokens: Seq<Token>, i: int) -> nat
    decreases tokens.len() - i,
{
    if !(0 <= i < tokens.len()) || !is_shift_token(tokens[i]) {
        0
    } else {
        1 + shift_run_len(tokens, i + 1)
    }
}

/// The signed sum of the run of move tokens starting at `i`.
pub open spec fn shift_run_sum(tokens: Seq<Token>, i: int) -> int
    decreases tokens.len() - i,
{
    if !(0 <= i < tokens.len()) || !is_shift_token(tokens[i]) {
        0
    } else {
        shift_delta(tokens[i]) + shift_run_sum(tokens, i + 1)
    }
}

/// The length of the run of change tokens starting at `i`.
pub open spec fn add_run_len(tokens: Seq<Token>, i: int) -> nat
    decreases tokens.len() - i,
{
    if !(0 <= i < tokens.len()) || !is_add_token(tokens[i]) {
        0
    } else {
        1 + add_run_len(tokens, i + 1)
    }
}

/// The signed sum of the run of change tokens starting at `i`.
pub open spec fn add_run_sum(tokens: Seq<Token>, i: int) -> int
    decreases tokens.len() - i,
{
    if !(0 <= i < tokens.len()) || !is_add_token(tokens[i]) {
        0
    } else {
        add_delta(tokens[i]) + add_run_sum(tokens, i + 1)
    }
}

/// How a parse of one nesting level ends: at the end of the tokens, at a
/// closing bracket (with the index just past it), or not at all because an
/// opening bracket is never closed.
#[verifier::ext_equal]
pub enum ParseTail {
    Fail,
    AtEnd(Seq<AstNode>),
    AtClose(Seq<AstNode>, int),
}

/// Puts already-parsed nodes in front of the rest of a level's parse.
pub open spec fn prepend(ns: Seq<AstNode>, t: ParseTail) -> ParseTail {
    match t {
        ParseTail::Fail => ParseTail::Fail,
        ParseTail::AtEnd(rest) => ParseTail::AtEnd(ns + rest),
        ParseTail::AtClose(rest, j) => ParseTail::AtClose(ns + rest, j),
    }
}

proof fn lemma_prepend_empty(t: ParseTail)
    ensures
        prepend(Seq::empty(), t) == t,
{
    match t {
        ParseTail::Fail => {},
        ParseTail::AtEnd(rest) => {
            assert(Seq::empty() + rest =~= rest);
        },
        ParseTail::AtClose(rest, j) => {
            assert(Seq::empty() + rest =~= rest);
        },
    }
}

proof fn lemma_prepend_push(ns: Seq<AstNode>, n: AstNode, t: ParseTail)
    ensures
        prepend(ns, prepend(seq![n], t)) == prepend(ns.push(n), t),
{
    match t {
        ParseTail::Fail => {},
        ParseTail::AtEnd(rest) => {
            assert(ns + (seq![n] + rest) =~= ns.push(n) + rest);
        },
        ParseTail::AtClose(rest, j) => {
            assert(ns + (seq![n] + rest) =~= ns.push(n) + rest);
        },
    }
}

/// What parsing one nesting level from position `i` yields. A run of move
/// or change tokens becomes one fused node; an opening bracket wraps the
/// level parsed after it, which must end `AtClose`, into a `Loop`.
///
/// The bound checks before the recursive calls are there only to make the
/// recursion visibly terminating. The executable parser's contract goes
/// through the guarded branches alone, and `lemma_subparse_close_bounds`
/// shows a close position always lies past its opening bracket.
pub open spec fn spec_subparse(tokens: Seq<Token>, i: int) -> ParseTail
    decreases tokens.len() - i,
{
    if !(0 <= i < tokens.len()) {
        ParseTail::AtEnd(Seq::empty())
    } else if is_shift_token(tokens[i]) {
        let j = i + shift_run_len(tokens, i);
        if j <= tokens.len() {
            prepend(seq![AstNode::Shift(shift_run_sum(tokens, i))], spec_subparse(tokens, j))
        } else {
            ParseTail::Fail
        }
    } else if is_add_token(tokens[i]) {
        let j = i + add_run_len(tokens, i);
        if j <= tokens.len() {
            prepend(seq![AstNode::Add(add_run_sum(tokens, i))], spec_subparse(tokens, j))
        } else {
            ParseTail::Fail
        }
    } else if tokens[i] == Token::LeftBracket {
        match spec_subparse(tokens, i + 1) {
            ParseTail::AtClose(body, j) => if i + 1 <= j <= tokens.len() {
                prepend(seq![AstNode::Loop(body)], spec_subparse(tokens, j))
            } else {
                ParseTail::Fail
            },
            _ => ParseTail::Fail,
        }
    } else if tokens[i] == Token::RightBracket {
        ParseTail::AtClose(Seq::empty(), i + 1)
    } else if tokens[i] == Token::Dot {
        prepend(seq![AstNode::Print], spec_subparse(tokens, i + 1))
    } else {
        prepend(seq![AstNode::Input], spec_subparse(tokens, i + 1))
    }
}

/// What the parser returns on a whole token sequence: the parse of nesting
/// level zero, which must consume every token; `None` is the unmatched
/// bracket of either kind.
pub open spec fn spec_parse(tokens: Seq<Token>) -> Option<Seq<AstNode>> {
    match spec_subparse(tokens, 0) {
        ParseTail::AtEnd(ns) => Some(ns),
        _ => None,
    }
}

/// The parser's cursor state: the position, the tokens being read, and the
/// bracket nesting depth, kept to detect unmatched closing brackets.
pub struct Parser {
    pub index: usize,
    pub tokens: Vec<Token>,
    pub loop_descent: usize,
}

fn token_is_shift(t: Token) -> (b: bool)
    ensures
        b == is_shift_token(t),
{
    matches!(t, Token::Left | Token::Right)
}

fn token_is_add(t: Token) -> (b: bool)
    ensures
        b == is_add_token(t),
{
    matches!(t, Token::Plus | Token::Minus)
}

impl Parser {
    /// The cursor is inside the tokens, the tokens fit a signed count, and
    /// the nesting depth never outruns the tokens already consumed.
    pub open spec fn wf(self) -> bool {
        &&& self.index <= self.tokens@.len()
        &&& self.tokens@.len() <= isize::MAX as usize
        &&& self.loop_descent <= self.index
    }

    /// A fresh cursor at the start of the tokens.
    pub fn new(tokens: Vec<Token>) -> (p: Parser)
        requires
            tokens@.len() <= isize::MAX as usize,
        ensures
            p.tokens@ == tokens@,
            p.index == 0,
            p.loop_descent == 0,
            p.wf(),
    {
        Parser { index: 0, tokens, loop_descent: 0 }
    }

    /// Moves the cursor one token forward.
    pub fn advance(&mut self)
        requires
            old(self).index < old(self).tokens@.len(),
            old(self).tokens@.len() <= usize::MAX,
        ensures
            final(self).index == old(self).index + 1,
            final(self).tokens@ == old(self).tokens@,
            final(self).loop_descent == old(self).loop_descent,
    {
        self.index += 1;
    }

    /// The token under the cursor.
    pub fn current_token(&self) -> (t: Token)
        requires
            self.index < self.tokens@.len(),
        ensures
            t == self.tokens@[self.index as int],
    {
        self.tokens[self.index]
    }

    /// Whether the cursor still points at a token.
    pub fn is_valid(&self) -> (b: bool)
        ensures
            b == (self.index < self.tokens@.len()),
    {
        self.index < self.tokens.len()
    }

    /// Consumes the run of move tokens under the cursor and fuses it into
    /// one `Shift` node carrying the run's signed sum.
    pub fn parse_shift_sequence(&mut self) -> (n: Node)
        requires
            old(self).wf(),
        ensures
            final(self).wf(),
            final(self).tokens@ == old(self).tokens@,
            final(self).loop_descent == old(self).loop_descent,
            final(self).index == old(self).index + shift_run_len(
                old(self).tokens@,
                old(self).index as int,
            ),
            node_view(n) == AstNode::Shift(
                shift_run_sum(old(self).tokens@, old(self).index as int),
            ),
    {
        let ghost t0 = self.tokens@;
        let ghost i0 = self.index as int;
        let ghost d0 = self.loop_descent;
        let mut value: isize = 0;
        while self.is_valid() && token_is_shift(self.current_token())
            invariant
                t0 == old(self).tokens@,
                i0 == old(self).index,
                d0 == old(self).loop_descent,
                self.wf(),
                self.tokens@ == t0,
                self.loop_descent == d0,
                i0 <= self.index as int,
                self.index - i0 >= value >= i0 - self.index,
                value + shift_run_sum(t0, self.index as int) == shift_run_sum(t0, i0),
                self.index + shift_run_len(t0, self.index as int) == i0 + shift_run_len(t0, i0),
            decreases t0.len() - self.index,
        {
            if self.current_token() == Token::Left {
                value = value - 1;
            } else {
                value = value + 1;
            }
            self.advance();
        }
        Node::Shift(value)
    }

    /// Consumes the run of change tokens under the cursor and fuses it
    /// into one `Add` node carrying the run's signed sum.
    pub fn parse_add_sequence(&mut self) -> (n: Node)
        requires
            old(self).wf(),
        ensures
            final(self).wf(),
            final(self).tokens@ == old(self).tokens@,
            final(self).loop_descent == old(self).loop_descent,
            final(self).index == old(self).index + add_run_len(
                old(self).tokens@,
                old(self).index as int,
            ),
            node_view(n) == AstNode::Add(add_run_sum(old(self).tokens@, old(self).index as int)),
    {
        let ghost t0 = self.tokens@;
        let ghost i0 = self.index as int;
        let ghost d0 = self.loop_descent;
        let mut value: isize = 0;
        while self.is_valid() && token_is_add(self.current_token())
            invariant
                t0 == old(self).tokens@,
                i0 == old(self).index,
                d0 == old(self).loop_descent,
                self.wf(),
                self.tokens@ == t0,
                self.loop_descent == d0,
                i0 <= self.index as int,
                self.index - i0 >= value >= i0 - self.index,
                value + add_run_sum(t0, self.index as int) == add_run_sum(t0, i0),
                self.index + add_run_len(t0, self.index as int) == i0 + add_run_len(t0, i0),
            decreases t0.len() - self.index,
        {
            if self.current_token() == Token::Minus {
                value = value - 1;
            } else {
                value = value + 1;
            }
            self.advance();
        }
        Node::Add(value)
    }

    /// Parses one nesting level from the cursor onward. At depth zero it
    /// succeeds exactly when this level runs to the end of the tokens; at
    /// a positive depth, exactly when it runs to a closing bracket, which
    /// it consumes.
    pub fn subparse(&mut self) -> (r: Result<Vec<Node>, ParseError>)
        requires
            old(self).wf(),
        ensures
            final(self).wf(),
            final(self).tokens@ == old(self).tokens@,
            match r {
                Ok(nodes) => {
                    &&& old(self).index <= final(self).index
                    &&& if old(self).loop_descent == 0 {
                        &&& spec_subparse(old(self).tokens@, old(self).index as int)
                            == ParseTail::AtEnd(nodes_view(nodes@))
                        &&& final(self).index == old(self).tokens@.len()
                        &&& final(self).loop_descent == 0
                    } else {
                        &&& spec_subparse(old(self).tokens@, old(self).index as int)
                            == ParseTail::AtClose(nodes_view(nodes@), final(self).index as int)
                        &&& final(self).loop_descent == old(self).loop_descent - 1
                        &&& old(self).index < final(self).index
                    }
                },
                Err(e) => {
                    &&& e == ParseError::UnmatchedBracket
                    &&& match spec_subparse(old(self).tokens@, old(self).index as int) {
                        ParseTail::Fail => true,
                        ParseTail::AtEnd(_) => old(self).loop_descent > 0,
                        ParseTail::AtClose(_, _) => old(self).loop_descent == 0,
                    }
                },
            },
        decreases old(self).tokens@.len() - old(self).index,
    {
        let ghost t0 = self.tokens@;
        let ghost i0 = self.index as int;
        let ghost d0 = self.loop_descent;
        let mut nodes: Vec<Node> = Vec::new();
        proof {
            lemma_prepend_empty(spec_subparse(t0, i0));
        }
        while self.is_valid()
            invariant
                t0 == old(self).tokens@,
                i0 == old(self).index,
                d0 == old(self).loop_descent,
                self.wf(),
                self.tokens@ == t0,
                self.loop_descent == d0,
                i0 <= self.index as int,
                spec_subparse(t0, i0) == prepend(
                    nodes_view(nodes@),
                    spec_subparse(t0, self.index as int),
                ),
            decreases t0.len() - self.index,
        {
            let ghost i = self.index as int;
            let ghost prefix = nodes_view(nodes@);
            let t = self.current_token();
            match t {
                Token::Left | Token::Right => {
                    let n = self.parse_shift_sequence();
                    proof {
                        lemma_nodes_view_push(nodes@, n);
                        lemma_prepend_push(prefix, node_view(n), spec_subparse(
                            t0,
                            self.index as int,
                        ));
                    }
                    nodes.push(n);
                },
                Token::Plus | Token::Minus => {
                    let n = self.parse_add_sequence();
                    proof {
                        lemma_nodes_view_push(nodes@, n);
                        lemma_prepend_push(prefix, node_view(n), spec_subparse(
                            t0,
                            self.index as int,
                        ));
                    }
                    nodes.push(n);
                },
                Token::LeftBracket => {
                    self.advance();
                    self.loop_descent = self.loop_descent + 1;
                    match self.subparse() {
                        Ok(body) => {
                            let n = Node::Loop(body);
                            proof {
                                assert(spec_subparse(t0, i) == prepend(
                                    seq![node_view(n)],
                                    spec_subparse(t0, self.index as int),
                                ));
                                lemma_nodes_view_push(nodes@, n);
                                lemma_prepend_push(prefix, node_view(n), spec_subparse(
                                    t0,
                                    self.index as int,
                                ));
                            }
                            nodes.push(n);
                        },
                        Err(_) => {
                            proof {
                                assert(spec_subparse(t0, i) == ParseTail::Fail);
                            }
                            return Err(ParseError::UnmatchedBracket);
                        },
                    }
                },
                Token::RightBracket => {
                    self.advance();
                    if self.loop_descent == 0 {
                        proof {
                            assert(nodes_view(nodes@) + Seq::<AstNode>::empty()
                                =~= nodes_view(nodes@));
                        }
                        return Err(ParseError::UnmatchedBracket);
                    }
                    self.loop_descent = self.loop_descent - 1;
                    proof {
                        assert(nodes_view(nodes@) + Seq::<AstNode>::empty() =~= nodes_view(
                            nodes@,
                        ));
                    }
                    return Ok(nodes);
                },
                Token::Dot => {
                    proof {
                        lemma_nodes_view_push(nodes@, Node::Print);
                    }
                    nodes.push(Node::Print);
                    self.advance();
                    proof {
                        lemma_prepend_push(prefix, AstNode::Print, spec_subparse(
                            t0,
                            self.index as int,
                        ));
                    }
                },
                Token::Comma => {
                    proof {
                        lemma_nodes_view_push(nodes@, Node::Input);
                    }
                    nodes.push(Node::Input);
                    self.advance();
                    proof {
                        lemma_prepend_push(prefix, AstNode::Input, spec_subparse(
                            t0,
                            self.index as int,
                        ));
                    }
                },
            }
        }
        if self.loop_descent > 0 {
            return Err(ParseError::UnmatchedBracket);
        }
        proof {
            assert(nodes_view(nodes@) + Seq::<AstNode>::empty() =~= nodes_view(nodes@));
        }
        Ok(nodes)
    }
}

proof fn lemma_right_run(t: Seq<Token>, i: int)
    requires
        0 <= i <= t.len(),
        forall|k: int| 0 <= k < t.len() ==> t[k] == Token::Right,
    ensures
        shift_run_len(t, i) == t.len() - i,
        shift_run_sum(t, i) == t.len() - i,
    decreases t.len() - i,
{
    if i < t.len() {
        lemma_right_run(t, i + 1);
    }
}

/// A close position lies past the position the level started at, and
/// within the tokens.
pub proof fn lemma_subparse_close_bounds(tokens: Seq<Token>, i: int)
    ensures
        spec_subparse(tokens, i) matches ParseTail::AtClose(_, j) ==> i < j <= tokens.len(),
    decreases tokens.len() - i,
{
    if !(0 <= i < tokens.len()) {
    } else if is_shift_token(tokens[i]) {
        let j = i + shift_run_len(tokens, i);
        if j <= tokens.len() {
            lemma_subparse_close_bounds(tokens, j);
        }
    } else if is_add_token(tokens[i]) {
        let j = i + add_run_len(tokens, i);
        if j <= tokens.len() {
            lemma_subparse_close_bounds(tokens, j);
        }
    } else if tokens[i] == Token::LeftBracket {
        lemma_subparse_close_bounds(tokens, i + 1);
        match spec_subparse(tokens, i + 1) {
            ParseTail::AtClose(body, j) => {
                if i + 1 <= j <= tokens.len() {
                    lemma_subparse_close_bounds(tokens, j);
                }
            },
            _ => {},
        }
    } else if tokens[i] == Token::RightBracket {
    } else {
        lemma_subparse_close_bounds(tokens, i + 1);
    }
}

/// Law: a run of move-right tokens, however long, parses to the single
/// node `Shift` of the run's length — consecutive moves always fuse.
pub proof fn lemma_move_run_fuses(n: nat)
    requires
        1 <= n,
    ensures
        spec_parse(Seq::new(n, |i: int| Token::Right)) == Some(seq![AstNode::Shift(n as int)]),
{
    let t = Seq::new(n, |i: int| Token::Right);
    lemma_right_run(t, 0);
    assert(spec_subparse(t, n as int) == ParseTail::AtEnd(Seq::<AstNode>::empty()));
    assert(seq![AstNode::Shift(n as int)] + Seq::<AstNode>::empty() =~= seq![
        AstNode::Shift(n as int),
    ]);
}

/// Whether two nodes belong to the same fused class, so that the parser
/// must never leave them adjacent.
pub open spec fn same_fuse_class(a: AstNode, b: AstNode) -> bool {
    ||| (a is Shift && b is Shift)
    ||| (a is Add && b is Add)
}

/// No two adjacent nodes of the same fused class, at this level and
/// inside every loop body.
pub open spec fn well_fused(ns: Seq<AstNode>) -> bool
    decreases ns,
{
    &&& forall|i: int| 0 <= i && i + 1 < ns.len() ==> !same_fuse_class(#[trigger] ns[i], ns[i + 1])
    &&& forall|i: int|
        0 <= i < ns.len() ==> match #[trigger] ns[i] {
            AstNode::Loop(b) => well_fused(b),
            _ => true,
        }
}

proof fn lemma_shift_run_end(t: Seq<Token>, i: int)
    requires
        0 <= i,
    ensures
        i + shift_run_len(t, i) >= t.len() || !is_shift_token(
            t[i + shift_run_len(t, i)],
        ),
        i + shift_run_len(t, i) >= i,
    decreases t.len() - i,
{
    if 0 <= i < t.len() && is_shift_token(t[i]) {
        lemma_shift_run_end(t, i + 1);
    }
}

proof fn lemma_add_run_end(t: Seq<Token>, i: int)
    requires
        0 <= i,
    ensures
        i + add_run_len(t, i) >= t.len() || !is_add_token(t[i + add_run_len(t, i)]),
        i + add_run_len(t, i) >= i,
    decreases t.len() - i,
{
    if 0 <= i < t.len() && is_add_token(t[i]) {
        lemma_add_run_end(t, i + 1);
    }
}

/// The head of a level's parse carries the class of the token it started
/// at: a leading `Shift` or `Add` can only come from a move or change
/// token there.
spec fn head_matches(tokens: Seq<Token>, i: int, ns: Seq<AstNode>) -> bool {
    ns.len() > 0 ==> {
        &&& (ns[0] is Shift ==> 0 <= i < tokens.len() && is_shift_token(tokens[i]))
        &&& (ns[0] is Add ==> 0 <= i < tokens.len() && is_add_token(tokens[i]))
    }
}

proof fn lemma_subparse_well_fused(tokens: Seq<Token>, i: int)
    ensures
        match spec_subparse(tokens, i) {
            ParseTail::Fail => true,
            ParseTail::AtEnd(ns) => well_fused(ns) && head_matches(tokens, i, ns),
            ParseTail::AtClose(ns, _) => well_fused(ns) && head_matches(tokens, i, ns),
        },
    decreases tokens.len() - i,
{
    if !(0 <= i < tokens.len()) {
        assert(well_fused(Seq::<AstNode>::empty()));
    } else if is_shift_token(tokens[i]) {
        let j = i + shift_run_len(tokens, i);
        if j <= tokens.len() {
            lemma_shift_run_end(tokens, i);
            lemma_subparse_well_fused(tokens, j);
            let head = AstNode::Shift(shift_run_sum(tokens, i));
            match spec_subparse(tokens, j) {
                ParseTail::AtEnd(rest) => {
                    lemma_cons_well_fused(tokens, i, j, head, rest);
                },
                ParseTail::AtClose(rest, _) => {
                    lemma_cons_well_fused(tokens, i, j, head, rest);
                },
                ParseTail::Fail => {},
            }
        }
    } else if is_add_token(tokens[i]) {
        let j = i + add_run_len(tokens, i);
        if j <= tokens.len() {
            lemma_add_run_end(tokens, i);
            lemma_subparse_well_fused(tokens, j);
            let head = AstNode::Add(add_run_sum(tokens, i));
            match spec_subparse(tokens, j) {
                ParseTail::AtEnd(rest) => {
                    lemma_cons_well_fused(tokens, i, j, head, rest);
                },
                ParseTail::AtClose(rest, _) => {
                    lemma_cons_well_fused(tokens, i, j, head, rest);
                },
                ParseTail::Fail => {},
            }
        }
    } else if tokens[i] == Token::LeftBracket {
        lemma_subparse_well_fused(tokens, i + 1);
        match spec_subparse(tokens, i + 1) {
            ParseTail::AtClose(body, j) => {
                if i + 1 <= j <= tokens.len() {
                    lemma_subparse_well_fused(tokens, j);
                    let head = AstNode::Loop(body);
                    match spec_subparse(tokens, j) {
                        ParseTail::AtEnd(rest) => {
                            lemma_cons_well_fused(tokens, i, j, head, rest);
                        },
                        ParseTail::AtClose(rest, _) => {
                            lemma_cons_well_fused(tokens, i, j, head, rest);
                        },
                        ParseTail::Fail => {},
                    }
                }
            },
            _ => {},
        }
    } else if tokens[i] == Token::RightBracket {
        assert(well_fused(Seq::<AstNode>::empty()));
    } else if tokens[i] == Token::Dot {
        lemma_subparse_well_fused(tokens, i + 1);
        match spec_subparse(tokens, i + 1) {
            ParseTail::AtEnd(rest) => {
                lemma_cons_well_fused(tokens, i, i + 1, AstNode::Print, rest);
            },
            ParseTail::AtClose(rest, _) => {
                lemma_cons_well_fused(tokens, i, i + 1, AstNode::Print, rest);
            },
            ParseTail::Fail => {},
        }
    } else {
        lemma_subparse_well_fused(tokens, i + 1);
        match spec_subparse(tokens, i + 1) {
            ParseTail::AtEnd(rest) => {
                lemma_cons_well_fused(tokens, i, i + 1, AstNode::Input, rest);
            },
            ParseTail::AtClose(rest, _) => {
                lemma_cons_well_fused(tokens, i, i + 1, AstNode::Input, rest);
            },
            ParseTail::Fail => {},
        }
    }
}

proof fn lemma_cons_well_fused(tokens: Seq<Token>, i: int, j: int, head: AstNode, rest: Seq<
    AstNode,
>)
    requires
        well_fused(rest),
        head_matches(tokens, j, rest),
        head is Shift ==> j >= tokens.len() || !is_shift_token(tokens[j]),
        head is Add ==> j >= tokens.len() || !is_add_token(tokens[j]),
        head matches AstNode::Loop(b) ==> well_fused(b),
        0 <= i < tokens.len(),
        head is Shift ==> is_shift_token(tokens[i]),
        head is Add ==> is_add_token(tokens[i]),
    ensures
        well_fused(seq![head] + rest),
        head_matches(tokens, i, seq![head] + rest),
{
    let ns = seq![head] + rest;
    assert(ns[0] == head);
    assert forall|k: int| 0 <= k && k + 1 < ns.len() implies !same_fuse_class(
        #[trigger] ns[k],
        ns[k + 1],
    ) by {
        if k == 0 {
            assert(ns[1] == rest[0]);
        } else {
            assert(ns[k] == rest[k - 1]);
            assert(ns[k + 1] == rest[k]);
        }
    }
    assert forall|k: int| 0 <= k < ns.len() implies match #[trigger] ns[k] {
        AstNode::Loop(b) => well_fused(b),
        _ => true,
    } by {
        if k > 0 {
            assert(ns[k] == rest[k - 1]);
        }
    }
}

/// Law: the parser never leaves two adjacent nodes of the same fused
/// class, at any nesting depth, in any program it accepts.
pub proof fn lemma_parse_well_fused(tokens: Seq<Token>)
    ensures
        spec_parse(tokens) matches Some(ns) ==> well_fused(ns),
{
    lemma_subparse_well_fused(tokens, 0);
}

/// Parses a whole token sequence into the top-level node sequence, or
/// reports the unmatched bracket of either kind.
pub fn parse(tokens: Vec<Token>) -> (r: Result<Vec<Node>, ParseError>)
    requires
        tokens@.len() <= isize::MAX as usize,
    ensures
        match r {
            Ok(nodes) => spec_parse(tokens@) == Some(nodes_view(nodes@)),
            Err(e) => {
                &&& spec_parse(tokens@) is None
                &&& e == ParseError::UnmatchedBracket
            },
        },
{
    let mut parser: Parser = Parser::new(tokens);
    parser.subparse()
}

} // verus!
