//! The shunting-yard parser: from tokens to an expression tree.
//!
//! Operands go to an output stack, operators and opening brackets to a stack
//! of pending entries.  An operator of equal or lower precedence first folds
//! the operators pending above it into trees, so binary operators associate
//! to the left.  A closing bracket folds down to its opening bracket; where
//! that bracket opened a function call, the trees stacked since then become
//! the call's arguments.

use crate::common_types::{Numeric, Token, TokenView, Tree, Value, ValueView, AST};
use vstd::prelude::*;

verus! {

/// Why tokens do not form an expression.
#[derive(PartialEq, Eq, Structural, Debug, Clone, Copy)]
pub enum ASTCreateError {
    UnexpectedToken,
    MismatchedParentheses,
    InvalidRange,
}

/// An entry of the stack of pending operators, as contracts see it.
pub enum Pending<N> {
    /// An operator that waits for its right operand.
    Operator(TokenView<N>),
    /// An opening bracket that groups.
    Group,
    /// The opening bracket of a call of `name`; `base` trees were stacked
    /// when it opened.
    Call { name: Seq<char>, base: nat },
}

/// The state of the parser between two tokens.
pub struct Machine<N> {
    /// The trees built so far.
    pub output: Seq<Tree<N>>,
    /// The operators and brackets that wait.
    pub pending: Seq<Pending<N>>,
    /// Whether the next token has to start an operand.
    pub expects_operand: bool,
    /// Whether the last token was a cell name.
    pub after_cell: bool,
    /// Whether the last token was the `:` of a range.
    pub in_range: bool,
    /// The function name read last, where its bracket has to follow.
    pub called: Option<Seq<char>>,
}

impl<N: Numeric> Machine<N> {
    /// The state before the first token.
    pub open spec fn initial() -> Self {
        Machine {
            output: Seq::empty(),
            pending: Seq::empty(),
            expects_operand: true,
            after_cell: false,
            in_range: false,
            called: None,
        }
    }

    /// The state with other stacks, after a token that ends an operand
    /// (`expects_operand` false) or asks for one (true).
    pub open spec fn moved(
        self,
        output: Seq<Tree<N>>,
        pending: Seq<Pending<N>>,
        expects_operand: bool,
    ) -> Self {
        Machine {
            output,
            pending,
            expects_operand,
            after_cell: false,
            in_range: false,
            called: None,
        }
    }

    /// Whether an operator that binds at least as strongly as `min` is on
    /// top of the pending stack.
    pub open spec fn top_binds(self, min: nat) -> bool {
        self.pending.len() > 0 && (match self.pending.last() {
            Pending::Operator(op) => op.precedence() >= min,
            _ => false,
        })
    }

    /// Folds the operator on top of the pending stack and its operands into
    /// one tree.
    pub open spec fn apply_top(self) -> Result<Self, ASTCreateError> {
        let n = self.output.len() as int;
        if self.pending.len() == 0 {
            Err(ASTCreateError::UnexpectedToken)
        } else {
            match self.pending.last() {
                Pending::Operator(op) => {
                    if op == TokenView::<N>::Not {
                        if n < 1 {
                            Err(ASTCreateError::UnexpectedToken)
                        } else {
                            Ok(
                                Machine {
                                    output: self.output.drop_last().push(
                                        Tree::UnaryOp { op, expr: Box::new(self.output.last()) },
                                    ),
                                    pending: self.pending.drop_last(),
                                    ..self
                                },
                            )
                        }
                    } else if n < 2 {
                        Err(ASTCreateError::UnexpectedToken)
                    } else {
                        Ok(
                            Machine {
                                output: self.output.subrange(0, n - 2).push(
                                    Tree::BinaryOp {
                                        op,
                                        left: Box::new(self.output[n - 2]),
                                        right: Box::new(self.output[n - 1]),
                                    },
                                ),
                                pending: self.pending.drop_last(),
                                ..self
                            },
                        )
                    }
                },
                _ => Err(ASTCreateError::UnexpectedToken),
            }
        }
    }

    /// Folds pending operators while the one on top binds at least as
    /// strongly as `min`.
    pub open spec fn reduce(self, min: nat) -> Result<Self, ASTCreateError>
        decreases self.pending.len(),
    {
        if self.top_binds(min) {
            match self.apply_top() {
                Ok(next) => next.reduce(min),
                Err(e) => Err(e),
            }
        } else {
            Ok(self)
        }
    }

    /// Whether an opening bracket is pending.
    pub open spec fn has_opener(self) -> bool {
        exists|i: int|
            0 <= i < self.pending.len() && !(#[trigger] self.pending[i] is Operator)
    }

    /// An operand: a literal or a cell name.
    pub open spec fn operand(self, tree: Tree<N>, is_cell: bool) -> Result<Self, ASTCreateError> {
        if self.expects_operand {
            Ok(
                Machine {
                    output: self.output.push(tree),
                    expects_operand: false,
                    after_cell: is_cell,
                    ..self
                },
            )
        } else {
            Err(ASTCreateError::UnexpectedToken)
        }
    }

    /// Something that stands before an operand: `(` or `!`.
    pub open spec fn prefix(self, entry: Pending<N>) -> Result<Self, ASTCreateError> {
        if self.expects_operand {
            Ok(self.moved(self.output, self.pending.push(entry), true))
        } else {
            Err(ASTCreateError::UnexpectedToken)
        }
    }

    /// A binary operator.
    pub open spec fn binary(self, op: TokenView<N>) -> Result<Self, ASTCreateError> {
        if self.expects_operand {
            Err(ASTCreateError::UnexpectedToken)
        } else {
            match self.reduce(op.precedence()) {
                Ok(m) => Ok(m.moved(m.output, m.pending.push(Pending::Operator(op)), true)),
                Err(e) => Err(e),
            }
        }
    }

    /// The `,` between two arguments of a call.
    pub open spec fn separator(self) -> Result<Self, ASTCreateError> {
        if self.expects_operand {
            Err(ASTCreateError::UnexpectedToken)
        } else {
            match self.reduce(0) {
                Ok(m) => {
                    if m.pending.len() > 0 && m.pending.last() is Call {
                        Ok(m.moved(m.output, m.pending, true))
                    } else {
                        Err(ASTCreateError::UnexpectedToken)
                    }
                },
                Err(e) => Err(e),
            }
        }
    }

    /// Closes the bracket on top of the pending stack.
    pub open spec fn close_top(self) -> Result<Self, ASTCreateError> {
        if self.pending.len() == 0 {
            Err(ASTCreateError::MismatchedParentheses)
        } else {
            match self.pending.last() {
                Pending::Group => Ok(self.moved(self.output, self.pending.drop_last(), false)),
                Pending::Call { name, base } => {
                    if base <= self.output.len() {
                        Ok(
                            self.moved(
                                self.output.subrange(0, base as int).push(
                                    Tree::FunctionCall {
                                        name,
                                        arguments: self.output.subrange(
                                            base as int,
                                            self.output.len() as int,
                                        ),
                                    },
                                ),
                                self.pending.drop_last(),
                                false,
                            ),
                        )
                    } else {
                        Err(ASTCreateError::UnexpectedToken)
                    }
                },
                Pending::Operator(_) => Err(ASTCreateError::UnexpectedToken),
            }
        }
    }

    /// A `)`: it ends a group or a call.  Right after `NAME(` it ends a call
    /// without arguments.
    pub open spec fn close(self) -> Result<Self, ASTCreateError> {
        if !self.has_opener() {
            Err(ASTCreateError::MismatchedParentheses)
        } else if self.expects_operand {
            match self.pending.last() {
                Pending::Call { name, base } => {
                    if base == self.output.len() {
                        self.close_top()
                    } else {
                        Err(ASTCreateError::UnexpectedToken)
                    }
                },
                _ => Err(ASTCreateError::UnexpectedToken),
            }
        } else {
            match self.reduce(0) {
                Ok(m) => m.close_top(),
                Err(e) => Err(e),
            }
        }
    }

    /// The second cell name of a range.
    pub open spec fn close_range(self, to: Seq<char>) -> Result<Self, ASTCreateError> {
        if self.output.len() == 0 {
            Err(ASTCreateError::InvalidRange)
        } else {
            match self.output.last() {
                Tree::CellName(from) => Ok(
                    self.moved(
                        self.output.drop_last().push(Tree::Range { from, to }),
                        self.pending,
                        false,
                    ),
                ),
                _ => Err(ASTCreateError::InvalidRange),
            }
        }
    }

    /// Takes one token.
    pub open spec fn step(self, token: TokenView<N>) -> Result<Self, ASTCreateError> {
        if self.called is Some {
            match token {
                TokenView::LParen => Ok(
                    self.moved(
                        self.output,
                        self.pending.push(
                            Pending::Call { name: self.called->0, base: self.output.len() },
                        ),
                        true,
                    ),
                ),
                _ => Err(ASTCreateError::UnexpectedToken),
            }
        } else if self.in_range {
            match token {
                TokenView::CellName(to) => self.close_range(to),
                _ => Err(ASTCreateError::InvalidRange),
            }
        } else {
            match token {
                TokenView::Number(n) => self.operand(Tree::Value(ValueView::Number(n)), false),
                TokenView::Text(s) => self.operand(Tree::Value(ValueView::Text(s)), false),
                TokenView::Bool(b) => self.operand(Tree::Value(ValueView::Bool(b)), false),
                TokenView::CellName(name) => self.operand(Tree::CellName(name), true),
                TokenView::FunctionName(name) => {
                    if self.expects_operand {
                        Ok(Machine { called: Some(name), after_cell: false, ..self })
                    } else {
                        Err(ASTCreateError::UnexpectedToken)
                    }
                },
                TokenView::LParen => self.prefix(Pending::Group),
                TokenView::Not => self.prefix(Pending::Operator(token)),
                TokenView::RangeSep => {
                    if !self.expects_operand && self.after_cell {
                        Ok(Machine { in_range: true, after_cell: false, ..self })
                    } else {
                        Err(ASTCreateError::InvalidRange)
                    }
                },
                TokenView::ArgSeparator => self.separator(),
                TokenView::RParen => self.close(),
                _ => self.binary(token),
            }
        }
    }

    /// Takes tokens one after the other.
    pub open spec fn run(self, tokens: Seq<TokenView<N>>) -> Result<Self, ASTCreateError>
        decreases tokens.len(),
    {
        if tokens.len() == 0 {
            Ok(self)
        } else {
            match self.run(tokens.drop_last()) {
                Ok(m) => m.step(tokens.last()),
                Err(e) => Err(e),
            }
        }
    }

    /// The tree that is left when the tokens have ended.
    pub open spec fn finish(self) -> Result<Tree<N>, ASTCreateError> {
        if self.called is Some || self.expects_operand {
            Err(ASTCreateError::UnexpectedToken)
        } else if self.in_range {
            Err(ASTCreateError::InvalidRange)
        } else {
            match self.reduce(0) {
                Ok(m) => {
                    if m.pending.len() > 0 {
                        Err(ASTCreateError::MismatchedParentheses)
                    } else if m.output.len() != 1 {
                        Err(ASTCreateError::UnexpectedToken)
                    } else {
                        Ok(m.output[0])
                    }
                },
                Err(e) => Err(e),
            }
        }
    }
}

/// The tree that a sequence of tokens stands for, or why it stands for none.
pub open spec fn parse_tokens<N: Numeric>(tokens: Seq<TokenView<N>>) -> Result<
    Tree<N>,
    ASTCreateError,
> {
    match Machine::<N>::initial().run(tokens) {
        Ok(m) => m.finish(),
        Err(e) => Err(e),
    }
}

/// Once taking tokens has failed, taking more does not mend it.
proof fn lemma_run_fails<N: Numeric>(m: Machine<N>, tokens: Seq<TokenView<N>>, k: int)
    requires
        0 <= k <= tokens.len(),
        m.run(tokens.subrange(0, k)) is Err,
    ensures
        m.run(tokens) == m.run(tokens.subrange(0, k)),
    decreases tokens.len() - k,
{
    if k == tokens.len() {
        assert(tokens.subrange(0, k) == tokens);
    } else {
        let longer = tokens.subrange(0, k + 1);
        assert(longer.drop_last() == tokens.subrange(0, k));
        lemma_run_fails(m, tokens, k + 1);
    }
}

impl<N: Numeric> Machine<N> {
    /// Whether every tree built so far is well formed and every pending
    /// operator is one that the parser folds into a well-formed tree.
    pub open spec fn sound(self) -> bool {
        &&& forall|i: int| 0 <= i < self.output.len() ==> (#[trigger] self.output[i]).well_formed()
        &&& forall|j: int|
            0 <= j < self.pending.len() ==> (match #[trigger] self.pending[j] {
                Pending::Operator(op) => op == TokenView::<N>::Not || op.is_binary_operator(),
                _ => true,
            })
    }
}

/// Folding an operator keeps the state sound.
proof fn lemma_apply_top_sound<N: Numeric>(m: Machine<N>)
    requires
        m.sound(),
        m.apply_top() is Ok,
    ensures
        m.apply_top()->Ok_0.sound(),
        m.apply_top()->Ok_0.pending == m.pending.drop_last(),
{
    let next = m.apply_top()->Ok_0;
    let n = m.output.len() as int;
    let top = m.pending.last();
    assert(m.pending[m.pending.len() - 1] == top);
    assert forall|i: int| 0 <= i < next.output.len() implies (#[trigger] next.output[i]).well_formed() by {
        if i < next.output.len() - 1 {
            assert(next.output[i] == m.output[i]);
        } else {
            assert(m.output[n - 1].well_formed());
            if n >= 2 {
                assert(m.output[n - 2].well_formed());
            }
        }
    }
    assert forall|j: int| 0 <= j < next.pending.len() implies (match #[trigger] next.pending[j] {
        Pending::Operator(op) => op == TokenView::<N>::Not || op.is_binary_operator(),
        _ => true,
    }) by {
        assert(next.pending[j] == m.pending[j]);
    }
}

/// Folding operators keeps the state sound.
proof fn lemma_reduce_sound<N: Numeric>(m: Machine<N>, min: nat)
    requires
        m.sound(),
        m.reduce(min) is Ok,
    ensures
        m.reduce(min)->Ok_0.sound(),
    decreases m.pending.len(),
{
    if m.top_binds(min) {
        lemma_apply_top_sound(m);
        lemma_reduce_sound(m.apply_top()->Ok_0, min);
    }
}

/// A pending bracket, `!` or binary operator more keeps the state sound.
proof fn lemma_pushed_sound<N: Numeric>(m: Machine<N>, next: Machine<N>, entry: Pending<N>)
    requires
        m.sound(),
        next.output == m.output,
        next.pending == m.pending.push(entry),
        match entry {
            Pending::Operator(op) => op == TokenView::<N>::Not || op.is_binary_operator(),
            _ => true,
        },
    ensures
        next.sound(),
{
    assert forall|j: int| 0 <= j < next.pending.len() implies (match #[trigger] next.pending[j] {
        Pending::Operator(op) => op == TokenView::<N>::Not || op.is_binary_operator(),
        _ => true,
    }) by {
        if j < m.pending.len() {
            assert(next.pending[j] == m.pending[j]);
        }
    }
}

/// Closing a bracket keeps the state sound.
proof fn lemma_close_top_sound<N: Numeric>(m: Machine<N>)
    requires
        m.sound(),
        m.close_top() is Ok,
    ensures
        m.close_top()->Ok_0.sound(),
{
    let next = m.close_top()->Ok_0;
    assert forall|j: int| 0 <= j < next.pending.len() implies (match #[trigger] next.pending[j] {
        Pending::Operator(op) => op == TokenView::<N>::Not || op.is_binary_operator(),
        _ => true,
    }) by {
        assert(next.pending[j] == m.pending[j]);
    }
    assert forall|i: int| 0 <= i < next.output.len() implies (#[trigger] next.output[i]).well_formed() by {
        match m.pending.last() {
            Pending::Call { name, base } => {
                if i < base {
                    assert(next.output[i] == m.output[i]);
                } else {
                    let arguments = m.output.subrange(base as int, m.output.len() as int);
                    assert forall|k: int| 0 <= k < arguments.len() implies (
                    #[trigger] arguments[k]).well_formed() by {
                        assert(arguments[k] == m.output[base + k]);
                    }
                }
            },
            _ => {
                assert(next.output[i] == m.output[i]);
            },
        }
    }
}

/// Taking a token keeps the state sound.
proof fn lemma_step_sound<N: Numeric>(m: Machine<N>, token: TokenView<N>)
    requires
        m.sound(),
        m.step(token) is Ok,
    ensures
        m.step(token)->Ok_0.sound(),
{
    let next = m.step(token)->Ok_0;
    if m.called is Some {
        lemma_pushed_sound(
            m,
            next,
            Pending::Call { name: m.called->0, base: m.output.len() },
        );
    } else if m.in_range {
        assert forall|i: int| 0 <= i < next.output.len() implies (#[trigger] next.output[i]).well_formed() by {
            if i < next.output.len() - 1 {
                assert(next.output[i] == m.output[i]);
            }
        }
    } else {
        match token {
            TokenView::Number(_) | TokenView::Text(_) | TokenView::Bool(_) | TokenView::CellName(
                _,
            ) => {
                assert forall|i: int| 0 <= i < next.output.len() implies (
                #[trigger] next.output[i]).well_formed() by {
                    if i < m.output.len() {
                        assert(next.output[i] == m.output[i]);
                    }
                }
            },
            TokenView::FunctionName(_) => {},
            TokenView::LParen => {
                lemma_pushed_sound(m, next, Pending::Group);
            },
            TokenView::Not => {
                lemma_pushed_sound(m, next, Pending::Operator(token));
            },
            TokenView::RangeSep => {},
            TokenView::ArgSeparator => {
                lemma_reduce_sound(m, 0);
            },
            TokenView::RParen => {
                if m.expects_operand {
                    lemma_close_top_sound(m);
                } else {
                    lemma_reduce_sound(m, 0);
                    lemma_close_top_sound(m.reduce(0)->Ok_0);
                }
            },
            _ => {
                lemma_reduce_sound(m, token.precedence());
                lemma_pushed_sound(
                    m.reduce(token.precedence())->Ok_0,
                    next,
                    Pending::Operator(token),
                );
            },
        }
    }
}

/// Taking tokens keeps the state sound.
proof fn lemma_run_sound<N: Numeric>(m: Machine<N>, tokens: Seq<TokenView<N>>)
    requires
        m.sound(),
        m.run(tokens) is Ok,
    ensures
        m.run(tokens)->Ok_0.sound(),
    decreases tokens.len(),
{
    if tokens.len() > 0 {
        lemma_run_sound(m, tokens.drop_last());
        lemma_step_sound(m.run(tokens.drop_last())->Ok_0, tokens.last());
    }
}

/// Every tree that the parser builds is well formed: its binary nodes hold
/// binary operators.
pub proof fn lemma_parsed_well_formed<N: Numeric>(tokens: Seq<TokenView<N>>)
    requires
        parse_tokens(tokens) is Ok,
    ensures
        parse_tokens(tokens)->Ok_0.well_formed(),
{
    let start = Machine::<N>::initial();
    lemma_run_sound(start, tokens);
    let m = start.run(tokens)->Ok_0;
    lemma_reduce_sound(m, 0);
}


/// An entry of the stack of pending operators.
enum Entry<N> {
    Operator(Token<N>),
    Group,
    Call { name: String, base: usize },
}

impl<N: Numeric> View for Entry<N> {
    type V = Pending<N>;

    closed spec fn view(&self) -> Pending<N> {
        match self {
            Entry::Operator(op) => Pending::Operator(op@),
            Entry::Group => Pending::Group,
            Entry::Call { name, base } => Pending::Call { name: name@, base: *base as nat },
        }
    }
}

/// The parser's state.
struct Builder<N> {
    output: Vec<AST<N>>,
    pending: Vec<Entry<N>>,
    expects_operand: bool,
    after_cell: bool,
    in_range: bool,
    called: Option<String>,
}

/// The views of the trees built so far.
spec fn trees<N: Numeric>(output: Seq<AST<N>>) -> Seq<Tree<N>> {
    Seq::new(output.len(), |i: int| output[i]@)
}

/// The views of the pending entries.
spec fn entries<N: Numeric>(pending: Seq<Entry<N>>) -> Seq<Pending<N>> {
    Seq::new(pending.len(), |i: int| pending[i]@)
}

impl<N: Numeric> View for Builder<N> {
    type V = Machine<N>;

    closed spec fn view(&self) -> Machine<N> {
        Machine {
            output: trees(self.output@),
            pending: entries(self.pending@),
            expects_operand: self.expects_operand,
            after_cell: self.after_cell,
            in_range: self.in_range,
            called: match self.called {
                Some(name) => Some(name@),
                None => None,
            },
        }
    }
}

/// The view of what a step of the parser returns.
spec fn outcome<N: Numeric>(r: Result<Builder<N>, ASTCreateError>) -> Result<
    Machine<N>,
    ASTCreateError,
> {
    match r {
        Ok(b) => Ok(b@),
        Err(e) => Err(e),
    }
}

impl<N: Numeric> Builder<N> {
    /// See [`Machine::apply_top`].
    fn apply_top(self) -> (r: Result<Self, ASTCreateError>)
        ensures
            outcome(r) == self@.apply_top(),
    {
        let mut b = self;
        let ghost before = b@;
        match b.pending.pop() {
            Some(Entry::Operator(op)) => {
                if matches!(op, Token::Not) {
                    match b.output.pop() {
                        Some(expr) => {
                            let node = AST::UnaryOp { op, expr: Box::new(expr) };
                            b.output.push(node);
                            proof {
                                assert(b@.output =~= before.apply_top()->Ok_0.output);
                                assert(b@.pending =~= before.apply_top()->Ok_0.pending);
                            }
                            Ok(b)
                        },
                        None => Err(ASTCreateError::UnexpectedToken),
                    }
                } else {
                    let right = b.output.pop();
                    let left = b.output.pop();
                    match (left, right) {
                        (Some(left), Some(right)) => {
                            let node = AST::BinaryOp {
                                op,
                                left: Box::new(left),
                                right: Box::new(right),
                            };
                            b.output.push(node);
                            proof {
                                assert(b@.output =~= before.apply_top()->Ok_0.output);
                                assert(b@.pending =~= before.apply_top()->Ok_0.pending);
                            }
                            Ok(b)
                        },
                        _ => Err(ASTCreateError::UnexpectedToken),
                    }
                }
            },
            _ => Err(ASTCreateError::UnexpectedToken),
        }
    }

    /// See [`Machine::top_binds`].
    fn top_binds(&self, min: usize) -> (r: bool)
        ensures
            r == self@.top_binds(min as nat),
    {
        let n = self.pending.len();
        if n == 0 {
            false
        } else {
            match &self.pending[n - 1] {
                Entry::Operator(op) => op.get_precedence() >= min,
                _ => false,
            }
        }
    }

    /// See [`Machine::reduce`].
    fn reduce(self, min: usize) -> (r: Result<Self, ASTCreateError>)
        ensures
            outcome(r) == self@.reduce(min as nat),
    {
        let mut b = self;
        while b.top_binds(min)
            invariant
                self@.reduce(min as nat) == b@.reduce(min as nat),
            decreases b.pending.len(),
        {
            let ghost before = b@;
            match b.apply_top() {
                Ok(next) => {
                    assert(next@.pending.len() == next.pending@.len());
                    assert(next@.pending == before.pending.drop_last());
                    b = next;
                },
                Err(e) => {
                    return Err(e);
                },
            }
        }
        Ok(b)
    }

    /// See [`Machine::has_opener`].
    fn has_opener(&self) -> (r: bool)
        ensures
            r == self@.has_opener(),
    {
        let mut i: usize = 0;
        while i < self.pending.len()
            invariant
                i <= self.pending.len(),
                forall|j: int| 0 <= j < i ==> (#[trigger] self@.pending[j]) is Operator,
            decreases self.pending.len() - i,
        {
            match &self.pending[i] {
                Entry::Operator(_) => {},
                _ => {
                    assert(!(self@.pending[i as int] is Operator));
                    return true;
                },
            }
            i = i + 1;
        }
        false
    }

    /// See [`Machine::operand`].
    fn operand(self, node: AST<N>, is_cell: bool) -> (r: Result<Self, ASTCreateError>)
        ensures
            outcome(r) == self@.operand(node@, is_cell),
    {
        if !self.expects_operand {
            return Err(ASTCreateError::UnexpectedToken);
        }
        let mut b = self;
        b.output.push(node);
        b.expects_operand = false;
        b.after_cell = is_cell;
        proof {
            assert(b@.output =~= self@.output.push(node@));
        }
        Ok(b)
    }

    /// See [`Machine::prefix`].
    fn prefix(self, entry: Entry<N>) -> (r: Result<Self, ASTCreateError>)
        ensures
            outcome(r) == self@.prefix(entry@),
    {
        if !self.expects_operand {
            return Err(ASTCreateError::UnexpectedToken);
        }
        let mut b = self;
        b.pending.push(entry);
        b.expects_operand = true;
        b.after_cell = false;
        b.in_range = false;
        b.called = None;
        proof {
            assert(b@.pending =~= self@.pending.push(entry@));
        }
        Ok(b)
    }

    /// See [`Machine::binary`].
    fn binary(self, op: Token<N>) -> (r: Result<Self, ASTCreateError>)
        ensures
            outcome(r) == self@.binary(op@),
    {
        if self.expects_operand {
            return Err(ASTCreateError::UnexpectedToken);
        }
        let min = op.get_precedence();
        match self.reduce(min) {
            Ok(reduced) => {
                let mut b = reduced;
                b.pending.push(Entry::Operator(op));
                b.expects_operand = true;
                b.after_cell = false;
                b.in_range = false;
                b.called = None;
                proof {
                    assert(b@.pending =~= reduced@.pending.push(Pending::Operator(op@)));
                }
                Ok(b)
            },
            Err(e) => Err(e),
        }
    }

    /// See [`Machine::separator`].
    fn separator(self) -> (r: Result<Self, ASTCreateError>)
        ensures
            outcome(r) == self@.separator(),
    {
        if self.expects_operand {
            return Err(ASTCreateError::UnexpectedToken);
        }
        match self.reduce(0) {
            Ok(reduced) => {
                let n = reduced.pending.len();
                if n == 0 {
                    return Err(ASTCreateError::UnexpectedToken);
                }
                match &reduced.pending[n - 1] {
                    Entry::Call { .. } => {},
                    _ => {
                        return Err(ASTCreateError::UnexpectedToken);
                    },
                }
                let mut b = reduced;
                b.expects_operand = true;
                b.after_cell = false;
                b.in_range = false;
                b.called = None;
                Ok(b)
            },
            Err(e) => Err(e),
        }
    }

    /// See [`Machine::close_top`].
    fn close_top(self) -> (r: Result<Self, ASTCreateError>)
        ensures
            outcome(r) == self@.close_top(),
    {
        let mut b = self;
        let ghost before = b@;
        match b.pending.pop() {
            None => Err(ASTCreateError::MismatchedParentheses),
            Some(Entry::Group) => {
                b.expects_operand = false;
                b.after_cell = false;
                b.in_range = false;
                b.called = None;
                proof {
                    assert(b@.pending =~= before.pending.drop_last());
                }
                Ok(b)
            },
            Some(Entry::Call { name, base }) => {
                if base > b.output.len() {
                    return Err(ASTCreateError::UnexpectedToken);
                }
                let arguments = b.output.split_off(base);
                let node = AST::FunctionCall { name, arguments };
                proof {
                    assert(node@ == Tree::FunctionCall {
                        name: name@,
                        arguments: before.output.subrange(base as int, before.output.len() as int),
                    }) by {
                        assert(node@->FunctionCall_arguments =~= before.output.subrange(
                            base as int,
                            before.output.len() as int,
                        ));
                    }
                }
                b.output.push(node);
                b.expects_operand = false;
                b.after_cell = false;
                b.in_range = false;
                b.called = None;
                proof {
                    assert(b@.pending =~= before.pending.drop_last());
                    assert(b@.output =~= before.close_top()->Ok_0.output);
                }
                Ok(b)
            },
            Some(Entry::Operator(_)) => Err(ASTCreateError::UnexpectedToken),
        }
    }

    /// See [`Machine::close`].
    fn close(self) -> (r: Result<Self, ASTCreateError>)
        ensures
            outcome(r) == self@.close(),
    {
        if !self.has_opener() {
            return Err(ASTCreateError::MismatchedParentheses);
        }
        if self.expects_operand {
            let n = self.pending.len();
            assert(n > 0);
            let fits = match &self.pending[n - 1] {
                Entry::Call { name, base } => *base == self.output.len(),
                _ => false,
            };
            if fits {
                self.close_top()
            } else {
                Err(ASTCreateError::UnexpectedToken)
            }
        } else {
            match self.reduce(0) {
                Ok(reduced) => reduced.close_top(),
                Err(e) => Err(e),
            }
        }
    }

    /// See [`Machine::close_range`].
    fn close_range(self, to: String) -> (r: Result<Self, ASTCreateError>)
        ensures
            outcome(r) == self@.close_range(to@),
    {
        let mut b = self;
        let ghost before = b@;
        match b.output.pop() {
            Some(AST::CellName(from)) => {
                b.output.push(AST::Range { from, to });
                b.expects_operand = false;
                b.after_cell = false;
                b.in_range = false;
                b.called = None;
                proof {
                    assert(b@.output =~= before.close_range(to@)->Ok_0.output);
                    assert(b@.pending =~= before.pending);
                }
                Ok(b)
            },
            _ => Err(ASTCreateError::InvalidRange),
        }
    }

    /// See [`Machine::step`].
    fn step(self, token: &Token<N>) -> (r: Result<Self, ASTCreateError>)
        ensures
            outcome(r) == self@.step(token@),
    {
        if self.called.is_some() {
            return match token {
                Token::LParen => {
                    let mut b = self;
                    let ghost before = b@;
                    let base = b.output.len();
                    match b.called.take() {
                        Some(name) => {
                            b.pending.push(Entry::Call { name, base });
                            b.expects_operand = true;
                            b.after_cell = false;
                            b.in_range = false;
                            proof {
                                assert(b@.pending =~= before.pending.push(
                                    Pending::Call { name: name@, base: base as nat },
                                ));
                                assert(b@.output =~= before.output);
                            }
                            Ok(b)
                        },
                        None => Err(ASTCreateError::UnexpectedToken),
                    }
                },
                _ => Err(ASTCreateError::UnexpectedToken),
            };
        }
        if self.in_range {
            return match token {
                Token::CellName(to) => self.close_range(to.clone()),
                _ => Err(ASTCreateError::InvalidRange),
            };
        }
        match token {
            Token::Number(n) => self.operand(AST::Value(Value::Number(*n)), false),
            Token::Text(s) => self.operand(AST::Value(Value::Text(s.clone())), false),
            Token::Bool(b) => self.operand(AST::Value(Value::Bool(*b)), false),
            Token::CellName(name) => self.operand(AST::CellName(name.clone()), true),
            Token::FunctionName(name) => {
                if self.expects_operand {
                    let mut b = self;
                    b.called = Some(name.clone());
                    b.after_cell = false;
                    proof {
                        assert(b@.output =~= self@.output);
                        assert(b@.pending =~= self@.pending);
                    }
                    Ok(b)
                } else {
                    Err(ASTCreateError::UnexpectedToken)
                }
            },
            Token::LParen => self.prefix(Entry::Group),
            Token::Not => self.prefix(Entry::Operator(Token::Not)),
            Token::RangeSep => {
                if !self.expects_operand && self.after_cell {
                    let mut b = self;
                    b.in_range = true;
                    b.after_cell = false;
                    proof {
                        assert(b@.output =~= self@.output);
                        assert(b@.pending =~= self@.pending);
                    }
                    Ok(b)
                } else {
                    Err(ASTCreateError::InvalidRange)
                }
            },
            Token::ArgSeparator => self.separator(),
            Token::RParen => self.close(),
            _ => self.binary(token.duplicate()),
        }
    }

    /// See [`Machine::finish`].
    fn finish(self) -> (r: Result<AST<N>, ASTCreateError>)
        ensures
            match self@.finish() {
                Ok(tree) => r is Ok && r->Ok_0@ == tree,
                Err(e) => r == Err::<AST<N>, ASTCreateError>(e),
            },
    {
        if self.called.is_some() || self.expects_operand {
            return Err(ASTCreateError::UnexpectedToken);
        }
        if self.in_range {
            return Err(ASTCreateError::InvalidRange);
        }
        match self.reduce(0) {
            Ok(reduced) => {
                let mut b = reduced;
                if b.pending.len() > 0 {
                    return Err(ASTCreateError::MismatchedParentheses);
                }
                if b.output.len() != 1 {
                    return Err(ASTCreateError::UnexpectedToken);
                }
                match b.output.pop() {
                    Some(tree) => Ok(tree),
                    None => Err(ASTCreateError::UnexpectedToken),
                }
            },
            Err(e) => Err(e),
        }
    }
}

/// The parser of a sequence of tokens.
pub struct ASTCreator<N> {
    tokens: Vec<Token<N>>,
}

impl<N: Numeric> ASTCreator<N> {
    /// The tokens that the parser reads.
    pub closed spec fn input(&self) -> Seq<TokenView<N>> {
        self.tokens@.map_values(|t: Token<N>| t@)
    }

    /// A parser of the given tokens.
    pub fn new(tokens: Vec<Token<N>>) -> (r: Self)
        ensures
            r.input() == tokens@.map_values(|t: Token<N>| t@),
    {
        Self { tokens }
    }

    /// Builds the expression tree of the tokens.
    ///
    /// Fails with `UnexpectedToken` where a token cannot stand where it
    /// stands, with `MismatchedParentheses` where a bracket has no partner,
    /// and with `InvalidRange` where a `:` does not stand between two cell
    /// names.
    pub fn parse(self) -> (r: Result<AST<N>, ASTCreateError>)
        ensures
            match parse_tokens(self.input()) {
                Ok(tree) => r is Ok && r->Ok_0@ == tree,
                Err(e) => r == Err::<AST<N>, ASTCreateError>(e),
            },
            r is Ok ==> r->Ok_0@.well_formed(),
    {
        let ghost all = self.input();
        proof {
            if parse_tokens(all) is Ok {
                lemma_parsed_well_formed(all);
            }
        }
        let mut b: Builder<N> = Builder {
            output: Vec::new(),
            pending: Vec::new(),
            expects_operand: true,
            after_cell: false,
            in_range: false,
            called: None,
        };
        proof {
            assert(b@.output =~= Machine::<N>::initial().output);
            assert(b@.pending =~= Machine::<N>::initial().pending);
            assert(all.subrange(0, 0) =~= Seq::<TokenView<N>>::empty());
        }
        let mut i: usize = 0;
        while i < self.tokens.len()
            invariant
                i <= self.tokens.len(),
                all == self.input(),
                Machine::<N>::initial().run(all.subrange(0, i as int)) == Ok::<
                    Machine<N>,
                    ASTCreateError,
                >(b@),
            decreases self.tokens.len() - i,
        {
            proof {
                let longer = all.subrange(0, i as int + 1);
                assert(longer.drop_last() == all.subrange(0, i as int));
                assert(longer.last() == self.tokens[i as int]@);
            }
            match b.step(&self.tokens[i]) {
                Ok(next) => {
                    b = next;
                },
                Err(e) => {
                    proof {
                        lemma_run_fails(Machine::<N>::initial(), all, i as int + 1);
                    }
                    return Err(e);
                },
            }
            i = i + 1;
        }
        proof {
            assert(all.subrange(0, i as int) == all);
        }
        b.finish()
    }
}

} // verus!
