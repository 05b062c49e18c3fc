use vstd::prelude::*;
use crate::lexer::TokenType;
use crate::parser::ASTNode;

verus! {

/// A constant carried by an instruction.
#[derive(Debug, Clone, PartialEq)]
pub enum Value {
    Int(i64),
    /// A floating-point literal, kept as the digits and `.` it was written with.
    Float(String),
    String(String),
    Bool(bool),
    Null,
}

/// One instruction. Jump targets are absolute indices into the instruction sequence.
#[derive(Debug, Clone, PartialEq)]
pub enum OpCode {
    Constant(Value),
    Pop,
    GetLocal(usize),
    SetLocal(usize),
    GetGlobal(String),
    SetGlobal(String),
    DefineGlobal(String),
    Add,
    Subtract,
    Multiply,
    Divide,
    Negate,
    Equal,
    NotEqual,
    LessThan,
    GreaterThan,
    Jump(usize),
    JumpIfFalse(usize),
    /// Calls with this many arguments.
    Call(usize),
    Return,
    Print,
}

#[derive(Debug, Clone, PartialEq)]
pub enum GenErrorKind {
    UnsupportedOperator,
    /// A local declared twice in one scope; the name.
    VariableRedeclared(String),
    /// A statement where an expression belongs, or the reverse.
    UnexpectedNode,
    /// Blocks nested deeper than a scope counter can count.
    NestingTooDeep,
}

#[derive(Debug, Clone)]
pub struct BytecodeGeneratorError {
    pub kind: GenErrorKind,
    pub message: String,
}

struct LocalVariable {
    name: String,
    depth: usize,
}

/// Every jump lands inside the code or just past its end.
pub open spec fn jumps_in_range(code: Seq<OpCode>) -> bool {
    forall|i: int|
        0 <= i < code.len() ==> match #[trigger] code[i] {
            OpCode::Jump(t) => t <= code.len(),
            OpCode::JumpIfFalse(t) => t <= code.len(),
            _ => true,
        }
}

/// The locals in scope, as (name, depth) pairs in declaration order.
pub type Locals = Seq<(Seq<char>, int)>;

/// The slot of the innermost local called `name`: the last one declared.
pub open spec fn resolve(locals: Locals, name: Seq<char>) -> Option<int>
    decreases locals.len(),
{
    if locals.len() == 0 {
        None
    } else if locals.last().0 == name {
        Some(locals.len() - 1)
    } else {
        resolve(locals.drop_last(), name)
    }
}

pub open spec fn binary_opcode(t: TokenType) -> Option<OpCode> {
    match t {
        TokenType::Plus => Some(OpCode::Add),
        TokenType::Minus => Some(OpCode::Subtract),
        TokenType::Multiply => Some(OpCode::Multiply),
        TokenType::Divide => Some(OpCode::Divide),
        TokenType::Equal => Some(OpCode::Equal),
        TokenType::NotEqual => Some(OpCode::NotEqual),
        TokenType::LessThan => Some(OpCode::LessThan),
        TokenType::GreaterThan => Some(OpCode::GreaterThan),
        _ => None,
    }
}

pub type Gen = Result<Seq<OpCode>, GenErrorKind>;

/// `a` followed by `b`, or the first error of the two.
pub open spec fn followed_by(a: Gen, b: Gen) -> Gen {
    match a {
        Ok(x) => match b {
            Ok(y) => Ok(x + y),
            Err(e) => Err(e),
        },
        Err(e) => Err(e),
    }
}

/// The code of an expression: operands first, left to right, then the operator.
pub open spec fn gen_expr(e: ASTNode, locals: Locals) -> Gen
    decreases e,
{
    match e {
        ASTNode::BinaryExpression { left, operator, right } => followed_by(
            followed_by(gen_expr(*left, locals), gen_expr(*right, locals)),
            match binary_opcode(operator) {
                Some(op) => Ok(seq![op]),
                None => Err(GenErrorKind::UnsupportedOperator),
            },
        ),
        ASTNode::UnaryExpression { operator, operand } => followed_by(
            gen_expr(*operand, locals),
            if operator is Minus {
                Ok(seq![OpCode::Negate])
            } else {
                Err(GenErrorKind::UnsupportedOperator)
            },
        ),
        ASTNode::CallExpression { callee, arguments } => followed_by(
            followed_by(gen_expr(*callee, locals), gen_args(arguments@, locals)),
            Ok(seq![OpCode::Call(arguments.len())]),
        ),
        ASTNode::AssignmentExpression { name, value } => followed_by(
            gen_expr(*value, locals),
            Ok(
                seq![
                    match resolve(locals, name@) {
                        Some(i) => OpCode::SetLocal(i as usize),
                        None => OpCode::SetGlobal(name),
                    },
                ],
            ),
        ),
        ASTNode::IntLiteral(v) => Ok(seq![OpCode::Constant(Value::Int(v))]),
        ASTNode::FloatLiteral(t) => Ok(seq![OpCode::Constant(Value::Float(t))]),
        ASTNode::StringLiteral(t) => Ok(seq![OpCode::Constant(Value::String(t))]),
        ASTNode::Identifier(name) => Ok(
            seq![
                match resolve(locals, name@) {
                    Some(i) => OpCode::GetLocal(i as usize),
                    None => OpCode::GetGlobal(name),
                },
            ],
        ),
        _ => Err(GenErrorKind::UnexpectedNode),
    }
}

/// The code of call arguments, in order.
pub open spec fn gen_args(args: Seq<ASTNode>, locals: Locals) -> Gen
    decreases args,
{
    if args.len() == 0 {
        Ok(Seq::empty())
    } else {
        followed_by(gen_args(args.drop_last(), locals), gen_expr(args.last(), locals))
    }
}

} // verus!

verus! {

/// An error among the first `j` arguments is the error of all of them.
/// A statement's code and the locals in scope after it, or its first error.
pub type StmtGen = Result<(Seq<OpCode>, Locals), GenErrorKind>;

/// Whether a local called `name` was declared at `depth` (the current scope).
pub open spec fn declared_in_scope(locals: Locals, name: Seq<char>, depth: int) -> bool {
    exists|i: int| 0 <= i < locals.len() && #[trigger] locals[i] == (name, depth)
}

/// The code of a statement whose first instruction lands at index `at`, in a
/// scope of the given depth with `locals` in scope. Jumps are absolute: an `if`
/// jumps past its then-branch (and that branch jumps past the else-branch); a
/// `while` tests, runs its body, and jumps back to the test.
pub open spec fn gen_stmt(n: ASTNode, locals: Locals, depth: int, at: int) -> StmtGen
    decreases n,
{
    match n {
        ASTNode::VarDeclaration { var_type: _, name, initializer } => {
            let init = match initializer {
                Some(i) => gen_expr(*i, locals),
                None => Ok(seq![OpCode::Constant(Value::Null)]),
            };
            match init {
                Err(e) => Err(e),
                Ok(c) => if depth == 0 {
                    Ok((c.push(OpCode::DefineGlobal(name)), locals))
                } else if declared_in_scope(locals, name@, depth) {
                    Err(GenErrorKind::VariableRedeclared(name))
                } else {
                    Ok((c, locals.push((name@, depth))))
                },
            }
        },
        ASTNode::Block(statements) => if depth + 1 > usize::MAX {
            Err(GenErrorKind::NestingTooDeep)
        } else {
            match gen_block(statements@, locals, depth + 1, at) {
                Ok((c, inner)) => Ok((c + pops(inner.len() - locals.len()), locals)),
                Err(e) => Err(e),
            }
        },
        ASTNode::ExpressionStatement(e) => match gen_expr(*e, locals) {
            Ok(c) => Ok((c.push(OpCode::Pop), locals)),
            Err(e) => Err(e),
        },
        ASTNode::IfStatement { condition, then_branch, else_branch } => match gen_expr(
            *condition,
            locals,
        ) {
            Err(e) => Err(e),
            Ok(c) => {
                let skip_then = at + c.len();
                match gen_stmt(*then_branch, locals, depth, skip_then + 1) {
                    Err(e) => Err(e),
                    Ok((t, after_then)) => {
                        let skip_else = skip_then + 1 + t.len();
                        match else_branch {
                            None => Ok(
                                (
                                    c + seq![OpCode::JumpIfFalse((skip_else + 1) as usize)] + t
                                        + seq![OpCode::Jump((skip_else + 1) as usize)],
                                    after_then,
                                ),
                            ),
                            Some(e) => match gen_stmt(*e, after_then, depth, skip_else + 1) {
                                Err(x) => Err(x),
                                Ok((f, after_else)) => Ok(
                                    (
                                        c + seq![OpCode::JumpIfFalse((skip_else + 1) as usize)] + t
                                            + seq![OpCode::Jump((skip_else + 1 + f.len()) as usize)]
                                            + f,
                                        after_else,
                                    ),
                                ),
                            },
                        }
                    },
                }
            },
        },
        ASTNode::WhileStatement { condition, body } => match gen_expr(*condition, locals) {
            Err(e) => Err(e),
            Ok(c) => {
                let exit = at + c.len();
                match gen_stmt(*body, locals, depth, exit + 1) {
                    Err(e) => Err(e),
                    Ok((b, after)) => Ok(
                        (
                            c + seq![OpCode::JumpIfFalse((exit + 1 + b.len() + 1) as usize)] + b
                                + seq![OpCode::Jump(at as usize)],
                            after,
                        ),
                    ),
                }
            },
        },
        ASTNode::ReturnStatement(value) => {
            let v = match value {
                Some(e) => gen_expr(*e, locals),
                None => Ok(seq![OpCode::Constant(Value::Null)]),
            };
            match v {
                Ok(c) => Ok((c.push(OpCode::Return), locals)),
                Err(e) => Err(e),
            }
        },
        _ => Err(GenErrorKind::UnexpectedNode),
    }
}

/// The code of a sequence of statements, one after the other.
pub open spec fn gen_block(stmts: Seq<ASTNode>, locals: Locals, depth: int, at: int) -> StmtGen
    decreases stmts,
{
    if stmts.len() == 0 {
        Ok((Seq::empty(), locals))
    } else {
        match gen_block(stmts.drop_last(), locals, depth, at) {
            Err(e) => Err(e),
            Ok((c, l1)) => match gen_stmt(stmts.last(), l1, depth, at + c.len()) {
                Err(e) => Err(e),
                Ok((d, l2)) => Ok((c + d, l2)),
            },
        }
    }
}

/// The code of a whole program, or of a single statement, from an empty state.
pub open spec fn gen_program(ast: ASTNode) -> Gen {
    let r = match ast {
        ASTNode::Program(statements) => gen_block(statements@, Seq::empty(), 0, 0),
        _ => gen_stmt(ast, Seq::empty(), 0, 0),
    };
    match r {
        Ok((c, _)) => Ok(c),
        Err(e) => Err(e),
    }
}

proof fn lemma_gen_args_err(args: Seq<ASTNode>, locals: Locals, j: int)
    requires
        0 <= j <= args.len(),
        gen_args(args.take(j), locals) is Err,
    ensures
        gen_args(args, locals) == gen_args(args.take(j), locals),
    decreases args.len() - j,
{
    if j < args.len() {
        assert(args.take(j + 1).drop_last() =~= args.take(j));
        lemma_gen_args_err(args, locals, j + 1);
    } else {
        assert(args.take(j) =~= args);
    }
}

/// An error among the first `j` statements is the error of all of them.
proof fn lemma_gen_block_err(stmts: Seq<ASTNode>, locals: Locals, depth: int, at: int, j: int)
    requires
        0 <= j <= stmts.len(),
        gen_block(stmts.take(j), locals, depth, at) is Err,
    ensures
        gen_block(stmts, locals, depth, at) == gen_block(stmts.take(j), locals, depth, at),
    decreases stmts.len() - j,
{
    if j < stmts.len() {
        assert(stmts.take(j + 1).drop_last() =~= stmts.take(j));
        lemma_gen_block_err(stmts, locals, depth, at, j + 1);
    } else {
        assert(stmts.take(j) =~= stmts);
    }
}

proof fn lemma_resolve_last(l: Locals, name: Seq<char>, i: int)
    requires
        0 <= i < l.len(),
        l[i].0 == name,
        forall|j: int| i < j < l.len() ==> #[trigger] l[j].0 != name,
    ensures
        resolve(l, name) == Some(i),
    decreases l.len(),
{
    if i < l.len() - 1 {
        assert(l.drop_last()[i] == l[i]);
        lemma_resolve_last(l.drop_last(), name, i);
    }
}

proof fn lemma_resolve_none(l: Locals, name: Seq<char>)
    requires
        forall|j: int| 0 <= j < l.len() ==> #[trigger] l[j].0 != name,
    ensures
        resolve(l, name) is None,
    decreases l.len(),
{
    if l.len() > 0 {
        lemma_resolve_none(l.drop_last(), name);
    }
}

/// Walks a syntax tree once and emits the instruction sequence.
pub struct BytecodeGenerator {
    code: Vec<OpCode>,
    locals: Vec<LocalVariable>,
    scope_depth: usize,
}

impl BytecodeGenerator {
    pub closed spec fn code_seq(&self) -> Seq<OpCode> {
        self.code@
    }

    pub closed spec fn depth(&self) -> int {
        self.scope_depth as int
    }

    /// Names of the visible locals, in declaration order: their positions are their slots.
    pub closed spec fn local_names(&self) -> Seq<Seq<char>> {
        self.locals@.map_values(|l: LocalVariable| l.name@)
    }

    /// The locals in scope, as (name, depth) pairs.
    pub closed spec fn locals_view(&self) -> Locals {
        self.locals@.map_values(|l: LocalVariable| (l.name@, l.depth as int))
    }

    /// Locals sit at depths from 1 up to the current one, innermost last; jumps are in range.
    pub closed spec fn wf(&self) -> bool {
        &&& forall|i: int|
            0 <= i < self.locals.len() ==> 1 <= #[trigger] self.locals@[i].depth
                <= self.scope_depth
        &&& forall|i: int, j: int|
            0 <= i < j < self.locals.len() ==> #[trigger] self.locals@[i].depth
                <= #[trigger] self.locals@[j].depth
        &&& jumps_in_range(self.code@)
    }

    pub fn new() -> (g: BytecodeGenerator)
        ensures
            g.wf(),
            g.code_seq().len() == 0,
            g.local_names().len() == 0,
            g.depth() == 0,
    {
        BytecodeGenerator { code: Vec::new(), locals: Vec::new(), scope_depth: 0 }
    }

    /// Appends one instruction and returns its index.
    fn emit(&mut self, op: OpCode) -> (i: usize)
        requires
            old(self).wf(),
            match op {
                OpCode::Jump(t) => t <= old(self).code.len() + 1,
                OpCode::JumpIfFalse(t) => t <= old(self).code.len() + 1,
                _ => true,
            },
        ensures
            final(self).wf(),
            final(self).code@ == old(self).code@.push(op),
            final(self).locals@ == old(self).locals@,
            final(self).scope_depth == old(self).scope_depth,
            i == old(self).code.len(),
    {
        self.code.push(op);
        assert(jumps_in_range(self.code@)) by {
            assert forall|j: int| 0 <= j < self.code@.len() implies match #[trigger] self.code@[j] {
                OpCode::Jump(t) => t <= self.code@.len(),
                OpCode::JumpIfFalse(t) => t <= self.code@.len(),
                _ => true,
            } by {
                if j < old(self).code@.len() {
                    assert(self.code@[j] == old(self).code@[j]);
                }
            }
        }
        self.code.len() - 1
    }

    /// Points the jump at `at` to the current end of the code.
    fn patch_jump(&mut self, at: usize)
        requires
            old(self).wf(),
            at < old(self).code.len(),
            old(self).code@[at as int] is Jump || old(self).code@[at as int] is JumpIfFalse,
        ensures
            final(self).wf(),
            final(self).code@ == old(self).code@.update(
                at as int,
                match old(self).code@[at as int] {
                    OpCode::Jump(_) => OpCode::Jump(old(self).code.len()),
                    _ => OpCode::JumpIfFalse(old(self).code.len()),
                },
            ),
            final(self).locals@ == old(self).locals@,
            final(self).scope_depth == old(self).scope_depth,
    {
        let target = self.code.len();
        let patched = match &self.code[at] {
            OpCode::Jump(_) => OpCode::Jump(target),
            _ => OpCode::JumpIfFalse(target),
        };
        self.code.set(at, patched);
        assert(jumps_in_range(self.code@)) by {
            assert forall|j: int| 0 <= j < self.code@.len() implies match #[trigger] self.code@[j] {
                OpCode::Jump(t) => t <= self.code@.len(),
                OpCode::JumpIfFalse(t) => t <= self.code@.len(),
                _ => true,
            } by {
                if j != at {
                    assert(self.code@[j] == old(self).code@[j]);
                }
            }
        }
    }

    /// The slot of the innermost visible local called `name`, if any.
    fn resolve_local(&self, name: &String) -> (r: Option<usize>)
        ensures
            match r {
                Some(i) => i < self.locals.len() && self.local_names()[i as int] == name@
                    && forall|j: int| i < j < self.locals.len() ==> self.local_names()[j] != name@,
                None => forall|j: int|
                    0 <= j < self.locals.len() ==> self.local_names()[j] != name@,
            },
            match r {
                Some(i) => resolve(self.locals_view(), name@) == Some(i as int),
                None => resolve(self.locals_view(), name@) is None,
            },
    {
        proof {
            assert forall|j: int| 0 <= j < self.locals.len() implies #[trigger] self.locals_view()[j].0
                == self.local_names()[j] by {}
        }
        let mut i = self.locals.len();
        while i > 0
            invariant
                i <= self.locals.len(),
                forall|j: int| i <= j < self.locals.len() ==> self.local_names()[j] != name@,
                forall|j: int| i <= j < self.locals.len() ==> #[trigger] self.locals_view()[j].0 != name@,
            decreases i,
        {
            i = i - 1;
            assert(self.locals_view()[i as int].0 == self.locals@[i as int].name@);
            if self.locals[i].name == *name {
                proof {
                    lemma_resolve_last(self.locals_view(), name@, i as int);
                }
                return Some(i);
            }
        }
        proof {
            lemma_resolve_none(self.locals_view(), name@);
        }
        None
    }
}


fn gen_error(kind: GenErrorKind, message: &str) -> (e: BytecodeGeneratorError)
    ensures
        e.kind == kind,
        e.message@ == message@,
{
    BytecodeGeneratorError { kind, message: String::from_str(message) }
}

/// `m` pops.
pub open spec fn pops(m: int) -> Seq<OpCode> {
    Seq::new(m as nat, |i: int| OpCode::Pop)
}

impl BytecodeGenerator {
    /// The code grew at its end and kept what it had; locals and depth are as before.
    spec fn grew(&self, old: &BytecodeGenerator) -> bool {
        &&& old.code.len() <= self.code.len()
        &&& forall|i: int| 0 <= i < old.code.len() ==> #[trigger] self.code@[i] == old.code@[i]
        &&& self.scope_depth == old.scope_depth
    }

    /// Locals are those from before, then possibly more at the current depth.
    spec fn kept_locals(&self, old: &BytecodeGenerator) -> bool {
        &&& old.locals.len() <= self.locals.len()
        &&& forall|i: int| 0 <= i < old.locals.len() ==> #[trigger] self.locals@[i] == old.locals@[i]
        &&& forall|j: int|
            old.locals.len() <= j < self.locals.len() ==> #[trigger] self.locals@[j].depth
                == self.scope_depth
    }

    /// Leaves the innermost scope: one `Pop` per local declared in it, innermost first.
    fn end_scope(&mut self)
        requires
            old(self).wf(),
            old(self).scope_depth > 0,
        ensures
            final(self).wf(),
            final(self).scope_depth == old(self).scope_depth - 1,
            exists|k: int|
                0 <= k <= old(self).locals.len() && final(self).locals@ == old(self).locals@.subrange(0, k)
                    && (forall|i: int| 0 <= i < k ==> #[trigger] old(self).locals@[i].depth <= final(self).scope_depth)
                    && (forall|i: int| k <= i < old(self).locals.len() ==> #[trigger] old(self).locals@[i].depth > final(self).scope_depth)
                    && final(self).code@ == old(self).code@ + pops(old(self).locals.len() - k),
    {
        self.scope_depth = self.scope_depth - 1;
        let ghost n = self.locals.len();
        while self.locals.len() > 0 && self.locals[self.locals.len() - 1].depth > self.scope_depth
            invariant
                self.scope_depth == old(self).scope_depth - 1,
                old(self).wf(),
                self.locals.len() <= n,
                n == old(self).locals.len(),
                self.locals@ == old(self).locals@.subrange(0, self.locals.len() as int),
                forall|i: int| self.locals.len() <= i < n ==> #[trigger] old(self).locals@[i].depth > self.scope_depth,
                self.code@ == old(self).code@ + pops(n - self.locals.len()),
            decreases self.locals.len(),
        {
            let ghost before = self.code@;
            self.code.push(OpCode::Pop);
            self.locals.pop();
            assert(self.code@ =~= old(self).code@ + pops(n - self.locals.len()));
        }
        let ghost k = self.locals.len() as int;
        assert(forall|i: int| 0 <= i < k ==> #[trigger] old(self).locals@[i].depth <= self.scope_depth) by {
            if k > 0 {
                assert(self.locals@[k - 1] == old(self).locals@[k - 1]);
                assert forall|i: int| 0 <= i < k implies #[trigger] old(self).locals@[i].depth <= self.scope_depth by {
                    if i < k - 1 {
                        assert(old(self).locals@[i].depth <= old(self).locals@[k - 1].depth);
                    }
                }
            }
        }
        assert(jumps_in_range(self.code@)) by {
            assert forall|i: int| 0 <= i < self.code@.len() implies match #[trigger] self.code@[i] {
                OpCode::Jump(t) => t <= self.code@.len(),
                OpCode::JumpIfFalse(t) => t <= self.code@.len(),
                _ => true,
            } by {
                if i < old(self).code@.len() {
                    assert(self.code@[i] == old(self).code@[i]);
                }
            }
        }
    }

    /// Declares `name` in the current scope: a global at depth 0, else a new local.
    fn declare_variable(&mut self, name: String) -> (r: Result<(), BytecodeGeneratorError>)
        requires
            old(self).wf(),
        ensures
            final(self).wf(),
            final(self).scope_depth == old(self).scope_depth,
            old(self).scope_depth == 0 ==> r is Ok && final(self).code@ == old(self).code@.push(
                OpCode::DefineGlobal(name),
            ) && final(self).locals@ == old(self).locals@,
            old(self).scope_depth > 0 ==> final(self).code@ == old(self).code@ && (r is Err
                <==> exists|i: int|
                0 <= i < old(self).locals.len() && #[trigger] old(self).locals@[i].depth
                    == old(self).scope_depth && old(self).locals@[i].name@ == name@),
            old(self).scope_depth > 0 && r is Ok ==> final(self).locals@.len() == old(self).locals@.len() + 1
                && final(self).locals@.subrange(0, old(self).locals.len() as int) == old(self).locals@
                && final(self).locals@.last().name@ == name@
                && final(self).locals@.last().depth == old(self).scope_depth,
            old(self).scope_depth > 0 && r is Err ==> final(self).locals@ == old(self).locals@ && r->Err_0.kind == GenErrorKind::VariableRedeclared(name),
    {
        if self.scope_depth == 0 {
            self.code.push(OpCode::DefineGlobal(name));
            assert(jumps_in_range(self.code@)) by {
                assert forall|i: int| 0 <= i < self.code@.len() implies match #[trigger] self.code@[i] {
                    OpCode::Jump(t) => t <= self.code@.len(),
                    OpCode::JumpIfFalse(t) => t <= self.code@.len(),
                    _ => true,
                } by {
                    if i < old(self).code@.len() {
                        assert(self.code@[i] == old(self).code@[i]);
                    }
                }
            }
            return Ok(());
        }
        let mut i = self.locals.len();
        let mut clash = false;
        while i > 0 && !clash
            invariant
                i <= self.locals.len(),
                self.locals@ == old(self).locals@,
                self.code@ == old(self).code@,
                self.scope_depth == old(self).scope_depth,
                self.scope_depth > 0,
                old(self).wf(),
                clash ==> i < self.locals.len() && self.locals@[i as int].depth == self.scope_depth
                    && self.locals@[i as int].name@ == name@,
                !clash ==> forall|j: int|
                    i <= j < self.locals.len() && self.locals@[j].depth == self.scope_depth
                        ==> #[trigger] self.locals@[j].name@ != name@,
            decreases i,
        {
            if self.locals[i - 1].depth < self.scope_depth {
                assert forall|j: int| 0 <= j < i implies #[trigger] self.locals@[j].depth
                    < self.scope_depth by {
                    if j < i - 1 {
                        assert(self.locals@[j].depth <= self.locals@[i - 1].depth);
                    }
                }
                i = 0;
            } else {
                if self.locals[i - 1].name == name {
                    clash = true;
                }
                i = i - 1;
            }
        }
        if clash {
            return Err(
                BytecodeGeneratorError {
                    kind: GenErrorKind::VariableRedeclared(name),
                    message: String::from_str("Variable already declared in this scope"),
                },
            );
        }
        self.locals.push(LocalVariable { name, depth: self.scope_depth });
        Ok(())
    }
}


impl BytecodeGenerator {
    fn generate_expression(&mut self, node: &ASTNode) -> (r: Result<(), BytecodeGeneratorError>)
        requires
            old(self).wf(),
        ensures
            final(self).wf(),
            final(self).grew(old(self)),
            final(self).locals@ == old(self).locals@,
            match gen_expr(*node, old(self).locals_view()) {
                Ok(c) => r is Ok && final(self).code@ == old(self).code@ + c,
                Err(k) => r is Err && r->Err_0.kind == k,
            },
        decreases node,
    {
        let ghost c0 = self.code@;
        let ghost l = self.locals_view();
        match node {
            ASTNode::BinaryExpression { left, operator, right } => {
                self.generate_expression(&**left)?;
                let ghost c1 = self.code@;
                self.generate_expression(&**right)?;
                let ghost c2 = self.code@;
                let op = match operator {
                    TokenType::Plus => OpCode::Add,
                    TokenType::Minus => OpCode::Subtract,
                    TokenType::Multiply => OpCode::Multiply,
                    TokenType::Divide => OpCode::Divide,
                    TokenType::Equal => OpCode::Equal,
                    TokenType::NotEqual => OpCode::NotEqual,
                    TokenType::LessThan => OpCode::LessThan,
                    TokenType::GreaterThan => OpCode::GreaterThan,
                    _ => {
                        return Err(
                            gen_error(GenErrorKind::UnsupportedOperator, "Unsupported binary operator"),
                        );
                    },
                };
                self.emit(op);
                proof {
                    let cl = gen_expr(**left, l)->Ok_0;
                    let cr = gen_expr(**right, l)->Ok_0;
                    assert(self.code@ =~= c0 + ((cl + cr) + seq![op]));
                }
            },
            ASTNode::UnaryExpression { operator, operand } => {
                self.generate_expression(&**operand)?;
                match operator {
                    TokenType::Minus => {
                        self.emit(OpCode::Negate);
                        proof {
                            let co = gen_expr(**operand, l)->Ok_0;
                            assert(self.code@ =~= c0 + (co + seq![OpCode::Negate]));
                        }
                    },
                    _ => {
                        return Err(
                            gen_error(GenErrorKind::UnsupportedOperator, "Unsupported unary operator"),
                        );
                    },
                }
            },
            ASTNode::CallExpression { callee, arguments } => {
                self.generate_expression(&**callee)?;
                let ghost c1 = self.code@;
                proof {
                    assert forall|j: int| 0 <= j < arguments.len() implies decreases_to!(*node => #[trigger] arguments[j]) by {
                        vstd::std_specs::vec::axiom_vec_index_decreases(*arguments, j);
                        assert(decreases_to!(*node => *arguments));
                    }
                    assert(arguments@.take(0) =~= Seq::<ASTNode>::empty());
                }
                let mut i: usize = 0;
                while i < arguments.len()
                    invariant
                        self.wf(),
                        self.grew(old(self)),
                        self.locals@ == old(self).locals@,
                        l == old(self).locals_view(),
                        i <= arguments.len(),
                        forall|j: int| 0 <= j < arguments.len() ==> decreases_to!(*node => #[trigger] arguments[j]),
                        gen_args(arguments@.take(i as int), l) is Ok,
                        gen_expr(**callee, l) is Ok,
                        gen_expr(*node, l) == followed_by(
                            followed_by(gen_expr(**callee, l), gen_args(arguments@, l)),
                            Ok(seq![OpCode::Call(arguments.len())]),
                        ),
                        self.code@ == c1 + gen_args(arguments@.take(i as int), l)->Ok_0,
                    decreases arguments.len() - i,
                {
                    let ghost before = self.code@;
                    proof {
                        assert(arguments@.take(i + 1).drop_last() =~= arguments@.take(i as int));
                        assert(arguments@.take(i + 1).last() == arguments@[i as int]);
                    }
                    match self.generate_expression(&arguments[i]) {
                        Ok(()) => {},
                        Err(e) => {
                            proof {
                                assert(gen_expr(arguments@[i as int], l) is Err);
                                assert(gen_args(arguments@.take(i + 1), l) == gen_expr(arguments@[i as int], l));
                                lemma_gen_args_err(arguments@, l, i + 1);
                                assert(gen_args(arguments@, l) == gen_expr(arguments@[i as int], l));
                            }
                            return Err(e);
                        },
                    }
                    proof {
                        let prev = gen_args(arguments@.take(i as int), l)->Ok_0;
                        let d = gen_expr(arguments@[i as int], l)->Ok_0;
                        assert(self.code@ =~= c1 + (prev + d));
                    }
                    i = i + 1;
                }
                self.emit(OpCode::Call(arguments.len()));
                proof {
                    assert(arguments@.take(i as int) =~= arguments@);
                    let cc = gen_expr(**callee, l)->Ok_0;
                    let ca = gen_args(arguments@, l)->Ok_0;
                    assert(self.code@ =~= c0 + ((cc + ca) + seq![OpCode::Call(arguments.len())]));
                }
            },
            ASTNode::AssignmentExpression { name, value } => {
                self.generate_expression(&**value)?;
                let ghost c1 = self.code@;
                let op = match self.resolve_local(name) {
                    Some(slot) => OpCode::SetLocal(slot),
                    None => OpCode::SetGlobal(name.clone()),
                };
                self.emit(op);
                proof {
                    let cv = gen_expr(**value, l)->Ok_0;
                    assert(self.code@ =~= c0 + (cv + seq![op]));
                }
            },
            ASTNode::IntLiteral(v) => {
                self.emit(OpCode::Constant(Value::Int(*v)));
            },
            ASTNode::FloatLiteral(text) => {
                self.emit(OpCode::Constant(Value::Float(text.clone())));
            },
            ASTNode::StringLiteral(text) => {
                self.emit(OpCode::Constant(Value::String(text.clone())));
            },
            ASTNode::Identifier(name) => {
                let op = match self.resolve_local(name) {
                    Some(slot) => OpCode::GetLocal(slot),
                    None => OpCode::GetGlobal(name.clone()),
                };
                self.emit(op);
            },
            _ => {
                return Err(
                    gen_error(GenErrorKind::UnexpectedNode, "Unexpected node in expression context"),
                );
            },
        }
        Ok(())
    }
}


impl BytecodeGenerator {
    fn generate_statement(&mut self, node: &ASTNode) -> (r: Result<(), BytecodeGeneratorError>)
        requires
            old(self).wf(),
        ensures
            final(self).wf(),
            r is Ok ==> final(self).grew(old(self)) && final(self).kept_locals(old(self)),
            match gen_stmt(
                *node,
                old(self).locals_view(),
                old(self).scope_depth as int,
                old(self).code.len() as int,
            ) {
                Ok((c, l)) => r is Ok && final(self).code@ == old(self).code@ + c
                    && final(self).locals_view() == l,
                Err(k) => r is Err && r->Err_0.kind == k,
            },
        decreases node, 1nat,
    {
        let ghost c0 = self.code@;
        let ghost l0 = self.locals_view();
        let ghost d = self.scope_depth as int;
        let ghost at = self.code.len() as int;
        match node {
            ASTNode::VarDeclaration { .. } => self.generate_var_declaration(node),
            ASTNode::Block(_) => self.generate_block(node),
            ASTNode::IfStatement { .. } => self.generate_if(node),
            ASTNode::WhileStatement { .. } => self.generate_while(node),
            _ => self.generate_simple_statement(node),
        }
    }

    #[verifier::rlimit(50)]
    fn generate_var_declaration(&mut self, node: &ASTNode) -> (r: Result<(), BytecodeGeneratorError>)
        requires
            old(self).wf(),
            node is VarDeclaration,
        ensures
            final(self).wf(),
            r is Ok ==> final(self).grew(old(self)) && final(self).kept_locals(old(self)),
            match gen_stmt(
                *node,
                old(self).locals_view(),
                old(self).scope_depth as int,
                old(self).code.len() as int,
            ) {
                Ok((c, l)) => r is Ok && final(self).code@ == old(self).code@ + c
                    && final(self).locals_view() == l,
                Err(k) => r is Err && r->Err_0.kind == k,
            },
        decreases node, 0nat,
    {
        let ghost c0 = self.code@;
        let ghost l0 = self.locals_view();
        let ghost d = self.scope_depth as int;
        let ghost at = self.code.len() as int;
        match node {
            ASTNode::VarDeclaration { var_type: _, name, initializer } => {
                match initializer {
                    Some(init) => {
                        self.generate_expression(&**init)?;
                    },
                    None => {
                        self.emit(OpCode::Constant(Value::Null));
                    },
                }
                let ghost c1 = self.code@;
                let ghost mid = *self;
                match self.declare_variable(name.clone()) {
                    Ok(()) => {},
                    Err(e) => {
                        proof {
                            let i = choose|i: int|
                                0 <= i < mid.locals.len() && #[trigger] mid.locals@[i].depth == d
                                    && mid.locals@[i].name@ == name@;
                            assert(l0[i] == (name@, d));
                        }
                        return Err(e);
                    },
                }
                proof {
                    let c = c1.subrange(c0.len() as int, c1.len() as int);
                    assert(c1 =~= c0 + c);
                    if d == 0 {
                        assert(self.code@ =~= c0 + c.push(OpCode::DefineGlobal(*name)));
                        assert(self.locals_view() =~= l0);
                    } else {
                        assert(self.code@ =~= c0 + c);
                        assert(!declared_in_scope(l0, name@, d)) by {
                            if declared_in_scope(l0, name@, d) {
                                let i = choose|i: int| 0 <= i < l0.len() && #[trigger] l0[i] == (name@, d);
                                assert(mid.locals@[i].depth == d && mid.locals@[i].name@ == name@);
                            }
                        }
                        assert(self.locals_view() =~= l0.push((name@, d)));
                    }
                }
            },
            _ => {},
        }
        Ok(())
    }

    #[verifier::rlimit(50)]
    fn generate_block(&mut self, node: &ASTNode) -> (r: Result<(), BytecodeGeneratorError>)
        requires
            old(self).wf(),
            node is Block,
        ensures
            final(self).wf(),
            r is Ok ==> final(self).grew(old(self)) && final(self).kept_locals(old(self)),
            match gen_stmt(
                *node,
                old(self).locals_view(),
                old(self).scope_depth as int,
                old(self).code.len() as int,
            ) {
                Ok((c, l)) => r is Ok && final(self).code@ == old(self).code@ + c
                    && final(self).locals_view() == l,
                Err(k) => r is Err && r->Err_0.kind == k,
            },
        decreases node, 0nat,
    {
        let ghost c0 = self.code@;
        let ghost l0 = self.locals_view();
        let ghost d = self.scope_depth as int;
        let ghost at = self.code.len() as int;
        match node {
            ASTNode::Block(statements) => {
                if self.scope_depth == usize::MAX {
                    return Err(gen_error(GenErrorKind::NestingTooDeep, "Blocks nested too deeply"));
                }
                proof {
                    assert forall|j: int| 0 <= j < statements.len() implies decreases_to!(*node => #[trigger] statements[j]) by {
                        vstd::std_specs::vec::axiom_vec_index_decreases(*statements, j);
                        assert(decreases_to!(*node => *statements));
                    }
                    assert(statements@.take(0) =~= Seq::<ASTNode>::empty());
                }
                self.scope_depth = self.scope_depth + 1;
                let mut i: usize = 0;
                while i < statements.len()
                    invariant
                        self.wf(),
                        self.scope_depth == old(self).scope_depth + 1,
                        old(self).code.len() <= self.code.len(),
                        forall|k: int| 0 <= k < old(self).code.len() ==> #[trigger] self.code@[k] == old(self).code@[k],
                        old(self).locals.len() <= self.locals.len(),
                        forall|k: int| 0 <= k < old(self).locals.len() ==> #[trigger] self.locals@[k] == old(self).locals@[k],
                        forall|k: int| old(self).locals.len() <= k < self.locals.len() ==> #[trigger] self.locals@[k].depth == self.scope_depth,
                        old(self).wf(),
                        i <= statements.len(),
                        forall|j: int| 0 <= j < statements.len() ==> decreases_to!(*node => #[trigger] statements[j]),
                        c0 == old(self).code@,
                        l0 == old(self).locals_view(),
                        d == old(self).scope_depth,
                        at == old(self).code.len(),
                        gen_stmt(*node, l0, d, at) == (match gen_block(statements@, l0, d + 1, at) {
                            Ok((c, inner)) => Ok((c + pops(inner.len() - l0.len()), l0)),
                            Err(e) => Err(e),
                        }),
                        gen_block(statements@.take(i as int), l0, d + 1, at) is Ok,
                        self.code@ == c0 + gen_block(statements@.take(i as int), l0, d + 1, at)->Ok_0.0,
                        self.locals_view() == gen_block(statements@.take(i as int), l0, d + 1, at)->Ok_0.1,
                    decreases statements.len() - i,
                {
                    proof {
                        assert(statements@.take(i + 1).drop_last() =~= statements@.take(i as int));
                        assert(statements@.take(i + 1).last() == statements@[i as int]);
                    }
                    match self.generate_statement(&statements[i]) {
                        Ok(()) => {},
                        Err(e) => {
                            proof {
                                lemma_gen_block_err(statements@, l0, d + 1, at, i + 1);
                            }
                            return Err(e);
                        },
                    }
                    proof {
                        let prev = gen_block(statements@.take(i as int), l0, d + 1, at)->Ok_0.0;
                        let step = gen_stmt(
                            statements@[i as int],
                            gen_block(statements@.take(i as int), l0, d + 1, at)->Ok_0.1,
                            d + 1,
                            at + prev.len(),
                        )->Ok_0.0;
                        assert(self.code@ =~= c0 + (prev + step));
                    }
                    i = i + 1;
                }
                let ghost body = self.code@;
                let ghost inner = self.locals@;
                let ghost inner_view = self.locals_view();
                self.end_scope();
                proof {
                    assert(statements@.take(i as int) =~= statements@);
                    let k = choose|k: int|
                        0 <= k <= inner.len() && self.locals@ == inner.subrange(0, k)
                            && (forall|i: int| 0 <= i < k ==> #[trigger] inner[i].depth <= self.scope_depth)
                            && (forall|i: int| k <= i < inner.len() ==> #[trigger] inner[i].depth > self.scope_depth);
                    let n = old(self).locals.len() as int;
                    if k < n {
                        assert(inner[k] == old(self).locals@[k]);
                        assert(old(self).locals@[k].depth <= old(self).scope_depth);
                    }
                    if k > n {
                        assert(inner[n].depth == old(self).scope_depth + 1);
                    }
                    assert(self.locals@ =~= old(self).locals@);
                    assert(self.locals_view() =~= l0);
                    assert(inner_view.len() == inner.len());
                    assert(self.code@ =~= c0 + (gen_block(statements@, l0, d + 1, at)->Ok_0.0 + pops(
                        inner_view.len() - l0.len(),
                    )));
                }
            },
            _ => {},
        }
        Ok(())
    }

    #[verifier::rlimit(50)]
    fn generate_if(&mut self, node: &ASTNode) -> (r: Result<(), BytecodeGeneratorError>)
        requires
            old(self).wf(),
            node is IfStatement,
        ensures
            final(self).wf(),
            r is Ok ==> final(self).grew(old(self)) && final(self).kept_locals(old(self)),
            match gen_stmt(
                *node,
                old(self).locals_view(),
                old(self).scope_depth as int,
                old(self).code.len() as int,
            ) {
                Ok((c, l)) => r is Ok && final(self).code@ == old(self).code@ + c
                    && final(self).locals_view() == l,
                Err(k) => r is Err && r->Err_0.kind == k,
            },
        decreases node, 0nat,
    {
        let ghost c0 = self.code@;
        let ghost l0 = self.locals_view();
        let ghost d = self.scope_depth as int;
        let ghost at = self.code.len() as int;
        match node {
            ASTNode::IfStatement { condition, then_branch, else_branch } => {
                self.generate_expression(&**condition)?;
                let ghost c = gen_expr(**condition, l0)->Ok_0;
                let jump_if_false = self.emit(OpCode::JumpIfFalse(0));
                let ghost c2 = self.code@;
                self.generate_statement(&**then_branch)?;
                let ghost t = gen_stmt(**then_branch, l0, d, at + c.len() + 1)->Ok_0.0;
                let ghost c3 = self.code@;
                let jump = self.emit(OpCode::Jump(0));
                self.patch_jump(jump_if_false);
                let ghost c4 = self.code@;
                proof {
                    assert(c4 =~= c0 + c + seq![OpCode::JumpIfFalse((jump + 1) as usize)] + t + seq![OpCode::Jump(0)]);
                }
                match else_branch {
                    Some(else_stmt) => {
                        self.generate_statement(&**else_stmt)?;
                    },
                    None => {},
                }
                let ghost c5 = self.code@;
                self.patch_jump(jump);
                proof {
                    let f = c5.subrange(c4.len() as int, c5.len() as int);
                    assert(c5 =~= c4 + f);
                    match else_branch {
                        Some(e) => {
                            assert(f == gen_stmt(**e, gen_stmt(**then_branch, l0, d, at + c.len() + 1)->Ok_0.1, d, at + c.len() + 1 + t.len() + 1)->Ok_0.0);
                        },
                        None => {
                            assert(f =~= Seq::<OpCode>::empty());
                        },
                    }
                    assert(self.code@ =~= c0 + (c + seq![OpCode::JumpIfFalse((jump + 1) as usize)] + t
                        + seq![OpCode::Jump(c5.len() as usize)] + f));
                }
            },
            _ => {},
        }
        Ok(())
    }

    #[verifier::rlimit(50)]
    fn generate_while(&mut self, node: &ASTNode) -> (r: Result<(), BytecodeGeneratorError>)
        requires
            old(self).wf(),
            node is WhileStatement,
        ensures
            final(self).wf(),
            r is Ok ==> final(self).grew(old(self)) && final(self).kept_locals(old(self)),
            match gen_stmt(
                *node,
                old(self).locals_view(),
                old(self).scope_depth as int,
                old(self).code.len() as int,
            ) {
                Ok((c, l)) => r is Ok && final(self).code@ == old(self).code@ + c
                    && final(self).locals_view() == l,
                Err(k) => r is Err && r->Err_0.kind == k,
            },
        decreases node, 0nat,
    {
        let ghost c0 = self.code@;
        let ghost l0 = self.locals_view();
        let ghost d = self.scope_depth as int;
        let ghost at = self.code.len() as int;
        match node {
            ASTNode::WhileStatement { condition, body } => {
                let loop_start = self.code.len();
                self.generate_expression(&**condition)?;
                let ghost c = gen_expr(**condition, l0)->Ok_0;
                let exit_jump = self.emit(OpCode::JumpIfFalse(0));
                self.generate_statement(&**body)?;
                let ghost b = gen_stmt(**body, l0, d, at + c.len() + 1)->Ok_0.0;
                self.emit(OpCode::Jump(loop_start));
                let ghost c3 = self.code@;
                self.patch_jump(exit_jump);
                proof {
                    assert(self.code@ =~= c0 + (c + seq![OpCode::JumpIfFalse(c3.len() as usize)] + b
                        + seq![OpCode::Jump(loop_start)]));
                }
            },
            _ => {},
        }
        Ok(())
    }

    fn generate_simple_statement(&mut self, node: &ASTNode) -> (r: Result<(), BytecodeGeneratorError>)
        requires
            old(self).wf(),
            !(node is VarDeclaration || node is Block || node is IfStatement || node is WhileStatement),
        ensures
            final(self).wf(),
            r is Ok ==> final(self).grew(old(self)) && final(self).kept_locals(old(self)),
            match gen_stmt(
                *node,
                old(self).locals_view(),
                old(self).scope_depth as int,
                old(self).code.len() as int,
            ) {
                Ok((c, l)) => r is Ok && final(self).code@ == old(self).code@ + c
                    && final(self).locals_view() == l,
                Err(k) => r is Err && r->Err_0.kind == k,
            },
        decreases node, 0nat,
    {
        let ghost c0 = self.code@;
        let ghost l0 = self.locals_view();
        let ghost d = self.scope_depth as int;
        let ghost at = self.code.len() as int;
        match node {
            ASTNode::ExpressionStatement(expr) => {
                self.generate_expression(&**expr)?;
                self.emit(OpCode::Pop);
                proof {
                    let c = gen_expr(**expr, l0)->Ok_0;
                    assert(self.code@ =~= c0 + c.push(OpCode::Pop));
                }
            },
            ASTNode::ReturnStatement(value) => {
                match value {
                    Some(expr) => {
                        self.generate_expression(&**expr)?;
                    },
                    None => {
                        self.emit(OpCode::Constant(Value::Null));
                    },
                }
                let ghost c1 = self.code@;
                self.emit(OpCode::Return);
                proof {
                    let c = c1.subrange(c0.len() as int, c1.len() as int);
                    assert(c1 =~= c0 + c);
                    assert(self.code@ =~= c0 + c.push(OpCode::Return));
                }
            },
            _ => {
                return Err(
                    gen_error(GenErrorKind::UnexpectedNode, "Unexpected node in statement context"),
                );
            },
        }
        Ok(())
    }

    /// Emits the code of a program (or of a single statement) and returns the
    /// instruction sequence. From a fresh generator that is exactly the
    /// program's code, or its first error.
    pub fn generate(&mut self, ast: ASTNode) -> (r: Result<Vec<OpCode>, BytecodeGeneratorError>)
        requires
            old(self).wf(),
        ensures
            r matches Ok(code) ==> jumps_in_range(code@),
            old(self).code_seq().len() == 0 && old(self).local_names().len() == 0 && old(self).depth()
                == 0 ==> match gen_program(ast) {
                Ok(c) => r is Ok && r->Ok_0@ == c,
                Err(k) => r is Err && r->Err_0.kind == k,
            },
    {
        let ghost fresh = self.code@.len() == 0 && self.locals@.len() == 0 && self.scope_depth == 0;
        proof {
            if fresh {
                assert(self.locals_view() =~= Seq::<(Seq<char>, int)>::empty());
            }
        }
        match &ast {
            ASTNode::Program(statements) => {
                proof {
                    assert(statements@.take(0) =~= Seq::<ASTNode>::empty());
                }
                let mut i: usize = 0;
                while i < statements.len()
                    invariant
                        self.wf(),
                        i <= statements.len(),
                        fresh == (old(self).code@.len() == 0 && old(self).locals@.len() == 0
                            && old(self).scope_depth == 0),
                        fresh ==> self.scope_depth == 0,
                        fresh ==> gen_block(statements@.take(i as int), Seq::empty(), 0, 0) is Ok,
                        fresh ==> self.code@ == gen_block(statements@.take(i as int), Seq::empty(), 0, 0)->Ok_0.0,
                        fresh ==> self.locals_view() == gen_block(statements@.take(i as int), Seq::empty(), 0, 0)->Ok_0.1,
                        fresh ==> gen_program(ast) == (match gen_block(statements@, Seq::empty(), 0, 0) {
                            Ok((c, _)) => Ok(c),
                            Err(e) => Err::<Seq<OpCode>, GenErrorKind>(e),
                        }),
                    decreases statements.len() - i,
                {
                    proof {
                        assert(statements@.take(i + 1).drop_last() =~= statements@.take(i as int));
                        assert(statements@.take(i + 1).last() == statements@[i as int]);
                    }
                    let ghost before = self.code@;
                    match self.generate_statement(&statements[i]) {
                        Ok(()) => {},
                        Err(e) => {
                            proof {
                                if fresh {
                                    let prev = gen_block(statements@.take(i as int), Seq::empty(), 0, 0)->Ok_0;
                                    assert(before.len() == prev.0.len());
                                    assert(gen_stmt(statements@[i as int], prev.1, 0, prev.0.len() as int) is Err);
                                    assert(gen_block(statements@.take(i + 1), Seq::empty(), 0, 0) is Err);
                                    lemma_gen_block_err(statements@, Seq::empty(), 0, 0, i + 1);
                                }
                            }
                            return Err(e);
                        },
                    }
                    proof {
                        if fresh {
                            let prev = gen_block(statements@.take(i as int), Seq::empty(), 0, 0)->Ok_0.0;
                            let step = self.code@.subrange(prev.len() as int, self.code@.len() as int);
                            assert(self.code@ =~= prev + step);
                        }
                    }
                    i = i + 1;
                }
                proof {
                    assert(statements@.take(i as int) =~= statements@);
                }
            },
            _ => {
                self.generate_statement(&ast)?;
                proof {
                    if fresh {
                        assert(self.code@ =~= Seq::<OpCode>::empty() + self.code@);
                    }
                }
            },
        }
        let mut code: Vec<OpCode> = Vec::new();
        std::mem::swap(&mut code, &mut self.code);
        Ok(code)
    }
}

} // verus!
