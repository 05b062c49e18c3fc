use vstd::prelude::*;
use crate::lexer::{lex, lex_all, tokens_view, LexErr, Lexer, LexerError, Tok, scan_move, Move};
use crate::parser::{
    ASTNode, ParserError, Parser, PRes, expr_shape, args_shape, stmt_shape, stmts_shape, p_program,
    ast_view, error_at,
};
use crate::bytecode::{
    BytecodeGenerator, BytecodeGeneratorError, GenErrorKind, OpCode, Locals, jumps_in_range,
    gen_expr, gen_args, gen_stmt, gen_block, gen_program,
};
use crate::bytecode;
use crate::vm::{
    Instruction, Number, RuntimeError, VirtualMachine, Value, runs_to, fails_with, stops_within_limit,
};

verus! {

/// The first error of a compile-and-run request, from the stage that gave it.
#[derive(Debug, Clone)]
pub enum CompileError {
    Lex(LexerError),
    Parse(ParserError),
    Generate(BytecodeGeneratorError),
    Runtime(RuntimeError),
}

/// `ins` is the machine's form of `op`. Literal numbers become the numbers of the
/// machine's arithmetic that they denote; a call names no function.
pub open spec fn converts<N: Number>(op: OpCode, ins: Instruction<N>) -> bool {
    match op {
        OpCode::Constant(bytecode::Value::Int(i)) => ins == Instruction::<N>::Push(
            Value::Number(N::of_int(i)),
        ),
        OpCode::Constant(bytecode::Value::Float(t)) => ins == Instruction::<N>::Push(
            Value::Number(N::of_literal(t)),
        ),
        OpCode::Constant(bytecode::Value::String(s)) => ins is Push && ins->Push_0 is String
            && ins->Push_0->String_0@ == s@,
        OpCode::Constant(bytecode::Value::Bool(b)) => ins == Instruction::<N>::Push(Value::Boolean(b)),
        OpCode::Constant(bytecode::Value::Null) => ins == Instruction::<N>::Push(Value::Null),
        OpCode::Pop => ins is Pop,
        OpCode::GetLocal(i) => ins == Instruction::<N>::GetLocal(i),
        OpCode::SetLocal(i) => ins == Instruction::<N>::SetLocal(i),
        OpCode::GetGlobal(n) => ins is LoadVariable && ins->LoadVariable_0@ == n@,
        OpCode::SetGlobal(n) => ins is StoreVariable && ins->StoreVariable_0@ == n@,
        OpCode::DefineGlobal(n) => ins is DefineVariable && ins->DefineVariable_0@ == n@,
        OpCode::Add => ins is Add,
        OpCode::Subtract => ins is Subtract,
        OpCode::Multiply => ins is Multiply,
        OpCode::Divide => ins is Divide,
        OpCode::Negate => ins is Negate,
        OpCode::Equal => ins is Equal,
        OpCode::NotEqual => ins is NotEqual,
        OpCode::LessThan => ins is LessThan,
        OpCode::GreaterThan => ins is GreaterThan,
        OpCode::Jump(t) => ins == Instruction::<N>::Jump(t),
        OpCode::JumpIfFalse(t) => ins == Instruction::<N>::JumpIfFalse(t),
        OpCode::Call(n) => ins is Call && ins->Call_0@ == seq!['<', 'u', 'n', 'k', 'n', 'o', 'w', 'n', '>']
            && ins->Call_1 == n,
        OpCode::Return => ins is Return,
        OpCode::Print => ins is Print,
    }
}

/// The machine instruction for one generated instruction.
pub fn convert_to_instruction<N: Number>(op: &OpCode) -> (ins: Instruction<N>)
    ensures
        converts(*op, ins),
{
    match op {
        OpCode::Constant(value) => {
            let v = match value {
                bytecode::Value::Int(i) => Value::Number(N::from_int(*i)),
                bytecode::Value::Float(text) => Value::Number(N::from_literal(text)),
                bytecode::Value::String(s) => Value::String(s.clone()),
                bytecode::Value::Bool(b) => Value::Boolean(*b),
                bytecode::Value::Null => Value::Null,
            };
            Instruction::Push(v)
        },
        OpCode::Pop => Instruction::Pop,
        OpCode::GetLocal(i) => Instruction::GetLocal(*i),
        OpCode::SetLocal(i) => Instruction::SetLocal(*i),
        OpCode::GetGlobal(n) => Instruction::LoadVariable(n.clone()),
        OpCode::SetGlobal(n) => Instruction::StoreVariable(n.clone()),
        OpCode::DefineGlobal(n) => Instruction::DefineVariable(n.clone()),
        OpCode::Add => Instruction::Add,
        OpCode::Subtract => Instruction::Subtract,
        OpCode::Multiply => Instruction::Multiply,
        OpCode::Divide => Instruction::Divide,
        OpCode::Negate => Instruction::Negate,
        OpCode::Equal => Instruction::Equal,
        OpCode::NotEqual => Instruction::NotEqual,
        OpCode::LessThan => Instruction::LessThan,
        OpCode::GreaterThan => Instruction::GreaterThan,
        OpCode::Jump(t) => Instruction::Jump(*t),
        OpCode::JumpIfFalse(t) => Instruction::JumpIfFalse(*t),
        OpCode::Call(n) => {
            let name = String::from_str("<unknown>");
            proof {
                reveal_strlit("<unknown>");
                assert(name@ =~= seq!['<', 'u', 'n', 'k', 'n', 'o', 'w', 'n', '>']);
            }
            Instruction::Call(name, *n)
        },
        OpCode::Return => Instruction::Return,
        OpCode::Print => Instruction::Print,
    }
}

/// A successful lexing ends in exactly one end marker.
pub proof fn lemma_lex_ends_once(s: Seq<char>, p: int, line: int, col: int)
    ensures
        lex(s, p, line, col) matches Ok(ts) ==> ts.len() > 0 && ts.last().kind is EOF && forall|i: int|
            0 <= i < ts.len() - 1 ==> !(#[trigger] ts[i].kind is EOF),
    decreases s.len() - p,
{
    if 0 <= p < s.len() {
        match scan_move(s, p, line, col) {
            Move::Skip(q, l, k) => {
                if p < q && q <= s.len() {
                    lemma_lex_ends_once(s, q, l, k);
                }
            },
            Move::Emit(t, q, l, k) => {
                if p < q && q <= s.len() {
                    lemma_lex_ends_once(s, q, l, k);
                    match lex(s, q, l, k) {
                        Ok(rest) => {
                            let ts = seq![t] + rest;
                            assert forall|i: int| 0 <= i < ts.len() - 1 implies !(
                            #[trigger] ts[i].kind is EOF) by {
                                if i > 0 {
                                    assert(ts[i] == rest[i - 1]);
                                }
                            }
                        },
                        Err(_) => {},
                    }
                }
            },
            Move::Fail(_) => {},
        }
    }
}

/// A tree the parser builds has code for every expression in it.
pub proof fn lemma_shaped_expr_generates(e: ASTNode, locals: Locals)
    requires
        expr_shape(e),
    ensures
        gen_expr(e, locals) is Ok,
    decreases e,
{
    match e {
        ASTNode::BinaryExpression { left, operator, right } => {
            lemma_shaped_expr_generates(*left, locals);
            lemma_shaped_expr_generates(*right, locals);
        },
        ASTNode::UnaryExpression { operator, operand } => {
            lemma_shaped_expr_generates(*operand, locals);
        },
        ASTNode::CallExpression { callee, arguments } => {
            lemma_shaped_expr_generates(*callee, locals);
            lemma_shaped_args_generate(arguments@, locals);
        },
        ASTNode::AssignmentExpression { name, value } => {
            lemma_shaped_expr_generates(*value, locals);
        },
        _ => {},
    }
}

pub proof fn lemma_shaped_args_generate(args: Seq<ASTNode>, locals: Locals)
    requires
        args_shape(args),
    ensures
        gen_args(args, locals) is Ok,
    decreases args,
{
    if args.len() > 0 {
        lemma_shaped_args_generate(args.drop_last(), locals);
        lemma_shaped_expr_generates(args.last(), locals);
    }
}

/// The only generation errors a tree the parser builds can meet: a local
/// declared twice in one scope, or blocks nested past what a depth counter holds.
pub open spec fn parsed_tree_error(k: GenErrorKind) -> bool {
    k is VariableRedeclared || k is NestingTooDeep
}

pub proof fn lemma_shaped_stmt_generates(n: ASTNode, locals: Locals, depth: int, at: int)
    requires
        stmt_shape(n),
    ensures
        gen_stmt(n, locals, depth, at) is Err ==> parsed_tree_error(
            gen_stmt(n, locals, depth, at)->Err_0,
        ),
    decreases n,
{
    match n {
        ASTNode::VarDeclaration { var_type: _, name: _, initializer } => {
            match initializer {
                Some(i) => lemma_shaped_expr_generates(*i, locals),
                None => {},
            }
        },
        ASTNode::Block(statements) => {
            lemma_shaped_block_generates(statements@, locals, depth + 1, at);
        },
        ASTNode::ExpressionStatement(e) => {
            lemma_shaped_expr_generates(*e, locals);
        },
        ASTNode::IfStatement { condition, then_branch, else_branch } => {
            lemma_shaped_expr_generates(*condition, locals);
            let c = gen_expr(*condition, locals)->Ok_0;
            lemma_shaped_stmt_generates(*then_branch, locals, depth, at + c.len() + 1);
            match gen_stmt(*then_branch, locals, depth, at + c.len() + 1) {
                Ok((t, after)) => {
                    match else_branch {
                        Some(e) => lemma_shaped_stmt_generates(
                            *e,
                            after,
                            depth,
                            at + c.len() + 1 + t.len() + 1,
                        ),
                        None => {},
                    }
                },
                Err(_) => {},
            }
        },
        ASTNode::WhileStatement { condition, body } => {
            lemma_shaped_expr_generates(*condition, locals);
            let c = gen_expr(*condition, locals)->Ok_0;
            lemma_shaped_stmt_generates(*body, locals, depth, at + c.len() + 1);
        },
        ASTNode::ReturnStatement(value) => {
            match value {
                Some(e) => lemma_shaped_expr_generates(*e, locals),
                None => {},
            }
        },
        _ => {},
    }
}

pub proof fn lemma_shaped_block_generates(stmts: Seq<ASTNode>, locals: Locals, depth: int, at: int)
    requires
        stmts_shape(stmts),
    ensures
        gen_block(stmts, locals, depth, at) is Err ==> parsed_tree_error(
            gen_block(stmts, locals, depth, at)->Err_0,
        ),
    decreases stmts,
{
    if stmts.len() > 0 {
        lemma_shaped_block_generates(stmts.drop_last(), locals, depth, at);
        match gen_block(stmts.drop_last(), locals, depth, at) {
            Ok((c, l1)) => {
                lemma_shaped_stmt_generates(stmts.last(), l1, depth, at + c.len());
            },
            Err(_) => {},
        }
    }
}

/// Every jump of `code` lands inside it or just past its end.
pub open spec fn targets_in_range<N: Number>(code: Seq<Instruction<N>>) -> bool {
    forall|i: int|
        0 <= i < code.len() ==> match #[trigger] code[i] {
            Instruction::Jump(t) => t <= code.len(),
            Instruction::JumpIfFalse(t) => t <= code.len(),
            _ => true,
        }
}

/// The grammar's parse of the tokens of `source` (of a source that lexes).
pub open spec fn parse_of(source: Seq<char>) -> PRes {
    p_program(lex_all(source)->Ok_0, 0, Seq::empty())
}

/// `ast` is the syntax tree of `source`.
pub open spec fn parses_to(source: Seq<char>, ast: ASTNode) -> bool {
    lex_all(source) is Ok && parse_of(source) is Ok && parse_of(source)->Ok_0.0 == ast_view(ast)
}

/// Compiling one source twice reads the same tokens and builds the same syntax
/// tree: the lexer's and the parser's results are functions of the text alone.
pub proof fn lemma_front_end_repeatable(source: Seq<char>, first: ASTNode, second: ASTNode)
    requires
        parses_to(source, first),
        parses_to(source, second),
    ensures
        ast_view(first) == ast_view(second),
{
}

/// `code` is, instruction by instruction, the machine form of `ops`.
pub open spec fn converted<N: Number>(ops: Seq<OpCode>, code: Seq<Instruction<N>>) -> bool {
    ops.len() == code.len() && forall|i: int| 0 <= i < ops.len() ==> converts(ops[i], #[trigger] code[i])
}

/// The front half of a request: lexing, parsing and code generation, each
/// stage stopping the request at its first error.
pub fn compile(source: &str) -> (r: Result<Vec<OpCode>, CompileError>)
    requires
        source@.len() < usize::MAX,
    ensures
        lex_all(source@) is Err <==> r is Err && r->Err_0 is Lex,
        r matches Err(CompileError::Lex(e)) ==> lex_all(source@) == Err::<Seq<Tok>, LexErr>(e@),
        r matches Err(CompileError::Parse(e)) ==> lex_all(source@) is Ok && parse_of(source@) is Err
            && error_at(
            lex_all(source@)->Ok_0,
            e,
            parse_of(source@)->Err_0.0,
            parse_of(source@)->Err_0.1,
        ),
        r matches Err(CompileError::Generate(e)) ==> parsed_tree_error(e.kind) && exists|ast: ASTNode|
            parses_to(source@, ast) && gen_program(ast) == Err::<Seq<OpCode>, GenErrorKind>(e.kind),
        !(r matches Err(CompileError::Runtime(_))),
        r matches Ok(ops) ==> jumps_in_range(ops@) && compiles_to(source@, ops@),
{
    let mut lexer = Lexer::new(source);
    let tokens = match lexer.tokenize() {
        Ok(t) => t,
        Err(e) => {
            return Err(CompileError::Lex(e));
        },
    };
    proof {
        lemma_lex_ends_once(source@, 0, 1, 1);
        assert(tokens@.last().token_type@ == tokens_view(tokens@).last().kind);
    }
    let mut parser = Parser::new(tokens);
    let ast = match parser.parse() {
        Ok(a) => a,
        Err(e) => {
            return Err(CompileError::Parse(e));
        },
    };
    let ghost tree = ast;
    assert(parses_to(source@, tree));
    let mut generator = BytecodeGenerator::new();
    proof {
        lemma_shaped_block_generates(ast->Program_0@, Seq::empty(), 0, 0);
    }
    match generator.generate(ast) {
        Ok(c) => Ok(c),
        Err(e) => Err(CompileError::Generate(e)),
    }
}

/// `ops` is the code the front half makes of `source`.
pub open spec fn compiles_to(source: Seq<char>, ops: Seq<OpCode>) -> bool {
    exists|ast: ASTNode| parses_to(source, ast) && gen_program(ast) == Ok::<Seq<OpCode>, GenErrorKind>(ops)
}

/// The machine form of a whole instruction sequence.
pub fn convert_all<N: Number>(ops: &Vec<OpCode>) -> (code: Vec<Instruction<N>>)
    ensures
        converted(ops@, code@),
        jumps_in_range(ops@) ==> targets_in_range(code@),
{
    let mut instructions: Vec<Instruction<N>> = Vec::new();
    let mut i: usize = 0;
    while i < ops.len()
        invariant
            i <= ops.len(),
            instructions.len() == i,
            forall|j: int| 0 <= j < i ==> converts(ops@[j], #[trigger] instructions@[j]),
        decreases ops.len() - i,
    {
        instructions.push(convert_to_instruction(&ops[i]));
        i = i + 1;
    }
    assert(jumps_in_range(ops@) ==> targets_in_range(instructions@)) by {
        if jumps_in_range(ops@) {
            assert forall|j: int| 0 <= j < instructions@.len() implies match #[trigger] instructions@[j] {
                Instruction::Jump(t) => t <= instructions@.len(),
                Instruction::JumpIfFalse(t) => t <= instructions@.len(),
                _ => true,
            } by {
                assert(converts(ops@[j], instructions@[j]));
                let c = ops@[j];
                assert(match c {
                    OpCode::Jump(t) => t <= ops@.len(),
                    OpCode::JumpIfFalse(t) => t <= ops@.len(),
                    _ => true,
                });
            }
        }
    }
    instructions
}

/// Compiles `source` and runs it: lexing, parsing, code generation and
/// execution, each stage stopping the request at its first error. Returns the
/// output and the instructions that ran. The tokens, the tree and the code are
/// those the lexer's, the grammar's and the generator's specifications give;
/// the output is that of a run of the code.
#[verifier::rlimit(80)]
pub fn compile_and_run<N: Number>(source: &str) -> (r: Result<(String, Vec<Instruction<N>>), CompileError>)
    requires
        source@.len() < usize::MAX,
    ensures
        lex_all(source@) is Err <==> r is Err && r->Err_0 is Lex,
        r matches Err(CompileError::Lex(e)) ==> lex_all(source@) == Err::<Seq<Tok>, LexErr>(e@),
        r matches Err(CompileError::Parse(e)) ==> lex_all(source@) is Ok && parse_of(source@) is Err
            && error_at(
            lex_all(source@)->Ok_0,
            e,
            parse_of(source@)->Err_0.0,
            parse_of(source@)->Err_0.1,
        ),
        r matches Err(CompileError::Generate(e)) ==> parsed_tree_error(e.kind) && exists|ast: ASTNode|
            parses_to(source@, ast) && gen_program(ast) == Err::<Seq<OpCode>, GenErrorKind>(e.kind),
        r matches Ok((out, code)) ==> targets_in_range(code@) && exists|ops: Seq<OpCode>|
            compiles_to(source@, ops) && converted(ops, code@),
        r matches Ok((out, code)) ==> runs_to(code@, out@),
        r matches Err(CompileError::Runtime(e)) ==> exists|
            ops: Seq<OpCode>,
            code: Seq<Instruction<N>>,
        | compiles_to(source@, ops) && converted(ops, code) && fails_with(code, e)
            && !stops_within_limit(code),
{
    let ops = match compile(source) {
        Ok(ops) => ops,
        Err(e) => {
            return Err(e);
        },
    };
    let instructions: Vec<Instruction<N>> = convert_all(&ops);
    let ghost code = instructions@;
    let mut vm: VirtualMachine<N> = VirtualMachine::new();
    let slice = instructions.as_slice();
    assert(slice@ == code);
    match vm.execute(slice) {
        Ok(out) => Ok((out, instructions)),
        Err(e) => Err(CompileError::Runtime(e)),
    }
}

} // verus!
