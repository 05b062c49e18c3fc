use minicompiler::lexer::{LexErrorKind, Lexer, Token, TokenType};
use minicompiler::parser::{ASTNode, ParseErrorKind, Parser};
use minicompiler::bytecode::{BytecodeGenerator, GenErrorKind, OpCode, Value as Constant};
use minicompiler::vm::{Instruction, Number, RuntimeError, Operation, Value, VirtualMachine};
use minicompiler::pipeline::{compile, compile_and_run, convert_to_instruction, CompileError};

#[derive(Debug, Clone, Copy, PartialEq)]
struct F(f64);

impl Number for F {
    fn of_int(v: i64) -> Self {
        Self::from_int(v)
    }

    fn of_literal(text: String) -> Self {
        Self::from_literal(&text)
    }

    fn sum(self, other: Self) -> Self {
        self.plus(other)
    }

    fn difference(self, other: Self) -> Self {
        self.minus(other)
    }

    fn product(self, other: Self) -> Self {
        self.times(other)
    }

    fn quotient(self, other: Self) -> Self {
        self.divided_by(other)
    }

    fn negation(self) -> Self {
        self.negated()
    }

    fn zero(self) -> bool {
        self.is_zero()
    }

    fn same(self, other: Self) -> bool {
        self.equals(other)
    }

    fn less(self, other: Self) -> bool {
        self.less_than(other)
    }

    fn greater(self, other: Self) -> bool {
        self.greater_than(other)
    }

    fn shown(self) -> String {
        self.render()
    }

    fn from_int(v: i64) -> Self {
        F(v as f64)
    }
    fn from_literal(text: &String) -> Self {
        F(text.parse().unwrap())
    }
    fn plus(self, other: Self) -> Self {
        F(self.0 + other.0)
    }
    fn minus(self, other: Self) -> Self {
        F(self.0 - other.0)
    }
    fn times(self, other: Self) -> Self {
        F(self.0 * other.0)
    }
    fn divided_by(self, other: Self) -> Self {
        F(self.0 / other.0)
    }
    fn negated(self) -> Self {
        F(-self.0)
    }
    fn is_zero(self) -> bool {
        self.0 == 0.0
    }
    fn equals(self, other: Self) -> bool {
        self.0 == other.0
    }
    fn less_than(self, other: Self) -> bool {
        self.0 < other.0
    }
    fn greater_than(self, other: Self) -> bool {
        self.0 > other.0
    }
    fn render(self) -> String {
        format!("{}", self.0)
    }
}

fn run(source: &str) -> Result<String, CompileError> {
    compile_and_run::<F>(source).map(|(out, _)| out)
}

fn tokens(source: &str) -> Vec<Token> {
    Lexer::new(source).tokenize().unwrap()
}

fn kinds(source: &str) -> Vec<TokenType> {
    tokens(source).into_iter().map(|t| t.token_type).collect()
}

#[test]
fn assignment_adds() {
    assert_eq!(run("int x = 1; x = x + 2; x;").unwrap(), "3");
}

#[test]
fn if_takes_then_branch() {
    assert_eq!(run("int x = 5; if (x > 3) { x = 1; } else { x = 2; } x;").unwrap(), "1");
}

#[test]
fn if_takes_else_branch() {
    assert_eq!(run("int x = 2; if (x > 3) { x = 1; } else { x = 7; } x;").unwrap(), "7");
}

#[test]
fn while_counts_to_three() {
    assert_eq!(run("int i = 0; while (i < 3) { i = i + 1; } i;").unwrap(), "3");
}

#[test]
fn inner_local_shadows_global() {
    assert_eq!(run("int x = 1; { int x = 2; x; }").unwrap(), "2");
}

#[test]
fn outer_global_kept_after_shadow() {
    assert_eq!(run("int x = 1; { int x = 2; x; } x;").unwrap(), "1");
}

#[test]
fn local_assignment_stays_local() {
    assert_eq!(run("int x = 1; { int x = 2; x = 5; x; }").unwrap(), "5");
    assert_eq!(run("int x = 1; { int x = 2; x = 5; } x;").unwrap(), "1");
}

#[test]
fn strings_concatenate() {
    assert_eq!(run("\"a\" + \"b\";").unwrap(), "ab");
}

#[test]
fn mixed_equality_is_false() {
    assert_eq!(run("1 == \"1\";").unwrap(), "false");
    assert_eq!(run("1 != \"1\";").unwrap(), "true");
}

#[test]
fn equality_by_value() {
    assert_eq!(run("\"ab\" == \"ab\";").unwrap(), "true");
    assert_eq!(run("2 == 2;").unwrap(), "true");
    assert_eq!(run("2 != 3;").unwrap(), "true");
}

#[test]
fn division_by_zero_fails() {
    match run("1 / 0;") {
        Err(CompileError::Runtime(RuntimeError::DivisionByZero)) => {}
        other => panic!("unexpected {:?}", other),
    }
}

#[test]
fn unterminated_string_position() {
    match run("\"abc") {
        Err(CompileError::Lex(e)) => {
            assert_eq!(e.kind, LexErrorKind::UnterminatedString);
            assert_eq!(e.line, 1);
            assert_eq!(e.column, 5);
        }
        other => panic!("unexpected {:?}", other),
    }
}

#[test]
fn unterminated_string_on_second_line() {
    let e = Lexer::new("x;\n\"ab\ncd\"").tokenize().unwrap_err();
    assert_eq!(e.kind, LexErrorKind::UnterminatedString);
    assert_eq!(e.line, 2);
    assert_eq!(e.column, 4);
}

#[test]
fn same_source_same_result() {
    let src = "int i = 0; while (i < 4) { i = i + 1; } \"n\" + \"m\"; i * 2;";
    let (out1, code1) = compile_and_run::<F>(src).unwrap();
    let (out2, code2) = compile_and_run::<F>(src).unwrap();
    assert_eq!(out1, out2);
    let d1: Vec<String> = code1.iter().map(|i| format!("{:?}", i)).collect();
    let d2: Vec<String> = code2.iter().map(|i| format!("{:?}", i)).collect();
    assert_eq!(d1, d2);
    assert_eq!(out1, "8");
}

#[test]
fn rescanning_literals_gives_same_values() {
    let src = "12345 3.25 \"a\\\"b\\n\" name";
    let ts = kinds(src);
    assert_eq!(ts[0], TokenType::IntLiteral(12345));
    assert_eq!(kinds("12345")[0], TokenType::IntLiteral(12345));
    assert_eq!(ts[1], TokenType::FloatLiteral("3.25".to_string()));
    assert_eq!(kinds("3.25")[0], TokenType::FloatLiteral("3.25".to_string()));
    assert_eq!(ts[2], TokenType::StringLiteral("a\\\"b\\n".to_string()));
    assert_eq!(kinds("\"a\\\"b\\n\"")[0], TokenType::StringLiteral("a\\\"b\\n".to_string()));
    assert_eq!(ts[3], TokenType::Identifier("name".to_string()));
}

#[test]
fn tokens_end_with_one_eof() {
    let ts = kinds("int x = 1; // note\n/* block\n */ x;");
    assert_eq!(ts.last(), Some(&TokenType::EOF));
    assert_eq!(ts.iter().filter(|t| **t == TokenType::EOF).count(), 1);
    assert_eq!(kinds(""), vec![TokenType::EOF]);
}

#[test]
fn token_positions() {
    let ts = tokens("int x;\n  x == 10;");
    assert_eq!((ts[0].line, ts[0].column), (1, 1));
    assert_eq!((ts[1].line, ts[1].column), (1, 5));
    assert_eq!((ts[3].line, ts[3].column), (2, 3));
    assert_eq!(ts[4].token_type, TokenType::Equal);
    assert_eq!((ts[4].line, ts[4].column), (2, 5));
    assert_eq!(ts[5].token_type, TokenType::IntLiteral(10));
    assert_eq!((ts[5].line, ts[5].column), (2, 8));
}

#[test]
fn keywords_and_operators() {
    assert_eq!(
        kinds("int float if else while return + - * / = == != < > ( ) { } ; ,"),
        vec![
            TokenType::Int, TokenType::Float, TokenType::If, TokenType::Else, TokenType::While,
            TokenType::Return, TokenType::Plus, TokenType::Minus, TokenType::Multiply,
            TokenType::Divide, TokenType::Assign, TokenType::Equal, TokenType::NotEqual,
            TokenType::LessThan, TokenType::GreaterThan, TokenType::LeftParen,
            TokenType::RightParen, TokenType::LeftBrace, TokenType::RightBrace,
            TokenType::Semicolon, TokenType::Comma, TokenType::EOF,
        ]
    );
}

#[test]
fn number_stops_at_second_dot() {
    let e = Lexer::new("1.2.3").tokenize().unwrap_err();
    assert_eq!(e.kind, LexErrorKind::UnexpectedCharacter('.'));
    assert_eq!((e.line, e.column), (1, 4));
    assert_eq!(kinds("1.")[0], TokenType::FloatLiteral("1.".to_string()));
}

#[test]
fn lex_errors() {
    let e = Lexer::new("a ! b").tokenize().unwrap_err();
    assert_eq!(e.kind, LexErrorKind::UnexpectedCharacter('!'));
    assert_eq!((e.line, e.column), (1, 3));
    let e = Lexer::new("x # y").tokenize().unwrap_err();
    assert_eq!(e.kind, LexErrorKind::UnexpectedCharacter('#'));
    let e = Lexer::new("/* never\nclosed").tokenize().unwrap_err();
    assert_eq!(e.kind, LexErrorKind::UnterminatedBlockComment);
    assert_eq!(e.line, 2);
    let e = Lexer::new("99999999999999999999").tokenize().unwrap_err();
    assert_eq!(e.kind, LexErrorKind::InvalidIntegerLiteral("99999999999999999999".to_string()));
    assert_eq!((e.line, e.column), (1, 1));
}

#[test]
fn largest_integer_literal() {
    assert_eq!(kinds("9223372036854775807")[0], TokenType::IntLiteral(i64::MAX));
    assert!(Lexer::new("9223372036854775808").tokenize().is_err());
}

#[test]
fn nested_block_comment_closes_at_first_end() {
    let ts = kinds("/* a /* b */ x");
    assert_eq!(ts, vec![TokenType::Identifier("x".to_string()), TokenType::EOF]);
}

#[test]
fn parse_errors() {
    let err = |src: &str| Parser::new(tokens(src)).parse().unwrap_err();
    let e = err("1 = 2;");
    assert_eq!(e.kind, ParseErrorKind::InvalidAssignmentTarget);
    let e = err("int x = 1");
    assert_eq!(e.kind, ParseErrorKind::ExpectedToken);
    assert_eq!(e.found, TokenType::EOF);
    let e = err(";");
    assert_eq!(e.kind, ParseErrorKind::ExpectedExpression);
    assert_eq!(e.found, TokenType::Semicolon);
    assert_eq!((e.line, e.column), (1, 1));
    let e = err("f(1,);");
    assert_eq!(e.kind, ParseErrorKind::ExpectedExpression);
    let e = err("(1 + 2;");
    assert_eq!(e.kind, ParseErrorKind::ExpectedToken);
    let e = err("int 5;");
    assert_eq!(e.kind, ParseErrorKind::ExpectedToken);
}

#[test]
fn precedence_of_operators() {
    assert_eq!(run("1 + 2 * 3;").unwrap(), "7");
    assert_eq!(run("(1 + 2) * 3;").unwrap(), "9");
    assert_eq!(run("10 - 4 - 3;").unwrap(), "3");
    assert_eq!(run("-2 * 3;").unwrap(), "-6");
    assert_eq!(run("1 + 2 < 4 == 1 < 2;").unwrap(), "true");
    assert_eq!(run("7 / 2;").unwrap(), "3.5");
    assert_eq!(run("1.5 + 1.25;").unwrap(), "2.75");
}

#[test]
fn dangling_else_binds_inner_if() {
    let ast = Parser::new(tokens("if (1) if (2) x; else y;")).parse().unwrap();
    match ast {
        ASTNode::Program(stmts) => match &stmts[0] {
            ASTNode::IfStatement { else_branch, then_branch, .. } => {
                assert!(else_branch.is_none());
                assert!(matches!(**then_branch, ASTNode::IfStatement { else_branch: Some(_), .. }));
            }
            other => panic!("unexpected {:?}", other),
        },
        other => panic!("unexpected {:?}", other),
    }
}

#[test]
fn generator_emits_patched_jumps() {
    let ast = Parser::new(tokens("int i = 0; while (i < 2) { i = i + 1; }")).parse().unwrap();
    let code = BytecodeGenerator::new().generate(ast).unwrap();
    assert_eq!(
        code,
        vec![
            OpCode::Constant(Constant::Int(0)),
            OpCode::DefineGlobal("i".to_string()),
            OpCode::GetGlobal("i".to_string()),
            OpCode::Constant(Constant::Int(2)),
            OpCode::LessThan,
            OpCode::JumpIfFalse(12),
            OpCode::GetGlobal("i".to_string()),
            OpCode::Constant(Constant::Int(1)),
            OpCode::Add,
            OpCode::SetGlobal("i".to_string()),
            OpCode::Pop,
            OpCode::Jump(2),
        ]
    );
}

#[test]
fn generator_if_else_layout() {
    let ast = Parser::new(tokens("if (1) 2; else 3;")).parse().unwrap();
    let code = BytecodeGenerator::new().generate(ast).unwrap();
    assert_eq!(
        code,
        vec![
            OpCode::Constant(Constant::Int(1)),
            OpCode::JumpIfFalse(5),
            OpCode::Constant(Constant::Int(2)),
            OpCode::Pop,
            OpCode::Jump(7),
            OpCode::Constant(Constant::Int(3)),
            OpCode::Pop,
        ]
    );
}

#[test]
fn generator_locals_and_scope_pops() {
    let ast = Parser::new(tokens("{ int a = 1; int b; b = a; }")).parse().unwrap();
    let code = BytecodeGenerator::new().generate(ast).unwrap();
    assert_eq!(
        code,
        vec![
            OpCode::Constant(Constant::Int(1)),
            OpCode::Constant(Constant::Null),
            OpCode::GetLocal(0),
            OpCode::SetLocal(1),
            OpCode::Pop,
            OpCode::Pop,
            OpCode::Pop,
        ]
    );
}

#[test]
fn redeclared_local_is_an_error() {
    match run("{ int a = 1; int a = 2; }") {
        Err(CompileError::Generate(e)) => {
            assert_eq!(e.kind, GenErrorKind::VariableRedeclared("a".to_string()))
        }
        other => panic!("unexpected {:?}", other),
    }
    assert!(run("{ int a = 1; { int a = 2; a; } }").is_ok());
    assert_eq!(run("int a = 1; int a = 2; a;").unwrap(), "2");
}

#[test]
fn generator_rejects_misplaced_nodes() {
    let bad = ASTNode::Program(vec![ASTNode::IntLiteral(1)]);
    let e = BytecodeGenerator::new().generate(bad).unwrap_err();
    assert_eq!(e.kind, GenErrorKind::UnexpectedNode);
    let bad_op = ASTNode::ExpressionStatement(Box::new(ASTNode::BinaryExpression {
        left: Box::new(ASTNode::IntLiteral(1)),
        operator: TokenType::Comma,
        right: Box::new(ASTNode::IntLiteral(2)),
    }));
    let e = BytecodeGenerator::new().generate(bad_op).unwrap_err();
    assert_eq!(e.kind, GenErrorKind::UnsupportedOperator);
}

#[test]
fn runtime_errors() {
    match run("y;") {
        Err(CompileError::Runtime(RuntimeError::UndefinedVariable(n))) => assert_eq!(n, "y"),
        other => panic!("unexpected {:?}", other),
    }
    match run("\"a\" - 1;") {
        Err(CompileError::Runtime(RuntimeError::TypeError(Operation::Subtraction))) => {}
        other => panic!("unexpected {:?}", other),
    }
    match run("-\"a\";") {
        Err(CompileError::Runtime(RuntimeError::TypeError(Operation::Negation))) => {}
        other => panic!("unexpected {:?}", other),
    }
    match run("1 < \"a\";") {
        Err(CompileError::Runtime(RuntimeError::TypeError(Operation::LessThan))) => {}
        other => panic!("unexpected {:?}", other),
    }
    match run("int f = 1; f();") {
        Err(CompileError::Runtime(RuntimeError::UndefinedFunction(n))) => assert_eq!(n, "<unknown>"),
        other => panic!("unexpected {:?}", other),
    }
}

#[test]
fn machine_runs_raw_instructions() {
    let mut vm: VirtualMachine<F> = VirtualMachine::new();
    let prog = vec![
        Instruction::Push(Value::Number(F(2.0))),
        Instruction::Duplicate,
        Instruction::Multiply,
        Instruction::Print,
        Instruction::Push(Value::String("done".to_string())),
        Instruction::Halt,
        Instruction::Push(Value::Null),
    ];
    assert_eq!(vm.execute(&prog).unwrap(), "4\ndone");
    assert_eq!(vm.execute(&[Instruction::Pop]).unwrap_err(), RuntimeError::StackUnderflow);
    assert_eq!(vm.execute(&[]).unwrap(), "");
    let jump_false = vec![
        Instruction::Push(Value::Number(F(0.0))),
        Instruction::JumpIfFalse(3),
        Instruction::Push(Value::String("taken".to_string())),
    ];
    assert_eq!(vm.execute(&jump_false).unwrap(), "taken");
}

#[test]
fn machine_calls_registered_function() {
    let mut vm: VirtualMachine<F> = VirtualMachine::new();
    let prog = vec![
        Instruction::Push(Value::Boolean(true)),
        Instruction::Call("g".to_string(), 0),
        Instruction::Halt,
        Instruction::DefineVariable("fn_g".to_string()),
        Instruction::Push(Value::Null),
        Instruction::Return,
    ];
    assert_eq!(vm.execute(&prog).unwrap(), "null");
}

#[test]
fn print_output_and_separator() {
    let mut vm: VirtualMachine<F> = VirtualMachine::new();
    let prog = vec![
        Instruction::Push(Value::Null),
        Instruction::Print,
        Instruction::Push(Value::Boolean(false)),
    ];
    assert_eq!(vm.execute(&prog).unwrap(), "null\nfalse");
}

#[test]
fn conversion_of_constants() {
    match convert_to_instruction::<F>(&OpCode::Constant(Constant::Int(3))) {
        Instruction::Push(Value::Number(F(x))) => assert_eq!(x, 3.0),
        other => panic!("unexpected {:?}", other),
    }
    match convert_to_instruction::<F>(&OpCode::Call(2)) {
        Instruction::Call(name, 2) => assert_eq!(name, "<unknown>"),
        other => panic!("unexpected {:?}", other),
    }
}

#[test]
fn return_at_top_level_falls_through() {
    assert_eq!(run("return 4; 5;").unwrap(), "4");
}

#[test]
fn latest_registration_wins() {
    let mut vm: VirtualMachine<F> = VirtualMachine::new();
    let prog = vec![
        Instruction::Push(Value::Null),
        Instruction::Call("h".to_string(), 0),
        Instruction::Halt,
        Instruction::DefineVariable("fn_h".to_string()),
        Instruction::Push(Value::String("first".to_string())),
        Instruction::Return,
        Instruction::StoreVariable("fn_h".to_string()),
        Instruction::Push(Value::String("second".to_string())),
        Instruction::Return,
    ];
    assert_eq!(vm.execute(&prog).unwrap(), "second");
}

#[test]
fn machine_state_is_reset_between_runs() {
    let mut vm: VirtualMachine<F> = VirtualMachine::new();
    let define = vec![
        Instruction::Push(Value::Number(F(1.0))),
        Instruction::DefineVariable("x".to_string()),
    ];
    assert_eq!(vm.execute(&define).unwrap(), "");
    let load = vec![Instruction::LoadVariable("x".to_string())];
    assert_eq!(
        vm.execute(&load).unwrap_err(),
        RuntimeError::UndefinedVariable("x".to_string())
    );
}

#[test]
fn front_half_reports_each_stage() {
    assert!(matches!(compile("@"), Err(CompileError::Lex(_))));
    assert!(matches!(compile("int;"), Err(CompileError::Parse(_))));
    assert!(matches!(compile("{ int a; int a; }"), Err(CompileError::Generate(_))));
    assert_eq!(compile("1;").unwrap(), vec![OpCode::Constant(Constant::Int(1)), OpCode::Pop]);
}

#[test]
fn identifiers_continue_over_letters_and_digits() {
    assert_eq!(
        kinds("a\u{e9}1_z b-c"),
        vec![
            TokenType::Identifier("a\u{e9}1_z".to_string()),
            TokenType::Identifier("b".to_string()),
            TokenType::Minus,
            TokenType::Identifier("c".to_string()),
            TokenType::EOF,
        ]
    );
    let e = Lexer::new("\u{e9}").tokenize().unwrap_err();
    assert_eq!(e.kind, LexErrorKind::UnexpectedCharacter('\u{e9}'));
}
