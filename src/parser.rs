use vstd::prelude::*;
use crate::lexer::{Token, TokenType, TokKind, Tok, tokens_view};

verus! {

/// The syntax tree. Every node owns its children.
#[derive(Debug)]
pub enum ASTNode {
    Program(Vec<ASTNode>),
    VarDeclaration { var_type: String, name: String, initializer: Option<Box<ASTNode>> },
    Block(Vec<ASTNode>),
    ExpressionStatement(Box<ASTNode>),
    IfStatement {
        condition: Box<ASTNode>,
        then_branch: Box<ASTNode>,
        else_branch: Option<Box<ASTNode>>,
    },
    WhileStatement { condition: Box<ASTNode>, body: Box<ASTNode> },
    ReturnStatement(Option<Box<ASTNode>>),
    BinaryExpression { left: Box<ASTNode>, operator: TokenType, right: Box<ASTNode> },
    UnaryExpression { operator: TokenType, operand: Box<ASTNode> },
    CallExpression { callee: Box<ASTNode>, arguments: Vec<ASTNode> },
    AssignmentExpression { name: String, value: Box<ASTNode> },
    IntLiteral(i64),
    /// The literal's text, digits with one `.`.
    FloatLiteral(String),
    StringLiteral(String),
    Identifier(String),
}

/// The three kinds of syntax error.
#[derive(Debug, Clone, PartialEq)]
pub enum ParseErrorKind {
    /// A required token was missing; the message names it.
    ExpectedToken,
    InvalidAssignmentTarget,
    /// No expression starts at the offending token.
    ExpectedExpression,
}

/// A syntax error at the offending token.
#[derive(Debug, Clone)]
pub struct ParserError {
    pub kind: ParseErrorKind,
    pub message: String,
    /// The offending token.
    pub found: TokenType,
    pub line: usize,
    pub column: usize,
}

/// A number per variant, the payload left aside.
pub open spec fn tag(k: TokKind) -> int {
    match k {
        TokKind::Int => 0,
        TokKind::Float => 1,
        TokKind::If => 2,
        TokKind::Else => 3,
        TokKind::While => 4,
        TokKind::Return => 5,
        TokKind::IntLiteral(_) => 6,
        TokKind::FloatLiteral(_) => 7,
        TokKind::StringLiteral(_) => 8,
        TokKind::Identifier(_) => 9,
        TokKind::Plus => 10,
        TokKind::Minus => 11,
        TokKind::Multiply => 12,
        TokKind::Divide => 13,
        TokKind::Assign => 14,
        TokKind::Equal => 15,
        TokKind::NotEqual => 16,
        TokKind::LessThan => 17,
        TokKind::GreaterThan => 18,
        TokKind::LeftParen => 19,
        TokKind::RightParen => 20,
        TokKind::LeftBrace => 21,
        TokKind::RightBrace => 22,
        TokKind::Semicolon => 23,
        TokKind::Comma => 24,
        TokKind::EOF => 25,
    }
}

fn token_tag(t: &TokenType) -> (r: u8)
    ensures
        r == tag(t@),
{
    match t {
        TokenType::Int => 0,
        TokenType::Float => 1,
        TokenType::If => 2,
        TokenType::Else => 3,
        TokenType::While => 4,
        TokenType::Return => 5,
        TokenType::IntLiteral(_) => 6,
        TokenType::FloatLiteral(_) => 7,
        TokenType::StringLiteral(_) => 8,
        TokenType::Identifier(_) => 9,
        TokenType::Plus => 10,
        TokenType::Minus => 11,
        TokenType::Multiply => 12,
        TokenType::Divide => 13,
        TokenType::Assign => 14,
        TokenType::Equal => 15,
        TokenType::NotEqual => 16,
        TokenType::LessThan => 17,
        TokenType::GreaterThan => 18,
        TokenType::LeftParen => 19,
        TokenType::RightParen => 20,
        TokenType::LeftBrace => 21,
        TokenType::RightBrace => 22,
        TokenType::Semicolon => 23,
        TokenType::Comma => 24,
        TokenType::EOF => 25,
    }
}

/// A copy of a token type.
fn copy_token_type(t: &TokenType) -> (r: TokenType)
    ensures
        r@ == t@,
{
    match t {
        TokenType::Int => TokenType::Int,
        TokenType::Float => TokenType::Float,
        TokenType::If => TokenType::If,
        TokenType::Else => TokenType::Else,
        TokenType::While => TokenType::While,
        TokenType::Return => TokenType::Return,
        TokenType::IntLiteral(v) => TokenType::IntLiteral(*v),
        TokenType::FloatLiteral(s) => TokenType::FloatLiteral(s.clone()),
        TokenType::StringLiteral(s) => TokenType::StringLiteral(s.clone()),
        TokenType::Identifier(s) => TokenType::Identifier(s.clone()),
        TokenType::Plus => TokenType::Plus,
        TokenType::Minus => TokenType::Minus,
        TokenType::Multiply => TokenType::Multiply,
        TokenType::Divide => TokenType::Divide,
        TokenType::Assign => TokenType::Assign,
        TokenType::Equal => TokenType::Equal,
        TokenType::NotEqual => TokenType::NotEqual,
        TokenType::LessThan => TokenType::LessThan,
        TokenType::GreaterThan => TokenType::GreaterThan,
        TokenType::LeftParen => TokenType::LeftParen,
        TokenType::RightParen => TokenType::RightParen,
        TokenType::LeftBrace => TokenType::LeftBrace,
        TokenType::RightBrace => TokenType::RightBrace,
        TokenType::Semicolon => TokenType::Semicolon,
        TokenType::Comma => TokenType::Comma,
        TokenType::EOF => TokenType::EOF,
    }
}

/// Mathematical form of a syntax tree: texts as character sequences, children in sequences.
pub enum Ast {
    Program(Seq<Ast>),
    VarDeclaration(Seq<char>, Seq<char>, Option<Box<Ast>>),
    Block(Seq<Ast>),
    ExpressionStatement(Box<Ast>),
    IfStatement(Box<Ast>, Box<Ast>, Option<Box<Ast>>),
    WhileStatement(Box<Ast>, Box<Ast>),
    ReturnStatement(Option<Box<Ast>>),
    Binary(Box<Ast>, TokKind, Box<Ast>),
    Unary(TokKind, Box<Ast>),
    Call(Box<Ast>, Seq<Ast>),
    Assignment(Seq<char>, Box<Ast>),
    IntLiteral(i64),
    FloatLiteral(Seq<char>),
    StringLiteral(Seq<char>),
    Identifier(Seq<char>),
}

pub open spec fn opt_view(o: Option<Box<ASTNode>>) -> Option<Box<Ast>>
    decreases o,
{
    match o {
        Some(b) => Some(Box::new(ast_view(*b))),
        None => None,
    }
}

pub open spec fn ast_view(n: ASTNode) -> Ast
    decreases n,
{
    match n {
        ASTNode::Program(v) => Ast::Program(ast_seq_view(v@)),
        ASTNode::VarDeclaration { var_type, name, initializer } => Ast::VarDeclaration(
            var_type@,
            name@,
            match initializer {
                Some(b) => Some(Box::new(ast_view(*b))),
                None => None,
            },
        ),
        ASTNode::Block(v) => Ast::Block(ast_seq_view(v@)),
        ASTNode::ExpressionStatement(e) => Ast::ExpressionStatement(Box::new(ast_view(*e))),
        ASTNode::IfStatement { condition, then_branch, else_branch } => Ast::IfStatement(
            Box::new(ast_view(*condition)),
            Box::new(ast_view(*then_branch)),
            match else_branch {
                Some(b) => Some(Box::new(ast_view(*b))),
                None => None,
            },
        ),
        ASTNode::WhileStatement { condition, body } => Ast::WhileStatement(
            Box::new(ast_view(*condition)),
            Box::new(ast_view(*body)),
        ),
        ASTNode::ReturnStatement(v) => Ast::ReturnStatement(
            match v {
                Some(b) => Some(Box::new(ast_view(*b))),
                None => None,
            },
        ),
        ASTNode::BinaryExpression { left, operator, right } => Ast::Binary(
            Box::new(ast_view(*left)),
            operator@,
            Box::new(ast_view(*right)),
        ),
        ASTNode::UnaryExpression { operator, operand } => Ast::Unary(
            operator@,
            Box::new(ast_view(*operand)),
        ),
        ASTNode::CallExpression { callee, arguments } => Ast::Call(
            Box::new(ast_view(*callee)),
            ast_seq_view(arguments@),
        ),
        ASTNode::AssignmentExpression { name, value } => Ast::Assignment(
            name@,
            Box::new(ast_view(*value)),
        ),
        ASTNode::IntLiteral(v) => Ast::IntLiteral(v),
        ASTNode::FloatLiteral(t) => Ast::FloatLiteral(t@),
        ASTNode::StringLiteral(t) => Ast::StringLiteral(t@),
        ASTNode::Identifier(t) => Ast::Identifier(t@),
    }
}

pub open spec fn ast_seq_view(v: Seq<ASTNode>) -> Seq<Ast>
    decreases v,
{
    if v.len() == 0 {
        Seq::empty()
    } else {
        ast_seq_view(v.drop_last()).push(ast_view(v.last()))
    }
}

/// A parse: the tree and the index of the first token after it; or the kind of
/// error and the index of the offending token.
pub type PRes = Result<(Ast, int), (ParseErrorKind, int)>;

pub open spec fn kind_at(ts: Seq<Tok>, pos: int) -> TokKind {
    ts[pos].kind
}

/// The token at `pos` is of the variant of `k`, and is not the end marker.
pub open spec fn sees(ts: Seq<Tok>, pos: int, k: TokKind) -> bool {
    !(kind_at(ts, pos) is EOF) && tag(kind_at(ts, pos)) == tag(k)
}

/// A required token of the variant of `k` at `pos`: the position after it.
pub open spec fn expect(ts: Seq<Tok>, pos: int, k: TokKind) -> Result<int, (ParseErrorKind, int)> {
    if sees(ts, pos, k) {
        Ok(pos + 1)
    } else {
        Err((ParseErrorKind::ExpectedToken, pos))
    }
}

pub open spec fn bad() -> PRes {
    Err((ParseErrorKind::ExpectedExpression, 0))
}

/// `declaration := ('int' | 'float') var_declaration | statement`
pub open spec fn p_declaration(ts: Seq<Tok>, pos: int) -> PRes
    decreases ts.len() - pos, 30nat,
{
    if pos < 0 || pos >= ts.len() {
        bad()
    } else if sees(ts, pos, TokKind::Int) {
        p_var_declaration(ts, pos + 1, seq!['i', 'n', 't'])
    } else if sees(ts, pos, TokKind::Float) {
        p_var_declaration(ts, pos + 1, seq!['f', 'l', 'o', 'a', 't'])
    } else {
        p_statement(ts, pos)
    }
}

/// `var_declaration := IDENT ('=' expression)? ';'`
pub open spec fn p_var_declaration(ts: Seq<Tok>, pos: int, ty: Seq<char>) -> PRes
    decreases ts.len() - pos, 28nat,
{
    if pos < 0 || pos >= ts.len() {
        bad()
    } else {
        match kind_at(ts, pos) {
            TokKind::Identifier(name) => if pos + 1 < ts.len() && sees(ts, pos + 1, TokKind::Assign) {
                match p_expression(ts, pos + 2) {
                    Ok((e, q)) => match expect(ts, q, TokKind::Semicolon) {
                        Ok(q2) => Ok((Ast::VarDeclaration(ty, name, Some(Box::new(e))), q2)),
                        Err(x) => Err(x),
                    },
                    Err(x) => Err(x),
                }
            } else {
                match expect(ts, pos + 1, TokKind::Semicolon) {
                    Ok(q2) => Ok((Ast::VarDeclaration(ty, name, None), q2)),
                    Err(x) => Err(x),
                }
            },
            _ => Err((ParseErrorKind::ExpectedToken, pos)),
        }
    }
}

/// `statement := if | while | return | '{' block | expression ';'`
pub open spec fn p_statement(ts: Seq<Tok>, pos: int) -> PRes
    decreases ts.len() - pos, 29nat,
{
    if pos < 0 || pos >= ts.len() {
        bad()
    } else if sees(ts, pos, TokKind::If) {
        p_if(ts, pos + 1)
    } else if sees(ts, pos, TokKind::While) {
        p_while(ts, pos + 1)
    } else if sees(ts, pos, TokKind::Return) {
        p_return(ts, pos + 1)
    } else if sees(ts, pos, TokKind::LeftBrace) {
        p_block(ts, pos + 1, Seq::empty())
    } else {
        p_expression_statement(ts, pos)
    }
}

/// `if := '(' expression ')' statement ('else' statement)?`; an `else` goes
/// with the nearest `if`.
pub open spec fn p_if(ts: Seq<Tok>, pos: int) -> PRes
    decreases ts.len() - pos, 28nat,
{
    if pos < 0 || pos >= ts.len() {
        bad()
    } else {
        match expect(ts, pos, TokKind::LeftParen) {
            Err(x) => Err(x),
            Ok(p1) => match p_expression(ts, p1) {
                Err(x) => Err(x),
                Ok((c, q1)) => match expect(ts, q1, TokKind::RightParen) {
                    Err(x) => Err(x),
                    Ok(p2) => if pos < p2 && p2 <= ts.len() {
                        match p_statement(ts, p2) {
                            Err(x) => Err(x),
                            Ok((t, q2)) => if pos < q2 && q2 < ts.len() && sees(ts, q2, TokKind::Else) {
                                match p_statement(ts, q2 + 1) {
                                    Err(x) => Err(x),
                                    Ok((e, q3)) => Ok(
                                        (Ast::IfStatement(Box::new(c), Box::new(t), Some(Box::new(e))), q3),
                                    ),
                                }
                            } else {
                                Ok((Ast::IfStatement(Box::new(c), Box::new(t), None), q2))
                            },
                        }
                    } else {
                        bad()
                    },
                },
            },
        }
    }
}

/// `while := '(' expression ')' statement`
pub open spec fn p_while(ts: Seq<Tok>, pos: int) -> PRes
    decreases ts.len() - pos, 28nat,
{
    if pos < 0 || pos >= ts.len() {
        bad()
    } else {
        match expect(ts, pos, TokKind::LeftParen) {
            Err(x) => Err(x),
            Ok(p1) => match p_expression(ts, p1) {
                Err(x) => Err(x),
                Ok((c, q1)) => match expect(ts, q1, TokKind::RightParen) {
                    Err(x) => Err(x),
                    Ok(p2) => if pos < p2 && p2 <= ts.len() {
                        match p_statement(ts, p2) {
                            Err(x) => Err(x),
                            Ok((b, q2)) => Ok((Ast::WhileStatement(Box::new(c), Box::new(b)), q2)),
                        }
                    } else {
                        bad()
                    },
                },
            },
        }
    }
}

/// `return := expression? ';'`
pub open spec fn p_return(ts: Seq<Tok>, pos: int) -> PRes
    decreases ts.len() - pos, 28nat,
{
    if pos < 0 || pos >= ts.len() {
        bad()
    } else if !sees(ts, pos, TokKind::Semicolon) {
        match p_expression(ts, pos) {
            Err(x) => Err(x),
            Ok((e, q)) => match expect(ts, q, TokKind::Semicolon) {
                Err(x) => Err(x),
                Ok(q2) => Ok((Ast::ReturnStatement(Some(Box::new(e))), q2)),
            },
        }
    } else {
        Ok((Ast::ReturnStatement(None), pos + 1))
    }
}

/// `block := declaration* '}'`, after `acc` was parsed.
pub open spec fn p_block(ts: Seq<Tok>, pos: int, acc: Seq<Ast>) -> PRes
    decreases ts.len() - pos, 31nat,
{
    if pos < 0 || pos >= ts.len() {
        bad()
    } else if !sees(ts, pos, TokKind::RightBrace) && !(kind_at(ts, pos) is EOF) {
        match p_declaration(ts, pos) {
            Err(x) => Err(x),
            Ok((n, q)) => if pos < q && q <= ts.len() {
                p_block(ts, q, acc.push(n))
            } else {
                bad()
            },
        }
    } else {
        match expect(ts, pos, TokKind::RightBrace) {
            Err(x) => Err(x),
            Ok(q) => Ok((Ast::Block(acc), q)),
        }
    }
}

pub open spec fn p_expression_statement(ts: Seq<Tok>, pos: int) -> PRes
    decreases ts.len() - pos, 27nat,
{
    if pos < 0 || pos >= ts.len() {
        bad()
    } else {
        match p_expression(ts, pos) {
            Err(x) => Err(x),
            Ok((e, q)) => match expect(ts, q, TokKind::Semicolon) {
                Err(x) => Err(x),
                Ok(q2) => Ok((Ast::ExpressionStatement(Box::new(e)), q2)),
            },
        }
    }
}

pub open spec fn p_expression(ts: Seq<Tok>, pos: int) -> PRes
    decreases ts.len() - pos, 26nat,
{
    if pos < 0 || pos >= ts.len() {
        bad()
    } else {
        p_assignment(ts, pos)
    }
}

/// `assignment := equality ('=' assignment)?`, whose target must be a bare name.
pub open spec fn p_assignment(ts: Seq<Tok>, pos: int) -> PRes
    decreases ts.len() - pos, 25nat,
{
    if pos < 0 || pos >= ts.len() {
        bad()
    } else {
        match p_equality(ts, pos) {
            Err(x) => Err(x),
            Ok((e, q)) => if 0 <= q < ts.len() && sees(ts, q, TokKind::Assign) && pos <= q {
                match e {
                    Ast::Identifier(name) => match p_assignment(ts, q + 1) {
                        Err(x) => Err(x),
                        Ok((v, q2)) => Ok((Ast::Assignment(name, Box::new(v)), q2)),
                    },
                    _ => Err((ParseErrorKind::InvalidAssignmentTarget, q + 1)),
                }
            } else {
                Ok((e, q))
            },
        }
    }
}

/// Left-associative chains: `left (op operand)*` for the operators of a level.
pub open spec fn p_binary_rest(ts: Seq<Tok>, left: Ast, pos: int, level: nat) -> PRes
    decreases ts.len() - pos, level + 1,
{
    if pos < 0 || pos >= ts.len() || level < 20 || level > 23 {
        bad()
    } else if level_operator(ts, pos, level) {
        match p_level(ts, pos + 1, (level - 1) as nat) {
            Err(x) => Err(x),
            Ok((r, q)) => if pos < q && q <= ts.len() {
                p_binary_rest(ts, Ast::Binary(Box::new(left), kind_at(ts, pos), Box::new(r)), q, level)
            } else {
                bad()
            },
        }
    } else {
        Ok((left, pos))
    }
}

/// The operators of each level: 23 equality, 22 comparison, 21 terms, 20 factors.
pub open spec fn level_operator(ts: Seq<Tok>, pos: int, level: nat) -> bool {
    if level == 23 {
        sees(ts, pos, TokKind::Equal) || sees(ts, pos, TokKind::NotEqual)
    } else if level == 22 {
        sees(ts, pos, TokKind::LessThan) || sees(ts, pos, TokKind::GreaterThan)
    } else if level == 21 {
        sees(ts, pos, TokKind::Plus) || sees(ts, pos, TokKind::Minus)
    } else {
        sees(ts, pos, TokKind::Multiply) || sees(ts, pos, TokKind::Divide)
    }
}

/// An expression of one level: 23 equality, 22 comparison, 21 term, 20 factor,
/// 19 unary.
pub open spec fn p_level(ts: Seq<Tok>, pos: int, level: nat) -> PRes
    decreases ts.len() - pos, level,
{
    if pos < 0 || pos >= ts.len() || level < 19 || level > 23 {
        bad()
    } else if level == 19 {
        p_unary(ts, pos)
    } else {
        match p_level(ts, pos, (level - 1) as nat) {
            Err(x) => Err(x),
            Ok((l, q)) => if pos < q && q <= ts.len() {
                p_binary_rest(ts, l, q, level)
            } else {
                bad()
            },
        }
    }
}

pub open spec fn p_equality(ts: Seq<Tok>, pos: int) -> PRes
    decreases ts.len() - pos, 24nat,
{
    if pos < 0 || pos >= ts.len() {
        bad()
    } else {
        p_level(ts, pos, 23)
    }
}

/// `unary := '-' unary | call`
pub open spec fn p_unary(ts: Seq<Tok>, pos: int) -> PRes
    decreases ts.len() - pos, 18nat,
{
    if pos < 0 || pos >= ts.len() {
        bad()
    } else if sees(ts, pos, TokKind::Minus) {
        match p_unary(ts, pos + 1) {
            Err(x) => Err(x),
            Ok((o, q)) => Ok((Ast::Unary(kind_at(ts, pos), Box::new(o)), q)),
        }
    } else {
        p_call(ts, pos)
    }
}

/// `call := primary ('(' arguments)*`
pub open spec fn p_call(ts: Seq<Tok>, pos: int) -> PRes
    decreases ts.len() - pos, 17nat,
{
    if pos < 0 || pos >= ts.len() {
        bad()
    } else {
        match p_primary(ts, pos) {
            Err(x) => Err(x),
            Ok((e, q)) => if pos < q && q <= ts.len() {
                p_call_rest(ts, e, q)
            } else {
                bad()
            },
        }
    }
}

/// The calls chained after `callee`.
pub open spec fn p_call_rest(ts: Seq<Tok>, callee: Ast, pos: int) -> PRes
    decreases ts.len() - pos, 16nat,
{
    if pos < 0 || pos >= ts.len() {
        bad()
    } else if sees(ts, pos, TokKind::LeftParen) {
        match p_arguments(ts, pos + 1, callee) {
            Err(x) => Err(x),
            Ok((call, q)) => if pos < q && q <= ts.len() {
                p_call_rest(ts, call, q)
            } else {
                bad()
            },
        }
    } else {
        Ok((callee, pos))
    }
}

/// `arguments := (expression (',' expression)*)? ')'`: the call of `callee`.
pub open spec fn p_arguments(ts: Seq<Tok>, pos: int, callee: Ast) -> PRes
    decreases ts.len() - pos, 28nat,
{
    if pos < 0 || pos >= ts.len() {
        bad()
    } else if !sees(ts, pos, TokKind::RightParen) {
        p_argument_list(ts, pos, callee, Seq::empty())
    } else {
        Ok((Ast::Call(Box::new(callee), Seq::empty()), pos + 1))
    }
}

/// The arguments from `pos` on, after `acc`, through the closing parenthesis.
pub open spec fn p_argument_list(ts: Seq<Tok>, pos: int, callee: Ast, acc: Seq<Ast>) -> PRes
    decreases ts.len() - pos, 27nat,
{
    if pos < 0 || pos >= ts.len() {
        bad()
    } else {
        match p_expression(ts, pos) {
            Err(x) => Err(x),
            Ok((a, q)) => if pos < q && q < ts.len() && sees(ts, q, TokKind::Comma) {
                p_argument_list(ts, q + 1, callee, acc.push(a))
            } else {
                match expect(ts, q, TokKind::RightParen) {
                    Err(x) => Err(x),
                    Ok(q2) => Ok((Ast::Call(Box::new(callee), acc.push(a)), q2)),
                }
            },
        }
    }
}

/// `primary := INT | FLOAT | STRING | IDENT | '(' expression ')'`
pub open spec fn p_primary(ts: Seq<Tok>, pos: int) -> PRes
    decreases ts.len() - pos, 14nat,
{
    if pos < 0 || pos >= ts.len() {
        bad()
    } else {
        match kind_at(ts, pos) {
            TokKind::IntLiteral(v) => Ok((Ast::IntLiteral(v), pos + 1)),
            TokKind::FloatLiteral(t) => Ok((Ast::FloatLiteral(t), pos + 1)),
            TokKind::StringLiteral(t) => Ok((Ast::StringLiteral(t), pos + 1)),
            TokKind::Identifier(t) => Ok((Ast::Identifier(t), pos + 1)),
            TokKind::LeftParen => match p_expression(ts, pos + 1) {
                Err(x) => Err(x),
                Ok((e, q)) => match expect(ts, q, TokKind::RightParen) {
                    Err(x) => Err(x),
                    Ok(q2) => Ok((e, q2)),
                },
            },
            _ => Err((ParseErrorKind::ExpectedExpression, pos)),
        }
    }
}

/// `program := declaration* EOF`, after `acc` was parsed.
pub open spec fn p_program(ts: Seq<Tok>, pos: int, acc: Seq<Ast>) -> PRes
    decreases ts.len() - pos, 32nat,
{
    if pos < 0 || pos >= ts.len() {
        bad()
    } else if kind_at(ts, pos) is EOF {
        Ok((Ast::Program(acc), pos))
    } else {
        match p_declaration(ts, pos) {
            Err(x) => Err(x),
            Ok((n, q)) => if pos < q && q <= ts.len() {
                p_program(ts, q, acc.push(n))
            } else {
                bad()
            },
        }
    }
}

/// The operators a binary expression can carry.
pub open spec fn is_binary_operator(t: TokenType) -> bool {
    t is Plus || t is Minus || t is Multiply || t is Divide || t is Equal || t is NotEqual
        || t is LessThan || t is GreaterThan
}

/// An expression as the parser builds it: operators from the grammar, and only
/// expressions below it.
pub open spec fn expr_shape(e: ASTNode) -> bool
    decreases e,
{
    match e {
        ASTNode::BinaryExpression { left, operator, right } => is_binary_operator(operator)
            && expr_shape(*left) && expr_shape(*right),
        ASTNode::UnaryExpression { operator, operand } => operator is Minus && expr_shape(*operand),
        ASTNode::CallExpression { callee, arguments } => expr_shape(*callee) && args_shape(
            arguments@,
        ),
        ASTNode::AssignmentExpression { name: _, value } => expr_shape(*value),
        ASTNode::IntLiteral(_) => true,
        ASTNode::FloatLiteral(_) => true,
        ASTNode::StringLiteral(_) => true,
        ASTNode::Identifier(_) => true,
        _ => false,
    }
}

pub open spec fn args_shape(args: Seq<ASTNode>) -> bool
    decreases args,
{
    args.len() == 0 || (args_shape(args.drop_last()) && expr_shape(args.last()))
}

/// A statement as the parser builds it.
pub open spec fn stmt_shape(n: ASTNode) -> bool
    decreases n,
{
    match n {
        ASTNode::VarDeclaration { var_type: _, name: _, initializer } => match initializer {
            Some(i) => expr_shape(*i),
            None => true,
        },
        ASTNode::Block(statements) => stmts_shape(statements@),
        ASTNode::ExpressionStatement(e) => expr_shape(*e),
        ASTNode::IfStatement { condition, then_branch, else_branch } => expr_shape(*condition)
            && stmt_shape(*then_branch) && match else_branch {
            Some(e) => stmt_shape(*e),
            None => true,
        },
        ASTNode::WhileStatement { condition, body } => expr_shape(*condition) && stmt_shape(*body),
        ASTNode::ReturnStatement(value) => match value {
            Some(e) => expr_shape(*e),
            None => true,
        },
        _ => false,
    }
}

pub open spec fn stmts_shape(stmts: Seq<ASTNode>) -> bool
    decreases stmts,
{
    stmts.len() == 0 || (stmts_shape(stmts.drop_last()) && stmt_shape(stmts.last()))
}

/// `e` is an error of kind `k` that reports the token at `p`.
pub open spec fn error_at(ts: Seq<Tok>, e: ParserError, k: ParseErrorKind, p: int) -> bool {
    &&& 0 <= p < ts.len()
    &&& e.kind == k
    &&& e.found@ == ts[p].kind
    &&& e.line == ts[p].line
    &&& e.column == ts[p].column
}

/// A token sequence the parser can walk: not empty, and closed by an end marker.
pub open spec fn well_terminated(tokens: Seq<Token>) -> bool {
    tokens.len() > 0 && tokens.last().token_type@ is EOF
}

} // verus!

verus! {

/// Turns a token sequence into a syntax tree by recursive descent.
pub struct Parser {
    tokens: Vec<Token>,
    current: usize,
}

/// A parsed node and the index of the first token after it.
pub type Parsed = Result<(ASTNode, usize), ParserError>;

impl Parser {
    pub closed spec fn token_seq(&self) -> Seq<Token> {
        self.tokens@
    }

    pub closed spec fn wf(&self) -> bool {
        well_terminated(self.tokens@) && self.current < self.tokens.len()
    }

    pub fn new(tokens: Vec<Token>) -> (p: Parser)
        ensures
            p.token_seq() == tokens@,
            p.position() == 0,
            well_terminated(tokens@) ==> p.wf(),
    {
        Parser { tokens, current: 0 }
    }

    /// On success the parse moved forward and stayed on a token.
    pub closed spec fn advanced(&self, pos: usize, r: Parsed) -> bool {
        r matches Ok((n, q)) ==> pos < q < self.tokens.len()
    }

    /// `r` is the exec form of the parse `s`: the same tree and position, or an
    /// error of the same kind at the same token.
    pub closed spec fn gives(&self, s: PRes, r: Parsed) -> bool {
        match s {
            Ok((a, q)) => r is Ok && ast_view(r->Ok_0.0) == a && r->Ok_0.1 == q,
            Err((k, p)) => r is Err && error_at(tokens_view(self.tokens@), r->Err_0, k, p),
        }
    }

    /// Index of the next token to parse.
    pub closed spec fn position(&self) -> int {
        self.current as int
    }

    /// The parser stands on an end marker.
    pub closed spec fn at_end(&self) -> bool {
        self.tokens@[self.current as int].token_type@ is EOF
    }

    pub closed spec fn at_eof(&self, pos: usize) -> bool {
        self.tokens@[pos as int].token_type@ is EOF
    }

    fn is_at_end(&self, pos: usize) -> (r: bool)
        requires
            pos < self.tokens.len(),
        ensures
            r == self.at_eof(pos),
    {
        matches!(self.tokens[pos].token_type, TokenType::EOF)
    }

    /// Whether the token at `pos` is of the same variant as `t` (and not the end marker).
    fn check(&self, pos: usize, t: &TokenType) -> (r: bool)
        requires
            pos < self.tokens.len(),
        ensures
            r == (!self.at_eof(pos) && tag(self.tokens@[pos as int].token_type@) == tag(t@)),
    {
        if self.is_at_end(pos) {
            return false;
        }
        token_tag(&self.tokens[pos].token_type) == token_tag(t)
    }

    fn error(&self, pos: usize, kind: ParseErrorKind, message: &str) -> (e: ParserError)
        requires
            pos < self.tokens.len(),
        ensures
            e.kind == kind,
            e.message@ == message@,
            e.found@ == self.tokens@[pos as int].token_type@,
            e.line == self.tokens@[pos as int].line,
            e.column == self.tokens@[pos as int].column,
    {
        let token = &self.tokens[pos];
        ParserError {
            kind,
            message: String::from_str(message),
            found: copy_token_type(&token.token_type),
            line: token.line,
            column: token.column,
        }
    }

    /// The position after a required token of the same variant as `t`.
    fn consume(&self, pos: usize, t: TokenType, message: &str) -> (r: Result<usize, ParserError>)
        requires
            well_terminated(self.tokens@),
            pos < self.tokens.len(),
        ensures
            r matches Ok(q) ==> q == pos + 1 && q < self.tokens.len(),
            match expect(tokens_view(self.tokens@), pos as int, t@) {
                Ok(q) => r == Ok::<usize, ParserError>(q as usize),
                Err((k, p)) => r is Err && error_at(tokens_view(self.tokens@), r->Err_0, k, p),
            },
    {
        if self.check(pos, &t) {
            Ok(pos + 1)
        } else {
            Err(self.error(pos, ParseErrorKind::ExpectedToken, message))
        }
    }

    /// Parses the whole token sequence into a program.
    pub fn parse(&mut self) -> (r: Result<ASTNode, ParserError>)
        requires
            old(self).wf(),
        ensures
            final(self).wf(),
            final(self).token_seq() == old(self).token_seq(),
            r matches Ok(n) ==> n is Program && final(self).at_end() && stmts_shape(n->Program_0@),
            match p_program(tokens_view(old(self).token_seq()), old(self).position(), Seq::empty()) {
                Ok((a, _)) => r is Ok && ast_view(r->Ok_0) == a,
                Err((k, p)) => r is Err && error_at(tokens_view(old(self).token_seq()), r->Err_0, k, p),
            },
    {
        let mut statements: Vec<ASTNode> = Vec::new();
        let ghost ts = tokens_view(self.tokens@);
        let ghost goal = p_program(ts, self.current as int, Seq::empty());
        proof {
            assert(ast_seq_view(statements@) =~= Seq::<Ast>::empty());
        }
        while !self.is_at_end(self.current)
            invariant
                self.wf(),
                self.tokens@ == old(self).tokens@,
                stmts_shape(statements@),
                ts == tokens_view(self.tokens@),
                goal == p_program(ts, old(self).current as int, Seq::empty()),
                goal == p_program(ts, self.current as int, ast_seq_view(statements@)),
            decreases self.tokens.len() - self.current,
        {
            match self.declaration(self.current) {
                Ok((n, q)) => {
                    let ghost before = statements@;
                    statements.push(n);
                    assert(statements@.drop_last() =~= before);
                    assert(ast_seq_view(statements@) == ast_seq_view(before).push(ast_view(n)));
                    self.current = q;
                },
                Err(e) => {
                    return Err(e);
                },
            }
        }
        Ok(ASTNode::Program(statements))
    }

    fn declaration(&self, pos: usize) -> (r: Parsed)
        requires
            well_terminated(self.tokens@),
            pos < self.tokens.len(),
        ensures
            self.advanced(pos, r),
            r is Ok ==> stmt_shape(r->Ok_0.0),
            self.gives(p_declaration(tokens_view(self.tokens@), pos as int), r),
        decreases self.tokens.len() - pos, 29nat,
    {
        if self.check(pos, &TokenType::Int) {
            let ty = String::from_str("int");
            proof {
                reveal_strlit("int");
                assert(ty@ =~= seq!['i', 'n', 't']);
            }
            return self.var_declaration(pos + 1, ty);
        }
        if self.check(pos, &TokenType::Float) {
            let ty = String::from_str("float");
            proof {
                reveal_strlit("float");
                assert(ty@ =~= seq!['f', 'l', 'o', 'a', 't']);
            }
            return self.var_declaration(pos + 1, ty);
        }
        self.statement(pos)
    }

    fn var_declaration(&self, pos: usize, var_type: String) -> (r: Parsed)
        requires
            well_terminated(self.tokens@),
            0 < pos < self.tokens.len(),
        ensures
            self.advanced((pos - 1) as usize, r),
            r is Ok ==> stmt_shape(r->Ok_0.0),
            self.gives(p_var_declaration(tokens_view(self.tokens@), pos as int, var_type@), r),
        decreases self.tokens.len() - pos, 27nat,
    {
        let name = match &self.tokens[pos].token_type {
            TokenType::Identifier(name) => name.clone(),
            _ => {
                return Err(self.error(pos, ParseErrorKind::ExpectedToken, "Expected identifier"));
            },
        };
        let mut p = pos + 1;
        let mut initializer: Option<Box<ASTNode>> = None;
        if self.check(p, &TokenType::Assign) {
            match self.expression(p + 1) {
                Ok((e, q)) => {
                    initializer = Some(Box::new(e));
                    p = q;
                },
                Err(e) => {
                    return Err(e);
                },
            }
        }
        let p = self.consume(p, TokenType::Semicolon, "Expected ';' after variable declaration")?;
        Ok((ASTNode::VarDeclaration { var_type, name, initializer }, p))
    }

    fn statement(&self, pos: usize) -> (r: Parsed)
        requires
            well_terminated(self.tokens@),
            pos < self.tokens.len(),
        ensures
            self.advanced(pos, r),
            r is Ok ==> stmt_shape(r->Ok_0.0),
            self.gives(p_statement(tokens_view(self.tokens@), pos as int), r),
        decreases self.tokens.len() - pos, 28nat,
    {
        if self.check(pos, &TokenType::If) {
            self.if_statement(pos + 1)
        } else if self.check(pos, &TokenType::While) {
            self.while_statement(pos + 1)
        } else if self.check(pos, &TokenType::Return) {
            self.return_statement(pos + 1)
        } else if self.check(pos, &TokenType::LeftBrace) {
            self.block(pos + 1)
        } else {
            self.expression_statement(pos)
        }
    }

    fn if_statement(&self, pos: usize) -> (r: Parsed)
        requires
            well_terminated(self.tokens@),
            0 < pos < self.tokens.len(),
        ensures
            self.advanced((pos - 1) as usize, r),
            r is Ok ==> stmt_shape(r->Ok_0.0),
            self.gives(p_if(tokens_view(self.tokens@), pos as int), r),
        decreases self.tokens.len() - pos, 27nat,
    {
        let p = self.consume(pos, TokenType::LeftParen, "Expected '(' after 'if'")?;
        let (condition, p) = self.expression(p)?;
        let p = self.consume(p, TokenType::RightParen, "Expected ')' after if condition")?;
        let (then_branch, p) = self.statement(p)?;
        if self.check(p, &TokenType::Else) {
            let (else_branch, q) = self.statement(p + 1)?;
            Ok(
                (
                    ASTNode::IfStatement {
                        condition: Box::new(condition),
                        then_branch: Box::new(then_branch),
                        else_branch: Some(Box::new(else_branch)),
                    },
                    q,
                ),
            )
        } else {
            Ok(
                (
                    ASTNode::IfStatement {
                        condition: Box::new(condition),
                        then_branch: Box::new(then_branch),
                        else_branch: None,
                    },
                    p,
                ),
            )
        }
    }

    fn while_statement(&self, pos: usize) -> (r: Parsed)
        requires
            well_terminated(self.tokens@),
            0 < pos < self.tokens.len(),
        ensures
            self.advanced((pos - 1) as usize, r),
            r is Ok ==> stmt_shape(r->Ok_0.0),
            self.gives(p_while(tokens_view(self.tokens@), pos as int), r),
        decreases self.tokens.len() - pos, 27nat,
    {
        let p = self.consume(pos, TokenType::LeftParen, "Expected '(' after 'while'")?;
        let (condition, p) = self.expression(p)?;
        let p = self.consume(p, TokenType::RightParen, "Expected ')' after while condition")?;
        let (body, p) = self.statement(p)?;
        Ok((ASTNode::WhileStatement { condition: Box::new(condition), body: Box::new(body) }, p))
    }

    fn return_statement(&self, pos: usize) -> (r: Parsed)
        requires
            well_terminated(self.tokens@),
            0 < pos < self.tokens.len(),
        ensures
            self.advanced((pos - 1) as usize, r),
            r is Ok ==> stmt_shape(r->Ok_0.0),
            self.gives(p_return(tokens_view(self.tokens@), pos as int), r),
        decreases self.tokens.len() - pos, 27nat,
    {
        let mut p = pos;
        let mut value: Option<Box<ASTNode>> = None;
        if !self.check(pos, &TokenType::Semicolon) {
            let (e, q) = self.expression(pos)?;
            value = Some(Box::new(e));
            p = q;
        }
        let p = self.consume(p, TokenType::Semicolon, "Expected ';' after return value")?;
        Ok((ASTNode::ReturnStatement(value), p))
    }

    fn block(&self, pos: usize) -> (r: Parsed)
        requires
            well_terminated(self.tokens@),
            0 < pos < self.tokens.len(),
        ensures
            self.advanced((pos - 1) as usize, r),
            r is Ok ==> stmt_shape(r->Ok_0.0),
            self.gives(p_block(tokens_view(self.tokens@), pos as int, Seq::empty()), r),
        decreases self.tokens.len() - pos, 30nat,
    {
        let mut statements: Vec<ASTNode> = Vec::new();
        let mut p = pos;
        let ghost ts = tokens_view(self.tokens@);
        let ghost goal = p_block(ts, pos as int, Seq::empty());
        proof {
            assert(ast_seq_view(statements@) =~= Seq::<Ast>::empty());
        }
        while !self.check(p, &TokenType::RightBrace) && !self.is_at_end(p)
            invariant
                well_terminated(self.tokens@),
                pos <= p < self.tokens.len(),
                stmts_shape(statements@),
                ts == tokens_view(self.tokens@),
                goal == p_block(ts, pos as int, Seq::empty()),
                goal == p_block(ts, p as int, ast_seq_view(statements@)),
            decreases self.tokens.len() - p,
        {
            let (n, q) = self.declaration(p)?;
            let ghost before = statements@;
            statements.push(n);
            assert(statements@.drop_last() =~= before);
            assert(ast_seq_view(statements@) == ast_seq_view(before).push(ast_view(n)));
            p = q;
        }
        let p = self.consume(p, TokenType::RightBrace, "Expected '}' after block")?;
        Ok((ASTNode::Block(statements), p))
    }

    fn expression_statement(&self, pos: usize) -> (r: Parsed)
        requires
            well_terminated(self.tokens@),
            pos < self.tokens.len(),
        ensures
            self.advanced(pos, r),
            r is Ok ==> stmt_shape(r->Ok_0.0),
            self.gives(p_expression_statement(tokens_view(self.tokens@), pos as int), r),
        decreases self.tokens.len() - pos, 26nat,
    {
        let (e, p) = self.expression(pos)?;
        let p = self.consume(p, TokenType::Semicolon, "Expected ';' after expression")?;
        Ok((ASTNode::ExpressionStatement(Box::new(e)), p))
    }

    fn expression(&self, pos: usize) -> (r: Parsed)
        requires
            well_terminated(self.tokens@),
            pos < self.tokens.len(),
        ensures
            self.advanced(pos, r),
            r is Ok ==> expr_shape(r->Ok_0.0),
            self.gives(p_expression(tokens_view(self.tokens@), pos as int), r),
        decreases self.tokens.len() - pos, 25nat,
    {
        self.assignment(pos)
    }

    fn assignment(&self, pos: usize) -> (r: Parsed)
        requires
            well_terminated(self.tokens@),
            pos < self.tokens.len(),
        ensures
            self.advanced(pos, r),
            r is Ok ==> expr_shape(r->Ok_0.0),
            self.gives(p_assignment(tokens_view(self.tokens@), pos as int), r),
        decreases self.tokens.len() - pos, 24nat,
    {
        assert(p_equality(tokens_view(self.tokens@), pos as int) == p_level(tokens_view(self.tokens@), pos as int, 23));
        let (expr, p) = self.equality(pos)?;
        if self.check(p, &TokenType::Assign) {
            if let ASTNode::Identifier(name) = expr {
                let (value, q) = self.assignment(p + 1)?;
                return Ok((ASTNode::AssignmentExpression { name, value: Box::new(value) }, q));
            }
            return Err(
                self.error(p + 1, ParseErrorKind::InvalidAssignmentTarget, "Invalid assignment target"),
            );
        }
        Ok((expr, p))
    }

    fn equality(&self, pos: usize) -> (r: Parsed)
        requires
            well_terminated(self.tokens@),
            pos < self.tokens.len(),
        ensures
            self.advanced(pos, r),
            r is Ok ==> expr_shape(r->Ok_0.0),
            self.gives(p_level(tokens_view(self.tokens@), pos as int, 23), r),
        decreases self.tokens.len() - pos, 23nat,
    {
        let (mut expr, mut p) = self.comparison(pos)?;
        let ghost goal = p_level(tokens_view(self.tokens@), pos as int, 23);
        while self.check(p, &TokenType::Equal) || self.check(p, &TokenType::NotEqual)
            invariant
                well_terminated(self.tokens@),
                pos < p < self.tokens.len(),
                expr_shape(expr),
                goal == p_level(tokens_view(self.tokens@), pos as int, 23),
                goal == p_binary_rest(tokens_view(self.tokens@), ast_view(expr), p as int, 23),
            decreases self.tokens.len() - p,
        {
            let operator = copy_token_type(&self.tokens[p].token_type);
            let (right, q) = self.comparison(p + 1)?;
            expr = ASTNode::BinaryExpression { left: Box::new(expr), operator, right: Box::new(right) };
            p = q;
        }
        Ok((expr, p))
    }

    fn comparison(&self, pos: usize) -> (r: Parsed)
        requires
            well_terminated(self.tokens@),
            pos < self.tokens.len(),
        ensures
            self.advanced(pos, r),
            r is Ok ==> expr_shape(r->Ok_0.0),
            self.gives(p_level(tokens_view(self.tokens@), pos as int, 22), r),
        decreases self.tokens.len() - pos, 22nat,
    {
        let (mut expr, mut p) = self.term(pos)?;
        let ghost goal = p_level(tokens_view(self.tokens@), pos as int, 22);
        while self.check(p, &TokenType::LessThan) || self.check(p, &TokenType::GreaterThan)
            invariant
                well_terminated(self.tokens@),
                pos < p < self.tokens.len(),
                expr_shape(expr),
                goal == p_level(tokens_view(self.tokens@), pos as int, 22),
                goal == p_binary_rest(tokens_view(self.tokens@), ast_view(expr), p as int, 22),
            decreases self.tokens.len() - p,
        {
            let operator = copy_token_type(&self.tokens[p].token_type);
            let (right, q) = self.term(p + 1)?;
            expr = ASTNode::BinaryExpression { left: Box::new(expr), operator, right: Box::new(right) };
            p = q;
        }
        Ok((expr, p))
    }

    fn term(&self, pos: usize) -> (r: Parsed)
        requires
            well_terminated(self.tokens@),
            pos < self.tokens.len(),
        ensures
            self.advanced(pos, r),
            r is Ok ==> expr_shape(r->Ok_0.0),
            self.gives(p_level(tokens_view(self.tokens@), pos as int, 21), r),
        decreases self.tokens.len() - pos, 21nat,
    {
        let (mut expr, mut p) = self.factor(pos)?;
        let ghost goal = p_level(tokens_view(self.tokens@), pos as int, 21);
        while self.check(p, &TokenType::Plus) || self.check(p, &TokenType::Minus)
            invariant
                well_terminated(self.tokens@),
                pos < p < self.tokens.len(),
                expr_shape(expr),
                goal == p_level(tokens_view(self.tokens@), pos as int, 21),
                goal == p_binary_rest(tokens_view(self.tokens@), ast_view(expr), p as int, 21),
            decreases self.tokens.len() - p,
        {
            let operator = copy_token_type(&self.tokens[p].token_type);
            let (right, q) = self.factor(p + 1)?;
            expr = ASTNode::BinaryExpression { left: Box::new(expr), operator, right: Box::new(right) };
            p = q;
        }
        Ok((expr, p))
    }

    fn factor(&self, pos: usize) -> (r: Parsed)
        requires
            well_terminated(self.tokens@),
            pos < self.tokens.len(),
        ensures
            self.advanced(pos, r),
            r is Ok ==> expr_shape(r->Ok_0.0),
            self.gives(p_level(tokens_view(self.tokens@), pos as int, 20), r),
        decreases self.tokens.len() - pos, 20nat,
    {
        assert(p_level(tokens_view(self.tokens@), pos as int, 19) == p_unary(tokens_view(self.tokens@), pos as int));
        let (mut expr, mut p) = self.unary(pos)?;
        let ghost goal = p_level(tokens_view(self.tokens@), pos as int, 20);
        while self.check(p, &TokenType::Multiply) || self.check(p, &TokenType::Divide)
            invariant
                well_terminated(self.tokens@),
                pos < p < self.tokens.len(),
                expr_shape(expr),
                goal == p_level(tokens_view(self.tokens@), pos as int, 20),
                goal == p_binary_rest(tokens_view(self.tokens@), ast_view(expr), p as int, 20),
            decreases self.tokens.len() - p,
        {
            let operator = copy_token_type(&self.tokens[p].token_type);
            assert(p_level(tokens_view(self.tokens@), p + 1, 19) == p_unary(tokens_view(self.tokens@), p + 1));
            let (right, q) = self.unary(p + 1)?;
            expr = ASTNode::BinaryExpression { left: Box::new(expr), operator, right: Box::new(right) };
            p = q;
        }
        Ok((expr, p))
    }

    fn unary(&self, pos: usize) -> (r: Parsed)
        requires
            well_terminated(self.tokens@),
            pos < self.tokens.len(),
        ensures
            self.advanced(pos, r),
            r is Ok ==> expr_shape(r->Ok_0.0),
            self.gives(p_unary(tokens_view(self.tokens@), pos as int), r),
        decreases self.tokens.len() - pos, 19nat,
    {
        if self.check(pos, &TokenType::Minus) {
            let operator = copy_token_type(&self.tokens[pos].token_type);
            let (operand, q) = self.unary(pos + 1)?;
            return Ok((ASTNode::UnaryExpression { operator, operand: Box::new(operand) }, q));
        }
        self.call(pos)
    }

    fn call(&self, pos: usize) -> (r: Parsed)
        requires
            well_terminated(self.tokens@),
            pos < self.tokens.len(),
        ensures
            self.advanced(pos, r),
            r is Ok ==> expr_shape(r->Ok_0.0),
            self.gives(p_call(tokens_view(self.tokens@), pos as int), r),
        decreases self.tokens.len() - pos, 18nat,
    {
        let (mut expr, mut p) = self.primary(pos)?;
        let ghost goal = p_call(tokens_view(self.tokens@), pos as int);
        while self.check(p, &TokenType::LeftParen)
            invariant
                well_terminated(self.tokens@),
                pos < p < self.tokens.len(),
                expr_shape(expr),
                goal == p_call(tokens_view(self.tokens@), pos as int),
                goal == p_call_rest(tokens_view(self.tokens@), ast_view(expr), p as int),
            decreases self.tokens.len() - p,
        {
            let (e, q) = self.finish_call(p + 1, expr)?;
            expr = e;
            p = q;
        }
        Ok((expr, p))
    }

    #[verifier::rlimit(60)]
    fn finish_call(&self, pos: usize, callee: ASTNode) -> (r: Parsed)
        requires
            expr_shape(callee),
            well_terminated(self.tokens@),
            0 < pos < self.tokens.len(),
        ensures
            self.advanced((pos - 1) as usize, r),
            r is Ok ==> expr_shape(r->Ok_0.0),
            self.gives(p_arguments(tokens_view(self.tokens@), pos as int, ast_view(callee)), r),
        decreases self.tokens.len() - pos, 26nat,
    {
        let mut arguments: Vec<ASTNode> = Vec::new();
        assert(args_shape(arguments@));
        let mut p = pos;
        let ghost ts = tokens_view(self.tokens@);
        let ghost c = ast_view(callee);
        let ghost goal = p_arguments(ts, pos as int, c);
        proof {
            assert(ast_seq_view(arguments@) =~= Seq::<Ast>::empty());
        }
        if !self.check(p, &TokenType::RightParen) {
            let mut more = true;
            while more
                invariant
                    well_terminated(self.tokens@),
                    pos <= p < self.tokens.len(),
                    args_shape(arguments@),
                    ts == tokens_view(self.tokens@),
                    goal == p_arguments(ts, pos as int, c),
                    c == ast_view(callee),
                    more ==> goal == p_argument_list(ts, p as int, c, ast_seq_view(arguments@)),
                    !more ==> goal == match expect(ts, p as int, TokKind::RightParen) {
                        Err(x) => Err(x),
                        Ok(q2) => Ok((Ast::Call(Box::new(c), ast_seq_view(arguments@)), q2)),
                    },
                decreases self.tokens.len() - p + if more { 1int } else { 0int },
            {
                let (arg, q) = self.expression(p)?;
                let ghost before = arguments@;
                arguments.push(arg);
                assert(arguments@.drop_last() =~= before);
                assert(args_shape(arguments@));
                assert(ast_seq_view(arguments@) == ast_seq_view(before).push(ast_view(arg)));
                if self.check(q, &TokenType::Comma) {
                    p = q + 1;
                } else {
                    p = q;
                    more = false;
                }
            }
        } else {
            assert(goal == match expect(ts, p as int, TokKind::RightParen) {
                Err(x) => Err(x),
                Ok(q2) => Ok((Ast::Call(Box::new(c), ast_seq_view(arguments@)), q2)),
            });
        }
        let p = self.consume(p, TokenType::RightParen, "Expected ')' after arguments")?;
        Ok((ASTNode::CallExpression { callee: Box::new(callee), arguments }, p))
    }

    fn primary(&self, pos: usize) -> (r: Parsed)
        requires
            well_terminated(self.tokens@),
            pos < self.tokens.len(),
        ensures
            self.advanced(pos, r),
            r is Ok ==> expr_shape(r->Ok_0.0),
            self.gives(p_primary(tokens_view(self.tokens@), pos as int), r),
        decreases self.tokens.len() - pos, 17nat,
    {
        match &self.tokens[pos].token_type {
            TokenType::IntLiteral(v) => Ok((ASTNode::IntLiteral(*v), pos + 1)),
            TokenType::FloatLiteral(s) => Ok((ASTNode::FloatLiteral(s.clone()), pos + 1)),
            TokenType::StringLiteral(s) => Ok((ASTNode::StringLiteral(s.clone()), pos + 1)),
            TokenType::Identifier(s) => Ok((ASTNode::Identifier(s.clone()), pos + 1)),
            TokenType::LeftParen => {
                let (e, p) = self.expression(pos + 1)?;
                let p = self.consume(p, TokenType::RightParen, "Expected ')' after expression")?;
                Ok((e, p))
            },
            _ => Err(self.error(pos, ParseErrorKind::ExpectedExpression, "Expected expression")),
        }
    }
}

} // verus!
