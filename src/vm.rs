use vstd::prelude::*;
use vstd::string::StringExecFns;
use crate::lexer::{chars_of, string_from};

verus! {

/// The arithmetic a machine computes with. Each operation is given by a spec
/// function of the implementing type, and the executable method returns exactly
/// what that function names: results depend on the operands alone. An
/// implementation defines each spec function as its executable counterpart
/// (`sum` as `plus`, `shown` as `render`, and so on).
pub trait Number: Copy {
    /// The number an integer literal denotes.
    spec fn of_int(v: i64) -> Self;

    /// The number a literal of digits with one `.` denotes.
    spec fn of_literal(text: String) -> Self;

    spec fn sum(self, other: Self) -> Self;

    spec fn difference(self, other: Self) -> Self;

    spec fn product(self, other: Self) -> Self;

    spec fn quotient(self, other: Self) -> Self;

    spec fn negation(self) -> Self;

    /// Whether this number is zero, so that dividing by it is an error.
    spec fn zero(self) -> bool;

    spec fn same(self, other: Self) -> bool;

    spec fn less(self, other: Self) -> bool;

    spec fn greater(self, other: Self) -> bool;

    /// How the number reads in the output.
    spec fn shown(self) -> String;

    fn from_int(v: i64) -> (r: Self)
        ensures
            r == Self::of_int(v),
    ;

    fn from_literal(text: &String) -> (r: Self)
        ensures
            r == Self::of_literal(*text),
    ;

    fn plus(self, other: Self) -> (r: Self)
        ensures
            r == self.sum(other),
    ;

    fn minus(self, other: Self) -> (r: Self)
        ensures
            r == self.difference(other),
    ;

    fn times(self, other: Self) -> (r: Self)
        ensures
            r == self.product(other),
    ;

    fn divided_by(self, other: Self) -> (r: Self)
        ensures
            r == self.quotient(other),
    ;

    fn negated(self) -> (r: Self)
        ensures
            r == self.negation(),
    ;

    fn is_zero(self) -> (r: bool)
        ensures
            r == self.zero(),
    ;

    fn equals(self, other: Self) -> (r: bool)
        ensures
            r == self.same(other),
    ;

    fn less_than(self, other: Self) -> (r: bool)
        ensures
            r == self.less(other),
    ;

    fn greater_than(self, other: Self) -> (r: bool)
        ensures
            r == self.greater(other),
    ;

    fn render(self) -> (r: String)
        ensures
            r == self.shown(),
    ;
}

/// A runtime value.
#[derive(Debug, Clone)]
pub enum Value<N> {
    Number(N),
    String(String),
    Boolean(bool),
    Null,
}

/// One machine instruction. Jump and call targets are absolute indices.
#[derive(Debug, Clone)]
pub enum Instruction<N> {
    Push(Value<N>),
    Pop,
    Duplicate,
    Add,
    Subtract,
    Multiply,
    Divide,
    Negate,
    Equal,
    NotEqual,
    GreaterThan,
    LessThan,
    /// Pops the top value into the named global.
    DefineVariable(String),
    /// Writes the top value into the named global and leaves it on the stack.
    StoreVariable(String),
    LoadVariable(String),
    /// Pushes the value in the given stack slot.
    GetLocal(usize),
    /// Writes the top value into the given stack slot and leaves it on the stack.
    SetLocal(usize),
    Jump(usize),
    JumpIfFalse(usize),
    Call(String, usize),
    Return,
    Print,
    Halt,
}

/// The operations whose operand types are checked.
#[derive(Debug, Clone, Copy, PartialEq, Eq)]
pub enum Operation {
    Addition,
    Subtraction,
    Multiplication,
    Division,
    Negation,
    GreaterThan,
    LessThan,
}

#[derive(Debug, Clone, PartialEq)]
pub enum RuntimeError {
    StackUnderflow,
    TypeError(Operation),
    DivisionByZero,
    UndefinedVariable(String),
    UndefinedFunction(String),
    /// The run went on for `u64::MAX` instructions.
    StepLimitReached,
}

/// Mathematical form of a runtime value: a string as its characters.
pub enum Val<N> {
    Number(N),
    Str(Seq<char>),
    Boolean(bool),
    Null,
}

pub open spec fn val<N>(v: Value<N>) -> Val<N> {
    match v {
        Value::Number(n) => Val::Number(n),
        Value::String(s) => Val::Str(s@),
        Value::Boolean(b) => Val::Boolean(b),
        Value::Null => Val::Null,
    }
}

pub open spec fn vals<N>(s: Seq<Value<N>>) -> Seq<Val<N>> {
    s.map_values(|v: Value<N>| val(v))
}

/// The machine's state, as mathematics.
pub struct MachineState<N> {
    pub ip: int,
    pub stack: Seq<Val<N>>,
    pub globals: Map<Seq<char>, Val<N>>,
    pub calls: Seq<usize>,
    pub output: Seq<char>,
    pub last: Option<Val<N>>,
}

/// What one instruction does.
pub enum Outcome<N> {
    Next(MachineState<N>),
    Fail(RuntimeError),
}

/// The value bound to `k`: the latest binding of it.
pub open spec fn lookup<N>(g: Seq<(String, Value<N>)>, k: Seq<char>) -> Option<Value<N>>
    decreases g.len(),
{
    if g.len() == 0 {
        None
    } else if g.last().0@ == k {
        Some(g.last().1)
    } else {
        lookup(g.drop_last(), k)
    }
}

/// The globals bound by an association list, each name to its latest binding.
pub open spec fn globals_map<N>(g: Seq<(String, Value<N>)>) -> Map<Seq<char>, Val<N>> {
    Map::new(|k: Seq<char>| lookup(g, k) is Some, |k: Seq<char>| val(lookup(g, k)->Some_0))
}

/// `h` binds `k` to `v` and every other name as `g` does.
pub open spec fn rebinds<N>(
    g: Seq<(String, Value<N>)>,
    h: Seq<(String, Value<N>)>,
    k: Seq<char>,
    v: Value<N>,
) -> bool {
    forall|x: Seq<char>| #[trigger]
        lookup(h, x) == if x == k {
            Some(v)
        } else {
            lookup(g, x)
        }
}

/// How a value reads in the output.
pub open spec fn display<N: Number>(v: Val<N>) -> Seq<char> {
    match v {
        Val::Number(n) => n.shown()@,
        Val::Str(s) => s,
        Val::Boolean(b) => if b {
            seq!['t', 'r', 'u', 'e']
        } else {
            seq!['f', 'a', 'l', 's', 'e']
        },
        Val::Null => seq!['n', 'u', 'l', 'l'],
    }
}

pub open spec fn fn_prefix() -> Seq<char> {
    seq!['f', 'n', '_']
}

/// Index `i` of `code` registers the function `name`: it defines or stores the
/// variable `fn_<name>`, and no later instruction does.
pub open spec fn registers<N>(code: Seq<Instruction<N>>, name: Seq<char>, i: int) -> bool {
    &&& 0 <= i < code.len()
    &&& names_function(code[i], name)
    &&& forall|j: int| i < j < code.len() ==> !names_function(#[trigger] code[j], name)
}

pub open spec fn names_function<N>(ins: Instruction<N>, name: Seq<char>) -> bool {
    match ins {
        Instruction::DefineVariable(v) => v@ == fn_prefix() + name,
        Instruction::StoreVariable(v) => v@ == fn_prefix() + name,
        _ => false,
    }
}

/// The state with the stack replaced and the next instruction selected.
pub open spec fn with_stack<N>(s: MachineState<N>, stack: Seq<Val<N>>) -> MachineState<N> {
    MachineState { ip: s.ip + 1, stack: stack, ..s }
}

/// What a binary operator makes of the values `a` (below) and `b`: the value
/// it pushes, or the error it stops with.
pub open spec fn binary_result<N: Number>(
    ins: Instruction<N>,
    a: Val<N>,
    b: Val<N>,
    r: Result<Val<N>, RuntimeError>,
) -> bool {
    let both = a is Number && b is Number;
    let x = a->Number_0;
    let y = b->Number_0;
    let gives = |v: Val<N>| r == Ok::<Val<N>, RuntimeError>(v);
    let type_error = |op: Operation| r == Err::<Val<N>, RuntimeError>(RuntimeError::TypeError(op));
    match ins {
        Instruction::Add => if both {
            gives(Val::Number(x.sum(y)))
        } else if a is Str && b is Str {
            gives(Val::Str(a->Str_0 + b->Str_0))
        } else {
            type_error(Operation::Addition)
        },
        Instruction::Subtract => if both {
            gives(Val::Number(x.difference(y)))
        } else {
            type_error(Operation::Subtraction)
        },
        Instruction::Multiply => if both {
            gives(Val::Number(x.product(y)))
        } else {
            type_error(Operation::Multiplication)
        },
        Instruction::Divide => if both {
            if y.zero() {
                r == Err::<Val<N>, RuntimeError>(RuntimeError::DivisionByZero)
            } else {
                gives(Val::Number(x.quotient(y)))
            }
        } else {
            type_error(Operation::Division)
        },
        Instruction::GreaterThan => if both {
            gives(Val::Boolean(x.greater(y)))
        } else {
            type_error(Operation::GreaterThan)
        },
        Instruction::LessThan => if both {
            gives(Val::Boolean(x.less(y)))
        } else {
            type_error(Operation::LessThan)
        },
        Instruction::Equal => if both {
            gives(Val::Boolean(x.same(y)))
        } else {
            gives(Val::Boolean(same_value(a, b)))
        },
        Instruction::NotEqual => if both {
            gives(Val::Boolean(!x.same(y)))
        } else {
            gives(Val::Boolean(!same_value(a, b)))
        },
        _ => false,
    }
}

/// A binary operator on a stack of two or more: the two top values give way to its result.
pub open spec fn binary_step<N: Number>(ins: Instruction<N>, s: MachineState<N>, o: Outcome<N>) -> bool {
    let n = s.stack.len();
    let a = s.stack[n - 2];
    let b = s.stack[n - 1];
    match o {
        Outcome::Next(t) => t.stack.len() > 0 && t == with_stack(
            s,
            s.stack.take(n - 2).push(t.stack.last()),
        ) && binary_result(ins, a, b, Ok(t.stack.last())),
        Outcome::Fail(e) => binary_result(ins, a, b, Err(e)),
    }
}

/// Equality of two values that are not both numbers: strings and booleans by
/// value, any other pairing unequal.
pub open spec fn same_value<N>(a: Val<N>, b: Val<N>) -> bool {
    match (a, b) {
        (Val::Str(x), Val::Str(y)) => x == y,
        (Val::Boolean(x), Val::Boolean(y)) => x == y,
        _ => false,
    }
}

pub open spec fn is_binary<N>(ins: Instruction<N>) -> bool {
    ins is Add || ins is Subtract || ins is Multiply || ins is Divide || ins is GreaterThan
        || ins is LessThan || ins is Equal || ins is NotEqual
}

/// The run stops before the instruction at `s.ip`: past the end, or at `Halt`.
pub open spec fn stopped<N>(code: Seq<Instruction<N>>, s: MachineState<N>) -> bool {
    s.ip < 0 || s.ip >= code.len() || code[s.ip] is Halt
}

/// What the instruction at `s.ip` does (`s` not stopped).
pub open spec fn step<N: Number>(code: Seq<Instruction<N>>, s: MachineState<N>, o: Outcome<N>) -> bool {
    let ins = code[s.ip];
    let n = s.stack.len();
    let next = |t: MachineState<N>| o == Outcome::Next(t);
    let underflow = o == Outcome::<N>::Fail(RuntimeError::StackUnderflow);
    if is_binary(ins) {
        if n < 2 {
            underflow
        } else {
            binary_step(ins, s, o)
        }
    } else {
        match ins {
            Instruction::Push(v) => next(with_stack(s, s.stack.push(val(v)))),
            Instruction::Pop => if n == 0 {
                underflow
            } else {
                next(MachineState { last: Some(s.stack.last()), ..with_stack(s, s.stack.drop_last()) })
            },
            Instruction::Duplicate => if n == 0 {
                underflow
            } else {
                next(with_stack(s, s.stack.push(s.stack.last())))
            },
            Instruction::Negate => if n == 0 {
                underflow
            } else if s.stack.last() is Number {
                next(
                    with_stack(
                        s,
                        s.stack.drop_last().push(Val::Number(s.stack.last()->Number_0.negation())),
                    ),
                )
            } else {
                o == Outcome::<N>::Fail(RuntimeError::TypeError(Operation::Negation))
            },
            Instruction::DefineVariable(k) => if n == 0 {
                underflow
            } else {
                next(
                    MachineState {
                        globals: s.globals.insert(k@, s.stack.last()),
                        ..with_stack(s, s.stack.drop_last())
                    },
                )
            },
            Instruction::StoreVariable(k) => if n == 0 {
                underflow
            } else {
                next(
                    MachineState {
                        globals: s.globals.insert(k@, s.stack.last()),
                        ..with_stack(s, s.stack)
                    },
                )
            },
            Instruction::LoadVariable(k) => if s.globals.contains_key(k@) {
                next(with_stack(s, s.stack.push(s.globals[k@])))
            } else {
                o is Fail && o->Fail_0 is UndefinedVariable && o->Fail_0->UndefinedVariable_0@
                    == k@
            },
            Instruction::GetLocal(slot) => if slot < n {
                next(with_stack(s, s.stack.push(s.stack[slot as int])))
            } else {
                underflow
            },
            Instruction::SetLocal(slot) => if n > 0 && slot < n {
                next(with_stack(s, s.stack.update(slot as int, s.stack.last())))
            } else {
                underflow
            },
            Instruction::Jump(t) => next(MachineState { ip: t as int, ..s }),
            Instruction::JumpIfFalse(t) => if n == 0 {
                underflow
            } else {
                next(
                    MachineState {
                        ip: if s.stack.last() == Val::<N>::Boolean(false) {
                            t as int
                        } else {
                            s.ip + 1
                        },
                        stack: s.stack.drop_last(),
                        ..s
                    },
                )
            },
            Instruction::Call(name, _) => if exists|i: int| registers(code, name@, i) {
                o is Next && registers(code, name@, o->Next_0.ip) && o->Next_0 == MachineState {
                    ip: o->Next_0.ip,
                    calls: s.calls.push((s.ip + 1) as usize),
                    ..s
                }
            } else {
                o is Fail && o->Fail_0 is UndefinedFunction && o->Fail_0->UndefinedFunction_0@
                    == name@
            },
            Instruction::Return => if s.calls.len() == 0 {
                next(MachineState { ip: s.ip + 1, ..s })
            } else {
                next(MachineState { ip: s.calls.last() as int, calls: s.calls.drop_last(), ..s })
            },
            Instruction::Print => if n == 0 {
                underflow
            } else {
                next(
                    MachineState {
                        output: s.output + display(s.stack.last()) + seq!['\n'],
                        ..with_stack(s, s.stack.drop_last())
                    },
                )
            },
            _ => false,
        }
    }
}

/// The state every run starts from.
pub open spec fn initial<N>() -> MachineState<N> {
    MachineState {
        ip: 0,
        stack: Seq::empty(),
        globals: Map::empty(),
        calls: Seq::empty(),
        output: Seq::empty(),
        last: None,
    }
}

/// `tr` is a run of `code`: it starts from the initial state and each state is
/// what the instruction at the one before makes of it.
pub open spec fn is_run<N: Number>(code: Seq<Instruction<N>>, tr: Seq<MachineState<N>>) -> bool {
    &&& tr.len() > 0
    &&& tr[0] == initial::<N>()
    &&& forall|i: int|
        0 <= i < tr.len() - 1 ==> !stopped(code, #[trigger] tr[i]) && step(
            code,
            tr[i],
            Outcome::Next(tr[i + 1]),
        )
}

/// Some run of `code` stops (past the end or at `Halt`) with `out` as its final output.
pub open spec fn runs_to<N: Number>(code: Seq<Instruction<N>>, out: Seq<char>) -> bool {
    exists|tr: Seq<MachineState<N>>|
        is_run(code, tr) && stopped(code, tr.last()) && final_output(tr.last(), out)
}

/// The step limit: a run that has not stopped after this many instructions is cut off.
pub open spec fn step_limit() -> int {
    u64::MAX as int
}

/// A run of `code` ends at an instruction that fails with `e`; or, for the
/// step-limit error, a run of `code` has gone past the limit without stopping.
pub open spec fn fails_with<N: Number>(code: Seq<Instruction<N>>, e: RuntimeError) -> bool {
    if e is StepLimitReached {
        exists|tr: Seq<MachineState<N>>|
            is_run(code, tr) && tr.len() > step_limit() && !stopped(code, tr.last())
    } else {
        exists|tr: Seq<MachineState<N>>|
            is_run(code, tr) && !stopped(code, tr.last()) && step(code, tr.last(), Outcome::Fail(e))
    }
}

/// At most one index registers a name.
proof fn lemma_registers_unique<N>(code: Seq<Instruction<N>>, name: Seq<char>, i: int, j: int)
    requires
        registers(code, name, i),
        registers(code, name, j),
    ensures
        i == j,
{
    if i < j {
        assert(!names_function(code[j], name));
    } else if j < i {
        assert(!names_function(code[i], name));
    }
}

/// An instruction has one outcome: it cannot both go on and fail, and where it
/// goes on it goes to one state.
pub proof fn lemma_step_deterministic<N: Number>(
    code: Seq<Instruction<N>>,
    s: MachineState<N>,
    t: MachineState<N>,
    o: Outcome<N>,
)
    requires
        !stopped(code, s),
        step(code, s, Outcome::Next(t)),
        step(code, s, o),
    ensures
        o == Outcome::Next(t),
{
    let ins = code[s.ip];
    if ins is Call {
        if o is Next {
            lemma_registers_unique(code, ins->Call_0@, t.ip, o->Next_0.ip);
        }
    }
}

/// Two runs of the same code agree as far as both go.
pub proof fn lemma_runs_agree<N: Number>(
    code: Seq<Instruction<N>>,
    a: Seq<MachineState<N>>,
    b: Seq<MachineState<N>>,
    i: int,
)
    requires
        is_run(code, a),
        is_run(code, b),
        0 <= i < a.len(),
        i < b.len(),
    ensures
        a[i] == b[i],
    decreases i,
{
    if i > 0 {
        lemma_runs_agree(code, a, b, i - 1);
        assert(step(code, a[i - 1], Outcome::Next(a[i])));
        assert(step(code, b[i - 1], Outcome::Next(b[i])));
        lemma_step_deterministic(code, a[i - 1], a[i], Outcome::Next(b[i]));
    }
}

/// A run that stops within the step limit leaves no room for an error: no run
/// of the same code fails, or goes past the limit.
pub proof fn lemma_stop_excludes_failure<N: Number>(
    code: Seq<Instruction<N>>,
    done: Seq<MachineState<N>>,
    e: RuntimeError,
)
    requires
        is_run(code, done),
        stopped(code, done.last()),
        done.len() <= step_limit(),
    ensures
        !fails_with(code, e),
{
    let k = done.len() - 1;
    if fails_with(code, e) {
        if e is StepLimitReached {
            let long = choose|tr: Seq<MachineState<N>>|
                is_run(code, tr) && tr.len() > step_limit() && !stopped(code, tr.last());
            lemma_runs_agree(code, done, long, k);
            assert(!stopped(code, long[k]));
        } else {
            let bad = choose|tr: Seq<MachineState<N>>|
                is_run(code, tr) && !stopped(code, tr.last()) && step(code, tr.last(), Outcome::Fail(e));
            let m = bad.len() - 1;
            if m < k {
                lemma_runs_agree(code, done, bad, m);
                assert(step(code, done[m], Outcome::Next(done[m + 1])));
                lemma_step_deterministic(code, done[m], done[m + 1], Outcome::Fail(e));
            } else if m == k {
                lemma_runs_agree(code, done, bad, k);
            } else {
                lemma_runs_agree(code, done, bad, k);
                assert(!stopped(code, bad[k]));
            }
        }
    }
}

/// Running the same code twice gives the same output: a code's runs that stop
/// end in one state.
pub proof fn lemma_output_unique<N: Number>(code: Seq<Instruction<N>>, first: Seq<char>, second: Seq<char>)
    requires
        runs_to(code, first),
        runs_to(code, second),
    ensures
        first == second,
{
    let a = choose|tr: Seq<MachineState<N>>|
        is_run(code, tr) && stopped(code, tr.last()) && final_output(tr.last(), first);
    let b = choose|tr: Seq<MachineState<N>>|
        is_run(code, tr) && stopped(code, tr.last()) && final_output(tr.last(), second);
    if a.len() < b.len() {
        lemma_runs_agree(code, a, b, a.len() - 1);
        assert(!stopped(code, b[a.len() - 1]));
    } else if b.len() < a.len() {
        lemma_runs_agree(code, a, b, b.len() - 1);
        assert(!stopped(code, a[b.len() - 1]));
    } else {
        lemma_runs_agree(code, a, b, a.len() - 1);
    }
}

/// Some run of `code` stops within the step limit.
pub open spec fn stops_within_limit<N: Number>(code: Seq<Instruction<N>>) -> bool {
    exists|tr: Seq<MachineState<N>>|
        is_run(code, tr) && stopped(code, tr.last()) && tr.len() <= step_limit()
}

/// Where some run stops within the limit, no run fails.
pub proof fn lemma_no_failure_when_stopping<N: Number>(code: Seq<Instruction<N>>, e: RuntimeError)
    requires
        stops_within_limit(code),
    ensures
        !fails_with(code, e),
{
    let done = choose|tr: Seq<MachineState<N>>|
        is_run(code, tr) && stopped(code, tr.last()) && tr.len() <= step_limit();
    lemma_stop_excludes_failure(code, done, e);
}

/// The newline that goes before an added result: only after output that does not end in one.
pub open spec fn separator(out: Seq<char>) -> Seq<char> {
    if out.len() > 0 && out.last() != '\n' {
        seq!['\n']
    } else {
        Seq::empty()
    }
}

/// The value a finished run reports besides what it printed: the top of the
/// stack, else the last value popped.
pub open spec fn result_value<N>(s: MachineState<N>) -> Option<Val<N>> {
    if s.stack.len() > 0 {
        Some(s.stack.last())
    } else {
        s.last
    }
}

/// `out` is the final output of a run that stopped in `s`.
pub open spec fn final_output<N: Number>(s: MachineState<N>, out: Seq<char>) -> bool {
    match result_value(s) {
        Some(v) => out == s.output + separator(s.output) + display(v),
        None => out == s.output,
    }
}


proof fn lemma_lookup_last<N>(g: Seq<(String, Value<N>)>, k: Seq<char>, i: int)
    requires
        0 <= i < g.len(),
        g[i].0@ == k,
        forall|j: int| i < j < g.len() ==> #[trigger] g[j].0@ != k,
    ensures
        lookup(g, k) == Some(g[i].1),
    decreases g.len(),
{
    if i < g.len() - 1 {
        assert(g.drop_last()[i] == g[i]);
        lemma_lookup_last(g.drop_last(), k, i);
    }
}

proof fn lemma_lookup_none<N>(g: Seq<(String, Value<N>)>, k: Seq<char>)
    requires
        forall|j: int| 0 <= j < g.len() ==> #[trigger] g[j].0@ != k,
    ensures
        lookup(g, k) is None,
    decreases g.len(),
{
    if g.len() > 0 {
        lemma_lookup_none(g.drop_last(), k);
    }
}

/// Rebinding one name changes the globals just at that name.
proof fn lemma_rebinds_map<N>(g: Seq<(String, Value<N>)>, h: Seq<(String, Value<N>)>, k: Seq<char>, v: Value<N>)
    requires
        rebinds(g, h, k, v),
    ensures
        globals_map(h) == globals_map(g).insert(k, val(v)),
{
    assert forall|x: Seq<char>| #[trigger] globals_map(h).contains_key(x) == globals_map(g).insert(k, val(v)).contains_key(x) by {
        assert(lookup(h, x) == if x == k { Some(v) } else { lookup(g, x) });
    }
    assert forall|x: Seq<char>| globals_map(h).contains_key(x) implies #[trigger] globals_map(h)[x] == globals_map(g).insert(k, val(v))[x] by {
        assert(lookup(h, x) == if x == k { Some(v) } else { lookup(g, x) });
    }
    assert(globals_map(h) =~= globals_map(g).insert(k, val(v)));
}

/// Rewriting the latest binding of `k` rebinds `k` and leaves every other name alone.
proof fn lemma_lookup_update<N>(g: Seq<(String, Value<N>)>, i: int, k: String, v: Value<N>, x: Seq<char>)
    requires
        0 <= i < g.len(),
        g[i].0@ == k@,
        forall|j: int| i < j < g.len() ==> #[trigger] g[j].0@ != k@,
    ensures
        lookup(g.update(i, (k, v)), x) == if x == k@ {
            Some(v)
        } else {
            lookup(g, x)
        },
    decreases g.len(),
{
    let h = g.update(i, (k, v));
    if x == k@ {
        lemma_lookup_last(h, x, i);
    } else if i < g.len() - 1 {
        assert(h.last() == g.last());
        assert(h.drop_last() =~= g.drop_last().update(i, (k, v)));
        lemma_lookup_update(g.drop_last(), i, k, v, x);
    } else {
        assert(h.drop_last() =~= g.drop_last());
    }
}

/// A copy of a value.
fn copy_value<N: Number>(v: &Value<N>) -> (r: Value<N>)
    ensures
        r == *v,
{
    match v {
        Value::Number(n) => Value::Number(*n),
        Value::String(s) => Value::String(s.clone()),
        Value::Boolean(b) => Value::Boolean(*b),
        Value::Null => Value::Null,
    }
}

/// How a value reads in the output.
fn show<N: Number>(v: &Value<N>) -> (r: String)
    ensures
        r@ == display(val(*v)),
{
    match v {
        Value::Number(n) => n.render(),
        Value::String(s) => s.clone(),
        Value::Boolean(b) => {
            if *b {
                let r = String::from_str("true");
                proof {
                    reveal_strlit("true");
                    assert(r@ =~= seq!['t', 'r', 'u', 'e']);
                }
                r
            } else {
                let r = String::from_str("false");
                proof {
                    reveal_strlit("false");
                    assert(r@ =~= seq!['f', 'a', 'l', 's', 'e']);
                }
                r
            }
        },
        Value::Null => {
            let r = String::from_str("null");
            proof {
                reveal_strlit("null");
                assert(r@ =~= seq!['n', 'u', 'l', 'l']);
            }
            r
        },
    }
}

/// The name after the `fn_` that starts `v`, if it starts so.
fn fn_suffix(v: &String) -> (r: Option<String>)
    ensures
        match r {
            Some(k) => v@ == fn_prefix() + k@,
            None => forall|k: Seq<char>| v@ != fn_prefix() + k,
        },
{
    let vc = chars_of(v.as_str());
    if vc.len() >= 3 && vc[0] == 'f' && vc[1] == 'n' && vc[2] == '_' {
        let k = string_from(&vc, 3, vc.len());
        assert(v@ =~= fn_prefix() + k@);
        Some(k)
    } else {
        assert forall|k: Seq<char>| v@ != fn_prefix() + k by {
            if v@ == fn_prefix() + k {
                assert(vc@[0] == (fn_prefix() + k)[0]);
                assert(vc@[1] == (fn_prefix() + k)[1]);
                assert(vc@[2] == (fn_prefix() + k)[2]);
            }
        }
        None
    }
}

/// The callable table of `code`: one entry per instruction that defines or
/// stores a `fn_` variable, in code order, keyed by the name after `fn_`.
pub open spec fn table_of<N>(code: Seq<Instruction<N>>, table: Seq<(String, usize)>) -> bool {
    &&& forall|e: int|
        0 <= e < table.len() ==> (#[trigger] table[e]).1 < code.len() && names_function(
            code[table[e].1 as int],
            table[e].0@,
        )
    &&& forall|e1: int, e2: int|
        0 <= e1 < e2 < table.len() ==> (#[trigger] table[e1]).1 < (#[trigger] table[e2]).1
    &&& forall|m: int, k: Seq<char>|
        0 <= m < code.len() && #[trigger] names_function(code[m], k) ==> exists|e: int|
            0 <= e < table.len() && (#[trigger] table[e]).1 == m && table[e].0@ == k
}

/// Builds the callable table of `code` in one pass.
fn register_functions<N: Number>(code: &[Instruction<N>]) -> (table: Vec<(String, usize)>)
    ensures
        table_of(code@, table@),
{
    let mut table: Vec<(String, usize)> = Vec::new();
    let mut i: usize = 0;
    while i < code.len()
        invariant
            i <= code.len(),
            forall|e: int|
                0 <= e < table.len() ==> (#[trigger] table@[e]).1 < i && names_function(
                    code@[table@[e].1 as int],
                    table@[e].0@,
                ),
            forall|e1: int, e2: int|
                0 <= e1 < e2 < table.len() ==> (#[trigger] table@[e1]).1 < (#[trigger] table@[e2]).1,
            forall|m: int, k: Seq<char>|
                0 <= m < i && #[trigger] names_function(code@[m], k) ==> exists|e: int|
                    0 <= e < table.len() && (#[trigger] table@[e]).1 == m && table@[e].0@ == k,
        decreases code.len() - i,
    {
        let suffix = match &code[i] {
            Instruction::DefineVariable(v) => fn_suffix(v),
            Instruction::StoreVariable(v) => fn_suffix(v),
            _ => None,
        };
        let ghost before = table@;
        match suffix {
            Some(k) => {
                table.push((k, i));
                assert forall|m: int, x: Seq<char>|
                    0 <= m < i + 1 && #[trigger] names_function(code@[m], x) implies exists|e: int|
                        0 <= e < table.len() && (#[trigger] table@[e]).1 == m && table@[e].0@ == x by {
                    if m < i {
                        let e = choose|e: int|
                            0 <= e < before.len() && (#[trigger] before[e]).1 == m && before[e].0@ == x;
                        assert(table@[e] == before[e]);
                    } else {
                        assert(table@[before.len() as int].1 == m);
                        assert(fn_prefix() + x == fn_prefix() + table@[before.len() as int].0@);
                        assert(x =~= (fn_prefix() + x).subrange(3, (fn_prefix() + x).len() as int));
                        assert(table@[before.len() as int].0@ =~= (fn_prefix() + table@[before.len() as int].0@).subrange(3, (fn_prefix() + x).len() as int));
                    }
                }
            },
            None => {
                assert forall|m: int, x: Seq<char>|
                    0 <= m < i + 1 && #[trigger] names_function(code@[m], x) implies exists|e: int|
                        0 <= e < table.len() && (#[trigger] table@[e]).1 == m && table@[e].0@ == x by {
                    if m == i {
                        assert(!names_function(code@[m], x));
                    }
                }
            },
        }
        i = i + 1;
    }
    table
}

/// The entry point registered for `name` in the table, if any.
fn find_function<N: Number>(code: &[Instruction<N>], table: &Vec<(String, usize)>, name: &String) -> (r: Option<usize>)
    requires
        table_of(code@, table@),
    ensures
        match r {
            Some(i) => registers(code@, name@, i as int),
            None => !exists|i: int| registers(code@, name@, i),
        },
{
    let mut e = table.len();
    while e > 0
        invariant
            e <= table.len(),
            table_of(code@, table@),
            forall|f: int| e <= f < table.len() ==> (#[trigger] table@[f]).0@ != name@,
        decreases e,
    {
        e = e - 1;
        if table[e].0 == *name {
            let j = table[e].1;
            assert forall|m: int| j < m < code@.len() implies !names_function(#[trigger] code@[m], name@) by {
                if names_function(code@[m], name@) {
                    let f = choose|f: int|
                        0 <= f < table@.len() && (#[trigger] table@[f]).1 == m && table@[f].0@ == name@;
                    if f <= e {
                        if f < e {
                            assert(table@[f].1 < table@[e as int].1);
                        }
                    }
                }
            }
            return Some(j);
        }
    }
    assert forall|i: int| !registers(code@, name@, i) by {
        if 0 <= i < code@.len() && names_function(code@[i], name@) {
            let f = choose|f: int| 0 <= f < table@.len() && (#[trigger] table@[f]).1 == i && table@[f].0@ == name@;
        }
    }
    None
}

/// A stack machine that runs an instruction sequence to its end.
pub struct VirtualMachine<N> {
    stack: Vec<Value<N>>,
    /// Global bindings, latest last; a name's latest binding is its value. Not a
    /// `HashMap`: with a `String` key, vstd's specification of it does not carry
    /// what an insert or a lookup does, while over this vector every lookup and
    /// rebinding is proved (see `lookup` and `globals_map`).
    variables: Vec<(String, Value<N>)>,
    output_buffer: String,
    call_stack: Vec<usize>,
    /// Callable entry points by name, in code order; the latest registration of a
    /// name wins, as a `HashMap` insert would. Kept as a vector for the same reason
    /// as the globals.
    functions: Vec<(String, usize)>,
    last_popped_value: Option<Value<N>>,
}

impl<N: Number> VirtualMachine<N> {
    pub fn new() -> (m: VirtualMachine<N>)
        ensures
            m.state(0) == initial::<N>(),
    {
        let m = VirtualMachine {
            stack: Vec::new(),
            variables: Vec::new(),
            output_buffer: String::new(),
            call_stack: Vec::new(),
            functions: Vec::new(),
            last_popped_value: None,
        };
        proof {
            m.lemma_cleared_state();
        }
        m
    }

    /// A machine with nothing on its stack, in its globals, calls or output, and
    /// nothing popped yet, is in the initial state.
    proof fn lemma_cleared_state(&self)
        requires
            self.stack@.len() == 0,
            self.variables@.len() == 0,
            self.call_stack@.len() == 0,
            self.output_buffer@.len() == 0,
            self.last_popped_value is None,
        ensures
            self.state(0) == initial::<N>(),
    {
        assert(vals(self.stack@) =~= Seq::<Val<N>>::empty());
        assert(globals_map(self.variables@) =~= Map::<Seq<char>, Val<N>>::empty());
        assert(self.call_stack@ =~= Seq::<usize>::empty());
        assert(self.output_buffer@ =~= Seq::<char>::empty());
    }

    /// The machine's state, about to run the instruction at `ip`.
    pub closed spec fn state(&self, ip: int) -> MachineState<N> {
        MachineState {
            ip: ip,
            stack: vals(self.stack@),
            globals: globals_map(self.variables@),
            calls: self.call_stack@,
            output: self.output_buffer@,
            last: match self.last_popped_value {
                Some(v) => Some(val(v)),
                None => None,
            },
        }
    }

    /// The slot of the latest binding of `name`, if any.
    fn find_variable(&self, name: &String) -> (r: Option<usize>)
        ensures
            match r {
                Some(i) => i < self.variables.len() && lookup(self.variables@, name@) == Some(
                    self.variables@[i as int].1,
                ) && self.variables@[i as int].0@ == name@ && forall|j: int|
                    i < j < self.variables.len() ==> #[trigger] self.variables@[j].0@ != name@,
                None => lookup(self.variables@, name@) is None,
            },
    {
        let mut i = self.variables.len();
        while i > 0
            invariant
                i <= self.variables.len(),
                forall|j: int| i <= j < self.variables.len() ==> #[trigger] self.variables@[j].0@ != name@,
            decreases i,
        {
            i = i - 1;
            if self.variables[i].0 == *name {
                proof {
                    lemma_lookup_last(self.variables@, name@, i as int);
                }
                return Some(i);
            }
        }
        proof {
            lemma_lookup_none(self.variables@, name@);
        }
        None
    }

    /// Binds `name` to `v`.
    fn store_variable(&mut self, name: &String, v: Value<N>)
        ensures
            rebinds(old(self).variables@, final(self).variables@, name@, v),
            final(self).stack@ == old(self).stack@,
            final(self).call_stack@ == old(self).call_stack@,
            final(self).output_buffer@ == old(self).output_buffer@,
            final(self).last_popped_value == old(self).last_popped_value,
            final(self).functions@ == old(self).functions@,
    {
        match self.find_variable(name) {
            Some(i) => {
                let ghost g = self.variables@;
                self.variables.set(i, (name.clone(), v));
                let ghost k = self.variables@[i as int].0;
                assert(self.variables@ == g.update(i as int, (k, v)));
                assert forall|x: Seq<char>| #[trigger]
                    lookup(self.variables@, x) == if x == name@ {
                        Some(v)
                    } else {
                        lookup(g, x)
                    } by {
                    lemma_lookup_update(g, i as int, k, v, x);
                }
            },
            None => {
                let ghost g = self.variables@;
                self.variables.push((name.clone(), v));
                assert forall|x: Seq<char>| #[trigger]
                    lookup(self.variables@, x) == if x == name@ {
                        Some(v)
                    } else {
                        lookup(g, x)
                    } by {
                    assert(self.variables@.drop_last() =~= g);
                }
            },
        }
    }
}


impl<N: Number> VirtualMachine<N> {
    /// Applies a binary operator to `a` (below) and `b`.
    fn binary(ins: &Instruction<N>, a: Value<N>, b: Value<N>) -> (r: Result<Value<N>, RuntimeError>)
        requires
            is_binary(*ins),
        ensures
            match r {
                Ok(v) => binary_result(*ins, val(a), val(b), Ok(val(v))),
                Err(e) => binary_result(*ins, val(a), val(b), Err(e)),
            },
    {
        match (ins, a, b) {
            (Instruction::Add, Value::Number(x), Value::Number(y)) => Ok(Value::Number(x.plus(y))),
            (Instruction::Add, Value::String(x), Value::String(y)) => {
                let mut z = x;
                z.append(y.as_str());
                Ok(Value::String(z))
            },
            (Instruction::Add, _, _) => Err(RuntimeError::TypeError(Operation::Addition)),
            (Instruction::Subtract, Value::Number(x), Value::Number(y)) => Ok(Value::Number(x.minus(y))),
            (Instruction::Subtract, _, _) => Err(RuntimeError::TypeError(Operation::Subtraction)),
            (Instruction::Multiply, Value::Number(x), Value::Number(y)) => Ok(Value::Number(x.times(y))),
            (Instruction::Multiply, _, _) => Err(RuntimeError::TypeError(Operation::Multiplication)),
            (Instruction::Divide, Value::Number(x), Value::Number(y)) => {
                if y.is_zero() {
                    Err(RuntimeError::DivisionByZero)
                } else {
                    Ok(Value::Number(x.divided_by(y)))
                }
            },
            (Instruction::Divide, _, _) => Err(RuntimeError::TypeError(Operation::Division)),
            (Instruction::GreaterThan, Value::Number(x), Value::Number(y)) => Ok(Value::Boolean(x.greater_than(y))),
            (Instruction::GreaterThan, _, _) => Err(RuntimeError::TypeError(Operation::GreaterThan)),
            (Instruction::LessThan, Value::Number(x), Value::Number(y)) => Ok(Value::Boolean(x.less_than(y))),
            (Instruction::LessThan, _, _) => Err(RuntimeError::TypeError(Operation::LessThan)),
            (Instruction::Equal, Value::Number(x), Value::Number(y)) => Ok(Value::Boolean(x.equals(y))),
            (Instruction::Equal, Value::String(x), Value::String(y)) => Ok(Value::Boolean(x == y)),
            (Instruction::Equal, Value::Boolean(x), Value::Boolean(y)) => Ok(Value::Boolean(x == y)),
            (Instruction::Equal, _, _) => Ok(Value::Boolean(false)),
            (Instruction::NotEqual, Value::Number(x), Value::Number(y)) => Ok(Value::Boolean(!x.equals(y))),
            (Instruction::NotEqual, Value::String(x), Value::String(y)) => Ok(Value::Boolean(x != y)),
            (Instruction::NotEqual, Value::Boolean(x), Value::Boolean(y)) => Ok(Value::Boolean(x != y)),
            (Instruction::NotEqual, _, _) => Ok(Value::Boolean(true)),
            _ => Err(RuntimeError::StackUnderflow),
        }
    }

    /// Removes and returns the top value.
    fn pop_top(&mut self) -> (r: Result<Value<N>, RuntimeError>)
        ensures
            old(self).stack.len() > 0 ==> r == Ok::<Value<N>, RuntimeError>(old(self).stack@.last())
                && final(self).stack@ == old(self).stack@.drop_last(),
            old(self).stack.len() == 0 ==> r == Err::<Value<N>, RuntimeError>(
                RuntimeError::StackUnderflow,
            ),
            final(self).variables@ == old(self).variables@,
            final(self).call_stack@ == old(self).call_stack@,
            final(self).output_buffer@ == old(self).output_buffer@,
            final(self).last_popped_value == old(self).last_popped_value,
            final(self).functions@ == old(self).functions@,
    {
        match self.stack.pop() {
            Some(v) => Ok(v),
            None => Err(RuntimeError::StackUnderflow),
        }
    }

    /// Runs the instruction at `ip`; returns where to go on.
    fn step(&mut self, code: &[Instruction<N>], ip: usize) -> (r: Result<usize, RuntimeError>)
        requires
            ip < code.len(),
            !(code@[ip as int] is Halt),
            table_of(code@, old(self).functions@),
        ensures
            final(self).functions@ == old(self).functions@,
            match r {
                Ok(n) => step(code@, old(self).state(ip as int), Outcome::Next(final(self).state(n as int))),
                Err(e) => step(code@, old(self).state(ip as int), Outcome::Fail(e)),
            },
    {
        let ghost s = self.state(ip as int);
        let ghost st = self.stack@;
        let ins = &code[ip];
        if is_binary_op(ins) {
            if self.stack.len() < 2 {
                return Err(RuntimeError::StackUnderflow);
            }
            let b = self.pop_top()?;
            let a = self.pop_top()?;
            assert(val(a) == s.stack[s.stack.len() - 2] && val(b) == s.stack[s.stack.len() - 1]);
            let v = Self::binary(ins, a, b)?;
            self.stack.push(v);
            assert(vals(self.stack@) =~= s.stack.take(s.stack.len() - 2).push(val(v)));
            return Ok(ip + 1);
        }
        match ins {
            Instruction::Push(v) => {
                self.stack.push(copy_value(v));
                assert(vals(self.stack@) =~= s.stack.push(val(*v)));
                Ok(ip + 1)
            },
            Instruction::Pop => {
                let v = self.pop_top()?;
                self.last_popped_value = Some(v);
                assert(vals(self.stack@) =~= s.stack.drop_last());
                Ok(ip + 1)
            },
            Instruction::Duplicate => {
                if self.stack.len() == 0 {
                    return Err(RuntimeError::StackUnderflow);
                }
                let v = copy_value(&self.stack[self.stack.len() - 1]);
                self.stack.push(v);
                assert(vals(self.stack@) =~= s.stack.push(s.stack.last()));
                Ok(ip + 1)
            },
            Instruction::Negate => {
                let v = self.pop_top()?;
                match v {
                    Value::Number(x) => {
                        self.stack.push(Value::Number(x.negated()));
                        assert(vals(self.stack@) =~= s.stack.drop_last().push(
                            Val::Number(x.negation()),
                        ));
                        Ok(ip + 1)
                    },
                    _ => Err(RuntimeError::TypeError(Operation::Negation)),
                }
            },
            Instruction::DefineVariable(name) => {
                let v = self.pop_top()?;
                let ghost g = self.variables@;
                self.store_variable(name, v);
                proof {
                    lemma_rebinds_map(g, self.variables@, name@, v);
                    assert(vals(self.stack@) =~= s.stack.drop_last());
                }
                Ok(ip + 1)
            },
            Instruction::StoreVariable(name) => {
                if self.stack.len() == 0 {
                    return Err(RuntimeError::StackUnderflow);
                }
                let v = copy_value(&self.stack[self.stack.len() - 1]);
                let ghost g = self.variables@;
                self.store_variable(name, v);
                proof {
                    lemma_rebinds_map(g, self.variables@, name@, v);
                    assert(val(v) == s.stack.last());
                }
                Ok(ip + 1)
            },
            Instruction::LoadVariable(name) => {
                match self.find_variable(name) {
                    Some(i) => {
                        let v = copy_value(&self.variables[i].1);
                        self.stack.push(v);
                        assert(s.globals.contains_key(name@) && s.globals[name@] == val(v));
                        assert(vals(self.stack@) =~= s.stack.push(val(v)));
                        Ok(ip + 1)
                    },
                    None => {
                        assert(!s.globals.contains_key(name@));
                        Err(RuntimeError::UndefinedVariable(name.clone()))
                    },
                }
            },
            Instruction::GetLocal(slot) => {
                if *slot >= self.stack.len() {
                    return Err(RuntimeError::StackUnderflow);
                }
                let v = copy_value(&self.stack[*slot]);
                self.stack.push(v);
                assert(vals(self.stack@) =~= s.stack.push(s.stack[*slot as int]));
                Ok(ip + 1)
            },
            Instruction::SetLocal(slot) => {
                if self.stack.len() == 0 || *slot >= self.stack.len() {
                    return Err(RuntimeError::StackUnderflow);
                }
                let v = copy_value(&self.stack[self.stack.len() - 1]);
                self.stack.set(*slot, v);
                assert(vals(self.stack@) =~= s.stack.update(*slot as int, s.stack.last()));
                Ok(ip + 1)
            },
            Instruction::Jump(target) => Ok(*target),
            Instruction::JumpIfFalse(target) => {
                let v = self.pop_top()?;
                assert(vals(self.stack@) =~= s.stack.drop_last());
                match v {
                    Value::Boolean(false) => Ok(*target),
                    _ => {
                        assert(val(v) != Val::<N>::Boolean(false));
                        Ok(ip + 1)
                    },
                }
            },
            Instruction::Call(name, _) => {
                match find_function(code, &self.functions, name) {
                    Some(address) => {
                        self.call_stack.push(ip + 1);
                        assert(registers(code@, name@, address as int));
                        Ok(address)
                    },
                    None => Err(RuntimeError::UndefinedFunction(name.clone())),
                }
            },
            Instruction::Return => {
                match self.call_stack.pop() {
                    Some(address) => Ok(address),
                    None => Ok(ip + 1),
                }
            },
            Instruction::Print => {
                let v = self.pop_top()?;
                let d = show(&v);
                let ghost before = self.output_buffer@;
                self.output_buffer.append(d.as_str());
                self.output_buffer.append("\n");
                proof {
                    reveal_strlit("\n");
                    assert(self.output_buffer@ == before + d@ + seq!['\n']);
                    assert(val(v) == s.stack.last());
                    assert(vals(self.stack@) =~= s.stack.drop_last());
                }
                Ok(ip + 1)
            },
            _ => Err(RuntimeError::StackUnderflow),
        }
    }
}

fn is_binary_op<N>(ins: &Instruction<N>) -> (r: bool)
    ensures
        r == is_binary(*ins),
{
    match ins {
        Instruction::Add | Instruction::Subtract | Instruction::Multiply | Instruction::Divide
        | Instruction::GreaterThan | Instruction::LessThan | Instruction::Equal
        | Instruction::NotEqual => true,
        _ => false,
    }
}


impl<N: Number> VirtualMachine<N> {
    /// Whether output so far is empty or ends in a newline.
    fn output_needs_separator(&self) -> (r: bool)
        ensures
            r == (self.output_buffer@.len() > 0 && self.output_buffer@.last() != '\n'),
    {
        let chars = chars_of(self.output_buffer.as_str());
        let n = chars.len();
        n > 0 && chars[n - 1] != '\n'
    }

    /// Appends the display of `v` after a separating newline where one is due.
    fn append_result(&mut self, v: &Value<N>)
        ensures
            final(self).output_buffer@ == old(self).output_buffer@ + separator(
                old(self).output_buffer@,
            ) + display(val(*v)),
    {
        let d = show(v);
        let ghost before = self.output_buffer@;
        if self.output_needs_separator() {
            self.output_buffer.append("\n");
            proof {
                reveal_strlit("\n");
                assert(separator(before) =~= seq!['\n']);
            }
        } else {
            assert(separator(before) =~= Seq::<char>::empty());
        }
        self.output_buffer.append(d.as_str());
        assert(self.output_buffer@ =~= before + separator(before) + d@);
    }

    /// Runs `bytecode` from the start, from a cleared state, until it runs past
    /// its end or reaches `Halt`, and returns what it printed followed by its
    /// result: the top of the stack, or else the last value popped. The run is
    /// one of `bytecode`'s runs; an error is the one its last instruction gives.
    pub fn execute(&mut self, bytecode: &[Instruction<N>]) -> (r: Result<String, RuntimeError>)
        ensures
            r matches Ok(out) ==> runs_to(bytecode@, out@),
            r matches Err(e) ==> fails_with(bytecode@, e),
            stops_within_limit(bytecode@) ==> r is Ok,
    {
        self.stack.clear();
        self.variables.clear();
        self.output_buffer = String::new();
        self.call_stack.clear();
        self.last_popped_value = None;
        self.functions = register_functions(bytecode);
        let mut ip: usize = 0;
        let mut fuel: u64 = u64::MAX;
        let ghost mut tr: Seq<MachineState<N>> = seq![self.state(0)];
        proof {
            self.lemma_cleared_state();
        }
        assert(tr[0] == initial::<N>());
        while ip < bytecode.len() && !matches!(bytecode[ip], Instruction::Halt)
            invariant
                is_run(bytecode@, tr),
                tr.last() == self.state(ip as int),
                table_of(bytecode@, self.functions@),
                tr.len() + fuel == u64::MAX + 1,
            decreases fuel,
        {
            if fuel == 0 {
                proof {
                    assert(fails_with(bytecode@, RuntimeError::StepLimitReached));
                    if stops_within_limit(bytecode@) {
                        lemma_no_failure_when_stopping(bytecode@, RuntimeError::StepLimitReached);
                    }
                }
                return Err(RuntimeError::StepLimitReached);
            }
            fuel = fuel - 1;
            let ghost before = tr;
            match self.step(bytecode, ip) {
                Ok(next) => {
                    proof {
                        tr = tr.push(self.state(next as int));
                        assert forall|i: int| 0 <= i < tr.len() - 1 implies !stopped(bytecode@, #[trigger] tr[i]) && step(
                            bytecode@,
                            tr[i],
                            Outcome::Next(tr[i + 1]),
                        ) by {
                            if i < before.len() - 1 {
                                assert(tr[i] == before[i] && tr[i + 1] == before[i + 1]);
                            }
                        }
                    }
                    ip = next;
                },
                Err(e) => {
                    proof {
                        assert(fails_with(bytecode@, e));
                        if stops_within_limit(bytecode@) {
                            lemma_no_failure_when_stopping(bytecode@, e);
                        }
                    }
                    return Err(e);
                },
            }
        }
        if self.stack.len() > 0 {
            let v = copy_value(&self.stack[self.stack.len() - 1]);
            self.append_result(&v);
        } else {
            match &self.last_popped_value {
                Some(v) => {
                    let v = copy_value(v);
                    self.append_result(&v);
                },
                None => {},
            }
        }
        Ok(self.output_buffer.clone())
    }
}

} // verus!
