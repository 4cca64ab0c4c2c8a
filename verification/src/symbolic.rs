//! Symbolic integers: sizes that depend on named dimensions, with
//! evaluation under a binding, substitution and simplification.

use vstd::prelude::*;

verus! {

/// The binary operators of symbolic integers.
#[derive(Clone, Copy, Debug, PartialEq, Eq, Structural)]
pub enum BinOp {
    Add,
    Sub,
    Mul,
    Div,
    Mod,
    Min,
    Max,
}

/// Why an expression has no value.
#[derive(Clone, Copy, Debug, PartialEq, Eq, Structural)]
pub enum EvalError {
    /// The binding gives no value to this dimension.
    UnboundVariable(char),
    /// A divisor or a modulus is zero.
    DivisionByZero,
    /// A result is negative or more than the machine can count.
    Overflow,
}

/// A symbolic integer: a literal, a named dimension, or an operator applied
/// to two symbolic integers.
#[derive(Debug, PartialEq, Eq)]
pub enum Expr {
    Num(usize),
    Var(char),
    Binary(BinOp, Box<Expr>, Box<Expr>),
}

/// The value that a binding gives to a dimension: that of the first entry
/// for its name from position `k` on.
pub open spec fn lookup_from(env: Seq<(char, usize)>, name: char, k: int) -> Option<usize>
    decreases env.len() - k,
{
    if 0 <= k < env.len() {
        if env[k].0 == name {
            Some(env[k].1)
        } else {
            lookup_from(env, name, k + 1)
        }
    } else {
        None
    }
}

/// The value that a binding gives to a dimension, if any.
pub open spec fn lookup(env: Seq<(char, usize)>, name: char) -> Option<usize> {
    lookup_from(env, name, 0)
}

impl BinOp {
    /// The result of the operator on two values.
    pub open spec fn apply_spec(self, x: usize, y: usize) -> Result<usize, EvalError> {
        match self {
            BinOp::Add => if x + y <= usize::MAX {
                Ok((x + y) as usize)
            } else {
                Err(EvalError::Overflow)
            },
            BinOp::Sub => if x >= y {
                Ok((x - y) as usize)
            } else {
                Err(EvalError::Overflow)
            },
            BinOp::Mul => if x * y <= usize::MAX {
                Ok((x * y) as usize)
            } else {
                Err(EvalError::Overflow)
            },
            BinOp::Div => if y == 0 {
                Err(EvalError::DivisionByZero)
            } else {
                Ok(x / y)
            },
            BinOp::Mod => if y == 0 {
                Err(EvalError::DivisionByZero)
            } else {
                Ok(x % y)
            },
            BinOp::Min => Ok(
                if x <= y {
                    x
                } else {
                    y
                },
            ),
            BinOp::Max => Ok(
                if x >= y {
                    x
                } else {
                    y
                },
            ),
        }
    }

    /// The result of the operator on two values. Fails with
    /// `DivisionByZero` on a zero divisor or modulus, and with `Overflow`
    /// where the result is negative or cannot be counted.
    pub fn apply(self, x: usize, y: usize) -> (r: Result<usize, EvalError>)
        ensures
            r == self.apply_spec(x, y),
    {
        match self {
            BinOp::Add => match x.checked_add(y) {
                Some(v) => Ok(v),
                None => Err(EvalError::Overflow),
            },
            BinOp::Sub => if x >= y {
                Ok(x - y)
            } else {
                Err(EvalError::Overflow)
            },
            BinOp::Mul => match x.checked_mul(y) {
                Some(v) => Ok(v),
                None => Err(EvalError::Overflow),
            },
            BinOp::Div => if y == 0 {
                Err(EvalError::DivisionByZero)
            } else {
                Ok(x / y)
            },
            BinOp::Mod => if y == 0 {
                Err(EvalError::DivisionByZero)
            } else {
                Ok(x % y)
            },
            BinOp::Min => Ok(
                if x <= y {
                    x
                } else {
                    y
                },
            ),
            BinOp::Max => Ok(
                if x >= y {
                    x
                } else {
                    y
                },
            ),
        }
    }
}

/// What an operator makes of two simplified operands: the value of two
/// literals where it can be counted, an operand that the other leaves
/// unchanged, the constant that equal operands or a zero factor give, or
/// else the operator applied to the two.
pub open spec fn reduce_spec(op: BinOp, a: Expr, b: Expr) -> Expr {
    if a is Num && b is Num && op.apply_spec(a->Num_0, b->Num_0) is Ok {
        Expr::Num(op.apply_spec(a->Num_0, b->Num_0)->Ok_0)
    } else {
        match op {
            BinOp::Add => if a == Expr::Num(0) {
                b
            } else if b == Expr::Num(0) {
                a
            } else {
                Expr::Binary(op, Box::new(a), Box::new(b))
            },
            BinOp::Sub => if b == Expr::Num(0) {
                a
            } else if a == b {
                Expr::Num(0)
            } else {
                Expr::Binary(op, Box::new(a), Box::new(b))
            },
            BinOp::Mul => if a == Expr::Num(0) || b == Expr::Num(0) {
                Expr::Num(0)
            } else if a == Expr::Num(1) {
                b
            } else if b == Expr::Num(1) {
                a
            } else {
                Expr::Binary(op, Box::new(a), Box::new(b))
            },
            BinOp::Div => if b == Expr::Num(1) {
                a
            } else {
                Expr::Binary(op, Box::new(a), Box::new(b))
            },
            BinOp::Mod => if b == Expr::Num(1) {
                Expr::Num(0)
            } else {
                Expr::Binary(op, Box::new(a), Box::new(b))
            },
            BinOp::Min | BinOp::Max => if a == b {
                a
            } else {
                Expr::Binary(op, Box::new(a), Box::new(b))
            },
        }
    }
}

impl Expr {
    /// The value of the expression under a binding. Operands are evaluated
    /// from left to right, and the first failure is the failure of the whole.
    pub open spec fn eval_spec(self, env: Seq<(char, usize)>) -> Result<usize, EvalError>
        decreases self,
    {
        match self {
            Expr::Num(n) => Ok(n),
            Expr::Var(name) => match lookup(env, name) {
                Some(v) => Ok(v),
                None => Err(EvalError::UnboundVariable(name)),
            },
            Expr::Binary(op, a, b) => match a.eval_spec(env) {
                Err(e) => Err(e),
                Ok(x) => match b.eval_spec(env) {
                    Err(e) => Err(e),
                    Ok(y) => op.apply_spec(x, y),
                },
            },
        }
    }

    /// The expression with every dimension that the binding names replaced
    /// by its value.
    pub open spec fn subst_spec(self, env: Seq<(char, usize)>) -> Expr
        decreases self,
    {
        match self {
            Expr::Num(n) => Expr::Num(n),
            Expr::Var(name) => match lookup(env, name) {
                Some(v) => Expr::Num(v),
                None => Expr::Var(name),
            },
            Expr::Binary(op, a, b) => Expr::Binary(
                op,
                Box::new(a.subst_spec(env)),
                Box::new(b.subst_spec(env)),
            ),
        }
    }

    /// The simplified form of the expression: its operands simplified, and
    /// the operator reduced on them.
    pub open spec fn simplified(self) -> Expr
        decreases self,
    {
        match self {
            Expr::Num(n) => Expr::Num(n),
            Expr::Var(name) => Expr::Var(name),
            Expr::Binary(op, a, b) => reduce_spec(op, a.simplified(), b.simplified()),
        }
    }
}

/// One binding followed by another gives a dimension the value that the
/// first gives it, and the value of the second where the first has none.
pub proof fn lemma_lookup_append(s: Seq<(char, usize)>, t: Seq<(char, usize)>, name: char, k: int)
    requires
        0 <= k <= s.len(),
    ensures
        lookup_from(s + t, name, k) == match lookup_from(s, name, k) {
            Some(v) => Some(v),
            None => lookup(t, name),
        },
    decreases s.len() - k,
{
    if k < s.len() {
        assert((s + t)[k] == s[k]);
        lemma_lookup_append(s, t, name, k + 1);
    } else {
        lemma_lookup_shift(s, t, name, 0);
    }
}

/// Behind a first binding, a second gives what it gives alone.
proof fn lemma_lookup_shift(s: Seq<(char, usize)>, t: Seq<(char, usize)>, name: char, k: int)
    requires
        0 <= k <= t.len(),
    ensures
        lookup_from(s + t, name, s.len() + k) == lookup_from(t, name, k),
    decreases t.len() - k,
{
    if k < t.len() {
        assert((s + t)[s.len() + k] == t[k]);
        lemma_lookup_shift(s, t, name, k + 1);
    }
}

/// Substituting one binding and evaluating under a second gives what
/// evaluating under the first followed by the second gives.
pub proof fn lemma_substitute(e: Expr, s: Seq<(char, usize)>, env: Seq<(char, usize)>)
    ensures
        e.subst_spec(s).eval_spec(env) == e.eval_spec(s + env),
    decreases e,
{
    match e {
        Expr::Num(n) => {},
        Expr::Var(name) => {
            lemma_lookup_append(s, env, name, 0);
        },
        Expr::Binary(op, a, b) => {
            lemma_substitute(*a, s, env);
            lemma_substitute(*b, s, env);
        },
    }
}

/// Reducing an operator on two operands keeps the value of the operator
/// applied to them, wherever that has one.
pub proof fn lemma_reduce_sound(op: BinOp, a: Expr, b: Expr, env: Seq<(char, usize)>)
    requires
        Expr::Binary(op, Box::new(a), Box::new(b)).eval_spec(env) is Ok,
    ensures
        reduce_spec(op, a, b).eval_spec(env) == Expr::Binary(
            op,
            Box::new(a),
            Box::new(b),
        ).eval_spec(env),
{
    reveal_with_fuel(Expr::eval_spec, 3);
    let x = a.eval_spec(env)->Ok_0;
    let y = b.eval_spec(env)->Ok_0;
    let whole = Expr::Binary(op, Box::new(a), Box::new(b));
    assert(whole.eval_spec(env) == op.apply_spec(x, y));
    match op {
        BinOp::Mul => {
            if a is Num && b is Num && op.apply_spec(a->Num_0, b->Num_0) is Ok {
            } else if a == Expr::Num(0) || b == Expr::Num(0) {
                assert(x == 0 || y == 0);
                assert(x * y == 0) by (nonlinear_arith)
                    requires
                        x == 0 || y == 0,
                ;
            } else if a == Expr::Num(1) {
                assert(x * y == y) by (nonlinear_arith)
                    requires
                        x == 1,
                ;
            } else if b == Expr::Num(1) {
                assert(x * y == x) by (nonlinear_arith)
                    requires
                        y == 1,
                ;
            }
        },
        _ => {},
    }
}

/// Simplifying keeps the value of an expression, wherever it has one.
pub proof fn lemma_simplify_sound(e: Expr, env: Seq<(char, usize)>)
    requires
        e.eval_spec(env) is Ok,
    ensures
        e.simplified().eval_spec(env) == e.eval_spec(env),
    decreases e,
{
    match e {
        Expr::Num(n) => {},
        Expr::Var(name) => {},
        Expr::Binary(op, a, b) => {
            lemma_simplify_sound(*a, env);
            lemma_simplify_sound(*b, env);
            lemma_reduce_sound(op, a.simplified(), b.simplified(), env);
        },
    }
}

/// Multiplying by one, adding zero and subtracting an expression from itself
/// simplify to what one expects.
pub proof fn lemma_simplify_identities(x: Expr)
    ensures
        Expr::Binary(BinOp::Mul, Box::new(x), Box::new(Expr::Num(1))).simplified()
            == x.simplified(),
        Expr::Binary(BinOp::Add, Box::new(Expr::Num(0)), Box::new(x)).simplified()
            == x.simplified(),
        Expr::Binary(BinOp::Sub, Box::new(x), Box::new(x)).simplified() == Expr::Num(0),
{
    reveal_with_fuel(Expr::simplified, 3);
    let s = x.simplified();
    assert(0usize * 1usize == 0) by (nonlinear_arith);
    if s is Num {
        let n = s->Num_0;
        assert(n * 1 == n) by (nonlinear_arith);
    }
}

/// The value that a binding gives to a dimension, if any: that of the first
/// entry for its name.
pub fn lookup_value(env: &Vec<(char, usize)>, name: char) -> (r: Option<usize>)
    ensures
        r == lookup(env@, name),
{
    let n = env.len();
    let mut k: usize = 0;
    while k < n
        invariant
            k <= n,
            n == env@.len(),
            lookup(env@, name) == lookup_from(env@, name, k as int),
        decreases n - k,
    {
        let (key, value) = env[k];
        if key == name {
            return Some(value);
        }
        k += 1;
    }
    None
}

/// The result of reducing an operator on two simplified operands.
fn reduce(op: BinOp, a: Expr, b: Expr) -> (r: Expr)
    ensures
        r == reduce_spec(op, a, b),
{
    let literals = match (&a, &b) {
        (Expr::Num(x), Expr::Num(y)) => Some((*x, *y)),
        _ => None,
    };
    match literals {
        Some((x, y)) => match op.apply(x, y) {
            Ok(v) => {
                return Expr::Num(v);
            },
            Err(_) => {},
        },
        None => {},
    }
    match op {
        BinOp::Add => if a.is_num(0) {
            b
        } else if b.is_num(0) {
            a
        } else {
            Expr::Binary(op, Box::new(a), Box::new(b))
        },
        BinOp::Sub => if b.is_num(0) {
            a
        } else if a.same(&b) {
            Expr::Num(0)
        } else {
            Expr::Binary(op, Box::new(a), Box::new(b))
        },
        BinOp::Mul => if a.is_num(0) || b.is_num(0) {
            Expr::Num(0)
        } else if a.is_num(1) {
            b
        } else if b.is_num(1) {
            a
        } else {
            Expr::Binary(op, Box::new(a), Box::new(b))
        },
        BinOp::Div => if b.is_num(1) {
            a
        } else {
            Expr::Binary(op, Box::new(a), Box::new(b))
        },
        BinOp::Mod => if b.is_num(1) {
            Expr::Num(0)
        } else {
            Expr::Binary(op, Box::new(a), Box::new(b))
        },
        BinOp::Min | BinOp::Max => if a.same(&b) {
            a
        } else {
            Expr::Binary(op, Box::new(a), Box::new(b))
        },
    }
}

impl Expr {
    /// A named dimension.
    pub fn new_variable(name: char) -> (e: Expr)
        ensures
            e == Expr::Var(name),
    {
        Expr::Var(name)
    }

    /// A literal.
    pub fn new_const(n: usize) -> (e: Expr)
        ensures
            e == Expr::Num(n),
    {
        Expr::Num(n)
    }

    /// An operator applied to two expressions.
    pub fn binary(op: BinOp, a: Expr, b: Expr) -> (e: Expr)
        ensures
            e == Expr::Binary(op, Box::new(a), Box::new(b)),
    {
        Expr::Binary(op, Box::new(a), Box::new(b))
    }

    /// Whether the expression is the literal `n`.
    pub fn is_num(&self, n: usize) -> (b: bool)
        ensures
            b == (*self == Expr::Num(n)),
    {
        match self {
            Expr::Num(x) => *x == n,
            _ => false,
        }
    }

    /// Whether two expressions are the same expression.
    pub fn same(&self, other: &Expr) -> (b: bool)
        ensures
            b == (*self == *other),
        decreases self,
    {
        match (self, other) {
            (Expr::Num(x), Expr::Num(y)) => *x == *y,
            (Expr::Var(x), Expr::Var(y)) => *x == *y,
            (Expr::Binary(op, a, b), Expr::Binary(oq, c, d)) => {
                *op == *oq && a.same(c) && b.same(d)
            },
            _ => false,
        }
    }

    /// The value of the expression under a binding. Fails with
    /// `UnboundVariable` where the binding has no value for a dimension,
    /// with `DivisionByZero` where a divisor or modulus is zero, and with
    /// `Overflow` where a result is negative or cannot be counted.
    pub fn evaluate(&self, env: &Vec<(char, usize)>) -> (r: Result<usize, EvalError>)
        ensures
            r == self.eval_spec(env@),
        decreases self,
    {
        match self {
            Expr::Num(n) => Ok(*n),
            Expr::Var(name) => match lookup_value(env, *name) {
                Some(v) => Ok(v),
                None => Err(EvalError::UnboundVariable(*name)),
            },
            Expr::Binary(op, a, b) => {
                let x = match a.evaluate(env) {
                    Ok(x) => x,
                    Err(e) => {
                        return Err(e);
                    },
                };
                let y = match b.evaluate(env) {
                    Ok(y) => y,
                    Err(e) => {
                        return Err(e);
                    },
                };
                op.apply(x, y)
            },
        }
    }

    /// The expression with every dimension that the binding names replaced
    /// by its value.
    pub fn substitute(self, env: &Vec<(char, usize)>) -> (r: Expr)
        ensures
            r == self.subst_spec(env@),
            forall|rest: Seq<(char, usize)>|
                #[trigger] r.eval_spec(rest) == self.eval_spec(env@ + rest),
    {
        proof {
            assert forall|rest: Seq<(char, usize)>| #[trigger]
                self.subst_spec(env@).eval_spec(rest) == self.eval_spec(env@ + rest) by {
                lemma_substitute(self, env@, rest);
            }
        }
        self.replace_bound(env)
    }

    /// The expression with every bound dimension replaced by its value.
    fn replace_bound(self, env: &Vec<(char, usize)>) -> (r: Expr)
        ensures
            r == self.subst_spec(env@),
        decreases self,
    {
        match self {
            Expr::Num(n) => Expr::Num(n),
            Expr::Var(name) => match lookup_value(env, name) {
                Some(v) => Expr::Num(v),
                None => Expr::Var(name),
            },
            Expr::Binary(op, a, b) => {
                let a = (*a).replace_bound(env);
                let b = (*b).replace_bound(env);
                Expr::Binary(op, Box::new(a), Box::new(b))
            },
        }
    }

    /// The simplified form of the expression: constants are folded, and
    /// operands that change nothing are dropped. Wherever the expression has
    /// a value, its simplified form has the same.
    pub fn simplify(self) -> (r: Expr)
        ensures
            r == self.simplified(),
            forall|env: Seq<(char, usize)>|
                self.eval_spec(env) is Ok ==> #[trigger] r.eval_spec(env) == self.eval_spec(env),
    {
        proof {
            assert forall|env: Seq<(char, usize)>| self.eval_spec(env) is Ok implies #[trigger]
                self.simplified().eval_spec(env) == self.eval_spec(env) by {
                lemma_simplify_sound(self, env);
            }
        }
        self.fold()
    }

    /// The expression with its operands simplified and its operator
    /// reduced on them.
    fn fold(self) -> (r: Expr)
        ensures
            r == self.simplified(),
        decreases self,
    {
        match self {
            Expr::Num(n) => Expr::Num(n),
            Expr::Var(name) => Expr::Var(name),
            Expr::Binary(op, a, b) => {
                let a = (*a).fold();
                let b = (*b).fold();
                reduce(op, a, b)
            },
        }
    }
}

/// The concrete shape that symbolic dimensions have under a binding. Fails
/// with the failure of the first dimension that has no value.
pub fn resolve(dims: &Vec<Expr>, env: &Vec<(char, usize)>) -> (r: Result<Vec<usize>, EvalError>)
    ensures
        match r {
            Ok(shape) => shape@.len() == dims@.len() && forall|i: int|
                0 <= i < dims@.len() ==> dims@[i].eval_spec(env@) == Ok::<usize, EvalError>(
                    shape@[i],
                ),
            Err(e) => exists|i: int|
                0 <= i < dims@.len() && dims@[i].eval_spec(env@) == Err::<usize, EvalError>(e)
                    && forall|j: int| 0 <= j < i ==> dims@[j].eval_spec(env@) is Ok,
        },
{
    let n = dims.len();
    let mut shape: Vec<usize> = Vec::new();
    let mut i: usize = 0;
    while i < n
        invariant
            i <= n,
            n == dims@.len(),
            shape@.len() == i,
            forall|j: int|
                0 <= j < i ==> dims@[j].eval_spec(env@) == Ok::<usize, EvalError>(shape@[j]),
        decreases n - i,
    {
        match dims[i].evaluate(env) {
            Ok(v) => {
                shape.push(v);
            },
            Err(e) => {
                return Err(e);
            },
        }
        i += 1;
    }
    Ok(shape)
}

} // verus!
