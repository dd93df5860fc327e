use vstd::prelude::*;

use crate::weighted_sample::{SampleError, WeightedSample};

verus! {

/// Fewest leaves an interesting tree may have.
pub const MIN_INTERESTING_LENGTH: u32 = 4;

/// Most leaves an interesting tree may have.
pub const MAX_INTERESTING_LENGTH: u32 = 15;

/// The kind of a node: one of the three inputs or one of the seven binary operators.
#[derive(Clone, Copy, Debug, PartialEq, Eq, Structural)]
pub enum Kind {
    X,
    Y,
    T,
    Xor,
    And,
    Or,
    Add,
    Sub,
    Mul,
    Div,
}

impl Kind {
    pub open spec fn spec_is_operator(self) -> bool {
        !(self is X || self is Y || self is T)
    }

    /// The kind is one of the binary operators rather than an input.
    #[verifier::when_used_as_spec(spec_is_operator)]
    pub fn is_operator(self) -> (r: bool)
        ensures
            r == self.spec_is_operator(),
    {
        !matches!(self, Kind::X | Kind::Y | Kind::T)
    }
}

/// An expression over the inputs `(x, y, t)`; each operator owns its two operands.
#[derive(Debug, PartialEq, Eq)]
pub enum Program {
    X,
    Y,
    T,
    Xor(Box<Program>, Box<Program>),
    And(Box<Program>, Box<Program>),
    Or(Box<Program>, Box<Program>),
    Add(Box<Program>, Box<Program>),
    Sub(Box<Program>, Box<Program>),
    Mul(Box<Program>, Box<Program>),
    Div(Box<Program>, Box<Program>),
}

/// Why no tree was generated.
#[derive(Clone, Copy, Debug, PartialEq, Eq)]
pub enum GenerateError {
    /// The grammar's weights sum to zero.
    NoWeight,
    /// The tree being drawn grew past the length allowed.
    TooLong,
    /// Every attempt allowed was drawn and none was interesting.
    GaveUp,
}

/// The reference grammar: 3 for each input, 2 for each bitwise operator and 1 for each
/// arithmetic operator.
pub fn reference_grammar() -> (r: WeightedSample<Kind>)
    ensures
        r.wf(),
        r.items() == seq![
            Kind::X, Kind::Y, Kind::T, Kind::Xor, Kind::And, Kind::Or,
            Kind::Add, Kind::Sub, Kind::Mul, Kind::Div,
        ],
        r.weights() == seq![3u32, 3, 3, 2, 2, 2, 1, 1, 1, 1],
{
    let mut ws = WeightedSample::new();
    ws.option(3, Kind::X);
    ws.option(3, Kind::Y);
    ws.option(3, Kind::T);
    ws.option(2, Kind::Xor);
    ws.option(2, Kind::And);
    ws.option(2, Kind::Or);
    ws.option(1, Kind::Add);
    ws.option(1, Kind::Sub);
    ws.option(1, Kind::Mul);
    ws.option(1, Kind::Div);
    ws
}

impl Program {
    pub open spec fn spec_kind(&self) -> Kind {
        match self {
            Program::X => Kind::X,
            Program::Y => Kind::Y,
            Program::T => Kind::T,
            Program::Xor(..) => Kind::Xor,
            Program::And(..) => Kind::And,
            Program::Or(..) => Kind::Or,
            Program::Add(..) => Kind::Add,
            Program::Sub(..) => Kind::Sub,
            Program::Mul(..) => Kind::Mul,
            Program::Div(..) => Kind::Div,
        }
    }

    /// The two operands of an operator node.
    pub open spec fn operands(&self) -> Option<(Program, Program)> {
        match self {
            Program::Xor(a, b) | Program::And(a, b) | Program::Or(a, b) | Program::Add(a, b)
            | Program::Sub(a, b) | Program::Mul(a, b) | Program::Div(a, b) => Some((**a, **b)),
            _ => None,
        }
    }

    /// Length: 1 for an input, the sum of the operands' lengths for an operator.
    pub open spec fn spec_length(&self) -> nat
        decreases self,
    {
        match self {
            Program::X | Program::Y | Program::T => 1,
            Program::Xor(a, b) | Program::And(a, b) | Program::Or(a, b) | Program::Add(a, b)
            | Program::Sub(a, b) | Program::Mul(a, b) | Program::Div(a, b) => a.spec_length()
                + b.spec_length(),
        }
    }

    /// Some node of the tree has a kind that satisfies `f`.
    pub open spec fn any_node(&self, f: spec_fn(Kind) -> bool) -> bool
        decreases self,
    {
        f(self.spec_kind()) || match self {
            Program::X | Program::Y | Program::T => false,
            Program::Xor(a, b) | Program::And(a, b) | Program::Or(a, b) | Program::Add(a, b)
            | Program::Sub(a, b) | Program::Mul(a, b) | Program::Div(a, b) => a.any_node(f)
                || b.any_node(f),
        }
    }

    /// Every node of the tree has a kind that satisfies `f`.
    pub open spec fn every_node(&self, f: spec_fn(Kind) -> bool) -> bool
        decreases self,
    {
        f(self.spec_kind()) && match self {
            Program::X | Program::Y | Program::T => true,
            Program::Xor(a, b) | Program::And(a, b) | Program::Or(a, b) | Program::Add(a, b)
            | Program::Sub(a, b) | Program::Mul(a, b) | Program::Div(a, b) => a.every_node(f)
                && b.every_node(f),
        }
    }

    /// The tree holds a `T`, holds an operator, and its length lies in `[4, 15]`.
    pub open spec fn spec_is_interesting(&self) -> bool {
        &&& self.any_node(|k: Kind| k == Kind::T)
        &&& self.any_node(|k: Kind| k.is_operator())
        &&& MIN_INTERESTING_LENGTH <= self.spec_length() <= MAX_INTERESTING_LENGTH
    }

    /// Value of the tree on the inputs: bitwise operators on 8 bits, arithmetic that wraps
    /// modulo 256, and a quotient of 0 where the divisor is 0.
    pub open spec fn value(&self, x: u8, y: u8, t: u8) -> u8
        decreases self,
    {
        match self {
            Program::X => x,
            Program::Y => y,
            Program::T => t,
            Program::Xor(a, b) => a.value(x, y, t) ^ b.value(x, y, t),
            Program::And(a, b) => a.value(x, y, t) & b.value(x, y, t),
            Program::Or(a, b) => a.value(x, y, t) | b.value(x, y, t),
            Program::Add(a, b) => a.value(x, y, t).wrapping_add(b.value(x, y, t)),
            Program::Sub(a, b) => a.value(x, y, t).wrapping_sub(b.value(x, y, t)),
            Program::Mul(a, b) => a.value(x, y, t).wrapping_mul(b.value(x, y, t)),
            Program::Div(a, b) => if b.value(x, y, t) == 0 {
                0
            } else {
                a.value(x, y, t) / b.value(x, y, t)
            },
        }
    }

    /// The node of kind `kind` over the given operands; `a` and `b` are dropped for an input.
    pub fn from_kind(kind: Kind, a: Program, b: Program) -> (r: Program)
        ensures
            r.spec_kind() == kind,
            kind.is_operator() ==> r.operands() == Some((a, b)),
    {
        match kind {
            Kind::X => Program::X,
            Kind::Y => Program::Y,
            Kind::T => Program::T,
            Kind::Xor => Program::Xor(Box::new(a), Box::new(b)),
            Kind::And => Program::And(Box::new(a), Box::new(b)),
            Kind::Or => Program::Or(Box::new(a), Box::new(b)),
            Kind::Add => Program::Add(Box::new(a), Box::new(b)),
            Kind::Sub => Program::Sub(Box::new(a), Box::new(b)),
            Kind::Mul => Program::Mul(Box::new(a), Box::new(b)),
            Kind::Div => Program::Div(Box::new(a), Box::new(b)),
        }
    }

    pub fn kind(&self) -> (r: Kind)
        ensures
            r == self.spec_kind(),
    {
        match self {
            Program::X => Kind::X,
            Program::Y => Kind::Y,
            Program::T => Kind::T,
            Program::Xor(..) => Kind::Xor,
            Program::And(..) => Kind::And,
            Program::Or(..) => Kind::Or,
            Program::Add(..) => Kind::Add,
            Program::Sub(..) => Kind::Sub,
            Program::Mul(..) => Kind::Mul,
            Program::Div(..) => Kind::Div,
        }
    }

    /// Draws a tree from `grammar`: a node kind is sampled, then each operand is drawn the
    /// same way, left before right. Drawing stops with `TooLong` as soon as the tree would
    /// pass `max_length`, so the trees that come back are distributed as unbounded drawing
    /// would give them, restricted to those of length at most `max_length`.
    pub fn new_random(
        rng: &mut rand::XorShiftRng,
        grammar: &WeightedSample<Kind>,
        max_length: u32,
    ) -> (r: Result<Program, GenerateError>)
        requires
            grammar.wf(),
        ensures
            r == Err::<Program, GenerateError>(GenerateError::NoWeight) <==> grammar.total_weight()
                == 0,
            r matches Err(e) ==> e != GenerateError::GaveUp,
            r matches Ok(p) ==> 1 <= p.spec_length() <= max_length && p.every_node(
                |k: Kind| grammar.reachable(k),
            ),
            grammar.total_weight() > 0 && max_length >= 1 && (forall|k: Kind|
                k.is_operator() ==> !grammar.reachable(k)) ==> r is Ok,
        decreases max_length,
    {
        let kind = match grammar.sample(rng) {
            Ok(k) => k,
            Err(SampleError::NoWeight) => return Err(GenerateError::NoWeight),
        };
        if max_length == 0 {
            return Err(GenerateError::TooLong);
        }
        match kind {
            Kind::X => Ok(Program::X),
            Kind::Y => Ok(Program::Y),
            Kind::T => Ok(Program::T),
            _ => {
                assert(kind.is_operator() && grammar.reachable(kind));
                if max_length < 2 {
                    return Err(GenerateError::TooLong);
                }
                let a = match Program::new_random(rng, grammar, max_length - 1) {
                    Ok(a) => a,
                    Err(e) => return Err(e),
                };
                let used = a.length();
                let b = match Program::new_random(rng, grammar, max_length - used) {
                    Ok(b) => b,
                    Err(e) => return Err(e),
                };
                let p = Program::from_kind(kind, a, b);
                proof {
                    assert(p.spec_length() == a.spec_length() + b.spec_length());
                }
                Ok(p)
            },
        }
    }

    /// Draws trees with `new_random`, at most `max_attempts` of them, and returns the first
    /// interesting one. Trees longer than the interesting bound are abandoned while drawn.
    pub fn new_interesting(
        rng: &mut rand::XorShiftRng,
        grammar: &WeightedSample<Kind>,
        max_attempts: u32,
    ) -> (r: Result<Program, GenerateError>)
        requires
            grammar.wf(),
        ensures
            r == Err::<Program, GenerateError>(GenerateError::NoWeight) <==> grammar.total_weight()
                == 0,
            r matches Err(e) ==> e != GenerateError::TooLong,
            r matches Ok(p) ==> p.spec_is_interesting() && p.every_node(
                |k: Kind| grammar.reachable(k),
            ),
            (forall|k: Kind| k.is_operator() ==> !grammar.reachable(k)) ==> r is Err,
            max_attempts == 0 && grammar.total_weight() > 0 ==> r == Err::<Program, GenerateError>(
                GenerateError::GaveUp,
            ),
    {
        if grammar.total() == 0 {
            return Err(GenerateError::NoWeight);
        }
        let mut attempt: u32 = 0;
        while attempt < max_attempts
            invariant
                grammar.wf(),
                grammar.total_weight() > 0,
            decreases max_attempts - attempt,
        {
            match Program::new_random(rng, grammar, MAX_INTERESTING_LENGTH) {
                Ok(p) => {
                    if p.is_interesting() {
                        proof {
                            if forall|k: Kind| k.is_operator() ==> !grammar.reachable(k) {
                                lemma_no_operator(p, |k: Kind| grammar.reachable(k));
                            }
                        }
                        return Ok(p);
                    }
                },
                Err(_) => {},
            }
            attempt = attempt + 1;
        }
        Err(GenerateError::GaveUp)
    }

    /// Evaluates the tree on one input triple.
    pub fn eval(&self, inputs: (u8, u8, u8)) -> (r: u8)
        ensures
            r == self.value(inputs.0, inputs.1, inputs.2),
        decreases self,
    {
        let (x, y, t) = inputs;
        match self {
            Program::Xor(a, b) => a.eval(inputs) ^ b.eval(inputs),
            Program::And(a, b) => a.eval(inputs) & b.eval(inputs),
            Program::Or(a, b) => a.eval(inputs) | b.eval(inputs),
            Program::Add(a, b) => a.eval(inputs).wrapping_add(b.eval(inputs)),
            Program::Sub(a, b) => a.eval(inputs).wrapping_sub(b.eval(inputs)),
            Program::Mul(a, b) => a.eval(inputs).wrapping_mul(b.eval(inputs)),
            Program::Div(a, b) => {
                let d = b.eval(inputs);
                if d == 0 {
                    return 0;
                }
                a.eval(inputs) / d
            },
            Program::X => x,
            Program::Y => y,
            Program::T => t,
        }
    }

    /// Some node of the tree has one of `kinds`.
    pub fn contains(&self, kinds: &[Kind]) -> (r: bool)
        ensures
            r == self.any_node(|k: Kind| kinds@.contains(k)),
        decreases self,
    {
        let here = self.kind();
        let mut i: usize = 0;
        while i < kinds.len()
            invariant
                here == self.spec_kind(),
                i <= kinds@.len(),
                forall|j: int| 0 <= j < i ==> kinds@[j] != here,
            decreases kinds@.len() - i,
        {
            if kinds[i] == here {
                assert(kinds@[i as int] == here);
                return true;
            }
            i = i + 1;
        }
        match self {
            Program::X | Program::Y | Program::T => false,
            Program::Xor(a, b) | Program::And(a, b) | Program::Or(a, b) | Program::Add(a, b)
            | Program::Sub(a, b) | Program::Mul(a, b) | Program::Div(a, b) => a.contains(kinds)
                || b.contains(kinds),
        }
    }

    /// The length of the tree, saturating at `u32::MAX`.
    pub fn length(&self) -> (r: u32)
        ensures
            r as nat == if self.spec_length() <= u32::MAX {
                self.spec_length()
            } else {
                u32::MAX as nat
            },
            r >= 1,
            !self.spec_kind().is_operator() ==> r == 1,
            self.operands() is Some && self.spec_length() <= u32::MAX ==> r
                == self.operands().unwrap().0.spec_length() + self.operands().unwrap().1.spec_length(),
        decreases self,
    {
        match self {
            Program::X | Program::Y | Program::T => 1,
            Program::Xor(a, b) | Program::And(a, b) | Program::Or(a, b) | Program::Add(a, b)
            | Program::Sub(a, b) | Program::Mul(a, b) | Program::Div(a, b) => a.length().saturating_add(
                b.length(),
            ),
        }
    }

    /// The tree holds a `T`, holds an operator, and its length lies in `[4, 15]`.
    pub fn is_interesting(&self) -> (r: bool)
        ensures
            r == self.spec_is_interesting(),
    {
        let t_only = [Kind::T];
        let operators = [
            Kind::Xor,
            Kind::And,
            Kind::Or,
            Kind::Add,
            Kind::Sub,
            Kind::Mul,
            Kind::Div,
        ];
        let has_t = self.contains(&t_only);
        let has_operator = self.contains(&operators);
        proof {
            assert((|k: Kind| t_only@.contains(k)) =~= (|k: Kind| k == Kind::T)) by {
                assert forall|k: Kind| t_only@.contains(k) == (k == Kind::T) by {
                    if k == Kind::T {
                        assert(t_only@[0] == k);
                    }
                }
            }
            assert((|k: Kind| operators@.contains(k)) =~= (|k: Kind| k.is_operator())) by {
                assert forall|k: Kind| operators@.contains(k) == k.is_operator() by {
                    if k.is_operator() {
                        let j: int = match k {
                            Kind::Xor => 0,
                            Kind::And => 1,
                            Kind::Or => 2,
                            Kind::Add => 3,
                            Kind::Sub => 4,
                            Kind::Mul => 5,
                            _ => 6,
                        };
                        assert(operators@[j] == k);
                    }
                }
            }
        }
        let len = self.length();
        has_t && has_operator && MIN_INTERESTING_LENGTH <= len && len <= MAX_INTERESTING_LENGTH
    }
}

/// A tree whose every node satisfies `f` holds no operator when `f` admits none.
pub proof fn lemma_no_operator(p: Program, f: spec_fn(Kind) -> bool)
    requires
        p.every_node(f),
        forall|k: Kind| k.is_operator() ==> !f(k),
    ensures
        !p.any_node(|k: Kind| k.is_operator()),
    decreases p,
{
    match p {
        Program::X | Program::Y | Program::T => {},
        Program::Xor(a, b) | Program::And(a, b) | Program::Or(a, b) | Program::Add(a, b)
        | Program::Sub(a, b) | Program::Mul(a, b) | Program::Div(a, b) => {
            lemma_no_operator(*a, f);
            lemma_no_operator(*b, f);
        },
    }
}

/// Every tree has length at least 1, and an operator's length is the sum of its operands'.
pub proof fn lemma_length(p: Program)
    ensures
        p.spec_length() >= 1,
        p.operands() matches Some((a, b)) ==> p.spec_length() == a.spec_length()
            + b.spec_length(),
    decreases p,
{
    match p {
        Program::X | Program::Y | Program::T => {},
        Program::Xor(a, b) | Program::And(a, b) | Program::Or(a, b) | Program::Add(a, b)
        | Program::Sub(a, b) | Program::Mul(a, b) | Program::Div(a, b) => {
            lemma_length(*a);
        },
    }
}

/// A division whose divisor evaluates to 0 evaluates to 0, whatever its dividend.
pub proof fn lemma_div_by_zero(a: Program, b: Program, x: u8, y: u8, t: u8)
    requires
        b.value(x, y, t) == 0,
    ensures
        Program::Div(Box::new(a), Box::new(b)).value(x, y, t) == 0,
{
}

} // verus!
