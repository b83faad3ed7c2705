use vstd::prelude::*;

verus! {

/// The window attribute that a match tests.
#[derive(Debug, Clone, Copy, PartialEq, Eq, Structural)]
pub enum Property {
    Class,
    Name,
    Role,
}

/// Whether a regular expression pattern compiles.
pub uninterp spec fn pattern_compiles(pattern: Seq<char>) -> bool;

/// Whether a compiled pattern finds a match anywhere in a text.
pub uninterp spec fn pattern_finds(pattern: Seq<char>, text: Seq<char>) -> bool;

#[verifier::external_type_specification]
#[verifier::external_body]
pub struct ExRegex(regex::Regex);

/// Relies on regex::Regex::new: whether it compiles depends on the pattern text alone.
#[verifier::external_body]
fn compile_regex(source: &str) -> (r: Option<regex::Regex>)
    ensures
        r is Some <==> pattern_compiles(source@),
{
    regex::Regex::new(source).ok()
}

/// A regular expression together with the text it was compiled from.
pub struct Pattern {
    source: String,
    compiled: regex::Regex,
}

impl View for Pattern {
    type V = Seq<char>;

    closed spec fn view(&self) -> Seq<char> {
        self.source@
    }
}

/// Relies on regex::Regex::is_match, on a regex compiled from `p`'s source:
/// the answer depends on the pattern and the text alone.
#[verifier::external_body]
fn regex_is_match(p: &Pattern, text: &str) -> (r: bool)
    ensures
        r == pattern_finds(p@, text@),
{
    p.compiled.is_match(text)
}

impl Pattern {
    /// Compiles `source`; `None` when it is not a valid pattern.
    pub fn new(source: &str) -> (r: Option<Pattern>)
        ensures
            r is Some <==> pattern_compiles(source@),
            r matches Some(p) ==> p@ == source@,
    {
        match compile_regex(source) {
            Some(compiled) => Some(Pattern { source: source.to_owned(), compiled }),
            None => None,
        }
    }

    /// The text the pattern was compiled from.
    pub fn as_str(&self) -> (r: &str)
        ensures
            r@ == self@,
    {
        self.source.as_str()
    }

    /// Whether the pattern finds a match anywhere in `text`.
    pub fn is_match(&self, text: &str) -> (r: bool)
        ensures
            r == pattern_finds(self@, text@),
    {
        regex_is_match(self, text)
    }
}

/// How a property value is compared.
pub enum Operator {
    Regex(Pattern),
    Equal(String),
}

/// The mathematical form of an `Operator`.
pub enum Test {
    Regex(Seq<char>),
    Equal(Seq<char>),
}

impl View for Operator {
    type V = Test;

    open spec fn view(&self) -> Test {
        match self {
            Operator::Regex(p) => Test::Regex(p@),
            Operator::Equal(s) => Test::Equal(s@),
        }
    }
}

/// Whether a property value passes a test.
pub open spec fn test_holds(t: Test, value: Seq<char>) -> bool {
    match t {
        Test::Regex(p) => pattern_finds(p, value),
        Test::Equal(v) => v == value,
    }
}

impl Operator {
    /// Applies the operator to a property value.
    pub fn test(&self, value: &String) -> (r: bool)
        ensures
            r == test_holds(self@, value@),
    {
        match self {
            Operator::Regex(p) => p.is_match(value.as_str()),
            Operator::Equal(v) => v.eq(value),
        }
    }
}

/// The smallest condition: one property compared by one operator.
pub struct Match {
    pub prop: Property,
    pub op: Operator,
}

/// A boolean expression over matches.
pub enum Condition {
    Pure(Match),
    And(Box<Condition>, Box<Condition>),
    Or(Box<Condition>, Box<Condition>),
    Not(Box<Condition>),
}

/// The mathematical form of a `Condition`.
pub enum Expr {
    Pure(Property, Test),
    And(Box<Expr>, Box<Expr>),
    Or(Box<Expr>, Box<Expr>),
    Not(Box<Expr>),
}

/// The expression that a condition stands for.
pub open spec fn expr_of(c: Condition) -> Expr
    decreases c,
{
    match c {
        Condition::Pure(m) => Expr::Pure(m.prop, m.op@),
        Condition::And(a, b) => Expr::And(Box::new(expr_of(*a)), Box::new(expr_of(*b))),
        Condition::Or(a, b) => Expr::Or(Box::new(expr_of(*a)), Box::new(expr_of(*b))),
        Condition::Not(a) => Expr::Not(Box::new(expr_of(*a))),
    }
}

impl View for Condition {
    type V = Expr;

    open spec fn view(&self) -> Expr {
        expr_of(*self)
    }
}

/// What resolving a property on a window gave: a value, no value, or a failure.
pub open spec fn resolved_view<E>(v: Result<Option<String>, E>) -> Result<Option<Seq<char>>, E> {
    match v {
        Ok(Some(s)) => Ok(Some(s@)),
        Ok(None) => Ok(None),
        Err(e) => Err(e),
    }
}

/// The outcome of a match given what resolving its property gave: an absent
/// value never matches, and a failure is passed on.
pub open spec fn match_outcome<E>(t: Test, v: Result<Option<Seq<char>>, E>) -> Result<bool, E> {
    match v {
        Ok(Some(s)) => Ok(test_holds(t, s)),
        Ok(None) => Ok(false),
        Err(e) => Err(e),
    }
}

/// Evaluates an expression for a window whose properties resolve as `env` says.
/// `And` and `Or` look at their right operand only when the left one leaves
/// the result open, so a failure there is not reached otherwise.
pub open spec fn eval<E>(e: Expr, env: spec_fn(Property) -> Result<Option<Seq<char>>, E>) -> Result<bool, E>
    decreases e,
{
    match e {
        Expr::Pure(p, t) => match_outcome(t, env(p)),
        Expr::And(a, b) => match eval(*a, env) {
            Ok(true) => eval(*b, env),
            other => other,
        },
        Expr::Or(a, b) => match eval(*a, env) {
            Ok(false) => eval(*b, env),
            other => other,
        },
        Expr::Not(a) => match eval(*a, env) {
            Ok(v) => Ok(!v),
            Err(x) => Err(x),
        },
    }
}

/// Whether the resolver `f` gives, for each property, what `env` says.
pub open spec fn resolves_as<F, E>(f: F, env: spec_fn(Property) -> Result<Option<Seq<char>>, E>) -> bool
    where F: Fn(Property) -> Result<Option<String>, E>,
{
    forall|p: Property, v: Result<Option<String>, E>|
        #[trigger] call_ensures(f, (p,), v) ==> resolved_view(v) == env(p)
}

impl Match {
    /// Resolves the property through `resolve` and applies the operator.
    pub fn matches<F, E>(&self, resolve: &F) -> (r: Result<bool, E>)
        where F: Fn(Property) -> Result<Option<String>, E>,
        requires
            forall|p: Property| call_requires(*resolve, (p,)),
        ensures
            forall|env: spec_fn(Property) -> Result<Option<Seq<char>>, E>|
                resolves_as(*resolve, env) ==> r == #[trigger] match_outcome(self.op@, env(self.prop)),
    {
        let v = resolve(self.prop);
        assert(call_ensures(*resolve, (self.prop,), v));
        match v {
            Ok(Some(s)) => Ok(self.op.test(&s)),
            Ok(None) => Ok(false),
            Err(x) => Err(x),
        }
    }
}

impl Condition {
    /// Evaluates the condition, resolving properties through `resolve` only
    /// as far as the result needs them. A failure of `resolve` ends the
    /// evaluation and is returned. Whenever `resolve` answers as a table of
    /// property values `env` does, the result is `eval(self@, env)`.
    pub fn matches<F, E>(&self, resolve: &F) -> (r: Result<bool, E>)
        where F: Fn(Property) -> Result<Option<String>, E>,
        requires
            forall|p: Property| call_requires(*resolve, (p,)),
        ensures
            forall|env: spec_fn(Property) -> Result<Option<Seq<char>>, E>|
                resolves_as(*resolve, env) ==> r == #[trigger] eval(self@, env),
        decreases self,
    {
        match self {
            Condition::Pure(m) => {
                let r = m.matches(resolve);
                assert forall|env: spec_fn(Property) -> Result<Option<Seq<char>>, E>|
                    resolves_as(*resolve, env) implies r == #[trigger] eval(self@, env) by {
                    assert(self@ == Expr::Pure(m.prop, m.op@));
                    assert(r == match_outcome(m.op@, env(m.prop)));
                }
                r
            },
            Condition::And(a, b) => {
                let ra = a.matches(resolve);
                let r = if let Ok(true) = ra {
                    b.matches(resolve)
                } else {
                    ra
                };
                assert forall|env: spec_fn(Property) -> Result<Option<Seq<char>>, E>|
                    resolves_as(*resolve, env) implies r == #[trigger] eval(self@, env) by {
                    assert(self@ == Expr::And(Box::new((**a)@), Box::new((**b)@)));
                    assert(ra == eval((**a)@, env));
                    if ra == Ok::<bool, E>(true) {
                        assert(r == eval((**b)@, env));
                    }
                }
                r
            },
            Condition::Or(a, b) => {
                let ra = a.matches(resolve);
                let r = if let Ok(false) = ra {
                    b.matches(resolve)
                } else {
                    ra
                };
                assert forall|env: spec_fn(Property) -> Result<Option<Seq<char>>, E>|
                    resolves_as(*resolve, env) implies r == #[trigger] eval(self@, env) by {
                    assert(self@ == Expr::Or(Box::new((**a)@), Box::new((**b)@)));
                    assert(ra == eval((**a)@, env));
                    if ra == Ok::<bool, E>(false) {
                        assert(r == eval((**b)@, env));
                    }
                }
                r
            },
            Condition::Not(a) => {
                let ra = a.matches(resolve);
                let r = match ra {
                    Ok(v) => Ok(!v),
                    Err(x) => Err(x),
                };
                assert forall|env: spec_fn(Property) -> Result<Option<Seq<char>>, E>|
                    resolves_as(*resolve, env) implies r == #[trigger] eval(self@, env) by {
                    assert(self@ == Expr::Not(Box::new((**a)@)));
                    assert(ra == eval((**a)@, env));
                }
                r
            },
        }
    }
}

/// The properties that evaluating `e` looks up, for a window whose properties
/// resolve as `env` says. The right operand of `And` or `Or` is looked at only
/// when the left one leaves the result open.
pub open spec fn consulted<E>(e: Expr, env: spec_fn(Property) -> Result<Option<Seq<char>>, E>) -> Set<Property>
    decreases e,
{
    match e {
        Expr::Pure(p, _) => set![p],
        Expr::And(a, b) => if eval(*a, env) == Ok::<bool, E>(true) {
            consulted(*a, env) + consulted(*b, env)
        } else {
            consulted(*a, env)
        },
        Expr::Or(a, b) => if eval(*a, env) == Ok::<bool, E>(false) {
            consulted(*a, env) + consulted(*b, env)
        } else {
            consulted(*a, env)
        },
        Expr::Not(a) => consulted(*a, env),
    }
}

/// Evaluation reads nothing but the properties it consults: a second table
/// that agrees on those gives the same result and consults the same properties,
/// whatever it says of the others, failures included.
pub proof fn lemma_eval_reads_only_consulted<E>(
    e: Expr,
    env1: spec_fn(Property) -> Result<Option<Seq<char>>, E>,
    env2: spec_fn(Property) -> Result<Option<Seq<char>>, E>,
)
    requires
        forall|p: Property| consulted(e, env1).contains(p) ==> #[trigger] env1(p) == env2(p),
    ensures
        eval(e, env1) == eval(e, env2),
        consulted(e, env1) == consulted(e, env2),
    decreases e,
{
    match e {
        Expr::Pure(p, t) => {
            assert(consulted(e, env1).contains(p));
        },
        Expr::And(a, b) => {
            lemma_eval_reads_only_consulted(*a, env1, env2);
            if eval(*a, env1) == Ok::<bool, E>(true) {
                lemma_eval_reads_only_consulted(*b, env1, env2);
            }
        },
        Expr::Or(a, b) => {
            lemma_eval_reads_only_consulted(*a, env1, env2);
            if eval(*a, env1) == Ok::<bool, E>(false) {
                lemma_eval_reads_only_consulted(*b, env1, env2);
            }
        },
        Expr::Not(a) => {
            lemma_eval_reads_only_consulted(*a, env1, env2);
        },
    }
}

/// `And` stops at a false left operand: the result is false whatever the
/// right operand is, even one whose properties fail to resolve, and none of
/// the right operand's properties is looked up on its account.
pub proof fn lemma_and_short_circuit<E>(a: Expr, b: Expr, env: spec_fn(Property) -> Result<Option<Seq<char>>, E>)
    requires
        eval(a, env) == Ok::<bool, E>(false),
    ensures
        eval(Expr::And(Box::new(a), Box::new(b)), env) == Ok::<bool, E>(false),
        consulted(Expr::And(Box::new(a), Box::new(b)), env) == consulted(a, env),
{
}

/// `Or` stops at a true left operand: the result is true whatever the right
/// operand is, even one whose properties fail to resolve, and none of the
/// right operand's properties is looked up on its account.
pub proof fn lemma_or_short_circuit<E>(a: Expr, b: Expr, env: spec_fn(Property) -> Result<Option<Seq<char>>, E>)
    requires
        eval(a, env) == Ok::<bool, E>(true),
    ensures
        eval(Expr::Or(Box::new(a), Box::new(b)), env) == Ok::<bool, E>(true),
        consulted(Expr::Or(Box::new(a), Box::new(b)), env) == consulted(a, env),
{
}

/// Evaluation is determined by the property values: two tables that give
/// every property the same value give every expression the same result.
pub proof fn lemma_evaluation_deterministic<E>(
    e: Expr,
    env1: spec_fn(Property) -> Result<Option<Seq<char>>, E>,
    env2: spec_fn(Property) -> Result<Option<Seq<char>>, E>,
)
    requires
        forall|p: Property| #[trigger] env1(p) == env2(p),
    ensures
        eval(e, env1) == eval(e, env2),
    decreases e,
{
    match e {
        Expr::Pure(p, t) => {},
        Expr::And(a, b) => {
            lemma_evaluation_deterministic(*a, env1, env2);
            lemma_evaluation_deterministic(*b, env1, env2);
        },
        Expr::Or(a, b) => {
            lemma_evaluation_deterministic(*a, env1, env2);
            lemma_evaluation_deterministic(*b, env1, env2);
        },
        Expr::Not(a) => {
            lemma_evaluation_deterministic(*a, env1, env2);
        },
    }
}

} // verus!
