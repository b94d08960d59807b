//! The parser/evaluator and the environment.
//!
//! The parser consumes tokens left to right, building an expression tree
//! that evaluation reduces at once. How many sub-expressions an identifier
//! consumes is not fixed by the grammar: it is the arity recorded in the
//! function value currently bound to that identifier, so parsing is
//! inseparable from a live environment, and a `set` earlier in a line can
//! change how the rest of the line parses.
//!
//! Every step of parsing and of evaluation is mirrored by spec functions
//! over the token model and an environment model (a map from names to
//! values), and the contracts tie the executable interpreter to them.

use crate::builtins;
use crate::object::FunctionImplementation;
use crate::object::Object;
use crate::reader::Reader;
use crate::reader::ReaderError;
use crate::reader::spec_decimal_nat;
use crate::reader::Token;
use crate::reader::TokenModel;
use vstd::prelude::*;

verus! {

/// An expression tree, produced by the parser and consumed by evaluation.
pub enum Expression {
    Constant(Object),
    Variable(String),
    Compound(Vec<Expression>),
    SetVariable(String, Box<Expression>),
    FunctionCall(FunctionImplementation, Vec<Expression>),
    If(Box<Expression>, Box<Expression>, Option<Box<Expression>>),
}

/// The mathematical model of an expression tree: names are their
/// character sequences.
pub enum ExprModel {
    Constant(Object),
    Variable(Seq<char>),
    Compound(Seq<ExprModel>),
    SetVariable(Seq<char>, Box<ExprModel>),
    FunctionCall(FunctionImplementation, Seq<ExprModel>),
    If(Box<ExprModel>, Box<ExprModel>, Option<Box<ExprModel>>),
}

/// The model of one expression.
pub open spec fn expr_model(e: Expression) -> ExprModel
    decreases e,
{
    match e {
        Expression::Constant(value) => ExprModel::Constant(value),
        Expression::Variable(name) => ExprModel::Variable(name@),
        Expression::Compound(children) => ExprModel::Compound(exprs_model(children@)),
        Expression::SetVariable(name, value) => ExprModel::SetVariable(
            name@,
            Box::new(expr_model(*value)),
        ),
        Expression::FunctionCall(implementation, args) => ExprModel::FunctionCall(
            implementation,
            exprs_model(args@),
        ),
        Expression::If(condition, if_true, otherwise) => ExprModel::If(
            Box::new(expr_model(*condition)),
            Box::new(expr_model(*if_true)),
            match otherwise {
                Some(e2) => Some(Box::new(expr_model(*e2))),
                None => None,
            },
        ),
    }
}

/// The models of a sequence of expressions, in order.
pub open spec fn exprs_model(es: Seq<Expression>) -> Seq<ExprModel>
    decreases es,
{
    if es.len() == 0 {
        Seq::empty()
    } else {
        exprs_model(es.drop_last()).push(expr_model(es.last()))
    }
}

/// The model of a sequence of expressions has the same length and models
/// each element in place.
proof fn lemma_exprs_model_index(es: Seq<Expression>)
    ensures
        exprs_model(es).len() == es.len(),
        forall|i: int|
            0 <= i < es.len() ==> exprs_model(es)[i] == expr_model(#[trigger] es[i]),
    decreases es.len(),
{
    if es.len() > 0 {
        lemma_exprs_model_index(es.drop_last());
        assert forall|i: int| 0 <= i < es.len() implies exprs_model(es)[i] == expr_model(
            es[i],
        ) by {
            if i < es.len() - 1 {
                assert(es.drop_last()[i] == es[i]);
            }
        }
    }
}

impl View for Expression {
    type V = ExprModel;

    open spec fn view(&self) -> ExprModel {
        expr_model(*self)
    }
}

/// A parse error. A lexical failure is wrapped whole; the other variants
/// carry the usage text of the form that went wrong.
#[derive(Debug, PartialEq)]
pub enum ParserError {
    ReadingFailed(ReaderError),
    ExpectedAnExpression(String),
    ExpectedAnIdentifier(String),
    UnterminatedCompoundExpression,
    UnexpectedBrace,
}

/// The mathematical model of a parse error.
pub enum ParserErrorModel {
    ReadingFailed(ReaderError),
    ExpectedAnExpression(Seq<char>),
    ExpectedAnIdentifier(Seq<char>),
    UnterminatedCompoundExpression,
    UnexpectedBrace,
}

impl View for ParserError {
    type V = ParserErrorModel;

    open spec fn view(&self) -> ParserErrorModel {
        match self {
            ParserError::ReadingFailed(e) => ParserErrorModel::ReadingFailed(*e),
            ParserError::ExpectedAnExpression(text) => ParserErrorModel::ExpectedAnExpression(
                text@,
            ),
            ParserError::ExpectedAnIdentifier(text) => ParserErrorModel::ExpectedAnIdentifier(
                text@,
            ),
            ParserError::UnterminatedCompoundExpression =>
                ParserErrorModel::UnterminatedCompoundExpression,
            ParserError::UnexpectedBrace => ParserErrorModel::UnexpectedBrace,
        }
    }
}

/// The environment model: what a sequence of bindings maps each name to,
/// a later binding shadowing an earlier one.
pub open spec fn env_map(entries: Seq<(String, Object)>) -> Map<Seq<char>, Object>
    decreases entries.len(),
{
    if entries.len() == 0 {
        Map::empty()
    } else {
        env_map(entries.drop_last()).insert(entries.last().0@, entries.last().1)
    }
}

/// Bindings whose suffix holds no entry for `name` map `name` as their
/// prefix does.
proof fn lemma_env_map_skip_suffix(entries: Seq<(String, Object)>, i: int, name: Seq<char>)
    requires
        0 <= i <= entries.len(),
        forall|j: int| i <= j < entries.len() ==> (#[trigger] entries[j]).0@ != name,
    ensures
        env_map(entries).contains_key(name) == env_map(entries.subrange(0, i)).contains_key(name),
        env_map(entries).contains_key(name) ==> env_map(entries)[name] == env_map(
            entries.subrange(0, i),
        )[name],
    decreases entries.len() - i,
{
    if i < entries.len() {
        lemma_env_map_skip_suffix(entries.subrange(0, entries.len() - 1), i, name);
        assert(entries.subrange(0, entries.len() - 1).subrange(0, i) =~= entries.subrange(0, i));
        assert(entries.drop_last() =~= entries.subrange(0, entries.len() - 1));
    } else {
        assert(entries.subrange(0, entries.len() as int) =~= entries);
    }
}

/// Updating the last binding of `name` in place models an insert.
proof fn lemma_env_map_update(entries: Seq<(String, Object)>, j: int, entry: (String, Object))
    requires
        0 <= j < entries.len(),
        entries[j].0@ == entry.0@,
        forall|k: int| j < k < entries.len() ==> (#[trigger] entries[k]).0@ != entry.0@,
    ensures
        env_map(entries.update(j, entry)) =~= env_map(entries).insert(entry.0@, entry.1),
    decreases entries.len(),
{
    let updated = entries.update(j, entry);
    if j == entries.len() - 1 {
        assert(updated.drop_last() =~= entries.drop_last());
        assert(env_map(updated) =~= env_map(entries).insert(entry.0@, entry.1));
    } else {
        lemma_env_map_update(entries.drop_last(), j, entry);
        assert(updated.drop_last() =~= entries.drop_last().update(j, entry));
        assert(updated.last() == entries.last());
        assert(env_map(updated) =~= env_map(entries).insert(entry.0@, entry.1));
    }
}

/// Reading a name from the environment: the bound value, or `Noop` bound
/// on the spot when the name was never set (auto-vivification).
pub open spec fn spec_env_get(env: Map<Seq<char>, Object>, name: Seq<char>) -> (Object, Map<
    Seq<char>,
    Object,
>) {
    if env.contains_key(name) {
        (env[name], env)
    } else {
        (Object::Noop, env.insert(name, Object::Noop))
    }
}

/// Evaluating one expression against an environment: the value it reduces
/// to, next to the environment it leaves behind.
pub open spec fn spec_eval(e: ExprModel, env: Map<Seq<char>, Object>) -> (Object, Map<
    Seq<char>,
    Object,
>)
    decreases e,
{
    match e {
        ExprModel::Constant(value) => (value, env),
        ExprModel::Variable(name) => spec_env_get(env, name),
        ExprModel::Compound(children) => spec_eval_sequence(children, env, Object::Noop),
        ExprModel::SetVariable(name, value) => {
            let (v, env1) = spec_eval(*value, env);
            (v, env1.insert(name, v))
        },
        ExprModel::FunctionCall(implementation, args) => {
            let (values, env1) = spec_eval_arguments(args, env);
            (builtins::spec_call_args(implementation, values), env1)
        },
        ExprModel::If(condition, if_true, otherwise) => {
            let (c, env1) = spec_eval(*condition, env);
            if !(c is Noop) {
                spec_eval(*if_true, env1)
            } else {
                match otherwise {
                    Some(e2) => spec_eval(*e2, env1),
                    None => (Object::Noop, env1),
                }
            }
        },
    }
}

/// Evaluating expressions in order, keeping only the last value: the
/// model of a compound expression, `last` standing for the empty rest.
pub open spec fn spec_eval_sequence(
    children: Seq<ExprModel>,
    env: Map<Seq<char>, Object>,
    last: Object,
) -> (Object, Map<Seq<char>, Object>)
    decreases children,
{
    if children.len() == 0 {
        (last, env)
    } else {
        let (v, env1) = spec_eval(children[0], env);
        spec_eval_sequence(children.drop_first(), env1, v)
    }
}

/// Evaluating call arguments left to right: the list of their values,
/// next to the environment they leave behind.
pub open spec fn spec_eval_arguments(args: Seq<ExprModel>, env: Map<Seq<char>, Object>) -> (
    Seq<Object>,
    Map<Seq<char>, Object>,
)
    decreases args,
{
    if args.len() == 0 {
        (Seq::empty(), env)
    } else {
        let (v, env1) = spec_eval(args[0], env);
        let (rest, env2) = spec_eval_arguments(args.drop_first(), env1);
        (seq![v] + rest, env2)
    }
}

impl Expression {
    /// Reduce this expression tree to a value, reading and writing the
    /// interpreter's environment as the tree prescribes. The condition of
    /// a conditional is falsy only as `Noop`: any number, zero included,
    /// and any function value take the then-branch.
    #[verifier::loop_isolation(false)]
    pub fn evaluate(&self, interpreter: &mut Bloodbath) -> (r: Object)
        ensures
            r == spec_eval(self@, old(interpreter)@).0,
            final(interpreter)@ == spec_eval(self@, old(interpreter)@).1,
        decreases *self,
    {
        match self {
            Expression::Constant(result) => *result,
            Expression::Variable(name) => interpreter.variable_get(name),
            Expression::Compound(expressions) => {
                proof {
                    lemma_exprs_model_index(expressions@);
                }
                let ghost children = exprs_model(expressions@);
                let mut result = Object::Noop;
                let mut index: usize = 0;
                proof {
                    assert(children.skip(0) =~= children);
                }
                while index < expressions.len()
                    invariant
                        index <= expressions@.len(),
                        children == exprs_model(expressions@),
                        children.len() == expressions@.len(),
                        forall|i: int|
                            0 <= i < expressions@.len() ==> children[i] == expr_model(
                                #[trigger] expressions@[i],
                            ),
                        spec_eval_sequence(children.skip(index as int), interpreter@, result)
                            == spec_eval_sequence(children, old(interpreter)@, Object::Noop),
                    decreases expressions@.len() - index,
                {
                    let ghost before = index as int;
                    proof {
                        assert(children.skip(before)[0] == children[before]);
                        assert(children.skip(before).drop_first() =~= children.skip(before + 1));
                        assert(decreases_to!(*expressions => expressions@[before]));
                    }
                    result = expressions[index].evaluate(interpreter);
                    index = index + 1;
                }
                result
            },
            Expression::SetVariable(name, value) => {
                let v = value.evaluate(interpreter);
                interpreter.variable_set(name, v);
                v
            },
            Expression::FunctionCall(implementation, args) => {
                proof {
                    lemma_exprs_model_index(args@);
                }
                let ghost arg_models = exprs_model(args@);
                let mut values: Vec<Object> = Vec::new();
                let mut index: usize = 0;
                proof {
                    assert(arg_models.skip(0) =~= arg_models);
                }
                while index < args.len()
                    invariant
                        index <= args@.len(),
                        arg_models == exprs_model(args@),
                        arg_models.len() == args@.len(),
                        forall|i: int|
                            0 <= i < args@.len() ==> arg_models[i] == expr_model(
                                #[trigger] args@[i],
                            ),
                        spec_eval_arguments(arg_models, old(interpreter)@) == {
                            let (rest, env2) = spec_eval_arguments(
                                arg_models.skip(index as int),
                                interpreter@,
                            );
                            (values@ + rest, env2)
                        },
                    decreases args@.len() - index,
                {
                    let ghost before = index as int;
                    let ghost values_before = values@;
                    proof {
                        assert(arg_models.skip(before)[0] == arg_models[before]);
                        assert(arg_models.skip(before).drop_first() =~= arg_models.skip(before + 1));
                        assert(decreases_to!(*args => args@[before]));
                    }
                    let v = args[index].evaluate(interpreter);
                    values.push(v);
                    index = index + 1;
                    proof {
                        let (rest, env2) = spec_eval_arguments(
                            arg_models.skip(before + 1),
                            interpreter@,
                        );
                        assert(values_before + (seq![v] + rest) =~= values@ + rest);
                    }
                }
                proof {
                    assert(values@ + Seq::<Object>::empty() =~= values@);
                }
                implementation.call(values)
            },
            Expression::If(condition, if_true, otherwise) => {
                let c = condition.evaluate(interpreter);
                match c {
                    Object::Noop => match otherwise {
                        Some(else_branch) => else_branch.evaluate(interpreter),
                        None => Object::Noop,
                    },
                    _ => if_true.evaluate(interpreter),
                }
            },
        }
    }
}

/// The usage text of a keyword that a form demanded.
pub open spec fn keyword_message(keyword: Seq<char>) -> Seq<char> {
    "Keyword `"@ + keyword + "`"@
}

/// The usage text of the `identity` form.
pub open spec fn identity_usage() -> Seq<char> {
    "`identity` must be followed by a constant or a variable name"@
}

/// The usage text of the `set` form.
pub open spec fn set_usage() -> Seq<char> {
    "`set` must be followed by a variable name and the variable's new value"@
}

/// The usage text of the `if` form.
pub open spec fn if_usage() -> Seq<char> {
    "`if` must be followed by a condition"@
}

/// The usage text of a `then` branch.
pub open spec fn then_usage() -> Seq<char> {
    "`then` must be followed by an expression"@
}

/// The usage text of an `else` branch.
pub open spec fn else_usage() -> Seq<char> {
    "`else` must be followed by an expression"@
}

/// The text reporting a call whose arguments ran out: the arity asked
/// for, the verb's name, and how many arguments were found.
pub open spec fn missing_arguments_message(total: u16, name: Seq<char>, got: nat) -> Seq<char> {
    "Expected "@ + spec_decimal_nat(total as nat) + " arguments after `"@ + name + "`, got "@
        + spec_decimal_nat(got)
}

/// An error a spec parse function places on paths its callers rule out:
/// no executable path reaches it.
pub open spec fn unreachable_parse_error() -> ParserErrorModel {
    ParserErrorModel::ExpectedAnExpression(Seq::empty())
}

/// The model of `expect_keyword`: the tokens after the demanded keyword,
/// or the error naming it.
pub open spec fn spec_expect_keyword(toks: Seq<TokenModel>, keyword: Seq<char>) -> Result<
    Seq<TokenModel>,
    ParserErrorModel,
> {
    if toks.len() == 0 {
        Err(ParserErrorModel::ExpectedAnIdentifier(keyword_message(keyword)))
    } else {
        match toks[0] {
            TokenModel::Identifier(name) => if name == keyword {
                Ok(toks.drop_first())
            } else {
                Err(ParserErrorModel::ExpectedAnIdentifier(keyword_message(keyword)))
            },
            _ => Err(ParserErrorModel::ExpectedAnIdentifier(keyword_message(keyword))),
        }
    }
}

/// The model of `check_keyword`: whether the keyword stands first, and
/// the tokens with it consumed when it does.
pub open spec fn spec_check_keyword(toks: Seq<TokenModel>, keyword: Seq<char>) -> (
    bool,
    Seq<TokenModel>,
) {
    if toks.len() > 0 && (toks[0] matches TokenModel::Identifier(name) && name == keyword) {
        (true, toks.drop_first())
    } else {
        (false, toks)
    }
}

/// The model of parsing one expression at the head of `toks` against
/// `env`. Every spec parse function returns its outcome — the expression
/// built and the tokens left, or the error — next to the environment it
/// leaves, since looking a name up auto-vivifies it even when the parse
/// fails later.
pub open spec fn spec_parse_expression(env: Map<Seq<char>, Object>, toks: Seq<TokenModel>) -> (
    Result<(ExprModel, Seq<TokenModel>), ParserErrorModel>,
    Map<Seq<char>, Object>,
)
    decreases toks.len(), 0int,
{
    if toks.len() == 0 {
        (Err(unreachable_parse_error()), env)
    } else {
        let rest = toks.drop_first();
        match toks[0] {
            TokenModel::IntegerConstant(value) => (
                Ok((ExprModel::Constant(Object::Integer(value)), rest)),
                env,
            ),
            TokenModel::FloatConstant(bits) => (
                Ok((ExprModel::Constant(Object::Float(bits)), rest)),
                env,
            ),
            TokenModel::Identifier(name) => {
                if name == "noop"@ {
                    (Ok((ExprModel::Constant(Object::Noop), rest)), env)
                } else if name == "identity"@ {
                    spec_parse_identity(env, rest)
                } else if name == "set"@ {
                    spec_parse_set(env, rest)
                } else if name == "if"@ {
                    spec_parse_if(env, rest)
                } else if name == "{"@ {
                    spec_parse_compound(env, rest)
                } else if name == "}"@ {
                    (Err(ParserErrorModel::UnexpectedBrace), env)
                } else {
                    spec_parse_variable(env, name, rest)
                }
            },
        }
    }
}

/// The model of the `identity` form: the next token taken literally,
/// without recursive parsing — a brace is a syntax error.
pub open spec fn spec_parse_identity(env: Map<Seq<char>, Object>, toks: Seq<TokenModel>) -> (
    Result<(ExprModel, Seq<TokenModel>), ParserErrorModel>,
    Map<Seq<char>, Object>,
) {
    if toks.len() == 0 {
        (Err(ParserErrorModel::ExpectedAnExpression(identity_usage())), env)
    } else {
        let rest = toks.drop_first();
        match toks[0] {
            TokenModel::Identifier(name) => if name == "noop"@ {
                (Ok((ExprModel::Constant(Object::Noop), rest)), env)
            } else if name == "{"@ || name == "}"@ {
                (Err(ParserErrorModel::UnexpectedBrace), env)
            } else {
                (Ok((ExprModel::Variable(name), rest)), env)
            },
            TokenModel::IntegerConstant(value) => (
                Ok((ExprModel::Constant(Object::Integer(value)), rest)),
                env,
            ),
            TokenModel::FloatConstant(bits) => (
                Ok((ExprModel::Constant(Object::Float(bits)), rest)),
                env,
            ),
        }
    }
}

/// The model of the `set` form: a bare name, then one sub-expression.
pub open spec fn spec_parse_set(env: Map<Seq<char>, Object>, toks: Seq<TokenModel>) -> (
    Result<(ExprModel, Seq<TokenModel>), ParserErrorModel>,
    Map<Seq<char>, Object>,
)
    decreases toks.len(), 1int,
{
    if toks.len() == 0 {
        (Err(ParserErrorModel::ExpectedAnIdentifier(set_usage())), env)
    } else {
        match toks[0] {
            TokenModel::Identifier(name) => {
                if name == "{"@ || name == "}"@ {
                    (Err(ParserErrorModel::ExpectedAnIdentifier(set_usage())), env)
                } else {
                    let rest = toks.drop_first();
                    if rest.len() == 0 {
                        (Err(ParserErrorModel::ExpectedAnExpression(set_usage())), env)
                    } else {
                        let (res, env1) = spec_parse_expression(env, rest);
                        match res {
                            Ok((value, rest2)) => (
                                Ok((ExprModel::SetVariable(name, Box::new(value)), rest2)),
                                env1,
                            ),
                            Err(e) => (Err(e), env1),
                        }
                    }
                }
            },
            _ => (Err(ParserErrorModel::ExpectedAnIdentifier(set_usage())), env),
        }
    }
}

/// The model of the `if` form: a condition, the keyword `then`, a
/// then-branch, and optionally the keyword `else` with an else-branch.
pub open spec fn spec_parse_if(env: Map<Seq<char>, Object>, toks: Seq<TokenModel>) -> (
    Result<(ExprModel, Seq<TokenModel>), ParserErrorModel>,
    Map<Seq<char>, Object>,
)
    decreases toks.len(), 1int,
{
    if toks.len() == 0 {
        (Err(ParserErrorModel::ExpectedAnExpression(if_usage())), env)
    } else {
        let (cres, env1) = spec_parse_expression(env, toks);
        match cres {
            Err(e) => (Err(e), env1),
            Ok((condition, rest1)) => {
                if rest1.len() >= toks.len() {
                    (Err(unreachable_parse_error()), env1)
                } else {
                    match spec_expect_keyword(rest1, "then"@) {
                        Err(e) => (Err(e), env1),
                        Ok(rest2) => {
                            if rest2.len() == 0 {
                                (Err(ParserErrorModel::ExpectedAnExpression(then_usage())), env1)
                            } else {
                                let (tres, env2) = spec_parse_expression(env1, rest2);
                                match tres {
                                    Err(e) => (Err(e), env2),
                                    Ok((if_true, rest3)) => {
                                        let (has_else, rest4) = spec_check_keyword(rest3, "else"@);
                                        if !has_else {
                                            (
                                                Ok(
                                                    (
                                                        ExprModel::If(
                                                            Box::new(condition),
                                                            Box::new(if_true),
                                                            None,
                                                        ),
                                                        rest4,
                                                    ),
                                                ),
                                                env2,
                                            )
                                        } else if rest4.len() == 0 {
                                            (
                                                Err(
                                                    ParserErrorModel::ExpectedAnExpression(
                                                        else_usage(),
                                                    ),
                                                ),
                                                env2,
                                            )
                                        } else if rest4.len() >= toks.len() {
                                            (Err(unreachable_parse_error()), env2)
                                        } else {
                                            let (eres, env3) = spec_parse_expression(env2, rest4);
                                            match eres {
                                                Err(e) => (Err(e), env3),
                                                Ok((otherwise, rest5)) => (
                                                    Ok(
                                                        (
                                                            ExprModel::If(
                                                                Box::new(condition),
                                                                Box::new(if_true),
                                                                Some(Box::new(otherwise)),
                                                            ),
                                                            rest5,
                                                        ),
                                                    ),
                                                    env3,
                                                ),
                                            }
                                        }
                                    },
                                }
                            }
                        },
                    }
                }
            },
        }
    }
}

/// The model of a brace-delimited compound form: sub-expressions until
/// the matching closing brace.
pub open spec fn spec_parse_compound(env: Map<Seq<char>, Object>, toks: Seq<TokenModel>) -> (
    Result<(ExprModel, Seq<TokenModel>), ParserErrorModel>,
    Map<Seq<char>, Object>,
)
    decreases toks.len(), 2int,
{
    if toks.len() == 0 {
        (Err(ParserErrorModel::UnterminatedCompoundExpression), env)
    } else {
        spec_parse_compound_items(env, toks, Seq::empty())
    }
}

/// The model of the items of a compound form: expressions accumulate into
/// `acc` until the closing brace.
pub open spec fn spec_parse_compound_items(
    env: Map<Seq<char>, Object>,
    toks: Seq<TokenModel>,
    acc: Seq<ExprModel>,
) -> (Result<(ExprModel, Seq<TokenModel>), ParserErrorModel>, Map<Seq<char>, Object>)
    decreases toks.len(), 1int,
{
    if toks.len() == 0 {
        (Err(ParserErrorModel::UnterminatedCompoundExpression), env)
    } else if toks[0] matches TokenModel::Identifier(name) && name == "}"@ {
        (Ok((ExprModel::Compound(acc), toks.drop_first())), env)
    } else {
        let (res, env1) = spec_parse_expression(env, toks);
        match res {
            Err(e) => (Err(e), env1),
            Ok((item, rest)) => {
                if rest.len() == 0 {
                    (Err(ParserErrorModel::UnterminatedCompoundExpression), env1)
                } else if rest.len() >= toks.len() {
                    (Err(unreachable_parse_error()), env1)
                } else {
                    spec_parse_compound_items(env1, rest, acc.push(item))
                }
            },
        }
    }
}

/// The model of parsing an ordinary identifier: the name is looked up
/// first — auto-vivifying it — and when the binding is a function, its
/// arity directs how many sub-expressions follow as arguments; any other
/// binding makes it a plain variable reference.
pub open spec fn spec_parse_variable(
    env: Map<Seq<char>, Object>,
    name: Seq<char>,
    toks: Seq<TokenModel>,
) -> (Result<(ExprModel, Seq<TokenModel>), ParserErrorModel>, Map<Seq<char>, Object>)
    decreases toks.len(), 2int,
{
    let (value, env1) = spec_env_get(env, name);
    match value {
        Object::Function { argument_count, implementation } => {
            let (ares, env2) = spec_parse_arguments(
                env1,
                toks,
                argument_count as nat,
                argument_count,
                name,
            );
            match ares {
                Ok((args, rest)) => (Ok((ExprModel::FunctionCall(implementation, args), rest)), env2),
                Err(e) => (Err(e), env2),
            }
        },
        _ => (Ok((ExprModel::Variable(name), toks)), env1),
    }
}

/// The model of reading `remaining` call arguments, each one a fully
/// parsed sub-expression; running out of tokens names the verb and the
/// count reached.
pub open spec fn spec_parse_arguments(
    env: Map<Seq<char>, Object>,
    toks: Seq<TokenModel>,
    remaining: nat,
    total: u16,
    name: Seq<char>,
) -> (Result<(Seq<ExprModel>, Seq<TokenModel>), ParserErrorModel>, Map<Seq<char>, Object>)
    decreases toks.len(), 1int,
{
    if remaining == 0 {
        (Ok((Seq::empty(), toks)), env)
    } else if toks.len() == 0 {
        (
            Err(
                ParserErrorModel::ExpectedAnExpression(
                    missing_arguments_message(total, name, (total - remaining) as nat),
                ),
            ),
            env,
        )
    } else {
        let (res, env1) = spec_parse_expression(env, toks);
        match res {
            Err(e) => (Err(e), env1),
            Ok((argument, rest)) => {
                if rest.len() >= toks.len() {
                    (Err(unreachable_parse_error()), env1)
                } else {
                    let (ares, env2) = spec_parse_arguments(
                        env1,
                        rest,
                        (remaining - 1) as nat,
                        total,
                        name,
                    );
                    match ares {
                        Ok((args, rest2)) => (Ok((seq![argument] + args, rest2)), env2),
                        Err(e) => (Err(e), env2),
                    }
                }
            },
        }
    }
}

/// A successful parse of one expression consumes at least one token and
/// never produces tokens out of thin air.
proof fn lemma_parse_expression_consumes(env: Map<Seq<char>, Object>, toks: Seq<TokenModel>)
    ensures
        ({
            let (res, env1) = spec_parse_expression(env, toks);
            res matches Ok((e, rest)) ==> rest.len() < toks.len()
        }),
    decreases toks.len(), 0int,
{
    if toks.len() > 0 {
        let rest = toks.drop_first();
        match toks[0] {
            TokenModel::Identifier(name) => {
                if name == "noop"@ {
                } else if name == "identity"@ {
                } else if name == "set"@ {
                    lemma_parse_set_consumes(env, rest);
                } else if name == "if"@ {
                    lemma_parse_if_consumes(env, rest);
                } else if name == "{"@ {
                    lemma_parse_compound_consumes(env, rest);
                } else if name == "}"@ {
                } else {
                    lemma_parse_variable_consumes(env, name, rest);
                }
            },
            _ => {},
        }
    }
}

/// A successful `set` form consumes the name and its sub-expression.
proof fn lemma_parse_set_consumes(env: Map<Seq<char>, Object>, toks: Seq<TokenModel>)
    ensures
        ({
            let (res, env1) = spec_parse_set(env, toks);
            res matches Ok((e, rest)) ==> rest.len() < toks.len()
        }),
    decreases toks.len(), 1int,
{
    if toks.len() > 0 {
        match toks[0] {
            TokenModel::Identifier(name) => {
                if !(name == "{"@ || name == "}"@) && toks.drop_first().len() > 0 {
                    lemma_parse_expression_consumes(env, toks.drop_first());
                }
            },
            _ => {},
        }
    }
}

/// A successful `if` form consumes its condition and branches.
proof fn lemma_parse_if_consumes(env: Map<Seq<char>, Object>, toks: Seq<TokenModel>)
    ensures
        ({
            let (res, env1) = spec_parse_if(env, toks);
            res matches Ok((e, rest)) ==> rest.len() < toks.len()
        }),
    decreases toks.len(), 1int,
{
    if toks.len() > 0 {
        lemma_parse_expression_consumes(env, toks);
        let (cres, env1) = spec_parse_expression(env, toks);
        match cres {
            Err(_) => {},
            Ok((condition, rest1)) => {
                if rest1.len() < toks.len() {
                    match spec_expect_keyword(rest1, "then"@) {
                        Err(_) => {},
                        Ok(rest2) => {
                            if rest2.len() > 0 {
                                lemma_parse_expression_consumes(env1, rest2);
                                let (tres, env2) = spec_parse_expression(env1, rest2);
                                match tres {
                                    Err(_) => {},
                                    Ok((if_true, rest3)) => {
                                        let (has_else, rest4) = spec_check_keyword(rest3, "else"@);
                                        if has_else && 0 < rest4.len() < toks.len() {
                                            lemma_parse_expression_consumes(env2, rest4);
                                        }
                                    },
                                }
                            }
                        },
                    }
                }
            },
        }
    }
}

/// A successful compound form consumes everything up to and including
/// its closing brace.
proof fn lemma_parse_compound_consumes(env: Map<Seq<char>, Object>, toks: Seq<TokenModel>)
    ensures
        ({
            let (res, env1) = spec_parse_compound(env, toks);
            res matches Ok((e, rest)) ==> rest.len() < toks.len()
        }),
    decreases toks.len(), 2int,
{
    if toks.len() > 0 {
        lemma_parse_compound_items_consumes(env, toks, Seq::empty());
    }
}

/// A successful run of compound items consumes at least the closing
/// brace.
proof fn lemma_parse_compound_items_consumes(
    env: Map<Seq<char>, Object>,
    toks: Seq<TokenModel>,
    acc: Seq<ExprModel>,
)
    ensures
        ({
            let (res, env1) = spec_parse_compound_items(env, toks, acc);
            res matches Ok((e, rest)) ==> rest.len() < toks.len()
        }),
    decreases toks.len(), 1int,
{
    if toks.len() > 0 {
        if !(toks[0] matches TokenModel::Identifier(name) && name == "}"@) {
            lemma_parse_expression_consumes(env, toks);
            let (res, env1) = spec_parse_expression(env, toks);
            match res {
                Err(_) => {},
                Ok((item, rest)) => {
                    if 0 < rest.len() < toks.len() {
                        lemma_parse_compound_items_consumes(env1, rest, acc.push(item));
                    }
                },
            }
        }
    }
}

/// Parsing an identifier's call arguments never produces tokens: the
/// tokens left are at most those given (an arity of zero consumes none).
proof fn lemma_parse_arguments_consumes(
    env: Map<Seq<char>, Object>,
    toks: Seq<TokenModel>,
    remaining: nat,
    total: u16,
    name: Seq<char>,
)
    ensures
        ({
            let (res, env1) = spec_parse_arguments(env, toks, remaining, total, name);
            res matches Ok((args, rest)) ==> rest.len() <= toks.len()
        }),
    decreases toks.len(), 1int,
{
    if remaining > 0 && toks.len() > 0 {
        lemma_parse_expression_consumes(env, toks);
        let (res, env1) = spec_parse_expression(env, toks);
        match res {
            Err(_) => {},
            Ok((argument, rest)) => {
                if rest.len() < toks.len() {
                    lemma_parse_arguments_consumes(env1, rest, (remaining - 1) as nat, total, name);
                }
            },
        }
    }
}

/// Parsing an identifier as a variable or call never produces tokens.
proof fn lemma_parse_variable_consumes(
    env: Map<Seq<char>, Object>,
    name: Seq<char>,
    toks: Seq<TokenModel>,
)
    ensures
        ({
            let (res, env1) = spec_parse_variable(env, name, toks);
            res matches Ok((e, rest)) ==> rest.len() <= toks.len()
        }),
    decreases toks.len(), 2int,
{
    let (value, env1) = spec_env_get(env, name);
    match value {
        Object::Function { argument_count, implementation } => {
            lemma_parse_arguments_consumes(env1, toks, argument_count as nat, argument_count, name);
        },
        _ => {},
    }
}

/// The interpreter: a global environment of variables, the builtin verbs
/// installed at start under their operator names as ordinary, mutable
/// bindings.
pub struct Bloodbath {
    environment: Vec<(String, Object)>,
}

impl View for Bloodbath {
    type V = Map<Seq<char>, Object>;

    closed spec fn view(&self) -> Map<Seq<char>, Object> {
        env_map(self.environment@)
    }
}

/// The environment a session starts with: the four arithmetic verbs, each
/// a two-argument function value.
pub open spec fn initial_environment() -> Map<Seq<char>, Object> {
    Map::empty().insert(
        "+"@,
        Object::Function { argument_count: 2, implementation: FunctionImplementation::Addition },
    ).insert(
        "-"@,
        Object::Function { argument_count: 2, implementation: FunctionImplementation::Subtraction },
    ).insert(
        "*"@,
        Object::Function {
            argument_count: 2,
            implementation: FunctionImplementation::Multiplication,
        },
    ).insert(
        "/"@,
        Object::Function { argument_count: 2, implementation: FunctionImplementation::Division },
    )
}

impl Bloodbath {
    /// A fresh session holding exactly the builtin verbs.
    pub fn new() -> (r: Self)
        ensures
            r@ == initial_environment(),
    {
        let mut us = Self { environment: Vec::new() };
        proof {
            assert(us@ =~= Map::<Seq<char>, Object>::empty());
        }
        us.register(&"+".to_owned(), 2, FunctionImplementation::Addition);
        us.register(&"-".to_owned(), 2, FunctionImplementation::Subtraction);
        us.register(&"*".to_owned(), 2, FunctionImplementation::Multiplication);
        us.register(&"/".to_owned(), 2, FunctionImplementation::Division);
        us
    }

    /// The value bound to `variable_name`, a never-set name being bound to
    /// `Noop` as a side effect of the read. Reading never fails, and after
    /// any read the name is bound.
    pub fn variable_get(&mut self, variable_name: &String) -> (r: Object)
        ensures
            r == spec_env_get(old(self)@, variable_name@).0,
            final(self)@ == spec_env_get(old(self)@, variable_name@).1,
            final(self)@.contains_key(variable_name@),
    {
        let mut i = self.environment.len();
        while i > 0
            invariant
                i <= self.environment@.len(),
                self == old(self),
                forall|j: int|
                    i <= j < self.environment@.len() ==> (#[trigger] self.environment@[j]).0@
                        != variable_name@,
            decreases i,
        {
            i = i - 1;
            if self.environment[i].0 == *variable_name {
                proof {
                    let entries = self.environment@;
                    lemma_env_map_skip_suffix(entries, i + 1, variable_name@);
                    assert(entries.subrange(0, i + 1).drop_last() =~= entries.subrange(0, i as int));
                    assert(entries.subrange(0, i + 1).last() == entries[i as int]);
                }
                return self.environment[i].1;
            }
        }
        proof {
            lemma_env_map_skip_suffix(self.environment@, 0, variable_name@);
            assert(self.environment@.subrange(0, 0) =~= Seq::<(String, Object)>::empty());
        }
        self.variable_set(variable_name, Object::Noop);
        Object::Noop
    }

    /// Bind `variable_name` to `new_value`, overwriting any earlier
    /// binding unconditionally.
    pub fn variable_set(&mut self, variable_name: &String, new_value: Object)
        ensures
            final(self)@ == old(self)@.insert(variable_name@, new_value),
    {
        let mut i = self.environment.len();
        while i > 0
            invariant
                i <= self.environment@.len(),
                self == old(self),
                forall|j: int|
                    i <= j < self.environment@.len() ==> (#[trigger] self.environment@[j]).0@
                        != variable_name@,
            decreases i,
        {
            i = i - 1;
            if self.environment[i].0 == *variable_name {
                let ghost entries = self.environment@;
                let entry = (variable_name.clone(), new_value);
                let ghost entry_model = entry;
                self.environment.set(i, entry);
                proof {
                    lemma_env_map_update(entries, i as int, entry_model);
                }
                return ;
            }
        }
        let ghost entries = self.environment@;
        self.environment.push((variable_name.clone(), new_value));
        proof {
            assert(self.environment@.drop_last() =~= entries);
        }
    }

    /// Install a builtin function value under `function_name`: the same
    /// unconditional binding that any `set` performs.
    pub fn register(
        &mut self,
        function_name: &String,
        argument_count: u16,
        implementation: FunctionImplementation,
    )
        ensures
            final(self)@ == old(self)@.insert(
                function_name@,
                Object::Function { argument_count, implementation },
            ),
    {
        self.variable_set(function_name, Object::Function { argument_count, implementation });
    }

    /// Demand the literal keyword `expected_name` as the next token.
    fn expect_keyword(&mut self, tokens: &mut Vec<Token>, expected_name: &str) -> (r: Result<
        (),
        ParserError,
    >)
        ensures
            final(self)@ == old(self)@,
            match (r, spec_expect_keyword(old(tokens).deep_view(), expected_name@)) {
                (Ok(u), Ok(rest)) => final(tokens).deep_view() == rest,
                (Err(e), Err(em)) => e@ == em,
                _ => false,
            },
    {
        if tokens.len() == 0 {
            return Err(keyword_error(expected_name));
        }
        let ghost toks0 = tokens.deep_view();
        let token = tokens.remove(0);
        proof {
            assert(tokens.deep_view() =~= toks0.drop_first());
            assert(token@ == toks0[0]);
        }
        match token {
            Token::Identifier(name) => {
                if text_equals(&name, expected_name) {
                    Ok(())
                } else {
                    Err(keyword_error(expected_name))
                }
            },
            _ => Err(keyword_error(expected_name)),
        }
    }

    /// Consume the literal keyword `expected_name` when it stands next.
    fn check_keyword(&mut self, tokens: &mut Vec<Token>, expected_name: &str) -> (r: bool)
        ensures
            final(self)@ == old(self)@,
            ({
                let (found, rest) = spec_check_keyword(old(tokens).deep_view(), expected_name@);
                r == found && final(tokens).deep_view() == rest
            }),
    {
        if tokens.len() == 0 {
            return false;
        }
        let found = match &tokens[0] {
            Token::Identifier(name) => text_equals(name, expected_name),
            _ => false,
        };
        if found {
            let ghost toks0 = tokens.deep_view();
            let consumed = tokens.remove(0);
            proof {
                assert(tokens.deep_view() =~= toks0.drop_first());
                assert(consumed@ == toks0[0]);
            }
            true
        } else {
            false
        }
    }

    /// Parse an ordinary identifier: look its binding up — auto-vivifying
    /// the name — and when the binding is a function, parse exactly its
    /// arity's worth of sub-expressions as arguments.
    #[verifier::loop_isolation(false)]
    fn parse_variable(&mut self, name: &String, tokens: &mut Vec<Token>) -> (r: Result<
        Expression,
        ParserError,
    >)
        ensures
            ({
                let (res, env) = spec_parse_variable(old(self)@, name@, old(tokens).deep_view());
                &&& final(self)@ == env
                &&& parse_outcome_model(r, final(tokens).deep_view()) == res
            }),
        decreases old(tokens)@.len(), 2int,
    {
        let variable_value = self.variable_get(name);
        let (argument_count, implementation) = match variable_value {
            Object::Function { argument_count, implementation } => (argument_count, implementation),
            _ => {
                return Ok(Expression::Variable(name.clone()));
            },
        };
        let ghost after_get = self@;
        let ghost toks0 = tokens.deep_view();
        let mut arguments: Vec<Expression> = Vec::new();
        let mut count: u16 = 0;
        proof {
            assert(exprs_model(arguments@) =~= Seq::<ExprModel>::empty());
        }
        while count < argument_count
            invariant
                count <= argument_count,
                tokens.deep_view().len() <= toks0.len(),
                spec_parse_arguments(
                    after_get,
                    toks0,
                    argument_count as nat,
                    argument_count,
                    name@,
                ) == ({
                    let (sres, senv) = spec_parse_arguments(
                        self@,
                        tokens.deep_view(),
                        (argument_count - count) as nat,
                        argument_count,
                        name@,
                    );
                    (
                        match sres {
                            Ok(p) => Ok::<_, ParserErrorModel>((exprs_model(arguments@) + p.0, p.1)),
                            Err(e) => Err(e),
                        },
                        senv,
                    )
                }),
            decreases argument_count - count,
        {
            if tokens.len() == 0 {
                return Err(missing_arguments_error(argument_count, name, count));
            }
            proof {
                lemma_parse_expression_consumes(self@, tokens.deep_view());
            }
            let ghost arguments_snapshot = arguments@;
            let argument = match self.parse_expression(tokens) {
                Ok(argument) => argument,
                Err(e) => {
                    return Err(e);
                },
            };
            arguments.push(argument);
            count = count + 1;
            proof {
                assert(arguments@.drop_last() =~= arguments_snapshot);
                let (sres, senv) = spec_parse_arguments(
                    self@,
                    tokens.deep_view(),
                    (argument_count - count) as nat,
                    argument_count,
                    name@,
                );
                match sres {
                    Ok(p) => {
                        assert(exprs_model(arguments_snapshot) + (seq![expr_model(argument)] + p.0)
                            =~= exprs_model(arguments@) + p.0);
                    },
                    Err(e) => {},
                }
            }
        }
        proof {
            assert(exprs_model(arguments@) + Seq::<ExprModel>::empty() =~= exprs_model(
                arguments@,
            ));
        }
        Ok(Expression::FunctionCall(implementation, arguments))
    }

    /// Parse a brace-delimited compound form: sub-expressions until the
    /// matching closing brace.
    #[verifier::loop_isolation(false)]
    fn parse_compound(&mut self, tokens: &mut Vec<Token>) -> (r: Result<Expression, ParserError>)
        ensures
            ({
                let (res, env) = spec_parse_compound(old(self)@, old(tokens).deep_view());
                &&& final(self)@ == env
                &&& parse_outcome_model(r, final(tokens).deep_view()) == res
            }),
        decreases old(tokens)@.len(), 2int,
    {
        if tokens.len() == 0 {
            return Err(ParserError::UnterminatedCompoundExpression);
        }
        let ghost env0 = self@;
        let ghost toks0 = tokens.deep_view();
        let mut expressions: Vec<Expression> = Vec::new();
        proof {
            assert(exprs_model(expressions@) =~= Seq::<ExprModel>::empty());
        }
        loop
            invariant
                tokens@.len() > 0,
                tokens.deep_view().len() <= toks0.len(),
                spec_parse_compound_items(self@, tokens.deep_view(), exprs_model(expressions@))
                    == spec_parse_compound_items(env0, toks0, Seq::empty()),
            decreases tokens@.len(),
        {
            let closing = match &tokens[0] {
                Token::Identifier(name) => text_equals(name, "}"),
                _ => false,
            };
            if closing {
                let ghost before = tokens.deep_view();
                let consumed = tokens.remove(0);
                proof {
                    assert(tokens.deep_view() =~= before.drop_first());
                    assert(consumed@ == before[0]);
                }
                return Ok(Expression::Compound(expressions));
            }
            proof {
                lemma_parse_expression_consumes(self@, tokens.deep_view());
            }
            let item = match self.parse_expression(tokens) {
                Ok(item) => item,
                Err(e) => {
                    return Err(e);
                },
            };
            let ghost expressions_snapshot = expressions@;
            expressions.push(item);
            proof {
                assert(expressions@.drop_last() =~= expressions_snapshot);
            }
            if tokens.len() == 0 {
                return Err(ParserError::UnterminatedCompoundExpression);
            }
        }
    }

    /// Parse the `identity` form: the next token taken literally, without
    /// recursive parsing — it names a binding without invoking it.
    fn parse_identity(&mut self, tokens: &mut Vec<Token>) -> (r: Result<Expression, ParserError>)
        ensures
            ({
                let (res, env) = spec_parse_identity(old(self)@, old(tokens).deep_view());
                &&& final(self)@ == env
                &&& parse_outcome_model(r, final(tokens).deep_view()) == res
            }),
    {
        if tokens.len() == 0 {
            return Err(
                ParserError::ExpectedAnExpression(
                    "`identity` must be followed by a constant or a variable name".to_owned(),
                ),
            );
        }
        let ghost toks0 = tokens.deep_view();
        let token = tokens.remove(0);
        proof {
            assert(tokens.deep_view() =~= toks0.drop_first());
            assert(token@ == toks0[0]);
        }
        match token {
            Token::Identifier(name) => {
                if text_equals(&name, "noop") {
                    Ok(Expression::Constant(Object::Noop))
                } else if text_equals(&name, "{") || text_equals(&name, "}") {
                    Err(ParserError::UnexpectedBrace)
                } else {
                    Ok(Expression::Variable(name))
                }
            },
            Token::IntegerConstant(value) => Ok(Expression::Constant(Object::Integer(value))),
            Token::FloatConstant(bits) => Ok(Expression::Constant(Object::Float(bits))),
        }
    }

    /// Parse the `set` form: a bare variable name, then one
    /// sub-expression for its new value.
    fn parse_set(&mut self, tokens: &mut Vec<Token>) -> (r: Result<Expression, ParserError>)
        ensures
            ({
                let (res, env) = spec_parse_set(old(self)@, old(tokens).deep_view());
                &&& final(self)@ == env
                &&& parse_outcome_model(r, final(tokens).deep_view()) == res
            }),
        decreases old(tokens)@.len(), 1int,
    {
        if tokens.len() == 0 {
            return Err(ParserError::ExpectedAnIdentifier(set_usage_text().to_owned()));
        }
        let ghost toks0 = tokens.deep_view();
        let closing = match &tokens[0] {
            Token::Identifier(name) => text_equals(name, "{") || text_equals(name, "}"),
            _ => false,
        };
        if closing {
            return Err(ParserError::ExpectedAnIdentifier(set_usage_text().to_owned()));
        }
        let token = tokens.remove(0);
        proof {
            assert(tokens.deep_view() =~= toks0.drop_first());
            assert(token@ == toks0[0]);
        }
        let variable_name = match token {
            Token::Identifier(name) => name,
            _ => {
                return Err(ParserError::ExpectedAnIdentifier(set_usage_text().to_owned()));
            },
        };
        if tokens.len() == 0 {
            return Err(ParserError::ExpectedAnExpression(set_usage_text().to_owned()));
        }
        let new_value = match self.parse_expression(tokens) {
            Ok(value) => value,
            Err(e) => {
                return Err(e);
            },
        };
        Ok(Expression::SetVariable(variable_name, Box::new(new_value)))
    }

    /// Parse the `if` form: a condition, the keyword `then`, a
    /// then-branch, and optionally the keyword `else` with an else-branch.
    fn parse_if(&mut self, tokens: &mut Vec<Token>) -> (r: Result<Expression, ParserError>)
        ensures
            ({
                let (res, env) = spec_parse_if(old(self)@, old(tokens).deep_view());
                &&& final(self)@ == env
                &&& parse_outcome_model(r, final(tokens).deep_view()) == res
            }),
        decreases old(tokens)@.len(), 1int,
    {
        if tokens.len() == 0 {
            return Err(
                ParserError::ExpectedAnExpression("`if` must be followed by a condition".to_owned()),
            );
        }
        proof {
            lemma_parse_expression_consumes(self@, tokens.deep_view());
        }
        let condition = match self.parse_expression(tokens) {
            Ok(condition) => condition,
            Err(e) => {
                return Err(e);
            },
        };
        match self.expect_keyword(tokens, "then") {
            Ok(u) => (),
            Err(e) => {
                return Err(e);
            },
        }
        if tokens.len() == 0 {
            return Err(
                ParserError::ExpectedAnExpression("`then` must be followed by an expression".to_owned()),
            );
        }
        proof {
            lemma_parse_expression_consumes(self@, tokens.deep_view());
        }
        let if_true = match self.parse_expression(tokens) {
            Ok(if_true) => if_true,
            Err(e) => {
                return Err(e);
            },
        };
        let otherwise = if self.check_keyword(tokens, "else") {
            if tokens.len() == 0 {
                return Err(
                    ParserError::ExpectedAnExpression(
                        "`else` must be followed by an expression".to_owned(),
                    ),
                );
            }
            proof {
                lemma_parse_expression_consumes(self@, tokens.deep_view());
            }
            match self.parse_expression(tokens) {
                Ok(otherwise) => Some(Box::new(otherwise)),
                Err(e) => {
                    return Err(e);
                },
            }
        } else {
            None
        };
        Ok(Expression::If(Box::new(condition), Box::new(if_true), otherwise))
    }

    /// Parse one expression at the head of `tokens`. The leading token
    /// decides the form; an ordinary identifier is parsed by what the
    /// environment currently binds it to.
    fn parse_expression(&mut self, tokens: &mut Vec<Token>) -> (r: Result<Expression, ParserError>)
        requires
            old(tokens)@.len() > 0,
        ensures
            ({
                let (res, env) = spec_parse_expression(old(self)@, old(tokens).deep_view());
                &&& final(self)@ == env
                &&& parse_outcome_model(r, final(tokens).deep_view()) == res
            }),
        decreases old(tokens)@.len(), 0int,
    {
        let ghost toks0 = tokens.deep_view();
        let token = tokens.remove(0);
        proof {
            assert(tokens.deep_view() =~= toks0.drop_first());
            assert(token@ == toks0[0]);
        }
        match token {
            Token::Identifier(name) => {
                if text_equals(&name, "noop") {
                    Ok(Expression::Constant(Object::Noop))
                } else if text_equals(&name, "identity") {
                    self.parse_identity(tokens)
                } else if text_equals(&name, "set") {
                    self.parse_set(tokens)
                } else if text_equals(&name, "if") {
                    self.parse_if(tokens)
                } else if text_equals(&name, "{") {
                    self.parse_compound(tokens)
                } else if text_equals(&name, "}") {
                    Err(ParserError::UnexpectedBrace)
                } else {
                    self.parse_variable(&name, tokens)
                }
            },
            Token::IntegerConstant(value) => Ok(Expression::Constant(Object::Integer(value))),
            Token::FloatConstant(bits) => Ok(Expression::Constant(Object::Float(bits))),
        }
    }

    /// Evaluate one line of input against the session's environment:
    /// tokenise it, then parse and at once evaluate top-level expressions
    /// left to right until the tokens are exhausted, keeping the last
    /// value. An empty line yields `Noop`. Whatever a failing line already
    /// bound before the failure stays bound.
    #[verifier::loop_isolation(false)]
    pub fn eval(&mut self, input: String) -> (r: Result<Object, ParserError>)
        ensures
            ({
                let (res, env) = spec_eval_input(old(self)@, input@);
                &&& final(self)@ == env
                &&& (match (r, res) {
                    (Ok(v), Ok(sv)) => v == sv,
                    (Err(e), Err(em)) => e@ == em,
                    _ => false,
                })
            }),
    {
        let ghost env0 = self@;
        let mut reader = Reader::new(input);
        let mut tokens = match reader.tokenise() {
            Ok(tokens) => tokens,
            Err(err) => {
                return Err(ParserError::ReadingFailed(err));
            },
        };
        let ghost toks0 = tokens.deep_view();
        let mut result = Object::Noop;
        while tokens.len() != 0
            invariant
                spec_eval_tokens(self@, tokens.deep_view(), result) == spec_eval_tokens(
                    env0,
                    toks0,
                    Object::Noop,
                ),
            decreases tokens@.len(),
        {
            proof {
                lemma_parse_expression_consumes(self@, tokens.deep_view());
            }
            let expression = match self.parse_expression(&mut tokens) {
                Ok(expression) => expression,
                Err(e) => {
                    return Err(e);
                },
            };
            result = expression.evaluate(self);
        }
        Ok(result)
    }

    /// Evaluate one line of input given as a string slice.
    pub fn eval_str(&mut self, input: &str) -> (r: Result<Object, ParserError>)
        ensures
            ({
                let (res, env) = spec_eval_input(old(self)@, input@);
                &&& final(self)@ == env
                &&& (match (r, res) {
                    (Ok(v), Ok(sv)) => v == sv,
                    (Err(e), Err(em)) => e@ == em,
                    _ => false,
                })
            }),
    {
        self.eval(input.to_owned())
    }
}

/// A parse outcome next to the tokens it left, as the spec parse
/// functions state it: the tokens only matter on success.
pub open spec fn parse_outcome_model(r: Result<Expression, ParserError>, rest: Seq<TokenModel>) -> Result<
    (ExprModel, Seq<TokenModel>),
    ParserErrorModel,
> {
    match r {
        Ok(e) => Ok((e@, rest)),
        Err(e) => Err(e@),
    }
}

/// The model of evaluating a whole token stream: parse one top-level
/// expression, evaluate it at once, and repeat, keeping the last value.
pub open spec fn spec_eval_tokens(
    env: Map<Seq<char>, Object>,
    toks: Seq<TokenModel>,
    last: Object,
) -> (Result<Object, ParserErrorModel>, Map<Seq<char>, Object>)
    decreases toks.len(), 3int,
{
    if toks.len() == 0 {
        (Ok(last), env)
    } else {
        let (res, env1) = spec_parse_expression(env, toks);
        match res {
            Err(e) => (Err(e), env1),
            Ok((em, rest)) => {
                let (v, env2) = spec_eval(em, env1);
                if rest.len() < toks.len() {
                    spec_eval_tokens(env2, rest, v)
                } else {
                    (Err(unreachable_parse_error()), env2)
                }
            },
        }
    }
}

/// The model of evaluating one line of text: tokenise, then evaluate the
/// token stream; a lexical failure leaves the environment untouched.
pub open spec fn spec_eval_input(env: Map<Seq<char>, Object>, s: Seq<char>) -> (
    Result<Object, ParserErrorModel>,
    Map<Seq<char>, Object>,
) {
    match crate::reader::spec_tokenise(s) {
        Err(re) => (Err(ParserErrorModel::ReadingFailed(re)), env),
        Ok(ts) => spec_eval_tokens(env, ts, Object::Noop),
    }
}

/// Only `Noop` is falsy: a conditional whose condition evaluates to any
/// other value — `Integer(0)` and `Float` zeroes included — reduces to its
/// then-branch; a `Noop` condition reduces to the else-branch, or to
/// `Noop` when there is none.
pub proof fn lemma_truthiness(
    condition: ExprModel,
    if_true: ExprModel,
    otherwise: Option<Box<ExprModel>>,
    env: Map<Seq<char>, Object>,
)
    ensures
        ({
            let (c, env1) = spec_eval(condition, env);
            let whole = spec_eval(
                ExprModel::If(Box::new(condition), Box::new(if_true), otherwise),
                env,
            );
            &&& !(c is Noop) ==> whole == spec_eval(if_true, env1)
            &&& (c is Noop && otherwise is Some) ==> whole == spec_eval(*otherwise->0, env1)
            &&& (c is Noop && otherwise is None) ==> whole == (Object::Noop, env1)
        }),
{
}

/// Parsing is directed by arity: an identifier bound to a function value
/// consumes exactly as many following sub-expressions as the arity
/// recorded in that binding, while an identifier bound to anything else
/// consumes nothing beyond itself. Rebinding a name therefore changes how
/// later uses of the same tokens parse.
pub proof fn lemma_arity_directed_parsing(
    env: Map<Seq<char>, Object>,
    name: Seq<char>,
    toks: Seq<TokenModel>,
)
    ensures
        ({
            let (looked_up, env1) = spec_env_get(env, name);
            let (res, env_out) = spec_parse_variable(env, name, toks);
            match looked_up {
                Object::Function { argument_count, implementation } => {
                    let (ares, env2) = spec_parse_arguments(
                        env1,
                        toks,
                        argument_count as nat,
                        argument_count,
                        name,
                    );
                    &&& env_out == env2
                    &&& (ares matches Ok((args, rest)) ==> res == Ok::<
                        _,
                        ParserErrorModel,
                    >((ExprModel::FunctionCall(implementation, args), rest)) && args.len()
                        == argument_count)
                    &&& (ares matches Err(e) ==> res == Err::<
                        (ExprModel, Seq<TokenModel>),
                        _,
                    >(e))
                },
                _ => res == Ok::<_, ParserErrorModel>((ExprModel::Variable(name), toks))
                    && env_out == env1,
            }
        }),
{
    let (looked_up, env1) = spec_env_get(env, name);
    match looked_up {
        Object::Function { argument_count, implementation } => {
            lemma_parse_arguments_count(env1, toks, argument_count as nat, argument_count, name);
        },
        _ => {},
    }
}

/// A successful argument parse returns exactly as many arguments as were
/// demanded.
proof fn lemma_parse_arguments_count(
    env: Map<Seq<char>, Object>,
    toks: Seq<TokenModel>,
    remaining: nat,
    total: u16,
    name: Seq<char>,
)
    ensures
        ({
            let (res, env1) = spec_parse_arguments(env, toks, remaining, total, name);
            res matches Ok((args, rest)) ==> args.len() == remaining
        }),
    decreases toks.len(), 1int,
{
    if remaining > 0 && toks.len() > 0 {
        let (res, env1) = spec_parse_expression(env, toks);
        match res {
            Err(_) => {},
            Ok((argument, rest)) => {
                if rest.len() < toks.len() {
                    lemma_parse_arguments_count(env1, rest, (remaining - 1) as nat, total, name);
                }
            },
        }
    }
}

/// Auto-vivification is idempotent: reading a never-set name binds it to
/// `Noop` and returns `Noop`, and a second read of the same name returns
/// the same value and leaves the environment exactly as it was — a read
/// never fails.
pub proof fn lemma_auto_vivification(env: Map<Seq<char>, Object>, name: Seq<char>)
    ensures
        !env.contains_key(name) ==> spec_env_get(env, name).0 == Object::Noop,
        spec_env_get(env, name).1.contains_key(name),
        ({
            let (first, env1) = spec_env_get(env, name);
            let (second, env2) = spec_env_get(env1, name);
            second == first && env2 == env1
        }),
{
}

/// A compound expression is sequencing: the empty compound yields `Noop`
/// and leaves the environment alone, and a non-empty compound yields its
/// last expression's value, evaluated in the environment the earlier
/// expressions left behind.
pub proof fn lemma_compound_sequencing(children: Seq<ExprModel>, env: Map<Seq<char>, Object>)
    ensures
        children.len() == 0 ==> spec_eval(ExprModel::Compound(children), env) == (
            Object::Noop,
            env,
        ),
        children.len() > 0 ==> spec_eval(ExprModel::Compound(children), env) == spec_eval(
            children.last(),
            spec_eval_sequence(children.drop_last(), env, Object::Noop).1,
        ),
{
    if children.len() == 0 {
        assert(spec_eval_sequence(children, env, Object::Noop) == ((Object::Noop, env)));
    } else {
        lemma_sequence_yields_last(children, env, Object::Noop);
    }
}

/// Evaluating a non-empty sequence of expressions comes down to
/// evaluating the last one in the environment the prefix left.
proof fn lemma_sequence_yields_last(
    children: Seq<ExprModel>,
    env: Map<Seq<char>, Object>,
    last: Object,
)
    requires
        children.len() > 0,
    ensures
        spec_eval_sequence(children, env, last) == spec_eval(
            children.last(),
            spec_eval_sequence(children.drop_last(), env, last).1,
        ),
    decreases children.len(),
{
    let (v0, env0) = spec_eval(children[0], env);
    if children.len() == 1 {
        assert(children.drop_first() =~= Seq::<ExprModel>::empty());
        assert(children.drop_last() =~= Seq::<ExprModel>::empty());
        assert(spec_eval_sequence(children.drop_first(), env0, v0) == ((v0, env0)));
        assert(spec_eval_sequence(children.drop_last(), env, last) == ((last, env)));
        assert(children.last() == children[0]);
    } else {
        lemma_sequence_yields_last(children.drop_first(), env0, v0);
        assert(children.drop_first().last() == children.last());
        assert(children.drop_first().drop_last() =~= children.drop_last().drop_first());
        assert(children.drop_last()[0] == children[0]);
        assert(spec_eval_sequence(children.drop_last(), env, last).1 == spec_eval_sequence(
            children.drop_last().drop_first(),
            env0,
            v0,
        ).1);
    }
}

/// Whether a string's characters are exactly those of a literal.
fn text_equals(name: &String, expected: &str) -> (r: bool)
    ensures
        r == (name@ == expected@),
{
    let expected_string = expected.to_owned();
    *name == expected_string
}

/// The usage text of the `set` form.
fn set_usage_text() -> (r: &'static str)
    ensures
        r@ == set_usage(),
{
    "`set` must be followed by a variable name and the variable's new value"
}

/// The error demanding a keyword that was not found.
fn keyword_error(expected_name: &str) -> (r: ParserError)
    ensures
        r@ == ParserErrorModel::ExpectedAnIdentifier(keyword_message(expected_name@)),
{
    let mut text = String::new();
    text.append("Keyword `");
    text.append(expected_name);
    text.append("`");
    proof {
        assert(text@ =~= keyword_message(expected_name@));
    }
    ParserError::ExpectedAnIdentifier(text)
}

/// The error reporting a call whose arguments ran out.
fn missing_arguments_error(total: u16, name: &String, got: u16) -> (r: ParserError)
    ensures
        r@ == ParserErrorModel::ExpectedAnExpression(
            missing_arguments_message(total, name@, got as nat),
        ),
{
    let mut text = String::new();
    text.append("Expected ");
    crate::reader::append_decimal(&mut text, total as u64);
    text.append(" arguments after `");
    text.append(name.as_str());
    text.append("`, got ");
    crate::reader::append_decimal(&mut text, got as u64);
    proof {
        assert(text@ =~= missing_arguments_message(total, name@, got as nat));
    }
    ParserError::ExpectedAnExpression(text)
}

} // verus!

