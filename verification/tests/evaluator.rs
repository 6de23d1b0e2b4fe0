use rsedit_core::evaluator::{eval, Env, EvalError, LispExp, LispHost, Recording};

/// A host with no primitives.
#[derive(Clone, Copy, Debug, PartialEq)]
enum NoPrimitive {}

struct NoHost;

impl LispHost<f64, NoPrimitive> for NoHost {
    fn call_primitive(
        &mut self,
        primitive: NoPrimitive,
        _args: &[LispExp<f64, NoPrimitive>],
    ) -> Result<LispExp<f64, NoPrimitive>, EvalError> {
        match primitive {}
    }
}

type Exp = LispExp<f64, NoPrimitive>;

fn setup_env() -> (Env<f64, NoPrimitive>, Recording<f64, NoPrimitive, NoHost>) {
    (Env::new(), Recording::new(NoHost))
}

fn get_var<P: Copy>(env: &Env<f64, P>, name: &str) -> Option<LispExp<f64, P>> {
    env.get_var(name)
}

fn get_func<P: Copy>(env: &Env<f64, P>, name: &str) -> Option<LispExp<f64, P>> {
    env.get_func(name)
}

fn is_nil<P: PartialEq>(exp: &LispExp<f64, P>) -> bool {
    *exp == LispExp::List(vec![]) || *exp == LispExp::Symbol("nil".into())
}

#[test]
fn test_lisp_2_namespaces() {
    let (mut env, mut ctx) = setup_env();
    env.variables.insert("buffer".into(), LispExp::String("main.txt".into()));
    let mock_func = LispExp::List(vec![
        LispExp::Symbol("lambda".into()),
        LispExp::List(vec![]),
        LispExp::Number(42.0),
    ]);
    env.functions.insert("buffer".into(), mock_func);

    let var_eval = eval(&LispExp::Symbol("buffer".into()), &mut env, &mut ctx).unwrap();
    assert_eq!(var_eval, LispExp::String("main.txt".into()));

    let call_exp: Exp = LispExp::List(vec![LispExp::Symbol("buffer".into())]);
    let func_eval = eval(&call_exp, &mut env, &mut ctx).unwrap();
    assert_eq!(func_eval, LispExp::Number(42.0));
}

#[test]
fn test_dynamic_variable_lookup() {
    let (mut global, _ctx) = setup_env();
    global.variables.insert("x".into(), LispExp::Number(10.0));
    global.variables.insert("y".into(), LispExp::Number(20.0));

    let mut local = Env::extend(global);
    local.variables.insert("x".into(), LispExp::Number(99.0));

    assert_eq!(get_var(&local, "x"), Some(LispExp::Number(99.0)));
    assert_eq!(get_var(&local, "y"), Some(LispExp::Number(20.0)));
    assert_eq!(get_var(&local, "z"), None);
}

#[test]
fn test_dynamic_function_lookup() {
    let (mut global, _ctx) = setup_env();
    global.functions.insert("add".into(), LispExp::Symbol("built-in-add".into()));

    let local = Env::extend(global);

    assert_eq!(get_func(&local, "add"), Some(LispExp::Symbol("built-in-add".into())));
}

#[test]
fn test_elisp_nil_truthiness() {
    assert!(is_nil(&Exp::Symbol("nil".into())));
    assert!(is_nil(&Exp::List(vec![])));

    assert!(!is_nil(&Exp::Symbol("t".into())));
    assert!(!is_nil(&Exp::Number(0.0)));
    assert!(!is_nil(&Exp::String("".into())));
    assert!(!is_nil(&Exp::Vector(vec![])));
}

#[test]
fn test_eval_setq() {
    let (mut env, mut ctx) = setup_env();
    let setq_exp: Exp = LispExp::List(vec![
        LispExp::Symbol("setq".into()),
        LispExp::Symbol("a".into()),
        LispExp::Number(42.0),
    ]);

    let result = eval(&setq_exp, &mut env, &mut ctx).unwrap();

    assert_eq!(result, LispExp::Number(42.0));
    assert_eq!(env.variables.get("a"), Some(&LispExp::Number(42.0)));
}

#[test]
fn test_eval_defun() {
    let (mut env, mut ctx) = setup_env();
    let defun_exp: Exp = LispExp::List(vec![
        LispExp::Symbol("defun".into()),
        LispExp::Symbol("my-func".into()),
        LispExp::List(vec![]),
        LispExp::String("hello".into()),
    ]);

    eval(&defun_exp, &mut env, &mut ctx).unwrap();

    let stored_func = env.functions.get("my-func").expect("Function should be bound");

    if let LispExp::List(lambda_data) = stored_func {
        assert_eq!(lambda_data[0], LispExp::Symbol("lambda".into()));
        assert_eq!(lambda_data[1], LispExp::List(vec![]));
        assert_eq!(lambda_data[2], LispExp::String("hello".into()));
    } else {
        panic!("defun did not store a lambda list");
    }
}

#[test]
fn test_eval_if() {
    let (mut env, mut ctx) = setup_env();

    let if_false: Exp = LispExp::List(vec![
        LispExp::Symbol("if".into()),
        LispExp::Symbol("nil".into()),
        LispExp::Number(1.0),
        LispExp::Number(2.0),
    ]);
    assert_eq!(eval(&if_false, &mut env, &mut ctx).unwrap(), LispExp::Number(2.0));

    let if_true: Exp = LispExp::List(vec![
        LispExp::Symbol("if".into()),
        LispExp::String("truthy".into()),
        LispExp::Number(1.0),
        LispExp::Number(2.0),
    ]);
    assert_eq!(eval(&if_true, &mut env, &mut ctx).unwrap(), LispExp::Number(1.0));
}

#[test]
fn test_error_void_variable() {
    let (mut env, mut ctx) = setup_env();

    let exp: Exp = LispExp::Symbol("undefined-var".into());
    let result = eval(&exp, &mut env, &mut ctx);

    assert!(result.is_err());
    assert_eq!(result.unwrap_err(), EvalError::UnboundVariable("undefined-var".into()));
}

#[test]
fn test_error_void_function() {
    let (mut env, mut ctx) = setup_env();

    let exp: Exp = LispExp::List(vec![
        LispExp::Symbol("missing-func".into()),
        LispExp::Number(1.0),
    ]);
    let result = eval(&exp, &mut env, &mut ctx);

    assert!(result.is_err());
    assert_eq!(result.unwrap_err(), EvalError::UndefinedFunction("missing-func".into()));
}

#[test]
fn test_error_calling_variable_as_function() {
    let (mut env, mut ctx) = setup_env();

    env.variables.insert("x".into(), LispExp::Number(42.0));

    let exp: Exp = LispExp::List(vec![LispExp::Symbol("x".into())]);
    let result = eval(&exp, &mut env, &mut ctx);

    assert!(result.is_err());
    assert_eq!(result.unwrap_err(), EvalError::UndefinedFunction("x".into()));
}

#[test]
fn test_error_invalid_function_call() {
    let (mut env, mut ctx) = setup_env();

    let exp: Exp = LispExp::List(vec![
        LispExp::Number(42.0),
        LispExp::String("hello".into()),
    ]);
    let result = eval(&exp, &mut env, &mut ctx);

    assert!(result.is_err());
    assert_eq!(result.unwrap_err(), EvalError::UnvalidFunctionCall);
}

#[test]
fn test_error_setq_non_symbol() {
    let (mut env, mut ctx) = setup_env();

    let exp: Exp = LispExp::List(vec![
        LispExp::Symbol("setq".into()),
        LispExp::Number(42.0),
        LispExp::String("value".into()),
    ]);
    let result = eval(&exp, &mut env, &mut ctx);

    assert!(result.is_err());
    assert_eq!(result.unwrap_err(), EvalError::SetqSymbolRequired);
}

#[test]
fn test_error_defun_non_symbol() {
    let (mut env, mut ctx) = setup_env();

    let exp: Exp = LispExp::List(vec![
        LispExp::Symbol("defun".into()),
        LispExp::String("my-func".into()),
        LispExp::List(vec![]),
        LispExp::Number(1.0),
    ]);
    let result = eval(&exp, &mut env, &mut ctx);

    assert!(result.is_err());
    assert_eq!(result.unwrap_err(), EvalError::DefunNameMustBeASymbol);
}

#[test]
fn test_error_if_missing_condition() {
    let (mut env, mut ctx) = setup_env();

    let exp: Exp = LispExp::List(vec![LispExp::Symbol("if".into())]);
    let result = eval(&exp, &mut env, &mut ctx);

    assert!(result.is_err());
    assert_eq!(result.unwrap_err(), EvalError::IfNoConditionProvided);
}

#[test]
fn test_eval_robustness_if_missing_branches() {
    let (mut env, mut ctx) = setup_env();

    let exp: Exp = LispExp::List(vec![LispExp::Symbol("if".into()), LispExp::Symbol("t".into())]);
    let _ = eval(&exp, &mut env, &mut ctx);
}

#[test]
fn test_eval_robustness_setq_missing_value() {
    let (mut env, mut ctx) = setup_env();

    let exp: Exp = LispExp::List(vec![LispExp::Symbol("setq".into()), LispExp::Symbol("a".into())]);
    let _ = eval(&exp, &mut env, &mut ctx);
}

#[test]
fn test_eval_robustness_defun_missing_args() {
    let (mut env, mut ctx) = setup_env();

    let exp: Exp = LispExp::List(vec![
        LispExp::Symbol("defun".into()),
        LispExp::Symbol("my-func".into()),
    ]);
    let _ = eval(&exp, &mut env, &mut ctx);
}

#[test]
fn test_eval_robustness_malformed_lambda_execution() {
    let (mut env, mut ctx) = setup_env();

    let bad_lambda = LispExp::List(vec![
        LispExp::Symbol("lambda".into()),
        LispExp::List(vec![LispExp::Symbol("x".into())]),
    ]);
    env.functions.insert("broken-func".into(), bad_lambda);

    let exp: Exp = LispExp::List(vec![
        LispExp::Symbol("broken-func".into()),
        LispExp::Number(10.0),
    ]);

    let result = eval(&exp, &mut env, &mut ctx);

    assert!(result.is_err());
    assert_eq!(result.unwrap_err(), EvalError::UncorrectFunctionDefinition);
}

#[test]
fn test_eval_robustness_lambda_params_not_a_list() {
    let (mut env, mut ctx) = setup_env();

    let bad_lambda = LispExp::List(vec![
        LispExp::Symbol("lambda".into()),
        LispExp::String("x".into()),
        LispExp::Number(3.0),
    ]);
    env.functions.insert("weird-func".into(), bad_lambda);

    let exp: Exp = LispExp::List(vec![LispExp::Symbol("weird-func".into())]);

    let result = eval(&exp, &mut env, &mut ctx).unwrap();
    assert_eq!(result, LispExp::Number(3.0));
}

#[test]
fn test_eval_robustness_empty_vector_and_map() {
    let (mut env, mut ctx) = setup_env();

    let empty_vec: Exp = LispExp::Vector(vec![]);
    assert_eq!(eval(&empty_vec, &mut env, &mut ctx).unwrap(), LispExp::Vector(vec![]));
}

// A host whose primitives count how often they ran and add numbers.

#[derive(Clone, Debug, PartialEq)]
struct TestHost {
    pub state_changes: usize,
}

#[derive(Clone, Copy, Debug, PartialEq)]
enum Prim {
    Add,
    IncState,
}

type HostExp = LispExp<f64, Prim>;

fn native_increment_state(_args: &[HostExp], ctx: &mut TestHost) -> Result<HostExp, EvalError> {
    ctx.state_changes += 1;
    Ok(LispExp::Symbol("nil".into()))
}

fn native_add(args: &[HostExp], _ctx: &mut TestHost) -> Result<HostExp, EvalError> {
    let mut sum = 0.0;
    for arg in args {
        if let LispExp::Number(n) = arg {
            sum += n;
        } else {
            return Err(EvalError::WrongArgumentType {
                expected: "Number".into(),
                got: format!("{:?}", arg),
            });
        }
    }
    Ok(LispExp::Number(sum))
}

impl LispHost<f64, Prim> for TestHost {
    fn call_primitive(&mut self, primitive: Prim, args: &[HostExp]) -> Result<HostExp, EvalError> {
        match primitive {
            Prim::Add => native_add(args, self),
            Prim::IncState => native_increment_state(args, self),
        }
    }
}

fn setup_env_test() -> Env<f64, Prim> {
    let mut env = Env::new();
    env.functions.insert("+".into(), LispExp::Primitive(Prim::Add));
    env.functions.insert("inc-state".into(), LispExp::Primitive(Prim::IncState));
    env
}

#[test]
fn test_self_evaluating_primitives() {
    let mut env = setup_env_test();
    let mut ctx = Recording::new(TestHost { state_changes: 0 });

    let num: HostExp = LispExp::Number(42.5);
    assert_eq!(eval(&num, &mut env, &mut ctx).unwrap(), num);

    let s: HostExp = LispExp::String("hello".into());
    assert_eq!(eval(&s, &mut env, &mut ctx).unwrap(), s);
}

#[test]
fn test_elisp_if_truthiness() {
    let mut env = setup_env_test();
    let mut ctx = Recording::new(TestHost { state_changes: 0 });

    let make_if = |cond: HostExp| -> HostExp {
        LispExp::List(vec![
            LispExp::Symbol("if".into()),
            cond,
            LispExp::String("true_branch".into()),
            LispExp::String("false_branch".into()),
        ])
    };

    let true_res: HostExp = LispExp::String("true_branch".into());
    let false_res: HostExp = LispExp::String("false_branch".into());

    let if_nil = make_if(LispExp::Symbol("nil".into()));
    assert_eq!(eval(&if_nil, &mut env, &mut ctx).unwrap(), false_res);

    let if_empty = make_if(LispExp::List(vec![]));
    assert_eq!(eval(&if_empty, &mut env, &mut ctx).unwrap(), false_res);

    assert_eq!(eval(&make_if(LispExp::Number(0.0)), &mut env, &mut ctx).unwrap(), true_res);
    assert_eq!(eval(&make_if(LispExp::String("".into())), &mut env, &mut ctx).unwrap(), true_res);
    assert_eq!(eval(&make_if(LispExp::Symbol("t".into())), &mut env, &mut ctx).unwrap(), true_res);
}

#[test]
fn test_lisp_2_namespace_isolation() {
    let mut env = setup_env_test();
    let mut ctx = Recording::new(TestHost { state_changes: 0 });

    let setq_exp: HostExp = LispExp::List(vec![
        LispExp::Symbol("setq".into()),
        LispExp::Symbol("log".into()),
        LispExp::String("var-data".into()),
    ]);
    eval(&setq_exp, &mut env, &mut ctx).unwrap();

    let mock_lambda = LispExp::List(vec![
        LispExp::Symbol("lambda".into()),
        LispExp::List(vec![]),
        LispExp::Number(99.0),
    ]);
    env.functions.insert("log".into(), mock_lambda);

    let var_eval = eval(&LispExp::Symbol("log".into()), &mut env, &mut ctx).unwrap();
    assert_eq!(var_eval, LispExp::String("var-data".into()));

    let func_eval = eval(&LispExp::List(vec![LispExp::Symbol("log".into())]), &mut env, &mut ctx).unwrap();
    assert_eq!(func_eval, LispExp::Number(99.0));
}

#[test]
fn test_dynamic_scoping_call_stack() {
    let mut global_env = setup_env_test();
    let mut ctx = Recording::new(TestHost { state_changes: 0 });

    let get_x_def: HostExp = LispExp::List(vec![
        LispExp::Symbol("defun".into()),
        LispExp::Symbol("get-x".into()),
        LispExp::List(vec![]),
        LispExp::Symbol("x".into()),
    ]);
    eval(&get_x_def, &mut global_env, &mut ctx).unwrap();

    let mut caller_env = Env::extend(global_env);
    caller_env.variables.insert("x".into(), LispExp::Number(100.0));

    let call_exp: HostExp = LispExp::List(vec![LispExp::Symbol("get-x".into())]);
    let result = eval(&call_exp, &mut caller_env, &mut ctx).unwrap();

    assert_eq!(result, LispExp::Number(100.0));
}

#[test]
fn test_eval_setq_multiple() {
    let mut env = setup_env_test();
    let mut ctx = Recording::new(TestHost { state_changes: 0 });

    let setq_exp: HostExp = LispExp::List(vec![
        LispExp::Symbol("setq".into()),
        LispExp::Symbol("a".into()),
        LispExp::Number(1.0),
        LispExp::Symbol("b".into()),
        LispExp::List(vec![
            LispExp::Symbol("+".into()),
            LispExp::Number(1.0),
            LispExp::Number(2.0),
        ]),
    ]);

    let result = eval(&setq_exp, &mut env, &mut ctx).unwrap();

    assert_eq!(result, LispExp::Number(3.0));
    assert_eq!(env.variables.get("a").unwrap(), &LispExp::Number(1.0));
    assert_eq!(env.variables.get("b").unwrap(), &LispExp::Number(3.0));
}

#[test]
fn test_lambda_argument_binding() {
    let mut env = setup_env_test();
    let mut ctx = Recording::new(TestHost { state_changes: 0 });

    let defun_exp: HostExp = LispExp::List(vec![
        LispExp::Symbol("defun".into()),
        LispExp::Symbol("add-custom".into()),
        LispExp::List(vec![LispExp::Symbol("x".into()), LispExp::Symbol("y".into())]),
        LispExp::List(vec![
            LispExp::Symbol("+".into()),
            LispExp::Symbol("x".into()),
            LispExp::Symbol("y".into()),
        ]),
    ]);
    eval(&defun_exp, &mut env, &mut ctx).unwrap();

    let call_exp: HostExp = LispExp::List(vec![
        LispExp::Symbol("add-custom".into()),
        LispExp::Number(10.0),
        LispExp::Number(20.0),
    ]);
    println!("{:?}", call_exp);
    let result = eval(&call_exp, &mut env, &mut ctx).unwrap();

    assert_eq!(result, LispExp::Number(30.0));

    assert!(env.variables.get("x").is_none());
}

#[test]
fn test_generic_host_mutation() {
    let mut env = setup_env_test();

    let mut ctx = Recording::new(TestHost { state_changes: 0 });

    let call_mutation: HostExp = LispExp::List(vec![LispExp::Symbol("inc-state".into())]);

    eval(&call_mutation, &mut env, &mut ctx).unwrap();
    eval(&call_mutation, &mut env, &mut ctx).unwrap();
    eval(&call_mutation, &mut env, &mut ctx).unwrap();

    assert_eq!(ctx.host.state_changes, 3);
}

// Further cases.

#[test]
fn odd_setq_ends_on_a_name_and_gives_the_last_value() {
    let (mut env, mut ctx) = setup_env();
    let one: Exp = LispExp::List(vec![LispExp::Symbol("setq".into()), LispExp::Symbol("a".into())]);
    assert_eq!(eval(&one, &mut env, &mut ctx), Err(EvalError::SetqWrongNumberOfArgs(1)));
    let three: Exp = LispExp::List(vec![
        LispExp::Symbol("setq".into()),
        LispExp::Symbol("a".into()),
        LispExp::Number(5.0),
        LispExp::Symbol("b".into()),
    ]);
    assert_eq!(eval(&three, &mut env, &mut ctx), Ok(LispExp::Number(5.0)));
    assert!(env.variables.get("b").is_none());
    let none: Exp = LispExp::List(vec![LispExp::Symbol("setq".into())]);
    assert_eq!(eval(&none, &mut env, &mut ctx), Ok(LispExp::Symbol("nil".into())));
}

#[test]
fn if_gives_its_branch_unevaluated() {
    let (mut env, mut ctx) = setup_env();
    let exp: Exp = LispExp::List(vec![
        LispExp::Symbol("if".into()),
        LispExp::Symbol("t".into()),
        LispExp::Symbol("unbound".into()),
    ]);
    assert_eq!(eval(&exp, &mut env, &mut ctx), Ok(LispExp::Symbol("unbound".into())));
    let no_else: Exp = LispExp::List(vec![
        LispExp::Symbol("if".into()),
        LispExp::List(vec![]),
        LispExp::Number(1.0),
    ]);
    assert_eq!(eval(&no_else, &mut env, &mut ctx), Ok(LispExp::Symbol("nil".into())));
    let missing: Exp = LispExp::List(vec![LispExp::Symbol("if".into()), LispExp::Symbol("t".into())]);
    assert_eq!(eval(&missing, &mut env, &mut ctx), Err(EvalError::IfNoTrueBrach));
}

#[test]
fn defun_checks_its_name_then_its_parameters() {
    let (mut env, mut ctx) = setup_env();
    let short: Exp = LispExp::List(vec![LispExp::Symbol("defun".into()), LispExp::Symbol("f".into())]);
    assert_eq!(eval(&short, &mut env, &mut ctx), Err(EvalError::DefunNotCorrectExpression));
    let not_a_list: Exp = LispExp::List(vec![
        LispExp::Symbol("defun".into()),
        LispExp::Symbol("f".into()),
        LispExp::Symbol("x".into()),
        LispExp::Number(1.0),
    ]);
    assert_eq!(eval(&not_a_list, &mut env, &mut ctx), Err(EvalError::DefunParamsAreNotAList));
    let bad_param: Exp = LispExp::List(vec![
        LispExp::Symbol("defun".into()),
        LispExp::Symbol("f".into()),
        LispExp::List(vec![LispExp::Number(1.0)]),
        LispExp::Number(1.0),
    ]);
    assert_eq!(eval(&bad_param, &mut env, &mut ctx), Err(EvalError::DefunParamIsNotASymbol));
    assert!(env.functions.get("f").is_none());
    let good: Exp = LispExp::List(vec![
        LispExp::Symbol("defun".into()),
        LispExp::Symbol("f".into()),
        LispExp::List(vec![]),
        LispExp::Number(1.0),
    ]);
    assert_eq!(eval(&good, &mut env, &mut ctx), Ok(LispExp::Symbol("f".into())));
}

#[test]
fn arguments_are_evaluated_before_the_function_is_looked_up() {
    let mut env = setup_env_test();
    let mut ctx = Recording::new(TestHost { state_changes: 0 });
    // (missing (inc-state) (inc-state)): both arguments run, then the call fails.
    let exp: HostExp = LispExp::List(vec![
        LispExp::Symbol("missing".into()),
        LispExp::List(vec![LispExp::Symbol("inc-state".into())]),
        LispExp::List(vec![LispExp::Symbol("inc-state".into())]),
    ]);
    assert_eq!(eval(&exp, &mut env, &mut ctx), Err(EvalError::UndefinedFunction("missing".into())));
    assert_eq!(ctx.host.state_changes, 2);
}

#[test]
fn a_primitive_error_stops_evaluation() {
    let mut env = setup_env_test();
    let mut ctx = Recording::new(TestHost { state_changes: 0 });
    // [(+ "a") (inc-state)]: the first item fails, so the second never runs.
    let exp: HostExp = LispExp::Vector(vec![
        LispExp::List(vec![LispExp::Symbol("+".into()), LispExp::String("a".into())]),
        LispExp::List(vec![LispExp::Symbol("inc-state".into())]),
    ]);
    let result = eval(&exp, &mut env, &mut ctx);
    assert!(matches!(result, Err(EvalError::WrongArgumentType { .. })));
    assert_eq!(ctx.host.state_changes, 0);
}

#[test]
fn a_vector_gives_its_items_values() {
    let mut env = setup_env_test();
    let mut ctx = Recording::new(TestHost { state_changes: 0 });
    env.variables.insert("x".into(), LispExp::Number(4.0));
    let exp: HostExp = LispExp::Vector(vec![
        LispExp::Symbol("x".into()),
        LispExp::List(vec![LispExp::Symbol("+".into()), LispExp::Number(1.0), LispExp::Number(2.0)]),
        LispExp::String("s".into()),
    ]);
    assert_eq!(
        eval(&exp, &mut env, &mut ctx),
        Ok(LispExp::Vector(vec![LispExp::Number(4.0), LispExp::Number(3.0), LispExp::String("s".into())]))
    );
}

#[test]
fn setq_inside_a_function_does_not_reach_the_caller() {
    let mut env = setup_env_test();
    let mut ctx = Recording::new(TestHost { state_changes: 0 });
    env.variables.insert("x".into(), LispExp::Number(1.0));
    // (defun set-x () (setq x 2))
    let def: HostExp = LispExp::List(vec![
        LispExp::Symbol("defun".into()),
        LispExp::Symbol("set-x".into()),
        LispExp::List(vec![]),
        LispExp::List(vec![
            LispExp::Symbol("setq".into()),
            LispExp::Symbol("x".into()),
            LispExp::Number(2.0),
        ]),
    ]);
    eval(&def, &mut env, &mut ctx).unwrap();
    let call: HostExp = LispExp::List(vec![LispExp::Symbol("set-x".into())]);
    assert_eq!(eval(&call, &mut env, &mut ctx), Ok(LispExp::Number(2.0)));
    assert_eq!(env.variables.get("x"), Some(&LispExp::Number(1.0)));
}

#[test]
fn a_copy_is_equal_to_what_it_copies() {
    let exp: Exp = LispExp::List(vec![
        LispExp::Symbol("a".into()),
        LispExp::Vector(vec![LispExp::Number(1.5)]),
        LispExp::Dict(vec![("k".into(), LispExp::String("v".into()))]),
    ]);
    assert_eq!(exp.duplicate(), exp);
}
