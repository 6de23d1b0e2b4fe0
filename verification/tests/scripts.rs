use rsedit_core::evaluator::LispExp;
use rsedit_core::scripts::{program_text, script_candidates};

type Exp = LispExp<f64, u8>;

#[test]
fn a_script_name_is_looked_for_in_each_directory_in_order() {
    let path: Exp = LispExp::List(vec![
        LispExp::String("/a".into()),
        LispExp::Number(1.0),
        LispExp::String("/b/c".into()),
    ]);
    assert_eq!(
        script_candidates("init", Some(&path)),
        Ok(vec!["/a/init.lisp".to_string(), "/b/c/init.lisp".to_string()])
    );
    assert_eq!(script_candidates::<f64, u8>("init", None), Ok(vec![]));
}

#[test]
fn a_path_or_an_extension_is_not_a_script_name() {
    let path: Exp = LispExp::List(vec![LispExp::String("/a".into())]);
    let refused = |f: &str| format!("[ERROR] eval_file {f} is not a valid script name");
    assert_eq!(script_candidates("dir/init", Some(&path)), Err(refused("dir/init")));
    assert_eq!(script_candidates("dir\\init", Some(&path)), Err(refused("dir\\init")));
    assert_eq!(script_candidates("init.lisp", Some(&path)), Err(refused("init.lisp")));
}

#[test]
fn lisp_path_must_be_a_list() {
    let not_a_list: Exp = LispExp::String("/a".into());
    let empty: Exp = LispExp::List(vec![]);
    let msg = Err("Variable lisp-path is not a list of paths".to_string());
    assert_eq!(script_candidates("init", Some(&not_a_list)), msg);
    assert_eq!(script_candidates("init", Some(&empty)), msg);
}

#[test]
fn a_script_is_evaluated_as_one_progn() {
    assert_eq!(program_text("(setq a 1) (setq b 2)"), "(progn (setq a 1) (setq b 2))");
    assert_eq!(program_text(""), "(progn )");
}

use rsedit_core::evaluator::{Env, EvalError, LispHost, Recording};
use rsedit_core::lisp::ParserError;
use rsedit_core::scripts::{non_path_entries, run_script};

struct Count(u32);

impl LispHost<f64, u8> for Count {
    fn call_primitive(&mut self, _p: u8, _args: &[Exp]) -> Result<Exp, EvalError> {
        self.0 += 1;
        Ok(LispExp::Number(self.0 as f64))
    }
}

#[test]
fn the_entries_of_lisp_path_that_are_not_paths_are_found() {
    let path: Exp = LispExp::List(vec![
        LispExp::String("/a".into()),
        LispExp::Number(1.0),
        LispExp::String("/b".into()),
        LispExp::Symbol("x".into()),
    ]);
    assert_eq!(non_path_entries(&path), vec![1, 3]);
    assert_eq!(non_path_entries::<f64, u8>(&LispExp::String("/a".into())), Vec::<usize>::new());
}

#[test]
fn a_script_gives_its_value_as_a_one_item_list() {
    let mut env: Env<f64, u8> = Env::new();
    env.functions.insert("tick".into(), LispExp::Primitive(0));
    let mut ctx = Recording::new(Count(0));
    let program: Exp = LispExp::List(vec![LispExp::Symbol("tick".into())]);
    assert_eq!(
        run_script(Ok(program), &mut env, &mut ctx),
        Ok(LispExp::List(vec![LispExp::Number(1.0)]))
    );
    assert_eq!(ctx.host.0, 1);
    let failing: Exp = LispExp::Symbol("unbound".into());
    assert_eq!(
        run_script(Ok(failing), &mut env, &mut ctx),
        Err(EvalError::UnboundVariable("unbound".into()))
    );
}

#[test]
fn a_script_that_does_not_read_gives_nil() {
    let mut env: Env<f64, u8> = Env::new();
    let mut ctx = Recording::new(Count(0));
    assert_eq!(
        run_script(Err(ParserError::UnclosedList), &mut env, &mut ctx),
        Ok(LispExp::Symbol("nil".into()))
    );
    assert_eq!(ctx.host.0, 0);
}
