//! Finding the Lisp file a script name stands for, and turning its text into
//! one program.
//!
//! A file is looked for first as given; when there is none, a name with no
//! directory and no extension is looked for as `NAME.lisp` in each directory
//! of the `lisp-path` variable, in order. Reading the files is the editor's
//! business; which files to try, and what is evaluated, is decided here.
use vstd::prelude::*;
use vstd::std_specs::iter::IteratorSpec;
use crate::evaluator::{
    eval, evaluates_to, extends, halts, items_view, lemma_items_view, outcome, since, Env, ErrView,
    EvalError, LispExp, LispHost, LispView, Recording,
};
use crate::lisp::ParserError;

verus! {

/// Whether FILE can name a script: no directory separator and no extension.
pub open spec fn is_script_name(file: Seq<char>) -> bool {
    !file.contains('/') && !file.contains('\\') && !file.contains('.')
}

/// The strings among ITEMS, in order; anything else in a `lisp-path` is not
/// a directory and is passed over.
pub open spec fn path_strings<N, P>(items: Seq<LispView<N, P>>) -> Seq<Seq<char>>
    decreases items.len(),
{
    if items.len() == 0 {
        Seq::empty()
    } else {
        let rest = path_strings(items.drop_last());
        match items.last() {
            LispView::String(s) => rest.push(s),
            _ => rest,
        }
    }
}

/// The items of a `lisp-path` value, where it is a list, as a list must be
/// to hold anything: not empty.
pub open spec fn dir_list<N, P>(p: LispView<N, P>) -> Option<Seq<LispView<N, P>>> {
    match p {
        LispView::List(items) => if items.len() > 0 {
            Some(items)
        } else {
            None
        },
        _ => None,
    }
}

/// The file that stands for the script FILE in the directory DIR.
pub open spec fn candidate(dir: Seq<char>, file: Seq<char>) -> Seq<char> {
    dir + "/"@ + file + ".lisp"@
}

/// Each string, as a sequence of characters.
pub open spec fn strings_view(s: Seq<String>) -> Seq<Seq<char>> {
    s.map_values(|x: String| x@)
}

/// The complaint about a name that cannot name a script.
pub open spec fn bad_name_message(file: Seq<char>) -> Seq<char> {
    "[ERROR] eval_file "@ + file + " is not a valid script name"@
}

/// The complaint about a `lisp-path` that is not a list.
pub open spec fn bad_path_message() -> Seq<char> {
    "Variable lisp-path is not a list of paths"@
}

/// Whether S holds the character C.
fn has_char(s: &str, c: char) -> (r: bool)
    ensures
        r == s@.contains(c),
{
    broadcast use vstd::string::group_string_axioms;

    let ghost all = s@;
    let mut it = s.chars();
    let ghost mut n: int = 0;
    loop
        invariant
            all == s@,
            0 <= n <= all.len(),
            it.remaining() == all.skip(n),
            forall|i: int| 0 <= i < n ==> all[i] != c,
        decreases all.len() - n,
    {
        match it.next() {
            Some(x) => {
                assert(all.skip(n)[0] == all[n]);
                assert(all.skip(n).drop_first() =~= all.skip(n + 1));
                if x == c {
                    return true;
                }
                proof {
                    n = n + 1;
                }
            },
            None => {
                assert(all.skip(n).len() == 0);
                return false;
            },
        }
    }
}

/// The files to try, in order, for the script FILE given the value of
/// `lisp-path` (`None` when it is unbound): `DIR/FILE.lisp` for each string
/// DIR in the list.
///
/// Fails when FILE holds a `/`, a `\` or a `.`, and when `lisp-path` is bound
/// to anything but a non-empty list.
pub fn script_candidates<N: Copy, P: Copy>(file: &str, lisp_path: Option<&LispExp<N, P>>) -> (r: Result<Vec<String>, String>)
    ensures
        !is_script_name(file@) ==> (r matches Err(m) && m@ == bad_name_message(file@)),
        is_script_name(file@) && lisp_path is None ==> (r matches Ok(v) && v@.len() == 0),
        is_script_name(file@) ==> (lisp_path matches Some(p) ==> (dir_list(p@) is None ==> (
        r matches Err(m) && m@ == bad_path_message()))),
        is_script_name(file@) ==> (lisp_path matches Some(p) ==> (dir_list(p@) matches Some(items)
            ==> (r matches Ok(v) && strings_view(v@) == path_strings(items).map_values(
            |d: Seq<char>| candidate(d, file@),
        )))),
{
    if has_char(file, '/') || has_char(file, '\\') || has_char(file, '.') {
        let mut m = String::new();
        m.push_str("[ERROR] eval_file ");
        m.push_str(file);
        m.push_str(" is not a valid script name");
        return Err(m);
    }
    let dirs = match lisp_path {
        None => {
            let v: Vec<String> = Vec::new();
            assert(v@.len() == 0);
            return Ok(v);
        },
        Some(LispExp::List(items)) if items.len() > 0 => items,
        Some(other) => {
            proof {
                if let LispExp::List(items) = other {
                    lemma_items_view(items@);
                }
            }
            return Err("Variable lisp-path is not a list of paths".to_owned());
        },
    };
    proof {
        lemma_items_view(dirs@);
    }
    let mut out: Vec<String> = Vec::new();
    let mut k: usize = 0;
    assert(items_view(dirs@.take(0)) =~= Seq::<LispView<N, P>>::empty());
    assert(strings_view(out@) =~= path_strings(items_view(dirs@.take(0))).map_values(
        |d: Seq<char>| candidate(d, file@),
    ));
    while k < dirs.len()
        invariant
            k <= dirs@.len(),
            items_view(dirs@).len() == dirs@.len(),
            forall|i: int| 0 <= i < dirs@.len() ==> #[trigger] items_view(dirs@)[i] == dirs@[i]@,
            strings_view(out@) == path_strings(items_view(dirs@.take(k as int))).map_values(
                |d: Seq<char>| candidate(d, file@),
            ),
        decreases dirs@.len() - k,
    {
        let ghost before = out@;
        let ghost iv1 = items_view(dirs@.take(k + 1));
        proof {
            assert(dirs@.take(k + 1).drop_last() =~= dirs@.take(k as int));
            assert(dirs@.take(k + 1).last() == dirs@[k as int]);
            assert(iv1 == items_view(dirs@.take(k as int)).push(dirs@[k as int]@));
            assert(iv1.drop_last() =~= items_view(dirs@.take(k as int)));
            assert(iv1.last() == dirs@[k as int]@);
        }
        if let LispExp::String(dir) = &dirs[k] {
            let mut c = dir.clone();
            c.push_str("/");
            c.push_str(file);
            c.push_str(".lisp");
            out.push(c);
            proof {
                assert(strings_view(out@) =~= strings_view(before).push(candidate(dir@, file@)));
                assert(path_strings(items_view(dirs@.take(k + 1))) == path_strings(
                    items_view(dirs@.take(k as int)),
                ).push(dir@));
                assert(strings_view(out@) =~= path_strings(items_view(dirs@.take(k + 1))).map_values(
                    |d: Seq<char>| candidate(d, file@),
                ));
            }
        } else {
            proof {
                assert(path_strings(items_view(dirs@.take(k + 1))) == path_strings(
                    items_view(dirs@.take(k as int)),
                ));
            }
        }
        k = k + 1;
    }
    assert(dirs@.take(dirs@.len() as int) =~= dirs@);
    Ok(out)
}

/// The text of a script as one program: `(progn TEXT)`, so that every form
/// in it is evaluated in turn.
pub fn program_text(content: &str) -> (r: String)
    ensures
        r@ == "(progn "@ + content@ + ")"@,
{
    let mut r = String::new();
    r.push_str("(progn ");
    r.push_str(content);
    r.push_str(")");
    r
}

/// The positions, in order, of the items of a `lisp-path` list that are not
/// strings, and so name no directory.
pub open spec fn non_strings<N, P>(items: Seq<LispView<N, P>>) -> Seq<int>
    decreases items.len(),
{
    if items.len() == 0 {
        Seq::empty()
    } else {
        let rest = non_strings(items.drop_last());
        match items.last() {
            LispView::String(_) => rest,
            _ => rest.push(items.len() - 1),
        }
    }
}

/// Where, in the `lisp-path` value LISP_PATH, the entries that are not paths
/// stand, so that each can be reported: nowhere, unless it is a non-empty
/// list.
pub fn non_path_entries<N: Copy, P: Copy>(lisp_path: &LispExp<N, P>) -> (r: Vec<usize>)
    ensures
        dir_list(lisp_path@) is None ==> r@.len() == 0,
        dir_list(lisp_path@) matches Some(items) ==> r@.map_values(|i: usize| i as int) == non_strings(items),
{
    let items = match lisp_path {
        LispExp::List(items) if items.len() > 0 => items,
        other => {
            proof {
                if let LispExp::List(items) = other {
                    lemma_items_view(items@);
                }
            }
            return Vec::new();
        },
    };
    proof {
        lemma_items_view(items@);
    }
    let mut out: Vec<usize> = Vec::new();
    let mut k: usize = 0;
    assert(items_view(items@.take(0)) =~= Seq::<LispView<N, P>>::empty());
    assert(out@.map_values(|i: usize| i as int) =~= non_strings(items_view(items@.take(0))));
    while k < items.len()
        invariant
            k <= items@.len(),
            items_view(items@).len() == items@.len(),
            forall|i: int| 0 <= i < items@.len() ==> #[trigger] items_view(items@)[i] == items@[i]@,
            out@.map_values(|i: usize| i as int) == non_strings(items_view(items@.take(k as int))),
        decreases items@.len() - k,
    {
        let ghost before = out@;
        let ghost iv1 = items_view(items@.take(k + 1));
        proof {
            assert(items@.take(k + 1).drop_last() =~= items@.take(k as int));
            assert(iv1 == items_view(items@.take(k as int)).push(items@[k as int]@));
            assert(iv1.drop_last() =~= items_view(items@.take(k as int)));
            assert(iv1.last() == items@[k as int]@);
            lemma_items_view(items@.take(k + 1));
            lemma_items_view(items@.take(k as int));
        }
        let is_string = match &items[k] {
            LispExp::String(_) => true,
            _ => false,
        };
        if !is_string {
            out.push(k);
            proof {
                assert(out@.map_values(|i: usize| i as int) =~= before.map_values(|i: usize| i as int).push(k as int));
            }
        }
        k = k + 1;
    }
    assert(items@.take(items@.len() as int) =~= items@);
    out
}

/// What a script gives back for a program that evaluated to RES: its value
/// as the one item of a list, or its error.
pub open spec fn script_value<N, P>(res: Result<LispView<N, P>, ErrView>) -> Result<LispView<N, P>, ErrView> {
    match res {
        Ok(v) => Ok(LispView::List(seq![v])),
        Err(e) => Err(e),
    }
}

/// The last step of running a script: PARSED is what reading its
/// [`program_text`] gave. A text that does not read gives `nil` and
/// evaluates nothing; otherwise the program is evaluated in ENV, and its
/// value comes back as the one item of a list, or its error as the error.
pub fn run_script<N: Copy, P: Copy, H: LispHost<N, P>>(
    parsed: Result<LispExp<N, P>, ParserError>,
    env: &mut Env<N, P>,
    ctx: &mut Recording<N, P, H>,
) -> (r: Result<LispExp<N, P>, EvalError>)
    requires
        old(env).wf(),
        parsed matches Ok(e) ==> exists|f: nat| halts(f, e@, old(env)@),
    ensures
        final(env).wf(),
        extends(old(ctx).replies(), final(ctx).replies()),
        parsed is Err ==> {
            &&& r matches Ok(v) && v@ == LispView::<N, P>::Symbol("nil"@)
            &&& final(env)@ == old(env)@
            &&& final(ctx).replies() == old(ctx).replies()
        },
        parsed matches Ok(e) ==> exists|res: Result<LispView<N, P>, ErrView>|
            #[trigger] evaluates_to(e@, old(env)@, since(old(ctx).replies(), final(ctx).replies()), res, final(env)@)
                && outcome(r) == script_value(res),
{
    match parsed {
        Err(_) => {
            assert(ctx.replies().take(ctx.replies().len() as int) =~= ctx.replies());
            Ok(LispExp::Symbol("nil".to_owned()))
        },
        Ok(program) => {
            let ghost env0 = env@;
            let ghost r0 = ctx.replies();
            let value = eval(&program, env, ctx);
            let ghost res = outcome(value);
            assert(evaluates_to(program@, env0, since(r0, ctx.replies()), res, env@));
            match value {
                Ok(v) => {
                    let mut one: Vec<LispExp<N, P>> = Vec::new();
                    one.push(v);
                    proof {
                        lemma_items_view(one@);
                        assert(items_view(one@) =~= seq![one@[0]@]);
                    }
                    Ok(LispExp::List(one))
                },
                Err(e) => Err(e),
            }
        },
    }
}

} // verus!
