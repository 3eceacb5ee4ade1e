//! The first command loop's evaluator: six builtins, no variables and no
//! background jobs.
use vstd::prelude::*;
use crate::builtins::{copy_string, history_command, history_effects};
use crate::effects::{
    echo, echo_effects, effects_view, report, report_effects, Effect, EffectView, };
use crate::shell::{before_redirect, missing_target, prepare, redirect_target, syntax_error_text, words_of};
use crate::text::{append_str, from_chars, join, join_from, str_eq};

verus! {

/// The builtins of this evaluator.
pub open spec fn is_builtin(w: Seq<char>) -> bool {
    ||| w == "echo"@
    ||| w == "type"@
    ||| w == "exit"@
    ||| w == "pwd"@
    ||| w == "cd"@
    ||| w == "history"@
}

/// Whether `w` names one of this evaluator's builtins.
pub fn builtin(w: &str) -> (r: bool)
    ensures
        r == is_builtin(w@),
{
    str_eq(w, "echo") || str_eq(w, "type") || str_eq(w, "exit") || str_eq(w, "pwd") || str_eq(
        w,
        "cd",
    ) || str_eq(w, "history")
}

/// What the evaluator does with the words of a command: the builtins, or
/// running a program in the foreground.
pub open spec fn evaluator_dispatch(
    h: Seq<Seq<char>>,
    output: Option<(Seq<char>, bool, bool)>,
    words: Seq<Seq<char>>,
) -> Seq<EffectView> {
    let cmd = words[0];
    if cmd == "echo"@ {
        echo_effects(output, join(words.drop_first(), " "@))
    } else if cmd == "type"@ {
        if is_builtin(words[1]) {
            report_effects(output, words[1] + " is a shell builtin"@)
        } else {
            seq![EffectView::DescribeCommand(words[1], words[1], output)]
        }
    } else if cmd == "pwd"@ {
        seq![EffectView::PrintWorkingDirectory]
    } else if cmd == "cd"@ {
        seq![EffectView::ChangeDirectory(words[1])]
    } else if cmd == "history"@ {
        history_effects(h, words)
    } else {
        seq![EffectView::RunExternal(words, output, None)]
    }
}

/// The inputs on which the evaluator fails: no words before the redirection,
/// `type` or `cd` without an argument, or `history -a` with an empty history.
pub open spec fn evaluation_fails(h: Seq<Seq<char>>, args: Seq<Seq<char>>) -> bool {
    let w = before_redirect(args);
    ||| w.len() == 0
    ||| (w[0] == "type"@ || w[0] == "cd"@) && w.len() < 2
    ||| w[0] == "history"@ && w.len() == 3 && w[1] == "-a"@ && h.len() == 0
}

/// What evaluating a command line asks to be done.
pub open spec fn spec_evaluate_command(h: Seq<Seq<char>>, args: Seq<Seq<char>>) -> Seq<EffectView> {
    let pre = if missing_target(args) {
        seq![EffectView::Print(syntax_error_text())]
    } else {
        seq![]
    };
    pre + evaluator_dispatch(h, redirect_target(args), before_redirect(args))
}

/// Whether `evaluate_command` can run `args` against the history `history`.
pub fn can_evaluate(args: &[String], history: &[String]) -> (r: bool)
    ensures
        r == !evaluation_fails(words_of(history@), words_of(args@)),
{
    let prepared = prepare(args);
    let words = prepared.words;
    if words.len() == 0 {
        return false;
    }
    assert(words.deep_view()[0] == words@[0]@);
    let cmd = words[0].as_str();
    if (str_eq(cmd, "type") || str_eq(cmd, "cd")) && words.len() < 2 {
        return false;
    }
    if str_eq(cmd, "history") && words.len() == 3 {
        assert(words.deep_view()[1] == words@[1]@);
        if str_eq(words[1].as_str(), "-a") && history.len() == 0 {
            return false;
        }
    }
    true
}

/// Evaluates a command line against the history: finds the redirection,
/// runs a builtin or says what program to run, and returns what remains to
/// be done, in order.
pub fn evaluate_command(args: &[String], history: &[String]) -> (r: Vec<Effect>)
    requires
        !evaluation_fails(words_of(history@), words_of(args@)),
        history@.len() + 1 <= usize::MAX,
    ensures
        effects_view(r@) == spec_evaluate_command(words_of(history@), words_of(args@)),
{
    let ghost ws = words_of(args@);
    let ghost h = words_of(history@);
    let prepared = prepare(args);
    let mut effects: Vec<Effect> = Vec::new();
    if prepared.missing_target {
        let mut text: Vec<char> = Vec::new();
        append_str(&mut text, "syntax error near unexpected token `newline'");
        effects.push(Effect::Print(from_chars(text.as_slice())));
    }
    let ghost pre = effects_view(effects@);
    assert(pre =~= (if missing_target(ws) {
        seq![EffectView::Print(syntax_error_text())]
    } else {
        seq![]
    }));
    let words = prepared.words;
    let output = prepared.output;
    let ghost w = words.deep_view();
    assert(w[0] == words@[0]@);
    let cmd = words[0].as_str();
    let mut rest: Vec<Effect> = if str_eq(cmd, "echo") {
        let text = join_from(words.as_slice(), 1, " ");
        assert(words@.skip(1).map_values(|x: String| x@) =~= w.drop_first());
        echo(&output, text)
    } else if str_eq(cmd, "type") {
        assert(w[1] == words@[1]@);
        if builtin(words[1].as_str()) {
            let mut text: Vec<char> = Vec::new();
            append_str(&mut text, words[1].as_str());
            append_str(&mut text, " is a shell builtin");
            report(&output, text)
        } else {
            let mut r: Vec<Effect> = Vec::new();
            r.push(
                Effect::DescribeCommand {
                    shown: copy_string(&words[1]),
                    lookup: copy_string(&words[1]),
                    output,
                },
            );
            r
        }
    } else if str_eq(cmd, "pwd") {
        let mut r: Vec<Effect> = Vec::new();
        r.push(Effect::PrintWorkingDirectory);
        r
    } else if str_eq(cmd, "cd") {
        assert(w[1] == words@[1]@);
        let mut r: Vec<Effect> = Vec::new();
        r.push(Effect::ChangeDirectory(copy_string(&words[1])));
        r
    } else if str_eq(cmd, "history") {
        proof {
            if w.len() == 3 {
                assert(w[1] == words@[1]@);
            }
        }
        assert(words@.map_values(|s: String| s@) =~= w);
        history_command(history, words.as_slice())
    } else {
        let mut r: Vec<Effect> = Vec::new();
        r.push(Effect::RunExternal { argv: words, output, job: None });
        r
    };
    let ghost restv = effects_view(rest@);
    assert(restv =~= evaluator_dispatch(h, redirect_target(ws), w));
    effects.append(&mut rest);
    assert(effects_view(effects@) =~= pre + restv);
    effects
}

} // verus!
