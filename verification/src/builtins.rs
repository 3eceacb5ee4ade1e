//! Behaviour of builtins that more than one command loop shares.
use vstd::prelude::*;
use crate::effects::{effects_view, prints, Effect, EffectView};
use crate::history::{
    append_start, file_text, history_append_start, history_file_text, list_numbered, list_tail,
    numbered_lines, tail_lines,
};
use crate::text::{from_chars, parse_usize, spec_parse_usize, str_eq, to_chars};

verus! {

/// The count that `history <n>` asks for: the number, or zero when it does
/// not parse.
pub open spec fn entries_arg(s: Seq<char>) -> nat {
    match spec_parse_usize(s) {
        Some(v) => v,
        None => 0,
    }
}

/// What `history` does, given the history `h` and the words `argv` (the
/// first being `history`): list it all, list the last `n` (or all of it
/// when `n` is larger), or read, write or
/// append a history file with `-r`, `-w`, `-a`.
pub open spec fn history_effects(h: Seq<Seq<char>>, argv: Seq<Seq<char>>) -> Seq<
    EffectView,
> {
    if argv.len() == 1 {
        prints(numbered_lines(h, 1))
    } else if argv.len() == 2 {
        let n = entries_arg(argv[1]);
        if n > h.len() {
            prints(numbered_lines(h, 1))
        } else {
            prints(tail_lines(h, n))
        }
    } else if argv.len() == 3 {
        if argv[1] == "-r"@ {
            seq![EffectView::ReadHistoryFile(argv[2])]
        } else if argv[1] == "-w"@ {
            seq![EffectView::WriteFile(argv[2], file_text(h, 0), false)]
        } else if argv[1] == "-a"@ {
            seq![EffectView::WriteFile(argv[2], file_text(h, append_start(h, argv[2]) as int), true)]
        } else {
            seq![]
        }
    } else {
        seq![]
    }
}

/// A copy of a string.
pub fn copy_string(s: &String) -> (r: String)
    ensures
        r@ == s@,
{
    from_chars(to_chars(s.as_str()).as_slice())
}

/// Printing each line.
pub fn print_all(lines: &Vec<String>) -> (r: Vec<Effect>)
    ensures
        effects_view(r@) == prints(lines.deep_view()),
{
    let mut r: Vec<Effect> = Vec::new();
    let mut i: usize = 0;
    while i < lines.len()
        invariant
            i <= lines@.len(),
            effects_view(r@) == prints(lines.deep_view()).take(i as int),
        decreases lines@.len() - i,
    {
        let ghost before = effects_view(r@);
        let s = copy_string(&lines[i]);
        r.push(Effect::Print(s));
        assert(effects_view(r@) =~= before.push(EffectView::Print(s@)));
        assert(prints(lines.deep_view()).take(i + 1) =~= prints(lines.deep_view()).take(
            i as int,
        ).push(EffectView::Print(s@)));
        i = i + 1;
    }
    assert(prints(lines.deep_view()).take(i as int) =~= prints(lines.deep_view()));
    r
}

/// The effects of `history` with the words `argv`.
pub fn history_command(history: &[String], argv: &[String]) -> (r: Vec<
    Effect,
>)
    requires
        argv@.len() >= 1,
        argv@.len() == 3 && argv@[1]@ == "-a"@ ==> history@.len() > 0,
        history@.len() + 1 <= usize::MAX,
    ensures
        effects_view(r@) == history_effects(
            history@.map_values(|s: String| s@),
            argv@.map_values(|s: String| s@),
        ),
{
    let ghost h = history@.map_values(|s: String| s@);
    let ghost a = argv@.map_values(|s: String| s@);
    assert(a.len() == argv@.len());
    if argv.len() == 1 {
        let lines = list_numbered(history, 1);
        print_all(&lines)
    } else if argv.len() == 2 {
        assert(a[1] == argv@[1]@);
        let n = match parse_usize(argv[1].as_str()) {
            Some(v) => v,
            None => 0,
        };
        if n > history.len() {
            let lines = list_numbered(history, 1);
            print_all(&lines)
        } else {
            let lines = list_tail(history, n);
            print_all(&lines)
        }
    } else if argv.len() == 3 {
        assert(a[1] == argv@[1]@);
        assert(a[2] == argv@[2]@);
        let mut r: Vec<Effect> = Vec::new();
        if str_eq(argv[1].as_str(), "-r") {
            r.push(Effect::ReadHistoryFile(copy_string(&argv[2])));
        } else if str_eq(argv[1].as_str(), "-w") {
            let text = history_file_text(history, 0);
            r.push(Effect::WriteFile { path: copy_string(&argv[2]), text, append: false });
        } else if str_eq(argv[1].as_str(), "-a") {
            let start = history_append_start(history, argv[2].as_str());
            let text = history_file_text(history, start);
            r.push(Effect::WriteFile { path: copy_string(&argv[2]), text, append: true });
        }
        assert(effects_view(r@) =~= history_effects(h, a));
        r
    } else {
        let r: Vec<Effect> = Vec::new();
        assert(effects_view(r@) =~= history_effects(h, a));
        r
    }
}

} // verus!
