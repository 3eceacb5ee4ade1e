//! The shell's state and its commands.
use vstd::prelude::*;
use crate::builtins::{copy_string, history_command, history_effects};
use crate::history::{append_history_text, history_lines};
use crate::effects::{
    echo, echo_effects, effects_view, output_of, output_view, report, report_effects,
    spec_output, Effect, EffectView, OutputFile,
};
use crate::expand::{expand_all, expand_words, visible};
use crate::parser::{
    has_no_operator, is_first_operator, parse_args, scan_redirect, spec_is_redirect_operator,
    spec_parse_args, RedirectScan,
};
use crate::store::StringMap;
use crate::text::{
    alphanumeric, append_str, copy_range, decimal, find_from, from_chars, index_of,
    is_decimal_digit, spec_alphanumeric, join, join_from, lemma_index_of, push_decimal,
    spec_contains, str_eq, to_chars, trim, spec_trim, trim_end_all, trim_end_matches,
};

verus! {

/// The words of a list of strings.
pub open spec fn words_of(v: Seq<String>) -> Seq<Seq<char>> {
    v.map_values(|s: String| s@)
}

/// The index of the first redirection operator, if there is one.
pub open spec fn first_operator(args: Seq<Seq<char>>) -> Option<int> {
    if exists|i: int| is_first_operator(args, i) {
        Some(choose|i: int| is_first_operator(args, i))
    } else {
        None
    }
}

/// There is only one first operator.
pub proof fn lemma_first_operator(args: Seq<Seq<char>>, i: int)
    requires
        is_first_operator(args, i),
    ensures
        first_operator(args) == Some(i),
{
    let j = choose|j: int| is_first_operator(args, j);
    if j < i {
        assert(!spec_is_redirect_operator(args[j]));
    } else if i < j {
        assert(!spec_is_redirect_operator(args[i]));
    }
}

/// Without an operator there is no first one.
pub proof fn lemma_no_operator(args: Seq<Seq<char>>)
    requires
        has_no_operator(args),
    ensures
        first_operator(args) is None,
{
    if exists|i: int| is_first_operator(args, i) {
        let j = choose|j: int| is_first_operator(args, j);
        assert(!spec_is_redirect_operator(args[j]));
    }
}

/// The position of the redirection in effect: the first operator, when a
/// word follows it.
pub open spec fn found_redirect(args: Seq<Seq<char>>) -> Option<int> {
    match first_operator(args) {
        Some(p) => if p + 1 < args.len() {
            Some(p)
        } else {
            None
        },
        None => None,
    }
}

/// The first operator is the last word: a syntax error is reported.
pub open spec fn missing_target(args: Seq<Seq<char>>) -> bool {
    first_operator(args) == Some(args.len() - 1)
}

/// Where the output of the command goes.
pub open spec fn redirect_target(args: Seq<Seq<char>>) -> Option<(Seq<char>, bool, bool)> {
    match found_redirect(args) {
        Some(p) => spec_output((args[p], args[p + 1], p as usize)),
        None => None,
    }
}

/// The words before the redirection.
pub open spec fn before_redirect(args: Seq<Seq<char>>) -> Seq<Seq<char>> {
    match found_redirect(args) {
        Some(p) => args.take(p),
        None => args,
    }
}

/// The command ends with a lone `&`.
pub open spec fn is_background(words: Seq<Seq<char>>) -> bool {
    words.len() > 0 && words.last() == seq!['&']
}

/// The words of the command proper: before the redirection, without `&`.
pub open spec fn command_words(args: Seq<Seq<char>>) -> Seq<Seq<char>> {
    let w = before_redirect(args);
    if is_background(w) {
        w.drop_last()
    } else {
        w
    }
}

/// The message for a redirection with no file after it.
pub open spec fn syntax_error_text() -> Seq<char> {
    "syntax error near unexpected token `newline'"@
}

/// Copies of `v[from..to]`.
pub fn copy_strings(v: &[String], from: usize, to: usize) -> (r: Vec<String>)
    requires
        from <= to <= v@.len(),
    ensures
        r.deep_view() == words_of(v@).subrange(from as int, to as int),
{
    let mut r: Vec<String> = Vec::new();
    let mut i: usize = from;
    while i < to
        invariant
            from <= i <= to <= v@.len(),
            r.deep_view() == words_of(v@).subrange(from as int, i as int),
        decreases to - i,
    {
        let ghost before = r.deep_view();
        let s = from_chars(to_chars(v[i].as_str()).as_slice());
        r.push(s);
        assert(r.deep_view() =~= before.push(s@));
        assert(words_of(v@).subrange(from as int, i + 1) =~= words_of(v@).subrange(
            from as int,
            i as int,
        ).push(v@[i as int]@));
        i = i + 1;
    }
    r
}

/// A command line split into its parts.
pub struct Prepared {
    /// The first operator had no file after it.
    pub missing_target: bool,
    /// Where output goes.
    pub output: Option<OutputFile>,
    /// The words before the redirection.
    pub words: Vec<String>,
}

/// Finds the redirection of a command and the words before it.
pub fn prepare(args: &[String]) -> (p: Prepared)
    ensures
        p.missing_target == missing_target(words_of(args@)),
        output_view(p.output) == redirect_target(words_of(args@)),
        p.words.deep_view() == before_redirect(words_of(args@)),
{
    let ghost ws = words_of(args@);
    match scan_redirect(args) {
        RedirectScan::Absent => {
            proof {
                assert(args@.map_values(|a: String| a@) == ws);
                lemma_no_operator(ws);
            }
            let words = copy_strings(args, 0, args.len());
            assert(ws.subrange(0, args@.len() as int) =~= ws);
            Prepared { missing_target: false, output: None, words }
        },
        RedirectScan::MissingTarget => {
            proof {
                assert(args@.map_values(|a: String| a@) == ws);
                lemma_first_operator(ws, args@.len() - 1);
            }
            let words = copy_strings(args, 0, args.len());
            assert(ws.subrange(0, args@.len() as int) =~= ws);
            Prepared { missing_target: true, output: None, words }
        },
        RedirectScan::Found(rd) => {
            proof {
                assert(args@.map_values(|a: String| a@) == ws);
                lemma_first_operator(ws, rd.position as int);
            }
            let output = output_of(&rd);
            let words = copy_strings(args, 0, rd.position);
            assert(ws.subrange(0, rd.position as int) =~= ws.take(rd.position as int));
            Prepared { missing_target: false, output, words }
        },
    }
}


/// A job started in the background.
#[derive(Debug, PartialEq, Eq)]
pub struct Job {
    /// Its number, counted from one.
    pub id: usize,
    /// The command line, ending with ` &`.
    pub command: String,
}

/// The state of the shell.
pub struct Shell {
    /// Every line entered, oldest first.
    pub history: Vec<String>,
    /// Completion scripts registered with `complete -C`, by command name.
    pub completions: StringMap,
    /// Background jobs not yet reaped.
    pub jobs: Vec<Job>,
    /// Variables set with `declare`.
    pub variables: StringMap,
}

/// The shell's state as plain values.
pub struct ShellView {
    pub history: Seq<Seq<char>>,
    pub completions: Map<Seq<char>, Seq<char>>,
    pub jobs: Seq<(usize, Seq<char>)>,
    pub variables: Map<Seq<char>, Seq<char>>,
}

/// The views of a list of jobs.
pub open spec fn jobs_view(jobs: Seq<Job>) -> Seq<(usize, Seq<char>)> {
    jobs.map_values(|j: Job| (j.id, j.command@))
}

impl View for Shell {
    type V = ShellView;

    open spec fn view(&self) -> ShellView {
        ShellView {
            history: self.history.deep_view(),
            completions: self.completions@,
            jobs: jobs_view(self.jobs@),
            variables: self.variables@,
        }
    }
}

/// The builtins of the shell.
pub open spec fn is_shell_builtin(w: Seq<char>) -> bool {
    ||| w == "echo"@
    ||| w == "type"@
    ||| w == "exit"@
    ||| w == "pwd"@
    ||| w == "cd"@
    ||| w == "history"@
    ||| w == "complete"@
    ||| w == "jobs"@
    ||| w == "declare"@
}

/// Whether `w` names a builtin of the shell.
pub fn shell_builtin(w: &str) -> (r: bool)
    ensures
        r == is_shell_builtin(w@),
{
    str_eq(w, "echo") || str_eq(w, "type") || str_eq(w, "exit") || str_eq(w, "pwd") || str_eq(
        w,
        "cd",
    ) || str_eq(w, "history") || str_eq(w, "complete") || str_eq(w, "jobs") || str_eq(
        w,
        "declare",
    )
}

/// What `complete` does: `-C <script> <name>` registers, `-p <name>` prints
/// the registration, `-r <name>` removes it.
pub open spec fn complete_step(st: ShellView, argv: Seq<Seq<char>>) -> (ShellView, Seq<EffectView>) {
    if argv.len() == 4 && argv[1] == "-C"@ {
        (ShellView { completions: st.completions.insert(argv[3], argv[2]), ..st }, seq![])
    } else if argv.len() == 3 && argv[1] == "-p"@ {
        let name = argv[2];
        let text = if st.completions.contains_key(name) {
            "complete -C '"@ + st.completions[name] + "' "@ + name
        } else {
            "complete: "@ + name + ": no completion specification"@
        };
        (st, seq![EffectView::Print(text)])
    } else if argv.len() == 3 && argv[1] == "-r"@ {
        (ShellView { completions: st.completions.remove(argv[2]), ..st }, seq![])
    } else {
        (st, seq![])
    }
}

/// A name that `declare` accepts: it does not start with a digit and holds
/// only alphanumeric characters and `_`.
pub open spec fn valid_identifier(name: Seq<char>) -> bool {
    &&& !(name.len() > 0 && is_decimal_digit(name[0]))
    &&& forall|i: int|
        0 <= i < name.len() ==> spec_alphanumeric(#[trigger] name[i]) || name[i] == '_'
}

/// What `declare` does: `<name>=<value>` sets a variable (the name ends at
/// the first `=`), `-p <name>` prints it.
pub open spec fn declare_step(st: ShellView, argv: Seq<Seq<char>>) -> (ShellView, Seq<EffectView>) {
    if argv.len() == 2 && spec_contains(argv[1], seq!['=']) {
        let i = index_of(argv[1], seq!['='])->0;
        let name = argv[1].take(i as int);
        let value = argv[1].skip(i + 1 as int);
        if valid_identifier(name) {
            (ShellView { variables: st.variables.insert(name, value), ..st }, seq![])
        } else {
            (st, seq![EffectView::Print("declare: `"@ + argv[1] + "': not a valid identifier"@)])
        }
    } else if argv.len() == 3 && argv[1] == "-p"@ {
        let name = argv[2];
        let text = if st.variables.contains_key(name) {
            "declare -- "@ + name + "=\""@ + st.variables[name] + "\""@
        } else {
            "declare: "@ + name + ": not found"@
        };
        (st, seq![EffectView::Print(text)])
    } else {
        (st, seq![])
    }
}

/// What the shell does with the expanded words `argv` of a command whose
/// words before expansion are `words`.
pub open spec fn shell_dispatch(
    st: ShellView,
    output: Option<(Seq<char>, bool, bool)>,
    background: bool,
    words: Seq<Seq<char>>,
    argv: Seq<Seq<char>>,
) -> (ShellView, Seq<EffectView>) {
    let cmd = argv[0];
    if argv.len() == 0 {
        (st, seq![])
    } else if cmd == "echo"@ {
        (st, echo_effects(output, join(argv.drop_first(), " "@)))
    } else if cmd == "type"@ {
        if is_shell_builtin(argv[1]) {
            (st, report_effects(output, argv[1] + " is a shell builtin"@))
        } else {
            (st, seq![EffectView::DescribeCommand(argv[1], words[1], output)])
        }
    } else if cmd == "pwd"@ {
        (st, seq![EffectView::PrintWorkingDirectory])
    } else if cmd == "cd"@ {
        (st, seq![EffectView::ChangeDirectory(argv[1])])
    } else if cmd == "history"@ {
        (st, history_effects(st.history, argv))
    } else if cmd == "complete"@ {
        complete_step(st, argv)
    } else if cmd == "jobs"@ {
        (st, seq![EffectView::ListJobs])
    } else if cmd == "declare"@ {
        declare_step(st, argv)
    } else {
        let job = if background {
            Some(join(argv, " "@) + " &"@)
        } else {
            None
        };
        (st, seq![EffectView::RunExternal(argv, output, job)])
    }
}

/// The expanded words of a command line, with `env` the environment.
pub open spec fn expanded_words(
    st: ShellView,
    env: Map<Seq<char>, Seq<char>>,
    args: Seq<Seq<char>>,
) -> Seq<Seq<char>> {
    expand_all(visible(st.variables, env), command_words(args))
}

/// The inputs on which evaluating a command line would fail: `type` or `cd`
/// has no argument, or `history -a` meets an empty history.
pub open spec fn evaluate_fails(
    st: ShellView,
    env: Map<Seq<char>, Seq<char>>,
    args: Seq<Seq<char>>,
) -> bool {
    let argv = expanded_words(st, env, args);
    &&& argv.len() > 0
    &&& {
        ||| (argv[0] == "type"@ || argv[0] == "cd"@) && argv.len() < 2
        ||| argv[0] == "history"@ && argv.len() == 3 && argv[1] == "-a"@ && st.history.len() == 0
    }
}

/// The state after a command line and what it asks to be done: a syntax
/// error for a redirection without a file, then what the command does.
pub open spec fn spec_evaluate(
    st: ShellView,
    env: Map<Seq<char>, Seq<char>>,
    args: Seq<Seq<char>>,
) -> (ShellView, Seq<EffectView>) {
    let pre = if missing_target(args) {
        seq![EffectView::Print(syntax_error_text())]
    } else {
        seq![]
    };
    let (next, effects) = shell_dispatch(
        st,
        redirect_target(args),
        is_background(before_redirect(args)),
        command_words(args),
        expanded_words(st, env, args),
    );
    (next, pre + effects)
}

/// Expansion drops words, never adds them.
pub proof fn lemma_expand_len(vars: Map<Seq<char>, Seq<char>>, words: Seq<Seq<char>>)
    ensures
        expand_all(vars, words).len() <= words.len(),
    decreases words.len(),
{
    if words.len() > 0 {
        lemma_expand_len(vars, words.drop_last());
    }
}

/// The marker of the job at index `i` of `len` jobs: `+` for the last,
/// `-` for the one before it, a space otherwise.
pub open spec fn job_marker(i: int, len: int) -> char {
    let last = if len >= 1 { len - 1 } else { 0 };
    let second = if len >= 2 { len - 2 } else { 0 };
    if i == last {
        '+'
    } else if i == second {
        '-'
    } else {
        ' '
    }
}

/// A line of `jobs`: `[id]`, the marker, the state and the command (a
/// finished job's command without its trailing ` &`).
pub open spec fn job_line(job: (usize, Seq<char>), mark: char, finished: bool) -> Seq<char> {
    "["@ + decimal(job.0 as nat) + "]"@ + seq![mark] + if finished {
        "  Done                    "@ + trim_end_all(job.1, " &"@)
    } else {
        "  Running                 "@ + job.1
    }
}

/// What `jobs` prints, given which jobs have finished.
pub open spec fn jobs_listing(jobs: Seq<(usize, Seq<char>)>, finished: Seq<bool>) -> Seq<Seq<char>> {
    Seq::new(jobs.len(), |i: int| job_line(jobs[i], job_marker(i, jobs.len() as int), finished[i]))
}

/// The lines for the finished jobs among the first `k`, as the prompt
/// reports them.
pub open spec fn done_listing(jobs: Seq<(usize, Seq<char>)>, finished: Seq<bool>, k: int) -> Seq<
    Seq<char>,
>
    decreases k,
{
    if k <= 0 {
        seq![]
    } else if finished[k - 1] {
        done_listing(jobs, finished, k - 1).push(
            job_line(jobs[k - 1], job_marker(k - 1, jobs.len() as int), true),
        )
    } else {
        done_listing(jobs, finished, k - 1)
    }
}

/// The jobs among the first `k` that are still running, in order.
pub open spec fn still_running(jobs: Seq<(usize, Seq<char>)>, running: Seq<bool>, k: int) -> Seq<
    (usize, Seq<char>),
>
    decreases k,
{
    if k <= 0 {
        seq![]
    } else if running[k - 1] {
        still_running(jobs, running, k - 1).push(jobs[k - 1])
    } else {
        still_running(jobs, running, k - 1)
    }
}

/// Whether some job has the number `n`.
pub open spec fn id_taken(jobs: Seq<(usize, Seq<char>)>, n: int) -> bool {
    exists|i: int| 0 <= i < jobs.len() && #[trigger] jobs[i].0 == n
}

/// The smallest number from `n` on that no job has, looking no further than
/// the number of jobs plus one.
pub open spec fn lowest_free_from(jobs: Seq<(usize, Seq<char>)>, n: int) -> int
    decreases jobs.len() + 1 - n,
{
    if n >= jobs.len() + 1 || !id_taken(jobs, n) {
        n
    } else {
        lowest_free_from(jobs, n + 1)
    }
}

/// The number a new background job gets: the number of jobs plus one, or,
/// when a job already has that number, the smallest number from one that
/// no job has.
pub open spec fn new_job_id(jobs: Seq<(usize, Seq<char>)>) -> int {
    if !id_taken(jobs, jobs.len() + 1 as int) {
        jobs.len() + 1 as int
    } else {
        lowest_free_from(jobs, 1)
    }
}

/// Among the numbers one to the number of jobs plus one, some number is
/// free: there are more numbers than jobs.
proof fn lemma_some_id_free(jobs: Seq<(usize, Seq<char>)>)
    ensures
        exists|m: int| 1 <= m <= jobs.len() + 1 && !id_taken(jobs, m),
{
    let ids = jobs.map_values(|j: (usize, Seq<char>)| j.0 as int);
    ids.lemma_cardinality_of_set();
    let range = vstd::set_lib::set_int_range(1, jobs.len() + 2 as int);
    vstd::set_lib::lemma_int_range(1, jobs.len() + 2 as int);
    if forall|m: int| 1 <= m <= jobs.len() + 1 ==> id_taken(jobs, m) {
        assert forall|m: int| range.contains(m) implies ids.to_set().contains(m) by {
            assert(id_taken(jobs, m));
            let i = choose|i: int| 0 <= i < jobs.len() && #[trigger] jobs[i].0 == m;
            assert(ids[i] == m);
        }
        broadcast use vstd::seq_lib::seq_to_set_is_finite;
        vstd::set_lib::lemma_len_subset(range, ids.to_set());
        assert(false);
    }
}

/// Searching from `n` gives a number at least `n`, at most the number of
/// jobs plus one, and every number it passes over is taken.
proof fn lemma_lowest_free_from(jobs: Seq<(usize, Seq<char>)>, n: int)
    requires
        n <= jobs.len() + 1,
    ensures
        n <= lowest_free_from(jobs, n) <= jobs.len() + 1,
        lowest_free_from(jobs, n) < jobs.len() + 1 ==> !id_taken(jobs, lowest_free_from(jobs, n)),
        forall|m: int| n <= m < lowest_free_from(jobs, n) ==> id_taken(jobs, m),
    decreases jobs.len() + 1 - n,
{
    if n < jobs.len() + 1 && id_taken(jobs, n) {
        lemma_lowest_free_from(jobs, n + 1);
    }
}

/// The new job number is between one and the number of jobs plus one, and
/// no job has it.
pub proof fn lemma_new_job_id(jobs: Seq<(usize, Seq<char>)>)
    ensures
        1 <= new_job_id(jobs) <= jobs.len() + 1,
        !id_taken(jobs, new_job_id(jobs)),
{
    if id_taken(jobs, jobs.len() + 1 as int) {
        lemma_lowest_free_from(jobs, 1);
        lemma_some_id_free(jobs);
        let r = lowest_free_from(jobs, 1);
        if r == jobs.len() + 1 {
            let m = choose|m: int| 1 <= m <= jobs.len() + 1 && !id_taken(jobs, m);
            assert(id_taken(jobs, m));
        }
    }
}

/// Which jobs are still running, given which have finished.
pub open spec fn unfinished(finished: Seq<bool>) -> Seq<bool> {
    finished.map_values(|b: bool| !b)
}

/// The negation of each flag.
fn negate(flags: &[bool]) -> (r: Vec<bool>)
    ensures
        r@ == unfinished(flags@),
{
    let mut r: Vec<bool> = Vec::new();
    let mut i: usize = 0;
    while i < flags.len()
        invariant
            i <= flags@.len(),
            r@ == unfinished(flags@).take(i as int),
        decreases flags@.len() - i,
    {
        r.push(!flags[i]);
        assert(unfinished(flags@).take(i + 1) =~= unfinished(flags@).take(i as int).push(!flags@[i as int]));
        i = i + 1;
    }
    assert(unfinished(flags@).take(i as int) =~= unfinished(flags@));
    r
}

/// The line printed when a job starts: `[id] pid`.
pub open spec fn job_started_text(id: usize, pid: u32) -> Seq<char> {
    "["@ + decimal(id as nat) + "] "@ + decimal(pid as nat)
}

/// The line printed when a background job starts.
pub fn job_started(id: usize, pid: u32) -> (r: String)
    ensures
        r@ == job_started_text(id, pid),
{
    let mut t: Vec<char> = Vec::new();
    append_str(&mut t, "[");
    push_decimal(&mut t, id);
    append_str(&mut t, "] ");
    push_decimal(&mut t, pid as usize);
    from_chars(t.as_slice())
}

/// What becomes of a line typed at the prompt.
#[derive(Debug, PartialEq, Eq)]
pub enum LineAction {
    /// It holds no words.
    Skip,
    /// Its first word is `exit`.
    Exit,
    /// The words to evaluate.
    Evaluate(Vec<String>),
}

/// The name part of a `declare` argument is acceptable.
fn valid_name(name: &[char]) -> (r: bool)
    ensures
        r == valid_identifier(name@),
{
    if name.len() > 0 && '0' <= name[0] && name[0] <= '9' {
        return false;
    }
    let mut i: usize = 0;
    while i < name.len()
        invariant
            i <= name@.len(),
            forall|j: int| 0 <= j < i ==> spec_alphanumeric(#[trigger] name@[j]) || name@[j] == '_',
        decreases name@.len() - i,
    {
        if !alphanumeric(name[i]) && name[i] != '_' {
            return false;
        }
        i = i + 1;
    }
    true
}

impl Shell {
    /// A shell with no history, jobs, variables or completions.
    pub fn new() -> (s: Self)
        ensures
            s@.history == Seq::<Seq<char>>::empty(),
            s@.completions == Map::<Seq<char>, Seq<char>>::empty(),
            s@.jobs == Seq::<(usize, Seq<char>)>::empty(),
            s@.variables == Map::<Seq<char>, Seq<char>>::empty(),
    {
        let s = Shell {
            history: Vec::new(),
            completions: StringMap::new(),
            jobs: Vec::new(),
            variables: StringMap::new(),
        };
        assert(s@.history =~= Seq::<Seq<char>>::empty());
        assert(s@.jobs =~= Seq::<(usize, Seq<char>)>::empty());
        s
    }

    /// `complete` with the words `argv`.
    fn complete_command(&mut self, argv: &Vec<String>) -> (r: Vec<Effect>)
        requires
            argv@.len() >= 1,
        ensures
            (final(self)@, effects_view(r@)) == complete_step(old(self)@, argv.deep_view()),
    {
        let ghost a = argv.deep_view();
        let mut r: Vec<Effect> = Vec::new();
        if argv.len() == 4 && str_eq(argv[1].as_str(), "-C") {
            self.completions.insert(copy_string(&argv[3]), copy_string(&argv[2]));
        } else if argv.len() == 3 && str_eq(argv[1].as_str(), "-p") {
            let mut text: Vec<char> = Vec::new();
            match self.completions.get(argv[2].as_str()) {
                Some(v) => {
                    append_str(&mut text, "complete -C '");
                    append_str(&mut text, v.as_str());
                    append_str(&mut text, "' ");
                    append_str(&mut text, argv[2].as_str());
                },
                None => {
                    append_str(&mut text, "complete: ");
                    append_str(&mut text, argv[2].as_str());
                    append_str(&mut text, ": no completion specification");
                },
            }
            r.push(Effect::Print(from_chars(text.as_slice())));
        } else if argv.len() == 3 && str_eq(argv[1].as_str(), "-r") {
            self.completions.remove(argv[2].as_str());
        }
        assert(effects_view(r@) =~= complete_step(old(self)@, a).1);
        r
    }

    /// `declare` with the words `argv`.
    fn declare_command(&mut self, argv: &Vec<String>) -> (r: Vec<Effect>)
        requires
            argv@.len() >= 1,
        ensures
            (final(self)@, effects_view(r@)) == declare_step(old(self)@, argv.deep_view()),
    {
        let ghost a = argv.deep_view();
        let mut r: Vec<Effect> = Vec::new();
        if argv.len() == 2 {
            let c = to_chars(argv[1].as_str());
            let eq: [char; 1] = ['='];
            assert(eq@ =~= seq!['=']);
            assert(c@.skip(0) =~= c@);
            proof {
                lemma_index_of(c@, seq!['=']);
            }
            match find_from(c.as_slice(), eq.as_slice(), 0) {
                Some(i) => {
                    let name = copy_range(c.as_slice(), 0, i);
                    let value = copy_range(c.as_slice(), i + 1, c.len());
                    assert(name@ =~= a[1].take(i as int));
                    assert(value@ =~= a[1].skip(i + 1 as int));
                    if valid_name(name.as_slice()) {
                        self.variables.insert(from_chars(name.as_slice()), from_chars(value.as_slice()));
                    } else {
                        let mut text: Vec<char> = Vec::new();
                        append_str(&mut text, "declare: `");
                        append_str(&mut text, argv[1].as_str());
                        append_str(&mut text, "': not a valid identifier");
                        r.push(Effect::Print(from_chars(text.as_slice())));
                    }
                },
                None => {},
            }
        } else if argv.len() == 3 && str_eq(argv[1].as_str(), "-p") {
            let mut text: Vec<char> = Vec::new();
            match self.variables.get(argv[2].as_str()) {
                Some(v) => {
                    append_str(&mut text, "declare -- ");
                    append_str(&mut text, argv[2].as_str());
                    append_str(&mut text, "=\"");
                    append_str(&mut text, v.as_str());
                    append_str(&mut text, "\"");
                },
                None => {
                    append_str(&mut text, "declare: ");
                    append_str(&mut text, argv[2].as_str());
                    append_str(&mut text, ": not found");
                },
            }
            r.push(Effect::Print(from_chars(text.as_slice())));
        }
        assert(effects_view(r@) =~= declare_step(old(self)@, a).1);
        r
    }

    /// What the shell does with the expanded words `argv` of a command whose
    /// words before expansion are `words`.
    fn dispatch(
        &mut self,
        output: &Option<OutputFile>,
        background: bool,
        words: &Vec<String>,
        argv: &Vec<String>,
    ) -> (r: Vec<Effect>)
        requires
            argv@.len() >= 1,
            argv@.len() <= words@.len(),
            (argv@[0]@ == "type"@ || argv@[0]@ == "cd"@) ==> argv@.len() >= 2,
            argv@[0]@ == "history"@ && argv@.len() == 3 && argv@[1]@ == "-a"@ ==> old(
                self,
            ).history@.len() > 0,
            old(self).history@.len() + 1 <= usize::MAX,
        ensures
            (final(self)@, effects_view(r@)) == shell_dispatch(
                old(self)@,
                output_view(*output),
                background,
                words.deep_view(),
                argv.deep_view(),
            ),
    {
        let ghost a = argv.deep_view();
        assert(a[0] == argv@[0]@);
        let cmd = argv[0].as_str();
        if str_eq(cmd, "echo") {
            let text = join_from(argv.as_slice(), 1, " ");
            assert(argv@.skip(1).map_values(|w: String| w@) =~= a.drop_first());
            echo(output, text)
        } else if str_eq(cmd, "type") {
            assert(a[1] == argv@[1]@);
            if shell_builtin(argv[1].as_str()) {
                let mut text: Vec<char> = Vec::new();
                append_str(&mut text, argv[1].as_str());
                append_str(&mut text, " is a shell builtin");
                report(output, text)
            } else {
                assert(words.deep_view()[1] == words@[1]@);
                let mut r: Vec<Effect> = Vec::new();
                r.push(
                    Effect::DescribeCommand {
                        shown: copy_string(&argv[1]),
                        lookup: copy_string(&words[1]),
                        output: crate::effects::copy_output(output),
                    },
                );
                assert(effects_view(r@) =~= shell_dispatch(
                    old(self)@,
                    output_view(*output),
                    background,
                    words.deep_view(),
                    a,
                ).1);
                r
            }
        } else if str_eq(cmd, "pwd") {
            let mut r: Vec<Effect> = Vec::new();
            r.push(Effect::PrintWorkingDirectory);
            assert(effects_view(r@) =~= seq![EffectView::PrintWorkingDirectory]);
            r
        } else if str_eq(cmd, "cd") {
            assert(a[1] == argv@[1]@);
            let mut r: Vec<Effect> = Vec::new();
            r.push(Effect::ChangeDirectory(copy_string(&argv[1])));
            assert(effects_view(r@) =~= seq![EffectView::ChangeDirectory(a[1])]);
            r
        } else if str_eq(cmd, "history") {
            proof {
                if a.len() == 3 {
                    assert(a[1] == argv@[1]@);
                }
            }
            assert(argv@.map_values(|s: String| s@) =~= a);
            assert(self.history@.map_values(|s: String| s@) =~= self.history.deep_view());
            history_command(self.history.as_slice(), argv.as_slice())
        } else if str_eq(cmd, "complete") {
            self.complete_command(argv)
        } else if str_eq(cmd, "jobs") {
            let mut r: Vec<Effect> = Vec::new();
            r.push(Effect::ListJobs);
            assert(effects_view(r@) =~= seq![EffectView::ListJobs]);
            r
        } else if str_eq(cmd, "declare") {
            self.declare_command(argv)
        } else {
            let job = if background {
                let mut line = join_from(argv.as_slice(), 0, " ");
                append_str(&mut line, " &");
                assert(argv@.skip(0).map_values(|w: String| w@) =~= a);
                Some(from_chars(line.as_slice()))
            } else {
                None
            };
            let mut copies: Vec<String> = Vec::new();
            let mut i: usize = 0;
            while i < argv.len()
                invariant
                    i <= argv@.len(),
                    copies.deep_view() == argv.deep_view().take(i as int),
                decreases argv@.len() - i,
            {
                let ghost before = copies.deep_view();
                let c = copy_string(&argv[i]);
                copies.push(c);
                assert(copies.deep_view() =~= before.push(c@));
                assert(argv.deep_view().take(i + 1) =~= argv.deep_view().take(i as int).push(
                    argv@[i as int]@,
                ));
                i = i + 1;
            }
            assert(argv.deep_view().take(i as int) =~= argv.deep_view());
            let mut r: Vec<Effect> = Vec::new();
            r.push(
                Effect::RunExternal {
                    argv: copies,
                    output: crate::effects::copy_output(output),
                    job,
                },
            );
            assert(effects_view(r@) =~= shell_dispatch(
                old(self)@,
                output_view(*output),
                background,
                words.deep_view(),
                a,
            ).1);
            r
        }
    }

    /// Whether `evaluate_command` can run `args`: false exactly where
    /// evaluating them fails (see `evaluate_fails`).
    pub fn can_evaluate(&self, args: &[String], env: &StringMap) -> (r: bool)
        ensures
            r == !evaluate_fails(self@, env@, words_of(args@)),
    {
        let prepared = prepare(args);
        let mut words = prepared.words;
        let ghost w0 = words.deep_view();
        let n = words.len();
        if n > 0 {
            let last = to_chars(words[n - 1].as_str());
            if last.len() == 1 && last[0] == '&' {
                assert(last@ =~= seq!['&']);
                words.pop();
                assert(words.deep_view() =~= w0.drop_last());
            } else {
                assert(w0.last() == words@[n - 1]@);
            }
        }
        assert(words@.map_values(|a: String| a@) =~= words.deep_view());
        let argv = expand_words(&self.variables, env, words.as_slice());
        if argv.len() == 0 {
            return true;
        }
        assert(argv.deep_view()[0] == argv@[0]@);
        let cmd = argv[0].as_str();
        if (str_eq(cmd, "type") || str_eq(cmd, "cd")) && argv.len() < 2 {
            return false;
        }
        if str_eq(cmd, "history") && argv.len() == 3 {
            assert(argv.deep_view()[1] == argv@[1]@);
            if str_eq(argv[1].as_str(), "-a") && self.history.len() == 0 {
                return false;
            }
        }
        true
    }

    /// Runs a command line: finds its redirection and a trailing `&`,
    /// expands variables (the shell's, else those of the environment `env`),
    /// and carries out the builtin or says what program
    /// to run; returns what remains to be done, in order.
    pub fn evaluate_command(&mut self, args: &[String], env: &StringMap) -> (r: Vec<Effect>)
        requires
            !evaluate_fails(old(self)@, env@, words_of(args@)),
            old(self)@.history.len() + 1 <= usize::MAX,
        ensures
            (final(self)@, effects_view(r@)) == spec_evaluate(old(self)@, env@, words_of(args@)),
    {
        let ghost st = self@;
        let ghost ws = words_of(args@);
        let prepared = prepare(args);
        let mut effects: Vec<Effect> = Vec::new();
        if prepared.missing_target {
            let mut text: Vec<char> = Vec::new();
            append_str(&mut text, "syntax error near unexpected token `newline'");
            effects.push(Effect::Print(from_chars(text.as_slice())));
        }
        let ghost pre = effects_view(effects@);
        assert(pre =~= (if missing_target(ws) {
            seq![EffectView::Print(syntax_error_text())]
        } else {
            seq![]
        }));
        let mut words = prepared.words;
        let ghost w0 = words.deep_view();
        let n = words.len();
        let mut background = false;
        if n > 0 {
            let last = to_chars(words[n - 1].as_str());
            assert(w0.last() == words@[n - 1]@);
            if last.len() == 1 && last[0] == '&' {
                assert(last@ =~= seq!['&']);
                words.pop();
                background = true;
                assert(words.deep_view() =~= w0.drop_last());
            } else {
                assert(last@.len() != 1 || last@ != seq!['&']);
            }
        }
        assert(background == is_background(w0));
        assert(words.deep_view() == command_words(ws));
        assert(words@.map_values(|a: String| a@) =~= words.deep_view());
        let argv = expand_words(&self.variables, env, words.as_slice());
        proof {
            lemma_expand_len(visible(st.variables, env@), words.deep_view());
            assert(argv.deep_view() == expanded_words(st, env@, ws));
            if argv@.len() >= 1 {
                assert(argv.deep_view()[0] == argv@[0]@);
            }
            if argv@.len() >= 2 {
                assert(argv.deep_view()[1] == argv@[1]@);
            }
            assert(self.history@.len() == st.history.len());
        }
        if argv.len() == 0 {
            assert(effects_view(effects@) =~= pre + Seq::<EffectView>::empty());
            return effects;
        }
        let mut rest = self.dispatch(&prepared.output, background, &words, &argv);
        let ghost restv = effects_view(rest@);
        effects.append(&mut rest);
        assert(effects_view(effects@) =~= pre + restv);
        effects
    }

    /// The line of `jobs` for the job at index `i`.
    fn job_line_at(&self, i: usize, finished: bool) -> (r: String)
        requires
            i < self.jobs@.len(),
        ensures
            r@ == job_line(self@.jobs[i as int], job_marker(i as int, self@.jobs.len() as int), finished),
    {
        let len = self.jobs.len();
        let mark = if i == len - 1 {
            '+'
        } else if len >= 2 && i == len - 2 {
            '-'
        } else {
            ' '
        };
        let mut t: Vec<char> = Vec::new();
        append_str(&mut t, "[");
        push_decimal(&mut t, self.jobs[i].id);
        append_str(&mut t, "]");
        t.push(mark);
        let ghost head = t@;
        let cmd = to_chars(self.jobs[i].command.as_str());
        if finished {
            append_str(&mut t, "  Done                    ");
            let suffix = to_chars(" &");
            let trimmed = trim_end_matches(cmd.as_slice(), suffix.as_slice());
            crate::text::extend_chars(&mut t, trimmed.as_slice());
        } else {
            append_str(&mut t, "  Running                 ");
            crate::text::extend_chars(&mut t, cmd.as_slice());
        }
        assert(self@.jobs[i as int] == (self.jobs@[i as int].id, self.jobs@[i as int].command@));
        assert(t@ =~= job_line(
            self@.jobs[i as int],
            job_marker(i as int, self@.jobs.len() as int),
            finished,
        ));
        from_chars(t.as_slice())
    }

    /// What `jobs` prints: every job, `finished[i]` telling whether job `i`
    /// has finished.
    pub fn list_jobs(&self, finished: &[bool]) -> (r: Vec<String>)
        requires
            finished@.len() == self.jobs@.len(),
        ensures
            r.deep_view() == jobs_listing(self@.jobs, finished@),
    {
        let mut r: Vec<String> = Vec::new();
        let mut i: usize = 0;
        while i < self.jobs.len()
            invariant
                i <= self.jobs@.len(),
                finished@.len() == self.jobs@.len(),
                r.deep_view() == jobs_listing(self@.jobs, finished@).take(i as int),
            decreases self.jobs@.len() - i,
        {
            let ghost before = r.deep_view();
            let line = self.job_line_at(i, finished[i]);
            r.push(line);
            assert(r.deep_view() =~= before.push(line@));
            assert(jobs_listing(self@.jobs, finished@).take(i + 1) =~= jobs_listing(
                self@.jobs,
                finished@,
            ).take(i as int).push(line@));
            i = i + 1;
        }
        assert(jobs_listing(self@.jobs, finished@).take(i as int) =~= jobs_listing(
            self@.jobs,
            finished@,
        ));
        r
    }

    /// What the prompt reports of finished jobs: `finished[i]` tells whether
    /// job `i` has finished.
    pub fn done_jobs(&self, finished: &[bool]) -> (r: Vec<String>)
        requires
            finished@.len() == self.jobs@.len(),
        ensures
            r.deep_view() == done_listing(self@.jobs, finished@, self@.jobs.len() as int),
    {
        let mut r: Vec<String> = Vec::new();
        let mut i: usize = 0;
        while i < self.jobs.len()
            invariant
                i <= self.jobs@.len(),
                finished@.len() == self.jobs@.len(),
                r.deep_view() == done_listing(self@.jobs, finished@, i as int),
            decreases self.jobs@.len() - i,
        {
            if finished[i] {
                let ghost before = r.deep_view();
                let line = self.job_line_at(i, true);
                r.push(line);
                assert(r.deep_view() =~= before.push(line@));
            }
            i = i + 1;
        }
        r
    }

    /// Keeps the jobs that are still running: `running[i]` tells whether job
    /// `i` is.
    pub fn retain_jobs(&mut self, running: &[bool])
        requires
            running@.len() == old(self).jobs@.len(),
        ensures
            final(self)@ == (ShellView {
                jobs: still_running(old(self)@.jobs, running@, running@.len() as int),
                ..old(self)@
            }),
    {
        let ghost js = self@.jobs;
        let mut kept: Vec<Job> = Vec::new();
        let mut i: usize = 0;
        while i < self.jobs.len()
            invariant
                i <= self.jobs@.len(),
                running@.len() == self.jobs@.len(),
                js == self@.jobs,
                jobs_view(kept@) == still_running(js, running@, i as int),
            decreases self.jobs@.len() - i,
        {
            if running[i] {
                let ghost before = jobs_view(kept@);
                let job = Job { id: self.jobs[i].id, command: copy_string(&self.jobs[i].command) };
                kept.push(job);
                assert(jobs_view(kept@) =~= before.push(js[i as int]));
            }
            i = i + 1;
        }
        self.jobs = kept;
        assert(self@.history == old(self)@.history);
    }

    /// Whether some job has the number `n`.
    pub fn job_id_taken(&self, n: usize) -> (r: bool)
        ensures
            r == id_taken(self@.jobs, n as int),
    {
        let mut i: usize = 0;
        while i < self.jobs.len()
            invariant
                i <= self.jobs@.len(),
                forall|k: int| 0 <= k < i ==> #[trigger] self@.jobs[k].0 != n,
            decreases self.jobs@.len() - i,
        {
            if self.jobs[i].id == n {
                assert(self@.jobs[i as int].0 == n);
                return true;
            }
            i = i + 1;
        }
        false
    }

    /// The number the next background job gets (see `new_job_id`); `None`
    /// only when the number of jobs plus one does not fit in a `usize`.
    pub fn next_job_id(&self) -> (r: Option<usize>)
        ensures
            r == (if self@.jobs.len() < usize::MAX {
                Some(new_job_id(self@.jobs) as usize)
            } else {
                None
            }),
    {
        if self.jobs.len() == usize::MAX {
            return None;
        }
        proof {
            lemma_new_job_id(self@.jobs);
        }
        let n = self.jobs.len() + 1;
        if !self.job_id_taken(n) {
            return Some(n);
        }
        let mut m: usize = 1;
        while self.job_id_taken(m)
            invariant
                1 <= m <= new_job_id(self@.jobs),
                self@.jobs.len() < usize::MAX,
                id_taken(self@.jobs, self@.jobs.len() + 1 as int),
                new_job_id(self@.jobs) == lowest_free_from(self@.jobs, m as int),
                new_job_id(self@.jobs) <= self@.jobs.len() + 1,
                !id_taken(self@.jobs, new_job_id(self@.jobs)),
            decreases new_job_id(self@.jobs) - m,
        {
            m = m + 1;
        }
        Some(m)
    }

    /// Records a job started in the background and returns its number (see
    /// `new_job_id`): the number of jobs plus one unless a job has it, so no
    /// job has it yet.
    pub fn add_job(&mut self, command: String) -> (id: usize)
        requires
            old(self)@.jobs.len() < usize::MAX,
        ensures
            id == new_job_id(old(self)@.jobs),
            !id_taken(old(self)@.jobs, id as int),
            final(self)@ == (ShellView { jobs: old(self)@.jobs.push((id, command@)), ..old(self)@ }),
    {
        let id = match self.next_job_id() {
            Some(n) => n,
            None => 0,
        };
        proof {
            lemma_new_job_id(self@.jobs);
        }
        let ghost c = command@;
        self.jobs.push(Job { id, command });
        assert(self@.jobs =~= old(self)@.jobs.push((id, c)));
        id
    }

    /// At a prompt: reports the finished jobs and keeps the others, from one
    /// reading `finished` of which jobs have finished.
    pub fn reap_jobs(&mut self, finished: &[bool]) -> (r: Vec<String>)
        requires
            finished@.len() == old(self).jobs@.len(),
        ensures
            r.deep_view() == done_listing(old(self)@.jobs, finished@, finished@.len() as int),
            final(self)@ == (ShellView {
                jobs: still_running(old(self)@.jobs, unfinished(finished@), finished@.len() as int),
                ..old(self)@
            }),
    {
        let lines = self.done_jobs(finished);
        let running = negate(finished);
        self.retain_jobs(running.as_slice());
        lines
    }

    /// `jobs`: lists every job, then keeps the unfinished ones, from one
    /// reading `finished` of which jobs have finished.
    pub fn report_jobs(&mut self, finished: &[bool]) -> (r: Vec<String>)
        requires
            finished@.len() == old(self).jobs@.len(),
        ensures
            r.deep_view() == jobs_listing(old(self)@.jobs, finished@),
            final(self)@ == (ShellView {
                jobs: still_running(old(self)@.jobs, unfinished(finished@), finished@.len() as int),
                ..old(self)@
            }),
    {
        let lines = self.list_jobs(finished);
        let running = negate(finished);
        self.retain_jobs(running.as_slice());
        lines
    }

    /// Appends the non-empty lines of a history file's text to the history.
    pub fn read_history(&mut self, text: &str)
        ensures
            final(self)@ == (ShellView {
                history: old(self)@.history + history_lines(text@),
                ..old(self)@
            }),
    {
        append_history_text(&mut self.history, text);
    }

    /// Takes a line typed at the prompt: records it, without surrounding
    /// white space, in the history, and says what to do with its words.
    pub fn accept_line(&mut self, line: &str) -> (r: LineAction)
        ensures
            final(self)@ == (ShellView {
                history: old(self)@.history.push(spec_trim(line@)),
                ..old(self)@
            }),
            match r {
                LineAction::Skip => spec_parse_args(spec_trim(line@)).len() == 0,
                LineAction::Exit => spec_parse_args(spec_trim(line@)).len() > 0 && spec_parse_args(
                    spec_trim(line@),
                )[0] == "exit"@,
                LineAction::Evaluate(args) => {
                    &&& args.deep_view() == spec_parse_args(spec_trim(line@))
                    &&& args@.len() > 0
                    &&& args.deep_view()[0] != "exit"@
                },
            },
    {
        let chars = to_chars(line);
        let trimmed = trim(chars.as_slice());
        let input = from_chars(trimmed.as_slice());
        let ghost before = self.history.deep_view();
        self.history.push(from_chars(trimmed.as_slice()));
        assert(self.history.deep_view() =~= before.push(spec_trim(line@)));
        let args = parse_args(input.as_str());
        if args.len() == 0 {
            return LineAction::Skip;
        }
        assert(args.deep_view()[0] == args@[0]@);
        if str_eq(args[0].as_str(), "exit") {
            return LineAction::Exit;
        }
        LineAction::Evaluate(args)
    }
}

} // verus!
