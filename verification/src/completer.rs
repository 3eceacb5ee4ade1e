//! Tab completion: command names, registered completion scripts, and file
//! names.
use vstd::prelude::*;
use crate::history::{history_lines, lines_of};
use crate::store::StringMap;
use crate::text::{
    append_str, copy_range, from_chars, is_whitespace, spec_is_whitespace, to_chars,
    trim_start_index,
};

verus! {

/// Completes what is being typed at the prompt.
pub struct LineCompleter {
    /// Completion scripts by command name, as `complete -C` registered them.
    pub registered_completions: StringMap,
}

/// A completion: what is listed and what is inserted.
#[derive(Debug, PartialEq, Eq)]
pub struct Candidate {
    pub display: String,
    pub replacement: String,
}

impl View for Candidate {
    type V = (Seq<char>, Seq<char>);

    open spec fn view(&self) -> (Seq<char>, Seq<char>) {
        (self.display@, self.replacement@)
    }
}

/// `prefix` starts `s`.
pub open spec fn has_prefix(s: Seq<char>, prefix: Seq<char>) -> bool {
    prefix.len() <= s.len() && s.take(prefix.len() as int) == prefix
}

/// The builtins offered for completion.
pub open spec fn completion_builtins() -> Seq<Seq<char>> {
    seq!["echo"@, "type"@, "exit"@, "pwd"@, "cd"@, "history"@, "complete"@, "jobs"@, "declare"@]
}

/// The first `k` commands that start with `input`, each offered as itself
/// followed by a space.
pub open spec fn matching(commands: Seq<Seq<char>>, input: Seq<char>, k: int) -> Seq<
    (Seq<char>, Seq<char>),
>
    decreases k,
{
    if k <= 0 {
        seq![]
    } else if has_prefix(commands[k - 1], input) {
        matching(commands, input, k - 1).push((commands[k - 1], commands[k - 1] + " "@))
    } else {
        matching(commands, input, k - 1)
    }
}

/// The completions for `input`, the line up to the cursor: the builtins,
/// then the programs on `PATH`, that start with it.
pub open spec fn spec_candidates(path_executables: Seq<Seq<char>>, input: Seq<char>) -> Seq<
    (Seq<char>, Seq<char>),
> {
    let commands = completion_builtins() + path_executables;
    matching(commands, input, commands.len() as int)
}

/// Whether `s` starts with `prefix`.
pub fn starts_with(s: &str, prefix: &str) -> (r: bool)
    ensures
        r == has_prefix(s@, prefix@),
{
    let a = to_chars(s);
    let b = to_chars(prefix);
    if b.len() > a.len() {
        return false;
    }
    let mut i: usize = 0;
    while i < b.len()
        invariant
            i <= b@.len() <= a@.len(),
            a@ == s@,
            b@ == prefix@,
            forall|j: int| 0 <= j < i ==> a@[j] == b@[j],
        decreases b@.len() - i,
    {
        if a[i] != b[i] {
            assert(a@.take(b@.len() as int)[i as int] != b@[i as int]);
            return false;
        }
        i = i + 1;
    }
    assert(a@.take(b@.len() as int) =~= b@);
    true
}

impl LineCompleter {
    /// A completer with no completion scripts.
    pub fn new() -> (c: Self)
        ensures
            c.registered_completions@ == Map::<Seq<char>, Seq<char>>::empty(),
    {
        LineCompleter { registered_completions: StringMap::new() }
    }

    /// Completes `input`, the line up to the cursor, against the builtins
    /// and `path_executables`: the completions replace the line from its
    /// start (position 0).
    pub fn complete(&self, path_executables: &[String], input: &str) -> (r: (usize, Vec<Candidate>))
        ensures
            r.0 == 0,
            r.1@.map_values(|c: Candidate| c@) == spec_candidates(
                path_executables@.map_values(|s: String| s@),
                input@,
            ),
    {
        let mut commands: Vec<String> = Vec::new();
        commands.push(String::from_str("echo"));
        commands.push(String::from_str("type"));
        commands.push(String::from_str("exit"));
        commands.push(String::from_str("pwd"));
        commands.push(String::from_str("cd"));
        commands.push(String::from_str("history"));
        commands.push(String::from_str("complete"));
        commands.push(String::from_str("jobs"));
        commands.push(String::from_str("declare"));
        let ghost b = commands@.map_values(|s: String| s@);
        assert(b =~= completion_builtins());
        let mut i: usize = 0;
        while i < path_executables.len()
            invariant
                i <= path_executables@.len(),
                commands@.map_values(|s: String| s@) == completion_builtins()
                    + path_executables@.map_values(|s: String| s@).take(i as int),
            decreases path_executables@.len() - i,
        {
            let ghost before = commands@.map_values(|s: String| s@);
            let c = String::from_str(path_executables[i].as_str());
            commands.push(c);
            assert(commands@.map_values(|s: String| s@) =~= before.push(path_executables@[i as int]@));
            assert(path_executables@.map_values(|s: String| s@).take(i + 1) =~= path_executables@.map_values(
                |s: String| s@,
            ).take(i as int).push(path_executables@[i as int]@));
            assert(commands@.map_values(|s: String| s@) =~= completion_builtins()
                + path_executables@.map_values(|s: String| s@).take(i + 1));
            i = i + 1;
        }
        assert(path_executables@.map_values(|s: String| s@).take(i as int) =~= path_executables@.map_values(
            |s: String| s@,
        ));
        let ghost cs = commands@.map_values(|s: String| s@);
        let mut out: Vec<Candidate> = Vec::new();
        let mut k: usize = 0;
        while k < commands.len()
            invariant
                k <= commands@.len(),
                cs == commands@.map_values(|s: String| s@),
                out@.map_values(|c: Candidate| c@) == matching(cs, input@, k as int),
            decreases commands@.len() - k,
        {
            assert(cs[k as int] == commands@[k as int]@);
            if starts_with(commands[k].as_str(), input) {
                let ghost before = out@.map_values(|c: Candidate| c@);
                let display = String::from_str(commands[k].as_str());
                let mut rep: Vec<char> = to_chars(commands[k].as_str());
                append_str(&mut rep, " ");
                let replacement = from_chars(rep.as_slice());
                out.push(Candidate { display, replacement });
                assert(out@.map_values(|c: Candidate| c@) =~= before.push(
                    (cs[k as int], cs[k as int] + " "@),
                ));
            }
            k = k + 1;
        }
        (0, out)
    }
}


/// The text after the last white-space character (all of `s` without one).
pub open spec fn last_word(s: Seq<char>) -> Seq<char>
    decreases s.len(),
{
    if s.len() == 0 {
        seq![]
    } else if spec_is_whitespace(s.last()) {
        seq![]
    } else {
        last_word(s.drop_last()).push(s.last())
    }
}

/// `s` without trailing white space.
pub open spec fn trim_end_ws(s: Seq<char>) -> Seq<char>
    decreases s.len(),
{
    if s.len() == 0 {
        s
    } else if spec_is_whitespace(s.last()) {
        trim_end_ws(s.drop_last())
    } else {
        s
    }
}

/// The text before the first white-space character.
pub open spec fn first_word(s: Seq<char>) -> Seq<char>
    decreases s.len(),
{
    if s.len() == 0 {
        seq![]
    } else if spec_is_whitespace(s[0]) {
        seq![]
    } else {
        seq![s[0]] + first_word(s.drop_first())
    }
}

/// A path up to and including its last `/` (nothing without one).
pub open spec fn dir_part(w: Seq<char>) -> Seq<char>
    decreases w.len(),
{
    if w.len() == 0 {
        seq![]
    } else if w.last() == '/' {
        w
    } else {
        dir_part(w.drop_last())
    }
}

/// How to complete the text before the cursor.
#[derive(Debug, PartialEq, Eq)]
pub enum CompletionPlan {
    /// The first word is being typed: complete a command name (see `complete`).
    Commands,
    /// The command has a registered script: run `script` with the command,
    /// the word being completed and the word before it; each line it prints
    /// is a completion (see `script_candidates`).
    Script { script: String, command: String, word: String, previous: String },
    /// Complete a file name: list `directory` (the current one when empty)
    /// and offer the entries that start with `prefix` (see `file_candidates`);
    /// the completion replaces `word`.
    Files { directory: String, prefix: String, word: String },
}

/// A completion plan as plain values.
pub enum PlanView {
    Commands,
    Script(Seq<char>, Seq<char>, Seq<char>, Seq<char>),
    Files(Seq<char>, Seq<char>, Seq<char>),
}

impl View for CompletionPlan {
    type V = PlanView;

    open spec fn view(&self) -> PlanView {
        match self {
            CompletionPlan::Commands => PlanView::Commands,
            CompletionPlan::Script { script, command, word, previous } => PlanView::Script(
                script@,
                command@,
                word@,
                previous@,
            ),
            CompletionPlan::Files { directory, prefix, word } => PlanView::Files(
                directory@,
                prefix@,
                word@,
            ),
        }
    }
}

/// The plan for completing `input`, the text before the cursor, with the
/// completion scripts `scripts`: a command name while the first word is
/// typed; else the script registered for the first word, or a file name.
pub open spec fn spec_plan(scripts: Map<Seq<char>, Seq<char>>, input: Seq<char>) -> PlanView {
    let t = input.skip(trim_start_index(input));
    if first_word(t) == t {
        PlanView::Commands
    } else {
        let word = last_word(input);
        let before = input.take(input.len() - word.len());
        let previous = last_word(trim_end_ws(before));
        let command = first_word(t);
        if scripts.contains_key(command) {
            PlanView::Script(scripts[command], command, word, previous)
        } else {
            let dir = dir_part(word);
            PlanView::Files(dir, word.skip(dir.len() as int), word)
        }
    }
}

/// The last word is a suffix without white space, after white space or at
/// the start.
pub proof fn lemma_last_word_len(s: Seq<char>)
    ensures
        last_word(s).len() <= s.len(),
        last_word(s) == s.skip(s.len() - last_word(s).len()),
        forall|i: int| 0 <= i < last_word(s).len() ==> !spec_is_whitespace(#[trigger] last_word(s)[i]),
        last_word(s).len() < s.len() ==> spec_is_whitespace(s[s.len() - last_word(s).len() - 1]),
    decreases s.len(),
{
    if s.len() > 0 && !spec_is_whitespace(s.last()) {
        lemma_last_word_len(s.drop_last());
        let w = last_word(s.drop_last());
        assert(w.push(s.last()) =~= s.skip(s.len() - w.len() - 1));
        assert forall|i: int| 0 <= i < w.push(s.last()).len() implies !spec_is_whitespace(
            #[trigger] w.push(s.last())[i],
        ) by {
            if i < w.len() {
                assert(w.push(s.last())[i] == w[i]);
            }
        }
        if w.len() + 1 < s.len() {
            assert(s.drop_last()[s.len() - 1 - w.len() - 1] == s[s.len() - w.len() - 2]);
        }
    } else if s.len() > 0 {
        assert(s.skip(s.len() as int) =~= Seq::<char>::empty());
    } else {
        assert(s.skip(0) =~= s);
    }
}

/// The text after the last white-space character of `s`.
fn last_word_of(s: &[char]) -> (r: Vec<char>)
    ensures
        r@ == last_word(s@),
{
    let n = s.len();
    let mut j: usize = n;
    assert(s@.subrange(n as int, n as int) =~= Seq::<char>::empty());
    assert(s@.take(n as int) =~= s@);
    assert(last_word(s@) =~= last_word(s@.take(n as int)) + s@.subrange(n as int, n as int));
    while j > 0 && !is_whitespace(s[j - 1])
        invariant
            j <= n,
            n == s@.len(),
            last_word(s@) == last_word(s@.take(j as int)) + s@.subrange(j as int, n as int),
        decreases j,
    {
        let ghost t = s@.take(j as int);
        assert(t.drop_last() =~= s@.take(j - 1));
        assert(last_word(s@.take(j - 1)).push(s@[j - 1]) + s@.subrange(j as int, n as int)
            =~= last_word(s@.take(j - 1)) + s@.subrange(j - 1, n as int));
        j = j - 1;
    }
    assert(last_word(s@.take(j as int)) =~= Seq::<char>::empty());
    assert(Seq::<char>::empty() + s@.subrange(j as int, n as int) =~= s@.subrange(j as int, n as int));
    copy_range(s, j, n)
}

/// `s` without trailing white space.
fn trim_end_of(s: &[char]) -> (r: Vec<char>)
    ensures
        r@ == trim_end_ws(s@),
{
    let mut j: usize = s.len();
    assert(s@.take(j as int) =~= s@);
    while j > 0 && is_whitespace(s[j - 1])
        invariant
            j <= s@.len(),
            trim_end_ws(s@) == trim_end_ws(s@.take(j as int)),
        decreases j,
    {
        assert(s@.take(j as int).drop_last() =~= s@.take(j - 1));
        j = j - 1;
    }
    assert(s@.subrange(0, j as int) =~= s@.take(j as int));
    copy_range(s, 0, j)
}

/// The text of `s[from..]` before its first white-space character.
fn first_word_of(s: &[char], from: usize) -> (r: Vec<char>)
    requires
        from <= s@.len(),
    ensures
        r@ == first_word(s@.skip(from as int)),
{
    let n = s.len();
    let mut k: usize = from;
    assert(s@.subrange(from as int, from as int) =~= Seq::<char>::empty());
    assert(s@.skip(from as int) =~= s@.subrange(from as int, from as int) + s@.skip(from as int));
    while k < n && !is_whitespace(s[k])
        invariant
            from <= k <= n,
            n == s@.len(),
            first_word(s@.skip(from as int)) == s@.subrange(from as int, k as int) + first_word(
                s@.skip(k as int),
            ),
        decreases n - k,
    {
        assert(s@.skip(k as int).drop_first() =~= s@.skip(k + 1));
        assert(s@.skip(k as int)[0] == s@[k as int]);
        assert(s@.subrange(from as int, k as int) + (seq![s@[k as int]] + first_word(s@.skip(k + 1)))
            =~= s@.subrange(from as int, k + 1) + first_word(s@.skip(k + 1)));
        k = k + 1;
    }
    if k < n {
        assert(s@.skip(k as int)[0] == s@[k as int]);
    } else {
        assert(s@.skip(k as int) =~= Seq::<char>::empty());
    }
    assert(s@.subrange(from as int, k as int) + Seq::<char>::empty() =~= s@.subrange(
        from as int,
        k as int,
    ));
    copy_range(s, from, k)
}

/// A path up to and including its last `/`.
fn dir_part_of(w: &[char]) -> (r: Vec<char>)
    ensures
        r@ == dir_part(w@),
{
    let mut j: usize = w.len();
    assert(w@.take(j as int) =~= w@);
    while j > 0 && w[j - 1] != '/'
        invariant
            j <= w@.len(),
            dir_part(w@) == dir_part(w@.take(j as int)),
        decreases j,
    {
        assert(w@.take(j as int).drop_last() =~= w@.take(j - 1));
        j = j - 1;
    }
    assert(w@.subrange(0, j as int) =~= w@.take(j as int));
    copy_range(w, 0, j)
}

/// The first word is all of the text.
proof fn lemma_first_word_prefix(t: Seq<char>)
    ensures
        first_word(t).len() <= t.len(),
        first_word(t) == t.take(first_word(t).len() as int),
    decreases t.len(),
{
    if t.len() > 0 && !spec_is_whitespace(t[0]) {
        lemma_first_word_prefix(t.drop_first());
        assert(seq![t[0]] + first_word(t.drop_first()) =~= t.take(first_word(t).len() as int));
    } else {
        assert(t.take(0) =~= Seq::<char>::empty());
    }
}

impl LineCompleter {
    /// How to complete `input`, the text before the cursor.
    pub fn plan(&self, input: &str) -> (p: CompletionPlan)
        ensures
            p@ == spec_plan(self.registered_completions@, input@),
    {
        let s = to_chars(input);
        let n = s.len();
        let mut lead: usize = 0;
        assert(s@.skip(0) =~= s@);
        while lead < n && is_whitespace(s[lead])
            invariant
                lead <= n,
                n == s@.len(),
                trim_start_index(s@) == lead + trim_start_index(s@.skip(lead as int)),
            decreases n - lead,
        {
            assert(s@.skip(lead as int).drop_first() =~= s@.skip(lead + 1));
            lead = lead + 1;
        }
        assert(trim_start_index(s@) == lead);
        let first = first_word_of(s.as_slice(), lead);
        proof {
            lemma_first_word_prefix(s@.skip(lead as int));
        }
        if first.len() == n - lead {
            assert(first@ =~= s@.skip(lead as int));
            return CompletionPlan::Commands;
        }
        let word = last_word_of(s.as_slice());
        proof {
            lemma_last_word_len(s@);
        }
        let before = copy_range(s.as_slice(), 0, n - word.len());
        assert(before@ =~= s@.take(n - word@.len()));
        let trimmed = trim_end_of(before.as_slice());
        let previous = last_word_of(trimmed.as_slice());
        let command = from_chars(first.as_slice());
        match self.registered_completions.get(command.as_str()) {
            Some(script) => CompletionPlan::Script {
                script: from_chars(to_chars(script.as_str()).as_slice()),
                command,
                word: from_chars(word.as_slice()),
                previous: from_chars(previous.as_slice()),
            },
            None => {
                let dir = dir_part_of(word.as_slice());
                proof {
                    lemma_dir_part_prefix(word@);
                }
                let prefix = copy_range(word.as_slice(), dir.len(), word.len());
                assert(prefix@ =~= word@.skip(dir@.len() as int));
                CompletionPlan::Files {
                    directory: from_chars(dir.as_slice()),
                    prefix: from_chars(prefix.as_slice()),
                    word: from_chars(word.as_slice()),
                }
            },
        }
    }
}

/// The directory part is a prefix.
proof fn lemma_dir_part_prefix(w: Seq<char>)
    ensures
        dir_part(w).len() <= w.len(),
    decreases w.len(),
{
    if w.len() > 0 && w.last() != '/' {
        lemma_dir_part_prefix(w.drop_last());
    }
}

/// The completions a script prints: each non-empty line, inserted with a
/// space after it.
pub open spec fn spec_script_candidates(output: Seq<char>) -> Seq<(Seq<char>, Seq<char>)> {
    history_lines(output).map_values(|l: Seq<char>| (l, l + " "@))
}

/// The completions from what a completion script printed.
pub fn script_candidates(output: &str) -> (r: Vec<Candidate>)
    ensures
        r@.map_values(|c: Candidate| c@) == spec_script_candidates(output@),
{
    let lines = lines_of(output);
    let ghost ls = lines.deep_view();
    let mut r: Vec<Candidate> = Vec::new();
    let mut i: usize = 0;
    while i < lines.len()
        invariant
            i <= lines@.len(),
            ls == lines.deep_view(),
            ls == history_lines(output@),
            r@.map_values(|c: Candidate| c@) == spec_script_candidates(output@).take(i as int),
        decreases lines@.len() - i,
    {
        let ghost before = r@.map_values(|c: Candidate| c@);
        let display = from_chars(to_chars(lines[i].as_str()).as_slice());
        let mut rep = to_chars(lines[i].as_str());
        append_str(&mut rep, " ");
        let replacement = from_chars(rep.as_slice());
        r.push(Candidate { display, replacement });
        assert(ls[i as int] == lines@[i as int]@);
        assert(r@.map_values(|c: Candidate| c@) =~= before.push((ls[i as int], ls[i as int] + " "@)));
        assert(spec_script_candidates(output@).take(i + 1) =~= spec_script_candidates(output@).take(
            i as int,
        ).push((ls[i as int], ls[i as int] + " "@)));
        i = i + 1;
    }
    assert(spec_script_candidates(output@).take(i as int) =~= spec_script_candidates(output@));
    r
}

/// The file completions among the first `k` directory entries `(name, is a
/// directory)`: those starting with `prefix`, listed by name (a directory
/// with `/`) and inserted after `dir` with `/` for a directory or a space.
pub open spec fn file_matches(
    entries: Seq<(Seq<char>, bool)>,
    dir: Seq<char>,
    prefix: Seq<char>,
    k: int,
) -> Seq<(Seq<char>, Seq<char>)>
    decreases k,
{
    if k <= 0 {
        seq![]
    } else {
        let (name, is_dir) = entries[k - 1];
        let front = file_matches(entries, dir, prefix, k - 1);
        if has_prefix(name, prefix) {
            if is_dir {
                front.push((name + "/"@, dir + name + "/"@))
            } else {
                front.push((name, dir + name + " "@))
            }
        } else {
            front
        }
    }
}

/// The completions for a `Files` plan, given the entries of its directory.
pub fn file_candidates(directory: &str, prefix: &str, entries: &[(String, bool)]) -> (r: Vec<
    Candidate,
>)
    ensures
        r@.map_values(|c: Candidate| c@) == file_matches(
            entries@.map_values(|e: (String, bool)| (e.0@, e.1)),
            directory@,
            prefix@,
            entries@.len() as int,
        ),
{
    let ghost es = entries@.map_values(|e: (String, bool)| (e.0@, e.1));
    let mut r: Vec<Candidate> = Vec::new();
    let mut i: usize = 0;
    while i < entries.len()
        invariant
            i <= entries@.len(),
            es == entries@.map_values(|e: (String, bool)| (e.0@, e.1)),
            r@.map_values(|c: Candidate| c@) == file_matches(es, directory@, prefix@, i as int),
        decreases entries@.len() - i,
    {
        let name = entries[i].0.as_str();
        let is_dir = entries[i].1;
        assert(es[i as int] == (name@, is_dir));
        if starts_with(name, prefix) {
            let ghost before = r@.map_values(|c: Candidate| c@);
            let mut display = to_chars(name);
            let mut rep = to_chars(directory);
            append_str(&mut rep, name);
            if is_dir {
                append_str(&mut display, "/");
                append_str(&mut rep, "/");
            } else {
                append_str(&mut rep, " ");
            }
            r.push(Candidate { display: from_chars(display.as_slice()), replacement: from_chars(rep.as_slice()) });
            assert(r@.map_values(|c: Candidate| c@) =~= before.push(
                file_matches(es, directory@, prefix@, i + 1).last(),
            ));
        }
        i = i + 1;
    }
    r
}

} // verus!
