//! What a command asks of the world: printing, files, the working
//! directory and programs. The shell decides; the caller carries it out.
use vstd::prelude::*;
use crate::parser::Redirect;
use crate::text::{append_str, from_chars, to_chars};

verus! {

/// Where a redirected stream goes.
#[derive(Debug, PartialEq, Eq)]
pub struct OutputFile {
    /// The file.
    pub path: String,
    /// Standard error is redirected (else standard output).
    pub stderr: bool,
    /// The file is appended to (else created or truncated).
    pub append: bool,
}

impl View for OutputFile {
    type V = (Seq<char>, bool, bool);

    open spec fn view(&self) -> (Seq<char>, bool, bool) {
        (self.path@, self.stderr, self.append)
    }
}

/// The view of an optional redirection target.
pub open spec fn output_view(o: Option<OutputFile>) -> Option<(Seq<char>, bool, bool)> {
    match o {
        Some(f) => Some(f@),
        None => None,
    }
}

/// One thing to do, in order.
#[derive(Debug, PartialEq, Eq)]
pub enum Effect {
    /// Print a line on standard output.
    Print(String),
    /// Create the file, or truncate it.
    CreateFile(String),
    /// Write `text` to `path`, appending or truncating first.
    WriteFile { path: String, text: String, append: bool },
    /// Print the working directory.
    PrintWorkingDirectory,
    /// Change the working directory as `cd <arg>` asks (see `cd_path`).
    ChangeDirectory(String),
    /// Read the file and append its non-empty lines to the history.
    ReadHistoryFile(String),
    /// Look `lookup` up on `PATH` and report as `type` does for `shown`
    /// (see `describe_command`).
    DescribeCommand { shown: String, lookup: String, output: Option<OutputFile> },
    /// Find out which jobs have finished and list them (see `Shell::list_jobs`).
    ListJobs,
    /// Look `argv[0]` up on `PATH` and run it with the rest as arguments; with
    /// `job`, in the background under that command line.
    RunExternal { argv: Vec<String>, output: Option<OutputFile>, job: Option<String> },
}

/// An effect as plain values.
pub enum EffectView {
    Print(Seq<char>),
    CreateFile(Seq<char>),
    WriteFile(Seq<char>, Seq<char>, bool),
    PrintWorkingDirectory,
    ChangeDirectory(Seq<char>),
    ReadHistoryFile(Seq<char>),
    DescribeCommand(Seq<char>, Seq<char>, Option<(Seq<char>, bool, bool)>),
    ListJobs,
    RunExternal(Seq<Seq<char>>, Option<(Seq<char>, bool, bool)>, Option<Seq<char>>),
}

impl View for Effect {
    type V = EffectView;

    open spec fn view(&self) -> EffectView {
        match self {
            Effect::Print(s) => EffectView::Print(s@),
            Effect::CreateFile(p) => EffectView::CreateFile(p@),
            Effect::WriteFile { path, text, append } => EffectView::WriteFile(path@, text@, *append),
            Effect::PrintWorkingDirectory => EffectView::PrintWorkingDirectory,
            Effect::ChangeDirectory(a) => EffectView::ChangeDirectory(a@),
            Effect::ReadHistoryFile(p) => EffectView::ReadHistoryFile(p@),
            Effect::DescribeCommand { shown, lookup, output } => EffectView::DescribeCommand(
                shown@,
                lookup@,
                output_view(*output),
            ),
            Effect::ListJobs => EffectView::ListJobs,
            Effect::RunExternal { argv, output, job } => EffectView::RunExternal(
                argv.deep_view(),
                output_view(*output),
                match job {
                    Some(j) => Some(j@),
                    None => None,
                },
            ),
        }
    }
}

/// The views of a list of effects.
pub open spec fn effects_view(v: Seq<Effect>) -> Seq<EffectView> {
    v.map_values(|e: Effect| e@)
}

/// Printing each of `lines`.
pub open spec fn prints(lines: Seq<Seq<char>>) -> Seq<EffectView> {
    lines.map_values(|l: Seq<char>| EffectView::Print(l))
}

/// The stream and mode of a redirection operator: (to standard error, append).
pub open spec fn spec_target(op: Seq<char>) -> Option<(bool, bool)> {
    if op == seq!['>'] || op == seq!['1', '>'] {
        Some((false, false))
    } else if op == seq!['>', '>'] || op == seq!['1', '>', '>'] {
        Some((false, true))
    } else if op == seq!['2', '>'] {
        Some((true, false))
    } else if op == seq!['2', '>', '>'] {
        Some((true, true))
    } else {
        None
    }
}

/// Where a redirection sends output.
pub open spec fn spec_output(r: (Seq<char>, Seq<char>, usize)) -> Option<(Seq<char>, bool, bool)> {
    match spec_target(r.0) {
        Some((stderr, append)) => Some((r.1, stderr, append)),
        None => None,
    }
}

/// Where the redirection `r` sends output, if its operator is one.
pub fn output_of(r: &Redirect) -> (o: Option<OutputFile>)
    ensures
        output_view(o) == spec_output(r@),
{
    let c = to_chars(r.operator.as_str());
    let target: Option<(bool, bool)> = if c.len() == 1 && c[0] == '>' {
        Some((false, false))
    } else if c.len() == 2 && c[0] == '1' && c[1] == '>' {
        Some((false, false))
    } else if c.len() == 2 && c[0] == '>' && c[1] == '>' {
        Some((false, true))
    } else if c.len() == 3 && c[0] == '1' && c[1] == '>' && c[2] == '>' {
        Some((false, true))
    } else if c.len() == 2 && c[0] == '2' && c[1] == '>' {
        Some((true, false))
    } else if c.len() == 3 && c[0] == '2' && c[1] == '>' && c[2] == '>' {
        Some((true, true))
    } else {
        None
    };
    proof {
        let op = r.operator@;
        if c@.len() == 1 {
            assert(c@ =~= seq![c@[0]]);
        } else if c@.len() == 2 {
            assert(c@ =~= seq![c@[0], c@[1]]);
        } else if c@.len() == 3 {
            assert(c@ =~= seq![c@[0], c@[1], c@[2]]);
        }
        assert(target == spec_target(op));
    }
    match target {
        Some((stderr, append)) => Some(
            OutputFile { path: from_chars(to_chars(r.file.as_str()).as_slice()), stderr, append },
        ),
        None => None,
    }
}

/// What `echo` does with `text`: print it, or write it with a newline to the
/// file that standard output goes to; `2>` also creates its file.
pub open spec fn echo_effects(output: Option<(Seq<char>, bool, bool)>, text: Seq<char>) -> Seq<
    EffectView,
> {
    match output {
        None => seq![EffectView::Print(text)],
        Some((path, stderr, append)) => if !stderr {
            seq![EffectView::WriteFile(path, text.push('\n'), append)]
        } else if !append {
            seq![EffectView::CreateFile(path), EffectView::Print(text)]
        } else {
            seq![EffectView::Print(text)]
        },
    }
}

/// What `type` does with its report: print it, write it (without a newline)
/// to the file that standard output goes to, or nothing when standard error
/// is redirected.
pub open spec fn report_effects(output: Option<(Seq<char>, bool, bool)>, text: Seq<char>) -> Seq<
    EffectView,
> {
    match output {
        None => seq![EffectView::Print(text)],
        Some((path, stderr, append)) => if !stderr {
            seq![EffectView::WriteFile(path, text, append)]
        } else {
            seq![]
        },
    }
}

/// A copy of an output target.
pub fn copy_output(o: &Option<OutputFile>) -> (r: Option<OutputFile>)
    ensures
        output_view(r) == output_view(*o),
{
    match o {
        Some(f) => Some(
            OutputFile {
                path: from_chars(to_chars(f.path.as_str()).as_slice()),
                stderr: f.stderr,
                append: f.append,
            },
        ),
        None => None,
    }
}

/// The effects of `echo` printing `text`.
pub fn echo(output: &Option<OutputFile>, text: Vec<char>) -> (r: Vec<Effect>)
    ensures
        effects_view(r@) == echo_effects(output_view(*output), text@),
{
    let mut r: Vec<Effect> = Vec::new();
    match output {
        None => {
            r.push(Effect::Print(from_chars(text.as_slice())));
        },
        Some(f) => {
            let path = from_chars(to_chars(f.path.as_str()).as_slice());
            if !f.stderr {
                let mut t = text;
                t.push('\n');
                r.push(Effect::WriteFile { path, text: from_chars(t.as_slice()), append: f.append });
            } else if !f.append {
                r.push(Effect::CreateFile(path));
                r.push(Effect::Print(from_chars(text.as_slice())));
            } else {
                r.push(Effect::Print(from_chars(text.as_slice())));
            }
        },
    }
    assert(effects_view(r@) =~= echo_effects(output_view(*output), text@));
    r
}

/// The effects of `type` reporting `text`.
pub fn report(output: &Option<OutputFile>, text: Vec<char>) -> (r: Vec<Effect>)
    ensures
        effects_view(r@) == report_effects(output_view(*output), text@),
{
    let mut r: Vec<Effect> = Vec::new();
    match output {
        None => {
            r.push(Effect::Print(from_chars(text.as_slice())));
        },
        Some(f) => {
            if !f.stderr {
                let path = from_chars(to_chars(f.path.as_str()).as_slice());
                r.push(Effect::WriteFile { path, text: from_chars(text.as_slice()), append: f.append });
            }
        },
    }
    assert(effects_view(r@) =~= report_effects(output_view(*output), text@));
    r
}

/// What `type` reports for a name that is not a builtin: where it was found
/// on `PATH`, or that it was not.
pub open spec fn describe_text(shown: Seq<char>, found: Option<Seq<char>>) -> Seq<char> {
    match found {
        Some(path) => shown + " is "@ + path,
        None => shown + ": not found"@,
    }
}

/// Finishes `type` once the `PATH` lookup for a `DescribeCommand` is done:
/// `found` is the path found, if any.
pub fn describe_command(shown: &str, found: Option<&str>, output: &Option<OutputFile>) -> (r: Vec<
    Effect,
>)
    ensures
        effects_view(r@) == report_effects(
            output_view(*output),
            describe_text(
                shown@,
                match found {
                    Some(p) => Some(p@),
                    None => None,
                },
            ),
        ),
{
    let mut text: Vec<char> = Vec::new();
    append_str(&mut text, shown);
    match found {
        Some(p) => {
            append_str(&mut text, " is ");
            append_str(&mut text, p);
        },
        None => {
            append_str(&mut text, ": not found");
        },
    }
    report(output, text)
}

/// The message for a program that is not on `PATH`.
pub open spec fn not_found_text(name: Seq<char>) -> Seq<char> {
    name + ": command not found"@
}

/// The line printed when `name` is neither a builtin nor found on `PATH`.
pub fn command_not_found(name: &str) -> (r: String)
    ensures
        r@ == not_found_text(name@),
{
    let mut t: Vec<char> = Vec::new();
    append_str(&mut t, name);
    append_str(&mut t, ": command not found");
    from_chars(t.as_slice())
}

/// The directory that `cd <arg>` changes to, with `home` the value of `HOME`:
/// paths starting `/`, `./` or `../` as they are, `~` alone as `home`, a
/// leading `~` replaced by `home`, and any other path under `./`.
pub open spec fn spec_cd_path(arg: Seq<char>, home: Seq<char>) -> Seq<char> {
    let n = arg.len();
    if (n >= 1 && arg[0] == '/') || (n >= 2 && arg[0] == '.' && arg[1] == '/') || (n >= 3
        && arg[0] == '.' && arg[1] == '.' && arg[2] == '/') {
        arg
    } else if n == 1 && arg[0] == '~' {
        home
    } else if n >= 1 && arg[0] == '~' {
        home + arg.drop_first()
    } else {
        seq!['.', '/'] + arg
    }
}

/// The directory that `cd <arg>` changes to.
pub fn cd_path(arg: &str, home: &str) -> (r: String)
    ensures
        r@ == spec_cd_path(arg@, home@),
{
    let a = to_chars(arg);
    let n = a.len();
    let mut r: Vec<char> = Vec::new();
    if (n >= 1 && a[0] == '/') || (n >= 2 && a[0] == '.' && a[1] == '/') || (n >= 3 && a[0] == '.'
        && a[1] == '.' && a[2] == '/') {
        append_str(&mut r, arg);
    } else if n == 1 && a[0] == '~' {
        append_str(&mut r, home);
    } else if n >= 1 && a[0] == '~' {
        append_str(&mut r, home);
        let rest = crate::text::copy_range(a.as_slice(), 1, n);
        crate::text::extend_chars(&mut r, rest.as_slice());
        assert(rest@ =~= arg@.drop_first());
    } else {
        r.push('.');
        r.push('/');
        append_str(&mut r, arg);
        assert(r@ =~= seq!['.', '/'] + arg@);
    }
    from_chars(r.as_slice())
}

/// The message printed when `cd <arg>` fails.
pub fn cd_error(arg: &str) -> (r: String)
    ensures
        r@ == "cd: "@ + arg@ + ": No such file or directory"@,
{
    let mut t: Vec<char> = Vec::new();
    append_str(&mut t, "cd: ");
    append_str(&mut t, arg);
    append_str(&mut t, ": No such file or directory");
    from_chars(t.as_slice())
}

} // verus!
