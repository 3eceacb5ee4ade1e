use rush::effects::{cd_error, cd_path, command_not_found, describe_command, output_of, Effect, OutputFile};
use rush::parser::Redirect;
use rush::shell::{job_started, LineAction, Shell};
use rush::store::StringMap;

fn words(v: &[&str]) -> Vec<String> {
    v.iter().map(|s| s.to_string()).collect()
}

fn print(s: &str) -> Effect {
    Effect::Print(s.to_string())
}

fn run(shell: &mut Shell, line: &[&str]) -> Vec<Effect> {
    let env = StringMap::new();
    let args = words(line);
    assert!(shell.can_evaluate(&args, &env));
    shell.evaluate_command(&args, &env)
}

#[test]
fn echo_prints_words() {
    let mut sh = Shell::new();
    assert_eq!(run(&mut sh, &["echo", "hello", "world"]), vec![print("hello world")]);
    assert_eq!(run(&mut sh, &["echo"]), vec![print("")]);
}

#[test]
fn echo_redirections() {
    let mut sh = Shell::new();
    assert_eq!(
        run(&mut sh, &["echo", "hi", ">", "out.txt"]),
        vec![Effect::WriteFile { path: "out.txt".to_string(), text: "hi\n".to_string(), append: false }]
    );
    assert_eq!(
        run(&mut sh, &["echo", "hi", "1>>", "out.txt"]),
        vec![Effect::WriteFile { path: "out.txt".to_string(), text: "hi\n".to_string(), append: true }]
    );
    assert_eq!(
        run(&mut sh, &["echo", "hi", "2>", "err.txt"]),
        vec![Effect::CreateFile("err.txt".to_string()), print("hi")]
    );
    assert_eq!(run(&mut sh, &["echo", "hi", "2>>", "err.txt"]), vec![print("hi")]);
}

#[test]
fn redirection_without_file_is_a_syntax_error() {
    let mut sh = Shell::new();
    assert_eq!(
        run(&mut sh, &["echo", "hi", ">"]),
        vec![print("syntax error near unexpected token `newline'"), print("hi >")]
    );
}

#[test]
fn type_reports_builtins() {
    let mut sh = Shell::new();
    assert_eq!(run(&mut sh, &["type", "echo"]), vec![print("echo is a shell builtin")]);
    assert_eq!(run(&mut sh, &["type", "declare"]), vec![print("declare is a shell builtin")]);
    assert_eq!(
        run(&mut sh, &["type", "exit", ">", "t.txt"]),
        vec![Effect::WriteFile { path: "t.txt".to_string(), text: "exit is a shell builtin".to_string(), append: false }]
    );
    assert_eq!(run(&mut sh, &["type", "echo", "2>", "t.txt"]), vec![]);
}

#[test]
fn type_looks_up_other_names() {
    let mut sh = Shell::new();
    assert_eq!(
        run(&mut sh, &["type", "ls"]),
        vec![Effect::DescribeCommand { shown: "ls".to_string(), lookup: "ls".to_string(), output: None }]
    );
    assert_eq!(describe_command("ls", Some("/bin/ls"), &None), vec![print("ls is /bin/ls")]);
    assert_eq!(describe_command("nope", None, &None), vec![print("nope: not found")]);
    let out = Some(OutputFile { path: "f".to_string(), stderr: false, append: true });
    assert_eq!(
        describe_command("ls", Some("/bin/ls"), &out),
        vec![Effect::WriteFile { path: "f".to_string(), text: "ls is /bin/ls".to_string(), append: true }]
    );
}

#[test]
fn pwd_and_cd() {
    let mut sh = Shell::new();
    assert_eq!(run(&mut sh, &["pwd"]), vec![Effect::PrintWorkingDirectory]);
    assert_eq!(run(&mut sh, &["cd", "/tmp"]), vec![Effect::ChangeDirectory("/tmp".to_string())]);
    assert_eq!(cd_path("/tmp", "/home/u"), "/tmp");
    assert_eq!(cd_path("./x", "/home/u"), "./x");
    assert_eq!(cd_path("../x", "/home/u"), "../x");
    assert_eq!(cd_path("~", "/home/u"), "/home/u");
    assert_eq!(cd_path("~/docs", "/home/u"), "/home/u/docs");
    assert_eq!(cd_path("docs", "/home/u"), "./docs");
    assert_eq!(cd_error("nowhere"), "cd: nowhere: No such file or directory");
}

#[test]
fn cannot_evaluate_incomplete_commands() {
    let sh = Shell::new();
    let env = StringMap::new();
    assert!(!sh.can_evaluate(&words(&["type"]), &env));
    assert!(!sh.can_evaluate(&words(&["cd"]), &env));
    assert!(sh.can_evaluate(&words(&["&"]), &env));
    assert!(sh.can_evaluate(&words(&["$NOPE"]), &env));
    assert!(!sh.can_evaluate(&words(&["history", "-a", "f"]), &env));
    assert!(sh.can_evaluate(&words(&["history", "-w", "f"]), &env));
}

#[test]
fn declare_sets_and_prints_variables() {
    let mut sh = Shell::new();
    assert_eq!(run(&mut sh, &["declare", "FOO=bar"]), vec![]);
    assert_eq!(run(&mut sh, &["declare", "-p", "FOO"]), vec![print("declare -- FOO=\"bar\"")]);
    assert_eq!(run(&mut sh, &["declare", "-p", "NOPE"]), vec![print("declare: NOPE: not found")]);
    assert_eq!(
        run(&mut sh, &["declare", "1X=3"]),
        vec![print("declare: `1X=3': not a valid identifier")]
    );
    assert_eq!(
        run(&mut sh, &["declare", "a-b=1"]),
        vec![print("declare: `a-b=1': not a valid identifier")]
    );
    assert_eq!(run(&mut sh, &["declare", "X=a=b"]), vec![]);
    assert_eq!(run(&mut sh, &["declare", "-p", "X"]), vec![print("declare -- X=\"a=b\"")]);
    assert_eq!(run(&mut sh, &["declare", "noequals"]), vec![]);
}

#[test]
fn variables_expand() {
    let mut sh = Shell::new();
    run(&mut sh, &["declare", "FOO=bar"]);
    assert_eq!(run(&mut sh, &["echo", "$FOO"]), vec![print("bar")]);
    assert_eq!(run(&mut sh, &["echo", "${FOO}baz"]), vec![print("barbaz")]);
    assert_eq!(run(&mut sh, &["echo", "pre${FOO}post"]), vec![print("prebarpost")]);
    assert_eq!(run(&mut sh, &["echo", "a$FOO"]), vec![print("abar")]);
    assert_eq!(run(&mut sh, &["echo", "$FOO$FOO"]), vec![print("barbar")]);
    assert_eq!(run(&mut sh, &["echo", "x", "$NOPE", "y"]), vec![print("x y")]);
    assert_eq!(run(&mut sh, &["echo", "$FOO/x"]), vec![print("bar/x")]);
    assert_eq!(run(&mut sh, &["echo", "$FOO_x"]), vec![print("")]);
    assert_eq!(run(&mut sh, &["echo", "$FOO-$FOO."]), vec![print("bar-bar.")]);
    assert_eq!(run(&mut sh, &["echo", "${NOPE}z"]), vec![print("z")]);
    assert_eq!(run(&mut sh, &["echo", "a${FOO"]), vec![print("a{FOO")]);
}

#[test]
fn environment_variables_expand_under_shell_ones() {
    let mut sh = Shell::new();
    let mut env = StringMap::new();
    env.insert("HOME".to_string(), "/home/u".to_string());
    env.insert("FOO".to_string(), "env".to_string());
    assert_eq!(sh.evaluate_command(&words(&["echo", "$HOME"]), &env), vec![print("/home/u")]);
    assert_eq!(sh.evaluate_command(&words(&["echo", "$FOO"]), &env), vec![print("env")]);
    sh.evaluate_command(&words(&["declare", "FOO=shell"]), &env);
    assert_eq!(sh.evaluate_command(&words(&["echo", "${FOO}"]), &env), vec![print("shell")]);
}

#[test]
fn external_commands() {
    let mut sh = Shell::new();
    assert_eq!(
        run(&mut sh, &["ls", "-l"]),
        vec![Effect::RunExternal { argv: words(&["ls", "-l"]), output: None, job: None }]
    );
    assert_eq!(
        run(&mut sh, &["sleep", "1", "&"]),
        vec![Effect::RunExternal { argv: words(&["sleep", "1"]), output: None, job: Some("sleep 1 &".to_string()) }]
    );
    assert_eq!(
        run(&mut sh, &["ls", "2>>", "err"]),
        vec![Effect::RunExternal {
            argv: words(&["ls"]),
            output: Some(OutputFile { path: "err".to_string(), stderr: true, append: true }),
            job: None
        }]
    );
    assert_eq!(command_not_found("foo"), "foo: command not found");
}

#[test]
fn redirect_targets() {
    let r = Redirect { operator: "1>".to_string(), file: "o".to_string(), position: 0 };
    assert_eq!(output_of(&r), Some(OutputFile { path: "o".to_string(), stderr: false, append: false }));
    let r = Redirect { operator: ">>".to_string(), file: "o".to_string(), position: 0 };
    assert_eq!(output_of(&r), Some(OutputFile { path: "o".to_string(), stderr: false, append: true }));
    let r = Redirect { operator: "3>".to_string(), file: "o".to_string(), position: 0 };
    assert_eq!(output_of(&r), None);
}

#[test]
fn completion_registrations() {
    let mut sh = Shell::new();
    assert_eq!(run(&mut sh, &["complete", "-C", "/bin/comp", "git"]), vec![]);
    assert_eq!(run(&mut sh, &["complete", "-p", "git"]), vec![print("complete -C '/bin/comp' git")]);
    assert_eq!(run(&mut sh, &["complete", "-r", "git"]), vec![]);
    assert_eq!(
        run(&mut sh, &["complete", "-p", "git"]),
        vec![print("complete: git: no completion specification")]
    );
}

#[test]
fn jobs_are_numbered_listed_and_reaped() {
    let mut sh = Shell::new();
    assert_eq!(run(&mut sh, &["jobs"]), vec![Effect::ListJobs]);
    assert_eq!(sh.add_job("sleep 5 &".to_string()), 1);
    assert_eq!(sh.add_job("sleep 1 &".to_string()), 2);
    assert_eq!(sh.add_job("true &".to_string()), 3);
    assert_eq!(
        sh.list_jobs(&[false, true, false]),
        vec![
            "[1]   Running                 sleep 5 &".to_string(),
            "[2]-  Done                    sleep 1".to_string(),
            "[3]+  Running                 true &".to_string(),
        ]
    );
    assert_eq!(sh.done_jobs(&[false, true, false]), vec!["[2]-  Done                    sleep 1".to_string()]);
    sh.retain_jobs(&[true, false, true]);
    assert_eq!(sh.jobs.len(), 2);
    assert_eq!(sh.jobs[0].id, 1);
    assert_eq!(sh.jobs[1].id, 3);
    assert_eq!(job_started(3, 1234), "[3] 1234");
}

#[test]
fn single_job_gets_plus() {
    let mut sh = Shell::new();
    sh.add_job("x & &".to_string());
    assert_eq!(sh.list_jobs(&[true]), vec!["[1]+  Done                    x".to_string()]);
}

#[test]
fn lines_are_recorded_and_classified() {
    let mut sh = Shell::new();
    assert_eq!(sh.accept_line("  echo hi  "), LineAction::Evaluate(words(&["echo", "hi"])));
    assert_eq!(sh.accept_line(""), LineAction::Skip);
    assert_eq!(sh.accept_line("exit 0"), LineAction::Exit);
    assert_eq!(sh.history, words(&["echo hi", "", "exit 0"]));
}

#[test]
fn history_listing() {
    let mut sh = Shell::new();
    sh.history = words(&["ls", "pwd", "history"]);
    assert_eq!(run(&mut sh, &["history"]), vec![print("1 ls"), print("2 pwd"), print("3 history")]);
    assert_eq!(run(&mut sh, &["history", "2"]), vec![print("\t2 pwd"), print("\t3 history")]);
    assert_eq!(run(&mut sh, &["history", "10"]), vec![print("1 ls"), print("2 pwd"), print("3 history")]);
    assert_eq!(run(&mut sh, &["history", "x"]), vec![]);
}

#[test]
fn history_files() {
    let mut sh = Shell::new();
    sh.history = words(&["ls", "pwd", "history -w f"]);
    assert_eq!(
        run(&mut sh, &["history", "-w", "f"]),
        vec![Effect::WriteFile { path: "f".to_string(), text: "ls\npwd\nhistory -w f\n".to_string(), append: false }]
    );
    sh.history = words(&["a", "history -a f", "b", "history -a f"]);
    assert_eq!(
        run(&mut sh, &["history", "-a", "f"]),
        vec![Effect::WriteFile { path: "f".to_string(), text: "b\nhistory -a f\n".to_string(), append: true }]
    );
    sh.history = words(&["a", "history -a f"]);
    assert_eq!(
        run(&mut sh, &["history", "-a", "f"]),
        vec![Effect::WriteFile { path: "f".to_string(), text: "a\nhistory -a f\n".to_string(), append: true }]
    );
    assert_eq!(run(&mut sh, &["history", "-r", "f"]), vec![Effect::ReadHistoryFile("f".to_string())]);
    sh.read_history("x\n\ny\r\n");
    assert_eq!(sh.history, words(&["a", "history -a f", "x", "y"]));
}

#[test]
fn history_written_reads_back() {
    let h = words(&["ls -l", "echo 'a b'", "cd /tmp"]);
    let text = rush::history::history_file_text(&h, 0);
    assert_eq!(rush::history::lines_of(&text), h);
}

#[test]
fn dollar_name_ends_at_a_non_name_character() {
    let mut sh = Shell::new();
    assert_eq!(run(&mut sh, &["declare", "X=1"]), vec![]);
    assert_eq!(run(&mut sh, &["echo", "$X", "$X/d"]), vec![print("1 1/d")]);
}

#[test]
fn empty_expansion_is_an_empty_command() {
    let mut sh = Shell::new();
    assert_eq!(run(&mut sh, &["$NOPE"]), vec![]);
    assert_eq!(run(&mut sh, &["&"]), vec![]);
    assert_eq!(run(&mut sh, &["$NOPE", ">", "f"]), vec![]);
}

#[test]
fn job_numbers_follow_the_job_count() {
    let mut sh = Shell::new();
    assert_eq!(sh.next_job_id(), Some(1));
    assert_eq!(sh.add_job("a &".to_string()), 1);
    assert_eq!(sh.add_job("b &".to_string()), 2);
    assert_eq!(sh.add_job("c &".to_string()), 3);
    sh.reap_jobs(&[true, true, false]);
    assert_eq!(sh.jobs.len(), 1);
    assert_eq!(sh.jobs[0].id, 3);
    assert!(sh.job_id_taken(3));
    assert!(!sh.job_id_taken(2));
    assert_eq!(sh.next_job_id(), Some(2));
    assert_eq!(sh.add_job("d &".to_string()), 2);
    assert_eq!(job_started(2, 77), "[2] 77");
}

#[test]
fn a_taken_job_number_is_not_given_again() {
    let mut sh = Shell::new();
    assert_eq!(sh.add_job("a &".to_string()), 1);
    assert_eq!(sh.add_job("b &".to_string()), 2);
    let done = sh.reap_jobs(&[true, false]);
    assert_eq!(done, vec!["[1]-  Done                    a".to_string()]);
    assert_eq!(sh.jobs.len(), 1);
    assert_eq!(sh.jobs[0].id, 2);
    assert_eq!(sh.next_job_id(), Some(1));
    assert_eq!(sh.add_job("c &".to_string()), 1);
    assert_eq!(sh.add_job("d &".to_string()), 3);
    let ids: Vec<usize> = sh.jobs.iter().map(|j| j.id).collect();
    assert_eq!(ids, vec![2, 1, 3]);
}

#[test]
fn reaping_reports_every_removed_job() {
    let mut sh = Shell::new();
    sh.add_job("a &".to_string());
    sh.add_job("b &".to_string());
    sh.add_job("c &".to_string());
    let done = sh.reap_jobs(&[true, false, true]);
    assert_eq!(
        done,
        vec![
            "[1]   Done                    a".to_string(),
            "[3]+  Done                    c".to_string(),
        ]
    );
    assert_eq!(sh.jobs.len(), 1);
    assert_eq!(sh.jobs[0].id, 2);
    assert_eq!(sh.reap_jobs(&[false]), Vec::<String>::new());
    assert_eq!(sh.jobs.len(), 1);
}

#[test]
fn jobs_lists_all_and_keeps_the_running() {
    let mut sh = Shell::new();
    sh.add_job("a &".to_string());
    sh.add_job("b &".to_string());
    let listed = sh.report_jobs(&[false, true]);
    assert_eq!(
        listed,
        vec![
            "[1]-  Running                 a &".to_string(),
            "[2]+  Done                    b".to_string(),
        ]
    );
    assert_eq!(sh.jobs.len(), 1);
    assert_eq!(sh.jobs[0].id, 1);
    assert_eq!(sh.next_job_id(), Some(2));
}

#[test]
fn shell_history_written_then_read() {
    let mut sh = Shell::new();
    sh.accept_line("echo one");
    sh.accept_line("history -w f");
    let h = sh.history.clone();
    let effects = run(&mut sh, &["history", "-w", "f"]);
    let text = match &effects[..] {
        [Effect::WriteFile { path, text, append: false }] if path == "f" => text.clone(),
        _ => panic!("expected one write"),
    };
    assert_eq!(run(&mut sh, &["history", "-r", "f"]), vec![Effect::ReadHistoryFile("f".to_string())]);
    sh.read_history(&text);
    let mut expected = h.clone();
    expected.extend(h);
    assert_eq!(sh.history, expected);
}
