use rush::parser::parse_args;
use rush::shell::Shell;
use rush::store::StringMap;

fn words(v: &[&str]) -> Vec<String> {
    v.iter().map(|s| s.to_string()).collect()
}

#[test]
fn joined_words_split_back() {
    let ws = words(&["ls", "-la", "/tmp", "a=b"]);
    assert_eq!(parse_args(&ws.join(" ")), ws);
}

#[test]
fn parsed_words_are_never_empty() {
    for line in ["a '' \"\" b", "''", "x  >  y", "\\ ", "'a b' \"\" c"] {
        assert!(parse_args(line).iter().all(|w| !w.is_empty()), "{line}");
    }
}

#[test]
fn evaluating_keeps_history_and_jobs() {
    let mut sh = Shell::new();
    sh.history = words(&["echo a", "declare X=1"]);
    sh.add_job("sleep 9 &".to_string());
    let env = StringMap::new();
    for line in [&["declare", "X=1"][..], &["complete", "-C", "s", "git"], &["echo", "hi"], &["history", "-w", "f"]] {
        sh.evaluate_command(&words(line), &env);
        assert_eq!(sh.history, words(&["echo a", "declare X=1"]));
        assert_eq!(sh.jobs.len(), 1);
        assert_eq!(sh.jobs[0].command, "sleep 9 &");
    }
}

#[test]
fn evaluator_history_written_reads_back() {
    let h = words(&["ls -l", "echo 'a b'", "history -w f"]);
    let written = rush::evaluator::evaluate_command(&words(&["history", "-w", "f"]), &h);
    let text = match &written[..] {
        [rush::effects::Effect::WriteFile { path, text, append: false }] if path == "f" => text.clone(),
        _ => panic!("expected one write"),
    };
    let mut later = words(&["pwd"]);
    assert_eq!(
        rush::evaluator::evaluate_command(&words(&["history", "-r", "f"]), &later),
        vec![rush::effects::Effect::ReadHistoryFile("f".to_string())]
    );
    rush::history::append_history_text(&mut later, &text);
    assert_eq!(later, words(&["pwd", "ls -l", "echo 'a b'", "history -w f"]));
}

#[test]
fn only_history_r_reads_a_file() {
    let h = words(&["a"]);
    for line in [
        &["history", "-w", "f"][..],
        &["history", "-a", "f"],
        &["history"],
        &["history", "1"],
        &["echo", "-r", "f"],
        &["history", "-r", "f", "g"],
    ] {
        let effects = rush::evaluator::evaluate_command(&words(line), &h);
        assert!(!effects.iter().any(|e| matches!(e, rush::effects::Effect::ReadHistoryFile(_))), "{line:?}");
    }
    let effects = rush::evaluator::evaluate_command(&words(&["history", "-r", "f", ">", "out"]), &h);
    assert_eq!(effects, vec![rush::effects::Effect::ReadHistoryFile("f".to_string())]);
}

#[test]
fn plain_lines_split_like_split_whitespace() {
    for line in ["  ls   -la\t/tmp \n", "a=b c$d e&", "", "   ", "x\u{3000}y\u{a0}z"] {
        let expected: Vec<String> = line.split_whitespace().map(String::from).collect();
        assert_eq!(parse_args(line), expected, "{line:?}");
    }
}

#[test]
fn space_separates_parsed_words() {
    let a = "ls >> out";
    let b = "'x y' \"z\"";
    let mut expected = parse_args(a);
    expected.extend(parse_args(b));
    assert_eq!(parse_args(&format!("{} {}", a, b)), expected);
}

#[test]
fn parsed_words_fit_in_the_line() {
    for line in ["echo \"a\\b\" 'c d' e\\ f", "ls>>out 2> err", "\"\\x\\y\"", "  ", "a\\"] {
        let total: usize = parse_args(line).iter().map(|w| w.chars().count()).sum();
        assert!(total <= line.chars().count(), "{line:?}");
    }
}

#[test]
fn history_file_name_may_hold_a_greater_than_sign() {
    let h = words(&["one", "two"]);
    let written = rush::evaluator::evaluate_command(&words(&["history", "-w", "a>b"]), &h);
    assert_eq!(
        written,
        vec![rush::effects::Effect::WriteFile { path: "a>b".to_string(), text: "one\ntwo\n".to_string(), append: false }]
    );
    assert_eq!(
        rush::evaluator::evaluate_command(&words(&["history", "-r", "a>b"]), &h),
        vec![rush::effects::Effect::ReadHistoryFile("a>b".to_string())]
    );
}
