use rush::completer::{Candidate, LineCompleter};
use rush::effects::Effect;
use rush::evaluator::{can_evaluate, evaluate_command};

fn words(v: &[&str]) -> Vec<String> {
    v.iter().map(|s| s.to_string()).collect()
}

#[test]
fn evaluator_builtins() {
    let h: Vec<String> = words(&["a", "b"]);
    assert_eq!(evaluate_command(&words(&["echo", "$X", "y"]), &h), vec![Effect::Print("$X y".to_string())]);
    assert_eq!(evaluate_command(&words(&["type", "cd"]), &h), vec![Effect::Print("cd is a shell builtin".to_string())]);
    assert_eq!(
        evaluate_command(&words(&["type", "jobs"]), &h),
        vec![Effect::DescribeCommand { shown: "jobs".to_string(), lookup: "jobs".to_string(), output: None }]
    );
    assert_eq!(
        evaluate_command(&words(&["sleep", "1", "&"]), &h),
        vec![Effect::RunExternal { argv: words(&["sleep", "1", "&"]), output: None, job: None }]
    );
}

#[test]
fn evaluator_history_numbering() {
    let h: Vec<String> = words(&["a", "b"]);
    assert_eq!(
        evaluate_command(&words(&["history"]), &h),
        vec![Effect::Print("1 a".to_string()), Effect::Print("2 b".to_string())]
    );
    assert_eq!(
        evaluate_command(&words(&["history", "5"]), &h),
        vec![Effect::Print("1 a".to_string()), Effect::Print("2 b".to_string())]
    );
    assert_eq!(evaluate_command(&words(&["history", "1"]), &h), vec![Effect::Print("\t2 b".to_string())]);
}

#[test]
fn evaluator_refuses_incomplete_commands() {
    let h: Vec<String> = Vec::new();
    assert!(!can_evaluate(&words(&[">", "f"]), &h));
    assert!(!can_evaluate(&words(&["cd"]), &h));
    assert!(!can_evaluate(&words(&["history", "-a", "f"]), &h));
    assert!(can_evaluate(&words(&["pwd"]), &h));
}

#[test]
fn completes_command_names() {
    let c = LineCompleter::new();
    let (start, cands) = c.complete(&words(&["ls", "lsblk", "cat"]), "l");
    assert_eq!(start, 0);
    assert_eq!(
        cands,
        vec![
            Candidate { display: "ls".to_string(), replacement: "ls ".to_string() },
            Candidate { display: "lsblk".to_string(), replacement: "lsblk ".to_string() },
        ]
    );
    let (_, cands) = c.complete(&[], "e");
    assert_eq!(
        cands,
        vec![
            Candidate { display: "echo".to_string(), replacement: "echo ".to_string() },
            Candidate { display: "exit".to_string(), replacement: "exit ".to_string() },
        ]
    );
    let (_, cands) = c.complete(&words(&["x"]), "");
    assert_eq!(cands.len(), 10);
    let (_, cands) = c.complete(&[], "de");
    assert_eq!(cands, vec![Candidate { display: "declare".to_string(), replacement: "declare ".to_string() }]);
    let (_, cands) = c.complete(&[], "j");
    assert_eq!(cands, vec![Candidate { display: "jobs".to_string(), replacement: "jobs ".to_string() }]);
    let (_, cands) = c.complete(&[], "zz");
    assert!(cands.is_empty());
}
