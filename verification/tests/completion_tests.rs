use rush::completer::{file_candidates, script_candidates, Candidate, CompletionPlan, LineCompleter};

fn cand(d: &str, r: &str) -> Candidate {
    Candidate { display: d.to_string(), replacement: r.to_string() }
}

#[test]
fn first_word_completes_commands() {
    let c = LineCompleter::new();
    assert_eq!(c.plan("ec"), CompletionPlan::Commands);
    assert_eq!(c.plan(""), CompletionPlan::Commands);
    assert_eq!(c.plan("  ec"), CompletionPlan::Commands);
}

#[test]
fn arguments_complete_file_names() {
    let c = LineCompleter::new();
    assert_eq!(
        c.plan("cat dir/fi"),
        CompletionPlan::Files { directory: "dir/".to_string(), prefix: "fi".to_string(), word: "dir/fi".to_string() }
    );
    assert_eq!(
        c.plan("cat "),
        CompletionPlan::Files { directory: "".to_string(), prefix: "".to_string(), word: "".to_string() }
    );
}

#[test]
fn registered_scripts_complete_arguments() {
    let mut c = LineCompleter::new();
    c.registered_completions.insert("git".to_string(), "/bin/comp".to_string());
    assert_eq!(
        c.plan("git che"),
        CompletionPlan::Script {
            script: "/bin/comp".to_string(),
            command: "git".to_string(),
            word: "che".to_string(),
            previous: "git".to_string()
        }
    );
    assert_eq!(
        c.plan("git commit  "),
        CompletionPlan::Script {
            script: "/bin/comp".to_string(),
            command: "git".to_string(),
            word: "".to_string(),
            previous: "commit".to_string()
        }
    );
}

#[test]
fn script_output_lines_are_candidates() {
    assert_eq!(script_candidates("checkout\ncherry-pick\n\n"), vec![cand("checkout", "checkout "), cand("cherry-pick", "cherry-pick ")]);
    assert_eq!(script_candidates(""), vec![]);
}

#[test]
fn file_entries_are_candidates() {
    let entries = vec![
        ("file.txt".to_string(), false),
        ("films".to_string(), true),
        ("other".to_string(), false),
    ];
    assert_eq!(
        file_candidates("dir/", "fi", &entries),
        vec![cand("file.txt", "dir/file.txt "), cand("films/", "dir/films/")]
    );
    assert_eq!(file_candidates("", "o", &entries), vec![cand("other", "other ")]);
}
