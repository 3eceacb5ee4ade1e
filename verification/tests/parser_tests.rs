use rush::parser::{parse_args, redirect, scan_redirect, Redirect, RedirectScan};

fn words(v: &[&str]) -> Vec<String> {
    v.iter().map(|s| s.to_string()).collect()
}

#[test]
fn splits_on_whitespace() {
    assert_eq!(parse_args("echo hello world"), words(&["echo", "hello", "world"]));
    assert_eq!(parse_args("  echo \t hello  "), words(&["echo", "hello"]));
    assert_eq!(parse_args("   "), Vec::<String>::new());
    assert_eq!(parse_args(""), Vec::<String>::new());
}

#[test]
fn single_quotes_keep_text() {
    assert_eq!(parse_args("echo 'hello   world'"), words(&["echo", "hello   world"]));
    assert_eq!(parse_args("echo 'a\\b'"), words(&["echo", "a\\b"]));
    assert_eq!(parse_args("echo 'a\"b'"), words(&["echo", "a\"b"]));
    assert_eq!(parse_args("a '' b"), words(&["a", "b"]));
}

#[test]
fn double_quotes_and_escapes() {
    assert_eq!(parse_args("echo \"a  b\" c"), words(&["echo", "a  b", "c"]));
    assert_eq!(parse_args("echo \"a\\\"b\""), words(&["echo", "a\"b"]));
    assert_eq!(parse_args("echo \"a\\nb\""), words(&["echo", "a\\nb"]));
    assert_eq!(parse_args("echo \"a\\\\b\""), words(&["echo", "a\\b"]));
    assert_eq!(parse_args("echo \"it's\""), words(&["echo", "it's"]));
    assert_eq!(parse_args("'a'\"b\"c"), words(&["abc"]));
}

#[test]
fn backslash_outside_quotes() {
    assert_eq!(parse_args("echo a\\ b"), words(&["echo", "a b"]));
    assert_eq!(parse_args("echo \\'x\\'"), words(&["echo", "'x'"]));
    assert_eq!(parse_args("echo a\\>b"), words(&["echo", "a>b"]));
}

#[test]
fn redirection_operators_split_words() {
    assert_eq!(parse_args("echo hi > out.txt"), words(&["echo", "hi", ">", "out.txt"]));
    assert_eq!(parse_args("echo hi>out"), words(&["echo", "hi>", "out"]));
    assert_eq!(parse_args("echo hi 1> f"), words(&["echo", "hi", "1>", "f"]));
    assert_eq!(parse_args("echo hi>>f"), words(&["echo", "hi>>", "f"]));
    assert_eq!(parse_args("ls 2>> err"), words(&["ls", "2>>", "err"]));
    assert_eq!(parse_args("echo '>' x"), words(&["echo", ">", "x"]));
}

#[test]
fn finds_first_redirection() {
    let args = words(&["echo", "hi", ">", "f", "2>", "g"]);
    assert_eq!(
        redirect(&args),
        Some(Redirect { operator: ">".to_string(), file: "f".to_string(), position: 2 })
    );
    let args = words(&["ls", "2>>", "err"]);
    assert_eq!(
        scan_redirect(&args),
        RedirectScan::Found(Redirect { operator: "2>>".to_string(), file: "err".to_string(), position: 1 })
    );
}

#[test]
fn redirection_without_file() {
    let args = words(&["echo", "hi", ">"]);
    assert_eq!(scan_redirect(&args), RedirectScan::MissingTarget);
    assert_eq!(redirect(&args), None);
}

#[test]
fn no_redirection() {
    let args = words(&["echo", "a>b", "3>"]);
    assert_eq!(scan_redirect(&args), RedirectScan::Absent);
    assert_eq!(redirect(&args), None);
}
