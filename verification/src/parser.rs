//! Splitting a command line into words, and finding an output redirection.
use vstd::prelude::*;
use crate::text::{from_chars, is_whitespace, spec_is_whitespace, to_chars};

verus! {

/// The state of the word splitter between two characters.
pub struct ParseState {
    pub single: bool,
    pub double: bool,
    pub escaped: bool,
    pub args: Seq<Seq<char>>,
    pub current: Seq<char>,
}

/// The state before the first character.
pub open spec fn initial_state() -> ParseState {
    ParseState { single: false, double: false, escaped: false, args: seq![], current: seq![] }
}

/// The words once the input is exhausted: the pending word counts if non-empty.
pub open spec fn finish(st: ParseState) -> Seq<Seq<char>> {
    if st.current.len() > 0 {
        st.args.push(st.current)
    } else {
        st.args
    }
}

/// What an escaped character `c` adds to the pending word.
pub open spec fn escaped_text(double: bool, c: char) -> Seq<char> {
    if double {
        if c == '"' || c == '$' || c == '\\' || c == '\n' {
            seq![c]
        } else {
            seq!['\\', c]
        }
    } else {
        seq![c]
    }
}

/// The words of `rest`, read from state `st`.
///
/// Outside quotes, white space ends a word and `>` (or `>>`) ends a word
/// with the operator appended to it; `'` and `"` open and close quoting,
/// `\` escapes the next character except inside single quotes.
pub open spec fn split_words(rest: Seq<char>, st: ParseState) -> Seq<Seq<char>>
    decreases rest.len(),
{
    if rest.len() == 0 {
        finish(st)
    } else {
        let c = rest[0];
        let tail = rest.drop_first();
        if st.escaped {
            split_words(
                tail,
                ParseState {
                    escaped: false,
                    current: st.current + escaped_text(st.double, c),
                    ..st
                },
            )
        } else if c == '>' && !st.single && !st.double {
            if tail.len() > 0 && tail[0] == '>' {
                split_words(
                    tail.drop_first(),
                    ParseState {
                        args: st.args.push(st.current + seq!['>', '>']),
                        current: seq![],
                        ..st
                    },
                )
            } else {
                split_words(
                    tail,
                    ParseState { args: st.args.push(st.current.push('>')), current: seq![], ..st },
                )
            }
        } else if c == '\\' {
            if st.single {
                split_words(tail, ParseState { current: st.current.push(c), ..st })
            } else {
                split_words(tail, ParseState { escaped: true, ..st })
            }
        } else if c == '\'' && !st.double {
            split_words(tail, ParseState { single: !st.single, ..st })
        } else if c == '"' && !st.single {
            split_words(tail, ParseState { double: !st.double, ..st })
        } else if spec_is_whitespace(c) && !st.single && !st.double {
            if st.current.len() > 0 {
                split_words(tail, ParseState { args: st.args.push(st.current), current: seq![], ..st })
            } else {
                split_words(tail, st)
            }
        } else {
            split_words(tail, ParseState { current: st.current.push(c), ..st })
        }
    }
}

/// The words of a whole command line.
pub open spec fn spec_parse_args(input: Seq<char>) -> Seq<Seq<char>> {
    split_words(input, initial_state())
}

/// Splits `input` into words as a shell does: white space separates words,
/// single quotes keep everything literal, double quotes keep white space and
/// honour `\` before `"`, `$`, `\` and newline, an unquoted `\` makes the next
/// character literal, and an unquoted `>` or `>>` closes the current word
/// with the operator attached (`1>` stays one word).
pub fn parse_args(input: &str) -> (args: Vec<String>)
    ensures
        args.deep_view() == spec_parse_args(input@),
{
    let chars = to_chars(input);
    let n = chars.len();
    let mut single = false;
    let mut double = false;
    let mut escaped = false;
    let mut args: Vec<String> = Vec::new();
    let mut current: Vec<char> = Vec::new();
    let mut i: usize = 0;
    assert(chars@.subrange(0, n as int) =~= chars@);
    assert(args.deep_view() =~= Seq::<Seq<char>>::empty());
    while i < n
        invariant
            n == chars@.len(),
            chars@ == input@,
            i <= n,
            split_words(chars@.subrange(i as int, n as int), ParseState {
                single,
                double,
                escaped,
                args: args.deep_view(),
                current: current@,
            }) == spec_parse_args(input@),
        decreases n - i,
    {
        let ghost rest = chars@.subrange(i as int, n as int);
        let ghost st = ParseState { single, double, escaped, args: args.deep_view(), current: current@ };
        assert(rest.drop_first() == chars@.subrange(i + 1, n as int));
        let c = chars[i];
        if escaped {
            if double {
                if c == '"' || c == '$' || c == '\\' || c == '\n' {
                    current.push(c);
                } else {
                    current.push('\\');
                    current.push(c);
                    assert(current@ =~= st.current + seq!['\\', c]);
                }
            } else {
                current.push(c);
            }
            assert(current@ =~= st.current + escaped_text(st.double, c));
            escaped = false;
            i = i + 1;
        } else if c == '>' && !single && !double {
            if i + 1 < n && chars[i + 1] == '>' {
                current.push('>');
                current.push('>');
                assert(current@ =~= st.current + seq!['>', '>']);
                assert(rest.drop_first().drop_first() == chars@.subrange(i + 2, n as int));
                i = i + 2;
            } else {
                current.push('>');
                i = i + 1;
            }
            let word = from_chars(current.as_slice());
            args.push(word);
            current = Vec::new();
            assert(args.deep_view() =~= st.args.push(word@));
        } else if c == '\\' {
            if single {
                current.push(c);
            } else {
                escaped = true;
            }
            i = i + 1;
        } else if c == '\'' && !double {
            single = !single;
            i = i + 1;
        } else if c == '"' && !single {
            double = !double;
            i = i + 1;
        } else if is_whitespace(c) && !single && !double {
            if current.len() > 0 {
                let word = from_chars(current.as_slice());
                args.push(word);
                current = Vec::new();
                assert(args.deep_view() =~= st.args.push(word@));
            }
            i = i + 1;
        } else {
            current.push(c);
            i = i + 1;
        }
    }
    assert(chars@.subrange(n as int, n as int) =~= Seq::<char>::empty());
    if current.len() > 0 {
        let ghost old_args = args.deep_view();
        let word = from_chars(current.as_slice());
        args.push(word);
        assert(args.deep_view() =~= old_args.push(word@));
    }
    args
}


/// An output redirection found among the words of a command.
#[derive(Debug, PartialEq, Eq)]
pub struct Redirect {
    /// One of `>`, `1>`, `2>`, `>>`, `1>>`, `2>>`.
    pub operator: String,
    /// The word after the operator.
    pub file: String,
    /// The index of the operator among the words.
    pub position: usize,
}

impl View for Redirect {
    type V = (Seq<char>, Seq<char>, usize);

    open spec fn view(&self) -> (Seq<char>, Seq<char>, usize) {
        (self.operator@, self.file@, self.position)
    }
}

/// The redirection operators.
pub open spec fn spec_is_redirect_operator(s: Seq<char>) -> bool {
    ||| s == seq!['>']
    ||| s == seq!['1', '>']
    ||| s == seq!['2', '>']
    ||| s == seq!['>', '>']
    ||| s == seq!['1', '>', '>']
    ||| s == seq!['2', '>', '>']
}

/// `i` is the index of the first redirection operator in `args`.
pub open spec fn is_first_operator(args: Seq<Seq<char>>, i: int) -> bool {
    &&& 0 <= i < args.len()
    &&& spec_is_redirect_operator(args[i])
    &&& forall|j: int| 0 <= j < i ==> !spec_is_redirect_operator(#[trigger] args[j])
}

/// No word of `args` is a redirection operator.
pub open spec fn has_no_operator(args: Seq<Seq<char>>) -> bool {
    forall|j: int| 0 <= j < args.len() ==> !spec_is_redirect_operator(#[trigger] args[j])
}

/// Whether `s` is one of the redirection operators.
pub fn is_redirect_operator(s: &str) -> (r: bool)
    ensures
        r == spec_is_redirect_operator(s@),
{
    let c = to_chars(s);
    let r = if c.len() == 1 {
        c[0] == '>'
    } else if c.len() == 2 {
        (c[0] == '1' || c[0] == '2' || c[0] == '>') && c[1] == '>'
    } else if c.len() == 3 {
        (c[0] == '1' || c[0] == '2') && c[1] == '>' && c[2] == '>'
    } else {
        false
    };
    proof {
        if r {
            if c@.len() == 1 {
                assert(c@ =~= seq!['>']);
            } else if c@.len() == 2 {
                assert(c@ =~= seq![c@[0], '>']);
            } else {
                assert(c@ =~= seq![c@[0], '>', '>']);
            }
        }
    }
    r
}

/// What a scan for a redirection finds.
#[derive(Debug, PartialEq, Eq)]
pub enum RedirectScan {
    /// No word is an operator.
    Absent,
    /// The first operator is the last word: there is no file after it.
    MissingTarget,
    /// The first operator and the word after it.
    Found(Redirect),
}

/// Finds the first redirection operator in `args` and the word after it.
pub fn scan_redirect(args: &[String]) -> (r: RedirectScan)
    ensures
        match r {
            RedirectScan::Absent => has_no_operator(args@.map_values(|a: String| a@)),
            RedirectScan::MissingTarget => is_first_operator(
                args@.map_values(|a: String| a@),
                args@.len() - 1,
            ),
            RedirectScan::Found(rd) => {
                &&& is_first_operator(args@.map_values(|a: String| a@), rd.position as int)
                &&& rd.position + 1 < args@.len()
                &&& rd.operator@ == args@[rd.position as int]@
                &&& rd.file@ == args@[rd.position + 1]@
            },
        },
{
    let ghost words = args@.map_values(|a: String| a@);
    let mut i: usize = 0;
    while i < args.len()
        invariant
            i <= args@.len(),
            words == args@.map_values(|a: String| a@),
            forall|j: int| 0 <= j < i ==> !spec_is_redirect_operator(#[trigger] words[j]),
        decreases args@.len() - i,
    {
        if is_redirect_operator(args[i].as_str()) {
            assert(words[i as int] == args@[i as int]@);
            if i + 1 == args.len() {
                return RedirectScan::MissingTarget;
            }
            let operator = String::from_str(args[i].as_str());
            let file = String::from_str(args[i + 1].as_str());
            return RedirectScan::Found(Redirect { operator, file, position: i });
        }
        assert(words[i as int] == args@[i as int]@);
        i = i + 1;
    }
    RedirectScan::Absent
}

/// The redirection of a command: the first operator among `args` with the
/// word after it, or `None` when there is no operator or nothing follows it
/// (the latter is a syntax error, which `scan_redirect` tells apart).
pub fn redirect(args: &[String]) -> (r: Option<Redirect>)
    ensures
        match r {
            None => has_no_operator(args@.map_values(|a: String| a@)) || is_first_operator(
                args@.map_values(|a: String| a@),
                args@.len() - 1,
            ),
            Some(rd) => {
                &&& is_first_operator(args@.map_values(|a: String| a@), rd.position as int)
                &&& rd.position + 1 < args@.len()
                &&& rd.operator@ == args@[rd.position as int]@
                &&& rd.file@ == args@[rd.position + 1]@
            },
        },
{
    match scan_redirect(args) {
        RedirectScan::Found(rd) => Some(rd),
        _ => None,
    }
}

} // verus!
