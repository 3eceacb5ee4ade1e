//! Properties of the shell that hold for every input.
use vstd::prelude::*;
use crate::parser::{initial_state, spec_parse_args, split_words, ParseState};
use crate::expand::{
    braced_piece, dollar_piece, expand_all, expand_word, is_name_char, name_len, value_or_empty,
    visible,
};
use crate::parser::{has_no_operator, is_first_operator, spec_is_redirect_operator};
use crate::shell::{
    before_redirect, command_words, complete_step, expanded_words, found_redirect,
    done_listing, is_background, job_line, job_marker, lemma_first_operator, lemma_new_job_id, id_taken,
    new_job_id, still_running, unfinished, lemma_no_operator, missing_target, redirect_target, spec_evaluate, valid_identifier, ShellView,
};
use crate::effects::{echo_effects, prints, report_effects, spec_output, EffectView};
use crate::builtins::{entries_arg, history_effects};
use crate::evaluator::{evaluator_dispatch, spec_evaluate_command};
use crate::shell::{shell_dispatch, syntax_error_text};
use crate::completer::{completion_builtins, spec_candidates, has_prefix, last_word, lemma_last_word_len, matching};
use crate::history::{numbered_lines, tail_lines, append_marker, append_start, last_match, file_text, history_lines, non_empty, raw_lines, strip_cr};
use crate::text::{is_decimal_digit, spec_contains, spec_alphanumeric, concat, join, index_of, lemma_index_of, matches_at, spec_is_whitespace, split_by};

verus! {

/// A character with no special meaning outside quotes.
pub open spec fn is_ordinary(c: char) -> bool {
    !spec_is_whitespace(c) && c != '\'' && c != '"' && c != '\\' && c != '>'
}

/// A character that neither quotes nor escapes.
pub open spec fn is_unquoted(c: char) -> bool {
    c != '\'' && c != '"' && c != '\\'
}

/// A state outside quotes and escapes.
pub open spec fn is_neutral(st: ParseState) -> bool {
    !st.single && !st.double && !st.escaped
}

/// Words already found do not affect the words still to come.
pub proof fn lemma_prefix_args(rest: Seq<char>, st: ParseState, p: Seq<Seq<char>>)
    ensures
        split_words(rest, ParseState { args: p + st.args, ..st }) == p + split_words(rest, st),
    decreases rest.len(),
{
    let st2 = ParseState { args: p + st.args, ..st };
    if rest.len() == 0 {
        if st.current.len() > 0 {
            assert((p + st.args).push(st.current) =~= p + st.args.push(st.current));
        }
    } else {
        let c = rest[0];
        let tail = rest.drop_first();
        if st.escaped {
            lemma_prefix_args(
                tail,
                ParseState { escaped: false, current: st.current + crate::parser::escaped_text(st.double, c), ..st },
                p,
            );
        } else if c == '>' && !st.single && !st.double {
            if tail.len() > 0 && tail[0] == '>' {
                let cur = st.current + seq!['>', '>'];
                assert((p + st.args).push(cur) =~= p + st.args.push(cur));
                lemma_prefix_args(
                    tail.drop_first(),
                    ParseState { args: st.args.push(cur), current: seq![], ..st },
                    p,
                );
            } else {
                let cur = st.current.push('>');
                assert((p + st.args).push(cur) =~= p + st.args.push(cur));
                lemma_prefix_args(tail, ParseState { args: st.args.push(cur), current: seq![], ..st }, p);
            }
        } else if c == '\\' {
            if st.single {
                lemma_prefix_args(tail, ParseState { current: st.current.push(c), ..st }, p);
            } else {
                lemma_prefix_args(tail, ParseState { escaped: true, ..st }, p);
            }
        } else if c == '\'' && !st.double {
            lemma_prefix_args(tail, ParseState { single: !st.single, ..st }, p);
        } else if c == '"' && !st.single {
            lemma_prefix_args(tail, ParseState { double: !st.double, ..st }, p);
        } else if spec_is_whitespace(c) && !st.single && !st.double {
            if st.current.len() > 0 {
                assert((p + st.args).push(st.current) =~= p + st.args.push(st.current));
                lemma_prefix_args(
                    tail,
                    ParseState { args: st.args.push(st.current), current: seq![], ..st },
                    p,
                );
            } else {
                lemma_prefix_args(tail, st, p);
            }
        } else {
            lemma_prefix_args(tail, ParseState { current: st.current.push(c), ..st }, p);
        }
    }
}

/// Every word in `ws` is non-empty.
pub open spec fn all_nonempty(ws: Seq<Seq<char>>) -> bool {
    forall|i: int| 0 <= i < ws.len() ==> #[trigger] ws[i].len() > 0
}

/// Adding a non-empty word keeps every word non-empty.
proof fn lemma_push_nonempty(ws: Seq<Seq<char>>, w: Seq<char>)
    requires
        all_nonempty(ws),
        w.len() > 0,
    ensures
        all_nonempty(ws.push(w)),
{
    assert forall|i: int| 0 <= i < ws.push(w).len() implies #[trigger] ws.push(w)[i].len() > 0 by {
        if i < ws.len() {
            assert(ws.push(w)[i] == ws[i]);
        }
    }
}

/// Every word the splitter yields is non-empty, given that those found so
/// far are.
pub proof fn lemma_words_nonempty(rest: Seq<char>, st: ParseState)
    requires
        all_nonempty(st.args),
    ensures
        all_nonempty(split_words(rest, st)),
    decreases rest.len(),
{
    if rest.len() == 0 {
        if st.current.len() > 0 {
            lemma_push_nonempty(st.args, st.current);
        }
    } else {
        let c = rest[0];
        let tail = rest.drop_first();
        if st.escaped {
            lemma_words_nonempty(
                tail,
                ParseState { escaped: false, current: st.current + crate::parser::escaped_text(st.double, c), ..st },
            );
        } else if c == '>' && !st.single && !st.double {
            if tail.len() > 0 && tail[0] == '>' {
                let cur = st.current + seq!['>', '>'];
                lemma_push_nonempty(st.args, cur);
                lemma_words_nonempty(
                    tail.drop_first(),
                    ParseState { args: st.args.push(cur), current: seq![], ..st },
                );
            } else {
                let cur = st.current.push('>');
                lemma_push_nonempty(st.args, cur);
                lemma_words_nonempty(tail, ParseState { args: st.args.push(cur), current: seq![], ..st });
            }
        } else if c == '\\' {
            if st.single {
                lemma_words_nonempty(tail, ParseState { current: st.current.push(c), ..st });
            } else {
                lemma_words_nonempty(tail, ParseState { escaped: true, ..st });
            }
        } else if c == '\'' && !st.double {
            lemma_words_nonempty(tail, ParseState { single: !st.single, ..st });
        } else if c == '"' && !st.single {
            lemma_words_nonempty(tail, ParseState { double: !st.double, ..st });
        } else if spec_is_whitespace(c) && !st.single && !st.double {
            if st.current.len() > 0 {
                lemma_push_nonempty(st.args, st.current);
                lemma_words_nonempty(tail, ParseState { args: st.args.push(st.current), current: seq![], ..st });
            } else {
                lemma_words_nonempty(tail, st);
            }
        } else {
            lemma_words_nonempty(tail, ParseState { current: st.current.push(c), ..st });
        }
    }
}

/// `parse_args` never yields an empty word.
pub proof fn law_parse_words_nonempty(input: Seq<char>)
    ensures
        all_nonempty(spec_parse_args(input)),
{
    lemma_words_nonempty(input, initial_state());
}


/// The number of characters in all the words together.
pub open spec fn total_len(ws: Seq<Seq<char>>) -> nat
    decreases ws.len(),
{
    if ws.len() == 0 {
        0
    } else {
        total_len(ws.drop_last()) + ws.last().len()
    }
}

/// Adding a word adds its length.
proof fn lemma_total_len_push(ws: Seq<Seq<char>>, w: Seq<char>)
    ensures
        total_len(ws.push(w)) == total_len(ws) + w.len(),
{
    assert(ws.push(w).drop_last() =~= ws);
}

/// The words still to come hold no more characters than remain, plus the
/// pending word, plus one for a pending `\` (an escape inside double quotes
/// may keep the backslash).
proof fn lemma_words_len(rest: Seq<char>, st: ParseState)
    ensures
        total_len(split_words(rest, st)) <= total_len(st.args) + st.current.len() + rest.len() + (
        if st.escaped {
            1int
        } else {
            0int
        }),
    decreases rest.len(),
{
    if rest.len() == 0 {
        if st.current.len() > 0 {
            lemma_total_len_push(st.args, st.current);
        }
    } else {
        let c = rest[0];
        let tail = rest.drop_first();
        if st.escaped {
            lemma_words_len(
                tail,
                ParseState { escaped: false, current: st.current + crate::parser::escaped_text(st.double, c), ..st },
            );
        } else if c == '>' && !st.single && !st.double {
            if tail.len() > 0 && tail[0] == '>' {
                let cur = st.current + seq!['>', '>'];
                lemma_total_len_push(st.args, cur);
                lemma_words_len(tail.drop_first(), ParseState { args: st.args.push(cur), current: seq![], ..st });
            } else {
                let cur = st.current.push('>');
                lemma_total_len_push(st.args, cur);
                lemma_words_len(tail, ParseState { args: st.args.push(cur), current: seq![], ..st });
            }
        } else if c == '\\' {
            if st.single {
                lemma_words_len(tail, ParseState { current: st.current.push(c), ..st });
            } else {
                lemma_words_len(tail, ParseState { escaped: true, ..st });
            }
        } else if c == '\'' && !st.double {
            lemma_words_len(tail, ParseState { single: !st.single, ..st });
        } else if c == '"' && !st.single {
            lemma_words_len(tail, ParseState { double: !st.double, ..st });
        } else if spec_is_whitespace(c) && !st.single && !st.double {
            if st.current.len() > 0 {
                lemma_total_len_push(st.args, st.current);
                lemma_words_len(tail, ParseState { args: st.args.push(st.current), current: seq![], ..st });
            } else {
                lemma_words_len(tail, st);
            }
        } else {
            lemma_words_len(tail, ParseState { current: st.current.push(c), ..st });
        }
    }
}

/// The words of a line hold no more characters, all together, than the line.
pub proof fn law_parse_words_fit(input: Seq<char>)
    ensures
        total_len(spec_parse_args(input)) <= input.len(),
{
    lemma_words_len(input, initial_state());
}

/// Outside quotes, ordinary characters just extend the pending word.
pub proof fn lemma_ordinary_run(a: Seq<char>, r: Seq<char>, st: ParseState)
    requires
        is_neutral(st),
        forall|i: int| 0 <= i < a.len() ==> is_ordinary(#[trigger] a[i]),
    ensures
        split_words(a + r, st) == split_words(r, ParseState { current: st.current + a, ..st }),
    decreases a.len(),
{
    if a.len() == 0 {
        assert(a + r =~= r);
        assert(st.current + a =~= st.current);
        assert(ParseState { current: st.current + a, ..st } == st);
    } else {
        let x = a[0];
        assert((a + r)[0] == x);
        assert((a + r).drop_first() =~= a.drop_first() + r);
        let st1 = ParseState { current: st.current.push(x), ..st };
        lemma_ordinary_run(a.drop_first(), r, st1);
        assert(st.current.push(x) + a.drop_first() =~= st.current + a);
    }
}

/// A word of ordinary characters is parsed as itself.
pub proof fn law_parse_plain_word(w: Seq<char>)
    requires
        w.len() > 0,
        forall|i: int| 0 <= i < w.len() ==> is_ordinary(#[trigger] w[i]),
    ensures
        spec_parse_args(w) == seq![w],
{
    let empty: Seq<char> = seq![];
    assert(w + empty =~= w);
    lemma_ordinary_run(w, empty, initial_state());
    assert(Seq::<char>::empty() + w =~= w);
}

/// A state outside quotes whose found words are `p` and with nothing
/// pending.
pub open spec fn fresh_state(p: Seq<Seq<char>>) -> ParseState {
    ParseState { single: false, double: false, escaped: false, args: p, current: seq![] }
}

/// After white space outside quotes, the rest is parsed on its own.
pub proof fn lemma_space_splits(a: Seq<char>, c: char, b: Seq<char>, st: ParseState)
    requires
        is_neutral(st),
        spec_is_whitespace(c),
        forall|i: int| 0 <= i < a.len() ==> is_unquoted(#[trigger] a[i]),
    ensures
        split_words(a + seq![c] + b, st) == split_words(a, st) + spec_parse_args(b),
    decreases a.len(),
{
    if a.len() == 0 {
        assert(a + seq![c] + b =~= seq![c] + b);
        assert((seq![c] + b).drop_first() =~= b);
        let flushed = if st.current.len() > 0 { st.args.push(st.current) } else { st.args };
        let empty: Seq<Seq<char>> = seq![];
        assert(flushed + empty =~= flushed);
        assert(ParseState { args: flushed + initial_state().args, ..initial_state() } == fresh_state(
            flushed,
        ));
        lemma_prefix_args(b, initial_state(), flushed);
        if st.current.len() > 0 {
            assert(ParseState { args: st.args.push(st.current), current: seq![], ..st } == fresh_state(
                flushed,
            ));
        } else {
            assert(st.current =~= Seq::<char>::empty());
            assert(st == fresh_state(flushed));
        }
    } else {
        let x = a[0];
        let a1 = a.drop_first();
        assert((a + seq![c] + b)[0] == x);
        assert((a + seq![c] + b).drop_first() =~= a1 + seq![c] + b);
        assert(a[0] == x);
        assert forall|i: int| 0 <= i < a1.len() implies is_unquoted(#[trigger] a1[i]) by {
            assert(a1[i] == a[i + 1]);
        }
        if x == '>' {
            if a1.len() > 0 && a1[0] == '>' {
                let a2 = a1.drop_first();
                assert((a1 + seq![c] + b)[0] == '>');
                assert((a1 + seq![c] + b).drop_first() =~= a2 + seq![c] + b);
                assert forall|i: int| 0 <= i < a2.len() implies is_unquoted(#[trigger] a2[i]) by {
                    assert(a2[i] == a1[i + 1]);
                }
                lemma_space_splits(
                    a2,
                    c,
                    b,
                    ParseState {
                        args: st.args.push(st.current + seq!['>', '>']),
                        current: seq![],
                        ..st
                    },
                );
            } else {
                if a1.len() > 0 {
                    assert((a1 + seq![c] + b)[0] == a1[0]);
                } else {
                    assert((a1 + seq![c] + b)[0] == c);
                }
                lemma_space_splits(
                    a1,
                    c,
                    b,
                    ParseState { args: st.args.push(st.current.push('>')), current: seq![], ..st },
                );
            }
        } else if spec_is_whitespace(x) {
            if st.current.len() > 0 {
                lemma_space_splits(a1, c, b, ParseState { args: st.args.push(st.current), current: seq![], ..st });
            } else {
                lemma_space_splits(a1, c, b, st);
            }
        } else {
            lemma_space_splits(a1, c, b, ParseState { current: st.current.push(x), ..st });
        }
    }
}

/// Unquoted white space separates words: when `a` holds no quotes or
/// backslashes, the words of `a`, a white-space character, then `b`
/// are the words of `a` followed by the words of `b`.
pub proof fn law_parse_space_concat(a: Seq<char>, c: char, b: Seq<char>)
    requires
        spec_is_whitespace(c),
        forall|i: int| 0 <= i < a.len() ==> is_unquoted(#[trigger] a[i]),
    ensures
        spec_parse_args(a + seq![c] + b) == spec_parse_args(a) + spec_parse_args(b),
{
    lemma_space_splits(a, c, b, initial_state());
}

/// Inside single quotes, every character but `'` is literal.
pub proof fn lemma_single_quoted(t: Seq<char>, r: Seq<char>, st: ParseState)
    requires
        st.single,
        !st.double,
        !st.escaped,
        forall|i: int| 0 <= i < t.len() ==> #[trigger] t[i] != '\'',
    ensures
        split_words(t + r, st) == split_words(r, ParseState { current: st.current + t, ..st }),
    decreases t.len(),
{
    if t.len() == 0 {
        assert(t + r =~= r);
        assert(st.current + t =~= st.current);
        assert(ParseState { current: st.current + t, ..st } == st);
    } else {
        let x = t[0];
        assert((t + r)[0] == x);
        assert((t + r).drop_first() =~= t.drop_first() + r);
        lemma_single_quoted(t.drop_first(), r, ParseState { current: st.current.push(x), ..st });
        assert(st.current.push(x) + t.drop_first() =~= st.current + t);
    }
}

/// A single-quoted text without `'` is one word, exactly the text.
pub proof fn law_parse_single_quoted(t: Seq<char>)
    requires
        t.len() > 0,
        forall|i: int| 0 <= i < t.len() ==> #[trigger] t[i] != '\'',
    ensures
        spec_parse_args(seq!['\''] + t + seq!['\'']) == seq![t],
{
    let s = seq!['\''] + t + seq!['\''];
    assert(s[0] == '\'');
    assert(s.drop_first() =~= t + seq!['\'']);
    let st1 = ParseState { single: true, ..initial_state() };
    lemma_single_quoted(t, seq!['\''], st1);
    assert(Seq::<char>::empty() + t =~= t);
    let st2 = ParseState { current: t, ..st1 };
    assert(seq!['\''].drop_first() =~= Seq::<char>::empty());
    assert(split_words(seq!['\''], st2) == split_words(
        Seq::<char>::empty(),
        ParseState { single: false, ..st2 },
    ));
}

/// Inside double quotes, every character but `"` and `\` is literal.
pub proof fn lemma_double_quoted(t: Seq<char>, r: Seq<char>, st: ParseState)
    requires
        !st.single,
        st.double,
        !st.escaped,
        forall|i: int| 0 <= i < t.len() ==> #[trigger] t[i] != '"' && t[i] != '\\',
    ensures
        split_words(t + r, st) == split_words(r, ParseState { current: st.current + t, ..st }),
    decreases t.len(),
{
    if t.len() == 0 {
        assert(t + r =~= r);
        assert(st.current + t =~= st.current);
        assert(ParseState { current: st.current + t, ..st } == st);
    } else {
        let x = t[0];
        assert((t + r)[0] == x);
        assert((t + r).drop_first() =~= t.drop_first() + r);
        lemma_double_quoted(t.drop_first(), r, ParseState { current: st.current.push(x), ..st });
        assert(st.current.push(x) + t.drop_first() =~= st.current + t);
    }
}

/// A double-quoted text without `"` or `\` is one word, exactly the text,
/// white space and all.
pub proof fn law_parse_double_quoted(t: Seq<char>)
    requires
        t.len() > 0,
        forall|i: int| 0 <= i < t.len() ==> #[trigger] t[i] != '"' && t[i] != '\\',
    ensures
        spec_parse_args(seq!['"'] + t + seq!['"']) == seq![t],
{
    let s = seq!['"'] + t + seq!['"'];
    assert(s[0] == '"');
    assert(s.drop_first() =~= t + seq!['"']);
    let st1 = ParseState { double: true, ..initial_state() };
    lemma_double_quoted(t, seq!['"'], st1);
    assert(Seq::<char>::empty() + t =~= t);
    let st2 = ParseState { current: t, ..st1 };
    assert(seq!['"'].drop_first() =~= Seq::<char>::empty());
    assert(split_words(seq!['"'], st2) == split_words(
        Seq::<char>::empty(),
        ParseState { double: false, ..st2 },
    ));
}


/// An occurrence with none before it is the first one.
pub proof fn lemma_index_of_first(s: Seq<char>, pat: Seq<char>, i: int)
    requires
        0 <= i,
        i + pat.len() <= s.len(),
        matches_at(s, pat, i),
        forall|j: int| 0 <= j < i ==> !#[trigger] matches_at(s, pat, j),
    ensures
        index_of(s, pat) == Some(i as nat),
{
    lemma_index_of(s, pat);
}

/// Concatenation from the front.
pub proof fn lemma_concat_front(x: Seq<char>, rest: Seq<Seq<char>>)
    ensures
        concat(seq![x] + rest) == x + concat(rest),
    decreases rest.len(),
{
    if rest.len() == 0 {
        assert(seq![x] + rest =~= seq![x]);
        assert(seq![x].drop_last() =~= Seq::<Seq<char>>::empty());
        assert(x + concat(rest) =~= x);
        assert(Seq::<char>::empty() + x =~= x);
        assert(seq![x].last() == x);
        assert(concat(seq![x]) == concat(seq![x].drop_last()) + x);
    } else {
        lemma_concat_front(x, rest.drop_last());
        assert((seq![x] + rest).drop_last() =~= seq![x] + rest.drop_last());
        assert((seq![x] + rest).last() == rest.last());
        assert(x + concat(rest.drop_last()) + rest.last() =~= x + (concat(rest.drop_last())
            + rest.last()));
    }
}

/// A line without a newline, then a newline: the first piece is the line.
pub proof fn lemma_split_line(l: Seq<char>, rest: Seq<char>)
    requires
        forall|i: int| 0 <= i < l.len() ==> #[trigger] l[i] != '\n',
    ensures
        split_by(l + seq!['\n'] + rest, seq!['\n']) == seq![l] + split_by(rest, seq!['\n']),
{
    let s = l + seq!['\n'] + rest;
    let nl = seq!['\n'];
    assert(s.subrange(l.len() as int, l.len() + 1 as int) =~= nl);
    assert forall|j: int| 0 <= j < l.len() implies !#[trigger] matches_at(s, nl, j) by {
        assert(s.subrange(j, j + 1)[0] == l[j]);
    }
    lemma_index_of_first(s, nl, l.len() as int);
    assert(s.take(l.len() as int) =~= l);
    assert(s.skip(l.len() + 1 as int) =~= rest);
}

/// Lines, each followed by a newline, split back into the lines and a last
/// empty piece.
pub proof fn lemma_split_lines(h: Seq<Seq<char>>)
    requires
        forall|k: int, i: int| 0 <= k < h.len() && 0 <= i < h[k].len() ==> #[trigger] h[k][i] != '\n',
    ensures
        split_by(concat(h.map_values(|l: Seq<char>| l.push('\n'))), seq!['\n']) == h + seq![
            Seq::<char>::empty(),
        ],
    decreases h.len(),
{
    let f = |l: Seq<char>| l.push('\n');
    if h.len() == 0 {
        assert(h.map_values(f) =~= Seq::<Seq<char>>::empty());
        let e: Seq<char> = seq![];
        assert(index_of(e, seq!['\n']) is None);
        assert(h + seq![e] =~= seq![e]);
    } else {
        let t = h.drop_first();
        assert(h.map_values(f) =~= seq![h[0].push('\n')] + t.map_values(f));
        lemma_concat_front(h[0].push('\n'), t.map_values(f));
        assert(h[0].push('\n') + concat(t.map_values(f)) =~= h[0] + seq!['\n'] + concat(
            t.map_values(f),
        ));
        assert forall|i: int| 0 <= i < h[0].len() implies #[trigger] h[0][i] != '\n' by {
            assert(h[0][i] == h[0][i]);
        }
        lemma_split_line(h[0], concat(t.map_values(f)));
        assert forall|k: int, i: int| 0 <= k < t.len() && 0 <= i < t[k].len() implies #[trigger] t[k][i]
            != '\n' by {
            assert(t[k] == h[k + 1]);
        }
        lemma_split_lines(t);
        assert(seq![h[0]] + (t + seq![Seq::<char>::empty()]) =~= h + seq![Seq::<char>::empty()]);
    }
}

/// Keeping the non-empty lines of lines that are all non-empty keeps them all.
pub proof fn lemma_non_empty_all(ls: Seq<Seq<char>>)
    requires
        forall|k: int| 0 <= k < ls.len() ==> #[trigger] ls[k].len() > 0,
    ensures
        non_empty(ls) == ls,
    decreases ls.len(),
{
    if ls.len() > 0 {
        lemma_non_empty_all(ls.drop_last());
        assert(ls.drop_last().push(ls.last()) =~= ls);
    }
}

/// Reading back what `history -w` wrote gives the history again, when every
/// entry is non-empty, holds no newline and does not end with a carriage
/// return.
pub proof fn law_history_write_read(h: Seq<Seq<char>>)
    requires
        forall|k: int| 0 <= k < h.len() ==> #[trigger] h[k].len() > 0,
        forall|k: int, i: int| 0 <= k < h.len() && 0 <= i < h[k].len() ==> #[trigger] h[k][i] != '\n',
        forall|k: int| 0 <= k < h.len() ==> #[trigger] h[k].last() != '\r',
    ensures
        history_lines(file_text(h, 0)) == h,
{
    assert(h.skip(0) =~= h);
    lemma_split_lines(h);
    let ps = h + seq![Seq::<char>::empty()];
    let raw = raw_lines(file_text(h, 0));
    assert(raw =~= ps) by {
        assert forall|i: int| 0 <= i < raw.len() implies raw[i] == ps[i] by {
            if i < h.len() {
                assert(strip_cr(ps[i]) == ps[i]);
            }
        }
    }
    lemma_non_empty_all(h);
    assert(ps.drop_last() =~= h);
}


/// `c` does not occur in `w`.
pub open spec fn lacks(w: Seq<char>, c: char) -> bool {
    forall|i: int| 0 <= i < w.len() ==> #[trigger] w[i] != c
}

/// A pattern starting with a character that `w` lacks does not occur in it.
pub proof fn lemma_lacks_no_match(w: Seq<char>, pat: Seq<char>)
    requires
        pat.len() > 0,
        lacks(w, pat[0]),
    ensures
        index_of(w, pat) is None,
{
    lemma_index_of(w, pat);
    if let Some(i) = index_of(w, pat) {
        assert(w.subrange(i as int, i + pat.len() as int)[0] == w[i as int]);
    }
}

/// A word without `$` is left as it is by expansion.
pub proof fn law_expand_plain_word(vars: Map<Seq<char>, Seq<char>>, w: Seq<char>)
    requires
        lacks(w, '$'),
    ensures
        expand_word(vars, w) == Some(w),
{
    lemma_lacks_no_match(w, seq!['$', '{']);
    lemma_lacks_no_match(w, seq!['$']);
}

/// Words without `$` are left as they are by expansion.
pub proof fn lemma_expand_all_plain(vars: Map<Seq<char>, Seq<char>>, ws: Seq<Seq<char>>)
    requires
        forall|k: int| 0 <= k < ws.len() ==> lacks(#[trigger] ws[k], '$'),
    ensures
        expand_all(vars, ws) == ws,
    decreases ws.len(),
{
    if ws.len() > 0 {
        lemma_expand_all_plain(vars, ws.drop_last());
        law_expand_plain_word(vars, ws.last());
        assert(ws.drop_last().push(ws.last()) =~= ws);
    }
}

/// Every redirection operator holds `>`.
pub proof fn lemma_operator_has_gt(w: Seq<char>)
    requires
        lacks(w, '>'),
    ensures
        !spec_is_redirect_operator(w),
{
    if w.len() >= 1 {
        assert(w[w.len() - 1] != '>');
    }
}

/// Words none of which is a redirection operator, the last not a lone `&`,
/// are the command as they are: no redirection, not in the background.
pub proof fn lemma_operator_free_command(args: Seq<Seq<char>>)
    requires
        args.len() > 0,
        has_no_operator(args),
        args.last() != seq!['&'],
    ensures
        !missing_target(args),
        found_redirect(args) is None,
        redirect_target(args) is None,
        before_redirect(args) == args,
        !is_background(args),
        command_words(args) == args,
{
    lemma_no_operator(args);
}

/// Words with no `>`, the last not a lone `&`, are the command as they are:
/// no redirection, not in the background.
pub proof fn lemma_plain_command(args: Seq<Seq<char>>)
    requires
        args.len() > 0,
        forall|k: int| 0 <= k < args.len() ==> lacks(#[trigger] args[k], '>'),
        args.last() != seq!['&'],
    ensures
        !missing_target(args),
        found_redirect(args) is None,
        redirect_target(args) is None,
        before_redirect(args) == args,
        !is_background(args),
        command_words(args) == args,
{
    assert forall|j: int| 0 <= j < args.len() implies !spec_is_redirect_operator(#[trigger] args[j]) by {
        lemma_operator_has_gt(args[j]);
    }
    lemma_operator_free_command(args);
}

/// Evaluating a command line leaves the history and the jobs as they are;
/// only `complete` and `declare` change the shell.
pub proof fn law_evaluate_keeps_history_and_jobs(
    st: ShellView,
    env: Map<Seq<char>, Seq<char>>,
    args: Seq<Seq<char>>,
)
    ensures
        spec_evaluate(st, env, args).0.history == st.history,
        spec_evaluate(st, env, args).0.jobs == st.jobs,
{
}

/// The character sequences of the builtin names differ, and none holds
/// `$`, `>` or is a lone `&`.
proof fn lemma_names()
    ensures
        "declare"@ == seq!['d', 'e', 'c', 'l', 'a', 'r', 'e'],
        "echo"@ == seq!['e', 'c', 'h', 'o'],
        "type"@ == seq!['t', 'y', 'p', 'e'],
        "pwd"@ == seq!['p', 'w', 'd'],
        "cd"@ == seq!['c', 'd'],
        "history"@ == seq!['h', 'i', 's', 't', 'o', 'r', 'y'],
        "complete"@ == seq!['c', 'o', 'm', 'p', 'l', 'e', 't', 'e'],
        "jobs"@ == seq!['j', 'o', 'b', 's'],
        "exit"@ == seq!['e', 'x', 'i', 't'],
        "-p"@ == seq!['-', 'p'],
        "-C"@ == seq!['-', 'C'],
        "-r"@ == seq!['-', 'r'],
        "-w"@ == seq!['-', 'w'],
{
    reveal_strlit("declare");
    reveal_strlit("echo");
    reveal_strlit("type");
    reveal_strlit("pwd");
    reveal_strlit("cd");
    reveal_strlit("history");
    reveal_strlit("complete");
    reveal_strlit("jobs");
    reveal_strlit("exit");
    reveal_strlit("-p");
    reveal_strlit("-C");
    reveal_strlit("-r");
    reveal_strlit("-w");
    assert("declare"@ =~= seq!['d', 'e', 'c', 'l', 'a', 'r', 'e']);
    assert("echo"@ =~= seq!['e', 'c', 'h', 'o']);
    assert("type"@ =~= seq!['t', 'y', 'p', 'e']);
    assert("pwd"@ =~= seq!['p', 'w', 'd']);
    assert("cd"@ =~= seq!['c', 'd']);
    assert("history"@ =~= seq!['h', 'i', 's', 't', 'o', 'r', 'y']);
    assert("complete"@ =~= seq!['c', 'o', 'm', 'p', 'l', 'e', 't', 'e']);
    assert("jobs"@ =~= seq!['j', 'o', 'b', 's']);
    assert("exit"@ =~= seq!['e', 'x', 'i', 't']);
    assert("-p"@ =~= seq!['-', 'p']);
    assert("-C"@ =~= seq!['-', 'C']);
    assert("-r"@ =~= seq!['-', 'r']);
    assert("-w"@ =~= seq!['-', 'w']);
}

/// A variable set with `declare NAME=VALUE` is what `declare -p NAME`
/// prints, for names without `$`, `>`, `=`, `&` and values without `$`
/// (those would be expanded, redirect, or split differently).
pub proof fn law_declare_then_print(
    st: ShellView,
    env: Map<Seq<char>, Seq<char>>,
    name: Seq<char>,
    value: Seq<char>,
)
    requires
        valid_identifier(name),
        lacks(name, '$'),
        lacks(name, '>'),
        lacks(name, '='),
        lacks(name, '&'),
        lacks(value, '$'),
        lacks(value, '>'),
    ensures
        ({
            let set = seq!["declare"@, name + seq!['='] + value];
            let show = seq!["declare"@, "-p"@, name];
            let st1 = spec_evaluate(st, env, set).0;
            &&& st1.variables == st.variables.insert(name, value)
            &&& spec_evaluate(st, env, set) == (ShellView {
                variables: st.variables.insert(name, value),
                ..st
            }, Seq::<EffectView>::empty())
            &&& spec_evaluate(st1, env, show) == (st1, seq![
                EffectView::Print("declare -- "@ + name + "=\""@ + value + "\""@),
            ])
        }),
{
    lemma_names();
    let word = name + seq!['='] + value;
    let set = seq!["declare"@, word];
    let show = seq!["declare"@, "-p"@, name];
    assert(lacks(word, '$'));
    assert(lacks(word, '>'));
    assert(word.last() != '&' || word.len() != 1);
    assert forall|k: int| 0 <= k < set.len() implies lacks(#[trigger] set[k], '>') by {}
    assert forall|k: int| 0 <= k < set.len() implies lacks(#[trigger] set[k], '$') by {}
    assert(set.last() != seq!['&']) by {
        assert(word[name.len() as int] == '=');
    }
    lemma_plain_command(set);
    lemma_expand_all_plain(visible(st.variables, env), set);
    // The name ends at the first `=`.
    let eq = seq!['='];
    assert(word.subrange(name.len() as int, name.len() + 1 as int) =~= eq);
    assert forall|j: int| 0 <= j < name.len() implies !#[trigger] matches_at(word, eq, j) by {
        assert(word.subrange(j, j + 1)[0] == name[j]);
    }
    lemma_index_of_first(word, eq, name.len() as int);
    assert(word.take(name.len() as int) =~= name);
    assert(word.skip(name.len() + 1 as int) =~= value);
    let st1 = spec_evaluate(st, env, set).0;
    assert(st1 == ShellView { variables: st.variables.insert(name, value), ..st });
    assert forall|k: int| 0 <= k < show.len() implies lacks(#[trigger] show[k], '>') by {}
    assert forall|k: int| 0 <= k < show.len() implies lacks(#[trigger] show[k], '$') by {}
    assert(show.last() != seq!['&']) by {
        if name == seq!['&'] {
            assert(name[0] == '&');
        }
    }
    lemma_plain_command(show);
    lemma_expand_all_plain(visible(st1.variables, env), show);
}


/// Name characters followed by a non-name character: the name is all of
/// the first part.
proof fn lemma_name_len_split(name: Seq<char>, rest: Seq<char>)
    requires
        forall|i: int| 0 <= i < name.len() ==> is_name_char(#[trigger] name[i]),
        rest.len() == 0 || !is_name_char(rest[0]),
    ensures
        name_len(name + rest) == name.len(),
    decreases name.len(),
{
    if name.len() == 0 {
        assert(name + rest =~= rest);
    } else {
        assert((name + rest)[0] == name[0]);
        assert((name + rest).drop_first() =~= name.drop_first() + rest);
        assert forall|i: int| 0 <= i < name.drop_first().len() implies is_name_char(
            #[trigger] name.drop_first()[i],
        ) by {
            assert(name.drop_first()[i] == name[i + 1]);
        }
        lemma_name_len_split(name.drop_first(), rest);
    }
}

/// `$NAME` followed by text that cannot continue a name expands to the
/// value of `NAME` (nothing when unset) followed by that text, for names of
/// name characters without `$` or `{` and text without `$`.
pub proof fn law_expand_dollar_name(
    vars: Map<Seq<char>, Seq<char>>,
    name: Seq<char>,
    rest: Seq<char>,
)
    requires
        forall|i: int| 0 <= i < name.len() ==> is_name_char(#[trigger] name[i]),
        lacks(name, '$'),
        lacks(name, '{'),
        lacks(rest, '$'),
        name.len() > 0 || rest.len() == 0,
        rest.len() == 0 || !is_name_char(rest[0]),
    ensures
        expand_word(vars, seq!['$'] + name + rest) == (if value_or_empty(vars, name).len()
            + rest.len() == 0 {
            None
        } else {
            Some(value_or_empty(vars, name) + rest)
        }),
{
    let p = name + rest;
    let w = seq!['$'] + p;
    assert(w =~= seq!['$'] + name + rest);
    let d = seq!['$'];
    let open = seq!['$', '{'];
    assert(lacks(p, '$')) by {
        assert forall|i: int| 0 <= i < p.len() implies #[trigger] p[i] != '$' by {
            if i < name.len() {
                assert(p[i] == name[i]);
            } else {
                assert(p[i] == rest[i - name.len()]);
            }
        }
    }
    lemma_index_of(w, open);
    if let Some(i) = index_of(w, open) {
        assert(w.subrange(i as int, i + 2 as int)[0] == w[i as int]);
        assert(w.subrange(i as int, i + 2 as int)[1] == w[i + 1 as int]);
        if i > 0 {
            assert(w[i as int] == p[i - 1]);
        } else {
            assert(w[1] == p[0]);
            assert(p[0] == name[0]);
        }
    }
    assert(w.take(1) =~= d);
    assert(index_of(w, d) == Some(0nat));
    assert(w.skip(1) =~= p);
    lemma_lacks_no_match(p, d);
    let parts = split_by(w, d);
    assert(w.take(0) =~= Seq::<char>::empty());
    assert(split_by(p, d) == seq![p]);
    assert(parts =~= seq![Seq::<char>::empty(), p]);
    lemma_name_len_split(name, rest);
    assert(p.take(name.len() as int) =~= name);
    assert(p.skip(name.len() as int) =~= rest);
    let v = value_or_empty(vars, name) + rest;
    assert(dollar_piece(vars, p) == v);
    let f = |q: Seq<char>| dollar_piece(vars, q);
    assert(parts.drop_first().map_values(f) =~= seq![v]);
    lemma_concat_front(v, Seq::<Seq<char>>::empty());
    assert(seq![v] + Seq::<Seq<char>>::empty() =~= seq![v]);
    assert(v + Seq::<char>::empty() =~= v);
    assert(Seq::<char>::empty() + v =~= v);
}

/// `echo $NAME` prints the value that `NAME` has, for names made of name
/// characters, without `$`, `{` or `>`.
pub proof fn law_echo_variable(st: ShellView, env: Map<Seq<char>, Seq<char>>, name: Seq<char>)
    requires
        forall|i: int| 0 <= i < name.len() ==> is_name_char(#[trigger] name[i]),
        lacks(name, '$'),
        lacks(name, '{'),
        lacks(name, '>'),
    ensures
        spec_evaluate(st, env, seq!["echo"@, seq!['$'] + name]) == (st, seq![
            EffectView::Print(value_or_empty(visible(st.variables, env), name)),
        ]),
{
    lemma_names();
    let vis = visible(st.variables, env);
    let value = value_or_empty(vis, name);
    let w = seq!['$'] + name;
    let args = seq!["echo"@, w];
    assert(lacks(w, '>')) by {
        assert forall|i: int| 0 <= i < w.len() implies #[trigger] w[i] != '>' by {
            if i > 0 {
                assert(w[i] == name[i - 1]);
            }
        }
    }
    assert forall|k: int| 0 <= k < args.len() implies lacks(#[trigger] args[k], '>') by {}
    assert(args.last() != seq!['&']) by {
        assert(w[0] == '$');
    }
    lemma_plain_command(args);
    law_expand_dollar_name(vis, name, Seq::<char>::empty());
    assert(seq!['$'] + name + Seq::<char>::empty() =~= w);
    assert(value + Seq::<char>::empty() =~= value);
    law_expand_plain_word(vis, "echo"@);
    let front = seq!["echo"@];
    assert(args.drop_last() =~= front);
    assert(front.drop_last() =~= Seq::<Seq<char>>::empty());
    let argv = expanded_words(st, env, args);
    assert(expand_all(vis, Seq::<Seq<char>>::empty()) == Seq::<Seq<char>>::empty());
    assert(front.last() == "echo"@);
    assert(expand_all(vis, front) =~= front);
    assert(args.last() == w);
    assert(argv == expand_all(vis, args));
    if value.len() == 0 {
        assert(argv =~= front);
        assert(argv.drop_first() =~= Seq::<Seq<char>>::empty());
        assert(join(argv.drop_first(), " "@) =~= value);
    } else {
        assert(argv =~= front.push(value));
        assert(argv.drop_first() =~= seq![value]);
    }
}

/// An acceptable `declare` name is made of name characters.
proof fn lemma_identifier_name_chars(name: Seq<char>)
    requires
        valid_identifier(name),
    ensures
        forall|i: int| 0 <= i < name.len() ==> is_name_char(#[trigger] name[i]),
{
    assert forall|i: int| 0 <= i < name.len() implies is_name_char(#[trigger] name[i]) by {
        assert(spec_alphanumeric(name[i]) || name[i] == '_');
    }
}

/// After `declare NAME=VALUE`, `echo $NAME` prints the value, for names
/// without `$`, `{`, `>`, `=`, `&` and values without `$` or `>`.
pub proof fn law_declare_then_echo(
    st: ShellView,
    env: Map<Seq<char>, Seq<char>>,
    name: Seq<char>,
    value: Seq<char>,
)
    requires
        valid_identifier(name),
        lacks(name, '$'),
        lacks(name, '{'),
        lacks(name, '>'),
        lacks(name, '='),
        lacks(name, '&'),
        lacks(value, '$'),
        lacks(value, '>'),
    ensures
        ({
            let st1 = spec_evaluate(st, env, seq!["declare"@, name + seq!['='] + value]).0;
            spec_evaluate(st1, env, seq!["echo"@, seq!['$'] + name]) == (st1, seq![
                EffectView::Print(value),
            ])
        }),
{
    law_declare_then_print(st, env, name, value);
    let st1 = spec_evaluate(st, env, seq!["declare"@, name + seq!['='] + value]).0;
    lemma_identifier_name_chars(name);
    law_echo_variable(st1, env, name);
    assert(value_or_empty(visible(st1.variables, env), name) == value);
}

/// `complete -C SCRIPT NAME` registers the script, `complete -p NAME`
/// prints it, and `complete -r NAME` forgets it.
pub proof fn law_complete_register_print_remove(st: ShellView, script: Seq<char>, name: Seq<char>)
    ensures
        ({
            let st1 = complete_step(st, seq!["complete"@, "-C"@, script, name]).0;
            let st2 = complete_step(st1, seq!["complete"@, "-r"@, name]).0;
            &&& complete_step(st1, seq!["complete"@, "-p"@, name]) == (st1, seq![
                EffectView::Print("complete -C '"@ + script + "' "@ + name),
            ])
            &&& complete_step(st2, seq!["complete"@, "-p"@, name]) == (st2, seq![
                EffectView::Print("complete: "@ + name + ": no completion specification"@),
            ])
        }),
{
    lemma_names();
}


/// A redirection operator and a file after the words of a command send the
/// command's output to that file; the words are the command.
pub proof fn law_redirect_split(words: Seq<Seq<char>>, op: Seq<char>, file: Seq<char>)
    requires
        has_no_operator(words),
        spec_is_redirect_operator(op),
    ensures
        ({
            let args = words + seq![op, file];
            &&& !missing_target(args)
            &&& before_redirect(args) == words
            &&& redirect_target(args) == spec_output((op, file, words.len() as usize))
        }),
{
    let args = words + seq![op, file];
    assert forall|j: int| 0 <= j < words.len() implies !spec_is_redirect_operator(#[trigger] args[j]) by {
        assert(args[j] == words[j]);
    }
    assert(args[words.len() as int] == op);
    assert(is_first_operator(args, words.len() as int));
    lemma_first_operator(args, words.len() as int);
    assert(args.take(words.len() as int) =~= words);
    assert(args[words.len() + 1 as int] == file);
}

/// A redirection operator with no file after it is a syntax error; the
/// whole line is then the command.
pub proof fn law_redirect_missing_target(words: Seq<Seq<char>>, op: Seq<char>)
    requires
        has_no_operator(words),
        spec_is_redirect_operator(op),
    ensures
        missing_target(words.push(op)),
        before_redirect(words.push(op)) == words.push(op),
        redirect_target(words.push(op)) is None,
{
    let args = words.push(op);
    assert forall|j: int| 0 <= j < words.len() implies !spec_is_redirect_operator(#[trigger] args[j]) by {
        assert(args[j] == words[j]);
    }
    assert(is_first_operator(args, words.len() as int));
    lemma_first_operator(args, words.len() as int);
}

/// Entries that are not `m` after a match do not move the last match.
proof fn lemma_last_match_append(a: Seq<Seq<char>>, b: Seq<Seq<char>>, m: Seq<char>)
    requires
        forall|k: int| 0 <= k < b.len() ==> #[trigger] b[k] != m,
    ensures
        last_match(a + b, m) == last_match(a, m),
    decreases b.len(),
{
    if b.len() > 0 {
        assert((a + b).drop_last() =~= a + b.drop_last());
        assert((a + b).last() == b[b.len() - 1]);
        lemma_last_match_append(a, b.drop_last(), m);
    } else {
        assert(a + b =~= a);
    }
}

/// `history -a FILE` resumes where the previous `history -a FILE` stopped:
/// when the history up to that command is `h1` and the entries since are
/// `more` (the last being the new command), only `more` is written.
pub proof fn law_history_append_resumes(h1: Seq<Seq<char>>, more: Seq<Seq<char>>, file: Seq<char>)
    requires
        h1.len() > 0,
        h1.last() == append_marker(file),
        more.len() > 0,
        forall|k: int| 0 <= k < more.len() - 1 ==> #[trigger] more[k] != append_marker(file),
    ensures
        append_start(h1 + more, file) == h1.len(),
{
    let m = append_marker(file);
    assert((h1 + more).drop_last() =~= h1 + more.drop_last());
    assert forall|k: int| 0 <= k < more.drop_last().len() implies #[trigger] more.drop_last()[k] != m by {
        assert(more.drop_last()[k] == more[k]);
    }
    lemma_last_match_append(h1, more.drop_last(), m);
}

/// Every completion starts with the text being completed and inserts the
/// command followed by a space.
pub proof fn law_completions_match(commands: Seq<Seq<char>>, input: Seq<char>, k: int)
    requires
        0 <= k <= commands.len(),
    ensures
        forall|i: int|
            0 <= i < matching(commands, input, k).len() ==> has_prefix(
                #[trigger] matching(commands, input, k)[i].0,
                input,
            ) && matching(commands, input, k)[i].1 == matching(commands, input, k)[i].0 + " "@,
    decreases k,
{
    if k > 0 {
        law_completions_match(commands, input, k - 1);
        let prev = matching(commands, input, k - 1);
        if has_prefix(commands[k - 1], input) {
            let cur = prev.push((commands[k - 1], commands[k - 1] + " "@));
            assert forall|i: int| 0 <= i < cur.len() implies has_prefix(#[trigger] cur[i].0, input)
                && cur[i].1 == cur[i].0 + " "@ by {
                if i < prev.len() {
                    assert(cur[i] == prev[i]);
                }
            }
        }
    }
}


/// Every character of `s` is ordinary or white space.
pub open spec fn plain_text(s: Seq<char>) -> bool {
    forall|i: int| 0 <= i < s.len() ==> is_ordinary(#[trigger] s[i]) || spec_is_whitespace(s[i])
}

/// Every word is non-empty and made of ordinary characters.
pub open spec fn plain_words(ws: Seq<Seq<char>>) -> bool {
    forall|k: int|
        0 <= k < ws.len() ==> #[trigger] ws[k].len() > 0 && (forall|i: int|
            0 <= i < ws[k].len() ==> is_ordinary(#[trigger] ws[k][i]))
}

/// Plain words joined by spaces are plain text.
proof fn lemma_join_plain(ws: Seq<Seq<char>>)
    requires
        plain_words(ws),
    ensures
        plain_text(join(ws, seq![' '])),
    decreases ws.len(),
{
    if ws.len() == 1 {
        assert(ws[0].len() > 0);
    } else if ws.len() > 1 {
        let front = ws.drop_last();
        assert(plain_words(front)) by {
            assert forall|k: int| 0 <= k < front.len() implies #[trigger] front[k].len() > 0 && (
            forall|i: int| 0 <= i < front[k].len() ==> is_ordinary(#[trigger] front[k][i])) by {
                assert(front[k] == ws[k]);
            }
        }
        lemma_join_plain(front);
        let a = join(front, seq![' ']);
        let last = ws.last();
        assert(ws[ws.len() - 1] == last);
        let j = a + seq![' '] + last;
        assert forall|i: int| 0 <= i < j.len() implies is_ordinary(#[trigger] j[i]) || spec_is_whitespace(
            j[i],
        ) by {
            if i < a.len() {
                assert(j[i] == a[i]);
            } else if i == a.len() {
                assert(j[i] == ' ');
            } else {
                assert(j[i] == last[i - a.len() - 1]);
            }
        }
    }
}

/// Splitting words joined by single spaces gives the words back, when they
/// are non-empty and hold no white space, quotes, backslashes or `>`.
pub proof fn law_parse_joined_words(ws: Seq<Seq<char>>)
    requires
        plain_words(ws),
    ensures
        spec_parse_args(join(ws, seq![' '])) == ws,
    decreases ws.len(),
{
    if ws.len() == 0 {
        assert(spec_parse_args(Seq::<char>::empty()) =~= ws);
    } else if ws.len() == 1 {
        assert(ws[0].len() > 0);
        law_parse_plain_word(ws[0]);
        assert(seq![ws[0]] =~= ws);
    } else {
        let front = ws.drop_last();
        assert(plain_words(front)) by {
            assert forall|k: int| 0 <= k < front.len() implies #[trigger] front[k].len() > 0 && (
            forall|i: int| 0 <= i < front[k].len() ==> is_ordinary(#[trigger] front[k][i])) by {
                assert(front[k] == ws[k]);
            }
        }
        law_parse_joined_words(front);
        lemma_join_plain(front);
        let last = ws.last();
        assert(ws[ws.len() - 1] == last);
        assert(last.len() > 0);
        law_parse_plain_word(last);
        let a = join(front, seq![' ']);
        assert forall|i: int| 0 <= i < a.len() implies is_unquoted(#[trigger] a[i]) by {
            assert(is_ordinary(a[i]) || spec_is_whitespace(a[i]));
        }
        law_parse_space_concat(a, ' ', last);
        assert(front + seq![last] =~= ws);
    }
}


/// `${NAME}` expands to the value of `NAME` (nothing when unset), for names
/// without `$` or `}`.
pub proof fn law_expand_braced_name(vars: Map<Seq<char>, Seq<char>>, name: Seq<char>)
    requires
        lacks(name, '$'),
        lacks(name, '}'),
    ensures
        expand_word(vars, seq!['$', '{'] + name + seq!['}']) == (if value_or_empty(
            vars,
            name,
        ).len() == 0 {
            None
        } else {
            Some(value_or_empty(vars, name))
        }),
{
    let open = seq!['$', '{'];
    let close = seq!['}'];
    let rest = name + close;
    let w = open + rest;
    assert(w =~= seq!['$', '{'] + name + seq!['}']);
    assert(w.take(2) =~= open);
    assert(index_of(w, open) == Some(0nat));
    assert(w.skip(2) =~= rest);
    assert(lacks(rest, '$')) by {
        assert forall|i: int| 0 <= i < rest.len() implies #[trigger] rest[i] != '$' by {
            if i < name.len() {
                assert(rest[i] == name[i]);
            }
        }
    }
    lemma_lacks_no_match(rest, open);
    assert(w.take(0) =~= Seq::<char>::empty());
    assert(split_by(rest, open) == seq![rest]);
    let parts = split_by(w, open);
    assert(parts =~= seq![Seq::<char>::empty(), rest]);
    // The close brace ends the name.
    assert(rest.subrange(name.len() as int, name.len() + 1 as int) =~= close);
    assert forall|j: int| 0 <= j < name.len() implies !#[trigger] matches_at(rest, close, j) by {
        assert(rest.subrange(j, j + 1)[0] == name[j]);
    }
    lemma_index_of_first(rest, close, name.len() as int);
    assert(rest.take(name.len() as int) =~= name);
    assert(rest.skip(name.len() + 1 as int) =~= Seq::<char>::empty());
    assert(index_of(w, close) is Some) by {
        lemma_index_of(w, close);
        assert(w.subrange(w.len() - 1, w.len() as int) =~= close);
        assert(matches_at(w, close, w.len() - 1));
    }
    let v = value_or_empty(vars, name);
    assert(braced_piece(vars, rest) =~= v);
    let f = |p: Seq<char>| braced_piece(vars, p);
    assert(parts.drop_first().map_values(f) =~= seq![v]);
    lemma_concat_front(v, Seq::<Seq<char>>::empty());
    assert(seq![v] + Seq::<Seq<char>>::empty() =~= seq![v]);
    assert(v + Seq::<char>::empty() =~= v);
    assert(Seq::<char>::empty() + v =~= v);
}


/// No two jobs have the same number.
pub open spec fn ids_distinct(jobs: Seq<(usize, Seq<char>)>) -> bool {
    forall|i: int, j: int| 0 <= i < jobs.len() && 0 <= j < jobs.len() && i != j ==> jobs[i].0 != jobs[j].0
}

/// A new job gets a number that no job has, so job numbers stay distinct;
/// the number is the number of jobs plus one whenever no job has that.
pub proof fn law_new_job_id_fresh(jobs: Seq<(usize, Seq<char>)>, command: Seq<char>)
    requires
        ids_distinct(jobs),
    ensures
        !id_taken(jobs, new_job_id(jobs)),
        1 <= new_job_id(jobs) <= jobs.len() + 1,
        !id_taken(jobs, jobs.len() + 1 as int) ==> new_job_id(jobs) == jobs.len() + 1,
        jobs.len() < usize::MAX ==> ids_distinct(jobs.push((new_job_id(jobs) as usize, command))),
{
    lemma_new_job_id(jobs);
    if jobs.len() < usize::MAX {
        let id = new_job_id(jobs);
        let n = jobs.push((id as usize, command));
        assert forall|i: int, j: int| 0 <= i < n.len() && 0 <= j < n.len() && i != j implies n[i].0
            != n[j].0 by {
            if i < jobs.len() {
                assert(n[i] == jobs[i]);
            }
            if j < jobs.len() {
                assert(n[j] == jobs[j]);
            }
            if i == jobs.len() && j < jobs.len() && n[j].0 == id {
                assert(id_taken(jobs, id));
            }
            if j == jobs.len() && i < jobs.len() && n[i].0 == id {
                assert(id_taken(jobs, id));
            }
        }
    }
}

/// The indices of the jobs among the first `k` flagged running, in order.
pub open spec fn kept_indices(running: Seq<bool>, k: int) -> Seq<int>
    decreases k,
{
    if k <= 0 {
        seq![]
    } else if running[k - 1] {
        kept_indices(running, k - 1).push(k - 1)
    } else {
        kept_indices(running, k - 1)
    }
}

/// The jobs kept are the jobs at `kept_indices`, which are increasing and
/// flagged running; every job flagged running is kept.
proof fn lemma_still_running_members(jobs: Seq<(usize, Seq<char>)>, running: Seq<bool>, k: int)
    requires
        0 <= k <= jobs.len(),
        running.len() == jobs.len(),
    ensures
        still_running(jobs, running, k).len() == kept_indices(running, k).len(),
        forall|x: int|
            0 <= x < kept_indices(running, k).len() ==> {
                &&& 0 <= #[trigger] kept_indices(running, k)[x] < k
                &&& running[kept_indices(running, k)[x]]
                &&& still_running(jobs, running, k)[x] == jobs[kept_indices(running, k)[x]]
            },
        forall|x: int, y: int|
            0 <= x < y < kept_indices(running, k).len() ==> #[trigger] kept_indices(running, k)[x]
                < #[trigger] kept_indices(running, k)[y],
        forall|i: int| 0 <= i < k && running[i] ==> still_running(jobs, running, k).contains(#[trigger] jobs[i]),
    decreases k,
{
    if k > 0 {
        lemma_still_running_members(jobs, running, k - 1);
        let prev = still_running(jobs, running, k - 1);
        let cur = still_running(jobs, running, k);
        let pk = kept_indices(running, k - 1);
        let ck = kept_indices(running, k);
        if running[k - 1] {
            assert forall|x: int| 0 <= x < ck.len() implies {
                &&& 0 <= #[trigger] ck[x] < k
                &&& running[ck[x]]
                &&& cur[x] == jobs[ck[x]]
            } by {
                if x < pk.len() {
                    assert(ck[x] == pk[x]);
                    assert(cur[x] == prev[x]);
                }
            }
            assert forall|x: int, y: int| 0 <= x < y < ck.len() implies #[trigger] ck[x] < #[trigger] ck[y] by {
                if y < pk.len() {
                    assert(ck[x] == pk[x] && ck[y] == pk[y]);
                } else {
                    assert(ck[x] == pk[x]);
                }
            }
            assert forall|i: int| 0 <= i < k && running[i] implies cur.contains(#[trigger] jobs[i]) by {
                if i < k - 1 {
                    let y = choose|y: int| 0 <= y < prev.len() && prev[y] == jobs[i];
                    assert(cur[y] == prev[y]);
                } else {
                    assert(cur[prev.len() as int] == jobs[i]);
                }
            }
        }
    }
}

/// Keeping the running jobs keeps the job numbers distinct.
pub proof fn law_retain_keeps_ids_distinct(jobs: Seq<(usize, Seq<char>)>, running: Seq<bool>)
    requires
        ids_distinct(jobs),
        running.len() == jobs.len(),
    ensures
        ids_distinct(still_running(jobs, running, running.len() as int)),
{
    let k = running.len() as int;
    lemma_still_running_members(jobs, running, k);
    let kept = still_running(jobs, running, k);
    let ks = kept_indices(running, k);
    assert forall|x: int, y: int| 0 <= x < kept.len() && 0 <= y < kept.len() && x != y implies kept[x].0
        != kept[y].0 by {
        if x < y {
            assert(ks[x] < ks[y]);
        } else {
            assert(ks[y] < ks[x]);
        }
        assert(kept[x] == jobs[ks[x]]);
        assert(kept[y] == jobs[ks[y]]);
    }
}

/// Every finished job among the first `k` has its Done line in the report.
proof fn lemma_done_reported(jobs: Seq<(usize, Seq<char>)>, finished: Seq<bool>, k: int)
    requires
        0 <= k <= jobs.len(),
        finished.len() == jobs.len(),
    ensures
        forall|i: int|
            0 <= i < k && finished[i] ==> done_listing(jobs, finished, k).contains(
                job_line(#[trigger] jobs[i], job_marker(i, jobs.len() as int), true),
            ),
    decreases k,
{
    if k > 0 {
        lemma_done_reported(jobs, finished, k - 1);
        let prev = done_listing(jobs, finished, k - 1);
        let cur = done_listing(jobs, finished, k);
        assert forall|i: int| 0 <= i < k && finished[i] implies cur.contains(
            job_line(#[trigger] jobs[i], job_marker(i, jobs.len() as int), true),
        ) by {
            if i < k - 1 {
                let l = job_line(jobs[i], job_marker(i, jobs.len() as int), true);
                let y = choose|y: int| 0 <= y < prev.len() && prev[y] == l;
                if finished[k - 1] {
                    assert(cur[y] == prev[y]);
                }
            } else {
                assert(cur[prev.len() as int] == job_line(jobs[i], job_marker(i, jobs.len() as int), true));
            }
        }
    }
}

/// At a prompt, a job is removed exactly when it had finished, and every
/// removed job had its Done line reported (`Shell::reap_jobs`).
pub proof fn law_reaped_jobs_reported(jobs: Seq<(usize, Seq<char>)>, finished: Seq<bool>)
    requires
        ids_distinct(jobs),
        finished.len() == jobs.len(),
    ensures
        forall|i: int|
            0 <= i < jobs.len() ==> (!still_running(
                jobs,
                unfinished(finished),
                jobs.len() as int,
            ).contains(#[trigger] jobs[i]) <==> finished[i]),
        forall|i: int|
            0 <= i < jobs.len() && !still_running(jobs, unfinished(finished), jobs.len() as int).contains(
                #[trigger] jobs[i],
            ) ==> done_listing(jobs, finished, jobs.len() as int).contains(
                job_line(jobs[i], job_marker(i, jobs.len() as int), true),
            ),
{
    let running = unfinished(finished);
    let kept = still_running(jobs, running, jobs.len() as int);
    lemma_still_running_members(jobs, running, jobs.len() as int);
    lemma_done_reported(jobs, finished, jobs.len() as int);
    assert forall|i: int| 0 <= i < jobs.len() implies (!kept.contains(#[trigger] jobs[i]) <==> finished[i]) by {
        assert(running[i] == !finished[i]);
        if finished[i] && kept.contains(jobs[i]) {
            let y = choose|y: int| 0 <= y < kept.len() && kept[y] == jobs[i];
            let m = kept_indices(running, jobs.len() as int)[y];
            assert(running[m] && kept[y] == jobs[m]);
            assert(m != i);
        }
    }
}


/// The words of `s` between white space (`str::split_whitespace`).
pub open spec fn ws_words(s: Seq<char>) -> Seq<Seq<char>>
    decreases s.len(),
{
    if s.len() == 0 {
        seq![]
    } else if spec_is_whitespace(s.last()) {
        ws_words(s.drop_last())
    } else {
        proof {
            lemma_last_word_len(s);
            assert(s.drop_last() == s.drop_last());
        }
        ws_words(s.take(s.len() - last_word(s).len())).push(last_word(s))
    }
}

/// Without quotes, backslashes or `>`, the words are those between white
/// space, as `str::split_whitespace` gives them.
pub proof fn law_parse_plain_line(s: Seq<char>)
    requires
        plain_text(s),
    ensures
        spec_parse_args(s) == ws_words(s),
    decreases s.len(),
{
    if s.len() == 0 {
        assert(spec_parse_args(s) =~= Seq::<Seq<char>>::empty());
    } else if spec_is_whitespace(s.last()) {
        let a = s.drop_last();
        let empty: Seq<char> = seq![];
        assert(s =~= a + seq![s.last()] + empty);
        assert forall|i: int| 0 <= i < a.len() implies is_unquoted(#[trigger] a[i]) by {
            assert(a[i] == s[i]);
            assert(is_ordinary(s[i]) || spec_is_whitespace(s[i]));
        }
        assert(plain_text(a)) by {
            assert forall|i: int| 0 <= i < a.len() implies is_ordinary(#[trigger] a[i]) || spec_is_whitespace(a[i]) by {
                assert(a[i] == s[i]);
            }
        }
        law_parse_space_concat(a, s.last(), empty);
        assert(spec_parse_args(empty) =~= Seq::<Seq<char>>::empty());
        law_parse_plain_line(a);
        assert(spec_parse_args(a) + Seq::<Seq<char>>::empty() =~= spec_parse_args(a));
    } else {
        lemma_last_word_len(s);
        let w = last_word(s);
        let n = s.len() - w.len();
        assert(w.len() > 0) by {
            assert(last_word(s) == last_word(s.drop_last()).push(s.last()));
        }
        assert forall|i: int| 0 <= i < w.len() implies is_ordinary(#[trigger] w[i]) by {
            assert(w[i] == s[n + i]);
            assert(is_ordinary(s[n + i]) || spec_is_whitespace(s[n + i]));
        }
        law_parse_plain_word(w);
        if n == 0 {
            assert(s.skip(0) =~= s);
            assert(s.take(0) =~= Seq::<char>::empty());
            assert(ws_words(Seq::<char>::empty()).push(w) =~= seq![w]);
        } else {
            let a = s.take(n - 1);
            let c = s[n - 1];
            assert(s =~= a + seq![c] + w);
            assert forall|i: int| 0 <= i < a.len() implies is_unquoted(#[trigger] a[i]) by {
                assert(a[i] == s[i]);
                assert(is_ordinary(s[i]) || spec_is_whitespace(s[i]));
            }
            assert(plain_text(a)) by {
                assert forall|i: int| 0 <= i < a.len() implies is_ordinary(#[trigger] a[i]) || spec_is_whitespace(a[i]) by {
                    assert(a[i] == s[i]);
                }
            }
            law_parse_space_concat(a, c, w);
            law_parse_plain_line(a);
            let t = s.take(n);
            assert(t.last() == c);
            assert(t.drop_last() =~= a);
            assert(ws_words(t) == ws_words(a));
            assert(spec_parse_args(a) + seq![w] =~= ws_words(a).push(w));
        }
    }
}

/// Every entry is non-empty, holds no newline and does not end with a
/// carriage return.
pub open spec fn file_safe(h: Seq<Seq<char>>) -> bool {
    &&& forall|k: int| 0 <= k < h.len() ==> #[trigger] h[k].len() > 0
    &&& forall|k: int, i: int| 0 <= k < h.len() && 0 <= i < h[k].len() ==> #[trigger] h[k][i] != '\n'
    &&& forall|k: int| 0 <= k < h.len() ==> #[trigger] h[k].last() != '\r'
}

/// For the first command loop: `history -w FILE` writes every entry to FILE,
/// one per line; `history -r FILE` asks for FILE to be read; and the text
/// that `-w` wrote, read back, appends exactly the entries written to
/// whatever the history holds by then. FILE is any name but a redirection
/// operator (which would make the line a syntax error).
pub proof fn law_evaluator_write_then_read(h: Seq<Seq<char>>, later: Seq<Seq<char>>, file: Seq<char>)
    requires
        file_safe(h),
        !spec_is_redirect_operator(file),
    ensures
        spec_evaluate_command(h, seq!["history"@, "-w"@, file]) == seq![
            EffectView::WriteFile(file, file_text(h, 0), false),
        ],
        spec_evaluate_command(later, seq!["history"@, "-r"@, file]) == seq![
            EffectView::ReadHistoryFile(file),
        ],
        later + history_lines(file_text(h, 0)) == later + h,
{
    lemma_names();
    let w = seq!["history"@, "-w"@, file];
    let r = seq!["history"@, "-r"@, file];
    lemma_operator_has_gt("history"@);
    lemma_operator_has_gt("-w"@);
    lemma_operator_has_gt("-r"@);
    assert(has_no_operator(w));
    assert(has_no_operator(r));
    lemma_no_operator(w);
    lemma_no_operator(r);
    assert(seq![EffectView::WriteFile(file, file_text(h, 0), false)] == Seq::<EffectView>::empty()
        + seq![EffectView::WriteFile(file, file_text(h, 0), false)]);
    assert(seq![EffectView::ReadHistoryFile(file)] == Seq::<EffectView>::empty() + seq![
        EffectView::ReadHistoryFile(file),
    ]);
    law_history_write_read(h);
}

/// For the shell: `history -w FILE` writes every entry to FILE, one per
/// line, and leaves the shell as it is; `history -r FILE` asks for FILE to
/// be read; and the text that `-w` wrote, read back (`Shell::read_history`),
/// appends exactly the entries written, for a file name without `$` (which
/// would be expanded) that is neither a redirection operator nor `&`.
pub proof fn law_shell_write_then_read(
    st: ShellView,
    later: ShellView,
    env: Map<Seq<char>, Seq<char>>,
    file: Seq<char>,
)
    requires
        file_safe(st.history),
        !spec_is_redirect_operator(file),
        lacks(file, '$'),
        file != seq!['&'],
    ensures
        spec_evaluate(st, env, seq!["history"@, "-w"@, file]) == (st, seq![
            EffectView::WriteFile(file, file_text(st.history, 0), false),
        ]),
        spec_evaluate(later, env, seq!["history"@, "-r"@, file]) == (later, seq![
            EffectView::ReadHistoryFile(file),
        ]),
        later.history + history_lines(file_text(st.history, 0)) == later.history + st.history,
{
    lemma_names();
    let w = seq!["history"@, "-w"@, file];
    let r = seq!["history"@, "-r"@, file];
    lemma_operator_has_gt("history"@);
    lemma_operator_has_gt("-w"@);
    lemma_operator_has_gt("-r"@);
    assert(has_no_operator(w));
    assert(has_no_operator(r));
    assert forall|k: int| 0 <= k < w.len() implies lacks(#[trigger] w[k], '$') by {}
    assert forall|k: int| 0 <= k < r.len() implies lacks(#[trigger] r[k], '$') by {}
    lemma_operator_free_command(w);
    lemma_operator_free_command(r);
    lemma_expand_all_plain(visible(st.variables, env), w);
    lemma_expand_all_plain(visible(later.variables, env), r);
    assert(seq![EffectView::WriteFile(file, file_text(st.history, 0), false)]
        == Seq::<EffectView>::empty() + seq![
        EffectView::WriteFile(file, file_text(st.history, 0), false),
    ]);
    assert(seq![EffectView::ReadHistoryFile(file)] == Seq::<EffectView>::empty() + seq![
        EffectView::ReadHistoryFile(file),
    ]);
    law_history_write_read(st.history);
}

/// No effect in `e` asks for a history file to be read.
pub open spec fn reads_no_file(e: Seq<EffectView>) -> bool {
    forall|j: int| 0 <= j < e.len() ==> !(#[trigger] e[j] is ReadHistoryFile)
}

/// Printing, `echo` and the report of `type` read no history file.
proof fn lemma_output_reads_no_file(
    output: Option<(Seq<char>, bool, bool)>,
    text: Seq<char>,
    lines: Seq<Seq<char>>,
)
    ensures
        reads_no_file(echo_effects(output, text)),
        reads_no_file(report_effects(output, text)),
        reads_no_file(prints(lines)),
{
}

/// `history` reads a file only as `history -r FILE`, and then does only that.
proof fn lemma_history_reads(h: Seq<Seq<char>>, argv: Seq<Seq<char>>)
    ensures
        argv.len() == 3 && argv[1] == "-r"@ ==> history_effects(h, argv) == seq![
            EffectView::ReadHistoryFile(argv[2]),
        ],
        !(argv.len() == 3 && argv[1] == "-r"@) ==> reads_no_file(history_effects(h, argv)),
{
    lemma_output_reads_no_file(None, seq![], numbered_lines(h, 1));
    if argv.len() == 2 {
        lemma_output_reads_no_file(None, seq![], tail_lines(h, entries_arg(argv[1])));
    }
}

/// In the first command loop, only `history -r FILE` asks for a history file
/// to be read: an effect reading FILE comes from a command line whose words
/// before the redirection are exactly `history -r FILE`.
pub proof fn law_evaluator_reads_only_on_history_r(
    h: Seq<Seq<char>>,
    args: Seq<Seq<char>>,
    k: int,
    file: Seq<char>,
)
    requires
        0 <= k < spec_evaluate_command(h, args).len(),
        spec_evaluate_command(h, args)[k] == EffectView::ReadHistoryFile(file),
    ensures
        before_redirect(args) == seq!["history"@, "-r"@, file],
{
    let w = before_redirect(args);
    let out = redirect_target(args);
    let pre = if missing_target(args) {
        seq![EffectView::Print(syntax_error_text())]
    } else {
        seq![]
    };
    let d = evaluator_dispatch(h, out, w);
    assert(spec_evaluate_command(h, args) == pre + d);
    if k < pre.len() {
        assert(pre[k] is Print);
    } else {
        let j = k - pre.len();
        assert(d[j] == (pre + d)[k]);
        lemma_output_reads_no_file(out, join(w.drop_first(), " "@), seq![]);
        lemma_output_reads_no_file(out, w[1] + " is a shell builtin"@, seq![]);
        lemma_history_reads(h, w);
        if w[0] == "history"@ && !(w[0] == "echo"@) && !(w[0] == "type"@) && !(w[0] == "pwd"@)
            && !(w[0] == "cd"@) {
            if w.len() == 3 && w[1] == "-r"@ {
                assert(w =~= seq!["history"@, "-r"@, file]);
            } else {
                assert(!(d[j] is ReadHistoryFile));
            }
        } else {
            assert(!(d[j] is ReadHistoryFile));
        }
    }
}

/// In the shell, only `history -r FILE` asks for a history file to be read:
/// an effect reading FILE comes from a command line whose expanded words
/// are exactly `history -r FILE`.
pub proof fn law_shell_reads_only_on_history_r(
    st: ShellView,
    env: Map<Seq<char>, Seq<char>>,
    args: Seq<Seq<char>>,
    k: int,
    file: Seq<char>,
)
    requires
        0 <= k < spec_evaluate(st, env, args).1.len(),
        spec_evaluate(st, env, args).1[k] == EffectView::ReadHistoryFile(file),
    ensures
        expanded_words(st, env, args) == seq!["history"@, "-r"@, file],
{
    let argv = expanded_words(st, env, args);
    let out = redirect_target(args);
    let pre = if missing_target(args) {
        seq![EffectView::Print(syntax_error_text())]
    } else {
        seq![]
    };
    let d = shell_dispatch(st, out, is_background(before_redirect(args)), command_words(args), argv).1;
    assert(spec_evaluate(st, env, args).1 == pre + d);
    if k < pre.len() {
        assert(pre[k] is Print);
    } else {
        let j = k - pre.len();
        assert(d[j] == (pre + d)[k]);
        lemma_output_reads_no_file(out, join(argv.drop_first(), " "@), seq![]);
        lemma_output_reads_no_file(out, argv[1] + " is a shell builtin"@, seq![]);
        lemma_history_reads(st.history, argv);
        if argv.len() > 0 && argv[0] == "history"@ && !(argv[0] == "echo"@) && !(argv[0] == "type"@)
            && !(argv[0] == "pwd"@) && !(argv[0] == "cd"@) {
            if argv.len() == 3 && argv[1] == "-r"@ {
                assert(argv =~= seq!["history"@, "-r"@, file]);
            } else {
                assert(!(d[j] is ReadHistoryFile));
            }
        } else {
            assert(!(d[j] is ReadHistoryFile));
        }
    }
}

/// Outside quotes a backslash makes the next character literal and
/// disappears: a backslash, any character `c`, then ordinary characters
/// `w` are the one word `c` followed by `w`.
pub proof fn law_parse_escaped_char(c: char, w: Seq<char>)
    requires
        forall|i: int| 0 <= i < w.len() ==> is_ordinary(#[trigger] w[i]),
    ensures
        spec_parse_args(seq!['\\', c] + w) == seq![seq![c] + w],
{
    let line = seq!['\\', c] + w;
    let st0 = initial_state();
    assert(line[0] == '\\');
    assert(line.drop_first() =~= seq![c] + w);
    let st1 = ParseState { escaped: true, ..st0 };
    assert(split_words(line, st0) == split_words(seq![c] + w, st1));
    assert((seq![c] + w)[0] == c);
    assert((seq![c] + w).drop_first() =~= w);
    let st2 = ParseState { escaped: false, current: st1.current + crate::parser::escaped_text(false, c), ..st1 };
    assert(st2.current =~= seq![c]);
    assert(split_words(seq![c] + w, st1) == split_words(w, st2));
    let empty: Seq<char> = seq![];
    assert(w + empty =~= w);
    lemma_ordinary_run(w, empty, st2);
    assert(seq![c] + w == st2.current + w);
    assert((seq![c] + w).len() > 0);
}

/// Inside double quotes a backslash escapes only `"`, `$`, `\` and newline
/// (and disappears before them); before any other character it stays.
pub proof fn law_parse_double_quoted_escape(c: char)
    ensures
        spec_parse_args(seq!['"', '\\', c, '"']) == seq![
            if c == '"' || c == '$' || c == '\\' || c == '\n' {
                seq![c]
            } else {
                seq!['\\', c]
            },
        ],
{
    let line = seq!['"', '\\', c, '"'];
    let st0 = initial_state();
    let st1 = ParseState { double: true, ..st0 };
    let st2 = ParseState { escaped: true, ..st1 };
    let t = crate::parser::escaped_text(true, c);
    let st3 = ParseState { escaped: false, current: st1.current + t, ..st1 };
    let st4 = ParseState { double: false, ..st3 };
    assert(line.drop_first() =~= seq!['\\', c, '"']);
    assert(seq!['\\', c, '"'].drop_first() =~= seq![c, '"']);
    assert(seq![c, '"'].drop_first() =~= seq!['"']);
    assert(seq!['"'].drop_first() =~= Seq::<char>::empty());
    assert(split_words(line, st0) == split_words(seq!['\\', c, '"'], st1));
    assert(split_words(seq!['\\', c, '"'], st1) == split_words(seq![c, '"'], st2));
    assert(split_words(seq![c, '"'], st2) == split_words(seq!['"'], st3));
    assert(split_words(seq!['"'], st3) == split_words(Seq::<char>::empty(), st4));
    assert(st1.current + t =~= t);
    assert(t.len() > 0);
}

/// `type` reports each builtin of the shell (echo, type, exit, pwd, cd,
/// history, complete, jobs, declare) as a shell builtin.
pub proof fn law_type_reports_builtins(st: ShellView, env: Map<Seq<char>, Seq<char>>, b: Seq<char>)
    requires
        b == "echo"@ || b == "type"@ || b == "exit"@ || b == "pwd"@ || b == "cd"@ || b
            == "history"@ || b == "complete"@ || b == "jobs"@ || b == "declare"@,
    ensures
        spec_evaluate(st, env, seq!["type"@, b]) == (st, seq![
            EffectView::Print(b + " is a shell builtin"@),
        ]),
{
    lemma_names();
    let args = seq!["type"@, b];
    assert(lacks(b, '>') && lacks(b, '$') && b.len() >= 2);
    assert forall|k: int| 0 <= k < args.len() implies lacks(#[trigger] args[k], '>') by {}
    assert forall|k: int| 0 <= k < args.len() implies lacks(#[trigger] args[k], '$') by {}
    assert(args.last() != seq!['&']);
    lemma_plain_command(args);
    lemma_expand_all_plain(visible(st.variables, env), args);
    assert("type"@ != "echo"@) by {
        assert("type"@[0] != "echo"@[0]);
    }
    let r = seq![EffectView::Print(b + " is a shell builtin"@)];
    assert(Seq::<EffectView>::empty() + r =~= r);
}

/// The first command loop's `type` reports each of its builtins (echo,
/// type, exit, pwd, cd, history) as a shell builtin.
pub proof fn law_evaluator_type_reports_builtins(h: Seq<Seq<char>>, b: Seq<char>)
    requires
        b == "echo"@ || b == "type"@ || b == "exit"@ || b == "pwd"@ || b == "cd"@ || b
            == "history"@,
    ensures
        spec_evaluate_command(h, seq!["type"@, b]) == seq![
            EffectView::Print(b + " is a shell builtin"@),
        ],
{
    lemma_names();
    let args = seq!["type"@, b];
    assert(lacks(b, '>'));
    assert forall|k: int| 0 <= k < args.len() implies lacks(#[trigger] args[k], '>') by {}
    assert forall|j: int| 0 <= j < args.len() implies !spec_is_redirect_operator(#[trigger] args[j]) by {
        lemma_operator_has_gt(args[j]);
    }
    assert(has_no_operator(args));
    lemma_no_operator(args);
    assert("type"@ != "echo"@) by {
        assert("type"@[0] != "echo"@[0]);
    }
    let r = seq![EffectView::Print(b + " is a shell builtin"@)];
    assert(Seq::<EffectView>::empty() + r =~= r);
}

/// No command that starts with the typed text is left out: each one among
/// the first `k` is offered, inserted with a space after it, the typed text
/// itself included.
pub proof fn law_completions_complete(commands: Seq<Seq<char>>, input: Seq<char>, k: int)
    requires
        0 <= k <= commands.len(),
    ensures
        forall|i: int|
            0 <= i < k && input.len() <= commands[i].len() && #[trigger] commands[i].take(
                input.len() as int,
            ) == input ==> matching(commands, input, k).contains((commands[i], commands[i] + " "@)),
    decreases k,
{
    if k > 0 {
        law_completions_complete(commands, input, k - 1);
        let prev = matching(commands, input, k - 1);
        let cur = matching(commands, input, k);
        assert forall|i: int|
            0 <= i < k && input.len() <= commands[i].len() && #[trigger] commands[i].take(
                input.len() as int,
            ) == input implies cur.contains((commands[i], commands[i] + " "@)) by {
            if i < k - 1 {
                let y = choose|y: int| 0 <= y < prev.len() && prev[y] == (commands[i], commands[i] + " "@);
                if has_prefix(commands[k - 1], input) {
                    assert(cur[y] == prev[y]);
                }
            } else {
                assert(has_prefix(commands[k - 1], input));
                assert(cur[prev.len() as int] == (commands[i], commands[i] + " "@));
            }
        }
    }
}

/// Completing a command name offers every builtin (echo, type, exit, pwd,
/// cd, history, complete, jobs, declare) and every program on `PATH` that
/// starts with the typed text, the typed text itself included, each with a
/// space after it.
pub proof fn law_candidates_complete(path: Seq<Seq<char>>, input: Seq<char>, c: Seq<char>)
    requires
        c == "echo"@ || c == "type"@ || c == "exit"@ || c == "pwd"@ || c == "cd"@ || c
            == "history"@ || c == "complete"@ || c == "jobs"@ || c == "declare"@ || path.contains(c),
        input.len() <= c.len(),
        c.take(input.len() as int) == input,
    ensures
        spec_candidates(path, input).contains((c, c + " "@)),
{
    let commands = completion_builtins() + path;
    law_completions_complete(commands, input, commands.len() as int);
    let i: int = if c == "echo"@ {
        0
    } else if c == "type"@ {
        1
    } else if c == "exit"@ {
        2
    } else if c == "pwd"@ {
        3
    } else if c == "cd"@ {
        4
    } else if c == "history"@ {
        5
    } else if c == "complete"@ {
        6
    } else if c == "jobs"@ {
        7
    } else if c == "declare"@ {
        8
    } else {
        9 + choose|j: int| 0 <= j < path.len() && path[j] == c
    };
    assert(commands[i] == c);
    assert(commands[i].take(input.len() as int) == input);
}

/// The text `${NAME}TEXT` for each `(NAME, TEXT)` in turn.
pub open spec fn braced_refs(refs: Seq<(Seq<char>, Seq<char>)>) -> Seq<char>
    decreases refs.len(),
{
    if refs.len() == 0 {
        seq![]
    } else {
        seq!['$', '{'] + refs[0].0 + seq!['}'] + refs[0].1 + braced_refs(refs.drop_first())
    }
}

/// The value of each `NAME` (nothing when unset) followed by its `TEXT`.
pub open spec fn substituted_refs(
    vars: Map<Seq<char>, Seq<char>>,
    refs: Seq<(Seq<char>, Seq<char>)>,
) -> Seq<char>
    decreases refs.len(),
{
    if refs.len() == 0 {
        seq![]
    } else {
        (if vars.contains_key(refs[0].0) {
            vars[refs[0].0]
        } else {
            seq![]
        }) + refs[0].1 + substituted_refs(vars, refs.drop_first())
    }
}

/// Names without `$` or `}`, texts without `$`.
pub open spec fn plain_refs(refs: Seq<(Seq<char>, Seq<char>)>) -> bool {
    forall|i: int|
        0 <= i < refs.len() ==> lacks(#[trigger] refs[i].0, '$') && lacks(refs[i].0, '}') && lacks(
            refs[i].1,
            '$',
        )
}

/// The pieces that follow each `${`: the name, `}` and the text.
spec fn ref_pieces(refs: Seq<(Seq<char>, Seq<char>)>) -> Seq<Seq<char>> {
    refs.map_values(|r: (Seq<char>, Seq<char>)| r.0 + seq!['}'] + r.1)
}

/// Cutting at each `${` gives the leading text and then one piece per
/// reference.
proof fn lemma_split_refs(a: Seq<char>, refs: Seq<(Seq<char>, Seq<char>)>)
    requires
        lacks(a, '$'),
        plain_refs(refs),
    ensures
        split_by(a + braced_refs(refs), seq!['$', '{']) == seq![a] + ref_pieces(refs),
    decreases refs.len(),
{
    let open = seq!['$', '{'];
    if refs.len() == 0 {
        assert(a + braced_refs(refs) =~= a);
        lemma_lacks_no_match(a, open);
        assert(ref_pieces(refs) =~= Seq::<Seq<char>>::empty());
        assert(seq![a] + ref_pieces(refs) =~= seq![a]);
    } else {
        let r0 = refs[0];
        let tail = refs.drop_first();
        let p0 = r0.0 + seq!['}'] + r0.1;
        assert(plain_refs(tail)) by {
            assert forall|i: int| 0 <= i < tail.len() implies lacks(#[trigger] tail[i].0, '$') && lacks(
                tail[i].0,
                '}',
            ) && lacks(tail[i].1, '$') by {
                assert(tail[i] == refs[i + 1]);
            }
        }
        assert(lacks(r0.0, '$') && lacks(r0.0, '}') && lacks(r0.1, '$'));
        assert(lacks(p0, '$')) by {
            assert forall|i: int| 0 <= i < p0.len() implies #[trigger] p0[i] != '$' by {
                if i < r0.0.len() {
                    assert(p0[i] == r0.0[i]);
                } else if i > r0.0.len() {
                    assert(p0[i] == r0.1[i - r0.0.len() - 1]);
                }
            }
        }
        let rest = p0 + braced_refs(tail);
        let s = a + open + rest;
        assert(a + braced_refs(refs) =~= s);
        let n = a.len() as int;
        assert(s.subrange(n, n + 2) =~= open);
        assert forall|j: int| 0 <= j < n implies !#[trigger] matches_at(s, open, j) by {
            assert(s.subrange(j, j + 2)[0] == a[j]);
        }
        lemma_index_of_first(s, open, n);
        assert(s.take(n) =~= a);
        assert(s.skip(n + 2) =~= rest);
        lemma_split_refs(p0, tail);
        assert(ref_pieces(refs) =~= seq![p0] + ref_pieces(tail));
        assert(seq![a] + (seq![p0] + ref_pieces(tail)) =~= seq![a] + ref_pieces(refs));
    }
}

/// Each piece becomes the value of its name followed by its text.
proof fn lemma_substitute_pieces(vars: Map<Seq<char>, Seq<char>>, refs: Seq<(Seq<char>, Seq<char>)>)
    requires
        plain_refs(refs),
    ensures
        concat(ref_pieces(refs).map_values(|p: Seq<char>| braced_piece(vars, p)))
            == substituted_refs(vars, refs),
    decreases refs.len(),
{
    let f = |p: Seq<char>| braced_piece(vars, p);
    if refs.len() == 0 {
        assert(ref_pieces(refs).map_values(f) =~= Seq::<Seq<char>>::empty());
    } else {
        let r0 = refs[0];
        let tail = refs.drop_first();
        let p0 = r0.0 + seq!['}'] + r0.1;
        assert(plain_refs(tail)) by {
            assert forall|i: int| 0 <= i < tail.len() implies lacks(#[trigger] tail[i].0, '$') && lacks(
                tail[i].0,
                '}',
            ) && lacks(tail[i].1, '$') by {
                assert(tail[i] == refs[i + 1]);
            }
        }
        assert(lacks(r0.0, '}'));
        lemma_substitute_pieces(vars, tail);
        let close = seq!['}'];
        let m = r0.0.len() as int;
        assert(p0.subrange(m, m + 1) =~= close);
        assert forall|j: int| 0 <= j < m implies !#[trigger] matches_at(p0, close, j) by {
            assert(p0.subrange(j, j + 1)[0] == r0.0[j]);
        }
        lemma_index_of_first(p0, close, m);
        assert(p0.take(m) =~= r0.0);
        assert(p0.skip(m + 1) =~= r0.1);
        let v = value_or_empty(vars, r0.0);
        assert(f(p0) == v + r0.1);
        assert(ref_pieces(refs).map_values(f) =~= seq![v + r0.1] + ref_pieces(tail).map_values(f));
        lemma_concat_front(v + r0.1, ref_pieces(tail).map_values(f));
    }
}

/// Every `${NAME}` in a word is replaced by the value of `NAME` (nothing
/// when unset), not only the first: text `a`, then `${NAME}TEXT` for each
/// reference in turn, expands to `a`, then each value followed by its
/// text; a word that expands to nothing is dropped. Names hold no `$` or
/// `}`, texts no `$`.
pub proof fn law_expand_braced_refs(
    vars: Map<Seq<char>, Seq<char>>,
    a: Seq<char>,
    refs: Seq<(Seq<char>, Seq<char>)>,
)
    requires
        refs.len() >= 1,
        lacks(a, '$'),
        plain_refs(refs),
    ensures
        expand_word(vars, a + braced_refs(refs)) == (if (a + substituted_refs(vars, refs)).len()
            == 0 {
            None
        } else {
            Some(a + substituted_refs(vars, refs))
        }),
{
    let w = a + braced_refs(refs);
    let open = seq!['$', '{'];
    let close = seq!['}'];
    lemma_split_refs(a, refs);
    lemma_substitute_pieces(vars, refs);
    let parts = split_by(w, open);
    assert(parts[0] == a);
    assert(parts.drop_first() =~= ref_pieces(refs));
    let r0 = refs[0];
    let n = a.len() as int;
    let tail = braced_refs(refs.drop_first());
    assert(w =~= a + open + r0.0 + close + r0.1 + tail);
    assert(w.subrange(n, n + 2) =~= open);
    assert(spec_contains(w, open)) by {
        lemma_index_of(w, open);
        assert(matches_at(w, open, n));
    }
    let m = n + 2 + r0.0.len();
    assert(w.subrange(m, m + 1) =~= close);
    assert(spec_contains(w, close)) by {
        lemma_index_of(w, close);
        assert(matches_at(w, close, m));
    }
}

/// A name of ASCII letters, digits and `_` that does not start with a digit.
pub open spec fn ascii_identifier(name: Seq<char>) -> bool {
    &&& name.len() > 0 ==> !('0' <= name[0] && name[0] <= '9')
    &&& forall|i: int|
        0 <= i < name.len() ==> {
            ||| ('a' <= #[trigger] name[i] && name[i] <= 'z')
            ||| ('A' <= name[i] && name[i] <= 'Z')
            ||| ('0' <= name[i] && name[i] <= '9')
            ||| name[i] == '_'
        }
}

/// `declare NAME=VALUE` accepts every name of ASCII letters, digits and `_`
/// that does not start with a digit (`MY_VAR`, `_x1`, ...): it sets NAME to
/// VALUE, changes nothing else and prints nothing, and `declare -p NAME`
/// then prints it; for values without `$` or `>`.
pub proof fn law_declare_ascii_name(
    st: ShellView,
    env: Map<Seq<char>, Seq<char>>,
    name: Seq<char>,
    value: Seq<char>,
)
    requires
        ascii_identifier(name),
        lacks(value, '$'),
        lacks(value, '>'),
    ensures
        spec_evaluate(st, env, seq!["declare"@, name + seq!['='] + value]) == (ShellView {
            variables: st.variables.insert(name, value),
            ..st
        }, Seq::<EffectView>::empty()),
        spec_evaluate(
            ShellView { variables: st.variables.insert(name, value), ..st },
            env,
            seq!["declare"@, "-p"@, name],
        ).1 == seq![EffectView::Print("declare -- "@ + name + "=\""@ + value + "\""@)],
{
    assert(valid_identifier(name)) by {
        assert forall|i: int| 0 <= i < name.len() implies spec_alphanumeric(#[trigger] name[i])
            || name[i] == '_' by {
            assert(ascii_identifier(name));
        }
        if name.len() > 0 {
            assert(!is_decimal_digit(name[0]));
        }
    }
    assert(lacks(name, '$') && lacks(name, '>') && lacks(name, '=') && lacks(name, '&')) by {
        assert forall|i: int| 0 <= i < name.len() implies #[trigger] name[i] != '$' && name[i]
            != '>' && name[i] != '=' && name[i] != '&' by {
            assert(ascii_identifier(name));
        }
    }
    law_declare_then_print(st, env, name, value);
}

/// An ASCII letter, digit or `_`: a character that continues a name.
pub open spec fn ascii_name_char(c: char) -> bool {
    ||| ('a' <= c && c <= 'z')
    ||| ('A' <= c && c <= 'Z')
    ||| ('0' <= c && c <= '9')
    ||| c == '_'
}

/// The text `$NAME` followed by `TEXT` for each `(NAME, TEXT)` in turn.
pub open spec fn dollar_refs(refs: Seq<(Seq<char>, Seq<char>)>) -> Seq<char>
    decreases refs.len(),
{
    if refs.len() == 0 {
        seq![]
    } else {
        seq!['$'] + refs[0].0 + refs[0].1 + dollar_refs(refs.drop_first())
    }
}

/// Each name is non-empty and made of ASCII letters, digits and `_`; each
/// text holds no `$` and is empty or starts with an ASCII character that
/// cannot continue a name.
pub open spec fn plain_dollar_refs(refs: Seq<(Seq<char>, Seq<char>)>) -> bool {
    forall|i: int|
        0 <= i < refs.len() ==> {
            &&& (#[trigger] refs[i]).0.len() > 0
            &&& forall|k: int| 0 <= k < refs[i].0.len() ==> ascii_name_char(#[trigger] refs[i].0[k])
            &&& lacks(refs[i].1, '$')
            &&& (refs[i].1.len() == 0 || (refs[i].1[0] <= '\u{7f}' && !ascii_name_char(refs[i].1[0])))
        }
}

/// Every `$` is followed by a character that continues a name.
spec fn dollars_start_names(s: Seq<char>) -> bool {
    forall|j: int| 0 <= j < s.len() && #[trigger] s[j] == '$' ==> j + 1 < s.len() && ascii_name_char(s[j + 1])
}

/// The references of `refs` without the first still satisfy the conditions.
proof fn lemma_plain_dollar_tail(refs: Seq<(Seq<char>, Seq<char>)>)
    requires
        refs.len() > 0,
        plain_dollar_refs(refs),
    ensures
        plain_dollar_refs(refs.drop_first()),
{
    let tail = refs.drop_first();
    assert forall|i: int| 0 <= i < tail.len() implies {
        &&& (#[trigger] tail[i]).0.len() > 0
        &&& forall|k: int| 0 <= k < tail[i].0.len() ==> ascii_name_char(#[trigger] tail[i].0[k])
        &&& lacks(tail[i].1, '$')
        &&& (tail[i].1.len() == 0 || (tail[i].1[0] <= '\u{7f}' && !ascii_name_char(tail[i].1[0])))
    } by {
        assert(tail[i] == refs[i + 1]);
    }
}

/// In `$NAME` references, every `$` starts a name.
proof fn lemma_dollar_refs_names(refs: Seq<(Seq<char>, Seq<char>)>)
    requires
        plain_dollar_refs(refs),
    ensures
        dollars_start_names(dollar_refs(refs)),
    decreases refs.len(),
{
    if refs.len() > 0 {
        let r0 = refs[0];
        assert(plain_dollar_refs(refs) ==> r0.0.len() > 0);
        lemma_plain_dollar_tail(refs);
        lemma_dollar_refs_names(refs.drop_first());
        let x = seq!['$'] + r0.0 + r0.1;
        let y = dollar_refs(refs.drop_first());
        let s = x + y;
        assert(s =~= dollar_refs(refs));
        assert forall|j: int| 0 <= j < s.len() && #[trigger] s[j] == '$' implies j + 1 < s.len()
            && ascii_name_char(s[j + 1]) by {
            if j == 0 {
                assert(s[1] == r0.0[0]);
            } else if j < 1 + r0.0.len() {
                assert(s[j] == r0.0[j - 1]);
                assert(ascii_name_char(r0.0[j - 1]));
            } else if j < x.len() {
                assert(s[j] == r0.1[j - 1 - r0.0.len()]);
            } else {
                assert(s[j] == y[j - x.len()]);
                assert(s[j + 1] == y[j + 1 - x.len()]);
            }
        }
    }
}

/// The pieces that follow each `$`: the name and the text.
spec fn dollar_pieces(refs: Seq<(Seq<char>, Seq<char>)>) -> Seq<Seq<char>> {
    refs.map_values(|r: (Seq<char>, Seq<char>)| r.0 + r.1)
}

/// Cutting at each `$` gives the leading text and then one piece per
/// reference.
proof fn lemma_split_dollar_refs(a: Seq<char>, refs: Seq<(Seq<char>, Seq<char>)>)
    requires
        lacks(a, '$'),
        plain_dollar_refs(refs),
    ensures
        split_by(a + dollar_refs(refs), seq!['$']) == seq![a] + dollar_pieces(refs),
    decreases refs.len(),
{
    let d = seq!['$'];
    if refs.len() == 0 {
        assert(a + dollar_refs(refs) =~= a);
        lemma_lacks_no_match(a, d);
        assert(dollar_pieces(refs) =~= Seq::<Seq<char>>::empty());
        assert(seq![a] + dollar_pieces(refs) =~= seq![a]);
    } else {
        let r0 = refs[0];
        let tail = refs.drop_first();
        lemma_plain_dollar_tail(refs);
        let p0 = r0.0 + r0.1;
        assert(plain_dollar_refs(refs) ==> lacks(r0.1, '$'));
        assert(lacks(p0, '$')) by {
            assert forall|i: int| 0 <= i < p0.len() implies #[trigger] p0[i] != '$' by {
                if i < r0.0.len() {
                    assert(p0[i] == r0.0[i]);
                    assert(ascii_name_char(r0.0[i]));
                } else {
                    assert(p0[i] == r0.1[i - r0.0.len()]);
                }
            }
        }
        let rest = p0 + dollar_refs(tail);
        let s = a + d + rest;
        assert(a + dollar_refs(refs) =~= s);
        let n = a.len() as int;
        assert(s.subrange(n, n + 1) =~= d);
        assert forall|j: int| 0 <= j < n implies !#[trigger] matches_at(s, d, j) by {
            assert(s.subrange(j, j + 1)[0] == a[j]);
        }
        lemma_index_of_first(s, d, n);
        assert(s.take(n) =~= a);
        assert(s.skip(n + 1) =~= rest);
        lemma_split_dollar_refs(p0, tail);
        assert(dollar_pieces(refs) =~= seq![p0] + dollar_pieces(tail));
        assert(seq![a] + (seq![p0] + dollar_pieces(tail)) =~= seq![a] + dollar_pieces(refs));
    }
}

/// Each piece becomes the value of its name followed by its text.
proof fn lemma_substitute_dollar_pieces(
    vars: Map<Seq<char>, Seq<char>>,
    refs: Seq<(Seq<char>, Seq<char>)>,
)
    requires
        plain_dollar_refs(refs),
    ensures
        concat(dollar_pieces(refs).map_values(|p: Seq<char>| dollar_piece(vars, p)))
            == substituted_refs(vars, refs),
    decreases refs.len(),
{
    let f = |p: Seq<char>| dollar_piece(vars, p);
    if refs.len() == 0 {
        assert(dollar_pieces(refs).map_values(f) =~= Seq::<Seq<char>>::empty());
    } else {
        let r0 = refs[0];
        let tail = refs.drop_first();
        lemma_plain_dollar_tail(refs);
        lemma_substitute_dollar_pieces(vars, tail);
        let p0 = r0.0 + r0.1;
        assert forall|i: int| 0 <= i < r0.0.len() implies is_name_char(#[trigger] r0.0[i]) by {
            assert(ascii_name_char(r0.0[i]));
        }
        assert(r0.1.len() == 0 || !is_name_char(r0.1[0])) by {
            if r0.1.len() > 0 {
                assert(r0.1[0] <= '\u{7f}' && !ascii_name_char(r0.1[0]));
            }
        }
        lemma_name_len_split(r0.0, r0.1);
        assert(p0.take(r0.0.len() as int) =~= r0.0);
        assert(p0.skip(r0.0.len() as int) =~= r0.1);
        let v = value_or_empty(vars, r0.0);
        assert(f(p0) == v + r0.1);
        assert(dollar_pieces(refs).map_values(f) =~= seq![v + r0.1] + dollar_pieces(tail).map_values(f));
        lemma_concat_front(v + r0.1, dollar_pieces(tail).map_values(f));
    }
}

/// Every `$NAME` in a word is replaced by the value of `NAME` (nothing when
/// unset), not only the first, and the name ends where a character cannot
/// continue it: text `a`, then `$NAME` and `TEXT` for each reference in
/// turn, expands to `a`, then each value followed by its text; a word that
/// expands to nothing is dropped. Names are ASCII letters, digits and `_`;
/// each text is empty or starts with another ASCII character; no `$` else.
pub proof fn law_expand_dollar_refs(
    vars: Map<Seq<char>, Seq<char>>,
    a: Seq<char>,
    refs: Seq<(Seq<char>, Seq<char>)>,
)
    requires
        refs.len() >= 1,
        lacks(a, '$'),
        plain_dollar_refs(refs),
    ensures
        expand_word(vars, a + dollar_refs(refs)) == (if (a + substituted_refs(vars, refs)).len()
            == 0 {
            None
        } else {
            Some(a + substituted_refs(vars, refs))
        }),
{
    let w = a + dollar_refs(refs);
    let open = seq!['$', '{'];
    let d = seq!['$'];
    lemma_dollar_refs_names(refs);
    assert(dollars_start_names(w)) by {
        let y = dollar_refs(refs);
        assert forall|j: int| 0 <= j < w.len() && #[trigger] w[j] == '$' implies j + 1 < w.len()
            && ascii_name_char(w[j + 1]) by {
            if j < a.len() {
                assert(w[j] == a[j]);
            } else {
                assert(w[j] == y[j - a.len()]);
                assert(w[j + 1] == y[j + 1 - a.len()]);
            }
        }
    }
    assert(!spec_contains(w, open)) by {
        lemma_index_of(w, open);
        if let Some(i) = index_of(w, open) {
            let k = i as int;
            assert(w.subrange(k, k + 2)[0] == w[k]);
            assert(w.subrange(k, k + 2)[1] == w[k + 1]);
        }
    }
    lemma_split_dollar_refs(a, refs);
    lemma_substitute_dollar_pieces(vars, refs);
    let parts = split_by(w, d);
    assert(parts[0] == a);
    assert(parts.drop_first() =~= dollar_pieces(refs));
    let n = a.len() as int;
    assert(w[n] == '$');
    assert(w.subrange(n, n + 1) =~= d);
    assert(spec_contains(w, d)) by {
        lemma_index_of(w, d);
        assert(matches_at(w, d, n));
    }
}

/// Outside quotes `>` ends a word with the operator attached, and `>>`
/// stays one operator: ordinary characters `a`, then `>` (or `>>`), then
/// ordinary characters `b`, are the words `a>` (or `a>>`) and `b`.
pub proof fn law_parse_operator(a: Seq<char>, b: Seq<char>, double: bool)
    requires
        forall|i: int| 0 <= i < a.len() ==> is_ordinary(#[trigger] a[i]),
        forall|i: int| 0 <= i < b.len() ==> is_ordinary(#[trigger] b[i]),
        b.len() > 0,
    ensures
        spec_parse_args(a + (if double { seq!['>', '>'] } else { seq!['>'] }) + b) == seq![
            a + (if double { seq!['>', '>'] } else { seq!['>'] }),
            b,
        ],
{
    let op: Seq<char> = if double { seq!['>', '>'] } else { seq!['>'] };
    let r = op + b;
    assert(a + op + b =~= a + r);
    let st0 = initial_state();
    lemma_ordinary_run(a, r, st0);
    let st1 = ParseState { current: st0.current + a, ..st0 };
    assert(st0.current + a =~= a);
    let st2 = ParseState { args: seq![a + op], current: seq![], ..st0 };
    assert(r[0] == '>');
    if double {
        assert(r.drop_first()[0] == '>');
        assert(r.drop_first().drop_first() =~= b);
        assert(st1.args.push(st1.current + seq!['>', '>']) =~= seq![a + op]);
    } else {
        assert(r.drop_first() =~= b);
        assert(b[0] != '>');
        assert(a.push('>') =~= a + op);
        assert(st1.current == a);
        assert(st1.args.push(st1.current.push('>')) =~= seq![a + op]);
    }
    assert(split_words(r, st1) == split_words(b, st2));
    let empty: Seq<char> = seq![];
    assert(b + empty =~= b);
    lemma_ordinary_run(b, empty, st2);
    assert(Seq::<char>::empty() + b =~= b);
    assert(seq![a + op].push(b) =~= seq![a + op, b]);
}

/// The variables a word sees: a shell variable when there is one of that
/// name, else an environment variable, else none.
pub proof fn law_shell_variables_win(
    vars: Map<Seq<char>, Seq<char>>,
    env: Map<Seq<char>, Seq<char>>,
    name: Seq<char>,
)
    ensures
        vars.contains_key(name) ==> visible(vars, env).contains_key(name) && visible(vars, env)[name]
            == vars[name],
        !vars.contains_key(name) && env.contains_key(name) ==> visible(vars, env).contains_key(name)
            && visible(vars, env)[name] == env[name],
        !vars.contains_key(name) && !env.contains_key(name) ==> !visible(vars, env).contains_key(
            name,
        ),
{
}

/// `declare NAME=VALUE` refuses a name that starts with a digit or holds an
/// ASCII character other than a letter, a digit or `_`: it prints that the
/// argument is not a valid identifier and changes nothing; for names and
/// values without `$`, `>` or (in the name) `=`.
pub proof fn law_declare_refuses_bad_names(
    st: ShellView,
    env: Map<Seq<char>, Seq<char>>,
    name: Seq<char>,
    value: Seq<char>,
)
    requires
        name.len() > 0,
        ('0' <= name[0] && name[0] <= '9') || exists|i: int|
            0 <= i < name.len() && #[trigger] name[i] <= '\u{7f}' && !ascii_name_char(name[i]),
        lacks(name, '$'),
        lacks(name, '>'),
        lacks(name, '='),
        lacks(value, '$'),
        lacks(value, '>'),
    ensures
        spec_evaluate(st, env, seq!["declare"@, name + seq!['='] + value]) == (st, seq![
            EffectView::Print("declare: `"@ + (name + seq!['='] + value) + "': not a valid identifier"@),
        ]),
{
    lemma_names();
    let word = name + seq!['='] + value;
    let set = seq!["declare"@, word];
    assert(lacks(word, '$'));
    assert(lacks(word, '>'));
    assert forall|k: int| 0 <= k < set.len() implies lacks(#[trigger] set[k], '>') by {}
    assert forall|k: int| 0 <= k < set.len() implies lacks(#[trigger] set[k], '$') by {}
    assert(set.last() != seq!['&']) by {
        assert(word.len() >= 2);
    }
    lemma_plain_command(set);
    lemma_expand_all_plain(visible(st.variables, env), set);
    let eq = seq!['='];
    assert(word.subrange(name.len() as int, name.len() + 1 as int) =~= eq);
    assert forall|j: int| 0 <= j < name.len() implies !#[trigger] matches_at(word, eq, j) by {
        assert(word.subrange(j, j + 1)[0] == name[j]);
    }
    lemma_index_of_first(word, eq, name.len() as int);
    assert(word.take(name.len() as int) =~= name);
    assert(!valid_identifier(name)) by {
        if !('0' <= name[0] && name[0] <= '9') {
            let i = choose|i: int|
                0 <= i < name.len() && #[trigger] name[i] <= '\u{7f}' && !ascii_name_char(name[i]);
            assert(!(spec_alphanumeric(name[i]) || name[i] == '_'));
        }
    }
    let r = seq![EffectView::Print("declare: `"@ + word + "': not a valid identifier"@)];
    assert(Seq::<EffectView>::empty() + r =~= r);
}

/// `type NAME` for a name that is none of the builtins (echo, type, exit,
/// pwd, cd, history, complete, jobs, declare) asks for NAME to be looked up
/// on `PATH`, for names without `$` or `>` and other than `&`.
pub proof fn law_type_looks_up_others(st: ShellView, env: Map<Seq<char>, Seq<char>>, b: Seq<char>)
    requires
        !(b == "echo"@ || b == "type"@ || b == "exit"@ || b == "pwd"@ || b == "cd"@ || b
            == "history"@ || b == "complete"@ || b == "jobs"@ || b == "declare"@),
        lacks(b, '$'),
        lacks(b, '>'),
        b != seq!['&'],
    ensures
        spec_evaluate(st, env, seq!["type"@, b]) == (st, seq![
            EffectView::DescribeCommand(b, b, None),
        ]),
{
    lemma_names();
    let args = seq!["type"@, b];
    assert forall|k: int| 0 <= k < args.len() implies lacks(#[trigger] args[k], '>') by {}
    assert forall|k: int| 0 <= k < args.len() implies lacks(#[trigger] args[k], '$') by {}
    lemma_plain_command(args);
    lemma_expand_all_plain(visible(st.variables, env), args);
    assert("type"@ != "echo"@) by {
        assert("type"@[0] != "echo"@[0]);
    }
    let r = seq![EffectView::DescribeCommand(b, b, None)];
    assert(Seq::<EffectView>::empty() + r =~= r);
}

} // verus!
