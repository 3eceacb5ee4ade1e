//! Expansion of `${NAME}` and `$NAME` in command words.
use vstd::prelude::*;
use crate::store::StringMap;
use crate::text::{
    alphanumeric, spec_alphanumeric, concat, copy_range, extend_chars, find_from, from_chars, index_of, lemma_index_of, rows,
    spec_contains, split_by, split_chars, to_chars,
};

verus! {

/// The variables a word sees: the shell's own, and the environment's where
/// the shell has none of that name.
pub open spec fn visible(vars: Map<Seq<char>, Seq<char>>, env: Map<Seq<char>, Seq<char>>) -> Map<
    Seq<char>,
    Seq<char>,
> {
    env.union_prefer_right(vars)
}

/// The value of `name`, or nothing when it is unset.
pub open spec fn value_or_empty(vars: Map<Seq<char>, Seq<char>>, name: Seq<char>) -> Seq<char> {
    if vars.contains_key(name) {
        vars[name]
    } else {
        seq![]
    }
}

/// A character that may be part of a variable name: alphanumeric or `_`.
pub open spec fn is_name_char(c: char) -> bool {
    spec_alphanumeric(c) || c == '_'
}

/// The length of the longest prefix of `p` made of name characters.
pub open spec fn name_len(p: Seq<char>) -> nat
    decreases p.len(),
{
    if p.len() == 0 || !is_name_char(p[0]) {
        0
    } else {
        1 + name_len(p.drop_first())
    }
}

/// The name prefix is no longer than the piece.
pub proof fn lemma_name_len(p: Seq<char>)
    ensures
        name_len(p) <= p.len(),
    decreases p.len(),
{
    if p.len() > 0 && is_name_char(p[0]) {
        lemma_name_len(p.drop_first());
    }
}

/// What a piece that followed `$` becomes: the value of the variable named
/// by its leading name characters (nothing when unset), then the rest.
pub open spec fn dollar_piece(vars: Map<Seq<char>, Seq<char>>, p: Seq<char>) -> Seq<char> {
    value_or_empty(vars, p.take(name_len(p) as int)) + p.skip(name_len(p) as int)
}

/// What a piece that followed `${` becomes: the variable named up to the
/// first `}`, then the rest; a piece without `}` vanishes.
pub open spec fn braced_piece(vars: Map<Seq<char>, Seq<char>>, piece: Seq<char>) -> Seq<char> {
    match index_of(piece, seq!['}']) {
        Some(i) => value_or_empty(vars, piece.take(i as int)) + piece.skip(i + 1 as int),
        None => seq![],
    }
}

/// What a word becomes: `None` when it expands to nothing and is dropped.
///
/// A word holding both `${` and `}` is cut at each `${`; the text before the
/// first cut is kept and each later piece is replaced by `braced_piece`.
/// Otherwise a word holding `$` is cut at each `$`; the first piece is kept
/// and each later piece is replaced by `dollar_piece`: the variable named by
/// its leading name characters, then the rest. Other words are kept as they
/// are.
pub open spec fn expand_word(vars: Map<Seq<char>, Seq<char>>, word: Seq<char>) -> Option<Seq<char>> {
    if spec_contains(word, seq!['$', '{']) && spec_contains(word, seq!['}']) {
        let parts = split_by(word, seq!['$', '{']);
        let e = parts[0] + concat(parts.drop_first().map_values(|p: Seq<char>| braced_piece(vars, p)));
        if e.len() == 0 { None } else { Some(e) }
    } else if spec_contains(word, seq!['$']) {
        let parts = split_by(word, seq!['$']);
        let e = parts[0] + concat(parts.drop_first().map_values(|p: Seq<char>| dollar_piece(vars, p)));
        if e.len() == 0 { None } else { Some(e) }
    } else {
        Some(word)
    }
}

/// The expanded words, with those that expand to nothing left out.
pub open spec fn expand_all(vars: Map<Seq<char>, Seq<char>>, words: Seq<Seq<char>>) -> Seq<Seq<char>>
    decreases words.len(),
{
    if words.len() == 0 {
        seq![]
    } else {
        let front = expand_all(vars, words.drop_last());
        match expand_word(vars, words.last()) {
            Some(w) => front.push(w),
            None => front,
        }
    }
}

/// Splitting never yields an empty list of pieces.
pub proof fn lemma_split_nonempty(s: Seq<char>, pat: Seq<char>)
    ensures
        split_by(s, pat).len() >= 1,
    decreases s.len(),
{
    if pat.len() > 0 {
        if let Some(i) = index_of(s, pat) {
            lemma_index_of(s, pat);
        }
    }
}

/// Appends the value of the variable named `name`, if it is set: the
/// shell's, else the environment's.
fn push_value(out: &mut Vec<char>, vars: &StringMap, env: &StringMap, name: &[char])
    ensures
        final(out)@ == old(out)@ + value_or_empty(visible(vars@, env@), name@),
{
    let key = from_chars(name);
    match vars.get(key.as_str()) {
        Some(v) => {
            let vc = to_chars(v.as_str());
            extend_chars(out, vc.as_slice());
        },
        None => match env.get(key.as_str()) {
            Some(v) => {
                let vc = to_chars(v.as_str());
                extend_chars(out, vc.as_slice());
            },
            None => {
                assert(old(out)@ + value_or_empty(visible(vars@, env@), name@) =~= old(out)@);
            },
        },
    }
}

/// Expands one word against the shell variables `vars` and the environment
/// `env`.
pub fn expand_word_exec(vars: &StringMap, env: &StringMap, word: &str) -> (r: Option<String>)
    ensures
        match expand_word(visible(vars@, env@), word@) {
            Some(w) => r matches Some(s) && s@ == w,
            None => r is None,
        },
{
    let w = to_chars(word);
    let open_brace: [char; 2] = ['$', '{'];
    let close_brace: [char; 1] = ['}'];
    let dollar: [char; 1] = ['$'];
    proof {
        assert(open_brace@ =~= seq!['$', '{']);
        assert(close_brace@ =~= seq!['}']);
        assert(dollar@ =~= seq!['$']);
        assert(w@.skip(0) =~= w@);
    }
    let has_open = find_from(w.as_slice(), open_brace.as_slice(), 0).is_some();
    let has_close = find_from(w.as_slice(), close_brace.as_slice(), 0).is_some();
    let has_dollar = find_from(w.as_slice(), dollar.as_slice(), 0).is_some();
    if has_open && has_close {
        let parts = split_chars(w.as_slice(), open_brace.as_slice());
        proof {
            lemma_split_nonempty(w@, seq!['$', '{']);
        }
        let ghost ps = rows(parts@);
        let ghost f = |p: Seq<char>| braced_piece(visible(vars@, env@), p);
        let mut out = copy_range(parts[0].as_slice(), 0, parts[0].len());
        assert(ps.drop_first().map_values(f).take(0) =~= Seq::<Seq<char>>::empty());
        let mut j: usize = 1;
        while j < parts.len()
            invariant
                1 <= j <= parts@.len(),
                ps == rows(parts@),
                out@ == ps[0] + concat(ps.drop_first().map_values(f).take(j - 1)),
                f == (|p: Seq<char>| braced_piece(visible(vars@, env@), p)),
                close_brace@ == seq!['}'],
            decreases parts@.len() - j,
        {
            let piece = parts[j].as_slice();
            let ghost before = out@;
            proof {
                assert(piece@ == ps[j as int]);
                lemma_index_of(piece@, seq!['}']);
                assert(piece@.skip(0) =~= piece@);
            }
            match find_from(piece, close_brace.as_slice(), 0) {
                Some(i) => {
                    assert(seq!['}'].len() == 1);
                    assert(i + 1 <= piece@.len());
                    let plen = piece.len();
                    let name = copy_range(piece, 0, i);
                    let rest = copy_range(piece, i + 1, plen);
                    push_value(&mut out, vars, env, name.as_slice());
                    extend_chars(&mut out, rest.as_slice());
                    assert(name@ =~= piece@.take(i as int));
                    assert(rest@ =~= piece@.skip(i + 1));
                },
                None => {},
            }
            proof {
                let q = ps.drop_first().map_values(f);
                assert(q.take(j as int).drop_last() =~= q.take(j - 1));
                assert(q[j - 1] == f(ps[j as int]));
                assert(out@ =~= before + f(piece@));
            }
            j = j + 1;
        }
        proof {
            let q = ps.drop_first().map_values(f);
            assert(q.take(j - 1) =~= q);
        }
        if out.len() == 0 {
            None
        } else {
            Some(from_chars(out.as_slice()))
        }
    } else if has_dollar {
        let parts = split_chars(w.as_slice(), dollar.as_slice());
        proof {
            lemma_split_nonempty(w@, seq!['$']);
        }
        let ghost ps = rows(parts@);
        let ghost f = |p: Seq<char>| dollar_piece(visible(vars@, env@), p);
        let mut out = copy_range(parts[0].as_slice(), 0, parts[0].len());
        assert(ps.drop_first().map_values(f).take(0) =~= Seq::<Seq<char>>::empty());
        let mut j: usize = 1;
        while j < parts.len()
            invariant
                1 <= j <= parts@.len(),
                ps == rows(parts@),
                out@ == ps[0] + concat(ps.drop_first().map_values(f).take(j - 1)),
                f == (|p: Seq<char>| dollar_piece(visible(vars@, env@), p)),
            decreases parts@.len() - j,
        {
            let ghost before = out@;
            let piece = parts[j].as_slice();
            let plen = piece.len();
            let mut k: usize = 0;
            assert(piece@.skip(0) =~= piece@);
            while k < plen && (alphanumeric(piece[k]) || piece[k] == '_')
                invariant
                    k <= plen,
                    plen == piece@.len(),
                    name_len(piece@) == k + name_len(piece@.skip(k as int)),
                decreases plen - k,
            {
                assert(piece@.skip(k as int).drop_first() =~= piece@.skip(k + 1));
                k = k + 1;
            }
            proof {
                if k < plen {
                    assert(piece@.skip(k as int)[0] == piece@[k as int]);
                }
                assert(name_len(piece@) == k);
            }
            let name = copy_range(piece, 0, k);
            let rest = copy_range(piece, k, plen);
            push_value(&mut out, vars, env, name.as_slice());
            extend_chars(&mut out, rest.as_slice());
            assert(piece@ == ps[j as int]);
            assert(name@ =~= piece@.take(k as int));
            assert(rest@ =~= piece@.skip(k as int));
            proof {
                let q = ps.drop_first().map_values(f);
                assert(q.take(j as int).drop_last() =~= q.take(j - 1));
                assert(q[j - 1] == f(ps[j as int]));
                assert(out@ =~= before + f(ps[j as int]));
            }
            j = j + 1;
        }
        proof {
            let q = ps.drop_first().map_values(f);
            assert(q.take(j - 1) =~= q);
        }
        if out.len() == 0 {
            None
        } else {
            Some(from_chars(out.as_slice()))
        }
    } else {
        Some(String::from_str(word))
    }
}

/// Expands every word of a command; words that expand to nothing are dropped.
pub fn expand_words(vars: &StringMap, env: &StringMap, words: &[String]) -> (r: Vec<String>)
    ensures
        r.deep_view() == expand_all(visible(vars@, env@), words@.map_values(|a: String| a@)),
{
    let ghost ws = words@.map_values(|a: String| a@);
    let mut r: Vec<String> = Vec::new();
    let mut i: usize = 0;
    assert(ws.take(0) =~= Seq::<Seq<char>>::empty());
    assert(r.deep_view() =~= Seq::<Seq<char>>::empty());
    while i < words.len()
        invariant
            i <= words@.len(),
            ws == words@.map_values(|a: String| a@),
            r.deep_view() == expand_all(visible(vars@, env@), ws.take(i as int)),
        decreases words@.len() - i,
    {
        let ghost before = r.deep_view();
        assert(ws.take(i + 1).drop_last() =~= ws.take(i as int));
        assert(ws.take(i + 1).last() == words@[i as int]@);
        match expand_word_exec(vars, env, words[i].as_str()) {
            Some(e) => {
                r.push(e);
                assert(r.deep_view() =~= before.push(e@));
            },
            None => {},
        }
        i = i + 1;
    }
    assert(ws.take(i as int) =~= ws);
    r
}

} // verus!
