//! The command history: reading it from text, listing it, and the text
//! written to a history file.
use vstd::prelude::*;
use crate::text::{
    append_str, concat, copy_range, from_chars, push_decimal, split_by, split_chars, str_eq,
    to_chars, decimal,
};

verus! {

/// A line without the carriage return of a `\r\n` ending.
pub open spec fn strip_cr(p: Seq<char>) -> Seq<char> {
    if p.len() > 0 && p.last() == '\r' {
        p.drop_last()
    } else {
        p
    }
}

/// The lines of `text` as `str::lines` yields them, up to a last empty one:
/// split at `\n`, with a `\r` before a `\n` dropped.
pub open spec fn raw_lines(text: Seq<char>) -> Seq<Seq<char>> {
    let ps = split_by(text, seq!['\n']);
    Seq::new(ps.len(), |i: int| if i + 1 < ps.len() { strip_cr(ps[i]) } else { ps[i] })
}

/// The non-empty lines, in order.
pub open spec fn non_empty(ls: Seq<Seq<char>>) -> Seq<Seq<char>>
    decreases ls.len(),
{
    if ls.len() == 0 {
        seq![]
    } else if ls.last().len() > 0 {
        non_empty(ls.drop_last()).push(ls.last())
    } else {
        non_empty(ls.drop_last())
    }
}

/// The history entries that a history file holds: its non-empty lines.
pub open spec fn history_lines(text: Seq<char>) -> Seq<Seq<char>> {
    non_empty(raw_lines(text))
}

/// The non-empty lines of `text`, in order.
pub fn lines_of(text: &str) -> (r: Vec<String>)
    ensures
        r.deep_view() == history_lines(text@),
{
    let t = to_chars(text);
    let nl: [char; 1] = ['\n'];
    assert(nl@ =~= seq!['\n']);
    let pieces = split_chars(t.as_slice(), nl.as_slice());
    let ghost ps = split_by(text@, seq!['\n']);
    let ghost raw = raw_lines(text@);
    let mut r: Vec<String> = Vec::new();
    let mut i: usize = 0;
    assert(raw.take(0) =~= Seq::<Seq<char>>::empty());
    assert(r.deep_view() =~= Seq::<Seq<char>>::empty());
    while i < pieces.len()
        invariant
            i <= pieces@.len(),
            ps == split_by(text@, seq!['\n']),
            pieces@.len() == ps.len(),
            forall|j: int| 0 <= j < ps.len() ==> #[trigger] pieces@[j]@ == ps[j],
            raw == raw_lines(text@),
            raw.len() == ps.len(),
            r.deep_view() == non_empty(raw.take(i as int)),
        decreases pieces@.len() - i,
    {
        let p = pieces[i].as_slice();
        let plen = p.len();
        let line = if i + 1 < pieces.len() && plen > 0 && p[plen - 1] == '\r' {
            copy_range(p, 0, plen - 1)
        } else {
            copy_range(p, 0, plen)
        };
        proof {
            assert(p@ == ps[i as int]);
            if i + 1 < ps.len() && plen > 0 && p@[plen - 1] == '\r' {
                assert(line@ =~= strip_cr(ps[i as int]));
            } else {
                assert(line@ =~= ps[i as int]);
            }
            assert(line@ == raw[i as int]);
            assert(raw.take(i + 1).drop_last() =~= raw.take(i as int));
            assert(raw.take(i + 1).last() == raw[i as int]);
        }
        if line.len() > 0 {
            let ghost before = r.deep_view();
            let s = from_chars(line.as_slice());
            r.push(s);
            assert(r.deep_view() =~= before.push(line@));
        }
        i = i + 1;
    }
    assert(raw.take(i as int) =~= raw);
    r
}

/// Appends the non-empty lines of `text` to the history.
pub fn append_history_text(history: &mut Vec<String>, text: &str)
    ensures
        final(history).deep_view() == old(history).deep_view() + history_lines(text@),
{
    let lines = lines_of(text);
    let ghost added = lines.deep_view();
    let mut i: usize = 0;
    while i < lines.len()
        invariant
            i <= lines@.len(),
            added == lines.deep_view(),
            history.deep_view() == old(history).deep_view() + added.take(i as int),
        decreases lines@.len() - i,
    {
        let ghost before = history.deep_view();
        let line = from_chars(to_chars(lines[i].as_str()).as_slice());
        history.push(line);
        assert(history.deep_view() =~= before.push(added[i as int]));
        assert(added.take(i + 1) =~= added.take(i as int).push(added[i as int]));
        i = i + 1;
    }
    assert(added.take(i as int) =~= added);
}

/// The history listed with consecutive numbers starting at `first`:
/// `<n> <entry>`.
pub open spec fn numbered_lines(h: Seq<Seq<char>>, first: nat) -> Seq<Seq<char>> {
    Seq::new(h.len(), |i: int| decimal((first + i) as nat) + seq![' '] + h[i])
}

/// The last `entries` entries, each as a tab, its number counted from one,
/// a space and the entry.
pub open spec fn tail_lines(h: Seq<Seq<char>>, entries: nat) -> Seq<Seq<char>> {
    let start = h.len() - entries;
    Seq::new(
        entries,
        |i: int| seq!['\t'] + decimal((start + i + 1) as nat) + seq![' '] + h[start + i],
    )
}

/// Lists the history, numbering the entries from `first`.
pub fn list_numbered(history: &[String], first: usize) -> (r: Vec<String>)
    requires
        first + history@.len() <= usize::MAX,
    ensures
        r.deep_view() == numbered_lines(history@.map_values(|s: String| s@), first as nat),
{
    let ghost h = history@.map_values(|s: String| s@);
    let mut r: Vec<String> = Vec::new();
    let mut i: usize = 0;
    while i < history.len()
        invariant
            i <= history@.len(),
            first + history@.len() <= usize::MAX,
            h == history@.map_values(|s: String| s@),
            r.deep_view() == numbered_lines(h, first as nat).take(i as int),
        decreases history@.len() - i,
    {
        let mut line: Vec<char> = Vec::new();
        push_decimal(&mut line, first + i);
        line.push(' ');
        append_str(&mut line, history[i].as_str());
        let ghost before = r.deep_view();
        let s = from_chars(line.as_slice());
        r.push(s);
        assert(line@ =~= decimal((first + i) as nat) + seq![' '] + h[i as int]);
        assert(r.deep_view() =~= before.push(s@));
        assert(numbered_lines(h, first as nat).take(i + 1) =~= numbered_lines(h, first as nat).take(
            i as int,
        ).push(s@));
        i = i + 1;
    }
    assert(numbered_lines(h, first as nat).take(i as int) =~= numbered_lines(h, first as nat));
    r
}

/// Lists the last `entries` entries of the history.
pub fn list_tail(history: &[String], entries: usize) -> (r: Vec<String>)
    requires
        entries <= history@.len(),
    ensures
        r.deep_view() == tail_lines(history@.map_values(|s: String| s@), entries as nat),
{
    let ghost h = history@.map_values(|s: String| s@);
    let start = history.len() - entries;
    let mut r: Vec<String> = Vec::new();
    let mut i: usize = 0;
    while i < entries
        invariant
            i <= entries,
            start + entries == history@.len(),
            history@.len() <= usize::MAX,
            h == history@.map_values(|s: String| s@),
            r.deep_view() == tail_lines(h, entries as nat).take(i as int),
        decreases entries - i,
    {
        let mut line: Vec<char> = Vec::new();
        line.push('\t');
        push_decimal(&mut line, start + i + 1);
        line.push(' ');
        append_str(&mut line, history[start + i].as_str());
        let ghost before = r.deep_view();
        let s = from_chars(line.as_slice());
        r.push(s);
        assert(line@ =~= seq!['\t'] + decimal((start + i + 1) as nat) + seq![' '] + h[start + i]);
        assert(r.deep_view() =~= before.push(s@));
        assert(tail_lines(h, entries as nat).take(i + 1) =~= tail_lines(h, entries as nat).take(
            i as int,
        ).push(s@));
        i = i + 1;
    }
    assert(tail_lines(h, entries as nat).take(i as int) =~= tail_lines(h, entries as nat));
    r
}

/// The text of a history file holding the entries from `start` on, one per
/// line.
pub open spec fn file_text(h: Seq<Seq<char>>, start: int) -> Seq<char> {
    concat(h.skip(start).map_values(|l: Seq<char>| l.push('\n')))
}

/// The text written for the history entries from `start` on.
pub fn history_file_text(history: &[String], start: usize) -> (r: String)
    requires
        start <= history@.len(),
    ensures
        r@ == file_text(history@.map_values(|s: String| s@), start as int),
{
    let ghost h = history@.map_values(|s: String| s@);
    let ghost ls = h.skip(start as int).map_values(|l: Seq<char>| l.push('\n'));
    let mut out: Vec<char> = Vec::new();
    let mut i: usize = start;
    assert(ls.take(0) =~= Seq::<Seq<char>>::empty());
    while i < history.len()
        invariant
            start <= i <= history@.len(),
            h == history@.map_values(|s: String| s@),
            ls == h.skip(start as int).map_values(|l: Seq<char>| l.push('\n')),
            out@ == concat(ls.take(i - start)),
        decreases history@.len() - i,
    {
        let ghost before = out@;
        append_str(&mut out, history[i].as_str());
        out.push('\n');
        assert(ls.take(i - start + 1).drop_last() =~= ls.take(i - start));
        assert(ls[i - start] == h[i as int].push('\n'));
        assert(out@ =~= before + h[i as int].push('\n'));
        i = i + 1;
    }
    assert(ls.take(i - start) =~= ls);
    from_chars(out.as_slice())
}

/// The index of the last entry equal to `m`.
pub open spec fn last_match(h: Seq<Seq<char>>, m: Seq<char>) -> Option<nat>
    decreases h.len(),
{
    if h.len() == 0 {
        None
    } else if h.last() == m {
        Some((h.len() - 1) as nat)
    } else {
        last_match(h.drop_last(), m)
    }
}

/// The entry that `history -a <file>` leaves in the history.
pub open spec fn append_marker(file: Seq<char>) -> Seq<char> {
    "history -a "@ + file
}

/// Where `history -a <file>` starts writing: after the last earlier
/// `history -a <file>` entry (the newest entry aside), or at the beginning.
pub open spec fn append_start(h: Seq<Seq<char>>, file: Seq<char>) -> nat {
    match last_match(h.drop_last(), append_marker(file)) {
        Some(p) => p + 1,
        None => 0,
    }
}

/// Where `history -a <file>` starts writing.
pub fn history_append_start(history: &[String], file: &str) -> (r: usize)
    requires
        history@.len() > 0,
    ensures
        r == append_start(history@.map_values(|s: String| s@), file@),
        r < history@.len(),
{
    let ghost h = history@.map_values(|s: String| s@);
    let mut marker: Vec<char> = Vec::new();
    append_str(&mut marker, "history -a ");
    append_str(&mut marker, file);
    let marker = from_chars(marker.as_slice());
    let mut k: usize = history.len() - 1;
    assert(h.drop_last().take(k as int) =~= h.drop_last());
    while k > 0
        invariant
            k < history@.len(),
            h == history@.map_values(|s: String| s@),
            marker@ == append_marker(file@),
            last_match(h.drop_last(), marker@) == last_match(h.drop_last().take(k as int), marker@),
        decreases k,
    {
        let ghost t = h.drop_last().take(k as int);
        assert(t.last() == history@[k - 1]@);
        assert(t.drop_last() =~= h.drop_last().take(k - 1));
        if str_eq(history[k - 1].as_str(), marker.as_str()) {
            return k;
        }
        k = k - 1;
    }
    0
}

} // verus!
