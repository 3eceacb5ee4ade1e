//! A map from strings to strings, kept as a list of entries in which a
//! later entry overrides an earlier one with the same key. (vstd models
//! `HashMap` only for keys that obey its key model, which `String` is not
//! shown to do, so a map keyed by strings is kept here as a list.)
use vstd::prelude::*;
use crate::text::str_eq;

verus! {

/// The map that a list of `(key, value)` entries denotes: later entries win.
pub open spec fn map_of(s: Seq<(Seq<char>, Seq<char>)>) -> Map<Seq<char>, Seq<char>>
    decreases s.len(),
{
    if s.len() == 0 {
        Map::empty()
    } else {
        map_of(s.drop_last()).insert(s.last().0, s.last().1)
    }
}

/// Shell variables and completion registrations: names mapped to values.
pub struct StringMap {
    entries: Vec<(String, String)>,
}

impl StringMap {
    /// The entries, as character sequences.
    pub closed spec fn entries_view(&self) -> Seq<(Seq<char>, Seq<char>)> {
        self.entries@.map_values(|e: (String, String)| (e.0@, e.1@))
    }

    /// The empty map.
    pub fn new() -> (m: Self)
        ensures
            m@ == Map::<Seq<char>, Seq<char>>::empty(),
    {
        let m = StringMap { entries: Vec::new() };
        assert(m.entries_view() =~= Seq::<(Seq<char>, Seq<char>)>::empty());
        m
    }

    /// The value stored under `key`, if any.
    pub fn get(&self, key: &str) -> (r: Option<&String>)
        ensures
            match r {
                Some(v) => self@.contains_key(key@) && self@[key@] == v@,
                None => !self@.contains_key(key@),
            },
    {
        let ghost s = self.entries_view();
        let mut i: usize = self.entries.len();
        assert(s.take(i as int) =~= s);
        while i > 0
            invariant
                i <= self.entries@.len(),
                s == self.entries_view(),
                map_of(s.take(i as int)).contains_key(key@) == self@.contains_key(key@),
                map_of(s.take(i as int)).contains_key(key@) ==> map_of(s.take(i as int))[key@]
                    == self@[key@],
            decreases i,
        {
            let ghost t = s.take(i as int);
            assert(t.drop_last() =~= s.take(i - 1));
            assert(t.last() == s[i - 1]);
            if str_eq(self.entries[i - 1].0.as_str(), key) {
                return Some(&self.entries[i - 1].1);
            }
            i = i - 1;
        }
        None
    }

    /// Whether `key` has a value.
    pub fn contains_key(&self, key: &str) -> (r: bool)
        ensures
            r == self@.contains_key(key@),
    {
        self.get(key).is_some()
    }

    /// Gives `key` the value `value`, replacing any earlier one.
    pub fn insert(&mut self, key: String, value: String)
        ensures
            final(self)@ == old(self)@.insert(key@, value@),
    {
        self.remove(key.as_str());
        let ghost before = self.entries_view();
        let ghost k = key@;
        let ghost v = value@;
        self.entries.push((key, value));
        proof {
            assert(self.entries_view().drop_last() =~= before);
            assert(self.entries_view().last() == (k, v));
            assert(self@ =~= old(self)@.remove(k).insert(k, v));
        }
    }

    /// A map with the same entries.
    pub fn duplicate(&self) -> (r: StringMap)
        ensures
            r@ == self@,
    {
        let mut entries: Vec<(String, String)> = Vec::new();
        let mut i: usize = 0;
        while i < self.entries.len()
            invariant
                i <= self.entries@.len(),
                entries@.map_values(|e: (String, String)| (e.0@, e.1@)) == self.entries_view().take(
                    i as int,
                ),
            decreases self.entries@.len() - i,
        {
            let ghost before = entries@.map_values(|e: (String, String)| (e.0@, e.1@));
            let k = self.entries[i].0.clone();
            let v = self.entries[i].1.clone();
            entries.push((k, v));
            assert(entries@.map_values(|e: (String, String)| (e.0@, e.1@)) =~= before.push(
                self.entries_view()[i as int],
            ));
            assert(self.entries_view().take(i + 1) =~= self.entries_view().take(i as int).push(
                self.entries_view()[i as int],
            ));
            i = i + 1;
        }
        assert(self.entries_view().take(i as int) =~= self.entries_view());
        let r = StringMap { entries };
        assert(r.entries_view() =~= self.entries_view());
        r
    }

    /// Removes `key` and its value, if present.
    pub fn remove(&mut self, key: &str)
        ensures
            final(self)@ == old(self)@.remove(key@),
    {
        let ghost s = self.entries_view();
        let mut kept: Vec<(String, String)> = Vec::new();
        let mut i: usize = 0;
        while i < self.entries.len()
            invariant
                i <= self.entries@.len(),
                s == self.entries_view(),
                map_of(kept@.map_values(|e: (String, String)| (e.0@, e.1@))) =~= map_of(
                    s.take(i as int),
                ).remove(key@),
            decreases self.entries@.len() - i,
        {
            let ghost kv = kept@.map_values(|e: (String, String)| (e.0@, e.1@));
            let ghost t = s.take(i + 1);
            assert(t.drop_last() =~= s.take(i as int));
            assert(t.last() == s[i as int]);
            if !str_eq(self.entries[i].0.as_str(), key) {
                let k = self.entries[i].0.clone();
                let v = self.entries[i].1.clone();
                kept.push((k, v));
                let ghost kv2 = kept@.map_values(|e: (String, String)| (e.0@, e.1@));
                assert(kv2.drop_last() =~= kv);
                assert(map_of(kv2) =~= map_of(t).remove(key@));
            } else {
                assert(map_of(kv) =~= map_of(t).remove(key@));
            }
            i = i + 1;
        }
        assert(s.take(i as int) =~= s);
        self.entries = kept;
    }
}

impl View for StringMap {
    type V = Map<Seq<char>, Seq<char>>;

    closed spec fn view(&self) -> Map<Seq<char>, Seq<char>> {
        map_of(self.entries_view())
    }
}

} // verus!
