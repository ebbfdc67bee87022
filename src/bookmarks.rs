//! The store: a mapping from keys to bookmarks, with at most one entry per
//! key, kept in a vector in a fixed order.

use vstd::prelude::*;
use vstd::string::*;
use crate::bookmark::{Bookmark, BookmarkModel, describe};
use crate::words::{split_words, words};

verus! {

/// A key with the bookmark stored under it, as mathematical values.
pub type EntryModel = (Seq<char>, BookmarkModel);

/// The mathematical value of each stored pair.
pub open spec fn entries_view(v: Seq<(String, Bookmark)>) -> Seq<EntryModel> {
    v.map_values(|p: (String, Bookmark)| (p.0@, p.1@))
}

/// The mapping that a sequence of pairs gives when each is put in turn, a
/// later pair replacing an earlier one with the same key.
pub open spec fn map_of_pairs(l: Seq<EntryModel>) -> Map<Seq<char>, BookmarkModel>
    decreases l.len(),
{
    if l.len() == 0 {
        Map::empty()
    } else {
        map_of_pairs(l.drop_last()).insert(l.last().0, l.last().1)
    }
}

/// Whether no two pairs of `l` share a key.
pub open spec fn keys_unique(l: Seq<EntryModel>) -> bool {
    forall|i: int, j: int| 0 <= i < l.len() && 0 <= j < l.len() && i != j ==> l[i].0 != l[j].0
}

/// The bookmark that `insert` builds: the address, and the words of the
/// argument string when one is given.
pub open spec fn new_entry(addr: Seq<char>, args: Option<Seq<char>>) -> BookmarkModel {
    BookmarkModel {
        addr,
        args: match args {
            Some(a) => Some(words(a)),
            None => None,
        },
    }
}

/// The bookmark stored under `key`, if any.
pub open spec fn lookup(m: Map<Seq<char>, BookmarkModel>, key: Seq<char>) -> Option<BookmarkModel> {
    if m.contains_key(key) {
        Some(m[key])
    } else {
        None
    }
}

/// The argument string of a call, as characters.
pub open spec fn opt_view(s: Option<&str>) -> Option<Seq<char>> {
    match s {
        Some(t) => Some(t@),
        None => None,
    }
}

/// The longest key of a listing, in characters.
pub open spec fn max_key_len(l: Seq<EntryModel>) -> nat
    decreases l.len(),
{
    if l.len() == 0 {
        0
    } else if l.last().0.len() > max_key_len(l.drop_last()) {
        l.last().0.len()
    } else {
        max_key_len(l.drop_last())
    }
}

/// `s` with spaces put in front of it up to `width` characters.
pub open spec fn pad_left(s: Seq<char>, width: nat) -> Seq<char> {
    if s.len() < width {
        Seq::new((width - s.len()) as nat, |i: int| ' ') + s
    } else {
        s
    }
}

/// One line of a listing: the key right-aligned to `width`, an arrow, and
/// the bookmark.
pub open spec fn entry_line(e: EntryModel, width: nat) -> Seq<char> {
    pad_left(e.0, width) + " -> "@ + describe(e.1)
}

/// The lines of a listing joined by line feeds, with none after the last.
pub open spec fn render_lines(l: Seq<EntryModel>, width: nat) -> Seq<char>
    decreases l.len(),
{
    if l.len() == 0 {
        seq![]
    } else if l.len() == 1 {
        entry_line(l[0], width)
    } else {
        render_lines(l.drop_last(), width) + "\n"@ + entry_line(l.last(), width)
    }
}

/// A listing of pairs, each key right-aligned to the longest one.
pub open spec fn render(l: Seq<EntryModel>) -> Seq<char> {
    render_lines(l, max_key_len(l))
}

/// `s` with spaces put in front of it up to `width` characters.
fn padded(s: &str, width: usize) -> (r: String)
    ensures
        r@ == pad_left(s@, width as nat),
{
    let n = s.unicode_len();
    let mut out = String::new();
    let mut i: usize = n;
    while i < width
        invariant
            n == s@.len(),
            n <= i,
            i <= width || i == n,
            out@ == Seq::new((i - n) as nat, |j: int| ' '),
        decreases width - i,
    {
        proof {
            reveal_strlit(" ");
            assert(" "@.len() == 1 && " "@[0] == ' ');
        }
        out.append(" ");
        assert(out@ =~= Seq::new((i + 1 - n) as nat, |j: int| ' '));
        i = i + 1;
    }
    out.append(s);
    assert(out@ =~= pad_left(s@, width as nat));
    out
}

/// The bookmark store. Entries keep the order in which their keys first
/// came in: the order of the document they were loaded from, then new keys
/// at the end. Listing and saving go by that order.
pub struct Bookmarks {
    entries: Vec<(String, Bookmark)>,
    model: Ghost<Map<Seq<char>, BookmarkModel>>,
}

impl View for Bookmarks {
    type V = Map<Seq<char>, BookmarkModel>;

    closed spec fn view(&self) -> Map<Seq<char>, BookmarkModel> {
        self.model@
    }
}

impl Bookmarks {
    /// The stored pairs, in their order.
    pub closed spec fn listing(&self) -> Seq<EntryModel> {
        entries_view(self.entries@)
    }

    /// Keys are unique, and the pairs are exactly the mapping.
    pub closed spec fn wf(&self) -> bool {
        let l = self.listing();
        &&& keys_unique(l)
        &&& forall|i: int|
            0 <= i < l.len() ==> self.model@.contains_key(#[trigger] l[i].0) && self.model@[l[i].0]
                == l[i].1
        &&& forall|k: Seq<char>|
            #[trigger] self.model@.contains_key(k) ==> exists|i: int|
                0 <= i < l.len() && #[trigger] l[i].0 == k
    }

    /// Writing out the pairs of a store and building a store from them again
    /// gives the same mapping: same keys, same address and arguments for each.
    pub proof fn lemma_entries_round_trip(&self)
        requires
            self.wf(),
        ensures
            keys_unique(self.listing()),
            map_of_pairs(self.listing()) == self@,
    {
        let l = self.listing();
        lemma_map_of_unique_pairs(l);
        assert(map_of_pairs(l) =~= self@) by {
            assert forall|k: Seq<char>| #[trigger] self@.contains_key(k) implies map_of_pairs(
                l,
            ).contains_key(k) && map_of_pairs(l)[k] == self@[k] by {
                let i = choose|i: int| 0 <= i < l.len() && #[trigger] l[i].0 == k;
                assert(l[i].0 == k);
            }
        }
    }

    /// The store that a missing or empty document holds: an empty one.
    /// Gives `None` where the document has text, which must then be parsed.
    pub fn load_blank(document: Option<&str>) -> (r: Option<Bookmarks>)
        ensures
            match r {
                Some(b) => {
                    &&& b.wf()
                    &&& b@ == Map::<Seq<char>, BookmarkModel>::empty()
                    &&& (document is None || document->0@.len() == 0)
                },
                None => document is Some && document->0@.len() > 0,
            },
    {
        match document {
            Some(text) => {
                if text.is_empty() {
                    Some(Bookmarks::new())
                } else {
                    None
                }
            },
            None => Some(Bookmarks::new()),
        }
    }

    /// An empty store.
    pub fn new() -> (r: Bookmarks)
        ensures
            r.wf(),
            r@ == Map::<Seq<char>, BookmarkModel>::empty(),
            r.listing() == Seq::<EntryModel>::empty(),
    {
        let r = Bookmarks { entries: Vec::new(), model: Ghost(Map::empty()) };
        assert(r.listing() =~= Seq::<EntryModel>::empty());
        r
    }

    /// The position of `key` among the entries.
    fn find(&self, key: &String) -> (r: Option<usize>)
        requires
            self.wf(),
        ensures
            match r {
                Some(i) => i < self.listing().len() && self.listing()[i as int].0 == key@
                    && self@.contains_key(key@),
                None => !self@.contains_key(key@),
            },
    {
        let mut i: usize = 0;
        while i < self.entries.len()
            invariant
                self.wf(),
                i <= self.entries@.len(),
                forall|j: int| 0 <= j < i ==> #[trigger] self.listing()[j].0 != key@,
            decreases self.entries@.len() - i,
        {
            assert(self.listing()[i as int].0 == self.entries@[i as int].0@);
            if self.entries[i].0 == *key {
                return Some(i);
            }
            i = i + 1;
        }
        None
    }

    /// Stores `b` under `key`, replacing what was there in place or adding
    /// it at the end.
    fn put(&mut self, key: String, b: Bookmark)
        requires
            old(self).wf(),
        ensures
            final(self).wf(),
            final(self)@ == old(self)@.insert(key@, b@),
            final(self).listing() == if old(self)@.contains_key(key@) {
                old(self).listing().update(
                    choose|i: int|
                        0 <= i < old(self).listing().len() && old(self).listing()[i].0 == key@,
                    (key@, b@),
                )
            } else {
                old(self).listing().push((key@, b@))
            },
    {
        let ghost l0 = self.listing();
        let ghost p = (key@, b@);
        let ghost at: int;
        match self.find(&key) {
            Some(i) => {
                let ghost c = choose|j: int| 0 <= j < l0.len() && l0[j].0 == key@;
                assert(c == i);
                self.entries.remove(i);
                self.entries.insert(i, (key, b));
                assert(self.listing() =~= l0.update(i as int, p));
                proof {
                    at = i as int;
                }
            },
            None => {
                self.entries.push((key, b));
                assert(self.listing() =~= l0.push(p));
                proof {
                    at = l0.len() as int;
                }
            },
        }
        self.model = Ghost(self.model@.insert(p.0, p.1));
        let ghost l = self.listing();
        assert(l[at] == p);
        assert forall|j: int| 0 <= j < l.len() && j != at implies #[trigger] l[j] == l0[j] && l0[j].0
            != p.0 by {}
        assert forall|k: Seq<char>| #[trigger] self.model@.contains_key(k) implies exists|i: int|
            0 <= i < l.len() && #[trigger] l[i].0 == k by {
            if k != p.0 {
                let j = choose|j: int| 0 <= j < l0.len() && #[trigger] l0[j].0 == k;
                assert(l[j] == l0[j]);
            } else {
                assert(l[at].0 == k);
            }
        }
    }

    /// Builds a bookmark from an address and, when given, an argument string
    /// split at ASCII whitespace, and stores it under `key`, replacing any
    /// bookmark stored there before.
    pub fn insert(&mut self, key: &str, addr: &str, args: Option<&str>)
        requires
            old(self).wf(),
        ensures
            final(self).wf(),
            final(self)@ == old(self)@.insert(key@, new_entry(addr@, opt_view(args))),
    {
        let b = Bookmark {
            addr: addr.to_owned(),
            args: match args {
                Some(a) => Some(split_words(a)),
                None => None,
            },
        };
        assert(b@ == new_entry(addr@, opt_view(args)));
        self.put(key.to_owned(), b);
    }

    /// The bookmark stored under `key`, if any.
    pub fn get(&self, key: &str) -> (r: Option<&Bookmark>)
        requires
            self.wf(),
        ensures
            match r {
                Some(b) => lookup(self@, key@) == Some(b@),
                None => lookup(self@, key@) is None,
            },
    {
        let k = key.to_owned();
        match self.find(&k) {
            Some(i) => {
                let ghost l = self.listing();
                assert(l[i as int].1 == self.entries@[i as int].1@);
                Some(&self.entries[i].1)
            },
            None => None,
        }
    }

    /// Takes the bookmark stored under `key` out of the store. Where there is
    /// none, the store stays as it was.
    pub fn remove(&mut self, key: &str) -> (r: Option<Bookmark>)
        requires
            old(self).wf(),
        ensures
            final(self).wf(),
            match r {
                Some(b) => {
                    &&& lookup(old(self)@, key@) == Some(b@)
                    &&& final(self)@ == old(self)@.remove(key@)
                },
                None => {
                    &&& lookup(old(self)@, key@) is None
                    &&& *final(self) == *old(self)
                },
            },
    {
        let k = key.to_owned();
        match self.find(&k) {
            Some(i) => {
                let ghost l0 = self.listing();
                let ghost m0 = self.model@;
                let (_, b) = self.entries.remove(i);
                self.model = Ghost(self.model@.remove(key@));
                let ghost l = self.listing();
                assert(l =~= l0.remove(i as int));
                assert forall|a: int, c: int|
                    0 <= a < l.len() && 0 <= c < l.len() && a != c implies l[a].0 != l[c].0 by {
                    let a0 = if a < i { a } else { a + 1 };
                    let c0 = if c < i { c } else { c + 1 };
                    assert(l[a] == l0[a0] && l[c] == l0[c0]);
                }
                assert forall|j: int| 0 <= j < l.len() implies self.model@.contains_key(
                    #[trigger] l[j].0,
                ) && self.model@[l[j].0] == l[j].1 by {
                    let j0 = if j < i { j } else { j + 1 };
                    assert(l[j] == l0[j0]);
                    assert(j0 != i);
                }
                assert forall|k2: Seq<char>| #[trigger] self.model@.contains_key(k2) implies exists|
                    j: int,
                | 0 <= j < l.len() && #[trigger] l[j].0 == k2 by {
                    let j0 = choose|j0: int| 0 <= j0 < l0.len() && #[trigger] l0[j0].0 == k2;
                    assert(j0 != i);
                    let j = if j0 < i { j0 } else { j0 - 1 };
                    assert(l[j] == l0[j0]);
                }
                Some(b)
            },
            None => None,
        }
    }

    /// The listing: one line per bookmark, in the store's order, each key
    /// right-aligned to the longest one, with no line feed after the last.
    pub fn to_text(&self) -> (r: String)
        requires
            self.wf(),
        ensures
            r@ == render(self.listing()),
    {
        let ghost l = self.listing();
        let mut width: usize = 0;
        let mut i: usize = 0;
        assert(l.subrange(0, 0) =~= Seq::<EntryModel>::empty());
        while i < self.entries.len()
            invariant
                l == self.listing(),
                i <= l.len(),
                width == max_key_len(l.subrange(0, i as int)),
            decreases l.len() - i,
        {
            assert(l.subrange(0, i + 1).drop_last() =~= l.subrange(0, i as int));
            let k = self.entries[i].0.as_str().unicode_len();
            if k > width {
                width = k;
            }
            i = i + 1;
        }
        assert(l.subrange(0, i as int) =~= l);
        let mut out = String::new();
        let mut j: usize = 0;
        while j < self.entries.len()
            invariant
                l == self.listing(),
                j <= l.len(),
                width == max_key_len(l),
                out@ == render_lines(l.subrange(0, j as int), width as nat),
            decreases l.len() - j,
        {
            let ghost before = out@;
            if j > 0 {
                out.append("\n");
            }
            let key_part = padded(self.entries[j].0.as_str(), width);
            out.append(key_part.as_str());
            out.append(" -> ");
            let d = self.entries[j].1.to_text();
            out.append(d.as_str());
            proof {
                let next = l.subrange(0, j + 1);
                assert(next.drop_last() =~= l.subrange(0, j as int));
                assert(next.last() == l[j as int]);
                if j == 0 {
                    assert(before =~= Seq::<char>::empty());
                    assert(out@ =~= entry_line(l[0], width as nat));
                } else {
                    assert(out@ =~= before + "\n"@ + entry_line(l[j as int], width as nat));
                }
            }
            j = j + 1;
        }
        assert(l.subrange(0, j as int) =~= l);
        out
    }

    /// The stored pairs, in their order, for listing or saving.
    pub fn entries(&self) -> (r: &Vec<(String, Bookmark)>)
        ensures
            entries_view(r@) == self.listing(),
    {
        &self.entries
    }

    /// A store holding the given pairs, put in turn: a later pair replaces
    /// an earlier one with the same key.
    pub fn from_entries(pairs: Vec<(String, Bookmark)>) -> (r: Bookmarks)
        ensures
            r.wf(),
            r@ == map_of_pairs(entries_view(pairs@)),
    {
        let ghost orig = pairs@;
        let mut r = Bookmarks::new();
        let mut rest = pairs;
        let ghost mut i: int = 0;
        assert(entries_view(orig.subrange(0, 0)) =~= Seq::<EntryModel>::empty());
        assert(orig.subrange(0, orig.len() as int) =~= orig);
        while rest.len() > 0
            invariant
                r.wf(),
                0 <= i <= orig.len(),
                rest@ == orig.subrange(i, orig.len() as int),
                r@ == map_of_pairs(entries_view(orig.subrange(0, i))),
            decreases rest@.len(),
        {
            let (k, b) = rest.remove(0);
            assert((k, b) == orig[i]);
            r.put(k, b);
            proof {
                let before = entries_view(orig.subrange(0, i));
                let after = entries_view(orig.subrange(0, i + 1));
                assert(after.drop_last() =~= before);
                assert(after.last() == (k@, b@));
                i = i + 1;
                assert(rest@ =~= orig.subrange(i, orig.len() as int));
            }
        }
        assert(orig.subrange(0, i) =~= orig);
        r
    }
}

/// After `insert`, `get` with the same key finds a bookmark with exactly
/// the address given and the words of the argument string given.
pub proof fn lemma_insert_then_get(
    m: Map<Seq<char>, BookmarkModel>,
    key: Seq<char>,
    addr: Seq<char>,
    args: Option<Seq<char>>,
)
    ensures
        lookup(m.insert(key, new_entry(addr, args)), key) == Some(
            BookmarkModel {
                addr,
                args: match args {
                    Some(a) => Some(words(a)),
                    None => None,
                },
            },
        ),
{
}

/// In a sequence of pairs with unique keys, each pair gives the value of
/// its key in the mapping, and each key of the mapping comes from a pair.
pub proof fn lemma_map_of_unique_pairs(l: Seq<EntryModel>)
    requires
        keys_unique(l),
    ensures
        forall|i: int|
            0 <= i < l.len() ==> map_of_pairs(l).contains_key(#[trigger] l[i].0) && map_of_pairs(
                l,
            )[l[i].0] == l[i].1,
        forall|k: Seq<char>|
            #[trigger] map_of_pairs(l).contains_key(k) ==> exists|i: int|
                0 <= i < l.len() && #[trigger] l[i].0 == k,
    decreases l.len(),
{
    if l.len() > 0 {
        let front = l.drop_last();
        assert(keys_unique(front));
        lemma_map_of_unique_pairs(front);
        assert forall|i: int| 0 <= i < l.len() implies map_of_pairs(l).contains_key(
            #[trigger] l[i].0,
        ) && map_of_pairs(l)[l[i].0] == l[i].1 by {
            if i < l.len() - 1 {
                assert(front[i] == l[i]);
                assert(l[i].0 != l[l.len() - 1].0);
            }
        }
        assert forall|k: Seq<char>| #[trigger] map_of_pairs(l).contains_key(k) implies exists|i: int|
            0 <= i < l.len() && #[trigger] l[i].0 == k by {
            if k != l.last().0 {
                assert(map_of_pairs(front).contains_key(k));
                let j = choose|j: int| 0 <= j < front.len() && #[trigger] front[j].0 == k;
                assert(l[j] == front[j]);
                assert(l[j].0 == k);
            } else {
                assert(l[l.len() - 1].0 == k);
            }
        }
    }
}

} // verus!
