//! The header map: logical header fields keyed by name, with insert-overwrite
//! (last-wins) semantics.  The map is viewed as a `Map<Seq<char>, Seq<char>>`.
use vstd::prelude::*;

use crate::text::str_eq;

verus! {

/// Inserts every entry of `es` into `m`, in order, later entries overwriting.
pub open spec fn put_all(
    m: Map<Seq<char>, Seq<char>>,
    es: Seq<(Seq<char>, Seq<char>)>,
) -> Map<Seq<char>, Seq<char>>
    decreases es.len(),
{
    if es.len() == 0 {
        m
    } else {
        put_all(m.insert(es[0].0, es[0].1), es.drop_first())
    }
}

/// The map that a sequence of entries denotes, later entries overwriting.
pub open spec fn map_of_entries(es: Seq<(Seq<char>, Seq<char>)>) -> Map<Seq<char>, Seq<char>> {
    put_all(Map::empty(), es)
}

/// The value of the last entry of `es` with key `k`, if any.
pub open spec fn lookup(es: Seq<(Seq<char>, Seq<char>)>, k: Seq<char>) -> Option<Seq<char>>
    decreases es.len(),
{
    if es.len() == 0 {
        None
    } else {
        match lookup(es.drop_first(), k) {
            Some(v) => Some(v),
            None => if es[0].0 == k {
                Some(es[0].1)
            } else {
                None
            },
        }
    }
}

/// No two entries share a key.
pub open spec fn distinct_keys(es: Seq<(Seq<char>, Seq<char>)>) -> bool {
    forall|i: int, j: int| 0 <= i < j < es.len() ==> es[i].0 != es[j].0
}

/// `put_all` looks keys up in `es` first (last entry winning) and falls back
/// to the base map.
pub proof fn lemma_put_all(m: Map<Seq<char>, Seq<char>>, es: Seq<(Seq<char>, Seq<char>)>)
    ensures
        forall|k: Seq<char>|
            #[trigger] put_all(m, es).contains_key(k) <==> m.contains_key(k) || lookup(es, k) is Some,
        forall|k: Seq<char>|
            put_all(m, es).contains_key(k) ==> #[trigger] put_all(m, es)[k] == (match lookup(es, k) {
                Some(v) => v,
                None => m[k],
            }),
    decreases es.len(),
{
    if es.len() > 0 {
        let m2 = m.insert(es[0].0, es[0].1);
        let rest = es.drop_first();
        lemma_put_all(m2, rest);
        assert(put_all(m, es) == put_all(m2, rest));
        assert forall|k: Seq<char>| #[trigger]
            put_all(m, es).contains_key(k) <==> m.contains_key(k) || lookup(es, k) is Some by {
            assert(put_all(m2, rest).contains_key(k) <==> m2.contains_key(k) || lookup(rest, k)
                is Some);
        }
        assert forall|k: Seq<char>| put_all(m, es).contains_key(k) implies #[trigger] put_all(
            m,
            es,
        )[k] == (match lookup(es, k) {
            Some(v) => v,
            None => m[k],
        }) by {
            assert(put_all(m2, rest).contains_key(k));
            assert(put_all(m2, rest)[k] == (match lookup(rest, k) {
                Some(v) => v,
                None => m2[k],
            }));
            if lookup(rest, k) is None {
                if es[0].0 == k {
                    assert(m2[k] == es[0].1);
                } else {
                    assert(m2[k] == m[k]);
                }
            }
        }
    }
}

pub proof fn lemma_put_all_push(
    m: Map<Seq<char>, Seq<char>>,
    es: Seq<(Seq<char>, Seq<char>)>,
    e: (Seq<char>, Seq<char>),
)
    ensures
        put_all(m, es.push(e)) == put_all(m, es).insert(e.0, e.1),
    decreases es.len(),
{
    if es.len() == 0 {
        assert(es.push(e)[0] == e);
        assert(es.push(e).drop_first() =~= Seq::<(Seq<char>, Seq<char>)>::empty());
        assert(put_all(m, es.push(e)) == put_all(
            m.insert(e.0, e.1),
            Seq::<(Seq<char>, Seq<char>)>::empty(),
        ));
        assert(put_all(m.insert(e.0, e.1), Seq::<(Seq<char>, Seq<char>)>::empty()) == m.insert(
            e.0,
            e.1,
        ));
        assert(put_all(m, es) == m);
    } else {
        let m2 = m.insert(es[0].0, es[0].1);
        assert(es.push(e)[0] == es[0]);
        assert(es.push(e).drop_first() =~= es.drop_first().push(e));
        lemma_put_all_push(m2, es.drop_first(), e);
        assert(put_all(m, es.push(e)) == put_all(m2, es.drop_first().push(e)));
        assert(put_all(m, es) == put_all(m2, es.drop_first()));
    }
}

/// If no entry of `es` has key `k`, the lookup fails.
pub proof fn lemma_lookup_none(es: Seq<(Seq<char>, Seq<char>)>, k: Seq<char>)
    requires
        forall|i: int| 0 <= i < es.len() ==> es[i].0 != k,
    ensures
        lookup(es, k) is None,
    decreases es.len(),
{
    if es.len() > 0 {
        lemma_lookup_none(es.drop_first(), k);
    }
}

/// With distinct keys, the entry at `i` decides the lookup of its key.
pub proof fn lemma_lookup_at(es: Seq<(Seq<char>, Seq<char>)>, i: int)
    requires
        distinct_keys(es),
        0 <= i < es.len(),
    ensures
        lookup(es, es[i].0) == Some(es[i].1),
    decreases es.len(),
{
    if i == 0 {
        assert(forall|j: int| 0 <= j < es.drop_first().len() ==> es.drop_first()[j].0 != es[0].0);
        lemma_lookup_none(es.drop_first(), es[0].0);
    } else {
        lemma_lookup_at(es.drop_first(), i - 1);
    }
}

pub proof fn lemma_lookup_push(
    es: Seq<(Seq<char>, Seq<char>)>,
    e: (Seq<char>, Seq<char>),
    k: Seq<char>,
)
    ensures
        lookup(es.push(e), k) == if e.0 == k {
            Some(e.1)
        } else {
            lookup(es, k)
        },
    decreases es.len(),
{
    if es.len() == 0 {
        assert(es.push(e).drop_first() =~= Seq::<(Seq<char>, Seq<char>)>::empty());
        assert(es.push(e)[0] == e);
    } else {
        assert(es.push(e).drop_first() =~= es.drop_first().push(e));
        lemma_lookup_push(es.drop_first(), e, k);
    }
}

/// Removing an entry leaves the lookup of every other key unchanged.
pub proof fn lemma_lookup_remove(es: Seq<(Seq<char>, Seq<char>)>, i: int, k: Seq<char>)
    requires
        0 <= i < es.len(),
        es[i].0 != k,
    ensures
        lookup(es.remove(i), k) == lookup(es, k),
    decreases es.len(),
{
    if i == 0 {
        assert(es.remove(0) =~= es.drop_first());
    } else {
        assert(es.remove(i).drop_first() =~= es.drop_first().remove(i - 1));
        lemma_lookup_remove(es.drop_first(), i - 1, k);
        assert(es.remove(i)[0] == es[0]);
    }
}

/// With distinct keys the denoted map has exactly one key per entry.
pub proof fn lemma_map_len(es: Seq<(Seq<char>, Seq<char>)>)
    requires
        distinct_keys(es),
    ensures
        map_of_entries(es).dom().finite(),
        map_of_entries(es).dom().len() == es.len(),
    decreases es.len(),
{
    if es.len() == 0 {
        assert(map_of_entries(es) == Map::<Seq<char>, Seq<char>>::empty());
        assert(Map::<Seq<char>, Seq<char>>::empty().dom() =~= Set::<Seq<char>>::empty());
    } else {
        let es0 = es.drop_last();
        let e = es.last();
        assert(es =~= es0.push(e));
        lemma_map_len(es0);
        lemma_put_all_push(Map::empty(), es0, e);
        lemma_put_all(Map::empty(), es0);
        assert(forall|j: int| 0 <= j < es0.len() ==> es0[j].0 != e.0);
        lemma_lookup_none(es0, e.0);
        assert(!map_of_entries(es0).contains_key(e.0));
        assert(map_of_entries(es).dom() =~= map_of_entries(es0).dom().insert(e.0));
    }
}

/// One rendered field line: name, colon and space, value, CRLF.
pub open spec fn spec_render_entry(e: (Seq<char>, Seq<char>)) -> Seq<char> {
    e.0 + seq![':', ' '] + e.1 + seq!['\r', '\n']
}

/// The rendered header block: the entries' field lines in order.
pub open spec fn spec_render(es: Seq<(Seq<char>, Seq<char>)>) -> Seq<char>
    decreases es.len(),
{
    if es.len() == 0 {
        Seq::empty()
    } else {
        spec_render_entry(es[0]) + spec_render(es.drop_first())
    }
}

/// A mapping from header names to header values with last-wins insertion.
pub struct HeaderMap {
    entries: Vec<(String, String)>,
}

impl View for HeaderMap {
    type V = Map<Seq<char>, Seq<char>>;

    closed spec fn view(&self) -> Map<Seq<char>, Seq<char>> {
        map_of_entries(self.entry_views())
    }
}

impl HeaderMap {
    /// The entries as character sequences, in insertion order: re-inserting a
    /// key moves it to the back, so the order is that of last occurrence.
    pub closed spec fn entry_views(&self) -> Seq<(Seq<char>, Seq<char>)> {
        Seq::new(self.entries@.len(), |i: int| (self.entries@[i].0@, self.entries@[i].1@))
    }

    #[verifier::type_invariant]
    closed spec fn inv(&self) -> bool {
        distinct_keys(self.entry_views())
    }

    /// An empty map.
    pub fn new() -> (r: HeaderMap)
        ensures
            r@ == Map::<Seq<char>, Seq<char>>::empty(),
    {
        let r = HeaderMap { entries: Vec::new() };
        proof {
            assert(r.entry_views() =~= Seq::<(Seq<char>, Seq<char>)>::empty());
        }
        r
    }

    fn index_of_key(&self, key: &str) -> (r: Option<usize>)
        ensures
            match r {
                Some(i) => i < self.entry_views().len() && self.entry_views()[i as int].0 == key@,
                None => forall|j: int|
                    0 <= j < self.entry_views().len() ==> (#[trigger] self.entry_views()[j]).0
                        != key@,
            },
    {
        let n = self.entries.len();
        let mut i: usize = 0;
        while i < n
            invariant
                0 <= i <= n,
                n == self.entries@.len(),
                forall|j: int| 0 <= j < i ==> (#[trigger] self.entry_views()[j]).0 != key@,
            decreases n - i,
        {
            if str_eq(self.entries[i].0.as_str(), key) {
                return Some(i);
            }
            i = i + 1;
        }
        None
    }

    /// Inserts a field, overwriting any prior entry for the same name and
    /// moving it behind every other entry.
    pub fn insert(&mut self, key: String, value: String)
        ensures
            final(self)@ == old(self)@.insert(key@, value@),
    {
        proof {
            use_type_invariant(&*self);
        }
        let ghost es = self.entry_views();
        let idx = self.index_of_key(key.as_str());
        let mut entries: Vec<(String, String)> = Vec::new();
        core::mem::swap(&mut entries, &mut self.entries);
        match idx {
            Some(i) => {
                entries.remove(i);
                entries.push((key, value));
                proof {
                    let es2 = es.remove(i as int).push((key@, value@));
                    assert(Seq::new(entries@.len(), |j: int| (entries@[j].0@, entries@[j].1@))
                        =~= es2);
                    Self::lemma_replace_view(es, i as int, (key@, value@));
                }
                self.entries = entries;
            },
            None => {
                entries.push((key, value));
                proof {
                    let es2 = es.push((key@, value@));
                    assert(Seq::new(entries@.len(), |j: int| (entries@[j].0@, entries@[j].1@))
                        =~= es2);
                    assert forall|a: int, b: int| 0 <= a < b < es2.len() implies es2[a].0
                        != es2[b].0 by {
                        if b < es2.len() - 1 {
                            assert(es2[a] == es[a] && es2[b] == es[b]);
                        } else {
                            assert(es2[a] == es[a]);
                        }
                    }
                    lemma_put_all(Map::empty(), es);
                    lemma_put_all(Map::empty(), es2);
                    assert forall|k: Seq<char>| true implies lookup(es2, k) == if k == key@ {
                        Some(value@)
                    } else {
                        lookup(es, k)
                    } by {
                        lemma_lookup_push(es, (key@, value@), k);
                    }
                    assert(map_of_entries(es2) =~= map_of_entries(es).insert(key@, value@));
                }
                self.entries = entries;
            },
        }
    }

    /// Replacing the one entry with a given key by a trailing entry with the
    /// same key re-denotes the map with that key overwritten.
    proof fn lemma_replace_view(es: Seq<(Seq<char>, Seq<char>)>, i: int, e: (Seq<char>, Seq<char>))
        requires
            distinct_keys(es),
            0 <= i < es.len(),
            es[i].0 == e.0,
        ensures
            distinct_keys(es.remove(i).push(e)),
            map_of_entries(es.remove(i).push(e)) == map_of_entries(es).insert(e.0, e.1),
    {
        let es2 = es.remove(i).push(e);
        assert forall|a: int, b: int| 0 <= a < b < es2.len() implies es2[a].0 != es2[b].0 by {
            if b < es2.len() - 1 {
                // both are entries of es at shifted positions
                assert(es2[a] == if a < i {
                    es[a]
                } else {
                    es[a + 1]
                });
                assert(es2[b] == if b < i {
                    es[b]
                } else {
                    es[b + 1]
                });
            } else {
                assert(es2[a] == if a < i {
                    es[a]
                } else {
                    es[a + 1]
                });
            }
        }
        lemma_put_all(Map::empty(), es);
        lemma_put_all(Map::empty(), es2);
        assert forall|k: Seq<char>| true implies lookup(es2, k) == if k == e.0 {
            Some(e.1)
        } else {
            lookup(es, k)
        } by {
            lemma_lookup_push(es.remove(i), e, k);
            if k != e.0 {
                lemma_lookup_remove(es, i, k);
            }
        }
        assert(map_of_entries(es2) =~= map_of_entries(es).insert(e.0, e.1));
    }

    /// Looks a field up by name.
    pub fn get<'a>(&'a self, key: &str) -> (r: Option<&'a String>)
        ensures
            match r {
                Some(v) => self@.contains_key(key@) && v@ == self@[key@],
                None => !self@.contains_key(key@),
            },
    {
        proof {
            use_type_invariant(self);
            lemma_put_all(Map::empty(), self.entry_views());
        }
        match self.index_of_key(key) {
            Some(i) => {
                proof {
                    lemma_lookup_at(self.entry_views(), i as int);
                }
                Some(&self.entries[i].1)
            },
            None => {
                proof {
                    lemma_lookup_none(self.entry_views(), key@);
                }
                None
            },
        }
    }

    /// The number of fields.
    pub fn len(&self) -> (r: usize)
        ensures
            r == self@.dom().len(),
    {
        proof {
            use_type_invariant(self);
            lemma_map_len(self.entry_views());
        }
        self.entries.len()
    }

    /// Whether the map holds no field.
    pub fn is_empty(&self) -> (r: bool)
        ensures
            r <==> self@ == Map::<Seq<char>, Seq<char>>::empty(),
    {
        proof {
            use_type_invariant(self);
            lemma_put_all(Map::empty(), self.entry_views());
            if self.entry_views().len() > 0 {
                lemma_lookup_at(self.entry_views(), 0);
                assert(self@.contains_key(self.entry_views()[0].0));
            } else {
                assert(self.entry_views() =~= Seq::<(Seq<char>, Seq<char>)>::empty());
            }
        }
        self.entries.len() == 0
    }

    /// Renders the map as a header block: one `name: value` line per field,
    /// CRLF-terminated, in insertion order (each name at its last occurrence).
    pub fn render(&self) -> (r: String)
        ensures
            r@ == spec_render(self.entry_views()),
            distinct_keys(self.entry_views()),
            map_of_entries(self.entry_views()) == self@,
    {
        proof {
            use_type_invariant(self);
        }
        let ghost ev = self.entry_views();
        let mut out = String::new();
        let n = self.entries.len();
        let mut i: usize = 0;
        proof {
            assert(ev.skip(0) =~= ev);
            assert(out@ + spec_render(ev) =~= spec_render(ev));
        }
        while i < n
            invariant
                0 <= i <= n,
                n == self.entries@.len(),
                ev == self.entry_views(),
                out@ + spec_render(ev.skip(i as int)) == spec_render(ev),
            decreases n - i,
        {
            proof {
                assert(ev.skip(i as int)[0] == ev[i as int]);
                assert(ev.skip(i as int).drop_first() =~= ev.skip(i + 1));
            }
            let ghost out0 = out@;
            let e = &self.entries[i];
            out.append(e.0.as_str());
            out.append(": ");
            out.append(e.1.as_str());
            out.append("\r\n");
            proof {
                reveal_strlit(": ");
                reveal_strlit("\r\n");
                assert(": "@ =~= seq![':', ' ']);
                assert("\r\n"@ =~= seq!['\r', '\n']);
                assert(ev[i as int] == (self.entries@[i as int].0@, self.entries@[i as int].1@));
                assert(out@ =~= out0 + spec_render_entry(ev[i as int]));
                assert(out@ + spec_render(ev.skip(i + 1)) =~= out0 + (spec_render_entry(
                    ev[i as int],
                ) + spec_render(ev.skip(i + 1))));
            }
            i = i + 1;
        }
        proof {
            assert(spec_render(ev.skip(n as int)) == Seq::<char>::empty());
            assert(out@ + spec_render(ev.skip(n as int)) =~= out@);
        }
        out
    }

    /// The fields in insertion order (the order of each key's last insertion).
    pub fn entries(&self) -> (r: &Vec<(String, String)>)
        ensures
            r@.len() == self@.dom().len(),
            forall|i: int|
                0 <= i < r@.len() ==> self@.contains_key(#[trigger] r@[i].0@) && self@[r@[i].0@]
                    == r@[i].1@,
            forall|i: int, j: int| 0 <= i < j < r@.len() ==> r@[i].0@ != r@[j].0@,
    {
        proof {
            use_type_invariant(self);
            lemma_map_len(self.entry_views());
            lemma_put_all(Map::empty(), self.entry_views());
            assert forall|i: int| 0 <= i < self.entries@.len() implies self@.contains_key(
                #[trigger] self.entries@[i].0@,
            ) && self@[self.entries@[i].0@] == self.entries@[i].1@ by {
                assert(self.entry_views()[i] == (self.entries@[i].0@, self.entries@[i].1@));
                lemma_lookup_at(self.entry_views(), i);
            }
            assert forall|i: int, j: int| 0 <= i < j < self.entries@.len() implies #[trigger] self
                .entries@[i].0@ != #[trigger] self.entries@[j].0@ by {
                assert(self.entry_views()[i].0 != self.entry_views()[j].0);
            }
        }
        &self.entries
    }
}

} // verus!
