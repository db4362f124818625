//! A map from paths to values whose entries stand in the order of their keys'
//! bytes, as in a `BTreeMap` keyed by strings.
use vstd::prelude::*;
use vstd::string::StringSliceAdditionalSpecFns;
use vstd::utf8::encode_utf8;

verus! {

/// Byte-wise lexicographic order: the order of `str`.
pub open spec fn bytes_lt(a: Seq<u8>, b: Seq<u8>) -> bool
    decreases a.len(),
{
    if a.len() == 0 {
        b.len() > 0
    } else if b.len() == 0 {
        false
    } else if a[0] < b[0] {
        true
    } else if a[0] > b[0] {
        false
    } else {
        bytes_lt(a.drop_first(), b.drop_first())
    }
}

/// The order of path keys: that of their UTF-8 bytes.
pub open spec fn key_lt(a: Seq<char>, b: Seq<char>) -> bool {
    bytes_lt(encode_utf8(a), encode_utf8(b))
}

proof fn lemma_bytes_lt_irreflexive(a: Seq<u8>)
    ensures
        !bytes_lt(a, a),
    decreases a.len(),
{
    if a.len() > 0 {
        lemma_bytes_lt_irreflexive(a.drop_first());
    }
}

proof fn lemma_bytes_lt_transitive(a: Seq<u8>, b: Seq<u8>, c: Seq<u8>)
    requires
        bytes_lt(a, b),
        bytes_lt(b, c),
    ensures
        bytes_lt(a, c),
    decreases a.len(),
{
    if a.len() > 0 && b.len() > 0 && c.len() > 0 && a[0] == b[0] && b[0] == c[0] {
        lemma_bytes_lt_transitive(a.drop_first(), b.drop_first(), c.drop_first());
    }
}

proof fn lemma_bytes_lt_total(a: Seq<u8>, b: Seq<u8>)
    requires
        a != b,
    ensures
        bytes_lt(a, b) || bytes_lt(b, a),
    decreases a.len(),
{
    if a.len() == 0 {
        if b.len() == 0 {
            assert(a =~= b);
        }
    } else if b.len() > 0 && a[0] == b[0] {
        if a.drop_first() == b.drop_first() {
            assert(a =~= seq![a[0]] + a.drop_first());
            assert(b =~= seq![b[0]] + b.drop_first());
        }
        lemma_bytes_lt_total(a.drop_first(), b.drop_first());
    }
}

/// `key_lt` is a strict total order.
pub proof fn lemma_key_lt_order(a: Seq<char>, b: Seq<char>, c: Seq<char>)
    ensures
        !key_lt(a, a),
        key_lt(a, b) && key_lt(b, c) ==> key_lt(a, c),
        a != b ==> key_lt(a, b) || key_lt(b, a),
        key_lt(a, b) ==> !key_lt(b, a),
{
    broadcast use vstd::utf8::encode_utf8_decode_utf8;

    lemma_bytes_lt_irreflexive(encode_utf8(a));
    if key_lt(a, b) && key_lt(b, c) {
        lemma_bytes_lt_transitive(encode_utf8(a), encode_utf8(b), encode_utf8(c));
    }
    if a != b {
        assert(vstd::utf8::decode_utf8(encode_utf8(a)) == a);
        assert(vstd::utf8::decode_utf8(encode_utf8(b)) == b);
        lemma_bytes_lt_total(encode_utf8(a), encode_utf8(b));
    }
    if key_lt(a, b) && key_lt(b, a) {
        lemma_bytes_lt_transitive(encode_utf8(a), encode_utf8(b), encode_utf8(a));
    }
}

/// Whether `a` comes before `b` in the order of their bytes (`str`'s `<`).
pub fn str_less(a: &str, b: &str) -> (r: bool)
    ensures
        r == key_lt(a@, b@),
{
    let x = a.as_bytes();
    let y = b.as_bytes();
    let xl = x.len();
    let yl = y.len();
    let mut i: usize = 0;
    assert(x@.skip(0) =~= x@);
    assert(y@.skip(0) =~= y@);
    while i < xl && i < yl
        invariant
            xl == x@.len(),
            yl == y@.len(),
            x@ == a.spec_bytes(),
            y@ == b.spec_bytes(),
            i <= xl,
            i <= yl,
            bytes_lt(x@.skip(i as int), y@.skip(i as int)) == key_lt(a@, b@),
        decreases xl - i,
    {
        proof {
            assert(x@.skip(i as int)[0] == x@[i as int]);
            assert(y@.skip(i as int)[0] == y@[i as int]);
            assert(x@.skip(i as int).drop_first() =~= x@.skip(i + 1));
            assert(y@.skip(i as int).drop_first() =~= y@.skip(i + 1));
        }
        if x[i] < y[i] {
            return true;
        }
        if x[i] > y[i] {
            return false;
        }
        i = i + 1;
    }
    i == xl && i < yl
}

/// The path of an entry in the order of the map.
pub struct PathEntry<V> {
    pub path: String,
    pub value: V,
}

/// A map from paths to values, its entries sorted by `key_lt`.
pub struct PathMap<V> {
    entries: Vec<PathEntry<V>>,
}

/// Whether the paths of `s` are strictly increasing.
pub open spec fn sorted_paths<V>(s: Seq<PathEntry<V>>) -> bool {
    forall|i: int, j: int| 0 <= i < j < s.len() ==> key_lt(#[trigger] s[i].path@, #[trigger] s[j].path@)
}

/// Whether some entry of `s` has the path `k`.
pub open spec fn has_path<V>(s: Seq<PathEntry<V>>, k: Seq<char>) -> bool {
    exists|i: int| 0 <= i < s.len() && #[trigger] s[i].path@ == k
}

/// An index of `s` whose entry has the path `k`.
pub open spec fn path_index<V>(s: Seq<PathEntry<V>>, k: Seq<char>) -> int {
    choose|i: int| 0 <= i < s.len() && #[trigger] s[i].path@ == k
}

/// The map that the entries `s` stand for.
pub open spec fn entries_map<V: View>(s: Seq<PathEntry<V>>) -> Map<Seq<char>, V::V> {
    Map::new(|k: Seq<char>| has_path(s, k), |k: Seq<char>| s[path_index(s, k)].value@)
}

/// The keys of `s`, in order.
pub open spec fn entries_keys<V>(s: Seq<PathEntry<V>>) -> Seq<Seq<char>> {
    Seq::new(s.len(), |i: int| s[i].path@)
}

/// In sorted entries, the entry at `i` is what the map holds for its path.
pub proof fn lemma_entries_map_at<V: View>(s: Seq<PathEntry<V>>, i: int)
    requires
        sorted_paths(s),
        0 <= i < s.len(),
    ensures
        entries_map(s).dom().contains(s[i].path@),
        entries_map(s)[s[i].path@] == s[i].value@,
{
    let k = s[i].path@;
    assert(has_path(s, k));
    let j = path_index(s, k);
    if j != i {
        lemma_key_lt_order(s[i].path@, s[j].path@, s[j].path@);
        if i < j {
            assert(key_lt(s[i].path@, s[j].path@));
        } else {
            assert(key_lt(s[j].path@, s[i].path@));
        }
    }
}

impl<V> PathMap<V> {
    /// Entries sorted by path, so each path occurs once: the invariant of
    /// every map.
    #[verifier::type_invariant]
    pub closed spec fn wf(&self) -> bool {
        sorted_paths(self.entries@)
    }
}

impl<V: View> View for PathMap<V> {
    type V = Map<Seq<char>, V::V>;

    closed spec fn view(&self) -> Map<Seq<char>, V::V> {
        entries_map(self.entries@)
    }
}

impl<V: View> PathMap<V> {
    /// The entries in their order.
    pub closed spec fn entry_seq(&self) -> Seq<PathEntry<V>> {
        self.entries@
    }

    /// The keys in their order.
    pub open spec fn keys(&self) -> Seq<Seq<char>> {
        entries_keys(self.entry_seq())
    }

    /// The map and its entries agree: each entry is the map's value at its key,
    /// the keys increase, and the map holds no other key.
    pub proof fn lemma_wf(&self)
        requires
            self.wf(),
        ensures
            self.keys().len() == self.entry_seq().len(),
            forall|i: int, j: int| 0 <= i < j < self.keys().len() ==> key_lt(#[trigger] self.keys()[i], #[trigger] self.keys()[j]),
            forall|i: int| 0 <= i < self.entry_seq().len() ==> #[trigger] self.entry_seq()[i].path@ == self.keys()[i]
                && self@.dom().contains(self.keys()[i]) && self@[self.keys()[i]] == self.entry_seq()[i].value@,
            forall|k: Seq<char>| #[trigger] self@.dom().contains(k) ==> self.keys().contains(k),
            self@.dom().finite(),
            self@.dom().len() == self.keys().len(),
    {
        let s = self.entries@;
        assert forall|i: int| 0 <= i < s.len() implies #[trigger] s[i].path@ == self.keys()[i] && self@.dom().contains(self.keys()[i])
            && self@[self.keys()[i]] == s[i].value@ by {
            lemma_entries_map_at(s, i);
        }
        assert forall|k: Seq<char>| #[trigger] self@.dom().contains(k) implies self.keys().contains(k) by {
            let i = path_index(s, k);
            assert(self.keys()[i] == k);
        }
        let keys = self.keys();
        assert(self@.dom() =~= keys.to_set());
        assert(keys.no_duplicates()) by {
            assert forall|i: int, j: int| 0 <= i < keys.len() && 0 <= j < keys.len() && i != j implies keys[i] != keys[j] by {
                lemma_key_lt_order(keys[i], keys[j], keys[j]);
                if i < j {
                    assert(key_lt(s[i].path@, s[j].path@));
                } else {
                    assert(key_lt(s[j].path@, s[i].path@));
                }
            }
        }
        keys.unique_seq_to_set();
    }

    /// An empty map.
    pub fn new() -> (m: Self)
        ensures
            m@ == Map::<Seq<char>, V::V>::empty(),
            m.keys() == Seq::<Seq<char>>::empty(),
    {
        let m = PathMap { entries: Vec::new() };
        assert(m@ =~= Map::<Seq<char>, V::V>::empty());
        assert(m.keys() =~= Seq::<Seq<char>>::empty());
        m
    }

    /// Number of entries.
    pub fn len(&self) -> (n: usize)
        ensures
            n == self@.dom().len(),
            n == self.keys().len(),
    {
        proof {
            use_type_invariant(self);
            self.lemma_wf();
        }
        self.entries.len()
    }

    /// The path and value of the entry at `i`, in key order.
    pub fn entry_at(&self, i: usize) -> (e: &PathEntry<V>)
        requires
            i < self.keys().len(),
        ensures
            *e == self.entry_seq()[i as int],
    {
        &self.entries[i]
    }

    /// The entries, in key order.
    pub fn into_entries(self) -> (v: Vec<PathEntry<V>>)
        ensures
            v@ == self.entry_seq(),
            self.wf(),
    {
        proof {
            use_type_invariant(&self);
        }
        self.entries
    }

    /// Where `path` stands or would stand: the first index whose key is not below it.
    fn position(&self, path: &String) -> (r: (usize, bool))
        ensures
            r.0 <= self.entries@.len(),
            forall|i: int| 0 <= i < r.0 ==> key_lt(#[trigger] self.entries@[i].path@, path@),
            r.0 < self.entries@.len() ==> !key_lt(self.entries@[r.0 as int].path@, path@),
            r.1 <==> (r.0 < self.entries@.len() && self.entries@[r.0 as int].path@ == path@),
            r.1 <==> self@.dom().contains(path@),
    {
        proof {
            use_type_invariant(self);
        }
        let n = self.entries.len();
        let mut i: usize = 0;
        let mut done = false;
        while !done && i < n
            invariant
                n == self.entries@.len(),
                i <= n,
                forall|j: int| 0 <= j < i ==> key_lt(#[trigger] self.entries@[j].path@, path@),
                done ==> i < n && !key_lt(self.entries@[i as int].path@, path@),
            decreases n - i + if done { 0int } else { 1int },
        {
            if str_less(self.entries[i].path.as_str(), path.as_str()) {
                i = i + 1;
            } else {
                done = true;
            }
        }
        let found = i < n && self.entries[i].path == *path;
        proof {
            let s = self.entries@;
            if found {
                lemma_entries_map_at(s, i as int);
            } else if self@.dom().contains(path@) {
                let j = path_index(s, path@);
                assert(s[j].path@ == path@);
                lemma_key_lt_order(path@, path@, path@);
                if j < i {
                    assert(key_lt(s[j].path@, path@));
                } else {
                    assert(i < n);
                    lemma_key_lt_order(s[i as int].path@, path@, s[i as int].path@);
                    if j > i {
                        assert(key_lt(s[i as int].path@, s[j].path@));
                    }
                }
            }
        }
        (i, found)
    }

    /// The value at `path`, if any.
    pub fn get(&self, path: &String) -> (r: Option<&V>)
        ensures
            match r {
                Some(v) => self@.dom().contains(path@) && self@[path@] == v@,
                None => !self@.dom().contains(path@),
            },
    {
        proof {
            use_type_invariant(self);
        }
        let (i, found) = self.position(path);
        if found {
            proof {
                lemma_entries_map_at(self.entries@, i as int);
            }
            Some(&self.entries[i].value)
        } else {
            None
        }
    }

    /// Sets the value at `path`, in place of the old one if there was one
    /// (`BTreeMap::insert`).
    pub fn insert(&mut self, path: String, value: V)
        ensures
            final(self)@ == old(self)@.insert(path@, value@),
    {
        proof {
            use_type_invariant(&*self);
        }
        let (i, found) = self.position(&path);
        let mut entries: Vec<PathEntry<V>> = Vec::new();
        std::mem::swap(&mut entries, &mut self.entries);
        let ghost s0 = entries@;
        let ghost k = path@;
        let ghost v = value@;
        if found {
            let _ = entries.remove(i);
            entries.insert(i, PathEntry { path, value });
            proof {
                let s = entries@;
                assert(s =~= s0.update(i as int, s[i as int]));
                assert(sorted_paths(s)) by {
                    assert forall|a: int, b: int| 0 <= a < b < s.len() implies key_lt(#[trigger] s[a].path@, #[trigger] s[b].path@) by {
                        assert(s0[a].path@ == s[a].path@ || a == i);
                        assert(s0[b].path@ == s[b].path@ || b == i);
                    }
                }
                assert forall|key: Seq<char>| #[trigger] entries_map(s).dom().contains(key) <==> entries_map(s0).insert(k, v).dom().contains(key) by {
                    if has_path(s, key) {
                        let j = path_index(s, key);
                        if j != i {
                            assert(s0[j].path@ == key);
                        }
                    }
                    if has_path(s0, key) {
                        let j = path_index(s0, key);
                        assert(s[j].path@ == key);
                    }
                    if key == k {
                        assert(s[i as int].path@ == key);
                    }
                }
                assert forall|key: Seq<char>| #[trigger] entries_map(s).dom().contains(key) implies entries_map(s)[key] == entries_map(s0).insert(k, v)[key] by {
                    let j = path_index(s, key);
                    lemma_entries_map_at(s, j);
                    if j != i {
                        assert(s0[j] == s[j]);
                        lemma_entries_map_at(s0, j);
                    }
                }
                assert(entries_map(s) =~= entries_map(s0).insert(k, v));
            }
        } else {
            entries.insert(i, PathEntry { path, value });
            proof {
                let s = entries@;
                assert(sorted_paths(s)) by {
                    assert forall|a: int, b: int| 0 <= a < b < s.len() implies key_lt(#[trigger] s[a].path@, #[trigger] s[b].path@) by {
                        if a < i && b < i {
                            assert(s[a] == s0[a] && s[b] == s0[b]);
                        } else if a < i && b == i {
                            assert(s[a] == s0[a]);
                        } else if a < i {
                            assert(s[a] == s0[a] && s[b] == s0[b - 1]);
                            if i < s0.len() {
                                lemma_key_lt_order(s0[i as int].path@, k, k);
                                lemma_key_lt_order(s0[a].path@, k, s0[i as int].path@);
                                if b - 1 > i {
                                    lemma_key_lt_order(s0[a].path@, s0[i as int].path@, s0[b - 1].path@);
                                }
                            }
                        } else if a == i {
                            assert(s[b] == s0[b - 1]);
                            lemma_key_lt_order(s0[i as int].path@, k, k);
                            if b - 1 > i {
                                lemma_key_lt_order(k, s0[i as int].path@, s0[b - 1].path@);
                            }
                        } else {
                            assert(s[a] == s0[a - 1] && s[b] == s0[b - 1]);
                        }
                    }
                }
                assert forall|key: Seq<char>| #[trigger] entries_map(s).dom().contains(key) <==> entries_map(s0).insert(k, v).dom().contains(key) by {
                    if has_path(s, key) {
                        let j = path_index(s, key);
                        if j < i {
                            assert(s0[j].path@ == key);
                        } else if j > i {
                            assert(s0[j - 1].path@ == key);
                        }
                    }
                    if has_path(s0, key) {
                        let j = path_index(s0, key);
                        if j < i {
                            assert(s[j].path@ == key);
                        } else {
                            assert(s[j + 1].path@ == key);
                        }
                    }
                    if key == k {
                        assert(s[i as int].path@ == key);
                    }
                }
                assert forall|key: Seq<char>| #[trigger] entries_map(s).dom().contains(key) implies entries_map(s)[key] == entries_map(s0).insert(k, v)[key] by {
                    let j = path_index(s, key);
                    lemma_entries_map_at(s, j);
                    if j < i {
                        assert(s0[j] == s[j]);
                        lemma_entries_map_at(s0, j);
                    } else if j > i {
                        assert(s0[j - 1] == s[j]);
                        lemma_entries_map_at(s0, j - 1);
                    }
                }
                assert(entries_map(s) =~= entries_map(s0).insert(k, v));
            }
        }
        self.entries = entries;
    }

    /// Takes out the value at `path`, if there is one (`BTreeMap::remove`).
    pub fn remove(&mut self, path: &String) -> (r: Option<V>)
        ensures
            final(self)@ == old(self)@.remove(path@),
            match r {
                Some(v) => old(self)@.dom().contains(path@) && old(self)@[path@] == v@,
                None => !old(self)@.dom().contains(path@),
            },
    {
        proof {
            use_type_invariant(&*self);
        }
        let (i, found) = self.position(path);
        if !found {
            assert(self@ =~= self@.remove(path@));
            return None;
        }
        let mut entries: Vec<PathEntry<V>> = Vec::new();
        std::mem::swap(&mut entries, &mut self.entries);
        let ghost s0 = entries@;
        let ghost k = path@;
        proof {
            lemma_entries_map_at(s0, i as int);
        }
        let e = entries.remove(i);
        proof {
            let s = entries@;
            assert(sorted_paths(s)) by {
                assert forall|a: int, b: int| 0 <= a < b < s.len() implies key_lt(#[trigger] s[a].path@, #[trigger] s[b].path@) by {
                    if b < i {
                        assert(s[a] == s0[a] && s[b] == s0[b]);
                    } else if a < i {
                        assert(s[a] == s0[a] && s[b] == s0[b + 1]);
                    } else {
                        assert(s[a] == s0[a + 1] && s[b] == s0[b + 1]);
                    }
                }
            }
            assert forall|key: Seq<char>| #[trigger] entries_map(s).dom().contains(key) <==> entries_map(s0).remove(k).dom().contains(key) by {
                if has_path(s, key) {
                    let j = path_index(s, key);
                    if j < i {
                        assert(s0[j] == s[j]);
                        lemma_key_lt_order(s0[j].path@, k, k);
                    } else {
                        assert(s0[j + 1] == s[j]);
                        lemma_key_lt_order(k, s0[j + 1].path@, k);
                    }
                }
                if has_path(s0, key) && key != k {
                    let j = path_index(s0, key);
                    if j < i {
                        assert(s[j].path@ == key);
                    } else {
                        assert(j != i);
                        assert(s[j - 1].path@ == key);
                    }
                }
            }
            assert forall|key: Seq<char>| #[trigger] entries_map(s).dom().contains(key) implies entries_map(s)[key] == entries_map(s0).remove(k)[key] by {
                let j = path_index(s, key);
                lemma_entries_map_at(s, j);
                if j < i {
                    lemma_entries_map_at(s0, j);
                } else {
                    lemma_entries_map_at(s0, j + 1);
                }
            }
            assert(entries_map(s) =~= entries_map(s0).remove(k));
        }
        self.entries = entries;
        Some(e.value)
    }
}

} // verus!
