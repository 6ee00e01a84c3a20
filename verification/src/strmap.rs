//! An ordered map keyed by strings, kept sorted by key.
//!
//! Keys are ordered the way `String`'s `Ord` orders them: lexicographically by
//! character (UTF-8 byte order and code-point order agree).

use vstd::prelude::*;
use crate::text::chars_of;

verus! {

/// Strict lexicographic order on character sequences.
pub open spec fn seq_lt(a: Seq<char>, b: Seq<char>) -> bool
    decreases a.len(),
{
    if a.len() == 0 {
        b.len() > 0
    } else if b.len() == 0 {
        false
    } else if a[0] != b[0] {
        a[0] < b[0]
    } else {
        seq_lt(a.drop_first(), b.drop_first())
    }
}

/// `seq_lt` is irreflexive.
pub proof fn lemma_seq_lt_irreflexive(a: Seq<char>)
    ensures
        !seq_lt(a, a),
    decreases a.len(),
{
    if a.len() > 0 {
        lemma_seq_lt_irreflexive(a.drop_first());
    }
}

/// `seq_lt` is transitive.
pub proof fn lemma_seq_lt_transitive(a: Seq<char>, b: Seq<char>, c: Seq<char>)
    requires
        seq_lt(a, b),
        seq_lt(b, c),
    ensures
        seq_lt(a, c),
    decreases a.len(),
{
    if a.len() > 0 && b.len() > 0 && c.len() > 0 {
        if a[0] == b[0] && b[0] == c[0] {
            lemma_seq_lt_transitive(a.drop_first(), b.drop_first(), c.drop_first());
        }
    }
}

/// `seq_lt` is total on distinct sequences.
pub proof fn lemma_seq_lt_trichotomy(a: Seq<char>, b: Seq<char>)
    ensures
        a == b || seq_lt(a, b) || seq_lt(b, a),
    decreases a.len(),
{
    if a.len() > 0 && b.len() > 0 {
        if a[0] == b[0] {
            lemma_seq_lt_trichotomy(a.drop_first(), b.drop_first());
            if a.drop_first() == b.drop_first() {
                assert(a =~= seq![a[0]] + a.drop_first());
                assert(b =~= seq![b[0]] + b.drop_first());
            }
        } else {
        }
    } else if a.len() == 0 && b.len() == 0 {
        assert(a =~= b);
    }
}

proof fn lemma_seq_lt_skip(a: Seq<char>, b: Seq<char>, i: int)
    requires
        0 <= i < a.len(),
        i < b.len(),
        a[i] == b[i],
    ensures
        seq_lt(a.skip(i), b.skip(i)) == seq_lt(a.skip(i + 1), b.skip(i + 1)),
{
    assert(a.skip(i).drop_first() =~= a.skip(i + 1));
    assert(b.skip(i).drop_first() =~= b.skip(i + 1));
}

/// Exec comparison of two character runs under `seq_lt`.
pub fn chars_lt(a: &[char], b: &[char]) -> (r: bool)
    ensures
        r == seq_lt(a@, b@),
{
    let mut i: usize = 0;
    assert(a@.skip(0) =~= a@);
    assert(b@.skip(0) =~= b@);
    while i < a.len() && i < b.len()
        invariant
            i <= a.len(),
            i <= b.len(),
            seq_lt(a@, b@) == seq_lt(a@.skip(i as int), b@.skip(i as int)),
        decreases a.len() - i,
    {
        if a[i] != b[i] {
            assert(a@.skip(i as int)[0] == a@[i as int]);
            assert(b@.skip(i as int)[0] == b@[i as int]);
            return a[i] < b[i];
        }
        proof {
            lemma_seq_lt_skip(a@, b@, i as int);
        }
        i = i + 1;
    }
    i < b.len()
}

/// Exec equality of two character runs.
pub fn chars_eq(a: &[char], b: &[char]) -> (r: bool)
    ensures
        r == (a@ == b@),
{
    if a.len() != b.len() {
        return false;
    }
    let mut i: usize = 0;
    while i < a.len()
        invariant
            a.len() == b.len(),
            i <= a.len(),
            a@.subrange(0, i as int) == b@.subrange(0, i as int),
        decreases a.len() - i,
    {
        if a[i] != b[i] {
            assert(a@[i as int] != b@[i as int]);
            return false;
        }
        assert(a@.subrange(0, i + 1) =~= a@.subrange(0, i as int).push(a@[i as int]));
        assert(b@.subrange(0, i + 1) =~= b@.subrange(0, i as int).push(b@[i as int]));
        i = i + 1;
    }
    assert(a@ =~= a@.subrange(0, a.len() as int));
    assert(b@ =~= b@.subrange(0, b.len() as int));
    true
}

/// Exec equality of two strings.
pub fn str_eq(a: &str, b: &str) -> (r: bool)
    ensures
        r == (a@ == b@),
{
    let ca = chars_of(a);
    let cb = chars_of(b);
    chars_eq(ca.as_slice(), cb.as_slice())
}

/// The keys of an entry sequence.
pub open spec fn entry_keys<V>(s: Seq<(String, V)>) -> Seq<Seq<char>> {
    s.map_values(|e: (String, V)| e.0@)
}

/// Entries strictly ascending by key.
pub open spec fn sorted_entries<V>(s: Seq<(String, V)>) -> bool {
    forall|i: int, j: int| 0 <= i < j < s.len() ==> seq_lt(#[trigger] s[i].0@, #[trigger] s[j].0@)
}

/// The map denoted by an entry sequence (later entries win on repeated keys).
pub open spec fn entries_map<V>(s: Seq<(String, V)>) -> Map<Seq<char>, V>
    decreases s.len(),
{
    if s.len() == 0 {
        Map::empty()
    } else {
        entries_map(s.drop_last()).insert(s.last().0@, s.last().1)
    }
}

pub proof fn lemma_entries_map_dom<V>(s: Seq<(String, V)>, k: Seq<char>)
    ensures
        entries_map(s).dom().contains(k) <==> exists|i: int| 0 <= i < s.len() && #[trigger] s[i].0@ == k,
    decreases s.len(),
{
    if s.len() > 0 {
        lemma_entries_map_dom(s.drop_last(), k);
        if entries_map(s.drop_last()).dom().contains(k) {
            let i = choose|i: int| 0 <= i < s.drop_last().len() && #[trigger] s.drop_last()[i].0@ == k;
            assert(s[i].0@ == k);
        }
        if exists|i: int| 0 <= i < s.len() && #[trigger] s[i].0@ == k {
            let i = choose|i: int| 0 <= i < s.len() && #[trigger] s[i].0@ == k;
            if i < s.len() - 1 {
                assert(s.drop_last()[i].0@ == k);
            }
        }
    }
}

pub proof fn lemma_entries_map_value<V>(s: Seq<(String, V)>, i: int)
    requires
        sorted_entries(s),
        0 <= i < s.len(),
    ensures
        entries_map(s).dom().contains(s[i].0@),
        entries_map(s)[s[i].0@] == s[i].1,
    decreases s.len(),
{
    lemma_entries_map_dom(s, s[i].0@);
    if i < s.len() - 1 {
        assert(seq_lt(s[i].0@, s[s.len() - 1].0@));
        lemma_seq_lt_irreflexive(s[i].0@);
        assert(s[i].0@ != s.last().0@);
        assert(s.drop_last()[i] == s[i]);
        lemma_entries_map_value(s.drop_last(), i);
    }
}

/// Domain and values of the map denoted by sorted entries.
pub proof fn lemma_sorted_entries_map<V>(s: Seq<(String, V)>)
    requires
        sorted_entries(s),
    ensures
        forall|k: Seq<char>| #[trigger] entries_map(s).dom().contains(k) <==> exists|i: int| 0 <= i < s.len() && #[trigger] s[i].0@ == k,
        forall|i: int| 0 <= i < s.len() ==> #[trigger] entries_map(s)[s[i].0@] == s[i].1,
        forall|i: int| 0 <= i < s.len() ==> entries_map(s).dom().contains(#[trigger] s[i].0@),
{
    assert forall|k: Seq<char>| #[trigger] entries_map(s).dom().contains(k) <==> exists|i: int| 0 <= i < s.len() && #[trigger] s[i].0@ == k by {
        lemma_entries_map_dom(s, k);
    }
    assert forall|i: int| 0 <= i < s.len() implies #[trigger] entries_map(s)[s[i].0@] == s[i].1 && entries_map(s).dom().contains(s[i].0@) by {
        lemma_entries_map_value(s, i);
    }
}

/// An ordered string-keyed map.
#[derive(Debug)]
pub struct StrMap<V> {
    entries: Vec<(String, V)>,
}

impl<V> StrMap<V> {
    /// The entries are strictly ascending by key.
    #[verifier::type_invariant]
    spec fn inv(self) -> bool {
        sorted_entries(self.entries@)
    }

    /// The key/value pairs in ascending key order.
    pub closed spec fn seq(&self) -> Seq<(String, V)> {
        self.entries@
    }

    /// The keys in ascending order.
    pub open spec fn keys(&self) -> Seq<Seq<char>> {
        entry_keys(self.seq())
    }

    /// The map denoted by this value.
    pub open spec fn map(&self) -> Map<Seq<char>, V> {
        entries_map(self.seq())
    }

    /// An empty map.
    pub fn new() -> (r: Self)
        ensures
            r.map() == Map::<Seq<char>, V>::empty(),
            r.seq().len() == 0,
            sorted_entries(r.seq()),
    {
        StrMap { entries: Vec::new() }
    }

    /// Number of entries.
    pub fn len(&self) -> (n: usize)
        ensures
            n == self.seq().len(),
            n == self.map().len(),
    {
        proof {
            use_type_invariant(self);
            lemma_entries_map_len(self.entries@);
        }
        self.entries.len()
    }

    /// Whether the map has no entries.
    pub fn is_empty(&self) -> (b: bool)
        ensures
            b == (self.map().len() == 0),
            b == (self.seq().len() == 0),
    {
        self.len() == 0
    }

    /// The keys in ascending order.
    pub fn key_list(&self) -> (r: Vec<String>)
        ensures
            crate::text::strs(r@) == self.keys(),
    {
        let mut out: Vec<String> = Vec::new();
        let mut i: usize = 0;
        while i < self.entries.len()
            invariant
                i <= self.entries@.len(),
                crate::text::strs(out@) == entry_keys(self.entries@.subrange(0, i as int)),
            decreases self.entries.len() - i,
        {
            let ghost before = out@;
            out.push(self.entries[i].0.clone());
            assert(crate::text::strs(out@) =~= crate::text::strs(before).push(self.entries@[i as int].0@));
            assert(entry_keys(self.entries@.subrange(0, i + 1)) =~= entry_keys(self.entries@.subrange(0, i as int)).push(self.entries@[i as int].0@));
            i = i + 1;
        }
        assert(self.entries@.subrange(0, self.entries@.len() as int) =~= self.entries@);
        out
    }

    /// The entries in ascending key order.
    pub fn as_slice(&self) -> (r: &[(String, V)])
        ensures
            r@ == self.seq(),
            sorted_entries(self.seq()),
    {
        proof { use_type_invariant(self); }
        self.entries.as_slice()
    }

    /// The entry at position `i` in key order.
    pub fn entry_at(&self, i: usize) -> (r: &(String, V))
        requires
            i < self.seq().len(),
        ensures
            *r == self.seq()[i as int],
            sorted_entries(self.seq()),
            self.map().dom().contains(r.0@),
            self.map()[r.0@] == r.1,
    {
        proof {
            use_type_invariant(self);
            lemma_entries_map_value(self.entries@, i as int);
        }
        &self.entries[i]
    }

    /// Index of `key` among the entries, if present.
    pub fn find(&self, key: &str) -> (r: Option<usize>)
        ensures
            sorted_entries(self.seq()),
            match r {
                Some(i) => i < self.seq().len() && self.seq()[i as int].0@ == key@
                    && self.map().dom().contains(key@) && self.map()[key@] == self.seq()[i as int].1,
                None => !self.map().dom().contains(key@),
            },
    {
        proof { use_type_invariant(self); }
        let kc = chars_of(key);
        let mut i: usize = 0;
        while i < self.entries.len()
            invariant
                kc@ == key@,
                sorted_entries(self.entries@),
                i <= self.entries@.len(),
                forall|j: int| 0 <= j < i ==> #[trigger] self.entries@[j].0@ != key@,
            decreases self.entries.len() - i,
        {
            let ec = chars_of(self.entries[i].0.as_str());
            if chars_eq(ec.as_slice(), kc.as_slice()) {
                proof {
                    lemma_entries_map_value(self.entries@, i as int);
                }
                return Some(i);
            }
            i = i + 1;
        }
        proof {
            lemma_entries_map_dom(self.entries@, key@);
        }
        None
    }

    /// The value stored under `key`.
    pub fn get(&self, key: &str) -> (r: Option<&V>)
        ensures
            match r {
                Some(v) => self.map().dom().contains(key@) && *v == self.map()[key@],
                None => !self.map().dom().contains(key@),
            },
    {
        match self.find(key) {
            Some(i) => Some(&self.entries[i].1),
            None => None,
        }
    }

    /// `key` is present.
    pub fn contains_key(&self, key: &str) -> (b: bool)
        ensures
            b == self.map().dom().contains(key@),
    {
        self.find(key).is_some()
    }

    /// Inserts or replaces the value under `key`.
    pub fn insert(&mut self, key: String, v: V)
        ensures
            final(self).map() == old(self).map().insert(key@, v),
            sorted_entries(final(self).seq()),
    {
        proof { use_type_invariant(&*self); }
        let mut entries: Vec<(String, V)> = Vec::new();
        std::mem::swap(&mut entries, &mut self.entries);
        insert_sorted(&mut entries, key, v);
        self.entries = entries;
    }

    /// Removes `key`, returning the value it held.
    pub fn remove(&mut self, key: &str) -> (r: Option<V>)
        ensures
            final(self).map() == old(self).map().remove(key@),
            sorted_entries(final(self).seq()),
            match r {
                Some(v) => old(self).map().dom().contains(key@) && v == old(self).map()[key@],
                None => !old(self).map().dom().contains(key@),
            },
    {
        proof { use_type_invariant(&*self); }
        match self.find(key) {
            None => {
                proof { assert(old(self).map().remove(key@) =~= old(self).map()); }
                None
            }
            Some(i) => {
                let mut entries: Vec<(String, V)> = Vec::new();
                std::mem::swap(&mut entries, &mut self.entries);
                let ghost s0 = entries@;
                let e = entries.remove(i);
                proof { lemma_remove_at(s0, entries@, i as int); }
                self.entries = entries;
                Some(e.1)
            }
        }
    }
}

proof fn lemma_entries_map_len<V>(s: Seq<(String, V)>)
    requires
        sorted_entries(s),
    ensures
        entries_map(s).len() == s.len(),
        entries_map(s).dom().finite(),
    decreases s.len(),
{
    if s.len() > 0 {
        let t = s.drop_last();
        assert(sorted_entries(t)) by {
            assert forall|p: int, q: int| 0 <= p < q < t.len() implies seq_lt(#[trigger] t[p].0@, #[trigger] t[q].0@) by {
                assert(t[p] == s[p] && t[q] == s[q]);
            }
        }
        lemma_entries_map_len(t);
        lemma_entries_map_dom(t, s.last().0@);
        if entries_map(t).dom().contains(s.last().0@) {
            let i = choose|i: int| 0 <= i < t.len() && #[trigger] t[i].0@ == s.last().0@;
            assert(seq_lt(s[i].0@, s[s.len() - 1].0@));
            lemma_seq_lt_irreflexive(s.last().0@);
        }
    }
}

proof fn lemma_remove_at<V>(s0: Seq<(String, V)>, t: Seq<(String, V)>, i: int)
    requires
        sorted_entries(s0),
        0 <= i < s0.len(),
        t == s0.remove(i),
    ensures
        sorted_entries(t),
        entries_map(t) == entries_map(s0).remove(s0[i].0@),
{
    let k = s0[i].0@;
    lemma_sorted_entries_map(s0);
    assert forall|p: int, q: int| 0 <= p < q < t.len() implies seq_lt(#[trigger] t[p].0@, #[trigger] t[q].0@) by {
        let pp = if p < i { p } else { p + 1 };
        let qq = if q < i { q } else { q + 1 };
        assert(t[p] == s0[pp]);
        assert(t[q] == s0[qq]);
    }
    lemma_sorted_entries_map(t);
    assert forall|kk: Seq<char>| #[trigger] entries_map(t).dom().contains(kk) <==> entries_map(s0).remove(k).dom().contains(kk) by {
        if entries_map(t).dom().contains(kk) {
            let j = choose|j: int| 0 <= j < t.len() && #[trigger] t[j].0@ == kk;
            let jj = if j < i { j } else { j + 1 };
            assert(s0[jj].0@ == kk);
            lemma_seq_lt_irreflexive(kk);
            if jj < i { assert(seq_lt(s0[jj].0@, s0[i].0@)); }
            if jj > i { assert(seq_lt(s0[i].0@, s0[jj].0@)); }
        }
        if entries_map(s0).dom().contains(kk) && kk != k {
            let j = choose|j: int| 0 <= j < s0.len() && #[trigger] s0[j].0@ == kk;
            if j < i { assert(t[j].0@ == kk); } else { assert(t[j - 1].0@ == kk); }
        }
    }
    assert forall|kk: Seq<char>| entries_map(t).dom().contains(kk) implies #[trigger] entries_map(t)[kk] == entries_map(s0).remove(k)[kk] by {
        let j = choose|j: int| 0 <= j < t.len() && #[trigger] t[j].0@ == kk;
        let jj = if j < i { j } else { j + 1 };
        assert(t[j] == s0[jj]);
    }
    assert(entries_map(t) =~= entries_map(s0).remove(k));
}

/// Inserts into a sorted entry vector, replacing an equal key.
fn insert_sorted<V>(entries: &mut Vec<(String, V)>, key: String, v: V)
    requires
        sorted_entries(old(entries)@),
    ensures
        sorted_entries(final(entries)@),
        entries_map(final(entries)@) == entries_map(old(entries)@).insert(key@, v),
{
    let ghost s0 = entries@;
    let ghost k = key@;
    let kc = chars_of(key.as_str());
    let mut i: usize = 0;
    while i < entries.len()
        invariant
            kc@ == k,
            key@ == k,
            entries@ == s0,
            old(entries)@ == s0,
            sorted_entries(s0),
            i <= s0.len(),
            forall|j: int| 0 <= j < i ==> seq_lt(#[trigger] s0[j].0@, k),
        decreases entries.len() - i,
    {
        let ec = chars_of(entries[i].0.as_str());
        if chars_eq(ec.as_slice(), kc.as_slice()) {
            let e = (key, v);
            let ghost eg = e;
            entries.set(i, e);
            proof {
                let t = entries@;
                lemma_sorted_entries_map(s0);
                assert(t[i as int] == eg);
                assert(s0[i as int].0@ == k);
                assert forall|j: int| 0 <= j < t.len() implies #[trigger] t[j].0@ == s0[j].0@ by {
                    if j != i { assert(t[j] == s0[j]); }
                }
                assert forall|p: int, q: int| 0 <= p < q < t.len() implies seq_lt(#[trigger] t[p].0@, #[trigger] t[q].0@) by {
                    assert(s0[p].0@ == t[p].0@);
                    assert(s0[q].0@ == t[q].0@);
                }
                lemma_sorted_entries_map(t);
                assert forall|kk: Seq<char>| #[trigger] entries_map(t).dom().contains(kk) <==> entries_map(s0).insert(k, v).dom().contains(kk) by {
                    if entries_map(t).dom().contains(kk) {
                        let j = choose|j: int| 0 <= j < t.len() && #[trigger] t[j].0@ == kk;
                        if j != i { assert(s0[j].0@ == kk); }
                    }
                    if entries_map(s0).dom().contains(kk) && kk != k {
                        let j = choose|j: int| 0 <= j < s0.len() && #[trigger] s0[j].0@ == kk;
                        assert(t[j].0@ == kk);
                    }
                    if kk == k { assert(t[i as int].0@ == kk); }
                }
                assert forall|kk: Seq<char>| entries_map(t).dom().contains(kk) implies #[trigger] entries_map(t)[kk] == entries_map(s0).insert(k, v)[kk] by {
                    let j = choose|j: int| 0 <= j < t.len() && #[trigger] t[j].0@ == kk;
                    if j != i {
                        assert(s0[j] == t[j]);
                        assert(kk != k) by {
                            if j < i { lemma_seq_lt_irreflexive(k); } else { lemma_seq_lt_irreflexive(kk); assert(seq_lt(s0[i as int].0@, s0[j].0@)); }
                        }
                    }
                }
                assert(entries_map(t) =~= entries_map(s0).insert(k, v));
            }
            return;
        }
        if chars_lt(kc.as_slice(), ec.as_slice()) {
            let e = (key, v);
            let ghost eg = e;
            entries.insert(i, e);
            proof {
                assert(entries@[i as int] == eg);
                lemma_insert_at(s0, entries@, i as int, k, eg.1);
            }
            return;
        }
        proof { lemma_seq_lt_trichotomy(s0[i as int].0@, k); }
        i = i + 1;
    }
    let e = (key, v);
    let ghost eg = e;
    entries.push(e);
    proof {
        assert(entries@[i as int] == eg);
        lemma_insert_at(s0, entries@, i as int, k, eg.1);
    }
}

proof fn lemma_insert_at<V>(s0: Seq<(String, V)>, t: Seq<(String, V)>, i: int, k: Seq<char>, v: V)
    requires
        sorted_entries(s0),
        0 <= i <= s0.len(),
        t.len() == s0.len() + 1,
        t[i].0@ == k,
        t[i].1 == v,
        forall|j: int| 0 <= j < i ==> t[j] == s0[j],
        forall|j: int| i < j < t.len() ==> t[j] == s0[j - 1],
        forall|j: int| 0 <= j < i ==> seq_lt(#[trigger] s0[j].0@, k),
        i < s0.len() ==> seq_lt(k, s0[i].0@),
    ensures
        sorted_entries(t),
        entries_map(t) == entries_map(s0).insert(k, v),
{
    lemma_sorted_entries_map(s0);
    assert forall|p: int, q: int| 0 <= p < q < t.len() implies seq_lt(#[trigger] t[p].0@, #[trigger] t[q].0@) by {
        if p < i && q < i {
        } else if p < i && q == i {
        } else if p < i && q > i {
            assert(seq_lt(s0[p].0@, s0[q - 1].0@));
        } else if p == i {
            if q - 1 > i {
                assert(seq_lt(s0[i].0@, s0[q - 1].0@));
                lemma_seq_lt_transitive(k, s0[i].0@, s0[q - 1].0@);
            }
        } else {
            assert(seq_lt(s0[p - 1].0@, s0[q - 1].0@));
        }
    }
    lemma_sorted_entries_map(t);
    assert forall|kk: Seq<char>| #[trigger] entries_map(t).dom().contains(kk) <==> entries_map(s0).insert(k, v).dom().contains(kk) by {
        if entries_map(t).dom().contains(kk) {
            let j = choose|j: int| 0 <= j < t.len() && #[trigger] t[j].0@ == kk;
            if j < i { assert(s0[j].0@ == kk); }
            if j > i { assert(s0[j - 1].0@ == kk); }
        }
        if entries_map(s0).dom().contains(kk) {
            let j = choose|j: int| 0 <= j < s0.len() && #[trigger] s0[j].0@ == kk;
            if j < i { assert(t[j].0@ == kk); } else { assert(t[j + 1].0@ == kk); }
        }
        if kk == k { assert(t[i].0@ == kk); }
    }
    assert forall|kk: Seq<char>| entries_map(t).dom().contains(kk) implies #[trigger] entries_map(t)[kk] == entries_map(s0).insert(k, v)[kk] by {
        let j = choose|j: int| 0 <= j < t.len() && #[trigger] t[j].0@ == kk;
        if j < i {
            assert(t[j] == s0[j]);
            lemma_seq_lt_irreflexive(k);
        } else if j > i {
            assert(t[j] == s0[j - 1]);
            lemma_seq_lt_irreflexive(kk);
            if j - 1 > i {
                assert(seq_lt(s0[i].0@, s0[j - 1].0@));
                lemma_seq_lt_transitive(k, s0[i].0@, s0[j - 1].0@);
            }
        }
    }
    assert(entries_map(t) =~= entries_map(s0).insert(k, v));
}

impl<V: View> View for StrMap<V> {
    type V = Map<Seq<char>, V::V>;

    open spec fn view(&self) -> Map<Seq<char>, V::V> {
        self.map().map_values(|v: V| v@)
    }
}

/// Viewing commutes with insertion.
pub proof fn lemma_view_insert<V: View>(m: Map<Seq<char>, V>, k: Seq<char>, v: V)
    ensures
        m.insert(k, v).map_values(|x: V| x@) == m.map_values(|x: V| x@).insert(k, v@),
{
    assert(m.insert(k, v).map_values(|x: V| x@) =~= m.map_values(|x: V| x@).insert(k, v@));
}

/// Viewing commutes with removal.
pub proof fn lemma_view_remove<V: View>(m: Map<Seq<char>, V>, k: Seq<char>)
    ensures
        m.remove(k).map_values(|x: V| x@) == m.map_values(|x: V| x@).remove(k),
{
    assert(m.remove(k).map_values(|x: V| x@) =~= m.map_values(|x: V| x@).remove(k));
}

/// An entry's value is structurally smaller than the map holding it.
pub proof fn lemma_entry_decreases<V>(m: StrMap<V>, i: int)
    requires
        0 <= i < m.seq().len(),
    ensures
        decreases_to!(m => m.seq()[i].1),
{
    assert(decreases_to!(m => m.entries));
    assert(decreases_to!(m.entries => m.entries@));
    assert(decreases_to!(m.entries@ => m.entries@[i]));
    assert(decreases_to!(m.entries@[i] => m.entries@[i].1));
}

} // verus!
