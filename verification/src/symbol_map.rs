//! A finite map from symbols to values, kept as a vector of pairs in
//! increasing order of the symbols, so that walking it never depends on how
//! it was filled.
use vstd::prelude::*;

verus! {

/// The pairs stand in strictly increasing order of their symbols.
pub open spec fn strictly_sorted<V>(s: Seq<(char, V)>) -> bool {
    forall|i: int, j: int| 0 <= i < j < s.len() ==> (s[i].0 as u32) < (s[j].0 as u32)
}

/// The map that results from inserting the pairs one after another, so that
/// of two pairs with the same symbol the later one stays.
pub open spec fn entries_map<V>(s: Seq<(char, V)>) -> Map<char, V>
    decreases s.len(),
{
    if s.len() == 0 {
        Map::empty()
    } else {
        entries_map(s.drop_last()).insert(s.last().0, s.last().1)
    }
}

/// Some pair of the sequence has the symbol `c`.
pub open spec fn has_symbol<V>(s: Seq<(char, V)>, c: char) -> bool {
    exists|i: int| 0 <= i < s.len() && (#[trigger] s[i]).0 == c
}

/// The pairs of a finite map in increasing order of their symbols.
pub open spec fn sorted_entries<V>(m: Map<char, V>) -> Seq<(char, V)> {
    choose|s: Seq<(char, V)>| strictly_sorted(s) && entries_map(s) == m
}

pub proof fn lemma_entries_map_contains<V>(s: Seq<(char, V)>, c: char)
    ensures
        entries_map(s).contains_key(c) <==> has_symbol(s, c),
        entries_map(s).dom().finite(),
    decreases s.len(),
{
    if s.len() > 0 {
        let t = s.drop_last();
        lemma_entries_map_contains(t, c);
        if has_symbol(s, c) {
            let i = choose|i: int| 0 <= i < s.len() && (#[trigger] s[i]).0 == c;
            if i < s.len() - 1 {
                assert(t[i].0 == c);
            }
        }
        if has_symbol(t, c) {
            let i = choose|i: int| 0 <= i < t.len() && (#[trigger] t[i]).0 == c;
            assert(s[i].0 == c);
        }
        if s.last().0 == c {
            assert(s[s.len() - 1].0 == c);
        }
    }
}

pub proof fn lemma_entries_map_value<V>(s: Seq<(char, V)>, i: int)
    requires
        strictly_sorted(s),
        0 <= i < s.len(),
    ensures
        entries_map(s).contains_key(s[i].0),
        entries_map(s)[s[i].0] == s[i].1,
    decreases s.len(),
{
    let t = s.drop_last();
    if i < s.len() - 1 {
        assert(strictly_sorted(t)) by {
            assert forall|a: int, b: int| 0 <= a < b < t.len() implies (t[a].0 as u32) < (
            t[b].0 as u32) by {
                assert(t[a] == s[a] && t[b] == s[b]);
            }
        }
        lemma_entries_map_value(t, i);
        assert(t[i] == s[i]);
        assert((s[i].0 as u32) < (s[s.len() - 1].0 as u32));
    }
}

proof fn lemma_drop_last_sorted<V>(s: Seq<(char, V)>)
    requires
        strictly_sorted(s),
        s.len() > 0,
    ensures
        strictly_sorted(s.drop_last()),
        !entries_map(s.drop_last()).contains_key(s.last().0),
        entries_map(s.drop_last()) == entries_map(s).remove(s.last().0),
{
    let t = s.drop_last();
    assert forall|a: int, b: int| 0 <= a < b < t.len() implies (t[a].0 as u32) < (t[b].0 as u32) by {
        assert(t[a] == s[a] && t[b] == s[b]);
    }
    lemma_entries_map_contains(t, s.last().0);
    if has_symbol(t, s.last().0) {
        let i = choose|i: int| 0 <= i < t.len() && (#[trigger] t[i]).0 == s.last().0;
        assert(t[i] == s[i]);
        assert((s[i].0 as u32) < (s[s.len() - 1].0 as u32));
    }
    assert(entries_map(t) =~= entries_map(s).remove(s.last().0));
}

/// A finite map has only one strictly sorted sequence of pairs.
pub proof fn lemma_sorted_unique<V>(a: Seq<(char, V)>, b: Seq<(char, V)>)
    requires
        strictly_sorted(a),
        strictly_sorted(b),
        entries_map(a) == entries_map(b),
    ensures
        a == b,
    decreases a.len(),
{
    if a.len() == 0 {
        if b.len() > 0 {
            lemma_entries_map_value(b, 0);
        }
        assert(a =~= b);
    } else if b.len() == 0 {
        lemma_entries_map_value(a, 0);
    } else {
        let la = a.len() - 1;
        let lb = b.len() - 1;
        lemma_entries_map_value(a, la);
        lemma_entries_map_value(b, lb);
        lemma_entries_map_contains(b, a[la].0);
        lemma_entries_map_contains(a, b[lb].0);
        let j = choose|j: int| 0 <= j < b.len() && (#[trigger] b[j]).0 == a[la].0;
        let i = choose|i: int| 0 <= i < a.len() && (#[trigger] a[i]).0 == b[lb].0;
        assert((b[j].0 as u32) <= (b[lb].0 as u32));
        assert((a[i].0 as u32) <= (a[la].0 as u32));
        assert(a[la].0 == b[lb].0);
        assert(a[la] == b[lb]);
        lemma_drop_last_sorted(a);
        lemma_drop_last_sorted(b);
        lemma_sorted_unique(a.drop_last(), b.drop_last());
        assert(a =~= a.drop_last().push(a[la]));
        assert(b =~= b.drop_last().push(b[lb]));
    }
}

/// A strictly sorted sequence is the sorted sequence of its own map.
pub proof fn lemma_sorted_entries<V>(s: Seq<(char, V)>)
    requires
        strictly_sorted(s),
    ensures
        sorted_entries(entries_map(s)) == s,
        entries_map(s).len() == s.len(),
        entries_map(s).dom().finite(),
    decreases s.len(),
{
    let r = sorted_entries(entries_map(s));
    lemma_sorted_unique(r, s);
    lemma_entries_map_contains(s, 'a');
    if s.len() > 0 {
        lemma_drop_last_sorted(s);
        lemma_sorted_entries(s.drop_last());
    }
}

/// Inserting a pair with a new symbol at its place in a strictly sorted
/// sequence adds that pair to the sequence's map.
proof fn lemma_insert_entry<V>(s: Seq<(char, V)>, p: int, c: char, v: V)
    requires
        strictly_sorted(s),
        0 <= p <= s.len(),
        forall|i: int| 0 <= i < p ==> (s[i].0 as u32) < (c as u32),
        forall|i: int| p <= i < s.len() ==> (s[i].0 as u32) > (c as u32),
    ensures
        strictly_sorted(s.insert(p, (c, v))),
        entries_map(s.insert(p, (c, v))) == entries_map(s).insert(c, v),
{
    let t = s.insert(p, (c, v));
    assert(strictly_sorted(t));
    assert forall|k: char| entries_map(t).contains_key(k) <==> (k == c || entries_map(s).contains_key(
        k,
    )) by {
        lemma_entries_map_contains(t, k);
        lemma_entries_map_contains(s, k);
        if has_symbol(t, k) {
            let i = choose|i: int| 0 <= i < t.len() && (#[trigger] t[i]).0 == k;
            if i < p {
                assert(s[i].0 == k);
            } else if i > p {
                assert(s[i - 1].0 == k);
            }
        }
        if has_symbol(s, k) {
            let i = choose|i: int| 0 <= i < s.len() && (#[trigger] s[i]).0 == k;
            if i < p {
                assert(t[i].0 == k);
            } else {
                assert(t[i + 1].0 == k);
            }
        }
        if k == c {
            assert(t[p].0 == k);
        }
    }
    assert forall|k: char| entries_map(t).contains_key(k) implies entries_map(t)[k] == entries_map(
        s,
    ).insert(c, v)[k] by {
        lemma_entries_map_contains(t, k);
        let i = choose|i: int| 0 <= i < t.len() && (#[trigger] t[i]).0 == k;
        lemma_entries_map_value(t, i);
        if i < p {
            lemma_entries_map_value(s, i);
        } else if i > p {
            lemma_entries_map_value(s, i - 1);
        }
    }
    assert(entries_map(t) =~= entries_map(s).insert(c, v));
}

/// Replacing the value of one pair of a strictly sorted sequence replaces it
/// in the sequence's map.
proof fn lemma_update_entry<V>(s: Seq<(char, V)>, p: int, v: V)
    requires
        strictly_sorted(s),
        0 <= p < s.len(),
    ensures
        strictly_sorted(s.update(p, (s[p].0, v))),
        entries_map(s.update(p, (s[p].0, v))) == entries_map(s).insert(s[p].0, v),
{
    let c = s[p].0;
    let t = s.update(p, (c, v));
    assert(strictly_sorted(t)) by {
        assert forall|a: int, b: int| 0 <= a < b < t.len() implies (t[a].0 as u32) < (
        t[b].0 as u32) by {
            assert(t[a].0 == s[a].0 && t[b].0 == s[b].0);
        }
    }
    assert forall|k: char| entries_map(t).contains_key(k) <==> (k == c || entries_map(s).contains_key(
        k,
    )) by {
        lemma_entries_map_contains(t, k);
        lemma_entries_map_contains(s, k);
        if has_symbol(t, k) {
            let i = choose|i: int| 0 <= i < t.len() && (#[trigger] t[i]).0 == k;
            assert(s[i].0 == k);
        }
        if has_symbol(s, k) {
            let i = choose|i: int| 0 <= i < s.len() && (#[trigger] s[i]).0 == k;
            assert(t[i].0 == k);
        }
        if k == c {
            assert(t[p].0 == k);
        }
    }
    assert forall|k: char| entries_map(t).contains_key(k) implies entries_map(t)[k] == entries_map(
        s,
    ).insert(c, v)[k] by {
        lemma_entries_map_contains(t, k);
        let i = choose|i: int| 0 <= i < t.len() && (#[trigger] t[i]).0 == k;
        lemma_entries_map_value(t, i);
        lemma_entries_map_value(s, i);
        assert(t[i].0 == s[i].0);
    }
    assert(entries_map(t) =~= entries_map(s).insert(c, v));
}

/// The number of pairs at the front of the sequence whose symbol is below `c`.
pub open spec fn lower_bound<V>(s: Seq<(char, V)>, c: char) -> nat
    decreases s.len(),
{
    if s.len() == 0 || (s[0].0 as u32) >= (c as u32) {
        0
    } else {
        1 + lower_bound(s.drop_first(), c)
    }
}

proof fn lemma_lower_bound<V>(s: Seq<(char, V)>, c: char)
    requires
        strictly_sorted(s),
    ensures
        lower_bound(s, c) <= s.len(),
        forall|i: int| 0 <= i < lower_bound(s, c) ==> (s[i].0 as u32) < (c as u32),
        forall|i: int| lower_bound(s, c) <= i < s.len() ==> (s[i].0 as u32) >= (c as u32),
    decreases s.len(),
{
    if s.len() == 0 || (s[0].0 as u32) >= (c as u32) {
        assert forall|i: int| 0 <= i < s.len() implies (s[i].0 as u32) >= (c as u32) by {
            if i > 0 {
                assert((s[0].0 as u32) < (s[i].0 as u32));
            }
        }
    } else {
        let rest = s.drop_first();
        assert(strictly_sorted(rest)) by {
            assert forall|a: int, b: int| 0 <= a < b < rest.len() implies (rest[a].0 as u32) < (
            rest[b].0 as u32) by {
                assert(rest[a] == s[a + 1] && rest[b] == s[b + 1]);
            }
        }
        lemma_lower_bound(rest, c);
        assert forall|i: int| 0 <= i < lower_bound(s, c) implies (s[i].0 as u32) < (c as u32) by {
            if i > 0 {
                assert(s[i] == rest[i - 1]);
            }
        }
        assert forall|i: int| lower_bound(s, c) <= i < s.len() implies (s[i].0 as u32) >= (
        c as u32) by {
            assert(s[i] == rest[i - 1]);
        }
    }
}

/// Every finite map has a strictly sorted sequence of its pairs, which
/// `sorted_entries` therefore returns.
pub proof fn lemma_sorted_entries_exist<V>(m: Map<char, V>)
    requires
        m.dom().finite(),
    ensures
        strictly_sorted(sorted_entries(m)),
        entries_map(sorted_entries(m)) == m,
        sorted_entries(m).len() == m.len(),
    decreases m.len(),
{
    if m.len() == 0 {
        let s = Seq::<(char, V)>::empty();
        assert(m.dom() =~= Set::empty());
        assert(entries_map(s) =~= m);
        assert(strictly_sorted(s) && entries_map(s) == m);
    } else {
        let k = m.dom().choose();
        let smaller = m.remove(k);
        lemma_sorted_entries_exist(smaller);
        let t = sorted_entries(smaller);
        let p = lower_bound(t, k) as int;
        lemma_lower_bound(t, k);
        assert forall|i: int| p <= i < t.len() implies (t[i].0 as u32) > (k as u32) by {
            lemma_entries_map_value(t, i);
            vstd::utf8::char_u32_cast(t[i].0, t[i].0 as u32);
            vstd::utf8::char_u32_cast(k, k as u32);
        }
        lemma_insert_entry(t, p, k, m[k]);
        let s = t.insert(p, (k, m[k]));
        assert(smaller.insert(k, m[k]) =~= m);
        assert(strictly_sorted(s) && entries_map(s) == m);
    }
    lemma_sorted_entries(sorted_entries(m));
}

/// A finite map from symbols to values that hands its pairs out in
/// increasing order of the symbols.
#[derive(Debug, PartialEq, Eq)]
pub struct SymbolMap<V> {
    entries: Vec<(char, V)>,
}

impl<V> View for SymbolMap<V> {
    type V = Map<char, V>;

    closed spec fn view(&self) -> Map<char, V> {
        entries_map(self.entries@)
    }
}

impl<V> SymbolMap<V> {
    #[verifier::type_invariant]
    spec fn ordered(self) -> bool {
        strictly_sorted(self.entries@)
    }

    /// The map without any pair.
    pub fn new() -> (r: Self)
        ensures
            r@ == Map::<char, V>::empty(),
    {
        SymbolMap { entries: Vec::new() }
    }

    /// The number of pairs.
    pub fn len(&self) -> (n: usize)
        ensures
            n == self@.len(),
            n == sorted_entries(self@).len(),
            self@.dom().finite(),
    {
        proof {
            use_type_invariant(self);
            lemma_sorted_entries(self.entries@);
        }
        self.entries.len()
    }

    /// Whether the map has no pair.
    pub fn is_empty(&self) -> (b: bool)
        ensures
            b == (self@.len() == 0),
            self@.dom().finite(),
    {
        self.len() == 0
    }

    /// The index of the first pair whose symbol is not below `c`, and whether
    /// that pair has the symbol `c`.
    fn locate(&self, c: char) -> (r: (usize, bool))
        ensures
            r.0 <= self.entries@.len(),
            forall|i: int| 0 <= i < r.0 ==> (self.entries@[i].0 as u32) < (c as u32),
            forall|i: int| r.0 <= i < self.entries@.len() ==> (self.entries@[i].0 as u32) >= (c as u32),
            r.1 <==> (r.0 < self.entries@.len() && self.entries@[r.0 as int].0 == c),
            r.1 <==> self@.contains_key(c),
    {
        proof {
            use_type_invariant(self);
        }
        let mut lo: usize = 0;
        let mut hi: usize = self.entries.len();
        while lo < hi
            invariant
                lo <= hi <= self.entries@.len(),
                strictly_sorted(self.entries@),
                forall|i: int| 0 <= i < lo ==> (self.entries@[i].0 as u32) < (c as u32),
                forall|i: int| hi <= i < self.entries@.len() ==> (self.entries@[i].0 as u32) >= (c as u32),
            decreases hi - lo,
        {
            let mid: usize = lo + (hi - lo) / 2;
            if (self.entries[mid].0 as u32) < (c as u32) {
                lo = mid + 1;
            } else {
                hi = mid;
            }
        }
        let found = lo < self.entries.len() && self.entries[lo].0 == c;
        proof {
            lemma_entries_map_contains(self.entries@, c);
            if has_symbol(self.entries@, c) {
                let i = choose|i: int| 0 <= i < self.entries@.len() && (#[trigger] self.entries@[i]).0 == c;
                assert(i == lo);
            }
            if found {
                assert(self.entries@[lo as int].0 == c);
            }
        }
        (lo, found)
    }

    /// Whether the map has a pair with the symbol `c`.
    pub fn contains_key(&self, c: char) -> (b: bool)
        ensures
            b == self@.contains_key(c),
    {
        self.locate(c).1
    }

    /// The value that the map holds for the symbol `c`.
    pub fn get(&self, c: char) -> (r: Option<&V>)
        ensures
            match r {
                Some(v) => self@.contains_key(c) && self@[c] == *v,
                None => !self@.contains_key(c),
            },
    {
        let (index, found) = self.locate(c);
        if found {
            proof {
                use_type_invariant(self);
                lemma_entries_map_value(self.entries@, index as int);
            }
            Some(&self.entries[index].1)
        } else {
            None
        }
    }

    /// Sets the value for the symbol `c`, whether or not the map held one.
    pub fn insert(&mut self, c: char, v: V)
        ensures
            final(self)@ == old(self)@.insert(c, v),
    {
        let (index, found) = self.locate(c);
        proof {
            use_type_invariant(&*self);
        }
        let mut entries: Vec<(char, V)> = Vec::new();
        core::mem::swap(&mut self.entries, &mut entries);
        if found {
            proof {
                lemma_update_entry(entries@, index as int, v);
            }
            entries.set(index, (c, v));
        } else {
            proof {
                assert forall|i: int| index <= i < entries@.len() implies (entries@[i].0 as u32) > (
                c as u32) by {
                    if i > index {
                        assert((entries@[index as int].0 as u32) < (entries@[i].0 as u32));
                    } else {
                        vstd::utf8::char_u32_cast(entries@[i].0, entries@[i].0 as u32);
                        vstd::utf8::char_u32_cast(c, c as u32);
                    }
                }
                lemma_insert_entry(entries@, index as int, c, v);
            }
            entries.insert(index, (c, v));
        }
        core::mem::swap(&mut self.entries, &mut entries);
    }

    /// The symbol of the pair at place `i` in increasing order of the symbols.
    pub fn key_at(&self, i: usize) -> (c: char)
        requires
            i < self@.len(),
        ensures
            c == sorted_entries(self@)[i as int].0,
    {
        proof {
            use_type_invariant(self);
            lemma_sorted_entries(self.entries@);
        }
        self.entries[i].0
    }

    /// The value of the pair at place `i` in increasing order of the symbols.
    pub fn value_at(&self, i: usize) -> (v: &V)
        requires
            i < self@.len(),
        ensures
            *v == sorted_entries(self@)[i as int].1,
    {
        proof {
            use_type_invariant(self);
            lemma_sorted_entries(self.entries@);
        }
        &self.entries[i].1
    }
}

} // verus!
