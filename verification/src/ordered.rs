//! Maps and sets whose keys are texts, walked in the order of the texts.
//!
//! Texts are ordered by their code points, first difference first, which is
//! also the order of their UTF-8 bytes.

use crate::text;
use vstd::prelude::*;

verus! {

// ---- the order of texts ----

/// Whether one text comes before another.
pub open spec fn precedes(a: Seq<char>, b: Seq<char>) -> bool
    decreases b.len(),
{
    if b.len() == 0 {
        false
    } else if a.len() == 0 {
        true
    } else if a[0] != b[0] {
        a[0] < b[0]
    } else {
        precedes(a.skip(1), b.skip(1))
    }
}

/// No text comes before itself.
pub proof fn lemma_precedes_irreflexive(a: Seq<char>)
    ensures
        !precedes(a, a),
    decreases a.len(),
{
    if a.len() > 0 {
        lemma_precedes_irreflexive(a.skip(1));
    }
}

/// The order of texts is transitive.
pub proof fn lemma_precedes_transitive(a: Seq<char>, b: Seq<char>, c: Seq<char>)
    requires
        precedes(a, b),
        precedes(b, c),
    ensures
        precedes(a, c),
    decreases c.len(),
{
    if a.len() > 0 && a[0] == b[0] && b[0] == c[0] {
        lemma_precedes_transitive(a.skip(1), b.skip(1), c.skip(1));
    }
}

/// Of two different texts one comes before the other.
pub proof fn lemma_precedes_total(a: Seq<char>, b: Seq<char>)
    ensures
        a == b || precedes(a, b) || precedes(b, a),
    decreases a.len(),
{
    if a.len() == 0 || b.len() == 0 {
        assert(a.len() == b.len() ==> a =~= b);
    } else if a[0] == b[0] {
        lemma_precedes_total(a.skip(1), b.skip(1));
        if a.skip(1) == b.skip(1) {
            assert(a =~= seq![a[0]] + a.skip(1));
            assert(b =~= seq![b[0]] + b.skip(1));
        }
    }
}

/// Not coming before is transitive too.
pub proof fn lemma_not_precedes_transitive(a: Seq<char>, b: Seq<char>, c: Seq<char>)
    ensures
        !precedes(a, b) && !precedes(b, c) ==> !precedes(a, c),
{
    if !precedes(a, b) && !precedes(b, c) && precedes(a, c) {
        lemma_precedes_total(a, b);
        lemma_precedes_total(b, c);
        if a != b && b != c {
            lemma_precedes_transitive(c, b, a);
            lemma_precedes_transitive(c, a, c);
        }
        lemma_precedes_irreflexive(c);
    }
}

/// How one text stands to another.
#[derive(Debug, Clone, Copy, PartialEq, Eq, Structural)]
pub enum Order {
    /// It comes first.
    Before,
    /// It is the same text.
    Same,
    /// It comes second.
    After,
}

/// How `a` stands to `b`.
pub open spec fn order(a: Seq<char>, b: Seq<char>) -> Order {
    if a == b {
        Order::Same
    } else if precedes(a, b) {
        Order::Before
    } else {
        Order::After
    }
}

/// How one run of characters stands to another.
pub fn order_of_chars(a: &[char], b: &[char]) -> (r: Order)
    ensures
        r == order(a@, b@),
{
    let mut i: usize = 0;
    proof {
        assert(a@.skip(0) =~= a@);
        assert(b@.skip(0) =~= b@);
    }
    while i < a.len() && i < b.len()
        invariant
            i <= a@.len(),
            i <= b@.len(),
            a@.take(i as int) == b@.take(i as int),
            precedes(a@, b@) == precedes(a@.skip(i as int), b@.skip(i as int)),
        decreases a@.len() - i,
    {
        proof {
            assert(a@.skip(i as int).skip(1) =~= a@.skip(i + 1));
            assert(b@.skip(i as int).skip(1) =~= b@.skip(i + 1));
            assert(a@.take(i + 1) =~= a@.take(i as int).push(a@[i as int]));
            assert(b@.take(i + 1) =~= b@.take(i as int).push(b@[i as int]));
        }
        if a[i] != b[i] {
            return if a[i] < b[i] {
                Order::Before
            } else {
                Order::After
            };
        }
        i = i + 1;
    }
    if i < b.len() {
        Order::Before
    } else if i < a.len() {
        Order::After
    } else {
        assert(a@ =~= a@.take(i as int));
        assert(b@ =~= b@.take(i as int));
        Order::Same
    }
}

/// How one text stands to another.
pub fn order_of(a: &str, b: &str) -> (r: Order)
    ensures
        r == order(a@, b@),
{
    order_of_chars(&text::chars_of(a), &text::chars_of(b))
}

/// Whether one text comes before another.
pub fn comes_before(a: &str, b: &str) -> (r: bool)
    ensures
        r == precedes(a@, b@),
{
    proof {
        lemma_precedes_irreflexive(a@);
    }
    match order_of(a, b) {
        Order::Before => true,
        Order::Same => false,
        Order::After => false,
    }
}

// ---- ascending sequences ----

/// Whether each text in a sequence comes before every later one.
pub open spec fn is_ascending(s: Seq<Seq<char>>) -> bool {
    forall|i: int, j: int| 0 <= i < j < s.len() ==> precedes(#[trigger] s[i], #[trigger] s[j])
}

/// The texts of a finite set, in order.
pub open spec fn ascending(set: Set<Seq<char>>) -> Seq<Seq<char>> {
    choose|s: Seq<Seq<char>>| is_ascending(s) && #[trigger] s.to_set() == set
}

/// Two ascending sequences of the same texts are the same sequence.
pub proof fn lemma_ascending_unique(a: Seq<Seq<char>>, b: Seq<Seq<char>>)
    requires
        is_ascending(a),
        is_ascending(b),
        a.to_set() == b.to_set(),
    ensures
        a == b,
    decreases a.len(),
{
    if a.len() == 0 {
        if b.len() > 0 {
            assert(b.to_set().contains(b[0]));
            assert(a.to_set().contains(b[0]));
        }
        assert(a =~= b);
    } else if b.len() == 0 {
        assert(a.to_set().contains(a[0]));
        assert(b.to_set().contains(a[0]));
    } else {
        let x = a.last();
        let y = b.last();
        assert(a.to_set().contains(x) && b.to_set().contains(y));
        assert(b.to_set().contains(x) && a.to_set().contains(y));
        let i = choose|i: int| 0 <= i < b.len() && b[i] == x;
        let j = choose|j: int| 0 <= j < a.len() && a[j] == y;
        if x != y {
            assert(precedes(b[i], b[b.len() - 1]));
            assert(precedes(a[j], a[a.len() - 1]));
            lemma_precedes_transitive(x, y, x);
            lemma_precedes_irreflexive(x);
        }
        let c = a.drop_last();
        let d = b.drop_last();
        assert forall|t: Seq<char>| c.to_set().contains(t) == d.to_set().contains(t) by {
            if c.to_set().contains(t) {
                let k = choose|k: int| 0 <= k < c.len() && c[k] == t;
                assert(a[k] == t && precedes(a[k], a[a.len() - 1]));
                lemma_precedes_irreflexive(x);
                assert(a.to_set().contains(t) && b.to_set().contains(t));
                let l = choose|l: int| 0 <= l < b.len() && b[l] == t;
                assert(d[l] == t);
            }
            if d.to_set().contains(t) {
                let k = choose|k: int| 0 <= k < d.len() && d[k] == t;
                assert(b[k] == t && precedes(b[k], b[b.len() - 1]));
                lemma_precedes_irreflexive(x);
                assert(b.to_set().contains(t) && a.to_set().contains(t));
                let l = choose|l: int| 0 <= l < a.len() && a[l] == t;
                assert(c[l] == t);
            }
        }
        assert(c.to_set() =~= d.to_set());
        lemma_ascending_unique(c, d);
        assert(a =~= c.push(x));
        assert(b =~= d.push(y));
    }
}

/// An ascending sequence is the sequence of its own texts.
pub proof fn lemma_ascending_of(s: Seq<Seq<char>>)
    requires
        is_ascending(s),
    ensures
        ascending(s.to_set()) == s,
{
    let t = ascending(s.to_set());
    lemma_ascending_unique(s, t);
}

/// Every finite set of texts has an ascending sequence of them.
pub proof fn lemma_ascending(set: Set<Seq<char>>)
    requires
        set.finite(),
    ensures
        is_ascending(ascending(set)),
        ascending(set).to_set() == set,
        ascending(set).len() == set.len(),
    decreases set.len(),
{
    if set.len() == 0 {
        let s = Seq::<Seq<char>>::empty();
        assert(s.to_set() =~= set);
        lemma_ascending_of(s);
    } else {
        let x = set.choose();
        let rest = set.remove(x);
        lemma_ascending(rest);
        let s = ascending(rest);
        let n = lemma_place(s, x);
        let t = s.insert(n, x);
        assert forall|i: int, j: int| 0 <= i < j < t.len() implies precedes(
            #[trigger] t[i],
            #[trigger] t[j],
        ) by {
            if i < n && j == n {
                assert(precedes(s[i], x));
            } else if i == n {
                assert(s.to_set().contains(s[j - 1]));
                lemma_precedes_total(x, s[j - 1]);
            }
        }
        assert forall|u: Seq<char>| t.to_set().contains(u) == set.contains(u) by {
            if t.to_set().contains(u) {
                let k = choose|k: int| 0 <= k < t.len() && t[k] == u;
                if k != n {
                    assert(s.to_set().contains(if k < n {
                        s[k]
                    } else {
                        s[k - 1]
                    }));
                }
            }
            if set.contains(u) && u != x {
                assert(s.to_set().contains(u));
                let k = choose|k: int| 0 <= k < s.len() && s[k] == u;
                assert(t[if k < n {
                    k
                } else {
                    k + 1
                }] == u);
            }
            assert(t[n] == x);
        }
        assert(t.to_set() =~= set);
        lemma_ascending_of(t);
    }
}

/// Where a text belongs in an ascending sequence.
proof fn lemma_place(s: Seq<Seq<char>>, x: Seq<char>) -> (n: int)
    requires
        is_ascending(s),
    ensures
        0 <= n <= s.len(),
        forall|i: int| 0 <= i < n ==> precedes(#[trigger] s[i], x),
        forall|i: int| n <= i < s.len() ==> !precedes(#[trigger] s[i], x),
    decreases s.len(),
{
    if s.len() == 0 {
        0
    } else if precedes(s.last(), x) {
        assert forall|i: int| 0 <= i < s.len() implies precedes(#[trigger] s[i], x) by {
            if i < s.len() - 1 {
                lemma_precedes_transitive(s[i], s.last(), x);
            }
        }
        s.len() as int
    } else {
        let n = lemma_place(s.drop_last(), x);
        assert forall|i: int| 0 <= i < n implies precedes(#[trigger] s[i], x) by {
            assert(s.drop_last()[i] == s[i]);
        }
        assert forall|i: int| n <= i < s.len() implies !precedes(#[trigger] s[i], x) by {
            if i < s.len() - 1 {
                assert(s.drop_last()[i] == s[i]);
            }
        }
        n
    }
}

/// The texts of a finite set in order are its texts, each once.
pub proof fn lemma_ascending_apart(set: Set<Seq<char>>)
    requires
        set.finite(),
    ensures
        ascending(set).no_duplicates(),
        forall|id: Seq<char>| #[trigger] ascending(set).contains(id) == set.contains(id),
        ascending(set).len() == set.len(),
{
    lemma_ascending(set);
    let ids = ascending(set);
    assert forall|i: int, j: int| 0 <= i < ids.len() && 0 <= j < ids.len() && i != j implies ids[i]
        != ids[j] by {
        lemma_precedes_irreflexive(ids[i]);
        if i < j {
            assert(precedes(ids[i], ids[j]));
        } else {
            assert(precedes(ids[j], ids[i]));
        }
    }
    assert forall|id: Seq<char>| #[trigger] ids.contains(id) == set.contains(id) by {
        assert(ids.to_set().contains(id) == ids.contains(id));
    }
}

// ---- the map ----

/// What a map can be keyed by: anything that reads as a text.
pub trait Text: View<V = Seq<char>> {
    /// The text it reads as.
    fn text(&self) -> (r: &str)
        ensures
            r@ == self@,
    ;
}

impl Text for String {
    fn text(&self) -> (r: &str) {
        self.as_str()
    }
}

/// A map from texts to values, walked in the order of the texts.
#[derive(Debug, PartialEq, Eq)]
pub struct TextMap<K: Text, V> {
    entries: Vec<(K, V)>,
}

/// The keys of some entries.
pub open spec fn keys<K: Text, V>(entries: Seq<(K, V)>) -> Seq<Seq<char>> {
    Seq::new(entries.len(), |i: int| entries[i].0@)
}

impl<K: Text, V> TextMap<K, V> {
    /// The entries, in order.
    pub closed spec fn entries(self) -> Seq<(K, V)> {
        self.entries@
    }

    #[verifier::type_invariant]
    spec fn in_order(self) -> bool {
        is_ascending(keys(self.entries@))
    }
}

/// The map that some entries with distinct keys make.
pub open spec fn map_of<K: Text, V>(entries: Seq<(K, V)>) -> Map<Seq<char>, V> {
    Map::new(
        |k: Seq<char>| keys(entries).contains(k),
        |k: Seq<char>| entries[keys(entries).index_of(k)].1,
    )
}

impl<K: Text, V> View for TextMap<K, V> {
    type V = Map<Seq<char>, V>;

    open spec fn view(&self) -> Map<Seq<char>, V> {
        map_of(self.entries())
    }
}

/// A map with each value replaced by its view.
pub open spec fn value_views<V: View>(m: Map<Seq<char>, V>) -> Map<Seq<char>, V::V> {
    Map::new(|k: Seq<char>| m.contains_key(k), |k: Seq<char>| m[k]@)
}

pub broadcast proof fn lemma_value_views_insert<V: View>(m: Map<Seq<char>, V>, k: Seq<char>, v: V)
    ensures
        #[trigger] value_views(m.insert(k, v)) == value_views(m).insert(k, v@),
{
    assert(value_views(m.insert(k, v)) =~= value_views(m).insert(k, v@));
}

proof fn lemma_distinct(s: Seq<Seq<char>>, i: int, j: int)
    requires
        is_ascending(s),
        0 <= i < s.len(),
        0 <= j < s.len(),
        s[i] == s[j],
    ensures
        i == j,
{
    if i < j {
        lemma_precedes_irreflexive(s[i]);
    } else if j < i {
        lemma_precedes_irreflexive(s[j]);
    }
}

proof fn lemma_entry<K: Text, V>(entries: Seq<(K, V)>, i: int)
    requires
        is_ascending(keys(entries)),
        0 <= i < entries.len(),
    ensures
        map_of(entries).contains_key(entries[i].0@),
        map_of(entries)[entries[i].0@] == entries[i].1,
{
    let s = keys(entries);
    let k = entries[i].0@;
    assert(s[i] == k);
    assert(s.contains(k));
    assert(s.index_of(k) == i) by {
        let j = s.index_of(k);
        assert(0 <= j < s.len() && s[j] == k);
        lemma_distinct(s, i, j);
    }
}

proof fn lemma_domain<K: Text, V>(entries: Seq<(K, V)>)
    requires
        is_ascending(keys(entries)),
    ensures
        map_of(entries).dom() == keys(entries).to_set(),
        map_of(entries).dom().finite(),
        ascending(map_of(entries).dom()) == keys(entries),
        map_of(entries).dom().len() == entries.len(),
{
    broadcast use vstd::seq_lib::seq_to_set_is_finite;

    assert(map_of(entries).dom() =~= keys(entries).to_set());
    lemma_ascending_of(keys(entries));
    lemma_ascending(map_of(entries).dom());
}

impl<K: Text, V> TextMap<K, V> {
    /// A map with nothing in it.
    pub fn new() -> (m: Self)
        ensures
            m@ == Map::<Seq<char>, V>::empty(),
    {
        let m = TextMap { entries: Vec::new() };
        assert(m@ =~= Map::<Seq<char>, V>::empty());
        m
    }

    /// How many entries there are.
    pub fn len(&self) -> (n: usize)
        ensures
            self@.dom().finite(),
            n == self@.dom().len(),
            n == ascending(self@.dom()).len(),
    {
        proof {
            use_type_invariant(self);
            lemma_domain(self.entries@);
        }
        self.entries.len()
    }

    /// The key of the entry at a place in the order.
    pub fn key(&self, i: usize) -> (k: &K)
        requires
            i < ascending(self@.dom()).len(),
        ensures
            k@ == ascending(self@.dom())[i as int],
            self@.contains_key(k@),
    {
        proof {
            use_type_invariant(self);
            lemma_domain(self.entries@);
            lemma_entry(self.entries@, i as int);
        }
        &self.entries[i].0
    }

    /// The value of the entry at a place in the order.
    pub fn value(&self, i: usize) -> (v: &V)
        requires
            i < ascending(self@.dom()).len(),
        ensures
            *v == self@[ascending(self@.dom())[i as int]],
            self@.contains_key(ascending(self@.dom())[i as int]),
    {
        proof {
            use_type_invariant(self);
            lemma_domain(self.entries@);
            lemma_entry(self.entries@, i as int);
        }
        &self.entries[i].1
    }

    /// Where a key is or would be.
    fn place(&self, key: &str) -> (n: usize)
        ensures
            n <= self.entries@.len(),
            forall|i: int| 0 <= i < n ==> precedes(#[trigger] keys(self.entries@)[i], key@),
            forall|i: int|
                n <= i < self.entries@.len() ==> !precedes(
                    #[trigger] keys(self.entries@)[i],
                    key@,
                ),
    {
        proof {
            use_type_invariant(self);
        }
        let mut low: usize = 0;
        let mut high: usize = self.entries.len();
        let ghost s = keys(self.entries@);
        while low < high
            invariant
                s == keys(self.entries@),
                is_ascending(s),
                low <= high <= s.len(),
                forall|i: int| 0 <= i < low ==> precedes(#[trigger] s[i], key@),
                forall|i: int| high <= i < s.len() ==> !precedes(#[trigger] s[i], key@),
            decreases high - low,
        {
            let mid: usize = low + (high - low) / 2;
            let here = comes_before(self.entries[mid].0.text(), key);
            assert(s[mid as int] == self.entries@[mid as int].0@);
            if here {
                assert forall|i: int| 0 <= i < mid + 1 implies precedes(#[trigger] s[i], key@) by {
                    if i < mid {
                        lemma_precedes_transitive(s[i], s[mid as int], key@);
                    }
                }
                low = mid + 1;
            } else {
                assert forall|i: int| mid <= i < s.len() implies !precedes(
                    #[trigger] s[i],
                    key@,
                ) by {
                    if i > mid && precedes(s[i], key@) {
                        lemma_precedes_transitive(s[mid as int], s[i], key@);
                    }
                }
                high = mid;
            }
        }
        low
    }

    /// The value under a key.
    pub fn get(&self, key: &str) -> (r: Option<&V>)
        ensures
            match r {
                Some(v) => self@.contains_key(key@) && *v == self@[key@],
                None => !self@.contains_key(key@),
            },
    {
        proof {
            use_type_invariant(self);
        }
        let n = self.place(key);
        let ghost s = keys(self.entries@);
        if n < self.entries.len() && text::same(self.entries[n].0.text(), key) {
            proof {
                lemma_entry(self.entries@, n as int);
            }
            Some(&self.entries[n].1)
        } else {
            proof {
                if s.contains(key@) {
                    let k = s.index_of(key@);
                    assert(s[k] == key@);
                    lemma_precedes_irreflexive(key@);
                    assert(k >= n);
                    if k > n {
                        assert(precedes(s[n as int], s[k]));
                    }
                    assert(s[n as int] == self.entries@[n as int].0@);
                }
            }
            None
        }
    }

    /// Whether there is an entry under a key.
    pub fn contains(&self, key: &str) -> (r: bool)
        ensures
            r == self@.contains_key(key@),
    {
        self.get(key).is_some()
    }

    /// Put a value under a key, in place of any that was there.
    pub fn insert(&mut self, key: K, value: V)
        ensures
            final(self)@ == old(self)@.insert(key@, value),
    {
        proof {
            use_type_invariant(&*self);
        }
        let n = self.place(key.text());
        let mut entries: Vec<(K, V)> = Vec::new();
        std::mem::swap(&mut entries, &mut self.entries);
        let ghost was = entries@;
        let ghost s = keys(was);
        let there = n < entries.len() && text::same(entries[n].0.text(), key.text());
        let ghost k = key@;
        if there {
            assert(s[n as int] == k);
            entries.set(n, (key, value));
            let ghost now = entries@;
            assert(keys(now) =~= s);
            assert(map_of(now) =~= map_of(was).insert(k, value)) by {
                lemma_domain(was);
                lemma_domain(now);
                assert(s.contains(k));
                assert forall|t: Seq<char>| keys(now).contains(t) implies #[trigger] map_of(now)[t]
                    == map_of(was).insert(k, value)[t] by {
                    let i = s.index_of(t);
                    assert(s[i] == t);
                    lemma_entry(now, i);
                    lemma_entry(was, i);
                    if t == k {
                        lemma_distinct(s, i, n as int);
                    }
                }
            }
        } else {
            proof {
                lemma_insert(was, n as int, key, value);
            }
            entries.insert(n, (key, value));
        }
        self.entries = entries;
    }

    /// Take away the entry under a key.
    pub fn remove(&mut self, key: &str) -> (r: Option<V>)
        ensures
            final(self)@ == old(self)@.remove(key@),
            match r {
                Some(v) => old(self)@.contains_key(key@) && v == old(self)@[key@],
                None => !old(self)@.contains_key(key@),
            },
    {
        proof {
            use_type_invariant(&*self);
        }
        let there = self.contains(key);
        if !there {
            assert(self@ =~= old(self)@.remove(key@));
            return None;
        }
        let n = self.place(key);
        let mut entries: Vec<(K, V)> = Vec::new();
        std::mem::swap(&mut entries, &mut self.entries);
        let ghost was = entries@;
        let ghost s = keys(was);
        proof {
            let k = s.index_of(key@);
            assert(s[k] == key@);
            lemma_precedes_irreflexive(key@);
            if k > n {
                assert(precedes(s[n as int], s[k]));
            }
            assert(k == n);
            lemma_entry(was, n as int);
            lemma_remove(was, n as int);
        }
        let (_, value) = entries.remove(n);
        self.entries = entries;
        Some(value)
    }
}

proof fn lemma_insert<K: Text, V>(was: Seq<(K, V)>, n: int, key: K, value: V)
    requires
        is_ascending(keys(was)),
        0 <= n <= was.len(),
        forall|i: int| 0 <= i < n ==> precedes(#[trigger] keys(was)[i], key@),
        forall|i: int| n <= i < was.len() ==> !precedes(#[trigger] keys(was)[i], key@),
        n < was.len() ==> was[n].0@ != key@,
    ensures
        is_ascending(keys(was.insert(n, (key, value)))),
        map_of(was.insert(n, (key, value))) == map_of(was).insert(key@, value),
{
    let now = was.insert(n, (key, value));
    let s = keys(was);
    let t = keys(now);
    let k = key@;
    assert(t =~= s.insert(n, k));
    assert forall|i: int| n <= i < s.len() implies precedes(k, #[trigger] s[i]) by {
        lemma_precedes_total(k, s[i]);
        if s[i] == k && i > n {
            assert(precedes(s[n], s[i]));
        }
        assert(s[n] == was[n].0@);
    }
    assert forall|i: int, j: int| 0 <= i < j < t.len() implies precedes(
        #[trigger] t[i],
        #[trigger] t[j],
    ) by {
        if j == n {
            assert(precedes(s[i], k));
        } else if i == n {
            assert(precedes(k, s[j - 1]));
        }
    }
    lemma_domain(was);
    lemma_domain(now);
    assert(now[n] == (key, value));
    lemma_entry(now, n);
    assert forall|u: Seq<char>| t.contains(u) == (u == k || s.contains(u)) by {
        if t.contains(u) && u != k {
            let i = t.index_of(u);
            assert(t[i] == u);
            assert(s[if i < n {
                i
            } else {
                i - 1
            }] == u);
        }
        if s.contains(u) {
            let i = s.index_of(u);
            assert(s[i] == u);
            assert(t[if i < n {
                i
            } else {
                i + 1
            }] == u);
        }
        assert(t[n] == k);
    }
    assert forall|u: Seq<char>| s.contains(u) && u != k implies #[trigger] map_of(now)[u] == map_of(
        was,
    )[u] by {
        let i = s.index_of(u);
        assert(s[i] == u);
        let j = if i < n {
            i
        } else {
            i + 1
        };
        assert(now[j] == was[i]);
        lemma_entry(was, i);
        lemma_entry(now, j);
    }
    assert(map_of(now) =~= map_of(was).insert(k, value));
}

proof fn lemma_remove<K: Text, V>(was: Seq<(K, V)>, n: int)
    requires
        is_ascending(keys(was)),
        0 <= n < was.len(),
    ensures
        is_ascending(keys(was.remove(n))),
        map_of(was.remove(n)) == map_of(was).remove(was[n].0@),
{
    let now = was.remove(n);
    let s = keys(was);
    let t = keys(now);
    let k = was[n].0@;
    assert(t =~= s.remove(n));
    assert forall|i: int, j: int| 0 <= i < j < t.len() implies precedes(
        #[trigger] t[i],
        #[trigger] t[j],
    ) by {
        let a = if i < n {
            i
        } else {
            i + 1
        };
        let b = if j < n {
            j
        } else {
            j + 1
        };
        assert(precedes(s[a], s[b]));
    }
    lemma_domain(was);
    lemma_domain(now);
    assert forall|u: Seq<char>| t.contains(u) == (u != k && s.contains(u)) by {
        if t.contains(u) {
            let i = t.index_of(u);
            assert(t[i] == u);
            let a = if i < n {
                i
            } else {
                i + 1
            };
            assert(s[a] == u);
            if u == k {
                assert(s[n] == k);
                lemma_distinct(s, a, n);
            }
        }
        if s.contains(u) && u != k {
            let i = s.index_of(u);
            assert(s[i] == u);
            assert(i != n);
            assert(t[if i < n {
                i
            } else {
                i - 1
            }] == u);
        }
    }
    assert forall|u: Seq<char>| t.contains(u) implies #[trigger] map_of(now)[u] == map_of(
        was,
    )[u] by {
        let i = t.index_of(u);
        assert(t[i] == u);
        let a = if i < n {
            i
        } else {
            i + 1
        };
        assert(now[i] == was[a]);
        lemma_entry(now, i);
        lemma_entry(was, a);
    }
    assert(map_of(now) =~= map_of(was).remove(k));
}

/// Texts are in the order of the first character in which they differ, and a
/// text comes before what it begins.
pub proof fn lemma_the_first_difference_decides(a: Seq<char>, b: Seq<char>, n: int)
    requires
        0 <= n <= a.len(),
        n <= b.len(),
        a.take(n) == b.take(n),
    ensures
        n < a.len() && n < b.len() && (a[n] as int) < (b[n] as int) ==> precedes(a, b)
            && !precedes(b, a),
        n == a.len() && n < b.len() ==> precedes(a, b) && !precedes(b, a),
    decreases n,
{
    if n > 0 {
        assert(a[0] == a.take(n)[0] && b[0] == b.take(n)[0]);
        let (x, y) = (a.skip(1), b.skip(1));
        assert(x.take(n - 1) =~= a.take(n).skip(1));
        assert(y.take(n - 1) =~= b.take(n).skip(1));
        assert(x.take(n - 1) == y.take(n - 1));
        lemma_the_first_difference_decides(x, y, n - 1);
        assert(n < a.len() ==> x[n - 1] == a[n]);
        assert(n < b.len() ==> y[n - 1] == b[n]);
    }
}

} // verus!
