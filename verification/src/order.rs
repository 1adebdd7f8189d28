//! The order of texts by code points, and maps from texts kept in that order.

use crate::text::{chars_of, same_text};
use vstd::prelude::*;

verus! {

/// Whether `a` comes before `b`, comparing code points from the front.
pub open spec fn before(a: Seq<char>, b: Seq<char>) -> bool
    decreases a.len(),
{
    if b.len() == 0 {
        false
    } else if a.len() == 0 {
        true
    } else if a[0] != b[0] {
        a[0] < b[0]
    } else {
        before(a.drop_first(), b.drop_first())
    }
}

/// No text comes before itself.
pub proof fn lemma_before_irreflexive(a: Seq<char>)
    ensures
        !before(a, a),
    decreases a.len(),
{
    if a.len() > 0 {
        lemma_before_irreflexive(a.drop_first());
    }
}

/// The order is transitive.
pub proof fn lemma_before_transitive(a: Seq<char>, b: Seq<char>, c: Seq<char>)
    requires
        before(a, b),
        before(b, c),
    ensures
        before(a, c),
    decreases a.len(),
{
    if a.len() > 0 && b.len() > 0 && c.len() > 0 && a[0] == b[0] && b[0] == c[0] {
        lemma_before_transitive(a.drop_first(), b.drop_first(), c.drop_first());
    }
}

/// Two texts are ordered one way, the other way, or are the same.
pub proof fn lemma_before_total(a: Seq<char>, b: Seq<char>)
    ensures
        before(a, b) || before(b, a) || a == b,
    decreases a.len(),
{
    if a.len() == 0 || b.len() == 0 {
        if a.len() == 0 && b.len() == 0 {
            assert(a =~= b);
        }
    } else if a[0] == b[0] {
        lemma_before_total(a.drop_first(), b.drop_first());
        if a.drop_first() == b.drop_first() {
            assert(a =~= seq![a[0]] + a.drop_first());
            assert(b =~= seq![b[0]] + b.drop_first());
        }
    }
}

/// Whether `a` comes before `b`.
pub fn comes_before(a: &str, b: &str) -> (r: bool)
    ensures
        r == before(a@, b@),
{
    let x = chars_of(a);
    let y = chars_of(b);
    let mut i: usize = 0;
    assert(x@.skip(0) =~= a@);
    assert(y@.skip(0) =~= b@);
    while i < x.len() && i < y.len() && x[i] == y[i]
        invariant
            i <= x.len(),
            i <= y.len(),
            before(a@, b@) == before(x@.skip(i as int), y@.skip(i as int)),
        decreases x.len() - i,
    {
        assert(x@.skip(i as int).drop_first() =~= x@.skip(i + 1));
        assert(y@.skip(i as int).drop_first() =~= y@.skip(i + 1));
        i = i + 1;
    }
    if i == y.len() {
        false
    } else if i == x.len() {
        true
    } else {
        x[i] < y[i]
    }
}

/// The keys of a row of entries.
pub open spec fn keys<V>(entries: Seq<(String, V)>) -> Seq<Seq<char>> {
    entries.map_values(|e: (String, V)| e.0@)
}

/// Whether the texts stand in strictly ascending order.
pub open spec fn ascending(s: Seq<Seq<char>>) -> bool {
    forall|i: int, j: int| 0 <= i < j < s.len() ==> before(#[trigger] s[i], #[trigger] s[j])
}

/// A map from texts, its entries in ascending order of their keys.
#[derive(Clone, Debug)]
pub struct TextMap<V> {
    pub entries: Vec<(String, V)>,
}

impl<V> TextMap<V> {
    /// Keys ascend, so none occurs twice.
    pub open spec fn wf(&self) -> bool {
        ascending(keys(self.entries@))
    }

    /// Whether there is an entry for the key.
    pub open spec fn has(&self, key: Seq<char>) -> bool {
        keys(self.entries@).contains(key)
    }

    /// Where the entry for the key stands.
    pub open spec fn position(&self, key: Seq<char>) -> int {
        keys(self.entries@).index_of(key)
    }

    /// The value for the key.
    pub open spec fn value_at(&self, key: Seq<char>) -> V {
        self.entries@[self.position(key)].1
    }
}

impl<V> View for TextMap<V> {
    type V = Map<Seq<char>, V>;

    open spec fn view(&self) -> Map<Seq<char>, V> {
        Map::new(|k: Seq<char>| self.has(k), |k: Seq<char>| self.value_at(k))
    }
}

impl<V> TextMap<V> {
    /// What the map holds at an entry's own key.
    pub proof fn lemma_entry(&self, i: int)
        requires
            self.wf(),
            0 <= i < self.entries@.len(),
        ensures
            self@.dom().contains(self.entries@[i].0@),
            self@[self.entries@[i].0@] == self.entries@[i].1,
            self.position(self.entries@[i].0@) == i,
    {
        let ks = keys(self.entries@);
        assert(ks[i] == self.entries@[i].0@);
        let p = ks.index_of(ks[i]);
        assert(ks.contains(ks[i]));
        assert(0 <= p < ks.len() && ks[p] == ks[i]);
        if p < i {
            lemma_before_irreflexive(ks[i]);
        } else if i < p {
            lemma_before_irreflexive(ks[i]);
        }
    }

    /// A key of the map stands at its position.
    pub proof fn lemma_position(&self, key: Seq<char>)
        requires
            self.has(key),
        ensures
            0 <= self.position(key) < self.entries@.len(),
            self.entries@[self.position(key)].0@ == key,
    {
        let ks = keys(self.entries@);
        let p = ks.index_of(key);
        assert(0 <= p < ks.len() && ks[p] == key);
    }

    pub fn new() -> (r: TextMap<V>)
        ensures
            r.wf(),
            r@ == Map::<Seq<char>, V>::empty(),
            r.entries@.len() == 0,
    {
        let r: TextMap<V> = TextMap { entries: Vec::new() };
        assert(r@ =~= Map::<Seq<char>, V>::empty());
        r
    }

    /// The position of the first key that does not come before the given one.
    fn lower_bound(&self, key: &str) -> (r: usize)
        requires
            self.wf(),
        ensures
            r <= self.entries@.len(),
            forall|i: int| 0 <= i < r ==> before((#[trigger] self.entries@[i]).0@, key@),
            forall|i: int| r <= i < self.entries@.len() ==> !before((#[trigger] self.entries@[i]).0@, key@),
    {
        let mut i: usize = 0;
        while i < self.entries.len() && comes_before(self.entries[i].0.as_str(), key)
            invariant
                i <= self.entries@.len(),
                forall|j: int| 0 <= j < i ==> before((#[trigger] self.entries@[j]).0@, key@),
            decreases self.entries@.len() - i,
        {
            i = i + 1;
        }
        assert forall|j: int| i <= j < self.entries@.len() implies !before(
            (#[trigger] self.entries@[j]).0@,
            key@,
        ) by {
            if i < j {
                let ks = keys(self.entries@);
                assert(before(ks[i as int], ks[j]));
                if before(ks[j], key@) {
                    lemma_before_transitive(ks[i as int], ks[j], key@);
                }
            }
        }
        i
    }

    /// Where the key stands, if it does.
    pub fn find(&self, key: &str) -> (r: Option<usize>)
        requires
            self.wf(),
        ensures
            match r {
                Some(i) => i < self.entries@.len() && self.entries@[i as int].0@ == key@
                    && self@.dom().contains(key@) && self@[key@] == self.entries@[i as int].1
                    && self.position(key@) == i,
                None => !self@.dom().contains(key@),
            },
    {
        let i: usize = self.lower_bound(key);
        if i < self.entries.len() && same_text(self.entries[i].0.as_str(), key) {
            proof {
                self.lemma_entry(i as int);
            }
            Some(i)
        } else {
            proof {
                let ks = keys(self.entries@);
                assert forall|j: int| 0 <= j < ks.len() implies ks[j] != key@ by {
                    lemma_before_irreflexive(key@);
                    if j < i {
                        assert(before(self.entries@[j].0@, key@));
                    } else if j > i {
                        assert(before(ks[i as int], ks[j]));
                        assert(!before(self.entries@[i as int].0@, key@));
                    }
                }
                assert(!ks.contains(key@));
            }
            None
        }
    }

    pub fn contains_key(&self, key: &str) -> (r: bool)
        requires
            self.wf(),
        ensures
            r == self@.dom().contains(key@),
    {
        self.find(key).is_some()
    }

    pub fn get(&self, key: &str) -> (r: Option<&V>)
        requires
            self.wf(),
        ensures
            match r {
                Some(v) => self@.dom().contains(key@) && self@[key@] == *v,
                None => !self@.dom().contains(key@),
            },
    {
        match self.find(key) {
            Some(i) => Some(&self.entries[i].1),
            None => None,
        }
    }

    /// Sets the value for the key.
    pub fn insert(&mut self, key: String, value: V)
        requires
            old(self).wf(),
        ensures
            final(self).wf(),
            final(self)@ == old(self)@.insert(key@, value),
    {
        let ghost old_entries = self.entries@;
        let i: usize = self.lower_bound(key.as_str());
        if i < self.entries.len() && same_text(self.entries[i].0.as_str(), key.as_str()) {
            proof {
                self.lemma_entry(i as int);
            }
            let ghost k = key@;
            self.entries[i] = (key, value);
            proof {
                assert(keys(self.entries@) =~= keys(old_entries));
                assert(self@ =~= old(self)@.insert(k, value)) by {
                    assert forall|q: Seq<char>| self.has(q) implies #[trigger] self@[q]
                        == old(self)@.insert(k, value)[q] by {
                        old(self).lemma_position(q);
                        if q == k {
                            old(self).lemma_entry(i as int);
                        }
                    }
                }
            }
        } else {
            let ghost k = key@;
            self.entries.insert(i, (key, value));
            proof {
                let now = self.entries@;
                let ks = keys(old_entries);
                let nks = keys(now);
                assert(nks =~= ks.insert(i as int, k));
                assert forall|a: int, b: int| 0 <= a < b < nks.len() implies before(
                    #[trigger] nks[a],
                    #[trigger] nks[b],
                ) by {
                    let oa = if a < i { a } else { a - 1 };
                    let ob = if b < i { b } else { b - 1 };
                    if a == i {
                        // k comes before everything that does not come before it.
                        assert(!before(old_entries[ob].0@, k));
                        lemma_before_total(old_entries[ob].0@, k);
                        assert(ks[ob] == old_entries[ob].0@);
                        if ks[ob] == k {
                            if ob == i {
                            } else {
                                assert(before(ks[i as int], ks[ob]));
                                assert(!before(old_entries[i as int].0@, k));
                            }
                        }
                    } else if b == i {
                        assert(before(old_entries[oa].0@, k));
                        assert(ks[oa] == old_entries[oa].0@);
                    } else {
                        assert(nks[a] == ks[oa]);
                        assert(nks[b] == ks[ob]);
                    }
                }
                assert(self.wf());
                self.lemma_insert_view(old(self), i as int, k, value);
            }
        }
    }

    proof fn lemma_insert_view(&self, before_map: &TextMap<V>, i: int, k: Seq<char>, value: V)
        requires
            self.wf(),
            before_map.wf(),
            0 <= i <= before_map.entries@.len(),
            self.entries@.len() == before_map.entries@.len() + 1,
            self.entries@[i].0@ == k,
            self.entries@[i].1 == value,
            forall|j: int| 0 <= j < i ==> self.entries@[j] == before_map.entries@[j],
            forall|j: int|
                i <= j < before_map.entries@.len() ==> self.entries@[j + 1]
                    == #[trigger] before_map.entries@[j],
        ensures
            self@ == before_map@.insert(k, value),
    {
        assert(self@.dom() =~= before_map@.insert(k, value).dom()) by {
            assert forall|q: Seq<char>| #[trigger]
                self@.dom().contains(q) == before_map@.insert(k, value).dom().contains(q) by {
                if self.has(q) {
                    self.lemma_position(q);
                    let p = self.position(q);
                    if p < i {
                        before_map.lemma_entry(p);
                    } else if p > i {
                        assert(self.entries@[p] == before_map.entries@[p - 1]);
                        before_map.lemma_entry(p - 1);
                    }
                }
                if before_map.has(q) {
                    before_map.lemma_position(q);
                    let p = before_map.position(q);
                    if p < i {
                        self.lemma_entry(p);
                    } else {
                        self.lemma_entry(p + 1);
                    }
                }
                self.lemma_entry(i);
            }
        }
        assert forall|q: Seq<char>| #[trigger] self@.dom().contains(q) implies self@[q]
            == before_map@.insert(k, value)[q] by {
            self.lemma_entry(i);
            if q != k {
                self.lemma_position(q);
                let p = self.position(q);
                if p < i {
                    before_map.lemma_entry(p);
                    self.lemma_entry(p);
                } else {
                    assert(p != i);
                    assert(self.entries@[p] == before_map.entries@[p - 1]);
                    before_map.lemma_entry(p - 1);
                    self.lemma_entry(p);
                }
            }
        }
        assert(self@ =~= before_map@.insert(k, value));
    }

    /// Takes the entry for the key out.
    pub fn remove(&mut self, key: &str)
        requires
            old(self).wf(),
        ensures
            final(self).wf(),
            final(self)@ == old(self)@.remove(key@),
    {
        match self.find(key) {
            Some(i) => {
                let ghost gone = old(self).entries@[i as int];
                self.entries.remove(i);
                proof {
                    let ks = keys(old(self).entries@);
                    let nks = keys(self.entries@);
                    assert(nks =~= ks.remove(i as int));
                    assert(self.wf());
                    let whole: TextMap<V> = *old(self);
                    whole.lemma_insert_view(self, i as int, key@, gone.1);
                    self.lemma_absent(&whole, i as int);
                    assert(self@ =~= whole@.remove(key@));
                }
            },
            None => {
                assert(self@ =~= self@.remove(key@));
            },
        }
    }

    /// What was taken out is gone.
    proof fn lemma_absent(&self, whole: &TextMap<V>, i: int)
        requires
            self.wf(),
            whole.wf(),
            0 <= i < whole.entries@.len(),
            self.entries@ == whole.entries@.remove(i),
        ensures
            !self@.dom().contains(whole.entries@[i].0@),
    {
        let k = whole.entries@[i].0@;
        if self.has(k) {
            self.lemma_position(k);
            let p = self.position(k);
            if p < i {
                whole.lemma_entry(p);
            } else {
                whole.lemma_entry(p + 1);
            }
            whole.lemma_entry(i);
        }
    }
}

/// The texts of a set in ascending order.
pub open spec fn ordered(set: Set<Seq<char>>) -> Seq<Seq<char>> {
    choose|s: Seq<Seq<char>>| #[trigger] ascending(s) && s.to_set() == set
}

/// A set has only one ascending order.
pub proof fn lemma_ascending_unique(a: Seq<Seq<char>>, b: Seq<Seq<char>>)
    requires
        ascending(a),
        ascending(b),
        a.to_set() == b.to_set(),
    ensures
        a == b,
    decreases a.len(),
{
    assert forall|x: Seq<char>| #[trigger] a.contains(x) == b.contains(x) by {
        assert(a.to_set().contains(x) == a.contains(x));
        assert(b.to_set().contains(x) == b.contains(x));
    }
    if a.len() == 0 {
        if b.len() > 0 {
            assert(b.contains(b[0]));
            assert(a.contains(b[0]));
        }
        assert(a =~= b);
    } else {
        assert(a.contains(a[0]));
        assert(b.len() > 0);
        let n = a.len() - 1;
        let m = b.len() - 1;
        assert(a.contains(a[n]));
        assert(b.contains(b[m]));
        assert(a.contains(b[m]));
        let j = choose|j: int| 0 <= j < b.len() && b[j] == a[n];
        let i = choose|i: int| 0 <= i < a.len() && a[i] == b[m];
        lemma_before_irreflexive(a[n]);
        if j < m {
            assert(before(b[j], b[m]));
            if i < n {
                assert(before(a[i], a[n]));
                lemma_before_transitive(a[n], b[m], a[n]);
            }
        }
        assert(a[n] == b[m]);
        let fa = a.drop_last();
        let fb = b.drop_last();
        assert forall|p: int, q: int| 0 <= p < q < fa.len() implies before(
            #[trigger] fa[p],
            #[trigger] fa[q],
        ) by {
            assert(before(a[p], a[q]));
        }
        assert forall|p: int, q: int| 0 <= p < q < fb.len() implies before(
            #[trigger] fb[p],
            #[trigger] fb[q],
        ) by {
            assert(before(b[p], b[q]));
        }
        assert forall|x: Seq<char>| #[trigger] fa.to_set().contains(x) == fb.to_set().contains(x) by {
            if fa.contains(x) {
                let p = choose|p: int| 0 <= p < fa.len() && fa[p] == x;
                assert(a[p] == x);
                assert(before(a[p], a[n]));
                assert(a.contains(x));
                let q = choose|q: int| 0 <= q < b.len() && b[q] == x;
                assert(q != m);
                assert(fb[q] == x);
            }
            if fb.contains(x) {
                let p = choose|p: int| 0 <= p < fb.len() && fb[p] == x;
                assert(b[p] == x);
                assert(before(b[p], b[m]));
                assert(b.contains(x));
                assert(a.contains(x));
                let q = choose|q: int| 0 <= q < a.len() && a[q] == x;
                assert(q != n);
                assert(fa[q] == x);
            }
        }
        assert(fa.to_set() =~= fb.to_set());
        lemma_ascending_unique(fa, fb);
        assert(a =~= fa.push(a[n]));
        assert(b =~= fb.push(b[m]));
    }
}

/// What ascends is the order of its own set.
pub proof fn lemma_ordered_is(s: Seq<Seq<char>>, set: Set<Seq<char>>)
    requires
        ascending(s),
        s.to_set() == set,
    ensures
        ordered(set) == s,
{
    lemma_ascending_unique(s, ordered(set));
}

impl<V> TextMap<V> {
    /// The entries stand in the order of the keys.
    pub proof fn lemma_ordered(&self)
        requires
            self.wf(),
        ensures
            keys(self.entries@) == ordered(self@.dom()),
    {
        let ks = keys(self.entries@);
        assert(ks.to_set() =~= self@.dom()) by {
            assert forall|k: Seq<char>| #[trigger] ks.to_set().contains(k) == self@.dom().contains(
                k,
            ) by {
                assert(self.has(k) == ks.contains(k));
            }
        }
        assert(ascending(ks));
        lemma_ascending_unique(ks, ordered(self@.dom()));
    }
}

impl<V> TextMap<V> {
    /// The value of an entry, to change.
    pub fn value_mut(&mut self, i: usize) -> (r: &mut V)
        requires
            i < old(self).entries@.len(),
        ensures
            *r == old(self).entries@[i as int].1,
            final(self).entries@ == old(self).entries@.update(
                i as int,
                (old(self).entries@[i as int].0, *final(r)),
            ),
    {
        &mut self.entries[i].1
    }

    /// Changing the value of an entry sets the value for its key.
    pub proof fn lemma_changed(&self, start: TextMap<V>, i: int, value: V)
        requires
            start.wf(),
            0 <= i < start.entries@.len(),
            self.entries@ == start.entries@.update(i, (start.entries@[i].0, value)),
        ensures
            self.wf(),
            self@ == start@.insert(start.entries@[i].0@, value),
    {
        let k = start.entries@[i].0@;
        assert(keys(self.entries@) =~= keys(start.entries@));
        assert forall|q: Seq<char>| self.has(q) implies #[trigger] self@[q] == start@.insert(
            k,
            value,
        )[q] by {
            start.lemma_position(q);
            start.lemma_entry(i);
        }
        start.lemma_entry(i);
        assert(self@ =~= start@.insert(k, value));
    }
}

impl<V: Copy> TextMap<V> {
    pub fn duplicate(&self) -> (r: TextMap<V>)
        requires
            self.wf(),
        ensures
            r.wf(),
            r@ == self@,
    {
        let mut entries: Vec<(String, V)> = Vec::new();
        let mut i: usize = 0;
        while i < self.entries.len()
            invariant
                i <= self.entries@.len(),
                entries@.len() == i,
                forall|j: int|
                    0 <= j < i ==> (#[trigger] entries@[j]).0@ == self.entries@[j].0@
                        && entries@[j].1 == self.entries@[j].1,
            decreases self.entries@.len() - i,
        {
            entries.push((self.entries[i].0.clone(), self.entries[i].1));
            i = i + 1;
        }
        let r = TextMap { entries };
        proof {
            assert(keys(r.entries@) =~= keys(self.entries@));
            assert forall|k: Seq<char>| #[trigger] self@.dom().contains(k) implies r@[k] == self@[k] by {
                self.lemma_position(k);
            }
            assert(r@ =~= self@);
        }
        r
    }
}

} // verus!
