//! Maps and sets keyed by text, held and walked in the order of their keys.
use vstd::prelude::*;

use crate::text;

verus! {

/// Values of which a copy with the same model can be made.
pub trait Duplicate: View + Sized {
    fn duplicate(&self) -> (r: Self)
        ensures
            r@ == self@,
    ;
}

impl Duplicate for String {
    fn duplicate(&self) -> (r: Self) {
        self.clone()
    }
}

/// The models of values.
pub open spec fn views<T: View>(v: Seq<T>) -> Seq<T::V> {
    Seq::new(v.len(), |i: int| v[i]@)
}

/// The first `count` of `s`.
pub open spec fn at_most<T>(s: Seq<T>, count: int) -> Seq<T> {
    if s.len() > count {
        s.take(count)
    } else {
        s
    }
}

/// Copies of values, in order.
pub fn copy_all<T: Duplicate>(v: &Vec<T>) -> (r: Vec<T>)
    ensures
        views(r@) == views(v@),
        r@.len() == v@.len(),
{
    let mut out: Vec<T> = Vec::new();
    let mut i: usize = 0;
    while i < v.len()
        invariant
            i <= v@.len(),
            out@.len() == i,
            forall|j: int| 0 <= j < i ==> (#[trigger] out@[j])@ == v@[j]@,
        decreases v.len() - i,
    {
        let c = v[i].duplicate();
        out.push(c);
        i = i + 1;
    }
    assert(views(out@) =~= views(v@));
    out
}

// ---------------------------------------------------------------------------------------------
// The order of texts
// ---------------------------------------------------------------------------------------------
/// `a` stands before `b` in the dictionary order of their characters.
pub open spec fn before(a: Seq<char>, b: Seq<char>) -> bool
    decreases a.len(),
{
    if b.len() == 0 {
        false
    } else if a.len() == 0 {
        true
    } else if a[0] != b[0] {
        a[0] < b[0]
    } else {
        before(a.skip(1), b.skip(1))
    }
}

/// The order of texts is irreflexive.
pub proof fn lemma_before_irreflexive(a: Seq<char>)
    ensures
        !before(a, a),
    decreases a.len(),
{
    if a.len() > 0 {
        lemma_before_irreflexive(a.skip(1));
    }
}

/// The order of texts is transitive.
pub proof fn lemma_before_transitive(a: Seq<char>, b: Seq<char>, c: Seq<char>)
    requires
        before(a, b),
        before(b, c),
    ensures
        before(a, c),
    decreases a.len(),
{
    if a.len() > 0 && a[0] == b[0] && b[0] == c[0] {
        lemma_before_transitive(a.skip(1), b.skip(1), c.skip(1));
    }
}

/// Of two different texts one stands before the other.
pub proof fn lemma_before_total(a: Seq<char>, b: Seq<char>)
    ensures
        a == b || before(a, b) || before(b, a),
    decreases a.len(),
{
    if a.len() > 0 && b.len() > 0 && a[0] == b[0] {
        lemma_before_total(a.skip(1), b.skip(1));
        if a.skip(1) == b.skip(1) {
            assert(a =~= seq![a[0]] + a.skip(1));
            assert(b =~= seq![b[0]] + b.skip(1));
        }
    } else if a.len() == 0 && b.len() == 0 {
        assert(a =~= b);
    }
}

/// The order of texts is antisymmetric.
pub proof fn lemma_before_asymmetric(a: Seq<char>, b: Seq<char>)
    requires
        before(a, b),
    ensures
        !before(b, a),
        a != b,
{
    if before(b, a) {
        lemma_before_transitive(a, b, a);
    }
    lemma_before_irreflexive(a);
}

/// Whether `a` stands before `b`.
pub fn precedes(a: &str, b: &str) -> (r: bool)
    ensures
        r == before(a@, b@),
{
    let x = text::chars_of(a);
    let y = text::chars_of(b);
    let mut i: usize = 0;
    assert(x@.skip(0) =~= x@);
    assert(y@.skip(0) =~= y@);
    while i < x.len() && i < y.len() && x[i] == y[i]
        invariant
            i <= x@.len(),
            i <= y@.len(),
            x@ == a@,
            y@ == b@,
            before(x@.skip(i as int), y@.skip(i as int)) == before(a@, b@),
        decreases x.len() - i,
    {
        assert(x@.skip(i as int).skip(1) =~= x@.skip(i + 1));
        assert(y@.skip(i as int).skip(1) =~= y@.skip(i + 1));
        i = i + 1;
    }
    if i == y.len() {
        false
    } else if i == x.len() {
        true
    } else {
        x[i] < y[i]
    }
}

// ---------------------------------------------------------------------------------------------
// The model of a map: its entries in key order
// ---------------------------------------------------------------------------------------------
/// Each key stands before those that follow it.
pub open spec fn ordered<T>(m: Seq<(Seq<char>, T)>) -> bool {
    forall|i: int, j: int| 0 <= i < j < m.len() ==> before(#[trigger] m[i].0, #[trigger] m[j].0)
}

/// `m` has an entry for `k`.
pub open spec fn has_key<T>(m: Seq<(Seq<char>, T)>, k: Seq<char>) -> bool {
    exists|i: int| 0 <= i < m.len() && #[trigger] m[i].0 == k
}

/// The value that `m` holds for `k`.
pub open spec fn lookup<T>(m: Seq<(Seq<char>, T)>, k: Seq<char>) -> Option<T> {
    if has_key(m, k) {
        Some(m[choose|i: int| 0 <= i < m.len() && #[trigger] m[i].0 == k].1)
    } else {
        None
    }
}

/// The number of leading entries of `m` whose keys stand before `k`.
pub open spec fn slot<T>(m: Seq<(Seq<char>, T)>, k: Seq<char>) -> int
    decreases m.len(),
{
    if m.len() > 0 && before(m[0].0, k) {
        1 + slot(m.skip(1), k)
    } else {
        0
    }
}

/// `m` with `v` as the value of `k`; every other key keeps its value.
pub open spec fn inserted<T>(m: Seq<(Seq<char>, T)>, k: Seq<char>, v: T) -> Seq<(Seq<char>, T)> {
    let p = slot(m, k);
    if p < m.len() && m[p].0 == k {
        m.update(p, (k, v))
    } else {
        m.insert(p, (k, v))
    }
}

pub open spec fn keys<T>(m: Seq<(Seq<char>, T)>) -> Seq<Seq<char>> {
    Seq::new(m.len(), |i: int| m[i].0)
}

pub open spec fn values<T>(m: Seq<(Seq<char>, T)>) -> Seq<T> {
    Seq::new(m.len(), |i: int| m[i].1)
}

pub proof fn lemma_slot<T>(m: Seq<(Seq<char>, T)>, k: Seq<char>, p: int)
    requires
        0 <= p <= m.len(),
        forall|j: int| 0 <= j < p ==> before(#[trigger] m[j].0, k),
        p < m.len() ==> !before(m[p].0, k),
    ensures
        slot(m, k) == p,
    decreases m.len(),
{
    if p > 0 {
        assert(before(m[0].0, k));
        let rest = m.skip(1);
        assert forall|j: int| 0 <= j < p - 1 implies before(#[trigger] rest[j].0, k) by {
            assert(rest[j] == m[j + 1]);
        }
        lemma_slot(rest, k, p - 1);
    }
}

pub proof fn lemma_slot_splits<T>(m: Seq<(Seq<char>, T)>, k: Seq<char>)
    requires
        ordered(m),
    ensures
        0 <= slot(m, k) <= m.len(),
        forall|j: int| 0 <= j < slot(m, k) ==> before(#[trigger] m[j].0, k),
        forall|j: int| slot(m, k) <= j < m.len() ==> !before(#[trigger] m[j].0, k),
        has_key(m, k) <==> (slot(m, k) < m.len() && m[slot(m, k)].0 == k),
        lookup(m, k) == if slot(m, k) < m.len() && m[slot(m, k)].0 == k {
            Some(m[slot(m, k)].1)
        } else {
            None
        },
    decreases m.len(),
{
    if m.len() > 0 && before(m[0].0, k) {
        let rest = m.skip(1);
        assert forall|i: int, j: int| 0 <= i < j < rest.len() implies before(
            #[trigger] rest[i].0,
            #[trigger] rest[j].0,
        ) by {
            assert(rest[i] == m[i + 1]);
            assert(rest[j] == m[j + 1]);
        }
        lemma_slot_splits(rest, k);
        assert forall|j: int| 0 <= j < slot(m, k) implies before(#[trigger] m[j].0, k) by {
            if j > 0 {
                assert(m[j] == rest[j - 1]);
            }
        }
        assert forall|j: int| slot(m, k) <= j < m.len() implies !before(#[trigger] m[j].0, k) by {
            assert(m[j] == rest[j - 1]);
        }
    } else {
        assert forall|j: int| 0 <= j < m.len() implies !before(#[trigger] m[j].0, k) by {
            if j > 0 && before(m[j].0, k) {
                assert(before(m[0].0, m[j].0));
                lemma_before_transitive(m[0].0, m[j].0, k);
            }
        }
    }
    let p = slot(m, k);
    assert forall|i: int| 0 <= i < m.len() && #[trigger] m[i].0 == k implies i == p by {
        lemma_before_irreflexive(k);
        if i > p {
            assert(before(m[p].0, m[i].0));
        }
    }
}

/// Inserting keeps the entries in order, gives `k` the value `v`, and leaves what every other
/// key maps to.
pub proof fn lemma_inserted<T>(m: Seq<(Seq<char>, T)>, k: Seq<char>, v: T)
    requires
        ordered(m),
    ensures
        ordered(inserted(m, k, v)),
        lookup(inserted(m, k, v), k) == Some(v),
        forall|k2: Seq<char>| k2 != k ==> lookup(inserted(m, k, v), k2) == #[trigger] lookup(m, k2),
{
    let p = slot(m, k);
    lemma_slot_splits(m, k);
    let r = inserted(m, k, v);
    if p < m.len() && m[p].0 == k {
        assert forall|i: int, j: int| 0 <= i < j < r.len() implies before(
            #[trigger] r[i].0,
            #[trigger] r[j].0,
        ) by {
            assert(r[i].0 == m[i].0 && r[j].0 == m[j].0);
        }
    } else {
        assert forall|i: int, j: int| 0 <= i < j < r.len() implies before(
            #[trigger] r[i].0,
            #[trigger] r[j].0,
        ) by {
            if i < p && j == p {
                assert(r[i] == m[i]);
            } else if i == p {
                assert(r[j] == m[j - 1]);
                assert(!before(m[j - 1].0, k));
                lemma_before_total(k, m[j - 1].0);
                assert(m[j - 1].0 != k) by {
                    if m[j - 1].0 == k {
                        assert(has_key(m, k));
                    }
                }
            } else {
                let a = if i < p {
                    i
                } else {
                    i - 1
                };
                let b = if j < p {
                    j
                } else {
                    j - 1
                };
                assert(r[i] == m[a] && r[j] == m[b]);
            }
        }
    }
    assert(r[p].0 == k);
    lemma_slot_splits(r, k);
    lemma_slot(r, k, p);
    assert forall|k2: Seq<char>| k2 != k implies lookup(r, k2) == #[trigger] lookup(m, k2) by {
        lemma_slot_splits(r, k2);
        lemma_slot_splits(m, k2);
        if has_key(m, k2) {
            let q = slot(m, k2);
            if p < m.len() && m[p].0 == k {
                assert(r[q].0 == k2);
                lemma_position(r, q);
            } else if q < p {
                assert(r[q] == m[q]);
                lemma_position(r, q);
            } else {
                assert(r[q + 1] == m[q]);
                lemma_position(r, q + 1);
            }
        } else if has_key(r, k2) {
            let q = slot(r, k2);
            if p < m.len() && m[p].0 == k {
                assert(m[q].0 == k2);
            } else if q < p {
                assert(m[q].0 == k2);
            } else {
                assert(m[q - 1].0 == k2);
            }
        }
    }
}

/// In an ordered map a key stands at one place only.
pub proof fn lemma_position<T>(m: Seq<(Seq<char>, T)>, i: int)
    requires
        ordered(m),
        0 <= i < m.len(),
    ensures
        slot(m, m[i].0) == i,
        lookup(m, m[i].0) == Some(m[i].1),
{
    lemma_slot_splits(m, m[i].0);
    let p = slot(m, m[i].0);
    assert(has_key(m, m[i].0));
    if p < i {
        assert(before(m[p].0, m[i].0));
        lemma_before_irreflexive(m[i].0);
    } else if i < p {
        lemma_before_irreflexive(m[i].0);
    }
}

/// Two ordered maps that give every key the same value are the same.
pub proof fn lemma_same_lookups<T>(a: Seq<(Seq<char>, T)>, b: Seq<(Seq<char>, T)>)
    requires
        ordered(a),
        ordered(b),
        forall|k: Seq<char>| #[trigger] lookup(a, k) == lookup(b, k),
    ensures
        a == b,
    decreases a.len(),
{
    if a.len() == 0 {
        if b.len() > 0 {
            lemma_position(b, 0);
            assert(lookup(a, b[0].0) == lookup(b, b[0].0));
        }
        assert(a =~= b);
    } else {
        lemma_position(a, 0);
        assert(lookup(a, a[0].0) == lookup(b, a[0].0));
        assert(has_key(b, a[0].0));
        let i = slot(b, a[0].0);
        lemma_slot_splits(b, a[0].0);
        if i > 0 {
            assert(before(b[0].0, a[0].0));
            lemma_position(b, 0);
            assert(lookup(a, b[0].0) == lookup(b, b[0].0));
            assert(has_key(a, b[0].0));
            lemma_slot_splits(a, b[0].0);
            let j = slot(a, b[0].0);
            if j > 0 {
                assert(before(a[0].0, a[j].0));
            }
            lemma_before_asymmetric(b[0].0, a[0].0);
        }
        let a2 = a.skip(1);
        let b2 = b.skip(1);
        assert(ordered(a2)) by {
            assert forall|x: int, y: int| 0 <= x < y < a2.len() implies before(
                #[trigger] a2[x].0,
                #[trigger] a2[y].0,
            ) by {
                assert(a2[x] == a[x + 1] && a2[y] == a[y + 1]);
            }
        }
        assert(ordered(b2)) by {
            assert forall|x: int, y: int| 0 <= x < y < b2.len() implies before(
                #[trigger] b2[x].0,
                #[trigger] b2[y].0,
            ) by {
                assert(b2[x] == b[x + 1] && b2[y] == b[y + 1]);
            }
        }
        assert forall|k: Seq<char>| #[trigger] lookup(a2, k) == lookup(b2, k) by {
            lemma_lookup_tail(a, k);
            lemma_lookup_tail(b, k);
            assert(lookup(a, k) == lookup(b, k));
        }
        lemma_same_lookups(a2, b2);
        assert(a =~= seq![a[0]] + a2);
        assert(b =~= seq![b[0]] + b2);
    }
}

proof fn lemma_lookup_tail<T>(m: Seq<(Seq<char>, T)>, k: Seq<char>)
    requires
        ordered(m),
        m.len() > 0,
        ordered(m.skip(1)),
    ensures
        lookup(m.skip(1), k) == if m[0].0 == k {
            None
        } else {
            lookup(m, k)
        },
{
    let t = m.skip(1);
    lemma_slot_splits(m, k);
    lemma_slot_splits(t, k);
    if m[0].0 == k {
        if has_key(t, k) {
            let i = slot(t, k);
            assert(t[i] == m[i + 1]);
            assert(before(m[0].0, m[i + 1].0));
            lemma_before_irreflexive(k);
        }
    } else if has_key(m, k) {
        let i = slot(m, k);
        assert(t[i - 1] == m[i]);
        lemma_position(t, i - 1);
    } else if has_key(t, k) {
        let i = slot(t, k);
        assert(m[i + 1].0 == k);
    }
}

// ---------------------------------------------------------------------------------------------
// The map
// ---------------------------------------------------------------------------------------------
/// A map from texts to values. Its model is the sequence of its entries, in key order.
pub struct StringMap<V: View> {
    entries: Vec<(String, V)>,
}

impl<V: View> View for StringMap<V> {
    type V = Seq<(Seq<char>, V::V)>;

    closed spec fn view(&self) -> Seq<(Seq<char>, V::V)> {
        Seq::new(self.entries@.len(), |i: int| (self.entries@[i].0@, self.entries@[i].1@))
    }
}

impl<V: View> StringMap<V> {
    #[verifier::type_invariant]
    closed spec fn inv(self) -> bool {
        ordered(self@)
    }

    pub fn new() -> (r: Self)
        ensures
            r@ == Seq::<(Seq<char>, V::V)>::empty(),
    {
        let r = StringMap { entries: Vec::new() };
        assert(r@ =~= Seq::<(Seq<char>, V::V)>::empty());
        r
    }

    /// The number of entries, which stand in key order.
    pub fn len(&self) -> (r: usize)
        ensures
            r == self@.len(),
            ordered(self@),
    {
        proof {
            use_type_invariant(self);
        }
        self.entries.len()
    }

    /// The key at position `i` of the key order.
    pub fn key(&self, i: usize) -> (r: &String)
        requires
            i < self@.len(),
        ensures
            r@ == self@[i as int].0,
    {
        &self.entries[i].0
    }

    /// The value at position `i` of the key order.
    pub fn value(&self, i: usize) -> (r: &V)
        requires
            i < self@.len(),
        ensures
            r@ == self@[i as int].1,
    {
        &self.entries[i].1
    }

    fn find_slot(&self, k: &str) -> (r: usize)
        ensures
            r == slot(self@, k@),
            r <= self@.len(),
    {
        proof {
            use_type_invariant(self);
            lemma_slot_splits(self@, k@);
        }
        let mut lo: usize = 0;
        let mut hi: usize = self.entries.len();
        while lo < hi
            invariant
                0 <= lo <= slot(self@, k@) <= hi <= self@.len(),
                self@.len() == self.entries@.len(),
                forall|j: int| 0 <= j < slot(self@, k@) ==> before(#[trigger] self@[j].0, k@),
                forall|j: int|
                    slot(self@, k@) <= j < self@.len() ==> !before(#[trigger] self@[j].0, k@),
            decreases hi - lo,
        {
            let mid: usize = lo + (hi - lo) / 2;
            assert(self@[mid as int].0 == self.entries@[mid as int].0@);
            if precedes(self.entries[mid].0.as_str(), k) {
                lo = mid + 1;
            } else {
                hi = mid;
            }
        }
        lo
    }

    /// The value for `k`.
    pub fn get(&self, k: &str) -> (r: Option<&V>)
        ensures
            match r {
                Some(v) => lookup(self@, k@) == Some(v@),
                None => lookup(self@, k@) is None,
            },
    {
        proof {
            use_type_invariant(self);
            lemma_slot_splits(self@, k@);
        }
        let p = self.find_slot(k);
        if p < self.entries.len() && text::same(self.entries[p].0.as_str(), k) {
            Some(&self.entries[p].1)
        } else {
            None
        }
    }

    pub fn has(&self, k: &str) -> (r: bool)
        ensures
            r == has_key(self@, k@),
    {
        self.get(k).is_some()
    }

    /// The map with `v` as the value of `k`, and the value that `k` had.
    pub fn with(self, k: String, v: V) -> (r: (Self, Option<V>))
        ensures
            r.0@ == inserted(self@, k@, v@),
            match r.1 {
                Some(old_value) => lookup(self@, k@) == Some(old_value@),
                None => lookup(self@, k@) is None,
            },
    {
        proof {
            use_type_invariant(&self);
            lemma_slot_splits(self@, k@);
            lemma_inserted(self@, k@, v@);
        }
        let p = self.find_slot(k.as_str());
        let found = p < self.entries.len() && text::same(
            self.entries[p].0.as_str(),
            k.as_str(),
        );
        let ghost model = self@;
        let ghost key = k@;
        let ghost val = v@;
        let mut entries = self.entries;
        if found {
            let previous = entries.remove(p);
            entries.insert(p, (k, v));
            let ghost now = Seq::new(
                entries@.len(),
                |i: int| (entries@[i].0@, entries@[i].1@),
            );
            assert(now =~= inserted(model, key, val));
            (StringMap { entries }, Some(previous.1))
        } else {
            entries.insert(p, (k, v));
            let ghost now = Seq::new(
                entries@.len(),
                |i: int| (entries@[i].0@, entries@[i].1@),
            );
            assert(now =~= inserted(model, key, val));
            (StringMap { entries }, None)
        }
    }

    /// Gives `k` the value `v`; returns whether `k` had a value before.
    pub fn insert(&mut self, k: String, v: V) -> (r: bool)
        ensures
            final(self)@ == inserted(old(self)@, k@, v@),
            r == has_key(old(self)@, k@),
    {
        let mut taken = StringMap { entries: Vec::new() };
        std::mem::swap(&mut taken, self);
        let (next, previous) = taken.with(k, v);
        *self = next;
        previous.is_some()
    }
}

impl<V: Duplicate> Duplicate for StringMap<V> {
    fn duplicate(&self) -> (r: Self) {
        let mut entries: Vec<(String, V)> = Vec::new();
        let mut i: usize = 0;
        while i < self.entries.len()
            invariant
                i <= self.entries@.len(),
                entries@.len() == i,
                forall|j: int|
                    0 <= j < i ==> (#[trigger] entries@[j]).0@ == self.entries@[j].0@
                        && entries@[j].1@ == self.entries@[j].1@,
            decreases self.entries.len() - i,
        {
            let k = self.entries[i].0.clone();
            let v = self.entries[i].1.duplicate();
            entries.push((k, v));
            i = i + 1;
        }
        proof {
            use_type_invariant(self);
            assert(Seq::new(entries@.len(), |i: int| (entries@[i].0@, entries@[i].1@)) =~= self@);
        }
        StringMap { entries }
    }
}

// ---------------------------------------------------------------------------------------------
// Laws of the order of texts
// ---------------------------------------------------------------------------------------------
/// The first character in which two texts differ decides their order, and a text stands before every
/// longer one that begins with it.
pub proof fn law_dictionary_order(common: Seq<char>, x: char, y: char, a: Seq<char>, b: Seq<char>)
    ensures
        x != y ==> (before(common.push(x) + a, common.push(y) + b) <==> (x as int) < (y as int)),
        before(common, common.push(x) + a),
        !before(common.push(x) + a, common),
    decreases common.len(),
{
    let p = common.push(x) + a;
    let q = common.push(y) + b;
    if common.len() == 0 {
        assert(p[0] == x && q[0] == y);
    } else {
        assert(p[0] == common[0] && q[0] == common[0]);
        let rest = common.skip(1);
        assert(p.skip(1) =~= rest.push(x) + a);
        assert(q.skip(1) =~= rest.push(y) + b);
        law_dictionary_order(rest, x, y, a, b);
    }
}

/// A map gives for a key the value that was put in for it last, and for every other key what it gave
/// before; its keys stay in order.
pub proof fn law_map_gives_what_was_put_in<T>(
    m: Seq<(Seq<char>, T)>,
    k: Seq<char>,
    v: T,
    other: Seq<char>,
)
    requires
        ordered(m),
        other != k,
    ensures
        ordered(inserted(m, k, v)),
        inserted(m, k, v).contains((k, v)),
        lookup(inserted(m, k, v), k) == Some(v),
        lookup(inserted(m, k, v), other) == lookup(m, other),
        lookup(Seq::<(Seq<char>, T)>::empty(), k) is None,
        inserted(m, k, v).len() == if has_key(m, k) {
            m.len()
        } else {
            m.len() + 1
        },
{
    lemma_inserted(m, k, v);
    lemma_slot_splits(m, k);
    let p = slot(m, k);
    assert(inserted(m, k, v)[p] == (k, v));
    assert(lookup(m, other) == lookup(m, other));
}

} // verus!
