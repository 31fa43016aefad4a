//! Ranks and the stable sort by rank.
use vstd::prelude::*;

use crate::string_map;
use crate::text;

verus! {

/// One criterion of a rank.
pub enum RankPart {
    Number(i128),
    Text(String),
}

/// The model of a criterion.
pub enum PartModel {
    Number(int),
    Text(Seq<char>),
}

impl View for RankPart {
    type V = PartModel;

    open spec fn view(&self) -> PartModel {
        match self {
            RankPart::Number(n) => PartModel::Number(*n as int),
            RankPart::Text(t) => PartModel::Text(t@),
        }
    }
}

/// Numbers come in their order, texts in that of a dictionary, numbers before texts.
pub open spec fn part_below(a: PartModel, b: PartModel) -> bool {
    match (a, b) {
        (PartModel::Number(x), PartModel::Number(y)) => x < y,
        (PartModel::Text(x), PartModel::Text(y)) => string_map::before(x, y),
        (PartModel::Number(_), PartModel::Text(_)) => true,
        (PartModel::Text(_), PartModel::Number(_)) => false,
    }
}

/// The first criterion in which two ranks differ decides which of them is below the other.
pub open spec fn below(a: Seq<PartModel>, b: Seq<PartModel>) -> bool
    decreases a.len(),
{
    if b.len() == 0 {
        false
    } else if a.len() == 0 {
        true
    } else if a[0] != b[0] {
        part_below(a[0], b[0])
    } else {
        below(a.skip(1), b.skip(1))
    }
}

proof fn lemma_part_order(a: PartModel, b: PartModel, c: PartModel)
    ensures
        !part_below(a, a),
        a == b || part_below(a, b) || part_below(b, a),
        part_below(a, b) && part_below(b, c) ==> part_below(a, c),
        part_below(a, b) ==> !part_below(b, a),
{
    match (a, b, c) {
        (PartModel::Text(x), PartModel::Text(y), PartModel::Text(z)) => {
            string_map::lemma_before_irreflexive(x);
            string_map::lemma_before_total(x, y);
            if string_map::before(x, y) {
                string_map::lemma_before_asymmetric(x, y);
                if string_map::before(y, z) {
                    string_map::lemma_before_transitive(x, y, z);
                }
            }
        },
        (PartModel::Text(x), PartModel::Text(y), _) => {
            string_map::lemma_before_irreflexive(x);
            string_map::lemma_before_total(x, y);
            if string_map::before(x, y) {
                string_map::lemma_before_asymmetric(x, y);
            }
        },
        (PartModel::Text(x), _, _) => {
            string_map::lemma_before_irreflexive(x);
        },
        _ => {},
    }
}

/// No rank is below itself.
pub proof fn lemma_below_irreflexive(a: Seq<PartModel>)
    ensures
        !below(a, a),
    decreases a.len(),
{
    if a.len() > 0 {
        lemma_below_irreflexive(a.skip(1));
    }
}

/// Of two different ranks one is below the other.
pub proof fn lemma_below_total(a: Seq<PartModel>, b: Seq<PartModel>)
    ensures
        a == b || below(a, b) || below(b, a),
    decreases a.len(),
{
    if a.len() > 0 && b.len() > 0 {
        lemma_part_order(a[0], b[0], a[0]);
        if a[0] == b[0] {
            lemma_below_total(a.skip(1), b.skip(1));
            if a.skip(1) == b.skip(1) {
                assert(a =~= seq![a[0]] + a.skip(1));
                assert(b =~= seq![b[0]] + b.skip(1));
            }
        }
    } else if a.len() == 0 && b.len() == 0 {
        assert(a =~= b);
    }
}

/// What is below a rank that is below another is below that one too.
pub proof fn lemma_below_transitive(a: Seq<PartModel>, b: Seq<PartModel>, c: Seq<PartModel>)
    requires
        below(a, b),
        below(b, c),
    ensures
        below(a, c),
    decreases a.len(),
{
    if a.len() > 0 {
        lemma_part_order(a[0], b[0], c[0]);
        lemma_part_order(b[0], a[0], c[0]);
        lemma_part_order(b[0], c[0], a[0]);
        lemma_part_order(c[0], a[0], b[0]);
        if a[0] == b[0] && b[0] == c[0] {
            lemma_below_transitive(a.skip(1), b.skip(1), c.skip(1));
        }
    }
}

/// Of two ranks at most one is below the other.
pub proof fn lemma_below_asymmetric(a: Seq<PartModel>, b: Seq<PartModel>)
    requires
        below(a, b),
    ensures
        !below(b, a),
{
    if below(b, a) {
        lemma_below_transitive(a, b, a);
        lemma_below_irreflexive(a);
    }
}

pub open spec fn rank_model(v: Seq<RankPart>) -> Seq<PartModel> {
    Seq::new(v.len(), |i: int| v[i]@)
}

fn part_is_below(a: &RankPart, b: &RankPart) -> (r: bool)
    ensures
        r == part_below(a@, b@),
{
    match (a, b) {
        (RankPart::Number(x), RankPart::Number(y)) => *x < *y,
        (RankPart::Text(x), RankPart::Text(y)) => string_map::precedes(x.as_str(), y.as_str()),
        (RankPart::Number(_), RankPart::Text(_)) => true,
        (RankPart::Text(_), RankPart::Number(_)) => false,
    }
}

fn same_part(a: &RankPart, b: &RankPart) -> (r: bool)
    ensures
        r == (a@ == b@),
{
    match (a, b) {
        (RankPart::Number(x), RankPart::Number(y)) => *x == *y,
        (RankPart::Text(x), RankPart::Text(y)) => text::same(x.as_str(), y.as_str()),
        _ => false,
    }
}

pub fn is_below(a: &Vec<RankPart>, b: &Vec<RankPart>) -> (r: bool)
    ensures
        r == below(rank_model(a@), rank_model(b@)),
{
    let ghost x = rank_model(a@);
    let ghost y = rank_model(b@);
    let mut i: usize = 0;
    assert(x.skip(0) =~= x);
    assert(y.skip(0) =~= y);
    while i < a.len() && i < b.len() && same_part(&a[i], &b[i])
        invariant
            i <= a@.len(),
            i <= b@.len(),
            x == rank_model(a@),
            y == rank_model(b@),
            below(x.skip(i as int), y.skip(i as int)) == below(x, y),
        decreases a.len() - i,
    {
        assert(x.skip(i as int).skip(1) =~= x.skip(i + 1));
        assert(y.skip(i as int).skip(1) =~= y.skip(i + 1));
        i = i + 1;
    }
    if i == b.len() {
        false
    } else if i == a.len() {
        true
    } else {
        part_is_below(&a[i], &b[i])
    }
}

// ---------------------------------------------------------------------------------------------
// Sorting
// ---------------------------------------------------------------------------------------------
/// `s` with `x` put behind the entries that it is not below.
pub open spec fn placed<T>(s: Seq<(Seq<PartModel>, T)>, x: (Seq<PartModel>, T)) -> Seq<
    (Seq<PartModel>, T),
>
    decreases s.len(),
{
    if s.len() > 0 && below(x.0, s.last().0) {
        placed(s.drop_last(), x).push(s.last())
    } else {
        s.push(x)
    }
}

/// The entries in the order of their ranks; those of one rank keep their order.
pub open spec fn sorted<T>(s: Seq<(Seq<PartModel>, T)>) -> Seq<(Seq<PartModel>, T)>
    decreases s.len(),
{
    if s.len() == 0 {
        s
    } else {
        placed(sorted(s.drop_last()), s.last())
    }
}

/// No entry is below one that stands before it.
pub open spec fn in_order<T>(s: Seq<(Seq<PartModel>, T)>) -> bool {
    forall|i: int, j: int| 0 <= i < j < s.len() ==> !below(#[trigger] s[j].0, #[trigger] s[i].0)
}

/// The entries of rank `k`, in order.
pub open spec fn of_rank<T>(s: Seq<(Seq<PartModel>, T)>, k: Seq<PartModel>) -> Seq<T>
    decreases s.len(),
{
    if s.len() == 0 {
        Seq::empty()
    } else if s.last().0 == k {
        of_rank(s.drop_last(), k).push(s.last().1)
    } else {
        of_rank(s.drop_last(), k)
    }
}

proof fn lemma_placed<T>(s: Seq<(Seq<PartModel>, T)>, x: (Seq<PartModel>, T))
    requires
        in_order(s),
    ensures
        in_order(placed(s, x)),
        placed(s, x).len() == s.len() + 1,
        placed(s, x).to_multiset() == s.to_multiset().insert(x),
        forall|k: Seq<PartModel>| #[trigger] of_rank(placed(s, x), k) == of_rank(s.push(x), k),
        forall|b: Seq<PartModel>|
            (forall|i: int| 0 <= i < s.len() ==> !below(b, #[trigger] s[i].0)) && !below(b, x.0)
                ==> forall|i: int|
                0 <= i < placed(s, x).len() ==> !#[trigger] below(b, placed(s, x)[i].0),
    decreases s.len(),
{
    let p = placed(s, x);
    broadcast use vstd::seq_lib::group_to_multiset_ensures;

    if s.len() > 0 && below(x.0, s.last().0) {
        let front = s.drop_last();
        lemma_placed(front, x);
        let q = placed(front, x);
        assert(s =~= front.push(s.last()));
        lemma_below_asymmetric(x.0, s.last().0);
        assert forall|i: int, j: int| 0 <= i < j < p.len() implies !below(
            #[trigger] p[j].0,
            #[trigger] p[i].0,
        ) by {
            if j == p.len() - 1 {
                assert(forall|m: int|
                    0 <= m < front.len() ==> !below(s.last().0, #[trigger] front[m].0)) by {
                    assert forall|m: int| 0 <= m < front.len() implies !below(
                        s.last().0,
                        #[trigger] front[m].0,
                    ) by {
                        assert(front[m] == s[m]);
                        assert(s[s.len() - 1] == s.last());
                    }
                }
                assert(p[i] == q[i]);
                assert(!below(s.last().0, q[i].0));
            } else {
                assert(p[i] == q[i] && p[j] == q[j]);
            }
        }
        assert forall|k: Seq<PartModel>| #[trigger] of_rank(p, k) == of_rank(s.push(x), k) by {
            assert(p.drop_last() =~= q);
            assert(s.push(x).drop_last() =~= s);
            assert(front.push(x).drop_last() =~= front);
            assert(p.last() == s.last());
            assert(s.push(x).last() == x && front.push(x).last() == x);
            assert(of_rank(q, k) == of_rank(front.push(x), k));
            lemma_below_irreflexive(x.0);
            assert(of_rank(s, k) == if s.last().0 == k {
                of_rank(front, k).push(s.last().1)
            } else {
                of_rank(front, k)
            });
        }
        assert forall|b: Seq<PartModel>|
            (forall|i: int| 0 <= i < s.len() ==> !below(b, #[trigger] s[i].0)) && !below(
                b,
                x.0,
            ) implies forall|i: int| 0 <= i < p.len() ==> !#[trigger] below(b, p[i].0) by {
            assert forall|i: int| 0 <= i < front.len() implies !below(b, #[trigger] front[i].0) by {
                assert(front[i] == s[i]);
            }
            assert forall|i: int| 0 <= i < p.len() implies !#[trigger] below(b, p[i].0) by {
                if i < q.len() {
                    assert(p[i] == q[i]);
                    assert(!below(b, q[i].0));
                } else {
                    assert(p[i] == s[s.len() - 1]);
                }
            }
        }
        assert(p.to_multiset() =~= s.to_multiset().insert(x));
    } else {
        assert forall|i: int, j: int| 0 <= i < j < p.len() implies !below(
            #[trigger] p[j].0,
            #[trigger] p[i].0,
        ) by {
            if j == p.len() - 1 {
                assert(p[i] == s[i]);
                if i < s.len() - 1 {
                    assert(!below(s[s.len() - 1].0, s[i].0));
                    if below(x.0, s[i].0) {
                        lemma_below_total(s[i].0, s.last().0);
                        if below(s[i].0, s.last().0) {
                            lemma_below_transitive(x.0, s[i].0, s.last().0);
                        }
                    }
                }
            } else {
                assert(p[i] == s[i] && p[j] == s[j]);
            }
        }
    }
}

/// Sorting keeps the entries, puts them in order, and keeps the order of entries of one rank.
pub proof fn lemma_sorted<T>(s: Seq<(Seq<PartModel>, T)>)
    ensures
        sorted(s).len() == s.len(),
        sorted(s).to_multiset() == s.to_multiset(),
        in_order(sorted(s)),
        forall|k: Seq<PartModel>| #[trigger] of_rank(sorted(s), k) == of_rank(s, k),
    decreases s.len(),
{
    broadcast use vstd::seq_lib::group_to_multiset_ensures;

    if s.len() > 0 {
        lemma_sorted(s.drop_last());
        lemma_placed(sorted(s.drop_last()), s.last());
        assert(s =~= s.drop_last().push(s.last()));
        assert forall|k: Seq<PartModel>| #[trigger] of_rank(sorted(s), k) == of_rank(s, k) by {
            let d = sorted(s.drop_last());
            assert(d.push(s.last()).drop_last() =~= d);
            assert(of_rank(placed(d, s.last()), k) == of_rank(d.push(s.last()), k));
            assert(of_rank(d, k) == of_rank(s.drop_last(), k));
        }
    }
}

proof fn lemma_placed_member<T>(s: Seq<(Seq<PartModel>, T)>, x: (Seq<PartModel>, T), i: int)
    requires
        0 <= i < placed(s, x).len(),
    ensures
        placed(s, x)[i] == x || exists|j: int| 0 <= j < s.len() && #[trigger] s[j] == placed(s, x)[i],
    decreases s.len(),
{
    if s.len() > 0 && below(x.0, s.last().0) {
        let front = s.drop_last();
        if i < placed(front, x).len() {
            lemma_placed_member(front, x, i);
            if placed(s, x)[i] != x {
                let j = choose|j: int| 0 <= j < front.len() && #[trigger] front[j] == placed(front, x)[i];
                assert(s[j] == placed(s, x)[i]);
            }
        } else {
            assert(placed(s, x)[i] == s[s.len() - 1]);
        }
    } else if i < s.len() {
        assert(s[i] == placed(s, x)[i]);
    }
}

/// What is sorted stood in the sequence before.
pub proof fn lemma_sorted_member<T>(s: Seq<(Seq<PartModel>, T)>, i: int)
    requires
        0 <= i < sorted(s).len(),
    ensures
        exists|j: int| 0 <= j < s.len() && #[trigger] s[j] == sorted(s)[i],
    decreases s.len(),
{
    if s.len() > 0 {
        let d = sorted(s.drop_last());
        lemma_placed_member(d, s.last(), i);
        if sorted(s)[i] == s.last() {
            assert(s[s.len() - 1] == sorted(s)[i]);
        } else {
            let j = choose|j: int| 0 <= j < d.len() && #[trigger] d[j] == sorted(s)[i];
            lemma_sorted_member(s.drop_last(), j);
            let m = choose|m: int| 0 <= m < s.drop_last().len() && #[trigger] s.drop_last()[m] == d[j];
            assert(s[m] == sorted(s)[i]);
        }
    }
}

/// What stood in the sequence stands in the sorted one.
pub proof fn lemma_sorted_holds<T>(s: Seq<(Seq<PartModel>, T)>, i: int)
    requires
        0 <= i < s.len(),
    ensures
        exists|j: int| 0 <= j < sorted(s).len() && #[trigger] sorted(s)[j] == s[i],
{
    broadcast use vstd::seq_lib::group_to_multiset_ensures;

    lemma_sorted(s);
    assert(s.contains(s[i]));
    assert(s.to_multiset().contains(s[i]));
    assert(sorted(s).to_multiset().contains(s[i]));
    assert(sorted(s).contains(s[i]));
}

/// An entry is put at some place among the others.
pub proof fn lemma_placed_at<T>(s: Seq<(Seq<PartModel>, T)>, x: (Seq<PartModel>, T)) -> (k: int)
    ensures
        0 <= k <= s.len(),
        placed(s, x) == s.insert(k, x),
    decreases s.len(),
{
    if s.len() > 0 && below(x.0, s.last().0) {
        let front = s.drop_last();
        let k = lemma_placed_at(front, x);
        assert(front.insert(k, x).push(s.last()) =~= s.insert(k, x));
        k
    } else {
        assert(s.push(x) =~= s.insert(s.len() as int, x));
        s.len() as int
    }
}

/// No two entries have the same rank.
pub open spec fn ranks_differ<T>(s: Seq<(Seq<PartModel>, T)>) -> bool {
    forall|i: int, j: int| 0 <= i < j < s.len() ==> (#[trigger] s[i]).0 != (#[trigger] s[j]).0
}

proof fn lemma_of_rank<T>(s: Seq<(Seq<PartModel>, T)>, k: Seq<PartModel>)
    ensures
        (forall|i: int| 0 <= i < s.len() ==> (#[trigger] s[i]).0 != k) ==> of_rank(s, k).len() == 0,
        ranks_differ(s) ==> of_rank(s, k).len() <= 1,
        forall|i: int| 0 <= i < s.len() && (#[trigger] s[i]).0 == k ==> of_rank(s, k).len() >= 1,
        forall|i: int, j: int|
            0 <= i < j < s.len() && (#[trigger] s[i]).0 == k && (#[trigger] s[j]).0 == k
                ==> of_rank(s, k).len() >= 2,
    decreases s.len(),
{
    if s.len() > 0 {
        let front = s.drop_last();
        lemma_of_rank(front, k);
        assert(forall|i: int| 0 <= i < front.len() ==> #[trigger] front[i] == s[i]);
        assert(s.last() == s[s.len() - 1]);
        if ranks_differ(s) {
            assert(ranks_differ(front));
        }
        assert forall|i: int| 0 <= i < s.len() && (#[trigger] s[i]).0 == k implies of_rank(
            s,
            k,
        ).len() >= 1 by {
            if i < front.len() {
                assert(front[i].0 == k);
            }
        }
        assert forall|i: int, j: int|
            0 <= i < j < s.len() && (#[trigger] s[i]).0 == k && (#[trigger] s[j]).0
                == k implies of_rank(s, k).len() >= 2 by {
            assert(front[i].0 == k);
            if j < front.len() {
                assert(front[j].0 == k);
            }
        }
    }
}

/// Entries of different ranks have one order: two sequences of them that hold the same and are in
/// order are the same.
pub proof fn lemma_order_is_unique<T>(
    s: Seq<(Seq<PartModel>, T)>,
    a: Seq<(Seq<PartModel>, T)>,
    b: Seq<(Seq<PartModel>, T)>,
)
    requires
        ranks_differ(s),
        a == sorted(s),
        in_order(b),
        a.to_multiset() == b.to_multiset(),
    ensures
        a == b,
{
    lemma_sorted(s);
    assert forall|i: int, j: int| 0 <= i < j < a.len() implies (#[trigger] a[i]).0 != (
    #[trigger] a[j]).0 by {
        let k = a[i].0;
        lemma_of_rank(a, k);
        lemma_of_rank(s, k);
        assert(of_rank(a, k) == of_rank(s, k));
    }
    lemma_same_entries(a, b);
}

proof fn lemma_same_entries<T>(a: Seq<(Seq<PartModel>, T)>, b: Seq<(Seq<PartModel>, T)>)
    requires
        ranks_differ(a),
        in_order(a),
        in_order(b),
        a.to_multiset() == b.to_multiset(),
    ensures
        a == b,
    decreases a.len(),
{
    broadcast use vstd::seq_lib::group_to_multiset_ensures;

    assert(a.to_multiset().len() == a.len() && b.to_multiset().len() == b.len());
    if a.len() == 0 {
        assert(a =~= b);
    } else {
        let x = a.last();
        let y = b.last();
        let front = a.drop_last();
        let other = b.drop_last();
        assert(a =~= front.push(x));
        assert(b =~= other.push(y));
        assert(a[a.len() - 1] == x && b[b.len() - 1] == y);
        assert(a.contains(x));
        assert(b.contains(y));
        assert(a.to_multiset().count(x) > 0 && b.to_multiset().count(y) > 0);
        assert(b.to_multiset().contains(x) && a.to_multiset().contains(y));
        assert(b.contains(x) && a.contains(y));
        if x != y {
            let i = choose|i: int| 0 <= i < b.len() && b[i] == x;
            let j = choose|j: int| 0 <= j < a.len() && a[j] == y;
            assert(!below(b[b.len() - 1].0, b[i].0));
            assert(!below(a[a.len() - 1].0, a[j].0));
            lemma_below_total(x.0, y.0);
            assert(a[j].0 != a[a.len() - 1].0);
        }
        assert(front.to_multiset() =~= a.to_multiset().remove(x));
        assert(other.to_multiset() =~= b.to_multiset().remove(y));
        assert(ranks_differ(front)) by {
            assert(forall|i: int| 0 <= i < front.len() ==> #[trigger] front[i] == a[i]);
        }
        assert(in_order(front)) by {
            assert(forall|i: int| 0 <= i < front.len() ==> #[trigger] front[i] == a[i]);
        }
        assert(in_order(other)) by {
            assert(forall|i: int| 0 <= i < other.len() ==> #[trigger] other[i] == b[i]);
        }
        lemma_same_entries(front, other);
    }
}

/// The models of ranked entries.
pub open spec fn entries<T: View>(v: Seq<(Vec<RankPart>, T)>) -> Seq<(Seq<PartModel>, T::V)> {
    Seq::new(v.len(), |i: int| (rank_model(v[i].0@), v[i].1@))
}

fn place<T: View>(v: &mut Vec<(Vec<RankPart>, T)>, x: (Vec<RankPart>, T))
    ensures
        entries(final(v)@) == placed(entries(old(v)@), (rank_model(x.0@), x.1@)),
{
    let ghost all = entries(v@);
    let ghost m = (rank_model(x.0@), x.1@);
    let mut at: usize = v.len();
    assert(all.take(at as int) =~= all);
    assert(placed(all, m) =~= placed(all.take(at as int), m) + all.skip(at as int));
    while at > 0 && is_below(&x.0, &v[at - 1].0)
        invariant
            at <= v@.len(),
            all == entries(v@),
            m == (rank_model(x.0@), x.1@),
            placed(all, m) == placed(all.take(at as int), m) + all.skip(at as int),
        decreases at,
    {
        let ghost t = all.take(at as int);
        assert(t.last() == all[at - 1]);
        assert(t.drop_last() =~= all.take(at - 1));
        assert(placed(t, m) =~= placed(all.take(at - 1), m).push(all[at - 1]));
        assert(placed(all.take(at - 1), m).push(all[at - 1]) + all.skip(at as int) =~= placed(
            all.take(at - 1),
            m,
        ) + all.skip(at - 1));
        at = at - 1;
    }
    assert(at > 0 ==> all.take(at as int).last() == all[at - 1]);
    assert(placed(all, m) =~= all.take(at as int).push(m) + all.skip(at as int));
    v.insert(at, x);
    assert(entries(v@) =~= placed(all, m));
}

/// `items` with their ranks.
pub open spec fn ranked<T>(ranks: Seq<Seq<PartModel>>, items: Seq<T>) -> Seq<(Seq<PartModel>, T)> {
    Seq::new(items.len(), |i: int| (ranks[i], items[i]))
}

/// The entries without their ranks.
pub open spec fn unranked<T>(s: Seq<(Seq<PartModel>, T)>) -> Seq<T> {
    Seq::new(s.len(), |i: int| s[i].1)
}

pub open spec fn rank_models(v: Seq<Vec<RankPart>>) -> Seq<Seq<PartModel>> {
    Seq::new(v.len(), |i: int| rank_model(v[i]@))
}

/// The items of `v` in reverse.
fn reversed<T: View>(v: Vec<T>) -> (r: Vec<T>)
    ensures
        r@.len() == v@.len(),
        forall|i: int| 0 <= i < r@.len() ==> (#[trigger] r@[i])@ == v@[v@.len() - 1 - i]@,
{
    let ghost all = v@;
    let mut rest = v;
    let mut out: Vec<T> = Vec::new();
    while rest.len() > 0
        invariant
            rest@.len() + out@.len() == all.len(),
            rest@ == all.take(rest@.len() as int),
            forall|i: int| 0 <= i < out@.len() ==> (#[trigger] out@[i])@ == all[all.len() - 1 - i]@,
        decreases rest@.len(),
    {
        let ghost n = rest@.len() as int;
        match rest.pop() {
            Some(x) => {
                assert(x == all.take(n)[n - 1]);
                out.push(x);
            },
            None => {},
        }
        assert(rest@ =~= all.take(n - 1));
    }
    out
}

/// The items in the order of their ranks.
pub fn sort_by<T: View>(ranks: Vec<Vec<RankPart>>, items: Vec<T>) -> (r: Vec<T>)
    requires
        ranks@.len() == items@.len(),
    ensures
        string_map::views(r@) == unranked(
            sorted(ranked(rank_models(ranks@), string_map::views(items@))),
        ),
        r@.len() == items@.len(),
{
    let ghost all = ranked(rank_models(ranks@), string_map::views(items@));
    let ghost keys = ranks@;
    let total: usize = items.len();
    let ghost n = total as int;
    let mut waiting = reversed(items);
    let mut waiting_ranks = ranks;
    let mut out: Vec<(Vec<RankPart>, T)> = Vec::new();
    let mut i: usize = 0;
    assert(entries(out@) =~= sorted(all.take(0)));
    while waiting.len() > 0
        invariant
            i + waiting@.len() == n,
            n == total,
            n == all.len(),
            out@.len() == i,
            waiting_ranks@ == keys,
            keys.len() == n,
            forall|j: int| 0 <= j < n ==> (#[trigger] all[j]).0 == rank_model(keys[j]@),
            forall|j: int|
                0 <= j < waiting@.len() ==> (#[trigger] waiting@[j])@ == all[n - 1 - j].1,
            entries(out@) == sorted(all.take(i as int)),
        decreases waiting@.len(),
    {
        match waiting.pop() {
            Some(item) => {
                let rank = copy_rank(&waiting_ranks[i]);
                assert((rank_model(rank@), item@) == all[i as int]);
                assert(all.take(i + 1).drop_last() =~= all.take(i as int));
                proof {
                    lemma_sorted(all.take(i + 1));
                }
                place(&mut out, (rank, item));
                assert(entries(out@).len() == i + 1);
                i = i + 1;
            },
            None => {},
        }
    }
    assert(all.take(all.len() as int) =~= all);
    let ghost done = entries(out@);
    let mut unsorted = out;
    let mut back: Vec<T> = Vec::new();
    while unsorted.len() > 0
        invariant
            unsorted@.len() + back@.len() == done.len(),
            entries(unsorted@) == done.take(unsorted@.len() as int),
            forall|j: int|
                0 <= j < back@.len() ==> (#[trigger] back@[j])@ == done[done.len() - 1 - j].1,
        decreases unsorted@.len(),
    {
        let ghost m = unsorted@.len() as int;
        let ghost before = unsorted@;
        match unsorted.pop() {
            Some(x) => {
                assert(entries(before)[m - 1].1 == x.1@);
                assert(done.take(m)[m - 1] == done[m - 1]);
                back.push(x.1);
            },
            None => {},
        }
        assert(entries(unsorted@) =~= done.take(m - 1)) by {
            assert forall|j: int| 0 <= j < m - 1 implies entries(unsorted@)[j] == done[j] by {
                assert(entries(before)[j] == done.take(m)[j]);
            }
        }
    }
    let r = reversed(back);
    proof {
        lemma_sorted(all);
        assert forall|j: int| 0 <= j < r@.len() implies string_map::views(r@)[j] == done[j].1 by {
            assert(r@[j]@ == back@[back@.len() - 1 - j]@);
        }
    }
    assert(string_map::views(r@) =~= unranked(done));
    r
}

fn copy_rank(rank: &Vec<RankPart>) -> (r: Vec<RankPart>)
    ensures
        rank_model(r@) == rank_model(rank@),
{
    let mut out: Vec<RankPart> = Vec::new();
    let mut i: usize = 0;
    while i < rank.len()
        invariant
            i <= rank@.len(),
            out@.len() == i,
            forall|j: int| 0 <= j < i ==> (#[trigger] out@[j])@ == rank@[j]@,
        decreases rank.len() - i,
    {
        out.push(
            match &rank[i] {
                RankPart::Number(n) => RankPart::Number(*n),
                RankPart::Text(t) => RankPart::Text(t.clone()),
            },
        );
        i = i + 1;
    }
    assert(rank_model(out@) =~= rank_model(rank@));
    out
}

/// Where a rank is not below another, the first criterion in which they may differ is not either.
pub proof fn lemma_first_difference(a: Seq<PartModel>, b: Seq<PartModel>, k: int)
    requires
        a.len() == b.len(),
        0 <= k < a.len(),
        !below(b, a),
        forall|i: int| 0 <= i < k ==> #[trigger] a[i] == b[i],
    ensures
        !part_below(b[k], a[k]),
    decreases k,
{
    if k == 0 {
        if a[0] == b[0] {
            lemma_part_order(a[0], b[0], a[0]);
        }
    } else {
        assert(a[0] == b[0]);
        let x = a.skip(1);
        let y = b.skip(1);
        assert forall|i: int| 0 <= i < k - 1 implies #[trigger] x[i] == y[i] by {
            assert(a[i + 1] == b[i + 1]);
        }
        lemma_first_difference(x, y, k - 1);
    }
}

/// What is put in order is all there is and no more; no entry stands behind one that it is below; and
/// entries of one rank keep their order.
pub proof fn law_sorted<T>(s: Seq<(Seq<PartModel>, T)>, k: Seq<PartModel>, i: int, j: int)
    requires
        0 <= i < j < s.len(),
    ensures
        sorted(s).to_multiset() == s.to_multiset(),
        !below(sorted(s)[j].0, sorted(s)[i].0),
        of_rank(sorted(s), k) == of_rank(s, k),
{
    lemma_sorted(s);
    assert(of_rank(sorted(s), k) == of_rank(s, k));
}

/// The first criterion in which two ranks differ decides: the smaller number comes first, of two
/// texts the one of the dictionary, and a number before a text.
pub proof fn law_first_difference_decides(
    common: Seq<PartModel>,
    x: PartModel,
    y: PartModel,
    a: Seq<PartModel>,
    b: Seq<PartModel>,
)
    requires
        x != y,
    ensures
        below(common.push(x) + a, common.push(y) + b) == match (x, y) {
            (PartModel::Number(m), PartModel::Number(n)) => m < n,
            (PartModel::Text(m), PartModel::Text(n)) => string_map::before(m, n),
            (PartModel::Number(_), PartModel::Text(_)) => true,
            (PartModel::Text(_), PartModel::Number(_)) => false,
        },
    decreases common.len(),
{
    let p = common.push(x) + a;
    let q = common.push(y) + b;
    if common.len() == 0 {
        assert(p[0] == x && q[0] == y);
    } else {
        assert(p[0] == common[0] && q[0] == common[0]);
        let rest = common.skip(1);
        assert(p.skip(1) =~= rest.push(x) + a);
        assert(q.skip(1) =~= rest.push(y) + b);
        law_first_difference_decides(rest, x, y, a, b);
    }
}

} // verus!
