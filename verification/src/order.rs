//! Ordering of texts as `String`'s `Ord` orders them, a stable sort by name,
//! and ordered key-value lists that stand for the configuration files' maps.
use vstd::prelude::*;
use crate::text::chars_of;

verus! {

broadcast use vstd::string::group_string_axioms;

/// `a` comes strictly before `b`: lexicographic order on characters, which is
/// the order of their UTF-8 bytes and so the order of `String`'s `Ord`.
pub open spec fn text_lt(a: Seq<char>, b: Seq<char>) -> bool
    decreases a.len(),
{
    if a.len() == 0 {
        b.len() > 0
    } else if b.len() == 0 {
        false
    } else if a[0] < b[0] {
        true
    } else if a[0] > b[0] {
        false
    } else {
        text_lt(a.drop_first(), b.drop_first())
    }
}

pub open spec fn text_le(a: Seq<char>, b: Seq<char>) -> bool {
    !text_lt(b, a)
}

pub fn text_lt_exec(a: &str, b: &str) -> (r: bool)
    ensures
        r == text_lt(a@, b@),
{
    let x = chars_of(a);
    let y = chars_of(b);
    let mut i: usize = 0;
    assert(x@.skip(0) =~= x@);
    assert(y@.skip(0) =~= y@);
    while i < x.len() && i < y.len() && x[i] == y[i]
        invariant
            i <= x.len(),
            i <= y.len(),
            text_lt(x@, y@) == text_lt(x@.skip(i as int), y@.skip(i as int)),
        decreases x.len() - i,
    {
        proof {
            assert(x@.skip(i as int).drop_first() =~= x@.skip(i + 1));
            assert(y@.skip(i as int).drop_first() =~= y@.skip(i + 1));
        }
        i += 1;
    }
    if i == x.len() {
        i < y.len()
    } else if i == y.len() {
        false
    } else {
        x[i] < y[i]
    }
}

pub proof fn lemma_text_lt_irreflexive(a: Seq<char>)
    ensures
        !text_lt(a, a),
    decreases a.len(),
{
    if a.len() > 0 {
        lemma_text_lt_irreflexive(a.drop_first());
    }
}

pub proof fn lemma_text_lt_trichotomy(a: Seq<char>, b: Seq<char>)
    ensures
        text_lt(a, b) || text_lt(b, a) || a == b,
        !(text_lt(a, b) && text_lt(b, a)),
    decreases a.len(),
{
    if a.len() > 0 && b.len() > 0 && a[0] == b[0] {
        lemma_text_lt_trichotomy(a.drop_first(), b.drop_first());
        if a.drop_first() == b.drop_first() {
            assert forall|i: int| 0 <= i < a.len() implies a[i] == b[i] by {
                if i > 0 {
                    assert(a[i] == a.drop_first()[i - 1]);
                    assert(b[i] == b.drop_first()[i - 1]);
                }
            }
            assert(a =~= b);
        }
    } else if a.len() == 0 && b.len() == 0 {
        assert(a =~= b);
    }
}

pub proof fn lemma_text_lt_transitive(a: Seq<char>, b: Seq<char>, c: Seq<char>)
    requires
        text_lt(a, b),
        text_lt(b, c),
    ensures
        text_lt(a, c),
    decreases a.len(),
{
    if a.len() > 0 && b.len() > 0 && c.len() > 0 && a[0] == b[0] && b[0] == c[0] {
        lemma_text_lt_transitive(a.drop_first(), b.drop_first(), c.drop_first());
    }
}

/// `text_le` is transitive.
pub proof fn lemma_text_le_transitive(a: Seq<char>, b: Seq<char>, c: Seq<char>)
    requires
        text_le(a, b),
        text_le(b, c),
    ensures
        text_le(a, c),
{
    lemma_text_lt_trichotomy(a, b);
    if text_lt(c, a) && text_lt(a, b) {
        lemma_text_lt_transitive(c, a, b);
    }
}

/// Any two texts are ordered one way or the other.
pub proof fn lemma_text_le_total(a: Seq<char>, b: Seq<char>)
    ensures
        text_le(a, b) || text_le(b, a),
{
    lemma_text_lt_trichotomy(a, b);
}

/// Values that are sorted by a name.
pub trait SortName {
    spec fn sort_name(&self) -> Seq<char>;

    /// The key that tells apart values of equal names.
    spec fn sort_key(&self) -> Seq<char>;
}

/// Executable values that are sorted by a name.
pub trait Named: SortName {
    fn name_str(&self) -> (r: &str)
        ensures
            r@ == self.sort_name(),
    ;
}

/// `x` placed after every element of `sorted` whose name is not greater.
pub open spec fn insert_by_name<T: SortName>(sorted: Seq<T>, x: T) -> Seq<T>
    decreases sorted.len(),
{
    if sorted.len() == 0 {
        seq![x]
    } else if text_le(sorted.last().sort_name(), x.sort_name()) {
        sorted.push(x)
    } else {
        insert_by_name(sorted.drop_last(), x).push(sorted.last())
    }
}

/// The stable sort by name (what `sort_by(|a, b| a.name.cmp(&b.name))` gives).
pub open spec fn sorted_by_name<T: SortName>(s: Seq<T>) -> Seq<T>
    decreases s.len(),
{
    if s.len() == 0 {
        seq![]
    } else {
        insert_by_name(sorted_by_name(s.drop_last()), s.last())
    }
}

proof fn lemma_insert_at<T: SortName>(sorted: Seq<T>, x: T, p: int)
    requires
        0 <= p <= sorted.len(),
        forall|j: int| p <= j < sorted.len() ==> !text_le(sorted[j].sort_name(), x.sort_name()),
        p == 0 || text_le(sorted[p - 1].sort_name(), x.sort_name()),
    ensures
        insert_by_name(sorted, x) == sorted.insert(p, x),
    decreases sorted.len(),
{
    if sorted.len() == 0 {
        assert(sorted.insert(p, x) =~= seq![x]);
    } else if p == sorted.len() {
        assert(sorted.insert(p, x) =~= sorted.push(x));
    } else {
        lemma_insert_at(sorted.drop_last(), x, p);
        assert(sorted.drop_last().insert(p, x).push(sorted.last()) =~= sorted.insert(p, x));
    }
}

proof fn lemma_insert_map<T: SortName, U: SortName>(sorted: Seq<T>, x: T, f: spec_fn(T) -> U)
    requires
        forall|y: T| #[trigger] f(y).sort_name() == y.sort_name(),
    ensures
        insert_by_name(sorted, x).map_values(f) == insert_by_name(sorted.map_values(f), f(x)),
    decreases sorted.len(),
{
    if sorted.len() == 0 {
        assert(seq![x].map_values(f) =~= seq![f(x)]);
    } else {
        assert(sorted.map_values(f).last() == f(sorted.last()));
        assert(sorted.map_values(f).drop_last() =~= sorted.drop_last().map_values(f));
        if text_le(sorted.last().sort_name(), x.sort_name()) {
            assert(sorted.push(x).map_values(f) =~= sorted.map_values(f).push(f(x)));
        } else {
            lemma_insert_map(sorted.drop_last(), x, f);
            assert(insert_by_name(sorted.drop_last(), x).push(sorted.last()).map_values(f)
                =~= insert_by_name(sorted.drop_last(), x).map_values(f).push(f(sorted.last())));
        }
    }
}

/// Sorting by name commutes with a map that keeps names.
pub proof fn lemma_sort_map<T: SortName, U: SortName>(s: Seq<T>, f: spec_fn(T) -> U)
    requires
        forall|y: T| #[trigger] f(y).sort_name() == y.sort_name(),
    ensures
        sorted_by_name(s).map_values(f) == sorted_by_name(s.map_values(f)),
    decreases s.len(),
{
    if s.len() == 0 {
        assert(s.map_values(f) =~= Seq::<U>::empty());
        assert(sorted_by_name(s).map_values(f) =~= Seq::<U>::empty());
    } else {
        lemma_sort_map(s.drop_last(), f);
        lemma_insert_map(sorted_by_name(s.drop_last()), s.last(), f);
        assert(s.map_values(f).drop_last() =~= s.drop_last().map_values(f));
        assert(s.map_values(f).last() == f(s.last()));
    }
}

/// Every element's name is at most the name of each later element.
pub open spec fn names_sorted<T: SortName>(s: Seq<T>) -> bool {
    forall|i: int, j: int| 0 <= i < j < s.len() ==> text_le(#[trigger] s[i].sort_name(), #[trigger] s[j].sort_name())
}

/// Inserting by name adds exactly the inserted element.
pub proof fn lemma_insert_by_name_elements<T: SortName>(sorted: Seq<T>, x: T)
    ensures
        insert_by_name(sorted, x).to_multiset() == sorted.to_multiset().insert(x),
    decreases sorted.len(),
{
    broadcast use vstd::seq_lib::group_to_multiset_ensures;
    if sorted.len() == 0 {
        assert(seq![x] =~= sorted.push(x));
    } else {
        assert(sorted.drop_last().push(sorted.last()) =~= sorted);
        if !text_le(sorted.last().sort_name(), x.sort_name()) {
            lemma_insert_by_name_elements(sorted.drop_last(), x);
        }
    }
}

proof fn lemma_insert_sorted<T: SortName>(sorted: Seq<T>, x: T)
    requires
        names_sorted(sorted),
    ensures
        names_sorted(insert_by_name(sorted, x)),
        insert_by_name(sorted, x).to_multiset() == sorted.to_multiset().insert(x),
    decreases sorted.len(),
{
    broadcast use vstd::seq_lib::group_to_multiset_ensures;
    if sorted.len() == 0 {
        assert(seq![x] =~= sorted.push(x));
    } else {
        let last = sorted.last();
        let init = sorted.drop_last();
        assert(init.push(last) =~= sorted);
        if text_le(last.sort_name(), x.sort_name()) {
            let r = sorted.push(x);
            assert forall|i: int, j: int| 0 <= i < j < r.len() implies text_le(#[trigger] r[i].sort_name(), #[trigger] r[j].sort_name()) by {
                if j == sorted.len() && i < sorted.len() - 1 {
                    assert(text_le(sorted[i].sort_name(), last.sort_name()));
                    lemma_text_le_transitive(sorted[i].sort_name(), last.sort_name(), x.sort_name());
                }
            }
        } else {
            lemma_insert_sorted(init, x);
            let rest = insert_by_name(init, x);
            let r = rest.push(last);
            lemma_text_le_total(last.sort_name(), x.sort_name());
            assert forall|i: int, j: int| 0 <= i < j < r.len() implies text_le(#[trigger] r[i].sort_name(), #[trigger] r[j].sort_name()) by {
                if j == rest.len() {
                    let y = rest[i];
                    assert(rest.contains(y));
                    assert(rest.to_multiset().count(y) > 0);
                    if y != x {
                        assert(init.to_multiset().count(y) > 0);
                        assert(init.contains(y));
                        let k = choose|k: int| 0 <= k < init.len() && init[k] == y;
                        assert(sorted[k] == y);
                        assert(text_le(sorted[k].sort_name(), sorted[sorted.len() - 1].sort_name()));
                    }
                }
            }
        }
    }
}

/// Sorting by name orders the names and keeps every element, as often as it occurs.
pub proof fn lemma_sorted_by_name<T: SortName>(s: Seq<T>)
    ensures
        names_sorted(sorted_by_name(s)),
        sorted_by_name(s).to_multiset() == s.to_multiset(),
    decreases s.len(),
{
    broadcast use vstd::seq_lib::group_to_multiset_ensures;
    if s.len() > 0 {
        lemma_sorted_by_name(s.drop_last());
        lemma_insert_sorted(sorted_by_name(s.drop_last()), s.last());
        assert(s.drop_last().push(s.last()) =~= s);
    }
}

/// Sorts by name, keeping the order of equal names.
pub fn stable_sort_by_name<T: Named>(v: Vec<T>) -> (r: Vec<T>)
    ensures
        r@ == sorted_by_name(v@),
{
    let ghost orig = v@;
    let mut rest = v;
    let mut sorted: Vec<T> = Vec::new();
    let ghost mut done: int = 0;
    while rest.len() > 0
        invariant
            0 <= done <= orig.len(),
            rest@ == orig.skip(done),
            sorted@ == sorted_by_name(orig.take(done)),
        decreases rest.len(),
    {
        let x = rest.remove(0);
        let mut p = sorted.len();
        while p > 0 && !text_le_names(&sorted[p - 1], &x)
            invariant
                p <= sorted.len(),
                forall|j: int| p <= j < sorted.len() ==> !text_le(sorted@[j].sort_name(), x.sort_name()),
            decreases p,
        {
            p -= 1;
        }
        proof {
            lemma_insert_at(sorted@, x, p as int);
            assert(orig.take(done + 1).drop_last() =~= orig.take(done));
            assert(orig.take(done + 1).last() == x);
        }
        sorted.insert(p, x);
        proof {
            done = done + 1;
            assert(rest@ =~= orig.skip(done));
        }
    }
    assert(orig.take(done) =~= orig);
    sorted
}

fn text_le_names<T: Named>(a: &T, b: &T) -> (r: bool)
    ensures
        r == text_le(a.sort_name(), b.sort_name()),
{
    !text_lt_exec(b.name_str(), a.name_str())
}


/// The entries of an ordered map from texts, as pairs in key order.
pub open spec fn entry_views<E: View>(m: Seq<(String, E)>) -> Seq<(Seq<char>, E::V)> {
    m.map_values(|p: (String, E)| (p.0@, p.1@))
}

/// The ordered map `m` with `k` bound to `e` (what `BTreeMap::insert` leaves).
pub open spec fn map_insert<V>(m: Seq<(Seq<char>, V)>, k: Seq<char>, e: V) -> Seq<(Seq<char>, V)>
    decreases m.len(),
{
    if m.len() == 0 {
        seq![(k, e)]
    } else if m.last().0 == k {
        m.drop_last().push((k, e))
    } else if text_lt(m.last().0, k) {
        m.push((k, e))
    } else {
        map_insert(m.drop_last(), k, e).push(m.last())
    }
}

/// The ordered map collected from pairs, a later pair replacing an earlier one
/// with the same key (what collecting into a `BTreeMap` gives).
pub open spec fn map_from<V>(pairs: Seq<(Seq<char>, V)>) -> Seq<(Seq<char>, V)>
    decreases pairs.len(),
{
    if pairs.len() == 0 {
        seq![]
    } else {
        map_insert(map_from(pairs.drop_last()), pairs.last().0, pairs.last().1)
    }
}

proof fn lemma_map_insert_at<V>(m: Seq<(Seq<char>, V)>, k: Seq<char>, e: V, p: int)
    requires
        0 <= p <= m.len(),
        forall|j: int| p <= j < m.len() ==> m[j].0 != k && !text_lt(m[j].0, k),
    ensures
        p == 0 ==> map_insert(m, k, e) == m.insert(0, (k, e)),
        p > 0 && m[p - 1].0 == k ==> map_insert(m, k, e) == m.update(p - 1, (k, e)),
        p > 0 && m[p - 1].0 != k && text_lt(m[p - 1].0, k) ==> map_insert(m, k, e) == m.insert(p, (k, e)),
    decreases m.len(),
{
    if m.len() == 0 {
        assert(m.insert(0, (k, e)) =~= seq![(k, e)]);
    } else if p == m.len() {
        assert(m.insert(p, (k, e)) =~= m.push((k, e)));
        assert(m.update(p - 1, (k, e)) =~= m.drop_last().push((k, e)));
    } else {
        lemma_map_insert_at(m.drop_last(), k, e, p);
        assert(m.drop_last().insert(p, (k, e)).push(m.last()) =~= m.insert(p, (k, e)));
        if p > 0 {
            assert(m.drop_last().update(p - 1, (k, e)).push(m.last()) =~= m.update(p - 1, (k, e)));
        }
    }
}

/// Binds `k` to `e` in the ordered map.
pub fn map_insert_exec<E: View>(m: &mut Vec<(String, E)>, k: String, e: E)
    ensures
        entry_views(final(m)@) == map_insert(entry_views(old(m)@), k@, e@),
{
    let ghost mv = entry_views(m@);
    let mut p = m.len();
    loop
        invariant
            p <= m.len(),
            mv == entry_views(m@),
            mv == entry_views(old(m)@),
            forall|j: int| p <= j < m@.len() ==> mv[j].0 != k@ && !text_lt(mv[j].0, k@),
        decreases p,
    {
        if p == 0 {
            proof {
                lemma_map_insert_at(mv, k@, e@, 0);
            }
            m.insert(0, (k, e));
            proof {
                assert(entry_views(m@) =~= mv.insert(0, (k@, e@)));
            }
            return;
        }
        let same = m[p - 1].0 == k;
        let before = text_lt_exec(m[p - 1].0.as_str(), k.as_str());
        if same {
            proof {
                lemma_map_insert_at(mv, k@, e@, p as int);
            }
            m.set(p - 1, (k, e));
            proof {
                assert(entry_views(m@) =~= mv.update(p - 1, (k@, e@)));
            }
            return;
        }
        if before {
            proof {
                lemma_map_insert_at(mv, k@, e@, p as int);
            }
            m.insert(p, (k, e));
            proof {
                assert(entry_views(m@) =~= mv.insert(p as int, (k@, e@)));
            }
            return;
        }
        p -= 1;
    }
}

/// The keys strictly increase, as the entries of a `BTreeMap` do.
pub open spec fn keys_increasing<V>(m: Seq<(Seq<char>, V)>) -> bool {
    forall|i: int, j: int| 0 <= i < j < m.len() ==> text_lt(#[trigger] m[i].0, #[trigger] m[j].0)
}

proof fn lemma_map_insert_shape<V>(m: Seq<(Seq<char>, V)>, k: Seq<char>, e: V)
    requires
        keys_increasing(m),
    ensures
        keys_increasing(map_insert(m, k, e)),
        map_insert(m, k, e).contains((k, e)),
        forall|y: (Seq<char>, V)| #[trigger] map_insert(m, k, e).contains(y) ==> y == (k, e) || m.contains(y),
        forall|x: (Seq<char>, V)| #[trigger] m.contains(x) && x.0 != k ==> map_insert(m, k, e).contains(x),
    decreases m.len(),
{
    let r = map_insert(m, k, e);
    if m.len() == 0 {
        assert(r[0] == (k, e));
    } else {
        let last = m.last();
        let init = m.drop_last();
        assert(init.push(last) =~= m);
        assert forall|i: int| 0 <= i < init.len() implies text_lt(#[trigger] init[i].0, last.0) by {
            assert(m[i] == init[i]);
            assert(m[m.len() - 1] == last);
        }
        if last.0 == k {
            assert(r == init.push((k, e)));
            assert(r[init.len() as int] == (k, e));
            assert forall|y: (Seq<char>, V)| #[trigger] r.contains(y) implies y == (k, e) || m.contains(y) by {
                let i = choose|i: int| 0 <= i < r.len() && r[i] == y;
                if i < init.len() {
                    assert(m[i] == y);
                }
            }
            assert forall|x: (Seq<char>, V)| #[trigger] m.contains(x) && x.0 != k implies r.contains(x) by {
                let i = choose|i: int| 0 <= i < m.len() && m[i] == x;
                assert(i < init.len());
                assert(r[i] == x);
            }
        } else if text_lt(last.0, k) {
            assert(r == m.push((k, e)));
            assert(r[m.len() as int] == (k, e));
            assert forall|i: int, j: int| 0 <= i < j < r.len() implies text_lt(#[trigger] r[i].0, #[trigger] r[j].0) by {
                if j == m.len() && i < m.len() - 1 {
                    lemma_text_lt_transitive(m[i].0, last.0, k);
                }
            }
            assert forall|y: (Seq<char>, V)| #[trigger] r.contains(y) implies y == (k, e) || m.contains(y) by {
                let i = choose|i: int| 0 <= i < r.len() && r[i] == y;
                if i < m.len() {
                    assert(m[i] == y);
                }
            }
            assert forall|x: (Seq<char>, V)| #[trigger] m.contains(x) && x.0 != k implies r.contains(x) by {
                let i = choose|i: int| 0 <= i < m.len() && m[i] == x;
                assert(r[i] == x);
            }
        } else {
            lemma_map_insert_shape(init, k, e);
            let rest = map_insert(init, k, e);
            assert(r == rest.push(last));
            lemma_text_lt_trichotomy(last.0, k);
            assert forall|i: int, j: int| 0 <= i < j < r.len() implies text_lt(#[trigger] r[i].0, #[trigger] r[j].0) by {
                if j == rest.len() {
                    let y = rest[i];
                    assert(rest.contains(y));
                    if y != (k, e) {
                        assert(init.contains(y));
                    }
                }
            }
            assert(r[rest.len() as int] == last);
            assert forall|y: (Seq<char>, V)| #[trigger] r.contains(y) implies y == (k, e) || m.contains(y) by {
                let i = choose|i: int| 0 <= i < r.len() && r[i] == y;
                if i < rest.len() {
                    assert(rest.contains(y));
                    if y != (k, e) {
                        assert(init.contains(y));
                        let j = choose|j: int| 0 <= j < init.len() && init[j] == y;
                        assert(m[j] == y);
                    }
                } else {
                    assert(m[m.len() - 1] == y);
                }
            }
            assert(rest.contains((k, e)));
            let w = choose|i: int| 0 <= i < rest.len() && rest[i] == (k, e);
            assert(r[w] == (k, e));
            assert forall|x: (Seq<char>, V)| #[trigger] m.contains(x) && x.0 != k implies r.contains(x) by {
                let i = choose|i: int| 0 <= i < m.len() && m[i] == x;
                if i < init.len() {
                    assert(init[i] == x);
                    assert(init.contains(x));
                    assert(rest.contains(x));
                    let j = choose|j: int| 0 <= j < rest.len() && rest[j] == x;
                    assert(r[j] == x);
                } else {
                    assert(r[rest.len() as int] == x);
                }
            }
        }
    }
}

/// Collecting pairs gives strictly increasing keys, holds only pairs that were
/// collected, and holds a pair for every key collected.
pub proof fn lemma_map_from_shape<V>(p: Seq<(Seq<char>, V)>)
    ensures
        keys_increasing(map_from(p)),
        forall|y: (Seq<char>, V)| #[trigger] map_from(p).contains(y) ==> p.contains(y),
        forall|x: (Seq<char>, V)| #[trigger] p.contains(x) ==> exists|y: (Seq<char>, V)| #[trigger] map_from(p).contains(y) && y.0 == x.0,
    decreases p.len(),
{
    if p.len() > 0 {
        let init = p.drop_last();
        let last = p.last();
        lemma_map_from_shape(init);
        let m = map_from(init);
        lemma_map_insert_shape(m, last.0, last.1);
        let r = map_from(p);
        assert(r == map_insert(m, last.0, last.1));
        assert(p[p.len() - 1] == last);
        assert forall|y: (Seq<char>, V)| #[trigger] r.contains(y) implies p.contains(y) by {
            if y != (last.0, last.1) {
                assert(m.contains(y));
                assert(init.contains(y));
                let i = choose|i: int| 0 <= i < init.len() && init[i] == y;
                assert(p[i] == y);
            } else {
                assert(y == last);
            }
        }
        assert forall|x: (Seq<char>, V)| #[trigger] p.contains(x) implies exists|y: (Seq<char>, V)| #[trigger] r.contains(y) && y.0 == x.0 by {
            let i = choose|i: int| 0 <= i < p.len() && p[i] == x;
            if i == p.len() - 1 || x.0 == last.0 {
                assert(r.contains((last.0, last.1)));
            } else {
                assert(init[i] == x);
                assert(init.contains(x));
                let y = choose|y: (Seq<char>, V)| #[trigger] m.contains(y) && y.0 == x.0;
                assert(r.contains(y));
            }
        }
    }
}

proof fn lemma_increasing_unique<V>(a: Seq<(Seq<char>, V)>, b: Seq<(Seq<char>, V)>)
    requires
        keys_increasing(a),
        keys_increasing(b),
        forall|x: (Seq<char>, V)| a.contains(x) <==> b.contains(x),
    ensures
        a == b,
    decreases a.len() + b.len(),
{
    if a.len() == 0 {
        if b.len() > 0 {
            assert(b.contains(b[0]));
        }
        assert(a =~= b);
    } else if b.len() == 0 {
        assert(a.contains(a[0]));
    } else {
        let la = a.last();
        let lb = b.last();
        assert(a.contains(la));
        assert(b.contains(lb));
        let j = choose|j: int| 0 <= j < b.len() && b[j] == la;
        let i = choose|i: int| 0 <= i < a.len() && a[i] == lb;
        lemma_text_lt_irreflexive(la.0);
        lemma_text_lt_irreflexive(lb.0);
        if j < b.len() - 1 {
            assert(text_lt(la.0, lb.0));
            if i < a.len() - 1 {
                assert(text_lt(lb.0, la.0));
                lemma_text_lt_trichotomy(la.0, lb.0);
            }
        }
        assert(j == b.len() - 1);
        assert(la == lb);
        let ia = a.drop_last();
        let ib = b.drop_last();
        assert forall|x: (Seq<char>, V)| ia.contains(x) <==> ib.contains(x) by {
            if ia.contains(x) {
                let k = choose|k: int| 0 <= k < ia.len() && ia[k] == x;
                assert(a[k] == x);
                assert(text_lt(x.0, la.0));
                assert(a.contains(x));
                assert(b.contains(x));
                let t = choose|t: int| 0 <= t < b.len() && b[t] == x;
                assert(t != b.len() - 1);
                assert(ib[t] == x);
            }
            if ib.contains(x) {
                let k = choose|k: int| 0 <= k < ib.len() && ib[k] == x;
                assert(b[k] == x);
                assert(text_lt(x.0, lb.0));
                assert(b.contains(x));
                assert(a.contains(x));
                let t = choose|t: int| 0 <= t < a.len() && a[t] == x;
                assert(t != a.len() - 1);
                assert(ia[t] == x);
            }
        }
        lemma_increasing_unique(ia, ib);
        assert(ia.push(la) =~= a);
        assert(ib.push(lb) =~= b);
    }
}

/// Collecting pairs into an ordered map gives back an ordered map that holds
/// exactly the same pairs.
pub proof fn lemma_map_from_exact<V>(p: Seq<(Seq<char>, V)>, q: Seq<(Seq<char>, V)>)
    requires
        keys_increasing(q),
        forall|x: (Seq<char>, V)| p.contains(x) <==> q.contains(x),
    ensures
        map_from(p) == q,
{
    lemma_map_from_shape(p);
    let r = map_from(p);
    assert forall|x: (Seq<char>, V)| r.contains(x) <==> q.contains(x) by {
        if q.contains(x) {
            assert(p.contains(x));
            let y = choose|y: (Seq<char>, V)| #[trigger] r.contains(y) && y.0 == x.0;
            assert(p.contains(y));
            assert(q.contains(y));
            let i = choose|i: int| 0 <= i < q.len() && q[i] == x;
            let j = choose|j: int| 0 <= j < q.len() && q[j] == y;
            if i < j {
                lemma_text_lt_irreflexive(x.0);
            } else if j < i {
                lemma_text_lt_irreflexive(x.0);
            }
        }
    }
    lemma_increasing_unique(r, q);
}

/// `a` comes before `b` by name, and by key among equal names.
pub open spec fn name_key_before<T: SortName>(a: T, b: T) -> bool {
    text_lt(a.sort_name(), b.sort_name()) || (a.sort_name() == b.sort_name() && text_lt(a.sort_key(), b.sort_key()))
}

pub open spec fn name_key_sorted<T: SortName>(s: Seq<T>) -> bool {
    forall|i: int, j: int| 0 <= i < j < s.len() ==> name_key_before(#[trigger] s[i], #[trigger] s[j])
}

proof fn lemma_insert_name_key<T: SortName>(sorted: Seq<T>, x: T)
    requires
        name_key_sorted(sorted),
        forall|i: int| 0 <= i < sorted.len() ==> text_lt(#[trigger] sorted[i].sort_key(), x.sort_key()),
    ensures
        name_key_sorted(insert_by_name(sorted, x)),
    decreases sorted.len(),
{
    broadcast use vstd::seq_lib::group_to_multiset_ensures;
    let r = insert_by_name(sorted, x);
    if sorted.len() > 0 {
        let last = sorted.last();
        let init = sorted.drop_last();
        assert(sorted[sorted.len() - 1] == last);
        lemma_text_lt_trichotomy(last.sort_name(), x.sort_name());
        if text_le(last.sort_name(), x.sort_name()) {
            assert forall|i: int, j: int| 0 <= i < j < r.len() implies name_key_before(#[trigger] r[i], #[trigger] r[j]) by {
                if j == sorted.len() {
                    let y = sorted[i];
                    if i < sorted.len() - 1 {
                        assert(name_key_before(y, last));
                        if text_lt(y.sort_name(), last.sort_name()) && text_lt(last.sort_name(), x.sort_name()) {
                            lemma_text_lt_transitive(y.sort_name(), last.sort_name(), x.sort_name());
                        }
                    }
                }
            }
        } else {
            assert forall|i: int, j: int| 0 <= i < j < init.len() implies name_key_before(#[trigger] init[i], #[trigger] init[j]) by {
                assert(init[i] == sorted[i] && init[j] == sorted[j]);
            }
            assert forall|i: int| 0 <= i < init.len() implies text_lt(#[trigger] init[i].sort_key(), x.sort_key()) by {
                assert(init[i] == sorted[i]);
            }
            lemma_insert_name_key(init, x);
            lemma_insert_by_name_elements(init, x);
            let rest = insert_by_name(init, x);
            assert(r == rest.push(last));
            assert forall|i: int, j: int| 0 <= i < j < r.len() implies name_key_before(#[trigger] r[i], #[trigger] r[j]) by {
                if j == rest.len() {
                    let y = rest[i];
                    assert(rest.contains(y));
                    assert(rest.to_multiset().count(y) > 0);
                    if y != x {
                        assert(init.to_multiset().count(y) > 0);
                        assert(init.contains(y));
                        let k = choose|k: int| 0 <= k < init.len() && init[k] == y;
                        assert(sorted[k] == y);
                    }
                } else {
                    assert(r[i] == rest[i] && r[j] == rest[j]);
                }
            }
        }
    }
}

/// Sorting by name values whose keys increase orders them by name and then by key.
pub proof fn lemma_sorted_name_key<T: SortName>(e: Seq<T>)
    requires
        forall|i: int, j: int| 0 <= i < j < e.len() ==> text_lt(#[trigger] e[i].sort_key(), #[trigger] e[j].sort_key()),
    ensures
        name_key_sorted(sorted_by_name(e)),
    decreases e.len(),
{
    broadcast use vstd::seq_lib::group_to_multiset_ensures;
    if e.len() > 0 {
        let init = e.drop_last();
        assert forall|i: int, j: int| 0 <= i < j < init.len() implies text_lt(#[trigger] init[i].sort_key(), #[trigger] init[j].sort_key()) by {
            assert(init[i] == e[i] && init[j] == e[j]);
        }
        lemma_sorted_name_key(init);
        lemma_sorted_by_name(init);
        let s = sorted_by_name(init);
        assert forall|i: int| 0 <= i < s.len() implies text_lt(#[trigger] s[i].sort_key(), e.last().sort_key()) by {
            let y = s[i];
            assert(s.contains(y));
            assert(s.to_multiset().count(y) > 0);
            assert(init.to_multiset().count(y) > 0);
            assert(init.contains(y));
            let k = choose|k: int| 0 <= k < init.len() && init[k] == y;
            assert(e[k] == y);
            assert(e[e.len() - 1] == e.last());
        }
        lemma_insert_name_key(s, e.last());
    }
}


proof fn lemma_name_key_order<T: SortName>(a: T, b: T, c: T)
    ensures
        !name_key_before(a, a),
        !(name_key_before(a, b) && name_key_before(b, a)),
        a.sort_key() != b.sort_key() ==> name_key_before(a, b) || name_key_before(b, a),
        name_key_before(a, b) && name_key_before(b, c) ==> name_key_before(a, c),
{
    lemma_text_lt_irreflexive(a.sort_name());
    lemma_text_lt_irreflexive(a.sort_key());
    lemma_text_lt_trichotomy(a.sort_name(), b.sort_name());
    lemma_text_lt_trichotomy(a.sort_key(), b.sort_key());
    if name_key_before(a, b) && name_key_before(b, c) {
        if text_lt(a.sort_name(), b.sort_name()) && text_lt(b.sort_name(), c.sort_name()) {
            lemma_text_lt_transitive(a.sort_name(), b.sort_name(), c.sort_name());
        }
        if text_lt(a.sort_key(), b.sort_key()) && text_lt(b.sort_key(), c.sort_key()) {
            lemma_text_lt_transitive(a.sort_key(), b.sort_key(), c.sort_key());
        }
    }
}

/// `x` placed after every element of `sorted` that comes before it by name and key.
pub open spec fn insert_by_name_key<T: SortName>(sorted: Seq<T>, x: T) -> Seq<T>
    decreases sorted.len(),
{
    if sorted.len() == 0 {
        seq![x]
    } else if name_key_before(x, sorted.last()) {
        insert_by_name_key(sorted.drop_last(), x).push(sorted.last())
    } else {
        sorted.push(x)
    }
}

/// The elements ordered by name and then by key.
pub open spec fn sorted_by_name_key<T: SortName>(s: Seq<T>) -> Seq<T>
    decreases s.len(),
{
    if s.len() == 0 {
        seq![]
    } else {
        insert_by_name_key(sorted_by_name_key(s.drop_last()), s.last())
    }
}

proof fn lemma_insert_by_name_key<T: SortName>(sorted: Seq<T>, x: T)
    requires
        name_key_sorted(sorted),
        forall|i: int| 0 <= i < sorted.len() ==> (#[trigger] sorted[i]).sort_key() != x.sort_key(),
    ensures
        name_key_sorted(insert_by_name_key(sorted, x)),
        insert_by_name_key(sorted, x).to_multiset() == sorted.to_multiset().insert(x),
    decreases sorted.len(),
{
    broadcast use vstd::seq_lib::group_to_multiset_ensures;
    let r = insert_by_name_key(sorted, x);
    if sorted.len() == 0 {
        assert(seq![x] =~= sorted.push(x));
    } else {
        let last = sorted.last();
        let init = sorted.drop_last();
        assert(init.push(last) =~= sorted);
        assert(sorted[sorted.len() - 1] == last);
        lemma_name_key_order(x, last, x);
        if name_key_before(x, last) {
            assert forall|i: int, j: int| 0 <= i < j < init.len() implies name_key_before(#[trigger] init[i], #[trigger] init[j]) by {
                assert(init[i] == sorted[i] && init[j] == sorted[j]);
            }
            assert forall|i: int| 0 <= i < init.len() implies (#[trigger] init[i]).sort_key() != x.sort_key() by {
                assert(init[i] == sorted[i]);
            }
            lemma_insert_by_name_key(init, x);
            let rest = insert_by_name_key(init, x);
            assert forall|i: int, j: int| 0 <= i < j < r.len() implies name_key_before(#[trigger] r[i], #[trigger] r[j]) by {
                if j == rest.len() {
                    let y = rest[i];
                    assert(rest.contains(y));
                    assert(rest.to_multiset().count(y) > 0);
                    if y != x {
                        assert(init.to_multiset().count(y) > 0);
                        assert(init.contains(y));
                        let k = choose|k: int| 0 <= k < init.len() && init[k] == y;
                        assert(sorted[k] == y);
                    }
                } else {
                    assert(r[i] == rest[i] && r[j] == rest[j]);
                }
            }
        } else {
            assert forall|i: int, j: int| 0 <= i < j < r.len() implies name_key_before(#[trigger] r[i], #[trigger] r[j]) by {
                if j == sorted.len() && i < sorted.len() - 1 {
                    lemma_name_key_order(sorted[i], last, x);
                }
            }
        }
    }
}

/// Sorting values with distinct keys by name and key orders them strictly and
/// keeps every one of them.
pub proof fn lemma_sorted_by_name_key<T: SortName>(s: Seq<T>)
    requires
        forall|i: int, j: int| 0 <= i < j < s.len() ==> (#[trigger] s[i]).sort_key() != (#[trigger] s[j]).sort_key(),
    ensures
        name_key_sorted(sorted_by_name_key(s)),
        sorted_by_name_key(s).to_multiset() == s.to_multiset(),
    decreases s.len(),
{
    broadcast use vstd::seq_lib::group_to_multiset_ensures;
    if s.len() > 0 {
        let init = s.drop_last();
        assert forall|i: int, j: int| 0 <= i < j < init.len() implies (#[trigger] init[i]).sort_key() != (#[trigger] init[j]).sort_key() by {
            assert(init[i] == s[i] && init[j] == s[j]);
        }
        lemma_sorted_by_name_key(init);
        let q = sorted_by_name_key(init);
        assert forall|i: int| 0 <= i < q.len() implies (#[trigger] q[i]).sort_key() != s.last().sort_key() by {
            let y = q[i];
            assert(q.contains(y));
            assert(q.to_multiset().count(y) > 0);
            assert(init.to_multiset().count(y) > 0);
            assert(init.contains(y));
            let k = choose|k: int| 0 <= k < init.len() && init[k] == y;
            assert(s[k] == y);
            assert(s[s.len() - 1] == s.last());
        }
        lemma_insert_by_name_key(q, s.last());
        assert(init.push(s.last()) =~= s);
    }
}

/// Two sequences ordered strictly by name and key that hold the same elements are equal.
pub proof fn lemma_name_key_unique<T: SortName>(a: Seq<T>, b: Seq<T>)
    requires
        name_key_sorted(a),
        name_key_sorted(b),
        forall|x: T| a.contains(x) <==> b.contains(x),
    ensures
        a == b,
    decreases a.len() + b.len(),
{
    if a.len() == 0 {
        if b.len() > 0 {
            assert(b.contains(b[0]));
        }
        assert(a =~= b);
    } else if b.len() == 0 {
        assert(a.contains(a[0]));
    } else {
        let la = a.last();
        let lb = b.last();
        assert(a[a.len() - 1] == la && b[b.len() - 1] == lb);
        assert(a.contains(la));
        assert(b.contains(lb));
        let j = choose|j: int| 0 <= j < b.len() && b[j] == la;
        let i = choose|i: int| 0 <= i < a.len() && a[i] == lb;
        lemma_name_key_order(la, lb, la);
        if j < b.len() - 1 {
            assert(name_key_before(la, lb));
            if i < a.len() - 1 {
                assert(name_key_before(lb, la));
            }
        }
        assert(j == b.len() - 1);
        assert(la == lb);
        let ia = a.drop_last();
        let ib = b.drop_last();
        assert forall|i: int, j: int| 0 <= i < j < ia.len() implies name_key_before(#[trigger] ia[i], #[trigger] ia[j]) by {
            assert(ia[i] == a[i] && ia[j] == a[j]);
        }
        assert forall|i: int, j: int| 0 <= i < j < ib.len() implies name_key_before(#[trigger] ib[i], #[trigger] ib[j]) by {
            assert(ib[i] == b[i] && ib[j] == b[j]);
        }
        assert forall|x: T| ia.contains(x) <==> ib.contains(x) by {
            if ia.contains(x) {
                let k = choose|k: int| 0 <= k < ia.len() && ia[k] == x;
                assert(a[k] == x);
                assert(name_key_before(x, la));
                lemma_name_key_order(x, la, x);
                assert(b.contains(x));
                let t = choose|t: int| 0 <= t < b.len() && b[t] == x;
                assert(t != b.len() - 1);
                assert(ib[t] == x);
            }
            if ib.contains(x) {
                let k = choose|k: int| 0 <= k < ib.len() && ib[k] == x;
                assert(b[k] == x);
                assert(name_key_before(x, lb));
                lemma_name_key_order(x, lb, x);
                assert(a.contains(x));
                let t = choose|t: int| 0 <= t < a.len() && a[t] == x;
                assert(t != a.len() - 1);
                assert(ia[t] == x);
            }
        }
        lemma_name_key_unique(ia, ib);
        assert(ia.push(la) =~= a);
        assert(ib.push(lb) =~= b);
    }
}

} // verus!
