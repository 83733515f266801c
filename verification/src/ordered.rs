//! Maps whose entries stand in the order of their keys.

use vstd::prelude::*;

verus! {

/// How one key stands to another.
#[derive(Debug, Clone, Copy, PartialEq, Eq, Structural)]
pub enum KeyOrder {
    Before,
    Same,
    After,
}

/// A key with a strict total order on its view.
pub trait OrderedKey: View + Sized {
    spec fn before(a: <Self as View>::V, b: <Self as View>::V) -> bool;

    proof fn law_irreflexive(a: <Self as View>::V)
        ensures
            !Self::before(a, a),
    ;

    proof fn law_transitive(
        a: <Self as View>::V,
        b: <Self as View>::V,
        c: <Self as View>::V,
    )
        requires
            Self::before(a, b),
            Self::before(b, c),
        ensures
            Self::before(a, c),
    ;

    proof fn law_total(a: <Self as View>::V, b: <Self as View>::V)
        ensures
            Self::before(a, b) || a == b || Self::before(b, a),
    ;

    fn order(&self, other: &Self) -> (r: KeyOrder)
        ensures
            match r {
                KeyOrder::Before => Self::before(self@, other@),
                KeyOrder::Same => self@ == other@,
                KeyOrder::After => Self::before(other@, self@),
            },
    ;

    fn duplicate(&self) -> (r: Self)
        ensures
            r@ == self@,
    ;
}

impl OrderedKey for u32 {
    open spec fn before(a: u32, b: u32) -> bool {
        a < b
    }

    proof fn law_irreflexive(a: u32) {
    }

    proof fn law_transitive(a: u32, b: u32, c: u32) {
    }

    proof fn law_total(a: u32, b: u32) {
    }

    fn order(&self, other: &Self) -> (r: KeyOrder) {
        if *self < *other {
            KeyOrder::Before
        } else if *self == *other {
            KeyOrder::Same
        } else {
            KeyOrder::After
        }
    }

    fn duplicate(&self) -> (r: Self) {
        *self
    }
}

/// The keys of `s` strictly ascend.
pub open spec fn ascends<K: OrderedKey>(s: Seq<<K as View>::V>) -> bool {
    forall|i: int, j: int|
        #![trigger s[i], s[j]]
        0 <= i < j < s.len() ==> K::before(s[i], s[j])
}

/// The strictly ascending sequence of exactly the keys in `d`.
pub open spec fn ascending<K: OrderedKey>(d: Set<<K as View>::V>) -> Seq<<K as View>::V> {
    choose|s: Seq<<K as View>::V>|
        #![trigger ascends::<K>(s)]
        ascends::<K>(s) && s.to_set() == d
}

/// The values of `m` in the order of their keys.
pub open spec fn in_key_order<K: OrderedKey, V>(m: Map<<K as View>::V, V>) -> Seq<V> {
    ascending::<K>(m.dom()).map_values(|k: <K as View>::V| m[k])
}

/// Two strictly ascending sequences with the same keys are one sequence.
pub proof fn lemma_ascends_unique<K: OrderedKey>(
    s: Seq<<K as View>::V>,
    t: Seq<<K as View>::V>,
)
    requires
        ascends::<K>(s),
        ascends::<K>(t),
        s.to_set() == t.to_set(),
    ensures
        s == t,
    decreases s.len(),
{
    if s.len() == 0 {
        if t.len() > 0 {
            assert(t.to_set().contains(t[0]));
            assert(s.contains(t[0]));
        }
        assert(s =~= t);
    } else {
        assert(s.to_set().contains(s[s.len() - 1]));
        assert(t.contains(s[s.len() - 1]));
        let jt = choose|j: int| 0 <= j < t.len() && t[j] == s[s.len() - 1];
        assert(t.to_set().contains(t[t.len() - 1]));
        assert(s.contains(t[t.len() - 1]));
        let js = choose|j: int| 0 <= j < s.len() && s[j] == t[t.len() - 1];
        if s.last() != t.last() {
            assert(K::before(t[jt], t[t.len() - 1]));
            assert(K::before(s[js], s[s.len() - 1]));
            K::law_transitive(s.last(), t.last(), s.last());
            K::law_irreflexive(s.last());
        }
        let s1 = s.drop_last();
        let t1 = t.drop_last();
        assert forall|k: <K as View>::V| s1.to_set().contains(k) <==> t1.to_set().contains(k) by {
            if s1.contains(k) {
                let i = choose|i: int| 0 <= i < s1.len() && s1[i] == k;
                assert(K::before(s[i], s[s.len() - 1]));
                K::law_irreflexive(k);
                assert(s.to_set().contains(s[i]));
                assert(t.contains(k));
                let j = choose|j: int| 0 <= j < t.len() && t[j] == k;
                assert(j < t.len() - 1);
                assert(t1[j] == k);
            }
            if t1.contains(k) {
                let i = choose|i: int| 0 <= i < t1.len() && t1[i] == k;
                assert(K::before(t[i], t[t.len() - 1]));
                K::law_irreflexive(k);
                assert(t.to_set().contains(t[i]));
                assert(s.contains(k));
                let j = choose|j: int| 0 <= j < s.len() && s[j] == k;
                assert(j < s.len() - 1);
                assert(s1[j] == k);
            }
        }
        assert(s1.to_set() =~= t1.to_set());
        lemma_ascends_unique::<K>(s1, t1);
        assert(s =~= s1.push(s.last()));
        assert(t =~= t1.push(t.last()));
    }
}

/// A strictly ascending sequence is the ascending sequence of its keys.
pub proof fn lemma_ascending<K: OrderedKey>(s: Seq<<K as View>::V>)
    requires
        ascends::<K>(s),
    ensures
        ascending::<K>(s.to_set()) == s,
{
    let t = ascending::<K>(s.to_set());
    lemma_ascends_unique::<K>(s, t);
}

/// The keys among the first `i + 1`.
pub proof fn lemma_take_set<A>(s: Seq<A>, i: int)
    requires
        0 <= i < s.len(),
    ensures
        s.take(i + 1).to_set() == s.take(i).to_set().insert(s[i]),
{
    let a = s.take(i);
    let b = s.take(i + 1);
    assert forall|x: A| #[trigger] b.to_set().contains(x) <==> a.to_set().insert(s[i]).contains(
        x,
    ) by {
        if a.contains(x) {
            let j = choose|j: int| 0 <= j < a.len() && a[j] == x;
            assert(b[j] == x);
        }
        assert(b[i] == s[i]);
        if b.contains(x) {
            let j = choose|j: int| 0 <= j < b.len() && b[j] == x;
            if j < i {
                assert(a[j] == x);
            }
        }
    }
    assert(b.to_set() =~= a.to_set().insert(s[i]));
}

/// What `filter` keeps of one key more.
pub proof fn lemma_filter_step<A>(s: Seq<A>, p: spec_fn(A) -> bool, i: int)
    requires
        0 <= i < s.len(),
    ensures
        s.take(i + 1).filter(p) == if p(s[i]) {
            s.take(i).filter(p).push(s[i])
        } else {
            s.take(i).filter(p)
        },
{
    reveal(Seq::filter);
    assert(s.take(i + 1).drop_last() =~= s.take(i));
}

/// What `filter` keeps, seen from the front.
pub proof fn lemma_filter_front<A>(s: Seq<A>, p: spec_fn(A) -> bool)
    ensures
        s.len() == 0 ==> s.filter(p) == Seq::<A>::empty(),
        s.len() > 0 ==> s.filter(p) == (if p(s[0]) {
            seq![s[0]] + s.skip(1).filter(p)
        } else {
            s.skip(1).filter(p)
        }),
{
    reveal(Seq::filter);
    if s.len() > 0 {
        let one = seq![s[0]];
        assert(s =~= one + s.skip(1));
        Seq::filter_distributes_over_add(one, s.skip(1), p);
        assert(one.drop_last() =~= Seq::<A>::empty());
        assert(one.drop_last().filter(p) =~= Seq::<A>::empty());
        if p(s[0]) {
            assert(one.filter(p) =~= one);
        } else {
            assert(one.filter(p) =~= Seq::<A>::empty());
            assert(Seq::<A>::empty() + s.skip(1).filter(p) =~= s.skip(1).filter(p));
        }
    } else {
        assert(s =~= Seq::<A>::empty());
    }
}

/// What `filter` keeps.
pub proof fn lemma_filter_contains<A>(s: Seq<A>, p: spec_fn(A) -> bool, x: A)
    ensures
        s.filter(p).contains(x) <==> s.contains(x) && p(x),
    decreases s.len(),
{
    reveal(Seq::filter);
    if s.len() > 0 {
        let t = s.drop_last();
        lemma_filter_contains(t, p, x);
        if t.contains(x) {
            let i = choose|i: int| 0 <= i < t.len() && t[i] == x;
            assert(s[i] == x);
        }
        if s.contains(x) && x != s.last() {
            let i = choose|i: int| 0 <= i < s.len() && s[i] == x;
            assert(t[i] == x);
        }
        if x == s.last() {
            assert(s[s.len() - 1] == x);
        }
        if p(s.last()) {
            let f = t.filter(p);
            assert(s.filter(p) == f.push(s.last()));
            if f.contains(x) {
                let i = choose|i: int| 0 <= i < f.len() && f[i] == x;
                assert(f.push(s.last())[i] == x);
            }
            if x == s.last() {
                assert(f.push(s.last())[f.len() as int] == x);
            }
            if f.push(s.last()).contains(x) && x != s.last() {
                let i = choose|i: int| 0 <= i < f.len() + 1 && f.push(s.last())[i] == x;
                assert(f[i] == x);
            }
        }
    }
}

proof fn lemma_filter_ascends<K: OrderedKey>(
    s: Seq<<K as View>::V>,
    p: spec_fn(<K as View>::V) -> bool,
)
    requires
        ascends::<K>(s),
    ensures
        ascends::<K>(s.filter(p)),
    decreases s.len(),
{
    reveal(Seq::filter);
    if s.len() > 0 {
        let t = s.drop_last();
        lemma_filter_ascends::<K>(t, p);
        let f = t.filter(p);
        if p(s.last()) {
            assert forall|i: int| 0 <= i < f.len() implies K::before(#[trigger] f[i], s.last()) by {
                lemma_filter_contains(t, p, f[i]);
                assert(f.contains(f[i]));
                let j = choose|j: int| 0 <= j < t.len() && t[j] == f[i];
                assert(K::before(s[j], s[s.len() - 1]));
            }
        }
    }
}

/// The keys that `p` keeps of an ascending sequence, in order.
pub proof fn lemma_filter_ascending<K: OrderedKey>(
    s: Seq<<K as View>::V>,
    p: spec_fn(<K as View>::V) -> bool,
    d: Set<<K as View>::V>,
)
    requires
        ascends::<K>(s),
        forall|k: <K as View>::V| d.contains(k) <==> s.contains(k) && p(k),
    ensures
        s.filter(p) == ascending::<K>(d),
        ascends::<K>(s.filter(p)),
{
    lemma_filter_ascends::<K>(s, p);
    lemma_ascending::<K>(s.filter(p));
    assert forall|k: <K as View>::V| s.filter(p).to_set().contains(k) <==> d.contains(k) by {
        lemma_filter_contains(s, p, k);
    }
    assert(s.filter(p).to_set() =~= d);
}

/// The keys in a finite set can be put in order.
pub proof fn lemma_ascending_of_finite<K: OrderedKey>(d: Set<<K as View>::V>)
    requires
        d.finite(),
    ensures
        ascends::<K>(ascending::<K>(d)),
        ascending::<K>(d).to_set() == d,
    decreases d.len(),
{
    if d.len() == 0 {
        let none = Seq::<<K as View>::V>::empty();
        assert(d =~= Set::empty());
        assert(none.to_set() =~= d);
        assert(ascends::<K>(none));
    } else {
        let a = d.choose();
        let rest = d.remove(a);
        lemma_ascending_of_finite::<K>(rest);
        let s = ascending::<K>(rest);
        let p = |k: <K as View>::V| K::before(k, a);
        let q = |k: <K as View>::V| K::before(a, k);
        let low = s.filter(p);
        let high = s.filter(q);
        lemma_filter_ascends::<K>(s, p);
        lemma_filter_ascends::<K>(s, q);
        let t = low.push(a) + high;
        assert forall|i: int, j: int|
            #![trigger t[i], t[j]]
            0 <= i < j < t.len() implies K::before(t[i], t[j]) by {
            let n = low.len() as int;
            if i < n {
                lemma_filter_contains(s, p, t[i]);
                assert(low.contains(low[i]));
                assert(K::before(t[i], a));
            }
            if j > n {
                lemma_filter_contains(s, q, t[j]);
                assert(high.contains(high[j - n - 1]));
                assert(K::before(a, t[j]));
            }
            if i < n && j < n {
                assert(K::before(low[i], low[j]));
            } else if i < n && j > n {
                K::law_transitive(t[i], a, t[j]);
            } else if i > n {
                assert(K::before(high[i - n - 1], high[j - n - 1]));
            }
        }
        assert forall|k: <K as View>::V| #[trigger] t.to_set().contains(k) <==> d.contains(k) by {
            lemma_filter_contains(s, p, k);
            lemma_filter_contains(s, q, k);
            assert(s.to_set().contains(k) <==> rest.contains(k));
            K::law_total(k, a);
            if low.contains(k) {
                let i = choose|i: int| 0 <= i < low.len() && low[i] == k;
                assert(t[i] == k);
            }
            if high.contains(k) {
                let i = choose|i: int| 0 <= i < high.len() && high[i] == k;
                assert(t[low.len() + 1 + i] == k);
            }
            assert(t[low.len() as int] == a);
            if t.contains(k) {
                let i = choose|i: int| 0 <= i < t.len() && t[i] == k;
                if i < low.len() {
                    assert(low[i] == k);
                } else if i > low.len() {
                    assert(high[i - low.len() - 1] == k);
                }
            }
        }
        assert(t.to_set() =~= d);
        assert(ascends::<K>(t));
    }
}

/// The values of a map, by its keys in order.
pub proof fn lemma_in_key_order<K: OrderedKey, V>(
    ks: Seq<<K as View>::V>,
    m: Map<<K as View>::V, V>,
)
    requires
        ascends::<K>(ks),
        ks.to_set() == m.dom(),
    ensures
        in_key_order::<K, V>(m) == ks.map_values(|k: <K as View>::V| m[k]),
{
    lemma_ascending::<K>(ks);
}

/// An empty map has no values.
pub proof fn lemma_in_key_order_empty<K: OrderedKey, V>(m: Map<<K as View>::V, V>)
    requires
        m.dom() == Set::<<K as View>::V>::empty(),
    ensures
        in_key_order::<K, V>(m) == Seq::<V>::empty(),
{
    let none = Seq::<<K as View>::V>::empty();
    assert(none.to_set() =~= m.dom());
    lemma_in_key_order::<K, V>(none, m);
    assert(none.map_values(|k: <K as View>::V| m[k]) =~= Seq::<V>::empty());
}

/// The values of the part of a map whose keys are in `d`.
pub proof fn lemma_in_key_order_part<K: OrderedKey, V>(
    ks: Seq<<K as View>::V>,
    m: Map<<K as View>::V, V>,
    p: spec_fn(<K as View>::V) -> bool,
    d: Set<<K as View>::V>,
)
    requires
        ascends::<K>(ks),
        forall|k: <K as View>::V| d.contains(k) <==> ks.contains(k) && p(k),
        forall|k: <K as View>::V| d.contains(k) ==> m.contains_key(k),
    ensures
        in_key_order::<K, V>(m.restrict(d)) == ks.filter(p).map_values(
            |k: <K as View>::V| m[k],
        ),
        ascends::<K>(ks.filter(p)),
        ks.filter(p).to_set() == d,
        m.restrict(d).dom() == d,
{
    let part = m.restrict(d);
    assert(part.dom() =~= d);
    lemma_filter_ascending::<K>(ks, p, d);
    let kept = ks.filter(p);
    assert forall|k: <K as View>::V| kept.to_set().contains(k) <==> d.contains(k) by {
        lemma_filter_contains(ks, p, k);
    }
    assert(kept.to_set() =~= d);
    lemma_in_key_order::<K, V>(kept, part);
    assert forall|i: int| 0 <= i < kept.len() implies part[#[trigger] kept[i]] == m[kept[i]] by {
        assert(kept.to_set().contains(kept[i]));
    }
    assert(kept.map_values(|k: <K as View>::V| part[k]) =~= kept.map_values(
        |k: <K as View>::V| m[k],
    ));
}

/// To choose among values is to choose among their keys.
pub proof fn lemma_filter_map<A, B>(s: Seq<A>, f: spec_fn(A) -> B, q: spec_fn(B) -> bool)
    ensures
        s.map_values(f).filter(q) == s.filter(|a: A| q(f(a))).map_values(f),
    decreases s.len(),
{
    reveal(Seq::filter);
    let p = |a: A| q(f(a));
    if s.len() == 0 {
        assert(s.map_values(f).filter(q) =~= s.filter(p).map_values(f));
    } else {
        lemma_filter_map(s.drop_last(), f, q);
        assert(s.map_values(f).drop_last() =~= s.drop_last().map_values(f));
        assert(s.map_values(f).filter(q) =~= s.filter(p).map_values(f));
    }
}

/// The values of a map that `q` holds of are those of the part of the map with such values.
pub proof fn lemma_in_key_order_filter<K: OrderedKey, V>(
    ks: Seq<<K as View>::V>,
    m: Map<<K as View>::V, V>,
    q: spec_fn(V) -> bool,
    d: Set<<K as View>::V>,
)
    requires
        ascends::<K>(ks),
        ks.to_set() == m.dom(),
        forall|k: <K as View>::V| d.contains(k) <==> m.contains_key(k) && q(m[k]),
    ensures
        in_key_order::<K, V>(m).filter(q) == in_key_order::<K, V>(m.restrict(d)),
{
    let f = |k: <K as View>::V| m[k];
    let p = |k: <K as View>::V| q(f(k));
    lemma_in_key_order::<K, V>(ks, m);
    lemma_filter_map(ks, f, q);
    assert forall|k: <K as View>::V| d.contains(k) <==> ks.contains(k) && p(k) by {
        assert(ks.to_set().contains(k) <==> m.contains_key(k));
    }
    lemma_in_key_order_part::<K, V>(ks, m, p, d);
}

/// A map held as its entries, in the order of their keys.
pub struct OrdMap<K, V> {
    entries: Vec<(K, V)>,
}

impl<K: OrderedKey, V> View for OrdMap<K, V> {
    type V = Map<<K as View>::V, V>;

    closed spec fn view(&self) -> Map<<K as View>::V, V> {
        Map::new(
            |k: <K as View>::V| self.keys().contains(k),
            |k: <K as View>::V| self.entries@[self.keys().index_of(k)].1,
        )
    }
}

impl<K: OrderedKey, V> OrdMap<K, V> {
    /// The keys, as they stand in the map.
    pub closed spec fn keys(&self) -> Seq<<K as View>::V> {
        self.entries@.map_values(|e: (K, V)| e.0@)
    }

    /// The keys strictly ascend.
    pub closed spec fn wf(&self) -> bool {
        ascends::<K>(self.keys())
    }

    proof fn lemma_view_at(&self, i: int)
        requires
            self.wf(),
            0 <= i < self.entries@.len(),
        ensures
            self@.contains_key(self.entries@[i].0@),
            self@[self.entries@[i].0@] == self.entries@[i].1,
            self.keys().len() == self.entries@.len(),
            self.keys()[i] == self.entries@[i].0@,
    {
        let k = self.entries@[i].0@;
        assert(self.keys()[i] == k);
        let j = self.keys().index_of(k);
        assert(self.keys().contains(k));
        assert(0 <= j < self.keys().len() && self.keys()[j] == k);
        if i < j {
            assert(K::before(self.keys()[i], self.keys()[j]));
            K::law_irreflexive(k);
        } else if j < i {
            assert(K::before(self.keys()[j], self.keys()[i]));
            K::law_irreflexive(k);
        }
    }

    /// What the keys of a well-formed map say of its view.
    pub proof fn lemma_keys(&self)
        requires
            self.wf(),
        ensures
            ascends::<K>(self.keys()),
            self.keys().to_set() == self@.dom(),
            self.keys() == ascending::<K>(self@.dom()),
            forall|i: int| 0 <= i < self.keys().len() ==> self@.contains_key(#[trigger] self.keys()[i]),
            forall|k: <K as View>::V| self@.contains_key(k) ==> self.keys().contains(k),
    {
        assert(self.keys().to_set() =~= self@.dom());
        lemma_ascending::<K>(self.keys());
        assert forall|i: int| 0 <= i < self.keys().len() implies self@.contains_key(
            #[trigger] self.keys()[i],
        ) by {
            self.lemma_view_at(i);
        }
    }

    pub fn new() -> (r: Self)
        ensures
            r.wf(),
            r@ == Map::<<K as View>::V, V>::empty(),
            r.keys() == Seq::<<K as View>::V>::empty(),
    {
        let r = OrdMap { entries: Vec::new() };
        assert(r@ =~= Map::<<K as View>::V, V>::empty());
        assert(r.keys() =~= Seq::<<K as View>::V>::empty());
        r
    }

    pub fn len(&self) -> (r: usize)
        ensures
            r == self.keys().len(),
    {
        self.entries.len()
    }

    /// The place of `key`, or the place where it would stand.
    fn find(&self, key: &K) -> (r: Result<usize, usize>)
        requires
            self.wf(),
        ensures
            match r {
                Ok(i) => i < self.entries@.len() && self.entries@[i as int].0@ == key@,
                Err(i) => {
                    &&& i <= self.entries@.len()
                    &&& forall|j: int| 0 <= j < i ==> K::before(#[trigger] self.keys()[j], key@)
                    &&& forall|j: int|
                        i <= j < self.entries@.len() ==> K::before(key@, #[trigger] self.keys()[j])
                    &&& !self@.contains_key(key@)
                },
            },
    {
        let ghost ks = self.keys();
        let mut lo: usize = 0;
        let mut hi: usize = self.entries.len();
        while lo < hi
            invariant
                ks == self.keys(),
                self.wf(),
                lo <= hi <= self.entries@.len(),
                ks.len() == self.entries@.len(),
                forall|j: int| 0 <= j < lo ==> K::before(#[trigger] ks[j], key@),
                forall|j: int| hi <= j < self.entries@.len() ==> K::before(key@, #[trigger] ks[j]),
            decreases hi - lo,
        {
            let mid: usize = lo + (hi - lo) / 2;
            assert(ks[mid as int] == self.entries@[mid as int].0@);
            match self.entries[mid].0.order(key) {
                KeyOrder::Same => {
                    return Ok(mid);
                },
                KeyOrder::Before => {
                    assert forall|j: int| 0 <= j < mid + 1 implies K::before(#[trigger] ks[j], key@) by {
                        if j < mid {
                            K::law_transitive(ks[j], ks[mid as int], key@);
                        }
                    }
                    lo = mid + 1;
                },
                KeyOrder::After => {
                    assert forall|j: int| mid <= j < self.entries@.len() implies K::before(
                        key@,
                        #[trigger] ks[j],
                    ) by {
                        if j > mid {
                            K::law_transitive(key@, ks[mid as int], ks[j]);
                        }
                    }
                    hi = mid;
                },
            }
        }
        proof {
            if self@.contains_key(key@) {
                let j = choose|j: int| 0 <= j < ks.len() && ks[j] == key@;
                K::law_irreflexive(key@);
            }
        }
        Err(lo)
    }

    pub fn contains_key(&self, key: &K) -> (r: bool)
        requires
            self.wf(),
        ensures
            r == self@.contains_key(key@),
    {
        match self.find(key) {
            Ok(i) => {
                proof {
                    self.lemma_view_at(i as int);
                }
                true
            },
            Err(_) => false,
        }
    }

    pub fn get(&self, key: &K) -> (r: Option<&V>)
        requires
            self.wf(),
        ensures
            match r {
                Some(v) => self@.contains_key(key@) && *v == self@[key@],
                None => !self@.contains_key(key@),
            },
    {
        match self.find(key) {
            Ok(i) => {
                proof {
                    self.lemma_view_at(i as int);
                }
                Some(&self.entries[i].1)
            },
            Err(_) => None,
        }
    }

    pub fn get_mut(&mut self, key: &K) -> (r: Option<&mut V>)
        requires
            old(self).wf(),
        ensures
            final(self).wf(),
            match r {
                Some(v) => {
                    &&& old(self)@.contains_key(key@)
                    &&& *v == old(self)@[key@]
                    &&& final(self)@ == old(self)@.insert(key@, *final(v))
                    &&& final(self).keys() == old(self).keys()
                },
                None => !old(self)@.contains_key(key@) && *final(self) == *old(self),
            },
    {
        match self.find(key) {
            Ok(i) => {
                let v = &mut self.entries[i].1;
                proof {
                    lemma_set_value(*old(self), *after_borrow(self), i as int, *final(v));
                }
                Some(v)
            },
            Err(_) => None,
        }
    }

    /// The key at place `i`.
    pub fn key_at(&self, i: usize) -> (r: &K)
        requires
            i < self.keys().len(),
        ensures
            r@ == self.keys()[i as int],
    {
        &self.entries[i].0
    }

    /// The value at place `i`.
    pub fn value_at(&self, i: usize) -> (r: &V)
        requires
            self.wf(),
            i < self.keys().len(),
        ensures
            *r == self@[self.keys()[i as int]],
    {
        proof {
            self.lemma_view_at(i as int);
        }
        &self.entries[i].1
    }

    /// The value at place `i`, to be changed in place.
    pub fn value_at_mut(&mut self, i: usize) -> (r: &mut V)
        requires
            old(self).wf(),
            i < old(self).keys().len(),
        ensures
            final(self).wf(),
            *r == old(self)@[old(self).keys()[i as int]],
            final(self)@ == old(self)@.insert(old(self).keys()[i as int], *final(r)),
            final(self).keys() == old(self).keys(),
    {
        let v = &mut self.entries[i].1;
        proof {
            lemma_set_value(*old(self), *after_borrow(self), i as int, *final(v));
        }
        v
    }

    /// Puts `value` under `key`, in the place of what stood there.
    pub fn insert(&mut self, key: K, value: V)
        requires
            old(self).wf(),
        ensures
            final(self).wf(),
            final(self)@ == old(self)@.insert(key@, value),
    {
        match self.find(&key) {
            Ok(i) => {
                self.entries[i].1 = value;
                proof {
                    lemma_set_value(*old(self), *self, i as int, value);
                }
            },
            Err(i) => {
                self.entries.insert(i, (key, value));
                proof {
                    lemma_put_entry(*old(self), *self, i as int, key, value);
                }
            },
        }
    }

    /// Takes `key` out, and gives back what stood under it.
    pub fn remove(&mut self, key: &K) -> (r: Option<V>)
        requires
            old(self).wf(),
        ensures
            final(self).wf(),
            final(self)@ == old(self)@.remove(key@),
            match r {
                Some(v) => old(self)@.contains_key(key@) && v == old(self)@[key@],
                None => !old(self)@.contains_key(key@) && *final(self) == *old(self),
            },
    {
        match self.find(key) {
            Ok(i) => {
                proof {
                    self.lemma_view_at(i as int);
                }
                let e = self.entries.remove(i);
                proof {
                    lemma_take_entry(*old(self), *self, i as int);
                }
                Some(e.1)
            },
            Err(_) => {
                assert(self@.remove(key@) =~= self@);
                None
            },
        }
    }

    /// Takes the entry with the least key out of a map that has one.
    pub fn take_first(&mut self) -> (r: (K, V))
        requires
            old(self).wf(),
            old(self).keys().len() > 0,
        ensures
            final(self).wf(),
            r.0@ == old(self).keys()[0],
            r.1 == old(self)@[r.0@],
            final(self)@ == old(self)@.remove(r.0@),
            final(self).keys() == old(self).keys().skip(1),
    {
        proof {
            self.lemma_view_at(0);
        }
        let e = self.entries.remove(0);
        proof {
            lemma_take_entry(*old(self), *self, 0);
            assert(self.keys() =~= old(self).keys().skip(1));
        }
        e
    }
}

proof fn lemma_set_value<K: OrderedKey, V>(a: OrdMap<K, V>, b: OrdMap<K, V>, i: int, v: V)
    requires
        a.wf(),
        0 <= i < a.entries@.len(),
        b.entries@ == a.entries@.update(i, (a.entries@[i].0, v)),
    ensures
        b.wf(),
        b.keys() == a.keys(),
        a@.contains_key(a.entries@[i].0@),
        a@[a.entries@[i].0@] == a.entries@[i].1,
        b@ == a@.insert(a.entries@[i].0@, v),
{
    assert(b.keys() =~= a.keys());
    a.lemma_view_at(i);
    b.lemma_view_at(i);
    let k = a.entries@[i].0@;
    assert forall|x: <K as View>::V| a@.contains_key(x) && x != k implies b@[x] == a@[x] by {
        let j = a.keys().index_of(x);
        assert(a.keys().contains(x));
        assert(a.keys()[j] == x);
    }
    assert(b@ =~= a@.insert(k, v));
}

proof fn lemma_put_entry<K: OrderedKey, V>(a: OrdMap<K, V>, b: OrdMap<K, V>, i: int, key: K, v: V)
    requires
        a.wf(),
        0 <= i <= a.entries@.len(),
        forall|j: int| 0 <= j < i ==> K::before(#[trigger] a.keys()[j], key@),
        forall|j: int| i <= j < a.entries@.len() ==> K::before(key@, #[trigger] a.keys()[j]),
        b.entries@ == a.entries@.insert(i, (key, v)),
    ensures
        b.wf(),
        b@ == a@.insert(key@, v),
{
    assert(b.keys() =~= a.keys().insert(i, key@));
    b.lemma_view_at(i);
    assert forall|x: <K as View>::V|
        #![trigger b@.dom().contains(x)]
        #![trigger b@[x]]
        x != key@ implies a@.dom().contains(x) == b@.dom().contains(x) && (a@.dom().contains(x)
        ==> a@[x] == b@[x]) by {
        if a@.contains_key(x) {
            let j = a.keys().index_of(x);
            assert(a.keys().contains(x));
            assert(a.keys()[j] == x);
            a.lemma_view_at(j);
            let jj = if j < i { j } else { j + 1 };
            assert(b.entries@[jj] == a.entries@[j]);
            b.lemma_view_at(jj);
        }
        if b@.contains_key(x) {
            let j = b.keys().index_of(x);
            assert(b.keys().contains(x));
            assert(b.keys()[j] == x);
            let jj = if j < i { j } else { j - 1 };
            assert(a.keys()[jj] == x);
            a.lemma_view_at(jj);
        }
    }
    assert(b@ =~= a@.insert(key@, v));
}

proof fn lemma_take_entry<K: OrderedKey, V>(a: OrdMap<K, V>, b: OrdMap<K, V>, i: int)
    requires
        a.wf(),
        0 <= i < a.entries@.len(),
        b.entries@ == a.entries@.remove(i),
    ensures
        b.wf(),
        b@ == a@.remove(a.entries@[i].0@),
{
    let k = a.entries@[i].0@;
    assert(b.keys() =~= a.keys().remove(i));
    a.lemma_view_at(i);
    assert forall|x: <K as View>::V|
        #![trigger b@.dom().contains(x)]
        #![trigger b@[x]]
        b@.dom().contains(x) == (x != k && a@.dom().contains(x)) && (b@.dom().contains(x) ==> a@[x]
            == b@[x]) by {
        if a@.contains_key(x) && x != k {
            let j = a.keys().index_of(x);
            assert(a.keys().contains(x));
            assert(a.keys()[j] == x);
            a.lemma_view_at(j);
            let jj = if j < i { j } else { j - 1 };
            assert(b.entries@[jj] == a.entries@[j]);
            b.lemma_view_at(jj);
        }
        if b@.contains_key(x) {
            let j = b.keys().index_of(x);
            assert(b.keys().contains(x));
            assert(b.keys()[j] == x);
            let jj = if j < i { j } else { j + 1 };
            assert(a.keys()[jj] == x);
            a.lemma_view_at(jj);
            assert(a.entries@[jj].0@ == x);
            if x == k {
                if jj < i {
                    assert(K::before(a.keys()[jj], a.keys()[i]));
                } else {
                    assert(K::before(a.keys()[i], a.keys()[jj]));
                }
                K::law_irreflexive(k);
            }
        }
    }
    assert(b@ =~= a@.remove(k));
}

} // verus!
