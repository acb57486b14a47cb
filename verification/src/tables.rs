//! Small associative tables, modelled as maps.

use vstd::prelude::*;

verus! {

// ----------------------------------------------------------------------
// One slot per player id
// ----------------------------------------------------------------------

/// The members of `s` below `n`, in ascending order.
pub open spec fn pids_below(s: Set<u8>, n: nat) -> Seq<u8>
    decreases n,
{
    if n == 0 {
        Seq::empty()
    } else if s.contains((n - 1) as u8) {
        pids_below(s, (n - 1) as nat).push((n - 1) as u8)
    } else {
        pids_below(s, (n - 1) as nat)
    }
}

/// The members of `s` in ascending order.
pub open spec fn pids(s: Set<u8>) -> Seq<u8> {
    pids_below(s, 256)
}

/// The enumeration holds the members, each once, in ascending order.
pub proof fn pids_enumerate(s: Set<u8>, n: nat)
    requires
        n <= 256,
    ensures
        forall|i: int| 0 <= i < pids_below(s, n).len() ==> s.contains(#[trigger] pids_below(s, n)[i]) && pids_below(s, n)[i] < n,
        forall|i: int, j: int| 0 <= i < j < pids_below(s, n).len() ==> pids_below(s, n)[i] < pids_below(s, n)[j],
        forall|p: u8| s.contains(p) && p < n ==> #[trigger] pids_below(s, n).contains(p),
    decreases n,
{
    if n > 0 {
        let m = (n - 1) as nat;
        pids_enumerate(s, m);
        let head = pids_below(s, m);
        assert forall|p: u8| s.contains(p) && p < n implies #[trigger] pids_below(s, n).contains(p) by {
            if p < m {
                let i = choose|i: int| 0 <= i < head.len() && head[i] == p;
                assert(head.contains(p));
                assert(pids_below(s, n)[i] == p);
            } else {
                assert(pids_below(s, n).last() == p);
            }
        }
    }
}

/// A table by player id.
#[derive(Debug)]
pub struct PidMap<V> {
    slots: Vec<Option<V>>,
}

impl<V: View> View for PidMap<V> {
    type V = Map<u8, V::V>;

    closed spec fn view(&self) -> Map<u8, V::V> {
        Map::new(|p: u8| p < self.slots@.len() && self.slots@[p as int] is Some, |p: u8| self.slots@[p as int]->0@)
    }
}

impl<V: View> PidMap<V> {
    pub fn new() -> (m: PidMap<V>)
        ensures
            m@ == Map::<u8, V::V>::empty(),
    {
        let m = PidMap { slots: Vec::new() };
        proof {
            assert(m@ =~= Map::<u8, V::V>::empty());
        }
        m
    }

    pub fn contains(&self, p: u8) -> (r: bool)
        ensures
            r == self@.contains_key(p),
    {
        (p as usize) < self.slots.len() && self.slots[p as usize].is_some()
    }

    pub fn get(&self, p: u8) -> (r: Option<&V>)
        ensures
            r is Some <==> self@.contains_key(p),
            r matches Some(v) ==> v@ == self@[p],
    {
        if (p as usize) < self.slots.len() {
            match &self.slots[p as usize] {
                Some(v) => Some(v),
                None => None,
            }
        } else {
            None
        }
    }

    pub fn insert(&mut self, p: u8, v: V)
        ensures
            final(self)@ == old(self)@.insert(p, v@),
    {
        while self.slots.len() <= p as usize
            invariant
                self@ == old(self)@,
            decreases p + 1 - self.slots@.len(),
        {
            let ghost before = self@;
            self.slots.push(None);
            proof {
                assert(self@ =~= before);
            }
        }
        let ghost before = self@;
        self.slots.set(p as usize, Some(v));
        proof {
            assert(self@ =~= before.insert(p, v@));
        }
    }

    pub fn remove(&mut self, p: u8) -> (r: Option<V>)
        ensures
            final(self)@ == old(self)@.remove(p),
            r is Some <==> old(self)@.contains_key(p),
            r matches Some(v) ==> v@ == old(self)@[p],
    {
        let mut r: Option<V> = None;
        if (p as usize) < self.slots.len() {
            std::mem::swap(&mut self.slots[p as usize], &mut r);
        }
        proof {
            assert(self@ =~= old(self)@.remove(p));
        }
        r
    }

    /// The ids in the table, in ascending order.
    pub fn keys(&self) -> (r: Vec<u8>)
        ensures
            r@ == pids(self@.dom()),
    {
        let mut r: Vec<u8> = Vec::new();
        let mut i: usize = 0;
        while i < 256
            invariant
                i <= 256,
                r@ == pids_below(self@.dom(), i as nat),
            decreases 256 - i,
        {
            if self.contains(i as u8) {
                r.push(i as u8);
            }
            i = i + 1;
        }
        r
    }

    pub fn len(&self) -> (n: usize)
        ensures
            n == pids(self@.dom()).len(),
    {
        self.keys().len()
    }

    pub fn clear(&mut self)
        ensures
            final(self)@ == Map::<u8, V::V>::empty(),
    {
        self.slots.clear();
        proof {
            assert(self@ =~= Map::<u8, V::V>::empty());
        }
    }
}

// ----------------------------------------------------------------------
// Tables by key
// ----------------------------------------------------------------------

/// A key that can be told from another.
pub trait Key: View {
    fn same(&self, other: &Self) -> (r: bool)
        ensures
            r == (self@ == other@),
    ;
}

impl Key for u32 {
    fn same(&self, other: &Self) -> (r: bool) {
        *self == *other
    }
}

impl Key for u64 {
    fn same(&self, other: &Self) -> (r: bool) {
        *self == *other
    }
}

impl Key for [u8; 32] {
    fn same(&self, other: &Self) -> (r: bool) {
        crate::crypto::key_eq(self, other)
    }
}

/// The map that a list of entries stands for; of two entries with one key, the first counts.
pub open spec fn map_of<K: View, V: View>(items: Seq<(K, V)>) -> Map<K::V, V::V>
    decreases items.len(),
{
    if items.len() == 0 {
        Map::empty()
    } else {
        map_of(items.drop_first()).insert(items[0].0@, items[0].1@)
    }
}

proof fn lemma_first<K: View, V: View>(items: Seq<(K, V)>, i: int, k: K::V)
    requires
        0 <= i <= items.len(),
        forall|j: int| 0 <= j < i ==> (#[trigger] items[j]).0@ != k,
    ensures
        i < items.len() && items[i].0@ == k ==> map_of(items).contains_key(k) && map_of(items)[k] == items[i].1@,
        i == items.len() ==> !map_of(items).contains_key(k),
    decreases items.len(),
{
    if items.len() > 0 {
        let rest = items.drop_first();
        if i > 0 {
            assert forall|j: int| 0 <= j < i - 1 implies (#[trigger] rest[j]).0@ != k by {
                assert(items[j + 1].0@ != k);
            }
            assert(items[0].0@ != k);
            lemma_first(rest, i - 1, k);
        }
    }
}

proof fn lemma_drop_entry<K: View, V: View>(items: Seq<(K, V)>, i: int)
    requires
        0 <= i < items.len(),
    ensures
        map_of(items.remove(i)).remove(items[i].0@) == map_of(items).remove(items[i].0@),
    decreases items.len(),
{
    let k = items[i].0@;
    if i == 0 {
        assert(items.remove(0) =~= items.drop_first());
        assert(map_of(items).remove(k) =~= map_of(items.drop_first()).remove(k));
    } else {
        let rest = items.drop_first();
        lemma_drop_entry(rest, i - 1);
        assert(items.remove(i).drop_first() =~= rest.remove(i - 1));
        let a = items[0].0@;
        let m1 = map_of(rest.remove(i - 1));
        let m2 = map_of(rest);
        assert(m1.remove(k) == m2.remove(k));
        assert forall|x: K::V| #[trigger] m1.insert(a, items[0].1@).remove(k).contains_key(x) <==> m2.insert(
            a,
            items[0].1@,
        ).remove(k).contains_key(x) by {
            assert(m1.remove(k).contains_key(x) <==> m2.remove(k).contains_key(x));
        }
        assert forall|x: K::V| x != k && x != a && m1.contains_key(x) implies #[trigger] m1[x] == m2[x] by {
            assert(m1.remove(k)[x] == m2.remove(k)[x]);
        }
        assert(m1.insert(a, items[0].1@).remove(k) =~= m2.insert(a, items[0].1@).remove(k));
    }
}

/// A table by key.
#[derive(Debug)]
pub struct Table<K, V> {
    items: Vec<(K, V)>,
}

impl<K: View, V: View> View for Table<K, V> {
    type V = Map<K::V, V::V>;

    closed spec fn view(&self) -> Map<K::V, V::V> {
        map_of(self.items@)
    }
}

impl<K: Key, V: View> Table<K, V> {
    pub fn new() -> (m: Table<K, V>)
        ensures
            m@ == Map::<K::V, V::V>::empty(),
    {
        Table { items: Vec::new() }
    }

    fn find(&self, k: &K) -> (r: Option<usize>)
        ensures
            r is Some <==> self@.contains_key(k@),
            r matches Some(i) ==> i < self.items@.len() && self.items@[i as int].0@ == k@ && self.items@[i as int].1@
                == self@[k@],
    {
        let mut i: usize = 0;
        while i < self.items.len()
            invariant
                i <= self.items@.len(),
                forall|j: int| 0 <= j < i ==> (#[trigger] self.items@[j]).0@ != k@,
            decreases self.items@.len() - i,
        {
            if self.items[i].0.same(k) {
                proof {
                    lemma_first(self.items@, i as int, k@);
                }
                return Some(i);
            }
            i = i + 1;
        }
        proof {
            lemma_first(self.items@, i as int, k@);
        }
        None
    }

    pub fn contains(&self, k: &K) -> (r: bool)
        ensures
            r == self@.contains_key(k@),
    {
        self.find(k).is_some()
    }

    pub fn get(&self, k: &K) -> (r: Option<&V>)
        ensures
            r is Some <==> self@.contains_key(k@),
            r matches Some(v) ==> v@ == self@[k@],
    {
        match self.find(k) {
            Some(i) => Some(&self.items[i].1),
            None => None,
        }
    }

    pub fn remove(&mut self, k: &K) -> (r: Option<V>)
        ensures
            final(self)@ == old(self)@.remove(k@),
            r is Some <==> old(self)@.contains_key(k@),
            r matches Some(v) ==> v@ == old(self)@[k@],
    {
        let r: Option<V> = match self.find(k) {
            Some(i) => {
                proof {
                    lemma_drop_entry(self.items@, i as int);
                }
                let item: (K, V) = self.items.remove(i);
                Some(item.1)
            },
            None => None,
        };
        let mut more: Option<usize> = self.find(k);
        while more.is_some()
            invariant
                self@.remove(k@) == old(self)@.remove(k@),
                more is Some <==> self@.contains_key(k@),
                more matches Some(i) ==> i < self.items@.len() && self.items@[i as int].0@ == k@,
            decreases self.items@.len(),
        {
            if let Some(i) = more {
                proof {
                    lemma_drop_entry(self.items@, i as int);
                }
                let _ = self.items.remove(i);
            }
            more = self.find(k);
        }
        proof {
            assert(self@ =~= self@.remove(k@));
        }
        r
    }

    pub fn insert(&mut self, k: K, v: V)
        ensures
            final(self)@ == old(self)@.insert(k@, v@),
    {
        let _ = self.remove(&k);
        let ghost before = self.items@;
        let ghost kk = k@;
        let ghost vv = v@;
        self.items.insert(0, (k, v));
        proof {
            assert(self.items@.drop_first() =~= before);
            assert(self@ =~= old(self)@.insert(kk, vv));
        }
    }

    pub fn clear(&mut self)
        ensures
            final(self)@ == Map::<K::V, V::V>::empty(),
    {
        self.items.clear();
    }
}

/// The entries of a table by tick from `lo` on.
pub open spec fn from_tick<V>(m: Map<u32, V>, lo: u32) -> Map<u32, V> {
    Map::new(|t: u32| m.contains_key(t) && t >= lo, |t: u32| m[t])
}

impl<V: View> Table<u32, V> {
    /// Forget the entries before the tick `lo`.
    pub fn prune(&mut self, lo: u32)
        ensures
            final(self)@ == from_tick(old(self)@, lo),
    {
        let mut i: usize = self.items.len();
        while i > 0
            invariant
                i <= self.items@.len(),
                from_tick(self@, lo) == from_tick(old(self)@, lo),
                forall|j: int| i <= j < self.items@.len() ==> (#[trigger] self.items@[j]).0 >= lo,
            decreases i,
        {
            i = i - 1;
            if self.items[i].0 < lo {
                let ghost before = self.items@;
                let ghost k = before[i as int].0;
                proof {
                    lemma_drop_entry(before, i as int);
                }
                let _ = self.items.remove(i);
                proof {
                    let m1 = map_of(before);
                    let m2 = self@;
                    assert(m2.remove(k) == m1.remove(k));
                    assert forall|t: u32| #[trigger] from_tick(m2, lo).contains_key(t) <==> from_tick(m1, lo).contains_key(
                        t,
                    ) by {
                        if t >= lo {
                            assert(m2.remove(k).contains_key(t) <==> m1.remove(k).contains_key(t));
                        }
                    }
                    assert forall|t: u32| from_tick(m2, lo).contains_key(t) implies #[trigger] from_tick(m2, lo)[t]
                        == from_tick(m1, lo)[t] by {
                        assert(m2.remove(k)[t] == m1.remove(k)[t]);
                    }
                    assert(from_tick(m2, lo) =~= from_tick(m1, lo));
                    assert forall|j: int| i <= j < self.items@.len() implies (#[trigger] self.items@[j]).0 >= lo by {
                        assert(self.items@[j] == before[j + 1]);
                    }
                }
            }
        }
        proof {
            assert forall|t: u32| t < lo implies !self@.contains_key(t) by {
                lemma_first(self.items@, self.items@.len() as int, t);
            }
            assert(self@ =~= from_tick(self@, lo));
        }
    }
}

} // verus!
