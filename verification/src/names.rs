//! A map from names to values that is walked in the order of the names.
use vstd::prelude::*;

use crate::text;
use crate::text::{compare, Order};

verus! {

/// `r` says where a name stands among ascending names, or where it would have
/// to stand.
pub open spec fn found(keys: Seq<Seq<char>>, name: Seq<char>, r: Result<usize, usize>) -> bool {
    match r {
        Ok(i) => i < keys.len() && keys[i as int] == name,
        Err(i) => {
            &&& i <= keys.len()
            &&& !keys.contains(name)
            &&& forall|j: int| 0 <= j < i ==> #[trigger] text::text_lt(keys[j], name)
            &&& forall|j: int| i <= j < keys.len() ==> #[trigger] text::text_lt(name, keys[j])
        },
    }
}

/// Where the name stands among ascending names, or where it would have to.
pub fn find_name(names: &Vec<String>, name: &str) -> (r: Result<usize, usize>)
    requires
        text::ascending(text::texts(names@)),
    ensures
        found(text::texts(names@), name@, r),
{
    let ghost keys = text::texts(names@);
    let mut lo: usize = 0;
    let mut hi: usize = names.len();
    while lo < hi
        invariant
            keys == text::texts(names@),
            text::ascending(keys),
            lo <= hi <= names@.len(),
            forall|j: int| 0 <= j < lo ==> #[trigger] text::text_lt(keys[j], name@),
            forall|j: int| hi <= j < keys.len() ==> #[trigger] text::text_lt(name@, keys[j]),
        decreases hi - lo,
    {
        let mid: usize = lo + (hi - lo) / 2;
        assert(keys[mid as int] == names@[mid as int]@);
        match compare(names[mid].as_str(), name) {
            Order::Equal => {
                return Ok(mid);
            },
            Order::Less => {
                assert forall|j: int| 0 <= j < mid + 1 implies #[trigger] text::text_lt(
                    keys[j],
                    name@,
                ) by {
                    if j < mid {
                        text::lemma_text_transitive(keys[j], keys[mid as int], name@);
                    }
                }
                lo = mid + 1;
            },
            Order::Greater => {
                assert forall|j: int| mid <= j < keys.len() implies #[trigger] text::text_lt(
                    name@,
                    keys[j],
                ) by {
                    if mid < j {
                        text::lemma_text_transitive(name@, keys[mid as int], keys[j]);
                    }
                }
                hi = mid;
            },
        }
    }
    proof {
        if keys.contains(name@) {
            let j = choose|j: int| 0 <= j < keys.len() && keys[j] == name@;
            text::lemma_text_irreflexive(name@);
            assert(text::text_lt(keys[j], name@) || text::text_lt(name@, keys[j]));
        }
    }
    Err(lo)
}

/// Names put in where they belong keep ascending.
pub proof fn lemma_insert_ascending(keys: Seq<Seq<char>>, i: int, name: Seq<char>)
    requires
        text::ascending(keys),
        0 <= i <= keys.len(),
        forall|j: int| 0 <= j < i ==> #[trigger] text::text_lt(keys[j], name),
        forall|j: int| i <= j < keys.len() ==> #[trigger] text::text_lt(name, keys[j]),
    ensures
        text::ascending(keys.insert(i, name)),
{
    let kb = keys.insert(i, name);
    assert forall|p: int, q: int| 0 <= p < q < kb.len() implies #[trigger] text::text_lt(
        kb[p],
        kb[q],
    ) by {
        let x = if p > i {
            p - 1
        } else {
            p
        };
        let y = if q > i {
            q - 1
        } else {
            q
        };
        if p != i && q != i {
            assert(text::text_lt(keys[x], keys[y]));
        } else if p == i {
            assert(text::text_lt(name, keys[y]));
        } else {
            assert(text::text_lt(keys[x], name));
        }
    }
}

/// A name put in is among the names, and so are those that were.
pub proof fn lemma_insert_contains(
    keys: Seq<Seq<char>>,
    i: int,
    name: Seq<char>,
    n: Seq<char>,
)
    requires
        0 <= i <= keys.len(),
    ensures
        keys.insert(i, name).contains(n) <==> keys.contains(n) || n == name,
{
    let after = keys.insert(i, name);
    if keys.contains(n) {
        let j = choose|j: int| 0 <= j < keys.len() && keys[j] == n;
        if j < i {
            assert(after[j] == n);
        } else {
            assert(after[j + 1] == n);
        }
    }
    if after.contains(n) {
        let j = choose|j: int| 0 <= j < after.len() && after[j] == n;
        if j < i {
            assert(keys[j] == n);
        } else if j > i {
            assert(keys[j - 1] == n);
        }
    }
    assert(after[i] == name);
}

/// Ascending names are distinct.
pub proof fn lemma_ascending_distinct(keys: Seq<Seq<char>>)
    requires
        text::ascending(keys),
    ensures
        keys.no_duplicates(),
{
    assert forall|i: int, j: int|
        0 <= i < keys.len() && 0 <= j < keys.len() && i != j implies keys[i] != keys[j] by {
        text::lemma_text_irreflexive(keys[i]);
        if i < j {
            assert(text::text_lt(keys[i], keys[j]));
        } else {
            assert(text::text_lt(keys[j], keys[i]));
        }
    }
}

/// Names in ascending order, each with its value.
pub struct NameMap<V> {
    pub names: Vec<String>,
    pub vals: Vec<V>,
}

impl<V> NameMap<V> {
    /// The names, in order.
    pub open spec fn keys(&self) -> Seq<Seq<char>> {
        text::texts(self.names@)
    }

    /// Every name has a value, and the names ascend.
    pub open spec fn wf(&self) -> bool {
        &&& self.names@.len() == self.vals@.len()
        &&& text::ascending(self.keys())
    }

    /// Where a name stands.
    pub open spec fn position(&self, name: Seq<char>) -> int {
        self.keys().index_of(name)
    }

    /// The values by name.
    pub open spec fn map(&self) -> Map<Seq<char>, V> {
        Map::new(
            |name: Seq<char>| self.keys().contains(name),
            |name: Seq<char>| self.vals@[self.position(name)],
        )
    }

    /// No name stands in two places.
    pub proof fn lemma_position(&self, i: int)
        requires
            self.wf(),
            0 <= i < self.names@.len(),
        ensures
            self.position(self.names@[i]@) == i,
            self.keys().contains(self.names@[i]@),
            self.map().contains_key(self.names@[i]@),
            self.map()[self.names@[i]@] == self.vals@[i],
    {
        let name = self.names@[i]@;
        assert(self.keys()[i] == name);
        let j = self.position(name);
        assert(self.keys().contains(name));
        if j < i {
            text::lemma_text_asymmetric(self.keys()[j], self.keys()[i]);
        } else if i < j {
            text::lemma_text_asymmetric(self.keys()[i], self.keys()[j]);
        }
    }

    pub fn new() -> (r: Self)
        ensures
            r.wf(),
            r.names@.len() == 0,
            r.map() == Map::<Seq<char>, V>::empty(),
    {
        let r: NameMap<V> = NameMap { names: Vec::new(), vals: Vec::new() };
        assert(r.map() =~= Map::<Seq<char>, V>::empty());
        r
    }

    pub fn len(&self) -> (r: usize)
        ensures
            r == self.names@.len(),
    {
        self.names.len()
    }

    /// Where the name stands, or where it would have to stand.
    pub fn find(&self, name: &str) -> (r: Result<usize, usize>)
        requires
            self.wf(),
        ensures
            found(self.keys(), name@, r),
    {
        find_name(&self.names, name)
    }

    pub fn contains(&self, name: &str) -> (r: bool)
        requires
            self.wf(),
        ensures
            r == self.map().contains_key(name@),
    {
        match self.find(name) {
            Ok(i) => {
                proof {
                    self.lemma_position(i as int);
                }
                true
            },
            Err(_) => false,
        }
    }

    /// The value of a name.
    pub fn get(&self, name: &str) -> (r: Option<&V>)
        requires
            self.wf(),
        ensures
            r is Some <==> self.map().contains_key(name@),
            r matches Some(v) ==> *v == self.map()[name@],
    {
        match self.find(name) {
            Ok(i) => {
                proof {
                    self.lemma_position(i as int);
                }
                Some(&self.vals[i])
            },
            Err(_) => None,
        }
    }

    /// Where the name stands; it is given `v` if it is not there yet.
    pub fn enter(&mut self, name: &str, v: V) -> (i: usize)
        requires
            old(self).wf(),
        ensures
            final(self).wf(),
            i < final(self).names@.len(),
            final(self).names@[i as int]@ == name@,
            old(self).map().contains_key(name@) ==> *final(self) == *old(self),
            !old(self).map().contains_key(name@) ==> final(self).map() == old(self).map().insert(
                name@,
                v,
            ) && final(self).names@.len() == old(self).names@.len() + 1,
    {
        match self.find(name) {
            Ok(i) => {
                proof {
                    self.lemma_position(i as int);
                }
                i
            },
            Err(i) => {
                let ghost before = *self;
                self.names.insert(i, name.to_string());
                self.vals.insert(i, v);
                proof {
                    lemma_inserted(before, *self, i as int, name@, v);
                }
                i
            },
        }
    }

    /// Give a name a value, in place of the one it has.
    pub fn put(&mut self, name: &str, v: V)
        requires
            old(self).wf(),
        ensures
            final(self).wf(),
            final(self).map() == old(self).map().insert(name@, v),
    {
        match self.find(name) {
            Ok(i) => {
                let ghost was = *self;
                self.vals.set(i, v);
                proof {
                    lemma_replaced(was, *self, i as int, v);
                }
            },
            Err(i) => {
                let ghost was = *self;
                self.names.insert(i, name.to_string());
                self.vals.insert(i, v);
                proof {
                    lemma_inserted(was, *self, i as int, name@, v);
                }
            },
        }
    }
}

/// Where a name of the map stands.
pub proof fn lemma_key_position<V>(m: NameMap<V>, name: Seq<char>) -> (i: int)
    requires
        m.wf(),
        m.map().contains_key(name),
    ensures
        0 <= i < m.names@.len(),
        m.names@[i]@ == name,
        m.map()[name] == m.vals@[i],
{
    let i = choose|i: int| 0 <= i < m.keys().len() && m.keys()[i] == name;
    m.lemma_position(i);
    i
}

proof fn lemma_inserted<V>(a: NameMap<V>, b: NameMap<V>, i: int, name: Seq<char>, v: V)
    requires
        a.wf(),
        0 <= i <= a.names@.len(),
        !a.keys().contains(name),
        forall|j: int| 0 <= j < i ==> #[trigger] text::text_lt(a.keys()[j], name),
        forall|j: int| i <= j < a.names@.len() ==> #[trigger] text::text_lt(name, a.keys()[j]),
        exists|s: String| s@ == name && b.names@ == #[trigger] a.names@.insert(i, s),
        b.vals@ == a.vals@.insert(i, v),
    ensures
        b.wf(),
        b.map() == a.map().insert(name, v),
{
    let ka = a.keys();
    let kb = b.keys();
    assert(kb =~= ka.insert(i, name));
    lemma_insert_ascending(ka, i, name);
    assert(b.wf());
    assert(b.names@[i]@ == name);
    b.lemma_position(i);
    assert forall|n: Seq<char>| b.map().contains_key(n) <==> #[trigger] a.map().insert(
        name,
        v,
    ).contains_key(n) by {
        lemma_insert_contains(ka, i, name, n);
    }
    assert forall|n: Seq<char>| b.map().contains_key(n) implies b.map()[n] == a.map().insert(
        name,
        v,
    )[n] by {
        let j = choose|j: int| 0 <= j < kb.len() && kb[j] == n;
        assert(b.names@[j]@ == n);
        b.lemma_position(j);
        if j < i {
            assert(a.names@[j]@ == n);
            a.lemma_position(j);
        } else if j > i {
            assert(a.names@[j - 1]@ == n);
            a.lemma_position(j - 1);
        }
    }
    assert(b.map() =~= a.map().insert(name, v));
}

/// A value replaced where it stands is a value replaced in the map.
pub proof fn lemma_replaced<V>(a: NameMap<V>, b: NameMap<V>, i: int, v: V)
    requires
        a.wf(),
        0 <= i < a.names@.len(),
        b.names@ == a.names@,
        b.vals@ == a.vals@.update(i, v),
    ensures
        b.wf(),
        b.map() == a.map().insert(a.names@[i]@, v),
{
    let name = a.names@[i]@;
    assert(b.keys() =~= a.keys());
    a.lemma_position(i);
    b.lemma_position(i);
    assert forall|n: Seq<char>| b.map().contains_key(n) implies b.map()[n] == a.map().insert(
        name,
        v,
    )[n] by {
        let j = choose|j: int| 0 <= j < a.keys().len() && a.keys()[j] == n;
        assert(a.names@[j]@ == n);
        a.lemma_position(j);
        b.lemma_position(j);
    }
    assert(b.map() =~= a.map().insert(name, v));
}

/// A set of names.
pub struct NameSet {
    pub names: Vec<String>,
}

impl NameSet {
    /// The set holds the names.
    pub proof fn lemma_view(&self)
        ensures
            self@ == self.keys().to_set(),
            self.wf() ==> text::ascending(self.keys()),
    {
    }

    /// The names, in order.
    pub open spec fn keys(&self) -> Seq<Seq<char>> {
        text::texts(self.names@)
    }

    /// The names ascend.
    pub closed spec fn wf(&self) -> bool {
        text::ascending(self.keys())
    }

    pub fn new() -> (r: Self)
        ensures
            r.wf(),
            r@ == Set::<Seq<char>>::empty(),
    {
        let r: NameSet = NameSet { names: Vec::new() };
        assert(r@ =~= Set::<Seq<char>>::empty());
        r
    }

    pub fn len(&self) -> (r: usize)
        requires
            self.wf(),
        ensures
            r == self@.len(),
    {
        proof {
            lemma_ascending_distinct(self.keys());
            self.keys().unique_seq_to_set();
        }
        self.names.len()
    }

    pub fn contains(&self, name: &str) -> (r: bool)
        requires
            self.wf(),
        ensures
            r == self@.contains(name@),
    {
        match find_name(&self.names, name) {
            Ok(_) => true,
            Err(_) => false,
        }
    }

    /// Put a name in; says whether it was new.
    pub fn insert(&mut self, name: &str) -> (r: bool)
        requires
            old(self).wf(),
        ensures
            final(self).wf(),
            r == !old(self)@.contains(name@),
            final(self)@ == old(self)@.insert(name@),
    {
        match find_name(&self.names, name) {
            Ok(_) => {
                assert(old(self)@.insert(name@) =~= old(self)@);
                false
            },
            Err(i) => {
                let ghost before = self.keys();
                self.names.insert(i, name.to_string());
                proof {
                    lemma_insert_ascending(before, i as int, name@);
                    assert(self.keys() =~= before.insert(i as int, name@));
                    assert forall|n: Seq<char>|
                        self.keys().contains(n) <==> before.contains(n) || n == name@ by {
                        lemma_insert_contains(before, i as int, name@, n);
                    }
                    assert(self@ =~= old(self)@.insert(name@));
                }
                true
            },
        }
    }

    /// Take a name out; says whether it was there.
    pub fn remove(&mut self, name: &str) -> (r: bool)
        requires
            old(self).wf(),
        ensures
            final(self).wf(),
            r == old(self)@.contains(name@),
            final(self)@ == old(self)@.remove(name@),
    {
        match find_name(&self.names, name) {
            Err(_) => {
                assert(old(self)@.remove(name@) =~= old(self)@);
                false
            },
            Ok(i) => {
                let ghost before = self.keys();
                self.names.remove(i);
                proof {
                    let after = self.keys();
                    assert(after =~= before.remove(i as int));
                    lemma_ascending_distinct(before);
                    assert forall|p: int, q: int|
                        0 <= p < q < after.len() implies #[trigger] text::text_lt(
                        after[p],
                        after[q],
                    ) by {
                        let x = if p >= i {
                            p + 1
                        } else {
                            p
                        };
                        let y = if q >= i {
                            q + 1
                        } else {
                            q
                        };
                        assert(text::text_lt(before[x], before[y]));
                    }
                    assert forall|n: Seq<char>|
                        after.contains(n) <==> before.contains(n) && n != name@ by {
                        if after.contains(n) {
                            let j = choose|j: int| 0 <= j < after.len() && after[j] == n;
                            if j < i {
                                assert(before[j] == n);
                            } else {
                                assert(before[j + 1] == n);
                            }
                        }
                        if before.contains(n) && n != name@ {
                            let j = choose|j: int| 0 <= j < before.len() && before[j] == n;
                            if j < i {
                                assert(after[j] == n);
                            } else {
                                assert(after[j - 1] == n);
                            }
                        }
                    }
                    assert(self@ =~= old(self)@.remove(name@));
                }
                true
            },
        }
    }
}

impl View for NameSet {
    type V = Set<Seq<char>>;

    closed spec fn view(&self) -> Set<Seq<char>> {
        self.keys().to_set()
    }
}

} // verus!
