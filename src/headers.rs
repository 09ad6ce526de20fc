//! A mapping from header keys to values: each key held once, the latest
//! value written for it kept.
use vstd::prelude::*;

verus! {

pub struct Headers {
    entries: Vec<(String, String)>,
    map: Ghost<Map<Seq<char>, Seq<char>>>,
}

impl View for Headers {
    type V = Map<Seq<char>, Seq<char>>;

    closed spec fn view(&self) -> Map<Seq<char>, Seq<char>> {
        self.map@
    }
}

/// `es` lists each key of `m` exactly once, with its value.
pub closed spec fn lists(es: Seq<(String, String)>, m: Map<Seq<char>, Seq<char>>) -> bool {
    &&& m.dom().finite()
    &&& m.dom().len() == es.len()
    &&& forall|i: int| 0 <= i < es.len() ==> #[trigger] m.contains_key(es[i].0@) && m[es[i].0@] == es[i].1@
    &&& forall|i: int, j: int| 0 <= i < j < es.len() ==> es[i].0@ != es[j].0@
    &&& forall|k: Seq<char>| #[trigger] m.contains_key(k) ==> exists|i: int| 0 <= i < es.len() && es[i].0@ == k
}

/// Setting a key keeps the listing: the entry at `at` is replaced when it holds
/// the key, and the entry is appended when `at` is the end and the key is new.
proof fn lemma_lists_insert(
    es: Seq<(String, String)>,
    m: Map<Seq<char>, Seq<char>>,
    e: (String, String),
    at: int,
)
    requires
        lists(es, m),
        (0 <= at < es.len() && es[at].0@ == e.0@) || (at == es.len() && !m.contains_key(e.0@)),
    ensures
        lists(if at < es.len() { es.update(at, e) } else { es.push(e) }, m.insert(e.0@, e.1@)),
{
    let ns = if at < es.len() { es.update(at, e) } else { es.push(e) };
    let nm = m.insert(e.0@, e.1@);
    let k = e.0@;
    if at < es.len() {
        assert(m.dom().insert(k) =~= m.dom());
    }
    assert(ns[at].0@ == k);
    assert forall|q: Seq<char>| #[trigger] nm.contains_key(q) implies exists|j: int|
        0 <= j < ns.len() && ns[j].0@ == q by {
        if q != k {
            let j = choose|j: int| 0 <= j < es.len() && es[j].0@ == q;
            assert(ns[j].0@ == q);
        }
    }
    assert(nm.dom().len() == ns.len());
    assert(forall|a: int, b: int| 0 <= a < b < ns.len() ==> ns[a].0@ != ns[b].0@);
    assert forall|j: int| 0 <= j < ns.len() implies #[trigger] nm.contains_key(ns[j].0@) && nm[ns[j].0@]
        == ns[j].1@ by {
        if j != at {
            assert(m.contains_key(es[j].0@));
            assert(es[j].0@ != k);
        }
    }
}

impl Headers {
    /// The entries list each key of the mapping exactly once, with its value.
    pub closed spec fn wf(&self) -> bool {
        lists(self.entries@, self.map@)
    }

    pub fn new() -> (r: Headers)
        ensures
            r.wf(),
            r@ == Map::<Seq<char>, Seq<char>>::empty(),
    {
        Headers { entries: Vec::new(), map: Ghost(Map::empty()) }
    }

    /// The position of the entry for `key`, if there is one.
    fn position(&self, key: &String) -> (r: Option<usize>)
        requires
            self.wf(),
        ensures
            match r {
                Some(i) => i < self.entries@.len() && self.entries@[i as int].0@ == key@,
                None => !self@.contains_key(key@),
            },
    {
        let mut i: usize = 0;
        while i < self.entries.len()
            invariant
                self.wf(),
                i <= self.entries@.len(),
                forall|j: int| 0 <= j < i ==> self.entries@[j].0@ != key@,
            decreases self.entries@.len() - i,
        {
            if self.entries[i].0 == *key {
                return Some(i);
            }
            i = i + 1;
        }
        None
    }

    /// Sets the value of `key`, replacing any earlier one.
    pub fn insert(&mut self, key: String, value: String)
        requires
            old(self).wf(),
        ensures
            final(self).wf(),
            final(self)@ == old(self)@.insert(key@, value@),
    {
        let ghost m0 = self.map@;
        let ghost entry = (key, value);
        match self.position(&key) {
            Some(i) => {
                proof {
                    lemma_lists_insert(self.entries@, m0, entry, i as int);
                }
                self.entries.set(i, (key, value));
            },
            None => {
                proof {
                    lemma_lists_insert(self.entries@, m0, entry, self.entries@.len() as int);
                }
                self.entries.push((key, value));
            },
        }
        self.map = Ghost(m0.insert(entry.0@, entry.1@));
    }

    /// The value stored for `key`.
    pub fn get(&self, key: &str) -> (r: Option<&String>)
        requires
            self.wf(),
        ensures
            match r {
                Some(v) => self@.contains_key(key@) && self@[key@] == v@,
                None => !self@.contains_key(key@),
            },
    {
        let k = String::from_str(key);
        match self.position(&k) {
            Some(i) => {
                assert(self.map@.contains_key(self.entries@[i as int].0@));
                Some(&self.entries[i].1)
            },
            None => None,
        }
    }

    /// The number of keys.
    pub fn len(&self) -> (r: usize)
        requires
            self.wf(),
        ensures
            r == self@.dom().len(),
    {
        self.entries.len()
    }

    pub fn is_empty(&self) -> (r: bool)
        requires
            self.wf(),
        ensures
            r == (self@.dom().len() == 0),
    {
        self.entries.len() == 0
    }
}

} // verus!
