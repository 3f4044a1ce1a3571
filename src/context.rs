//! The rendering context: a mapping from keys to string values.
use vstd::prelude::*;
use vstd::string::StringExecFns;

verus! {

/// The map that a list of pairs describes when each pair is inserted in turn.
pub open spec fn pairs_map(p: Seq<(String, String)>) -> Map<Seq<char>, Seq<char>>
    decreases p.len(),
{
    if p.len() == 0 {
        Map::empty()
    } else {
        pairs_map(p.drop_last()).insert(p.last().0@, p.last().1@)
    }
}

/// No key occurs twice in `p`.
pub open spec fn keys_distinct(p: Seq<(String, String)>) -> bool {
    forall|i: int, j: int| 0 <= i < j < p.len() ==> p[i].0@ != p[j].0@
}

/// A key/value mapping. Inserting a key that is already bound replaces its value.
#[derive(Debug)]
pub struct Context {
    pairs: Vec<(String, String)>,
}

/// With distinct keys, each stored pair is what the map holds for its key.
pub proof fn lemma_pairs_map_lookup(p: Seq<(String, String)>, i: int)
    requires
        keys_distinct(p),
        0 <= i < p.len(),
    ensures
        pairs_map(p).contains_key(p[i].0@),
        pairs_map(p)[p[i].0@] == p[i].1@,
    decreases p.len(),
{
    if i < p.len() - 1 {
        lemma_pairs_map_lookup(p.drop_last(), i);
    }
}

/// A key is bound exactly when some pair stores it.
pub proof fn lemma_pairs_map_domain(p: Seq<(String, String)>, k: Seq<char>)
    ensures
        pairs_map(p).contains_key(k) <==> exists|i: int| 0 <= i < p.len() && p[i].0@ == k,
    decreases p.len(),
{
    if p.len() > 0 {
        lemma_pairs_map_domain(p.drop_last(), k);
        if pairs_map(p.drop_last()).contains_key(k) {
            let i = choose|i: int| 0 <= i < p.drop_last().len() && p.drop_last()[i].0@ == k;
            assert(p[i].0@ == k);
        }
        if exists|i: int| 0 <= i < p.len() && p[i].0@ == k {
            let i = choose|i: int| 0 <= i < p.len() && p[i].0@ == k;
            if i < p.len() - 1 {
                assert(p.drop_last()[i].0@ == k);
            }
        }
    }
}

proof fn lemma_pairs_map_update(p: Seq<(String, String)>, i: int, x: (String, String))
    requires
        keys_distinct(p),
        0 <= i < p.len(),
        p[i].0@ == x.0@,
    ensures
        pairs_map(p.update(i, x)) == pairs_map(p).insert(x.0@, x.1@),
    decreases p.len(),
{
    let q = p.update(i, x);
    if i == p.len() - 1 {
        assert(q.drop_last() =~= p.drop_last());
        assert(pairs_map(q) =~= pairs_map(p).insert(x.0@, x.1@));
    } else {
        assert(q.drop_last() =~= p.drop_last().update(i, x));
        lemma_pairs_map_update(p.drop_last(), i, x);
        assert(p.last().0@ != x.0@);
        assert(pairs_map(q) =~= pairs_map(p).insert(x.0@, x.1@));
    }
}

impl View for Context {
    type V = Map<Seq<char>, Seq<char>>;

    closed spec fn view(&self) -> Map<Seq<char>, Seq<char>> {
        pairs_map(self.pairs@)
    }
}

impl Context {
    /// The context is well formed when no key is stored twice.
    pub closed spec fn wf(&self) -> bool {
        keys_distinct(self.pairs@)
    }

    /// The stored pairs, in order of first insertion.
    pub closed spec fn entries(&self) -> Seq<(String, String)> {
        self.pairs@
    }

    /// An empty context.
    pub fn new() -> (r: Context)
        ensures
            r.wf(),
            r@ == Map::<Seq<char>, Seq<char>>::empty(),
    {
        Context { pairs: Vec::new() }
    }

    /// Binds `key` to `value`, replacing any earlier value of `key`.
    pub fn insert(&mut self, key: String, value: String)
        requires
            old(self).wf(),
        ensures
            final(self).wf(),
            final(self)@ == old(self)@.insert(key@, value@),
    {
        let n = self.pairs.len();
        let mut i: usize = 0;
        while i < n
            invariant
                n == self.pairs@.len(),
                i <= n,
                self.pairs@ == old(self).pairs@,
                keys_distinct(self.pairs@),
                forall|j: int| 0 <= j < i ==> self.pairs@[j].0@ != key@,
            decreases n - i,
        {
            if self.pairs[i].0 == key {
                proof {
                    lemma_pairs_map_update(self.pairs@, i as int, (key, value));
                }
                self.pairs.set(i, (key, value));
                return;
            }
            i = i + 1;
        }
        let ghost before = self.pairs@;
        self.pairs.push((key, value));
        assert(self.pairs@.drop_last() =~= before);
    }

    /// The value bound to `key`, if any.
    pub fn get(&self, key: &str) -> (r: Option<String>)
        requires
            self.wf(),
        ensures
            match r {
                Some(v) => self@.contains_key(key@) && self@[key@] == v@,
                None => !self@.contains_key(key@),
            },
    {
        let wanted = String::from_str(key);
        let n = self.pairs.len();
        let mut i: usize = 0;
        while i < n
            invariant
                n == self.pairs@.len(),
                i <= n,
                wanted@ == key@,
                keys_distinct(self.pairs@),
                forall|j: int| 0 <= j < i ==> self.pairs@[j].0@ != key@,
            decreases n - i,
        {
            if self.pairs[i].0 == wanted {
                proof {
                    lemma_pairs_map_lookup(self.pairs@, i as int);
                }
                return Some(self.pairs[i].1.clone());
            }
            i = i + 1;
        }
        proof {
            lemma_pairs_map_domain(self.pairs@, key@);
        }
        None
    }

    /// The number of keys bound.
    pub fn len(&self) -> (r: usize)
        requires
            self.wf(),
        ensures
            r == self@.len(),
    {
        proof {
            lemma_pairs_map_len(self.pairs@);
        }
        self.pairs.len()
    }

    /// The stored pairs, each key once, in order of first insertion.
    pub fn pairs(&self) -> (r: &Vec<(String, String)>)
        ensures
            r@ == self.entries(),
            self.wf() ==> keys_distinct(r@) && pairs_map(r@) == self@,
    {
        &self.pairs
    }
}

proof fn lemma_pairs_map_len(p: Seq<(String, String)>)
    requires
        keys_distinct(p),
    ensures
        pairs_map(p).len() == p.len(),
        pairs_map(p).dom().finite(),
    decreases p.len(),
{
    if p.len() > 0 {
        lemma_pairs_map_len(p.drop_last());
        lemma_pairs_map_domain(p.drop_last(), p.last().0@);
        if pairs_map(p.drop_last()).contains_key(p.last().0@) {
            let i = choose|i: int| 0 <= i < p.drop_last().len() && p.drop_last()[i].0@ == p.last().0@;
            assert(p[i].0@ == p[p.len() - 1].0@);
        }
    }
}

} // verus!
