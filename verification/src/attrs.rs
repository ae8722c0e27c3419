//! Attribute maps: name/value pairs captured from an opening tag, with
//! unique keys and insertion order preserved.

use vstd::prelude::*;
use vstd::string::StringExecFns;

verus! {

/// The mathematical model of an attribute map: the name/value pairs in
/// insertion order.
pub type AttrsView = Seq<(Seq<char>, Seq<char>)>;

/// The value bound to `k` in `ps`, looking pairs up front to back.
pub open spec fn attrs_get(ps: AttrsView, k: Seq<char>) -> Option<Seq<char>>
    decreases ps.len(),
{
    if ps.len() == 0 {
        None
    } else if ps[0].0 == k {
        Some(ps[0].1)
    } else {
        attrs_get(ps.drop_first(), k)
    }
}

/// `ps` with `k` bound to `v`: the existing binding of `k` is replaced in
/// place, or the pair is appended if `k` is absent.
pub open spec fn attrs_upsert(ps: AttrsView, k: Seq<char>, v: Seq<char>) -> AttrsView
    decreases ps.len(),
{
    if ps.len() == 0 {
        seq![(k, v)]
    } else if ps[0].0 == k {
        seq![(k, v)] + ps.drop_first()
    } else {
        seq![ps[0]] + attrs_upsert(ps.drop_first(), k, v)
    }
}

/// No two pairs share a key.
pub open spec fn attrs_wf(ps: AttrsView) -> bool {
    forall|i: int, j: int| 0 <= i < j < ps.len() ==> ps[i].0 != ps[j].0
}

/// If the first `i` keys differ from `k` and the key at `i` equals `k`, the
/// lookup returns the value at `i`.
pub proof fn lemma_attrs_get_found(ps: AttrsView, k: Seq<char>, i: int)
    requires
        0 <= i < ps.len(),
        ps[i].0 == k,
        forall|m: int| 0 <= m < i ==> ps[m].0 != k,
    ensures
        attrs_get(ps, k) == Some(ps[i].1),
    decreases ps.len(),
{
    if i > 0 {
        lemma_attrs_get_found(ps.drop_first(), k, i - 1);
    }
}

/// If no key equals `k`, the lookup returns `None`.
pub proof fn lemma_attrs_get_absent(ps: AttrsView, k: Seq<char>)
    requires
        forall|m: int| 0 <= m < ps.len() ==> ps[m].0 != k,
    ensures
        attrs_get(ps, k) is None,
    decreases ps.len(),
{
    if ps.len() > 0 {
        lemma_attrs_get_absent(ps.drop_first(), k);
    }
}

/// When `k` first occurs at position `i`, upserting rewrites that position.
pub proof fn lemma_attrs_upsert_found(ps: AttrsView, k: Seq<char>, v: Seq<char>, i: int)
    requires
        0 <= i < ps.len(),
        ps[i].0 == k,
        forall|m: int| 0 <= m < i ==> ps[m].0 != k,
    ensures
        attrs_upsert(ps, k, v) =~= ps.update(i, (k, v)),
    decreases ps.len(),
{
    if i > 0 {
        lemma_attrs_upsert_found(ps.drop_first(), k, v, i - 1);
        assert(attrs_upsert(ps, k, v) =~= seq![ps[0]] + ps.drop_first().update(i - 1, (k, v)));
    }
}

/// When `k` does not occur, upserting appends the pair.
pub proof fn lemma_attrs_upsert_absent(ps: AttrsView, k: Seq<char>, v: Seq<char>)
    requires
        forall|m: int| 0 <= m < ps.len() ==> ps[m].0 != k,
    ensures
        attrs_upsert(ps, k, v) =~= ps.push((k, v)),
    decreases ps.len(),
{
    if ps.len() > 0 {
        lemma_attrs_upsert_absent(ps.drop_first(), k, v);
        assert(attrs_upsert(ps, k, v) =~= seq![ps[0]] + ps.drop_first().push((k, v)));
    }
}

/// An attribute map: names to values, unique names, insertion order kept.
#[derive(Debug, PartialEq)]
pub struct AttrMap {
    pairs: Vec<(String, String)>,
}

impl View for AttrMap {
    type V = AttrsView;

    closed spec fn view(&self) -> AttrsView {
        self.pairs@.map_values(|p: (String, String)| (p.0@, p.1@))
    }
}

impl AttrMap {
    /// Unique keys, an invariant every constructor establishes and `insert`
    /// preserves.
    pub open spec fn wf(&self) -> bool {
        attrs_wf(self@)
    }

    /// The empty attribute map.
    pub fn new() -> (m: AttrMap)
        ensures
            m@ =~= Seq::<(Seq<char>, Seq<char>)>::empty(),
            m.wf(),
    {
        let m = AttrMap { pairs: Vec::new() };
        proof {
            assert(m@ =~= Seq::<(Seq<char>, Seq<char>)>::empty());
        }
        m
    }

    /// How many attributes the map holds.
    pub fn len(&self) -> (n: usize)
        ensures
            n == self@.len(),
    {
        self.pairs.len()
    }

    /// Whether the map holds no attribute.
    pub fn is_empty(&self) -> (r: bool)
        ensures
            r == (self@.len() == 0),
    {
        self.pairs.is_empty()
    }

    /// Binds `k` to `v`, replacing any existing binding of `k`.
    pub fn insert(&mut self, k: String, v: String)
        requires
            old(self).wf(),
        ensures
            final(self)@ =~= attrs_upsert(old(self)@, k@, v@),
            final(self).wf(),
    {
        let n: usize = self.pairs.len();
        let mut i: usize = 0;
        while i < n
            invariant
                0 <= i <= n,
                n == self.pairs@.len(),
                attrs_wf(self@),
                self == old(self),
                forall|m: int| 0 <= m < i ==> self@[m].0 != k@,
            decreases n - i,
        {
            if self.pairs[i].0 == k {
                proof {
                    lemma_attrs_upsert_found(self@, k@, v@, i as int);
                }
                self.pairs.remove(i);
                self.pairs.insert(i, (k, v));
                proof {
                    assert(self@ =~= attrs_upsert(old(self)@, k@, v@));
                    assert(self@ =~= old(self)@.update(i as int, (k@, v@)));
                    assert forall|a: int, b: int|
                        0 <= a < b < self@.len() implies self@[a].0 != self@[b].0 by {
                        assert(old(self)@[i as int].0 == k@);
                        assert(old(self)@[a].0 != old(self)@[b].0);
                    }
                }
                return ;
            }
            i = i + 1;
        }
        proof {
            lemma_attrs_upsert_absent(self@, k@, v@);
        }
        self.pairs.push((k, v));
        proof {
            assert(self@ =~= attrs_upsert(old(self)@, k@, v@));
        }
    }

    /// Looks `k` up; `Some` exactly when the model binds `k`, with the bound
    /// value.
    pub fn get(&self, k: &str) -> (r: Option<&String>)
        ensures
            match r {
                Some(v) => attrs_get(self@, k@) == Some(v@),
                None => attrs_get(self@, k@) is None,
            },
    {
        let key: String = String::from_str(k);
        let n: usize = self.pairs.len();
        let mut i: usize = 0;
        while i < n
            invariant
                0 <= i <= n,
                n == self.pairs@.len(),
                key@ == k@,
                forall|m: int| 0 <= m < i ==> self@[m].0 != k@,
            decreases n - i,
        {
            if self.pairs[i].0 == key {
                proof {
                    lemma_attrs_get_found(self@, k@, i as int);
                }
                return Some(&self.pairs[i].1);
            }
            i = i + 1;
        }
        proof {
            lemma_attrs_get_absent(self@, k@);
        }
        None
    }
}

} // verus!
