//! Byte-wise key order, and the map frame kept sorted by it.
use vstd::prelude::*;
use crate::frame::{
    bytes_lt, frame_model, lemma_pairs_model, pairs_model, str_bytes, Frame, RespFrame, RespMap,
    RespSimpleString,
};
use crate::grammar::{lower_bound, map_insert};

verus! {

pub proof fn lemma_bytes_lt_irreflexive(a: Seq<u8>)
    ensures
        !bytes_lt(a, a),
    decreases a.len(),
{
    if a.len() > 0 {
        lemma_bytes_lt_irreflexive(a.drop_first());
    }
}

/// Of two different byte sequences, one comes before the other.
pub proof fn lemma_bytes_lt_total(a: Seq<u8>, b: Seq<u8>)
    requires
        a != b,
    ensures
        bytes_lt(a, b) || bytes_lt(b, a),
    decreases a.len(),
{
    if a.len() > 0 && b.len() > 0 && a[0] == b[0] {
        if a.drop_first() == b.drop_first() {
            assert(a =~= seq![a[0]] + a.drop_first());
            assert(b =~= seq![b[0]] + b.drop_first());
        }
        lemma_bytes_lt_total(a.drop_first(), b.drop_first());
    } else if a.len() == 0 && b.len() == 0 {
        assert(a =~= b);
    }
}

pub proof fn lemma_bytes_lt_transitive(a: Seq<u8>, b: Seq<u8>, c: Seq<u8>)
    requires
        bytes_lt(a, b),
        bytes_lt(b, c),
    ensures
        bytes_lt(a, c),
    decreases a.len(),
{
    if a.len() > 0 && b.len() > 0 && c.len() > 0 && a[0] == b[0] && b[0] == c[0] {
        lemma_bytes_lt_transitive(a.drop_first(), b.drop_first(), c.drop_first());
    }
}

/// Whether `a` comes before `b` in byte-wise lexicographic order.
pub fn bytes_less(a: &[u8], b: &[u8]) -> (r: bool)
    ensures
        r == bytes_lt(a@, b@),
{
    let mut i: usize = 0;
    assert(a@.skip(0) =~= a@ && b@.skip(0) =~= b@);
    while i < a.len() && i < b.len() && a[i] == b[i]
        invariant
            i <= a@.len(),
            i <= b@.len(),
            bytes_lt(a@, b@) == bytes_lt(a@.skip(i as int), b@.skip(i as int)),
        decreases a@.len() - i,
    {
        proof {
            assert(a@.skip(i as int).drop_first() =~= a@.skip(i + 1));
            assert(b@.skip(i as int).drop_first() =~= b@.skip(i + 1));
        }
        i = i + 1;
    }
    if i == a.len() {
        i < b.len()
    } else if i == b.len() {
        false
    } else {
        a[i] < b[i]
    }
}

/// Whether the two byte sequences are equal.
pub fn bytes_equal(a: &[u8], b: &[u8]) -> (r: bool)
    ensures
        r == (a@ == b@),
{
    if a.len() != b.len() {
        return false;
    }
    let mut i: usize = 0;
    while i < a.len()
        invariant
            i <= a@.len(),
            a@.len() == b@.len(),
            forall|j: int| 0 <= j < i ==> a@[j] == b@[j],
        decreases a@.len() - i,
    {
        if a[i] != b[i] {
            return false;
        }
        i = i + 1;
    }
    assert(a@ =~= b@);
    true
}

impl RespMap {
    /// An empty map.
    pub fn new() -> (r: RespMap)
        ensures
            r.entries() == Seq::<(Seq<u8>, Frame)>::empty(),
    {
        let v: Vec<(RespSimpleString, RespFrame)> = Vec::new();
        proof {
            lemma_pairs_model(v@);
        }
        RespMap(v)
    }

    /// Sets `key` to `value`, keeping the keys in increasing order.
    pub fn insert(&mut self, key: RespSimpleString, value: RespFrame)
        ensures
            final(self).entries() == map_insert(old(self).entries(), str_bytes(key.0), value@),
    {
        proof {
            use_type_invariant(&*self);
        }
        let mut v: Vec<(RespSimpleString, RespFrame)> = Vec::new();
        proof {
            lemma_pairs_model(v@);
        }
        std::mem::swap(&mut self.0, &mut v);
        let ghost pm = pairs_model(v@);
        let ghost k = str_bytes(key.0);
        proof {
            lemma_pairs_model(v@);
            assert(pm.skip(0) =~= pm);
        }
        let mut i: usize = 0;
        while i < v.len() && bytes_less(v[i].0.0.as_str().as_bytes(), key.0.as_str().as_bytes())
            invariant
                i <= v@.len(),
                pm == pairs_model(v@),
                pm.len() == v@.len(),
                k == str_bytes(key.0),
                forall|j: int| 0 <= j < v@.len() ==> #[trigger] pm[j] == (str_bytes(v@[j].0.0), frame_model(v@[j].1)),
                forall|a: int| 0 <= a < i ==> bytes_lt(#[trigger] pm[a].0, k),
                lower_bound(pm, k) == i + lower_bound(pm.skip(i as int), k),
            decreases v@.len() - i,
        {
            proof {
                assert(pm.skip(i as int).drop_first() =~= pm.skip(i + 1));
            }
            i = i + 1;
        }
        proof {
            if i == v@.len() {
                assert(pm.skip(i as int).len() == 0);
            }
        }
        let same = i < v.len() && bytes_equal(v[i].0.0.as_str().as_bytes(), key.0.as_str().as_bytes());
        let ghost entry = (k, value@);
        if same {
            v.set(i, (key, value));
            proof {
                lemma_pairs_model(v@);
                assert(pairs_model(v@) =~= pm.update(i as int, entry));
                assert forall|x: int, y: int| 0 <= x < y < pm.len() implies bytes_lt(
                    #[trigger] pairs_model(v@)[x].0,
                    #[trigger] pairs_model(v@)[y].0,
                ) by {
                    assert(pm[x].0 == pairs_model(v@)[x].0 && pm[y].0 == pairs_model(v@)[y].0);
                }
            }
        } else {
            v.insert(i, (key, value));
            proof {
                lemma_pairs_model(v@);
                let nm = pm.insert(i as int, entry);
                assert(pairs_model(v@) =~= nm);
                assert forall|a: int| i <= a < pm.len() implies bytes_lt(k, #[trigger] pm[a].0) by {
                    assert(pm[i as int].0 != k);
                    lemma_bytes_lt_total(pm[i as int].0, k);
                    if a > i {
                        lemma_bytes_lt_transitive(k, pm[i as int].0, pm[a].0);
                    }
                }
                assert forall|x: int, y: int| 0 <= x < y < nm.len() implies bytes_lt(
                    (#[trigger] nm[x]).0,
                    (#[trigger] nm[y]).0,
                ) by {
                    if y < i {
                    } else if y == i {
                    } else if x < i {
                        assert(nm[y] == pm[y - 1]);
                        lemma_bytes_lt_transitive(nm[x].0, k, nm[y].0);
                    } else if x == i {
                        assert(nm[y] == pm[y - 1]);
                    } else {
                        assert(nm[x] == pm[x - 1] && nm[y] == pm[y - 1]);
                    }
                }
            }
        }
        *self = RespMap(v);
    }
}

} // verus!
