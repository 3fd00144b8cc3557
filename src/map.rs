use std::collections::HashMap;
use std::hash::Hash;

use vstd::prelude::*;
use vstd::relations::injective;
use vstd::std_specs::iter::IteratorSpec;
use vstd::std_specs::hash::{
    group_hash_axioms, into_iter, lemma_hashmap_deepview_dom, lemma_hashmap_deepview_properties,
    obeys_key_model, spec_hash_map_iter,
};

use crate::composite::{
    items_err_taken, items_read, items_write, lemma_items_read_len, lemma_items_round_trip, lemma_items_write_err,
    lemma_items_write_push,
};
use crate::error::PacketError;
use crate::io::{Codec, Readable, Writable};
use crate::reader::Reader;
use crate::varint::{var_bytes, VarInt};

verus! {

broadcast use group_hash_axioms;

/// The entries of `m` in the order in which its iterator yields them.
pub open spec fn map_entries<K, V>(m: &HashMap<K, V>) -> Seq<(K, V)> {
    into_iter(spec_hash_map_iter(m))
}

/// `es` holds each entry of `m` exactly once.
pub open spec fn lists<K, V>(m: Map<K, V>, es: Seq<(K, V)>) -> bool {
    &&& forall|i: int|
        0 <= i < es.len() ==> m.contains_key(#[trigger] es[i].0) && m[es[i].0] == es[i].1
    &&& forall|i: int, j: int| 0 <= i < j < es.len() ==> #[trigger] es[i].0 != #[trigger] es[j].0
    &&& forall|k: K| #[trigger] m.contains_key(k) ==> exists|i: int| 0 <= i < es.len() && es[i].0 == k
}

/// The map that inserting the pairs of `ps` in order gives.
pub open spec fn pairs_map<A, B>(ps: Seq<(A, B)>) -> Map<A, B>
    decreases ps.len(),
{
    if ps.len() == 0 {
        Map::empty()
    } else {
        pairs_map(ps.drop_last()).insert(ps.last().0, ps.last().1)
    }
}

proof fn lemma_pairs_map<A, B>(ps: Seq<(A, B)>)
    requires
        forall|i: int, j: int| 0 <= i < j < ps.len() ==> #[trigger] ps[i].0 != #[trigger] ps[j].0,
    ensures
        forall|d: A| #[trigger]
            pairs_map(ps).contains_key(d) <==> exists|i: int| 0 <= i < ps.len() && ps[i].0 == d,
        forall|i: int| 0 <= i < ps.len() ==> pairs_map(ps)[#[trigger] ps[i].0] == ps[i].1,
    decreases ps.len(),
{
    if ps.len() > 0 {
        let q = ps.drop_last();
        lemma_pairs_map(q);
        assert forall|d: A| #[trigger]
            pairs_map(ps).contains_key(d) <==> exists|i: int| 0 <= i < ps.len() && ps[i].0 == d by {
            assert(pairs_map(ps) == pairs_map(q).insert(ps.last().0, ps.last().1));
            if pairs_map(ps).contains_key(d) && d != ps.last().0 {
                assert(pairs_map(q).contains_key(d));
                let i = choose|i: int| 0 <= i < q.len() && q[i].0 == d;
                assert(ps[i].0 == d);
            }
            if exists|i: int| 0 <= i < ps.len() && ps[i].0 == d {
                let i = choose|i: int| 0 <= i < ps.len() && ps[i].0 == d;
                if i < q.len() {
                    assert(q[i].0 == d);
                    assert(pairs_map(q).contains_key(d));
                }
            }
        }
        assert forall|i: int| 0 <= i < ps.len() implies pairs_map(ps)[#[trigger] ps[i].0]
            == ps[i].1 by {
            assert(pairs_map(ps) == pairs_map(q).insert(ps.last().0, ps.last().1));
            if i < q.len() {
                assert(q[i] == ps[i]);
                assert(ps[i].0 != ps[ps.len() - 1].0);
            }
        }
    }
}

proof fn lemma_deep_view_insert<K: DeepView, V: DeepView>(
    m: HashMap<K, V>,
    m2: HashMap<K, V>,
    k: K,
    v: V,
)
    requires
        injective(|x: K| x.deep_view()),
        m2@ == m@.insert(k, v),
    ensures
        m2.deep_view() == m.deep_view().insert(k.deep_view(), v.deep_view()),
{
    lemma_hashmap_deepview_properties(m);
    lemma_hashmap_deepview_properties(m2);
    let lhs = m2.deep_view();
    let rhs = m.deep_view().insert(k.deep_view(), v.deep_view());
    assert forall|x: K, y: K| #[trigger] x.deep_view() == #[trigger] y.deep_view() implies x == y by {
        let f = |x: K| x.deep_view();
        assert(f(x) == f(y));
    }
    assert forall|dk: K::V| #[trigger] lhs.contains_key(dk) <==> rhs.contains_key(dk) by {
        if lhs.contains_key(dk) {
            let k2 = choose|k2: K| k2.deep_view() == dk && #[trigger] m2@.contains_key(k2);
            if k2 != k {
                assert(m@.contains_key(k2));
            }
        }
        if rhs.contains_key(dk) && dk == k.deep_view() {
            assert(m2@.contains_key(k));
        }
        if rhs.contains_key(dk) && dk != k.deep_view() {
            let k2 = choose|k2: K| k2.deep_view() == dk && #[trigger] m@.contains_key(k2);
            assert(m2@.contains_key(k2));
        }
    }
    assert forall|dk: K::V| #[trigger] lhs.contains_key(dk) implies lhs[dk] == rhs[dk] by {
        let k2 = choose|k2: K| k2.deep_view() == dk && #[trigger] m2@.contains_key(k2);
        if k2 != k {
            assert(m@.contains_key(k2));
        }
    }
    assert(lhs =~= rhs);
}

/// The iteration of `m` yields each of its entries exactly once: a write of a
/// map never takes the first branch of its encoding.
pub fn entries_listed<K: Eq + Hash, V>(m: &HashMap<K, V>)
    requires
        obeys_key_model::<K>(),
    ensures
        lists(m@, map_entries(m)),
{
    let ghost es = map_entries(m);
    let _entries = m.iter();
    proof {
        let v = spec_hash_map_iter(m).remaining();
        assert(es == v.unref());
        assert forall|i: int| 0 <= i < es.len() implies m@.contains_key(
            #[trigger] es[i].0,
        ) && m@[es[i].0] == es[i].1 by {
            assert(es[i] == (*v[i].0, *v[i].1));
            assert(m@.contains_key(*v[i].0));
        }
        assert forall|i: int, j: int| 0 <= i < j < es.len() implies #[trigger] es[i].0
            != #[trigger] es[j].0 by {
            if es[i].0 == es[j].0 {
                assert(m@.contains_key(*v[i].0));
                assert(m@.contains_key(*v[j].0));
                assert(es[i] == es[j]);
                assert(v[i] == v[j]);
            }
        }
        assert forall|k: K| #[trigger] m@.contains_key(k) implies exists|i: int|
            0 <= i < es.len() && es[i].0 == k by {
            assert(v.contains((&k, &m@[k])));
            let i = choose|i: int| 0 <= i < v.len() && v[i] == (&k, &m@[k]);
            assert(es[i].0 == k);
        }
    }
}

impl<K: Writable + Eq + Hash, V: Writable> Writable for HashMap<K, V> {
    /// The number of entries as a `VarInt`, then each key and its value, in the
    /// order of iteration. (The iteration always yields each entry once: the
    /// first branch is never taken.)
    open spec fn spec_write(&self) -> Result<Seq<u8>, PacketError> {
        let es = map_entries(self);
        if !lists(self@, es) {
            Err(PacketError::IO)
        } else if es.len() > u32::MAX {
            Err(PacketError::LengthOverflow(es.len() as usize))
        } else {
            match items_write(es) {
                Ok(b) => Ok(var_bytes(es.len()) + b),
                Err(e) => Err(e),
            }
        }
    }

    open spec fn write_ready(&self) -> bool {
        &&& obeys_key_model::<K>()
        &&& forall|k: K| #[trigger]
            self@.contains_key(k) ==> k.write_ready() && self@[k].write_ready()
    }

    fn write(&self, o: &mut Vec<u8>) -> (r: Result<(), PacketError>) {
        let ghost es = map_entries(self);
        entries_listed(self);
        let iter = self.iter();
        proof {
            assert(es == spec_hash_map_iter(self).remaining().unref());
        }
        let len = self.len();
        if len > u32::MAX as usize {
            return Err(PacketError::LengthOverflow(len));
        }
        let start = o.len();
        let _ = VarInt(len as u32).write(o);
        let ghost head = o@;
        proof {
            assert(es.take(0) =~= Seq::<(K, V)>::empty());
            assert(head =~= head + Seq::<u8>::empty());
        }
        for (key, value) in it: iter
            invariant
                self.write_ready(),
                es == map_entries(self),
                lists(self@, es),
                es == it.seq().unref(),
                es.len() == len,
                len <= u32::MAX,
                start == old(o)@.len(),
                head == old(o)@ + var_bytes(len as nat),
                items_write(es.take(it.index())) is Ok,
                o@ == head + items_write(es.take(it.index()))->Ok_0,
        {
            let ghost k = it.index();
            proof {
                lemma_items_write_push(es, k as nat);
                assert(es[k] == (*key, *value));
            }
            match key.write(o) {
                Ok(()) => {},
                Err(e) => {
                    proof {
                        lemma_items_write_err(es, (k + 1) as nat);
                    }
                    o.truncate(start);
                    assert(o@ =~= old(o)@);
                    return Err(e);
                },
            }
            match value.write(o) {
                Ok(()) => {},
                Err(e) => {
                    proof {
                        lemma_items_write_err(es, (k + 1) as nat);
                    }
                    o.truncate(start);
                    assert(o@ =~= old(o)@);
                    return Err(e);
                },
            }
            assert(o@ =~= head + items_write(es.take(k + 1))->Ok_0);
        }
        assert(es.take(len as int) =~= es);
        Ok(())
    }
}

impl<K: Readable + Eq + Hash, V: Readable> Readable for HashMap<K, V> {
    /// The number of entries as a `VarInt`, then each key and its value; a
    /// later entry with the same key replaces an earlier one, and an entry that
    /// fails is named by its index.
    open spec fn spec_read(s: Seq<u8>) -> Result<(Map<K::V, V::V>, nat), PacketError> {
        match VarInt::spec_read(s) {
            Err(e) => Err(e),
            Ok((c, n)) => match items_read::<(K, V)>(s.skip(n as int), c.0 as nat, 0) {
                Ok((ps, m)) => Ok((pairs_map(ps), n + m)),
                Err(e) => Err(e),
            },
        }
    }

    open spec fn spec_err_taken(s: Seq<u8>) -> nat {
        match VarInt::spec_read(s) {
            Err(_) => VarInt::spec_err_taken(s),
            Ok((c, n)) => n + items_err_taken::<(K, V)>(s.skip(n as int), c.0 as nat),
        }
    }

    open spec fn read_ready() -> bool {
        &&& obeys_key_model::<K>()
        &&& injective(|k: K| k.deep_view())
        &&& K::read_ready()
        &&& V::read_ready()
    }

    proof fn lemma_read_len(s: Seq<u8>) {
        VarInt::lemma_read_len(s);
        if let Ok((c, n)) = VarInt::spec_read(s) {
            lemma_items_read_len::<(K, V)>(s.skip(n as int), c.0 as nat, 0);
        }
    }

    fn read(i: &mut Reader) -> (r: Result<HashMap<K, V>, PacketError>) {
        let ghost s = i@;
        let length = match VarInt::read(i) {
            Ok(v) => v.0 as usize,
            Err(e) => return Err(e),
        };
        let ghost n = (s.len() - i@.len()) as nat;
        let ghost s0 = i@;
        let mut out: HashMap<K, V> = HashMap::new();
        let ghost mut done: Seq<(K::V, V::V)> = Seq::empty();
        let mut k: usize = 0;
        proof {
            assert(s0 =~= s.skip(n as int));
            assert(s0.skip(0) =~= s0);
            match items_read::<(K, V)>(s0, length as nat, 0) {
                Ok((vs, m)) => {
                    assert(Seq::<(K::V, V::V)>::empty() + vs =~= vs);
                },
                Err(e) => {},
            }
            lemma_hashmap_deepview_dom(out);
            assert(out.deep_view() =~= Map::<K::V, V::V>::empty());
        }
        while k < length
            invariant
                Self::read_ready(),
                s == old(i)@,
                VarInt::spec_read(s) == Ok::<(VarInt, nat), PacketError>((VarInt(length as u32), n)),
                length <= u32::MAX,
                k <= length,
                s0 == s.skip(n as int),
                n <= s.len(),
                s0.len() >= i@.len(),
                i@ == s0.skip(s0.len() - i@.len()),
                out.deep_view() == pairs_map(done),
                items_read::<(K, V)>(s0, length as nat, 0) == match items_read::<(K, V)>(
                    i@,
                    (length - k) as nat,
                    k as nat,
                ) {
                    Ok((vs, m)) => Ok((done + vs, ((s0.len() - i@.len()) + m) as nat)),
                    Err(e) => Err::<(Seq<(K::V, V::V)>, nat), PacketError>(e),
                },
                items_err_taken::<(K, V)>(s0, length as nat) == (s0.len() - i@.len())
                    + items_err_taken::<(K, V)>(i@, (length - k) as nat),
            decreases length - k,
        {
            let ghost cur = i@;
            let key = match K::read(i) {
                Ok(x) => x,
                Err(e) => {
                    proof {
                        K::lemma_read_len(cur);
                        let t = K::spec_err_taken(cur);
                        assert(s0.skip(s0.len() - cur.len()).skip(t as int) =~= s.skip(
                            (n + (s0.len() - cur.len()) + t) as int,
                        ));
                    }
                    return Err(PacketError::ElementFailed(k, Box::new(e)));
                },
            };
            let value = match V::read(i) {
                Ok(x) => x,
                Err(e) => {
                    proof {
                        let n1 = K::spec_read(cur)->Ok_0.1;
                        K::lemma_read_len(cur);
                        V::lemma_read_len(cur.skip(n1 as int));
                        let t = V::spec_err_taken(cur.skip(n1 as int));
                        assert(s0.skip(s0.len() - cur.len()).skip(n1 as int).skip(t as int)
                            =~= s.skip((n + (s0.len() - cur.len()) + n1 + t) as int));
                    }
                    return Err(PacketError::ElementFailed(k, Box::new(e)));
                },
            };
            let ghost p = (key.deep_view(), value.deep_view());
            proof {
                let n1 = <(K, V)>::spec_read(cur)->Ok_0.1;
                assert(<(K, V)>::spec_read(cur)->Ok_0.0 == p);
                assert(cur.skip(n1 as int) =~= i@);
                assert(i@ =~= s0.skip(s0.len() - i@.len()));
                match items_read::<(K, V)>(i@, (length - k - 1) as nat, (k + 1) as nat) {
                    Ok((vs, m)) => {
                        assert(done + (seq![p] + vs) =~= done.push(p) + vs);
                    },
                    Err(e) => {},
                }
            }
            let ghost before = out;
            let ghost kg = key;
            let ghost vg = value;
            out.insert(key, value);
            proof {
                lemma_deep_view_insert(before, out, kg, vg);
                assert(done.push(p).drop_last() =~= done);
                done = done.push(p);
            }
            k = k + 1;
        }
        proof {
            assert(done + Seq::<(K::V, V::V)>::empty() =~= done);
        }
        Ok(out)
    }
}

impl<K: Codec + Eq + Hash, V: Codec> Codec for HashMap<K, V> {
    open spec fn round_trip_ready(&self) -> bool {
        &&& obeys_key_model::<K>()
        &&& injective(|k: K| k.deep_view())
        &&& forall|k: K| #[trigger]
            self@.contains_key(k) ==> k.round_trip_ready() && self@[k].round_trip_ready()
    }

    proof fn lemma_round_trip(v: &HashMap<K, V>, rest: Seq<u8>) {
        let es = map_entries(v);
        let len = es.len();
        let b = items_write(es)->Ok_0;
        assert forall|i: int| 0 <= i < es.len() implies #[trigger] es[i].round_trip_ready() by {
            assert(v@.contains_key(es[i].0));
        }
        VarInt::lemma_round_trip(&VarInt(len as u32), b + rest);
        lemma_items_round_trip(es, rest, 0);
        let all = var_bytes(len) + b + rest;
        assert(all =~= var_bytes(len) + (b + rest));
        assert(all.skip(var_bytes(len).len() as int) =~= b + rest);
        let ps = Seq::new(es.len(), |i: int| es[i].deep_view());
        assert forall|x: K, y: K| #[trigger] x.deep_view() == #[trigger] y.deep_view() implies x
            == y by {
            let f = |x: K| x.deep_view();
            assert(f(x) == f(y));
        }
        assert forall|i: int, j: int| 0 <= i < j < ps.len() implies #[trigger] ps[i].0
            != #[trigger] ps[j].0 by {
            assert(es[i].0 != es[j].0);
        }
        lemma_pairs_map(ps);
        lemma_hashmap_deepview_properties(*v);
        let lhs = pairs_map(ps);
        let rhs = v.deep_view();
        assert forall|d: K::V| #[trigger] lhs.contains_key(d) <==> rhs.contains_key(d) by {
            if lhs.contains_key(d) {
                let i = choose|i: int| 0 <= i < ps.len() && ps[i].0 == d;
                assert(v@.contains_key(es[i].0));
            }
            if rhs.contains_key(d) {
                let k = choose|k: K| k.deep_view() == d && #[trigger] v@.contains_key(k);
                let i = choose|i: int| 0 <= i < es.len() && es[i].0 == k;
                assert(ps[i].0 == d);
            }
        }
        assert forall|d: K::V| #[trigger] lhs.contains_key(d) implies lhs[d] == rhs[d] by {
            let i = choose|i: int| 0 <= i < ps.len() && ps[i].0 == d;
            assert(lhs[ps[i].0] == ps[i].1);
            assert(v@.contains_key(es[i].0));
        }
        assert(lhs =~= rhs);
    }
}

} // verus!
