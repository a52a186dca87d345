//! Sets and maps on the wire. They follow the unbounded-vector discipline —
//! payload entries first, a reversed variable-length count last — but a hash
//! table yields its entries in no fixed order, so two encodings of one value
//! may differ byte for byte. What decoding yields is nevertheless pinned:
//! the same set, or the same map, that was encoded.
//!
//! These codecs stand outside the [`Convert`] trait, whose encoding is a
//! function of the value; a hash table's is not.
use core::hash::Hash;
use std::collections::{HashMap, HashSet};
use vstd::prelude::*;

use crate::codec::{CodecError, Convert};
use crate::iters::{deep_elems, enc_elems_rev};
use crate::varint::{varint_enc, VarInt};
use vstd::std_specs::hash::{obeys_key_model, spec_hash_keys_iter, spec_hash_map_iter};
use vstd::std_specs::iter::IteratorSpec;

verus! {

broadcast use vstd::std_specs::hash::group_hash_axioms;

/// Appends a set's encoding: each element once, in whatever order the table
/// yields them, then the element count as a reversed tag; at most `u32::MAX`
/// elements are encoded. The order below is existential: callers learn only
/// that some such order was used.
pub fn hash_set_to_bytes<T: Convert + Eq + Hash>(s: &HashSet<T>, tx: &mut Vec<u8>)
    requires
        obeys_key_model::<T>(),
    ensures
        exists|order: Seq<T>|
            {
                &&& order.len() == if s@.len() <= 0xFFFF_FFFF {
                    s@.len() as int
                } else {
                    0xFFFF_FFFF
                }
                &&& (forall|i: int| 0 <= i < order.len() ==> s@.contains(#[trigger] order[i]))
                &&& (s@.len() <= 0xFFFF_FFFF ==> (forall|x: T|
                    s@.contains(x) ==> #[trigger] order.contains(x)))
                &&& final (tx)@ == old(tx)@ + enc_elems_rev(order) + varint_enc(
                    order.len() as u32,
                ).reverse()
            },
{
    let ghost orig = tx@;
    let ghost full = spec_hash_keys_iter(s).remaining().unref();
    let mut count: u32 = 0;
    for x in it: s.iter()
        invariant
            obeys_key_model::<T>(),
            it.seq() == spec_hash_keys_iter(s).remaining(),
            full == it.seq().unref(),
            full.to_set() == s@,
            full.len() == s@.len(),
            it.index() <= full.len(),
            count == if it.index() <= 0xFFFF_FFFF {
                it.index() as int
            } else {
                0xFFFF_FFFF
            },
            tx@ == orig + enc_elems_rev(full.take(count as int).reverse()),
    {
        if count < 0xFFFF_FFFFu32 {
            x.to_bytes(tx);
            proof {
                assert(*x == full[it.index() as int]);
                assert(full.take(count + 1).reverse() =~= seq![full[count as int]] + full.take(
                    count as int,
                ).reverse());
                assert(full.take(count + 1).reverse().drop_first() =~= full.take(
                    count as int,
                ).reverse());
                assert(full.take(count + 1).reverse()[0] == full[count as int]);
                assert(enc_elems_rev(full.take(count + 1).reverse()) == enc_elems_rev(
                    full.take(count as int).reverse(),
                ) + full[count as int].enc());
                assert(orig + enc_elems_rev(full.take(count as int).reverse()) + full[
                    count as int].enc() =~= orig + (enc_elems_rev(full.take(count as int).reverse())
                    + full[count as int].enc()));
            }
            count = count + 1;
        }
    }
    let ghost order = full.take(count as int).reverse();
    proof {
        assert forall|i: int| 0 <= i < order.len() implies s@.contains(#[trigger] order[i]) by {
            assert(order[i] == full[count - 1 - i]);
            assert(full.to_set().contains(full[count - 1 - i]));
        }
        if s@.len() <= 0xFFFF_FFFF {
            assert forall|x: T| s@.contains(x) implies #[trigger] order.contains(x) by {
                assert(full.to_set().contains(x));
                let i = choose|i: int| 0 <= i < full.len() && full[i] == x;
                assert(order[count - 1 - i] == full[i]);
            }
        }
    }
    let tag = VarInt(count);
    tag.to_bytes(tx);
    proof {
        assert(orig + enc_elems_rev(order) + varint_enc(count).reverse() =~= tx@);
    }
}

/// Decodes a set: the count comes off the tail, then that many elements,
/// which form the set. The models of the decoded elements are exactly the
/// models the vector codec would read, gathered as a set.
pub fn hash_set_from_bytes<T: Convert + Eq + Hash>(rx: &mut Vec<u8>) -> (r: Result<
    HashSet<T>,
    CodecError,
>)
    requires
        obeys_key_model::<T>(),
    ensures
        match Vec::<T>::dec(old(rx)@) {
            Ok((models, n)) => {
                &&& r is Ok
                &&& r->Ok_0.deep_view() == models.to_set()
                &&& n <= old(rx)@.len()
                &&& final (rx)@ == old(rx)@.take(old(rx)@.len() - n)
            },
            Err(e) => r is Err && r->Err_0 == e,
        },
{
    let mut v: Vec<T> = match Vec::<T>::from_bytes(rx) {
        Ok(v) => v,
        Err(e) => {
            return Err(e);
        },
    };
    let ghost models = Vec::<T>::dec(old(rx)@)->Ok_0.0;
    let mut res: HashSet<T> = HashSet::new();
    proof {
        assert(res.deep_view() =~= models.skip(v@.len() as int).to_set());
    }
    while v.len() > 0
        invariant
            obeys_key_model::<T>(),
            v.deep_view() == models.take(v@.len() as int),
            v@.len() <= models.len(),
            res.deep_view() == models.skip(v@.len() as int).to_set(),
        decreases v@.len(),
    {
        let ghost k = v@.len() - 1;
        let ghost dv = v.deep_view();
        let ghost res0 = res@;
        let x = v.pop().unwrap();
        proof {
            assert(dv[k] == x.deep_view());
            assert(x.deep_view() == models[k]);
            assert(v.deep_view() =~= models.take(k));
            assert forall|y: <T as DeepView>::V|
                models.skip(k).to_set().contains(y) implies models.skip(
                k + 1,
            ).to_set().insert(models[k]).contains(y) by {
                let i = choose|i: int|
                    0 <= i < models.skip(k).len() && #[trigger] models.skip(k)[i] == y;
                if i > 0 {
                    assert(models.skip(k + 1)[i - 1] == y);
                }
            }
            assert forall|y: <T as DeepView>::V|
                models.skip(k + 1).to_set().insert(models[k]).contains(y) implies models.skip(
                k,
            ).to_set().contains(y) by {
                if y == models[k] {
                    assert(models.skip(k)[0] == y);
                } else {
                    let j = choose|j: int|
                        0 <= j < models.skip(k + 1).len() && #[trigger] models.skip(k + 1)[j]
                            == y;
                    assert(models.skip(k)[j + 1] == y);
                }
            }
            assert(models.skip(k).to_set() =~= models.skip(k + 1).to_set().insert(models[k]));
        }
        res.insert(x);
        proof {
            let f = |z: T| z.deep_view();
            assert forall|y: <T as DeepView>::V|
                res@.map(f).contains(y) implies models.skip(k).to_set().contains(y) by {
                let z = choose|z: T| res@.contains(z) && y == f(z);
                if z == x {
                } else {
                    assert(res0.contains(z));
                    assert(res0.map(f).contains(y));
                }
            }
            assert forall|y: <T as DeepView>::V|
                models.skip(k).to_set().contains(y) implies res@.map(f).contains(y) by {
                if y == models[k] {
                    assert(res@.contains(x));
                } else {
                    assert(models.skip(k + 1).to_set().contains(y));
                    assert(res0.map(f).contains(y));
                    let z = choose|z: T| res0.contains(z) && y == f(z);
                    assert(res@.contains(z));
                }
            }
            assert(res.deep_view() =~= models.skip(v@.len() as int).to_set());
        }
    }
    proof {
        assert(models.skip(0) =~= models);
    }
    Ok(res)
}

/// Whatever order the table yielded its elements in, their models form
/// exactly the set's own model: a set survives the wire, compared as an
/// unordered collection.
pub proof fn lemma_set_round_trip<T: Convert + Eq + Hash>(s: &HashSet<T>, order: Seq<T>)
    requires
        forall|i: int| 0 <= i < order.len() ==> s@.contains(#[trigger] order[i]),
        forall|x: T| s@.contains(x) ==> #[trigger] order.contains(x),
    ensures
        deep_elems(order).to_set() == s.deep_view(),
{
    assert forall|y: <T as DeepView>::V|
        deep_elems(order).to_set().contains(y) implies s.deep_view().contains(y) by {
        let i = choose|i: int|
            0 <= i < deep_elems(order).len() && #[trigger] deep_elems(order)[i] == y;
        assert(s@.contains(order[i]) && y == order[i].deep_view());
    }
    assert forall|y: <T as DeepView>::V|
        s.deep_view().contains(y) implies deep_elems(order).to_set().contains(y) by {
        let z = choose|z: T| s@.contains(z) && y == z.deep_view();
        assert(order.contains(z));
        let i = choose|i: int| 0 <= i < order.len() && #[trigger] order[i] == z;
        assert(deep_elems(order)[i] == y);
    }
    assert(deep_elems(order).to_set() =~= s.deep_view());
}

/// The map that inserting the pairs one after the other builds: each pair is
/// a value and its key, and a later pair with the same key wins.
pub open spec fn map_of_pairs<T, C>(pairs: Seq<(C, T)>) -> Map<T, C>
    decreases pairs.len(),
{
    if pairs.len() == 0 {
        Map::empty()
    } else {
        map_of_pairs(pairs.drop_last()).insert(pairs.last().1, pairs.last().0)
    }
}

/// Appends a map's encoding: each entry once — its key's bytes, then its
/// value's bytes, so the value is decoded first — in whatever order the
/// table yields the entries, then the entry count as a reversed tag; at most
/// `u32::MAX` entries are encoded.
pub fn hash_map_to_bytes<T: Convert + Eq + Hash, C: Convert>(m: &HashMap<T, C>, tx: &mut Vec<u8>)
    requires
        obeys_key_model::<T>(),
    ensures
        exists|entries: Seq<(C, T)>|
            {
                &&& entries.len() == if m@.dom().len() <= 0xFFFF_FFFF {
                    m@.dom().len() as int
                } else {
                    0xFFFF_FFFF
                }
                &&& (forall|i: int|
                    0 <= i < entries.len() ==> m@.contains_key(#[trigger] entries[i].1) && m@[
                        entries[i].1
                    ] == entries[i].0)
                &&& (m@.dom().len() <= 0xFFFF_FFFF ==> (forall|k: T|
                    m@.contains_key(k) ==> exists|i: int|
                        0 <= i < entries.len() && (#[trigger] entries[i]).1 == k))
                &&& final (tx)@ == old(tx)@ + enc_elems_rev(entries) + varint_enc(
                    entries.len() as u32,
                ).reverse()
            },
{
    let ghost orig = tx@;
    let ghost rem = spec_hash_map_iter(m).remaining();
    let ghost pairs = Seq::new(rem.len(), |i: int| (*rem[i].1, *rem[i].0));
    let mut count: u32 = 0;
    for x in it: m.iter()
        invariant
            obeys_key_model::<T>(),
            it.seq() == rem,
            pairs == Seq::new(rem.len(), |i: int| (*rem[i].1, *rem[i].0)),
            rem.len() == m@.dom().len(),
            forall|i: int|
                0 <= i < rem.len() ==> m@.contains_key(*(#[trigger] rem[i]).0) && m@[*rem[i].0]
                    == *rem[i].1,
            forall|k: T| #[trigger] m@.contains_key(k) ==> rem.contains((&k, &m@[k])),
            it.index() <= rem.len(),
            count == if it.index() <= 0xFFFF_FFFF {
                it.index() as int
            } else {
                0xFFFF_FFFF
            },
            tx@ == orig + enc_elems_rev(pairs.take(count as int).reverse()),
    {
        if count < 0xFFFF_FFFFu32 {
            let (kk, vv) = x;
            kk.to_bytes(tx);
            vv.to_bytes(tx);
            proof {
                assert(x == rem[it.index() as int]);
                assert(pairs[count as int] == (*vv, *kk));
                assert(pairs[count as int].enc() == kk.enc() + vv.enc());
                assert(pairs.take(count + 1).reverse() =~= seq![pairs[count as int]] + pairs.take(
                    count as int,
                ).reverse());
                assert(pairs.take(count + 1).reverse().drop_first() =~= pairs.take(
                    count as int,
                ).reverse());
                assert(pairs.take(count + 1).reverse()[0] == pairs[count as int]);
                assert(enc_elems_rev(pairs.take(count + 1).reverse()) == enc_elems_rev(
                    pairs.take(count as int).reverse(),
                ) + pairs[count as int].enc());
                assert(orig + enc_elems_rev(pairs.take(count as int).reverse()) + kk.enc()
                    + vv.enc() =~= orig + (enc_elems_rev(pairs.take(count as int).reverse()) + (
                kk.enc() + vv.enc())));
            }
            count = count + 1;
        }
    }
    let ghost entries = pairs.take(count as int).reverse();
    proof {
        assert forall|i: int|
            0 <= i < entries.len() implies m@.contains_key(#[trigger] entries[i].1)
            && m@[entries[i].1] == entries[i].0 by {
            assert(entries[i] == pairs[count - 1 - i]);
            assert(pairs[count - 1 - i] == (*rem[count - 1 - i].1, *rem[count - 1 - i].0));
        }
        if m@.dom().len() <= 0xFFFF_FFFF {
            assert forall|k: T| m@.contains_key(k) implies exists|i: int|
                0 <= i < entries.len() && (#[trigger] entries[i]).1 == k by {
                assert(rem.contains((&k, &m@[k])));
                let i = choose|i: int| 0 <= i < rem.len() && #[trigger] rem[i] == (&k, &m@[k]);
                assert(entries[count - 1 - i] == pairs[i]);
                assert(entries[count - 1 - i].1 == k);
            }
        }
    }
    let tag = VarInt(count);
    tag.to_bytes(tx);
    proof {
        assert(orig + enc_elems_rev(entries) + varint_enc(count).reverse() =~= tx@);
    }
}

/// Decodes a map: the count comes off the tail, then that many entries, a
/// value before its key; the entries build the map in decode order, so of
/// two entries with one key the later wins. Some entry sequence with
/// exactly the models the pair codec would read yields the returned map.
pub fn hash_map_from_bytes<T: Convert + Eq + Hash, C: Convert>(rx: &mut Vec<u8>) -> (r: Result<
    HashMap<T, C>,
    CodecError,
>)
    requires
        obeys_key_model::<T>(),
    ensures
        match Vec::<(C, T)>::dec(old(rx)@) {
            Ok((models, n)) => {
                &&& r is Ok
                &&& exists|pairs: Seq<(C, T)>|
                    crate::iters::deep_elems::<(C, T)>(pairs) == models && (#[trigger] map_of_pairs(
                        pairs,
                    )) == r->Ok_0@
                &&& n <= old(rx)@.len()
                &&& final (rx)@ == old(rx)@.take(old(rx)@.len() - n)
            },
            Err(e) => r is Err && r->Err_0 == e,
        },
{
    let mut vp: Vec<(C, T)> = match Vec::<(C, T)>::from_bytes(rx) {
        Ok(v) => v,
        Err(e) => {
            return Err(e);
        },
    };
    let ghost models = Vec::<(C, T)>::dec(old(rx)@)->Ok_0.0;
    let ghost all = vp@;
    proof {
        assert(crate::iters::deep_elems::<(C, T)>(all) =~= vp.deep_view());
    }
    let mut res: HashMap<T, C> = HashMap::new();
    while vp.len() > 0
        invariant
            obeys_key_model::<T>(),
            vp@.len() <= all.len(),
            vp@ == all.skip((all.len() - vp@.len()) as int),
            res@ == map_of_pairs(all.take((all.len() - vp@.len()) as int)),
        decreases vp@.len(),
    {
        let ghost c = all.len() - vp@.len();
        let p = vp.remove(0);
        let (cv, kt) = p;
        proof {
            assert(p == all[c]);
            assert(vp@ =~= all.skip(c + 1));
            assert(all.take(c + 1).drop_last() =~= all.take(c));
            assert(all.take(c + 1).last() == all[c]);
        }
        res.insert(kt, cv);
    }
    proof {
        assert(all.take(all.len() as int) =~= all);
    }
    Ok(res)
}

/// Each key of `map_of_pairs` is a key of some pair, with that pair's value
/// where the pairs agree with one map.
proof fn lemma_map_of_pairs_submap<T, C>(entries: Seq<(C, T)>, m: Map<T, C>)
    requires
        forall|i: int|
            0 <= i < entries.len() ==> m.contains_key((#[trigger] entries[i]).1) && m[entries[i].1]
                == entries[i].0,
    ensures
        forall|k: T| #[trigger]
            map_of_pairs(entries).contains_key(k) ==> m.contains_key(k) && map_of_pairs(entries)[k]
                == m[k],
        forall|i: int| 0 <= i < entries.len() ==> map_of_pairs(entries).contains_key(
            (#[trigger] entries[i]).1,
        ),
    decreases entries.len(),
{
    if entries.len() > 0 {
        let rest = entries.drop_last();
        assert forall|i: int|
            0 <= i < rest.len() implies m.contains_key((#[trigger] rest[i]).1) && m[rest[i].1]
            == rest[i].0 by {
            assert(rest[i] == entries[i]);
        }
        lemma_map_of_pairs_submap(rest, m);
        assert(entries[entries.len() - 1] == entries.last());
        assert forall|k: T| #[trigger]
            map_of_pairs(entries).contains_key(k) implies m.contains_key(k) && map_of_pairs(
            entries,
        )[k] == m[k] by {
            assert(map_of_pairs(entries) == map_of_pairs(rest).insert(
                entries.last().1,
                entries.last().0,
            ));
            if k != entries.last().1 {
                assert(map_of_pairs(rest).contains_key(k));
            }
        }
        assert forall|i: int| 0 <= i < entries.len() implies map_of_pairs(
            entries,
        ).contains_key((#[trigger] entries[i]).1) by {
            if i < entries.len() - 1 {
                assert(rest[i] == entries[i]);
                assert(map_of_pairs(rest).contains_key(entries[i].1));
            }
        }
    }
}

/// Whatever order the table yielded its entries in, inserting them builds
/// the map itself back: a map survives the wire, compared as an unordered
/// collection.
pub proof fn lemma_map_round_trip<T, C>(m: Map<T, C>, entries: Seq<(C, T)>)
    requires
        forall|i: int|
            0 <= i < entries.len() ==> m.contains_key((#[trigger] entries[i]).1) && m[entries[i].1]
                == entries[i].0,
        forall|k: T| #[trigger] m.contains_key(k) ==> exists|i: int|
            0 <= i < entries.len() && (#[trigger] entries[i]).1 == k,
    ensures
        map_of_pairs(entries) == m,
{
    lemma_map_of_pairs_submap(entries, m);
    assert forall|k: T| #[trigger] m.contains_key(k) implies map_of_pairs(entries).contains_key(
        k,
    ) by {
        let i = choose|i: int| 0 <= i < entries.len() && (#[trigger] entries[i]).1 == k;
        assert(map_of_pairs(entries).contains_key(entries[i].1));
    }
    assert(map_of_pairs(entries) =~= m);
}

} // verus!

