use vstd::prelude::*;
use std::collections::BTreeMap;
use vstd::std_specs::btree::spec_keys_iter;
use vstd::std_specs::cmp::OrdSpec;
use vstd::std_specs::iter::IteratorSpec;

verus! {

broadcast use vstd::std_specs::btree::group_btree_axioms;

/// The keys of `m` that are at most `bound`, in increasing order.
///
/// The map is walked in key order and the walk stops at the first larger key.
pub fn keys_upto<V>(m: &BTreeMap<u32, V>, bound: u32) -> (r: Vec<u32>)
    ensures
        forall|i: int| 0 <= i < r.len() ==> m@.contains_key(#[trigger] r@[i]) && r@[i] <= bound,
        forall|i: int, j: int| 0 <= i < j < r.len() ==> r@[i] < r@[j],
        forall|k: u32| m@.contains_key(k) && k <= bound ==> #[trigger] r@.contains(k),
{
    let mut r: Vec<u32> = Vec::new();
    let ghost ks = spec_keys_iter(m).remaining().unref();
    let ghost mut cnt: int = 0;
    proof {
        broadcast use vstd::laws_cmp::group_laws_cmp;
        broadcast use vstd::std_specs::btree::axiom_spec_keys_iter;
        let rem = spec_keys_iter(m).remaining();
        assert(vstd::laws_cmp::obeys_cmp::<u32>());
        broadcast use vstd::laws_cmp::lemma_ref_obeys_cmp_spec;
        assert(vstd::laws_cmp::obeys_cmp::<&u32>());
        assert(vstd::std_specs::btree::increasing_seq(rem));
        vstd::std_specs::btree::axiom_increasing_seq_meaning::<&u32>(rem);
        assert(ks.len() == rem.len());
        assert forall|i: int, j: int| 0 <= i < j < ks.len() implies ks[i] < ks[j] by {
            assert(0 <= i < j < rem.len());
            assert(OrdSpec::cmp_spec(&rem[i], &rem[j]) is Less);
            assert(ks[i] == *rem[i]);
            assert(ks[j] == *rem[j]);
        }
        assert(ks.to_set() == m@.dom());
    }
    for k in it: m.keys()
        invariant_except_break
            cnt == it.index(),
        invariant
            it.seq().unref() == ks,
            r@ == ks.take(cnt),
            0 <= cnt <= ks.len(),
            forall|i: int| 0 <= i < cnt ==> ks[i] <= bound,
        ensures
            r@ == ks.take(cnt),
            0 <= cnt <= ks.len(),
            forall|i: int| 0 <= i < cnt ==> ks[i] <= bound,
            cnt < ks.len() ==> ks[cnt] > bound,
    {
        assert(*k == ks[cnt]);
        if *k > bound {
            break;
        }
        r.push(*k);
        proof {
            cnt = cnt + 1;
        }
    }
    proof {
        assert forall|i: int| 0 <= i < r.len() implies m@.contains_key(#[trigger] r@[i]) && r@[i]
            <= bound by {
            assert(r@[i] == ks[i]);
            assert(ks.to_set().contains(ks[i]));
        }
        assert forall|k: u32| m@.contains_key(k) && k <= bound implies #[trigger] r@.contains(k) by {
            assert(ks.to_set().contains(k));
            let j = choose|j: int| 0 <= j < ks.len() && ks[j] == k;
            if j >= cnt {
                assert(ks[cnt] <= ks[j]);
            }
            assert(r@[j] == k);
        }
    }
    r
}

/// The keys of `m` that are at most `bound`, in increasing order.
///
/// The map is walked in key order and the walk stops at the first larger key.
pub fn keys_upto_u64<V>(m: &BTreeMap<u64, V>, bound: u64) -> (r: Vec<u64>)
    ensures
        forall|i: int| 0 <= i < r.len() ==> m@.contains_key(#[trigger] r@[i]) && r@[i] <= bound,
        forall|i: int, j: int| 0 <= i < j < r.len() ==> r@[i] < r@[j],
        forall|k: u64| m@.contains_key(k) && k <= bound ==> #[trigger] r@.contains(k),
{
    let mut r: Vec<u64> = Vec::new();
    let ghost ks = spec_keys_iter(m).remaining().unref();
    let ghost mut cnt: int = 0;
    proof {
        broadcast use vstd::laws_cmp::group_laws_cmp;
        broadcast use vstd::std_specs::btree::axiom_spec_keys_iter;
        let rem = spec_keys_iter(m).remaining();
        assert(vstd::laws_cmp::obeys_cmp::<u64>());
        broadcast use vstd::laws_cmp::lemma_ref_obeys_cmp_spec;
        assert(vstd::laws_cmp::obeys_cmp::<&u64>());
        assert(vstd::std_specs::btree::increasing_seq(rem));
        vstd::std_specs::btree::axiom_increasing_seq_meaning::<&u64>(rem);
        assert(ks.len() == rem.len());
        assert forall|i: int, j: int| 0 <= i < j < ks.len() implies ks[i] < ks[j] by {
            assert(0 <= i < j < rem.len());
            assert(OrdSpec::cmp_spec(&rem[i], &rem[j]) is Less);
            assert(ks[i] == *rem[i]);
            assert(ks[j] == *rem[j]);
        }
        assert(ks.to_set() == m@.dom());
    }
    for k in it: m.keys()
        invariant_except_break
            cnt == it.index(),
        invariant
            it.seq().unref() == ks,
            r@ == ks.take(cnt),
            0 <= cnt <= ks.len(),
            forall|i: int| 0 <= i < cnt ==> ks[i] <= bound,
        ensures
            r@ == ks.take(cnt),
            0 <= cnt <= ks.len(),
            forall|i: int| 0 <= i < cnt ==> ks[i] <= bound,
            cnt < ks.len() ==> ks[cnt] > bound,
    {
        assert(*k == ks[cnt]);
        if *k > bound {
            break;
        }
        r.push(*k);
        proof {
            cnt = cnt + 1;
        }
    }
    proof {
        assert forall|i: int| 0 <= i < r.len() implies m@.contains_key(#[trigger] r@[i]) && r@[i]
            <= bound by {
            assert(r@[i] == ks[i]);
            assert(ks.to_set().contains(ks[i]));
        }
        assert forall|k: u64| m@.contains_key(k) && k <= bound implies #[trigger] r@.contains(k) by {
            assert(ks.to_set().contains(k));
            let j = choose|j: int| 0 <= j < ks.len() && ks[j] == k;
            if j >= cnt {
                assert(ks[cnt] <= ks[j]);
            }
            assert(r@[j] == k);
        }
    }
    r
}

/// The lowest key of `m`, if it has one.
///
/// Calls `BTreeMap::first_key_value`, whose documentation says that the key it
/// returns is the minimum key of the map and that it returns `None` for an
/// empty map; this contract claims exactly that.
#[verifier::external_body]
pub(crate) fn first_key<V>(m: &BTreeMap<u32, V>) -> (r: Option<u32>)
    ensures
        r is None <==> m@.dom().len() == 0,
        r matches Some(k) ==> m@.contains_key(k) && forall|j: u32| #[trigger] m@.contains_key(j) ==> k <= j,
{
    match m.first_key_value() {
        Some((k, _)) => Some(*k),
        None => None,
    }
}

/// The highest key of `m`, if it has one.
///
/// Calls `BTreeMap::last_key_value`, whose documentation says that the key it
/// returns is the maximum key of the map and that it returns `None` for an
/// empty map; this contract claims exactly that.
#[verifier::external_body]
pub(crate) fn last_key<V>(m: &BTreeMap<u32, V>) -> (r: Option<u32>)
    ensures
        r is None <==> m@.dom().len() == 0,
        r matches Some(k) ==> m@.contains_key(k) && forall|j: u32| #[trigger] m@.contains_key(j) ==> j <= k,
{
    match m.last_key_value() {
        Some((k, _)) => Some(*k),
        None => None,
    }
}

/// The lowest key of `m`, if it has one.
///
/// Calls `BTreeMap::first_key_value`, whose documentation says that the key it
/// returns is the minimum key of the map and that it returns `None` for an
/// empty map; this contract claims exactly that.
#[verifier::external_body]
pub(crate) fn first_key_u64<V>(m: &BTreeMap<u64, V>) -> (r: Option<u64>)
    ensures
        r is None <==> m@.dom().len() == 0,
        r matches Some(k) ==> m@.contains_key(k) && forall|j: u64| #[trigger] m@.contains_key(j) ==> k <= j,
{
    match m.first_key_value() {
        Some((k, _)) => Some(*k),
        None => None,
    }
}

/// The highest key of `m`, if it has one.
///
/// Calls `BTreeMap::last_key_value`, whose documentation says that the key it
/// returns is the maximum key of the map and that it returns `None` for an
/// empty map; this contract claims exactly that.
#[verifier::external_body]
pub(crate) fn last_key_u64<V>(m: &BTreeMap<u64, V>) -> (r: Option<u64>)
    ensures
        r is None <==> m@.dom().len() == 0,
        r matches Some(k) ==> m@.contains_key(k) && forall|j: u64| #[trigger] m@.contains_key(j) ==> j <= k,
{
    match m.last_key_value() {
        Some((k, _)) => Some(*k),
        None => None,
    }
}

} // verus!
