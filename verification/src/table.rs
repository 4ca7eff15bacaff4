use vstd::prelude::*;

use crate::score::bounded_vec;

verus! {

/// The mathematical model of the embedding table: word to vector, in
/// insertion order, keys distinct.
pub type EmbModel = Seq<(Seq<char>, Seq<i64>)>;

/// The mathematical model of the keyword table: emoji symbol to keyword
/// list, in insertion order, keys distinct.
pub type KwModel = Seq<(Seq<char>, Seq<Seq<char>>)>;

/// Index of the first entry with key `k`, or `tbl.len()` if there is none.
pub open spec fn key_index<V>(tbl: Seq<(Seq<char>, V)>, k: Seq<char>) -> int
    decreases tbl.len(),
{
    if tbl.len() == 0 {
        0
    } else if tbl[0].0 == k {
        0
    } else {
        1 + key_index(tbl.drop_first(), k)
    }
}

/// The value stored under key `k`, if any.
pub open spec fn spec_lookup<V>(tbl: Seq<(Seq<char>, V)>, k: Seq<char>) -> Option<V> {
    if key_index(tbl, k) < tbl.len() {
        Option::Some(tbl[key_index(tbl, k)].1)
    } else {
        Option::None
    }
}

/// Map-style insertion: overwrite the entry holding `k` in place, or append
/// a new entry.
pub open spec fn spec_insert<V>(tbl: Seq<(Seq<char>, V)>, k: Seq<char>, v: V) -> Seq<
    (Seq<char>, V),
> {
    if key_index(tbl, k) < tbl.len() {
        tbl.update(key_index(tbl, k), (k, v))
    } else {
        tbl.push((k, v))
    }
}

/// No two entries share a key.
pub open spec fn unique_keys<V>(tbl: Seq<(Seq<char>, V)>) -> bool {
    forall|i: int, j: int| 0 <= i < j < tbl.len() ==> (#[trigger] tbl[i]).0 != (#[trigger] tbl[j]).0
}

/// `key_index` is the first matching position.
pub proof fn lemma_key_index<V>(tbl: Seq<(Seq<char>, V)>, k: Seq<char>)
    ensures
        0 <= key_index(tbl, k) <= tbl.len(),
        key_index(tbl, k) < tbl.len() ==> tbl[key_index(tbl, k)].0 == k,
        forall|j: int| 0 <= j < key_index(tbl, k) ==> (#[trigger] tbl[j]).0 != k,
    decreases tbl.len(),
{
    if tbl.len() > 0 && tbl[0].0 != k {
        lemma_key_index(tbl.drop_first(), k);
        assert forall|j: int| 0 <= j < key_index(tbl, k) implies (#[trigger] tbl[j]).0 != k by {
            if j > 0 {
                assert(tbl.drop_first()[j - 1] == tbl[j]);
            }
        }
    }
}

/// Insertion keeps keys distinct and stores exactly the new value under `k`,
/// leaving every other key's value unchanged.
pub proof fn lemma_insert<V>(tbl: Seq<(Seq<char>, V)>, k: Seq<char>, v: V)
    requires
        unique_keys(tbl),
    ensures
        unique_keys(spec_insert(tbl, k, v)),
        spec_lookup(spec_insert(tbl, k, v), k) == Option::Some(v),
        forall|k2: Seq<char>|
            k2 != k ==> #[trigger] spec_lookup(spec_insert(tbl, k, v), k2) == spec_lookup(tbl, k2),
{
    lemma_key_index(tbl, k);
    let t2 = spec_insert(tbl, k, v);
    let ki = key_index(tbl, k);
    if ki < tbl.len() {
        lemma_key_index_update(tbl, k, v, ki);
        assert forall|i: int| 0 <= i < t2.len() implies (#[trigger] t2[i]).0 == tbl[i].0 by {
            assert(tbl[ki].0 == k);
        }
        assert forall|i: int, j: int| 0 <= i < j < t2.len() implies (#[trigger] t2[i]).0 != (
        #[trigger] t2[j]).0 by {
            assert(tbl[i].0 != tbl[j].0);
        }
        assert forall|k2: Seq<char>|
            k2 != k implies #[trigger] spec_lookup(t2, k2) == spec_lookup(tbl, k2) by {
            lemma_key_index(tbl, k2);
            lemma_key_index(t2, k2);
            let ki2 = key_index(tbl, k2);
            if ki2 < tbl.len() {
                assert(tbl[ki2].0 == k2);
                assert(ki2 != ki);
                assert(t2[ki2] == tbl[ki2]);
            }
        }
    } else {
        lemma_key_index_push(tbl, k, v);
        assert forall|i: int, j: int| 0 <= i < j < t2.len() implies (#[trigger] t2[i]).0 != (
        #[trigger] t2[j]).0 by {
            if j < tbl.len() {
                assert(tbl[i].0 != tbl[j].0);
            } else {
                assert(t2[j].0 == k);
                assert(tbl[i].0 != k);
            }
        }
        assert forall|k2: Seq<char>|
            k2 != k implies #[trigger] spec_lookup(t2, k2) == spec_lookup(tbl, k2) by {
            lemma_key_index(tbl, k2);
            lemma_key_index(t2, k2);
            let ki2 = key_index(tbl, k2);
            if ki2 < tbl.len() {
                assert(key_index(t2, k2) == ki2);
                assert(t2[ki2] == tbl[ki2]);
            }
        }
    }
}

/// After updating position `ki` (the first match for `k`) with `(k, v)`,
/// searches behave as expected.
proof fn lemma_key_index_update<V>(tbl: Seq<(Seq<char>, V)>, k: Seq<char>, v: V, ki: int)
    requires
        0 <= ki < tbl.len(),
        ki == key_index(tbl, k),
        tbl[ki].0 == k,
    ensures
        key_index(tbl.update(ki, (k, v)), k) == ki,
        forall|k2: Seq<char>|
            k2 != k ==> #[trigger] key_index(tbl.update(ki, (k, v)), k2) == key_index(tbl, k2),
    decreases tbl.len(),
{
    let t2 = tbl.update(ki, (k, v));
    if ki == 0 {
        assert(t2[0].0 == k);
        assert forall|k2: Seq<char>| k2 != k implies #[trigger] key_index(t2, k2) == key_index(
            tbl,
            k2,
        ) by {
            assert(t2.drop_first() =~= tbl.drop_first());
        }
    } else {
        assert(tbl[0].0 != k);
        assert(t2.drop_first() =~= tbl.drop_first().update(ki - 1, (k, v)));
        lemma_key_index_update(tbl.drop_first(), k, v, ki - 1);
        assert(t2[0] == tbl[0]);
        assert forall|k2: Seq<char>| k2 != k implies #[trigger] key_index(t2, k2) == key_index(
            tbl,
            k2,
        ) by {
            if tbl[0].0 != k2 {
                assert(key_index(t2, k2) == 1 + key_index(t2.drop_first(), k2));
                assert(key_index(tbl, k2) == 1 + key_index(tbl.drop_first(), k2));
            }
        }
    }
}

/// After appending `(k, v)` to a table without `k`, searches behave as
/// expected.
proof fn lemma_key_index_push<V>(tbl: Seq<(Seq<char>, V)>, k: Seq<char>, v: V)
    requires
        key_index(tbl, k) == tbl.len(),
    ensures
        key_index(tbl.push((k, v)), k) == tbl.len(),
        forall|k2: Seq<char>|
            k2 != k ==> #[trigger] key_index(tbl.push((k, v)), k2) == key_index(tbl, k2) || (
            #[trigger] key_index(tbl.push((k, v)), k2) == tbl.len() + 1 && key_index(tbl, k2)
                == tbl.len()),
    decreases tbl.len(),
{
    let t2 = tbl.push((k, v));
    if tbl.len() == 0 {
        assert(t2[0].0 == k);
        assert forall|k2: Seq<char>| k2 != k implies #[trigger] key_index(t2, k2) == key_index(
            tbl,
            k2,
        ) || (key_index(t2, k2) == tbl.len() + 1 && key_index(tbl, k2) == tbl.len()) by {
            assert(t2.drop_first() =~= Seq::<(Seq<char>, V)>::empty());
            assert(key_index(t2, k2) == 1 + key_index(t2.drop_first(), k2));
            assert(t2.drop_first().len() == 0);
            assert(key_index(t2.drop_first(), k2) == 0);
            assert(key_index(tbl, k2) == 0);
        }
    } else if tbl[0].0 == k {
    } else {
        assert(t2.drop_first() =~= tbl.drop_first().push((k, v)));
        lemma_key_index_push(tbl.drop_first(), k, v);
        assert(t2[0] == tbl[0]);
        assert forall|k2: Seq<char>| k2 != k implies #[trigger] key_index(t2, k2) == key_index(
            tbl,
            k2,
        ) || (key_index(t2, k2) == tbl.len() + 1 && key_index(tbl, k2) == tbl.len()) by {
            if tbl[0].0 != k2 {
                assert(key_index(t2, k2) == 1 + key_index(t2.drop_first(), k2));
                assert(key_index(tbl, k2) == 1 + key_index(tbl.drop_first(), k2));
            }
        }
    }
}

/// Every vector stored in the table is non-empty and bounded.
pub open spec fn bounded_table(tbl: EmbModel) -> bool {
    forall|i: int|
        0 <= i < tbl.len() ==> bounded_vec((#[trigger] tbl[i]).1) && tbl[i].1.len() > 0
}

/// Inserting a non-empty bounded vector keeps the table bounded.
pub proof fn lemma_insert_bounded(tbl: EmbModel, k: Seq<char>, v: Seq<i64>)
    requires
        bounded_table(tbl),
        bounded_vec(v),
        v.len() > 0,
    ensures
        bounded_table(spec_insert(tbl, k, v)),
{
    lemma_key_index(tbl, k);
    let t2 = spec_insert(tbl, k, v);
    assert forall|i: int|
        0 <= i < t2.len() implies bounded_vec((#[trigger] t2[i]).1) && t2[i].1.len() > 0 by {
        if i < tbl.len() && t2[i] == tbl[i] {
            assert(bounded_vec(tbl[i].1));
        }
    }
}

/// View of the concrete embedding table.
pub open spec fn emb_model(tbl: Seq<(Vec<char>, Vec<i64>)>) -> EmbModel {
    Seq::new(tbl.len(), |i: int| (tbl[i].0@, tbl[i].1@))
}

/// View of the concrete keyword table.
pub open spec fn kw_model(tbl: Seq<(String, Vec<Vec<char>>)>) -> KwModel {
    Seq::new(tbl.len(), |i: int| (tbl[i].0@, Seq::new(tbl[i].1@.len(), |j: int| tbl[i].1@[j]@)))
}

/// Character-vector equality.
pub fn chars_eq(a: &Vec<char>, b: &Vec<char>) -> (r: bool)
    ensures
        r == (a@ == b@),
{
    if a.len() != b.len() {
        proof {
            assert(a@.len() != b@.len());
        }
        return false;
    }
    let mut i: usize = 0;
    while i < a.len()
        invariant
            a@.len() == b@.len(),
            0 <= i <= a@.len(),
            forall|j: int| 0 <= j < i ==> a@[j] == b@[j],
        decreases a@.len() - i,
    {
        if a[i] != b[i] {
            return false;
        }
        i = i + 1;
    }
    proof {
        assert(a@ =~= b@);
    }
    true
}

/// Position of `k` in the embedding table, tied to `spec_lookup`.
pub fn emb_find(tbl: &Vec<(Vec<char>, Vec<i64>)>, k: &Vec<char>) -> (r: Option<usize>)
    ensures
        match r {
            Option::Some(p) => p < tbl@.len() && emb_model(tbl@)[p as int].0 == k@ && key_index(
                emb_model(tbl@),
                k@,
            ) == p && spec_lookup(emb_model(tbl@), k@) == Option::Some(
                emb_model(tbl@)[p as int].1,
            ),
            Option::None => spec_lookup(emb_model(tbl@), k@) is None && key_index(
                emb_model(tbl@),
                k@,
            ) == tbl@.len(),
        },
{
    proof {
        lemma_key_index(emb_model(tbl@), k@);
    }
    let ghost m = emb_model(tbl@);
    let mut i: usize = 0;
    while i < tbl.len()
        invariant
            m == emb_model(tbl@),
            0 <= i <= tbl@.len(),
            m.len() == tbl@.len(),
            forall|j: int| 0 <= j < i ==> (#[trigger] m[j]).0 != k@,
        decreases tbl@.len() - i,
    {
        if chars_eq(&tbl[i].0, k) {
            proof {
                assert(m[i as int].0 == k@);
                lemma_key_index(m, k@);
                let ki = key_index(m, k@);
                if ki < i {
                    assert(m[ki].0 == k@);
                    assert(false);
                } else if ki > i {
                    assert(m[i as int].0 != k@);
                    assert(false);
                }
            }
            return Option::Some(i);
        }
        i = i + 1;
    }
    proof {
        lemma_key_index(m, k@);
    }
    Option::None
}

/// Map-style insertion into the embedding table.
pub fn emb_insert(tbl: &mut Vec<(Vec<char>, Vec<i64>)>, k: Vec<char>, v: Vec<i64>)
    ensures
        emb_model(final(tbl)@) == spec_insert(emb_model(old(tbl)@), k@, v@),
{
    proof {
        lemma_key_index(emb_model(old(tbl)@), k@);
    }
    let found = emb_find(tbl, &k);
    match found {
        Option::Some(p) => {
            proof {
                lemma_key_index(emb_model(tbl@), k@);
            }
            let ghost before = emb_model(tbl@);
            let _ = tbl.remove(p);
            tbl.insert(p, (k, v));
            proof {
                assert(emb_model(tbl@) =~= before.update(key_index(before, k@), (k@, v@)));
            }
        },
        Option::None => {
            let ghost before = emb_model(tbl@);
            tbl.push((k, v));
            proof {
                assert(emb_model(tbl@) =~= before.push((k@, v@)));
            }
        },
    }
}

/// Position of `k` in the keyword table, if any.
pub fn kw_find(tbl: &Vec<(String, Vec<Vec<char>>)>, k: &String) -> (r: Option<usize>)
    ensures
        match r {
            Option::Some(p) => p < tbl@.len() && kw_model(tbl@)[p as int].0 == k@ && key_index(
                kw_model(tbl@),
                k@,
            ) == p,
            Option::None => key_index(kw_model(tbl@), k@) == tbl@.len(),
        },
{
    let ghost m = kw_model(tbl@);
    let mut i: usize = 0;
    while i < tbl.len()
        invariant
            m == kw_model(tbl@),
            0 <= i <= tbl@.len(),
            m.len() == tbl@.len(),
            forall|j: int| 0 <= j < i ==> (#[trigger] m[j]).0 != k@,
        decreases tbl@.len() - i,
    {
        if tbl[i].0 == *k {
            proof {
                assert(m[i as int].0 == k@);
                lemma_key_index(m, k@);
                let ki = key_index(m, k@);
                if ki < i {
                    assert(m[ki].0 == k@);
                    assert(false);
                } else if ki > i {
                    assert(m[i as int].0 != k@);
                    assert(false);
                }
            }
            return Option::Some(i);
        }
        i = i + 1;
    }
    proof {
        lemma_key_index(m, k@);
    }
    Option::None
}

/// Map-style insertion into the keyword table.
pub fn kw_insert(tbl: &mut Vec<(String, Vec<Vec<char>>)>, k: String, v: Vec<Vec<char>>)
    ensures
        kw_model(final(tbl)@) == spec_insert(kw_model(old(tbl)@), k@, kw_value_model(v@)),
{
    let ghost vm = kw_value_model(v@);
    let found = kw_find(tbl, &k);
    match found {
        Option::Some(p) => {
            let ghost before = kw_model(tbl@);
            let _ = tbl.remove(p);
            tbl.insert(p, (k, v));
            proof {
                assert(kw_model(tbl@) =~= before.update(key_index(before, k@), (k@, vm)));
            }
        },
        Option::None => {
            let ghost before = kw_model(tbl@);
            tbl.push((k, v));
            proof {
                assert(kw_model(tbl@) =~= before.push((k@, vm)));
            }
        },
    }
}

/// View of one keyword list.
pub open spec fn kw_value_model(v: Seq<Vec<char>>) -> Seq<Seq<char>> {
    Seq::new(v.len(), |j: int| v[j]@)
}

} // verus!
