use vstd::prelude::*;
use crate::layout::{Field, end, table_ok};
use crate::storable::Storable;

verus! {

/// What a key holds, seen from outside: the stored type's tag and the bytes
/// of the stored value's encoding.
pub struct Entry {
    pub tag: u64,
    pub bytes: Seq<u8>,
}

/// Whether an entry holds a value of type `T`.
pub open spec fn is_type<T: Storable>(e: Entry) -> bool {
    e.tag == T::tag_spec() && e.bytes.len() == T::byte_len_spec()
}

/// The position of the field at offset `off` in table `t`.
pub open spec fn slot(t: Seq<Field>, off: usize) -> int {
    choose|i: int| 0 <= i < t.len() && t[i].offset == off
}

/// The bytes of field `f`'s value in buffer `d`.
pub open spec fn payload(d: Seq<u8>, f: Field) -> Seq<u8> {
    d.subrange(f.offset as int, f.offset + f.len)
}

/// Field `t[i]` lies at offset `off` only at one position.
pub proof fn lemma_slot(t: Seq<Field>, i: int)
    requires
        table_ok(t),
        0 <= i < t.len(),
    ensures
        slot(t, t[i].offset) == i,
{
    let j = slot(t, t[i].offset);
    assert(0 <= j < t.len() && t[j].offset == t[i].offset);
    if j < i {
        assert(end(t[j]) <= t[i].offset);
    } else if i < j {
        assert(end(t[i]) <= t[j].offset);
    }
}

/// Some key of index `m` has offset `o`.
pub open spec fn owned<K>(m: Map<K, usize>, o: usize) -> bool {
    exists|k: K| #[trigger] m.contains_key(k) && m[k] == o
}

/// The field table `t` is well formed and within a buffer of `n` bytes, and
/// the key index `m` maps its keys one to one onto the table's offsets.
pub open spec fn consistent<K>(t: Seq<Field>, m: Map<K, usize>, n: nat) -> bool {
    &&& table_ok(t)
    &&& forall|i: int| 0 <= i < t.len() ==> end(#[trigger] t[i]) <= n
    &&& m.dom().finite()
    &&& m.dom().len() == t.len()
    &&& forall|k: K| #[trigger] m.contains_key(k) ==> exists|i: int|
        0 <= i < t.len() && #[trigger] t[i].offset == m[k]
    &&& forall|i: int| 0 <= i < t.len() ==> owned(m, (#[trigger] t[i]).offset)
    &&& forall|k1: K, k2: K|
        #[trigger] m.contains_key(k1) && #[trigger] m.contains_key(k2) && m[k1] == m[k2] ==> k1 == k2
}

/// Inserting a field into the table at a place where it fits between its
/// neighbours keeps the table well formed.
pub proof fn lemma_insert_table(t1: Seq<Field>, idx: int, nf: Field, n: nat)
    requires
        table_ok(t1),
        forall|i: int| 0 <= i < t1.len() ==> end(#[trigger] t1[i]) <= n,
        end(nf) <= n,
        nf.size >= 1,
        nf.len <= nf.size,
        0 <= idx <= t1.len(),
        idx > 0 ==> end(t1[idx - 1]) <= nf.offset,
        idx < t1.len() ==> end(nf) <= t1[idx].offset,
    ensures
        table_ok(t1.insert(idx, nf)),
        forall|i: int| 0 <= i < t1.len() + 1 ==> end(#[trigger] t1.insert(idx, nf)[i]) <= n,
        forall|j: int| 0 <= j < t1.len() ==> #[trigger] t1[j].offset != nf.offset,
{
    let t2 = t1.insert(idx, nf);
    assert(forall|i: int| 0 <= i < idx ==> t2[i] == t1[i]);
    assert(forall|i: int| idx < i < t2.len() ==> t2[i] == t1[i - 1]);
    assert forall|i: int, j: int| 0 <= i < j < t2.len() implies end(#[trigger] t2[i]) <= #[trigger] t2[j].offset by {
        if j < idx {
        } else if j == idx {
            if i < idx - 1 {
                assert(end(t1[i]) <= t1[idx - 1].offset);
            }
        } else if i == idx {
            if j - 1 > idx {
                assert(end(t1[idx]) <= t1[j - 1].offset);
            }
        } else if i < idx {
            assert(end(t1[i]) <= t1[j - 1].offset);
        } else {
            assert(end(t1[i - 1]) <= t1[j - 1].offset);
        }
    }
    assert forall|i: int| 0 <= i < t2.len() implies end(#[trigger] t2[i]) <= n by {
        if i < idx {
            assert(end(t1[i]) <= n);
        } else if i > idx {
            assert(end(t1[i - 1]) <= n);
        }
    }
    assert forall|j: int| 0 <= j < t1.len() implies #[trigger] t1[j].offset != nf.offset by {
        if j < idx - 1 {
            assert(end(t1[j]) <= t1[idx - 1].offset);
        }
    }
}

/// Recording a new key for a new field keeps table and index consistent.
pub proof fn lemma_insert_consistent<K>(t1: Seq<Field>, m1: Map<K, usize>, n1: nat, idx: int, nf: Field, k: K, n2: nat)
    requires
        consistent(t1, m1, n1),
        !m1.contains_key(k),
        n1 <= n2,
        end(nf) <= n2,
        nf.size >= 1,
        nf.len <= nf.size,
        0 <= idx <= t1.len(),
        idx > 0 ==> end(t1[idx - 1]) <= nf.offset,
        idx < t1.len() ==> end(nf) <= t1[idx].offset,
    ensures
        consistent(t1.insert(idx, nf), m1.insert(k, nf.offset), n2),
{
    let t2 = t1.insert(idx, nf);
    let m2 = m1.insert(k, nf.offset);
    assert forall|i: int| 0 <= i < t1.len() implies end(#[trigger] t1[i]) <= n2 by {
        assert(end(t1[i]) <= n1);
    }
    lemma_insert_table(t1, idx, nf, n2);
    assert(forall|i: int| 0 <= i < idx ==> t2[i] == t1[i]);
    assert(forall|i: int| idx < i < t2.len() ==> t2[i] == t1[i - 1]);
    assert(m2.dom() == m1.dom().insert(k));
    assert forall|k2: K| #[trigger] m2.contains_key(k2) implies exists|i: int|
        0 <= i < t2.len() && #[trigger] t2[i].offset == m2[k2] by {
        if k2 == k {
            assert(t2[idx].offset == m2[k2]);
        } else {
            let i = choose|i: int| 0 <= i < t1.len() && #[trigger] t1[i].offset == m1[k2];
            if i < idx {
                assert(t2[i].offset == m2[k2]);
            } else {
                assert(t2[i + 1].offset == m2[k2]);
            }
        }
    }
    assert forall|i: int| 0 <= i < t2.len() implies owned(m2, (#[trigger] t2[i]).offset) by {
        if i == idx {
            assert(m2.contains_key(k) && m2[k] == t2[i].offset);
        } else {
            let j = if i < idx { i } else { i - 1 };
            assert(t1[j] == t2[i]);
            let k2 = choose|k2: K| #[trigger] m1.contains_key(k2) && m1[k2] == (#[trigger] t1[j]).offset;
            assert(m2.contains_key(k2) && m2[k2] == t2[i].offset);
        }
    }
    assert forall|k1: K, k2: K|
        #[trigger] m2.contains_key(k1) && #[trigger] m2.contains_key(k2) && m2[k1] == m2[k2]
        implies k1 == k2 by {
        if k1 != k && k2 == k {
            let i = choose|i: int| 0 <= i < t1.len() && #[trigger] t1[i].offset == m1[k1];
            assert(t1[i].offset != nf.offset);
        } else if k1 == k && k2 != k {
            let i = choose|i: int| 0 <= i < t1.len() && #[trigger] t1[i].offset == m1[k2];
            assert(t1[i].offset != nf.offset);
        }
    }
}

/// The entries that table `t`, index `m` and buffer `d` describe: each key
/// of the index with the tag and bytes of the field at its offset.
pub open spec fn entries<K>(t: Seq<Field>, m: Map<K, usize>, d: Seq<u8>) -> Map<K, Entry> {
    Map::new(
        |k: K| m.contains_key(k),
        |k: K| Entry { tag: t[slot(t, m[k])].tag, bytes: payload(d, t[slot(t, m[k])]) },
    )
}

/// After a new field `t2[idx]` is added for the new key `k` and its bytes
/// written, every other key keeps its entry.
pub proof fn lemma_entries_after_new<K>(
    t1: Seq<Field>,
    m1: Map<K, usize>,
    d1: Seq<u8>,
    t2: Seq<Field>,
    d2: Seq<u8>,
    idx: int,
    k: K,
)
    requires
        consistent(t1, m1, d1.len()),
        table_ok(t2),
        0 <= idx <= t1.len(),
        t2 == t1.insert(idx, t2[idx]),
        !m1.contains_key(k),
        d1.len() <= d2.len(),
        forall|j: int| 0 <= j < d1.len() && !(t2[idx].offset <= j < end(t2[idx])) ==> d1[j] == d2[j],
    ensures
        forall|k2: K| #[trigger] m1.contains_key(k2) ==> entries(t2, m1.insert(k, t2[idx].offset), d2)[k2]
            == entries(t1, m1, d1)[k2],
{
    assert forall|k2: K| #[trigger] m1.contains_key(k2) implies entries(t2, m1.insert(k, t2[idx].offset), d2)[k2]
        == entries(t1, m1, d1)[k2] by {
        let i2 = choose|i2: int| 0 <= i2 < t1.len() && #[trigger] t1[i2].offset == m1[k2];
        let j2 = if i2 < idx { i2 } else { i2 + 1 };
        assert(t2[j2] == t1[i2]);
        if j2 < idx {
            assert(end(t2[j2]) <= t2[idx].offset);
        } else {
            assert(end(t2[idx]) <= t2[j2].offset);
        }
        assert(end(t1[i2]) <= d1.len());
        lemma_same_entry(t1, d1, i2, t2, d2, j2);
    }
}

/// Dropping a field keeps the table well formed and within the buffer.
pub proof fn lemma_remove_table(t1: Seq<Field>, n: nat, i: int)
    requires
        table_ok(t1),
        forall|j: int| 0 <= j < t1.len() ==> end(#[trigger] t1[j]) <= n,
        0 <= i < t1.len(),
    ensures
        table_ok(t1.remove(i)),
        forall|j: int| 0 <= j < t1.len() - 1 ==> end(#[trigger] t1.remove(i)[j]) <= n,
{
    let t2 = t1.remove(i);
    assert(forall|j: int| 0 <= j < i ==> t2[j] == t1[j]);
    assert(forall|j: int| i <= j < t2.len() ==> t2[j] == t1[j + 1]);
    assert forall|a: int, b: int| 0 <= a < b < t2.len() implies end(#[trigger] t2[a]) <= #[trigger] t2[b].offset by {
        let a1 = if a < i { a } else { a + 1 };
        let b1 = if b < i { b } else { b + 1 };
        assert(end(t1[a1]) <= t1[b1].offset);
    }
    assert forall|j: int| 0 <= j < t2.len() implies end(#[trigger] t2[j]) <= n by {
        let j1 = if j < i { j } else { j + 1 };
        assert(end(t1[j1]) <= n);
    }
}

/// Dropping the field at position `i` of the table together with its key
/// keeps table and index consistent.
pub proof fn lemma_remove_consistent<K>(t1: Seq<Field>, m1: Map<K, usize>, n: nat, i: int, k: K)
    requires
        consistent(t1, m1, n),
        m1.contains_key(k),
        0 <= i < t1.len(),
        t1[i].offset == m1[k],
    ensures
        consistent(t1.remove(i), m1.remove(k), n),
{
    let t2 = t1.remove(i);
    let m2 = m1.remove(k);
    lemma_remove_table(t1, n, i);
    assert(forall|j: int| 0 <= j < i ==> t2[j] == t1[j]);
    assert(forall|j: int| i <= j < t2.len() ==> t2[j] == t1[j + 1]);
    assert(m2.dom() == m1.dom().remove(k));
    assert(m2.dom().finite());
    assert(m2.dom().len() == t2.len());
    assert(table_ok(t2));
    assert(t2.len() == t1.len() - 1);
    assert(forall|j: int| 0 <= j < t2.len() ==> end(#[trigger] t2[j]) <= n);
    assert(forall|k1: K, k2: K|
        #[trigger] m2.contains_key(k1) && #[trigger] m2.contains_key(k2) && m2[k1] == m2[k2] ==> k1 == k2);
    assert forall|k2: K| #[trigger] m2.contains_key(k2) implies exists|j: int|
        0 <= j < t2.len() && #[trigger] t2[j].offset == m2[k2] by {
        let j1 = choose|j1: int| 0 <= j1 < t1.len() && #[trigger] t1[j1].offset == m1[k2];
        assert(j1 != i);
        if j1 < i {
            assert(t2[j1].offset == m2[k2]);
        } else {
            assert(t2[j1 - 1].offset == m2[k2]);
        }
    }
    assert forall|j: int| 0 <= j < t2.len() implies owned(m2, (#[trigger] t2[j]).offset) by {
        let j1 = if j < i { j } else { j + 1 };
        assert(t1[j1] == t2[j]);
        let k2 = choose|k2: K| #[trigger] m1.contains_key(k2) && m1[k2] == (#[trigger] t1[j1]).offset;
        lemma_slot(t1, j1);
        lemma_slot(t1, i);
        assert(k2 != k);
        assert(m2.contains_key(k2) && m2[k2] == t2[j].offset);
    }
}

/// After that removal every other key keeps its entry.
pub proof fn lemma_remove_entries<K>(t1: Seq<Field>, m1: Map<K, usize>, d: Seq<u8>, i: int, k: K)
    requires
        consistent(t1, m1, d.len()),
        m1.contains_key(k),
        0 <= i < t1.len(),
        t1[i].offset == m1[k],
    ensures
        forall|k2: K| #[trigger] m1.contains_key(k2) && k2 != k ==> entries(t1.remove(i), m1.remove(k), d)[k2]
            == entries(t1, m1, d)[k2],
{
    let t2 = t1.remove(i);
    let m2 = m1.remove(k);
    lemma_remove_table(t1, d.len(), i);
    assert forall|k2: K| #[trigger] m1.contains_key(k2) && k2 != k implies entries(t2, m2, d)[k2]
        == entries(t1, m1, d)[k2] by {
        let j1 = choose|j1: int| 0 <= j1 < t1.len() && #[trigger] t1[j1].offset == m1[k2];
        assert(j1 != i);
        let j2 = if j1 < i { j1 } else { j1 - 1 };
        assert(t2[j2] == t1[j1]);
        assert(end(t1[j1]) <= d.len());
        lemma_same_entry(t1, d, j1, t2, d, j2);
    }
}

/// A field found at the same offset in two tables, with the same bytes
/// under it, gives the same entry in both.
pub proof fn lemma_same_entry(t1: Seq<Field>, d1: Seq<u8>, i1: int, t2: Seq<Field>, d2: Seq<u8>, i2: int)
    requires
        table_ok(t1),
        table_ok(t2),
        0 <= i1 < t1.len(),
        0 <= i2 < t2.len(),
        t1[i1] == t2[i2],
        end(t1[i1]) <= d1.len(),
        end(t1[i1]) <= d2.len(),
        forall|j: int| t1[i1].offset <= j < end(t1[i1]) ==> d1[j] == d2[j],
    ensures
        t1[slot(t1, t1[i1].offset)] == t2[slot(t2, t1[i1].offset)],
        payload(d1, t1[i1]) == payload(d2, t1[i1]),
{
    lemma_slot(t1, i1);
    lemma_slot(t2, i2);
    assert(payload(d1, t1[i1]) =~= payload(d2, t1[i1]));
}

} // verus!
