use std::collections::HashMap;
use std::hash::Hash;
use vstd::prelude::*;
use vstd::std_specs::hash::obeys_key_model;
use crate::layout::{Field, end, table_ok, first_gap, placement, align, lemma_placement};
use crate::storable::Storable;
use crate::table::{
    Entry, consistent, entries, is_type, lemma_insert_consistent, lemma_entries_after_new,
    lemma_remove_consistent, lemma_remove_entries, lemma_same_entry, lemma_slot, owned, payload, slot,
};

verus! {

broadcast use vstd::std_specs::hash::group_hash_axioms;

/// A key-value map whose values may be of different types, all packed into
/// one byte buffer.
///
/// Each key's value lives in a region of the buffer described by a field of
/// the table (kept sorted by offset); the key index maps each key to its
/// field's offset. Every access names the value's type, and the type must be
/// the one the key was inserted with.
///
/// Dropping the map frees its buffer and nothing else: values whose type
/// needs cleanup are handed back by `clear`, which is the map's teardown.
pub struct PolyMap<K: Eq + Hash> {
    data: Vec<u8>,
    field_map: HashMap<K, usize>,
    fields: Vec<Field>,
}

/// Copies `b` into `data` from position `at` on.
fn write_at(data: &mut Vec<u8>, at: usize, b: &Vec<u8>)
    requires
        at + b@.len() <= old(data)@.len(),
        at + b@.len() <= usize::MAX,
    ensures
        final(data)@.len() == old(data)@.len(),
        final(data)@.subrange(at as int, at + b@.len()) == b@,
        forall|i: int|
            0 <= i < old(data)@.len() && !(at <= i < at + b@.len()) ==> final(data)@[i] == old(data)@[i],
{
    let mut j: usize = 0;
    while j < b.len()
        invariant
            at + b@.len() <= data@.len(),
            at + b@.len() <= usize::MAX,
            data@.len() == old(data)@.len(),
            j <= b@.len(),
            forall|i: int| at <= i < at + j ==> data@[i] == b@[i - at],
            forall|i: int|
                0 <= i < old(data)@.len() && !(at <= i < at + j) ==> data@[i] == old(data)@[i],
        decreases b@.len() - j,
    {
        data[at + j] = b[j];
        j = j + 1;
    }
    assert(data@.subrange(at as int, at + b@.len()) =~= b@);
}

/// A value left in the map when it was cleared, handed back so that its
/// type's cleanup can run: the type's tag and the value's bytes.
pub struct Released {
    pub tag: u64,
    pub bytes: Vec<u8>,
}

/// Tags and bytes of a sequence of released values.
pub open spec fn released_view(s: Seq<Released>) -> Seq<(u64, Seq<u8>)> {
    s.map_values(|r: Released| (r.tag, r.bytes@))
}

/// What clearing table `t` over buffer `d` hands back: the fields whose type
/// needs cleanup, from the highest offset down.
pub open spec fn cleanup_list(t: Seq<Field>, d: Seq<u8>) -> Seq<(u64, Seq<u8>)>
    decreases t.len(),
{
    if t.len() == 0 {
        Seq::empty()
    } else {
        let rest = cleanup_list(t.drop_last(), d);
        if t.last().cleanup {
            seq![(t.last().tag, payload(d, t.last()))] + rest
        } else {
            rest
        }
    }
}

/// A copy of `d[at..at + len]`.
fn copy_range(d: &Vec<u8>, at: usize, len: usize) -> (r: Vec<u8>)
    requires
        at + len <= d@.len(),
        at + len <= usize::MAX,
    ensures
        r@ == d@.subrange(at as int, at + len),
{
    let mut r: Vec<u8> = Vec::new();
    let mut j: usize = 0;
    while j < len
        invariant
            at + len <= d@.len(),
            at + len <= usize::MAX,
            j <= len,
            r@ == d@.subrange(at as int, at + j),
        decreases len - j,
    {
        r.push(d[at + j]);
        j = j + 1;
        assert(r@ =~= d@.subrange(at as int, at + j));
    }
    r
}

/// Whether field `f` holds a value of type `T`.
fn holds_type<T: Storable>(f: &Field) -> (r: bool)
    ensures
        r == (f.tag == T::tag_spec() && f.len == T::byte_len_spec()),
{
    f.tag == T::type_tag() && f.len == T::byte_len()
}

/// Relies on `HashMap::keys`: it visits every key of the map once, in
/// arbitrary order.
#[verifier::external_body]
fn collect_keys<K: Eq + Hash>(m: &HashMap<K, usize>) -> (r: Vec<&K>)
    requires
        obeys_key_model::<K>(),
    ensures
        r@.map_values(|k: &K| *k).to_set() == m@.dom(),
        r@.map_values(|k: &K| *k).no_duplicates(),
{
    m.keys().collect()
}

/// Relies on `Vec::capacity`, which is never below the length.
#[verifier::external_body]
fn vec_capacity(v: &Vec<u8>) -> (r: usize)
    ensures
        r >= v@.len(),
{
    v.capacity()
}

/// Relies on `Vec::reserve_exact`, which leaves the contents as they are;
/// it panics only where the new capacity passes `isize::MAX` bytes.
#[verifier::external_body]
fn bytes_reserve_exact(v: &mut Vec<u8>, additional: usize)
    requires
        old(v)@.len() + additional <= isize::MAX,
    ensures
        final(v)@ == old(v)@,
{
    v.reserve_exact(additional)
}

/// Relies on `Vec::reserve_exact`, which leaves the contents as they are;
/// it panics only where the new capacity passes `isize::MAX` bytes, and a
/// field descriptor takes under 64 bytes.
#[verifier::external_body]
fn fields_reserve_exact(v: &mut Vec<Field>, additional: usize)
    requires
        (old(v)@.len() + additional) * 64 <= isize::MAX,
    ensures
        final(v)@ == old(v)@,
{
    v.reserve_exact(additional)
}

/// Relies on `Vec::shrink_to_fit`, which leaves the contents as they are.
#[verifier::external_body]
fn vec_shrink_to_fit(v: &mut Vec<u8>)
    ensures
        final(v)@ == old(v)@,
{
    v.shrink_to_fit()
}

/// The keys of a `PolyMap`, in the order of its key index.
pub struct Keys<'a, K> {
    keys: Vec<&'a K>,
    pos: usize,
}

impl<'a, K> Keys<'a, K> {
    /// The position is within the collected keys.
    pub closed spec fn wf(&self) -> bool {
        self.pos <= self.keys@.len()
    }

    /// The keys not yet handed out.
    pub closed spec fn rest(&self) -> Seq<K> {
        self.keys@.subrange(self.pos as int, self.keys@.len() as int).map_values(|k: &K| *k)
    }

    /// Hands out the next key, or `None` when all have been.
    pub fn next(&mut self) -> (r: Option<&'a K>)
        requires
            old(self).wf(),
        ensures
            final(self).wf(),
            old(self).rest().len() == 0 ==> r is None && final(self).rest() == old(self).rest(),
            old(self).rest().len() > 0 ==> r is Some && *r->0 == old(self).rest()[0]
                && final(self).rest() == old(self).rest().drop_first(),
    {
        if self.pos < self.keys.len() {
            let k = self.keys[self.pos];
            self.pos = self.pos + 1;
            assert(self.rest() =~= old(self).rest().drop_first());
            Some(k)
        } else {
            None
        }
    }
}

/// Bytes reserved for a value whose encoding has `len` bytes.
pub open spec fn region_size(len: nat) -> nat {
    if len == 0 {
        1
    } else {
        len
    }
}

/// Alignment of the region reserved for a value of `len` bytes whose type
/// asks for alignment `a`.
pub open spec fn region_align(len: nat, a: nat) -> nat {
    if len == 0 {
        1
    } else {
        a
    }
}

/// The field that inserting a new key with a value of type `T` adds to
/// table `t`.
pub open spec fn new_field<T: Storable>(t: Seq<Field>) -> Field {
    let size = region_size(T::byte_len_spec());
    let a = region_align(T::byte_len_spec(), T::alignment_spec());
    Field {
        offset: placement(t, size as int, a as int).0 as usize,
        size: size as usize,
        len: T::byte_len_spec() as usize,
        tag: T::tag_spec(),
        cleanup: T::needs_cleanup_spec(),
    }
}

/// Where in table `t` that field goes.
pub open spec fn new_slot<T: Storable>(t: Seq<Field>) -> int {
    let size = region_size(T::byte_len_spec());
    let a = region_align(T::byte_len_spec(), T::alignment_spec());
    placement(t, size as int, a as int).1
}

impl<K: Eq + Hash> View for PolyMap<K> {
    type V = Map<K, Entry>;

    open spec fn view(&self) -> Map<K, Entry> {
        entries(self.table(), self.index(), self.bytes())
    }
}

impl<K: Eq + Hash> PolyMap<K> {
    /// The key index: each key's field offset.
    pub closed spec fn index(&self) -> Map<K, usize> {
        self.field_map@
    }

    /// The field table, sorted by offset.
    pub closed spec fn table(&self) -> Seq<Field> {
        self.fields@
    }

    /// The data buffer.
    pub closed spec fn bytes(&self) -> Seq<u8> {
        self.data@
    }

    /// The field that holds key `k`'s value.
    pub open spec fn field_of(&self, k: K) -> Field {
        self.table()[slot(self.table(), self.index()[k])]
    }

    /// The map is well formed: the key type hashes and compares in a way
    /// that does not change, the table is sorted with disjoint regions inside
    /// the buffer, and the index maps keys one to one onto the table's
    /// offsets.
    pub closed spec fn wf(&self) -> bool {
        &&& obeys_key_model::<K>()
        &&& consistent(self.fields@, self.field_map@, self.data@.len())
        &&& self.data@.len() <= usize::MAX
    }

    /// Constructs an empty map.
    pub fn new() -> (r: PolyMap<K>)
        requires
            obeys_key_model::<K>(),
        ensures
            r.wf(),
            r@ == Map::<K, Entry>::empty(),
            r.table().len() == 0,
            r.bytes().len() == 0,
    {
        let r = PolyMap { data: Vec::new(), field_map: HashMap::new(), fields: Vec::new() };
        assert(r@ =~= Map::<K, Entry>::empty());
        r
    }

    /// Constructs an empty map with room reserved for `n` fields and `size`
    /// bytes of data. The bounds keep both allocations within what `Vec`
    /// and `HashMap` can hold (a field descriptor and an index entry each
    /// take under 64 bytes).
    pub fn with_capacity(n: usize, size: usize) -> (r: PolyMap<K>)
        requires
            obeys_key_model::<K>(),
            size <= isize::MAX,
            n * 64 <= isize::MAX,
        ensures
            r.wf(),
            r@ == Map::<K, Entry>::empty(),
            r.table().len() == 0,
            r.bytes().len() == 0,
    {
        let r = PolyMap {
            data: Vec::with_capacity(size),
            field_map: HashMap::with_capacity(n),
            fields: Vec::with_capacity(n),
        };
        assert(r@ =~= Map::<K, Entry>::empty());
        r
    }

    /// Position in the table of the field at offset `off`, if there is one.
    fn position(&self, off: usize) -> (r: Option<usize>)
        requires
            self.wf(),
        ensures
            match r {
                Some(i) => i < self.table().len() && self.table()[i as int].offset == off,
                None => forall|i: int| 0 <= i < self.table().len() ==> self.table()[i].offset != off,
            },
    {
        let mut lo: usize = 0;
        let mut hi: usize = self.fields.len();
        while lo < hi
            invariant
                self.wf(),
                lo <= hi <= self.fields@.len(),
                forall|i: int| 0 <= i < lo ==> self.fields@[i].offset < off,
                forall|i: int| hi <= i < self.fields@.len() ==> self.fields@[i].offset > off,
            decreases hi - lo,
        {
            let mid = lo + (hi - lo) / 2;
            let o = self.fields[mid].offset;
            if o == off {
                return Some(mid);
            } else if o < off {
                assert forall|i: int| 0 <= i < mid + 1 implies self.fields@[i].offset < off by {
                    if i < mid {
                        assert(end(self.fields@[i]) <= self.fields@[mid as int].offset);
                    }
                }
                lo = mid + 1;
            } else {
                assert forall|i: int| mid <= i < self.fields@.len() implies self.fields@[i].offset > off by {
                    if i > mid {
                        assert(end(self.fields@[mid as int]) <= self.fields@[i].offset);
                    }
                }
                hi = mid;
            }
        }
        None
    }

    /// The field descriptor of key `k`.
    fn get_field(&self, k: &K) -> (r: Option<Field>)
        requires
            self.wf(),
        ensures
            r == if self@.contains_key(*k) {
                Some(self.field_of(*k))
            } else {
                None::<Field>
            },
    {
        match self.field_map.get(k) {
            Some(off) => {
                match self.position(*off) {
                    Some(i) => {
                        proof {
                            lemma_slot(self.fields@, i as int);
                        }
                        Some(self.fields[i])
                    },
                    None => {
                        assert(self.field_map@.contains_key(*k));
                        None
                    },
                }
            },
            None => None,
        }
    }

    /// The field of a present key lies inside the buffer, so its bytes are
    /// the entry's bytes.
    proof fn lemma_field_of_in_buffer(&self, k: K)
        requires
            self.wf(),
            self@.contains_key(k),
        ensures
            end(self.field_of(k)) <= self.bytes().len(),
            self@[k].bytes.len() == self.field_of(k).len,
            self@[k].tag == self.field_of(k).tag,
    {
        let i = slot(self.fields@, self.field_map@[k]);
        assert(end(self.fields@[i]) <= self.data@.len());
    }

    /// Whether the map holds a value for `k`, of whatever type.
    pub fn contains_key(&self, k: &K) -> (r: bool)
        requires
            self.wf(),
        ensures
            r == self@.contains_key(*k),
    {
        self.field_map.contains_key(k)
    }

    /// Whether the map holds a value of type `T` for `k`.
    pub fn contains_key_of<T: Storable>(&self, k: &K) -> (r: bool)
        requires
            self.wf(),
        ensures
            r == (self@.contains_key(*k) && is_type::<T>(self@[*k])),
    {
        match self.get_field(k) {
            Some(f) => {
                proof {
                    self.lemma_field_of_in_buffer(*k);
                }
                holds_type::<T>(&f)
            },
            None => false,
        }
    }

    /// Offset and table position for a new region of `size` bytes aligned
    /// to `alignment`, first fit.
    fn place(&self, size: usize, alignment: usize) -> (r: (usize, usize))
        requires
            self.wf(),
            size >= 1,
            alignment >= 1,
            self.bytes().len() + size + alignment <= usize::MAX,
        ensures
            r.0 == placement(self.table(), size as int, alignment as int).0,
            r.1 == placement(self.table(), size as int, alignment as int).1,
    {
        let n = self.fields.len();
        if n == 0 || size <= self.fields[0].offset {
            return (0, 0);
        }
        let mut i: usize = 0;
        while i + 1 < n
            invariant
                self.wf(),
                n == self.fields@.len(),
                n >= 1,
                i + 1 <= n,
                size >= 1,
                alignment >= 1,
                self.bytes().len() + size + alignment <= usize::MAX,
                !(size <= self.fields@[0].offset),
                first_gap(self.fields@, size as int, alignment as int, 0) == first_gap(
                    self.fields@,
                    size as int,
                    alignment as int,
                    i as int,
                ),
            decreases n - i,
        {
            let a = self.fields[i];
            let b = self.fields[i + 1];
            assert(end(self.fields@[i as int]) <= self.data@.len());
            let off = align(a.offset + a.size, alignment);
            assert(end(self.fields@[i as int + 1]) <= self.data@.len());
            if off + size <= b.offset {
                return (off, i + 1);
            }
            i = i + 1;
        }
        let last = self.fields[n - 1];
        assert(end(self.fields@[n - 1]) <= self.data@.len());
        (align(last.offset + last.size, alignment), n)
    }

    /// Reserves a region for a value of `len` bytes aligned to `alignment`
    /// under the new key `k`, and records it in the table and the index.
    /// A value of no bytes still gets a region of one byte, so that distinct
    /// keys never share an offset. Grows the buffer where the region runs
    /// past its end.
    fn allocate(&mut self, k: K, len: usize, alignment: usize, tag: u64, cleanup: bool) -> (off: usize)
        requires
            old(self).wf(),
            !old(self).index().contains_key(k),
            alignment >= 1,
            old(self).bytes().len() + len + alignment + 1 <= usize::MAX,
        ensures
            final(self).wf(),
            ({
                let size = region_size(len as nat) as int;
                let a = region_align(len as nat, alignment as nat) as int;
                let (o, idx) = placement(old(self).table(), size, a);
                &&& off == o
                &&& final(self).table() == old(self).table().insert(
                    idx,
                    Field { offset: off, size: size as usize, len, tag, cleanup },
                )
                &&& final(self).index() == old(self).index().insert(k, off)
                &&& final(self).bytes().len() == if old(self).bytes().len() < off + size {
                    off + size
                } else {
                    old(self).bytes().len() as int
                }
                &&& final(self).bytes().subrange(0, old(self).bytes().len() as int) == old(self).bytes()
            }),
            forall|i: int| old(self).bytes().len() <= i < final(self).bytes().len() ==> final(self).bytes()[i] == 0,
    {
        let (size, a) = if len == 0 {
            (1usize, 1usize)
        } else {
            (len, alignment)
        };
        let (off, idx) = self.place(size, a);
        let ghost t1 = self.fields@;
        let ghost m1 = self.field_map@;
        let ghost d1 = self.data@;
        proof {
            lemma_placement(t1, size as int, a as int);
            if t1.len() > 0 {
                assert(end(t1[t1.len() - 1]) <= d1.len());
            }
        }
        if self.data.len() < off + size {
            self.data.resize(off + size, 0u8);
        }
        assert(self.data@.subrange(0, d1.len() as int) =~= d1);
        let nf = Field { offset: off, size, len, tag, cleanup };
        proof {
            lemma_insert_consistent(t1, m1, d1.len(), idx as int, nf, k, self.data@.len());
        }
        self.field_map.insert(k, off);
        self.fields.insert(idx, nf);
        off
    }

    /// Whether the buffer can grow by a value of type `T` without its
    /// length overflowing.
    pub open spec fn room_for<T: Storable>(&self) -> bool {
        self.bytes().len() + T::byte_len_spec() + T::alignment_spec() + 1 <= usize::MAX
    }

    /// Inserts `v` under `k`, returning the value that `k` held before, if
    /// any. A new key gets a region placed first fit; a present key has its
    /// value replaced in place.
    ///
    /// A present key must hold a value of type `T`. The type is checked
    /// again at run time before the buffer is touched: a caller that breaks
    /// the requirement gets `None` and the map is left as it was.
    pub fn insert<T: Storable>(&mut self, k: K, v: T) -> (r: Option<T>)
        requires
            old(self).wf(),
            old(self)@.contains_key(k) ==> is_type::<T>(old(self)@[k]),
            !old(self)@.contains_key(k) ==> old(self).room_for::<T>(),
        ensures
            final(self).wf(),
            final(self)@ == old(self)@.insert(k, Entry { tag: T::tag_spec(), bytes: T::encode_spec(v) }),
            r == if old(self)@.contains_key(k) {
                Some(T::decode_spec(old(self)@[k].bytes))
            } else {
                None::<T>
            },
            old(self)@.contains_key(k) ==> {
                &&& final(self).table() == old(self).table()
                &&& final(self).index() == old(self).index()
                &&& final(self).bytes().len() == old(self).bytes().len()
            },
            !old(self)@.contains_key(k) ==> {
                let nf = new_field::<T>(old(self).table());
                &&& final(self).table() == old(self).table().insert(new_slot::<T>(old(self).table()), nf)
                &&& final(self).index() == old(self).index().insert(k, nf.offset)
                &&& final(self).bytes().len() == if old(self).bytes().len() < end(nf) {
                    end(nf)
                } else {
                    old(self).bytes().len() as int
                }
            },
    {
        match self.get_field(&k) {
            Some(f) => {
                proof {
                    self.lemma_field_of_in_buffer(k);
                }
                if holds_type::<T>(&f) {
                    Some(self.replace_in_place(k, f, v))
                } else {
                    None
                }
            },
            None => {
                self.insert_new(k, v);
                None
            },
        }
    }

    /// Overwrites the value of the present key `k`, whose field is `f`,
    /// with `v`; returns the value it held.
    fn replace_in_place<T: Storable>(&mut self, k: K, f: Field, v: T) -> (r: T)
        requires
            old(self).wf(),
            old(self)@.contains_key(k),
            f == old(self).field_of(k),
            is_type::<T>(old(self)@[k]),
        ensures
            final(self).wf(),
            final(self)@ == old(self)@.insert(k, Entry { tag: T::tag_spec(), bytes: T::encode_spec(v) }),
            r == T::decode_spec(old(self)@[k].bytes),
            final(self).table() == old(self).table(),
            final(self).index() == old(self).index(),
            final(self).bytes().len() == old(self).bytes().len(),
    {
        let ghost t1 = self.fields@;
        let ghost m1 = self.field_map@;
        let ghost d1 = self.data@;
        let ghost e = Entry { tag: T::tag_spec(), bytes: T::encode_spec(v) };
        proof {
            T::lemma_round_trip(v);
        }
        let ghost i = slot(t1, m1[k]);
        assert(0 <= i < t1.len() && t1[i].offset == m1[k]);
        assert(end(t1[i]) <= d1.len());
        let prev = T::decode(self.data.as_slice(), f.offset);
        let b = v.encode();
        write_at(&mut self.data, f.offset, &b);
        proof {
            let d2 = self.data@;
            assert(payload(d2, f) =~= T::encode_spec(v));
            assert forall|k2: K| #[trigger] m1.contains_key(k2) && k2 != k implies self@[k2]
                == old(self)@[k2] by {
                let i2 = choose|i2: int| 0 <= i2 < t1.len() && #[trigger] t1[i2].offset == m1[k2];
                assert(i2 != i);
                if i2 < i {
                    assert(end(t1[i2]) <= t1[i].offset);
                } else {
                    assert(end(t1[i]) <= t1[i2].offset);
                }
                assert(end(t1[i2]) <= d1.len());
                lemma_same_entry(t1, d1, i2, t1, d2, i2);
            }
            assert(self@ =~= old(self)@.insert(k, e));
        }
        prev
    }

    /// Places `v` under the new key `k`.
    #[verifier::rlimit(60)]
    fn insert_new<T: Storable>(&mut self, k: K, v: T)
        requires
            old(self).wf(),
            !old(self)@.contains_key(k),
            old(self).room_for::<T>(),
        ensures
            final(self).wf(),
            final(self)@ == old(self)@.insert(k, Entry { tag: T::tag_spec(), bytes: T::encode_spec(v) }),
            ({
                let nf = new_field::<T>(old(self).table());
                &&& final(self).table() == old(self).table().insert(new_slot::<T>(old(self).table()), nf)
                &&& final(self).index() == old(self).index().insert(k, nf.offset)
                &&& final(self).bytes().len() == if old(self).bytes().len() < end(nf) {
                    end(nf)
                } else {
                    old(self).bytes().len() as int
                }
            }),
    {
        let ghost t1 = self.fields@;
        let ghost m1 = self.field_map@;
        let ghost d1 = self.data@;
        let ghost e = Entry { tag: T::tag_spec(), bytes: T::encode_spec(v) };
        proof {
            T::lemma_round_trip(v);
        }
        let len = T::byte_len();
        let a = T::alignment();
        let off = self.allocate(k, len, a, T::type_tag(), T::needs_cleanup());
        let b = v.encode();
        let ghost d_mid = self.data@;
        let ghost t2 = self.fields@;
        let ghost idx = new_slot::<T>(t1);
        let ghost nf = new_field::<T>(t1);
        proof {
            let size = region_size(len as nat) as int;
            let al = region_align(len as nat, a as nat) as int;
            assert(size == region_size(T::byte_len_spec()));
            assert(al == region_align(T::byte_len_spec(), T::alignment_spec()));
            assert(placement(t1, size, al).1 == idx);
            assert(placement(t1, size, al).0 == off);
            assert(t2 == t1.insert(idx, Field { offset: off, size: size as usize, len, tag: T::tag_spec(), cleanup: T::needs_cleanup_spec() }));
            lemma_placement(t1, size, al);
            assert(t2[idx] == nf);
            assert(end(t2[idx]) <= d_mid.len());
        }
        write_at(&mut self.data, off, &b);
        proof {
            let d2 = self.data@;
            assert(payload(d2, nf) =~= T::encode_spec(v));
            lemma_slot(t2, idx);
            assert forall|j: int| 0 <= j < d1.len() && !(nf.offset <= j < end(nf)) implies d1[j] == d2[j] by {
                assert(d_mid.subrange(0, d1.len() as int)[j] == d1[j]);
            }
            lemma_entries_after_new(t1, m1, d1, t2, d2, idx, k);
            assert(self@ =~= old(self)@.insert(k, e));
        }
    }

    /// The value of type `T` under `k`, or `None` where `k` is absent.
    ///
    /// A present key must hold a value of type `T`. The type is checked
    /// again at run time before the buffer is touched: a caller that breaks
    /// the requirement gets `None` and the map is left as it was.
    pub fn get<T: Storable>(&self, k: &K) -> (r: Option<T>)
        requires
            self.wf(),
            self@.contains_key(*k) ==> is_type::<T>(self@[*k]),
        ensures
            r == if self@.contains_key(*k) {
                Some(T::decode_spec(self@[*k].bytes))
            } else {
                None::<T>
            },
    {
        match self.get_field(k) {
            Some(f) => {
                proof {
                    self.lemma_field_of_in_buffer(*k);
                }
                if holds_type::<T>(&f) {
                    Some(T::decode(self.data.as_slice(), f.offset))
                } else {
                    None
                }
            },
            None => None,
        }
    }

    /// Removes `k`, handing its value of type `T` back to the caller;
    /// `None` where `k` is absent. The region it held becomes free for later
    /// values; no other value moves.
    ///
    /// A present key must hold a value of type `T`. The type is checked
    /// again at run time before the buffer is touched: a caller that breaks
    /// the requirement gets `None` and the map is left as it was.
    pub fn remove<T: Storable>(&mut self, k: &K) -> (r: Option<T>)
        requires
            old(self).wf(),
            old(self)@.contains_key(*k) ==> is_type::<T>(old(self)@[*k]),
        ensures
            final(self).wf(),
            final(self)@ == old(self)@.remove(*k),
            r == if old(self)@.contains_key(*k) {
                Some(T::decode_spec(old(self)@[*k].bytes))
            } else {
                None::<T>
            },
            final(self).bytes() == old(self).bytes(),
            old(self)@.contains_key(*k) ==> final(self).table() == old(self).table().remove(
                slot(old(self).table(), old(self).index()[*k]),
            ),
            !old(self)@.contains_key(*k) ==> final(self).table() == old(self).table(),
            final(self).index() == old(self).index().remove(*k),
    {
        let off = match self.field_map.get(k) {
            Some(o) => *o,
            None => {
                return None;
            },
        };
        let pos = match self.position(off) {
            Some(i) => i,
            None => {
                assert(self.field_map@.contains_key(*k));
                return None;
            },
        };
        let ghost t1 = self.fields@;
        let ghost m1 = self.field_map@;
        proof {
            lemma_slot(t1, pos as int);
        }
        if !holds_type::<T>(&self.fields[pos]) {
            return None;
        }
        proof {
            assert(end(t1[pos as int]) <= self.data@.len());
            lemma_remove_consistent(t1, m1, self.data@.len(), pos as int, *k);
            lemma_remove_entries(t1, m1, self.data@, pos as int, *k);
        }
        let v = T::decode(self.data.as_slice(), off);
        self.field_map.remove(k);
        self.fields.remove(pos);
        assert(self@ =~= old(self)@.remove(*k));
        Some(v)
    }

    /// Removes every entry. Fields are taken from the highest offset down;
    /// each value whose type needs cleanup is handed back, in that order,
    /// and no other is.
    pub fn clear(&mut self) -> (r: Vec<Released>)
        requires
            old(self).wf(),
        ensures
            final(self).wf(),
            final(self)@ == Map::<K, Entry>::empty(),
            final(self).table().len() == 0,
            final(self).bytes() == old(self).bytes(),
            released_view(r@) == cleanup_list(old(self).table(), old(self).bytes()),
    {
        let ghost t0 = self.fields@;
        let mut out: Vec<Released> = Vec::new();
        while self.fields.len() > 0
            invariant
                self.data@ == old(self).data@,
                self.data@.len() <= usize::MAX,
                self.fields@.len() <= t0.len(),
                t0 == old(self).fields@,
                self.fields@ == t0.subrange(0, self.fields@.len() as int),
                consistent(t0, old(self).field_map@, self.data@.len()),
                cleanup_list(t0, self.data@) == released_view(out@) + cleanup_list(self.fields@, self.data@),
            decreases self.fields@.len(),
        {
            let ghost cur = self.fields@;
            let f = self.fields.pop().unwrap();
            assert(self.fields@ =~= cur.drop_last());
            assert(f == t0[cur.len() - 1]);
            assert(end(t0[cur.len() - 1]) <= self.data@.len());
            if f.cleanup {
                let bytes = copy_range(&self.data, f.offset, f.len);
                let ghost before = out@;
                out.push(Released { tag: f.tag, bytes });
                assert(released_view(out@) =~= released_view(before) + seq![(f.tag, payload(self.data@, f))]);
                assert(released_view(out@) + cleanup_list(self.fields@, self.data@) =~= released_view(before)
                    + (seq![(f.tag, payload(self.data@, f))] + cleanup_list(self.fields@, self.data@)));
            }
            assert(self.fields@ =~= t0.subrange(0, self.fields@.len() as int));
        }
        assert(released_view(out@) + Seq::<(u64, Seq<u8>)>::empty() =~= released_view(out@));
        self.field_map.clear();
        assert(self@ =~= Map::<K, Entry>::empty());
        assert(self.field_map@.dom() =~= Set::<K>::empty());
        out
    }

    /// The keys of the map, each once, in no particular order.
    pub fn keys(&self) -> (r: Keys<'_, K>)
        requires
            self.wf(),
        ensures
            r.rest().to_set() == self@.dom(),
            r.rest().no_duplicates(),
            r.rest().len() == self@.len(),
            r.wf(),
    {
        let out = collect_keys(&self.field_map);
        let ghost all = out@.map_values(|k: &K| *k);
        let r = Keys { keys: out, pos: 0 };
        assert(r.rest() =~= all);
        proof {
            all.unique_seq_to_set();
        }
        assert(self@.dom() =~= self.field_map@.dom());
        r
    }

    /// Capacity, in bytes, of the data buffer.
    pub fn data_capacity(&self) -> (r: usize)
        ensures
            r >= self.bytes().len(),
    {
        vec_capacity(&self.data)
    }

    /// Reserves room for at least `additional` more bytes of data.
    pub fn reserve_data(&mut self, additional: usize)
        requires
            old(self).bytes().len() + additional <= isize::MAX,
        ensures
            final(self).bytes() == old(self).bytes(),
            final(self).table() == old(self).table(),
            final(self).index() == old(self).index(),
            final(self)@ == old(self)@,
            old(self).wf() ==> final(self).wf(),
    {
        self.data.reserve(additional);
    }

    /// Reserves room for at least `n` more bytes of data, without
    /// over-allocating.
    pub fn reserve_data_exact(&mut self, n: usize)
        requires
            old(self).bytes().len() + n <= isize::MAX,
        ensures
            final(self).bytes() == old(self).bytes(),
            final(self).table() == old(self).table(),
            final(self).index() == old(self).index(),
            final(self)@ == old(self)@,
            old(self).wf() ==> final(self).wf(),
    {
        bytes_reserve_exact(&mut self.data, n);
    }

    /// Reserves room for at least `additional` more fields. The bound keeps
    /// the table's allocation (a field descriptor takes under 64 bytes)
    /// within what `Vec` can hold.
    pub fn reserve_fields(&mut self, additional: usize)
        requires
            (old(self).table().len() + additional) * 64 <= isize::MAX,
        ensures
            final(self).bytes() == old(self).bytes(),
            final(self).table() == old(self).table(),
            final(self).index() == old(self).index(),
            final(self)@ == old(self)@,
            old(self).wf() ==> final(self).wf(),
    {
        self.fields.reserve(additional);
    }

    /// Reserves room for at least `n` more fields, without over-allocating,
    /// under the same bound as `reserve_fields`.
    pub fn reserve_fields_exact(&mut self, n: usize)
        requires
            (old(self).table().len() + n) * 64 <= isize::MAX,
        ensures
            final(self).bytes() == old(self).bytes(),
            final(self).table() == old(self).table(),
            final(self).index() == old(self).index(),
            final(self)@ == old(self)@,
            old(self).wf() ==> final(self).wf(),
    {
        fields_reserve_exact(&mut self.fields, n);
    }

    /// Gives unused capacity of the data buffer back. Stored values do not
    /// move.
    pub fn shrink_data_to_fit(&mut self)
        ensures
            final(self).bytes() == old(self).bytes(),
            final(self).table() == old(self).table(),
            final(self).index() == old(self).index(),
            final(self)@ == old(self)@,
            old(self).wf() ==> final(self).wf(),
    {
        vec_shrink_to_fit(&mut self.data);
    }

    /// Number of bytes in the data buffer.
    pub fn data_size(&self) -> (r: usize)
        ensures
            r == self.bytes().len(),
    {
        self.data.len()
    }

    /// Number of entries in the map.
    pub fn len(&self) -> (r: usize)
        requires
            self.wf(),
        ensures
            r == self@.len(),
            r == self.table().len(),
    {
        assert(self@.dom() =~= self.field_map@.dom());
        self.fields.len()
    }
}


/// The offsets of the fields of table `t`.
pub open spec fn offsets(t: Seq<Field>) -> Set<usize> {
    t.map_values(|f: Field| f.offset).to_set()
}

/// A field whose type needs cleanup, as `clear` hands it back.
pub open spec fn released_entry(d: Seq<u8>, f: Field) -> (u64, Seq<u8>) {
    (f.tag, payload(d, f))
}

/// A key inserted with a value of type `T` holds a value of type `T`: a
/// later access as `T` is admitted, and one as a type with another tag is
/// refused. `m2` is the map after inserting `v` under `k` into `m1`.
pub proof fn lemma_type_check<K: Eq + Hash, T: Storable, U: Storable>(m1: PolyMap<K>, m2: PolyMap<K>, k: K, v: T)
    requires
        m2@ == m1@.insert(k, Entry { tag: T::tag_spec(), bytes: T::encode_spec(v) }),
    ensures
        m2@.contains_key(k),
        is_type::<T>(m2@[k]),
        U::tag_spec() != T::tag_spec() ==> !is_type::<U>(m2@[k]),
        T::decode_spec(m2@[k].bytes) == v,
{
    T::lemma_round_trip(v);
}

/// The key index and the field table hold the same offsets, and the map's
/// length is the number of each.
pub proof fn lemma_index_matches_table<K: Eq + Hash>(m: PolyMap<K>)
    requires
        m.wf(),
    ensures
        m.index().values() == offsets(m.table()),
        m.index().dom().len() == m.table().len(),
        offsets(m.table()).len() == m.table().len(),
        m@.len() == m.table().len(),
{
    let t = m.table();
    let s = t.map_values(|f: Field| f.offset);
    assert forall|o: usize| #[trigger] m.index().values().contains(o) implies offsets(t).contains(o) by {
        let k = choose|k: K| #[trigger] m.index().contains_key(k) && m.index()[k] == o;
        let i = choose|i: int| 0 <= i < t.len() && #[trigger] t[i].offset == m.index()[k];
        assert(s[i] == o);
    }
    assert forall|o: usize| #[trigger] offsets(t).contains(o) implies m.index().values().contains(o) by {
        let i = choose|i: int| 0 <= i < s.len() && s[i] == o;
        assert(t[i].offset == o);
        assert(owned(m.index(), t[i].offset));
        let k = choose|k: K| #[trigger] m.index().contains_key(k) && m.index()[k] == t[i].offset;
        assert(m.index().contains_key(k) && m.index()[k] == o);
    }
    assert(m.index().values() =~= offsets(t));
    assert forall|i: int, j: int| 0 <= i < s.len() && 0 <= j < s.len() && i != j implies s[i] != s[j] by {
        if i < j {
            assert(end(t[i]) <= t[j].offset);
        } else {
            assert(end(t[j]) <= t[i].offset);
        }
    }
    s.unique_seq_to_set();
    assert(m@.dom() =~= m.index().dom());
}

/// The regions of any two live fields are disjoint, the table is sorted by
/// offset, and every region lies inside the data buffer.
pub proof fn lemma_no_overlap<K: Eq + Hash>(m: PolyMap<K>)
    requires
        m.wf(),
    ensures
        table_ok(m.table()),
        forall|i: int| 0 <= i < m.table().len() ==> end(#[trigger] m.table()[i]) <= m.bytes().len(),
        forall|i: int, j: int|
            0 <= i < m.table().len() && 0 <= j < m.table().len() && i != j ==> end(#[trigger] m.table()[i])
                <= m.table()[j].offset || end(#[trigger] m.table()[j]) <= m.table()[i].offset,
{
    assert forall|i: int, j: int|
        0 <= i < m.table().len() && 0 <= j < m.table().len() && i != j implies end(#[trigger] m.table()[i])
            <= m.table()[j].offset || end(#[trigger] m.table()[j]) <= m.table()[i].offset by {
        if i < j {
            assert(end(m.table()[i]) <= m.table()[j].offset);
        } else {
            assert(end(m.table()[j]) <= m.table()[i].offset);
        }
    }
}

/// Clearing hands back every field whose type needs cleanup exactly once,
/// from the highest offset down, and nothing else.
pub proof fn lemma_cleanup_exactly_once(t: Seq<Field>, d: Seq<u8>)
    ensures
        cleanup_list(t, d) == t.filter(|f: Field| f.cleanup).map_values(|f: Field| released_entry(d, f)).reverse(),
    decreases t.len(),
{
    reveal(Seq::filter);
    if t.len() > 0 {
        lemma_cleanup_exactly_once(t.drop_last(), d);
        let sub = t.drop_last().filter(|f: Field| f.cleanup).map_values(|f: Field| released_entry(d, f));
        if t.last().cleanup {
            let x = released_entry(d, t.last());
            assert(t.filter(|f: Field| f.cleanup) == t.drop_last().filter(|f: Field| f.cleanup).push(t.last()));
            assert(t.filter(|f: Field| f.cleanup).map_values(|f: Field| released_entry(d, f)) =~= sub.push(x));
            assert(sub.push(x).reverse() =~= seq![x] + sub.reverse());
        } else {
            assert(t.filter(|f: Field| f.cleanup) == t.drop_last().filter(|f: Field| f.cleanup));
        }
    }
}

} // verus!
