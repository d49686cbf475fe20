use vstd::prelude::*;

verus! {

/// Descriptor of one occupied region of the data buffer.
///
/// `size` is the number of bytes reserved (at least one), `len` the number of
/// bytes the stored value's encoding occupies at the start of the region.
#[derive(Clone, Copy, Debug)]
pub struct Field {
    pub offset: usize,
    pub size: usize,
    pub len: usize,
    pub tag: u64,
    pub cleanup: bool,
}

/// One past the last byte of a field's region.
pub open spec fn end(f: Field) -> int {
    f.offset + f.size
}

/// `x` rounded up to the next multiple of `a`.
pub open spec fn align_up(x: int, a: int) -> int {
    if x % a == 0 {
        x
    } else {
        x + (a - x % a)
    }
}

/// Fields are ordered by offset and their regions are pairwise disjoint;
/// every region is non-empty and holds its value's encoding.
pub open spec fn table_ok(t: Seq<Field>) -> bool {
    &&& forall|i: int| 0 <= i < t.len() ==> #[trigger] t[i].size >= 1 && t[i].len <= t[i].size
    &&& forall|i: int, j: int| 0 <= i < j < t.len() ==> end(#[trigger] t[i]) <= #[trigger] t[j].offset
}

/// The first pair `(t[i], t[i + 1])`, from `i` on, whose gap holds `size`
/// bytes placed at the aligned end of `t[i]`.
pub open spec fn first_gap(t: Seq<Field>, size: int, a: int, i: int) -> Option<int>
    decreases t.len() - i,
{
    if i < 0 || i + 1 >= t.len() {
        None
    } else if align_up(end(t[i]), a) + size <= t[i + 1].offset {
        Some(i)
    } else {
        first_gap(t, size, a, i + 1)
    }
}

/// Where a new region of `size` bytes aligned to `a` goes: its offset and
/// its position in the table. First fit: before the first field, else in the
/// earliest gap between neighbours, else after the last field.
pub open spec fn placement(t: Seq<Field>, size: int, a: int) -> (int, int) {
    if t.len() == 0 || size <= t[0].offset {
        (0, 0)
    } else {
        match first_gap(t, size, a, 0) {
            Some(i) => (align_up(end(t[i]), a), i + 1),
            None => (align_up(end(t.last()), a), t.len() as int),
        }
    }
}

/// What `first_gap` finds is a pair of neighbours, from `i` on, whose gap
/// holds the new region.
pub proof fn lemma_first_gap(t: Seq<Field>, size: int, a: int, i: int)
    ensures
        match first_gap(t, size, a, i) {
            Some(j) => i <= j && j + 1 < t.len() && align_up(end(t[j]), a) + size <= t[j + 1].offset,
            None => true,
        },
    decreases t.len() - i,
{
    if i < 0 || i + 1 >= t.len() {
    } else if align_up(end(t[i]), a) + size <= t[i + 1].offset {
    } else {
        lemma_first_gap(t, size, a, i + 1);
    }
}

/// The region that `placement` picks fits between its neighbours.
pub proof fn lemma_placement(t: Seq<Field>, size: int, a: int)
    requires
        table_ok(t),
        size >= 1,
        a >= 1,
    ensures
        ({
            let (off, idx) = placement(t, size, a);
            &&& 0 <= idx <= t.len()
            &&& off >= 0
            &&& idx > 0 ==> end(t[idx - 1]) <= off
            &&& idx < t.len() ==> off + size <= t[idx].offset
            &&& idx == t.len() && t.len() > 0 ==> off < end(t.last()) + a
            &&& t.len() == 0 ==> off == 0
        }),
{
    lemma_first_gap(t, size, a, 0);
    if t.len() == 0 || size <= t[0].offset {
    } else {
        match first_gap(t, size, a, 0) {
            Some(i) => {
                lemma_align_up(end(t[i]), a);
            },
            None => {
                lemma_align_up(end(t.last()), a);
            },
        }
    }
}

pub proof fn lemma_align_up(x: int, a: int)
    requires
        x >= 0,
        a >= 1,
    ensures
        x <= align_up(x, a) < x + a,
{
    assert(0 <= x % a < a) by (nonlinear_arith)
        requires
            a >= 1,
    ;
}

/// Rounds `offset` up to the next multiple of `alignment`.
pub fn align(offset: usize, alignment: usize) -> (r: usize)
    requires
        alignment > 0,
        offset + alignment - 1 <= usize::MAX,
    ensures
        r == align_up(offset as int, alignment as int),
        offset <= r < offset + alignment,
        r as int % alignment as int == 0,
{
    let n = offset % alignment;
    if n == 0 {
        offset
    } else {
        proof {
            assert((offset + (alignment - n)) as int % alignment as int == 0) by (nonlinear_arith)
                requires
                    n == offset as int % alignment as int,
                    alignment > 0,
            ;
        }
        offset + (alignment - n)
    }
}

} // verus!
