//! Which descriptor writes an update makes: one per binding of each set, the
//! binding numbered by its place in its set, and each write pointing at the
//! last image or buffer description that the writes so far have added.

use vstd::prelude::*;

verus! {

/// What a binding binds.
#[derive(PartialEq, Eq, Structural, Clone, Copy, Debug)]
pub enum BindingKind {
    CombinedImageSampler,
    StorageBuffer,
}

/// One descriptor write: the set (by its index among those updated), the
/// binding, what it binds, and the indices of the image and buffer
/// descriptions it points at, if any.
#[derive(PartialEq, Eq, Structural, Clone, Copy, Debug)]
pub struct WritePlan {
    pub set: usize,
    pub binding: u32,
    pub kind: BindingKind,
    pub image_info: Option<usize>,
    pub buffer_info: Option<usize>,
}

/// The bindings of the first `n` sets, one after the other, each as its set,
/// its place in the set, and its kind.
pub open spec fn flat_bindings(bindings: Seq<Seq<BindingKind>>, n: int) -> Seq<(usize, usize, BindingKind)>
    decreases n,
{
    if n <= 0 {
        Seq::empty()
    } else {
        flat_bindings(bindings, n - 1) + Seq::new(bindings[n - 1].len(), |i: int| ((n - 1) as usize, i as usize, bindings[n - 1][i]))
    }
}

/// How many of the first `n` flattened bindings are of `kind`.
pub open spec fn count_kind(flat: Seq<(usize, usize, BindingKind)>, n: int, kind: BindingKind) -> int
    decreases n,
{
    if n <= 0 {
        0
    } else {
        count_kind(flat, n - 1, kind) + (if flat[n - 1].2 == kind { 1int } else { 0int })
    }
}

/// The last description of `kind` added by the first `n` writes.
pub open spec fn last_of(flat: Seq<(usize, usize, BindingKind)>, n: int, kind: BindingKind) -> Option<usize> {
    if count_kind(flat, n, kind) > 0 {
        Some((count_kind(flat, n, kind) - 1) as usize)
    } else {
        None
    }
}

/// The write for the `w`-th flattened binding.
pub open spec fn write_for(flat: Seq<(usize, usize, BindingKind)>, w: int) -> WritePlan {
    WritePlan {
        set: flat[w].0,
        binding: flat[w].1 as u32,
        kind: flat[w].2,
        image_info: last_of(flat, w + 1, BindingKind::CombinedImageSampler),
        buffer_info: last_of(flat, w + 1, BindingKind::StorageBuffer),
    }
}

/// The number of sets updated: those that have both a descriptor set and
/// bindings.
pub open spec fn sets_updated(set_count: int, bindings: Seq<Seq<BindingKind>>) -> int {
    if set_count < bindings.len() {
        set_count
    } else {
        bindings.len() as int
    }
}

proof fn lemma_flat_grows(bindings: Seq<Seq<BindingKind>>, m: int, n: int)
    requires
        0 <= m <= n,
    ensures
        flat_bindings(bindings, m).len() <= flat_bindings(bindings, n).len(),
    decreases n - m,
{
    if m < n {
        lemma_flat_grows(bindings, m, n - 1);
    }
}

proof fn lemma_count_kind_bounds(flat: Seq<(usize, usize, BindingKind)>, n: int, kind: BindingKind)
    requires
        0 <= n,
    ensures
        0 <= count_kind(flat, n, kind) <= n,
    decreases n,
{
    if n > 0 {
        lemma_count_kind_bounds(flat, n - 1, kind);
    }
}

proof fn lemma_count_kind_prefix(a: Seq<(usize, usize, BindingKind)>, b: Seq<(usize, usize, BindingKind)>, n: int, kind: BindingKind)
    requires
        0 <= n <= a.len(),
        n <= b.len(),
        a.subrange(0, n) == b.subrange(0, n),
    ensures
        count_kind(a, n, kind) == count_kind(b, n, kind),
    decreases n,
{
    if n > 0 {
        assert(a[n - 1] == a.subrange(0, n)[n - 1]);
        assert(b[n - 1] == b.subrange(0, n)[n - 1]);
        assert(a.subrange(0, n - 1) =~= a.subrange(0, n).subrange(0, n - 1));
        assert(b.subrange(0, n - 1) =~= b.subrange(0, n).subrange(0, n - 1));
        lemma_count_kind_prefix(a, b, n - 1, kind);
    }
}

proof fn lemma_flat_has(bindings: Seq<Seq<BindingKind>>, n: int, s: int, i: int)
    requires
        0 <= s < n <= bindings.len(),
        0 <= i < bindings[s].len(),
        bindings.len() <= usize::MAX,
        forall|t: int| 0 <= t < bindings.len() ==> (#[trigger] bindings[t]).len() <= usize::MAX,
    ensures
        exists|w: int| 0 <= w < flat_bindings(bindings, n).len() && #[trigger] flat_bindings(bindings, n)[w] == (s as usize, i as usize, bindings[s][i]),
    decreases n,
{
    let prev = flat_bindings(bindings, n - 1);
    let flat = flat_bindings(bindings, n);
    if s == n - 1 {
        let w = prev.len() + i;
        assert(flat[w] == (s as usize, i as usize, bindings[s][i]));
    } else {
        lemma_flat_has(bindings, n - 1, s, i);
        let w = choose|w: int| 0 <= w < prev.len() && #[trigger] prev[w] == (s as usize, i as usize, bindings[s][i]);
        assert(flat[w] == prev[w]);
    }
}

proof fn lemma_flat_in(bindings: Seq<Seq<BindingKind>>, n: int)
    requires
        0 <= n <= bindings.len(),
        bindings.len() <= usize::MAX,
        forall|t: int| 0 <= t < bindings.len() ==> (#[trigger] bindings[t]).len() <= usize::MAX,
    ensures
        forall|w: int| 0 <= w < flat_bindings(bindings, n).len() ==> {
            &&& (#[trigger] flat_bindings(bindings, n)[w]).0 < n
            &&& (flat_bindings(bindings, n)[w].1 as int) < bindings[flat_bindings(bindings, n)[w].0 as int].len()
            &&& flat_bindings(bindings, n)[w].2 == bindings[flat_bindings(bindings, n)[w].0 as int][flat_bindings(bindings, n)[w].1 as int]
        },
    decreases n,
{
    if n > 0 {
        lemma_flat_in(bindings, n - 1);
        let prev = flat_bindings(bindings, n - 1);
        let flat = flat_bindings(bindings, n);
        assert forall|w: int| 0 <= w < flat.len() implies {
            &&& (#[trigger] flat[w]).0 < n
            &&& (flat[w].1 as int) < bindings[flat[w].0 as int].len()
            &&& flat[w].2 == bindings[flat[w].0 as int][flat[w].1 as int]
        } by {
            if w < prev.len() {
                assert(flat[w] == prev[w]);
            } else {
                let i = w - prev.len();
                assert(flat[w] == ((n - 1) as usize, i as usize, bindings[n - 1][i]));
            }
        }
    }
}

/// An update writes every binding of every set that has both a descriptor
/// set and bindings, that is of each of the first `set_count` sets when there
/// are at least as many binding lists, and of every list when there are at
/// least as many sets: binding `i` of set `s` gets a write to set `s`,
/// binding `i`, of its kind (binding numbers fit a `u32`, as Vulkan's do).
/// No write goes to any other set or binding.
pub proof fn lemma_every_binding_written(set_count: int, bindings: Seq<Seq<BindingKind>>)
    requires
        0 <= set_count,
        bindings.len() <= usize::MAX,
        forall|t: int| 0 <= t < bindings.len() ==> (#[trigger] bindings[t]).len() <= u32::MAX,
    ensures
        ({
            let flat = flat_bindings(bindings, sets_updated(set_count, bindings));
            &&& forall|s: int, i: int|
                #![trigger bindings[s][i]]
                0 <= s < set_count && s < bindings.len() && 0 <= i < bindings[s].len() ==> exists|w: int|
                    0 <= w < flat.len() && (#[trigger] write_for(flat, w)).set == s && write_for(flat, w).binding == i
                        && write_for(flat, w).kind == bindings[s][i]
            &&& forall|w: int|
                0 <= w < flat.len() ==> (#[trigger] write_for(flat, w)).set < set_count && write_for(flat, w).set < bindings.len()
                    && (write_for(flat, w).binding as int) < bindings[write_for(flat, w).set as int].len()
        }),
{
    let n = sets_updated(set_count, bindings);
    let flat = flat_bindings(bindings, n);
    lemma_flat_in(bindings, n);
    assert forall|s: int, i: int|
        #![trigger bindings[s][i]]
        0 <= s < set_count && s < bindings.len() && 0 <= i < bindings[s].len() implies exists|w: int|
            0 <= w < flat.len() && (#[trigger] write_for(flat, w)).set == s && write_for(flat, w).binding == i
                && write_for(flat, w).kind == bindings[s][i] by {
        lemma_flat_has(bindings, n, s, i);
        let w = choose|w: int| 0 <= w < flat.len() && #[trigger] flat[w] == (s as usize, i as usize, bindings[s][i]);
        assert(write_for(flat, w).set == s);
        assert(write_for(flat, w).binding == i);
    }
    assert forall|w: int| 0 <= w < flat.len() implies (#[trigger] write_for(flat, w)).set < set_count && write_for(flat, w).set
        < bindings.len() && (write_for(flat, w).binding as int) < bindings[write_for(flat, w).set as int].len() by {
        assert(flat[w].0 < n);
    }
}

/// A write of `kind` points at its own description: the one its binding
/// adds, after those of the bindings of that kind before it.
pub proof fn lemma_write_points_at_own_info(flat: Seq<(usize, usize, BindingKind)>, w: int, kind: BindingKind)
    requires
        0 <= w < flat.len(),
        flat[w].2 == kind,
    ensures
        last_of(flat, w + 1, kind) == Some(count_kind(flat, w, kind) as usize),
        kind == BindingKind::CombinedImageSampler ==> write_for(flat, w).image_info == Some(count_kind(flat, w, kind) as usize),
        kind == BindingKind::StorageBuffer ==> write_for(flat, w).buffer_info == Some(count_kind(flat, w, kind) as usize),
{
    lemma_count_kind_bounds(flat, w, kind);
}

/// The writes that updating `set_count` descriptor sets with `bindings` (a
/// list of bindings per set) makes: one per binding of each set that has both,
/// set by set, in order (see `write_for`).
pub fn plan_descriptor_writes(set_count: usize, bindings: &Vec<Vec<BindingKind>>) -> (r: Vec<WritePlan>)
    requires
        ({
            let all = bindings@.map_values(|b: Vec<BindingKind>| b@);
            flat_bindings(all, all.len() as int).len() <= usize::MAX
        }),
    ensures
        ({
            let all = bindings@.map_values(|b: Vec<BindingKind>| b@);
            let flat = flat_bindings(all, sets_updated(set_count as int, all));
            &&& r@.len() == flat.len()
            &&& forall|w: int| 0 <= w < flat.len() ==> #[trigger] r@[w] == write_for(flat, w)
        }),
{
    let ghost all = bindings@.map_values(|b: Vec<BindingKind>| b@);
    let sets = if set_count < bindings.len() {
        set_count
    } else {
        bindings.len()
    };
    let ghost full = flat_bindings(all, all.len() as int);
    let mut writes: Vec<WritePlan> = Vec::new();
    let mut images: usize = 0;
    let mut buffers: usize = 0;
    let mut s: usize = 0;
    while s < sets
        invariant
            sets <= bindings@.len(),
            all == bindings@.map_values(|b: Vec<BindingKind>| b@),
            s <= sets,
            full == flat_bindings(all, all.len() as int),
            full.len() <= usize::MAX,
            writes@.len() == flat_bindings(all, s as int).len(),
            images == count_kind(flat_bindings(all, s as int), writes@.len() as int, BindingKind::CombinedImageSampler),
            buffers == count_kind(flat_bindings(all, s as int), writes@.len() as int, BindingKind::StorageBuffer),
            forall|w: int| 0 <= w < writes@.len() ==> #[trigger] writes@[w] == write_for(flat_bindings(all, s as int), w),
        decreases sets - s,
    {
        let list = &bindings[s];
        let ghost prev = flat_bindings(all, s as int);
        let ghost next = flat_bindings(all, s + 1);
        assert(all[s as int] == list@);
        assert(next == prev + Seq::new(list@.len(), |i: int| (s, i as usize, list@[i])));
        proof {
            lemma_flat_grows(all, s + 1, all.len() as int);
            assert(next.subrange(0, prev.len() as int) =~= prev);
            assert(prev.subrange(0, prev.len() as int) =~= prev);
            lemma_count_kind_prefix(prev, next, prev.len() as int, BindingKind::CombinedImageSampler);
            lemma_count_kind_prefix(prev, next, prev.len() as int, BindingKind::StorageBuffer);
            assert forall|w: int| 0 <= w < writes@.len() implies #[trigger] writes@[w] == write_for(next, w) by {
                assert(next.subrange(0, w + 1) =~= prev.subrange(0, w + 1));
                lemma_count_kind_prefix(prev, next, w + 1, BindingKind::CombinedImageSampler);
                lemma_count_kind_prefix(prev, next, w + 1, BindingKind::StorageBuffer);
                assert(next[w] == prev[w]);
            }
        }
        let mut i: usize = 0;
        while i < list.len()
            invariant
                s < sets <= bindings@.len(),
                all == bindings@.map_values(|b: Vec<BindingKind>| b@),
                list@ == all[s as int],
                next == flat_bindings(all, s + 1),
                next == prev + Seq::new(list@.len(), |i: int| (s, i as usize, list@[i])),
                next.len() <= full.len() <= usize::MAX,
                i <= list@.len(),
                writes@.len() == prev.len() + i,
                images == count_kind(next, writes@.len() as int, BindingKind::CombinedImageSampler),
                buffers == count_kind(next, writes@.len() as int, BindingKind::StorageBuffer),
                forall|w: int| 0 <= w < writes@.len() ==> #[trigger] writes@[w] == write_for(next, w),
            decreases list.len() - i,
        {
            proof {
                lemma_count_kind_bounds(next, writes@.len() as int, BindingKind::CombinedImageSampler);
                lemma_count_kind_bounds(next, writes@.len() as int, BindingKind::StorageBuffer);
            }
            let kind = list[i];
            let ghost w = writes@.len() as int;
            assert(next[w] == (s, i, kind));
            if kind == BindingKind::CombinedImageSampler {
                images = images + 1;
            } else {
                buffers = buffers + 1;
            }
            let plan = WritePlan {
                set: s,
                binding: i as u32,
                kind,
                image_info: if images > 0 {
                    Some(images - 1)
                } else {
                    None
                },
                buffer_info: if buffers > 0 {
                    Some(buffers - 1)
                } else {
                    None
                },
            };
            writes.push(plan);
            i += 1;
        }
        s += 1;
    }
    writes
}

} // verus!
