//! The descriptor set layouts of a shader: its sampled images, ordered by set
//! and binding, grouped into sets numbered from 0.

use vstd::prelude::*;
use crate::tokens::DescriptorBinding;
use crate::sort::{sorted_stably, sort_by_first};

verus! {

/// A descriptor that a shader uses: its set, its binding, and the name of its
/// `DescriptorType`.
#[derive(Clone, Copy)]
pub struct DescriptorResource {
    pub set: u32,
    pub binding: u32,
    pub descriptor_type: &'static str,
}

/// The key by which descriptors are ordered: the set in the high half, the
/// binding in the low half (the set's high bits and the binding's overflow
/// fall where `u32` arithmetic puts them).
pub open spec fn descriptor_key(set: u32, binding: u32) -> u32 {
    ((set << 16u32) | binding) as u32
}

/// The descriptors keyed for sorting.
pub open spec fn keyed(resources: Seq<DescriptorResource>) -> Seq<(u32, DescriptorResource)> {
    resources.map_values(|r: DescriptorResource| (descriptor_key(r.set, r.binding), r))
}

/// How many descriptors from `pos` on belong to set `set`.
pub open spec fn set_run(s: Seq<(u32, DescriptorResource)>, pos: int, set: int) -> int
    decreases s.len() - pos,
{
    if pos < 0 || pos >= s.len() || s[pos].1.set != set {
        0
    } else {
        1 + set_run(s, pos + 1, set)
    }
}

/// What `set_run` counts: the descriptors of set `set` that follow `pos`.
pub proof fn lemma_set_run(s: Seq<(u32, DescriptorResource)>, pos: int, set: int)
    requires
        0 <= pos,
    ensures
        0 <= set_run(s, pos, set),
        set_run(s, pos, set) > 0 ==> pos + set_run(s, pos, set) <= s.len(),
        forall|k: int| pos <= k < pos + set_run(s, pos, set) ==> #[trigger] s[k].1.set == set,
        pos + set_run(s, pos, set) < s.len() ==> s[pos + set_run(s, pos, set)].1.set != set,
    decreases s.len() - pos,
{
    if pos < s.len() && s[pos].1.set == set {
        lemma_set_run(s, pos + 1, set);
    }
}

/// The set layouts of the sorted descriptors `s` from `pos` on, starting with
/// set `set`: each set takes the descriptors of its number that follow, and
/// the first descriptor after them is passed over; a set with none ends the
/// layouts.
pub open spec fn set_layouts_from(s: Seq<(u32, DescriptorResource)>, pos: int, set: int) -> Seq<Seq<DescriptorResource>>
    decreases s.len() - pos,
{
    if pos < 0 || pos >= s.len() || set_run(s, pos, set) == 0 {
        Seq::empty()
    } else {
        let n = set_run(s, pos, set);
        let next = if pos + n < s.len() { pos + n + 1 } else { pos + n };
        proof {
            lemma_set_run(s, pos, set);
        }
        seq![s.subrange(pos, pos + n).map_values(|e: (u32, DescriptorResource)| e.1)] + set_layouts_from(s, next, set + 1)
    }
}

/// The set layouts of the sorted descriptors `s`, from set 0.
pub open spec fn set_layouts(s: Seq<(u32, DescriptorResource)>) -> Seq<Seq<DescriptorResource>> {
    set_layouts_from(s, 0, 0)
}

/// The layout binding of a descriptor, seen by the fragment stage.
pub open spec fn layout_binding(r: DescriptorResource) -> DescriptorBinding {
    DescriptorBinding { binding: r.binding, descriptor_type: r.descriptor_type, descriptor_count: 1, stage_flags: "FRAGMENT" }
}

/// `out` holds the layout binding of each descriptor of `layouts`, set by set.
pub open spec fn bindings_of(out: Seq<Vec<DescriptorBinding>>, layouts: Seq<Seq<DescriptorResource>>) -> bool {
    &&& out.len() == layouts.len()
    &&& forall|g: int| 0 <= g < out.len() ==> (#[trigger] out[g])@.len() == layouts[g].len()
    &&& forall|g: int, k: int| 0 <= g < out.len() && 0 <= k < layouts[g].len() ==> (#[trigger] out[g]@[k]) == layout_binding(layouts[g][k])
}

/// Groups the descriptors `sorted`, already in key order, into set layouts
/// (see `set_layouts`).
pub fn group_set_layouts(sorted: &Vec<(u32, DescriptorResource)>) -> (r: Vec<Vec<DescriptorBinding>>)
    requires
        sorted@.len() <= u32::MAX,
    ensures
        bindings_of(r@, set_layouts(sorted@)),
{
    let n = sorted.len();
    let ghost s = sorted@;
    let mut result: Vec<Vec<DescriptorBinding>> = Vec::new();
    let mut pos: usize = 0;
    let mut set: u32 = 0;
    loop
        invariant_except_break
            n == s.len(),
            s == sorted@,
            n <= u32::MAX,
            pos <= n,
            set <= pos,
            bindings_of(result@, set_layouts(s).subrange(0, set as int)),
            set_layouts(s).len() >= set,
            set_layouts(s).subrange(set as int, set_layouts(s).len() as int) == set_layouts_from(s, pos as int, set as int),
        ensures
            bindings_of(result@, set_layouts(s)),
        decreases n - pos,
    {
        let ghost run = set_run(s, pos as int, set as int);
        proof {
            lemma_set_run(s, pos as int, set as int);
        }
        let mut group: Vec<DescriptorBinding> = Vec::new();
        let start = pos;
        while pos < n && sorted[pos].1.set == set
            invariant
                n == s.len(),
                s == sorted@,
                start <= pos <= n,
                run == set_run(s, start as int, set as int),
                pos <= start + run,
                forall|k: int| start <= k < start + run ==> #[trigger] s[k].1.set == set,
                start + run < n ==> s[start + run].1.set != set,
                group@.len() == pos - start,
                forall|k: int| 0 <= k < group@.len() ==> #[trigger] group@[k] == layout_binding(s[start + k].1),
            decreases n - pos,
        {
            let r = sorted[pos].1;
            group.push(DescriptorBinding {
                binding: r.binding,
                descriptor_type: r.descriptor_type,
                descriptor_count: 1,
                stage_flags: "FRAGMENT",
            });
            pos += 1;
        }
        assert(pos == start + run);
        if pos < n {
            pos += 1;
        }
        if group.len() == 0 {
            assert(set_layouts_from(s, start as int, set as int) == Seq::<Seq<DescriptorResource>>::empty());
            assert(set_layouts(s).subrange(set as int, set_layouts(s).len() as int).len() == 0);
            assert(set_layouts(s).subrange(0, set as int) =~= set_layouts(s));
            break;
        }
        let ghost layout = s.subrange(start as int, start + run).map_values(|e: (u32, DescriptorResource)| e.1);
        assert(set_layouts_from(s, start as int, set as int) == seq![layout] + set_layouts_from(s, pos as int, set + 1));
        result.push(group);
        set += 1;
        proof {
            let all = set_layouts(s);
            let tail = all.subrange(set - 1, all.len() as int);
            assert(tail[0] == layout);
            assert(all[set - 1] == layout);
            assert(all.subrange(set as int, all.len() as int) =~= tail.subrange(1, tail.len() as int));
            assert(tail.subrange(1, tail.len() as int) =~= set_layouts_from(s, pos as int, set as int));
            assert forall|g: int, k: int| 0 <= g < result@.len() && 0 <= k < all.subrange(0, set as int)[g].len() implies
                (#[trigger] result@[g]@[k]) == layout_binding(all.subrange(0, set as int)[g][k]) by {
                if g == set - 1 {
                    assert(layout[k] == s[start + k].1);
                }
            }
        }
    }
    result
}

/// The set layouts of the descriptors `resources`: sorted stably by key (set
/// first, then binding), then grouped into sets from 0 (see `set_layouts`).
pub fn descriptor_set_layouts(resources: &Vec<DescriptorResource>) -> (r: Vec<Vec<DescriptorBinding>>)
    requires
        resources@.len() <= u32::MAX,
    ensures
        exists|sorted: Seq<(u32, DescriptorResource)>| sorted_stably(keyed(resources@), sorted) && bindings_of(r@, set_layouts(sorted)),
{
    let mut keyed_resources: Vec<(u32, DescriptorResource)> = Vec::with_capacity(resources.len());
    let mut i: usize = 0;
    while i < resources.len()
        invariant
            i <= resources.len(),
            keyed_resources@ == keyed(resources@).subrange(0, i as int),
        decreases resources.len() - i,
    {
        let r = resources[i];
        keyed_resources.push(((r.set << 16u32) | r.binding, r));
        assert(keyed_resources@ =~= keyed(resources@).subrange(0, i + 1));
        i += 1;
    }
    assert(keyed(resources@).subrange(0, resources.len() as int) =~= keyed(resources@));
    let ghost before = keyed_resources@;
    sort_by_first(&mut keyed_resources);
    group_set_layouts(&keyed_resources)
}

} // verus!
