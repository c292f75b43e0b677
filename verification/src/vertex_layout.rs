//! The vertex input layout of a vertex shader: its inputs, in location order,
//! grouped into one binding per run of inputs that advance at the same rate
//! (per vertex or per instance), each attribute packed after the one before it.

use vstd::prelude::*;
use crate::tokens::{VertexBinding, VertexAttribute};

verus! {

/// How often a vertex input advances.
#[derive(PartialEq, Eq, Structural, Clone, Copy, Debug)]
pub enum InputRate {
    Vertex,
    Instance,
}

/// The type of a shader input: `width` components (1 for a scalar) of a
/// scalar of kind `kind` (as SPIR-V reflection numbers them: 0 signed integer,
/// 1 unsigned integer, 2 float, 3 boolean) and `bits` bits.
#[derive(PartialEq, Eq, Structural, Clone, Copy, Debug)]
pub struct InputType {
    pub width: u32,
    pub kind: u32,
    pub bits: u32,
}

/// The scalar kind of a floating point type.
pub const FLOAT_KIND: u32 = 2;

/// A type that a vertex attribute format can describe: one to four float
/// components of a bit width that reflection reports.
pub open spec fn supported(t: InputType) -> bool {
    &&& 1 <= t.width <= 4
    &&& t.kind == FLOAT_KIND
    &&& (t.bits == 1 || t.bits == 8 || t.bits == 16 || t.bits == 32 || t.bits == 64)
}

/// Bytes that an attribute of type `t` takes: its bits rounded up to bytes.
pub open spec fn size_of_type(t: InputType) -> int {
    (t.width * t.bits + 7) / 8
}

/// The decimal digits of a bit width.
pub open spec fn bits_text(bits: u32) -> Seq<char> {
    if bits == 1 {
        "1"@
    } else if bits == 8 {
        "8"@
    } else if bits == 16 {
        "16"@
    } else if bits == 32 {
        "32"@
    } else {
        "64"@
    }
}

/// The name of the Vulkan format of `t`: a channel letter and the bit width
/// for each component, then the numeric kind, as in `R32G32_SFLOAT`.
pub open spec fn format_name(t: InputType) -> Seq<char> {
    let b = bits_text(t.bits);
    "R"@ + b + (if t.width >= 2 { "G"@ + b } else { Seq::empty() }) + (if t.width >= 3 { "B"@ + b } else {
        Seq::empty()
    }) + (if t.width >= 4 { "A"@ + b } else { Seq::empty() }) + "_SFLOAT"@
}

/// The name of the Vulkan input rate of `r`.
pub open spec fn rate_name(r: InputRate) -> Seq<char> {
    match r {
        InputRate::Vertex => "VERTEX"@,
        InputRate::Instance => "INSTANCE"@,
    }
}

/// Input `k` starts a new binding: it is the first, or its rate differs from
/// the one before.
pub open spec fn starts_run(rates: Seq<InputRate>, k: int) -> bool {
    k == 0 || rates[k] != rates[k - 1]
}

/// Input `k` ends its binding: it is the last, or the next one's rate differs.
pub open spec fn ends_run(rates: Seq<InputRate>, k: int) -> bool {
    k == rates.len() - 1 || rates[k + 1] != rates[k]
}

/// The binding of input `k`: how many runs of equal rates lie before its own.
pub open spec fn run_of(rates: Seq<InputRate>, k: int) -> int
    decreases k,
{
    if k <= 0 {
        0
    } else if rates[k] != rates[k - 1] {
        run_of(rates, k - 1) + 1
    } else {
        run_of(rates, k - 1)
    }
}

/// The byte offset of input `k` within its binding: the sizes of the inputs
/// of its run before it.
pub open spec fn offset_in_run(types: Seq<InputType>, rates: Seq<InputRate>, k: int) -> int
    decreases k,
{
    if k <= 0 || rates[k] != rates[k - 1] {
        0
    } else {
        offset_in_run(types, rates, k - 1) + size_of_type(types[k - 1])
    }
}

/// How many bindings the inputs need: one per run of equal rates.
pub open spec fn run_count(rates: Seq<InputRate>) -> int {
    if rates.len() == 0 {
        0
    } else {
        run_of(rates, rates.len() - 1) + 1
    }
}

/// The types of the inputs.
pub open spec fn types_of(inputs: Seq<(u32, InputType)>) -> Seq<InputType> {
    inputs.map_values(|i: (u32, InputType)| i.1)
}

/// The inputs can be laid out: one rate each, types that formats describe,
/// and bindings whose strides fit a `u32`.
pub open spec fn layout_ok(inputs: Seq<(u32, InputType)>, rates: Seq<InputRate>) -> bool {
    &&& rates.len() == inputs.len()
    &&& inputs.len() <= u32::MAX
    &&& forall|k: int| 0 <= k < inputs.len() ==> #[trigger] supported(inputs[k].1)
    &&& forall|k: int| 0 <= k < inputs.len() ==> #[trigger] offset_in_run(types_of(inputs), rates, k) + size_of_type(inputs[k].1) <= u32::MAX
}

/// The binding of input `k` has its number, its rate, and a stride that
/// reaches past input `k`.
pub open spec fn binding_done(bindings: Seq<VertexBinding>, types: Seq<InputType>, rates: Seq<InputRate>, k: int) -> bool {
    &&& bindings[run_of(rates, k)].binding == run_of(rates, k)
    &&& bindings[run_of(rates, k)].stride == offset_in_run(types, rates, k) + size_of_type(types[k])
    &&& bindings[run_of(rates, k)].input_rate@ == rate_name(rates[k])
}

/// `bindings` and `attributes` lay out `inputs` advancing at `rates`: one
/// attribute per input, in order, in the binding of its run at the offset
/// that the inputs of its run before it leave; one binding per run, numbered
/// from 0, at the run's rate, as wide as the run's inputs together.
pub open spec fn is_vertex_layout(
    bindings: Seq<VertexBinding>,
    attributes: Seq<VertexAttribute>,
    inputs: Seq<(u32, InputType)>,
    rates: Seq<InputRate>,
) -> bool {
    &&& attributes.len() == inputs.len()
    &&& forall|k: int| 0 <= k < inputs.len() ==> {
        &&& (#[trigger] attributes[k]).location == inputs[k].0
        &&& attributes[k].binding == run_of(rates, k)
        &&& attributes[k].format@ == format_name(inputs[k].1)
        &&& attributes[k].offset == offset_in_run(types_of(inputs), rates, k)
    }
    &&& bindings.len() == run_count(rates)
    &&& forall|k: int| 0 <= k < inputs.len() && #[trigger] ends_run(rates, k) ==> {
        &&& bindings[run_of(rates, k)].binding == run_of(rates, k)
        &&& bindings[run_of(rates, k)].stride == offset_in_run(types_of(inputs), rates, k) + size_of_type(inputs[k].1)
        &&& bindings[run_of(rates, k)].input_rate@ == rate_name(rates[k])
    }
}

/// Attributes are packed tightly: the first input of each run sits at offset
/// 0, each further one right after the one before it (its offset plus that
/// input's size, `(width * bits + 7) / 8` bytes), and a binding's stride is
/// the offset of its last input plus that input's size.
pub proof fn lemma_attributes_packed(
    bindings: Seq<VertexBinding>,
    attributes: Seq<VertexAttribute>,
    inputs: Seq<(u32, InputType)>,
    rates: Seq<InputRate>,
)
    requires
        is_vertex_layout(bindings, attributes, inputs, rates),
        rates.len() == inputs.len(),
    ensures
        forall|k: int| 0 <= k < inputs.len() && (k == 0 || rates[k] != rates[k - 1]) ==> (#[trigger] attributes[k]).offset == 0,
        forall|k: int|
            0 < k < inputs.len() && rates[k] == rates[k - 1] ==> (#[trigger] attributes[k]).offset == attributes[k - 1].offset
                + (inputs[k - 1].1.width * inputs[k - 1].1.bits + 7) / 8,
        forall|k: int|
            0 <= k < inputs.len() && (k == inputs.len() - 1 || rates[k + 1] != rates[k]) ==> bindings[(#[trigger] attributes[k]).binding as int].stride
                == attributes[k].offset + (inputs[k].1.width * inputs[k].1.bits + 7) / 8,
{
    let types = types_of(inputs);
    assert forall|k: int| 0 <= k < inputs.len() && (k == 0 || rates[k] != rates[k - 1]) implies (#[trigger] attributes[k]).offset == 0 by {
        assert(attributes[k].offset == offset_in_run(types, rates, k));
    }
    assert forall|k: int|
        0 < k < inputs.len() && rates[k] == rates[k - 1] implies (#[trigger] attributes[k]).offset == attributes[k - 1].offset
            + (inputs[k - 1].1.width * inputs[k - 1].1.bits + 7) / 8 by {
        assert(attributes[k].offset == offset_in_run(types, rates, k));
        assert(attributes[k - 1].offset == offset_in_run(types, rates, k - 1));
        assert(types[k - 1] == inputs[k - 1].1);
    }
    assert forall|k: int|
        0 <= k < inputs.len() && (k == inputs.len() - 1 || rates[k + 1] != rates[k]) implies bindings[(#[trigger] attributes[k]).binding as int].stride
            == attributes[k].offset + (inputs[k].1.width * inputs[k].1.bits + 7) / 8 by {
        assert(ends_run(rates, k));
        assert(attributes[k].offset == offset_in_run(types, rates, k));
    }
}

/// The rate that a marker comment names: `vertex` or `instance`.
pub open spec fn marker_rate(marker: Seq<char>) -> InputRate {
    if marker == "vertex"@ {
        InputRate::Vertex
    } else {
        InputRate::Instance
    }
}

/// The rates of `n` inputs given the marker comments of a shader: one marker
/// per input, in order, or, without markers, every input per vertex.
pub open spec fn rates_of(markers: Seq<Seq<char>>, n: int) -> Seq<InputRate> {
    if markers.len() == 0 {
        Seq::new(n as nat, |i: int| InputRate::Vertex)
    } else {
        markers.map_values(|m: Seq<char>| marker_rate(m))
    }
}

/// The markers can give `n` inputs their rates: none, or one per input, each
/// `vertex` or `instance`.
pub open spec fn markers_ok(markers: Seq<Seq<char>>, n: int) -> bool {
    &&& markers.len() == 0 || markers.len() == n
    &&& forall|i: int| 0 <= i < markers.len() ==> #[trigger] markers[i] == "vertex"@ || markers[i] == "instance"@
}

/// The rates of `n` inputs given the marker comments of a shader (see
/// `rates_of`).
pub fn rates_from_markers(markers: &Vec<String>, n: usize) -> (r: Vec<InputRate>)
    requires
        markers_ok(markers@.map_values(|m: String| m@), n as int),
    ensures
        r@ == rates_of(markers@.map_values(|m: String| m@), n as int),
{
    let ghost views = markers@.map_values(|m: String| m@);
    let vertex = String::from_str("vertex");
    let mut rates: Vec<InputRate> = Vec::with_capacity(n);
    if markers.len() == 0 {
        let mut i: usize = 0;
        while i < n
            invariant
                i <= n,
                rates@ == Seq::new(i as nat, |j: int| InputRate::Vertex),
            decreases n - i,
        {
            rates.push(InputRate::Vertex);
            assert(rates@ =~= Seq::new((i + 1) as nat, |j: int| InputRate::Vertex));
            i += 1;
        }
    } else {
        let mut i: usize = 0;
        while i < markers.len()
            invariant
                i <= markers.len(),
                vertex@ == "vertex"@,
                views == markers@.map_values(|m: String| m@),
                rates@ == views.subrange(0, i as int).map_values(|m: Seq<char>| marker_rate(m)),
            decreases markers.len() - i,
        {
            let rate = if markers[i] == vertex {
                InputRate::Vertex
            } else {
                InputRate::Instance
            };
            rates.push(rate);
            assert(rates@ =~= views.subrange(0, i + 1).map_values(|m: Seq<char>| marker_rate(m)));
            i += 1;
        }
        assert(views.subrange(0, markers.len() as int) =~= views);
    }
    rates
}

/// Tests `layout_ok`: one rate per input, at most `u32::MAX` inputs, every
/// type one that formats describe, every binding's stride within a `u32`.
pub fn layout_fits(inputs: &Vec<(u32, InputType)>, rates: &Vec<InputRate>) -> (r: bool)
    ensures
        r == layout_ok(inputs@, rates@),
{
    if rates.len() != inputs.len() || inputs.len() > 0xffff_ffffusize {
        return false;
    }
    let n = inputs.len();
    let ghost types = types_of(inputs@);
    let mut stride: u64 = 0;
    let mut k: usize = 0;
    while k < n
        invariant
            n == inputs.len(),
            n == rates.len(),
            n <= u32::MAX,
            types == types_of(inputs@),
            k <= n,
            forall|j: int| 0 <= j < k ==> #[trigger] supported(inputs@[j].1),
            forall|j: int| 0 <= j < k ==> #[trigger] offset_in_run(types, rates@, j) + size_of_type(inputs@[j].1) <= u32::MAX,
            k > 0 ==> stride == offset_in_run(types, rates@, k - 1) + size_of_type(inputs@[k - 1].1),
        decreases n - k,
    {
        let t = inputs[k].1;
        assert(types[k as int] == t);
        if !(1 <= t.width && t.width <= 4 && t.kind == FLOAT_KIND && (t.bits == 1 || t.bits == 8 || t.bits == 16
            || t.bits == 32 || t.bits == 64)) {
            assert(!supported(inputs@[k as int].1));
            return false;
        }
        assert(t.width * t.bits <= 256) by (nonlinear_arith)
            requires
                t.width <= 4,
                t.bits <= 64,
        ;
        let size: u64 = ((t.width * t.bits + 7) / 8) as u64;
        if k == 0 || rates[k - 1] != rates[k] {
            stride = size;
        } else {
            assert(types[k - 1] == inputs@[k - 1].1);
            stride = stride + size;
        }
        assert(stride == offset_in_run(types, rates@, k as int) + size_of_type(inputs@[k as int].1));
        if stride > 0xffff_ffffu64 {
            return false;
        }
        k += 1;
    }
    true
}

/// The format name and byte size of a vertex attribute of type `t`.
pub fn to_format(t: InputType) -> (r: (String, u32))
    requires
        supported(t),
    ensures
        r.0@ == format_name(t),
        r.1 == size_of_type(t),
{
    let b: &str = if t.bits == 1 {
        "1"
    } else if t.bits == 8 {
        "8"
    } else if t.bits == 16 {
        "16"
    } else if t.bits == 32 {
        "32"
    } else {
        "64"
    };
    let mut name = String::from_str("R");
    name.append(b);
    if t.width >= 2 {
        name.append("G");
        name.append(b);
    }
    if t.width >= 3 {
        name.append("B");
        name.append(b);
    }
    if t.width >= 4 {
        name.append("A");
        name.append(b);
    }
    name.append("_SFLOAT");
    let ghost g = if t.width >= 2 { "G"@ + b@ } else { Seq::empty() };
    let ghost bl = if t.width >= 3 { "B"@ + b@ } else { Seq::empty() };
    let ghost a = if t.width >= 4 { "A"@ + b@ } else { Seq::empty() };
    assert(name@ =~= "R"@ + b@ + g + bl + a + "_SFLOAT"@);
    (name, (t.width * t.bits + 7) / 8)
}

proof fn lemma_run_of_step(rates: Seq<InputRate>, k: int)
    requires
        0 < k < rates.len(),
    ensures
        run_of(rates, k) == run_of(rates, k - 1) + (if starts_run(rates, k) { 1int } else { 0int }),
{
}

proof fn lemma_run_of_nonneg(rates: Seq<InputRate>, k: int)
    ensures
        run_of(rates, k) >= 0,
        run_of(rates, k) <= (if k <= 0 { 0 } else { k }),
    decreases k,
{
    if k > 0 {
        lemma_run_of_nonneg(rates, k - 1);
    }
}

/// Lays out the vertex inputs `inputs` (location and type, in location order)
/// advancing at `rates`: a binding for each run of equal rates, numbered from
/// 0, and an attribute for each input at the offset that the inputs of its
/// run before it leave.
pub fn vertex_layout(inputs: &Vec<(u32, InputType)>, rates: &Vec<InputRate>) -> (r: (Vec<VertexBinding>, Vec<VertexAttribute>))
    requires
        layout_ok(inputs@, rates@),
    ensures
        is_vertex_layout(r.0@, r.1@, inputs@, rates@),
{
    let n = inputs.len();
    let ghost types = types_of(inputs@);
    let mut bindings: Vec<VertexBinding> = Vec::with_capacity(n);
    let mut attributes: Vec<VertexAttribute> = Vec::with_capacity(n);
    let mut k: usize = 0;
    while k < n
        invariant
            n == inputs.len(),
            n == rates.len(),
            types == types_of(inputs@),
            layout_ok(inputs@, rates@),
            k <= n,
            attributes.len() == k,
            bindings.len() == (if k == 0 { 0 } else { run_of(rates@, k - 1) + 1 }),
            forall|j: int| 0 <= j < k ==> {
                &&& (#[trigger] attributes@[j]).location == inputs@[j].0
                &&& attributes@[j].binding == run_of(rates@, j)
                &&& attributes@[j].format@ == format_name(inputs@[j].1)
                &&& attributes@[j].offset == offset_in_run(types, rates@, j)
            },
            k > 0 ==> binding_done(bindings@, types, rates@, k - 1),
            forall|j: int| 0 <= j < k && #[trigger] ends_run(rates@, j) ==> binding_done(bindings@, types, rates@, j),
        decreases n - k,
    {
        let (location, ty) = inputs[k];
        let rate = rates[k];
        assert(supported(inputs@[k as int].1));
        assert(types[k as int] == inputs@[k as int].1);
        proof {
            lemma_run_of_nonneg(rates@, k as int);
            if k > 0 {
                lemma_run_of_step(rates@, k as int);
            }
        }
        let (format, size) = to_format(ty);
        let ghost old_bindings = bindings@;
        if k == 0 || rates[k - 1] != rate {
            let index = bindings.len() as u32;
            bindings.push(VertexBinding {
                binding: index,
                stride: size,
                input_rate: match rate {
                    InputRate::Vertex => "VERTEX",
                    InputRate::Instance => "INSTANCE",
                },
            });
            attributes.push(VertexAttribute { location, binding: index, format, offset: 0 });
            assert(index == run_of(rates@, k as int));
            assert(offset_in_run(types, rates@, k as int) == 0);
            assert(types[k as int] == ty);
            assert(bindings@[run_of(rates@, k as int)].input_rate@ == rate_name(rates@[k as int]));
        } else {
            let last = bindings.len() - 1;
            let offset = bindings[last].stride;
            assert(types[k - 1] == inputs@[k - 1].1);
            assert(last == run_of(rates@, k - 1));
            assert(rates@[k as int] == rates@[k - 1]);
            assert(offset == offset_in_run(types, rates@, k as int));
            assert(offset_in_run(types, rates@, k as int) + size_of_type(inputs@[k as int].1) <= u32::MAX);
            let binding = VertexBinding {
                binding: bindings[last].binding,
                stride: offset + size,
                input_rate: bindings[last].input_rate,
            };
            bindings.set(last, binding);
            attributes.push(VertexAttribute { location, binding: last as u32, format, offset });
        }
        proof {
            assert(binding_done(bindings@, types, rates@, k as int));
            assert forall|j: int| 0 <= j < k + 1 && #[trigger] ends_run(rates@, j) implies binding_done(bindings@, types, rates@, j) by {
                if j < k {
                    lemma_run_of_nonneg(rates@, j);
                    lemma_run_of_monotone(rates@, j, k - 1);
                    lemma_run_of_monotone(rates@, j + 1, k as int);
                    assert(run_of(rates@, j) != run_of(rates@, k as int));
                    assert(bindings@[run_of(rates@, j)] == old_bindings[run_of(rates@, j)]);
                }
            }
        }
        k += 1;
    }
    (bindings, attributes)
}

proof fn lemma_run_of_monotone(rates: Seq<InputRate>, a: int, b: int)
    requires
        0 <= a <= b < rates.len(),
    ensures
        run_of(rates, a) <= run_of(rates, b),
        a < b && starts_run(rates, b) ==> run_of(rates, a) < run_of(rates, b),
        a > 0 && starts_run(rates, a) ==> run_of(rates, a - 1) < run_of(rates, b),
    decreases b - a,
{
    if a < b {
        lemma_run_of_monotone(rates, a, b - 1);
    }
}

} // verus!
