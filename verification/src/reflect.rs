//! Reflection of a compiled SPIR-V shader: its vertex input layout and its
//! descriptor set layouts, read with spirv-cross; the vertex rates come from
//! `// sb/vertex` and `// sb/instance` comments in the shader's source.

use vstd::prelude::*;
use regex::Regex;
use spirv_cross2::{Compiler, Module, targets};
use spirv_cross2::reflect::{ResourceType, TypeInner};
use spirv_cross2::spirv::{Decoration, ExecutionModel};
use crate::tokens::{VertexBinding, VertexAttribute, DescriptorBinding};
use crate::vertex_layout::{
    InputType, is_vertex_layout, layout_ok, layout_fits, markers_ok, rates_of, rates_from_markers, vertex_layout,
};
use crate::descriptors::{DescriptorResource, bindings_of, descriptor_set_layouts, keyed, set_layouts};
use crate::sort::{sorted_stably, sort_by_first, lemma_sorted_stably_unique};

verus! {

/// The kinds of shader resource that reflection reads.
#[derive(Clone, Copy)]
pub enum ResourceKind {
    StageInput,
    SampledImage,
}

/// The decorations that reflection reads.
#[derive(Clone, Copy)]
pub enum DecorationKind {
    Location,
    DescriptorSet,
    Binding,
}

/// What spirv-cross reads of the SPIR-V module `words`: whether its entry
/// point is a vertex shader; `None` where it refuses the module.
pub uninterp spec fn spirv_is_vertex(words: Seq<u32>) -> Option<bool>;

/// What spirv-cross reads of the SPIR-V module `words`: how many resources of
/// `kind` it has; `None` where spirv-cross fails.
pub uninterp spec fn spirv_resource_count(words: Seq<u32>, kind: ResourceKind) -> Option<usize>;

/// What spirv-cross reads of the SPIR-V module `words`: the literal value of
/// `decoration` on the `index`-th resource of `kind`; `None` where
/// spirv-cross fails, there is no such resource, it lacks the decoration, or
/// the value is no literal.
pub uninterp spec fn spirv_decoration(words: Seq<u32>, kind: ResourceKind, index: usize, decoration: DecorationKind) -> Option<u32>;

/// What spirv-cross reads of the SPIR-V module `words`: the base type of the
/// `index`-th resource of `kind`, where it is a scalar (width 1) or a vector,
/// with its scalar kind and bit width as spirv-cross numbers them; `None`
/// where spirv-cross fails, there is no such resource, or its type is
/// neither.
pub uninterp spec fn spirv_base_type(words: Seq<u32>, kind: ResourceKind, index: usize) -> Option<InputType>;

/// `Compiler::new` on `Module::from_words`, then `Compiler::execution_model`:
/// whether the module's entry point is a vertex shader, named
/// `spirv_is_vertex`.
#[verifier::external_body]
fn vertex_model(words: &[u32]) -> (r: Option<bool>)
    ensures
        r == spirv_is_vertex(words@),
{
    let compiler = Compiler::<targets::None>::new(Module::from_words(words)).ok()?;
    match compiler.execution_model() {
        Ok(ExecutionModel::Vertex) => Some(true),
        Ok(_) => Some(false),
        Err(_) => None,
    }
}

/// `Compiler::new` on `Module::from_words`, `Compiler::shader_resources`, then
/// `ShaderResources::resources_for_type`: how many resources of `kind` the
/// module has, named `spirv_resource_count`.
#[verifier::external_body]
fn resource_count(words: &[u32], kind: ResourceKind) -> (r: Option<usize>)
    ensures
        r == spirv_resource_count(words@, kind),
{
    let compiler = Compiler::<targets::None>::new(Module::from_words(words)).ok()?;
    let ty = match kind {
        ResourceKind::StageInput => ResourceType::StageInput,
        ResourceKind::SampledImage => ResourceType::SampledImage,
    };
    Some(compiler.shader_resources().ok()?.resources_for_type(ty).ok()?.count())
}

/// `Compiler::decoration` on the `index`-th resource of `kind` (found as
/// `resource_count` finds them), taken as a literal: named `spirv_decoration`.
#[verifier::external_body]
fn decoration_of(words: &[u32], kind: ResourceKind, index: usize, decoration: DecorationKind) -> (r: Option<u32>)
    ensures
        r == spirv_decoration(words@, kind, index, decoration),
{
    let compiler = Compiler::<targets::None>::new(Module::from_words(words)).ok()?;
    let ty = match kind {
        ResourceKind::StageInput => ResourceType::StageInput,
        ResourceKind::SampledImage => ResourceType::SampledImage,
    };
    let decoration = match decoration {
        DecorationKind::Location => Decoration::Location,
        DecorationKind::DescriptorSet => Decoration::DescriptorSet,
        DecorationKind::Binding => Decoration::Binding,
    };
    let resource = compiler.shader_resources().ok()?.resources_for_type(ty).ok()?.nth(index)?;
    compiler.decoration(resource.id, decoration).ok()??.as_literal()
}

/// `Compiler::type_description` of the base type of the `index`-th resource
/// of `kind`, where it is a scalar or a vector: named `spirv_base_type`.
#[verifier::external_body]
fn base_type_of(words: &[u32], kind: ResourceKind, index: usize) -> (r: Option<InputType>)
    ensures
        r == spirv_base_type(words@, kind, index),
{
    let compiler = Compiler::<targets::None>::new(Module::from_words(words)).ok()?;
    let ty = match kind {
        ResourceKind::StageInput => ResourceType::StageInput,
        ResourceKind::SampledImage => ResourceType::SampledImage,
    };
    let resource = compiler.shader_resources().ok()?.resources_for_type(ty).ok()?.nth(index)?;
    match compiler.type_description(resource.base_type_id).ok()?.inner {
        TypeInner::Scalar(s) => Some(InputType { width: 1, kind: s.kind as u32, bits: s.size as u32 }),
        TypeInner::Vector { width, scalar } => Some(InputType { width, kind: scalar.kind as u32, bits: scalar.size as u32 }),
        _ => None,
    }
}

/// What `Regex::captures_iter` finds in `haystack` with `pattern`: the text of
/// group 1 of each match, in order (`None` for a match without it); `None`
/// where `pattern` is no regular expression.
pub uninterp spec fn regex_group1(pattern: Seq<char>, haystack: Seq<char>) -> Option<Seq<Option<Seq<char>>>>;

/// The texts of a list of optional strings.
pub open spec fn texts(v: Seq<Option<String>>) -> Seq<Option<Seq<char>>> {
    v.map_values(|o: Option<String>| match o {
        Some(s) => Some(s@),
        None => None,
    })
}

/// `Regex::new(pattern)`, then `captures_iter(haystack)`, each capture taken
/// as the text of its group 1: the result is `regex_group1` of the pattern and
/// the haystack.
#[verifier::external_body]
fn capture_group1(pattern: &str, haystack: &str) -> (r: Option<Vec<Option<String>>>)
    ensures
        (match r {
            Some(v) => Some(texts(v@)),
            None => None,
        }) == regex_group1(pattern@, haystack@),
{
    Regex::new(pattern).ok().map(|re| re.captures_iter(haystack).map(|c| c.get(1).map(|m| m.as_str().to_string())).collect())
}

/// The pattern of a marker comment, which names the rate of the vertex input
/// at its place in the inputs.
pub open spec fn sb_pattern() -> Seq<char> {
    "// sb/(vertex|instance)"@
}

/// The marker comments that a search for `sb_pattern` found, where each
/// match has its group 1.
pub open spec fn markers_of(found: Seq<Option<Seq<char>>>) -> Option<Seq<Seq<char>>> {
    if forall|i: int| 0 <= i < found.len() ==> (#[trigger] found[i]) is Some {
        Some(found.map_values(|o: Option<Seq<char>>| o.unwrap()))
    } else {
        None
    }
}

/// The little-endian `u32` of four bytes.
pub open spec fn le_word(b0: u8, b1: u8, b2: u8, b3: u8) -> int {
    b0 + b1 * 0x100 + b2 * 0x1_0000 + b3 * 0x100_0000
}

/// The SPIR-V words of `code`, four bytes each, little-endian; bytes after the
/// last whole word are left out.
pub open spec fn words_of(code: Seq<u8>) -> Seq<u32> {
    Seq::new((code.len() / 4) as nat, |i: int| le_word(code[4 * i], code[4 * i + 1], code[4 * i + 2], code[4 * i + 3]) as u32)
}

/// The SPIR-V words of a compiled shader (see `words_of`).
pub fn spirv_words(code: &[u8]) -> (r: Vec<u32>)
    ensures
        r@ == words_of(code@),
{
    let len = code.len();
    let n = len / 4;
    assert(4 * n <= len) by (nonlinear_arith)
        requires
            n == len / 4,
    ;
    let mut words: Vec<u32> = Vec::with_capacity(n);
    let mut i: usize = 0;
    while i < n
        invariant
            n == code@.len() / 4,
            len == code@.len(),
            4 * n <= code@.len(),
            i <= n,
            words@ == words_of(code@).subrange(0, i as int),
        decreases n - i,
    {
        let w = code[4 * i] as u32 + code[4 * i + 1] as u32 * 0x100 + code[4 * i + 2] as u32 * 0x1_0000 + code[4 * i
            + 3] as u32 * 0x100_0000;
        words.push(w);
        assert(words@ =~= words_of(code@).subrange(0, i + 1));
        i += 1;
    }
    assert(words_of(code@).subrange(0, n as int) =~= words_of(code@));
    words
}

/// The layout of a compiled shader: its vertex bindings and attributes (none
/// for a shader that is not a vertex shader) and its descriptor set layouts.
pub struct ShaderLayout {
    pub vertex_bindings: Vec<VertexBinding>,
    pub vertex_attributes: Vec<VertexAttribute>,
    pub set_layouts: Vec<Vec<DescriptorBinding>>,
}

/// The stage inputs of the SPIR-V module `words`, as spirv-cross lists them,
/// each as its location and its base type; `None` where spirv-cross fails or
/// an input lacks either.
pub open spec fn spirv_inputs(words: Seq<u32>) -> Option<Seq<(u32, InputType)>> {
    match spirv_resource_count(words, ResourceKind::StageInput) {
        Some(n) => if forall|i: usize|
            i < n ==> #[trigger] spirv_decoration(words, ResourceKind::StageInput, i, DecorationKind::Location) is Some
                && spirv_base_type(words, ResourceKind::StageInput, i) is Some {
            Some(
                Seq::new(
                    n as nat,
                    |i: int|
                        (
                            spirv_decoration(words, ResourceKind::StageInput, i as usize, DecorationKind::Location).unwrap(),
                            spirv_base_type(words, ResourceKind::StageInput, i as usize).unwrap(),
                        ),
                ),
            )
        } else {
            None
        },
        None => None,
    }
}

/// The sampled images of the SPIR-V module `words`, as spirv-cross lists them,
/// each as its descriptor set and binding; `None` where spirv-cross fails or
/// an image lacks either.
pub open spec fn spirv_images(words: Seq<u32>) -> Option<Seq<(u32, u32)>> {
    match spirv_resource_count(words, ResourceKind::SampledImage) {
        Some(n) => if forall|i: usize|
            i < n ==> #[trigger] spirv_decoration(words, ResourceKind::SampledImage, i, DecorationKind::DescriptorSet) is Some
                && spirv_decoration(words, ResourceKind::SampledImage, i, DecorationKind::Binding) is Some {
            Some(
                Seq::new(
                    n as nat,
                    |i: int|
                        (
                            spirv_decoration(words, ResourceKind::SampledImage, i as usize, DecorationKind::DescriptorSet).unwrap(),
                            spirv_decoration(words, ResourceKind::SampledImage, i as usize, DecorationKind::Binding).unwrap(),
                        ),
                ),
            )
        } else {
            None
        },
        None => None,
    }
}

/// `resources` are the images `images` (set and binding each), as combined
/// image samplers.
pub open spec fn samplers(images: Seq<(u32, u32)>, resources: Seq<DescriptorResource>) -> bool {
    &&& resources.len() == images.len()
    &&& forall|i: int| 0 <= i < resources.len() ==> {
        &&& (#[trigger] resources[i]).set == images[i].0
        &&& resources[i].binding == images[i].1
        &&& resources[i].descriptor_type@ == "COMBINED_IMAGE_SAMPLER"@
    }
}

/// Vertex inputs, each a location and a type, can be laid out with the rates
/// of the markers `found`: each marker was found whole, they give the inputs
/// their rates, and, ordered by location, the inputs fit a layout (see
/// `layout_ok`).
pub open spec fn input_layout_ok(inputs: Seq<(u32, InputType)>, found: Seq<Option<Seq<char>>>) -> bool {
    &&& markers_of(found) is Some
    &&& markers_ok(markers_of(found).unwrap(), inputs.len() as int)
    &&& exists|sorted: Seq<(u32, InputType)>| #[trigger] sorted_stably(inputs, sorted)
        && layout_ok(sorted, rates_of(markers_of(found).unwrap(), sorted.len() as int))
}

/// `bindings` and `attributes` lay out vertex inputs, ordered by location
/// (stably), with the rates of the markers `found`.
pub open spec fn lays_out(
    inputs: Seq<(u32, InputType)>,
    found: Seq<Option<Seq<char>>>,
    bindings: Seq<VertexBinding>,
    attributes: Seq<VertexAttribute>,
) -> bool {
    exists|sorted: Seq<(u32, InputType)>| #[trigger] sorted_stably(inputs, sorted)
        && is_vertex_layout(bindings, attributes, sorted, rates_of(markers_of(found).unwrap(), sorted.len() as int))
}

/// The vertex inputs of the module `words` can be laid out with the rates of
/// the markers in `content` (see `input_layout_ok`).
pub open spec fn vertex_input_ok(words: Seq<u32>, content: Seq<char>) -> bool {
    &&& spirv_inputs(words) is Some
    &&& regex_group1(sb_pattern(), content) is Some
    &&& input_layout_ok(spirv_inputs(words).unwrap(), regex_group1(sb_pattern(), content).unwrap())
}

/// A shader compiled to `code` from the source `content` can be reflected:
/// spirv-cross reads whether it is a vertex shader, a vertex shader's inputs
/// can be laid out, and spirv-cross reads its sampled images, of which there
/// are no more than `u32::MAX`.
pub open spec fn reflects(code: Seq<u8>, content: Seq<char>) -> bool {
    let words = words_of(code);
    &&& spirv_is_vertex(words) is Some
    &&& spirv_is_vertex(words) == Some(true) ==> vertex_input_ok(words, content)
    &&& spirv_images(words) is Some
    &&& spirv_images(words).unwrap().len() <= u32::MAX
}

/// The layout of a shader compiled to `code` from `content`: a vertex
/// shader's inputs, ordered by location (stably), laid out with the rates of
/// the markers (none for another shader); and its sampled images, as combined
/// image samplers ordered by key (stably) and grouped into set layouts.
pub open spec fn reflected_layout(
    code: Seq<u8>,
    content: Seq<char>,
    bindings: Seq<VertexBinding>,
    attributes: Seq<VertexAttribute>,
    layouts: Seq<Vec<DescriptorBinding>>,
) -> bool {
    let words = words_of(code);
    &&& if spirv_is_vertex(words) == Some(true) {
        lays_out(spirv_inputs(words).unwrap(), regex_group1(sb_pattern(), content).unwrap(), bindings, attributes)
    } else {
        bindings.len() == 0 && attributes.len() == 0
    }
    &&& exists|resources: Seq<DescriptorResource>, sorted: Seq<(u32, DescriptorResource)>| {
        &&& samplers(spirv_images(words).unwrap(), resources)
        &&& #[trigger] sorted_stably(keyed(resources), sorted)
        &&& bindings_of(layouts, set_layouts(sorted))
    }
}

/// The stage inputs of the SPIR-V module `words` (see `spirv_inputs`).
fn stage_inputs(words: &[u32]) -> (r: Option<Vec<(u32, InputType)>>)
    ensures
        (match r {
            Some(v) => Some(v@),
            None => None,
        }) == spirv_inputs(words@),
{
    let ghost w = words@;
    let n = resource_count(words, ResourceKind::StageInput)?;
    let mut inputs: Vec<(u32, InputType)> = Vec::with_capacity(n);
    let mut i: usize = 0;
    while i < n
        invariant
            w == words@,
            spirv_resource_count(w, ResourceKind::StageInput) == Some(n),
            i <= n,
            inputs@.len() == i,
            forall|j: usize| j < i ==> {
                &&& #[trigger] spirv_decoration(w, ResourceKind::StageInput, j, DecorationKind::Location) is Some
                &&& spirv_base_type(w, ResourceKind::StageInput, j) is Some
                &&& inputs@[j as int] == (
                    spirv_decoration(w, ResourceKind::StageInput, j, DecorationKind::Location).unwrap(),
                    spirv_base_type(w, ResourceKind::StageInput, j).unwrap(),
                )
            },
        decreases n - i,
    {
        let location = match decoration_of(words, ResourceKind::StageInput, i, DecorationKind::Location) {
            Some(l) => l,
            None => {
                return None;
            },
        };
        let shape = match base_type_of(words, ResourceKind::StageInput, i) {
            Some(t) => t,
            None => {
                return None;
            },
        };
        inputs.push((location, shape));
        i += 1;
    }
    proof {
        let all = Seq::new(
            n as nat,
            |k: int|
                (
                    spirv_decoration(w, ResourceKind::StageInput, k as usize, DecorationKind::Location).unwrap(),
                    spirv_base_type(w, ResourceKind::StageInput, k as usize).unwrap(),
                ),
        );
        assert forall|k: int| 0 <= k < n implies inputs@[k] == all[k] by {
            assert(spirv_decoration(w, ResourceKind::StageInput, k as usize, DecorationKind::Location) is Some);
        }
        assert(inputs@ =~= all);
    }
    Some(inputs)
}

/// The sampled images of the SPIR-V module `words`, as combined image
/// samplers (see `spirv_images`).
fn sampled_images(words: &[u32]) -> (r: Option<Vec<DescriptorResource>>)
    ensures
        match r {
            Some(v) => spirv_images(words@) matches Some(images) && samplers(images, v@),
            None => spirv_images(words@) is None,
        },
{
    let ghost w = words@;
    let n = resource_count(words, ResourceKind::SampledImage)?;
    let mut images: Vec<DescriptorResource> = Vec::with_capacity(n);
    let mut i: usize = 0;
    while i < n
        invariant
            w == words@,
            spirv_resource_count(w, ResourceKind::SampledImage) == Some(n),
            i <= n,
            images@.len() == i,
            forall|j: usize| j < i ==> {
                &&& #[trigger] spirv_decoration(w, ResourceKind::SampledImage, j, DecorationKind::DescriptorSet) is Some
                &&& spirv_decoration(w, ResourceKind::SampledImage, j, DecorationKind::Binding) is Some
                &&& images@[j as int].set == spirv_decoration(w, ResourceKind::SampledImage, j, DecorationKind::DescriptorSet).unwrap()
                &&& images@[j as int].binding == spirv_decoration(w, ResourceKind::SampledImage, j, DecorationKind::Binding).unwrap()
                &&& images@[j as int].descriptor_type@ == "COMBINED_IMAGE_SAMPLER"@
            },
        decreases n - i,
    {
        let set = match decoration_of(words, ResourceKind::SampledImage, i, DecorationKind::DescriptorSet) {
            Some(s) => s,
            None => {
                return None;
            },
        };
        let binding = match decoration_of(words, ResourceKind::SampledImage, i, DecorationKind::Binding) {
            Some(b) => b,
            None => {
                return None;
            },
        };
        images.push(DescriptorResource { set, binding, descriptor_type: "COMBINED_IMAGE_SAMPLER" });
        i += 1;
    }
    proof {
        assert forall|k: int| 0 <= k < n implies #[trigger] spirv_decoration(
            w,
            ResourceKind::SampledImage,
            k as usize,
            DecorationKind::DescriptorSet,
        ) is Some by {
            assert(spirv_decoration(w, ResourceKind::SampledImage, k as usize, DecorationKind::DescriptorSet) is Some);
        }
    }
    Some(images)
}

/// The vertex layout of a vertex shader's inputs, `inputs` (a location and a
/// type each), whose rates the markers `captures` give: the inputs, ordered
/// by location (stably), are laid out by `vertex_layout` with those rates
/// (see `rates_of`). There must be no markers or one per input. `None` where
/// a marker lacks its text or names neither rate, an input has no vertex
/// format, or the layout exceeds `u32` limits (see `input_layout_ok`).
pub fn vertex_input_layout(inputs: Vec<(u32, InputType)>, captures: &Vec<Option<String>>) -> (r: Option<(Vec<VertexBinding>, Vec<VertexAttribute>)>)
    requires
        captures@.len() == 0 || captures@.len() == inputs@.len(),
    ensures
        r is Some <==> input_layout_ok(inputs@, texts(captures@)),
        r matches Some(l) ==> lays_out(inputs@, texts(captures@), l.0@, l.1@),
{
    let ghost unsorted = inputs@;
    let ghost found = texts(captures@);
    let mut inputs = inputs;
    sort_by_first(&mut inputs);
    let mut markers: Vec<String> = Vec::with_capacity(captures.len());
    let mut i: usize = 0;
    while i < captures.len()
        invariant
            i <= captures.len(),
            found == texts(captures@),
            markers@.len() == i,
            forall|j: int| 0 <= j < i ==> #[trigger] found[j] == Some(markers@[j]@),
        decreases captures.len() - i,
    {
        match &captures[i] {
            Some(m) => markers.push(m.clone()),
            None => {
                proof {
                    assert(found[i as int] is None);
                }
                return None;
            },
        }
        i += 1;
    }
    let ghost views = markers@.map_values(|m: String| m@);
    proof {
        assert(forall|j: int| 0 <= j < found.len() ==> (#[trigger] found[j]) is Some);
        assert(views =~= found.map_values(|o: Option<Seq<char>>| o.unwrap()));
        assert(markers_of(found) == Some(views));
    }
    let vertex_text = String::from_str("vertex");
    let instance_text = String::from_str("instance");
    let mut j: usize = 0;
    while j < markers.len()
        invariant
            j <= markers.len(),
            views == markers@.map_values(|m: String| m@),
            markers_of(found) == Some(views),
            found == texts(captures@),
            unsorted.len() == inputs@.len(),
            vertex_text@ == "vertex"@,
            instance_text@ == "instance"@,
            forall|k: int| 0 <= k < j ==> #[trigger] views[k] == "vertex"@ || views[k] == "instance"@,
        decreases markers.len() - j,
    {
        if !(markers[j] == vertex_text || markers[j] == instance_text) {
            proof {
                assert(!(views[j as int] == "vertex"@ || views[j as int] == "instance"@));
                assert(!markers_ok(views, unsorted.len() as int));
            }
            return None;
        }
        j += 1;
    }
    let rates = rates_from_markers(&markers, inputs.len());
    if !layout_fits(&inputs, &rates) {
        proof {
            assert forall|s: Seq<(u32, InputType)>| #[trigger] sorted_stably(unsorted, s) implies !layout_ok(
                s,
                rates_of(views, s.len() as int),
            ) by {
                lemma_sorted_stably_unique(unsorted, s, inputs@);
            }
        }
        return None;
    }
    let layout = vertex_layout(&inputs, &rates);
    proof {
        assert(sorted_stably(unsorted, inputs@));
    }
    Some(layout)
}

/// Reflects a compiled shader, `code`, whose source is `content`. For a vertex
/// shader, its inputs get their rates from the marker comments of the source
/// and are laid out by `vertex_input_layout`; its sampled images make its
/// descriptor set layouts by `descriptor_set_layouts`. `None` where
/// spirv-cross fails, the source has markers but not one per input, the
/// vertex inputs cannot be laid out otherwise, or there are more than
/// `u32::MAX` images (see `reflects` and `reflected_layout`).
pub fn reflect_shader(code: &[u8], content: &str) -> (r: Option<ShaderLayout>)
    ensures
        r is Some <==> reflects(code@, content@),
        r matches Some(l) ==> reflected_layout(
            code@,
            content@,
            l.vertex_bindings@,
            l.vertex_attributes@,
            l.set_layouts@,
        ),
{
    let words = spirv_words(code);
    let ghost w = words@;
    let vertex = vertex_model(words.as_slice())?;
    let mut vertex_bindings: Vec<VertexBinding> = Vec::new();
    let mut vertex_attributes: Vec<VertexAttribute> = Vec::new();
    if vertex {
        let inputs = stage_inputs(words.as_slice())?;
        let captures = capture_group1("// sb/(vertex|instance)", content)?;
        if !(captures.len() == 0 || captures.len() == inputs.len()) {
            proof {
                let found = texts(captures@);
                assert(markers_of(found) matches Some(ms) ==> ms.len() == found.len());
            }
            return None;
        }
        let (bindings, attributes) = vertex_input_layout(inputs, &captures)?;
        vertex_bindings = bindings;
        vertex_attributes = attributes;
    }
    let images = sampled_images(words.as_slice())?;
    if images.len() > 0xffff_ffffusize {
        return None;
    }
    let set_layouts = descriptor_set_layouts(&images);
    proof {
        let sorted = choose|sorted: Seq<(u32, DescriptorResource)>| sorted_stably(keyed(images@), sorted)
            && bindings_of(set_layouts@, crate::descriptors::set_layouts(sorted));
        assert(sorted_stably(keyed(images@), sorted));
    }
    Some(ShaderLayout { vertex_bindings, vertex_attributes, set_layouts })
}

} // verus!
