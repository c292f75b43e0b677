use thermal::descriptors::{descriptor_set_layouts, group_set_layouts, DescriptorResource};
use thermal::vertex_layout::{layout_fits, rates_from_markers, to_format, vertex_layout, InputRate, InputType};

fn vec_type(width: u32) -> InputType {
    InputType { width, kind: 2, bits: 32 }
}

#[test]
fn format_names_and_sizes() {
    assert_eq!(to_format(vec_type(1)), ("R32_SFLOAT".to_string(), 4));
    assert_eq!(to_format(vec_type(2)), ("R32G32_SFLOAT".to_string(), 8));
    assert_eq!(to_format(vec_type(3)), ("R32G32B32_SFLOAT".to_string(), 12));
    assert_eq!(to_format(vec_type(4)), ("R32G32B32A32_SFLOAT".to_string(), 16));
    assert_eq!(to_format(InputType { width: 3, kind: 2, bits: 16 }), ("R16G16B16_SFLOAT".to_string(), 6));
    assert_eq!(to_format(InputType { width: 1, kind: 2, bits: 64 }), ("R64_SFLOAT".to_string(), 8));
    assert_eq!(to_format(InputType { width: 3, kind: 2, bits: 1 }), ("R1G1B1_SFLOAT".to_string(), 1));
    assert_eq!(to_format(InputType { width: 2, kind: 2, bits: 8 }), ("R8G8_SFLOAT".to_string(), 2));
}

#[test]
fn layout_groups_runs_of_rates() {
    let inputs = vec![(0, vec_type(2)), (1, vec_type(2)), (2, vec_type(4)), (3, vec_type(2)), (4, vec_type(2)), (5, vec_type(1))];
    let rates = vec![InputRate::Vertex, InputRate::Vertex, InputRate::Vertex, InputRate::Instance, InputRate::Instance, InputRate::Vertex];
    assert!(layout_fits(&inputs, &rates));
    let (bindings, attributes) = vertex_layout(&inputs, &rates);
    let b: Vec<(u32, u32, &str)> = bindings.iter().map(|b| (b.binding, b.stride, b.input_rate)).collect();
    assert_eq!(b, vec![(0, 32, "VERTEX"), (1, 16, "INSTANCE"), (2, 4, "VERTEX")]);
    let a: Vec<(u32, u32, &str, u32)> = attributes.iter().map(|a| (a.location, a.binding, a.format.as_str(), a.offset)).collect();
    assert_eq!(
        a,
        vec![
            (0, 0, "R32G32_SFLOAT", 0),
            (1, 0, "R32G32_SFLOAT", 8),
            (2, 0, "R32G32B32A32_SFLOAT", 16),
            (3, 1, "R32G32_SFLOAT", 0),
            (4, 1, "R32G32_SFLOAT", 8),
            (5, 2, "R32_SFLOAT", 0),
        ]
    );
}

#[test]
fn layout_of_no_inputs_is_empty() {
    let (bindings, attributes) = vertex_layout(&vec![], &vec![]);
    assert!(bindings.is_empty());
    assert!(attributes.is_empty());
}

#[test]
fn layout_fits_refuses_what_formats_cannot_name() {
    assert!(!layout_fits(&vec![(0, InputType { width: 2, kind: 0, bits: 32 })], &vec![InputRate::Vertex]));
    assert!(!layout_fits(&vec![(0, InputType { width: 5, kind: 2, bits: 32 })], &vec![InputRate::Vertex]));
    assert!(!layout_fits(&vec![(0, InputType { width: 2, kind: 2, bits: 12 })], &vec![InputRate::Vertex]));
    assert!(!layout_fits(&vec![(0, vec_type(2))], &vec![]));
}

#[test]
fn markers_give_rates() {
    let markers = vec!["vertex".to_string(), "instance".to_string(), "instance".to_string()];
    assert_eq!(rates_from_markers(&markers, 3), vec![InputRate::Vertex, InputRate::Instance, InputRate::Instance]);
    assert_eq!(rates_from_markers(&vec![], 2), vec![InputRate::Vertex, InputRate::Vertex]);
}

fn sampler(set: u32, binding: u32) -> DescriptorResource {
    DescriptorResource { set, binding, descriptor_type: "COMBINED_IMAGE_SAMPLER" }
}

fn shape(layouts: &Vec<Vec<thermal::tokens::DescriptorBinding>>) -> Vec<Vec<u32>> {
    layouts.iter().map(|set| set.iter().map(|b| b.binding).collect()).collect()
}

#[test]
fn descriptors_sort_into_sets() {
    let layouts = descriptor_set_layouts(&vec![sampler(0, 2), sampler(0, 0), sampler(0, 1)]);
    assert_eq!(shape(&layouts), vec![vec![0, 1, 2]]);
    let b = &layouts[0][0];
    assert_eq!((b.descriptor_type, b.descriptor_count, b.stage_flags), ("COMBINED_IMAGE_SAMPLER", 1, "FRAGMENT"));
}

#[test]
fn descriptor_after_a_set_is_passed_over() {
    // The first descriptor of each following set goes with the set before it.
    let layouts = descriptor_set_layouts(&vec![sampler(1, 0), sampler(0, 0), sampler(1, 1), sampler(0, 1), sampler(1, 2)]);
    assert_eq!(shape(&layouts), vec![vec![0, 1], vec![1, 2]]);
}

#[test]
fn descriptor_sets_stop_at_a_gap() {
    assert_eq!(shape(&descriptor_set_layouts(&vec![sampler(0, 0), sampler(2, 0), sampler(2, 1)])), vec![vec![0]]);
    assert!(descriptor_set_layouts(&vec![sampler(1, 0)]).is_empty());
    assert!(descriptor_set_layouts(&vec![]).is_empty());
}

#[test]
fn grouping_takes_sorted_descriptors_as_given() {
    let sorted = vec![(0, sampler(0, 5)), (1, sampler(0, 3)), (65536, sampler(1, 0))];
    assert_eq!(shape(&group_set_layouts(&sorted)), vec![vec![5, 3]]);
}
