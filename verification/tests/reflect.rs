use thermal::reflect::{reflect_shader, spirv_words, vertex_input_layout};

fn op(opcode: u32, operands: &[u32]) -> Vec<u32> {
    let mut words = vec![((operands.len() as u32 + 1) << 16) | opcode];
    words.extend_from_slice(operands);
    words
}

const MAIN: u32 = 0x6e69616d;

fn module(bound: u32, body: Vec<Vec<u32>>) -> Vec<u8> {
    let mut words = vec![0x07230203, 0x00010000, 0, bound, 0];
    for instruction in body {
        words.extend(instruction);
    }
    words.iter().flat_map(|w| w.to_le_bytes()).collect()
}

/// A vertex shader with a `vec2` input at location 1 and a `float` input at
/// location 0.
fn vertex_shader() -> Vec<u8> {
    // ids: 1 main, 2 void, 3 fn, 4 float, 5 vec2, 6 ptr vec2, 7 ptr float, 8 in_a, 9 in_b, 10 label
    module(
        11,
        vec![
            op(17, &[1]),
            op(14, &[0, 1]),
            op(15, &[0, 1, MAIN, 0, 8, 9]),
            op(71, &[8, 30, 1]),
            op(71, &[9, 30, 0]),
            op(19, &[2]),
            op(33, &[3, 2]),
            op(22, &[4, 32]),
            op(23, &[5, 4, 2]),
            op(32, &[6, 1, 5]),
            op(32, &[7, 1, 4]),
            op(59, &[6, 8, 1]),
            op(59, &[7, 9, 1]),
            op(54, &[2, 1, 0, 3]),
            op(248, &[10]),
            op(253, &[]),
            op(56, &[]),
        ],
    )
}

/// A fragment shader with two sampled images, set 0 bindings 1 and 0.
fn fragment_shader() -> Vec<u8> {
    // ids: 1 main, 2 void, 3 fn, 4 float, 5 image, 6 sampled image, 7 ptr, 8 tex_a, 9 tex_b, 10 label
    module(
        11,
        vec![
            op(17, &[1]),
            op(14, &[0, 1]),
            op(15, &[4, 1, MAIN, 0]),
            op(16, &[1, 7]),
            op(71, &[8, 34, 0]),
            op(71, &[8, 33, 1]),
            op(71, &[9, 34, 0]),
            op(71, &[9, 33, 0]),
            op(19, &[2]),
            op(33, &[3, 2]),
            op(22, &[4, 32]),
            op(25, &[5, 4, 1, 0, 0, 0, 1, 0]),
            op(27, &[6, 5]),
            op(32, &[7, 0, 6]),
            op(59, &[7, 8, 0]),
            op(59, &[7, 9, 0]),
            op(54, &[2, 1, 0, 3]),
            op(248, &[10]),
            op(253, &[]),
            op(56, &[]),
        ],
    )
}

#[test]
fn spirv_words_are_little_endian() {
    assert_eq!(spirv_words(&[0x03, 0x02, 0x23, 0x07, 1, 0, 0, 0, 9]), vec![0x07230203, 1]);
    assert!(spirv_words(&[1, 2, 3]).is_empty());
}

#[test]
fn reflects_vertex_inputs_with_markers() {
    let layout = reflect_shader(&vertex_shader(), "float a; // sb/vertex\nvec2 b; // sb/instance\n").unwrap();
    let bindings: Vec<(u32, u32, &str)> = layout.vertex_bindings.iter().map(|b| (b.binding, b.stride, b.input_rate)).collect();
    assert_eq!(bindings, vec![(0, 4, "VERTEX"), (1, 8, "INSTANCE")]);
    let attributes: Vec<(u32, u32, &str, u32)> =
        layout.vertex_attributes.iter().map(|a| (a.location, a.binding, a.format.as_str(), a.offset)).collect();
    assert_eq!(attributes, vec![(0, 0, "R32_SFLOAT", 0), (1, 1, "R32G32_SFLOAT", 0)]);
    assert!(layout.set_layouts.is_empty());
}

#[test]
fn reflects_vertex_inputs_without_markers() {
    let layout = reflect_shader(&vertex_shader(), "no markers here").unwrap();
    let bindings: Vec<(u32, u32, &str)> = layout.vertex_bindings.iter().map(|b| (b.binding, b.stride, b.input_rate)).collect();
    assert_eq!(bindings, vec![(0, 12, "VERTEX")]);
    let offsets: Vec<u32> = layout.vertex_attributes.iter().map(|a| a.offset).collect();
    assert_eq!(offsets, vec![0, 4]);
}

#[test]
fn wrong_marker_count_is_refused() {
    assert!(reflect_shader(&vertex_shader(), "// sb/vertex").is_none());
}

#[test]
fn reflects_sampled_images() {
    let layout = reflect_shader(&fragment_shader(), "").unwrap();
    assert!(layout.vertex_bindings.is_empty() && layout.vertex_attributes.is_empty());
    let sets: Vec<Vec<u32>> = layout.set_layouts.iter().map(|s| s.iter().map(|b| b.binding).collect()).collect();
    assert_eq!(sets, vec![vec![0, 1]]);
}

#[test]
fn garbage_is_refused() {
    assert!(reflect_shader(&[1, 2, 3, 4, 5, 6, 7, 8], "").is_none());
}

fn float_type(width: u32) -> thermal::vertex_layout::InputType {
    thermal::vertex_layout::InputType { width, kind: 2, bits: 32 }
}

#[test]
fn vertex_input_layout_orders_by_location_and_splits_rates() {
    let inputs = vec![(2, float_type(4)), (0, float_type(2)), (1, float_type(1))];
    let captures = vec![
        Some("vertex".to_string()),
        Some("vertex".to_string()),
        Some("instance".to_string()),
    ];
    let (bindings, attributes) = vertex_input_layout(inputs, &captures).unwrap();
    let b: Vec<(u32, u32, &str)> = bindings.iter().map(|b| (b.binding, b.stride, b.input_rate)).collect();
    assert_eq!(b, vec![(0, 12, "VERTEX"), (1, 16, "INSTANCE")]);
    let a: Vec<(u32, u32, String, u32)> = attributes
        .iter()
        .map(|a| (a.location, a.binding, a.format.clone(), a.offset))
        .collect();
    assert_eq!(
        a,
        vec![
            (0, 0, "R32G32_SFLOAT".to_string(), 0),
            (1, 0, "R32_SFLOAT".to_string(), 8),
            (2, 1, "R32G32B32A32_SFLOAT".to_string(), 0),
        ]
    );
}

#[test]
fn vertex_input_layout_keeps_equal_locations_in_order() {
    let inputs = vec![(0, float_type(3)), (0, float_type(1))];
    let (_, attributes) = vertex_input_layout(inputs, &vec![]).unwrap();
    let formats: Vec<&str> = attributes.iter().map(|a| a.format.as_str()).collect();
    assert_eq!(formats, vec!["R32G32B32_SFLOAT", "R32_SFLOAT"]);
}

#[test]
fn vertex_input_layout_refuses_bad_markers() {
    let inputs = || vec![(0, float_type(2)), (1, float_type(2))];
    assert!(vertex_input_layout(inputs(), &vec![Some("vertex".to_string()), None]).is_none());
    assert!(vertex_input_layout(
        inputs(),
        &vec![Some("vertex".to_string()), Some("other".to_string())]
    )
    .is_none());
}

#[test]
fn vertex_input_layout_refuses_unformattable_types() {
    let int_input = vec![(0, thermal::vertex_layout::InputType { width: 2, kind: 0, bits: 32 })];
    assert!(vertex_input_layout(int_input, &vec![]).is_none());
}
