use gloom::layout::{byte_size_of_array, offset, size_of};
use gloom::vao::{
    vao_buffers, AttributePointer, BufferSource, BufferTarget, BufferUpload, COLOR_ATTRIBUTE,
    NORMAL_ATTRIBUTE, POSITION_ATTRIBUTE,
};

#[test]
fn byte_size_of_float_array() {
    let vertices: Vec<f32> = vec![0.0; 27];
    assert_eq!(byte_size_of_array(&vertices), 108);
}

#[test]
fn byte_size_of_index_array() {
    let indices: Vec<u32> = vec![0, 1, 2, 6, 7, 8, 3, 4, 5];
    assert_eq!(byte_size_of_array(&indices), 36);
}

#[test]
fn byte_size_of_empty_array() {
    let empty: Vec<u64> = Vec::new();
    assert_eq!(byte_size_of_array(&empty), 0);
}

#[test]
fn byte_size_of_wide_elements() {
    let wide: [u64; 5] = [1, 2, 3, 4, 5];
    assert_eq!(byte_size_of_array(&wide), 40);
}

#[test]
fn size_of_primitives() {
    assert_eq!(size_of::<f32>(), 4);
    assert_eq!(size_of::<u8>(), 1);
    assert_eq!(size_of::<f64>(), 8);
    assert_eq!(size_of::<[f32; 3]>(), 12);
}

#[test]
fn offset_counts_bytes() {
    assert_eq!(offset::<f32>(0), 0);
    assert_eq!(offset::<f32>(3), 12);
    assert_eq!(offset::<u16>(7), 14);
}

fn triangles_data() -> (Vec<f32>, Vec<u32>, Vec<f32>) {
    let vertices: Vec<f32> = vec![
        -1.0, 0.0, 0.1, 0.25, 0.0, 0.1, -0.5, 0.5, 0.1, -0.5, -0.5, 0.2, 0.5, -0.5, 0.2, 0.0,
        0.175, 0.2, -0.25, 0.0, 0.5, 1.0, 0.0, 0.5, 0.5, 0.5, 0.5,
    ];
    let indices: Vec<u32> = vec![0, 1, 2, 6, 7, 8, 3, 4, 5];
    let colors: Vec<f32> = vec![
        0.0, 0.0, 1.0, 0.3, 0.0, 0.0, 1.0, 0.3, 0.0, 0.0, 1.0, 0.3, 1.0, 0.0, 0.0, 0.3, 1.0,
        0.0, 0.0, 0.3, 1.0, 0.0, 0.0, 0.3, 0.0, 1.0, 0.0, 0.3, 0.0, 1.0, 0.0, 0.3, 0.0, 1.0,
        0.0, 0.3,
    ];
    (vertices, indices, colors)
}

#[test]
fn vao_without_normals() {
    let (vertices, indices, colors) = triangles_data();
    let plan = vao_buffers(&vertices, &indices, &colors, None);
    assert_eq!(
        plan,
        vec![
            BufferUpload {
                target: BufferTarget::Array,
                source: BufferSource::Positions,
                byte_size: 108,
                attribute: Some(AttributePointer { index: 0, components: 3, stride: 12 }),
            },
            BufferUpload {
                target: BufferTarget::Array,
                source: BufferSource::Colors,
                byte_size: 144,
                attribute: Some(AttributePointer { index: 2, components: 4, stride: 16 }),
            },
            BufferUpload {
                target: BufferTarget::ElementArray,
                source: BufferSource::Indices,
                byte_size: 36,
                attribute: None,
            },
        ]
    );
}

#[test]
fn vao_with_normals() {
    let (vertices, indices, colors) = triangles_data();
    let normals: Vec<f32> = vec![0.0, 0.0, 1.0, 0.0, 1.0, 0.0];
    let plan = vao_buffers(&vertices, &indices, &colors, Some(&normals[..]));
    assert_eq!(plan.len(), 4);
    assert_eq!(plan[0].attribute.unwrap().index, POSITION_ATTRIBUTE);
    assert_eq!(plan[1].attribute.unwrap().index, COLOR_ATTRIBUTE);
    assert_eq!(
        plan[2],
        BufferUpload {
            target: BufferTarget::Array,
            source: BufferSource::Normals,
            byte_size: 24,
            attribute: Some(AttributePointer { index: NORMAL_ATTRIBUTE, components: 3, stride: 12 }),
        }
    );
    assert_eq!(plan[3].target, BufferTarget::ElementArray);
    assert_eq!(plan[3].byte_size, 36);
}

#[test]
fn vao_strides_follow_element_size() {
    let positions: Vec<f64> = vec![0.0; 6];
    let colors: Vec<f64> = vec![0.0; 8];
    let indices: Vec<u16> = vec![0, 1];
    let plan = vao_buffers(&positions, &indices, &colors, None);
    assert_eq!(plan[0].attribute.unwrap().stride, 24);
    assert_eq!(plan[1].attribute.unwrap().stride, 32);
    assert_eq!(plan[0].byte_size, 48);
    assert_eq!(plan[1].byte_size, 64);
    assert_eq!(plan[2].byte_size, 4);
}
