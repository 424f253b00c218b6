use vstd::prelude::*;

use crate::layout::{byte_size_of_array, bytes_of, size_of};

verus! {

/// The binding point a buffer is bound to before its data is uploaded.
#[derive(Clone, Copy, Debug, PartialEq, Eq, Structural)]
pub enum BufferTarget {
    /// Vertex attribute data (`ARRAY_BUFFER`).
    Array,
    /// Triangle indices (`ELEMENT_ARRAY_BUFFER`).
    ElementArray,
}

/// Which of the caller's arrays a buffer is filled from.
#[derive(Clone, Copy, Debug, PartialEq, Eq, Structural)]
pub enum BufferSource {
    Positions,
    Colors,
    Normals,
    Indices,
}

/// How the vertex shader reads a buffer: attribute `index`, `components`
/// floats per vertex, `stride` bytes between vertices, from offset 0.
#[derive(Clone, Copy, Debug, PartialEq, Eq, Structural)]
pub struct AttributePointer {
    pub index: u32,
    pub components: i32,
    pub stride: i32,
}

/// One buffer of a vertex array object: generated, bound to `target`,
/// filled with `byte_size` bytes from `source`, then, for vertex data, tied
/// to a shader attribute and that attribute enabled.
#[derive(Clone, Copy, Debug, PartialEq, Eq, Structural)]
pub struct BufferUpload {
    pub target: BufferTarget,
    pub source: BufferSource,
    pub byte_size: isize,
    pub attribute: Option<AttributePointer>,
}

/// Attribute location of vertex positions (3 floats per vertex).
pub const POSITION_ATTRIBUTE: u32 = 0;

/// Attribute location of vertex colors (4 floats per vertex, RGBA).
pub const COLOR_ATTRIBUTE: u32 = 2;

/// Attribute location of vertex normals (3 floats per vertex).
pub const NORMAL_ATTRIBUTE: u32 = 6;

/// A vertex-data buffer read as `components` values of `P` per vertex.
pub open spec fn attribute_upload<P>(
    source: BufferSource,
    len: nat,
    index: u32,
    components: int,
) -> BufferUpload {
    BufferUpload {
        target: BufferTarget::Array,
        source,
        byte_size: bytes_of::<P>(len as int) as isize,
        attribute: Some(
            AttributePointer {
                index,
                components: components as i32,
                stride: (components * vstd::layout::size_of::<P>()) as i32,
            },
        ),
    }
}

/// The index buffer, filled from `len` values of `I`.
pub open spec fn index_upload<I>(len: nat) -> BufferUpload {
    BufferUpload {
        target: BufferTarget::ElementArray,
        source: BufferSource::Indices,
        byte_size: bytes_of::<I>(len as int) as isize,
        attribute: None,
    }
}

/// The buffers of a vertex array object, in upload order: positions,
/// colors, normals where there are any, and the indices last.
pub open spec fn vao_plan<P, I>(
    n_positions: nat,
    n_indices: nat,
    n_colors: nat,
    n_normals: Option<nat>,
) -> Seq<BufferUpload> {
    let head = seq![
        attribute_upload::<P>(BufferSource::Positions, n_positions, POSITION_ATTRIBUTE, 3),
        attribute_upload::<P>(BufferSource::Colors, n_colors, COLOR_ATTRIBUTE, 4),
    ];
    let with_normals = match n_normals {
        Some(n) => head.push(
            attribute_upload::<P>(BufferSource::Normals, n, NORMAL_ATTRIBUTE, 3),
        ),
        None => head,
    };
    with_normals.push(index_upload::<I>(n_indices))
}

/// The upload of a vertex-data buffer read as `components` values of `P`
/// per vertex from attribute `index`.
fn attribute_buffer<P>(source: BufferSource, data: &[P], index: u32, components: i32) -> (upload:
    BufferUpload)
    requires
        1 <= components <= 4,
        4 * vstd::layout::size_of::<P>() <= i32::MAX,
    ensures
        upload == attribute_upload::<P>(source, data@.len(), index, components as int),
{
    let unit = size_of::<P>();
    assert(unit as int == vstd::layout::size_of::<P>());
    assert(0 <= unit * components <= 4 * vstd::layout::size_of::<P>() && unit * components
        == components * vstd::layout::size_of::<P>()) by (nonlinear_arith)
        requires
            1 <= components <= 4,
            unit as int == vstd::layout::size_of::<P>(),
    ;
    BufferUpload {
        target: BufferTarget::Array,
        source,
        byte_size: byte_size_of_array(data),
        attribute: Some(AttributePointer { index, components, stride: unit * components }),
    }
}

/// The buffers that make up one vertex array object for a mesh: vertex
/// positions, vertex colors, optionally vertex normals, and the triangle
/// indices, each with the exact byte size of its array.
///
/// Every array must be non-empty (uploading hands OpenGL the address of the
/// first element).
pub fn vao_buffers<P, I>(
    vertex_coordinates: &[P],
    indices_array: &[I],
    color_array: &[P],
    normals_array: Option<&[P]>,
) -> (plan: Vec<BufferUpload>)
    requires
        vertex_coordinates@.len() > 0,
        indices_array@.len() > 0,
        color_array@.len() > 0,
        normals_array matches Some(n) ==> n@.len() > 0,
        4 * vstd::layout::size_of::<P>() <= i32::MAX,
    ensures
        plan@ == vao_plan::<P, I>(
            vertex_coordinates@.len(),
            indices_array@.len(),
            color_array@.len(),
            match normals_array {
                Some(n) => Some(n@.len()),
                None => None,
            },
        ),
        plan@.len() == (if normals_array is Some { 4int } else { 3int }),
        plan@[0] == (BufferUpload {
            target: BufferTarget::Array,
            source: BufferSource::Positions,
            byte_size: (vertex_coordinates@.len() * vstd::layout::size_of::<P>()) as isize,
            attribute: Some(
                AttributePointer {
                    index: 0,
                    components: 3,
                    stride: (3 * vstd::layout::size_of::<P>()) as i32,
                },
            ),
        }),
        plan@[1] == (BufferUpload {
            target: BufferTarget::Array,
            source: BufferSource::Colors,
            byte_size: (color_array@.len() * vstd::layout::size_of::<P>()) as isize,
            attribute: Some(
                AttributePointer {
                    index: 2,
                    components: 4,
                    stride: (4 * vstd::layout::size_of::<P>()) as i32,
                },
            ),
        }),
        normals_array matches Some(n) ==> plan@[2] == (BufferUpload {
            target: BufferTarget::Array,
            source: BufferSource::Normals,
            byte_size: (n@.len() * vstd::layout::size_of::<P>()) as isize,
            attribute: Some(
                AttributePointer {
                    index: 6,
                    components: 3,
                    stride: (3 * vstd::layout::size_of::<P>()) as i32,
                },
            ),
        }),
        plan@[plan@.len() - 1] == (BufferUpload {
            target: BufferTarget::ElementArray,
            source: BufferSource::Indices,
            byte_size: (indices_array@.len() * vstd::layout::size_of::<I>()) as isize,
            attribute: None,
        }),
{
    let mut plan: Vec<BufferUpload> = Vec::new();
    plan.push(attribute_buffer(BufferSource::Positions, vertex_coordinates, POSITION_ATTRIBUTE, 3));
    plan.push(attribute_buffer(BufferSource::Colors, color_array, COLOR_ATTRIBUTE, 4));
    match normals_array {
        Some(normals) => {
            plan.push(attribute_buffer(BufferSource::Normals, normals, NORMAL_ATTRIBUTE, 3));
        },
        None => {},
    }
    plan.push(
        BufferUpload {
            target: BufferTarget::ElementArray,
            source: BufferSource::Indices,
            byte_size: byte_size_of_array(indices_array),
            attribute: None,
        },
    );
    proof {
        let n = match normals_array {
            Some(n) => Some(n@.len()),
            None => None,
        };
        assert(plan@ =~= vao_plan::<P, I>(
            vertex_coordinates@.len(),
            indices_array@.len(),
            color_array@.len(),
            n,
        ));
    }
    plan
}

} // verus!

verus! {

/// In every vertex array object the index buffer comes last and is the only
/// element buffer; every other buffer feeds its own attribute location and
/// is read tightly packed (its stride is its component count times the
/// size of one value).
pub proof fn law_vao_plan_well_formed<P, I>(
    n_positions: nat,
    n_indices: nat,
    n_colors: nat,
    n_normals: Option<nat>,
)
    requires
        4 * vstd::layout::size_of::<P>() <= i32::MAX,
    ensures
        ({
            let plan = vao_plan::<P, I>(n_positions, n_indices, n_colors, n_normals);
            &&& plan.len() == (if n_normals is Some { 4int } else { 3int })
            &&& plan.last() == index_upload::<I>(n_indices)
            &&& forall|i: int|
                0 <= i < plan.len() - 1 ==> {
                    &&& (#[trigger] plan[i]).target == BufferTarget::Array
                    &&& plan[i].attribute is Some
                    &&& 1 <= plan[i].attribute->0.components <= 4
                    &&& plan[i].attribute->0.stride as int == plan[i].attribute->0.components
                        * vstd::layout::size_of::<P>()
                }
            &&& forall|i: int, j: int|
                0 <= i < plan.len() - 1 && 0 <= j < plan.len() - 1 && i != j
                    ==> (#[trigger] plan[i]).attribute->0.index != (#[trigger] plan[j]).attribute->0.index
        }),
{
    let s = vstd::layout::size_of::<P>();
    assert(3 * s <= i32::MAX && 4 * s <= i32::MAX);
    let plan = vao_plan::<P, I>(n_positions, n_indices, n_colors, n_normals);
    assert(plan[0] == attribute_upload::<P>(BufferSource::Positions, n_positions, POSITION_ATTRIBUTE, 3));
    assert(plan[1] == attribute_upload::<P>(BufferSource::Colors, n_colors, COLOR_ATTRIBUTE, 4));
}

} // verus!

verus! {

/// The buffers of a vertex array object, entry by entry: positions read as
/// 3 values per vertex from attribute 0, colors read as RGBA (4 values per
/// vertex) from attribute 2 whether or not normals follow, normals (when
/// given) read as 3 values per vertex from attribute 6, and the indices last;
/// each buffer is as large as its array.
pub proof fn law_vao_plan_entries<P, I>(
    n_positions: nat,
    n_indices: nat,
    n_colors: nat,
    n_normals: Option<nat>,
)
    ensures
        ({
            let plan = vao_plan::<P, I>(n_positions, n_indices, n_colors, n_normals);
            let unit = vstd::layout::size_of::<P>();
            &&& plan.len() == (if n_normals is Some { 4int } else { 3int })
            &&& plan[0] == (BufferUpload {
                target: BufferTarget::Array,
                source: BufferSource::Positions,
                byte_size: (n_positions * unit) as isize,
                attribute: Some(AttributePointer { index: 0, components: 3, stride: (3 * unit) as i32 }),
            })
            &&& plan[1] == (BufferUpload {
                target: BufferTarget::Array,
                source: BufferSource::Colors,
                byte_size: (n_colors * unit) as isize,
                attribute: Some(AttributePointer { index: 2, components: 4, stride: (4 * unit) as i32 }),
            })
            &&& (n_normals matches Some(n) ==> plan[2] == (BufferUpload {
                target: BufferTarget::Array,
                source: BufferSource::Normals,
                byte_size: (n * unit) as isize,
                attribute: Some(AttributePointer { index: 6, components: 3, stride: (3 * unit) as i32 }),
            }))
            &&& plan[plan.len() - 1] == (BufferUpload {
                target: BufferTarget::ElementArray,
                source: BufferSource::Indices,
                byte_size: (n_indices * vstd::layout::size_of::<I>()) as isize,
                attribute: None,
            })
        }),
{
}

} // verus!
