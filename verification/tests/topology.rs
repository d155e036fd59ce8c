use mini_renderer::graphics::topology::{
    LineList, LineLoop, LineStrip, PointList, Primitive, PrimitiveTopology, TriangleFan,
    TriangleList, TriangleStrip,
};
use mini_renderer::graphics::primitive::PrimitiveState;
use mini_renderer::graphics::{Face, FrontFace};

#[derive(Debug, Clone, Copy, PartialEq)]
struct Vec4 {
    x: f32,
    y: f32,
    z: f32,
    w: f32,
}

impl Vec4 {
    fn new(x: f32, y: f32, z: f32, w: f32) -> Self {
        Self { x, y, z, w }
    }
}

#[derive(Debug, Clone, Copy, PartialEq)]
struct VertexOutput {
    position: Vec4,
    varying: f32,
}

#[test]
fn built_in_topologies_report_assembled_primitive_counts() {
    assert_eq!(<PointList as Primitive<()>>::primitive_count(7), 7);
    assert_eq!(<LineList as Primitive<()>>::primitive_count(7), 3);
    assert_eq!(<LineStrip as Primitive<()>>::primitive_count(7), 6);
    assert_eq!(<LineLoop as Primitive<()>>::primitive_count(7), 7);
    assert_eq!(<TriangleList as Primitive<()>>::primitive_count(7), 2);
    assert_eq!(<TriangleStrip as Primitive<()>>::primitive_count(7), 5);
    assert_eq!(<TriangleFan as Primitive<()>>::primitive_count(7), 5);
}

#[test]
fn triangle_list_assembles_from_index_order() {
    let vertices = [
        VertexOutput { position: Vec4::new(0.0, 0.0, 0.0, 1.0), varying: 0.0 },
        VertexOutput { position: Vec4::new(1.0, 0.0, 0.0, 1.0), varying: 1.0 },
        VertexOutput { position: Vec4::new(0.0, 1.0, 0.0, 1.0), varying: 2.0 },
        VertexOutput { position: Vec4::new(1.0, 1.0, 0.0, 1.0), varying: 3.0 },
    ];
    let indices = [0, 1, 2, 2, 1, 3];

    let primitives = <TriangleList as Primitive<VertexOutput>>::assemble_indexed(&vertices, &indices);

    assert_eq!(primitives.len(), 2);
    assert_eq!(primitives[0].map(|vertex| vertex.varying), [0.0, 1.0, 2.0]);
    assert_eq!(primitives[1].map(|vertex| vertex.varying), [2.0, 1.0, 3.0]);
}

#[test]
fn primitive_count_matches_assembled_length_for_every_topology() {
    for n in 0..9usize {
        let vertices: Vec<u32> = (0..n as u32).collect();
        assert_eq!(<PointList as Primitive<u32>>::assemble(&vertices).len(), <PointList as Primitive<u32>>::primitive_count(n));
        assert_eq!(<LineList as Primitive<u32>>::assemble(&vertices).len(), <LineList as Primitive<u32>>::primitive_count(n));
        assert_eq!(<LineStrip as Primitive<u32>>::assemble(&vertices).len(), <LineStrip as Primitive<u32>>::primitive_count(n));
        assert_eq!(<LineLoop as Primitive<u32>>::assemble(&vertices).len(), <LineLoop as Primitive<u32>>::primitive_count(n));
        assert_eq!(<TriangleList as Primitive<u32>>::assemble(&vertices).len(), <TriangleList as Primitive<u32>>::primitive_count(n));
        assert_eq!(<TriangleStrip as Primitive<u32>>::assemble(&vertices).len(), <TriangleStrip as Primitive<u32>>::primitive_count(n));
        assert_eq!(<TriangleFan as Primitive<u32>>::assemble(&vertices).len(), <TriangleFan as Primitive<u32>>::primitive_count(n));
    }
}

#[test]
fn each_topology_groups_vertices_as_documented() {
    let v = [10u32, 11, 12, 13, 14];
    assert_eq!(<PointList as Primitive<u32>>::assemble(&v), vec![10, 11, 12, 13, 14]);
    assert_eq!(<LineList as Primitive<u32>>::assemble(&v), vec![[10, 11], [12, 13]]);
    assert_eq!(<LineStrip as Primitive<u32>>::assemble(&v), vec![[10, 11], [11, 12], [12, 13], [13, 14]]);
    assert_eq!(
        <LineLoop as Primitive<u32>>::assemble(&v),
        vec![[10, 11], [11, 12], [12, 13], [13, 14], [14, 10]]
    );
    assert_eq!(<TriangleList as Primitive<u32>>::assemble(&v), vec![[10, 11, 12]]);
    assert_eq!(
        <TriangleStrip as Primitive<u32>>::assemble(&v),
        vec![[10, 11, 12], [11, 12, 13], [12, 13, 14]]
    );
    assert_eq!(
        <TriangleFan as Primitive<u32>>::assemble(&v),
        vec![[10, 11, 12], [10, 12, 13], [10, 13, 14]]
    );
}

#[test]
fn indexed_assembly_equals_assembly_of_gathered_vertices() {
    let v = [10u32, 11, 12, 13, 14];
    let idx = [4usize, 0, 3, 3, 1];
    let gathered: Vec<u32> = idx.iter().map(|&i| v[i]).collect();
    assert_eq!(<LineLoop as Primitive<u32>>::assemble_indexed(&v, &idx), <LineLoop as Primitive<u32>>::assemble(&gathered));
    assert_eq!(<TriangleFan as Primitive<u32>>::assemble_indexed(&v, &idx), <TriangleFan as Primitive<u32>>::assemble(&gathered));
    assert_eq!(<TriangleStrip as Primitive<u32>>::assemble_indexed(&v, &idx), <TriangleStrip as Primitive<u32>>::assemble(&gathered));
    assert_eq!(<LineList as Primitive<u32>>::assemble_indexed(&v, &idx), <LineList as Primitive<u32>>::assemble(&gathered));
    assert_eq!(<PointList as Primitive<u32>>::assemble_indexed(&v, &idx), gathered);
}

#[test]
fn degenerate_streams_assemble_nothing() {
    let empty: [u32; 0] = [];
    assert!(<LineLoop as Primitive<u32>>::assemble(&empty).is_empty());
    assert!(<TriangleFan as Primitive<u32>>::assemble(&[7u32]).is_empty());
    assert!(<TriangleStrip as Primitive<u32>>::assemble(&[7u32, 8]).is_empty());
    assert_eq!(<LineLoop as Primitive<u32>>::assemble(&[7u32]), vec![[7, 7]]);
}

#[test]
fn primitive_state_defaults_and_builders() {
    let state = PrimitiveState::new(PrimitiveTopology::line_strip());
    assert_eq!(state.front_face(), FrontFace::Ccw);
    assert_eq!(state.cull_mode(), None);
    let state = state.with_cull_mode(Face::Back).with_front_face(FrontFace::Cw);
    assert_eq!(state.front_face(), FrontFace::Cw);
    assert_eq!(state.cull_mode(), Some(Face::Back));
    let default_state = PrimitiveState::<TriangleList>::default();
    assert_eq!(default_state.front_face(), FrontFace::Ccw);
    assert_eq!(default_state.cull_mode(), None);
}

#[test]
fn indices_that_no_primitive_reads_need_not_name_a_vertex() {
    let v = [10u32, 11, 12];
    let list_idx = [2usize, 1, 0, 99];
    assert_eq!(<TriangleList as Primitive<u32>>::assemble_indexed(&v, &list_idx), vec![[12, 11, 10]]);
    let pair_idx = [1usize, 2, 99];
    assert_eq!(<LineList as Primitive<u32>>::assemble_indexed(&v, &pair_idx), vec![[11, 12]]);
    let short_idx = [99usize, 98];
    assert!(<TriangleStrip as Primitive<u32>>::assemble_indexed(&v, &short_idx).is_empty());
    assert!(<TriangleFan as Primitive<u32>>::assemble_indexed(&v, &short_idx).is_empty());
}
