use vstd::prelude::*;

use crate::datatypes::Vertex;

verus! {

/// Triangle-list geometry: vertex positions and payloads, three per triangle.
pub struct Mesh<T> {
    positions: Vec<glam::Vec3>,
    data: Vec<T>,
}

/// What a mesh holds: one position and one payload per vertex.
pub struct MeshView<T> {
    pub positions: Seq<glam::Vec3>,
    pub data: Seq<T>,
}

impl<T> View for Mesh<T> {
    type V = MeshView<T>;

    closed spec fn view(&self) -> MeshView<T> {
        MeshView { positions: self.positions@, data: self.data@ }
    }
}

/// The vertex that the `i`-th entry of the mesh takes: through the index
/// buffer when there is one, else the `i`-th vertex.
pub open spec fn mesh_source<T>(vertices: Seq<Vertex<T>>, indices: Option<Seq<u32>>, i: int) -> Vertex<T> {
    match indices {
        Some(idx) => vertices[idx[i] as int],
        None => vertices[i],
    }
}

/// The index buffer as a sequence.
pub open spec fn index_view(indices: Option<Vec<u32>>) -> Option<Seq<u32>> {
    match indices {
        Some(v) => Some(v@),
        None => None,
    }
}

/// Number of entries of a mesh made from `vertices` and `indices`.
pub open spec fn mesh_len<T>(vertices: Seq<Vertex<T>>, indices: Option<Seq<u32>>) -> int {
    match indices {
        Some(idx) => idx.len() as int,
        None => vertices.len() as int,
    }
}

/// Every index names a vertex.
pub open spec fn indices_in_range<T>(vertices: Seq<Vertex<T>>, indices: Option<Seq<u32>>) -> bool {
    match indices {
        Some(idx) => forall|i: int| 0 <= i < idx.len() ==> (#[trigger] idx[i]) < vertices.len(),
        None => true,
    }
}

impl<T: Copy> Mesh<T> {
    /// Expands indexed vertices into a triangle list: entry `i` is the vertex
    /// named by `indices[i]`, or the `i`-th vertex when there are no indices.
    pub fn new(vertices: Vec<Vertex<T>>, indices: Option<Vec<u32>>) -> (m: Mesh<T>)
        requires
            indices_in_range(vertices@, index_view(indices)),
        ensures
            m@.positions.len() == mesh_len(vertices@, index_view(indices)),
            m@.data.len() == mesh_len(vertices@, index_view(indices)),
            forall|i: int|
                0 <= i < m@.positions.len() ==> #[trigger] m@.positions[i] == mesh_source(
                    vertices@,
                    index_view(indices),
                    i,
                ).position,
            forall|i: int|
                0 <= i < m@.data.len() ==> #[trigger] m@.data[i] == mesh_source(
                    vertices@,
                    index_view(indices),
                    i,
                ).data,
    {
        let ghost idx = index_view(indices);
        let n = match &indices {
            Some(ix) => ix.len(),
            None => vertices.len(),
        };
        let mut positions: Vec<glam::Vec3> = Vec::with_capacity(n);
        let mut data: Vec<T> = Vec::with_capacity(n);
        let mut i: usize = 0;
        while i < n
            invariant
                idx == index_view(indices),
                indices_in_range(vertices@, idx),
                n == mesh_len(vertices@, idx),
                i <= n,
                positions@.len() == i,
                data@.len() == i,
                forall|k: int|
                    0 <= k < i ==> #[trigger] positions@[k] == mesh_source(vertices@, idx, k).position,
                forall|k: int| 0 <= k < i ==> #[trigger] data@[k] == mesh_source(vertices@, idx, k).data,
            decreases n - i,
        {
            let vertex = match &indices {
                Some(ix) => {
                    assert(ix@[i as int] < vertices@.len());
                    vertices[ix[i] as usize]
                },
                None => vertices[i],
            };
            positions.push(vertex.position);
            data.push(vertex.data);
            i = i + 1;
        }
        Mesh { positions, data }
    }

    /// The vertex positions.
    pub fn positions(&self) -> (r: &[glam::Vec3])
        ensures
            r@ == self@.positions,
    {
        self.positions.as_slice()
    }

    /// The vertex payloads.
    pub fn data(&self) -> (r: &[T])
        ensures
            r@ == self@.data,
    {
        self.data.as_slice()
    }
}

} // verus!
