//! The integer parts of a mesh surface's description: which leaves its
//! section holds, the lists of face vertex counts and indices, the
//! triangles they make, and the checks on the vertex and normal counts.
use vstd::prelude::*;
use vstd::string::*;
use crate::parse::parse_utils::{lemma_ws_unsigned_in_bounds, ws_unsigned, ws_usize};
use crate::parse::psy::PsyError;
use crate::parse::parse_utils::{
    count_check_result, ensure_subsections, event_step, names_subsection, no_subsection, Range,
    SubsectionAction,
};
use crate::parse::data_tree::Event;
use crate::text::str_eq;

verus! {

/// The numbers read from the start of `s`, one after the other between
/// optional whitespace, and the text left where no more can be read.
pub open spec fn usize_list(s: Seq<char>) -> (Seq<int>, Seq<char>)
    decreases s.len(),
{
    match ws_unsigned(s, usize::MAX as int) {
        Some((k, v)) => if 0 < k <= s.len() {
            let rest = usize_list(s.skip(k));
            (seq![v] + rest.0, rest.1)
        } else {
            (Seq::empty(), s)
        },
        None => (Seq::empty(), s),
    }
}

proof fn lemma_read_advances(s: Seq<char>)
    ensures
        ws_unsigned(s, usize::MAX as int) matches Some((k, _)) ==> 0 < k <= s.len(),
{
    lemma_ws_unsigned_in_bounds(s, usize::MAX as int);
}

/// Reads numbers one after the other from `input`: the numbers, and
/// whether all of the text was read.
pub fn read_usize_list(input: &str) -> (r: (Vec<usize>, bool))
    ensures
        r.0@.len() == usize_list(input@).0.len(),
        forall|i: int| 0 <= i < r.0@.len() ==> r.0@[i] == usize_list(input@).0[i],
        r.1 == (usize_list(input@).1.len() == 0),
{
    let mut values: Vec<usize> = Vec::new();
    let mut text = input;
    let ghost mut prefix: Seq<int> = Seq::empty();
    loop
        invariant
            usize_list(input@).0 == prefix + usize_list(text@).0,
            usize_list(input@).1 == usize_list(text@).1,
            values@.len() == prefix.len(),
            forall|i: int| 0 <= i < values@.len() ==> values@[i] == prefix[i],
        decreases text@.len(),
    {
        proof {
            lemma_read_advances(text@);
        }
        match ws_usize(text) {
            Ok((rest, n)) => {
                proof {
                    let k = text@.len() - rest@.len();
                    assert(usize_list(text@).0 == seq![n as int] + usize_list(rest@).0);
                    assert(prefix + usize_list(text@).0 =~= prefix.push(n as int) + usize_list(
                        rest@,
                    ).0);
                    prefix = prefix.push(n as int);
                }
                values.push(n);
                text = rest;
            },
            Err(()) => {
                return (values, text.unicode_len() == 0);
            },
        }
    }
}

/// The message for face lists that are not lists of integers.
pub open spec fn face_list_message() -> Seq<char> {
    "FaceVertCounts are not in the right format.  Should be a simple list of space-separated integers."@
}

/// Reads the numbers of a face vertex counts or face vertex indices leaf.
/// Errors are reported at `byte_offset`.
pub fn parse_face_list(contents: &str, byte_offset: usize) -> (r: Result<Vec<usize>, PsyError>)
    ensures
        match r {
            Ok(v) => usize_list(contents@).1.len() == 0 && v@.len() == usize_list(contents@).0.len()
                && forall|i: int| 0 <= i < v@.len() ==> v@[i] == usize_list(contents@).0[i],
            Err(e) => usize_list(contents@).1.len() != 0 && (e matches PsyError::IncorrectLeafData(
                o,
                m,
            ) && o == byte_offset && m@ == face_list_message()),
        },
{
    let (values, all) = read_usize_list(contents);
    if all {
        Ok(values)
    } else {
        Err(
            PsyError::IncorrectLeafData(
                byte_offset,
                String::from_str(
                    "FaceVertCounts are not in the right format.  Should be a simple list of space-separated integers.",
                ),
            ),
        )
    }
}

/// Where the vertex indices of face `k` start: the sum of the counts of the
/// faces before it.
pub open spec fn face_start(counts: Seq<usize>, k: int) -> int
    decreases k,
{
    if k <= 0 {
        0
    } else {
        face_start(counts, k - 1) + counts[k - 1]
    }
}

/// The triangles of a polygon whose `n` vertex indices start at `v1`: a
/// fan around its first vertex.
pub open spec fn fan(indices: Seq<usize>, v1: int, n: int) -> Seq<(usize, usize, usize)> {
    Seq::new(
        (n - 2) as nat,
        |vi: int| (indices[v1], indices[v1 + vi + 1], indices[v1 + vi + 2]),
    )
}

/// The triangles of the first `k` faces, in order.
pub open spec fn triangles(counts: Seq<usize>, indices: Seq<usize>, k: int) -> Seq<
    (usize, usize, usize),
>
    decreases k,
{
    if k <= 0 {
        Seq::empty()
    } else {
        triangles(counts, indices, k - 1) + fan(indices, face_start(counts, k - 1), counts[k - 1] as int)
    }
}

proof fn lemma_face_start_grows(counts: Seq<usize>, j: int, k: int)
    requires
        0 <= j <= k <= counts.len(),
    ensures
        face_start(counts, j) <= face_start(counts, k),
    decreases k - j,
{
    if j < k {
        lemma_face_start_grows(counts, j, k - 1);
    }
}

/// Splits polygons into triangles.  Face `k` has `counts[k]` vertices,
/// whose indices follow those of the faces before it in `indices`; each
/// face becomes a fan of triangles around its first vertex.
///
/// Every face needs at least three vertices, and `indices` must hold the
/// vertices of all the faces.
pub fn triangulate_faces(counts: &[usize], indices: &[usize]) -> (tris: Vec<(usize, usize, usize)>)
    requires
        forall|k: int| 0 <= k < counts@.len() ==> #[trigger] counts@[k] >= 3,
        face_start(counts@, counts@.len() as int) <= indices@.len(),
    ensures
        tris@ == triangles(counts@, indices@, counts@.len() as int),
{
    let n_indices = indices.len();
    let mut tris: Vec<(usize, usize, usize)> = Vec::new();
    let mut ii: usize = 0;
    let mut f: usize = 0;
    while f < counts.len()
        invariant
            f <= counts@.len(),
            forall|k: int| 0 <= k < counts@.len() ==> #[trigger] counts@[k] >= 3,
            face_start(counts@, counts@.len() as int) <= indices@.len(),
            ii == face_start(counts@, f as int),
            n_indices == indices@.len(),
            tris@ == triangles(counts@, indices@, f as int),
        decreases counts@.len() - f,
    {
        let fvc = counts[f];
        proof {
            lemma_face_start_grows(counts@, f + 1, counts@.len() as int);
            assert(face_start(counts@, f + 1) == ii + fvc);
            assert(ii + fvc <= indices@.len());
        }
        let v1 = ii;
        let ghost before = tris@;
        let mut vi: usize = 0;
        while vi < fvc - 2
            invariant
                vi <= fvc - 2,
                fvc >= 3,
                v1 == ii,
                ii + fvc <= n_indices,
                n_indices == indices@.len(),
                v1 + fvc <= indices@.len(),
                tris@ == before + fan(indices@, v1 as int, fvc as int).take(vi as int),
            decreases fvc - 2 - vi,
        {
            let t = (indices[v1], indices[v1 + vi + 1], indices[v1 + vi + 2]);
            proof {
                assert(fan(indices@, v1 as int, fvc as int).take(vi + 1) =~= fan(
                    indices@,
                    v1 as int,
                    fvc as int,
                ).take(vi as int).push(t));
            }
            tris.push(t);
            vi += 1;
        }
        proof {
            assert(fan(indices@, v1 as int, fvc as int).take((fvc - 2) as int) =~= fan(
                indices@,
                v1 as int,
                fvc as int,
            ));
        }
        ii += fvc;
        f += 1;
    }
    tris
}

/// The leaves of a mesh surface section.
#[derive(Debug, Copy, Clone)]
pub enum MeshField {
    SurfaceShaderBind,
    Vertices,
    Normals,
    FaceVertCounts,
    FaceVertIndices,
}

/// The subsections of a mesh surface section: one shader binding, at least
/// one list of vertices (one per time sample), any number of lists of
/// normals, and one list each of face vertex counts and indices.
pub open spec fn mesh_subs() -> Seq<(&'static str, bool, Range)> {
    seq![
        ("SurfaceShaderBind", true, Range::Range(1, 2)),
        ("Vertices", true, Range::From(1)),
        ("Normals", true, Range::Full),
        ("FaceVertCounts", true, Range::Range(1, 2)),
        ("FaceVertIndices", true, Range::Range(1, 2)),
    ]
}

/// The field that a leaf of type `name` holds.
pub open spec fn mesh_field(name: Seq<char>) -> MeshField {
    if name == "SurfaceShaderBind"@ {
        MeshField::SurfaceShaderBind
    } else if name == "Vertices"@ {
        MeshField::Vertices
    } else if name == "Normals"@ {
        MeshField::Normals
    } else if name == "FaceVertCounts"@ {
        MeshField::FaceVertCounts
    } else {
        MeshField::FaceVertIndices
    }
}

/// The type name of the leaves that hold field `f`.
pub open spec fn field_name(f: MeshField) -> Seq<char> {
    match f {
        MeshField::SurfaceShaderBind => "SurfaceShaderBind"@,
        MeshField::Vertices => "Vertices"@,
        MeshField::Normals => "Normals"@,
        MeshField::FaceVertCounts => "FaceVertCounts"@,
        MeshField::FaceVertIndices => "FaceVertIndices"@,
    }
}

/// A leaf is read as the field that its type names: a leaf of type
/// `field_name(f)` holds field `f`, and two fields never share a name, so
/// no field is read in place of another.
pub proof fn law_leaf_read_as_named_field(f: MeshField, g: MeshField)
    ensures
        mesh_field(field_name(f)) == f,
        field_name(f) == field_name(g) ==> f == g,
{
    reveal_strlit("SurfaceShaderBind");
    reveal_strlit("Vertices");
    reveal_strlit("Normals");
    reveal_strlit("FaceVertCounts");
    reveal_strlit("FaceVertIndices");
    let sb = "SurfaceShaderBind"@;
    let v = "Vertices"@;
    let n = "Normals"@;
    let fc = "FaceVertCounts"@;
    let fi = "FaceVertIndices"@;
    assert(sb[0] != v[0] && sb[0] != n[0] && sb[0] != fc[0] && sb[0] != fi[0]);
    assert(v[0] != n[0] && v[0] != fc[0] && v[0] != fi[0]);
    assert(n[0] != fc[0] && n[0] != fi[0]);
    assert(fc[8] != fi[8]);
}

/// One step of reading the children of a mesh surface section, on the next
/// event (peeked): the subsections are counted as `ensure_subsections`
/// counts `mesh_subs()`, and where the event is a leaf to read, the field it
/// holds is given with the action.
pub fn mesh_surface_step(counts: &mut Vec<usize>, event: &Event, reader_offset: usize) -> (r: (
    SubsectionAction,
    MeshField,
))
    requires
        old(counts)@.len() == 5,
        forall|i: int| 0 <= i < 5 ==> #[trigger] old(counts)@[i] < usize::MAX,
    ensures
        final(counts)@.len() == 5,
        match *event {
            Event::Leaf { node_type, byte_offset, .. } => event_step(
                r.0,
                mesh_subs(),
                old(counts)@,
                final(counts)@,
                node_type@,
                true,
                byte_offset,
                reader_offset,
            ),
            Event::InnerOpen { node_type, byte_offset, .. } => event_step(
                r.0,
                mesh_subs(),
                old(counts)@,
                final(counts)@,
                node_type@,
                false,
                byte_offset,
                reader_offset,
            ),
            _ => final(counts)@ == old(counts)@ && (r.0 matches SubsectionAction::Finish(c)
                && count_check_result(c, mesh_subs(), old(counts)@, reader_offset)),
        },
        r.0 is Handle ==> (*event matches Event::Leaf { node_type, .. } && r.1 == mesh_field(
            node_type@,
        )),
{
    let subs = vec![
        ("SurfaceShaderBind", true, Range::Range(1, 2)),
        ("Vertices", true, Range::From(1)),
        ("Normals", true, Range::Full),
        ("FaceVertCounts", true, Range::Range(1, 2)),
        ("FaceVertIndices", true, Range::Range(1, 2)),
    ];
    proof {
        assert(subs@ =~= mesh_subs());
    }
    let a = ensure_subsections(subs.as_slice(), counts, event, reader_offset);
    let field = match event {
        Event::Leaf { node_type, .. } => {
            let name = node_type.as_str();
            if str_eq(name, "SurfaceShaderBind") {
                MeshField::SurfaceShaderBind
            } else if str_eq(name, "Vertices") {
                MeshField::Vertices
            } else if str_eq(name, "Normals") {
                MeshField::Normals
            } else if str_eq(name, "FaceVertCounts") {
                MeshField::FaceVertCounts
            } else {
                MeshField::FaceVertIndices
            }
        },
        _ => MeshField::FaceVertIndices,
    };
    proof {
        if a is Handle {
            if let Event::InnerOpen { node_type, .. } = event {
                let subs = mesh_subs();
                assert(!no_subsection(subs, node_type@, false));
                let j = choose|j: int|
                    0 <= j < subs.len() && names_subsection(#[trigger] subs[j], node_type@, false);
                assert(subs[j].1);
            }
        }
    }
    (a, field)
}

/// The vertex lists of every time sample have as many vertices as the
/// first, and the normal lists, where there are any, are one per time
/// sample with that many normals each.
pub open spec fn mesh_counts_agree(verts: Seq<usize>, normals: Seq<usize>) -> bool {
    &&& forall|i: int| 0 <= i < verts.len() ==> #[trigger] verts[i] == verts[0]
    &&& normals.len() == 0 || (normals.len() == verts.len() && forall|i: int|
        0 <= i < normals.len() ==> #[trigger] normals[i] == verts[0])
}

/// Whether the vertex and normal counts of a mesh agree, given the number
/// of vertices of each time sample and of normals of each time sample (at
/// least one time sample of vertices).
pub fn check_mesh_counts(vert_counts: &[usize], normal_counts: &[usize]) -> (r: bool)
    requires
        vert_counts@.len() >= 1,
    ensures
        r == mesh_counts_agree(vert_counts@, normal_counts@),
{
    let first = vert_counts[0];
    let mut i: usize = 0;
    while i < vert_counts.len()
        invariant
            i <= vert_counts@.len(),
            first == vert_counts@[0],
            forall|k: int| 0 <= k < i ==> #[trigger] vert_counts@[k] == first,
        decreases vert_counts@.len() - i,
    {
        if vert_counts[i] != first {
            return false;
        }
        i += 1;
    }
    if normal_counts.len() == 0 {
        return true;
    }
    if normal_counts.len() != vert_counts.len() {
        return false;
    }
    let mut j: usize = 0;
    while j < normal_counts.len()
        invariant
            j <= normal_counts@.len(),
            first == vert_counts@[0],
            forall|k: int| 0 <= k < vert_counts@.len() ==> #[trigger] vert_counts@[k] == first,
            forall|k: int| 0 <= k < j ==> #[trigger] normal_counts@[k] == first,
        decreases normal_counts@.len() - j,
    {
        if normal_counts[j] != first {
            return false;
        }
        j += 1;
    }
    true
}

} // verus!
