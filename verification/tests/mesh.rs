use psychopath::parse::psy::PsyError;
use psychopath::parse::parse_utils::SubsectionAction;
use psychopath::parse::psy_mesh_surface::{
    check_mesh_counts, mesh_surface_step, parse_face_list, read_usize_list, triangulate_faces,
    MeshField,
};

#[test]
fn number_lists() {
    assert_eq!(read_usize_list(" 3 4\n3 "), (vec![3, 4, 3], true));
    assert_eq!(read_usize_list("3 x"), (vec![3], false));
    assert_eq!(read_usize_list(""), (vec![], true));
    assert_eq!(parse_face_list("1 2 3", 0).unwrap(), vec![1, 2, 3]);
    match parse_face_list("1 2.5", 14) {
        Err(PsyError::IncorrectLeafData(14, m)) => assert_eq!(
            m,
            "FaceVertCounts are not in the right format.  Should be a simple list of space-separated integers."
        ),
        other => panic!("unexpected {:?}", other),
    }
}

#[test]
fn polygons_become_fans() {
    let counts = [3usize, 4, 5];
    let indices = [0usize, 1, 2, 3, 4, 5, 6, 7, 8, 9, 10, 11];
    assert_eq!(
        triangulate_faces(&counts, &indices),
        vec![
            (0, 1, 2),
            (3, 4, 5),
            (3, 5, 6),
            (7, 8, 9),
            (7, 9, 10),
            (7, 10, 11)
        ]
    );
    assert_eq!(triangulate_faces(&[], &[1, 2]), vec![]);
}

fn mesh_leaf(t: &str, o: usize) -> psychopath::parse::data_tree::Event {
    psychopath::parse::data_tree::Event::Leaf {
        node_type: t.to_string(),
        contents: String::new(),
        byte_offset: o,
    }
}

#[test]
fn mesh_section_leaves_and_counts() {
    let mut counts = vec![0usize; 5];
    let (a, f) = mesh_surface_step(&mut counts, &mesh_leaf("Vertices", 3), 4);
    assert!(matches!(a, SubsectionAction::Handle) && matches!(f, MeshField::Vertices));
    let (a, f) = mesh_surface_step(&mut counts, &mesh_leaf("Vertices", 5), 6);
    assert!(matches!(a, SubsectionAction::Handle) && matches!(f, MeshField::Vertices));
    let (a, f) = mesh_surface_step(&mut counts, &mesh_leaf("FaceVertCounts", 7), 8);
    assert!(matches!(a, SubsectionAction::Handle) && matches!(f, MeshField::FaceVertCounts));
    let (a, _) = mesh_surface_step(&mut counts, &mesh_leaf("FaceVertCounts", 9), 10);
    assert!(matches!(a, SubsectionAction::Finish(Err(_))));
    assert_eq!(counts, vec![0, 2, 0, 2, 0]);
    let (a, _) = mesh_surface_step(
        &mut counts,
        &psychopath::parse::data_tree::Event::InnerClose { byte_offset: 11 },
        12,
    );
    assert!(matches!(a, SubsectionAction::Finish(Err(_))));
}

#[test]
fn mesh_vertex_and_normal_counts() {
    assert!(check_mesh_counts(&[4, 4], &[]));
    assert!(check_mesh_counts(&[4, 4], &[4, 4]));
    assert!(!check_mesh_counts(&[4, 3], &[]));
    assert!(!check_mesh_counts(&[4, 4], &[4]));
    assert!(!check_mesh_counts(&[4], &[5]));
}
