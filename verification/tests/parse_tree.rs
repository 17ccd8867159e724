use psychopath::parse::data_tree::{DataTree, Event, ParseError};
use psychopath::parse::psy::{byte_offset_to_line_char, make_transform_format_error, PsyError};

fn open(name: &str, ident: Option<&str>, offset: usize) -> Result<Event, ()> {
    Ok(Event::InnerOpen {
        node_type: name.to_string(),
        ident: ident.map(|s| s.to_string()),
        byte_offset: offset,
    })
}

fn leaf(name: &str, contents: &str, offset: usize) -> Result<Event, ()> {
    Ok(Event::Leaf {
        node_type: name.to_string(),
        contents: contents.to_string(),
        byte_offset: offset,
    })
}

fn close(offset: usize) -> Result<Event, ()> {
    Ok(Event::InnerClose { byte_offset: offset })
}

fn scene_events() -> Vec<Result<Event, ()>> {
    vec![
        open("Scene", Some("$s"), 0),
        leaf("Output", "out.png", 12),
        open("Camera", None, 30),
        leaf("Fov", "1.0", 40),
        close(50),
        leaf("Output", "second.png", 60),
        close(80),
        Ok(Event::Done),
    ]
}

#[test]
fn from_events_builds_tree() {
    let tree = DataTree::from_events(&scene_events()).unwrap();
    assert_eq!(tree.node_type(), "ROOT");
    assert_eq!(tree.ident(), None);
    assert_eq!(tree.byte_offset(), 0);
    assert!(tree.is_internal());
    let roots = tree.iter_children();
    assert_eq!(roots.len(), 1);
    let scene = &roots[0];
    assert_eq!(scene.node_type(), "Scene");
    assert_eq!(scene.ident(), Some("$s"));
    assert_eq!(scene.iter_children().len(), 3);
    let camera = &scene.iter_children()[1];
    assert_eq!(camera.byte_offset(), 30);
    assert!(!camera.is_leaf());
    let fov = &camera.iter_children()[0];
    assert!(fov.is_leaf());
    assert_eq!(fov.leaf_contents(), Some("1.0"));
    assert_eq!(fov.leaf_data_or_panic(), ("Fov", "1.0"));
    let (t, i, ch) = scene.internal_data_or_panic();
    assert_eq!((t, i, ch.len()), ("Scene", Some("$s"), 3));
    assert_eq!(fov.iter_children().len(), 0);
    assert_eq!(scene.leaf_contents(), None);
}

#[test]
fn filters_keep_matching_children() {
    let tree = DataTree::from_events(&scene_events()).unwrap();
    let scene = &tree.iter_children()[0];

    let mut all = scene.iter_children_with_type("Output");
    assert_eq!(all.next().map(|t| t.byte_offset()), Some(12));
    assert_eq!(all.next().map(|t| t.byte_offset()), Some(60));
    assert!(all.next().is_none());

    let mut leaves = scene.iter_leaf_children_with_type("Output");
    assert_eq!(leaves.next(), Some(("Output", "out.png", 12)));
    assert_eq!(leaves.next(), Some(("Output", "second.png", 60)));
    assert_eq!(leaves.next(), None);

    let mut inner = scene.iter_internal_children_with_type("Camera");
    match inner.next() {
        Some((t, i, children, offset)) => {
            assert_eq!((t, i, children.len(), offset), ("Camera", None, 1, 30));
        }
        None => panic!("expected the camera"),
    }
    assert!(inner.next().is_none());
    assert!(scene.iter_leaf_children_with_type("Camera").next().is_none());
}

#[test]
fn from_events_errors() {
    let events = vec![leaf("Output", "x", 0), Ok(Event::Done)];
    assert_eq!(
        DataTree::from_events(&events),
        Err(ParseError::Other("Unexpected leaf value at root level."))
    );
    let events = vec![close(0)];
    assert_eq!(
        DataTree::from_events(&events),
        Err(ParseError::Other("Unexpected closing tag."))
    );
    let events = vec![open("Scene", None, 0), Ok(Event::Done)];
    assert_eq!(
        DataTree::from_events(&events),
        Err(ParseError::Other("Unexpected end of contents."))
    );
    let events = vec![open("Scene", None, 0), Err(())];
    assert_eq!(
        DataTree::from_events(&events),
        Err(ParseError::Other("Some error happened."))
    );
    let tree = DataTree::from_events(&vec![]).unwrap();
    assert_eq!(tree.iter_children().len(), 0);
}

#[test]
fn line_numbers_from_offsets() {
    let text = "Scene {\n  Output [x]\n}\n";
    assert_eq!(byte_offset_to_line_char(text, 0), 1);
    assert_eq!(byte_offset_to_line_char(text, 7), 1);
    assert_eq!(byte_offset_to_line_char(text, 8), 2);
    assert_eq!(byte_offset_to_line_char(text, 21), 3);
    assert_eq!(byte_offset_to_line_char(text, 100), 4);
    assert_eq!(byte_offset_to_line_char("ab", 100), 2);
    assert_eq!(byte_offset_to_line_char("", 0), 1);
}

#[test]
fn transform_format_error_message() {
    match make_transform_format_error(17) {
        PsyError::IncorrectLeafData(17, m) => assert_eq!(
            m,
            "Transform should be sixteen integers specified in the form '[# # # # # # # # # # # # # # # #]'."
        ),
        other => panic!("unexpected {:?}", other),
    }
}
