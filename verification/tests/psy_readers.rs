use psychopath::parse::data_tree::Event;
use psychopath::parse::psy::PsyError;
use psychopath::parse::psy_assembly::{AssemblyReading, AssemblyStep, ObjectKind};
use psychopath::parse::psy_surface_shader::{ShaderField, ShaderKind, ShaderReading, ShaderStep};

fn leaf(t: &str, c: &str, o: usize) -> Event {
    Event::Leaf { node_type: t.to_string(), contents: c.to_string(), byte_offset: o }
}

fn open(t: &str, ident: Option<&str>, o: usize) -> Event {
    Event::InnerOpen { node_type: t.to_string(), ident: ident.map(|s| s.to_string()), byte_offset: o }
}

fn close(o: usize) -> Event {
    Event::InnerClose { byte_offset: o }
}

fn missing_node(step: ShaderStep) -> Option<(usize, String)> {
    match step {
        ShaderStep::Failed(PsyError::MissingNode(o, m)) => Some((o, m)),
        _ => None,
    }
}

#[test]
fn lambert_shader() {
    let mut r = ShaderReading::new();
    assert!(matches!(r.step(&leaf("Type", "Lambert", 3), 10), ShaderStep::Continue));
    assert!(matches!(r.step(&leaf("Color", "rec709, [1 1 1]", 20), 30), ShaderStep::Read(ShaderField::Color)));
    assert!(!r.unfinished(&close(40)));
    assert!(matches!(r.step(&close(40), 41), ShaderStep::Done(ShaderKind::Lambert)));
    assert!(r.unfinished(&close(50)));
}

#[test]
fn emit_shader_without_color() {
    let mut r = ShaderReading::new();
    assert!(matches!(r.step(&leaf("Type", "Emit", 0), 5), ShaderStep::Continue));
    assert_eq!(
        missing_node(r.step(&close(9), 12)),
        Some((12, "Expected a Color field in Emit SurfaceShader.".to_string()))
    );
}

#[test]
fn unknown_shader_type() {
    let mut r = ShaderReading::new();
    assert!(r.unfinished(&leaf("Color", "x", 0)));
    assert_eq!(
        missing_node(r.step(&leaf("Type", "Phong", 7), 20)),
        Some((7, "Unknown SurfaceShader type.".to_string()))
    );
}

#[test]
fn ggx_shader_fields() {
    let mut r = ShaderReading::new();
    assert!(matches!(r.step(&leaf("Type", "GGX", 0), 5), ShaderStep::Continue));
    assert!(matches!(r.step(&leaf("Roughness", "0.1", 6), 9), ShaderStep::Read(ShaderField::Roughness)));
    assert!(matches!(r.step(&leaf("Color", "c", 10), 12), ShaderStep::Read(ShaderField::Color)));
    assert!(r.unfinished(&leaf("Thing", "c", 13)));
    assert!(matches!(r.step(&leaf("Fresnel", "0.5", 14), 17), ShaderStep::Read(ShaderField::Fresnel)));
    assert!(matches!(r.step(&close(18), 19), ShaderStep::Done(ShaderKind::GGX)));

    let mut r = ShaderReading::new();
    r.step(&leaf("Type", "GGX", 0), 5);
    r.step(&leaf("Color", "c", 6), 8);
    assert_eq!(
        missing_node(r.step(&close(9), 10)),
        Some((10, "GGX shader requires one of each field: Color, Roughness, Fresnel.".to_string()))
    );
}

#[test]
fn assembly_objects_and_instances() {
    let mut r = AssemblyReading::new();
    assert!(matches!(r.assembly_event_step(&open("Object", Some("tri"), 4), 10), AssemblyStep::Continue));
    assert!(matches!(r.assembly_event_step(&open("Instance", None, 11), 20), AssemblyStep::Continue));
    assert!(matches!(r.assembly_event_step(&leaf("Transform", "[...]", 21), 30), AssemblyStep::ReadTransform));
    assert!(matches!(r.assembly_event_step(&leaf("Transform", "[...]", 31), 40), AssemblyStep::ReadTransform));
    assert!(matches!(r.assembly_event_step(&close(41), 42), AssemblyStep::Continue));
    assert!(matches!(r.assembly_event_step(&open("Instance", None, 43), 44), AssemblyStep::Continue));
    assert!(matches!(r.assembly_event_step(&close(45), 46), AssemblyStep::Continue));
    assert!(matches!(
        r.assembly_event_step(&open("MeshSurface", None, 47), 48),
        AssemblyStep::Parse(ObjectKind::MeshSurface)
    ));
    match r.assembly_event_step(&close(90), 91) {
        AssemblyStep::AddObject { name, instances } => {
            assert_eq!(name, "tri");
            assert_eq!(instances, vec![(0, 2), (2, 2)]);
        }
        _ => panic!("expected the object"),
    }
    assert_eq!(r.transform_count, 2);
    assert!(r.unfinished(&leaf("Transform", "x", 92)));
    assert!(matches!(r.assembly_event_step(&close(93), 94), AssemblyStep::Done));
}

#[test]
fn assembly_errors() {
    let mut r = AssemblyReading::new();
    match r.assembly_event_step(&open("Object", None, 5), 6) {
        AssemblyStep::Failed(PsyError::ExpectedIdent(o, m)) => {
            assert_eq!(o, 5);
            assert_eq!(m, "'Object' types must have an identifier, but the identifier is missing.");
        }
        _ => panic!("expected a missing identifier"),
    }

    let mut r = AssemblyReading::new();
    r.assembly_event_step(&open("Object", Some("a"), 5), 6);
    match r.assembly_event_step(&close(12), 13) {
        AssemblyStep::Failed(PsyError::MissingNode(o, m)) => {
            assert_eq!(o, 12);
            assert_eq!(m, "Object contains no object data.");
        }
        _ => panic!("expected missing data"),
    }

    let mut r = AssemblyReading::new();
    r.assembly_event_step(&open("Object", Some("a"), 5), 6);
    match r.assembly_event_step(&open("Teapot", None, 12), 13) {
        AssemblyStep::Failed(PsyError::UnknownVariant(o, m)) => {
            assert_eq!(o, 5);
            assert_eq!(m, "Unknown data type for Object.");
        }
        _ => panic!("expected an unknown variant"),
    }
}
