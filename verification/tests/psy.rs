use psychopath::parse::psy::{
    parse_output_path, parse_resolution, parse_samples_per_pixel, parse_seed, trim_white_space,
    PsyError, ReaderError,
};

const CONTENT: &str = "Scene {\n  Output [x]\n}\n";

#[test]
fn messages_name_the_line() {
    let e = PsyError::WrongNodeCount(8, "bad count".to_string());
    assert_eq!(e.message(CONTENT), "Line 2: bad count");
    let e = PsyError::UnknownError(0);
    assert_eq!(
        e.message(CONTENT),
        "Line 1: Unknown parse error.  If you get this message, please report it to the developers so they can improve the error messages."
    );
    let e = PsyError::ReaderError(ReaderError::UnexpectedEOF);
    assert_eq!(
        e.message(CONTENT),
        "Line 4: Unexpected end-of-stream, data tree incomplete."
    );
    let e = PsyError::ReaderError(ReaderError::ExpectedOpen(21));
    assert_eq!(e.message(CONTENT), "Line 3: Expected an opening brace.");
    let e = PsyError::ReaderError(ReaderError::IO("disk gone".to_string()));
    assert_eq!(e.message(CONTENT), "IO error while parsing scene: disk gone");
    let e = PsyError::ReaderError(ReaderError::UnexpectedIdent(9));
    assert_eq!(e.message(CONTENT), "Line 2: Encountered and unexpected ident.");
}

#[test]
fn reader_errors_convert() {
    match PsyError::from(ReaderError::ExpectedOpenOrIdent(3)) {
        PsyError::ReaderError(ReaderError::ExpectedOpenOrIdent(3)) => {}
        other => panic!("unexpected {:?}", other),
    }
}

#[test]
fn trimming() {
    assert_eq!(trim_white_space("  a b \t\n"), "a b");
    assert_eq!(trim_white_space("\u{3000}x\u{a0}"), "x");
    assert_eq!(trim_white_space(" \t "), "");
    assert_eq!(trim_white_space(""), "");
}

#[test]
fn output_paths() {
    assert_eq!(parse_output_path("  \"out.png\" ", 5).unwrap(), "out.png");
    assert_eq!(parse_output_path("\"\"", 5).unwrap(), "");
    match parse_output_path(" x ", 5) {
        Err(PsyError::IncorrectLeafData(5, m)) => assert_eq!(m, "File path format is incorrect."),
        other => panic!("unexpected {:?}", other),
    }
    match parse_output_path("out.png", 6) {
        Err(PsyError::IncorrectLeafData(6, m)) => {
            assert_eq!(m, "File paths must be surrounded by quotes.")
        }
        other => panic!("unexpected {:?}", other),
    }
}

#[test]
fn render_settings_leaves() {
    assert_eq!(parse_resolution(" 1920 1080 ", 3).unwrap(), (1920, 1080));
    match parse_resolution("1920", 3) {
        Err(PsyError::IncorrectLeafData(3, m)) => assert_eq!(
            m,
            "Resolution should be specified with two integers in the form '[width height]'."
        ),
        other => panic!("unexpected {:?}", other),
    }
    assert!(parse_resolution("1 2 3", 3).is_err());
    assert_eq!(parse_samples_per_pixel(" 16 ", 0).unwrap(), 16);
    match parse_samples_per_pixel("16 x", 4) {
        Err(PsyError::IncorrectLeafData(4, m)) => assert_eq!(
            m,
            "SamplesPerPixel should be an integer specified in the form '[samples]'."
        ),
        other => panic!("unexpected {:?}", other),
    }
    assert_eq!(parse_seed("7", 0).unwrap(), 7);
    match parse_seed("-7", 9) {
        Err(PsyError::IncorrectLeafData(9, m)) => assert_eq!(
            m,
            "Seed should be an integer specified in the form '[samples]'."
        ),
        other => panic!("unexpected {:?}", other),
    }
}

use psychopath::parse::data_tree::Event;
use psychopath::parse::psy::{output_info_step, render_settings_step, RenderSettings, SectionStep};

fn leaf(name: &str, contents: &str, offset: usize) -> Event {
    Event::Leaf {
        node_type: name.to_string(),
        contents: contents.to_string(),
        byte_offset: offset,
    }
}

#[test]
fn render_settings_are_read_step_by_step() {
    let mut counts = vec![0usize; 3];
    let mut s = RenderSettings { resolution: (0, 0), spp: 0, seed: 0 };
    assert!(matches!(
        render_settings_step(&mut counts, &mut s, &leaf("Resolution", " 640 480 ", 10), 0),
        SectionStep::Continue
    ));
    assert!(matches!(
        render_settings_step(&mut counts, &mut s, &leaf("SamplesPerPixel", "16", 20), 0),
        SectionStep::Continue
    ));
    assert!(matches!(
        render_settings_step(&mut counts, &mut s, &leaf("Seed", "3", 30), 0),
        SectionStep::Continue
    ));
    assert!(matches!(
        render_settings_step(&mut counts, &mut s, &leaf("Seed", "4", 40), 0),
        SectionStep::Continue
    ));
    assert_eq!(s, RenderSettings { resolution: (640, 480), spp: 16, seed: 4 });
    assert_eq!(counts, vec![1, 1, 2]);
    assert!(matches!(
        render_settings_step(&mut counts, &mut s, &Event::InnerClose { byte_offset: 50 }, 50),
        SectionStep::Close
    ));
    match render_settings_step(&mut counts, &mut s, &leaf("Resolution", "1 1", 60), 0) {
        SectionStep::Failed(PsyError::WrongNodeCount(60, m)) => assert_eq!(
            m,
            "Expected at most 1 'Resolution' leaf nodes but found at least 2."
        ),
        other => panic!("unexpected {:?}", other),
    }
}

#[test]
fn render_settings_errors() {
    let mut counts = vec![0usize; 3];
    let mut s = RenderSettings { resolution: (0, 0), spp: 0, seed: 0 };
    match render_settings_step(&mut counts, &mut s, &leaf("Resolution", "wide", 7), 0) {
        SectionStep::Failed(PsyError::IncorrectLeafData(7, m)) => assert_eq!(
            m,
            "Resolution should be specified with two integers in the form '[width height]'."
        ),
        other => panic!("unexpected {:?}", other),
    }
    let mut counts = vec![0usize; 3];
    match render_settings_step(&mut counts, &mut s, &leaf("Other", "x", 7), 99) {
        SectionStep::Failed(PsyError::WrongNodeCount(99, m)) => assert_eq!(
            m,
            "Expected at least 1 'Resolution' leaf node(s) but only found 0."
        ),
        other => panic!("unexpected {:?}", other),
    }
    assert_eq!(counts, vec![0, 0, 0]);
}

#[test]
fn output_info_is_read_step_by_step() {
    let mut counts = vec![0usize; 1];
    let mut path = String::new();
    assert!(matches!(
        output_info_step(&mut counts, &mut path, &leaf("Path", " \"out.png\" ", 4), 0),
        SectionStep::Continue
    ));
    assert_eq!(path, "out.png");
    assert!(matches!(
        output_info_step(&mut counts, &mut path, &Event::InnerClose { byte_offset: 9 }, 9),
        SectionStep::Close
    ));
    let mut counts = vec![0usize; 1];
    match output_info_step(&mut counts, &mut path, &Event::Done, 12) {
        SectionStep::Failed(PsyError::WrongNodeCount(12, m)) => assert_eq!(
            m,
            "Expected at least 1 'Path' leaf node(s) but only found 0."
        ),
        other => panic!("unexpected {:?}", other),
    }
}

use psychopath::parse::psy::{SceneReading, SceneSection, SceneStep};

fn open_node(name: &str, offset: usize) -> Event {
    Event::InnerOpen {
        node_type: name.to_string(),
        ident: None,
        byte_offset: offset,
    }
}

fn expect_parse(step: SceneStep, section: SceneSection) {
    match step {
        SceneStep::Parse(s) => assert_eq!(s, section),
        other => panic!("unexpected {:?}", other),
    }
}

#[test]
fn scene_sections_in_any_order_then_assembly() {
    let mut sr = SceneReading::new();
    expect_parse(sr.step(&open_node("Camera", 1), 0), SceneSection::Camera);
    expect_parse(sr.step(&open_node("Output", 2), 0), SceneSection::Output);
    expect_parse(sr.step(&open_node("World", 3), 0), SceneSection::World);
    expect_parse(sr.step(&open_node("RenderSettings", 4), 0), SceneSection::RenderSettings);
    expect_parse(sr.step(&open_node("Shaders", 5), 0), SceneSection::Shaders);
    expect_parse(sr.step(&open_node("Assembly", 6), 0), SceneSection::Assembly);
    assert!(matches!(
        sr.step(&Event::InnerClose { byte_offset: 7 }, 7),
        SceneStep::Close
    ));
}

#[test]
fn scene_missing_or_repeated_sections() {
    let mut sr = SceneReading::new();
    expect_parse(sr.step(&open_node("Output", 1), 0), SceneSection::Output);
    expect_parse(sr.step(&open_node("RenderSettings", 2), 0), SceneSection::RenderSettings);
    expect_parse(sr.step(&open_node("Shaders", 3), 0), SceneSection::Shaders);
    expect_parse(sr.step(&open_node("Camera", 4), 0), SceneSection::Camera);
    match sr.step(&open_node("Assembly", 5), 42) {
        SceneStep::Failed(PsyError::WrongNodeCount(42, m)) => assert_eq!(
            m,
            "Expected at least 1 internal 'World' node(s) but only found 0."
        ),
        other => panic!("unexpected {:?}", other),
    }

    let mut sr = SceneReading::new();
    expect_parse(sr.step(&open_node("Output", 1), 0), SceneSection::Output);
    match sr.step(&open_node("Output", 9), 0) {
        SceneStep::Failed(PsyError::WrongNodeCount(9, m)) => assert_eq!(
            m,
            "Expected at most 1 internal 'Output' node(s) but found at least 2."
        ),
        other => panic!("unexpected {:?}", other),
    }
}

#[test]
fn scene_needs_its_assembly() {
    let mut sr = SceneReading::new();
    for (i, name) in ["Output", "RenderSettings", "Shaders", "World", "Camera"].iter().enumerate() {
        assert!(matches!(sr.step(&open_node(name, i), 0), SceneStep::Parse(_)));
    }
    match sr.step(&Event::InnerClose { byte_offset: 50 }, 60) {
        SceneStep::Failed(PsyError::WrongNodeCount(60, m)) => assert_eq!(
            m,
            "Expected at least 1 internal 'Assembly' node(s) but only found 0."
        ),
        other => panic!("unexpected {:?}", other),
    }
}
