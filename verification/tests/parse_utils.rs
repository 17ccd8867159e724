use psychopath::parse::data_tree::Event;
use psychopath::parse::parse_utils::{
    check_subsection_counts, decimal_string, ensure_close, ensure_subsections, ws_i32, ws_u32,
    ws_usize, Range, SubsectionAction,
};
use psychopath::parse::psy::{PsyError, ReaderError};

#[test]
fn parse_utils_ws_u32_1() {
    assert_eq!(ws_u32("42"), Ok((&""[..], 42)));
    assert_eq!(ws_u32("     42"), Ok((&""[..], 42)));
    assert_eq!(ws_u32("42   "), Ok((&""[..], 42)));
    assert_eq!(ws_u32("     42"), Ok((&""[..], 42)));
    assert_eq!(ws_u32("     42   53"), Ok((&"53"[..], 42)));
}

#[test]
fn parse_utils_ws_usize_1() {
    assert_eq!(ws_usize("42"), Ok((&""[..], 42)));
    assert_eq!(ws_usize("     42"), Ok((&""[..], 42)));
    assert_eq!(ws_usize("42   "), Ok((&""[..], 42)));
    assert_eq!(ws_usize("     42"), Ok((&""[..], 42)));
    assert_eq!(ws_usize("     42   53"), Ok((&"53"[..], 42)));
}

#[test]
fn parse_utils_ws_i32_1() {
    assert_eq!(ws_i32("42"), Ok((&""[..], 42)));
    assert_eq!(ws_i32("     42"), Ok((&""[..], 42)));
    assert_eq!(ws_i32("42   "), Ok((&""[..], 42)));
    assert_eq!(ws_i32("     42"), Ok((&""[..], 42)));
    assert_eq!(ws_i32("     42   53"), Ok((&"53"[..], 42)));
}

#[test]
fn parse_utils_ws_i32_2() {
    assert_eq!(ws_i32("-42"), Ok((&""[..], -42)));
    assert_eq!(ws_i32("     -42"), Ok((&""[..], -42)));
    assert_eq!(ws_i32("-42   "), Ok((&""[..], -42)));
    assert_eq!(ws_i32("     -42"), Ok((&""[..], -42)));
    assert_eq!(ws_i32("     -42   53"), Ok((&"53"[..], -42)));
    assert_eq!(ws_i32("--42").is_err(), true);
}

#[test]
fn ws_numbers_overflow_is_an_error() {
    assert_eq!(ws_u32("4294967295"), Ok((&""[..], u32::MAX)));
    assert!(ws_u32("4294967296").is_err());
    assert_eq!(ws_i32("-2147483648 x"), Ok((&"x"[..], i32::MIN)));
    assert!(ws_i32("2147483648").is_err());
    assert!(ws_i32("+5").is_err());
    assert!(ws_u32("").is_err());
    assert_eq!(ws_u32("\t\r\n7\n"), Ok((&""[..], 7)));
}

#[test]
fn decimal_strings() {
    assert_eq!(decimal_string(0), "0");
    assert_eq!(decimal_string(7), "7");
    assert_eq!(decimal_string(42), "42");
    assert_eq!(decimal_string(1000), "1000");
    assert_eq!(decimal_string(usize::MAX), usize::MAX.to_string());
}

#[test]
fn range_queries() {
    assert!(Range::Full.contains(0));
    assert!(Range::From(3).contains(3));
    assert!(!Range::From(3).contains(2));
    assert!(Range::To(3).contains(2));
    assert!(!Range::To(3).contains(3));
    assert!(Range::Range(1, 3).contains(1));
    assert!(!Range::Range(1, 3).contains(3));
    assert!(Range::Range(1, 3).contains_upper(0));
    assert!(!Range::Range(1, 3).contains_upper(3));
    assert!(Range::From(9).contains_upper(1000));
    assert_eq!(Range::Full.lower(), 0);
    assert_eq!(Range::Range(2, 5).lower(), 2);
    assert_eq!(Range::To(5).upper(), 5);
    assert_eq!(Range::From(5).upper(), usize::MAX);
}

fn leaf(name: &str, offset: usize) -> Event {
    Event::Leaf {
        node_type: name.to_string(),
        contents: String::new(),
        byte_offset: offset,
    }
}

fn open(name: &str, offset: usize) -> Event {
    Event::InnerOpen {
        node_type: name.to_string(),
        ident: None,
        byte_offset: offset,
    }
}

#[test]
fn ensure_close_outcomes() {
    assert!(ensure_close(Ok(Event::InnerClose { byte_offset: 3 }), 9).is_ok());
    match ensure_close(Ok(open("Camera", 12)), 9) {
        Err(PsyError::ExpectedInternalNodeClose(12, m)) => {
            assert_eq!(m, "Expected the node to be closed, but instead found a 'Camera'.")
        }
        other => panic!("unexpected {:?}", other),
    }
    match ensure_close(Ok(leaf("Fov", 20)), 9) {
        Err(PsyError::ExpectedInternalNodeClose(20, m)) => {
            assert_eq!(m, "Expected the node to be closed, but instead found a 'Fov'.")
        }
        other => panic!("unexpected {:?}", other),
    }
    match ensure_close(Ok(Event::Done), 9) {
        Err(PsyError::UnknownError(9)) => {}
        other => panic!("unexpected {:?}", other),
    }
    match ensure_close(Err(ReaderError::UnexpectedEOF), 9) {
        Err(PsyError::ReaderError(ReaderError::UnexpectedEOF)) => {}
        other => panic!("unexpected {:?}", other),
    }
}

#[test]
fn subsections_counted_and_checked() {
    let subs: Vec<(&str, bool, Range)> = vec![
        ("Resolution", true, Range::Range(1, 2)),
        ("Camera", false, Range::From(1)),
        ("Seed", true, Range::To(2)),
    ];
    let mut counts = vec![0usize; 3];
    assert!(matches!(
        ensure_subsections(&subs, &mut counts, &leaf("Resolution", 5), 0),
        SubsectionAction::Handle
    ));
    assert!(matches!(
        ensure_subsections(&subs, &mut counts, &open("Camera", 30), 0),
        SubsectionAction::Handle
    ));
    assert!(matches!(
        ensure_subsections(&subs, &mut counts, &open("Camera", 60), 0),
        SubsectionAction::Handle
    ));
    assert_eq!(counts, vec![1, 2, 0]);
    // A leaf named like an internal subsection is not counted: it ends the loop.
    match ensure_subsections(&subs, &mut counts, &leaf("Camera", 90), 77) {
        SubsectionAction::Finish(Ok(())) => {}
        other => panic!("unexpected {:?}", other),
    }
    assert_eq!(counts, vec![1, 2, 0]);
}

#[test]
fn subsections_too_many() {
    let subs: Vec<(&str, bool, Range)> = vec![
        ("Resolution", true, Range::Range(1, 2)),
        ("Camera", false, Range::To(2)),
    ];
    let mut counts = vec![1usize, 0];
    match ensure_subsections(&subs, &mut counts, &leaf("Resolution", 44), 0) {
        SubsectionAction::Finish(Err(PsyError::WrongNodeCount(44, m))) => assert_eq!(
            m,
            "Expected at most 1 'Resolution' leaf nodes but found at least 2."
        ),
        other => panic!("unexpected {:?}", other),
    }
    let mut counts = vec![0usize, 1];
    match ensure_subsections(&subs, &mut counts, &open("Camera", 51), 0) {
        SubsectionAction::Finish(Err(PsyError::WrongNodeCount(51, m))) => assert_eq!(
            m,
            "Expected at most 1 internal 'Camera' node(s) but found at least 2."
        ),
        other => panic!("unexpected {:?}", other),
    }
}

#[test]
fn subsections_too_few() {
    let subs: Vec<(&str, bool, Range)> = vec![
        ("Resolution", true, Range::Range(1, 2)),
        ("Camera", false, Range::From(1)),
    ];
    let counts = vec![1usize, 0];
    match check_subsection_counts(&subs, &counts, 123) {
        Err(PsyError::WrongNodeCount(123, m)) => assert_eq!(
            m,
            "Expected at least 1 internal 'Camera' node(s) but only found 0."
        ),
        other => panic!("unexpected {:?}", other),
    }
    let mut counts = vec![0usize, 0];
    match ensure_subsections(&subs, &mut counts, &Event::InnerClose { byte_offset: 8 }, 321) {
        SubsectionAction::Finish(Err(PsyError::WrongNodeCount(321, m))) => assert_eq!(
            m,
            "Expected at least 1 'Resolution' leaf node(s) but only found 0."
        ),
        other => panic!("unexpected {:?}", other),
    }
    assert!(check_subsection_counts(&subs, &vec![1, 3], 0).is_ok());
}

#[test]
fn ranges_from_std_ranges() {
    assert_eq!(Range::from(3usize), Range::Range(3, 4));
    assert_eq!(Range::from(1usize..5), Range::Range(1, 5));
    assert_eq!(Range::from(usize::MAX), Range::Range(usize::MAX, 0));
    assert_eq!(Range::from(..), Range::Full);
}
