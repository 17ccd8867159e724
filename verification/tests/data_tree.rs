use psychopath::data_tree::{next_token, skip_ws_and_comments, DataTree, Token};

#[test]
fn test_tokenize_1() {
    let input = "Thing";

    assert_eq!(next_token(input), (Token::Type("Thing"), ""));
}

#[test]
fn test_tokenize_2() {
    let input = "  \n# gdfgdf gfdg dggdf\\sg dfgsd \n   Thing";

    assert_eq!(next_token(input), (Token::Type("Thing"), ""));
}

#[test]
fn test_tokenize_3() {
    let input1 = " Thing { }";
    let (token1, input2) = next_token(input1);
    let (token2, input3) = next_token(input2);
    let (token3, input4) = next_token(input3);

    assert_eq!((token1, input2), (Token::Type("Thing"), " { }"));
    assert_eq!((token2, input3), (Token::OpenInner, " }"));
    assert_eq!((token3, input4), (Token::CloseInner, ""));
}

#[test]
fn test_tokenize_4() {
    let input = " $hi_there ";

    assert_eq!(next_token(input), (Token::Name("$hi_there"), " "));
}

#[test]
fn test_tokenize_5() {
    let input = " $hi\\ t\\#he\\[re ";

    assert_eq!(next_token(input), (Token::Name("$hi\\ t\\#he\\[re"), " "));
}

#[test]
fn test_tokenize_6() {
    let input1 = " $hi the[re";
    let (token1, input2) = next_token(input1);
    let (token2, input3) = next_token(input2);
    let (token3, input4) = next_token(input3);
    let (token4, input5) = next_token(input4);

    assert_eq!((token1, input2), (Token::Name("$hi"), " the[re"));
    assert_eq!((token2, input3), (Token::Type("the"), "[re"));
    assert_eq!((token3, input4), (Token::OpenLeaf, "re"));
    assert_eq!((token4, input5), (Token::Type("re"), ""));
}

#[test]
fn test_tokenize_7() {
    let input1 = "Thing $yar { # A comment\n\tThing2 []\n}";
    let (token1, input2) = next_token(input1);
    let (token2, input3) = next_token(input2);
    let (token3, input4) = next_token(input3);
    let (token4, input5) = next_token(input4);
    let (token5, input6) = next_token(input5);
    let (token6, input7) = next_token(input6);

    assert_eq!(
        (token1, input2),
        (Token::Type("Thing"), " $yar { # A comment\n\tThing2 []\n}")
    );
    assert_eq!(
        (token2, input3),
        (Token::Name("$yar"), " { # A comment\n\tThing2 []\n}")
    );
    assert_eq!(
        (token3, input4),
        (Token::OpenInner, " # A comment\n\tThing2 []\n}")
    );
    assert_eq!((token4, input5), (Token::Type("Thing2"), " []\n}"));
    assert_eq!((token5, input6), (Token::OpenLeaf, "]\n}"));
    assert_eq!((token6, input7), (Token::CloseLeaf, "\n}"));
}

#[test]
fn tokenize_end_and_unknown() {
    assert_eq!(next_token("   # only a comment"), (Token::End, ""));
    assert_eq!(next_token(""), (Token::End, ""));
    assert_eq!(next_token("]x"), (Token::CloseLeaf, "x"));
}

#[test]
fn skipping_is_idempotent() {
    let text = "  # note\n\t  # more\n  Thing {}";
    let once = skip_ws_and_comments(text);
    assert_eq!(once, "Thing {}");
    assert_eq!(skip_ws_and_comments(once), once);
}

#[test]
fn from_str_builds_nested_tree() {
    let text = "Scene $s { Output [out.png] Camera $c { Fov [1.0] } Empty { } }";
    let trees = DataTree::from_str(text).unwrap();
    assert_eq!(trees.len(), 1);
    match &trees[0] {
        DataTree::Internal { type_, name, children } => {
            assert_eq!(*type_, "Scene");
            assert_eq!(*name, Some("$s"));
            assert_eq!(children.len(), 3);
            match &children[0] {
                DataTree::Leaf { type_, contents } => {
                    assert_eq!(*type_, "Output");
                    assert_eq!(*contents, "out.png");
                }
                _ => panic!("expected a leaf"),
            }
            match &children[1] {
                DataTree::Internal { type_, name, children } => {
                    assert_eq!(*type_, "Camera");
                    assert_eq!(*name, Some("$c"));
                    assert_eq!(children.len(), 1);
                }
                _ => panic!("expected an internal node"),
            }
            match &children[2] {
                DataTree::Internal { type_, name, children } => {
                    assert_eq!(*type_, "Empty");
                    assert_eq!(*name, None);
                    assert_eq!(children.len(), 0);
                }
                _ => panic!("expected an internal node"),
            }
        }
        _ => panic!("expected an internal node"),
    }
}

#[test]
fn from_str_accepts_leaf_at_root() {
    let trees = DataTree::from_str("Output [x] # done\n").unwrap();
    assert_eq!(trees.len(), 1);
}

#[test]
fn from_str_rejects_unclosed_node() {
    assert!(DataTree::from_str("Scene $s { Output [x]").is_none());
    assert!(DataTree::from_str("Scene $s { Output [x] } }").is_none());
}

#[test]
fn unnamed_node_closes_only_when_empty() {
    // An unnamed internal node is closed right after its opening brace.
    assert!(DataTree::from_str("Camera { Fov [1.0] }").is_none());
    assert!(DataTree::from_str("Camera { }").is_some());
}
