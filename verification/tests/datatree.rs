use psychopath::datatree::{token_iter, Token};

#[test]
fn token_iter_1() {
    let s = r#"
# This is a comment and should be skipped
MyThing $ident { # This is another comment
    MyProp [Some content]
}
        "#;

    let mut ti = token_iter(s);
    assert_eq!(ti.next(), Some(Token::TypeName("MyThing")));
    assert_eq!(ti.next(), Some(Token::Ident("$ident")));
    assert_eq!(ti.next(), Some(Token::OpenInner));
    assert_eq!(ti.next(), Some(Token::TypeName("MyProp")));
    assert_eq!(ti.next(), Some(Token::OpenLeaf));
    assert_eq!(ti.next(), Some(Token::LeafContents("Some content")));
    assert_eq!(ti.next(), Some(Token::CloseLeaf));
    assert_eq!(ti.next(), Some(Token::CloseInner));
    assert_eq!(ti.next(), None);
}

#[test]
fn token_iter_empty_leaf() {
    let mut ti = token_iter("A [] }\n");
    assert_eq!(ti.next(), Some(Token::TypeName("A")));
    assert_eq!(ti.next(), Some(Token::OpenLeaf));
    assert_eq!(ti.next(), Some(Token::LeafContents("")));
    assert_eq!(ti.next(), Some(Token::CloseLeaf));
    assert_eq!(ti.next(), Some(Token::CloseInner));
    assert_eq!(ti.next(), None);
}
