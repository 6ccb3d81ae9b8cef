use simpleml::sml::{self, Element, Node};
use simpleml::{parse, parse_text, reliabletext, Error};

#[test]
fn test() {
    let bytes = "\u{feff}Root\nEnd".as_bytes();
    let elt = parse(bytes).unwrap();
    assert_eq!(
        elt,
        sml::Element {
            title: "Root".to_string(),
            children: vec![]
        }
    )
}

#[test]
fn lib_test1() {
    let bytes = "\u{feff}Root\nx y -#Comment\nEnd".as_bytes();
    let elt = parse(bytes).unwrap();
    assert_eq!(
        elt,
        sml::Element {
            title: "Root".to_string(),
            children: vec![Node::Attr(
                "x".to_string(),
                vec![Some("y".to_string()), None]
            )]
        }
    )
}

#[test]
fn game_cfg_example() {
    let bytes = "\u{feff}Configuration
        Video
          Resolution 1280 720
          RefreshRate 60
          Fullscreen true
        End
        Audio
          Volume 100
          Music 80
        End
        Player
          Name \"Hero 123\"
        End
      End"
    .as_bytes();
    let elt = parse(bytes).unwrap();
    assert_eq!(
        elt,
        Element {
            title: "Configuration".to_string(),
            children: vec![
                Node::Elt(Element {
                    title: "Video".to_string(),
                    children: vec![
                        Node::Attr(
                            "Resolution".to_string(),
                            vec![Some("1280".to_string()), Some("720".to_string())]
                        ),
                        Node::Attr("RefreshRate".to_string(), vec![Some("60".to_string())]),
                        Node::Attr("Fullscreen".to_string(), vec![Some("true".to_string())])
                    ]
                }),
                Node::Elt(Element {
                    title: "Audio".to_string(),
                    children: vec![
                        Node::Attr("Volume".to_string(), vec![Some("100".to_string())]),
                        Node::Attr("Music".to_string(), vec![Some("80".to_string())])
                    ]
                }),
                Node::Elt(Element {
                    title: "Player".to_string(),
                    children: vec![Node::Attr(
                        "Name".to_string(),
                        vec![Some("Hero 123".to_string())]
                    )]
                })
            ]
        }
    )
}

#[test]
fn text_with_a_root_only() {
    let elt = parse_text("Root\nEnd").unwrap();
    assert_eq!(elt, Element { title: "Root".to_string(), children: vec![] });
}

#[test]
fn text_in_utf16() {
    let bytes = [
        0xfe, 0xff, 0x00, 0x52, 0x00, 0x0a, 0x00, 0x78, 0x00, 0x20, 0x00, 0x2d, 0x00, 0x0a, 0x00,
        0x65, 0x00, 0x6e, 0x00, 0x64,
    ];
    let elt = parse(&bytes).unwrap();
    assert_eq!(
        elt,
        Element {
            title: "R".to_string(),
            children: vec![Node::Attr("x".to_string(), vec![None])],
        }
    );
}

#[test]
fn text_layer_error() {
    assert!(matches!(
        parse("Root\nEnd".as_bytes()),
        Err(Error::ReliableTextError(reliabletext::Error::BadBOM))
    ));
    assert!(matches!(
        parse(&[0xfe, 0xff, 0x00]),
        Err(Error::ReliableTextError(reliabletext::Error::BadLength))
    ));
}

#[test]
fn row_error_has_line_and_offset() {
    assert!(matches!(parse_text("Root\nx \"y\nEnd"), Err(Error::WsvError(1, 4))));
    assert!(matches!(parse_text("a\"\nEnd"), Err(Error::WsvError(0, 1))));
}

#[test]
fn row_error_behind_the_root_still_counts() {
    assert!(matches!(parse_text("Root\nEnd\n\n\"open"), Err(Error::WsvError(3, 5))));
}

#[test]
fn structural_error_has_its_line() {
    assert!(matches!(parse_text("Root\n- x\nEnd"), Err(Error::SmlError(1, sml::Error::NullAttribute))));
    assert!(matches!(parse_text("\n-\nEnd"), Err(Error::SmlError(1, sml::Error::NullTitle))));
    assert!(matches!(parse_text("# nothing yet\nEnd"), Err(Error::SmlError(1, sml::Error::BadRoot))));
    assert!(matches!(parse_text("a b"), Err(Error::SmlError(0, sml::Error::BadRoot))));
}

#[test]
fn missing_end_is_reported_at_line_zero() {
    assert!(matches!(parse_text("Root"), Err(Error::SmlError(0, sml::Error::MissingEnd))));
    assert!(matches!(parse_text("Root\nChild\nEnd\n"), Err(Error::SmlError(0, sml::Error::MissingEnd))));
    assert!(matches!(parse_text(""), Err(Error::SmlError(0, sml::Error::MissingEnd))));
}

#[test]
fn rows_behind_the_root() {
    assert!(matches!(
        parse_text("Root\nEnd\nOther\nEnd"),
        Err(Error::SmlError(2, sml::Error::TooManyRoots))
    ));
    assert!(matches!(parse_text("Root\nEnd\nEnd"), Err(Error::SmlError(2, _))));
    let elt = parse_text("Root\nEnd\n\n  # done\n").unwrap();
    assert_eq!(elt, Element { title: "Root".to_string(), children: vec![] });
}

#[test]
fn an_error_comes_before_a_later_one() {
    assert!(matches!(parse_text("-\na\"b"), Err(Error::SmlError(0, sml::Error::NullTitle))));
    assert!(matches!(parse_text("a\"b\n-"), Err(Error::WsvError(0, 1))));
}
