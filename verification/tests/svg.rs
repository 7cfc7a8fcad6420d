use asset_pipeline::svg::{parse_svg, SvgError};

#[test]
fn svg_with_size_parses() {
    let data = br#"<svg xmlns="http://www.w3.org/2000/svg" width="24" height="24"><rect width="24" height="24" fill="red"/></svg>"#;
    let tree = parse_svg(data).expect("valid SVG");
    assert_eq!(tree.size().width(), 24.0);
    assert_eq!(tree.size().height(), 24.0);
}

#[test]
fn svg_refuses_bytes_that_are_not_utf8() {
    assert!(matches!(parse_svg(&[0x3c, 0xff, 0xfe, 0x3e]), Err(SvgError::NotAnUtf8Str)));
}

#[test]
fn svg_refuses_text_that_is_not_xml() {
    assert!(matches!(parse_svg(b"<svg"), Err(SvgError::ParsingFailed)));
}

#[test]
fn svg_refuses_broken_gzip() {
    assert!(matches!(parse_svg(&[0x1f, 0x8b, 0x00]), Err(SvgError::MalformedGZip)));
}
