use lightpolars::fonts::inline_font_faces;

/// "Oi" as a data URI, standing in for a font file: not sfnt, but the
/// pass-through branch does not care.
const FAKE: &str = "data:font/ttf;base64,T2k=";

#[test]
fn finds_a_face_in_an_inline_style() {
    let html = format!(
        "<style>@font-face {{ font-family: 'X'; src: url('{FAKE}') format('woff2'); }}</style>"
    );
    assert_eq!(inline_font_faces(&html), vec![b"Oi".to_vec()]);
}

#[test]
fn finds_several_faces() {
    let html = format!(
        "<style>@font-face{{src:url({FAKE})}} @FONT-FACE{{src:url(\"{FAKE}\")}}</style>"
    );
    assert_eq!(inline_font_faces(&html).len(), 2);
}

#[test]
fn ignores_a_face_without_a_data_uri() {
    let html = "<style>@font-face { src: url(https://fonts.example/a.woff2); }</style>";
    assert!(inline_font_faces(html).is_empty(), "a network font must not load");
}

#[test]
fn ignores_urls_outside_a_face() {
    let html = format!("<style>body {{ background: url({FAKE}); }}</style>");
    assert!(inline_font_faces(&html).is_empty());
}

#[test]
fn an_unterminated_block_does_not_loop_forever() {
    let html = format!("<style>@font-face {{ src: url({FAKE})");
    assert!(inline_font_faces(&html).is_empty());
}

#[test]
fn a_document_without_faces_yields_nothing() {
    assert!(inline_font_faces("<p>sem estilo</p>").is_empty());
}

#[test]
fn every_source_of_one_face_is_read_in_order() {
    let html = "@font-face{src:url( \" data:,A%42 \" ), URL(data:;base64,Qw==)}";
    assert_eq!(inline_font_faces(html), vec![b"AB".to_vec(), b"C".to_vec()]);
}

#[test]
fn a_broken_woff_is_dropped() {
    // "wOFF" followed by garbage: the WOFF unpacker refuses it.
    let html = "@font-face{src:url(data:;base64,d09GRgAAAAA=)}";
    assert!(inline_font_faces(html).is_empty());
}

#[test]
fn a_broken_woff_payload_is_dropped_instead_of_passed_through() {
    let html = "<style>@font-face{src:url(data:font/woff;base64,d09GRmp1bms=)} @font-face{src:url(data:font/woff2;base64,d09GMmp1bms=)}</style>";
    assert!(inline_font_faces(html).is_empty());
}
