use lightpolars::svg::{inline_svg_to_img, reescrever_svg_inline};

const SVG: &str = r##"<svg width="20" height="10" xmlns="http://www.w3.org/2000/svg"><rect width="20" height="10" fill="#f00"/></svg>"##;

#[test]
fn svg_inline_vira_img_data_uri() {
    let saida = reescrever_svg_inline(&format!("<p>antes</p>{SVG}<p>depois</p>"));
    assert!(saida.starts_with("<p>antes</p><img "), "{saida}");
    assert!(saida.ends_with("<p>depois</p>"), "{saida}");
    assert!(saida.contains("src=\"data:image/svg+xml;base64,"), "{saida}");
}

#[test]
fn atributos_de_apresentacao_passam_para_o_img() {
    let entrada = r##"<svg class="logo" style="height:150px" width="20" height="10" fill="#f00"></svg>"##;
    let saida = reescrever_svg_inline(entrada);
    assert!(saida.contains(r#"class="logo""#), "{saida}");
    assert!(saida.contains(r#"style="height:150px""#), "{saida}");
    assert!(saida.contains(r#"width="20""#), "{saida}");
    assert!(!saida.contains("fill="), "fill é do SVG, não do img: {saida}");
}

#[test]
fn svg_aninhado_fecha_no_nivel_certo() {
    let entrada = r#"<svg width="10" height="10"><svg width="5" height="5"></svg></svg>FIM"#;
    let saida = reescrever_svg_inline(entrada);
    assert!(saida.ends_with("FIM"), "{saida}");
    assert_eq!(saida.matches("<img").count(), 1, "aninhado virou dois img: {saida}");
}

#[test]
fn svg_auto_fechado_vira_um_img() {
    let saida = reescrever_svg_inline(r#"<svg width="10" height="10"/>FIM"#);
    assert_eq!(saida.matches("<img").count(), 1, "{saida}");
    assert!(saida.ends_with("FIM"), "{saida}");
}

#[test]
fn texto_sem_svg_passa_intacto() {
    let entrada = "<p>svgnao</p><svgfoo>x</svgfoo>";
    assert_eq!(reescrever_svg_inline(entrada), entrada);
}

#[test]
fn svg_sem_fechamento_nao_perde_conteudo() {
    let entrada = "<p>a</p><svg width=\"10\"><rect/>";
    assert_eq!(reescrever_svg_inline(entrada), entrada);
}

#[test]
fn inline_svg_becomes_an_img_with_a_data_uri() {
    let out = inline_svg_to_img(&format!("<p>before</p>{SVG}<p>after</p>"));
    assert!(out.starts_with("<p>before</p><img "), "{out}");
    assert!(out.ends_with("<p>after</p>"), "{out}");
    assert!(out.contains("src=\"data:image/svg+xml;base64,"), "{out}");
}

#[test]
fn presentation_attributes_move_to_the_img() {
    let input = r##"<svg class="logo" style="height:150px" width="20" height="10" fill="#f00"></svg>"##;
    let out = inline_svg_to_img(input);
    assert!(out.contains(r#"class="logo""#), "{out}");
    assert!(out.contains(r#"style="height:150px""#), "{out}");
    assert!(out.contains(r#"width="20""#), "{out}");
    assert!(!out.contains("fill="), "fill belongs to the SVG, not the img: {out}");
}

#[test]
fn nested_svg_closes_at_the_right_level() {
    let input = r#"<svg width="10" height="10"><svg width="5" height="5"></svg></svg>END"#;
    let out = inline_svg_to_img(input);
    assert!(out.ends_with("END"), "{out}");
    assert_eq!(out.matches("<img").count(), 1, "nesting produced two imgs: {out}");
}

#[test]
fn a_self_closing_svg_becomes_one_img() {
    let out = inline_svg_to_img(r#"<svg width="10" height="10"/>END"#);
    assert_eq!(out.matches("<img").count(), 1, "{out}");
    assert!(out.ends_with("END"), "{out}");
}

#[test]
fn text_without_svg_passes_through_untouched() {
    let input = "<p>svgnot</p><svgfoo>x</svgfoo>";
    assert_eq!(inline_svg_to_img(input), input);
}

#[test]
fn unclosed_svg_does_not_lose_content() {
    let input = "<p>a</p><svg width=\"10\"><rect/>";
    assert_eq!(inline_svg_to_img(input), input);
}

#[test]
fn the_whole_block_travels_base64_encoded_in_the_data_uri() {
    // "<svg/>" in standard Base64 is "PHN2Zy8+".
    let out = inline_svg_to_img("a<svg/>b");
    assert_eq!(out, "a<img src=\"data:image/svg+xml;base64,PHN2Zy8+\" />b");
}

#[test]
fn quotes_in_a_forwarded_value_are_escaped_and_names_keep_their_case() {
    let out = inline_svg_to_img("<SVG ID='a\"b' Class=x viewBox=\"0 0 1 1\"></SVG>");
    assert!(out.starts_with("<img ID=\"a&quot;b\" Class=\"x\" src=\"data:image/svg+xml;base64,"), "{out}");
    assert!(!out.contains("viewBox"), "{out}");
}

#[test]
fn a_bare_attribute_is_forwarded_with_an_empty_value() {
    let out = inline_svg_to_img("<svg id></svg>");
    assert!(out.starts_with("<img id=\"\" src="), "{out}");
}

#[test]
fn two_blocks_become_two_imgs_and_the_text_between_stays() {
    let out = inline_svg_to_img("<svg></svg>|<svg\n/>");
    assert_eq!(out.matches("<img").count(), 2, "{out}");
    assert!(out.contains("\" />|<img"), "{out}");
}

#[test]
fn a_closing_tag_without_a_bracket_leaves_the_block_unterminated() {
    let input = "<svg><g></svg";
    assert_eq!(inline_svg_to_img(input), input);
}
