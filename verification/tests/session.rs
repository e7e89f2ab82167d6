//! The DevTools session, command by command.

use lightpolars::session::{Answer, Command, LoadStage, Notice, Reply, Session, Step};
use base64::Engine as _;
use serde_json::Value;

/// A command as the transport parses it: id, method, sessionId and the
/// string-valued params.
fn parse(msg: &str) -> Command {
    let v: Value = serde_json::from_str(msg).expect("test input is JSON");
    let strings = v
        .get("params")
        .and_then(Value::as_object)
        .map(|o| {
            o.iter()
                .filter_map(|(k, x)| x.as_str().map(|s| (k.clone(), s.to_string())))
                .collect()
        })
        .unwrap_or_default();
    Command {
        id: v.get("id").and_then(Value::as_i64).unwrap_or(0),
        method: v.get("method").and_then(Value::as_str).unwrap_or_default().to_string(),
        session: v.get("sessionId").and_then(Value::as_str).map(str::to_string),
        strings,
    }
}

fn send_raw(s: &mut Session, msg: &str) -> Vec<Reply<String>> {
    let cmd = parse(msg);
    assert!(s.has_room(&cmd));
    match s.handle(&cmd) {
        Step::Done(out) => out,
        Step::Print => panic!("a print needs the renderer"),
        Step::Screenshot => panic!("a screenshot needs the renderer"),
    }
}

/// The JSON text of a command.
fn message(id: i64, session: Option<&str>, method: &str, params: &[(&str, &str)]) -> String {
    let mut p = serde_json::Map::new();
    for (k, v) in params {
        p.insert(k.to_string(), Value::String(v.to_string()));
    }
    let mut m = serde_json::Map::new();
    m.insert("id".to_string(), Value::from(id));
    if let Some(sid) = session {
        m.insert("sessionId".to_string(), Value::String(sid.to_string()));
    }
    m.insert("method".to_string(), Value::String(method.to_string()));
    m.insert("params".to_string(), Value::Object(p));
    Value::Object(m).to_string()
}

fn send(s: &mut Session, id: i64, method: &str, params: &[(&str, &str)]) -> Vec<Reply<String>> {
    send_raw(s, &message(id, None, method, params))
}

fn send_in(s: &mut Session, id: i64, session: &str, method: &str, params: &[(&str, &str)]) -> Vec<Reply<String>> {
    send_raw(s, &message(id, Some(session), method, params))
}

fn responses(out: &[Reply<String>]) -> Vec<&Reply<String>> {
    out.iter().filter(|r| !matches!(r, Reply::Event { .. })).collect()
}

fn events(out: &[Reply<String>]) -> Vec<&Notice<String>> {
    out.iter()
        .filter_map(|r| match r {
            Reply::Event { notice, .. } => Some(notice),
            _ => None,
        })
        .collect()
}

fn answer(r: &Reply<String>) -> &Answer<String> {
    match r {
        Reply::Response { answer, .. } => answer,
        other => panic!("not a response: {other:?}"),
    }
}

fn id_of(r: &Reply<String>) -> i64 {
    match r {
        Reply::Response { id, .. } | Reply::Failure { id, .. } => *id,
        Reply::Event { .. } => panic!("an event has no id"),
    }
}

fn session_of(r: &Reply<String>) -> Option<&str> {
    match r {
        Reply::Response { session, .. }
        | Reply::Failure { session, .. }
        | Reply::Event { session, .. } => session.as_deref(),
    }
}

fn attached(out: &[Reply<String>]) -> (String, String) {
    events(out)
        .into_iter()
        .find_map(|n| match n {
            Notice::AttachedToTarget { session_id, target_id } => {
                Some((session_id.clone(), target_id.clone()))
            }
            _ => None,
        })
        .expect("no attachedToTarget")
}

fn frame_tree(out: &[Reply<String>]) -> String {
    match answer(responses(out)[0]) {
        Answer::FrameTree(f) => f.clone(),
        other => panic!("not a frame tree: {other:?}"),
    }
}

// --- target lifecycle ---

#[test]
fn create_target_answers_with_a_target_id() {
    let mut s = Session::new();
    let out = send(&mut s, 1, "Target.createTarget", &[("url", "about:blank")]);
    let r = responses(&out);
    assert_eq!(r.len(), 1);
    assert_eq!(id_of(r[0]), 1);
    assert!(matches!(answer(r[0]), Answer::TargetId(_)));
}

#[test]
fn responde_target_create_com_um_target_id() {
    let mut s = Session::new();
    let out = send_raw(&mut s, r#"{"id":1,"method":"Target.createTarget","params":{"url":"about:blank"}}"#);
    let r = responses(&out);
    assert_eq!(r.len(), 1);
    assert_eq!(id_of(r[0]), 1);
    assert!(matches!(answer(r[0]), Answer::TargetId(_)));
}

#[test]
fn create_target_emits_attached_to_target_unprompted() {
    let mut s = Session::new();
    let out = send(&mut s, 1, "Target.createTarget", &[("url", "about:blank")]);
    let e = events(&out);
    assert!(e.iter().any(|n| matches!(n, Notice::TargetCreated(_))), "{e:?}");
    assert!(e.iter().any(|n| matches!(n, Notice::AttachedToTarget { .. })), "{e:?}");
}

#[test]
fn create_target_emite_attached_sozinho_para_o_auto_attach() {
    let mut s = Session::new();
    let out = send_raw(&mut s, r#"{"id":1,"method":"Target.createTarget","params":{"url":"about:blank"}}"#);
    let (sid, tid) = attached(&out);
    assert_eq!(sid, "session-1");
    assert_eq!(tid, "target-1");
}

#[test]
fn closing_a_target_emits_detached_then_destroyed() {
    let mut s = Session::new();
    send(&mut s, 1, "Target.createTarget", &[("url", "about:blank")]);
    let out = send(&mut s, 2, "Target.closeTarget", &[("targetId", "target-1")]);
    let names: Vec<&str> = events(&out)
        .iter()
        .map(|n| match n {
            Notice::DetachedFromTarget { .. } => "Target.detachedFromTarget",
            Notice::TargetDestroyed(_) => "Target.targetDestroyed",
            _ => "other",
        })
        .collect();
    assert_eq!(names, vec!["Target.detachedFromTarget", "Target.targetDestroyed"], "{names:?}");
}

#[test]
fn close_target_avisa_que_a_pagina_morreu() {
    let mut s = Session::new();
    send_raw(&mut s, r#"{"id":1,"method":"Target.createTarget","params":{"url":"about:blank"}}"#);
    let out = send_raw(&mut s, r#"{"id":2,"method":"Target.closeTarget","params":{"targetId":"target-1"}}"#);
    let e = events(&out);
    let detached = e
        .iter()
        .find_map(|n| match n {
            Notice::DetachedFromTarget { session_id, target_id } => Some((session_id, target_id)),
            _ => None,
        })
        .expect("faltou Target.detachedFromTarget");
    assert_eq!(detached.0, "session-1");
    assert_eq!(detached.1, "target-1");
    assert!(e.iter().any(|n| matches!(n, Notice::TargetDestroyed(_))), "faltou Target.targetDestroyed");
    assert_eq!(responses(&out).len(), 1);
}

#[test]
fn attach_to_target_emits_the_event_before_the_response() {
    let mut s = Session::new();
    send(&mut s, 1, "Target.createTarget", &[("url", "about:blank")]);
    let out = send(&mut s, 2, "Target.attachToTarget", &[("targetId", "target-1")]);
    assert!(matches!(out.first(), Some(Reply::Event { .. })), "event must come first");
    assert!(matches!(out.last(), Some(Reply::Response { .. })));
    let sid = match answer(responses(&out)[0]) {
        Answer::SessionId(s) => s.clone(),
        other => panic!("{other:?}"),
    };
    assert_eq!(sid, "session-1", "attach must find the existing page session");
}

#[test]
fn attach_emite_o_evento_antes_da_resposta() {
    let mut s = Session::new();
    send_raw(&mut s, r#"{"id":1,"method":"Target.createTarget","params":{"url":"about:blank"}}"#);
    let out = send_raw(
        &mut s,
        r#"{"id":2,"method":"Target.attachToTarget","params":{"targetId":"target-1","flatten":true}}"#,
    );
    assert!(matches!(out[0], Reply::Event { .. }), "evento deve vir antes da resposta");
    let (sid, tid) = attached(&out);
    assert_eq!(sid, "session-1");
    assert_eq!(tid, "target-1");
    assert!(matches!(answer(responses(&out)[0]), Answer::SessionId(s) if s == "session-1"));
}

#[test]
fn pages_opened_in_sequence_get_their_own_session_and_target() {
    let mut s = Session::new();
    let mut seen = Vec::new();
    for id in 1..=2 {
        let out = send(&mut s, id, "Target.createTarget", &[("url", "about:blank")]);
        seen.push(attached(&out));
    }
    assert_ne!(seen[0].0, seen[1].0, "session ids collided");
    assert_ne!(seen[0].1, seen[1].1, "target ids collided");
}

#[test]
fn paginas_em_sequencia_ganham_sessao_e_frame_proprios() {
    let mut s = Session::new();
    let p1 = send_raw(&mut s, r#"{"id":1,"method":"Target.createTarget","params":{"url":"about:blank"}}"#);
    let a1 = attached(&p1);
    send_raw(&mut s, r#"{"id":2,"method":"Target.closeTarget","params":{"targetId":"target-1"}}"#);
    let p2 = send_raw(&mut s, r#"{"id":3,"method":"Target.createTarget","params":{"url":"about:blank"}}"#);
    let a2 = attached(&p2);
    assert_ne!(a1.0, a2.0);
    assert_ne!(a1.1, a2.1);
}

#[test]
fn a_command_without_a_session_id_does_not_gain_the_field() {
    let mut s = Session::new();
    let out = send(&mut s, 1, "Page.getFrameTree", &[]);
    for r in &out {
        assert!(session_of(r).is_none(), "unexpected sessionId: {r:?}");
    }
}

#[test]
fn comando_sem_session_id_nao_ganha_o_campo() {
    let mut s = Session::new();
    let out = send_raw(&mut s, r#"{"id":4,"method":"Target.getBrowserContexts","params":{}}"#);
    let r = responses(&out);
    assert!(session_of(r[0]).is_none());
    assert!(matches!(answer(r[0]), Answer::BrowserContexts));
}

#[test]
fn the_command_session_id_comes_back_on_the_response_and_events() {
    let mut s = Session::new();
    let out = send_raw(
        &mut s,
        r#"{"id":7,"sessionId":"session-abc","method":"Page.setDocumentContent","params":{"frameId":"f","html":"<p>x</p>"}}"#,
    );
    for r in &out {
        assert_eq!(session_of(r), Some("session-abc"), "{r:?}");
    }
}

#[test]
fn session_id_do_comando_volta_na_resposta_e_nos_eventos() {
    let mut s = Session::new();
    let out = send_raw(
        &mut s,
        r#"{"id":3,"sessionId":"session-1","method":"Page.setDocumentContent","params":{"frameId":"f1","html":"<p>oi</p>"}}"#,
    );
    for r in responses(&out) {
        assert_eq!(session_of(r), Some("session-1"), "resposta sem sessionId não casa com o comando");
    }
    for r in out.iter().filter(|r| matches!(r, Reply::Event { .. })) {
        assert_eq!(session_of(r), Some("session-1"), "evento de sessão precisa do sessionId");
    }
}

#[test]
fn an_unknown_method_gets_an_empty_result_instead_of_silence() {
    let mut s = Session::new();
    let out = send(&mut s, 3, "Some.unknownMethod", &[]);
    let r = responses(&out);
    assert_eq!(r.len(), 1);
    assert_eq!(id_of(r[0]), 3);
    assert!(matches!(answer(r[0]), Answer::Empty));
}

#[test]
fn metodo_desconhecido_responde_em_vez_de_travar() {
    let mut s = Session::new();
    let out = send_raw(&mut s, r#"{"id":7,"method":"Inexistente.metodo","params":{}}"#);
    let r = responses(&out);
    assert_eq!(r.len(), 1, "todo comando precisa de exatamente uma resposta");
    assert_eq!(id_of(r[0]), 7);
}

// --- page content ---

fn stage_names(out: &[Reply<String>]) -> Vec<&'static str> {
    events(out)
        .iter()
        .filter_map(|n| match n {
            Notice::Lifecycle { stage, .. } => Some(match stage {
                LoadStage::Init => "init",
                LoadStage::Load => "load",
                LoadStage::DomContentLoaded => "DOMContentLoaded",
                LoadStage::NetworkIdle => "networkIdle",
            }),
            _ => None,
        })
        .collect()
}

#[test]
fn set_document_content_emits_the_full_lifecycle_before_the_response() {
    let mut s = Session::new();
    let out = send(&mut s, 1, "Page.setDocumentContent", &[("frameId", "f"), ("html", "<p>x</p>")]);
    assert_eq!(stage_names(&out), vec!["init", "load", "DOMContentLoaded", "networkIdle"]);
    assert!(matches!(out.last(), Some(Reply::Response { .. })));
}

#[test]
fn set_document_content_emite_init_load_e_network_idle() {
    let mut s = Session::new();
    send_raw(&mut s, r#"{"id":1,"method":"Page.enable","params":{}}"#);
    let out = send_raw(
        &mut s,
        r#"{"id":2,"method":"Page.setDocumentContent","params":{"frameId":"f1","html":"<p>oi</p>"}}"#,
    );
    let nomes = stage_names(&out);
    assert!(nomes.contains(&"init"), "faltou init: {nomes:?}");
    assert!(nomes.contains(&"load"), "faltou load: {nomes:?}");
    assert!(nomes.contains(&"networkIdle"), "faltou networkIdle: {nomes:?}");
    assert_eq!(responses(&out).len(), 1);
}

#[test]
fn ciclo_de_vida_sai_antes_da_resposta_de_set_document_content() {
    let mut s = Session::new();
    let out = send_raw(
        &mut s,
        r#"{"id":5,"method":"Page.setDocumentContent","params":{"frameId":"f1","html":"<p>oi</p>"}}"#,
    );
    let ultima = out.last().expect("sem saída");
    assert!(matches!(ultima, Reply::Response { .. }), "resposta deve fechar o lote");
}

#[test]
fn each_page_keeps_its_own_html_frame_and_session() {
    let mut s = Session::new();
    send(&mut s, 1, "Target.createTarget", &[("url", "about:blank")]);
    send(&mut s, 2, "Target.createTarget", &[("url", "about:blank")]);
    for (n, html) in [(1, "<p>um</p>"), (2, "<p>dois</p>")] {
        send_in(&mut s, 10 + n, &format!("session-{n}"), "Page.setDocumentContent", &[("frameId", "f"), ("html", html)]);
    }
    assert_eq!(s.html_for_session("session-1").as_deref(), Some("<p>um</p>"));
    assert_eq!(s.html_for_session("session-2").as_deref(), Some("<p>dois</p>"));
    let f1 = frame_tree(&send_in(&mut s, 21, "session-1", "Page.getFrameTree", &[]));
    let f2 = frame_tree(&send_in(&mut s, 22, "session-2", "Page.getFrameTree", &[]));
    assert_ne!(f1, f2, "frame ids collided");
}

#[test]
fn cada_pagina_guarda_o_proprio_html() {
    let mut s = Session::new();
    send_raw(&mut s, r#"{"id":1,"method":"Target.createTarget","params":{"url":"about:blank"}}"#);
    send_raw(&mut s, r#"{"id":2,"method":"Target.createTarget","params":{"url":"about:blank"}}"#);
    send_raw(&mut s, r#"{"id":3,"sessionId":"session-1","method":"Page.setDocumentContent","params":{"html":"<p>primeira</p>"}}"#);
    send_raw(&mut s, r#"{"id":4,"sessionId":"session-2","method":"Page.setDocumentContent","params":{"html":"<p>segunda</p>"}}"#);
    assert_eq!(s.html_for_session("session-1").as_deref(), Some("<p>primeira</p>"));
    assert_eq!(s.html_for_session("session-2").as_deref(), Some("<p>segunda</p>"));
}

#[test]
fn frame_tree_responde_o_frame_da_sessao_pedida() {
    let mut s = Session::new();
    send_raw(&mut s, r#"{"id":1,"method":"Target.createTarget","params":{"url":"about:blank"}}"#);
    send_raw(&mut s, r#"{"id":2,"method":"Target.createTarget","params":{"url":"about:blank"}}"#);
    let f1 = frame_tree(&send_raw(&mut s, r#"{"id":3,"sessionId":"session-1","method":"Page.getFrameTree","params":{}}"#));
    let f2 = frame_tree(&send_raw(&mut s, r#"{"id":4,"sessionId":"session-2","method":"Page.getFrameTree","params":{}}"#));
    assert_ne!(f1, f2, "frames de páginas diferentes não podem colidir");
}

#[test]
fn get_frame_tree_returns_a_real_frame_object() {
    let mut s = Session::new();
    let out = send(&mut s, 1, "Page.getFrameTree", &[]);
    assert_eq!(frame_tree(&out), "frame-1");
}

#[test]
fn get_frame_tree_devolve_um_frame_de_verdade() {
    let mut s = Session::new();
    let out = send_raw(&mut s, r#"{"id":1,"method":"Page.getFrameTree","params":{}}"#);
    assert_eq!(frame_tree(&out), "frame-1");
}

// --- streams ---

#[test]
fn reading_an_unknown_stream_handle_ends_instead_of_panicking() {
    let mut s = Session::new();
    let out = send(&mut s, 1, "IO.read", &[("handle", "nope")]);
    match answer(responses(&out)[0]) {
        Answer::Chunk { data, eof } => {
            assert!(*eof);
            assert_eq!(data, "");
        }
        other => panic!("{other:?}"),
    }
}

#[test]
fn io_read_de_handle_desconhecido_termina_em_vez_de_panicar() {
    let mut s = Session::new();
    let out = send_raw(&mut s, r#"{"id":1,"method":"IO.read","params":{"handle":"nao-existe"}}"#);
    assert!(matches!(answer(responses(&out)[0]), Answer::Chunk { eof: true, .. }));
}

#[test]
fn a_streamed_print_is_drained_chunk_by_chunk_then_closed() {
    let mut s = Session::new();
    let cmd = parse(r#"{"id":2,"method":"Page.printToPDF","params":{"transferMode":"ReturnAsStream"}}"#);
    assert!(matches!(s.handle(&cmd), Step::Print));
    let pdf: Vec<u8> = (0..70_000u32).map(|i| (i % 251) as u8).collect();
    let out = s.finish_print(&cmd, pdf.clone());
    let handle = match answer(&out[0]) {
        Answer::Stream(h) => h.clone(),
        other => panic!("{other:?}"),
    };
    assert_eq!(handle, "stream-1");
    let mut bytes = Vec::new();
    let mut reads = 0;
    loop {
        let r = send(&mut s, 3, "IO.read", &[("handle", &handle)]);
        let (data, eof) = match answer(&r[0]) {
            Answer::Chunk { data, eof } => (data.clone(), *eof),
            other => panic!("{other:?}"),
        };
        bytes.extend(base64::engine::general_purpose::STANDARD.decode(data).unwrap());
        reads += 1;
        if eof {
            break;
        }
    }
    assert_eq!(reads, 2);
    assert_eq!(bytes, pdf);
    send(&mut s, 4, "IO.close", &[("handle", &handle)]);
    let after = send(&mut s, 5, "IO.read", &[("handle", &handle)]);
    assert!(matches!(answer(&after[0]), Answer::Chunk { eof: true, .. }));
}

#[test]
fn a_print_without_a_stream_answers_with_the_whole_pdf_in_base64() {
    let mut s = Session::new();
    let cmd = parse(r#"{"id":1,"method":"Page.printToPDF","params":{}}"#);
    assert!(matches!(s.handle(&cmd), Step::Print));
    assert!(s.has_page("session-implicita"), "printing opens the implicit page");
    let out = s.finish_print(&cmd, b"%PDF-1.7".to_vec());
    assert_eq!(out.len(), 1);
    assert!(matches!(answer(&out[0]), Answer::Data(d) if d == "JVBERi0xLjc="));
}

// --- screenshots ---

#[test]
fn an_unsupported_format_errors_instead_of_returning_a_disguised_png() {
    let mut s = Session::new();
    send(&mut s, 1, "Page.setDocumentContent", &[("frameId", "f"), ("html", "<p>oi</p>")]);
    let out = send(&mut s, 9, "Page.captureScreenshot", &[("format", "webp")]);
    assert_eq!(out.len(), 1);
    match &out[0] {
        Reply::Failure { id, message, .. } => {
            assert_eq!(*id, 9);
            assert!(message.contains("webp"), "the message should name the format: {message}");
            assert_eq!(message, "captureScreenshot: format 'webp' is not supported (use png or jpeg)");
        }
        other => panic!("should not answer with success: {other:?}"),
    }
}

#[test]
fn supported_formats_go_to_the_renderer_in_any_case() {
    let mut s = Session::new();
    for format in ["png", "JPEG", "jpg"] {
        let msg = message(1, None, "Page.captureScreenshot", &[("format", format)]);
        assert!(matches!(s.handle(&parse(&msg)), Step::Screenshot), "{format}");
    }
    let none = parse(r#"{"id":2,"method":"Page.captureScreenshot","params":{}}"#);
    assert!(matches!(s.handle(&none), Step::Screenshot));
}

#[test]
fn a_screenshot_with_no_image_is_an_error() {
    let s = Session::new();
    let cmd = parse(r#"{"id":4,"sessionId":"x","method":"Page.captureScreenshot","params":{}}"#);
    let out = s.finish_screenshot(&cmd, None);
    assert!(matches!(&out[0], Reply::Failure { id: 4, message, .. } if message == "captureScreenshot: invalid geometry for the image"));
    let ok = s.finish_screenshot(&cmd, Some(b"Oi".to_vec()));
    assert!(matches!(answer(&ok[0]), Answer::Data(d) if d == "T2k="));
}

#[test]
fn a_viewport_override_is_answered_with_an_empty_result_in_its_session() {
    let mut s = Session::new();
    for method in ["Emulation.setDeviceMetricsOverride", "Emulation.clearDeviceMetricsOverride"] {
        let cmd = parse(&message(7, Some("session-1"), method, &[]));
        assert!(matches!(s.handle(&cmd), Step::Screenshot), "{method}");
        let out = s.finish_viewport(&cmd);
        assert_eq!(out.len(), 1);
        assert!(
            matches!(&out[0], Reply::Response { id: 7, session: Some(sid), answer: Answer::Empty } if sid == "session-1"),
            "{method}"
        );
    }
}

// --- runtime stubs ---

#[test]
fn runtime_enable_creates_a_main_world_context() {
    let mut s = Session::new();
    let out = send(&mut s, 1, "Runtime.enable", &[]);
    match events(&out)[0] {
        Notice::ContextCreated { main_world, .. } => assert!(*main_world),
        other => panic!("{other:?}"),
    }
}

#[test]
fn runtime_enable_publica_o_contexto_do_mundo_principal() {
    let mut s = Session::new();
    let out = send_raw(&mut s, r#"{"id":1,"method":"Runtime.enable","params":{}}"#);
    match events(&out)[0] {
        Notice::ContextCreated { main_world, frame_id, .. } => {
            assert!(*main_world);
            assert_eq!(frame_id, "frame-1");
        }
        other => panic!("{other:?}"),
    }
}

#[test]
fn an_isolated_world_gets_its_own_context_id() {
    let mut s = Session::new();
    send(&mut s, 1, "Runtime.enable", &[]);
    let out = send(&mut s, 2, "Page.createIsolatedWorld", &[("worldName", "util")]);
    match events(&out)[0] {
        Notice::ContextCreated { main_world, name, .. } => {
            assert!(!*main_world);
            assert_eq!(name, "util");
        }
        other => panic!("{other:?}"),
    }
    assert!(matches!(answer(responses(&out)[0]), Answer::ExecutionContextId(2)));
}

#[test]
fn isolated_world_publica_contexto_com_o_nome_pedido() {
    let mut s = Session::new();
    let out = send_raw(
        &mut s,
        r#"{"id":1,"method":"Page.createIsolatedWorld","params":{"frameId":"frame-1","worldName":"__puppeteer_utility_world__x"}}"#,
    );
    let ctx = match events(&out)[0] {
        Notice::ContextCreated { main_world, name, id, .. } => {
            assert_eq!(name, "__puppeteer_utility_world__x");
            assert!(!*main_world);
            *id
        }
        other => panic!("{other:?}"),
    };
    assert!(matches!(answer(responses(&out)[0]), Answer::ExecutionContextId(n) if *n == ctx));
}

#[test]
fn evaluate_always_answers_undefined() {
    let mut s = Session::new();
    for method in ["Runtime.evaluate", "Runtime.callFunctionOn"] {
        let out = send(&mut s, 1, method, &[]);
        assert!(matches!(answer(responses(&out)[0]), Answer::Undefined), "{method}");
    }
}

#[test]
fn evaluate_devolve_undefined_por_nao_haver_motor_de_js() {
    let mut s = Session::new();
    let out = send_raw(
        &mut s,
        r#"{"id":1,"method":"Runtime.callFunctionOn","params":{"functionDeclaration":"() => document.fonts.ready"}}"#,
    );
    assert!(matches!(answer(responses(&out)[0]), Answer::Undefined));
}

#[test]
fn browser_version_and_target_info_have_fixed_answers() {
    let mut s = Session::new();
    assert!(matches!(answer(&send(&mut s, 1, "Browser.getVersion", &[])[0]), Answer::Version));
    assert!(matches!(answer(&send(&mut s, 2, "Target.getTargetInfo", &[])[0]), Answer::TargetInfo(t) if t == "target-1"));
    send(&mut s, 3, "Target.createTarget", &[]);
    send(&mut s, 4, "Target.createTarget", &[]);
    assert!(matches!(answer(&send(&mut s, 5, "Target.getTargetInfo", &[])[0]), Answer::TargetInfo(t) if t == "target-2"));
}
