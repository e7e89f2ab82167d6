//! The DevTools session: which pages are open and what each holds, and the
//! replies every command gets, independent of the transport.
//!
//! A command arrives already parsed into a [`Command`]; the session answers
//! with [`Reply`] values, which the transport writes out as JSON. Drawing a
//! page (`Page.printToPDF`, `Page.captureScreenshot` and the viewport
//! commands around it) is not done here: [`Session::handle`] prepares the
//! page and hands back [`Step::Print`] or [`Step::Screenshot`], and the
//! caller, once it has the bytes, lets [`Session::finish_print`] or
//! [`Session::finish_screenshot`] decide the reply.

use vstd::prelude::*;
use crate::codec::{base64_encode, base64_standard_encode};
use crate::lifecycle::{decimal, lemma_decimal_digits, lemma_decimal_injective, push_decimal};
use crate::registry::Registry;
use crate::streams::{chunk_end, handle_text, handles_numbered, StoreView, StreamStore, StreamView};
use crate::text::{ascii_lower, chars_of, lower_seq, push_char};

verus! {

/// One command written out for the transport.
#[derive(Debug, PartialEq)]
pub enum Output {
    Response(String),
    Event(String),
}

/// One inbound command, as far as the session reads it.
pub struct Command {
    pub id: i64,
    pub method: String,
    /// Flatten mode: a command from an attached session carries its
    /// `sessionId`, and every reply to it must carry the same one.
    pub session: Option<String>,
    /// The command's parameters whose value is a string, by name.
    pub strings: Vec<(String, String)>,
}

/// An optional string, as the contracts see it.
pub open spec fn opt_view(o: Option<String>) -> Option<Seq<char>> {
    match o {
        Some(s) => Some(s@),
        None => None,
    }
}

/// The string parameter named `key`: the first entry with that name.
pub open spec fn param(strings: Seq<(String, String)>, key: Seq<char>) -> Option<Seq<char>>
    decreases strings.len(),
{
    if strings.len() == 0 {
        None
    } else if strings[0].0@ == key {
        Some(strings[0].1@)
    } else {
        param(strings.drop_first(), key)
    }
}

/// `o`, or `d` when it is absent.
pub open spec fn or_else(o: Option<Seq<char>>, d: Seq<char>) -> Seq<char> {
    match o {
        Some(s) => s,
        None => d,
    }
}

/// A copy of an optional string.
fn copy_opt(o: &Option<String>) -> (r: Option<String>)
    ensures
        opt_view(r) == opt_view(*o),
{
    match o {
        Some(s) => Some(s.clone()),
        None => None,
    }
}

/// A string holding `s`.
fn text(s: &str) -> (r: String)
    ensures
        r@ == s@,
{
    <String as vstd::string::StringExecFns>::from_str(s)
}

/// Whether a string holds exactly the characters of `lit`.
fn is(s: &String, lit: &str) -> (r: bool)
    ensures
        r == (s@ == lit@),
{
    *s == text(lit)
}

impl Command {
    /// The string parameter named `key`, if the command has one.
    pub fn string(&self, key: &str) -> (r: Option<&str>)
        ensures
            opt_view_str(r) == param(self.strings@, key@),
    {
        let want = text(key);
        let mut i: usize = 0;
        assert(self.strings@.subrange(0, self.strings@.len() as int) =~= self.strings@);
        while i < self.strings.len()
            invariant
                want@ == key@,
                i <= self.strings@.len(),
                param(self.strings@, key@) == param(
                    self.strings@.subrange(i as int, self.strings@.len() as int),
                    key@,
                ),
            decreases self.strings.len() - i,
        {
            let ghost rest = self.strings@.subrange(i as int, self.strings@.len() as int);
            assert(rest[0] == self.strings@[i as int]);
            if self.strings[i].0 == want {
                return Some(self.strings[i].1.as_str());
            }
            assert(rest.drop_first() =~= self.strings@.subrange(i + 1, self.strings@.len() as int));
            i = i + 1;
        }
        None
    }

    /// The string parameter named `key` as an owned string, or the empty
    /// string.
    fn string_or_empty(&self, key: &str) -> (r: String)
        ensures
            r@ == or_else(param(self.strings@, key@), Seq::empty()),
    {
        match self.string(key) {
            Some(v) => text(v),
            None => String::new(),
        }
    }

}

/// An optional string slice, as the contracts see it.
pub open spec fn opt_view_str(o: Option<&str>) -> Option<Seq<char>> {
    match o {
        Some(s) => Some(s@),
        None => None,
    }
}

/// The stages of `Page.lifecycleEvent`, in the order a load goes through
/// them.
#[derive(Debug, Clone, Copy, PartialEq, Eq, Structural)]
pub enum LoadStage {
    Init,
    Load,
    DomContentLoaded,
    NetworkIdle,
}

/// The `result` of a response. `S` is `String` in replies and the
/// character sequence in contracts.
#[derive(Debug)]
pub enum Answer<S> {
    /// `{}`.
    Empty,
    /// `Browser.getVersion`: the fixed product description.
    Version,
    /// `{"browserContextIds": []}`.
    BrowserContexts,
    /// `{"targetId": ..}`.
    TargetId(S),
    /// `{"sessionId": ..}`.
    SessionId(S),
    /// `{"targetInfo": ..}` for the target.
    TargetInfo(S),
    /// `{"success": true}`.
    Success,
    /// The frame tree of one frame with no children.
    FrameTree(S),
    /// A history holding only `about:blank`.
    NavigationHistory,
    /// `{"executionContextId": ..}`.
    ExecutionContextId(i64),
    /// `{"identifier": "1"}`.
    ScriptIdentifier,
    /// An evaluation result of type `undefined`.
    Undefined,
    /// `{"stream": ..}`: the handle to drain with `IO.read`.
    Stream(S),
    /// `{"data": ..}`: Base64 bytes.
    Data(S),
    /// One `IO.read`: a Base64 chunk and whether the stream ended.
    Chunk { data: S, eof: bool },
}

/// The event a reply announces.
#[derive(Debug)]
pub enum Notice<S> {
    /// `Target.targetCreated`.
    TargetCreated(S),
    /// `Target.attachedToTarget`.
    AttachedToTarget { session_id: S, target_id: S },
    /// `Target.detachedFromTarget`.
    DetachedFromTarget { session_id: S, target_id: S },
    /// `Target.targetDestroyed`.
    TargetDestroyed(S),
    /// `Page.lifecycleEvent`.
    Lifecycle { frame_id: S, stage: LoadStage },
    /// `Runtime.executionContextCreated`.
    ContextCreated { frame_id: S, id: i64, name: S, main_world: bool },
}

/// One message back to the client.
#[derive(Debug)]
pub enum Reply<S> {
    /// The response to command `id`.
    Response { id: i64, session: Option<S>, answer: Answer<S> },
    /// An error response (code `-32000`) to command `id`.
    Failure { id: i64, session: Option<S>, message: S },
    /// An event, tagged with the session it belongs to, if any.
    Event { session: Option<S>, notice: Notice<S> },
}

impl View for Answer<String> {
    type V = Answer<Seq<char>>;

    open spec fn view(&self) -> Answer<Seq<char>> {
        match self {
            Answer::Empty => Answer::Empty,
            Answer::Version => Answer::Version,
            Answer::BrowserContexts => Answer::BrowserContexts,
            Answer::TargetId(t) => Answer::TargetId(t@),
            Answer::SessionId(s) => Answer::SessionId(s@),
            Answer::TargetInfo(t) => Answer::TargetInfo(t@),
            Answer::Success => Answer::Success,
            Answer::FrameTree(f) => Answer::FrameTree(f@),
            Answer::NavigationHistory => Answer::NavigationHistory,
            Answer::ExecutionContextId(n) => Answer::ExecutionContextId(*n),
            Answer::ScriptIdentifier => Answer::ScriptIdentifier,
            Answer::Undefined => Answer::Undefined,
            Answer::Stream(h) => Answer::Stream(h@),
            Answer::Data(d) => Answer::Data(d@),
            Answer::Chunk { data, eof } => Answer::Chunk { data: data@, eof: *eof },
        }
    }
}

impl View for Notice<String> {
    type V = Notice<Seq<char>>;

    open spec fn view(&self) -> Notice<Seq<char>> {
        match self {
            Notice::TargetCreated(t) => Notice::TargetCreated(t@),
            Notice::AttachedToTarget { session_id, target_id } => Notice::AttachedToTarget {
                session_id: session_id@,
                target_id: target_id@,
            },
            Notice::DetachedFromTarget { session_id, target_id } => Notice::DetachedFromTarget {
                session_id: session_id@,
                target_id: target_id@,
            },
            Notice::TargetDestroyed(t) => Notice::TargetDestroyed(t@),
            Notice::Lifecycle { frame_id, stage } => Notice::Lifecycle {
                frame_id: frame_id@,
                stage: *stage,
            },
            Notice::ContextCreated { frame_id, id, name, main_world } => Notice::ContextCreated {
                frame_id: frame_id@,
                id: *id,
                name: name@,
                main_world: *main_world,
            },
        }
    }
}

impl View for Reply<String> {
    type V = Reply<Seq<char>>;

    open spec fn view(&self) -> Reply<Seq<char>> {
        match self {
            Reply::Response { id, session, answer } => Reply::Response {
                id: *id,
                session: opt_view(*session),
                answer: answer@,
            },
            Reply::Failure { id, session, message } => Reply::Failure {
                id: *id,
                session: opt_view(*session),
                message: message@,
            },
            Reply::Event { session, notice } => Reply::Event {
                session: opt_view(*session),
                notice: notice@,
            },
        }
    }
}

/// Replies as the contracts see them.
pub open spec fn models(v: Seq<Reply<String>>) -> Seq<Reply<Seq<char>>> {
    v.map_values(|r: Reply<String>| r@)
}

/// What a command comes to: replies now, or a drawing the caller makes
/// before it asks for the replies.
#[derive(Debug)]
pub enum Step<R> {
    Done(R),
    /// `Page.printToPDF`: render the page to PDF, then `finish_print`.
    Print,
    /// `Page.captureScreenshot` and the viewport commands, which read or
    /// change the page's viewport: the caller draws the image and then
    /// calls `finish_screenshot`, sets or resets the viewport and then calls
    /// `finish_viewport`, or answers `Page.getLayoutMetrics` from the
    /// viewport's sizes itself.
    Screenshot,
}

/// A step as the contracts see it.
pub open spec fn step_model(s: Step<Vec<Reply<String>>>) -> Step<Seq<Reply<Seq<char>>>> {
    match s {
        Step::Done(v) => Step::Done(models(v@)),
        Step::Print => Step::Print,
        Step::Screenshot => Step::Screenshot,
    }
}

/// The response to `c`.
pub open spec fn respond(c: Command, a: Answer<Seq<char>>) -> Reply<Seq<char>> {
    Reply::Response { id: c.id, session: opt_view(c.session), answer: a }
}

/// An event of `c`'s session.
pub open spec fn tell(c: Command, n: Notice<Seq<char>>) -> Reply<Seq<char>> {
    Reply::Event { session: opt_view(c.session), notice: n }
}

/// An event of the browser, outside any session.
pub open spec fn broadcast(n: Notice<Seq<char>>) -> Reply<Seq<char>> {
    Reply::Event { session: None, notice: n }
}

/// An error response to `c`.
pub open spec fn fail(c: Command, message: Seq<char>) -> Reply<Seq<char>> {
    Reply::Failure { id: c.id, session: opt_view(c.session), message }
}

fn respond_to(c: &Command, a: Answer<String>) -> (r: Reply<String>)
    ensures
        r@ == respond(*c, a@),
{
    Reply::Response { id: c.id, session: copy_opt(&c.session), answer: a }
}

fn tell_to(c: &Command, n: Notice<String>) -> (r: Reply<String>)
    ensures
        r@ == tell(*c, n@),
{
    Reply::Event { session: copy_opt(&c.session), notice: n }
}

/// One open page.
pub struct PageState {
    pub target_id: String,
    pub frame_id: String,
    pub html: Option<String>,
}

/// A page as the contracts see it.
pub ghost struct PageView {
    pub target_id: Seq<char>,
    pub frame_id: Seq<char>,
    pub html: Option<Seq<char>>,
}

impl View for PageState {
    type V = PageView;

    open spec fn view(&self) -> PageView {
        PageView { target_id: self.target_id@, frame_id: self.frame_id@, html: opt_view(self.html) }
    }
}

impl Clone for PageState {
    fn clone(&self) -> (r: Self)
        ensures
            r@ == self@,
    {
        PageState {
            target_id: self.target_id.clone(),
            frame_id: self.frame_id.clone(),
            html: copy_opt(&self.html),
        }
    }
}

/// The page key of a client that speaks raw CDP without attaching a
/// session.
pub open spec fn implicit_key() -> Seq<char> {
    "session-implicita"@
}

/// The page a command gets when its session has none yet.
pub open spec fn fresh_page() -> PageView {
    PageView { target_id: "target-implicito"@, frame_id: "frame-1"@, html: None }
}

/// Which page a command's session names.
pub open spec fn page_key(session: Option<Seq<char>>) -> Seq<char> {
    or_else(session, implicit_key())
}

/// `prefix` followed by `n` in decimal.
pub open spec fn numbered(prefix: Seq<char>, n: nat) -> Seq<char> {
    prefix + decimal(n)
}

fn fresh_page_state() -> (p: PageState)
    ensures
        p@ == fresh_page(),
{
    PageState { target_id: text("target-implicito"), frame_id: text("frame-1"), html: None }
}

/// `prefix` followed by `n` in decimal.
fn numbered_text(prefix: &str, n: u64) -> (r: String)
    ensures
        r@ == numbered(prefix@, n as nat),
{
    let mut r = text(prefix);
    push_decimal(&mut r, n);
    r
}

/// The state of the whole session, as the contracts see it.
#[verifier::ext_equal]
pub ghost struct SessionView {
    pub page_counter: nat,
    pub context_counter: int,
    pub last_target: Option<Seq<char>>,
    /// Open pages by session key.
    pub pages: Map<Seq<char>, PageView>,
    pub streams: StoreView,
}

/// The page a command addresses, without opening one: its session's page,
/// or a fresh page when there is none.
pub open spec fn page_of(s: SessionView, session: Option<Seq<char>>) -> PageView {
    let k = page_key(session);
    if s.pages.contains_key(k) {
        s.pages[k]
    } else {
        fresh_page()
    }
}

/// The pages after a command opens its session's page if it has none.
pub open spec fn with_page(pages: Map<Seq<char>, PageView>, session: Option<Seq<char>>) -> Map<
    Seq<char>,
    PageView,
> {
    let k = page_key(session);
    if pages.contains_key(k) {
        pages
    } else {
        pages.insert(k, fresh_page())
    }
}

/// Page `k` is open and shows target `t`.
pub open spec fn owns(pages: Map<Seq<char>, PageView>, k: Seq<char>, t: Seq<char>) -> bool {
    pages.contains_key(k) && pages[k].target_id == t
}

/// `o` is a correct answer to "which session shows target `t`": one that
/// does, or none when no page shows it. When several pages show it, any of
/// them is a correct answer.
pub open spec fn owner_ok(pages: Map<Seq<char>, PageView>, t: Seq<char>, o: Option<Seq<char>>) -> bool {
    match o {
        Some(k) => owns(pages, k, t),
        None => forall|k: Seq<char>| !#[trigger] owns(pages, k, t),
    }
}

/// `Target.createTarget`: the `n`-th page gets target `target-n`, session
/// `session-n` and frame `frame-n`; the target is announced, answered, and
/// attached to at once (Puppeteer waits for that attach instead of asking).
pub open spec fn created(s: SessionView, c: Command) -> (SessionView, Seq<Reply<Seq<char>>>) {
    let n = s.page_counter + 1;
    let t = numbered("target-"@, n);
    let k = numbered("session-"@, n);
    let page = PageView { target_id: t, frame_id: numbered("frame-"@, n), html: None };
    (
        SessionView {
            page_counter: n,
            last_target: Some(t),
            pages: s.pages.insert(k, page),
            ..s
        },
        seq![
            tell(c, Notice::TargetCreated(t)),
            respond(c, Answer::TargetId(t)),
            tell(c, Notice::AttachedToTarget { session_id: k, target_id: t }),
        ],
    )
}

/// The target `Target.attachToTarget` attaches to.
pub open spec fn attach_target(s: SessionView, c: Command) -> Seq<char> {
    match param(c.strings@, "targetId"@) {
        Some(t) => t,
        None => or_else(s.last_target, "target-1"@),
    }
}

/// `Target.attachToTarget`: the attach event, then the answer, both naming
/// the session that shows the target (`session-1` when none does).
pub open spec fn attached(s: SessionView, c: Command, owner: Option<Seq<char>>) -> (
    SessionView,
    Seq<Reply<Seq<char>>>,
) {
    let t = attach_target(s, c);
    let k = or_else(owner, "session-1"@);
    (
        s,
        seq![
            tell(c, Notice::AttachedToTarget { session_id: k, target_id: t }),
            respond(c, Answer::SessionId(k)),
        ],
    )
}

/// The target a close command closes.
pub open spec fn close_target(s: SessionView, c: Command) -> Seq<char> {
    match param(c.strings@, "targetId"@) {
        Some(t) => t,
        None => page_of(s, opt_view(c.session)).target_id,
    }
}

/// `Target.closeTarget`, `Target.detachFromTarget`, `Page.close`: the page
/// showing the target is dropped; the answer comes first, then the detach
/// (when a page was dropped) and the destruction, as browser events.
pub open spec fn closed(s: SessionView, c: Command, owner: Option<Seq<char>>) -> (
    SessionView,
    Seq<Reply<Seq<char>>>,
) {
    let t = close_target(s, c);
    let first = seq![respond(c, Answer::Success)];
    let last = seq![broadcast(Notice::TargetDestroyed(t))];
    match owner {
        Some(k) => (
            SessionView { pages: s.pages.remove(k), ..s },
            first + seq![broadcast(Notice::DetachedFromTarget { session_id: k, target_id: t })]
                + last,
        ),
        None => (s, first + last),
    }
}

/// `Page.setDocumentContent`: the page takes the new HTML (none when the
/// parameter is missing), then the four lifecycle events go out, then the
/// answer.
pub open spec fn content_set(s: SessionView, c: Command) -> (SessionView, Seq<Reply<Seq<char>>>) {
    let key = page_key(opt_view(c.session));
    let p = page_of(s, opt_view(c.session));
    let f = p.frame_id;
    (
        SessionView {
            pages: s.pages.insert(key, PageView { html: param(c.strings@, "html"@), ..p }),
            ..s
        },
        seq![
            tell(c, Notice::Lifecycle { frame_id: f, stage: LoadStage::Init }),
            tell(c, Notice::Lifecycle { frame_id: f, stage: LoadStage::Load }),
            tell(c, Notice::Lifecycle { frame_id: f, stage: LoadStage::DomContentLoaded }),
            tell(c, Notice::Lifecycle { frame_id: f, stage: LoadStage::NetworkIdle }),
            respond(c, Answer::Empty),
        ],
    )
}

/// The stream a read or close names (empty when the parameter is missing).
pub open spec fn stream_handle(c: Command) -> Seq<char> {
    or_else(param(c.strings@, "handle"@), Seq::empty())
}

/// `IO.read`: the next chunk of the stream, or an immediate end.
pub open spec fn chunk_read(s: SessionView, c: Command) -> (SessionView, Seq<Reply<Seq<char>>>) {
    let h = stream_handle(c);
    match s.streams.streams.get(h) {
        Some(StreamView::Open { bytes, pos }) => {
            let end = chunk_end(bytes.len(), pos);
            let eof = end >= bytes.len();
            (
                SessionView {
                    streams: StoreView {
                        streams: s.streams.streams.insert(
                            h,
                            if eof {
                                StreamView::Drained
                            } else {
                                StreamView::Open { bytes, pos: end }
                            },
                        ),
                        ..s.streams
                    },
                    ..s
                },
                seq![
                    respond(
                        c,
                        Answer::Chunk {
                            data: base64_standard_encode(bytes.subrange(pos as int, end as int)),
                            eof,
                        },
                    ),
                ],
            )
        },
        _ => (s, seq![respond(c, Answer::Chunk { data: Seq::empty(), eof: true })]),
    }
}

/// The image format a screenshot asks for, lower-cased (`png` when the
/// parameter is missing).
pub open spec fn shot_format(c: Command) -> Seq<char> {
    lower_seq(or_else(param(c.strings@, "format"@), "png"@))
}

/// The formats a screenshot can be written in.
pub open spec fn format_supported(f: Seq<char>) -> bool {
    f == "png"@ || f == "jpeg"@ || f == "jpg"@
}

/// The error a screenshot in another format gets.
pub open spec fn format_error(f: Seq<char>) -> Seq<char> {
    "captureScreenshot: format '"@ + f + "' is not supported (use png or jpeg)"@
}

/// `Runtime.enable` and `Page.createIsolatedWorld`: a new execution
/// context in the command's frame, announced before the answer.
pub open spec fn context_made(s: SessionView, c: Command, main_world: bool) -> (
    SessionView,
    Seq<Reply<Seq<char>>>,
) {
    let id = s.context_counter + 1;
    let f = page_of(s, opt_view(c.session)).frame_id;
    let name = if main_world {
        Seq::empty()
    } else {
        or_else(param(c.strings@, "worldName"@), Seq::empty())
    };
    (
        SessionView { context_counter: id, ..s },
        seq![
            tell(c, Notice::ContextCreated { frame_id: f, id: id as i64, name, main_world }),
            respond(
                c,
                if main_world {
                    Answer::Empty
                } else {
                    Answer::ExecutionContextId(id as i64)
                },
            ),
        ],
    )
}

/// A step that is one response.
pub open spec fn one(s: SessionView, r: Reply<Seq<char>>) -> (SessionView, Step<Seq<Reply<Seq<char>>>>) {
    (s, Step::Done(seq![r]))
}

/// A step made of replies.
pub open spec fn done(p: (SessionView, Seq<Reply<Seq<char>>>)) -> (
    SessionView,
    Step<Seq<Reply<Seq<char>>>>,
) {
    (p.0, Step::Done(p.1))
}

/// What command `c` does to the session and what comes back, given which
/// session answers "who shows this target" for the two target commands
/// that ask it. Unknown methods are accepted with an empty answer: nothing
/// goes to the network and no script runs.
pub open spec fn transition(s: SessionView, c: Command, owner: Option<Seq<char>>) -> (
    SessionView,
    Step<Seq<Reply<Seq<char>>>>,
) {
    let m = c.method@;
    let opened = SessionView { pages: with_page(s.pages, opt_view(c.session)), ..s };
    if m == "Browser.getVersion"@ {
        one(s, respond(c, Answer::Version))
    } else if m == "Target.getBrowserContexts"@ {
        one(s, respond(c, Answer::BrowserContexts))
    } else if m == "Target.createTarget"@ {
        done(created(s, c))
    } else if m == "Target.attachToTarget"@ {
        done(attached(s, c, owner))
    } else if m == "Target.getTargetInfo"@ {
        one(s, respond(c, Answer::TargetInfo(or_else(s.last_target, "target-1"@))))
    } else if m == "Target.closeTarget"@ || m == "Target.detachFromTarget"@ || m == "Page.close"@ {
        done(closed(s, c, owner))
    } else if m == "Page.setDocumentContent"@ {
        done(content_set(s, c))
    } else if m == "Page.getFrameTree"@ {
        one(s, respond(c, Answer::FrameTree(page_of(s, opt_view(c.session)).frame_id)))
    } else if m == "Page.getNavigationHistory"@ {
        one(s, respond(c, Answer::NavigationHistory))
    } else if m == "Page.printToPDF"@ {
        (opened, Step::Print)
    } else if m == "IO.read"@ {
        done(chunk_read(s, c))
    } else if m == "IO.close"@ {
        one(
            SessionView {
                streams: StoreView {
                    streams: s.streams.streams.remove(stream_handle(c)),
                    ..s.streams
                },
                ..s
            },
            respond(c, Answer::Empty),
        )
    } else if m == "Page.captureScreenshot"@ {
        if format_supported(shot_format(c)) {
            (opened, Step::Screenshot)
        } else {
            one(s, fail(c, format_error(shot_format(c))))
        }
    } else if m == "Page.getLayoutMetrics"@ || m == "Emulation.setDeviceMetricsOverride"@ || m
        == "Emulation.clearDeviceMetricsOverride"@ {
        (opened, Step::Screenshot)
    } else if m == "Runtime.enable"@ {
        done(context_made(s, c, true))
    } else if m == "Page.createIsolatedWorld"@ {
        done(context_made(s, c, false))
    } else if m == "Page.addScriptToEvaluateOnNewDocument"@ {
        one(s, respond(c, Answer::ScriptIdentifier))
    } else if m == "Runtime.evaluate"@ || m == "Runtime.callFunctionOn"@ {
        one(s, respond(c, Answer::Undefined))
    } else {
        one(s, respond(c, Answer::Empty))
    }
}

/// Whether a print asks for its PDF as a stream to drain with `IO.read`.
pub open spec fn wants_stream(c: Command) -> bool {
    param(c.strings@, "transferMode"@) == Some("ReturnAsStream"@)
}

/// The answer to `Page.printToPDF` once the PDF is made: a new stream
/// holding it (Puppeteer asks for `ReturnAsStream` and reads `stream`), or
/// the whole PDF in Base64.
pub open spec fn printed(s: SessionView, c: Command, pdf: Seq<u8>) -> (SessionView, Seq<Reply<Seq<char>>>) {
    if wants_stream(c) {
        let n = s.streams.counter + 1;
        let h = handle_text(n);
        (
            SessionView {
                streams: StoreView {
                    counter: n,
                    streams: s.streams.streams.insert(h, StreamView::Open { bytes: pdf, pos: 0 }),
                },
                ..s
            },
            seq![respond(c, Answer::Stream(h))],
        )
    } else {
        (s, seq![respond(c, Answer::Data(base64_standard_encode(pdf)))])
    }
}

/// The answer to `Page.captureScreenshot` once the image is drawn, or an
/// error when the geometry allowed no image.
pub open spec fn shot(c: Command, image: Option<Seq<u8>>) -> Seq<Reply<Seq<char>>> {
    match image {
        Some(bytes) => seq![respond(c, Answer::Data(base64_standard_encode(bytes)))],
        None => seq![fail(c, "captureScreenshot: invalid geometry for the image"@)],
    }
}

/// The answer to `Emulation.setDeviceMetricsOverride` and
/// `Emulation.clearDeviceMetricsOverride` once the caller has set or reset
/// the page's viewport: an empty result.
pub open spec fn viewport_set(c: Command) -> Seq<Reply<Seq<char>>> {
    seq![respond(c, Answer::Empty)]
}

/// Which session a command asks about, for the two target commands that
/// ask: a correct answer for them, and none for every other command.
pub open spec fn lookup_ok(s: SessionView, c: Command, o: Option<Seq<char>>) -> bool {
    let m = c.method@;
    if m == "Browser.getVersion"@ || m == "Target.getBrowserContexts"@ || m == "Target.createTarget"@ {
        o is None
    } else if m == "Target.attachToTarget"@ {
        owner_ok(s.pages, attach_target(s, c), o)
    } else if m == "Target.getTargetInfo"@ {
        o is None
    } else if m == "Target.closeTarget"@ || m == "Target.detachFromTarget"@ || m == "Page.close"@ {
        owner_ok(s.pages, close_target(s, c), o)
    } else {
        o is None
    }
}

/// ASCII lower-casing of a string slice.
fn lowered(s: &str) -> (r: String)
    ensures
        r@ == lower_seq(s@),
{
    let v = chars_of(s);
    let mut r = String::new();
    let mut i: usize = 0;
    while i < v.len()
        invariant
            i <= v@.len(),
            v@ == s@,
            r@ == lower_seq(v@.subrange(0, i as int)),
        decreases v.len() - i,
    {
        push_char(&mut r, ascii_lower(v[i]));
        assert(lower_seq(v@.subrange(0, i + 1)) =~= lower_seq(v@.subrange(0, i as int)).push(
            crate::text::lower(v@[i as int]),
        ));
        i = i + 1;
    }
    assert(v@.subrange(0, v@.len() as int) =~= v@);
    r
}

/// Every open page shows the fresh page's target, or was opened by the
/// `n`-th `Target.createTarget` (for some `n` up to `counter`), and then its
/// key is `session-n` and its target `target-n`.
pub open spec fn pages_numbered(pages: Map<Seq<char>, PageView>, counter: nat) -> bool {
    forall|k: Seq<char>|
        #[trigger] pages.contains_key(k) ==> pages[k].target_id == "target-implicito"@ || exists|n: nat|
            1 <= n <= counter && k == numbered("session-"@, n) && #[trigger] numbered("target-"@, n)
                == pages[k].target_id
}

/// What every state of a session satisfies.
pub open spec fn valid(s: SessionView) -> bool {
    &&& pages_numbered(s.pages, s.page_counter)
    &&& s.context_counter >= 0
    &&& handles_numbered(s.streams)
}

/// Different numbers after the same prefix give different names.
pub proof fn lemma_numbered_injective(p: Seq<char>, a: nat, b: nat)
    requires
        numbered(p, a) == numbered(p, b),
    ensures
        a == b,
{
    assert(numbered(p, a).subrange(p.len() as int, numbered(p, a).len() as int) =~= decimal(a));
    assert(numbered(p, b).subrange(p.len() as int, numbered(p, b).len() as int) =~= decimal(b));
    lemma_decimal_injective(a, b);
}

/// A numbered target is never the fresh page's target.
pub proof fn lemma_numbered_not_fresh(n: nat)
    ensures
        numbered("target-"@, n) != "target-implicito"@,
{
    reveal_strlit("target-");
    reveal_strlit("target-implicito");
    lemma_decimal_digits(n);
    assert(numbered("target-"@, n)[7] == decimal(n)[0]);
    assert("target-implicito"@[7] == 'i');
}

/// In a valid session, the only page that can show `target-n` is
/// `session-n`.
pub proof fn lemma_numbered_owner(pages: Map<Seq<char>, PageView>, counter: nat, n: nat, k: Seq<char>)
    requires
        pages_numbered(pages, counter),
        owns(pages, k, numbered("target-"@, n)),
    ensures
        k == numbered("session-"@, n),
{
    lemma_numbered_not_fresh(n);
    let m = choose|m: nat|
        1 <= m <= counter && k == numbered("session-"@, m) && #[trigger] numbered("target-"@, m)
            == pages[k].target_id;
    lemma_numbered_injective("target-"@, m, n);
}

proof fn lemma_with_page_numbered(pages: Map<Seq<char>, PageView>, counter: nat, session: Option<Seq<char>>)
    requires
        pages_numbered(pages, counter),
    ensures
        pages_numbered(with_page(pages, session), counter),
{
    let q = with_page(pages, session);
    assert forall|k: Seq<char>| #[trigger] q.contains_key(k) implies q[k].target_id == "target-implicito"@
        || exists|n: nat|
        1 <= n <= counter && k == numbered("session-"@, n) && #[trigger] numbered("target-"@, n)
            == q[k].target_id by {
        if pages.contains_key(k) {
            assert(q[k] == pages[k]);
        }
    }
}

proof fn lemma_created_valid(s: SessionView, c: Command)
    requires
        valid(s),
    ensures
        valid(created(s, c).0),
{
    let t = created(s, c).0;
    let n = s.page_counter + 1;
    assert forall|k: Seq<char>| #[trigger] t.pages.contains_key(k) implies t.pages[k].target_id
        == "target-implicito"@ || exists|m: nat|
        1 <= m <= t.page_counter && k == numbered("session-"@, m) && #[trigger] numbered("target-"@, m)
            == t.pages[k].target_id by {
        if k == numbered("session-"@, n) {
            assert(numbered("target-"@, n) == t.pages[k].target_id);
        } else {
            assert(s.pages.contains_key(k));
            assert(t.pages[k] == s.pages[k]);
        }
    }
}

proof fn lemma_content_set_valid(s: SessionView, c: Command)
    requires
        valid(s),
    ensures
        valid(content_set(s, c).0),
{
    let t = content_set(s, c).0;
    let key = page_key(opt_view(c.session));
    assert forall|k: Seq<char>| #[trigger] t.pages.contains_key(k) implies t.pages[k].target_id
        == "target-implicito"@ || exists|m: nat|
        1 <= m <= t.page_counter && k == numbered("session-"@, m) && #[trigger] numbered("target-"@, m)
            == t.pages[k].target_id by {
        if k != key {
            assert(t.pages[k] == s.pages[k]);
        } else if s.pages.contains_key(k) {
            assert(t.pages[k].target_id == s.pages[k].target_id);
        }
    }
}

proof fn lemma_closed_valid(s: SessionView, c: Command, o: Option<Seq<char>>)
    requires
        valid(s),
    ensures
        valid(closed(s, c, o).0),
{
    let t = closed(s, c, o).0;
    assert forall|k: Seq<char>| #[trigger] t.pages.contains_key(k) implies t.pages[k].target_id
        == "target-implicito"@ || exists|m: nat|
        1 <= m <= t.page_counter && k == numbered("session-"@, m) && #[trigger] numbered("target-"@, m)
            == t.pages[k].target_id by {
        assert(s.pages.contains_key(k));
        assert(t.pages[k] == s.pages[k]);
    }
}

/// Every command keeps a session valid: the pages `Target.createTarget`
/// opens stay findable by their number, whatever else happens to them.
pub proof fn law_commands_keep_sessions_valid(s: SessionView, c: Command, o: Option<Seq<char>>)
    requires
        valid(s),
    ensures
        valid(transition(s, c, o).0),
{
    lemma_created_valid(s, c);
    lemma_content_set_valid(s, c);
    lemma_closed_valid(s, c, o);
    lemma_with_page_numbered(s.pages, s.page_counter, opt_view(c.session));
    let h = stream_handle(c);
    let after_read = chunk_read(s, c).0.streams;
    assert forall|k: Seq<char>| #[trigger] after_read.streams.contains_key(k) implies exists|n: nat|
        1 <= n <= after_read.counter && #[trigger] handle_text(n) == k by {
        assert(s.streams.streams.contains_key(k));
    }
    let after_close = StoreView { streams: s.streams.streams.remove(h), ..s.streams };
    assert forall|k: Seq<char>| #[trigger] after_close.streams.contains_key(k) implies exists|n: nat|
        1 <= n <= after_close.counter && #[trigger] handle_text(n) == k by {
        assert(s.streams.streams.contains_key(k));
    }
}

/// Handing out the PDF keeps a session valid.
pub proof fn law_printing_keeps_sessions_valid(s: SessionView, c: Command, pdf: Seq<u8>)
    requires
        valid(s),
    ensures
        valid(printed(s, c, pdf).0),
{
    let after = printed(s, c, pdf).0.streams;
    assert forall|k: Seq<char>| #[trigger] after.streams.contains_key(k) implies exists|n: nat|
        1 <= n <= after.counter && #[trigger] handle_text(n) == k by {
        if k == handle_text(s.streams.counter + 1) {
            if wants_stream(c) {
                assert(handle_text(after.counter) == k);
            } else {
                assert(s.streams.streams.contains_key(k));
            }
        } else {
            assert(s.streams.streams.contains_key(k));
            let n = choose|n: nat| 1 <= n <= s.streams.counter && #[trigger] handle_text(n) == k;
            assert(handle_text(n) == k);
        }
    }
}

/// A reply that answers the command (a response or an error).
pub open spec fn is_answer(r: Reply<Seq<char>>) -> bool {
    r is Response || r is Failure
}

/// How many replies of a batch answer the command.
pub open spec fn answer_count(v: Seq<Reply<Seq<char>>>) -> nat
    decreases v.len(),
{
    if v.len() == 0 {
        0
    } else {
        answer_count(v.drop_last()) + if is_answer(v.last()) {
            1nat
        } else {
            0nat
        }
    }
}

/// A reply belongs to command `c`: an answer carries its id and session,
/// an event its session or none (a browser event).
pub open spec fn belongs_to(c: Command, r: Reply<Seq<char>>) -> bool {
    match r {
        Reply::Response { id, session, .. } => id == c.id && session == opt_view(c.session),
        Reply::Failure { id, session, .. } => id == c.id && session == opt_view(c.session),
        Reply::Event { session, .. } => session == opt_view(c.session) || session is None,
    }
}

/// A batch of replies to `c`: exactly one answer, everything tagged as
/// `c`'s.
pub open spec fn well_answered(c: Command, v: Seq<Reply<Seq<char>>>) -> bool {
    &&& answer_count(v) == 1
    &&& forall|i: int| 0 <= i < v.len() ==> belongs_to(c, #[trigger] v[i])
}

proof fn lemma_count_push(v: Seq<Reply<Seq<char>>>, r: Reply<Seq<char>>)
    ensures
        answer_count(v.push(r)) == answer_count(v) + if is_answer(r) {
            1nat
        } else {
            0nat
        },
{
    assert(v.push(r).drop_last() =~= v);
}

proof fn lemma_count_concat(a: Seq<Reply<Seq<char>>>, b: Seq<Reply<Seq<char>>>)
    ensures
        answer_count(a + b) == answer_count(a) + answer_count(b),
    decreases b.len(),
{
    if b.len() > 0 {
        lemma_count_concat(a, b.drop_last());
        assert((a + b).drop_last() =~= a + b.drop_last());
    } else {
        assert(a + b =~= a);
    }
}

proof fn lemma_count_small(c: Command, a: Reply<Seq<char>>, b: Reply<Seq<char>>, d: Reply<Seq<char>>)
    ensures
        answer_count(seq![a]) == (if is_answer(a) {
            1nat
        } else {
            0nat
        }),
        answer_count(seq![a, b]) == answer_count(seq![a]) + (if is_answer(b) {
            1nat
        } else {
            0nat
        }),
        answer_count(seq![a, b, d]) == answer_count(seq![a, b]) + (if is_answer(d) {
            1nat
        } else {
            0nat
        }),
{
    lemma_count_push(Seq::empty(), a);
    assert(Seq::<Reply<Seq<char>>>::empty().push(a) =~= seq![a]);
    lemma_count_push(seq![a], b);
    assert(seq![a].push(b) =~= seq![a, b]);
    lemma_count_push(seq![a, b], d);
    assert(seq![a, b].push(d) =~= seq![a, b, d]);
}

/// Every command gets exactly one answer, carrying its id and its
/// session, and every event it causes carries its session or none:
/// whether the session answers it at once, or after the PDF, the image or
/// the viewport change is made. Puppeteer matches answers to commands by id
/// and session and waits forever for one that never comes. The one command
/// answered outside the session is `Page.getLayoutMetrics`, whose result is
/// the viewport's floating-point sizes.
pub proof fn law_every_command_gets_one_answer(
    s: SessionView,
    c: Command,
    o: Option<Seq<char>>,
    pdf: Seq<u8>,
    image: Option<Seq<u8>>,
)
    ensures
        transition(s, c, o).1 is Done ==> well_answered(c, transition(s, c, o).1->Done_0),
        well_answered(c, printed(s, c, pdf).1),
        well_answered(c, shot(c, image)),
        well_answered(c, viewport_set(c)),
{
    let t = transition(s, c, o).1;
    assert forall|r: Reply<Seq<char>>| #[trigger] answer_count(seq![r]) == (if is_answer(r) {
        1nat
    } else {
        0nat
    }) by {
        lemma_count_small(c, r, r, r);
    }
    let cr = created(s, c).1;
    lemma_count_small(c, cr[0], cr[1], cr[2]);
    assert(cr =~= seq![cr[0], cr[1], cr[2]]);
    let at = attached(s, c, o).1;
    lemma_count_small(c, at[0], at[1], at[1]);
    assert(at =~= seq![at[0], at[1]]);
    let cx = context_made(s, c, true).1;
    lemma_count_small(c, cx[0], cx[1], cx[1]);
    assert(cx =~= seq![cx[0], cx[1]]);
    let cy = context_made(s, c, false).1;
    lemma_count_small(c, cy[0], cy[1], cy[1]);
    assert(cy =~= seq![cy[0], cy[1]]);
    let rd = chunk_read(s, c).1;
    lemma_count_small(c, rd[0], rd[0], rd[0]);
    assert(rd =~= seq![rd[0]]);
    let pr = printed(s, c, pdf).1;
    lemma_count_small(c, pr[0], pr[0], pr[0]);
    assert(pr =~= seq![pr[0]]);
    let sh = shot(c, image);
    lemma_count_small(c, sh[0], sh[0], sh[0]);
    assert(sh =~= seq![sh[0]]);
    let vp = viewport_set(c);
    lemma_count_small(c, vp[0], vp[0], vp[0]);
    assert(vp =~= seq![vp[0]]);
    let cs = content_set(s, c).1;
    let first3 = seq![cs[0], cs[1], cs[2]];
    lemma_count_small(c, cs[0], cs[1], cs[2]);
    lemma_count_push(first3, cs[3]);
    lemma_count_push(first3.push(cs[3]), cs[4]);
    assert(cs =~= first3.push(cs[3]).push(cs[4]));
    let cl = closed(s, c, o).1;
    let head = seq![respond(c, Answer::Success)];
    let tail = seq![broadcast(Notice::TargetDestroyed(close_target(s, c)))];
    lemma_count_small(c, head[0], head[0], head[0]);
    lemma_count_small(c, tail[0], tail[0], tail[0]);
    lemma_count_concat(head, tail);
    match o {
        Some(k) => {
            let mid = seq![broadcast(Notice::DetachedFromTarget { session_id: k, target_id: close_target(s, c) })];
            lemma_count_small(c, mid[0], mid[0], mid[0]);
            lemma_count_concat(head, mid);
            lemma_count_concat(head + mid, tail);
            assert(cl =~= head + mid + tail);
        },
        None => {
            assert(cl =~= head + tail);
        },
    }
    if t is Done {
        let v = t->Done_0;
        assert(forall|i: int| 0 <= i < v.len() ==> belongs_to(c, #[trigger] v[i]));
    }
}

/// The session a reply is tagged with.
pub open spec fn reply_session(r: Reply<Seq<char>>) -> Option<Seq<char>> {
    match r {
        Reply::Response { session, .. } => session,
        Reply::Failure { session, .. } => session,
        Reply::Event { session, .. } => session,
    }
}

/// The methods that close a target.
pub open spec fn closes(m: Seq<char>) -> bool {
    m == "Target.closeTarget"@ || m == "Target.detachFromTarget"@ || m == "Page.close"@
}

/// Every reply to a command carries the command's session (none for a
/// command sent without one), responses and events alike, whether the
/// session answers at once or after the PDF, the image or the viewport
/// change is made. The one
/// exception is closing a target: its answer carries the command's session,
/// and the detach and destruction that follow are browser events, with no
/// session.
pub proof fn law_replies_carry_the_command_session(
    s: SessionView,
    c: Command,
    o: Option<Seq<char>>,
    pdf: Seq<u8>,
    image: Option<Seq<u8>>,
)
    ensures
        !closes(c.method@) && transition(s, c, o).1 is Done ==> forall|i: int|
            0 <= i < transition(s, c, o).1->Done_0.len() ==> reply_session(
                #[trigger] transition(s, c, o).1->Done_0[i],
            ) == opt_view(c.session),
        forall|i: int|
            0 <= i < closed(s, c, o).1.len() ==> reply_session(#[trigger] closed(s, c, o).1[i]) == if i
                == 0 {
                opt_view(c.session)
            } else {
                None
            },
        forall|i: int|
            0 <= i < printed(s, c, pdf).1.len() ==> reply_session(#[trigger] printed(s, c, pdf).1[i])
                == opt_view(c.session),
        forall|i: int|
            0 <= i < shot(c, image).len() ==> reply_session(#[trigger] shot(c, image)[i]) == opt_view(
                c.session,
            ),
        forall|i: int|
            0 <= i < viewport_set(c).len() ==> reply_session(#[trigger] viewport_set(c)[i]) == opt_view(
                c.session,
            ),
{
    let t = transition(s, c, o).1;
    let cr = created(s, c).1;
    assert(cr =~= seq![cr[0], cr[1], cr[2]]);
    let at = attached(s, c, o).1;
    assert(at =~= seq![at[0], at[1]]);
    let cs = content_set(s, c).1;
    assert(cs =~= seq![cs[0], cs[1], cs[2], cs[3], cs[4]]);
    let cx = context_made(s, c, true).1;
    assert(cx =~= seq![cx[0], cx[1]]);
    let cy = context_made(s, c, false).1;
    assert(cy =~= seq![cy[0], cy[1]]);
    let cl = closed(s, c, o).1;
    let t0 = close_target(s, c);
    let head = seq![respond(c, Answer::Success)];
    let tail = seq![broadcast(Notice::TargetDestroyed(t0))];
    match o {
        Some(k) => {
            let mid = seq![broadcast(Notice::DetachedFromTarget { session_id: k, target_id: t0 })];
            assert(cl =~= seq![head[0], mid[0], tail[0]]);
        },
        None => {
            assert(cl =~= seq![head[0], tail[0]]);
        },
    }
}

/// The session after a run of commands, given the answer each one got to
/// "which session shows this target".
pub open spec fn run(s: SessionView, cs: Seq<Command>, os: Seq<Option<Seq<char>>>) -> SessionView
    decreases cs.len(),
{
    if cs.len() == 0 || os.len() < cs.len() {
        s
    } else {
        run(transition(s, cs[0], os[0]).0, cs.drop_first(), os.drop_first())
    }
}

/// How many commands of a run are `Target.createTarget`.
pub open spec fn targets_created(cs: Seq<Command>) -> nat
    decreases cs.len(),
{
    if cs.len() == 0 {
        0
    } else {
        (if cs[0].method@ == "Target.createTarget"@ {
            1nat
        } else {
            0nat
        }) + targets_created(cs.drop_first())
    }
}

/// A session as `Session::new` makes it.
pub open spec fn fresh_session() -> SessionView {
    SessionView {
        page_counter: 0,
        context_counter: 0,
        last_target: None,
        pages: Map::empty(),
        streams: StoreView { counter: 0, streams: Map::empty() },
    }
}

/// Only `Target.createTarget` advances the page counter, by one.
pub proof fn law_only_created_targets_count(s: SessionView, c: Command, o: Option<Seq<char>>)
    ensures
        transition(s, c, o).0.page_counter == s.page_counter + if c.method@ == "Target.createTarget"@ {
            1nat
        } else {
            0nat
        },
{
    lemma_routes(s, c, o);
}

/// Over a run, the page counter grows by the number of targets created.
pub proof fn lemma_run_counts_targets(s: SessionView, cs: Seq<Command>, os: Seq<Option<Seq<char>>>)
    requires
        os.len() >= cs.len(),
    ensures
        run(s, cs, os).page_counter == s.page_counter + targets_created(cs),
    decreases cs.len(),
{
    if cs.len() > 0 {
        law_only_created_targets_count(s, cs[0], os[0]);
        lemma_run_counts_targets(transition(s, cs[0], os[0]).0, cs.drop_first(), os.drop_first());
    }
}

/// The `n`-th `Target.createTarget` a session receives, whatever other
/// commands came before, announces `target-n`, answers with it, and
/// attaches to it as `session-n`; so no two created targets or sessions
/// share a name.
pub proof fn law_the_nth_created_target_is_target_n(
    cs: Seq<Command>,
    os: Seq<Option<Seq<char>>>,
    c: Command,
    o: Option<Seq<char>>,
)
    requires
        os.len() >= cs.len(),
        c.method@ == "Target.createTarget"@,
    ensures
        ({
            let n = targets_created(cs) + 1;
            let t = numbered("target-"@, n);
            let k = numbered("session-"@, n);
            transition(run(fresh_session(), cs, os), c, o).1 == Step::Done(
                seq![
                    tell(c, Notice::TargetCreated(t)),
                    respond(c, Answer::TargetId(t)),
                    tell(c, Notice::AttachedToTarget { session_id: k, target_id: t }),
                ],
            )
        }),
{
    lemma_run_counts_targets(fresh_session(), cs, os);
    lemma_routes(run(fresh_session(), cs, os), c, o);
}

/// Which commands go where: the target and document commands are answered
/// by their own handlers, and only the two target commands that ask which
/// session shows a target depend on that answer.
pub proof fn lemma_routes(s: SessionView, c: Command, o: Option<Seq<char>>)
    ensures
        c.method@ == "Target.createTarget"@ ==> transition(s, c, o) == done(created(s, c)) && (lookup_ok(
            s,
            c,
            o,
        ) <==> o is None),
        c.method@ == "Target.attachToTarget"@ ==> transition(s, c, o) == done(attached(s, c, o)) && (
        lookup_ok(s, c, o) <==> owner_ok(s.pages, attach_target(s, c), o)),
        c.method@ == "Target.closeTarget"@ ==> transition(s, c, o) == done(closed(s, c, o)) && (lookup_ok(
            s,
            c,
            o,
        ) <==> owner_ok(s.pages, close_target(s, c), o)),
        c.method@ == "Page.setDocumentContent"@ ==> transition(s, c, o) == done(content_set(s, c)) && (
        lookup_ok(s, c, o) <==> o is None),
{
    reveal_strlit("Browser.getVersion");
    reveal_strlit("Target.getBrowserContexts");
    reveal_strlit("Target.createTarget");
    reveal_strlit("Target.attachToTarget");
    reveal_strlit("Target.getTargetInfo");
    reveal_strlit("Target.closeTarget");
    reveal_strlit("Target.detachFromTarget");
    reveal_strlit("Page.close");
    reveal_strlit("Page.setDocumentContent");
    assert("Browser.getVersion"@.len() == 18);
    assert("Target.getBrowserContexts"@.len() == 25);
    assert("Target.createTarget"@.len() == 19);
    assert("Target.attachToTarget"@.len() == 21);
    assert("Target.getTargetInfo"@.len() == 20);
    assert("Target.closeTarget"@.len() == 18);
    assert("Target.detachFromTarget"@.len() == 23);
    assert("Page.close"@.len() == 10);
    assert("Page.setDocumentContent"@.len() == 23);
    assert("Target.createTarget"@ != "Browser.getVersion"@);
    assert("Target.createTarget"@ != "Target.getBrowserContexts"@);
    assert("Target.attachToTarget"@ != "Browser.getVersion"@);
    assert("Target.attachToTarget"@ != "Target.getBrowserContexts"@);
    assert("Target.attachToTarget"@ != "Target.createTarget"@);
    assert("Target.closeTarget"@[0] != "Browser.getVersion"@[0]);
    assert("Target.closeTarget"@ != "Browser.getVersion"@);
    assert("Target.closeTarget"@ != "Target.getBrowserContexts"@);
    assert("Target.closeTarget"@ != "Target.createTarget"@);
    assert("Target.closeTarget"@ != "Target.attachToTarget"@);
    assert("Target.closeTarget"@ != "Target.getTargetInfo"@);
    assert("Page.setDocumentContent"@ != "Browser.getVersion"@);
    assert("Page.setDocumentContent"@ != "Target.getBrowserContexts"@);
    assert("Page.setDocumentContent"@ != "Target.createTarget"@);
    assert("Page.setDocumentContent"@ != "Target.attachToTarget"@);
    assert("Page.setDocumentContent"@ != "Target.getTargetInfo"@);
    assert("Page.setDocumentContent"@ != "Target.closeTarget"@);
    assert("Page.setDocumentContent"@[0] != "Target.detachFromTarget"@[0]);
    assert("Page.setDocumentContent"@ != "Target.detachFromTarget"@);
    assert("Page.setDocumentContent"@ != "Page.close"@);
}

/// The three close commands are answered by `closed`, and ask which
/// session shows the target they close.
proof fn lemma_close_routes(s: SessionView, c: Command, o: Option<Seq<char>>)
    requires
        closes(c.method@),
    ensures
        transition(s, c, o) == done(closed(s, c, o)),
        lookup_ok(s, c, o) <==> owner_ok(s.pages, close_target(s, c), o),
{
    reveal_strlit("Browser.getVersion");
    reveal_strlit("Target.getBrowserContexts");
    reveal_strlit("Target.createTarget");
    reveal_strlit("Target.attachToTarget");
    reveal_strlit("Target.getTargetInfo");
    reveal_strlit("Target.closeTarget");
    reveal_strlit("Target.detachFromTarget");
    reveal_strlit("Page.close");
    let m = c.method@;
    assert("Browser.getVersion"@.len() == 18);
    assert("Target.getBrowserContexts"@.len() == 25);
    assert("Target.createTarget"@.len() == 19);
    assert("Target.attachToTarget"@.len() == 21);
    assert("Target.getTargetInfo"@.len() == 20);
    assert("Target.closeTarget"@.len() == 18);
    assert("Target.detachFromTarget"@.len() == 23);
    assert("Page.close"@.len() == 10);
    assert("Target.closeTarget"@[0] != "Browser.getVersion"@[0]);
    assert("Target.closeTarget"@ != "Browser.getVersion"@);
    assert("Target.detachFromTarget"@ != "Target.getBrowserContexts"@);
    assert("Target.detachFromTarget"@[0] != "Browser.getVersion"@[0]);
    assert("Target.detachFromTarget"@ != "Browser.getVersion"@);
    assert("Page.close"@[0] != "Browser.getVersion"@[0]);
    assert("Page.close"@ != "Browser.getVersion"@);
    assert(m != "Browser.getVersion"@);
    assert(m != "Target.getBrowserContexts"@);
    assert(m != "Target.createTarget"@);
    assert(m != "Target.attachToTarget"@);
    assert(m != "Target.getTargetInfo"@);
}

/// A close command without a `targetId` closes the page of its own
/// session: when that page shows a target of its own (not the fresh page's
/// shared one), exactly that page is dropped, and the answer is followed by
/// the detach of that session from that target and the target's
/// destruction.
pub proof fn law_a_close_without_a_target_closes_its_own_page(
    s: SessionView,
    c: Command,
    o: Option<Seq<char>>,
)
    requires
        valid(s),
        closes(c.method@),
        param(c.strings@, "targetId"@) is None,
        s.pages.contains_key(page_key(opt_view(c.session))),
        s.pages[page_key(opt_view(c.session))].target_id != "target-implicito"@,
        lookup_ok(s, c, o),
    ensures
        ({
            let k = page_key(opt_view(c.session));
            let t = s.pages[k].target_id;
            transition(s, c, o) == (
                SessionView { pages: s.pages.remove(k), ..s },
                Step::Done(
                    seq![
                        respond(c, Answer::Success),
                        broadcast(Notice::DetachedFromTarget { session_id: k, target_id: t }),
                        broadcast(Notice::TargetDestroyed(t)),
                    ],
                ),
            )
        }),
{
    lemma_close_routes(s, c, o);
    let k = page_key(opt_view(c.session));
    let t = s.pages[k].target_id;
    assert(owns(s.pages, k, t));
    let n = choose|n: nat|
        1 <= n <= s.page_counter && k == numbered("session-"@, n) && #[trigger] numbered("target-"@, n)
            == s.pages[k].target_id;
    assert(o is Some);
    lemma_numbered_owner(s.pages, s.page_counter, n, o->0);
    assert(closed(s, c, o).1 =~= seq![
        respond(c, Answer::Success),
        broadcast(Notice::DetachedFromTarget { session_id: k, target_id: t }),
        broadcast(Notice::TargetDestroyed(t)),
    ]);
}

/// A page `Target.createTarget` opens gets names no open page has: its
/// target is shown by no page before, and two pages opened one after the
/// other never share a session, a target or a frame.
pub proof fn law_new_pages_get_fresh_names(s: SessionView, c1: Command, c2: Command)
    requires
        valid(s),
    ensures
        forall|k: Seq<char>| !#[trigger] owns(s.pages, k, numbered("target-"@, s.page_counter + 1)),
        ({
            let n1 = created(s, c1).0.page_counter;
            let n2 = created(created(s, c1).0, c2).0.page_counter;
            &&& numbered("session-"@, n1) != numbered("session-"@, n2)
            &&& numbered("target-"@, n1) != numbered("target-"@, n2)
            &&& numbered("frame-"@, n1) != numbered("frame-"@, n2)
        }),
{
    let n = s.page_counter + 1;
    assert forall|k: Seq<char>| !#[trigger] owns(s.pages, k, numbered("target-"@, n)) by {
        if owns(s.pages, k, numbered("target-"@, n)) {
            lemma_numbered_not_fresh(n);
            let m = choose|m: nat|
                1 <= m <= s.page_counter && k == numbered("session-"@, m) && #[trigger] numbered(
                    "target-"@,
                    m,
                ) == s.pages[k].target_id;
            lemma_numbered_injective("target-"@, m, n);
        }
    }
    if numbered("session-"@, n) == numbered("session-"@, n + 1) {
        lemma_numbered_injective("session-"@, n, n + 1);
    }
    if numbered("target-"@, n) == numbered("target-"@, n + 1) {
        lemma_numbered_injective("target-"@, n, n + 1);
    }
    if numbered("frame-"@, n) == numbered("frame-"@, n + 1) {
        lemma_numbered_injective("frame-"@, n, n + 1);
    }
}

/// Attaching to `target-n` while some page shows it names `session-n`, the
/// page `Target.createTarget` opened for it; the attach event comes before
/// the answer.
pub proof fn law_attach_names_the_page_of_the_target(
    s: SessionView,
    c: Command,
    o: Option<Seq<char>>,
    n: nat,
)
    requires
        valid(s),
        c.method@ == "Target.attachToTarget"@,
        lookup_ok(s, c, o),
        attach_target(s, c) == numbered("target-"@, n),
        exists|k: Seq<char>| #[trigger] owns(s.pages, k, numbered("target-"@, n)),
    ensures
        transition(s, c, o) == (
            s,
            Step::Done(
                seq![
                    tell(c, Notice::AttachedToTarget {
                        session_id: numbered("session-"@, n),
                        target_id: numbered("target-"@, n),
                    }),
                    respond(c, Answer::SessionId(numbered("session-"@, n))),
                ],
            ),
        ),
{
    lemma_routes(s, c, o);
    let k = choose|k: Seq<char>| #[trigger] owns(s.pages, k, numbered("target-"@, n));
    assert(o is Some);
    lemma_numbered_owner(s.pages, s.page_counter, n, o->0);
}

/// Closing `target-n` while some page shows it drops exactly the page
/// `session-n`, answers, then tells the browser the target detached and
/// was destroyed.
pub proof fn law_close_drops_the_page_of_the_target(
    s: SessionView,
    c: Command,
    o: Option<Seq<char>>,
    n: nat,
)
    requires
        valid(s),
        c.method@ == "Target.closeTarget"@,
        lookup_ok(s, c, o),
        close_target(s, c) == numbered("target-"@, n),
        exists|k: Seq<char>| #[trigger] owns(s.pages, k, numbered("target-"@, n)),
    ensures
        ({
            let k = numbered("session-"@, n);
            let t = numbered("target-"@, n);
            transition(s, c, o) == (
                SessionView { pages: s.pages.remove(k), ..s },
                Step::Done(
                    seq![
                        respond(c, Answer::Success),
                        broadcast(Notice::DetachedFromTarget { session_id: k, target_id: t }),
                        broadcast(Notice::TargetDestroyed(t)),
                    ],
                ),
            )
        }),
{
    lemma_routes(s, c, o);
    let k = choose|k: Seq<char>| #[trigger] owns(s.pages, k, numbered("target-"@, n));
    assert(o is Some);
    lemma_numbered_owner(s.pages, s.page_counter, n, o->0);
    let t = numbered("target-"@, n);
    assert(closed(s, c, o).1 =~= seq![
        respond(c, Answer::Success),
        broadcast(Notice::DetachedFromTarget { session_id: numbered("session-"@, n), target_id: t }),
        broadcast(Notice::TargetDestroyed(t)),
    ]);
}

/// Each page keeps its own document: after `Page.setDocumentContent` the
/// command's page holds the new HTML (none when the parameter is missing)
/// and keeps its target and frame, and every other page is as it was.
pub proof fn law_each_page_keeps_its_own_html(s: SessionView, c: Command, o: Option<Seq<char>>)
    requires
        c.method@ == "Page.setDocumentContent"@,
    ensures
        ({
            let key = page_key(opt_view(c.session));
            let after = transition(s, c, o).0;
            &&& after.pages.contains_key(key)
            &&& after.pages[key].html == param(c.strings@, "html"@)
            &&& after.pages[key].target_id == page_of(s, opt_view(c.session)).target_id
            &&& after.pages[key].frame_id == page_of(s, opt_view(c.session)).frame_id
            &&& forall|k: Seq<char>|
                k != key ==> (#[trigger] after.pages.contains_key(k) == s.pages.contains_key(k) && (
                s.pages.contains_key(k) ==> after.pages[k] == s.pages[k]))
        }),
{
    lemma_routes(s, c, o);
}

/// The counters a command advances still have room: a new page under
/// `u32::MAX` pages, a new execution context under `i64::MAX`.
pub open spec fn has_room(s: SessionView, c: Command) -> bool {
    &&& c.method@ == "Target.createTarget"@ ==> s.page_counter < u32::MAX
    &&& (c.method@ == "Runtime.enable"@ || c.method@ == "Page.createIsolatedWorld"@) ==> s.context_counter
        < i64::MAX
}

/// The state of one DevTools connection.
pub struct Session {
    page_counter: u32,
    context_counter: i64,
    last_target: Option<String>,
    /// Keyed by the sessionId Puppeteer puts on every command.
    pages: Registry<PageState>,
    streams: StreamStore,
}

impl View for Session {
    type V = SessionView;

    closed spec fn view(&self) -> SessionView {
        SessionView {
            page_counter: self.page_counter as nat,
            context_counter: self.context_counter as int,
            last_target: opt_view(self.last_target),
            pages: self.pages@,
            streams: self.streams@,
        }
    }
}

impl Session {
    /// The session's invariant.
    pub closed spec fn wf(&self) -> bool {
        &&& self.pages.wf()
        &&& self.streams.wf()
        &&& 0 <= self.context_counter
    }

    /// A session with no page and no stream.
    pub fn new() -> (s: Self)
        ensures
            s.wf(),
            valid(s@),
            s@.page_counter == 0,
            s@.context_counter == 0,
            s@.last_target is None,
            s@.pages == Map::<Seq<char>, PageView>::empty(),
            s@.streams.counter == 0,
            s@.streams.streams == Map::<Seq<char>, StreamView>::empty(),
    {
        Session {
            page_counter: 0,
            context_counter: 0,
            last_target: None,
            pages: Registry::new(),
            streams: StreamStore::new(),
        }
    }

    /// Whether the counters `cmd` advances have room.
    pub fn has_room(&self, cmd: &Command) -> (r: bool)
        ensures
            r == has_room(self@, *cmd),
    {
        let creates = is(&cmd.method, "Target.createTarget");
        let contexts = is(&cmd.method, "Runtime.enable") || is(&cmd.method, "Page.createIsolatedWorld");
        (!creates || self.page_counter < u32::MAX) && (!contexts || self.context_counter < i64::MAX)
    }

    /// Whether one more stream can be opened for `Page.printToPDF`.
    pub fn can_stream(&self) -> (r: bool)
        ensures
            r == (self@.streams.counter < u32::MAX),
    {
        self.streams.opened() < u32::MAX
    }

    /// The key of the page a command's session names.
    fn key_of(session: &Option<String>) -> (k: String)
        ensures
            k@ == page_key(opt_view(*session)),
    {
        match session {
            Some(s) => s.clone(),
            None => text("session-implicita"),
        }
    }

    /// The page a command addresses, without opening one.
    pub fn page(&self, session: &Option<String>) -> (p: PageState)
        requires
            self.wf(),
        ensures
            p@ == page_of(self@, opt_view(*session)),
    {
        let k = Self::key_of(session);
        match self.pages.get(k.as_str()) {
            Some(p) => p.clone(),
            None => fresh_page_state(),
        }
    }

    /// Whether a page is open under `key`.
    pub fn has_page(&self, key: &str) -> (r: bool)
        requires
            self.wf(),
        ensures
            r == self@.pages.contains_key(key@),
    {
        self.pages.get(key).is_some()
    }

    /// The HTML stored for a session's page, if that page exists and has
    /// any.
    pub fn html_for_session(&self, session: &str) -> (r: Option<String>)
        requires
            self.wf(),
        ensures
            opt_view(r) == (if self@.pages.contains_key(session@) {
                self@.pages[session@].html
            } else {
                None
            }),
    {
        match self.pages.get(session) {
            Some(p) => copy_opt(&p.html),
            None => None,
        }
    }

    /// Opens the command's page if its session has none.
    fn open_page(&mut self, session: &Option<String>)
        requires
            old(self).wf(),
        ensures
            final(self).wf(),
            final(self)@ == (SessionView {
                pages: with_page(old(self)@.pages, opt_view(*session)),
                ..old(self)@
            }),
    {
        let k = Self::key_of(session);
        if self.pages.get(k.as_str()).is_none() {
            self.pages.insert(k, fresh_page_state());
        }
        assert(self@ =~= SessionView { pages: with_page(old(self)@.pages, opt_view(*session)), ..old(self)@ });
    }

    /// `Target.createTarget`.
    fn create_target(&mut self, c: &Command) -> (out: Vec<Reply<String>>)
        requires
            old(self).wf(),
            old(self)@.page_counter < u32::MAX,
        ensures
            final(self).wf(),
            final(self)@ == created(old(self)@, *c).0,
            models(out@) == created(old(self)@, *c).1,
    {
        self.page_counter = self.page_counter + 1;
        let n = self.page_counter as u64;
        let t = numbered_text("target-", n);
        let k = numbered_text("session-", n);
        let f = numbered_text("frame-", n);
        self.last_target = Some(t.clone());
        self.pages.insert(k.clone(), PageState { target_id: t.clone(), frame_id: f, html: None });
        let mut out: Vec<Reply<String>> = Vec::new();
        out.push(tell_to(c, Notice::TargetCreated(t.clone())));
        out.push(respond_to(c, Answer::TargetId(t.clone())));
        out.push(tell_to(c, Notice::AttachedToTarget { session_id: k, target_id: t }));
        assert(models(out@) =~= created(old(self)@, *c).1);
        assert(self@ =~= created(old(self)@, *c).0);
        out
    }

    /// `Target.attachToTarget`.
    fn attach(&self, c: &Command) -> (r: (Vec<Reply<String>>, Ghost<Option<Seq<char>>>))
        requires
            self.wf(),
        ensures
            owner_ok(self@.pages, attach_target(self@, *c), r.1@),
            models(r.0@) == attached(self@, *c, r.1@).1,
    {
        let t = match c.string("targetId") {
            Some(v) => text(v),
            None => match &self.last_target {
                Some(l) => l.clone(),
                None => text("target-1"),
            },
        };
        let o = self.owner_of(&t);
        let ghost g = opt_view(o);
        let k = match o {
            Some(k) => k,
            None => text("session-1"),
        };
        let mut out: Vec<Reply<String>> = Vec::new();
        out.push(tell_to(c, Notice::AttachedToTarget { session_id: k.clone(), target_id: t }));
        out.push(respond_to(c, Answer::SessionId(k)));
        assert(models(out@) =~= attached(self@, *c, g).1);
        (out, Ghost(g))
    }

    /// `Target.closeTarget`, `Target.detachFromTarget` and `Page.close`.
    fn close(&mut self, c: &Command) -> (r: (Vec<Reply<String>>, Ghost<Option<Seq<char>>>))
        requires
            old(self).wf(),
        ensures
            final(self).wf(),
            owner_ok(old(self)@.pages, close_target(old(self)@, *c), r.1@),
            final(self)@ == closed(old(self)@, *c, r.1@).0,
            models(r.0@) == closed(old(self)@, *c, r.1@).1,
    {
        let t = match c.string("targetId") {
            Some(v) => text(v),
            None => self.page(&c.session).target_id,
        };
        let o = self.owner_of(&t);
        let ghost g = opt_view(o);
        let mut out: Vec<Reply<String>> = Vec::new();
        out.push(respond_to(c, Answer::Success));
        match o {
            Some(k) => {
                let _ = self.pages.remove(k.as_str());
                out.push(
                    Reply::Event {
                        session: None,
                        notice: Notice::DetachedFromTarget { session_id: k, target_id: t.clone() },
                    },
                );
            },
            None => {},
        }
        out.push(Reply::Event { session: None, notice: Notice::TargetDestroyed(t) });
        assert(models(out@) =~= closed(old(self)@, *c, g).1);
        assert(self@ =~= closed(old(self)@, *c, g).0);
        (out, Ghost(g))
    }

    /// `Page.setDocumentContent`.
    fn set_document_content(&mut self, c: &Command) -> (out: Vec<Reply<String>>)
        requires
            old(self).wf(),
        ensures
            final(self).wf(),
            final(self)@ == content_set(old(self)@, *c).0,
            models(out@) == content_set(old(self)@, *c).1,
    {
        let p = self.page(&c.session);
        let html = match c.string("html") {
            Some(v) => Some(text(v)),
            None => None,
        };
        let f = p.frame_id.clone();
        let k = Self::key_of(&c.session);
        self.pages.insert(k, PageState { target_id: p.target_id, frame_id: p.frame_id, html });
        let mut out: Vec<Reply<String>> = Vec::new();
        out.push(tell_to(c, Notice::Lifecycle { frame_id: f.clone(), stage: LoadStage::Init }));
        out.push(tell_to(c, Notice::Lifecycle { frame_id: f.clone(), stage: LoadStage::Load }));
        out.push(
            tell_to(c, Notice::Lifecycle { frame_id: f.clone(), stage: LoadStage::DomContentLoaded }),
        );
        out.push(tell_to(c, Notice::Lifecycle { frame_id: f, stage: LoadStage::NetworkIdle }));
        out.push(respond_to(c, Answer::Empty));
        assert(models(out@) =~= content_set(old(self)@, *c).1);
        assert(self@ =~= content_set(old(self)@, *c).0);
        out
    }

    /// `IO.read`.
    fn read_chunk(&mut self, c: &Command) -> (out: Vec<Reply<String>>)
        requires
            old(self).wf(),
        ensures
            final(self).wf(),
            final(self)@ == chunk_read(old(self)@, *c).0,
            models(out@) == chunk_read(old(self)@, *c).1,
    {
        let h = c.string_or_empty("handle");
        let (data, eof) = self.streams.read(h.as_str());
        let mut out: Vec<Reply<String>> = Vec::new();
        out.push(respond_to(c, Answer::Chunk { data, eof }));
        assert(models(out@) =~= chunk_read(old(self)@, *c).1);
        assert(self@ =~= chunk_read(old(self)@, *c).0);
        out
    }

    /// `IO.close`.
    fn close_stream(&mut self, c: &Command) -> (out: Vec<Reply<String>>)
        requires
            old(self).wf(),
        ensures
            final(self).wf(),
            final(self)@ == (SessionView {
                streams: StoreView {
                    streams: old(self)@.streams.streams.remove(stream_handle(*c)),
                    ..old(self)@.streams
                },
                ..old(self)@
            }),
            models(out@) == seq![respond(*c, Answer::Empty)],
    {
        let h = c.string_or_empty("handle");
        self.streams.close(h.as_str());
        let mut out: Vec<Reply<String>> = Vec::new();
        out.push(respond_to(c, Answer::Empty));
        assert(models(out@) =~= seq![respond(*c, Answer::Empty)]);
        assert(self@ =~= SessionView {
            streams: StoreView {
                streams: old(self)@.streams.streams.remove(stream_handle(*c)),
                ..old(self)@.streams
            },
            ..old(self)@
        });
        out
    }

    /// `Runtime.enable` (the main world) and `Page.createIsolatedWorld`.
    fn make_context(&mut self, c: &Command, main_world: bool) -> (out: Vec<Reply<String>>)
        requires
            old(self).wf(),
            old(self)@.context_counter < i64::MAX,
        ensures
            final(self).wf(),
            final(self)@ == context_made(old(self)@, *c, main_world).0,
            models(out@) == context_made(old(self)@, *c, main_world).1,
    {
        self.context_counter = self.context_counter + 1;
        let id = self.context_counter;
        let f = self.page(&c.session).frame_id;
        let name = if main_world {
            String::new()
        } else {
            c.string_or_empty("worldName")
        };
        let answer = if main_world {
            Answer::Empty
        } else {
            Answer::ExecutionContextId(id)
        };
        let mut out: Vec<Reply<String>> = Vec::new();
        out.push(tell_to(c, Notice::ContextCreated { frame_id: f, id, name, main_world }));
        out.push(respond_to(c, answer));
        assert(models(out@) =~= context_made(old(self)@, *c, main_world).1);
        assert(self@ =~= context_made(old(self)@, *c, main_world).0);
        out
    }

    /// The format a screenshot asks for, and the error it gets when that
    /// format cannot be written.
    fn check_format(c: &Command) -> (r: Option<String>)
        ensures
            match r {
                None => format_supported(shot_format(*c)),
                Some(m) => !format_supported(shot_format(*c)) && m@ == format_error(shot_format(*c)),
            },
    {
        let f = match c.string("format") {
            Some(v) => lowered(v),
            None => lowered("png"),
        };
        if is(&f, "png") || is(&f, "jpeg") || is(&f, "jpg") {
            None
        } else {
            let mut m = text("captureScreenshot: format '");
            m.append(f.as_str());
            m.append("' is not supported (use png or jpeg)");
            Some(m)
        }
    }

    /// Answers one command, or prepares the page and says which drawing the
    /// caller makes before it answers.
    ///
    /// The contract follows `transition`. Where the command asks which
    /// session shows a target and several do, the answer is one of them.
    pub fn handle(&mut self, cmd: &Command) -> (r: Step<Vec<Reply<String>>>)
        requires
            old(self).wf(),
            valid(old(self)@),
            has_room(old(self)@, *cmd),
        ensures
            final(self).wf(),
            valid(final(self)@),
            exists|o: Option<Seq<char>>|
                lookup_ok(old(self)@, *cmd, o) && #[trigger] transition(old(self)@, *cmd, o) == (
                final(self)@,
                step_model(r),
            ),
    {
        let ghost s0 = self@;
        let m = &cmd.method;
        let mut owner: Ghost<Option<Seq<char>>> = Ghost(None);
        let r = if is(m, "Browser.getVersion") {
            Step::Done(vec![respond_to(cmd, Answer::Version)])
        } else if is(m, "Target.getBrowserContexts") {
            Step::Done(vec![respond_to(cmd, Answer::BrowserContexts)])
        } else if is(m, "Target.createTarget") {
            Step::Done(self.create_target(cmd))
        } else if is(m, "Target.attachToTarget") {
            let (out, o) = self.attach(cmd);
            owner = o;
            Step::Done(out)
        } else if is(m, "Target.getTargetInfo") {
            let t = match &self.last_target {
                Some(l) => l.clone(),
                None => text("target-1"),
            };
            Step::Done(vec![respond_to(cmd, Answer::TargetInfo(t))])
        } else if is(m, "Target.closeTarget") || is(m, "Target.detachFromTarget") || is(m, "Page.close") {
            let (out, o) = self.close(cmd);
            owner = o;
            Step::Done(out)
        } else if is(m, "Page.setDocumentContent") {
            Step::Done(self.set_document_content(cmd))
        } else if is(m, "Page.getFrameTree") {
            let f = self.page(&cmd.session).frame_id;
            Step::Done(vec![respond_to(cmd, Answer::FrameTree(f))])
        } else if is(m, "Page.getNavigationHistory") {
            Step::Done(vec![respond_to(cmd, Answer::NavigationHistory)])
        } else if is(m, "Page.printToPDF") {
            self.open_page(&cmd.session);
            Step::Print
        } else if is(m, "IO.read") {
            Step::Done(self.read_chunk(cmd))
        } else if is(m, "IO.close") {
            Step::Done(self.close_stream(cmd))
        } else if is(m, "Page.captureScreenshot") {
            match Self::check_format(cmd) {
                None => {
                    self.open_page(&cmd.session);
                    Step::Screenshot
                },
                Some(message) => Step::Done(
                    vec![Reply::Failure { id: cmd.id, session: copy_opt(&cmd.session), message }],
                ),
            }
        } else if is(m, "Page.getLayoutMetrics") || is(m, "Emulation.setDeviceMetricsOverride") || is(
            m,
            "Emulation.clearDeviceMetricsOverride",
        ) {
            self.open_page(&cmd.session);
            Step::Screenshot
        } else if is(m, "Runtime.enable") {
            Step::Done(self.make_context(cmd, true))
        } else if is(m, "Page.createIsolatedWorld") {
            Step::Done(self.make_context(cmd, false))
        } else if is(m, "Page.addScriptToEvaluateOnNewDocument") {
            Step::Done(vec![respond_to(cmd, Answer::ScriptIdentifier)])
        } else if is(m, "Runtime.evaluate") || is(m, "Runtime.callFunctionOn") {
            Step::Done(vec![respond_to(cmd, Answer::Undefined)])
        } else {
            Step::Done(vec![respond_to(cmd, Answer::Empty)])
        };
        proof {
            let t = transition(s0, *cmd, owner@);
            if r is Done {
                assert(models(r->Done_0@) =~= t.1->Done_0);
            }
            assert(self@ =~= t.0);
            assert(lookup_ok(s0, *cmd, owner@));
            assert(t == (self@, step_model(r)));
            law_commands_keep_sessions_valid(s0, *cmd, owner@);
        }
        r
    }

    /// The replies to `Page.printToPDF` once the caller has made the PDF.
    pub fn finish_print(&mut self, cmd: &Command, pdf: Vec<u8>) -> (out: Vec<Reply<String>>)
        requires
            old(self).wf(),
            valid(old(self)@),
            wants_stream(*cmd) ==> old(self)@.streams.counter < u32::MAX,
        ensures
            final(self).wf(),
            valid(final(self)@),
            final(self)@ == printed(old(self)@, *cmd, pdf@).0,
            models(out@) == printed(old(self)@, *cmd, pdf@).1,
    {
        let ghost bytes = pdf@;
        let stream = match cmd.string("transferMode") {
            Some(v) => {
                let t = text(v);
                is(&t, "ReturnAsStream")
            },
            None => false,
        };
        let mut out: Vec<Reply<String>> = Vec::new();
        if stream {
            let h = self.streams.open(pdf);
            out.push(respond_to(cmd, Answer::Stream(h)));
        } else {
            let data = base64_encode(pdf.as_slice());
            out.push(respond_to(cmd, Answer::Data(data)));
        }
        assert(models(out@) =~= printed(old(self)@, *cmd, bytes).1);
        assert(self@ =~= printed(old(self)@, *cmd, bytes).0);
        out
    }

    /// The reply to `Page.captureScreenshot` once the caller has drawn the
    /// image, or found that the geometry allows none.
    pub fn finish_screenshot(&self, cmd: &Command, image: Option<Vec<u8>>) -> (out: Vec<Reply<String>>)
        ensures
            models(out@) == shot(*cmd, match image {
                Some(v) => Some(v@),
                None => None,
            }),
    {
        let mut out: Vec<Reply<String>> = Vec::new();
        match image {
            Some(bytes) => {
                let data = base64_encode(bytes.as_slice());
                out.push(respond_to(cmd, Answer::Data(data)));
            },
            None => {
                out.push(
                    Reply::Failure {
                        id: cmd.id,
                        session: copy_opt(&cmd.session),
                        message: text("captureScreenshot: invalid geometry for the image"),
                    },
                );
            },
        }
        assert(models(out@) =~= shot(*cmd, match image {
            Some(v) => Some(v@),
            None => None,
        }));
        out
    }

    /// The reply to `Emulation.setDeviceMetricsOverride` or
    /// `Emulation.clearDeviceMetricsOverride` once the caller has changed
    /// the page's viewport.
    pub fn finish_viewport(&self, cmd: &Command) -> (out: Vec<Reply<String>>)
        ensures
            models(out@) == viewport_set(*cmd),
    {
        let mut out: Vec<Reply<String>> = Vec::new();
        out.push(respond_to(cmd, Answer::Empty));
        assert(models(out@) =~= viewport_set(*cmd));
        out
    }

    /// A session showing target `t`: the first in the order pages were
    /// opened.
    fn owner_of(&self, t: &String) -> (r: Option<String>)
        requires
            self.wf(),
        ensures
            owner_ok(self@.pages, t@, opt_view(r)),
    {
        proof {
            self.pages.lemma_keys();
        }
        let mut i: usize = 0;
        while i < self.pages.len()
            invariant
                self.wf(),
                i <= self.pages.size(),
                forall|m: int|
                    0 <= m < i ==> self@.pages[#[trigger] self.pages.key_at(m)].target_id != t@,
                forall|m: int| 0 <= m < self.pages.size() ==> #[trigger] self@.pages.contains_key(self.pages.key_at(m)),
                forall|k: Seq<char>|
                    #[trigger] self@.pages.contains_key(k) ==> exists|m: int|
                        0 <= m < self.pages.size() && #[trigger] self.pages.key_at(m) == k,
            decreases self.pages.size() - i,
        {
            let (k, p) = self.pages.entry(i);
            if p.target_id == *t {
                return Some(k.clone());
            }
            i = i + 1;
        }
        assert forall|k: Seq<char>| !#[trigger] owns(self@.pages, k, t@) by {
            if self@.pages.contains_key(k) {
                let m = choose|m: int| 0 <= m < self.pages.size() && #[trigger] self.pages.key_at(m) == k;
                assert(self@.pages[self.pages.key_at(m)].target_id != t@);
            }
        }
        None
    }
}

} // verus!
