//! The HTTP health check that shares the CDP port: which first bytes of a
//! connection ask for it, and the answer it gets.

use vstd::prelude::*;

verus! {

/// `GET ` in ASCII.
pub open spec fn get_word() -> Seq<u8> {
    seq![71u8, 69u8, 84u8, 32u8]
}

/// `HEAD ` in ASCII.
pub open spec fn head_word() -> Seq<u8> {
    seq![72u8, 69u8, 65u8, 68u8, 32u8]
}

/// `/health` in ASCII.
pub open spec fn health_word() -> Seq<u8> {
    seq![47u8, 104u8, 101u8, 97u8, 108u8, 116u8, 104u8]
}

/// `h` holds `w` starting at `at`.
pub open spec fn holds_at(h: Seq<u8>, at: int, w: Seq<u8>) -> bool {
    0 <= at && at + w.len() <= h.len() && h.subrange(at, at + w.len()) == w
}

/// After the method, the path is `/health`, followed by a space or a query.
pub open spec fn health_path_at(h: Seq<u8>, at: int) -> bool {
    &&& holds_at(h, at, health_word())
    &&& at + 7 < h.len()
    &&& (h[at + 7] == 32u8 || h[at + 7] == 63u8)
}

/// The request line is `GET /health` or `HEAD /health`, with or without a
/// query string.
pub open spec fn asks_for_health(h: Seq<u8>) -> bool {
    ||| holds_at(h, 0, get_word()) && health_path_at(h, 4)
    ||| holds_at(h, 0, head_word()) && health_path_at(h, 5)
}

fn holds(h: &[u8], at: usize, w: &Vec<u8>) -> (r: bool)
    ensures
        r == holds_at(h@, at as int, w@),
{
    if at > h.len() || w.len() > h.len() - at {
        return false;
    }
    let mut k: usize = 0;
    while k < w.len()
        invariant
            at + w.len() <= h.len(),
            k <= w@.len(),
            forall|m: int| 0 <= m < k ==> h@[at + m] == w@[m],
        decreases w.len() - k,
    {
        if h[at + k] != w[k] {
            assert(h@.subrange(at as int, at + w@.len())[k as int] != w@[k as int]);
            return false;
        }
        k = k + 1;
    }
    assert(h@.subrange(at as int, at + w@.len()) =~= w@);
    true
}

fn path_is_health(h: &[u8], at: usize) -> (r: bool)
    ensures
        r == health_path_at(h@, at as int),
{
    let word = vec![47u8, 104u8, 101u8, 97u8, 108u8, 116u8, 104u8];
    assert(word@ =~= health_word());
    if !holds(h, at, &word) {
        return false;
    }
    assert(at + 7 <= h@.len());
    if h.len() - at <= 7 {
        return false;
    }
    h[at + 7] == 32u8 || h[at + 7] == 63u8
}

/// Whether the first bytes of a connection are a health-check request:
/// `GET /health` or `HEAD /health`, with or without a query string.
/// Everything else is left to the WebSocket handshake.
pub fn is_health_request(head: &[u8]) -> (r: bool)
    ensures
        r == asks_for_health(head@),
{
    let get = vec![71u8, 69u8, 84u8, 32u8];
    let hd = vec![72u8, 69u8, 65u8, 68u8, 32u8];
    assert(get@ =~= get_word());
    assert(hd@ =~= head_word());
    (holds(head, 0, &get) && path_is_health(head, 4)) || (holds(head, 0, &hd) && path_is_health(
        head,
        5,
    ))
}

/// The bytes of the health answer to the request read so far.
pub open spec fn health_response(request: Seq<u8>) -> Seq<char> {
    "HTTP/1.1 200 OK\r\nContent-Type: text/plain\r\nContent-Length: 2\r\nConnection: close\r\n\r\n"@
        + if holds_at(request, 0, head_word()) {
        Seq::empty()
    } else {
        seq!['o', 'k']
    }
}

/// The answer to a health check: `200 OK`, with the body `ok` unless the
/// request is a `HEAD`.
pub fn health_answer(request: &[u8]) -> (r: String)
    ensures
        r@ == health_response(request@),
{
    let hd = vec![72u8, 69u8, 65u8, 68u8, 32u8];
    assert(hd@ =~= head_word());
    let mut out = String::new();
    out.append(
        "HTTP/1.1 200 OK\r\nContent-Type: text/plain\r\nContent-Length: 2\r\nConnection: close\r\n\r\n",
    );
    if !holds(request, 0, &hd) {
        crate::text::push_char(&mut out, 'o');
        crate::text::push_char(&mut out, 'k');
    }
    assert(out@ =~= health_response(request@));
    out
}

} // verus!
