//! Byte streams handed out by `transferMode: ReturnAsStream` and drained by
//! `IO.read`.

use vstd::prelude::*;
use crate::codec::{ascii_bytes, base64_encode, base64_standard_decode, base64_standard_encode};
use crate::lifecycle::{decimal, lemma_decimal_injective, push_decimal};

verus! {

/// Size of each chunk returned by `IO.read`.
pub const CHUNK: usize = 65536;

/// A stream keeps its bytes only until they have all been handed out. The
/// handle stays alive after that, because the client still has an
/// `IO.close` to send.
pub enum Stream {
    Open { bytes: Vec<u8>, pos: usize },
    Drained,
}

/// What a stream holds, as the contracts see it.
pub ghost enum StreamView {
    Open { bytes: Seq<u8>, pos: nat },
    Drained,
}

impl Stream {
    pub open spec fn view_of(&self) -> StreamView {
        match self {
            Stream::Open { bytes, pos } => StreamView::Open { bytes: bytes@, pos: pos as nat },
            Stream::Drained => StreamView::Drained,
        }
    }
}

/// The entries of a store, as the contracts see them.
pub open spec fn entries_view(v: Seq<(String, Stream)>) -> Seq<(Seq<char>, StreamView)> {
    v.map_values(|e: (String, Stream)| (e.0@, e.1.view_of()))
}

/// First entry at or after `i` whose handle is `k`.
pub open spec fn find_key(v: Seq<(Seq<char>, StreamView)>, k: Seq<char>, i: int) -> Option<int>
    decreases v.len() - i,
{
    if i < 0 || i >= v.len() {
        None
    } else if v[i].0 == k {
        Some(i)
    } else {
        find_key(v, k, i + 1)
    }
}

pub proof fn lemma_find_key(v: Seq<(Seq<char>, StreamView)>, k: Seq<char>, i: int)
    requires
        0 <= i,
    ensures
        match find_key(v, k, i) {
            Some(j) => i <= j < v.len() && v[j].0 == k && forall|m: int| i <= m < j ==> v[m].0 != k,
            None => forall|m: int| i <= m < v.len() ==> v[m].0 != k,
        },
    decreases v.len() - i,
{
    if 0 <= i < v.len() && v[i].0 != k {
        lemma_find_key(v, k, i + 1);
    }
}

/// The stream a handle names in a list of entries: the first entry with that
/// handle.
pub open spec fn lookup(v: Seq<(Seq<char>, StreamView)>, k: Seq<char>) -> Option<StreamView> {
    match find_key(v, k, 0) {
        Some(i) => Some(v[i].1),
        None => None,
    }
}

/// `lookup` holds exactly when some entry has the handle, and then gives the
/// first such entry.
pub proof fn lemma_lookup(v: Seq<(Seq<char>, StreamView)>, k: Seq<char>)
    ensures
        lookup(v, k) is None <==> forall|m: int| 0 <= m < v.len() ==> v[m].0 != k,
        forall|j: int|
            0 <= j < v.len() && v[j].0 == k && (forall|m: int| 0 <= m < j ==> v[m].0 != k)
                ==> lookup(v, k) == Some(v[j].1),
{
    lemma_find_key(v, k, 0);
}

/// No two entries share a handle.
pub open spec fn distinct_keys(v: Seq<(Seq<char>, StreamView)>) -> bool {
    forall|i: int, j: int| 0 <= i < j < v.len() ==> v[i].0 != v[j].0
}

/// With distinct handles, the entry holding a handle is the one `lookup`
/// finds, and a handle no entry holds is absent.
pub proof fn lemma_lookup_distinct(v: Seq<(Seq<char>, StreamView)>, k: Seq<char>)
    requires
        distinct_keys(v),
    ensures
        forall|j: int| 0 <= j < v.len() && v[j].0 == k ==> lookup(v, k) == Some(v[j].1),
        (forall|m: int| 0 <= m < v.len() ==> v[m].0 != k) ==> lookup(v, k) is None,
{
    lemma_lookup(v, k);
    assert forall|j: int| 0 <= j < v.len() && v[j].0 == k implies lookup(v, k) == Some(v[j].1) by {
        assert(forall|m: int| 0 <= m < j ==> v[m].0 != k);
    }
}

/// The streams of a store, keyed by handle.
pub struct StoreView {
    pub counter: nat,
    pub streams: Map<Seq<char>, StreamView>,
}

/// The streams handed out to one client, by handle.
pub struct StreamStore {
    counter: u32,
    open: Vec<(String, Stream)>,
}

impl View for StreamStore {
    type V = StoreView;

    closed spec fn view(&self) -> StoreView {
        let e = entries_view(self.open@);
        StoreView {
            counter: self.counter as nat,
            streams: Map::new(|k: Seq<char>| lookup(e, k) is Some, |k: Seq<char>| lookup(e, k)->0),
        }
    }
}

/// The handle of the `n`-th stream a store opens.
pub open spec fn handle_text(n: nat) -> Seq<char> {
    "stream-"@ + decimal(n)
}

/// Every handle the store holds is `stream-n` for some `n` it has opened.
pub open spec fn handles_numbered(v: StoreView) -> bool {
    forall|k: Seq<char>|
        #[trigger] v.streams.contains_key(k) ==> exists|n: nat| 1 <= n <= v.counter && #[trigger] handle_text(n) == k
}

/// The handle the next open returns is none the store holds: a handle is
/// never handed out twice, even after its stream was closed.
pub proof fn law_open_gives_a_fresh_handle(v: StoreView)
    requires
        handles_numbered(v),
    ensures
        !v.streams.contains_key(handle_text(v.counter + 1)),
{
    let h = handle_text(v.counter + 1);
    if v.streams.contains_key(h) {
        let n = choose|n: nat| 1 <= n <= v.counter && #[trigger] handle_text(n) == h;
        let p = "stream-"@;
        assert(handle_text(n).subrange(p.len() as int, handle_text(n).len() as int) =~= decimal(n));
        assert(h.subrange(p.len() as int, h.len() as int) =~= decimal(v.counter + 1));
        lemma_decimal_injective(n, v.counter + 1);
    }
}

/// Closing a stream forgets that stream only: a read of its handle then
/// ends at once, every other stream keeps its bytes and position, closing
/// it again changes nothing, and the handle count is untouched.
pub proof fn law_close_forgets_only_that_stream(v: StoreView, h: Seq<char>, g: Seq<char>)
    ensures
        ({
            let after = StoreView { streams: v.streams.remove(h), ..v };
            &&& after.streams.get(h) is None
            &&& g != h ==> after.streams.get(g) == v.streams.get(g)
            &&& after.streams.remove(h) == after.streams
            &&& after.counter == v.counter
            &&& handles_numbered(v) ==> handles_numbered(after)
        }),
{
    let after = StoreView { streams: v.streams.remove(h), ..v };
    assert(after.streams.remove(h) =~= after.streams);
}

/// Where a read from `pos` stops: one chunk further, or the end.
pub open spec fn chunk_end(len: nat, pos: nat) -> nat {
    if len > pos + CHUNK {
        (pos + CHUNK) as nat
    } else {
        len
    }
}

impl StreamStore {
    /// The store's invariant: every open stream's position lies inside its
    /// bytes.
    pub closed spec fn wf(&self) -> bool {
        &&& forall|i: int|
            0 <= i < self.open@.len() ==> match #[trigger] self.open@[i].1 {
                Stream::Open { bytes, pos } => pos <= bytes@.len(),
                Stream::Drained => true,
            }
        &&& distinct_keys(entries_view(self.open@))
    }

    /// An empty store, whose first handle will be `stream-1`.
    pub fn new() -> (s: Self)
        ensures
            s.wf(),
            s@.counter == 0,
            s@.streams =~= Map::<Seq<char>, StreamView>::empty(),
            handles_numbered(s@),
    {
        StreamStore { counter: 0, open: Vec::new() }
    }

    /// Index of the entry for `handle`, if any.
    fn position(&self, handle: &String) -> (r: Option<usize>)
        ensures
            match r {
                Some(i) => find_key(entries_view(self.open@), handle@, 0) == Some(i as int),
                None => find_key(entries_view(self.open@), handle@, 0) is None,
            },
    {
        let ghost e = entries_view(self.open@);
        let mut i: usize = 0;
        while i < self.open.len()
            invariant
                e == entries_view(self.open@),
                i <= self.open@.len(),
                find_key(e, handle@, 0) == find_key(e, handle@, i as int),
            decreases self.open.len() - i,
        {
            if self.open[i].0 == *handle {
                return Some(i);
            }
            i = i + 1;
        }
        None
    }

    /// The map view of a list of entries with distinct handles.
    proof fn lemma_view_entries(&self)
        requires
            distinct_keys(entries_view(self.open@)),
        ensures
            forall|j: int|
                0 <= j < self.open@.len() ==> #[trigger] self@.streams.contains_key(self.open@[j].0@)
                    && self@.streams[self.open@[j].0@] == self.open@[j].1.view_of(),
            forall|q: Seq<char>|
                #![trigger self@.streams.contains_key(q)]
                (forall|m: int| 0 <= m < self.open@.len() ==> self.open@[m].0@ != q)
                    ==> !self@.streams.contains_key(q),
    {
        let e = entries_view(self.open@);
        assert forall|j: int| 0 <= j < self.open@.len() implies #[trigger] self@.streams.contains_key(
            self.open@[j].0@,
        ) && self@.streams[self.open@[j].0@] == self.open@[j].1.view_of() by {
            lemma_lookup_distinct(e, self.open@[j].0@);
            assert(e[j].0 == self.open@[j].0@);
        }
        assert forall|q: Seq<char>|
            (forall|m: int| 0 <= m < self.open@.len() ==> self.open@[m].0@ != q) implies !self@.streams.contains_key(q) by {
            lemma_lookup_distinct(e, q);
            assert(forall|m: int| 0 <= m < e.len() ==> e[m].0 == self.open@[m].0@);
        }
    }

    /// Stores `s` under `handle`, replacing any stream already there.
    fn put(&mut self, handle: String, s: Stream)
        requires
            old(self).wf(),
            match s {
                Stream::Open { bytes, pos } => pos <= bytes@.len(),
                Stream::Drained => true,
            },
        ensures
            final(self).wf(),
            final(self).counter == old(self).counter,
            final(self)@.streams == old(self)@.streams.insert(handle@, s.view_of()),
    {
        let ghost k = handle@;
        let ghost sv = s.view_of();
        proof {
            lemma_find_key(entries_view(self.open@), k, 0);
            self.lemma_view_entries();
        }
        let ghost old_self = *self;
        match self.position(&handle) {
            Some(i) => {
                self.open.set(i, (handle, s));
                proof {
                    assert(entries_view(self.open@) =~= entries_view(old_self.open@).update(i as int, (k, sv)));
                    self.lemma_view_entries();
                    old_self.lemma_view_entries();
                    assert forall|q: Seq<char>| #![auto] self@.streams.contains_key(q) == old_self@.streams.insert(k, sv).contains_key(q) by {
                        if q != k && old_self@.streams.contains_key(q) {
                            let e0 = entries_view(old_self.open@);
                            lemma_find_key(e0, q, 0);
                            let j = find_key(e0, q, 0)->0;
                            assert(self.open@[j].0@ == q);
                        }
                        if q != k && self@.streams.contains_key(q) {
                            if !old_self@.streams.contains_key(q) {
                                let j = choose|j: int| 0 <= j < self.open@.len() && self.open@[j].0@ == q;
                                assert(old_self.open@[j].0@ == q);
                            }
                        }
                        if q == k {
                            assert(self.open@[i as int].0@ == k);
                        }
                    }
                    assert forall|q: Seq<char>| #![auto] self@.streams.contains_key(q) implies self@.streams[q] == old_self@.streams.insert(k, sv)[q] by {
                        if q != k {
                            let j = choose|j: int| 0 <= j < self.open@.len() && self.open@[j].0@ == q;
                            assert(old_self.open@[j] == self.open@[j]);
                        } else {
                            assert(self.open@[i as int].0@ == k);
                        }
                    }
                }
                assert(self@.streams =~= old_self@.streams.insert(k, sv));
            },
            None => {
                self.open.push((handle, s));
                proof {
                    let e0 = entries_view(old_self.open@);
                    assert(entries_view(self.open@) =~= e0.push((k, sv)));
                    self.lemma_view_entries();
                    old_self.lemma_view_entries();
                    assert forall|q: Seq<char>| #![auto] self@.streams.contains_key(q) == old_self@.streams.insert(k, sv).contains_key(q) by {
                        if q != k && old_self@.streams.contains_key(q) {
                            lemma_find_key(e0, q, 0);
                            let j = find_key(e0, q, 0)->0;
                            assert(self.open@[j].0@ == q);
                        }
                        if q != k && self@.streams.contains_key(q) {
                            if !old_self@.streams.contains_key(q) {
                                let j = choose|j: int| 0 <= j < self.open@.len() && self.open@[j].0@ == q;
                                assert(old_self.open@[j].0@ == q);
                            }
                        }
                        if q == k {
                            assert(self.open@[old_self.open@.len() as int].0@ == k);
                        }
                    }
                    assert forall|q: Seq<char>| #![auto] self@.streams.contains_key(q) implies self@.streams[q] == old_self@.streams.insert(k, sv)[q] by {
                        if q != k {
                            let j = choose|j: int| 0 <= j < self.open@.len() && self.open@[j].0@ == q;
                            assert(old_self.open@[j] == self.open@[j]);
                        } else {
                            assert(self.open@[old_self.open@.len() as int].0@ == k);
                        }
                    }
                }
                assert(self@.streams =~= old_self@.streams.insert(k, sv));
            },
        }
    }

    /// Removes and returns entry `i`.
    fn take(&mut self, i: usize) -> (e: (String, Stream))
        requires
            old(self).wf(),
            i < old(self).open@.len(),
        ensures
            final(self).wf(),
            final(self).counter == old(self).counter,
            e == old(self).open@[i as int],
            old(self)@.streams.contains_key(e.0@),
            old(self)@.streams[e.0@] == e.1.view_of(),
            final(self)@.streams == old(self)@.streams.remove(e.0@),
            match e.1 {
                Stream::Open { bytes, pos } => pos <= bytes@.len(),
                Stream::Drained => true,
            },
    {
        let ghost old_self = *self;
        proof {
            old_self.lemma_view_entries();
        }
        let e = self.open.remove(i);
        let ghost k = e.0@;
        proof {
            let e0 = entries_view(old_self.open@);
            assert(entries_view(self.open@) =~= e0.remove(i as int));
            assert(old_self.open@[i as int] == e);
            assert(old_self@.streams.contains_key(old_self.open@[i as int].0@));
            self.lemma_view_entries();
            assert forall|q: Seq<char>| #![auto] self@.streams.contains_key(q) == old_self@.streams.remove(k).contains_key(q) by {
                if q != k && old_self@.streams.contains_key(q) {
                    let j = choose|j: int| 0 <= j < old_self.open@.len() && old_self.open@[j].0@ == q;
                    if j < i {
                        assert(self.open@[j].0@ == q);
                    } else {
                        assert(j != i);
                        assert(self.open@[j - 1].0@ == q);
                    }
                }
                if self@.streams.contains_key(q) {
                    let j = choose|j: int| 0 <= j < self.open@.len() && self.open@[j].0@ == q;
                    let e0 = entries_view(old_self.open@);
                    assert(e0[i as int].0 == old_self.open@[i as int].0@);
                    if j < i {
                        assert(old_self.open@[j].0@ == q);
                        assert(e0[j].0 == old_self.open@[j].0@);
                        assert(e0[j].0 != e0[i as int].0);
                    } else {
                        assert(old_self.open@[j + 1].0@ == q);
                        assert(e0[j + 1].0 == old_self.open@[j + 1].0@);
                        assert(e0[i as int].0 != e0[j + 1].0);
                    }
                }
            }
            assert forall|q: Seq<char>| #![auto] self@.streams.contains_key(q) implies self@.streams[q] == old_self@.streams.remove(k)[q] by {
                let j = choose|j: int| 0 <= j < self.open@.len() && self.open@[j].0@ == q;
                if j < i {
                    assert(old_self.open@[j] == self.open@[j]);
                } else {
                    assert(old_self.open@[j + 1] == self.open@[j]);
                }
            }
            assert(self@.streams =~= old_self@.streams.remove(k));
        }
        e
    }

    /// How many streams the store has opened.
    pub fn opened(&self) -> (n: u32)
        ensures
            n == self@.counter,
    {
        self.counter
    }

    /// Stores the bytes and returns the handle the client will read from:
    /// `stream-1`, `stream-2`, … in the order the store opens them.
    pub fn open(&mut self, bytes: Vec<u8>) -> (handle: String)
        requires
            old(self).wf(),
            old(self)@.counter < u32::MAX,
        ensures
            final(self).wf(),
            final(self)@.counter == old(self)@.counter + 1,
            handle@ == handle_text(final(self)@.counter),
            handles_numbered(old(self)@) ==> handles_numbered(final(self)@),
            final(self)@.streams == old(self)@.streams.insert(
                handle@,
                StreamView::Open { bytes: bytes@, pos: 0 },
            ),
    {
        self.counter = self.counter + 1;
        let mut handle = String::new();
        handle.append("stream-");
        push_decimal(&mut handle, self.counter as u64);
        let ghost b = bytes@;
        self.put(handle.clone(), Stream::Open { bytes, pos: 0 });
        assert(handle@ =~= handle_text(self@.counter));
        proof {
            if handles_numbered(old(self)@) {
                assert forall|k: Seq<char>| #[trigger] self@.streams.contains_key(k) implies exists|n: nat|
                    1 <= n <= self@.counter && #[trigger] handle_text(n) == k by {
                    if k == handle@ {
                        assert(handle_text(self@.counter) == k);
                    } else {
                        assert(old(self)@.streams.contains_key(k));
                        let n = choose|n: nat| 1 <= n <= old(self)@.counter && #[trigger] handle_text(n) == k;
                        assert(handle_text(n) == k);
                    }
                }
            }
        }
        handle
    }

    /// The next Base64 chunk of the stream plus whether it is exhausted. A
    /// handle that names no stream still holding bytes (unknown, closed or
    /// already drained) reads as an immediate end.
    ///
    /// Reaching the end frees the bytes at once instead of waiting for
    /// `IO.close`; the handle stays, drained.
    pub fn read(&mut self, handle: &str) -> (r: (String, bool))
        requires
            old(self).wf(),
        ensures
            final(self).wf(),
            final(self)@.counter == old(self)@.counter,
            handles_numbered(old(self)@) ==> handles_numbered(final(self)@),
            match old(self)@.streams.get(handle@) {
                Some(StreamView::Open { bytes, pos }) => {
                    let end = chunk_end(bytes.len(), pos);
                    &&& r.0@ == base64_standard_encode(bytes.subrange(pos as int, end as int))
                    &&& base64_standard_decode(ascii_bytes(r.0@)) == Some(bytes.subrange(pos as int, end as int))
                    &&& r.1 == (end >= bytes.len())
                    &&& final(self)@.streams == old(self)@.streams.insert(
                        handle@,
                        if end >= bytes.len() {
                            StreamView::Drained
                        } else {
                            StreamView::Open { bytes, pos: end }
                        },
                    )
                },
                _ => r.0@ == Seq::<char>::empty() && r.1 && final(self)@ == old(self)@,
            },
    {
        let key = <String as vstd::string::StringExecFns>::from_str(handle);
        let ghost old_self = *self;
        proof {
            old_self.lemma_view_entries();
            lemma_find_key(entries_view(old_self.open@), key@, 0);
        }
        match self.position(&key) {
            None => {
                proof {
                    assert forall|m: int| 0 <= m < old_self.open@.len() implies old_self.open@[m].0@ != key@ by {
                        assert(entries_view(old_self.open@)[m].0 == old_self.open@[m].0@);
                    }
                }
                (String::new(), true)
            },
            Some(i) => {
                let (k, st) = self.take(i);
                match st {
                    Stream::Drained => {
                        self.put(k, Stream::Drained);
                        assert(self@.streams =~= old_self@.streams);
                        (String::new(), true)
                    },
                    Stream::Open { bytes, pos } => {
                        let len = bytes.len();
                        let end = if len - pos > CHUNK {
                            pos + CHUNK
                        } else {
                            len
                        };
                        let chunk = base64_encode(slice_of(&bytes, pos, end));
                        let eof = end >= len;
                        if eof {
                            self.put(k, Stream::Drained);
                        } else {
                            self.put(k, Stream::Open { bytes, pos: end });
                        }
                        assert(self@.streams =~= old_self@.streams.insert(
                            key@,
                            if eof {
                                StreamView::Drained
                            } else {
                                StreamView::Open { bytes: old_self@.streams[key@]->bytes, pos: end as nat }
                            },
                        ));
                        (chunk, eof)
                    },
                }
            },
        }
    }

    /// Forgets the stream a handle names; an unknown handle is ignored.
    pub fn close(&mut self, handle: &str)
        requires
            old(self).wf(),
        ensures
            final(self).wf(),
            final(self)@.counter == old(self)@.counter,
            final(self)@.streams == old(self)@.streams.remove(handle@),
            handles_numbered(old(self)@) ==> handles_numbered(final(self)@),
    {
        let key = <String as vstd::string::StringExecFns>::from_str(handle);
        let ghost old_self = *self;
        proof {
            old_self.lemma_view_entries();
            lemma_find_key(entries_view(old_self.open@), key@, 0);
        }
        match self.position(&key) {
            None => {
                proof {
                    assert forall|m: int| 0 <= m < old_self.open@.len() implies old_self.open@[m].0@ != key@ by {
                        assert(entries_view(old_self.open@)[m].0 == old_self.open@[m].0@);
                    }
                }
                assert(self@.streams =~= old_self@.streams.remove(key@));
            },
            Some(i) => {
                let _ = self.take(i);
            },
        }
    }
}

/// `bytes[from..to]`.
fn slice_of(bytes: &Vec<u8>, from: usize, to: usize) -> (s: &[u8])
    requires
        from <= to <= bytes@.len(),
    ensures
        s@ == bytes@.subrange(from as int, to as int),
{
    &bytes.as_slice()[from..to]
}

/// The raw slices successive reads hand out of a stream, from position
/// `pos` until the read that reports the end.
pub open spec fn chunks_from(bytes: Seq<u8>, pos: nat) -> Seq<Seq<u8>>
    decreases bytes.len() - pos,
{
    let end = chunk_end(bytes.len(), pos);
    let here = bytes.subrange(pos as int, end as int);
    if end >= bytes.len() || end <= pos {
        seq![here]
    } else {
        seq![here] + chunks_from(bytes, end)
    }
}

/// Reading a stream until it reports its end hands out exactly its bytes,
/// in order, none of them twice, each read at most one chunk: the chunks
/// concatenate to the bytes not yet read.
pub proof fn law_reads_hand_out_the_whole_stream(bytes: Seq<u8>, pos: nat)
    requires
        pos <= bytes.len(),
    ensures
        chunks_from(bytes, pos).flatten() == bytes.subrange(pos as int, bytes.len() as int),
        forall|i: int| 0 <= i < chunks_from(bytes, pos).len() ==> #[trigger] chunks_from(bytes, pos)[i].len() <= CHUNK,
    decreases bytes.len() - pos,
{
    let end = chunk_end(bytes.len(), pos);
    let here = bytes.subrange(pos as int, end as int);
    let c = chunks_from(bytes, pos);
    if end >= bytes.len() || end <= pos {
        assert(c.drop_first() =~= Seq::<Seq<u8>>::empty());
        assert(c.drop_first().flatten() =~= Seq::<u8>::empty());
        assert(c.first() == here);
        assert(c.flatten() =~= here);
        assert(end == bytes.len());
    } else {
        law_reads_hand_out_the_whole_stream(bytes, end);
        let rest = chunks_from(bytes, end);
        assert(c.drop_first() =~= rest);
        assert(c.flatten() == here + rest.flatten());
        assert(here + bytes.subrange(end as int, bytes.len() as int) =~= bytes.subrange(
            pos as int,
            bytes.len() as int,
        ));
        assert forall|i: int| 0 <= i < c.len() implies #[trigger] c[i].len() <= CHUNK by {
            if i > 0 {
                assert(c[i] == rest[i - 1]);
            }
        }
    }
}

/// How many reads drain a stream of `len` bytes from position `pos`: one
/// per started chunk, and one even when nothing is left.
pub open spec fn reads_needed(len: nat, pos: nat) -> nat {
    if len <= pos {
        1
    } else {
        ((len - pos + CHUNK - 1) / (CHUNK as int)) as nat
    }
}

/// A stream takes one read per chunk to drain, and the Base64 texts those
/// reads hand out decode back to exactly its bytes, in order: the client
/// rebuilds the file it was given.
pub proof fn law_decoded_reads_rebuild_the_stream(bytes: Seq<u8>, pos: nat, texts: Seq<Seq<char>>)
    requires
        pos <= bytes.len(),
        texts.len() == chunks_from(bytes, pos).len(),
        forall|i: int|
            0 <= i < texts.len() ==> base64_standard_decode(ascii_bytes(#[trigger] texts[i])) == Some(
                chunks_from(bytes, pos)[i],
            ),
    ensures
        chunks_from(bytes, pos).len() == reads_needed(bytes.len(), pos),
        texts.map_values(|t: Seq<char>| base64_standard_decode(ascii_bytes(t))->0).flatten()
            == bytes.subrange(pos as int, bytes.len() as int),
{
    lemma_reads_needed(bytes, pos);
    law_reads_hand_out_the_whole_stream(bytes, pos);
    let d = texts.map_values(|t: Seq<char>| base64_standard_decode(ascii_bytes(t))->0);
    assert(d =~= chunks_from(bytes, pos));
}

proof fn lemma_reads_needed(bytes: Seq<u8>, pos: nat)
    requires
        pos <= bytes.len(),
    ensures
        chunks_from(bytes, pos).len() == reads_needed(bytes.len(), pos),
    decreases bytes.len() - pos,
{
    let len = bytes.len();
    let end = chunk_end(len, pos);
    if end >= len || end <= pos {
        if len > pos {
            assert(len - pos <= CHUNK);
            assert((len - pos + CHUNK - 1) / (CHUNK as int) == 1) by (nonlinear_arith)
                requires
                    0 < len - pos <= 65536,
            ;
        }
    } else {
        lemma_reads_needed(bytes, end);
        assert(end == pos + CHUNK);
        assert((len - pos + CHUNK - 1) / (CHUNK as int) == 1 + (len - end + CHUNK - 1) / (CHUNK as int))
            by (nonlinear_arith)
            requires
                end == pos + 65536,
                len > end,
        ;
    }
}

impl Default for StreamStore {
    fn default() -> (s: Self)
        ensures
            s.wf(),
            s@.counter == 0,
            s@.streams =~= Map::<Seq<char>, StreamView>::empty(),
    {
        StreamStore::new()
    }
}

} // verus!
