//! The binary key-value grammar: entries of three kinds, each a marker byte,
//! a terminated key and a value, inside containers closed by a sentinel.

use vstd::prelude::*;
use crate::text::{
    copy_range, find_nul, lemma_text_end, lemma_text_end_is, lemma_text_end_of, lemma_window_part,
    nul_free, text_end, NUL,
};

verus! {

/// The sentinel that closes a container.
pub const END: u8 = 8;

/// The three kinds of value that an entry can hold.
#[derive(Clone, Copy, Debug, PartialEq, Eq, Structural)]
pub enum Kind {
    /// An ordered run of entries, closed by the sentinel.
    Container,
    /// A run of non-zero bytes, closed by a zero byte.
    Text,
    /// Four bytes, a little-endian 32-bit integer.
    Int,
}

/// The marker byte that announces an entry of the given kind.
pub open spec fn marker(kind: Kind) -> u8 {
    match kind {
        Kind::Container => 0,
        Kind::Text => 1,
        Kind::Int => 2,
    }
}

/// The kind that a marker byte announces, if it is one of the three markers.
pub open spec fn kind_of(byte: u8) -> Option<Kind> {
    if byte == 0 {
        Some(Kind::Container)
    } else if byte == 1 {
        Some(Kind::Text)
    } else if byte == 2 {
        Some(Kind::Int)
    } else {
        None
    }
}

/// One entry as the file holds it: its key, its kind and the bytes of its
/// value. For a text the value is the text without its terminator, for an
/// integer its four bytes, for a container everything up to and including the
/// sentinel that closes it.
#[derive(Clone, Debug, PartialEq, Eq)]
pub struct Entry {
    pub key: Vec<u8>,
    pub kind: Kind,
    pub raw: Vec<u8>,
}

/// The mathematical value of an `Entry`.
pub struct EntryView {
    pub key: Seq<u8>,
    pub kind: Kind,
    pub raw: Seq<u8>,
}

impl View for Entry {
    type V = EntryView;

    open spec fn view(&self) -> EntryView {
        EntryView { key: self.key@, kind: self.kind, raw: self.raw@ }
    }
}

/// Where the container body that starts at `p` ends, `depth` containers
/// being open inside it: `Ok` with the position after the sentinel that closes
/// the body, or `Err` with the position of the first token that cannot be
/// read.
pub open spec fn body_end(b: Seq<u8>, p: int, depth: nat) -> Result<int, int>
    decreases b.len() - p,
{
    if p < 0 || p >= b.len() {
        Err(b.len() as int)
    } else if b[p] == END {
        if depth == 0 {
            Ok(p + 1)
        } else {
            body_end(b, p + 1, (depth - 1) as nat)
        }
    } else {
        match kind_of(b[p]) {
            None => Err(p),
            Some(kind) => {
                let k = text_end(b, p + 1);
                if k >= b.len() {
                    Err(p + 1)
                } else {
                    proof {
                        lemma_text_end(b, p + 1);
                        lemma_text_end(b, k + 1);
                    }
                    match kind {
                        Kind::Container => body_end(b, k + 1, depth + 1),
                        Kind::Text => {
                            let v = text_end(b, k + 1);
                            if v >= b.len() {
                                Err(k + 1)
                            } else {
                                body_end(b, v + 1, depth)
                            }
                        },
                        Kind::Int => {
                            if k + 5 <= b.len() {
                                body_end(b, k + 5, depth)
                            } else {
                                Err(k + 1)
                            }
                        },
                    }
                }
            },
        }
    }
}

/// The entry that starts at `p` and the position after it, or the position
/// of the first token that cannot be read.
pub open spec fn entry_at(b: Seq<u8>, p: int) -> Result<(EntryView, int), int> {
    if p < 0 || p >= b.len() {
        Err(b.len() as int)
    } else {
        match kind_of(b[p]) {
            None => Err(p),
            Some(kind) => {
                let k = text_end(b, p + 1);
                if k >= b.len() {
                    Err(p + 1)
                } else {
                    let key = b.subrange(p + 1, k);
                    match kind {
                        Kind::Container => match body_end(b, k + 1, 0) {
                            Ok(e) => Ok((EntryView { key, kind, raw: b.subrange(k + 1, e) }, e)),
                            Err(o) => Err(o),
                        },
                        Kind::Text => {
                            let v = text_end(b, k + 1);
                            if v >= b.len() {
                                Err(k + 1)
                            } else {
                                Ok((EntryView { key, kind, raw: b.subrange(k + 1, v) }, v + 1))
                            }
                        },
                        Kind::Int => {
                            if k + 5 <= b.len() {
                                Ok((EntryView { key, kind, raw: b.subrange(k + 1, k + 5) }, k + 5))
                            } else {
                                Err(k + 1)
                            }
                        },
                    }
                }
            },
        }
    }
}

/// The entries of the container body that starts at `p`, in the order of the
/// bytes, and the position after the sentinel that closes the body; or the
/// position of the first token that cannot be read.
pub open spec fn entries_from(b: Seq<u8>, p: int) -> Result<(Seq<EntryView>, int), int>
    decreases b.len() - p,
{
    if p < 0 || p >= b.len() {
        Err(b.len() as int)
    } else if b[p] == END {
        Ok((Seq::empty(), p + 1))
    } else {
        match entry_at(b, p) {
            Err(o) => Err(o),
            Ok((entry, q)) => {
                proof {
                    lemma_entry_at_bounds(b, p);
                }
                match entries_from(b, q) {
                    Err(o) => Err(o),
                    Ok((rest, r)) => Ok((seq![entry] + rest, r)),
                }
            },
        }
    }
}

/// Whether the bytes of a value are what its kind allows.
pub open spec fn raw_fits(kind: Kind, raw: Seq<u8>) -> bool {
    match kind {
        Kind::Container => body_end(raw, 0, 0) == Ok::<int, int>(raw.len() as int),
        Kind::Text => nul_free(raw),
        Kind::Int => raw.len() == 4,
    }
}

/// An entry that can be written and read back: its key holds no terminator
/// and its value is what its kind allows.
pub open spec fn entry_wf(e: EntryView) -> bool {
    nul_free(e.key) && raw_fits(e.kind, e.raw)
}

/// Every entry of the run can be written and read back.
pub open spec fn entries_wf(es: Seq<EntryView>) -> bool {
    forall|i: int| 0 <= i < es.len() ==> entry_wf(#[trigger] es[i])
}

/// The bytes of one entry: marker, key, terminator, value, and for a text
/// its terminator.
pub open spec fn entry_bytes(e: EntryView) -> Seq<u8> {
    let head = seq![marker(e.kind)] + e.key + seq![NUL] + e.raw;
    match e.kind {
        Kind::Text => head + seq![NUL],
        _ => head,
    }
}

/// The bytes of a run of entries, one after the other.
pub open spec fn entries_bytes(es: Seq<EntryView>) -> Seq<u8>
    decreases es.len(),
{
    if es.len() == 0 {
        Seq::empty()
    } else {
        entry_bytes(es[0]) + entries_bytes(es.drop_first())
    }
}

/// A body that ends does so after its start and inside the buffer; one that
/// does not end fails at a position from its start on, inside the buffer or
/// at its end.
pub proof fn lemma_body_end_bounds(b: Seq<u8>, p: int, depth: nat)
    requires
        0 <= p <= b.len(),
    ensures
        match body_end(b, p, depth) {
            Ok(e) => p + depth < e <= b.len(),
            Err(o) => p <= o <= b.len(),
        },
    decreases b.len() - p,
{
    if p < b.len() {
        if b[p] == END {
            if depth > 0 {
                lemma_body_end_bounds(b, p + 1, (depth - 1) as nat);
            }
        } else if let Some(kind) = kind_of(b[p]) {
            lemma_text_end(b, p + 1);
            let k = text_end(b, p + 1);
            if k < b.len() {
                match kind {
                    Kind::Container => {
                        lemma_body_end_bounds(b, k + 1, depth + 1);
                    },
                    Kind::Text => {
                        lemma_text_end(b, k + 1);
                        let v = text_end(b, k + 1);
                        if v < b.len() {
                            lemma_body_end_bounds(b, v + 1, depth);
                        }
                    },
                    Kind::Int => {
                        if k + 5 <= b.len() {
                            lemma_body_end_bounds(b, k + 5, depth);
                        }
                    },
                }
            }
        }
    }
}

/// An entry that can be read ends after its start and inside the buffer; one
/// that cannot fails at a position from its start on, inside the buffer or at
/// its end.
pub proof fn lemma_entry_at_bounds(b: Seq<u8>, p: int)
    requires
        0 <= p <= b.len(),
    ensures
        match entry_at(b, p) {
            Ok((_, q)) => p < q <= b.len(),
            Err(o) => p <= o <= b.len(),
        },
{
    if p < b.len() {
        lemma_text_end(b, p + 1);
        let k = text_end(b, p + 1);
        if k < b.len() {
            lemma_text_end(b, k + 1);
            lemma_body_end_bounds(b, k + 1, 0);
        }
    }
}

/// A run of entries that can be read ends after its start and inside the
/// buffer; one that cannot fails at a position from its start on, inside the
/// buffer or at its end.
pub proof fn lemma_entries_from_bounds(b: Seq<u8>, p: int)
    requires
        0 <= p <= b.len(),
    ensures
        match entries_from(b, p) {
            Ok((_, q)) => p < q <= b.len(),
            Err(o) => p <= o <= b.len(),
        },
    decreases b.len() - p,
{
    if p < b.len() && b[p] != END {
        lemma_entry_at_bounds(b, p);
        if let Ok((_, q)) = entry_at(b, p) {
            lemma_entries_from_bounds(b, q);
        }
    }
}

/// Two buffers that hold the same bytes in a window hold the same bytes in
/// each part of it.
pub proof fn lemma_window_narrow(a: Seq<u8>, pa: int, b: Seq<u8>, pb: int, e: int, d: int)
    requires
        0 <= pa <= e <= a.len(),
        0 <= pb,
        pb + (e - pa) <= b.len(),
        a.subrange(pa, e) == b.subrange(pb, pb + (e - pa)),
        0 <= d <= e - pa,
    ensures
        a.subrange(pa + d, e) == b.subrange(pb + d, pb + (e - pa)),
        forall|i: int| pa <= i < e ==> #[trigger] a[i] == b[i - pa + pb],
{
    let wa = a.subrange(pa, e);
    let wb = b.subrange(pb, pb + (e - pa));
    assert forall|i: int| pa <= i < e implies #[trigger] a[i] == b[i - pa + pb] by {
        assert(wa[i - pa] == a[i]);
        assert(wb[i - pa] == b[i - pa + pb]);
    }
    let na = a.subrange(pa + d, e);
    let nb = b.subrange(pb + d, pb + (e - pa));
    assert forall|i: int| 0 <= i < na.len() implies #[trigger] na[i] == nb[i] by {
        assert(a[pa + d + i] == b[pa + d + i - pa + pb]);
    }
    assert(na =~= nb);
}

/// A text that ends inside a window ends at the same place, counted from the
/// window's start, in every buffer that holds the window.
pub proof fn lemma_text_end_window(a: Seq<u8>, pa: int, b: Seq<u8>, pb: int, e: int)
    requires
        0 <= pa <= e <= a.len(),
        0 <= pb,
        pb + (e - pa) <= b.len(),
        a.subrange(pa, e) == b.subrange(pb, pb + (e - pa)),
        text_end(a, pa) < e,
    ensures
        text_end(b, pb) == text_end(a, pa) - pa + pb,
{
    let k = text_end(a, pa);
    lemma_text_end(a, pa);
    lemma_window_narrow(a, pa, b, pb, e, 0);
    assert(a[k] == b[k - pa + pb]);
    assert forall|i: int| pb <= i < pb + (k - pa) implies b[i] != NUL by {
        let j = i - pb + pa;
        assert(a.subrange(pa, k)[j - pa] == a[j]);
        assert(a[j] == b[j - pa + pb]);
    }
    lemma_text_end_is(b, pb, pb + (k - pa));
}

/// A container body that ends inside a window ends at the same place, counted
/// from the window's start, in every buffer that holds the window.
pub proof fn lemma_body_end_window(
    a: Seq<u8>,
    pa: int,
    b: Seq<u8>,
    pb: int,
    depth: nat,
    e: int,
)
    requires
        0 <= pa,
        0 <= pb,
        body_end(a, pa, depth) == Ok::<int, int>(e),
        pb + (e - pa) <= b.len(),
        a.subrange(pa, e) == b.subrange(pb, pb + (e - pa)),
    ensures
        body_end(b, pb, depth) == Ok::<int, int>(e - pa + pb),
    decreases a.len() - pa,
{
    lemma_body_end_bounds(a, pa, depth);
    lemma_window_narrow(a, pa, b, pb, e, 0);
    assert(a[pa] == b[pa - pa + pb]);
    if a[pa] == END {
        if depth > 0 {
            lemma_window_narrow(a, pa, b, pb, e, 1);
            lemma_body_end_window(a, pa + 1, b, pb + 1, (depth - 1) as nat, e);
        }
    } else {
        let kind = kind_of(a[pa])->Some_0;
        let k = text_end(a, pa + 1);
        lemma_text_end(a, pa + 1);
        lemma_text_end(a, k + 1);
        let next = match kind {
            Kind::Container => k + 1,
            Kind::Text => text_end(a, k + 1) + 1,
            Kind::Int => k + 5,
        };
        let inner = match kind {
            Kind::Container => depth + 1,
            _ => depth,
        };
        assert(body_end(a, next, inner) == Ok::<int, int>(e));
        lemma_body_end_bounds(a, next, inner);
        lemma_window_narrow(a, pa, b, pb, e, 1);
        lemma_text_end_window(a, pa + 1, b, pb + 1, e);
        let kb = k - pa + pb;
        assert(text_end(b, pb + 1) == kb);
        if kind == Kind::Text {
            lemma_window_narrow(a, pa, b, pb, e, k + 1 - pa);
            lemma_text_end_window(a, k + 1, b, kb + 1, e);
        }
        lemma_window_narrow(a, pa, b, pb, e, next - pa);
        lemma_body_end_window(a, next, b, next - pa + pb, inner, e);
    }
}

/// The bytes that an entry was read from are the bytes that writing it gives,
/// and the entry can be written and read back.
pub proof fn lemma_entry_at_bytes(b: Seq<u8>, p: int)
    requires
        0 <= p,
        entry_at(b, p) is Ok,
    ensures
        ({
            let (e, q) = entry_at(b, p)->Ok_0;
            &&& p < q <= b.len()
            &&& b.subrange(p, q) == entry_bytes(e)
            &&& entry_wf(e)
            &&& b[p] != END
        }),
{
    let (e, q) = entry_at(b, p)->Ok_0;
    lemma_entry_at_bounds(b, p);
    let k = text_end(b, p + 1);
    lemma_text_end(b, p + 1);
    lemma_text_end(b, k + 1);
    lemma_body_end_bounds(b, k + 1, 0);
    let w = entry_bytes(e);
    assert(e.key.len() == k - (p + 1));
    assert(b[p] == marker(e.kind));
    assert(w.len() == q - p);
    assert forall|i: int| 0 <= i < q - p implies #[trigger] w[i] == b[p + i] by {
        if i == 0 {
        } else if i < 1 + e.key.len() {
            assert(w[i] == e.key[i - 1]);
        } else if i == 1 + e.key.len() {
        } else if i < 2 + e.key.len() + e.raw.len() {
            assert(w[i] == e.raw[i - 2 - e.key.len()]);
        } else {
        }
    }
    assert(b.subrange(p, q) =~= w);
    if e.kind == Kind::Container {
        assert(e.raw.subrange(0, q - (k + 1)) =~= e.raw);
        lemma_body_end_window(b, k + 1, e.raw, 0, 0, q);
    }
}

/// The bytes that a run of entries was read from are the bytes that writing
/// the run gives, followed by the sentinel; and each of the entries can be
/// written and read back.
pub proof fn lemma_entries_from_bytes(b: Seq<u8>, p: int)
    requires
        0 <= p,
        entries_from(b, p) is Ok,
    ensures
        ({
            let (es, q) = entries_from(b, p)->Ok_0;
            &&& p < q <= b.len()
            &&& b.subrange(p, q) == entries_bytes(es) + seq![END]
            &&& entries_wf(es)
        }),
    decreases b.len() - p,
{
    let (es, q) = entries_from(b, p)->Ok_0;
    if b[p] == END {
        assert(b.subrange(p, q) =~= entries_bytes(es) + seq![END]);
    } else {
        let (e, m) = entry_at(b, p)->Ok_0;
        lemma_entry_at_bytes(b, p);
        lemma_entries_from_bytes(b, m);
        let (rest, r) = entries_from(b, m)->Ok_0;
        assert(es == seq![e] + rest);
        assert(es.drop_first() =~= rest);
        assert(b.subrange(p, q) =~= b.subrange(p, m) + b.subrange(m, q));
        assert(b.subrange(p, q) =~= entries_bytes(es) + seq![END]);
    }
}

/// Writing one run of entries after another gives the bytes of the first
/// followed by the bytes of the second.
pub proof fn lemma_entries_bytes_concat(x: Seq<EntryView>, y: Seq<EntryView>)
    ensures
        entries_bytes(x + y) == entries_bytes(x) + entries_bytes(y),
    decreases x.len(),
{
    if x.len() == 0 {
        assert(x + y =~= y);
        assert(entries_bytes(x) + entries_bytes(y) =~= entries_bytes(y));
    } else {
        lemma_entries_bytes_concat(x.drop_first(), y);
        assert((x + y).drop_first() =~= x.drop_first() + y);
        assert(entries_bytes(x + y) =~= entries_bytes(x) + entries_bytes(y));
    }
}

/// Writing a run of entries with one more entry at its end gives the bytes of
/// the run followed by the bytes of the entry.
pub proof fn lemma_entries_bytes_push(es: Seq<EntryView>, e: EntryView)
    ensures
        entries_bytes(es.push(e)) == entries_bytes(es) + entry_bytes(e),
{
    let one = seq![e];
    assert(one[0] == e);
    assert(one.drop_first().len() == 0);
    assert(entries_bytes(one.drop_first()) =~= Seq::<u8>::empty());
    assert(entries_bytes(one) =~= entry_bytes(e));
    assert(es.push(e) =~= es + one);
    lemma_entries_bytes_concat(es, one);
}

/// How the bytes of an entry are laid out: the marker, the key, a
/// terminator, the value, and for a text one more terminator.
pub proof fn lemma_entry_bytes_layout(e: EntryView)
    ensures
        ({
            let w = entry_bytes(e);
            let k: int = 1 + e.key.len() as int;
            let v: int = k + 1 + e.raw.len();
            &&& w.len() == if e.kind == Kind::Text { v + 1 } else { v }
            &&& w[0] == marker(e.kind)
            &&& w.subrange(1, k) == e.key
            &&& w[k] == NUL
            &&& w.subrange(k + 1, v) == e.raw
            &&& e.kind == Kind::Text ==> w[v] == NUL
        }),
{
    let w = entry_bytes(e);
    let k: int = 1 + e.key.len() as int;
    let v: int = k + 1 + e.raw.len();
    assert(w.subrange(1, k) =~= e.key);
    assert(w.subrange(k + 1, v) =~= e.raw);
}

/// An entry that can be written is read back from its bytes, wherever they
/// stand in a buffer.
pub proof fn lemma_entry_parses(b: Seq<u8>, p: int, e: EntryView)
    requires
        0 <= p,
        entry_wf(e),
        p + entry_bytes(e).len() <= b.len(),
        b.subrange(p, p + entry_bytes(e).len()) == entry_bytes(e),
    ensures
        entry_at(b, p) == Ok::<(EntryView, int), int>((e, p + entry_bytes(e).len())),
        b[p] != END,
{
    let w = entry_bytes(e);
    let k: int = 1 + e.key.len() as int;
    let v: int = k + 1 + e.raw.len();
    lemma_entry_bytes_layout(e);
    assert(b[p] == w[0]) by {
        assert(b.subrange(p, p + w.len())[0] == b[p]);
    }
    assert(b[p + k] == w[k]) by {
        assert(b.subrange(p, p + w.len())[k] == b[p + k]);
    }
    lemma_window_part(b, p, w, 1, k);
    lemma_window_part(b, p, w, k + 1, v);
    lemma_text_end_of(b, p + 1, e.key);
    assert(text_end(b, p + 1) == p + k);
    assert(b.subrange(p + 1, p + k) == e.key);
    assert(b.subrange(p + k + 1, p + v) == e.raw);
    match e.kind {
        Kind::Container => {
            assert(e.raw.subrange(0, e.raw.len() as int) =~= e.raw);
            lemma_body_end_window(e.raw, 0, b, p + k + 1, 0, e.raw.len() as int);
        },
        Kind::Text => {
            assert(b[p + v] == w[v]) by {
                assert(b.subrange(p, p + w.len())[v] == b[p + v]);
            }
            lemma_text_end_of(b, p + k + 1, e.raw);
        },
        Kind::Int => {},
    }
}

/// A run of entries that can be written is read back from its bytes followed
/// by the sentinel, wherever they stand in a buffer.
pub proof fn lemma_entries_parse(b: Seq<u8>, p: int, es: Seq<EntryView>)
    requires
        0 <= p,
        entries_wf(es),
        p + entries_bytes(es).len() < b.len(),
        b.subrange(p, p + entries_bytes(es).len()) == entries_bytes(es),
        b[p + entries_bytes(es).len()] == END,
    ensures
        entries_from(b, p) == Ok::<(Seq<EntryView>, int), int>(
            (es, p + entries_bytes(es).len() + 1),
        ),
    decreases es.len(),
{
    let w = entries_bytes(es);
    if es.len() == 0 {
        assert(entries_from(b, p)->Ok_0.0 =~= es);
    } else {
        let e = es[0];
        let n = entry_bytes(e).len() as int;
        let rest = es.drop_first();
        assert(entry_wf(e));
        assert(entries_wf(rest)) by {
            assert forall|i: int| 0 <= i < rest.len() implies entry_wf(#[trigger] rest[i]) by {
                assert(rest[i] == es[i + 1]);
            }
        }
        assert(b.subrange(p, p + n) =~= w.subrange(0, n));
        assert(w.subrange(0, n) =~= entry_bytes(e));
        lemma_entry_parses(b, p, e);
        assert(b.subrange(p + n, p + w.len()) =~= w.subrange(n, w.len() as int));
        assert(w.subrange(n, w.len() as int) =~= entries_bytes(rest));
        lemma_entries_parse(b, p + n, rest);
        assert(seq![e] + rest =~= es);
    }
}

/// A position, or the offset of a failure, as a mathematical integer.
pub open spec fn position(r: Result<usize, usize>) -> Result<int, int> {
    match r {
        Ok(q) => Ok(q as int),
        Err(o) => Err(o as int),
    }
}

/// The marker byte of a kind.
pub fn marker_of(kind: Kind) -> (byte: u8)
    ensures
        byte == marker(kind),
{
    match kind {
        Kind::Container => 0,
        Kind::Text => 1,
        Kind::Int => 2,
    }
}

/// The kind that a marker byte announces.
pub fn kind_from_marker(byte: u8) -> (kind: Option<Kind>)
    ensures
        kind == kind_of(byte),
{
    if byte == 0 {
        Some(Kind::Container)
    } else if byte == 1 {
        Some(Kind::Text)
    } else if byte == 2 {
        Some(Kind::Int)
    } else {
        None
    }
}

/// Walks over the container body that starts at `start`, nested containers
/// included, without building anything: the position after the sentinel that
/// closes the body, or the offset of the first token that cannot be read.
pub fn skip_body(b: &[u8], start: usize) -> (end: Result<usize, usize>)
    ensures
        position(end) == body_end(b@, start as int, 0),
{
    if start >= b.len() {
        return Err(b.len());
    }
    let mut p: usize = start;
    let mut depth: usize = 0;
    loop
        invariant
            p <= b@.len(),
            depth <= p,
            body_end(b@, start as int, 0) == body_end(b@, p as int, depth as nat),
        decreases b@.len() - p,
    {
        if p >= b.len() {
            return Err(b.len());
        }
        let m = b[p];
        if m == END {
            if depth == 0 {
                return Ok(p + 1);
            }
            depth -= 1;
            p += 1;
        } else {
            let kind = match kind_from_marker(m) {
                Some(kind) => kind,
                None => {
                    return Err(p);
                },
            };
            let k = find_nul(b, p + 1);
            if k >= b.len() {
                return Err(p + 1);
            }
            proof {
                lemma_text_end(b@, p + 1);
                lemma_text_end(b@, k + 1);
            }
            match kind {
                Kind::Container => {
                    depth += 1;
                    p = k + 1;
                },
                Kind::Text => {
                    let v = find_nul(b, k + 1);
                    if v >= b.len() {
                        return Err(k + 1);
                    }
                    p = v + 1;
                },
                Kind::Int => {
                    if b.len() - k < 5 {
                        return Err(k + 1);
                    }
                    p = k + 5;
                },
            }
        }
    }
}

/// Reads the entry that starts at `p`: the entry and the position after it,
/// or the offset of the first token that cannot be read.
pub fn read_entry(b: &[u8], p: usize) -> (r: Result<(Entry, usize), usize>)
    ensures
        match r {
            Ok((e, q)) => entry_at(b@, p as int) == Ok::<(EntryView, int), int>((e@, q as int)),
            Err(o) => entry_at(b@, p as int) == Err::<(EntryView, int), int>(o as int),
        },
{
    if p >= b.len() {
        return Err(b.len());
    }
    let kind = match kind_from_marker(b[p]) {
        Some(kind) => kind,
        None => {
            return Err(p);
        },
    };
    let k = find_nul(b, p + 1);
    if k >= b.len() {
        return Err(p + 1);
    }
    proof {
        lemma_text_end(b@, p + 1);
        lemma_text_end(b@, k + 1);
        lemma_body_end_bounds(b@, k + 1, 0);
    }
    let key = copy_range(b, p + 1, k);
    match kind {
        Kind::Container => match skip_body(b, k + 1) {
            Ok(e) => Ok((Entry { key, kind, raw: copy_range(b, k + 1, e) }, e)),
            Err(o) => Err(o),
        },
        Kind::Text => {
            let v = find_nul(b, k + 1);
            if v >= b.len() {
                return Err(k + 1);
            }
            Ok((Entry { key, kind, raw: copy_range(b, k + 1, v) }, v + 1))
        },
        Kind::Int => {
            if b.len() - k < 5 {
                return Err(k + 1);
            }
            Ok((Entry { key, kind, raw: copy_range(b, k + 1, k + 5) }, k + 5))
        },
    }
}

/// What reading a run of entries gives once the entries in `head` have been
/// read and `tail` is what reading the rest gives.
pub open spec fn entries_after(
    head: Seq<EntryView>,
    tail: Result<(Seq<EntryView>, int), int>,
) -> Result<(Seq<EntryView>, int), int> {
    match tail {
        Ok((rest, q)) => Ok((head + rest, q)),
        Err(o) => Err(o),
    }
}

/// Appends the bytes of `s` to `out`.
pub(crate) fn append(out: &mut Vec<u8>, s: &[u8])
    ensures
        final(out)@ == old(out)@ + s@,
{
    out.extend_from_slice(s);
}

/// Appends the bytes of the entry with the given key, kind and value.
pub fn write_entry(out: &mut Vec<u8>, kind: Kind, key: &[u8], raw: &[u8])
    ensures
        final(out)@ == old(out)@ + entry_bytes(EntryView { key: key@, kind, raw: raw@ }),
{
    out.push(marker_of(kind));
    append(out, key);
    out.push(NUL);
    append(out, raw);
    match kind {
        Kind::Text => {
            out.push(NUL);
        },
        _ => {},
    }
    assert(out@ =~= old(out)@ + entry_bytes(EntryView { key: key@, kind, raw: raw@ }));
}

} // verus!
