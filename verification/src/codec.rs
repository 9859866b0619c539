//! The shortcuts file: one container, named, that holds one container for
//! each shortcut, in order; and after it the sentinel that closes the file.

use vstd::prelude::*;
use vstd::string::StringSliceAdditionalSpecFns;
use crate::error::ShortcutError;
use crate::fidelity::{lemma_entries_interpret, lemma_entries_wf, lemma_interpret_entries};
use crate::shortcut::{all_wf, interpret, shortcut_views, Placed, Shortcut, ShortcutView};
use crate::text::{
    copy_range, find_nul, lemma_text_end, lemma_text_end_of, lemma_window_part, nul_free, text_end,
    NUL,
};
use crate::wire::{
    append, entries_after, entries_bytes, entries_from, lemma_entries_from_bounds,
    lemma_entries_from_bytes, lemma_entries_parse, lemma_entry_at_bounds, read_entry, EntryView,
    END,
};

verus! {

/// The shortcut whose record starts at `p`, with the position after the
/// record; or the position of the first token that cannot be read. A record
/// is a container: anything else at `p` cannot be read.
pub open spec fn record_at(b: Seq<u8>, p: int) -> Result<(ShortcutView, int), int> {
    if p < 0 || p >= b.len() {
        Err(b.len() as int)
    } else if b[p] != 0 {
        Err(p)
    } else {
        let k = text_end(b, p + 1);
        if k >= b.len() {
            Err(p + 1)
        } else {
            match entries_from(b, k + 1) {
                Err(o) => Err(o),
                Ok((es, q)) => Ok((interpret(b.subrange(p + 1, k), es), q)),
            }
        }
    }
}

/// The shortcuts whose records start at `p`, in the order of the bytes, with
/// the position after the sentinel that closes their container; or the
/// position of the first token that cannot be read.
pub open spec fn records_from(b: Seq<u8>, p: int) -> Result<(Seq<ShortcutView>, int), int>
    decreases b.len() - p,
{
    if p < 0 || p >= b.len() {
        Err(b.len() as int)
    } else if b[p] == END {
        Ok((Seq::empty(), p + 1))
    } else {
        match record_at(b, p) {
            Err(o) => Err(o),
            Ok((s, q)) => {
                proof {
                    lemma_record_at_bounds(b, p);
                }
                match records_from(b, q) {
                    Err(o) => Err(o),
                    Ok((rest, r)) => Ok((seq![s] + rest, r)),
                }
            },
        }
    }
}

/// What a buffer decodes to: the shortcuts of the file, in the order of the
/// bytes, or the position of the first token that cannot be read. The file is
/// one named container of records, then the closing sentinel, then nothing.
pub open spec fn decoding(b: Seq<u8>) -> Result<Seq<ShortcutView>, int> {
    if b.len() == 0 || b[0] != 0 {
        Err(0)
    } else {
        let k = text_end(b, 1);
        if k >= b.len() {
            Err(1)
        } else {
            match records_from(b, k + 1) {
                Err(o) => Err(o),
                Ok((ss, q)) => {
                    if q >= b.len() || b[q] != END {
                        Err(q)
                    } else if q + 1 < b.len() {
                        Err(q + 1)
                    } else {
                        Ok(ss)
                    }
                },
            }
        }
    }
}

/// The name of the container of records in a buffer that decodes.
pub open spec fn root_name(b: Seq<u8>) -> Seq<u8> {
    b.subrange(1, text_end(b, 1))
}

/// The name under which the container of records is written.
pub open spec fn root_key() -> Seq<u8> {
    "shortcuts".spec_bytes()
}

/// The bytes of the record of one shortcut: the container marker, the order
/// as the key, the entries, the sentinel.
pub open spec fn record_bytes(s: ShortcutView) -> Seq<u8> {
    seq![0u8] + s.order + seq![NUL] + entries_bytes(s.entries()) + seq![END]
}

/// The bytes of the records of a run of shortcuts, one after the other.
pub open spec fn records_bytes(ss: Seq<ShortcutView>) -> Seq<u8>
    decreases ss.len(),
{
    if ss.len() == 0 {
        Seq::empty()
    } else {
        record_bytes(ss[0]) + records_bytes(ss.drop_first())
    }
}

/// The bytes of a file whose container of records has the given name.
pub open spec fn framed(name: Seq<u8>, ss: Seq<ShortcutView>) -> Seq<u8> {
    seq![0u8] + name + seq![NUL] + records_bytes(ss) + seq![END, END]
}

/// What a run of shortcuts encodes to.
pub open spec fn encoding(ss: Seq<ShortcutView>) -> Seq<u8> {
    framed(root_key(), ss)
}

/// A record that can be read ends after its start and inside the buffer; one
/// that cannot fails at a position from its start on, inside the buffer or at
/// its end.
pub proof fn lemma_record_at_bounds(b: Seq<u8>, p: int)
    requires
        0 <= p <= b.len(),
    ensures
        match record_at(b, p) {
            Ok((_, q)) => p < q <= b.len(),
            Err(o) => p <= o <= b.len(),
        },
{
    if p < b.len() {
        lemma_text_end(b, p + 1);
        let k = text_end(b, p + 1);
        if k < b.len() {
            lemma_entries_from_bounds(b, k + 1);
        }
    }
}

/// Reads the record that starts at `p`: the shortcut and the position after
/// the record, or the offset of the first token that cannot be read.
pub fn read_record(b: &[u8], p: usize) -> (r: Result<(Shortcut, usize), usize>)
    ensures
        match r {
            Ok((s, q)) => record_at(b@, p as int) == Ok::<(ShortcutView, int), int>(
                (s@, q as int),
            ),
            Err(o) => record_at(b@, p as int) == Err::<(ShortcutView, int), int>(o as int),
        },
{
    if p >= b.len() {
        return Err(b.len());
    }
    if b[p] != 0 {
        return Err(p);
    }
    let k = find_nul(b, p + 1);
    if k >= b.len() {
        return Err(p + 1);
    }
    proof {
        lemma_text_end(b@, p + 1);
    }
    let mut s = Shortcut::blank(copy_range(b, p + 1, k));
    let mut placed = Placed::none();
    let ghost order = b@.subrange(p + 1, k as int);
    let ghost mut seen: Seq<EntryView> = Seq::empty();
    let mut q: usize = k + 1;
    loop
        invariant
            p < b@.len(),
            b@[p as int] == 0,
            k == text_end(b@, p + 1),
            k < q <= b@.len(),
            order == b@.subrange(p + 1, k as int),
            entries_from(b@, k + 1) == entries_after(seen, entries_from(b@, q as int)),
            s@ == interpret(order, seen),
            placed.tracks(s@.layout),
        decreases b@.len() - q,
    {
        if q >= b.len() {
            return Err(b.len());
        }
        if b[q] == END {
            assert(seen + Seq::<EntryView>::empty() =~= seen);
            return Ok((s, q + 1));
        }
        match read_entry(b, q) {
            Err(o) => {
                return Err(o);
            },
            Ok((e, next)) => {
                proof {
                    lemma_entry_at_bounds(b@, q as int);
                    if let Ok((tail, r)) = entries_from(b@, next as int) {
                        assert((seen + seq![e@]) + tail =~= seen + (seq![e@] + tail));
                    }
                    assert(seen.push(e@) =~= seen + seq![e@]);
                    assert(seen.push(e@).drop_last() =~= seen);
                }
                s.absorb(e, &mut placed);
                proof {
                    seen = seen.push(e@);
                }
                q = next;
            },
        }
    }
}

/// What reading a run of records gives once the shortcuts in `head` have been
/// read and `tail` is what reading the rest gives.
pub open spec fn records_after(
    head: Seq<ShortcutView>,
    tail: Result<(Seq<ShortcutView>, int), int>,
) -> Result<(Seq<ShortcutView>, int), int> {
    match tail {
        Ok((rest, q)) => Ok((head + rest, q)),
        Err(o) => Err(o),
    }
}

/// Reads the records that start at `start`: the shortcuts in the order of
/// the bytes and the position after the sentinel that closes their container,
/// or the offset of the first token that cannot be read.
pub fn read_records(b: &[u8], start: usize) -> (r: Result<(Vec<Shortcut>, usize), usize>)
    ensures
        match r {
            Ok((ss, q)) => records_from(b@, start as int) == Ok::<(Seq<ShortcutView>, int), int>(
                (shortcut_views(ss@), q as int),
            ),
            Err(o) => records_from(b@, start as int) == Err::<(Seq<ShortcutView>, int), int>(
                o as int,
            ),
        },
{
    if start >= b.len() {
        return Err(b.len());
    }
    let mut ss: Vec<Shortcut> = Vec::new();
    let mut p: usize = start;
    loop
        invariant
            p <= b@.len(),
            records_from(b@, start as int) == records_after(
                shortcut_views(ss@),
                records_from(b@, p as int),
            ),
        decreases b@.len() - p,
    {
        if p >= b.len() {
            return Err(b.len());
        }
        if b[p] == END {
            assert(shortcut_views(ss@) + Seq::<ShortcutView>::empty() =~= shortcut_views(ss@));
            return Ok((ss, p + 1));
        }
        match read_record(b, p) {
            Err(o) => {
                return Err(o);
            },
            Ok((s, q)) => {
                proof {
                    lemma_record_at_bounds(b@, p as int);
                    assert(shortcut_views(ss@.push(s)) =~= shortcut_views(ss@) + seq![s@]);
                    if let Ok((tail, r)) = records_from(b@, q as int) {
                        assert((shortcut_views(ss@) + seq![s@]) + tail =~= shortcut_views(ss@) + (
                        seq![s@] + tail));
                    }
                }
                ss.push(s);
                p = q;
            },
        }
    }
}

/// Decodes a shortcuts file: its shortcuts in the order of the bytes,
/// whatever their order values say; or `MalformedInput` with the offset of
/// the first token that cannot be read.
pub fn decode(bytes: &[u8]) -> (r: Result<Vec<Shortcut>, ShortcutError>)
    ensures
        match decoding(bytes@) {
            Ok(ss) => r is Ok && shortcut_views(r->Ok_0@) == ss && all_wf(ss),
            Err(o) => r == Err::<Vec<Shortcut>, ShortcutError>(
                ShortcutError::MalformedInput { offset: o as usize },
            ) && 0 <= o <= bytes@.len(),
        },
{
    proof {
        if decoding(bytes@) is Ok {
            lemma_encode_decode(bytes@);
        }
    }
    if bytes.len() == 0 || bytes[0] != 0 {
        return Err(ShortcutError::MalformedInput { offset: 0 });
    }
    let k = find_nul(bytes, 1);
    if k >= bytes.len() {
        return Err(ShortcutError::MalformedInput { offset: 1 });
    }
    match read_records(bytes, k + 1) {
        Err(o) => {
            proof {
                lemma_records_from_bounds(bytes@, k + 1);
            }
            Err(ShortcutError::MalformedInput { offset: o })
        },
        Ok((ss, q)) => {
            proof {
                lemma_records_from_bounds(bytes@, k + 1);
            }
            if q >= bytes.len() || bytes[q] != END {
                Err(ShortcutError::MalformedInput { offset: q })
            } else if q + 1 < bytes.len() {
                Err(ShortcutError::MalformedInput { offset: q + 1 })
            } else {
                Ok(ss)
            }
        },
    }
}

/// A run of records that can be read ends after its start and inside the
/// buffer; one that cannot fails inside the buffer or at its end.
pub proof fn lemma_records_from_bounds(b: Seq<u8>, p: int)
    requires
        0 <= p <= b.len(),
    ensures
        match records_from(b, p) {
            Ok((_, q)) => p < q <= b.len(),
            Err(o) => p <= o <= b.len(),
        },
    decreases b.len() - p,
{
    if p < b.len() && b[p] != END {
        lemma_record_at_bounds(b, p);
        if let Ok((_, q)) = record_at(b, p) {
            lemma_records_from_bounds(b, q);
        }
    }
}

/// Appends the record of one shortcut.
pub fn write_record(out: &mut Vec<u8>, s: &Shortcut)
    ensures
        final(out)@ == old(out)@ + record_bytes(s@),
{
    out.push(0);
    append(out, s.order.as_slice());
    out.push(NUL);
    s.write_entries(out);
    out.push(END);
    assert(out@ =~= old(out)@ + record_bytes(s@));
}

/// Encodes a run of shortcuts as a shortcuts file. Each record is keyed by
/// the order that its shortcut holds.
pub fn encode(shortcuts: &Vec<Shortcut>) -> (bytes: Vec<u8>)
    ensures
        bytes@ == encoding(shortcut_views(shortcuts@)),
{
    let mut out: Vec<u8> = Vec::new();
    out.push(0);
    append(&mut out, "shortcuts".as_bytes());
    out.push(NUL);
    let ghost head = out@;
    let ghost ss = shortcut_views(shortcuts@);
    let mut i: usize = 0;
    assert(ss.take(0) =~= Seq::<ShortcutView>::empty());
    assert(out@ =~= head + records_bytes(ss.take(0)));
    while i < shortcuts.len()
        invariant
            i <= shortcuts@.len(),
            ss == shortcut_views(shortcuts@),
            out@ == head + records_bytes(ss.take(i as int)),
        decreases shortcuts@.len() - i,
    {
        write_record(&mut out, &shortcuts[i]);
        proof {
            assert(ss.take(i + 1) =~= ss.take(i as int).push(ss[i as int]));
            lemma_records_bytes_push(ss.take(i as int), ss[i as int]);
            assert(out@ =~= head + records_bytes(ss.take(i + 1)));
        }
        i += 1;
    }
    assert(ss.take(i as int) =~= ss);
    out.push(END);
    out.push(END);
    assert(out@ =~= encoding(ss));
    out
}

/// Writing one run of records after another gives the bytes of the first
/// followed by the bytes of the second.
pub proof fn lemma_records_bytes_concat(x: Seq<ShortcutView>, y: Seq<ShortcutView>)
    ensures
        records_bytes(x + y) == records_bytes(x) + records_bytes(y),
    decreases x.len(),
{
    if x.len() == 0 {
        assert(x + y =~= y);
        assert(records_bytes(x) + records_bytes(y) =~= records_bytes(y));
    } else {
        lemma_records_bytes_concat(x.drop_first(), y);
        assert((x + y).drop_first() =~= x.drop_first() + y);
        assert(records_bytes(x + y) =~= records_bytes(x) + records_bytes(y));
    }
}

/// Writing a run of records with one more record at its end gives the bytes
/// of the run followed by the bytes of the record.
pub proof fn lemma_records_bytes_push(ss: Seq<ShortcutView>, s: ShortcutView)
    ensures
        records_bytes(ss.push(s)) == records_bytes(ss) + record_bytes(s),
{
    let one = seq![s];
    assert(one[0] == s);
    assert(one.drop_first().len() == 0);
    assert(records_bytes(one.drop_first()) =~= Seq::<u8>::empty());
    assert(records_bytes(one) =~= record_bytes(s));
    assert(ss.push(s) =~= ss + one);
    lemma_records_bytes_concat(ss, one);
}

/// The bytes that a record was read from are the bytes that writing its
/// shortcut gives, and the shortcut can be written and read back.
pub proof fn lemma_record_at_bytes(b: Seq<u8>, p: int)
    requires
        0 <= p,
        record_at(b, p) is Ok,
    ensures
        ({
            let (s, q) = record_at(b, p)->Ok_0;
            &&& p < q <= b.len()
            &&& b.subrange(p, q) == record_bytes(s)
            &&& s.wf()
            &&& b[p] != END
        }),
{
    let (s, q) = record_at(b, p)->Ok_0;
    let k = text_end(b, p + 1);
    let order = b.subrange(p + 1, k);
    lemma_text_end(b, p + 1);
    lemma_entries_from_bytes(b, k + 1);
    let es = entries_from(b, k + 1)->Ok_0.0;
    lemma_interpret_entries(order, es);
    let w = record_bytes(s);
    let tail = entries_bytes(es) + seq![END];
    assert(w =~= seq![0u8] + order + seq![NUL] + tail);
    assert(b.subrange(p, q) =~= seq![0u8] + order + seq![NUL] + b.subrange(k + 1, q));
}

/// The bytes that a run of records was read from are the bytes that writing
/// its shortcuts gives, followed by the sentinel; and each of the shortcuts
/// can be written and read back.
pub proof fn lemma_records_from_bytes(b: Seq<u8>, p: int)
    requires
        0 <= p,
        records_from(b, p) is Ok,
    ensures
        ({
            let (ss, q) = records_from(b, p)->Ok_0;
            &&& p < q <= b.len()
            &&& b.subrange(p, q) == records_bytes(ss) + seq![END]
            &&& all_wf(ss)
        }),
    decreases b.len() - p,
{
    let (ss, q) = records_from(b, p)->Ok_0;
    if b[p] == END {
        assert(b.subrange(p, q) =~= records_bytes(ss) + seq![END]);
    } else {
        let (s, m) = record_at(b, p)->Ok_0;
        lemma_record_at_bytes(b, p);
        lemma_records_from_bytes(b, m);
        let (rest, r) = records_from(b, m)->Ok_0;
        assert(ss == seq![s] + rest);
        assert(ss.drop_first() =~= rest);
        assert(b.subrange(p, q) =~= b.subrange(p, m) + b.subrange(m, q));
        assert(b.subrange(p, q) =~= records_bytes(ss) + seq![END]);
    }
}

/// A shortcut that can be written is read back from the bytes of its record,
/// wherever they stand in a buffer.
pub proof fn lemma_record_parses(b: Seq<u8>, p: int, s: ShortcutView)
    requires
        0 <= p,
        s.wf(),
        p + record_bytes(s).len() <= b.len(),
        b.subrange(p, p + record_bytes(s).len()) == record_bytes(s),
    ensures
        record_at(b, p) == Ok::<(ShortcutView, int), int>((s, p + record_bytes(s).len())),
        b[p] != END,
{
    let w = record_bytes(s);
    let es = s.entries();
    let k: int = 1 + s.order.len() as int;
    let v: int = k + 1 + entries_bytes(es).len() as int;
    assert(w.len() == v + 1);
    assert(b[p] == w[0]) by {
        assert(b.subrange(p, p + w.len())[0] == b[p]);
    }
    assert(b[p + k] == w[k]) by {
        assert(b.subrange(p, p + w.len())[k] == b[p + k]);
    }
    assert(b[p + v] == w[v]) by {
        assert(b.subrange(p, p + w.len())[v] == b[p + v]);
    }
    lemma_window_part(b, p, w, 1, k);
    assert(w.subrange(1, k) =~= s.order);
    lemma_text_end_of(b, p + 1, s.order);
    lemma_window_part(b, p, w, k + 1, v);
    assert(w.subrange(k + 1, v) =~= entries_bytes(es));
    lemma_entries_wf(s);
    lemma_entries_parse(b, p + k + 1, es);
    lemma_entries_interpret(s);
}

/// A run of shortcuts that can be written is read back from the bytes of its
/// records followed by the sentinel, wherever they stand in a buffer.
pub proof fn lemma_records_parse(b: Seq<u8>, p: int, ss: Seq<ShortcutView>)
    requires
        0 <= p,
        all_wf(ss),
        p + records_bytes(ss).len() < b.len(),
        b.subrange(p, p + records_bytes(ss).len()) == records_bytes(ss),
        b[p + records_bytes(ss).len()] == END,
    ensures
        records_from(b, p) == Ok::<(Seq<ShortcutView>, int), int>(
            (ss, p + records_bytes(ss).len() + 1),
        ),
    decreases ss.len(),
{
    let w = records_bytes(ss);
    if ss.len() == 0 {
        assert(records_from(b, p)->Ok_0.0 =~= ss);
    } else {
        let s = ss[0];
        let n = record_bytes(s).len() as int;
        let rest = ss.drop_first();
        assert(s.wf());
        assert(all_wf(rest)) by {
            assert forall|i: int| 0 <= i < rest.len() implies (#[trigger] rest[i]).wf() by {
                assert(rest[i] == ss[i + 1]);
            }
        }
        lemma_window_part(b, p, w, 0, n);
        assert(w.subrange(0, n) =~= record_bytes(s));
        lemma_record_parses(b, p, s);
        lemma_window_part(b, p, w, n, w.len() as int);
        assert(w.subrange(n, w.len() as int) =~= records_bytes(rest));
        lemma_records_parse(b, p + n, rest);
        assert(seq![s] + rest =~= ss);
    }
}

/// A file written under any name without a terminator, from shortcuts that
/// can be written, decodes to those shortcuts.
pub proof fn lemma_decoding_of_framed(name: Seq<u8>, ss: Seq<ShortcutView>)
    requires
        nul_free(name),
        all_wf(ss),
    ensures
        decoding(framed(name, ss)) == Ok::<Seq<ShortcutView>, int>(ss),
        root_name(framed(name, ss)) == name,
{
    let b = framed(name, ss);
    let k: int = 1 + name.len() as int;
    let v: int = k + 1 + records_bytes(ss).len() as int;
    assert(b.len() == v + 2);
    assert(b.subrange(1, k) =~= name);
    lemma_text_end_of(b, 1, name);
    assert(b.subrange(k + 1, v) =~= records_bytes(ss));
    lemma_records_parse(b, k + 1, ss);
}

/// Round trip from values: shortcuts that can be written decode, from the
/// bytes that they encode to, to themselves, order values included.
pub proof fn lemma_decode_encode(ss: Seq<ShortcutView>)
    requires
        all_wf(ss),
    ensures
        decoding(encoding(ss)) == Ok::<Seq<ShortcutView>, int>(ss),
{
    lemma_root_key();
    lemma_decoding_of_framed(root_key(), ss);
}

/// The name under which the container of records is written holds no
/// terminator.
pub proof fn lemma_root_key()
    ensures
        nul_free(root_key()),
{
    reveal_strlit("shortcuts");
    vstd::string::is_ascii_spec_bytes("shortcuts");
}

/// Round trip from bytes: a buffer that decodes is the file that its
/// shortcuts encode to under the name that the buffer gives its container of
/// records, byte for byte: every entry, known or not, stands where it stood.
/// The shortcuts can be written and read back.
pub proof fn lemma_encode_decode(b: Seq<u8>)
    requires
        decoding(b) is Ok,
    ensures
        all_wf(decoding(b)->Ok_0),
        nul_free(root_name(b)),
        b == framed(root_name(b), decoding(b)->Ok_0),
        root_name(b) == root_key() ==> encoding(decoding(b)->Ok_0) == b,
        decoding(encoding(decoding(b)->Ok_0)) == decoding(b),
{
    let ss = decoding(b)->Ok_0;
    let k = text_end(b, 1);
    lemma_text_end(b, 1);
    lemma_records_from_bytes(b, k + 1);
    let q = records_from(b, k + 1)->Ok_0.1;
    assert(b =~= seq![0u8] + root_name(b) + seq![NUL] + b.subrange(k + 1, q) + seq![END]);
    assert(b =~= framed(root_name(b), ss));
    lemma_decode_encode(ss);
}

/// A file that has lost its last byte, the sentinel that closes it, does not
/// decode: it fails at its end, the first position after its last complete
/// token.
pub proof fn lemma_missing_terminator(b: Seq<u8>)
    requires
        decoding(b) is Ok,
    ensures
        decoding(b.drop_last()) == Err::<Seq<ShortcutView>, int>(b.len() - 1),
{
    lemma_truncated(b, b.len() - 1);
}

/// No proper prefix of a file that decodes does: a file cut short fails, at a
/// position inside what is left or at its end. Where exactly the last byte is
/// missing, it fails at its end.
pub proof fn lemma_truncated(b: Seq<u8>, n: int)
    requires
        decoding(b) is Ok,
        0 <= n < b.len(),
    ensures
        decoding(b.take(n)) is Err,
        0 <= decoding(b.take(n))->Err_0 <= n,
        n == b.len() - 1 ==> decoding(b.take(n))->Err_0 == n,
{
    let c = b.take(n);
    let ss = decoding(b)->Ok_0;
    let k = text_end(b, 1);
    lemma_text_end(b, 1);
    lemma_records_from_bytes(b, k + 1);
    let q = records_from(b, k + 1)->Ok_0.1;
    assert(q == b.len() - 1);
    if decoding(c) is Ok {
        let tt = decoding(c)->Ok_0;
        let kc = text_end(c, 1);
        lemma_text_end(c, 1);
        lemma_records_from_bytes(c, kc + 1);
        let qc = records_from(c, kc + 1)->Ok_0.1;
        assert(qc == n - 1);
        assert(b.subrange(1, kc) =~= c.subrange(1, kc));
        assert(b[kc] == c[kc]);
        lemma_text_end_of(b, 1, c.subrange(1, kc));
        assert(k == kc);
        let w = records_bytes(tt);
        let body = c.subrange(k + 1, qc);
        assert(body.len() == w.len() + 1);
        assert(body[w.len() as int] == END);
        assert(body.subrange(0, w.len() as int) =~= w);
        assert(b.subrange(k + 1, k + 1 + w.len()) =~= body.subrange(0, w.len() as int));
        assert(b[k + 1 + w.len()] == c[k + 1 + w.len()]);
        lemma_records_parse(b, k + 1, tt);
        assert(false);
    }
    lemma_decoding_fails_inside(c);
    if n == b.len() - 1 {
        let w = records_bytes(ss);
        let body = b.subrange(k + 1, q);
        assert(body.len() == w.len() + 1);
        assert(body[w.len() as int] == END);
        assert(body.subrange(0, w.len() as int) =~= w);
        assert(c.subrange(k + 1, k + 1 + w.len()) =~= body.subrange(0, w.len() as int));
        assert(c[k + 1 + w.len()] == b[k + 1 + w.len()]);
        assert(c.subrange(1, k) =~= b.subrange(1, k));
        assert(c[k] == b[k]);
        lemma_text_end_of(c, 1, b.subrange(1, k));
        lemma_records_parse(c, k + 1, ss);
    }
}

/// A buffer that does not decode fails at a position inside it or at its end.
pub proof fn lemma_decoding_fails_inside(b: Seq<u8>)
    ensures
        match decoding(b) {
            Ok(_) => true,
            Err(o) => 0 <= o <= b.len(),
        },
{
    if b.len() > 0 && b[0] == 0 {
        lemma_text_end(b, 1);
        let k = text_end(b, 1);
        if k < b.len() {
            lemma_records_from_bounds(b, k + 1);
        }
    }
}

} // verus!
