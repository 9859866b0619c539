//! A look into the entries that a shortcut keeps as read: the flags and the
//! tags of its record.

use vstd::bytes::{spec_u32_from_le_bytes, u32_from_le_bytes};
use vstd::prelude::*;
use vstd::string::StringSliceAdditionalSpecFns;
use crate::shortcut::{Shortcut, ShortcutView, Slot, SlotView};
use crate::text::bytes_eq;
use crate::wire::{
    entries_after, entries_from, lemma_entry_at_bounds, read_entry, Entry, EntryView, Kind, END,
};

verus! {

/// The first entry kept as read, from place `i` on, that has the given key
/// and kind.
pub open spec fn kept_from(layout: Seq<SlotView>, key: Seq<u8>, kind: Kind, i: int) -> Option<
    EntryView,
>
    decreases layout.len() - i,
{
    if i < 0 || i >= layout.len() {
        None
    } else {
        match layout[i] {
            SlotView::Opaque(e) => if e.key == key && e.kind == kind {
                Some(e)
            } else {
                kept_from(layout, key, kind, i + 1)
            },
            SlotView::Known(_) => kept_from(layout, key, kind, i + 1),
        }
    }
}

/// The first entry kept as read that has the given key and kind.
pub open spec fn kept(layout: Seq<SlotView>, key: Seq<u8>, kind: Kind) -> Option<EntryView> {
    kept_from(layout, key, kind, 0)
}

/// The number that an integer entry holds; zero where there is no entry and
/// where its value is not four bytes long.
pub open spec fn number_of(e: Option<EntryView>) -> u32 {
    match e {
        Some(e) => if e.raw.len() == 4 {
            spec_u32_from_le_bytes(e.raw)
        } else {
            0
        },
        None => 0,
    }
}

/// The values of the texts among the entries, in their order.
pub open spec fn texts(es: Seq<EntryView>) -> Seq<Seq<u8>>
    decreases es.len(),
{
    if es.len() == 0 {
        Seq::empty()
    } else if es.last().kind == Kind::Text {
        texts(es.drop_last()).push(es.last().raw)
    } else {
        texts(es.drop_last())
    }
}

/// The values of the texts in a container body, in the order of the bytes;
/// none where the body cannot be read.
pub open spec fn texts_in(body: Seq<u8>) -> Seq<Seq<u8>> {
    match entries_from(body, 0) {
        Ok((es, _)) => texts(es),
        Err(_) => Seq::empty(),
    }
}

/// The views of a run of byte strings.
pub open spec fn byte_views(v: Seq<Vec<u8>>) -> Seq<Seq<u8>> {
    Seq::new(v.len(), |i: int| v[i]@)
}

impl ShortcutView {
    /// The number under the given key among the entries kept as read; zero
    /// where there is none.
    pub open spec fn number(self, key: Seq<u8>) -> u32 {
        number_of(kept(self.layout, key, Kind::Int))
    }

    /// Whether the shortcut is hidden.
    pub open spec fn is_hidden(self) -> bool {
        self.number("IsHidden".spec_bytes()) != 0
    }

    /// Whether desktop configuration is allowed.
    pub open spec fn allow_desktop_config(self) -> bool {
        self.number("AllowDesktopConfig".spec_bytes()) != 0
    }

    /// Whether the overlay is allowed.
    pub open spec fn allow_overlay(self) -> bool {
        self.number("AllowOverlay".spec_bytes()) != 0
    }

    /// The tags, in their order.
    pub open spec fn tags(self) -> Seq<Seq<u8>> {
        match kept(self.layout, "tags".spec_bytes(), Kind::Container) {
            Some(e) => texts_in(e.raw),
            None => Seq::empty(),
        }
    }
}

/// Places that do not keep an entry with the key and the kind are passed
/// over: the first such entry from `i` on is the first from `j` on, where no
/// place between the two keeps one.
pub proof fn lemma_kept_skips(layout: Seq<SlotView>, key: Seq<u8>, kind: Kind, i: int, j: int)
    requires
        0 <= i <= j <= layout.len(),
        forall|n: int|
            i <= n < j ==> match #[trigger] layout[n] {
                SlotView::Opaque(e) => e.key != key || e.kind != kind,
                SlotView::Known(_) => true,
            },
    ensures
        kept_from(layout, key, kind, i) == kept_from(layout, key, kind, j),
    decreases j - i,
{
    if i < j {
        lemma_kept_skips(layout, key, kind, i + 1, j);
    }
}

/// Reads the values of the texts in a container body.
pub fn read_texts(body: &[u8]) -> (out: Vec<Vec<u8>>)
    ensures
        byte_views(out@) == texts_in(body@),
{
    let mut out: Vec<Vec<u8>> = Vec::new();
    let ghost mut seen: Seq<EntryView> = Seq::empty();
    let mut p: usize = 0;
    assert(byte_views(out@) =~= texts(seen));
    loop
        invariant
            p <= body@.len(),
            entries_from(body@, 0) == entries_after(seen, entries_from(body@, p as int)),
            byte_views(out@) == texts(seen),
        decreases body@.len() - p,
    {
        if p >= body.len() {
            let none: Vec<Vec<u8>> = Vec::new();
            assert(byte_views(none@) =~= Seq::<Seq<u8>>::empty());
            return none;
        }
        if body[p] == END {
            assert(seen + Seq::<EntryView>::empty() =~= seen);
            return out;
        }
        match read_entry(body, p) {
            Err(_) => {
                let none: Vec<Vec<u8>> = Vec::new();
                assert(byte_views(none@) =~= Seq::<Seq<u8>>::empty());
                return none;
            },
            Ok((e, next)) => {
                proof {
                    lemma_entry_at_bounds(body@, p as int);
                    if let Ok((tail, r)) = entries_from(body@, next as int) {
                        assert((seen + seq![e@]) + tail =~= seen + (seq![e@] + tail));
                    }
                    assert(seen.push(e@) =~= seen + seq![e@]);
                    assert(seen.push(e@).drop_last() =~= seen);
                }
                let ghost before = out@;
                match e.kind {
                    Kind::Text => {
                        out.push(e.raw);
                        assert(byte_views(before.push(e.raw)) =~= byte_views(before).push(e@.raw));
                    },
                    _ => {},
                }
                proof {
                    seen = seen.push(e@);
                }
                p = next;
            },
        }
    }
}

impl Shortcut {
    /// The first entry kept as read that has the given key and kind.
    pub fn kept(&self, key: &[u8], kind: Kind) -> (found: Option<&Entry>)
        ensures
            match found {
                Some(e) => kept(self@.layout, key@, kind) == Some(e@),
                None => kept(self@.layout, key@, kind) is None,
            },
    {
        let mut i: usize = 0;
        while i < self.layout.len()
            invariant
                i <= self.layout@.len(),
                kept(self@.layout, key@, kind) == kept_from(self@.layout, key@, kind, i as int),
            decreases self.layout@.len() - i,
        {
            assert(self@.layout[i as int] == self.layout@[i as int]@);
            match &self.layout[i] {
                Slot::Opaque(e) => {
                    if e.kind == kind && bytes_eq(e.key.as_slice(), key) {
                        return Some(e);
                    }
                },
                Slot::Known(_) => {},
            }
            i += 1;
        }
        None
    }

    /// The number under the given key among the entries kept as read; zero
    /// where there is none.
    pub fn number(&self, key: &[u8]) -> (n: u32)
        ensures
            n == self@.number(key@),
    {
        match self.kept(key, Kind::Int) {
            Some(e) => if e.raw.len() == 4 {
                u32_from_le_bytes(e.raw.as_slice())
            } else {
                0
            },
            None => 0,
        }
    }

    /// Whether the shortcut is hidden.
    pub fn is_hidden(&self) -> (hidden: bool)
        ensures
            hidden == self@.is_hidden(),
    {
        self.number("IsHidden".as_bytes()) != 0
    }

    /// Whether desktop configuration is allowed.
    pub fn allow_desktop_config(&self) -> (allowed: bool)
        ensures
            allowed == self@.allow_desktop_config(),
    {
        self.number("AllowDesktopConfig".as_bytes()) != 0
    }

    /// Whether the overlay is allowed.
    pub fn allow_overlay(&self) -> (allowed: bool)
        ensures
            allowed == self@.allow_overlay(),
    {
        self.number("AllowOverlay".as_bytes()) != 0
    }

    /// The tags, in their order.
    pub fn tags(&self) -> (tags: Vec<Vec<u8>>)
        ensures
            byte_views(tags@) == self@.tags(),
    {
        match self.kept("tags".as_bytes(), Kind::Container) {
            Some(e) => read_texts(e.raw.as_slice()),
            None => {
                let none: Vec<Vec<u8>> = Vec::new();
                assert(byte_views(none@) =~= Seq::<Seq<u8>>::empty());
                none
            },
        }
    }
}

} // verus!
