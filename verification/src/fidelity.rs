//! What reading a record keeps: the laws that tie a shortcut to the entries
//! of its record.

use vstd::bytes::{spec_u32_from_le_bytes, spec_u32_to_le_bytes};
use vstd::prelude::*;
use crate::shortcut::{
    blank, distinct_places, field_key, field_kind, field_of, holds, interpret, FieldId,
    ShortcutView, SlotView,
};
use crate::text::nul_free;
use crate::wire::{entries_wf, entry_wf, EntryView};

verus! {

impl ShortcutView {
    /// The part of this shortcut that its first `n` places make up: the
    /// layout cut after them, and of the fields those that have a place
    /// there, the others at their defaults.
    pub open spec fn upto(self, n: int) -> ShortcutView {
        let layout = self.layout.take(n);
        let rest = blank(self.order);
        ShortcutView {
            order: self.order,
            app_id: if holds(layout, FieldId::AppId) {
                self.app_id
            } else {
                rest.app_id
            },
            app_name: if holds(layout, FieldId::AppName) {
                self.app_name
            } else {
                rest.app_name
            },
            executable: if holds(layout, FieldId::Executable) {
                self.executable
            } else {
                rest.executable
            },
            start_dir: if holds(layout, FieldId::StartDir) {
                self.start_dir
            } else {
                rest.start_dir
            },
            icon: if holds(layout, FieldId::Icon) {
                self.icon
            } else {
                rest.icon
            },
            shortcut_path: if holds(layout, FieldId::ShortcutPath) {
                self.shortcut_path
            } else {
                rest.shortcut_path
            },
            launch_options: if holds(layout, FieldId::LaunchOptions) {
                self.launch_options
            } else {
                rest.launch_options
            },
            layout,
        }
    }
}

/// The keys of the known fields hold no terminator and differ from one
/// another.
pub proof fn lemma_field_keys()
    ensures
        forall|id: FieldId| nul_free(#[trigger] field_key(id)),
        forall|a: FieldId, b: FieldId|
            #[trigger] field_key(a) == #[trigger] field_key(b) ==> a == b,
{
    reveal_strlit("appid");
    reveal_strlit("appname");
    reveal_strlit("exe");
    reveal_strlit("StartDir");
    reveal_strlit("icon");
    reveal_strlit("ShortcutPath");
    reveal_strlit("LaunchOptions");
    vstd::string::is_ascii_spec_bytes("appid");
    vstd::string::is_ascii_spec_bytes("appname");
    vstd::string::is_ascii_spec_bytes("exe");
    vstd::string::is_ascii_spec_bytes("StartDir");
    vstd::string::is_ascii_spec_bytes("icon");
    vstd::string::is_ascii_spec_bytes("ShortcutPath");
    vstd::string::is_ascii_spec_bytes("LaunchOptions");
    assert forall|a: FieldId, b: FieldId| #[trigger]
        field_key(a) == #[trigger] field_key(b) implies a == b by {
        if a != b {
            if field_key(a).len() == field_key(b).len() {
                assert(field_key(a)[0] != field_key(b)[0]);
            }
        }
    }
}

/// A layout with one more place holds what it held before, and the field of
/// the new place.
pub proof fn lemma_holds_push(layout: Seq<SlotView>, slot: SlotView, id: FieldId)
    ensures
        holds(layout.push(slot), id) <==> holds(layout, id) || slot == SlotView::Known(id),
{
    let longer = layout.push(slot);
    if holds(layout, id) {
        let i = choose|i: int| 0 <= i < layout.len() && layout[i] == SlotView::Known(id);
        assert(longer[i] == SlotView::Known(id));
    }
    if slot == SlotView::Known(id) {
        assert(longer[layout.len() as int] == SlotView::Known(id));
    }
    if holds(longer, id) {
        let i = choose|i: int| 0 <= i < longer.len() && longer[i] == SlotView::Known(id);
        if i < layout.len() {
            assert(layout[i] == SlotView::Known(id));
        }
    }
}

/// An entry that holds a known field has the key and the kind of that field,
/// and bytes that the field can be set from.
pub proof fn lemma_field_of(e: EntryView)
    ensures
        match field_of(e) {
            Some(id) => e.key == field_key(id) && e.kind == field_kind(id) && (id == FieldId::AppId
                ==> e.raw.len() == 4),
            None => true,
        },
{
}

/// The entry written for a known field is read as that field.
pub proof fn lemma_field_of_entry(s: ShortcutView, id: FieldId)
    ensures
        field_of(s.entry(SlotView::Known(id))) == Some(id),
        s.with(id, s.raw(id)) == s,
{
    lemma_field_keys();
    vstd::bytes::lemma_auto_spec_u32_to_from_le_bytes();
}

/// What reading one more entry does to a shortcut: the entry is added to the
/// entries of the record, and a shortcut that can be written stays so.
pub proof fn lemma_absorb(s: ShortcutView, e: EntryView)
    requires
        distinct_places(s.layout),
    ensures
        s.absorb(e).entries() == s.entries().push(e),
        s.absorb(e).order == s.order,
        distinct_places(s.absorb(e).layout),
        s.wf() && entry_wf(e) ==> s.absorb(e).wf(),
{
    let t = s.absorb(e);
    let n = s.layout.len() as int;
    lemma_field_of(e);
    vstd::bytes::lemma_auto_spec_u32_to_from_le_bytes();
    assert(t.layout.take(n) =~= s.layout);
    assert forall|i: int| 0 <= i < n implies t.entry(t.layout[i]) == s.entry(s.layout[i]) by {
        if let SlotView::Known(j) = s.layout[i] {
            if let Some(id) = field_of(e) {
                if !holds(s.layout, id) {
                    assert(j != id);
                }
            }
        }
    }
    assert(t.entry(t.layout[n]) == e);
    assert(t.entries() =~= s.entries().push(e));
    assert forall|i: int, j: int|
        0 <= i < j < t.layout.len() && (#[trigger] t.layout[i]) is Known implies t.layout[i]
        != #[trigger] t.layout[j] by {
        if j == n {
            if let SlotView::Known(id) = t.layout[n] {
                assert(!holds(s.layout, id));
            }
        } else {
            assert(t.layout[i] == s.layout[i]);
            assert(t.layout[j] == s.layout[j]);
        }
    }
    if s.wf() && entry_wf(e) {
        assert forall|id: FieldId| !holds(t.layout, id) implies #[trigger] t.raw(id) == blank(
            t.order,
        ).raw(id) by {
            lemma_holds_push(s.layout, t.layout[n], id);
            assert(s.raw(id) == blank(s.order).raw(id));
        }
        assert forall|i: int| 0 <= i < t.layout.len() implies match #[trigger] t.layout[i] {
            SlotView::Known(_) => true,
            SlotView::Opaque(x) => entry_wf(x) && match field_of(x) {
                Some(id) => holds(t.layout.take(i), id),
                None => true,
            },
        } by {
            if i < n {
                assert(t.layout[i] == s.layout[i]);
                assert(t.layout.take(i) =~= s.layout.take(i));
            }
        }
    }
}

/// The entries of the shortcut that a record stands for are the entries of
/// the record; and where the record can be written, so can the shortcut.
pub proof fn lemma_interpret_entries(order: Seq<u8>, es: Seq<EntryView>)
    ensures
        interpret(order, es).entries() == es,
        interpret(order, es).order == order,
        distinct_places(interpret(order, es).layout),
        nul_free(order) && entries_wf(es) ==> interpret(order, es).wf(),
    decreases es.len(),
{
    if es.len() == 0 {
        assert(blank(order).entries() =~= es);
    } else {
        let s = interpret(order, es.drop_last());
        let e = es.last();
        lemma_interpret_entries(order, es.drop_last());
        lemma_absorb(s, e);
        assert(es.drop_last().push(e) =~= es);
        if nul_free(order) && entries_wf(es) {
            assert(entries_wf(es.drop_last())) by {
                assert forall|i: int| 0 <= i < es.drop_last().len() implies entry_wf(
                    #[trigger] es.drop_last()[i],
                ) by {
                    assert(es.drop_last()[i] == es[i]);
                }
            }
        }
    }
}

/// An entry that holds no known field is kept as it was read, in its place:
/// the layout of the shortcut has it at its position among the entries of the
/// record, and the entries of the shortcut have it there again.
pub proof fn lemma_unrecognized_kept(order: Seq<u8>, es: Seq<EntryView>, i: int)
    requires
        0 <= i < es.len(),
        field_of(es[i]) is None,
    ensures
        interpret(order, es).layout.len() == es.len(),
        interpret(order, es).layout[i] == SlotView::Opaque(es[i]),
        interpret(order, es).entries()[i] == es[i],
    decreases es.len(),
{
    let before = interpret(order, es.drop_last());
    lemma_interpret_entries(order, es.drop_last());
    lemma_interpret_entries(order, es);
    assert(before.layout.len() == before.entries().len());
    assert(interpret(order, es).layout.len() == interpret(order, es).entries().len());
    if i < es.len() - 1 {
        lemma_unrecognized_kept(order, es.drop_last(), i);
    }
}

/// The entries of a shortcut that can be written can be written.
pub proof fn lemma_entries_wf(s: ShortcutView)
    requires
        s.wf(),
    ensures
        entries_wf(s.entries()),
{
    lemma_field_keys();
    vstd::bytes::lemma_auto_spec_u32_to_from_le_bytes();
    assert forall|i: int| 0 <= i < s.entries().len() implies entry_wf(
        #[trigger] s.entries()[i],
    ) by {
        match s.layout[i] {
            SlotView::Known(id) => {
                assert(nul_free(field_key(id)));
            },
            SlotView::Opaque(e) => {},
        }
    }
}

/// Reading the first `n` entries of a shortcut that can be written gives the
/// part of the shortcut that its first `n` places make up.
pub proof fn lemma_interpret_upto(s: ShortcutView, n: int)
    requires
        s.wf(),
        0 <= n <= s.layout.len(),
    ensures
        interpret(s.order, s.entries().take(n)) == s.upto(n),
    decreases n,
{
    let es = s.entries().take(n);
    if n == 0 {
        assert(s.upto(0).layout =~= Seq::<SlotView>::empty());
        assert forall|id: FieldId| !holds(s.upto(0).layout, id) by {}
        assert(s.upto(0) == blank(s.order));
    } else {
        lemma_interpret_upto(s, n - 1);
        assert(es.drop_last() =~= s.entries().take(n - 1));
        let before = s.upto(n - 1);
        let slot = s.layout[n - 1];
        let e = s.entry(slot);
        assert(es.last() == e);
        assert(s.layout.take(n) =~= s.layout.take(n - 1).push(slot));
        assert forall|id: FieldId|
            holds(s.layout.take(n), id) == (holds(s.layout.take(n - 1), id) || slot
                == SlotView::Known(id)) by {
            lemma_holds_push(s.layout.take(n - 1), slot, id);
        }
        match slot {
            SlotView::Known(id) => {
                lemma_field_of_entry(s, id);
                if holds(before.layout, id) {
                    let i = choose|i: int|
                        0 <= i < before.layout.len() && before.layout[i] == SlotView::Known(id);
                    assert(s.layout[i] == s.layout[n - 1]);
                }
                vstd::bytes::lemma_auto_spec_u32_to_from_le_bytes();
                assert(before.absorb(e) == s.upto(n));
            },
            SlotView::Opaque(x) => {
                assert(before.absorb(e) == s.upto(n));
            },
        }
    }
}

/// Reading the entries of a shortcut that can be written gives the shortcut
/// back.
pub proof fn lemma_entries_interpret(s: ShortcutView)
    requires
        s.wf(),
    ensures
        interpret(s.order, s.entries()) == s,
{
    let n = s.layout.len() as int;
    lemma_interpret_upto(s, n);
    assert(s.entries().take(n) =~= s.entries());
    assert(s.layout.take(n) =~= s.layout);
    vstd::bytes::lemma_auto_spec_u32_to_from_le_bytes();
    if !holds(s.layout, FieldId::AppId) {
        assert(s.raw(FieldId::AppId) == blank(s.order).raw(FieldId::AppId));
        assert(spec_u32_from_le_bytes(spec_u32_to_le_bytes(s.app_id)) == 0);
    }
    assert(s.raw(FieldId::AppName) == s.app_name);
    assert(s.raw(FieldId::Executable) == s.executable);
    assert(s.raw(FieldId::StartDir) == s.start_dir);
    assert(s.raw(FieldId::Icon) == s.icon);
    assert(s.raw(FieldId::ShortcutPath) == s.shortcut_path);
    assert(s.raw(FieldId::LaunchOptions) == s.launch_options);
}

} // verus!
