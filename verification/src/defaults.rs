//! A new shortcut: what it holds beside its name and its executable.

use vstd::bytes::{spec_u32_to_le_bytes, u32_to_le_bytes};
use vstd::prelude::*;
use vstd::slice::slice_to_vec;
use vstd::string::StringSliceAdditionalSpecFns;
use crate::extras::{kept, lemma_kept_skips, texts_in};
use crate::shortcut::{
    field_key, field_of, holds, slot_views, FieldId, Shortcut, ShortcutView, Slot, SlotView,
};
use crate::text::nul_free;
use crate::wire::{body_end, entries_from, entries_wf, entry_wf, Entry, EntryView, Kind, END};

verus! {

/// An integer entry: its key and the four bytes of its value.
pub open spec fn int_entry(key: Seq<u8>, value: u32) -> EntryView {
    EntryView { key, kind: Kind::Int, raw: spec_u32_to_le_bytes(value) }
}

/// The entries that a new shortcut gets beside its known fields, in their
/// order: not hidden, desktop configuration and overlay allowed, no VR, no
/// devkit, never played, no tags.
pub open spec fn default_entries() -> Seq<EntryView> {
    seq![
        int_entry("IsHidden".spec_bytes(), 0),
        int_entry("AllowDesktopConfig".spec_bytes(), 1),
        int_entry("AllowOverlay".spec_bytes(), 1),
        int_entry("openvr".spec_bytes(), 0),
        int_entry("Devkit".spec_bytes(), 0),
        EntryView { key: "DevkitGameID".spec_bytes(), kind: Kind::Text, raw: Seq::empty() },
        int_entry("DevkitOverrideAppID".spec_bytes(), 0),
        int_entry("LastPlayTime".spec_bytes(), 0),
        EntryView { key: "tags".spec_bytes(), kind: Kind::Container, raw: seq![END] },
    ]
}

/// The layout of a new shortcut: the known fields, then the default entries.
pub open spec fn fresh_layout() -> Seq<SlotView> {
    seq![
        SlotView::Known(FieldId::AppId),
        SlotView::Known(FieldId::AppName),
        SlotView::Known(FieldId::Executable),
        SlotView::Known(FieldId::StartDir),
        SlotView::Known(FieldId::Icon),
        SlotView::Known(FieldId::ShortcutPath),
        SlotView::Known(FieldId::LaunchOptions),
    ] + Seq::new(default_entries().len(), |i: int| SlotView::Opaque(default_entries()[i]))
}

/// The directory in which a new shortcut starts.
pub open spec fn default_start_dir() -> Seq<u8> {
    "\"./\"".spec_bytes()
}

/// A new shortcut with the given order, identifier, name and executable:
/// it starts in the default directory and has no icon, no shortcut path, no
/// launch options and the default entries.
pub open spec fn fresh(
    order: Seq<u8>,
    app_id: u32,
    app_name: Seq<u8>,
    executable: Seq<u8>,
) -> ShortcutView {
    ShortcutView {
        order,
        app_id,
        app_name,
        executable,
        start_dir: default_start_dir(),
        icon: Seq::empty(),
        shortcut_path: Seq::empty(),
        launch_options: Seq::empty(),
        layout: fresh_layout(),
    }
}

/// The default entries can be written, and none of them holds a known field.
pub proof fn lemma_default_entries()
    ensures
        default_entries().len() == 9,
        entries_wf(default_entries()),
        forall|i: int| 0 <= i < 9 ==> field_of(#[trigger] default_entries()[i]) is None,
        nul_free(default_start_dir()),
{
    reveal_strlit("IsHidden");
    reveal_strlit("AllowDesktopConfig");
    reveal_strlit("AllowOverlay");
    reveal_strlit("openvr");
    reveal_strlit("Devkit");
    reveal_strlit("DevkitGameID");
    reveal_strlit("DevkitOverrideAppID");
    reveal_strlit("LastPlayTime");
    reveal_strlit("tags");
    reveal_strlit("\"./\"");
    vstd::string::is_ascii_spec_bytes("IsHidden");
    vstd::string::is_ascii_spec_bytes("AllowDesktopConfig");
    vstd::string::is_ascii_spec_bytes("AllowOverlay");
    vstd::string::is_ascii_spec_bytes("openvr");
    vstd::string::is_ascii_spec_bytes("Devkit");
    vstd::string::is_ascii_spec_bytes("DevkitGameID");
    vstd::string::is_ascii_spec_bytes("DevkitOverrideAppID");
    vstd::string::is_ascii_spec_bytes("LastPlayTime");
    vstd::string::is_ascii_spec_bytes("tags");
    vstd::string::is_ascii_spec_bytes("\"./\"");
    reveal_strlit("appid");
    reveal_strlit("appname");
    reveal_strlit("exe");
    reveal_strlit("StartDir");
    reveal_strlit("icon");
    reveal_strlit("ShortcutPath");
    reveal_strlit("LaunchOptions");
    vstd::string::is_ascii_spec_bytes("appid");
    vstd::string::is_ascii_spec_bytes("appname");
    vstd::string::is_ascii_spec_bytes("exe");
    vstd::string::is_ascii_spec_bytes("StartDir");
    vstd::string::is_ascii_spec_bytes("icon");
    vstd::string::is_ascii_spec_bytes("ShortcutPath");
    vstd::string::is_ascii_spec_bytes("LaunchOptions");
    vstd::bytes::lemma_auto_spec_u32_to_from_le_bytes();
    let tags = seq![END];
    assert(body_end(tags, 0, 0) == Ok::<int, int>(1));
    let d = default_entries();
    assert(entry_wf(d[0]));
    assert(entry_wf(d[1]));
    assert(entry_wf(d[2]));
    assert(entry_wf(d[3]));
    assert(entry_wf(d[4]));
    assert(entry_wf(d[5]));
    assert(entry_wf(d[6]));
    assert(entry_wf(d[7]));
    assert(entry_wf(d[8]));
    assert(field_of(d[0]) is None);
    assert(field_of(d[1]) is None);
    assert(field_of(d[2]) is None);
    assert(field_of(d[3]) is None);
    assert(field_of(d[4]) is None);
    assert(d[5].key[0] != field_key(FieldId::ShortcutPath)[0]);
    assert(field_of(d[5]) is None);
    assert(field_of(d[6]) is None);
    assert(field_of(d[7]) is None);
    assert(field_of(d[8]) is None);
}

/// A new shortcut can be written and read back where its order, its name and
/// its executable hold no terminator.
pub proof fn lemma_fresh_wf(order: Seq<u8>, app_id: u32, app_name: Seq<u8>, executable: Seq<u8>)
    requires
        nul_free(order),
        nul_free(app_name),
        nul_free(executable),
    ensures
        fresh(order, app_id, app_name, executable).wf(),
{
    let s = fresh(order, app_id, app_name, executable);
    lemma_default_entries();
    let l = s.layout;
    assert(l.len() == 16);
    assert forall|i: int| 7 <= i < 16 implies #[trigger] l[i] == SlotView::Opaque(
        default_entries()[i - 7],
    ) by {}
    assert(l[0] == SlotView::Known(FieldId::AppId));
    assert(l[1] == SlotView::Known(FieldId::AppName));
    assert(l[2] == SlotView::Known(FieldId::Executable));
    assert(l[3] == SlotView::Known(FieldId::StartDir));
    assert(l[4] == SlotView::Known(FieldId::Icon));
    assert(l[5] == SlotView::Known(FieldId::ShortcutPath));
    assert(l[6] == SlotView::Known(FieldId::LaunchOptions));
    assert forall|i: int, j: int| 0 <= i < j < l.len() && l[i] is Known implies l[i] != l[j] by {
        if j >= 7 {
            assert(l[j] is Opaque);
        }
    }
    assert forall|i: int| 0 <= i < l.len() implies match #[trigger] l[i] {
        SlotView::Known(_) => true,
        SlotView::Opaque(e) => entry_wf(e) && match field_of(e) {
            Some(id) => holds(l.take(i), id),
            None => true,
        },
    } by {
        if i >= 7 {
            assert(l[i] == SlotView::Opaque(default_entries()[i - 7]));
            assert(entry_wf(default_entries()[i - 7]));
            assert(field_of(default_entries()[i - 7]) is None);
        }
    }
    assert forall|id: FieldId| holds(l, id) by {
        match id {
            FieldId::AppId => assert(l[0] == SlotView::Known(id)),
            FieldId::AppName => assert(l[1] == SlotView::Known(id)),
            FieldId::Executable => assert(l[2] == SlotView::Known(id)),
            FieldId::StartDir => assert(l[3] == SlotView::Known(id)),
            FieldId::Icon => assert(l[4] == SlotView::Known(id)),
            FieldId::ShortcutPath => assert(l[5] == SlotView::Known(id)),
            FieldId::LaunchOptions => assert(l[6] == SlotView::Known(id)),
        }
    }
}

/// A new shortcut is not hidden, allows desktop configuration and the
/// overlay, and has no tags.
pub proof fn lemma_fresh_extras(order: Seq<u8>, app_id: u32, app_name: Seq<u8>, executable: Seq<u8>)
    ensures
        !fresh(order, app_id, app_name, executable).is_hidden(),
        fresh(order, app_id, app_name, executable).allow_desktop_config(),
        fresh(order, app_id, app_name, executable).allow_overlay(),
        fresh(order, app_id, app_name, executable).tags() == Seq::<Seq<u8>>::empty(),
{
    let l = fresh_layout();
    let d = default_entries();
    reveal_strlit("IsHidden");
    reveal_strlit("AllowDesktopConfig");
    reveal_strlit("AllowOverlay");
    reveal_strlit("openvr");
    reveal_strlit("Devkit");
    reveal_strlit("DevkitGameID");
    reveal_strlit("DevkitOverrideAppID");
    reveal_strlit("LastPlayTime");
    reveal_strlit("tags");
    vstd::string::is_ascii_spec_bytes("IsHidden");
    vstd::string::is_ascii_spec_bytes("AllowDesktopConfig");
    vstd::string::is_ascii_spec_bytes("AllowOverlay");
    vstd::string::is_ascii_spec_bytes("openvr");
    vstd::string::is_ascii_spec_bytes("Devkit");
    vstd::string::is_ascii_spec_bytes("DevkitGameID");
    vstd::string::is_ascii_spec_bytes("DevkitOverrideAppID");
    vstd::string::is_ascii_spec_bytes("LastPlayTime");
    vstd::string::is_ascii_spec_bytes("tags");
    vstd::bytes::lemma_auto_spec_u32_to_from_le_bytes();
    assert(l.len() == 16);
    assert forall|i: int| 0 <= i < 7 implies (#[trigger] l[i]) is Known by {}
    assert forall|i: int| 7 <= i < 16 implies #[trigger] l[i] == SlotView::Opaque(d[i - 7]) by {}
    lemma_kept_skips(l, "IsHidden".spec_bytes(), Kind::Int, 0, 7);
    lemma_kept_skips(l, "AllowDesktopConfig".spec_bytes(), Kind::Int, 0, 8);
    lemma_kept_skips(l, "AllowOverlay".spec_bytes(), Kind::Int, 0, 9);
    lemma_kept_skips(l, "tags".spec_bytes(), Kind::Container, 0, 15);
    assert(kept(l, "IsHidden".spec_bytes(), Kind::Int) == Some(d[0]));
    assert(kept(l, "AllowDesktopConfig".spec_bytes(), Kind::Int) == Some(d[1]));
    assert(kept(l, "AllowOverlay".spec_bytes(), Kind::Int) == Some(d[2]));
    assert(kept(l, "tags".spec_bytes(), Kind::Container) == Some(d[8]));
    let body = seq![END];
    assert(entries_from(body, 0) == Ok::<(Seq<EntryView>, int), int>((Seq::empty(), 1)));
    assert(texts_in(body) =~= Seq::<Seq<u8>>::empty());
}

/// An integer entry under the given key.
fn new_int_entry(key: &str, value: u32) -> (e: Entry)
    ensures
        e@ == int_entry(key.spec_bytes(), value),
{
    Entry { key: slice_to_vec(key.as_bytes()), kind: Kind::Int, raw: u32_to_le_bytes(value) }
}

impl Shortcut {
    /// A new shortcut with the given order, identifier, name and executable,
    /// everything else at its default.
    pub fn new(order: Vec<u8>, app_id: u32, app_name: Vec<u8>, executable: Vec<u8>) -> (s:
        Shortcut)
        ensures
            s@ == fresh(order@, app_id, app_name@, executable@),
    {
        let mut layout: Vec<Slot> = Vec::new();
        layout.push(Slot::Known(FieldId::AppId));
        layout.push(Slot::Known(FieldId::AppName));
        layout.push(Slot::Known(FieldId::Executable));
        layout.push(Slot::Known(FieldId::StartDir));
        layout.push(Slot::Known(FieldId::Icon));
        layout.push(Slot::Known(FieldId::ShortcutPath));
        layout.push(Slot::Known(FieldId::LaunchOptions));
        layout.push(Slot::Opaque(new_int_entry("IsHidden", 0)));
        layout.push(Slot::Opaque(new_int_entry("AllowDesktopConfig", 1)));
        layout.push(Slot::Opaque(new_int_entry("AllowOverlay", 1)));
        layout.push(Slot::Opaque(new_int_entry("openvr", 0)));
        layout.push(Slot::Opaque(new_int_entry("Devkit", 0)));
        layout.push(
            Slot::Opaque(
                Entry {
                    key: slice_to_vec("DevkitGameID".as_bytes()),
                    kind: Kind::Text,
                    raw: Vec::new(),
                },
            ),
        );
        layout.push(Slot::Opaque(new_int_entry("DevkitOverrideAppID", 0)));
        layout.push(Slot::Opaque(new_int_entry("LastPlayTime", 0)));
        layout.push(
            Slot::Opaque(
                Entry { key: slice_to_vec("tags".as_bytes()), kind: Kind::Container, raw: vec![END] },
            ),
        );
        let s = Shortcut {
            order,
            app_id,
            app_name,
            executable,
            start_dir: slice_to_vec("\"./\"".as_bytes()),
            icon: Vec::new(),
            shortcut_path: Vec::new(),
            launch_options: Vec::new(),
            layout,
        };
        proof {
            let l = slot_views(s.layout@);
            let f = fresh_layout();
            assert(l.len() == 16);
            assert(f.len() == 16);
            assert(s.layout@[12]@.arrow_Opaque_0().raw =~= Seq::<u8>::empty());
            assert(s.layout@[15]@.arrow_Opaque_0().raw =~= seq![END]);
            assert forall|i: int| 0 <= i < 16 implies #[trigger] l[i] == f[i] by {}
            assert(l =~= f);
            assert(s@.icon =~= Seq::<u8>::empty());
            assert(s@.shortcut_path =~= Seq::<u8>::empty());
            assert(s@.launch_options =~= Seq::<u8>::empty());
        }
        s
    }
}

} // verus!
