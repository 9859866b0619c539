//! One shortcut: the fields that have a meaning here, typed, and every other
//! entry of its record kept as it was read, in its place.

use vstd::bytes::{spec_u32_from_le_bytes, spec_u32_to_le_bytes, u32_from_le_bytes, u32_to_le_bytes};
use vstd::prelude::*;
use vstd::slice::slice_to_vec;
use vstd::string::StringSliceAdditionalSpecFns;
use crate::decimal::{parse_decimal, word_value};
use crate::fidelity::lemma_holds_push;
use crate::text::{bytes_eq, nul_free};
use crate::wire::{
    entries_bytes, entry_wf, lemma_entries_bytes_push, write_entry, Entry, EntryView, Kind,
};

verus! {

/// The fields of a record that are read into typed values.
#[derive(Clone, Copy, Debug, PartialEq, Eq, Structural)]
pub enum FieldId {
    AppId,
    AppName,
    Executable,
    StartDir,
    Icon,
    ShortcutPath,
    LaunchOptions,
}

/// One place in a record: a known field, whose value the shortcut holds
/// typed, or any other entry, held as it was read.
#[derive(Clone, Debug, PartialEq, Eq)]
pub enum Slot {
    Known(FieldId),
    Opaque(Entry),
}

/// The mathematical value of a `Slot`.
pub enum SlotView {
    Known(FieldId),
    Opaque(EntryView),
}

impl View for Slot {
    type V = SlotView;

    open spec fn view(&self) -> SlotView {
        match self {
            Slot::Known(id) => SlotView::Known(*id),
            Slot::Opaque(e) => SlotView::Opaque(e@),
        }
    }
}

/// The views of a run of slots.
pub open spec fn slot_views(slots: Seq<Slot>) -> Seq<SlotView> {
    Seq::new(slots.len(), |i: int| slots[i]@)
}

/// One non-Steam game entry.
///
/// `order` is the key of the record in the file. The typed fields hold the
/// values of the known entries of the record; a field whose entry the record
/// lacks holds zero or the empty text. `layout` lists the entries of the
/// record in the order of the file.
#[derive(Clone, Debug, PartialEq, Eq)]
pub struct Shortcut {
    pub order: Vec<u8>,
    pub app_id: u32,
    pub app_name: Vec<u8>,
    pub executable: Vec<u8>,
    pub start_dir: Vec<u8>,
    pub icon: Vec<u8>,
    pub shortcut_path: Vec<u8>,
    pub launch_options: Vec<u8>,
    pub layout: Vec<Slot>,
}

/// The mathematical value of a `Shortcut`.
pub struct ShortcutView {
    pub order: Seq<u8>,
    pub app_id: u32,
    pub app_name: Seq<u8>,
    pub executable: Seq<u8>,
    pub start_dir: Seq<u8>,
    pub icon: Seq<u8>,
    pub shortcut_path: Seq<u8>,
    pub launch_options: Seq<u8>,
    pub layout: Seq<SlotView>,
}

impl View for Shortcut {
    type V = ShortcutView;

    open spec fn view(&self) -> ShortcutView {
        ShortcutView {
            order: self.order@,
            app_id: self.app_id,
            app_name: self.app_name@,
            executable: self.executable@,
            start_dir: self.start_dir@,
            icon: self.icon@,
            shortcut_path: self.shortcut_path@,
            launch_options: self.launch_options@,
            layout: slot_views(self.layout@),
        }
    }
}

/// The views of a run of shortcuts.
pub open spec fn shortcut_views(shortcuts: Seq<Shortcut>) -> Seq<ShortcutView> {
    Seq::new(shortcuts.len(), |i: int| shortcuts[i]@)
}

/// The key under which a known field stands in a record.
pub open spec fn field_key(id: FieldId) -> Seq<u8> {
    match id {
        FieldId::AppId => "appid".spec_bytes(),
        FieldId::AppName => "appname".spec_bytes(),
        FieldId::Executable => "exe".spec_bytes(),
        FieldId::StartDir => "StartDir".spec_bytes(),
        FieldId::Icon => "icon".spec_bytes(),
        FieldId::ShortcutPath => "ShortcutPath".spec_bytes(),
        FieldId::LaunchOptions => "LaunchOptions".spec_bytes(),
    }
}

/// The kind of entry that holds a known field.
pub open spec fn field_kind(id: FieldId) -> Kind {
    match id {
        FieldId::AppId => Kind::Int,
        _ => Kind::Text,
    }
}

/// The known field that an entry holds, by its key and its kind; `None` for
/// every other entry. Keys are compared byte for byte.
pub open spec fn field_of(e: EntryView) -> Option<FieldId> {
    match e.kind {
        Kind::Container => None,
        Kind::Int => if e.key == field_key(FieldId::AppId) && e.raw.len() == 4 {
            Some(FieldId::AppId)
        } else {
            None
        },
        Kind::Text => if e.key == field_key(FieldId::AppName) {
            Some(FieldId::AppName)
        } else if e.key == field_key(FieldId::Executable) {
            Some(FieldId::Executable)
        } else if e.key == field_key(FieldId::StartDir) {
            Some(FieldId::StartDir)
        } else if e.key == field_key(FieldId::Icon) {
            Some(FieldId::Icon)
        } else if e.key == field_key(FieldId::ShortcutPath) {
            Some(FieldId::ShortcutPath)
        } else if e.key == field_key(FieldId::LaunchOptions) {
            Some(FieldId::LaunchOptions)
        } else {
            None
        },
    }
}

/// No known field has two places in the layout.
pub open spec fn distinct_places(layout: Seq<SlotView>) -> bool {
    forall|i: int, j: int|
        0 <= i < j < layout.len() && (#[trigger] layout[i]) is Known ==> layout[i]
            != #[trigger] layout[j]
}

/// Whether the layout has a place for the known field `id`.
pub open spec fn holds(layout: Seq<SlotView>, id: FieldId) -> bool {
    exists|i: int| 0 <= i < layout.len() && layout[i] == SlotView::Known(id)
}

impl ShortcutView {
    /// The bytes of the value of a known field, as an entry holds them.
    pub open spec fn raw(self, id: FieldId) -> Seq<u8> {
        match id {
            FieldId::AppId => spec_u32_to_le_bytes(self.app_id),
            FieldId::AppName => self.app_name,
            FieldId::Executable => self.executable,
            FieldId::StartDir => self.start_dir,
            FieldId::Icon => self.icon,
            FieldId::ShortcutPath => self.shortcut_path,
            FieldId::LaunchOptions => self.launch_options,
        }
    }

    /// This shortcut with a known field set from the bytes of an entry.
    pub open spec fn with(self, id: FieldId, raw: Seq<u8>) -> ShortcutView {
        match id {
            FieldId::AppId => ShortcutView { app_id: spec_u32_from_le_bytes(raw), ..self },
            FieldId::AppName => ShortcutView { app_name: raw, ..self },
            FieldId::Executable => ShortcutView { executable: raw, ..self },
            FieldId::StartDir => ShortcutView { start_dir: raw, ..self },
            FieldId::Icon => ShortcutView { icon: raw, ..self },
            FieldId::ShortcutPath => ShortcutView { shortcut_path: raw, ..self },
            FieldId::LaunchOptions => ShortcutView { launch_options: raw, ..self },
        }
    }

    /// This shortcut with one more place at the end of its layout.
    pub open spec fn placed(self, slot: SlotView) -> ShortcutView {
        ShortcutView { layout: self.layout.push(slot), ..self }
    }

    /// The entry that stands at a place of the layout.
    pub open spec fn entry(self, slot: SlotView) -> EntryView {
        match slot {
            SlotView::Known(id) => EntryView {
                key: field_key(id),
                kind: field_kind(id),
                raw: self.raw(id),
            },
            SlotView::Opaque(e) => e,
        }
    }

    /// The entries of the record, in the order of the layout.
    pub open spec fn entries(self) -> Seq<EntryView> {
        Seq::new(self.layout.len(), |i: int| self.entry(self.layout[i]))
    }

    /// This shortcut after one more entry of its record has been read. The
    /// first entry that holds a known field sets the field; every other entry
    /// is kept as it is.
    pub open spec fn absorb(self, e: EntryView) -> ShortcutView {
        match field_of(e) {
            Some(id) => if holds(self.layout, id) {
                self.placed(SlotView::Opaque(e))
            } else {
                self.with(id, e.raw).placed(SlotView::Known(id))
            },
            None => self.placed(SlotView::Opaque(e)),
        }
    }

    /// A shortcut that can be written and read back. No text holds a
    /// terminator; no known field has two places; a field without a place
    /// holds its default; and an entry kept as read that could hold a known
    /// field stands after the place of that field.
    pub open spec fn wf(self) -> bool {
        &&& nul_free(self.order)
        &&& nul_free(self.app_name)
        &&& nul_free(self.executable)
        &&& nul_free(self.start_dir)
        &&& nul_free(self.icon)
        &&& nul_free(self.shortcut_path)
        &&& nul_free(self.launch_options)
        &&& forall|id: FieldId|
            !holds(self.layout, id) ==> #[trigger] self.raw(id) == blank(self.order).raw(id)
        &&& distinct_places(self.layout)
        &&& forall|i: int|
            0 <= i < self.layout.len() ==> match #[trigger] self.layout[i] {
                SlotView::Known(_) => true,
                SlotView::Opaque(e) => entry_wf(e) && match field_of(e) {
                    Some(id) => holds(self.layout.take(i), id),
                    None => true,
                },
            }
    }
}

/// Every shortcut of the run can be written and read back.
pub open spec fn all_wf(ss: Seq<ShortcutView>) -> bool {
    forall|i: int| 0 <= i < ss.len() ==> (#[trigger] ss[i]).wf()
}

/// The shortcut of a record without entries: every field at its default.
pub open spec fn blank(order: Seq<u8>) -> ShortcutView {
    ShortcutView {
        order,
        app_id: 0,
        app_name: Seq::empty(),
        executable: Seq::empty(),
        start_dir: Seq::empty(),
        icon: Seq::empty(),
        shortcut_path: Seq::empty(),
        launch_options: Seq::empty(),
        layout: Seq::empty(),
    }
}

/// The shortcut that the record with the given key and entries stands for.
pub open spec fn interpret(order: Seq<u8>, es: Seq<EntryView>) -> ShortcutView
    decreases es.len(),
{
    if es.len() == 0 {
        blank(order)
    } else {
        interpret(order, es.drop_last()).absorb(es.last())
    }
}

/// The key under which a known field stands in a record.
pub fn key_of(id: FieldId) -> (key: &'static [u8])
    ensures
        key@ == field_key(id),
{
    match id {
        FieldId::AppId => "appid".as_bytes(),
        FieldId::AppName => "appname".as_bytes(),
        FieldId::Executable => "exe".as_bytes(),
        FieldId::StartDir => "StartDir".as_bytes(),
        FieldId::Icon => "icon".as_bytes(),
        FieldId::ShortcutPath => "ShortcutPath".as_bytes(),
        FieldId::LaunchOptions => "LaunchOptions".as_bytes(),
    }
}

/// The kind of entry that holds a known field.
pub fn kind_of_field(id: FieldId) -> (kind: Kind)
    ensures
        kind == field_kind(id),
{
    match id {
        FieldId::AppId => Kind::Int,
        _ => Kind::Text,
    }
}

/// The known field that an entry with this kind, key and value holds.
pub fn known_field(kind: Kind, key: &[u8], raw: &[u8]) -> (id: Option<FieldId>)
    ensures
        id == field_of(EntryView { key: key@, kind, raw: raw@ }),
{
    match kind {
        Kind::Container => None,
        Kind::Int => if raw.len() == 4 && bytes_eq(key, key_of(FieldId::AppId)) {
            Some(FieldId::AppId)
        } else {
            None
        },
        Kind::Text => if bytes_eq(key, key_of(FieldId::AppName)) {
            Some(FieldId::AppName)
        } else if bytes_eq(key, key_of(FieldId::Executable)) {
            Some(FieldId::Executable)
        } else if bytes_eq(key, key_of(FieldId::StartDir)) {
            Some(FieldId::StartDir)
        } else if bytes_eq(key, key_of(FieldId::Icon)) {
            Some(FieldId::Icon)
        } else if bytes_eq(key, key_of(FieldId::ShortcutPath)) {
            Some(FieldId::ShortcutPath)
        } else if bytes_eq(key, key_of(FieldId::LaunchOptions)) {
            Some(FieldId::LaunchOptions)
        } else {
            None
        },
    }
}

/// The known fields that have a place in the layout of a record being read.
pub(crate) struct Placed {
    app_id: bool,
    app_name: bool,
    executable: bool,
    start_dir: bool,
    icon: bool,
    shortcut_path: bool,
    launch_options: bool,
}

impl Placed {
    /// Whether the field is in the set.
    pub(crate) closed spec fn has(self, id: FieldId) -> bool {
        match id {
            FieldId::AppId => self.app_id,
            FieldId::AppName => self.app_name,
            FieldId::Executable => self.executable,
            FieldId::StartDir => self.start_dir,
            FieldId::Icon => self.icon,
            FieldId::ShortcutPath => self.shortcut_path,
            FieldId::LaunchOptions => self.launch_options,
        }
    }

    /// The set holds the fields that have a place in the layout, and no
    /// others.
    pub(crate) open spec fn tracks(self, layout: Seq<SlotView>) -> bool {
        forall|id: FieldId| self.has(id) == holds(layout, id)
    }

    /// The set for a record of which nothing has been read.
    pub(crate) fn none() -> (placed: Placed)
        ensures
            placed.tracks(Seq::empty()),
    {
        Placed {
            app_id: false,
            app_name: false,
            executable: false,
            start_dir: false,
            icon: false,
            shortcut_path: false,
            launch_options: false,
        }
    }

    /// Whether the field is in the set.
    pub(crate) fn contains(&self, id: FieldId) -> (found: bool)
        ensures
            found == self.has(id),
    {
        match id {
            FieldId::AppId => self.app_id,
            FieldId::AppName => self.app_name,
            FieldId::Executable => self.executable,
            FieldId::StartDir => self.start_dir,
            FieldId::Icon => self.icon,
            FieldId::ShortcutPath => self.shortcut_path,
            FieldId::LaunchOptions => self.launch_options,
        }
    }

    /// Puts the field into the set.
    pub(crate) fn insert(&mut self, id: FieldId)
        ensures
            forall|other: FieldId| final(self).has(other) == (old(self).has(other) || other == id),
    {
        match id {
            FieldId::AppId => {
                self.app_id = true;
            },
            FieldId::AppName => {
                self.app_name = true;
            },
            FieldId::Executable => {
                self.executable = true;
            },
            FieldId::StartDir => {
                self.start_dir = true;
            },
            FieldId::Icon => {
                self.icon = true;
            },
            FieldId::ShortcutPath => {
                self.shortcut_path = true;
            },
            FieldId::LaunchOptions => {
                self.launch_options = true;
            },
        }
    }
}

impl Shortcut {
    /// The shortcut of a record without entries.
    pub fn blank(order: Vec<u8>) -> (s: Shortcut)
        ensures
            s@ == blank(order@),
    {
        let s = Shortcut {
            order,
            app_id: 0,
            app_name: Vec::new(),
            executable: Vec::new(),
            start_dir: Vec::new(),
            icon: Vec::new(),
            shortcut_path: Vec::new(),
            launch_options: Vec::new(),
            layout: Vec::new(),
        };
        assert(s@.layout =~= Seq::<SlotView>::empty());
        s
    }

    /// Takes in one more entry of the record: the first entry that holds a
    /// known field sets the field, every other entry is kept as it is.
    /// `placed` holds the fields that have a place already.
    pub(crate) fn absorb(&mut self, e: Entry, placed: &mut Placed)
        requires
            old(placed).tracks(old(self)@.layout),
        ensures
            final(self)@ == old(self)@.absorb(e@),
            final(placed).tracks(final(self)@.layout),
    {
        let ghost before = self.layout@;
        let slot = match known_field(e.kind, e.key.as_slice(), e.raw.as_slice()) {
            None => Slot::Opaque(e),
            Some(id) => {
                if placed.contains(id) {
                    Slot::Opaque(e)
                } else {
                    match id {
                        FieldId::AppId => {
                            self.app_id = u32_from_le_bytes(e.raw.as_slice());
                        },
                        FieldId::AppName => {
                            self.app_name = e.raw;
                        },
                        FieldId::Executable => {
                            self.executable = e.raw;
                        },
                        FieldId::StartDir => {
                            self.start_dir = e.raw;
                        },
                        FieldId::Icon => {
                            self.icon = e.raw;
                        },
                        FieldId::ShortcutPath => {
                            self.shortcut_path = e.raw;
                        },
                        FieldId::LaunchOptions => {
                            self.launch_options = e.raw;
                        },
                    }
                    placed.insert(id);
                    Slot::Known(id)
                }
            },
        };
        self.layout.push(slot);
        proof {
            assert(slot_views(before.push(slot)) =~= slot_views(before).push(slot@));
            assert forall|id: FieldId| placed.has(id) == holds(self@.layout, id) by {
                lemma_holds_push(slot_views(before), slot@, id);
            }
        }
    }

    /// The order as a number, where it is a run of digits that fits the
    /// machine word.
    pub fn order_number(&self) -> (n: Option<usize>)
        ensures
            n == word_value(self@.order),
    {
        parse_decimal(self.order.as_slice())
    }

    /// A copy of the bytes of the value of a known field.
    pub fn raw_of(&self, id: FieldId) -> (raw: Vec<u8>)
        ensures
            raw@ == self@.raw(id),
    {
        match id {
            FieldId::AppId => u32_to_le_bytes(self.app_id),
            FieldId::AppName => slice_to_vec(self.app_name.as_slice()),
            FieldId::Executable => slice_to_vec(self.executable.as_slice()),
            FieldId::StartDir => slice_to_vec(self.start_dir.as_slice()),
            FieldId::Icon => slice_to_vec(self.icon.as_slice()),
            FieldId::ShortcutPath => slice_to_vec(self.shortcut_path.as_slice()),
            FieldId::LaunchOptions => slice_to_vec(self.launch_options.as_slice()),
        }
    }

    /// Appends the bytes of the entries of the record, in the order of the
    /// layout.
    pub fn write_entries(&self, out: &mut Vec<u8>)
        ensures
            final(out)@ == old(out)@ + entries_bytes(self@.entries()),
    {
        let mut i: usize = 0;
        assert(self@.entries().take(0) =~= Seq::<EntryView>::empty());
        assert(out@ =~= old(out)@ + entries_bytes(self@.entries().take(0)));
        while i < self.layout.len()
            invariant
                i <= self.layout@.len(),
                out@ == old(out)@ + entries_bytes(self@.entries().take(i as int)),
            decreases self.layout@.len() - i,
        {
            let ghost written = out@;
            let ghost e = self@.entry(self@.layout[i as int]);
            match &self.layout[i] {
                Slot::Known(id) => {
                    let raw = self.raw_of(*id);
                    write_entry(out, kind_of_field(*id), key_of(*id), raw.as_slice());
                },
                Slot::Opaque(x) => {
                    write_entry(out, x.kind, x.key.as_slice(), x.raw.as_slice());
                },
            }
            proof {
                let es = self@.entries();
                assert(es.take(i + 1) =~= es.take(i as int).push(e));
                lemma_entries_bytes_push(es.take(i as int), e);
                assert(out@ =~= old(out)@ + entries_bytes(es.take(i + 1)));
            }
            i += 1;
        }
        assert(self@.entries().take(i as int) =~= self@.entries());
    }
}

} // verus!
