//! The list of shortcuts and the operations on it by name. Every edit leaves
//! the orders of the shortcuts equal to their positions.

use vstd::prelude::*;
use vstd::slice::slice_to_vec;
use vstd::string::StringSliceAdditionalSpecFns;
use crate::app_id::{calculate_app_id, generated_app_id};
use crate::decimal::{
    decimal, decimal_text, decimal_value, lemma_decimal_text_digits, lemma_decimal_value_of_text,
};
use crate::error::ShortcutError;
use crate::defaults::{fresh, lemma_fresh_wf};
use crate::shortcut::{all_wf, blank, holds, shortcut_views, FieldId, Shortcut, ShortcutView};
use crate::text::{bytes_eq, nul_free};

verus! {

/// An ordered list of shortcuts.
#[derive(Clone, Debug, PartialEq, Eq)]
pub struct ShortcutCollection {
    pub shortcuts: Vec<Shortcut>,
}

impl View for ShortcutCollection {
    type V = Seq<ShortcutView>;

    open spec fn view(&self) -> Seq<ShortcutView> {
        shortcut_views(self.shortcuts@)
    }
}

/// Whether a shortcut of the list has the given name.
pub open spec fn has_name(ss: Seq<ShortcutView>, name: Seq<u8>) -> bool {
    exists|i: int| 0 <= i < ss.len() && (#[trigger] ss[i]).app_name == name
}

/// The position, from `i` on, of the first shortcut with the given name; the
/// length of the list where there is none.
pub open spec fn first_named_from(ss: Seq<ShortcutView>, name: Seq<u8>, i: int) -> int
    decreases ss.len() - i,
{
    if i < 0 || i >= ss.len() {
        ss.len() as int
    } else if ss[i].app_name == name {
        i
    } else {
        first_named_from(ss, name, i + 1)
    }
}

/// The position of the first shortcut with the given name; the length of the
/// list where there is none.
pub open spec fn first_named(ss: Seq<ShortcutView>, name: Seq<u8>) -> int {
    first_named_from(ss, name, 0)
}

/// The shortcut with its order set to the decimal text of `i`.
pub open spec fn at_position(s: ShortcutView, i: int) -> ShortcutView {
    ShortcutView { order: decimal_text(i as nat), ..s }
}

/// The list with the order of each shortcut set to its position.
pub open spec fn renumbered(ss: Seq<ShortcutView>) -> Seq<ShortcutView> {
    Seq::new(ss.len(), |i: int| at_position(ss[i], i))
}

/// The order of each shortcut is the decimal text of its position.
pub open spec fn dense(ss: Seq<ShortcutView>) -> bool {
    forall|i: int| 0 <= i < ss.len() ==> (#[trigger] ss[i]).order == decimal_text(i as nat)
}

/// The list after a shortcut with the given name, executable and identifier
/// has been added at its end, every order set to its position.
pub open spec fn added(
    ss: Seq<ShortcutView>,
    name: Seq<u8>,
    executable: Seq<u8>,
    app_id: u32,
) -> Seq<ShortcutView> {
    renumbered(ss).push(fresh(decimal_text(ss.len()), app_id, name, executable))
}

/// The list after the first shortcut with the given name has been taken out,
/// the others in their order and every order set to its position.
pub open spec fn removed(ss: Seq<ShortcutView>, name: Seq<u8>) -> Seq<ShortcutView> {
    renumbered(ss.remove(first_named(ss, name)))
}

/// The length of the longest name in the list; zero for the empty list.
pub open spec fn longest_name(ss: Seq<ShortcutView>) -> nat
    decreases ss.len(),
{
    if ss.len() == 0 {
        0
    } else {
        let rest = longest_name(ss.drop_last());
        if ss.last().app_name.len() > rest {
            ss.last().app_name.len()
        } else {
            rest
        }
    }
}

/// The width of the name column when the list is shown as a table: four more
/// than the longest name, and than the four letters of the column's heading.
pub open spec fn column_width(ss: Seq<ShortcutView>) -> nat {
    if longest_name(ss) > 4 {
        longest_name(ss) + 4
    } else {
        8
    }
}

/// Where `first_named_from` stops: at the first shortcut with the name from
/// `i` on, or at the end of the list.
pub proof fn lemma_first_named_from(ss: Seq<ShortcutView>, name: Seq<u8>, i: int)
    requires
        0 <= i <= ss.len(),
    ensures
        i <= first_named_from(ss, name, i) <= ss.len(),
        forall|j: int| i <= j < first_named_from(ss, name, i) ==> (#[trigger] ss[j]).app_name != name,
        first_named_from(ss, name, i) < ss.len() ==> ss[first_named_from(ss, name, i)].app_name
            == name,
    decreases ss.len() - i,
{
    if i < ss.len() && ss[i].app_name != name {
        lemma_first_named_from(ss, name, i + 1);
    }
}

/// A list has a shortcut with the name exactly where `first_named` stops
/// inside it.
pub proof fn lemma_first_named(ss: Seq<ShortcutView>, name: Seq<u8>)
    ensures
        0 <= first_named(ss, name) <= ss.len(),
        has_name(ss, name) <==> first_named(ss, name) < ss.len(),
        forall|j: int| 0 <= j < first_named(ss, name) ==> (#[trigger] ss[j]).app_name != name,
        has_name(ss, name) ==> ss[first_named(ss, name)].app_name == name,
{
    lemma_first_named_from(ss, name, 0);
}

/// Setting the orders to the positions makes them dense, changes nothing
/// else, and does nothing to a list whose orders are dense.
pub proof fn lemma_renumbered(ss: Seq<ShortcutView>)
    ensures
        dense(renumbered(ss)),
        renumbered(ss).len() == ss.len(),
        renumbered(renumbered(ss)) == renumbered(ss),
        dense(ss) ==> renumbered(ss) == ss,
        forall|name: Seq<u8>| has_name(renumbered(ss), name) <==> has_name(ss, name),
{
    assert(renumbered(renumbered(ss)) =~= renumbered(ss));
    if dense(ss) {
        assert(renumbered(ss) =~= ss);
    }
    assert forall|name: Seq<u8>| has_name(renumbered(ss), name) <==> has_name(ss, name) by {
        if has_name(ss, name) {
            let i = choose|i: int| 0 <= i < ss.len() && (#[trigger] ss[i]).app_name == name;
            assert(renumbered(ss)[i].app_name == name);
        }
        if has_name(renumbered(ss), name) {
            let i = choose|i: int|
                0 <= i < renumbered(ss).len() && (#[trigger] renumbered(ss)[i]).app_name == name;
            assert(ss[i].app_name == name);
        }
    }
}

impl ShortcutCollection {
    /// A collection of the given shortcuts, in their order.
    pub fn new(shortcuts: Vec<Shortcut>) -> (c: ShortcutCollection)
        ensures
            c@ == shortcut_views(shortcuts@),
    {
        ShortcutCollection { shortcuts }
    }

    /// The shortcuts, in their order.
    pub fn list(&self) -> (shortcuts: &Vec<Shortcut>)
        ensures
            shortcut_views(shortcuts@) == self@,
    {
        &self.shortcuts
    }

    /// The number of shortcuts.
    pub fn len(&self) -> (n: usize)
        ensures
            n == self@.len(),
    {
        self.shortcuts.len()
    }

    /// The width of the name column when the list is shown as a table, held
    /// to what a machine word can hold.
    pub fn name_column_width(&self) -> (width: usize)
        ensures
            width == if column_width(self@) <= usize::MAX {
                column_width(self@)
            } else {
                usize::MAX as nat
            },
    {
        let mut longest: usize = 0;
        let mut i: usize = 0;
        assert(self@.take(0) =~= Seq::<ShortcutView>::empty());
        while i < self.shortcuts.len()
            invariant
                i <= self.shortcuts@.len(),
                longest == longest_name(self@.take(i as int)),
            decreases self.shortcuts@.len() - i,
        {
            let n = self.shortcuts[i].app_name.len();
            proof {
                assert(self@.take(i + 1).drop_last() =~= self@.take(i as int));
                assert(self@.take(i + 1).last() == self@[i as int]);
            }
            if n > longest {
                longest = n;
            }
            i += 1;
        }
        assert(self@.take(i as int) =~= self@);
        if longest > 4 {
            longest.saturating_add(4)
        } else {
            8
        }
    }

    /// The position of the first shortcut with the given name.
    pub fn find(&self, name: &[u8]) -> (found: Option<usize>)
        ensures
            found == if has_name(self@, name@) {
                Some(first_named(self@, name@) as usize)
            } else {
                None
            },
    {
        let mut i: usize = 0;
        proof {
            lemma_first_named(self@, name@);
        }
        while i < self.shortcuts.len()
            invariant
                i <= self.shortcuts@.len(),
                first_named(self@, name@) == first_named_from(self@, name@, i as int),
            decreases self.shortcuts@.len() - i,
        {
            if bytes_eq(self.shortcuts[i].app_name.as_slice(), name) {
                proof {
                    assert(self@[i as int].app_name == name@);
                }
                return Some(i);
            }
            i += 1;
        }
        None
    }

    /// Sets the order of each shortcut to its position.
    pub fn renumber(&mut self)
        ensures
            final(self)@ == renumbered(old(self)@),
    {
        let mut i: usize = 0;
        let ghost before = self@;
        while i < self.shortcuts.len()
            invariant
                i <= self.shortcuts@.len(),
                self@.len() == before.len(),
                forall|j: int| 0 <= j < i ==> self@[j] == at_position(before[j], j),
                forall|j: int| i <= j < before.len() ==> self@[j] == before[j],
            decreases self.shortcuts@.len() - i,
        {
            let order = decimal(i);
            let ghost listed = self.shortcuts@;
            self.shortcuts[i].order = order;
            proof {
                assert(self.shortcuts@.len() == listed.len());
                assert(self.shortcuts@[i as int]@ == at_position(listed[i as int]@, i as int));
                assert forall|j: int| 0 <= j < listed.len() && j != i implies self.shortcuts@[j]
                    == listed[j] by {}
                assert forall|j: int| 0 <= j < i + 1 implies self@[j] == at_position(
                    before[j],
                    j,
                ) by {
                    if j < i {
                        assert(self.shortcuts@[j] == listed[j]);
                        assert(shortcut_views(listed)[j] == at_position(before[j], j));
                    } else {
                        assert(shortcut_views(listed)[j] == before[j]);
                    }
                }
                assert forall|j: int| i + 1 <= j < before.len() implies self@[j] == before[j] by {
                    assert(self.shortcuts@[j] == listed[j]);
                    assert(shortcut_views(listed)[j] == before[j]);
                }
            }
            i += 1;
        }
        assert(self@ =~= renumbered(before));
    }

    /// Adds a shortcut with the given name, executable and identifier at the
    /// end of the list, unless the list has the name already.
    pub fn add_with_id(&mut self, name: &[u8], executable: &[u8], app_id: u32) -> (r: Result<
        (),
        ShortcutError,
    >)
        ensures
            has_name(old(self)@, name@) ==> r == Err::<(), ShortcutError>(
                ShortcutError::DuplicateName,
            ) && *final(self) == *old(self),
            !has_name(old(self)@, name@) ==> r == Ok::<(), ShortcutError>(()) && final(self)@
                == added(old(self)@, name@, executable@, app_id) && dense(final(self)@),
    {
        if self.find(name).is_some() {
            return Err(ShortcutError::DuplicateName);
        }
        self.renumber();
        let order = decimal(self.shortcuts.len());
        let s = Shortcut::new(order, app_id, slice_to_vec(name), slice_to_vec(executable));
        let ghost listed = self.shortcuts@;
        self.shortcuts.push(s);
        proof {
            assert(shortcut_views(listed.push(s)) =~= shortcut_views(listed).push(s@));
            lemma_added_dense(old(self)@, name@, executable@, app_id);
        }
        Ok(())
    }

    /// Adds a shortcut with the given name and executable at the end of the
    /// list, unless the list has the name already. The identifier of the new
    /// shortcut is the one that `steam_shortcuts_util` generates for the
    /// executable and the name.
    pub fn add(&mut self, name: &str, executable: &str) -> (r: Result<(), ShortcutError>)
        ensures
            has_name(old(self)@, name.spec_bytes()) ==> r == Err::<(), ShortcutError>(
                ShortcutError::DuplicateName,
            ) && *final(self) == *old(self),
            !has_name(old(self)@, name.spec_bytes()) ==> r == Ok::<(), ShortcutError>(())
                && final(self)@ == added(
                old(self)@,
                name.spec_bytes(),
                executable.spec_bytes(),
                generated_app_id(executable@, name@),
            ) && dense(final(self)@),
    {
        let app_id = calculate_app_id(executable, name);
        self.add_with_id(name.as_bytes(), executable.as_bytes(), app_id)
    }

    /// Takes the first shortcut with the given name out of the list.
    pub fn remove(&mut self, name: &[u8]) -> (r: Result<(), ShortcutError>)
        ensures
            !has_name(old(self)@, name@) ==> r == Err::<(), ShortcutError>(ShortcutError::NotFound)
                && *final(self) == *old(self),
            has_name(old(self)@, name@) ==> r == Ok::<(), ShortcutError>(()) && final(self)@
                == removed(old(self)@, name@) && dense(final(self)@),
    {
        match self.find(name) {
            None => Err(ShortcutError::NotFound),
            Some(i) => {
                let ghost listed = self.shortcuts@;
                proof {
                    lemma_first_named(self@, name@);
                }
                self.shortcuts.remove(i);
                proof {
                    assert(shortcut_views(listed.remove(i as int)) =~= shortcut_views(
                        listed,
                    ).remove(i as int));
                    assert(listed == old(self).shortcuts@);
                    assert(i as int == first_named(old(self)@, name@));
                    assert(self.shortcuts@ == listed.remove(i as int));
                    assert(self@ == old(self)@.remove(first_named(old(self)@, name@)));
                    lemma_removed_dense(old(self)@, name@);
                }
                self.renumber();
                assert(self@ == removed(old(self)@, name@));
                Ok(())
            },
        }
    }
}

/// An addition leaves the orders dense: the order of each shortcut is the
/// decimal text of its position.
pub proof fn lemma_added_dense(
    ss: Seq<ShortcutView>,
    name: Seq<u8>,
    executable: Seq<u8>,
    app_id: u32,
)
    ensures
        dense(added(ss, name, executable, app_id)),
        added(ss, name, executable, app_id).len() == ss.len() + 1,
{
    lemma_renumbered(ss);
}

/// A removal leaves the orders dense: the order of each shortcut is the
/// decimal text of its position.
pub proof fn lemma_removed_dense(ss: Seq<ShortcutView>, name: Seq<u8>)
    requires
        has_name(ss, name),
    ensures
        dense(removed(ss, name)),
        removed(ss, name).len() == ss.len() - 1,
{
    lemma_first_named(ss, name);
    lemma_renumbered(ss.remove(first_named(ss, name)));
}

/// Dense orders are the numbers from zero up to the length of the list, each
/// once and each at its own position: the order at position `i` reads as `i`,
/// and no two positions hold the same order.
pub proof fn lemma_dense_orders(ss: Seq<ShortcutView>)
    requires
        dense(ss),
    ensures
        forall|i: int| 0 <= i < ss.len() ==> decimal_value((#[trigger] ss[i]).order) == Some(i as nat),
        forall|i: int, j: int|
            0 <= i < ss.len() && 0 <= j < ss.len() && i != j ==> (#[trigger] ss[i]).order != (
            #[trigger] ss[j]).order,
{
    assert forall|i: int| 0 <= i < ss.len() implies decimal_value((#[trigger] ss[i]).order) == Some(
        i as nat,
    ) by {
        lemma_decimal_value_of_text(i as nat);
    }
}

/// Adding a name that the list lacks and then removing it gives the list
/// back, but for the orders, which are set to the positions.
pub proof fn lemma_add_then_remove(
    ss: Seq<ShortcutView>,
    name: Seq<u8>,
    executable: Seq<u8>,
    app_id: u32,
)
    requires
        !has_name(ss, name),
    ensures
        has_name(added(ss, name, executable, app_id), name),
        removed(added(ss, name, executable, app_id), name) == renumbered(ss),
{
    let a = added(ss, name, executable, app_id);
    let n = ss.len() as int;
    lemma_renumbered(ss);
    assert(a[n].app_name == name);
    assert forall|j: int| 0 <= j < n implies (#[trigger] a[j]).app_name != name by {
        assert(a[j].app_name == ss[j].app_name);
    }
    lemma_first_named(a, name);
    assert(first_named(a, name) == n);
    assert(a.remove(n) =~= renumbered(ss));
}

/// Edits keep a list writable: after an addition of a name and an executable
/// without terminators, and after a removal, every shortcut can still be
/// written and read back.
pub proof fn lemma_edits_keep_wf(
    ss: Seq<ShortcutView>,
    name: Seq<u8>,
    executable: Seq<u8>,
    app_id: u32,
)
    requires
        all_wf(ss),
    ensures
        all_wf(renumbered(ss)),
        nul_free(name) && nul_free(executable) ==> all_wf(added(ss, name, executable, app_id)),
        has_name(ss, name) ==> all_wf(removed(ss, name)),
{
    lemma_renumbered_wf(ss);
    if nul_free(name) && nul_free(executable) {
        lemma_decimal_text_digits(ss.len());
        lemma_fresh_wf(decimal_text(ss.len()), app_id, name, executable);
    }
    if has_name(ss, name) {
        lemma_first_named(ss, name);
        let i = first_named(ss, name);
        let rest = ss.remove(i);
        assert forall|j: int| 0 <= j < rest.len() implies (#[trigger] rest[j]).wf() by {
            if j < i {
                assert(rest[j] == ss[j]);
            } else {
                assert(rest[j] == ss[j + 1]);
            }
        }
        lemma_renumbered_wf(rest);
    }
}

/// Setting the orders to the positions keeps a list writable.
pub proof fn lemma_renumbered_wf(ss: Seq<ShortcutView>)
    requires
        all_wf(ss),
    ensures
        all_wf(renumbered(ss)),
{
    assert forall|i: int| 0 <= i < ss.len() implies (#[trigger] renumbered(ss)[i]).wf() by {
        lemma_decimal_text_digits(i as nat);
        let s = ss[i];
        let t = at_position(s, i);
        assert(s.wf());
        assert forall|id: FieldId|
            !holds(t.layout, id) implies #[trigger] t.raw(id)
            == blank(t.order).raw(id) by {
            assert(s.raw(id) == blank(s.order).raw(id));
        }
    }
}

} // verus!
