//! The modes in which groups are printed.

use crate::format_element::FormatElement;
use crate::tag::{GroupId, PrintMode};
use vstd::prelude::*;

verus! {

/// Tracks the mode in which groups with ids are printed. Stores the groups at their id as index.
/// This is based on the assumption that the group ids for a single document are dense.
#[derive(Debug)]
pub struct GroupModes {
    modes: Vec<Option<PrintMode>>,
}

impl View for GroupModes {
    /// The mode of every group that has one.
    type V = Map<GroupId, PrintMode>;

    closed spec fn view(&self) -> Map<GroupId, PrintMode> {
        Map::new(
            |id: GroupId| id.value < self.modes@.len() && self.modes@[id.value as int] is Some,
            |id: GroupId| self.modes@[id.value as int]->0,
        )
    }
}

impl GroupModes {
    /// No group has a mode yet.
    pub fn new() -> (modes: Self)
        ensures
            modes@ == Map::<GroupId, PrintMode>::empty(),
    {
        let modes = GroupModes { modes: Vec::new() };
        assert(modes@ =~= Map::<GroupId, PrintMode>::empty());
        modes
    }

    /// Records that the group is printed in `mode`.
    pub fn insert_print_mode(&mut self, group_id: GroupId, mode: PrintMode)
        ensures
            final(self)@ == old(self)@.insert(group_id, mode),
    {
        let index: usize = group_id.value as usize;
        let ghost before = self@;

        while self.modes.len() <= index
            invariant
                self@ == before,
            decreases index + 1 - self.modes@.len(),
        {
            self.modes.push(None);
            assert(self@ =~= before);
        }

        self.modes.set(index, Some(mode));
        assert(self@ =~= before.insert(group_id, mode));
    }

    /// The mode in which the group is printed, if it is known.
    pub fn get_print_mode(&self, group_id: GroupId) -> (mode: Option<PrintMode>)
        ensures
            mode == (if self@.contains_key(group_id) {
                Some(self@[group_id])
            } else {
                None
            }),
    {
        let index: usize = group_id.value as usize;
        if index < self.modes.len() {
            self.modes[index]
        } else {
            None
        }
    }

    /// The mode in which the group is printed. A group must come before every element that refers
    /// to it, as `next_element` does.
    pub fn unwrap_print_mode(&self, group_id: GroupId, next_element: &FormatElement) -> (mode:
        PrintMode)
        requires
            self@.contains_key(group_id),
        ensures
            mode == self@[group_id],
    {
        self.modes[group_id.value as usize].unwrap()
    }
}

impl Default for GroupModes {
    fn default() -> (modes: Self)
        ensures
            modes@ == Map::<GroupId, PrintMode>::empty(),
    {
        Self::new()
    }
}

} // verus!
