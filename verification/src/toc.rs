use vstd::prelude::*;

verus! {

/// The table-of-contents popup: whether it shows, and which entry is selected.
#[derive(Debug)]
pub struct TocState {
    pub visible: bool,
    pub selected: usize,
}

impl Default for TocState {
    fn default() -> (t: Self)
        ensures
            !t.visible,
            t.selected == 0,
    {
        TocState { visible: false, selected: 0 }
    }
}

impl TocState {
    /// Shows the popup if hidden, hides it if shown.
    pub fn toggle(&mut self)
        ensures
            final(self).visible == !old(self).visible,
            final(self).selected == old(self).selected,
    {
        self.visible = !self.visible;
    }

    /// Selects the entry above, if there is one.
    pub fn move_up(&mut self)
        ensures
            final(self).selected == selection_after_up(old(self).selected as nat),
            final(self).visible == old(self).visible,
    {
        if self.selected > 0 {
            self.selected -= 1;
        }
    }

    /// Selects the entry below, if it is still one of the first `max` entries.
    pub fn move_down(&mut self, max: usize)
        requires
            old(self).selected < usize::MAX,
        ensures
            final(self).selected == selection_after_down(old(self).selected as nat, max as nat),
            final(self).visible == old(self).visible,
    {
        if self.selected + 1 < max {
            self.selected += 1;
        }
    }
}

/// What `move_up` makes of a selection.
pub open spec fn selection_after_up(selected: nat) -> nat {
    if selected > 0 {
        (selected - 1) as nat
    } else {
        0
    }
}

/// What `move_down` makes of a selection among `max` entries.
pub open spec fn selection_after_down(selected: nat, max: nat) -> nat {
    if selected + 1 < max {
        selected + 1
    } else {
        selected
    }
}

/// Moving the selection never leaves the list: a selection among `max`
/// entries stays among them after a move down or a move up.
pub proof fn law_selection_stays_in_list(selected: nat, max: nat)
    requires
        selected < max,
    ensures
        selection_after_down(selected, max) < max,
        selection_after_up(selected) < max,
{
}

/// A move down that moved is undone by a move up, and a move up from below
/// the top is undone by a move down.
pub proof fn law_moves_undo_each_other(selected: nat, max: nat)
    ensures
        selected + 1 < max ==> selection_after_up(selection_after_down(selected, max)) == selected,
        0 < selected < max ==> selection_after_down(selection_after_up(selected), max) == selected,
{
}

} // verus!
