//! Single-selection ordered list with cyclic wraparound navigation.
//!
//! The selection itself lives in tui's `ListState`, so the renderer can hand
//! the very same state to the list widget; the engine reads and writes it
//! only through the trusted items below.

use tui::widgets::ListState;
use vstd::prelude::*;

verus! {

#[verifier::external_type_specification]
#[verifier::external_body]
pub struct ExListState(ListState);

/// The selection that a `ListState` currently holds.
pub uninterp spec fn sel_of(s: ListState) -> Option<usize>;

/// Relies on tui's derived `ListState::default`: a fresh state holds no
/// selection.
#[verifier::external_body]
pub fn new_list_state() -> (r: ListState)
    ensures
        sel_of(r) == None::<usize>,
{
    ListState::default()
}

/// Relies on tui's `ListState::selected`: returns the stored selection.
pub assume_specification[ ListState::selected ](s: &ListState) -> (r: Option<usize>)
    ensures
        r == sel_of(*s),
;

/// Relies on tui's `ListState::select`: stores exactly the given selection.
pub assume_specification[ ListState::select ](s: &mut ListState, index: Option<usize>)
    ensures
        sel_of(*final(s)) == index,
;

/// The index selected after one forward step on a non-empty list of length
/// `len`: no selection starts at the head, the last entry wraps to the head.
pub open spec fn next_index(sel: Option<usize>, len: int) -> int {
    match sel {
        Option::None => 0,
        Option::Some(i) => if i as int + 1 >= len {
            0
        } else {
            i as int + 1
        },
    }
}

/// The index selected after one backward step on a non-empty list of length
/// `len`: no selection starts at the head, the head wraps to the last entry.
pub open spec fn prev_index(sel: Option<usize>, len: int) -> int {
    match sel {
        Option::None => 0,
        Option::Some(i) => if i as int == 0 {
            len - 1
        } else {
            i as int - 1
        },
    }
}

/// One forward navigation step: a no-op on an empty list.
pub open spec fn step_next(sel: Option<usize>, len: int) -> Option<usize> {
    if len <= 0 {
        sel
    } else {
        Option::Some(next_index(sel, len) as usize)
    }
}

/// One backward navigation step: a no-op on an empty list.
pub open spec fn step_prev(sel: Option<usize>, len: int) -> Option<usize> {
    if len <= 0 {
        sel
    } else {
        Option::Some(prev_index(sel, len) as usize)
    }
}

/// The selection after `k` forward steps.
pub open spec fn iter_next(sel: Option<usize>, len: int, k: nat) -> Option<usize>
    decreases k,
{
    if k == 0 {
        sel
    } else {
        step_next(iter_next(sel, len, (k - 1) as nat), len)
    }
}

/// The selection after `k` backward steps.
pub open spec fn iter_prev(sel: Option<usize>, len: int, k: nat) -> Option<usize>
    decreases k,
{
    if k == 0 {
        sel
    } else {
        step_prev(iter_prev(sel, len, (k - 1) as nat), len)
    }
}

/// An ordered item list plus the widget selection state over it.
pub struct StatefulList<T> {
    pub state: ListState,
    pub items: Vec<T>,
}

impl<T> StatefulList<T> {
    /// The selection, when present, points into the items.
    pub open spec fn wf(self) -> bool {
        match sel_of(self.state) {
            Option::Some(i) => (i as int) < self.items@.len(),
            Option::None => true,
        }
    }

    pub fn with_items(items: Vec<T>) -> (r: StatefulList<T>)
        ensures
            r.items == items,
            sel_of(r.state) == None::<usize>,
            r.wf(),
    {
        StatefulList { state: new_list_state(), items }
    }

    /// Selects the next entry, wrapping to the head past the end; selects the
    /// head when nothing was selected; does nothing on an empty list.
    pub fn next(&mut self)
        requires
            old(self).wf(),
        ensures
            final(self).items == old(self).items,
            sel_of(final(self).state) == step_next(
                sel_of(old(self).state),
                old(self).items@.len() as int,
            ),
            old(self).items@.len() == 0 ==> *final(self) == *old(self),
            old(self).items@.len() > 0 ==> final(self).wf(),
    {
        if self.items.len() == 0 {
            return ;
        }
        let i: usize = match self.state.selected() {
            Option::Some(i) => if i >= self.items.len() - 1 {
                0
            } else {
                i + 1
            },
            Option::None => 0,
        };
        self.state.select(Some(i));
    }

    /// Selects the previous entry, wrapping to the last entry before the
    /// head; selects the head when nothing was selected; does nothing on an
    /// empty list.
    pub fn previous(&mut self)
        requires
            old(self).wf(),
        ensures
            final(self).items == old(self).items,
            sel_of(final(self).state) == step_prev(
                sel_of(old(self).state),
                old(self).items@.len() as int,
            ),
            old(self).items@.len() == 0 ==> *final(self) == *old(self),
            old(self).items@.len() > 0 ==> final(self).wf(),
    {
        if self.items.len() == 0 {
            return ;
        }
        let i: usize = match self.state.selected() {
            Option::Some(i) => if i == 0 {
                self.items.len() - 1
            } else {
                i - 1
            },
            Option::None => 0,
        };
        self.state.select(Some(i));
    }

    /// Swaps in a new item sequence; the selection moves to the head when the
    /// new sequence is non-empty and is cleared otherwise.
    pub fn replace(&mut self, items: Vec<T>)
        ensures
            final(self).items == items,
            sel_of(final(self).state) == if items@.len() > 0 {
                Some(0usize)
            } else {
                None::<usize>
            },
            final(self).wf(),
    {
        let non_empty = items.len() > 0;
        self.items = items;
        if non_empty {
            self.state.select(Some(0));
        } else {
            self.state.select(None);
        }
    }
}

/// After `k <= len` forward steps from index `i` on a list of length `len`,
/// the selection sits at `i + k`, reduced once by `len` past the end.
proof fn lemma_iter_next_shift(i: usize, len: int, k: nat)
    requires
        0 < len,
        len <= usize::MAX,
        (i as int) < len,
        k <= len,
    ensures
        iter_next(Some(i), len, k) == Some(
            (if i as int + k < len {
                i as int + k
            } else {
                i as int + k - len
            }) as usize,
        ),
    decreases k,
{
    if k > 0 {
        lemma_iter_next_shift(i, len, (k - 1) as nat);
    }
}

/// After `k <= len` backward steps from index `i` on a list of length `len`,
/// the selection sits at `i - k`, raised once by `len` below the head.
proof fn lemma_iter_prev_shift(i: usize, len: int, k: nat)
    requires
        0 < len,
        len <= usize::MAX,
        (i as int) < len,
        k <= len,
    ensures
        iter_prev(Some(i), len, k) == Some(
            (if i as int - k >= 0 {
                i as int - k
            } else {
                i as int - k + len
            }) as usize,
        ),
    decreases k,
{
    if k > 0 {
        lemma_iter_prev_shift(i, len, (k - 1) as nat);
    }
}

/// Law: on a non-empty list, exactly `len` forward steps return the
/// selection to its starting index, and so do `len` backward steps.
pub proof fn lemma_full_cycle_returns(i: usize, len: int)
    requires
        0 < len,
        len <= usize::MAX,
        (i as int) < len,
    ensures
        iter_next(Some(i), len, len as nat) == Some(i),
        iter_prev(Some(i), len, len as nat) == Some(i),
{
    lemma_iter_next_shift(i, len, len as nat);
    lemma_iter_prev_shift(i, len, len as nat);
}

/// Law: on an empty list, any number of navigation steps in either direction
/// leaves the selection exactly as it was; in particular an absent selection
/// stays absent.
pub proof fn lemma_empty_navigation_noop(sel: Option<usize>, k: nat)
    ensures
        iter_next(sel, 0, k) == sel,
        iter_prev(sel, 0, k) == sel,
    decreases k,
{
    if k > 0 {
        lemma_empty_navigation_noop(sel, (k - 1) as nat);
    }
}

} // verus!
