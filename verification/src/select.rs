//! Selection state: an ordered list wrapped with a movable cursor that wraps
//! around at both ends and always designates a valid element while the list
//! is non-empty.

use vstd::prelude::*;

verus! {

/// Cursor position one step forward, wrapping past the last element to the
/// first; 0 on an empty list.
pub open spec fn advance(c: int, n: int) -> int {
    if n == 0 {
        0
    } else if c + 1 < n {
        c + 1
    } else {
        0
    }
}

/// Cursor position one step back, wrapping past the first element to the
/// last; 0 on an empty list.
pub open spec fn retreat(c: int, n: int) -> int {
    if n == 0 {
        0
    } else if c == 0 {
        n - 1
    } else {
        c - 1
    }
}

/// The cursor after `k` forward steps.
pub open spec fn advance_many(c: int, n: int, k: nat) -> int
    decreases k,
{
    if k == 0 {
        c
    } else {
        advance(advance_many(c, n, (k - 1) as nat), n)
    }
}

/// `k` forward steps from a valid cursor land on `c + k`, reduced once by
/// `n` when that runs past the end.
proof fn lemma_advance_many_value(c: int, n: int, k: nat)
    requires
        0 <= c < n,
        k <= n,
    ensures
        advance_many(c, n, k) == if c + k < n {
            c + k
        } else {
            c + k - n
        },
    decreases k,
{
    if k != 0 {
        lemma_advance_many_value(c, n, (k - 1) as nat);
    }
}

/// Cursor wraparound: on a list of length `n`, advancing `n` times from any
/// valid position returns to it, and retreating from the front lands on the
/// last element.
pub proof fn lemma_cursor_wraparound(c: int, n: int)
    requires
        0 <= c < n,
    ensures
        advance_many(c, n, n as nat) == c,
        retreat(0, n) == n - 1,
{
    lemma_advance_many_value(c, n, n as nat);
}

/// An ordered list of items with a selection cursor.
pub struct StatefulList<T> {
    items: Vec<T>,
    selected: usize,
}

impl<T> View for StatefulList<T> {
    type V = (Seq<T>, int);

    /// The items and the cursor position.
    closed spec fn view(&self) -> (Seq<T>, int) {
        (self.items@, self.selected as int)
    }
}

impl<T> StatefulList<T> {
    /// While the list is non-empty the cursor designates one valid element;
    /// on an empty list it rests at 0.
    #[verifier::type_invariant]
    spec fn cursor_in_range(self) -> bool {
        if self.items@.len() == 0 {
            self.selected == 0
        } else {
            (self.selected as int) < self.items@.len()
        }
    }

    /// Wraps a list of items, selecting the first element.
    pub fn with_items(items: Vec<T>) -> (r: StatefulList<T>)
        ensures
            r@.0 == items@,
            r@.1 == 0,
    {
        StatefulList { items, selected: 0 }
    }

    /// Moves the cursor one step forward, wrapping to the front.
    pub fn next(&mut self)
        ensures
            final(self)@.0 == old(self)@.0,
            final(self)@.1 == advance(old(self)@.1, old(self)@.0.len() as int),
        no_unwind
    {
        proof {
            use_type_invariant(&*self);
        }
        if self.items.len() == 0 {
            self.selected = 0;
        } else if self.selected >= self.items.len() - 1 {
            self.selected = 0;
        } else {
            self.selected = self.selected + 1;
        }
    }

    /// Moves the cursor one step back, wrapping to the end.
    pub fn previous(&mut self)
        ensures
            final(self)@.0 == old(self)@.0,
            final(self)@.1 == retreat(old(self)@.1, old(self)@.0.len() as int),
        no_unwind
    {
        proof {
            use_type_invariant(&*self);
        }
        if self.items.len() == 0 {
            self.selected = 0;
        } else if self.selected == 0 {
            self.selected = self.items.len() - 1;
        } else {
            self.selected = self.selected - 1;
        }
    }

    /// The cursor position; on a non-empty list it indexes a valid element,
    /// on an empty list it is 0.
    pub fn selected_index(&self) -> (r: usize)
        ensures
            r as int == self@.1,
            self@.0.len() == 0 ==> r == 0,
            self@.0.len() > 0 ==> (r as int) < self@.0.len(),
    {
        proof {
            use_type_invariant(&*self);
        }
        self.selected
    }

    /// The element under the cursor; `None` exactly when the list is empty.
    pub fn selected(&self) -> (r: Option<&T>)
        ensures
            self@.0.len() == 0 ==> r is None,
            self@.0.len() > 0 ==> (r matches Some(x) && 0 <= self@.1 < self@.0.len() && *x
                == self@.0[self@.1]),
    {
        proof {
            use_type_invariant(&*self);
        }
        if self.items.len() == 0 {
            None
        } else {
            Some(&self.items[self.selected])
        }
    }

    /// The wrapped items.
    pub fn items(&self) -> (r: &Vec<T>)
        ensures
            r@ == self@.0,
    {
        &self.items
    }

    /// The number of wrapped items.
    pub fn len(&self) -> (r: usize)
        ensures
            r as int == self@.0.len(),
    {
        self.items.len()
    }
}

} // verus!
