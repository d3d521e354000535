use vstd::prelude::*;

use crate::list::spec_advance;
use crate::list::spec_move_by;
use crate::list::spec_move_to;
use crate::list::spec_retreat;
use crate::list::IterList;

verus! {

/// A non-owning snapshot of a list's cursor.
///
/// A cursor walks the same chain as its list through its own copy of the
/// position, so several cursors can range over one list without disturbing
/// the list's cursor. A cursor made without a list — or from an empty list —
/// carries an explicit empty state and answers every traversal with its
/// boundary outcome until `reacquire` attaches it to a non-empty list.
pub struct Cursor<'i, T> {
    pub(crate) list: Option<&'i IterList<T>>,
    pub(crate) current: Option<usize>,
    pub(crate) index: usize,
}

impl<'i, T> Cursor<'i, T> {
    /// Well-formedness: a detached cursor is empty; an attached one rests on
    /// the node of its list at its own index (or nowhere, iff the list is
    /// empty).
    pub open(crate) spec fn wf(&self) -> bool {
        match self.list {
            None => self.current is None && self.index == 0,
            Some(l) => {
                &&& l.wf()
                &&& if l@.len() == 0 {
                    self.current is None && self.index == 0
                } else {
                    self.index < l@.len() && self.current == Some(l.order@[self.index as int])
                }
            },
        }
    }

    /// The cursor's position as a mathematical integer.
    pub open(crate) spec fn idx(&self) -> int {
        self.index as int
    }
}

impl<'i, T> View for Cursor<'i, T> {
    type V = Seq<T>;

    /// The elements the cursor ranges over: those of its list, front to
    /// back (none when the cursor is detached).
    open(crate) spec fn view(&self) -> Seq<T> {
        match self.list {
            None => Seq::empty(),
            Some(l) => l@,
        }
    }
}

impl<'i, T> Cursor<'i, T> {
    /// Create a detached cursor; it stays empty until `reacquire` attaches
    /// it to a list.
    pub fn new() -> (r: Self)
        ensures
            r.wf(),
            r@ == Seq::<T>::empty(),
            r.idx() == 0,
    {
        Cursor { list: None, current: None, index: 0 }
    }

    /// Create a cursor standing exactly where the given non-empty list's
    /// own cursor stands.
    pub fn from(list: &'i IterList<T>) -> (r: Self)
        requires
            list.wf(),
            list@.len() > 0,
        ensures
            r.wf(),
            r@ == list@,
            r.idx() == list.idx(),
    {
        Cursor { list: Some(list), current: list.current, index: list.index }
    }

    /// Re-point the cursor at the given list's present cursor position —
    /// for reuse across lists, or after losing track of a position.
    pub fn reacquire(&mut self, list: &'i IterList<T>)
        requires
            list.wf(),
        ensures
            final(self).wf(),
            final(self)@ == list@,
            final(self).idx() == list.idx(),
    {
        self.list = Some(list);
        self.current = list.current;
        self.index = list.index;
    }

    /// The cursor's zero-based distance from the front of its list.
    pub fn index(&self) -> (r: usize)
        requires
            self.wf(),
        ensures
            r as int == self.idx(),
            self@.len() == 0 ==> r == 0,
            self@.len() > 0 ==> (r as int) < self@.len(),
    {
        self.index
    }

    /// A reference to the element under the cursor, or `None` when the
    /// cursor is detached or its list is empty.
    pub fn current(&self) -> (r: Option<&'i T>)
        requires
            self.wf(),
        ensures
            self@.len() == 0 ==> r is None,
            self@.len() > 0 ==> r is Some && *r->0 == self@[self.idx()],
    {
        let l = match self.list {
            None => {
                return None;
            },
            Some(l) => l,
        };
        match self.current {
            None => None,
            Some(j) => {
                proof {
                    assert(l.live(l.order@[self.idx()]));
                }
                match &l.nodes[j] {
                    Some(nd) => Some(&nd.elem),
                    None => vstd::pervasive::unreached(),
                }
            },
        }
    }

    /// Move the cursor one step toward the back of its list. Reports
    /// `false`, without moving, at the back boundary and on an empty or
    /// detached cursor.
    pub fn advance(&mut self) -> (moved: bool)
        requires
            old(self).wf(),
        ensures
            final(self).wf(),
            final(self)@ == old(self)@,
            final(self).idx() == spec_advance(old(self)@, old(self).idx()).0,
            moved == spec_advance(old(self)@, old(self).idx()).1,
    {
        let l = match self.list {
            None => {
                return false;
            },
            Some(l) => l,
        };
        let cur: usize = match self.current {
            None => {
                return false;
            },
            Some(c) => c,
        };
        proof {
            assert(l.live(l.order@[self.idx()]));
            assert(l.node(self.idx()).next == l.link_to(self.idx() + 1));
        }
        match crate::list::next_of(&l.nodes, cur) {
            Some(nx) => {
                self.current = Some(nx);
                self.index = self.index + 1;
                true
            },
            None => false,
        }
    }

    /// Move the cursor one step toward the front of its list. Reports
    /// `false`, without moving, at the front boundary and on an empty or
    /// detached cursor.
    pub fn retreat(&mut self) -> (moved: bool)
        requires
            old(self).wf(),
        ensures
            final(self).wf(),
            final(self)@ == old(self)@,
            final(self).idx() == spec_retreat(old(self)@, old(self).idx()).0,
            moved == spec_retreat(old(self)@, old(self).idx()).1,
    {
        let l = match self.list {
            None => {
                return false;
            },
            Some(l) => l,
        };
        let cur: usize = match self.current {
            None => {
                return false;
            },
            Some(c) => c,
        };
        proof {
            assert(l.live(l.order@[self.idx()]));
            assert(l.node(self.idx()).prev == l.link_to(self.idx() - 1));
        }
        match crate::list::prev_of(&l.nodes, cur) {
            Some(p) => {
                self.current = Some(p);
                self.index = self.index - 1;
                true
            },
            None => false,
        }
    }

    /// Walk the cursor to the front of its list and report how many steps
    /// that took.
    pub fn move_to_front(&mut self) -> (steps: usize)
        requires
            old(self).wf(),
        ensures
            final(self).wf(),
            final(self)@ == old(self)@,
            final(self).idx() == 0,
            steps as int == old(self).idx(),
    {
        let ghost pre = *self;
        let mut steps: usize = 0;
        loop
            invariant
                self.wf(),
                self@ == pre@,
                steps as int == pre.idx() - self.idx(),
                0 <= self.idx() <= pre.idx(),
            ensures
                self.wf(),
                self@ == pre@,
                self.idx() == 0,
                steps as int == pre.idx(),
            decreases self.idx(),
        {
            if !self.retreat() {
                proof {
                    assert(self.idx() == 0);
                }
                break;
            }
            steps = steps + 1;
        }
        steps
    }

    /// Walk the cursor to the back of its list and report how many steps
    /// that took.
    pub fn move_to_back(&mut self) -> (steps: usize)
        requires
            old(self).wf(),
        ensures
            final(self).wf(),
            final(self)@ == old(self)@,
            old(self)@.len() == 0 ==> final(self).idx() == 0 && steps == 0,
            old(self)@.len() > 0 ==> final(self).idx() == old(self)@.len() - 1 && steps as int
                == old(self)@.len() - 1 - old(self).idx(),
    {
        let ghost pre = *self;
        let mut steps: usize = 0;
        loop
            invariant
                self.wf(),
                self@ == pre@,
                steps as int == self.idx() - pre.idx(),
                pre.idx() <= self.idx(),
                pre@.len() > 0 ==> self.idx() < pre@.len(),
                pre@.len() == 0 ==> self.idx() == 0,
            ensures
                self.wf(),
                self@ == pre@,
                steps as int == self.idx() - pre.idx(),
                pre@.len() == 0 ==> self.idx() == 0,
                pre@.len() > 0 ==> self.idx() == pre@.len() - 1,
            decreases self@.len() - self.idx(),
        {
            if !self.advance() {
                break;
            }
            steps = steps + 1;
        }
        steps
    }

    /// Walk the cursor to the given position of its list. A target beyond
    /// the back parks the cursor on the last element and reports `false`.
    pub fn move_to(&mut self, index: usize) -> (reached: bool)
        requires
            old(self).wf(),
        ensures
            final(self).wf(),
            final(self)@ == old(self)@,
            final(self).idx() == spec_move_to(old(self)@, old(self).idx(), index as int).0,
            reached == spec_move_to(old(self)@, old(self).idx(), index as int).1,
    {
        let l = match self.list {
            None => {
                return index == 0;
            },
            Some(l) => l,
        };
        if l.len == 0 {
            return index == 0;
        }
        let target: usize = if index <= l.len - 1 {
            index
        } else {
            l.len - 1
        };
        let reached = index == target;
        let ghost pre = *self;
        while self.index > target
            invariant
                self.wf(),
                self@ == pre@,
                (target as int) < self@.len(),
            decreases self.idx(),
        {
            let moved = self.retreat();
            proof {
                assert(moved);
            }
        }
        while self.index < target
            invariant
                self.wf(),
                self@ == pre@,
                (target as int) < self@.len(),
                self.idx() <= target as int,
            decreases target as int - self.idx(),
        {
            let moved = self.advance();
            proof {
                assert(moved);
            }
        }
        reached
    }

    /// Walk the cursor by the given signed offset. An offset crossing a
    /// boundary parks the cursor on the boundary element and reports
    /// `false`.
    pub fn move_by(&mut self, offset: isize) -> (moved: bool)
        requires
            old(self).wf(),
        ensures
            final(self).wf(),
            final(self)@ == old(self)@,
            final(self).idx() == spec_move_by(old(self)@, old(self).idx(), offset as int).0,
            moved == spec_move_by(old(self)@, old(self).idx(), offset as int).1,
    {
        let ghost pre = *self;
        let ghost i0 = self.idx();
        let ghost n = self@.len() as int;
        if self.current.is_none() {
            return offset == 0;
        }
        if offset > 0 {
            let mut k: isize = 0;
            let mut ok = true;
            while k < offset
                invariant
                    self.wf(),
                    self@ == pre@,
                    pre@.len() == n,
                    n > 0,
                    pre.idx() == i0,
                    0 <= k <= offset,
                    self.idx() == if i0 + k < n {
                        i0 + k
                    } else {
                        n - 1
                    },
                    ok == (k == 0 || i0 + k <= n - 1),
                decreases offset - k,
            {
                ok = self.advance();
                k = k + 1;
            }
            ok
        } else if offset < 0 {
            let mut k: isize = 0;
            let mut ok = true;
            while k > offset
                invariant
                    self.wf(),
                    self@ == pre@,
                    pre@.len() == n,
                    n > 0,
                    pre.idx() == i0,
                    offset <= k <= 0,
                    self.idx() == if i0 + k > 0 {
                        i0 + k
                    } else {
                        0
                    },
                    ok == (k == 0 || i0 + k >= 0),
                decreases k - offset,
            {
                ok = self.retreat();
                k = k - 1;
            }
            ok
        } else {
            true
        }
    }

    /// A reference to the element `offset` steps from the cursor (negative
    /// offsets look toward the front), or `None` when no element stands
    /// there. The cursor does not move.
    pub fn get(&self, offset: isize) -> (r: Option<&'i T>)
        requires
            self.wf(),
        ensures
            0 <= self.idx() + offset < self@.len() ==> r is Some && *r->0 == self@[self.idx()
                + offset],
            !(0 <= self.idx() + offset < self@.len()) ==> r is None,
    {
        let l = match self.list {
            None => {
                return None;
            },
            Some(l) => l,
        };
        match self.current {
            None => None,
            Some(_) => {
                let mut probe = Cursor { list: Some(l), current: self.current, index: self.index };
                let moved = probe.move_by(offset);
                if moved {
                    probe.current()
                } else {
                    None
                }
            },
        }
    }
}

} // verus!
