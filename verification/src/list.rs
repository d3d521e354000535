use vstd::prelude::*;

verus! {

/// Abstract effect of `insert_next` on the pair (elements, cursor index).
pub open spec fn spec_insert_next<T>(s: Seq<T>, i: int, e: T) -> (Seq<T>, int) {
    if s.len() == 0 {
        (seq![e], 0)
    } else {
        (s.insert(i + 1, e), i)
    }
}

/// Abstract effect of `insert_prev` on the pair (elements, cursor index):
/// the element enters at the cursor's position, and the cursor — still on
/// the same node — finds itself one step further from the front.
pub open spec fn spec_insert_prev<T>(s: Seq<T>, i: int, e: T) -> (Seq<T>, int) {
    if s.len() == 0 {
        (seq![e], 0)
    } else {
        (s.insert(i, e), i + 1)
    }
}

/// Abstract effect of `push_next` on the pair (elements, cursor index): as
/// `insert_next`, but the cursor moves onto the new element.
pub open spec fn spec_push_next<T>(s: Seq<T>, i: int, e: T) -> (Seq<T>, int) {
    if s.len() == 0 {
        (seq![e], 0)
    } else {
        (s.insert(i + 1, e), i + 1)
    }
}

/// Abstract effect of `push_prev` on the pair (elements, cursor index): as
/// `insert_prev`, but the cursor moves onto the new element.
pub open spec fn spec_push_prev<T>(s: Seq<T>, i: int, e: T) -> (Seq<T>, int) {
    if s.len() == 0 {
        (seq![e], 0)
    } else {
        (s.insert(i, e), i)
    }
}

/// Abstract effect of `advance` on the cursor index, with the flag telling
/// whether the cursor moved (it stays put at the back boundary and on an
/// empty list).
pub open spec fn spec_advance<T>(s: Seq<T>, i: int) -> (int, bool) {
    if i + 1 < s.len() {
        (i + 1, true)
    } else {
        (i, false)
    }
}

/// Abstract effect of `retreat` on the cursor index, with the flag telling
/// whether the cursor moved (it stays put at the front boundary and on an
/// empty list).
pub open spec fn spec_retreat<T>(s: Seq<T>, i: int) -> (int, bool) {
    if s.len() > 0 && i > 0 {
        (i - 1, true)
    } else {
        (i, false)
    }
}

/// Abstract effect of `move_to` on the cursor index, with the flag telling
/// whether the requested position was reached: a target beyond the back
/// leaves the cursor parked on the last element.
pub open spec fn spec_move_to<T>(s: Seq<T>, i: int, target: int) -> (int, bool) {
    if s.len() == 0 {
        (0, target == 0)
    } else if target < s.len() {
        (target, true)
    } else {
        (s.len() - 1, false)
    }
}

/// Abstract effect of `move_by` on the cursor index, with the flag telling
/// whether the whole offset could be travelled: an offset crossing either
/// boundary leaves the cursor parked on the boundary element.
pub open spec fn spec_move_by<T>(s: Seq<T>, i: int, offset: int) -> (int, bool) {
    if s.len() == 0 {
        (0, offset == 0)
    } else if i + offset < 0 {
        (0, false)
    } else if i + offset >= s.len() {
        (s.len() - 1, false)
    } else {
        (i + offset, true)
    }
}

/// Abstract effect of `consume_forward` on a non-empty list: the pair
/// (elements, cursor index) after the removal, and the pair (removed
/// element, whether a successor remained for the cursor to move onto).
pub open spec fn spec_consume_forward<T>(s: Seq<T>, i: int) -> ((Seq<T>, int), (T, bool))
    recommends
        0 <= i < s.len(),
{
    let had_next = i + 1 < s.len();
    (
        (
            s.remove(i),
            if had_next {
                i
            } else if i > 0 {
                i - 1
            } else {
                0
            },
        ),
        (s[i], had_next),
    )
}

/// Abstract effect of `consume_backward` on a non-empty list: the pair
/// (elements, cursor index) after the removal, and the pair (removed
/// element, whether a predecessor remained for the cursor to move onto).
pub open spec fn spec_consume_backward<T>(s: Seq<T>, i: int) -> ((Seq<T>, int), (T, bool))
    recommends
        0 <= i < s.len(),
{
    let had_prev = i > 0;
    (
        (
            s.remove(i),
            if had_prev {
                i - 1
            } else {
                0
            },
        ),
        (s[i], had_prev),
    )
}

/// One cell of the chain: the element plus the handles of its two
/// neighbours. Handles index the owning list's node arena; the ends of the
/// chain hold `None` in place of a neighbour.
#[verifier::ext_equal]
pub struct Node<T> {
    pub(crate) prev: Option<usize>,
    pub(crate) next: Option<usize>,
    pub(crate) elem: T,
}

/// A doubly linked list with a movable cursor.
///
/// The list owns an arena of nodes; `current` is the handle of the node the
/// cursor rests on (`None` exactly when the list is empty), `index` its
/// zero-based distance from the front, and `len` the number of elements.
/// The ghost `order` records the arena handles of the live nodes from front
/// to back; it is the bridge between the exec links and the abstract
/// sequence of elements.
pub struct IterList<T> {
    pub(crate) nodes: Vec<Option<Node<T>>>,
    pub(crate) current: Option<usize>,
    pub(crate) index: usize,
    pub(crate) len: usize,
    pub(crate) order: Ghost<Seq<usize>>,
}

/// The arena slot `j` of `nodes` exists and still holds a node.
pub(crate) open spec fn slot_live<T>(nodes: Seq<Option<Node<T>>>, j: usize) -> bool {
    j < nodes.len() && nodes[j as int] is Some
}

/// The node of `nodes` standing at position `k` of the chain described by
/// `ord`, front to back.
pub(crate) open spec fn node_at<T>(nodes: Seq<Option<Node<T>>>, ord: Seq<usize>, k: int) -> Node<
    T,
>
    recommends
        0 <= k < ord.len(),
{
    nodes[ord[k] as int]->0
}

/// The handle a link field must hold to designate position `k` of the chain
/// described by `ord`: a real handle inside the chain, `None` beyond either
/// end.
pub(crate) open spec fn link_at(ord: Seq<usize>, k: int) -> Option<usize> {
    if 0 <= k < ord.len() {
        Some(ord[k])
    } else {
        None
    }
}

/// Well-formedness of a list given by its parts: the counters agree with
/// the order, every position maps to a distinct live arena slot, each
/// node's links designate exactly its neighbours in the order, and the
/// cursor rests on the node at `index` (or nowhere, iff the list is empty).
pub(crate) open spec fn wf_parts<T>(
    nodes: Seq<Option<Node<T>>>,
    current: Option<usize>,
    index: int,
    len: int,
    ord: Seq<usize>,
) -> bool {
    &&& len == ord.len()
    &&& len <= nodes.len()
    &&& forall|k: int| 0 <= k < ord.len() ==> #[trigger] slot_live(nodes, ord[k])
    &&& forall|k1: int, k2: int|
        #![trigger ord[k1], ord[k2]]
        0 <= k1 < ord.len() && 0 <= k2 < ord.len() && k1 != k2 ==> ord[k1] != ord[k2]
    &&& forall|k: int|
        0 <= k < ord.len() ==> (#[trigger] node_at(nodes, ord, k)).next == link_at(ord, k + 1)
    &&& forall|k: int|
        0 <= k < ord.len() ==> (#[trigger] node_at(nodes, ord, k)).prev == link_at(ord, k - 1)
    &&& if ord.len() == 0 {
        current is None && index == 0
    } else {
        index < ord.len() && current == Some(ord[index])
    }
}

/// The elements held by `nodes`, front to back along `ord`.
pub(crate) open spec fn view_parts<T>(nodes: Seq<Option<Node<T>>>, ord: Seq<usize>) -> Seq<T> {
    Seq::new(ord.len(), |k: int| node_at(nodes, ord, k).elem)
}

impl<T> IterList<T> {
    /// The arena slot `j` exists and still holds a node.
    #[verifier::inline]
    pub(crate) open spec fn live(&self, j: usize) -> bool {
        slot_live(self.nodes@, j)
    }

    /// The node at position `k` of the chain, front to back.
    #[verifier::inline]
    pub(crate) open spec fn node(&self, k: int) -> Node<T>
        recommends
            0 <= k < self.order@.len(),
    {
        node_at(self.nodes@, self.order@, k)
    }

    /// The handle a link field must hold to designate position `k`:
    /// a real handle inside the chain, `None` beyond either end.
    #[verifier::inline]
    pub(crate) open spec fn link_to(&self, k: int) -> Option<usize> {
        link_at(self.order@, k)
    }

    /// Well-formedness of the list, over its parts.
    pub open(crate) spec fn wf(&self) -> bool {
        wf_parts(self.nodes@, self.current, self.index as int, self.len as int, self.order@)
    }

    /// The cursor's position as a mathematical integer.
    pub open(crate) spec fn idx(&self) -> int {
        self.index as int
    }
}

impl<T> Default for IterList<T> {
    /// An empty list.
    fn default() -> (r: Self)
        ensures
            r.wf(),
            r@ == Seq::<T>::empty(),
            r.idx() == 0,
    {
        Self::new()
    }
}

impl<T> View for IterList<T> {
    type V = Seq<T>;

    /// The abstract value of the list: its elements, front to back.
    open(crate) spec fn view(&self) -> Seq<T> {
        view_parts(self.nodes@, self.order@)
    }
}

/// Read the forward link of the node in arena slot `j`.
pub(crate) fn next_of<T>(nodes: &Vec<Option<Node<T>>>, j: usize) -> (r: Option<usize>)
    requires
        j < nodes@.len(),
        nodes@[j as int] is Some,
    ensures
        r == nodes@[j as int]->0.next,
{
    match &nodes[j] {
        Some(nd) => nd.next,
        None => vstd::pervasive::unreached(),
    }
}

/// Read the backward link of the node in arena slot `j`.
pub(crate) fn prev_of<T>(nodes: &Vec<Option<Node<T>>>, j: usize) -> (r: Option<usize>)
    requires
        j < nodes@.len(),
        nodes@[j as int] is Some,
    ensures
        r == nodes@[j as int]->0.prev,
{
    match &nodes[j] {
        Some(nd) => nd.prev,
        None => vstd::pervasive::unreached(),
    }
}

/// Point the forward link of the node in arena slot `j` at `v`.
fn set_next<T>(nodes: &mut Vec<Option<Node<T>>>, j: usize, v: Option<usize>)
    requires
        j < old(nodes)@.len(),
        old(nodes)@[j as int] is Some,
    ensures
        final(nodes)@ == old(nodes)@.update(
            j as int,
            Some(
                (Node {
                    prev: old(nodes)@[j as int]->0.prev,
                    next: v,
                    elem: old(nodes)@[j as int]->0.elem,
                }),
            ),
        ),
{
    match &mut nodes[j] {
        Some(nd) => nd.next = v,
        None => proof {
            assert(false);
        },
    }
}

/// Point the backward link of the node in arena slot `j` at `v`.
fn set_prev<T>(nodes: &mut Vec<Option<Node<T>>>, j: usize, v: Option<usize>)
    requires
        j < old(nodes)@.len(),
        old(nodes)@[j as int] is Some,
    ensures
        final(nodes)@ == old(nodes)@.update(
            j as int,
            Some(
                (Node {
                    prev: v,
                    next: old(nodes)@[j as int]->0.next,
                    elem: old(nodes)@[j as int]->0.elem,
                }),
            ),
        ),
{
    match &mut nodes[j] {
        Some(nd) => nd.prev = v,
        None => proof {
            assert(false);
        },
    }
}

/// Swap the element of the node in arena slot `j` for `elem`, handing the
/// previous element back.
fn replace_elem<T>(nodes: &mut Vec<Option<Node<T>>>, j: usize, elem: T) -> (r: T)
    requires
        j < old(nodes)@.len(),
        old(nodes)@[j as int] is Some,
    ensures
        final(nodes)@ == old(nodes)@.update(
            j as int,
            Some(
                (Node {
                    prev: old(nodes)@[j as int]->0.prev,
                    next: old(nodes)@[j as int]->0.next,
                    elem,
                }),
            ),
        ),
        r == old(nodes)@[j as int]->0.elem,
{
    match &mut nodes[j] {
        Some(nd) => {
            let mut tmp = elem;
            core::mem::swap(&mut nd.elem, &mut tmp);
            tmp
        },
        None => vstd::pervasive::unreached(),
    }
}

/// Empty the arena slot `j`, handing its node back.
fn take_node<T>(nodes: &mut Vec<Option<Node<T>>>, j: usize) -> (r: Node<T>)
    requires
        j < old(nodes)@.len(),
        old(nodes)@[j as int] is Some,
    ensures
        final(nodes)@ == old(nodes)@.update(j as int, None),
        r == old(nodes)@[j as int]->0,
{
    let slot = &mut nodes[j];
    match slot.take() {
        Some(nd) => nd,
        None => vstd::pervasive::unreached(),
    }
}

/// Swapping the element of one node for another — leaving every link, the
/// order and the cursor alone — preserves well-formedness and updates the
/// elements at exactly that node's position.
proof fn lemma_elem_updated_parts<T>(
    nodes: Seq<Option<Node<T>>>,
    current: Option<usize>,
    index: int,
    len: int,
    ord: Seq<usize>,
    p: int,
    e: T,
)
    requires
        wf_parts(nodes, current, index, len, ord),
        0 <= p < ord.len(),
    ensures
        wf_parts(
            nodes.update(
                ord[p] as int,
                Some(
                    (Node {
                        prev: node_at(nodes, ord, p).prev,
                        next: node_at(nodes, ord, p).next,
                        elem: e,
                    }),
                ),
            ),
            current,
            index,
            len,
            ord,
        ),
        view_parts(
            nodes.update(
                ord[p] as int,
                Some(
                    (Node {
                        prev: node_at(nodes, ord, p).prev,
                        next: node_at(nodes, ord, p).next,
                        elem: e,
                    }),
                ),
            ),
            ord,
        ) == view_parts(nodes, ord).update(p, e),
{
    let upd = nodes.update(
        ord[p] as int,
        Some(
            (Node {
                prev: node_at(nodes, ord, p).prev,
                next: node_at(nodes, ord, p).next,
                elem: e,
            }),
        ),
    );
    assert(slot_live(nodes, ord[p]));
    assert forall|k: int| 0 <= k < ord.len() implies #[trigger] slot_live(upd, ord[k]) by {
        assert(slot_live(nodes, ord[k]));
    }
    assert forall|k: int| 0 <= k < ord.len() implies (#[trigger] node_at(upd, ord, k)).next
        == link_at(ord, k + 1) && node_at(upd, ord, k).prev == link_at(ord, k - 1) && node_at(
        upd,
        ord,
        k,
    ).elem == view_parts(nodes, ord).update(p, e)[k] by {
        assert(node_at(nodes, ord, k).next == link_at(ord, k + 1));
        assert(node_at(nodes, ord, k).prev == link_at(ord, k - 1));
        assert(slot_live(nodes, ord[k]));
        if k != p {
            assert(ord[k] != ord[p]);
            assert(upd[ord[k] as int] == nodes[ord[k] as int]);
            assert(node_at(upd, ord, k) == node_at(nodes, ord, k));
        }
    }
    assert(view_parts(upd, ord) =~= view_parts(nodes, ord).update(p, e));
}

impl<T> IterList<T> {
    /// Create a new empty list.
    pub fn new() -> (r: Self)
        ensures
            r.wf(),
            r@ == Seq::<T>::empty(),
            r.idx() == 0,
    {
        IterList {
            nodes: Vec::new(),
            current: None,
            index: 0,
            len: 0,
            order: Ghost(Seq::empty()),
        }
    }

    /// Build a list from an ordered sequence of elements: the list renders
    /// in the same order, with the cursor on the first element.
    pub fn from_vec(v: Vec<T>) -> (r: Self)
        ensures
            r.wf(),
            r@ == v@,
            r.idx() == 0,
    {
        let mut v = v;
        let ghost v0 = v@;
        let mut list = Self::new();
        proof {
            assert(v0 =~= v@ + list@);
        }
        loop
            invariant
                list.wf(),
                list.idx() == 0,
                v0 == v@ + list@,
            ensures
                list.wf(),
                list.idx() == 0,
                list@ == v0,
            decreases v@.len(),
        {
            let ghost vpre = v@;
            let ghost lpre = list@;
            match v.pop() {
                Some(e) => {
                    list.push_prev(e);
                    proof {
                        if lpre.len() > 0 {
                            lpre.insert_ensures(0, e);
                        }
                        assert(v0 =~= v@ + list@);
                    }
                },
                None => {
                    proof {
                        assert(list@ =~= v0);
                    }
                    break;
                },
            }
        }
        list
    }

    /// The number of elements in the list.
    pub fn len(&self) -> (r: usize)
        requires
            self.wf(),
        ensures
            r == self@.len(),
    {
        self.len
    }

    /// Whether the list holds no elements.
    pub fn is_empty(&self) -> (r: bool)
        requires
            self.wf(),
        ensures
            r <==> self@.len() == 0,
    {
        self.len == 0
    }

    /// The cursor's zero-based distance from the front of the list.
    pub fn index(&self) -> (r: usize)
        requires
            self.wf(),
        ensures
            r as int == self.idx(),
            self@.len() == 0 ==> r == 0,
            self@.len() > 0 ==> (r as int) < self@.len(),
    {
        self.index
    }

    /// A reference to the element under the cursor, or `None` on an empty
    /// list.
    pub fn current(&self) -> (r: Option<&T>)
        requires
            self.wf(),
        ensures
            self@.len() == 0 ==> r is None,
            self@.len() > 0 ==> r is Some && *r->0 == self@[self.idx()],
    {
        match self.current {
            None => None,
            Some(j) => {
                proof {
                    assert(self.live(self.order@[self.idx()]));
                }
                match &self.nodes[j] {
                    Some(nd) => Some(&nd.elem),
                    None => vstd::pervasive::unreached(),
                }
            },
        }
    }

    /// The arena handle of the node `offset` steps from the cursor, found
    /// by walking the links, or `None` when no element stands there.
    fn slot_at(&self, offset: isize) -> (r: Option<usize>)
        requires
            self.wf(),
        ensures
            0 <= self.idx() + offset < self@.len() ==> r == Some(
                self.order@[self.idx() + offset],
            ),
            !(0 <= self.idx() + offset < self@.len()) ==> r is None,
    {
        if self.len == 0 {
            return None;
        }
        let mut j: usize = match self.current {
            Some(c) => c,
            None => vstd::pervasive::unreached(),
        };
        let ghost mut pos: int = self.idx();
        if offset >= 0 {
            let mut k: isize = 0;
            while k < offset
                invariant
                    self.wf(),
                    self@.len() > 0,
                    0 <= k <= offset,
                    pos == self.idx() + k,
                    0 <= pos < self@.len(),
                    j == self.order@[pos],
                decreases offset - k,
            {
                proof {
                    assert(self.live(self.order@[pos]));
                    assert(self.node(pos).next == self.link_to(pos + 1));
                }
                match next_of(&self.nodes, j) {
                    Some(nx) => {
                        j = nx;
                        k = k + 1;
                        proof {
                            pos = pos + 1;
                        }
                    },
                    None => {
                        proof {
                            assert(pos == self@.len() - 1);
                        }
                        return None;
                    },
                }
            }
            Some(j)
        } else {
            let mut k: isize = 0;
            while k > offset
                invariant
                    self.wf(),
                    self@.len() > 0,
                    offset <= k <= 0,
                    pos == self.idx() + k,
                    0 <= pos < self@.len(),
                    j == self.order@[pos],
                decreases k - offset,
            {
                proof {
                    assert(self.live(self.order@[pos]));
                    assert(self.node(pos).prev == self.link_to(pos - 1));
                }
                match prev_of(&self.nodes, j) {
                    Some(p) => {
                        j = p;
                        k = k - 1;
                        proof {
                            pos = pos - 1;
                        }
                    },
                    None => {
                        proof {
                            assert(pos == 0);
                        }
                        return None;
                    },
                }
            }
            Some(j)
        }
    }

    /// A reference to the element `offset` steps from the cursor (negative
    /// offsets look toward the front), or `None` when no element stands
    /// there. The cursor does not move.
    pub fn get(&self, offset: isize) -> (r: Option<&T>)
        requires
            self.wf(),
        ensures
            0 <= self.idx() + offset < self@.len() ==> r is Some && *r->0 == self@[self.idx()
                + offset],
            !(0 <= self.idx() + offset < self@.len()) ==> r is None,
    {
        match self.slot_at(offset) {
            None => None,
            Some(j) => {
                proof {
                    assert(self.live(self.order@[self.idx() + offset]));
                }
                match &self.nodes[j] {
                    Some(nd) => Some(&nd.elem),
                    None => vstd::pervasive::unreached(),
                }
            },
        }
    }

    /// References to all elements, front to back, read without moving the
    /// cursor. The list's textual rendering is exactly these, in brackets,
    /// comma-separated.
    pub fn elements(&self) -> (r: Vec<&T>)
        requires
            self.wf(),
        ensures
            r@.len() == self@.len(),
            forall|k: int| 0 <= k < self@.len() ==> *(#[trigger] r@[k]) == self@[k],
    {
        let mut out: Vec<&T> = Vec::new();
        if self.len == 0 {
            return out;
        }
        let mut j: usize = match self.current {
            Some(c) => c,
            None => vstd::pervasive::unreached(),
        };
        let ghost mut pos: int = self.idx();
        loop
            invariant
                self.wf(),
                self@.len() > 0,
                0 <= pos < self@.len(),
                j == self.order@[pos],
            ensures
                j == self.order@[0],
            decreases pos,
        {
            proof {
                assert(self.live(self.order@[pos]));
                assert(self.node(pos).prev == self.link_to(pos - 1));
            }
            match prev_of(&self.nodes, j) {
                Some(p) => {
                    j = p;
                    proof {
                        pos = pos - 1;
                    }
                },
                None => {
                    proof {
                        assert(pos == 0);
                    }
                    break;
                },
            }
        }
        let mut k: usize = 0;
        while k < self.len
            invariant
                self.wf(),
                0 <= k <= self@.len(),
                out@.len() == k,
                forall|m: int| 0 <= m < k ==> *(#[trigger] out@[m]) == self@[m],
                (k as int) < self@.len() ==> j == self.order@[k as int],
            decreases self@.len() - k,
        {
            proof {
                assert(self.live(self.order@[k as int]));
                assert(self.node(k as int).next == self.link_to(k as int + 1));
            }
            match &self.nodes[j] {
                Some(nd) => out.push(&nd.elem),
                None => vstd::pervasive::unreached(),
            }
            k = k + 1;
            if k < self.len {
                match next_of(&self.nodes, j) {
                    Some(nx) => j = nx,
                    None => vstd::pervasive::unreached(),
                }
            }
        }
        out
    }

    /// Move the cursor one step toward the back. Reports `false`, without
    /// moving, when the cursor already rests on the last element or the list
    /// is empty.
    pub fn advance(&mut self) -> (moved: bool)
        requires
            old(self).wf(),
        ensures
            final(self).wf(),
            final(self)@ == old(self)@,
            final(self).idx() == spec_advance(old(self)@, old(self).idx()).0,
            moved == spec_advance(old(self)@, old(self).idx()).1,
    {
        if self.len == 0 {
            return false;
        }
        let cur: usize = match self.current {
            Some(c) => c,
            None => vstd::pervasive::unreached(),
        };
        proof {
            assert(self.live(self.order@[self.idx()]));
            assert(self.node(self.idx()).next == self.link_to(self.idx() + 1));
        }
        match next_of(&self.nodes, cur) {
            Some(nxt) => {
                self.current = Some(nxt);
                self.index = self.index + 1;
                proof {
                    self.lemma_cursor_moved_wf(*old(self));
                }
                true
            },
            None => false,
        }
    }

    /// Move the cursor one step toward the front. Reports `false`, without
    /// moving, when the cursor already rests on the first element or the
    /// list is empty.
    pub fn retreat(&mut self) -> (moved: bool)
        requires
            old(self).wf(),
        ensures
            final(self).wf(),
            final(self)@ == old(self)@,
            final(self).idx() == spec_retreat(old(self)@, old(self).idx()).0,
            moved == spec_retreat(old(self)@, old(self).idx()).1,
    {
        if self.len == 0 {
            return false;
        }
        let cur: usize = match self.current {
            Some(c) => c,
            None => vstd::pervasive::unreached(),
        };
        proof {
            assert(self.live(self.order@[self.idx()]));
            assert(self.node(self.idx()).prev == self.link_to(self.idx() - 1));
        }
        match prev_of(&self.nodes, cur) {
            Some(prv) => {
                self.current = Some(prv);
                self.index = self.index - 1;
                proof {
                    self.lemma_cursor_moved_wf(*old(self));
                }
                true
            },
            None => false,
        }
    }

    /// Walk the cursor to the front of the list, following backward links
    /// until none remains, and report how many steps that took.
    pub fn move_to_front(&mut self) -> (steps: usize)
        requires
            old(self).wf(),
        ensures
            final(self).wf(),
            final(self)@ == old(self)@,
            final(self).idx() == 0,
            steps as int == old(self).idx(),
    {
        if self.len == 0 {
            return 0;
        }
        let ghost pre = *self;
        let mut j: usize = match self.current {
            Some(c) => c,
            None => vstd::pervasive::unreached(),
        };
        let mut steps: usize = 0;
        let ghost mut pos: int = self.idx();
        loop
            invariant
                pre.wf(),
                *self == pre,
                0 <= pos < pre.order@.len(),
                j == pre.order@[pos],
                steps as int == pre.idx() - pos,
            ensures
                *self == pre,
                pos == 0,
                j == pre.order@[0],
                steps as int == pre.idx(),
            decreases pos,
        {
            proof {
                assert(pre.live(pre.order@[pos]));
                assert(pre.node(pos).prev == pre.link_to(pos - 1));
            }
            match prev_of(&self.nodes, j) {
                Some(p) => {
                    j = p;
                    steps = steps + 1;
                    proof {
                        pos = pos - 1;
                    }
                },
                None => {
                    proof {
                        assert(pos == 0);
                    }
                    break;
                },
            }
        }
        self.current = Some(j);
        self.index = 0;
        proof {
            self.lemma_cursor_moved_wf(pre);
        }
        steps
    }

    /// Walk the cursor to the back of the list, following forward links
    /// until none remains, and report how many steps that took.
    pub fn move_to_back(&mut self) -> (steps: usize)
        requires
            old(self).wf(),
        ensures
            final(self).wf(),
            final(self)@ == old(self)@,
            old(self)@.len() == 0 ==> final(self).idx() == 0 && steps == 0,
            old(self)@.len() > 0 ==> final(self).idx() == old(self)@.len() - 1 && steps as int
                == old(self)@.len() - 1 - old(self).idx(),
    {
        if self.len == 0 {
            return 0;
        }
        let ghost pre = *self;
        let mut j: usize = match self.current {
            Some(c) => c,
            None => vstd::pervasive::unreached(),
        };
        let mut steps: usize = 0;
        let ghost mut pos: int = self.idx();
        loop
            invariant
                pre.wf(),
                *self == pre,
                0 <= pos < pre.order@.len(),
                j == pre.order@[pos],
                steps as int == pos - pre.idx(),
            ensures
                *self == pre,
                pos == pre.order@.len() - 1,
                j == pre.order@[pre.order@.len() - 1],
                steps as int == pre.order@.len() - 1 - pre.idx(),
            decreases pre.order@.len() - pos,
        {
            proof {
                assert(pre.live(pre.order@[pos]));
                assert(pre.node(pos).next == pre.link_to(pos + 1));
            }
            match next_of(&self.nodes, j) {
                Some(nx) => {
                    j = nx;
                    steps = steps + 1;
                    proof {
                        pos = pos + 1;
                    }
                },
                None => {
                    proof {
                        assert(pos == pre.order@.len() - 1);
                    }
                    break;
                },
            }
        }
        self.current = Some(j);
        self.index = self.len - 1;
        proof {
            self.lemma_cursor_moved_wf(pre);
        }
        steps
    }

    /// Walk the cursor to the given position. A target beyond the back
    /// parks the cursor on the last element and reports `false`.
    pub fn move_to(&mut self, index: usize) -> (reached: bool)
        requires
            old(self).wf(),
        ensures
            final(self).wf(),
            final(self)@ == old(self)@,
            final(self).idx() == spec_move_to(old(self)@, old(self).idx(), index as int).0,
            reached == spec_move_to(old(self)@, old(self).idx(), index as int).1,
    {
        if self.len == 0 {
            return index == 0;
        }
        let target: usize = if index <= self.len - 1 {
            index
        } else {
            self.len - 1
        };
        let reached = index == target;
        let ghost pre = *self;
        while self.index > target
            invariant
                self.wf(),
                self@ == pre@,
                (target as int) < self@.len(),
            decreases self.idx(),
        {
            let moved = self.retreat();
            proof {
                assert(moved);
            }
        }
        while self.index < target
            invariant
                self.wf(),
                self@ == pre@,
                (target as int) < self@.len(),
                self.idx() <= target as int,
            decreases target as int - self.idx(),
        {
            let moved = self.advance();
            proof {
                assert(moved);
            }
        }
        reached
    }

    /// Walk the cursor by the given signed offset. An offset crossing a
    /// boundary parks the cursor on the boundary element and reports
    /// `false`.
    pub fn move_by(&mut self, offset: isize) -> (moved: bool)
        requires
            old(self).wf(),
        ensures
            final(self).wf(),
            final(self)@ == old(self)@,
            final(self).idx() == spec_move_by(old(self)@, old(self).idx(), offset as int).0,
            moved == spec_move_by(old(self)@, old(self).idx(), offset as int).1,
    {
        if self.len == 0 {
            return offset == 0;
        }
        let ghost pre = *self;
        let ghost i0 = self.idx();
        let ghost n = self@.len() as int;
        if offset > 0 {
            let mut k: isize = 0;
            let mut ok = true;
            while k < offset
                invariant
                    self.wf(),
                    self@ == pre@,
                    pre@.len() == n,
                    n > 0,
                    pre.idx() == i0,
                    0 <= k <= offset,
                    self.idx() == if i0 + k < n {
                        i0 + k
                    } else {
                        n - 1
                    },
                    ok == (k == 0 || i0 + k <= n - 1),
                decreases offset - k,
            {
                ok = self.advance();
                k = k + 1;
            }
            ok
        } else if offset < 0 {
            let mut k: isize = 0;
            let mut ok = true;
            while k > offset
                invariant
                    self.wf(),
                    self@ == pre@,
                    pre@.len() == n,
                    n > 0,
                    pre.idx() == i0,
                    offset <= k <= 0,
                    self.idx() == if i0 + k > 0 {
                        i0 + k
                    } else {
                        0
                    },
                    ok == (k == 0 || i0 + k >= 0),
                decreases k - offset,
            {
                ok = self.retreat();
                k = k - 1;
            }
            ok
        } else {
            true
        }
    }

    /// Insert an element just behind the cursor, keeping the cursor where it
    /// is. An empty list receives the element as its only node.
    pub fn insert_next(&mut self, elem: T)
        requires
            old(self).wf(),
        ensures
            final(self).wf(),
            final(self)@ == spec_insert_next(old(self)@, old(self).idx(), elem).0,
            final(self).idx() == spec_insert_next(old(self)@, old(self).idx(), elem).1,
    {
        let new_id: usize = self.nodes.len();
        match self.current {
            None => {
                self.nodes.push(Some(Node { prev: None, next: None, elem }));
                self.current = Some(new_id);
                let grown: usize = self.nodes.len();
                proof {
                    assert(self.len < grown);
                }
                self.len = self.len + 1;
                proof {
                    self.order@ = seq![new_id];
                    assert(self.live(new_id));
                    assert(self.node(0) == self.nodes@[new_id as int]->0);
                    assert(self@ =~= seq![elem]);
                }
            },
            Some(cur) => {
                proof {
                    assert(old(self).live(old(self).order@[old(self).idx()]));
                    assert(old(self).node(old(self).idx()).next == old(self).link_to(
                        old(self).idx() + 1,
                    ));
                }
                let old_next = next_of(&self.nodes, cur);
                self.nodes.push(Some(Node { prev: Some(cur), next: old_next, elem }));
                if let Some(nid) = old_next {
                    proof {
                        assert(old(self).live(old(self).order@[old(self).idx() + 1]));
                        assert(old(self).order@[old(self).idx()] != old(self).order@[old(
                            self,
                        ).idx() + 1]);
                    }
                    set_prev(&mut self.nodes, nid, Some(new_id));
                }
                set_next(&mut self.nodes, cur, Some(new_id));
                let grown: usize = self.nodes.len();
                proof {
                    assert(self.len < grown);
                }
                self.len = self.len + 1;
                proof {
                    self.order@ = self.order@.insert(self.index as int + 1, new_id);
                    self.lemma_insert_next_wf(*old(self), elem, new_id);
                }
            },
        }
    }

    /// Insert an element just before the cursor, keeping the cursor on the
    /// same node (so its index grows by one). An empty list receives the
    /// element as its only node.
    pub fn insert_prev(&mut self, elem: T)
        requires
            old(self).wf(),
        ensures
            final(self).wf(),
            final(self)@ == spec_insert_prev(old(self)@, old(self).idx(), elem).0,
            final(self).idx() == spec_insert_prev(old(self)@, old(self).idx(), elem).1,
    {
        let new_id: usize = self.nodes.len();
        match self.current {
            None => {
                self.nodes.push(Some(Node { prev: None, next: None, elem }));
                self.current = Some(new_id);
                let grown: usize = self.nodes.len();
                proof {
                    assert(self.len < grown);
                }
                self.len = self.len + 1;
                proof {
                    self.order@ = seq![new_id];
                    assert(self.live(new_id));
                    assert(self.node(0) == self.nodes@[new_id as int]->0);
                    assert(self@ =~= seq![elem]);
                }
            },
            Some(cur) => {
                proof {
                    assert(old(self).live(old(self).order@[old(self).idx()]));
                    assert(old(self).node(old(self).idx()).prev == old(self).link_to(
                        old(self).idx() - 1,
                    ));
                }
                let old_prev = prev_of(&self.nodes, cur);
                self.nodes.push(Some(Node { prev: old_prev, next: Some(cur), elem }));
                if let Some(pid) = old_prev {
                    proof {
                        assert(old(self).live(old(self).order@[old(self).idx() - 1]));
                        assert(old(self).order@[old(self).idx()] != old(self).order@[old(
                            self,
                        ).idx() - 1]);
                    }
                    set_next(&mut self.nodes, pid, Some(new_id));
                }
                set_prev(&mut self.nodes, cur, Some(new_id));
                let grown: usize = self.nodes.len();
                proof {
                    assert(self.len < grown);
                    assert(self.index < self.len);
                }
                self.len = self.len + 1;
                self.index = self.index + 1;
                proof {
                    self.order@ = self.order@.insert(self.index as int - 1, new_id);
                    self.lemma_insert_prev_wf(*old(self), elem, new_id);
                }
            },
        }
    }

    /// Insert an element just behind the cursor and move the cursor onto
    /// it. An empty list receives the element as its only node.
    pub fn push_next(&mut self, elem: T)
        requires
            old(self).wf(),
        ensures
            final(self).wf(),
            final(self)@ == spec_push_next(old(self)@, old(self).idx(), elem).0,
            final(self).idx() == spec_push_next(old(self)@, old(self).idx(), elem).1,
    {
        if self.len == 0 {
            self.insert_next(elem);
            return;
        }
        self.insert_next(elem);
        let moved = self.advance();
        proof {
            assert(moved);
        }
    }

    /// Insert an element just before the cursor and move the cursor onto
    /// it. An empty list receives the element as its only node.
    pub fn push_prev(&mut self, elem: T)
        requires
            old(self).wf(),
        ensures
            final(self).wf(),
            final(self)@ == spec_push_prev(old(self)@, old(self).idx(), elem).0,
            final(self).idx() == spec_push_prev(old(self)@, old(self).idx(), elem).1,
    {
        if self.len == 0 {
            self.insert_prev(elem);
            return;
        }
        self.insert_prev(elem);
        let moved = self.retreat();
        proof {
            assert(moved);
        }
    }

    /// A mutable reference to the element `offset` steps from the cursor
    /// (negative offsets look toward the front), or `None` when no element
    /// stands there. Writing through the reference changes exactly that
    /// element; the cursor does not move.
    pub fn get_mut(&mut self, offset: isize) -> (r: Option<&mut T>)
        requires
            old(self).wf(),
        ensures
            !(0 <= old(self).idx() + offset < old(self)@.len()) ==> r is None && *final(self)
                == *old(self) && final(self).wf(),
            0 <= old(self).idx() + offset < old(self)@.len() ==> r is Some && *r->0 == old(
                self,
            )@[old(self).idx() + offset] && final(self).wf() && final(self)@ == old(
                self,
            )@.update(old(self).idx() + offset, *final(r->0)) && final(self).idx() == old(
                self,
            ).idx(),
    {
        let j: usize = match self.slot_at(offset) {
            None => {
                return None;
            },
            Some(j) => j,
        };
        proof {
            assert(self.live(self.order@[self.idx() + offset]));
            assert forall|slot: Option<Node<T>>|
                #![trigger self.nodes@.update(self.order@[self.idx() + offset] as int, slot)]
                slot is Some && slot->0.prev == node_at(
                    self.nodes@,
                    self.order@,
                    self.idx() + offset,
                ).prev && slot->0.next == node_at(
                    self.nodes@,
                    self.order@,
                    self.idx() + offset,
                ).next implies wf_parts(
                    self.nodes@.update(self.order@[self.idx() + offset] as int, slot),
                    self.current,
                    self.idx(),
                    self.len as int,
                    self.order@,
                ) && view_parts(
                    self.nodes@.update(self.order@[self.idx() + offset] as int, slot),
                    self.order@,
                ) == self@.update(self.idx() + offset, slot->0.elem) by {
                lemma_elem_updated_parts(
                    self.nodes@,
                    self.current,
                    self.idx(),
                    self.len as int,
                    self.order@,
                    self.idx() + offset,
                    slot->0.elem,
                );
                assert(slot->0 =~= (Node {
                    prev: node_at(self.nodes@, self.order@, self.idx() + offset).prev,
                    next: node_at(self.nodes@, self.order@, self.idx() + offset).next,
                    elem: slot->0.elem,
                }));
            }
        }
        match &mut self.nodes[j] {
            Some(nd) => Some(&mut nd.elem),
            None => vstd::pervasive::unreached(),
        }
    }

    /// A mutable reference to the element under the cursor, or `None` on an
    /// empty list. Writing through the reference changes exactly that
    /// element; the rest of the list stands as it was.
    pub fn get_current_mut(&mut self) -> (r: Option<&mut T>)
        requires
            old(self).wf(),
        ensures
            old(self)@.len() == 0 ==> r is None && *final(self) == *old(self) && final(self).wf(),
            old(self)@.len() > 0 ==> r is Some && *r->0 == old(self)@[old(self).idx()] && final(self).wf() && final(self)@ == old(self)@.update(old(self).idx(), *final(r->0)) && final(self).idx() == old(self).idx(),
    {
        let j: usize = match self.current {
            None => {
                return None;
            },
            Some(j) => j,
        };
        proof {
            assert(self.live(self.order@[self.idx()]));
            assert forall|slot: Option<Node<T>>|
                #![trigger self.nodes@.update(self.order@[self.idx()] as int, slot)]
                slot is Some && slot->0.prev == node_at(self.nodes@, self.order@, self.idx()).prev
                    && slot->0.next == node_at(self.nodes@, self.order@, self.idx()).next
                    implies wf_parts(
                    self.nodes@.update(self.order@[self.idx()] as int, slot),
                    self.current,
                    self.idx(),
                    self.len as int,
                    self.order@,
                ) && view_parts(
                    self.nodes@.update(self.order@[self.idx()] as int, slot),
                    self.order@,
                ) == self@.update(self.idx(), slot->0.elem) by {
                lemma_elem_updated_parts(
                    self.nodes@,
                    self.current,
                    self.idx(),
                    self.len as int,
                    self.order@,
                    self.idx(),
                    slot->0.elem,
                );
                assert(slot->0 =~= (Node {
                    prev: node_at(self.nodes@, self.order@, self.idx()).prev,
                    next: node_at(self.nodes@, self.order@, self.idx()).next,
                    elem: slot->0.elem,
                }));
            }
        }
        match &mut self.nodes[j] {
            Some(nd) => Some(&mut nd.elem),
            None => vstd::pervasive::unreached(),
        }
    }

    /// Swap the element under the cursor for `elem`, handing the previous
    /// element back. On an empty list the element is inserted instead and
    /// there is no previous element to return.
    pub fn replace_cursor(&mut self, elem: T) -> (r: Option<T>)
        requires
            old(self).wf(),
        ensures
            final(self).wf(),
            old(self)@.len() == 0 ==> final(self)@ == seq![elem] && final(self).idx() == 0 && r
                is None,
            old(self)@.len() > 0 ==> final(self)@ == old(self)@.update(old(self).idx(), elem)
                && final(self).idx() == old(self).idx() && r == Some(old(self)@[old(self).idx()]),
    {
        match self.current {
            None => {
                self.insert_next(elem);
                None
            },
            Some(cur) => {
                proof {
                    assert(self.live(self.order@[self.idx()]));
                }
                let prev_elem = replace_elem(&mut self.nodes, cur, elem);
                proof {
                    lemma_elem_updated_parts(
                        old(self).nodes@,
                        old(self).current,
                        old(self).idx(),
                        old(self).len as int,
                        old(self).order@,
                        old(self).idx(),
                        elem,
                    );
                }
                Some(prev_elem)
            },
        }
    }

    /// Detach the node under the cursor and hand its element back, together
    /// with a flag telling whether a successor remained: if so the cursor
    /// moves onto it; otherwise the cursor parks on the predecessor (or the
    /// list is now empty). `None` on an empty list.
    pub fn consume_forward(&mut self) -> (r: Option<(T, bool)>)
        requires
            old(self).wf(),
        ensures
            final(self).wf(),
            old(self)@.len() == 0 ==> r is None && final(self)@ == old(self)@ && final(self).idx() == 0,
            old(self)@.len() > 0 ==> final(self)@ == spec_consume_forward(
                old(self)@,
                old(self).idx(),
            ).0.0 && final(self).idx() == spec_consume_forward(old(self)@, old(self).idx()).0.1
                && r == Some(spec_consume_forward(old(self)@, old(self).idx()).1),
    {
        if self.len == 0 {
            return None;
        }
        let cur: usize = match self.current {
            Some(c) => c,
            None => vstd::pervasive::unreached(),
        };
        proof {
            assert(self.live(self.order@[self.idx()]));
            assert(self.node(self.idx()).next == self.link_to(self.idx() + 1));
            assert(self.node(self.idx()).prev == self.link_to(self.idx() - 1));
        }
        let nd = take_node(&mut self.nodes, cur);
        if let Some(p) = nd.prev {
            proof {
                assert(old(self).live(old(self).order@[old(self).idx() - 1]));
                assert(old(self).order@[old(self).idx() - 1] != old(self).order@[old(
                    self,
                ).idx()]);
            }
            set_next(&mut self.nodes, p, nd.next);
        }
        if let Some(nx) = nd.next {
            proof {
                assert(old(self).live(old(self).order@[old(self).idx() + 1]));
                assert(old(self).order@[old(self).idx() + 1] != old(self).order@[old(
                    self,
                ).idx()]);
                assert(old(self).idx() > 0 ==> old(self).order@[old(self).idx() + 1] != old(
                    self,
                ).order@[old(self).idx() - 1]);
            }
            set_prev(&mut self.nodes, nx, nd.prev);
        }
        self.len = self.len - 1;
        match nd.next {
            Some(nx) => {
                self.current = Some(nx);
                proof {
                    old(self).order@.remove_ensures(old(self).idx());
                    self.order@ = self.order@.remove(self.index as int);
                    self.lemma_removed_wf(*old(self));
                }
                Some((nd.elem, true))
            },
            None => {
                self.current = nd.prev;
                proof {
                    old(self).order@.remove_ensures(old(self).idx());
                    self.order@ = self.order@.remove(self.index as int);
                }
                if self.index > 0 {
                    self.index = self.index - 1;
                }
                proof {
                    self.lemma_removed_wf(*old(self));
                }
                Some((nd.elem, false))
            },
        }
    }

    /// Detach the node under the cursor and hand its element back, together
    /// with a flag telling whether a predecessor remained: if so the cursor
    /// moves onto it; otherwise the cursor parks on the successor (or the
    /// list is now empty). `None` on an empty list.
    pub fn consume_backward(&mut self) -> (r: Option<(T, bool)>)
        requires
            old(self).wf(),
        ensures
            final(self).wf(),
            old(self)@.len() == 0 ==> r is None && final(self)@ == old(self)@ && final(self).idx() == 0,
            old(self)@.len() > 0 ==> final(self)@ == spec_consume_backward(
                old(self)@,
                old(self).idx(),
            ).0.0 && final(self).idx() == spec_consume_backward(old(self)@, old(self).idx()).0.1
                && r == Some(spec_consume_backward(old(self)@, old(self).idx()).1),
    {
        if self.len == 0 {
            return None;
        }
        let cur: usize = match self.current {
            Some(c) => c,
            None => vstd::pervasive::unreached(),
        };
        proof {
            assert(self.live(self.order@[self.idx()]));
            assert(self.node(self.idx()).next == self.link_to(self.idx() + 1));
            assert(self.node(self.idx()).prev == self.link_to(self.idx() - 1));
        }
        let nd = take_node(&mut self.nodes, cur);
        if let Some(p) = nd.prev {
            proof {
                assert(old(self).live(old(self).order@[old(self).idx() - 1]));
                assert(old(self).order@[old(self).idx() - 1] != old(self).order@[old(
                    self,
                ).idx()]);
            }
            set_next(&mut self.nodes, p, nd.next);
        }
        if let Some(nx) = nd.next {
            proof {
                assert(old(self).live(old(self).order@[old(self).idx() + 1]));
                assert(old(self).order@[old(self).idx() + 1] != old(self).order@[old(
                    self,
                ).idx()]);
                assert(old(self).idx() > 0 ==> old(self).order@[old(self).idx() + 1] != old(
                    self,
                ).order@[old(self).idx() - 1]);
            }
            set_prev(&mut self.nodes, nx, nd.prev);
        }
        self.len = self.len - 1;
        match nd.prev {
            Some(p) => {
                self.current = Some(p);
                self.index = self.index - 1;
                proof {
                    old(self).order@.remove_ensures(old(self).idx());
                    self.order@ = self.order@.remove(self.index as int + 1);
                    self.lemma_removed_wf(*old(self));
                }
                Some((nd.elem, true))
            },
            None => {
                self.current = nd.next;
                proof {
                    old(self).order@.remove_ensures(old(self).idx());
                    self.order@ = self.order@.remove(self.index as int);
                    self.lemma_removed_wf(*old(self));
                }
                Some((nd.elem, false))
            },
        }
    }

    /// Remove and return the element under the cursor, stepping the cursor
    /// forward. Reaching the back boundary drains what is left behind the
    /// cursor, leaving the list empty — this is the forward iteration step.
    pub fn next(&mut self) -> (r: Option<T>)
        requires
            old(self).wf(),
        ensures
            final(self).wf(),
            old(self)@.len() == 0 ==> r is None && final(self)@ == old(self)@ && final(self).idx() == 0,
            old(self)@.len() > 0 ==> r == Some(old(self)@[old(self).idx()]),
            old(self)@.len() > 0 && old(self).idx() + 1 < old(self)@.len() ==> final(self)@
                == old(self)@.remove(old(self).idx()) && final(self).idx() == old(self).idx(),
            old(self)@.len() > 0 && old(self).idx() + 1 == old(self)@.len() ==> final(self)@
                == Seq::<T>::empty() && final(self).idx() == 0,
    {
        match self.consume_forward() {
            None => None,
            Some((elem, true)) => Some(elem),
            Some((elem, false)) => {
                loop
                    invariant
                        self.wf(),
                    ensures
                        self.wf(),
                        self@.len() == 0,
                    decreases self@.len(),
                {
                    if self.consume_backward().is_none() {
                        break;
                    }
                }
                Some(elem)
            },
        }
    }

    /// Remove and return the element under the cursor, stepping the cursor
    /// backward. Reaching the front boundary drains what is left ahead of
    /// the cursor, leaving the list empty — this is the backward iteration
    /// step.
    pub fn next_back(&mut self) -> (r: Option<T>)
        requires
            old(self).wf(),
        ensures
            final(self).wf(),
            old(self)@.len() == 0 ==> r is None && final(self)@ == old(self)@ && final(self).idx() == 0,
            old(self)@.len() > 0 ==> r == Some(old(self)@[old(self).idx()]),
            old(self)@.len() > 0 && old(self).idx() > 0 ==> final(self)@ == old(self)@.remove(
                old(self).idx(),
            ) && final(self).idx() == old(self).idx() - 1,
            old(self)@.len() > 0 && old(self).idx() == 0 ==> final(self)@ == Seq::<T>::empty()
                && final(self).idx() == 0,
    {
        match self.consume_backward() {
            None => None,
            Some((elem, true)) => Some(elem),
            Some((elem, false)) => {
                loop
                    invariant
                        self.wf(),
                    ensures
                        self.wf(),
                        self@.len() == 0,
                    decreases self@.len(),
                {
                    if self.consume_forward().is_none() {
                        break;
                    }
                }
                Some(elem)
            },
        }
    }

    /// Sever the chain just behind the cursor, handing the whole tail over
    /// to a new list whose cursor starts on the tail's first element.
    /// `None` when the cursor rests on the last element or the list is
    /// empty.
    pub fn split_after(&mut self) -> (r: Option<Self>)
        requires
            old(self).wf(),
        ensures
            final(self).wf(),
            old(self)@.len() == 0 || old(self).idx() == old(self)@.len() - 1 ==> r is None
                && final(self)@ == old(self)@ && final(self).idx() == old(self).idx(),
            old(self)@.len() > 0 && old(self).idx() < old(self)@.len() - 1 ==> r is Some
                && final(self)@ == old(self)@.subrange(0, old(self).idx() + 1) && final(self).idx() == old(self).idx() && r->0.wf() && r->0@ == old(self)@.subrange(
                old(self).idx() + 1,
                old(self)@.len() as int,
            ) && r->0.idx() == 0,
    {
        if self.len == 0 {
            return None;
        }
        if self.index == self.len - 1 {
            return None;
        }
        let ghost pre = *self;
        let ghost n = self@.len() as int;
        let n_tail: usize = self.len - self.index - 1;
        let _steps: usize = self.move_to_back();
        let mut tail_rev: Vec<T> = Vec::new();
        let mut k: usize = 0;
        while k < n_tail
            invariant
                self.wf(),
                pre.wf(),
                n == pre@.len(),
                n_tail as int == n - pre.idx() - 1,
                0 <= k <= n_tail,
                self@ == pre@.take(n - k),
                self.idx() == n - 1 - k,
                tail_rev@.len() == k as int,
                forall|m: int| 0 <= m < k ==> tail_rev@[m] == pre@[n - 1 - m],
            decreases n_tail - k,
        {
            match self.consume_backward() {
                Some((elem, _)) => {
                    proof {
                        assert(pre@.take(n - k)[n - 1 - k] == pre@[n - 1 - k]);
                        assert(pre@.take(n - k).remove(n - 1 - k) =~= pre@.take(n - k - 1));
                    }
                    tail_rev.push(elem);
                    k = k + 1;
                },
                None => vstd::pervasive::unreached(),
            }
        }
        proof {
            assert(self@ =~= pre@.subrange(0, pre.idx() + 1));
        }
        let mut tail = Self::new();
        proof {
            assert(tail@ =~= pre@.subrange(pre.idx() + 1, n - tail_rev@.len()));
        }
        loop
            invariant
                tail.wf(),
                pre.wf(),
                n == pre@.len(),
                n_tail as int == n - pre.idx() - 1,
                0 < n_tail,
                tail_rev@.len() <= n_tail as int,
                forall|m: int| 0 <= m < tail_rev@.len() ==> tail_rev@[m] == pre@[n - 1 - m],
                tail@ == pre@.subrange(pre.idx() + 1, n - tail_rev@.len()),
                tail@.len() == 0 ==> tail.idx() == 0,
                tail@.len() > 0 ==> tail.idx() == tail@.len() - 1,
            ensures
                tail.wf(),
                tail@ == pre@.subrange(pre.idx() + 1, n),
                tail@.len() > 0,
                tail.idx() == tail@.len() - 1,
            decreases tail_rev@.len(),
        {
            let ghost tpre = tail@;
            let ghost rpre = tail_rev@;
            match tail_rev.pop() {
                Some(e) => {
                    proof {
                        assert(e == rpre[rpre.len() - 1]);
                        assert(e == pre@[n - rpre.len()]);
                    }
                    tail.push_next(e);
                    proof {
                        if tpre.len() > 0 {
                            tpre.insert_ensures(tpre.len() as int, e);
                        }
                        assert(tail@ =~= pre@.subrange(pre.idx() + 1, n - tail_rev@.len()));
                    }
                },
                None => {
                    proof {
                        assert(tail@ =~= pre@.subrange(pre.idx() + 1, n));
                    }
                    break;
                },
            }
        }
        let _steps2: usize = tail.move_to_front();
        Some(tail)
    }

    /// Sever the chain just before the cursor, handing the whole head over
    /// to a new list whose cursor starts on the head's last element. `None`
    /// when the cursor rests on the first element or the list is empty.
    pub fn split_before(&mut self) -> (r: Option<Self>)
        requires
            old(self).wf(),
        ensures
            final(self).wf(),
            old(self)@.len() == 0 || old(self).idx() == 0 ==> r is None && final(self)@ == old(
                self,
            )@ && final(self).idx() == old(self).idx(),
            old(self)@.len() > 0 && old(self).idx() > 0 ==> r is Some && final(self)@ == old(
                self,
            )@.subrange(old(self).idx(), old(self)@.len() as int) && final(self).idx() == 0
                && r->0.wf() && r->0@ == old(self)@.subrange(0, old(self).idx()) && r->0.idx()
                == old(self).idx() - 1,
    {
        if self.len == 0 {
            return None;
        }
        if self.index == 0 {
            return None;
        }
        let ghost pre = *self;
        let ghost n = self@.len() as int;
        let n_head: usize = self.index;
        let moved0 = self.retreat();
        proof {
            assert(moved0);
        }
        let mut head_rev: Vec<T> = Vec::new();
        let mut k: usize = 0;
        proof {
            assert(self@ =~= pre@.take(n_head as int - 0) + pre@.skip(n_head as int));
        }
        while k < n_head
            invariant
                self.wf(),
                pre.wf(),
                n == pre@.len(),
                n_head as int == pre.idx(),
                0 < n_head && (n_head as int) <= n - 1,
                0 <= k <= n_head,
                self@ == pre@.take(n_head as int - k) + pre@.skip(n_head as int),
                k < n_head ==> self.idx() == n_head - k - 1,
                k == n_head ==> self.idx() == 0,
                head_rev@.len() == k as int,
                forall|m: int| 0 <= m < k ==> head_rev@[m] == pre@[n_head - 1 - m],
            decreases n_head - k,
        {
            let ghost spre = self@;
            match self.consume_backward() {
                Some((elem, _)) => {
                    proof {
                        assert(spre[n_head - k - 1] == pre@[n_head - k - 1]);
                        spre.remove_ensures(n_head as int - k - 1);
                        assert(spre.remove(n_head as int - k - 1) =~= pre@.take(
                            n_head as int - k - 1,
                        ) + pre@.skip(n_head as int));
                    }
                    head_rev.push(elem);
                    k = k + 1;
                },
                None => vstd::pervasive::unreached(),
            }
        }
        proof {
            assert(self@ =~= pre@.subrange(pre.idx(), n));
        }
        let mut front = Self::new();
        proof {
            assert(front@ =~= pre@.subrange(0, n_head as int - head_rev@.len()));
        }
        loop
            invariant
                front.wf(),
                pre.wf(),
                n == pre@.len(),
                n_head as int == pre.idx(),
                0 < n_head && (n_head as int) <= n - 1,
                head_rev@.len() <= n_head as int,
                forall|m: int|
                    0 <= m < head_rev@.len() ==> head_rev@[m] == pre@[n_head - 1 - m],
                front@ == pre@.subrange(0, n_head as int - head_rev@.len()),
                front@.len() == 0 ==> front.idx() == 0,
                front@.len() > 0 ==> front.idx() == front@.len() - 1,
            ensures
                front.wf(),
                front@ == pre@.subrange(0, n_head as int),
                front@.len() > 0,
                front.idx() == front@.len() - 1,
            decreases head_rev@.len(),
        {
            let ghost fpre = front@;
            let ghost rpre = head_rev@;
            match head_rev.pop() {
                Some(e) => {
                    proof {
                        assert(e == rpre[rpre.len() - 1]);
                        assert(e == pre@[n_head - rpre.len()]);
                    }
                    front.push_next(e);
                    proof {
                        if fpre.len() > 0 {
                            fpre.insert_ensures(fpre.len() as int, e);
                        }
                        assert(front@ =~= pre@.subrange(0, n_head as int - head_rev@.len()));
                    }
                },
                None => {
                    proof {
                        assert(front@ =~= pre@.subrange(0, n_head as int));
                    }
                    break;
                },
            }
        }
        Some(front)
    }

    /// A snapshot of this list's cursor, for traversal that leaves the
    /// list's own cursor alone. A snapshot of an empty list is an explicit
    /// empty cursor rather than a dangling one.
    pub fn as_cursor(&self) -> (c: crate::cursor::Cursor<T>)
        requires
            self.wf(),
        ensures
            c.wf(),
            c@ == self@,
            c.idx() == self.idx(),
    {
        crate::cursor::Cursor { list: Some(self), current: self.current, index: self.index }
    }

    /// Moving the cursor to any position of the chain — touching neither the
    /// arena nor the order — preserves well-formedness and the view.
    proof fn lemma_cursor_moved_wf(&self, pre: Self)
        requires
            pre.wf(),
            self.nodes@ == pre.nodes@,
            self.order@ == pre.order@,
            self.len == pre.len,
            pre.order@.len() > 0,
            0 <= self.idx() < pre.order@.len(),
            self.current == Some(pre.order@[self.idx()]),
        ensures
            self.wf(),
            self@ == pre@,
    {
        assert forall|k: int| 0 <= k < self.order@.len() implies #[trigger] self.live(
            self.order@[k],
        ) by {
            assert(pre.live(pre.order@[k]));
        }
        assert forall|k: int| 0 <= k < self.order@.len() implies (#[trigger] self.node(k)).next
            == self.link_to(k + 1) && self.node(k).prev == self.link_to(k - 1) by {
            assert(pre.node(k).next == pre.link_to(k + 1));
            assert(pre.node(k).prev == pre.link_to(k - 1));
        }
        assert(self@ =~= pre@);
    }


    /// Re-establishes well-formedness after the surgery of `insert_next` on
    /// a non-empty list, and relates the new view to the old one.
    proof fn lemma_insert_next_wf(&self, pre: Self, elem: T, new_id: usize)
        requires
            pre.wf(),
            pre.order@.len() > 0,
            new_id as int == pre.nodes@.len(),
            self.index == pre.index,
            self.len == pre.len + 1,
            self.current == pre.current,
            self.order@ == pre.order@.insert(pre.idx() + 1, new_id),
            self.nodes@.len() == pre.nodes@.len() + 1,
            // the new node, wired to its neighbours
            self.nodes@[new_id as int] == Some(
                (Node {
                    prev: Some(pre.order@[pre.idx()]),
                    next: pre.link_to(pre.idx() + 1),
                    elem,
                }),
            ),
            // the anchor now points forward at the new node
            self.nodes@[pre.order@[pre.idx()] as int] == Some(
                (Node {
                    prev: pre.node(pre.idx()).prev,
                    next: Some(new_id),
                    elem: pre.node(pre.idx()).elem,
                }),
            ),
            // the old successor, if any, now points back at the new node
            pre.idx() + 1 < pre.order@.len() ==> self.nodes@[pre.order@[pre.idx() + 1] as int]
                == Some(
                (Node {
                    prev: Some(new_id),
                    next: pre.node(pre.idx() + 1).next,
                    elem: pre.node(pre.idx() + 1).elem,
                }),
            ),
            // every other slot is untouched
            forall|j: int|
                0 <= j < pre.nodes@.len() && j != pre.order@[pre.idx()] as int && (pre.idx() + 1
                    < pre.order@.len() ==> j != pre.order@[pre.idx() + 1] as int)
                    ==> self.nodes@[j] == pre.nodes@[j],
        ensures
            self.wf(),
            self@ == pre@.insert(pre.idx() + 1, elem),
    {
        let i = pre.idx();
        let n = pre.order@.len() as int;
        let ord0 = pre.order@;
        let ordn = self.order@;
        ord0.insert_ensures(i + 1, new_id);
        assert forall|k: int| 0 <= k < n implies ord0[k] < new_id by {
            assert(pre.live(ord0[k]));
        }
        // each position of the new order maps to a live slot holding the
        // expected node
        assert forall|k: int| 0 <= k < ordn.len() implies #[trigger] self.live(ordn[k]) by {
            if k <= i {
                assert(ordn[k] == ord0[k]);
                assert(pre.live(ord0[k]));
            } else if k == i + 1 {
                assert(ordn[k] == new_id);
            } else {
                assert(ordn[k] == ord0[k - 1]);
                assert(pre.live(ord0[k - 1]));
            }
        }
        // distinctness carries over, the fresh handle colliding with nothing
        assert forall|k1: int, k2: int|
            #![trigger ordn[k1], ordn[k2]]
            0 <= k1 < ordn.len() && 0 <= k2 < ordn.len() && k1 != k2 implies ordn[k1]
            != ordn[k2] by {
            if k1 != i + 1 && k2 != i + 1 {
                let j1 = if k1 <= i { k1 } else { k1 - 1 };
                let j2 = if k2 <= i { k2 } else { k2 - 1 };
                assert(ordn[k1] == ord0[j1]);
                assert(ordn[k2] == ord0[j2]);
            } else if k1 == i + 1 {
                let j2 = if k2 <= i { k2 } else { k2 - 1 };
                assert(ordn[k2] == ord0[j2]);
            } else {
                let j1 = if k1 <= i { k1 } else { k1 - 1 };
                assert(ordn[k1] == ord0[j1]);
            }
        }
        // links: every node designates exactly its neighbours in the new
        // order
        assert forall|k: int| 0 <= k < ordn.len() implies (#[trigger] self.node(k)).next
            == self.link_to(k + 1) && self.node(k).prev == self.link_to(k - 1) by {
            self.lemma_insert_next_node_at(pre, elem, new_id, k);
        }
        assert(self.wf());
        assert forall|k: int| 0 <= k < ordn.len() implies #[trigger] self@[k] == pre@.insert(
            i + 1,
            elem,
        )[k] by {
            self.lemma_insert_next_node_at(pre, elem, new_id, k);
        }
        assert(self@ =~= pre@.insert(i + 1, elem));
    }

    /// The node standing at position `k` after the surgery of
    /// `insert_next`, case by case.
    proof fn lemma_insert_next_node_at(&self, pre: Self, elem: T, new_id: usize, k: int)
        requires
            pre.wf(),
            pre.order@.len() > 0,
            new_id as int == pre.nodes@.len(),
            self.order@ == pre.order@.insert(pre.idx() + 1, new_id),
            self.nodes@.len() == pre.nodes@.len() + 1,
            self.nodes@[new_id as int] == Some(
                (Node {
                    prev: Some(pre.order@[pre.idx()]),
                    next: pre.link_to(pre.idx() + 1),
                    elem,
                }),
            ),
            self.nodes@[pre.order@[pre.idx()] as int] == Some(
                (Node {
                    prev: pre.node(pre.idx()).prev,
                    next: Some(new_id),
                    elem: pre.node(pre.idx()).elem,
                }),
            ),
            pre.idx() + 1 < pre.order@.len() ==> self.nodes@[pre.order@[pre.idx() + 1] as int]
                == Some(
                (Node {
                    prev: Some(new_id),
                    next: pre.node(pre.idx() + 1).next,
                    elem: pre.node(pre.idx() + 1).elem,
                }),
            ),
            forall|j: int|
                0 <= j < pre.nodes@.len() && j != pre.order@[pre.idx()] as int && (pre.idx() + 1
                    < pre.order@.len() ==> j != pre.order@[pre.idx() + 1] as int)
                    ==> self.nodes@[j] == pre.nodes@[j],
            0 <= k < self.order@.len(),
        ensures
            self.node(k).next == self.link_to(k + 1),
            self.node(k).prev == self.link_to(k - 1),
            self.node(k).elem == pre@.insert(pre.idx() + 1, elem)[k],
    {
        let i = pre.idx();
        let n = pre.order@.len() as int;
        let ord0 = pre.order@;
        let ordn = self.order@;
        ord0.insert_ensures(i + 1, new_id);
        assert forall|k0: int| 0 <= k0 < n implies pre.live(ord0[k0]) && ord0[k0] < new_id by {
            assert(pre.live(ord0[k0]));
        }
        pre@.insert_ensures(i + 1, elem);
        if k < i {
            assert(ordn[k] == ord0[k]);
            assert(ord0[k] != ord0[i]);
            assert(self.node(k) == pre.node(k));
            assert(ordn[k + 1] == ord0[k + 1]);
            if k > 0 {
                assert(ordn[k - 1] == ord0[k - 1]);
            }
        } else if k == i {
            assert(ordn[k] == ord0[i]);
            assert(self.node(k).next == Some(new_id) && ordn[i + 1] == new_id);
            assert(self.node(k).prev == pre.node(i).prev);
            if k > 0 {
                assert(ordn[k - 1] == ord0[k - 1]);
            }
        } else if k == i + 1 {
            assert(ordn[k] == new_id);
            assert(self.node(k).prev == Some(ord0[i]) && ordn[i] == ord0[i]);
            if i + 1 < n {
                assert(self.node(k).next == Some(ord0[i + 1]) && ordn[i + 2] == ord0[i + 1]);
            }
        } else if k == i + 2 {
            assert(ordn[k] == ord0[i + 1]);
            assert(self.node(k).prev == Some(new_id) && ordn[i + 1] == new_id);
            assert(self.node(k).next == pre.node(i + 1).next);
            if k + 1 < ordn.len() {
                assert(ordn[k + 1] == ord0[k]);
            }
        } else {
            assert(ordn[k] == ord0[k - 1]);
            assert(ord0[k - 1] != ord0[i]);
            assert(i + 1 < n ==> ord0[k - 1] != ord0[i + 1]);
            assert(self.node(k) == pre.node(k - 1));
            if k + 1 < ordn.len() {
                assert(ordn[k + 1] == ord0[k]);
            }
            assert(ordn[k - 1] == ord0[k - 2]);
        }
    }

    /// Re-establishes well-formedness after the surgery of `insert_prev` on
    /// a non-empty list, and relates the new view to the old one.
    proof fn lemma_insert_prev_wf(&self, pre: Self, elem: T, new_id: usize)
        requires
            pre.wf(),
            pre.order@.len() > 0,
            new_id as int == pre.nodes@.len(),
            self.idx() == pre.idx() + 1,
            self.len == pre.len + 1,
            self.current == pre.current,
            self.order@ == pre.order@.insert(pre.idx(), new_id),
            self.nodes@.len() == pre.nodes@.len() + 1,
            // the new node, wired to its neighbours
            self.nodes@[new_id as int] == Some(
                (Node {
                    prev: pre.link_to(pre.idx() - 1),
                    next: Some(pre.order@[pre.idx()]),
                    elem,
                }),
            ),
            // the anchor now points backward at the new node
            self.nodes@[pre.order@[pre.idx()] as int] == Some(
                (Node {
                    prev: Some(new_id),
                    next: pre.node(pre.idx()).next,
                    elem: pre.node(pre.idx()).elem,
                }),
            ),
            // the old predecessor, if any, now points forward at the new node
            pre.idx() > 0 ==> self.nodes@[pre.order@[pre.idx() - 1] as int] == Some(
                (Node {
                    prev: pre.node(pre.idx() - 1).prev,
                    next: Some(new_id),
                    elem: pre.node(pre.idx() - 1).elem,
                }),
            ),
            // every other slot is untouched
            forall|j: int|
                0 <= j < pre.nodes@.len() && j != pre.order@[pre.idx()] as int && (pre.idx() > 0
                    ==> j != pre.order@[pre.idx() - 1] as int) ==> self.nodes@[j]
                    == pre.nodes@[j],
        ensures
            self.wf(),
            self@ == pre@.insert(pre.idx(), elem),
    {
        let i = pre.idx();
        let n = pre.order@.len() as int;
        let ord0 = pre.order@;
        let ordn = self.order@;
        ord0.insert_ensures(i, new_id);
        assert forall|k: int| 0 <= k < n implies ord0[k] < new_id by {
            assert(pre.live(ord0[k]));
        }
        assert forall|k: int| 0 <= k < ordn.len() implies #[trigger] self.live(ordn[k]) by {
            if k < i {
                assert(ordn[k] == ord0[k]);
                assert(pre.live(ord0[k]));
            } else if k == i {
                assert(ordn[k] == new_id);
            } else {
                assert(ordn[k] == ord0[k - 1]);
                assert(pre.live(ord0[k - 1]));
            }
        }
        assert forall|k1: int, k2: int|
            #![trigger ordn[k1], ordn[k2]]
            0 <= k1 < ordn.len() && 0 <= k2 < ordn.len() && k1 != k2 implies ordn[k1]
            != ordn[k2] by {
            if k1 != i && k2 != i {
                let j1 = if k1 < i { k1 } else { k1 - 1 };
                let j2 = if k2 < i { k2 } else { k2 - 1 };
                assert(ordn[k1] == ord0[j1]);
                assert(ordn[k2] == ord0[j2]);
            } else if k1 == i {
                let j2 = if k2 < i { k2 } else { k2 - 1 };
                assert(ordn[k2] == ord0[j2]);
            } else {
                let j1 = if k1 < i { k1 } else { k1 - 1 };
                assert(ordn[k1] == ord0[j1]);
            }
        }
        assert forall|k: int| 0 <= k < ordn.len() implies (#[trigger] self.node(k)).next
            == self.link_to(k + 1) && self.node(k).prev == self.link_to(k - 1) by {
            self.lemma_insert_prev_node_at(pre, elem, new_id, k);
        }
        assert(ordn[i + 1] == ord0[i]);
        assert(self.wf());
        assert forall|k: int| 0 <= k < ordn.len() implies #[trigger] self@[k] == pre@.insert(
            i,
            elem,
        )[k] by {
            self.lemma_insert_prev_node_at(pre, elem, new_id, k);
        }
        assert(self@ =~= pre@.insert(i, elem));
    }

    /// The node standing at position `k` after the surgery of
    /// `insert_prev`, case by case.
    proof fn lemma_insert_prev_node_at(&self, pre: Self, elem: T, new_id: usize, k: int)
        requires
            pre.wf(),
            pre.order@.len() > 0,
            new_id as int == pre.nodes@.len(),
            self.order@ == pre.order@.insert(pre.idx(), new_id),
            self.nodes@.len() == pre.nodes@.len() + 1,
            self.nodes@[new_id as int] == Some(
                (Node {
                    prev: pre.link_to(pre.idx() - 1),
                    next: Some(pre.order@[pre.idx()]),
                    elem,
                }),
            ),
            self.nodes@[pre.order@[pre.idx()] as int] == Some(
                (Node {
                    prev: Some(new_id),
                    next: pre.node(pre.idx()).next,
                    elem: pre.node(pre.idx()).elem,
                }),
            ),
            pre.idx() > 0 ==> self.nodes@[pre.order@[pre.idx() - 1] as int] == Some(
                (Node {
                    prev: pre.node(pre.idx() - 1).prev,
                    next: Some(new_id),
                    elem: pre.node(pre.idx() - 1).elem,
                }),
            ),
            forall|j: int|
                0 <= j < pre.nodes@.len() && j != pre.order@[pre.idx()] as int && (pre.idx() > 0
                    ==> j != pre.order@[pre.idx() - 1] as int) ==> self.nodes@[j]
                    == pre.nodes@[j],
            0 <= k < self.order@.len(),
        ensures
            self.node(k).next == self.link_to(k + 1),
            self.node(k).prev == self.link_to(k - 1),
            self.node(k).elem == pre@.insert(pre.idx(), elem)[k],
    {
        let i = pre.idx();
        let n = pre.order@.len() as int;
        let ord0 = pre.order@;
        let ordn = self.order@;
        ord0.insert_ensures(i, new_id);
        assert forall|k0: int| 0 <= k0 < n implies pre.live(ord0[k0]) && ord0[k0] < new_id by {
            assert(pre.live(ord0[k0]));
        }
        pre@.insert_ensures(i, elem);
        if k < i - 1 {
            assert(ordn[k] == ord0[k]);
            assert(ord0[k] != ord0[i]);
            assert(i > 0 ==> ord0[k] != ord0[i - 1]);
            assert(self.node(k) == pre.node(k));
            assert(ordn[k + 1] == ord0[k + 1]);
            if k > 0 {
                assert(ordn[k - 1] == ord0[k - 1]);
            }
        } else if k == i - 1 {
            assert(ordn[k] == ord0[k]);
            assert(self.node(k).next == Some(new_id) && ordn[i] == new_id);
            assert(self.node(k).prev == pre.node(i - 1).prev);
            if k > 0 {
                assert(ordn[k - 1] == ord0[k - 1]);
            }
        } else if k == i {
            assert(ordn[k] == new_id);
            assert(self.node(k).next == Some(ord0[i]) && ordn[i + 1] == ord0[i]);
            if i > 0 {
                assert(self.node(k).prev == Some(ord0[i - 1]) && ordn[i - 1] == ord0[i - 1]);
            }
        } else if k == i + 1 {
            assert(ordn[k] == ord0[i]);
            assert(self.node(k).prev == Some(new_id) && ordn[i] == new_id);
            assert(self.node(k).next == pre.node(i).next);
            if k + 1 < ordn.len() {
                assert(ordn[k + 1] == ord0[k]);
            }
        } else {
            assert(ordn[k] == ord0[k - 1]);
            assert(ord0[k - 1] != ord0[i]);
            assert(i > 0 ==> ord0[k - 1] != ord0[i - 1]);
            assert(self.node(k) == pre.node(k - 1));
            if k + 1 < ordn.len() {
                assert(ordn[k + 1] == ord0[k]);
            }
            assert(ordn[k - 1] == ord0[k - 2]);
        }
    }

    /// Re-establishes well-formedness after detaching the node under the
    /// cursor, whichever way the cursor was repaired afterwards, and relates
    /// the new view to the old one.
    proof fn lemma_removed_wf(&self, pre: Self)
        requires
            pre.wf(),
            pre.order@.len() > 0,
            self.len == pre.len - 1,
            self.order@ == pre.order@.remove(pre.idx()),
            self.nodes@.len() == pre.nodes@.len(),
            // the predecessor, if any, now jumps over the removed node
            pre.idx() > 0 ==> self.nodes@[pre.order@[pre.idx() - 1] as int] == Some(
                (Node {
                    prev: pre.node(pre.idx() - 1).prev,
                    next: pre.link_to(pre.idx() + 1),
                    elem: pre.node(pre.idx() - 1).elem,
                }),
            ),
            // the successor, if any, now jumps over the removed node
            pre.idx() + 1 < pre.order@.len() ==> self.nodes@[pre.order@[pre.idx() + 1] as int]
                == Some(
                (Node {
                    prev: pre.link_to(pre.idx() - 1),
                    next: pre.node(pre.idx() + 1).next,
                    elem: pre.node(pre.idx() + 1).elem,
                }),
            ),
            // every other slot is untouched
            forall|j: int|
                0 <= j < pre.nodes@.len() && j != pre.order@[pre.idx()] as int && (pre.idx() > 0
                    ==> j != pre.order@[pre.idx() - 1] as int) && (pre.idx() + 1
                    < pre.order@.len() ==> j != pre.order@[pre.idx() + 1] as int)
                    ==> self.nodes@[j] == pre.nodes@[j],
            // the cursor has been repaired for the shrunken order
            if pre.order@.len() == 1 {
                self.current is None && self.index == 0
            } else {
                self.idx() < pre.order@.len() - 1 && self.current == Some(
                    pre.order@.remove(pre.idx())[self.idx()],
                )
            },
        ensures
            self.wf(),
            self@ == pre@.remove(pre.idx()),
    {
        let i = pre.idx();
        let n = pre.order@.len() as int;
        let ord0 = pre.order@;
        let ordn = self.order@;
        ord0.remove_ensures(i);
        assert forall|k: int| 0 <= k < ordn.len() implies #[trigger] self.live(ordn[k]) by {
            self.lemma_removed_node_at(pre, k);
        }
        assert forall|k1: int, k2: int|
            #![trigger ordn[k1], ordn[k2]]
            0 <= k1 < ordn.len() && 0 <= k2 < ordn.len() && k1 != k2 implies ordn[k1]
            != ordn[k2] by {
            let j1 = if k1 < i {
                k1
            } else {
                k1 + 1
            };
            let j2 = if k2 < i {
                k2
            } else {
                k2 + 1
            };
            assert(ordn[k1] == ord0[j1]);
            assert(ordn[k2] == ord0[j2]);
        }
        assert forall|k: int| 0 <= k < ordn.len() implies (#[trigger] self.node(k)).next
            == self.link_to(k + 1) && self.node(k).prev == self.link_to(k - 1) by {
            self.lemma_removed_node_at(pre, k);
        }
        assert(self.wf());
        assert forall|k: int| 0 <= k < ordn.len() implies #[trigger] self@[k] == pre@.remove(i)[k]
            by {
            self.lemma_removed_node_at(pre, k);
            pre@.remove_ensures(i);
        }
        assert(pre@.remove(i).len() == ordn.len()) by {
            pre@.remove_ensures(i);
        }
        assert(self@ =~= pre@.remove(i));
    }

    /// The node standing at position `k` after the surgery of a removal at
    /// the cursor, case by case.
    proof fn lemma_removed_node_at(&self, pre: Self, k: int)
        requires
            pre.wf(),
            pre.order@.len() > 0,
            self.order@ == pre.order@.remove(pre.idx()),
            self.nodes@.len() == pre.nodes@.len(),
            pre.idx() > 0 ==> self.nodes@[pre.order@[pre.idx() - 1] as int] == Some(
                (Node {
                    prev: pre.node(pre.idx() - 1).prev,
                    next: pre.link_to(pre.idx() + 1),
                    elem: pre.node(pre.idx() - 1).elem,
                }),
            ),
            pre.idx() + 1 < pre.order@.len() ==> self.nodes@[pre.order@[pre.idx() + 1] as int]
                == Some(
                (Node {
                    prev: pre.link_to(pre.idx() - 1),
                    next: pre.node(pre.idx() + 1).next,
                    elem: pre.node(pre.idx() + 1).elem,
                }),
            ),
            forall|j: int|
                0 <= j < pre.nodes@.len() && j != pre.order@[pre.idx()] as int && (pre.idx() > 0
                    ==> j != pre.order@[pre.idx() - 1] as int) && (pre.idx() + 1
                    < pre.order@.len() ==> j != pre.order@[pre.idx() + 1] as int)
                    ==> self.nodes@[j] == pre.nodes@[j],
            0 <= k < self.order@.len(),
        ensures
            self.live(self.order@[k]),
            self.node(k).next == self.link_to(k + 1),
            self.node(k).prev == self.link_to(k - 1),
            self.node(k).elem == pre@.remove(pre.idx())[k],
    {
        let i = pre.idx();
        let n = pre.order@.len() as int;
        let ord0 = pre.order@;
        let ordn = self.order@;
        ord0.remove_ensures(i);
        pre@.remove_ensures(i);
        assert forall|k0: int| 0 <= k0 < n implies pre.live(ord0[k0]) by {
            assert(pre.live(ord0[k0]));
        }
        if k < i - 1 {
            assert(ordn[k] == ord0[k]);
            assert(ord0[k] != ord0[i]);
            assert(i > 0 ==> ord0[k] != ord0[i - 1]);
            assert(i + 1 < n ==> ord0[k] != ord0[i + 1]);
            assert(self.node(k) == pre.node(k));
            assert(ordn[k + 1] == ord0[k + 1]);
            if k > 0 {
                assert(ordn[k - 1] == ord0[k - 1]);
            }
        } else if k == i - 1 {
            assert(ordn[k] == ord0[k]);
            assert(self.node(k).next == pre.link_to(i + 1));
            assert(self.node(k).prev == pre.node(i - 1).prev);
            if k + 1 < ordn.len() {
                assert(ordn[k + 1] == ord0[i + 1]);
            }
            if k > 0 {
                assert(ordn[k - 1] == ord0[k - 1]);
            }
        } else if k == i {
            assert(ordn[k] == ord0[i + 1]);
            assert(self.node(k).prev == pre.link_to(i - 1));
            assert(self.node(k).next == pre.node(i + 1).next);
            assert(self.node(k).next == pre.link_to(i + 2));
            if k + 1 < ordn.len() {
                assert(ordn[k + 1] == ord0[i + 2]);
            }
            if k > 0 {
                assert(ordn[k - 1] == ord0[k - 1]);
            }
        } else {
            assert(ordn[k] == ord0[k + 1]);
            assert(ord0[k + 1] != ord0[i]);
            assert(i > 0 ==> ord0[k + 1] != ord0[i - 1]);
            assert(ord0[k + 1] != ord0[i + 1]);
            assert(self.node(k) == pre.node(k + 1));
            if k + 1 < ordn.len() {
                assert(ordn[k + 1] == ord0[k + 2]);
            }
            assert(ordn[k - 1] == ord0[k]);
        }
    }
}

} // verus!
