//! The list itself: an arena of nodes addressed by position.

use vstd::prelude::*;
use vstd::pervasive::VecAdditionalExecFns;

use crate::draw::{adopts_skip, skip_threshold, PercentSource, ThreadRandom, PERCENT};

verus! {

/// One stored value with its links. Links are positions in the arena: `next`
/// follows the owning chain, `previous` walks it backwards, and `skip`, once
/// set, jumps to a later node and never changes again.
#[derive(Debug)]
pub struct Node<T> {
    position: usize,
    value: T,
    previous: Option<usize>,
    next: Option<usize>,
    skip: Option<usize>,
}

impl<T> Node<T> {
    fn new(value: T) -> (n: Node<T>)
        ensures
            n.position == 0,
            n.value == value,
            n.previous is None,
            n.next is None,
            n.skip is None,
    {
        Node { position: 0, value: value, previous: None, next: None, skip: None }
    }
}

/// An append-only list with randomized skip links.
///
/// The arena slot of a node is its position. Positions below `first()` belong
/// to nodes that draining has already released; their slots are empty. Once the
/// list is drained empty the arena is cleared and positions start again at 0.
#[derive(Debug)]
pub struct LinkedList<T> {
    length: usize,
    head: Option<usize>,
    tail: Option<usize>,
    nodes: Vec<Option<Node<T>>>,
}

/// `after` holds the skip links of `before` and at most one more, to
/// `candidate`, from some node in `lowest..=from` that had no skip link and
/// such that no node after it up to `from` had one either.
pub open spec fn skip_added(
    before: Map<nat, nat>,
    after: Map<nat, nat>,
    lowest: nat,
    from: nat,
    candidate: nat,
) -> bool {
    ||| after == before
    ||| exists|p: nat|
        #![trigger before.insert(p, candidate)]
        {
            &&& lowest <= p <= from
            &&& !before.dom().contains(p)
            &&& forall|j: nat| p < j <= from ==> !#[trigger] before.dom().contains(j)
            &&& after == before.insert(p, candidate)
        }
}

impl<T> View for LinkedList<T> {
    type V = Seq<T>;

    /// The live values, from the head to the tail.
    closed spec fn view(&self) -> Seq<T> {
        Seq::new(self.length as nat, |k: int| self.nodes@[self.first() + k].unwrap().value)
    }
}

impl<T> LinkedList<T> {
    /// The position of the head node; zero for an empty list.
    pub closed spec fn first(self) -> nat {
        (self.nodes@.len() - self.length) as nat
    }

    /// The node in slot `i` is live and linked as its position demands.
    spec fn node_linked(self, i: int) -> bool {
        let n = self.nodes@[i].unwrap();
        let first = self.first() as int;
        let end = self.nodes@.len() as int;
        &&& self.nodes@[i] is Some
        &&& n.position == i
        &&& n.next == (if i + 1 < end { Some((i + 1) as usize) } else { None::<usize> })
        &&& n.previous == (if i > first { Some((i - 1) as usize) } else { None::<usize> })
        &&& (n.skip is Some ==> i < n.skip.unwrap() < end)
    }

    /// The arena holds the released slots below `first()` and one linked node
    /// for each live position after it; `head` and `tail` name the ends.
    pub closed spec fn well_formed(self) -> bool {
        let end = self.nodes@.len();
        &&& end <= usize::MAX
        &&& self.length <= end
        &&& (self.length == 0 ==> end == 0)
        &&& self.head == (if self.length == 0 { None } else { Some(self.first() as usize) })
        &&& self.tail == (if self.length == 0 { None } else { Some((end - 1) as usize) })
        &&& forall|i: int| 0 <= i < self.first() ==> #[trigger] self.nodes@[i] is None
        &&& forall|i: int| self.first() <= i < end ==> #[trigger] self.node_linked(i)
    }

    /// The skip links of the live nodes: from a node's position to its target's.
    pub closed spec fn skips(self) -> Map<nat, nat> {
        Map::new(
            |p: nat|
                self.first() <= p < self.nodes@.len() && self.nodes@[p as int].unwrap().skip is Some,
            |p: nat| self.nodes@[p as int].unwrap().skip.unwrap() as nat,
        )
    }

    /// The number of hops a search for `position` takes from the node at
    /// `node`: none once there; otherwise one hop along the skip link when it
    /// does not overshoot `position`, else one along the next link, and a last
    /// hop that finds nothing past the tail.
    pub closed spec fn hops(self, position: int, node: int) -> nat {
        self.hops_from(position, node)
    }

    spec fn hops_from(self, position: int, node: int) -> nat
        decreases self.nodes@.len() - node,
    {
        let end = self.nodes@.len() as int;
        let n = self.nodes@[node].unwrap();
        if node == position || node < 0 || node >= end {
            0
        } else if n.skip is Some && node < n.skip.unwrap() <= position && n.skip.unwrap() < end {
            1 + self.hops_from(position, n.skip.unwrap() as int)
        } else if node + 1 < end {
            1 + self.hops_from(position, node + 1)
        } else {
            1
        }
    }

    /// What a lookup of `position` finds: the value of the live node there.
    pub open spec fn lookup(self, position: int) -> Option<T> {
        if self.first() <= position < self.first() + self@.len() {
            Some(self@[position - self.first()])
        } else {
            None
        }
    }

    /// The list holds `vs`, appended in order to a fresh (or fully drained)
    /// list, at positions `0..vs.len()`.
    pub open spec fn holds_appended(self, vs: Seq<T>) -> bool {
        self.first() == 0 && self@ == vs
    }

    /// Every skip link jumps forward to a live node.
    pub open spec fn skips_forward(self) -> bool {
        forall|p: nat|
            #[trigger] self.skips().dom().contains(p) ==> self.first() <= p < self.skips()[p]
                < self.first() + self@.len()
    }

    /// An empty list.
    pub fn new() -> (l: LinkedList<T>)
        ensures
            l.well_formed(),
            l.holds_appended(Seq::empty()),
            l.skips() == Map::<nat, nat>::empty(),
    {
        let l = LinkedList { length: 0, head: None, tail: None, nodes: Vec::new() };
        assert(l@ =~= Seq::empty());
        assert(l.skips() =~= Map::<nat, nat>::empty());
        l
    }

    /// The number of values the list holds.
    pub fn length(&self) -> (r: usize)
        requires
            self.well_formed(),
        ensures
            r == self@.len(),
    {
        self.length
    }

    /// Links a new node holding `value` after the tail and returns its
    /// position; no skip link is assigned.
    fn _append(&mut self, value: T) -> (position: usize)
        requires
            old(self).well_formed(),
            old(self).first() + old(self)@.len() < usize::MAX,
        ensures
            final(self).well_formed(),
            final(self)@ == old(self)@.push(value),
            final(self).first() == old(self).first(),
            final(self).skips() == old(self).skips(),
            position == old(self).first() + old(self)@.len(),
    {
        let ghost pre = *self;
        let mut node = Node::new(value);
        let position = self.nodes.len();
        match self.tail {
            Some(t) => {
                assert(pre.node_linked(t as int));
                let mut slot: Option<Node<T>> = None;
                self.nodes.set_and_swap(t, &mut slot);
                let mut tail_node = slot.unwrap();
                node.position = tail_node.position + 1;
                node.previous = Some(t);
                tail_node.next = Some(position);
                self.nodes.set(t, Some(tail_node));
            },
            None => {
                self.head = Some(position);
            },
        }
        self.nodes.push(Some(node));
        self.tail = Some(position);
        self.length = self.length + 1;
        assert(self.first() == pre.first());
        assert forall|i: int| self.first() <= i < self.nodes@.len() implies #[trigger] self.node_linked(i) by {
            if i < position {
                assert(pre.node_linked(i));
            }
        }
        assert(self@ =~= pre@.push(value));
        assert(self.skips() =~= pre.skips());
        position
    }

    /// One step of the backward sweep, at the node at `current`, which holds
    /// no skip link: if `draw` beats the node's threshold it adopts `candidate`
    /// as its skip target and the sweep ends (`None`); otherwise nothing
    /// changes and the sweep goes on at the predecessor, or ends at the head.
    fn sweep_step(&mut self, current: usize, candidate: usize, draw: u64) -> (next: Option<usize>)
        requires
            old(self).well_formed(),
            old(self).first() <= current < candidate < old(self).first() + old(self)@.len(),
            !old(self).skips().dom().contains(current as nat),
        ensures
            final(self).well_formed(),
            final(self)@ == old(self)@,
            final(self).first() == old(self).first(),
            draw > skip_threshold(current as int, candidate as int) ==> {
                &&& final(self).skips() == old(self).skips().insert(current as nat, candidate as nat)
                &&& next is None
            },
            draw <= skip_threshold(current as int, candidate as int) ==> {
                &&& *final(self) == *old(self)
                &&& next == (if current > old(self).first() {
                    Some((current - 1) as usize)
                } else {
                    None::<usize>
                })
            },
    {
        let ghost pre = *self;
        assert(self.node_linked(current as int));
        let (position, previous) = match &self.nodes[current] {
            Some(n) => (n.position, n.previous),
            // a live position always holds a node
            None => {
                return None;
            },
        };
        if adopts_skip(position, candidate, draw) {
            let mut slot: Option<Node<T>> = None;
            self.nodes.set_and_swap(current, &mut slot);
            let mut node = slot.unwrap();
            node.skip = Some(candidate);
            self.nodes.set(current, Some(node));
            assert forall|i: int| self.first() <= i < self.nodes@.len() implies #[trigger] self.node_linked(i) by {
                assert(pre.node_linked(i));
            }
            assert(self@ =~= pre@);
            assert(self.skips() =~= pre.skips().insert(current as nat, candidate as nat));
            None
        } else {
            previous
        }
    }

    /// The backward sweep of one append: starting at `from` and walking
    /// `previous` links, each node that holds no skip link takes one draw and
    /// the sweep step decides. The sweep stops at once when `from` is the
    /// candidate itself, at a node that already has a skip link, at an
    /// adoption, or at the head. The candidate's predecessor never adopts it:
    /// its threshold is `PERCENT`, above every draw.
    fn skip_to<R: PercentSource>(&mut self, from: usize, candidate: usize, rng: &mut R)
        requires
            old(self).well_formed(),
            old(self).first() <= from <= candidate < old(self).first() + old(self)@.len(),
        ensures
            final(self).well_formed(),
            final(self)@ == old(self)@,
            final(self).first() == old(self).first(),
            skip_added(old(self).skips(), final(self).skips(), old(self).first(), from as nat, candidate as nat),
            from == candidate ==> *final(self) == *old(self) && *final(rng) == *old(rng),
            old(self).skips().dom().contains(from as nat) ==> *final(self) == *old(self) && *final(rng)
                == *old(rng),
            candidate > 0 ==> (final(self).skips().dom().contains((candidate - 1) as nat)
                == old(self).skips().dom().contains((candidate - 1) as nat)),
    {
        let ghost pre = *self;
        let mut current = from;
        loop
            invariant
                self.well_formed(),
                *self == pre,
                pre == *old(self),
                pre.well_formed(),
                pre.first() <= current <= from <= candidate < pre.first() + pre@.len(),
                forall|j: nat| current < j <= from ==> !#[trigger] pre.skips().dom().contains(j),
                current == from ==> *rng == *old(rng),
                from == candidate ==> current == from,
            decreases current,
        {
            assert(self.node_linked(current as int));
            let (position, has_skip) = match &self.nodes[current] {
                Some(n) => (n.position, n.skip.is_some()),
                // a live position always holds a node
                None => {
                    return ;
                },
            };
            if position == candidate || has_skip {
                return ;
            }
            let draw = rng.draw();
            let step = self.sweep_step(current, candidate, draw);
            proof {
                if draw > skip_threshold(current as int, candidate as int) {
                    assert(self.skips() == pre.skips().insert(current as nat, candidate as nat));
                    assert(current + 1 != candidate as int);
                }
            }
            match step {
                Some(p) => {
                    current = p;
                },
                None => {
                    return ;
                },
            }
        }
    }

    /// Appends `value` at the end, drawing from `rng` to assign skip links,
    /// and returns the new node's position.
    pub fn append_with<R: PercentSource>(&mut self, value: T, rng: &mut R) -> (position: usize)
        requires
            old(self).well_formed(),
            old(self).first() + old(self)@.len() < usize::MAX,
        ensures
            final(self).well_formed(),
            final(self)@ == old(self)@.push(value),
            final(self).first() == old(self).first(),
            position == old(self).first() + old(self)@.len(),
            forall|vs: Seq<T>| old(self).holds_appended(vs) ==> #[trigger] final(self).holds_appended(vs.push(value)),
            old(self)@.len() == 0 ==> final(self).skips() == old(self).skips(),
            old(self)@.len() > 0 ==> skip_added(
                old(self).skips(),
                final(self).skips(),
                old(self).first(),
                (position - 1) as nat,
                position as nat,
            ),
            old(self)@.len() > 0 ==> !final(self).skips().dom().contains((position - 1) as nat),
            final(self).skips_forward(),
    {
        let ghost pre = *self;
        let previous_tail = self.tail;
        let position = self._append(value);
        match previous_tail {
            Some(t) => {
                assert(pre.node_linked(t as int));
                assert(!pre.skips().dom().contains(t as nat));
                self.skip_to(t, position, rng);
            },
            None => {},
        }
        proof {
            lemma_skips_point_forward(*self);
        }
        position
    }

    /// Appends `value` at the end, drawing from the thread's random number
    /// generator to assign skip links, and returns the new node's position.
    pub fn append(&mut self, value: T) -> (position: usize)
        requires
            old(self).well_formed(),
            old(self).first() + old(self)@.len() < usize::MAX,
        ensures
            final(self).well_formed(),
            final(self)@ == old(self)@.push(value),
            final(self).first() == old(self).first(),
            position == old(self).first() + old(self)@.len(),
            forall|vs: Seq<T>| old(self).holds_appended(vs) ==> #[trigger] final(self).holds_appended(vs.push(value)),
            old(self)@.len() == 0 ==> final(self).skips() == old(self).skips(),
            old(self)@.len() > 0 ==> skip_added(
                old(self).skips(),
                final(self).skips(),
                old(self).first(),
                (position - 1) as nat,
                position as nat,
            ),
            old(self)@.len() > 0 ==> !final(self).skips().dom().contains((position - 1) as nat),
            final(self).skips_forward(),
    {
        let mut rng = ThreadRandom;
        self.append_with(value, &mut rng)
    }
}

impl<T> LinkedList<T> {
    /// Takes the head's value out, releases the head node and makes its
    /// successor the head. Once the list is empty it stays unchanged and
    /// yields nothing.
    pub fn next(&mut self) -> (r: Option<T>)
        requires
            old(self).well_formed(),
        ensures
            final(self).well_formed(),
            old(self)@.len() == 0 ==> r is None && *final(self) == *old(self),
            old(self)@.len() > 0 ==> {
                &&& r == Some(old(self)@[0])
                &&& final(self)@ == old(self)@.drop_first()
                &&& final(self).first() == (if old(self)@.len() == 1 {
                    0
                } else {
                    old(self).first() + 1
                })
                &&& final(self).skips() == old(self).skips().remove(old(self).first())
            },
    {
        match self.head {
            None => None,
            Some(h) => {
                let ghost pre = *self;
                assert(pre.node_linked(h as int));
                let mut slot: Option<Node<T>> = None;
                self.nodes.set_and_swap(h, &mut slot);
                let node = slot.unwrap();
                self.length = self.length - 1;
                match node.next {
                    Some(n) => {
                        assert(pre.node_linked(n as int));
                        let mut next_slot: Option<Node<T>> = None;
                        self.nodes.set_and_swap(n, &mut next_slot);
                        let mut next_node = next_slot.unwrap();
                        next_node.previous = None;
                        self.nodes.set(n, Some(next_node));
                        self.head = Some(n);
                        assert forall|i: int| self.first() <= i < self.nodes@.len() implies #[trigger] self.node_linked(i) by {
                            assert(pre.node_linked(i));
                        }
                        assert forall|i: int| 0 <= i < self.first() implies #[trigger] self.nodes@[i] is None by {
                            if i < pre.first() {
                                assert(pre.nodes@[i] is None);
                            }
                        }
                        assert(self@ =~= pre@.drop_first());
                        assert(self.skips() =~= pre.skips().remove(pre.first()));
                    },
                    None => {
                        self.head = None;
                        self.tail = None;
                        self.nodes.clear();
                        assert(self@ =~= pre@.drop_first());
                        assert(self.skips() =~= pre.skips().remove(pre.first()));
                    },
                }
                Some(node.value)
            },
        }
    }

    /// Consumes the list and returns how many values it held.
    pub fn count(self) -> (r: usize)
        requires
            self.well_formed(),
        ensures
            r == self@.len(),
    {
        self.length
    }

    /// The number of values that draining would still yield, as exact lower
    /// and upper bounds.
    pub fn size_hint(&self) -> (r: (usize, Option<usize>))
        requires
            self.well_formed(),
        ensures
            r == (self@.len() as usize, Some(self@.len() as usize)),
    {
        (self.length, Some(self.length))
    }
}

impl<T: Copy> LinkedList<T> {
    /// The value at `position`, or `None` when no live node has that position.
    pub fn at(&self, position: usize) -> (r: Option<T>)
        requires
            self.well_formed(),
        ensures
            r == self.lookup(position as int),
    {
        match self.head {
            Some(h) => {
                let (ret, _) = self._at(position, h, 0);
                ret
            },
            None => None,
        }
    }

    /// Searches for `position` starting at the node at `node`, taking a skip
    /// link whenever it does not overshoot and the next link otherwise.
    /// Returns what was found and `iterations` plus the number of hops taken,
    /// which is never more than the number of nodes from `node` to the tail,
    /// nor, on a hit, more than the distance from `node` to `position`.
    pub fn _at(&self, position: usize, node: usize, iterations: usize) -> (r: (Option<T>, usize))
        requires
            self.well_formed(),
            self.first() <= node < self.first() + self@.len(),
            iterations + (self.first() + self@.len() - node) <= usize::MAX,
        ensures
            r.0 == (if node <= position {
                self.lookup(position as int)
            } else {
                None
            }),
            r.1 == iterations + self.hops(position as int, node as int),
            iterations <= r.1 <= iterations + (self.first() + self@.len() - node),
            r.0 is Some ==> r.1 <= iterations + (position - node),
        decreases self.first() + self@.len() - node, 1nat,
    {
        assert(self.node_linked(node as int));
        match &self.nodes[node] {
            Some(current) => {
                if position == current.position {
                    (Some(current.value), iterations)
                } else {
                    match current.skip {
                        None => self._next_at(position, node, iterations + 1),
                        Some(target) => {
                            assert(self.node_linked(target as int));
                            let target_position = match &self.nodes[target] {
                                Some(t) => t.position,
                                None => target,
                            };
                            if target_position == current.position {
                                self._next_at(position, node, iterations + 1)
                            } else if target_position <= position {
                                self._at(position, target, iterations + 1)
                            } else {
                                self._next_at(position, node, iterations + 1)
                            }
                        },
                    }
                }
            },
            None => (None, iterations),
        }
    }

    /// Continues a search for `position` at the successor of the node at
    /// `node`, or ends it without a result at the tail.
    fn _next_at(&self, position: usize, node: usize, iterations: usize) -> (r: (Option<T>, usize))
        requires
            self.well_formed(),
            self.first() <= node < self.first() + self@.len(),
            node != position,
            iterations + (self.first() + self@.len() - node - 1) <= usize::MAX,
        ensures
            r.0 == (if node < position {
                self.lookup(position as int)
            } else {
                None
            }),
            r.1 == iterations + (if node + 1 < self.first() + self@.len() {
                self.hops(position as int, node + 1)
            } else {
                0
            }),
            iterations <= r.1 <= iterations + (self.first() + self@.len() - node - 1),
            r.0 is Some ==> r.1 <= iterations + (position - node - 1),
        decreases self.first() + self@.len() - node, 0nat,
    {
        assert(self.node_linked(node as int));
        match &self.nodes[node] {
            Some(current) => match current.next {
                Some(n) => self._at(position, n, iterations),
                None => (None, iterations),
            },
            None => (None, iterations),
        }
    }
}

/// The values a list that held `vs` still holds after `k` calls of `next`.
pub open spec fn drained_view<T>(vs: Seq<T>, k: nat) -> Seq<T>
    decreases k,
{
    if k == 0 {
        vs
    } else {
        drained_view(vs, (k - 1) as nat).drop_first()
    }
}

/// Every value appended to a fresh list is found at the position it was
/// appended at, the list's length is the number of values appended, and no
/// position from that number on holds anything.
pub proof fn lemma_appended_values_found<T>(l: LinkedList<T>, vs: Seq<T>)
    requires
        l.well_formed(),
        l.holds_appended(vs),
    ensures
        l@.len() == vs.len(),
        forall|i: int| 0 <= i < vs.len() ==> #[trigger] l.lookup(i) == Some(vs[i]),
        forall|i: int| i >= vs.len() ==> #[trigger] l.lookup(i) is None,
{
}

/// A list with nothing left in it, such as one drained to the end, finds
/// nothing at any position, and appends to it start again at position 0.
pub proof fn lemma_drained_list_is_empty<T>(l: LinkedList<T>)
    requires
        l.well_formed(),
        l@.len() == 0,
    ensures
        l.holds_appended(Seq::empty()),
        forall|i: int| #[trigger] l.lookup(i) is None,
{
    assert(l@ =~= Seq::<T>::empty());
}

/// Draining yields values in the order they were appended: after `k` calls of
/// `next` a list that held `vs` holds `vs[k..]`, so the next call yields
/// `vs[k]`; after `vs.len()` calls it holds nothing.
pub proof fn lemma_drain_order<T>(vs: Seq<T>, k: nat)
    requires
        k <= vs.len(),
    ensures
        drained_view(vs, k) == vs.subrange(k as int, vs.len() as int),
        k < vs.len() ==> drained_view(vs, k)[0] == vs[k as int],
        k == vs.len() ==> drained_view(vs, k).len() == 0,
    decreases k,
{
    if k > 0 {
        lemma_drain_order(vs, (k - 1) as nat);
        assert(drained_view(vs, k) =~= vs.subrange(k as int, vs.len() as int));
    } else {
        assert(vs.subrange(0, vs.len() as int) =~= vs);
    }
}

/// Every skip link of a list jumps forward, to a node that is still live.
pub proof fn lemma_skips_point_forward<T>(l: LinkedList<T>)
    requires
        l.well_formed(),
    ensures
        l.skips_forward(),
{
    assert forall|p: nat| #[trigger] l.skips().dom().contains(p) implies l.first() <= p < l.skips()[p]
        < l.first() + l@.len() by {
        assert(l.node_linked(p as int));
    }
}

/// A lookup never takes more hops than walking the next links would: from
/// the node at `node` at most one per node up to and past the tail, and on a
/// hit at most the distance to the position sought.
pub proof fn lemma_hops_at_most_linear<T>(l: LinkedList<T>, position: int, node: int)
    requires
        l.well_formed(),
        l.first() <= node < l.first() + l@.len(),
    ensures
        l.hops(position, node) <= l.first() + l@.len() - node,
        node <= position < l.first() + l@.len() ==> l.hops(position, node) <= position - node,
    decreases l.first() + l@.len() - node,
{
    assert(l.node_linked(node));
    let n = l.nodes@[node].unwrap();
    let end = l.nodes@.len() as int;
    if node == position {
    } else if n.skip is Some && node < n.skip.unwrap() <= position && n.skip.unwrap() < end {
        lemma_hops_at_most_linear(l, position, n.skip.unwrap() as int);
    } else if node + 1 < end {
        lemma_hops_at_most_linear(l, position, node + 1);
    }
}

} // verus!
