//! The root's tree view and its pivot policy.
//!
//! The root alone holds a directory of every node: its id, its advertised
//! address and how many children have attached to it. A pivot mints the next
//! id and assigns the caller to the first slot with free fanout; the fanout
//! of every slot stays within `MAX_FANOUT`.

use crate::errors::TbonError;
use crate::protocol::TbonId;
use vstd::prelude::*;

verus! {

/// Upper bound on the number of direct children of any node.
pub const MAX_FANOUT: u32 = 16;

/// One directory entry: a node's id, its advertised address, and the number
/// of children whose direct parent it is.
pub struct Slot {
    pub id: TbonId,
    pub addr: String,
    pub fanout: u32,
}

/// The root's directory, in insertion order, together with the highest id
/// minted so far.
pub struct TreeView {
    pub current_id: u32,
    pub slots: Vec<Slot>,
}

/// Mathematical view of a slot.
pub struct SlotV {
    pub id: u32,
    pub addr: Seq<char>,
    pub fanout: u32,
}

/// Mathematical view of the tree view.
#[verifier::ext_equal]
pub struct TreeViewV {
    pub current_id: u32,
    pub slots: Seq<SlotV>,
}

impl View for Slot {
    type V = SlotV;

    open spec fn view(&self) -> SlotV {
        SlotV { id: self.id, addr: self.addr@, fanout: self.fanout }
    }
}

impl View for TreeView {
    type V = TreeViewV;

    open spec fn view(&self) -> TreeViewV {
        TreeViewV { current_id: self.current_id, slots: self.slots@.map_values(|s: Slot| s@) }
    }
}

/// Least index at or after `i` whose slot has free fanout; `s.len()` when
/// every remaining slot is full.
pub open spec fn first_free_at(s: Seq<SlotV>, i: int) -> int
    decreases s.len() - i when 0 <= i <= s.len()
{
    if i >= s.len() {
        s.len() as int
    } else if s[i].fanout < MAX_FANOUT {
        i
    } else {
        first_free_at(s, i + 1)
    }
}

impl TreeViewV {
    /// Well-formedness: at least the root's slot; ids start at 1, grow
    /// strictly along the directory, and never exceed the minting counter;
    /// no slot's fanout exceeds the bound.
    pub open spec fn wf(self) -> bool {
        &&& self.slots.len() >= 1
        &&& self.slots[0].id == 1
        &&& self.current_id >= self.slots.len()
        &&& forall|i: int, j: int|
            0 <= i < j < self.slots.len() ==> self.slots[i].id < self.slots[j].id
        &&& forall|i: int|
            0 <= i < self.slots.len() ==> (#[trigger] self.slots[i]).id <= self.current_id
        &&& forall|i: int|
            0 <= i < self.slots.len() ==> (#[trigger] self.slots[i]).fanout <= MAX_FANOUT
    }

    /// A view reached without any failed pivot: every minted id sits in its
    /// slot and the youngest slot has not been given a child yet.
    pub open spec fn complete(self) -> bool {
        &&& self.current_id == self.slots.len()
        &&& forall|i: int| 0 <= i < self.slots.len() ==> (#[trigger] self.slots[i]).id == i + 1
        &&& self.slots.last().fanout == 0
    }

    /// Some slot can still take a child.
    pub open spec fn has_capacity(self) -> bool {
        exists|i: int| 0 <= i < self.slots.len() && self.slots[i].fanout < MAX_FANOUT
    }

    /// The slot a pivot would assign: the first with free fanout.
    pub open spec fn first_free(self) -> int {
        first_free_at(self.slots, 0)
    }

    /// The state after one pivot that advertises `new_addr`: the id counter
    /// always advances; when a slot with free fanout exists, that slot's
    /// fanout grows by one and the caller's fresh slot is appended.
    pub open spec fn after_pivot(self, new_addr: Seq<char>) -> TreeViewV {
        let minted = (self.current_id + 1) as u32;
        if self.has_capacity() {
            let j = self.first_free();
            let bumped = SlotV {
                id: self.slots[j].id,
                addr: self.slots[j].addr,
                fanout: (self.slots[j].fanout + 1) as u32,
            };
            TreeViewV {
                current_id: minted,
                slots: self.slots.update(j, bumped).push(
                    SlotV { id: minted, addr: new_addr, fanout: 0 },
                ),
            }
        } else {
            TreeViewV { current_id: minted, slots: self.slots }
        }
    }

    /// The view the root seeds at init: itself as id 1, childless.
    pub open spec fn init(root_addr: Seq<char>) -> TreeViewV {
        TreeViewV {
            current_id: 1,
            slots: seq![SlotV { id: 1, addr: root_addr, fanout: 0 }],
        }
    }
}

/// `first_free_at` lands on the first slot with free fanout, or runs off the
/// end exactly when none has any.
pub proof fn lemma_first_free_at(s: Seq<SlotV>, i: int)
    requires
        0 <= i <= s.len(),
    ensures
        i <= first_free_at(s, i) <= s.len(),
        first_free_at(s, i) < s.len() ==> s[first_free_at(s, i)].fanout < MAX_FANOUT,
        forall|k: int| i <= k < first_free_at(s, i) ==> s[k].fanout >= MAX_FANOUT,
        (first_free_at(s, i) < s.len()) <==> (exists|k: int|
            i <= k < s.len() && s[k].fanout < MAX_FANOUT),
    decreases s.len() - i,
{
    if i < s.len() && s[i].fanout >= MAX_FANOUT {
        lemma_first_free_at(s, i + 1);
    }
}

/// The view after a whole sequence of pivots, first address first.
pub open spec fn run_pivots(v: TreeViewV, addrs: Seq<Seq<char>>) -> TreeViewV
    decreases addrs.len(),
{
    if addrs.len() == 0 {
        v
    } else {
        run_pivots(v.after_pivot(addrs[0]), addrs.drop_first())
    }
}

/// The ids that sequence assigns, in order; a refused pivot assigns none.
pub open spec fn assigned_ids(v: TreeViewV, addrs: Seq<Seq<char>>) -> Seq<u32>
    decreases addrs.len(),
{
    if addrs.len() == 0 {
        Seq::empty()
    } else {
        let rest = assigned_ids(v.after_pivot(addrs[0]), addrs.drop_first());
        if v.has_capacity() {
            seq![(v.current_id + 1) as u32] + rest
        } else {
            rest
        }
    }
}

/// One pivot keeps the view well formed, and from a complete view it
/// succeeds and keeps it complete.
pub proof fn lemma_after_pivot_wf(v: TreeViewV, addr: Seq<char>)
    requires
        v.wf(),
        v.current_id < u32::MAX,
    ensures
        v.after_pivot(addr).wf(),
        v.after_pivot(addr).current_id == v.current_id + 1,
        v.complete() ==> v.has_capacity() && v.after_pivot(addr).complete(),
{
    lemma_first_free_at(v.slots, 0);
    if v.complete() {
        assert(v.slots[v.slots.len() - 1].fanout < MAX_FANOUT);
    }
}

/// Fanout stays bounded over any sequence of pivots from a well-formed
/// view: no slot ever exceeds `MAX_FANOUT` children.
pub proof fn lemma_fanout_bounded(v: TreeViewV, addrs: Seq<Seq<char>>)
    requires
        v.wf(),
        v.current_id + addrs.len() <= u32::MAX,
    ensures
        run_pivots(v, addrs).wf(),
        forall|i: int|
            0 <= i < run_pivots(v, addrs).slots.len() ==> (#[trigger] run_pivots(
                v,
                addrs,
            ).slots[i]).fanout <= MAX_FANOUT,
    decreases addrs.len(),
{
    if addrs.len() > 0 {
        lemma_after_pivot_wf(v, addrs[0]);
        lemma_fanout_bounded(v.after_pivot(addrs[0]), addrs.drop_first());
    }
}

/// From a complete view, every pivot of a sequence succeeds and the ids
/// assigned continue the minted ids one by one.
pub proof fn lemma_assigned_ids_from_complete(v: TreeViewV, addrs: Seq<Seq<char>>)
    requires
        v.wf(),
        v.complete(),
        v.current_id + addrs.len() <= u32::MAX,
    ensures
        assigned_ids(v, addrs) =~= Seq::new(addrs.len(), |k: int| (v.current_id + 1 + k) as u32),
    decreases addrs.len(),
{
    if addrs.len() > 0 {
        lemma_after_pivot_wf(v, addrs[0]);
        lemma_assigned_ids_from_complete(v.after_pivot(addrs[0]), addrs.drop_first());
    }
}

/// Id uniqueness: across any sequence of pivots on a freshly seeded root,
/// the assigned ids are exactly the consecutive integers from 2 up, each
/// appearing once.
pub proof fn lemma_pivot_ids_consecutive(root_addr: Seq<char>, addrs: Seq<Seq<char>>)
    requires
        1 + addrs.len() <= u32::MAX,
    ensures
        assigned_ids(TreeViewV::init(root_addr), addrs) =~= Seq::new(
            addrs.len(),
            |k: int| (k + 2) as u32,
        ),
{
    let v = TreeViewV::init(root_addr);
    assert(v.wf());
    assert(v.complete());
    lemma_assigned_ids_from_complete(v, addrs);
}

impl TreeView {
    /// The directory the root starts from: one slot for itself.
    pub fn new(root_addr: String) -> (v: TreeView)
        ensures
            v@ =~= TreeViewV::init(root_addr@),
            v@.wf(),
            v@.complete(),
    {
        let mut slots: Vec<Slot> = Vec::new();
        slots.push(Slot { id: 1, addr: root_addr, fanout: 0 });
        let v = TreeView { current_id: 1, slots };
        assert(v@.slots =~= seq![SlotV { id: 1, addr: v.slots@[0].addr@, fanout: 0 }]);
        v
    }

    /// One pivot: mint the next id, hand the caller the address of the first
    /// slot with free fanout, and record the caller's own slot. With every
    /// slot full, the minted id is burned and the pivot is refused.
    pub fn pivot(&mut self, new_addr: String) -> (r: Result<(TbonId, String), TbonError>)
        requires
            old(self)@.wf(),
            old(self).current_id < u32::MAX,
        ensures
            final(self)@ =~= old(self)@.after_pivot(new_addr@),
            final(self)@.wf(),
            r is Ok <==> old(self)@.has_capacity(),
            r matches Ok(ok) ==> ok.0 == old(self)@.current_id + 1 && ok.1@ == old(
                self,
            )@.slots[old(self)@.first_free()].addr,
            r matches Err(e) ==> e is CapacityExhausted,
            old(self)@.complete() ==> r is Ok && final(self)@.complete(),
    {
        let ghost pre = self@;
        let n = self.slots.len();
        let mut j: usize = 0;
        while j < n && self.slots[j].fanout >= MAX_FANOUT
            invariant
                j <= n,
                n == self.slots.len(),
                *self == *old(self),
                pre == self@,
                forall|i: int| 0 <= i < j ==> pre.slots[i].fanout >= MAX_FANOUT,
            decreases n - j,
        {
            j = j + 1;
        }
        proof {
            assert(first_free_at(pre.slots, 0) == j as int) by {
                lemma_first_free_at(pre.slots, 0);
                if j < n {
                    assert(pre.slots[j as int].fanout < MAX_FANOUT);
                }
            }
        }
        self.current_id = self.current_id + 1;
        let new_id = self.current_id;
        if j < n {
            let target_addr = self.slots[j].addr.clone();
            let kept_addr = self.slots[j].addr.clone();
            let sid = self.slots[j].id;
            let sf = self.slots[j].fanout;
            self.slots.set(j, Slot { id: sid, addr: kept_addr, fanout: sf + 1 });
            self.slots.push(Slot { id: new_id, addr: new_addr, fanout: 0 });
            assert(self@ =~= pre.after_pivot(self.slots@.last().addr@));
            Ok((new_id, target_addr))
        } else {
            assert(self@ =~= pre.after_pivot(new_addr@));
            Err(TbonError::CapacityExhausted)
        }
    }
}

} // verus!
