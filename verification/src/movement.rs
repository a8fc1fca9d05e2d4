//! Colonists stepping along their paths. The host moves positions (which are `f32`);
//! the decisions on cells are made here: which waypoint a colonist heads for, and
//! which colonists that arrive this tick may take their cell.
use vstd::prelude::*;

use crate::components::{Entity, Path};
use crate::systems::{is_cell_free, occupant, ColonistState, Colony};

verus! {

/// The waypoint that colonist `c` heads for, while its path is not used up.
pub open spec fn next_waypoint(c: ColonistState) -> (i32, i32) {
    c.path.waypoints@[c.path.index as int]
}

impl Colony {
    /// For each colonist, the waypoint it steps towards this tick: the next one on its
    /// path, unless the occupancy map records another colonist there.
    pub fn movement_targets(&self) -> (r: Vec<Option<(i32, i32)>>)
        ensures
            r@.len() == self.colonists@.len(),
            forall|i: int| 0 <= i < self.colonists@.len() ==> #[trigger] r@[i] == {
                let c = self.colonists@[i];
                if !c.path.done() && (occupant(self.colonists@, next_waypoint(c)) is None
                    || occupant(self.colonists@, next_waypoint(c)) == Some(c.entity)) {
                    Some(next_waypoint(c))
                } else {
                    None::<(i32, i32)>
                }
            },
    {
        let occ = self.colonist_occupancy_map();
        let mut r: Vec<Option<(i32, i32)>> = Vec::new();
        let mut i: usize = 0;
        while i < self.colonists.len()
            invariant
                0 <= i <= self.colonists@.len(),
                r@.len() == i,
                occ.wf(),
                forall|c: (i32, i32)| #[trigger] occ.at(c) == occupant(self.colonists@, c),
                forall|k: int| 0 <= k < i ==> #[trigger] r@[k] == {
                    let c = self.colonists@[k];
                    if !c.path.done() && (occupant(self.colonists@, next_waypoint(c)) is None
                        || occupant(self.colonists@, next_waypoint(c)) == Some(c.entity)) {
                        Some(next_waypoint(c))
                    } else {
                        None::<(i32, i32)>
                    }
                },
            decreases self.colonists@.len() - i,
        {
            let c = &self.colonists[i];
            if c.path.index < c.path.waypoints.len() {
                let t = c.path.waypoints[c.path.index];
                let free = is_cell_free(&occ, t, c.entity);
                if free {
                    r.push(Some(t));
                } else {
                    r.push(None);
                }
            } else {
                r.push(None);
            }
            i += 1;
        }
        r
    }
}

// ---------------------------------------------------------------------------
// Arrivals, in order of entity number
// ---------------------------------------------------------------------------

/// The entity number of colonist `idx`.
pub open spec fn key_of(cols: Seq<ColonistState>, idx: usize) -> u32 {
    cols[idx as int].entity.0
}

/// `s` with `x` placed after every entry whose entity number is at most that of `x`
/// and before the others (`s` being sorted).
pub open spec fn insert_sorted(cols: Seq<ColonistState>, s: Seq<usize>, x: usize) -> Seq<usize>
    decreases s.len(),
{
    if s.len() == 0 {
        seq![x]
    } else if key_of(cols, s.last()) <= key_of(cols, x) {
        s.push(x)
    } else {
        insert_sorted(cols, s.drop_last(), x).push(s.last())
    }
}

/// `snaps[0..n]` sorted by entity number; equal numbers keep their order.
pub open spec fn sorted_by_entity(cols: Seq<ColonistState>, snaps: Seq<usize>, n: int) -> Seq<usize>
    decreases n,
{
    if n <= 0 {
        Seq::empty()
    } else {
        insert_sorted(cols, sorted_by_entity(cols, snaps, n - 1), snaps[n - 1])
    }
}

proof fn lemma_insert_len(cols: Seq<ColonistState>, s: Seq<usize>, x: usize)
    ensures
        insert_sorted(cols, s, x).len() == s.len() + 1,
    decreases s.len(),
{
    if s.len() > 0 && key_of(cols, s.last()) > key_of(cols, x) {
        lemma_insert_len(cols, s.drop_last(), x);
    }
}

proof fn lemma_sorted_len(cols: Seq<ColonistState>, snaps: Seq<usize>, n: int)
    requires
        0 <= n,
    ensures
        sorted_by_entity(cols, snaps, n).len() == n,
    decreases n,
{
    if n > 0 {
        lemma_sorted_len(cols, snaps, n - 1);
        lemma_insert_len(cols, sorted_by_entity(cols, snaps, n - 1), snaps[n - 1]);
    }
}

proof fn lemma_insert_at(cols: Seq<ColonistState>, s: Seq<usize>, x: usize, pos: int)
    requires
        0 <= pos <= s.len(),
        forall|j: int| pos <= j < s.len() ==> key_of(cols, #[trigger] s[j]) > key_of(cols, x),
        pos == 0 || key_of(cols, s[pos - 1]) <= key_of(cols, x),
    ensures
        insert_sorted(cols, s, x) == s.insert(pos, x),
    decreases s.len(),
{
    if s.len() == 0 {
        assert(s.insert(pos, x) =~= seq![x]);
    } else if pos == s.len() {
        assert(s.insert(pos, x) =~= s.push(x));
    } else {
        assert(key_of(cols, s[s.len() - 1]) > key_of(cols, x));
        let t = s.drop_last();
        lemma_insert_at(cols, t, x, pos);
        assert(s.insert(pos, x) =~= t.insert(pos, x).push(s.last()));
    }
}

/// The positions `snaps`, sorted by the entity numbers of the colonists (stably).
pub fn sort_by_entity(cols: &Vec<ColonistState>, snaps: &Vec<usize>) -> (r: Vec<usize>)
    requires
        forall|k: int| 0 <= k < snaps@.len() ==> #[trigger] snaps@[k] < cols@.len(),
    ensures
        r@ == sorted_by_entity(cols@, snaps@, snaps@.len() as int),
        forall|k: int| 0 <= k < r@.len() ==> #[trigger] r@[k] < cols@.len(),
{
    let mut r: Vec<usize> = Vec::new();
    let mut k: usize = 0;
    while k < snaps.len()
        invariant
            0 <= k <= snaps@.len(),
            forall|j: int| 0 <= j < snaps@.len() ==> #[trigger] snaps@[j] < cols@.len(),
            r@ == sorted_by_entity(cols@, snaps@, k as int),
            forall|j: int| 0 <= j < r@.len() ==> #[trigger] r@[j] < cols@.len(),
        decreases snaps@.len() - k,
    {
        let x = snaps[k];
        let kx = cols[x].entity.0;
        let mut pos: usize = r.len();
        while pos > 0 && cols[r[pos - 1]].entity.0 > kx
            invariant
                0 <= pos <= r@.len(),
                x < cols@.len(),
                kx == key_of(cols@, x),
                forall|j: int| 0 <= j < r@.len() ==> #[trigger] r@[j] < cols@.len(),
                forall|j: int| pos <= j < r@.len() ==> key_of(cols@, #[trigger] r@[j]) > key_of(cols@, x),
            decreases pos,
        {
            pos -= 1;
        }
        proof {
            lemma_insert_at(cols@, r@, x, pos as int);
        }
        let ghost r0 = r@;
        r.insert(pos, x);
        proof {
            assert forall|j: int| 0 <= j < r@.len() implies #[trigger] r@[j] < cols@.len() by {
                if j < pos {
                    assert(r@[j] == r0[j]);
                } else if j > pos {
                    assert(r@[j] == r0[j - 1]);
                }
            }
        }
        k += 1;
    }
    r
}

/// The occupancy map after colonist `e` moved to `t`.
pub open spec fn occ_moved(occ: spec_fn((i32, i32)) -> Option<Entity>, e: Entity, t: (i32, i32)) -> spec_fn((i32, i32)) -> Option<Entity> {
    |x: (i32, i32)|
        if x == t {
            Some(e)
        } else if occ(x) == Some(e) {
            None
        } else {
            occ(x)
        }
}

/// Colonist `c` snapped onto its next waypoint.
pub open spec fn snapped_colonist(c: ColonistState) -> ColonistState {
    ColonistState { cell: next_waypoint(c), path: Path { index: (c.path.index + 1) as usize, ..c.path }, ..c }
}

/// The arrival of colonist `idx`: if its path is not used up and its waypoint is free
/// for it in the map, it takes the cell and moves on to the next waypoint.
pub open spec fn snap_step(
    st: (spec_fn((i32, i32)) -> Option<Entity>, Seq<ColonistState>, Seq<bool>),
    idx: usize,
) -> (spec_fn((i32, i32)) -> Option<Entity>, Seq<ColonistState>, Seq<bool>) {
    let occ = st.0;
    let cols = st.1;
    let c = cols[idx as int];
    if c.path.done() {
        st
    } else {
        let t = next_waypoint(c);
        if occ(t) is None || occ(t) == Some(c.entity) {
            (occ_moved(occ, c.entity, t), cols.update(idx as int, snapped_colonist(c)), st.2.update(idx as int, true))
        } else {
            st
        }
    }
}

/// The arrivals `order[0..n]` taken in turn.
pub open spec fn snap_fold(
    st: (spec_fn((i32, i32)) -> Option<Entity>, Seq<ColonistState>, Seq<bool>),
    order: Seq<usize>,
    n: int,
) -> (spec_fn((i32, i32)) -> Option<Entity>, Seq<ColonistState>, Seq<bool>)
    decreases n,
{
    if n <= 0 {
        st
    } else {
        snap_step(snap_fold(st, order, n - 1), order[n - 1])
    }
}

/// The cells given in `moved[0..n]` written over the colonists' cells.
pub open spec fn apply_moves(cols: Seq<ColonistState>, moved: Seq<(usize, (i32, i32))>, n: int) -> Seq<ColonistState>
    decreases n,
{
    if n <= 0 {
        cols
    } else {
        let prev = apply_moves(cols, moved, n - 1);
        let m = moved[n - 1];
        prev.update(m.0 as int, ColonistState { cell: m.1, ..prev[m.0 as int] })
    }
}

/// The state that arrivals start from: the occupancy map of the colonists, nobody
/// arrived yet.
pub open spec fn snap_start(cols: Seq<ColonistState>) -> (spec_fn((i32, i32)) -> Option<Entity>, Seq<ColonistState>, Seq<bool>) {
    (|c: (i32, i32)| occupant(cols, c), cols, Seq::new(cols.len(), |i: int| false))
}

proof fn lemma_fold_len(st: (spec_fn((i32, i32)) -> Option<Entity>, Seq<ColonistState>, Seq<bool>), order: Seq<usize>, n: int)
    requires
        st.1.len() == st.2.len(),
        forall|k: int| 0 <= k < order.len() ==> #[trigger] order[k] < st.1.len(),
        n <= order.len(),
    ensures
        snap_fold(st, order, n).1.len() == st.1.len(),
        snap_fold(st, order, n).2.len() == st.1.len(),
    decreases n,
{
    if n > 0 {
        lemma_fold_len(st, order, n - 1);
    }
}

impl Colony {
    /// One tick of movement on cells. `snaps` are the colonists that reached the
    /// waypoint they headed for (by `movement_targets`) this tick; they are taken in
    /// order of entity number, and each takes its waypoint's cell if the occupancy
    /// map (as left by those before it) has the cell free for it. `moved` gives the new
    /// cells of the colonists that only stepped part of the way. Says which colonists
    /// took their cell.
    pub fn colonist_movement(&mut self, snaps: &Vec<usize>, moved: &Vec<(usize, (i32, i32))>) -> (snapped: Vec<bool>)
        requires
            forall|k: int| 0 <= k < snaps@.len() ==> #[trigger] snaps@[k] < old(self).colonists@.len(),
            forall|k: int| 0 <= k < moved@.len() ==> (#[trigger] moved@[k]).0 < old(self).colonists@.len(),
        ensures
            ({
                let f = snap_fold(
                    snap_start(old(self).colonists@),
                    sorted_by_entity(old(self).colonists@, snaps@, snaps@.len() as int),
                    snaps@.len() as int,
                );
                &&& snapped@ == f.2
                &&& final(self).colonists@ == apply_moves(f.1, moved@, moved@.len() as int)
            }),
            final(self).buildings == old(self).buildings,
            final(self).sites == old(self).sites,
            final(self).decon_sites == old(self).decon_sites,
            final(self).next_entity == old(self).next_entity,
    {
        let ghost cols0 = self.colonists@;
        let mut occ = self.colonist_occupancy_map();
        let order = sort_by_entity(&self.colonists, snaps);
        let ghost st0 = snap_start(cols0);
        let mut snapped: Vec<bool> = Vec::new();
        let mut z: usize = 0;
        while z < self.colonists.len()
            invariant
                0 <= z <= cols0.len(),
                self.colonists@ == cols0,
                snapped@ == Seq::new(z as nat, |i: int| false),
            decreases cols0.len() - z,
        {
            snapped.push(false);
            proof {
                assert(snapped@ =~= Seq::new((z + 1) as nat, |i: int| false));
            }
            z += 1;
        }
        assert(snapped@ =~= st0.2);
        let mut k: usize = 0;
        while k < order.len()
            invariant
                0 <= k <= order@.len(),
                forall|j: int| 0 <= j < order@.len() ==> #[trigger] order@[j] < cols0.len(),
                st0 == snap_start(cols0),
                occ.wf(),
                forall|c: (i32, i32)| #[trigger] occ.at(c) == (snap_fold(st0, order@, k as int).0)(c),
                self.colonists@ == snap_fold(st0, order@, k as int).1,
                snapped@ == snap_fold(st0, order@, k as int).2,
                self.colonists@.len() == cols0.len(),
                self.buildings == old(self).buildings,
                self.sites == old(self).sites,
                self.decon_sites == old(self).decon_sites,
                self.next_entity == old(self).next_entity,
            decreases order@.len() - k,
        {
            let idx = order[k];
            let ghost prev = snap_fold(st0, order@, k as int);
            proof {
                lemma_fold_len(st0, order@, k as int);
            }
            if self.colonists[idx].path.index < self.colonists[idx].path.waypoints.len() {
                let t = self.colonists[idx].path.waypoints[self.colonists[idx].path.index];
                let e = self.colonists[idx].entity;
                let free = is_cell_free(&occ, t, e);
                if free {
                    occ.remove_entity(e);
                    occ.insert(t, e);
                    let ni = self.colonists[idx].path.index + 1;
                    self.colonists[idx].cell = t;
                    self.colonists[idx].path.index = ni;
                    snapped.set(idx, true);
                    proof {
                        let nxt = snap_fold(st0, order@, k + 1);
                        assert(nxt == snap_step(prev, idx));
                        assert forall|c: (i32, i32)| #[trigger] occ.at(c) == (nxt.0)(c) by {
                        }
                        assert(self.colonists@ =~= nxt.1);
                    }
                } else {
                    proof {
                        assert(snap_fold(st0, order@, k + 1) == snap_step(prev, idx));
                    }
                }
            } else {
                proof {
                    assert(snap_fold(st0, order@, k + 1) == snap_step(prev, idx));
                }
            }
            k += 1;
        }
        proof {
            lemma_sorted_len(cols0, snaps@, snaps@.len() as int);
        }
        let ghost after_snaps = self.colonists@;
        let mut m: usize = 0;
        while m < moved.len()
            invariant
                0 <= m <= moved@.len(),
                forall|j: int| 0 <= j < moved@.len() ==> (#[trigger] moved@[j]).0 < cols0.len(),
                self.colonists@.len() == cols0.len(),
                self.colonists@ == apply_moves(after_snaps, moved@, m as int),
                self.buildings == old(self).buildings,
                self.sites == old(self).sites,
                self.decon_sites == old(self).decon_sites,
                self.next_entity == old(self).next_entity,
            decreases moved@.len() - m,
        {
            let (idx, cell) = moved[m];
            self.colonists[idx].cell = cell;
            proof {
                assert(self.colonists@ =~= apply_moves(after_snaps, moved@, m + 1));
            }
            m += 1;
        }
        snapped
    }
}

} // verus!
