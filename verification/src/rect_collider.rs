use vstd::prelude::*;
use crate::pool::{Handle, PoolModel};
use crate::node::{Node, RectColliderExtension};
use crate::hierarchy::{Hierarchy, HierarchyPoolTrait};

verus! {

/// The rectangle a collider covers, from its node's global position:
/// `(min_x, max_x, min_y, max_y)`, as raw fixed-point bits.
pub open spec fn extents(n: Node, c: RectColliderExtension) -> (int, int, int, int) {
    (
        n.global_transform.x as int,
        n.global_transform.x + c.width,
        n.global_transform.y as int,
        n.global_transform.y + c.height,
    )
}

/// Two rectangles overlap; touching edges count.
pub open spec fn overlap(a: (int, int, int, int), b: (int, int, int, int)) -> bool {
    !(a.0 > b.1 || a.1 < b.0 || a.2 > b.3 || a.3 < b.2)
}

/// The collider in slot `i` of `p`, if any.
pub open spec fn collider_at(p: PoolModel<RectColliderExtension>, i: int) -> Option<RectColliderExtension> {
    if 0 <= i < p.slots.len() {
        p.slots[i].1
    } else {
        None
    }
}

/// The collider in slot `i` is there and its node is enabled with all nodes
/// above it.
pub open spec fn active(h: Hierarchy, p: PoolModel<RectColliderExtension>, i: int) -> bool {
    &&& collider_at(p, i) is Some
    &&& h.nodes().valid(collider_at(p, i)->0.node_handle@)
    &&& h.node(collider_at(p, i)->0.node_handle@).global_enabled
}

/// The colliders in slots `i` and `j`, both active, overlap.
pub open spec fn collides(h: Hierarchy, p: PoolModel<RectColliderExtension>, i: int, j: int) -> bool {
    &&& active(h, p, i)
    &&& active(h, p, j)
    &&& overlap(
        extents(h.node(collider_at(p, i)->0.node_handle@), collider_at(p, i)->0),
        extents(h.node(collider_at(p, j)->0.node_handle@), collider_at(p, j)->0),
    )
}

/// The nodes of the colliders in slots below `hi`, other than `k`, that the
/// collider in slot `k` collides with, in slot order.
pub open spec fn hits(h: Hierarchy, p: PoolModel<RectColliderExtension>, k: int, hi: int) -> Seq<(usize, u32)>
    decreases hi,
{
    if hi <= 0 {
        Seq::empty()
    } else {
        hits(h, p, k, hi - 1) + if hi - 1 != k && collides(h, p, k, hi - 1) {
            seq![collider_at(p, hi - 1)->0.node_handle@]
        } else {
            Seq::empty()
        }
    }
}

/// The extents of the active colliders that meet another active one fit in
/// an `i32`.
pub open spec fn extents_fit(h: Hierarchy, p: PoolModel<RectColliderExtension>) -> bool {
    forall|i: int, j: int| #![trigger active(h, p, i), active(h, p, j)]
        i != j && active(h, p, i) && active(h, p, j) ==> {
            let e = extents(h.node(collider_at(p, i)->0.node_handle@), collider_at(p, i)->0);
            &&& i32::MIN <= e.1 <= i32::MAX
            &&& i32::MIN <= e.3 <= i32::MAX
        }
}

/// The collider in slot `i`, where it is active, has extents whose far
/// ends fit in an `i32`.
pub open spec fn fits_at(h: Hierarchy, p: PoolModel<RectColliderExtension>, i: int) -> bool {
    active(h, p, i) ==> {
        let e = extents(h.node(collider_at(p, i)->0.node_handle@), collider_at(p, i)->0);
        &&& i32::MIN <= e.1 <= i32::MAX
        &&& i32::MIN <= e.3 <= i32::MAX
    }
}

/// Whether the extents of the colliders fit as `check_collisions` needs:
/// where two or more colliders are active, those of every active one.
#[verifier::rlimit(40)]
#[verifier::spinoff_prover]
pub fn colliders_fit(hierarchy: &Hierarchy) -> (b: bool)
    requires
        hierarchy.wf(),
    ensures
        b == extents_fit(*hierarchy, hierarchy.node_ext_pools.rect_collider_pool@),
{
    let ghost h = *hierarchy;
    let pool = &hierarchy.node_ext_pools.rect_collider_pool;
    let ghost p = pool@;
    proof {
        lemma_wf_colliders_attached(h);
    }
    let n = pool.vec_len();
    let mut first: Option<usize> = None;
    let mut two = false;
    let mut all_fit = true;
    let mut i: usize = 0;
    while i < n
        invariant
            h == *hierarchy,
            h.wf(),
            colliders_attached(h),
            pool == &hierarchy.node_ext_pools.rect_collider_pool,
            p == pool@,
            n == p.slots.len(),
            0 <= i <= n,
            first matches Some(a) ==> a < i && active(h, p, a as int),
            first is None ==> forall|j: int| 0 <= j < i ==> !#[trigger] active(h, p, j),
            !two ==> forall|j: int| 0 <= j < i && #[trigger] active(h, p, j) ==> first == Some(j as usize),
            two ==> first is Some && exists|j: int| 0 <= j < i && j != first->0 && #[trigger] active(h, p, j),
            all_fit <==> forall|j: int| 0 <= j < i ==> #[trigger] fits_at(h, p, j),
        decreases n - i,
    {
        let ghost was_fit = all_fit;
        if let Some(ch) = occupied(pool, i) {
            let c = pool.borrow(ch);
            proof {
                assert(collider_at(p, i as int) == Some(*c));
            }
            let node = hierarchy.object_pool.borrow(c.node_handle);
            if node.global_enabled {
                proof {
                    assert(active(h, p, i as int));
                }
                let x1 = node.global_transform.x as i64 + c.width as i64;
                let y1 = node.global_transform.y as i64 + c.height as i64;
                let fits = i32::MIN as i64 <= x1 && x1 <= i32::MAX as i64 && i32::MIN as i64 <= y1 && y1 <= i32::MAX as i64;
                if !fits {
                    all_fit = false;
                }
                match first {
                    None => {
                        first = Some(i);
                    },
                    Some(_) => {
                        two = true;
                    },
                }
            } else {
                proof {
                    assert(!active(h, p, i as int));
                }
            }
        } else {
            proof {
                assert(!active(h, p, i as int));
            }
        }
        proof {
            if all_fit {
                assert forall|j: int| 0 <= j < i + 1 implies #[trigger] fits_at(h, p, j) by {
                    if j < i {
                        assert(was_fit);
                    }
                }
            } else if was_fit {
                assert(!fits_at(h, p, i as int));
            }
        }
        i = i + 1;
    }
    proof {
        if two {
            let a = first->0 as int;
            let b = choose|j: int| 0 <= j < n && j != a && #[trigger] active(h, p, j);
            if extents_fit(h, p) {
                assert forall|j: int| 0 <= j < n implies #[trigger] fits_at(h, p, j) by {
                    if active(h, p, j) {
                        if j != a {
                            assert(active(h, p, a) && active(h, p, j));
                        } else {
                            assert(active(h, p, b) && active(h, p, j));
                        }
                    }
                }
            }
            if all_fit {
                assert forall|x: int, y: int| #![trigger active(h, p, x), active(h, p, y)]
                    x != y && active(h, p, x) && active(h, p, y) implies {
                    let e = extents(h.node(collider_at(p, x)->0.node_handle@), collider_at(p, x)->0);
                    &&& i32::MIN <= e.1 <= i32::MAX
                    &&& i32::MIN <= e.3 <= i32::MAX
                } by {
                    assert(collider_at(p, x) is Some);
                    assert(fits_at(h, p, x));
                }
            }
        } else {
            assert forall|x: int, y: int| #![trigger active(h, p, x), active(h, p, y)]
                x != y && active(h, p, x) && active(h, p, y) implies {
                let e = extents(h.node(collider_at(p, x)->0.node_handle@), collider_at(p, x)->0);
                &&& i32::MIN <= e.1 <= i32::MAX
                &&& i32::MIN <= e.3 <= i32::MAX
            } by {
                assert(collider_at(p, x) is Some && collider_at(p, y) is Some);
            }
        }
    }
    !two || all_fit
}

/// Every collider's node is in the pool.
pub open spec fn colliders_attached(h: Hierarchy) -> bool {
    forall|i: int| #[trigger] collider_at(h.node_ext_pools.rect_collider_pool@, i) is Some
        ==> h.nodes().valid(collider_at(h.node_ext_pools.rect_collider_pool@, i)->0.node_handle@)
}

/// In a well-formed hierarchy every collider's node is in the pool.
proof fn lemma_wf_colliders_attached(h: Hierarchy)
    requires
        h.wf(),
    ensures
        colliders_attached(h),
{
    let p = h.node_ext_pools.rect_collider_pool@;
    h.node_ext_pools.rect_collider_pool.lemma_slots_bound();
    assert forall|i: int| #[trigger] collider_at(p, i) is Some implies h.nodes().valid(collider_at(p, i)->0.node_handle@) by {
        let v = (i as usize, p.slots[i].0);
        assert(p.valid(v));
        assert(h.owns_ext(p.lookup(v)->0.node_handle@, (2int, v)));
    }
}

/// Two collider pools hold colliders in the same slots, with the same
/// nodes and sizes.
pub open spec fn same_colliders(a: PoolModel<RectColliderExtension>, b: PoolModel<RectColliderExtension>) -> bool {
    &&& a.free == b.free
    &&& a.slots.len() == b.slots.len()
    &&& forall|i: int| 0 <= i < a.slots.len() ==> {
        &&& (#[trigger] a.slots[i]).0 == b.slots[i].0
        &&& (a.slots[i].1 is Some <==> b.slots[i].1 is Some)
        &&& a.slots[i].1 is Some ==> {
            &&& a.slots[i].1->0.node_handle == b.slots[i].1->0.node_handle
            &&& a.slots[i].1->0.width == b.slots[i].1->0.width
            &&& a.slots[i].1->0.height == b.slots[i].1->0.height
        }
    }
}

/// The rectangle a collider covers.
pub struct RectExtents {
    pub min_x: i32,
    pub max_x: i32,
    pub min_y: i32,
    pub max_y: i32,
}

/// The rectangle that `col` covers, from its node's global position.
fn extents_of_collider(hierarchy: &Hierarchy, col: &RectColliderExtension) -> (r: RectExtents)
    requires
        hierarchy.nodes().valid(col.node_handle@),
        i32::MIN <= extents(hierarchy.node(col.node_handle@), *col).1 <= i32::MAX,
        i32::MIN <= extents(hierarchy.node(col.node_handle@), *col).3 <= i32::MAX,
    ensures
        (r.min_x as int, r.max_x as int, r.min_y as int, r.max_y as int) == extents(hierarchy.node(col.node_handle@), *col),
{
    let node = hierarchy.object_pool.borrow(col.node_handle);
    RectExtents {
        min_x: node.global_transform.x,
        max_x: node.global_transform.x + col.width,
        min_y: node.global_transform.y,
        max_y: node.global_transform.y + col.height,
    }
}

/// Whether the rectangles of two colliders overlap.
fn check_collision(hierarchy: &Hierarchy, col1: &RectColliderExtension, col2: &RectColliderExtension) -> (r: bool)
    requires
        hierarchy.nodes().valid(col1.node_handle@),
        hierarchy.nodes().valid(col2.node_handle@),
        i32::MIN <= extents(hierarchy.node(col1.node_handle@), *col1).1 <= i32::MAX,
        i32::MIN <= extents(hierarchy.node(col1.node_handle@), *col1).3 <= i32::MAX,
        i32::MIN <= extents(hierarchy.node(col2.node_handle@), *col2).1 <= i32::MAX,
        i32::MIN <= extents(hierarchy.node(col2.node_handle@), *col2).3 <= i32::MAX,
    ensures
        r == overlap(extents(hierarchy.node(col1.node_handle@), *col1), extents(hierarchy.node(col2.node_handle@), *col2)),
{
    let r1 = extents_of_collider(hierarchy, col1);
    let r2 = extents_of_collider(hierarchy, col2);
    !(r1.min_x > r2.max_x || r1.max_x < r2.min_x || r1.min_y > r2.max_y || r1.max_y < r2.min_y)
}

/// Overlapping does not depend on the order.
proof fn lemma_collides_sym(h: Hierarchy, p: PoolModel<RectColliderExtension>, i: int, j: int)
    ensures
        collides(h, p, i, j) == collides(h, p, j, i),
{
}

/// A collider that is not active hits nothing.
proof fn lemma_hits_inactive(h: Hierarchy, p: PoolModel<RectColliderExtension>, k: int, hi: int)
    requires
        !active(h, p, k),
    ensures
        hits(h, p, k, hi) == Seq::<(usize, u32)>::empty(),
    decreases hi,
{
    if hi > 0 {
        lemma_hits_inactive(h, p, k, hi - 1);
        assert(hits(h, p, k, hi) =~= Seq::<(usize, u32)>::empty());
    }
}

/// A collider that is not active is hit by nothing.
proof fn lemma_hits_skip(h: Hierarchy, p: PoolModel<RectColliderExtension>, k: int, i: int)
    requires
        !active(h, p, i) || i == k,
        i >= 0,
    ensures
        hits(h, p, k, i + 1) == hits(h, p, k, i),
{
    assert(hits(h, p, k, i + 1) =~= hits(h, p, k, i));
}

/// The handle of the item in slot `index` of a pool, if the slot holds one.
fn occupied<T>(pool: &crate::pool::Pool<T>, index: usize) -> (r: Option<Handle<T>>)
    ensures
        r is Some <==> index < pool@.slots.len() && pool@.slots[index as int].1 is Some,
        r is Some ==> r->0@ == (index, pool@.slots[index as int].0),
{
    if index < pool.vec_len() {
        let h = pool.handle_from_index(index);
        if pool.try_borrow(h).is_some() {
            Some(h)
        } else {
            None
        }
    } else {
        None
    }
}

/// Fills the intersect list of every collider with the nodes of the
/// colliders it overlaps, both active, in slot order.
#[verifier::rlimit(100)]
pub fn check_collisions(hierarchy: &mut Hierarchy)
    requires
        old(hierarchy).wf(),
        extents_fit(*old(hierarchy), old(hierarchy).node_ext_pools.rect_collider_pool@),
    ensures
        final(hierarchy).wf(),
        final(hierarchy).root == old(hierarchy).root,
        final(hierarchy).object_pool == old(hierarchy).object_pool,
        final(hierarchy).node_ext_pools.sprite_pool == old(hierarchy).node_ext_pools.sprite_pool,
        final(hierarchy).node_ext_pools.camera_pool == old(hierarchy).node_ext_pools.camera_pool,
        final(hierarchy).to_start_stack == old(hierarchy).to_start_stack,
        final(hierarchy).to_destroy_stack == old(hierarchy).to_destroy_stack,
        final(hierarchy).game_data == old(hierarchy).game_data,
        final(hierarchy).live == old(hierarchy).live,
        same_colliders(old(hierarchy).node_ext_pools.rect_collider_pool@, final(hierarchy).node_ext_pools.rect_collider_pool@),
        forall|k: int| #[trigger] collider_at(final(hierarchy).node_ext_pools.rect_collider_pool@, k) is Some
            ==> crate::hierarchy::handle_views(collider_at(final(hierarchy).node_ext_pools.rect_collider_pool@, k)->0.intersect_list@)
                == hits(*old(hierarchy), old(hierarchy).node_ext_pools.rect_collider_pool@, k,
                    old(hierarchy).node_ext_pools.rect_collider_pool@.slots.len() as int),
{
    let ghost h0 = *hierarchy;
    let ghost pc = hierarchy.node_ext_pools.rect_collider_pool@;
    proof {
        lemma_wf_colliders_attached(h0);
    }
    let n = hierarchy.node_ext_pools.rect_collider_pool.vec_len();
    let mut i: usize = 0;
    while i < n
        invariant
            n == pc.slots.len(),
            0 <= i <= n,
            h0 == *old(hierarchy),
            pc == old(hierarchy).node_ext_pools.rect_collider_pool@,
            hierarchy.root == h0.root,
            hierarchy.object_pool == h0.object_pool,
            hierarchy.node_ext_pools.sprite_pool == h0.node_ext_pools.sprite_pool,
            hierarchy.node_ext_pools.camera_pool == h0.node_ext_pools.camera_pool,
            hierarchy.to_start_stack == h0.to_start_stack,
            hierarchy.to_destroy_stack == h0.to_destroy_stack,
            hierarchy.game_data == h0.game_data,
            hierarchy.live == h0.live,
            pc.wf(),
            hierarchy.node_ext_pools.rect_collider_pool@.wf(),
            same_colliders(pc, hierarchy.node_ext_pools.rect_collider_pool@),
            forall|k: int| 0 <= k < i && #[trigger] collider_at(hierarchy.node_ext_pools.rect_collider_pool@, k) is Some
                ==> collider_at(hierarchy.node_ext_pools.rect_collider_pool@, k)->0.intersect_list@.len() == 0,
            forall|k: int| i <= k < n ==> #[trigger] hierarchy.node_ext_pools.rect_collider_pool@.slots[k] == pc.slots[k],
        decreases n - i,
    {
        let ghost before = hierarchy.node_ext_pools.rect_collider_pool@;
        if let Some(h) = occupied(&hierarchy.node_ext_pools.rect_collider_pool, i) {
            proof {
                crate::pool::lemma_valid_not_free(before, h@);
                crate::pool::lemma_set_wf(before, h@.0);
            }
            let col = hierarchy.node_ext_pools.rect_collider_pool.borrow_mut(h);
            col.intersect_list.clear();
            proof {
                let after = hierarchy.node_ext_pools.rect_collider_pool@;
                assert(after.slots[i as int].1 == Some(*col));
                assert forall|k: int| 0 <= k < i + 1 && #[trigger] collider_at(after, k) is Some
                    implies collider_at(after, k)->0.intersect_list@.len() == 0 by {
                    if k < i {
                        assert(after.slots[k] == before.slots[k]);
                        assert(collider_at(before, k) is Some);
                    } else {
                        assert(collider_at(after, k) == Some(*col));
                    }
                }
                assert forall|k: int| 0 <= k < after.slots.len() implies {
                    &&& (#[trigger] pc.slots[k]).0 == after.slots[k].0
                    &&& (pc.slots[k].1 is Some <==> after.slots[k].1 is Some)
                    &&& pc.slots[k].1 is Some ==> {
                        &&& pc.slots[k].1->0.node_handle == after.slots[k].1->0.node_handle
                        &&& pc.slots[k].1->0.width == after.slots[k].1->0.width
                        &&& pc.slots[k].1->0.height == after.slots[k].1->0.height
                    }
                } by {
                    if k != i {
                        assert(after.slots[k] == before.slots[k]);
                    }
                }
            }
        }
        i = i + 1;
    }
    let ghost p1 = hierarchy.node_ext_pools.rect_collider_pool@;
    proof {
        assert forall|k: int| #[trigger] collider_at(p1, k) is Some implies
            crate::hierarchy::handle_views(collider_at(p1, k)->0.intersect_list@) == hits(h0, pc, k, 0) by {
            assert(crate::hierarchy::handle_views(collider_at(p1, k)->0.intersect_list@) =~= Seq::<(usize, u32)>::empty());
        }
    }
    let mut i: usize = 0;
    while i < n
        invariant
            n == pc.slots.len(),
            0 <= i <= n,
            h0 == *old(hierarchy),
            h0.wf(),
            colliders_attached(h0),
            extents_fit(h0, pc),
            pc == old(hierarchy).node_ext_pools.rect_collider_pool@,
            hierarchy.root == h0.root,
            hierarchy.object_pool == h0.object_pool,
            hierarchy.node_ext_pools.sprite_pool == h0.node_ext_pools.sprite_pool,
            hierarchy.node_ext_pools.camera_pool == h0.node_ext_pools.camera_pool,
            hierarchy.to_start_stack == h0.to_start_stack,
            hierarchy.to_destroy_stack == h0.to_destroy_stack,
            hierarchy.game_data == h0.game_data,
            hierarchy.live == h0.live,
            pc.wf(),
            hierarchy.node_ext_pools.rect_collider_pool@.wf(),
            same_colliders(pc, hierarchy.node_ext_pools.rect_collider_pool@),
            forall|k: int| #[trigger] collider_at(hierarchy.node_ext_pools.rect_collider_pool@, k) is Some
                ==> crate::hierarchy::handle_views(collider_at(hierarchy.node_ext_pools.rect_collider_pool@, k)->0.intersect_list@)
                    == hits(h0, pc, k, if k < i { n as int } else { i as int }),
        decreases n - i,
    {
        let ghost before = hierarchy.node_ext_pools.rect_collider_pool@;
        if let Some(handle) = occupied(&hierarchy.node_ext_pools.rect_collider_pool, i) {
            proof {
                assert(pc.slots[i as int].1 is Some);
            }
            let (col_t, mut col) = hierarchy.node_ext_pools.rect_collider_pool.take(handle);
            let ghost at = hierarchy.node_ext_pools.rect_collider_pool@;
            proof {
                assert forall|k: int| 0 <= k < n && k != i implies {
                    &&& (#[trigger] pc.slots[k]).0 == at.slots[k].0
                    &&& (pc.slots[k].1 is Some <==> at.slots[k].1 is Some)
                    &&& pc.slots[k].1 is Some ==> {
                        &&& pc.slots[k].1->0.node_handle == at.slots[k].1->0.node_handle
                        &&& pc.slots[k].1->0.width == at.slots[k].1->0.width
                        &&& pc.slots[k].1->0.height == at.slots[k].1->0.height
                        &&& crate::hierarchy::handle_views(at.slots[k].1->0.intersect_list@)
                            == hits(h0, pc, k, if k < i { n as int } else if k < i + 1 { i + 1 } else { i as int })
                    }
                } by {
                    assert(at.slots[k] == before.slots[k]);
                    if pc.slots[k].1 is Some {
                        assert(collider_at(before, k) is Some);
                    }
                }
                assert(collider_at(before, i as int) == Some(col));
                assert(collider_at(before, i as int) is Some);
                assert(collider_at(pc, i as int) is Some);
                assert(h0.nodes().valid(collider_at(pc, i as int)->0.node_handle@));
            }
            if hierarchy.object_pool.borrow(col.node_handle).global_enabled {
                let mut j: usize = i + 1;
                while j < n
                    invariant
                        n == pc.slots.len(),
                        i < n,
                        i + 1 <= j <= n,
                        h0 == *old(hierarchy),
                        h0.wf(),
                        colliders_attached(h0),
                        extents_fit(h0, pc),
                        pc == old(hierarchy).node_ext_pools.rect_collider_pool@,
                        hierarchy.root == h0.root,
                        hierarchy.object_pool == h0.object_pool,
                        hierarchy.node_ext_pools.sprite_pool == h0.node_ext_pools.sprite_pool,
                        hierarchy.node_ext_pools.camera_pool == h0.node_ext_pools.camera_pool,
                        hierarchy.to_start_stack == h0.to_start_stack,
                        hierarchy.to_destroy_stack == h0.to_destroy_stack,
                        hierarchy.game_data == h0.game_data,
                        hierarchy.live == h0.live,
                        pc.wf(),
                        hierarchy.node_ext_pools.rect_collider_pool@.wf(),
                        hierarchy.node_ext_pools.rect_collider_pool@.free == pc.free,
                        hierarchy.node_ext_pools.rect_collider_pool@.slots.len() == n,
                        hierarchy.node_ext_pools.rect_collider_pool@.slots[i as int] == (pc.slots[i as int].0, None::<RectColliderExtension>),
                        col_t@ == i,
                        active(h0, pc, i as int),
                        col.node_handle == collider_at(pc, i as int)->0.node_handle,
                        col.width == collider_at(pc, i as int)->0.width,
                        col.height == collider_at(pc, i as int)->0.height,
                        crate::hierarchy::handle_views(col.intersect_list@) == hits(h0, pc, i as int, j as int),
                        forall|k: int| 0 <= k < n && k != i ==> {
                            &&& (#[trigger] pc.slots[k]).0 == hierarchy.node_ext_pools.rect_collider_pool@.slots[k].0
                            &&& (pc.slots[k].1 is Some <==> hierarchy.node_ext_pools.rect_collider_pool@.slots[k].1 is Some)
                            &&& pc.slots[k].1 is Some ==> {
                                &&& pc.slots[k].1->0.node_handle == hierarchy.node_ext_pools.rect_collider_pool@.slots[k].1->0.node_handle
                                &&& pc.slots[k].1->0.width == hierarchy.node_ext_pools.rect_collider_pool@.slots[k].1->0.width
                                &&& pc.slots[k].1->0.height == hierarchy.node_ext_pools.rect_collider_pool@.slots[k].1->0.height
                                &&& crate::hierarchy::handle_views(hierarchy.node_ext_pools.rect_collider_pool@.slots[k].1->0.intersect_list@)
                                    == hits(h0, pc, k, if k < i { n as int } else if k < j { i + 1 } else { i as int })
                            }
                        },
                    decreases n - j,
                {
                    let ghost b2 = hierarchy.node_ext_pools.rect_collider_pool@;
                    if let Some(handle_other) = occupied(&hierarchy.node_ext_pools.rect_collider_pool, j) {
                        proof {
                            assert(pc.slots[j as int].1 is Some);
                            assert(collider_at(pc, j as int) is Some);
                            assert(h0.nodes().valid(collider_at(pc, j as int)->0.node_handle@));
                        }
                        let (col_other_t, mut col_other) = hierarchy.node_ext_pools.rect_collider_pool.take(handle_other);
                        let ghost hit = collides(h0, pc, i as int, j as int);
                        if hierarchy.object_pool.borrow(col_other.node_handle).global_enabled {
                            proof {
                                assert(active(h0, pc, j as int));
                                assert(col_other.node_handle == collider_at(pc, j as int)->0.node_handle);
                            }
                            if check_collision(hierarchy, &col, &col_other) {
                                col.intersect_list.push(col_other.node_handle);
                                col_other.intersect_list.push(col.node_handle);
                            }
                        }
                        proof {
                            lemma_collides_sym(h0, pc, i as int, j as int);
                            assert(crate::hierarchy::handle_views(col.intersect_list@) =~= hits(h0, pc, i as int, j + 1));
                            assert(crate::hierarchy::handle_views(col_other.intersect_list@) =~= hits(h0, pc, j as int, i + 1));
                            crate::pool::lemma_valid_not_free(b2, handle_other@);
                        }
                        let _ = hierarchy.node_ext_pools.rect_collider_pool.put_back(col_other_t, col_other);
                        proof {
                            let a2 = hierarchy.node_ext_pools.rect_collider_pool@;
                            assert(a2.slots == b2.slots.update(j as int, (b2.slots[j as int].0, Some(col_other))));
                        }
                    } else {
                        proof {
                            assert(!active(h0, pc, j as int));
                            assert(hits(h0, pc, i as int, j + 1) =~= hits(h0, pc, i as int, j as int));
                        }
                    }
                    j = j + 1;
                }
            } else {
                proof {
                    assert(!active(h0, pc, i as int));
                    lemma_hits_inactive(h0, pc, i as int, n as int);
                    lemma_hits_inactive(h0, pc, i as int, i as int);
                    assert forall|k: int| 0 <= k < n && k != i implies hits(h0, pc, k, i + 1) == hits(h0, pc, k, i as int) by {
                        lemma_hits_skip(h0, pc, k, i as int);
                    }
                }
            }
            proof {
                assert(!before.free.contains(i)) by {
                    crate::pool::lemma_valid_not_free(before, handle@);
                }
            }
            let ghost b3 = hierarchy.node_ext_pools.rect_collider_pool@;
            proof {
                assert(crate::hierarchy::handle_views(col.intersect_list@) == hits(h0, pc, i as int, n as int));
                assert forall|k: int| 0 <= k < n && k != i && #[trigger] b3.slots[k].1 is Some
                    implies crate::hierarchy::handle_views(b3.slots[k].1->0.intersect_list@)
                        == hits(h0, pc, k, if k < i { n as int } else { i + 1 }) by {
                    assert(pc.slots[k].0 == b3.slots[k].0);
                }
            }
            let _ = hierarchy.node_ext_pools.rect_collider_pool.put_back(col_t, col);
            proof {
                let a3 = hierarchy.node_ext_pools.rect_collider_pool@;
                assert(a3.slots == b3.slots.update(i as int, (b3.slots[i as int].0, Some(col))));
                assert forall|k: int| #[trigger] collider_at(a3, k) is Some
                    implies crate::hierarchy::handle_views(collider_at(a3, k)->0.intersect_list@)
                        == hits(h0, pc, k, if k < i + 1 { n as int } else { i + 1 }) by {
                    if k != i {
                        assert(a3.slots[k] == b3.slots[k]);
                        assert(b3.slots[k].1 is Some);
                    }
                }
                assert forall|k: int| 0 <= k < a3.slots.len() implies {
                    &&& (#[trigger] pc.slots[k]).0 == a3.slots[k].0
                    &&& (pc.slots[k].1 is Some <==> a3.slots[k].1 is Some)
                    &&& pc.slots[k].1 is Some ==> {
                        &&& pc.slots[k].1->0.node_handle == a3.slots[k].1->0.node_handle
                        &&& pc.slots[k].1->0.width == a3.slots[k].1->0.width
                        &&& pc.slots[k].1->0.height == a3.slots[k].1->0.height
                    }
                } by {
                    if k != i {
                        assert(a3.slots[k] == b3.slots[k]);
                    }
                }
            }
        } else {
            proof {
                assert(!active(h0, pc, i as int));
                assert forall|k: int| #[trigger] collider_at(before, k) is Some
                    implies crate::hierarchy::handle_views(collider_at(before, k)->0.intersect_list@)
                        == hits(h0, pc, k, if k < i + 1 { n as int } else { i + 1 }) by {
                    lemma_hits_skip(h0, pc, k, i as int);
                    if k == i {
                        assert(pc.slots[k].0 == before.slots[k].0);
                    }
                }
            }
        }
        i = i + 1;
    }
    proof {
        lemma_colliders_keep_wf(h0, *hierarchy);
    }
}

/// A hierarchy whose colliders changed only in their intersect lists is
/// still well formed.
proof fn lemma_colliders_keep_wf(h0: Hierarchy, h1: Hierarchy)
    requires
        h0.wf(),
        h1.root == h0.root,
        h1.object_pool == h0.object_pool,
        h1.node_ext_pools.sprite_pool == h0.node_ext_pools.sprite_pool,
        h1.node_ext_pools.camera_pool == h0.node_ext_pools.camera_pool,
        h1.live == h0.live,
        h1.node_ext_pools.rect_collider_pool@.wf(),
        same_colliders(h0.node_ext_pools.rect_collider_pool@, h1.node_ext_pools.rect_collider_pool@),
    ensures
        h1.wf(),
{
    let a = h0.node_ext_pools.rect_collider_pool@;
    let b = h1.node_ext_pools.rect_collider_pool@;
    assert forall|v: (usize, u32)| #[trigger] b.valid(v) == a.valid(v) by {
        if v.0 < a.slots.len() {
            assert(a.slots[v.0 as int].0 == b.slots[v.0 as int].0);
        }
    }
    assert forall|g: (usize, u32)| #[trigger] h1.nodes().valid(g) implies h1.node_ext_pools.holds(h1.node(g).node_extension) by {
        assert(h0.node_ext_pools.holds(h0.node(g).node_extension));
        match h0.node(g).node_extension {
            crate::node::NodeExtensionHandle::RectCollider(e) => {
                assert(b.valid(e@) == a.valid(e@));
            },
            _ => {},
        }
    }
}


/// Overlapping is mutual.
proof fn lemma_collides_symmetric(h: Hierarchy, p: PoolModel<RectColliderExtension>, i: int, j: int)
    ensures
        collides(h, p, i, j) == collides(h, p, j, i),
{
}

/// The list of `k` holds the node of `j` exactly when `k` collides with
/// the collider in slot `j`, another one below `hi`, given that different
/// colliders belong to different nodes.
proof fn lemma_hits_contains(h: Hierarchy, p: PoolModel<RectColliderExtension>, k: int, hi: int, j: int)
    requires
        0 <= j,
        collider_at(p, j) is Some,
        forall|a: int, b: int| #[trigger] collider_at(p, a) is Some && #[trigger] collider_at(p, b) is Some && a != b
            ==> collider_at(p, a)->0.node_handle@ != collider_at(p, b)->0.node_handle@,
    ensures
        hits(h, p, k, hi).contains(collider_at(p, j)->0.node_handle@) <==> (j < hi && j != k && collides(h, p, k, j)),
    decreases hi,
{
    let x = collider_at(p, j)->0.node_handle@;
    if hi > 0 {
        lemma_hits_contains(h, p, k, hi - 1, j);
        let prev = hits(h, p, k, hi - 1);
        let last: Seq<(usize, u32)> = if hi - 1 != k && collides(h, p, k, hi - 1) {
            seq![collider_at(p, hi - 1)->0.node_handle@]
        } else {
            Seq::empty()
        };
        assert(hits(h, p, k, hi) == prev + last);
        vstd::seq_lib::lemma_seq_concat_contains_all_elements(prev, last, x);
        if last.len() == 1 {
            assert(last[0] == collider_at(p, hi - 1)->0.node_handle@);
            if last.contains(x) {
                let i = choose|i: int| 0 <= i < last.len() && last[i] == x;
                assert(i == 0);
            }
            if j == hi - 1 {
                assert(last[0] == x);
            }
        }
    }
}

/// Collisions are recorded on both sides: when the list of the collider in
/// slot `k` holds the node of the collider in slot `j`, the list of `j`
/// holds the node of `k`.
pub proof fn lemma_hits_mutual(h: Hierarchy, k: int, j: int)
    requires
        h.wf(),
        collider_at(h.node_ext_pools.rect_collider_pool@, k) is Some,
        collider_at(h.node_ext_pools.rect_collider_pool@, j) is Some,
        hits(h, h.node_ext_pools.rect_collider_pool@, k, h.node_ext_pools.rect_collider_pool@.slots.len() as int)
            .contains(collider_at(h.node_ext_pools.rect_collider_pool@, j)->0.node_handle@),
    ensures
        hits(h, h.node_ext_pools.rect_collider_pool@, j, h.node_ext_pools.rect_collider_pool@.slots.len() as int)
            .contains(collider_at(h.node_ext_pools.rect_collider_pool@, k)->0.node_handle@),
{
    let p = h.node_ext_pools.rect_collider_pool@;
    let n = p.slots.len() as int;
    h.node_ext_pools.rect_collider_pool.lemma_slots_bound();
    assert forall|a: int, b: int| #[trigger] collider_at(p, a) is Some && #[trigger] collider_at(p, b) is Some && a != b
        implies collider_at(p, a)->0.node_handle@ != collider_at(p, b)->0.node_handle@ by {
        let va = (a as usize, p.slots[a].0);
        let vb = (b as usize, p.slots[b].0);
        assert(p.valid(va) && p.valid(vb));
        assert(h.owns_ext(p.lookup(va)->0.node_handle@, (2int, va)));
        assert(h.owns_ext(p.lookup(vb)->0.node_handle@, (2int, vb)));
    }
    lemma_hits_contains(h, p, k, n, j);
    lemma_collides_symmetric(h, p, k, j);
    lemma_hits_contains(h, p, j, n, k);
}

/// After `check_collisions`, the list of the collider in slot `k` holds the
/// node of another collider in slot `j` exactly when both colliders are
/// active and their rectangles meet on both axes. A collider's rectangle
/// spans from its node's global position to that position plus its width
/// and height; two rectangles meet on an axis unless one ends before the
/// other begins (touching edges count). Two colliders apart on either axis
/// do not collide.
pub proof fn lemma_hits_are_overlaps(h: Hierarchy, k: int, j: int)
    requires
        h.wf(),
        k != j,
        collider_at(h.node_ext_pools.rect_collider_pool@, k) is Some,
        collider_at(h.node_ext_pools.rect_collider_pool@, j) is Some,
    ensures
        hits(h, h.node_ext_pools.rect_collider_pool@, k, h.node_ext_pools.rect_collider_pool@.slots.len() as int)
            .contains(collider_at(h.node_ext_pools.rect_collider_pool@, j)->0.node_handle@) <==> ({
            let p = h.node_ext_pools.rect_collider_pool@;
            let ck = collider_at(p, k)->0;
            let cj = collider_at(p, j)->0;
            let nk = h.node(ck.node_handle@);
            let nj = h.node(cj.node_handle@);
            &&& h.nodes().valid(ck.node_handle@) && nk.global_enabled
            &&& h.nodes().valid(cj.node_handle@) && nj.global_enabled
            &&& nk.global_transform.x <= nj.global_transform.x + cj.width
            &&& nj.global_transform.x <= nk.global_transform.x + ck.width
            &&& nk.global_transform.y <= nj.global_transform.y + cj.height
            &&& nj.global_transform.y <= nk.global_transform.y + ck.height
        }),
{
    let p = h.node_ext_pools.rect_collider_pool@;
    let n = p.slots.len() as int;
    h.node_ext_pools.rect_collider_pool.lemma_slots_bound();
    assert forall|a: int, b: int| #[trigger] collider_at(p, a) is Some && #[trigger] collider_at(p, b) is Some && a != b
        implies collider_at(p, a)->0.node_handle@ != collider_at(p, b)->0.node_handle@ by {
        let va = (a as usize, p.slots[a].0);
        let vb = (b as usize, p.slots[b].0);
        assert(p.valid(va) && p.valid(vb));
        assert(h.owns_ext(p.lookup(va)->0.node_handle@, (2int, va)));
        assert(h.owns_ext(p.lookup(vb)->0.node_handle@, (2int, vb)));
    }
    assert(0 <= j < n);
    lemma_hits_contains(h, p, k, n, j);
}

} // verus!
