use vstd::prelude::*;
use crate::pool::{Handle, PoolModel};
use crate::node::CameraExtension;
use crate::hierarchy::{Hierarchy, opt_view};

verus! {

/// The cameras that draw the two screens, if any.
#[derive(Clone, Copy)]
pub struct ActiveCameras {
    pub main: Option<Handle<CameraExtension>>,
    pub sub: Option<Handle<CameraExtension>>,
}

/// Picks the cameras that draw the screens.
pub struct CameraExtensionHandler {}

/// The handle of the camera in the last slot below `hi` that is active for
/// the main screen (`main`) or the sub screen (`!main`).
pub open spec fn last_active(p: PoolModel<CameraExtension>, hi: int, main: bool) -> Option<(usize, u32)>
    decreases hi,
{
    if hi <= 0 {
        None
    } else if p.slots[hi - 1].1 is Some && (if main {
        p.slots[hi - 1].1->0.active_main
    } else {
        p.slots[hi - 1].1->0.active_sub
    }) {
        Some(((hi - 1) as usize, p.slots[hi - 1].0))
    } else {
        last_active(p, hi - 1, main)
    }
}

/// For each screen, the camera picked among the slots below `hi` is the one
/// in the last slot that holds a camera active for that screen, whatever
/// its flag for the other screen; where no slot below `hi` holds such a
/// camera, none is picked.
pub proof fn lemma_last_active_picks_last(p: PoolModel<CameraExtension>, hi: int)
    requires
        0 <= hi <= p.slots.len(),
        p.slots.len() <= usize::MAX,
    ensures
        last_active(p, hi, true) is Some <==> exists|i: int| 0 <= i < hi && #[trigger] p.slots[i].1 is Some && p.slots[i].1->0.active_main,
        last_active(p, hi, false) is Some <==> exists|i: int| 0 <= i < hi && #[trigger] p.slots[i].1 is Some && p.slots[i].1->0.active_sub,
        last_active(p, hi, true) matches Some(h) ==> {
            &&& 0 <= h.0 < hi
            &&& h.1 == p.slots[h.0 as int].0
            &&& p.slots[h.0 as int].1 is Some && p.slots[h.0 as int].1->0.active_main
            &&& forall|i: int| h.0 < i < hi ==> !(#[trigger] p.slots[i].1 is Some && p.slots[i].1->0.active_main)
        },
        last_active(p, hi, false) matches Some(h) ==> {
            &&& 0 <= h.0 < hi
            &&& h.1 == p.slots[h.0 as int].0
            &&& p.slots[h.0 as int].1 is Some && p.slots[h.0 as int].1->0.active_sub
            &&& forall|i: int| h.0 < i < hi ==> !(#[trigger] p.slots[i].1 is Some && p.slots[i].1->0.active_sub)
        },
    decreases hi,
{
    if hi > 0 {
        lemma_last_active_picks_last(p, hi - 1);
    }
}

impl CameraExtensionHandler {
    pub fn new() -> (r: Self) {
        CameraExtensionHandler {}
    }

    /// For each screen, the active camera in the last slot; several active
    /// cameras for one screen leave the last one in charge.
    pub fn get_active_cameras(&self, hierarchy: &Hierarchy) -> (r: ActiveCameras)
        ensures
            opt_view(r.main) == last_active(hierarchy.node_ext_pools.camera_pool@, hierarchy.node_ext_pools.camera_pool@.slots.len() as int, true),
            opt_view(r.sub) == last_active(hierarchy.node_ext_pools.camera_pool@, hierarchy.node_ext_pools.camera_pool@.slots.len() as int, false),
    {
        let pool = &hierarchy.node_ext_pools.camera_pool;
        let mut active_cams = ActiveCameras { main: None, sub: None };
        let n = pool.vec_len();
        let mut i: usize = 0;
        while i < n
            invariant
                n == pool@.slots.len(),
                0 <= i <= n,
                opt_view(active_cams.main) == last_active(pool@, i as int, true),
                opt_view(active_cams.sub) == last_active(pool@, i as int, false),
            decreases n - i,
        {
            let handle = pool.handle_from_index(i);
            if let Some(cam) = pool.try_borrow(handle) {
                if cam.active_main {
                    active_cams.main = Some(handle);
                }
                if cam.active_sub {
                    active_cams.sub = Some(handle);
                }
            }
            i = i + 1;
        }
        active_cams
    }
}

} // verus!
