use vstd::prelude::*;
use crate::pool::{Pool, Handle, PoolModel};
use crate::saved::{SavedNodeExtension, SavedSpriteType};

verus! {

/// Position of a node, as raw fixed-point bits with 12 fractional bits.
#[derive(Clone, Copy, Debug, PartialEq, Eq)]
pub struct Transform {
    pub x: i32,
    pub y: i32,
}

pub type SpriteType = SavedSpriteType;

pub struct SpriteExtension {
    pub node_handle: Handle<Node>,
    pub graphic_asset: String,
    pub sprite_type: SpriteType,
}

pub struct CameraExtension {
    pub node_handle: Handle<Node>,
    pub active_main: bool,
    pub active_sub: bool,
}

/// A rectangle collider; the size is in raw fixed-point bits with 12
/// fractional bits, and `intersect_list` holds the nodes it touched in the
/// last collision pass.
pub struct RectColliderExtension {
    pub node_handle: Handle<Node>,
    pub width: i32,
    pub height: i32,
    pub intersect_list: Vec<Handle<Node>>,
}

pub enum NodeExtensionHandle {
    Nothing,
    Sprite(Handle<SpriteExtension>),
    Camera(Handle<CameraExtension>),
    RectCollider(Handle<RectColliderExtension>),
}

impl Clone for NodeExtensionHandle {
    fn clone(&self) -> (r: Self)
        ensures
            r == *self,
    {
        match self {
            NodeExtensionHandle::Nothing => NodeExtensionHandle::Nothing,
            NodeExtensionHandle::Sprite(h) => NodeExtensionHandle::Sprite(*h),
            NodeExtensionHandle::Camera(h) => NodeExtensionHandle::Camera(*h),
            NodeExtensionHandle::RectCollider(h) => NodeExtensionHandle::RectCollider(*h),
        }
    }
}

impl Copy for NodeExtensionHandle {

}

/// The script of a node, known by its type id; the script object itself is
/// kept by the code that runs scripts.
#[derive(Clone, Copy, Debug, PartialEq, Eq)]
pub struct NodeScriptData {
    pub type_id: u32,
}

pub struct Node {
    pub child_handle: Option<Handle<Node>>,
    pub parent_handle: Option<Handle<Node>>,
    pub sibling_handle: Option<Handle<Node>>,
    pub name: String,
    pub transform: Transform,
    pub node_extension: NodeExtensionHandle,
    pub script_data: Option<NodeScriptData>,
    pub enabled: bool,
    pub global_transform: Transform,
    pub global_enabled: bool,
}

/// The pools that hold the extensions of the nodes.
pub struct NodeExtensionPools {
    pub sprite_pool: Pool<SpriteExtension>,
    pub camera_pool: Pool<CameraExtension>,
    pub rect_collider_pool: Pool<RectColliderExtension>,
}

impl NodeExtensionPools {
    pub open spec fn wf(&self) -> bool {
        &&& self.sprite_pool@.wf()
        &&& self.camera_pool@.wf()
        &&& self.rect_collider_pool@.wf()
    }

    /// An extension of any kind can be added.
    pub open spec fn can_add(&self) -> bool {
        &&& self.sprite_pool@.can_add()
        &&& self.camera_pool@.can_add()
        &&& self.rect_collider_pool@.can_add()
    }

    /// The extension that a handle refers to exists.
    pub open spec fn holds(&self, h: NodeExtensionHandle) -> bool {
        match h {
            NodeExtensionHandle::Nothing => true,
            NodeExtensionHandle::Sprite(s) => self.sprite_pool@.valid(s@),
            NodeExtensionHandle::Camera(c) => self.camera_pool@.valid(c@),
            NodeExtensionHandle::RectCollider(r) => self.rect_collider_pool@.valid(r@),
        }
    }

    pub fn new() -> (p: Self)
        ensures
            p.wf(),
            p.sprite_pool@.slots.len() == 0,
            p.camera_pool@.slots.len() == 0,
            p.rect_collider_pool@.slots.len() == 0,
            p.sprite_pool@.free.len() == 0,
            p.camera_pool@.free.len() == 0,
            p.rect_collider_pool@.free.len() == 0,
    {
        NodeExtensionPools { sprite_pool: Pool::new(), camera_pool: Pool::new(), rect_collider_pool: Pool::new() }
    }

    /// Adds the extension that a saved extension describes, for the node
    /// `node_handle`, to its pool.
    pub fn add_from_saved(&mut self, node_handle: Handle<Node>, saved_extension: &SavedNodeExtension) -> (r: NodeExtensionHandle)
        requires
            old(self).wf(),
            old(self).can_add(),
        ensures
            final(self).wf(),
            final(self).holds(r),
            match *saved_extension {
                SavedNodeExtension::Nothing => r is Nothing && *final(self) == *old(self),
                SavedNodeExtension::Sprite(s) => r matches NodeExtensionHandle::Sprite(h)
                    && (final(self).sprite_pool@, h@) == old(self).sprite_pool@.add(
                        SpriteExtension { node_handle, graphic_asset: s.graphic_asset, sprite_type: s.sprite_type },
                    )
                    && final(self).camera_pool == old(self).camera_pool
                    && final(self).rect_collider_pool == old(self).rect_collider_pool,
                SavedNodeExtension::Camera(c) => r matches NodeExtensionHandle::Camera(h)
                    && (final(self).camera_pool@, h@) == old(self).camera_pool@.add(
                        CameraExtension { node_handle, active_main: c.active_main, active_sub: c.active_sub },
                    )
                    && final(self).sprite_pool == old(self).sprite_pool
                    && final(self).rect_collider_pool == old(self).rect_collider_pool,
                SavedNodeExtension::RectCollider(c) => r matches NodeExtensionHandle::RectCollider(h)
                    && (final(self).rect_collider_pool@, h@) == old(self).rect_collider_pool@.add(
                        final(self).rect_collider_pool@.lookup(h@)->0,
                    )
                    && final(self).rect_collider_pool@.lookup(h@)->0.node_handle == node_handle
                    && final(self).rect_collider_pool@.lookup(h@)->0.width == c.width
                    && final(self).rect_collider_pool@.lookup(h@)->0.height == c.height
                    && final(self).rect_collider_pool@.lookup(h@)->0.intersect_list@.len() == 0
                    && final(self).sprite_pool == old(self).sprite_pool
                    && final(self).camera_pool == old(self).camera_pool,
            },
    {
        match saved_extension {
            SavedNodeExtension::Nothing => NodeExtensionHandle::Nothing,
            SavedNodeExtension::Sprite(s) => {
                let h = self.sprite_pool.add(SpriteExtension {
                    node_handle,
                    graphic_asset: s.graphic_asset.clone(),
                    sprite_type: s.sprite_type,
                });
                proof {
                    crate::pool::lemma_lookup_after_add(old(self).sprite_pool@, SpriteExtension { node_handle, graphic_asset: s.graphic_asset, sprite_type: s.sprite_type });
                }
                NodeExtensionHandle::Sprite(h)
            },
            SavedNodeExtension::Camera(c) => {
                let ext = CameraExtension { node_handle, active_main: c.active_main, active_sub: c.active_sub };
                let ghost e = ext;
                let h = self.camera_pool.add(ext);
                proof {
                    crate::pool::lemma_lookup_after_add(old(self).camera_pool@, e);
                }
                NodeExtensionHandle::Camera(h)
            },
            SavedNodeExtension::RectCollider(c) => {
                let ext = RectColliderExtension { node_handle, width: c.width, height: c.height, intersect_list: Vec::new() };
                let ghost e = ext;
                let h = self.rect_collider_pool.add(ext);
                proof {
                    crate::pool::lemma_lookup_after_add(old(self).rect_collider_pool@, e);
                }
                NodeExtensionHandle::RectCollider(h)
            },
        }
    }

    /// Removes the extension that a handle refers to from its pool.
    pub fn destroy_extension(&mut self, handle: NodeExtensionHandle)
        requires
            old(self).wf(),
            old(self).holds(handle),
        ensures
            final(self).wf(),
            match handle {
                NodeExtensionHandle::Nothing => *final(self) == *old(self),
                NodeExtensionHandle::Sprite(h) => final(self).sprite_pool@ == old(self).sprite_pool@.remove(h@)
                    && final(self).camera_pool == old(self).camera_pool
                    && final(self).rect_collider_pool == old(self).rect_collider_pool,
                NodeExtensionHandle::Camera(h) => final(self).camera_pool@ == old(self).camera_pool@.remove(h@)
                    && final(self).sprite_pool == old(self).sprite_pool
                    && final(self).rect_collider_pool == old(self).rect_collider_pool,
                NodeExtensionHandle::RectCollider(h) => final(self).rect_collider_pool@ == old(self).rect_collider_pool@.remove(h@)
                    && final(self).sprite_pool == old(self).sprite_pool
                    && final(self).camera_pool == old(self).camera_pool,
            },
    {
        match handle {
            NodeExtensionHandle::Nothing => {},
            NodeExtensionHandle::Sprite(h) => {
                let _ = self.sprite_pool.try_remove(h);
            },
            NodeExtensionHandle::Camera(h) => {
                let _ = self.camera_pool.try_remove(h);
            },
            NodeExtensionHandle::RectCollider(h) => {
                let _ = self.rect_collider_pool.try_remove(h);
            },
        }
    }
}

} // verus!
