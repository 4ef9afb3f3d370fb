use vstd::prelude::*;
use crate::editor::{
    Node, NodeExtension, SpriteExtension, SpriteType, AffineSpriteData, CameraExtension,
    RectColliderExtension, Transform, Selected, Hierarchy, ProjectData, links_of, node_links,
    sv_index_mut, deleted_nodes,
};
use crate::saved::SpriteSize;

verus! {

/// The kinds of extension that the inspector offers for a node.
#[derive(Clone, Copy, Debug, PartialEq, Eq, Structural)]
pub enum ExtensionKind {
    Nothing,
    Sprite,
    Camera,
    RectCollider,
}

/// A change that the inspector makes to the selected node.
#[derive(Debug)]
pub enum NodeEdit {
    Rename(String),
    SetEnabled(bool),
    /// The new position, as raw fixed-point bits with 12 fractional bits.
    SetPosition(i32, i32),
    /// A fresh extension of this kind takes the place of the node's.
    SetExtensionKind(ExtensionKind),
    /// The graphic of a sprite, by name.
    SetGraphic(String),
    /// Makes a sprite affine, with no rotation and a scale of one, or
    /// plain.
    SetAffine(bool),
    /// Rotation and scale of an affine sprite, as raw fixed-point bits.
    SetAffineData(i32, i32, i32),
    /// Whether a camera is active for the main and for the sub engine.
    SetCameraActive(bool, bool),
    /// Width and height of a rectangle collider, as raw fixed-point bits.
    SetColliderSize(i32, i32),
    /// The script id as typed; zero stands for no script.
    SetScriptId(u32),
    /// Deletes the node and everything below it; the root stays.
    Delete,
}

/// A change that the inspector makes to the selected graph.
#[derive(Debug)]
pub enum GraphEdit {
    /// Renames the graph's root node.
    Rename(String),
    /// Makes the graph the one the game starts with.
    SetAsMain,
}

/// `e` is the extension that choosing kind `k` gives a node.
pub open spec fn is_fresh_extension(e: NodeExtension, k: ExtensionKind) -> bool {
    match k {
        ExtensionKind::Nothing => e is Nothing,
        ExtensionKind::Sprite => e matches NodeExtension::Sprite(s) && s.graphic_asset@ == Seq::<char>::empty()
            && s.sprite_type == SpriteType::Normal,
        ExtensionKind::Camera => e == NodeExtension::Camera(CameraExtension { active_main: false, active_sub: false }),
        ExtensionKind::RectCollider => e == NodeExtension::RectCollider(RectColliderExtension { width: 0, height: 0 }),
    }
}

/// The node with its extension replaced.
pub open spec fn with_extension(n: Node, e: NodeExtension) -> Node {
    Node { node_extension: e, ..n }
}

/// `n1` is node `n0` after the edit; an edit for another kind of extension
/// than the node has leaves it as it is.
pub open spec fn edit_applied(n0: Node, n1: Node, edit: NodeEdit) -> bool {
    match edit {
        NodeEdit::Rename(s) => n1 == Node { name: s, ..n0 },
        NodeEdit::SetEnabled(b) => n1 == Node { enabled: b, ..n0 },
        NodeEdit::SetPosition(x, y) => n1 == Node { transform: Transform { x, y }, ..n0 },
        NodeEdit::SetExtensionKind(k) => n1 == with_extension(n0, n1.node_extension) && is_fresh_extension(n1.node_extension, k),
        NodeEdit::SetGraphic(g) => n1 == match n0.node_extension {
            NodeExtension::Sprite(s) => with_extension(n0, NodeExtension::Sprite(SpriteExtension { graphic_asset: g, sprite_type: s.sprite_type })),
            _ => n0,
        },
        NodeEdit::SetAffine(on) => n1 == match n0.node_extension {
            NodeExtension::Sprite(s) => with_extension(n0, NodeExtension::Sprite(SpriteExtension {
                graphic_asset: s.graphic_asset,
                sprite_type: if on {
                    SpriteType::Affine(AffineSpriteData { rotation: 0, scale_x: 4096, scale_y: 4096 })
                } else {
                    SpriteType::Normal
                },
            })),
            _ => n0,
        },
        NodeEdit::SetAffineData(r, sx, sy) => n1 == match n0.node_extension {
            NodeExtension::Sprite(s) => match s.sprite_type {
                SpriteType::Affine(_) => with_extension(n0, NodeExtension::Sprite(SpriteExtension {
                    graphic_asset: s.graphic_asset,
                    sprite_type: SpriteType::Affine(AffineSpriteData { rotation: r, scale_x: sx, scale_y: sy }),
                })),
                SpriteType::Normal => n0,
            },
            _ => n0,
        },
        NodeEdit::SetCameraActive(main, sub) => n1 == match n0.node_extension {
            NodeExtension::Camera(_) => with_extension(n0, NodeExtension::Camera(CameraExtension { active_main: main, active_sub: sub })),
            _ => n0,
        },
        NodeEdit::SetColliderSize(w, h) => n1 == match n0.node_extension {
            NodeExtension::RectCollider(_) => with_extension(n0, NodeExtension::RectCollider(RectColliderExtension { width: w, height: h })),
            _ => n0,
        },
        NodeEdit::SetScriptId(id) => n1 == Node { script_type_id: if id == 0 { None } else { Some(id) }, ..n0 },
        NodeEdit::Delete => n1 == n0,
    }
}

/// What each edit does to a node, field by field. No edit touches the
/// node's links. A rename sets the name, a position edit both coordinates,
/// the enabled flag and the script id (zero for none) their fields; the
/// other fields stay. Edits of a kind of extension set that extension's
/// fields (a camera's main and sub flags, a collider's width and height, a
/// sprite's graphic, affinity, rotation and scales) where the node has such
/// an extension, and leave the node as it was where it has not.
pub proof fn lemma_edit_effects(n0: Node, n1: Node, edit: NodeEdit)
    requires
        edit_applied(n0, n1, edit),
    ensures
        n1.child_index == n0.child_index && n1.parent_index == n0.parent_index && n1.sibling_index == n0.sibling_index,
        n1.name == (if edit is Rename { edit->Rename_0 } else { n0.name }),
        n1.enabled == (if edit is SetEnabled { edit->SetEnabled_0 } else { n0.enabled }),
        edit is SetPosition ==> n1.transform.x == edit->SetPosition_0 && n1.transform.y == edit->SetPosition_1,
        !(edit is SetPosition) ==> n1.transform == n0.transform,
        edit is SetScriptId ==> (edit->SetScriptId_0 == 0 ==> n1.script_type_id is None)
            && (edit->SetScriptId_0 != 0 ==> n1.script_type_id == Some(edit->SetScriptId_0)),
        !(edit is SetScriptId) ==> n1.script_type_id == n0.script_type_id,
        edit is Rename || edit is SetEnabled || edit is SetPosition || edit is SetScriptId || edit is Delete
            ==> n1.node_extension == n0.node_extension,
        edit is SetCameraActive && n0.node_extension is Camera ==> n1.node_extension is Camera
            && n1.node_extension->Camera_0.active_main == edit->SetCameraActive_0
            && n1.node_extension->Camera_0.active_sub == edit->SetCameraActive_1,
        edit is SetColliderSize && n0.node_extension is RectCollider ==> n1.node_extension is RectCollider
            && n1.node_extension->RectCollider_0.width == edit->SetColliderSize_0
            && n1.node_extension->RectCollider_0.height == edit->SetColliderSize_1,
        edit is SetGraphic && n0.node_extension is Sprite ==> n1.node_extension is Sprite
            && n1.node_extension->Sprite_0.graphic_asset == edit->SetGraphic_0
            && n1.node_extension->Sprite_0.sprite_type == n0.node_extension->Sprite_0.sprite_type,
        edit is SetAffine && n0.node_extension is Sprite ==> n1.node_extension is Sprite
            && n1.node_extension->Sprite_0.graphic_asset == n0.node_extension->Sprite_0.graphic_asset
            && (edit->SetAffine_0 ==> n1.node_extension->Sprite_0.sprite_type
                == SpriteType::Affine(AffineSpriteData { rotation: 0, scale_x: 4096, scale_y: 4096 }))
            && (!edit->SetAffine_0 ==> n1.node_extension->Sprite_0.sprite_type is Normal),
        edit is SetAffineData && n0.node_extension is Sprite && n0.node_extension->Sprite_0.sprite_type is Affine
            ==> n1.node_extension is Sprite
            && n1.node_extension->Sprite_0.graphic_asset == n0.node_extension->Sprite_0.graphic_asset
            && n1.node_extension->Sprite_0.sprite_type is Affine
            && n1.node_extension->Sprite_0.sprite_type->Affine_0.rotation == edit->SetAffineData_0
            && n1.node_extension->Sprite_0.sprite_type->Affine_0.scale_x == edit->SetAffineData_1
            && n1.node_extension->Sprite_0.sprite_type->Affine_0.scale_y == edit->SetAffineData_2,
        (edit is SetCameraActive && !(n0.node_extension is Camera))
            || (edit is SetColliderSize && !(n0.node_extension is RectCollider))
            || ((edit is SetGraphic || edit is SetAffine) && !(n0.node_extension is Sprite))
            || (edit is SetAffineData && !(n0.node_extension is Sprite && n0.node_extension->Sprite_0.sprite_type is Affine))
            ==> n1 == n0,
        edit is SetExtensionKind && edit->SetExtensionKind_0 is Camera ==> n1.node_extension is Camera
            && !n1.node_extension->Camera_0.active_main && !n1.node_extension->Camera_0.active_sub,
        edit is SetExtensionKind && edit->SetExtensionKind_0 is RectCollider ==> n1.node_extension is RectCollider
            && n1.node_extension->RectCollider_0.width == 0 && n1.node_extension->RectCollider_0.height == 0,
        edit is SetExtensionKind && edit->SetExtensionKind_0 is Sprite ==> n1.node_extension is Sprite
            && n1.node_extension->Sprite_0.graphic_asset@.len() == 0 && n1.node_extension->Sprite_0.sprite_type is Normal,
        edit is SetExtensionKind && edit->SetExtensionKind_0 is Nothing ==> n1.node_extension is Nothing,
{
}

/// The extension that choosing a kind gives a node.
pub fn fresh_extension(k: ExtensionKind) -> (e: NodeExtension)
    ensures
        is_fresh_extension(e, k),
{
    match k {
        ExtensionKind::Nothing => NodeExtension::Nothing,
        ExtensionKind::Sprite => NodeExtension::Sprite(SpriteExtension { graphic_asset: String::new(), sprite_type: SpriteType::Normal }),
        ExtensionKind::Camera => NodeExtension::Camera(CameraExtension { active_main: false, active_sub: false }),
        ExtensionKind::RectCollider => NodeExtension::RectCollider(RectColliderExtension { width: 0, height: 0 }),
    }
}

/// The node after a change other than a deletion.
fn edit_node(node: &mut Node, edit: NodeEdit)
    ensures
        edit_applied(*old(node), *final(node), edit),
{
    match edit {
        NodeEdit::Rename(s) => {
            node.name = s;
        },
        NodeEdit::SetEnabled(b) => {
            node.enabled = b;
        },
        NodeEdit::SetPosition(x, y) => {
            node.transform = Transform { x, y };
        },
        NodeEdit::SetExtensionKind(k) => {
            node.node_extension = fresh_extension(k);
        },
        NodeEdit::SetGraphic(g) => {
            let replaced = match &node.node_extension {
                NodeExtension::Sprite(s) => Some(NodeExtension::Sprite(SpriteExtension { graphic_asset: g, sprite_type: s.sprite_type })),
                _ => None,
            };
            if let Some(e) = replaced {
                node.node_extension = e;
            }
        },
        NodeEdit::SetAffine(on) => {
            let replaced = match &node.node_extension {
                NodeExtension::Sprite(s) => {
                    let t = if on {
                        SpriteType::Affine(AffineSpriteData { rotation: 0, scale_x: 4096, scale_y: 4096 })
                    } else {
                        SpriteType::Normal
                    };
                    Some(NodeExtension::Sprite(SpriteExtension { graphic_asset: s.graphic_asset.clone(), sprite_type: t }))
                },
                _ => None,
            };
            if let Some(e) = replaced {
                node.node_extension = e;
            }
        },
        NodeEdit::SetAffineData(r, sx, sy) => {
            let replaced = match &node.node_extension {
                NodeExtension::Sprite(s) => match s.sprite_type {
                    SpriteType::Affine(_) => Some(NodeExtension::Sprite(SpriteExtension {
                        graphic_asset: s.graphic_asset.clone(),
                        sprite_type: SpriteType::Affine(AffineSpriteData { rotation: r, scale_x: sx, scale_y: sy }),
                    })),
                    SpriteType::Normal => None,
                },
                _ => None,
            };
            if let Some(e) = replaced {
                node.node_extension = e;
            }
        },
        NodeEdit::SetCameraActive(main, sub) => {
            let is_camera = match &node.node_extension {
                NodeExtension::Camera(_) => true,
                _ => false,
            };
            if is_camera {
                node.node_extension = NodeExtension::Camera(CameraExtension { active_main: main, active_sub: sub });
            }
        },
        NodeEdit::SetColliderSize(w, h) => {
            let is_collider = match &node.node_extension {
                NodeExtension::RectCollider(_) => true,
                _ => false,
            };
            if is_collider {
                node.node_extension = NodeExtension::RectCollider(RectColliderExtension { width: w, height: h });
            }
        },
        NodeEdit::SetScriptId(id) => {
            node.script_type_id = if id == 0 { None } else { Some(id) };
        },
        NodeEdit::Delete => {},
    }
}

/// The selected node of the current graph, if a node is selected and there
/// is a current graph.
pub open spec fn selected_node_of(h: Hierarchy, p: ProjectData, sel: Selected) -> Option<usize> {
    if h.current_graph_idx < p.graphs@.len() && sel is Node {
        Some(sel->Node_0)
    } else {
        None
    }
}

impl Hierarchy {
    /// Makes the inspector's change to the selected node of the current
    /// graph. A deletion takes the node and everything below it out, and
    /// deselects, unless the node is the root; any other change leaves the
    /// links of the graph as they are. Nothing happens when no node is
    /// selected or there is no current graph.
    pub fn edit_selected_node(&mut self, project_data: &mut ProjectData, selected: &mut Selected, edit: NodeEdit)
        requires
            old(self).current_graph_idx < old(project_data).graphs@.len() ==> ({
                let g = old(project_data).graphs@[old(self).current_graph_idx as int];
                &&& g.wf()
                &&& *old(selected) matches Selected::Node(i) ==> g.nodes().dom().contains(i)
            }),
        ensures
            *final(self) == *old(self),
            final(project_data).name == old(project_data).name,
            final(project_data).main_graph == old(project_data).main_graph,
            final(project_data).graphs@.len() == old(project_data).graphs@.len(),
            forall|j: int| 0 <= j < old(project_data).graphs@.len() && j != old(self).current_graph_idx ==> #[trigger] final(project_data).graphs@[j] == old(project_data).graphs@[j],
            match selected_node_of(*old(self), *old(project_data), *old(selected)) {
                None => *final(project_data) == *old(project_data) && *final(selected) == *old(selected),
                Some(i) => {
                    let g0 = old(project_data).graphs@[old(self).current_graph_idx as int];
                    let g1 = final(project_data).graphs@[old(self).current_graph_idx as int];
                    &&& g1.wf()
                    &&& g1.next_index() == g0.next_index()
                    &&& if edit is Delete {
                        if i != 0 {
                            g1.nodes() == deleted_nodes(g0.nodes(), i) && *final(selected) == Selected::Nothing
                        } else {
                            g1 == g0 && *final(selected) == *old(selected)
                        }
                    } else {
                        &&& g1.nodes().dom() == g0.nodes().dom()
                        &&& g1.nodes() == g0.nodes().insert(i, g1.nodes()[i])
                        &&& edit_applied(g0.nodes()[i], g1.nodes()[i], edit)
                        &&& *final(selected) == *old(selected)
                    }
                },
            },
    {
        if self.current_graph_idx >= project_data.graphs.len() {
            return;
        }
        let idx = match selected {
            Selected::Node(i) => *i,
            _ => {
                return;
            },
        };
        if let NodeEdit::Delete = edit {
            if idx != 0 {
                self.delete_node(project_data, selected, idx);
            }
            return;
        }
        let graph = &mut project_data.graphs[self.current_graph_idx];
        let ghost n0 = graph.nodes();
        let node = sv_index_mut(&mut graph.0, idx);
        edit_node(node, edit);
        proof {
            let n1 = graph.nodes();
            assert(node_links(n1[idx]) == node_links(n0[idx]));
            assert(links_of(n1) =~= links_of(n0));
            assert(n1.dom() =~= n0.dom());
        }
    }
}

/// The graph that the game starts with is graph `i`.
pub fn is_main_graph(project_data: &ProjectData, i: usize) -> (r: bool)
    ensures
        r == (project_data.main_graph == Some(i as u32)),
{
    match project_data.main_graph {
        Some(m) => m == i as u32,
        None => false,
    }
}

/// Makes the inspector's change to the selected graph: a new name for its
/// root node, or making it the main graph. Nothing happens when no graph
/// is selected.
pub fn edit_selected_graph(project_data: &mut ProjectData, selected: &Selected, edit: GraphEdit)
    requires
        *selected matches Selected::Graph(i) ==> i < old(project_data).graphs@.len() && old(project_data).graphs@[i as int].wf(),
    ensures
        final(project_data).name == old(project_data).name,
        final(project_data).graphs@.len() == old(project_data).graphs@.len(),
        match *selected {
            Selected::Graph(i) => {
                &&& forall|j: int| 0 <= j < old(project_data).graphs@.len() && j != i ==> #[trigger] final(project_data).graphs@[j] == old(project_data).graphs@[j]
                &&& match edit {
                    GraphEdit::Rename(s) => {
                        let g0 = old(project_data).graphs@[i as int];
                        let g1 = final(project_data).graphs@[i as int];
                        &&& final(project_data).main_graph == old(project_data).main_graph
                        &&& g1.wf()
                        &&& g1.next_index() == g0.next_index()
                        &&& g1.nodes() == g0.nodes().insert(0, Node { name: s, ..g0.nodes()[0] })
                    },
                    GraphEdit::SetAsMain => {
                        &&& final(project_data).graphs@ == old(project_data).graphs@
                        &&& final(project_data).main_graph == Some(i as u32)
                    },
                }
            },
            _ => *final(project_data) == *old(project_data),
        },
{
    let i = match selected {
        Selected::Graph(i) => *i,
        _ => {
            return;
        },
    };
    match edit {
        GraphEdit::Rename(s) => {
            let graph = &mut project_data.graphs[i];
            let ghost n0 = graph.nodes();
            proof {
                let m = links_of(n0);
                let (c, d) = choose|c: spec_fn(usize) -> Seq<usize>, d: spec_fn(usize) -> nat| crate::tree::witness_ok(m, 0, c, d);
                assert(m.dom().contains(0));
            }
            let node = sv_index_mut(&mut graph.0, 0);
            node.name = s;
            proof {
                let n1 = graph.nodes();
                assert(links_of(n1) =~= links_of(n0));
                assert(n1.dom() =~= n0.dom());
            }
        },
        GraphEdit::SetAsMain => {
            project_data.main_graph = Some(i as u32);
        },
    }
}

/// The sprite sizes that the file inspector offers, in the order it lists
/// them.
pub fn offered_sprite_sizes() -> (r: Vec<SpriteSize>)
    ensures
        r@ == seq![
            SpriteSize::_8x8, SpriteSize::_16x16, SpriteSize::_32x32, SpriteSize::_64x64,
            SpriteSize::_16x8, SpriteSize::_32x8, SpriteSize::_32x16, SpriteSize::_64x32,
            SpriteSize::_8x16, SpriteSize::_8x32, SpriteSize::_16x32, SpriteSize::_32x64,
        ],
{
    vec![
        SpriteSize::_8x8, SpriteSize::_16x16, SpriteSize::_32x32, SpriteSize::_64x64,
        SpriteSize::_16x8, SpriteSize::_32x8, SpriteSize::_32x16, SpriteSize::_64x32,
        SpriteSize::_8x16, SpriteSize::_8x32, SpriteSize::_16x32, SpriteSize::_32x64,
    ]
}

} // verus!
