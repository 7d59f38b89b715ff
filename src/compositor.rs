//! The pane layout: a tree of containers and views kept in a slot map, the
//! rectangles it assigns, and the focused pane.

use vstd::prelude::*;
use slotmap::DefaultKey;
use slotmap::HopSlotMap;
use slotmap::KeyData;
use crate::views::AppView;
use crate::layout::extent;
use crate::layout::lemma_slice_extent;
use crate::layout::lemma_slice_fits;
use crate::layout::slice;
use crate::layout::slice_rect;
use crate::layout::Layout;
use crate::layout::Rect;

verus! {

/// Identity of a node of the layout tree.
pub type ViewId = u64;

/// What a node of the layout tree holds.
pub enum NodeData {
    /// A pane showing a view.
    View(AppView),
    /// A container: its children in order, and the axis it divides along.
    Container(Vec<ViewId>, Layout),
}

/// A node of the layout tree with its parent and its last computed rectangle.
pub struct Node {
    pub parent: ViewId,
    pub data: NodeData,
    pub area: Rect,
}

impl Node {
    pub open spec fn is_container(self) -> bool {
        self.data is Container
    }

    pub open spec fn children(self) -> Seq<ViewId> {
        match self.data {
            NodeData::Container(ch, _) => ch@,
            NodeData::View(_) => seq![],
        }
    }

    pub open spec fn layout(self) -> Layout {
        match self.data {
            NodeData::Container(_, l) => l,
            NodeData::View(_) => Layout::Vertical,
        }
    }
}

/// The slot map that owns the nodes of a layout tree.
#[verifier::external_body]
pub struct NodeArena {
    map: HopSlotMap<DefaultKey, Node>,
}

/// The nodes an arena holds, each under the integer form of its slot map key.
pub uninterp spec fn arena_nodes(m: NodeArena) -> Map<u64, Node>;

/// The map with no node.
pub open spec fn no_nodes() -> Map<u64, Node> {
    Map::empty()
}

/// Relies on HopSlotMap::with_key: a new slot map holds nothing.
#[verifier::external_body]
fn arena_new() -> (r: NodeArena)
    ensures
        arena_nodes(r) == no_nodes(),
{
    NodeArena { map: HopSlotMap::with_key() }
}

/// Relies on HopSlotMap::len: the number of values stored.
#[verifier::external_body]
fn arena_len(m: &NodeArena) -> (r: usize)
    ensures
        r == arena_nodes(*m).dom().len(),
{
    m.map.len()
}

/// Relies on HopSlotMap::insert and KeyData::as_ffi: the value is stored under
/// a key that no stored value had, and distinct keys give distinct integers.
/// The map panics only when it would hold 2^32 - 1 values.
#[verifier::external_body]
fn arena_insert(m: &mut NodeArena, v: Node) -> (id: u64)
    requires
        arena_nodes(*old(m)).dom().len() + 1 < 0xffff_ffff,
    ensures
        !arena_nodes(*old(m)).contains_key(id),
        arena_nodes(*final(m)) == arena_nodes(*old(m)).insert(id, v),
{
    slotmap::Key::data(&m.map.insert(v)).as_ffi()
}

/// Relies on HopSlotMap's indexing and KeyData::from_ffi: the integer form of
/// a stored key finds that key's value.
#[verifier::external_body]
fn arena_get(m: &NodeArena, id: u64) -> (r: &Node)
    requires
        arena_nodes(*m).contains_key(id),
    ensures
        *r == arena_nodes(*m)[id],
{
    &m.map[DefaultKey::from(KeyData::from_ffi(id))]
}

/// Relies on HopSlotMap's mutable indexing and KeyData::from_ffi: the value
/// under a stored key is swapped for another and handed back.
#[verifier::external_body]
fn arena_replace(m: &mut NodeArena, id: u64, v: Node) -> (r: Node)
    requires
        arena_nodes(*old(m)).contains_key(id),
    ensures
        r == arena_nodes(*old(m))[id],
        arena_nodes(*final(m)) == arena_nodes(*old(m)).insert(id, v),
{
    core::mem::replace(&mut m.map[DefaultKey::from(KeyData::from_ffi(id))], v)
}

/// Relies on HopSlotMap::remove and KeyData::from_ffi: the value under a
/// stored key is taken out of the map and handed back.
#[verifier::external_body]
fn arena_remove(m: &mut NodeArena, id: u64) -> (r: Option<Node>)
    requires
        arena_nodes(*old(m)).contains_key(id),
    ensures
        r == Some(arena_nodes(*old(m))[id]),
        arena_nodes(*final(m)) == arena_nodes(*old(m)).remove(id),
{
    m.map.remove(DefaultKey::from(KeyData::from_ffi(id)))
}

fn placeholder() -> (r: Node) {
    Node {
        parent: 0,
        data: NodeData::Container(Vec::new(), Layout::Vertical),
        area: Rect { x: 0, y: 0, width: 0, height: 0 },
    }
}

/// The integers of a worklist's entries.
pub open spec fn ids(s: Seq<(ViewId, Rect)>) -> Seq<ViewId> {
    s.map_values(|e: (ViewId, Rect)| e.0)
}

/// Every child of container `c` is in the map, has `c` as parent, is not the
/// root, and appears once.
pub open spec fn children_ok(n: Map<ViewId, Node>, root: ViewId, c: ViewId) -> bool {
    let ch = n[c].children();
    &&& forall|i: int|
        0 <= i < ch.len() ==> n.contains_key(#[trigger] ch[i]) && n[ch[i]].parent == c && ch[i]
            != root
    &&& ch.no_duplicates()
}

/// The children of container `c` hold, in order, the slices of its rectangle.
pub open spec fn tiled(n: Map<ViewId, Node>, c: ViewId) -> bool {
    let ch = n[c].children();
    forall|i: int|
        0 <= i < ch.len() ==> n[#[trigger] ch[i]].area == slice(
            n[c].area,
            n[c].layout(),
            ch.len() as int,
            i,
        )
}

/// The links of node `id`: its parent is a container that lists it and has a
/// lower rank in `d`, so that following parents ends at the root; a
/// container's children link back to it, and a container other than the root
/// has at least two children.
pub open spec fn node_ok(n: Map<ViewId, Node>, d: Map<ViewId, nat>, root: ViewId, id: ViewId) -> bool {
    let p = n[id].parent;
    &&& n.contains_key(p)
    &&& n[p].is_container()
    &&& d.contains_key(id)
    &&& id != root ==> n[p].children().contains(id) && d[id] > d[p]
    &&& n[id].is_container() ==> children_ok(n, root, id)
    &&& n[id].is_container() && id != root ==> n[id].children().len() >= 2
}

/// The tree's structure, whatever its rectangles.
pub open spec fn shape_ok(n: Map<ViewId, Node>, d: Map<ViewId, nat>, root: ViewId, focuse: ViewId) -> bool {
    &&& n.dom().finite()
    &&& n.contains_key(root)
    &&& n[root].is_container()
    &&& n[root].parent == root
    &&& d.contains_key(root)
    &&& d[root] == 0
    &&& n.contains_key(focuse)
    &&& focuse == root ==> n[root].children().len() == 0
    &&& focuse != root ==> !n[focuse].is_container()
    &&& forall|id: ViewId| n.contains_key(id) ==> #[trigger] node_ok(n, d, root, id)
}

/// Every rectangle lies in the cell space and every container is tiled by its
/// children.
pub open spec fn areas_ok(n: Map<ViewId, Node>) -> bool {
    forall|id: ViewId|
        n.contains_key(id) ==> (#[trigger] n[id]).area.fits() && (n[id].is_container() ==> tiled(
            n,
            id,
        ))
}

/// Only rectangles differ between the two maps.
pub open spec fn same_shape(a: Map<ViewId, Node>, b: Map<ViewId, Node>) -> bool {
    &&& a.dom() == b.dom()
    &&& forall|id: ViewId|
        a.contains_key(id) ==> (#[trigger] b[id]).parent == a[id].parent && b[id].data == a[id].data
}


/// The structure does not depend on the rectangles.
proof fn lemma_same_shape_ok(
    a: Map<ViewId, Node>,
    b: Map<ViewId, Node>,
    d: Map<ViewId, nat>,
    root: ViewId,
    focuse: ViewId,
)
    requires
        shape_ok(a, d, root, focuse),
        same_shape(a, b),
    ensures
        shape_ok(b, d, root, focuse),
{
    assert(b.dom().finite());
    assert forall|id: ViewId| b.contains_key(id) implies #[trigger] node_ok(b, d, root, id) by {
        assert(node_ok(a, d, root, id));
        let p = a[id].parent;
        assert(b[id].parent == p);
        assert(b[p].data == a[p].data);
        assert(b[id].data == a[id].data);
        if b[id].is_container() {
            let ch = a[id].children();
            assert(b[id].children() == ch);
            assert forall|i: int| 0 <= i < ch.len() implies b.contains_key(#[trigger] ch[i])
                && b[ch[i]].parent == id && ch[i] != root by {
                assert(b[ch[i]].parent == a[ch[i]].parent);
            }
        }
    }
    assert(b[root].data == a[root].data);
    assert(b[focuse].data == a[focuse].data);
}

/// The layout tree: containers and views in a slot map, the root container and
/// the focused node.
pub struct Tree {
    nodes: NodeArena,
    root: ViewId,
    focuse: ViewId,
    depth: Ghost<Map<ViewId, nat>>,
}

impl Tree {
    pub closed spec fn nodes(&self) -> Map<ViewId, Node> {
        arena_nodes(self.nodes)
    }

    pub closed spec fn root(&self) -> ViewId {
        self.root
    }

    pub closed spec fn focuse(&self) -> ViewId {
        self.focuse
    }

    pub closed spec fn depths(&self) -> Map<ViewId, nat> {
        self.depth@
    }

    pub open spec fn shape_wf(&self) -> bool {
        shape_ok(self.nodes(), self.depths(), self.root(), self.focuse())
    }

    pub open spec fn wf(&self) -> bool {
        self.shape_wf() && areas_ok(self.nodes())
    }

    /// Every node is visited once a traversal from the root is closed under
    /// going down to children.
    proof fn lemma_closed_covers(&self, visited: Set<ViewId>, id: ViewId)
        requires
            self.shape_wf(),
            visited.contains(self.root()),
            forall|c: ViewId, i: int|
                visited.contains(c) && self.nodes().contains_key(c) && self.nodes()[c].is_container()
                    && 0 <= i < self.nodes()[c].children().len() ==> visited.contains(
                    #[trigger] self.nodes()[c].children()[i],
                ),
            self.nodes().contains_key(id),
        ensures
            visited.contains(id),
        decreases self.depths()[id],
    {
        let n = self.nodes();
        assert(node_ok(n, self.depths(), self.root(), id));
        if id != self.root() {
            let p = n[id].parent;
            assert(node_ok(n, self.depths(), self.root(), p));
            self.lemma_closed_covers(visited, p);
            let i = n[p].children().index_of(id);
            assert(n[p].children()[i] == id);
        }
    }

    /// Recomputes every rectangle from the root, which gets `area`, down to
    /// the leaves with an explicit worklist.
    fn recalculate(&mut self, area: Rect)
        requires
            old(self).shape_wf(),
            area.fits(),
        ensures
            final(self).wf(),
            same_shape(old(self).nodes(), final(self).nodes()),
            final(self).root() == old(self).root(),
            final(self).focuse() == old(self).focuse(),
            final(self).depths() == old(self).depths(),
            final(self).nodes()[final(self).root()].area == area,
    {
        let ghost n0 = self.nodes();
        let ghost root = self.root;
        let ghost d = self.depths();
        let ghost mut visited: Set<ViewId> = Set::empty();
        let mut stack: Vec<(ViewId, Rect)> = Vec::new();
        stack.push((self.root, area));
        proof {
            lemma_walk_start(n0, d, root, self.focuse(), area, stack@);
        }
        while stack.len() > 0
            invariant
                shape_ok(self.nodes(), d, root, self.focuse()),
                same_shape(n0, self.nodes()),
                self.root == root,
                self.focuse() == old(self).focuse(),
                self.depths() == d,
                d == old(self).depths(),
                n0 == old(self).nodes(),
                area.fits(),
                walk_inv(self.nodes(), root, area, visited, stack@),
            decreases self.nodes().dom().len() - visited.len(),
        {
            let ghost before = stack@;
            let ghost n = self.nodes();
            let (id, target) = stack.pop().unwrap();
            proof {
                assert(before[before.len() - 1] == (id, target));
                assert(stack@ =~= before.drop_last());
                lemma_walk_popped(n, root, area, visited, before);
            }
            let base: Ghost<Seq<(ViewId, Rect)>> = Ghost(stack@);
            let node = arena_replace(&mut self.nodes, id, placeholder());
            let Node { parent, data, area: _ } = node;
            let mut pushed: usize = 0;
            match &data {
                NodeData::Container(ch, layout) => {
                    let count = ch.len();
                    while pushed < count
                        invariant
                            pushed <= count,
                            count == ch.len(),
                            stack@ =~= base@ + entries(ch@, target, *layout).take(pushed as int),
                            target.fits(),
                        decreases count - pushed,
                    {
                        let r = slice_rect(target, *layout, count, pushed);
                        stack.push((ch[pushed], r));
                        pushed = pushed + 1;
                        proof {
                            assert(stack@ =~= base@ + entries(ch@, target, *layout).take(pushed as int));
                        }
                    }
                    proof {
                        assert(entries(ch@, target, *layout).take(pushed as int) =~= entries(ch@, target, *layout));
                    }
                },
                NodeData::View(_) => {
                    proof {
                        assert(stack@ =~= base@ + entries(n[id].children(), target, n[id].layout()));
                    }
                },
            }
            arena_replace(&mut self.nodes, id, Node { parent, data, area: target });
            proof {
                let n1 = self.nodes();
                assert(n1 =~= n.insert(id, Node { parent: n[id].parent, data: n[id].data, area: target }));
                lemma_walk_step(n, d, root, self.focuse(), area, visited, before);
                assert(same_shape(n0, n1));
                visited = visited.insert(id);
            }
        }
        proof {
            lemma_walk_done(self, visited, area);
        }
    }
}

impl Tree {
    /// A tree of one empty `Vertical` root container spanning `area` (cut
    /// short where it runs past the cell space); the root has the focus.
    pub fn new(area: Rect) -> (r: Tree)
        ensures
            r.wf(),
            r.focuse() == r.root(),
            r.nodes().dom() == set![r.root()],
            r.nodes()[r.root()].children().len() == 0,
            r.nodes()[r.root()].layout() == Layout::Vertical,
            r.nodes()[r.root()].area == area.clamp(),
    {
        let mut nodes = arena_new();
        let area = Rect::new(area.x, area.y, area.width, area.height);
        let root = arena_insert(
            &mut nodes,
            Node { parent: 0, data: NodeData::Container(Vec::new(), Layout::Vertical), area },
        );
        arena_replace(
            &mut nodes,
            root,
            Node { parent: root, data: NodeData::Container(Vec::new(), Layout::Vertical), area },
        );
        let ghost depths: Map<ViewId, nat> = map![root => 0nat];
        let tree = Tree { nodes, root, focuse: root, depth: Ghost(depths) };
        proof {
            let n = tree.nodes();
            assert(n.dom() =~= set![root]);
            assert(n.dom().finite());
            assert forall|id: ViewId| n.contains_key(id) implies #[trigger] node_ok(n, tree.depths(), root, id) by {
                assert(id == root);
                assert(n[root].children() =~= Seq::<ViewId>::empty());
            }
            assert(n[root].children() =~= Seq::<ViewId>::empty());
        }
        tree
    }

    /// The node that has the focus.
    pub fn focused(&self) -> (r: ViewId)
        ensures
            r == self.focuse(),
    {
        self.focuse
    }

    /// The root container.
    pub fn root_id(&self) -> (r: ViewId)
        ensures
            r == self.root(),
    {
        self.root
    }

    /// The node under `id`.
    pub fn node(&self, id: ViewId) -> (r: &Node)
        requires
            self.nodes().contains_key(id),
        ensures
            *r == self.nodes()[id],
    {
        arena_get(&self.nodes, id)
    }

    /// The number of nodes.
    pub fn len(&self) -> (r: usize)
        ensures
            r == self.nodes().dom().len(),
    {
        arena_len(&self.nodes)
    }

    /// Splits the focused pane: the new `view` comes right after it in its
    /// container when that container already divides along `layout`;
    /// otherwise a new container along `layout` takes the focused pane's place
    /// and holds it and the new view. The new view gets the focus and every
    /// rectangle is recomputed. Nothing changes, and `false` comes back, when
    /// the slot map is too full to take two more nodes.
    pub fn split(&mut self, view: AppView, layout: Layout) -> (ok: bool)
        requires
            old(self).wf(),
        ensures
            final(self).wf(),
            final(self).root() == old(self).root(),
            ok == (old(self).nodes().dom().len() < 0xffff_fff0),
            !ok ==> final(self).nodes() == old(self).nodes() && final(self).focuse() == old(self).focuse(),
            ok ==> final(self).nodes()[final(self).focuse()].data == NodeData::View(view),
            ok ==> split_placed(
                old(self).nodes(),
                final(self).nodes(),
                old(self).root(),
                old(self).focuse(),
                final(self).focuse(),
                layout,
            ),
            ok ==> final(self).nodes()[final(self).root()].area == old(self).nodes()[old(self).root()].area,
            ok ==> views_kept(old(self).nodes(), final(self).nodes(), final(self).focuse()),
            ok ==> split_frame(old(self).nodes(), final(self).nodes(), old(self).focuse()),
    {
        let len = arena_len(&self.nodes);
        if len >= 0xffff_fff0 {
            return false;
        }
        let ghost n = self.nodes();
        let ghost d = self.depths();
        let focus = self.focuse;
        let root = self.root;
        let zero = Rect { x: 0, y: 0, width: 0, height: 0 };
        let root_area = arena_get(&self.nodes, root).area;
        proof {
            assert(node_ok(n, d, root, root));
            assert(node_ok(n, d, root, focus));
        }
        if focus == root {
            let rnode = arena_replace(&mut self.nodes, root, placeholder());
            let f = arena_insert(&mut self.nodes, Node { parent: root, data: NodeData::View(view), area: zero });
            let Node { parent: rp, data: _, area: rarea } = rnode;
            let mut ch: Vec<ViewId> = Vec::new();
            ch.push(f);
            arena_replace(&mut self.nodes, root, Node { parent: rp, data: NodeData::Container(ch, layout), area: rarea });
            self.focuse = f;
            proof {
                let n1 = self.nodes();
                assert(n1.dom() =~= n.dom().insert(f));
                assert(n1[root].children() =~= seq![f]);
                lemma_split_root(n, n1, d, root, f);
                self.depth = Ghost(d.insert(f, 1));
                assert(views_kept(n, n1, f));
                assert(split_frame(n, n1, focus));
            }
        } else {
            let p = arena_get(&self.nodes, focus).parent;
            let pnode = arena_replace(&mut self.nodes, p, placeholder());
            let Node { parent: pp, data: pdata, area: parea } = pnode;
            match pdata {
                NodeData::Container(mut ch, play) => {
                    proof {
                        assert(node_ok(n, d, root, p));
                        assert(children_ok(n, root, p));
                        assert(n[p].children().contains(focus));
                        assert(ch@ == n[p].children());
                    }
                    let pos = index_of(&ch, focus);
                    if play == layout {
                        let f = arena_insert(&mut self.nodes, Node { parent: p, data: NodeData::View(view), area: zero });
                        ch.insert(pos + 1, f);
                        arena_replace(&mut self.nodes, p, Node { parent: pp, data: NodeData::Container(ch, play), area: parea });
                        self.focuse = f;
                        proof {
                            let n1 = self.nodes();
                            assert(n1.dom() =~= n.dom().insert(f));
                            lemma_split_same(n, n1, d, root, focus, f, pos as int);
                            self.depth = Ghost(d.insert(f, d[p] + 1));
                            assert(views_kept(n, n1, f));
                            assert(split_frame(n, n1, focus));
                        }
                    } else {
                        let sp = arena_insert(&mut self.nodes, Node { parent: p, data: NodeData::Container(Vec::new(), layout), area: zero });
                        let f = arena_insert(&mut self.nodes, Node { parent: sp, data: NodeData::View(view), area: zero });
                        let mut pair: Vec<ViewId> = Vec::new();
                        pair.push(focus);
                        pair.push(f);
                        arena_replace(&mut self.nodes, sp, Node { parent: p, data: NodeData::Container(pair, layout), area: zero });
                        let fnode = arena_replace(&mut self.nodes, focus, placeholder());
                        let Node { parent: _, data: fdata, area: farea } = fnode;
                        arena_replace(&mut self.nodes, focus, Node { parent: sp, data: fdata, area: farea });
                        ch.set(pos, sp);
                        arena_replace(&mut self.nodes, p, Node { parent: pp, data: NodeData::Container(ch, play), area: parea });
                        self.focuse = f;
                        proof {
                            let n1 = self.nodes();
                            assert(n1.dom() =~= n.dom().insert(sp).insert(f));
                            assert(n1[sp].children() =~= seq![focus, f]);
                            lemma_split_nested(n, n1, d, root, focus, sp, f, pos as int);
                            assert(views_kept(n, n1, f));
                            assert(split_frame(n, n1, focus));
                            self.depth = Ghost(
                                d.insert(sp, d[focus]).insert(focus, d[focus] + 1).insert(f, d[focus] + 1),
                            );
                        }
                    }
                },
                NodeData::View(v) => {
                    proof {
                        assert(false);
                    }
                    arena_replace(&mut self.nodes, p, Node { parent: pp, data: NodeData::View(v), area: parea });
                    return false;
                },
            }
        }
        let ghost n1 = self.nodes();
        self.recalculate(root_area);
        proof {
            let n2 = self.nodes();
            assert forall|id: ViewId| n2.contains_key(id) implies (n.contains_key(id) && #[trigger] n2[id].data == n[id].data)
                || n2[id].is_container() || id == self.focuse() by {
                assert(n2[id].data == n1[id].data);
            }
            assert forall|id: ViewId| #[trigger] n.contains_key(id) && id != n[focus].parent implies n2.contains_key(id)
                && n2[id].data == n[id].data && (id != focus ==> n2[id].parent == n[id].parent) by {
                assert(n1.contains_key(id));
                assert(n2[id].data == n1[id].data && n2[id].parent == n1[id].parent);
            }
        }
        true
    }
}

impl Tree {
    /// Gives the root the rectangle at the origin of the given size and
    /// recomputes every rectangle below it.
    pub fn resize(&mut self, size: (u16, u16))
        requires
            old(self).wf(),
        ensures
            final(self).wf(),
            same_shape(old(self).nodes(), final(self).nodes()),
            final(self).root() == old(self).root(),
            final(self).focuse() == old(self).focuse(),
            final(self).nodes()[final(self).root()].area == (Rect { x: 0, y: 0, width: size.0, height: size.1 }),
    {
        self.recalculate(Rect { x: 0, y: 0, width: size.0, height: size.1 });
    }

    /// The view of the focused pane; `None` while no pane was split off the
    /// root.
    pub fn focused_view(&self) -> (r: Option<&AppView>)
        requires
            self.wf(),
        ensures
            self.focuse() == self.root() ==> r.is_none(),
            self.focuse() != self.root() ==> r.is_some() && NodeData::View(*r.unwrap()) == self.nodes()[self.focuse()].data,
    {
        if self.focuse == self.root {
            return None;
        }
        proof {
            assert(node_ok(self.nodes(), self.depths(), self.root(), self.focuse()));
        }
        match &arena_get(&self.nodes, self.focuse).data {
            NodeData::View(v) => Some(v),
            NodeData::Container(_, _) => None,
        }
    }

    /// Puts `view` in the focused pane and hands back the view it held;
    /// `None`, and no change, while the root has the focus.
    pub fn swap_focused_view(&mut self, view: AppView) -> (r: Option<AppView>)
        requires
            old(self).wf(),
        ensures
            final(self).wf(),
            final(self).root() == old(self).root(),
            final(self).focuse() == old(self).focuse(),
            old(self).focuse() == old(self).root() ==> r.is_none() && final(self).nodes() == old(self).nodes(),
            old(self).focuse() != old(self).root() ==> r.is_some() && NodeData::View(r.unwrap())
                == old(self).nodes()[old(self).focuse()].data && final(self).nodes()
                == old(self).nodes().insert(
                old(self).focuse(),
                Node {
                    parent: old(self).nodes()[old(self).focuse()].parent,
                    data: NodeData::View(view),
                    area: old(self).nodes()[old(self).focuse()].area,
                },
            ),
    {
        if self.focuse == self.root {
            return None;
        }
        let ghost n = self.nodes();
        let ghost d = self.depths();
        proof {
            assert(node_ok(n, d, self.root(), self.focuse()));
        }
        let node = arena_replace(&mut self.nodes, self.focuse, placeholder());
        let Node { parent, data, area } = node;
        arena_replace(&mut self.nodes, self.focuse, Node { parent, data: NodeData::View(view), area });
        proof {
            let n1 = self.nodes();
            let f = self.focuse();
            assert(n1 =~= n.insert(f, Node { parent, data: NodeData::View(view), area }));
            assert forall|id: ViewId| n1.contains_key(id) implies #[trigger] node_ok(n1, d, self.root(), id) by {
                assert(node_ok(n, d, self.root(), id));
                let p = n[id].parent;
                assert(node_ok(n, d, self.root(), p));
                if n[id].is_container() {
                    assert(children_ok(n, self.root(), id));
                    let ch = n[id].children();
                    assert forall|i: int| 0 <= i < ch.len() implies n1.contains_key(#[trigger] ch[i])
                        && n1[ch[i]].parent == id && ch[i] != self.root() by {}
                }
            }
            assert forall|id: ViewId| n1.contains_key(id) implies (#[trigger] n1[id]).area.fits() && (
            n1[id].is_container() ==> tiled(n1, id)) by {
                assert(n[id].area.fits());
                if n1[id].is_container() {
                    assert(tiled(n, id));
                    assert(node_ok(n, d, self.root(), id));
                    assert(children_ok(n, self.root(), id));
                    let ch = n[id].children();
                    assert forall|i: int| 0 <= i < ch.len() implies n1[#[trigger] ch[i]].area == slice(
                        n1[id].area, n1[id].layout(), ch.len() as int, i) by {
                        assert(n1[ch[i]].area == n[ch[i]].area);
                    }
                }
            }
        }
        match data {
            NodeData::View(v) => Some(v),
            NodeData::Container(_, _) => None,
        }
    }

    /// Every view pane with its rectangle, in order from the first child to
    /// the last, found by a depth-first walk with an explicit worklist.
    pub fn leaves(&self) -> (r: Vec<(ViewId, Rect)>)
        requires
            self.wf(),
        ensures
            forall|k: int|
                0 <= k < r.len() ==> self.nodes().contains_key(#[trigger] r@[k].0) && !self.nodes()[r@[k].0].is_container()
                    && r@[k].1 == self.nodes()[r@[k].0].area,
            forall|id: ViewId|
                self.nodes().contains_key(id) && !self.nodes()[id].is_container() ==> #[trigger] ids(r@).contains(id),
            ids(r@).no_duplicates(),
    {
        let ghost n = self.nodes();
        let ghost root = self.root();
        let ghost mut visited: Set<ViewId> = Set::empty();
        let mut out: Vec<(ViewId, Rect)> = Vec::new();
        let mut stack: Vec<ViewId> = Vec::new();
        stack.push(self.root);
        proof {
            assert(stack@[0] == root);
        }
        while stack.len() > 0
            invariant
                self.wf(),
                n == self.nodes(),
                root == self.root(),
                visit_inv(n, root, visited, stack@, out@),
            decreases n.dom().len() - visited.len(),
        {
            let ghost before = stack@;
            let id = stack.pop().unwrap();
            proof {
                assert(before[before.len() - 1] == id);
                assert(stack@ =~= before.drop_last());
                lemma_visit_popped(n, root, visited, before, out@);
            }
            let ghost base = stack@;
            let ghost out0 = out@;
            let node = arena_get(&self.nodes, id);
            match &node.data {
                NodeData::View(_) => {
                    out.push((id, node.area));
                },
                NodeData::Container(ch, _) => {
                    let mut k: usize = ch.len();
                    while k > 0
                        invariant
                            k <= ch.len(),
                            stack@ =~= base + ch@.subrange(k as int, ch.len() as int).reverse(),
                        decreases k,
                    {
                        k = k - 1;
                        stack.push(ch[k]);
                        proof {
                            assert(ch@.subrange(k as int, ch.len() as int).reverse() =~= ch@.subrange(
                                k + 1,
                                ch.len() as int,
                            ).reverse().push(ch@[k as int]));
                        }
                    }
                    proof {
                        assert(ch@.subrange(0, ch.len() as int) =~= ch@);
                    }
                },
            }
            proof {
                lemma_visit_step(n, self.depths(), root, self.focuse(), visited, before, out0);
                visited = visited.insert(id);
            }
        }
        proof {
            lemma_visit_done(self, visited, out@);
        }
        out
    }
}

/// The state of the walk that lists the view panes: `visited` nodes were taken
/// off the worklist, and the views among them are listed in `out`.
pub open spec fn visit_inv(
    n: Map<ViewId, Node>,
    root: ViewId,
    visited: Set<ViewId>,
    stack: Seq<ViewId>,
    out: Seq<(ViewId, Rect)>,
) -> bool {
    &&& visited.subset_of(n.dom())
    &&& forall|j: int|
        0 <= j < stack.len() ==> n.contains_key(#[trigger] stack[j]) && !visited.contains(stack[j])
            && (stack[j] != root ==> visited.contains(n[stack[j]].parent))
    &&& stack.no_duplicates()
    &&& visited.contains(root) || stack.contains(root)
    &&& forall|y: ViewId| #[trigger] visited.contains(y) && y != root ==> visited.contains(n[y].parent)
    &&& forall|c: ViewId, i: int|
        visited.contains(c) && n[c].is_container() && 0 <= i < n[c].children().len() ==> visited.contains(
            #[trigger] n[c].children()[i],
        ) || stack.contains(n[c].children()[i])
    &&& forall|k: int|
        0 <= k < out.len() ==> visited.contains(#[trigger] out[k].0) && !n[out[k].0].is_container()
            && out[k].1 == n[out[k].0].area
    &&& forall|y: ViewId| #[trigger] visited.contains(y) && !n[y].is_container() ==> ids(out).contains(y)
    &&& ids(out).no_duplicates()
}

proof fn lemma_visit_popped(
    n: Map<ViewId, Node>,
    root: ViewId,
    visited: Set<ViewId>,
    before: Seq<ViewId>,
    out: Seq<(ViewId, Rect)>,
)
    requires
        visit_inv(n, root, visited, before, out),
        before.len() > 0,
        n.dom().finite(),
    ensures
        n.contains_key(before.last()),
        !visited.contains(before.last()),
        visited.insert(before.last()).len() == visited.len() + 1,
        visited.insert(before.last()).len() <= n.dom().len(),
{
    let j = before.len() - 1;
    assert(n.contains_key(before[j]));
    vstd::set_lib::lemma_len_subset(visited, n.dom());
    vstd::set_lib::lemma_len_subset(visited.insert(before[j]), n.dom());
}

proof fn lemma_visit_step(
    n: Map<ViewId, Node>,
    d: Map<ViewId, nat>,
    root: ViewId,
    focuse: ViewId,
    visited: Set<ViewId>,
    before: Seq<ViewId>,
    out: Seq<(ViewId, Rect)>,
)
    requires
        shape_ok(n, d, root, focuse),
        visit_inv(n, root, visited, before, out),
        before.len() > 0,
    ensures
        ({
            let id = before.last();
            let stack = before.drop_last() + n[id].children().reverse();
            let out1 = if n[id].is_container() { out } else { out.push((id, n[id].area)) };
            visit_inv(n, root, visited.insert(id), stack, out1)
        }),
{
    let id = before.last();
    let base = before.drop_last();
    let ch = n[id].children();
    let rev = ch.reverse();
    let stack = base + rev;
    let out1 = if n[id].is_container() { out } else { out.push((id, n[id].area)) };
    let v1 = visited.insert(id);
    let last = before.len() - 1;
    assert(n.contains_key(before[last]));
    assert(node_ok(n, d, root, id));
    assert forall|j: int| 0 <= j < base.len() implies #[trigger] stack[j] == before[j] by {}
    assert forall|k: int| 0 <= k < rev.len() implies #[trigger] stack[base.len() + k] == ch[ch.len() - 1 - k] by {}
    assert forall|k: int| 0 <= k < ch.len() implies #[trigger] ch[k] != root && !visited.contains(ch[k])
        && ch[k] != id && !base.contains(ch[k]) && n.contains_key(ch[k]) && n[ch[k]].parent == id by {
        assert(n[id].is_container());
        assert(children_ok(n, root, id));
        if id != root {
            assert(d[id] > d[n[id].parent]);
        }
        if base.contains(ch[k]) {
            let j = base.index_of(ch[k]);
            assert(before[j] == ch[k]);
        }
    }
    assert forall|j: int| 0 <= j < stack.len() implies n.contains_key(#[trigger] stack[j]) && !v1.contains(stack[j])
        && (stack[j] != root ==> v1.contains(n[stack[j]].parent)) by {
        if j >= base.len() {
            let k = j - base.len();
            assert(stack[base.len() + k] == ch[ch.len() - 1 - k]);
        } else {
            assert(stack[j] == before[j]);
            assert(before[j] != before[last]);
        }
    }
    assert forall|a: int, b: int| 0 <= a < b < stack.len() implies stack[a] != stack[b] by {
        if b < base.len() {
            assert(before[a] != before[b]);
        } else if a < base.len() {
            let kb = b - base.len();
            assert(stack[base.len() + kb] == ch[ch.len() - 1 - kb]);
            assert(stack[a] == base[a]);
        } else {
            let ka = a - base.len();
            let kb = b - base.len();
            assert(stack[base.len() + ka] == ch[ch.len() - 1 - ka]);
            assert(stack[base.len() + kb] == ch[ch.len() - 1 - kb]);
            assert(children_ok(n, root, id));
        }
    }
    assert(stack.no_duplicates());
    if !visited.contains(root) && id != root {
        let j = before.index_of(root);
        assert(j != last);
        assert(stack[j] == before[j]);
    }
    assert forall|c: ViewId, i: int|
        v1.contains(c) && n[c].is_container() && 0 <= i < n[c].children().len()
        implies v1.contains(#[trigger] n[c].children()[i]) || stack.contains(n[c].children()[i]) by {
        let y = n[c].children()[i];
        if c == id {
            let k = ch.len() - 1 - i;
            assert(stack[base.len() + k] == ch[i]);
        } else {
            if !visited.contains(y) && y != id {
                let j = before.index_of(y);
                assert(j != last);
                assert(stack[j] == before[j]);
            }
        }
    }
    assert forall|k: int| 0 <= k < out.len() implies #[trigger] ids(out)[k] == out[k].0 by {}
    assert forall|k: int| 0 <= k < out1.len() implies #[trigger] ids(out1)[k] == out1[k].0 by {}
    assert forall|k: int| 0 <= k < out1.len() implies v1.contains(#[trigger] out1[k].0) && !n[out1[k].0].is_container()
        && out1[k].1 == n[out1[k].0].area by {
        if k < out.len() {
            assert(out1[k] == out[k]);
        }
    }
    assert forall|y: ViewId| #[trigger] v1.contains(y) && !n[y].is_container() implies ids(out1).contains(y) by {
        if y == id {
            assert(ids(out1)[out.len() as int] == id);
        } else {
            let k = ids(out).index_of(y);
            assert(out1[k] == out[k]);
            assert(ids(out1)[k] == y);
        }
    }
    assert forall|a: int, b: int| 0 <= a < b < out1.len() implies ids(out1)[a] != ids(out1)[b] by {
        if b < out.len() {
            assert(ids(out)[a] != ids(out)[b]);
            assert(out1[a] == out[a] && out1[b] == out[b]);
        } else {
            assert(out1[a] == out[a]);
            assert(visited.contains(out[a].0));
        }
    }
    assert(ids(out1).no_duplicates());
}

proof fn lemma_visit_done(t: &Tree, visited: Set<ViewId>, out: Seq<(ViewId, Rect)>)
    requires
        t.wf(),
        visit_inv(t.nodes(), t.root(), visited, seq![], out),
    ensures
        forall|k: int|
            0 <= k < out.len() ==> t.nodes().contains_key(#[trigger] out[k].0) && !t.nodes()[out[k].0].is_container()
                && out[k].1 == t.nodes()[out[k].0].area,
        forall|id: ViewId|
            t.nodes().contains_key(id) && !t.nodes()[id].is_container() ==> #[trigger] ids(out).contains(id),
{
    let n = t.nodes();
    let empty: Seq<ViewId> = seq![];
    assert forall|c: ViewId, i: int|
        visited.contains(c) && n.contains_key(c) && n[c].is_container()
        && 0 <= i < n[c].children().len() implies visited.contains(#[trigger] n[c].children()[i]) by {
        if empty.contains(n[c].children()[i]) {
            let j = empty.index_of(n[c].children()[i]);
        }
    }
    if !visited.contains(t.root()) {
        let j = empty.index_of(t.root());
    }
    assert forall|id: ViewId| n.contains_key(id) implies visited.contains(id) by {
        t.lemma_closed_covers(visited, id);
    }
    assert forall|k: int| 0 <= k < out.len() implies n.contains_key(#[trigger] out[k].0)
        && !n[out[k].0].is_container() && out[k].1 == n[out[k].0].area by {
        assert(visited.contains(out[k].0));
    }
    assert forall|id: ViewId| n.contains_key(id) && !n[id].is_container() implies #[trigger] ids(out).contains(id) by {
        assert(visited.contains(id));
    }
}

/// Sum of the extents, along `layout`'s axis, of the nodes `ch`.
pub open spec fn extent_sum(n: Map<ViewId, Node>, ch: Seq<ViewId>, layout: Layout) -> int
    decreases ch.len(),
{
    if ch.len() == 0 {
        0
    } else {
        extent_sum(n, ch.drop_last(), layout) + extent(n[ch.last()].area, layout)
    }
}


proof fn lemma_prefix_sum(n: Map<ViewId, Node>, c: ViewId, k: int)
    requires
        n.contains_key(c),
        n[c].is_container(),
        tiled(n, c),
        n[c].area.fits(),
        0 <= k < n[c].children().len(),
    ensures
        extent_sum(n, n[c].children().subrange(0, k), n[c].layout()) == k * (extent(n[c].area, n[c].layout())
            / n[c].children().len() as int),
    decreases k,
{
    let ch = n[c].children();
    let lay = n[c].layout();
    let total = extent(n[c].area, lay);
    let cnt = ch.len() as int;
    if k == 0 {
        assert(ch.subrange(0, 0).len() == 0);
    } else {
        lemma_prefix_sum(n, c, k - 1);
        assert(ch.subrange(0, k).drop_last() =~= ch.subrange(0, k - 1));
        assert(n[ch[k - 1]].area == slice(n[c].area, lay, cnt, k - 1));
        lemma_slice_extent(n[c].area, lay, cnt, k - 1);
        assert(ch.subrange(0, k).last() == ch[k - 1]);
        assert((k - 1) * (total / cnt) + total / cnt == k * (total / cnt)) by (nonlinear_arith);
    }
}

/// The children of a container cover its extent along its axis exactly:
/// their extents add up to the container's, the remainder of the division
/// going to the last child.
pub proof fn lemma_children_fill(t: &Tree, c: ViewId)
    requires
        t.wf(),
        t.nodes().contains_key(c),
        t.nodes()[c].is_container(),
        t.nodes()[c].children().len() > 0,
    ensures
        extent_sum(t.nodes(), t.nodes()[c].children(), t.nodes()[c].layout()) == extent(
            t.nodes()[c].area,
            t.nodes()[c].layout(),
        ),
{
    let n = t.nodes();
    let ch = n[c].children();
    let lay = n[c].layout();
    let total = extent(n[c].area, lay);
    let cnt = ch.len() as int;
    assert(tiled(n, c));
    assert(n[c].area.fits());
    lemma_prefix_sum(n, c, cnt - 1);
    assert(ch.drop_last() =~= ch.subrange(0, cnt - 1));
    assert(n[ch[cnt - 1]].area == slice(n[c].area, lay, cnt, cnt - 1));
    lemma_slice_extent(n[c].area, lay, cnt, cnt - 1);
    assert(ch.last() == ch[cnt - 1]);
}

impl Tree {
    /// Closes the focused pane: its node leaves its container; a container
    /// other than the root that is left with one child is replaced by that
    /// child; the focus moves to the first remaining pane in layout order, or
    /// to the root when no pane is left, and every rectangle is recomputed.
    /// Nothing changes, and `false` comes back, when the root has the focus,
    /// or when the focused pane is the last one but the root holds more.
    pub fn remove(&mut self) -> (ok: bool)
        requires
            old(self).wf(),
        ensures
            final(self).wf(),
            final(self).root() == old(self).root(),
            old(self).focuse() == old(self).root() ==> !ok,
            !ok ==> final(self).nodes() == old(self).nodes() && final(self).focuse() == old(self).focuse(),
            ok ==> !final(self).nodes().contains_key(old(self).focuse()),
            ok ==> final(self).nodes().dom().subset_of(old(self).nodes().dom()),
            ok ==> forall|id: ViewId|
                #[trigger] final(self).nodes().contains_key(id) && !final(self).nodes()[id].is_container()
                    ==> final(self).nodes()[id].data == old(self).nodes()[id].data,
            ok ==> forall|id: ViewId|
                #[trigger] old(self).nodes().contains_key(id) && !old(self).nodes()[id].is_container() && id
                    != old(self).focuse() ==> final(self).nodes().contains_key(id),
            ok && final(self).focuse() != final(self).root() ==> !final(self).nodes()[final(self).focuse()].is_container(),
            ok == removable(old(self).nodes(), old(self).root(), old(self).focuse()),
            ok ==> removed_links(old(self).nodes(), final(self).nodes(), old(self).root(), old(self).focuse()),
            ok ==> focus_moved(
                old(self).nodes(),
                final(self).nodes(),
                old(self).root(),
                old(self).focuse(),
                final(self).focuse(),
            ),
    {
        if self.focuse == self.root {
            return false;
        }
        let ghost n = self.nodes();
        let ghost d = self.depths();
        let root = self.root;
        let f = self.focuse;
        let root_area = arena_get(&self.nodes, root).area;
        let panes = self.leaves();
        let mut next: usize = 0;
        while next < panes.len() && panes[next].0 == f
            invariant
                next <= panes.len(),
                forall|k: int| 0 <= k < next ==> panes@[k].0 == f,
            decreases panes.len() - next,
        {
            next = next + 1;
        }
        proof {
            if next == panes.len() {
                assert forall|g: ViewId| #[trigger] n.contains_key(g) && !n[g].is_container() implies g == f by {
                    assert(ids(panes@).contains(g));
                    let k = ids(panes@).index_of(g);
                    assert(0 <= k < panes@.len() && ids(panes@)[k] == g);
                    assert(ids(panes@)[k] == panes@[k].0);
                }
                assert(!other_view(n, f));
            } else {
                let g = panes@[next as int].0;
                assert(n.contains_key(g) && !n[g].is_container() && g != f);
                assert(other_view(n, f));
            }
        }
        let p = arena_get(&self.nodes, f).parent;
        proof {
            assert(node_ok(n, d, root, f));
            assert(node_ok(n, d, root, p));
            assert(children_ok(n, root, p));
        }
        if next == panes.len() {
            let rn = arena_get(&self.nodes, root);
            let only = match &rn.data {
                NodeData::Container(ch, _) => ch.len() == 1 && ch[0] == f,
                NodeData::View(_) => false,
            };
            if !only {
                proof {
                    if n[root].children() == seq![f] {
                        assert(n[root].children().len() == 1 && n[root].children()[0] == f);
                    }
                }
                return false;
            }
            proof {
                assert(n[root].children() =~= seq![f]);
            }
        }
        let new_focus = if next < panes.len() {
            panes[next].0
        } else {
            root
        };
        proof {
            if next < panes.len() {
                assert(n.contains_key(new_focus) && !n[new_focus].is_container());
                assert(new_focus != f);
            } else {
                assert(n[root].children()[0] == f);
                assert(node_ok(n, d, root, root));
                assert(children_ok(n, root, root));
                assert(n[f].parent == root);
            }
        }
        let pnode = arena_replace(&mut self.nodes, p, placeholder());
        let Node { parent: pp, data: pdata, area: parea } = pnode;
        match pdata {
            NodeData::Container(mut ch, lay) => {
                proof {
                    assert(n[p].children().contains(f));
                }
                let pos = index_of(&ch, f);
                ch.remove(pos);
                arena_remove(&mut self.nodes, f);
                if p != root && ch.len() == 1 {
                    let c = ch[0];
                    arena_remove(&mut self.nodes, p);
                    proof {
                        assert(node_ok(n, d, root, pp));
                        assert(children_ok(n, root, pp));
                        assert(n[pp].children().contains(p));
                    }
                    let ppnode = arena_replace(&mut self.nodes, pp, placeholder());
                    let Node { parent: ppp, data: ppdata, area: pparea } = ppnode;
                    match ppdata {
                        NodeData::Container(mut pch, play) => {
                            let ppos = index_of(&pch, p);
                            pch.set(ppos, c);
                            arena_replace(&mut self.nodes, pp, Node { parent: ppp, data: NodeData::Container(pch, play), area: pparea });
                        },
                        NodeData::View(v) => {
                            proof {
                                assert(false);
                            }
                            arena_replace(&mut self.nodes, pp, Node { parent: ppp, data: NodeData::View(v), area: pparea });
                        },
                    }
                    let cnode = arena_replace(&mut self.nodes, c, placeholder());
                    let Node { parent: _, data: cdata, area: carea } = cnode;
                    arena_replace(&mut self.nodes, c, Node { parent: pp, data: cdata, area: carea });
                    proof {
                        let n1 = self.nodes();
                        assert(n1.dom() =~= n.dom().remove(f).remove(p));
                        lemma_remove_collapse(n, n1, d, root, f, pos as int);
                        assert(new_focus != root);
                        assert(n1.contains_key(new_focus));
                        assert(n1[new_focus].data == n[new_focus].data);
                        assert(shape_ok(n1, d, root, new_focus));
                        assert(remove_result(n, n1, f));
                        assert(removed_links(n, n1, root, f));
                    }
                } else {
                    arena_replace(&mut self.nodes, p, Node { parent: pp, data: NodeData::Container(ch, lay), area: parea });
                    proof {
                        let n1 = self.nodes();
                        assert(n1.dom() =~= n.dom().remove(f));
                        lemma_remove_plain(n, n1, d, root, f, pos as int);
                        if new_focus != root {
                            assert(n1.contains_key(new_focus));
                            assert(n1[new_focus].data == n[new_focus].data);
                        } else {
                            assert(n1[root].children() =~= Seq::<ViewId>::empty());
                        }
                        assert(shape_ok(n1, d, root, new_focus));
                        assert(remove_result(n, n1, f));
                        assert(removed_links(n, n1, root, f));
                    }
                }
            },
            NodeData::View(v) => {
                proof {
                    assert(false);
                }
                arena_replace(&mut self.nodes, p, Node { parent: pp, data: NodeData::View(v), area: parea });
                return false;
            },
        }
        self.focuse = new_focus;
        let ghost n1 = self.nodes();
        self.recalculate(root_area);
        proof {
            let n2 = self.nodes();
            assert forall|id: ViewId| #[trigger] n2.contains_key(id) && !n2[id].is_container() implies n2[id].data == n[id].data by {
                assert(n2[id].data == n1[id].data);
            }
            lemma_removed_links_kept(n, n1, n2, root, f);
        }
        true
    }
}

/// The axis of the container that holds the focused node (the root's own
/// while it has the focus).
pub open spec fn focus_layout(n: Map<ViewId, Node>, root: ViewId, focuse: ViewId) -> Layout {
    if focuse == root {
        n[root].layout()
    } else {
        n[n[focuse].parent].layout()
    }
}

impl Tree {
    /// Adds `view` right after the focused pane in its own container, along
    /// that container's axis; see `split`.
    pub fn push(&mut self, view: AppView) -> (ok: bool)
        requires
            old(self).wf(),
        ensures
            final(self).wf(),
            final(self).root() == old(self).root(),
            ok == (old(self).nodes().dom().len() < 0xffff_fff0),
            !ok ==> final(self).nodes() == old(self).nodes() && final(self).focuse() == old(self).focuse(),
            ok ==> final(self).nodes()[final(self).focuse()].data == NodeData::View(view),
            ok ==> split_placed(
                old(self).nodes(),
                final(self).nodes(),
                old(self).root(),
                old(self).focuse(),
                final(self).focuse(),
                focus_layout(old(self).nodes(), old(self).root(), old(self).focuse()),
            ),
            ok ==> views_kept(old(self).nodes(), final(self).nodes(), final(self).focuse()),
            ok ==> split_frame(old(self).nodes(), final(self).nodes(), old(self).focuse()),
    {
        let holder = if self.focuse == self.root {
            self.root
        } else {
            proof {
                assert(node_ok(self.nodes(), self.depths(), self.root(), self.focuse()));
            }
            arena_get(&self.nodes, self.focuse).parent
        };
        let layout = match &arena_get(&self.nodes, holder).data {
            NodeData::Container(_, l) => *l,
            NodeData::View(_) => Layout::Vertical,
        };
        self.split(view, layout)
    }
}

/// A view other than `f` is in the tree.
pub open spec fn other_view(n: Map<ViewId, Node>, f: ViewId) -> bool {
    exists|g: ViewId| #[trigger] n.contains_key(g) && !n[g].is_container() && g != f
}

/// The focused leaf `f` can be closed: it is not the root, and either another
/// view remains or `f` is the root's only child.
pub open spec fn removable(n: Map<ViewId, Node>, root: ViewId, f: ViewId) -> bool {
    f != root && (other_view(n, f) || n[root].children() == seq![f])
}

/// The links after closing leaf `f`: it leaves its container `p`; when `p`
/// is not the root and is left with one child `c`, `c` takes `p`'s place in
/// `p`'s container and `p` goes; every other node keeps its parent and
/// contents.
pub open spec fn removed_links(n: Map<ViewId, Node>, n1: Map<ViewId, Node>, root: ViewId, f: ViewId) -> bool {
    let p = n[f].parent;
    let ch = n[p].children();
    let pos = ch.index_of(f);
    &&& !n1.contains_key(f)
    &&& if p != root && ch.len() == 2 {
        let c = ch.remove(pos)[0];
        let pp = n[p].parent;
        &&& !n1.contains_key(p)
        &&& n1.contains_key(c)
        &&& n1[c].parent == pp
        &&& n1[c].data == n[c].data
        &&& n1.contains_key(pp)
        &&& n1[pp].parent == n[pp].parent
        &&& n1[pp].children() == n[pp].children().update(n[pp].children().index_of(p), c)
        &&& forall|id: ViewId|
            #[trigger] n.contains_key(id) && id != f && id != p && id != pp && id != c ==> n1.contains_key(id)
                && n1[id].parent == n[id].parent && n1[id].data == n[id].data
    } else {
        &&& n1.contains_key(p)
        &&& n1[p].parent == n[p].parent
        &&& n1[p].children() == ch.remove(pos)
        &&& forall|id: ViewId|
            #[trigger] n.contains_key(id) && id != f && id != p ==> n1.contains_key(id) && n1[id].parent
                == n[id].parent && n1[id].data == n[id].data
    }
}

/// Where the focus goes after closing leaf `f`: to another view that was in
/// the tree, or to the root when none is left.
pub open spec fn focus_moved(n: Map<ViewId, Node>, n1: Map<ViewId, Node>, root: ViewId, f: ViewId, g: ViewId) -> bool {
    if other_view(n, f) {
        &&& g != root
        &&& g != f
        &&& n.contains_key(g)
        &&& !n[g].is_container()
        &&& n1.contains_key(g)
        &&& n1[g].data == n[g].data
    } else {
        g == root
    }
}

proof fn lemma_removed_links_kept(
    n: Map<ViewId, Node>,
    n1: Map<ViewId, Node>,
    n2: Map<ViewId, Node>,
    root: ViewId,
    f: ViewId,
)
    requires
        removed_links(n, n1, root, f),
        same_shape(n1, n2),
    ensures
        removed_links(n, n2, root, f),
{
    let p = n[f].parent;
    let ch = n[p].children();
    let pos = ch.index_of(f);
    if p != root && ch.len() == 2 {
        let c = ch.remove(pos)[0];
        let pp = n[p].parent;
        assert(n2[c].parent == n1[c].parent && n2[c].data == n1[c].data);
        assert(n2[pp].parent == n1[pp].parent && n2[pp].data == n1[pp].data);
        assert forall|id: ViewId|
            #[trigger] n.contains_key(id) && id != f && id != p && id != pp && id != c implies n2.contains_key(id)
                && n2[id].parent == n[id].parent && n2[id].data == n[id].data by {
            assert(n2[id].parent == n1[id].parent && n2[id].data == n1[id].data);
        }
    } else {
        assert(n2[p].parent == n1[p].parent && n2[p].data == n1[p].data);
        assert forall|id: ViewId| #[trigger] n.contains_key(id) && id != f && id != p implies n2.contains_key(id)
            && n2[id].parent == n[id].parent && n2[id].data == n[id].data by {
            assert(n2[id].parent == n1[id].parent && n2[id].data == n1[id].data);
        }
    }
}

/// What removing leaf `f` leaves: `f` is gone, no node is new, and every view
/// but `f` stays with its contents.
spec fn remove_result(n: Map<ViewId, Node>, n1: Map<ViewId, Node>, f: ViewId) -> bool {
    &&& !n1.contains_key(f)
    &&& n1.dom().subset_of(n.dom())
    &&& forall|id: ViewId| #[trigger] n1.contains_key(id) && !n1[id].is_container() ==> n1[id].data == n[id].data
    &&& forall|id: ViewId| #[trigger] n.contains_key(id) && !n[id].is_container() && id != f ==> n1.contains_key(id)
}

/// The node lists after the focused leaf `f` leaves its container, when no
/// container collapses.
proof fn lemma_remove_plain(
    n: Map<ViewId, Node>,
    n1: Map<ViewId, Node>,
    d: Map<ViewId, nat>,
    root: ViewId,
    f: ViewId,
    pos: int,
)
    requires
        shape_ok(n, d, root, f),
        f != root,
        0 <= pos < n[n[f].parent].children().len(),
        n[n[f].parent].children()[pos] == f,
        n[f].parent == root || n[n[f].parent].children().remove(pos).len() != 1,
        n1.dom() == n.dom().remove(f),
        n1[n[f].parent].parent == n[n[f].parent].parent,
        n1[n[f].parent].is_container(),
        n1[n[f].parent].children() == n[n[f].parent].children().remove(pos),
        forall|id: ViewId| n1.contains_key(id) && id != n[f].parent ==> n1[id] == n[id],
    ensures
        forall|id: ViewId| n1.contains_key(id) ==> #[trigger] node_ok(n1, d, root, id),
        n1.dom().finite(),
        n1.contains_key(root),
        n1[root].is_container(),
        n1[root].parent == root,
{
    let p = n[f].parent;
    let old_ch = n[p].children();
    let new_ch = n1[p].children();
    assert(node_ok(n, d, root, f));
    assert(node_ok(n, d, root, p));
    assert(children_ok(n, root, p));
    assert(node_ok(n, d, root, root));
    assert forall|i: int| 0 <= i < new_ch.len() implies #[trigger] new_ch[i] == old_ch[if i < pos { i } else { i + 1 }] by {}
    assert forall|id: ViewId| n1.contains_key(id) implies #[trigger] node_ok(n1, d, root, id) by {
        assert(node_ok(n, d, root, id));
        let q = n[id].parent;
        assert(node_ok(n, d, root, q));
        if q == f {
            assert(n[f].is_container());
        }
        if id == p {
            assert forall|i: int| 0 <= i < new_ch.len() implies n1.contains_key(#[trigger] new_ch[i])
                && n1[new_ch[i]].parent == p && new_ch[i] != root by {
                let k = if i < pos { i } else { i + 1 };
                assert(new_ch[i] == old_ch[k]);
                assert(old_ch[k] != f);
            }
            assert(new_ch.no_duplicates()) by {
                assert forall|a: int, b: int| 0 <= a < b < new_ch.len() implies new_ch[a] != new_ch[b] by {
                    let ka = if a < pos { a } else { a + 1 };
                    let kb = if b < pos { b } else { b + 1 };
                    assert(new_ch[a] == old_ch[ka]);
                    assert(new_ch[b] == old_ch[kb]);
                }
            }
            if p != root {
                assert(n1[q] == n[q] || q == p);
                if q == p {
                    assert(d[p] > d[p]);
                }
            }
        } else {
            if q == p && id != root {
                let k = old_ch.index_of(id);
                assert(old_ch[k] == id);
                assert(k != pos);
                let i = if k < pos { k } else { k - 1 };
                assert(new_ch[i] == id);
            }
            if n[id].is_container() {
                assert(children_ok(n, root, id));
                let ch = n[id].children();
                assert forall|i: int| 0 <= i < ch.len() implies n1.contains_key(#[trigger] ch[i])
                    && n1[ch[i]].parent == id && ch[i] != root by {
                    assert(node_ok(n, d, root, ch[i]));
                    if ch[i] == f {
                        assert(id == p);
                    }
                }
            }
        }
    }
    if p != root {
        assert(n1[root] == n[root]);
    }
}

/// The node lists after the focused leaf `f` leaves its container `p`, which
/// is not the root and is left with one child `c`: `c` takes `p`'s place.
proof fn lemma_remove_collapse(
    n: Map<ViewId, Node>,
    n1: Map<ViewId, Node>,
    d: Map<ViewId, nat>,
    root: ViewId,
    f: ViewId,
    pos: int,
)
    requires
        shape_ok(n, d, root, f),
        f != root,
        n[f].parent != root,
        0 <= pos < n[n[f].parent].children().len(),
        n[n[f].parent].children()[pos] == f,
        n[n[f].parent].children().remove(pos).len() == 1,
        ({
            let p = n[f].parent;
            let pp = n[p].parent;
            let c = n[p].children().remove(pos)[0];
            let ppos = n[pp].children().index_of(p);
            &&& n1.dom() == n.dom().remove(f).remove(p)
            &&& n1[pp].parent == n[pp].parent
            &&& n1[pp].is_container()
            &&& n1[pp].children() == n[pp].children().update(ppos, c)
            &&& n1[c].parent == pp
            &&& n1[c].data == n[c].data
            &&& forall|id: ViewId| n1.contains_key(id) && id != pp && id != c ==> n1[id] == n[id]
        }),
    ensures
        forall|id: ViewId| n1.contains_key(id) ==> #[trigger] node_ok(n1, d, root, id),
        n1.dom().finite(),
        n1.contains_key(root),
        n1[root].is_container(),
        n1[root].parent == root,
{
    let p = n[f].parent;
    let pp = n[p].parent;
    let old_ch = n[p].children();
    let c = old_ch.remove(pos)[0];
    let pch = n[pp].children();
    let ppos = pch.index_of(p);
    let new_pch = n1[pp].children();
    assert(node_ok(n, d, root, f));
    assert(node_ok(n, d, root, p));
    assert(children_ok(n, root, p));
    assert(node_ok(n, d, root, pp));
    assert(children_ok(n, root, pp));
    assert(node_ok(n, d, root, root));
    assert(pch.contains(p));
    assert(0 <= ppos < pch.len() && pch[ppos] == p);
    assert(old_ch.len() == 2);
    let ci = if pos == 0 { 1int } else { 0int };
    assert(old_ch.remove(pos)[0] == old_ch[ci]);
    assert(c == old_ch[ci]);
    assert(c != f);
    assert(n.contains_key(c) && n[c].parent == p && c != root);
    assert(node_ok(n, d, root, c));
    assert(c != pp);
    assert(c != p);
    assert(pp != p);
    assert(pp != f);
    assert(new_pch[ppos] == c);
    assert forall|id: ViewId| n1.contains_key(id) implies #[trigger] node_ok(n1, d, root, id) by {
        assert(node_ok(n, d, root, id));
        let q = n[id].parent;
        assert(node_ok(n, d, root, q));
        if q == f {
            assert(n[f].is_container());
        }
        if id == c {
            assert(new_pch.contains(c));
            if n[c].is_container() {
                assert(children_ok(n, root, c));
                let ch = n[c].children();
                assert forall|i: int| 0 <= i < ch.len() implies n1.contains_key(#[trigger] ch[i])
                    && n1[ch[i]].parent == c && ch[i] != root by {
                    assert(node_ok(n, d, root, ch[i]));
                    if ch[i] == p || ch[i] == f {
                        assert(d[ch[i]] > d[c]);
                    }
                }
            }
        } else if id == pp {
            assert forall|i: int| 0 <= i < new_pch.len() implies n1.contains_key(#[trigger] new_pch[i])
                && n1[new_pch[i]].parent == pp && new_pch[i] != root by {
                if i != ppos {
                    assert(new_pch[i] == pch[i]);
                    assert(pch[i] != p);
                    assert(node_ok(n, d, root, pch[i]));
                    if pch[i] == f {
                        assert(n[f].parent == p);
                    }
                }
            }
            assert(new_pch.no_duplicates()) by {
                assert forall|a: int, b: int| 0 <= a < b < new_pch.len() implies new_pch[a] != new_pch[b] by {
                    if a != ppos && b != ppos {
                        assert(pch[a] != pch[b]);
                    } else if a == ppos {
                        assert(node_ok(n, d, root, pch[b]));
                    } else {
                        assert(node_ok(n, d, root, pch[a]));
                    }
                }
            }
            if pp != root {
                let r = n[pp].parent;
                assert(node_ok(n, d, root, r));
                assert(r != p && r != f && r != c) by {
                    if r == p || r == c {
                        assert(d[r] > d[pp]);
                    }
                    if r == f {
                        assert(n[f].is_container());
                    }
                }
                if r == pp {
                    assert(d[pp] > d[pp]);
                }
            }
        } else {
            assert(n1[id] == n[id]);
            assert(q != p) by {
                if q == p {
                    let k = old_ch.index_of(id);
                    assert(old_ch[k] == id);
                    if k == pos {
                        assert(id == f);
                    } else {
                        assert(id == c);
                    }
                }
            }
            if q == pp && id != root {
                let k = pch.index_of(id);
                assert(pch[k] == id);
                assert(k != ppos);
                assert(new_pch[k] == id);
            }
            if q != pp && q != c {
                assert(n1[q] == n[q]);
            }
            if n[id].is_container() {
                assert(children_ok(n, root, id));
                let ch = n[id].children();
                assert forall|i: int| 0 <= i < ch.len() implies n1.contains_key(#[trigger] ch[i])
                    && n1[ch[i]].parent == id && ch[i] != root by {
                    assert(node_ok(n, d, root, ch[i]));
                    if ch[i] == f || ch[i] == p {
                        assert(n[ch[i]].parent == id);
                    }
                }
            }
        }
    }
    if root != pp && root != c {
        assert(n1[root] == n[root]);
    }
    if root == c {
        assert(false);
    }
}

/// Every node of `n1` is a container, the new view `f`, or a node of `n`
/// with the same contents.
pub open spec fn views_kept(n: Map<ViewId, Node>, n1: Map<ViewId, Node>, f: ViewId) -> bool {
    forall|id: ViewId|
        n1.contains_key(id) ==> (n.contains_key(id) && #[trigger] n1[id].data == n[id].data) || n1[id].is_container()
            || id == f
}

/// Every node of `n` except the container of the focused node stays, with
/// the same contents; all but the focused node keep their parent too.
pub open spec fn split_frame(n: Map<ViewId, Node>, n1: Map<ViewId, Node>, focuse: ViewId) -> bool {
    forall|id: ViewId|
        #[trigger] n.contains_key(id) && id != n[focuse].parent ==> n1.contains_key(id) && n1[id].data
            == n[id].data && (id != focuse ==> n1[id].parent == n[id].parent)
}

/// The view panes of a tree.
pub open spec fn view_set(n: Map<ViewId, Node>) -> Set<ViewId> {
    Set::new(|g: ViewId| n.contains_key(g) && !n[g].is_container())
}

/// A split adds exactly one pane, the new view, and keeps every other one.
pub proof fn lemma_split_adds_one_pane(
    n: Map<ViewId, Node>,
    n1: Map<ViewId, Node>,
    root: ViewId,
    focuse: ViewId,
    f: ViewId,
    layout: Layout,
)
    requires
        n.contains_key(focuse),
        n.contains_key(n[focuse].parent),
        n[n[focuse].parent].is_container(),
        split_placed(n, n1, root, focuse, f, layout),
        split_frame(n, n1, focuse),
        views_kept(n, n1, f),
        !n1[f].is_container(),
    ensures
        !view_set(n).contains(f),
        view_set(n1) == view_set(n).insert(f),
{
    assert forall|g: ViewId| #[trigger] view_set(n1).contains(g) == view_set(n).insert(f).contains(g) by {
        if view_set(n).contains(g) {
            assert(g != n[focuse].parent);
            assert(n1.contains_key(g) && n1[g].data == n[g].data);
        }
        if view_set(n1).contains(g) && g != f {
            assert(n.contains_key(g) && n1[g].data == n[g].data);
        }
    }
    assert(view_set(n1) =~= view_set(n).insert(f));
}

/// Where `split` put the new view `f`.
pub open spec fn split_placed(
    n: Map<ViewId, Node>,
    n1: Map<ViewId, Node>,
    root: ViewId,
    focuse: ViewId,
    f: ViewId,
    layout: Layout,
) -> bool {
    &&& !n.contains_key(f)
    &&& n1.contains_key(f)
    &&& if focuse == root {
        &&& n1.dom() == n.dom().insert(f)
        &&& n1[f].parent == root
        &&& n1[root].children() == seq![f]
        &&& n1[root].layout() == layout
    } else {
        let p = n[focuse].parent;
        let pos = n[p].children().index_of(focuse);
        if n[p].layout() == layout {
            &&& n1.dom() == n.dom().insert(f)
            &&& n1[f].parent == p
            &&& n1[p].children() == n[p].children().insert(pos + 1, f)
        } else {
            let sp = n1[f].parent;
            &&& n1.dom() == n.dom().insert(sp).insert(f)
            &&& !n.contains_key(sp)
            &&& n1[sp].parent == p
            &&& n1[sp].children() == seq![focuse, f]
            &&& n1[sp].layout() == layout
            &&& n1[focuse].parent == sp
            &&& n1[p].children() == n[p].children().update(pos, sp)
        }
    }
}

/// The position of `x` in `v`.
fn index_of(v: &Vec<ViewId>, x: ViewId) -> (r: usize)
    requires
        v@.contains(x),
        v@.no_duplicates(),
    ensures
        r < v.len(),
        v@[r as int] == x,
        r == v@.index_of(x),
{
    let mut i: usize = 0;
    while i < v.len()
        invariant
            i <= v.len(),
            v@.contains(x),
            v@.no_duplicates(),
            forall|k: int| 0 <= k < i ==> v@[k] != x,
        decreases v.len() - i,
    {
        if v[i] == x {
            proof {
                let j = v@.index_of(x);
                assert(0 <= j < v@.len() && v@[j] == x);
                if j != i {
                    assert(v@[j as int] != v@[i as int]);
                }
            }
            return i;
        }
        i = i + 1;
    }
    proof {
        let j = v@.index_of(x);
        assert(v@[j] == x);
    }
    0
}

proof fn lemma_split_root(
    n: Map<ViewId, Node>,
    n1: Map<ViewId, Node>,
    d: Map<ViewId, nat>,
    root: ViewId,
    f: ViewId,
)
    requires
        shape_ok(n, d, root, root),
        !n.contains_key(f),
        n1.dom() == n.dom().insert(f),
        n1[f].parent == root,
        !n1[f].is_container(),
        n1[root].parent == root,
        n1[root].is_container(),
        n1[root].children() == seq![f],
        forall|id: ViewId| n.contains_key(id) && id != root ==> n1[id] == n[id],
    ensures
        shape_ok(n1, d.insert(f, 1), root, f),
{
    let d1 = d.insert(f, 1);
    assert(node_ok(n, d, root, root));
    assert(n1[root].children()[0] == f);
    assert forall|id: ViewId| n1.contains_key(id) implies #[trigger] node_ok(n1, d1, root, id) by {
        if id != f && id != root {
            assert(node_ok(n, d, root, id));
            let p = n[id].parent;
            assert(node_ok(n, d, root, p));
            if p == root {
                assert(n[root].children().contains(id));
            }
            if n[id].is_container() {
                assert(children_ok(n, root, id));
                let ch = n[id].children();
                assert forall|i: int| 0 <= i < ch.len() implies n1.contains_key(#[trigger] ch[i])
                    && n1[ch[i]].parent == id && ch[i] != root by {}
            }
        } else if id == root {
            let ch = n1[root].children();
            assert forall|i: int| 0 <= i < ch.len() implies n1.contains_key(#[trigger] ch[i])
                && n1[ch[i]].parent == root && ch[i] != root by {}
        }
    }
}

proof fn lemma_split_same(
    n: Map<ViewId, Node>,
    n1: Map<ViewId, Node>,
    d: Map<ViewId, nat>,
    root: ViewId,
    focuse: ViewId,
    f: ViewId,
    pos: int,
)
    requires
        shape_ok(n, d, root, focuse),
        focuse != root,
        !n.contains_key(f),
        0 <= pos < n[n[focuse].parent].children().len(),
        n[n[focuse].parent].children()[pos] == focuse,
        n1.dom() == n.dom().insert(f),
        n1[f].parent == n[focuse].parent,
        !n1[f].is_container(),
        n1[n[focuse].parent].parent == n[n[focuse].parent].parent,
        n1[n[focuse].parent].is_container(),
        n1[n[focuse].parent].children() == n[n[focuse].parent].children().insert(pos + 1, f),
        forall|id: ViewId| n.contains_key(id) && id != n[focuse].parent ==> n1[id] == n[id],
    ensures
        shape_ok(n1, d.insert(f, d[n[focuse].parent] + 1), root, f),
{
    let p = n[focuse].parent;
    let d1 = d.insert(f, d[p] + 1);
    let old_ch = n[p].children();
    let new_ch = n1[p].children();
    assert(node_ok(n, d, root, focuse));
    assert(node_ok(n, d, root, p));
    assert(node_ok(n, d, root, root));
    assert(children_ok(n, root, p));
    assert(new_ch[pos + 1] == f);
    assert forall|i: int| 0 <= i < new_ch.len() implies (#[trigger] new_ch[i] == f) == (i == pos + 1) && (i
        != pos + 1 ==> new_ch[i] == old_ch[if i < pos + 1 { i } else { i - 1 }]) by {}
    assert forall|id: ViewId| n1.contains_key(id) implies #[trigger] node_ok(n1, d1, root, id) by {
        if id == f {
            assert(new_ch.contains(f));
        } else if id == p {
            assert forall|i: int| 0 <= i < new_ch.len() implies n1.contains_key(#[trigger] new_ch[i])
                && n1[new_ch[i]].parent == p && new_ch[i] != root by {
                if i != pos + 1 {
                    let k = if i < pos + 1 { i } else { i - 1 };
                    assert(new_ch[i] == old_ch[k]);
                }
            }
            assert(new_ch.no_duplicates()) by {
                assert forall|a: int, b: int| 0 <= a < b < new_ch.len() implies new_ch[a] != new_ch[b] by {
                    if a != pos + 1 && b != pos + 1 {
                        let ka = if a < pos + 1 { a } else { a - 1 };
                        let kb = if b < pos + 1 { b } else { b - 1 };
                        assert(new_ch[a] == old_ch[ka]);
                        assert(new_ch[b] == old_ch[kb]);
                    } else if a == pos + 1 {
                        let kb = b - 1;
                        assert(new_ch[b] == old_ch[kb]);
                    } else {
                        let ka = if a < pos + 1 { a } else { a - 1 };
                        assert(new_ch[a] == old_ch[ka]);
                    }
                }
            }
            if p != root {
                let q = n[p].parent;
                assert(node_ok(n, d, root, q));
                if q == p {
                    assert(d[p] > d[p]);
                }
            }
        } else {
            assert(node_ok(n, d, root, id));
            let q = n[id].parent;
            assert(node_ok(n, d, root, q));
            if q == p && id != root {
                let k = old_ch.index_of(id);
                assert(old_ch[k] == id);
                let i = if k < pos + 1 { k } else { k + 1 };
                assert(new_ch[i] == id);
            }
            if n[id].is_container() {
                assert(children_ok(n, root, id));
                let ch = n[id].children();
                assert forall|i: int| 0 <= i < ch.len() implies n1.contains_key(#[trigger] ch[i])
                    && n1[ch[i]].parent == id && ch[i] != root by {}
            }
        }
    }
}

proof fn lemma_split_nested(
    n: Map<ViewId, Node>,
    n1: Map<ViewId, Node>,
    d: Map<ViewId, nat>,
    root: ViewId,
    focuse: ViewId,
    sp: ViewId,
    f: ViewId,
    pos: int,
)
    requires
        shape_ok(n, d, root, focuse),
        focuse != root,
        !n.contains_key(sp),
        !n.contains_key(f),
        sp != f,
        0 <= pos < n[n[focuse].parent].children().len(),
        n[n[focuse].parent].children()[pos] == focuse,
        n1.dom() == n.dom().insert(sp).insert(f),
        n1[sp].parent == n[focuse].parent,
        n1[sp].is_container(),
        n1[sp].children() == seq![focuse, f],
        n1[f].parent == sp,
        !n1[f].is_container(),
        n1[focuse].parent == sp,
        n1[focuse].data == n[focuse].data,
        n1[n[focuse].parent].parent == n[n[focuse].parent].parent,
        n1[n[focuse].parent].is_container(),
        n1[n[focuse].parent].children() == n[n[focuse].parent].children().update(pos, sp),
        forall|id: ViewId|
            n.contains_key(id) && id != n[focuse].parent && id != focuse ==> n1[id] == n[id],
    ensures
        shape_ok(
            n1,
            d.insert(sp, d[focuse]).insert(focuse, d[focuse] + 1).insert(f, d[focuse] + 1),
            root,
            f,
        ),
{
    let p = n[focuse].parent;
    let d1 = d.insert(sp, d[focuse]).insert(focuse, d[focuse] + 1).insert(f, d[focuse] + 1);
    let old_ch = n[p].children();
    let new_ch = n1[p].children();
    assert(node_ok(n, d, root, focuse));
    assert(node_ok(n, d, root, p));
    assert(node_ok(n, d, root, root));
    assert(children_ok(n, root, p));
    assert(new_ch[pos] == sp);
    assert(n1[sp].children()[0] == focuse);
    assert(n1[sp].children()[1] == f);
    assert forall|id: ViewId| n1.contains_key(id) implies #[trigger] node_ok(n1, d1, root, id) by {
        if id == f {
            assert(n1[sp].children().contains(f));
        } else if id == sp {
            assert(new_ch.contains(sp));
            let ch = n1[sp].children();
            assert forall|i: int| 0 <= i < ch.len() implies n1.contains_key(#[trigger] ch[i])
                && n1[ch[i]].parent == sp && ch[i] != root by {}
        } else if id == focuse {
            assert(n1[sp].children().contains(focuse));
        } else if id == p {
            assert forall|i: int| 0 <= i < new_ch.len() implies n1.contains_key(#[trigger] new_ch[i])
                && n1[new_ch[i]].parent == p && new_ch[i] != root by {
                if i != pos {
                    assert(new_ch[i] == old_ch[i]);
                    assert(old_ch[i] != focuse);
                }
            }
            assert(new_ch.no_duplicates()) by {
                assert forall|a: int, b: int| 0 <= a < b < new_ch.len() implies new_ch[a] != new_ch[b] by {
                    if a != pos && b != pos {
                        assert(old_ch[a] != old_ch[b]);
                    } else if a == pos {
                        assert(n.contains_key(old_ch[b]));
                    } else {
                        assert(n.contains_key(old_ch[a]));
                    }
                }
            }
            if p != root {
                let q = n[p].parent;
                assert(node_ok(n, d, root, q));
                if q == p {
                    assert(d[p] > d[p]);
                }
            }
        } else {
            assert(node_ok(n, d, root, id));
            let q = n[id].parent;
            assert(node_ok(n, d, root, q));
            if q == p && id != root {
                let k = old_ch.index_of(id);
                assert(old_ch[k] == id);
                assert(k != pos);
                assert(new_ch[k] == id);
            }
            if n[id].is_container() {
                assert(children_ok(n, root, id));
                let ch = n[id].children();
                assert forall|i: int| 0 <= i < ch.len() implies n1.contains_key(#[trigger] ch[i])
                    && n1[ch[i]].parent == id && ch[i] != root && ch[i] != focuse by {
                    assert(node_ok(n, d, root, ch[i]));
                }
            }
        }
    }
}

/// Lays out and holds the panes: a façade over the layout tree.
pub struct Compositor {
    tree: Tree,
}

impl Compositor {
    pub closed spec fn tree(&self) -> Tree {
        self.tree
    }

    pub open spec fn wf(&self) -> bool {
        self.tree().wf()
    }

    /// A compositor with one empty root container spanning `area`.
    pub fn new(area: Rect) -> (r: Compositor)
        ensures
            r.wf(),
            r.tree().focuse() == r.tree().root(),
            r.tree().nodes().dom() == set![r.tree().root()],
            r.tree().nodes()[r.tree().root()].area == area.clamp(),
    {
        Compositor { tree: Tree::new(area) }
    }

    /// Splits the focused pane to show `view` next to it along `layout`;
    /// see `Tree::split`.
    pub fn split_view(&mut self, view: AppView, layout: Layout) -> (ok: bool)
        requires
            old(self).wf(),
        ensures
            final(self).wf(),
            ok == (old(self).tree().nodes().dom().len() < 0xffff_fff0),
            !ok ==> final(self).tree().nodes() == old(self).tree().nodes() && final(self).tree().focuse() == old(self).tree().focuse(),
            ok ==> final(self).tree().nodes()[final(self).tree().focuse()].data == NodeData::View(view),
            ok ==> split_placed(
                old(self).tree().nodes(),
                final(self).tree().nodes(),
                old(self).tree().root(),
                old(self).tree().focuse(),
                final(self).tree().focuse(),
                layout,
            ),
            ok ==> views_kept(old(self).tree().nodes(), final(self).tree().nodes(), final(self).tree().focuse()),
            ok ==> split_frame(old(self).tree().nodes(), final(self).tree().nodes(), old(self).tree().focuse()),
            final(self).tree().root() == old(self).tree().root(),
    {
        self.tree.split(view, layout)
    }

    /// Gives the panes a viewport of `size` cells and recomputes every
    /// rectangle.
    pub fn resize(&mut self, size: (u16, u16))
        requires
            old(self).wf(),
        ensures
            final(self).wf(),
            same_shape(old(self).tree().nodes(), final(self).tree().nodes()),
            final(self).tree().root() == old(self).tree().root(),
            final(self).tree().focuse() == old(self).tree().focuse(),
            final(self).tree().nodes()[final(self).tree().root()].area == (Rect {
                x: 0,
                y: 0,
                width: size.0,
                height: size.1,
            }),
    {
        self.tree.resize(size);
    }

    /// The view of the focused pane, if a pane was split off the root.
    pub fn current_view(&self) -> (r: Option<&AppView>)
        requires
            self.wf(),
        ensures
            self.tree().focuse() == self.tree().root() ==> r.is_none(),
            self.tree().focuse() != self.tree().root() ==> r.is_some() && NodeData::View(*r.unwrap())
                == self.tree().nodes()[self.tree().focuse()].data,
    {
        self.tree.focused_view()
    }

    /// Puts `view` in the focused pane and hands back the one it held.
    pub fn swap_current_view(&mut self, view: AppView) -> (r: Option<AppView>)
        requires
            old(self).wf(),
        ensures
            final(self).wf(),
            final(self).tree().focuse() == old(self).tree().focuse(),
            final(self).tree().root() == old(self).tree().root(),
            old(self).tree().focuse() == old(self).tree().root() ==> r.is_none() && final(self).tree().nodes() == old(self).tree().nodes(),
            old(self).tree().focuse() != old(self).tree().root() ==> r.is_some() && NodeData::View(r.unwrap())
                == old(self).tree().nodes()[old(self).tree().focuse()].data && final(self).tree().nodes()
                == old(self).tree().nodes().insert(
                old(self).tree().focuse(),
                Node {
                    parent: old(self).tree().nodes()[old(self).tree().focuse()].parent,
                    data: NodeData::View(view),
                    area: old(self).tree().nodes()[old(self).tree().focuse()].area,
                },
            ),
    {
        self.tree.swap_focused_view(view)
    }

    /// Closes the focused pane; see `Tree::remove`.
    pub fn remove(&mut self) -> (ok: bool)
        requires
            old(self).wf(),
        ensures
            final(self).wf(),
            final(self).tree().root() == old(self).tree().root(),
            ok == removable(old(self).tree().nodes(), old(self).tree().root(), old(self).tree().focuse()),
            !ok ==> final(self).tree().nodes() == old(self).tree().nodes() && final(self).tree().focuse()
                == old(self).tree().focuse(),
            ok ==> removed_links(old(self).tree().nodes(), final(self).tree().nodes(), old(self).tree().root(), old(self).tree().focuse()),
            ok ==> focus_moved(
                old(self).tree().nodes(),
                final(self).tree().nodes(),
                old(self).tree().root(),
                old(self).tree().focuse(),
                final(self).tree().focuse(),
            ),
            ok ==> final(self).tree().nodes().dom().subset_of(old(self).tree().nodes().dom()),
            ok ==> forall|id: ViewId|
                #[trigger] old(self).tree().nodes().contains_key(id) && !old(self).tree().nodes()[id].is_container()
                    && id != old(self).tree().focuse() ==> final(self).tree().nodes().contains_key(id),
    {
        self.tree.remove()
    }

    /// Adds `view` after the focused pane in its own container; see
    /// `Tree::push`.
    pub fn push(&mut self, view: AppView) -> (ok: bool)
        requires
            old(self).wf(),
        ensures
            final(self).wf(),
            final(self).tree().root() == old(self).tree().root(),
            ok == (old(self).tree().nodes().dom().len() < 0xffff_fff0),
            !ok ==> final(self).tree().nodes() == old(self).tree().nodes() && final(self).tree().focuse()
                == old(self).tree().focuse(),
            ok ==> final(self).tree().nodes()[final(self).tree().focuse()].data == NodeData::View(view),
            ok ==> split_placed(
                old(self).tree().nodes(),
                final(self).tree().nodes(),
                old(self).tree().root(),
                old(self).tree().focuse(),
                final(self).tree().focuse(),
                focus_layout(old(self).tree().nodes(), old(self).tree().root(), old(self).tree().focuse()),
            ),
            ok ==> views_kept(old(self).tree().nodes(), final(self).tree().nodes(), final(self).tree().focuse()),
            ok ==> split_frame(old(self).tree().nodes(), final(self).tree().nodes(), old(self).tree().focuse()),
    {
        self.tree.push(view)
    }

    /// Every view pane with its rectangle, for drawing.
    pub fn panes(&self) -> (r: Vec<(ViewId, Rect)>)
        requires
            self.wf(),
        ensures
            forall|k: int|
                0 <= k < r.len() ==> self.tree().nodes().contains_key(#[trigger] r@[k].0)
                    && !self.tree().nodes()[r@[k].0].is_container() && r@[k].1 == self.tree().nodes()[r@[k].0].area,
            forall|id: ViewId|
                self.tree().nodes().contains_key(id) && !self.tree().nodes()[id].is_container()
                    ==> #[trigger] ids(r@).contains(id),
            ids(r@).no_duplicates(),
    {
        self.tree.leaves()
    }

    /// The pane that has the focus.
    pub fn focused(&self) -> (r: ViewId)
        ensures
            r == self.tree().focuse(),
    {
        self.tree.focused()
    }

    /// The view shown in pane `id`.
    pub fn pane_view(&self, id: ViewId) -> (r: Option<&AppView>)
        requires
            self.wf(),
            self.tree().nodes().contains_key(id),
        ensures
            r matches Some(v) ==> self.tree().nodes()[id].data == NodeData::View(*v),
            r.is_none() == self.tree().nodes()[id].is_container(),
    {
        match &self.tree.node(id).data {
            NodeData::View(v) => Some(v),
            NodeData::Container(_, _) => None,
        }
    }
}

/// The worklist entries for the children of a container with rectangle
/// `target`: each child with its slice.
pub open spec fn entries(ch: Seq<ViewId>, target: Rect, layout: Layout) -> Seq<(ViewId, Rect)> {
    Seq::new(ch.len(), |k: int| (ch[k], slice(target, layout, ch.len() as int, k)))
}

/// The state of a walk that recomputes rectangles from the root: `visited`
/// nodes have their final rectangle, the worklist holds each waiting node with
/// the rectangle it is owed.
pub open spec fn walk_inv(
    n: Map<ViewId, Node>,
    root: ViewId,
    area: Rect,
    visited: Set<ViewId>,
    stack: Seq<(ViewId, Rect)>,
) -> bool {
    &&& visited.subset_of(n.dom())
    &&& forall|j: int|
        0 <= j < stack.len() ==> n.contains_key(#[trigger] stack[j].0) && !visited.contains(stack[j].0)
            && stack[j].1.fits() && (stack[j].0 == root ==> stack[j].1 == area) && (stack[j].0 != root
            ==> visited.contains(n[stack[j].0].parent))
    &&& ids(stack).no_duplicates()
    &&& visited.contains(root) || ids(stack).contains(root)
    &&& visited.contains(root) ==> n[root].area == area
    &&& forall|y: ViewId|
        #[trigger] visited.contains(y) ==> n[y].area.fits() && (y != root ==> visited.contains(
            n[y].parent,
        ))
    &&& forall|c: ViewId, i: int|
        visited.contains(c) && n[c].is_container() && 0 <= i < n[c].children().len() ==> visited.contains(
            #[trigger] n[c].children()[i],
        ) || ids(stack).contains(n[c].children()[i])
    &&& forall|c: ViewId, i: int|
        visited.contains(c) && n[c].is_container() && 0 <= i < n[c].children().len()
            && visited.contains(#[trigger] n[c].children()[i]) ==> n[n[c].children()[i]].area == slice(
            n[c].area,
            n[c].layout(),
            n[c].children().len() as int,
            i,
        )
    &&& forall|j: int, i: int|
        0 <= j < stack.len() && stack[j].0 != root && 0 <= i < n[n[stack[j].0].parent].children().len()
            && #[trigger] n[n[stack[j].0].parent].children()[i] == #[trigger] stack[j].0 ==> stack[j].1
            == slice(
            n[n[stack[j].0].parent].area,
            n[n[stack[j].0].parent].layout(),
            n[n[stack[j].0].parent].children().len() as int,
            i,
        )
}

proof fn lemma_walk_start(
    n: Map<ViewId, Node>,
    d: Map<ViewId, nat>,
    root: ViewId,
    focuse: ViewId,
    area: Rect,
    stack: Seq<(ViewId, Rect)>,
)
    requires
        shape_ok(n, d, root, focuse),
        area.fits(),
        stack == seq![(root, area)],
    ensures
        walk_inv(n, root, area, Set::empty(), stack),
{
    assert(ids(stack) =~= seq![root]);
    assert(ids(stack)[0] == root);
}

/// The entry taken off the worklist is in the tree and not yet visited.
proof fn lemma_walk_popped(
    n: Map<ViewId, Node>,
    root: ViewId,
    area: Rect,
    visited: Set<ViewId>,
    before: Seq<(ViewId, Rect)>,
)
    requires
        walk_inv(n, root, area, visited, before),
        before.len() > 0,
        n.dom().finite(),
    ensures
        n.contains_key(before.last().0),
        !visited.contains(before.last().0),
        before.last().1.fits(),
        visited.insert(before.last().0).len() == visited.len() + 1,
        visited.insert(before.last().0).subset_of(n.dom()),
        visited.insert(before.last().0).len() <= n.dom().len(),
{
    let j = before.len() - 1;
    assert(n.contains_key(before[j].0));
    vstd::set_lib::lemma_len_subset(visited, n.dom());
    vstd::set_lib::lemma_len_subset(visited.insert(before[j].0), n.dom());
}

proof fn lemma_walk_step(
    n: Map<ViewId, Node>,
    d: Map<ViewId, nat>,
    root: ViewId,
    focuse: ViewId,
    area: Rect,
    visited: Set<ViewId>,
    before: Seq<(ViewId, Rect)>,
)
    requires
        shape_ok(n, d, root, focuse),
        walk_inv(n, root, area, visited, before),
        before.len() > 0,
    ensures
        ({
            let (id, target) = before.last();
            let n1 = n.insert(id, Node { parent: n[id].parent, data: n[id].data, area: target });
            let stack = before.drop_last() + entries(n[id].children(), target, n[id].layout());
            &&& same_shape(n, n1)
            &&& shape_ok(n1, d, root, focuse)
            &&& walk_inv(n1, root, area, visited.insert(id), stack)
        }),
{
    let (id, target) = before.last();
    let n1 = n.insert(id, Node { parent: n[id].parent, data: n[id].data, area: target });
    let base = before.drop_last();
    let ch = n[id].children();
    let lay = n[id].layout();
    let new = entries(ch, target, lay);
    let stack = base + new;
    let v1 = visited.insert(id);
    let last = before.len() - 1;
    assert(n.contains_key(before[last].0));
    assert(n1.dom() =~= n.dom());
    assert(same_shape(n, n1));
    lemma_same_shape_ok(n, n1, d, root, focuse);
    assert(node_ok(n, d, root, id));
    assert forall|j: int| 0 <= j < before.len() implies #[trigger] ids(before)[j] == before[j].0 by {}
    assert forall|j: int| 0 <= j < stack.len() implies #[trigger] ids(stack)[j] == stack[j].0 by {}
    assert forall|j: int| 0 <= j < base.len() implies #[trigger] stack[j] == before[j] by {}
    assert forall|k: int| 0 <= k < new.len() implies #[trigger] stack[base.len() + k] == new[k] by {}
    // the children of `id` are neither the root, nor visited, nor waiting
    assert forall|k: int| 0 <= k < ch.len() implies #[trigger] ch[k] != root && !visited.contains(ch[k])
        && ch[k] != id && !ids(base).contains(ch[k]) && n.contains_key(ch[k]) && n[ch[k]].parent == id by {
        assert(n[id].is_container());
        assert(children_ok(n, root, id));
        if id != root {
            assert(d[id] > d[n[id].parent]);
        }
        if ids(base).contains(ch[k]) {
            let j = ids(base).index_of(ch[k]);
            assert(before[j].0 == ch[k]);
        }
    }
    assert forall|j: int| 0 <= j < stack.len() implies n1.contains_key(#[trigger] stack[j].0)
        && !v1.contains(stack[j].0) && stack[j].1.fits() && (stack[j].0 == root ==> stack[j].1 == area)
        && (stack[j].0 != root ==> v1.contains(n1[stack[j].0].parent)) by {
        if j >= base.len() {
            let k = j - base.len();
            assert(stack[base.len() + k] == new[k]);
            lemma_slice_fits(target, lay, ch.len() as int, k);
        } else {
            assert(stack[j] == before[j]);
            assert(ids(before)[j] != ids(before)[last]);
        }
    }
    assert forall|a: int, b: int| 0 <= a < b < stack.len() implies ids(stack)[a] != ids(stack)[b] by {
        if b < base.len() {
            assert(ids(before)[a] != ids(before)[b]);
        } else if a < base.len() {
            let kb = b - base.len();
            assert(stack[base.len() + kb] == new[kb]);
            assert(ids(base)[a] == base[a].0);
        } else {
            let ka = a - base.len();
            let kb = b - base.len();
            assert(stack[base.len() + ka] == new[ka]);
            assert(stack[base.len() + kb] == new[kb]);
        }
    }
    assert(ids(stack).no_duplicates());
    if !visited.contains(root) && id != root {
        let j = ids(before).index_of(root);
        assert(before[j].0 == root);
        assert(stack[j] == before[j]);
        assert(ids(stack)[j] == root);
    }
    if id == root {
        assert(before[last].0 == root);
    }
    assert forall|y: ViewId| #[trigger] v1.contains(y) implies n1[y].area.fits() && (y != root
        ==> v1.contains(n1[y].parent)) by {
        if y == id {
            assert(before[last].0 == id);
        }
    }
    assert forall|c: ViewId, i: int|
        v1.contains(c) && n1[c].is_container() && 0 <= i < n1[c].children().len()
        implies v1.contains(#[trigger] n1[c].children()[i]) || ids(stack).contains(n1[c].children()[i]) by {
        let y = n1[c].children()[i];
        if c == id {
            assert(stack[base.len() + i] == new[i]);
            assert(ids(stack)[base.len() + i] == y);
        } else {
            assert(n1[c] == n[c]);
            if !visited.contains(y) && y != id {
                let j = ids(before).index_of(y);
                assert(j != last);
                assert(stack[j] == before[j]);
                assert(ids(stack)[j] == y);
            }
        }
    }
    assert forall|c: ViewId, i: int|
        v1.contains(c) && n1[c].is_container() && 0 <= i < n1[c].children().len()
        && v1.contains(#[trigger] n1[c].children()[i]) implies n1[n1[c].children()[i]].area == slice(
        n1[c].area, n1[c].layout(), n1[c].children().len() as int, i) by {
        let y = n1[c].children()[i];
        if c != id {
            assert(n1[c] == n[c]);
            if y == id {
                assert(before[last] == (id, target));
                assert(node_ok(n, d, root, c));
                assert(children_ok(n, root, c));
                assert(id != root);
                assert(n[id].parent == c);
            }
        }
    }
    assert forall|j: int, i: int|
        0 <= j < stack.len() && stack[j].0 != root && 0 <= i < n1[n1[stack[j].0].parent].children().len()
            && #[trigger] n1[n1[stack[j].0].parent].children()[i] == #[trigger] stack[j].0 implies stack[j].1
            == slice(
            n1[n1[stack[j].0].parent].area,
            n1[n1[stack[j].0].parent].layout(),
            n1[n1[stack[j].0].parent].children().len() as int,
            i) by {
        if j >= base.len() {
            let k = j - base.len();
            assert(stack[base.len() + k] == new[k]);
            assert(children_ok(n, root, id));
            assert(ch[k] == ch[i]);
        } else {
            assert(stack[j] == before[j]);
            let p = n[stack[j].0].parent;
            assert(visited.contains(p));
            assert(n1[p] == n[p]);
        }
    }
}

proof fn lemma_walk_done(t: &Tree, visited: Set<ViewId>, area: Rect)
    requires
        t.shape_wf(),
        walk_inv(t.nodes(), t.root(), area, visited, seq![]),
    ensures
        areas_ok(t.nodes()),
        t.nodes()[t.root()].area == area,
{
    let n = t.nodes();
    let root = t.root();
    let empty: Seq<(ViewId, Rect)> = seq![];
    assert(ids(empty) =~= seq![]);
    assert forall|c: ViewId, i: int|
        visited.contains(c) && n.contains_key(c) && n[c].is_container()
        && 0 <= i < n[c].children().len() implies visited.contains(#[trigger] n[c].children()[i]) by {
        if ids(empty).contains(n[c].children()[i]) {
            let j = ids(empty).index_of(n[c].children()[i]);
        }
    }
    if !visited.contains(root) {
        let j = ids(empty).index_of(root);
    }
    assert forall|id: ViewId| n.contains_key(id) implies visited.contains(id) by {
        t.lemma_closed_covers(visited, id);
    }
    assert forall|id: ViewId| n.contains_key(id) implies (#[trigger] n[id]).area.fits()
        && (n[id].is_container() ==> tiled(n, id)) by {
        assert(visited.contains(id));
        if n[id].is_container() {
            assert forall|i: int| 0 <= i < n[id].children().len() implies n[#[trigger] n[id].children()[i]].area
                == slice(n[id].area, n[id].layout(), n[id].children().len() as int, i) by {
                assert(node_ok(n, t.depths(), root, id));
                assert(children_ok(n, root, id));
                assert(n.contains_key(n[id].children()[i]));
                assert(visited.contains(n[id].children()[i]));
            }
        }
    }
}

} // verus!
