//! Bindings from key sequences to commands, and the recorder of the keys typed
//! in normal mode.

use vstd::prelude::*;
use crate::key::Key;
use crate::key::KeyCode;

verus! {

/// The most keys a recorder holds.
pub const MAX_COMBO_DEPTH: usize = 8;

/// What a key binding does, applied by the event loop.
#[derive(Debug, Clone, Copy, PartialEq, Eq, Structural)]
pub enum Command {
    /// Split the focused pane and show a new login form beside it.
    SplitVertical,
    /// Switch to insert mode.
    InsertMode,
}

/// A node of the binding trie: the key on the edge from its parent, and the
/// command bound to the path that ends here, if any. Node 0 is the root.
struct ComboNode {
    key: Key,
    parent: usize,
    callback: Option<Command>,
}

/// The keys on the way from the root down to node `j`.
spec fn path_of(nodes: Seq<ComboNode>, j: int) -> Seq<Key>
    decreases j,
{
    if j <= 0 || j >= nodes.len() || nodes[j].parent >= j {
        seq![]
    } else {
        path_of(nodes, nodes[j].parent as int).push(nodes[j].key)
    }
}

/// Every node but the root hangs below an earlier node, and no two children
/// of one node share a key.
spec fn trie_ok(nodes: Seq<ComboNode>) -> bool {
    &&& nodes.len() >= 1
    &&& forall|j: int| 1 <= j < nodes.len() ==> (#[trigger] nodes[j]).parent < j
    &&& forall|i: int, j: int|
        1 <= i < nodes.len() && 1 <= j < nodes.len() && i != j && (#[trigger] nodes[i]).parent
            == (#[trigger] nodes[j]).parent ==> nodes[i].key != nodes[j].key
}

/// The command bound to the path `s`, if a node ends it and holds one.
spec fn bound(nodes: Seq<ComboNode>, s: Seq<Key>) -> Option<Command> {
    if exists|j: int| 0 <= j < nodes.len() && path_of(nodes, j) == s {
        nodes[choose|j: int| 0 <= j < nodes.len() && path_of(nodes, j) == s].callback
    } else {
        None
    }
}

proof fn lemma_path_len(nodes: Seq<ComboNode>, j: int)
    requires
        trie_ok(nodes),
        1 <= j < nodes.len(),
    ensures
        path_of(nodes, j).len() == path_of(nodes, nodes[j].parent as int).len() + 1,
        path_of(nodes, j).len() >= 1,
        path_of(nodes, j).drop_last() == path_of(nodes, nodes[j].parent as int),
        path_of(nodes, j).last() == nodes[j].key,
{
    assert(nodes[j].parent < j);
    assert(path_of(nodes, j).drop_last() =~= path_of(nodes, nodes[j].parent as int));
}

/// Distinct nodes have distinct paths.
proof fn lemma_path_injective(nodes: Seq<ComboNode>, i: int, j: int)
    requires
        trie_ok(nodes),
        0 <= i < nodes.len(),
        0 <= j < nodes.len(),
        path_of(nodes, i) == path_of(nodes, j),
    ensures
        i == j,
    decreases path_of(nodes, i).len(),
{
    if i == 0 {
        if j != 0 {
            lemma_path_len(nodes, j);
        }
    } else if j == 0 {
        lemma_path_len(nodes, i);
    } else {
        lemma_path_len(nodes, i);
        lemma_path_len(nodes, j);
        let pi = nodes[i].parent as int;
        let pj = nodes[j].parent as int;
        assert(nodes[i].parent < i);
        assert(nodes[j].parent < j);
        lemma_path_injective(nodes, pi, pj);
    }
}

/// Every prefix of a node's path is the path of a node.
proof fn lemma_prefix_node(nodes: Seq<ComboNode>, j: int, k: int)
    requires
        trie_ok(nodes),
        0 <= j < nodes.len(),
        0 <= k <= path_of(nodes, j).len(),
    ensures
        exists|a: int| 0 <= a < nodes.len() && path_of(nodes, a) == path_of(nodes, j).subrange(0, k),
    decreases j,
{
    if k == path_of(nodes, j).len() {
        assert(path_of(nodes, j).subrange(0, k) =~= path_of(nodes, j));
    } else {
        if j == 0 {
            assert(false);
        }
        lemma_path_len(nodes, j);
        let p = nodes[j].parent as int;
        assert(nodes[j].parent < j);
        lemma_prefix_node(nodes, p, k);
        assert(path_of(nodes, j).subrange(0, k) =~= path_of(nodes, p).subrange(0, k));
    }
}

/// Paths of the first nodes stay when later nodes are added or a callback
/// changes.
proof fn lemma_paths_kept(a: Seq<ComboNode>, b: Seq<ComboNode>, j: int)
    requires
        a.len() <= b.len(),
        forall|k: int| 0 <= k < a.len() ==> (#[trigger] b[k]).parent == a[k].parent && b[k].key == a[k].key,
        0 <= j < a.len(),
    ensures
        path_of(b, j) == path_of(a, j),
    decreases j,
{
    if j > 0 && a[j].parent < j {
        lemma_paths_kept(a, b, a[j].parent as int);
    }
}

/// The command bound at a node's own path is the node's.
proof fn lemma_bound_at(nodes: Seq<ComboNode>, j: int)
    requires
        trie_ok(nodes),
        0 <= j < nodes.len(),
    ensures
        bound(nodes, path_of(nodes, j)) == nodes[j].callback,
{
    let s = path_of(nodes, j);
    let c = choose|c: int| 0 <= c < nodes.len() && path_of(nodes, c) == s;
    lemma_path_injective(nodes, c, j);
}

/// A binding table: a trie over keys whose nodes may hold a command.
pub struct ComboRegister {
    nodes: Vec<ComboNode>,
}

impl ComboRegister {
    /// The bound sequences and their commands.
    pub closed spec fn view(&self) -> Map<Seq<Key>, Command> {
        Map::new(|s: Seq<Key>| bound(self.nodes@, s).is_some(), |s: Seq<Key>| bound(self.nodes@, s).unwrap())
    }

    pub closed spec fn wf(&self) -> bool {
        trie_ok(self.nodes@)
    }

    /// A table with no binding.
    pub fn new() -> (r: ComboRegister)
        ensures
            r.wf(),
            r.view() == Map::<Seq<Key>, Command>::empty(),
    {
        let mut nodes: Vec<ComboNode> = Vec::new();
        nodes.push(ComboNode { key: Key::from_code(KeyCode::Esc), parent: 0, callback: None });
        let r = ComboRegister { nodes };
        proof {
            assert forall|s: Seq<Key>| !(#[trigger] bound(r.nodes@, s)).is_some() by {
                if exists|j: int| 0 <= j < r.nodes@.len() && path_of(r.nodes@, j) == s {
                    let c = choose|j: int| 0 <= j < r.nodes@.len() && path_of(r.nodes@, j) == s;
                    assert(c == 0);
                }
            }
            assert(r.view() =~= Map::<Seq<Key>, Command>::empty());
        }
        r
    }

    /// The child of node `cur` along `key`, if there is one.
    fn find_child(&self, cur: usize, key: Key) -> (r: Option<usize>)
        requires
            self.wf(),
        ensures
            r matches Some(c) ==> 1 <= c < self.nodes@.len() && self.nodes@[c as int].parent == cur
                && self.nodes@[c as int].key == key,
            r.is_none() ==> forall|j: int|
                1 <= j < self.nodes@.len() ==> !(self.nodes@[j].parent == cur && self.nodes@[j].key == key),
    {
        let mut j: usize = 1;
        while j < self.nodes.len()
            invariant
                1 <= j <= self.nodes@.len(),
                forall|k: int| 1 <= k < j ==> !(self.nodes@[k].parent == cur && self.nodes@[k].key == key),
            decreases self.nodes.len() - j,
        {
            if self.nodes[j].parent == cur && self.nodes[j].key == key {
                return Some(j);
            }
            j = j + 1;
        }
        None
    }

    /// No node ends a path that extends the path of `cur` by a key that
    /// `cur` has no child for.
    proof fn lemma_no_path(&self, cur: int, keys: Seq<Key>, i: int)
        requires
            self.wf(),
            0 <= cur < self.nodes@.len(),
            0 <= i < keys.len(),
            path_of(self.nodes@, cur) == keys.subrange(0, i),
            forall|j: int|
                1 <= j < self.nodes@.len() ==> !(self.nodes@[j].parent == cur && self.nodes@[j].key == keys[i]),
        ensures
            forall|j: int| 0 <= j < self.nodes@.len() ==> path_of(self.nodes@, j) != keys,
    {
        let nodes = self.nodes@;
        assert forall|j: int| 0 <= j < nodes.len() implies path_of(nodes, j) != keys by {
            if path_of(nodes, j) == keys {
                lemma_prefix_node(nodes, j, i + 1);
                let a = choose|a: int| 0 <= a < nodes.len() && path_of(nodes, a) == path_of(nodes, j).subrange(0, i + 1);
                assert(path_of(nodes, a).len() == i + 1);
                if a == 0 {
                    assert(false);
                }
                lemma_path_len(nodes, a);
                assert(path_of(nodes, a).drop_last() =~= keys.subrange(0, i));
                lemma_path_injective(nodes, nodes[a].parent as int, cur);
                assert(path_of(nodes, a).last() == keys[i]);
            }
        }
    }

    /// Binds `keys` to `callback`; a binding of the same sequence is
    /// replaced. Missing nodes along the way are added.
    pub fn add(&mut self, keys: Vec<Key>, callback: Command)
        requires
            old(self).wf(),
        ensures
            final(self).wf(),
            final(self).view() == old(self).view().insert(keys@, callback),
    {
        let ghost start = self.nodes@;
        let mut cur: usize = 0;
        let mut i: usize = 0;
        proof {
            assert(keys@.subrange(0, 0) =~= Seq::<Key>::empty());
        }
        while i < keys.len()
            invariant
                trie_ok(self.nodes@),
                0 <= i <= keys@.len(),
                cur < self.nodes@.len(),
                path_of(self.nodes@, cur as int) == keys@.subrange(0, i as int),
                start.len() <= self.nodes@.len(),
                forall|k: int| 0 <= k < start.len() ==> #[trigger] self.nodes@[k] == start[k],
                forall|k: int| start.len() <= k < self.nodes@.len() ==> (#[trigger] self.nodes@[k]).callback.is_none(),
                trie_ok(start),
            decreases keys.len() - i,
        {
            let key = keys[i];
            match self.find_child(cur, key) {
                Some(c) => {
                    proof {
                        lemma_path_len(self.nodes@, c as int);
                        assert(path_of(self.nodes@, c as int) =~= keys@.subrange(0, i + 1));
                    }
                    cur = c;
                },
                None => {
                    let ghost before = self.nodes@;
                    let n = self.nodes.len();
                    self.nodes.push(ComboNode { key, parent: cur, callback: None });
                    proof {
                        let now = self.nodes@;
                        assert forall|k: int| 0 <= k < before.len() implies (#[trigger] now[k]).parent == before[k].parent
                            && now[k].key == before[k].key by {
                            assert(now[k] == before[k]);
                        }
                        lemma_paths_kept(before, now, cur as int);
                        assert(now[n as int].parent < n);
                        assert(path_of(now, n as int) =~= keys@.subrange(0, i + 1));
                        assert forall|a: int, b: int|
                            1 <= a < now.len() && 1 <= b < now.len() && a != b && (#[trigger] now[a]).parent
                                == (#[trigger] now[b]).parent implies now[a].key != now[b].key by {
                            if a != n && b != n {
                                assert(now[a] == before[a] && now[b] == before[b]);
                            } else if a == n {
                                assert(now[b] == before[b]);
                            } else {
                                assert(now[a] == before[a]);
                            }
                        }
                        assert forall|k: int| 1 <= k < now.len() implies (#[trigger] now[k]).parent < k by {
                            if k != n {
                                assert(now[k] == before[k]);
                            }
                        }
                    }
                    cur = n;
                },
            }
            i = i + 1;
        }
        let ghost walked = self.nodes@;
        let old_node_key = self.nodes[cur].key;
        let old_node_parent = self.nodes[cur].parent;
        self.nodes.set(cur, ComboNode { key: old_node_key, parent: old_node_parent, callback: Some(callback) });
        proof {
            let fin = self.nodes@;
            let k = keys@;
            assert(k.subrange(0, k.len() as int) =~= k);
            assert forall|x: int| 0 <= x < walked.len() implies (#[trigger] fin[x]).parent == walked[x].parent
                && fin[x].key == walked[x].key by {}
            assert forall|x: int| 0 <= x < walked.len() implies path_of(fin, x) == path_of(walked, x) by {
                lemma_paths_kept(walked, fin, x);
            }
            assert forall|x: int| 1 <= x < fin.len() implies (#[trigger] fin[x]).parent < x by {
                assert(fin[x].parent == walked[x].parent);
            }
            assert forall|a: int, b: int|
                1 <= a < fin.len() && 1 <= b < fin.len() && a != b && (#[trigger] fin[a]).parent
                    == (#[trigger] fin[b]).parent implies fin[a].key != fin[b].key by {
                assert(fin[a].parent == walked[a].parent && fin[b].parent == walked[b].parent);
            }
            assert(trie_ok(fin));
            assert forall|x: int| 0 <= x < start.len() implies path_of(walked, x) == path_of(start, x) by {
                assert forall|y: int| 0 <= y < start.len() implies (#[trigger] walked[y]).parent == start[y].parent
                    && walked[y].key == start[y].key by {
                    assert(walked[y] == start[y]);
                }
                lemma_paths_kept(start, walked, x);
            }
            assert forall|s: Seq<Key>| #[trigger] bound(fin, s) == (if s == k { Some(callback) } else { bound(start, s) }) by {
                if s == k {
                    lemma_bound_at(fin, cur as int);
                } else if exists|j: int| 0 <= j < fin.len() && path_of(fin, j) == s {
                    let j = choose|j: int| 0 <= j < fin.len() && path_of(fin, j) == s;
                    lemma_bound_at(fin, j);
                    assert(j != cur);
                    if j < start.len() {
                        assert(path_of(start, j) == s);
                        lemma_bound_at(start, j);
                        assert(fin[j] == walked[j]);
                    } else {
                        assert(fin[j] == walked[j]);
                        if exists|q: int| 0 <= q < start.len() && path_of(start, q) == s {
                            let q = choose|q: int| 0 <= q < start.len() && path_of(start, q) == s;
                            assert(path_of(fin, q) == s);
                            lemma_path_injective(fin, q, j);
                        }
                    }
                } else {
                    if exists|q: int| 0 <= q < start.len() && path_of(start, q) == s {
                        let q = choose|q: int| 0 <= q < start.len() && path_of(start, q) == s;
                        assert(path_of(fin, q) == s);
                    }
                }
            }
            assert(self.view() =~= old(self).view().insert(k, callback));
        }
    }

    /// The command bound to exactly `keys`: neither a prefix nor a longer
    /// sequence stands in for it.
    pub fn get(&self, keys: &[Key]) -> (r: Option<Command>)
        requires
            self.wf(),
        ensures
            r == (if self.view().contains_key(keys@) { Some(self.view()[keys@]) } else { None }),
    {
        let mut cur: usize = 0;
        let mut i: usize = 0;
        proof {
            assert(keys@.subrange(0, 0) =~= Seq::<Key>::empty());
        }
        while i < keys.len()
            invariant
                self.wf(),
                0 <= i <= keys@.len(),
                cur < self.nodes@.len(),
                path_of(self.nodes@, cur as int) == keys@.subrange(0, i as int),
            decreases keys.len() - i,
        {
            match self.find_child(cur, keys[i]) {
                Some(c) => {
                    proof {
                        lemma_path_len(self.nodes@, c as int);
                        assert(path_of(self.nodes@, c as int) =~= keys@.subrange(0, i + 1));
                    }
                    cur = c;
                },
                None => {
                    proof {
                        self.lemma_no_path(cur as int, keys@, i as int);
                    }
                    return None;
                },
            }
            i = i + 1;
        }
        proof {
            assert(keys@.subrange(0, i as int) =~= keys@);
            lemma_bound_at(self.nodes@, cur as int);
        }
        self.nodes[cur].callback
    }
}

/// A table built by `new` and `add` calls whose sequences are all non-empty
/// binds nothing to the empty sequence, so the empty recorder that escape
/// leaves never fires a command: `new` starts with no binding, and each such
/// `add` keeps the empty sequence unbound.
pub proof fn lemma_empty_sequence_stays_unbound(m: Map<Seq<Key>, Command>, keys: Seq<Key>, callback: Command)
    requires
        !m.contains_key(Seq::<Key>::empty()),
        keys.len() > 0,
    ensures
        !m.insert(keys, callback).contains_key(Seq::<Key>::empty()),
{
    assert(keys != Seq::<Key>::empty());
}

/// The recorder after one key: escape empties it; another key is kept while
/// there is room.
pub open spec fn record_key(r: Seq<Key>, key: Key) -> Seq<Key> {
    if key.keycode == KeyCode::Esc {
        seq![]
    } else if r.len() < MAX_COMBO_DEPTH {
        r.push(key)
    } else {
        r
    }
}

/// The recorder after a sequence of keys.
pub open spec fn record_keys(r: Seq<Key>, keys: Seq<Key>) -> Seq<Key>
    decreases keys.len(),
{
    if keys.len() == 0 {
        r
    } else {
        record_key(record_keys(r, keys.drop_last()), keys.last())
    }
}

/// Whatever the recorder held and whatever keys came before, a sequence of
/// keys that ends in escape leaves the recorder empty.
pub proof fn lemma_escape_clears(r: Seq<Key>, keys: Seq<Key>)
    requires
        keys.len() > 0,
        keys.last().keycode == KeyCode::Esc,
    ensures
        record_keys(r, keys) == Seq::<Key>::empty(),
{
    assert(record_keys(r, keys) =~= Seq::<Key>::empty());
}

/// The keys typed in normal mode that wait for a binding, at most
/// `MAX_COMBO_DEPTH` of them.
pub struct ComboRecorder {
    keys: Vec<Key>,
}

impl ComboRecorder {
    pub closed spec fn view(&self) -> Seq<Key> {
        self.keys@
    }

    pub closed spec fn wf(&self) -> bool {
        self.keys@.len() <= MAX_COMBO_DEPTH
    }

    /// An empty recorder.
    pub fn new() -> (r: ComboRecorder)
        ensures
            r.wf(),
            r.view() == Seq::<Key>::empty(),
    {
        ComboRecorder { keys: Vec::with_capacity(MAX_COMBO_DEPTH) }
    }

    /// Whether no key is recorded.
    pub fn is_mepty(&self) -> (r: bool)
        ensures
            r == (self.view().len() == 0),
    {
        self.keys.len() == 0
    }

    /// Records `key`. Escape empties the recorder; another key is kept unless
    /// the recorder is full, in which case nothing changes and `false` comes
    /// back.
    pub fn push(&mut self, key: Key) -> (r: bool)
        requires
            old(self).wf(),
        ensures
            final(self).wf(),
            final(self).view() == record_key(old(self).view(), key),
            r == (key.keycode == KeyCode::Esc || old(self).view().len() < MAX_COMBO_DEPTH),
    {
        if key.is_esc() {
            self.clear();
            proof {
                assert(self.keys@ =~= Seq::<Key>::empty());
            }
            return true;
        } else if self.keys.len() < MAX_COMBO_DEPTH {
            self.keys.push(key);
            return true;
        }
        false
    }

    /// Forgets every recorded key.
    pub fn clear(&mut self)
        ensures
            final(self).wf(),
            final(self).view() == Seq::<Key>::empty(),
    {
        self.keys.clear();
    }

    /// The recorded keys, oldest first.
    pub fn as_slice(&self) -> (r: &[Key])
        ensures
            r@ == self.view(),
    {
        self.keys.as_slice()
    }
}

/// The binding table under its other name.
pub type Binder = ComboRegister;

/// The key recorder under its other name.
pub type BindBuffer = ComboRecorder;

} // verus!
