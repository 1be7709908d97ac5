//! A notebook's tree held in memory while a plan is applied to it.

use crate::error::{IoError, NbError, NbErrorView};
use crate::paths;
use crate::paths::{parent_path, Folder, Place};
use crate::text;
use vstd::prelude::*;

verus! {

/// An entry of a notebook.
#[derive(Debug, Clone, PartialEq, Eq)]
pub enum VirtualNode {
    File(Vec<u8>),
    Folder,
}

/// The model of a [`VirtualNode`].
pub enum Node {
    File(Seq<u8>),
    Folder,
}

impl View for VirtualNode {
    type V = Node;

    open spec fn view(&self) -> Node {
        match *self {
            VirtualNode::File(b) => Node::File(b@),
            VirtualNode::Folder => Node::Folder,
        }
    }
}

/// The entries of a notebook by notebook-relative path, with `/` between components. Each
/// path occurs once.
#[derive(Debug)]
pub struct VirtualTree {
    nodes: Vec<(String, VirtualNode)>,
}

/// A path and what is there.
pub open spec fn entry(e: (String, VirtualNode)) -> (Seq<char>, Node) {
    (e.0@, e.1@)
}

/// The paths and nodes of a vector of entries.
pub open spec fn entries(v: Seq<(String, VirtualNode)>) -> Seq<(Seq<char>, Node)> {
    v.map_values(|e: (String, VirtualNode)| entry(e))
}

/// Entries as a map.
pub open spec fn as_map(v: Seq<(Seq<char>, Node)>) -> Map<Seq<char>, Node>
    decreases v.len(),
{
    if v.len() == 0 {
        Map::empty()
    } else {
        as_map(v.drop_last()).insert(v.last().0, v.last().1)
    }
}

/// No path occurs twice.
pub open spec fn distinct(v: Seq<(Seq<char>, Node)>) -> bool {
    forall|i: int, j: int| 0 <= i < j < v.len() ==> (#[trigger] v[i]).0 != (#[trigger] v[j]).0
}

/// The map holds exactly the entries.
proof fn lemma_as_map(v: Seq<(Seq<char>, Node)>)
    requires
        distinct(v),
    ensures
        forall|i: int|
            0 <= i < v.len() ==> as_map(v).dom().contains((#[trigger] v[i]).0) && as_map(v)[v[i].0]
                == v[i].1,
        forall|p: Seq<char>|
            as_map(v).dom().contains(p) ==> exists|i: int|
                0 <= i < v.len() && (#[trigger] v[i]).0 == p,
    decreases v.len(),
{
    if v.len() > 0 {
        let w = v.drop_last();
        assert(distinct(w)) by {
            assert forall|i: int, j: int| 0 <= i < j < w.len() implies (#[trigger] w[i]).0 != (
            #[trigger] w[j]).0 by {
                assert(v[i].0 != v[j].0);
            }
        }
        lemma_as_map(w);
        assert forall|i: int| 0 <= i < v.len() implies as_map(v).dom().contains(
            (#[trigger] v[i]).0,
        ) && as_map(v)[v[i].0] == v[i].1 by {
            if i < w.len() {
                assert(w[i] == v[i]);
                assert(v[i].0 != v[v.len() - 1].0);
            }
        }
        assert forall|p: Seq<char>| as_map(v).dom().contains(p) implies exists|i: int|
            0 <= i < v.len() && (#[trigger] v[i]).0 == p by {
            if p == v.last().0 {
                assert(v[v.len() - 1].0 == p);
            } else {
                assert(as_map(w).dom().contains(p));
                let i = choose|i: int| 0 <= i < w.len() && (#[trigger] w[i]).0 == p;
                assert(v[i].0 == p);
            }
        }
    }
}

/// Dropping an entry drops its path from the map.
proof fn lemma_as_map_remove(v: Seq<(Seq<char>, Node)>, k: int)
    requires
        distinct(v),
        0 <= k < v.len(),
    ensures
        as_map(v.remove(k)) == as_map(v).remove(v[k].0),
        distinct(v.remove(k)),
    decreases v.len(),
{
    let w = v.remove(k);
    assert(distinct(w)) by {
        assert forall|i: int, j: int| 0 <= i < j < w.len() implies (#[trigger] w[i]).0 != (
        #[trigger] w[j]).0 by {
            let a = if i < k {
                i
            } else {
                i + 1
            };
            let b = if j < k {
                j
            } else {
                j + 1
            };
            assert(w[i] == v[a] && w[j] == v[b]);
        }
    }
    let init = v.drop_last();
    if k == v.len() - 1 {
        assert(w =~= init);
        assert(distinct(init));
        lemma_as_map(init);
        assert(!as_map(init).dom().contains(v[k].0)) by {
            if as_map(init).dom().contains(v[k].0) {
                let i = choose|i: int| 0 <= i < init.len() && (#[trigger] init[i]).0 == v[k].0;
                assert(v[i].0 != v[k].0);
            }
        }
        assert(as_map(v).remove(v[k].0) =~= as_map(init));
    } else {
        assert(distinct(init)) by {
            assert forall|i: int, j: int| 0 <= i < j < init.len() implies (#[trigger] init[i]).0
                != (#[trigger] init[j]).0 by {
                assert(v[i].0 != v[j].0);
            }
        }
        lemma_as_map_remove(init, k);
        assert(w.drop_last() =~= init.remove(k));
        assert(w.last() == v.last());
        assert(v[k].0 != v[v.len() - 1].0);
        assert(as_map(v).remove(v[k].0) =~= as_map(init).remove(v[k].0).insert(
            v.last().0,
            v.last().1,
        ));
    }
}

/// The non-empty components of a path.
pub open spec fn components(path: Seq<char>) -> Seq<Seq<char>> {
    text::split(path, '/').filter(|p: Seq<char>| p.len() > 0)
}

/// The first `n` components of a path, joined again.
pub open spec fn prefix_of(parts: Seq<Seq<char>>, n: int) -> Seq<char> {
    text::join(parts.take(n), "/"@)
}

/// The map with a folder at each of the first `n` prefixes that is not there yet.
pub open spec fn folders_added(
    m: Map<Seq<char>, Node>,
    parts: Seq<Seq<char>>,
    n: int,
) -> Map<Seq<char>, Node>
    decreases n,
{
    if n <= 0 {
        m
    } else {
        let before = folders_added(m, parts, n - 1);
        let p = prefix_of(parts, n);
        if before.dom().contains(p) {
            before
        } else {
            before.insert(p, Node::Folder)
        }
    }
}

/// The map with every folder on the way to `path`, and `path` itself.
pub open spec fn with_chain(m: Map<Seq<char>, Node>, path: Seq<char>) -> Map<Seq<char>, Node> {
    folders_added(m, components(path), components(path).len() as int)
}

/// The map with every folder above `path`.
pub open spec fn with_parents(m: Map<Seq<char>, Node>, path: Seq<char>) -> Map<Seq<char>, Node> {
    match paths::parent_folder(path) {
        Some(p) => with_chain(m, p),
        None => m,
    }
}

/// The map with a file, and every folder above it.
pub open spec fn with_file(
    m: Map<Seq<char>, Node>,
    path: Seq<char>,
    bytes: Seq<u8>,
) -> Map<Seq<char>, Node> {
    with_parents(m, path).insert(path, Node::File(bytes))
}

/// The map with a folder, and every folder above it.
pub open spec fn with_folder(m: Map<Seq<char>, Node>, path: Seq<char>) -> Map<Seq<char>, Node> {
    with_chain(m, path).insert(path, Node::Folder)
}

/// The map after an entry has moved.
pub open spec fn renamed(m: Map<Seq<char>, Node>, from: Seq<char>, to: Seq<char>) -> Map<
    Seq<char>,
    Node,
> {
    with_parents(m.remove(from), to).insert(to, m[from])
}

/// The non-empty components of a path.
pub fn components_of(path: &str) -> (r: Vec<String>)
    ensures
        text::texts(r@) == components(path@),
{
    let parts = text::split_on(path, '/');
    let ghost all = text::texts(parts@);
    let ghost keep = |p: Seq<char>| p.len() > 0;
    let mut out: Vec<String> = Vec::new();
    let mut i: usize = 0;
    assert(all.take(0).filter(keep) =~= Seq::<Seq<char>>::empty()) by {
        reveal(Seq::filter);
    }
    assert(text::texts(out@) =~= Seq::<Seq<char>>::empty());
    while i < parts.len()
        invariant
            i <= parts.len(),
            all == text::texts(parts@),
            keep == (|p: Seq<char>| p.len() > 0),
            text::texts(out@) == all.take(i as int).filter(keep),
        decreases parts.len() - i,
    {
        proof {
            assert(all.take(i + 1).drop_last() =~= all.take(i as int));
            assert(all.take(i + 1).last() == parts@[i as int]@);
            reveal(Seq::filter);
        }
        if !parts[i].as_str().is_empty() {
            let ghost before = out@;
            out.push(parts[i].clone());
            assert(text::texts(out@) =~= text::texts(before).push(parts@[i as int]@));
        }
        i += 1;
    }
    assert(all.take(all.len() as int) =~= all);
    out
}

/// The prefixes of a path, from its first component to the whole.
pub open spec fn prefixes(path: Seq<char>) -> Seq<Seq<char>> {
    Seq::new(components(path).len(), |k: int| prefix_of(components(path), k + 1))
}

/// The prefixes of a path, from its first component to the whole: what has to be looked at
/// before anything is created at the path.
pub fn path_prefixes(path: &str) -> (r: Vec<String>)
    ensures
        text::texts(r@) == prefixes(path@),
{
    let parts = components_of(path);
    let ghost all = prefixes(path@);
    let ghost c = components(path@);
    let mut acc = String::new();
    let mut out: Vec<String> = Vec::new();
    let mut i: usize = 0;
    assert(c.len() == parts@.len()) by {
        assert(text::texts(parts@).len() == parts@.len());
    }
    assert(c.take(0) =~= Seq::<Seq<char>>::empty());
    assert(text::texts(out@) =~= all.take(0));
    while i < parts.len()
        invariant
            i <= parts.len(),
            text::texts(parts@) == c,
            c == components(path@),
            c.len() == parts@.len(),
            all == prefixes(path@),
            acc@ == prefix_of(c, i as int),
            text::texts(out@) == all.take(i as int),
        decreases parts.len() - i,
    {
        proof {
            assert(c.take(i + 1).drop_last() =~= c.take(i as int));
            assert(c.take(i + 1).last() == parts@[i as int]@);
            assert(text::texts(parts@)[i as int] == parts@[i as int]@);
        }
        if i > 0 {
            acc.append("/");
        }
        acc.append(parts[i].as_str());
        proof {
            if i == 0 {
                assert(acc@ =~= parts@[0]@);
            }
            assert(acc@ == prefix_of(c, i + 1));
        }
        let ghost before = out@;
        out.push(acc.clone());
        proof {
            assert(text::texts(out@) =~= text::texts(before).push(acc@));
            assert(all.take(i + 1) =~= all.take(i as int).push(all[i as int]));
        }
        i += 1;
    }
    assert(all.take(all.len() as int) =~= all);
    out
}

impl View for VirtualTree {
    type V = Map<Seq<char>, Node>;

    closed spec fn view(&self) -> Map<Seq<char>, Node> {
        as_map(entries(self.nodes@))
    }
}

impl VirtualTree {
    #[verifier::type_invariant]
    spec fn sound(self) -> bool {
        distinct(entries(self.nodes@))
    }

    /// A notebook without entries.
    pub fn new() -> (r: Self)
        ensures
            r@ == Map::<Seq<char>, Node>::empty(),
    {
        let nodes: Vec<(String, VirtualNode)> = Vec::new();
        assert(entries(nodes@) =~= Seq::<(Seq<char>, Node)>::empty());
        VirtualTree { nodes }
    }

    /// The index of a path among the entries.
    fn position(&self, path: &str) -> (r: Option<usize>)
        ensures
            match r {
                Some(i) => i < self.nodes@.len() && self.nodes@[i as int].0@ == path@
                    && self@.dom().contains(path@) && self@[path@] == self.nodes@[i as int].1@,
                None => !self@.dom().contains(path@),
            },
    {
        proof {
            use_type_invariant(self);
            lemma_as_map(entries(self.nodes@));
        }
        let ghost v = entries(self.nodes@);
        let mut i: usize = 0;
        while i < self.nodes.len()
            invariant
                i <= self.nodes.len(),
                v == entries(self.nodes@),
                forall|k: int| 0 <= k < i ==> (#[trigger] v[k]).0 != path@,
                forall|k: int|
                    0 <= k < v.len() ==> as_map(v).dom().contains((#[trigger] v[k]).0) && as_map(
                        v,
                    )[v[k].0] == v[k].1,
            decreases self.nodes.len() - i,
        {
            assert(v[i as int] == entry(self.nodes@[i as int]));
            if text::equal(self.nodes[i].0.as_str(), path) {
                return Some(i);
            }
            i += 1;
        }
        None
    }

    /// Whether there is an entry at a path.
    pub fn contains(&self, path: &str) -> (r: bool)
        ensures
            r == self@.dom().contains(path@),
    {
        self.position(path).is_some()
    }

    /// The bytes of the file at a path.
    pub fn get_file(&self, path: &str) -> (r: Option<&Vec<u8>>)
        ensures
            match r {
                Some(b) => self@.dom().contains(path@) && self@[path@] == Node::File(b@),
                None => !self@.dom().contains(path@) || self@[path@] is Folder,
            },
    {
        match self.position(path) {
            Some(i) => {
                match &self.nodes[i].1 {
                    VirtualNode::File(b) => Some(b),
                    VirtualNode::Folder => None,
                }
            },
            None => None,
        }
    }

    /// The number of entries.
    pub closed spec fn count(&self) -> nat {
        self.nodes@.len()
    }

    /// The path at a position of the listing.
    pub closed spec fn path_at(&self, i: int) -> Seq<char> {
        self.nodes@[i].0@
    }

    /// The number of entries. The listing holds every path of the tree, each once.
    pub fn len(&self) -> (r: usize)
        ensures
            r == self.count(),
            forall|i: int|
                0 <= i < self.count() ==> self@.dom().contains(#[trigger] self.path_at(i)),
            forall|p: Seq<char>|
                self@.dom().contains(p) ==> exists|i: int|
                    0 <= i < self.count() && #[trigger] self.path_at(i) == p,
            forall|i: int, j: int|
                0 <= i < j < self.count() ==> #[trigger] self.path_at(i) != #[trigger] self.path_at(
                    j,
                ),
    {
        proof {
            use_type_invariant(self);
            let v = entries(self.nodes@);
            lemma_as_map(v);
            assert forall|i: int| 0 <= i < self.count() implies self@.dom().contains(
                #[trigger] self.path_at(i),
            ) by {
                assert(v[i].0 == self.path_at(i));
            }
            assert forall|p: Seq<char>| self@.dom().contains(p) implies exists|i: int|
                0 <= i < self.count() && #[trigger] self.path_at(i) == p by {
                let i = choose|i: int| 0 <= i < v.len() && (#[trigger] v[i]).0 == p;
                assert(self.path_at(i) == p);
            }
            assert forall|i: int, j: int| 0 <= i < j < self.count() implies #[trigger] self.path_at(
                i,
            ) != #[trigger] self.path_at(j) by {
                assert(v[i].0 != v[j].0);
            }
        }
        self.nodes.len()
    }

    /// The path at a position of the listing.
    pub fn path(&self, i: usize) -> (r: &str)
        requires
            i < self.count(),
        ensures
            r@ == self.path_at(i as int),
    {
        self.nodes[i].0.as_str()
    }

    /// Whether the entry at a position of the listing is a file.
    pub fn is_file(&self, i: usize) -> (r: bool)
        requires
            i < self.count(),
        ensures
            r == (self@[self.path_at(i as int)] is File),
    {
        proof {
            use_type_invariant(self);
            lemma_as_map(entries(self.nodes@));
            assert(entries(self.nodes@)[i as int].0 == self.path_at(i as int));
        }
        matches!(self.nodes[i].1, VirtualNode::File(_))
    }

    /// Take the entry at a path out of the tree.
    fn take(&mut self, path: &str) -> (r: Option<VirtualNode>)
        ensures
            final(self)@ == old(self)@.remove(path@),
            match r {
                Some(n) => old(self)@.dom().contains(path@) && old(self)@[path@] == n@,
                None => !old(self)@.dom().contains(path@),
            },
    {
        let at = self.position(path);
        proof {
            use_type_invariant(&*self);
        }
        match at {
            None => {
                assert(self@ =~= self@.remove(path@));
                None
            },
            Some(i) => {
                let mut nodes: Vec<(String, VirtualNode)> = Vec::new();
                std::mem::swap(&mut nodes, &mut self.nodes);
                let ghost v = entries(nodes@);
                let (_, node) = nodes.remove(i);
                proof {
                    lemma_as_map_remove(v, i as int);
                    assert(entries(nodes@) =~= v.remove(i as int));
                }
                self.nodes = nodes;
                Some(node)
            },
        }
    }

    /// Put an entry at a path, in place of what is there.
    fn put(&mut self, path: String, node: VirtualNode)
        ensures
            final(self)@ == old(self)@.insert(path@, node@),
    {
        let ghost before = self@;
        let _ = self.take(path.as_str());
        let ghost cleared = self@;
        proof {
            use_type_invariant(&*self);
        }
        let mut nodes: Vec<(String, VirtualNode)> = Vec::new();
        std::mem::swap(&mut nodes, &mut self.nodes);
        let ghost v = entries(nodes@);
        let ghost e = (path@, node@);
        nodes.push((path, node));
        proof {
            let w = entries(nodes@);
            assert(w =~= v.push(e));
            assert(w.drop_last() =~= v);
            lemma_as_map(v);
            assert(!as_map(v).dom().contains(e.0));
            assert forall|i: int, j: int| 0 <= i < j < w.len() implies (#[trigger] w[i]).0 != (
            #[trigger] w[j]).0 by {
                if j == v.len() {
                    assert(as_map(v).dom().contains(v[i].0));
                } else {
                    assert(v[i].0 != v[j].0);
                }
            }
            assert(cleared.insert(e.0, e.1) =~= before.insert(e.0, e.1));
        }
        self.nodes = nodes;
    }

    /// Put a folder at every prefix of a path that is not there yet.
    pub fn ensure_folder_chain(&mut self, path: &str)
        ensures
            final(self)@ == with_chain(old(self)@, path@),
    {
        let list = path_prefixes(path);
        let ghost start = self@;
        let ghost parts = components(path@);
        let mut i: usize = 0;
        assert(text::texts(list@).len() == list@.len());
        while i < list.len()
            invariant
                i <= list.len(),
                parts == components(path@),
                text::texts(list@) == prefixes(path@),
                list@.len() == parts.len(),
                self@ == folders_added(start, parts, i as int),
            decreases list.len() - i,
        {
            assert(text::texts(list@)[i as int] == list@[i as int]@);
            assert(list@[i as int]@ == prefix_of(parts, i + 1));
            if !self.contains(list[i].as_str()) {
                self.put(list[i].clone(), VirtualNode::Folder);
            }
            i += 1;
        }
    }

    /// Put a folder at every prefix above a path that is not there yet.
    fn ensure_parents(&mut self, path: &str)
        ensures
            final(self)@ == with_parents(old(self)@, path@),
    {
        match parent_path(path) {
            Some(p) => self.ensure_folder_chain(p.as_str()),
            None => {},
        }
    }

    /// Put a file at a path, and folders above it.
    pub fn insert_file(&mut self, path: &str, bytes: Vec<u8>)
        ensures
            final(self)@ == with_file(old(self)@, path@, bytes@),
    {
        self.ensure_parents(path);
        self.put(path.to_string(), VirtualNode::File(bytes));
    }

    /// Put a folder at a path, and folders above it.
    pub fn insert_folder(&mut self, path: &str)
        ensures
            final(self)@ == with_folder(old(self)@, path@),
    {
        self.ensure_folder_chain(path);
        self.put(path.to_string(), VirtualNode::Folder);
    }

    /// Remove the entry at a path.
    pub fn remove(&mut self, path: &str)
        ensures
            final(self)@ == old(self)@.remove(path@),
    {
        let _ = self.take(path);
    }

    /// Move the entry at a path.
    pub fn rename(&mut self, from: &str, to: &str) -> (r: Result<(), NbError>)
        ensures
            match r {
                Ok(()) => old(self)@.dom().contains(from@) && final(self)@ == renamed(
                    old(self)@,
                    from@,
                    to@,
                ),
                Err(e) => !old(self)@.dom().contains(from@) && final(self)@ == old(self)@ && e@ == (
                NbErrorView::NotFound { selector: from@ }),
            },
    {
        match self.take(from) {
            None => {
                assert(self@ =~= old(self)@);
                Err(NbError::NotFound { selector: from.to_string() })
            },
            Some(node) => {
                self.ensure_parents(to);
                self.put(to.to_string(), node);
                Ok(())
            },
        }
    }
}

/// What is on disk at a listed path.
#[derive(Debug, Clone)]
pub enum DiskKind {
    Symlink,
    Folder,
    File { bytes: Vec<u8> },
    Other,
}

/// A listed path and what is there.
#[derive(Debug, Clone)]
pub struct DiskEntry {
    pub rel: String,
    pub kind: DiskKind,
}

/// The tree of the first `n` listed entries, or the refusal of the first symlink among them.
pub open spec fn snapshot(v: Seq<DiskEntry>, n: int) -> Result<Map<Seq<char>, Node>, NbErrorView>
    decreases n,
{
    if n <= 0 {
        Ok(Map::empty())
    } else {
        match snapshot(v, n - 1) {
            Err(e) => Err(e),
            Ok(m) => {
                let key = paths::normalized(v[n - 1].rel@);
                match v[n - 1].kind {
                    DiskKind::Symlink => Err(
                        NbErrorView::UnsupportedStructure {
                            reason: "notebook path `"@ + key
                                + "` is a symlink; transactions refuse symlink snapshot/materialization"@,
                        },
                    ),
                    DiskKind::Folder => Ok(m.insert(key, Node::Folder)),
                    DiskKind::File { bytes } => Ok(with_file(m, key, bytes@)),
                    DiskKind::Other => Ok(m),
                }
            },
        }
    }
}

proof fn lemma_snapshot_err(v: Seq<DiskEntry>, k: int, n: int)
    requires
        0 <= k <= n,
        snapshot(v, k) is Err,
    ensures
        snapshot(v, n) == snapshot(v, k),
    decreases n - k,
{
    if k < n {
        lemma_snapshot_err(v, k, n - 1);
    }
}

impl VirtualTree {
    /// The tree of the listed entries. A symlink is refused.
    pub fn from_entries(v: &Vec<DiskEntry>) -> (r: Result<Self, NbError>)
        ensures
            match r {
                Ok(t) => snapshot(v@, v@.len() as int) == Ok::<Map<Seq<char>, Node>, NbErrorView>(
                    t@,
                ),
                Err(e) => snapshot(v@, v@.len() as int) == Err::<Map<Seq<char>, Node>, NbErrorView>(
                    e@,
                ),
            },
    {
        let mut tree = VirtualTree::new();
        let mut i: usize = 0;
        while i < v.len()
            invariant
                i <= v.len(),
                snapshot(v@, i as int) == Ok::<Map<Seq<char>, Node>, NbErrorView>(tree@),
            decreases v.len() - i,
        {
            let key = paths::normalize_rel(v[i].rel.as_str());
            match &v[i].kind {
                DiskKind::Symlink => {
                    proof {
                        lemma_snapshot_err(v@, i + 1, v@.len() as int);
                    }
                    return Err(
                        NbError::UnsupportedStructure {
                            reason: text::cat3(
                                "notebook path `",
                                key.as_str(),
                                "` is a symlink; transactions refuse symlink snapshot/materialization",
                            ),
                        },
                    );
                },
                DiskKind::Folder => {
                    tree.put(key, VirtualNode::Folder);
                },
                DiskKind::File { bytes } => {
                    tree.insert_file(key.as_str(), vstd::slice::slice_to_vec(bytes.as_slice()));
                },
                DiskKind::Other => {},
            }
            i += 1;
        }
        Ok(tree)
    }
}

/// What a look at one prefix of a path, without following links, found.
#[derive(Debug, Clone)]
pub enum LinkState {
    Symlink,
    Present,
    Absent,
    Failed { source: IoError },
}

/// The refusal of a path below a symlink, from prefix `i` on; what is known ends with the
/// first prefix that is absent.
pub open spec fn link_refusal(
    root: Place,
    parts: Seq<Seq<char>>,
    states: Seq<LinkState>,
    i: int,
) -> Option<NbErrorView>
    decreases states.len() - i,
{
    if i < 0 || i >= states.len() || i >= parts.len() {
        None
    } else {
        match states[i] {
            LinkState::Symlink => Some(
                NbErrorView::UnsupportedStructure {
                    reason: "refusing path through symlink `"@ + prefix_of(parts, i + 1)
                        + "`; transactions do not follow symlinks"@,
                },
            ),
            LinkState::Present => link_refusal(root, parts, states, i + 1),
            LinkState::Absent => None,
            LinkState::Failed { source } => Some(
                NbErrorView::Io { path: paths::path_below(root, prefix_of(parts, i + 1)), source },
            ),
        }
    }
}

/// Refuse a path when one of its prefixes is a symlink, given what a look at each prefix in
/// order found.
pub fn refuse_symlink_ancestors(root: &Folder, rel: &str, states: &Vec<LinkState>) -> (r: Result<
    (),
    NbError,
>)
    ensures
        match r {
            Ok(()) => link_refusal(root@, components(rel@), states@, 0) is None,
            Err(e) => link_refusal(root@, components(rel@), states@, 0) == Some(e@),
        },
{
    let list = path_prefixes(rel);
    let ghost parts = components(rel@);
    let mut i: usize = 0;
    assert(text::texts(list@).len() == list@.len());
    while i < list.len() && i < states.len()
        invariant
            i <= list.len(),
            i <= states.len(),
            parts == components(rel@),
            text::texts(list@) == prefixes(rel@),
            list@.len() == parts.len(),
            link_refusal(root@, parts, states@, 0) == link_refusal(
                root@,
                parts,
                states@,
                i as int,
            ),
        decreases list.len() - i,
    {
        assert(text::texts(list@)[i as int] == list@[i as int]@);
        assert(list@[i as int]@ == prefix_of(parts, i + 1));
        match &states[i] {
            LinkState::Symlink => {
                return Err(
                    NbError::UnsupportedStructure {
                        reason: text::cat3(
                            "refusing path through symlink `",
                            list[i].as_str(),
                            "`; transactions do not follow symlinks",
                        ),
                    },
                );
            },
            LinkState::Present => {},
            LinkState::Absent => {
                return Ok(());
            },
            LinkState::Failed { source } => {
                return Err(
                    NbError::Io {
                        path: root.join(list[i].as_str()),
                        source: source.clone(),
                    },
                );
            },
        }
        i += 1;
    }
    Ok(())
}

proof fn lemma_folders_added(m: Map<Seq<char>, Node>, parts: Seq<Seq<char>>, n: int, p: Seq<char>)
    ensures
        m.dom().contains(p) ==> folders_added(m, parts, n).dom().contains(p) && folders_added(
            m,
            parts,
            n,
        )[p] == m[p],
        folders_added(m, parts, n).dom().contains(p) && !m.dom().contains(p) ==> folders_added(
            m,
            parts,
            n,
        )[p] is Folder,
    decreases n,
{
    if n > 0 {
        lemma_folders_added(m, parts, n - 1, p);
    }
}

/// Making the folders above a path changes nothing that is there, and adds only folders.
pub proof fn lemma_with_parents(m: Map<Seq<char>, Node>, path: Seq<char>, p: Seq<char>)
    ensures
        m.dom().contains(p) ==> with_parents(m, path).dom().contains(p) && with_parents(m, path)[p]
            == m[p],
        with_parents(m, path).dom().contains(p) && !m.dom().contains(p) ==> with_parents(
            m,
            path,
        )[p] is Folder,
{
    if let Some(parent) = paths::parent_folder(path) {
        lemma_folders_added(m, components(parent), components(parent).len() as int, p);
    }
}

/// Making a folder and those above it changes nothing that is there, and adds only folders.
pub proof fn lemma_with_chain(m: Map<Seq<char>, Node>, path: Seq<char>, p: Seq<char>)
    ensures
        m.dom().contains(p) ==> with_chain(m, path).dom().contains(p) && with_chain(m, path)[p]
            == m[p],
        with_chain(m, path).dom().contains(p) && !m.dom().contains(p) ==> with_chain(m, path)[p]
            is Folder,
{
    lemma_folders_added(m, components(path), components(path).len() as int, p);
}

} // verus!
