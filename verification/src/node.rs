//! The tree of module files to mount, one node per path, and the decisions
//! taken on a single node.
use vstd::prelude::*;

use crate::error::{MountError, MountErrorView};
use crate::text::{lemma_name_lt_total, lemma_name_lt_transitive, name_less, name_lt};

verus! {

/// What a node of the tree stands for.
#[derive(PartialEq, Eq, Structural, Clone, Copy, Debug)]
pub enum NodeFileType {
    RegularFile,
    Directory,
    Symlink,
    Whiteout,
}

/// The three questions that a file type answers.
#[derive(PartialEq, Eq, Structural, Clone, Copy, Debug)]
pub struct FileKind {
    pub is_file: bool,
    pub is_dir: bool,
    pub is_symlink: bool,
}

/// What is found at the real path that a node would cover: whether the path
/// exists (following symlinks), and the kind of the file there without
/// following a symlink (`None` when it cannot be read).
#[derive(PartialEq, Eq, Structural, Clone, Copy, Debug)]
pub struct RealState {
    pub exists: bool,
    pub kind: Option<FileKind>,
}

/// The node type of a file kind: a regular file, a directory and a symlink
/// are themselves, in that order of precedence; anything else is a whiteout.
pub open spec fn kind_type(kind: FileKind) -> NodeFileType {
    if kind.is_file {
        NodeFileType::RegularFile
    } else if kind.is_dir {
        NodeFileType::Directory
    } else if kind.is_symlink {
        NodeFileType::Symlink
    } else {
        NodeFileType::Whiteout
    }
}

/// Whether a node of type `t` must be put over the real path with an overlay
/// rather than found there: a symlink always; a whiteout when the real path
/// exists; anything else when the real file cannot be read, is of another
/// type, or is a symlink.
pub open spec fn needs_overlay(t: NodeFileType, real_state: RealState) -> bool {
    match t {
        NodeFileType::Symlink => true,
        NodeFileType::Whiteout => real_state.exists,
        _ => match real_state.kind {
            Some(kind) => kind_type(kind) != t || kind_type(kind) == NodeFileType::Symlink,
            None => true,
        },
    }
}

impl NodeFileType {
    /// The node type of a file kind.
    pub fn from_file_type(kind: FileKind) -> (t: NodeFileType)
        ensures
            t == kind_type(kind),
    {
        if kind.is_file {
            NodeFileType::RegularFile
        } else if kind.is_dir {
            NodeFileType::Directory
        } else if kind.is_symlink {
            NodeFileType::Symlink
        } else {
            NodeFileType::Whiteout
        }
    }

    /// Whether a node of this type needs an overlay over a real path in
    /// state `real_state`.
    pub fn needs_overlay_vs_real(&self, real_state: &RealState) -> (needs: bool)
        ensures
            needs == needs_overlay(*self, *real_state),
    {
        match self {
            NodeFileType::Symlink => true,
            NodeFileType::Whiteout => real_state.exists,
            _ => match real_state.kind {
                Some(kind) => {
                    let real_type = NodeFileType::from_file_type(kind);
                    real_type != *self || real_type == NodeFileType::Symlink
                },
                None => true,
            },
        }
    }
}

/// A node of the tree of files to mount.
#[derive(Debug)]
pub struct Node {
    pub name: String,
    pub file_type: NodeFileType,
    pub children: Vec<Node>,
    pub module_source: Option<String>,
    pub replace: bool,
    pub skip: bool,
}

/// The mathematical value of a node.
pub struct NodeView {
    pub name: Seq<char>,
    pub file_type: NodeFileType,
    pub children: Seq<NodeView>,
    pub module_source: Option<Seq<char>>,
    pub replace: bool,
    pub skip: bool,
}

/// The view of an optional string.
pub open spec fn opt_view(s: Option<String>) -> Option<Seq<char>> {
    match s {
        Some(s) => Some(s@),
        None => None,
    }
}

/// The views of a sequence of nodes.
pub open spec fn views(nodes: Seq<Node>) -> Seq<NodeView>
    decreases nodes,
{
    if nodes.len() == 0 {
        Seq::empty()
    } else {
        views(nodes.drop_last()).push(nodes.last().view_node())
    }
}

impl Node {
    /// The mathematical value of this node.
    pub open spec fn view_node(self) -> NodeView
        decreases self,
    {
        NodeView {
            name: self.name@,
            file_type: self.file_type,
            children: views(self.children@),
            module_source: opt_view(self.module_source),
            replace: self.replace,
            skip: self.skip,
        }
    }
}

impl View for Node {
    type V = NodeView;

    open spec fn view(&self) -> NodeView {
        self.view_node()
    }
}

/// The views of a sequence of nodes are the views of its nodes, one by one.
pub proof fn lemma_views(nodes: Seq<Node>)
    ensures
        views(nodes).len() == nodes.len(),
        forall|i: int| 0 <= i < nodes.len() ==> #[trigger] views(nodes)[i] == nodes[i].view_node(),
    decreases nodes.len(),
{
    if nodes.len() > 0 {
        lemma_views(nodes.drop_last());
    }
}

/// The children are strictly sorted by name, so no two share a name.
pub open spec fn sorted_names(children: Seq<NodeView>) -> bool {
    forall|i: int, j: int|
        0 <= i < j < children.len() ==> name_lt(#[trigger] children[i].name, #[trigger] children[j].name)
}

/// Every level of the tree has its children strictly sorted by name.
pub open spec fn sorted_tree(node: NodeView) -> bool
    decreases node,
{
    sorted_names(node.children) && all_sorted(node.children)
}

/// Every tree of the sequence is sorted at every level.
pub open spec fn all_sorted(trees: Seq<NodeView>) -> bool
    decreases trees,
{
    trees.len() == 0 || (all_sorted(trees.drop_last()) && sorted_tree(trees.last()))
}

/// A sequence of trees is sorted when each of its trees is.
pub proof fn lemma_all_sorted(trees: Seq<NodeView>)
    ensures
        all_sorted(trees) <==> forall|i: int| 0 <= i < trees.len() ==> #[trigger] sorted_tree(trees[i]),
    decreases trees.len(),
{
    if trees.len() > 0 {
        let init = trees.drop_last();
        lemma_all_sorted(init);
        if all_sorted(trees) {
            assert forall|i: int| 0 <= i < trees.len() implies #[trigger] sorted_tree(trees[i]) by {
                if i < trees.len() - 1 {
                    assert(trees[i] == init[i]);
                }
            }
        }
        if forall|i: int| 0 <= i < trees.len() ==> #[trigger] sorted_tree(trees[i]) {
            assert forall|i: int| 0 <= i < init.len() implies #[trigger] sorted_tree(init[i]) by {
                assert(trees[i] == init[i]);
                assert(sorted_tree(trees[i]));
            }
            assert(sorted_tree(trees[trees.len() - 1]));
        }
    }
}

/// What the metadata of a directory entry says, without following a symlink.
#[derive(PartialEq, Eq, Structural, Clone, Copy, Debug)]
pub struct EntryMeta {
    pub kind: FileKind,
    pub is_char_device: bool,
    pub rdev: u64,
}

/// A directory entry of a module, as read from disk.
#[derive(Debug)]
pub struct ScannedEntry {
    /// The entry's file name.
    pub name: String,
    /// The entry's full path.
    pub path: String,
    /// The entry's metadata, `None` when it could not be read.
    pub meta: Option<EntryMeta>,
    /// The value of the entry's replace attribute, `None` when it could not
    /// be read.
    pub replace_xattr: Option<Vec<u8>>,
    /// Whether the entry holds the file that marks a directory as replaced.
    pub replace_marker: bool,
    /// The listing of the entry's path, read where the merge goes into the
    /// entry (see `descends_into`); elsewhere it is never looked at.
    pub contents: Listing,
}

/// The listing of a directory: its entries in the order the system gave
/// them, or the message of the error that reading it gave.
#[derive(Debug)]
pub enum Listing {
    Entries(Vec<ScannedEntry>),
    Unreadable(String),
}

/// The type of the node that a new module entry makes: a character device
/// with device number 0 is a whiteout, anything else goes by its kind.
pub open spec fn entry_type(meta: EntryMeta) -> NodeFileType {
    if meta.is_char_device && meta.rdev == 0 {
        NodeFileType::Whiteout
    } else {
        kind_type(meta.kind)
    }
}

/// The view of an optional byte vector.
pub open spec fn bytes_view(b: Option<Vec<u8>>) -> Option<Seq<u8>> {
    match b {
        Some(v) => Some(v@),
        None => None,
    }
}

/// A directory is replaced when its replace attribute reads as the text
/// `y` (the single byte 0x79: no other bytes decode to it, lossy or not),
/// or when it holds the marker file.
pub open spec fn replace_marked(xattr: Option<Seq<u8>>, marker: bool) -> bool {
    xattr == Some(seq![0x79u8]) || marker
}

/// The node that a module entry makes, or `None` when its metadata could
/// not be read.
pub open spec fn module_node(e: ScannedEntry) -> Option<NodeView> {
    match e.meta {
        None => None,
        Some(meta) => {
            let t = entry_type(meta);
            Some(
                NodeView {
                    name: e.name@,
                    file_type: t,
                    children: Seq::empty(),
                    module_source: Some(e.path@),
                    replace: t == NodeFileType::Directory && replace_marked(
                        bytes_view(e.replace_xattr),
                        e.replace_marker,
                    ),
                    skip: false,
                },
            )
        },
    }
}

/// The index of the first child named `name`, or -1.
pub open spec fn child_index(children: Seq<NodeView>, name: Seq<char>) -> int
    decreases children.len(),
{
    if children.len() == 0 {
        -1
    } else if children[0].name == name {
        0
    } else {
        let r = child_index(children.drop_first(), name);
        if r < 0 {
            -1
        } else {
            r + 1
        }
    }
}

/// Where a child named `name` goes among sorted children: after the last
/// one whose name comes before it.
pub open spec fn sorted_pos(children: Seq<NodeView>, name: Seq<char>) -> int
    decreases children.len(),
{
    if children.len() == 0 {
        0
    } else if name_lt(children.last().name, name) {
        children.len() as int
    } else {
        sorted_pos(children.drop_last(), name)
    }
}

/// A child's place lies within the children or just after them.
pub proof fn lemma_sorted_pos_bounds(children: Seq<NodeView>, name: Seq<char>)
    ensures
        0 <= sorted_pos(children, name) <= children.len(),
    decreases children.len(),
{
    if children.len() > 0 {
        lemma_sorted_pos_bounds(children.drop_last(), name);
    }
}

/// Whether merging an entry goes into its listing: when the existing node of
/// that name is a directory, or, with no such node, when the entry makes a
/// new directory node.
pub open spec fn descends(existing: Option<NodeView>, meta: Option<EntryMeta>) -> bool {
    match existing {
        Some(c) => c.file_type == NodeFileType::Directory,
        None => match meta {
            Some(m) => entry_type(m) == NodeFileType::Directory,
            None => false,
        },
    }
}

/// What merging a listing into a node leaves: the node as far as the merge
/// got, whether the listing brought any file to mount, and the message of
/// the error that stopped it, if one did.
pub struct MergeView {
    pub node: NodeView,
    pub has_file: bool,
    pub error: Option<Seq<char>>,
}

/// Merges a directory listing into a node; a listing that could not be read
/// leaves the node as it is.
pub open spec fn merge_listing(node: NodeView, listing: Listing) -> MergeView
    decreases listing,
{
    match listing {
        Listing::Unreadable(msg) => MergeView { node, has_file: false, error: Some(msg@) },
        Listing::Entries(entries) => merge_entries(node, entries@),
    }
}

/// Merges entries into a node, one after the other; the first error stops
/// it. A node has files to mount when any entry brought one.
pub open spec fn merge_entries(node: NodeView, entries: Seq<ScannedEntry>) -> MergeView
    decreases entries,
{
    if entries.len() == 0 {
        MergeView { node, has_file: false, error: None }
    } else {
        let r = merge_entries(node, entries.drop_last());
        if r.error is Some {
            r
        } else {
            let r2 = merge_entry(r.node, entries.last());
            MergeView { has_file: r.has_file || r2.has_file, ..r2 }
        }
    }
}

/// Merges one entry into a node. An entry whose name is already a child
/// leaves that child as it is, but for a directory, into which its listing
/// is merged; an entry that names no child adds the node it makes, if any,
/// in name order, and merges its listing into it if it is a directory (the
/// new child stays, as far as its merge got, when that merge fails). It
/// brings files when it meets a node that is not a directory, or a
/// directory into which files were merged or that is replaced.
pub open spec fn merge_entry(node: NodeView, e: ScannedEntry) -> MergeView
    decreases e,
{
    let i = child_index(node.children, e.name@);
    if i >= 0 {
        let c = node.children[i];
        if c.file_type == NodeFileType::Directory {
            let r = merge_listing(c, e.contents);
            MergeView {
                node: NodeView { children: node.children.update(i, r.node), ..node },
                has_file: r.has_file || r.node.replace,
                error: r.error,
            }
        } else {
            MergeView { node, has_file: true, error: None }
        }
    } else {
        match module_node(e) {
            None => MergeView { node, has_file: false, error: None },
            Some(c) => {
                let p = sorted_pos(node.children, e.name@);
                if c.file_type == NodeFileType::Directory {
                    let r = merge_listing(c, e.contents);
                    MergeView {
                        node: NodeView { children: node.children.insert(p, r.node), ..node },
                        has_file: r.has_file || r.node.replace,
                        error: r.error,
                    }
                } else {
                    MergeView {
                        node: NodeView { children: node.children.insert(p, c), ..node },
                        has_file: true,
                        error: None,
                    }
                }
            },
        }
    }
}

/// The views of the children with one child's view replaced.
pub proof fn lemma_views_update(children: Seq<Node>, i: int, c: Node)
    requires
        0 <= i < children.len(),
    ensures
        views(children.update(i, c)) == views(children).update(i, c.view_node()),
{
    lemma_views(children);
    lemma_views(children.update(i, c));
    assert(views(children.update(i, c)) =~= views(children).update(i, c.view_node()));
}

/// The views of the children with one child put in.
pub proof fn lemma_views_insert(children: Seq<Node>, i: int, c: Node)
    requires
        0 <= i <= children.len(),
    ensures
        views(children.insert(i, c)) == views(children).insert(i, c.view_node()),
{
    lemma_views(children);
    lemma_views(children.insert(i, c));
    assert(views(children.insert(i, c)) =~= views(children).insert(i, c.view_node()));
}

/// The first child named `name` is at `i` when none before it is.
pub proof fn lemma_child_index_found(children: Seq<NodeView>, name: Seq<char>, i: int)
    requires
        0 <= i < children.len(),
        children[i].name == name,
        forall|k: int| 0 <= k < i ==> children[k].name != name,
    ensures
        child_index(children, name) == i,
    decreases i,
{
    if i > 0 {
        lemma_child_index_found(children.drop_first(), name, i - 1);
    }
}

/// No child is named `name`.
pub proof fn lemma_child_index_absent(children: Seq<NodeView>, name: Seq<char>)
    requires
        forall|k: int| 0 <= k < children.len() ==> children[k].name != name,
    ensures
        child_index(children, name) == -1,
    decreases children.len(),
{
    if children.len() > 0 {
        lemma_child_index_absent(children.drop_first(), name);
    }
}

/// The index of the first of `children` named `name`, if any.
pub fn find_in(children: &Vec<Node>, name: &String) -> (index: Option<usize>)
    ensures
        match index {
            Some(i) => i == child_index(views(children@), name@) && i < children.len(),
            None => child_index(views(children@), name@) == -1,
        },
{
    proof {
        lemma_views(children@);
        lemma_child_index(views(children@), name@);
    }
    let mut i: usize = 0;
    while i < children.len()
        invariant
            i <= children.len(),
            views(children@).len() == children@.len(),
            forall|k: int|
                0 <= k < children@.len() ==> #[trigger] views(children@)[k] == children@[k].view_node(),
            forall|k: int| 0 <= k < i ==> views(children@)[k].name != name@,
        decreases children.len() - i,
    {
        if children[i].name == *name {
            proof {
                lemma_child_index_found(views(children@), name@, i as int);
            }
            return Some(i);
        }
        i = i + 1;
    }
    proof {
        lemma_child_index_absent(views(children@), name@);
    }
    None
}

/// What `child_index` finds is a child of that name, the first one.
pub proof fn lemma_child_index(children: Seq<NodeView>, name: Seq<char>)
    ensures
        -1 <= child_index(children, name) < children.len(),
        child_index(children, name) >= 0 ==> children[child_index(children, name)].name == name,
        child_index(children, name) >= 0 ==> forall|k: int|
            0 <= k < child_index(children, name) ==> children[k].name != name,
        child_index(children, name) == -1 ==> forall|k: int|
            0 <= k < children.len() ==> children[k].name != name,
    decreases children.len(),
{
    if children.len() > 0 {
        lemma_child_index(children.drop_first(), name);
        if children[0].name != name && child_index(children.drop_first(), name) >= 0 {
            assert forall|k: int| 0 <= k < child_index(children, name) implies children[k].name
                != name by {
                if k > 0 {
                    assert(children[k] == children.drop_first()[k - 1]);
                }
            }
        }
        if child_index(children, name) == -1 {
            assert forall|k: int| 0 <= k < children.len() implies children[k].name != name by {
                if k > 0 {
                    assert(children[k] == children.drop_first()[k - 1]);
                }
            }
        }
    }
}

/// Whether a directory's replace attribute and marker file declare it
/// replaced.
pub fn dir_is_replace(xattr: &Option<Vec<u8>>, marker: bool) -> (replace: bool)
    ensures
        replace == replace_marked(bytes_view(*xattr), marker),
{
    let by_xattr = match xattr {
        Some(v) => v.len() == 1 && v[0] == 0x79u8,
        None => false,
    };
    proof {
        if let Some(v) = xattr {
            if v.len() == 1 && v[0] == 0x79u8 {
                assert(v@ =~= seq![0x79u8]);
            }
        }
    }
    by_xattr || marker
}

/// Whether merging an entry with metadata `meta` goes into the entry's
/// listing, given the node that already has its name, if any.
pub fn descends_into(existing: Option<&Node>, meta: &Option<EntryMeta>) -> (descend: bool)
    ensures
        descend == descends(
            match existing {
                Some(n) => Some(n@),
                None => None,
            },
            *meta,
        ),
{
    match existing {
        Some(n) => n.file_type == NodeFileType::Directory,
        None => match meta {
            Some(m) => {
                let t = if m.is_char_device && m.rdev == 0 {
                    NodeFileType::Whiteout
                } else {
                    NodeFileType::from_file_type(m.kind)
                };
                t == NodeFileType::Directory
            },
            None => false,
        },
    }
}

impl Node {
    /// A directory node with no module behind it and no children.
    pub fn new_root(name: &str) -> (root: Node)
        ensures
            root@ == (NodeView {
                name: name@,
                file_type: NodeFileType::Directory,
                children: Seq::empty(),
                module_source: None,
                replace: false,
                skip: false,
            }),
    {
        let root = Node {
            name: String::from_str(name),
            file_type: NodeFileType::Directory,
            children: Vec::new(),
            module_source: None,
            replace: false,
            skip: false,
        };
        proof {
            assert(views(root.children@) =~= Seq::<NodeView>::empty());
        }
        root
    }

    /// The node that a module entry makes, or `None` when its metadata could
    /// not be read.
    pub fn new_module(entry: &ScannedEntry) -> (node: Option<Node>)
        ensures
            match node {
                Some(n) => module_node(*entry) == Some(n@),
                None => module_node(*entry) is None,
            },
    {
        match &entry.meta {
            None => None,
            Some(meta) => {
                let file_type = if meta.is_char_device && meta.rdev == 0 {
                    NodeFileType::Whiteout
                } else {
                    NodeFileType::from_file_type(meta.kind)
                };
                let replace = file_type == NodeFileType::Directory && dir_is_replace(
                    &entry.replace_xattr,
                    entry.replace_marker,
                );
                let node = Node {
                    name: entry.name.clone(),
                    file_type,
                    children: Vec::new(),
                    module_source: Some(entry.path.clone()),
                    replace,
                    skip: false,
                };
                proof {
                    assert(views(node.children@) =~= Seq::<NodeView>::empty());
                }
                Some(node)
            },
        }
    }

    /// The index of the first child named `name`, if any.
    pub fn find_child(&self, name: &String) -> (index: Option<usize>)
        ensures
            match index {
                Some(i) => i == child_index(self@.children, name@),
                None => child_index(self@.children, name@) == -1,
            },
    {
        find_in(&self.children, name)
    }

    /// The child named `name`, if any.
    pub fn child(&self, name: &String) -> (child: Option<&Node>)
        ensures
            match child {
                Some(c) => child_index(self@.children, name@) >= 0 && c@ == self@.children[child_index(
                    self@.children,
                    name@,
                )],
                None => child_index(self@.children, name@) == -1,
            },
    {
        proof {
            lemma_views(self.children@);
            lemma_child_index(self@.children, name@);
        }
        match self.find_child(name) {
            Some(i) => Some(&self.children[i]),
            None => None,
        }
    }

    /// Where a child named `name` goes among the children.
    pub fn sorted_position(&self, name: &String) -> (p: usize)
        ensures
            p == sorted_pos(self@.children, name@),
            p <= self.children.len(),
    {
        proof {
            lemma_sorted_pos_bounds(self@.children, name@);
        }
        proof {
            lemma_views(self.children@);
        }
        let mut p = self.children.len();
        proof {
            assert(self@.children.take(p as int) =~= self@.children);
        }
        while p > 0 && !name_less(self.children[p - 1].name.as_str(), name.as_str())
            invariant
                p <= self.children.len(),
                views(self.children@).len() == self.children@.len(),
                forall|k: int|
                    0 <= k < self.children@.len() ==> #[trigger] views(self.children@)[k]
                        == self.children@[k].view_node(),
                sorted_pos(self@.children, name@) == sorted_pos(self@.children.take(p as int), name@),
            decreases p,
        {
            proof {
                let t = self@.children.take(p as int);
                assert(t.drop_last() =~= self@.children.take(p - 1));
            }
            p = p - 1;
        }
        proof {
            let t = self@.children.take(p as int);
            if p == self.children.len() {
                assert(t =~= self@.children);
            }
        }
        p
    }
}

/// Whether `after` and `r` are what a merge with outcome `m` leaves: the
/// node as far as the merge got; on success whether files were found; on
/// failure the error, with its message and no context.
pub open spec fn merge_outcome(m: MergeView, after: NodeView, r: Result<bool, MountError>) -> bool {
    &&& after == m.node
    &&& match m.error {
        None => r matches Ok(b) && b == m.has_file,
        Some(msg) => r matches Err(e) && e@ == (MountErrorView { message: msg, context: Seq::empty() }),
    }
}

/// Once merging a prefix of the entries fails, merging any longer prefix
/// leaves the same.
proof fn lemma_merge_error_stays(node: NodeView, entries: Seq<ScannedEntry>, k: int, j: int)
    requires
        0 <= k <= j <= entries.len(),
        merge_entries(node, entries.take(k)).error is Some,
    ensures
        merge_entries(node, entries.take(j)) == merge_entries(node, entries.take(k)),
    decreases j - k,
{
    if j > k {
        lemma_merge_error_stays(node, entries, k, j - 1);
        assert(entries.take(j).drop_last() =~= entries.take(j - 1));
    }
}

impl Node {
    /// Merges the listing of a module directory into this node: every entry
    /// that names no child becomes one (in name order), and the listings of
    /// directories are merged into the directory nodes, level by level.
    /// Returns whether any file to mount was found; a listing that could not
    /// be read is an error, and the merge stops there.
    pub fn collect_module_files(&mut self, listing: &Listing) -> (has_file: Result<bool, MountError>)
        ensures
            merge_outcome(merge_listing(old(self)@, *listing), final(self)@, has_file),
            same_but_children(final(self)@, old(self)@),
            *listing is Unreadable ==> final(self)@ == old(self)@,
            keeps_children(old(self)@, final(self)@),
            adds_only_listed(old(self)@, final(self)@, *listing),
            new_children_from(old(self)@, final(self)@, *listing),
            sorted_tree(old(self)@) ==> sorted_tree(final(self)@),
        decreases listing,
    {
        proof {
            lemma_merge_listing_keeps(self@, *listing);
            lemma_merge_keeps_children(self@, *listing);
            lemma_merge_adds_only_listed(self@, *listing);
            lemma_merge_new_children(self@, *listing);
            if sorted_tree(self@) {
                lemma_merge_listing_sorted(self@, *listing);
            }
        }
        match listing {
            Listing::Unreadable(msg) => Err(MountError::new(msg.clone())),
            Listing::Entries(entries) => self.merge_all(entries),
        }
    }

    fn merge_all(&mut self, entries: &Vec<ScannedEntry>) -> (has_file: Result<bool, MountError>)
        ensures
            merge_outcome(merge_entries(old(self)@, entries@), final(self)@, has_file),
        decreases entries,
    {
        let ghost start = self@;
        let mut has_file = false;
        let mut i: usize = 0;
        proof {
            assert(entries@.take(0) =~= Seq::<ScannedEntry>::empty());
        }
        while i < entries.len()
            invariant
                i <= entries.len(),
                start == old(self)@,
                merge_entries(start, entries@.take(i as int)) == (MergeView {
                    node: self@,
                    has_file,
                    error: None,
                }),
            decreases entries.len() - i,
        {
            proof {
                assert(entries@.take(i + 1).drop_last() =~= entries@.take(i as int));
                assert(entries@.take(i + 1).last() == entries@[i as int]);
                assert(decreases_to!(entries => entries@[i as int]));
            }
            let r = self.merge_entry(&entries[i]);
            match r {
                Err(e) => {
                    proof {
                        lemma_merge_error_stays(start, entries@, i + 1, entries@.len() as int);
                        assert(entries@.take(entries@.len() as int) =~= entries@);
                    }
                    return Err(e);
                },
                Ok(h) => {
                    has_file = has_file || h;
                },
            }
            i = i + 1;
        }
        proof {
            assert(entries@.take(entries@.len() as int) =~= entries@);
        }
        Ok(has_file)
    }

    fn merge_entry(&mut self, e: &ScannedEntry) -> (has_file: Result<bool, MountError>)
        ensures
            merge_outcome(merge_entry(old(self)@, *e), final(self)@, has_file),
        decreases e,
    {
        proof {
            lemma_views(self.children@);
            lemma_child_index(self@.children, e.name@);
        }
        match self.find_child(&e.name) {
            Some(i) => {
                if self.children[i].file_type == NodeFileType::Directory {
                    let ghost before = self.children@;
                    let mut child = self.children.remove(i);
                    let r = child.collect_module_files(&e.contents);
                    let replace = child.replace;
                    self.children.insert(i, child);
                    proof {
                        assert(self.children@ =~= before.update(i as int, child));
                        lemma_views_update(before, i as int, child);
                    }
                    match r {
                        Err(err) => Err(err),
                        Ok(h) => Ok(h || replace),
                    }
                } else {
                    Ok(true)
                }
            },
            None => match Node::new_module(e) {
                None => Ok(false),
                Some(c) => {
                    let p = self.sorted_position(&e.name);
                    let ghost before = self.children@;
                    if c.file_type == NodeFileType::Directory {
                        let mut c = c;
                        let r = c.collect_module_files(&e.contents);
                        let replace = c.replace;
                        self.children.insert(p, c);
                        proof {
                            lemma_views_insert(before, p as int, c);
                        }
                        match r {
                            Err(err) => Err(err),
                            Ok(h) => Ok(h || replace),
                        }
                    } else {
                        self.children.insert(p, c);
                        proof {
                            lemma_views_insert(before, p as int, c);
                        }
                        Ok(true)
                    }
                },
            },
        }
    }
}

/// A node with no children is sorted.
pub proof fn lemma_leaf_sorted(node: NodeView)
    requires
        node.children.len() == 0,
    ensures
        sorted_tree(node),
{
}

/// Among sorted children that do not hold `name`, those before its place
/// come before it and those from its place on come after it.
pub proof fn lemma_sorted_pos_split(children: Seq<NodeView>, name: Seq<char>)
    requires
        sorted_names(children),
        forall|k: int| 0 <= k < children.len() ==> children[k].name != name,
    ensures
        0 <= sorted_pos(children, name) <= children.len(),
        forall|k: int|
            0 <= k < sorted_pos(children, name) ==> name_lt(#[trigger] children[k].name, name),
        forall|k: int|
            sorted_pos(children, name) <= k < children.len() ==> name_lt(name, #[trigger] children[k].name),
    decreases children.len(),
{
    lemma_sorted_pos_bounds(children, name);
    if children.len() > 0 {
        let init = children.drop_last();
        let n = children.len() - 1;
        assert(sorted_names(init)) by {
            assert forall|i: int, j: int| 0 <= i < j < init.len() implies name_lt(
                #[trigger] init[i].name,
                #[trigger] init[j].name,
            ) by {
                assert(init[i] == children[i] && init[j] == children[j]);
            }
        }
        lemma_sorted_pos_split(init, name);
        let last = children[n];
        if name_lt(last.name, name) {
            assert forall|k: int| 0 <= k < children.len() implies name_lt(
                #[trigger] children[k].name,
                name,
            ) by {
                if k < n {
                    assert(name_lt(children[k].name, children[n].name));
                    lemma_name_lt_transitive(children[k].name, last.name, name);
                }
            }
        } else {
            lemma_name_lt_total(last.name, name);
            assert forall|k: int|
                0 <= k < sorted_pos(children, name) implies name_lt(#[trigger] children[k].name, name) by {
                assert(children[k] == init[k]);
            }
            assert forall|k: int|
                sorted_pos(children, name) <= k < children.len() implies name_lt(
                name,
                #[trigger] children[k].name,
            ) by {
                if k < n {
                    assert(children[k] == init[k]);
                }
            }
        }
    }
}

/// Putting a child with a new name at its place keeps the children sorted.
pub proof fn lemma_sorted_insert(children: Seq<NodeView>, c: NodeView)
    requires
        sorted_names(children),
        forall|k: int| 0 <= k < children.len() ==> children[k].name != c.name,
    ensures
        sorted_names(children.insert(sorted_pos(children, c.name), c)),
{
    lemma_sorted_pos_split(children, c.name);
    let p = sorted_pos(children, c.name);
    let s = children.insert(p, c);
    assert forall|i: int, j: int| 0 <= i < j < s.len() implies name_lt(
        #[trigger] s[i].name,
        #[trigger] s[j].name,
    ) by {
        if j < p {
            assert(s[i] == children[i] && s[j] == children[j]);
        } else if j == p {
            assert(s[i] == children[i]);
        } else if i == p {
            assert(s[j] == children[j - 1]);
        } else if i < p {
            assert(s[i] == children[i] && s[j] == children[j - 1]);
        } else {
            assert(s[i] == children[i - 1] && s[j] == children[j - 1]);
        }
    }
}

/// Replacing a child by one of the same name keeps the children sorted.
pub proof fn lemma_sorted_update(children: Seq<NodeView>, i: int, c: NodeView)
    requires
        sorted_names(children),
        0 <= i < children.len(),
        c.name == children[i].name,
    ensures
        sorted_names(children.update(i, c)),
{
    let s = children.update(i, c);
    assert forall|a: int, b: int| 0 <= a < b < s.len() implies name_lt(
        #[trigger] s[a].name,
        #[trigger] s[b].name,
    ) by {
        assert(s[a].name == children[a].name && s[b].name == children[b].name);
    }
}

/// Whether two nodes agree on everything but their children.
pub open spec fn same_but_children(a: NodeView, b: NodeView) -> bool {
    &&& a.name == b.name
    &&& a.file_type == b.file_type
    &&& a.module_source == b.module_source
    &&& a.replace == b.replace
    &&& a.skip == b.skip
}

/// Merging entries changes nothing of a node but its children, whether the
/// merge succeeds or not.
pub proof fn lemma_merge_entries_keeps(node: NodeView, entries: Seq<ScannedEntry>)
    ensures
        same_but_children(merge_entries(node, entries).node, node),
    decreases entries.len(),
{
    if entries.len() > 0 {
        lemma_merge_entries_keeps(node, entries.drop_last());
        let r = merge_entries(node, entries.drop_last());
        if r.error is None {
            lemma_merge_entry_keeps(r.node, entries.last());
        }
    }
}

/// Merging one entry changes nothing of a node but its children.
pub proof fn lemma_merge_entry_keeps(node: NodeView, e: ScannedEntry)
    ensures
        same_but_children(merge_entry(node, e).node, node),
{
}

/// Merging a listing changes nothing of a node but its children, whether
/// the merge succeeds or not.
pub proof fn lemma_merge_listing_keeps(node: NodeView, listing: Listing)
    ensures
        same_but_children(merge_listing(node, listing).node, node),
{
    match listing {
        Listing::Unreadable(_) => {},
        Listing::Entries(entries) => lemma_merge_entries_keeps(node, entries@),
    }
}

/// Merging a listing into a sorted node leaves it sorted, at every level,
/// whether the merge succeeds or not.
pub proof fn lemma_merge_listing_sorted(node: NodeView, listing: Listing)
    requires
        sorted_tree(node),
    ensures
        sorted_tree(merge_listing(node, listing).node),
    decreases listing,
{
    match listing {
        Listing::Unreadable(_) => {},
        Listing::Entries(entries) => lemma_merge_entries_sorted(node, entries@),
    }
}

/// Merging entries into a sorted node leaves it sorted, at every level.
pub proof fn lemma_merge_entries_sorted(node: NodeView, entries: Seq<ScannedEntry>)
    requires
        sorted_tree(node),
    ensures
        sorted_tree(merge_entries(node, entries).node),
    decreases entries,
{
    if entries.len() > 0 {
        lemma_merge_entries_sorted(node, entries.drop_last());
        let r = merge_entries(node, entries.drop_last());
        if r.error is None {
            lemma_merge_entry_sorted(r.node, entries.last());
        }
    }
}

/// Merging one entry into a sorted node leaves it sorted, at every level.
pub proof fn lemma_merge_entry_sorted(node: NodeView, e: ScannedEntry)
    requires
        sorted_tree(node),
    ensures
        sorted_tree(merge_entry(node, e).node),
    decreases e,
{
    let children = node.children;
    let i = child_index(children, e.name@);
    lemma_child_index(children, e.name@);
    lemma_all_sorted(children);
    if i >= 0 {
        let c = children[i];
        if c.file_type == NodeFileType::Directory {
            assert(sorted_tree(c));
            lemma_merge_listing_sorted(c, e.contents);
            lemma_merge_listing_keeps(c, e.contents);
            lemma_sorted_tree_update(node, i, merge_listing(c, e.contents).node);
        }
    } else {
        match module_node(e) {
            None => {},
            Some(c) => {
                lemma_leaf_sorted(c);
                if c.file_type == NodeFileType::Directory {
                    lemma_merge_listing_sorted(c, e.contents);
                    lemma_merge_listing_keeps(c, e.contents);
                    lemma_sorted_tree_insert(node, merge_listing(c, e.contents).node);
                } else {
                    lemma_sorted_tree_insert(node, c);
                }
            },
        }
    }
}

/// A sorted node stays sorted when a child is replaced by a sorted one of
/// the same name.
pub proof fn lemma_sorted_tree_update(node: NodeView, i: int, c: NodeView)
    requires
        sorted_tree(node),
        0 <= i < node.children.len(),
        c.name == node.children[i].name,
        sorted_tree(c),
    ensures
        sorted_tree(NodeView { children: node.children.update(i, c), ..node }),
{
    let s = node.children.update(i, c);
    lemma_all_sorted(node.children);
    lemma_sorted_update(node.children, i, c);
    assert forall|k: int| 0 <= k < s.len() implies #[trigger] sorted_tree(s[k]) by {
        if k != i {
            assert(s[k] == node.children[k]);
        }
    }
    lemma_all_sorted(s);
}

/// A sorted node stays sorted when a sorted child with a new name is put
/// at its place.
pub proof fn lemma_sorted_tree_insert(node: NodeView, c: NodeView)
    requires
        sorted_tree(node),
        forall|k: int| 0 <= k < node.children.len() ==> node.children[k].name != c.name,
        sorted_tree(c),
    ensures
        sorted_tree(
            NodeView { children: node.children.insert(sorted_pos(node.children, c.name), c), ..node },
        ),
{
    let p = sorted_pos(node.children, c.name);
    let s = node.children.insert(p, c);
    lemma_all_sorted(node.children);
    lemma_sorted_insert(node.children, c);
    lemma_sorted_pos_bounds(node.children, c.name);
    assert forall|k: int| 0 <= k < s.len() implies #[trigger] sorted_tree(s[k]) by {
        if k < p {
            assert(s[k] == node.children[k]);
        } else if k > p {
            assert(s[k] == node.children[k - 1]);
        }
    }
    lemma_all_sorted(s);
}

/// The child named `name`, if any (the first one).
pub open spec fn child_named(children: Seq<NodeView>, name: Seq<char>) -> Option<NodeView> {
    let i = child_index(children, name);
    if i >= 0 {
        Some(children[i])
    } else {
        None
    }
}

/// Replacing a child by one of the same name leaves what other names find.
proof fn lemma_child_named_update(children: Seq<NodeView>, i: int, c: NodeView, name: Seq<char>)
    requires
        0 <= i < children.len(),
        c.name == children[i].name,
        children[i].name != name,
    ensures
        child_named(children.update(i, c), name) == child_named(children, name),
{
    let s = children.update(i, c);
    let j = child_index(children, name);
    lemma_child_index(children, name);
    if j >= 0 {
        assert forall|k: int| 0 <= k < j implies s[k].name != name by {
            assert(s[k].name == children[k].name);
        }
        lemma_child_index_found(s, name, j);
    } else {
        assert forall|k: int| 0 <= k < s.len() implies s[k].name != name by {
            assert(s[k].name == children[k].name);
        }
        lemma_child_index_absent(s, name);
    }
}

/// Putting in a child of another name leaves what `name` finds.
proof fn lemma_child_named_insert(children: Seq<NodeView>, p: int, c: NodeView, name: Seq<char>)
    requires
        0 <= p <= children.len(),
        c.name != name,
    ensures
        child_named(children.insert(p, c), name) == child_named(children, name),
{
    let s = children.insert(p, c);
    let j = child_index(children, name);
    lemma_child_index(children, name);
    if j >= 0 {
        if j < p {
            assert forall|k: int| 0 <= k < j implies s[k].name != name by {
                assert(s[k] == children[k]);
            }
            assert(s[j] == children[j]);
            lemma_child_index_found(s, name, j);
        } else {
            assert forall|k: int| 0 <= k < j + 1 implies s[k].name != name by {
                if k < p {
                    assert(s[k] == children[k]);
                } else if k > p {
                    assert(s[k] == children[k - 1]);
                }
            }
            assert(s[j + 1] == children[j]);
            lemma_child_index_found(s, name, j + 1);
        }
    } else {
        assert forall|k: int| 0 <= k < s.len() implies s[k].name != name by {
            if k < p {
                assert(s[k] == children[k]);
            } else if k > p {
                assert(s[k] == children[k - 1]);
            }
        }
        lemma_child_index_absent(s, name);
    }
}

/// Whether the child named `name` is there and is not a directory.
pub open spec fn holds_leaf(node: NodeView, name: Seq<char>) -> bool {
    child_named(node.children, name) matches Some(c) && c.file_type != NodeFileType::Directory
}

/// Merging one entry never replaces a child that is not a directory.
proof fn lemma_merge_entry_keeps_leaf(node: NodeView, e: ScannedEntry, name: Seq<char>)
    requires
        holds_leaf(node, name),
    ensures
        child_named(merge_entry(node, e).node.children, name) == child_named(node.children, name),
{
    let children = node.children;
    let i = child_index(children, e.name@);
    lemma_child_index(children, e.name@);
    lemma_child_index(children, name);
    if i >= 0 {
        let c = children[i];
        if c.file_type == NodeFileType::Directory {
            if e.name@ == name {
                assert(child_index(children, name) == i);
            }
            lemma_merge_listing_keeps(c, e.contents);
            lemma_child_named_update(children, i, merge_listing(c, e.contents).node, name);
        }
    } else {
        match module_node(e) {
            None => {},
            Some(c) => {
                let p = sorted_pos(children, e.name@);
                lemma_sorted_pos_bounds(children, e.name@);
                if c.file_type == NodeFileType::Directory {
                    lemma_merge_listing_keeps(c, e.contents);
                    lemma_child_named_insert(children, p, merge_listing(c, e.contents).node, name);
                } else {
                    lemma_child_named_insert(children, p, c, name);
                }
            },
        }
    }
}

/// Merging entries never replaces a child that is not a directory.
proof fn lemma_merge_entries_keeps_leaf(node: NodeView, entries: Seq<ScannedEntry>, name: Seq<char>)
    requires
        holds_leaf(node, name),
    ensures
        child_named(merge_entries(node, entries).node.children, name) == child_named(node.children, name),
    decreases entries.len(),
{
    if entries.len() > 0 {
        lemma_merge_entries_keeps_leaf(node, entries.drop_last(), name);
        let r = merge_entries(node, entries.drop_last());
        if r.error is None {
            lemma_merge_entry_keeps_leaf(r.node, entries.last(), name);
        }
    }
}

/// The first module to put a file, a symlink or a whiteout at a path keeps
/// it: merging the listing of a later module never replaces a child that is
/// not a directory, whether the merge succeeds or not.
pub proof fn lemma_first_leaf_wins(node: NodeView, listing: Listing, name: Seq<char>)
    requires
        holds_leaf(node, name),
    ensures
        child_named(merge_listing(node, listing).node.children, name) == child_named(node.children, name),
{
    match listing {
        Listing::Unreadable(_) => {},
        Listing::Entries(entries) => lemma_merge_entries_keeps_leaf(node, entries@, name),
    }
}

/// Replacing a child by one of the same name leaves where every name is
/// found.
pub proof fn lemma_child_index_update(children: Seq<NodeView>, i: int, c: NodeView, name: Seq<char>)
    requires
        0 <= i < children.len(),
        c.name == children[i].name,
    ensures
        child_index(children.update(i, c), name) == child_index(children, name),
{
    let s = children.update(i, c);
    let j = child_index(children, name);
    lemma_child_index(children, name);
    if j >= 0 {
        assert forall|k: int| 0 <= k < j implies s[k].name != name by {
            assert(s[k].name == children[k].name);
        }
        assert(s[j].name == children[j].name);
        lemma_child_index_found(s, name, j);
    } else {
        assert forall|k: int| 0 <= k < s.len() implies s[k].name != name by {
            assert(s[k].name == children[k].name);
        }
        lemma_child_index_absent(s, name);
    }
}

/// Whether `after` still has every child of `before`, each agreeing with it
/// on everything but its children.
pub open spec fn keeps_children(before: NodeView, after: NodeView) -> bool {
    forall|name: Seq<char>|
        #[trigger] child_named(before.children, name) is Some ==> child_named(after.children, name) is Some
            && same_but_children(
            child_named(after.children, name).unwrap(),
            child_named(before.children, name).unwrap(),
        )
}

/// Keeping the children is transitive.
proof fn lemma_keeps_children_trans(a: NodeView, b: NodeView, c: NodeView)
    requires
        keeps_children(a, b),
        keeps_children(b, c),
    ensures
        keeps_children(a, c),
{
    assert forall|name: Seq<char>| #[trigger] child_named(a.children, name) is Some implies child_named(
        c.children,
        name,
    ) is Some && same_but_children(
        child_named(c.children, name).unwrap(),
        child_named(a.children, name).unwrap(),
    ) by {
        assert(child_named(b.children, name) is Some);
    }
}

/// Merging one entry keeps every child there was.
proof fn lemma_merge_entry_keeps_children(node: NodeView, e: ScannedEntry)
    ensures
        keeps_children(node, merge_entry(node, e).node),
{
    let children = node.children;
    let after = merge_entry(node, e).node;
    let i = child_index(children, e.name@);
    lemma_child_index(children, e.name@);
    assert forall|name: Seq<char>| #[trigger] child_named(children, name) is Some implies child_named(
        after.children,
        name,
    ) is Some && same_but_children(
        child_named(after.children, name).unwrap(),
        child_named(children, name).unwrap(),
    ) by {
        lemma_child_index(children, name);
        if i >= 0 {
            let c = children[i];
            if c.file_type == NodeFileType::Directory {
                let r = merge_listing(c, e.contents);
                lemma_merge_listing_keeps(c, e.contents);
                lemma_child_index_update(children, i, r.node, name);
            }
        } else {
            match module_node(e) {
                None => {},
                Some(c) => {
                    let p = sorted_pos(children, e.name@);
                    lemma_sorted_pos_bounds(children, e.name@);
                    if c.file_type == NodeFileType::Directory {
                        lemma_merge_listing_keeps(c, e.contents);
                        lemma_child_named_insert(children, p, merge_listing(c, e.contents).node, name);
                    } else {
                        lemma_child_named_insert(children, p, c, name);
                    }
                },
            }
        }
    }
}

/// Merging entries keeps every child there was, whether the merge succeeds
/// or not.
proof fn lemma_merge_entries_keeps_children(node: NodeView, entries: Seq<ScannedEntry>)
    ensures
        keeps_children(node, merge_entries(node, entries).node),
    decreases entries.len(),
{
    if entries.len() == 0 {
        assert(keeps_children(node, node));
    } else {
        lemma_merge_entries_keeps_children(node, entries.drop_last());
        let r = merge_entries(node, entries.drop_last());
        if r.error is None {
            lemma_merge_entry_keeps_children(r.node, entries.last());
            lemma_keeps_children_trans(node, r.node, merge_entry(r.node, entries.last()).node);
        }
    }
}

/// A merge never takes a child away: every child there was is still there,
/// agreeing with what it was on everything but its children, whether the
/// merge succeeds or not.
pub proof fn lemma_merge_keeps_children(node: NodeView, listing: Listing)
    ensures
        keeps_children(node, merge_listing(node, listing).node),
{
    match listing {
        Listing::Unreadable(_) => {
            assert(keeps_children(node, node));
        },
        Listing::Entries(entries) => lemma_merge_entries_keeps_children(node, entries@),
    }
}

/// The names of a list of entries.
pub open spec fn entry_names(entries: Seq<ScannedEntry>) -> Seq<Seq<char>> {
    entries.map_values(|e: ScannedEntry| e.name@)
}

/// The names of the entries of a listing (none when it could not be read).
pub open spec fn listing_names(listing: Listing) -> Seq<Seq<char>> {
    match listing {
        Listing::Entries(entries) => entry_names(entries@),
        Listing::Unreadable(_) => Seq::empty(),
    }
}

/// Whether every child of `after` was a child of `before` or is named by an
/// entry of `listing`.
pub open spec fn adds_only_listed(before: NodeView, after: NodeView, listing: Listing) -> bool {
    forall|name: Seq<char>|
        #[trigger] child_named(after.children, name) is Some ==> child_named(before.children, name) is Some
            || listing_names(listing).contains(name)
}

/// Merging one entry adds no child but one of its name.
proof fn lemma_merge_entry_adds(node: NodeView, e: ScannedEntry, name: Seq<char>)
    ensures
        child_named(merge_entry(node, e).node.children, name) is Some ==> child_named(node.children, name) is Some
            || e.name@ == name,
{
    let children = node.children;
    let i = child_index(children, e.name@);
    lemma_child_index(children, e.name@);
    lemma_child_index(children, name);
    if i >= 0 {
        let c = children[i];
        if c.file_type == NodeFileType::Directory {
            let r = merge_listing(c, e.contents);
            lemma_merge_listing_keeps(c, e.contents);
            lemma_child_index_update(children, i, r.node, name);
        }
    } else {
        match module_node(e) {
            None => {},
            Some(c) => {
                if e.name@ != name {
                    let p = sorted_pos(children, e.name@);
                    lemma_sorted_pos_bounds(children, e.name@);
                    if c.file_type == NodeFileType::Directory {
                        lemma_merge_listing_keeps(c, e.contents);
                        lemma_child_named_insert(children, p, merge_listing(c, e.contents).node, name);
                    } else {
                        lemma_child_named_insert(children, p, c, name);
                    }
                }
            },
        }
    }
}

/// Merging entries adds no child but those the entries name.
proof fn lemma_merge_entries_adds(node: NodeView, entries: Seq<ScannedEntry>, name: Seq<char>)
    ensures
        child_named(merge_entries(node, entries).node.children, name) is Some ==> child_named(
            node.children,
            name,
        ) is Some || entry_names(entries).contains(name),
    decreases entries.len(),
{
    if entries.len() > 0 {
        let init = entries.drop_last();
        lemma_merge_entries_adds(node, init, name);
        let r = merge_entries(node, init);
        if r.error is None {
            lemma_merge_entry_adds(r.node, entries.last(), name);
        }
        if entry_names(init).contains(name) {
            let k = choose|k: int| 0 <= k < entry_names(init).len() && entry_names(init)[k] == name;
            assert(entry_names(entries)[k] == name);
        }
        if entries.last().name@ == name {
            assert(entry_names(entries)[entries.len() - 1] == name);
        }
    }
}

/// A merge adds no child but one that an entry of the listing names.
pub proof fn lemma_merge_adds_only_listed(node: NodeView, listing: Listing)
    ensures
        adds_only_listed(node, merge_listing(node, listing).node, listing),
{
    let after = merge_listing(node, listing).node;
    assert forall|name: Seq<char>| #[trigger] child_named(after.children, name) is Some implies child_named(
        node.children,
        name,
    ) is Some || listing_names(listing).contains(name) by {
        match listing {
            Listing::Unreadable(_) => {},
            Listing::Entries(entries) => lemma_merge_entries_adds(node, entries@, name),
        }
    }
}

/// Whether `c`, a child named `name` that a merge of `entries` added, is
/// what an entry of that name makes (its name, source, file type, replace
/// and skip), with children only if it is a directory.
pub open spec fn new_child_ok(c: NodeView, name: Seq<char>, entries: Seq<ScannedEntry>) -> bool {
    exists|j: int|
        #![trigger entries[j]]
        0 <= j < entries.len() && entries[j].name@ == name && module_node(entries[j]) is Some
            && same_but_children(c, module_node(entries[j]).unwrap()) && (c.file_type
            != NodeFileType::Directory ==> c.children.len() == 0)
}

/// Whether every child of `after` that `before` did not have is what an
/// entry of `listing` makes.
pub open spec fn new_children_from(before: NodeView, after: NodeView, listing: Listing) -> bool {
    forall|name: Seq<char>|
        #[trigger] child_named(after.children, name) is Some && child_named(before.children, name) is None
            ==> match listing {
            Listing::Entries(entries) => new_child_ok(child_named(after.children, name).unwrap(), name, entries@),
            Listing::Unreadable(_) => false,
        }
}

/// What an entry made stays so when more entries follow.
proof fn lemma_new_child_extend(c: NodeView, name: Seq<char>, prefix: Seq<ScannedEntry>, e: ScannedEntry)
    requires
        new_child_ok(c, name, prefix),
    ensures
        new_child_ok(c, name, prefix.push(e)),
{
    let j = choose|j: int|
        #![trigger prefix[j]]
        0 <= j < prefix.len() && prefix[j].name@ == name && module_node(prefix[j]) is Some
            && same_but_children(c, module_node(prefix[j]).unwrap()) && (c.file_type
            != NodeFileType::Directory ==> c.children.len() == 0);
    assert(prefix.push(e)[j] == prefix[j]);
}

/// Merging one entry makes a new child only as the entry says.
proof fn lemma_merge_entry_new(node: NodeView, e: ScannedEntry, name: Seq<char>, prefix: Seq<ScannedEntry>)
    requires
        child_named(node.children, name) is Some ==> new_child_ok(
            child_named(node.children, name).unwrap(),
            name,
            prefix,
        ),
    ensures
        child_named(merge_entry(node, e).node.children, name) is Some ==> new_child_ok(
            child_named(merge_entry(node, e).node.children, name).unwrap(),
            name,
            prefix.push(e),
        ),
{
    let children = node.children;
    let q = prefix.push(e);
    let i = child_index(children, e.name@);
    lemma_child_index(children, e.name@);
    lemma_child_index(children, name);
    if child_named(children, name) is Some {
        lemma_new_child_extend(child_named(children, name).unwrap(), name, prefix, e);
    }
    if i >= 0 {
        let c = children[i];
        if c.file_type == NodeFileType::Directory {
            let r = merge_listing(c, e.contents);
            lemma_merge_listing_keeps(c, e.contents);
            lemma_child_index_update(children, i, r.node, name);
            if child_index(children, name) == i {
                let j = choose|j: int|
                    #![trigger q[j]]
                    0 <= j < q.len() && q[j].name@ == name && module_node(q[j]) is Some
                        && same_but_children(c, module_node(q[j]).unwrap()) && (c.file_type
                        != NodeFileType::Directory ==> c.children.len() == 0);
                assert(same_but_children(r.node, module_node(q[j]).unwrap()));
            }
        }
    } else {
        match module_node(e) {
            None => {},
            Some(c) => {
                let p = sorted_pos(children, e.name@);
                lemma_sorted_pos_bounds(children, e.name@);
                let added = if c.file_type == NodeFileType::Directory {
                    merge_listing(c, e.contents).node
                } else {
                    c
                };
                lemma_merge_listing_keeps(c, e.contents);
                if e.name@ != name {
                    lemma_child_named_insert(children, p, added, name);
                } else {
                    let s = children.insert(p, added);
                    assert forall|k: int| 0 <= k < p implies s[k].name != name by {
                        assert(s[k] == children[k]);
                    }
                    lemma_child_index_found(s, name, p);
                    assert(q[prefix.len() as int] == e);
                }
            },
        }
    }
}

/// Merging entries into a node makes each new child only as an entry says.
proof fn lemma_merge_entries_new(node: NodeView, entries: Seq<ScannedEntry>, name: Seq<char>)
    requires
        child_named(node.children, name) is None,
    ensures
        child_named(merge_entries(node, entries).node.children, name) is Some ==> new_child_ok(
            child_named(merge_entries(node, entries).node.children, name).unwrap(),
            name,
            entries,
        ),
    decreases entries.len(),
{
    if entries.len() > 0 {
        let init = entries.drop_last();
        lemma_merge_entries_new(node, init, name);
        let r = merge_entries(node, init);
        assert(init.push(entries.last()) =~= entries);
        if r.error is Some {
            if child_named(r.node.children, name) is Some {
                lemma_new_child_extend(child_named(r.node.children, name).unwrap(), name, init, entries.last());
            }
        } else {
            lemma_merge_entry_new(r.node, entries.last(), name, init);
        }
    }
}

/// A child that a merge adds is what an entry of the listing makes: it has
/// the entry's name and source path, is not to be skipped, is replaced only
/// if it is a directory, and has children only if it is a directory.
pub proof fn lemma_merge_new_children(node: NodeView, listing: Listing)
    ensures
        new_children_from(node, merge_listing(node, listing).node, listing),
{
    let after = merge_listing(node, listing).node;
    assert forall|name: Seq<char>|
        #[trigger] child_named(after.children, name) is Some && child_named(node.children, name) is None implies match listing {
        Listing::Entries(entries) => new_child_ok(child_named(after.children, name).unwrap(), name, entries@),
        Listing::Unreadable(_) => false,
    } by {
        match listing {
            Listing::Unreadable(_) => {},
            Listing::Entries(entries) => lemma_merge_entries_new(node, entries@, name),
        }
    }
}


/// What a node needs against the real file it would cover: a symlink always
/// needs an overlay; a whiteout needs one exactly when the real path exists;
/// a regular file or a directory needs one whenever the real path cannot be
/// read, and otherwise exactly when the real file is not of its own type.
pub proof fn lemma_needs_overlay(t: NodeFileType, real_state: RealState)
    ensures
        t == NodeFileType::Symlink ==> needs_overlay(t, real_state),
        t == NodeFileType::Whiteout ==> (needs_overlay(t, real_state) <==> real_state.exists),
        (t == NodeFileType::RegularFile || t == NodeFileType::Directory) && real_state.kind is None
            ==> needs_overlay(t, real_state),
        (t == NodeFileType::RegularFile || t == NodeFileType::Directory) && real_state.kind is Some
            ==> (needs_overlay(t, real_state) <==> kind_type(real_state.kind.unwrap()) != t),
{
}

/// Removing a child leaves a name that no child had still unfound.
pub proof fn lemma_child_index_remove_absent(children: Seq<NodeView>, i: int, name: Seq<char>)
    requires
        0 <= i < children.len(),
        child_index(children, name) == -1,
    ensures
        child_index(children.remove(i), name) == -1,
{
    lemma_child_index(children, name);
    let s = children.remove(i);
    assert forall|k: int| 0 <= k < s.len() implies s[k].name != name by {
        if k < i {
            assert(s[k] == children[k]);
        } else {
            assert(s[k] == children[k + 1]);
        }
    }
    lemma_child_index_absent(s, name);
}

/// A child put in with a name that no child had is found under that name.
pub proof fn lemma_inserted_found(children: Seq<NodeView>, p: int, c: NodeView)
    requires
        0 <= p <= children.len(),
        child_index(children, c.name) == -1,
    ensures
        child_named(children.insert(p, c), c.name) == Some(c),
{
    lemma_child_index(children, c.name);
    let s = children.insert(p, c);
    assert forall|k: int| 0 <= k < p implies s[k].name != c.name by {
        assert(s[k] == children[k]);
    }
    lemma_child_index_found(s, c.name, p);
}

/// Merging one entry whose metadata could be read leaves a child of its
/// name; and a child that this merge adds and that is not a directory makes
/// the merge report files.
proof fn lemma_merge_entry_places(node: NodeView, e: ScannedEntry, name: Seq<char>)
    ensures
        merge_entry(node, e).error is None && e.meta is Some ==> child_named(
            merge_entry(node, e).node.children,
            e.name@,
        ) is Some,
        child_named(node.children, name) is None && child_named(merge_entry(node, e).node.children, name) is Some
            && child_named(merge_entry(node, e).node.children, name).unwrap().file_type
            != NodeFileType::Directory ==> merge_entry(node, e).has_file,
{
    let children = node.children;
    let i = child_index(children, e.name@);
    lemma_child_index(children, e.name@);
    lemma_child_index(children, name);
    lemma_merge_entry_keeps_children(node, e);
    if i >= 0 {
        let c = children[i];
        assert(child_named(children, e.name@) is Some);
        if c.file_type == NodeFileType::Directory {
            let r = merge_listing(c, e.contents);
            lemma_merge_listing_keeps(c, e.contents);
            lemma_child_index_update(children, i, r.node, name);
        }
    } else {
        match module_node(e) {
            None => {},
            Some(c) => {
                let p = sorted_pos(children, e.name@);
                lemma_sorted_pos_bounds(children, e.name@);
                lemma_merge_listing_keeps(c, e.contents);
                let added = if c.file_type == NodeFileType::Directory {
                    merge_listing(c, e.contents).node
                } else {
                    c
                };
                lemma_inserted_found(children, p, added);
                if e.name@ != name {
                    lemma_child_named_insert(children, p, added, name);
                }
            },
        }
    }
}

/// Merging entries: after a successful merge every entry whose metadata
/// could be read has a child of its name, and a child that was not there
/// and is not a directory makes the merge report files.
proof fn lemma_merge_entries_places(node: NodeView, entries: Seq<ScannedEntry>, name: Seq<char>)
    ensures
        merge_entries(node, entries).error is None ==> forall|j: int|
            0 <= j < entries.len() && (#[trigger] entries[j]).meta is Some ==> child_named(
                merge_entries(node, entries).node.children,
                entries[j].name@,
            ) is Some,
        merge_entries(node, entries).error is None && child_named(node.children, name) is None
            && child_named(merge_entries(node, entries).node.children, name) is Some && child_named(
            merge_entries(node, entries).node.children,
            name,
        ).unwrap().file_type != NodeFileType::Directory ==> merge_entries(node, entries).has_file,
    decreases entries.len(),
{
    if entries.len() > 0 {
        let init = entries.drop_last();
        let e = entries.last();
        lemma_merge_entries_places(node, init, name);
        let r0 = merge_entries(node, init);
        if r0.error is None {
            let r2 = merge_entry(r0.node, e);
            lemma_merge_entry_places(r0.node, e, name);
            lemma_merge_entry_keeps_children(r0.node, e);
            if r2.error is None {
                assert forall|j: int|
                    0 <= j < entries.len() && (#[trigger] entries[j]).meta is Some implies child_named(
                    r2.node.children,
                    entries[j].name@,
                ) is Some by {
                    if j < entries.len() - 1 {
                        assert(entries[j] == init[j]);
                        assert(child_named(r0.node.children, init[j].name@) is Some);
                    }
                }
                if child_named(r0.node.children, name) is Some {
                    assert(child_named(r2.node.children, name) is Some);
                }
            }
        }
    }
}

/// A successful merge places every listed entry whose metadata could be
/// read: a child of its name is there afterwards (an entry with no such
/// child makes one). And a merge that adds a child that is not a directory
/// reports that files were found.
pub proof fn lemma_merge_places_entries(node: NodeView, listing: Listing, name: Seq<char>)
    ensures
        merge_listing(node, listing).error is None ==> forall|j: int|
            0 <= j < listing_entries(listing).len() && (#[trigger] listing_entries(listing)[j]).meta is Some
                ==> child_named(merge_listing(node, listing).node.children, listing_entries(listing)[j].name@) is Some,
        merge_listing(node, listing).error is None && child_named(node.children, name) is None
            && child_named(merge_listing(node, listing).node.children, name) is Some && child_named(
            merge_listing(node, listing).node.children,
            name,
        ).unwrap().file_type != NodeFileType::Directory ==> merge_listing(node, listing).has_file,
{
    match listing {
        Listing::Unreadable(_) => {},
        Listing::Entries(entries) => lemma_merge_entries_places(node, entries@, name),
    }
}

/// The entries of a listing (none when it could not be read).
pub open spec fn listing_entries(listing: Listing) -> Seq<ScannedEntry> {
    match listing {
        Listing::Entries(entries) => entries@,
        Listing::Unreadable(_) => Seq::empty(),
    }
}
} // verus!
