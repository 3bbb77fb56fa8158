//! The modules: which of them take part, which of their partitions are
//! mounted, and the tree that the files of all of them make.
use vstd::prelude::*;
use vstd::string::*;

use crate::error::{MountError, MountErrorView};
use crate::node::{
    child_index, lemma_all_sorted, lemma_child_index, lemma_leaf_sorted, lemma_merge_listing_keeps,
    lemma_sorted_pos_bounds, lemma_sorted_tree_insert, lemma_sorted_tree_update, lemma_views,
    lemma_views_insert, lemma_views_update, merge_listing, same_but_children, sorted_pos, sorted_tree,
    child_named, lemma_child_index_update, lemma_inserted_found, lemma_merge_places_entries, Listing,
    Node, NodeFileType, NodeView,
};

verus! {

/// The partitions that a module can hold files for, in the order they are
/// collected, each with whether it is only mounted when `/system` links to
/// it.
pub open spec fn partition_table() -> Seq<(Seq<char>, bool)> {
    seq![
        ("system"@, false),
        ("vendor"@, true),
        ("system_ext"@, true),
        ("product"@, true),
        ("odm"@, false),
        ("oem"@, false),
        ("apex"@, true),
        ("mi_ext"@, true),
        ("my_bigball"@, true),
        ("my_carrier"@, true),
        ("my_company"@, true),
        ("my_engineering"@, true),
        ("my_heytap"@, true),
        ("my_manifest"@, true),
        ("my_preload"@, true),
        ("my_product"@, true),
        ("my_region"@, true),
        ("my_reserve"@, true),
        ("my_stock"@, true),
        ("optics"@, true),
        ("prism"@, true),
    ]
}

/// The views of a partition table.
pub open spec fn table_views(table: Seq<(&'static str, bool)>) -> Seq<(Seq<char>, bool)> {
    table.map_values(|entry: (&'static str, bool)| (entry.0@, entry.1))
}

/// The partitions that a module can hold files for, with whether each is
/// only mounted when `/system` links to it.
pub fn module_partitions() -> (table: Vec<(&'static str, bool)>)
    ensures
        table_views(table@) == partition_table(),
{
    let mut table: Vec<(&'static str, bool)> = Vec::new();
    table.push(("system", false));
    table.push(("vendor", true));
    table.push(("system_ext", true));
    table.push(("product", true));
    table.push(("odm", false));
    table.push(("oem", false));
    table.push(("apex", true));
    table.push(("mi_ext", true));
    table.push(("my_bigball", true));
    table.push(("my_carrier", true));
    table.push(("my_company", true));
    table.push(("my_engineering", true));
    table.push(("my_heytap", true));
    table.push(("my_manifest", true));
    table.push(("my_preload", true));
    table.push(("my_product", true));
    table.push(("my_region", true));
    table.push(("my_reserve", true));
    table.push(("my_stock", true));
    table.push(("optics", true));
    table.push(("prism", true));
    proof {
        assert(table_views(table@) =~= partition_table());
    }
    table
}

/// Whether a module takes part: it is a directory with a `module.prop`, and
/// it is neither disabled, nor to be removed, nor kept from mounting.
pub fn module_is_active(is_dir: bool, has_prop: bool, disabled: bool, removed: bool, skip_mount: bool) -> (active:
    bool)
    ensures
        active == (is_dir && has_prop && !disabled && !removed && !skip_mount),
{
    is_dir && has_prop && !disabled && !removed && !skip_mount
}

/// Whether a module's partition directory is mounted: the module has it as
/// a directory, the partition is a directory at the root, and, for a
/// partition that needs it, `/system/<partition>` is a symlink.
pub fn partition_applies(
    require_symlink: bool,
    module_dir_is_dir: bool,
    root_is_dir: bool,
    system_is_symlink: bool,
) -> (applies: bool)
    ensures
        applies == (module_dir_is_dir && root_is_dir && (require_symlink ==> system_is_symlink)),
{
    module_dir_is_dir && root_is_dir && (!require_symlink || system_is_symlink)
}

/// What was read of one partition directory of a module.
#[derive(Debug)]
pub struct PartitionScan {
    /// Whether the module has the partition as a directory.
    pub module_dir_is_dir: bool,
    /// Whether the partition is a directory at the root.
    pub root_is_dir: bool,
    /// Whether `/system/<partition>` is a symlink.
    pub system_is_symlink: bool,
    /// The listing of the module's partition directory (see
    /// `ModuleTree::partition` for what to read of it).
    pub listing: Listing,
}

/// What was read of one entry of the modules directory.
#[derive(Debug)]
pub struct ModuleScan {
    /// Whether the entry is a directory (without following a symlink).
    pub is_dir: bool,
    /// Whether it holds a `module.prop`.
    pub has_prop: bool,
    /// Whether it holds the file that disables it.
    pub disabled: bool,
    /// Whether it holds the file that marks it for removal.
    pub removed: bool,
    /// Whether it holds the file that keeps it from mounting.
    pub skip_mount: bool,
    /// One scan for each partition of `module_partitions()`, in its order.
    pub partitions: Vec<PartitionScan>,
}

/// Whether a partition of a module is mounted (see `partition_applies`).
pub open spec fn scan_applies(require_symlink: bool, p: PartitionScan) -> bool {
    p.module_dir_is_dir && p.root_is_dir && (require_symlink ==> p.system_is_symlink)
}

/// Whether a module takes part (see `module_is_active`).
pub open spec fn scan_active(m: ModuleScan) -> bool {
    m.is_dir && m.has_prop && !m.disabled && !m.removed && !m.skip_mount
}

/// The tree of the files of all modules, rooted at `/`, with whether any
/// file to mount was found.
pub struct ModuleTree {
    root: Node,
    has_file: bool,
}

/// The mathematical value of a `ModuleTree`.
pub struct ModuleTreeView {
    pub root: NodeView,
    pub has_file: bool,
}

impl View for ModuleTree {
    type V = ModuleTreeView;

    closed spec fn view(&self) -> ModuleTreeView {
        ModuleTreeView { root: self.root@, has_file: self.has_file }
    }
}

/// The node of a directory with no module behind it and no children.
pub open spec fn directory_root(name: Seq<char>) -> NodeView {
    NodeView {
        name,
        file_type: NodeFileType::Directory,
        children: Seq::empty(),
        module_source: None,
        replace: false,
        skip: false,
    }
}

/// Whether `name` is one of the partitions of the table.
pub open spec fn is_partition(name: Seq<char>) -> bool {
    exists|k: int| 0 <= k < partition_table().len() && #[trigger] partition_table()[k].0 == name
}

/// The shape of the root of the tree: the directory `/` with no module
/// behind it, whose children are partition directories with no module
/// behind them, neither replaced nor skipped.
pub open spec fn root_shape(root: NodeView) -> bool {
    &&& same_but_children(root, directory_root(""@))
    &&& forall|i: int|
        0 <= i < root.children.len() ==> is_partition(#[trigger] root.children[i].name)
            && same_but_children(root.children[i], directory_root(root.children[i].name))
}

/// What merging into the tree leaves: the tree as far as the merge got, and
/// the message of the error that stopped it, if one did.
pub struct TreeMerge {
    pub tree: ModuleTreeView,
    pub error: Option<Seq<char>>,
}

/// Merges the listing of one partition directory of one module into the
/// tree: into the node of that partition, which is made (in name order)
/// when there is none yet, and stays, as far as its merge got, when the
/// merge fails. The tree has files once a partition brought one.
pub open spec fn merge_partition(t: ModuleTreeView, partition: Seq<char>, listing: Listing) -> TreeMerge {
    let children = t.root.children;
    let i = child_index(children, partition);
    let r = if i >= 0 {
        merge_listing(children[i], listing)
    } else {
        merge_listing(directory_root(partition), listing)
    };
    let merged = if i >= 0 {
        children.update(i, r.node)
    } else {
        children.insert(sorted_pos(children, partition), r.node)
    };
    TreeMerge {
        tree: ModuleTreeView {
            root: NodeView { children: merged, ..t.root },
            has_file: if r.error is None {
                t.has_file || r.has_file
            } else {
                t.has_file
            },
        },
        error: r.error,
    }
}

/// Merges the first `n` partitions of a module into the tree, in the order
/// of the table, each only where it applies; the first error stops it.
pub open spec fn merge_partitions(t: ModuleTreeView, scans: Seq<PartitionScan>, n: int) -> TreeMerge
    decreases n,
{
    if n <= 0 {
        TreeMerge { tree: t, error: None }
    } else {
        let r = merge_partitions(t, scans, n - 1);
        if r.error is Some {
            r
        } else {
            let (partition, require_symlink) = partition_table()[n - 1];
            if scan_applies(require_symlink, scans[n - 1]) {
                merge_partition(r.tree, partition, scans[n - 1].listing)
            } else {
                r
            }
        }
    }
}

/// Merges one module into the tree: nothing when it does not take part,
/// else each of its partitions that applies.
pub open spec fn merge_module(t: ModuleTreeView, m: ModuleScan) -> TreeMerge {
    if !scan_active(m) {
        TreeMerge { tree: t, error: None }
    } else {
        merge_partitions(t, m.partitions@, partition_table().len() as int)
    }
}

/// Once merging the first partitions fails, merging more leaves the same.
proof fn lemma_partition_error_stays(t: ModuleTreeView, scans: Seq<PartitionScan>, k: int, j: int)
    requires
        0 <= k <= j,
        merge_partitions(t, scans, k).error is Some,
    ensures
        merge_partitions(t, scans, j) == merge_partitions(t, scans, k),
    decreases j - k,
{
    if j > k {
        lemma_partition_error_stays(t, scans, k, j - 1);
    }
}

/// The root keeps its shape when a partition is replaced by one that agrees
/// with it on everything but its children.
proof fn lemma_shape_update(root: NodeView, i: int, c: NodeView)
    requires
        root_shape(root),
        0 <= i < root.children.len(),
        same_but_children(c, root.children[i]),
    ensures
        root_shape(NodeView { children: root.children.update(i, c), ..root }),
{
    let s = root.children.update(i, c);
    assert forall|k: int| 0 <= k < s.len() implies is_partition(#[trigger] s[k].name) && same_but_children(
        s[k],
        directory_root(s[k].name),
    ) by {
        if k != i {
            assert(s[k] == root.children[k]);
        } else {
            assert(is_partition(root.children[i].name));
        }
    }
}

/// The root keeps its shape when a new partition directory is put in.
proof fn lemma_shape_insert(root: NodeView, p: int, c: NodeView)
    requires
        root_shape(root),
        0 <= p <= root.children.len(),
        is_partition(c.name),
        same_but_children(c, directory_root(c.name)),
    ensures
        root_shape(NodeView { children: root.children.insert(p, c), ..root }),
{
    let s = root.children.insert(p, c);
    assert forall|k: int| 0 <= k < s.len() implies is_partition(#[trigger] s[k].name) && same_but_children(
        s[k],
        directory_root(s[k].name),
    ) by {
        if k < p {
            assert(s[k] == root.children[k]);
        } else if k > p {
            assert(s[k] == root.children[k - 1]);
        }
    }
}

impl ModuleTree {
    /// Every level of the tree keeps its children sorted by name, so no two
    /// children of a directory share a name; the root is `/` and its
    /// children are the partition directories.
    #[verifier::type_invariant]
    spec fn well_formed(self) -> bool {
        sorted_tree(self.root@) && root_shape(self.root@)
    }

    /// An empty tree: the root directory, with no files found.
    pub fn new() -> (tree: ModuleTree)
        ensures
            tree@ == (ModuleTreeView { root: directory_root(""@), has_file: false }),
    {
        let root = Node::new_root("");
        proof {
            lemma_leaf_sorted(root@);
        }
        ModuleTree { root, has_file: false }
    }

    /// The node of the partition `name`, if the tree has one yet.
    pub fn partition(&self, name: &String) -> (node: Option<&Node>)
        ensures
            match node {
                Some(n) => child_index(self@.root.children, name@) >= 0 && n@ == self@.root.children[child_index(
                    self@.root.children,
                    name@,
                )],
                None => child_index(self@.root.children, name@) == -1,
            },
    {
        self.root.child(name)
    }

    /// The root of the tree when any file to mount was found. It is the
    /// directory `/` with no module behind it, its children are partition
    /// directories of the table with no module behind them, neither
    /// replaced nor skipped, and every level is sorted by name.
    pub fn into_root(self) -> (root: Option<Node>)
        ensures
            self@.has_file ==> (root matches Some(r) && r@ == self@.root && sorted_tree(r@) && root_shape(
                r@,
            )),
            !self@.has_file ==> root is None,
    {
        proof {
            use_type_invariant(&self);
        }
        if self.has_file {
            Some(self.root)
        } else {
            None
        }
    }
}

/// Collects the files of one partition of one module, whose directory
/// listing is `listing`, into the tree. A listing that could not be read
/// anywhere in it is an error, and the tree keeps what was merged so far.
fn collect_partition(tree: &mut ModuleTree, partition: &str, listing: &Listing) -> (result: Result<
    (),
    MountError,
>)
    requires
        is_partition(partition@),
    ensures
        final(tree)@ == merge_partition(old(tree)@, partition@, *listing).tree,
        match merge_partition(old(tree)@, partition@, *listing).error {
            None => result is Ok,
            Some(m) => result matches Err(e) && e@ == (MountErrorView {
                message: m,
                context: Seq::empty(),
            }),
        },
{
    proof {
        use_type_invariant(&*tree);
    }
    let ghost start = tree@;
    let mut root = Node::new_root("");
    proof {
        lemma_leaf_sorted(root@);
    }
    core::mem::swap(&mut root, &mut tree.root);
    let name = String::from_str(partition);
    proof {
        lemma_views(root.children@);
        lemma_child_index(root@.children, name@);
        lemma_all_sorted(root@.children);
    }
    match root.find_child(&name) {
        Some(i) => {
            let ghost before = root.children@;
            let ghost old_child = root@.children[i as int];
            let mut child = root.children.remove(i);
            proof {
                assert(child@ == old_child);
                assert(sorted_tree(old_child));
            }
            let r = child.collect_module_files(listing);
            root.children.insert(i, child);
            proof {
                assert(root.children@ =~= before.update(i as int, child));
                lemma_views_update(before, i as int, child);
                lemma_sorted_tree_update(start.root, i as int, child@);
                lemma_shape_update(start.root, i as int, child@);
            }
            tree.root = root;
            match r {
                Err(e) => Err(e),
                Ok(h) => {
                    tree.has_file = tree.has_file || h;
                    Ok(())
                },
            }
        },
        None => {
            let mut node = Node::new_root(partition);
            proof {
                lemma_leaf_sorted(node@);
            }
            let r = node.collect_module_files(listing);
            let p = root.sorted_position(&name);
            let ghost before = root.children@;
            root.children.insert(p, node);
            proof {
                lemma_sorted_pos_bounds(start.root.children, name@);
                lemma_views_insert(before, p as int, node);
                lemma_sorted_tree_insert(start.root, node@);
                lemma_shape_insert(start.root, p as int, node@);
            }
            tree.root = root;
            match r {
                Err(e) => Err(e),
                Ok(h) => {
                    tree.has_file = tree.has_file || h;
                    Ok(())
                },
            }
        },
    }
}

/// Collects the files of one module into the tree: when the module takes
/// part, each of its partitions that applies, in the order of the table.
/// A listing that could not be read anywhere in them is an error, and the
/// tree keeps what was merged so far.
pub fn collect_module_files(tree: &mut ModuleTree, module: &ModuleScan) -> (result: Result<(), MountError>)
    requires
        module.partitions.len() == partition_table().len(),
    ensures
        final(tree)@ == merge_module(old(tree)@, *module).tree,
        match merge_module(old(tree)@, *module).error {
            None => result is Ok,
            Some(m) => result matches Err(e) && e@ == (MountErrorView {
                message: m,
                context: Seq::empty(),
            }),
        },
{
    if !module_is_active(module.is_dir, module.has_prop, module.disabled, module.removed, module.skip_mount) {
        return Ok(());
    }
    let table = module_partitions();
    let count = table.len();
    let ghost start = tree@;
    let ghost scans = module.partitions@;
    let mut i: usize = 0;
    while i < count
        invariant
            i <= count,
            count == partition_table().len(),
            count == module.partitions.len(),
            scans == module.partitions@,
            scan_active(*module),
            table_views(table@) == partition_table(),
            start == old(tree)@,
            merge_partitions(start, scans, i as int) == (TreeMerge { tree: tree@, error: None }),
        decreases count - i,
    {
        let (partition, require_symlink) = table[i];
        let scan = &module.partitions[i];
        proof {
            assert(table_views(table@)[i as int] == partition_table()[i as int]);
            assert(partition_table()[i as int] == (partition@, require_symlink));
            assert(is_partition(partition@));
        }
        let ghost before = tree@;
        if partition_applies(require_symlink, scan.module_dir_is_dir, scan.root_is_dir, scan.system_is_symlink) {
            let r = collect_partition(tree, partition, &scan.listing);
            proof {
                assert(scan_applies(require_symlink, scans[i as int]));
                assert(merge_partitions(start, scans, i + 1) == merge_partition(
                    before,
                    partition@,
                    scans[i as int].listing,
                ));
            }
            match r {
                Err(e) => {
                    proof {
                        lemma_partition_error_stays(start, scans, i + 1, count as int);
                    }
                    return Err(e);
                },
                Ok(()) => {},
            }
        }
        i = i + 1;
    }
    Ok(())
}


/// The node that a partition's listing is merged into: the partition's node
/// in the tree, or a new partition directory when the tree has none yet.
pub open spec fn partition_base(t: ModuleTreeView, partition: Seq<char>) -> NodeView {
    let i = child_index(t.root.children, partition);
    if i >= 0 {
        t.root.children[i]
    } else {
        directory_root(partition)
    }
}

/// Merging a partition treats a new partition like one already there:
/// after a successful merge the partition's node is in the tree, merged
/// with the listing; the tree has files exactly when it had them before or
/// the listing brought a file; and when the listing adds a child that is
/// not a directory to the partition's node, the tree has files.
pub proof fn lemma_partition_merge(t: ModuleTreeView, partition: Seq<char>, listing: Listing, name: Seq<char>)
    ensures
        merge_partition(t, partition, listing).error is None ==> child_named(
            merge_partition(t, partition, listing).tree.root.children,
            partition,
        ) == Some(merge_listing(partition_base(t, partition), listing).node),
        merge_partition(t, partition, listing).error is None ==> (merge_partition(
            t,
            partition,
            listing,
        ).tree.has_file <==> (t.has_file || merge_listing(partition_base(t, partition), listing).has_file)),
        merge_partition(t, partition, listing).error is None && child_named(
            partition_base(t, partition).children,
            name,
        ) is None && child_named(merge_listing(partition_base(t, partition), listing).node.children, name) is Some
            && child_named(
            merge_listing(partition_base(t, partition), listing).node.children,
            name,
        ).unwrap().file_type != NodeFileType::Directory ==> merge_partition(t, partition, listing).tree.has_file,
{
    let children = t.root.children;
    let base = partition_base(t, partition);
    let m = merge_listing(base, listing);
    let i = child_index(children, partition);
    lemma_child_index(children, partition);
    lemma_merge_listing_keeps(base, listing);
    lemma_merge_places_entries(base, listing, name);
    if i >= 0 {
        lemma_child_index_update(children, i, m.node, partition);
    } else {
        lemma_sorted_pos_bounds(children, partition);
        lemma_inserted_found(children, sorted_pos(children, partition), m.node);
    }
}
} // verus!
