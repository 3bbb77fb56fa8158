//! The decisions taken on a directory while the tree is mounted: whether it
//! needs an overlay, which of its children are visited in which order, and
//! what becomes of a child's failure.
use vstd::prelude::*;

use vstd::multiset::Multiset;

use crate::error::{MountError, MountErrorView};
use crate::node::{
    child_index, find_in, lemma_child_index, lemma_child_index_remove_absent, lemma_views,
    needs_overlay, views, Node, NodeView, RealState,
};
use crate::text::string_views;

verus! {

/// What is to be done with a child of a directory: visit a child node, mirror
/// an entry of the real directory that has no node, or mark the directory
/// as opaque.
#[derive(Debug)]
pub enum ChildTask {
    Visit(Node),
    Mirror(String),
    Opaque,
}

/// The mathematical value of a `ChildTask`.
pub enum TaskView {
    Visit(NodeView),
    Mirror(Seq<char>),
    Opaque,
}

impl View for ChildTask {
    type V = TaskView;

    open spec fn view(&self) -> TaskView {
        match self {
            ChildTask::Visit(n) => TaskView::Visit(n@),
            ChildTask::Mirror(name) => TaskView::Mirror(name@),
            ChildTask::Opaque => TaskView::Opaque,
        }
    }
}

/// The views of a sequence of tasks.
pub open spec fn task_views(tasks: Seq<ChildTask>) -> Seq<TaskView> {
    tasks.map_values(|t: ChildTask| t@)
}

/// What becomes of the result of mounting a child: `Err` when the failure
/// must end the parent too, `Ok(Some(e))` when it is only to be logged.
pub open spec fn handled(result: Result<(), MountErrorView>, has_overlay: bool) -> Result<
    Option<MountErrorView>,
    MountErrorView,
> {
    match result {
        Ok(()) => Ok(None),
        Err(e) => if has_overlay {
            Err(e)
        } else {
            Ok(Some(e))
        },
    }
}

/// Under an overlay a child's failure is the parent's failure, since the
/// overlay is already half built; without one, it is logged and the other
/// children go on.
pub fn handle_mount_result(result: Result<(), MountError>, has_overlay: bool) -> (handled_result:
    Result<Option<MountError>, MountError>)
    ensures
        handled(
            match result {
                Ok(()) => Ok(()),
                Err(e) => Err(e@),
            },
            has_overlay,
        ) == match handled_result {
            Ok(None) => Ok(None),
            Ok(Some(e)) => Ok(Some(e@)),
            Err(e) => Err::<Option<MountErrorView>, MountErrorView>(e@),
        },
{
    match result {
        Ok(()) => Ok(None),
        Err(e) => if has_overlay {
            Err(e)
        } else {
            Ok(Some(e))
        },
    }
}

/// Whether a directory gets an overlay of its own: never under another
/// overlay, and only when it comes from a module; then when it is replaced,
/// or when one of its children needs one over the real file it covers.
pub open spec fn overlay_decision(node: NodeView, has_overlay: bool, observed: Seq<RealState>) -> bool {
    &&& !has_overlay
    &&& node.module_source is Some
    &&& (node.replace || exists|i: int|
        0 <= i < node.children.len() && needs_overlay(
            #[trigger] node.children[i].file_type,
            observed[i],
        ))
}

/// Whether the child at `i` is to be skipped: a directory with no module
/// behind it, and under no overlay, cannot cover a child that needs one.
pub open spec fn skipped_child(node: NodeView, has_overlay: bool, observed: Seq<RealState>, i: int) -> bool {
    !has_overlay && node.module_source is None && needs_overlay(node.children[i].file_type, observed[i])
}

/// The children once the ones to skip are marked.
pub open spec fn mark_skips(node: NodeView, has_overlay: bool, observed: Seq<RealState>) -> NodeView {
    NodeView {
        children: Seq::new(
            node.children.len(),
            |i: int|
                NodeView {
                    skip: node.children[i].skip || skipped_child(node, has_overlay, observed, i),
                    ..node.children[i]
                },
        ),
        ..node
    }
}

/// Decides whether the directory `current` gets an overlay of its own, given
/// what lies at the real path of each of its children (`observed`, in the
/// order of the children), and marks the children that have to be skipped.
pub fn should_create_overlay(current: &mut Node, has_overlay: bool, observed: &Vec<RealState>) -> (create:
    bool)
    requires
        observed.len() == old(current).children.len(),
    ensures
        create == overlay_decision(old(current)@, has_overlay, observed@),
        final(current)@ == mark_skips(old(current)@, has_overlay, observed@),
{
    let ghost start = current@;
    proof {
        lemma_views(current.children@);
    }
    if has_overlay {
        proof {
            assert(current@.children =~= mark_skips(start, has_overlay, observed@).children);
        }
        return false;
    }
    if current.replace && current.module_source.is_some() {
        proof {
            assert(current@.children =~= mark_skips(start, has_overlay, observed@).children);
        }
        return true;
    }
    let mut i: usize = 0;
    while i < current.children.len()
        invariant
            i <= current.children.len(),
            start == old(current)@,
            observed.len() == current.children.len(),
            !has_overlay,
            !(start.replace && start.module_source is Some),
            current@.name == start.name,
            current@.file_type == start.file_type,
            current@.module_source == start.module_source,
            current@.replace == start.replace,
            current@.skip == start.skip,
            current.children.len() == start.children.len(),
            forall|k: int|
                0 <= k < i ==> #[trigger] current@.children[k] == mark_skips(
                    start,
                    has_overlay,
                    observed@,
                ).children[k],
            forall|k: int| i <= k < current.children.len() ==> #[trigger] current@.children[k] == start.children[k],
            start.module_source is Some ==> forall|k: int|
                0 <= k < i ==> !needs_overlay(#[trigger] start.children[k].file_type, observed@[k]),
            views(current.children@).len() == current.children@.len(),
        decreases current.children.len() - i,
    {
        proof {
            lemma_views(current.children@);
        }
        if current.children[i].file_type.needs_overlay_vs_real(&observed[i]) {
            if current.module_source.is_none() {
                let ghost before = current.children@;
                let ghost before_view = current@;
                proof {
                    lemma_views(before);
                    assert(before_view.children[i as int] == before[i as int].view_node());
                }
                let mut child = current.children.remove(i);
                proof {
                    assert(child.view_node() == start.children[i as int]);
                }
                child.skip = true;
                proof {
                    assert(child.view_node() == mark_skips(start, has_overlay, observed@).children[i as int]);
                }
                current.children.insert(i, child);
                proof {
                    assert(current.children@ =~= before.update(i as int, child));
                    lemma_views(before);
                    lemma_views(current.children@);
                    assert forall|k: int| 0 <= k < current.children.len() && k != i implies #[trigger] current@.children[k] == before_view.children[k] by {}
                }
                i = i + 1;
                continue;
            }
            proof {
                assert(current@.children[i as int] == current.children@[i as int].view_node());
                assert(needs_overlay(start.children[i as int].file_type, observed@[i as int]));
                assert(current@.children =~= mark_skips(start, has_overlay, observed@).children);
            }
            return true;
        }
        i = i + 1;
    }
    proof {
        lemma_views(current.children@);
        assert(current@.children =~= mark_skips(start, has_overlay, observed@).children);
    }
    false
}

/// One real entry of a directory: a child node of that name is taken out of
/// the children and visited, unless it is to be skipped; a real entry with
/// no node is mirrored under an overlay, and left alone otherwise.
pub open spec fn existing_step(
    state: (Seq<NodeView>, Seq<TaskView>),
    name: Seq<char>,
    has_overlay: bool,
) -> (Seq<NodeView>, Seq<TaskView>) {
    let children = state.0;
    let tasks = state.1;
    let i = child_index(children, name);
    if i >= 0 {
        if children[i].skip {
            (children.remove(i), tasks)
        } else {
            (children.remove(i), tasks.push(TaskView::Visit(children[i])))
        }
    } else if has_overlay {
        (children, tasks.push(TaskView::Mirror(name)))
    } else {
        (children, tasks)
    }
}

/// The children left and the tasks made once the real entries `names` were
/// gone through in their order.
pub open spec fn existing_tasks(children: Seq<NodeView>, names: Seq<Seq<char>>, has_overlay: bool) -> (
    Seq<NodeView>,
    Seq<TaskView>,
)
    decreases names.len(),
{
    if names.len() == 0 {
        (children, Seq::empty())
    } else {
        existing_step(existing_tasks(children, names.drop_last(), has_overlay), names.last(), has_overlay)
    }
}

/// The views of the children with one child taken out.
proof fn lemma_views_remove(children: Seq<Node>, i: int)
    requires
        0 <= i < children.len(),
    ensures
        views(children.remove(i)) == views(children).remove(i),
{
    lemma_views(children);
    lemma_views(children.remove(i));
    assert(views(children.remove(i)) =~= views(children).remove(i));
}

/// Goes through the real entries of a directory (`entries`, in the order
/// the system listed them) and makes the tasks they call for, taking the
/// children they name out of `children`.
pub fn process_existing_entries(children: &mut Vec<Node>, entries: &Vec<String>, has_overlay: bool) -> (tasks:
    Vec<ChildTask>)
    ensures
        (views(final(children)@), task_views(tasks@)) == existing_tasks(
            views(old(children)@),
            string_views(entries@),
            has_overlay,
        ),
{
    let ghost start = views(children@);
    let ghost names = string_views(entries@);
    let mut tasks: Vec<ChildTask> = Vec::new();
    let mut i: usize = 0;
    proof {
        assert(names.take(0) =~= Seq::<Seq<char>>::empty());
        assert(task_views(tasks@) =~= Seq::<TaskView>::empty());
    }
    while i < entries.len()
        invariant
            i <= entries.len(),
            start == views(old(children)@),
            names == string_views(entries@),
            (views(children@), task_views(tasks@)) == existing_tasks(start, names.take(i as int), has_overlay),
        decreases entries.len() - i,
    {
        proof {
            assert(names.take(i + 1).drop_last() =~= names.take(i as int));
            assert(names.take(i + 1).last() == entries@[i as int]@);
            lemma_views(children@);
        }
        let ghost before = children@;
        let ghost before_tasks = tasks@;
        match find_in(children, &entries[i]) {
            Some(k) => {
                let child = children.remove(k);
                proof {
                    lemma_views_remove(before, k as int);
                }
                if !child.skip {
                    tasks.push(ChildTask::Visit(child));
                    proof {
                        assert(task_views(tasks@) =~= task_views(before_tasks).push(TaskView::Visit(views(before)[k as int])));
                    }
                }
            },
            None => {
                if has_overlay {
                    tasks.push(ChildTask::Mirror(entries[i].clone()));
                    proof {
                        assert(task_views(tasks@) =~= task_views(before_tasks).push(TaskView::Mirror(entries@[i as int]@)));
                    }
                }
            },
        }
        i = i + 1;
    }
    proof {
        assert(names.take(entries.len() as int) =~= names);
    }
    tasks
}

/// The children still to visit after the real entries: all but the skipped
/// ones, in name order.
pub open spec fn remaining_tasks(children: Seq<NodeView>) -> Seq<TaskView>
    decreases children.len(),
{
    if children.len() == 0 {
        Seq::empty()
    } else {
        let r = remaining_tasks(children.drop_last());
        if children.last().skip {
            r
        } else {
            r.push(TaskView::Visit(children.last()))
        }
    }
}

/// Makes a visit of every child that is not to be skipped, in their order.
pub fn process_remaining_children(children: Vec<Node>) -> (tasks: Vec<ChildTask>)
    ensures
        task_views(tasks@) == remaining_tasks(views(children@)),
{
    let ghost start = views(children@);
    let mut children = children;
    let mut tasks: Vec<ChildTask> = Vec::new();
    let ghost mut taken: int = 0;
    proof {
        lemma_views(children@);
        assert(start.take(0) =~= Seq::<NodeView>::empty());
        assert(task_views(tasks@) =~= Seq::<TaskView>::empty());
        assert(views(children@) =~= start.skip(0));
    }
    while children.len() > 0
        invariant
            0 <= taken <= start.len(),
            views(children@) == start.skip(taken),
            task_views(tasks@) == remaining_tasks(start.take(taken)),
        decreases children.len(),
    {
        proof {
            lemma_views(children@);
            assert(start.take(taken + 1).drop_last() =~= start.take(taken));
            assert(start.take(taken + 1).last() == start[taken]);
        }
        let ghost before = children@;
        let ghost before_tasks = tasks@;
        proof {
            assert(views(before)[0] == before[0].view_node());
            assert(views(before)[0] == start.skip(taken)[0]);
        }
        let child = children.remove(0);
        proof {
            lemma_views_remove(before, 0);
            assert(views(before).remove(0) =~= start.skip(taken + 1));
            assert(child.view_node() == start[taken]);
        }
        if !child.skip {
            tasks.push(ChildTask::Visit(child));
            proof {
                assert(task_views(tasks@) =~= task_views(before_tasks).push(TaskView::Visit(start[taken])));
            }
        }
        proof {
            taken = taken + 1;
        }
    }
    proof {
        lemma_views(children@);
        assert(start.take(taken) =~= start);
    }
    tasks
}

/// The nodes that a list of tasks visits, counted with multiplicity.
pub open spec fn visited(tasks: Seq<TaskView>) -> Multiset<NodeView>
    decreases tasks.len(),
{
    if tasks.len() == 0 {
        Multiset::empty()
    } else {
        let r = visited(tasks.drop_last());
        match tasks.last() {
            TaskView::Visit(n) => r.insert(n),
            _ => r,
        }
    }
}

/// The children that are not to be skipped, counted with multiplicity.
pub open spec fn unskipped(children: Seq<NodeView>) -> Multiset<NodeView>
    decreases children.len(),
{
    if children.len() == 0 {
        Multiset::empty()
    } else {
        let r = unskipped(children.drop_last());
        if children.last().skip {
            r
        } else {
            r.insert(children.last())
        }
    }
}

/// The child at `i`, counted when it is not to be skipped.
pub open spec fn unskipped_one(c: NodeView) -> Multiset<NodeView> {
    if c.skip {
        Multiset::empty()
    } else {
        Multiset::singleton(c)
    }
}

/// The visits of two task lists one after the other.
pub proof fn lemma_visited_append(a: Seq<TaskView>, b: Seq<TaskView>)
    ensures
        visited(a + b) == visited(a).add(visited(b)),
    decreases b.len(),
{
    if b.len() == 0 {
        assert(a + b =~= a);
        assert(visited(a).add(visited(b)) =~= visited(a));
    } else {
        assert((a + b).drop_last() =~= a + b.drop_last());
        lemma_visited_append(a, b.drop_last());
        match b.last() {
            TaskView::Visit(n) => {
                assert(visited(a + b) =~= visited(a).add(visited(b)));
            },
            _ => {},
        }
    }
}

/// The remaining children make a visit of each child not to be skipped.
pub proof fn lemma_remaining_visits(children: Seq<NodeView>)
    ensures
        visited(remaining_tasks(children)) == unskipped(children),
    decreases children.len(),
{
    if children.len() > 0 {
        lemma_remaining_visits(children.drop_last());
        let r = remaining_tasks(children.drop_last());
        if !children.last().skip {
            assert(r.push(TaskView::Visit(children.last())).drop_last() =~= r);
        }
    }
}

/// Taking one child out takes it out of the children not to be skipped.
proof fn lemma_unskipped_remove(children: Seq<NodeView>, i: int)
    requires
        0 <= i < children.len(),
    ensures
        unskipped(children) == unskipped(children.remove(i)).add(unskipped_one(children[i])),
    decreases children.len(),
{
    let n = children.len() - 1;
    if i == n {
        assert(children.remove(i) =~= children.drop_last());
        assert(unskipped(children) =~= unskipped(children.remove(i)).add(unskipped_one(children[i])));
    } else {
        let init = children.drop_last();
        lemma_unskipped_remove(init, i);
        let r = children.remove(i);
        assert(r.drop_last() =~= init.remove(i));
        assert(r.last() == children.last());
        assert(init[i] == children[i]);
        assert(unskipped(children) =~= unskipped(children.remove(i)).add(unskipped_one(children[i])));
    }
}

/// Going through the real entries moves each child it takes out, unless it
/// is to be skipped, into a visit.
proof fn lemma_existing_visits(children: Seq<NodeView>, names: Seq<Seq<char>>, has_overlay: bool)
    ensures
        visited(existing_tasks(children, names, has_overlay).1).add(
            unskipped(existing_tasks(children, names, has_overlay).0),
        ) == unskipped(children),
    decreases names.len(),
{
    if names.len() == 0 {
        assert(visited(Seq::<TaskView>::empty()).add(unskipped(children)) =~= unskipped(children));
    } else {
        lemma_existing_visits(children, names.drop_last(), has_overlay);
        let (rest, tasks) = existing_tasks(children, names.drop_last(), has_overlay);
        let name = names.last();
        let i = child_index(rest, name);
        lemma_child_index(rest, name);
        if i >= 0 {
            lemma_unskipped_remove(rest, i);
            if rest[i].skip {
                assert(visited(tasks).add(unskipped(rest.remove(i))) =~= visited(tasks).add(
                    unskipped(rest),
                ));
            } else {
                let t2 = tasks.push(TaskView::Visit(rest[i]));
                assert(t2.drop_last() =~= tasks);
                assert(visited(t2).add(unskipped(rest.remove(i))) =~= visited(tasks).add(
                    unskipped(rest),
                ));
            }
        } else if has_overlay {
            let t2 = tasks.push(TaskView::Mirror(name));
            assert(t2.drop_last() =~= tasks);
        }
    }
}

/// Once the real entries of a directory are listed, its tasks visit each
/// child that is not to be skipped exactly once, whichever entries the
/// listing held and in whatever order: those it names in its order, the
/// others afterwards.
pub proof fn lemma_every_child_visited_once(children: Seq<NodeView>, names: Seq<Seq<char>>, has_overlay: bool)
    ensures
        ({
            let (rest, tasks) = existing_tasks(children, names, has_overlay);
            visited(tasks + remaining_tasks(rest)) == unskipped(children)
        }),
{
    let (rest, tasks) = existing_tasks(children, names, has_overlay);
    lemma_existing_visits(children, names, has_overlay);
    lemma_visited_append(tasks, remaining_tasks(rest));
    lemma_remaining_visits(rest);
}

/// A child is marked to be skipped only where no overlay can be made: a
/// directory that skips a child never gets an overlay of its own, and a
/// directory that gets one skips none of its children.
pub proof fn lemma_skips_only_without_overlay(node: NodeView, has_overlay: bool, observed: Seq<RealState>)
    ensures
        (exists|i: int| 0 <= i < node.children.len() && #[trigger] skipped_child(node, has_overlay, observed, i))
            ==> !overlay_decision(node, has_overlay, observed),
        overlay_decision(node, has_overlay, observed) ==> mark_skips(node, has_overlay, observed) == node,
{
    if overlay_decision(node, has_overlay, observed) {
        assert(mark_skips(node, has_overlay, observed).children =~= node.children);
    }
}

/// The names that a list of tasks mirrors, counted with multiplicity.
pub open spec fn mirrored(tasks: Seq<TaskView>) -> Multiset<Seq<char>>
    decreases tasks.len(),
{
    if tasks.len() == 0 {
        Multiset::empty()
    } else {
        let r = mirrored(tasks.drop_last());
        match tasks.last() {
            TaskView::Mirror(name) => r.insert(name),
            _ => r,
        }
    }
}

/// How many times `name` is listed.
pub open spec fn times_listed(names: Seq<Seq<char>>, name: Seq<char>) -> nat
    decreases names.len(),
{
    if names.len() == 0 {
        0
    } else {
        times_listed(names.drop_last(), name) + if names.last() == name {
            1nat
        } else {
            0nat
        }
    }
}

/// Going through the real entries of a directory mirrors every entry that
/// names no child node: under an overlay, a name that no child has is
/// mirrored once each time it is listed, whatever other children are there
/// or left; with no overlay nothing is mirrored.
pub proof fn lemma_unmatched_entries_mirrored(
    children: Seq<NodeView>,
    names: Seq<Seq<char>>,
    has_overlay: bool,
    name: Seq<char>,
)
    requires
        child_index(children, name) == -1,
    ensures
        mirrored(existing_tasks(children, names, has_overlay).1).count(name) == if has_overlay {
            times_listed(names, name)
        } else {
            0
        },
        child_index(existing_tasks(children, names, has_overlay).0, name) == -1,
    decreases names.len(),
{
    if names.len() == 0 {
        assert(mirrored(Seq::<TaskView>::empty()) =~= Multiset::<Seq<char>>::empty());
    } else {
        lemma_unmatched_entries_mirrored(children, names.drop_last(), has_overlay, name);
        let (rest, tasks) = existing_tasks(children, names.drop_last(), has_overlay);
        let n = names.last();
        let i = child_index(rest, n);
        lemma_child_index(rest, n);
        if i >= 0 {
            lemma_child_index_remove_absent(rest, i, name);
            assert(n != name);
            if !rest[i].skip {
                let t2 = tasks.push(TaskView::Visit(rest[i]));
                assert(t2.drop_last() =~= tasks);
            }
        } else if has_overlay {
            let t2 = tasks.push(TaskView::Mirror(n));
            assert(t2.drop_last() =~= tasks);
        }
    }
}

/// Listed entries and remaining children never mirror a name that a child
/// node has: the remaining children make only visits.
pub proof fn lemma_remaining_mirror_nothing(children: Seq<NodeView>)
    ensures
        mirrored(remaining_tasks(children)) =~= Multiset::<Seq<char>>::empty(),
    decreases children.len(),
{
    if children.len() > 0 {
        lemma_remaining_mirror_nothing(children.drop_last());
        let r = remaining_tasks(children.drop_last());
        if !children.last().skip {
            assert(r.push(TaskView::Visit(children.last())).drop_last() =~= r);
        }
    }
}
} // verus!
