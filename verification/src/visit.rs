//! The visit of one node of the tree while it is mounted, as a machine that
//! asks for one operation at a time and is told how it went.
use vstd::multiset::Multiset;
use vstd::prelude::*;
use vstd::string::*;

use crate::error::{result_view, MountError, MountErrorView};
use crate::node::{
    lemma_views, needs_overlay, opt_view, views, Node, NodeFileType, NodeView, RealState,
};
use crate::text::{join_path, path_join, string_views};
use crate::walk::{
    existing_tasks, handle_mount_result, lemma_every_child_visited_once, lemma_remaining_visits,
    lemma_visited_append, mark_skips, overlay_decision, process_existing_entries,
    process_remaining_children, remaining_tasks, should_create_overlay, task_views, unskipped, visited,
    ChildTask, TaskView,
};

verus! {

/// An operation on the file system that a visit asks for.
#[derive(Debug)]
pub enum Op {
    /// Create the file `target` and bind-mount `source` onto it.
    BindFile { source: String, target: String },
    /// Create at `target` a symlink like the one at `source`.
    CloneSymlink { source: String, target: String },
    /// Create the directory `work` with the owner, mode and security
    /// context of `path`, or of `module_source` when `path` does not exist.
    PrepareOverlayDir { path: String, work: String, module_source: Option<String> },
    /// Mount an overlayfs with the single lower layer `lowest` and the given
    /// upper and work directories onto `dest`.
    MountOverlay { lowest: String, upper: String, work: String, dest: String },
    /// Mirror the real entry `name` of `path` into the directory `work`.
    MountMirror { path: String, work: String, name: String },
    /// Mark the directory `dir` as opaque to the layers below it.
    SetOpaque { dir: String },
    /// Create a whiteout named `name` in the directory of `upper` (in `path`
    /// when `upper` has none).
    CreateWhiteout { upper: String, path: String, name: String },
}

/// The mathematical value of an `Op`.
pub enum OpView {
    BindFile { source: Seq<char>, target: Seq<char> },
    CloneSymlink { source: Seq<char>, target: Seq<char> },
    PrepareOverlayDir { path: Seq<char>, work: Seq<char>, module_source: Option<Seq<char>> },
    MountOverlay { lowest: Seq<char>, upper: Seq<char>, work: Seq<char>, dest: Seq<char> },
    MountMirror { path: Seq<char>, work: Seq<char>, name: Seq<char> },
    SetOpaque { dir: Seq<char> },
    CreateWhiteout { upper: Seq<char>, path: Seq<char>, name: Seq<char> },
}

impl View for Op {
    type V = OpView;

    open spec fn view(&self) -> OpView {
        match self {
            Op::BindFile { source, target } => OpView::BindFile { source: source@, target: target@ },
            Op::CloneSymlink { source, target } => OpView::CloneSymlink {
                source: source@,
                target: target@,
            },
            Op::PrepareOverlayDir { path, work, module_source } => OpView::PrepareOverlayDir {
                path: path@,
                work: work@,
                module_source: opt_view(*module_source),
            },
            Op::MountOverlay { lowest, upper, work, dest } => OpView::MountOverlay {
                lowest: lowest@,
                upper: upper@,
                work: work@,
                dest: dest@,
            },
            Op::MountMirror { path, work, name } => OpView::MountMirror {
                path: path@,
                work: work@,
                name: name@,
            },
            Op::SetOpaque { dir } => OpView::SetOpaque { dir: dir@ },
            Op::CreateWhiteout { upper, path, name } => OpView::CreateWhiteout {
                upper: upper@,
                path: path@,
                name: name@,
            },
        }
    }
}

/// What a visit asks of the one who runs it next.
#[derive(Debug)]
pub enum Action {
    /// Tell what lies at this real path.
    Inspect { path: String },
    /// Carry out this operation and tell whether it succeeded.
    Run(Op),
    /// Tell whether `path` exists.
    CheckExists { path: String },
    /// List the names in the directory `path`, in the system's order.
    ReadDir { path: String },
    /// Visit the child `node` of the directory `path` (whose upper and work
    /// directories are `upper` and `work`) and tell how that ended.
    Visit { node: Node, path: String, upper: String, work: String, has_overlay: bool },
    /// Log that mounting the child `name` of `path` failed with `error`, and
    /// go on.
    Log { path: String, name: String, error: MountError },
    /// The visit is over, with this result.
    Finish(Result<(), MountError>),
}

/// The mathematical value of an `Action`.
pub enum ActionView {
    Inspect { path: Seq<char> },
    Run(OpView),
    CheckExists { path: Seq<char> },
    ReadDir { path: Seq<char> },
    Visit { node: NodeView, path: Seq<char>, upper: Seq<char>, work: Seq<char>, has_overlay: bool },
    Log { path: Seq<char>, name: Seq<char>, error: MountErrorView },
    Finish(Result<(), MountErrorView>),
}

impl View for Action {
    type V = ActionView;

    open spec fn view(&self) -> ActionView {
        match self {
            Action::Inspect { path } => ActionView::Inspect { path: path@ },
            Action::Run(op) => ActionView::Run(op@),
            Action::CheckExists { path } => ActionView::CheckExists { path: path@ },
            Action::ReadDir { path } => ActionView::ReadDir { path: path@ },
            Action::Visit { node, path, upper, work, has_overlay } => ActionView::Visit {
                node: node@,
                path: path@,
                upper: upper@,
                work: work@,
                has_overlay: *has_overlay,
            },
            Action::Log { path, name, error } => ActionView::Log {
                path: path@,
                name: name@,
                error: error@,
            },
            Action::Finish(r) => ActionView::Finish(result_view(*r)),
        }
    }
}

/// What the one who runs a visit tells it.
#[derive(Debug)]
pub enum Event {
    /// Start the visit.
    Begin,
    /// What lies at the path asked about.
    Inspected(RealState),
    /// Whether the path asked about exists.
    Exists(bool),
    /// The names in the directory asked about.
    Listed(Vec<String>),
    /// The operation succeeded.
    Done,
    /// The operation (or the listing) failed with this message.
    Failed(String),
    /// The visit of the child ended with this result.
    ChildDone(Result<(), MountError>),
    /// The failure was logged.
    Ack,
}

/// The mathematical value of an `Event`.
pub enum EventView {
    Begin,
    Inspected(RealState),
    Exists(bool),
    Listed(Seq<Seq<char>>),
    Done,
    Failed(Seq<char>),
    ChildDone(Result<(), MountErrorView>),
    Ack,
}

impl View for Event {
    type V = EventView;

    open spec fn view(&self) -> EventView {
        match self {
            Event::Begin => EventView::Begin,
            Event::Inspected(state) => EventView::Inspected(*state),
            Event::Exists(b) => EventView::Exists(*b),
            Event::Listed(names) => EventView::Listed(string_views(names@)),
            Event::Done => EventView::Done,
            Event::Failed(m) => EventView::Failed(m@),
            Event::ChildDone(r) => EventView::ChildDone(result_view(*r)),
            Event::Ack => EventView::Ack,
        }
    }
}

/// Where a visit stands: what it waits for.
#[derive(PartialEq, Eq, Structural, Clone, Copy, Debug)]
pub enum Stage {
    Start,
    Inspecting,
    Preparing,
    Overlaying,
    CheckingPath,
    Listing,
    Operating,
    Visiting,
    Mirroring,
    MarkingOpaque,
    Logging,
    Finished,
}

/// The visit of one node of the tree: the node, its real path and its upper
/// and work directories, whether an overlay covers it, where it stands, the
/// tasks left for its children, and what was found at the real paths of
/// the children looked at so far.
pub struct NodeVisit {
    node: Node,
    path: String,
    upper: String,
    work: String,
    has_overlay: bool,
    create_overlay: bool,
    stage: Stage,
    tasks: Vec<ChildTask>,
    current: String,
    observed: Vec<RealState>,
}

/// The mathematical value of a `NodeVisit`.
pub struct VisitView {
    pub node: NodeView,
    pub path: Seq<char>,
    pub upper: Seq<char>,
    pub work: Seq<char>,
    pub has_overlay: bool,
    pub create_overlay: bool,
    pub stage: Stage,
    pub tasks: Seq<TaskView>,
    pub current: Seq<char>,
    pub observed: Seq<RealState>,
}

impl View for NodeVisit {
    type V = VisitView;

    closed spec fn view(&self) -> VisitView {
        VisitView {
            node: self.node@,
            path: self.path@,
            upper: self.upper@,
            work: self.work@,
            has_overlay: self.has_overlay,
            create_overlay: self.create_overlay,
            stage: self.stage,
            tasks: task_views(self.tasks@),
            current: self.current@,
            observed: self.observed@,
        }
    }
}

/// The error that a message makes, with no context.
pub open spec fn plain_error(message: Seq<char>) -> MountErrorView {
    MountErrorView { message, context: Seq::empty() }
}

/// The message for a file with no module behind it.
pub open spec fn root_file_text(path: Seq<char>) -> Seq<char> {
    "cannot mount root file "@ + path + "!"@
}

/// The message for a symlink with no module behind it.
pub open spec fn root_symlink_text(path: Seq<char>) -> Seq<char> {
    "cannot mount root symlink "@ + path + "!"@
}

/// The message for a replaced directory with no module behind it.
pub open spec fn replaced_root_text(path: Seq<char>) -> Seq<char> {
    "dir "@ + path + " is declared as replaced but it is root!"@
}

/// The context put around the failure of a child's visit.
pub open spec fn visit_context(path: Seq<char>, name: Seq<char>) -> Seq<char> {
    "overlay mount "@ + path + "/"@ + name
}

/// The context put around the failure of a mirrored entry.
pub open spec fn mirror_context(path: Seq<char>, name: Seq<char>) -> Seq<char> {
    "mount mirror "@ + path + "/"@ + name
}

/// The visit of `node`, a child of the directory `parent_path` whose upper
/// and work directories are `parent_upper` and `parent_work`, before it
/// starts.
pub open spec fn initial_visit(
    parent_path: Seq<char>,
    parent_upper: Seq<char>,
    parent_work: Seq<char>,
    node: NodeView,
    has_overlay: bool,
) -> VisitView {
    VisitView {
        node,
        path: path_join(parent_path, node.name),
        upper: path_join(parent_upper, node.name),
        work: path_join(parent_work, node.name),
        has_overlay,
        create_overlay: false,
        stage: Stage::Start,
        tasks: Seq::empty(),
        current: Seq::empty(),
        observed: Seq::empty(),
    }
}

/// The visit ends with `result`.
pub open spec fn finish_with(v: VisitView, result: Result<(), MountErrorView>) -> (VisitView, ActionView) {
    (VisitView { stage: Stage::Finished, ..v }, ActionView::Finish(result))
}

/// The start of a visit: a file or a symlink is mounted from its module
/// (there must be one), and a whiteout is created. A directory under an
/// overlay gets none of its own, and a replaced directory from a module
/// gets one, without looking at anything; any other directory looks at the
/// real paths of its children, one at a time.
pub open spec fn begin_visit(v: VisitView) -> (VisitView, ActionView) {
    match v.node.file_type {
        NodeFileType::RegularFile => match v.node.module_source {
            Some(src) => (
                VisitView { stage: Stage::Operating, ..v },
                ActionView::Run(OpView::BindFile { source: src, target: v.upper }),
            ),
            None => finish_with(v, Err(plain_error(root_file_text(v.path)))),
        },
        NodeFileType::Symlink => match v.node.module_source {
            Some(src) => (
                VisitView { stage: Stage::Operating, ..v },
                ActionView::Run(OpView::CloneSymlink { source: src, target: v.upper }),
            ),
            None => finish_with(v, Err(plain_error(root_symlink_text(v.path)))),
        },
        NodeFileType::Whiteout => (
            VisitView { stage: Stage::Operating, ..v },
            ActionView::Run(OpView::CreateWhiteout { upper: v.upper, path: v.path, name: v.node.name }),
        ),
        NodeFileType::Directory => if v.has_overlay || (v.node.replace && v.node.module_source is Some) {
            decided(v, !v.has_overlay)
        } else if v.node.children.len() == 0 {
            inspection_done(v, Seq::empty())
        } else {
            (
                VisitView { stage: Stage::Inspecting, observed: Seq::empty(), ..v },
                ActionView::Inspect { path: path_join(v.path, v.node.children[0].name) },
            )
        },
    }
}

/// The next task of a directory: visit a child, mirror an entry, or mark the
/// directory opaque (which a directory with no module cannot be); with none
/// left, the visit is over.
pub open spec fn next_task(v: VisitView) -> (VisitView, ActionView) {
    if v.tasks.len() == 0 {
        finish_with(v, Ok(()))
    } else {
        let rest = v.tasks.drop_first();
        match v.tasks[0] {
            TaskView::Visit(c) => (
                VisitView { stage: Stage::Visiting, tasks: rest, current: c.name, ..v },
                ActionView::Visit {
                    node: c,
                    path: v.path,
                    upper: v.upper,
                    work: v.work,
                    has_overlay: v.has_overlay,
                },
            ),
            TaskView::Mirror(name) => (
                VisitView { stage: Stage::Mirroring, tasks: rest, current: name, ..v },
                ActionView::Run(OpView::MountMirror { path: v.path, work: v.work, name }),
            ),
            TaskView::Opaque => match v.node.module_source {
                None => finish_with(
                    VisitView { tasks: rest, ..v },
                    Err(plain_error(replaced_root_text(v.path))),
                ),
                Some(_) => (
                    VisitView { stage: Stage::MarkingOpaque, tasks: rest, ..v },
                    ActionView::Run(OpView::SetOpaque { dir: v.upper }),
                ),
            },
        }
    }
}

/// The children become tasks and the first task starts.
pub open spec fn start_tasks(v: VisitView, tasks: Seq<TaskView>) -> (VisitView, ActionView) {
    next_task(VisitView { node: NodeView { children: Seq::empty(), ..v.node }, tasks, ..v })
}

/// After the overlay: a directory that is not replaced looks whether its
/// real path exists; a replaced one is marked opaque, then its children are
/// visited.
pub open spec fn after_overlay(v: VisitView) -> (VisitView, ActionView) {
    if !v.node.replace {
        (VisitView { stage: Stage::CheckingPath, ..v }, ActionView::CheckExists { path: v.path })
    } else {
        start_tasks(v, seq![TaskView::Opaque] + remaining_tasks(v.node.children))
    }
}

/// Once it is decided whether the directory gets an overlay of its own:
/// prepare its work directory if an overlay covers it.
pub open spec fn decided(v: VisitView, create: bool) -> (VisitView, ActionView) {
    let v2 = VisitView { has_overlay: v.has_overlay || create, create_overlay: create, ..v };
    if v2.has_overlay {
        (
            VisitView { stage: Stage::Preparing, ..v2 },
            ActionView::Run(
                OpView::PrepareOverlayDir {
                    path: v.path,
                    work: v.work,
                    module_source: v.node.module_source,
                },
            ),
        )
    } else {
        after_overlay(v2)
    }
}

/// Once the real paths of all the children are known (`observed`, in the
/// order of the children): decide the overlay and mark the children to
/// skip, as `should_create_overlay` does.
pub open spec fn inspection_done(v: VisitView, observed: Seq<RealState>) -> (VisitView, ActionView) {
    decided(
        VisitView { node: mark_skips(v.node, v.has_overlay, observed), observed, ..v },
        overlay_decision(v.node, v.has_overlay, observed),
    )
}

/// What lies at the real path of the next child is known: a directory from
/// a module gets an overlay as soon as one child needs one, without looking
/// further; otherwise the next child is looked at, and after the last one
/// the decision is taken over all of them.
pub open spec fn after_inspection(v: VisitView, state: RealState) -> (VisitView, ActionView) {
    let i = v.observed.len() as int;
    let observed = v.observed.push(state);
    if v.node.module_source is Some && needs_overlay(v.node.children[i].file_type, state) {
        decided(VisitView { observed, ..v }, true)
    } else if i + 1 < v.node.children.len() {
        (
            VisitView { observed, stage: Stage::Inspecting, ..v },
            ActionView::Inspect { path: path_join(v.path, v.node.children[i + 1].name) },
        )
    } else {
        inspection_done(v, observed)
    }
}

/// A child failed: the failure gets the context, then ends the directory
/// too under an overlay, and is logged otherwise.
pub open spec fn child_failed(v: VisitView, e: MountErrorView, context: Seq<char>) -> (VisitView, ActionView) {
    let e2 = MountErrorView { context: e.context.push(context), ..e };
    if v.has_overlay {
        finish_with(v, Err(e2))
    } else {
        (VisitView { stage: Stage::Logging, ..v }, ActionView::Log { path: v.path, name: v.current, error: e2 })
    }
}

/// Whether a visit at this point can take this event.
pub open spec fn expects(v: VisitView, e: EventView) -> bool {
    match v.stage {
        Stage::Start => e is Begin,
        Stage::Inspecting => e is Inspected && v.observed.len() < v.node.children.len(),
        Stage::Preparing | Stage::Overlaying | Stage::Operating | Stage::Mirroring
        | Stage::MarkingOpaque => e is Done || e is Failed,
        Stage::CheckingPath => e is Exists,
        Stage::Listing => e is Listed || e is Failed,
        Stage::Visiting => e is ChildDone,
        Stage::Logging => e is Ack,
        Stage::Finished => false,
    }
}

/// One step of a visit: what it becomes and what it asks for next, given
/// what it was told.
pub open spec fn visit_step(v: VisitView, e: EventView) -> (VisitView, ActionView) {
    match e {
        EventView::Begin => begin_visit(v),
        EventView::Inspected(state) => after_inspection(v, state),
        EventView::Exists(exists) => if exists {
            (VisitView { stage: Stage::Listing, ..v }, ActionView::ReadDir { path: v.path })
        } else {
            start_tasks(v, remaining_tasks(v.node.children))
        },
        EventView::Listed(names) => {
            let (rest, tasks) = existing_tasks(v.node.children, names, v.has_overlay);
            start_tasks(v, tasks + remaining_tasks(rest))
        },
        EventView::Done => match v.stage {
            Stage::Preparing => if v.create_overlay {
                (
                    VisitView { stage: Stage::Overlaying, ..v },
                    ActionView::Run(
                        OpView::MountOverlay { lowest: v.path, upper: v.upper, work: v.work, dest: v.path },
                    ),
                )
            } else {
                after_overlay(v)
            },
            Stage::Overlaying => after_overlay(v),
            Stage::Operating => finish_with(v, Ok(())),
            _ => next_task(v),
        },
        EventView::Failed(m) => match v.stage {
            Stage::Mirroring => child_failed(v, plain_error(m), mirror_context(v.path, v.current)),
            _ => finish_with(v, Err(plain_error(m))),
        },
        EventView::ChildDone(r) => match r {
            Ok(()) => next_task(v),
            Err(e) => child_failed(v, e, visit_context(v.path, v.current)),
        },
        EventView::Ack => next_task(v),
    }
}


/// `prefix`, then `path`, then `suffix`.
fn message_text(prefix: &str, path: &String, suffix: &str) -> (text: String)
    ensures
        text@ == prefix@ + path@ + suffix@,
{
    let mut text = String::from_str(prefix);
    text.append(path.as_str());
    text.append(suffix);
    text
}

/// `prefix`, then `path`, a slash and `name`.
fn context_text(prefix: &str, path: &String, name: &String) -> (text: String)
    ensures
        text@ == prefix@ + path@ + "/"@ + name@,
{
    let mut text = String::from_str(prefix);
    text.append(path.as_str());
    text.append("/");
    text.append(name.as_str());
    text
}

/// A copy of an optional string.
fn clone_source(s: &Option<String>) -> (copy: Option<String>)
    ensures
        opt_view(copy) == opt_view(*s),
{
    match s {
        Some(t) => Some(t.clone()),
        None => None,
    }
}

/// The views of two task lists one after the other.
proof fn lemma_task_views_append(a: Seq<ChildTask>, b: Seq<ChildTask>)
    ensures
        task_views(a + b) == task_views(a) + task_views(b),
{
    assert(task_views(a + b) =~= task_views(a) + task_views(b));
}

impl NodeVisit {
    /// The visit of `node`, a child of the directory `parent_path` whose
    /// upper and work directories are `parent_upper` and `parent_work`.
    pub fn new(parent_path: &str, parent_upper: &str, parent_work: &str, node: Node, has_overlay: bool) -> (visit:
        NodeVisit)
        ensures
            visit@ == initial_visit(parent_path@, parent_upper@, parent_work@, node@, has_overlay),
    {
        let path = join_path(parent_path, node.name.as_str());
        let upper = join_path(parent_upper, node.name.as_str());
        let work = join_path(parent_work, node.name.as_str());
        let visit = NodeVisit {
            node,
            path,
            upper,
            work,
            has_overlay,
            create_overlay: false,
            stage: Stage::Start,
            tasks: Vec::new(),
            current: String::new(),
            observed: Vec::new(),
        };
        proof {
            assert(task_views(visit.tasks@) =~= Seq::<TaskView>::empty());
        }
        visit
    }

    /// Whether the visit is over.
    pub fn is_finished(&self) -> (finished: bool)
        ensures
            finished == (self@.stage == Stage::Finished),
    {
        self.stage == Stage::Finished
    }

    /// Whether the visit, where it stands, can take `event`.
    pub fn accepts(&self, event: &Event) -> (ok: bool)
        ensures
            ok == expects(self@, event@),
    {
        proof {
            lemma_views(self.node.children@);
        }
        match self.stage {
            Stage::Start => match event {
                Event::Begin => true,
                _ => false,
            },
            Stage::Inspecting => match event {
                Event::Inspected(_) => self.observed.len() < self.node.children.len(),
                _ => false,
            },
            Stage::Preparing | Stage::Overlaying | Stage::Operating | Stage::Mirroring
            | Stage::MarkingOpaque => match event {
                Event::Done => true,
                Event::Failed(_) => true,
                _ => false,
            },
            Stage::CheckingPath => match event {
                Event::Exists(_) => true,
                _ => false,
            },
            Stage::Listing => match event {
                Event::Listed(_) => true,
                Event::Failed(_) => true,
                _ => false,
            },
            Stage::Visiting => match event {
                Event::ChildDone(_) => true,
                _ => false,
            },
            Stage::Logging => match event {
                Event::Ack => true,
                _ => false,
            },
            Stage::Finished => false,
        }
    }

    /// Takes one event and answers with the next action.
    pub fn step(&mut self, event: Event) -> (action: Action)
        requires
            expects(old(self)@, event@),
        ensures
            (final(self)@, action@) == visit_step(old(self)@, event@),
    {
        match event {
            Event::Begin => self.begin(),
            Event::Inspected(state) => self.inspected(state),
            Event::Exists(exists) => {
                if exists {
                    self.stage = Stage::Listing;
                    Action::ReadDir { path: self.path.clone() }
                } else {
                    let children = self.take_children();
                    let tasks = process_remaining_children(children);
                    self.begin_tasks(tasks)
                }
            },
            Event::Listed(names) => {
                let mut children = self.take_children();
                let mut tasks = process_existing_entries(&mut children, &names, self.has_overlay);
                let mut rest = process_remaining_children(children);
                let ghost first = tasks@;
                let ghost second = rest@;
                tasks.append(&mut rest);
                proof {
                    lemma_task_views_append(first, second);
                }
                self.begin_tasks(tasks)
            },
            Event::Done => match self.stage {
                Stage::Preparing => {
                    if self.create_overlay {
                        self.stage = Stage::Overlaying;
                        Action::Run(
                            Op::MountOverlay {
                                lowest: self.path.clone(),
                                upper: self.upper.clone(),
                                work: self.work.clone(),
                                dest: self.path.clone(),
                            },
                        )
                    } else {
                        self.overlay_done()
                    }
                },
                Stage::Overlaying => self.overlay_done(),
                Stage::Operating => self.finish(Ok(())),
                _ => self.to_next_task(),
            },
            Event::Failed(message) => match self.stage {
                Stage::Mirroring => {
                    let context = context_text("mount mirror ", &self.path, &self.current);
                    self.fail_child(MountError::new(message), context)
                },
                _ => self.finish(Err(MountError::new(message))),
            },
            Event::ChildDone(result) => match result {
                Ok(()) => self.to_next_task(),
                Err(e) => {
                    let context = context_text("overlay mount ", &self.path, &self.current);
                    self.fail_child(e, context)
                },
            },
            Event::Ack => self.to_next_task(),
        }
    }

    fn finish(&mut self, result: Result<(), MountError>) -> (action: Action)
        ensures
            (final(self)@, action@) == finish_with(old(self)@, result_view(result)),
    {
        self.stage = Stage::Finished;
        Action::Finish(result)
    }

    fn fail_child(&mut self, e: MountError, context: String) -> (action: Action)
        ensures
            (final(self)@, action@) == child_failed(old(self)@, e@, context@),
    {
        let failure = e.with_context(context);
        match handle_mount_result(Err(failure), self.has_overlay) {
            Err(fatal) => self.finish(Err(fatal)),
            Ok(Some(logged)) => {
                self.stage = Stage::Logging;
                Action::Log { path: self.path.clone(), name: self.current.clone(), error: logged }
            },
            Ok(None) => self.to_next_task(),
        }
    }

    fn begin(&mut self) -> (action: Action)
        ensures
            (final(self)@, action@) == begin_visit(old(self)@),
    {
        match self.node.file_type {
            NodeFileType::RegularFile => match &self.node.module_source {
                Some(src) => {
                    let source = src.clone();
                    self.stage = Stage::Operating;
                    Action::Run(Op::BindFile { source, target: self.upper.clone() })
                },
                None => {
                    let text = message_text("cannot mount root file ", &self.path, "!");
                    self.finish(Err(MountError::new(text)))
                },
            },
            NodeFileType::Symlink => match &self.node.module_source {
                Some(src) => {
                    let source = src.clone();
                    self.stage = Stage::Operating;
                    Action::Run(Op::CloneSymlink { source, target: self.upper.clone() })
                },
                None => {
                    let text = message_text("cannot mount root symlink ", &self.path, "!");
                    self.finish(Err(MountError::new(text)))
                },
            },
            NodeFileType::Whiteout => {
                self.stage = Stage::Operating;
                Action::Run(
                    Op::CreateWhiteout {
                        upper: self.upper.clone(),
                        path: self.path.clone(),
                        name: self.node.name.clone(),
                    },
                )
            },
            NodeFileType::Directory => {
                if self.has_overlay || (self.node.replace && self.node.module_source.is_some()) {
                    let create = !self.has_overlay;
                    self.decide(create)
                } else if self.node.children.len() == 0 {
                    proof {
                        lemma_views(self.node.children@);
                    }
                    self.observed = Vec::new();
                    self.finish_inspection()
                } else {
                    proof {
                        lemma_views(self.node.children@);
                    }
                    self.observed = Vec::new();
                    let path = join_path(self.path.as_str(), self.node.children[0].name.as_str());
                    self.stage = Stage::Inspecting;
                    Action::Inspect { path }
                }
            },
        }
    }

    fn inspected(&mut self, state: RealState) -> (action: Action)
        requires
            old(self)@.observed.len() < old(self)@.node.children.len(),
        ensures
            (final(self)@, action@) == after_inspection(old(self)@, state),
    {
        proof {
            lemma_views(self.node.children@);
        }
        let i = self.observed.len();
        assert(i < self.node.children.len());
        let needs = self.node.children[i].file_type.needs_overlay_vs_real(&state);
        self.observed.push(state);
        if self.node.module_source.is_some() && needs {
            return self.decide(true);
        }
        if i + 1 < self.node.children.len() {
            let path = join_path(self.path.as_str(), self.node.children[i + 1].name.as_str());
            self.stage = Stage::Inspecting;
            Action::Inspect { path }
        } else {
            self.finish_inspection()
        }
    }

    fn finish_inspection(&mut self) -> (action: Action)
        requires
            old(self)@.observed.len() == old(self)@.node.children.len(),
        ensures
            (final(self)@, action@) == inspection_done(old(self)@, old(self)@.observed),
    {
        proof {
            lemma_views(self.node.children@);
        }
        let create = should_create_overlay(&mut self.node, self.has_overlay, &self.observed);
        self.decide(create)
    }

    fn decide(&mut self, create: bool) -> (action: Action)
        ensures
            (final(self)@, action@) == decided(old(self)@, create),
    {
        self.has_overlay = self.has_overlay || create;
        self.create_overlay = create;
        if self.has_overlay {
            self.stage = Stage::Preparing;
            Action::Run(
                Op::PrepareOverlayDir {
                    path: self.path.clone(),
                    work: self.work.clone(),
                    module_source: clone_source(&self.node.module_source),
                },
            )
        } else {
            self.overlay_done()
        }
    }

    fn overlay_done(&mut self) -> (action: Action)
        ensures
            (final(self)@, action@) == after_overlay(old(self)@),
    {
        if !self.node.replace {
            self.stage = Stage::CheckingPath;
            Action::CheckExists { path: self.path.clone() }
        } else {
            let children = self.take_children();
            let mut tasks: Vec<ChildTask> = Vec::new();
            tasks.push(ChildTask::Opaque);
            let mut rest = process_remaining_children(children);
            let ghost first = tasks@;
            let ghost second = rest@;
            tasks.append(&mut rest);
            proof {
                lemma_task_views_append(first, second);
                assert(task_views(first) =~= seq![TaskView::Opaque]);
            }
            self.begin_tasks(tasks)
        }
    }

    /// Takes the children out of the node.
    fn take_children(&mut self) -> (children: Vec<Node>)
        ensures
            views(children@) == old(self)@.node.children,
            final(self)@ == (VisitView {
                node: NodeView { children: Seq::empty(), ..old(self)@.node },
                ..old(self)@
            }),
    {
        let mut children: Vec<Node> = Vec::new();
        core::mem::swap(&mut children, &mut self.node.children);
        proof {
            assert(views(self.node.children@) =~= Seq::<NodeView>::empty());
        }
        children
    }

    fn begin_tasks(&mut self, tasks: Vec<ChildTask>) -> (action: Action)
        ensures
            (final(self)@, action@) == start_tasks(old(self)@, task_views(tasks@)),
    {
        self.node.children = Vec::new();
        self.tasks = tasks;
        proof {
            assert(views(self.node.children@) =~= Seq::<NodeView>::empty());
        }
        self.to_next_task()
    }

    fn to_next_task(&mut self) -> (action: Action)
        ensures
            (final(self)@, action@) == next_task(old(self)@),
    {
        if self.tasks.len() == 0 {
            return self.finish(Ok(()));
        }
        let ghost before = self.tasks@;
        let task = self.tasks.remove(0);
        proof {
            assert(task_views(self.tasks@) =~= task_views(before).drop_first());
        }
        match task {
            ChildTask::Visit(child) => {
                self.stage = Stage::Visiting;
                self.current = child.name.clone();
                Action::Visit {
                    node: child,
                    path: self.path.clone(),
                    upper: self.upper.clone(),
                    work: self.work.clone(),
                    has_overlay: self.has_overlay,
                }
            },
            ChildTask::Mirror(name) => {
                self.stage = Stage::Mirroring;
                self.current = name.clone();
                Action::Run(Op::MountMirror { path: self.path.clone(), work: self.work.clone(), name })
            },
            ChildTask::Opaque => {
                if self.node.module_source.is_none() {
                    let text = message_text("dir ", &self.path, " is declared as replaced but it is root!");
                    self.finish(Err(MountError::new(text)))
                } else {
                    self.stage = Stage::MarkingOpaque;
                    Action::Run(Op::SetOpaque { dir: self.upper.clone() })
                }
            },
        }
    }
}


/// The node that an action visits, if any.
pub open spec fn action_visits(a: ActionView) -> Multiset<NodeView> {
    match a {
        ActionView::Visit { node, .. } => Multiset::singleton(node),
        _ => Multiset::empty(),
    }
}

/// The nodes that a step visits now or queues for later.
pub open spec fn step_visits(step: (VisitView, ActionView)) -> Multiset<NodeView> {
    action_visits(step.1).add(visited(step.0.tasks))
}

/// Taking the next task loses no visit: the visit it starts, if any, and
/// the tasks left are the tasks there were.
pub proof fn lemma_next_task_visits(v: VisitView)
    ensures
        step_visits(next_task(v)) == visited(v.tasks),
{
    if v.tasks.len() == 0 {
        assert(step_visits(next_task(v)) =~= visited(v.tasks));
    } else {
        let first = seq![v.tasks[0]];
        let rest = v.tasks.drop_first();
        assert(v.tasks =~= first + rest);
        lemma_visited_append(first, rest);
        assert(first.drop_last() =~= Seq::<TaskView>::empty());
        assert(visited(first.drop_last()) =~= Multiset::<NodeView>::empty());
        match v.tasks[0] {
            TaskView::Visit(n) => {
                assert(visited(first) =~= Multiset::singleton(n));
            },
            _ => {
                assert(visited(first) =~= Multiset::<NodeView>::empty());
            },
        }
        assert(step_visits(next_task(v)) =~= visited(v.tasks));
    }
}

/// However a directory's children become tasks (after its listing, when
/// its real path does not exist, or when it is replaced), each child that
/// is not to be skipped is visited exactly once: now, or by a task queued
/// for later.
pub proof fn lemma_directory_visits_each_child_once(v: VisitView, names: Seq<Seq<char>>)
    ensures
        step_visits(visit_step(v, EventView::Listed(names))) == unskipped(v.node.children),
        step_visits(visit_step(v, EventView::Exists(false))) == unskipped(v.node.children),
        v.node.replace ==> step_visits(after_overlay(v)) == unskipped(v.node.children),
{
    let (rest, tasks) = existing_tasks(v.node.children, names, v.has_overlay);
    lemma_every_child_visited_once(v.node.children, names, v.has_overlay);
    let cleared = NodeView { children: Seq::empty(), ..v.node };
    lemma_next_task_visits(VisitView { node: cleared, tasks: tasks + remaining_tasks(rest), ..v });
    lemma_remaining_visits(v.node.children);
    lemma_next_task_visits(VisitView { node: cleared, tasks: remaining_tasks(v.node.children), ..v });
    if v.node.replace {
        let opaque = seq![TaskView::Opaque];
        lemma_visited_append(opaque, remaining_tasks(v.node.children));
        assert(opaque.drop_last() =~= Seq::<TaskView>::empty());
        assert(visited(opaque.drop_last()) =~= Multiset::<NodeView>::empty());
        assert(visited(opaque) =~= Multiset::<NodeView>::empty());
        assert(visited(opaque + remaining_tasks(v.node.children)) =~= unskipped(v.node.children));
        lemma_next_task_visits(
            VisitView { node: cleared, tasks: opaque + remaining_tasks(v.node.children), ..v },
        );
    }
}

/// A child's failure ends its directory under an overlay, with the
/// directory's context around it; without one it is logged with that
/// context, and the directory goes on with its other tasks once the log is
/// written.
pub proof fn lemma_child_failure(v: VisitView, e: MountErrorView)
    requires
        v.stage == Stage::Visiting,
    ensures
        ({
            let failure = MountErrorView {
                context: e.context.push(visit_context(v.path, v.current)),
                ..e
            };
            let (v2, a) = visit_step(v, EventView::ChildDone(Err(e)));
            &&& v.has_overlay ==> a == ActionView::Finish(Err(failure)) && v2.stage == Stage::Finished
            &&& !v.has_overlay ==> a == (ActionView::Log { path: v.path, name: v.current, error: failure })
                && v2.stage == Stage::Logging && visit_step(v2, EventView::Ack) == next_task(v)
        }),
{
    let (v2, a) = visit_step(v, EventView::ChildDone(Err(e)));
    if !v.has_overlay {
        assert(VisitView { stage: Stage::Logging, ..v } == v2);
    }
}


/// The rank of a stage in the order a visit goes through them; all the
/// stages of the children's tasks share one rank.
pub open spec fn stage_rank(stage: Stage) -> int {
    match stage {
        Stage::Start => 6,
        Stage::Inspecting => 5,
        Stage::Preparing => 4,
        Stage::Overlaying => 3,
        Stage::CheckingPath => 2,
        Stage::Listing => 1,
        Stage::Finished => -1,
        _ => 0,
    }
}

/// How much is left at a visit's stage: while looking at the children,
/// the children not looked at yet; otherwise two for each queued task, and
/// two for a task under way (one once its failure only waits to be logged).
pub open spec fn task_rank(v: VisitView) -> int {
    match v.stage {
        Stage::Inspecting => v.node.children.len() - v.observed.len(),
        _ => 2 * v.tasks.len() + match v.stage {
            Stage::Visiting | Stage::Mirroring | Stage::MarkingOpaque => 2int,
            Stage::Logging => 1int,
            _ => 0int,
        },
    }
}

/// Whether the visit `w` is nearer its end than `v`: at an earlier stage
/// rank, or at the same one with less of its tasks left.
pub open spec fn nearer_end(w: VisitView, v: VisitView) -> bool {
    ||| stage_rank(w.stage) < stage_rank(v.stage)
    ||| stage_rank(w.stage) == stage_rank(v.stage) && task_rank(w) < task_rank(v)
}

/// Taking the next task leaves the visit at the rank of tasks with one task
/// less, or ends it.
proof fn lemma_next_task_rank(v: VisitView)
    ensures
        next_task(v).0.stage == Stage::Finished || (stage_rank(next_task(v).0.stage) == 0
            && task_rank(next_task(v).0) <= 2 * v.tasks.len()),
{
}

/// After the overlay the visit is at most at the rank of checking its path.
proof fn lemma_after_overlay_rank(v: VisitView)
    ensures
        stage_rank(after_overlay(v).0.stage) <= 2,
        stage_rank(after_overlay(v).0.stage) >= -1,
        task_rank(after_overlay(v).0) >= 0,
{
    let cleared = NodeView { children: Seq::empty(), ..v.node };
    lemma_next_task_rank(
        VisitView { node: cleared, tasks: seq![TaskView::Opaque] + remaining_tasks(v.node.children), ..v },
    );
}

/// Once the overlay is decided the visit is at most at the rank of
/// preparing it.
proof fn lemma_decided_rank(v: VisitView, create: bool)
    ensures
        stage_rank(decided(v, create).0.stage) <= 4,
        stage_rank(decided(v, create).0.stage) >= -1,
        task_rank(decided(v, create).0) >= 0,
{
    lemma_after_overlay_rank(VisitView { has_overlay: v.has_overlay || create, create_overlay: create, ..v });
}

/// A visit never runs in circles: every event it takes brings it nearer its
/// end, in an order with no infinite descent (both ranks are bounded below).
pub proof fn lemma_visit_progresses(v: VisitView, e: EventView)
    requires
        expects(v, e),
    ensures
        nearer_end(visit_step(v, e).0, v),
        stage_rank(visit_step(v, e).0.stage) >= -1,
        task_rank(visit_step(v, e).0) >= 0,
{
    lemma_next_task_rank(v);
    lemma_after_overlay_rank(v);
    lemma_decided_rank(v, !v.has_overlay);
    let cleared = NodeView { children: Seq::empty(), ..v.node };
    lemma_next_task_rank(VisitView { node: cleared, tasks: remaining_tasks(v.node.children), ..v });
    match e {
        EventView::Begin => {
            lemma_decided_rank(
                VisitView { node: mark_skips(v.node, v.has_overlay, Seq::empty()), observed: Seq::empty(), ..v },
                overlay_decision(v.node, v.has_overlay, Seq::empty()),
            );
        },
        EventView::Listed(names) => {
            let (rest, tasks) = existing_tasks(v.node.children, names, v.has_overlay);
            lemma_next_task_rank(VisitView { node: cleared, tasks: tasks + remaining_tasks(rest), ..v });
        },
        EventView::Inspected(state) => {
            let observed = v.observed.push(state);
            lemma_decided_rank(VisitView { observed, ..v }, true);
            lemma_decided_rank(
                VisitView { node: mark_skips(v.node, v.has_overlay, observed), observed, ..v },
                overlay_decision(v.node, v.has_overlay, observed),
            );
        },
        _ => {},
    }
}

/// A directory under an overlay, or a replaced directory from a module,
/// looks at nothing before its overlay is decided.
pub proof fn lemma_no_needless_inspection(v: VisitView)
    requires
        v.node.file_type == NodeFileType::Directory,
        v.has_overlay || (v.node.replace && v.node.module_source is Some),
    ensures
        !(begin_visit(v).1 is Inspect),
        begin_visit(v).0.create_overlay == !v.has_overlay,
{
}


/// A replaced directory that comes from a module is made opaque, so that
/// the real directory's files do not show through: once its overlay is
/// prepared (and mounted, when the overlay is its own), the next thing its
/// visit asks for, before any child, is to mark its upper directory opaque;
/// this holds whether the overlay covering it is its own or its parent's.
pub proof fn lemma_replaced_dir_made_opaque(v: VisitView)
    requires
        v.stage == Stage::Start,
        v.node.file_type == NodeFileType::Directory,
        v.node.replace,
        v.node.module_source is Some,
    ensures
        ({
            let (v1, a1) = visit_step(v, EventView::Begin);
            let (v2, a2) = visit_step(v1, EventView::Done);
            let opaque = ActionView::Run(OpView::SetOpaque { dir: v.upper });
            &&& a1 is Run
            &&& v1.stage == Stage::Preparing
            &&& v.has_overlay ==> a2 == opaque
            &&& !v.has_overlay ==> a2 is Run && v2.stage == Stage::Overlaying && visit_step(
                v2,
                EventView::Done,
            ).1 == opaque
        }),
{
    let (v1, a1) = visit_step(v, EventView::Begin);
    let tasks = seq![TaskView::Opaque] + remaining_tasks(v.node.children);
    assert(tasks[0] == TaskView::Opaque);
    if !v.has_overlay {
        let (v2, a2) = visit_step(v1, EventView::Done);
        assert(v2.node.replace && v2.node.module_source is Some && v2.upper == v.upper);
        let v2_tasks = seq![TaskView::Opaque] + remaining_tasks(v2.node.children);
        assert(v2_tasks[0] == TaskView::Opaque);
    }
}
} // verus!
