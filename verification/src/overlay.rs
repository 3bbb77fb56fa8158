//! Overlay mounts: the options handed to overlayfs, the directory whose
//! attributes a work directory takes, and the staging of lower layers when
//! there are more than one mount takes.
use vstd::prelude::*;
use vstd::string::*;

use crate::error::MountError;
use crate::node::opt_view;
use crate::text::{
    decimal, decimal_text, join_path, joined_layers, lemma_decimal_digits, lemma_decimal_injective,
    lemma_split_at_separator, lowerdir_option, path_join, string_views,
};

verus! {

/// The most lower layers that one overlay mount is given.
pub const MAX_LAYERS: usize = 64;

/// A copy of a list of strings.
fn copy_strings(v: &Vec<String>) -> (copy: Vec<String>)
    ensures
        string_views(copy@) == string_views(v@),
{
    let mut copy: Vec<String> = Vec::new();
    let mut i: usize = 0;
    while i < v.len()
        invariant
            i <= v.len(),
            copy.len() == i,
            forall|k: int| 0 <= k < i ==> #[trigger] copy@[k]@ == v@[k]@,
        decreases v.len() - i,
    {
        copy.push(v[i].clone());
        i = i + 1;
    }
    proof {
        assert(string_views(copy@) =~= string_views(v@));
    }
    copy
}

/// The options of an overlayfs mount, as (key, value) pairs in the order
/// they are set.
pub open spec fn overlay_options(
    lower_dirs: Seq<Seq<char>>,
    upperdir: Option<Seq<char>>,
    workdir: Option<Seq<char>>,
    source: Seq<char>,
) -> Seq<(Seq<char>, Seq<char>)> {
    let upper_and_work = match (upperdir, workdir) {
        (Some(u), Some(w)) => seq![("upperdir"@, u), ("workdir"@, w)],
        _ => Seq::empty(),
    };
    seq![("lowerdir"@, joined_layers(lower_dirs))] + upper_and_work + seq![("source"@, source)]
}

/// The views of a list of (key, value) pairs.
pub open spec fn pair_views(pairs: Seq<(String, String)>) -> Seq<(Seq<char>, Seq<char>)> {
    pairs.map_values(|p: (String, String)| (p.0@, p.1@))
}

/// The options of an overlayfs mount with the lower layers `lower_dirs`
/// (top first), from `source`: the escaped lower layers, then the upper and
/// work directories when both are given, then the source.
pub fn overlay_fs_options(
    lower_dirs: &Vec<String>,
    upperdir: &Option<String>,
    workdir: &Option<String>,
    source: &str,
) -> (options: Vec<(String, String)>)
    ensures
        pair_views(options@) == overlay_options(
            string_views(lower_dirs@),
            opt_view(*upperdir),
            opt_view(*workdir),
            source@,
        ),
{
    let mut options: Vec<(String, String)> = Vec::new();
    options.push((String::from_str("lowerdir"), lowerdir_option(lower_dirs)));
    match (upperdir, workdir) {
        (Some(u), Some(w)) => {
            options.push((String::from_str("upperdir"), u.clone()));
            options.push((String::from_str("workdir"), w.clone()));
        },
        _ => {},
    }
    options.push((String::from_str("source"), String::from_str(source)));
    proof {
        assert(pair_views(options@) =~= overlay_options(
            string_views(lower_dirs@),
            opt_view(*upperdir),
            opt_view(*workdir),
            source@,
        ));
    }
    options
}

/// The message for a directory to overlay that neither exists nor comes
/// from a module.
pub open spec fn root_dir_text(path: Seq<char>) -> Seq<char> {
    "cannot mount root dir "@ + path + "!"@
}

/// The directory whose owner, mode and security context the work directory
/// of `path` takes: `path` itself when it exists, else the module directory
/// it comes from; with neither, an error.
pub fn overlay_dir_source(path: &String, path_exists: bool, module_source: &Option<String>) -> (source:
    Result<String, MountError>)
    ensures
        path_exists ==> (source matches Ok(s) && s@ == path@),
        !path_exists && module_source.is_some() ==> (source matches Ok(s) && s@
            == module_source.unwrap()@),
        !path_exists && module_source.is_none() ==> (source matches Err(e) && e@.message
            == root_dir_text(path@) && e@.context.len() == 0),
{
    if path_exists {
        Ok(path.clone())
    } else {
        match module_source {
            Some(m) => Ok(m.clone()),
            None => {
                let mut text = String::from_str("cannot mount root dir ");
                text.append(path.as_str());
                text.append("!");
                Err(MountError::new(text))
            },
        }
    }
}

/// An overlay still to be mounted: its layers, top first (the lowest is
/// the directory that the overlay covers), the upper and work directories
/// of the overlay itself, and the source of every mount.
pub struct OverlayPlan {
    layers: Vec<String>,
    upperdir: Option<String>,
    workdir: Option<String>,
    source: String,
}

/// The mathematical value of an `OverlayPlan`.
pub struct PlanView {
    pub layers: Seq<Seq<char>>,
    pub upperdir: Option<Seq<char>>,
    pub workdir: Option<Seq<char>>,
    pub source: Seq<char>,
}

impl View for OverlayPlan {
    type V = PlanView;

    closed spec fn view(&self) -> PlanView {
        PlanView {
            layers: string_views(self.layers@),
            upperdir: opt_view(self.upperdir),
            workdir: opt_view(self.workdir),
            source: self.source@,
        }
    }
}

/// One mount of an overlay: a staging overlay that merges some bottom
/// layers into one, or the overlay itself; each with the options to mount
/// it with.
#[derive(Debug)]
pub enum OverlayMount {
    /// Mount an overlay of `layers` (top first) at `dir`, which then stands
    /// in for them.
    Staging { layers: Vec<String>, dir: String, options: Vec<(String, String)> },
    /// Mount the overlay itself with these lower layers (top first).
    Final { layers: Vec<String>, options: Vec<(String, String)> },
}

/// The mathematical value of an `OverlayMount`.
pub enum OverlayMountView {
    Staging { layers: Seq<Seq<char>>, dir: Seq<char>, options: Seq<(Seq<char>, Seq<char>)> },
    Final { layers: Seq<Seq<char>>, options: Seq<(Seq<char>, Seq<char>)> },
}

impl View for OverlayMount {
    type V = OverlayMountView;

    open spec fn view(&self) -> OverlayMountView {
        match self {
            OverlayMount::Staging { layers, dir, options } => OverlayMountView::Staging {
                layers: string_views(layers@),
                dir: dir@,
                options: pair_views(options@),
            },
            OverlayMount::Final { layers, options } => OverlayMountView::Final {
                layers: string_views(layers@),
                options: pair_views(options@),
            },
        }
    }
}

/// Where the staging overlay made at `timestamp` (in nanoseconds) goes,
/// when `remaining` layers stay above it.
pub open spec fn staging_dir(timestamp: nat, remaining: nat) -> Seq<char> {
    path_join("/dev/ap_magic_mount"@, "staging_"@ + decimal(timestamp) + "_"@ + decimal(remaining))
}

/// The next mount of a plan and the plan after it. With more layers than
/// one mount takes, the bottom `MAX_LAYERS - 1` layers go into a staging
/// overlay, with no upper or work directory, which becomes the bottom
/// layer; otherwise the overlay itself is mounted with all the layers and
/// the plan's upper and work directories. Every mount has the plan's source.
pub open spec fn plan_step(plan: PlanView, timestamp: nat) -> (PlanView, OverlayMountView) {
    let layers = plan.layers;
    if layers.len() > MAX_LAYERS {
        let split = layers.len() - (MAX_LAYERS - 1);
        let dir = staging_dir(timestamp, split as nat);
        let chunk = layers.skip(split);
        (
            PlanView { layers: layers.take(split).push(dir), ..plan },
            OverlayMountView::Staging {
                layers: chunk,
                dir,
                options: overlay_options(chunk, None, None, plan.source),
            },
        )
    } else {
        (
            plan,
            OverlayMountView::Final {
                layers,
                options: overlay_options(layers, plan.upperdir, plan.workdir, plan.source),
            },
        )
    }
}

impl OverlayPlan {
    /// The plan of an overlay with the lower layers `lower_dirs` (top
    /// first) over the directory `lowest`, with the given upper and work
    /// directories (used only when both are given), mounted from `source`.
    pub fn new(
        lower_dirs: &Vec<String>,
        lowest: &str,
        upperdir: Option<String>,
        workdir: Option<String>,
        source: &str,
    ) -> (plan: OverlayPlan)
        ensures
            plan@ == (PlanView {
                layers: string_views(lower_dirs@).push(lowest@),
                upperdir: opt_view(upperdir),
                workdir: opt_view(workdir),
                source: source@,
            }),
    {
        let mut layers = copy_strings(lower_dirs);
        let ghost before = layers@;
        layers.push(String::from_str(lowest));
        proof {
            assert(string_views(layers@) =~= string_views(before).push(lowest@));
        }
        OverlayPlan { layers, upperdir, workdir, source: String::from_str(source) }
    }
}

/// Takes the next mount of an overlay off the plan; `timestamp` (in
/// nanoseconds) names a staging overlay, if one is made.
pub fn mount_overlayfs(plan: &mut OverlayPlan, timestamp: u128) -> (next: OverlayMount)
    ensures
        (final(plan)@, next@) == plan_step(old(plan)@, timestamp as nat),
{
    let n = plan.layers.len();
    if n > MAX_LAYERS {
        let split = n - (MAX_LAYERS - 1);
        let ghost before = plan.layers@;
        let bottom = plan.layers.split_off(split);
        let mut name = String::from_str("staging_");
        let stamp = decimal_text(timestamp);
        name.append(stamp.as_str());
        name.append("_");
        let count = decimal_text(split as u128);
        name.append(count.as_str());
        let dir = join_path("/dev/ap_magic_mount", name.as_str());
        let ghost kept = plan.layers@;
        plan.layers.push(dir.clone());
        let options = overlay_fs_options(&bottom, &None, &None, plan.source.as_str());
        proof {
            assert(string_views(kept) =~= string_views(before).take(split as int));
            assert(string_views(plan.layers@) =~= string_views(kept).push(dir@));
            assert(string_views(bottom@) =~= string_views(before).skip(split as int));
        }
        OverlayMount::Staging { layers: bottom, dir, options }
    } else {
        let options = overlay_fs_options(&plan.layers, &plan.upperdir, &plan.workdir, plan.source.as_str());
        OverlayMount::Final { layers: copy_strings(&plan.layers), options }
    }
}

/// One step of a plan loses no layer and keeps their order: a staging
/// overlay takes exactly the bottom `MAX_LAYERS - 1` layers, and its
/// directory takes their place at the bottom, so that the plan shrinks by
/// `MAX_LAYERS - 2`; the overlay itself is mounted only with at most
/// `MAX_LAYERS` layers, all of them, in order.
pub proof fn lemma_plan_step(plan: PlanView, timestamp: nat)
    ensures
        ({
            let (rest, next) = plan_step(plan, timestamp);
            let layers = plan.layers;
            match next {
                OverlayMountView::Staging { layers: chunk, dir, .. } => {
                    &&& layers.len() > MAX_LAYERS
                    &&& chunk.len() == MAX_LAYERS - 1
                    &&& rest.layers.len() == layers.len() - (MAX_LAYERS - 2)
                    &&& rest.layers.last() == dir
                    &&& rest.layers.drop_last() + chunk == layers
                    &&& rest.upperdir == plan.upperdir && rest.workdir == plan.workdir
                    &&& rest.source == plan.source
                },
                OverlayMountView::Final { layers: all, .. } => {
                    &&& layers.len() <= MAX_LAYERS
                    &&& all == layers
                    &&& rest == plan
                },
            }
        }),
{
    if plan.layers.len() > MAX_LAYERS {
        let layers = plan.layers;
        let split = layers.len() - (MAX_LAYERS - 1);
        let (rest, next) = plan_step(plan, timestamp);
        assert(rest.layers.drop_last() =~= layers.take(split));
        assert(layers.take(split) + layers.skip(split) =~= layers);
    }
}

/// The mounts that carrying out a whole plan makes, in order; the staging
/// overlay of step `k` is named with the timestamp `stamps(k)`.
pub open spec fn run_plan(plan: PlanView, stamps: spec_fn(nat) -> nat, k: nat) -> Seq<OverlayMountView>
    decreases plan.layers.len(),
{
    let (rest, next) = plan_step(plan, stamps(k));
    if plan.layers.len() > MAX_LAYERS {
        seq![next] + run_plan(rest, stamps, k + 1)
    } else {
        seq![next]
    }
}

/// The lower layers that a sequence of mounts stands for: those of its last
/// mount, where each staging directory, from the last made to the first, is
/// replaced by the layers it was mounted with.
pub open spec fn expand(mounts: Seq<OverlayMountView>) -> Seq<Seq<char>>
    decreases mounts.len(),
{
    if mounts.len() == 0 {
        Seq::empty()
    } else {
        let rest = expand(mounts.drop_first());
        match mounts[0] {
            OverlayMountView::Final { layers, .. } => layers,
            OverlayMountView::Staging { layers, dir, .. } => if rest.len() > 0 && rest.last() == dir {
                rest.drop_last() + layers
            } else {
                rest
            },
        }
    }
}

/// How many staging overlays a plan of `n` layers makes.
pub open spec fn staging_count(n: int) -> int
    decreases n,
{
    if n <= MAX_LAYERS {
        0
    } else {
        1 + staging_count(n - (MAX_LAYERS - 2))
    }
}

/// The count of staging overlays in closed form: none for at most
/// `MAX_LAYERS` layers, else the layers beyond `MAX_LAYERS` divided by
/// `MAX_LAYERS - 2`, rounded up.
pub proof fn lemma_staging_count(n: int)
    ensures
        staging_count(n) == if n <= MAX_LAYERS {
            0
        } else {
            (n - MAX_LAYERS + (MAX_LAYERS - 3)) / (MAX_LAYERS - 2)
        },
    decreases n,
{
    if n > MAX_LAYERS {
        lemma_staging_count(n - (MAX_LAYERS - 2));
    }
}

/// Carrying out a whole plan of `n` layers, whatever the timestamps: it
/// makes `staging_count(n)` staging overlays, each of `MAX_LAYERS - 1`
/// layers with no upper or work directory, then the overlay itself with
/// `n - (MAX_LAYERS - 2) * staging_count(n)` layers (at most `MAX_LAYERS`)
/// and the plan's upper and work directories; every mount has the plan's
/// source; and once every staging directory is replaced by the layers it
/// was mounted with, the overlay's lower layers are the plan's, in order.
pub proof fn lemma_plan_run(plan: PlanView, stamps: spec_fn(nat) -> nat, k: nat)
    ensures
        ({
            let run = run_plan(plan, stamps, k);
            let n = plan.layers.len() as int;
            &&& run.len() == staging_count(n) + 1
            &&& forall|i: int|
                0 <= i < run.len() - 1 ==> (#[trigger] run[i] matches OverlayMountView::Staging {
                    layers,
                    options,
                    ..
                } && layers.len() == MAX_LAYERS - 1 && options == overlay_options(
                    layers,
                    None,
                    None,
                    plan.source,
                ))
            &&& run.last() matches OverlayMountView::Final { layers, options } && layers.len() == n - (
            MAX_LAYERS - 2) * staging_count(n) && layers.len() <= MAX_LAYERS && options == overlay_options(
                layers,
                plan.upperdir,
                plan.workdir,
                plan.source,
            )
            &&& expand(run) == plan.layers
        }),
    decreases plan.layers.len(),
{
    let (rest, next) = plan_step(plan, stamps(k));
    lemma_plan_step(plan, stamps(k));
    let run = run_plan(plan, stamps, k);
    if plan.layers.len() > MAX_LAYERS {
        lemma_plan_run(rest, stamps, k + 1);
        let tail = run_plan(rest, stamps, k + 1);
        assert(run.drop_first() =~= tail);
        assert forall|i: int| 0 <= i < run.len() - 1 implies (#[trigger] run[i] matches OverlayMountView::Staging {
            layers,
            options,
            ..
        } && layers.len() == MAX_LAYERS - 1 && options == overlay_options(layers, None, None, plan.source)) by {
            if i > 0 {
                assert(run[i] == tail[i - 1]);
            }
        }
        assert(run.last() == tail.last());
    } else {
        assert(expand(run.drop_first()) =~= Seq::<Seq<char>>::empty());
    }
}

/// Two staging overlays with different numbers of layers left above them
/// never go to the same directory, whatever their timestamps. Within one
/// plan that number shrinks at every step, so the staging overlays of a
/// plan all go to different directories.
pub proof fn lemma_staging_dirs_differ(t1: nat, r1: nat, t2: nat, r2: nat)
    requires
        r1 != r2,
    ensures
        staging_dir(t1, r1) != staging_dir(t2, r2),
{
    reveal_strlit("/dev/ap_magic_mount");
    reveal_strlit("staging_");
    reveal_strlit("_");
    let base = "/dev/ap_magic_mount"@;
    let prefix = "staging_"@;
    let n1 = prefix + decimal(t1) + "_"@ + decimal(r1);
    let n2 = prefix + decimal(t2) + "_"@ + decimal(r2);
    if staging_dir(t1, r1) == staging_dir(t2, r2) {
        assert(n1[0] == 's' && n2[0] == 's');
        let d1 = staging_dir(t1, r1);
        let d2 = staging_dir(t2, r2);
        assert(d1 == base + seq!['/'] + n1);
        assert(d2 == base + seq!['/'] + n2);
        assert(n1 =~= d1.skip(base.len() as int + 1));
        assert(n2 =~= d2.skip(base.len() as int + 1));
        let m1 = decimal(t1) + seq!['_'] + decimal(r1);
        let m2 = decimal(t2) + seq!['_'] + decimal(r2);
        assert(m1 =~= n1.skip(prefix.len() as int));
        assert(m2 =~= n2.skip(prefix.len() as int));
        lemma_decimal_digits(t1);
        lemma_decimal_digits(t2);
        assert forall|i: int| 0 <= i < decimal(t1).len() implies decimal(t1)[i] != '_' by {
            assert(48 <= decimal(t1)[i] as int <= 57);
        }
        assert forall|i: int| 0 <= i < decimal(t2).len() implies decimal(t2)[i] != '_' by {
            assert(48 <= decimal(t2)[i] as int <= 57);
        }
        lemma_split_at_separator(decimal(t1), decimal(r1), decimal(t2), decimal(r2), '_');
        lemma_decimal_injective(r1, r2);
    }
}
} // verus!
