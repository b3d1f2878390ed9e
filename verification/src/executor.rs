//! Bookkeeping of a mount plan's execution: which modules stay on the union
//! mount, which fall back to replication, and what is reported at the end.
//!
//! The caller attempts the union mounts and the one replication batch; this
//! module decides, from their outcomes, what is queued and what is reported.

use vstd::prelude::*;
use vstd::string::*;
use crate::canon::{
    canonicalize, lemma_contains_concat, lemma_sorted_no_duplicates, lemma_texts_push, locate,
    same_members, strictly_sorted, texts,
};
use crate::paths::{file_name, opt_text, parent, path_file_name, path_parent};

verus! {

/// One union mount: layers, in the caller's order, onto one target.
pub struct OverlayOperation {
    pub target: String,
    pub lowerdirs: Vec<String>,
}

/// What the planner hands over.
pub struct MountPlan {
    pub overlay_ops: Vec<OverlayOperation>,
    pub magic_module_paths: Vec<String>,
    pub overlay_module_ids: Vec<String>,
}

/// What ended up mounted, by mechanism. Both lists are canonical.
pub struct ExecutionResult {
    pub overlay_module_ids: Vec<String>,
    pub magic_module_ids: Vec<String>,
}

impl ExecutionResult {
    /// Both lists are strictly sorted, so neither names a module twice.
    pub open spec fn canonical(&self) -> bool {
        strictly_sorted(texts(self.overlay_module_ids@)) && strictly_sorted(
            texts(self.magic_module_ids@),
        )
    }
}

/// What the caller's configuration says of the replication batch.
pub struct Config {
    /// A staging directory to use in place of the default one.
    pub tempdir: Option<String>,
    pub mountsource: String,
    pub partitions: Vec<String>,
    pub disable_umount: bool,
}

/// Where the replication batch is staged.
#[derive(Debug, PartialEq, Eq)]
pub enum Staging {
    /// The batch is empty: nothing is staged, nothing is replicated.
    NotNeeded,
    /// In the directory that the configuration names.
    Configured(String),
    /// In the default staging directory, which the caller selects.
    Default,
}

/// What the caller is to do next in an execution.
pub enum Action {
    /// Attempt the union mount of operation `index` of the plan, read-only,
    /// and record whether it mounted.
    MountOverlay { index: usize },
    /// Stage and run the one replication batch on `roots`, release the
    /// staging directory, and record how the batch went.
    Replicate { roots: Vec<String>, staging: Staging },
    /// Nothing is left to do: this is what ended up mounted.
    Report(ExecutionResult),
}

/// How the one replication batch of an execution went.
#[derive(Clone, Copy, Debug, PartialEq, Eq)]
pub enum Replication {
    NotAttempted,
    Succeeded,
    Failed,
}

/// What can be read off a path under the `<module_root>/<partition>` layout.
#[derive(Clone, Copy, Debug, PartialEq, Eq)]
pub enum PathPart {
    /// The module root of a partition layer path: its parent.
    ModuleRoot,
    /// The module ID of a partition layer path: the name of its parent.
    ModuleId,
    /// The module ID of a module root: its own name.
    RootName,
}

/// The module root of a partition layer path.
pub open spec fn module_root(layer: Seq<char>) -> Option<Seq<char>> {
    path_parent(layer)
}

/// The module ID of a module root.
pub open spec fn root_name(root: Seq<char>) -> Option<Seq<char>> {
    path_file_name(root)
}

/// The module ID of a partition layer path.
pub open spec fn module_id(layer: Seq<char>) -> Option<Seq<char>> {
    match module_root(layer) {
        Some(root) => root_name(root),
        None => None,
    }
}

/// The part `what` of `path`, where the layout gives one.
pub open spec fn part_of(what: PathPart, path: Seq<char>) -> Option<Seq<char>> {
    match what {
        PathPart::ModuleRoot => module_root(path),
        PathPart::ModuleId => module_id(path),
        PathPart::RootName => root_name(path),
    }
}

/// Some path in `paths` has `s` as its part `what`.
pub open spec fn some_part(what: PathPart, paths: Seq<Seq<char>>, s: Seq<char>) -> bool {
    exists|k: int| 0 <= k < paths.len() && part_of(what, #[trigger] paths[k]) == Some(s)
}

/// The parts `what` of the paths that have one, in the order of the paths.
pub open spec fn parts(what: PathPart, paths: Seq<Seq<char>>) -> Seq<Seq<char>>
    decreases paths.len(),
{
    if paths.len() == 0 {
        Seq::empty()
    } else {
        parts(what, paths.drop_last()) + match part_of(what, paths.last()) {
            Some(p) => seq![p],
            None => Seq::empty(),
        }
    }
}

/// The names that `excluded` does not hold, in the order of the names.
pub open spec fn kept(names: Seq<Seq<char>>, excluded: Seq<Seq<char>>) -> Seq<Seq<char>>
    decreases names.len(),
{
    if names.len() == 0 {
        Seq::empty()
    } else if excluded.contains(names.last()) {
        kept(names.drop_last(), excluded)
    } else {
        kept(names.drop_last(), excluded).push(names.last())
    }
}

/// The layers of the operations that did not mount, operation by operation.
pub open spec fn layers_of_failed(ops: Seq<OverlayOperation>, outcomes: Seq<bool>) -> Seq<
    Seq<char>,
>
    decreases ops.len(),
{
    if ops.len() == 0 {
        Seq::empty()
    } else if mounted(outcomes, ops.len() - 1) {
        layers_of_failed(ops.drop_last(), outcomes)
    } else {
        layers_of_failed(ops.drop_last(), outcomes) + texts(ops.last().lowerdirs@)
    }
}

/// `out` holds what `base` holds and, besides, the part `what` of each path
/// in `paths` that has one.
pub open spec fn collected(
    what: PathPart,
    base: Seq<Seq<char>>,
    paths: Seq<Seq<char>>,
    out: Seq<Seq<char>>,
) -> bool {
    forall|s: Seq<char>| #[trigger] out.contains(s) <==> base.contains(s) || some_part(what, paths, s)
}

/// Operation `i` counts as mounted: an outcome was recorded for it, and it is
/// a success. An operation without a recorded outcome counts as failed.
pub open spec fn mounted(outcomes: Seq<bool>, i: int) -> bool {
    0 <= i < outcomes.len() && outcomes[i]
}

impl MountPlan {
    /// `layer` is a layer of operation `i`.
    pub open spec fn layer_of(&self, i: int, layer: Seq<char>) -> bool {
        0 <= i < self.overlay_ops.len() && texts(self.overlay_ops[i].lowerdirs@).contains(layer)
    }

    /// `layer` is a layer of one of the first `n` operations that failed.
    pub open spec fn failed_layer_before(&self, outcomes: Seq<bool>, n: int, layer: Seq<char>) -> bool {
        exists|i: int| 0 <= i < n && !mounted(outcomes, i) && #[trigger] self.layer_of(i, layer)
    }

    /// `layer` is a layer of an operation that failed.
    pub open spec fn failed_layer(&self, outcomes: Seq<bool>, layer: Seq<char>) -> bool {
        self.failed_layer_before(outcomes, self.overlay_ops.len() as int, layer)
    }

    /// Some layer of a failed operation has `s` as its part `what`.
    pub open spec fn failed_part(&self, outcomes: Seq<bool>, what: PathPart, s: Seq<char>) -> bool {
        exists|layer: Seq<char>| #[trigger]
            self.failed_layer(outcomes, layer) && part_of(what, layer) == Some(s)
    }

    /// `root` is in the fallback queue: it was slated for replication by the
    /// plan, or it is the module root of a layer of a failed operation.
    pub open spec fn queued(&self, outcomes: Seq<bool>, root: Seq<char>) -> bool {
        texts(self.magic_module_paths@).contains(root) || self.failed_part(
            outcomes,
            PathPart::ModuleRoot,
            root,
        )
    }

    /// `id` is reported as union-mounted: the plan intended it, and no layer
    /// of a failed operation belongs to it.
    pub open spec fn stays_overlay(&self, outcomes: Seq<bool>, id: Seq<char>) -> bool {
        texts(self.overlay_module_ids@).contains(id) && !self.failed_part(
            outcomes,
            PathPart::ModuleId,
            id,
        )
    }

    /// `id` names a module root in the fallback queue.
    pub open spec fn replication_id(&self, outcomes: Seq<bool>, id: Seq<char>) -> bool {
        exists|root: Seq<char>| #[trigger]
            self.queued(outcomes, root) && root_name(root) == Some(id)
    }

    /// `batch` is the replication batch: the fallback queue, each root once,
    /// in canonical order.
    pub open spec fn is_batch(&self, outcomes: Seq<bool>, batch: Seq<Seq<char>>) -> bool {
        &&& strictly_sorted(batch)
        &&& forall|root: Seq<char>| #[trigger] batch.contains(root) <==> self.queued(outcomes, root)
    }

    /// `r` is the report of an execution with these outcomes: canonical, the
    /// modules that stay on the union mount on one side, and on the other
    /// the modules of the fallback queue if the batch succeeded, else none.
    pub open spec fn reported(
        &self,
        outcomes: Seq<bool>,
        replication: Replication,
        r: ExecutionResult,
    ) -> bool {
        &&& r.canonical()
        &&& forall|id: Seq<char>| #[trigger]
            texts(r.overlay_module_ids@).contains(id) <==> self.stays_overlay(outcomes, id)
        &&& forall|id: Seq<char>| #[trigger]
            texts(r.magic_module_ids@).contains(id) <==> replication == Replication::Succeeded
                && self.replication_id(outcomes, id)
    }
}

/// The module root of a partition layer path: its parent directory.
pub fn extract_module_root(partition_path: &str) -> (r: Option<String>)
    ensures
        opt_text(r) == module_root(partition_path@),
{
    parent(partition_path)
}

/// The module ID of a partition layer path: the name of its parent directory.
pub fn extract_id(path: &str) -> (r: Option<String>)
    ensures
        opt_text(r) == module_id(path@),
{
    match parent(path) {
        Some(root) => file_name(root.as_str()),
        None => None,
    }
}

/// Reads the part `what` off `path`.
pub fn extract_part(what: PathPart, path: &str) -> (r: Option<String>)
    ensures
        opt_text(r) == part_of(what, path@),
{
    match what {
        PathPart::ModuleRoot => extract_module_root(path),
        PathPart::ModuleId => extract_id(path),
        PathPart::RootName => file_name(path),
    }
}

/// Appends copies of `more` to `out`, in order.
pub fn append_names(out: &mut Vec<String>, more: &Vec<String>)
    ensures
        texts(final(out)@) == texts(old(out)@) + texts(more@),
{
    let mut j: usize = 0;
    while j < more.len()
        invariant
            j <= more.len(),
            texts(out@) == texts(old(out)@) + texts(more@.take(j as int)),
        decreases more.len() - j,
    {
        let ghost before = out@;
        out.push(more[j].clone());
        proof {
            assert(texts(out@) =~= texts(before).push(more[j as int]@));
            assert(texts(more@.take(j as int + 1)) =~= texts(more@.take(j as int)).push(
                more[j as int]@,
            ));
            assert(texts(out@) =~= texts(old(out)@) + texts(more@.take(j as int + 1)));
        }
        j += 1;
    }
    assert(more@.take(j as int) =~= more@);
}

/// Appends to `out` the part `what` of each path that has one.
pub fn collect_parts(what: PathPart, paths: &Vec<String>, out: &mut Vec<String>)
    ensures
        texts(final(out)@) == texts(old(out)@) + parts(what, texts(paths@)),
        collected(what, texts(old(out)@), texts(paths@), texts(final(out)@)),
{
    let mut k: usize = 0;
    assert(texts(out@) =~= texts(old(out)@) + parts(what, texts(paths@.take(0))));
    while k < paths.len()
        invariant
            k <= paths.len(),
            texts(out@) == texts(old(out)@) + parts(what, texts(paths@.take(k as int))),
            collected(what, texts(old(out)@), texts(paths@.take(k as int)), texts(out@)),
        decreases paths.len() - k,
    {
        let ghost before = out@;
        let ghost seen = texts(paths@.take(k as int));
        let ghost next = texts(paths@.take(k as int + 1));
        let ghost here = part_of(what, paths[k as int]@);
        let part = extract_part(what, paths[k].as_str());
        proof {
            assert(next =~= seen.push(paths[k as int]@));
            assert forall|s: Seq<char>| some_part(what, next, s) <==> some_part(what, seen, s)
                || here == Some(s) by {
                if some_part(what, next, s) {
                    let i = choose|i: int|
                        0 <= i < next.len() && part_of(what, #[trigger] next[i]) == Some(s);
                    if i < seen.len() {
                        assert(seen[i] == next[i]);
                    }
                }
                if some_part(what, seen, s) {
                    let i = choose|i: int|
                        0 <= i < seen.len() && part_of(what, #[trigger] seen[i]) == Some(s);
                    assert(next[i] == seen[i]);
                }
                if here == Some(s) {
                    assert(next[k as int] == paths[k as int]@);
                }
            }
        }
        match part {
            Some(p) => {
                out.push(p);
            },
            None => {},
        }
        proof {
            assert forall|s: Seq<char>| #[trigger]
                texts(out@).contains(s) <==> texts(old(out)@).contains(s) || some_part(
                    what,
                    next,
                    s,
                ) by {
                assert(some_part(what, next, s) <==> some_part(what, seen, s) || here == Some(s));
                assert(texts(before).contains(s) <==> texts(old(out)@).contains(s) || some_part(
                    what,
                    seen,
                    s,
                ));
                match part {
                    Some(p) => {
                        lemma_texts_push(before, p, s);
                    },
                    None => {},
                }
            }
            assert(collected(what, texts(old(out)@), next, texts(out@)));
            assert(next.drop_last() =~= seen);
            assert(next.last() == paths[k as int]@);
            match here {
                Some(p) => {
                    assert(texts(out@) =~= texts(before).push(p));
                },
                None => {},
            }
            assert(texts(out@) =~= texts(old(out)@) + parts(what, next));
        }
        k += 1;
    }
    assert(paths@.take(k as int) =~= paths@);
}

/// The layers of every operation that did not mount, with repetitions.
pub fn failed_layers(plan: &MountPlan, outcomes: &Vec<bool>) -> (out: Vec<String>)
    ensures
        texts(out@) == layers_of_failed(plan.overlay_ops@, outcomes@),
        forall|layer: Seq<char>| #[trigger]
            texts(out@).contains(layer) <==> plan.failed_layer(outcomes@, layer),
{
    let mut out: Vec<String> = Vec::new();
    let mut i: usize = 0;
    assert(texts(out@) =~= layers_of_failed(plan.overlay_ops@.take(0), outcomes@));
    while i < plan.overlay_ops.len()
        invariant
            i <= plan.overlay_ops.len(),
            texts(out@) == layers_of_failed(plan.overlay_ops@.take(i as int), outcomes@),
            forall|layer: Seq<char>| #[trigger]
                texts(out@).contains(layer) <==> plan.failed_layer_before(
                    outcomes@,
                    i as int,
                    layer,
                ),
        decreases plan.overlay_ops.len() - i,
    {
        let ghost before = texts(out@);
        let ok = i < outcomes.len() && outcomes[i];
        if !ok {
            append_names(&mut out, &plan.overlay_ops[i].lowerdirs);
        }
        proof {
            let done = plan.overlay_ops@.take(i as int + 1);
            assert(done.drop_last() =~= plan.overlay_ops@.take(i as int));
            assert(done.last() == plan.overlay_ops[i as int]);
            assert(texts(out@) =~= layers_of_failed(done, outcomes@));
            let here = texts(plan.overlay_ops[i as int].lowerdirs@);
            assert forall|layer: Seq<char>| #[trigger]
                texts(out@).contains(layer) <==> plan.failed_layer_before(
                    outcomes@,
                    i as int + 1,
                    layer,
                ) by {
                assert(before.contains(layer) <==> plan.failed_layer_before(
                    outcomes@,
                    i as int,
                    layer,
                ));
                lemma_contains_concat(before, here, layer);
                if plan.failed_layer_before(outcomes@, i as int + 1, layer) {
                    let w = choose|w: int|
                        0 <= w < i as int + 1 && !mounted(outcomes@, w) && #[trigger] plan.layer_of(
                            w,
                            layer,
                        );
                    if w < i {
                        assert(plan.failed_layer_before(outcomes@, i as int, layer));
                    }
                }
                if plan.failed_layer_before(outcomes@, i as int, layer) {
                    let w = choose|w: int|
                        0 <= w < i as int && !mounted(outcomes@, w) && #[trigger] plan.layer_of(
                            w,
                            layer,
                        );
                    assert(plan.failed_layer_before(outcomes@, i as int + 1, layer));
                }
                if !ok && here.contains(layer) {
                    assert(plan.layer_of(i as int, layer));
                }
            }
        }
        i += 1;
    }
    assert(plan.overlay_ops@.take(i as int) =~= plan.overlay_ops@);
    out
}

/// The names of `names` that `excluded` does not hold, in order.
pub fn without(names: &Vec<String>, excluded: &Vec<String>) -> (out: Vec<String>)
    ensures
        texts(out@) == kept(texts(names@), texts(excluded@)),
        forall|s: Seq<char>| #[trigger]
            texts(out@).contains(s) <==> texts(names@).contains(s) && !texts(excluded@).contains(
                s,
            ),
{
    let sorted = canonicalize(excluded);
    let mut out: Vec<String> = Vec::new();
    let mut i: usize = 0;
    assert(texts(out@) =~= kept(texts(names@.take(0)), texts(excluded@)));
    while i < names.len()
        invariant
            i <= names.len(),
            texts(out@) == kept(texts(names@.take(i as int)), texts(excluded@)),
            strictly_sorted(texts(sorted@)),
            same_members(texts(sorted@), texts(excluded@)),
            forall|s: Seq<char>| #[trigger]
                texts(out@).contains(s) <==> texts(names@.take(i as int)).contains(s) && !texts(
                    excluded@,
                ).contains(s),
        decreases names.len() - i,
    {
        let ghost before = out@;
        let ghost seen = names@.take(i as int);
        let (_, found) = locate(&sorted, names[i].as_str());
        if !found {
            out.push(names[i].clone());
        }
        proof {
            let next = texts(names@.take(i as int + 1));
            assert(next.drop_last() =~= texts(seen));
            assert(next.last() == names[i as int]@);
            assert(found <==> texts(excluded@).contains(names[i as int]@));
            if !found {
                assert(texts(out@) =~= texts(before).push(names[i as int]@));
            }
            assert(texts(out@) =~= kept(next, texts(excluded@)));
            assert(names@.take(i as int + 1) =~= seen.push(names[i as int]));
            assert forall|s: Seq<char>| #[trigger]
                texts(out@).contains(s) <==> texts(names@.take(i as int + 1)).contains(s)
                    && !texts(excluded@).contains(s) by {
                lemma_texts_push(seen, names[i as int], s);
                assert(texts(before).contains(s) <==> texts(seen).contains(s) && !texts(
                    excluded@,
                ).contains(s));
                if !found {
                    lemma_texts_push(before, names[i as int], s);
                }
            }
        }
        i += 1;
    }
    assert(names@.take(i as int) =~= names@);
    out
}

/// A list that holds exactly the layers of failed operations yields, part by
/// part, exactly the parts of those layers.
pub proof fn lemma_parts_of_failed(
    plan: &MountPlan,
    outcomes: Seq<bool>,
    layers: Seq<Seq<char>>,
    what: PathPart,
    s: Seq<char>,
)
    requires
        forall|layer: Seq<char>| #[trigger]
            layers.contains(layer) <==> plan.failed_layer(outcomes, layer),
    ensures
        some_part(what, layers, s) <==> plan.failed_part(outcomes, what, s),
{
    if some_part(what, layers, s) {
        let k = choose|k: int|
            0 <= k < layers.len() && part_of(what, #[trigger] layers[k]) == Some(s);
        assert(layers.contains(layers[k]));
        assert(plan.failed_layer(outcomes, layers[k]));
    }
    if plan.failed_part(outcomes, what, s) {
        let layer = choose|layer: Seq<char>| #[trigger]
            plan.failed_layer(outcomes, layer) && part_of(what, layer) == Some(s);
        assert(layers.contains(layer));
        let k = choose|k: int| 0 <= k < layers.len() && layers[k] == layer;
        assert(part_of(what, layers[k]) == Some(s));
    }
}

/// The one replication batch of an execution: the module roots that the plan
/// slated for replication and those of every layer of a failed operation,
/// each once, in canonical order.
///
/// `outcomes[i]` says whether operation `i` of the plan mounted; an operation
/// without an outcome counts as failed.
pub fn replication_batch(plan: &MountPlan, outcomes: &Vec<bool>) -> (batch: Vec<String>)
    ensures
        plan.is_batch(outcomes@, texts(batch@)),
{
    let layers = failed_layers(plan, outcomes);
    let mut queue: Vec<String> = Vec::new();
    append_names(&mut queue, &plan.magic_module_paths);
    let ghost slated = texts(queue@);
    assert(slated =~= texts(plan.magic_module_paths@));
    collect_parts(PathPart::ModuleRoot, &layers, &mut queue);
    let batch = canonicalize(&queue);
    proof {
        assert forall|root: Seq<char>| #[trigger]
            texts(batch@).contains(root) <==> plan.queued(outcomes@, root) by {
            lemma_parts_of_failed(plan, outcomes@, texts(layers@), PathPart::ModuleRoot, root);
            assert(texts(queue@).contains(root) <==> slated.contains(root) || some_part(
                PathPart::ModuleRoot,
                texts(layers@),
                root,
            ));
        }
    }
    batch
}

/// Where to stage a replication batch: nowhere if it is empty; else in the
/// configured directory, which takes precedence over the default one.
pub fn staging(batch: &Vec<String>, config: &Config) -> (r: Staging)
    ensures
        batch@.len() == 0 ==> r == Staging::NotNeeded,
        batch@.len() > 0 ==> match config.tempdir {
            Some(dir) => r matches Staging::Configured(d) && d@ == dir@,
            None => r == Staging::Default,
        },
{
    if batch.len() == 0 {
        Staging::NotNeeded
    } else {
        match &config.tempdir {
            Some(dir) => Staging::Configured(dir.clone()),
            None => Staging::Default,
        }
    }
}

/// What an execution reports, given how each union mount and the replication
/// batch went.
///
/// `outcomes[i]` says whether operation `i` of the plan mounted; an operation
/// without an outcome counts as failed. A module is reported as union-mounted
/// if the plan intended it and none of its layers belongs to a failed
/// operation. The modules of the replication batch are reported only if the
/// batch succeeded: otherwise none is. Both lists are canonical.
pub fn execute(plan: &MountPlan, outcomes: &Vec<bool>, replication: Replication) -> (r:
    ExecutionResult)
    ensures
        plan.reported(outcomes@, replication, r),
        replication != Replication::Succeeded ==> r.magic_module_ids@.len() == 0,
{
    let layers = failed_layers(plan, outcomes);
    let mut fallback_ids: Vec<String> = Vec::new();
    collect_parts(PathPart::ModuleId, &layers, &mut fallback_ids);
    let kept = without(&plan.overlay_module_ids, &fallback_ids);
    let overlay_module_ids = canonicalize(&kept);
    proof {
        assert forall|id: Seq<char>| #[trigger]
            texts(overlay_module_ids@).contains(id) <==> plan.stays_overlay(outcomes@, id) by {
            lemma_parts_of_failed(plan, outcomes@, texts(layers@), PathPart::ModuleId, id);
            assert(texts(fallback_ids@).contains(id) <==> some_part(
                PathPart::ModuleId,
                texts(layers@),
                id,
            ));
            assert(texts(kept@).contains(id) <==> texts(plan.overlay_module_ids@).contains(id)
                && !texts(fallback_ids@).contains(id));
        }
    }
    let mut names: Vec<String> = Vec::new();
    match replication {
        Replication::Succeeded => {
            let batch = replication_batch(plan, outcomes);
            collect_parts(PathPart::RootName, &batch, &mut names);
            proof {
                assert forall|id: Seq<char>| #[trigger]
                    texts(names@).contains(id) <==> plan.replication_id(outcomes@, id) by {
                    let roots = texts(batch@);
                    assert(texts(names@).contains(id) <==> some_part(
                        PathPart::RootName,
                        roots,
                        id,
                    ));
                    if some_part(PathPart::RootName, roots, id) {
                        let k = choose|k: int|
                            0 <= k < roots.len() && part_of(PathPart::RootName, #[trigger] roots[k])
                                == Some(id);
                        assert(roots.contains(roots[k]));
                        assert(plan.queued(outcomes@, roots[k]));
                    }
                    if plan.replication_id(outcomes@, id) {
                        let root = choose|root: Seq<char>| #[trigger]
                            plan.queued(outcomes@, root) && root_name(root) == Some(id);
                        assert(roots.contains(root));
                        let k = choose|k: int| 0 <= k < roots.len() && roots[k] == root;
                        assert(part_of(PathPart::RootName, roots[k]) == Some(id));
                    }
                }
            }
        },
        _ => {},
    }
    let magic_module_ids = canonicalize(&names);
    proof {
        if replication != Replication::Succeeded {
            assert(texts(names@).len() == 0);
            if magic_module_ids@.len() > 0 {
                assert(texts(magic_module_ids@)[0] == magic_module_ids@[0]@);
                assert(texts(magic_module_ids@).contains(magic_module_ids@[0]@));
            }
        }
    }
    ExecutionResult { overlay_module_ids, magic_module_ids }
}

/// What comes next in an execution, given what was recorded so far.
///
/// `outcomes` holds the outcome of each union mount attempted, in the order
/// of the plan; `replication` says how the replication batch went, if it was
/// run. The union mounts come first, each once and in the plan's order. Once
/// all have an outcome, the replication batch is due if the fallback queue is
/// not empty and the batch was not run yet. After that, or with an empty
/// queue, the report is due.
pub fn next_action(
    plan: &MountPlan,
    config: &Config,
    outcomes: &Vec<bool>,
    replication: Replication,
) -> (a: Action)
    ensures
        outcomes.len() < plan.overlay_ops.len() ==> (a matches Action::MountOverlay { index }
            && index == outcomes.len()),
        outcomes.len() >= plan.overlay_ops.len() ==> match a {
            Action::MountOverlay { .. } => false,
            Action::Replicate { roots, staging } => {
                &&& replication == Replication::NotAttempted
                &&& roots@.len() > 0
                &&& plan.is_batch(outcomes@, texts(roots@))
                &&& match config.tempdir {
                    Some(dir) => (staging matches Staging::Configured(d) && d@ == dir@),
                    None => staging == Staging::Default,
                }
            },
            Action::Report(r) => {
                &&& plan.reported(outcomes@, replication, r)
                &&& replication == Replication::NotAttempted ==> forall|root: Seq<char>|
                    !plan.queued(outcomes@, root)
            },
        },
{
    if outcomes.len() < plan.overlay_ops.len() {
        return Action::MountOverlay { index: outcomes.len() };
    }
    match replication {
        Replication::NotAttempted => {
            let roots = replication_batch(plan, outcomes);
            if roots.len() > 0 {
                let staging = staging(&roots, config);
                return Action::Replicate { roots, staging };
            }
            assert forall|root: Seq<char>| !plan.queued(outcomes@, root) by {
                assert(!texts(roots@).contains(root));
            }
        },
        _ => {},
    }
    Action::Report(execute(plan, outcomes, replication))
}

/// When every union mount succeeds, the modules reported as union-mounted
/// are exactly those the plan intended, and the modules reported as
/// replicated (after a successful batch) are exactly those named by the
/// plan's own replication roots. If the plan names no module on both sides,
/// neither does the report.
pub proof fn law_all_mounted(plan: &MountPlan, outcomes: Seq<bool>)
    requires
        forall|i: int| 0 <= i < plan.overlay_ops.len() ==> mounted(outcomes, i),
    ensures
        forall|id: Seq<char>|
            plan.stays_overlay(outcomes, id) <==> texts(plan.overlay_module_ids@).contains(id),
        forall|id: Seq<char>|
            plan.replication_id(outcomes, id) <==> some_part(
                PathPart::RootName,
                texts(plan.magic_module_paths@),
                id,
            ),
        (forall|id: Seq<char>|
            !(texts(plan.overlay_module_ids@).contains(id) && some_part(
                PathPart::RootName,
                texts(plan.magic_module_paths@),
                id,
            ))) ==> (forall|id: Seq<char>|
            !(plan.stays_overlay(outcomes, id) && plan.replication_id(outcomes, id))),
{
    let slated = texts(plan.magic_module_paths@);
    assert forall|layer: Seq<char>| !plan.failed_layer(outcomes, layer) by {}
    assert forall|id: Seq<char>|
        plan.replication_id(outcomes, id) <==> some_part(PathPart::RootName, slated, id) by {
        if plan.replication_id(outcomes, id) {
            let root = choose|root: Seq<char>| #[trigger]
                plan.queued(outcomes, root) && root_name(root) == Some(id);
            assert(slated.contains(root));
            let k = choose|k: int| 0 <= k < slated.len() && slated[k] == root;
            assert(part_of(PathPart::RootName, slated[k]) == Some(id));
        }
        if some_part(PathPart::RootName, slated, id) {
            let k = choose|k: int|
                0 <= k < slated.len() && part_of(PathPart::RootName, #[trigger] slated[k]) == Some(
                    id,
                );
            assert(slated.contains(slated[k]));
            assert(plan.queued(outcomes, slated[k]));
        }
    }
}

/// The two ways to a module ID agree: the ID read off a layer path is the
/// name of the module root read off the same path. So a module that fell
/// back is reported under the ID that the plan knows it by.
pub proof fn law_id_is_name_of_root(layer: Seq<char>, root: Seq<char>)
    requires
        module_root(layer) == Some(root),
    ensures
        module_id(layer) == root_name(root),
{
}

/// When an operation fails, every module that contributes a layer to it is
/// in the replication batch's report and not in the union-mount report,
/// whatever became of the other operations.
pub proof fn law_failed_operation_falls_back(
    plan: &MountPlan,
    outcomes: Seq<bool>,
    i: int,
    layer: Seq<char>,
    id: Seq<char>,
)
    requires
        plan.layer_of(i, layer),
        !mounted(outcomes, i),
        module_id(layer) == Some(id),
    ensures
        plan.replication_id(outcomes, id),
        !plan.stays_overlay(outcomes, id),
{
    assert(plan.failed_layer(outcomes, layer));
    assert(part_of(PathPart::ModuleId, layer) == Some(id));
    assert(plan.failed_part(outcomes, PathPart::ModuleId, id));
    let root = module_root(layer).unwrap();
    assert(part_of(PathPart::ModuleRoot, layer) == Some(root));
    assert(plan.failed_part(outcomes, PathPart::ModuleRoot, root));
    assert(plan.queued(outcomes, root));
}

/// However often a module root was queued, a canonical batch of the queue
/// holds it at exactly one position.
pub proof fn law_queued_once(
    plan: &MountPlan,
    outcomes: Seq<bool>,
    batch: Seq<Seq<char>>,
    root: Seq<char>,
) -> (k: int)
    requires
        strictly_sorted(batch),
        forall|r: Seq<char>| #[trigger] batch.contains(r) <==> plan.queued(outcomes, r),
        plan.queued(outcomes, root),
    ensures
        0 <= k < batch.len(),
        batch[k] == root,
        forall|j: int| 0 <= j < batch.len() && batch[j] == root ==> j == k,
{
    assert(batch.contains(root));
    let k = choose|k: int| 0 <= k < batch.len() && batch[k] == root;
    lemma_sorted_no_duplicates(batch);
    k
}

} // verus!
