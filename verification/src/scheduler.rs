//! The task dependency forest and its scheduler state machine.
//!
//! From an ordered list of root task names and the available configurations,
//! the forest is resolved up front: a task referenced several times is kept
//! once (its first-discovered parent kept), every dependency stands at a
//! smaller index than the task that declares it, and a dependency cycle is
//! detected and refused.  Execution then drives each node through the
//! lifecycle Pending, Ready, Running, Done: a node becomes Ready only when
//! every dependency is Done, and the run ends when every node is Done.

use crate::config::{ConfigFile, ConfigFileView, dependency_names, spec_dependency_names};
use crate::errors::Error;
use vstd::prelude::*;
use vstd::seq_lib::*;
use vstd::set_lib::{lemma_len_subset, lemma_int_range, set_int_range};

verus! {

/// The lifecycle of a scheduled task.  A node only ever moves forward:
/// Pending, then Ready, then Running, then Done.
#[derive(PartialEq, Eq, Structural, Clone, Copy, Debug)]
pub enum Status {
    /// Waiting for its dependencies.
    Pending,
    /// All dependencies done; not yet dispatched.
    Ready,
    /// Dispatched, not yet finished.
    Running,
    /// Finished.
    Done,
}

/// One node of the resolved forest: a task, the task that first referenced
/// it, the index of its configuration, and the indices of the tasks it
/// depends on — all smaller than its own index.
#[derive(Debug)]
pub struct TaskNode {
    pub id: String,
    pub parent: Option<String>,
    pub config: usize,
    pub deps: Vec<usize>,
    pub status: Status,
}

/// The mathematical view of a `TaskNode`.
#[verifier::ext_equal]
pub struct NodeView {
    pub id: Seq<char>,
    pub parent: Option<Seq<char>>,
    pub config: usize,
    pub deps: Seq<usize>,
    pub status: Status,
}

impl View for TaskNode {
    type V = NodeView;

    open spec fn view(&self) -> NodeView {
        NodeView {
            id: self.id@,
            parent: match self.parent {
                Some(p) => Some(p@),
                None => None,
            },
            config: self.config,
            deps: self.deps@,
            status: self.status,
        }
    }
}

impl DeepView for TaskNode {
    type V = NodeView;

    open spec fn deep_view(&self) -> NodeView {
        self@
    }
}

/// Whether some node carries the id.
pub open spec fn spec_has_id(nodes: Seq<NodeView>, id: Seq<char>) -> bool {
    exists|i: int| 0 <= i < nodes.len() && (#[trigger] nodes[i]).id == id
}

/// Whether some config carries the id.
pub open spec fn spec_config_has_id(configs: Seq<ConfigFileView>, id: Seq<char>) -> bool {
    exists|i: int| 0 <= i < configs.len() && (#[trigger] configs[i]).id == id
}

/// No two configs share an id (each task has one config file).
pub open spec fn spec_config_ids_distinct(configs: Seq<ConfigFileView>) -> bool {
    forall|i: int, j: int|
        0 <= i < j < configs.len() ==> (#[trigger] configs[i]).id != (#[trigger] configs[j]).id
}

/// No two nodes share an id (a referenced task is resolved once).
pub open spec fn spec_node_ids_distinct(nodes: Seq<NodeView>) -> bool {
    forall|i: int, j: int|
        0 <= i < j < nodes.len() ==> (#[trigger] nodes[i]).id != (#[trigger] nodes[j]).id
}

/// Task `a` declares a dependency on the task named `id`.
pub open spec fn spec_names_dep(configs: Seq<ConfigFileView>, a: usize, id: Seq<char>) -> bool {
    a < configs.len() && spec_dependency_names(configs[a as int].config).contains(id)
}

/// Task `a` declares a dependency on task `b`.
pub open spec fn spec_dep_edge(configs: Seq<ConfigFileView>, a: usize, b: usize) -> bool {
    b < configs.len() && spec_names_dep(configs, a, configs[b as int].id)
}

/// A dependency cycle: consecutive chain entries are dependency edges, and
/// the last entry depends on the first again.
pub open spec fn spec_is_dep_cycle(configs: Seq<ConfigFileView>, chain: Seq<usize>) -> bool {
    &&& chain.len() >= 1
    &&& forall|k: int|
        0 <= k < chain.len() - 1 ==> spec_dep_edge(configs, #[trigger] chain[k], chain[k + 1])
    &&& spec_dep_edge(configs, chain.last(), chain[0])
}

/// A dependency path that starts at a requested root: every entry is a
/// config index, the first carries a root name, and consecutive entries are
/// dependency edges.
pub open spec fn spec_is_root_path(
    configs: Seq<ConfigFileView>,
    roots: Seq<Seq<char>>,
    path: Seq<usize>,
) -> bool {
    &&& path.len() >= 1
    &&& forall|k: int| 0 <= k < path.len() ==> (#[trigger] path[k]) < configs.len()
    &&& roots.contains(configs[path[0] as int].id)
    &&& forall|k: int|
        0 <= k < path.len() - 1 ==> spec_dep_edge(configs, #[trigger] path[k], path[k + 1])
}

/// Config `a` is reachable from the requested roots: some root path ends at
/// it.
pub open spec fn spec_reachable_idx(
    configs: Seq<ConfigFileView>,
    roots: Seq<Seq<char>>,
    a: usize,
) -> bool {
    exists|path: Seq<usize>| spec_is_root_path(configs, roots, path) && path.last() == a
}

/// The name `id` is requested: it is a root, or a reachable config declares
/// it as a dependency.
pub open spec fn spec_reachable_name(
    configs: Seq<ConfigFileView>,
    roots: Seq<Seq<char>>,
    id: Seq<char>,
) -> bool {
    roots.contains(id) || exists|a: usize|
        spec_reachable_idx(configs, roots, a) && spec_names_dep(configs, a, id)
}

/// One resolved node is sound: its config exists and carries its id, and its
/// dependency indices stand earlier in the forest and name, in order, exactly
/// the dependencies its config declares.
pub open spec fn spec_node_wf(configs: Seq<ConfigFileView>, nodes: Seq<NodeView>, i: int) -> bool {
    let n = nodes[i];
    &&& (n.config as int) < configs.len()
    &&& configs[n.config as int].id == n.id
    &&& n.deps.len() == spec_dependency_names(configs[n.config as int].config).len()
    &&& forall|d: int|
        0 <= d < n.deps.len() ==> (#[trigger] n.deps[d]) < i && nodes[n.deps[d] as int].id
            == spec_dependency_names(configs[n.config as int].config)[d]
}

/// The whole forest is sound.
pub open spec fn spec_forest_wf(configs: Seq<ConfigFileView>, nodes: Seq<NodeView>) -> bool {
    &&& spec_node_ids_distinct(nodes)
    &&& forall|i: int| 0 <= i < nodes.len() ==> #[trigger] spec_node_wf(configs, nodes, i)
}

/// Every node still awaits its dependencies.
pub open spec fn spec_all_pending(nodes: Seq<NodeView>) -> bool {
    forall|i: int| 0 <= i < nodes.len() ==> (#[trigger] nodes[i]).status is Pending
}

/// A sequence of distinct indices below `n` has at most `n` entries.
proof fn lemma_distinct_indices_bound(s: Seq<usize>, n: nat)
    requires
        s.no_duplicates(),
        forall|i: int| 0 <= i < s.len() ==> (#[trigger] s[i]) < n,
    ensures
        s.len() <= n,
{
    let si = Seq::new(s.len(), |i: int| s[i] as int);
    assert(si.no_duplicates());
    si.unique_seq_to_set();
    lemma_int_range(0, n as int);
    assert forall|e: int| si.to_set().contains(e) implies set_int_range(0, n as int).contains(
        e,
    ) by {
        let i = choose|i: int| 0 <= i < si.len() && si[i] == e;
        assert(s[i] < n);
    }
    assert(si.to_set().subset_of(set_int_range(0, n as int)));
    lemma_len_subset(si.to_set(), set_int_range(0, n as int));
}

/// Looks a task's configuration up by id.
fn find_config(configs: &Vec<ConfigFile>, name: &String) -> (r: Option<usize>)
    ensures
        r matches Some(i) ==> i < configs.len() && configs.deep_view()[i as int].id == name@,
        r is None ==> !spec_config_has_id(configs.deep_view(), name@),
{
    let mut i: usize = 0;
    while i < configs.len()
        invariant
            i <= configs.len(),
            forall|k: int| 0 <= k < i ==> (#[trigger] configs.deep_view()[k]).id != name@,
        decreases configs.len() - i,
    {
        if configs[i].id.eq(name) {
            return Some(i);
        }
        i += 1;
    }
    None
}

/// Looks a resolved node up by id.
fn find_node(nodes: &Vec<TaskNode>, name: &String) -> (r: Option<usize>)
    ensures
        r matches Some(i) ==> i < nodes.len() && nodes.deep_view()[i as int].id == name@,
        r is None ==> !spec_has_id(nodes.deep_view(), name@),
{
    let mut i: usize = 0;
    while i < nodes.len()
        invariant
            i <= nodes.len(),
            forall|k: int| 0 <= k < i ==> (#[trigger] nodes.deep_view()[k]).id != name@,
        decreases nodes.len() - i,
    {
        if nodes[i].id.eq(name) {
            return Some(i);
        }
        i += 1;
    }
    None
}

/// Looks for a task id on the current resolution stack.
fn find_in_stack(stack: &Vec<usize>, configs: &Vec<ConfigFile>, name: &String) -> (r: Option<
    usize,
>)
    requires
        forall|k: int| 0 <= k < stack@.len() ==> (#[trigger] stack@[k]) < configs.len(),
    ensures
        r matches Some(j) ==> j < stack@.len() && configs.deep_view()[stack@[j as int] as int].id
            == name@,
        r is None ==> forall|k: int|
            0 <= k < stack@.len() ==> configs.deep_view()[#[trigger] stack@[k] as int].id != name@,
{
    let mut j: usize = 0;
    while j < stack.len()
        invariant
            j <= stack@.len(),
            forall|k: int| 0 <= k < stack@.len() ==> (#[trigger] stack@[k]) < configs.len(),
            forall|k: int|
                0 <= k < j ==> configs.deep_view()[#[trigger] stack@[k] as int].id != name@,
        decreases stack@.len() - j,
    {
        let ci = stack[j];
        if configs[ci].id.eq(name) {
            return Some(j);
        }
        j += 1;
    }
    None
}

/// Resolves the task `name` and, recursively, everything it depends on, into
/// `out`.  `stack` is the chain of tasks mid-resolution, as config indices:
/// consecutive entries are dependency edges rooted at a requested name, so
/// finding `name` on it proves a reachable cycle.  `rem` is how much deeper
/// the resolution may still go; `roots` carries the requested names for the
/// reachability clauses.
#[verifier::rlimit(80)]
fn resolve_rec(
    configs: &Vec<ConfigFile>,
    name: &String,
    parent: Option<&String>,
    stack: &mut Vec<usize>,
    out: &mut Vec<TaskNode>,
    rem: usize,
    roots: Ghost<Seq<Seq<char>>>,
) -> (r: Result<(), Error>)
    requires
        spec_config_ids_distinct(configs.deep_view()),
        old(stack)@.no_duplicates(),
        forall|k: int| 0 <= k < old(stack)@.len() ==> (#[trigger] old(stack)@[k]) < configs.len(),
        forall|k: int|
            0 <= k < old(stack)@.len() - 1 ==> spec_dep_edge(
                configs.deep_view(),
                #[trigger] old(stack)@[k],
                old(stack)@[k + 1],
            ),
        old(stack)@.len() > 0 ==> spec_names_dep(configs.deep_view(), old(stack)@.last(), name@),
        old(stack)@.len() == 0 ==> roots@.contains(name@),
        old(stack)@.len() > 0 ==> spec_is_root_path(configs.deep_view(), roots@, old(stack)@),
        parent is None ==> roots@.contains(name@),
        parent matches Some(p) ==> exists|a: usize|
            (a as int) < configs.deep_view().len() && (#[trigger] configs.deep_view()[a as int]).id
                == p@ && spec_names_dep(configs.deep_view(), a, name@),
        old(stack)@.len() + rem == configs.len(),
        spec_forest_wf(configs.deep_view(), old(out).deep_view()),
        spec_all_pending(old(out).deep_view()),
        // tasks mid-resolution have no node yet
        forall|k: int|
            0 <= k < old(stack)@.len() ==> !spec_has_id(
                old(out).deep_view(),
                configs.deep_view()[#[trigger] old(stack)@[k] as int].id,
            ),
    ensures
        // the forest only grows, and stays sound and pending
        old(out).deep_view().len() <= final(out).deep_view().len(),
        final(out).deep_view().take(old(out).deep_view().len() as int) == old(out).deep_view(),
        spec_forest_wf(configs.deep_view(), final(out).deep_view()),
        spec_all_pending(final(out).deep_view()),
        // tasks mid-resolution still have no node
        forall|k: int|
            0 <= k < old(stack)@.len() ==> !spec_has_id(
                final(out).deep_view(),
                configs.deep_view()[#[trigger] old(stack)@[k] as int].id,
            ),
        // every node added is reachable from the requested roots
        forall|i: int|
            old(out).deep_view().len() <= i < final(out).deep_view().len()
                ==> spec_reachable_idx(
                configs.deep_view(),
                roots@,
                (#[trigger] final(out).deep_view()[i]).config,
            ),
        // an unparented node was itself requested
        forall|i: int|
            old(out).deep_view().len() <= i < final(out).deep_view().len() ==> ((
            #[trigger] final(out).deep_view()[i]).parent is None ==> roots@.contains(
                final(out).deep_view()[i].id,
            )),
        // a parented node is declared as a dependency by its parent task
        forall|i: int|
            old(out).deep_view().len() <= i < final(out).deep_view().len() ==> ((
            #[trigger] final(out).deep_view()[i]).parent matches Some(p) ==> exists|a: usize|
                (a as int) < configs.deep_view().len() && (
                #[trigger] configs.deep_view()[a as int]).id == p && spec_names_dep(
                    configs.deep_view(),
                    a,
                    final(out).deep_view()[i].id,
                )),
        r is Ok ==> final(stack)@ == old(stack)@,
        r is Ok ==> spec_has_id(final(out).deep_view(), name@),
        // on success each added node's parent is the caller's, or stands in
        // the forest already
        r is Ok ==> forall|i: int|
            old(out).deep_view().len() <= i < final(out).deep_view().len() ==> ((
            #[trigger] final(out).deep_view()[i]).parent matches Some(p) ==> ((match parent {
                Some(q) => p == q@,
                None => false,
            }) || spec_has_id(final(out).deep_view(), p))),
        r matches Err(e) ==> (e matches Error::ConfigNotFound(_) || e matches Error::CycleDetected(
            _,
        )),
        r matches Err(e) ==> (e matches Error::ConfigNotFound(n) ==> !spec_config_has_id(
            configs.deep_view(),
            n@,
        ) && spec_reachable_name(configs.deep_view(), roots@, n@)),
        r matches Err(e) ==> (e matches Error::CycleDetected(_) ==> exists|chain: Seq<usize>|
            spec_is_dep_cycle(configs.deep_view(), chain) && spec_reachable_idx(
                configs.deep_view(),
                roots@,
                chain[0],
            )),
    decreases rem,
{
    let ghost cdv = configs.deep_view();
    if let Some(_existing) = find_node(out, name) {
        return Ok(());
    }
    let ci = match find_config(configs, name) {
        Some(ci) => ci,
        None => {
            proof {
                if old(stack)@.len() > 0 {
                    let a = old(stack)@.last();
                    assert(spec_is_root_path(cdv, roots@, old(stack)@) && old(stack)@.last() == a);
                    assert(spec_reachable_idx(cdv, roots@, a));
                    assert(spec_names_dep(cdv, a, name@));
                }
                assert(spec_reachable_name(cdv, roots@, name@));
            }
            return Err(Error::ConfigNotFound(name.clone()));
        },
    };
    match find_in_stack(stack, configs, name) {
        Some(j) => {
            proof {
                let chain = stack@.skip(j as int);
                assert(chain.len() >= 1);
                assert forall|k: int| 0 <= k < chain.len() - 1 implies spec_dep_edge(
                    cdv,
                    #[trigger] chain[k],
                    chain[k + 1],
                ) by {
                    assert(chain[k] == stack@[j + k]);
                    assert(chain[k + 1] == stack@[j + k + 1]);
                }
                assert(chain.last() == stack@.last());
                assert(chain[0] == stack@[j as int]);
                assert(cdv[stack@[j as int] as int].id == name@);
                assert(spec_dep_edge(cdv, chain.last(), chain[0]));
                assert(spec_is_dep_cycle(cdv, chain));
                // the prefix of the stack up to the revisited task shows the
                // cycle is reachable
                let pfx = stack@.take(j + 1 as int);
                assert(pfx[0] == stack@[0]);
                assert forall|k: int| 0 <= k < pfx.len() - 1 implies spec_dep_edge(
                    cdv,
                    #[trigger] pfx[k],
                    pfx[k + 1],
                ) by {
                    assert(pfx[k] == stack@[k]);
                    assert(pfx[k + 1] == stack@[k + 1]);
                }
                assert(spec_is_root_path(cdv, roots@, pfx) && pfx.last() == chain[0]);
                assert(spec_reachable_idx(cdv, roots@, chain[0]));
            }
            return Err(Error::CycleDetected(name.clone()));
        },
        None => {},
    }
    proof {
        // the config index about to go on the stack is fresh there: its id
        // matches no stack entry's id
        assert forall|k: int| 0 <= k < stack@.len() implies stack@[k] != ci by {
            assert(cdv[stack@[k] as int].id != name@);
        }
        assert(stack@.push(ci).no_duplicates());
        lemma_distinct_indices_bound(stack@.push(ci), configs.len() as nat);
        // the grown stack is still a root path
        let grown = stack@.push(ci);
        if stack@.len() == 0 {
            assert(grown[0] == ci);
            assert(cdv[ci as int].id == name@);
        } else {
            assert(grown[0] == stack@[0]);
        }
        assert forall|k: int| 0 <= k < grown.len() - 1 implies spec_dep_edge(
            cdv,
            #[trigger] grown[k],
            grown[k + 1],
        ) by {
            if k < stack@.len() - 1 {
                assert(grown[k] == stack@[k]);
                assert(grown[k + 1] == stack@[k + 1]);
            } else {
                assert(grown[k] == stack@.last());
                assert(grown[k + 1] == ci);
                assert(spec_names_dep(cdv, stack@.last(), name@));
                assert(cdv[ci as int].id == name@);
            }
        }
        assert(spec_is_root_path(cdv, roots@, grown));
    }
    stack.push(ci);
    let deps = dependency_names(&configs[ci].config);
    let ghost depsv = deps.deep_view();
    let ghost stack1 = stack@;
    let ghost out1 = out.deep_view();

    let mut d: usize = 0;
    while d < deps.len()
        invariant
            cdv == configs.deep_view(),
            depsv == deps.deep_view(),
            depsv == spec_dependency_names(cdv[ci as int].config),
            cdv[ci as int].id == name@,
            (ci as int) < cdv.len(),
            spec_config_ids_distinct(cdv),
            stack@ == stack1,
            stack1 == old(stack)@.push(ci),
            out1 == old(out).deep_view(),
            stack1.len() >= 1,
            stack1.last() == ci,
            stack1.no_duplicates(),
            spec_is_root_path(cdv, roots@, stack1),
            forall|k: int| 0 <= k < stack1.len() ==> (#[trigger] stack1[k]) < configs.len(),
            forall|k: int|
                0 <= k < stack1.len() - 1 ==> spec_dep_edge(
                    cdv,
                    #[trigger] stack1[k],
                    stack1[k + 1],
                ),
            stack1.len() + rem == configs.len() + 1,
            rem >= 1,
            d <= deps.len(),
            out1.len() <= out.deep_view().len(),
            out.deep_view().take(out1.len() as int) == out1,
            spec_forest_wf(cdv, out.deep_view()),
            spec_all_pending(out.deep_view()),
            forall|k: int|
                0 <= k < stack1.len() ==> !spec_has_id(
                    out.deep_view(),
                    cdv[#[trigger] stack1[k] as int].id,
                ),
            forall|e: int| 0 <= e < d ==> spec_has_id(out.deep_view(), #[trigger] depsv[e]),
            forall|i: int|
                out1.len() <= i < out.deep_view().len() ==> spec_reachable_idx(
                    cdv,
                    roots@,
                    (#[trigger] out.deep_view()[i]).config,
                ),
            forall|i: int|
                out1.len() <= i < out.deep_view().len() ==> ((
                #[trigger] out.deep_view()[i]).parent is None ==> roots@.contains(
                    out.deep_view()[i].id,
                )),
            forall|i: int|
                out1.len() <= i < out.deep_view().len() ==> ((
                #[trigger] out.deep_view()[i]).parent matches Some(p) ==> exists|a: usize|
                    (a as int) < cdv.len() && (#[trigger] cdv[a as int]).id == p && spec_names_dep(
                        cdv,
                        a,
                        out.deep_view()[i].id,
                    )),
            forall|i: int|
                out1.len() <= i < out.deep_view().len() ==> ((
                #[trigger] out.deep_view()[i]).parent matches Some(p) ==> (p == name@
                    || spec_has_id(out.deep_view(), p))),
        decreases deps.len() - d,
    {
        let dep = &deps[d];
        proof {
            assert(depsv[d as int] == dep@);
            assert(spec_names_dep(cdv, ci, dep@));
        }
        let ghost out_before = out.deep_view();
        match resolve_rec(configs, dep, Some(name), stack, out, rem - 1, roots) {
            Ok(()) => {},
            Err(e) => {
                proof {
                    assert forall|k: int| 0 <= k < old(stack)@.len() implies !spec_has_id(
                        out.deep_view(),
                        cdv[#[trigger] old(stack)@[k] as int].id,
                    ) by {
                        assert(old(stack)@[k] == stack1[k]);
                    }
                    assert(out.deep_view().take(old(out).deep_view().len() as int)
                        =~= out.deep_view().take(out1.len() as int));
                    // the clauses about added nodes carry over the two
                    // segments: before this call, and added by it
                    assert forall|i: int|
                        out1.len() <= i < out.deep_view().len() implies spec_reachable_idx(
                        cdv,
                        roots@,
                        (#[trigger] out.deep_view()[i]).config,
                    ) && ((out.deep_view()[i]).parent is None ==> roots@.contains(
                        out.deep_view()[i].id,
                    )) && ((out.deep_view()[i]).parent matches Some(p) ==> exists|a: usize|
                        (a as int) < cdv.len() && (#[trigger] cdv[a as int]).id == p
                            && spec_names_dep(cdv, a, out.deep_view()[i].id)) by {
                        if i < out_before.len() {
                            assert(out.deep_view().take(out_before.len() as int)[i]
                                == out_before[i]);
                        }
                    }
                }
                return Err(e);
            },
        }
        proof {
            // ids already resolved stay resolved: the forest only grew
            assert forall|e: int| 0 <= e < d + 1 implies spec_has_id(
                out.deep_view(),
                #[trigger] depsv[e],
            ) by {
                if e < d {
                    let w = choose|w: int|
                        0 <= w < out_before.len() && (#[trigger] out_before[w]).id == depsv[e];
                    assert(out.deep_view().take(out_before.len() as int)[w] == out_before[w]);
                    assert(out.deep_view()[w].id == depsv[e]);
                }
            }
            assert(out.deep_view().take(out1.len() as int) =~= out1);
            // the added-node clauses hold over both segments
            assert forall|i: int|
                out1.len() <= i < out.deep_view().len() implies spec_reachable_idx(
                cdv,
                roots@,
                (#[trigger] out.deep_view()[i]).config,
            ) && ((out.deep_view()[i]).parent is None ==> roots@.contains(out.deep_view()[i].id))
                && ((out.deep_view()[i]).parent matches Some(p) ==> exists|a: usize|
                (a as int) < cdv.len() && (#[trigger] cdv[a as int]).id == p && spec_names_dep(
                    cdv,
                    a,
                    out.deep_view()[i].id,
                )) by {
                if i < out_before.len() {
                    assert(out.deep_view().take(out_before.len() as int)[i] == out_before[i]);
                }
            }
            assert forall|i: int|
                out1.len() <= i < out.deep_view().len() implies ((
            #[trigger] out.deep_view()[i]).parent matches Some(p) ==> (p == name@ || spec_has_id(
                out.deep_view(),
                p,
            ))) by {
                if i < out_before.len() {
                    assert(out.deep_view().take(out_before.len() as int)[i] == out_before[i]);
                    if out_before[i].parent is Some {
                        let p = out_before[i].parent->Some_0;
                        if p != name@ && spec_has_id(out_before, p) {
                            let w = choose|w: int|
                                0 <= w < out_before.len() && (#[trigger] out_before[w]).id == p;
                            assert(out.deep_view().take(out_before.len() as int)[w]
                                == out_before[w]);
                            assert(out.deep_view()[w].id == p);
                        }
                    }
                }
            }
        }
        d += 1;
    }

    // every dependency now has a node; collect their indices in order
    let mut dep_idx: Vec<usize> = Vec::new();
    let mut d: usize = 0;
    while d < deps.len()
        invariant
            cdv == configs.deep_view(),
            depsv == deps.deep_view(),
            depsv == spec_dependency_names(cdv[ci as int].config),
            cdv[ci as int].id == name@,
            (ci as int) < cdv.len(),
            spec_config_ids_distinct(cdv),
            stack@ == stack1,
            stack1 == old(stack)@.push(ci),
            out1 == old(out).deep_view(),
            stack1.no_duplicates(),
            spec_is_root_path(cdv, roots@, stack1),
            forall|k: int| 0 <= k < stack1.len() ==> (#[trigger] stack1[k]) < configs.len(),
            stack1.last() == ci,
            out1.len() <= out.deep_view().len(),
            out.deep_view().take(out1.len() as int) == out1,
            spec_forest_wf(cdv, out.deep_view()),
            spec_all_pending(out.deep_view()),
            forall|k: int|
                0 <= k < stack1.len() ==> !spec_has_id(
                    out.deep_view(),
                    cdv[#[trigger] stack1[k] as int].id,
                ),
            d <= deps.len(),
            dep_idx@.len() == d,
            forall|e: int| 0 <= e < depsv.len() ==> spec_has_id(out.deep_view(), #[trigger] depsv[e]),
            forall|e: int|
                0 <= e < d ==> (#[trigger] dep_idx@[e] as int) < out.deep_view().len()
                    && out.deep_view()[dep_idx@[e] as int].id == depsv[e],
            forall|i: int|
                out1.len() <= i < out.deep_view().len() ==> spec_reachable_idx(
                    cdv,
                    roots@,
                    (#[trigger] out.deep_view()[i]).config,
                ),
            forall|i: int|
                out1.len() <= i < out.deep_view().len() ==> ((
                #[trigger] out.deep_view()[i]).parent is None ==> roots@.contains(
                    out.deep_view()[i].id,
                )),
            forall|i: int|
                out1.len() <= i < out.deep_view().len() ==> ((
                #[trigger] out.deep_view()[i]).parent matches Some(p) ==> exists|a: usize|
                    (a as int) < cdv.len() && (#[trigger] cdv[a as int]).id == p && spec_names_dep(
                        cdv,
                        a,
                        out.deep_view()[i].id,
                    )),
            forall|i: int|
                out1.len() <= i < out.deep_view().len() ==> ((
                #[trigger] out.deep_view()[i]).parent matches Some(p) ==> (p == name@
                    || spec_has_id(out.deep_view(), p))),
        decreases deps.len() - d,
    {
        match find_node(out, &deps[d]) {
            Some(di) => {
                dep_idx.push(di);
            },
            None => {
                proof {
                    assert(spec_has_id(out.deep_view(), depsv[d as int]));
                    assert(false);
                }
                return Err(Error::ConfigNotFound(String::new()));
            },
        }
        d += 1;
    }

    stack.pop();
    proof {
        assert(stack@ =~= old(stack)@) by {
            assert(stack1.drop_last() =~= old(stack)@);
        }
    }
    let node = TaskNode {
        id: configs[ci].id.clone(),
        parent: match parent {
            Some(p) => Some(p.clone()),
            None => None,
        },
        config: ci,
        deps: dep_idx,
        status: Status::Pending,
    };
    let ghost out_pre = out.deep_view();
    out.push(node);
    proof {
        let outv = out.deep_view();
        assert(outv =~= out_pre.push(node@));
        assert(outv.take(out_pre.len() as int) =~= out_pre);
        assert(outv.take(out1.len() as int) =~= outv.take(out_pre.len() as int).take(
            out1.len() as int,
        ));
        // the new node is sound
        assert(node@.id == cdv[ci as int].id);
        assert(spec_node_wf(cdv, outv, out_pre.len() as int));
        // older nodes are untouched
        assert forall|i: int| 0 <= i < out_pre.len() implies spec_node_wf(cdv, outv, i) by {
            assert(spec_node_wf(cdv, out_pre, i));
            assert(outv[i] == out_pre[i]);
            assert forall|dd: int| 0 <= dd < outv[i].deps.len() implies (#[trigger] outv[i].deps[dd])
                < i && outv[outv[i].deps[dd] as int].id == spec_dependency_names(
                cdv[outv[i].config as int].config,
            )[dd] by {
                assert(out_pre[i].deps[dd] < i);
                assert(outv[out_pre[i].deps[dd] as int] == out_pre[out_pre[i].deps[dd] as int]);
            }
        }
        // ids stay distinct: the new id was absent
        assert(!spec_has_id(out_pre, name@));
        assert forall|i: int, j: int| 0 <= i < j < outv.len() implies (#[trigger] outv[i]).id != (
        #[trigger] outv[j]).id by {
            if j < out_pre.len() {
                assert(out_pre[i].id != out_pre[j].id);
            } else {
                if outv[i].id == name@ {
                    assert(spec_has_id(out_pre, name@));
                }
            }
        }
        assert(spec_all_pending(outv));
        assert(spec_has_id(outv, name@)) by {
            assert(outv[out_pre.len() as int].id == name@);
        }
        // stack ids other than ours are still unresolved
        assert forall|k: int| 0 <= k < old(stack)@.len() implies !spec_has_id(
            outv,
            cdv[#[trigger] old(stack)@[k] as int].id,
        ) by {
            assert(old(stack)@[k] == stack1[k]);
            assert(cdv[stack1[k] as int].id != name@) by {
                if cdv[stack1[k] as int].id == name@ {
                    // two configs with one id, or the same index twice on the
                    // stack: both impossible
                    if stack1[k] == ci {
                        assert(stack1[stack1.len() - 1] == ci);
                        assert(!stack1.no_duplicates() || k == stack1.len() - 1);
                    }
                }
            }
            if spec_has_id(outv, cdv[stack1[k] as int].id) {
                let w = choose|w: int|
                    0 <= w < outv.len() && (#[trigger] outv[w]).id == cdv[stack1[k] as int].id;
                assert(w < out_pre.len());
                assert(spec_has_id(out_pre, cdv[stack1[k] as int].id));
            }
        }
        // the new node is reachable: the stack it was resolved under is a
        // root path ending at its config
        assert(node@.config == ci);
        assert(spec_is_root_path(cdv, roots@, stack1) && stack1.last() == ci);
        assert(spec_reachable_idx(cdv, roots@, ci));
        assert forall|i: int|
            out1.len() <= i < outv.len() implies spec_reachable_idx(
            cdv,
            roots@,
            (#[trigger] outv[i]).config,
        ) by {
            if i < out_pre.len() {
                assert(outv[i] == out_pre[i]);
            }
        }
        // the parent clauses for the new node come from this call's own
        // requires; for the older ones from the loop, transported
        assert forall|i: int|
            out1.len() <= i < outv.len() implies ((#[trigger] outv[i]).parent is None
            ==> roots@.contains(outv[i].id)) && ((outv[i]).parent matches Some(p) ==> exists|
        a: usize|
            (a as int) < cdv.len() && (#[trigger] cdv[a as int]).id == p && spec_names_dep(
                cdv,
                a,
                outv[i].id,
            )) by {
            if i < out_pre.len() {
                assert(outv[i] == out_pre[i]);
            } else {
                assert(outv[i] == node@);
            }
        }
        assert forall|i: int|
            out1.len() <= i < outv.len() implies ((#[trigger] outv[i]).parent matches Some(p)
            ==> ((match parent {
                Some(q) => p == q@,
                None => false,
            }) || spec_has_id(outv, p))) by {
            if i < out_pre.len() {
                assert(outv[i] == out_pre[i]);
                if out_pre[i].parent is Some {
                    let p = out_pre[i].parent->Some_0;
                    if p == name@ {
                        assert(outv[out_pre.len() as int].id == name@);
                    } else if spec_has_id(out_pre, p) {
                        let w = choose|w: int|
                            0 <= w < out_pre.len() && (#[trigger] out_pre[w]).id == p;
                        assert(outv[w] == out_pre[w]);
                    }
                }
            } else {
                assert(outv[i] == node@);
            }
        }
    }
    Ok(())
}

/// Resolves the dependency forest for the requested root tasks: exactly the
/// reachable tasks, each once, its dependencies at smaller indices, every
/// node Pending, roots unparented and every other node parented by a task
/// that names it.  Fails with `ConfigNotFound` exactly when a requested or
/// transitively required task has no config, and with `CycleDetected` only
/// when the reachable dependency declarations form a cycle — so on a
/// complete, acyclic closure the result is always `Ok`.
pub fn build_tree(roots: &Vec<String>, configs: &Vec<ConfigFile>) -> (r: Result<
    Vec<TaskNode>,
    Error,
>)
    requires
        spec_config_ids_distinct(configs.deep_view()),
    ensures
        r matches Ok(nodes) ==> spec_forest_wf(configs.deep_view(), nodes.deep_view())
            && spec_all_pending(nodes.deep_view()) && forall|k: int|
            0 <= k < roots.len() ==> spec_has_id(nodes.deep_view(), #[trigger] roots.deep_view()[k]),
        r matches Ok(nodes) ==> forall|i: int|
            0 <= i < nodes.deep_view().len() ==> spec_reachable_idx(
                configs.deep_view(),
                roots.deep_view(),
                (#[trigger] nodes.deep_view()[i]).config,
            ),
        r matches Ok(nodes) ==> forall|i: int|
            0 <= i < nodes.deep_view().len() ==> ((#[trigger] nodes.deep_view()[i]).parent is None
                ==> roots.deep_view().contains(nodes.deep_view()[i].id)),
        r matches Ok(nodes) ==> forall|i: int|
            0 <= i < nodes.deep_view().len() ==> ((#[trigger] nodes.deep_view()[i]).parent matches
            Some(p) ==> spec_has_id(nodes.deep_view(), p) && exists|a: usize|
                (a as int) < configs.deep_view().len() && (
                #[trigger] configs.deep_view()[a as int]).id == p && spec_names_dep(
                    configs.deep_view(),
                    a,
                    nodes.deep_view()[i].id,
                )),
        r matches Err(e) ==> (e matches Error::ConfigNotFound(_) || e matches Error::CycleDetected(
            _,
        )),
        r matches Err(e) ==> (e matches Error::ConfigNotFound(n) ==> !spec_config_has_id(
            configs.deep_view(),
            n@,
        ) && spec_reachable_name(configs.deep_view(), roots.deep_view(), n@)),
        r matches Err(e) ==> (e matches Error::CycleDetected(_) ==> exists|chain: Seq<usize>|
            spec_is_dep_cycle(configs.deep_view(), chain) && spec_reachable_idx(
                configs.deep_view(),
                roots.deep_view(),
                chain[0],
            )),
{
    let ghost cdv = configs.deep_view();
    let ghost rootsv = roots.deep_view();
    let mut out: Vec<TaskNode> = Vec::new();
    let mut stack: Vec<usize> = Vec::new();
    let mut k: usize = 0;
    while k < roots.len()
        invariant
            cdv == configs.deep_view(),
            rootsv == roots.deep_view(),
            spec_config_ids_distinct(cdv),
            k <= roots.len(),
            stack@.len() == 0,
            spec_forest_wf(cdv, out.deep_view()),
            spec_all_pending(out.deep_view()),
            forall|e: int| 0 <= e < k ==> spec_has_id(out.deep_view(), #[trigger] rootsv[e]),
            forall|i: int|
                0 <= i < out.deep_view().len() ==> spec_reachable_idx(
                    cdv,
                    rootsv,
                    (#[trigger] out.deep_view()[i]).config,
                ),
            forall|i: int|
                0 <= i < out.deep_view().len() ==> ((#[trigger] out.deep_view()[i]).parent is None
                    ==> rootsv.contains(out.deep_view()[i].id)),
            forall|i: int|
                0 <= i < out.deep_view().len() ==> ((#[trigger] out.deep_view()[i]).parent matches
                Some(p) ==> spec_has_id(out.deep_view(), p) && exists|a: usize|
                    (a as int) < cdv.len() && (#[trigger] cdv[a as int]).id == p && spec_names_dep(
                        cdv,
                        a,
                        out.deep_view()[i].id,
                    )),
        decreases roots.len() - k,
    {
        let ghost out_before = out.deep_view();
        proof {
            assert(rootsv[k as int] == roots@[k as int]@);
            assert(rootsv.contains(roots@[k as int]@));
        }
        match resolve_rec(
            configs,
            &roots[k],
            None,
            &mut stack,
            &mut out,
            configs.len(),
            Ghost(rootsv),
        ) {
            Ok(()) => {},
            Err(e) => {
                return Err(e);
            },
        }
        proof {
            assert forall|e: int| 0 <= e < k + 1 implies spec_has_id(
                out.deep_view(),
                #[trigger] rootsv[e],
            ) by {
                if e < k {
                    let w = choose|w: int|
                        0 <= w < out_before.len() && (#[trigger] out_before[w]).id == rootsv[e];
                    assert(out.deep_view().take(out_before.len() as int)[w] == out_before[w]);
                    assert(out.deep_view()[w].id == rootsv[e]);
                }
            }
            // carry the shape clauses over the old and the new segment
            assert forall|i: int|
                0 <= i < out.deep_view().len() implies spec_reachable_idx(
                cdv,
                rootsv,
                (#[trigger] out.deep_view()[i]).config,
            ) && ((out.deep_view()[i]).parent is None ==> rootsv.contains(out.deep_view()[i].id))
                && ((out.deep_view()[i]).parent matches Some(p) ==> spec_has_id(out.deep_view(), p)
                && exists|a: usize|
                (a as int) < cdv.len() && (#[trigger] cdv[a as int]).id == p && spec_names_dep(
                    cdv,
                    a,
                    out.deep_view()[i].id,
                )) by {
                if i < out_before.len() {
                    assert(out.deep_view().take(out_before.len() as int)[i] == out_before[i]);
                    if out_before[i].parent is Some {
                        let p = out_before[i].parent->Some_0;
                        if spec_has_id(out_before, p) {
                            let w = choose|w: int|
                                0 <= w < out_before.len() && (#[trigger] out_before[w]).id == p;
                            assert(out.deep_view().take(out_before.len() as int)[w]
                                == out_before[w]);
                            assert(out.deep_view()[w].id == p);
                        }
                    }
                }
            }
        }
        k += 1;
    }
    Ok(out)
}

/// Dependencies point backwards: every dependency index is smaller than the
/// index of the node that declares it.  Resolution order guarantees this.
pub open spec fn spec_topo_wf(nodes: Seq<NodeView>) -> bool {
    forall|i: int, d: int|
        0 <= i < nodes.len() && 0 <= d < nodes[i].deps.len() ==> (#[trigger] nodes[i].deps[d]) < i
}

/// A sound forest is topologically ordered.
pub proof fn lemma_forest_wf_topo(configs: Seq<ConfigFileView>, nodes: Seq<NodeView>)
    requires
        spec_forest_wf(configs, nodes),
    ensures
        spec_topo_wf(nodes),
{
    assert forall|i: int, d: int|
        0 <= i < nodes.len() && 0 <= d < nodes[i].deps.len() implies (#[trigger] nodes[i].deps[d])
        < i by {
        assert(spec_node_wf(configs, nodes, i));
    }
}

/// Every dependency of node `i` is Done.
pub open spec fn spec_deps_done(nodes: Seq<NodeView>, i: int) -> bool {
    forall|d: int|
        0 <= d < nodes[i].deps.len() ==> nodes[#[trigger] nodes[i].deps[d] as int].status is Done
}

/// The scheduler's invariant: the forest is topologically ordered, and a
/// node that has left Pending — it is Ready, Running or Done — has every
/// dependency Done.  This is the children-before-parent ordering guarantee.
pub open spec fn spec_sched_inv(nodes: Seq<NodeView>) -> bool {
    &&& spec_topo_wf(nodes)
    &&& forall|i: int|
        0 <= i < nodes.len() && !((#[trigger] nodes[i]).status is Pending) ==> spec_deps_done(
            nodes,
            i,
        )
}

/// Every node is Done: the run is over.
pub open spec fn spec_all_done(nodes: Seq<NodeView>) -> bool {
    forall|i: int| 0 <= i < nodes.len() ==> (#[trigger] nodes[i]).status is Done
}

/// Two forests agree on everything but the statuses.
pub open spec fn spec_same_shape(a: Seq<NodeView>, b: Seq<NodeView>) -> bool {
    &&& a.len() == b.len()
    &&& forall|i: int|
        0 <= i < a.len() ==> (#[trigger] b[i]).id == a[i].id && b[i].parent == a[i].parent && b[i].config
            == a[i].config && b[i].deps == a[i].deps
}

/// How far a node still is from Done.
pub open spec fn spec_status_rank(s: Status) -> nat {
    match s {
        Status::Pending => 3,
        Status::Ready => 2,
        Status::Running => 1,
        Status::Done => 0,
    }
}

/// How much work the whole forest still has: the sum of the nodes' ranks.
/// Every scheduler transition lowers it, so the run ends within a bounded
/// number of transitions.
pub open spec fn spec_measure(nodes: Seq<NodeView>) -> nat
    decreases nodes.len(),
{
    if nodes.len() == 0 {
        0
    } else {
        spec_measure(nodes.drop_last()) + spec_status_rank(nodes.last().status)
    }
}

/// The measure never goes up when no node's status goes backwards.
pub proof fn lemma_measure_le(a: Seq<NodeView>, b: Seq<NodeView>)
    requires
        a.len() == b.len(),
        forall|i: int|
            0 <= i < a.len() ==> spec_status_rank((#[trigger] b[i]).status) <= spec_status_rank(
                a[i].status,
            ),
    ensures
        spec_measure(b) <= spec_measure(a),
    decreases a.len(),
{
    if a.len() > 0 {
        lemma_measure_le(a.drop_last(), b.drop_last());
        assert(spec_status_rank(b.last().status) <= spec_status_rank(a.last().status)) by {
            assert(b[a.len() - 1].status == b.last().status);
        }
    }
}

/// The measure strictly falls when some node's status strictly advances and
/// none goes backwards.
pub proof fn lemma_measure_decreases(a: Seq<NodeView>, b: Seq<NodeView>, w: int)
    requires
        a.len() == b.len(),
        forall|i: int|
            0 <= i < a.len() ==> spec_status_rank((#[trigger] b[i]).status) <= spec_status_rank(
                a[i].status,
            ),
        0 <= w < a.len(),
        spec_status_rank(b[w].status) < spec_status_rank(a[w].status),
    ensures
        spec_measure(b) < spec_measure(a),
    decreases a.len(),
{
    if w == a.len() - 1 {
        lemma_measure_le(a.drop_last(), b.drop_last());
        assert(b[w].status == b.last().status);
    } else {
        lemma_measure_decreases(a.drop_last(), b.drop_last(), w);
        assert(spec_status_rank(b.last().status) <= spec_status_rank(a.last().status)) by {
            assert(b[a.len() - 1].status == b.last().status);
        }
    }
}

/// The measure of a forest of `n` nodes is at most `3 n`, and it is zero
/// exactly when every node is Done: the scheduler makes at most `3 n`
/// transitions before it exits.
pub proof fn lemma_measure_bounds(nodes: Seq<NodeView>)
    ensures
        spec_measure(nodes) <= 3 * nodes.len(),
        spec_measure(nodes) == 0 <==> spec_all_done(nodes),
    decreases nodes.len(),
{
    if nodes.len() == 0 {
    } else {
        lemma_measure_bounds(nodes.drop_last());
        if spec_measure(nodes) == 0 {
            assert forall|i: int| 0 <= i < nodes.len() implies (#[trigger] nodes[i]).status
                is Done by {
                if i < nodes.len() - 1 {
                    assert(nodes.drop_last()[i] == nodes[i]);
                } else {
                    assert(nodes[i] == nodes.last());
                }
            }
        }
        if spec_all_done(nodes) {
            assert(spec_all_done(nodes.drop_last()));
        }
    }
}

/// Dependency order: a task that is Running, or already Done, has every one
/// of its dependencies Done — its execution began strictly after each
/// dependency's execution ended.
pub proof fn lemma_dependency_order(nodes: Seq<NodeView>, i: int, d: int)
    requires
        spec_sched_inv(nodes),
        0 <= i < nodes.len(),
        0 <= d < nodes[i].deps.len(),
        nodes[i].status is Running || nodes[i].status is Done,
    ensures
        nodes[nodes[i].deps[d] as int].status is Done,
{
}

/// No deadlock: in a forest that is not finished and has nothing Ready or
/// Running, some Pending node has all its dependencies Done, so the next
/// tick readies it.  (`j` is any unfinished node.)
pub proof fn lemma_stalled_has_eligible(nodes: Seq<NodeView>, j: int)
    requires
        spec_sched_inv(nodes),
        forall|i: int|
            0 <= i < nodes.len() ==> !((#[trigger] nodes[i]).status is Ready) && !(nodes[i].status
                is Running),
        0 <= j < nodes.len(),
        !(nodes[j].status is Done),
    ensures
        exists|i: int|
            0 <= i < nodes.len() && (#[trigger] nodes[i]).status is Pending && spec_deps_done(
                nodes,
                i,
            ),
    decreases j,
{
    assert(nodes[j].status is Pending);
    if spec_deps_done(nodes, j) {
        assert(nodes[j].status is Pending && spec_deps_done(nodes, j));
    } else {
        let d = choose|d: int|
            0 <= d < nodes[j].deps.len() && !(nodes[#[trigger] nodes[j].deps[d] as int].status
                is Done);
        assert(nodes[j].deps[d] < j);
        lemma_stalled_has_eligible(nodes, nodes[j].deps[d] as int);
    }
}

/// Drives the resolved forest through the task lifecycle.  The scheduler
/// owns the nodes; the caller dispatches the tasks the scheduler hands out
/// and reports their completion back.
pub struct Scheduler {
    nodes: Vec<TaskNode>,
}

impl View for Scheduler {
    type V = Seq<NodeView>;

    closed spec fn view(&self) -> Seq<NodeView> {
        self.nodes.deep_view()
    }
}

impl Scheduler {
    /// Takes ownership of a freshly resolved forest.
    pub fn new(nodes: Vec<TaskNode>) -> (s: Scheduler)
        requires
            spec_topo_wf(nodes.deep_view()),
            spec_all_pending(nodes.deep_view()),
        ensures
            s@ == nodes.deep_view(),
            spec_sched_inv(s@),
            spec_all_pending(s@),
    {
        Scheduler { nodes }
    }

    /// How many tasks the forest holds.
    pub fn len(&self) -> (n: usize)
        ensures
            n == self@.len(),
    {
        self.nodes.len()
    }

    /// The lifecycle state of one task.
    pub fn status_of(&self, i: usize) -> (s: Status)
        requires
            i < self@.len(),
        ensures
            s == self@[i as int].status,
    {
        self.nodes[i].status
    }

    /// The id of one task.
    pub fn task_id(&self, i: usize) -> (id: String)
        requires
            i < self@.len(),
        ensures
            id@ == self@[i as int].id,
    {
        self.nodes[i].id.clone()
    }

    /// The config index of one task.
    pub fn config_of(&self, i: usize) -> (c: usize)
        requires
            i < self@.len(),
        ensures
            c == self@[i as int].config,
    {
        self.nodes[i].config
    }

    /// Whether every dependency of task `i` is Done.
    fn deps_done(&self, i: usize) -> (r: bool)
        requires
            i < self@.len(),
            forall|d: int|
                0 <= d < self@[i as int].deps.len() ==> (#[trigger] self@[i as int].deps[d] as int)
                    < self@.len(),
        ensures
            r == spec_deps_done(self@, i as int),
    {
        let mut d: usize = 0;
        while d < self.nodes[i].deps.len()
            invariant
                i < self@.len(),
                forall|e: int|
                    0 <= e < self@[i as int].deps.len() ==> (
                    #[trigger] self@[i as int].deps[e] as int) < self@.len(),
                d <= self@[i as int].deps.len(),
                forall|e: int|
                    0 <= e < d ==> self@[#[trigger] self@[i as int].deps[e] as int].status is Done,
            decreases self@[i as int].deps.len() - d,
        {
            let dep = self.nodes[i].deps[d];
            match self.nodes[dep].status {
                Status::Done => {},
                _ => {
                    return false;
                },
            }
            d += 1;
        }
        true
    }

    /// One readiness pass: every Pending task whose dependencies are all
    /// Done becomes Ready.  If any task was eligible, the measure strictly
    /// falls.
    pub fn make_ready(&mut self)
        requires
            spec_sched_inv(old(self)@),
        ensures
            spec_sched_inv(final(self)@),
            spec_same_shape(old(self)@, final(self)@),
            forall|j: int|
                0 <= j < old(self)@.len() ==> (#[trigger] final(self)@[j]).status == (if old(
                    self,
                )@[j].status is Pending && spec_deps_done(old(self)@, j) {
                    Status::Ready
                } else {
                    old(self)@[j].status
                }),
            spec_measure(final(self)@) <= spec_measure(old(self)@),
            (exists|i: int|
                0 <= i < old(self)@.len() && (#[trigger] old(self)@[i]).status is Pending
                    && spec_deps_done(old(self)@, i)) ==> spec_measure(final(self)@)
                < spec_measure(old(self)@),
    {
        let ghost before = self@;
        let n = self.nodes.len();
        let mut i: usize = 0;
        while i < n
            invariant
                spec_sched_inv(before),
                n == before.len(),
                i <= n,
                self@.len() == before.len(),
                spec_same_shape(before, self@),
                forall|j: int|
                    0 <= j < i ==> (#[trigger] self@[j]).status == (if before[j].status is Pending
                        && spec_deps_done(before, j) {
                        Status::Ready
                    } else {
                        before[j].status
                    }),
                forall|j: int| i <= j < n ==> (#[trigger] self@[j]).status == before[j].status,
                forall|j: int|
                    0 <= j < n ==> ((#[trigger] self@[j]).status is Done <==> before[j].status
                        is Done),
            decreases n - i,
        {
            let is_pending = match self.nodes[i].status {
                Status::Pending => true,
                _ => false,
            };
            if is_pending {
                proof {
                    assert forall|d: int| 0 <= d < self@[i as int].deps.len() implies (
                    #[trigger] self@[i as int].deps[d] as int) < self@.len() by {
                        assert(before[i as int].deps == self@[i as int].deps);
                    }
                }
                if self.deps_done(i) {
                    let ghost mid = self@;
                    self.nodes[i].status = Status::Ready;
                    proof {
                        assert(self@ =~= mid.update(i as int, self@[i as int]));
                        assert(spec_deps_done(before, i as int)) by {
                            assert(before[i as int].deps == mid[i as int].deps);
                            assert forall|d: int|
                                0 <= d < before[i as int].deps.len() implies before[
                            #[trigger] before[i as int].deps[d] as int].status is Done by {
                                assert(mid[before[i as int].deps[d] as int].status is Done);
                            }
                        }
                    }
                } else {
                    proof {
                        assert(!spec_deps_done(before, i as int)) by {
                            if spec_deps_done(before, i as int) {
                                assert forall|d: int|
                                    0 <= d < self@[i as int].deps.len() implies self@[
                                #[trigger] self@[i as int].deps[d] as int].status is Done by {
                                    assert(before[self@[i as int].deps[d] as int].status is Done);
                                }
                            }
                        }
                    }
                }
            }
            i += 1;
        }
        proof {
            let after = self@;
            // the invariant is preserved: anything not Pending now either
            // was not Pending before, or was just readied with done deps
            assert forall|j: int|
                0 <= j < after.len() && !((#[trigger] after[j]).status is Pending) implies
                spec_deps_done(after, j) by {
                assert(spec_deps_done(before, j));
                assert(after[j].deps == before[j].deps);
                assert forall|d: int|
                    0 <= d < after[j].deps.len() implies after[
                #[trigger] after[j].deps[d] as int].status is Done by {
                    assert(before[after[j].deps[d] as int].status is Done);
                }
            }
            assert forall|j: int|
                0 <= j < after.len() implies spec_status_rank((#[trigger] after[j]).status)
                <= spec_status_rank(before[j].status) by {}
            lemma_measure_le(before, after);
            if exists|w: int|
                0 <= w < before.len() && (#[trigger] before[w]).status is Pending && spec_deps_done(
                    before,
                    w,
                ) {
                let w = choose|w: int|
                    0 <= w < before.len() && (#[trigger] before[w]).status is Pending
                        && spec_deps_done(before, w);
                lemma_measure_decreases(before, after, w);
            }
        }
    }

    /// Dispatches everything Ready: each Ready task becomes Running, and its
    /// index is handed back for the caller to execute.
    pub fn start_tasks(&mut self) -> (started: Vec<usize>)
        requires
            spec_sched_inv(old(self)@),
        ensures
            spec_sched_inv(final(self)@),
            spec_same_shape(old(self)@, final(self)@),
            forall|j: int|
                0 <= j < old(self)@.len() ==> (#[trigger] final(self)@[j]).status == (if old(
                    self,
                )@[j].status is Ready {
                    Status::Running
                } else {
                    old(self)@[j].status
                }),
            forall|k: int|
                0 <= k < started@.len() ==> (#[trigger] started@[k] as int) < old(self)@.len()
                    && old(self)@[started@[k] as int].status is Ready,
            forall|j: int|
                0 <= j < old(self)@.len() && (#[trigger] old(self)@[j]).status is Ready
                    ==> started@.contains(j as usize),
            started@.no_duplicates(),
            spec_measure(final(self)@) <= spec_measure(old(self)@),
            (exists|i: int| 0 <= i < old(self)@.len() && (#[trigger] old(self)@[i]).status is Ready)
                ==> spec_measure(final(self)@) < spec_measure(old(self)@),
    {
        let ghost before = self@;
        let n = self.nodes.len();
        let mut started: Vec<usize> = Vec::new();
        let mut i: usize = 0;
        while i < n
            invariant
                spec_sched_inv(before),
                n == before.len(),
                i <= n,
                self@.len() == before.len(),
                spec_same_shape(before, self@),
                forall|j: int|
                    0 <= j < i ==> (#[trigger] self@[j]).status == (if before[j].status is Ready {
                        Status::Running
                    } else {
                        before[j].status
                    }),
                forall|j: int| i <= j < n ==> (#[trigger] self@[j]).status == before[j].status,
                forall|k: int|
                    0 <= k < started@.len() ==> (#[trigger] started@[k] as int) < before.len()
                        && before[started@[k] as int].status is Ready,
                forall|j: int|
                    0 <= j < i && (#[trigger] before[j]).status is Ready ==> started@.contains(
                        j as usize,
                    ),
                forall|k: int| 0 <= k < started@.len() ==> (#[trigger] started@[k]) < i,
                started@.no_duplicates(),
            decreases n - i,
        {
            let st = self.nodes[i].status;
            proof {
                assert(self@[i as int] == self.nodes@[i as int]@);
                assert(st == self@[i as int].status);
            }
            let is_ready = match st {
                Status::Ready => true,
                _ => false,
            };
            if is_ready {
                let ghost mid = self@;
                let ghost st_before = started@;
                self.nodes[i].status = Status::Running;
                started.push(i);
                proof {
                    assert(self@ =~= mid.update(i as int, self@[i as int]));
                    assert(started@.last() == i as usize);
                    assert forall|k1: int, k2: int|
                        0 <= k1 < k2 < started@.len() implies started@[k1] != started@[k2] by {
                        if k2 == started@.len() - 1 {
                            assert(started@[k1] == st_before[k1]);
                            assert(st_before[k1] < i);
                        } else {
                            assert(started@[k1] == st_before[k1]);
                            assert(started@[k2] == st_before[k2]);
                        }
                    }
                    assert forall|j: int|
                        0 <= j < i + 1 && (#[trigger] before[j]).status is Ready implies
                        started@.contains(j as usize) by {
                        if j < i {
                            let k = choose|k: int|
                                0 <= k < st_before.len() && st_before[k] == j as usize;
                            assert(started@[k] == j as usize);
                        } else {
                            assert(started@[started@.len() - 1] == i as usize);
                        }
                    }
                }
            } else {
                proof {
                    assert(!(before[i as int].status is Ready));
                }
            }
            i += 1;
        }
        proof {
            let after = self@;
            assert forall|j: int|
                0 <= j < after.len() && !((#[trigger] after[j]).status is Pending) implies
                spec_deps_done(after, j) by {
                assert(spec_deps_done(before, j));
                assert(after[j].deps == before[j].deps);
                assert forall|d: int|
                    0 <= d < after[j].deps.len() implies after[
                #[trigger] after[j].deps[d] as int].status is Done by {
                    assert(before[after[j].deps[d] as int].status is Done);
                }
            }
            lemma_measure_le(before, after);
            if exists|w: int| 0 <= w < before.len() && (#[trigger] before[w]).status is Ready {
                let w = choose|w: int|
                    0 <= w < before.len() && (#[trigger] before[w]).status is Ready;
                lemma_measure_decreases(before, after, w);
            }
        }
        started
    }

    /// Records that a dispatched task has finished: Running becomes Done.
    /// The measure strictly falls.
    pub fn mark_done(&mut self, i: usize)
        requires
            spec_sched_inv(old(self)@),
            i < old(self)@.len(),
            old(self)@[i as int].status is Running,
        ensures
            spec_sched_inv(final(self)@),
            spec_same_shape(old(self)@, final(self)@),
            forall|j: int|
                0 <= j < old(self)@.len() ==> (#[trigger] final(self)@[j]).status == (if j
                    == i as int {
                    Status::Done
                } else {
                    old(self)@[j].status
                }),
            spec_measure(final(self)@) < spec_measure(old(self)@),
    {
        let ghost before = self@;
        self.nodes[i].status = Status::Done;
        proof {
            let after = self@;
            assert(after =~= before.update(i as int, after[i as int]));
            assert forall|j: int|
                0 <= j < after.len() && !((#[trigger] after[j]).status is Pending) implies
                spec_deps_done(after, j) by {
                assert(spec_deps_done(before, j));
                assert(after[j].deps == before[j].deps);
                assert forall|d: int|
                    0 <= d < after[j].deps.len() implies after[
                #[trigger] after[j].deps[d] as int].status is Done by {
                    assert(before[after[j].deps[d] as int].status is Done);
                }
            }
            lemma_measure_decreases(before, after, i as int);
        }
    }

    /// Whether every task is Done: the scheduler's exit condition.
    pub fn all_done(&self) -> (r: bool)
        ensures
            r == spec_all_done(self@),
    {
        let mut i: usize = 0;
        let n = self.nodes.len();
        while i < n
            invariant
                n == self@.len(),
                i <= n,
                forall|j: int| 0 <= j < i ==> (#[trigger] self@[j]).status is Done,
            decreases n - i,
        {
            match self.nodes[i].status {
                Status::Done => {},
                _ => {
                    proof {
                        assert(!(self@[i as int].status is Done));
                    }
                    return false;
                },
            }
            i += 1;
        }
        true
    }
}

/// Resolves the forest for the requested roots and hands it to a scheduler:
/// the one entry point a run needs.  The scheduler starts with every task
/// Pending and its invariant established.
pub fn resolve_scheduler(roots: &Vec<String>, configs: &Vec<ConfigFile>) -> (r: Result<
    Scheduler,
    Error,
>)
    requires
        spec_config_ids_distinct(configs.deep_view()),
    ensures
        r matches Ok(s) ==> spec_sched_inv(s@) && spec_all_pending(s@) && spec_forest_wf(
            configs.deep_view(),
            s@,
        ) && forall|k: int|
            0 <= k < roots.len() ==> spec_has_id(s@, #[trigger] roots.deep_view()[k]),
        r matches Ok(s) ==> forall|i: int|
            0 <= i < s@.len() ==> spec_reachable_idx(
                configs.deep_view(),
                roots.deep_view(),
                (#[trigger] s@[i]).config,
            ),
        r matches Ok(s) ==> forall|i: int|
            0 <= i < s@.len() ==> ((#[trigger] s@[i]).parent is None ==> roots.deep_view().contains(
                s@[i].id,
            )),
        r matches Ok(s) ==> forall|i: int|
            0 <= i < s@.len() ==> ((#[trigger] s@[i]).parent matches Some(p) ==> spec_has_id(
                s@,
                p,
            ) && exists|a: usize|
                (a as int) < configs.deep_view().len() && (
                #[trigger] configs.deep_view()[a as int]).id == p && spec_names_dep(
                    configs.deep_view(),
                    a,
                    s@[i].id,
                )),
        r matches Err(e) ==> (e matches Error::ConfigNotFound(_) || e matches Error::CycleDetected(
            _,
        )),
        r matches Err(e) ==> (e matches Error::ConfigNotFound(n) ==> !spec_config_has_id(
            configs.deep_view(),
            n@,
        ) && spec_reachable_name(configs.deep_view(), roots.deep_view(), n@)),
        r matches Err(e) ==> (e matches Error::CycleDetected(_) ==> exists|chain: Seq<usize>|
            spec_is_dep_cycle(configs.deep_view(), chain) && spec_reachable_idx(
                configs.deep_view(),
                roots.deep_view(),
                chain[0],
            )),
{
    match build_tree(roots, configs) {
        Ok(nodes) => {
            proof {
                lemma_forest_wf_topo(configs.deep_view(), nodes.deep_view());
            }
            Ok(Scheduler::new(nodes))
        },
        Err(e) => Err(e),
    }
}


} // verus!
