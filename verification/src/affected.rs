//! The affected-set engine: a breadth-first exploration of the import graph
//! from the test roots. Files are interned into a table of absolute paths;
//! `affected` marks the paths known to reach a changed file, `dependents`
//! records, for each discovered importee, the importers waiting on it, and
//! the queue holds the files still to be read.
//!
//! The engine itself never touches the filesystem: a driver dequeues one
//! file at a time with [`Engine::next_file`], reads and parses it, and hands
//! the outcome back through the `record` methods.

use vstd::prelude::*;

use crate::graph::count_false;
use crate::graph::dep_reaches_avoiding;
use crate::graph::edges_wf;
use crate::graph::lemma_count_false_update;
use crate::graph::lemma_dep_reaches_extend;
use crate::graph::lemma_dep_reaches_trivial;
use crate::graph::lemma_reaches_monotone;
use crate::graph::lemma_reaches_trivial;
use crate::graph::reaches_changed;
use crate::paths::has_component_spec;
use crate::paths::join_path;
use crate::paths::join_spec;
use crate::paths::rel_label_spec;
use crate::extract::diag_of_node;
use crate::extract::render_spec;
use crate::extract::specifier_set;
use crate::resolver::source_kind_spec;

verus! {

/// Some entry of `files` joins, against `cwd`, to exactly the path `p`.
pub open spec fn is_joined_of(files: Seq<String>, cwd: Seq<char>, p: Seq<char>) -> bool {
    exists|j: int| 0 <= j < files.len() && p == join_spec(cwd, (#[trigger] files[j])@)
}

/// Some entry of `ss` reads `v`.
pub open spec fn seq_has_view(ss: Seq<String>, v: Seq<char>) -> bool {
    exists|j: int| 0 <= j < ss.len() && (#[trigger] ss[j])@ == v
}

/// What the resolver said about one specifier: the absolute path of the
/// module it denotes, a runtime-provided builtin module, or a failure
/// message.
pub enum ResolveOutcome {
    Resolved(String),
    BuiltinModule,
    Failed(String),
}

/// The state of one affected-set run.
///
/// `paths` interns every absolute path the run has met; all other tables are
/// indexed by position in it. `edges` is the ghost record of every import
/// edge the run has discovered, the graph that the reported set is proved to
/// be the reachability closure of.
pub struct Engine {
    pub cwd: String,
    pub module_paths: Vec<String>,
    pub labels: Vec<String>,
    pub label_ids: Vec<usize>,
    pub paths: Vec<String>,
    pub changed: Vec<bool>,
    pub affected: Vec<bool>,
    pub dependents: Vec<Vec<usize>>,
    pub queue: Vec<usize>,
    pub head: usize,
    pub current: Option<usize>,
    pub errors: Vec<String>,
    pub edges: Ghost<Seq<(usize, usize)>>,
}

impl Engine {
    /// How many paths have been interned.
    pub open spec fn n(self) -> int {
        self.paths@.len() as int
    }

    /// The dependents rows as plain sequences.
    pub open spec fn deps_view(self) -> Seq<Seq<usize>> {
        deps_of(&self.dependents)
    }

    /// Well-formedness: the tables run in step, all indices are in range,
    /// interned paths are pairwise distinct, and changed paths are affected.
    pub open spec fn wf(self) -> bool {
        &&& self.affected@.len() == self.paths@.len()
        &&& self.changed@.len() == self.paths@.len()
        &&& self.dependents@.len() == self.paths@.len()
        &&& self.labels@.len() == self.label_ids@.len()
        &&& forall|i: int|
            0 <= i < self.label_ids@.len() ==> (#[trigger] self.label_ids@[i]) < self.paths@.len()
        &&& self.head <= self.queue@.len()
        &&& forall|i: int|
            0 <= i < self.queue@.len() ==> (#[trigger] self.queue@[i]) < self.paths@.len()
        &&& forall|b: int, j: int|
            #![trigger self.deps_view()[b][j]]
            0 <= b < self.n() && 0 <= j < self.deps_view()[b].len() ==> self.deps_view()[b][j]
                < self.paths@.len()
        &&& forall|i: int, j: int|
            #![trigger self.paths@[i], self.paths@[j]]
            0 <= i < j < self.paths@.len() ==> self.paths@[i]@ != self.paths@[j]@
        &&& match self.current {
            Some(c) => (c as int) < self.n(),
            None => true,
        }
        &&& edges_wf(self.edges@, self.n())
        &&& forall|i: int|
            0 <= i < self.changed@.len() ==> ((#[trigger] self.changed@[i]) ==> self.affected@[i])
    }

    /// Every dependents entry records a discovered edge.
    pub open spec fn inv_deps_edges(self) -> bool {
        forall|b: int, j: int|
            #![trigger self.deps_view()[b][j]]
            0 <= b < self.n() && 0 <= j < self.deps_view()[b].len() ==> self.edges@.contains(
                (self.deps_view()[b][j], b as usize),
            )
    }

    /// Every discovered edge has either marked its importer affected or
    /// filed it in the dependents row of its importee.
    pub open spec fn inv_edges_covered(self) -> bool {
        forall|e: (usize, usize)|
            #[trigger] self.edges@.contains(e) ==> (self.affected@[e.0 as int] || self.deps_view()[e.1 as int].contains(e.0))
    }

    /// The dependents rows of affected nodes have been propagated.
    pub open spec fn inv_affected_closed(self) -> bool {
        forall|b: int, j: int|
            #![trigger self.deps_view()[b][j]]
            0 <= b < self.n() && self.affected@[b] && 0 <= j < self.deps_view()[b].len()
                ==> self.affected@[self.deps_view()[b][j] as int]
    }

    /// Every affected node reaches the changed set along discovered edges.
    pub open spec fn inv_affected_reaches(self) -> bool {
        forall|k: usize|
            (k as int) < self.n() && (#[trigger] self.affected@[k as int]) ==> reaches_changed(
                self.edges@,
                self.changed@,
                k,
            )
    }

    /// The running laws of the traversal; [`lemma_affected_iff_reaches`]
    /// draws the reachability theorem from them.
    pub open spec fn inv(self) -> bool {
        &&& self.inv_deps_edges()
        &&& self.inv_edges_covered()
        &&& self.inv_affected_closed()
        &&& self.inv_affected_reaches()
    }

    /// Intern `p`: the index of the entry that reads `p`, added fresh (not
    /// affected, not changed, no dependents) when none did.
    #[verifier::loop_isolation(false)]
    #[verifier::rlimit(60)]
    fn intern(&mut self, p: String) -> (id: usize)
        requires
            old(self).wf(),
            old(self).inv(),
        ensures
            final (self).wf(),
            final (self).inv(),
            id < final (self).paths@.len(),
            final (self).paths@[id as int]@ == p@,
            old(self).n() <= final (self).n() <= old(self).n() + 1,
            final (self).n() == old(self).n() + 1 ==> id as int == old(self).n() && !final (self).affected@[id as int] && !final (self).changed@[id as int] && final (self).deps_view()[id as int].len() == 0,
            final (self).n() == old(self).n() ==> final (self).paths@ == old(self).paths@ && final (self).affected@ == old(self).affected@ && final (self).changed@ == old(self).changed@ && final (self).dependents@ == old(self).dependents@,
            forall|i: int| 0 <= i < old(self).n() ==> #[trigger] final (self).paths@[i] == old(self).paths@[i],
            forall|i: int| 0 <= i < old(self).n() ==> #[trigger] final (self).affected@[i] == old(self).affected@[i],
            forall|i: int| 0 <= i < old(self).n() ==> #[trigger] final (self).changed@[i] == old(self).changed@[i],
            forall|i: int| 0 <= i < old(self).n() ==> #[trigger] final (self).dependents@[i] == old(self).dependents@[i],
            final (self).cwd == old(self).cwd,
            final (self).module_paths == old(self).module_paths,
            final (self).labels == old(self).labels,
            final (self).label_ids == old(self).label_ids,
            final (self).queue == old(self).queue,
            final (self).head == old(self).head,
            final (self).current == old(self).current,
            final (self).errors == old(self).errors,
            final (self).edges == old(self).edges,
    {
        let mut i: usize = 0;
        let len = self.paths.len();
        while i < len
            invariant
                i <= len,
                len == self.paths@.len(),
                forall|k: int| 0 <= k < i ==> (#[trigger] self.paths@[k])@ != p@,
            decreases len - i,
        {
            if self.paths[i] == p {
                return i;
            }
            i = i + 1;
        }
        let id = self.paths.len();
        let ghost pre = *self;
        self.paths.push(p);
        self.affected.push(false);
        self.changed.push(false);
        self.dependents.push(Vec::new());
        proof {
            assert(self.deps_view() =~= pre.deps_view().push(Seq::<usize>::empty()));
            assert forall|i: int, j: int|
                #![trigger self.paths@[i], self.paths@[j]]
                0 <= i < j < self.paths@.len() implies self.paths@[i]@ != self.paths@[j]@ by {
                if j == pre.n() {
                    assert(self.paths@[i] == pre.paths@[i]);
                    assert(pre.paths@[i]@ != p@);
                }
            }
            assert forall|b: int, j: int|
                #![trigger self.deps_view()[b][j]]
                0 <= b < self.n() && 0 <= j < self.deps_view()[b].len() implies self.edges@
                .contains((self.deps_view()[b][j], b as usize)) by {
                assert(b < pre.n());
                assert(self.deps_view()[b] == pre.deps_view()[b]);
            }
            assert forall|b: int, j: int|
                #![trigger self.deps_view()[b][j]]
                0 <= b < self.n() && self.affected@[b] && 0 <= j
                    < self.deps_view()[b].len() implies self.affected@[self.deps_view()[b][j] as int] by {
                assert(b < pre.n());
                assert(self.deps_view()[b] == pre.deps_view()[b]);
                assert(pre.affected@[b]);
            }
            assert forall|k: usize|
                (k as int) < self.n() && (#[trigger] self.affected@[k as int]) implies reaches_changed(
                self.edges@,
                self.changed@,
                k,
            ) by {
                assert(pre.affected@[k as int]);
                lemma_reaches_monotone(pre.edges@, pre.changed@, self.edges@, self.changed@, k);
            }
            assert forall|e: (usize, usize)| #[trigger]
                self.edges@.contains(e) implies (self.affected@[e.0 as int] || self.deps_view()[e.1 as int].contains(e.0)) by {
                assert(pre.edges@.contains(e));
                if !pre.affected@[e.0 as int] {
                    assert(pre.deps_view()[e.1 as int].contains(e.0));
                    assert(self.deps_view()[e.1 as int] == pre.deps_view()[e.1 as int]);
                }
            }
        }
        id
    }

    /// Bind one test-file string to its absolute path: intern the joined
    /// path, append the label, and queue the root unless it is already
    /// affected.
    #[verifier::loop_isolation(false)]
    #[verifier::rlimit(100)]
    fn add_root(&mut self, label: &String)
        requires
            old(self).wf(),
            old(self).inv(),
        ensures
            final (self).wf(),
            final (self).inv(),
            final (self).labels@ == old(self).labels@.push(*label),
            final (self).label_ids@.len() == old(self).label_ids@.len() + 1,
            forall|i: int|
                0 <= i < old(self).label_ids@.len() ==> #[trigger] final (self).label_ids@[i]
                    == old(self).label_ids@[i],
            final (self).paths@[final (self).label_ids@.last() as int]@ == join_spec(
                old(self).cwd@,
                label@,
            ),
            forall|w: int|
                0 <= w < old(self).queue@.len() ==> #[trigger] final (self).queue@[w] == old(
                self).queue@[w],
            old(self).queue@.len() <= final (self).queue@.len(),
            !final (self).affected@[final (self).label_ids@.last() as int] ==> final (self).queue@
                .contains(final (self).label_ids@.last()),
            old(self).n() <= final (self).n(),
            forall|k: int|
                0 <= k < old(self).n() ==> #[trigger] final (self).paths@[k] == old(
                self).paths@[k],
            forall|k: int|
                0 <= k < old(self).n() ==> #[trigger] final (self).affected@[k] == old(
                self).affected@[k],
            forall|k: int|
                0 <= k < old(self).n() ==> #[trigger] final (self).changed@[k] == old(
                self).changed@[k],
            forall|k: int|
                old(self).n() <= k < final (self).n() ==> !(#[trigger] final (self).affected@[k])
                    && !final (self).changed@[k],
            final (self).cwd == old(self).cwd,
            final (self).module_paths == old(self).module_paths,
            final (self).head == old(self).head,
            final (self).current == old(self).current,
            final (self).errors == old(self).errors,
            final (self).edges == old(self).edges,
            (forall|b: int| 0 <= b < old(self).n() ==> (#[trigger] old(self).deps_view()[b]).len()
                == 0) ==> (forall|b: int|
                0 <= b < final (self).n() ==> (#[trigger] final (self).deps_view()[b]).len() == 0),
            forall|w: int|
                old(self).queue@.len() <= w < final (self).queue@.len() ==> #[trigger] final (
                self).queue@[w] == final (self).label_ids@.last(),
    {
        let ab = join_path(self.cwd.as_str(), label.as_str());
        let ghost pre = *self;
        let id = self.intern(ab);
        let ghost mid = *self;
        self.labels.push(label.clone());
        self.label_ids.push(id);
        let on_queue = self.affected[id];
        if !on_queue {
            self.queue.push(id);
        }
        proof {
            assert(self.dependents == mid.dependents && self.affected == mid.affected
                && self.changed == mid.changed && self.edges == mid.edges && self.paths
                == mid.paths);
            assert(self.deps_view() == mid.deps_view());
            assert(self.affected@ == mid.affected@ && self.changed@ == mid.changed@ && self.paths@
                == mid.paths@ && self.edges@ == mid.edges@);
            assert(self.inv());
            assert(self.label_ids@.last() == id);
            assert forall|i2: int|
                0 <= i2 < self.label_ids@.len() implies (#[trigger] self.label_ids@[i2])
                    < self.paths@.len() by {
                if i2 < pre.label_ids@.len() {
                    assert(self.label_ids@[i2] == pre.label_ids@[i2]);
                    assert(pre.label_ids@[i2] < pre.paths@.len());
                } else {
                    assert(self.label_ids@[i2] == id);
                }
            }
            assert forall|i2: int|
                0 <= i2 < self.queue@.len() implies (#[trigger] self.queue@[i2])
                    < self.paths@.len() by {
                if i2 < pre.queue@.len() {
                    assert(self.queue@[i2] == pre.queue@[i2]);
                    assert(pre.queue@[i2] < pre.paths@.len());
                } else {
                    assert(self.queue@[i2] == id);
                }
            }
            if !self.affected@[id as int] {
                assert(self.queue@[self.queue@.len() - 1] == id);
            }
            assert(self.labels@ =~= pre.labels@.push(*label));
            if forall|b: int| 0 <= b < pre.n() ==> (#[trigger] pre.deps_view()[b]).len() == 0 {
                assert forall|b: int| 0 <= b < self.n() implies (
                #[trigger] self.deps_view()[b]).len() == 0 by {
                    assert(self.deps_view()[b] == mid.deps_view()[b]);
                    if b < pre.n() {
                        assert(mid.dependents@[b] == pre.dependents@[b]);
                        assert(mid.deps_view()[b] == pre.deps_view()[b]);
                    }
                }
            }
        }
    }

    /// Seed a fresh engine: intern each changed file joined against the
    /// working directory, marked changed and affected.
    #[verifier::loop_isolation(false)]
    #[verifier::rlimit(100)]
    fn seed_changed(&mut self, changed_files: &Vec<String>)
        requires
            old(self).wf(),
            old(self).n() == 0,
            old(self).labels@.len() == 0,
            old(self).label_ids@.len() == 0,
            old(self).queue@.len() == 0,
            old(self).head == 0,
            old(self).current is None,
            old(self).errors@.len() == 0,
            old(self).edges@.len() == 0,
        ensures
            final (self).wf(),
            final (self).inv(),
            final (self).cwd == old(self).cwd,
            final (self).module_paths == old(self).module_paths,
            final (self).labels@.len() == 0,
            final (self).label_ids@.len() == 0,
            final (self).queue@.len() == 0,
            final (self).head == 0,
            final (self).current is None,
            final (self).errors@.len() == 0,
            final (self).edges@.len() == 0,
            forall|b: int|
                0 <= b < final (self).n() ==> (#[trigger] final (self).deps_view()[b]).len() == 0,
            forall|k: int|
                0 <= k < final (self).n() ==> ((#[trigger] final (self).changed@[k]) == final (
                self).affected@[k]),
            forall|k: int|
                0 <= k < final (self).n() ==> ((#[trigger] final (self).changed@[k])
                    <==> is_joined_of(changed_files@, old(self).cwd@, final (self).paths@[k]@)),
            forall|j: int|
                0 <= j < changed_files@.len() ==> seq_has_view(
                    final (self).paths@,
                    join_spec(old(self).cwd@, (#[trigger] changed_files@[j])@),
                ),
    {
        let ghost cwd = old(self).cwd@;
        let mut i: usize = 0;
        while i < changed_files.len()
            invariant
                i <= changed_files@.len(),
                self.wf(),
                self.cwd == old(self).cwd,
                self.module_paths == old(self).module_paths,
                self.labels@.len() == 0,
                self.label_ids@.len() == 0,
                self.queue@.len() == 0,
                self.head == 0,
                self.current is None,
                self.errors@.len() == 0,
                self.edges@.len() == 0,
                forall|b: int| 0 <= b < self.n() ==> (#[trigger] self.deps_view()[b]).len() == 0,
                forall|k: int|
                    0 <= k < self.n() ==> ((#[trigger] self.changed@[k]) == self.affected@[k]),
                forall|k: int|
                    0 <= k < self.n() ==> ((#[trigger] self.changed@[k]) <==> is_joined_of(
                        changed_files@.take(i as int),
                        cwd,
                        self.paths@[k]@,
                    )),
                forall|j: int|
                    0 <= j < i ==> seq_has_view(
                        self.paths@,
                        join_spec(cwd, (#[trigger] changed_files@[j])@),
                    ),
            decreases changed_files@.len() - i,
        {
            let ab = join_path(self.cwd.as_str(), changed_files[i].as_str());
            proof {
                assert forall|k: usize|
                    (k as int) < self.n() && (#[trigger] self.affected@[k as int]) implies reaches_changed(
                    self.edges@,
                    self.changed@,
                    k,
                ) by {
                    assert(self.changed@[k as int]);
                    lemma_reaches_trivial(self.edges@, self.changed@, k);
                }
                assert(self.inv());
            }
            let ghost pre = *self;
            let id = self.intern(ab);
            let ghost mid = *self;
            self.affected.set(id, true);
            self.changed.set(id, true);
            proof {
                assert(self.deps_view() =~= mid.deps_view());
                assert forall|b: int| 0 <= b < self.n() implies (#[trigger] self.deps_view()[b]).len()
                    == 0 by {
                    if b < pre.n() {
                        assert(self.dependents@[b] == pre.dependents@[b]);
                        assert(pre.deps_view()[b].len() == 0);
                    }
                }
                assert forall|k: int| 0 <= k < self.n() implies ((#[trigger] self.changed@[k])
                    <==> is_joined_of(
                    changed_files@.take(i as int + 1),
                    cwd,
                    self.paths@[k]@,
                )) by {
                    assert(changed_files@.take(i as int + 1)[i as int] == changed_files@[i as int]);
                    if k == id {
                        assert(self.paths@[k]@ == join_spec(cwd, changed_files@[i as int]@));
                    } else {
                        if k < mid.n() {
                            assert(self.changed@[k] == mid.changed@[k]);
                        }
                        if self.changed@[k] {
                            assert(mid.changed@[k]);
                            if k < pre.n() {
                                assert(pre.changed@[k]);
                            }
                        }
                        if is_joined_of(changed_files@.take(i as int + 1), cwd, self.paths@[k]@) {
                            let j = choose|j: int|
                                0 <= j < i + 1 && self.paths@[k]@ == join_spec(
                                    cwd,
                                    (#[trigger] changed_files@.take(i as int + 1)[j])@,
                                );
                            if j == i {
                                // two table entries reading the same path collapse
                                assert(self.paths@[k]@ == self.paths@[id as int]@);
                                assert(false);
                            } else {
                                assert(changed_files@.take(i as int)[j] == changed_files@[j]);
                                assert(is_joined_of(
                                    changed_files@.take(i as int),
                                    cwd,
                                    self.paths@[k]@,
                                ));
                            }
                        }
                    }
                }
                assert forall|j: int| 0 <= j < i + 1 implies seq_has_view(
                    self.paths@,
                    join_spec(cwd, (#[trigger] changed_files@[j])@),
                ) by {
                    if j < i {
                        let w = choose|w: int|
                            0 <= w < pre.paths@.len() && (#[trigger] pre.paths@[w])@ == join_spec(
                                cwd,
                                changed_files@[j]@,
                            );
                        assert(self.paths@[w] == pre.paths@[w]);
                    } else {
                        assert(self.paths@[id as int]@ == join_spec(cwd, changed_files@[j]@));
                    }
                }
            }
            i = i + 1;
        }
        proof {
            assert(changed_files@.take(changed_files@.len() as int) =~= changed_files@);
            assert forall|k: usize|
                (k as int) < self.n() && (#[trigger] self.affected@[k as int]) implies reaches_changed(
                self.edges@,
                self.changed@,
                k,
            ) by {
                assert(self.changed@[k as int]);
                lemma_reaches_trivial(self.edges@, self.changed@, k);
            }
            assert(self.inv());
        }
    }

    /// Start a run: seed the affected set with the changed files joined
    /// against the working directory, bind every distinct test-file string
    /// to its absolute path, and queue the test roots that are not already
    /// affected.
    #[verifier::loop_isolation(false)]
    #[verifier::rlimit(100)]
    pub fn new(
        cwd: String,
        module_paths: Vec<String>,
        test_files: Vec<String>,
        changed_files: Vec<String>,
    ) -> (e: Engine)
        ensures
            e.wf(),
            e.inv(),
            e.cwd == cwd,
            e.module_paths == module_paths,
            e.errors@.len() == 0,
            e.current is None,
            e.head == 0,
            e.edges@.len() == 0,
            forall|b: int| 0 <= b < e.n() ==> (#[trigger] e.deps_view()[b]).len() == 0,
            forall|i: int| 0 <= i < e.n() ==> ((#[trigger] e.changed@[i]) == e.affected@[i]),
            forall|i: int|
                0 <= i < e.n() ==> ((#[trigger] e.changed@[i]) <==> is_joined_of(
                    changed_files@,
                    cwd@,
                    e.paths@[i]@,
                )),
            forall|i: int, j: int|
                #![trigger e.labels@[i], e.labels@[j]]
                0 <= i < j < e.labels@.len() ==> e.labels@[i]@ != e.labels@[j]@,
            forall|i: int|
                0 <= i < e.labels@.len() ==> seq_has_view(test_files@, (#[trigger] e.labels@[i])@),
            forall|j: int|
                0 <= j < test_files@.len() ==> seq_has_view(
                    e.labels@,
                    (#[trigger] test_files@[j])@,
                ),
            forall|i: int|
                0 <= i < e.labels@.len() ==> e.paths@[(#[trigger] e.label_ids@[i]) as int]@
                    == join_spec(cwd@, e.labels@[i]@),
            forall|i: int|
                0 <= i < e.labels@.len() && !e.affected@[(#[trigger] e.label_ids@[i]) as int]
                    ==> e.queue@.contains(e.label_ids@[i]),
            forall|w: int| 0 <= w < e.queue@.len() ==> #[trigger] from_roots(e, w),
            forall|j: int|
                0 <= j < changed_files@.len() ==> seq_has_view(
                    e.paths@,
                    join_spec(cwd@, (#[trigger] changed_files@[j])@),
                ),
    {
        let mut e = Engine {
            cwd,
            module_paths,
            labels: Vec::new(),
            label_ids: Vec::new(),
            paths: Vec::new(),
            changed: Vec::new(),
            affected: Vec::new(),
            dependents: Vec::new(),
            queue: Vec::new(),
            head: 0,
            current: None,
            errors: Vec::new(),
            edges: Ghost(Seq::empty()),
        };
        e.seed_changed(&changed_files);
        let ghost s0 = e;
        let mut t: usize = 0;
        while t < test_files.len()
            invariant
                t <= test_files@.len(),
                e.wf(),
                e.inv(),
                e.cwd == cwd,
                e.module_paths == module_paths,
                e.head == 0,
                e.current is None,
                e.errors@.len() == 0,
                e.edges@.len() == 0,
                forall|b: int| 0 <= b < e.n() ==> (#[trigger] e.deps_view()[b]).len() == 0,
                s0.n() <= e.n(),
                forall|k: int| 0 <= k < s0.n() ==> #[trigger] e.paths@[k] == s0.paths@[k],
                forall|k: int| 0 <= k < s0.n() ==> #[trigger] e.changed@[k] == s0.changed@[k],
                forall|k: int| 0 <= k < s0.n() ==> #[trigger] e.affected@[k] == s0.affected@[k],
                forall|k: int|
                    s0.n() <= k < e.n() ==> !(#[trigger] e.changed@[k]) && !e.affected@[k],
                forall|j2: int|
                    0 <= j2 < changed_files@.len() ==> seq_has_view(
                        e.paths@,
                        join_spec(cwd@, (#[trigger] changed_files@[j2])@),
                    ),
                forall|i2: int, j2: int|
                    #![trigger e.labels@[i2], e.labels@[j2]]
                    0 <= i2 < j2 < e.labels@.len() ==> e.labels@[i2]@ != e.labels@[j2]@,
                forall|i2: int|
                    0 <= i2 < e.labels@.len() ==> seq_has_view(
                        test_files@,
                        (#[trigger] e.labels@[i2])@,
                    ),
                forall|j2: int|
                    0 <= j2 < t ==> seq_has_view(e.labels@, (#[trigger] test_files@[j2])@),
                forall|i2: int|
                    0 <= i2 < e.labels@.len() ==> e.paths@[(#[trigger] e.label_ids@[i2]) as int]@
                        == join_spec(cwd@, e.labels@[i2]@),
                forall|i2: int|
                    0 <= i2 < e.labels@.len() && !e.affected@[(#[trigger] e.label_ids@[i2]) as int]
                        ==> e.queue@.contains(e.label_ids@[i2]),
                forall|w: int| 0 <= w < e.queue@.len() ==> #[trigger] from_roots(e, w),
            decreases test_files@.len() - t,
        {
            let ghost head_e = e;
            let mut dup = false;
            let mut m: usize = 0;
            while m < e.labels.len()
                invariant
                    m <= e.labels@.len(),
                    dup == (exists|y: int|
                        0 <= y < m && (#[trigger] e.labels@[y])@ == test_files@[t as int]@),
                decreases e.labels@.len() - m,
            {
                if e.labels[m] == test_files[t] {
                    proof {
                        assert(e.labels@[m as int]@ == test_files@[t as int]@);
                    }
                    dup = true;
                }
                m = m + 1;
            }
            if !dup {
                let ghost before = e;
                e.add_root(&test_files[t]);
                proof {
                    assert forall|j2: int| 0 <= j2 < changed_files@.len() implies seq_has_view(
                        e.paths@,
                        join_spec(cwd@, (#[trigger] changed_files@[j2])@),
                    ) by {
                        let w = choose|w: int|
                            0 <= w < before.paths@.len() && (#[trigger] before.paths@[w])@
                                == join_spec(cwd@, changed_files@[j2]@);
                        assert(e.paths@[w] == before.paths@[w]);
                    }
                    assert forall|i2: int|
                        0 <= i2 < e.labels@.len() && !e.affected@[(
                        #[trigger] e.label_ids@[i2]) as int] implies e.queue@.contains(
                        e.label_ids@[i2],
                    ) by {
                        if i2 < before.labels@.len() {
                            assert(e.label_ids@[i2] == before.label_ids@[i2]);
                            assert(e.affected@[before.label_ids@[i2] as int]
                                == before.affected@[before.label_ids@[i2] as int]);
                            let w = choose|w: int|
                                0 <= w < before.queue@.len() && before.queue@[w]
                                    == before.label_ids@[i2];
                            assert(e.queue@[w] == before.queue@[w]);
                        } else {
                            assert(e.label_ids@[i2] == e.label_ids@.last());
                        }
                    }
                }
            }
            proof {
                assert forall|w: int| 0 <= w < e.queue@.len() implies #[trigger] from_roots(
                    e,
                    w,
                ) by {
                    if w < head_e.queue@.len() {
                        assert(from_roots(head_e, w));
                        assert(e.queue@[w] == head_e.queue@[w]);
                        let i2 = choose|i2: int|
                            0 <= i2 < head_e.label_ids@.len() && head_e.queue@[w] == (
                            #[trigger] head_e.label_ids@[i2]);
                        assert(e.label_ids@[i2] == head_e.label_ids@[i2]);
                        assert(e.queue@[w] == e.label_ids@[i2]);
                    } else {
                        assert(e.queue@[w] == e.label_ids@.last());
                        assert(e.queue@[w] == e.label_ids@[e.label_ids@.len() - 1]);
                    }
                }
                assert forall|j2: int| 0 <= j2 < t + 1 implies seq_has_view(
                    e.labels@,
                    (#[trigger] test_files@[j2])@,
                ) by {
                    if j2 == t {
                        if dup {
                            let y = choose|y: int|
                                0 <= y < head_e.labels@.len() && (#[trigger] head_e.labels@[y])@
                                    == test_files@[t as int]@;
                            assert(e.labels@[y] == head_e.labels@[y]);
                        } else {
                            assert(e.labels@[e.labels@.len() - 1]@ == test_files@[t as int]@);
                        }
                    } else {
                        let y = choose|y: int|
                            0 <= y < head_e.labels@.len() && (#[trigger] head_e.labels@[y])@
                                == test_files@[j2]@;
                        assert(e.labels@[y] == head_e.labels@[y]);
                    }
                }
            }
            t = t + 1;
        }
        proof {
            assert forall|k: int| 0 <= k < e.n() implies ((#[trigger] e.changed@[k])
                <==> is_joined_of(changed_files@, cwd@, e.paths@[k]@)) by {
                if k < s0.n() {
                    assert(e.changed@[k] == s0.changed@[k]);
                    assert(e.paths@[k] == s0.paths@[k]);
                } else {
                    assert(!e.changed@[k]);
                    if is_joined_of(changed_files@, cwd@, e.paths@[k]@) {
                        let j = choose|j: int|
                            0 <= j < changed_files@.len() && e.paths@[k]@ == join_spec(
                                cwd@,
                                (#[trigger] changed_files@[j])@,
                            );
                        let w = choose|w: int|
                            0 <= w < s0.paths@.len() && (#[trigger] s0.paths@[w])@ == join_spec(
                                cwd@,
                                changed_files@[j]@,
                            );
                        assert(e.paths@[w] == s0.paths@[w]);
                        assert(e.paths@[w]@ == e.paths@[k]@);
                        assert(false);
                    }
                }
            }
            assert forall|k: int| 0 <= k < e.n() implies ((#[trigger] e.changed@[k])
                == e.affected@[k]) by {
                if k < s0.n() {
                    assert(e.changed@[k] == s0.changed@[k]);
                    assert(e.affected@[k] == s0.affected@[k]);
                }
            }
        }
        e
    }

    /// The index of the file being processed, and `-1` while none is.
    pub open spec fn cur(self) -> int {
        match self.current {
            Some(c) => c as int,
            None => -1,
        }
    }

    /// Hand out the next file to read: skip queued files that have become
    /// affected (propagating from them instead) and files whose path is not
    /// a recognized source kind. The returned path becomes the current file.
    #[verifier::loop_isolation(false)]
    #[verifier::rlimit(100)]
    pub fn next_file(&mut self) -> (r: Option<String>)
        requires
            old(self).wf(),
            old(self).inv(),
            old(self).current is None,
        ensures
            final (self).wf(),
            final (self).inv(),
            final (self).cwd == old(self).cwd,
            final (self).module_paths == old(self).module_paths,
            final (self).labels == old(self).labels,
            final (self).label_ids == old(self).label_ids,
            final (self).paths == old(self).paths,
            final (self).changed == old(self).changed,
            final (self).dependents == old(self).dependents,
            final (self).queue == old(self).queue,
            final (self).errors == old(self).errors,
            final (self).edges == old(self).edges,
            forall|k: int|
                0 <= k < final (self).n() ==> (old(self).affected@[k] ==> #[trigger] final (
                self).affected@[k]),
            old(self).head <= final (self).head <= final (self).queue@.len(),
            match r {
                Some(p) => final (self).cur() >= 0 && p@ == final (self).paths@[final (self).cur()]@
                    && !final (self).affected@[final (self).cur()]
                    && crate::resolver::source_kind_spec(p@)
                    && old(self).head < final (self).head
                    && final (self).queue@[final (self).head - 1] as int == final (self).cur()
                    && (forall|w: int|
                        old(self).head <= w < final (self).head - 1 ==> (final (self).affected@[(
                        #[trigger] final (self).queue@[w]) as int] || !source_kind_spec(
                            final (self).paths@[final (self).queue@[w] as int]@,
                        ))),
                None => final (self).current is None && final (self).head == final (
                self).queue@.len() && (forall|w: int|
                    old(self).head <= w < final (self).queue@.len() ==> (final (self).affected@[(
                    #[trigger] final (self).queue@[w]) as int] || !source_kind_spec(
                        final (self).paths@[final (self).queue@[w] as int]@,
                    ))),
            },
    {
        while self.head < self.queue.len()
            invariant
                self.wf(),
                self.inv(),
                self.current is None,
                self.cwd == old(self).cwd,
                self.module_paths == old(self).module_paths,
                self.labels == old(self).labels,
                self.label_ids == old(self).label_ids,
                self.paths == old(self).paths,
                self.changed == old(self).changed,
                self.dependents == old(self).dependents,
                self.queue == old(self).queue,
                self.errors == old(self).errors,
                self.edges == old(self).edges,
                old(self).head <= self.head,
                forall|k: int|
                    0 <= k < self.n() ==> (old(self).affected@[k] ==> #[trigger] self.affected@[k]),
                forall|w: int|
                    old(self).head <= w < self.head ==> (self.affected@[(
                    #[trigger] self.queue@[w]) as int] || !source_kind_spec(
                        self.paths@[self.queue@[w] as int]@,
                    )),
            decreases self.queue@.len() - self.head,
        {
            let ghost at_head = *self;
            let id = self.queue[self.head];
            self.head = self.head + 1;
            proof {
                assert(self.deps_view() == at_head.deps_view());
                assert(self.wf());
                assert(self.inv());
            }
            if self.affected[id] {
                self.propagate_from(id);
                proof {
                    assert forall|w: int| old(self).head <= w < self.head implies (self.affected@[(
                    #[trigger] self.queue@[w]) as int] || !source_kind_spec(
                        self.paths@[self.queue@[w] as int]@,
                    )) by {
                        if w == self.head - 1 {
                            assert(at_head.affected@[id as int]);
                            assert(self.affected@[id as int]);
                        } else {
                            if at_head.affected@[at_head.queue@[w] as int] {
                                assert(self.affected@[self.queue@[w] as int]);
                            }
                        }
                    }
                }
            } else {
                if crate::resolver::recognized_source_kind(self.paths[id].as_str()) {
                    self.current = Some(id);
                    proof {
                        assert(self.deps_view() == at_head.deps_view());
                        assert(self.wf());
                        assert(self.inv());
                        assert(self.queue@[self.head - 1] == id);
                    }
                    return Some(self.paths[id].clone());
                } else {
                    proof {
                        assert(self.queue@[self.head - 1] == id);
                        assert(!source_kind_spec(self.paths@[id as int]@));
                    }
                }
            }
        }
        None
    }

    /// Append rendered diagnostics to the run's error list.
    pub fn record_errors(&mut self, errs: Vec<String>)
        requires
            old(self).wf(),
            old(self).inv(),
        ensures
            final (self).wf(),
            final (self).inv(),
            final (self).errors@ == old(self).errors@ + errs@,
            *final (self) == (Engine { errors: final (self).errors, ..*old(self) }),
    {
        let mut e = errs;
        self.errors.append(&mut e);
        proof {
            assert(self.deps_view() == old(self).deps_view());
            assert(self.wf());
            assert(self.inv());
        }
    }

    /// The current file could not be read: report it and move on.
    pub fn report_unreadable(&mut self)
        requires
            old(self).wf(),
            old(self).inv(),
            old(self).current is Some,
        ensures
            final (self).wf(),
            final (self).inv(),
            final (self).current is None,
            final (self).errors@.len() == old(self).errors@.len() + 1,
            forall|i: int|
                0 <= i < old(self).errors@.len() ==> #[trigger] final (self).errors@[i] == old(
                self).errors@[i],
            final (self).errors@.last()@ == "Cannot read file: "@ + old(self).paths@[old(
                self,
            ).cur()]@,
            *final (self) == (Engine {
                errors: final (self).errors,
                current: None,
                ..*old(self)
            }),
    {
        let id: usize = match self.current {
            Some(c) => c,
            None => 0,
        };
        let mut m = "Cannot read file: ".to_owned();
        m.append(self.paths[id].as_str());
        self.errors.push(m);
        self.current = None;
        proof {
            assert(self.deps_view() == old(self).deps_view());
            assert(self.wf());
            assert(self.inv());
        }
    }

    /// The current file has been handled completely.
    pub fn file_done(&mut self)
        requires
            old(self).wf(),
            old(self).inv(),
        ensures
            final (self).wf(),
            final (self).inv(),
            final (self).current is None,
            *final (self) == (Engine { current: None, ..*old(self) }),
    {
        self.current = None;
        proof {
            assert(self.deps_view() == old(self).deps_view());
            assert(self.wf());
            assert(self.inv());
        }
    }

    /// One resolved import edge from the current file to the absolute path
    /// `resolved`: record it in the ghost graph, and then either propagate
    /// (the importee is already affected), remember the current file as a
    /// dependent, or discover the importee, queueing it unless one of its
    /// path components is a vendored-directory name.
    #[verifier::rlimit(100)]
    pub fn record_edge(&mut self, resolved: String)
        requires
            old(self).wf(),
            old(self).inv(),
            old(self).current is Some,
        ensures
            final (self).wf(),
            final (self).inv(),
            final (self).current == old(self).current,
            final (self).cwd == old(self).cwd,
            final (self).module_paths == old(self).module_paths,
            final (self).labels == old(self).labels,
            final (self).label_ids == old(self).label_ids,
            final (self).errors == old(self).errors,
            final (self).head == old(self).head,
            old(self).n() <= final (self).n(),
            forall|k: int|
                0 <= k < old(self).n() ==> #[trigger] final (self).paths@[k] == old(
                self).paths@[k],
            forall|k: int|
                0 <= k < old(self).n() ==> #[trigger] final (self).changed@[k] == old(
                self).changed@[k],
            forall|k: int|
                old(self).n() <= k < final (self).n() ==> !(#[trigger] final (self).changed@[k]),
            forall|k: int|
                0 <= k < old(self).n() ==> (old(self).affected@[k] ==> #[trigger] final (
                self).affected@[k]),
            forall|w: int|
                0 <= w < old(self).queue@.len() ==> #[trigger] final (self).queue@[w] == old(
                self).queue@[w],
            old(self).queue@.len() <= final (self).queue@.len(),
            final (self).edges@.len() == old(self).edges@.len() + 1,
            forall|i: int|
                0 <= i < old(self).edges@.len() ==> #[trigger] final (self).edges@[i] == old(
                self).edges@[i],
            final (self).edges@.last().0 as int == old(self).cur(),
            (final (self).edges@.last().1 as int) < final (self).n(),
            final (self).paths@[final (self).edges@.last().1 as int]@ == join_spec(
                old(self).cwd@,
                resolved@,
            ),
            final (self).n() <= old(self).n() + 1,
            final (self).n() == old(self).n() ==> final (self).paths@ == old(self).paths@,
            final (self).n() == old(self).n() + 1 ==> (final (self).edges@.last().1 as int == old(self).n()
                && !seq_has_view(old(self).paths@, final (self).paths@[old(self).n()]@)
                && final (self).deps_view()[old(self).n()].len() > 0),
            forall|k: int|
                0 <= k < old(self).n() && k != final (self).edges@.last().1 as int
                    ==> #[trigger] final (self).deps_view()[k] == old(self).deps_view()[k],
            final (self).affected@[final (self).edges@.last().1 as int]
                || final (self).deps_view()[final (self).edges@.last().1 as int].len() > 0,
            final (self).queue@.len() <= old(self).queue@.len() + 1,
            final (self).queue@.len() == old(self).queue@.len() + 1 ==> (final (self).queue@.last()
                == final (self).edges@.last().1 && !has_component_spec(
                final (self).paths@[final (self).edges@.last().1 as int]@,
                old(self).module_paths@.map_values(|s: String| s@),
            )),
            (final (self).deps_view() == old(self).deps_view() && final (self).queue@ == old(self).queue@
                && final (self).affected@[final (self).edges@.last().1 as int])
            || (final (self).deps_view()[final (self).edges@.last().1 as int].len() > 0
                && (((final (self).edges@.last().1 as int) < old(self).n()
                    && old(self).deps_view()[final (self).edges@.last().1 as int].len() > 0)
                    ==> final (self).queue@ == old(self).queue@)
                && (((final (self).edges@.last().1 as int) >= old(self).n()
                    || old(self).deps_view()[final (self).edges@.last().1 as int].len() == 0)
                    ==> (if has_component_spec(
                        final (self).paths@[final (self).edges@.last().1 as int]@,
                        old(self).module_paths@.map_values(|s: String| s@),
                    ) {
                        final (self).queue@ == old(self).queue@
                    } else {
                        final (self).queue@ == old(self).queue@.push(final (self).edges@.last().1)
                    }))),
    {
        let p: usize = match self.current {
            Some(c) => c,
            None => 0,
        };
        let q_joined = join_path(self.cwd.as_str(), resolved.as_str());
        let qid = self.intern(q_joined);
        let ghost mid = *self;
        proof {
            self.edges@ = self.edges@.push((p, qid));
        }
        proof {
            assert(self.edges@.last() == (p, qid));
            assert forall|e: (usize, usize)| mid.edges@.contains(e) implies self.edges@.contains(
                e,
            ) by {
                let i = choose|i: int| 0 <= i < mid.edges@.len() && mid.edges@[i] == e;
                assert(self.edges@[i] == e);
            }
            assert(self.edges@.contains((p, qid)));
            assert forall|e: (usize, usize)| #[trigger]
                self.edges@.contains(e) && e != (p, qid) implies mid.edges@.contains(e) by {
                let i = choose|i: int| 0 <= i < self.edges@.len() && self.edges@[i] == e;
                assert(i < mid.edges@.len());
                assert(mid.edges@[i] == e);
            }
            // the laws carry over to the grown graph, except that the fresh
            // edge is not yet covered
            assert(self.deps_view() == mid.deps_view());
            assert forall|b: int, j: int|
                #![trigger self.deps_view()[b][j]]
                0 <= b < self.n() && 0 <= j
                    < self.deps_view()[b].len() implies self.edges@.contains(
                (self.deps_view()[b][j], b as usize),
            ) by {
                assert(mid.edges@.contains((mid.deps_view()[b][j], b as usize)));
            }
            assert(self.inv_deps_edges());
            assert(self.inv_affected_closed());
            assert forall|k: usize|
                (k as int) < self.n() && (#[trigger] self.affected@[k as int]) implies reaches_changed(
                self.edges@,
                self.changed@,
                k,
            ) by {
                lemma_reaches_monotone(mid.edges@, mid.changed@, self.edges@, self.changed@, k);
            }
            assert(self.inv_affected_reaches());
            assert forall|e: (usize, usize)| #[trigger]
                self.edges@.contains(e) && e != (p, qid) implies (self.affected@[e.0 as int]
                || self.deps_view()[e.1 as int].contains(e.0)) by {
                assert(mid.edges@.contains(e));
            }
        }
        if self.affected[qid] {
            proof {
                // an affected importee is never the freshly interned path
                assert(mid.n() == old(self).n());
                assert(mid.paths@ == old(self).paths@);
                assert(mid.dependents@ == old(self).dependents@);
                assert(mid.deps_view() =~= old(self).deps_view());
            }
            self.edge_hits_affected(p, qid);
            proof {
                assert(self.deps_view() == mid.deps_view());
                assert(self.queue@ == old(self).queue@);
            }
        } else {
            let ghost pre_row_len = mid.deps_view()[qid as int].len();
            self.edge_new_dependent(p, qid);
            proof {
                assert forall|k: int|
                    0 <= k < old(self).n() && k != qid as int implies #[trigger] self.deps_view()[k]
                    == old(self).deps_view()[k] by {
                    assert(self.deps_view()[k] == mid.deps_view()[k]);
                    assert(mid.dependents@[k] == old(self).dependents@[k]);
                }
                if mid.n() == old(self).n() + 1 {
                    assert(qid as int == old(self).n());
                    assert(mid.deps_view()[qid as int].len() == 0);
                } else {
                    assert(mid.dependents@[qid as int] == old(self).dependents@[qid as int]);
                    assert(mid.deps_view()[qid as int] == old(self).deps_view()[qid as int]);
                }
                assert(mid.paths@[qid as int] == self.paths@[qid as int]);
                assert(mid.module_paths@ == old(self).module_paths@);
                if self.n() == old(self).n() + 1 {
                    assert(qid as int == old(self).n());
                    if seq_has_view(old(self).paths@, self.paths@[old(self).n()]@) {
                        let j = choose|j: int|
                            0 <= j < old(self).paths@.len() && (#[trigger] old(self).paths@[j])@
                                == self.paths@[old(self).n()]@;
                        assert(self.paths@[j] == old(self).paths@[j]);
                        assert(self.paths@[j]@ != self.paths@[old(self).n()]@);
                        assert(false);
                    }
                }
            }
        }
    }

    /// The dequeued file is already affected: propagate through its
    /// dependents row instead of parsing it again.
    #[verifier::rlimit(100)]
    fn propagate_from(&mut self, source: usize)
        requires
            old(self).wf(),
            old(self).inv(),
            (source as int) < old(self).n(),
            old(self).affected@[source as int],
        ensures
            final (self).wf(),
            final (self).inv(),
            forall|k: int|
                0 <= k < old(self).n() ==> (old(self).affected@[k] ==> #[trigger] final (
                self).affected@[k]),
            *final (self) == (Engine { affected: final (self).affected, ..*old(self) }),
    {
        let ghost pre = *self;
        let n_now = self.paths.len();
        proof {
            assert(deps_of(&self.dependents) == self.deps_view());
            assert(reaches_changed(pre.edges@, pre.changed@, source));
        }
        extend_affected(&mut self.affected, source, &self.dependents);
        proof {
            assert(deps_of(&self.dependents) == self.deps_view());
            lemma_extend_restores_inv(
                pre.affected@,
                self.affected@,
                self.deps_view(),
                self.edges@,
                self.changed@,
                source,
            );
            assert(self.inv_affected_closed());
            assert(self.inv_affected_reaches());
            assert forall|e: (usize, usize)| #[trigger]
                self.edges@.contains(e) implies (self.affected@[e.0 as int]
                || self.deps_view()[e.1 as int].contains(e.0)) by {
                if !pre.affected@[e.0 as int] {
                    assert(pre.deps_view()[e.1 as int].contains(e.0));
                }
            }
            assert(self.inv_edges_covered());
        }
    }

    /// The importee of the freshly recorded edge is affected, so the
    /// current file and its transitive importers become affected too.
    #[verifier::rlimit(100)]
    fn edge_hits_affected(&mut self, p: usize, qid: usize)
        requires
            old(self).wf(),
            old(self).inv_deps_edges(),
            old(self).inv_affected_closed(),
            old(self).inv_affected_reaches(),
            (p as int) < old(self).n(),
            (qid as int) < old(self).n(),
            old(self).affected@[qid as int],
            old(self).edges@.len() >= 1,
            old(self).edges@.last() == (p, qid),
            old(self).edges@.contains((p, qid)),
            forall|e: (usize, usize)|
                #[trigger] old(self).edges@.contains(e) && e != (p, qid) ==> (old(
                self).affected@[e.0 as int] || old(self).deps_view()[e.1 as int].contains(e.0)),
        ensures
            final (self).wf(),
            final (self).inv(),
            forall|k: int|
                0 <= k < old(self).n() ==> (old(self).affected@[k] ==> #[trigger] final (
                self).affected@[k]),
            final (self).affected@[qid as int],
            final (self).affected@[p as int],
            *final (self) == (Engine { affected: final (self).affected, ..*old(self) }),
    {
        let ghost pre = *self;
        let n_now = self.paths.len();
        proof {
            assert(deps_of(&self.dependents) == self.deps_view());
            assert(reaches_changed(pre.edges@, pre.changed@, qid));
            crate::graph::lemma_reaches_step(pre.edges@, pre.changed@, p, qid);
        }
        extend_affected(&mut self.affected, p, &self.dependents);
        proof {
            assert(deps_of(&self.dependents) == self.deps_view());
            lemma_dep_reaches_trivial(self.deps_view(), pre.affected@, p);
            assert(self.affected@[p as int]);
            lemma_extend_restores_inv(
                pre.affected@,
                self.affected@,
                self.deps_view(),
                self.edges@,
                self.changed@,
                p,
            );
            assert(self.inv_affected_closed());
            assert(self.inv_affected_reaches());
            assert forall|e: (usize, usize)| #[trigger]
                self.edges@.contains(e) implies (self.affected@[e.0 as int]
                || self.deps_view()[e.1 as int].contains(e.0)) by {
                if e == (p, qid) {
                    assert(self.affected@[p as int]);
                } else {
                    if !pre.affected@[e.0 as int] {
                        assert(pre.deps_view()[e.1 as int].contains(e.0));
                    }
                }
            }
            assert(self.inv_edges_covered());
        }
    }

    /// The importee of the freshly recorded edge is not affected: file the
    /// current file in its dependents row, and queue the importee when the
    /// row is new and its path has no vendored component.
    #[verifier::rlimit(100)]
    fn edge_new_dependent(&mut self, p: usize, qid: usize)
        requires
            old(self).wf(),
            old(self).inv_deps_edges(),
            old(self).inv_affected_closed(),
            old(self).inv_affected_reaches(),
            (p as int) < old(self).n(),
            (qid as int) < old(self).n(),
            !old(self).affected@[qid as int],
            old(self).edges@.len() >= 1,
            old(self).edges@.last() == (p, qid),
            old(self).edges@.contains((p, qid)),
            forall|e: (usize, usize)|
                #[trigger] old(self).edges@.contains(e) && e != (p, qid) ==> (old(
                self).affected@[e.0 as int] || old(self).deps_view()[e.1 as int].contains(e.0)),
        ensures
            final (self).wf(),
            final (self).inv(),
            final (self).affected == old(self).affected,
            forall|w: int|
                0 <= w < old(self).queue@.len() ==> #[trigger] final (self).queue@[w] == old(
                self).queue@[w],
            old(self).queue@.len() <= final (self).queue@.len(),
            final (self).deps_view()[qid as int].len() > 0,
            forall|k: int|
                0 <= k < final (self).n() && k != qid as int ==> #[trigger] final (
                self).deps_view()[k] == old(self).deps_view()[k],
            old(self).deps_view()[qid as int].len() > 0 ==> final (self).queue == old(self).queue,
            final (self).queue@.len() <= old(self).queue@.len() + 1,
            old(self).deps_view()[qid as int].len() == 0 ==> (if has_component_spec(
                old(self).paths@[qid as int]@,
                old(self).module_paths@.map_values(|s: String| s@),
            ) {
                final (self).queue == old(self).queue
            } else {
                final (self).queue@ == old(self).queue@.push(qid)
            }),
            *final (self) == (Engine {
                dependents: final (self).dependents,
                queue: final (self).queue,
                ..*old(self)
            }),
    {
        let ghost mid = *self;
        let has_row = self.dependents[qid].len() > 0;
        let mut row: Vec<usize> = Vec::new();
        self.dependents.set_and_swap(qid, &mut row);
        if has_row {
            // an already-discovered importee: remember one more importer
            let mut present = false;
            let mut j: usize = 0;
            while j < row.len()
                invariant
                    j <= row@.len(),
                    present == (exists|y: int| 0 <= y < j && row@[y] == p),
                decreases row@.len() - j,
            {
                if row[j] == p {
                    present = true;
                }
                j = j + 1;
            }
            if !present {
                row.push(p);
            }
        } else {
            // a newly discovered importee
            row.push(p);
        }
        let ghost new_row = row@;
        proof {
            assert forall|y: int| 0 <= y < mid.deps_view()[qid as int].len() implies new_row[y]
                == mid.deps_view()[qid as int][y] by {
            }
            assert(new_row.len() == mid.deps_view()[qid as int].len() || (new_row.len()
                == mid.deps_view()[qid as int].len() + 1 && new_row.last() == p));
            assert(new_row.contains(p));
        }
        self.dependents.set_and_swap(qid, &mut row);
        proof {
            assert(self.deps_view() =~= mid.deps_view().update(qid as int, new_row));
            assert forall|b: int, j: int|
                #![trigger self.deps_view()[b][j]]
                0 <= b < self.n() && 0 <= j < self.deps_view()[b].len() implies self.edges@
                .contains((self.deps_view()[b][j], b as usize)) && self.deps_view()[b][j]
                < self.paths@.len() by {
                if b == qid {
                    if j < mid.deps_view()[b].len() {
                        assert(new_row[j] == mid.deps_view()[b][j]);
                        assert(mid.edges@.contains((mid.deps_view()[b][j], b as usize)));
                    } else {
                        assert(new_row[j] == p);
                    }
                } else {
                    assert(self.deps_view()[b] == mid.deps_view()[b]);
                    assert(mid.edges@.contains((mid.deps_view()[b][j], b as usize)));
                }
            }
            assert(self.inv_deps_edges());
            assert forall|e: (usize, usize)| #[trigger]
                self.edges@.contains(e) implies (self.affected@[e.0 as int]
                || self.deps_view()[e.1 as int].contains(e.0)) by {
                if e == (p, qid) {
                    let y = choose|y: int| 0 <= y < new_row.len() && new_row[y] == p;
                    assert(self.deps_view()[qid as int][y] == p);
                    assert(self.deps_view()[qid as int].contains(p));
                } else {
                    if !mid.affected@[e.0 as int] {
                        assert(mid.deps_view()[e.1 as int].contains(e.0));
                        if e.1 == qid {
                            let y = choose|y: int|
                                0 <= y < mid.deps_view()[qid as int].len()
                                    && mid.deps_view()[qid as int][y] == e.0;
                            assert(new_row[y] == e.0);
                            assert(self.deps_view()[qid as int][y] == e.0);
                            assert(self.deps_view()[qid as int].contains(e.0));
                        } else {
                            assert(self.deps_view()[e.1 as int] == mid.deps_view()[e.1 as int]);
                        }
                    }
                }
            }
            assert(self.inv_edges_covered());
            assert forall|b: int, j: int|
                #![trigger self.deps_view()[b][j]]
                0 <= b < self.n() && self.affected@[b] && 0 <= j
                    < self.deps_view()[b].len() implies self.affected@[self.deps_view()[b][j] as int] by {
                assert(b != qid);
                assert(self.deps_view()[b] == mid.deps_view()[b]);
            }
            assert(self.inv_affected_closed());
            assert(self.inv_affected_reaches());
        }
        if !has_row {
            if !crate::paths::path_has_component(self.paths[qid].as_str(), &self.module_paths) {
                let ghost pre_q = *self;
                self.queue.push(qid);
                proof {
                    assert forall|i: int|
                        0 <= i < self.queue@.len() implies (#[trigger] self.queue@[i])
                            < self.paths@.len() by {
                        if i < pre_q.queue@.len() {
                            assert(self.queue@[i] == pre_q.queue@[i]);
                        } else {
                            assert(self.queue@[i] == qid);
                        }
                    }
                }
            }
        }
    }


    /// One resolution outcome for a specifier of the current file: a builtin
    /// module is silently ignored, a failure joins the diagnostics, and a
    /// resolved path becomes an import edge.
    pub fn record_resolution(&mut self, outcome: &ResolveOutcome)
        requires
            old(self).wf(),
            old(self).inv(),
            old(self).current is Some,
        ensures
            final (self).wf(),
            final (self).inv(),
            final (self).current == old(self).current,
            final (self).cwd == old(self).cwd,
            final (self).module_paths == old(self).module_paths,
            final (self).labels == old(self).labels,
            final (self).label_ids == old(self).label_ids,
            final (self).head == old(self).head,
            old(self).n() <= final (self).n(),
            forall|k: int|
                0 <= k < old(self).n() ==> #[trigger] final (self).paths@[k] == old(
                self).paths@[k],
            forall|k: int|
                0 <= k < old(self).n() ==> #[trigger] final (self).changed@[k] == old(
                self).changed@[k],
            forall|k: int|
                old(self).n() <= k < final (self).n() ==> !(#[trigger] final (self).changed@[k]),
            forall|k: int|
                0 <= k < old(self).n() ==> (old(self).affected@[k] ==> #[trigger] final (
                self).affected@[k]),
            final (self).module_paths == old(self).module_paths,
            final (self).edges@.len() <= old(self).edges@.len() + 1,
            forall|i: int|
                0 <= i < old(self).edges@.len() ==> #[trigger] final (self).edges@[i] == old(
                self).edges@[i],
            forall|w: int|
                0 <= w < old(self).queue@.len() ==> #[trigger] final (self).queue@[w] == old(
                self).queue@[w],
            final (self).queue@.len() <= old(self).queue@.len() + 1,
            final (self).n() <= old(self).n() + 1,
            final (self).errors@.len() <= old(self).errors@.len() + 1,
            forall|i: int|
                0 <= i < old(self).errors@.len() ==> #[trigger] final (self).errors@[i] == old(
                self).errors@[i],
            final (self).edges@.len() == old(self).edges@.len() ==> (final (self).deps_view()
                == old(self).deps_view() && final (self).queue@ == old(self).queue@ && final (
            self).paths@ == old(self).paths@),
            final (self).edges@.len() == old(self).edges@.len() + 1 ==> (final (
            self).edges@.last().0 as int == old(self).cur() && (final (self).edges@.last().1 as int)
                < final (self).n() && (final (self).n() == old(self).n() ==> final (self).paths@
                == old(self).paths@) && (final (self).n() == old(self).n() + 1 ==> (final (
            self).edges@.last().1 as int == old(self).n() && !seq_has_view(
                old(self).paths@,
                final (self).paths@[old(self).n()]@,
            ) && final (self).deps_view()[old(self).n()].len() > 0)) && (forall|k: int|
                0 <= k < old(self).n() && k != final (self).edges@.last().1 as int
                    ==> #[trigger] final (self).deps_view()[k] == old(self).deps_view()[k]) && (
            final (self).affected@[final (self).edges@.last().1 as int] || final (
            self).deps_view()[final (self).edges@.last().1 as int].len() > 0) && (final (
            self).queue@.len() == old(self).queue@.len() + 1 ==> (final (self).queue@.last()
                == final (self).edges@.last().1 && !has_component_spec(
                final (self).paths@[final (self).edges@.last().1 as int]@,
                old(self).module_paths@.map_values(|s: String| s@),
            ))) && ((final (self).deps_view() == old(self).deps_view() && final (self).queue@
                == old(self).queue@ && final (self).affected@[final (self).edges@.last().1 as int])
                || (final (self).deps_view()[final (self).edges@.last().1 as int].len() > 0 && (((
            final (self).edges@.last().1 as int) < old(self).n() && old(self).deps_view()[final (
            self).edges@.last().1 as int].len() > 0) ==> final (self).queue@ == old(self).queue@)
                && (((final (self).edges@.last().1 as int) >= old(self).n() || old(
            self).deps_view()[final (self).edges@.last().1 as int].len() == 0) ==> (
            if has_component_spec(
                final (self).paths@[final (self).edges@.last().1 as int]@,
                old(self).module_paths@.map_values(|s: String| s@),
            ) {
                final (self).queue@ == old(self).queue@
            } else {
                final (self).queue@ == old(self).queue@.push(final (self).edges@.last().1)
            }))))),
            match outcome {
                ResolveOutcome::BuiltinModule => *final (self) == *old(self),
                ResolveOutcome::Failed(m) => *final (self) == (Engine {
                    errors: final (self).errors,
                    ..*old(self)
                }) && final (self).errors@ == old(self).errors@.push(*m),
                ResolveOutcome::Resolved(p) => final (self).errors == old(self).errors && final (
                self).edges@.len() == old(self).edges@.len() + 1 && final (self).paths@[final (
                self).edges@.last().1 as int]@ == join_spec(old(self).cwd@, p@),
            },
    {
        match outcome {
            ResolveOutcome::Resolved(path) => self.record_edge(path.clone()),
            ResolveOutcome::BuiltinModule => (),
            ResolveOutcome::Failed(m) => {
                self.errors.push(m.clone());
                proof {
                    assert(self.deps_view() == old(self).deps_view());
                    assert(self.wf());
                    assert(self.inv());
                }
            },
        }
    }

    /// Resolve one specifier of the current file through the module
    /// resolver and record the outcome.
    pub fn resolve_and_record(&mut self, resolver: &oxc_resolver::Resolver, specifier: &str)
        requires
            old(self).wf(),
            old(self).inv(),
            old(self).current is Some,
        ensures
            final (self).wf(),
            final (self).inv(),
            final (self).current == old(self).current,
            final (self).cwd == old(self).cwd,
            final (self).module_paths == old(self).module_paths,
            final (self).labels == old(self).labels,
            final (self).label_ids == old(self).label_ids,
            final (self).head == old(self).head,
            old(self).n() <= final (self).n(),
            forall|k: int|
                0 <= k < old(self).n() ==> #[trigger] final (self).paths@[k] == old(
                self).paths@[k],
            forall|k: int|
                0 <= k < old(self).n() ==> #[trigger] final (self).changed@[k] == old(
                self).changed@[k],
            forall|k: int|
                0 <= k < old(self).n() ==> (old(self).affected@[k] ==> #[trigger] final (
                self).affected@[k]),
            final (self).errors@.len() <= old(self).errors@.len() + 1,
            forall|i: int|
                0 <= i < old(self).errors@.len() ==> #[trigger] final (self).errors@[i] == old(
                self).errors@[i],
            final (self).edges@.len() <= old(self).edges@.len() + 1,
            forall|i: int|
                0 <= i < old(self).edges@.len() ==> #[trigger] final (self).edges@[i] == old(
                self).edges@[i],
            forall|w: int|
                0 <= w < old(self).queue@.len() ==> #[trigger] final (self).queue@[w] == old(
                self).queue@[w],
            final (self).queue@.len() <= old(self).queue@.len() + 1,
            final (self).edges@.len() == old(self).edges@.len() + 1 ==> (final (
            self).edges@.last().0 as int == old(self).cur() && (final (self).edges@.last().1 as int)
                < final (self).n() && final (self).errors@ == old(self).errors@),
            final (self).errors@.len() == old(self).errors@.len() + 1 ==> final (self).edges@
                == old(self).edges@,
            crate::paths::dirname_spec(old(self).paths@[old(self).cur()]@) is None
                ==> *final (self) == *old(self),
    {
        let id: usize = match self.current {
            Some(c) => c,
            None => 0,
        };
        let dir = crate::paths::dirname(self.paths[id].as_str());
        match dir {
            None => (),
            Some(d) => {
                let o = crate::resolver::resolve_specifier(resolver, d.as_str(), specifier);
                self.record_resolution(&o);
            },
        }
    }

    /// Close the run: the diagnostics, and the test-file strings whose
    /// absolute path ended up affected, each reported once.
    #[verifier::loop_isolation(false)]
    pub fn finish(self) -> (r: crate::AffectedReturn)
        requires
            self.wf(),
            forall|i: int, j: int|
                #![trigger self.labels@[i], self.labels@[j]]
                0 <= i < j < self.labels@.len() ==> self.labels@[i]@ != self.labels@[j]@,
        ensures
            r.errors@ == self.errors@,
            forall|i: int|
                0 <= i < self.labels@.len() ==> (seq_has_view(
                    r.files@,
                    (#[trigger] self.labels@[i])@,
                ) <==> self.affected@[self.label_ids@[i] as int]),
            forall|y: int|
                0 <= y < r.files@.len() ==> seq_has_view(self.labels@, (#[trigger] r.files@[y])@),
            forall|y: int, z: int|
                #![trigger r.files@[y], r.files@[z]]
                0 <= y < z < r.files@.len() ==> r.files@[y]@ != r.files@[z]@,
    {
        let mut files: Vec<String> = Vec::new();
        let ghost mut srcs: Seq<int> = Seq::empty();
        let mut i: usize = 0;
        while i < self.labels.len()
            invariant
                i <= self.labels@.len(),
                srcs.len() == files@.len(),
                forall|y: int|
                    #![trigger srcs[y]]
                    0 <= y < srcs.len() ==> 0 <= srcs[y] < i && (#[trigger] files@[y])@
                        == self.labels@[srcs[y]]@ && self.affected@[self.label_ids@[srcs[y]] as int],
                forall|x: int|
                    0 <= x < i ==> (seq_has_view(files@, (#[trigger] self.labels@[x])@)
                        <==> self.affected@[self.label_ids@[x] as int]),
                forall|y: int, z: int|
                    #![trigger files@[y], files@[z]]
                    0 <= y < z < files@.len() ==> files@[y]@ != files@[z]@,
            decreases self.labels@.len() - i,
        {
            let ghost pre_files = files@;
            if self.affected[self.label_ids[i]] {
                files.push(self.labels[i].clone());
                proof {
                    srcs = srcs.push(i as int);
                    assert(files@.last()@ == self.labels@[i as int]@);
                    assert forall|y: int|
                        #![trigger srcs[y]]
                        0 <= y < srcs.len() implies 0 <= srcs[y] < i + 1 && (#[trigger] files@[y])@
                        == self.labels@[srcs[y]]@
                        && self.affected@[self.label_ids@[srcs[y]] as int] by {
                        if y < pre_files.len() {
                            assert(files@[y] == pre_files[y]);
                        } else {
                            assert(srcs[y] == i as int);
                            assert(files@[y]@ == self.labels@[i as int]@);
                        }
                    }
                    assert forall|y: int, z: int|
                        #![trigger files@[y], files@[z]]
                        0 <= y < z < files@.len() implies files@[y]@ != files@[z]@ by {
                        if z == files@.len() - 1 {
                            assert(files@[y] == pre_files[y]);
                            assert(files@[y]@ == self.labels@[srcs[y]]@);
                            assert(srcs[y] < i);
                            assert(self.labels@[srcs[y]]@ != self.labels@[i as int]@);
                            assert(files@[z]@ == self.labels@[i as int]@);
                        } else {
                            assert(files@[y] == pre_files[y]);
                            assert(files@[z] == pre_files[z]);
                        }
                    }
                    assert forall|x: int| 0 <= x < i + 1 implies (seq_has_view(
                        files@,
                        (#[trigger] self.labels@[x])@,
                    ) <==> self.affected@[self.label_ids@[x] as int]) by {
                        if x < i {
                            if seq_has_view(pre_files, self.labels@[x]@) {
                                let y = choose|y: int|
                                    0 <= y < pre_files.len() && (#[trigger] pre_files[y])@
                                        == self.labels@[x]@;
                                assert(files@[y] == pre_files[y]);
                                assert(files@[y]@ == self.labels@[x]@);
                            }
                            if seq_has_view(files@, self.labels@[x]@) {
                                let y = choose|y: int|
                                    0 <= y < files@.len() && (#[trigger] files@[y])@
                                        == self.labels@[x]@;
                                if y < pre_files.len() {
                                    assert(pre_files[y] == files@[y]);
                                } else {
                                    // the new entry reads like label i, not x
                                    assert(files@[y]@ == self.labels@[i as int]@);
                                    assert(false);
                                }
                            }
                        } else {
                            assert(files@[files@.len() - 1]@ == self.labels@[x]@);
                        }
                    }
                }
            } else {
                proof {
                    assert(files@ == pre_files);
                    assert forall|x: int| 0 <= x < i + 1 implies (seq_has_view(
                        files@,
                        (#[trigger] self.labels@[x])@,
                    ) <==> self.affected@[self.label_ids@[x] as int]) by {
                        if x == i {
                            if seq_has_view(files@, self.labels@[x]@) {
                                let y = choose|y: int|
                                    0 <= y < files@.len() && (#[trigger] files@[y])@
                                        == self.labels@[x]@;
                                assert(files@[y]@ == self.labels@[srcs[y]]@);
                                assert(srcs[y] < i);
                                assert(self.labels@[srcs[y]]@ == self.labels@[x]@);
                                assert(false);
                            }
                        }
                    }
                }
            }
            i = i + 1;
        }
        proof {
            assert forall|y: int| 0 <= y < files@.len() implies seq_has_view(
                self.labels@,
                (#[trigger] files@[y])@,
            ) by {
                assert(files@[y]@ == self.labels@[srcs[y]]@);
            }
        }
        crate::AffectedReturn { errors: self.errors, files }
    }

}

/// The dependents rows as plain sequences.
pub open spec fn deps_of(d: &Vec<Vec<usize>>) -> Seq<Seq<usize>> {
    d@.map_values(|v: Vec<usize>| v@)
}

/// Propagate affectedness from `import` to everything that transitively
/// imports it: walk the dependents rows from `import`, marking every node
/// reached without crossing an already-affected one.
///
/// Exactly the nodes reachable that way are added, which is what makes the
/// affected set a fixpoint no matter in which order edges were discovered.
pub fn extend_affected(affected: &mut Vec<bool>, import: usize, dependents_map: &Vec<Vec<usize>>)
    requires
        old(affected)@.len() == dependents_map@.len(),
        import < old(affected)@.len(),
        forall|b: int, j: int|
            #![trigger deps_of(dependents_map)[b][j]]
            0 <= b < deps_of(dependents_map).len() && 0 <= j < deps_of(dependents_map)[b].len()
                ==> deps_of(dependents_map)[b][j] < old(affected)@.len(),
    ensures
        final (affected)@.len() == old(affected)@.len(),
        forall|k: int|
            0 <= k < final (affected)@.len() ==> ((#[trigger] final (affected)@[k]) <==> old(
                affected,
            )@[k] || dep_reaches_avoiding(
                deps_of(dependents_map),
                old(affected)@,
                import,
                k as usize,
            )),
{
    let ghost old_aff = old(affected)@;
    let ghost deps = deps_of(dependents_map);
    let n = affected.len();
    let mut stack: Vec<usize> = Vec::new();
    if !affected[import] {
        proof {
            lemma_count_false_update(affected@, import as int);
        }
        affected.set(import, true);
    }
    stack.push(import);
    proof {
        lemma_dep_reaches_trivial(deps, old_aff, import);
        assert(stack@[0] == import);
        assert(stack@.contains(import));
    }
    while stack.len() > 0
        invariant
            affected@.len() == n,
            old_aff.len() == n,
            deps.len() == n,
            import < n,
            deps == deps_of(dependents_map),
            forall|b: int, j: int|
                0 <= b < n && 0 <= j < deps[b].len() ==> (#[trigger] deps[b][j]) < n,
            forall|i: int|
                0 <= i < stack@.len() ==> (#[trigger] stack@[i]) < n && affected@[stack@[i] as int]
                    && (stack@[i] == import || !old_aff[stack@[i] as int])
                    && dep_reaches_avoiding(deps, old_aff, import, stack@[i]),
            forall|k: int| 0 <= k < n ==> (old_aff[k] ==> #[trigger] affected@[k]),
            affected@[import as int],
            forall|k: int|
                0 <= k < n && #[trigger] affected@[k] ==> (old_aff[k] || dep_reaches_avoiding(
                    deps,
                    old_aff,
                    import,
                    k as usize,
                )),
            forall|x: int, j: int|
                0 <= x < n && ((affected@[x] && !old_aff[x]) || x == import) && !stack@.contains(
                    x as usize,
                ) && 0 <= j < deps[x].len() ==> (old_aff[(#[trigger] deps[x][j]) as int]
                    || affected@[deps[x][j] as int]),
        decreases count_false(affected@) + stack@.len(),
    {
        let ghost m0 = count_false(affected@) + stack@.len();
        let ghost pre_stack = stack@;
        let x = stack.pop().unwrap();
        proof {
            // Everything but the popped element is still on the stack.
            assert forall|z: usize| pre_stack.contains(z) && z != x implies stack@.contains(z) by {
                let i = choose|i: int| 0 <= i < pre_stack.len() && pre_stack[i] == z;
                assert(i < pre_stack.len() - 1);
                assert(stack@[i] == z);
            }
        }
        let row_len = dependents_map[x].len();
        let mut j: usize = 0;
        while j < row_len
            invariant
                affected@.len() == n,
                old_aff.len() == n,
                deps.len() == n,
                import < n,
                x < n,
                deps == deps_of(dependents_map),
                row_len == deps[x as int].len(),
                j <= row_len,
                forall|b: int, jj: int|
                    0 <= b < n && 0 <= jj < deps[b].len() ==> (#[trigger] deps[b][jj]) < n,
                forall|i: int|
                    0 <= i < stack@.len() ==> (#[trigger] stack@[i]) < n
                        && affected@[stack@[i] as int] && (stack@[i] == import || !old_aff[stack@[i] as int])
                        && dep_reaches_avoiding(deps, old_aff, import, stack@[i]),
                forall|k: int| 0 <= k < n ==> (old_aff[k] ==> #[trigger] affected@[k]),
                affected@[import as int],
                affected@[x as int],
                x == import || !old_aff[x as int],
                dep_reaches_avoiding(deps, old_aff, import, x),
                forall|k: int|
                    0 <= k < n && #[trigger] affected@[k] ==> (old_aff[k] || dep_reaches_avoiding(
                        deps,
                        old_aff,
                        import,
                        k as usize,
                    )),
                forall|jj: int|
                    0 <= jj < j ==> (old_aff[(#[trigger] deps[x as int][jj]) as int] || affected@[
                        deps[x as int][jj] as int
                    ]),
                forall|y: int, jj: int|
                    0 <= y < n && ((affected@[y] && !old_aff[y]) || y == import) && y != x
                        && !stack@.contains(y as usize) && 0 <= jj < deps[y].len() ==> (old_aff[(
                    #[trigger] deps[y][jj]) as int] || affected@[deps[y][jj] as int]),
                count_false(affected@) + stack@.len() + 1 == m0,
            decreases row_len - j,
        {
            let y = dependents_map[x][j];
            if !affected[y] {
                proof {
                    assert(!old_aff[y as int]);
                    assert(deps[x as int][j as int] == y);
                    assert(deps[x as int].contains(y));
                    lemma_dep_reaches_extend(deps, old_aff, import, x, y);
                    lemma_count_false_update(affected@, y as int);
                }
                let ghost old_stack = stack@;
                affected.set(y, true);
                stack.push(y);
                proof {
                    assert(stack@[stack@.len() - 1] == y);
                    assert(stack@.contains(y));
                    assert forall|z: usize| old_stack.contains(z) implies stack@.contains(z) by {
                        let i = choose|i: int| 0 <= i < old_stack.len() && old_stack[i] == z;
                        assert(stack@[i] == z);
                    }
                }
            }
            j = j + 1;
        }
    }
    proof {
        reveal(crate::graph::dep_reaches_avoiding);
        assert forall|k: int|
            0 <= k < n && (old_aff[k] || dep_reaches_avoiding(
                deps,
                old_aff,
                import,
                k as usize,
            )) implies #[trigger] affected@[k] by {
            if !old_aff[k] && dep_reaches_avoiding(deps, old_aff, import, k as usize) {
                let p = choose|p: Seq<usize>|
                    is_dep_path_from(deps, p, import) && p.last() == k as usize && unblocked_after(
                        p,
                        old_aff,
                    );
                lemma_dep_closure_affected(deps, old_aff, affected@, import, p);
            }
        }
    }
}

/// `p` is a dependents path that starts at `src`.
pub open spec fn is_dep_path_from(deps: Seq<Seq<usize>>, p: Seq<usize>, src: usize) -> bool {
    crate::graph::is_dep_path(deps, p) && p[0] == src
}

/// No node of `p` after the start is blocked.
pub open spec fn unblocked_after(p: Seq<usize>, blocked: Seq<bool>) -> bool {
    forall|i: int| 1 <= i < p.len() ==> !(p[i] < blocked.len() && blocked[#[trigger] p[i] as int])
}

/// After the worklist has drained, every node on an unblocked dependents
/// path from `import` carries the affected mark: the closure invariant walks
/// the path forward.
proof fn lemma_dep_closure_affected(
    deps: Seq<Seq<usize>>,
    old_aff: Seq<bool>,
    affected: Seq<bool>,
    import: usize,
    p: Seq<usize>,
)
    requires
        affected.len() == old_aff.len(),
        deps.len() == old_aff.len(),
        import < old_aff.len(),
        forall|b: int, j: int|
            0 <= b < deps.len() && 0 <= j < deps[b].len() ==> (#[trigger] deps[b][j])
                < old_aff.len(),
        forall|k: int| 0 <= k < old_aff.len() ==> (old_aff[k] ==> #[trigger] affected[k]),
        affected[import as int],
        forall|x: int, j: int|
            0 <= x < old_aff.len() && ((affected[x] && !old_aff[x]) || x == import) && 0 <= j
                < deps[x].len() ==> (old_aff[(#[trigger] deps[x][j]) as int] || affected[deps[x][j] as int]),
        crate::graph::is_dep_path(deps, p),
        p[0] == import || (p[0] < old_aff.len() && affected[p[0] as int] && !old_aff[p[0] as int]),
        unblocked_after(p, old_aff),
    ensures
        p.last() < old_aff.len() && affected[p.last() as int],
    decreases p.len(),
{
    if p.len() == 1 {
        assert(p.last() == p[0]);
    } else {
        assert(deps[p[0] as int].contains(p[1]));
        let j = choose|j: int| 0 <= j < deps[p[0] as int].len() && deps[p[0] as int][j] == p[1];
        assert(p[1] < old_aff.len());
        assert(old_aff[p[1] as int] || affected[p[1] as int]);
        assert(!old_aff[p[1] as int]);
        let q = p.subrange(1, p.len() as int);
        assert forall|i: int| #![trigger q[i]] 0 <= i < q.len() - 1 implies q[i] < deps.len()
            && deps[q[i] as int].contains(q[i + 1]) by {
            assert(q[i] == p[i + 1] && q[i + 1] == p[i + 2]);
        }
        assert forall|i: int| 1 <= i < q.len() implies !(q[i] < old_aff.len() && old_aff[
            #[trigger] q[i] as int
        ]) by {
            assert(q[i] == p[i + 1]);
        }
        assert(q.last() == p.last());
        lemma_dep_closure_affected(deps, old_aff, affected, import, q);
    }
}

/// After a propagation from `import` over the dependents rows, the
/// traversal laws hold again: the rows of affected nodes are themselves
/// affected, and every affected node still reaches the changed set.
proof fn lemma_extend_restores_inv(
    pre_aff: Seq<bool>,
    new_aff: Seq<bool>,
    deps: Seq<Seq<usize>>,
    edges: Seq<(usize, usize)>,
    changed: Seq<bool>,
    import: usize,
)
    requires
        pre_aff.len() == deps.len(),
        new_aff.len() == deps.len(),
        changed.len() == deps.len(),
        deps.len() <= usize::MAX,
        import < deps.len(),
        forall|b: int, j: int|
            0 <= b < deps.len() && 0 <= j < deps[b].len() ==> (#[trigger] deps[b][j]) < deps.len(),
        forall|b: int, j: int|
            0 <= b < deps.len() && 0 <= j < deps[b].len() ==> edges.contains(
                ((#[trigger] deps[b][j]), b as usize),
            ),
        forall|b: int, j: int|
            0 <= b < deps.len() && pre_aff[b] && 0 <= j < deps[b].len() ==> pre_aff[(
            #[trigger] deps[b][j]) as int],
        forall|k: usize|
            (k as int) < deps.len() && (#[trigger] pre_aff[k as int]) ==> reaches_changed(
                edges,
                changed,
                k,
            ),
        reaches_changed(edges, changed, import),
        forall|k: int|
            0 <= k < deps.len() ==> ((#[trigger] new_aff[k]) <==> pre_aff[k]
                || dep_reaches_avoiding(deps, pre_aff, import, k as usize)),
    ensures
        forall|b: int, j: int|
            0 <= b < deps.len() && new_aff[b] && 0 <= j < deps[b].len() ==> new_aff[(
            #[trigger] deps[b][j]) as int],
        forall|k: usize|
            (k as int) < deps.len() && (#[trigger] new_aff[k as int]) ==> reaches_changed(
                edges,
                changed,
                k,
            ),
{
    assert forall|b: int, j: int|
        0 <= b < deps.len() && new_aff[b] && 0 <= j < deps[b].len() implies new_aff[(
    #[trigger] deps[b][j]) as int] by {
        let y = deps[b][j];
        if pre_aff[b] {
            assert(pre_aff[y as int]);
        } else {
            assert(dep_reaches_avoiding(deps, pre_aff, import, b as usize));
            if !pre_aff[y as int] {
                lemma_dep_reaches_extend(deps, pre_aff, import, b as usize, y);
                assert(new_aff[y as int]);
            }
        }
    }
    assert forall|k: usize|
        (k as int) < deps.len() && (#[trigger] new_aff[k as int]) implies reaches_changed(
        edges,
        changed,
        k,
    ) by {
        if !pre_aff[k as int] {
            crate::graph::lemma_dep_reach_transfers(edges, deps, changed, pre_aff, import, k);
        }
    }
}

/// A run's world: what each file contains once parsed, and what each of its
/// specifiers resolves to. [`collect_affected`] explores such a value the
/// way a driver explores the real filesystem and resolver, which makes whole
/// traversals checkable on concrete fixtures.
pub struct WorldFile {
    pub path: String,
    pub readable: bool,
    pub text: String,
    pub nodes: Vec<crate::extract::ImportNode>,
    pub parse_errors: Vec<crate::extract::ParseDiag>,
    pub resolutions: Vec<(String, ResolveOutcome)>,
}

/// The files a run can meet.
pub struct SourceWorld {
    pub files: Vec<WorldFile>,
}

fn world_find(world: &SourceWorld, cwd: &str, abs: &str) -> (r: Option<usize>)
    ensures
        match r {
            Some(i) => i < world.files@.len() && join_spec(cwd@, world.files@[i as int].path@)
                == abs@,
            None => forall|wi: int|
                0 <= wi < world.files@.len() ==> join_spec(cwd@, (#[trigger] world.files@[wi]).path@)
                    != abs@,
        },
{
    let mut i: usize = 0;
    while i < world.files.len()
        invariant
            i <= world.files@.len(),
            forall|wi: int|
                0 <= wi < i ==> join_spec(cwd@, (#[trigger] world.files@[wi]).path@) != abs@,
        decreases world.files@.len() - i,
    {
        let j = join_path(cwd, world.files[i].path.as_str());
        if crate::paths::str_eq(j.as_str(), abs) {
            return Some(i);
        }
        i = i + 1;
    }
    None
}

fn world_resolution_index(entry: &WorldFile, specifier: &str) -> (r: Option<usize>)
    ensures
        match r {
            Some(i) => i < entry.resolutions@.len() && entry.resolutions@[i as int].0@
                == specifier@,
            None => forall|ri: int|
                0 <= ri < entry.resolutions@.len() ==> (#[trigger] entry.resolutions@[ri]).0@
                    != specifier@,
        },
{
    let mut i: usize = 0;
    while i < entry.resolutions.len()
        invariant
            i <= entry.resolutions@.len(),
            forall|ri: int|
                0 <= ri < i ==> (#[trigger] entry.resolutions@[ri]).0@ != specifier@,
        decreases entry.resolutions@.len() - i,
    {
        if crate::paths::str_eq(entry.resolutions[i].0.as_str(), specifier) {
            return Some(i);
        }
        i = i + 1;
    }
    None
}

/// The views of a list of directory names.
pub open spec fn mp_views(mp: Seq<String>) -> Seq<Seq<char>> {
    mp.map_values(|s: String| s@)
}

/// A world presents a filesystem: each absolute path at most once, and each
/// file's resolver verdicts keyed by distinct specifiers.
pub open spec fn world_wf(world: &SourceWorld, cwd: Seq<char>) -> bool {
    &&& forall|i: int, j: int|
        #![trigger world.files@[i], world.files@[j]]
        0 <= i < j < world.files@.len() ==> join_spec(cwd, world.files@[i].path@) != join_spec(
            cwd,
            world.files@[j].path@,
        )
    &&& forall|wi: int, ri: int, rj: int|
        #![trigger world.files@[wi].resolutions@[ri], world.files@[wi].resolutions@[rj]]
        0 <= wi < world.files@.len() && 0 <= ri < rj < world.files@[wi].resolutions@.len()
            ==> world.files@[wi].resolutions@[ri].0@ != world.files@[wi].resolutions@[rj].0@
}

/// Some file of the world lies at the absolute path `p` and can be read.
pub open spec fn readable_at(world: &SourceWorld, cwd: Seq<char>, p: Seq<char>) -> bool {
    exists|wi: int|
        0 <= wi < world.files@.len() && join_spec(cwd, (#[trigger] world.files@[wi]).path@) == p
            && world.files@[wi].readable
}

/// The world's import graph: the readable file at `p` carries a construct
/// whose specifier the world's resolver maps to the absolute path `q`.
pub open spec fn world_edge(world: &SourceWorld, cwd: Seq<char>, p: Seq<char>, q: Seq<char>) -> bool {
    exists|wi: int, ri: int|
        0 <= wi < world.files@.len() && 0 <= ri < world.files@[wi].resolutions@.len() && join_spec(
            cwd,
            world.files@[wi].path@,
        ) == p && world.files@[wi].readable && specifier_set(world.files@[wi].nodes@).contains(
            (#[trigger] world.files@[wi].resolutions@[ri]).0@,
        ) && match world.files@[wi].resolutions@[ri].1 {
            ResolveOutcome::Resolved(t) => q == join_spec(cwd, t@),
            ResolveOutcome::BuiltinModule => false,
            ResolveOutcome::Failed(_) => false,
        }
}

/// Some resolver verdict of a readable world file, for a specifier its
/// constructs contribute, names the absolute path `p`.
pub open spec fn world_importee(world: &SourceWorld, cwd: Seq<char>, p: Seq<char>) -> bool {
    exists|wi: int, ri: int|
        0 <= wi < world.files@.len() && 0 <= ri < world.files@[wi].resolutions@.len()
            && world.files@[wi].readable && specifier_set(world.files@[wi].nodes@).contains(
            (#[trigger] world.files@[wi].resolutions@[ri]).0@,
        ) && match world.files@[wi].resolutions@[ri].1 {
            ResolveOutcome::Resolved(t) => p == join_spec(cwd, t@),
            ResolveOutcome::BuiltinModule => false,
            ResolveOutcome::Failed(_) => false,
        }
}

/// What may sit on the work queue: the absolute path of a test root, or an
/// importee the world's resolver named, free of vendored components.
pub open spec fn queued_ok(
    world: &SourceWorld,
    tf: Seq<String>,
    cwd: Seq<char>,
    mp: Seq<Seq<char>>,
    p: Seq<char>,
) -> bool {
    ||| is_joined_of(tf, cwd, p)
    ||| (world_importee(world, cwd, p) && !has_component_spec(p, mp))
}

/// A walk the traversal can take: consecutive world import edges whose
/// emitting files are recognized source kinds, whose inner files are either
/// test roots or free of vendored-directory components, and whose last file
/// is one of the changed paths.
pub open spec fn is_world_walk(
    world: &SourceWorld,
    cwd: Seq<char>,
    tf: Seq<String>,
    mp: Seq<Seq<char>>,
    cf: Seq<String>,
    pp: Seq<Seq<char>>,
) -> bool {
    &&& pp.len() >= 1
    &&& forall|i: int| 0 <= i < pp.len() - 1 ==> world_edge(world, cwd, #[trigger] pp[i], pp[i + 1])
    &&& forall|i: int| 0 <= i < pp.len() - 1 ==> source_kind_spec(#[trigger] pp[i])
    &&& forall|i: int|
        1 <= i < pp.len() - 1 ==> (is_joined_of(tf, cwd, #[trigger] pp[i]) || !has_component_spec(
            pp[i],
            mp,
        ))
    &&& is_joined_of(cf, cwd, pp.last())
}

/// The import graph of the world leads from the absolute path `p` to some
/// changed path, along a walk the traversal can take.
pub open spec fn world_reaches(
    world: &SourceWorld,
    cwd: Seq<char>,
    tf: Seq<String>,
    mp: Seq<Seq<char>>,
    cf: Seq<String>,
    p: Seq<char>,
) -> bool {
    exists|pp: Seq<Seq<char>>| is_world_walk(world, cwd, tf, mp, cf, pp) && pp[0] == p
}

/// The diagnostic for a file that could not be read.
pub open spec fn cannot_read_msg(p: Seq<char>) -> Seq<char> {
    "Cannot read file: "@ + p
}

/// The diagnostic for a specifier the resolver knows nothing about.
pub open spec fn cannot_find_msg(s: Seq<char>) -> Seq<char> {
    "Cannot find module '"@ + s + "'"@
}

/// The world file `f` has a resolver verdict for the specifier `s`.
pub open spec fn has_resolution(f: WorldFile, s: Seq<char>) -> bool {
    exists|ri: int| 0 <= ri < f.resolutions@.len() && (#[trigger] f.resolutions@[ri]).0@ == s
}

/// One resolver verdict of file `k` has left its mark: a resolved path as a
/// recorded edge, a failure as its message among the errors, a builtin as
/// nothing.
pub open spec fn resolution_recorded(
    cwd: Seq<char>,
    paths: Seq<String>,
    edges: Seq<(usize, usize)>,
    errors: Seq<String>,
    k: usize,
    oc: ResolveOutcome,
) -> bool {
    match oc {
        ResolveOutcome::Resolved(t) => exists|b: usize|
            (b as int) < paths.len() && paths[b as int]@ == join_spec(cwd, t@) && edges.contains(
                (k, b),
            ),
        ResolveOutcome::BuiltinModule => true,
        ResolveOutcome::Failed(m) => seq_has_view(errors, m@),
    }
}

/// Everything the parse of the world file `f` (lying at the absolute path
/// `p`, interned as `k`) owes the run: its parse and extractor diagnostics
/// rendered among the errors, each resolver verdict for an extracted
/// specifier recorded, and an error for each extracted specifier without a
/// verdict.
pub open spec fn file_body_recorded(
    f: WorldFile,
    cwd: Seq<char>,
    paths: Seq<String>,
    edges: Seq<(usize, usize)>,
    errors: Seq<String>,
    k: usize,
    p: Seq<char>,
) -> bool {
    &&& forall|di: int|
        0 <= di < f.parse_errors@.len() ==> seq_has_view(
            errors,
            render_spec(
                rel_label_spec(cwd, p),
                (#[trigger] f.parse_errors@[di]).message@,
                f.parse_errors@[di].start,
                f.parse_errors@[di].end,
                f.text@,
            ),
        )
    &&& forall|ni: int|
        0 <= ni < f.nodes@.len() ==> match diag_of_node(#[trigger] f.nodes@[ni]) {
            Some(d) => seq_has_view(
                errors,
                render_spec(rel_label_spec(cwd, p), d.0, d.1, d.2, f.text@),
            ),
            None => true,
        }
    &&& forall|ri: int|
        0 <= ri < f.resolutions@.len() && specifier_set(f.nodes@).contains(
            (#[trigger] f.resolutions@[ri]).0@,
        ) ==> resolution_recorded(cwd, paths, edges, errors, k, f.resolutions@[ri].1)
    &&& forall|s: Seq<char>|
        specifier_set(f.nodes@).contains(s) && !has_resolution(f, s) ==> seq_has_view(
            errors,
            cannot_find_msg(s),
        )
}

/// The run has dealt with the interned path `k` completely: an unreadable
/// path is reported, and a readable file's parse has left all its marks.
pub open spec fn file_recorded(
    world: &SourceWorld,
    cwd: Seq<char>,
    paths: Seq<String>,
    edges: Seq<(usize, usize)>,
    errors: Seq<String>,
    k: usize,
) -> bool {
    &&& (!readable_at(world, cwd, paths[k as int]@) ==> seq_has_view(
        errors,
        cannot_read_msg(paths[k as int]@),
    ))
    &&& forall|wi: int|
        0 <= wi < world.files@.len() && join_spec(cwd, (#[trigger] world.files@[wi]).path@)
            == paths[k as int]@ && world.files@[wi].readable ==> file_body_recorded(
            world.files@[wi],
            cwd,
            paths,
            edges,
            errors,
            k,
            paths[k as int]@,
        )
}

/// A dequeued path asks nothing more of the run: it is affected, or not a
/// recognized source kind, or its file has been dealt with completely.
pub open spec fn handled(world: &SourceWorld, e: Engine, k: usize) -> bool {
    ||| e.affected@[k as int]
    ||| !source_kind_spec(e.paths@[k as int]@)
    ||| file_recorded(world, e.cwd@, e.paths@, e.edges@, e.errors@, k)
}

/// A discovered edge is a world import edge whose emitting file was fit to
/// be parsed: a recognized source kind, and a test root or free of vendored
/// components.
pub open spec fn edge_tied(
    world: &SourceWorld,
    tf: Seq<String>,
    e: Engine,
    edge: (usize, usize),
) -> bool {
    &&& (edge.0 as int) < e.n() && (edge.1 as int) < e.n()
    &&& world_edge(world, e.cwd@, e.paths@[edge.0 as int]@, e.paths@[edge.1 as int]@)
    &&& source_kind_spec(e.paths@[edge.0 as int]@)
    &&& (is_joined_of(tf, e.cwd@, e.paths@[edge.0 as int]@) || !has_component_spec(
        e.paths@[edge.0 as int]@,
        mp_views(e.module_paths@),
    ))
}

/// One diagnostic string the world can give rise to: a parse or extractor
/// diagnostic of a readable file, a resolver failure or a missing verdict
/// for an extracted specifier, or an unreadable path the traversal can
/// meet - a test root's absolute path, or an importee the world's resolver
/// named.
pub open spec fn error_justified(
    world: &SourceWorld,
    cwd: Seq<char>,
    tf: Seq<String>,
    m: Seq<char>,
) -> bool {
    ||| exists|wi: int, di: int|
        0 <= wi < world.files@.len() && world.files@[wi].readable && 0 <= di < world.files@[wi].parse_errors@.len()
            && m == render_spec(
            rel_label_spec(cwd, join_spec(cwd, world.files@[wi].path@)),
            (#[trigger] world.files@[wi].parse_errors@[di]).message@,
            world.files@[wi].parse_errors@[di].start,
            world.files@[wi].parse_errors@[di].end,
            world.files@[wi].text@,
        )
    ||| exists|wi: int, ni: int|
        0 <= wi < world.files@.len() && world.files@[wi].readable && 0 <= ni
            < world.files@[wi].nodes@.len() && match diag_of_node(
            #[trigger] world.files@[wi].nodes@[ni],
        ) {
            Some(d) => m == render_spec(
                rel_label_spec(cwd, join_spec(cwd, world.files@[wi].path@)),
                d.0,
                d.1,
                d.2,
                world.files@[wi].text@,
            ),
            None => false,
        }
    ||| exists|wi: int, ri: int|
        0 <= wi < world.files@.len() && world.files@[wi].readable && 0 <= ri
            < world.files@[wi].resolutions@.len() && specifier_set(
            world.files@[wi].nodes@,
        ).contains((#[trigger] world.files@[wi].resolutions@[ri]).0@) && match world.files@[wi].resolutions@[ri].1 {
            ResolveOutcome::Failed(fm) => m == fm@,
            _ => false,
        }
    ||| exists|wi: int, s: Seq<char>|
        #![trigger has_resolution(world.files@[wi], s)]
        0 <= wi < world.files@.len() && world.files@[wi].readable && specifier_set(
            world.files@[wi].nodes@,
        ).contains(s) && !has_resolution(world.files@[wi], s) && m == cannot_find_msg(s)
    ||| exists|p: Seq<char>|
        m == cannot_read_msg(p) && !readable_at(world, cwd, p) && (is_joined_of(tf, cwd, p)
            || world_importee(world, cwd, p))
}

/// The reported test files, characterized: a subset of the given test-file
/// strings without duplicate views, holding a test file exactly when the
/// world's import graph leads from its absolute path to a changed path.
pub open spec fn report_files_ok(
    world: &SourceWorld,
    cwd: Seq<char>,
    tf: Seq<String>,
    mp: Seq<Seq<char>>,
    cf: Seq<String>,
    files: Seq<String>,
) -> bool {
    &&& forall|y: int| 0 <= y < files.len() ==> seq_has_view(tf, (#[trigger] files[y])@)
    &&& forall|y: int, z: int|
        #![trigger files[y], files[z]]
        0 <= y < z < files.len() ==> files[y]@ != files[z]@
    &&& forall|j: int|
        0 <= j < tf.len() ==> (seq_has_view(files, (#[trigger] tf[j])@) <==> world_reaches(
            world,
            cwd,
            tf,
            mp,
            cf,
            join_spec(cwd, tf[j]@),
        ))
}

/// What a run owes for a test root it did not report: if its path is a
/// recognized source kind, the root's own file has been dealt with — an
/// unreadable root is reported as such, and a readable root's diagnostics
/// and unresolvable specifiers are all among the errors.
pub open spec fn root_outcome_recorded(
    world: &SourceWorld,
    cwd: Seq<char>,
    errors: Seq<String>,
    p: Seq<char>,
) -> bool {
    &&& (!readable_at(world, cwd, p) ==> seq_has_view(errors, cannot_read_msg(p)))
    &&& forall|wi: int|
        0 <= wi < world.files@.len() && join_spec(cwd, (#[trigger] world.files@[wi]).path@) == p
            && world.files@[wi].readable ==> file_errors_recorded(
            world.files@[wi],
            cwd,
            errors,
            p,
        )
}

/// The diagnostics a parsed file owes the run: its parse and extractor
/// diagnostics rendered among the errors, a resolver failure's message for
/// each failed extracted specifier, and an error for each extracted
/// specifier without a verdict.
pub open spec fn file_errors_recorded(
    f: WorldFile,
    cwd: Seq<char>,
    errors: Seq<String>,
    p: Seq<char>,
) -> bool {
    &&& forall|di: int|
        0 <= di < f.parse_errors@.len() ==> seq_has_view(
            errors,
            render_spec(
                rel_label_spec(cwd, p),
                (#[trigger] f.parse_errors@[di]).message@,
                f.parse_errors@[di].start,
                f.parse_errors@[di].end,
                f.text@,
            ),
        )
    &&& forall|ni: int|
        0 <= ni < f.nodes@.len() ==> match diag_of_node(#[trigger] f.nodes@[ni]) {
            Some(d) => seq_has_view(
                errors,
                render_spec(rel_label_spec(cwd, p), d.0, d.1, d.2, f.text@),
            ),
            None => true,
        }
    &&& forall|ri: int|
        0 <= ri < f.resolutions@.len() && specifier_set(f.nodes@).contains(
            (#[trigger] f.resolutions@[ri]).0@,
        ) ==> match f.resolutions@[ri].1 {
            ResolveOutcome::Failed(m) => seq_has_view(errors, m@),
            _ => true,
        }
    &&& forall|s: Seq<char>|
        specifier_set(f.nodes@).contains(s) && !has_resolution(f, s) ==> seq_has_view(
            errors,
            cannot_find_msg(s),
        )
}

/// Which dependents rows hold at least one importer.
pub open spec fn occupied(deps: Seq<Seq<usize>>) -> Seq<bool> {
    deps.map_values(|r: Seq<usize>| r.len() > 0)
}

/// How many resolver verdicts of one file name a module path that `paths`
/// has not interned yet. Discovering such a path consumes one of them, which
/// is what bounds the traversal.
pub open spec fn count_fresh_file(
    rs: Seq<(String, ResolveOutcome)>,
    cwd: Seq<char>,
    paths: Seq<String>,
) -> nat
    decreases rs.len(),
{
    if rs.len() == 0 {
        0
    } else {
        count_fresh_file(rs.drop_last(), cwd, paths) + (match rs.last().1 {
            ResolveOutcome::Resolved(t) => if seq_has_view(paths, join_spec(cwd, t@)) {
                0nat
            } else {
                1nat
            },
            ResolveOutcome::BuiltinModule => 0nat,
            ResolveOutcome::Failed(_) => 0nat,
        })
    }
}

/// [`count_fresh_file`], summed over the first `w` files of the world.
pub open spec fn count_fresh_upto(
    world: &SourceWorld,
    cwd: Seq<char>,
    paths: Seq<String>,
    w: int,
) -> nat
    decreases w,
{
    if w <= 0 {
        0
    } else {
        count_fresh_upto(world, cwd, paths, w - 1) + count_fresh_file(
            world.files@[w - 1].resolutions@,
            cwd,
            paths,
        )
    }
}

/// How many resolver verdicts of the whole world name a path not interned
/// yet.
pub open spec fn count_fresh(world: &SourceWorld, cwd: Seq<char>, paths: Seq<String>) -> nat {
    count_fresh_upto(world, cwd, paths, world.files@.len() as int)
}

/// What the traversal still has before it: queued files not yet dequeued,
/// dependents rows not yet begun, and resolver verdicts naming paths not yet
/// interned. Every loop turn of [`explore`] lowers this measure.
pub open spec fn explore_measure(world: &SourceWorld, e: Engine) -> int {
    e.queue@.len() - e.head + count_false(occupied(e.deps_view())) + count_fresh(
        world,
        e.cwd@,
        e.paths@,
    )
}

proof fn lemma_fresh_file_monotone(
    rs: Seq<(String, ResolveOutcome)>,
    cwd: Seq<char>,
    paths1: Seq<String>,
    paths2: Seq<String>,
)
    requires
        forall|v: Seq<char>| #[trigger] seq_has_view(paths1, v) ==> seq_has_view(paths2, v),
    ensures
        count_fresh_file(rs, cwd, paths2) <= count_fresh_file(rs, cwd, paths1),
    decreases rs.len(),
{
    if rs.len() > 0 {
        lemma_fresh_file_monotone(rs.drop_last(), cwd, paths1, paths2);
    }
}

proof fn lemma_fresh_file_strict(
    rs: Seq<(String, ResolveOutcome)>,
    cwd: Seq<char>,
    paths1: Seq<String>,
    paths2: Seq<String>,
    ri: int,
    t: Seq<char>,
)
    requires
        forall|v: Seq<char>| #[trigger] seq_has_view(paths1, v) ==> seq_has_view(paths2, v),
        0 <= ri < rs.len(),
        match rs[ri].1 {
            ResolveOutcome::Resolved(tt) => tt@ == t,
            _ => false,
        },
        !seq_has_view(paths1, join_spec(cwd, t)),
        seq_has_view(paths2, join_spec(cwd, t)),
    ensures
        count_fresh_file(rs, cwd, paths2) + 1 <= count_fresh_file(rs, cwd, paths1),
    decreases rs.len(),
{
    if ri == rs.len() - 1 {
        lemma_fresh_file_monotone(rs.drop_last(), cwd, paths1, paths2);
    } else {
        lemma_fresh_file_strict(rs.drop_last(), cwd, paths1, paths2, ri, t);
    }
}

proof fn lemma_fresh_upto_monotone(
    world: &SourceWorld,
    cwd: Seq<char>,
    paths1: Seq<String>,
    paths2: Seq<String>,
    w: int,
)
    requires
        forall|v: Seq<char>| #[trigger] seq_has_view(paths1, v) ==> seq_has_view(paths2, v),
    ensures
        count_fresh_upto(world, cwd, paths2, w) <= count_fresh_upto(world, cwd, paths1, w),
    decreases w,
{
    if w > 0 {
        lemma_fresh_upto_monotone(world, cwd, paths1, paths2, w - 1);
        lemma_fresh_file_monotone(world.files@[w - 1].resolutions@, cwd, paths1, paths2);
    }
}

proof fn lemma_fresh_upto_strict(
    world: &SourceWorld,
    cwd: Seq<char>,
    paths1: Seq<String>,
    paths2: Seq<String>,
    w: int,
    wi: int,
    ri: int,
    t: Seq<char>,
)
    requires
        forall|v: Seq<char>| #[trigger] seq_has_view(paths1, v) ==> seq_has_view(paths2, v),
        0 <= wi < w <= world.files@.len(),
        0 <= ri < world.files@[wi].resolutions@.len(),
        match world.files@[wi].resolutions@[ri].1 {
            ResolveOutcome::Resolved(tt) => tt@ == t,
            _ => false,
        },
        !seq_has_view(paths1, join_spec(cwd, t)),
        seq_has_view(paths2, join_spec(cwd, t)),
    ensures
        count_fresh_upto(world, cwd, paths2, w) + 1 <= count_fresh_upto(world, cwd, paths1, w),
    decreases w,
{
    if wi == w - 1 {
        lemma_fresh_upto_monotone(world, cwd, paths1, paths2, w - 1);
        lemma_fresh_file_strict(world.files@[w - 1].resolutions@, cwd, paths1, paths2, ri, t);
    } else {
        lemma_fresh_upto_strict(world, cwd, paths1, paths2, w - 1, wi, ri, t);
        lemma_fresh_file_monotone(world.files@[w - 1].resolutions@, cwd, paths1, paths2);
    }
}

/// Interning the path of one not-yet-interned resolver verdict lowers the
/// count of fresh verdicts.
proof fn lemma_count_fresh_strict(
    world: &SourceWorld,
    cwd: Seq<char>,
    paths1: Seq<String>,
    paths2: Seq<String>,
    wi: int,
    ri: int,
    t: Seq<char>,
)
    requires
        forall|v: Seq<char>| #[trigger] seq_has_view(paths1, v) ==> seq_has_view(paths2, v),
        0 <= wi < world.files@.len(),
        0 <= ri < world.files@[wi].resolutions@.len(),
        match world.files@[wi].resolutions@[ri].1 {
            ResolveOutcome::Resolved(tt) => tt@ == t,
            _ => false,
        },
        !seq_has_view(paths1, join_spec(cwd, t)),
        seq_has_view(paths2, join_spec(cwd, t)),
    ensures
        count_fresh(world, cwd, paths2) + 1 <= count_fresh(world, cwd, paths1),
{
    lemma_fresh_upto_strict(
        world,
        cwd,
        paths1,
        paths2,
        world.files@.len() as int,
        wi,
        ri,
        t,
    );
}

/// The growth one engine call allows: nothing already interned, discovered
/// or reported is lost, and no affected mark is withdrawn.
pub open spec fn engine_grows(e1: Engine, e2: Engine) -> bool {
    &&& e2.cwd@ == e1.cwd@
    &&& e1.n() <= e2.n()
    &&& forall|i: int| 0 <= i < e1.n() ==> #[trigger] e2.paths@[i] == e1.paths@[i]
    &&& forall|i: int| 0 <= i < e1.n() ==> ((#[trigger] e1.affected@[i]) ==> e2.affected@[i])
    &&& e1.edges@.len() <= e2.edges@.len()
    &&& forall|i: int| 0 <= i < e1.edges@.len() ==> #[trigger] e2.edges@[i] == e1.edges@[i]
    &&& e1.errors@.len() <= e2.errors@.len()
    &&& forall|i: int| 0 <= i < e1.errors@.len() ==> #[trigger] e2.errors@[i] == e1.errors@[i]
}

proof fn lemma_has_view_grows(ss1: Seq<String>, ss2: Seq<String>, v: Seq<char>)
    requires
        seq_has_view(ss1, v),
        ss1.len() <= ss2.len(),
        forall|i: int| 0 <= i < ss1.len() ==> #[trigger] ss2[i] == ss1[i],
    ensures
        seq_has_view(ss2, v),
{
    let j = choose|j: int| 0 <= j < ss1.len() && (#[trigger] ss1[j])@ == v;
    assert(ss2[j] == ss1[j]);
    assert(ss2[j]@ == v);
}

proof fn lemma_resolution_recorded_grows(e1: Engine, e2: Engine, k: usize, oc: ResolveOutcome)
    requires
        engine_grows(e1, e2),
        resolution_recorded(e1.cwd@, e1.paths@, e1.edges@, e1.errors@, k, oc),
    ensures
        resolution_recorded(e2.cwd@, e2.paths@, e2.edges@, e2.errors@, k, oc),
{
    match oc {
        ResolveOutcome::Resolved(t) => {
            let b = choose|b: usize|
                (b as int) < e1.paths@.len() && (#[trigger] e1.paths@[b as int])@ == join_spec(
                    e1.cwd@,
                    t@,
                ) && e1.edges@.contains((k, b));
            assert(e2.paths@[b as int] == e1.paths@[b as int]);
            let j = choose|j: int| 0 <= j < e1.edges@.len() && e1.edges@[j] == (k, b);
            assert(e2.edges@[j] == (k, b));
            assert(e2.edges@.contains((k, b)));
            assert((b as int) < e2.paths@.len() && e2.paths@[b as int]@ == join_spec(e2.cwd@, t@)
                && e2.edges@.contains((k, b)));
        },
        ResolveOutcome::BuiltinModule => {},
        ResolveOutcome::Failed(m) => {
            lemma_has_view_grows(e1.errors@, e2.errors@, m@);
        },
    }
}

/// A path the run has dealt with stays dealt with as the run grows.
proof fn lemma_handled_grows(world: &SourceWorld, e1: Engine, e2: Engine, k: usize)
    requires
        handled(world, e1, k),
        (k as int) < e1.n(),
        engine_grows(e1, e2),
    ensures
        handled(world, e2, k),
{
    assert(e2.paths@[k as int] == e1.paths@[k as int]);
    if e1.affected@[k as int] {
        assert(e2.affected@[k as int]);
    } else if !source_kind_spec(e1.paths@[k as int]@) {
    } else {
        let p = e1.paths@[k as int]@;
        assert(file_recorded(world, e1.cwd@, e1.paths@, e1.edges@, e1.errors@, k));
        if !readable_at(world, e2.cwd@, p) {
            lemma_has_view_grows(e1.errors@, e2.errors@, cannot_read_msg(p));
        }
        assert forall|wi: int|
            0 <= wi < world.files@.len() && join_spec(e2.cwd@, (#[trigger] world.files@[wi]).path@)
                == p && world.files@[wi].readable implies file_body_recorded(
            world.files@[wi],
            e2.cwd@,
            e2.paths@,
            e2.edges@,
            e2.errors@,
            k,
            p,
        ) by {
            let f = world.files@[wi];
            assert(file_body_recorded(f, e1.cwd@, e1.paths@, e1.edges@, e1.errors@, k, p));
            assert forall|di: int| 0 <= di < f.parse_errors@.len() implies seq_has_view(
                e2.errors@,
                render_spec(
                    rel_label_spec(e2.cwd@, p),
                    (#[trigger] f.parse_errors@[di]).message@,
                    f.parse_errors@[di].start,
                    f.parse_errors@[di].end,
                    f.text@,
                ),
            ) by {
                lemma_has_view_grows(
                    e1.errors@,
                    e2.errors@,
                    render_spec(
                        rel_label_spec(e1.cwd@, p),
                        f.parse_errors@[di].message@,
                        f.parse_errors@[di].start,
                        f.parse_errors@[di].end,
                        f.text@,
                    ),
                );
            }
            assert forall|ni: int| 0 <= ni < f.nodes@.len() implies match diag_of_node(
                #[trigger] f.nodes@[ni],
            ) {
                Some(d) => seq_has_view(
                    e2.errors@,
                    render_spec(rel_label_spec(e2.cwd@, p), d.0, d.1, d.2, f.text@),
                ),
                None => true,
            } by {
                match diag_of_node(f.nodes@[ni]) {
                    Some(d) => {
                        lemma_has_view_grows(
                            e1.errors@,
                            e2.errors@,
                            render_spec(rel_label_spec(e1.cwd@, p), d.0, d.1, d.2, f.text@),
                        );
                    },
                    None => {},
                }
            }
            assert forall|ri: int|
                0 <= ri < f.resolutions@.len() && specifier_set(f.nodes@).contains(
                    (#[trigger] f.resolutions@[ri]).0@,
                ) implies resolution_recorded(
                e2.cwd@,
                e2.paths@,
                e2.edges@,
                e2.errors@,
                k,
                f.resolutions@[ri].1,
            ) by {
                lemma_resolution_recorded_grows(e1, e2, k, f.resolutions@[ri].1);
            }
            assert forall|s: Seq<char>|
                specifier_set(f.nodes@).contains(s) && !has_resolution(f, s) implies seq_has_view(
                e2.errors@,
                cannot_find_msg(s),
            ) by {
                lemma_has_view_grows(e1.errors@, e2.errors@, cannot_find_msg(s));
            }
        }
    }
}

/// A rendered extractor diagnostic of one construct is among the rendered
/// node errors of the whole walk.
proof fn lemma_node_error_present(
    nodes: Seq<crate::extract::ImportNode>,
    label: Seq<char>,
    text: Seq<char>,
    ni: int,
    m: Seq<char>,
    a: u32,
    b: u32,
)
    requires
        0 <= ni < nodes.len(),
        diag_of_node(nodes[ni]) == Some((m, a, b)),
    ensures
        crate::extract::rendered_node_errors(nodes, label, text).contains(
            render_spec(label, m, a, b, text),
        ),
    decreases nodes.len(),
{
    let r = crate::extract::rendered_node_errors(nodes, label, text);
    if ni == nodes.len() - 1 {
        assert(nodes.last() == nodes[ni]);
        assert(r[r.len() - 1] == render_spec(label, m, a, b, text));
    } else {
        lemma_node_error_present(nodes.drop_last(), label, text, ni, m, a, b);
        let rp = crate::extract::rendered_node_errors(nodes.drop_last(), label, text);
        let j = choose|j: int| 0 <= j < rp.len() && rp[j] == render_spec(label, m, a, b, text);
        assert(r[j] == rp[j]);
    }
}

/// Every rendered node error traces back to a construct's diagnostic.
proof fn lemma_node_error_source(
    nodes: Seq<crate::extract::ImportNode>,
    label: Seq<char>,
    text: Seq<char>,
    t: int,
)
    requires
        0 <= t < crate::extract::rendered_node_errors(nodes, label, text).len(),
    ensures
        exists|ni: int|
            0 <= ni < nodes.len() && match diag_of_node(#[trigger] nodes[ni]) {
                Some(d) => crate::extract::rendered_node_errors(nodes, label, text)[t]
                    == render_spec(label, d.0, d.1, d.2, text),
                None => false,
            },
    decreases nodes.len(),
{
    let r = crate::extract::rendered_node_errors(nodes, label, text);
    let rp = crate::extract::rendered_node_errors(nodes.drop_last(), label, text);
    if nodes.len() == 0 {
        assert(false);
    } else if t < rp.len() {
        lemma_node_error_source(nodes.drop_last(), label, text, t);
        let ni = choose|ni: int|
            0 <= ni < nodes.drop_last().len() && match diag_of_node(
                #[trigger] nodes.drop_last()[ni],
            ) {
                Some(d) => rp[t] == render_spec(label, d.0, d.1, d.2, text),
                None => false,
            };
        assert(nodes[ni] == nodes.drop_last()[ni]);
        assert(r[t] == rp[t]);
        assert(match diag_of_node(nodes[ni]) {
            Some(d) => r[t] == render_spec(label, d.0, d.1, d.2, text),
            None => false,
        });
    } else {
        match diag_of_node(nodes.last()) {
            Some(d) => {
                assert(r[t] == render_spec(label, d.0, d.1, d.2, text));
                assert(nodes[nodes.len() - 1] == nodes.last());
            },
            None => {
                assert(r.len() == rp.len());
                assert(false);
            },
        }
    }
}

/// The queue entry at `w` is one of the bound test roots.
pub open spec fn from_roots(e: Engine, w: int) -> bool {
    exists|i: int| 0 <= i < e.label_ids@.len() && e.queue@[w] == (#[trigger] e.label_ids@[i])
}

/// Some interned path is the absolute path of the test-file string `t`, and
/// it is on the queue or already affected.
pub open spec fn root_covered(e: Engine, cwd: Seq<char>, t: Seq<char>) -> bool {
    exists|id: usize|
        (id as int) < e.n() && (#[trigger] e.paths@[id as int])@ == join_spec(cwd, t) && (
        e.queue@.contains(id) || e.affected@[id as int])
}

/// The frontier invariants survive a call that leaves paths, queue, rows and
/// edges as they were and only adds affected marks.
proof fn lemma_frontier_same(
    world: &SourceWorld,
    tf: Seq<String>,
    cwd: Seq<char>,
    mp: Seq<Seq<char>>,
    e1: Engine,
    e2: Engine,
)
    requires
        e2.paths@ == e1.paths@,
        e2.queue@ == e1.queue@,
        e2.deps_view() == e1.deps_view(),
        e2.edges@ == e1.edges@,
        e2.module_paths@ == e1.module_paths@,
        e2.cwd@ == e1.cwd@,
        e1.affected@.len() == e1.paths@.len(),
        e2.affected@.len() == e2.paths@.len(),
        forall|i: int| 0 <= i < e1.n() ==> ((#[trigger] e1.affected@[i]) ==> e2.affected@[i]),
        forall|j: int|
            0 <= j < tf.len() ==> root_covered(e1, cwd, (#[trigger] tf[j])@),
        forall|w: int|
            0 <= w < e1.queue@.len() ==> queued_ok(
                world,
                tf,
                cwd,
                mp,
                e1.paths@[(#[trigger] e1.queue@[w]) as int]@,
            ),
        forall|k: usize|
            (k as int) < e1.n() && (#[trigger] e1.deps_view()[k as int]).len() > 0
                && !has_component_spec(e1.paths@[k as int]@, mp) ==> (e1.affected@[k as int]
                || e1.queue@.contains(k)),
        forall|i: int|
            0 <= i < e1.edges@.len() ==> (e1.affected@[(#[trigger] e1.edges@[i]).1 as int]
                || e1.deps_view()[e1.edges@[i].1 as int].len() > 0),
        forall|i: int| 0 <= i < e1.edges@.len() ==> edge_tied(world, tf, e1, #[trigger] e1.edges@[i]),
    ensures
        forall|j: int|
            0 <= j < tf.len() ==> root_covered(e2, cwd, (#[trigger] tf[j])@),
        forall|w: int|
            0 <= w < e2.queue@.len() ==> queued_ok(
                world,
                tf,
                cwd,
                mp,
                e2.paths@[(#[trigger] e2.queue@[w]) as int]@,
            ),
        forall|k: usize|
            (k as int) < e2.n() && (#[trigger] e2.deps_view()[k as int]).len() > 0
                && !has_component_spec(e2.paths@[k as int]@, mp) ==> (e2.affected@[k as int]
                || e2.queue@.contains(k)),
        forall|i: int|
            0 <= i < e2.edges@.len() ==> (e2.affected@[(#[trigger] e2.edges@[i]).1 as int]
                || e2.deps_view()[e2.edges@[i].1 as int].len() > 0),
        forall|i: int| 0 <= i < e2.edges@.len() ==> edge_tied(world, tf, e2, #[trigger] e2.edges@[i]),
{
    assert(e2.n() == e1.n());
    assert forall|j: int| 0 <= j < tf.len() implies root_covered(
        e2,
        cwd,
        (#[trigger] tf[j])@,
    ) by {
        assert(root_covered(e1, cwd, tf[j]@));
        let id = choose|id: usize|
            (id as int) < e1.n() && (#[trigger] e1.paths@[id as int])@ == join_spec(
                cwd,
                tf[j]@,
            ) && (e1.queue@.contains(id) || e1.affected@[id as int]);
        assert((id as int) < e2.n() && e2.paths@[id as int]@ == join_spec(cwd, tf[j]@) && (
        e2.queue@.contains(id) || e2.affected@[id as int]));
    }
    assert forall|k: usize|
        (k as int) < e2.n() && (#[trigger] e2.deps_view()[k as int]).len() > 0
            && !has_component_spec(e2.paths@[k as int]@, mp) implies (e2.affected@[k as int]
        || e2.queue@.contains(k)) by {
        assert(e1.deps_view()[k as int].len() > 0);
    }
    assert forall|i: int| 0 <= i < e2.edges@.len() implies edge_tied(
        world,
        tf,
        e2,
        #[trigger] e2.edges@[i],
    ) by {
        assert(edge_tied(world, tf, e1, e1.edges@[i]));
        assert(e2.edges@[i] == e1.edges@[i]);
    }
}

/// The recorded parse and extractor diagnostics of one file stay among the
/// errors as the error list grows.
proof fn lemma_marks_persist(
    f: WorldFile,
    label: Seq<char>,
    errs1: Seq<String>,
    errs2: Seq<String>,
)
    requires
        errs1.len() <= errs2.len(),
        forall|i: int| 0 <= i < errs1.len() ==> #[trigger] errs2[i] == errs1[i],
        forall|di: int|
            0 <= di < f.parse_errors@.len() ==> seq_has_view(
                errs1,
                render_spec(
                    label,
                    (#[trigger] f.parse_errors@[di]).message@,
                    f.parse_errors@[di].start,
                    f.parse_errors@[di].end,
                    f.text@,
                ),
            ),
        forall|ni: int|
            0 <= ni < f.nodes@.len() ==> match diag_of_node(#[trigger] f.nodes@[ni]) {
                Some(d) => seq_has_view(errs1, render_spec(label, d.0, d.1, d.2, f.text@)),
                None => true,
            },
    ensures
        forall|di: int|
            0 <= di < f.parse_errors@.len() ==> seq_has_view(
                errs2,
                render_spec(
                    label,
                    (#[trigger] f.parse_errors@[di]).message@,
                    f.parse_errors@[di].start,
                    f.parse_errors@[di].end,
                    f.text@,
                ),
            ),
        forall|ni: int|
            0 <= ni < f.nodes@.len() ==> match diag_of_node(#[trigger] f.nodes@[ni]) {
                Some(d) => seq_has_view(errs2, render_spec(label, d.0, d.1, d.2, f.text@)),
                None => true,
            },
{
    assert forall|di: int| 0 <= di < f.parse_errors@.len() implies seq_has_view(
        errs2,
        render_spec(
            label,
            (#[trigger] f.parse_errors@[di]).message@,
            f.parse_errors@[di].start,
            f.parse_errors@[di].end,
            f.text@,
        ),
    ) by {
        lemma_has_view_grows(
            errs1,
            errs2,
            render_spec(
                label,
                f.parse_errors@[di].message@,
                f.parse_errors@[di].start,
                f.parse_errors@[di].end,
                f.text@,
            ),
        );
    }
    assert forall|ni: int| 0 <= ni < f.nodes@.len() implies match diag_of_node(
        #[trigger] f.nodes@[ni],
    ) {
        Some(d) => seq_has_view(errs2, render_spec(label, d.0, d.1, d.2, f.text@)),
        None => true,
    } by {
        match diag_of_node(f.nodes@[ni]) {
            Some(d) => {
                lemma_has_view_grows(errs1, errs2, render_spec(label, d.0, d.1, d.2, f.text@));
            },
            None => {},
        }
    }
}

/// Soundness of the traversal against the world: an affected path reaches a
/// changed path along a walk of the world's import graph.
#[verifier::rlimit(100)]
pub proof fn lemma_affected_reaches_world(
    world: &SourceWorld,
    tf: Seq<String>,
    cf: Seq<String>,
    e: Engine,
    k: usize,
)
    requires
        e.wf(),
        e.inv(),
        (k as int) < e.n(),
        e.affected@[k as int],
        forall|i: int| 0 <= i < e.edges@.len() ==> edge_tied(world, tf, e, #[trigger] e.edges@[i]),
        forall|i: int|
            0 <= i < e.n() ==> ((#[trigger] e.changed@[i]) <==> is_joined_of(
                cf,
                e.cwd@,
                e.paths@[i]@,
            )),
    ensures
        world_reaches(
            world,
            e.cwd@,
            tf,
            mp_views(e.module_paths@),
            cf,
            e.paths@[k as int]@,
        ),
{
    lemma_affected_iff_reaches(e, k);
    reveal(crate::graph::reaches_changed);
    let p = choose|p: Seq<usize>|
        crate::graph::is_edge_path(e.edges@, p) && p[0] == k && p.last() < e.changed@.len()
            && e.changed@[p.last() as int];
    crate::graph::lemma_path_nodes_wf(e.edges@, e.n(), p);
    let pp = Seq::new(p.len(), |i: int| e.paths@[p[i] as int]@);
    assert(pp.last() == e.paths@[p.last() as int]@);
    assert(is_joined_of(cf, e.cwd@, pp.last()));
    assert forall|i: int| 0 <= i < pp.len() - 1 implies world_edge(
        world,
        e.cwd@,
        #[trigger] pp[i],
        pp[i + 1],
    ) && source_kind_spec(pp[i]) by {
        assert(e.edges@.contains((p[i], p[i + 1])));
        let j = choose|j: int| 0 <= j < e.edges@.len() && e.edges@[j] == (p[i], p[i + 1]);
        assert(edge_tied(world, tf, e, e.edges@[j]));
    }
    assert forall|i: int| 1 <= i < pp.len() - 1 implies (is_joined_of(tf, e.cwd@, #[trigger] pp[i])
        || !has_component_spec(pp[i], mp_views(e.module_paths@))) by {
        assert(e.edges@.contains((p[i], p[i + 1])));
        let j = choose|j: int| 0 <= j < e.edges@.len() && e.edges@[j] == (p[i], p[i + 1]);
        assert(edge_tied(world, tf, e, e.edges@[j]));
    }
    assert(is_world_walk(world, e.cwd@, tf, mp_views(e.module_paths@), cf, pp));
    assert(pp[0] == e.paths@[k as int]@);
}

/// Completeness of the traversal against the world: once the queue has
/// drained, a queued or affected path from which a walk of the world's
/// import graph leads to a changed path carries the affected mark.
pub proof fn lemma_walk_reaches_affected(
    world: &SourceWorld,
    tf: Seq<String>,
    cf: Seq<String>,
    e: Engine,
    pp: Seq<Seq<char>>,
    id0: usize,
)
    requires
        e.wf(),
        e.inv(),
        world_wf(world, e.cwd@),
        e.head == e.queue@.len(),
        forall|w: int| 0 <= w < e.queue@.len() ==> handled(world, e, #[trigger] e.queue@[w]),
        forall|k: usize|
            (k as int) < e.n() && (#[trigger] e.deps_view()[k as int]).len() > 0
                && !has_component_spec(e.paths@[k as int]@, mp_views(e.module_paths@)) ==> (
            e.affected@[k as int] || e.queue@.contains(k)),
        forall|i: int|
            0 <= i < e.edges@.len() ==> (e.affected@[(#[trigger] e.edges@[i]).1 as int]
                || e.deps_view()[e.edges@[i].1 as int].len() > 0),
        forall|j: int| 0 <= j < tf.len() ==> root_covered(e, e.cwd@, (#[trigger] tf[j])@),
        forall|i: int|
            0 <= i < e.n() ==> ((#[trigger] e.changed@[i]) <==> is_joined_of(
                cf,
                e.cwd@,
                e.paths@[i]@,
            )),
        is_world_walk(world, e.cwd@, tf, mp_views(e.module_paths@), cf, pp),
        (id0 as int) < e.n(),
        e.paths@[id0 as int]@ == pp[0],
        e.queue@.contains(id0) || e.affected@[id0 as int],
    ensures
        e.affected@[id0 as int],
    decreases pp.len(),
{
    let cwd = e.cwd@;
    if pp.len() == 1 {
        assert(pp.last() == pp[0]);
        assert(is_joined_of(cf, cwd, e.paths@[id0 as int]@));
        assert(e.changed@[id0 as int]);
    } else if e.affected@[id0 as int] {
    } else {
        let w = choose|w: int| 0 <= w < e.queue@.len() && e.queue@[w] == id0;
        assert(handled(world, e, id0));
        assert(source_kind_spec(pp[0]));
        assert(file_recorded(world, cwd, e.paths@, e.edges@, e.errors@, id0));
        assert(world_edge(world, cwd, pp[0], pp[1]));
        let (wi, ri) = choose|wi: int, ri: int|
            0 <= wi < world.files@.len() && 0 <= ri < world.files@[wi].resolutions@.len()
                && join_spec(cwd, world.files@[wi].path@) == pp[0] && world.files@[wi].readable
                && specifier_set(world.files@[wi].nodes@).contains(
                (#[trigger] world.files@[wi].resolutions@[ri]).0@,
            ) && match world.files@[wi].resolutions@[ri].1 {
                ResolveOutcome::Resolved(t) => pp[1] == join_spec(cwd, t@),
                ResolveOutcome::BuiltinModule => false,
                ResolveOutcome::Failed(_) => false,
            };
        assert(file_body_recorded(
            world.files@[wi],
            cwd,
            e.paths@,
            e.edges@,
            e.errors@,
            id0,
            e.paths@[id0 as int]@,
        ));
        assert(resolution_recorded(
            cwd,
            e.paths@,
            e.edges@,
            e.errors@,
            id0,
            world.files@[wi].resolutions@[ri].1,
        ));
        match world.files@[wi].resolutions@[ri].1 {
            ResolveOutcome::Resolved(t) => {
                let b = choose|b: usize|
                    (b as int) < e.paths@.len() && (#[trigger] e.paths@[b as int])@ == join_spec(
                        cwd,
                        t@,
                    ) && e.edges@.contains((id0, b));
                assert(e.paths@[b as int]@ == pp[1]);
                if !e.affected@[b as int] {
                    let ie = choose|ie: int|
                        0 <= ie < e.edges@.len() && e.edges@[ie] == (id0, b);
                    assert(e.deps_view()[b as int].len() > 0);
                    if pp.len() == 2 {
                        assert(pp.last() == pp[1]);
                        assert(is_joined_of(cf, cwd, e.paths@[b as int]@));
                        assert(e.changed@[b as int]);
                        assert(false);
                    } else {
                        if is_joined_of(tf, cwd, pp[1]) {
                            let j = choose|j: int|
                                0 <= j < tf.len() && pp[1] == join_spec(cwd, (#[trigger] tf[j])@);
                            assert(root_covered(e, cwd, tf[j]@));
                            let id = choose|id: usize|
                                (id as int) < e.n() && (#[trigger] e.paths@[id as int])@
                                    == join_spec(cwd, tf[j]@) && (e.queue@.contains(id)
                                    || e.affected@[id as int]);
                            assert(e.paths@[id as int]@ == e.paths@[b as int]@);
                            if id != b {
                                if (id as int) < (b as int) {
                                    assert(e.paths@[id as int]@ != e.paths@[b as int]@);
                                } else {
                                    assert(e.paths@[b as int]@ != e.paths@[id as int]@);
                                }
                                assert(false);
                            }
                            assert(e.queue@.contains(b) || e.affected@[b as int]);
                        } else {
                            assert(!has_component_spec(pp[1], mp_views(e.module_paths@)));
                            assert(e.queue@.contains(b));
                        }
                        let qq = pp.subrange(1, pp.len() as int);
                        assert(qq.len() == pp.len() - 1);
                        assert(qq[0] == pp[1]);
                        assert(qq.last() == pp.last());
                        assert forall|i: int| 0 <= i < qq.len() - 1 implies world_edge(
                            world,
                            cwd,
                            #[trigger] qq[i],
                            qq[i + 1],
                        ) && source_kind_spec(qq[i]) by {
                            assert(qq[i] == pp[i + 1] && qq[i + 1] == pp[i + 2]);
                        }
                        assert forall|i: int| 1 <= i < qq.len() - 1 implies (is_joined_of(
                            tf,
                            cwd,
                            #[trigger] qq[i],
                        ) || !has_component_spec(qq[i], mp_views(e.module_paths@))) by {
                            assert(qq[i] == pp[i + 1]);
                        }
                        assert(is_world_walk(world, cwd, tf, mp_views(e.module_paths@), cf, qq));
                        lemma_walk_reaches_affected(world, tf, cf, e, qq, b);
                        assert(false);
                    }
                }
                // the importee is affected, so covering and closure pull the
                // mark back across the edge
                assert(e.edges@.contains((id0, b)));
                if !e.affected@[id0 as int] {
                    assert(e.deps_view()[b as int].contains(id0));
                    let jj = choose|jj: int|
                        0 <= jj < e.deps_view()[b as int].len() && e.deps_view()[b as int][jj]
                            == id0;
                    assert(e.affected@[e.deps_view()[b as int][jj] as int]);
                    assert(false);
                }
            },
            ResolveOutcome::BuiltinModule => {
                assert(false);
            },
            ResolveOutcome::Failed(_) => {
                assert(false);
            },
        }
    }
}

/// Monotonicity of the characterized report: two reports over the same world
/// and test files, the second over a changed set that includes the first's,
/// and the second report includes the first.
pub proof fn lemma_report_monotone(
    world: &SourceWorld,
    cwd: Seq<char>,
    tf: Seq<String>,
    mp: Seq<Seq<char>>,
    cf1: Seq<String>,
    cf2: Seq<String>,
    files1: Seq<String>,
    files2: Seq<String>,
)
    requires
        report_files_ok(world, cwd, tf, mp, cf1, files1),
        report_files_ok(world, cwd, tf, mp, cf2, files2),
        forall|j: int| 0 <= j < cf1.len() ==> seq_has_view(cf2, (#[trigger] cf1[j])@),
    ensures
        forall|y: int| 0 <= y < files1.len() ==> seq_has_view(files2, (#[trigger] files1[y])@),
{
    assert forall|y: int| 0 <= y < files1.len() implies seq_has_view(
        files2,
        (#[trigger] files1[y])@,
    ) by {
        let j = choose|j: int| 0 <= j < tf.len() && (#[trigger] tf[j])@ == files1[y]@;
        assert(seq_has_view(files1, tf[j]@));
        assert(world_reaches(world, cwd, tf, mp, cf1, join_spec(cwd, tf[j]@)));
        let pp = choose|pp: Seq<Seq<char>>|
            is_world_walk(world, cwd, tf, mp, cf1, pp) && pp[0] == join_spec(cwd, tf[j]@);
        let jj = choose|jj: int|
            0 <= jj < cf1.len() && pp.last() == join_spec(cwd, (#[trigger] cf1[jj])@);
        assert(seq_has_view(cf2, cf1[jj]@));
        let kk = choose|kk: int| 0 <= kk < cf2.len() && (#[trigger] cf2[kk])@ == cf1[jj]@;
        assert(pp.last() == join_spec(cwd, cf2[kk]@));
        assert(is_joined_of(cf2, cwd, pp.last()));
        assert(is_world_walk(world, cwd, tf, mp, cf2, pp));
        assert(world_reaches(world, cwd, tf, mp, cf2, join_spec(cwd, tf[j]@)));
        assert(seq_has_view(files2, tf[j]@));
        let z = choose|z: int| 0 <= z < files2.len() && (#[trigger] files2[z])@ == tf[j]@;
        assert(files2[z]@ == files1[y]@);
    }
}

/// Idempotence of the characterized report: two reports over identical
/// inputs hold the same test files.
pub proof fn lemma_report_same_inputs(
    world: &SourceWorld,
    cwd: Seq<char>,
    tf: Seq<String>,
    mp: Seq<Seq<char>>,
    cf: Seq<String>,
    files1: Seq<String>,
    files2: Seq<String>,
)
    requires
        report_files_ok(world, cwd, tf, mp, cf, files1),
        report_files_ok(world, cwd, tf, mp, cf, files2),
    ensures
        forall|y: int| 0 <= y < files1.len() ==> seq_has_view(files2, (#[trigger] files1[y])@),
        forall|y: int| 0 <= y < files2.len() ==> seq_has_view(files1, (#[trigger] files2[y])@),
{
    assert forall|j: int| 0 <= j < cf.len() implies seq_has_view(cf, (#[trigger] cf[j])@) by {
        assert(cf[j]@ == cf[j]@);
    }
    lemma_report_monotone(world, cwd, tf, mp, cf, cf, files1, files2);
    lemma_report_monotone(world, cwd, tf, mp, cf, cf, files2, files1);
}

/// Cycle safety, as indifference to the graph's shape: two worlds whose
/// import graphs reach the changed set from the same test roots - as a cyclic
/// graph and any acyclic refinement that preserves reachability do - are
/// reported identically.
pub proof fn lemma_report_reach_equiv(
    world1: &SourceWorld,
    world2: &SourceWorld,
    cwd: Seq<char>,
    tf: Seq<String>,
    mp: Seq<Seq<char>>,
    cf: Seq<String>,
    files1: Seq<String>,
    files2: Seq<String>,
)
    requires
        report_files_ok(world1, cwd, tf, mp, cf, files1),
        report_files_ok(world2, cwd, tf, mp, cf, files2),
        forall|j: int|
            0 <= j < tf.len() ==> (world_reaches(
                world1,
                cwd,
                tf,
                mp,
                cf,
                join_spec(cwd, (#[trigger] tf[j])@),
            ) <==> world_reaches(world2, cwd, tf, mp, cf, join_spec(cwd, tf[j]@))),
    ensures
        forall|y: int| 0 <= y < files1.len() ==> seq_has_view(files2, (#[trigger] files1[y])@),
        forall|y: int| 0 <= y < files2.len() ==> seq_has_view(files1, (#[trigger] files2[y])@),
{
    assert forall|y: int| 0 <= y < files1.len() implies seq_has_view(
        files2,
        (#[trigger] files1[y])@,
    ) by {
        let j = choose|j: int| 0 <= j < tf.len() && (#[trigger] tf[j])@ == files1[y]@;
        assert(seq_has_view(files1, tf[j]@));
        assert(seq_has_view(files2, tf[j]@));
        let z = choose|z: int| 0 <= z < files2.len() && (#[trigger] files2[z])@ == tf[j]@;
        assert(files2[z]@ == files1[y]@);
    }
    assert forall|y: int| 0 <= y < files2.len() implies seq_has_view(
        files1,
        (#[trigger] files2[y])@,
    ) by {
        let j = choose|j: int| 0 <= j < tf.len() && (#[trigger] tf[j])@ == files2[y]@;
        assert(seq_has_view(files2, tf[j]@));
        assert(seq_has_view(files1, tf[j]@));
        let z = choose|z: int| 0 <= z < files1.len() && (#[trigger] files1[z])@ == tf[j]@;
        assert(files1[z]@ == files2[y]@);
    }
}

/// Run one whole traversal over a world, handing back the finished engine.
///
/// On return the queue has drained and every dequeued path has been dealt
/// with: its file's diagnostics and unresolvable specifiers are among the
/// errors and its resolved specifiers are discovered edges, each tied to the
/// world's import graph. Together with [`lemma_walk_reaches_affected`] and
/// [`lemma_affected_reaches_world`] this pins the affected marks down as
/// reachability in the world.
#[verifier::loop_isolation(false)]
#[verifier::rlimit(100)]
pub fn explore(
    world: &SourceWorld,
    test_files: Vec<String>,
    changed_files: Vec<String>,
    module_paths: Vec<String>,
    cwd: String,
) -> (e: Engine)
    requires
        world_wf(world, cwd@),
    ensures
        e.wf(),
        e.inv(),
        e.cwd@ == cwd@,
        e.module_paths@ == module_paths@,
        e.current is None,
        e.head == e.queue@.len(),
        forall|i: int, j: int|
            #![trigger e.labels@[i], e.labels@[j]]
            0 <= i < j < e.labels@.len() ==> e.labels@[i]@ != e.labels@[j]@,
        forall|i: int|
            0 <= i < e.labels@.len() ==> seq_has_view(test_files@, (#[trigger] e.labels@[i])@),
        forall|j: int|
            0 <= j < test_files@.len() ==> seq_has_view(e.labels@, (#[trigger] test_files@[j])@),
        forall|i: int|
            0 <= i < e.labels@.len() ==> e.paths@[(#[trigger] e.label_ids@[i]) as int]@
                == join_spec(cwd@, e.labels@[i]@),
        forall|k: int|
            0 <= k < e.n() ==> ((#[trigger] e.changed@[k]) <==> is_joined_of(
                changed_files@,
                cwd@,
                e.paths@[k]@,
            )),
        forall|w: int| 0 <= w < e.queue@.len() ==> handled(world, e, #[trigger] e.queue@[w]),
        forall|k: usize|
            (k as int) < e.n() && (#[trigger] e.deps_view()[k as int]).len() > 0
                && !has_component_spec(e.paths@[k as int]@, mp_views(module_paths@)) ==> (
            e.affected@[k as int] || e.queue@.contains(k)),
        forall|i: int|
            0 <= i < e.edges@.len() ==> (e.affected@[(#[trigger] e.edges@[i]).1 as int]
                || e.deps_view()[e.edges@[i].1 as int].len() > 0),
        forall|j: int|
            0 <= j < test_files@.len() ==> root_covered(e, cwd@, (#[trigger] test_files@[j])@),
        forall|i: int|
            0 <= i < e.edges@.len() ==> edge_tied(world, test_files@, e, #[trigger] e.edges@[i]),
        forall|i: int|
            0 <= i < e.errors@.len() ==> error_justified(world, cwd@, test_files@, (#[trigger] e.errors@[i])@),
{
    let ghost cwd_v = cwd@;
    let ghost tf = test_files@;
    let ghost cf = changed_files@;
    let ghost mp = mp_views(module_paths@);
    let mut eng = Engine::new(cwd, module_paths, test_files, changed_files);
    let ghost s0 = eng;
    proof {
        assert forall|j: int| 0 <= j < tf.len() implies root_covered(eng, cwd_v, (#[trigger] tf[j])@) by {
            let i = choose|i: int|
                0 <= i < eng.labels@.len() && (#[trigger] eng.labels@[i])@ == tf[j]@;
            let id = eng.label_ids@[i];
            assert(eng.paths@[id as int]@ == join_spec(cwd_v, eng.labels@[i]@));
            if !eng.affected@[id as int] {
                assert(eng.queue@.contains(id));
            }
            assert((id as int) < eng.n() && eng.paths@[id as int]@ == join_spec(cwd_v, tf[j]@) && (
            eng.queue@.contains(id) || eng.affected@[id as int]));
        }
        assert forall|w: int| 0 <= w < eng.queue@.len() implies queued_ok(
            world,
            tf,
            cwd_v,
            mp,
            eng.paths@[(#[trigger] eng.queue@[w]) as int]@,
        ) by {
            assert(from_roots(eng, w));
            let i = choose|i: int|
                0 <= i < eng.label_ids@.len() && eng.queue@[w] == (
                #[trigger] eng.label_ids@[i]);
            assert(eng.paths@[eng.queue@[w] as int]@ == join_spec(cwd_v, eng.labels@[i]@));
            let j = choose|j: int| 0 <= j < tf.len() && (#[trigger] tf[j])@ == eng.labels@[i]@;
            assert(eng.paths@[eng.queue@[w] as int]@ == join_spec(cwd_v, tf[j]@));
            assert(is_joined_of(tf, cwd_v, eng.paths@[eng.queue@[w] as int]@));
        }
    }
    let mut done = false;
    while !done
        invariant
            eng.wf(),
            eng.inv(),
            !done ==> eng.current is None,
            done ==> (eng.current is None && eng.head == eng.queue@.len()),
            eng.cwd == s0.cwd,
            eng.module_paths == s0.module_paths,
            eng.labels == s0.labels,
            eng.label_ids == s0.label_ids,
            s0.n() <= eng.n(),
            forall|k: int| 0 <= k < s0.n() ==> #[trigger] eng.paths@[k] == s0.paths@[k],
            forall|k: int| 0 <= k < s0.n() ==> #[trigger] eng.changed@[k] == s0.changed@[k],
            forall|k: int| s0.n() <= k < eng.n() ==> !(#[trigger] eng.changed@[k]),
            forall|k: int| 0 <= k < s0.n() ==> (s0.affected@[k] ==> #[trigger] eng.affected@[k]),
            forall|j: int|
                0 <= j < tf.len() ==> root_covered(eng, cwd_v, (#[trigger] tf[j])@),
            forall|w: int|
                0 <= w < eng.queue@.len() ==> queued_ok(
                    world,
                    tf,
                    cwd_v,
                    mp,
                    eng.paths@[(#[trigger] eng.queue@[w]) as int]@,
                ),
            forall|w: int| 0 <= w < eng.head ==> handled(world, eng, #[trigger] eng.queue@[w]),
            forall|k: usize|
                (k as int) < eng.n() && (#[trigger] eng.deps_view()[k as int]).len() > 0
                    && !has_component_spec(eng.paths@[k as int]@, mp) ==> (eng.affected@[k as int]
                    || eng.queue@.contains(k)),
            forall|i: int|
                0 <= i < eng.edges@.len() ==> (eng.affected@[(#[trigger] eng.edges@[i]).1 as int]
                    || eng.deps_view()[eng.edges@[i].1 as int].len() > 0),
            forall|i: int|
                0 <= i < eng.edges@.len() ==> edge_tied(world, tf, eng, #[trigger] eng.edges@[i]),
            forall|i: int|
                0 <= i < eng.errors@.len() ==> error_justified(
                    world,
                    cwd_v,
                    tf,
                    (#[trigger] eng.errors@[i])@,
                ),
        decreases explore_measure(world, eng), (if done { 0int } else { 1int }),
    {
        let ghost m_start = explore_measure(world, eng);
        let ghost pre_nf = eng;
        let next = eng.next_file();
        proof {
            assert(eng.dependents == pre_nf.dependents);
            assert(eng.deps_view() == pre_nf.deps_view());
            assert(eng.paths@ == pre_nf.paths@);
            assert(explore_measure(world, eng) == m_start - (eng.head - pre_nf.head));
            assert(engine_grows(pre_nf, eng));
            assert(eng.queue@ == pre_nf.queue@);
            assert(eng.edges@ == pre_nf.edges@);
            assert(eng.module_paths@ == pre_nf.module_paths@);
            lemma_frontier_same(world, tf, cwd_v, mp, pre_nf, eng);
            assert forall|w: int|
                0 <= w < eng.head && !(eng.current is Some && w == eng.head - 1) implies handled(
                world,
                eng,
                #[trigger] eng.queue@[w],
            ) by {
                if w < pre_nf.head {
                    lemma_handled_grows(world, pre_nf, eng, pre_nf.queue@[w]);
                } else {
                    assert(eng.affected@[eng.queue@[w] as int] || !source_kind_spec(
                        eng.paths@[eng.queue@[w] as int]@,
                    ));
                }
            }
        }
        match next {
            None => {
                done = true;
            },
            Some(path) => {
                let ghost h0 = eng.head;
                let ghost cur_u: usize = eng.queue@[h0 - 1];
                let ghost m1 = explore_measure(world, eng);
                proof {
                    assert(eng.cur() == cur_u as int);
                    assert(m1 <= m_start - 1);
                    assert(path@ == eng.paths@[cur_u as int]@);
                    assert(!eng.affected@[cur_u as int]);
                    assert(source_kind_spec(path@));
                }
                match world_find(world, eng.cwd.as_str(), path.as_str()) {
                    None => {
                        let ghost pre_u = eng;
                        eng.report_unreadable();
                        proof {
                            assert(engine_grows(pre_u, eng));
                            assert(eng.queue@ == pre_u.queue@);
                            assert(eng.deps_view() == pre_u.deps_view());
                            assert(eng.paths@ == pre_u.paths@);
                            assert(eng.edges@ == pre_u.edges@);
                            lemma_frontier_same(world, tf, cwd_v, mp, pre_u, eng);
                            assert(!readable_at(world, cwd_v, eng.paths@[cur_u as int]@));
                            assert(eng.errors@.last()@ == cannot_read_msg(
                                eng.paths@[cur_u as int]@,
                            ));
                            assert(seq_has_view(
                                eng.errors@,
                                cannot_read_msg(eng.paths@[cur_u as int]@),
                            ));
                            assert(file_recorded(
                                world,
                                cwd_v,
                                eng.paths@,
                                eng.edges@,
                                eng.errors@,
                                cur_u,
                            ));
                            assert forall|w: int| 0 <= w < eng.head implies handled(
                                world,
                                eng,
                                #[trigger] eng.queue@[w],
                            ) by {
                                if w == h0 - 1 {
                                    assert(handled(world, eng, cur_u));
                                } else {
                                    lemma_handled_grows(world, pre_u, eng, pre_u.queue@[w]);
                                }
                            }
                            assert(eng.queue@[h0 - 1] == cur_u);
                            assert(queued_ok(world, tf, cwd_v, mp, eng.paths@[cur_u as int]@));
                            assert forall|i: int| 0 <= i < eng.errors@.len() implies error_justified(
                                world,
                                cwd_v,
                                tf,
                                (#[trigger] eng.errors@[i])@,
                            ) by {
                                if i == eng.errors@.len() - 1 {
                                    assert(eng.errors@[i]@ == cannot_read_msg(
                                        eng.paths@[cur_u as int]@,
                                    ));
                                    assert(is_joined_of(tf, cwd_v, eng.paths@[cur_u as int]@)
                                        || world_importee(world, cwd_v, eng.paths@[cur_u as int]@));
                                } else {
                                    assert(eng.errors@[i] == pre_u.errors@[i]);
                                }
                            }
                            assert(explore_measure(world, eng) == m1);
                        }
                    },
                    Some(wi) => {
                        if !world.files[wi].readable {
                            let ghost pre_u = eng;
                            eng.report_unreadable();
                            proof {
                                assert(engine_grows(pre_u, eng));
                                assert(eng.queue@ == pre_u.queue@);
                                assert(eng.deps_view() == pre_u.deps_view());
                                assert(eng.paths@ == pre_u.paths@);
                                assert(eng.edges@ == pre_u.edges@);
                                lemma_frontier_same(world, tf, cwd_v, mp, pre_u, eng);
                                assert(join_spec(cwd_v, world.files@[wi as int].path@)
                                    == eng.paths@[cur_u as int]@);
                                assert forall|wj: int|
                                    0 <= wj < world.files@.len() && join_spec(
                                        cwd_v,
                                        (#[trigger] world.files@[wj]).path@,
                                    ) == eng.paths@[cur_u as int]@ implies !world.files@[wj].readable by {
                                    if wj != wi as int {
                                        if wj < wi as int {
                                            assert(join_spec(cwd_v, world.files@[wj].path@)
                                                != join_spec(
                                                cwd_v,
                                                world.files@[wi as int].path@,
                                            ));
                                        } else {
                                            assert(join_spec(
                                                cwd_v,
                                                world.files@[wi as int].path@,
                                            ) != join_spec(cwd_v, world.files@[wj].path@));
                                        }
                                        assert(false);
                                    }
                                }
                                assert(!readable_at(world, cwd_v, eng.paths@[cur_u as int]@));
                                assert(eng.errors@.last()@ == cannot_read_msg(
                                    eng.paths@[cur_u as int]@,
                                ));
                                assert(seq_has_view(
                                    eng.errors@,
                                    cannot_read_msg(eng.paths@[cur_u as int]@),
                                ));
                                assert(file_recorded(
                                    world,
                                    cwd_v,
                                    eng.paths@,
                                    eng.edges@,
                                    eng.errors@,
                                    cur_u,
                                ));
                                assert forall|w: int| 0 <= w < eng.head implies handled(
                                    world,
                                    eng,
                                    #[trigger] eng.queue@[w],
                                ) by {
                                    if w == h0 - 1 {
                                        assert(handled(world, eng, cur_u));
                                    } else {
                                        lemma_handled_grows(world, pre_u, eng, pre_u.queue@[w]);
                                    }
                                }
                                assert(eng.queue@[h0 - 1] == cur_u);
                                assert(queued_ok(
                                    world,
                                    tf,
                                    cwd_v,
                                    mp,
                                    eng.paths@[cur_u as int]@,
                                ));
                                assert forall|i: int|
                                    0 <= i < eng.errors@.len() implies error_justified(
                                    world,
                                    cwd_v,
                                    tf,
                                    (#[trigger] eng.errors@[i])@,
                                ) by {
                                    if i == eng.errors@.len() - 1 {
                                        assert(eng.errors@[i]@ == cannot_read_msg(
                                            eng.paths@[cur_u as int]@,
                                        ));
                                        assert(is_joined_of(tf, cwd_v, eng.paths@[cur_u as int]@)
                                            || world_importee(
                                            world,
                                            cwd_v,
                                            eng.paths@[cur_u as int]@,
                                        ));
                                    } else {
                                        assert(eng.errors@[i] == pre_u.errors@[i]);
                                    }
                                }
                                assert(explore_measure(world, eng) == m1);
                            }
                        } else {
                            let ir = crate::extract::collect_imports(
                                &world.files[wi].nodes,
                                &world.files[wi].parse_errors,
                                eng.cwd.as_str(),
                                Some(path.as_str()),
                                world.files[wi].text.as_str(),
                            );
                            let ghost ir_errs = ir.errors@;
                            let ghost pre_e = eng;
                            eng.record_errors(ir.errors);
                            let ghost f = world.files@[wi as int];
                            let ghost label = rel_label_spec(cwd_v, path@);
                            proof {
                                assert(engine_grows(pre_e, eng));
                                assert(eng.queue@ == pre_e.queue@);
                                assert(eng.deps_view() == pre_e.deps_view());
                                assert(eng.paths@ == pre_e.paths@);
                                assert(eng.edges@ == pre_e.edges@);
                                lemma_frontier_same(world, tf, cwd_v, mp, pre_e, eng);
                                assert(eng.errors@ == pre_e.errors@ + ir_errs);
                                let parse_r = crate::extract::rendered_parse_errors(
                                    f.parse_errors@,
                                    label,
                                    f.text@,
                                );
                                let node_r = crate::extract::rendered_node_errors(
                                    f.nodes@,
                                    label,
                                    f.text@,
                                );
                                assert(ir_errs.map_values(|s: String| s@) == parse_r + node_r);
                                assert(ir_errs.map_values(|s: String| s@).len() == ir_errs.len());
                                assert(ir_errs.len() == parse_r.len() + node_r.len());
                                assert(parse_r.len() == f.parse_errors@.len());
                                assert forall|di: int|
                                    0 <= di < f.parse_errors@.len() implies seq_has_view(
                                    eng.errors@,
                                    render_spec(
                                        label,
                                        (#[trigger] f.parse_errors@[di]).message@,
                                        f.parse_errors@[di].start,
                                        f.parse_errors@[di].end,
                                        f.text@,
                                    ),
                                ) by {
                                    let idx = pre_e.errors@.len() + di;
                                    assert(eng.errors@[idx as int] == ir_errs[di]);
                                    assert(ir_errs.map_values(|s: String| s@)[di] == ir_errs[di]@);
                                    assert((parse_r + node_r)[di] == parse_r[di]);
                                    assert(parse_r[di] == render_spec(
                                        label,
                                        f.parse_errors@[di].message@,
                                        f.parse_errors@[di].start,
                                        f.parse_errors@[di].end,
                                        f.text@,
                                    ));
                                }
                                assert forall|ni: int|
                                    0 <= ni < f.nodes@.len() implies match diag_of_node(
                                    #[trigger] f.nodes@[ni],
                                ) {
                                    Some(d) => seq_has_view(
                                        eng.errors@,
                                        render_spec(label, d.0, d.1, d.2, f.text@),
                                    ),
                                    None => true,
                                } by {
                                    match diag_of_node(f.nodes@[ni]) {
                                        Some(d) => {
                                            lemma_node_error_present(
                                                f.nodes@,
                                                label,
                                                f.text@,
                                                ni,
                                                d.0,
                                                d.1,
                                                d.2,
                                            );
                                            let t = choose|t: int|
                                                0 <= t < node_r.len() && node_r[t] == render_spec(
                                                    label,
                                                    d.0,
                                                    d.1,
                                                    d.2,
                                                    f.text@,
                                                );
                                            let idx = pre_e.errors@.len() + parse_r.len() + t;
                                            assert(eng.errors@[idx as int] == ir_errs[parse_r.len()
                                                + t]);
                                            assert(ir_errs.map_values(|s: String| s@)[parse_r.len()
                                                + t] == ir_errs[parse_r.len() + t]@);
                                            assert((parse_r + node_r)[parse_r.len() + t]
                                                == node_r[t]);
                                            assert(eng.errors@[idx as int]@ == render_spec(
                                                label,
                                                d.0,
                                                d.1,
                                                d.2,
                                                f.text@,
                                            ));
                                        },
                                        None => {},
                                    }
                                }
                                assert forall|i: int|
                                    0 <= i < eng.errors@.len() implies error_justified(
                                    world,
                                    cwd_v,
                                    tf,
                                    (#[trigger] eng.errors@[i])@,
                                ) by {
                                    if i < pre_e.errors@.len() {
                                        assert(eng.errors@[i] == pre_e.errors@[i]);
                                    } else {
                                        let t = i - pre_e.errors@.len();
                                        assert(eng.errors@[i] == ir_errs[t]);
                                        assert(ir_errs.map_values(|s: String| s@)[t]
                                            == ir_errs[t]@);
                                        assert(join_spec(cwd_v, f.path@) == path@);
                                        assert(label == rel_label_spec(
                                            cwd_v,
                                            join_spec(cwd_v, f.path@),
                                        ));
                                        if t < parse_r.len() {
                                            assert((parse_r + node_r)[t] == parse_r[t]);
                                            assert(eng.errors@[i]@ == render_spec(
                                                label,
                                                f.parse_errors@[t].message@,
                                                f.parse_errors@[t].start,
                                                f.parse_errors@[t].end,
                                                f.text@,
                                            ));
                                        } else {
                                            let t2 = t - parse_r.len();
                                            assert((parse_r + node_r)[t] == node_r[t2]);
                                            lemma_node_error_source(f.nodes@, label, f.text@, t2);
                                            let ni = choose|ni: int|
                                                0 <= ni < f.nodes@.len() && match diag_of_node(
                                                    #[trigger] f.nodes@[ni],
                                                ) {
                                                    Some(d) => node_r[t2] == render_spec(
                                                        label,
                                                        d.0,
                                                        d.1,
                                                        d.2,
                                                        f.text@,
                                                    ),
                                                    None => false,
                                                };
                                            assert(error_justified(
                                                world,
                                                cwd_v,
                                                tf,
                                                eng.errors@[i]@,
                                            ));
                                        }
                                    }
                                }
                                assert forall|w: int| 0 <= w < eng.head - 1 implies handled(
                                    world,
                                    eng,
                                    #[trigger] eng.queue@[w],
                                ) by {
                                    lemma_handled_grows(world, pre_e, eng, pre_e.queue@[w]);
                                }
                                assert(explore_measure(world, eng) == m1);
                            }
                            let specs = ir.imports_paths;
                            let ghost specs_v = specs@;
                            proof {
                                assert(specs_v.map_values(|s: String| s@).to_set()
                                    == specifier_set(f.nodes@));
                            }
                            let mut si: usize = 0;
                            while si < specs.len()
                                invariant
                                    si <= specs@.len(),
                                    specs@ == specs_v,
                                    eng.wf(),
                                    eng.inv(),
                                    eng.current is Some,
                                    eng.cur() == cur_u as int,
                                    eng.cwd == s0.cwd,
                                    eng.module_paths == s0.module_paths,
                                    eng.labels == s0.labels,
                                    eng.label_ids == s0.label_ids,
                                    eng.head == h0,
                                    s0.n() <= eng.n(),
                                    (cur_u as int) < eng.n(),
                                    eng.paths@[cur_u as int]@ == path@,
                                    h0 - 1 < eng.queue@.len(),
                                    eng.queue@[h0 - 1] == cur_u,
                                    forall|k: int|
                                        0 <= k < s0.n() ==> #[trigger] eng.paths@[k]
                                            == s0.paths@[k],
                                    forall|k: int|
                                        0 <= k < s0.n() ==> #[trigger] eng.changed@[k]
                                            == s0.changed@[k],
                                    forall|k: int|
                                        s0.n() <= k < eng.n() ==> !(#[trigger] eng.changed@[k]),
                                    forall|k: int|
                                        0 <= k < s0.n() ==> (s0.affected@[k]
                                            ==> #[trigger] eng.affected@[k]),
                                    forall|j: int|
                                        0 <= j < tf.len() ==> root_covered(
                                            eng,
                                            cwd_v,
                                            (#[trigger] tf[j])@,
                                        ),
                                    forall|w: int|
                                        0 <= w < eng.queue@.len() ==> queued_ok(
                                            world,
                                            tf,
                                            cwd_v,
                                            mp,
                                            eng.paths@[(#[trigger] eng.queue@[w]) as int]@,
                                        ),
                                    forall|w: int|
                                        0 <= w < eng.head - 1 ==> handled(
                                            world,
                                            eng,
                                            #[trigger] eng.queue@[w],
                                        ),
                                    forall|k: usize|
                                        (k as int) < eng.n() && (
                                        #[trigger] eng.deps_view()[k as int]).len() > 0
                                            && !has_component_spec(eng.paths@[k as int]@, mp)
                                            ==> (eng.affected@[k as int] || eng.queue@.contains(
                                            k,
                                        )),
                                    forall|i: int|
                                        0 <= i < eng.edges@.len() ==> (eng.affected@[(
                                        #[trigger] eng.edges@[i]).1 as int] || eng.deps_view()[
                                            eng.edges@[i].1 as int
                                        ].len() > 0),
                                    forall|i: int|
                                        0 <= i < eng.edges@.len() ==> edge_tied(
                                            world,
                                            tf,
                                            eng,
                                            #[trigger] eng.edges@[i],
                                        ),
                                    forall|i: int|
                                        0 <= i < eng.errors@.len() ==> error_justified(
                                            world,
                                            cwd_v,
                                                tf,
                                            (#[trigger] eng.errors@[i])@,
                                        ),
                                    explore_measure(world, eng) <= m1,
                                    source_kind_spec(path@),
                                    (wi as int) < world.files@.len(),
                                    f == world.files@[wi as int],
                                    join_spec(cwd_v, f.path@) == path@,
                                    f.readable,
                                    label == rel_label_spec(cwd_v, path@),
                                    specs_v.map_values(|s: String| s@).to_set() == specifier_set(
                                        f.nodes@,
                                    ),
                                    forall|di: int|
                                        0 <= di < f.parse_errors@.len() ==> seq_has_view(
                                            eng.errors@,
                                            render_spec(
                                                label,
                                                (#[trigger] f.parse_errors@[di]).message@,
                                                f.parse_errors@[di].start,
                                                f.parse_errors@[di].end,
                                                f.text@,
                                            ),
                                        ),
                                    forall|ni: int|
                                        0 <= ni < f.nodes@.len() ==> match diag_of_node(
                                            #[trigger] f.nodes@[ni],
                                        ) {
                                            Some(d) => seq_has_view(
                                                eng.errors@,
                                                render_spec(label, d.0, d.1, d.2, f.text@),
                                            ),
                                            None => true,
                                        },
                                    forall|ri2: int|
                                        0 <= ri2 < f.resolutions@.len() && (exists|x: int|
                                            0 <= x < si && (#[trigger] specs_v[x])@ == f.resolutions@[ri2].0@)
                                            ==> resolution_recorded(
                                            cwd_v,
                                            eng.paths@,
                                            eng.edges@,
                                            eng.errors@,
                                            cur_u,
                                            (#[trigger] f.resolutions@[ri2]).1,
                                        ),
                                    forall|s: Seq<char>|
                                        #![trigger has_resolution(f, s)]
                                        specifier_set(f.nodes@).contains(s) && !has_resolution(
                                            f,
                                            s,
                                        ) && (exists|x: int|
                                            0 <= x < si && (#[trigger] specs_v[x])@ == s)
                                            ==> seq_has_view(eng.errors@, cannot_find_msg(s)),
                                decreases specs@.len() - si,
                            {
                                let ghost pre_s = eng;
                                let ghost s_cur = specs@[si as int]@;
                                proof {
                                    assert(specs_v.map_values(|s: String| s@)[si as int] == s_cur);
                                    assert(specs_v.map_values(|s: String| s@).to_set().contains(
                                        s_cur,
                                    ));
                                    assert(specifier_set(f.nodes@).contains(s_cur));
                                }
                                match world_resolution_index(&world.files[wi], specs[si].as_str()) {
                                    Some(ri) => {
                                        eng.record_resolution(&world.files[wi].resolutions[ri].1);
                                        proof {
                                            assert(f.resolutions@[ri as int].0@ == s_cur);
                                            let oc = f.resolutions@[ri as int].1;
                                            assert(engine_grows(pre_s, eng));
                                            assert forall|w: int|
                                                0 <= w < eng.head - 1 implies handled(
                                                world,
                                                eng,
                                                #[trigger] eng.queue@[w],
                                            ) by {
                                                assert(eng.queue@[w] == pre_s.queue@[w]);
                                                lemma_handled_grows(
                                                    world,
                                                    pre_s,
                                                    eng,
                                                    pre_s.queue@[w],
                                                );
                                            }
                                            lemma_marks_persist(
                                                f,
                                                label,
                                                pre_s.errors@,
                                                eng.errors@,
                                            );
                                            if eng.edges@.len() == pre_s.edges@.len() {
                                                // no edge: builtin or failure
                                                assert(eng.deps_view() == pre_s.deps_view());
                                                assert(eng.queue@ == pre_s.queue@);
                                                assert(eng.paths@ == pre_s.paths@);
                                                assert(eng.edges@ =~= pre_s.edges@);
                                                assert(explore_measure(world, eng) <= m1);
                                                lemma_frontier_same(
                                                    world,
                                                    tf,
                                                    cwd_v,
                                                    mp,
                                                    pre_s,
                                                    eng,
                                                );
                                            } else {
                                                let qid = eng.edges@.last().1;
                                                assert(eng.edges@.last().0 == cur_u);
                                                match oc {
                                                    ResolveOutcome::Resolved(t) => {
                                                        assert(eng.paths@[qid as int]@
                                                            == join_spec(cwd_v, t@));
                                                        // the fresh edge is a world edge
                                                        assert(world_edge(
                                                            world,
                                                            cwd_v,
                                                            eng.paths@[cur_u as int]@,
                                                            eng.paths@[qid as int]@,
                                                        ));
                                                        // importer was drawn from the queue
                                                        assert(queued_ok(
                                                            world,
                                                            tf,
                                                            cwd_v,
                                                            mp,
                                                            eng.paths@[cur_u as int]@,
                                                        ));
                                                        assert(is_joined_of(
                                                            tf,
                                                            cwd_v,
                                                            eng.paths@[cur_u as int]@,
                                                        ) || !has_component_spec(
                                                            eng.paths@[cur_u as int]@,
                                                            mp,
                                                        ));
                                                        assert(edge_tied(
                                                            world,
                                                            tf,
                                                            eng,
                                                            eng.edges@.last(),
                                                        ));
                                                        assert forall|i: int|
                                                            0 <= i
                                                                < eng.edges@.len() implies edge_tied(
                                                            world,
                                                            tf,
                                                            eng,
                                                            #[trigger] eng.edges@[i],
                                                        ) by {
                                                            if i < pre_s.edges@.len() {
                                                                assert(eng.edges@[i]
                                                                    == pre_s.edges@[i]);
                                                                assert(edge_tied(
                                                                    world,
                                                                    tf,
                                                                    pre_s,
                                                                    pre_s.edges@[i],
                                                                ));
                                                                assert(eng.paths@[pre_s.edges@[i].0 as int]
                                                                    == pre_s.paths@[pre_s.edges@[i].0 as int]);
                                                                assert(eng.paths@[pre_s.edges@[i].1 as int]
                                                                    == pre_s.paths@[pre_s.edges@[i].1 as int]);
                                                            } else {
                                                                assert(eng.edges@[i]
                                                                    == eng.edges@.last());
                                                            }
                                                        }
                                                        // measure bookkeeping
                                                        let occ_pre = occupied(pre_s.deps_view());
                                                        let occ_post = occupied(eng.deps_view());
                                                        assert forall|v: Seq<char>| #[trigger]
                                                            seq_has_view(
                                                                pre_s.paths@,
                                                                v,
                                                            ) implies seq_has_view(
                                                            eng.paths@,
                                                            v,
                                                        ) by {
                                                            lemma_has_view_grows(
                                                                pre_s.paths@,
                                                                eng.paths@,
                                                                v,
                                                            );
                                                        }
                                                        if eng.n() == pre_s.n() + 1 {
                                                            assert(qid as int == pre_s.n());
                                                            assert(!seq_has_view(
                                                                pre_s.paths@,
                                                                join_spec(cwd_v, t@),
                                                            ));
                                                            assert(seq_has_view(
                                                                eng.paths@,
                                                                join_spec(cwd_v, t@),
                                                            ));
                                                            lemma_count_fresh_strict(
                                                                world,
                                                                cwd_v,
                                                                pre_s.paths@,
                                                                eng.paths@,
                                                                wi as int,
                                                                ri as int,
                                                                t@,
                                                            );
                                                            assert(occ_post =~= occ_pre.push(
                                                                true,
                                                            ));
                                                            crate::graph::lemma_count_false_push(
                                                                occ_pre,
                                                                true,
                                                            );
                                                            assert(explore_measure(world, eng)
                                                                <= m1);
                                                        } else {
                                                            assert(eng.paths@ == pre_s.paths@);
                                                            lemma_fresh_upto_monotone(
                                                                world,
                                                                cwd_v,
                                                                pre_s.paths@,
                                                                eng.paths@,
                                                                world.files@.len() as int,
                                                            );
                                                            if eng.deps_view()
                                                                == pre_s.deps_view() {
                                                                assert(eng.queue@
                                                                    == pre_s.queue@);
                                                                assert(explore_measure(
                                                                    world,
                                                                    eng,
                                                                ) <= m1);
                                                            } else {
                                                                if pre_s.deps_view()[qid as int].len()
                                                                    == 0 {
                                                                    assert(occ_post
                                                                        =~= occ_pre.update(
                                                                        qid as int,
                                                                        true,
                                                                    ));
                                                                    assert(!occ_pre[qid as int]);
                                                                    lemma_count_false_update(
                                                                        occ_pre,
                                                                        qid as int,
                                                                    );
                                                                    assert(explore_measure(
                                                                        world,
                                                                        eng,
                                                                    ) <= m1);
                                                                } else {
                                                                    assert(occ_post =~= occ_pre);
                                                                    assert(eng.queue@
                                                                        == pre_s.queue@);
                                                                    assert(explore_measure(
                                                                        world,
                                                                        eng,
                                                                    ) <= m1);
                                                                }
                                                            }
                                                        }
                                                    },
                                                    ResolveOutcome::BuiltinModule => {
                                                        assert(false);
                                                    },
                                                    ResolveOutcome::Failed(_) => {
                                                        assert(false);
                                                    },
                                                }
                                            }
                                            // frontier coverage
                                            assert forall|k: usize|
                                                (k as int) < eng.n() && (
                                                #[trigger] eng.deps_view()[k as int]).len() > 0
                                                    && !has_component_spec(
                                                    eng.paths@[k as int]@,
                                                    mp,
                                                ) implies (eng.affected@[k as int]
                                                || eng.queue@.contains(k)) by {
                                                if eng.edges@.len() == pre_s.edges@.len() + 1 && (
                                                k as int) == eng.edges@.last().1 as int {
                                                    if eng.deps_view() == pre_s.deps_view()
                                                        && eng.queue@ == pre_s.queue@
                                                        && eng.affected@[eng.edges@.last().1 as int] {
                                                    } else {
                                                        if (k as int) < pre_s.n()
                                                            && pre_s.deps_view()[k as int].len()
                                                            > 0 {
                                                            assert(pre_s.paths@[k as int]
                                                                == eng.paths@[k as int]);
                                                            if pre_s.affected@[k as int] {
                                                            } else {
                                                                let wq = choose|wq: int|
                                                                    0 <= wq
                                                                        < pre_s.queue@.len()
                                                                        && pre_s.queue@[wq] == k;
                                                                assert(eng.queue@[wq] == k);
                                                                assert(eng.queue@.contains(k));
                                                            }
                                                        } else {
                                                            assert(eng.queue@
                                                                == pre_s.queue@.push(k));
                                                            assert(eng.queue@[eng.queue@.len()
                                                                - 1] == k);
                                                            assert(eng.queue@.contains(k));
                                                        }
                                                    }
                                                } else {
                                                    assert(eng.deps_view()[k as int]
                                                        == pre_s.deps_view()[k as int]);
                                                    assert(eng.paths@[k as int]
                                                        == pre_s.paths@[k as int]);
                                                    if pre_s.affected@[k as int] {
                                                    } else {
                                                        let wq = choose|wq: int|
                                                            0 <= wq < pre_s.queue@.len()
                                                                && pre_s.queue@[wq] == k;
                                                        assert(eng.queue@[wq] == k);
                                                        assert(eng.queue@.contains(k));
                                                    }
                                                }
                                            }
                                            // every edge keeps an affected importee or a row
                                            assert forall|i: int|
                                                0 <= i < eng.edges@.len() implies (eng.affected@[(
                                            #[trigger] eng.edges@[i]).1 as int]
                                                || eng.deps_view()[eng.edges@[i].1 as int].len()
                                                > 0) by {
                                                if i < pre_s.edges@.len() {
                                                    assert(eng.edges@[i] == pre_s.edges@[i]);
                                                    if !pre_s.affected@[pre_s.edges@[i].1 as int] {
                                                        if eng.edges@.len() == pre_s.edges@.len()
                                                            + 1 && pre_s.edges@[i].1
                                                            == eng.edges@.last().1 {
                                                        } else {
                                                            assert(eng.deps_view()[eng.edges@[i].1 as int]
                                                                == pre_s.deps_view()[pre_s.edges@[i].1 as int]);
                                                        }
                                                    }
                                                }
                                            }
                                            // queue provenance
                                            assert forall|w: int|
                                                0 <= w < eng.queue@.len() implies queued_ok(
                                                world,
                                                tf,
                                                cwd_v,
                                                mp,
                                                eng.paths@[(#[trigger] eng.queue@[w]) as int]@,
                                            ) by {
                                                if w < pre_s.queue@.len() {
                                                    assert(eng.queue@[w] == pre_s.queue@[w]);
                                                    assert(eng.paths@[pre_s.queue@[w] as int]
                                                        == pre_s.paths@[pre_s.queue@[w] as int]);
                                                    assert(queued_ok(
                                                        world,
                                                        tf,
                                                        cwd_v,
                                                        mp,
                                                        pre_s.paths@[pre_s.queue@[w] as int]@,
                                                    ));
                                                } else {
                                                    assert(eng.queue@.last()
                                                        == eng.edges@.last().1);
                                                    assert(!has_component_spec(
                                                        eng.paths@[eng.queue@[w] as int]@,
                                                        mp,
                                                    ));
                                                    match oc {
                                                        ResolveOutcome::Resolved(t) => {
                                                            assert(eng.paths@[eng.queue@[w] as int]@
                                                                == join_spec(cwd_v, t@));
                                                            assert(world_importee(
                                                                world,
                                                                cwd_v,
                                                                eng.paths@[eng.queue@[w] as int]@,
                                                            ));
                                                        },
                                                        _ => {
                                                            assert(false);
                                                        },
                                                    }
                                                }
                                            }
                                            // roots stay covered
                                            assert forall|j: int| 0 <= j < tf.len() implies root_covered(
                                                eng,
                                                cwd_v,
                                                (#[trigger] tf[j])@,
                                            ) by {
                                                assert(root_covered(pre_s, cwd_v, tf[j]@));
                                                let id = choose|id: usize|
                                                    (id as int) < pre_s.n() && (
                                                    #[trigger] pre_s.paths@[id as int])@
                                                        == join_spec(cwd_v, tf[j]@) && (
                                                    pre_s.queue@.contains(id)
                                                        || pre_s.affected@[id as int]);
                                                assert(eng.paths@[id as int]
                                                    == pre_s.paths@[id as int]);
                                                if pre_s.affected@[id as int] {
                                                    assert(eng.affected@[id as int]);
                                                } else {
                                                    let wq = choose|wq: int|
                                                        0 <= wq < pre_s.queue@.len()
                                                            && pre_s.queue@[wq] == id;
                                                    assert(eng.queue@[wq] == id);
                                                    assert(eng.queue@.contains(id));
                                                }
                                                assert((id as int) < eng.n() && (
                                                #[trigger] eng.paths@[id as int])@ == join_spec(
                                                    cwd_v,
                                                    tf[j]@,
                                                ) && (eng.queue@.contains(id)
                                                    || eng.affected@[id as int]));
                                            }
                                            // errors stay justified
                                            assert forall|i: int|
                                                0 <= i < eng.errors@.len() implies error_justified(
                                                world,
                                                cwd_v,
                                                tf,
                                                (#[trigger] eng.errors@[i])@,
                                            ) by {
                                                if i < pre_s.errors@.len() {
                                                    assert(eng.errors@[i] == pre_s.errors@[i]);
                                                } else {
                                                    match oc {
                                                        ResolveOutcome::Failed(fm) => {
                                                            assert(eng.errors@
                                                                == pre_s.errors@.push(fm));
                                                            assert(eng.errors@[i]@ == fm@);
                                                        },
                                                        _ => {
                                                            assert(false);
                                                        },
                                                    }
                                                }
                                            }
                                            // recording: the processed verdicts now include ri
                                            assert forall|ri2: int|
                                                0 <= ri2 < f.resolutions@.len() && (exists|x: int|
                                                    0 <= x < si + 1 && (#[trigger] specs_v[x])@
                                                        == f.resolutions@[ri2].0@) implies resolution_recorded(
                                                cwd_v,
                                                eng.paths@,
                                                eng.edges@,
                                                eng.errors@,
                                                cur_u,
                                                (#[trigger] f.resolutions@[ri2]).1,
                                            ) by {
                                                let x = choose|x: int|
                                                    0 <= x < si + 1 && (#[trigger] specs_v[x])@
                                                        == f.resolutions@[ri2].0@;
                                                if x < si {
                                                    assert(resolution_recorded(
                                                        cwd_v,
                                                        pre_s.paths@,
                                                        pre_s.edges@,
                                                        pre_s.errors@,
                                                        cur_u,
                                                        f.resolutions@[ri2].1,
                                                    ));
                                                    lemma_resolution_recorded_grows(
                                                        pre_s,
                                                        eng,
                                                        cur_u,
                                                        f.resolutions@[ri2].1,
                                                    );
                                                } else {
                                                    assert(f.resolutions@[ri2].0@ == s_cur);
                                                    if ri2 != ri as int {
                                                        if ri2 < ri as int {
                                                            assert(f.resolutions@[ri2].0@
                                                                != f.resolutions@[ri as int].0@);
                                                        } else {
                                                            assert(f.resolutions@[ri as int].0@
                                                                != f.resolutions@[ri2].0@);
                                                        }
                                                        assert(false);
                                                    }
                                                    match oc {
                                                        ResolveOutcome::Resolved(t) => {
                                                            let b = eng.edges@.last().1;
                                                            assert(eng.edges@.contains(
                                                                (cur_u, b),
                                                            ));
                                                            assert(eng.paths@[b as int]@
                                                                == join_spec(cwd_v, t@));
                                                        },
                                                        ResolveOutcome::BuiltinModule => {},
                                                        ResolveOutcome::Failed(fm) => {
                                                            assert(eng.errors@.last()@ == fm@);
                                                            assert(seq_has_view(
                                                                eng.errors@,
                                                                fm@,
                                                            ));
                                                        },
                                                    }
                                                }
                                            }
                                            // missing verdicts recorded so far stay recorded
                                            assert forall|s: Seq<char>|
                                                #![trigger has_resolution(f, s)]
                                                specifier_set(f.nodes@).contains(s)
                                                    && !has_resolution(f, s) && (exists|x: int|
                                                    0 <= x < si + 1 && (#[trigger] specs_v[x])@
                                                        == s) implies seq_has_view(
                                                eng.errors@,
                                                cannot_find_msg(s),
                                            ) by {
                                                let x = choose|x: int|
                                                    0 <= x < si + 1 && (#[trigger] specs_v[x])@
                                                        == s;
                                                if x < si {
                                                    lemma_has_view_grows(
                                                        pre_s.errors@,
                                                        eng.errors@,
                                                        cannot_find_msg(s),
                                                    );
                                                } else {
                                                    assert(s == s_cur);
                                                    assert(f.resolutions@[ri as int].0@ == s);
                                                    assert(has_resolution(f, s));
                                                    assert(false);
                                                }
                                            }
                                        }
                                    },
                                    None => {
                                        let mut msg = "Cannot find module '".to_owned();
                                        msg.append(specs[si].as_str());
                                        msg.append("'");
                                        proof {
                                            assert(msg@ == cannot_find_msg(s_cur));
                                        }
                                        let o = ResolveOutcome::Failed(msg);
                                        eng.record_resolution(&o);
                                        proof {
                                            assert(engine_grows(pre_s, eng));
                                            assert(eng.deps_view() == pre_s.deps_view());
                                            assert(eng.queue@ == pre_s.queue@);
                                            assert(eng.paths@ == pre_s.paths@);
                                            assert(eng.edges@ =~= pre_s.edges@);
                                            lemma_frontier_same(world, tf, cwd_v, mp, pre_s, eng);
                                            lemma_marks_persist(
                                                f,
                                                label,
                                                pre_s.errors@,
                                                eng.errors@,
                                            );
                                            assert(explore_measure(world, eng) <= m1);
                                            assert(eng.errors@.last()@ == cannot_find_msg(s_cur));
                                            assert forall|w: int|
                                                0 <= w < eng.head - 1 implies handled(
                                                world,
                                                eng,
                                                #[trigger] eng.queue@[w],
                                            ) by {
                                                assert(eng.queue@[w] == pre_s.queue@[w]);
                                                lemma_handled_grows(
                                                    world,
                                                    pre_s,
                                                    eng,
                                                    pre_s.queue@[w],
                                                );
                                            }
                                            assert(!has_resolution(f, s_cur));
                                            assert forall|i: int|
                                                0 <= i < eng.errors@.len() implies error_justified(
                                                world,
                                                cwd_v,
                                                tf,
                                                (#[trigger] eng.errors@[i])@,
                                            ) by {
                                                if i < pre_s.errors@.len() {
                                                    assert(eng.errors@[i] == pre_s.errors@[i]);
                                                } else {
                                                    assert(eng.errors@[i]@ == cannot_find_msg(
                                                        s_cur,
                                                    ));
                                                    assert(join_spec(cwd_v, f.path@) == path@);
                                                }
                                            }
                                            assert forall|ri2: int|
                                                0 <= ri2 < f.resolutions@.len() && (exists|x: int|
                                                    0 <= x < si + 1 && (#[trigger] specs_v[x])@
                                                        == f.resolutions@[ri2].0@) implies resolution_recorded(
                                                cwd_v,
                                                eng.paths@,
                                                eng.edges@,
                                                eng.errors@,
                                                cur_u,
                                                (#[trigger] f.resolutions@[ri2]).1,
                                            ) by {
                                                let x = choose|x: int|
                                                    0 <= x < si + 1 && (#[trigger] specs_v[x])@
                                                        == f.resolutions@[ri2].0@;
                                                if x < si {
                                                    lemma_resolution_recorded_grows(
                                                        pre_s,
                                                        eng,
                                                        cur_u,
                                                        f.resolutions@[ri2].1,
                                                    );
                                                } else {
                                                    assert(f.resolutions@[ri2].0@ == s_cur);
                                                    assert(false);
                                                }
                                            }
                                            assert forall|s: Seq<char>|
                                                #![trigger has_resolution(f, s)]
                                                specifier_set(f.nodes@).contains(s)
                                                    && !has_resolution(f, s) && (exists|x: int|
                                                    0 <= x < si + 1 && (#[trigger] specs_v[x])@
                                                        == s) implies seq_has_view(
                                                eng.errors@,
                                                cannot_find_msg(s),
                                            ) by {
                                                let x = choose|x: int|
                                                    0 <= x < si + 1 && (#[trigger] specs_v[x])@
                                                        == s;
                                                if x < si {
                                                    lemma_has_view_grows(
                                                        pre_s.errors@,
                                                        eng.errors@,
                                                        cannot_find_msg(s),
                                                    );
                                                } else {
                                                    assert(s == s_cur);
                                                    assert(seq_has_view(
                                                        eng.errors@,
                                                        cannot_find_msg(s_cur),
                                                    ));
                                                }
                                            }
                                        }
                                    },
                                }
                                si = si + 1;
                            }
                            let ghost pre_d = eng;
                            eng.file_done();
                            proof {
                                assert(engine_grows(pre_d, eng));
                                assert(eng.errors@ == pre_d.errors@);
                                assert(eng.edges@ == pre_d.edges@);
                                assert(eng.paths@ == pre_d.paths@);
                                assert(eng.queue@ == pre_d.queue@);
                                assert(eng.deps_view() == pre_d.deps_view());
                                lemma_frontier_same(world, tf, cwd_v, mp, pre_d, eng);
                                lemma_marks_persist(f, label, pre_d.errors@, eng.errors@);
                                assert forall|ri2: int|
                                    0 <= ri2 < f.resolutions@.len() && specifier_set(
                                        f.nodes@,
                                    ).contains(
                                        (#[trigger] f.resolutions@[ri2]).0@,
                                    ) implies resolution_recorded(
                                    cwd_v,
                                    eng.paths@,
                                    eng.edges@,
                                    eng.errors@,
                                    cur_u,
                                    f.resolutions@[ri2].1,
                                ) by {
                                    let sv = f.resolutions@[ri2].0@;
                                    let sm = specs_v.map_values(|sx: String| sx@);
                                    assert(sm.to_set().contains(sv));
                                    assert(sm.contains(sv));
                                    let x = choose|x: int|
                                        0 <= x < sm.len() && (#[trigger] sm[x]) == sv;
                                    assert(sm[x] == specs_v[x]@);
                                    assert(specs_v[x]@ == sv);
                                    assert(exists|x2: int|
                                        0 <= x2 < specs_v.len() && (#[trigger] specs_v[x2])@
                                            == sv);
                                    assert(resolution_recorded(
                                        cwd_v,
                                        pre_d.paths@,
                                        pre_d.edges@,
                                        pre_d.errors@,
                                        cur_u,
                                        f.resolutions@[ri2].1,
                                    ));
                                    lemma_resolution_recorded_grows(
                                        pre_d,
                                        eng,
                                        cur_u,
                                        f.resolutions@[ri2].1,
                                    );
                                }
                                assert forall|sv: Seq<char>|
                                    specifier_set(f.nodes@).contains(sv) && !has_resolution(
                                        f,
                                        sv,
                                    ) implies seq_has_view(
                                    eng.errors@,
                                    cannot_find_msg(sv),
                                ) by {
                                    let sm = specs_v.map_values(|sx: String| sx@);
                                    assert(sm.to_set().contains(sv));
                                    assert(sm.contains(sv));
                                    let x = choose|x: int|
                                        0 <= x < sm.len() && (#[trigger] sm[x]) == sv;
                                    assert(sm[x] == specs_v[x]@);
                                    assert(exists|x2: int|
                                        0 <= x2 < specs_v.len() && (#[trigger] specs_v[x2])@
                                            == sv);
                                    assert(seq_has_view(pre_d.errors@, cannot_find_msg(sv)));
                                    lemma_has_view_grows(
                                        pre_d.errors@,
                                        eng.errors@,
                                        cannot_find_msg(sv),
                                    );
                                }
                                assert(file_body_recorded(
                                    f,
                                    cwd_v,
                                    eng.paths@,
                                    eng.edges@,
                                    eng.errors@,
                                    cur_u,
                                    eng.paths@[cur_u as int]@,
                                ));
                                assert(readable_at(world, cwd_v, eng.paths@[cur_u as int]@));
                                assert forall|wj: int|
                                    0 <= wj < world.files@.len() && join_spec(
                                        cwd_v,
                                        (#[trigger] world.files@[wj]).path@,
                                    ) == eng.paths@[cur_u as int]@
                                        && world.files@[wj].readable implies file_body_recorded(
                                    world.files@[wj],
                                    cwd_v,
                                    eng.paths@,
                                    eng.edges@,
                                    eng.errors@,
                                    cur_u,
                                    eng.paths@[cur_u as int]@,
                                ) by {
                                    if wj != wi as int {
                                        if wj < wi as int {
                                            assert(join_spec(cwd_v, world.files@[wj].path@)
                                                != join_spec(
                                                cwd_v,
                                                world.files@[wi as int].path@,
                                            ));
                                        } else {
                                            assert(join_spec(
                                                cwd_v,
                                                world.files@[wi as int].path@,
                                            ) != join_spec(cwd_v, world.files@[wj].path@));
                                        }
                                        assert(false);
                                    }
                                }
                                assert(file_recorded(
                                    world,
                                    cwd_v,
                                    eng.paths@,
                                    eng.edges@,
                                    eng.errors@,
                                    cur_u,
                                ));
                                assert(handled(world, eng, cur_u));
                                assert forall|w: int| 0 <= w < eng.head implies handled(
                                    world,
                                    eng,
                                    #[trigger] eng.queue@[w],
                                ) by {
                                    if w == h0 - 1 {
                                        assert(eng.queue@[w] == cur_u);
                                    } else {
                                        assert(handled(world, pre_d, pre_d.queue@[w]));
                                        lemma_handled_grows(world, pre_d, eng, pre_d.queue@[w]);
                                    }
                                }
                                assert forall|i: int|
                                    0 <= i < eng.errors@.len() implies error_justified(
                                    world,
                                    cwd_v,
                                    tf,
                                    (#[trigger] eng.errors@[i])@,
                                ) by {
                                    assert(eng.errors@[i] == pre_d.errors@[i]);
                                }
                                assert(explore_measure(world, eng) <= m1);
                            }
                        }
                    },
                }
            },
        }
    }
    proof {
        assert forall|k: int| 0 <= k < eng.n() implies ((#[trigger] eng.changed@[k])
            <==> is_joined_of(cf, cwd_v, eng.paths@[k]@)) by {
            if k < s0.n() {
                assert(eng.changed@[k] == s0.changed@[k]);
                assert(eng.paths@[k] == s0.paths@[k]);
            } else {
                assert(!eng.changed@[k]);
                if is_joined_of(cf, cwd_v, eng.paths@[k]@) {
                    let j = choose|j: int|
                        0 <= j < cf.len() && eng.paths@[k]@ == join_spec(
                            cwd_v,
                            (#[trigger] cf[j])@,
                        );
                    let w = choose|w: int|
                        0 <= w < s0.paths@.len() && (#[trigger] s0.paths@[w])@ == join_spec(
                            cwd_v,
                            cf[j]@,
                        );
                    assert(eng.paths@[w] == s0.paths@[w]);
                    assert(eng.paths@[w]@ == eng.paths@[k]@);
                    assert(false);
                }
            }
        }
    }
    eng
}

/// Which tests are affected by the changed files, over the given world.
///
/// The report is pinned down by the inputs: a test file is reported exactly
/// when the world's import graph leads from its absolute path to a changed
/// path, each reported once, verbatim; every error is one the world gives
/// rise to; and an unreported test root of recognized source kind has its
/// own file's diagnostics accounted for among the errors.
#[verifier::rlimit(100)]
pub fn collect_affected(
    world: &SourceWorld,
    test_files: Vec<String>,
    changed_files: Vec<String>,
    module_paths: Vec<String>,
    cwd: String,
) -> (r: crate::AffectedReturn)
    requires
        world_wf(world, cwd@),
    ensures
        report_files_ok(
            world,
            cwd@,
            test_files@,
            mp_views(module_paths@),
            changed_files@,
            r.files@,
        ),
        forall|j: int|
            0 <= j < test_files@.len() && is_joined_of(
                changed_files@,
                cwd@,
                join_spec(cwd@, (#[trigger] test_files@[j])@),
            ) ==> seq_has_view(r.files@, test_files@[j]@),
        forall|i: int|
            0 <= i < r.errors@.len() ==> error_justified(world, cwd@, test_files@, (#[trigger] r.errors@[i])@),
        forall|j: int|
            0 <= j < test_files@.len() && !seq_has_view(r.files@, (#[trigger] test_files@[j])@)
                && source_kind_spec(join_spec(cwd@, test_files@[j]@))
                ==> root_outcome_recorded(
                world,
                cwd@,
                r.errors@,
                join_spec(cwd@, test_files@[j]@),
            ),
{
    let ghost cwd_v = cwd@;
    let ghost tf = test_files@;
    let ghost cf = changed_files@;
    let ghost mp = mp_views(module_paths@);
    let eng = explore(world, test_files, changed_files, module_paths, cwd);
    let ghost fin = eng;
    let r = eng.finish();
    proof {
        assert forall|y: int| 0 <= y < r.files@.len() implies seq_has_view(
            tf,
            (#[trigger] r.files@[y])@,
        ) by {
            let x = choose|x: int|
                0 <= x < fin.labels@.len() && (#[trigger] fin.labels@[x])@ == r.files@[y]@;
            let j = choose|j: int| 0 <= j < tf.len() && (#[trigger] tf[j])@ == fin.labels@[x]@;
        }
        assert forall|j: int| 0 <= j < tf.len() implies (seq_has_view(r.files@, (#[trigger] tf[j])@)
            <==> world_reaches(world, cwd_v, tf, mp, cf, join_spec(cwd_v, tf[j]@))) by {
            let x = choose|x: int|
                0 <= x < fin.labels@.len() && (#[trigger] fin.labels@[x])@ == tf[j]@;
            let id = fin.label_ids@[x];
            assert(fin.paths@[id as int]@ == join_spec(cwd_v, fin.labels@[x]@));
            assert(fin.paths@[id as int]@ == join_spec(cwd_v, tf[j]@));
            if fin.affected@[id as int] {
                lemma_affected_reaches_world(world, tf, cf, fin, id);
                assert(world_reaches(world, cwd_v, tf, mp, cf, join_spec(cwd_v, tf[j]@)));
                assert(seq_has_view(r.files@, fin.labels@[x]@));
            } else {
                assert(!seq_has_view(r.files@, fin.labels@[x]@));
                if world_reaches(world, cwd_v, tf, mp, cf, join_spec(cwd_v, tf[j]@)) {
                    let pp = choose|pp: Seq<Seq<char>>|
                        is_world_walk(world, cwd_v, tf, mp, cf, pp) && pp[0] == join_spec(
                            cwd_v,
                            tf[j]@,
                        );
                    assert(root_covered(fin, cwd_v, tf[j]@));
                    let id2 = choose|id2: usize|
                        (id2 as int) < fin.n() && (#[trigger] fin.paths@[id2 as int])@
                            == join_spec(cwd_v, tf[j]@) && (fin.queue@.contains(id2)
                            || fin.affected@[id2 as int]);
                    assert(fin.paths@[id2 as int]@ == fin.paths@[id as int]@);
                    if id2 != id {
                        if (id2 as int) < (id as int) {
                            assert(fin.paths@[id2 as int]@ != fin.paths@[id as int]@);
                        } else {
                            assert(fin.paths@[id as int]@ != fin.paths@[id2 as int]@);
                        }
                        assert(false);
                    }
                    lemma_walk_reaches_affected(world, tf, cf, fin, pp, id);
                    assert(false);
                }
            }
            if seq_has_view(r.files@, tf[j]@) {
                let y = choose|y: int|
                    0 <= y < r.files@.len() && (#[trigger] r.files@[y])@ == tf[j]@;
                let x2 = choose|x2: int|
                    0 <= x2 < fin.labels@.len() && (#[trigger] fin.labels@[x2])@ == r.files@[y]@;
                if x2 != x {
                    assert(fin.labels@[x2]@ == fin.labels@[x]@);
                    if x2 < x {
                        assert(fin.labels@[x2]@ != fin.labels@[x]@);
                    } else {
                        assert(fin.labels@[x]@ != fin.labels@[x2]@);
                    }
                    assert(false);
                }
                assert(seq_has_view(r.files@, fin.labels@[x]@));
                assert(fin.affected@[id as int]);
                assert(world_reaches(world, cwd_v, tf, mp, cf, join_spec(cwd_v, tf[j]@)));
            }
        }
        assert forall|j: int|
            0 <= j < tf.len() && is_joined_of(
                cf,
                cwd_v,
                join_spec(cwd_v, (#[trigger] tf[j])@),
            ) implies seq_has_view(r.files@, tf[j]@) by {
            let pp = seq![join_spec(cwd_v, tf[j]@)];
            assert(pp.last() == join_spec(cwd_v, tf[j]@));
            assert(is_world_walk(world, cwd_v, tf, mp, cf, pp));
            assert(world_reaches(world, cwd_v, tf, mp, cf, join_spec(cwd_v, tf[j]@)));
        }
        assert forall|j: int|
            0 <= j < tf.len() && !seq_has_view(r.files@, (#[trigger] tf[j])@)
                && source_kind_spec(join_spec(cwd_v, tf[j]@)) implies root_outcome_recorded(
            world,
            cwd_v,
            r.errors@,
            join_spec(cwd_v, tf[j]@),
        ) by {
            let x = choose|x: int|
                0 <= x < fin.labels@.len() && (#[trigger] fin.labels@[x])@ == tf[j]@;
            let id = fin.label_ids@[x];
            assert(fin.paths@[id as int]@ == join_spec(cwd_v, tf[j]@));
            assert(!fin.affected@[id as int]) by {
                if fin.affected@[id as int] {
                    assert(seq_has_view(r.files@, fin.labels@[x]@));
                    assert(false);
                }
            }
            assert(root_covered(fin, cwd_v, tf[j]@));
            let id2 = choose|id2: usize|
                (id2 as int) < fin.n() && (#[trigger] fin.paths@[id2 as int])@ == join_spec(
                    cwd_v,
                    tf[j]@,
                ) && (fin.queue@.contains(id2) || fin.affected@[id2 as int]);
            assert(fin.paths@[id2 as int]@ == fin.paths@[id as int]@);
            if id2 != id {
                if (id2 as int) < (id as int) {
                    assert(fin.paths@[id2 as int]@ != fin.paths@[id as int]@);
                } else {
                    assert(fin.paths@[id as int]@ != fin.paths@[id2 as int]@);
                }
                assert(false);
            }
            assert(fin.queue@.contains(id));
            let w = choose|w: int| 0 <= w < fin.queue@.len() && fin.queue@[w] == id;
            assert(handled(world, fin, id));
            assert(file_recorded(world, cwd_v, fin.paths@, fin.edges@, fin.errors@, id));
            assert(r.errors@ == fin.errors@);
            let p = fin.paths@[id as int]@;
            assert forall|wj: int|
                0 <= wj < world.files@.len() && join_spec(
                    cwd_v,
                    (#[trigger] world.files@[wj]).path@,
                ) == p && world.files@[wj].readable implies file_errors_recorded(
                world.files@[wj],
                cwd_v,
                r.errors@,
                p,
            ) by {
                assert(file_body_recorded(
                    world.files@[wj],
                    cwd_v,
                    fin.paths@,
                    fin.edges@,
                    fin.errors@,
                    id,
                    p,
                ));
                let fj = world.files@[wj];
                assert forall|ri: int|
                    0 <= ri < fj.resolutions@.len() && specifier_set(fj.nodes@).contains(
                        (#[trigger] fj.resolutions@[ri]).0@,
                    ) implies match fj.resolutions@[ri].1 {
                    ResolveOutcome::Failed(m) => seq_has_view(r.errors@, m@),
                    _ => true,
                } by {
                    assert(resolution_recorded(
                        cwd_v,
                        fin.paths@,
                        fin.edges@,
                        fin.errors@,
                        id,
                        fj.resolutions@[ri].1,
                    ));
                }
            }
        }
    }
    r
}

/// Reachability equivalence: whenever the traversal laws hold, a file is
/// affected exactly when the discovered import graph leads from it to a
/// changed path. Because only reachability matters, any traversal order,
/// and any cycle in the graph, yields the same verdicts.
pub proof fn lemma_affected_iff_reaches(e: Engine, k: usize)
    requires
        e.wf(),
        e.inv(),
        (k as int) < e.n(),
    ensures
        e.affected@[k as int] <==> reaches_changed(e.edges@, e.changed@, k),
{
    assert(e.deps_view().len() == e.paths@.len());
    if reaches_changed(e.edges@, e.changed@, k) {
        crate::graph::lemma_reaching_is_affected(
            e.edges@,
            e.deps_view(),
            e.affected@,
            e.changed@,
            k,
        );
    }
}

} // verus!
