//! Fork detection over a trie of commit histories.
//!
//! Every repository's sampled commit sequence is inserted into a trie keyed on commit ids, with
//! an end-of-history leaf after its last commit. A breadth-first pass then hands each shared
//! commit to exactly one repository: at every branching point the child holding the
//! best-ranked repository (lowest fork priority, then path order) keeps the accumulated history,
//! while the other children start afresh from their own diverging commit.
use vstd::prelude::*;

use crate::git::CommitId;
use crate::paths::{
    ComponentView, components_equal, components_lt, components_less, components_view,
    lemma_components_lt_irreflexive, lemma_components_lt_total, lemma_components_lt_transitive,
    path_components, path_components_of,
};

verus! {

/// The identity of a repository: the components of its path (two paths that differ only in
/// redundant separators name the same repository).
pub type RepoId = Seq<ComponentView>;

/// One call of `HistoryTrie::insert`, as the trie's view records it.
pub struct Insertion {
    pub path: Seq<char>,
    pub priority: i32,
    pub commits: Seq<CommitId>,
}

impl Insertion {
    pub open spec fn id(self) -> RepoId {
        path_components_of(self.path)
    }
}

pub open spec fn is_prefix(p: Seq<CommitId>, s: Seq<CommitId>) -> bool {
    p.len() <= s.len() && s.take(p.len() as int) == p
}

/// The fork priority that a repository was first inserted with.
pub open spec fn first_priority(log: Seq<Insertion>, id: RepoId) -> i32
    decreases log.len(),
{
    if log.len() == 0 {
        0
    } else if log[0].id() == id {
        log[0].priority
    } else {
        first_priority(log.drop_first(), id)
    }
}

/// The path that a repository was first inserted with.
pub open spec fn first_path(log: Seq<Insertion>, id: RepoId) -> Seq<char>
    decreases log.len(),
{
    if log.len() == 0 {
        Seq::empty()
    } else if log[0].id() == id {
        log[0].path
    } else {
        first_path(log.drop_first(), id)
    }
}

/// The ranking of repositories: a lower fork priority first, ties broken by path order.
pub open spec fn key_lt(log: Seq<Insertion>, a: RepoId, b: RepoId) -> bool {
    let pa = first_priority(log, a);
    let pb = first_priority(log, b);
    pa < pb || (pa == pb && components_lt(a, b))
}

/// Among the first `n` insertions, the best-ranked repository whose history starts with `p`.
pub open spec fn leader_upto(log: Seq<Insertion>, n: int, p: Seq<CommitId>) -> Option<RepoId>
    decreases n,
{
    if n <= 0 {
        None
    } else {
        let rest = leader_upto(log, n - 1, p);
        let t = log[n - 1];
        if is_prefix(p, t.commits) {
            match rest {
                None => Some(t.id()),
                Some(m) => if key_lt(log, t.id(), m) {
                    Some(t.id())
                } else {
                    Some(m)
                },
            }
        } else {
            rest
        }
    }
}

/// The leader of a commit prefix: the best-ranked repository whose history starts with it.
pub open spec fn leader(log: Seq<Insertion>, p: Seq<CommitId>) -> Option<RepoId> {
    leader_upto(log, log.len() as int, p)
}

/// The last position along `p` at which the leader changes: the largest `e < p.len()` with
/// `leader(p[..e]) != leader(p[..e + 1])`, or 0 when there is none.
pub open spec fn last_change(log: Seq<Insertion>, p: Seq<CommitId>) -> nat
    decreases p.len(),
{
    if p.len() == 0 {
        0
    } else if leader(log, p.drop_last()) != leader(log, p) {
        (p.len() - 1) as nat
    } else {
        last_change(log, p.drop_last())
    }
}

/// Where the kept part of an inserted history starts: a repository that does not lead its own
/// complete history keeps nothing; otherwise it keeps its commits from the last change of leader.
pub open spec fn kept_from(log: Seq<Insertion>, t: Insertion) -> nat {
    if leader(log, t.commits) != Some(t.id()) {
        t.commits.len()
    } else {
        last_change(log, t.commits)
    }
}

/// The commits that fork detection leaves to the repository of insertion `t`.
pub open spec fn kept_commits(log: Seq<Insertion>, t: Insertion) -> Seq<CommitId> {
    t.commits.skip(kept_from(log, t) as int)
}

/// Every repository was inserted at most once.
pub open spec fn distinct_repos(log: Seq<Insertion>) -> bool {
    forall|a: int, b: int|
        0 <= a < log.len() && 0 <= b < log.len() && a != b ==> #[trigger] log[a].id() != #[trigger] log[b].id()
}

/// A reference to a position in a repository's commit sequence.
#[derive(Clone, Copy)]
enum CommitRef {
    /// Normal commit
    GitCommit(CommitId),
    /// End-of-history pseudo-commit, one per inserted history.
    EoH,
}

/// A repository known to the trie, with the data that ranks it.
struct Repo {
    path: String,
    components: Vec<(u8, Vec<char>)>,
    priority: i32,
}

/// A node of the trie, stored in the trie's node table.
struct TrieNode {
    /// The repositories whose inserted history passes through this node, by index.
    repos: Vec<usize>,
    /// The next commit (or end of history) and the index of the child node.
    children: Vec<(CommitRef, usize)>,
}

/// What a node of the trie stands for.
pub enum NodeLabel {
    /// The node reached by this sequence of commits from the root.
    Prefix(Seq<CommitId>),
    /// The end-of-history leaf of the insertion with this index.
    Leaf(nat),
}

/// A trie whose keys are sequences of Git commit ids.
pub struct HistoryTrie {
    all_repos: Vec<Repo>,
    nodes: Vec<TrieNode>,
    log: Ghost<Seq<Insertion>>,
    labels: Ghost<Seq<NodeLabel>>,
    index_of: Ghost<Map<NodeLabel, int>>,
    /// For each node but the root, its parent and its position among the parent's children.
    slot: Ghost<Seq<(int, int)>>,
    /// For each node, the insertion that contributed each entry of its `repos`.
    srcs: Ghost<Seq<Seq<int>>>,
    /// For each insertion, the index of its repository in `all_repos`.
    repo_of: Ghost<Seq<int>>,
    /// For each known repository, the first insertion that named it.
    repo_first: Ghost<Seq<int>>,
}

impl View for HistoryTrie {
    type V = Seq<Insertion>;

    closed spec fn view(&self) -> Seq<Insertion> {
        self.log@
    }
}

/// The commits of insertion `t` that the trie holds so far: all of them, except for the last
/// insertion, of which the first `dl` are in.
spec fn cpre(log: Seq<Insertion>, dl: nat, t: int) -> Seq<CommitId> {
    if t == log.len() - 1 {
        log[t].commits.take(dl as int)
    } else {
        log[t].commits
    }
}

spec fn through(log: Seq<Insertion>, dl: nat, t: int, p: Seq<CommitId>) -> bool {
    0 <= t < log.len() && is_prefix(p, cpre(log, dl, t))
}

spec fn has_leaf(log: Seq<Insertion>, ll: bool, t: int) -> bool {
    t != log.len() - 1 || ll
}

spec fn parent_prefix(log: Seq<Insertion>, dl: nat, l: NodeLabel) -> Seq<CommitId> {
    match l {
        NodeLabel::Prefix(q) => q.drop_last(),
        NodeLabel::Leaf(t) => cpre(log, dl, t as int),
    }
}

spec fn is_root_label(l: NodeLabel) -> bool {
    l == NodeLabel::Prefix(Seq::<CommitId>::empty())
}

impl HistoryTrie {
    spec fn repo_id(&self, k: int) -> RepoId {
        components_view(self.all_repos@[k].components@)
    }

    spec fn children(&self, i: int) -> Seq<(CommitRef, usize)> {
        self.nodes@[i].children@
    }

    spec fn child_ok(&self, log: Seq<Insertion>, dl: nat, ll: bool, i: int, k: int) -> bool {
        let (r, j) = self.children(i)[k];
        &&& 0 < j < self.nodes@.len()
        &&& self.slot@[j as int] == (i, k)
        &&& match self.labels@[i] {
            NodeLabel::Prefix(p) => match r {
                CommitRef::GitCommit(c) => self.labels@[j as int] == NodeLabel::Prefix(p.push(c)),
                CommitRef::EoH => self.labels@[j as int] is Leaf && cpre(
                    log,
                    dl,
                    self.labels@[j as int]->Leaf_0 as int,
                ) == p,
            },
            NodeLabel::Leaf(_) => false,
        }
    }

    spec fn slot_ok(&self, log: Seq<Insertion>, dl: nat, j: int) -> bool {
        let (i, k) = self.slot@[j];
        &&& 0 <= i < self.nodes@.len()
        &&& 0 <= k < self.children(i).len()
        &&& self.children(i)[k].1 == j
        &&& self.labels@[i] == NodeLabel::Prefix(parent_prefix(log, dl, self.labels@[j]))
    }

    spec fn label_ok(&self, log: Seq<Insertion>, dl: nat, ll: bool, i: int) -> bool {
        let reps = self.nodes@[i].repos@;
        let srcs = self.srcs@[i];
        &&& srcs.len() == reps.len()
        &&& forall|m: int|
            0 <= m < reps.len() ==> 0 <= #[trigger] srcs[m] < log.len() && reps[m] == self.repo_of@[srcs[m]]
        &&& match self.labels@[i] {
            NodeLabel::Prefix(p) => p.len() > 0 ==> {
                &&& reps.len() > 0
                &&& forall|m: int| 0 <= m < reps.len() ==> through(log, dl, #[trigger] srcs[m], p)
                &&& forall|t: int| #[trigger]
                    through(log, dl, t, p) ==> exists|m: int| 0 <= m < reps.len() && srcs[m] == t
            },
            NodeLabel::Leaf(t) => {
                &&& t < log.len()
                &&& has_leaf(log, ll, t as int)
                &&& self.children(i).len() == 0
                &&& srcs == seq![t as int]
            },
        }
    }

    spec fn inv(&self, log: Seq<Insertion>, dl: nat, ll: bool) -> bool {
        let n = self.nodes@.len();
        let labels = self.labels@;
        let index_of = self.index_of@;
        &&& log.len() > 0 ==> dl <= log.last().commits.len()
        &&& (log.len() > 0 && ll) ==> dl == log.last().commits.len()
        &&& log.len() == 0 ==> dl == 0
        &&& n >= 1
        &&& labels.len() == n
        &&& self.slot@.len() == n
        &&& self.srcs@.len() == n
        &&& is_root_label(labels[0])
        &&& forall|i: int|
            0 <= i < n ==> index_of.contains_key(#[trigger] labels[i]) && index_of[labels[i]] == i
        &&& forall|l: NodeLabel| #[trigger]
            index_of.contains_key(l) ==> 0 <= index_of[l] < n && labels[index_of[l]] == l
        &&& forall|t: int, d: int|
            0 <= t < log.len() && 0 <= d <= cpre(log, dl, t).len() ==> index_of.contains_key(
                NodeLabel::Prefix(#[trigger] cpre(log, dl, t).take(d)),
            )
        &&& forall|t: int|
            0 <= t < log.len() && #[trigger] has_leaf(log, ll, t) ==> index_of.contains_key(
                NodeLabel::Leaf(t as nat),
            )
        &&& forall|i: int, k: int|
            0 <= i < n && 0 <= k < self.children(i).len() ==> #[trigger] self.child_ok(log, dl, ll, i, k)
        &&& forall|j: int| 0 < j < n ==> #[trigger] self.slot_ok(log, dl, j)
        &&& forall|i: int| 0 <= i < n ==> #[trigger] self.label_ok(log, dl, ll, i)
        &&& self.repo_of@.len() == log.len()
        &&& self.repo_first@.len() == self.all_repos@.len()
        &&& forall|t: int|
            0 <= t < log.len() ==> 0 <= #[trigger] self.repo_of@[t] < self.all_repos@.len()
                && self.repo_id(self.repo_of@[t]) == log[t].id()
        &&& forall|k: int|
            0 <= k < self.all_repos@.len() ==> {
                let f = #[trigger] self.repo_first@[k];
                &&& 0 <= f < log.len()
                &&& self.repo_of@[f] == k
                &&& forall|t: int| 0 <= t < f ==> #[trigger] log[t].id() != log[f].id()
                &&& self.all_repos@[k].path@ == log[f].path
                &&& self.all_repos@[k].priority == log[f].priority
                &&& self.repo_id(k) == path_components_of(self.all_repos@[k].path@)
            }
        &&& forall|a: int, b: int|
            0 <= a < self.all_repos@.len() && 0 <= b < self.all_repos@.len() && a != b
                ==> #[trigger] self.repo_id(a) != #[trigger] self.repo_id(b)
    }

    /// The trie is consistent with the insertions it records, each of a different repository.
    pub closed spec fn wf(&self) -> bool {
        &&& self.inv(self.log@, if self.log@.len() == 0 { 0 } else { self.log@.last().commits.len() }, true)
        &&& distinct_repos(self.log@)
    }

    /// No insertion so far names the repository at `repo_path`.
    pub open spec fn is_new_repo(&self, repo_path: Seq<char>) -> bool {
        forall|t: int| 0 <= t < self@.len() ==> #[trigger] self@[t].id() != path_components_of(repo_path)
    }

    pub fn new() -> (r: Self)
        ensures
            r.wf(),
            r@ == Seq::<Insertion>::empty(),
    {
        let root = TrieNode { repos: Vec::new(), children: Vec::new() };
        let mut nodes = Vec::new();
        nodes.push(root);
        let ghost root_label = NodeLabel::Prefix(Seq::<CommitId>::empty());
        let r = HistoryTrie {
            all_repos: Vec::new(),
            nodes,
            log: Ghost(Seq::empty()),
            labels: Ghost(Seq::empty().push(root_label)),
            index_of: Ghost(Map::empty().insert(root_label, 0)),
            slot: Ghost(Seq::empty().push((0int, 0int))),
            srcs: Ghost(Seq::empty().push(Seq::<int>::empty())),
            repo_of: Ghost(Seq::empty()),
            repo_first: Ghost(Seq::empty()),
        };
        proof {
            assert(r.label_ok(r.log@, 0, true, 0));
        }
        r
    }

    /// Inserts a repository's sampled commit sequence into the trie.
    ///
    /// Each commit creates (or navigates to) a child node, and the repository is recorded at
    /// every node it passes through. An end-of-history leaf is added after the last commit. Each
    /// repository is inserted once (the trie holds one history per repository).
    pub fn insert(&mut self, repo_path: &str, priority: i32, commits: &[CommitId])
        requires
            old(self).wf(),
            old(self).is_new_repo(repo_path@),
            commits@.len() > 0,
        ensures
            final(self).wf(),
            final(self)@ == old(self)@.push(Insertion { path: repo_path@, priority, commits: commits@ }),
    {
        let ghost before = *self;
        let ghost old_log = self.log@;
        let ghost ins = Insertion { path: repo_path@, priority, commits: commits@ };
        let ghost log = old_log.push(ins);
        let ghost tn = old_log.len() as int;
        assert forall|t: int| 0 <= t < tn implies #[trigger] old_log[t].id() != ins.id() by {
            assert(old(self)@[t] == old_log[t]);
        }
        let components = path_components(repo_path);
        let found = self.find_repo(&components);
        let repo_idx = match found {
            Some(k) => k,
            None => {
                let path = repo_path.to_owned();
                self.all_repos.push(Repo { path, components, priority });
                proof {
                    self.repo_first@ = self.repo_first@.push(tn);
                }
                self.all_repos.len() - 1
            },
        };
        proof {
            self.log@ = log;
            self.repo_of@ = self.repo_of@.push(repo_idx as int);
            lemma_start(before, *self, ins, repo_idx as int);
        }
        let mut cur: usize = 0;
        let mut d: usize = 0;
        assert(commits@.take(0) =~= Seq::<CommitId>::empty());
        while d < commits.len()
            invariant
                self.inv(log, d as nat, false),
                self.log@ == log,
                log == old_log.push(ins),
                tn == old_log.len(),
                ins.commits == commits@,
                d <= commits@.len(),
                cur < self.nodes@.len(),
                self.labels@[cur as int] == NodeLabel::Prefix(commits@.take(d as int)),
                repo_idx == self.repo_of@[tn],
                distinct_repos(old_log),
                forall|t: int| 0 <= t < tn ==> #[trigger] old_log[t].id() != ins.id(),
            decreases commits@.len() - d,
        {
            let ghost step_before = *self;
            let c = commits[d];
            let next = self.find_child(cur, c);
            let j = match next {
                Some(j) => {
                    proof {
                        let k = choose|k: int|
                            0 <= k < self.children(cur as int).len() && self.children(cur as int)[k] == (
                            CommitRef::GitCommit(c),
                            j,
                        );
                        assert(self.child_ok(log, d as nat, false, cur as int, k));
                    }
                    j
                },
                None => {
                    let j = self.nodes.len();
                    let ghost slot_pos = self.children(cur as int).len() as int;
                    self.nodes.push(TrieNode { repos: Vec::new(), children: Vec::new() });
                    self.nodes[cur].children.push((CommitRef::GitCommit(c), j));
                    proof {
                        let l = NodeLabel::Prefix(commits@.take(d + 1));
                        lemma_new_label_absent(step_before, log, d as nat, cur as int, c);
                        self.labels@ = self.labels@.push(l);
                        self.index_of@ = self.index_of@.insert(l, j as int);
                        self.slot@ = self.slot@.push((cur as int, slot_pos));
                        self.srcs@ = self.srcs@.push(Seq::<int>::empty());
                    }
                    j
                },
            };
            self.nodes[j].repos.push(repo_idx);
            proof {
                self.srcs@ = self.srcs@.update(j as int, self.srcs@[j as int].push(tn));
                if next is None {
                    assert(self.srcs@ =~= step_before.srcs@.push(seq![tn]));
                    assert(self.nodes@[j as int].repos@ =~= seq![repo_idx]);
                }
                lemma_step(step_before, *self, log, d as nat, cur as int, j, c, next is None, repo_idx);
            }
            cur = j;
            d = d + 1;
        }
        let ghost leaf_before = *self;
        let j = self.nodes.len();
        let mut repos = Vec::new();
        repos.push(repo_idx);
        let ghost slot_pos = self.children(cur as int).len() as int;
        self.nodes.push(TrieNode { repos, children: Vec::new() });
        self.nodes[cur].children.push((CommitRef::EoH, j));
        proof {
            let l = NodeLabel::Leaf(tn as nat);
            self.labels@ = self.labels@.push(l);
            self.index_of@ = self.index_of@.insert(l, j as int);
            self.slot@ = self.slot@.push((cur as int, slot_pos));
            self.srcs@ = self.srcs@.push(seq![tn]);
            assert(commits@.take(d as int) =~= commits@);
            assert(self.nodes@[j as int].repos@ =~= seq![repo_idx]);
            lemma_leaf(leaf_before, *self, log, cur as int, j, repo_idx);
            assert forall|a: int, b: int| 0 <= a < log.len() && 0 <= b < log.len() && a != b
                implies #[trigger] log[a].id() != #[trigger] log[b].id() by {
                if a < tn && b < tn {
                    assert(log[a] == old_log[a] && log[b] == old_log[b]);
                } else if a < tn {
                    assert(log[a] == old_log[a]);
                } else {
                    assert(log[b] == old_log[b]);
                }
            }
        }
    }

    /// Inserts a repository's sampled commit sequence unless the trie already holds a history
    /// for that repository; tells whether it did.
    pub fn try_insert(&mut self, repo_path: &str, priority: i32, commits: &[CommitId]) -> (r: bool)
        requires
            old(self).wf(),
            commits@.len() > 0,
        ensures
            final(self).wf(),
            r == old(self).is_new_repo(repo_path@),
            r ==> final(self)@ == old(self)@.push(Insertion { path: repo_path@, priority, commits: commits@ }),
            !r ==> final(self)@ == old(self)@,
    {
        let components = path_components(repo_path);
        if self.find_repo(&components).is_some() {
            proof {
                let k = choose|k: int| 0 <= k < self.all_repos@.len() && self.repo_id(k) == components_view(components@);
                let f = self.repo_first@[k];
                assert(self@[f].id() == path_components_of(repo_path@));
            }
            return false;
        }
        proof {
            assert forall|t: int| 0 <= t < self@.len() implies #[trigger] self@[t].id() != path_components_of(repo_path@) by {
                assert(0 <= self.repo_of@[t] < self.all_repos@.len());
            }
        }
        self.insert(repo_path, priority, commits);
        true
    }

    spec fn full_dl(&self) -> nat {
        if self.log@.len() == 0 { 0 } else { self.log@.last().commits.len() }
    }

    proof fn lemma_full(&self)
        requires
            self.wf(),
        ensures
            forall|t: int| 0 <= t < self.log@.len() ==> #[trigger] cpre(self.log@, self.full_dl(), t) == self.log@[t].commits,
            forall|t: int, p: Seq<CommitId>| #[trigger] through(self.log@, self.full_dl(), t, p) == through_full(self.log@, t, p),
            forall|t: int| 0 <= t < self.log@.len() ==> #[trigger] has_leaf(self.log@, true, t),
    {
        let log = self.log@;
        assert forall|t: int| 0 <= t < log.len() implies #[trigger] cpre(log, self.full_dl(), t) == log[t].commits by {
            if t == log.len() - 1 {
                assert(log[t] == log.last());
                assert(log[t].commits.take(self.full_dl() as int) =~= log[t].commits);
            }
        }
        assert forall|t: int, p: Seq<CommitId>| #[trigger] through(log, self.full_dl(), t, p) == through_full(log, t, p) by {
            if 0 <= t < log.len() {
                assert(cpre(log, self.full_dl(), t) == log[t].commits);
            }
        }
    }

    proof fn lemma_repo_first(&self, k: int)
        requires
            self.wf(),
            0 <= k < self.all_repos@.len(),
        ensures
            first_priority(self.log@, self.repo_id(k)) == self.all_repos@[k].priority,
            first_path(self.log@, self.repo_id(k)) == self.all_repos@[k].path@,
            self.repo_id(k) == path_components_of(self.all_repos@[k].path@),
    {
        let f = self.repo_first@[k];
        assert(self.repo_id(self.repo_of@[f]) == self.log@[f].id());
        lemma_first(self.log@, f, self.repo_id(k));
    }

    /// Whether known repository `a` ranks before known repository `b`.
    fn repo_less(&self, a: usize, b: usize) -> (r: bool)
        requires
            self.wf(),
            a < self.all_repos@.len(),
            b < self.all_repos@.len(),
        ensures
            r == key_lt(self.log@, self.repo_id(a as int), self.repo_id(b as int)),
    {
        proof {
            self.lemma_repo_first(a as int);
            self.lemma_repo_first(b as int);
        }
        let pa = self.all_repos[a].priority;
        let pb = self.all_repos[b].priority;
        if pa != pb {
            pa < pb
        } else {
            components_less(&self.all_repos[a].components, &self.all_repos[b].components)
        }
    }

    spec fn child_min_ok(&self, j: int, m: int) -> bool {
        &&& 0 <= m < self.all_repos@.len()
        &&& match self.labels@[j] {
            NodeLabel::Prefix(q) => leader(self.log@, q) == Some(self.repo_id(m)),
            NodeLabel::Leaf(t) => self.repo_id(m) == self.log@[t as int].id(),
        }
    }

    /// The best-ranked repository recorded at node `j`.
    fn min_repo(&self, j: usize) -> (m: usize)
        requires
            self.wf(),
            0 < j < self.nodes@.len(),
        ensures
            self.child_min_ok(j as int, m as int),
    {
        proof {
            self.lemma_full();
            assert(self.label_ok(self.log@, self.full_dl(), true, j as int));
            assert(self.slot_ok(self.log@, self.full_dl(), j as int));
            if self.labels@[j as int] is Prefix {
                assert(self.labels@[j as int]->Prefix_0.len() > 0) by {
                    if self.labels@[j as int]->Prefix_0.len() == 0 {
                        assert(self.labels@[j as int]->Prefix_0 =~= Seq::<CommitId>::empty());
                        assert(self.labels@[j as int] == self.labels@[0]);
                        assert(self.index_of@[self.labels@[0]] == 0);
                    }
                }
            }
        }
        let reps = &self.nodes[j].repos;
        proof {
            assert forall|m2: int| 0 <= m2 < reps@.len() implies reps@[m2] < self.all_repos@.len() by {
                let t = self.srcs@[j as int][m2];
                assert(0 <= t < self.log@.len());
                assert(0 <= self.repo_of@[t] < self.all_repos@.len());
            }
        }
        let mut best = reps[0];
        let mut bm: usize = 0;
        let mut m: usize = 1;
        proof {
            lemma_key_lt_irreflexive(self.log@, self.repo_id(best as int));
        }
        while m < reps.len()
            invariant
                self.wf(),
                0 < j < self.nodes@.len(),
                reps@ == self.nodes@[j as int].repos@,
                reps@.len() > 0,
                1 <= m <= reps@.len(),
                bm < m,
                reps@[bm as int] == best,
                forall|m2: int| 0 <= m2 < reps@.len() ==> reps@[m2] < self.all_repos@.len(),
                forall|m2: int| 0 <= m2 < m ==> !key_lt(self.log@, self.repo_id(#[trigger] reps@[m2] as int), self.repo_id(best as int)),
            decreases reps@.len() - m,
        {
            proof {
                assert(self.label_ok(self.log@, self.full_dl(), true, j as int));
            }
            let cand = reps[m];
            if self.repo_less(cand, best) {
                proof {
                    assert forall|m2: int| 0 <= m2 <= m implies !key_lt(self.log@, self.repo_id(#[trigger] reps@[m2] as int), self.repo_id(cand as int)) by {
                        if m2 < m && key_lt(self.log@, self.repo_id(reps@[m2] as int), self.repo_id(cand as int)) {
                            lemma_key_lt_transitive(self.log@, self.repo_id(reps@[m2] as int), self.repo_id(cand as int), self.repo_id(best as int));
                        }
                        if m2 == m {
                            lemma_key_lt_irreflexive(self.log@, self.repo_id(cand as int));
                        }
                    }
                }
                best = cand;
                bm = m;
            }
            m = m + 1;
        }
        proof {
            let log = self.log@;
            let srcs = self.srcs@[j as int];
            match self.labels@[j as int] {
                NodeLabel::Prefix(q) => {
                    let t0 = srcs[bm as int];
                    assert(through_full(log, t0, q));
                    assert(log[t0].id() == self.repo_id(best as int));
                    assert forall|t: int| #[trigger] through_full(log, t, q) implies !key_lt(log, log[t].id(), self.repo_id(best as int)) by {
                        assert(through(log, self.full_dl(), t, q));
                        let m2 = choose|m2: int| 0 <= m2 < reps@.len() && srcs[m2] == t;
                        assert(self.repo_id(reps@[m2] as int) == log[t].id());
                    }
                    lemma_leader_unique(log, q, self.repo_id(best as int));
                },
                NodeLabel::Leaf(t) => {
                    assert(srcs[0] == t as int);
                },
            }
        }
        best
    }

    spec fn in_child(&self, i: int, k: int, t: int) -> bool {
        let (r, j) = self.children(i)[k];
        match r {
            CommitRef::GitCommit(c) => through_full(self.log@, t, self.labels@[i]->Prefix_0.push(c)),
            CommitRef::EoH => 0 <= t && self.labels@[j as int] == NodeLabel::Leaf(t as nat),
        }
    }

    proof fn lemma_child_facts(&self, i: int, k: int)
        requires
            self.wf(),
            0 <= i < self.nodes@.len(),
            0 <= k < self.children(i).len(),
        ensures
            self.labels@[i] is Prefix,
            ({
                let p = self.labels@[i]->Prefix_0;
                let (r, j) = self.children(i)[k];
                &&& 0 < j < self.nodes@.len()
                &&& self.slot@[j as int] == (i, k)
                &&& match r {
                    CommitRef::GitCommit(c) => self.labels@[j as int] == NodeLabel::Prefix(p.push(c)),
                    CommitRef::EoH => self.labels@[j as int] is Leaf && 0 <= self.labels@[j as int]->Leaf_0 < self.log@.len()
                        && self.log@[self.labels@[j as int]->Leaf_0 as int].commits == p,
                }
            }),
            forall|t: int| #[trigger] self.in_child(i, k, t) ==> through_full(self.log@, t, self.labels@[i]->Prefix_0),
    {
        self.lemma_full();
        let log = self.log@;
        assert(self.child_ok(log, self.full_dl(), true, i, k));
        let p = self.labels@[i]->Prefix_0;
        let (r, j) = self.children(i)[k];
        if self.labels@[j as int] is Leaf {
            assert(self.label_ok(log, self.full_dl(), true, j as int));
        }
        assert forall|t: int| #[trigger] self.in_child(i, k, t) implies through_full(log, t, p) by {
            match r {
                CommitRef::GitCommit(c) => {
                    assert(p.push(c).take(p.len() as int) =~= p);
                    assert(log[t].commits.take(p.len() as int) =~= log[t].commits.take(p.len() as int + 1).take(p.len() as int));
                },
                CommitRef::EoH => {
                    assert(log[t].commits.take(p.len() as int) =~= p);
                },
            }
        }
    }

    proof fn lemma_in_child_unique(&self, i: int, k1: int, k2: int, t: int)
        requires
            self.wf(),
            0 <= i < self.nodes@.len(),
            0 <= k1 < self.children(i).len(),
            0 <= k2 < self.children(i).len(),
            self.in_child(i, k1, t),
            self.in_child(i, k2, t),
        ensures
            k1 == k2,
    {
        self.lemma_child_facts(i, k1);
        self.lemma_child_facts(i, k2);
        let p = self.labels@[i]->Prefix_0;
        let (r1, j1) = self.children(i)[k1];
        let (r2, j2) = self.children(i)[k2];
        let s = self.log@[t].commits;
        match (r1, r2) {
            (CommitRef::GitCommit(c1), CommitRef::GitCommit(c2)) => {
                assert(s.take(p.len() as int + 1)[p.len() as int] == c1);
                assert(s.take(p.len() as int + 1)[p.len() as int] == c2);
                assert(self.labels@[j1 as int] == self.labels@[j2 as int]);
            },
            (CommitRef::GitCommit(c1), CommitRef::EoH) => {
                assert(self.log@[t].commits == p);
            },
            (CommitRef::EoH, CommitRef::GitCommit(c2)) => {
                assert(self.log@[t].commits == p);
            },
            (CommitRef::EoH, CommitRef::EoH) => {
                assert(self.labels@[j1 as int] == self.labels@[j2 as int]);
            },
        }
        assert(self.index_of@[self.labels@[j1 as int]] == j1 as int);
        assert(self.index_of@[self.labels@[j2 as int]] == j2 as int);
    }

    proof fn lemma_child_witness(&self, i: int, k: int, m: int) -> (t: int)
        requires
            self.wf(),
            0 <= i < self.nodes@.len(),
            0 <= k < self.children(i).len(),
            self.child_min_ok(self.children(i)[k].1 as int, m),
        ensures
            self.in_child(i, k, t),
            0 <= t < self.log@.len(),
            self.log@[t].id() == self.repo_id(m),
    {
        self.lemma_child_facts(i, k);
        let p = self.labels@[i]->Prefix_0;
        let (r, j) = self.children(i)[k];
        match r {
            CommitRef::GitCommit(c) => {
                let q = p.push(c);
                lemma_leader_upto(self.log@, self.log@.len() as int, q);
                let t = choose|t: int| 0 <= t < self.log@.len() && is_prefix(q, #[trigger] self.log@[t].commits) && self.log@[t].id() == self.repo_id(m);
                t
            },
            CommitRef::EoH => {
                self.labels@[j as int]->Leaf_0 as int
            },
        }
    }

    proof fn lemma_find_child(&self, i: int, t: int) -> (k: int)
        requires
            self.wf(),
            0 <= i < self.nodes@.len(),
            self.labels@[i] is Prefix,
            through_full(self.log@, t, self.labels@[i]->Prefix_0),
        ensures
            0 <= k < self.children(i).len(),
            self.in_child(i, k, t),
    {
        self.lemma_full();
        let log = self.log@;
        let p = self.labels@[i]->Prefix_0;
        let s = log[t].commits;
        let l = if s.len() == p.len() {
            NodeLabel::Leaf(t as nat)
        } else {
            NodeLabel::Prefix(s.take(p.len() as int + 1))
        };
        if s.len() == p.len() {
            assert(s.take(p.len() as int) =~= s);
            assert(has_leaf(log, true, t));
        } else {
            assert(cpre(log, self.full_dl(), t).take(p.len() as int + 1) == s.take(p.len() as int + 1));
            assert(self.index_of@.contains_key(NodeLabel::Prefix(cpre(log, self.full_dl(), t).take(p.len() as int + 1))));
            assert(s.take(p.len() as int + 1).drop_last() =~= s.take(p.len() as int));
        }
        assert(self.index_of@.contains_key(l));
        let j = self.index_of@[l];
        assert(self.labels@[j] == l);
        assert(j != 0) by {
            if j == 0 {
                assert(is_root_label(self.labels@[0]));
            }
        }
        assert(self.slot_ok(log, self.full_dl(), j));
        let (i2, k) = self.slot@[j];
        assert(self.labels@[i2] == self.labels@[i]);
        assert(self.index_of@[self.labels@[i2]] == i2);
        assert(self.index_of@[self.labels@[i]] == i);
        self.lemma_child_facts(i, k);
        if s.len() != p.len() {
            let (r, j2) = self.children(i)[k];
            match r {
                CommitRef::GitCommit(c) => {
                    assert(s.take(p.len() as int + 1) =~= p.push(c));
                    assert(s.take(p.len() as int + 1).take(p.len() as int + 1) =~= s.take(p.len() as int + 1));
                },
                CommitRef::EoH => {},
            }
        }
        k
    }

    proof fn lemma_first_child(&self, i: int, mins: Seq<usize>, best: int)
        requires
            self.wf(),
            distinct_repos(self.log@),
            0 <= i < self.nodes@.len(),
            self.labels@[i] is Prefix,
            self.children(i).len() > 0,
            mins.len() == self.children(i).len(),
            forall|k: int| 0 <= k < mins.len() ==> #[trigger] self.child_min_ok(self.children(i)[k].1 as int, mins[k] as int),
            0 <= best < mins.len(),
            forall|k: int| 0 <= k < mins.len() ==> !key_lt(self.log@, #[trigger] self.repo_id(mins[k] as int), self.repo_id(mins[best] as int)),
        ensures
            leader(self.log@, self.labels@[i]->Prefix_0) is Some,
            forall|k: int| 0 <= k < mins.len() ==> (k == best) == (#[trigger] self.repo_id(mins[k] as int) == leader(self.log@, self.labels@[i]->Prefix_0)->0),
    {
        let log = self.log@;
        let p = self.labels@[i]->Prefix_0;
        assert(self.child_min_ok(self.children(i)[0].1 as int, mins[0] as int));
        let t0 = self.lemma_child_witness(i, 0, mins[0] as int);
        self.lemma_child_facts(i, 0);
        lemma_leader_minimal(log, p, t0);
        let l = leader(log, p)->0;
        let tl = choose|t: int| #[trigger] through_full(log, t, p) && log[t].id() == l;
        let kl = self.lemma_find_child(i, tl);
        assert(self.child_min_ok(self.children(i)[kl].1 as int, mins[kl] as int));
        self.lemma_child_facts(i, kl);
        let (rl, jl) = self.children(i)[kl];
        match rl {
            CommitRef::GitCommit(c) => {
                let q = p.push(c);
                assert forall|t: int| #[trigger] through_full(log, t, q) implies !key_lt(log, log[t].id(), l) by {
                    assert(self.in_child(i, kl, t));
                }
                assert(through_full(log, tl, q));
                lemma_leader_unique(log, q, l);
            },
            CommitRef::EoH => {},
        }
        assert(self.repo_id(mins[kl] as int) == l);
        assert(self.child_min_ok(self.children(i)[best].1 as int, mins[best] as int));
        let tb = self.lemma_child_witness(i, best, mins[best] as int);
        self.lemma_child_facts(i, best);
        assert(through_full(log, tb, p));
        let mb = self.repo_id(mins[best] as int);
        if mb != l {
            lemma_key_lt_total(log, mb, l);
        }
        assert(mb == l);
        assert forall|k: int| 0 <= k < mins.len() implies (k == best) == (#[trigger] self.repo_id(mins[k] as int) == l) by {
            if k != best && self.repo_id(mins[k] as int) == l {
                assert(self.child_min_ok(self.children(i)[k].1 as int, mins[k] as int));
                let tk = self.lemma_child_witness(i, k, mins[k] as int);
                if tk != tb {
                    assert(log[tk].id() != log[tb].id());
                }
                self.lemma_in_child_unique(i, k, best, tk);
            }
        }
    }

    spec fn measure(&self, j: int) -> nat {
        match self.labels@[j] {
            NodeLabel::Prefix(p) => p.len(),
            NodeLabel::Leaf(t) => self.log@[t as int].commits.len() + 1,
        }
    }

    proof fn lemma_enqueued(&self, qpos: Map<int, int>, done: Set<int>, j: int)
        requires
            self.wf(),
            0 <= j < self.nodes@.len(),
            qpos.contains_key(0),
            forall|j2: int| 0 < j2 < self.nodes@.len() ==> (#[trigger] qpos.contains_key(j2) <==> done.contains(self.slot@[j2].0)),
            forall|j2: int| #[trigger] qpos.contains_key(j2) ==> done.contains(j2),
        ensures
            qpos.contains_key(j),
        decreases self.measure(j),
    {
        if j != 0 {
            self.lemma_full();
            assert(self.slot_ok(self.log@, self.full_dl(), j));
            assert(self.label_ok(self.log@, self.full_dl(), true, j));
            let i = self.slot@[j].0;
            match self.labels@[j] {
                NodeLabel::Prefix(p) => {
                    if p.len() == 0 {
                        assert(p =~= Seq::<CommitId>::empty());
                        assert(self.index_of@[self.labels@[0]] == 0);
                        assert(self.index_of@[self.labels@[j]] == j);
                    }
                },
                NodeLabel::Leaf(t) => {},
            }
            self.lemma_enqueued(qpos, done, i);
        }
    }

    proof fn lemma_slot_child(&self, j: int)
        requires
            self.wf(),
            0 < j < self.nodes@.len(),
        ensures
            self.children(self.slot@[j].0)[self.slot@[j].1].1 == j,
            0 <= self.slot@[j].1 < self.children(self.slot@[j].0).len(),
            0 <= self.slot@[j].0 < self.nodes@.len(),
    {
        self.lemma_full();
        assert(self.slot_ok(self.log@, self.full_dl(), j));
    }

    proof fn lemma_chosen_pushed(
        &self,
        qpos_before: Map<int, int>,
        qpos: Map<int, int>,
        done_old: Set<int>,
        done: Set<int>,
        node: int,
        best: int,
        child: int,
    )
        requires
            self.wf(),
            0 <= node < self.nodes@.len(),
            0 <= best < self.children(node).len(),
            self.children(node)[best].1 == child,
            0 < child < self.nodes@.len(),
            self.slot@[child] == (node, best),
            !done_old.contains(node),
            done == done_old.insert(node),
            qpos.dom() == qpos_before.dom().insert(child),
            forall|j2: int| 0 < j2 < self.nodes@.len() ==> (#[trigger] qpos_before.contains_key(j2) <==> done_old.contains(self.slot@[j2].0)),
        ensures
            forall|j2: int| 0 < j2 < self.nodes@.len() ==> (#[trigger] qpos.contains_key(j2) <==> (done.contains(self.slot@[j2].0)
                && (self.slot@[j2].0 == node ==> (self.slot@[j2].1 == best || self.slot@[j2].1 < 0)))),
    {
        assert forall|j2: int| 0 < j2 < self.nodes@.len() implies (#[trigger] qpos.contains_key(j2) <==> (done.contains(self.slot@[j2].0)
                && (self.slot@[j2].0 == node ==> (self.slot@[j2].1 == best || self.slot@[j2].1 < 0)))) by {
            self.lemma_slot_child(j2);
            if j2 != child {
                assert(qpos.contains_key(j2) == qpos_before.contains_key(j2));
            }
        }
    }

    spec fn queue_ok(&self, queue: Seq<(Vec<CommitRef>, usize)>, qpos: Map<int, int>, done: Set<int>, head: int) -> bool {
        let n = self.nodes@.len();
        &&& 0 <= head <= queue.len()
        &&& queue.len() <= n
        &&& queue.len() == qpos.dom().len()
        &&& qpos.dom().finite()
        &&& qpos.contains_key(0)
        &&& forall|j: int| #[trigger] qpos.contains_key(j) ==> 0 <= j < n && 0 <= qpos[j] < queue.len() && queue[qpos[j]].1 == j
        &&& forall|q: int| 0 <= q < queue.len() ==> qpos.contains_key(#[trigger] queue[q].1 as int) && qpos[queue[q].1 as int] == q
        &&& forall|j: int| #[trigger] done.contains(j) <==> (qpos.contains_key(j) && qpos[j] < head)
    }

    spec fn entry_ok(&self, entry: (Vec<CommitRef>, usize), dist: bool) -> bool {
        &&& entry.1 < self.nodes@.len()
        &&& leafness_ok(self.labels@[entry.1 as int], entry.0@)
        &&& dist ==> entry.0@ == path_spec(self.log@, self.labels@[entry.1 as int])
    }

    spec fn results_ok(
        &self,
        results: Seq<(String, Vec<CommitId>)>,
        res_repo: Seq<usize>,
        res_leaf: Seq<int>,
        res_of: Map<int, int>,
        done: Set<int>,
        dist: bool,
    ) -> bool {
        let n = self.nodes@.len();
        let log = self.log@;
        &&& results.len() == res_repo.len()
        &&& res_leaf.len() == res_repo.len()
        &&& forall|e: int| 0 <= e < results.len() ==> {
            let k = #[trigger] res_repo[e] as int;
            let j = res_leaf[e];
            &&& 0 <= k < self.all_repos@.len()
            &&& results[e].0@ == self.all_repos@[k].path@
            &&& res_of.contains_key(k) && res_of[k] == e
            &&& 0 <= j < n
            &&& done.contains(j)
            &&& self.labels@[j] is Leaf
            &&& self.repo_of@[self.labels@[j]->Leaf_0 as int] == k
            &&& (dist ==> results[e].1@ == kept_commits(log, log[self.labels@[j]->Leaf_0 as int]))
        }
        &&& forall|j: int| 0 <= j < n && #[trigger] done.contains(j) && self.labels@[j] is Leaf ==> {
            let k = self.repo_of@[self.labels@[j]->Leaf_0 as int];
            res_of.contains_key(k) && 0 <= res_of[k] < results.len() && res_repo[res_of[k]] as int == k
        }
    }

    proof fn lemma_after_push(
        &self,
        q_before: Seq<(Vec<CommitRef>, usize)>,
        qpos_before: Map<int, int>,
        queue: Seq<(Vec<CommitRef>, usize)>,
        qpos: Map<int, int>,
        done: Set<int>,
        head: int,
    )
        requires
            self.queue_ok(q_before, qpos_before, done, head),
            queue.len() == q_before.len() + 1,
            queue.drop_last() == q_before,
            queue.last().1 < self.nodes@.len(),
            !qpos_before.contains_key(queue.last().1 as int),
            qpos == qpos_before.insert(queue.last().1 as int, q_before.len() as int),
        ensures
            self.queue_ok(queue, qpos, done, head),
    {
        let c = queue.last().1 as int;
        assert(qpos.dom() =~= qpos_before.dom().insert(c));
        assert forall|q: int| 0 <= q < q_before.len() implies queue[q] == q_before[q] by {
            assert(queue.drop_last()[q] == queue[q]);
        }
        assert forall|j: int| #[trigger] qpos.contains_key(j) implies 0 <= j < self.nodes@.len() && 0 <= qpos[j] < queue.len() && queue[qpos[j]].1 == j by {
            if j != c {
                assert(queue[qpos[j]] == q_before[qpos[j]]);
            }
        }
        assert forall|q: int| 0 <= q < queue.len() implies qpos.contains_key(#[trigger] queue[q].1 as int) && qpos[queue[q].1 as int] == q by {
            if q < q_before.len() {
                assert(queue[q] == q_before[q]);
                assert(qpos_before.contains_key(q_before[q].1 as int));
            }
        }
        lemma_queue_bound(qpos, self.nodes@.len() as int);
    }

    proof fn lemma_results_grow(
        &self,
        results: Seq<(String, Vec<CommitId>)>,
        res_repo: Seq<usize>,
        res_leaf: Seq<int>,
        res_of: Map<int, int>,
        done_old: Set<int>,
        j: int,
        dist: bool,
    )
        requires
            self.results_ok(results, res_repo, res_leaf, res_of, done_old, dist),
            !(self.labels@[j] is Leaf),
        ensures
            self.results_ok(results, res_repo, res_leaf, res_of, done_old.insert(j), dist),
    {
    }

    proof fn lemma_record(
        &self,
        old_results: Seq<(String, Vec<CommitId>)>,
        old_res_repo: Seq<usize>,
        old_res_leaf: Seq<int>,
        old_res_of: Map<int, int>,
        results: Seq<(String, Vec<CommitId>)>,
        res_repo: Seq<usize>,
        res_leaf: Seq<int>,
        res_of: Map<int, int>,
        done: Set<int>,
        dist: bool,
        node: int,
        e: int,
        commits: Seq<CommitId>,
    )
        requires
            self.wf(),
            self.results_ok(old_results, old_res_repo, old_res_leaf, old_res_of, done.remove(node), dist),
            0 <= node < self.nodes@.len(),
            done.contains(node),
            self.labels@[node] is Leaf,
            ({
                let t = self.labels@[node]->Leaf_0 as int;
                let k = self.repo_of@[t];
                &&& 0 <= e <= old_res_repo.len()
                &&& 0 <= k < self.all_repos@.len()
                &&& (dist ==> commits == kept_commits(self.log@, self.log@[t]))
                &&& forall|e2: int| 0 <= e2 < e ==> old_res_repo[e2] as int != k
                &&& results[e].0@ == self.all_repos@[k].path@
                &&& results[e].1@ == commits
                &&& if e < old_res_repo.len() {
                    &&& old_res_repo[e] as int == k
                    &&& res_repo == old_res_repo
                    &&& results.len() == old_results.len()
                    &&& (forall|e2: int| 0 <= e2 < results.len() && e2 != e ==> results[e2] == old_results[e2])
                    &&& res_leaf == old_res_leaf.update(e, node)
                    &&& res_of == old_res_of
                } else {
                    &&& res_repo.len() == old_res_repo.len() + 1
                    &&& res_repo.drop_last() == old_res_repo
                    &&& res_repo[e] as int == k
                    &&& results.len() == old_results.len() + 1
                    &&& (forall|e2: int| 0 <= e2 < old_results.len() ==> results[e2] == old_results[e2])
                    &&& res_leaf == old_res_leaf.push(node)
                    &&& res_of == old_res_of.insert(k, e)
                }
            }),
        ensures
            self.results_ok(results, res_repo, res_leaf, res_of, done, dist),
    {
        let t = self.labels@[node]->Leaf_0 as int;
        let k = self.repo_of@[t];
        let n = self.nodes@.len();
        assert forall|e2: int| 0 <= e2 < old_res_repo.len() implies #[trigger] res_repo[e2] == old_res_repo[e2] by {
            if e >= old_res_repo.len() {
                assert(res_repo.drop_last()[e2] == res_repo[e2]);
            }
        }
        assert forall|e2: int| 0 <= e2 < results.len() implies {
            let k2 = #[trigger] res_repo[e2] as int;
            let j = res_leaf[e2];
            &&& 0 <= k2 < self.all_repos@.len()
            &&& results[e2].0@ == self.all_repos@[k2].path@
            &&& res_of.contains_key(k2) && res_of[k2] == e2
            &&& 0 <= j < n
            &&& done.contains(j)
            &&& self.labels@[j] is Leaf
            &&& self.repo_of@[self.labels@[j]->Leaf_0 as int] == k2
            &&& (dist ==> results[e2].1@ == kept_commits(self.log@, self.log@[self.labels@[j]->Leaf_0 as int]))
        } by {
            if e2 != e {
                assert(old_res_repo[e2] == res_repo[e2]);
                assert(res_leaf[e2] == old_res_leaf[e2]);
                assert(results[e2] == old_results[e2]);
                if e == old_res_repo.len() {
                    assert(old_res_repo[e2] as int != k) by {
                        assert(0 <= e2 < e);
                    }
                }
            }
        }
        assert forall|j: int| 0 <= j < n && #[trigger] done.contains(j) && self.labels@[j] is Leaf implies {
            let k2 = self.repo_of@[self.labels@[j]->Leaf_0 as int];
            res_of.contains_key(k2) && 0 <= res_of[k2] < results.len() && res_repo[res_of[k2]] as int == k2
        } by {
            let k2 = self.repo_of@[self.labels@[j]->Leaf_0 as int];
            if j != node {
                assert(done.remove(node).contains(j));
                if k2 != k || e < old_res_repo.len() {
                    assert(old_res_repo[old_res_of[k2]] == res_repo[old_res_of[k2]]);
                }
            }
        }
    }

    proof fn lemma_child_entry(&self, path: Seq<CommitRef>, i: int, mins: Seq<usize>, best: int, k: int, dist: bool)
        requires
            self.wf(),
            0 <= i < self.nodes@.len(),
            self.labels@[i] is Prefix,
            0 <= k < self.children(i).len(),
            0 <= best < self.children(i).len(),
            mins.len() == self.children(i).len(),
            forall|k2: int| 0 <= k2 < mins.len() ==> #[trigger] self.child_min_ok(self.children(i)[k2].1 as int, mins[k2] as int),
            dist ==> path == path_spec(self.log@, self.labels@[i]),
            dist ==> leader(self.log@, self.labels@[i]->Prefix_0) is Some,
            dist ==> forall|k2: int| 0 <= k2 < mins.len() ==> (k2 == best) == (#[trigger] self.repo_id(mins[k2] as int) == leader(self.log@, self.labels@[i]->Prefix_0)->0),
        ensures
            ({
                let (key, j) = self.children(i)[k];
                let np = if k == best { path.push(key) } else { seq![key] };
                &&& leafness_ok(self.labels@[j as int], np)
                &&& dist ==> np == path_spec(self.log@, self.labels@[j as int])
            }),
    {
        self.lemma_child_facts(i, k);
        let log = self.log@;
        let p = self.labels@[i]->Prefix_0;
        let (key, j) = self.children(i)[k];
        let np = if k == best { path.push(key) } else { seq![key] };
        assert(np.last() == key);
        assert(self.child_min_ok(j as int, mins[k] as int));
        if dist {
            let lp = leader(log, p);
            lemma_last_change_le(log, p);
            match key {
                CommitRef::GitCommit(c) => {
                    let q = p.push(c);
                    assert(q.drop_last() =~= p);
                    if k == best {
                        assert(leader(log, q) == lp);
                        assert(last_change(log, q) == last_change(log, p));
                        assert(q.skip(last_change(log, p) as int) =~= p.skip(last_change(log, p) as int).push(c));
                        assert(refs(q.skip(last_change(log, p) as int)) =~= refs(p.skip(last_change(log, p) as int)).push(key));
                    } else {
                        assert(leader(log, q) != lp);
                        assert(last_change(log, q) == p.len());
                        assert(q.skip(p.len() as int) =~= seq![c]);
                        assert(refs(seq![c]) =~= seq![key]);
                    }
                },
                CommitRef::EoH => {
                    let t = self.labels@[j as int]->Leaf_0 as int;
                    assert(log[t].commits == p);
                    if k == best {
                        assert(kept_from(log, log[t]) == last_change(log, p));
                    } else {
                        assert(kept_from(log, log[t]) == p.len());
                        assert(p.skip(p.len() as int) =~= Seq::<CommitId>::empty());
                        assert(refs(Seq::<CommitId>::empty()) =~= Seq::<CommitRef>::empty());
                        assert(Seq::<CommitRef>::empty().push(key) =~= seq![key]);
                    }
                },
            }
        }
    }

    proof fn lemma_finish_entry(
        &self,
        results: Seq<(String, Vec<CommitId>)>,
        res_repo: Seq<usize>,
        res_leaf: Seq<int>,
        res_of: Map<int, int>,
        done: Set<int>,
        dist: bool,
        e: int,
    ) -> (t: int)
        requires
            self.wf(),
            dist == distinct_repos(self.log@),
            self.results_ok(results, res_repo, res_leaf, res_of, done, dist),
            0 <= e < results.len(),
        ensures
            0 <= t < self@.len(),
            entry_matches(self@, results[e], self@[t]),
            self.repo_of@[t] == res_repo[e] as int,
    {
        let log = self.log@;
        self.lemma_full();
        let k = res_repo[e] as int;
        let j = res_leaf[e];
        let t = self.labels@[j]->Leaf_0 as int;
        assert(self.label_ok(log, self.full_dl(), true, j));
        self.lemma_repo_first(k);
        assert(self.repo_id(self.repo_of@[t]) == log[t].id());
        t
    }

    proof fn lemma_finish_insertion(
        &self,
        results: Seq<(String, Vec<CommitId>)>,
        res_repo: Seq<usize>,
        res_leaf: Seq<int>,
        res_of: Map<int, int>,
        done: Set<int>,
        qpos: Map<int, int>,
        dist: bool,
        t: int,
    ) -> (e: int)
        requires
            self.wf(),
            dist == distinct_repos(self.log@),
            qpos.contains_key(0),
            forall|j2: int| 0 < j2 < self.nodes@.len() ==> (#[trigger] qpos.contains_key(j2) <==> done.contains(self.slot@[j2].0)),
            forall|j2: int| #[trigger] qpos.contains_key(j2) ==> done.contains(j2),
            self.results_ok(results, res_repo, res_leaf, res_of, done, dist),
            0 <= t < self@.len(),
        ensures
            0 <= e < results.len(),
            entry_matches(self@, results[e], self@[t]),
    {
        let log = self.log@;
        self.lemma_full();
        assert(has_leaf(log, true, t));
        let l = NodeLabel::Leaf(t as nat);
        assert(self.index_of@.contains_key(l));
        let j = self.index_of@[l];
        assert(self.labels@[j] == l);
        self.lemma_enqueued(qpos, done, j);
        let k = self.repo_of@[t];
        let e = res_of[k];
        let te = self.lemma_finish_entry(results, res_repo, res_leaf, res_of, done, dist, e);
        assert(self.repo_id(self.repo_of@[te]) == log[te].id());
        assert(self.repo_id(self.repo_of@[t]) == log[t].id());
        if dist && te != t {
            assert(log[te].id() != log[t].id());
        }
        e
    }

    proof fn lemma_finish(
        &self,
        results: Seq<(String, Vec<CommitId>)>,
        res_repo: Seq<usize>,
        res_leaf: Seq<int>,
        res_of: Map<int, int>,
        done: Set<int>,
        qpos: Map<int, int>,
        head: int,
        queue: Seq<(Vec<CommitRef>, usize)>,
        dist: bool,
    )
        requires
            self.wf(),
            dist == distinct_repos(self.log@),
            head == queue.len(),
            self.queue_ok(queue, qpos, done, head),
            forall|j2: int| 0 < j2 < self.nodes@.len() ==> (#[trigger] qpos.contains_key(j2) <==> done.contains(self.slot@[j2].0)),
            self.results_ok(results, res_repo, res_leaf, res_of, done, dist),
        ensures
            forall|e: int| 0 <= e < results.len() ==> #[trigger] entry_answered(self@, results, e),
            forall|t: int| 0 <= t < self@.len() ==> #[trigger] insertion_answered(self@, results, t),
            forall|e1: int, e2: int| 0 <= e1 < results.len() && 0 <= e2 < results.len() && e1 != e2
                ==> path_components_of(#[trigger] results[e1].0@) != path_components_of(#[trigger] results[e2].0@),
    {
        assert forall|j: int| #[trigger] qpos.contains_key(j) implies done.contains(j) by {
            assert(qpos[j] < queue.len());
        }
        assert forall|e: int| 0 <= e < results.len() implies #[trigger] entry_answered(self@, results, e) by {
            let t = self.lemma_finish_entry(results, res_repo, res_leaf, res_of, done, dist, e);
        }
        assert forall|t: int| 0 <= t < self@.len() implies #[trigger] insertion_answered(self@, results, t) by {
            let e = self.lemma_finish_insertion(results, res_repo, res_leaf, res_of, done, qpos, dist, t);
        }
        assert forall|e1: int, e2: int| 0 <= e1 < results.len() && 0 <= e2 < results.len() && e1 != e2
                implies path_components_of(#[trigger] results[e1].0@) != path_components_of(#[trigger] results[e2].0@) by {
            let k1 = res_repo[e1] as int;
            let k2 = res_repo[e2] as int;
            self.lemma_repo_first(k1);
            self.lemma_repo_first(k2);
            assert(res_of[k1] == e1);
            assert(res_of[k2] == e2);
        }
    }

    /// Returns the commits that fork detection leaves to each repository.
    ///
    /// A breadth-first pass over the trie carries, for each node, the commit path accumulated
    /// from the root. At a branching point the child holding the best-ranked repository inherits
    /// the whole accumulated path, while every other child starts a fresh path with its own
    /// diverging commit. At an end-of-history leaf the accumulated path becomes the commit list
    /// of the repository that ends there.
    #[verifier::loop_isolation(false)]
    #[verifier::spinoff_prover]
    #[verifier::rlimit(40)]
    pub fn get_all_sequences_iterative(&self) -> (r: Vec<(String, Vec<CommitId>)>)
        requires
            self.wf(),
        ensures
            forall|e: int| 0 <= e < r@.len() ==> #[trigger] entry_answered(self@, r@, e),
            forall|t: int| 0 <= t < self@.len() ==> #[trigger] insertion_answered(self@, r@, t),
            forall|e1: int, e2: int| 0 <= e1 < r@.len() && 0 <= e2 < r@.len() && e1 != e2
                ==> path_components_of(#[trigger] r@[e1].0@) != path_components_of(#[trigger] r@[e2].0@),
    {
        let ghost log = self.log@;
        let ghost dist = distinct_repos(log);
        let ghost n = self.nodes@.len();
        proof {
            self.lemma_full();
        }
        let mut results: Vec<(String, Vec<CommitId>)> = Vec::new();
        let mut res_repo: Vec<usize> = Vec::new();
        let ghost mut res_leaf: Seq<int> = Seq::empty();
        let ghost mut res_of: Map<int, int> = Map::empty();
        let mut queue: Vec<(Vec<CommitRef>, usize)> = Vec::new();
        queue.push((Vec::new(), 0));
        let ghost mut qpos: Map<int, int> = Map::empty().insert(0, 0);
        let ghost mut done: Set<int> = Set::empty();
        let mut head: usize = 0;
        proof {
            assert(qpos.dom() =~= set![0int]);
            assert(Seq::<CommitId>::empty().skip(0) =~= Seq::<CommitId>::empty());
            assert(refs(Seq::<CommitId>::empty()) =~= Seq::<CommitRef>::empty());
            assert(is_root_label(self.labels@[0]));
        }
        while head < queue.len()
            invariant
                head <= queue@.len(),
                self.queue_ok(queue@, qpos, done, head as int),
                forall|j2: int| 0 < j2 < n ==> (#[trigger] qpos.contains_key(j2) <==> done.contains(self.slot@[j2].0)),
                forall|q: int| head <= q < queue@.len() ==> #[trigger] self.entry_ok(queue@[q], dist),
                self.results_ok(results@, res_repo@, res_leaf, res_of, done, dist),
            decreases n - head,
        {
            let node_idx = queue[head].1;
            let path = copy_vec(&queue[head].0);
            let ghost done_old = done;
            proof {
                assert(self.entry_ok(queue@[head as int], dist));
                assert(self.label_ok(log, self.full_dl(), true, node_idx as int));
                assert(!done.contains(node_idx as int));
                done = done.insert(node_idx as int);
                assert(done_old =~= done.remove(node_idx as int));
                assert(self.queue_ok(queue@, qpos, done, head + 1));
            }
            head = head + 1;
            let ghost results_before = results@;
            let ghost res_repo_before = res_repo@;
            if path.len() > 0 && matches!(path[path.len() - 1], CommitRef::EoH) {
                let converted_path = extract_path(&path);
                let ghost t = self.labels@[node_idx as int]->Leaf_0 as int;
                proof {
                    if dist {
                        lemma_extract_refs(kept_commits(log, log[t]));
                    }
                }
                let reps = &self.nodes[node_idx].repos;
                proof {
                    assert(self.labels@[node_idx as int] is Leaf);
                    assert(self.srcs@[node_idx as int] == seq![t]);
                    assert(self.srcs@[node_idx as int][0] == t);
                    assert(reps@.len() == 1);
                    assert(reps@[0] as int == self.repo_of@[self.srcs@[node_idx as int][0]]);
                    assert(0 <= self.repo_of@[t] < self.all_repos@.len());
                }
                let mut m: usize = 0;
                while m < reps.len()
                    invariant
                        reps@.len() == 1,
                        reps@[0] as int == self.repo_of@[t],
                        0 <= t < log.len(),
                        m == 0 ==> self.results_ok(results@, res_repo@, res_leaf, res_of, done.remove(node_idx as int), dist),
                        m > 0 ==> self.results_ok(results@, res_repo@, res_leaf, res_of, done, dist),
                        m <= 1,
                        m == 0 ==> results@ == results_before && res_repo@ == res_repo_before,
                    decreases reps@.len() - m,
                {
                    let k = reps[m];
                    let repo_path = self.all_repos[k].path.clone();
                    let commits = copy_vec(&converted_path);
                    let mut e: usize = 0;
                    while e < res_repo.len() && res_repo[e] != k
                        invariant
                            e <= res_repo@.len(),
                            forall|e2: int| 0 <= e2 < e ==> res_repo@[e2] != k,
                        decreases res_repo@.len() - e,
                    {
                        e = e + 1;
                    }
                    let ghost old_results = results@;
                    let ghost old_res_repo = res_repo@;
                    let ghost old_res_leaf = res_leaf;
                    let ghost old_res_of = res_of;
                    if e < res_repo.len() {
                        results.set(e, (repo_path, commits));
                        proof {
                            res_leaf = res_leaf.update(e as int, node_idx as int);
                        }
                    } else {
                        results.push((repo_path, commits));
                        res_repo.push(k);
                        proof {
                            res_leaf = res_leaf.push(node_idx as int);
                            res_of = res_of.insert(k as int, e as int);
                        }
                    }
                    proof {
                        if e >= old_res_repo.len() {
                            assert(res_repo@.drop_last() =~= old_res_repo);
                        }
                        self.lemma_record(old_results, old_res_repo, old_res_leaf, old_res_of, results@, res_repo@, res_leaf, res_of, done, dist, node_idx as int, e as int, commits@);
                    }
                    m = m + 1;
                }
            }
            proof {
                if !(path@.len() > 0 && path@.last() is EoH) {
                    self.lemma_results_grow(results@, res_repo@, res_leaf, res_of, done_old, node_idx as int, dist);
                }
            }
            let nch = self.nodes[node_idx].children.len();
            proof {
                if nch == 0 {
                    assert forall|j2: int| 0 < j2 < n implies (#[trigger] qpos.contains_key(j2) <==> done.contains(self.slot@[j2].0)) by {
                        if self.slot@[j2].0 == node_idx as int {
                            assert(self.slot_ok(log, self.full_dl(), j2));
                        }
                    }
                }
            }
            if nch > 0 {
                proof {
                    self.lemma_child_facts(node_idx as int, 0);
                }
                let mut mins: Vec<usize> = Vec::new();
                let mut best: usize = 0;
                let mut k: usize = 0;
                while k < nch
                    invariant
                        nch == self.children(node_idx as int).len(),
                        k <= nch,
                        mins@.len() == k,
                        k > 0 ==> best < k,
                        forall|k2: int| 0 <= k2 < k ==> #[trigger] self.child_min_ok(self.children(node_idx as int)[k2].1 as int, mins@[k2] as int),
                        forall|k2: int| 0 <= k2 < k ==> !key_lt(self.log@, #[trigger] self.repo_id(mins@[k2] as int), self.repo_id(mins@[best as int] as int)),
                    decreases nch - k,
                {
                    let child = self.nodes[node_idx].children[k].1;
                    proof {
                        self.lemma_child_facts(node_idx as int, k as int);
                    }
                    let mk = self.min_repo(child);
                    mins.push(mk);
                    if k == 0 {
                        best = 0;
                        proof {
                            lemma_key_lt_irreflexive(self.log@, self.repo_id(mk as int));
                        }
                    } else if {
                        proof {
                            assert(self.child_min_ok(self.children(node_idx as int)[best as int].1 as int, mins@[best as int] as int));
                        }
                        self.repo_less(mk, mins[best])
                    } {
                        proof {
                            let b = mins@[best as int] as int;
                            assert forall|k2: int| 0 <= k2 <= k implies !key_lt(self.log@, #[trigger] self.repo_id(mins@[k2] as int), self.repo_id(mk as int)) by {
                                if k2 < k && key_lt(self.log@, self.repo_id(mins@[k2] as int), self.repo_id(mk as int)) {
                                    lemma_key_lt_transitive(self.log@, self.repo_id(mins@[k2] as int), self.repo_id(mk as int), self.repo_id(b));
                                }
                                if k2 == k {
                                    lemma_key_lt_irreflexive(self.log@, self.repo_id(mk as int));
                                }
                            }
                        }
                        best = k;
                    }
                    k = k + 1;
                }
                proof {
                    if dist {
                        self.lemma_first_child(node_idx as int, mins@, best as int);
                    }
                }
                // the first (chosen) child inherits the complete path
                let (commit, child) = self.nodes[node_idx].children[best];
                let mut child_path = copy_vec(&path);
                child_path.push(commit);
                let ghost q_before = queue@;
                let ghost qpos_before = qpos;
                proof {
                    self.lemma_child_facts(node_idx as int, best as int);
                    self.lemma_child_entry(path@, node_idx as int, mins@, best as int, best as int, dist);
                    assert(!done_old.contains(node_idx as int));
                    assert(!qpos.contains_key(child as int));
                }
                queue.push((child_path, child));
                proof {
                    assert(queue@.drop_last() =~= q_before);
                    qpos = qpos.insert(child as int, (queue@.len() - 1) as int);
                    self.lemma_after_push(q_before, qpos_before, queue@, qpos, done, head as int);
                    self.lemma_chosen_pushed(qpos_before, qpos, done_old, done, node_idx as int, best as int, child as int);
                }
                // the other children start afresh from their own commit
                let mut k: usize = 0;
                while k < nch
                    invariant
                        k <= nch,
                        best < nch,
                        nch == self.children(node_idx as int).len(),
                        self.queue_ok(queue@, qpos, done, head as int),
                        forall|q: int| head <= q < queue@.len() ==> #[trigger] self.entry_ok(queue@[q], dist),
                        forall|j2: int| 0 < j2 < n ==> (#[trigger] qpos.contains_key(j2) <==> (done.contains(self.slot@[j2].0)
                            && (self.slot@[j2].0 == node_idx ==> (self.slot@[j2].1 == best || self.slot@[j2].1 < k)))),
                    decreases nch - k,
                {
                    if k != best {
                        let (commit, child) = self.nodes[node_idx].children[k];
                        let mut fresh = Vec::new();
                        fresh.push(commit);
                        let ghost q_before = queue@;
                        let ghost qpos_before = qpos;
                        proof {
                            self.lemma_child_facts(node_idx as int, k as int);
                            self.lemma_child_entry(path@, node_idx as int, mins@, best as int, k as int, dist);
                            assert(fresh@ =~= seq![commit]);
                            assert(!qpos.contains_key(child as int));
                        }
                        queue.push((fresh, child));
                        proof {
                            assert(queue@.drop_last() =~= q_before);
                            qpos = qpos.insert(child as int, (queue@.len() - 1) as int);
                            self.lemma_after_push(q_before, qpos_before, queue@, qpos, done, head as int);
                            assert forall|j2: int| 0 < j2 < n implies (#[trigger] qpos.contains_key(j2) <==> (done.contains(self.slot@[j2].0)
                                    && (self.slot@[j2].0 == node_idx ==> (self.slot@[j2].1 == best || self.slot@[j2].1 < k + 1)))) by {
                                if j2 == child as int {
                                } else {
                                    assert(qpos.contains_key(j2) == qpos_before.contains_key(j2));
                                    if self.slot@[j2].0 == node_idx as int && self.slot@[j2].1 == k as int {
                                        self.lemma_slot_child(j2);
                                    }
                                }
                            }
                        }
                    }
                    k = k + 1;
                }
                proof {
                    assert forall|j2: int| 0 < j2 < n implies (#[trigger] qpos.contains_key(j2) <==> done.contains(self.slot@[j2].0)) by {
                        if self.slot@[j2].0 == node_idx as int {
                            assert(self.slot_ok(log, self.full_dl(), j2));
                        }
                    }
                }
            }
            proof {
                lemma_queue_bound(qpos, n as int);
            }
        }
        proof {
            self.lemma_finish(results@, res_repo@, res_leaf, res_of, done, qpos, head as int, queue@, dist);
        }
        results
    }

    /// Finds the known repository with the given path components.
    fn find_repo(&self, components: &Vec<(u8, Vec<char>)>) -> (r: Option<usize>)
        ensures
            match r {
                Some(k) => k < self.all_repos@.len() && self.repo_id(k as int) == components_view(components@),
                None => forall|k: int|
                    0 <= k < self.all_repos@.len() ==> self.repo_id(k) != components_view(components@),
            },
    {
        let mut k: usize = 0;
        while k < self.all_repos.len()
            invariant
                k <= self.all_repos@.len(),
                forall|k2: int| 0 <= k2 < k ==> self.repo_id(k2) != components_view(components@),
            decreases self.all_repos@.len() - k,
        {
            if components_equal(&self.all_repos[k].components, components) {
                return Some(k);
            }
            k = k + 1;
        }
        None
    }

    /// Finds the child of node `cur` reached by commit `c`.
    fn find_child(&self, cur: usize, c: CommitId) -> (r: Option<usize>)
        requires
            cur < self.nodes@.len(),
        ensures
            match r {
                Some(j) => exists|k: int| 0 <= k < self.children(cur as int).len()
                    && self.children(cur as int)[k] == (CommitRef::GitCommit(c), j),
                None => forall|k: int| 0 <= k < self.children(cur as int).len()
                    ==> self.children(cur as int)[k].0 != CommitRef::GitCommit(c),
            },
    {
        let n = self.nodes[cur].children.len();
        let mut k: usize = 0;
        while k < n
            invariant
                cur < self.nodes@.len(),
                n == self.children(cur as int).len(),
                k <= n,
                forall|k2: int| 0 <= k2 < k ==> self.children(cur as int)[k2].0 != CommitRef::GitCommit(c),
            decreases n - k,
        {
            let (r, j) = self.nodes[cur].children[k];
            match r {
                CommitRef::GitCommit(c2) => {
                    if c2 == c {
                        return Some(j);
                    }
                },
                CommitRef::EoH => {},
            }
            k = k + 1;
        }
        None
    }
}

proof fn lemma_start(before: HistoryTrie, after: HistoryTrie, ins: Insertion, repo_idx: int)
    requires
        before.wf(),
        after.nodes@ == before.nodes@,
        after.labels@ == before.labels@,
        after.index_of@ == before.index_of@,
        after.slot@ == before.slot@,
        after.srcs@ == before.srcs@,
        after.log@ == before.log@.push(ins),
        after.repo_of@ == before.repo_of@.push(repo_idx),
        ({
            ||| (0 <= repo_idx < before.all_repos@.len() && after.all_repos@ == before.all_repos@
                && after.repo_first@ == before.repo_first@ && before.repo_id(repo_idx) == ins.id())
            ||| (repo_idx == before.all_repos@.len() && after.all_repos@.len() == repo_idx + 1
                && (forall|k: int| 0 <= k < repo_idx ==> after.all_repos@[k] == before.all_repos@[k])
                && after.repo_first@ == before.repo_first@.push(before.log@.len() as int)
                && (forall|k: int| 0 <= k < repo_idx ==> before.repo_id(k) != ins.id())
                && after.all_repos@[repo_idx].path@ == ins.path
                && after.all_repos@[repo_idx].priority == ins.priority
                && after.repo_id(repo_idx) == ins.id())
        }),
    ensures
        after.inv(after.log@, 0, false),
{
    let log = before.log@;
    let nlog = after.log@;
    let full: nat = if log.len() == 0 { 0 } else { log.last().commits.len() };
    let tn = log.len() as int;
    assert forall|t: int| 0 <= t < tn implies cpre(nlog, 0, t) == #[trigger] cpre(log, full, t) by {
        if t == tn - 1 {
            assert(log[t].commits.take(full as int) =~= log[t].commits);
        }
        assert(nlog[t] == log[t]);
    }
    assert(cpre(nlog, 0, tn) =~= Seq::<CommitId>::empty());
    assert forall|t: int, p: Seq<CommitId>| 0 <= t < tn implies through(nlog, 0, t, p) == #[trigger] through(log, full, t, p) by {
        assert(cpre(nlog, 0, t) == cpre(log, full, t));
    }
    // coverage of prefixes
    assert forall|t: int, d: int|
        0 <= t < nlog.len() && 0 <= d <= cpre(nlog, 0, t).len() implies after.index_of@.contains_key(
        NodeLabel::Prefix(#[trigger] cpre(nlog, 0, t).take(d)),
    ) by {
        if t < tn {
            assert(cpre(nlog, 0, t) == cpre(log, full, t));
        } else {
            assert(cpre(nlog, 0, t).take(d) =~= Seq::<CommitId>::empty());
            assert(is_root_label(before.labels@[0]));
        }
    }
    assert forall|t: int|
        0 <= t < nlog.len() && #[trigger] has_leaf(nlog, false, t) implies after.index_of@.contains_key(
        NodeLabel::Leaf(t as nat),
    ) by {
        assert(has_leaf(log, true, t));
    }
    assert forall|i: int, k: int|
        0 <= i < after.nodes@.len() && 0 <= k < after.children(i).len() implies #[trigger] after.child_ok(nlog, 0, false, i, k) by {
        assert(before.child_ok(log, full, true, i, k));
        let (r, j) = after.children(i)[k];
        if before.labels@[j as int] is Leaf {
            let tl = before.labels@[j as int]->Leaf_0 as int;
            assert(before.label_ok(log, full, true, j as int));
            assert(cpre(nlog, 0, tl) == cpre(log, full, tl));
        }
    }
    assert forall|j: int| 0 < j < after.nodes@.len() implies #[trigger] after.slot_ok(nlog, 0, j) by {
        assert(before.slot_ok(log, full, j));
        if before.labels@[j] is Leaf {
            let tl = before.labels@[j]->Leaf_0 as int;
            assert(before.label_ok(log, full, true, j));
            assert(cpre(nlog, 0, tl) == cpre(log, full, tl));
        }
    }
    assert forall|i: int| 0 <= i < after.nodes@.len() implies #[trigger] after.label_ok(nlog, 0, false, i) by {
        assert(before.label_ok(log, full, true, i));
        let reps = after.nodes@[i].repos@;
        let srcs = after.srcs@[i];
        assert forall|m: int| 0 <= m < reps.len() implies 0 <= #[trigger] srcs[m] < nlog.len() && reps[m] == after.repo_of@[srcs[m]] by {
            assert(after.repo_of@[srcs[m]] == before.repo_of@[srcs[m]]);
        }
        match after.labels@[i] {
            NodeLabel::Prefix(p) => {
                if p.len() > 0 {
                    assert forall|m: int| 0 <= m < reps.len() implies through(nlog, 0, #[trigger] srcs[m], p) by {
                        assert(through(log, full, srcs[m], p));
                    }
                    assert forall|t: int| #[trigger] through(nlog, 0, t, p) implies exists|m: int| 0 <= m < reps.len() && srcs[m] == t by {
                        if t == tn {
                            assert(cpre(nlog, 0, t).len() == 0);
                        } else {
                            assert(through(log, full, t, p));
                        }
                    }
                }
            },
            NodeLabel::Leaf(t) => {},
        }
    }
    assert forall|t: int|
        0 <= t < nlog.len() implies 0 <= #[trigger] after.repo_of@[t] < after.all_repos@.len()
            && after.repo_id(after.repo_of@[t]) == nlog[t].id() by {
        if t < tn {
            assert(after.repo_id(before.repo_of@[t]) == before.repo_id(before.repo_of@[t]));
        }
    }
    assert forall|k: int| 0 <= k < after.all_repos@.len() implies {
        let f = #[trigger] after.repo_first@[k];
        &&& 0 <= f < nlog.len()
        &&& after.repo_of@[f] == k
        &&& forall|t: int| 0 <= t < f ==> #[trigger] nlog[t].id() != nlog[f].id()
        &&& after.all_repos@[k].path@ == nlog[f].path
        &&& after.all_repos@[k].priority == nlog[f].priority
        &&& after.repo_id(k) == path_components_of(after.all_repos@[k].path@)
    } by {
        if k < before.all_repos@.len() {
            let f = before.repo_first@[k];
            assert(after.repo_first@[k] == f);
            assert(nlog[f] == log[f]);
            assert forall|t: int| 0 <= t < f implies #[trigger] nlog[t].id() != nlog[f].id() by {
                assert(nlog[t] == log[t]);
            }
        } else {
            assert forall|t: int| 0 <= t < tn implies #[trigger] nlog[t].id() != nlog[tn].id() by {
                assert(nlog[t] == log[t]);
                let k2 = before.repo_of@[t];
                assert(before.repo_id(k2) == log[t].id());
            }
        }
    }
    assert forall|a: int, b: int|
        0 <= a < after.all_repos@.len() && 0 <= b < after.all_repos@.len() && a != b
            implies #[trigger] after.repo_id(a) != #[trigger] after.repo_id(b) by {
        if a < before.all_repos@.len() && b < before.all_repos@.len() {
            assert(after.repo_id(a) == before.repo_id(a));
            assert(after.repo_id(b) == before.repo_id(b));
        } else if a < before.all_repos@.len() {
            assert(after.repo_id(a) == before.repo_id(a));
        } else if b < before.all_repos@.len() {
            assert(after.repo_id(b) == before.repo_id(b));
        }
    }
}

proof fn lemma_new_label_absent(t: HistoryTrie, log: Seq<Insertion>, d: nat, cur: int, c: CommitId)
    requires
        t.inv(log, d, false),
        log.len() > 0,
        d < log.last().commits.len(),
        c == log.last().commits[d as int],
        0 <= cur < t.nodes@.len(),
        t.labels@[cur] == NodeLabel::Prefix(log.last().commits.take(d as int)),
        forall|k: int| 0 <= k < t.children(cur).len() ==> t.children(cur)[k].0 != CommitRef::GitCommit(c),
    ensures
        !t.index_of@.contains_key(NodeLabel::Prefix(log.last().commits.take(d as int + 1))),
{
    let s = log.last().commits;
    let l = NodeLabel::Prefix(s.take(d as int + 1));
    if t.index_of@.contains_key(l) {
        let j = t.index_of@[l];
        assert(t.labels@[j] == l);
        assert(s.take(d as int + 1).len() == d + 1);
        if j == 0 {
            assert(is_root_label(t.labels@[0]));
            assert(false);
        }
        assert(t.slot_ok(log, d, j));
        let (i, k) = t.slot@[j];
        assert(s.take(d as int + 1).drop_last() =~= s.take(d as int));
        assert(t.labels@[i] == t.labels@[cur]);
        assert(t.index_of@[t.labels@[i]] == i);
        assert(t.index_of@[t.labels@[cur]] == cur);
        assert(t.child_ok(log, d, false, cur, k));
        match t.children(cur)[k].0 {
            CommitRef::GitCommit(c2) => {
                assert(s.take(d as int).push(c2)[d as int] == c2);
                assert(s.take(d as int + 1)[d as int] == c);
            },
            CommitRef::EoH => {},
        }
    }
}

proof fn lemma_step(
    before: HistoryTrie,
    after: HistoryTrie,
    log: Seq<Insertion>,
    d: nat,
    cur: int,
    ju: usize,
    c: CommitId,
    created: bool,
    repo_idx: usize,
)
    requires
        before.inv(log, d, false),
        log.len() > 0,
        d < log.last().commits.len(),
        c == log.last().commits[d as int],
        0 <= cur < before.nodes@.len(),
        before.labels@[cur] == NodeLabel::Prefix(log.last().commits.take(d as int)),
        after.all_repos@ == before.all_repos@,
        after.log@ == before.log@,
        after.repo_of@ == before.repo_of@,
        after.repo_first@ == before.repo_first@,
        before.repo_of@[log.len() - 1] == repo_idx as int,
        !created ==> {
            &&& exists|k: int| 0 <= k < before.children(cur).len() && before.children(cur)[k] == (CommitRef::GitCommit(c), ju)
            &&& 0 <= (ju as int) < before.nodes@.len()
            &&& after.nodes@.len() == before.nodes@.len()
            &&& forall|i: int| 0 <= i < before.nodes@.len() && i != (ju as int) ==> after.nodes@[i] == before.nodes@[i]
            &&& after.nodes@[(ju as int)].children@ == before.nodes@[(ju as int)].children@
            &&& after.nodes@[(ju as int)].repos@ == before.nodes@[(ju as int)].repos@.push(repo_idx)
            &&& after.labels@ == before.labels@
            &&& after.index_of@ == before.index_of@
            &&& after.slot@ == before.slot@
            &&& after.srcs@ == before.srcs@.update((ju as int), before.srcs@[(ju as int)].push(log.len() - 1))
        },
        created ==> {
            let l = NodeLabel::Prefix(log.last().commits.take(d as int + 1));
            &&& !before.index_of@.contains_key(l)
            &&& (ju as int) == before.nodes@.len()
            &&& after.nodes@.len() == (ju as int) + 1
            &&& forall|i: int| 0 <= i < before.nodes@.len() && i != cur ==> after.nodes@[i] == before.nodes@[i]
            &&& after.nodes@[cur].repos@ == before.nodes@[cur].repos@
            &&& after.nodes@[cur].children@ == before.nodes@[cur].children@.push((CommitRef::GitCommit(c), ju))
            &&& after.nodes@[(ju as int)].repos@ == seq![repo_idx]
            &&& after.nodes@[(ju as int)].children@.len() == 0
            &&& after.labels@ == before.labels@.push(l)
            &&& after.index_of@ == before.index_of@.insert(l, (ju as int))
            &&& after.slot@ == before.slot@.push((cur, before.children(cur).len() as int))
            &&& after.srcs@ == before.srcs@.push(seq![log.len() - 1])
        },
    ensures
        after.inv(log, d + 1, false),
        0 <= (ju as int) < after.nodes@.len(),
        after.labels@[(ju as int)] == NodeLabel::Prefix(log.last().commits.take(d as int + 1)),
{
    let j = ju as int;
    let s = log.last().commits;
    let tn = log.len() - 1;
    let pj = s.take(d as int + 1);
    let lj = NodeLabel::Prefix(pj);
    let nb = before.nodes@.len();
    assert(s.take(d as int).push(c) =~= pj);
    assert(pj.drop_last() =~= s.take(d as int));
    if !created {
        let k = choose|k: int| 0 <= k < before.children(cur).len() && before.children(cur)[k] == (CommitRef::GitCommit(c), ju);
        assert(before.child_ok(log, d, false, cur, k));
        assert(before.children(cur)[k].1 as int == j);
        assert(before.labels@[j] == NodeLabel::Prefix(s.take(d as int).push(c)));
    }
    assert(after.labels@[j] == lj);
    assert forall|t: int| 0 <= t < log.len() && t != tn implies #[trigger] cpre(log, d + 1, t) == cpre(log, d, t) by {}
    assert(cpre(log, d + 1, tn) == pj);
    assert(cpre(log, d, tn) == s.take(d as int));
    assert forall|t: int, p: Seq<CommitId>| #[trigger] through(log, d + 1, t, p) && !through(log, d, t, p) implies t == tn && p == pj by {
        if t == tn {
            if p.len() <= d {
                assert(pj.take(p.len() as int) =~= s.take(d as int).take(p.len() as int));
            } else {
                assert(p =~= pj);
            }
        }
    }
    assert forall|t: int, p: Seq<CommitId>| through(log, d, t, p) implies #[trigger] through(log, d + 1, t, p) by {
        if t == tn {
            assert(pj.take(p.len() as int) =~= s.take(d as int).take(p.len() as int));
        }
    }
    assert(pj.take(pj.len() as int) =~= pj);
    assert(log[tn] == log.last());
    assert(through(log, d + 1, tn, pj));
    // index map
    assert forall|i: int| 0 <= i < after.nodes@.len() implies after.index_of@.contains_key(#[trigger] after.labels@[i]) && after.index_of@[after.labels@[i]] == i by {
        if created && i < nb {
            assert(before.index_of@.contains_key(before.labels@[i]));
            assert(before.labels@[i] != lj);
        }
    }
    assert forall|l: NodeLabel| #[trigger] after.index_of@.contains_key(l) implies 0 <= after.index_of@[l] < after.nodes@.len() && after.labels@[after.index_of@[l]] == l by {
        if created && l != lj {
            assert(before.index_of@.contains_key(l));
        }
    }
    // coverage
    assert forall|t: int, e: int|
        0 <= t < log.len() && 0 <= e <= cpre(log, d + 1, t).len() implies after.index_of@.contains_key(
        NodeLabel::Prefix(#[trigger] cpre(log, d + 1, t).take(e)),
    ) by {
        if t == tn {
            if e <= d {
                assert(pj.take(e) =~= s.take(d as int).take(e));
                assert(before.index_of@.contains_key(NodeLabel::Prefix(cpre(log, d, t).take(e))));
            } else {
                assert(pj.take(e) =~= pj);
                assert(after.index_of@.contains_key(after.labels@[j]));
            }
        } else {
            assert(before.index_of@.contains_key(NodeLabel::Prefix(cpre(log, d, t).take(e))));
        }
    }
    assert forall|t: int|
        0 <= t < log.len() && #[trigger] has_leaf(log, false, t) implies after.index_of@.contains_key(
        NodeLabel::Leaf(t as nat),
    ) by {
        assert(before.index_of@.contains_key(NodeLabel::Leaf(t as nat)));
    }
    // children
    assert forall|i: int, k: int|
        0 <= i < after.nodes@.len() && 0 <= k < after.children(i).len() implies #[trigger] after.child_ok(log, d + 1, false, i, k) by {
        if created && i == j {
        } else if created && i == cur && k == before.children(cur).len() {
        } else {
            assert(after.children(i)[k] == before.children(i)[k]);
            assert(before.child_ok(log, d, false, i, k));
            let (r, j2) = before.children(i)[k];
            if before.labels@[j2 as int] is Leaf {
                let tl = before.labels@[j2 as int]->Leaf_0 as int;
                assert(before.label_ok(log, d, false, j2 as int));
                assert(cpre(log, d + 1, tl) == cpre(log, d, tl));
            }
        }
    }
    assert forall|j2: int| 0 < j2 < after.nodes@.len() implies #[trigger] after.slot_ok(log, d + 1, j2) by {
        if created && j2 == j {
            assert(after.slot@[j2] == (cur, before.children(cur).len() as int));
            assert(after.children(cur)[before.children(cur).len() as int].1 == j);
            assert(parent_prefix(log, d + 1, lj) == s.take(d as int));
            assert(after.labels@[cur] == before.labels@[cur]);
        } else {
            assert(before.slot_ok(log, d, j2));
            let (i, k) = before.slot@[j2];
            assert(after.slot@[j2] == before.slot@[j2]);
            assert(after.labels@[j2] == before.labels@[j2]);
            assert(after.labels@[i] == before.labels@[i]);
            assert(after.children(i)[k] == before.children(i)[k]);
            if before.labels@[j2] is Leaf {
                let tl = before.labels@[j2]->Leaf_0 as int;
                assert(before.label_ok(log, d, false, j2));
                assert(cpre(log, d + 1, tl) == cpre(log, d, tl));
            }
        }
    }
    assert forall|i: int| 0 <= i < after.nodes@.len() implies #[trigger] after.label_ok(log, d + 1, false, i) by {
        let reps = after.nodes@[i].repos@;
        let srcs = after.srcs@[i];
        if i == j {
            if !created {
                assert(before.label_ok(log, d, false, j));
                let breps = before.nodes@[j].repos@;
                let bsrcs = before.srcs@[j];
                assert forall|m: int| 0 <= m < reps.len() implies 0 <= #[trigger] srcs[m] < log.len() && reps[m] == after.repo_of@[srcs[m]] by {
                    if m < breps.len() {
                        assert(srcs[m] == bsrcs[m]);
                    }
                }
                assert forall|m: int| 0 <= m < reps.len() implies through(log, d + 1, #[trigger] srcs[m], pj) by {
                    if m < breps.len() {
                        assert(srcs[m] == bsrcs[m]);
                        assert(through(log, d, bsrcs[m], pj));
                    }
                }
                assert forall|t: int| #[trigger] through(log, d + 1, t, pj) implies exists|m: int| 0 <= m < reps.len() && srcs[m] == t by {
                    if t == tn {
                        assert(srcs[reps.len() - 1] == t);
                    } else {
                        assert(through(log, d, t, pj));
                        let m = choose|m: int| 0 <= m < breps.len() && bsrcs[m] == t;
                        assert(srcs[m] == t);
                    }
                }
            } else {
                assert forall|t: int| #[trigger] through(log, d + 1, t, pj) implies exists|m: int| 0 <= m < reps.len() && srcs[m] == t by {
                    if t != tn {
                        assert(through(log, d, t, pj));
                        assert(pj.len() <= cpre(log, d, t).len());
                        assert(cpre(log, d, t).take(pj.len() as int) == pj);
                        assert(before.index_of@.contains_key(NodeLabel::Prefix(cpre(log, d, t).take(pj.len() as int))));
                    }
                    assert(srcs[0] == tn);
                }
                assert(srcs[0] == tn);
            }
        } else {
            assert(before.label_ok(log, d, false, i));
            assert(reps == before.nodes@[i].repos@);
            assert(srcs == before.srcs@[i]);
            match after.labels@[i] {
                NodeLabel::Prefix(p) => {
                    assert(after.labels@[i] == before.labels@[i]);
                    if p == pj {
                        assert(after.index_of@[after.labels@[i]] == i);
                        assert(after.index_of@[after.labels@[j]] == j);
                    }
                    assert forall|m: int| 0 <= m < reps.len() && p.len() > 0 implies through(log, d + 1, #[trigger] srcs[m], p) by {
                        assert(through(log, d, srcs[m], p));
                    }
                    assert forall|t: int| p.len() > 0 && #[trigger] through(log, d + 1, t, p) implies exists|m: int| 0 <= m < reps.len() && srcs[m] == t by {
                        assert(through(log, d, t, p));
                    }
                },
                NodeLabel::Leaf(t) => {
                    assert(after.labels@[i] == before.labels@[i]);
                    if created && i == cur {
                        assert(false);
                    }
                },
            }
        }
    }
    assert(after.slot@.len() == after.nodes@.len());
    assert(after.srcs@.len() == after.nodes@.len());
    assert(after.labels@.len() == after.nodes@.len());
    assert(is_root_label(after.labels@[0]));
    assert(forall|t: int|
            0 <= t < log.len() ==> 0 <= #[trigger] after.repo_of@[t] < after.all_repos@.len()
                && after.repo_id(after.repo_of@[t]) == log[t].id());
    assert forall|k: int| 0 <= k < after.all_repos@.len() implies #[trigger] after.repo_id(k) == before.repo_id(k) by {}
    assert forall|k: int| 0 <= k < after.all_repos@.len() implies {
        let f = #[trigger] after.repo_first@[k];
        &&& 0 <= f < log.len()
        &&& after.repo_of@[f] == k
        &&& forall|t: int| 0 <= t < f ==> #[trigger] log[t].id() != log[f].id()
        &&& after.all_repos@[k].path@ == log[f].path
        &&& after.all_repos@[k].priority == log[f].priority
        &&& after.repo_id(k) == path_components_of(after.all_repos@[k].path@)
    } by {
        assert(before.repo_first@[k] == after.repo_first@[k]);
    }
    assert forall|a: int, b: int|
            0 <= a < after.all_repos@.len() && 0 <= b < after.all_repos@.len() && a != b
                implies #[trigger] after.repo_id(a) != #[trigger] after.repo_id(b) by {
        assert(before.repo_id(a) != before.repo_id(b));
    }
}

proof fn lemma_leaf(before: HistoryTrie, after: HistoryTrie, log: Seq<Insertion>, cur: int, ju: usize, repo_idx: usize)
    requires
        log.len() > 0,
        before.inv(log, log.last().commits.len(), false),
        0 <= cur < before.nodes@.len(),
        before.labels@[cur] == NodeLabel::Prefix(log.last().commits),
        after.all_repos@ == before.all_repos@,
        after.log@ == before.log@,
        after.repo_of@ == before.repo_of@,
        after.repo_first@ == before.repo_first@,
        before.repo_of@[log.len() - 1] == repo_idx as int,
        ju as int == before.nodes@.len(),
        after.nodes@.len() == ju as int + 1,
        forall|i: int| 0 <= i < before.nodes@.len() && i != cur ==> after.nodes@[i] == before.nodes@[i],
        after.nodes@[cur].repos@ == before.nodes@[cur].repos@,
        after.nodes@[cur].children@ == before.nodes@[cur].children@.push((CommitRef::EoH, ju)),
        after.nodes@[ju as int].repos@ == seq![repo_idx],
        after.nodes@[ju as int].children@.len() == 0,
        after.labels@ == before.labels@.push(NodeLabel::Leaf((log.len() - 1) as nat)),
        after.index_of@ == before.index_of@.insert(NodeLabel::Leaf((log.len() - 1) as nat), ju as int),
        after.slot@ == before.slot@.push((cur, before.children(cur).len() as int)),
        after.srcs@ == before.srcs@.push(seq![log.len() - 1]),
    ensures
        after.inv(log, log.last().commits.len(), true),
{
    let s = log.last().commits;
    let full = s.len();
    let tn = log.len() - 1;
    let j = ju as int;
    let lj = NodeLabel::Leaf(tn as nat);
    let nb = before.nodes@.len();
    assert(log[tn] == log.last());
    assert(s.take(full as int) =~= s);
    assert(cpre(log, full, tn) == s);
    assert(!before.index_of@.contains_key(lj)) by {
        if before.index_of@.contains_key(lj) {
            let i = before.index_of@[lj];
            assert(before.label_ok(log, full, false, i));
        }
    }
    assert forall|i: int| 0 <= i < after.nodes@.len() implies after.index_of@.contains_key(#[trigger] after.labels@[i]) && after.index_of@[after.labels@[i]] == i by {
        if i < nb {
            assert(before.index_of@.contains_key(before.labels@[i]));
        }
    }
    assert forall|l: NodeLabel| #[trigger] after.index_of@.contains_key(l) implies 0 <= after.index_of@[l] < after.nodes@.len() && after.labels@[after.index_of@[l]] == l by {
        if l != lj {
            assert(before.index_of@.contains_key(l));
        }
    }
    assert forall|t: int, e: int|
        0 <= t < log.len() && 0 <= e <= cpre(log, full, t).len() implies after.index_of@.contains_key(
        NodeLabel::Prefix(#[trigger] cpre(log, full, t).take(e)),
    ) by {
        assert(before.index_of@.contains_key(NodeLabel::Prefix(cpre(log, full, t).take(e))));
    }
    assert forall|t: int|
        0 <= t < log.len() && #[trigger] has_leaf(log, true, t) implies after.index_of@.contains_key(
        NodeLabel::Leaf(t as nat),
    ) by {
        if t != tn {
            assert(has_leaf(log, false, t));
            assert(before.index_of@.contains_key(NodeLabel::Leaf(t as nat)));
        }
    }
    assert forall|i: int, k: int|
        0 <= i < after.nodes@.len() && 0 <= k < after.children(i).len() implies #[trigger] after.child_ok(log, full, true, i, k) by {
        if i == j {
        } else if i == cur && k == before.children(cur).len() {
            assert(after.labels@[j] == lj);
            assert(after.labels@[cur] == before.labels@[cur]);
        } else {
            assert(after.children(i)[k] == before.children(i)[k]);
            assert(before.child_ok(log, full, false, i, k));
        }
    }
    assert forall|j2: int| 0 < j2 < after.nodes@.len() implies #[trigger] after.slot_ok(log, full, j2) by {
        if j2 == j {
            assert(after.children(cur)[before.children(cur).len() as int].1 == ju);
            assert(after.labels@[cur] == before.labels@[cur]);
        } else {
            assert(before.slot_ok(log, full, j2));
            let (i, k) = before.slot@[j2];
            assert(after.slot@[j2] == before.slot@[j2]);
            assert(after.labels@[j2] == before.labels@[j2]);
            assert(after.labels@[i] == before.labels@[i]);
            assert(after.children(i)[k] == before.children(i)[k]);
        }
    }
    assert forall|i: int| 0 <= i < after.nodes@.len() implies #[trigger] after.label_ok(log, full, true, i) by {
        if i == j {
            assert(after.srcs@[j] == seq![tn]);
        } else {
            assert(before.label_ok(log, full, false, i));
            assert(after.labels@[i] == before.labels@[i]);
            assert(after.srcs@[i] == before.srcs@[i]);
            match after.labels@[i] {
                NodeLabel::Prefix(p) => {},
                NodeLabel::Leaf(t) => {
                    if i == cur {
                        assert(false);
                    }
                },
            }
        }
    }
    assert forall|k: int| 0 <= k < after.all_repos@.len() implies #[trigger] after.repo_id(k) == before.repo_id(k) by {}
    assert forall|k: int| 0 <= k < after.all_repos@.len() implies {
        let f = #[trigger] after.repo_first@[k];
        &&& 0 <= f < log.len()
        &&& after.repo_of@[f] == k
        &&& forall|t: int| 0 <= t < f ==> #[trigger] log[t].id() != log[f].id()
        &&& after.all_repos@[k].path@ == log[f].path
        &&& after.all_repos@[k].priority == log[f].priority
        &&& after.repo_id(k) == path_components_of(after.all_repos@[k].path@)
    } by {
        assert(before.repo_first@[k] == after.repo_first@[k]);
    }
    assert forall|a: int, b: int|
            0 <= a < after.all_repos@.len() && 0 <= b < after.all_repos@.len() && a != b
                implies #[trigger] after.repo_id(a) != #[trigger] after.repo_id(b) by {
        assert(before.repo_id(a) != before.repo_id(b));
    }
}


spec fn refs(x: Seq<CommitId>) -> Seq<CommitRef> {
    x.map_values(|c: CommitId| CommitRef::GitCommit(c))
}

spec fn path_spec(log: Seq<Insertion>, l: NodeLabel) -> Seq<CommitRef> {
    match l {
        NodeLabel::Prefix(p) => refs(p.skip(last_change(log, p) as int)),
        NodeLabel::Leaf(t) => refs(kept_commits(log, log[t as int])).push(CommitRef::EoH),
    }
}

spec fn leafness_ok(l: NodeLabel, path: Seq<CommitRef>) -> bool {
    (l is Leaf) == (path.len() > 0 && path.last() is EoH)
}

spec fn extract_commits(path: Seq<CommitRef>) -> Seq<CommitId>
    decreases path.len(),
{
    if path.len() == 0 {
        Seq::empty()
    } else {
        match path[0] {
            CommitRef::GitCommit(c) => seq![c] + extract_commits(path.drop_first()),
            CommitRef::EoH => Seq::empty(),
        }
    }
}

proof fn lemma_extract_refs(x: Seq<CommitId>)
    ensures
        extract_commits(refs(x).push(CommitRef::EoH)) == x,
    decreases x.len(),
{
    if x.len() == 0 {
        assert(refs(x).push(CommitRef::EoH)[0] == CommitRef::EoH);
    } else {
        lemma_extract_refs(x.drop_first());
        assert(refs(x).push(CommitRef::EoH).drop_first() =~= refs(x.drop_first()).push(CommitRef::EoH));
        assert(x =~= seq![x[0]] + x.drop_first());
    }
}

proof fn lemma_last_change_le(log: Seq<Insertion>, p: Seq<CommitId>)
    ensures
        last_change(log, p) <= p.len(),
    decreases p.len(),
{
    if p.len() > 0 {
        lemma_last_change_le(log, p.drop_last());
    }
}

proof fn lemma_queue_bound(qpos: Map<int, int>, n: int)
    requires
        qpos.dom().finite(),
        forall|j: int| #[trigger] qpos.contains_key(j) ==> 0 <= j < n,
        n >= 0,
    ensures
        qpos.dom().len() <= n,
{
    vstd::set_lib::lemma_int_range(0, n);
    assert(qpos.dom().subset_of(vstd::set_lib::set_int_range(0, n)));
    vstd::set_lib::lemma_len_subset(qpos.dom(), vstd::set_lib::set_int_range(0, n));
}

fn copy_vec<T: Copy>(v: &Vec<T>) -> (r: Vec<T>)
    ensures
        r@ == v@,
{
    let mut r = Vec::new();
    let mut i: usize = 0;
    while i < v.len()
        invariant
            i <= v@.len(),
            r@ == v@.take(i as int),
        decreases v@.len() - i,
    {
        r.push(v[i]);
        i = i + 1;
        assert(r@ =~= v@.take(i as int));
    }
    assert(v@.take(v@.len() as int) =~= v@);
    r
}

fn extract_path(path: &Vec<CommitRef>) -> (r: Vec<CommitId>)
    ensures
        r@ == extract_commits(path@),
{
    let mut r = Vec::new();
    let mut i: usize = 0;
    assert(path@.skip(0) =~= path@);
    while i < path.len()
        invariant
            i <= path@.len(),
            extract_commits(path@) == r@ + extract_commits(path@.skip(i as int)),
        decreases path@.len() - i,
    {
        match path[i] {
            CommitRef::GitCommit(c) => {
                assert(path@.skip(i as int).drop_first() =~= path@.skip(i + 1));
                assert(path@.skip(i as int)[0] == path@[i as int]);
                r.push(c);
                assert(r@ + extract_commits(path@.skip(i + 1)) =~= (r@.drop_last() + (seq![c] + extract_commits(path@.skip(i + 1)))));
            },
            CommitRef::EoH => {
                assert(path@.skip(i as int)[0] == path@[i as int]);
                assert(r@ + Seq::<CommitId>::empty() =~= r@);
                return r;
            },
        }
        i = i + 1;
    }
    assert(path@.skip(i as int) =~= Seq::<CommitRef>::empty());
    assert(r@ + Seq::<CommitId>::empty() =~= r@);
    r
}

/// An entry of the result of `get_all_sequences_iterative` that answers for insertion `ins`: it
/// carries the repository's path and the commits that fork detection leaves to it.
pub open spec fn entry_matches(log: Seq<Insertion>, entry: (String, Vec<CommitId>), ins: Insertion) -> bool {
    &&& entry.0@ == first_path(log, ins.id())
    &&& entry.1@ == kept_commits(log, ins)
}

/// Entry `e` of a result answers for some insertion.
pub open spec fn entry_answered(log: Seq<Insertion>, r: Seq<(String, Vec<CommitId>)>, e: int) -> bool {
    exists|t: int| 0 <= t < log.len() && #[trigger] entry_matches(log, r[e], log[t])
}

/// Insertion `t` is answered by some entry of a result.
pub open spec fn insertion_answered(log: Seq<Insertion>, r: Seq<(String, Vec<CommitId>)>, t: int) -> bool {
    exists|e: int| 0 <= e < r.len() && #[trigger] entry_matches(log, r[e], log[t])
}

spec fn through_full(log: Seq<Insertion>, t: int, p: Seq<CommitId>) -> bool {
    0 <= t < log.len() && is_prefix(p, log[t].commits)
}

/// `x` is a best-ranked repository among those whose history starts with `p`.
spec fn minimal_at(log: Seq<Insertion>, p: Seq<CommitId>, x: RepoId) -> bool {
    &&& exists|t: int| #[trigger] through_full(log, t, p) && log[t].id() == x
    &&& forall|t: int| #[trigger] through_full(log, t, p) ==> !key_lt(log, log[t].id(), x)
}

proof fn lemma_key_lt_irreflexive(log: Seq<Insertion>, a: RepoId)
    ensures
        !key_lt(log, a, a),
{
    lemma_components_lt_irreflexive(a);
}

proof fn lemma_key_lt_transitive(log: Seq<Insertion>, a: RepoId, b: RepoId, c: RepoId)
    requires
        key_lt(log, a, b),
        key_lt(log, b, c),
    ensures
        key_lt(log, a, c),
{
    if first_priority(log, a) == first_priority(log, b) && first_priority(log, b) == first_priority(log, c) {
        lemma_components_lt_transitive(a, b, c);
    }
}

proof fn lemma_key_lt_total(log: Seq<Insertion>, a: RepoId, b: RepoId)
    requires
        a != b,
    ensures
        key_lt(log, a, b) || key_lt(log, b, a),
{
    lemma_components_lt_total(a, b);
}

proof fn lemma_leader_upto(log: Seq<Insertion>, n: int, p: Seq<CommitId>)
    requires
        0 <= n <= log.len(),
    ensures
        match leader_upto(log, n, p) {
            None => forall|t: int| 0 <= t < n ==> !is_prefix(p, #[trigger] log[t].commits),
            Some(m) => {
                &&& exists|t: int| 0 <= t < n && is_prefix(p, #[trigger] log[t].commits) && log[t].id() == m
                &&& forall|t: int| 0 <= t < n && is_prefix(p, #[trigger] log[t].commits) ==> !key_lt(log, log[t].id(), m)
            },
        },
    decreases n,
{
    if n > 0 {
        lemma_leader_upto(log, n - 1, p);
        let t = log[n - 1];
        if is_prefix(p, t.commits) {
            match leader_upto(log, n - 1, p) {
                None => {
                    lemma_key_lt_irreflexive(log, t.id());
                },
                Some(m) => {
                    if key_lt(log, t.id(), m) {
                        assert forall|t2: int| 0 <= t2 < n && is_prefix(p, #[trigger] log[t2].commits) implies !key_lt(log, log[t2].id(), t.id()) by {
                            if t2 < n - 1 && key_lt(log, log[t2].id(), t.id()) {
                                lemma_key_lt_transitive(log, log[t2].id(), t.id(), m);
                            }
                            if t2 == n - 1 {
                                lemma_key_lt_irreflexive(log, t.id());
                            }
                        }
                    } else {
                        assert forall|t2: int| 0 <= t2 < n && is_prefix(p, #[trigger] log[t2].commits) implies !key_lt(log, log[t2].id(), m) by {}
                    }
                },
            }
        }
    }
}

proof fn lemma_leader_minimal(log: Seq<Insertion>, p: Seq<CommitId>, t0: int)
    requires
        through_full(log, t0, p),
    ensures
        leader(log, p) is Some,
        minimal_at(log, p, leader(log, p)->0),
{
    lemma_leader_upto(log, log.len() as int, p);
    let m = leader(log, p)->0;
    let t = choose|t: int| 0 <= t < log.len() && is_prefix(p, #[trigger] log[t].commits) && log[t].id() == m;
    assert(through_full(log, t, p));
}

proof fn lemma_leader_unique(log: Seq<Insertion>, p: Seq<CommitId>, x: RepoId)
    requires
        minimal_at(log, p, x),
    ensures
        leader(log, p) == Some(x),
{
    let t0 = choose|t: int| #[trigger] through_full(log, t, p) && log[t].id() == x;
    lemma_leader_minimal(log, p, t0);
    let m = leader(log, p)->0;
    if m != x {
        let tm = choose|t: int| #[trigger] through_full(log, t, p) && log[t].id() == m;
        lemma_key_lt_total(log, m, x);
    }
}

proof fn lemma_first(log: Seq<Insertion>, f: int, id: RepoId)
    requires
        0 <= f < log.len(),
        log[f].id() == id,
        forall|t: int| 0 <= t < f ==> #[trigger] log[t].id() != id,
    ensures
        first_priority(log, id) == log[f].priority,
        first_path(log, id) == log[f].path,
    decreases f,
{
    if f > 0 {
        assert(log[0].id() != id);
        assert forall|t: int| 0 <= t < f - 1 implies #[trigger] log.drop_first()[t].id() != id by {
            assert(log.drop_first()[t] == log[t + 1]);
        }
        lemma_first(log.drop_first(), f - 1, id);
    }
}

} // verus!

verus! {

/// Along `s`, the leader stays the leader of `s` itself past its last change.
proof fn lemma_leader_after_last_change(log: Seq<Insertion>, s: Seq<CommitId>, e: int)
    requires
        last_change(log, s) < e <= s.len(),
    ensures
        leader(log, s.take(e)) == leader(log, s),
    decreases s.len(),
{
    assert(s.take(s.len() as int) =~= s);
    if e < s.len() {
        let dl = s.drop_last();
        if leader(log, dl) == leader(log, s) {
            lemma_leader_after_last_change(log, dl, e);
            assert(dl.take(e) =~= s.take(e));
            assert(dl.take(dl.len() as int) =~= dl);
        }
    }
}

/// A leader that holds along `s` from length `m` on leaves no change of leader at or after `m`.
proof fn lemma_last_change_before(log: Seq<Insertion>, s: Seq<CommitId>, m: int)
    requires
        0 <= m <= s.len(),
        forall|e: int| m <= e <= s.len() ==> #[trigger] leader(log, s.take(e)) == leader(log, s),
    ensures
        last_change(log, s) <= if m == 0 { 0 } else { m - 1 },
    decreases s.len(),
{
    if s.len() > 0 {
        let dl = s.drop_last();
        assert(s.take(s.len() as int) =~= s);
        lemma_last_change_le(log, dl);
        if s.len() > m {
            assert(dl =~= s.take(s.len() - 1));
            assert(leader(log, s.take(s.len() - 1)) == leader(log, s));
            assert forall|e: int| m <= e <= dl.len() implies #[trigger] leader(log, dl.take(e)) == leader(log, dl) by {
                assert(dl.take(e) =~= s.take(e));
                assert(leader(log, s.take(e)) == leader(log, s));
            }
            lemma_last_change_before(log, dl, m);
        }
    }
}

/// A repository that is minimal among those through `p` is minimal through every longer prefix
/// of its own history.
proof fn lemma_leader_extends(log: Seq<Insertion>, t: int, p: Seq<CommitId>, e: int)
    requires
        0 <= t < log.len(),
        is_prefix(p, log[t].commits),
        leader(log, p) == Some(log[t].id()),
        p.len() <= e <= log[t].commits.len(),
    ensures
        leader(log, log[t].commits.take(e)) == Some(log[t].id()),
{
    let s = log[t].commits;
    let q = s.take(e);
    lemma_leader_minimal(log, p, t);
    assert(through_full(log, t, p));
    assert(through_full(log, t, q));
    assert forall|u: int| #[trigger] through_full(log, u, q) implies !key_lt(log, log[u].id(), log[t].id()) by {
        assert(log[u].commits.take(p.len() as int) =~= q.take(p.len() as int));
        assert(q.take(p.len() as int) =~= p);
        assert(through_full(log, u, p));
    }
    lemma_leader_unique(log, q, log[t].id());
}

/// The central law of fork detection: of all repositories whose histories share a non-empty
/// prefix `p`, the one that keeps the commit at the end of `p` is exactly the leader of `p`, the
/// best-ranked of them (lowest fork priority, then path order). Such a leader always exists, so
/// when every repository was inserted once, each shared commit is counted for exactly one
/// repository.
pub proof fn lemma_shared_commit_kept_once(log: Seq<Insertion>, p: Seq<CommitId>, t: int)
    requires
        p.len() > 0,
        0 <= t < log.len(),
        is_prefix(p, log[t].commits),
    ensures
        leader(log, p) is Some,
        exists|u: int| 0 <= u < log.len() && is_prefix(p, log[u].commits) && Some(#[trigger] log[u].id()) == leader(log, p),
        kept_from(log, log[t]) < p.len() <==> leader(log, p) == Some(log[t].id()),
{
    lemma_leader_minimal(log, p, t);
    let u = choose|u: int| #[trigger] through_full(log, u, p) && log[u].id() == leader(log, p)->0;
    assert(0 <= u < log.len() && is_prefix(p, log[u].commits) && Some(log[u].id()) == leader(log, p));
    let s = log[t].commits;
    assert(s.take(s.len() as int) =~= s);
    assert(s.take(p.len() as int) =~= p);
    if leader(log, p) == Some(log[t].id()) {
        assert forall|e: int| p.len() <= e <= s.len() implies #[trigger] leader(log, s.take(e)) == leader(log, s) by {
            lemma_leader_extends(log, t, p, e);
            lemma_leader_extends(log, t, p, s.len() as int);
        }
        lemma_leader_extends(log, t, p, s.len() as int);
        lemma_last_change_before(log, s, p.len() as int);
    }
    if kept_from(log, log[t]) < p.len() {
        lemma_leader_after_last_change(log, s, p.len() as int);
    }
}

/// A repository that ranks before every other repository keeps its complete history.
pub proof fn lemma_best_ranked_keeps_all(log: Seq<Insertion>, t: int)
    requires
        0 <= t < log.len(),
        forall|u: int| 0 <= u < log.len() && log[u].id() != log[t].id() ==> key_lt(log, log[t].id(), #[trigger] log[u].id()),
    ensures
        kept_commits(log, log[t]) == log[t].commits,
{
    let s = log[t].commits;
    assert(s.take(0) =~= Seq::<CommitId>::empty());
    assert forall|e: int| 0 <= e <= s.len() implies #[trigger] leader(log, s.take(e)) == Some(log[t].id()) by {
        let q = s.take(e);
        assert(through_full(log, t, q));
        assert forall|u: int| #[trigger] through_full(log, u, q) implies !key_lt(log, log[u].id(), log[t].id()) by {
            if log[u].id() != log[t].id() && key_lt(log, log[u].id(), log[t].id()) {
                lemma_key_lt_transitive(log, log[t].id(), log[u].id(), log[t].id());
                lemma_key_lt_irreflexive(log, log[t].id());
            }
            lemma_key_lt_irreflexive(log, log[t].id());
        }
        lemma_leader_unique(log, q, log[t].id());
    }
    assert(s.take(s.len() as int) =~= s);
    lemma_last_change_before(log, s, 0);
    assert(s.skip(0) =~= s);
}

/// A repository whose first commit starts no other repository's history keeps its complete
/// history.
pub proof fn lemma_unrelated_keeps_all(log: Seq<Insertion>, t: int)
    requires
        0 <= t < log.len(),
        log[t].commits.len() > 0,
        forall|u: int| 0 <= u < log.len() && log[u].id() != log[t].id()
            ==> !is_prefix(log[t].commits.take(1), #[trigger] log[u].commits),
    ensures
        kept_commits(log, log[t]) == log[t].commits,
{
    let s = log[t].commits;
    assert forall|e: int| 1 <= e <= s.len() implies #[trigger] leader(log, s.take(e)) == Some(log[t].id()) by {
        let q = s.take(e);
        assert(through_full(log, t, q));
        assert forall|u: int| #[trigger] through_full(log, u, q) implies !key_lt(log, log[u].id(), log[t].id()) by {
            assert(log[u].commits.take(1) =~= q.take(1));
            assert(q.take(1) =~= s.take(1));
            lemma_key_lt_irreflexive(log, log[t].id());
        }
        lemma_leader_unique(log, q, log[t].id());
    }
    assert(s.take(s.len() as int) =~= s);
    lemma_last_change_before(log, s, 1);
    assert(s.skip(0) =~= s);
}

} // verus!

verus! {

/// The first path under which a repository was inserted names that same repository.
pub proof fn lemma_first_path_names(log: Seq<Insertion>, t: int)
    requires
        0 <= t < log.len(),
    ensures
        path_components_of(first_path(log, log[t].id())) == log[t].id(),
    decreases t,
{
    if log[0].id() != log[t].id() {
        assert(log.drop_first()[t - 1] == log[t]);
        lemma_first_path_names(log.drop_first(), t - 1);
    }
}

} // verus!

verus! {

/// Two logs record the same insertions, whatever their order.
pub open spec fn same_insertions(log1: Seq<Insertion>, log2: Seq<Insertion>) -> bool {
    forall|x: Insertion| log1.contains(x) <==> log2.contains(x)
}

/// In a log of distinct repositories, an insertion it holds gives its repository's priority and
/// path.
proof fn lemma_first_of_member(log: Seq<Insertion>, x: Insertion)
    requires
        distinct_repos(log),
        log.contains(x),
    ensures
        first_priority(log, x.id()) == x.priority,
        first_path(log, x.id()) == x.path,
{
    let f = choose|f: int| 0 <= f < log.len() && log[f] == x;
    assert forall|t: int| 0 <= t < f implies #[trigger] log[t].id() != x.id() by {
        assert(log[t].id() != log[f].id());
    }
    lemma_first(log, f, x.id());
}

/// Logs of distinct repositories that record the same insertions rank their repositories alike.
proof fn lemma_same_ranking(log1: Seq<Insertion>, log2: Seq<Insertion>, x: Insertion, y: Insertion)
    requires
        distinct_repos(log1),
        distinct_repos(log2),
        same_insertions(log1, log2),
        log1.contains(x),
        log1.contains(y),
    ensures
        key_lt(log1, x.id(), y.id()) == key_lt(log2, x.id(), y.id()),
{
    assert(log2.contains(x) && log2.contains(y));
    lemma_first_of_member(log1, x);
    lemma_first_of_member(log1, y);
    lemma_first_of_member(log2, x);
    lemma_first_of_member(log2, y);
}

/// The leader of a prefix in `log1` leads it in `log2` too.
proof fn lemma_same_leader_one_way(log1: Seq<Insertion>, log2: Seq<Insertion>, p: Seq<CommitId>)
    requires
        distinct_repos(log1),
        distinct_repos(log2),
        same_insertions(log1, log2),
        leader(log1, p) is Some,
    ensures
        leader(log2, p) == leader(log1, p),
{
    lemma_leader_upto(log1, log1.len() as int, p);
    let m = leader(log1, p)->0;
    let t1 = choose|t: int| 0 <= t < log1.len() && is_prefix(p, #[trigger] log1[t].commits) && log1[t].id() == m;
    lemma_leader_minimal(log1, p, t1);
    let x = log1[t1];
    assert(log1.contains(x));
    let t2 = choose|t: int| 0 <= t < log2.len() && log2[t] == x;
    assert(through_full(log2, t2, p) && log2[t2].id() == m);
    assert forall|t: int| #[trigger] through_full(log2, t, p) implies !key_lt(log2, log2[t].id(), m) by {
        let y = log2[t];
        assert(log2.contains(y));
        let u = choose|u: int| 0 <= u < log1.len() && log1[u] == y;
        assert(through_full(log1, u, p));
        lemma_same_ranking(log1, log2, y, x);
    }
    lemma_leader_unique(log2, p, m);
}

/// Logs of distinct repositories that record the same insertions have the same leader for every
/// prefix.
proof fn lemma_same_leader(log1: Seq<Insertion>, log2: Seq<Insertion>, p: Seq<CommitId>)
    requires
        distinct_repos(log1),
        distinct_repos(log2),
        same_insertions(log1, log2),
    ensures
        leader(log1, p) == leader(log2, p),
{
    if leader(log1, p) is Some {
        lemma_same_leader_one_way(log1, log2, p);
    } else if leader(log2, p) is Some {
        lemma_same_leader_one_way(log2, log1, p);
    }
}

proof fn lemma_same_last_change(log1: Seq<Insertion>, log2: Seq<Insertion>, p: Seq<CommitId>)
    requires
        distinct_repos(log1),
        distinct_repos(log2),
        same_insertions(log1, log2),
    ensures
        last_change(log1, p) == last_change(log2, p),
    decreases p.len(),
{
    if p.len() > 0 {
        lemma_same_leader(log1, log2, p);
        lemma_same_leader(log1, log2, p.drop_last());
        lemma_same_last_change(log1, log2, p.drop_last());
    }
}

/// Fork detection does not depend on the order in which the repositories were inserted: two
/// logs of distinct repositories that record the same insertions agree on the leader of every
/// prefix, on the commits left to every repository and on the path that names it.
pub proof fn lemma_insertion_order_irrelevant(log1: Seq<Insertion>, log2: Seq<Insertion>)
    requires
        distinct_repos(log1),
        distinct_repos(log2),
        same_insertions(log1, log2),
    ensures
        forall|p: Seq<CommitId>| #[trigger] leader(log1, p) == leader(log2, p),
        forall|x: Insertion| #[trigger] kept_commits(log1, x) == kept_commits(log2, x),
        forall|x: Insertion| log1.contains(x) ==> #[trigger] first_path(log1, x.id()) == first_path(log2, x.id()),
{
    assert forall|p: Seq<CommitId>| #[trigger] leader(log1, p) == leader(log2, p) by {
        lemma_same_leader(log1, log2, p);
    }
    assert forall|x: Insertion| #[trigger] kept_commits(log1, x) == kept_commits(log2, x) by {
        lemma_same_leader(log1, log2, x.commits);
        lemma_same_last_change(log1, log2, x.commits);
    }
    assert forall|x: Insertion| log1.contains(x) implies #[trigger] first_path(log1, x.id()) == first_path(log2, x.id()) by {
        lemma_first_of_member(log1, x);
        lemma_first_of_member(log2, x);
    }
}

/// A result holds an entry with this path and these commits.
pub open spec fn has_entry(r: Seq<(String, Vec<CommitId>)>, path: Seq<char>, commits: Seq<CommitId>) -> bool {
    exists|e: int| 0 <= e < r.len() && (#[trigger] r[e]).0@ == path && r[e].1@ == commits
}

/// Two results of `HistoryTrie::get_all_sequences_iterative` on tries that hold the same
/// insertions in different orders hold the same entries: each entry of one has an entry of the
/// other with the same path and the same commits.
pub proof fn lemma_results_independent_of_order(
    log1: Seq<Insertion>,
    log2: Seq<Insertion>,
    r1: Seq<(String, Vec<CommitId>)>,
    r2: Seq<(String, Vec<CommitId>)>,
)
    requires
        distinct_repos(log1),
        distinct_repos(log2),
        same_insertions(log1, log2),
        forall|e: int| 0 <= e < r1.len() ==> #[trigger] entry_answered(log1, r1, e),
        forall|t: int| 0 <= t < log2.len() ==> #[trigger] insertion_answered(log2, r2, t),
    ensures
        forall|e: int| 0 <= e < r1.len() ==> has_entry(r2, (#[trigger] r1[e]).0@, r1[e].1@),
{
    lemma_insertion_order_irrelevant(log1, log2);
    assert forall|e1: int| 0 <= e1 < r1.len() implies has_entry(r2, (#[trigger] r1[e1]).0@, r1[e1].1@) by {
        assert(entry_answered(log1, r1, e1));
        let t1 = choose|t: int| 0 <= t < log1.len() && #[trigger] entry_matches(log1, r1[e1], log1[t]);
        let x = log1[t1];
        assert(log1.contains(x));
        assert(log2.contains(x));
        let t2 = choose|t: int| 0 <= t < log2.len() && log2[t] == x;
        assert(insertion_answered(log2, r2, t2));
        let e2 = choose|e: int| 0 <= e < r2.len() && #[trigger] entry_matches(log2, r2[e], log2[t2]);
        assert(kept_commits(log1, x) == kept_commits(log2, x));
        assert(first_path(log1, x.id()) == first_path(log2, x.id()));
        assert(r2[e2].0@ == r1[e1].0@ && r2[e2].1@ == r1[e1].1@);
    }
}

} // verus!

verus! {

/// A repository inserted once ranks with the priority it was inserted with.
pub proof fn lemma_priority_of_distinct(log: Seq<Insertion>, t: int)
    requires
        distinct_repos(log),
        0 <= t < log.len(),
    ensures
        first_priority(log, log[t].id()) == log[t].priority,
        first_path(log, log[t].id()) == log[t].path,
{
    assert(log.contains(log[t]));
    lemma_first_of_member(log, log[t]);
}

/// A repository whose history is the same as that of a better-ranked repository keeps none of
/// its commits: the whole history is left to the other one.
pub proof fn lemma_identical_history_keeps_nothing(log: Seq<Insertion>, t: int, u: int)
    requires
        0 <= t < log.len(),
        0 <= u < log.len(),
        log[u].commits == log[t].commits,
        key_lt(log, log[u].id(), log[t].id()),
    ensures
        kept_commits(log, log[t]).len() == 0,
{
    let p = log[t].commits;
    assert(p.take(p.len() as int) =~= p);
    assert(through_full(log, t, p));
    assert(through_full(log, u, p));
    lemma_leader_minimal(log, p, t);
    assert(leader(log, p) != Some(log[t].id()));
    assert(p.skip(p.len() as int) =~= Seq::<CommitId>::empty());
}

} // verus!
