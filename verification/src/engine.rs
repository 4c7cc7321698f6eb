use vstd::prelude::*;
use vstd::string::StringExecFns;

use crate::graph::{
    graph_add_node, graph_edges, graph_in_sources, graph_new, graph_node_count, graph_node_path,
    graph_out_edges, graph_paths, graph_update_edge, FileGraph,
};
use crate::hashes::{encode_cache, store_map, CachePlan, HashStore};
use crate::index::{index_map, PathIndex};
use crate::config::{compile_rules, def_compiles, RuleDef};
use crate::rule::{
    get_matching_rules, lemma_matching_props, matching, rules_list_eq, spec_apply,
    spec_does_match, suppressed, views_of, Rule, RuleV,
};

verus! {

/// The progress of the executor through one node's outgoing edges.
pub struct EdgeCtx {
    /// The node whose edges are being worked.
    pub n: usize,
    /// Whether this node's command fires (the dirty decision).
    pub run: bool,
    /// Whether this node's hash is recorded after a successful command.
    pub save: bool,
    /// The node's outgoing edges as (target, rule index) pairs.
    pub edges: Vec<(usize, usize)>,
    /// How many of `edges` are already done.
    pub pos: usize,
}

/// One executor stack frame.
pub enum Frame {
    /// A node whose dirty decision has not been taken yet.
    Visit { n: usize },
    /// The hash of the node's file was asked for, to take the decision.
    AwaitHash(EdgeCtx),
    /// Walking the node's outgoing edges.
    Scan(EdgeCtx),
    /// A command for the current edge was handed out.
    AwaitRun(EdgeCtx),
    /// After a successful command, the node's new hash was asked for.
    AwaitStoreHash(EdgeCtx),
    /// The current edge did not fire; whether its target exists was asked.
    AwaitExists(EdgeCtx),
}

/// What the executor asks its driver to do next.
pub enum Query {
    /// Read the file at `path` and answer `Resp::Hash` with its content
    /// hash, or `None` if it cannot be read.
    NeedHash { path: String },
    /// Print `line`, dispatch `program` with `args` through the shell, and
    /// answer `Resp::Ran(true)` iff the command wrote nothing to stderr.
    Run { program: String, args: Vec<String>, line: String },
    /// A dry run: print `line` and answer `Resp::Start`.
    Print { line: String },
    /// Answer `Resp::Exists` with whether a file is at `path`.
    CheckExists { path: String },
    /// A rule's command template is all whitespace; fatal.
    BadCommand { command: String },
    /// Internal work remains; answer `Resp::Start`.
    Continue,
    /// The run is over.
    Done,
}

/// The driver's answer to the last query.
#[derive(Clone, Copy)]
pub enum Resp {
    /// The opening answer, and the answer to queries that carry nothing.
    Start,
    /// The content hash of the requested file, or `None` if unreadable.
    Hash(Option<u64>),
    /// Whether the dispatched command wrote nothing to stderr.
    Ran(bool),
    /// Whether the requested file exists.
    Exists(bool),
}

/// The whole engine: the rule set, the file graph with its path index, the
/// saved and current hash stores, the two flags, and the executor's stack.
pub struct Engine {
    rules: Vec<Rule>,
    graph: FileGraph,
    index: PathIndex,
    saved: Option<HashStore>,
    current: HashStore,
    force: bool,
    dry: bool,
    stack: Vec<Frame>,
}

impl Engine {
    /// The views of the rules, in declaration order.
    pub closed spec fn rule_views(self) -> Seq<RuleV> {
        views_of(self.rules@)
    }

    /// The node paths, indexed by node id.
    pub closed spec fn paths(self) -> Seq<Seq<char>> {
        graph_paths(self.graph)
    }

    /// The edges: (source, target) to rule index.
    pub closed spec fn edges_map(self) -> Map<(int, int), int> {
        graph_edges(self.graph)
    }

    /// The saved hash snapshot, if a cache was loaded.
    pub closed spec fn saved_map(self) -> Option<Map<Seq<char>, u64>> {
        match self.saved {
            Some(st) => Some(store_map(st)),
            None => None,
        }
    }

    /// The hashes recorded so far in this run.
    pub closed spec fn current_map(self) -> Map<Seq<char>, u64> {
        store_map(self.current)
    }

    /// Whether every file is treated as dirty.
    pub closed spec fn is_force(self) -> bool {
        self.force
    }

    /// Whether commands are only printed.
    pub closed spec fn is_dry(self) -> bool {
        self.dry
    }

    /// The executor's stack.
    pub closed spec fn frames(self) -> Seq<Frame> {
        self.stack@
    }

    /// The parts that no operation after construction changes.
    pub closed spec fn setup(self) -> (Seq<RuleV>, Option<Map<Seq<char>, u64>>, bool, bool) {
        (self.rule_views(), self.saved_map(), self.force, self.dry)
    }

    /// Every rule's compiled patterns belong to its pattern sources.
    pub closed spec fn rules_wf(self) -> bool {
        forall|i: int| 0 <= i < self.rules@.len() ==> (#[trigger] self.rules@[i]).wf()
    }

    /// The index is exactly the inverse of the node table: every node's
    /// path maps back to its id, and every entry points at a node holding
    /// its key. In particular no two nodes hold the same path.
    pub closed spec fn index_wf(self) -> bool {
        &&& forall|i: int|
            0 <= i < self.paths().len() ==> {
                &&& index_map(self.index).contains_key(#[trigger] self.paths()[i])
                &&& index_map(self.index)[self.paths()[i]] == i
            }
        &&& forall|p: Seq<char>|
            #[trigger] index_map(self.index).contains_key(p) ==> {
                &&& 0 <= index_map(self.index)[p] < self.paths().len()
                &&& self.paths()[index_map(self.index)[p]] == p
            }
    }

    /// Every edge joins existing nodes, carries an existing rule, that rule
    /// both matches the source path and rewrites it to the target path, and
    /// the pair was not suppressed by smart exclusion.
    pub closed spec fn edges_wf(self) -> bool {
        forall|e: (int, int)|
            #[trigger] self.edges_map().contains_key(e) ==> {
                &&& 0 <= e.0 < self.paths().len()
                &&& 0 <= e.1 < self.paths().len()
                &&& 0 <= self.edges_map()[e] < self.rule_views().len()
                &&& spec_does_match(self.rule_views()[self.edges_map()[e]], self.paths()[e.0])
                &&& self.paths()[e.1] == spec_apply(
                    self.rule_views()[self.edges_map()[e]],
                    self.paths()[e.0],
                )
                &&& !suppressed(self.rule_views(), self.paths()[e.0], self.paths()[e.1])
            }
    }

    /// An edge context speaks of an existing node and caches a slice of the
    /// edge map.
    pub closed spec fn ctx_wf(self, c: EdgeCtx) -> bool {
        &&& (c.n as int) < self.paths().len()
        &&& c.pos <= c.edges@.len()
        &&& forall|i: int|
            0 <= i < c.edges@.len() ==> {
                &&& self.edges_map().contains_key(
                    (c.n as int, #[trigger] c.edges@[i].0 as int),
                )
                &&& self.edges_map()[(c.n as int, c.edges@[i].0 as int)] == c.edges@[i].1 as int
            }
    }

    /// A frame only speaks of existing nodes and edges; the waiting frames
    /// stand at an edge that is still there.
    pub closed spec fn frame_wf(self, f: Frame) -> bool {
        match f {
            Frame::Visit { n } => (n as int) < self.paths().len(),
            Frame::AwaitHash(c) => self.ctx_wf(c),
            Frame::Scan(c) => self.ctx_wf(c),
            Frame::AwaitRun(c) => self.ctx_wf(c) && c.pos < c.edges@.len(),
            Frame::AwaitStoreHash(c) => self.ctx_wf(c) && c.pos < c.edges@.len(),
            Frame::AwaitExists(c) => self.ctx_wf(c) && c.pos < c.edges@.len(),
        }
    }

    /// Every stack frame is well formed.
    pub closed spec fn stack_wf(self) -> bool {
        forall|k: int| 0 <= k < self.stack@.len() ==> self.frame_wf(#[trigger] self.stack@[k])
    }

    /// The engine's invariant.
    pub open spec fn wf(self) -> bool {
        self.rules_wf() && self.index_wf() && self.edges_wf() && self.stack_wf()
    }

    /// There is an edge from the node holding `p` to a node holding what
    /// rule `ri` rewrites `p` to.
    pub closed spec fn edge_covered(self, p: Seq<char>, ri: int) -> bool {
        exists|ip: int, iq: int|
            {
                &&& 0 <= ip < self.paths().len()
                &&& 0 <= iq < self.paths().len()
                &&& self.paths()[ip] == p
                &&& self.paths()[iq] == spec_apply(self.rule_views()[ri], p)
                &&& #[trigger] self.edges_map().contains_key((ip, iq))
            }
    }

    /// Node `i` is fully worked: every rule that applies to its path has
    /// its edge in the graph, unless the smart-exclusion rule suppressed
    /// that pair.
    pub closed spec fn node_expanded(self, i: int) -> bool {
        forall|ri: int|
            0 <= ri < self.rule_views().len() && spec_does_match(
                #[trigger] self.rule_views()[ri],
                self.paths()[i],
            ) && !suppressed(
                self.rule_views(),
                self.paths()[i],
                spec_apply(self.rule_views()[ri], self.paths()[i]),
            ) ==> self.edge_covered(self.paths()[i], ri)
    }

    /// Every node is fully worked: the graph is a fixpoint of the rule set
    /// but for suppressed pairs.
    pub open spec fn all_expanded(self) -> bool {
        forall|i: int| 0 <= i < self.paths().len() ==> self.node_expanded(i)
    }

    /// Every source that something depends on still has its saved hash:
    /// the state of a rerun over a tree whose previous run recorded all its
    /// sources.
    pub open spec fn saved_covers_sources(self) -> bool {
        forall|e: (int, int)| #[trigger]
            self.edges_map().contains_key(e) ==> self.spec_saved_for(
                self.paths()[e.0],
            ) is Some
    }

    /// The frame carries no decided or in-flight command: a scan that would
    /// fire has no edges, and no command awaits its outcome.
    pub open spec fn clean_frame(self, f: Frame) -> bool {
        match f {
            Frame::Visit { .. } => true,
            Frame::AwaitHash(_) => true,
            Frame::Scan(c) => !c.run || c.edges@.len() == 0,
            Frame::AwaitRun(_) => false,
            Frame::AwaitStoreHash(_) => false,
            Frame::AwaitExists(c) => !c.run,
        }
    }

    /// No frame on the stack has decided to run a command.
    pub open spec fn clean_stack(self) -> bool {
        forall|k: int|
            0 <= k < self.frames().len() ==> self.clean_frame(#[trigger] self.frames()[k])
    }

    /// The response reports an unchanged file: a hash answer taken for the
    /// dirty decision equals the hash the previous run saved for that file.
    pub open spec fn resp_reports_clean(self, resp: Resp) -> bool {
        match (self.top(), resp) {
            (Some(Frame::AwaitHash(c)), Resp::Hash(h)) => h is Some && h == self.spec_saved_for(
                self.paths()[c.n as int],
            ),
            _ => true,
        }
    }

    /// Under force every visited node decides to run: the frame either
    /// still awaits its decision, or its decision is to fire; no frame
    /// awaits a hash or an existence check, since force consults neither.
    pub open spec fn forced_frame(self, f: Frame) -> bool {
        match f {
            Frame::Visit { .. } => true,
            Frame::AwaitHash(_) => false,
            Frame::Scan(c) => c.run,
            Frame::AwaitRun(c) => c.run,
            Frame::AwaitStoreHash(c) => c.run,
            Frame::AwaitExists(_) => false,
        }
    }

    /// Every frame on the stack fires or is still undecided.
    pub open spec fn forced_stack(self) -> bool {
        forall|k: int|
            0 <= k < self.frames().len() ==> self.forced_frame(#[trigger] self.frames()[k])
    }

    /// Every entry of `q` from position `from` on names a path that is
    /// already a node.
    pub closed spec fn queued_are_nodes(self, q: Seq<String>, from: nat) -> bool {
        forall|kk: int|
            from <= kk < q.len() ==> exists|i: int|
                0 <= i < self.paths().len() && self.paths()[i] == (#[trigger] q[kk])@
    }

    /// Every node of the graph holds one of the first `upto` seed paths or
    /// is the target of an edge: the graph holds nothing beyond the seeds'
    /// expansion.
    pub open spec fn nodes_from_seeds(self, seeds: Seq<String>, upto: int) -> bool {
        forall|i: int| #![trigger self.paths()[i]]
            0 <= i < self.paths().len() ==> (exists|si: int|
                0 <= si < upto && (#[trigger] seeds[si])@ == self.paths()[i]) || exists|a: int|
                #[trigger] self.edges_map().contains_key((a, i))
    }

    /// The path `p` has been worked as a seed: every rule that applies to
    /// it either has its edge in the graph or was smart-excluded. Unlike
    /// `node_expanded` this speaks of the path itself, so it also says that
    /// the seed's node and its targets exist when some rule fires.
    pub open spec fn seed_covered(self, p: Seq<char>) -> bool {
        forall|j: int|
            0 <= j < matching(self.rule_views(), p).len() ==> suppressed(
                self.rule_views(),
                p,
                spec_apply(self.rule_views()[#[trigger] matching(self.rule_views(), p)[j]], p),
            ) || self.edge_covered(p, matching(self.rule_views(), p)[j])
    }
}

/// Seed coverage survives monotone growth of the graph.
proof fn lemma_seed_covered_mono(pre: Engine, post: Engine, p: Seq<char>)
    requires
        pre.rule_views() == post.rule_views(),
        pre.paths().is_prefix_of(post.paths()),
        forall|e: (int, int)|
            #[trigger] pre.edges_map().contains_key(e) ==> post.edges_map().contains_key(e),
        pre.seed_covered(p),
    ensures
        post.seed_covered(p),
{
    lemma_expand_mono(pre, post);
    assert forall|j: int|
        0 <= j < matching(post.rule_views(), p).len() implies suppressed(
        post.rule_views(),
        p,
        spec_apply(post.rule_views()[#[trigger] matching(post.rule_views(), p)[j]], p),
    ) || post.edge_covered(p, matching(post.rule_views(), p)[j]) by {
        assert(suppressed(
            pre.rule_views(),
            p,
            spec_apply(pre.rule_views()[matching(pre.rule_views(), p)[j]], p),
        ) || pre.edge_covered(p, matching(pre.rule_views(), p)[j]));
    }
}

/// Growing the graph monotonically (new nodes appended, edge keys kept)
/// keeps every covered edge covered and every expanded node expanded.
proof fn lemma_expand_mono(pre: Engine, post: Engine)
    requires
        pre.rule_views() == post.rule_views(),
        pre.paths().is_prefix_of(post.paths()),
        forall|e: (int, int)|
            #[trigger] pre.edges_map().contains_key(e) ==> post.edges_map().contains_key(e),
    ensures
        forall|p: Seq<char>, ri: int|
            #[trigger] pre.edge_covered(p, ri) ==> post.edge_covered(p, ri),
        forall|i: int|
            0 <= i < pre.paths().len() && #[trigger] pre.node_expanded(i) ==> post.node_expanded(
                i,
            ),
{
    assert forall|p: Seq<char>, ri: int| #[trigger] pre.edge_covered(p, ri) implies post
        .edge_covered(p, ri) by {
        let (ip, iq) = choose|ip: int, iq: int|
            {
                &&& 0 <= ip < pre.paths().len()
                &&& 0 <= iq < pre.paths().len()
                &&& pre.paths()[ip] == p
                &&& pre.paths()[iq] == spec_apply(pre.rule_views()[ri], p)
                &&& pre.edges_map().contains_key((ip, iq))
            };
        assert(post.paths()[ip] == pre.paths()[ip]);
        assert(post.paths()[iq] == pre.paths()[iq]);
        assert(post.edges_map().contains_key((ip, iq)));
    }
    assert forall|i: int|
        0 <= i < pre.paths().len() && #[trigger] pre.node_expanded(i) implies post.node_expanded(
        i,
    ) by {
        assert(post.paths()[i] == pre.paths()[i]);
        assert forall|ri: int|
            0 <= ri < post.rule_views().len() && spec_does_match(
                #[trigger] post.rule_views()[ri],
                post.paths()[i],
            ) && !suppressed(
                post.rule_views(),
                post.paths()[i],
                spec_apply(post.rule_views()[ri], post.paths()[i]),
            ) implies post.edge_covered(post.paths()[i], ri) by {
            assert(pre.edge_covered(pre.paths()[i], ri));
        }
    }
}

impl Engine {
    /// Make an engine over compiled rules, with no nodes yet. The current
    /// store starts as a copy of the saved one, unless force-rebuild is set
    /// or nothing was saved, in which case it starts empty.
    pub fn build(rules: Vec<Rule>, force: bool, dry: bool, saved: Option<HashStore>) -> (r: Engine)
        requires
            forall|i: int| 0 <= i < rules@.len() ==> (#[trigger] rules@[i]).wf(),
        ensures
            r.wf(),
            r.all_expanded(),
            r.rule_views() == views_of(rules@),
            r.paths().len() == 0,
            r.edges_map().dom() == Set::<(int, int)>::empty(),
            r.frames().len() == 0,
            r.is_force() == force,
            r.is_dry() == dry,
            r.saved_map() == (match saved {
                Some(st) => Some(store_map(st)),
                None => None,
            }),
            (!force && saved is Some) ==> r.current_map() == store_map(saved.unwrap()),
            (force || saved is None) ==> r.current_map().dom() == Set::<Seq<char>>::empty(),
    {
        let current = if force {
            HashStore::empty()
        } else {
            match &saved {
                Some(st) => st.duplicate(),
                None => HashStore::empty(),
            }
        };
        Engine {
            rules,
            graph: graph_new(),
            index: PathIndex::new(),
            saved,
            current,
            force,
            dry,
            stack: Vec::new(),
        }
    }

    /// Insert-or-look-up the node for `p`; the flag says whether the node
    /// is fresh.
    fn ensure_node(&mut self, p: &String) -> (r: (usize, bool))
        requires
            old(self).rules_wf(),
            old(self).index_wf(),
            old(self).edges_wf(),
        ensures
            final(self).rules@ == old(self).rules@,
            final(self).saved == old(self).saved,
            final(self).current == old(self).current,
            final(self).force == old(self).force,
            final(self).dry == old(self).dry,
            final(self).stack@ == old(self).stack@,
            final(self).rules_wf(),
            final(self).index_wf(),
            final(self).edges_wf(),
            final(self).edges_map() == old(self).edges_map(),
            (r.0 as int) < final(self).paths().len(),
            final(self).paths()[r.0 as int] == p@,
            r.1 ==> !old(self).paths().contains(p@) && final(self).paths() == old(self).paths().push(p@) && r.0 as int == old(self).paths().len(),
            !r.1 ==> final(self).paths() == old(self).paths(),
    {
        match self.index.get(p.as_str()) {
            Some(id) => {
                proof {
                    assert(index_map(self.index).contains_key(p@));
                }
                (id, false)
            },
            None => {
                let ghost pre = *self;
                {
                    let id = graph_add_node(&mut self.graph, p.clone());
                    {
                        self.index.insert(p.clone(), id);
                        proof {
                            assert forall|i: int| 0 <= i < self.paths().len() implies {
                                &&& index_map(self.index).contains_key(#[trigger] self.paths()[i])
                                &&& index_map(self.index)[self.paths()[i]] == i
                            } by {
                                if i < pre.paths().len() {
                                    assert(self.paths()[i] == pre.paths()[i]);
                                    assert(index_map(pre.index).contains_key(pre.paths()[i]));
                                    assert(pre.paths()[i] != p@) by {
                                        if pre.paths()[i] == p@ {
                                            assert(index_map(pre.index).contains_key(p@));
                                        }
                                    }
                                } else {
                                    assert(self.paths()[i] == p@);
                                }
                            }
                            assert(!pre.paths().contains(p@)) by {
                                if pre.paths().contains(p@) {
                                    let i = choose|i: int|
                                        0 <= i < pre.paths().len() && pre.paths()[i] == p@;
                                    assert(index_map(pre.index).contains_key(p@));
                                }
                            }
                            assert forall|e: (int, int)|
                                #[trigger] self.edges_map().contains_key(e) implies {
                                &&& 0 <= e.0 < self.paths().len()
                                &&& 0 <= e.1 < self.paths().len()
                                &&& 0 <= self.edges_map()[e] < self.rule_views().len()
                                &&& spec_does_match(
                                    self.rule_views()[self.edges_map()[e]],
                                    self.paths()[e.0],
                                )
                                &&& self.paths()[e.1] == spec_apply(
                                    self.rule_views()[self.edges_map()[e]],
                                    self.paths()[e.0],
                                )
                                &&& !suppressed(
                                    self.rule_views(),
                                    self.paths()[e.0],
                                    self.paths()[e.1],
                                )
                            } by {
                                assert(pre.edges_map().contains_key(e));
                                assert(self.paths()[e.0] == pre.paths()[e.0]);
                                assert(self.paths()[e.1] == pre.paths()[e.1]);
                            }
                        }
                        (id, true)
                    }
                }
            },
        }
    }
}

impl Engine {
    /// Work one path: for every rule that applies, insert the path and its
    /// rewritten output as nodes and the edge between them, unless the
    /// smart-exclusion rule suppresses the pair. Fresh output nodes are
    /// queued on `pending` for later work.
    fn process_path(&mut self, p: &String, pending: &mut Vec<String>)
        requires
            old(self).rules_wf(),
            old(self).index_wf(),
            old(self).edges_wf(),
        ensures
            final(self).rules@ == old(self).rules@,
            final(self).saved == old(self).saved,
            final(self).current == old(self).current,
            final(self).force == old(self).force,
            final(self).dry == old(self).dry,
            final(self).stack@ == old(self).stack@,
            final(self).rules_wf(),
            final(self).index_wf(),
            final(self).edges_wf(),
            old(self).paths().is_prefix_of(final(self).paths()),
            forall|e: (int, int)|
                #[trigger] old(self).edges_map().contains_key(e) ==> final(self).edges_map().contains_key(e),
            old(pending)@.is_prefix_of(final(pending)@),
            forall|ii: int|
                0 <= ii < final(self).paths().len() && final(self).paths()[ii] == p@ ==> final(self).node_expanded(ii),
            final(self).seed_covered(p@),
            forall|i: int|
                old(self).paths().len() <= i < final(self).paths().len() ==> final(self).paths()[i] == p@ || exists|kk: int|
                    old(pending)@.len() <= kk < final(pending)@.len() && (#[trigger] final(pending)@[kk])@ == final(self).paths()[i],
            forall|i: int|
                old(self).paths().len() <= i < final(self).paths().len() ==> final(self).paths()[i] == p@ || exists|a: int|
                    #[trigger] final(self).edges_map().contains_key((a, i)),
            final(pending)@.len() - old(pending)@.len() <= final(self).paths().len() - old(self).paths().len(),
            final(self).queued_are_nodes(final(pending)@, old(pending)@.len()),
    {
        let ghost rv = old(self).rule_views();
        let ghost mseq = matching(rv, p@);
        proof {
            lemma_matching_props(rv, p@);
        }
        let m: Vec<usize> = get_matching_rules(&self.rules, p.as_str());
        if m.len() == 0 {
            proof {
                assert forall|ii: int|
                    0 <= ii < self.paths().len() && self.paths()[ii] == p@ implies self
                    .node_expanded(ii) by {
                    assert forall|ri: int|
                        0 <= ri < self.rule_views().len() && spec_does_match(
                            #[trigger] self.rule_views()[ri],
                            self.paths()[ii],
                        ) && !suppressed(
                            self.rule_views(),
                            self.paths()[ii],
                            spec_apply(self.rule_views()[ri], self.paths()[ii]),
                        ) implies self.edge_covered(self.paths()[ii], ri) by {
                        assert(mseq.contains(ri));
                        assert(mseq.len() == 0);
                    }
                }
                assert(self.queued_are_nodes(pending@, pending@.len())) by {
                    assert forall|kk: int|
                        pending@.len() <= kk < pending@.len() implies exists|i: int|
                        0 <= i < self.paths().len() && self.paths()[i] == (#[trigger] pending@[kk])@ by {
                        assert(false);
                    }
                }
            }
            return ;
        }
        let ghost entry = *self;
        let ghost pend0 = pending@;
        let mut k: usize = 0;
        while k < m.len()
            invariant
                entry == *old(self),
                pend0 == old(pending)@,
                self.rules_wf(),
                self.index_wf(),
                self.edges_wf(),
                self.rules@ == entry.rules@,
                self.saved == entry.saved,
                self.current == entry.current,
                self.force == entry.force,
                self.dry == entry.dry,
                self.stack@ == entry.stack@,
                rv == self.rule_views(),
                mseq == matching(rv, p@),
                m@.map_values(|u: usize| u as int) == mseq,
                k <= m@.len(),
                entry.paths().is_prefix_of(self.paths()),
                forall|e: (int, int)|
                    #[trigger] entry.edges_map().contains_key(e) ==> self.edges_map().contains_key(
                        e,
                    ),
                pend0.is_prefix_of(pending@),
                forall|j: int|
                    0 <= j < k ==> suppressed(rv, p@, spec_apply(rv[#[trigger] mseq[j]], p@))
                        || self.edge_covered(p@, mseq[j]),
                forall|i: int|
                    entry.paths().len() <= i < self.paths().len() ==> self.paths()[i] == p@
                        || exists|kk: int|
                        pend0.len() <= kk < pending@.len() && (#[trigger] pending@[kk])@
                            == self.paths()[i],
                forall|i: int|
                    entry.paths().len() <= i < self.paths().len() ==> self.paths()[i] == p@
                        || exists|a: int| #[trigger] self.edges_map().contains_key((a, i)),
                pending@.len() - pend0.len() <= self.paths().len() - entry.paths().len(),
                self.queued_are_nodes(pending@, pend0.len()),
            decreases m@.len() - k,
        {
            let ghost it0 = *self;
            let ghost itp0 = pending@;
            proof {
                lemma_matching_props(rv, p@);
                assert(mseq[k as int] == m@[k as int] as int);
            }
            let ri: usize = m[k];
            let q: String = {
                let rule = &self.rules[ri];
                proof {
                    assert(rule@ == rv[ri as int]);
                }
                rule.get_output(p.as_str())
            };
            let mut skip = false;
            if m.len() > 1 {
                proof {
                    lemma_matching_props(rv, q@);
                    assert forall|j: int| 0 <= j < m@.len() implies #[trigger] m@[j]
                        < self.rules@.len() by {
                        assert(mseq[j] == m@[j] as int);
                    }
                }
                let mq = get_matching_rules(&self.rules, q.as_str());
                proof {
                    assert forall|j: int| 0 <= j < mq@.len() implies #[trigger] mq@[j]
                        < self.rules@.len() by {
                        assert(matching(rv, q@)[j] == mq@[j] as int);
                    }
                }
                if rules_list_eq(&self.rules, &mq, &m) {
                    skip = true;
                    proof {
                        assert(suppressed(rv, p@, q@));
                    }
                }
            }
            if !skip {
                proof {
                    assert(!suppressed(rv, p@, q@));
                }
                let (pid, _p_fresh) = self.ensure_node(p);
                let ghost mid_p = *self;
                let (qid, q_fresh) = self.ensure_node(&q);
                if q_fresh {
                    pending.push(q.clone());
                }
                let ghost pre_edge = *self;
                graph_update_edge(&mut self.graph, pid, qid, ri);
                proof {
                    assert(self.paths() == pre_edge.paths());
                    assert(self.edges_map() == pre_edge.edges_map().insert(
                        (pid as int, qid as int),
                        ri as int,
                    ));
                    assert(spec_does_match(rv[ri as int], p@));
                    assert(self.paths()[pid as int] == p@);
                    assert(self.paths()[qid as int] == q@);
                    assert(q@ == spec_apply(rv[ri as int], p@));
                    assert forall|e: (int, int)|
                        #[trigger] self.edges_map().contains_key(e) implies {
                        &&& 0 <= e.0 < self.paths().len()
                        &&& 0 <= e.1 < self.paths().len()
                        &&& 0 <= self.edges_map()[e] < self.rule_views().len()
                        &&& spec_does_match(
                            self.rule_views()[self.edges_map()[e]],
                            self.paths()[e.0],
                        )
                        &&& self.paths()[e.1] == spec_apply(
                            self.rule_views()[self.edges_map()[e]],
                            self.paths()[e.0],
                        )
                        &&& !suppressed(
                            self.rule_views(),
                            self.paths()[e.0],
                            self.paths()[e.1],
                        )
                    } by {
                        if e != (pid as int, qid as int) {
                            assert(pre_edge.edges_map().contains_key(e));
                        } else {
                            assert(!suppressed(rv, p@, q@));
                        }
                    }
                    assert(self.edges_map().contains_key((pid as int, qid as int)));
                    assert(self.edge_covered(p@, mseq[k as int]));
                    assert forall|j: int|
                        0 <= j < k + 1 implies suppressed(
                        rv,
                        p@,
                        spec_apply(rv[#[trigger] mseq[j]], p@),
                    ) || self.edge_covered(p@, mseq[j]) by {
                        if j < k {
                            if !suppressed(rv, p@, spec_apply(rv[mseq[j]], p@)) {
                                assert(it0.edge_covered(p@, mseq[j]));
                                lemma_expand_mono(it0, *self);
                            }
                        }
                    }
                    assert forall|i: int|
                        entry.paths().len() <= i < self.paths().len() implies self.paths()[i]
                        == p@ || exists|kk: int|
                        pend0.len() <= kk < pending@.len() && (#[trigger] pending@[kk])@
                            == self.paths()[i] by {
                        if i < it0.paths().len() {
                            assert(self.paths()[i] == it0.paths()[i]);
                            if it0.paths()[i] != p@ {
                                let kk = choose|kk: int|
                                    pend0.len() <= kk < itp0.len() && (#[trigger] itp0[kk])@
                                        == it0.paths()[i];
                                assert(itp0.is_prefix_of(pending@));
                                assert(pending@[kk] == itp0[kk]);
                            }
                        } else {
                            if self.paths()[i] != p@ {
                                assert(mid_p.paths()[i] != p@ || i >= mid_p.paths().len());
                                assert(self.paths()[i] == q@);
                                assert(q_fresh);
                                let kk = pending@.len() - 1;
                                assert(pending@[kk] == q);
                            }
                        }
                    }
                    assert forall|i: int|
                        entry.paths().len() <= i < self.paths().len() implies self.paths()[i]
                        == p@ || exists|a: int| #[trigger] self.edges_map().contains_key(
                        (a, i),
                    ) by {
                        if i < it0.paths().len() {
                            assert(self.paths()[i] == it0.paths()[i]);
                            if it0.paths()[i] != p@ {
                                let a = choose|a: int| #[trigger] it0.edges_map().contains_key(
                                    (a, i),
                                );
                                assert(self.edges_map().contains_key((a, i)));
                            }
                        } else {
                            if self.paths()[i] != p@ {
                                assert(self.paths()[i] == q@);
                                assert(q_fresh);
                                assert(i == qid as int);
                                assert(self.edges_map().contains_key((pid as int, i)));
                            }
                        }
                    }
                    assert(self.queued_are_nodes(pending@, pend0.len())) by {
                        assert(it0.queued_are_nodes(itp0, pend0.len()));
                        assert forall|kk: int|
                            pend0.len() <= kk < pending@.len() implies exists|i: int|
                            0 <= i < self.paths().len() && self.paths()[i] == (#[trigger] pending@[kk])@ by {
                            if kk < itp0.len() {
                                let i = choose|i: int|
                                    0 <= i < it0.paths().len() && it0.paths()[i] == (#[trigger] itp0[kk])@;
                                assert(pending@[kk] == itp0[kk]);
                                assert(self.paths()[i] == it0.paths()[i]);
                            } else {
                                assert(pending@[kk] == q);
                                assert(self.paths()[qid as int] == q@);
                            }
                        }
                    }
                }
            } else {
                proof {
                    assert(q@ == spec_apply(rv[mseq[k as int]], p@));
                }
            }
            proof {
                assert forall|i: int|
                    entry.paths().len() <= i < self.paths().len() implies self.paths()[i] == p@
                    || exists|kk: int|
                    pend0.len() <= kk < pending@.len() && (#[trigger] pending@[kk])@
                        == self.paths()[i] by {
                    if i < it0.paths().len() {
                        assert(self.paths()[i] == it0.paths()[i]);
                        if it0.paths()[i] != p@ {
                            let kk = choose|kk: int|
                                pend0.len() <= kk < itp0.len() && (#[trigger] itp0[kk])@
                                    == it0.paths()[i];
                            assert(itp0.is_prefix_of(pending@));
                            assert(pending@[kk] == itp0[kk]);
                        }
                    }
                }
                assert(self.queued_are_nodes(pending@, pend0.len())) by {
                    assert(it0.queued_are_nodes(itp0, pend0.len()));
                    assert forall|kk: int|
                        pend0.len() <= kk < pending@.len() implies exists|i: int|
                        0 <= i < self.paths().len() && self.paths()[i] == (#[trigger] pending@[kk])@ by {
                        if kk < itp0.len() {
                            assert(itp0.is_prefix_of(pending@));
                            assert(pending@[kk] == itp0[kk]);
                            assert(exists|i: int|
                                0 <= i < it0.paths().len() && it0.paths()[i] == (#[trigger] itp0[kk])@);
                            let i = choose|i: int|
                                0 <= i < it0.paths().len() && it0.paths()[i] == (#[trigger] itp0[kk])@;
                            assert(self.paths()[i] == it0.paths()[i]);
                        }
                    }
                }
            }
            k = k + 1;
        }
        proof {
            lemma_matching_props(rv, p@);
            assert forall|ii: int|
                0 <= ii < self.paths().len() && self.paths()[ii] == p@ implies self.node_expanded(
                ii,
            ) by {
                assert forall|ri: int|
                    0 <= ri < self.rule_views().len() && spec_does_match(
                        #[trigger] self.rule_views()[ri],
                        self.paths()[ii],
                    ) && !suppressed(
                        self.rule_views(),
                        self.paths()[ii],
                        spec_apply(self.rule_views()[ri], self.paths()[ii]),
                    ) implies self.edge_covered(self.paths()[ii], ri) by {
                    assert(mseq.contains(ri));
                    let j = choose|j: int| 0 <= j < mseq.len() && mseq[j] == ri;
                    assert(suppressed(rv, p@, spec_apply(rv[mseq[j]], p@)) || self.edge_covered(
                        p@,
                        mseq[j],
                    ));
                }
            }
        }
    }

    /// Add `path` to the graph if a rule applies to it, then work every
    /// freshly created output path the same way, to the fixpoint. This is
    /// the graph-building entry called once per discovered path. Every node
    /// it creates is the seed itself or the target of an inserted edge, so
    /// the graph gains nothing beyond the seed's expansion. `false` only
    /// when the expansion budget of usize::MAX worked paths is spent, which
    /// takes a graph of at least usize::MAX nodes first.
    pub fn generate_children(&mut self, path: String) -> (ok: bool)
        requires
            old(self).wf(),
            old(self).all_expanded(),
            old(self).frames().len() == 0,
        ensures
            final(self).wf(),
            final(self).setup() == old(self).setup(),
            final(self).frames().len() == 0,
            final(self).current_map() == old(self).current_map(),
            old(self).paths().is_prefix_of(final(self).paths()),
            forall|e: (int, int)|
                #[trigger] old(self).edges_map().contains_key(e) ==> final(self).edges_map().contains_key(e),
            final(self).seed_covered(path@),
            forall|i: int|
                old(self).paths().len() <= i < final(self).paths().len() ==> final(self).paths()[i] == path@ || exists|a: int|
                    #[trigger] final(self).edges_map().contains_key((a, i)),
            ok ==> final(self).all_expanded(),
            !ok ==> final(self).paths().len() >= usize::MAX as int,
    {
        let mut pending: Vec<String> = Vec::new();
        let ghost entry = *self;
        self.process_path(&path, &mut pending);
        proof {
            lemma_expand_mono(entry, *self);
            assert forall|i: int| 0 <= i < self.paths().len() implies self.node_expanded(i)
                || exists|kk: int|
                0 <= kk < pending@.len() && (#[trigger] pending@[kk])@ == self.paths()[i] by {
                if i < entry.paths().len() {
                    assert(self.paths()[i] == entry.paths()[i]);
                    assert(entry.node_expanded(i));
                }
            }
        }
        let mut fuel: usize = usize::MAX;
        while pending.len() > 0
            invariant
                entry == *old(self),
                self.seed_covered(path@),
                self.rules_wf(),
                self.index_wf(),
                self.edges_wf(),
                self.rules@ == entry.rules@,
                self.saved == entry.saved,
                self.current == entry.current,
                self.force == entry.force,
                self.dry == entry.dry,
                self.stack@ == entry.stack@,
                entry.stack@.len() == 0,
                entry.paths().is_prefix_of(self.paths()),
                forall|e: (int, int)|
                    #[trigger] entry.edges_map().contains_key(e) ==> self.edges_map().contains_key(
                        e,
                    ),
                forall|i: int|
                    0 <= i < self.paths().len() ==> self.node_expanded(i) || exists|kk: int|
                        0 <= kk < pending@.len() && (#[trigger] pending@[kk])@ == self.paths()[i],
                forall|i: int|
                    entry.paths().len() <= i < self.paths().len() ==> self.paths()[i] == path@
                        || exists|a: int| #[trigger] self.edges_map().contains_key((a, i)),
                self.queued_are_nodes(pending@, 0),
                usize::MAX - fuel + pending@.len() <= 1 + self.paths().len() - entry.paths().len(),
            decreases fuel,
        {
            if fuel == 0 {
                proof {
                    assert(pending@.len() >= 1);
                    assert(self.paths().len() >= usize::MAX as int);
                }
                return false;
            }
            fuel = fuel - 1;
            let ghost pend0 = pending@;
            let p = match pending.pop() {
                Some(x) => x,
                None => {
                    proof {
                        assert(false);
                    }
                    return false;
                },
            };
            let ghost it0 = *self;
            self.process_path(&p, &mut pending);
            proof {
                lemma_expand_mono(it0, *self);
                lemma_seed_covered_mono(it0, *self, path@);
                assert forall|i: int| 0 <= i < self.paths().len() implies self.node_expanded(i)
                    || exists|kk: int|
                    0 <= kk < pending@.len() && (#[trigger] pending@[kk])@ == self.paths()[i] by {
                    if i < it0.paths().len() {
                        assert(self.paths()[i] == it0.paths()[i]);
                        if !it0.node_expanded(i) {
                            let kk = choose|kk: int|
                                0 <= kk < pend0.len() && (#[trigger] pend0[kk])@
                                    == it0.paths()[i];
                            if kk < pend0.len() - 1 {
                                let ghost popped = pend0.drop_last();
                                assert(popped.is_prefix_of(pending@));
                                assert(popped[kk] == pend0[kk]);
                                assert(pending@[kk] == popped[kk]);
                            } else {
                                assert(pend0[kk]@ == p@);
                            }
                        }
                    }
                }
                assert forall|i: int|
                    entry.paths().len() <= i < self.paths().len() implies self.paths()[i] == path@
                    || exists|a: int| #[trigger] self.edges_map().contains_key((a, i)) by {
                    if i < it0.paths().len() {
                        assert(self.paths()[i] == it0.paths()[i]);
                        if it0.paths()[i] != path@ {
                            let a = choose|a: int| #[trigger] it0.edges_map().contains_key((a, i));
                            assert(self.edges_map().contains_key((a, i)));
                        }
                    } else {
                        if self.paths()[i] != p@ {
                            assert(exists|a: int| #[trigger] self.edges_map().contains_key((a, i)));
                        } else {
                            // `p` came off the queue, so a node already held it; a
                            // second node with the same path would break the index.
                            let j = choose|j: int|
                                0 <= j < it0.paths().len() && it0.paths()[j] == (#[trigger] pend0[pend0.len() - 1])@;
                            assert(self.paths()[j] == it0.paths()[j]);
                            assert(index_map(self.index).contains_key(self.paths()[j]));
                            assert(index_map(self.index)[self.paths()[j]] == j);
                            assert(index_map(self.index)[self.paths()[i]] == i);
                            assert(false);
                        }
                    }
                }
                assert forall|kk: int|
                    0 <= kk < pending@.len() implies exists|i: int|
                    0 <= i < self.paths().len() && self.paths()[i] == (#[trigger] pending@[kk])@ by {
                    if kk < pend0.len() - 1 {
                        let ghost popped = pend0.drop_last();
                        assert(popped.is_prefix_of(pending@));
                        assert(popped[kk] == pend0[kk]);
                        assert(pending@[kk] == popped[kk]);
                        let i = choose|i: int|
                            0 <= i < it0.paths().len() && it0.paths()[i] == (#[trigger] pend0[kk])@;
                        assert(self.paths()[i] == it0.paths()[i]);
                    }
                }
            }
        }
        proof {
            assert forall|i: int| 0 <= i < self.paths().len() implies self.node_expanded(i) by {
                assert(pending@.len() == 0);
            }
        }
        true
    }
}

/// The dirty decision for one source file: under force everything runs;
/// with no saved hash the file is new, so it runs; with a saved hash it
/// runs iff the fresh hash differs, and an unreadable file counts as clean.
pub open spec fn run_decision(force: bool, saved: Option<u64>, cur: Option<u64>) -> bool {
    if force {
        true
    } else {
        match saved {
            None => true,
            Some(s) => match cur {
                None => false,
                Some(c) => c != s,
            },
        }
    }
}

/// One argument of a command: the token with `$i` replaced by the source
/// path and then `$o` by the target path.
pub open spec fn spec_arg_sub(t: Seq<char>, src: Seq<char>, tgt: Seq<char>) -> Seq<char> {
    crate::text::str_replaced(crate::text::str_replaced(t, "$i"@, src), "$o"@, tgt)
}

/// The argument list of a command template: every token after the program,
/// substituted.
pub open spec fn spec_args_of(cmd: Seq<char>, src: Seq<char>, tgt: Seq<char>) -> Seq<Seq<char>> {
    crate::text::ws_split(cmd).drop_first().map_values(|t: Seq<char>| spec_arg_sub(t, src, tgt))
}

/// A sequence of strings joined with single spaces.
pub open spec fn spec_joined(parts: Seq<Seq<char>>) -> Seq<char>
    decreases parts.len(),
{
    if parts.len() == 0 {
        Seq::empty()
    } else if parts.len() == 1 {
        parts[0]
    } else {
        spec_joined(parts.drop_last()) + " "@ + parts.last()
    }
}

/// The printed command line: the program, a space, and the substituted
/// arguments joined with spaces.
pub open spec fn spec_line_of(cmd: Seq<char>, src: Seq<char>, tgt: Seq<char>) -> Seq<char> {
    crate::text::ws_split(cmd)[0] + " "@ + spec_joined(spec_args_of(cmd, src, tgt))
}

/// One executor transition, as a relation between the engine before, the
/// response consumed, the engine after, and the query handed out. This is
/// exactly what `Engine::step` guarantees; naming it lets a whole run be
/// described transition by transition.
pub open spec fn step_rel(pre: Engine, resp: Resp, post: Engine, q: Query) -> bool {
        &&& (
            post.wf()
        )
        &&& (
            post.setup() == pre.setup()
        )
        &&& (
            post.paths() == pre.paths()
        )
        &&& (
            post.edges_map() == pre.edges_map()
        )
        &&& (
            pre.is_dry() ==> !(q is Run)
        )
        &&& (
            q is Print ==> pre.is_dry()
        )
        &&& (
            (q is Done) == (pre.frames().len() == 0)
        )
        &&& (
            pre.frames().len() == 0 ==> post == pre
        )
        &&& (
            (pre.clean_stack() && !pre.is_force() && pre.saved_covers_sources() && pre.resp_reports_clean(resp)) ==> {
                &&& !(q is Run)
                &&& !(q is Print)
                &&& post.clean_stack()
                &&& post.saved_covers_sources()
            }
        )
        &&& (
            (pre.is_force() && pre.forced_stack()) ==> {
                &&& !(q is CheckExists)
                &&& post.forced_stack()
            }
        )
        &&& (
            (match (pre.top(), resp) {
                (Some(Frame::AwaitStoreHash(c)), Resp::Hash(hh)) => match hh {
                    Some(hv) => post.current_map() == pre.current_map().insert(
                        pre.paths()[c.n as int],
                        hv,
                    ),
                    None => post.current_map() == pre.current_map(),
                },
                _ => post.current_map() == pre.current_map(),
            })
        )
        &&& (
            (match pre.top() {
                Some(Frame::Visit { n }) => {
                    ||| {
                        &&& q matches Query::NeedHash { path } && path@ == pre.paths()[n as int]
                        &&& !pre.is_force()
                        &&& pre.spec_saved_for(pre.paths()[n as int]) is Some
                        &&& exists|c: EdgeCtx|
                            {
                                &&& c.n == n
                                &&& c.pos == 0
                                &&& !c.run
                                &&& #[trigger] post.edge_list_ok(n as int, c.edges@)
                                &&& c.save == (c.edges@.len() > 0)
                                &&& post.frames() == pre.frames().drop_last().push(
                                    Frame::AwaitHash(c),
                                )
                            }
                    }
                    ||| {
                        &&& q is Continue
                        &&& (pre.is_force() || pre.spec_saved_for(
                            pre.paths()[n as int],
                        ) is None)
                        &&& exists|c: EdgeCtx|
                            {
                                &&& c.n == n
                                &&& c.pos == 0
                                &&& c.run
                                &&& #[trigger] post.edge_list_ok(n as int, c.edges@)
                                &&& c.save == (c.edges@.len() > 0)
                                &&& post.frames() == pre.frames().drop_last().push(
                                    Frame::Scan(c),
                                )
                            }
                    }
                },
                Some(Frame::AwaitHash(c)) => match resp {
                    Resp::Hash(hh) => {
                        &&& q is Continue
                        &&& post.frames() == pre.frames().drop_last().push(
                            Frame::Scan(
                                EdgeCtx {
                                    run: run_decision(
                                        pre.is_force(),
                                        pre.spec_saved_for(pre.paths()[c.n as int]),
                                        hh,
                                    ),
                                    ..c
                                },
                            ),
                        )
                    },
                    _ => true,
                },
                _ => true,
            })
        )
        &&& (
            (match pre.top() {
                Some(Frame::Scan(c)) => {
                    if c.pos == c.edges@.len() {
                        q is Continue && post.frames() == pre.frames().drop_last()
                    } else {
                        let t = c.edges@[c.pos as int].0;
                        let ri = c.edges@[c.pos as int].1;
                        let cmd = pre.rule_views()[ri as int].command;
                        let src = pre.paths()[c.n as int];
                        let tgt = pre.paths()[t as int];
                        if c.run {
                            if crate::text::ws_split(cmd).len() == 0 {
                                q matches Query::BadCommand { command } && command@ == cmd
                                    && post.frames() == pre.frames().drop_last()
                            } else if pre.is_dry() {
                                q matches Query::Print { line } && line@ == spec_line_of(
                                    cmd,
                                    src,
                                    tgt,
                                ) && post.frames() == advanced(
                                    pre.frames(),
                                    c,
                                    t != c.n,
                                )
                            } else {
                                q matches Query::Run { program, args, line } && program@
                                    == crate::text::ws_split(cmd)[0] && args@.map_values(
                                    |a: String| a@,
                                ) == spec_args_of(cmd, src, tgt) && line@ == spec_line_of(
                                    cmd,
                                    src,
                                    tgt,
                                ) && post.top() == Some(Frame::AwaitRun(c))
                                    && post.frames() == pre.frames().drop_last().push(
                                    Frame::AwaitRun(c),
                                )
                            }
                        } else {
                            q matches Query::CheckExists { path } && path@ == tgt && post.frames() == pre.frames().drop_last().push(
                                Frame::AwaitExists(c),
                            )
                        }
                    }
                },
                _ => true,
            })
        )
        &&& (
            (match (pre.top(), resp) {
                (Some(Frame::AwaitRun(c)), Resp::Ran(ok)) => {
                    let t = c.edges@[c.pos as int].0;
                    if ok && c.save {
                        q matches Query::NeedHash { path } && path@ == pre.paths()[c.n as int] && post.frames() == pre.frames().drop_last().push(Frame::AwaitStoreHash(c))
                    } else {
                        q is Continue && post.frames() == advanced(
                            pre.frames(),
                            c,
                            ok && t != c.n,
                        )
                    }
                },
                (Some(Frame::AwaitStoreHash(c)), _) => {
                    let t = c.edges@[c.pos as int].0;
                    q is Continue && post.frames() == advanced(
                        pre.frames(),
                        c,
                        t != c.n,
                    )
                },
                (Some(Frame::AwaitExists(c)), Resp::Exists(b)) => {
                    let t = c.edges@[c.pos as int].0;
                    q is Continue && post.frames() == advanced(
                        pre.frames(),
                        c,
                        b && t != c.n,
                    )
                },
                _ => true,
            })
        )
}

impl Engine {
    /// The hash the previous run saved for `p`, if a cache was loaded and
    /// holds one.
    pub open spec fn spec_saved_for(self, p: Seq<char>) -> Option<u64> {
        match self.saved_map() {
            None => None,
            Some(m) => if m.contains_key(p) {
                Some(m[p])
            } else {
                None
            },
        }
    }

    /// The top of the executor's stack.
    pub open spec fn top(self) -> Option<Frame> {
        if self.frames().len() > 0 {
            Some(self.frames().last())
        } else {
            None
        }
    }

    /// `edges` lists exactly the outgoing edges of `n`, without repeats.
    pub open spec fn edge_list_ok(self, n: int, edges: Seq<(usize, usize)>) -> bool {
        &&& forall|i: int|
            0 <= i < edges.len() ==> {
                &&& self.edges_map().contains_key((n, #[trigger] edges[i].0 as int))
                &&& self.edges_map()[(n, edges[i].0 as int)] == edges[i].1 as int
            }
        &&& forall|t: int| #[trigger]
            self.edges_map().contains_key((n, t)) ==> exists|i: int|
                0 <= i < edges.len() && #[trigger] edges[i].0 as int == t
        &&& forall|i: int, j: int| 0 <= i < j < edges.len() ==> edges[i].0 != edges[j].0
    }

    /// `n` is a root: every edge into it comes from itself, so it has no
    /// incoming edge or only the self-loop.
    pub open spec fn spec_is_root(self, n: int) -> bool {
        forall|s: int| #[trigger] self.edges_map().contains_key((s, n)) ==> s == n
    }

    /// Whether `n` is a root node: no incoming edges, or exactly one
    /// incoming edge whose source is `n` itself.
    pub fn is_root_node(&self, n: usize) -> (r: bool)
        ensures
            r == self.spec_is_root(n as int),
    {
        let inc = graph_in_sources(&self.graph, n);
        if inc.len() == 0 {
            proof {
                assert forall|s: int| #[trigger] self.edges_map().contains_key(
                    (s, n as int),
                ) implies s == n as int by {
                    assert(exists|i: int| 0 <= i < inc@.len() && #[trigger] inc@[i] as int == s);
                }
            }
            true
        } else if inc.len() == 1 {
            let r = inc[0] == n;
            proof {
                if r {
                    assert forall|s: int| #[trigger] self.edges_map().contains_key(
                        (s, n as int),
                    ) implies s == n as int by {
                        let i = choose|i: int|
                            0 <= i < inc@.len() && #[trigger] inc@[i] as int == s;
                        assert(inc@[i] == inc@[0]);
                    }
                } else {
                    assert(self.edges_map().contains_key((inc@[0] as int, n as int)));
                }
            }
            r
        } else {
            proof {
                assert(inc@[0] != inc@[1]);
                assert(self.edges_map().contains_key((inc@[0] as int, n as int)));
                assert(self.edges_map().contains_key((inc@[1] as int, n as int)));
            }
            false
        }
    }

    /// Seed the executor: push one visit frame per root node. Every frame
    /// is a root visit, and every root gets one.
    pub fn start_run(&mut self)
        requires
            old(self).wf(),
            old(self).frames().len() == 0,
        ensures
            final(self).wf(),
            final(self).setup() == old(self).setup(),
            final(self).paths() == old(self).paths(),
            final(self).edges_map() == old(self).edges_map(),
            final(self).current_map() == old(self).current_map(),
            final(self).clean_stack(),
            final(self).forced_stack(),
            forall|k: int|
                0 <= k < final(self).frames().len() ==> (match #[trigger] final(self).frames()[k] {
                    Frame::Visit { n } => (n as int) < final(self).paths().len() && final(self).spec_is_root(n as int),
                    _ => false,
                }),
            forall|n: int|
                0 <= n < final(self).paths().len() && #[trigger] final(self).spec_is_root(n)
                    ==> exists|k: int|
                    0 <= k < final(self).frames().len() && #[trigger] final(self).frames()[k]
                        == (Frame::Visit { n: n as usize }),
    {
        let ghost entry = *self;
        let count = graph_node_count(&self.graph);
        let mut i: usize = 0;
        while i < count
            invariant
                *self == (Engine { stack: self.stack, ..entry }),
                entry.wf(),
                entry.stack@.len() == 0,
                count == entry.paths().len(),
                i <= count,
                self.edges_map() == entry.edges_map(),
                self.paths() == entry.paths(),
                forall|k: int|
                    0 <= k < self.stack@.len() ==> (match #[trigger] self.stack@[k] {
                        Frame::Visit { n } => (n as int) < self.paths().len() && self.spec_is_root(
                            n as int,
                        ),
                        _ => false,
                    }),
                forall|n: int|
                    0 <= n < i && #[trigger] self.spec_is_root(n) ==> exists|k: int|
                        0 <= k < self.stack@.len() && #[trigger] self.stack@[k] == (Frame::Visit {
                            n: n as usize,
                        }),
            decreases count - i,
        {
            let root = self.is_root_node(i);
            let ghost pre_push = *self;
            if root {
                self.stack.push(Frame::Visit { n: i });
            }
            proof {
                assert(self.edges_map() == pre_push.edges_map());
                assert(self.paths() == pre_push.paths());
                assert forall|n: int|
                    0 <= n < i + 1 && #[trigger] self.spec_is_root(n) implies exists|k: int|
                    0 <= k < self.stack@.len() && #[trigger] self.stack@[k] == (Frame::Visit {
                        n: n as usize,
                    }) by {
                    assert(pre_push.edges_map() == self.edges_map());
                    assert(pre_push.spec_is_root(n)) by {
                        assert forall|s: int| #[trigger] pre_push.edges_map().contains_key(
                            (s, n),
                        ) implies s == n by {
                            assert(self.edges_map().contains_key((s, n)));
                        }
                    }
                    if n < i {
                        let k = choose|k: int|
                            0 <= k < pre_push.stack@.len() && #[trigger] pre_push.stack@[k]
                                == (Frame::Visit { n: n as usize });
                        assert(self.stack@[k] == pre_push.stack@[k]);
                    } else {
                        assert(root);
                        assert(self.stack@[self.stack@.len() - 1] == (Frame::Visit {
                            n: i as usize,
                        }));
                    }
                }
            }
            i = i + 1;
        }
        proof {
            assert forall|k: int| 0 <= k < self.stack@.len() implies self.frame_wf(
                #[trigger] self.stack@[k],
            ) by {
                match self.stack@[k] {
                    Frame::Visit { n } => {
                        assert((n as int) < self.paths().len());
                    },
                    _ => {},
                }
            }
            assert forall|k: int| 0 <= k < self.stack@.len() implies self.clean_frame(
                #[trigger] self.stack@[k],
            ) by {
                match self.stack@[k] {
                    Frame::Visit { .. } => {},
                    _ => {},
                }
            }
            assert forall|k: int| 0 <= k < self.stack@.len() implies self.forced_frame(
                #[trigger] self.stack@[k],
            ) by {
                match self.stack@[k] {
                    Frame::Visit { .. } => {},
                    _ => {},
                }
            }
        }
    }
}

/// The frames after finishing the edge at `c.pos`: the scan advances one
/// edge, and when the edge propagates, a visit of its target is pushed on
/// top (never for a self-loop).
pub open spec fn advanced(stack: Seq<Frame>, c: EdgeCtx, child: bool) -> Seq<Frame> {
    let base = stack.drop_last().push(
        Frame::Scan(EdgeCtx { pos: (c.pos + 1) as usize, ..c }),
    );
    if child {
        base.push(Frame::Visit { n: c.edges[c.pos as int].0 })
    } else {
        base
    }
}

impl Engine {
    /// Which response answers the pending query.
    pub open spec fn spec_accepts(self, resp: Resp) -> bool {
        match self.top() {
            None => resp is Start,
            Some(f) => match f {
                Frame::Visit { .. } => resp is Start,
                Frame::Scan(_) => resp is Start,
                Frame::AwaitHash(_) => resp is Hash,
                Frame::AwaitStoreHash(_) => resp is Hash,
                Frame::AwaitRun(_) => resp is Ran,
                Frame::AwaitExists(_) => resp is Exists,
            },
        }
    }

    /// Whether `resp` is the kind of response the executor expects next.
    pub fn accepts(&self, resp: &Resp) -> (r: bool)
        ensures
            r == self.spec_accepts(*resp),
    {
        if self.stack.len() == 0 {
            matches!(resp, Resp::Start)
        } else {
            let f = &self.stack[self.stack.len() - 1];
            match (f, resp) {
                (Frame::Visit { .. }, Resp::Start) => true,
                (Frame::Scan(_), Resp::Start) => true,
                (Frame::AwaitHash(_), Resp::Hash(_)) => true,
                (Frame::AwaitStoreHash(_), Resp::Hash(_)) => true,
                (Frame::AwaitRun(_), Resp::Ran(_)) => true,
                (Frame::AwaitExists(_), Resp::Exists(_)) => true,
                _ => false,
            }
        }
    }

    /// Split a rule's command template and substitute the source and target
    /// paths into its arguments. `None` iff the template holds no token;
    /// the program token itself is not substituted.
    fn build_command(cmd: &String, src: &String, tgt: &String) -> (r: Option<
        (String, Vec<String>, String),
    >)
        ensures
            (r is Some) == (crate::text::ws_split(cmd@).len() > 0),
            r matches Some(pal) ==> {
                &&& pal.0@ == crate::text::ws_split(cmd@)[0]
                &&& pal.1@.map_values(|a: String| a@) == spec_args_of(cmd@, src@, tgt@)
                &&& pal.2@ == spec_line_of(cmd@, src@, tgt@)
            },
    {
        let ghost toks = crate::text::ws_split(cmd@);
        let tokens = crate::text::split_whitespace_vec(cmd.as_str());
        if tokens.len() == 0 {
            return None;
        }
        let program = tokens[0].clone();
        proof {
            assert(tokens@.map_values(|t: String| t@)[0] == toks[0]);
        }
        let mut args: Vec<String> = Vec::new();
        let mut i: usize = 1;
        while i < tokens.len()
            invariant
                1 <= i <= tokens@.len(),
                toks.len() == tokens@.len(),
                tokens@.map_values(|t: String| t@) == toks,
                args@.map_values(|a: String| a@) == toks.subrange(1, i as int).map_values(
                    |t: Seq<char>| spec_arg_sub(t, src@, tgt@),
                ),
            decreases tokens@.len() - i,
        {
            let ti = &tokens[i];
            let a1 = crate::text::replace_str(ti.as_str(), "$i", src.as_str());
            let a2 = crate::text::replace_str(a1.as_str(), "$o", tgt.as_str());
            let ghost args0 = args@;
            args.push(a2);
            proof {
                assert(tokens@.map_values(|t: String| t@)[i as int] == toks[i as int]);
                assert(a2@ == spec_arg_sub(toks[i as int], src@, tgt@));
                assert(args0.map_values(|a: String| a@).len() == args0.len());
                assert(args0.len() == i - 1);
                let lhs = args@.map_values(|a: String| a@);
                let rhs = toks.subrange(1, i + 1 as int).map_values(
                    |t: Seq<char>| spec_arg_sub(t, src@, tgt@),
                );
                assert forall|x: int| 0 <= x < lhs.len() implies lhs[x] == rhs[x] by {
                    if x < args0.len() {
                        assert(args@[x] == args0[x]);
                        assert(args0.map_values(|a: String| a@)[x] == toks.subrange(
                            1,
                            i as int,
                        ).map_values(|t: Seq<char>| spec_arg_sub(t, src@, tgt@))[x]);
                        assert(toks.subrange(1, i as int)[x] == toks[1 + x]);
                        assert(toks.subrange(1, i + 1 as int)[x] == toks[1 + x]);
                    } else {
                        assert(args@[x] == a2);
                        assert(toks.subrange(1, i + 1 as int)[x] == toks[i as int]);
                    }
                }
                assert(lhs.len() == rhs.len());
                assert(lhs =~= rhs);
            }
            i = i + 1;
        }
        let ghost argsv = spec_args_of(cmd@, src@, tgt@);
        proof {
            assert(toks.subrange(1, toks.len() as int) =~= toks.drop_first());
            assert(args@.map_values(|a: String| a@) =~= argsv);
        }
        let mut line = program.clone();
        line.append(" ");
        let mut j: usize = 0;
        while j < args.len()
            invariant
                j <= args@.len(),
                args@.map_values(|a: String| a@) == argsv,
                toks.len() > 0,
                program@ == toks[0],
                line@ == toks[0] + " "@ + spec_joined(argsv.take(j as int)),
            decreases args@.len() - j,
        {
            if j > 0 {
                line.append(" ");
            }
            let aj = &args[j];
            line.append(aj.as_str());
            proof {
                assert(args@.map_values(|a: String| a@)[j as int] == argsv[j as int]);
                assert(argsv.take(j + 1 as int).drop_last() =~= argsv.take(j as int));
                assert(argsv.take(j + 1 as int).last() == argsv[j as int]);
                if j == 0 {
                    assert(spec_joined(argsv.take(1)) == argsv[0]);
                    assert(line@ =~= toks[0] + " "@ + spec_joined(argsv.take(1)));
                } else {
                    assert(spec_joined(argsv.take(j + 1 as int)) == spec_joined(
                        argsv.take(j as int),
                    ) + " "@ + argsv[j as int]);
                    assert(line@ =~= toks[0] + " "@ + spec_joined(argsv.take(j + 1 as int)));
                }
            }
            j = j + 1;
        }
        proof {
            assert(argsv.take(argsv.len() as int) =~= argsv);
        }
        Some((program, args, line))
    }

    /// Advance the executor by one transition. The driver answers the
    /// returned query and calls again with the answer. The contract pins
    /// the run down: the graph never changes; commands are handed out
    /// exactly for the edges whose source was decided dirty, with the
    /// command line built from the edge's rule and paths; a dry run never
    /// hands out a command, only prints; the current store gains exactly
    /// the re-read hash of a source whose command succeeded; and an edge
    /// propagates to its target iff its command succeeded, or its source
    /// was clean and the target exists, never along a self-loop.
    ///
    /// The clean-run clause makes reruns idempotent: starting from the
    /// clean stack that `start_run` leaves, when force is off, every
    /// depended-on source still has its saved hash, and each hash answer
    /// matches the saved one, a step hands out no command and keeps the
    /// stack clean, so by induction an unchanged tree dispatches nothing.
    #[verifier::rlimit(100)]
    pub fn step(&mut self, resp: Resp) -> (q: Query)
        requires
            old(self).wf(),
            old(self).spec_accepts(resp),
        ensures
            step_rel(*old(self), resp, *final(self), q),
    {
        if self.stack.len() == 0 {
            return Query::Done;
        }
        let f = match self.stack.pop() {
            Some(f) => f,
            None => {
                proof {
                    assert(false);
                }
                return Query::Done;
            },
        };
        proof {
            lemma_wf_stable(*old(self), *self);
            assert(old(self).frame_wf(old(self).frames()[old(self).frames().len() - 1]));
            assert forall|k: int| 0 <= k < self.stack@.len() implies self.frame_wf(
                #[trigger] self.stack@[k],
            ) by {
                assert(self.stack@[k] == old(self).stack@[k]);
                assert(old(self).frame_wf(old(self).stack@[k]));
                lemma_frame_wf_stable(*old(self), *self, self.stack@[k]);
            }
        }
        match f {
            Frame::Visit { n } => {
                proof {
                    assert(old(self).frames().last() == (Frame::Visit { n }));
                    assert((n as int) < self.paths().len());
                }
                let edges = graph_out_edges(&self.graph, n);
                let save = edges.len() > 0;
                let path = graph_node_path(&self.graph, n);
                let ghost ev = edges@;
                if self.force {
                    let c0 = EdgeCtx { n, run: true, save, edges, pos: 0 };
                    let ghost cg = c0;
                    let nf = Frame::Scan(c0);
                    proof {
                        assert(self.frame_wf(nf));
                    }
                    self.push_frame(nf);
                    proof {
                        assert(self.stack@ == old(self).stack@.drop_last().push(
                            Frame::Scan(cg),
                        ));
                        assert(self.edge_list_ok(n as int, cg.edges@));
                    }
                    proof {
                        if old(self).is_force() && old(self).forced_stack() {
                            lemma_forced_stack_replace(*old(self), *self, nf);
                        }
                    }
                    Query::Continue
                } else {
                    let has_saved = match &self.saved {
                        None => false,
                        Some(st) => match st.lookup(path.as_str()) {
                            None => false,
                            Some(_) => true,
                        },
                    };
                    if has_saved {
                        let c0 = EdgeCtx { n, run: false, save, edges, pos: 0 };
                        let ghost cg = c0;
                        let nf = Frame::AwaitHash(c0);
                        proof {
                            assert(self.frame_wf(nf));
                        }
                        self.push_frame(nf);
                        proof {
                            assert(self.stack@ == old(self).stack@.drop_last().push(
                                Frame::AwaitHash(cg),
                            ));
                            assert(self.edge_list_ok(n as int, cg.edges@));
                        }
                        proof {
                            if old(self).clean_stack() && !old(self).is_force() && old(self).saved_covers_sources() && old(self).resp_reports_clean(resp) {
                                lemma_covers_stable(*old(self), *self);
                                lemma_clean_stack_replace(*old(self), *self, nf);
                            }
                        }
                        Query::NeedHash { path }
                    } else {
                        let c0 = EdgeCtx { n, run: true, save, edges, pos: 0 };
                        let ghost cg = c0;
                        let nf = Frame::Scan(c0);
                        proof {
                            assert(self.frame_wf(nf));
                        }
                        self.push_frame(nf);
                        proof {
                            assert(self.stack@ == old(self).stack@.drop_last().push(
                                Frame::Scan(cg),
                            ));
                            assert(self.edge_list_ok(n as int, cg.edges@));
                        }
                        proof {
                            if old(self).clean_stack() && !old(self).is_force() && old(self).saved_covers_sources() && old(self).resp_reports_clean(resp) {
                                lemma_covers_stable(*old(self), *self);
                                assert(old(self).spec_saved_for(
                                    old(self).paths()[n as int],
                                ) is None);
                                assert(ev.len() == 0) by {
                                    if ev.len() > 0 {
                                        assert(old(self).edges_map().contains_key(
                                            (n as int, ev[0].0 as int),
                                        ));
                                        assert(old(self).spec_saved_for(
                                            old(self).paths()[n as int],
                                        ) is Some);
                                    }
                                }
                                lemma_clean_stack_replace(*old(self), *self, nf);
                            }
                        }
                        Query::Continue
                    }
                }
            },
            Frame::AwaitHash(c) => {
                proof {
                    if old(self).is_force() && old(self).forced_stack() {
                        assert(old(self).forced_frame(
                            old(self).frames()[old(self).frames().len() - 1],
                        ));
                        assert(false);
                    }
                    assert(old(self).frames().last() == Frame::AwaitHash(c));
                    lemma_frame_wf_stable(*old(self), *self, Frame::AwaitHash(c));
                    assert(self.ctx_wf(c));
                }
                match resp {
                    Resp::Hash(hh) => {
                        let path = graph_node_path(&self.graph, c.n);
                        let sv: Option<u64> = match &self.saved {
                            None => None,
                            Some(st) => st.lookup(path.as_str()),
                        };
                        let run = if self.force {
                            true
                        } else {
                            match sv {
                                None => true,
                                Some(s) => match hh {
                                    None => false,
                                    Some(cv) => cv != s,
                                },
                            }
                        };
                        proof {
                            assert(run == run_decision(
                                old(self).is_force(),
                                old(self).spec_saved_for(old(self).paths()[c.n as int]),
                                hh,
                            ));
                        }
                        let nf = Frame::Scan(EdgeCtx { run, ..c });
                        proof {
                            assert(self.frame_wf(nf)) by {
                                assert(self.ctx_wf(c));
                            }
                        }
                        self.push_frame(nf);
                        proof {
                            if old(self).clean_stack() && !old(self).is_force() && old(self).saved_covers_sources() && old(self).resp_reports_clean(resp) {
                                lemma_covers_stable(*old(self), *self);
                                assert(old(self).top() == Some(Frame::AwaitHash(c)));
                                assert(hh is Some && hh == old(self).spec_saved_for(
                                    old(self).paths()[c.n as int],
                                ));
                                assert(!run);
                                lemma_clean_stack_replace(*old(self), *self, nf);
                            }
                        }
                        Query::Continue
                    },
                    _ => {
                        proof {
                            assert(false);
                        }
                        Query::Done
                    },
                }
            },
            Frame::Scan(c) => {
                proof {
                    assert(old(self).frames().last() == Frame::Scan(c));
                    lemma_frame_wf_stable(*old(self), *self, Frame::Scan(c));
                    assert(self.ctx_wf(c));
                }
                if c.pos == c.edges.len() {
                    proof {
                        if old(self).is_force() && old(self).forced_stack() {
                            lemma_forced_stack_pop(*old(self), *self);
                        }
                        if old(self).clean_stack() && !old(self).is_force() && old(self).saved_covers_sources() && old(self).resp_reports_clean(resp) {
                            lemma_covers_stable(*old(self), *self);
                            lemma_clean_stack_pop(*old(self), *self);
                        }
                    }
                    Query::Continue
                } else {
                    let t = c.edges[c.pos].0;
                    let ri = c.edges[c.pos].1;
                    proof {
                        assert(self.edges_map().contains_key((c.n as int, t as int)));
                        assert((t as int) < self.paths().len());
                        assert((ri as int) < self.rule_views().len());
                    }
                    let src = graph_node_path(&self.graph, c.n);
                    let tgt = graph_node_path(&self.graph, t);
                    if c.run {
                        proof {
                            if old(self).clean_stack() && !old(self).is_force() && old(self).saved_covers_sources() && old(self).resp_reports_clean(resp) {
                                assert(old(self).clean_frame(
                                    old(self).frames()[old(self).frames().len() - 1],
                                ));
                                assert(false);
                            }
                        }
                        let cmd_text = {
                            let rule = &self.rules[ri];
                            rule.command_text().clone()
                        };
                        proof {
                            assert(self.rules@[ri as int]@ == self.rule_views()[ri as int]);
                        }
                        match Engine::build_command(&cmd_text, &src, &tgt) {
                            None => {
                                proof {
                                    if old(self).is_force() && old(self).forced_stack() {
                                        lemma_forced_stack_pop(*old(self), *self);
                                    }
                                }
                                Query::BadCommand { command: cmd_text }
                            },
                            Some((program, args, line)) => {
                                if self.dry {
                                    let child = t != c.n;
                                    self.advance_scan(c, child);
                                    proof {
                                        if old(self).is_force() && old(self).forced_stack() {
                                            assert(old(self).forced_frame(
                                                old(self).frames()[old(self).frames().len() - 1],
                                            ));
                                            lemma_forced_stack_advanced(*old(self), *self, c, child);
                                        }
                                    }
                                    let _ = program;
                                    let _ = args;
                                    Query::Print { line }
                                } else {
                                    let nf = Frame::AwaitRun(c);
                                    proof {
                                        assert(self.frame_wf(nf));
                                    }
                                    self.push_frame(nf);
                                    proof {
                                        if old(self).is_force() && old(self).forced_stack() {
                                            assert(old(self).forced_frame(
                                                old(self).frames()[old(self).frames().len() - 1],
                                            ));
                                            lemma_forced_stack_replace(*old(self), *self, nf);
                                        }
                                    }
                                    Query::Run { program, args, line }
                                }
                            },
                        }
                    } else {
                        proof {
                            if old(self).is_force() && old(self).forced_stack() {
                                assert(old(self).forced_frame(
                                    old(self).frames()[old(self).frames().len() - 1],
                                ));
                                assert(false);
                            }
                        }
                        let nf = Frame::AwaitExists(c);
                        proof {
                            assert(self.frame_wf(nf));
                        }
                        self.push_frame(nf);
                        proof {
                            if old(self).clean_stack() && !old(self).is_force() && old(self).saved_covers_sources() && old(self).resp_reports_clean(resp) {
                                lemma_covers_stable(*old(self), *self);
                                lemma_clean_stack_replace(*old(self), *self, nf);
                            }
                        }
                        Query::CheckExists { path: tgt }
                    }
                }
            },
            Frame::AwaitRun(c) => {
                proof {
                    if old(self).clean_stack() && !old(self).is_force() && old(self).saved_covers_sources() && old(self).resp_reports_clean(resp) {
                        assert(old(self).clean_frame(
                            old(self).frames()[old(self).frames().len() - 1],
                        ));
                        assert(false);
                    }
                    assert(old(self).frames().last() == Frame::AwaitRun(c));
                    lemma_frame_wf_stable(*old(self), *self, Frame::AwaitRun(c));
                    assert(self.ctx_wf(c));
                    assert(c.pos < c.edges@.len());
                }
                match resp {
                    Resp::Ran(ok) => {
                        if ok && c.save {
                            let path = graph_node_path(&self.graph, c.n);
                            let nf = Frame::AwaitStoreHash(c);
                            proof {
                                assert(self.frame_wf(nf));
                            }
                            self.push_frame(nf);
                            proof {
                                if old(self).is_force() && old(self).forced_stack() {
                                    assert(old(self).forced_frame(
                                        old(self).frames()[old(self).frames().len() - 1],
                                    ));
                                    lemma_forced_stack_replace(*old(self), *self, nf);
                                }
                            }
                            Query::NeedHash { path }
                        } else {
                            let t = c.edges[c.pos].0;
                            let child = ok && t != c.n;
                            self.advance_scan(c, child);
                            proof {
                                if old(self).is_force() && old(self).forced_stack() {
                                    assert(old(self).forced_frame(
                                        old(self).frames()[old(self).frames().len() - 1],
                                    ));
                                    lemma_forced_stack_advanced(*old(self), *self, c, child);
                                }
                            }
                            Query::Continue
                        }
                    },
                    _ => {
                        proof {
                            assert(false);
                        }
                        Query::Done
                    },
                }
            },
            Frame::AwaitStoreHash(c) => {
                proof {
                    if old(self).clean_stack() && !old(self).is_force() && old(self).saved_covers_sources() && old(self).resp_reports_clean(resp) {
                        assert(old(self).clean_frame(
                            old(self).frames()[old(self).frames().len() - 1],
                        ));
                        assert(false);
                    }
                    assert(old(self).frames().last() == Frame::AwaitStoreHash(c));
                    lemma_frame_wf_stable(*old(self), *self, Frame::AwaitStoreHash(c));
                    assert(self.ctx_wf(c));
                    assert(c.pos < c.edges@.len());
                }
                match resp {
                    Resp::Hash(hh) => {
                        let t = c.edges[c.pos].0;
                        let child = t != c.n;
                        let cn = c.n;
                        self.advance_scan(c, child);
                        proof {
                            if old(self).is_force() && old(self).forced_stack() {
                                assert(old(self).forced_frame(
                                    old(self).frames()[old(self).frames().len() - 1],
                                ));
                                lemma_forced_stack_advanced(*old(self), *self, c, child);
                            }
                        }
                        if let Some(hv) = hh {
                            let path = graph_node_path(&self.graph, cn);
                            let ghost pre_add = *self;
                            self.current.add(path, hv);
                            proof {
                                lemma_wf_stable(pre_add, *self);
                                assert forall|k: int|
                                    0 <= k < self.stack@.len() implies self.frame_wf(
                                    #[trigger] self.stack@[k],
                                ) by {
                                    assert(pre_add.frame_wf(pre_add.stack@[k]));
                                    lemma_frame_wf_stable(pre_add, *self, self.stack@[k]);
                                }
                            }
                        }
                        Query::Continue
                    },
                    _ => {
                        proof {
                            assert(false);
                        }
                        Query::Done
                    },
                }
            },
            Frame::AwaitExists(c) => {
                proof {
                    if old(self).is_force() && old(self).forced_stack() {
                        assert(old(self).forced_frame(
                            old(self).frames()[old(self).frames().len() - 1],
                        ));
                        assert(false);
                    }
                    assert(old(self).frames().last() == Frame::AwaitExists(c));
                    lemma_frame_wf_stable(*old(self), *self, Frame::AwaitExists(c));
                    assert(self.ctx_wf(c));
                    assert(c.pos < c.edges@.len());
                }
                match resp {
                    Resp::Exists(b) => {
                        let t = c.edges[c.pos].0;
                        let child = b && t != c.n;
                        self.advance_scan(c, child);
                        proof {
                            if old(self).clean_stack() && !old(self).is_force() && old(self).saved_covers_sources() && old(self).resp_reports_clean(resp) {
                                lemma_covers_stable(*old(self), *self);
                                assert(old(self).clean_frame(
                                    old(self).frames()[old(self).frames().len() - 1],
                                ));
                                assert(!c.run);
                                lemma_clean_stack_advanced(*old(self), *self, c, child);
                            }
                        }
                        Query::Continue
                    },
                    _ => {
                        proof {
                            assert(false);
                        }
                        Query::Done
                    },
                }
            },
        }
    }

    /// Push one frame, keeping the stack well formed.
    fn push_frame(&mut self, f: Frame)
        requires
            old(self).rules_wf(),
            old(self).index_wf(),
            old(self).edges_wf(),
            old(self).stack_wf(),
            old(self).frame_wf(f),
        ensures
            *final(self) == (Engine { stack: final(self).stack, ..*old(self) }),
            final(self).stack@ == old(self).stack@.push(f),
            final(self).rules_wf(),
            final(self).index_wf(),
            final(self).edges_wf(),
            final(self).stack_wf(),
    {
        self.stack.push(f);
        proof {
            lemma_wf_stable(*old(self), *self);
            assert forall|k: int| 0 <= k < self.stack@.len() implies self.frame_wf(
                #[trigger] self.stack@[k],
            ) by {
                if k < old(self).stack@.len() {
                    assert(self.stack@[k] == old(self).stack@[k]);
                    assert(old(self).frame_wf(old(self).stack@[k]));
                    lemma_frame_wf_stable(*old(self), *self, self.stack@[k]);
                } else {
                    assert(self.stack@[k] == f);
                    lemma_frame_wf_stable(*old(self), *self, f);
                }
            }
        }
    }

    /// Finish the edge at `c.pos`: advance the scan one edge and, when the
    /// edge propagates, push a visit of its target (never for a self-loop;
    /// the caller passes `child` accordingly).
    fn advance_scan(&mut self, c: EdgeCtx, child: bool)
        requires
            old(self).rules_wf(),
            old(self).index_wf(),
            old(self).edges_wf(),
            old(self).stack_wf(),
            old(self).ctx_wf(c),
            c.pos < c.edges@.len(),
        ensures
            *final(self) == (Engine { stack: final(self).stack, ..*old(self) }),
            final(self).rules_wf(),
            final(self).index_wf(),
            final(self).edges_wf(),
            final(self).stack_wf(),
            final(self).stack@ == if child {
                old(self).stack@.push(
                    Frame::Scan(EdgeCtx { pos: (c.pos + 1) as usize, ..c }),
                ).push(Frame::Visit { n: c.edges@[c.pos as int].0 })
            } else {
                old(self).stack@.push(Frame::Scan(EdgeCtx { pos: (c.pos + 1) as usize, ..c }))
            },
    {
        let t = c.edges[c.pos].0;
        let elen = c.edges.len();
        proof {
            assert(c.pos < elen);
        }
        let nf = Frame::Scan(EdgeCtx { pos: c.pos + 1, ..c });
        proof {
            assert(self.frame_wf(nf)) by {
                assert(self.ctx_wf(c));
            }
        }
        self.push_frame(nf);
        if child {
            let vf = Frame::Visit { n: t };
            proof {
                assert(self.edges_map().contains_key((c.n as int, t as int)));
                assert(self.frame_wf(vf));
            }
            self.push_frame(vf);
        }
    }
}


impl Engine {
    /// One-shot construction: compile the rule definitions, build an empty
    /// engine, then expand the graph from each seed path in turn. `None`
    /// exactly when some rule pattern does not compile. The flag is true
    /// when every seed was expanded to the fixpoint; it is false only when
    /// the graph hit its capacity or the expansion budget.
    pub fn build_with_seeds(
        defs: &Vec<RuleDef>,
        seeds: &Vec<String>,
        force: bool,
        dry: bool,
        saved: Option<HashStore>,
    ) -> (r: Option<(Engine, bool)>)
        ensures
            (r is Some) ==> forall|i: int|
                0 <= i < defs@.len() ==> def_compiles((#[trigger] defs@[i])@),
            (r is None) ==> exists|i: int|
                0 <= i < defs@.len() && !def_compiles((#[trigger] defs@[i])@),
            r matches Some(pr) ==> {
                &&& pr.0.wf()
                &&& pr.0.frames().len() == 0
                &&& pr.0.rule_views() == defs@.map_values(|d: RuleDef| d@)
                &&& pr.0.is_force() == force
                &&& pr.0.is_dry() == dry
                &&& (pr.1 ==> pr.0.all_expanded())
                &&& (pr.1 ==> forall|si: int|
                    0 <= si < seeds@.len() ==> pr.0.seed_covered((#[trigger] seeds@[si])@))
                &&& (pr.1 ==> pr.0.nodes_from_seeds(seeds@, seeds@.len() as int))
                &&& (!pr.1 ==> pr.0.paths().len() >= usize::MAX as int)
            },
    {
        let rules = match compile_rules(defs) {
            Some(rs) => rs,
            None => {
                return None;
            },
        };
        proof {
            assert(views_of(rules@) =~= defs@.map_values(|d: RuleDef| d@));
        }
        let mut e = Engine::build(rules, force, dry, saved);
        let mut i: usize = 0;
        while i < seeds.len()
            invariant
                i <= seeds@.len(),
                forall|ii: int| 0 <= ii < defs@.len() ==> def_compiles((#[trigger] defs@[ii])@),
                e.wf(),
                e.all_expanded(),
                e.frames().len() == 0,
                e.rule_views() == defs@.map_values(|d: RuleDef| d@),
                e.is_force() == force,
                e.is_dry() == dry,
                forall|si: int| 0 <= si < i ==> e.seed_covered((#[trigger] seeds@[si])@),
                e.nodes_from_seeds(seeds@, i as int),
            decreases seeds@.len() - i,
        {
            let p = seeds[i].clone();
            let ghost it0 = e;
            let ok = e.generate_children(p);
            if !ok {
                return Some((e, false));
            }
            proof {
                assert forall|si: int| 0 <= si < i + 1 implies e.seed_covered(
                    (#[trigger] seeds@[si])@,
                ) by {
                    if si < i {
                        lemma_seed_covered_mono(it0, e, seeds@[si]@);
                    } else {
                        assert(e.seed_covered(seeds@[si]@));
                    }
                }
                assert(e.nodes_from_seeds(seeds@, i + 1)) by {
                    assert forall|ii: int| #![trigger e.paths()[ii]]
                        0 <= ii < e.paths().len() implies (exists|si: int|
                        0 <= si < i + 1 && (#[trigger] seeds@[si])@ == e.paths()[ii]) || exists|a: int|
                        #[trigger] e.edges_map().contains_key((a, ii)) by {
                        if ii < it0.paths().len() {
                            assert(e.paths()[ii] == it0.paths()[ii]);
                            if exists|si: int|
                                0 <= si < i && (#[trigger] seeds@[si])@ == it0.paths()[ii] {
                                let si = choose|si: int|
                                    0 <= si < i && (#[trigger] seeds@[si])@ == it0.paths()[ii];
                                assert(seeds@[si]@ == e.paths()[ii]);
                            } else {
                                let a = choose|a: int|
                                    #[trigger] it0.edges_map().contains_key((a, ii));
                                assert(e.edges_map().contains_key((a, ii)));
                            }
                        } else {
                            if e.paths()[ii] == seeds@[i as int]@ {
                                assert(seeds@[i as int]@ == e.paths()[ii]);
                            } else {
                                assert(exists|a: int|
                                    #[trigger] e.edges_map().contains_key((a, ii)));
                            }
                        }
                    }
                }
            }
            i = i + 1;
        }
        Some((e, true))
    }

    /// Build an engine as `build_with_seeds` does, seed the executor with
    /// the roots, and feed it the given script of responses, collecting the
    /// queries. The run stops at the first response of the wrong kind, at
    /// the end of the script, and after `Done` or a malformed command.
    /// `None` exactly when some rule pattern does not compile. Under
    /// dry-run no collected query dispatches a command.
    pub fn run_script(
        defs: &Vec<RuleDef>,
        seeds: &Vec<String>,
        force: bool,
        dry: bool,
        saved: Option<HashStore>,
        script: &Vec<Resp>,
    ) -> (r: Option<(Engine, Vec<Query>, Ghost<Seq<Engine>>)>)
        ensures
            (r is Some) ==> forall|i: int|
                0 <= i < defs@.len() ==> def_compiles((#[trigger] defs@[i])@),
            (r is None) ==> exists|i: int|
                0 <= i < defs@.len() && !def_compiles((#[trigger] defs@[i])@),
            r matches Some(pr) ==> {
                &&& pr.0.wf()
                &&& (dry ==> forall|k: int| 0 <= k < pr.1@.len() ==> !((#[trigger] pr.1@[k]) is Run))
                &&& pr.2@.len() == pr.1@.len() + 1
                &&& pr.2@[pr.2@.len() - 1] == pr.0
                &&& pr.1@.len() <= script@.len()
                &&& run_chain(pr.2@, script@, pr.1@)
                &&& (pr.1@.len() < script@.len() ==> (!pr.2@[pr.1@.len() as int].spec_accepts(
                    script@[pr.1@.len() as int],
                ) || (pr.1@.len() > 0 && (pr.1@[pr.1@.len() - 1] is Done || pr.1@[pr.1@.len()
                    - 1] is BadCommand))))
                &&& forall|k: int|
                    0 <= k < pr.1@.len() ==> step_rel(
                        #[trigger] pr.2@[k],
                        script@[k],
                        pr.2@[k + 1],
                        pr.1@[k],
                    )
                &&& forall|k: int|
                    0 <= k < pr.1@.len() ==> (#[trigger] pr.2@[k]).spec_accepts(script@[k])
                &&& pr.2@[0].wf()
                &&& pr.2@[0].rule_views() == defs@.map_values(|d: RuleDef| d@)
                &&& pr.2@[0].is_force() == force
                &&& pr.2@[0].is_dry() == dry
                &&& forall|kk: int|
                    0 <= kk < pr.2@[0].frames().len() ==> (match #[trigger] pr.2@[0].frames()[kk] {
                        Frame::Visit { n } => (n as int) < pr.2@[0].paths().len()
                            && pr.2@[0].spec_is_root(n as int),
                        _ => false,
                    })
                &&& forall|n: int|
                    0 <= n < pr.2@[0].paths().len() && #[trigger] pr.2@[0].spec_is_root(n)
                        ==> exists|kk: int|
                        0 <= kk < pr.2@[0].frames().len() && #[trigger] pr.2@[0].frames()[kk]
                            == (Frame::Visit { n: n as usize })
            },
    {
        let built = match Engine::build_with_seeds(defs, seeds, force, dry, saved) {
            Some(x) => x,
            None => {
                return None;
            },
        };
        let (mut e, _complete) = built;
        e.start_run();
        let ghost e0 = e;
        let ghost mut trace: Seq<Engine> = Seq::empty().push(e);
        let mut out: Vec<Query> = Vec::new();
        let mut i: usize = 0;
        while i < script.len()
            invariant
                i <= script@.len(),
                forall|ii: int| 0 <= ii < defs@.len() ==> def_compiles((#[trigger] defs@[ii])@),
                e.wf(),
                e.is_dry() == dry,
                dry ==> forall|k: int| 0 <= k < out@.len() ==> !((#[trigger] out@[k]) is Run),
                out@.len() == i,
                trace.len() == out@.len() + 1,
                trace[trace.len() - 1] == e,
                trace[0] == e0,
                e0.wf(),
                e0.rule_views() == defs@.map_values(|d: RuleDef| d@),
                e0.is_force() == force,
                e0.is_dry() == dry,
                forall|kk: int|
                    0 <= kk < e0.frames().len() ==> (match #[trigger] e0.frames()[kk] {
                        Frame::Visit { n } => (n as int) < e0.paths().len() && e0.spec_is_root(
                            n as int,
                        ),
                        _ => false,
                    }),
                forall|n: int|
                    0 <= n < e0.paths().len() && #[trigger] e0.spec_is_root(n) ==> exists|kk: int|
                        0 <= kk < e0.frames().len() && #[trigger] e0.frames()[kk] == (Frame::Visit {
                            n: n as usize,
                        }),
                forall|k: int|
                    0 <= k < out@.len() ==> step_rel(
                        #[trigger] trace[k],
                        script@[k],
                        trace[k + 1],
                        out@[k],
                    ),
                forall|k: int| 0 <= k < out@.len() ==> (#[trigger] trace[k]).spec_accepts(script@[k]),
            decreases script@.len() - i,
        {
            let resp = script[i];
            if !e.accepts(&resp) {
                return Some((e, out, Ghost(trace)));
            }
            let q = e.step(resp);
            let stop = matches!(q, Query::Done | Query::BadCommand { .. });
            proof {
                trace = trace.push(e);
            }
            out.push(q);
            if stop {
                return Some((e, out, Ghost(trace)));
            }
            i = i + 1;
        }
        Some((e, out, Ghost(trace)))
    }

    /// The end-of-run cache decision for the current store: under dry-run,
    /// or with nothing recorded, nothing is written; on every other input
    /// bytes are handed back that load back to exactly the current store's
    /// contents.
    pub fn cache_plan(&self) -> (r: CachePlan)
        ensures
            (r is Skip) == (self.is_dry() || self.current_map().dom() == Set::<Seq<char>>::empty()),
            (r is Write) == !(self.is_dry() || self.current_map().dom()
                == Set::<Seq<char>>::empty()),
            r matches CachePlan::Write(b) ==> crate::hashes::spec_load(Some(b@)) == Some(
                self.current_map(),
            ),
    {
        encode_cache(&self.current, self.dry)
    }

    /// The hash recorded in this run for `path`, if any.
    pub fn current_hash(&self, path: &str) -> (r: Option<u64>)
        ensures
            (r is Some) == self.current_map().contains_key(path@),
            r matches Some(h) ==> h == self.current_map()[path@],
    {
        self.current.lookup(path)
    }

    /// Every node's path, indexed by node id.
    pub fn node_paths(&self) -> (r: Vec<String>)
        ensures
            r@.map_values(|p: String| p@) == self.paths(),
    {
        let count = graph_node_count(&self.graph);
        let mut out: Vec<String> = Vec::new();
        let mut i: usize = 0;
        while i < count
            invariant
                i <= count,
                count == self.paths().len(),
                out@.len() == i,
                forall|k: int| 0 <= k < i ==> (#[trigger] out@[k])@ == self.paths()[k],
            decreases count - i,
        {
            out.push(graph_node_path(&self.graph, i));
            i = i + 1;
        }
        proof {
            assert(out@.map_values(|p: String| p@) =~= self.paths());
        }
        out
    }

    /// The edges as (source, target, rule index) triples, in unspecified
    /// order: every listed triple is an edge, and every edge is listed.
    pub fn edge_list(&self) -> (r: Vec<(usize, usize, usize)>)
        ensures
            forall|k: int|
                0 <= k < r@.len() ==> {
                    &&& self.edges_map().contains_key(
                        ((#[trigger] r@[k]).0 as int, r@[k].1 as int),
                    )
                    &&& self.edges_map()[(r@[k].0 as int, r@[k].1 as int)] == r@[k].2 as int
                },
            forall|s: int, t: int|
                #[trigger] self.edges_map().contains_key((s, t)) && 0 <= s < self.paths().len()
                    ==> exists|k: int|
                    0 <= k < r@.len() && (#[trigger] r@[k]).0 as int == s && r@[k].1 as int == t,
    {
        let count = graph_node_count(&self.graph);
        let mut out: Vec<(usize, usize, usize)> = Vec::new();
        let mut n: usize = 0;
        while n < count
            invariant
                n <= count,
                count == self.paths().len(),
                forall|k: int|
                    0 <= k < out@.len() ==> {
                        &&& self.edges_map().contains_key(
                            ((#[trigger] out@[k]).0 as int, out@[k].1 as int),
                        )
                        &&& self.edges_map()[(out@[k].0 as int, out@[k].1 as int)] == out@[k].2 as int
                    },
                forall|s: int, t: int|
                    #[trigger] self.edges_map().contains_key((s, t)) && 0 <= s < n
                        ==> exists|k: int|
                        0 <= k < out@.len() && (#[trigger] out@[k]).0 as int == s && out@[k].1 as int
                            == t,
            decreases count - n,
        {
            let ev = graph_out_edges(&self.graph, n);
            let ghost out0 = out@;
            let mut j: usize = 0;
            while j < ev.len()
                invariant
                    j <= ev@.len(),
                    n < count,
                    count == self.paths().len(),
                    forall|x: int|
                        0 <= x < ev@.len() ==> {
                            &&& self.edges_map().contains_key(
                                (n as int, (#[trigger] ev@[x]).0 as int),
                            )
                            &&& self.edges_map()[(n as int, ev@[x].0 as int)] == ev@[x].1 as int
                        },
                    forall|t: int| #[trigger]
                        self.edges_map().contains_key((n as int, t)) ==> exists|x: int|
                            0 <= x < ev@.len() && #[trigger] ev@[x].0 as int == t,
                    out0.is_prefix_of(out@),
                    forall|k: int|
                        0 <= k < out@.len() ==> {
                            &&& self.edges_map().contains_key(
                                ((#[trigger] out@[k]).0 as int, out@[k].1 as int),
                            )
                            &&& self.edges_map()[(out@[k].0 as int, out@[k].1 as int)] == out@[k].2
                                as int
                        },
                    forall|x: int|
                        0 <= x < j ==> exists|k: int|
                            0 <= k < out@.len() && out@[k] == (
                            n,
                            (#[trigger] ev@[x]).0,
                            ev@[x].1,
                            ),
                decreases ev@.len() - j,
            {
                let (t, ri) = ev[j];
                let ghost outpre = out@;
                out.push((n, t, ri));
                proof {
                    assert forall|x: int|
                        0 <= x < j + 1 implies exists|k: int|
                        0 <= k < out@.len() && out@[k] == (n, (#[trigger] ev@[x]).0, ev@[x].1) by {
                        if x < j {
                            let k = choose|k: int|
                                0 <= k < outpre.len() && outpre[k] == (
                                n,
                                (#[trigger] ev@[x]).0,
                                ev@[x].1,
                                );
                            assert(out@[k] == outpre[k]);
                        } else {
                            assert(out@[out@.len() - 1] == (n, ev@[x].0, ev@[x].1));
                        }
                    }
                }
                j = j + 1;
            }
            proof {
                assert forall|s: int, t: int|
                    #[trigger] self.edges_map().contains_key((s, t)) && 0 <= s < n + 1 implies
                    exists|k: int|
                    0 <= k < out@.len() && (#[trigger] out@[k]).0 as int == s && out@[k].1 as int
                        == t by {
                    if s < n {
                        let k = choose|k: int|
                            0 <= k < out0.len() && (#[trigger] out0[k]).0 as int == s
                                && out0[k].1 as int == t;
                        assert(out@[k] == out0[k]);
                    } else {
                        let x = choose|x: int|
                            0 <= x < ev@.len() && #[trigger] ev@[x].0 as int == t;
                        let k = choose|k: int|
                            0 <= k < out@.len() && out@[k] == (n, ev@[x].0, ev@[x].1);
                        assert((out@[k]).0 as int == s && out@[k].1 as int == t);
                    }
                }
            }
            n = n + 1;
        }
        out
    }
}

/// Every edge of a well-formed graph is justified: its recorded rule
/// exists, matches the source path, and rewrites it to the target path;
/// and no edge belongs to a pair that smart exclusion suppressed.
pub proof fn lemma_edges_sound(e: Engine, s: int, t: int)
    requires
        e.wf(),
        e.edges_map().contains_key((s, t)),
    ensures
        0 <= s < e.paths().len(),
        0 <= t < e.paths().len(),
        0 <= e.edges_map()[(s, t)] < e.rule_views().len(),
        spec_does_match(e.rule_views()[e.edges_map()[(s, t)]], e.paths()[s]),
        e.paths()[t] == spec_apply(e.rule_views()[e.edges_map()[(s, t)]], e.paths()[s]),
        !suppressed(e.rule_views(), e.paths()[s], e.paths()[t]),
{
}

/// After construction every node is fully worked: a rule that matches a
/// node's path, and whose pair is not smart-excluded, has its edge to the
/// node holding the rewritten path.
pub proof fn lemma_fixpoint(e: Engine, i: int, ri: int)
    requires
        e.wf(),
        e.all_expanded(),
        0 <= i < e.paths().len(),
        0 <= ri < e.rule_views().len(),
        spec_does_match(e.rule_views()[ri], e.paths()[i]),
        !suppressed(e.rule_views(), e.paths()[i], spec_apply(e.rule_views()[ri], e.paths()[i])),
    ensures
        exists|j: int|
            0 <= j < e.paths().len() && e.paths()[j] == spec_apply(
                e.rule_views()[ri],
                e.paths()[i],
            ) && #[trigger] e.edges_map().contains_key((i, j)),
{
    assert(e.node_expanded(i));
    assert(e.edge_covered(e.paths()[i], ri));
    let (ip, iq) = choose|ip: int, iq: int|
        {
            &&& 0 <= ip < e.paths().len()
            &&& 0 <= iq < e.paths().len()
            &&& e.paths()[ip] == e.paths()[i]
            &&& e.paths()[iq] == spec_apply(e.rule_views()[ri], e.paths()[i])
            &&& #[trigger] e.edges_map().contains_key((ip, iq))
        };
    assert(index_map(e.index).contains_key(e.paths()[ip]));
    assert(index_map(e.index)[e.paths()[ip]] == ip);
    assert(index_map(e.index)[e.paths()[i]] == i);
    assert(ip == i);
}

/// An unchanged file is skipped: with force off and the fresh hash equal to
/// the saved one, the dirty decision is negative, so no command fires for
/// its edges. This is what makes a second run over an unchanged tree
/// dispatch nothing.
pub proof fn lemma_clean_no_run(h: u64)
    ensures
        !run_decision(false, Some(h), Some(h)),
{
}

/// Force monotonicity of the dirty decision: whenever an edge fires without
/// force, it also fires with force, so a forced run dispatches at least as
/// many commands.
pub proof fn lemma_force_monotone(saved: Option<u64>, cur: Option<u64>)
    ensures
        run_decision(false, saved, cur) ==> run_decision(true, saved, cur),
{
}


/// Replacing a clean stack's top frame with a clean frame keeps it clean.
proof fn lemma_clean_stack_replace(a: Engine, b: Engine, nf: Frame)
    requires
        a.clean_stack(),
        a.frames().len() > 0,
        b.frames() == a.frames().drop_last().push(nf),
        b.clean_frame(nf),
    ensures
        b.clean_stack(),
{
    assert forall|k: int| 0 <= k < b.frames().len() implies b.clean_frame(
        #[trigger] b.frames()[k],
    ) by {
        if k < a.frames().len() - 1 {
            assert(b.frames()[k] == a.frames()[k]);
            assert(a.clean_frame(a.frames()[k]));
        } else {
            assert(b.frames()[k] == nf);
        }
    }
}

/// Popping a clean stack's top frame keeps it clean.
proof fn lemma_clean_stack_pop(a: Engine, b: Engine)
    requires
        a.clean_stack(),
        a.frames().len() > 0,
        b.frames() == a.frames().drop_last(),
    ensures
        b.clean_stack(),
{
    assert forall|k: int| 0 <= k < b.frames().len() implies b.clean_frame(
        #[trigger] b.frames()[k],
    ) by {
        assert(b.frames()[k] == a.frames()[k]);
        assert(a.clean_frame(a.frames()[k]));
    }
}

/// Advancing past a non-firing edge keeps a clean stack clean: the scan
/// stays non-firing and a visit frame is always clean.
proof fn lemma_clean_stack_advanced(a: Engine, b: Engine, c: EdgeCtx, child: bool)
    requires
        a.clean_stack(),
        a.frames().len() > 0,
        b.frames() == advanced(a.frames(), c, child),
        !c.run,
    ensures
        b.clean_stack(),
{
    assert forall|k: int| 0 <= k < b.frames().len() implies b.clean_frame(
        #[trigger] b.frames()[k],
    ) by {
        if k < a.frames().len() - 1 {
            assert(b.frames()[k] == a.frames()[k]);
            assert(a.clean_frame(a.frames()[k]));
        }
    }
}

/// Replacing a forced stack's top frame with a firing frame keeps every
/// frame firing or undecided.
proof fn lemma_forced_stack_replace(a: Engine, b: Engine, nf: Frame)
    requires
        a.forced_stack(),
        a.frames().len() > 0,
        b.frames() == a.frames().drop_last().push(nf),
        b.forced_frame(nf),
    ensures
        b.forced_stack(),
{
    assert forall|k: int| 0 <= k < b.frames().len() implies b.forced_frame(
        #[trigger] b.frames()[k],
    ) by {
        if k < a.frames().len() - 1 {
            assert(b.frames()[k] == a.frames()[k]);
            assert(a.forced_frame(a.frames()[k]));
        } else {
            assert(b.frames()[k] == nf);
        }
    }
}

/// Popping a forced stack's top frame keeps every frame firing or
/// undecided.
proof fn lemma_forced_stack_pop(a: Engine, b: Engine)
    requires
        a.forced_stack(),
        a.frames().len() > 0,
        b.frames() == a.frames().drop_last(),
    ensures
        b.forced_stack(),
{
    assert forall|k: int| 0 <= k < b.frames().len() implies b.forced_frame(
        #[trigger] b.frames()[k],
    ) by {
        assert(b.frames()[k] == a.frames()[k]);
        assert(a.forced_frame(a.frames()[k]));
    }
}

/// Advancing past a fired edge keeps a forced stack firing: the scan keeps
/// its positive decision and a visit frame is always undecided.
proof fn lemma_forced_stack_advanced(a: Engine, b: Engine, c: EdgeCtx, child: bool)
    requires
        a.forced_stack(),
        a.frames().len() > 0,
        b.frames() == advanced(a.frames(), c, child),
        c.run,
    ensures
        b.forced_stack(),
{
    assert forall|k: int| 0 <= k < b.frames().len() implies b.forced_frame(
        #[trigger] b.frames()[k],
    ) by {
        if k < a.frames().len() - 1 {
            assert(b.frames()[k] == a.frames()[k]);
            assert(a.forced_frame(a.frames()[k]));
        }
    }
}


/// A chain of executor transitions: `states` linked pairwise by `step_rel`
/// under the given responses, handing out the given queries.
pub open spec fn run_chain(states: Seq<Engine>, resps: Seq<Resp>, qs: Seq<Query>) -> bool {
    &&& states.len() == qs.len() + 1
    &&& resps.len() >= qs.len()
    &&& forall|j: int|
        0 <= j < qs.len() ==> step_rel(#[trigger] states[j], resps[j], states[j + 1], qs[j])
}

/// Along a chain of transitions the setup (rules, saved snapshot, force and
/// dry flags) never changes.
proof fn lemma_chain_setup(states: Seq<Engine>, resps: Seq<Resp>, qs: Seq<Query>, k: int)
    requires
        run_chain(states, resps, qs),
        0 <= k <= qs.len(),
    ensures
        states[k].setup() == states[0].setup(),
    decreases k,
{
    if k > 0 {
        lemma_chain_setup(states, resps, qs, k - 1);
        assert(step_rel(states[k - 1], resps[k - 1], states[k], qs[k - 1]));
    }
}

/// Dry-run purity over a whole run: along any chain of transitions of a
/// dry engine, no step hands out a command to dispatch.
pub proof fn lemma_dry_run_no_commands(states: Seq<Engine>, resps: Seq<Resp>, qs: Seq<Query>)
    requires
        run_chain(states, resps, qs),
        states[0].is_dry(),
    ensures
        forall|k: int| 0 <= k < qs.len() ==> !((#[trigger] qs[k]) is Run),
{
    assert forall|k: int| 0 <= k < qs.len() implies !((#[trigger] qs[k]) is Run) by {
        lemma_chain_setup(states, resps, qs, k);
        assert(states[k].is_dry());
        assert(step_rel(states[k], resps[k], states[k + 1], qs[k]));
    }
}

/// Rerun idempotence over a whole run: starting from a clean stack with
/// force off, when every source that something depends on still has its
/// saved hash and every hash answer equals that saved hash, no step of the
/// run hands out or prints a command.
pub proof fn lemma_unchanged_run_no_commands(states: Seq<Engine>, resps: Seq<Resp>, qs: Seq<Query>)
    requires
        run_chain(states, resps, qs),
        !states[0].is_force(),
        states[0].clean_stack(),
        states[0].saved_covers_sources(),
        forall|j: int|
            0 <= j < qs.len() ==> (#[trigger] states[j]).resp_reports_clean(resps[j]),
    ensures
        forall|k: int|
            0 <= k < qs.len() ==> !((#[trigger] qs[k]) is Run) && !(qs[k] is Print),
{
    assert forall|k: int|
        0 <= k < qs.len() implies !((#[trigger] qs[k]) is Run) && !(qs[k] is Print) by {
        lemma_chain_clean(states, resps, qs, k);
        lemma_chain_setup(states, resps, qs, k);
        assert(!states[k].is_force());
        assert(step_rel(states[k], resps[k], states[k + 1], qs[k]));
    }
}

/// The induction behind the rerun law: a clean stack with covered sources
/// stays so along the chain.
proof fn lemma_chain_clean(states: Seq<Engine>, resps: Seq<Resp>, qs: Seq<Query>, k: int)
    requires
        run_chain(states, resps, qs),
        0 <= k <= qs.len(),
        !states[0].is_force(),
        states[0].clean_stack(),
        states[0].saved_covers_sources(),
        forall|j: int|
            0 <= j < qs.len() ==> (#[trigger] states[j]).resp_reports_clean(resps[j]),
    ensures
        states[k].clean_stack(),
        states[k].saved_covers_sources(),
    decreases k,
{
    if k > 0 {
        lemma_chain_clean(states, resps, qs, k - 1);
        lemma_chain_setup(states, resps, qs, k - 1);
        assert(!states[k - 1].is_force());
        assert(states[k - 1].resp_reports_clean(resps[k - 1]));
        assert(step_rel(states[k - 1], resps[k - 1], states[k], qs[k - 1]));
    }
}

/// Force monotonicity over a whole run: along any chain of a forced engine
/// from the all-firing stack `start_run` leaves, no step asks for an
/// existence check, so no edge is ever skipped as clean.
pub proof fn lemma_forced_run_skips_nothing(states: Seq<Engine>, resps: Seq<Resp>, qs: Seq<Query>)
    requires
        run_chain(states, resps, qs),
        states[0].is_force(),
        states[0].forced_stack(),
    ensures
        forall|k: int| 0 <= k < qs.len() ==> !((#[trigger] qs[k]) is CheckExists),
{
    assert forall|k: int| 0 <= k < qs.len() implies !((#[trigger] qs[k]) is CheckExists) by {
        lemma_chain_forced(states, resps, qs, k);
        lemma_chain_setup(states, resps, qs, k);
        assert(states[k].is_force());
        assert(step_rel(states[k], resps[k], states[k + 1], qs[k]));
    }
}

/// The induction behind the forced-run law: an all-firing stack stays so
/// along the chain of a forced engine.
proof fn lemma_chain_forced(states: Seq<Engine>, resps: Seq<Resp>, qs: Seq<Query>, k: int)
    requires
        run_chain(states, resps, qs),
        0 <= k <= qs.len(),
        states[0].is_force(),
        states[0].forced_stack(),
    ensures
        states[k].forced_stack(),
    decreases k,
{
    if k > 0 {
        lemma_chain_forced(states, resps, qs, k - 1);
        lemma_chain_setup(states, resps, qs, k - 1);
        assert(states[k - 1].is_force());
        assert(step_rel(states[k - 1], resps[k - 1], states[k], qs[k - 1]));
    }
}

/// The graph-dependent parts of the invariant carry over to any state with
/// the same rules, graph and index.
proof fn lemma_wf_stable(a: Engine, b: Engine)
    requires
        a.rules@ == b.rules@,
        a.paths() == b.paths(),
        a.edges_map() == b.edges_map(),
        a.index == b.index,
        a.rules_wf(),
        a.index_wf(),
        a.edges_wf(),
    ensures
        b.rules_wf(),
        b.index_wf(),
        b.edges_wf(),
{
    assert(b.paths() == a.paths());
    assert(b.edges_map() == a.edges_map());
    assert(b.rule_views() == a.rule_views());
    assert forall|i: int| 0 <= i < b.rules@.len() implies (#[trigger] b.rules@[i]).wf() by {
        assert(a.rules@[i].wf());
    }
    assert forall|i: int| 0 <= i < b.paths().len() implies {
        &&& index_map(b.index).contains_key(#[trigger] b.paths()[i])
        &&& index_map(b.index)[b.paths()[i]] == i
    } by {
        assert(index_map(a.index).contains_key(a.paths()[i]));
    }
    assert forall|p: Seq<char>| #[trigger] index_map(b.index).contains_key(p) implies {
        &&& 0 <= index_map(b.index)[p] < b.paths().len()
        &&& b.paths()[index_map(b.index)[p]] == p
    } by {
        assert(index_map(a.index).contains_key(p));
    }
    assert forall|e: (int, int)| #[trigger] b.edges_map().contains_key(e) implies {
        &&& 0 <= e.0 < b.paths().len()
        &&& 0 <= e.1 < b.paths().len()
        &&& 0 <= b.edges_map()[e] < b.rule_views().len()
        &&& spec_does_match(b.rule_views()[b.edges_map()[e]], b.paths()[e.0])
        &&& b.paths()[e.1] == spec_apply(b.rule_views()[b.edges_map()[e]], b.paths()[e.0])
        &&& !suppressed(b.rule_views(), b.paths()[e.0], b.paths()[e.1])
    } by {
        assert(a.edges_map().contains_key(e));
    }
}

/// Saved-hash coverage of the sources only reads the graph and the saved
/// snapshot, so it carries over to any state agreeing on those.
proof fn lemma_covers_stable(a: Engine, b: Engine)
    requires
        a.saved_covers_sources(),
        a.edges_map() == b.edges_map(),
        a.paths() == b.paths(),
        a.saved_map() == b.saved_map(),
    ensures
        b.saved_covers_sources(),
{
    assert forall|e: (int, int)| #[trigger] b.edges_map().contains_key(e) implies b.spec_saved_for(
        b.paths()[e.0],
    ) is Some by {
        assert(a.edges_map().contains_key(e));
        assert(a.spec_saved_for(a.paths()[e.0]) is Some);
    }
}

/// A frame that is well formed for one engine state is well formed for any
/// state with the same nodes and edges.
proof fn lemma_frame_wf_stable(a: Engine, b: Engine, f: Frame)
    requires
        a.paths() == b.paths(),
        a.edges_map() == b.edges_map(),
        a.frame_wf(f),
    ensures
        b.frame_wf(f),
{
    match f {
        Frame::Visit { .. } => {},
        Frame::AwaitHash(c) => lemma_ctx_wf_stable(a, b, c),
        Frame::Scan(c) => lemma_ctx_wf_stable(a, b, c),
        Frame::AwaitRun(c) => lemma_ctx_wf_stable(a, b, c),
        Frame::AwaitStoreHash(c) => lemma_ctx_wf_stable(a, b, c),
        Frame::AwaitExists(c) => lemma_ctx_wf_stable(a, b, c),
    }
}

/// An edge context that is well formed for one engine state is well formed
/// for any state with the same nodes and edges.
proof fn lemma_ctx_wf_stable(a: Engine, b: Engine, c: EdgeCtx)
    requires
        a.paths() == b.paths(),
        a.edges_map() == b.edges_map(),
        a.ctx_wf(c),
    ensures
        b.ctx_wf(c),
{
    assert forall|i: int| 0 <= i < c.edges@.len() implies {
        &&& b.edges_map().contains_key((c.n as int, #[trigger] c.edges@[i].0 as int))
        &&& b.edges_map()[(c.n as int, c.edges@[i].0 as int)] == c.edges@[i].1 as int
    } by {
        assert(a.edges_map().contains_key((c.n as int, c.edges@[i].0 as int)));
    }
}

} // verus!
