//! The tree-matching engine: a compiled pattern walks a parsed document and
//! selects the line indices to retain. Ancestors of every selected line are
//! retained too, each with its own closing line, so that a rendered slice is
//! always a syntactically closed hierarchy.
use crate::dialect::{parents_ok, LineKind, LineModel, ParsedConfig};
use crate::pattern::{regex_accepts, MatchTarget, Pattern, PatternSegment, SegModel};
use vstd::prelude::*;

verus! {

/// Which line kinds a match target accepts: `Command` covers commands and
/// closing lines, `Comment` only comments.
pub open spec fn target_matches(t: MatchTarget, k: LineKind) -> bool {
    match t {
        MatchTarget::Command => k == LineKind::Command || k == LineKind::Closing,
        MatchTarget::Comment => k == LineKind::Comment,
    }
}

impl MatchTarget {
    /// Whether a line of kind `kind` can satisfy this target.
    pub fn matches(self, kind: LineKind) -> (r: bool)
        ensures
            r == target_matches(self, kind),
    {
        match (self, kind) {
            (MatchTarget::Command, LineKind::Command) => true,
            (MatchTarget::Command, LineKind::Closing) => true,
            (MatchTarget::Comment, LineKind::Comment) => true,
            _ => false,
        }
    }
}

/// `x` is a closing-line child of `p`.
pub open spec fn is_closing_kid(m: Seq<LineModel>, p: int, x: int) -> bool {
    0 <= x < m.len() && m[x].parent == Some(p) && m[x].kind == LineKind::Closing
}

/// `x` is a proper ancestor of `i`, or a closing-line child of one.
pub open spec fn anc_cl_p(m: Seq<LineModel>, i: int, x: int) -> bool
    decreases i,
{
    if !(0 <= i < m.len()) {
        false
    } else {
        match m[i].parent {
            None => false,
            Some(p) => if 0 <= p < i {
                x == p || is_closing_kid(m, p, x) || anc_cl_p(m, p, x)
            } else {
                false
            },
        }
    }
}

/// `x` lies in the subtree rooted at `i` (including `i` itself).
pub open spec fn in_subtree(m: Seq<LineModel>, x: int, i: int) -> bool
    decreases x,
{
    if !(0 <= x < m.len()) {
        false
    } else if x == i {
        true
    } else {
        match m[x].parent {
            Some(p) => 0 <= p < x && in_subtree(m, p, i),
            None => false,
        }
    }
}

/// Whether line `i` satisfies a match segment: the target accepts its kind,
/// it has match text, and the fragment's regex accepts that text.
pub open spec fn seg_match(m: Seq<LineModel>, i: int, g: SegModel) -> bool {
    match g {
        SegModel::M { fragment, target } => target_matches(target, m[i].kind) && (
        m[i].mtext matches Some(t) && regex_accepts(fragment, t)),
        SegModel::D => false,
    }
}

/// The selection relation of the walk: `x` is selected by starting segment
/// `k` at line `i`. A descend-all segment selects the whole subtree plus the
/// closing ancestry and is terminal; a last match segment selects the line,
/// its closing children and its closing ancestry; an inner match segment
/// steps to the node itself (before a descend-all) or to its direct children.
pub open spec fn walk_sel(m: Seq<LineModel>, gs: Seq<SegModel>, i: int, k: int, x: int) -> bool
    decreases m.len() - i, gs.len() - k,
{
    if !(0 <= i < m.len()) || !(0 <= k < gs.len()) {
        false
    } else {
        match gs[k] {
            SegModel::D => anc_cl_p(m, i, x) || in_subtree(m, x, i),
            SegModel::M { .. } => seg_match(m, i, gs[k]) && (if k + 1 == gs.len() {
                anc_cl_p(m, i, x) || x == i || is_closing_kid(m, i, x)
            } else if gs[k + 1] is D {
                walk_sel(m, gs, i, k + 1, x)
            } else {
                exists|c: int|
                    i < c < m.len() && m[c].parent == Some(i) && walk_sel(m, gs, c, k + 1, x)
            }),
        }
    }
}

/// The match flag of the walk: whether segment `k` starting at line `i`
/// reaches a full match.
pub open spec fn walk_hit(m: Seq<LineModel>, gs: Seq<SegModel>, i: int, k: int) -> bool
    decreases m.len() - i, gs.len() - k,
{
    if !(0 <= i < m.len()) || !(0 <= k < gs.len()) {
        false
    } else {
        match gs[k] {
            SegModel::D => true,
            SegModel::M { .. } => seg_match(m, i, gs[k]) && (if k + 1 == gs.len() {
                true
            } else if gs[k + 1] is D {
                walk_hit(m, gs, i, k + 1)
            } else {
                exists|c: int| i < c < m.len() && m[c].parent == Some(i) && walk_hit(m, gs, c, k + 1)
            }),
        }
    }
}

/// `x` is selected by a walk from some root line before `n`.
pub open spec fn roots_sel_upto(m: Seq<LineModel>, gs: Seq<SegModel>, n: int, x: int) -> bool {
    exists|r: int| 0 <= r < n && (#[trigger] m[r].parent) is None && walk_sel(m, gs, r, 0, x)
}

/// Some root line before `n` reaches a full match.
pub open spec fn roots_hit_upto(m: Seq<LineModel>, gs: Seq<SegModel>, n: int) -> bool {
    exists|r: int| 0 <= r < n && (#[trigger] m[r].parent) is None && walk_hit(m, gs, r, 0)
}

/// `x` is selected by a pattern applied to the whole document: some root's
/// walk selects it.
pub open spec fn pattern_sel(m: Seq<LineModel>, gs: Seq<SegModel>, x: int) -> bool {
    roots_sel_upto(m, gs, m.len() as int, x)
}

/// A pattern matches somewhere in the document.
pub open spec fn pattern_hit(m: Seq<LineModel>, gs: Seq<SegModel>) -> bool {
    roots_hit_upto(m, gs, m.len() as int)
}

pub proof fn lemma_roots_sel_step(m: Seq<LineModel>, gs: Seq<SegModel>, n: int, x: int)
    requires
        0 <= n,
    ensures
        roots_sel_upto(m, gs, n + 1, x) == (roots_sel_upto(m, gs, n, x) || (m[n].parent is None
            && walk_sel(m, gs, n, 0, x))),
{
    if roots_sel_upto(m, gs, n + 1, x) {
        let r = choose|r: int|
            0 <= r < n + 1 && (#[trigger] m[r].parent) is None && walk_sel(m, gs, r, 0, x);
        if r < n {
            assert(roots_sel_upto(m, gs, n, x));
        }
    }
    if roots_sel_upto(m, gs, n, x) {
        let r = choose|r: int|
            0 <= r < n && (#[trigger] m[r].parent) is None && walk_sel(m, gs, r, 0, x);
        assert(0 <= r < n + 1 && m[r].parent is None && walk_sel(m, gs, r, 0, x));
    }
    if m[n].parent is None && walk_sel(m, gs, n, 0, x) {
        assert(0 <= n < n + 1 && m[n].parent is None && walk_sel(m, gs, n, 0, x));
    }
}

pub proof fn lemma_roots_hit_step(m: Seq<LineModel>, gs: Seq<SegModel>, n: int)
    requires
        0 <= n,
    ensures
        roots_hit_upto(m, gs, n + 1) == (roots_hit_upto(m, gs, n) || (m[n].parent is None
            && walk_hit(m, gs, n, 0))),
{
    if roots_hit_upto(m, gs, n + 1) {
        let r = choose|r: int|
            0 <= r < n + 1 && (#[trigger] m[r].parent) is None && walk_hit(m, gs, r, 0);
        if r < n {
            assert(roots_hit_upto(m, gs, n));
        }
    }
    if roots_hit_upto(m, gs, n) {
        let r = choose|r: int|
            0 <= r < n && (#[trigger] m[r].parent) is None && walk_hit(m, gs, r, 0);
        assert(0 <= r < n + 1 && m[r].parent is None && walk_hit(m, gs, r, 0));
    }
    if m[n].parent is None && walk_hit(m, gs, n, 0) {
        assert(0 <= n < n + 1 && m[n].parent is None && walk_hit(m, gs, n, 0));
    }
}

/// `x` is selected by a walk at segment `k` from one of the first `ci`
/// children in the list `kids`.
pub open spec fn kids_sel_upto(
    m: Seq<LineModel>,
    gs: Seq<SegModel>,
    kids: Seq<usize>,
    ci: int,
    k: int,
    x: int,
) -> bool {
    exists|q: int| 0 <= q < ci && walk_sel(m, gs, (#[trigger] kids[q]) as int, k, x)
}

/// One of the first `ci` children in `kids` reaches a full match at `k`.
pub open spec fn kids_hit_upto(
    m: Seq<LineModel>,
    gs: Seq<SegModel>,
    kids: Seq<usize>,
    ci: int,
    k: int,
) -> bool {
    exists|q: int| 0 <= q < ci && walk_hit(m, gs, (#[trigger] kids[q]) as int, k)
}

pub proof fn lemma_kids_sel_step(
    m: Seq<LineModel>,
    gs: Seq<SegModel>,
    kids: Seq<usize>,
    ci: int,
    k: int,
    x: int,
)
    requires
        0 <= ci < kids.len(),
    ensures
        kids_sel_upto(m, gs, kids, ci + 1, k, x) == (kids_sel_upto(m, gs, kids, ci, k, x)
            || walk_sel(m, gs, kids[ci] as int, k, x)),
{
    if kids_sel_upto(m, gs, kids, ci + 1, k, x) {
        let q = choose|q: int| 0 <= q < ci + 1 && walk_sel(m, gs, (#[trigger] kids[q]) as int, k, x);
        if q < ci {
            assert(kids_sel_upto(m, gs, kids, ci, k, x));
        }
    }
    if kids_sel_upto(m, gs, kids, ci, k, x) {
        let q = choose|q: int| 0 <= q < ci && walk_sel(m, gs, (#[trigger] kids[q]) as int, k, x);
        assert(0 <= q < ci + 1 && walk_sel(m, gs, kids[q] as int, k, x));
    }
    if walk_sel(m, gs, kids[ci] as int, k, x) {
        assert(0 <= ci < ci + 1 && walk_sel(m, gs, kids[ci] as int, k, x));
    }
}

pub proof fn lemma_kids_hit_step(
    m: Seq<LineModel>,
    gs: Seq<SegModel>,
    kids: Seq<usize>,
    ci: int,
    k: int,
)
    requires
        0 <= ci < kids.len(),
    ensures
        kids_hit_upto(m, gs, kids, ci + 1, k) == (kids_hit_upto(m, gs, kids, ci, k) || walk_hit(
            m,
            gs,
            kids[ci] as int,
            k,
        )),
{
    if kids_hit_upto(m, gs, kids, ci + 1, k) {
        let q = choose|q: int| 0 <= q < ci + 1 && walk_hit(m, gs, (#[trigger] kids[q]) as int, k);
        if q < ci {
            assert(kids_hit_upto(m, gs, kids, ci, k));
        }
    }
    if kids_hit_upto(m, gs, kids, ci, k) {
        let q = choose|q: int| 0 <= q < ci && walk_hit(m, gs, (#[trigger] kids[q]) as int, k);
        assert(0 <= q < ci + 1 && walk_hit(m, gs, kids[q] as int, k));
    }
    if walk_hit(m, gs, kids[ci] as int, k) {
        assert(0 <= ci < ci + 1 && walk_hit(m, gs, kids[ci] as int, k));
    }
}

/// Over the full child list, child selection is selection through some child
/// of the node.
pub proof fn lemma_kids_sel_full(
    config: &ParsedConfig,
    gs: Seq<SegModel>,
    node: usize,
    k: int,
    x: int,
)
    requires
        config.wf(),
        node < config.lines@.len(),
    ensures
        kids_sel_upto(
            config.model(),
            gs,
            config.child_seq(node as int),
            config.child_seq(node as int).len() as int,
            k,
            x,
        ) == (exists|c: int|
            (node as int) < c < config.model().len() && config.model()[c].parent == Some(
                node as int,
            ) && walk_sel(config.model(), gs, c, k, x)),
{
    let m = config.model();
    let kids = config.child_seq(node as int);
    if kids_sel_upto(m, gs, kids, kids.len() as int, k, x) {
        let q = choose|q: int|
            0 <= q < kids.len() && walk_sel(m, gs, (#[trigger] kids[q]) as int, k, x);
        let c = kids[q] as int;
        assert(m[c].parent == Some(node as int));
        assert((node as int) < c < m.len() && m[c].parent == Some(node as int) && walk_sel(
            m,
            gs,
            c,
            k,
            x,
        ));
    }
    if exists|c: int|
        (node as int) < c < m.len() && m[c].parent == Some(node as int) && walk_sel(
            m,
            gs,
            c,
            k,
            x,
        ) {
        let c = choose|c: int|
            (node as int) < c < m.len() && m[c].parent == Some(node as int) && walk_sel(
                m,
                gs,
                c,
                k,
                x,
            );
        vstd::std_specs::vec::axiom_spec_len(&config.lines);
        crate::dialect::lemma_children_inverse(config, node, c as usize);
        assert(kids.contains(c as usize));
        let q = choose|q: int| 0 <= q < kids.len() && kids[q] == c as usize;
        assert(walk_sel(m, gs, (kids[q]) as int, k, x));
        assert(kids_sel_upto(m, gs, kids, kids.len() as int, k, x));
    }
}

/// Over the full child list, a child match is a match through some child of
/// the node.
pub proof fn lemma_kids_hit_full(config: &ParsedConfig, gs: Seq<SegModel>, node: usize, k: int)
    requires
        config.wf(),
        node < config.lines@.len(),
    ensures
        kids_hit_upto(
            config.model(),
            gs,
            config.child_seq(node as int),
            config.child_seq(node as int).len() as int,
            k,
        ) == (exists|c: int|
            (node as int) < c < config.model().len() && config.model()[c].parent == Some(
                node as int,
            ) && walk_hit(config.model(), gs, c, k)),
{
    let m = config.model();
    let kids = config.child_seq(node as int);
    if kids_hit_upto(m, gs, kids, kids.len() as int, k) {
        let q = choose|q: int|
            0 <= q < kids.len() && walk_hit(m, gs, (#[trigger] kids[q]) as int, k);
        let c = kids[q] as int;
        assert(m[c].parent == Some(node as int));
        assert((node as int) < c < m.len() && m[c].parent == Some(node as int) && walk_hit(
            m,
            gs,
            c,
            k,
        ));
    }
    if exists|c: int|
        (node as int) < c < m.len() && m[c].parent == Some(node as int) && walk_hit(m, gs, c, k) {
        let c = choose|c: int|
            (node as int) < c < m.len() && m[c].parent == Some(node as int) && walk_hit(m, gs, c, k);
        vstd::std_specs::vec::axiom_spec_len(&config.lines);
        crate::dialect::lemma_children_inverse(config, node, c as usize);
        assert(kids.contains(c as usize));
        let q = choose|q: int| 0 <= q < kids.len() && kids[q] == c as usize;
        assert(walk_hit(m, gs, (kids[q]) as int, k));
        assert(kids_hit_upto(m, gs, kids, kids.len() as int, k));
    }
}

/// Per-(pattern, document) scratch state: the match flag and the retained
/// index set, held as a bitmap in document order.
pub struct MatchAccumulator {
    pub matched: bool,
    pub indices: Vec<bool>,
}

impl MatchAccumulator {
    /// Whether index `x` has been retained.
    pub open spec fn sel(&self, x: int) -> bool {
        0 <= x < self.indices@.len() && self.indices@[x]
    }

    /// A fresh accumulator for a document: nothing retained, no match.
    pub fn new(config: &ParsedConfig) -> (a: MatchAccumulator)
        ensures
            a.indices@.len() == config.lines@.len(),
            forall|x: int| !a.sel(x),
            !a.matched,
    {
        let n = config.lines.len();
        let indices = vec![false; n];
        MatchAccumulator { matched: false, indices }
    }

    /// Retain one index.
    fn insert(&mut self, x: usize)
        requires
            x < old(self).indices@.len(),
        ensures
            final(self).indices@.len() == old(self).indices@.len(),
            final(self).matched == old(self).matched,
            forall|y: int| final(self).sel(y) == (old(self).sel(y) || y == x),
    {
        self.indices[x] = true;
    }

    /// Retain every closing-line child of `idx`.
    pub fn add_node_closing(&mut self, config: &ParsedConfig, idx: usize)
        requires
            config.wf(),
            old(self).indices@.len() == config.lines@.len(),
            idx < config.lines@.len(),
        ensures
            final(self).indices@.len() == old(self).indices@.len(),
            final(self).matched == old(self).matched,
            forall|y: int|
                final(self).sel(y) == (old(self).sel(y) || is_closing_kid(
                    config.model(),
                    idx as int,
                    y,
                )),
    {
        let ghost m = config.model();
        let kids: &Vec<usize> = &config.children[idx];
        let mut ci: usize = 0;
        while ci < kids.len()
            invariant
                config.wf(),
                m == config.model(),
                kids == config.children@[idx as int],
                idx < config.lines@.len(),
                self.indices@.len() == config.lines@.len(),
                self.matched == old(self).matched,
                ci <= kids@.len(),
                forall|y: int|
                    self.sel(y) == (old(self).sel(y) || exists|q: int|
                        0 <= q < ci && (#[trigger] kids@[q]) as int == y && m[y].kind
                            == LineKind::Closing),
            decreases kids@.len() - ci,
        {
            let c = kids[ci];
            proof {
                assert(config.child_seq(idx as int)[ci as int] == c);
                assert(m[c as int].parent == Some(idx as int));
            }
            if matches!(config.lines[c].kind, LineKind::Closing) {
                self.insert(c);
            }
            ci = ci + 1;
        }
        proof {
            vstd::std_specs::vec::axiom_spec_len(&config.lines);
            assert forall|y: int|
                self.sel(y) == (old(self).sel(y) || is_closing_kid(m, idx as int, y)) by {
                if is_closing_kid(m, idx as int, y) {
                    assert(0 <= y < config.lines@.len());
                    assert((y as usize) as int == y);
                    crate::dialect::lemma_children_inverse(config, idx, y as usize);
                    let q = choose|q: int|
                        0 <= q < kids@.len() && kids@[q] == y as usize;
                    assert(kids@[q] as int == y && m[y].kind == LineKind::Closing);
                }
                if self.sel(y) && !old(self).sel(y) {
                    let q = choose|q: int|
                        0 <= q < kids@.len() && (#[trigger] kids@[q]) as int == y && m[y].kind
                            == LineKind::Closing;
                    assert(config.child_seq(idx as int)[q] == kids@[q]);
                    assert(m[kids@[q] as int].parent == Some(idx as int));
                    assert(m[y].parent == Some(idx as int));
                }
            }
        }
    }

    /// Retain every ancestor of `idx`, each together with its own closing
    /// children.
    pub fn add_ancestors(&mut self, config: &ParsedConfig, idx: usize)
        requires
            config.wf(),
            old(self).indices@.len() == config.lines@.len(),
            idx < config.lines@.len(),
        ensures
            final(self).indices@.len() == old(self).indices@.len(),
            final(self).matched == old(self).matched,
            forall|y: int|
                final(self).sel(y) == (old(self).sel(y) || anc_cl_p(
                    config.model(),
                    idx as int,
                    y,
                )),
    {
        let ghost m = config.model();
        let mut cur: usize = idx;
        let mut has_parent = config.lines[cur].parent.is_some();
        while has_parent
            invariant
                has_parent == (m[cur as int].parent is Some),
                config.wf(),
                m == config.model(),
                idx < config.lines@.len(),
                cur < config.lines@.len(),
                self.indices@.len() == config.lines@.len(),
                self.matched == old(self).matched,
                forall|y: int|
                    (old(self).sel(y) || anc_cl_p(m, idx as int, y)) == (self.sel(y) || anc_cl_p(
                        m,
                        cur as int,
                        y,
                    )),
            decreases cur,
        {
            let p = match config.lines[cur].parent {
                Some(p) => p,
                None => 0,
            };
            proof {
                assert(m[cur as int].parent == Some(p as int));
                assert(0 <= (p as int) < cur as int);
            }
            let ghost before = *self;
            self.insert(p);
            self.add_node_closing(config, p);
            proof {
                assert forall|y: int|
                    (before.sel(y) || anc_cl_p(m, cur as int, y)) == (self.sel(y) || anc_cl_p(
                        m,
                        p as int,
                        y,
                    )) by {
                    assert(anc_cl_p(m, cur as int, y) == (y == p as int || is_closing_kid(
                        m,
                        p as int,
                        y,
                    ) || anc_cl_p(m, p as int, y)));
                }
            }
            cur = p;
            has_parent = config.lines[cur].parent.is_some();
        }
        proof {
            assert(m[cur as int].parent is None);
            assert(forall|y: int| !anc_cl_p(m, cur as int, y));
        }
    }

    /// Retain the whole subtree rooted at `idx`.
    pub fn add_subtree(&mut self, config: &ParsedConfig, idx: usize)
        requires
            config.wf(),
            old(self).indices@.len() == config.lines@.len(),
            idx < config.lines@.len(),
        ensures
            final(self).indices@.len() == old(self).indices@.len(),
            final(self).matched == old(self).matched,
            forall|y: int|
                final(self).sel(y) == (old(self).sel(y) || in_subtree(
                    config.model(),
                    y,
                    idx as int,
                )),
    {
        let ghost m = config.model();
        let n = config.lines.len();
        let mut desc: Vec<bool> = vec![false; n];
        desc[idx] = true;
        self.insert(idx);
        proof {
            assert(in_subtree(m, idx as int, idx as int));
            assert forall|y: int| 0 <= y < idx as int implies !in_subtree(m, y, idx as int) by {
                if in_subtree(m, y, idx as int) {
                    lemma_in_subtree_ge(m, y, idx as int);
                }
            }
        }
        let mut j: usize = idx + 1;
        while j < n
            invariant
                config.wf(),
                m == config.model(),
                idx < n == config.lines@.len(),
                idx < j <= n,
                desc@.len() == n,
                self.indices@.len() == n,
                self.matched == old(self).matched,
                forall|y: int| 0 <= y < j ==> desc@[y] == in_subtree(m, y, idx as int),
                forall|y: int| j <= y < n ==> !desc@[y],
                forall|y: int|
                    self.sel(y) == (old(self).sel(y) || (y < j && in_subtree(m, y, idx as int))),
            decreases n - j,
        {
            let dj = match config.lines[j].parent {
                Some(p) => if p >= idx {
                    desc[p]
                } else {
                    false
                },
                None => false,
            };
            proof {
                if dj {
                    assert(in_subtree(m, j as int, idx as int));
                } else {
                    if in_subtree(m, j as int, idx as int) {
                        assert(m[j as int].parent matches Some(p) && 0 <= p < j && in_subtree(
                            m,
                            p as int,
                            idx as int,
                        ));
                        assert(in_subtree(m, m[j as int].parent->0, idx as int)
                            ==> m[j as int].parent->0 >= idx) by {
                            lemma_in_subtree_ge(m, m[j as int].parent->0, idx as int);
                        }
                        assert(false);
                    }
                }
            }
            desc[j] = dj;
            if dj {
                self.insert(j);
            }
            j = j + 1;
        }
        proof {
            assert forall|y: int|
                self.sel(y) == (old(self).sel(y) || in_subtree(m, y, idx as int)) by {
                if in_subtree(m, y, idx as int) {
                    assert(0 <= y < m.len());
                }
            }
        }
    }

    /// Record a terminal descend-all at `idx`: its closing ancestry and its
    /// whole subtree.
    pub fn record_full(&mut self, config: &ParsedConfig, idx: usize)
        requires
            config.wf(),
            old(self).indices@.len() == config.lines@.len(),
            idx < config.lines@.len(),
        ensures
            final(self).indices@.len() == old(self).indices@.len(),
            final(self).matched,
            forall|y: int|
                final(self).sel(y) == (old(self).sel(y) || anc_cl_p(config.model(), idx as int, y)
                    || in_subtree(config.model(), y, idx as int)),
    {
        self.add_ancestors(config, idx);
        self.add_subtree(config, idx);
        self.matched = true;
    }

    /// Record a final match at `idx`: the line itself, its closing children
    /// and its closing ancestry.
    pub fn record_match(&mut self, config: &ParsedConfig, idx: usize)
        requires
            config.wf(),
            old(self).indices@.len() == config.lines@.len(),
            idx < config.lines@.len(),
        ensures
            final(self).indices@.len() == old(self).indices@.len(),
            final(self).matched,
            forall|y: int|
                final(self).sel(y) == (old(self).sel(y) || anc_cl_p(config.model(), idx as int, y)
                    || y == idx as int || is_closing_kid(config.model(), idx as int, y)),
    {
        self.add_ancestors(config, idx);
        self.insert(idx);
        self.add_node_closing(config, idx);
        self.matched = true;
    }
}

impl Pattern {
    /// One step of the walk: try segment `segment_idx` at line `node_idx`,
    /// adding exactly the indices that `walk_sel` selects there.
    pub fn walk(
        &self,
        config: &ParsedConfig,
        node_idx: usize,
        segment_idx: usize,
        accumulator: &mut MatchAccumulator,
    )
        requires
            config.wf(),
            self.wf(),
            old(accumulator).indices@.len() == config.lines@.len(),
            node_idx < config.lines@.len(),
        ensures
            final(accumulator).indices@.len() == old(accumulator).indices@.len(),
            final(accumulator).matched == (old(accumulator).matched || walk_hit(
                config.model(),
                self.model(),
                node_idx as int,
                segment_idx as int,
            )),
            forall|y: int|
                final(accumulator).sel(y) == (old(accumulator).sel(y) || walk_sel(
                    config.model(),
                    self.model(),
                    node_idx as int,
                    segment_idx as int,
                    y,
                )),
        decreases config.lines@.len() - node_idx, self.segments@.len() - segment_idx,
    {
        let ghost m = config.model();
        let ghost gs = self.model();
        if segment_idx >= self.segments.len() {
            return ;
        }
        let ghost k = segment_idx as int;
        match &self.segments[segment_idx] {
            PatternSegment::DescendAll => {
                proof {
                    assert(gs[k] is D);
                }
                accumulator.record_full(config, node_idx);
            },
            PatternSegment::Match { fragment, target } => {
                proof {
                    assert(gs[k] == (SegModel::M { fragment: fragment@, target: *target }));
                    assert(crate::pattern::seg_wf(gs[k]));
                }
                let line = &config.lines[node_idx];
                proof {
                    assert(line@ == m[node_idx as int]);
                }
                if !target.matches(line.kind) {
                    proof {
                        assert(!seg_match(m, node_idx as int, gs[k]));
                    }
                    return ;
                }
                let mt: &String = match &line.match_text {
                    Some(t) => t,
                    None => {
                        proof {
                            assert(!seg_match(m, node_idx as int, gs[k]));
                        }
                        return ;
                    },
                };
                let hit = crate::pattern::fragment_matches(fragment, mt);
                if !hit {
                    proof {
                        assert(m[node_idx as int].mtext == Some(mt@));
                        assert(!seg_match(m, node_idx as int, gs[k]));
                    }
                    return ;
                }
                proof {
                    assert(seg_match(m, node_idx as int, gs[k]));
                }
                if segment_idx + 1 == self.segments.len() {
                    accumulator.record_match(config, node_idx);
                } else if matches!(&self.segments[segment_idx + 1], PatternSegment::DescendAll) {
                    proof {
                        assert(gs[k + 1] is D);
                    }
                    self.walk(config, node_idx, segment_idx + 1, accumulator);
                } else {
                    proof {
                        assert(!(gs[k + 1] is D));
                    }
                    let ghost acc0 = *accumulator;
                    let kids: &Vec<usize> = &config.children[node_idx];
                    let ghost kq = config.child_seq(node_idx as int);
                    let mut ci: usize = 0;
                    while ci < kids.len()
                        invariant
                            config.wf(),
                            self.wf(),
                            m == config.model(),
                            gs == self.model(),
                            k == segment_idx as int,
                            kids == config.children@[node_idx as int],
                            kq == config.child_seq(node_idx as int),
                            node_idx < config.lines@.len(),
                            segment_idx + 1 < self.segments@.len(),
                            !(gs[k + 1] is D),
                            seg_match(m, node_idx as int, gs[k]),
                            accumulator.indices@.len() == config.lines@.len(),
                            ci <= kq.len(),
                            accumulator.matched == (acc0.matched || kids_hit_upto(
                                m,
                                gs,
                                kq,
                                ci as int,
                                k + 1,
                            )),
                            forall|y: int|
                                #[trigger] accumulator.sel(y) == (acc0.sel(y) || kids_sel_upto(
                                    m,
                                    gs,
                                    kq,
                                    ci as int,
                                    k + 1,
                                    y,
                                )),
                        decreases kq.len() - ci,
                    {
                        let c = kids[ci];
                        proof {
                            vstd::std_specs::vec::axiom_spec_len(&self.segments);
                            assert(kq[ci as int] == c);
                            assert(m[c as int].parent == Some(node_idx as int));
                            assert(parents_ok(m));
                            assert((node_idx as int) < c as int);
                        }
                        let ghost acc_before = *accumulator;
                        self.walk(config, c, segment_idx + 1, accumulator);
                        proof {
                            assert(accumulator.matched == (acc_before.matched || walk_hit(
                                m,
                                gs,
                                c as int,
                                k + 1,
                            )));
                            lemma_kids_hit_step(m, gs, kq, ci as int, k + 1);
                            assert forall|y: int|
                                #[trigger] accumulator.sel(y) == (acc0.sel(y) || kids_sel_upto(
                                    m,
                                    gs,
                                    kq,
                                    ci + 1,
                                    k + 1,
                                    y,
                                )) by {
                                lemma_kids_sel_step(m, gs, kq, ci as int, k + 1, y);
                                assert(acc_before.sel(y) == (acc0.sel(y) || kids_sel_upto(
                                    m,
                                    gs,
                                    kq,
                                    ci as int,
                                    k + 1,
                                    y,
                                )));
                                assert(accumulator.sel(y) == (acc_before.sel(y) || walk_sel(
                                    m,
                                    gs,
                                    c as int,
                                    k + 1,
                                    y,
                                )));
                            }
                        }
                        ci = ci + 1;
                    }
                    proof {
                        assert(ci as int == kq.len() as int);
                        lemma_kids_hit_full(config, gs, node_idx, k + 1);
                        assert(kids_hit_upto(m, gs, kq, kq.len() as int, k + 1) == (exists|c: int|
                            (node_idx as int) < c < m.len() && m[c].parent == Some(node_idx as int)
                                && walk_hit(m, gs, c, k + 1)));
                        assert(walk_hit(m, gs, node_idx as int, k) == (exists|c: int|
                            (node_idx as int) < c < m.len() && m[c].parent == Some(node_idx as int)
                                && walk_hit(m, gs, c, k + 1)));
                        assert(accumulator.matched == (acc0.matched || walk_hit(
                            m,
                            gs,
                            node_idx as int,
                            k,
                        )));
                        assert forall|y: int|
                            #[trigger] accumulator.sel(y) == (acc0.sel(y) || walk_sel(
                                m,
                                gs,
                                node_idx as int,
                                k,
                                y,
                            )) by {
                            lemma_kids_sel_full(config, gs, node_idx, k + 1, y);
                            assert(kids_sel_upto(m, gs, kq, kq.len() as int, k + 1, y) == (
                            exists|c: int|
                                (node_idx as int) < c < m.len() && m[c].parent == Some(
                                    node_idx as int,
                                ) && walk_sel(m, gs, c, k + 1, y)));
                            assert(walk_sel(m, gs, node_idx as int, k, y) == (exists|c: int|
                                (node_idx as int) < c < m.len() && m[c].parent == Some(
                                    node_idx as int,
                                ) && walk_sel(m, gs, c, k + 1, y)));
                            assert(accumulator.sel(y) == (acc0.sel(y) || kids_sel_upto(
                                m,
                                gs,
                                kq,
                                kq.len() as int,
                                k + 1,
                                y,
                            )));
                        }
                    }
                }
            },
        }
    }

    /// Apply the pattern to a whole document: every root starts a walk, and
    /// the results of all roots are unioned.
    pub fn apply(&self, config: &ParsedConfig, accumulator: &mut MatchAccumulator)
        requires
            config.wf(),
            self.wf(),
            old(accumulator).indices@.len() == config.lines@.len(),
        ensures
            final(accumulator).indices@.len() == old(accumulator).indices@.len(),
            final(accumulator).matched == (old(accumulator).matched || pattern_hit(
                config.model(),
                self.model(),
            )),
            forall|y: int|
                final(accumulator).sel(y) == (old(accumulator).sel(y) || pattern_sel(
                    config.model(),
                    self.model(),
                    y,
                )),
    {
        let ghost m = config.model();
        let ghost gs = self.model();
        let ghost acc0 = *accumulator;
        let n = config.lines.len();
        let mut i: usize = 0;
        while i < n
            invariant
                config.wf(),
                self.wf(),
                m == config.model(),
                gs == self.model(),
                n == config.lines@.len(),
                i <= n,
                accumulator.indices@.len() == config.lines@.len(),
                accumulator.matched == (acc0.matched || roots_hit_upto(m, gs, i as int)),
                forall|y: int|
                    #[trigger] accumulator.sel(y) == (acc0.sel(y) || roots_sel_upto(
                        m,
                        gs,
                        i as int,
                        y,
                    )),
            decreases n - i,
        {
            let is_root = config.lines[i].parent.is_none();
            proof {
                assert(m[i as int].parent == opt_int_of(config.lines@[i as int].parent));
                assert(is_root == (m[i as int].parent is None));
            }
            let ghost acc_before = *accumulator;
            if is_root {
                self.walk(config, i, 0, accumulator);
            }
            proof {
                lemma_roots_hit_step(m, gs, i as int);
                if !is_root {
                    assert(*accumulator == acc_before);
                }
                assert(accumulator.matched == (acc0.matched || roots_hit_upto(m, gs, i + 1)));
                assert forall|y: int|
                    #[trigger] accumulator.sel(y) == (acc0.sel(y) || roots_sel_upto(
                        m,
                        gs,
                        i + 1,
                        y,
                    )) by {
                    lemma_roots_sel_step(m, gs, i as int, y);
                    assert(acc_before.sel(y) == (acc0.sel(y) || roots_sel_upto(
                        m,
                        gs,
                        i as int,
                        y,
                    )));
                    if is_root {
                        assert(accumulator.sel(y) == (acc_before.sel(y) || walk_sel(
                            m,
                            gs,
                            i as int,
                            0,
                            y,
                        )));
                    } else {
                        assert(!(m[i as int].parent is None));
                    }
                }
            }
            i = i + 1;
        }
    }
}

/// The parent of a line, as the model sees it.
pub open spec fn opt_int_of(o: Option<usize>) -> Option<int> {
    match o {
        Some(p) => Some(p as int),
        None => None,
    }
}

/// The closing ancestry is itself closed: with each of its members stand the
/// member's parent and the parent's closing lines.
pub proof fn lemma_anc_cl_closed(m: Seq<LineModel>, i: int, x: int)
    requires
        parents_ok(m),
        anc_cl_p(m, i, x),
        0 <= x < m.len(),
        m[x].parent is Some,
    ensures
        anc_cl_p(m, i, m[x].parent->0),
        forall|c: int| is_closing_kid(m, m[x].parent->0, c) ==> anc_cl_p(m, i, c),
    decreases i,
{
    let p1 = m[i].parent->0;
    if x == p1 {
        let p = m[x].parent->0;
        assert(anc_cl_p(m, p1, p));
        assert forall|c: int| is_closing_kid(m, p, c) implies anc_cl_p(m, i, c) by {
            assert(anc_cl_p(m, p1, c));
        }
    } else if is_closing_kid(m, p1, x) {
        assert(m[x].parent->0 == p1);
        assert(anc_cl_p(m, i, p1));
        assert forall|c: int| is_closing_kid(m, p1, c) implies anc_cl_p(m, i, c) by {
        }
    } else {
        lemma_anc_cl_closed(m, p1, x);
        let p = m[x].parent->0;
        assert(anc_cl_p(m, i, p));
        assert forall|c: int| is_closing_kid(m, p, c) implies anc_cl_p(m, i, c) by {
            assert(anc_cl_p(m, p1, c));
        }
    }
}

/// At walk level, everything a walk selects is parent-closed,
/// with each retained parent's closing lines retained too.
pub proof fn lemma_walk_sel_closed(m: Seq<LineModel>, gs: Seq<SegModel>, i: int, k: int, x: int)
    requires
        parents_ok(m),
        walk_sel(m, gs, i, k, x),
        0 <= x < m.len(),
        m[x].parent is Some,
    ensures
        walk_sel(m, gs, i, k, m[x].parent->0),
        forall|c: int| is_closing_kid(m, m[x].parent->0, c) ==> walk_sel(m, gs, i, k, c),
    decreases m.len() - i, gs.len() - k,
{
    let p = m[x].parent->0;
    match gs[k] {
        SegModel::D => {
            if in_subtree(m, x, i) {
                if x == i {
                    assert(anc_cl_p(m, i, p));
                    assert forall|c: int| is_closing_kid(m, p, c) implies walk_sel(
                        m,
                        gs,
                        i,
                        k,
                        c,
                    ) by {
                        assert(anc_cl_p(m, i, c));
                    }
                } else {
                    assert(in_subtree(m, p, i));
                    assert forall|c: int| is_closing_kid(m, p, c) implies walk_sel(
                        m,
                        gs,
                        i,
                        k,
                        c,
                    ) by {
                        if c != i {
                            assert(0 <= m[c].parent->0 < c);
                            assert(in_subtree(m, c, i));
                        }
                    }
                }
            } else {
                lemma_anc_cl_closed(m, i, x);
                assert(anc_cl_p(m, i, p));
                assert forall|c: int| is_closing_kid(m, p, c) implies walk_sel(m, gs, i, k, c) by {
                    assert(anc_cl_p(m, i, c));
                }
            }
        },
        SegModel::M { .. } => {
            if k + 1 == gs.len() {
                if x == i {
                    assert(anc_cl_p(m, i, p));
                    assert forall|c: int| is_closing_kid(m, p, c) implies walk_sel(
                        m,
                        gs,
                        i,
                        k,
                        c,
                    ) by {
                        assert(anc_cl_p(m, i, c));
                    }
                } else if is_closing_kid(m, i, x) {
                    assert(p == i);
                    assert(walk_sel(m, gs, i, k, i));
                    assert forall|c: int| is_closing_kid(m, p, c) implies walk_sel(
                        m,
                        gs,
                        i,
                        k,
                        c,
                    ) by {
                    }
                } else {
                    lemma_anc_cl_closed(m, i, x);
                    assert(anc_cl_p(m, i, p));
                    assert forall|c: int| is_closing_kid(m, p, c) implies walk_sel(
                        m,
                        gs,
                        i,
                        k,
                        c,
                    ) by {
                        assert(anc_cl_p(m, i, c));
                    }
                }
            } else if gs[k + 1] is D {
                lemma_walk_sel_closed(m, gs, i, k + 1, x);
                assert(walk_sel(m, gs, i, k + 1, p));
                assert forall|c: int| is_closing_kid(m, p, c) implies walk_sel(m, gs, i, k, c) by {
                    assert(walk_sel(m, gs, i, k + 1, c));
                }
            } else {
                let c0 = choose|c: int|
                    i < c < m.len() && m[c].parent == Some(i) && walk_sel(m, gs, c, k + 1, x);
                lemma_walk_sel_closed(m, gs, c0, k + 1, x);
                assert(i < c0 < m.len() && m[c0].parent == Some(i) && walk_sel(m, gs, c0, k + 1, p));
                assert(walk_sel(m, gs, i, k, p));
                assert forall|c: int| is_closing_kid(m, p, c) implies walk_sel(m, gs, i, k, c) by {
                    assert(i < c0 < m.len() && m[c0].parent == Some(i) && walk_sel(
                        m,
                        gs,
                        c0,
                        k + 1,
                        c,
                    ));
                }
            }
        },
    }
}

/// The closed-hierarchy law. Every ancestor of a
/// retained line is also retained, together with that ancestor's own closing
/// lines, so a rendered slice is a syntactically closed hierarchy.
pub proof fn lemma_selection_closed(m: Seq<LineModel>, gs: Seq<SegModel>, x: int)
    requires
        parents_ok(m),
        pattern_sel(m, gs, x),
        0 <= x < m.len(),
        m[x].parent is Some,
    ensures
        pattern_sel(m, gs, m[x].parent->0),
        forall|c: int| is_closing_kid(m, m[x].parent->0, c) ==> pattern_sel(m, gs, c),
{
    let p = m[x].parent->0;
    let r = choose|r: int|
        0 <= r < m.len() && (#[trigger] m[r].parent) is None && walk_sel(m, gs, r, 0, x);
    lemma_walk_sel_closed(m, gs, r, 0, x);
    assert(pattern_sel(m, gs, p));
    assert forall|c: int| is_closing_kid(m, p, c) implies pattern_sel(m, gs, c) by {
        assert(walk_sel(m, gs, r, 0, c));
    }
}

/// Inside a subtree everything is at or after the root.
pub proof fn lemma_in_subtree_ge(m: Seq<LineModel>, x: int, i: int)
    requires
        in_subtree(m, x, i),
    ensures
        x >= i,
    decreases x,
{
    if 0 <= x < m.len() && x != i {
        lemma_in_subtree_ge(m, m[x].parent->0, i);
    }
}

} // verus!
