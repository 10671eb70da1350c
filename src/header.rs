//! Include trees of a library's headers, rebuilt from the compiler's include
//! trace (`-H`), and what a consumer of the library has to include.
use vstd::prelude::*;

use crate::text::{
    find_char, has_prefix, has_suffix, lines_of, replace_all, replace_str,
    split_lines, starts_with, ends_with, trim_str, trimmed,
};

verus! {

/// One entry of a tree in preorder: its depth below the root and its name.
pub type Entry = (nat, Seq<char>);

/// A preorder entry sequence is a tree: a single root at depth 0, and every
/// later entry one level below some earlier entry on the current path.
pub open spec fn wf_tree(t: Seq<Entry>) -> bool {
    &&& t.len() >= 1
    &&& t[0].0 == 0
    &&& forall|k: int| 1 <= k < t.len() ==> 1 <= #[trigger] t[k].0 <= t[k - 1].0 + 1
}

/// The last entry before `j` at depth `d`, or -1.
pub open spec fn last_at_depth(t: Seq<Entry>, j: int, d: nat) -> int
    decreases j,
{
    if j <= 0 {
        -1
    } else if t[j - 1].0 == d {
        j - 1
    } else {
        last_at_depth(t, j - 1, d)
    }
}

/// The entry that directly includes entry `j`: the last entry before it one
/// level higher.
pub open spec fn parent_of(t: Seq<Entry>, j: int) -> int {
    last_at_depth(t, j, (t[j].0 - 1) as nat)
}

/// The name of a header that is part of the library itself (not rooted at `/`).
pub open spec fn is_lib_name(n: Seq<char>) -> bool {
    !(n.len() > 0 && n[0] == '/')
}

/// The name a node gets: every `./` removed.
pub open spec fn node_name(n: Seq<char>) -> Seq<char> {
    replace_all(n, "./"@, ""@)
}

/// The name that marks a tree whose header could not be analysed.
pub open spec fn invalid_name() -> Seq<char> {
    "invalid"@
}

/// A name with the header directory `p` and the separator after it removed.
pub open spec fn clean_name(n: Seq<char>, p: Seq<char>) -> Seq<char> {
    if has_prefix(n, p) {
        let rest = n.subrange(p.len() as int, n.len() as int);
        if rest.len() > 0 && rest[0] == '/' {
            rest.drop_first()
        } else {
            rest
        }
    } else {
        n
    }
}

/// The include tree of one header: the header itself and, below it, each
/// header it includes, in the order of the compiler's trace.
pub struct TreeNode {
    names: Vec<String>,
    depths: Vec<usize>,
}

impl View for TreeNode {
    type V = Seq<Entry>;

    closed spec fn view(&self) -> Seq<Entry> {
        Seq::new(self.names.len() as nat, |k: int| (self.depths@[k] as nat, self.names@[k]@))
    }
}

impl TreeNode {
    /// The entries form a tree.
    pub closed spec fn well_formed(&self) -> bool {
        &&& self.names.len() == self.depths.len()
        &&& wf_tree(self@)
    }

    /// A tree of one header, whose name has every `./` removed.
    pub fn new(name: String) -> (r: TreeNode)
        ensures
            r.well_formed(),
            r@ == seq![(0nat, node_name(name@))],
    {
        proof {
            reveal_strlit("./");
        }
        let cleaned = replace_str(name.as_str(), "./", "");
        let r = TreeNode { names: vec![cleaned], depths: vec![0] };
        assert(r@ =~= seq![(0nat, node_name(name@))]);
        r
    }

    /// The tree that stands for a header whose trace could not be read.
    pub fn new_invalid() -> (r: TreeNode)
        ensures
            r.well_formed(),
            r@ == seq![(0nat, invalid_name())],
    {
        let r = TreeNode { names: vec!["invalid".to_string()], depths: vec![0] };
        assert(r@ =~= seq![(0nat, invalid_name())]);
        r
    }

    /// Whether this tree stands for a header that could not be analysed.
    pub fn is_invalid(&self) -> (r: bool)
        requires
            self.well_formed(),
        ensures
            r == (self@[0].1 == invalid_name()),
    {
        let inv = "invalid".to_string();
        self.names[0] == inv
    }

    /// Renames the root.
    pub fn set_name(&mut self, name: String)
        requires
            old(self).well_formed(),
        ensures
            final(self).well_formed(),
            final(self)@ == old(self)@.update(0, (0nat, name@)),
    {
        self.names.set(0, name);
        assert(self@ =~= old(self)@.update(0, (0nat, name@)));
    }

    /// Hangs `child` below the root, after the root's other children.
    pub fn add_child(&mut self, child: TreeNode)
        requires
            old(self).well_formed(),
            child.well_formed(),
        ensures
            final(self).well_formed(),
            final(self)@ == old(self)@ + lowered(child@),
    {
        self.graft(&child);
    }

    /// Appends a copy of `child` below the root.
    fn graft(&mut self, child: &TreeNode)
        requires
            old(self).well_formed(),
            child.well_formed(),
        ensures
            final(self).well_formed(),
            final(self)@ == old(self)@ + lowered(child@),
    {
        let ghost s0 = self@;
        let n = child.names.len();
        let taken = &child.names;
        let mut j: usize = 0;
        while j < n
            invariant
                self.names.len() == self.depths.len(),
                self.names.len() == s0.len() + j,
                n == taken.len(),
                n == child.depths.len(),
                n == child@.len(),
                j <= n,
                wf_tree(child@),
                wf_tree(s0),
                taken@ == child.names@,
                self@ == s0 + lowered(child@).subrange(0, j as int),
            decreases n - j,
        {
            let d = child.depths[j];
            assert(child@[j as int].0 <= j) by {
                lemma_depth_bounded(child@, j as int);
            }
            let ghost before = self@;
            let nm = taken[j].clone();
            self.names.push(nm);
            self.depths.push(d + 1);
            assert(self@.len() == before.len() + 1);
            assert forall|x: int| 0 <= x < before.len() implies #[trigger] self@[x] == before[x] by {}
            assert(self@[before.len() as int] == lowered(child@)[j as int]);
            assert(self@ =~= s0 + lowered(child@).subrange(0, j + 1));
            j += 1;
        }
        assert(lowered(child@).subrange(0, n as int) =~= lowered(child@));
        assert(self@ == s0 + lowered(child@));
        assert forall|k: int| 1 <= k < self@.len() implies 1 <= #[trigger] self@[k].0 <= self@[k - 1].0 + 1 by {
            if k > s0.len() {
                assert(self@[k] == lowered(child@)[k - s0.len()]);
                assert(self@[k - 1] == lowered(child@)[k - 1 - s0.len()]);
            }
        }
    }

    /// The name of the root.
    pub fn get_name(&self) -> (r: &str)
        requires
            self.well_formed(),
        ensures
            r@ == self@[0].1,
    {
        self.names[0].as_str()
    }

    /// Removes the header directory `include_path`, and the separator after
    /// it, from the front of every name in the tree that starts with it.
    pub fn get_clean_root(&mut self, include_path: &str)
        requires
            old(self).well_formed(),
        ensures
            final(self).well_formed(),
            final(self)@.len() == old(self)@.len(),
            forall|k: int| 0 <= k < old(self)@.len() ==> #[trigger] final(self)@[k] == (
            old(self)@[k].0, clean_name(old(self)@[k].1, include_path@)),
    {
        let ghost s0 = self@;
        let ghost d0 = self.depths@;
        let n = self.names.len();
        let mut k: usize = 0;
        while k < n
            invariant
                n == self.names.len(),
                n == self.depths.len(),
                n == s0.len(),
                k <= n,
                self.depths@ == d0,
                forall|i: int| 0 <= i < n ==> #[trigger] s0[i] == (d0[i] as nat, old(self).names@[i]@),
                forall|i: int| 0 <= i < k ==> #[trigger] self.names@[i]@ == clean_name(s0[i].1, include_path@),
                forall|i: int| k <= i < n ==> #[trigger] self.names@[i]@ == s0[i].1,
            decreases n - k,
        {
            let cleaned = clean_str(self.names[k].as_str(), include_path);
            self.names.set(k, cleaned);
            k += 1;
        }
        assert forall|i: int| 0 <= i < n implies #[trigger] self@[i] == (s0[i].0, clean_name(s0[i].1, include_path@)) by {
            assert(self@[i].0 == d0[i] as nat);
        }
        assert(wf_tree(self@)) by {
            assert forall|i: int| 1 <= i < self@.len() implies 1 <= #[trigger] self@[i].0 <= self@[i - 1].0 + 1 by {
                assert(self@[i] == (s0[i].0, clean_name(s0[i].1, include_path@)));
                assert(self@[i - 1] == (s0[i - 1].0, clean_name(s0[i - 1].1, include_path@)));
            }
        }
    }

    /// For every entry after the root, the index of the entry that includes it.
    pub fn parent_indices(&self) -> (r: Vec<usize>)
        requires
            self.well_formed(),
        ensures
            r@.len() == self@.len(),
            forall|j: int| 1 <= j < r@.len() ==> {
                &&& #[trigger] r@[j] as int == parent_of(self@, j)
                &&& r@[j] < j
                &&& self@[r@[j] as int].0 + 1 == self@[j].0
            },
    {
        let ghost t = self@;
        let n = self.depths.len();
        let mut r: Vec<usize> = vec![0];
        let mut path: Vec<usize> = vec![0];
        let mut k: usize = 1;
        while k < n
            invariant
                n == self.depths.len(),
                n == t.len(),
                t == self@,
                wf_tree(t),
                1 <= k <= n,
                r@.len() == k,
                path@.len() == t[k - 1].0 + 1,
                forall|d: int| 0 <= d < path@.len() ==> {
                    &&& #[trigger] path@[d] as int == last_at_depth(t, k as int, d as nat)
                    &&& path@[d] < k
                    &&& t[path@[d] as int].0 == d
                },
                forall|j: int| 1 <= j < k ==> {
                    &&& #[trigger] r@[j] as int == parent_of(t, j)
                    &&& r@[j] < j
                    &&& t[r@[j] as int].0 + 1 == t[j].0
                },
            decreases n - k,
        {
            let e = self.depths[k];
            assert(1 <= t[k as int].0 <= t[k - 1].0 + 1);
            let p = path[e - 1];
            r.push(p);
            path.truncate(e);
            path.push(k);
            proof {
                assert forall|d: int| 0 <= d < path@.len() implies {
                    &&& #[trigger] path@[d] as int == last_at_depth(t, k + 1, d as nat)
                    &&& path@[d] < k + 1
                    &&& t[path@[d] as int].0 == d
                } by {
                    if d < e {
                        assert(t[k as int].0 != d);
                    }
                }
            }
            k += 1;
        }
        r
    }

    /// Number of entries, the root included.
    pub fn size(&self) -> (r: usize)
        requires
            self.well_formed(),
        ensures
            r == self@.len(),
    {
        self.names.len()
    }

    /// The name of entry `k`, in preorder.
    pub fn name_at(&self, k: usize) -> (r: &String)
        requires
            self.well_formed(),
            k < self@.len(),
        ensures
            r@ == self@[k as int].1,
    {
        &self.names[k]
    }

    /// The depth of entry `k` below the root.
    pub fn depth_at(&self, k: usize) -> (r: usize)
        requires
            self.well_formed(),
            k < self@.len(),
        ensures
            r == self@[k as int].0,
    {
        self.depths[k]
    }
}

/// A tree has a root.
pub proof fn lemma_tree_has_root(t: TreeNode)
    requires
        t.well_formed(),
    ensures
        t@.len() >= 1,
        t@[0].0 == 0,
{
}

/// The entries of a tree hung one level lower.
pub open spec fn lowered(t: Seq<Entry>) -> Seq<Entry> {
    t.map_values(|e: Entry| ((e.0 + 1) as nat, e.1))
}

/// In a tree no entry lies deeper than its position.
pub proof fn lemma_depth_bounded(t: Seq<Entry>, k: int)
    requires
        wf_tree(t),
        0 <= k < t.len(),
    ensures
        t[k].0 <= k,
    decreases k,
{
    if k > 0 {
        lemma_depth_bounded(t, k - 1);
    }
}

/// `n` with the directory `p` and the separator after it removed.
fn clean_str(n: &str, p: &str) -> (r: String)
    ensures
        r@ == clean_name(n@, p@),
{
    if starts_with(n, p) {
        let len = n.unicode_len();
        let m = p.unicode_len();
        let rest = n.substring_char(m, len);
        let rlen = rest.unicode_len();
        if rlen > 0 && rest.get_char(0) == '/' {
            let r = rest.substring_char(1, rlen);
            assert(r@ =~= rest@.drop_first());
            r.to_string()
        } else {
            rest.to_string()
        }
    } else {
        n.to_string()
    }
}


/// The level that entry `k` of a trace lands on when the trace is read from
/// level `start`: its own layer when that names a level on the current path,
/// else one level below the entry before it.
pub open spec fn eff_depth(layers: Seq<nat>, start: nat, k: int) -> nat
    decreases k,
{
    if k <= 0 {
        start
    } else {
        let prev = eff_depth(layers, start, k - 1);
        if start <= layers[k] <= prev {
            layers[k]
        } else {
            prev + 1
        }
    }
}

/// The entries of a layered trace as they stand in trees rooted at level
/// `start`: each at its level relative to `start`, with its node name.
pub open spec fn layered_entries(s: Seq<(nat, Seq<char>)>, start: nat) -> Seq<Entry> {
    Seq::new(
        s.len(),
        |k: int| ((eff_depth(s.map_values(|e: (nat, Seq<char>)| e.0), start, k) - start) as nat, node_name(s[k].1)),
    )
}

/// The entries of a list of trees, one tree after the other.
pub open spec fn flatten(f: Seq<Seq<Entry>>) -> Seq<Entry>
    decreases f.len(),
{
    if f.len() == 0 {
        seq![]
    } else {
        flatten(f.drop_last()) + f.last()
    }
}

/// The views of a list of trees.
pub open spec fn forest_view(f: Seq<TreeNode>) -> Seq<Seq<Entry>> {
    f.map_values(|t: TreeNode| t@)
}

/// The view of a list of (layer, name) pairs.
pub open spec fn pairs_view(v: Seq<(usize, String)>) -> Seq<(nat, Seq<char>)> {
    v.map_values(|p: (usize, String)| (p.0 as nat, p.1@))
}

impl TreeNode {
    /// Appends an entry at depth `d` with the node name of `name`.
    fn push_entry(&mut self, d: usize, name: &str)
        requires
            old(self).well_formed(),
            1 <= d <= old(self)@.last().0 + 1,
        ensures
            final(self).well_formed(),
            final(self)@ == old(self)@.push((d as nat, node_name(name@))),
    {
        proof {
            reveal_strlit("./");
        }
        let cleaned = replace_str(name, "./", "");
        let ghost before = self@;
        self.names.push(cleaned);
        self.depths.push(d);
        assert(self@ =~= before.push((d as nat, node_name(name@))));
    }
}

/// Splits a layered trace into the trees hanging at level `depth`: an entry
/// whose layer is `depth` starts a new tree, and the entries after it, up to
/// the next such entry, are rebuilt below it level by level.
pub fn get_layer_child(layered_nodes: Vec<(usize, String)>, depth: usize) -> (r: Vec<TreeNode>)
    requires
        depth + layered_nodes@.len() <= usize::MAX,
    ensures
        forall|i: int| 0 <= i < r@.len() ==> #[trigger] r@[i].well_formed(),
        flatten(forest_view(r@)) == layered_entries(pairs_view(layered_nodes@), depth as nat),
{
    let ghost s = pairs_view(layered_nodes@);
    let ghost layers = s.map_values(|e: (nat, Seq<char>)| e.0);
    let ghost target = layered_entries(s, depth as nat);
    let n = layered_nodes.len();
    let mut out: Vec<TreeNode> = Vec::new();
    if n == 0 {
        assert(flatten(forest_view(out@)) =~= target);
        return out;
    }
    let mut cur = TreeNode::new(layered_nodes[0].1.clone());
    let mut prev: usize = depth;
    let mut k: usize = 1;
    assert(cur@ =~= target.subrange(0, 1));
    assert(flatten(forest_view(out@)) =~= seq![]);
    while k < n
        invariant
            n == layered_nodes@.len(),
            s == pairs_view(layered_nodes@),
            layers == s.map_values(|e: (nat, Seq<char>)| e.0),
            target == layered_entries(s, depth as nat),
            depth + n <= usize::MAX,
            1 <= k <= n,
            cur.well_formed(),
            forall|i: int| 0 <= i < out@.len() ==> #[trigger] out@[i].well_formed(),
            prev == eff_depth(layers, depth as nat, k - 1),
            depth <= prev <= depth + k - 1,
            cur@.last().0 == prev - depth,
            flatten(forest_view(out@)) + cur@ == target.subrange(0, k as int),
        decreases n - k,
    {
        let layer = layered_nodes[k].0;
        let e = if depth <= layer && layer <= prev {
            layer
        } else {
            prev + 1
        };
        assert(e == eff_depth(layers, depth as nat, k as int));
        let ghost f0 = forest_view(out@);
        if e == depth {
            let done = cur;
            out.push(done);
            cur = TreeNode::new(layered_nodes[k].1.clone());
            assert(forest_view(out@).drop_last() =~= f0);
            assert(flatten(forest_view(out@)) =~= flatten(f0) + done@);
        } else {
            cur.push_entry(e - depth, layered_nodes[k].1.as_str());
        }
        assert(target[k as int] == ((e - depth) as nat, node_name(layered_nodes@[k as int].1@)));
        assert(target.subrange(0, k + 1) =~= target.subrange(0, k as int).push(target[k as int]));
        assert(flatten(forest_view(out@)) + cur@ =~= target.subrange(0, k + 1));
        prev = e;
        k += 1;
    }
    let ghost f0 = forest_view(out@);
    let last = cur;
    out.push(last);
    assert(forest_view(out@).drop_last() =~= f0);
    assert(flatten(forest_view(out@)) =~= flatten(f0) + last@);
    assert(target.subrange(0, n as int) =~= target);
    out
}

/// A line of the include trace that cannot be read.
#[derive(Debug, PartialEq, Eq)]
pub enum TraceError {
    /// The line holds no space between its depth marker and its path.
    MissingSpace(String),
}

/// `l` holds a space.
pub open spec fn has_space(l: Seq<char>) -> bool {
    exists|i: int| 0 <= i < l.len() && l[i] == ' '
}

/// Position of the first space of `l`, which stands for the depth of the
/// header the line names.
pub open spec fn first_space(l: Seq<char>) -> int {
    choose|i: int| 0 <= i < l.len() && l[i] == ' ' && forall|j: int| 0 <= j < i ==> l[j] != ' '
}

/// A file name with one of the header extensions.
pub open spec fn is_header_file(h: Seq<char>) -> bool {
    has_suffix(h, ".h"@) || has_suffix(h, ".hpp"@) || has_suffix(h, ".hxx"@)
}

/// The path a trace line names.
pub open spec fn trace_path(l: Seq<char>) -> Seq<char> {
    trimmed(l.subrange(first_space(l), l.len() as int))
}

/// The (layer, path) pairs of the trace lines that name a header file under
/// the directory `p`, in order.
pub open spec fn trace_entries(ls: Seq<Seq<char>>, p: Seq<char>) -> Seq<(nat, Seq<char>)>
    decreases ls.len(),
{
    if ls.len() == 0 {
        seq![]
    } else {
        let prev = trace_entries(ls.drop_last(), p);
        let h = trace_path(ls.last());
        if has_prefix(h, p) && is_header_file(h) {
            prev.push((first_space(ls.last()) as nat, h))
        } else {
            prev
        }
    }
}

/// The tree that a trace describes: the traced header at the root, and below
/// it the traced headers under `p`, at the levels their layers give.
pub open spec fn trace_tree(output: Seq<char>, base_name: Seq<char>, p: Seq<char>) -> Seq<Entry> {
    seq![(0nat, node_name(base_name))] + lowered(
        layered_entries(trace_entries(lines_of(output), p), 1),
    )
}

proof fn lemma_trace_entries_len(ls: Seq<Seq<char>>, p: Seq<char>)
    ensures
        trace_entries(ls, p).len() <= ls.len(),
    decreases ls.len(),
{
    if ls.len() > 0 {
        lemma_trace_entries_len(ls.drop_last(), p);
    }
}

proof fn lemma_lowered_concat(a: Seq<Entry>, b: Seq<Entry>)
    ensures
        lowered(a + b) == lowered(a) + lowered(b),
{
    assert(lowered(a + b) =~= lowered(a) + lowered(b));
}

/// Whether `h` ends with one of the header extensions.
fn is_header_path(h: &str) -> (r: bool)
    ensures
        r == is_header_file(h@),
{
    ends_with(h, ".h") || ends_with(h, ".hpp") || ends_with(h, ".hxx")
}

/// Rebuilds the include tree of `base_name` from the compiler's include trace
/// `output`: one line per included header, its depth given by the number of
/// characters before the first space. Only headers under `header_path` are
/// kept.
pub fn parse_dependency_tree(output: &str, base_name: &str, header_path: &str) -> (r: Result<
    TreeNode,
    TraceError,
>)
    requires
        lines_of(output@).len() < usize::MAX,
    ensures
        r is Err <==> exists|i: int|
            0 <= i < lines_of(output@).len() && !has_space(#[trigger] lines_of(output@)[i]),
        r matches Ok(t) ==> t.well_formed() && t@ == trace_tree(output@, base_name@, header_path@),
{
    let lines = split_lines(output);
    let ghost ls = lines_of(output@);
    let mut node_layer: Vec<(usize, String)> = Vec::new();
    let mut i: usize = 0;
    while i < lines.len()
        invariant
            ls == lines_of(output@),
            lines@.len() == ls.len(),
            forall|j: int| 0 <= j < ls.len() ==> #[trigger] lines@[j]@ == ls[j],
            i <= lines@.len(),
            forall|j: int| 0 <= j < i ==> has_space(#[trigger] ls[j]),
            pairs_view(node_layer@) == trace_entries(ls.subrange(0, i as int), header_path@),
        decreases lines@.len() - i,
    {
        let line = lines[i].as_str();
        assert(line@ == ls[i as int]);
        assert(ls.subrange(0, i + 1).drop_last() =~= ls.subrange(0, i as int));
        assert(ls.subrange(0, i + 1).last() == ls[i as int]);
        match find_char(line, ' ') {
            None => {
                assert(!has_space(ls[i as int]));
                assert(exists|j: int|
                    0 <= j < lines_of(output@).len() && !has_space(#[trigger] lines_of(output@)[j]));
                return Err(TraceError::MissingSpace(line.to_string()));
            },
            Some(sep) => {
                assert(first_space(line@) == sep);
                let len = line.unicode_len();
                let header = trim_str(line.substring_char(sep, len));
                if starts_with(header.as_str(), header_path) && is_header_path(header.as_str()) {
                    let ghost before = node_layer@;
                    node_layer.push((sep, header));
                    assert(pairs_view(node_layer@) =~= pairs_view(before).push(
                        (sep as nat, trace_path(line@)),
                    ));
                }
            },
        }
        i += 1;
    }
    assert(ls.subrange(0, lines@.len() as int) =~= ls);
    proof {
        lemma_trace_entries_len(ls, header_path@);
    }
    let ghost entries = pairs_view(node_layer@);
    let mut tree = TreeNode::new(base_name.to_string());
    let children = get_layer_child(node_layer, 1);
    let ghost f = forest_view(children@);
    let mut c: usize = 0;
    assert(f.subrange(0, 0) =~= seq![]);
    assert(tree@ =~= seq![(0nat, node_name(base_name@))] + lowered(flatten(f.subrange(0, 0))));
    while c < children.len()
        invariant
            tree.well_formed(),
            f == forest_view(children@),
            forall|j: int| 0 <= j < children@.len() ==> #[trigger] children@[j].well_formed(),
            c <= children@.len(),
            tree@ == seq![(0nat, node_name(base_name@))] + lowered(flatten(f.subrange(0, c as int))),
        decreases children@.len() - c,
    {
        let ghost before = tree@;
        tree.graft(&children[c]);
        proof {
            assert(f.subrange(0, c + 1).drop_last() =~= f.subrange(0, c as int));
            assert(f.subrange(0, c + 1).last() == children@[c as int]@);
            lemma_lowered_concat(flatten(f.subrange(0, c as int)), children@[c as int]@);
        }
        assert(tree@ =~= seq![(0nat, node_name(base_name@))] + lowered(flatten(f.subrange(0, c + 1))));
        c += 1;
    }
    assert(f.subrange(0, children@.len() as int) =~= f);
    Ok(tree)
}

/// The include tree of one header as the library's users see it: the trace
/// read by `parse_dependency_tree`, with the header directory `header_path`
/// removed from the front of every name.
pub fn build_header_tree(output: &str, base_name: &str, header_path: &str) -> (r: Result<
    TreeNode,
    TraceError,
>)
    requires
        lines_of(output@).len() < usize::MAX,
    ensures
        r is Err <==> exists|i: int|
            0 <= i < lines_of(output@).len() && !has_space(#[trigger] lines_of(output@)[i]),
        r matches Ok(t) ==> {
            &&& t.well_formed()
            &&& t@.len() == trace_tree(output@, base_name@, header_path@).len()
            &&& forall|k: int| 0 <= k < t@.len() ==> #[trigger] t@[k] == (
            trace_tree(output@, base_name@, header_path@)[k].0,
            clean_name(trace_tree(output@, base_name@, header_path@)[k].1, header_path@),
            )
        },
{
    match parse_dependency_tree(output, base_name, header_path) {
        Err(e) => Err(e),
        Ok(t) => {
            let mut t = t;
            t.get_clean_root(header_path);
            Ok(t)
        },
    }
}

/// Every path that the trace keeps lies under the header directory.
pub proof fn lemma_trace_paths_under(ls: Seq<Seq<char>>, p: Seq<char>, k: int)
    requires
        0 <= k < trace_entries(ls, p).len(),
    ensures
        has_prefix(trace_entries(ls, p)[k].1, p),
    decreases ls.len(),
{
    if ls.len() > 0 {
        let prev = trace_entries(ls.drop_last(), p);
        if k < prev.len() {
            lemma_trace_paths_under(ls.drop_last(), p, k);
        }
    }
}

/// A cleaned name, put back under the header directory, is the path it came
/// from: the directory, a `/` unless the name had none there, and the name.
pub proof fn lemma_clean_name_round_trip(n: Seq<char>, p: Seq<char>)
    requires
        has_prefix(n, p),
    ensures
        p + "/"@ + clean_name(n, p) == n || (p + clean_name(n, p) == n && !(clean_name(
            n,
            p,
        ).len() > 0 && clean_name(n, p)[0] == '/')),
{
    reveal_strlit("/");
    let rest = n.subrange(p.len() as int, n.len() as int);
    assert(p + rest =~= n);
    if rest.len() > 0 && rest[0] == '/' {
        assert(p + "/"@ + rest.drop_first() =~= n);
    }
}

/// A path `p/rest` of the header directory `p` is cleaned to `rest`, which
/// is relative: it does not start with `/`, given that `rest` does not.
pub proof fn lemma_clean_name_is_relative(p: Seq<char>, rest: Seq<char>)
    requires
        !(rest.len() > 0 && rest[0] == '/'),
    ensures
        clean_name(p + "/"@ + rest, p) == rest,
        !(clean_name(p + "/"@ + rest, p).len() > 0 && clean_name(p + "/"@ + rest, p)[0] == '/'),
{
    reveal_strlit("/");
    let n = p + "/"@ + rest;
    assert(n.subrange(0, p.len() as int) =~= p);
    let tail = n.subrange(p.len() as int, n.len() as int);
    assert(tail =~= "/"@ + rest);
    assert(tail.drop_first() =~= rest);
}

/// In a tree built from a trace, every header below the root is the node
/// name of a path the trace named under the header directory; where that
/// node name still starts with the directory, the cleaned name put back
/// under it (with or without a `/`) gives the node name again.
pub proof fn lemma_header_tree_round_trip(
    output: Seq<char>,
    base_name: Seq<char>,
    p: Seq<char>,
    k: int,
)
    requires
        1 <= k < trace_tree(output, base_name, p).len(),
    ensures
        ({
            let raw = trace_entries(lines_of(output), p)[k - 1].1;
            let n = clean_name(trace_tree(output, base_name, p)[k].1, p);
            &&& raw == trace_tree(output, base_name, p)[k].1 || node_name(raw) == trace_tree(output, base_name, p)[k].1
            &&& has_prefix(node_name(raw), p) ==> (p + "/"@ + n == node_name(raw) || p + n == node_name(raw))
        }),
{
    let t = trace_tree(output, base_name, p);
    let raw = trace_entries(lines_of(output), p)[k - 1].1;
    assert(t[k].1 == node_name(raw));
    if has_prefix(node_name(raw), p) {
        lemma_clean_name_round_trip(node_name(raw), p);
    }
}

/// The system headers that library headers of `t` include directly.
pub open spec fn direct_sys_headers(t: Seq<Entry>, n: int) -> Seq<Seq<char>>
    decreases n,
{
    if n <= 1 {
        seq![]
    } else {
        let prev = direct_sys_headers(t, n - 1);
        let j = n - 1;
        if is_lib_name(t[parent_of(t, j)].1) && !is_lib_name(t[j].1) {
            prev.push(t[j].1)
        } else {
            prev
        }
    }
}

/// Whether `name` is a header of the library itself rather than a system
/// header.
pub fn is_a_lib_header(name: &str) -> (r: bool)
    ensures
        r == is_lib_name(name@),
{
    if name.unicode_len() == 0 {
        true
    } else {
        name.get_char(0) != '/'
    }
}

/// The system headers (rooted at `/`) that a library header of `tree`
/// includes directly, in the order of the tree.
pub fn get_included_sys_header(tree: &TreeNode) -> (r: Vec<String>)
    requires
        tree.well_formed(),
    ensures
        r@.len() == direct_sys_headers(tree@, tree@.len() as int).len(),
        forall|i: int| 0 <= i < r@.len() ==> #[trigger] r@[i]@ == direct_sys_headers(tree@, tree@.len() as int)[i],
{
    let parents = tree.parent_indices();
    let n = tree.size();
    let mut out: Vec<String> = Vec::new();
    let mut j: usize = 1;
    while j < n
        invariant
            n == tree@.len(),
            tree.well_formed(),
            1 <= j <= n,
            parents@.len() == n,
            forall|x: int| 1 <= x < n ==> #[trigger] parents@[x] as int == parent_of(tree@, x) && parents@[x] < x,
            out@.len() == direct_sys_headers(tree@, j as int).len(),
            forall|i: int| 0 <= i < out@.len() ==> #[trigger] out@[i]@ == direct_sys_headers(tree@, j as int)[i],
        decreases n - j,
    {
        let p = parents[j];
        assert(parents@[j as int] as int == parent_of(tree@, j as int));
        let name = tree.name_at(j);
        if is_a_lib_header(tree.name_at(p).as_str()) && !is_a_lib_header(name.as_str()) {
            out.push(name.clone());
        }
        j += 1;
    }
    out
}
} // verus!
