//! The module tree of the generated files, and the Rust module glue written for it.
use vstd::prelude::*;
use crate::ast::strings_view;
use crate::exports::{lemma_seq_lt_total, lemma_seq_lt_trans, seq_lt};
use crate::pattern::{copy_string, same_text};
use crate::text::push_str;

verus! {

/// Directories as nodes (node 0 is the root): each node's name, its child
/// directories in name order, and its files (module name, path of the generated
/// file below the output directory), in the order they were added.
#[derive(Debug, Clone)]
pub struct ModTree {
    pub names: Vec<String>,
    pub children: Vec<Vec<usize>>,
    pub files: Vec<Vec<(String, String)>>,
}

pub struct SpecTree {
    pub names: Seq<Seq<char>>,
    pub children: Seq<Seq<usize>>,
    pub files: Seq<Seq<(Seq<char>, Seq<char>)>>,
}

pub open spec fn files_view(v: Seq<(String, String)>) -> Seq<(Seq<char>, Seq<char>)> {
    v.map_values(|e: (String, String)| (e.0@, e.1@))
}

impl View for ModTree {
    type V = SpecTree;

    open spec fn view(&self) -> SpecTree {
        SpecTree {
            names: strings_view(self.names@),
            children: self.children@.map_values(|c: Vec<usize>| c@),
            files: self.files@.map_values(|f: Vec<(String, String)>| files_view(f@)),
        }
    }
}

/// A well-formed tree: node 0 exists, every child comes after its parent, and
/// the children of a node are in strictly increasing name order.
pub open spec fn tree_wf(t: SpecTree) -> bool {
    &&& t.names.len() >= 1
    &&& t.children.len() == t.names.len()
    &&& t.files.len() == t.names.len()
    &&& forall|i: int, k: int|
        0 <= i < t.children.len() && 0 <= k < t.children[i].len() ==> i < #[trigger] t.children[i][k] < t.names.len()
    &&& forall|i: int, a: int, b: int|
        0 <= i < t.children.len() && 0 <= a < b < t.children[i].len() ==> seq_lt(
            t.names[#[trigger] t.children[i][a] as int],
            t.names[#[trigger] t.children[i][b] as int],
        )
}

/// The child of node `i` named `d`.
pub open spec fn child_named(t: SpecTree, i: int, d: Seq<char>) -> Option<int> {
    if exists|k: int| is_child_named(t, i, d, k) {
        Some(t.children[i][child_pos(t, i, d)] as int)
    } else {
        None
    }
}

pub open spec fn is_child_named(t: SpecTree, i: int, d: Seq<char>, k: int) -> bool {
    0 <= k < t.children[i].len() && t.names[t.children[i][k] as int] == d
}

/// The position among the children of `i` of the one named `d`.
pub open spec fn child_pos(t: SpecTree, i: int, d: Seq<char>) -> int {
    choose|k: int| is_child_named(t, i, d, k)
}

/// The node reached from node `i` through the directories `dirs`.
pub open spec fn node_at(t: SpecTree, i: int, dirs: Seq<Seq<char>>) -> Option<int>
    decreases dirs.len(),
{
    if dirs.len() == 0 {
        Some(i)
    } else {
        match child_named(t, i, dirs[0]) {
            Some(c) => node_at(t, c, dirs.drop_first()),
            None => None,
        }
    }
}

/// `pub mod <stem> { include!(...); }` for each file.
pub open spec fn files_text(fs: Seq<(Seq<char>, Seq<char>)>) -> Seq<char>
    decreases fs.len(),
{
    if fs.len() == 0 {
        Seq::empty()
    } else {
        files_text(fs.drop_last()) + "pub mod "@ + fs.last().0 + " { include!(concat!(env!(\"TSRUST_OUT\"), \"/"@
            + fs.last().1 + "\")); }\n"@
    }
}

/// The glue for node `i`: a `pub mod` block for each child directory, in name
/// order, then its files.
pub open spec fn emit_node(t: SpecTree, i: int, fuel: nat) -> Seq<char>
    decreases fuel, 0nat, 0nat,
{
    if fuel == 0 || i < 0 || i >= t.children.len() {
        Seq::empty()
    } else {
        emit_children(t, t.children[i], (fuel - 1) as nat) + files_text(t.files[i])
    }
}

pub open spec fn emit_children(t: SpecTree, cs: Seq<usize>, fuel: nat) -> Seq<char>
    decreases fuel, 1nat, cs.len(),
{
    if cs.len() == 0 {
        Seq::empty()
    } else {
        let c = cs.last() as int;
        emit_children(t, cs.drop_last(), fuel) + "pub mod "@ + t.names[c] + " {\n"@ + emit_node(t, c, fuel) + "}\n"@
    }
}

/// `t` is `t0` with the file `f` added in the directory `dirs`, which is node `x`
/// of `t`: the files of the other directories of `t0` are unchanged.
pub open spec fn placed(t: SpecTree, t0: SpecTree, dirs: Seq<Seq<char>>, x: int, f: (Seq<char>, Seq<char>)) -> bool {
    &&& node_at(t, 0, dirs) == Some(x)
    &&& 0 <= x < t.names.len()
    &&& t.files[x] == (if x < t0.names.len() {
        t0.files[x]
    } else {
        Seq::empty()
    }).push(f)
    &&& forall|y: int| 0 <= y < t0.names.len() && y != x ==> t.files[y] == t0.files[y]
    &&& forall|y: int| t0.names.len() <= y < t.names.len() && y != x ==> t.files[y].len() == 0
}

/// The module glue of the whole tree.
pub open spec fn spec_glue(t: SpecTree) -> Seq<char> {
    emit_node(t, 0, t.names.len())
}

/// Node `y` is reached through the first `n` of `dirs`, for some `n <= m`.
pub open spec fn on_dirs(t: SpecTree, dirs: Seq<Seq<char>>, m: int, y: int) -> bool {
    exists|n: int| 0 <= n <= m && #[trigger] node_at(t, 0, dirs.take(n)) == Some(y)
}

/// No node is the child of two nodes, or twice the child of one.
pub open spec fn unique_parents(t: SpecTree) -> bool {
    forall|i: int, a: int, j: int, b: int|
        0 <= i < t.children.len() && 0 <= a < t.children[i].len() && 0 <= j < t.children.len() && 0 <= b
            < t.children[j].len() && #[trigger] t.children[i][a] == #[trigger] t.children[j][b] ==> i == j && a == b
}

/// The files of the entries `es` whose directory is node `x`, in entry order.
pub open spec fn files_at(t: SpecTree, es: Seq<(Seq<Seq<char>>, Seq<char>, Seq<char>)>, x: int) -> Seq<(Seq<char>, Seq<char>)>
    decreases es.len(),
{
    if es.len() == 0 {
        Seq::empty()
    } else {
        let prev = files_at(t, es.drop_last(), x);
        if node_at(t, 0, es.last().0) == Some(x) {
            prev.push((es.last().1, es.last().2))
        } else {
            prev
        }
    }
}

/// Node `y` is reached through the first `n` directories of entry `k`.
pub open spec fn on_path(t: SpecTree, es: Seq<(Seq<Seq<char>>, Seq<char>, Seq<char>)>, y: int, k: int, n: int) -> bool {
    0 <= k < es.len() && 0 <= n <= es[k].0.len() && node_at(t, 0, es[k].0.take(n)) == Some(y)
}

/// `t` is the tree of the entries `es` (directories, module name, generated path):
/// every entry's directory is a node, each node holds exactly the files of the
/// entries in it, in entry order, and every node other than the root lies on the
/// directory path of some entry, under one parent.
pub open spec fn tree_of_entries(t: SpecTree, es: Seq<(Seq<Seq<char>>, Seq<char>, Seq<char>)>) -> bool {
    &&& tree_wf(t)
    &&& unique_parents(t)
    &&& forall|k: int| 0 <= k < es.len() ==> node_at(t, 0, #[trigger] es[k].0) is Some
    &&& forall|x: int| 0 <= x < t.names.len() ==> #[trigger] t.files[x] == files_at(t, es, x)
    &&& forall|y: int| 0 < y < t.names.len() ==> #[trigger] on_some_path(t, es, y)
}

/// Node `y` is reached through the first directories of some entry.
pub open spec fn on_some_path(t: SpecTree, es: Seq<(Seq<Seq<char>>, Seq<char>, Seq<char>)>, y: int) -> bool {
    exists|k: int, n: int| #[trigger] on_path(t, es, y, k, n)
}

impl ModTree {
    /// A tree with only the root.
    pub fn new() -> (t: Self)
        ensures
            tree_wf(t@),
            unique_parents(t@),
            t@.names.len() == 1,
            t@.files[0].len() == 0,
            t@.children[0].len() == 0,
    {
        let mut names: Vec<String> = Vec::new();
        names.push(String::new());
        let mut children: Vec<Vec<usize>> = Vec::new();
        children.push(Vec::new());
        let mut files: Vec<Vec<(String, String)>> = Vec::new();
        files.push(Vec::new());
        let t = ModTree { names, children, files };
        assert(t@.children[0] =~= Seq::<usize>::empty());
        assert(t@.files[0] =~= Seq::<(Seq<char>, Seq<char>)>::empty());
        t
    }

    /// The child of node `cur` named `d`, added (in name order) when missing.
    fn child(&mut self, cur: usize, d: &String) -> (c: usize)
        requires
            tree_wf(old(self)@),
            unique_parents(old(self)@),
            cur < old(self)@.names.len(),
        ensures
            tree_wf(final(self)@),
            unique_parents(final(self)@),
            final(self)@.names.len() == old(self)@.names.len() || (final(self)@.names.len() == old(self)@.names.len()
                + 1 && c == old(self)@.names.len()),
            cur < c < final(self)@.names.len(),
            final(self)@.names[c as int] == d@,
            final(self)@.names.len() >= old(self)@.names.len(),
            child_named(final(self)@, cur as int, d@) == Some(c as int),
            forall|y: int| 0 <= y < old(self)@.names.len() ==> final(self)@.files[y] == old(self)@.files[y],
            forall|y: int| old(self)@.names.len() <= y < final(self)@.names.len() ==> final(self)@.files[y].len() == 0,
            forall|i: int, e: Seq<char>|
                0 <= i < old(self)@.names.len() && #[trigger] child_named(old(self)@, i, e) is Some ==> child_named(
                    final(self)@,
                    i,
                    e,
                ) == child_named(old(self)@, i, e),
    {
        let ghost t0 = self@;
        let n = self.names.len();
        let mut j: usize = 0;
        while j < self.children[cur].len() && crate::exports::str_less(&self.names[self.children[cur][j]], d)
            invariant
                self@ == t0,
                tree_wf(t0),
                cur < t0.names.len(),
                n == t0.names.len(),
                j <= t0.children[cur as int].len(),
                forall|k: int| 0 <= k < j ==> seq_lt(t0.names[#[trigger] t0.children[cur as int][k] as int], d@),
            decreases self.children@[cur as int]@.len() - j,
        {
            assert(t0.children[cur as int][j as int] == self.children@[cur as int]@[j as int]);
            j += 1;
        }
        if j < self.children[cur].len() {
            let c = self.children[cur][j];
            assert(t0.children[cur as int][j as int] == c);
            if same_text(&self.names[c], d) {
                proof {
                    assert(t0.names[c as int] == d@);
                    self.lemma_unique_child(cur as int, j as int, d@);
                }
                return c;
            }
        }
        // a new node
        let ghost kv = d@;
        proof {
            let cs = t0.children[cur as int];
            if (j as int) < cs.len() {
                lemma_seq_lt_total(t0.names[cs[j as int] as int], kv);
                assert(seq_lt(kv, t0.names[cs[j as int] as int]));
            }
            assert forall|k: int| j <= k < cs.len() implies seq_lt(kv, t0.names[#[trigger] cs[k] as int]) by {
                if k > j {
                    lemma_seq_lt_trans(kv, t0.names[cs[j as int] as int], t0.names[cs[k] as int]);
                }
            }
        }
        self.names.push(copy_string(d));
        self.children.push(Vec::new());
        self.files.push(Vec::new());
        let mut cs = copy_ids(&self.children[cur]);
        let ghost cs0 = cs@;
        cs.insert(j, n);
        self.children.set(cur, cs);
        let ghost t1 = self@;
        proof {
            assert(t1.names =~= t0.names.push(kv));
            assert(t1.children[n as int] =~= Seq::<usize>::empty());
            assert(t1.files[n as int] =~= Seq::<(Seq<char>, Seq<char>)>::empty());
            assert(t1.children[cur as int] =~= cs0.insert(j as int, n));
            assert(cs0 == t0.children[cur as int]);
            assert forall|i: int, k: int| 0 <= i < t1.children.len() && 0 <= k < t1.children[i].len() implies i
                < #[trigger] t1.children[i][k] < t1.names.len() by {
                if i == cur as int {
                    if k < j {
                        assert(t1.children[i][k] == t0.children[i][k]);
                    } else if k > j {
                        assert(t1.children[i][k] == t0.children[i][k - 1]);
                    }
                } else if i < n {
                    assert(t1.children[i] == t0.children[i]);
                }
            }
            assert forall|i: int, a: int, b: int|
                0 <= i < t1.children.len() && 0 <= a < b < t1.children[i].len() implies seq_lt(
                t1.names[#[trigger] t1.children[i][a] as int],
                t1.names[#[trigger] t1.children[i][b] as int],
            ) by {
                if i == cur as int {
                    let c0 = t0.children[i];
                    let na = if a < j { c0[a] } else if a == j { n } else { c0[a - 1] };
                    let nb = if b < j { c0[b] } else if b == j { n } else { c0[b - 1] };
                    assert(t1.children[i][a] == na);
                    assert(t1.children[i][b] == nb);
                    assert(t1.names[n as int] == kv);
                    assert forall|q: int| 0 <= q < c0.len() implies t1.names[#[trigger] c0[q] as int] == t0.names[c0[q] as int] by {
                        assert(c0[q] < n);
                    }
                    if a < j && b > j {
                        lemma_seq_lt_trans(t0.names[c0[a] as int], kv, t0.names[c0[b - 1] as int]);
                    }
                } else if i < n {
                    assert(t1.children[i] == t0.children[i]);
                    assert(t1.names[t0.children[i][a] as int] == t0.names[t0.children[i][a] as int]);
                    assert(t1.names[t0.children[i][b] as int] == t0.names[t0.children[i][b] as int]);
                }
            }
            assert(t1.children[cur as int][j as int] == n);
            assert forall|i: int| 0 <= i < n && i != cur implies t1.children[i] == t0.children[i] by {}
            lemma_insert_child_unique(t0, t1, cur as int, j as int, n as int);
            self.lemma_unique_child(cur as int, j as int, kv);
            assert forall|y: int| 0 <= y < t0.names.len() implies t1.files[y] == t0.files[y] by {}
            assert forall|i: int, e: Seq<char>|
                0 <= i < t0.names.len() && #[trigger] child_named(t0, i, e) is Some implies child_named(t1, i, e)
                    == child_named(t0, i, e) by {
                let k = child_pos(t0, i, e);
                assert(is_child_named(t0, i, e, k));
                lemma_unique_child_spec(t0, i, k, e);
                let c = t0.children[i][k];
                assert(c < n);
                assert(t1.names[c as int] == e);
                if i == cur as int {
                    let k1 = if k < j { k } else { k + 1 };
                    assert(t1.children[i][k1] == c);
                    lemma_unique_child_spec(t1, i, k1, e);
                } else {
                    assert(t1.children[i] == t0.children[i]);
                    lemma_unique_child_spec(t1, i, k, e);
                }
            }
        }
        n
    }

    proof fn lemma_unique_child(&self, cur: int, j: int, d: Seq<char>)
        requires
            tree_wf(self@),
            0 <= cur < self@.names.len(),
            0 <= j < self@.children[cur].len(),
            self@.names[self@.children[cur][j] as int] == d,
        ensures
            child_named(self@, cur, d) == Some(self@.children[cur][j] as int),
    {
        lemma_unique_child_spec(self@, cur, j, d);
    }

    /// Adds the file `stem` (generated at `rel` below the output directory) in the
    /// directory reached through `dirs`, creating the directories that are missing.
    pub fn add_file(&mut self, dirs: &Vec<String>, stem: String, rel: String)
        requires
            tree_wf(old(self)@),
            unique_parents(old(self)@),
        ensures
            tree_wf(final(self)@),
            unique_parents(final(self)@),
            final(self)@.names.len() >= old(self)@.names.len(),
            exists|x: int| #[trigger] placed(final(self)@, old(self)@, strings_view(dirs@), x, (stem@, rel@)),
            forall|y: int|
                old(self)@.names.len() <= y < final(self)@.names.len() ==> #[trigger] on_dirs(
                    final(self)@,
                    strings_view(dirs@),
                    dirs@.len() as int,
                    y,
                ),
            forall|a: Seq<Seq<char>>|
                #[trigger] node_at(old(self)@, 0, a) is Some ==> node_at(final(self)@, 0, a) == node_at(old(self)@, 0, a),
    {
        let ghost t0 = self@;
        let ghost dv = strings_view(dirs@);
        let mut cur: usize = 0;
        let mut k: usize = 0;
        assert(dv.take(0) =~= Seq::<Seq<char>>::empty());
        while k < dirs.len()
            invariant
                tree_wf(self@),
                unique_parents(self@),
                k <= dirs@.len(),
                dv == strings_view(dirs@),
                cur < self@.names.len(),
                self@.names.len() >= t0.names.len(),
                forall|y: int| t0.names.len() <= y < self@.names.len() ==> #[trigger] on_dirs(self@, dv, k as int, y),
                forall|y: int| 0 <= y < t0.names.len() ==> self@.files[y] == t0.files[y],
                forall|y: int| t0.names.len() <= y < self@.names.len() ==> self@.files[y].len() == 0,
                node_at(self@, 0, dv.take(k as int)) == Some(cur as int),
                forall|a: Seq<Seq<char>>| #[trigger] node_at(t0, 0, a) is Some ==> node_at(self@, 0, a) == node_at(t0, 0, a),
            decreases dirs@.len() - k,
        {
            let ghost t1 = self@;
            let c = self.child(cur, &dirs[k]);
            proof {
                assert forall|y: int| t0.names.len() <= y < self@.names.len() implies #[trigger] on_dirs(
                    self@,
                    dv,
                    k + 1,
                    y,
                ) by {
                    if y < t1.names.len() {
                        assert(on_dirs(t1, dv, k as int, y));
                        let n = choose|n: int| 0 <= n <= k && #[trigger] node_at(t1, 0, dv.take(n)) == Some(y);
                        lemma_node_at_kept(t1, self@, 0, dv.take(n));
                        assert(node_at(self@, 0, dv.take(n)) == Some(y));
                    } else {
                        assert(y == c);
                        lemma_node_at_kept(t1, self@, 0, dv.take(k as int));
                        assert(dv[k as int] == dirs@[k as int]@);
                        lemma_node_at_step(self@, 0, dv.take(k as int), dv[k as int]);
                        assert(dv.take(k + 1) =~= dv.take(k as int).push(dv[k as int]));
                        assert(node_at(self@, 0, dv.take(k + 1)) == Some(y));
                    }
                }
                assert forall|a: Seq<Seq<char>>| #[trigger] node_at(t0, 0, a) is Some implies node_at(self@, 0, a)
                    == node_at(t0, 0, a) by {
                    lemma_node_at_kept(t1, self@, 0, a);
                }
                lemma_node_at_kept(t1, self@, 0, dv.take(k as int));
                assert(dv[k as int] == dirs@[k as int]@);
                lemma_node_at_step(self@, 0, dv.take(k as int), dv[k as int]);
                assert(dv.take(k + 1) =~= dv.take(k as int).push(dv[k as int]));
            }
            cur = c;
            k += 1;
        }
        assert(dv.take(k as int) =~= dv);
        let ghost t2 = self@;
        let mut fs = copy_files(&self.files[cur]);
        fs.push((stem, rel));
        self.files.set(cur, fs);
        proof {
            assert(self@.names == t2.names);
            assert(self@.children =~= t2.children);
            assert(tree_wf(self@));
            lemma_node_at_same_shape(t2, self@, 0, dv);
            assert forall|y: int| 0 <= y < t0.names.len() && y != cur implies self@.files[y] == t0.files[y] by {
                assert(self@.files[y] == t2.files[y]);
            }
            assert(self@.files[cur as int] =~= t2.files[cur as int].push((stem@, rel@)));
            if (cur as int) >= t0.names.len() {
                assert(t2.files[cur as int] =~= Seq::<(Seq<char>, Seq<char>)>::empty());
            }
            assert(node_at(self@, 0, strings_view(dirs@)) == Some(cur as int));
            assert(self@.files[cur as int] == (if (cur as int) < t0.names.len() {
                t0.files[cur as int]
            } else {
                Seq::empty()
            }).push((stem@, rel@)));
            assert forall|y: int| t0.names.len() <= y < self@.names.len() && y != cur implies self@.files[y].len() == 0 by {
                assert(self@.files[y] == t2.files[y]);
            }
            assert(placed(self@, t0, dv, cur as int, (stem@, rel@)));
            assert(unique_parents(self@));
            assert forall|y: int| t0.names.len() <= y < self@.names.len() implies #[trigger] on_dirs(
                self@,
                dv,
                dirs@.len() as int,
                y,
            ) by {
                assert(on_dirs(t2, dv, k as int, y));
                let n = choose|n: int| 0 <= n <= k && #[trigger] node_at(t2, 0, dv.take(n)) == Some(y);
                lemma_node_at_same_shape(t2, self@, 0, dv.take(n));
                assert(node_at(self@, 0, dv.take(n)) == Some(y));
            }
            assert forall|a: Seq<Seq<char>>| #[trigger] node_at(t0, 0, a) is Some implies node_at(self@, 0, a)
                == node_at(t0, 0, a) by {
                lemma_node_at_same_shape(t2, self@, 0, a);
            }
        }
    }
}

fn copy_ids(v: &Vec<usize>) -> (r: Vec<usize>)
    ensures
        r@ == v@,
{
    let mut r: Vec<usize> = Vec::new();
    let mut k: usize = 0;
    while k < v.len()
        invariant
            k <= v@.len(),
            r@ == v@.take(k as int),
        decreases v@.len() - k,
    {
        r.push(v[k]);
        assert(r@ =~= v@.take(k + 1));
        k += 1;
    }
    assert(r@ =~= v@);
    r
}

fn copy_files(v: &Vec<(String, String)>) -> (r: Vec<(String, String)>)
    ensures
        files_view(r@) == files_view(v@),
{
    let mut r: Vec<(String, String)> = Vec::new();
    let mut k: usize = 0;
    while k < v.len()
        invariant
            k <= v@.len(),
            files_view(r@) == files_view(v@).take(k as int),
        decreases v@.len() - k,
    {
        let e = (copy_string(&v[k].0), copy_string(&v[k].1));
        let ghost before = files_view(r@);
        r.push(e);
        assert(files_view(r@) =~= before.push((v@[k as int].0@, v@[k as int].1@)));
        assert(files_view(v@).take(k + 1) =~= files_view(v@).take(k as int).push((v@[k as int].0@, v@[k as int].1@)));
        k += 1;
    }
    assert(files_view(v@).take(k as int) =~= files_view(v@));
    r
}

impl ModTree {
    fn emit_node_exec(&self, i: usize, fuel: usize, out: &mut String)
        requires
            tree_wf(self@),
            i < self@.names.len(),
        ensures
            final(out)@ == old(out)@ + emit_node(self@, i as int, fuel as nat),
        decreases fuel,
    {
        if fuel == 0 {
            assert(old(out)@ + emit_node(self@, i as int, fuel as nat) =~= old(out)@);
            return;
        }
        let ghost t = self@;
        let ghost start = out@;
        let cs = &self.children[i];
        assert(t.children[i as int] == cs@);
        let mut k: usize = 0;
        assert(cs@.take(0) =~= Seq::<usize>::empty());
        while k < cs.len()
            invariant
                t == self@,
                tree_wf(t),
                i < t.names.len(),
                t.children[i as int] == cs@,
                k <= cs@.len(),
                fuel > 0,
                out@ == start + emit_children(t, cs@.take(k as int), (fuel - 1) as nat),
            decreases cs@.len() - k,
        {
            let c = cs[k];
            assert(t.children[i as int][k as int] == c);
            assert(i < c < t.names.len());
            push_str(out, "pub mod ");
            push_str(out, self.names[c].as_str());
            push_str(out, " {\n");
            self.emit_node_exec(c, fuel - 1, out);
            push_str(out, "}\n");
            assert(cs@.take(k + 1).drop_last() =~= cs@.take(k as int));
            assert(cs@.take(k + 1).last() == c);
            assert(t.names[c as int] == self.names@[c as int]@);
            assert(out@ =~= start + emit_children(t, cs@.take(k + 1), (fuel - 1) as nat));
            k += 1;
        }
        assert(cs@.take(k as int) =~= cs@);
        let fs = &self.files[i];
        let ghost fv = files_view(fs@);
        assert(t.files[i as int] == fv);
        let ghost mid = out@;
        let mut q: usize = 0;
        assert(fv.take(0) =~= Seq::<(Seq<char>, Seq<char>)>::empty());
        while q < fs.len()
            invariant
                q <= fs@.len(),
                fv == files_view(fs@),
                out@ == mid + files_text(fv.take(q as int)),
            decreases fs@.len() - q,
        {
            push_str(out, "pub mod ");
            push_str(out, fs[q].0.as_str());
            push_str(out, " { include!(concat!(env!(\"TSRUST_OUT\"), \"/");
            push_str(out, fs[q].1.as_str());
            push_str(out, "\")); }\n");
            assert(fv.take(q + 1).drop_last() =~= fv.take(q as int));
            assert(fv.take(q + 1).last() == (fs@[q as int].0@, fs@[q as int].1@));
            assert(out@ =~= mid + files_text(fv.take(q + 1)));
            q += 1;
        }
        assert(fv.take(q as int) =~= fv);
        assert(out@ =~= start + emit_node(t, i as int, fuel as nat));
    }

    /// The module glue: a `pub mod` block per directory (in name order, nested)
    /// and, inside, one `pub mod` per file including the generated file.
    pub fn glue(&self) -> (r: String)
        requires
            tree_wf(self@),
        ensures
            r@ == spec_glue(self@),
    {
        let mut out = String::new();
        self.emit_node_exec(0, self.names.len(), &mut out);
        assert(out@ =~= spec_glue(self@));
        out
    }
}

/// The directory path, module name and generated path of one generated file.
pub open spec fn entries_view(v: Seq<(Vec<String>, String, String)>) -> Seq<(Seq<Seq<char>>, Seq<char>, Seq<char>)> {
    v.map_values(|e: (Vec<String>, String, String)| (strings_view(e.0@), e.1@, e.2@))
}

/// The glue for the generated files `entries` (directories, module name,
/// generated path): the glue of the tree that holds exactly these entries.
pub fn module_glue(entries: &Vec<(Vec<String>, String, String)>) -> (r: String)
    ensures
        exists|t: SpecTree|
            #![trigger spec_glue(t)]
            tree_of_entries(t, entries_view(entries@)) && r@ == spec_glue(t),
{
    let ghost ev = entries_view(entries@);
    let mut t = ModTree::new();
    let mut k: usize = 0;
    proof {
        assert forall|x: int| 0 <= x < t@.names.len() implies #[trigger] t@.files[x] == files_at(t@, ev.take(0), x) by {
            assert(t@.files[x] =~= Seq::<(Seq<char>, Seq<char>)>::empty());
        }
    }
    while k < entries.len()
        invariant
            k <= entries@.len(),
            ev == entries_view(entries@),
            tree_of_entries(t@, ev.take(k as int)),
        decreases entries@.len() - k,
    {
        let ghost t0 = t@;
        let ghost es0 = ev.take(k as int);
        let ghost es1 = ev.take(k + 1);
        let e = &entries[k];
        assert(ev[k as int] == (strings_view(e.0@), e.1@, e.2@));
        t.add_file(&e.0, copy_string(&e.1), copy_string(&e.2));
        proof {
            let dv = strings_view(e.0@);
            let f = (e.1@, e.2@);
            let px = choose|x: int| #[trigger] placed(t@, t0, dv, x, f);
            assert(placed(t@, t0, dv, px, f));
            assert(es1 =~= es0.push(ev[k as int]));
            assert(es1.drop_last() =~= es0);
            // the old entries' directories lead where they did
            assert forall|j: int| 0 <= j < es0.len() implies node_at(t@, 0, #[trigger] es0[j].0) == node_at(t0, 0, es0[j].0)
                by {
                assert(node_at(t0, 0, es0[j].0) is Some);
            }
            lemma_files_at_ext(t0, t@, es0);
            assert forall|j: int| 0 <= j < es0.len() implies ((#[trigger] node_at(t0, 0, es0[j].0)) matches Some(z) && z
                < t0.names.len()) by {
                assert(node_at(t0, 0, es0[j].0) is Some);
                lemma_node_at_bounds(t0, 0, es0[j].0);
            }
            assert forall|j: int| 0 <= j < es1.len() implies node_at(t@, 0, #[trigger] es1[j].0) is Some by {
                if j < k {
                    assert(es1[j] == es0[j]);
                } else {
                    assert(es1[j].0 == dv);
                }
            }
            assert forall|x: int| 0 <= x < t@.names.len() implies #[trigger] t@.files[x] == files_at(t@, es1, x) by {
                assert(files_at(t@, es1, x) == files_at(t@, es0, x).push(f) || files_at(t@, es1, x) == files_at(
                    t@,
                    es0,
                    x,
                ));
                if x < t0.names.len() {
                    assert(t0.files[x] == files_at(t0, es0, x));
                } else {
                    lemma_files_at_beyond(t0, es0, x);
                }
                if x == px {
                    assert(files_at(t@, es1, x) == files_at(t@, es0, x).push(f));
                } else {
                    assert(files_at(t@, es1, x) == files_at(t@, es0, x));
                }
            }
            assert forall|y: int| 0 < y < t@.names.len() implies #[trigger] on_some_path(t@, es1, y) by {
                if y < t0.names.len() {
                    assert(on_some_path(t0, es0, y));
                    let (kk, n) = choose|kk: int, n: int| #[trigger] on_path(t0, es0, y, kk, n);
                    assert(es1[kk] == es0[kk]);
                    assert(node_at(t0, 0, es0[kk].0.take(n)) is Some);
                    assert(node_at(t@, 0, es1[kk].0.take(n)) == Some(y));
                    assert(on_path(t@, es1, y, kk, n));
                } else {
                    assert(on_dirs(t@, dv, e.0@.len() as int, y));
                    let n = choose|n: int| 0 <= n <= e.0@.len() && #[trigger] node_at(t@, 0, dv.take(n)) == Some(y);
                    assert(es1[k as int].0 == dv);
                    assert(on_path(t@, es1, y, k as int, n));
                }
            }
        }
        k += 1;
    }
    assert(ev.take(k as int) =~= ev);
    let r = t.glue();
    r
}

/// Entries whose directories lead to the same nodes in two trees put the same
/// files in each node.
proof fn lemma_files_at_ext(t0: SpecTree, t1: SpecTree, es: Seq<(Seq<Seq<char>>, Seq<char>, Seq<char>)>)
    requires
        forall|j: int| 0 <= j < es.len() ==> node_at(t1, 0, #[trigger] es[j].0) == node_at(t0, 0, es[j].0),
    ensures
        forall|x: int| #[trigger] files_at(t1, es, x) == files_at(t0, es, x),
    decreases es.len(),
{
    if es.len() > 0 {
        let p = es.drop_last();
        assert forall|j: int| 0 <= j < p.len() implies node_at(t1, 0, #[trigger] p[j].0) == node_at(t0, 0, p[j].0) by {
            assert(p[j] == es[j]);
        }
        lemma_files_at_ext(t0, t1, p);
        assert(es.last() == es[es.len() - 1]);
        assert(node_at(t1, 0, es[es.len() - 1].0) == node_at(t0, 0, es[es.len() - 1].0));
        assert forall|x: int| #[trigger] files_at(t1, es, x) == files_at(t0, es, x) by {
            assert(files_at(t1, p, x) == files_at(t0, p, x));
        }
    }
}

/// No entry puts a file in a node beyond those its directories lead to.
proof fn lemma_files_at_beyond(t: SpecTree, es: Seq<(Seq<Seq<char>>, Seq<char>, Seq<char>)>, x: int)
    requires
        x >= t.names.len(),
        forall|j: int| 0 <= j < es.len() ==> ((#[trigger] node_at(t, 0, es[j].0)) matches Some(z) && z < t.names.len()),
    ensures
        files_at(t, es, x) == Seq::<(Seq<char>, Seq<char>)>::empty(),
    decreases es.len(),
{
    if es.len() > 0 {
        let p = es.drop_last();
        assert forall|j: int| 0 <= j < p.len() implies ((#[trigger] node_at(t, 0, p[j].0)) matches Some(z) && z
            < t.names.len()) by {
            assert(p[j] == es[j]);
        }
        lemma_files_at_beyond(t, p, x);
        assert(es.last() == es[es.len() - 1]);
    }
}

proof fn lemma_node_at_bounds(t: SpecTree, i: int, a: Seq<Seq<char>>)
    requires
        tree_wf(t),
        0 <= i < t.names.len(),
    ensures
        node_at(t, i, a) matches Some(x) ==> 0 <= x < t.names.len(),
    decreases a.len(),
{
    if a.len() > 0 {
        if exists|k: int| is_child_named(t, i, a[0], k) {
            let k = child_pos(t, i, a[0]);
            assert(is_child_named(t, i, a[0], k));
            lemma_node_at_bounds(t, t.children[i][k] as int, a.drop_first());
        }
    }
}

proof fn lemma_unique_child_spec(t: SpecTree, cur: int, j: int, d: Seq<char>)
    requires
        tree_wf(t),
        0 <= cur < t.names.len(),
        0 <= j < t.children[cur].len(),
        t.names[t.children[cur][j] as int] == d,
    ensures
        child_named(t, cur, d) == Some(t.children[cur][j] as int),
{
    assert(is_child_named(t, cur, d, j));
    let k = child_pos(t, cur, d);
    assert(is_child_named(t, cur, d, k));
    if k != j {
        lemma_seq_lt_total(d, d);
        if k < j {
            assert(seq_lt(t.names[t.children[cur][k] as int], t.names[t.children[cur][j] as int]));
        } else {
            assert(seq_lt(t.names[t.children[cur][j] as int], t.names[t.children[cur][k] as int]));
        }
    }
}

proof fn lemma_child_map(t0: SpecTree, t1: SpecTree, cur: int, jp: int, n: int, i: int, a: int)
    requires
        tree_wf(t0),
        n == t0.names.len(),
        n <= usize::MAX,
        0 <= cur < n,
        0 <= jp <= t0.children[cur].len(),
        t1.children.len() == n + 1,
        t1.children[cur] == t0.children[cur].insert(jp, n as usize),
        t1.children[n] == Seq::<usize>::empty(),
        forall|i2: int| 0 <= i2 < n && i2 != cur ==> t1.children[i2] == t0.children[i2],
        0 <= i < t1.children.len(),
        0 <= a < t1.children[i].len(),
    ensures
        0 <= i < n,
        i == cur && a == jp ==> t1.children[i][a] == n,
        !(i == cur && a == jp) ==> ({
            let ai = if i == cur && a > jp { a - 1 } else { a };
            &&& 0 <= ai < t0.children[i].len()
            &&& t1.children[i][a] == t0.children[i][ai]
            &&& t0.children[i][ai] < n
        }),
{
    if i == n {
        assert(t1.children[i].len() == 0);
    }
    if i != cur {
        assert(t1.children[i] == t0.children[i]);
        assert(t0.children[i][a] < n);
    } else if a < jp {
        assert(t1.children[i][a] == t0.children[i][a]);
        assert(t0.children[i][a] < n);
    } else if a > jp {
        assert(t1.children[i][a] == t0.children[i][a - 1]);
        assert(t0.children[i][a - 1] < n);
    }
}

proof fn lemma_insert_child_unique(t0: SpecTree, t1: SpecTree, cur: int, jp: int, n: int)
    requires
        tree_wf(t0),
        unique_parents(t0),
        n == t0.names.len(),
        n <= usize::MAX,
        0 <= cur < n,
        0 <= jp <= t0.children[cur].len(),
        t1.children.len() == n + 1,
        t1.children[cur] == t0.children[cur].insert(jp, n as usize),
        t1.children[n] == Seq::<usize>::empty(),
        forall|i: int| 0 <= i < n && i != cur ==> t1.children[i] == t0.children[i],
    ensures
        unique_parents(t1),
{
    assert forall|i: int, a: int, j: int, b: int|
        0 <= i < t1.children.len() && 0 <= a < t1.children[i].len() && 0 <= j < t1.children.len() && 0 <= b
            < t1.children[j].len() && #[trigger] t1.children[i][a] == #[trigger] t1.children[j][b] implies i == j && a
            == b by {
        lemma_child_map(t0, t1, cur, jp, n, i, a);
        lemma_child_map(t0, t1, cur, jp, n, j, b);
        if !(i == cur && a == jp) && !(j == cur && b == jp) {
            let ai = if i == cur && a > jp { a - 1 } else { a };
            let bj = if j == cur && b > jp { b - 1 } else { b };
            assert(t0.children[i][ai] == t0.children[j][bj]);
        }
    }
}

proof fn lemma_node_at_step(t: SpecTree, i: int, a: Seq<Seq<char>>, d: Seq<char>)
    ensures
        node_at(t, i, a.push(d)) == match node_at(t, i, a) {
            Some(j) => child_named(t, j, d),
            None => None,
        },
    decreases a.len(),
{
    reveal_with_fuel(node_at, 2);
    if a.len() == 0 {
        assert(a.push(d).drop_first() =~= Seq::<Seq<char>>::empty());
    } else {
        assert(a.push(d).drop_first() =~= a.drop_first().push(d));
        assert(a.push(d)[0] == a[0]);
        match child_named(t, i, a[0]) {
            Some(c) => {
                lemma_node_at_step(t, c, a.drop_first(), d);
            },
            None => {},
        }
    }
}

proof fn lemma_node_at_kept(t0: SpecTree, t1: SpecTree, i: int, a: Seq<Seq<char>>)
    requires
        tree_wf(t0),
        0 <= i < t0.names.len(),
        node_at(t0, i, a) is Some,
        forall|i2: int, e: Seq<char>|
            0 <= i2 < t0.names.len() && #[trigger] child_named(t0, i2, e) is Some ==> child_named(t1, i2, e) == child_named(
                t0,
                i2,
                e,
            ),
    ensures
        node_at(t1, i, a) == node_at(t0, i, a),
    decreases a.len(),
{
    if a.len() > 0 {
        let c = child_named(t0, i, a[0]).unwrap();
        let k = child_pos(t0, i, a[0]);
        assert(is_child_named(t0, i, a[0], k));
        assert(c == t0.children[i][k]);
        lemma_node_at_kept(t0, t1, c, a.drop_first());
    }
}

proof fn lemma_node_at_same_shape(t0: SpecTree, t1: SpecTree, i: int, a: Seq<Seq<char>>)
    requires
        tree_wf(t0),
        tree_wf(t1),
        t1.names == t0.names,
        t1.children == t0.children,
        0 <= i < t0.names.len(),
    ensures
        node_at(t1, i, a) == node_at(t0, i, a),
    decreases a.len(),
{
    if a.len() > 0 {
        let d = a[0];
        if exists|k: int| is_child_named(t0, i, d, k) {
            let k = child_pos(t0, i, d);
            assert(is_child_named(t0, i, d, k));
            assert(is_child_named(t1, i, d, k));
            lemma_unique_child_spec(t0, i, k, d);
            lemma_unique_child_spec(t1, i, k, d);
            let c = t0.children[i][k] as int;
            lemma_node_at_same_shape(t0, t1, c, a.drop_first());
        } else {
            assert(!exists|k: int| is_child_named(t1, i, d, k)) by {
                if exists|k: int| is_child_named(t1, i, d, k) {
                    let k = choose|k: int| is_child_named(t1, i, d, k);
                    assert(is_child_named(t0, i, d, k));
                }
            }
        }
    }
}

} // verus!
