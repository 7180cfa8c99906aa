//! The hierarchical folder-selection model.
//!
//! Mirrors the daemon's remote folder tree with per-node selection state.
//! The tree is lazily materialized: a fetch yields the root level only, each
//! node keeping its known child descriptors unexpanded; expanding a node
//! turns them into live nodes seeded with the node's selection value at that
//! moment.  Toggling a node propagates its new value to every materialized
//! descendant and leaves ancestors untouched: each selected path is an
//! independent entry in the daemon's selected-folders list, not a cover of
//! its subtree.  Only materialized nodes contribute paths; an unexpanded
//! subtree cannot, which is the accepted lazy-loading behavior.
//!
//! Nodes live in one vector, children strictly after their parent, so a
//! parent index is always smaller than its child's.

use vstd::prelude::*;

verus! {

/// One not-yet-materialized folder descriptor, as parsed from the daemon's
/// remote tree.
pub struct FolderDesc {
    pub name: Vec<u8>,
    pub path: Vec<u8>,
    pub children: Vec<FolderDesc>,
}

/// The mathematical form of a folder descriptor.
pub struct DescV {
    pub name: Seq<u8>,
    pub path: Seq<u8>,
    pub children: Seq<DescV>,
}

impl FolderDesc {
    /// The mathematical form of this descriptor.
    pub open spec fn dv(&self) -> DescV
        decreases self,
    {
        DescV { name: self.name@, path: self.path@, children: descs_view(self.children@) }
    }
}

/// The mathematical form of a descriptor list.
pub open spec fn descs_view(s: Seq<FolderDesc>) -> Seq<DescV>
    decreases s,
{
    Seq::new(
        s.len(),
        |k: int|
            if 0 <= k < s.len() {
                s[k].dv()
            } else {
                DescV { name: Seq::empty(), path: Seq::empty(), children: Seq::empty() }
            },
    )
}

/// Looking a member up never yields a larger value than the object itself.
proof fn lemma_lookup_members_decreases(ms: Seq<(Seq<u8>, crate::json::JsonV)>, key: Seq<u8>)
    ensures
        crate::json::spec_lookup_members(ms, key) matches Some(x) ==> (decreases_to!(ms => x)),
    decreases ms.len(),
{
    if ms.len() > 0 {
        if ms[0].0 == key {
            assert(decreases_to!(ms => ms[0]));
            assert(decreases_to!(ms[0] => ms[0].1));
        } else {
            lemma_lookup_members_decreases(ms.drop_first(), key);
            assert(decreases_to!(ms => ms.drop_first()));
        }
    }
}

proof fn lemma_lookup_decreases(v: crate::json::JsonV, key: Seq<u8>)
    ensures
        crate::json::spec_lookup(v, key) matches Some(x) ==> (decreases_to!(v => x)),
{
    match v {
        crate::json::JsonV::Obj(ms) => {
            lemma_lookup_members_decreases(ms, key);
            assert(decreases_to!(v => ms));
        },
        _ => {},
    }
}

/// What one JSON value reads as: a descriptor exactly when `name` and
/// `path` are present as strings and `children`, if present, is an array of
/// descriptors; a missing `children` reads as no children.
pub open spec fn spec_folder_of(v: crate::json::JsonV) -> Option<DescV>
    decreases v, 1int,
    via spec_folder_of_decreases
{
    match (
        crate::json::spec_str_field(v, crate::bytes::ascii_bytes("name"@)),
        crate::json::spec_str_field(v, crate::bytes::ascii_bytes("path"@)),
    ) {
        (Some(n), Some(p)) => match crate::json::spec_lookup(
            v,
            crate::bytes::ascii_bytes("children"@),
        ) {
            Option::None => Some(DescV { name: n, path: p, children: Seq::empty() }),
            Option::Some(c) => match c {
                crate::json::JsonV::Arr(items) => match spec_folders_of(items) {
                    Some(ds) => Some(DescV { name: n, path: p, children: ds }),
                    None => None,
                },
                _ => None,
            },
        },
        _ => None,
    }
}

#[via_fn]
proof fn spec_folder_of_decreases(v: crate::json::JsonV) {
    lemma_lookup_decreases(v, crate::bytes::ascii_bytes("children"@));
}

/// What a list of JSON values reads as: all of them as descriptors, or
/// nothing when any one of them is not a descriptor.
pub open spec fn spec_folders_of(items: Seq<crate::json::JsonV>) -> Option<Seq<DescV>>
    decreases items, 0int,
{
    if items.len() == 0 {
        Some(Seq::empty())
    } else {
        match (spec_folder_of(items[0]), spec_folders_of(items.drop_first())) {
            (Some(d), Some(ds)) => Some(seq![d] + ds),
            _ => None,
        }
    }
}

/// What the daemon's remote-tree text reads as.  An array reads as the root
/// descriptors themselves; a single object reads as its children; anything
/// else — an unparsable text included — reads as no roots.  An array or
/// object whose content is not descriptor-shaped also reads as no roots.
pub open spec fn spec_folder_roots(s: Seq<u8>) -> Seq<DescV> {
    match crate::json::spec_parse_json(s) {
        Some(crate::json::JsonV::Arr(items)) => match spec_folders_of(items) {
            Some(ds) => ds,
            None => Seq::empty(),
        },
        Some(crate::json::JsonV::Obj(ms)) => match spec_folder_of(crate::json::JsonV::Obj(ms)) {
            Some(d) => d.children,
            None => Seq::empty(),
        },
        _ => Seq::empty(),
    }
}

/// Exec mirror of [`spec_folder_of`].
fn folder_of_json(v: &crate::json::Json) -> (r: Option<FolderDesc>)
    ensures
        match r {
            Some(d) => spec_folder_of(v@) == Some(d.dv()),
            None => spec_folder_of(v@) is None,
        },
    decreases *v, 1int,
{
    proof {
        reveal_strlit("name");
        reveal_strlit("path");
        reveal_strlit("children");
    }
    let name = match v.str_field(crate::bytes::str_bytes("name").as_slice()) {
        Some(x) => x,
        None => {
            return None;
        },
    };
    let path = match v.str_field(crate::bytes::str_bytes("path").as_slice()) {
        Some(x) => x,
        None => {
            return None;
        },
    };
    match v.get(crate::bytes::str_bytes("children").as_slice()) {
        None => {
            let kids: Vec<FolderDesc> = Vec::new();
            proof {
                assert(descs_view(kids@) =~= Seq::<DescV>::empty());
            }
            Some(FolderDesc { name, path, children: kids })
        },
        Some(c) => match c {
            crate::json::Json::Arr(items) => {
                proof {
                    crate::json::lemma_arr_view(items);
                    assert(decreases_to!(*c => *items));
                }
                match folders_of_json(items) {
                    Some(ds) => {
                        proof {
                            assert(c@ matches crate::json::JsonV::Arr(itv) && itv
                                == crate::json::items_view(items@));
                        }
                        Some(FolderDesc { name, path, children: ds })
                    },
                    None => None,
                }
            },
            _ => None,
        },
    }
}

/// Exec mirror of [`spec_folders_of`].
fn folders_of_json(items: &Vec<crate::json::Json>) -> (r: Option<Vec<FolderDesc>>)
    ensures
        match r {
            Some(ds) => spec_folders_of(crate::json::items_view(items@)) == Some(descs_view(ds@)),
            None => spec_folders_of(crate::json::items_view(items@)) is None,
        },
    decreases *items, 0int,
{
    let ghost iv = crate::json::items_view(items@);
    let mut out: Vec<FolderDesc> = Vec::new();
    proof {
        assert(iv.subrange(0, iv.len() as int) =~= iv);
        assert(descs_view(out@) =~= Seq::<DescV>::empty());
        assert(spec_folders_of(iv) == (match spec_folders_of(iv.subrange(0, iv.len() as int)) {
            Some(rest) => Some(descs_view(out@) + rest),
            None => None::<Seq<DescV>>,
        })) by {
            match spec_folders_of(iv) {
                Some(rest) => {
                    assert(descs_view(out@) + rest =~= rest);
                },
                None => {},
            }
        }
    }
    let mut k: usize = 0;
    while k < items.len()
        invariant
            k <= items@.len(),
            iv == crate::json::items_view(items@),
            spec_folders_of(iv) == (match spec_folders_of(iv.subrange(k as int, iv.len() as int)) {
                Some(rest) => Some(descs_view(out@) + rest),
                None => None::<Seq<DescV>>,
            }),
        decreases items@.len() - k,
    {
        let ghost rest_iv = iv.subrange(k as int, iv.len() as int);
        proof {
            assert(rest_iv[0] == iv[k as int]);
            assert(iv[k as int] == items@[k as int]@);
            assert(rest_iv.drop_first() =~= iv.subrange(k + 1 as int, iv.len() as int));
            assert(decreases_to!(*items => items@));
            assert(decreases_to!(items@ => items@[k as int]));
        }
        match folder_of_json(&items[k]) {
            Some(d) => {
                let ghost prior = descs_view(out@);
                let ghost dval = d.dv();
                out.push(d);
                proof {
                    assert(descs_view(out@) =~= prior.push(dval));
                    match spec_folders_of(iv.subrange(k + 1 as int, iv.len() as int)) {
                        Some(tail) => {
                            assert(prior + (seq![dval] + tail) =~= descs_view(out@) + tail);
                        },
                        None => {},
                    }
                }
            },
            None => {
                return None;
            },
        }
        k += 1;
    }
    proof {
        assert(iv.subrange(iv.len() as int, iv.len() as int) =~= Seq::<crate::json::JsonV>::empty());
        assert(descs_view(out@) + Seq::<DescV>::empty() =~= descs_view(out@));
    }
    Some(out)
}

/// Read the daemon's remote-tree text into root descriptors; see
/// [`spec_folder_roots`].
pub fn folder_roots_from_json(bytes: &[u8]) -> (r: Vec<FolderDesc>)
    ensures
        descs_view(r@) == spec_folder_roots(bytes@),
{
    let parsed = match crate::json::parse_json(bytes) {
        Some(p) => p,
        None => {
            let empty: Vec<FolderDesc> = Vec::new();
            assert(descs_view(empty@) =~= Seq::<DescV>::empty());
            return empty;
        },
    };
    match &parsed {
        crate::json::Json::Arr(items) => {
            proof {
                crate::json::lemma_arr_view(items);
            }
            match folders_of_json(items) {
                Some(ds) => ds,
                None => {
                    let empty: Vec<FolderDesc> = Vec::new();
                    assert(descs_view(empty@) =~= Seq::<DescV>::empty());
                    empty
                },
            }
        },
        crate::json::Json::Obj(members) => {
            proof {
                crate::json::lemma_obj_view(members);
            }
            match folder_of_json(&parsed) {
                Some(d) => d.children,
                None => {
                    let empty: Vec<FolderDesc> = Vec::new();
                    assert(descs_view(empty@) =~= Seq::<DescV>::empty());
                    empty
                },
            }
        },
        _ => {
            let empty: Vec<FolderDesc> = Vec::new();
            assert(descs_view(empty@) =~= Seq::<DescV>::empty());
            empty
        },
    }
}

/// One live (materialized) node of the tree.
pub struct FolderNode {
    pub name: Vec<u8>,
    /// Unique absolute identifier within the tree.
    pub path: Vec<u8>,
    /// Whether this path is in the selected-folders set.
    pub selected: bool,
    /// Index of the parent node; `None` for a root.
    pub parent: Option<usize>,
    /// Child descriptors not yet materialized; emptied on expansion.
    pub pending: Vec<FolderDesc>,
}

/// The model: all materialized nodes, parents before children.
pub struct FolderSelectionModel {
    pub nodes: Vec<FolderNode>,
}

/// Node `a` is a proper ancestor of node `d`, following parent links.
pub open spec fn ancestor_of(nodes: Seq<FolderNode>, a: int, d: int) -> bool
    decreases (if d >= 0 {
        d
    } else {
        0
    }),
{
    if 0 <= d < nodes.len() {
        match nodes[d].parent {
            Some(p) => if p < d {
                p == a || ancestor_of(nodes, a, p as int)
            } else {
                false
            },
            None => false,
        }
    } else {
        false
    }
}

/// The paths of all selected nodes, in node order.
pub open spec fn spec_selected_paths(nodes: Seq<FolderNode>) -> Seq<Seq<u8>>
    decreases nodes.len(),
{
    if nodes.len() == 0 {
        Seq::empty()
    } else if nodes.last().selected {
        spec_selected_paths(nodes.drop_last()).push(nodes.last().path@)
    } else {
        spec_selected_paths(nodes.drop_last())
    }
}

/// A path is reported exactly when some selected node carries it.
pub proof fn lemma_selected_paths_contains(nodes: Seq<FolderNode>, q: Seq<u8>)
    ensures
        spec_selected_paths(nodes).contains(q) <==> exists|j: int|
            0 <= j < nodes.len() && nodes[j].selected && nodes[j].path@ == q,
    decreases nodes.len(),
{
    if nodes.len() > 0 {
        let front = nodes.drop_last();
        lemma_selected_paths_contains(front, q);
        let r = spec_selected_paths(nodes);
        let rf = spec_selected_paths(front);
        if nodes.last().selected && nodes.last().path@ == q {
            assert(r.last() == q);
            assert(r.contains(q));
        }
        if rf.contains(q) {
            let k = choose|k: int| 0 <= k < rf.len() && rf[k] == q;
            assert(r[k] == q);
            assert(r.contains(q));
        }
        if r.contains(q) && !(nodes.last().selected && nodes.last().path@ == q) {
            let k = choose|k: int| 0 <= k < r.len() && r[k] == q;
            assert(k < rf.len());
            assert(rf.contains(q));
        }
        if exists|j: int| 0 <= j < nodes.len() && nodes[j].selected && nodes[j].path@ == q {
            let j = choose|j: int| 0 <= j < nodes.len() && nodes[j].selected && nodes[j].path@
                == q;
            if j < nodes.len() - 1 {
                assert(front[j].selected && front[j].path@ == q);
            }
        }
        if exists|j: int| 0 <= j < front.len() && front[j].selected && front[j].path@ == q {
            let j = choose|j: int| 0 <= j < front.len() && front[j].selected && front[j].path@
                == q;
            assert(nodes[j].selected && nodes[j].path@ == q);
        }
    }
}

/// Membership of a path in a selected-folders list.
pub fn contains_path(list: &Vec<Vec<u8>>, p: &[u8]) -> (r: bool)
    ensures
        r == list.deep_view().contains(p@),
{
    broadcast use crate::bytes::lemma_bytes_deep_view;

    let ghost dv = list.deep_view();
    proof {
        assert(forall|k: int| 0 <= k < dv.len() ==> dv[k] == list@[k]@);
    }
    let mut i: usize = 0;
    while i < list.len()
        invariant
            i <= list@.len(),
            dv == list.deep_view(),
            forall|k: int| 0 <= k < dv.len() ==> dv[k] == list@[k]@,
            forall|k: int| 0 <= k < i ==> dv[k] != p@,
        decreases list@.len() - i,
    {
        if crate::bytes::bytes_eq(list[i].as_slice(), p) {
            assert(dv[i as int] == p@);
            assert(dv.contains(p@));
            return true;
        }
        i += 1;
    }
    assert(forall|k: int| 0 <= k < dv.len() ==> dv[k] != p@);
    false
}

impl FolderSelectionModel {
    /// Parents come strictly before their children.
    pub open spec fn wf(&self) -> bool {
        forall|j: int|
            0 <= j < self.nodes@.len() ==> match (#[trigger] self.nodes@[j]).parent {
                Some(p) => p < j,
                None => true,
            }
    }

    /// An empty model, shown while the remote tree has not been fetched.
    pub fn new() -> (r: FolderSelectionModel)
        ensures
            r.nodes@.len() == 0,
            r.wf(),
    {
        FolderSelectionModel { nodes: Vec::new() }
    }

    /// Build the model straight from the daemon's remote-tree text and the
    /// previously-persisted selected-folders list: the root level of
    /// [`spec_folder_roots`] materializes, each root selected exactly when
    /// its path is in the list.
    pub fn populate_from_json(bytes: &[u8], selected: &Vec<Vec<u8>>) -> (r: FolderSelectionModel)
        ensures
            r.wf(),
            ({
                let roots = spec_folder_roots(bytes@);
                &&& r.nodes@.len() == roots.len()
                &&& forall|j: int|
                    0 <= j < roots.len() ==> {
                        let c = #[trigger] r.nodes@[j];
                        &&& c.name@ == roots[j].name
                        &&& c.path@ == roots[j].path
                        &&& descs_view(c.pending@) == roots[j].children
                        &&& c.parent is None
                        &&& c.selected == selected.deep_view().contains(roots[j].path)
                    }
            }),
    {
        let roots_vec = folder_roots_from_json(bytes);
        let ghost rv = roots_vec@;
        let r = Self::from_roots(roots_vec, selected);
        proof {
            let roots = spec_folder_roots(bytes@);
            assert(descs_view(rv) == roots);
            assert forall|j: int| 0 <= j < roots.len() implies {
                let c = #[trigger] r.nodes@[j];
                &&& c.name@ == roots[j].name
                &&& c.path@ == roots[j].path
                &&& descs_view(c.pending@) == roots[j].children
                &&& c.parent is None
                &&& c.selected == selected.deep_view().contains(roots[j].path)
            } by {
                assert(roots[j] == descs_view(rv)[j]);
                assert(descs_view(rv)[j] == rv[j].dv());
                assert(r.nodes@[j].pending == rv[j].children);
            }
        }
        r
    }

    /// Build the model from the fetched root descriptors, marking selected
    /// every root whose path is in the previously-persisted list.  Only the
    /// top level materializes; each root keeps its child descriptors for
    /// later expansion.
    pub fn from_roots(roots: Vec<FolderDesc>, selected: &Vec<Vec<u8>>) -> (r:
        FolderSelectionModel)
        ensures
            r.wf(),
            r.nodes@.len() == roots@.len(),
            forall|j: int|
                0 <= j < roots@.len() ==> {
                    let d = roots@[j];
                    let c = #[trigger] r.nodes@[j];
                    &&& c.name == d.name
                    &&& c.path == d.path
                    &&& c.pending == d.children
                    &&& c.parent is None
                    &&& c.selected == selected.deep_view().contains(d.path@)
                },
    {
        let ghost roots0 = roots@;
        let mut work = roots;
        let mut rev: Vec<FolderDesc> = Vec::new();
        while work.len() > 0
            invariant
                work@.len() + rev@.len() == roots0.len(),
                work@ == roots0.subrange(0, work@.len() as int),
                forall|k: int|
                    0 <= k < rev@.len() ==> rev@[k] == roots0[roots0.len() - 1 - k],
            decreases work@.len(),
        {
            let ghost wlen = work@.len();
            let d = work.pop().unwrap();
            proof {
                assert(d == roots0[wlen - 1]);
                assert(work@ =~= roots0.subrange(0, work@.len() as int));
            }
            rev.push(d);
        }
        let mut nodes: Vec<FolderNode> = Vec::new();
        while rev.len() > 0
            invariant
                nodes@.len() + rev@.len() == roots0.len(),
                forall|k: int|
                    0 <= k < rev@.len() ==> rev@[k] == roots0[roots0.len() - 1 - k],
                forall|j: int|
                    0 <= j < nodes@.len() ==> {
                        let d = roots0[j];
                        let c = #[trigger] nodes@[j];
                        &&& c.name == d.name
                        &&& c.path == d.path
                        &&& c.pending == d.children
                        &&& c.parent is None
                        &&& c.selected == selected.deep_view().contains(d.path@)
                    },
            decreases rev@.len(),
        {
            let d = rev.pop().unwrap();
            proof {
                assert(d == roots0[nodes@.len() as int]);
            }
            let sel = contains_path(selected, d.path.as_slice());
            nodes.push(
                FolderNode {
                    name: d.name,
                    path: d.path,
                    selected: sel,
                    parent: None,
                    pending: d.children,
                },
            );
        }
        FolderSelectionModel { nodes }
    }

    /// How many nodes are materialized.
    pub fn node_count(&self) -> (n: usize)
        ensures
            n == self.nodes@.len(),
    {
        self.nodes.len()
    }

    /// Whether node `i` is selected.
    pub fn is_selected(&self, i: usize) -> (r: bool)
        requires
            i < self.nodes@.len(),
        ensures
            r == self.nodes@[i as int].selected,
    {
        self.nodes[i].selected
    }

    /// The path of node `i`.
    pub fn path_of(&self, i: usize) -> (r: &Vec<u8>)
        requires
            i < self.nodes@.len(),
        ensures
            r == self.nodes@[i as int].path,
    {
        &self.nodes[i].path
    }

    /// Re-apply a persisted selected-folders list: every materialized node
    /// becomes selected exactly when its path is in the list.
    pub fn reconcile_selection(&mut self, selected: &Vec<Vec<u8>>)
        requires
            old(self).wf(),
        ensures
            final(self).wf(),
            final(self).nodes@.len() == old(self).nodes@.len(),
            forall|j: int|
                0 <= j < old(self).nodes@.len() ==> {
                    let o = old(self).nodes@[j];
                    let c = #[trigger] final(self).nodes@[j];
                    &&& c.name == o.name
                    &&& c.path == o.path
                    &&& c.parent == o.parent
                    &&& c.pending == o.pending
                    &&& c.selected == selected.deep_view().contains(o.path@)
                },
    {
        let mut j: usize = 0;
        while j < self.nodes.len()
            invariant
                j <= self.nodes@.len(),
                self.nodes@.len() == old(self).nodes@.len(),
                forall|k: int| j <= k < self.nodes@.len() ==> self.nodes@[k] == old(self).nodes@[k],
                forall|k: int|
                    0 <= k < j ==> {
                        let o = old(self).nodes@[k];
                        let c = #[trigger] self.nodes@[k];
                        &&& c.name == o.name
                        &&& c.path == o.path
                        &&& c.parent == o.parent
                        &&& c.pending == o.pending
                        &&& c.selected == selected.deep_view().contains(o.path@)
                    },
            decreases self.nodes@.len() - j,
        {
            let sel = contains_path(selected, self.nodes[j].path.as_slice());
            self.nodes[j].selected = sel;
            j += 1;
        }
        proof {
            assert forall|k: int|
                0 <= k < self.nodes@.len() implies match (#[trigger] self.nodes@[k]).parent {
                Some(p) => p < k,
                None => true,
            } by {
                assert(self.nodes@[k].parent == old(self).nodes@[k].parent);
            }
        }
    }

    /// Materialize node `i`'s pending child descriptors, each seeded with
    /// `i`'s selection value as it is now — a child expanded after its
    /// parent was toggled inherits the later value.  Children are appended
    /// in descriptor order; the node's pending list empties.  Expanding a
    /// node without pending children changes nothing.
    pub fn expand(&mut self, i: usize)
        requires
            old(self).wf(),
            i < old(self).nodes@.len(),
        ensures
            final(self).wf(),
            ({
                let n = old(self).nodes@.len() as int;
                let o = old(self).nodes@[i as int];
                let m = o.pending@.len() as int;
                &&& final(self).nodes@.len() == n + m
                &&& forall|j: int|
                    0 <= j < n && j != i ==> final(self).nodes@[j] == old(self).nodes@[j]
                &&& ({
                    let c = final(self).nodes@[i as int];
                    &&& c.name == o.name
                    &&& c.path == o.path
                    &&& c.selected == o.selected
                    &&& c.parent == o.parent
                    &&& c.pending@.len() == 0
                })
                &&& forall|k: int|
                    0 <= k < m ==> {
                        let d = o.pending@[k];
                        let c = #[trigger] final(self).nodes@[n + k];
                        &&& c.name == d.name
                        &&& c.path == d.path
                        &&& c.pending == d.children
                        &&& c.parent == Some(i)
                        &&& c.selected == o.selected
                    }
            }),
    {
        let ghost o = old(self).nodes@[i as int];
        let ghost n = old(self).nodes@.len();
        let seed = self.nodes[i].selected;
        let mut work: Vec<FolderDesc> = Vec::new();
        core::mem::swap(&mut work, &mut self.nodes[i].pending);
        let ghost pending0 = work@;
        let mut rev: Vec<FolderDesc> = Vec::new();
        while work.len() > 0
            invariant
                work@.len() + rev@.len() == pending0.len(),
                work@ == pending0.subrange(0, work@.len() as int),
                forall|k: int|
                    0 <= k < rev@.len() ==> rev@[k] == pending0[pending0.len() - 1 - k],
            decreases work@.len(),
        {
            let ghost wlen = work@.len();
            let d = work.pop().unwrap();
            proof {
                assert(d == pending0[wlen - 1]);
                assert(work@ =~= pending0.subrange(0, work@.len() as int));
            }
            rev.push(d);
        }
        while rev.len() > 0
            invariant
                self.nodes@.len() + rev@.len() == n + pending0.len(),
                self.nodes@.len() >= n,
                n == old(self).nodes@.len(),
                pending0 == old(self).nodes@[i as int].pending@,
                i < n,
                forall|k: int|
                    0 <= k < rev@.len() ==> rev@[k] == pending0[pending0.len() - 1 - k],
                forall|j: int|
                    0 <= j < n && j != i ==> self.nodes@[j] == old(self).nodes@[j],
                ({
                    let c = self.nodes@[i as int];
                    let o2 = old(self).nodes@[i as int];
                    &&& c.name == o2.name
                    &&& c.path == o2.path
                    &&& c.selected == o2.selected
                    &&& c.parent == o2.parent
                    &&& c.pending@.len() == 0
                }),
                seed == old(self).nodes@[i as int].selected,
                forall|k: int|
                    0 <= k < self.nodes@.len() - n ==> {
                        let d = pending0[k];
                        let c = #[trigger] self.nodes@[n + k];
                        &&& c.name == d.name
                        &&& c.path == d.path
                        &&& c.pending == d.children
                        &&& c.parent == Some(i)
                        &&& c.selected == seed
                    },
            decreases rev@.len(),
        {
            let d = rev.pop().unwrap();
            proof {
                assert(d == pending0[self.nodes@.len() - n]);
            }
            self.nodes.push(
                FolderNode {
                    name: d.name,
                    path: d.path,
                    selected: seed,
                    parent: Some(i),
                    pending: d.children,
                },
            );
        }
        proof {
            assert forall|j: int|
                0 <= j < self.nodes@.len() implies match (#[trigger] self.nodes@[j]).parent {
                Some(p) => p < j,
                None => true,
            } by {
                if j < n && j != i {
                    assert(self.nodes@[j] == old(self).nodes@[j]);
                } else if j >= n {
                    let k = j - n;
                    assert(self.nodes@[n + k].parent == Some(i));
                }
            }
        }
    }

    /// Set node `i`'s selection to `v` and propagate the same value,
    /// unconditionally, to every materialized descendant of `i` — all
    /// levels, overriding prior per-node values.  Every other node,
    /// ancestors of `i` included, keeps its selection: toggling a child
    /// never changes a parent.
    pub fn toggle(&mut self, i: usize, v: bool)
        requires
            old(self).wf(),
            i < old(self).nodes@.len(),
        ensures
            final(self).wf(),
            final(self).nodes@.len() == old(self).nodes@.len(),
            forall|j: int|
                0 <= j < old(self).nodes@.len() ==> {
                    let o = old(self).nodes@[j];
                    let c = #[trigger] final(self).nodes@[j];
                    &&& c.name == o.name
                    &&& c.path == o.path
                    &&& c.parent == o.parent
                    &&& c.pending == o.pending
                    &&& c.selected == (if j == i || ancestor_of(old(self).nodes@, i as int, j) {
                        v
                    } else {
                        o.selected
                    })
                },
    {
        let ghost nodes0 = old(self).nodes@;
        let mut mark: Vec<bool> = Vec::new();
        let mut j: usize = 0;
        while j < self.nodes.len()
            invariant
                old(self).wf(),
                i < nodes0.len(),
                nodes0 == old(self).nodes@,
                j == mark@.len(),
                j <= self.nodes@.len(),
                self.nodes@.len() == nodes0.len(),
                forall|k: int| 0 <= k < j ==> mark@[k] == (k == i || ancestor_of(nodes0, i as int, k)),
                forall|k: int| j <= k < nodes0.len() ==> self.nodes@[k] == nodes0[k],
                forall|k: int|
                    0 <= k < j ==> {
                        let o = nodes0[k];
                        let c = #[trigger] self.nodes@[k];
                        &&& c.name == o.name
                        &&& c.path == o.path
                        &&& c.parent == o.parent
                        &&& c.pending == o.pending
                        &&& c.selected == (if k == i || ancestor_of(nodes0, i as int, k) {
                            v
                        } else {
                            o.selected
                        })
                    },
            decreases self.nodes@.len() - j,
        {
            let is_target = j == i;
            let from_parent = match self.nodes[j].parent {
                Some(p) => {
                    assert(self.nodes@[j as int].parent == nodes0[j as int].parent);
                    assert(p < j);
                    mark[p]
                },
                None => false,
            };
            let hit = is_target || from_parent;
            proof {
                assert(hit == (j == i || ancestor_of(nodes0, i as int, j as int)));
            }
            if hit {
                self.nodes[j].selected = v;
            }
            mark.push(hit);
            j += 1;
        }
        proof {
            assert forall|k: int|
                0 <= k < self.nodes@.len() implies match (#[trigger] self.nodes@[k]).parent {
                Some(p) => p < k,
                None => true,
            } by {
                assert(self.nodes@[k].parent == nodes0[k].parent);
            }
        }
    }

    /// The paths of every selected node, in node order — the set handed to
    /// the daemon after any toggle.  Unexpanded subtrees contribute nothing.
    pub fn selected_paths(&self) -> (r: Vec<Vec<u8>>)
        ensures
            r.deep_view() == spec_selected_paths(self.nodes@),
    {
        broadcast use crate::bytes::lemma_bytes_deep_view;

        let mut out: Vec<Vec<u8>> = Vec::new();
        proof {
            assert(self.nodes@.subrange(0, 0) =~= Seq::<FolderNode>::empty());
            assert(out.deep_view() =~= Seq::<Seq<u8>>::empty());
        }
        let mut j: usize = 0;
        while j < self.nodes.len()
            invariant
                j <= self.nodes@.len(),
                out.deep_view() == spec_selected_paths(self.nodes@.subrange(0, j as int)),
            decreases self.nodes@.len() - j,
        {
            let ghost before = out.deep_view();
            proof {
                assert(self.nodes@.subrange(0, j + 1 as int).drop_last() =~= self.nodes@.subrange(
                    0,
                    j as int,
                ));
                assert(self.nodes@.subrange(0, j + 1 as int).last() == self.nodes@[j as int]);
            }
            if self.nodes[j].selected {
                let ghost prior = out@;
                let p = crate::bytes::bytes_of(self.nodes[j].path.as_slice());
                out.push(p);
                proof {
                    crate::bytes::lemma_deep_view_push(out, before, prior, p);
                }
            }
            j += 1;
        }
        proof {
            assert(self.nodes@.subrange(0, self.nodes@.len() as int) =~= self.nodes@);
        }
        out
    }
}

/// Law: the reported selection, re-applied, reproduces itself.  When node
/// paths are distinct (each path identifies one node), marking every node
/// whose path is in the just-reported selected set restores exactly the
/// selection flags the set was computed from — the set/get round trip
/// through the daemon's selected-folders list is the identity while nothing
/// else writes it.
pub proof fn lemma_selection_roundtrip(nodes: Seq<FolderNode>)
    requires
        forall|a: int, b: int|
            0 <= a < b < nodes.len() ==> nodes[a].path@ != nodes[b].path@,
    ensures
        forall|j: int|
            0 <= j < nodes.len() ==> spec_selected_paths(nodes).contains(
                (#[trigger] nodes[j]).path@,
            ) == nodes[j].selected,
{
    assert forall|j: int|
        0 <= j < nodes.len() implies spec_selected_paths(nodes).contains(
        (#[trigger] nodes[j]).path@,
    ) == nodes[j].selected by {
        lemma_selected_paths_contains(nodes, nodes[j].path@);
        if spec_selected_paths(nodes).contains(nodes[j].path@) {
            let k = choose|k: int|
                0 <= k < nodes.len() && nodes[k].selected && nodes[k].path@ == nodes[j].path@;
            assert(k == j);
        }
    }
}

} // verus!
