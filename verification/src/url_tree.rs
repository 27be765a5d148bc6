//! A tree of the path components of URLs.

use vstd::prelude::*;
use crate::text::{
    chars_of, find_char, find_from, lemma_find_from_bounds, lemma_pieces_from_injective, pieces_from,
    substring,
};

verus! {

/// A tree of path components. Node 0 is the root `/`; each other node has a
/// name and a parent, and lists its children.
pub struct UrlTree {
    parts: Vec<String>,
    parent: Vec<Option<usize>>,
    children: Vec<Vec<usize>>,
}

/// A `UrlTree` as plain values.
pub struct UrlTreeView {
    pub parts: Seq<Seq<char>>,
    pub parent: Seq<Option<int>>,
    pub children: Seq<Seq<int>>,
}

impl View for UrlTree {
    type V = UrlTreeView;

    closed spec fn view(&self) -> UrlTreeView {
        UrlTreeView {
            parts: self.parts@.map_values(|s: String| s@),
            parent: self.parent@.map_values(
                |p: Option<usize>|
                    match p {
                        Some(i) => Some(i as int),
                        None => None,
                    },
            ),
            children: self.children@.map_values(|c: Vec<usize>| c@.map_values(|i: usize| i as int)),
        }
    }
}

impl UrlTreeView {
    /// Node 0 is the root, without a parent; every other node has a parent
    /// before it, and every child listed under a node has that node as parent.
    pub open spec fn wf(self) -> bool {
        &&& self.parts.len() >= 1
        &&& self.parent.len() == self.parts.len()
        &&& self.children.len() == self.parts.len()
        &&& self.parent[0] is None
        &&& forall|i: int| 1 <= i < self.parts.len() ==> (#[trigger] self.parent[i] matches Some(p) && 0 <= p < i)
        &&& forall|p: int, j: int|
            0 <= p < self.children.len() && 0 <= j < self.children[p].len() ==> {
                let c = #[trigger] self.children[p][j];
                1 <= c < self.parts.len() && self.parent[c] == Some(p)
            }
    }

    /// The first child of `node`, from the `j`-th of its list on, named `part`.
    pub open spec fn child_named_from(self, part: Seq<char>, node: int, j: int) -> Option<int>
        decreases self.children[node].len() - j,
    {
        if j < 0 || j >= self.children[node].len() {
            None
        } else if self.parts[self.children[node][j]] == part {
            Some(self.children[node][j])
        } else {
            self.child_named_from(part, node, j + 1)
        }
    }

    /// The first child of `node` named `part`.
    pub open spec fn child_named(self, part: Seq<char>, node: int) -> Option<int> {
        self.child_named_from(part, node, 0)
    }

    /// The tree with a new node `part` under `node`, without children.
    pub open spec fn push_node(self, part: Seq<char>, node: int) -> UrlTreeView {
        UrlTreeView {
            parts: self.parts.push(part),
            parent: self.parent.push(Some(node)),
            children: self.children.push(Seq::empty()),
        }
    }

    /// One component `part` of a path, from `node`: the child of that name
    /// where there is one, else a new child.
    pub open spec fn step(self, part: Seq<char>, node: int) -> (UrlTreeView, int) {
        match self.child_named(part, node) {
            Some(c) => (self, c),
            None => (self.push_node(part, node), self.parts.len() as int),
        }
    }

    /// The components of `path` from index `from` on (split at `/`), followed
    /// from `node`: the tree after and the node reached.
    pub open spec fn walk(self, path: Seq<char>, from: int, node: int) -> (UrlTreeView, int)
        decreases path.len() - from,
    {
        if from < 0 || from > path.len() {
            (self, node)
        } else {
            let e = find_from(path, '/', from);
            proof {
                lemma_find_from_bounds(path, '/', from);
            }
            let (t2, n2) = self.step(path.subrange(from, e), node);
            if e >= path.len() {
                (t2, n2)
            } else {
                t2.walk(path, e + 1, n2)
            }
        }
    }
}

/// The path of a URL: what comes before its first `?`.
pub open spec fn url_path(url: Seq<char>) -> Seq<char> {
    url.take(find_from(url, '?', 0))
}

/// What `add` makes of `url`: the components of its path after the first `/`,
/// followed from the root.
pub open spec fn add_url(t: UrlTreeView, url: Seq<char>) -> (UrlTreeView, int) {
    let path = url_path(url);
    let f = find_from(path, '/', 0);
    if f >= path.len() {
        (t, 0)
    } else {
        t.walk(path, f + 1, 0)
    }
}

impl UrlTree {
    /// A tree of the root alone.
    pub fn new() -> (r: UrlTree)
        ensures
            r@.wf(),
            r@.parts == seq!["/"@],
            r@.parent == seq![None::<int>],
            r@.children == seq![Seq::<int>::empty()],
            r@.no_children(),
    {
        let mut parts: Vec<String> = Vec::new();
        parts.push("/".to_owned());
        let mut parent: Vec<Option<usize>> = Vec::new();
        parent.push(None);
        let mut children: Vec<Vec<usize>> = Vec::new();
        children.push(Vec::new());
        let r = UrlTree { parts, parent, children };
        assert(r@.parts =~= seq!["/"@]);
        assert(r@.parent =~= seq![None::<int>]);
        assert(r.children@[0]@.map_values(|i: usize| i as int) =~= Seq::<int>::empty());
        assert(r@.children =~= seq![Seq::<int>::empty()]);
        r
    }

    /// Adds the path of `url` (before its `?`), component by component after
    /// its first `/`: a component goes under a child of the same name where
    /// one is listed, else under a new node. No node is ever listed as a
    /// child (`children` stays empty), so each component gets a new node,
    /// also where an earlier URL had the same path. Returns the node of the
    /// last component (the root where there is none).
    pub fn add(&mut self, url: &str) -> (r: usize)
        requires
            old(self)@.wf(),
        ensures
            final(self)@.wf(),
            (final(self)@, r as int) == add_url(old(self)@, url@),
    {
        let uc = chars_of(url);
        let q = find_char(&uc, '?', 0);
        let path = substring(url, 0, q);
        let pc = chars_of(path.as_str());
        assert(pc@ == url_path(url@));
        let f = find_char(&pc, '/', 0);
        if f >= pc.len() {
            return 0;
        }
        let mut from = f + 1;
        let mut node: usize = 0;
        loop
            invariant
                self@.wf(),
                pc@ == path@,
                node < self@.parts.len(),
                from <= pc@.len(),
                self@.walk(pc@, from as int, node as int) == add_url(old(self)@, url@),
            decreases pc@.len() - from,
        {
            let e = find_char(&pc, '/', from);
            let part = substring(path.as_str(), from, e);
            let ghost before = self@;
            match self.find_child(&part, node) {
                Some(c) => {
                    node = c;
                },
                None => {
                    let key = self.parts.len();
                    self.parts.push(part);
                    self.parent.push(Some(node));
                    self.children.push(Vec::new());
                    proof {
                        assert(self@.parts =~= before.parts.push(part@));
                        assert(self@.parent =~= before.parent.push(Some(node as int)));
                        assert(self.children@.last()@.map_values(|i: usize| i as int)
                            =~= Seq::<int>::empty());
                        assert(self@.children =~= before.children.push(Seq::empty()));
                        assert(self@ == before.push_node(part@, node as int));
                    }
                    node = key;
                },
            }
            if e >= pc.len() {
                return node;
            }
            from = e + 1;
        }
    }

    /// The first child of `parent` named `part`.
    fn find_child(&self, part: &String, parent: usize) -> (r: Option<usize>)
        requires
            self@.wf(),
            parent < self@.parts.len(),
        ensures
            match r {
                Some(c) => self@.child_named(part@, parent as int) == Some(c as int),
                None => self@.child_named(part@, parent as int) is None,
            },
            r matches Some(c) ==> c < self@.parts.len(),
    {
        let kids = &self.children[parent];
        assert(self@.children[parent as int] == kids@.map_values(|i: usize| i as int));
        let mut j: usize = 0;
        while j < kids.len()
            invariant
                self@.wf(),
                parent < self@.parts.len(),
                self@.children[parent as int] == kids@.map_values(|i: usize| i as int),
                j <= kids@.len(),
                self@.child_named(part@, parent as int) == self@.child_named_from(
                    part@,
                    parent as int,
                    j as int,
                ),
            decreases kids@.len() - j,
        {
            let c = kids[j];
            assert(self@.children[parent as int][j as int] == c as int);
            assert(self.parts@.len() == self@.parts.len());
            assert(self@.parts[c as int] == self.parts@[c as int]@);
            if self.parts[c] == *part {
                return Some(c);
            }
            j = j + 1;
        }
        None
    }
}

// ---------------------------------------------------------------- laws

impl UrlTreeView {
    /// The names on the way from the root down to node `n` (the root's own
    /// name left out).
    pub open spec fn path_to(self, n: int) -> Seq<Seq<char>>
        decreases n,
    {
        if n <= 0 || n >= self.parts.len() {
            Seq::empty()
        } else {
            match self.parent[n] {
                Some(p) => if 0 <= p < n {
                    self.path_to(p).push(self.parts[n])
                } else {
                    Seq::empty()
                },
                None => Seq::empty(),
            }
        }
    }

    /// `self` holds the nodes of `t`, unchanged, and maybe more after them.
    pub open spec fn extends(self, t: UrlTreeView) -> bool {
        &&& t.parts.len() <= self.parts.len()
        &&& t.parent.len() <= self.parent.len()
        &&& self.parts.take(t.parts.len() as int) == t.parts
        &&& self.parent.take(t.parent.len() as int) == t.parent
    }
}

/// The components of the path of `url` that `add` follows: the pieces
/// between its `/`, after the first `/`.
pub open spec fn url_components(url: Seq<char>) -> Seq<Seq<char>> {
    let path = url_path(url);
    let f = find_from(path, '/', 0);
    if f >= path.len() {
        Seq::empty()
    } else {
        pieces_from(path, '/', f + 1)
    }
}

proof fn lemma_path_to_extends(t2: UrlTreeView, t: UrlTreeView, n: int)
    requires
        t.wf(),
        t2.extends(t),
        0 <= n < t.parts.len(),
    ensures
        t2.path_to(n) == t.path_to(n),
    decreases n,
{
    assert(t2.parts[n] == t.parts.take(t.parts.len() as int)[n]);
    assert(t2.parent[n] == t2.parent.take(t.parent.len() as int)[n]);
    if n > 0 {
        let p = t.parent[n]->0;
        lemma_path_to_extends(t2, t, p);
    }
}

proof fn lemma_child_named(t: UrlTreeView, part: Seq<char>, node: int, j: int)
    requires
        t.wf(),
        0 <= node < t.parts.len(),
        0 <= j,
    ensures
        t.child_named_from(part, node, j) matches Some(c) ==> 1 <= c < t.parts.len() && t.parent[c]
            == Some(node) && t.parts[c] == part,
    decreases t.children[node].len() - j,
{
    if j < t.children[node].len() && t.parts[t.children[node][j]] != part {
        lemma_child_named(t, part, node, j + 1);
    }
}

proof fn lemma_step(t: UrlTreeView, part: Seq<char>, node: int)
    requires
        t.wf(),
        0 <= node < t.parts.len(),
    ensures
        t.step(part, node).0.wf(),
        t.step(part, node).0.extends(t),
        0 <= t.step(part, node).1 < t.step(part, node).0.parts.len(),
        t.step(part, node).0.path_to(t.step(part, node).1) == t.path_to(node).push(part),
{
    lemma_child_named(t, part, node, 0);
    match t.child_named(part, node) {
        Some(c) => {
            assert(t.parts.take(t.parts.len() as int) =~= t.parts);
            assert(t.parent.take(t.parent.len() as int) =~= t.parent);
        },
        None => {
            let t1 = t.push_node(part, node);
            assert(t1.parts.take(t.parts.len() as int) =~= t.parts);
            assert(t1.parent.take(t.parent.len() as int) =~= t.parent);
            assert forall|p: int, j: int|
                0 <= p < t1.children.len() && 0 <= j < t1.children[p].len() implies {
                let c = #[trigger] t1.children[p][j];
                1 <= c < t1.parts.len() && t1.parent[c] == Some(p)
            } by {
                assert(p < t.children.len());
                assert(t1.children[p] == t.children[p]);
            }
            assert(t1.wf());
            lemma_path_to_extends(t1, t, node);
        },
    }
}

proof fn lemma_walk(t: UrlTreeView, path: Seq<char>, from: int, node: int)
    requires
        t.wf(),
        0 <= node < t.parts.len(),
        0 <= from <= path.len(),
    ensures
        t.walk(path, from, node).0.wf(),
        t.walk(path, from, node).0.extends(t),
        0 <= t.walk(path, from, node).1 < t.walk(path, from, node).0.parts.len(),
        t.walk(path, from, node).0.path_to(t.walk(path, from, node).1) == t.path_to(node)
            + pieces_from(path, '/', from),
    decreases path.len() - from,
{
    lemma_find_from_bounds(path, '/', from);
    let e = find_from(path, '/', from);
    let part = path.subrange(from, e);
    lemma_step(t, part, node);
    let (t1, c) = t.step(part, node);
    if e >= path.len() {
        assert(pieces_from(path, '/', from) == seq![part]);
        assert(t.path_to(node).push(part) =~= t.path_to(node) + seq![part]);
    } else {
        lemma_walk(t1, path, e + 1, c);
        let (t2, n2) = t1.walk(path, e + 1, c);
        assert(pieces_from(path, '/', from) == seq![part] + pieces_from(path, '/', e + 1));
        assert(t.path_to(node).push(part) + pieces_from(path, '/', e + 1) =~= t.path_to(node) + (
        seq![part] + pieces_from(path, '/', e + 1)));
        assert(t2.parts.take(t.parts.len() as int) =~= t2.parts.take(t1.parts.len() as int).take(
            t.parts.len() as int,
        ));
        assert(t2.parent.take(t.parent.len() as int) =~= t2.parent.take(
            t1.parent.len() as int,
        ).take(t.parent.len() as int));
    }
}

/// `add` reaches the node whose path from the root is the components of the
/// URL's path, and it leaves every node that was there as it was.
pub proof fn lemma_add_path(t: UrlTreeView, url: Seq<char>)
    requires
        t.wf(),
    ensures
        add_url(t, url).0.wf(),
        add_url(t, url).0.extends(t),
        0 <= add_url(t, url).1 < add_url(t, url).0.parts.len(),
        add_url(t, url).0.path_to(add_url(t, url).1) == url_components(url),
{
    let path = url_path(url);
    lemma_find_from_bounds(url, '?', 0);
    lemma_find_from_bounds(path, '/', 0);
    let f = find_from(path, '/', 0);
    if f >= path.len() {
        assert(t.parts.take(t.parts.len() as int) =~= t.parts);
        assert(t.parent.take(t.parent.len() as int) =~= t.parent);
    } else {
        lemma_walk(t, path, f + 1, 0);
        assert(t.path_to(0) + pieces_from(path, '/', f + 1) =~= pieces_from(path, '/', f + 1));
    }
}

/// Of paths that start with `/`, the components give the path back.
proof fn lemma_url_components_injective(u1: Seq<char>, u2: Seq<char>)
    requires
        url_path(u1).len() > 0 && url_path(u1)[0] == '/',
        url_path(u2).len() > 0 && url_path(u2)[0] == '/',
        url_components(u1) == url_components(u2),
    ensures
        url_path(u1) == url_path(u2),
{
    let p1 = url_path(u1);
    let p2 = url_path(u2);
    lemma_find_from_bounds(u1, '?', 0);
    lemma_find_from_bounds(u2, '?', 0);
    assert(find_from(p1, '/', 0) == 0);
    assert(find_from(p2, '/', 0) == 0);
    lemma_pieces_from_injective(p1, p2, '/', 1, 1);
    assert(p1 =~= seq![p1[0]] + p1.skip(1));
    assert(p2 =~= seq![p2[0]] + p2.skip(1));
}

/// Two URLs whose paths differ, and start with `/`, added one after the
/// other, are given two different nodes.
pub proof fn lemma_distinct_paths_distinct_nodes(t: UrlTreeView, u1: Seq<char>, u2: Seq<char>)
    requires
        t.wf(),
        url_path(u1).len() > 0 && url_path(u1)[0] == '/',
        url_path(u2).len() > 0 && url_path(u2)[0] == '/',
        url_path(u1) != url_path(u2),
    ensures
        add_url(t, u1).1 != add_url(add_url(t, u1).0, u2).1,
{
    let (t1, i) = add_url(t, u1);
    lemma_add_path(t, u1);
    lemma_add_path(t1, u2);
    let (t2, j) = add_url(t1, u2);
    lemma_path_to_extends(t2, t1, i);
    if i == j {
        lemma_url_components_injective(u1, u2);
    }
}

impl UrlTreeView {
    /// No node lists a child.
    pub open spec fn no_children(self) -> bool {
        forall|p: int| 0 <= p < self.children.len() ==> (#[trigger] self.children[p]).len() == 0
    }
}

proof fn lemma_walk_fresh(t: UrlTreeView, path: Seq<char>, from: int, node: int)
    requires
        t.wf(),
        t.no_children(),
        0 <= node < t.parts.len(),
        0 <= from <= path.len(),
    ensures
        t.walk(path, from, node).0.no_children(),
        t.walk(path, from, node).1 >= t.parts.len(),
    decreases path.len() - from,
{
    lemma_find_from_bounds(path, '/', from);
    let e = find_from(path, '/', from);
    let part = path.subrange(from, e);
    assert(t.children[node].len() == 0);
    assert(t.child_named(part, node) is None);
    lemma_step(t, part, node);
    let (t1, c) = t.step(part, node);
    assert(t1 == t.push_node(part, node));
    assert(t1.no_children()) by {
        assert forall|p: int| 0 <= p < t1.children.len() implies (#[trigger] t1.children[p]).len()
            == 0 by {
            if p < t.children.len() {
                assert(t1.children[p] == t.children[p]);
            }
        }
    }
    if e < path.len() {
        lemma_walk_fresh(t1, path, e + 1, c);
    }
}

/// Where no node lists a child, as `new` and `add` leave every tree, `add`
/// of a URL whose path holds a `/` ends on a node that was not there
/// before, and still no node lists a child: adding the same path twice
/// gives two different nodes.
pub proof fn lemma_add_new_node(t: UrlTreeView, url: Seq<char>)
    requires
        t.wf(),
        t.no_children(),
        find_from(url_path(url), '/', 0) < url_path(url).len(),
    ensures
        add_url(t, url).0.no_children(),
        add_url(t, url).1 >= t.parts.len(),
{
    lemma_find_from_bounds(url, '?', 0);
    lemma_find_from_bounds(url_path(url), '/', 0);
    lemma_walk_fresh(t, url_path(url), find_from(url_path(url), '/', 0) + 1, 0);
}

} // verus!
