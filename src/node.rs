//! The tree node: a named directory that owns its children, kept in strictly
//! increasing order of name.
//!
//! A node is modelled by the set of paths that resolve from it: the empty
//! path (the node itself) and, for each child, the child's name followed by
//! each path that resolves from the child.
use vstd::prelude::*;
use crate::text::{
    name_lt,
    name_less,
    same_text,
    texts,
    lemma_name_lt_irreflexive,
    lemma_name_lt_transitive,
    lemma_name_lt_total,
};

verus! {

broadcast use vstd::std_specs::vec::group_vec_axioms;

/// One line of a listing: a node's depth below the root and its name.
#[derive(Debug, Clone, PartialEq, Eq)]
pub struct ListEntry {
    pub depth: usize,
    pub name: String,
}

/// The depth and name of each entry.
pub open spec fn entries(v: Seq<ListEntry>) -> Seq<(nat, Seq<char>)> {
    v.map_values(|e: ListEntry| (e.depth as nat, e.name@))
}

/// Two spaces for each level below the top.
pub open spec fn indent(depth: nat) -> Seq<char>
    decreases depth,
{
    if depth <= 1 {
        Seq::empty()
    } else {
        indent((depth - 1) as nat) + "  "@
    }
}

impl ListEntry {
    /// The entry as a line of text: its name, indented by its depth.
    pub fn render(&self) -> (r: String)
        ensures
            r@ == indent(self.depth as nat) + self.name@,
    {
        let mut out = String::new();
        let mut level: usize = 1;
        while level < self.depth
            invariant
                1 <= level,
                level == 1 || level <= self.depth,
                out@ == indent(level as nat),
            decreases self.depth - level,
        {
            out.append("  ");
            level = level + 1;
        }
        assert(out@ == indent(self.depth as nat));
        out.append(self.name.as_str());
        out
    }
}

/// A path: the names of the nodes passed through, from the top down.
pub type Path = Seq<Seq<char>>;

/// One directory of the tree.
#[derive(Debug)]
pub struct DirNode {
    name: String,
    children: Vec<DirNode>,
}

/// Whether the names of `kids` strictly increase.
pub open spec fn sorted(kids: Seq<DirNode>) -> bool {
    forall|i: int, j: int|
        0 <= i < j < kids.len() ==> name_lt(#[trigger] kids[i].label(), #[trigger] kids[j].label())
}

/// The child of the given name among `kids`, if there is one.
pub open spec fn find(kids: Seq<DirNode>, name: Seq<char>) -> Option<DirNode> {
    if exists|i: int| 0 <= i < kids.len() && #[trigger] kids[i].label() == name {
        Some(kids[choose|i: int| 0 <= i < kids.len() && #[trigger] kids[i].label() == name])
    } else {
        None
    }
}

/// Whether `p` is `q` or leads to it.
pub open spec fn is_prefix(p: Path, q: Path) -> bool {
    p.len() <= q.len() && q.take(p.len() as int) == p
}

/// The paths of `v` that `p` does not lead to: what is left when the node at
/// `p` is taken out with everything below it.
pub open spec fn prune(v: Set<Path>, p: Path) -> Set<Path> {
    Set::new(|q: Path| v.contains(q) && !is_prefix(p, q))
}

/// The paths of `v` with the node at `p`, whose own paths are `w`, put in.
pub open spec fn graft(v: Set<Path>, p: Path, w: Set<Path>) -> Set<Path> {
    Set::new(|q: Path| v.contains(q) || (is_prefix(p, q) && w.contains(q.skip(p.len() as int))))
}

/// The paths of `v` that continue `p`, with `p` taken off the front.
pub open spec fn below(v: Set<Path>, p: Path) -> Set<Path> {
    Set::new(|r: Path| v.contains(p + r))
}

/// From segment `i` on, how many leading segments of `p` still name paths of
/// `v` before the first that does not.
pub open spec fn found_from(v: Set<Path>, p: Path, i: nat) -> nat
    decreases p.len() - i,
{
    if i >= p.len() || !v.contains(p.take(i + 1 as int)) {
        i
    } else {
        found_from(v, p, i + 1)
    }
}

/// How many leading segments of `p` resolve in `v`: `p.take(depth_found(v, p) + 1)`
/// is the first prefix of `p` that is missing, when one is.
pub open spec fn depth_found(v: Set<Path>, p: Path) -> nat {
    found_from(v, p, 0)
}

/// The depth one level further down, held at the largest `usize`.
pub open spec fn next_depth(depth: nat) -> nat {
    if depth < usize::MAX {
        depth + 1
    } else {
        depth
    }
}

/// Depth-first, pre-order listing of `kids` and everything below them, in
/// the order they are kept: each node gives its depth and its name.
pub open spec fn listing(kids: Seq<DirNode>, depth: nat) -> Seq<(nat, Seq<char>)>
    decreases kids,
    via listing_decreases
{
    if kids.len() == 0 {
        Seq::empty()
    } else {
        let last = kids.last();
        listing(kids.drop_last(), depth) + seq![(depth, last.label())] + listing(
            last.kids(),
            next_depth(depth),
        )
    }
}

#[via_fn]
proof fn listing_decreases(kids: Seq<DirNode>, depth: nat) {
    if kids.len() > 0 {
        let last = kids.last();
        assert(decreases_to!(kids => kids[kids.len() - 1]));
        assert(decreases_to!(last => last.children));
        assert(decreases_to!(last.children => last.children@));
        assert(decreases_to!(kids => kids.drop_last()));
    }
}

impl View for DirNode {
    type V = Set<Path>;

    /// The paths that resolve from this node.
    open spec fn view(&self) -> Set<Path> {
        Set::new(|p: Path| self.subtree(p) is Some)
    }
}

impl DirNode {
    /// The node's own name.
    pub closed spec fn label(&self) -> Seq<char> {
        self.name@
    }

    /// The node's children, in the order they are kept.
    pub closed spec fn kids(&self) -> Seq<DirNode> {
        self.children@
    }

    /// Children in strictly increasing order of name, at every level.
    pub open spec fn wf(&self) -> bool
        decreases self,
        via Self::wf_decreases
    {
        &&& sorted(self.kids())
        &&& forall|i: int| 0 <= i < self.kids().len() ==> (#[trigger] self.kids()[i]).wf()
    }

    #[via_fn]
    proof fn wf_decreases(&self) {
        assert forall|i: int| 0 <= i < self.kids().len() implies decreases_to!(self => self.kids()[i]) by {
            assert(decreases_to!(self.children => self.children@));
            assert(decreases_to!(self.children@ => self.children@[i]));
        }
    }

    /// The child of the given name.
    pub open spec fn child(&self, name: Seq<char>) -> Option<DirNode> {
        find(self.kids(), name)
    }

    /// The node that `path` leads to from this one.
    pub open spec fn subtree(&self, path: Path) -> Option<DirNode>
        decreases path.len(),
    {
        if path.len() == 0 {
            Some(*self)
        } else {
            match self.child(path[0]) {
                Some(c) => c.subtree(path.drop_first()),
                None => None,
            }
        }
    }
}


pub proof fn lemma_find_at(kids: Seq<DirNode>, k: int)
    requires
        sorted(kids),
        0 <= k < kids.len(),
    ensures
        find(kids, kids[k].label()) == Some(kids[k]),
{
    let x = kids[k].label();
    assert(exists|i: int| 0 <= i < kids.len() && #[trigger] kids[i].label() == x);
    let c = choose|i: int| 0 <= i < kids.len() && #[trigger] kids[i].label() == x;
    if c != k {
        lemma_name_lt_irreflexive(x);
    }
}

proof fn lemma_find_insert(kids: Seq<DirNode>, k: int, c: DirNode, x: Seq<char>)
    requires
        sorted(kids),
        sorted(kids.insert(k, c)),
        0 <= k <= kids.len(),
    ensures
        find(kids.insert(k, c), x) == if x == c.label() {
            Some(c)
        } else {
            find(kids, x)
        },
{
    let nk = kids.insert(k, c);
    if x == c.label() {
        lemma_find_at(nk, k);
    } else if exists|i: int| 0 <= i < kids.len() && #[trigger] kids[i].label() == x {
        let i = choose|i: int| 0 <= i < kids.len() && #[trigger] kids[i].label() == x;
        lemma_find_at(kids, i);
        if i < k {
            lemma_find_at(nk, i);
        } else {
            assert(nk[i + 1] == kids[i]);
            lemma_find_at(nk, i + 1);
        }
    } else {
        assert forall|j: int| 0 <= j < nk.len() implies #[trigger] nk[j].label() != x by {
            if j < k {
                assert(nk[j] == kids[j]);
            } else if j > k {
                assert(nk[j] == kids[j - 1]);
            }
        }
    }
}

proof fn lemma_find_remove(kids: Seq<DirNode>, k: int, x: Seq<char>)
    requires
        sorted(kids),
        0 <= k < kids.len(),
    ensures
        sorted(kids.remove(k)),
        find(kids.remove(k), x) == if x == kids[k].label() {
            None
        } else {
            find(kids, x)
        },
{
    let nk = kids.remove(k);
    assert forall|i: int, j: int| 0 <= i < j < nk.len() implies name_lt(
        #[trigger] nk[i].label(),
        #[trigger] nk[j].label(),
    ) by {
        let a = if i < k { i } else { i + 1 };
        let b = if j < k { j } else { j + 1 };
        assert(nk[i] == kids[a] && nk[j] == kids[b]);
    }
    if x == kids[k].label() {
        assert forall|j: int| 0 <= j < nk.len() implies #[trigger] nk[j].label() != x by {
            lemma_name_lt_irreflexive(x);
            if j < k {
                assert(nk[j] == kids[j]);
            } else {
                assert(nk[j] == kids[j + 1]);
            }
        }
    } else if exists|i: int| 0 <= i < kids.len() && #[trigger] kids[i].label() == x {
        let i = choose|i: int| 0 <= i < kids.len() && #[trigger] kids[i].label() == x;
        lemma_find_at(kids, i);
        if i < k {
            lemma_find_at(nk, i);
        } else {
            assert(nk[i - 1] == kids[i]);
            lemma_find_at(nk, i - 1);
        }
    } else {
        assert forall|j: int| 0 <= j < nk.len() implies #[trigger] nk[j].label() != x by {
            if j < k {
                assert(nk[j] == kids[j]);
            } else {
                assert(nk[j] == kids[j + 1]);
            }
        }
    }
}

proof fn lemma_find_update(kids: Seq<DirNode>, k: int, c: DirNode, x: Seq<char>)
    requires
        sorted(kids),
        0 <= k < kids.len(),
        c.label() == kids[k].label(),
    ensures
        sorted(kids.update(k, c)),
        find(kids.update(k, c), x) == if x == c.label() {
            Some(c)
        } else {
            find(kids, x)
        },
{
    let nk = kids.update(k, c);
    assert forall|i: int, j: int| 0 <= i < j < nk.len() implies name_lt(
        #[trigger] nk[i].label(),
        #[trigger] nk[j].label(),
    ) by {
        assert(nk[i].label() == kids[i].label() && nk[j].label() == kids[j].label());
    }
    if x == c.label() {
        lemma_find_at(nk, k);
    } else if exists|i: int| 0 <= i < kids.len() && #[trigger] kids[i].label() == x {
        let i = choose|i: int| 0 <= i < kids.len() && #[trigger] kids[i].label() == x;
        lemma_find_at(kids, i);
        lemma_find_at(nk, i);
    } else {
        assert forall|j: int| 0 <= j < nk.len() implies #[trigger] nk[j].label() != x by {
            assert(nk[j].label() == kids[j].label());
        }
    }
}

/// Where a node keeps its children but the one named `x`, which becomes
/// `now`, its paths change only under `x`.
proof fn lemma_view_one_child(old_n: DirNode, new_n: DirNode, x: Seq<char>, now: Option<DirNode>)
    requires
        forall|y: Seq<char>| y != x ==> #[trigger] new_n.child(y) == old_n.child(y),
        new_n.child(x) == now,
    ensures
        forall|q: Path| #[trigger]
            new_n@.contains(q) <==> (q.len() == 0 || (q[0] != x && old_n@.contains(q)) || (q[0]
                == x && now is Some && now->0@.contains(q.drop_first()))),
{
    assert forall|q: Path| #[trigger]
        new_n@.contains(q) <==> (q.len() == 0 || (q[0] != x && old_n@.contains(q)) || (q[0] == x
            && now is Some && now->0@.contains(q.drop_first()))) by {
        if q.len() > 0 && q[0] != x {
            assert(new_n.child(q[0]) == old_n.child(q[0]));
        }
    }
}

proof fn lemma_prefix_head(p: Path, q: Path)
    requires
        p.len() >= 1,
        q.len() >= 1,
    ensures
        p[0] != q[0] ==> !is_prefix(p, q),
        p[0] == q[0] ==> is_prefix(p, q) == is_prefix(p.drop_first(), q.drop_first()),
        p[0] == q[0] && p.len() <= q.len() ==> q.skip(p.len() as int) == q.drop_first().skip(
            p.len() - 1,
        ),
{
    if p.len() <= q.len() {
        assert(q.take(p.len() as int)[0] == q[0]);
        if p[0] == q[0] {
            assert(q.skip(p.len() as int) =~= q.drop_first().skip(p.len() - 1));
            assert(q.drop_first().take(p.len() - 1) =~= q.take(p.len() as int).drop_first());
            if q.drop_first().take(p.len() - 1) == p.drop_first() {
                assert forall|i: int| 0 <= i < p.len() implies q.take(p.len() as int)[i] == p[i] by {
                    if i > 0 {
                        assert(q.drop_first().take(p.len() - 1)[i - 1] == q.take(p.len() as int)[i]);
                        assert(p.drop_first()[i - 1] == p[i]);
                    }
                }
                assert(q.take(p.len() as int) =~= p);
            }
        }
    }
}

/// A path of one segment leads to the child of that name.
pub proof fn lemma_subtree_single(n: DirNode, x: Seq<char>)
    ensures
        n.subtree(seq![x]) == n.child(x),
{
    assert(seq![x].drop_first() =~= Seq::<Seq<char>>::empty());
    assert(seq![x][0] == x);
    match n.child(x) {
        Some(c) => assert(c.subtree(Seq::<Seq<char>>::empty()) == Some(c)),
        None => {},
    }
}

/// Following `p` and then `r` is following `p + r`.
pub proof fn lemma_subtree_append(n: DirNode, p: Path, r: Path)
    ensures
        n.subtree(p + r) == match n.subtree(p) {
            Some(m) => m.subtree(r),
            None => None,
        },
    decreases p.len(),
{
    if p.len() > 0 {
        assert((p + r).drop_first() =~= p.drop_first() + r);
        assert((p + r)[0] == p[0]);
        match n.child(p[0]) {
            Some(c) => lemma_subtree_append(c, p.drop_first(), r),
            None => {},
        }
    } else {
        assert(p + r =~= r);
    }
}

/// Every prefix of a path that resolves resolves too.
pub proof fn lemma_prefix_closed(n: DirNode, q: Path, j: int)
    requires
        n@.contains(q),
        0 <= j <= q.len(),
    ensures
        n@.contains(q.take(j)),
{
    lemma_subtree_append(n, q.take(j), q.skip(j));
    assert(q.take(j) + q.skip(j) =~= q);
}

proof fn lemma_wf_child(n: DirNode, x: Seq<char>)
    requires
        n.wf(),
        n.child(x) is Some,
    ensures
        n.child(x)->0.wf(),
{
    let i = choose|i: int| 0 <= i < n.kids().len() && #[trigger] n.kids()[i].label() == x;
    assert(n.children@[i].wf());
}

/// Below a well-formed node every node is well formed.
pub proof fn lemma_wf_subtree(n: DirNode, p: Path)
    requires
        n.wf(),
        n.subtree(p) is Some,
    ensures
        n.subtree(p)->0.wf(),
    decreases p.len(),
{
    if p.len() > 0 {
        lemma_wf_child(n, p[0]);
        lemma_wf_subtree(n.child(p[0])->0, p.drop_first());
    }
}

/// A well-formed node keeps its children in strictly increasing order of
/// name, each of them well formed too.
pub proof fn lemma_wf_sorted(n: DirNode)
    requires
        n.wf(),
    ensures
        sorted(n.kids()),
        forall|i: int| 0 <= i < n.kids().len() ==> (#[trigger] n.kids()[i]).wf(),
{
}

impl DirNode {
    /// A node of the given name with no children.
    pub fn new(name: &str) -> (r: DirNode)
        ensures
            r.label() == name@,
            r.kids() == Seq::<DirNode>::empty(),
            r.wf(),
            r@ == set![Seq::<Seq<char>>::empty()],
    {
        let r = DirNode { name: name.to_owned(), children: Vec::new() };
        assert forall|q: Path| #[trigger] r@.contains(q) <==> q == Seq::<Seq<char>>::empty() by {
            if q.len() == 0 {
                assert(q =~= Seq::<Seq<char>>::empty());
            }
        }
        assert(r@ =~= set![Seq::<Seq<char>>::empty()]);
        r
    }

    /// The node's name.
    pub fn name(&self) -> (r: &str)
        ensures
            r@ == self.label(),
    {
        self.name.as_str()
    }

    /// The node's children, in increasing order of name.
    pub fn children(&self) -> (r: &Vec<DirNode>)
        ensures
            r@ == self.kids(),
    {
        &self.children
    }

    /// Gives the node another name; its children stay as they are.
    pub fn set_name(&mut self, new_name: String)
        ensures
            final(self).label() == new_name@,
            final(self).kids() == old(self).kids(),
            final(self)@ == old(self)@,
            old(self).wf() ==> final(self).wf(),
    {
        self.name = new_name;
        assert forall|q: Path| #[trigger] final(self)@.contains(q) == old(self)@.contains(q) by {
            if q.len() > 0 {
                assert(final(self).child(q[0]) == old(self).child(q[0]));
            }
        }
        assert(final(self)@ =~= old(self)@);
    }

    /// Where among the children the one of the given name stands.
    pub fn index_for_child(&self, name: &str) -> (r: Option<usize>)
        ensures
            match r {
                Some(i) => {
                    &&& i < self.kids().len()
                    &&& self.kids()[i as int].label() == name@
                    &&& forall|j: int| 0 <= j < i ==> #[trigger] self.kids()[j].label() != name@
                },
                None => forall|i: int|
                    0 <= i < self.kids().len() ==> #[trigger] self.kids()[i].label() != name@,
            },
    {
        let mut i: usize = 0;
        while i < self.children.len()
            invariant
                i <= self.children@.len(),
                forall|j: int| 0 <= j < i ==> #[trigger] self.children@[j].label() != name@,
            decreases self.children@.len() - i,
        {
            if same_text(self.children[i].name.as_str(), name) {
                return Some(i);
            }
            i = i + 1;
        }
        None
    }

    /// The child of the given name, if there is one.
    pub fn child_named(&self, name: &str) -> (r: Option<&DirNode>)
        requires
            self.wf(),
        ensures
            match r {
                Some(c) => {
                    &&& self.child(name@) == Some(*c)
                    &&& c.label() == name@
                    &&& exists|i: int| 0 <= i < self.kids().len() && self.kids()[i] == *c
                    &&& forall|j: int|
                        0 <= j < self.kids().len() && #[trigger] self.kids()[j].label() == name@
                            ==> self.kids()[j] == *c
                },
                None => {
                    &&& self.child(name@) is None
                    &&& forall|j: int|
                        0 <= j < self.kids().len() ==> #[trigger] self.kids()[j].label() != name@
                },
            },
    {
        match self.index_for_child(name) {
            Some(i) => {
                proof {
                    lemma_find_at(self.kids(), i as int);
                    assert forall|j: int|
                        0 <= j < self.kids().len() && #[trigger] self.kids()[j].label() == name@
                            implies self.kids()[j] == self.kids()[i as int] by {
                        lemma_name_lt_irreflexive(name@);
                    }
                }
                Some(&self.children[i])
            },
            None => None,
        }
    }

    /// Puts `child` under this node, in its place by name; hands it back
    /// when the name is already in use.
    pub fn add_child(&mut self, child: DirNode) -> (r: Result<(), DirNode>)
        requires
            old(self).wf(),
            child.wf(),
        ensures
            final(self).wf(),
            final(self).label() == old(self).label(),
            match r {
                Ok(()) => {
                    &&& old(self).child(child.label()) is None
                    &&& exists|k: int|
                        0 <= k <= old(self).kids().len()
                            && final(self).kids() == old(self).kids().insert(k, child)
                    &&& final(self).child(child.label()) == Some(child)
                    &&& final(self)@ == graft(old(self)@, seq![child.label()], child@)
                },
                Err(back) => {
                    &&& old(self).child(child.label()) is Some
                    &&& back == child
                    &&& *final(self) == *old(self)
                },
            },
    {
        if let Some(i) = self.index_for_child(child.name.as_str()) {
            proof {
                lemma_find_at(self.kids(), i as int);
            }
            return Err(child);
        }
        let ghost x = child.label();
        let ghost kids0 = self.kids();
        let mut k: usize = 0;
        while k < self.children.len() && name_less(self.children[k].name.as_str(), child.name.as_str())
            invariant
                self.kids() == kids0,
                x == child.label(),
                k <= kids0.len(),
                forall|j: int| 0 <= j < k ==> name_lt(#[trigger] kids0[j].label(), x),
            decreases kids0.len() - k,
        {
            k = k + 1;
        }
        proof {
            if k < kids0.len() {
                lemma_name_lt_total(x, kids0[k as int].label());
            }
        }
        self.children.insert(k, child);
        proof {
            let nk = kids0.insert(k as int, child);
            assert(self.kids() == nk);
            assert forall|i: int, j: int| 0 <= i < j < nk.len() implies name_lt(
                #[trigger] nk[i].label(),
                #[trigger] nk[j].label(),
            ) by {
                if j < k {
                } else if j == k {
                } else if i < k {
                    assert(nk[j] == kids0[j - 1]);
                    if j - 1 > k {
                        lemma_name_lt_transitive(kids0[i].label(), kids0[k as int].label(), kids0[j - 1].label());
                    }
                } else if i == k {
                    assert(nk[j] == kids0[j - 1]);
                    if j - 1 > k {
                        lemma_name_lt_transitive(x, kids0[k as int].label(), kids0[j - 1].label());
                    }
                } else {
                    assert(nk[i] == kids0[i - 1] && nk[j] == kids0[j - 1]);
                }
            }
            assert forall|i: int| 0 <= i < nk.len() implies (#[trigger] nk[i]).wf() by {
                if i < k {
                    assert(nk[i] == kids0[i]);
                } else if i > k {
                    assert(nk[i] == kids0[i - 1]);
                }
            }
            assert forall|y: Seq<char>| #[trigger] find(nk, y) == if y == x { Some(child) } else { find(kids0, y) } by {
                lemma_find_insert(kids0, k as int, child, y);
            }
            assert forall|y: Seq<char>| y != x implies #[trigger] final(self).child(y) == old(self).child(y) by {
                assert(find(nk, y) == find(kids0, y));
            }
            assert(find(nk, x) == Some(child));
            lemma_view_one_child(*old(self), *final(self), x, Some(child));
            let g = graft(old(self)@, seq![x], child@);
            assert forall|q: Path| #[trigger] final(self)@.contains(q) == g.contains(q) by {
                if q.len() > 0 {
                    lemma_prefix_head(seq![x], q);
                    if q[0] == x {
                        assert(seq![x].drop_first() =~= Seq::<Seq<char>>::empty());
                        assert(q.drop_first().take(0) =~= Seq::<Seq<char>>::empty());
                        assert(q.drop_first().skip(0) =~= q.drop_first());
                    }
                } else {
                    assert(old(self)@.contains(q));
                }
            }
            assert(final(self)@ =~= g);
        }
        Ok(())
    }
}

impl DirNode {
    /// Takes the child of the given name out, with everything below it.
    pub fn remove_child(&mut self, name: &str) -> (r: Option<DirNode>)
        requires
            old(self).wf(),
        ensures
            final(self).wf(),
            final(self).label() == old(self).label(),
            match r {
                Some(c) => {
                    &&& old(self).child(name@) == Some(c)
                    &&& exists|k: int|
                        0 <= k < old(self).kids().len() && old(self).kids()[k] == c
                            && final(self).kids() == old(self).kids().remove(k)
                    &&& final(self).child(name@) is None
                    &&& final(self)@ == prune(old(self)@, seq![name@])
                },
                None => {
                    &&& old(self).child(name@) is None
                    &&& *final(self) == *old(self)
                },
            },
    {
        let k = match self.index_for_child(name) {
            Some(k) => k,
            None => {
                return None;
            },
        };
        let ghost kids0 = self.kids();
        let ghost x = name@;
        proof {
            lemma_find_at(kids0, k as int);
        }
        let c = self.children.remove(k);
        proof {
            let nk = kids0.remove(k as int);
            assert(self.kids() == nk);
            assert forall|y: Seq<char>| #[trigger] find(nk, y) == if y == x { None } else { find(kids0, y) } by {
                lemma_find_remove(kids0, k as int, y);
            }
            lemma_find_remove(kids0, k as int, x);
            assert forall|i: int| 0 <= i < nk.len() implies (#[trigger] nk[i]).wf() by {
                if i < k {
                    assert(nk[i] == kids0[i]);
                } else {
                    assert(nk[i] == kids0[i + 1]);
                }
            }
            assert forall|y: Seq<char>| y != x implies #[trigger] final(self).child(y) == old(self).child(y) by {
                assert(find(nk, y) == find(kids0, y));
            }
            assert(find(nk, x) is None);
            lemma_view_one_child(*old(self), *final(self), x, None);
            let g = prune(old(self)@, seq![x]);
            assert forall|q: Path| #[trigger] final(self)@.contains(q) == g.contains(q) by {
                if q.len() > 0 {
                    lemma_prefix_head(seq![x], q);
                    if q[0] == x {
                        assert(q.drop_first().take(0) =~= seq![x].drop_first());
                    }
                } else {
                    assert(old(self)@.contains(q));
                    assert(!is_prefix(seq![x], q));
                }
            }
            assert(final(self)@ =~= g);
        }
        Some(c)
    }

    /// Walks the first `count` segments of `path` down from this node: the
    /// node reached, or how many segments resolved before the first missing one.
    pub fn resolve(&self, path: &Vec<String>, count: usize) -> (r: Result<&DirNode, usize>)
        requires
            self.wf(),
            count <= path@.len(),
        ensures
            match r {
                Ok(m) => self.subtree(texts(path@).take(count as int)) == Some(*m) && m.wf(),
                Err(k) => {
                    &&& !self@.contains(texts(path@).take(count as int))
                    &&& k == depth_found(self@, texts(path@).take(count as int))
                    &&& k < count
                },
            },
    {
        let ghost p = texts(path@).take(count as int);
        let mut node: &DirNode = self;
        let mut i: usize = 0;
        assert(p.take(0) =~= Seq::<Seq<char>>::empty());
        while i < count
            invariant
                i <= count,
                count <= path@.len(),
                p == texts(path@).take(count as int),
                self.subtree(p.take(i as int)) == Some(*node),
                node.wf(),
                depth_found(self@, p) == found_from(self@, p, i as nat),
            decreases count - i,
        {
            let ghost here = *node;
            proof {
                lemma_subtree_append(*self, p.take(i as int), seq![p[i as int]]);
                assert(p.take(i as int) + seq![p[i as int]] =~= p.take(i + 1));
                lemma_subtree_single(here, p[i as int]);
                assert(p[i as int] == path@[i as int]@);
            }
            match node.child_named(path[i].as_str()) {
                Some(c) => {
                    proof {
                        lemma_wf_child(here, p[i as int]);
                    }
                    node = c;
                },
                None => {
                    proof {
                        if self@.contains(p) {
                            lemma_prefix_closed(*self, p, i + 1);
                        }
                    }
                    return Err(i);
                },
            }
            i = i + 1;
        }
        assert(p.take(count as int) =~= p);
        Ok(node)
    }

    /// Puts `child` at `path` (from segment `at` on), whose parent resolves
    /// and which does not itself resolve.
    pub(crate) fn insert_at(&mut self, path: &Vec<String>, at: usize, child: DirNode)
        requires
            old(self).wf(),
            child.wf(),
            at < path@.len(),
            child.label() == texts(path@).last(),
            old(self)@.contains(texts(path@).skip(at as int).drop_last()),
            !old(self)@.contains(texts(path@).skip(at as int)),
        ensures
            final(self).wf(),
            final(self).label() == old(self).label(),
            final(self)@ == graft(old(self)@, texts(path@).skip(at as int), child@),
        decreases path@.len() - at,
    {
        let ghost rel = texts(path@).skip(at as int);
        let ghost x = rel[0];
        assert(rel.drop_last().len() == 0 ==> rel =~= seq![x]);
        if at == path.len() - 1 {
            proof {
                assert(rel =~= seq![x]);
                assert(x == texts(path@).last());
                lemma_subtree_single(*self, x);
            }
            let _ = self.add_child(child);
            return;
        }
        proof {
            assert(rel.drop_last()[0] == x);
        }
        let j = match self.index_for_child(path[at].as_str()) {
            Some(j) => j,
            None => {
                return;
            },
        };
        let ghost kids0 = self.kids();
        proof {
            lemma_find_at(kids0, j as int);
            lemma_wf_sorted(*self);
            assert(rel.drop_last().drop_first() =~= rel.drop_first().drop_last());
            assert(texts(path@).skip(at + 1) =~= rel.drop_first());
        }
        let mut c = self.children.remove(j);
        let ghost c0 = c;
        c.insert_at(path, at + 1, child);
        self.children.insert(j, c);
        proof {
            let nk = kids0.update(j as int, c);
            assert(self.kids() =~= nk);
            assert forall|y: Seq<char>| #[trigger] find(nk, y) == if y == x { Some(c) } else { find(kids0, y) } by {
                lemma_find_update(kids0, j as int, c, y);
            }
            lemma_find_update(kids0, j as int, c, x);
            assert forall|i: int| 0 <= i < nk.len() implies (#[trigger] nk[i]).wf() by {
                if i != j {
                    assert(nk[i] == kids0[i]);
                }
            }
            assert forall|y: Seq<char>| y != x implies #[trigger] final(self).child(y) == old(self).child(y) by {
                assert(find(nk, y) == find(kids0, y));
            }
            lemma_view_one_child(*old(self), *final(self), x, Some(c));
            let g = graft(old(self)@, rel, child@);
            assert forall|q: Path| #[trigger] final(self)@.contains(q) == g.contains(q) by {
                if q.len() > 0 {
                    lemma_prefix_head(rel, q);
                } else {
                    assert(old(self)@.contains(q));
                }
            }
            assert(final(self)@ =~= g);
        }
    }

    /// Takes out the node at `path` (from segment `at` on), which resolves,
    /// with everything below it.
    pub(crate) fn remove_at(&mut self, path: &Vec<String>, at: usize) -> (r: DirNode)
        requires
            old(self).wf(),
            at < path@.len(),
            old(self)@.contains(texts(path@).skip(at as int)),
        ensures
            final(self).wf(),
            final(self).label() == old(self).label(),
            old(self).subtree(texts(path@).skip(at as int)) == Some(r),
            r.wf(),
            final(self)@ == prune(old(self)@, texts(path@).skip(at as int)),
        decreases path@.len() - at,
    {
        let ghost rel = texts(path@).skip(at as int);
        let ghost x = rel[0];
        proof {
            lemma_wf_subtree(*self, rel);
        }
        if at == path.len() - 1 {
            proof {
                assert(rel =~= seq![x]);
                lemma_subtree_single(*self, x);
            }
            return match self.remove_child(path[at].as_str()) {
                Some(c) => c,
                None => DirNode::new(""),
            };
        }
        let j = match self.index_for_child(path[at].as_str()) {
            Some(j) => j,
            None => {
                return DirNode::new("");
            },
        };
        let ghost kids0 = self.kids();
        proof {
            lemma_find_at(kids0, j as int);
            lemma_wf_sorted(*self);
            assert(texts(path@).skip(at + 1) =~= rel.drop_first());
        }
        let mut c = self.children.remove(j);
        let r = c.remove_at(path, at + 1);
        self.children.insert(j, c);
        proof {
            let nk = kids0.update(j as int, c);
            assert(self.kids() =~= nk);
            assert forall|y: Seq<char>| #[trigger] find(nk, y) == if y == x { Some(c) } else { find(kids0, y) } by {
                lemma_find_update(kids0, j as int, c, y);
            }
            lemma_find_update(kids0, j as int, c, x);
            assert forall|i: int| 0 <= i < nk.len() implies (#[trigger] nk[i]).wf() by {
                if i != j {
                    assert(nk[i] == kids0[i]);
                }
            }
            assert forall|y: Seq<char>| y != x implies #[trigger] final(self).child(y) == old(self).child(y) by {
                assert(find(nk, y) == find(kids0, y));
            }
            lemma_view_one_child(*old(self), *final(self), x, Some(c));
            let g = prune(old(self)@, rel);
            assert forall|q: Path| #[trigger] final(self)@.contains(q) == g.contains(q) by {
                if q.len() > 0 {
                    lemma_prefix_head(rel, q);
                } else {
                    assert(old(self)@.contains(q));
                }
            }
            assert(final(self)@ =~= g);
        }
        r
    }

    /// Appends the listing of everything below this node, whose children
    /// stand at `depth`.
    pub fn collect(&self, depth: usize, out: &mut Vec<ListEntry>)
        ensures
            entries(final(out)@) == entries(old(out)@) + listing(self.kids(), depth as nat),
        decreases self,
    {
        let mut i: usize = 0;
        assert(self.kids().take(0) =~= Seq::<DirNode>::empty());
        assert(entries(old(out)@) + Seq::<(nat, Seq<char>)>::empty() =~= entries(old(out)@));
        while i < self.children.len()
            invariant
                i <= self.children@.len(),
                entries(out@) == entries(old(out)@) + listing(self.kids().take(i as int), depth as nat),
            decreases self.children@.len() - i,
        {
            let c = &self.children[i];
            let ghost before = entries(out@);
            out.push(ListEntry { depth, name: c.name.clone() });
            assert(entries(out@) =~= before + seq![(depth as nat, c.label())]);
            let next: usize = if depth < usize::MAX {
                depth + 1
            } else {
                depth
            };
            proof {
                assert(decreases_to!(self.children => self.children@));
                assert(decreases_to!(self.children@ => self.children@[i as int]));
            }
            c.collect(next, out);
            proof {
                let t = self.kids().take(i + 1);
                assert(t.drop_last() =~= self.kids().take(i as int));
                assert(t.last() == *c);
            }
            i = i + 1;
        }
        assert(self.kids().take(i as int) =~= self.kids());
    }
}

} // verus!
