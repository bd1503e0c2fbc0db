//! The command engine: a tree owned by its caller, changed one command line
//! at a time. Every command either succeeds in full or leaves the tree as it
//! was.
use vstd::prelude::*;
use crate::command::{AllowedCommands, Command, parse_spec};
use crate::error::{Error, ErrorModel};
use crate::node::{
    DirNode,
    ListEntry,
    Path,
    below,
    depth_found,
    entries,
    graft,
    is_prefix,
    listing,
    prune,
    sorted,
    lemma_prefix_closed,
    lemma_subtree_append,
    lemma_subtree_single,
};
use crate::text::{join, join_path, same_text, segments, split_path, texts, lemma_pieces_len};

verus! {

/// CREATE: the parent must resolve and the path must not.
pub open spec fn create_spec(v: Set<Path>, p: Seq<char>) -> Result<Set<Path>, ErrorModel> {
    let s = segments(p);
    let parent = s.drop_last();
    if !v.contains(parent) {
        Err(
            ErrorModel::Missing {
                op: "create"@,
                path: p,
                missing: join(s.take(depth_found(v, parent) + 1 as int)),
            },
        )
    } else if v.contains(s) {
        Err(ErrorModel::Exists { op: "create"@, path: p })
    } else {
        Ok(v.insert(s))
    }
}

/// DELETE: the path must resolve; it goes with everything below it.
pub open spec fn delete_spec(v: Set<Path>, p: Seq<char>) -> Result<Set<Path>, ErrorModel> {
    let s = segments(p);
    if !v.contains(s) {
        Err(
            ErrorModel::Missing {
                op: "delete"@,
                path: p,
                missing: join(s.take(depth_found(v, s) + 1 as int)),
            },
        )
    } else {
        Ok(prune(v, s))
    }
}

/// MOVE: the source must resolve; then, in the tree as it stands, the
/// destination's parent must resolve and the destination must not. A
/// destination below the source is refused too: the source, taken out first,
/// is then the missing part of its path. The source's node, with all below
/// it, then stands at the destination.
pub open spec fn move_spec(v: Set<Path>, a: Seq<char>, b: Seq<char>) -> Result<Set<Path>, ErrorModel> {
    let s = segments(a);
    let d = segments(b);
    let dp = d.drop_last();
    if !v.contains(s) {
        Err(
            ErrorModel::Missing {
                op: "move"@,
                path: a,
                missing: join(s.take(depth_found(v, s) + 1 as int)),
            },
        )
    } else if !v.contains(dp) {
        Err(
            ErrorModel::Missing {
                op: "move"@,
                path: b,
                missing: join(dp.take(depth_found(v, dp) + 1 as int)),
            },
        )
    } else if v.contains(d) {
        Err(ErrorModel::Exists { op: "move"@, path: b })
    } else if is_prefix(s, d) {
        Err(ErrorModel::Missing { op: "move"@, path: b, missing: join(s) })
    } else {
        Ok(graft(prune(v, s), d, below(v, s)))
    }
}

/// What a command line does to the paths of a tree, or why it is refused.
pub open spec fn step(v: Set<Path>, line: Seq<char>) -> Result<Set<Path>, ErrorModel> {
    match parse_spec(line) {
        Err(e) => Err(e),
        Ok((op, args)) => match op {
            AllowedCommands::Create => create_spec(v, args[0]),
            AllowedCommands::Delete => delete_spec(v, args[0]),
            AllowedCommands::Move => move_spec(v, args[0], args[1]),
            AllowedCommands::List => Ok(v),
        },
    }
}

/// Whether a line is a well-formed LIST.
pub open spec fn is_list(line: Seq<char>) -> bool {
    parse_spec(line) matches Ok((AllowedCommands::List, _))
}

/// A directory tree: a root without a name, which is never removed.
#[derive(Debug)]
pub struct DirTree {
    root: DirNode,
}

impl View for DirTree {
    type V = Set<Path>;

    /// The paths that resolve from the root; the empty path is the root.
    closed spec fn view(&self) -> Set<Path> {
        self.root@
    }
}

/// In a well-formed tree the root's children stand in strictly increasing
/// order of name, and each of them is well formed in turn: a listing gives
/// siblings in that order.
pub proof fn lemma_top_sorted(t: DirTree)
    requires
        t.wf(),
    ensures
        sorted(t.top()),
        forall|i: int| 0 <= i < t.top().len() ==> (#[trigger] t.top()[i]).wf(),
{
}

/// Every prefix of a path that resolves in a tree resolves too.
pub proof fn lemma_tree_prefix_closed(t: DirTree, q: Path, j: int)
    requires
        t@.contains(q),
        0 <= j <= q.len(),
    ensures
        t@.contains(q.take(j)),
{
    lemma_prefix_closed(t.root, q, j);
}

/// Whether the segments of `p` lead to the first `count` segments of `q`.
fn leads_to(p: &Vec<String>, q: &Vec<String>, count: usize) -> (r: bool)
    requires
        count <= q@.len(),
    ensures
        r == is_prefix(texts(p@), texts(q@).take(count as int)),
{
    let ghost tq = texts(q@).take(count as int);
    if p.len() > count {
        return false;
    }
    let mut i: usize = 0;
    while i < p.len()
        invariant
            p@.len() <= count <= q@.len(),
            tq == texts(q@).take(count as int),
            i <= p@.len(),
            forall|j: int| 0 <= j < i ==> tq[j] == #[trigger] texts(p@)[j],
        decreases p@.len() - i,
    {
        if !same_text(p[i].as_str(), q[i].as_str()) {
            assert(tq.take(p@.len() as int)[i as int] != texts(p@)[i as int]);
            return false;
        }
        i = i + 1;
    }
    assert(tq.take(p@.len() as int) =~= texts(p@));
    true
}

impl DirTree {
    /// An empty tree: the root alone.
    pub fn new() -> (r: DirTree)
        ensures
            r.wf(),
            r@ == set![Seq::<Seq<char>>::empty()],
            r.top() == Seq::<DirNode>::empty(),
            listing(r.top(), 1) == Seq::<(nat, Seq<char>)>::empty(),
    {
        DirTree { root: DirNode::new("") }
    }

    /// Names in every directory strictly increase.
    pub closed spec fn wf(&self) -> bool {
        self.root.wf()
    }

    /// The root's children, in order of name.
    pub closed spec fn top(&self) -> Seq<DirNode> {
        self.root.kids()
    }

    /// The root node.
    pub fn root(&self) -> (r: &DirNode)
        requires
            self.wf(),
        ensures
            r@ == self@,
            r.kids() == self.top(),
            r.wf(),
    {
        &self.root
    }

    /// Runs one command line. A LIST gives its listing; the others give no
    /// entries. On an error nothing has changed.
    pub fn execute(&mut self, instruction: &str) -> (r: Result<Vec<ListEntry>, Error>)
        requires
            old(self).wf(),
        ensures
            final(self).wf(),
            match r {
                Ok(out) => {
                    &&& step(old(self)@, instruction@) == Ok::<_, ErrorModel>(final(self)@)
                    &&& entries(out@) == if is_list(instruction@) {
                        listing(old(self).top(), 1)
                    } else {
                        Seq::empty()
                    }
                },
                Err(e) => {
                    &&& step(old(self)@, instruction@) == Err::<Set<Path>, _>(e@)
                    &&& *final(self) == *old(self)
                },
            },
    {
        let cmd = match Command::parse(instruction) {
            Ok(c) => c,
            Err(e) => {
                return Err(e);
            },
        };
        let ghost args = texts(cmd.operands@);
        assert(args.len() == cmd.operands@.len());
        match cmd.operation {
            AllowedCommands::Create => match self.create(cmd.operands[0].as_str()) {
                Ok(()) => Ok(Vec::new()),
                Err(e) => Err(e),
            },
            AllowedCommands::Delete => match self.delete(cmd.operands[0].as_str()) {
                Ok(()) => Ok(Vec::new()),
                Err(e) => Err(e),
            },
            AllowedCommands::Move => match self.move_node(
                cmd.operands[0].as_str(),
                cmd.operands[1].as_str(),
            ) {
                Ok(()) => Ok(Vec::new()),
                Err(e) => Err(e),
            },
            AllowedCommands::List => {
                let mut out: Vec<ListEntry> = Vec::new();
                self.root.collect(1, &mut out);
                assert(entries(out@) =~= listing(old(self).top(), 1));
                Ok(out)
            },
        }
    }

    /// CREATE of one path.
    pub fn create(&mut self, p: &str) -> (r: Result<(), Error>)
        requires
            old(self).wf(),
        ensures
            final(self).wf(),
            match r {
                Ok(()) => create_spec(old(self)@, p@) == Ok::<_, ErrorModel>(final(self)@),
                Err(e) => {
                    &&& create_spec(old(self)@, p@) == Err::<Set<Path>, _>(e@)
                    &&& *final(self) == *old(self)
                },
            },
    {
        let s = split_path(p);
        proof {
            lemma_pieces_len(p@, false);
        }
        let ghost v = self.root@;
        let ghost ts = texts(s@);
        let last = s.len() - 1;
        match self.root.resolve(&s, last) {
            Err(k) => {
                return Err(Error::Missing { op: "create", path: p.to_owned(), missing: join_path(&s, k + 1) });
            },
            Ok(parent) => {
                let ghost par = *parent;
                proof {
                    assert(ts.take(last as int) =~= ts.drop_last());
                    lemma_subtree_append(self.root, ts.drop_last(), seq![ts[last as int]]);
                    assert(ts.drop_last() + seq![ts[last as int]] =~= ts);
                    lemma_subtree_single(par, ts[last as int]);
                }
                if parent.child_named(s[last].as_str()).is_some() {
                    return Err(Error::Exists { op: "create", path: p.to_owned() });
                }
            },
        }
        let child = DirNode::new(s[last].as_str());
        proof {
            assert(ts.skip(0) =~= ts);
        }
        self.root.insert_at(&s, 0, child);
        proof {
            let g = graft(v, ts, child@);
            assert forall|q: Path| #[trigger] g.contains(q) == v.insert(ts).contains(q) by {
                if is_prefix(ts, q) && child@.contains(q.skip(ts.len() as int)) {
                    assert(q.skip(ts.len() as int) =~= Seq::<Seq<char>>::empty());
                    assert(q =~= q.take(ts.len() as int) + q.skip(ts.len() as int));
                }
                if q == ts {
                    assert(q.take(ts.len() as int) =~= ts);
                    assert(q.skip(ts.len() as int) =~= Seq::<Seq<char>>::empty());
                }
            }
            assert(g =~= v.insert(ts));
        }
        Ok(())
    }

    /// DELETE of one path, with everything below it.
    pub fn delete(&mut self, p: &str) -> (r: Result<(), Error>)
        requires
            old(self).wf(),
        ensures
            final(self).wf(),
            match r {
                Ok(()) => delete_spec(old(self)@, p@) == Ok::<_, ErrorModel>(final(self)@),
                Err(e) => {
                    &&& delete_spec(old(self)@, p@) == Err::<Set<Path>, _>(e@)
                    &&& *final(self) == *old(self)
                },
            },
    {
        let s = split_path(p);
        proof {
            lemma_pieces_len(p@, false);
        }
        let ghost ts = texts(s@);
        if let Err(k) = self.root.resolve(&s, s.len()) {
            assert(ts.take(s@.len() as int) =~= ts);
            return Err(Error::Missing { op: "delete", path: p.to_owned(), missing: join_path(&s, k + 1) });
        }
        proof {
            assert(ts.take(s@.len() as int) =~= ts);
            assert(ts.skip(0) =~= ts);
        }
        let _ = self.root.remove_at(&s, 0);
        Ok(())
    }

    /// MOVE of the node at `a`, with everything below it, to `b`.
    pub fn move_node(&mut self, a: &str, b: &str) -> (r: Result<(), Error>)
        requires
            old(self).wf(),
        ensures
            final(self).wf(),
            match r {
                Ok(()) => move_spec(old(self)@, a@, b@) == Ok::<_, ErrorModel>(final(self)@),
                Err(e) => {
                    &&& move_spec(old(self)@, a@, b@) == Err::<Set<Path>, _>(e@)
                    &&& *final(self) == *old(self)
                },
            },
    {
        let s = split_path(a);
        let d = split_path(b);
        proof {
            lemma_pieces_len(a@, false);
            lemma_pieces_len(b@, false);
        }
        let ghost v = self.root@;
        let ghost ts = texts(s@);
        let ghost td = texts(d@);
        let ghost dp = td.drop_last();
        if let Err(k) = self.root.resolve(&s, s.len()) {
            assert(ts.take(s@.len() as int) =~= ts);
            return Err(Error::Missing { op: "move", path: a.to_owned(), missing: join_path(&s, k + 1) });
        }
        proof {
            assert(ts.take(s@.len() as int) =~= ts);
            assert(td.take(d@.len() - 1) =~= dp);
        }
        let last = d.len() - 1;
        match self.root.resolve(&d, last) {
            Err(k) => {
                assert(dp.take(k + 1) =~= td.take(k + 1));
                return Err(Error::Missing { op: "move", path: b.to_owned(), missing: join_path(&d, k + 1) });
            },
            Ok(parent) => {
                let ghost par = *parent;
                proof {
                    lemma_subtree_append(self.root, dp, seq![td[last as int]]);
                    assert(dp + seq![td[last as int]] =~= td);
                    lemma_subtree_single(par, td[last as int]);
                }
                if parent.child_named(d[last].as_str()).is_some() {
                    return Err(Error::Exists { op: "move", path: b.to_owned() });
                }
            },
        }
        if leads_to(&s, &d, d.len()) {
            assert(td.take(d@.len() as int) =~= td);
            assert(ts.take(s@.len() as int) =~= ts);
            return Err(Error::Missing { op: "move", path: b.to_owned(), missing: join_path(&s, s.len()) });
        }
        proof {
            assert(td.take(d@.len() as int) =~= td);
            if is_prefix(ts, dp) {
                assert(td.take(ts.len() as int) =~= dp.take(ts.len() as int));
            }
        }
        proof {
            assert(ts.skip(0) =~= ts);
            assert(td.skip(0) =~= td);
        }
        let mut node = self.root.remove_at(&s, 0);
        let ghost moved = node;
        node.set_name(d[last].clone());
        self.root.insert_at(&d, 0, node);
        proof {
            assert forall|r: Path| #[trigger] moved@.contains(r) == below(v, ts).contains(r) by {
                lemma_subtree_append(old(self).root, ts, r);
            }
            assert(moved@ =~= below(v, ts));
        }
        Ok(())
    }
}

} // verus!
