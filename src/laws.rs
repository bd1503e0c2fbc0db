//! Properties that hold across commands, stated over the paths of a tree.
use vstd::prelude::*;
use crate::command::{AllowedCommands, operand_count, parse_spec, verb_of};
use crate::error::ErrorModel;
use crate::node::{Path, is_prefix};
use crate::text::{segments, words, lemma_pieces_len};
use crate::tree::{DirTree, step, lemma_tree_prefix_closed};

verus! {

/// Right after a CREATE of a path succeeds, the path resolves, to a node
/// with nothing below it.
pub proof fn law_create_then_resolve(t: DirTree, line: Seq<char>, p: Seq<char>)
    requires
        t.wf(),
        parse_spec(line) == Ok::<_, ErrorModel>((AllowedCommands::Create, seq![p])),
        step(t@, line) is Ok,
    ensures
        step(t@, line)->Ok_0.contains(segments(p)),
        forall|r: Path|
            r.len() > 0 ==> !(#[trigger] step(t@, line)->Ok_0.contains(segments(p) + r)),
{
    let s = segments(p);
    assert(seq![p][0] == p);
    assert forall|r: Path| r.len() > 0 implies !(#[trigger] step(t@, line)->Ok_0.contains(s + r)) by {
        assert((s + r).len() > s.len());
        if t@.contains(s + r) {
            lemma_tree_prefix_closed(t, s + r, s.len() as int);
            assert((s + r).take(s.len() as int) =~= s);
        }
    }
}

/// A CREATE that succeeded fails with `Exists` when given again.
pub proof fn law_create_twice(t: DirTree, line: Seq<char>, p: Seq<char>)
    requires
        parse_spec(line) == Ok::<_, ErrorModel>((AllowedCommands::Create, seq![p])),
        step(t@, line) is Ok,
    ensures
        step(step(t@, line)->Ok_0, line) == Err::<Set<Path>, _>(
            ErrorModel::Exists { op: "create"@, path: p },
        ),
{
    assert(seq![p][0] == p);
}

/// A DELETE that succeeds takes out the path and every path below it, and
/// nothing else.
pub proof fn law_delete_removes_below(t: DirTree, line: Seq<char>, p: Seq<char>)
    requires
        parse_spec(line) == Ok::<_, ErrorModel>((AllowedCommands::Delete, seq![p])),
        step(t@, line) is Ok,
    ensures
        forall|q: Path|
            is_prefix(segments(p), q) ==> !(#[trigger] step(t@, line)->Ok_0.contains(q)),
        forall|q: Path|
            !is_prefix(segments(p), q) ==> (#[trigger] step(t@, line)->Ok_0.contains(q)
                == t@.contains(q)),
{
    assert(seq![p][0] == p);
}

/// A MOVE of an existing node to a path that does not exist yet, once it
/// succeeds, leaves nothing at the source and puts at the destination the
/// same paths that were below the source.
pub proof fn law_move_carries_subtree(t: DirTree, line: Seq<char>, a: Seq<char>, b: Seq<char>)
    requires
        t.wf(),
        parse_spec(line) == Ok::<_, ErrorModel>((AllowedCommands::Move, seq![a, b])),
        t@.contains(segments(a)),
        !t@.contains(segments(b)),
        step(t@, line) is Ok,
    ensures
        !step(t@, line)->Ok_0.contains(segments(a)),
        forall|r: Path|
            #[trigger] step(t@, line)->Ok_0.contains(segments(b) + r) == t@.contains(
                segments(a) + r,
            ),
{
    let s = segments(a);
    let d = segments(b);
    let v = step(t@, line)->Ok_0;
    assert(seq![a, b][0] == a);
    assert(seq![a, b][1] == b);
    if is_prefix(d, s) {
        lemma_tree_prefix_closed(t, s, d.len() as int);
    }
    assert(!is_prefix(s, s) == false) by {
        assert(s.take(s.len() as int) =~= s);
    }
    assert forall|r: Path| #[trigger] v.contains(d + r) == t@.contains(s + r) by {
        assert((d + r).take(d.len() as int) =~= d);
        assert((d + r).skip(d.len() as int) =~= r);
        if t@.contains(d + r) {
            lemma_tree_prefix_closed(t, d + r, d.len() as int);
        }
    }
}

/// A MOVE from a path that resolves onto one that resolves too, itself
/// included, fails with `Exists`, which leaves the tree as it was.
pub proof fn law_move_onto_existing(t: DirTree, line: Seq<char>, a: Seq<char>, b: Seq<char>)
    requires
        t.wf(),
        parse_spec(line) == Ok::<_, ErrorModel>((AllowedCommands::Move, seq![a, b])),
        t@.contains(segments(a)),
        t@.contains(segments(b)),
    ensures
        step(t@, line) == Err::<Set<Path>, _>(ErrorModel::Exists { op: "move"@, path: b }),
{
    assert(seq![a, b][0] == a);
    assert(seq![a, b][1] == b);
    let d = segments(b);
    lemma_pieces_len(b, false);
    lemma_tree_prefix_closed(t, d, d.len() - 1);
    assert(d.take(d.len() - 1) =~= d.drop_last());
}

/// A known verb given the wrong number of operands fails with `ParamCount`,
/// which leaves the tree as it was.
pub proof fn law_param_count(v: Set<Path>, line: Seq<char>, op: AllowedCommands)
    requires
        words(line).len() > 0,
        verb_of(words(line)[0]) == Some(op),
        words(line).len() - 1 != operand_count(op),
    ensures
        step(v, line) == Err::<Set<Path>, _>(ErrorModel::ParamCount(operand_count(op), line)),
{
}

/// A line whose first word is no verb fails with `UnknownCommand`, which
/// leaves the tree as it was.
pub proof fn law_unknown_command(v: Set<Path>, line: Seq<char>)
    requires
        words(line).len() > 0,
        verb_of(words(line)[0]) is None,
    ensures
        step(v, line) == Err::<Set<Path>, _>(ErrorModel::UnknownCommand(line)),
{
}

} // verus!
