//! What performing an instantiation plan does to a filesystem.
//!
//! A filesystem is modelled as a map from component paths to [`Node`]s.
//! Paths are relative to the base directory, which is the empty path and is
//! itself a directory.  [`apply_plan`] runs a plan in order and stops at the
//! first operation the filesystem refuses, exactly as performing the
//! operations with real filesystem calls does: creating a directory fails if
//! its path already exists, writing a file overwrites a file but fails on a
//! directory, and both fail when the parent is missing or not a directory.
//!
//! The laws proved here relate a tree's plan to its denotation
//! ([`tree_nodes`]): on a fresh base directory the plan succeeds and the
//! filesystem afterwards holds exactly the modelled nodes.

use crate::{
    entries_plan, entries_wf, entry_mapped, entry_plan, entry_wf, file_mapped, tree_mapped, Entry,
    Node, Tree,
};
use vstd::prelude::*;

verus! {

/// A modelled filesystem: every existing path, relative to the base
/// directory, and what it holds.  The base directory itself is the empty
/// path.
pub type Disk = Map<Seq<Seq<char>>, Node>;

/// Whether the parent of `p` exists as a directory.
pub open spec fn parent_is_dir(fs: Disk, p: Seq<Seq<char>>) -> bool {
    fs.dom().contains(p.drop_last()) && fs[p.drop_last()] is Dir
}

/// Whether establishing `n` at `p` succeeds on `fs`: the parent must be a
/// directory; creating a directory demands that `p` not exist at all, while
/// writing a file overwrites anything but a directory.
pub open spec fn node_allowed(fs: Disk, p: Seq<Seq<char>>, n: Node) -> bool {
    &&& p.len() > 0
    &&& parent_is_dir(fs, p)
    &&& match n {
        Node::Dir => !fs.dom().contains(p),
        Node::File { .. } => !(fs.dom().contains(p) && fs[p] is Dir),
    }
}

/// One operation: the filesystem afterwards, or `None` for an error.
pub open spec fn apply_node(fs: Disk, p: Seq<Seq<char>>, n: Node) -> Option<Disk> {
    if node_allowed(fs, p, n) {
        Some(fs.insert(p, n))
    } else {
        None
    }
}

/// A whole plan, in order, aborting at the first error; nothing done after
/// the failure point is observed.
pub open spec fn apply_plan(fs: Disk, ops: Seq<(Seq<Seq<char>>, Node)>) -> Option<Disk>
    decreases ops.len(),
{
    if ops.len() == 0 {
        Some(fs)
    } else {
        match apply_node(fs, ops.first().0, ops.first().1) {
            Some(fs1) => apply_plan(fs1, ops.drop_first()),
            None => None,
        }
    }
}

/// The nodes of `m` moved below the path `p`.
pub open spec fn at_path(p: Seq<Seq<char>>, m: Disk) -> Disk {
    Map::new(
        |q: Seq<Seq<char>>| p.is_prefix_of(q) && m.dom().contains(q.skip(p.len() as int)),
        |q: Seq<Seq<char>>| m[q.skip(p.len() as int)],
    )
}

/// What one entry standing at its own location denotes: its own node at the
/// empty path and, for a tree, everything inside below it.
pub open spec fn entry_nodes(e: Entry) -> Disk
    decreases e,
{
    match e {
        Entry::File { contents } => Map::empty().insert(
            Seq::empty(),
            Node::File { contents: contents@ },
        ),
        Entry::Tree { tree } => tree_nodes(tree).insert(Seq::empty(), Node::Dir),
    }
}

/// What an entry list denotes: each entry's nodes below its own name.
pub open spec fn entries_nodes(s: Seq<(String, Entry)>) -> Disk
    decreases s,
{
    if s.len() == 0 {
        Map::empty()
    } else {
        at_path(seq![s.first().0@], entry_nodes(s.first().1)).union_prefer_right(
            entries_nodes(s.drop_first()),
        )
    }
}

/// What a whole tree denotes: every path it would create under the base
/// directory, and the node standing there.
pub open spec fn tree_nodes(t: Tree) -> Disk
    decreases t,
{
    entries_nodes(t.entries@)
}

/// Nothing of `fs` lies at or below `p`.
pub open spec fn fresh_below(fs: Disk, p: Seq<Seq<char>>) -> bool {
    forall|q: Seq<Seq<char>>| #[trigger] fs.dom().contains(q) ==> !p.is_prefix_of(q)
}

/// A prefix splits a sequence.
proof fn lemma_prefix_split(p: Seq<Seq<char>>, q: Seq<Seq<char>>)
    requires
        p.is_prefix_of(q),
    ensures
        q == p + q.skip(p.len() as int),
{
    assert(q =~= p + q.skip(p.len() as int));
}

/// Two prefixes of the same sequence with the same length are equal.
proof fn lemma_prefix_same_len(p1: Seq<Seq<char>>, p2: Seq<Seq<char>>, q: Seq<Seq<char>>)
    requires
        p1.is_prefix_of(q),
        p2.is_prefix_of(q),
        p1.len() == p2.len(),
    ensures
        p1 == p2,
{
    assert(p1 =~= p2);
}

/// A sequence is a prefix of itself and of itself extended by one element.
proof fn lemma_prefix_extend(p: Seq<Seq<char>>, name: Seq<char>)
    ensures
        p.is_prefix_of(p),
        p.is_prefix_of(p.push(name)),
        forall|q: Seq<Seq<char>>| #[trigger] p.push(name).is_prefix_of(q) ==> p.is_prefix_of(q)
            && q.len() > p.len() && q[p.len() as int] == name,
{
    assert(p =~= p.subrange(0, p.len() as int));
    assert(p =~= p.push(name).subrange(0, p.len() as int));
    assert forall|q: Seq<Seq<char>>| #[trigger] p.push(name).is_prefix_of(q) implies p.is_prefix_of(
        q,
    ) && q.len() > p.len() && q[p.len() as int] == name by {
        assert(p.push(name) =~= q.subrange(0, p.len() as int + 1));
        assert(q[p.len() as int] == p.push(name)[p.len() as int]);
        assert(p =~= q.subrange(0, p.len() as int));
    }
}

/// Running a concatenation is running the parts in turn.
proof fn lemma_apply_plan_concat(
    fs: Disk,
    a: Seq<(Seq<Seq<char>>, Node)>,
    b: Seq<(Seq<Seq<char>>, Node)>,
)
    ensures
        apply_plan(fs, a + b) == (match apply_plan(fs, a) {
            Some(fs1) => apply_plan(fs1, b),
            None => None,
        }),
    decreases a.len(),
{
    if a.len() == 0 {
        assert(a + b =~= b);
    } else {
        assert((a + b).first() == a.first());
        assert((a + b).drop_first() =~= a.drop_first() + b);
        match apply_node(fs, a.first().0, a.first().1) {
            Some(fs1) => {
                lemma_apply_plan_concat(fs1, a.drop_first(), b);
            },
            None => {
            },
        }
    }
}

/// Every path an entry list denotes is nonempty.
proof fn lemma_entries_nodes_nonempty(s: Seq<(String, Entry)>)
    ensures
        forall|q: Seq<Seq<char>>| #[trigger] entries_nodes(s).dom().contains(q) ==> q.len() >= 1,
    decreases s.len(),
{
    if s.len() > 0 {
        lemma_entries_nodes_nonempty(s.drop_first());
        let a_m = at_path(seq![s.first().0@], entry_nodes(s.first().1));
        let b_m = entries_nodes(s.drop_first());
        assert(entries_nodes(s) == a_m.union_prefer_right(b_m));
        assert forall|q: Seq<Seq<char>>| #[trigger] entries_nodes(s).dom().contains(q) implies q
            .len() >= 1 by {
            assert(a_m.dom().contains(q) || b_m.dom().contains(q));
            if a_m.dom().contains(q) {
                assert(seq![s.first().0@].is_prefix_of(q));
            } else {
                assert(b_m.dom().contains(q));
            }
        }
    }
}

/// Relocation distributes over joining two filesystems.
proof fn lemma_at_path_union(p: Seq<Seq<char>>, a: Disk, b: Disk)
    ensures
        at_path(p, a.union_prefer_right(b)) == at_path(p, a).union_prefer_right(at_path(p, b)),
{
    assert(at_path(p, a.union_prefer_right(b)) =~= at_path(p, a).union_prefer_right(
        at_path(p, b),
    ));
}

/// Relocating below `p` and then below one more component is relocating
/// below the extended path.
proof fn lemma_at_path_compose(p: Seq<Seq<char>>, name: Seq<char>, m: Disk)
    ensures
        at_path(p, at_path(seq![name], m)) == at_path(p.push(name), m),
{
    let c = p.push(name);
    let lhs = at_path(p, at_path(seq![name], m));
    let rhs = at_path(c, m);
    lemma_prefix_extend(p, name);
    assert forall|q: Seq<Seq<char>>| #[trigger] rhs.dom().contains(q) implies lhs.dom().contains(q)
        && lhs[q] == rhs[q] by {
        assert(c.is_prefix_of(q));
        assert(p.is_prefix_of(q));
        let r = q.skip(p.len() as int);
        assert(r[0] == q[p.len() as int]);
        assert(q[p.len() as int] == name);
        assert(seq![name] =~= r.subrange(0, 1));
        assert(seq![name].is_prefix_of(r));
        assert(r.skip(1) =~= q.skip(c.len() as int));
        assert(at_path(seq![name], m).dom().contains(r));
        assert(at_path(seq![name], m)[r] == m[q.skip(c.len() as int)]);
    }
    assert forall|q: Seq<Seq<char>>| #[trigger] lhs.dom().contains(q) implies rhs.dom().contains(
        q,
    ) by {
        assert(p.is_prefix_of(q));
        let r = q.skip(p.len() as int);
        assert(seq![name].is_prefix_of(r));
        assert(r.len() >= 1);
        assert(seq![name].len() == 1);
        assert(seq![name] =~= r.subrange(0, 1));
        assert(r.subrange(0, 1)[0] == r[0]);
        assert(r[0] == name);
        assert(r[0] == q[p.len() as int]);
        assert(c =~= q.subrange(0, c.len() as int));
        assert(c.is_prefix_of(q));
        assert(r.skip(1) =~= q.skip(c.len() as int));
        assert(m.dom().contains(q.skip(c.len() as int)));
    }
    assert(lhs =~= rhs);
}

/// Materializing one entry at `p`, on a filesystem where the parent of `p`
/// is a directory and nothing lies at or below `p`, succeeds and adds
/// exactly the entry's nodes below `p`.
proof fn lemma_entry_plan_applies(fs: Disk, p: Seq<Seq<char>>, e: Entry)
    requires
        entry_wf(e),
        p.len() > 0,
        parent_is_dir(fs, p),
        fresh_below(fs, p),
    ensures
        apply_plan(fs, entry_plan(p, e)) == Some(
            fs.union_prefer_right(at_path(p, entry_nodes(e))),
        ),
    decreases e,
{
    assert(p =~= p.subrange(0, p.len() as int));
    assert(p.is_prefix_of(p));
    assert(!fs.dom().contains(p));
    assert(p.skip(p.len() as int) =~= Seq::<Seq<char>>::empty());
    match e {
        Entry::File { contents } => {
            let n = Node::File { contents: contents@ };
            assert(node_allowed(fs, p, n));
            let fs1 = fs.insert(p, n);
            let plan = entry_plan(p, e);
            assert(plan =~= seq![(p, n)]);
            assert(plan.drop_first() =~= Seq::<(Seq<Seq<char>>, Node)>::empty());
            assert(plan.first() == (p, n));
            assert(apply_node(fs, p, n) == Some(fs1));
            assert(apply_plan(fs1, plan.drop_first()) == Some(fs1));
            assert(apply_plan(fs, plan) == Some(fs1));
            let m = at_path(p, entry_nodes(e));
            assert forall|q: Seq<Seq<char>>| #[trigger] m.dom().contains(q) implies q == p by {
                assert(p.is_prefix_of(q));
                assert(entry_nodes(e).dom().contains(q.skip(p.len() as int)));
                assert(q.skip(p.len() as int) =~= Seq::<Seq<char>>::empty());
                assert(q =~= p);
            }
            assert(m.dom().contains(p));
            assert(m[p] == n);
            assert(fs1 =~= fs.union_prefer_right(m));
        },
        Entry::Tree { tree } => {
            let n = Node::Dir;
            assert(node_allowed(fs, p, n));
            let fs1 = fs.insert(p, n);
            let head = seq![(p, n)];
            let rest = entries_plan(p, tree.entries@);
            assert(entry_plan(p, e) == head + rest);
            lemma_apply_plan_concat(fs, head, rest);
            assert(head.drop_first() =~= Seq::<(Seq<Seq<char>>, Node)>::empty());
            assert(head.first() == (p, n));
            assert(apply_node(fs, p, n) == Some(fs1));
            assert(apply_plan(fs1, head.drop_first()) == Some(fs1));
            assert(apply_plan(fs, head) == Some(fs1));
            assert(fs1.dom().contains(p) && fs1[p] is Dir);
            assert forall|i: int| 0 <= i < tree.entries@.len() implies fresh_below(
                fs1,
                p.push((#[trigger] tree.entries@[i]).0@),
            ) by {
                let c = p.push(tree.entries@[i].0@);
                lemma_prefix_extend(p, tree.entries@[i].0@);
                assert forall|q: Seq<Seq<char>>| #[trigger] fs1.dom().contains(q) implies !c
                    .is_prefix_of(q) by {
                    if q == p {
                        assert(!c.is_prefix_of(q));
                    } else {
                        assert(fs.dom().contains(q));
                        if c.is_prefix_of(q) {
                            assert(p.is_prefix_of(q));
                            assert(false);
                        }
                    }
                }
            }
            assert(tree.wf());
            lemma_entries_plan_applies(fs1, p, tree.entries@);
            let inner = entries_nodes(tree.entries@);
            lemma_entries_nodes_nonempty(tree.entries@);
            let big = at_path(p, inner.insert(Seq::empty(), Node::Dir));
            let small = at_path(p, inner);
            assert(entry_nodes(e) == inner.insert(Seq::empty(), Node::Dir));
            assert(big.dom().contains(p) && big[p] == Node::Dir);
            assert(!small.dom().contains(p)) by {
                if small.dom().contains(p) {
                    assert(inner.dom().contains(p.skip(p.len() as int)));
                }
            }
            assert forall|q: Seq<Seq<char>>| q != p implies ((#[trigger] big.dom().contains(q)
                <==> small.dom().contains(q)) && (big.dom().contains(q) ==> big[q] == small[q]))
                by {
                if p.is_prefix_of(q) {
                    if q.skip(p.len() as int) =~= Seq::<Seq<char>>::empty() {
                        lemma_prefix_split(p, q);
                        assert(q =~= p);
                    }
                }
            }
            assert(fs1.union_prefer_right(small) =~= fs.union_prefer_right(big));
        },
    }
}

/// Materializing an entry list under an existing directory `p`, on a
/// filesystem holding nothing at or below any of the children, succeeds and
/// adds exactly the list's nodes below `p`.
proof fn lemma_entries_plan_applies(fs: Disk, p: Seq<Seq<char>>, s: Seq<(String, Entry)>)
    requires
        entries_wf(s),
        fs.dom().contains(p),
        fs[p] is Dir,
        forall|i: int| 0 <= i < s.len() ==> fresh_below(fs, p.push((#[trigger] s[i]).0@)),
    ensures
        apply_plan(fs, entries_plan(p, s)) == Some(
            fs.union_prefer_right(at_path(p, entries_nodes(s))),
        ),
    decreases s,
{
    if s.len() == 0 {
        assert(entries_plan(p, s) =~= Seq::<(Seq<Seq<char>>, Node)>::empty());
        assert(fs.union_prefer_right(at_path(p, entries_nodes(s))) =~= fs);
    } else {
        let name = s.first().0@;
        let e0 = s.first().1;
        let c = p.push(name);
        let head = entry_plan(c, e0);
        let rest_plan = entries_plan(p, s.drop_first());
        assert(entries_plan(p, s) == head + rest_plan);
        lemma_apply_plan_concat(fs, head, rest_plan);
        lemma_prefix_extend(p, name);
        assert(c.drop_last() =~= p);
        assert(parent_is_dir(fs, c));
        assert(s[0] == s.first());
        assert(fresh_below(fs, c));
        assert(entry_wf(e0));
        lemma_entry_plan_applies(fs, c, e0);
        let m0 = at_path(c, entry_nodes(e0));
        let fs1 = fs.union_prefer_right(m0);
        assert(!m0.dom().contains(p)) by {
            if m0.dom().contains(p) {
                assert(c.is_prefix_of(p));
            }
        }
        assert(fs1.dom().contains(p) && fs1[p] is Dir);
        assert(entries_wf(s.drop_first())) by {
            assert(forall|i: int|
                0 <= i < s.drop_first().len() ==> #[trigger] s.drop_first()[i] == s[i + 1]);
        }
        assert forall|i: int| 0 <= i < s.drop_first().len() implies fresh_below(
            fs1,
            p.push((#[trigger] s.drop_first()[i]).0@),
        ) by {
            let ni = s.drop_first()[i].0@;
            assert(s.drop_first()[i] == s[i + 1]);
            assert(fresh_below(fs, p.push(ni)));
            lemma_prefix_extend(p, ni);
            assert forall|q: Seq<Seq<char>>| #[trigger] fs1.dom().contains(q) implies !p.push(
                ni,
            ).is_prefix_of(q) by {
                if fs.dom().contains(q) {
                    assert(!p.push(ni).is_prefix_of(q));
                } else {
                    assert(m0.dom().contains(q));
                    assert(c.is_prefix_of(q));
                    if p.push(ni).is_prefix_of(q) {
                        lemma_prefix_same_len(c, p.push(ni), q);
                        assert(c[p.len() as int] == name);
                        assert(p.push(ni)[p.len() as int] == ni);
                        assert(s[0].0@ == s[i + 1].0@);
                        assert(false);
                    }
                }
            }
        }
        lemma_entries_plan_applies(fs1, p, s.drop_first());
        let m_rest = at_path(p, entries_nodes(s.drop_first()));
        lemma_at_path_union(p, at_path(seq![name], entry_nodes(e0)), entries_nodes(s.drop_first()));
        lemma_at_path_compose(p, name, entry_nodes(e0));
        assert(at_path(p, entries_nodes(s)) == m0.union_prefer_right(m_rest));
        assert(fs1.union_prefer_right(m_rest) =~= fs.union_prefer_right(
            m0.union_prefer_right(m_rest),
        ));
    }
}

/// Relocating below the empty path changes nothing.
proof fn lemma_at_path_at_base(m: Disk)
    ensures
        at_path(Seq::empty(), m) == m,
{
    let e = Seq::<Seq<char>>::empty();
    assert forall|q: Seq<Seq<char>>| e.is_prefix_of(q) && #[trigger] q.skip(0) == q by {
        assert(e =~= q.subrange(0, 0));
        assert(q.skip(0) =~= q);
    }
    assert(at_path(e, m) =~= m);
}

/// A fresh base directory: it exists, it is a directory, and it holds
/// nothing else.
pub open spec fn fresh_base(fs: Disk) -> bool {
    &&& fs.dom().contains(Seq::<Seq<char>>::empty())
    &&& fs[Seq::<Seq<char>>::empty()] is Dir
    &&& forall|q: Seq<Seq<char>>| #[trigger] fs.dom().contains(q) ==> q.len() == 0
}

/// Structure fidelity: on a fresh base directory the plan of a well-formed
/// tree succeeds, and the filesystem afterwards is the base plus exactly the
/// tree's nodes: every modelled directory and file at its modelled path, and
/// nothing else.
pub proof fn lemma_instantiate_fidelity(t: Tree, fs: Disk)
    requires
        t.wf(),
        fresh_base(fs),
    ensures
        apply_plan(fs, t.plan()) == Some(fs.union_prefer_right(tree_nodes(t))),
{
    let e = Seq::<Seq<char>>::empty();
    assert forall|i: int| 0 <= i < t.entries@.len() implies fresh_below(
        fs,
        e.push((#[trigger] t.entries@[i]).0@),
    ) by {
        let c = e.push(t.entries@[i].0@);
        assert forall|q: Seq<Seq<char>>| #[trigger] fs.dom().contains(q) implies !c.is_prefix_of(
            q,
        ) by {
            assert(q.len() == 0);
        }
    }
    lemma_entries_plan_applies(fs, e, t.entries@);
    lemma_at_path_at_base(entries_nodes(t.entries@));
    assert(t.plan() == entries_plan(e, t.entries@));
}

/// The node an entry itself stands for.
pub open spec fn top_node(e: Entry) -> Node {
    match e {
        Entry::File { contents } => Node::File { contents: contents@ },
        Entry::Tree { .. } => Node::Dir,
    }
}

/// Every denoted path starts with the name of the entry it comes from, and
/// holds that entry's node for the remainder of the path.
proof fn lemma_entries_nodes_member(s: Seq<(String, Entry)>, q: Seq<Seq<char>>)
    requires
        entries_nodes(s).dom().contains(q),
    ensures
        q.len() >= 1,
        exists|j: int|
            0 <= j < s.len() && (#[trigger] s[j]).0@ == q[0] && entry_nodes(s[j].1).dom().contains(
                q.skip(1),
            ) && entries_nodes(s)[q] == entry_nodes(s[j].1)[q.skip(1)],
    decreases s.len(),
{
    let a_m = at_path(seq![s.first().0@], entry_nodes(s.first().1));
    let b_m = entries_nodes(s.drop_first());
    assert(entries_nodes(s) == a_m.union_prefer_right(b_m));
    if b_m.dom().contains(q) {
        lemma_entries_nodes_member(s.drop_first(), q);
        let j0 = choose|j: int|
            0 <= j < s.drop_first().len() && (#[trigger] s.drop_first()[j]).0@ == q[0]
                && entry_nodes(s.drop_first()[j].1).dom().contains(q.skip(1)) && entries_nodes(
                s.drop_first(),
            )[q] == entry_nodes(s.drop_first()[j].1)[q.skip(1)];
        assert(s.drop_first()[j0] == s[j0 + 1]);
        assert((#[trigger] s[j0 + 1]).0@ == q[0] && entry_nodes(s[j0 + 1].1).dom().contains(
            q.skip(1),
        ) && entries_nodes(s)[q] == entry_nodes(s[j0 + 1].1)[q.skip(1)]);
    } else {
        assert(a_m.dom().contains(q));
        assert(seq![s.first().0@].is_prefix_of(q));
        assert(seq![s.first().0@] =~= q.subrange(0, 1));
        assert(seq![s.first().0@][0] == s.first().0@);
        assert(q.subrange(0, 1)[0] == q[0]);
        assert(q[0] == s.first().0@);
        assert(s.first() == s[0]);
        assert(entry_nodes(s[0].1).dom().contains(q.skip(1)));
        assert(entries_nodes(s)[q] == a_m[q]);
        assert(a_m[q] == entry_nodes(s[0].1)[q.skip(1)]);
        assert((#[trigger] s[0]).0@ == q[0]);
    }
}

/// In a well-formed list, entry `i` stands at its own single-component path
/// with its own node.
proof fn lemma_entries_nodes_at(s: Seq<(String, Entry)>, i: int)
    requires
        entries_wf(s),
        0 <= i < s.len(),
    ensures
        entries_nodes(s).dom().contains(seq![s[i].0@]),
        entries_nodes(s)[seq![s[i].0@]] == top_node(s[i].1),
    decreases s.len(),
{
    let a_m = at_path(seq![s.first().0@], entry_nodes(s.first().1));
    let b_m = entries_nodes(s.drop_first());
    assert(entries_nodes(s) == a_m.union_prefer_right(b_m));
    let q = seq![s[i].0@];
    assert(q.skip(1) =~= Seq::<Seq<char>>::empty());
    if i == 0 {
        assert(q =~= q.subrange(0, 1));
        assert(q.is_prefix_of(q));
        assert(entry_nodes(s[0].1).dom().contains(Seq::<Seq<char>>::empty()) && entry_nodes(
            s[0].1,
        )[Seq::<Seq<char>>::empty()] == top_node(s[0].1)) by {
            match s[0].1 {
                Entry::File { contents } => {},
                Entry::Tree { tree } => {},
            }
        }
        assert(s.first() == s[0]);
        assert(a_m.dom().contains(q));
        assert(a_m[q] == top_node(s[0].1));
        if b_m.dom().contains(q) {
            lemma_entries_nodes_member(s.drop_first(), q);
            let j0 = choose|j: int|
                0 <= j < s.drop_first().len() && (#[trigger] s.drop_first()[j]).0@ == q[0]
                    && entry_nodes(s.drop_first()[j].1).dom().contains(q.skip(1)) && entries_nodes(
                    s.drop_first(),
                )[q] == entry_nodes(s.drop_first()[j].1)[q.skip(1)];
            assert(s.drop_first()[j0] == s[j0 + 1]);
            assert(s[j0 + 1].0@ == s[0].0@);
            assert(false);
        }
        assert(entries_nodes(s)[q] == a_m[q]);
    } else {
        assert(forall|k: int|
            0 <= k < s.drop_first().len() ==> #[trigger] s.drop_first()[k] == s[k + 1]);
        assert(entries_wf(s.drop_first()));
        lemma_entries_nodes_at(s.drop_first(), i - 1);
        assert(s.drop_first()[i - 1] == s[i]);
        assert(b_m.dom().contains(q));
        assert(entries_nodes(s)[q] == b_m[q]);
    }
}

/// Round trip: after a well-formed tree is materialized on a fresh base
/// directory, any top-level file child stands on disk at its own name with
/// exactly the contents the model holds, byte for byte.
pub proof fn lemma_round_trip(t: Tree, fs: Disk, i: int)
    requires
        t.wf(),
        fresh_base(fs),
        0 <= i < t.entries@.len(),
        t.entries@[i].1 is File,
    ensures
        apply_plan(fs, t.plan()) == Some(fs.union_prefer_right(tree_nodes(t))),
        fs.union_prefer_right(tree_nodes(t)).dom().contains(seq![t.entries@[i].0@]),
        fs.union_prefer_right(tree_nodes(t))[seq![t.entries@[i].0@]] == top_node(t.entries@[i].1),
{
    lemma_instantiate_fidelity(t, fs);
    lemma_entries_nodes_at(t.entries@, i);
}

/// An empty nested tree becomes a directory on disk with zero entries:
/// after materialization on a fresh base directory, its path holds a
/// directory and no path strictly below it exists.
pub proof fn lemma_empty_directory(t: Tree, fs: Disk, i: int)
    requires
        t.wf(),
        fresh_base(fs),
        0 <= i < t.entries@.len(),
        t.entries@[i].1 is Tree,
        t.entries@[i].1->tree.entries@.len() == 0,
    ensures
        apply_plan(fs, t.plan()) == Some(fs.union_prefer_right(tree_nodes(t))),
        fs.union_prefer_right(tree_nodes(t)).dom().contains(seq![t.entries@[i].0@]),
        fs.union_prefer_right(tree_nodes(t))[seq![t.entries@[i].0@]] is Dir,
        forall|q: Seq<Seq<char>>|
            #[trigger] fs.union_prefer_right(tree_nodes(t)).dom().contains(q) && seq![
                t.entries@[i].0@,
            ].is_prefix_of(q) ==> q == seq![t.entries@[i].0@],
{
    lemma_instantiate_fidelity(t, fs);
    lemma_entries_nodes_at(t.entries@, i);
    let name = t.entries@[i].0@;
    let c = seq![name];
    assert forall|q: Seq<Seq<char>>|
        #[trigger] fs.union_prefer_right(tree_nodes(t)).dom().contains(q) && c.is_prefix_of(
            q,
        ) implies q == c by {
        assert(q.len() >= 1);
        assert(!fs.dom().contains(q));
        assert(tree_nodes(t).dom().contains(q));
        lemma_entries_nodes_member(t.entries@, q);
        let j0 = choose|j: int|
            0 <= j < t.entries@.len() && (#[trigger] t.entries@[j]).0@ == q[0] && entry_nodes(
                t.entries@[j].1,
            ).dom().contains(q.skip(1)) && entries_nodes(t.entries@)[q] == entry_nodes(
                t.entries@[j].1,
            )[q.skip(1)];
        assert(c =~= q.subrange(0, 1));
        assert(c[0] == name);
        assert(q.subrange(0, 1)[0] == q[0]);
        assert(q[0] == name);
        assert(j0 == i) by {
            if j0 < i {
                assert(t.entries@[j0].0@ != t.entries@[i].0@);
            } else if j0 > i {
                assert(t.entries@[i].0@ != t.entries@[j0].0@);
            }
        }
        let sub = t.entries@[i].1->tree;
        assert(entry_nodes(t.entries@[i].1) == tree_nodes(sub).insert(
            Seq::empty(),
            Node::Dir,
        ));
        assert(tree_nodes(sub) =~= Map::<Seq<Seq<char>>, Node>::empty());
        assert(q.skip(1) =~= Seq::<Seq<char>>::empty());
        lemma_prefix_split(c, q);
        assert(q =~= c);
    }
}

/// Collision failure: materializing a directory entry at a path that
/// already holds a file fails at once, as does a file entry at a path that
/// holds a directory; nothing is merged or overwritten.
pub proof fn lemma_collision_fails(fs: Disk, p: Seq<Seq<char>>, e: Entry)
    requires
        fs.dom().contains(p),
        e is Tree ==> fs[p] is File,
        e is File ==> fs[p] is Dir,
    ensures
        apply_plan(fs, entry_plan(p, e)) == None::<Disk>,
{
    match e {
        Entry::File { contents } => {
            let plan = entry_plan(p, e);
            assert(plan.first() == (p, Node::File { contents: contents@ }));
            assert(!node_allowed(fs, p, plan.first().1));
        },
        Entry::Tree { tree } => {
            let plan = entry_plan(p, e);
            assert(plan == seq![(p, Node::Dir)] + entries_plan(p, tree.entries@));
            assert(plan.first() == (p, Node::Dir));
            assert(!node_allowed(fs, p, Node::Dir));
        },
    }
}

/// If some operation of a plan creates a directory at a path that already
/// exists, or writes a file at a path that holds a directory, and no
/// earlier operation acts on that path, the whole run fails.
proof fn lemma_plan_obstructed(fs: Disk, ops: Seq<(Seq<Seq<char>>, Node)>, k: int)
    requires
        0 <= k < ops.len(),
        fs.dom().contains(ops[k].0),
        ops[k].1 is Dir || fs[ops[k].0] is Dir,
        forall|j: int| 0 <= j < k ==> (#[trigger] ops[j]).0 != ops[k].0,
    ensures
        apply_plan(fs, ops) == None::<Disk>,
    decreases ops.len(),
{
    if k == 0 {
        assert(ops.first() == ops[0]);
        assert(!node_allowed(fs, ops.first().0, ops.first().1));
    } else {
        assert(ops.first() == ops[0]);
        match apply_node(fs, ops.first().0, ops.first().1) {
            Some(fs1) => {
                assert(ops[0].0 != ops[k].0);
                assert(fs1.dom().contains(ops[k].0));
                assert(forall|j: int|
                    0 <= j < ops.drop_first().len() ==> #[trigger] ops.drop_first()[j] == ops[j
                        + 1]);
                lemma_plan_obstructed(fs1, ops.drop_first(), k - 1);
            },
            None => {
            },
        }
    }
}

/// An entry list's plan splits at any boundary `i` of the list.
proof fn lemma_entries_plan_cat(p: Seq<Seq<char>>, s: Seq<(String, Entry)>, i: int)
    requires
        0 <= i <= s.len(),
    ensures
        entries_plan(p, s) == entries_plan(p, s.take(i)) + entries_plan(p, s.skip(i)),
    decreases i,
{
    if i == 0 {
        assert(s.take(0) =~= Seq::<(String, Entry)>::empty());
        assert(s.skip(0) =~= s);
        assert(entries_plan(p, s.take(0)) =~= Seq::<(Seq<Seq<char>>, Node)>::empty());
        assert(entries_plan(p, s) =~= entries_plan(p, s.take(0)) + entries_plan(p, s.skip(0)));
    } else {
        let sdf = s.drop_first();
        lemma_entries_plan_cat(p, sdf, i - 1);
        assert(s.take(i).first() == s.first());
        assert(s.take(i).drop_first() =~= sdf.take(i - 1));
        assert(s.skip(i) =~= sdf.skip(i - 1));
        assert(entries_plan(p, s.take(i)) == entry_plan(p.push(s.first().0@), s.first().1)
            + entries_plan(p, sdf.take(i - 1)));
        assert(entries_plan(p, s) =~= entries_plan(p, s.take(i)) + entries_plan(p, s.skip(i)));
    }
}

/// Every operation of an entry's plan acts at or below the entry's path.
proof fn lemma_entry_plan_paths(c: Seq<Seq<char>>, e: Entry)
    ensures
        forall|k: int|
            0 <= k < entry_plan(c, e).len() ==> c.is_prefix_of((#[trigger] entry_plan(c, e)[k]).0),
    decreases e,
{
    assert(c =~= c.subrange(0, c.len() as int));
    assert(c.is_prefix_of(c));
    match e {
        Entry::File { .. } => {
        },
        Entry::Tree { tree } => {
            lemma_entries_plan_paths(c, tree.entries@);
            let inner = entries_plan(c, tree.entries@);
            assert forall|k: int| 0 <= k < entry_plan(c, e).len() implies c.is_prefix_of(
                (#[trigger] entry_plan(c, e)[k]).0,
            ) by {
                if k > 0 {
                    assert(entry_plan(c, e)[k] == inner[k - 1]);
                }
            }
        },
    }
}

/// Every operation of an entry list's plan acts strictly below `p`, under
/// the name of one of the entries.
proof fn lemma_entries_plan_paths(p: Seq<Seq<char>>, s: Seq<(String, Entry)>)
    ensures
        forall|k: int|
            0 <= k < entries_plan(p, s).len() ==> {
                let q = (#[trigger] entries_plan(p, s)[k]).0;
                p.is_prefix_of(q) && q.len() > p.len() && crate::has_key(s, q[p.len() as int])
            },
    decreases s,
{
    if s.len() > 0 {
        let name = s.first().0@;
        let c = p.push(name);
        let head = entry_plan(c, s.first().1);
        let rest = entries_plan(p, s.drop_first());
        assert(entries_plan(p, s) == head + rest);
        lemma_entry_plan_paths(c, s.first().1);
        lemma_entries_plan_paths(p, s.drop_first());
        lemma_prefix_extend(p, name);
        assert(forall|j: int|
            0 <= j < s.drop_first().len() ==> #[trigger] s.drop_first()[j] == s[j + 1]);
        assert forall|k: int| 0 <= k < entries_plan(p, s).len() implies {
            let q = (#[trigger] entries_plan(p, s)[k]).0;
            p.is_prefix_of(q) && q.len() > p.len() && crate::has_key(s, q[p.len() as int])
        } by {
            let q = entries_plan(p, s)[k].0;
            if k < head.len() {
                assert(entries_plan(p, s)[k] == head[k]);
                assert(c.is_prefix_of(q));
                assert(s[0].0@ == name);
                assert(crate::has_key(s, q[p.len() as int]));
            } else {
                assert(entries_plan(p, s)[k] == rest[k - head.len()]);
                assert(p.is_prefix_of(q) && q.len() > p.len());
                assert(crate::has_key(s.drop_first(), q[p.len() as int]));
                let j0 = choose|j: int|
                    0 <= j < s.drop_first().len() && (#[trigger] s.drop_first()[j]).0@ == q[p.len()
                        as int];
                assert(s[j0 + 1].0@ == q[p.len() as int]);
                assert(crate::has_key(s, q[p.len() as int]));
            }
        }
    }
}

/// Collision aborts a whole instantiation: when a top-level directory
/// entry of a well-formed tree names a path that already exists under the
/// base, or a top-level file entry names a path that exists as a directory,
/// the plan fails as a whole, however much else it would have done.
pub proof fn lemma_tree_collision_fails(t: Tree, fs: Disk, i: int)
    requires
        t.wf(),
        fs.dom().contains(Seq::<Seq<char>>::empty()),
        fs[Seq::<Seq<char>>::empty()] is Dir,
        0 <= i < t.entries@.len(),
        fs.dom().contains(seq![t.entries@[i].0@]),
        t.entries@[i].1 is Tree || fs[seq![t.entries@[i].0@]] is Dir,
    ensures
        apply_plan(fs, t.plan()) == None::<Disk>,
{
    let s = t.entries@;
    let e = Seq::<Seq<char>>::empty();
    let name = s[i].0@;
    let c = seq![name];
    assert(c =~= e.push(name));
    lemma_entries_plan_cat(e, s, i);
    let before = entries_plan(e, s.take(i));
    let after = entries_plan(e, s.skip(i));
    assert(s.skip(i).first() == s[i]);
    assert(s.skip(i).drop_first() =~= s.skip(i + 1));
    assert(after == entry_plan(e.push(s[i].0@), s[i].1) + entries_plan(e, s.skip(i + 1)));
    let own = entry_plan(c, s[i].1);
    assert(own[0] == (c, top_node(s[i].1))) by {
        match s[i].1 {
            Entry::File { contents } => {
                assert(own == seq![(c, Node::File { contents: contents@ })]);
            },
            Entry::Tree { tree } => {
                assert(own == seq![(c, Node::Dir)] + entries_plan(c, tree.entries@));
            },
        }
    }
    let k = before.len() as int;
    assert(t.plan() == before + after);
    assert(t.plan()[k] == after[0]);
    assert(after[0] == own[0]);
    lemma_entries_plan_paths(e, s.take(i));
    assert forall|j: int| 0 <= j < k implies (#[trigger] t.plan()[j]).0 != c by {
        assert(t.plan()[j] == before[j]);
        let q = before[j].0;
        assert(q.len() > 0 && crate::has_key(s.take(i), q[0]));
        if q == c {
            assert(q[0] == name);
            let j0 = choose|j2: int|
                0 <= j2 < s.take(i).len() && (#[trigger] s.take(i)[j2]).0@ == q[0];
            assert(s.take(i)[j0] == s[j0]);
            assert(s[j0].0@ == s[i].0@);
            assert(false);
        }
    }
    lemma_plan_obstructed(fs, t.plan(), k);
}

/// One entry after a transform whose outputs equal their inputs denotes
/// what it denoted before.
proof fn lemma_identity_entry<F: Fn(&str, &str) -> String>(
    f: F,
    name: Seq<char>,
    a: Entry,
    b: Entry,
)
    requires
        entry_mapped(f, name, a, b),
        forall|args: (&str, &str), r: String|
            #[trigger] call_ensures(f, args, r) ==> r@ == args.1@,
    ensures
        entry_nodes(b) == entry_nodes(a),
    decreases a,
{
    match a {
        Entry::File { contents } => {
            let mapped = b->contents;
            assert(file_mapped(f, name, contents@, mapped));
            let args = choose|args: (&str, &str)|
                args.0@ == name && args.1@ == contents@ && #[trigger] call_ensures(f, args, mapped);
            assert(mapped@ == contents@);
            assert(entry_nodes(b) =~= entry_nodes(a));
        },
        Entry::Tree { tree } => {
            let tb = b->tree;
            assert(tree_mapped(f, tree, tb));
            lemma_identity_entries(f, tree.entries@, tb.entries@);
            assert(entry_nodes(b) =~= entry_nodes(a));
        },
    }
}

/// An entry list after such a transform denotes what it denoted before.
proof fn lemma_identity_entries<F: Fn(&str, &str) -> String>(
    f: F,
    a: Seq<(String, Entry)>,
    b: Seq<(String, Entry)>,
)
    requires
        b.len() == a.len(),
        forall|i: int| 0 <= i < a.len() ==> (#[trigger] b[i]).0 == a[i].0,
        forall|i: int| 0 <= i < a.len() ==> entry_mapped(f, a[i].0@, a[i].1, (#[trigger] b[i]).1),
        forall|args: (&str, &str), r: String|
            #[trigger] call_ensures(f, args, r) ==> r@ == args.1@,
    ensures
        entries_nodes(b) == entries_nodes(a),
    decreases a,
{
    if a.len() == 0 {
        assert(entries_nodes(b) =~= entries_nodes(a));
    } else {
        lemma_identity_entry(f, a[0].0@, a[0].1, b[0].1);
        assert(forall|i: int|
            0 <= i < a.drop_first().len() ==> #[trigger] a.drop_first()[i] == a[i + 1]);
        assert(forall|i: int|
            0 <= i < b.drop_first().len() ==> #[trigger] b.drop_first()[i] == b[i + 1]);
        lemma_identity_entries(f, a.drop_first(), b.drop_first());
        assert(b.first() == b[0] && a.first() == a[0]);
        assert(b[0].0 == a[0].0);
        assert(entry_nodes(b.first().1) == entry_nodes(a.first().1));
        assert(entries_nodes(b) == entries_nodes(a));
    }
}

/// Identity transform: a content transform whose every output equals its
/// second input leaves the tree's denotation — structure, names and file
/// contents — exactly as it was.
pub proof fn lemma_map_identity<F: Fn(&str, &str) -> String>(f: F, a: Tree, b: Tree)
    requires
        tree_mapped(f, a, b),
        forall|args: (&str, &str), r: String|
            #[trigger] call_ensures(f, args, r) ==> r@ == args.1@,
    ensures
        tree_nodes(b) == tree_nodes(a),
        b.entries@.len() == a.entries@.len(),
        forall|i: int| 0 <= i < a.entries@.len() ==> (#[trigger] b.entries@[i]).0 == a.entries@[i].0,
{
    lemma_identity_entries(f, a.entries@, b.entries@);
}

} // verus!
