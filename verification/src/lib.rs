//! An in-memory model of a nested file/directory tree.
//!
//! A [`Tree`] maps child names to entries; an [`Entry`] is either a file with
//! string contents or a nested tree.  [`Tree::instantiate`] turns a tree into
//! the ordered list of filesystem operations ([`Op`]) that materialize it
//! under a base directory; an unverified shell performs those operations with
//! real filesystem calls.  [`Tree::map`] rewrites every file's contents in
//! place without touching the structure.

use vstd::prelude::*;
use vstd::string::StrSliceExecFns;

pub mod semantics;

verus! {

/// One named child of a [`Tree`]: a file leaf owning its contents, or a
/// nested tree owned by value.
pub enum Entry {
    File { contents: String },
    Tree { tree: Tree },
}

/// A directory's named children, keyed by one-component names.
///
/// Keys are unique; inserting an existing name overwrites its entry.  The
/// order of `entries` is insertion order and determines the order of the
/// operations that [`Tree::instantiate`] emits.
pub struct Tree {
    pub entries: Vec<(String, Entry)>,
}

/// A child name must be a single path component: nonempty and free of
/// separators.
pub open spec fn valid_name(name: Seq<char>) -> bool {
    name.len() > 0 && !name.contains('/')
}

/// Well-formedness of one entry: nested trees are well-formed.
pub open spec fn entry_wf(e: Entry) -> bool
    decreases e,
{
    match e {
        Entry::File { .. } => true,
        Entry::Tree { tree } => tree.wf(),
    }
}

/// Well-formedness of an entry list: valid, pairwise-distinct names, and
/// well-formed entries.
pub open spec fn entries_wf(s: Seq<(String, Entry)>) -> bool
    decreases s,
{
    &&& (forall|i: int| 0 <= i < s.len() ==> valid_name(#[trigger] s[i].0@))
    &&& (forall|i: int, j: int| 0 <= i < j < s.len() ==> s[i].0@ != s[j].0@)
    &&& (forall|i: int| 0 <= i < s.len() ==> entry_wf(#[trigger] s[i].1))
}

/// The children of an entry list as a map from name to entry; a later pair
/// under the same name wins, as repeated insertion does.
pub open spec fn assoc_map(s: Seq<(String, Entry)>) -> Map<Seq<char>, Entry>
    decreases s.len(),
{
    if s.len() == 0 {
        Map::empty()
    } else {
        assoc_map(s.drop_last()).insert(s.last().0@, s.last().1)
    }
}

/// Whether some pair of `s` is named `name`.
pub open spec fn has_key(s: Seq<(String, Entry)>, name: Seq<char>) -> bool {
    exists|i: int| 0 <= i < s.len() && s[i].0@ == name
}

/// The index of the pair of `s` named `name`; meaningful when `has_key`
/// holds and the names of `s` are distinct.
pub open spec fn key_index(s: Seq<(String, Entry)>, name: Seq<char>) -> int {
    choose|i: int| 0 <= i < s.len() && s[i].0@ == name
}

impl Tree {
    /// Keys valid and unique at every level, recursively.
    pub open spec fn wf(self) -> bool
        decreases self,
    {
        entries_wf(self.entries@)
    }

    /// The children as a map from name to entry.
    pub open spec fn children(self) -> Map<Seq<char>, Entry> {
        assoc_map(self.entries@)
    }

    /// An empty tree: a directory with no children.
    pub fn new() -> (t: Tree)
        ensures
            t.wf(),
            t.entries@ =~= Seq::<(String, Entry)>::empty(),
            t.children() =~= Map::<Seq<char>, Entry>::empty(),
    {
        Tree { entries: Vec::new() }
    }
}

/// Appending a pair makes its name map to its entry and leaves the rest.
proof fn lemma_assoc_map_push(s: Seq<(String, Entry)>, p: (String, Entry))
    ensures
        assoc_map(s.push(p)) == assoc_map(s).insert(p.0@, p.1),
{
    assert(s.push(p).drop_last() =~= s);
    assert(s.push(p).last() == p);
}

/// Replacing the pair at `j` with one of the same name updates the map at
/// that name alone, provided no later pair shares the name.
proof fn lemma_assoc_map_update(s: Seq<(String, Entry)>, j: int, k: String, e: Entry)
    requires
        0 <= j < s.len(),
        k@ == s[j].0@,
        forall|i: int| j < i < s.len() ==> s[i].0@ != s[j].0@,
    ensures
        assoc_map(s.update(j, (k, e))) == assoc_map(s).insert(s[j].0@, e),
    decreases s.len(),
{
    let u = s.update(j, (k, e));
    if j == s.len() - 1 {
        assert(u.drop_last() =~= s.drop_last());
        assert(u.last() == (k, e));
        assert(assoc_map(u) == assoc_map(s.drop_last()).insert(s[j].0@, e));
        assert(assoc_map(s.drop_last()).insert(s[j].0@, s.last().1).insert(s[j].0@, e)
            =~= assoc_map(s.drop_last()).insert(s[j].0@, e));
    } else {
        assert(u.drop_last() =~= s.drop_last().update(j, (k, e)));
        assert(u.last() == s.last());
        lemma_assoc_map_update(s.drop_last(), j, k, e);
        assert(s.drop_last()[j] == s[j]);
        assert(s.last().0@ != s[j].0@);
        assert(assoc_map(s.drop_last()).insert(s[j].0@, e).insert(s.last().0@, s.last().1)
            =~= assoc_map(s.drop_last()).insert(s.last().0@, s.last().1).insert(s[j].0@, e));
    }
}

impl Tree {
    /// Inserts or overwrites the child named `name`.
    ///
    /// A new name is appended after the existing children; an existing name
    /// keeps its position and only its entry changes.  Either way the
    /// children map afterwards is the old map with `name` bound to `entry`.
    pub fn insert(&mut self, name: &'static str, entry: Entry)
        requires
            valid_name(name@),
            old(self).wf(),
            entry_wf(entry),
        ensures
            final(self).wf(),
            final(self).children() == old(self).children().insert(name@, entry),
            has_key(old(self).entries@, name@) ==> {
                let j = key_index(old(self).entries@, name@);
                &&& final(self).entries@.len() == old(self).entries@.len()
                &&& (forall|i: int|
                    0 <= i < old(self).entries@.len() && i != j
                        ==> final(self).entries@[i] == old(self).entries@[i])
                &&& final(self).entries@[j].0@ == name@
                &&& final(self).entries@[j].1 == entry
            },
            !has_key(old(self).entries@, name@) ==> {
                &&& final(self).entries@.len() == old(self).entries@.len() + 1
                &&& final(self).entries@.drop_last() == old(self).entries@
                &&& final(self).entries@.last().0@ == name@
                &&& final(self).entries@.last().1 == entry
            },
    {
        let key: String = name.to_owned();
        let n = self.entries.len();
        let mut i: usize = 0;
        let mut found = false;
        let mut at: usize = 0;
        while i < n
            invariant
                n == self.entries@.len(),
                *self == *old(self),
                key@ == name@,
                0 <= i <= n,
                !found ==> (forall|k: int| 0 <= k < i ==> self.entries@[k].0@ != name@),
                found ==> at < i && self.entries@[at as int].0@ == name@,
            decreases n - i,
        {
            if !found {
                let p = &self.entries[i];
                if p.0 == key {
                    found = true;
                    at = i;
                }
            }
            i = i + 1;
        }
        if found {
            let ghost s = self.entries@;
            let ghost j = at as int;
            self.entries.set(at, (key, entry));
            proof {
                assert(has_key(s, name@));
                let jj = key_index(s, name@);
                assert(0 <= jj < s.len() && s[jj].0@ == name@);
                assert(jj == j);
                lemma_assoc_map_update(s, j, key, entry);
            }
        } else {
            let ghost s = self.entries@;
            self.entries.push((key, entry));
            proof {
                assert(!has_key(s, name@));
                lemma_assoc_map_push(s, (key, entry));
                assert(self.entries@.drop_last() =~= s);
            }
        }
    }
}

/// Whether `name` is acceptable as a child name: nonempty and free of
/// separators.  Callers outside verified code test names with this before
/// inserting them.
pub fn name_ok(name: &str) -> (b: bool)
    ensures
        b == valid_name(name@),
{
    let n = name.unicode_len();
    if n == 0 {
        return false;
    }
    let mut i: usize = 0;
    while i < n
        invariant
            n == name@.len(),
            0 <= i <= n,
            forall|k: int| 0 <= k < i ==> name@[k] != '/',
        decreases n - i,
    {
        if name.get_char(i) == '/' {
            proof {
                assert(name@[i as int] == '/');
            }
            return false;
        }
        i = i + 1;
    }
    proof {
        assert(!name@.contains('/'));
    }
    true
}

/// Duplicate keys overwrite: inserting twice under one name leaves the
/// children as if only the second insertion had happened, and that name
/// holds the second entry; the first never appears.
pub proof fn lemma_insert_overwrites(
    t0: Tree,
    t1: Tree,
    t2: Tree,
    name: Seq<char>,
    e1: Entry,
    e2: Entry,
)
    requires
        t1.children() == t0.children().insert(name, e1),
        t2.children() == t1.children().insert(name, e2),
    ensures
        t2.children() == t0.children().insert(name, e2),
        t2.children()[name] == e2,
{
    assert(t0.children().insert(name, e1).insert(name, e2) =~= t0.children().insert(name, e2));
}

impl Default for Tree {
    /// Same as [`Tree::new`]: an empty tree.
    fn default() -> (t: Tree)
        ensures
            t.wf(),
            t.entries@ =~= Seq::<(String, Entry)>::empty(),
            t.children() =~= Map::<Seq<char>, Entry>::empty(),
    {
        Tree::new()
    }
}

/// The new contents of one file after a content transform by `f`: an output
/// of `f` for the child's own name and the old contents.
pub open spec fn file_mapped<F: Fn(&str, &str) -> String>(
    f: F,
    name: Seq<char>,
    contents: Seq<char>,
    mapped: String,
) -> bool {
    exists|args: (&str, &str)|
        args.0@ == name && args.1@ == contents && #[trigger] call_ensures(f, args, mapped)
}

/// How one entry of the old tree relates to its counterpart after a content
/// transform by `f`: files keep their place and hold an output of `f` for
/// their own name and old contents; nested trees are transformed throughout.
pub open spec fn entry_mapped<F: Fn(&str, &str) -> String>(
    f: F,
    name: Seq<char>,
    a: Entry,
    b: Entry,
) -> bool
    decreases a,
{
    match a {
        Entry::File { contents } => match b {
            Entry::File { contents: mapped } => file_mapped(f, name, contents@, mapped),
            Entry::Tree { .. } => false,
        },
        Entry::Tree { tree } => match b {
            Entry::Tree { tree: mapped } => tree_mapped(f, tree, mapped),
            Entry::File { .. } => false,
        },
    }
}

/// How a tree relates to its counterpart after a content transform by `f`:
/// the same names in the same order, every file's contents an output of `f`,
/// directory membership untouched.
pub open spec fn tree_mapped<F: Fn(&str, &str) -> String>(f: F, a: Tree, b: Tree) -> bool
    decreases a,
{
    &&& b.entries@.len() == a.entries@.len()
    &&& (forall|i: int|
        0 <= i < a.entries@.len() ==> (#[trigger] b.entries@[i]).0 == a.entries@[i].0)
    &&& (forall|i: int|
        0 <= i < a.entries@.len() ==> entry_mapped(
            f,
            a.entries@[i].0@,
            a.entries@[i].1,
            (#[trigger] b.entries@[i]).1,
        ))
}

/// Transforms one entry: a file's contents through `f`, a subtree
/// throughout.  Hands the transform back for further use.
fn map_entry<F: Fn(&str, &str) -> String>(name: &String, e: Entry, f: F) -> (res: (Entry, F))
    requires
        forall|n: &str, o: &str| #[trigger] call_requires(f, (n, o)),
    ensures
        res.1 == f,
        entry_mapped(f, name@, e, res.0),
    decreases e,
{
    match e {
        Entry::File { contents } => {
            let n_ref = name.as_str();
            let o_ref = contents.as_str();
            let mapped = f(n_ref, o_ref);
            proof {
                assert(call_ensures(f, (n_ref, o_ref), mapped));
                assert(entry_mapped(f, name@, e, Entry::File { contents: mapped }));
            }
            (Entry::File { contents: mapped }, f)
        },
        Entry::Tree { tree } => {
            let (v, f2) = map_entries(tree.entries, f);
            (Entry::Tree { tree: Tree { entries: v } }, f2)
        },
    }
}

/// Transforms every entry of the list, keeping names and order.
fn map_entries<F: Fn(&str, &str) -> String>(v: Vec<(String, Entry)>, f: F) -> (res: (
    Vec<(String, Entry)>,
    F,
))
    requires
        forall|n: &str, o: &str| #[trigger] call_requires(f, (n, o)),
    ensures
        res.1 == f,
        res.0@.len() == v@.len(),
        forall|i: int| 0 <= i < v@.len() ==> (#[trigger] res.0@[i]).0 == v@[i].0,
        forall|i: int|
            0 <= i < v@.len() ==> entry_mapped(f, v@[i].0@, v@[i].1, (#[trigger] res.0@[i]).1),
    decreases v@,
{
    let ghost v0 = v@;
    let mut work = v;
    if work.len() == 0 {
        (work, f)
    } else {
        let last = work.pop().unwrap();
        let (name, entry) = last;
        proof {
            assert(work@ == v0.subrange(0, v0.len() - 1));
        }
        let (mut rest, f2) = map_entries(work, f);
        let (e2, f3) = map_entry(&name, entry, f2);
        rest.push((name, e2));
        proof {
            assert(forall|i: int|
                0 <= i < v0.len() - 1 ==> v0.subrange(0, v0.len() - 1)[i] == v0[i]);
        }
        (rest, f3)
    }
}

impl Tree {
    /// Replaces every file's contents, at any depth, with `f` applied to the
    /// child's own name and its current contents.  Names, order and
    /// directory structure stay untouched.
    pub fn map<F: Fn(&str, &str) -> String>(&mut self, f: F)
        requires
            forall|n: &str, o: &str| #[trigger] call_requires(f, (n, o)),
        ensures
            tree_mapped(f, *old(self), *final(self)),
    {
        let mut v: Vec<(String, Entry)> = Vec::new();
        core::mem::swap(&mut self.entries, &mut v);
        let (v2, _f) = map_entries(v, f);
        self.entries = v2;
    }
}

/// A transformed entry of a well-formed entry keeps its shape, its names
/// and their uniqueness at every level.
proof fn lemma_entry_mapped_wf<F: Fn(&str, &str) -> String>(f: F, name: Seq<char>, a: Entry, b: Entry)
    requires
        entry_mapped(f, name, a, b),
        entry_wf(a),
    ensures
        entry_wf(b),
    decreases a,
{
    match a {
        Entry::File { .. } => {
        },
        Entry::Tree { tree } => {
            let tb = b->tree;
            assert(tree_mapped(f, tree, tb));
            assert forall|i: int| 0 <= i < tb.entries@.len() implies entry_wf(
                (#[trigger] tb.entries@[i]).1,
            ) by {
                lemma_entry_mapped_wf(f, tree.entries@[i].0@, tree.entries@[i].1, tb.entries@[i].1);
            }
            assert forall|i: int| 0 <= i < tb.entries@.len() implies valid_name(
                (#[trigger] tb.entries@[i]).0@,
            ) by {
                assert(tb.entries@[i].0 == tree.entries@[i].0);
            }
            assert forall|i: int, j: int| 0 <= i < j < tb.entries@.len() implies tb.entries@[i].0@
                != tb.entries@[j].0@ by {
                assert(tb.entries@[i].0 == tree.entries@[i].0);
                assert(tb.entries@[j].0 == tree.entries@[j].0);
            }
            assert(tb.wf());
        },
    }
}

/// A content transform never alters structure: a transformed well-formed
/// tree is well-formed, with the same names in the same places.
pub proof fn lemma_map_preserves_wf<F: Fn(&str, &str) -> String>(f: F, a: Tree, b: Tree)
    requires
        tree_mapped(f, a, b),
        a.wf(),
    ensures
        b.wf(),
{
    assert forall|i: int| 0 <= i < b.entries@.len() implies entry_wf(
        (#[trigger] b.entries@[i]).1,
    ) by {
        lemma_entry_mapped_wf(f, a.entries@[i].0@, a.entries@[i].1, b.entries@[i].1);
    }
    assert forall|i: int| 0 <= i < b.entries@.len() implies valid_name(
        (#[trigger] b.entries@[i]).0@,
    ) by {
        assert(b.entries@[i].0 == a.entries@[i].0);
    }
    assert forall|i: int, j: int| 0 <= i < j < b.entries@.len() implies b.entries@[i].0@
        != b.entries@[j].0@ by {
        assert(b.entries@[i].0 == a.entries@[i].0);
        assert(b.entries@[j].0 == a.entries@[j].0);
    }
}

/// What a path holds on a filesystem: a directory, or a file with contents.
pub enum Node {
    Dir,
    File { contents: Seq<char> },
}

/// One filesystem operation of an instantiation plan.  The path is relative
/// to the base directory, one component per element.
pub enum Op {
    /// Create a directory; fails if the path already exists.
    Dir { path: Vec<String> },
    /// Write a file, overwriting an existing file; fails on a directory.
    Write { path: Vec<String>, contents: String },
}

/// A component path as a sequence of character sequences.
pub open spec fn path_view(p: Seq<String>) -> Seq<Seq<char>> {
    p.map_values(|c: String| c@)
}

impl Op {
    /// The path the operation acts on.
    pub open spec fn path(self) -> Seq<Seq<char>> {
        match self {
            Op::Dir { path } => path_view(path@),
            Op::Write { path, .. } => path_view(path@),
        }
    }

    /// The node the operation establishes at its path.
    pub open spec fn node(self) -> Node {
        match self {
            Op::Dir { .. } => Node::Dir,
            Op::Write { contents, .. } => Node::File { contents: contents@ },
        }
    }

    /// The operation as a (path, node) pair.
    pub open spec fn model(self) -> (Seq<Seq<char>>, Node) {
        (self.path(), self.node())
    }
}

/// A whole operation list as (path, node) pairs.
pub open spec fn ops_model(ops: Seq<Op>) -> Seq<(Seq<Seq<char>>, Node)> {
    ops.map_values(|o: Op| o.model())
}

/// The operations that materialize one entry at `p`: the entry's own node
/// first, then, depth first, everything inside it.
pub open spec fn entry_plan(p: Seq<Seq<char>>, e: Entry) -> Seq<(Seq<Seq<char>>, Node)>
    decreases e,
{
    match e {
        Entry::File { contents } => seq![(p, Node::File { contents: contents@ })],
        Entry::Tree { tree } => seq![(p, Node::Dir)] + entries_plan(p, tree.entries@),
    }
}

/// The operations that materialize an entry list under the directory `p`,
/// in list order.
pub open spec fn entries_plan(p: Seq<Seq<char>>, s: Seq<(String, Entry)>) -> Seq<
    (Seq<Seq<char>>, Node),
>
    decreases s,
{
    if s.len() == 0 {
        Seq::empty()
    } else {
        entry_plan(p.push(s.first().0@), s.first().1) + entries_plan(p, s.drop_first())
    }
}

/// Extending the list by one pair appends that entry's operations.
proof fn lemma_entries_plan_snoc(p: Seq<Seq<char>>, s: Seq<(String, Entry)>, x: (String, Entry))
    ensures
        entries_plan(p, s.push(x)) == entries_plan(p, s) + entry_plan(p.push(x.0@), x.1),
    decreases s.len(),
{
    if s.len() == 0 {
        assert(s.push(x).first() == x);
        assert(s.push(x).drop_first() =~= Seq::<(String, Entry)>::empty());
        assert(entries_plan(p, s.push(x).drop_first()) =~= Seq::<(Seq<Seq<char>>, Node)>::empty());
        assert(entries_plan(p, s) =~= Seq::<(Seq<Seq<char>>, Node)>::empty());
        assert(entries_plan(p, s.push(x)) =~= entries_plan(p, s) + entry_plan(p.push(x.0@), x.1));
    } else {
        assert(s.push(x).first() == s.first());
        assert(s.push(x).drop_first() =~= s.drop_first().push(x));
        lemma_entries_plan_snoc(p, s.drop_first(), x);
        assert(entries_plan(p, s.push(x)) =~= entries_plan(p, s) + entry_plan(p.push(x.0@), x.1));
    }
}

/// A copy of `prefix` with `name` appended.
fn child_path(prefix: &Vec<String>, name: &String) -> (r: Vec<String>)
    ensures
        r@ == prefix@.push(*name),
{
    let mut r: Vec<String> = Vec::new();
    let mut i: usize = 0;
    while i < prefix.len()
        invariant
            i <= prefix@.len(),
            r@ =~= prefix@.subrange(0, i as int),
        decreases prefix@.len() - i,
    {
        r.push(prefix[i].clone());
        i = i + 1;
    }
    r.push(name.clone());
    proof {
        assert(r@ =~= prefix@.push(*name));
    }
    r
}

/// Appends the operations for one entry standing at `path`.
fn plan_entry(path: &Vec<String>, e: &Entry, out: &mut Vec<Op>)
    ensures
        ops_model(final(out)@) == ops_model(old(out)@) + entry_plan(path_view(path@), *e),
    decreases *e,
{
    match e {
        Entry::File { contents } => {
            out.push(Op::Write { path: child_copy(path), contents: contents.clone() });
            proof {
                assert(ops_model(out@) =~= ops_model(old(out)@) + entry_plan(
                    path_view(path@),
                    *e,
                ));
            }
        },
        Entry::Tree { tree } => {
            out.push(Op::Dir { path: child_copy(path) });
            let ghost mid = out@;
            proof {
                assert(ops_model(mid) =~= ops_model(old(out)@) + seq![
                    (path_view(path@), Node::Dir),
                ]);
            }
            plan_entries(path, &tree.entries, out);
            proof {
                assert(ops_model(out@) =~= ops_model(old(out)@) + entry_plan(
                    path_view(path@),
                    *e,
                ));
            }
        },
    }
}

/// A copy of a component path.
fn child_copy(p: &Vec<String>) -> (r: Vec<String>)
    ensures
        r@ == p@,
{
    let mut r: Vec<String> = Vec::new();
    let mut i: usize = 0;
    while i < p.len()
        invariant
            i <= p@.len(),
            r@ =~= p@.subrange(0, i as int),
        decreases p@.len() - i,
    {
        r.push(p[i].clone());
        i = i + 1;
    }
    proof {
        assert(r@ =~= p@);
    }
    r
}

/// Appends the operations for every entry of `v` under the directory
/// `prefix`, in list order.
fn plan_entries(prefix: &Vec<String>, v: &Vec<(String, Entry)>, out: &mut Vec<Op>)
    ensures
        ops_model(final(out)@) == ops_model(old(out)@) + entries_plan(path_view(prefix@), v@),
    decreases *v,
{
    let mut i: usize = 0;
    while i < v.len()
        invariant
            i <= v@.len(),
            ops_model(out@) == ops_model(old(out)@) + entries_plan(
                path_view(prefix@),
                v@.take(i as int),
            ),
        decreases v@.len() - i,
    {
        let cp = child_path(prefix, &v[i].0);
        proof {
            assert(path_view(cp@) =~= path_view(prefix@).push(v@[i as int].0@));
        }
        plan_entry(&cp, &v[i].1, out);
        proof {
            lemma_entries_plan_snoc(path_view(prefix@), v@.take(i as int), v@[i as int]);
            assert(v@.take(i + 1) =~= v@.take(i as int).push(v@[i as int]));
        }
        i = i + 1;
    }
    proof {
        assert(v@.take(v@.len() as int) =~= v@);
    }
}

impl Tree {
    /// The (path, node) pairs the tree denotes, in depth-first order with
    /// siblings in list order: each entry's own node, then its inside.
    pub open spec fn plan(self) -> Seq<(Seq<Seq<char>>, Node)> {
        entries_plan(Seq::empty(), self.entries@)
    }

    /// Computes the plan that materializes the tree under a base directory:
    /// the list of filesystem operations, depth first, each entry's own node
    /// before its contents.  Performing them in order against the base
    /// directory writes the tree to disk.
    pub fn instantiate(&self) -> (ops: Vec<Op>)
        ensures
            ops_model(ops@) == self.plan(),
    {
        let mut ops: Vec<Op> = Vec::new();
        let base: Vec<String> = Vec::new();
        plan_entries(&base, &self.entries, &mut ops);
        proof {
            assert(path_view(Seq::<String>::empty()) =~= Seq::<Seq<char>>::empty());
            assert(ops_model(Seq::<Op>::empty()) =~= Seq::<(Seq<Seq<char>>, Node)>::empty());
        }
        ops
    }
}

} // verus!
