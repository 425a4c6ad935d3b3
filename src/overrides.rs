//! The override tree: flat `/`-separated keys turned into nested nodes.
use vstd::prelude::*;

use crate::codec::{decode_text, decoded_text};
use crate::requirements::{requirements_view, Requirement, RequirementView};
use crate::store::{entries_view, KvEntry, KvEntryView};
use crate::text::{
    first_index, lemma_first_index_at, lemma_first_index_bounds, split_on, split_str,
    strings_view,
};

verus! {

/// A configuration value, or a mapping from path segment to subtree.
/// The children of a node keep the order in which their keys first appeared.
#[derive(Debug, PartialEq, Eq)]
pub enum Tree {
    Leaf(String),
    Node(Vec<(String, Tree)>),
}

pub enum TreeView {
    Leaf(Seq<char>),
    Node(Seq<(Seq<char>, TreeView)>),
}

pub open spec fn tree_view(t: Tree) -> TreeView
    decreases t, 0nat,
{
    match t {
        Tree::Leaf(s) => TreeView::Leaf(s@),
        Tree::Node(kids) => TreeView::Node(children_view(kids, kids.len() as nat)),
    }
}

/// The view of the first `n` children.
pub open spec fn children_view(kids: Vec<(String, Tree)>, n: nat) -> Seq<(Seq<char>, TreeView)>
    decreases kids, n,
{
    if n == 0 || n > kids.len() {
        seq![]
    } else {
        children_view(kids, (n - 1) as nat).push((kids[n - 1].0@, tree_view(kids[n - 1].1)))
    }
}

impl View for Tree {
    type V = TreeView;

    open spec fn view(&self) -> TreeView {
        tree_view(*self)
    }
}

pub proof fn lemma_children_view(kids: Vec<(String, Tree)>, n: nat)
    requires
        n <= kids.len(),
    ensures
        children_view(kids, n).len() == n,
        forall|j: int|
            0 <= j < n ==> #[trigger] children_view(kids, n)[j] == (kids[j].0@, tree_view(kids[j].1)),
    decreases n,
{
    if n > 0 {
        lemma_children_view(kids, (n - 1) as nat);
    }
}

pub open spec fn has_key(k: Seq<char>) -> spec_fn((Seq<char>, TreeView)) -> bool {
    |e: (Seq<char>, TreeView)| e.0 == k
}

/// Position of the child with key `k`, or the number of children.
pub open spec fn find_key(kids: Seq<(Seq<char>, TreeView)>, k: Seq<char>) -> int {
    first_index(kids, has_key(k))
}

/// The tree after recording `text` at `path`: the node of each segment but
/// the last is found or appended (a leaf standing there is replaced by an
/// empty node), and the last segment then holds a leaf of `text`, whatever
/// stood there before.
pub open spec fn insert_path(t: TreeView, path: Seq<Seq<char>>, text: Seq<char>) -> TreeView
    decreases path.len(),
{
    if path.len() == 0 {
        TreeView::Leaf(text)
    } else {
        let kids = match t {
            TreeView::Node(k) => k,
            TreeView::Leaf(_) => seq![],
        };
        let i = find_key(kids, path[0]);
        if 0 <= i < kids.len() {
            TreeView::Node(
                kids.update(i, (path[0], insert_path(kids[i].1, path.drop_first(), text))),
            )
        } else {
            TreeView::Node(
                kids.push((path[0], insert_path(TreeView::Node(seq![]), path.drop_first(), text))),
            )
        }
    }
}

/// The tree built from `(key, text)` entries taken in order, starting from
/// an empty node.
pub open spec fn build_spec(entries: Seq<(Seq<char>, Seq<char>)>) -> TreeView
    decreases entries.len(),
{
    if entries.len() == 0 {
        TreeView::Node(seq![])
    } else {
        insert_path(build_spec(entries.drop_last()), split_on(entries.last().0, '/'), entries.last().1)
    }
}

pub open spec fn keys_unique(kids: Seq<(Seq<char>, TreeView)>) -> bool {
    forall|i: int, j: int|
        0 <= i < kids.len() && 0 <= j < kids.len() && i != j ==> kids[i].0 != kids[j].0
}

/// Well-formed: the children of every node have distinct keys, so that a
/// node is a mapping from key to subtree.
pub open spec fn tree_wf(t: TreeView) -> bool
    decreases t, 0nat,
{
    match t {
        TreeView::Leaf(_) => true,
        TreeView::Node(kids) => keys_unique(kids) && kids_wf(kids, kids.len()),
    }
}

/// The first `n` children are well-formed.
pub open spec fn kids_wf(kids: Seq<(Seq<char>, TreeView)>, n: nat) -> bool
    decreases kids, n,
{
    if n == 0 || n > kids.len() {
        true
    } else {
        kids_wf(kids, (n - 1) as nat) && tree_wf(kids[n - 1].1)
    }
}

pub proof fn lemma_kids_wf(kids: Seq<(Seq<char>, TreeView)>, n: nat)
    requires
        n <= kids.len(),
    ensures
        kids_wf(kids, n) <==> forall|j: int| 0 <= j < n ==> tree_wf(#[trigger] kids[j].1),
    decreases n,
{
    if n > 0 {
        lemma_kids_wf(kids, (n - 1) as nat);
    }
}

/// Recording a value keeps a tree well-formed.
pub proof fn lemma_insert_keeps_wf(t: TreeView, path: Seq<Seq<char>>, text: Seq<char>)
    requires
        tree_wf(t),
    ensures
        tree_wf(insert_path(t, path, text)),
    decreases path.len(),
{
    if path.len() > 0 {
        let kids = match t {
            TreeView::Node(k) => k,
            TreeView::Leaf(_) => seq![],
        };
        lemma_kids_wf(kids, kids.len());
        lemma_first_index_bounds(kids, has_key(path[0]));
        let i = find_key(kids, path[0]);
        let r = insert_path(t, path, text);
        if 0 <= i < kids.len() {
            lemma_insert_keeps_wf(kids[i].1, path.drop_first(), text);
            let nk = kids.update(i, (path[0], insert_path(kids[i].1, path.drop_first(), text)));
            assert(r == TreeView::Node(nk));
            lemma_kids_wf(nk, nk.len());
            assert(forall|j: int| 0 <= j < nk.len() ==> #[trigger] nk[j].0 == kids[j].0);
        } else {
            let empty = TreeView::Node(seq![]);
            lemma_kids_wf(seq![], 0);
            lemma_insert_keeps_wf(empty, path.drop_first(), text);
            let nk = kids.push((path[0], insert_path(empty, path.drop_first(), text)));
            assert(r == TreeView::Node(nk));
            lemma_kids_wf(nk, nk.len());
            assert forall|a: int, b: int|
                0 <= a < nk.len() && 0 <= b < nk.len() && a != b implies nk[a].0 != nk[b].0 by {
                if a == kids.len() {
                    assert(!has_key(path[0])(kids[b]));
                } else if b == kids.len() {
                    assert(!has_key(path[0])(kids[a]));
                }
            }
        }
    }
}

/// A tree built from entries is well-formed.
pub proof fn lemma_build_wf(entries: Seq<(Seq<char>, Seq<char>)>)
    ensures
        tree_wf(build_spec(entries)),
    decreases entries.len(),
{
    if entries.len() == 0 {
        lemma_kids_wf(seq![], 0);
    } else {
        lemma_build_wf(entries.drop_last());
        lemma_insert_keeps_wf(
            build_spec(entries.drop_last()),
            split_on(entries.last().0, '/'),
            entries.last().1,
        );
    }
}

pub open spec fn pairs_view(v: Seq<(String, String)>) -> Seq<(Seq<char>, Seq<char>)> {
    v.map_values(|p: (String, String)| (p.0@, p.1@))
}

fn position_of_key(kids: &Vec<(String, Tree)>, key: &String) -> (r: usize)
    ensures
        r as int == find_key(children_view(*kids, kids.len() as nat), key@),
{
    let ghost kv = children_view(*kids, kids.len() as nat);
    proof {
        lemma_children_view(*kids, kids.len() as nat);
    }
    let mut i: usize = 0;
    while i < kids.len()
        invariant
            kv == children_view(*kids, kids.len() as nat),
            kv.len() == kids.len(),
            forall|j: int| 0 <= j < kids.len() ==> #[trigger] kv[j] == (kids[j].0@, tree_view(kids[j].1)),
            i <= kids.len(),
            forall|j: int| 0 <= j < i ==> kv[j].0 != key@,
        decreases kids.len() - i,
    {
        if kids[i].0 == *key {
            proof {
                lemma_first_index_at(kv, has_key(key@), i as int);
            }
            return i;
        }
        i += 1;
    }
    proof {
        lemma_first_index_at(kv, has_key(key@), i as int);
    }
    i
}

/// Records `text` in `t` at the path made of the segments of `path` from
/// position `from` on.
fn insert_segments(t: Tree, path: &Vec<String>, from: usize, text: &String) -> (r: Tree)
    requires
        from <= path.len(),
    ensures
        r@ == insert_path(t@, strings_view(path@).subrange(from as int, path.len() as int), text@),
    decreases path.len() - from,
{
    let ghost p = strings_view(path@).subrange(from as int, path.len() as int);
    if from == path.len() {
        return Tree::Leaf(text.clone());
    }
    assert(p[0] == path[from as int]@);
    assert(p.drop_first() =~= strings_view(path@).subrange(from + 1, path.len() as int));
    let mut kids = match t {
        Tree::Node(k) => k,
        Tree::Leaf(_) => Vec::new(),
    };
    let ghost kv = children_view(kids, kids.len() as nat);
    proof {
        lemma_children_view(kids, kids.len() as nat);
        assert(kv =~= match t@ {
            TreeView::Node(k) => k,
            TreeView::Leaf(_) => seq![],
        });
    }
    let i = position_of_key(&kids, &path[from]);
    proof {
        lemma_first_index_bounds(kv, has_key(p[0]));
    }
    if i < kids.len() {
        let (k, child) = kids.remove(i);
        let updated = insert_segments(child, path, from + 1, text);
        kids.insert(i, (k, updated));
        proof {
            lemma_children_view(kids, kids.len() as nat);
            assert(children_view(kids, kids.len() as nat) =~= kv.update(
                i as int,
                (p[0], insert_path(kv[i as int].1, p.drop_first(), text@)),
            ));
        }
    } else {
        let empty: Vec<(String, Tree)> = Vec::new();
        proof {
            lemma_children_view(empty, 0);
            assert(tree_view(Tree::Node(empty)) =~= TreeView::Node(seq![]));
        }
        let added = insert_segments(Tree::Node(empty), path, from + 1, text);
        kids.push((path[from].clone(), added));
        proof {
            lemma_children_view(kids, kids.len() as nat);
            assert(children_view(kids, kids.len() as nat) =~= kv.push(
                (p[0], insert_path(TreeView::Node(seq![]), p.drop_first(), text@)),
            ));
        }
    }
    Tree::Node(kids)
}

/// Records `text` at the `/`-separated `key`.
pub fn insert_override(tree: Tree, key: &str, text: &String) -> (r: Tree)
    ensures
        r@ == insert_path(tree@, split_on(key@, '/'), text@),
        tree_wf(tree@) ==> tree_wf(r@),
{
    proof {
        if tree_wf(tree@) {
            lemma_insert_keeps_wf(tree@, split_on(key@, '/'), text@);
        }
    }
    let path = split_str(key, '/');
    assert(strings_view(path@).subrange(0, path.len() as int) =~= strings_view(path@));
    insert_segments(tree, &path, 0, text)
}

/// Builds the tree from `(key, text)` entries, taken in order; where a key
/// runs through the position of an earlier leaf, the later entry wins.
pub fn build_tree(entries: &Vec<(String, String)>) -> (r: Tree)
    ensures
        r@ == build_spec(pairs_view(entries@)),
        tree_wf(r@),
{
    let ghost ev = pairs_view(entries@);
    let empty: Vec<(String, Tree)> = Vec::new();
    let mut tree = Tree::Node(empty);
    proof {
        lemma_children_view(empty, 0);
        assert(tree@ =~= TreeView::Node(seq![]));
    }
    let mut i: usize = 0;
    while i < entries.len()
        invariant
            i <= entries.len(),
            ev == pairs_view(entries@),
            tree@ == build_spec(ev.subrange(0, i as int)),
        decreases entries.len() - i,
    {
        tree = insert_override(tree, entries[i].0.as_str(), &entries[i].1);
        assert(ev.subrange(0, i + 1).drop_last() =~= ev.subrange(0, i as int));
        i += 1;
    }
    assert(ev.subrange(0, i as int) =~= ev);
    proof {
        lemma_build_wf(ev);
    }
    tree
}

/// The `(key, text)` pairs of the entries whose value decodes to text, in
/// order; the others are left out.
pub open spec fn decoded_entries(entries: Seq<KvEntryView>) -> Seq<(Seq<char>, Seq<char>)>
    decreases entries.len(),
{
    if entries.len() == 0 {
        seq![]
    } else {
        let d = decoded_entries(entries.drop_last());
        match decoded_text(entries.last().value) {
            Some(t) => d.push((entries.last().key, t)),
            None => d,
        }
    }
}

/// Decodes the entries' values, skipping each one that is not base64 text.
pub fn decode_entries(entries: &Vec<KvEntry>) -> (r: Vec<(String, String)>)
    ensures
        pairs_view(r@) == decoded_entries(entries_view(entries@)),
{
    let ghost ev = entries_view(entries@);
    let mut out: Vec<(String, String)> = Vec::new();
    let mut i: usize = 0;
    while i < entries.len()
        invariant
            i <= entries.len(),
            ev == entries_view(entries@),
            pairs_view(out@) == decoded_entries(ev.subrange(0, i as int)),
        decreases entries.len() - i,
    {
        assert(ev.subrange(0, i + 1).drop_last() =~= ev.subrange(0, i as int));
        assert(ev.subrange(0, i + 1).last() == entries[i as int]@);
        let ghost before = out@;
        match decode_text(entries[i].value.as_str()) {
            Some(t) => {
                out.push((entries[i].key.clone(), t));
                assert(pairs_view(out@) =~= pairs_view(before).push((entries[i as int].key@, t@)));
            },
            None => {},
        }
        i += 1;
    }
    assert(ev.subrange(0, i as int) =~= ev);
    out
}

/// Builds the override tree from the store's entries, in order, skipping
/// each entry whose value is not base64 text.
pub fn build_overrides(entries: &Vec<KvEntry>) -> (r: Tree)
    ensures
        r@ == build_spec(decoded_entries(entries_view(entries@))),
        tree_wf(r@),
{
    let pairs = decode_entries(entries);
    build_tree(&pairs)
}

/// Lexicographic order of keys, character by character (by code point); a
/// proper prefix comes first.
pub open spec fn key_lt(a: Seq<char>, b: Seq<char>) -> bool
    decreases a.len(),
{
    if b.len() == 0 {
        false
    } else if a.len() == 0 {
        true
    } else if a[0] != b[0] {
        (a[0] as u32) < (b[0] as u32)
    } else {
        key_lt(a.drop_first(), b.drop_first())
    }
}

pub proof fn lemma_key_lt_irreflexive(a: Seq<char>)
    ensures
        !key_lt(a, a),
    decreases a.len(),
{
    if a.len() > 0 {
        lemma_key_lt_irreflexive(a.drop_first());
    }
}

pub proof fn lemma_key_lt_transitive(a: Seq<char>, b: Seq<char>, c: Seq<char>)
    requires
        key_lt(a, b),
        key_lt(b, c),
    ensures
        key_lt(a, c),
    decreases a.len(),
{
    if a.len() > 0 && a[0] == b[0] && b[0] == c[0] {
        lemma_key_lt_transitive(a.drop_first(), b.drop_first(), c.drop_first());
    }
}

/// Entries in order of their keys.
pub open spec fn sorted_by_key(s: Seq<KvEntryView>) -> bool {
    forall|i: int, j: int| 0 <= i < j < s.len() ==> !key_lt(#[trigger] s[j].key, #[trigger] s[i].key)
}

/// Whether key `a` comes strictly before key `b`.
pub fn key_less(a: &str, b: &str) -> (r: bool)
    ensures
        r == key_lt(a@, b@),
{
    let na = a.unicode_len();
    let nb = b.unicode_len();
    let mut i: usize = 0;
    assert(a@.subrange(0, na as int) =~= a@);
    assert(b@.subrange(0, nb as int) =~= b@);
    while i < na && i < nb
        invariant
            na == a@.len(),
            nb == b@.len(),
            i <= na,
            i <= nb,
            key_lt(a@, b@) == key_lt(a@.subrange(i as int, na as int), b@.subrange(i as int, nb as int)),
        decreases na - i,
    {
        let c1 = a.get_char(i);
        let c2 = b.get_char(i);
        let ghost ra = a@.subrange(i as int, na as int);
        let ghost rb = b@.subrange(i as int, nb as int);
        assert(ra[0] == c1 && rb[0] == c2);
        if c1 != c2 {
            return (c1 as u32) < (c2 as u32);
        }
        assert(ra.drop_first() =~= a@.subrange(i + 1, na as int));
        assert(rb.drop_first() =~= b@.subrange(i + 1, nb as int));
        i += 1;
    }
    i < nb
}

fn clone_entry(e: &KvEntry) -> (r: KvEntry)
    ensures
        r@ == e@,
{
    KvEntry { key: e.key.clone(), value: e.value.clone(), modify_index: e.modify_index }
}

/// The entries ordered by key; entries with equal keys keep their order.
pub fn sort_entries(entries: &Vec<KvEntry>) -> (r: Vec<KvEntry>)
    ensures
        sorted_by_key(entries_view(r@)),
        entries_view(r@).to_multiset() == entries_view(entries@).to_multiset(),
{
    let ghost ev = entries_view(entries@);
    let mut out: Vec<KvEntry> = Vec::new();
    let mut i: usize = 0;
    assert(ev.subrange(0, 0) =~= entries_view(out@));
    while i < entries.len()
        invariant
            i <= entries.len(),
            ev == entries_view(entries@),
            sorted_by_key(entries_view(out@)),
            entries_view(out@).to_multiset() == ev.subrange(0, i as int).to_multiset(),
        decreases entries.len() - i,
    {
        let x = clone_entry(&entries[i]);
        let ghost ov = entries_view(out@);
        let mut p: usize = 0;
        while p < out.len() && !key_less(x.key.as_str(), out[p].key.as_str())
            invariant
                p <= out.len(),
                ov == entries_view(out@),
                forall|j: int| 0 <= j < p ==> !key_lt(x@.key, #[trigger] ov[j].key),
            decreases out.len() - p,
        {
            p += 1;
        }
        proof {
            if p < out.len() {
                assert forall|j: int| p <= j < ov.len() implies !key_lt(#[trigger] ov[j].key, x@.key) by {
                    if key_lt(ov[j].key, x@.key) {
                        lemma_key_lt_transitive(ov[j].key, x@.key, ov[p as int].key);
                        if j == p {
                            lemma_key_lt_irreflexive(ov[j].key);
                        }
                    }
                }
            }
        }
        out.insert(p, x);
        let ghost nv = entries_view(out@);
        assert(nv =~= ov.insert(p as int, x@));
        assert forall|a: int, b: int| 0 <= a < b < nv.len() implies !key_lt(
            #[trigger] nv[b].key,
            #[trigger] nv[a].key,
        ) by {
            if b < p {
                assert(nv[a] == ov[a] && nv[b] == ov[b]);
            } else if b == p {
                assert(nv[a] == ov[a]);
            } else if a < p {
                assert(nv[a] == ov[a] && nv[b] == ov[b - 1]);
            } else if a == p {
                assert(nv[b] == ov[b - 1]);
            } else {
                assert(nv[a] == ov[a - 1] && nv[b] == ov[b - 1]);
            }
        }
        assert(ev.subrange(0, i + 1) =~= ev.subrange(0, i as int).push(x@));
        proof {
            vstd::seq_lib::to_multiset_insert(ov, p as int, x@);
            vstd::seq_lib::to_multiset_build(ev.subrange(0, i as int), x@);
        }
        i += 1;
    }
    assert(ev.subrange(0, i as int) =~= ev);
    out
}

pub open spec fn fetched_view(f: Seq<Option<Vec<KvEntry>>>) -> Seq<Option<Seq<KvEntryView>>> {
    f.map_values(
        |o: Option<Vec<KvEntry>>|
            match o {
                Some(v) => Some(entries_view(v@)),
                None => None,
            },
    )
}

/// The entries of every scope that answered, in scope order; a scope that
/// did not answer adds none.
pub open spec fn gathered(fetched: Seq<Option<Seq<KvEntryView>>>) -> Seq<KvEntryView>
    decreases fetched.len(),
{
    if fetched.len() == 0 {
        seq![]
    } else {
        gathered(fetched.drop_last()) + match fetched.last() {
            Some(v) => v,
            None => seq![],
        }
    }
}

/// Joins the answers of the scope fetches, `None` standing for a scope
/// the store holds nothing under.
pub fn gather_entries(fetched: &Vec<Option<Vec<KvEntry>>>) -> (r: Vec<KvEntry>)
    ensures
        entries_view(r@) == gathered(fetched_view(fetched@)),
{
    let ghost fv = fetched_view(fetched@);
    let mut out: Vec<KvEntry> = Vec::new();
    let mut i: usize = 0;
    while i < fetched.len()
        invariant
            i <= fetched.len(),
            fv == fetched_view(fetched@),
            entries_view(out@) == gathered(fv.subrange(0, i as int)),
        decreases fetched.len() - i,
    {
        assert(fv.subrange(0, i + 1).drop_last() =~= fv.subrange(0, i as int));
        assert(fv.subrange(0, i + 1).last() == fv[i as int]);
        match &fetched[i] {
            Some(v) => {
                let ghost start = entries_view(out@);
                let mut j: usize = 0;
                while j < v.len()
                    invariant
                        j <= v.len(),
                        entries_view(out@) == start + entries_view(v@).subrange(0, j as int),
                    decreases v.len() - j,
                {
                    let ghost before = entries_view(out@);
                    out.push(clone_entry(&v[j]));
                    assert(entries_view(out@) =~= before.push(v[j as int]@));
                    assert(entries_view(v@).subrange(0, j + 1) =~= entries_view(v@).subrange(
                        0,
                        j as int,
                    ).push(v[j as int]@));
                    j += 1;
                }
                assert(entries_view(v@).subrange(0, j as int) =~= entries_view(v@));
            },
            None => {
                assert(entries_view(out@) =~= entries_view(out@) + Seq::<KvEntryView>::empty());
            },
        }
        i += 1;
    }
    assert(fv.subrange(0, i as int) =~= fv);
    out
}

/// The sequence without repeats, each element kept where it first occurs.
pub open spec fn dedup(s: Seq<Seq<char>>) -> Seq<Seq<char>>
    decreases s.len(),
{
    if s.len() == 0 {
        seq![]
    } else {
        let d = dedup(s.drop_last());
        if d.contains(s.last()) {
            d
        } else {
            d.push(s.last())
        }
    }
}

/// The scopes whose overrides are read: `global`, then the names of the
/// dependencies, each once, in order of first appearance.
pub open spec fn scopes_spec(reqs: Seq<RequirementView>) -> Seq<Seq<char>> {
    dedup(seq!["global"@] + reqs.map_values(|r: RequirementView| r.name))
}

fn contains_string(v: &Vec<String>, s: &String) -> (r: bool)
    ensures
        r == strings_view(v@).contains(s@),
{
    let mut i: usize = 0;
    while i < v.len()
        invariant
            i <= v.len(),
            forall|j: int| 0 <= j < i ==> v[j]@ != s@,
        decreases v.len() - i,
    {
        if v[i] == *s {
            assert(strings_view(v@)[i as int] == s@);
            return true;
        }
        i += 1;
    }
    assert forall|j: int| 0 <= j < strings_view(v@).len() implies strings_view(v@)[j] != s@ by {
        assert(strings_view(v@)[j] == v[j]@);
    }
    false
}

/// The scopes whose overrides are read for a dependency list.
pub fn override_scopes(reqs: &Vec<Requirement>) -> (r: Vec<String>)
    ensures
        strings_view(r@) == scopes_spec(requirements_view(reqs@)),
{
    let ghost all = seq!["global"@] + requirements_view(reqs@).map_values(|r: RequirementView| r.name);
    let mut out: Vec<String> = Vec::new();
    out.push(String::from_str("global"));
    proof {
        assert(all.subrange(0, 1).drop_last() =~= Seq::<Seq<char>>::empty());
        assert(dedup(Seq::<Seq<char>>::empty()) =~= Seq::<Seq<char>>::empty());
        assert(all.subrange(0, 1).last() == "global"@);
        assert(!Seq::<Seq<char>>::empty().contains("global"@));
        assert(strings_view(out@) =~= dedup(all.subrange(0, 1)));
    }
    let mut i: usize = 0;
    while i < reqs.len()
        invariant
            i <= reqs.len(),
            all == seq!["global"@] + requirements_view(reqs@).map_values(|r: RequirementView| r.name),
            strings_view(out@) == dedup(all.subrange(0, i + 1)),
        decreases reqs.len() - i,
    {
        assert(all.subrange(0, i + 2).drop_last() =~= all.subrange(0, i + 1));
        assert(all.subrange(0, i + 2).last() == reqs[i as int].name@);
        if !contains_string(&out, &reqs[i].name) {
            let ghost before = out@;
            out.push(reqs[i].name.clone());
            assert(strings_view(out@) =~= strings_view(before).push(reqs[i as int].name@));
        }
        i += 1;
    }
    assert(all.subrange(0, i + 1) =~= all);
    out
}

} // verus!
