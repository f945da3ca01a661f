//! The folder tree of the notes files, as the sidebar shows it.
//!
//! A node's children are kept in the order of their names, one child per
//! name; the sidebar lists them folders first, then files, each group in
//! case-insensitive order of the names.
use super::chars::str_to_chars;
use crate::paths::{
    components, file_name, file_name_spec, join_spec, path_comps, path_join, same_path,
    same_path_spec, str_eq, strs,
};
use vstd::prelude::*;

verus! {

#[derive(Debug)]
pub struct FileTreeNode {
    pub name: String,
    pub path: String,
    pub is_folder: bool,
    pub is_expanded: bool,
    /// In the order of their names, one per name.
    pub children: Vec<FileTreeNode>,
}

#[derive(Debug)]
pub struct FileTreeItem {
    pub node: FileTreeNode,
    pub depth: usize,
}

impl FileTreeItem {
    /// A copy of the row.
    pub fn clone_item(&self) -> (r: FileTreeItem)
        ensures
            item_view(r) == item_view(*self),
            r.depth == self.depth,
    {
        FileTreeItem { node: self.node.deep_clone(), depth: self.depth }
    }
}

#[derive(Debug)]
pub struct FileTree {
    pub root: FileTreeNode,
}

/// The value of a tree node.
pub struct NodeView {
    pub name: Seq<char>,
    pub path: Seq<char>,
    pub is_folder: bool,
    pub is_expanded: bool,
    pub children: Seq<NodeView>,
}

pub open spec fn node_view(n: FileTreeNode) -> NodeView
    decreases n, 1nat,
{
    NodeView {
        name: n.name@,
        path: n.path@,
        is_folder: n.is_folder,
        is_expanded: n.is_expanded,
        children: nodes_view(n.children@),
    }
}

pub open spec fn nodes_view(s: Seq<FileTreeNode>) -> Seq<NodeView>
    decreases s, 0nat,
{
    if s.len() == 0 {
        Seq::empty()
    } else {
        seq![node_view(s[0])] + nodes_view(s.drop_first())
    }
}

pub proof fn lemma_nodes_view(s: Seq<FileTreeNode>)
    ensures
        nodes_view(s).len() == s.len(),
        forall|i: int| 0 <= i < s.len() ==> #[trigger] nodes_view(s)[i] == node_view(s[i]),
    decreases s.len(),
{
    if s.len() > 0 {
        lemma_nodes_view(s.drop_first());
        assert forall|i: int| 0 <= i < s.len() implies #[trigger] nodes_view(s)[i] == node_view(s[i]) by {
            if i > 0 {
                assert(s.drop_first()[i - 1] == s[i]);
            }
        }
    }
}

/// `nodes_view` is taken element by element.
pub proof fn lemma_nodes_view_eq(s: Seq<FileTreeNode>, v: Seq<NodeView>)
    requires
        s.len() == v.len(),
        forall|i: int| 0 <= i < s.len() ==> node_view(#[trigger] s[i]) == v[i],
    ensures
        nodes_view(s) == v,
{
    lemma_nodes_view(s);
    assert(nodes_view(s) =~= v);
}

/// Strict order of texts, character by character (the order of `String`).
pub open spec fn text_lt(a: Seq<char>, b: Seq<char>) -> bool
    decreases a.len(),
{
    if a.len() == 0 {
        b.len() > 0
    } else if b.len() == 0 {
        false
    } else if a[0] != b[0] {
        (a[0] as u32) < (b[0] as u32)
    } else {
        text_lt(a.drop_first(), b.drop_first())
    }
}

/// Whether `a` comes strictly before `b` in the order of `String`.
pub fn str_lt(a: &str, b: &str) -> (r: bool)
    ensures
        r == text_lt(a@, b@),
{
    let ac = str_to_chars(a);
    let bc = str_to_chars(b);
    let mut i: usize = 0;
    assert(a@.skip(0) =~= a@);
    assert(b@.skip(0) =~= b@);
    while i < ac.len() && i < bc.len() && ac[i] == bc[i]
        invariant
            ac@ == a@,
            bc@ == b@,
            0 <= i <= ac@.len(),
            i <= bc@.len(),
            text_lt(a@, b@) == text_lt(a@.skip(i as int), b@.skip(i as int)),
        decreases ac@.len() - i,
    {
        proof {
            assert(a@.skip(i as int).drop_first() =~= a@.skip(i + 1));
            assert(b@.skip(i as int).drop_first() =~= b@.skip(i + 1));
        }
        i = i + 1;
    }
    if i == ac.len() {
        i < bc.len()
    } else if i == bc.len() {
        false
    } else {
        (ac[i] as u32) < (bc[i] as u32)
    }
}

/// The position of the first child named `name`, if there is one.
pub open spec fn child_index(ch: Seq<NodeView>, name: Seq<char>) -> Option<int>
    decreases ch.len(),
{
    if ch.len() == 0 {
        None
    } else if ch[0].name == name {
        Some(0)
    } else {
        match child_index(ch.drop_first(), name) {
            Some(i) => Some(i + 1),
            None => None,
        }
    }
}

pub proof fn lemma_child_index(ch: Seq<NodeView>, name: Seq<char>)
    ensures
        match child_index(ch, name) {
            Some(i) => 0 <= i < ch.len() && ch[i].name == name && forall|j: int|
                0 <= j < i ==> ch[j].name != name,
            None => forall|j: int| 0 <= j < ch.len() ==> ch[j].name != name,
        },
    decreases ch.len(),
{
    if ch.len() > 0 {
        lemma_child_index(ch.drop_first(), name);
        assert forall|j: int| 0 < j < ch.len() implies ch[j].name == ch.drop_first()[j - 1].name by {}
    }
}

/// The position at which a child named `name` joins the list: before the
/// first child whose name is not smaller.
pub open spec fn insert_pos(ch: Seq<NodeView>, name: Seq<char>) -> int
    decreases ch.len(),
{
    if ch.len() == 0 {
        0
    } else if text_lt(ch[0].name, name) {
        1 + insert_pos(ch.drop_first(), name)
    } else {
        0
    }
}

/// The children after `node` is put under its name: it replaces the child
/// of that name, or joins in the order of names.
pub open spec fn put_child(ch: Seq<NodeView>, node: NodeView) -> Seq<NodeView> {
    match child_index(ch, node.name) {
        Some(i) => ch.update(i, node),
        None => ch.insert(insert_pos(ch, node.name), node),
    }
}

pub open spec fn leaf_view(name: Seq<char>, path: Seq<char>, is_folder: bool) -> NodeView {
    NodeView { name, path, is_folder, is_expanded: false, children: Seq::empty() }
}

/// The node after the file `full`, at the relative components `comps`
/// below it, is added: the last component names the file, those before it
/// the folders on the way, which are made where they are missing.
pub open spec fn insert_rel(n: NodeView, comps: Seq<Seq<char>>, full: Seq<char>) -> NodeView
    decreases comps.len(),
{
    if comps.len() == 0 {
        n
    } else if comps.len() == 1 {
        NodeView { children: put_child(n.children, leaf_view(comps[0], full, false)), ..n }
    } else {
        let first = comps[0];
        let below = match child_index(n.children, first) {
            Some(i) => n.children[i],
            None => leaf_view(first, join_spec(n.path, first), true),
        };
        NodeView { children: put_child(n.children, insert_rel(below, comps.drop_first(), full)), ..n }
    }
}

/// `comps` starts with `prefix`.
pub open spec fn comps_prefix(prefix: Seq<Seq<char>>, comps: Seq<Seq<char>>) -> bool {
    prefix.len() <= comps.len() && comps.take(prefix.len() as int) == prefix
}

/// The tree after the files are added in turn, each that lies below `root`.
pub open spec fn with_files(n: NodeView, root: Seq<char>, files: Seq<Seq<char>>) -> NodeView
    decreases files.len(),
{
    if files.len() == 0 {
        n
    } else {
        let prev = with_files(n, root, files.drop_last());
        let rc = path_comps(root);
        let fc = path_comps(files.last());
        if comps_prefix(rc, fc) {
            insert_rel(prev, fc.skip(rc.len() as int), files.last())
        } else {
            prev
        }
    }
}

/// Whether the node, or a node below it, is at path `p`.
pub open spec fn has_path(n: NodeView, p: Seq<char>) -> bool
    decreases n, 1nat,
{
    same_path_spec(n.path, p) || any_has_path(n.children, p)
}

/// Whether one of the nodes, or a node below one, is at path `p`.
pub open spec fn any_has_path(s: Seq<NodeView>, p: Seq<char>) -> bool
    decreases s, 0nat,
{
    s.len() > 0 && (has_path(s[0], p) || any_has_path(s.drop_first(), p))
}

/// The node after the first node at path `p`, itself before its children
/// and each child before the next, has its folder opened or closed.
pub open spec fn toggled(n: NodeView, p: Seq<char>) -> NodeView
    decreases n, 1nat,
{
    if same_path_spec(n.path, p) {
        NodeView { is_expanded: !n.is_expanded, ..n }
    } else {
        NodeView { children: toggled_list(n.children, p), ..n }
    }
}

/// The nodes after the first node at path `p` among them is toggled.
pub open spec fn toggled_list(s: Seq<NodeView>, p: Seq<char>) -> Seq<NodeView>
    decreases s, 0nat,
{
    if s.len() == 0 {
        s
    } else if has_path(s[0], p) {
        seq![toggled(s[0], p)] + s.drop_first()
    } else {
        seq![s[0]] + toggled_list(s.drop_first(), p)
    }
}

pub proof fn lemma_toggle_none(n: NodeView, p: Seq<char>)
    requires
        !has_path(n, p),
    ensures
        toggled(n, p) == n,
    decreases n, 1nat,
{
    lemma_toggle_list_none(n.children, p);
}

pub proof fn lemma_toggle_list_none(s: Seq<NodeView>, p: Seq<char>)
    requires
        !any_has_path(s, p),
    ensures
        toggled_list(s, p) == s,
    decreases s, 0nat,
{
    if s.len() > 0 {
        lemma_toggle_none(s[0], p);
        lemma_toggle_list_none(s.drop_first(), p);
        assert(seq![s[0]] + s.drop_first() =~= s);
    }
}

/// `any_has_path` holds exactly when one of the nodes has the path.
pub proof fn lemma_any_has_path(s: Seq<NodeView>, p: Seq<char>)
    ensures
        any_has_path(s, p) <==> exists|j: int| 0 <= j < s.len() && has_path(#[trigger] s[j], p),
    decreases s.len(),
{
    if s.len() > 0 {
        lemma_any_has_path(s.drop_first(), p);
        if any_has_path(s.drop_first(), p) {
            let j = choose|j: int| 0 <= j < s.drop_first().len() && has_path(#[trigger] s.drop_first()[j], p);
            assert(has_path(s[j + 1], p));
        }
        if exists|j: int| 0 <= j < s.len() && has_path(#[trigger] s[j], p) {
            let j = choose|j: int| 0 <= j < s.len() && has_path(#[trigger] s[j], p);
            if j > 0 {
                assert(has_path(s.drop_first()[j - 1], p));
            }
        }
    }
}

pub proof fn lemma_toggle_list_at(s: Seq<NodeView>, i: int, p: Seq<char>)
    requires
        0 <= i < s.len(),
        has_path(s[i], p),
        forall|j: int| 0 <= j < i ==> !has_path(#[trigger] s[j], p),
    ensures
        toggled_list(s, p) == s.update(i, toggled(s[i], p)),
    decreases i,
{
    if i == 0 {
        assert(seq![toggled(s[0], p)] + s.drop_first() =~= s.update(0, toggled(s[0], p)));
    } else {
        assert(!has_path(s[0], p));
        assert forall|j: int| 0 <= j < i - 1 implies !has_path(#[trigger] s.drop_first()[j], p) by {
            assert(s.drop_first()[j] == s[j + 1]);
        }
        lemma_toggle_list_at(s.drop_first(), i - 1, p);
        assert(seq![s[0]] + s.drop_first().update(i - 1, toggled(s[i], p)) =~= s.update(i, toggled(s[i], p)));
    }
}

/// `str::to_lowercase`, by its name: the text with each character in
/// lower case as Unicode defines it.
pub uninterp spec fn lowercase(s: Seq<char>) -> Seq<char>;

/// `str::to_lowercase`: the text in lower case.
#[verifier::external_body]
fn to_lowercase(s: &str) -> (r: String)
    ensures
        r@ == lowercase(s@),
{
    s.to_lowercase()
}

/// Sidebar order: folders before files, then by lower-cased name.
pub open spec fn shown_before(a: NodeView, b: NodeView) -> bool {
    (a.is_folder && !b.is_folder) || (a.is_folder == b.is_folder && text_lt(lowercase(a.name), lowercase(b.name)))
}

/// Where `x` joins the nodes `s`: before the first that it is shown before.
pub open spec fn sorted_pos(s: Seq<NodeView>, x: NodeView) -> int
    decreases s.len(),
{
    if s.len() == 0 {
        0
    } else if shown_before(x, s[0]) {
        0
    } else {
        1 + sorted_pos(s.drop_first(), x)
    }
}

/// The nodes in sidebar order; nodes that neither is shown before the other
/// keep their order.
pub open spec fn sidebar_order(s: Seq<NodeView>) -> Seq<NodeView>
    decreases s.len(),
{
    if s.len() == 0 {
        s
    } else {
        let t = sidebar_order(s.drop_last());
        t.insert(sorted_pos(t, s.last()), s.last())
    }
}

/// The number of nodes in a tree.
pub open spec fn node_count(n: NodeView) -> nat
    decreases n, 1nat,
{
    1 + nodes_count(n.children)
}

/// The number of nodes in the trees.
pub open spec fn nodes_count(s: Seq<NodeView>) -> nat
    decreases s, 0nat,
{
    if s.len() == 0 {
        0
    } else {
        node_count(s[0]) + nodes_count(s.drop_first())
    }
}

pub proof fn lemma_sorted_pos(s: Seq<NodeView>, x: NodeView)
    ensures
        0 <= sorted_pos(s, x) <= s.len(),
    decreases s.len(),
{
    if s.len() > 0 {
        lemma_sorted_pos(s.drop_first(), x);
    }
}

pub proof fn lemma_nodes_count_concat(a: Seq<NodeView>, b: Seq<NodeView>)
    ensures
        nodes_count(a + b) == nodes_count(a) + nodes_count(b),
    decreases a.len(),
{
    if a.len() == 0 {
        assert(a + b =~= b);
    } else {
        assert((a + b).drop_first() =~= a.drop_first() + b);
        assert((a + b)[0] == a[0]);
        lemma_nodes_count_concat(a.drop_first(), b);
    }
}

pub proof fn lemma_sidebar_order(s: Seq<NodeView>)
    ensures
        sidebar_order(s).len() == s.len(),
        nodes_count(sidebar_order(s)) == nodes_count(s),
    decreases s.len(),
{
    if s.len() > 0 {
        let dl = s.drop_last();
        let x = s.last();
        let t = sidebar_order(dl);
        lemma_sidebar_order(dl);
        lemma_sorted_pos(t, x);
        let p = sorted_pos(t, x);
        assert(t =~= t.take(p) + t.skip(p));
        assert(t.insert(p, x) =~= t.take(p) + (seq![x] + t.skip(p)));
        lemma_nodes_count_concat(t.take(p), t.skip(p));
        lemma_nodes_count_concat(t.take(p), seq![x] + t.skip(p));
        lemma_nodes_count_concat(seq![x], t.skip(p));
        lemma_nodes_count_concat(dl, seq![x]);
        assert(s =~= dl + seq![x]);
        assert(seq![x].drop_first() =~= Seq::<NodeView>::empty());
    }
}

pub proof fn lemma_count_elem(s: Seq<NodeView>, i: int)
    requires
        0 <= i < s.len(),
    ensures
        node_count(s[i]) <= nodes_count(s),
    decreases s.len(),
{
    if i > 0 {
        lemma_count_elem(s.drop_first(), i - 1);
    }
}

/// The rows of the sidebar below a node: the node at `depth`, then, where it
/// is open, the rows of each child in sidebar order, one level deeper.
pub open spec fn flatten(n: NodeView, depth: int) -> Seq<(NodeView, int)>
    decreases node_count(n), 0nat,
{
    proof {
        lemma_sidebar_order(n.children);
    }
    seq![(n, depth)] + if n.is_expanded {
        flatten_list(sidebar_order(n.children), depth + 1)
    } else {
        Seq::empty()
    }
}

/// The rows of the nodes, one after the other.
pub open spec fn flatten_list(s: Seq<NodeView>, depth: int) -> Seq<(NodeView, int)>
    decreases nodes_count(s), 1nat,
{
    if s.len() == 0 {
        Seq::empty()
    } else {
        proof {
            assert(node_count(s[0]) >= 1);
        }
        flatten(s[0], depth) + flatten_list(s.drop_first(), depth)
    }
}

pub proof fn lemma_flatten_list_concat(a: Seq<NodeView>, b: Seq<NodeView>, depth: int)
    ensures
        flatten_list(a + b, depth) == flatten_list(a, depth) + flatten_list(b, depth),
    decreases a.len(),
{
    if a.len() == 0 {
        assert(a + b =~= b);
        assert(flatten_list(a, depth) + flatten_list(b, depth) =~= flatten_list(b, depth));
    } else {
        assert((a + b).drop_first() =~= a.drop_first() + b);
        assert((a + b)[0] == a[0]);
        lemma_flatten_list_concat(a.drop_first(), b, depth);
        assert(flatten_list(a + b, depth) =~= flatten_list(a, depth) + flatten_list(b, depth));
    }
}

/// The value of a sidebar row.
pub open spec fn item_view(it: FileTreeItem) -> (NodeView, int) {
    (node_view(it.node), it.depth as int)
}

pub open spec fn items_view(v: Seq<FileTreeItem>) -> Seq<(NodeView, int)> {
    v.map_values(|it: FileTreeItem| item_view(it))
}

/// Whether `a` is shown before `b` in the sidebar.
fn shows_before(a: &FileTreeNode, b: &FileTreeNode) -> (r: bool)
    ensures
        r == shown_before(node_view(*a), node_view(*b)),
{
    if a.is_folder && !b.is_folder {
        return true;
    }
    if a.is_folder != b.is_folder {
        return false;
    }
    let la = to_lowercase(a.name.as_str());
    let lb = to_lowercase(b.name.as_str());
    str_lt(la.as_str(), lb.as_str())
}

/// Where `x` joins nodes that are in sidebar order.
fn sidebar_pos(s: &Vec<FileTreeNode>, x: &FileTreeNode) -> (p: usize)
    ensures
        p as int == sorted_pos(nodes_view(s@), node_view(*x)),
        p <= s@.len(),
{
    proof {
        lemma_nodes_view(s@);
    }
    let ghost v = nodes_view(s@);
    let mut i: usize = 0;
    assert(v.skip(0) =~= v);
    while i < s.len() && !shows_before(x, &s[i])
        invariant
            v == nodes_view(s@),
            v.len() == s@.len(),
            forall|j: int| 0 <= j < v.len() ==> #[trigger] v[j] == node_view(s@[j]),
            0 <= i <= s@.len(),
            sorted_pos(v, node_view(*x)) == i + sorted_pos(v.skip(i as int), node_view(*x)),
        decreases s@.len() - i,
    {
        assert(v.skip(i as int)[0] == v[i as int]);
        assert(v.skip(i as int).drop_first() =~= v.skip(i + 1));
        i = i + 1;
    }
    if i < s.len() {
        assert(v.skip(i as int)[0] == v[i as int]);
    }
    i
}

/// Copies of the nodes, in sidebar order.
fn in_sidebar_order(ch: &Vec<FileTreeNode>) -> (r: Vec<FileTreeNode>)
    ensures
        nodes_view(r@) == sidebar_order(nodes_view(ch@)),
{
    proof {
        lemma_nodes_view(ch@);
    }
    let ghost v = nodes_view(ch@);
    let mut r: Vec<FileTreeNode> = Vec::new();
    let mut i: usize = 0;
    proof {
        lemma_nodes_view(r@);
        assert(v.take(0) =~= Seq::<NodeView>::empty());
    }
    while i < ch.len()
        invariant
            v == nodes_view(ch@),
            v.len() == ch@.len(),
            forall|j: int| 0 <= j < v.len() ==> #[trigger] v[j] == node_view(ch@[j]),
            0 <= i <= ch@.len(),
            nodes_view(r@) == sidebar_order(v.take(i as int)),
        decreases ch@.len() - i,
    {
        let c = ch[i].deep_clone();
        let p = sidebar_pos(&r, &c);
        proof {
            lemma_nodes_view_insert(r@, p as int, c);
            assert(v.take(i + 1).drop_last() =~= v.take(i as int));
            assert(v.take(i + 1).last() == v[i as int]);
        }
        r.insert(p, c);
        i = i + 1;
    }
    assert(v.take(i as int) =~= v);
    r
}

impl FileTreeNode {
    pub fn new_folder(name: String, path: String) -> (n: FileTreeNode)
        ensures
            node_view(n) == leaf_view(name@, path@, true),
    {
        let n = FileTreeNode { name, path, is_folder: true, is_expanded: false, children: Vec::new() };
        proof {
            lemma_nodes_view(n.children@);
            assert(node_view(n).children =~= Seq::<NodeView>::empty());
        }
        n
    }

    pub fn new_file(name: String, path: String) -> (n: FileTreeNode)
        ensures
            node_view(n) == leaf_view(name@, path@, false),
    {
        let n = FileTreeNode { name, path, is_folder: false, is_expanded: false, children: Vec::new() };
        proof {
            lemma_nodes_view(n.children@);
            assert(node_view(n).children =~= Seq::<NodeView>::empty());
        }
        n
    }

    /// A copy of the node and all below it.
    pub fn deep_clone(&self) -> (r: FileTreeNode)
        ensures
            node_view(r) == node_view(*self),
        decreases *self,
    {
        let mut children: Vec<FileTreeNode> = Vec::new();
        let mut i: usize = 0;
        while i < self.children.len()
            invariant
                0 <= i <= self.children@.len(),
                children@.len() == i,
                forall|j: int| 0 <= j < i ==> node_view(#[trigger] children@[j]) == node_view(self.children@[j]),
            decreases self.children@.len() - i,
        {
            assert(decreases_to!(*self => self.children@[i as int]));
            let c = self.children[i].deep_clone();
            children.push(c);
            i = i + 1;
        }
        proof {
            lemma_nodes_view(self.children@);
            lemma_nodes_view_eq(children@, nodes_view(self.children@));
        }
        FileTreeNode {
            name: self.name.clone(),
            path: self.path.clone(),
            is_folder: self.is_folder,
            is_expanded: self.is_expanded,
            children,
        }
    }

    /// Adds the file `full_path` at the components `comps[k..]` below this
    /// node.
    #[verifier::rlimit(50)]
    #[verifier::spinoff_prover]
    fn insert_comps(&mut self, comps: &Vec<String>, k: usize, full_path: String)
        requires
            k <= comps@.len(),
        ensures
            node_view(*final(self)) == insert_rel(node_view(*old(self)), strs(comps@).skip(k as int), full_path@),
        decreases comps@.len() - k,
    {
        let ghost rest = strs(comps@).skip(k as int);
        if k == comps.len() {
            assert(rest.len() == 0);
            return;
        }
        assert(rest[0] == comps@[k as int]@);
        let first = comps[k].clone();
        if k + 1 == comps.len() {
            let leaf = FileTreeNode::new_file(first, full_path);
            let ghost old_children = nodes_view(self.children@);
            assert(old_children == node_view(*old(self)).children);
            put_child_into(&mut self.children, leaf);
            assert(rest.len() == 1);
            assert(nodes_view(self.children@) == put_child(old_children, leaf_view(rest[0], full_path@, false)));
            assert(node_view(*self) == insert_rel(node_view(*old(self)), rest, full_path@));
        } else {
            assert(rest.drop_first() =~= strs(comps@).skip(k + 1));
            let found = find_child(&self.children, first.as_str());
            match found {
                Some(i) => {
                    proof {
                        lemma_nodes_view(self.children@);
                    }
                    let ghost before = self.children@;
                    let mut below = self.children.remove(i);
                    assert(node_view(below) == nodes_view(before)[i as int]);
                    below.insert_comps(comps, k + 1, full_path);
                    let ghost updated = below;
                    self.children.insert(i, below);
                    proof {
                        assert(self.children@ =~= before.update(i as int, updated));
                        lemma_nodes_view_update(before, i as int, updated);
                        lemma_child_index(nodes_view(before), first@);
                        assert(node_view(updated).name == first@);
                        assert(nodes_view(self.children@) == put_child(nodes_view(before), node_view(updated)));
                        assert(node_view(*self) == insert_rel(node_view(*old(self)), rest, full_path@));
                    }
                },
                None => {
                    let path = path_join(self.path.as_str(), first.as_str());
                    let mut below = FileTreeNode::new_folder(first, path);
                    let ghost old_children = nodes_view(self.children@);
                    below.insert_comps(comps, k + 1, full_path);
                    put_child_into(&mut self.children, below);
                    assert(node_view(*self) == insert_rel(node_view(*old(self)), rest, full_path@));
                },
            }
        }
    }

    /// Adds the file `full_path` at `relative_path` below this node, making
    /// the folders on the way where they are missing.
    pub fn insert_file(&mut self, relative_path: &str, full_path: String)
        ensures
            node_view(*final(self)) == insert_rel(node_view(*old(self)), path_comps(relative_path@), full_path@),
    {
        let comps = components(relative_path);
        assert(strs(comps@).skip(0) =~= strs(comps@));
        self.insert_comps(&comps, 0, full_path);
    }

    /// Opens or closes the folder at `path`: the first node at that path,
    /// this node before its children. Whether there was one.
    pub fn toggle_expanded(&mut self, path: &str) -> (r: bool)
        ensures
            r == has_path(node_view(*old(self)), path@),
            node_view(*final(self)) == toggled(node_view(*old(self)), path@),
        decreases *old(self),
    {
        if same_path(self.path.as_str(), path) {
            self.is_expanded = !self.is_expanded;
            proof {
                lemma_nodes_view(self.children@);
            }
            return true;
        }
        let ghost v = nodes_view(self.children@);
        let ghost orig = self.children@;
        proof {
            lemma_nodes_view(self.children@);
        }
        let mut i: usize = 0;
        while i < self.children.len()
            invariant
                self.name == old(self).name,
                self.path == old(self).path,
                self.is_folder == old(self).is_folder,
                self.is_expanded == old(self).is_expanded,
                orig == old(self).children@,
                v == nodes_view(orig),
                v.len() == orig.len(),
                self.children@.len() == orig.len(),
                nodes_view(self.children@) == v,
                0 <= i <= orig.len(),
                forall|j: int| i <= j < orig.len() ==> self.children@[j] == orig[j],
                forall|j: int| 0 <= j < i ==> !has_path(#[trigger] v[j], path@),
                !same_path_spec(old(self).path@, path@),
            decreases orig.len() - i,
        {
            proof {
                lemma_nodes_view(orig);
                lemma_nodes_view(self.children@);
            }
            let ghost before = self.children@;
            let mut c = self.children.remove(i);
            assert(c == orig[i as int]);
            assert(decreases_to!(*old(self) => orig[i as int]));
            let found = c.toggle_expanded(path);
            let ghost changed = c;
            self.children.insert(i, c);
            proof {
                assert(self.children@ =~= before.update(i as int, changed));
                lemma_nodes_view_update(before, i as int, changed);
            }
            if found {
                proof {
                    lemma_toggle_list_at(v, i as int, path@);
                    lemma_any_has_path(v, path@);
                }
                return true;
            }
            proof {
                lemma_toggle_none(v[i as int], path@);
                assert(nodes_view(self.children@) =~= v);
            }
            i = i + 1;
        }
        proof {
            lemma_any_has_path(v, path@);
            lemma_toggle_list_none(v, path@);
        }
        false
    }

    /// The sidebar rows of this node and, where it is open, of the nodes
    /// below it: each row holds a copy of its node and its depth.
    pub fn get_flattened_items(&self, depth: usize) -> (r: Vec<FileTreeItem>)
        requires
            depth + node_count(node_view(*self)) <= usize::MAX,
        ensures
            items_view(r@) == flatten(node_view(*self), depth as int),
        decreases node_count(node_view(*self)),
    {
        let mut items: Vec<FileTreeItem> = Vec::new();
        items.push(FileTreeItem { node: self.deep_clone(), depth });
        let ghost n = node_view(*self);
        proof {
            lemma_sidebar_order(n.children);
        }
        if self.is_expanded {
            let sorted = in_sidebar_order(&self.children);
            let ghost sv = nodes_view(sorted@);
            proof {
                lemma_nodes_view(sorted@);
                assert(sv.take(0) =~= Seq::<NodeView>::empty());
                assert(items_view(items@) =~= seq![(n, depth as int)] + flatten_list(sv.take(0), depth + 1));
            }
            let mut i: usize = 0;
            while i < sorted.len()
                invariant
                    n == node_view(*self),
                    n.is_expanded,
                    sv == nodes_view(sorted@),
                    sv == sidebar_order(n.children),
                    nodes_count(sv) == nodes_count(n.children),
                    sv.len() == sorted@.len(),
                    forall|j: int| 0 <= j < sv.len() ==> #[trigger] sv[j] == node_view(sorted@[j]),
                    depth + node_count(n) <= usize::MAX,
                    0 <= i <= sorted@.len(),
                    items_view(items@) == seq![(n, depth as int)] + flatten_list(sv.take(i as int), depth + 1),
                decreases sorted@.len() - i,
            {
                proof {
                    lemma_count_elem(sv, i as int);
                }
                let mut sub = sorted[i].get_flattened_items(depth + 1);
                let ghost before = items@;
                let mut k: usize = 0;
                while k < sub.len()
                    invariant
                        0 <= k <= sub@.len(),
                        items_view(items@) == items_view(before) + items_view(sub@.take(k as int)),
                    decreases sub@.len() - k,
                {
                    let it = sub[k].clone_item();
                    let ghost prev = items@;
                    items.push(it);
                    proof {
                        assert(items_view(items@) =~= items_view(prev).push(item_view(it)));
                        assert(sub@.take(k + 1) =~= sub@.take(k as int).push(sub@[k as int]));
                        assert(items_view(sub@.take(k + 1)) =~= items_view(sub@.take(k as int)).push(item_view(sub@[k as int])));
                    }
                    k = k + 1;
                    assert(items_view(items@) =~= items_view(before) + items_view(sub@.take(k as int)));
                }
                proof {
                    assert(sub@.take(k as int) =~= sub@);
                    assert(sv.take(i + 1) =~= sv.take(i as int) + seq![sv[i as int]]);
                    lemma_flatten_list_concat(sv.take(i as int), seq![sv[i as int]], depth + 1);
                    assert(seq![sv[i as int]].drop_first() =~= Seq::<NodeView>::empty());
                    assert(seq![sv[i as int]][0] == sv[i as int]);
                    assert(flatten_list(Seq::<NodeView>::empty(), depth + 1) =~= Seq::<(NodeView, int)>::empty());
                    assert(flatten_list(seq![sv[i as int]], depth + 1) =~= flatten(sv[i as int], depth + 1));
                    assert(items_view(items@) =~= seq![(n, depth as int)] + flatten_list(sv.take(i + 1), depth + 1));
                }
                i = i + 1;
            }
            proof {
                assert(sv.take(i as int) =~= sv);
            }
        } else {
            assert(items_view(items@) =~= flatten(n, depth as int));
        }
        items
    }

    /// The child named `name`, if there is one.
    pub fn child(&self, name: &str) -> (r: Option<&FileTreeNode>)
        ensures
            match child_index(nodes_view(self.children@), name@) {
                Some(i) => r is Some && *r->0 == self.children@[i],
                None => r is None,
            },
    {
        let found = find_child(&self.children, name);
        match found {
            Some(i) => {
                let c = &self.children[i];
                assert(*c == self.children@[i as int]);
                Some(c)
            },
            None => None,
        }
    }
}

pub proof fn lemma_nodes_view_update(s: Seq<FileTreeNode>, i: int, x: FileTreeNode)
    requires
        0 <= i < s.len(),
    ensures
        nodes_view(s.update(i, x)) == nodes_view(s).update(i, node_view(x)),
{
    lemma_nodes_view(s);
    lemma_nodes_view(s.update(i, x));
    assert(nodes_view(s.update(i, x)) =~= nodes_view(s).update(i, node_view(x)));
}

pub proof fn lemma_nodes_view_insert(s: Seq<FileTreeNode>, i: int, x: FileTreeNode)
    requires
        0 <= i <= s.len(),
    ensures
        nodes_view(s.insert(i, x)) == nodes_view(s).insert(i, node_view(x)),
{
    lemma_nodes_view(s);
    lemma_nodes_view(s.insert(i, x));
    assert(nodes_view(s.insert(i, x)) =~= nodes_view(s).insert(i, node_view(x)));
}

/// Where a child named `name` joins the children.
fn insert_position(ch: &Vec<FileTreeNode>, name: &str) -> (p: usize)
    ensures
        p as int == insert_pos(nodes_view(ch@), name@),
        p <= ch@.len(),
{
    proof {
        lemma_nodes_view(ch@);
    }
    let ghost v = nodes_view(ch@);
    let mut i: usize = 0;
    assert(v.skip(0) =~= v);
    while i < ch.len() && str_lt(ch[i].name.as_str(), name)
        invariant
            v == nodes_view(ch@),
            v.len() == ch@.len(),
            forall|j: int| 0 <= j < v.len() ==> #[trigger] v[j] == node_view(ch@[j]),
            0 <= i <= ch@.len(),
            insert_pos(v, name@) == i + insert_pos(v.skip(i as int), name@),
        decreases ch@.len() - i,
    {
        assert(v.skip(i as int)[0] == v[i as int]);
        assert(v.skip(i as int).drop_first() =~= v.skip(i + 1));
        i = i + 1;
    }
    if i < ch.len() {
        assert(v.skip(i as int)[0] == v[i as int]);
    }
    i
}

/// Puts `node` among the children under its name.
fn put_child_into(ch: &mut Vec<FileTreeNode>, node: FileTreeNode)
    ensures
        nodes_view(final(ch)@) == put_child(nodes_view(old(ch)@), node_view(node)),
{
    let found = find_child(ch, node.name.as_str());
    match found {
        Some(i) => {
            proof {
                lemma_nodes_view_update(ch@, i as int, node);
            }
            ch.set(i, node);
        },
        None => {
            let p = insert_position(ch, node.name.as_str());
            proof {
                lemma_nodes_view_insert(ch@, p as int, node);
            }
            ch.insert(p, node);
        },
    }
}

/// Whether the components `fc` start with the components `rc`.
fn starts_with_comps(rc: &Vec<String>, fc: &Vec<String>) -> (r: bool)
    ensures
        r == comps_prefix(strs(rc@), strs(fc@)),
{
    if rc.len() > fc.len() {
        return false;
    }
    let mut i: usize = 0;
    while i < rc.len()
        invariant
            rc@.len() <= fc@.len(),
            0 <= i <= rc@.len(),
            forall|j: int| 0 <= j < i ==> rc@[j]@ == fc@[j]@,
        decreases rc@.len() - i,
    {
        if rc[i] != fc[i] {
            assert(strs(fc@).take(rc@.len() as int)[i as int] != strs(rc@)[i as int]);
            return false;
        }
        i = i + 1;
    }
    assert(strs(fc@).take(rc@.len() as int) =~= strs(rc@));
    true
}

/// The position of the child named `name`.
fn find_child(ch: &Vec<FileTreeNode>, name: &str) -> (r: Option<usize>)
    ensures
        match child_index(nodes_view(ch@), name@) {
            Some(i) => r is Some && r->0 as int == i && 0 <= i < ch@.len(),
            None => r is None,
        },
{
    proof {
        lemma_nodes_view(ch@);
        lemma_child_index(nodes_view(ch@), name@);
    }
    let ghost v = nodes_view(ch@);
    let mut i: usize = 0;
    while i < ch.len()
        invariant
            v == nodes_view(ch@),
            v.len() == ch@.len(),
            forall|j: int| 0 <= j < v.len() ==> #[trigger] v[j] == node_view(ch@[j]),
            0 <= i <= ch@.len(),
            forall|j: int| 0 <= j < i ==> v[j].name != name@,
            match child_index(v, name@) {
                Some(c) => 0 <= c < v.len() && v[c].name == name@ && forall|j: int| 0 <= j < c ==> v[j].name != name@,
                None => forall|j: int| 0 <= j < v.len() ==> v[j].name != name@,
            },
        decreases ch@.len() - i,
    {
        if str_eq(ch[i].name.as_str(), name) {
            assert(v[i as int].name == name@);
            return Some(i);
        }
        i = i + 1;
    }
    None
}


/// Adding files never changes the node itself: its name, path, kind and
/// whether it is open stay; only the nodes below it change.
pub proof fn lemma_insert_rel_keeps(n: NodeView, comps: Seq<Seq<char>>, full: Seq<char>)
    ensures
        insert_rel(n, comps, full).name == n.name,
        insert_rel(n, comps, full).path == n.path,
        insert_rel(n, comps, full).is_folder == n.is_folder,
        insert_rel(n, comps, full).is_expanded == n.is_expanded,
{
}

/// Building the tree of files one by one: with no files the tree is the open
/// root alone; one more file below the root is inserted (as `insert_file`
/// inserts it) at its path relative to the root into the tree of the files
/// before it; a file elsewhere leaves that tree as it is.
pub proof fn law_build_is_inserts(root: Seq<char>, files: Seq<Seq<char>>, f: Seq<char>)
    ensures
        with_files(open_root(root), root, Seq::empty()) == open_root(root),
        comps_prefix(path_comps(root), path_comps(f)) ==> with_files(open_root(root), root, files.push(f)) == insert_rel(
            with_files(open_root(root), root, files),
            path_comps(f).skip(path_comps(root).len() as int),
            f,
        ),
        !comps_prefix(path_comps(root), path_comps(f)) ==> with_files(open_root(root), root, files.push(f)) == with_files(
            open_root(root),
            root,
            files,
        ),
{
    assert(files.push(f).drop_last() =~= files);
    assert(files.push(f).last() == f);
}

/// The root of a tree built from files stays as it was made: building the
/// sidebar tree from any files leaves the root open, with the root's name
/// and path.
pub proof fn law_root_stays_open(root: Seq<char>, files: Seq<Seq<char>>)
    ensures
        with_files(open_root(root), root, files).is_expanded,
        with_files(open_root(root), root, files).is_folder,
        with_files(open_root(root), root, files).name == root_name(root),
        with_files(open_root(root), root, files).path == root,
    decreases files.len(),
{
    if files.len() > 0 {
        law_root_stays_open(root, files.drop_last());
        let prev = with_files(open_root(root), root, files.drop_last());
        let rc = path_comps(root);
        let fc = path_comps(files.last());
        lemma_insert_rel_keeps(prev, fc.skip(rc.len() as int), files.last());
    }
}

/// `sorted_pos` puts `x` after every node that it is not shown before, and
/// before the node at its position, where there is one.
pub proof fn lemma_sorted_pos_bounds(s: Seq<NodeView>, x: NodeView)
    ensures
        0 <= sorted_pos(s, x) <= s.len(),
        forall|k: int| 0 <= k < sorted_pos(s, x) ==> !shown_before(x, #[trigger] s[k]),
        sorted_pos(s, x) < s.len() ==> shown_before(x, s[sorted_pos(s, x)]),
    decreases s.len(),
{
    if s.len() > 0 && !shown_before(x, s[0]) {
        lemma_sorted_pos_bounds(s.drop_first(), x);
        assert forall|k: int| 0 <= k < sorted_pos(s, x) implies !shown_before(x, #[trigger] s[k]) by {
            if k > 0 {
                assert(s[k] == s.drop_first()[k - 1]);
            }
        }
    }
}

/// No file comes before a folder.
pub open spec fn folders_first(s: Seq<NodeView>) -> bool {
    forall|i: int, j: int| 0 <= i < j < s.len() ==> !(!(#[trigger] s[i]).is_folder && (#[trigger] s[j]).is_folder)
}

/// In the sidebar, the folders among a node's children come before its
/// files.
pub proof fn law_folders_before_files(s: Seq<NodeView>)
    ensures
        folders_first(sidebar_order(s)),
        sidebar_order(s).len() == s.len(),
    decreases s.len(),
{
    lemma_sidebar_order(s);
    if s.len() > 0 {
        let t = sidebar_order(s.drop_last());
        let x = s.last();
        law_folders_before_files(s.drop_last());
        lemma_sorted_pos_bounds(t, x);
        let p = sorted_pos(t, x);
        let u = t.insert(p, x);
        assert forall|i: int, j: int| 0 <= i < j < u.len() implies !(!(#[trigger] u[i]).is_folder && (#[trigger] u[j]).is_folder) by {
            if i < p && j == p {
                assert(u[i] == t[i]);
                assert(!shown_before(x, t[i]));
            } else if i == p && j > p {
                assert(u[j] == t[j - 1]);
                if !x.is_folder && t[j - 1].is_folder {
                    assert(shown_before(x, t[p]));
                    if j - 1 > p {
                        assert(!(!t[p].is_folder && t[j - 1].is_folder));
                    }
                }
            } else if i < p && j < p {
                assert(u[i] == t[i] && u[j] == t[j]);
            } else if i < p && j > p {
                assert(u[i] == t[i] && u[j] == t[j - 1]);
            } else if i > p && j > p {
                assert(u[i] == t[i - 1] && u[j] == t[j - 1]);
            }
        }
    }
}

proof fn lemma_toggle_twice(n: NodeView, p: Seq<char>)
    ensures
        toggled(toggled(n, p), p) == n,
        has_path(toggled(n, p), p) == has_path(n, p),
    decreases n, 1nat,
{
    if !same_path_spec(n.path, p) {
        lemma_toggle_list_twice(n.children, p);
    }
}

proof fn lemma_toggle_list_twice(s: Seq<NodeView>, p: Seq<char>)
    ensures
        toggled_list(toggled_list(s, p), p) == s,
        any_has_path(toggled_list(s, p), p) == any_has_path(s, p),
    decreases s, 0nat,
{
    if s.len() > 0 {
        let t = toggled_list(s, p);
        if has_path(s[0], p) {
            lemma_toggle_twice(s[0], p);
            assert(t[0] == toggled(s[0], p));
            assert(t.drop_first() =~= s.drop_first());
            assert(toggled_list(t, p) =~= s);
        } else {
            lemma_toggle_list_twice(s.drop_first(), p);
            assert(t[0] == s[0]);
            assert(t.drop_first() =~= toggled_list(s.drop_first(), p));
            assert(toggled_list(t, p) =~= s);
        }
    }
}

/// Opening a folder and then closing it again, or closing and then opening
/// it, gives back the tree as it was.
pub proof fn law_toggle_twice(n: NodeView, p: Seq<char>)
    ensures
        toggled(toggled(n, p), p) == n,
{
    lemma_toggle_twice(n, p);
}

/// The name shown for the root: the path's file name, else the whole path.
pub open spec fn root_name(p: Seq<char>) -> Seq<char> {
    match file_name_spec(p) {
        Some(n) => n,
        None => p,
    }
}

/// The root before any file is added: an open folder.
pub open spec fn open_root(p: Seq<char>) -> NodeView {
    NodeView { is_expanded: true, ..leaf_view(root_name(p), p, true) }
}

impl FileTree {
    pub fn new(root_path: String) -> (t: FileTree)
        ensures
            node_view(t.root) == leaf_view(root_name(root_path@), root_path@, true),
    {
        let name = match file_name(root_path.as_str()) {
            Some(n) => n,
            None => root_path.clone(),
        };
        FileTree { root: FileTreeNode::new_folder(name, root_path) }
    }

    /// The tree of the files that lie below `root_path`, with the root
    /// open; files elsewhere are left out.
    pub fn build_from_files(root_path: String, files: &[String]) -> (t: FileTree)
        ensures
            node_view(t.root) == with_files(open_root(root_path@), root_path@, strs(files@)),
    {
        let root_comps = components(root_path.as_str());
        let mut tree = FileTree::new(root_path.clone());
        tree.root.is_expanded = true;
        proof {
            assert(strs(files@).take(0) =~= Seq::<Seq<char>>::empty());
        }
        let mut i: usize = 0;
        while i < files.len()
            invariant
                strs(root_comps@) == path_comps(root_path@),
                0 <= i <= files@.len(),
                node_view(tree.root) == with_files(open_root(root_path@), root_path@, strs(files@).take(i as int)),
            decreases files@.len() - i,
        {
            let file_comps = components(files[i].as_str());
            proof {
                assert(strs(files@).take(i + 1).drop_last() =~= strs(files@).take(i as int));
                assert(strs(files@).take(i + 1).last() == files@[i as int]@);
            }
            if starts_with_comps(&root_comps, &file_comps) {
                tree.root.insert_comps(&file_comps, root_comps.len(), files[i].clone());
            }
            i = i + 1;
        }
        assert(strs(files@).take(i as int) =~= strs(files@));
        tree
    }

    /// Opens or closes the folder at `path`.
    pub fn toggle_folder(&mut self, path: &str)
        ensures
            node_view(final(self).root) == toggled(node_view(old(self).root), path@),
    {
        self.root.toggle_expanded(path);
    }

    /// The rows of the sidebar.
    pub fn get_items(&self) -> (r: Vec<FileTreeItem>)
        requires
            node_count(node_view(self.root)) <= usize::MAX,
        ensures
            items_view(r@) == flatten(node_view(self.root), 0),
    {
        self.root.get_flattened_items(0)
    }
}

} // verus!
