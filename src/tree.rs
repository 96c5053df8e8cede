use vstd::prelude::*;

verus! {

broadcast use {vstd::seq::axiom_seq_index_decreases, vstd::std_specs::vec::axiom_vec_decreases_to_view};

/// The byte that starts the name of a hidden entry (`.`).
pub const HIDDEN_MARKER: u8 = 46;

/// One entry of a directory listing, with the listing of its own contents
/// when it is a directory.
#[derive(Debug)]
pub struct Node {
    pub name: Vec<u8>,
    pub path: String,
    pub is_dir: bool,
    pub children: Vec<Node>,
}

/// One line of the flattened tree: an entry and the number of directories
/// between it and the root.
#[derive(Debug)]
pub struct TreeEntry {
    pub name: Vec<u8>,
    pub path: String,
    pub is_directory: bool,
    pub depth: usize,
}

/// A `TreeEntry` as plain values.
pub struct EntryView {
    pub name: Seq<u8>,
    pub path: Seq<char>,
    pub is_directory: bool,
    pub depth: int,
}

impl View for TreeEntry {
    type V = EntryView;

    open spec fn view(&self) -> EntryView {
        EntryView { name: self.name@, path: self.path@, is_directory: self.is_directory, depth: self.depth as int }
    }
}

pub open spec fn entries_view(s: Seq<TreeEntry>) -> Seq<EntryView> {
    s.map_values(|e: TreeEntry| e@)
}

/// A name that starts with the hidden-file marker.
pub open spec fn is_hidden_name(name: Seq<u8>) -> bool {
    name.len() > 0 && name[0] == HIDDEN_MARKER
}

/// Whether an entry of this name takes part in a walk.
pub open spec fn is_shown(name: Seq<u8>, show_hidden: bool) -> bool {
    show_hidden || !is_hidden_name(name)
}

/// Byte-wise lexicographic order on names, compared from position `i` on.
pub open spec fn name_lt_from(a: Seq<u8>, b: Seq<u8>, i: int) -> bool
    decreases a.len() - i,
{
    if i < 0 || i >= a.len() {
        0 <= i < b.len()
    } else if i >= b.len() {
        false
    } else if a[i] != b[i] {
        a[i] < b[i]
    } else {
        name_lt_from(a, b, i + 1)
    }
}

pub open spec fn name_lt(a: Seq<u8>, b: Seq<u8>) -> bool {
    name_lt_from(a, b, 0)
}

/// Places index `i` into `order` before the first entry whose name is
/// greater than that of `nodes[i]` (after all equal ones, so the sort is stable).
pub open spec fn insert_by_name(nodes: Seq<Node>, i: int, order: Seq<int>) -> Seq<int>
    decreases order.len(),
{
    if order.len() == 0 {
        seq![i]
    } else if name_lt(nodes[i].name@, nodes[order[0]].name@) {
        seq![i] + order
    } else {
        seq![order[0]] + insert_by_name(nodes, i, order.drop_first())
    }
}

/// The indices among the first `k` of `nodes` that are shown, sorted by name.
pub open spec fn arrangement(nodes: Seq<Node>, k: int, show_hidden: bool) -> Seq<int>
    decreases k,
{
    if k <= 0 {
        seq![]
    } else {
        let rest = arrangement(nodes, k - 1, show_hidden);
        if is_shown(nodes[k - 1].name@, show_hidden) {
            insert_by_name(nodes, k - 1, rest)
        } else {
            rest
        }
    }
}

pub open spec fn entry_of(n: Node, depth: int) -> EntryView {
    EntryView { name: n.name@, path: n.path@, is_directory: n.is_dir, depth }
}

/// Pre-order walk of the nodes listed by `order`: each entry, then (for a
/// directory) the walk of its own contents one level deeper, then the rest.
pub open spec fn walk_order(nodes: Seq<Node>, order: Seq<int>, depth: int, show_hidden: bool) -> Seq<EntryView>
    decreases nodes, order.len(),
{
    if order.len() == 0 {
        seq![]
    } else if 0 <= order[0] < nodes.len() {
        let n = nodes[order[0]];
        let sub = if n.is_dir {
            walk_order(n.children@, arrangement(n.children@, n.children@.len() as int, show_hidden), depth + 1, show_hidden)
        } else {
            seq![]
        };
        seq![entry_of(n, depth)] + sub + walk_order(nodes, order.drop_first(), depth, show_hidden)
    } else {
        walk_order(nodes, order.drop_first(), depth, show_hidden)
    }
}

/// The flattened tree of a listing: shown entries sorted by name, each
/// directory followed by its own flattened contents.
pub open spec fn walk(nodes: Seq<Node>, depth: int, show_hidden: bool) -> Seq<EntryView> {
    walk_order(nodes, arrangement(nodes, nodes.len() as int, show_hidden), depth, show_hidden)
}

/// The number of nesting levels of a listing, counting from `nodes[k]` on.
pub open spec fn height_from(nodes: Seq<Node>, k: int) -> nat
    decreases nodes, nodes.len() - k,
{
    if k < 0 || k >= nodes.len() {
        0
    } else {
        let own = 1 + height_from(nodes[k].children@, 0);
        let rest = height_from(nodes, k + 1);
        if own >= rest { own } else { rest }
    }
}

pub open spec fn height(nodes: Seq<Node>) -> nat {
    height_from(nodes, 0)
}

proof fn lemma_height_bounds_child(nodes: Seq<Node>, k: int, i: int)
    requires
        0 <= k <= i < nodes.len(),
    ensures
        height_from(nodes, k) >= 1 + height(nodes[i].children@),
    decreases i - k,
{
    if k < i {
        lemma_height_bounds_child(nodes, k + 1, i);
    }
}

/// Entry `b` may follow entry `a` in a pre-order walk: it is at most one
/// level deeper, and deeper only when `a` is a directory it lies in.
pub open spec fn may_follow(a: EntryView, b: EntryView) -> bool {
    b.depth <= a.depth + 1 && (b.depth > a.depth ==> a.is_directory)
}

/// A depth-annotated sequence is a pre-order walk of a forest whose roots
/// lie at `depth`: it starts at that depth, never goes above it, and each
/// entry may follow the one before it. So the entries deeper than a
/// directory form one contiguous block right after it, ended by the next
/// entry that is not deeper.
pub open spec fn is_preorder(s: Seq<EntryView>, depth: int) -> bool {
    &&& s.len() > 0 ==> s[0].depth == depth
    &&& forall|k: int| 0 <= k < s.len() ==> #[trigger] s[k].depth >= depth
    &&& forall|k: int, m: int| 0 <= k && m == k + 1 && m < s.len() ==> #[trigger] may_follow(s[k], s[m])
}

proof fn lemma_compose_preorder(e: EntryView, sub: Seq<EntryView>, rest: Seq<EntryView>, depth: int)
    requires
        e.depth == depth,
        sub.len() > 0 ==> e.is_directory,
        is_preorder(sub, depth + 1),
        is_preorder(rest, depth),
    ensures
        is_preorder(seq![e] + sub + rest, depth),
{
    let t = seq![e] + sub + rest;
    let n = sub.len() as int;
    assert forall|k: int| 0 <= k < t.len() implies #[trigger] t[k].depth >= depth by {
        if 1 <= k <= n {
            assert(t[k] == sub[k - 1]);
        } else if k > n {
            assert(t[k] == rest[k - 1 - n]);
        }
    }
    assert forall|k: int, m: int| 0 <= k && m == k + 1 && m < t.len() implies #[trigger] may_follow(t[k], t[m]) by {
        if k == 0 {
            if n > 0 {
                assert(t[m] == sub[0]);
            } else {
                assert(t[m] == rest[0]);
            }
        } else if k <= n {
            assert(t[k] == sub[k - 1]);
            assert(sub[k - 1].depth >= depth + 1);
            if m <= n {
                assert(t[m] == sub[m - 1]);
                assert(may_follow(sub[k - 1], sub[m - 1]));
            } else {
                assert(t[m] == rest[0]);
            }
        } else {
            assert(t[k] == rest[k - 1 - n]);
            assert(t[m] == rest[m - 1 - n]);
            assert(may_follow(rest[k - 1 - n], rest[m - 1 - n]));
        }
    }
}

proof fn lemma_walk_order_preorder(nodes: Seq<Node>, order: Seq<int>, depth: int, show_hidden: bool)
    ensures
        is_preorder(walk_order(nodes, order, depth, show_hidden), depth),
    decreases nodes, order.len(),
{
    if order.len() > 0 {
        lemma_walk_order_preorder(nodes, order.drop_first(), depth, show_hidden);
        if 0 <= order[0] < nodes.len() {
            let n = nodes[order[0]];
            let sub = if n.is_dir {
                assert(decreases_to!(nodes => nodes[order[0]]));
                lemma_walk_order_preorder(n.children@, arrangement(n.children@, n.children@.len() as int, show_hidden), depth + 1, show_hidden);
                walk_order(n.children@, arrangement(n.children@, n.children@.len() as int, show_hidden), depth + 1, show_hidden)
            } else {
                seq![]
            };
            lemma_compose_preorder(entry_of(n, depth), sub, walk_order(nodes, order.drop_first(), depth, show_hidden), depth);
        }
    }
}

/// The flattened tree is a valid pre-order walk: every directory's contents
/// follow it at once, one level deeper, before the walk goes on with its
/// next sibling.
pub proof fn lemma_walk_is_preorder(nodes: Seq<Node>, depth: int, show_hidden: bool)
    ensures
        is_preorder(walk(nodes, depth, show_hidden), depth),
{
    lemma_walk_order_preorder(nodes, arrangement(nodes, nodes.len() as int, show_hidden), depth, show_hidden);
}

/// A name's bytes as text, each invalid UTF-8 sequence replaced, as
/// `String::from_utf8_lossy` gives it.
pub uninterp spec fn lossy_text_of(bytes: Seq<u8>) -> Seq<char>;

/// The path of the entry `name` inside the directory at `parent`.
pub open spec fn child_path(parent: Seq<char>, name: Seq<u8>) -> Seq<char> {
    parent + seq!['/'] + lossy_text_of(name)
}

/// Each child of `n` has the path of `n` joined with its own name.
pub open spec fn children_placed(n: Node) -> bool {
    forall|j: int| 0 <= j < n.children@.len() ==> #[trigger] n.children@[j].path@ == child_path(n.path@, n.children@[j].name@)
}

/// Every node from `nodes[k]` on, at every level below, places its children.
pub open spec fn paths_nested_from(nodes: Seq<Node>, k: int) -> bool
    decreases nodes, nodes.len() - k,
{
    if k < 0 || k >= nodes.len() {
        true
    } else {
        children_placed(nodes[k]) && paths_nested_from(nodes[k].children@, 0) && paths_nested_from(nodes, k + 1)
    }
}

/// The paths of a listing follow its nesting at every level.
pub open spec fn paths_nested(nodes: Seq<Node>) -> bool {
    paths_nested_from(nodes, 0)
}

proof fn lemma_nested_at(nodes: Seq<Node>, k: int, i: int)
    requires
        0 <= k <= i < nodes.len(),
        paths_nested_from(nodes, k),
    ensures
        children_placed(nodes[i]),
        paths_nested(nodes[i].children@),
    decreases i - k,
{
    if k < i {
        lemma_nested_at(nodes, k + 1, i);
    }
}

/// Each entry that is deeper than the one before it lies directly inside it.
pub open spec fn steps_into_parent(s: Seq<EntryView>) -> bool {
    forall|k: int, m: int| 0 <= k && m == k + 1 && m < s.len() && #[trigger] s[m].depth > #[trigger] s[k].depth
        ==> s[m].path == child_path(s[k].path, s[m].name)
}

proof fn lemma_walk_order_steps(nodes: Seq<Node>, order: Seq<int>, depth: int, show_hidden: bool)
    requires
        paths_nested(nodes),
    ensures
        steps_into_parent(walk_order(nodes, order, depth, show_hidden)),
    decreases nodes, order.len(),
{
    if order.len() > 0 {
        let rest_order = order.drop_first();
        lemma_walk_order_steps(nodes, rest_order, depth, show_hidden);
        lemma_walk_order_preorder(nodes, rest_order, depth, show_hidden);
        let rest = walk_order(nodes, rest_order, depth, show_hidden);
        if 0 <= order[0] < nodes.len() {
            let n = nodes[order[0]];
            let e = entry_of(n, depth);
            lemma_nested_at(nodes, 0, order[0]);
            let kids = n.children@;
            let arr = arrangement(kids, kids.len() as int, show_hidden);
            let sub = if n.is_dir {
                walk_order(kids, arr, depth + 1, show_hidden)
            } else {
                seq![]
            };
            if n.is_dir {
                assert(decreases_to!(nodes => nodes[order[0]]));
                lemma_walk_order_steps(kids, arr, depth + 1, show_hidden);
                lemma_walk_order_preorder(kids, arr, depth + 1, show_hidden);
                if sub.len() > 0 {
                    lemma_arrangement_members(kids, kids.len() as int, show_hidden);
                    assert(arr.len() > 0);
                    assert(0 <= arr[0] < kids.len());
                    assert(sub[0] == entry_of(kids[arr[0]], depth + 1));
                    assert(kids[arr[0]].path@ == child_path(n.path@, kids[arr[0]].name@));
                }
            }
            let t = seq![e] + sub + rest;
            assert(walk_order(nodes, order, depth, show_hidden) == t);
            let ns = sub.len() as int;
            assert forall|k: int, m: int| 0 <= k && m == k + 1 && m < t.len() && #[trigger] t[m].depth > #[trigger] t[k].depth
                implies t[m].path == child_path(t[k].path, t[m].name) by {
                if k == 0 {
                    if ns == 0 {
                        assert(t[m] == rest[0]);
                    } else {
                        assert(t[m] == sub[0]);
                    }
                } else if k <= ns {
                    assert(t[k] == sub[k - 1]);
                    assert(sub[k - 1].depth >= depth + 1);
                    if m <= ns {
                        assert(t[m] == sub[m - 1]);
                        assert(sub[m - 1].depth > sub[k - 1].depth);
                    } else {
                        assert(t[m] == rest[0]);
                    }
                } else {
                    assert(t[k] == rest[k - 1 - ns]);
                    assert(t[m] == rest[m - 1 - ns]);
                    assert(rest[m - 1 - ns].depth > rest[k - 1 - ns].depth);
                }
            }
        } else {
            assert(walk_order(nodes, order, depth, show_hidden) == rest);
        }
    }
}

/// In the flattened tree of a listing whose paths follow its nesting, an
/// entry one level deeper than the one before it is a child of that entry:
/// its path is that entry's path joined with its own name.
pub proof fn lemma_walk_steps_into_parent(nodes: Seq<Node>, depth: int, show_hidden: bool)
    requires
        paths_nested(nodes),
    ensures
        steps_into_parent(walk(nodes, depth, show_hidden)),
{
    lemma_walk_order_steps(nodes, arrangement(nodes, nodes.len() as int, show_hidden), depth, show_hidden);
}

proof fn lemma_walk_order_hides(nodes: Seq<Node>, order: Seq<int>, depth: int)
    requires
        forall|j: int| 0 <= j < order.len() && 0 <= #[trigger] order[j] < nodes.len() ==> !is_hidden_name(nodes[order[j]].name@),
    ensures
        forall|k: int| 0 <= k < walk_order(nodes, order, depth, false).len()
            ==> !is_hidden_name(#[trigger] walk_order(nodes, order, depth, false)[k].name),
    decreases nodes, order.len(),
{
    if order.len() > 0 {
        let rest = order.drop_first();
        assert forall|j: int| 0 <= j < rest.len() && 0 <= #[trigger] rest[j] < nodes.len() implies !is_hidden_name(nodes[rest[j]].name@) by {
            assert(rest[j] == order[j + 1]);
        }
        lemma_walk_order_hides(nodes, rest, depth);
        if 0 <= order[0] < nodes.len() {
            let n = nodes[order[0]];
            let tail = walk_order(nodes, rest, depth, false);
            let sub = if n.is_dir {
                let kids = n.children@;
                let ord = arrangement(kids, kids.len() as int, false);
                assert(decreases_to!(nodes => nodes[order[0]]));
                lemma_arrangement_members(kids, kids.len() as int, false);
                assert forall|j: int| 0 <= j < ord.len() && 0 <= #[trigger] ord[j] < kids.len() implies !is_hidden_name(kids[ord[j]].name@) by {
                    assert(is_shown(kids[ord[j]].name@, false));
                }
                lemma_walk_order_hides(kids, ord, depth + 1);
                walk_order(kids, ord, depth + 1, false)
            } else {
                seq![]
            };
            let t = walk_order(nodes, order, depth, false);
            assert(t == seq![entry_of(n, depth)] + sub + tail);
            assert forall|k: int| 0 <= k < t.len() implies !is_hidden_name(#[trigger] t[k].name) by {
                if k == 0 {
                } else if k <= sub.len() {
                    assert(t[k] == sub[k - 1]);
                } else {
                    assert(t[k] == tail[k - 1 - sub.len()]);
                }
            }
        } else {
            assert(walk_order(nodes, order, depth, false) == walk_order(nodes, rest, depth, false));
        }
    }
}

/// A walk that leaves hidden entries out yields no entry with a hidden name:
/// hidden entries are dropped before their directories would be entered.
pub proof fn lemma_walk_hides_hidden(nodes: Seq<Node>, depth: int)
    ensures
        forall|k: int| 0 <= k < walk(nodes, depth, false).len() ==> !is_hidden_name(#[trigger] walk(nodes, depth, false)[k].name),
{
    let ord = arrangement(nodes, nodes.len() as int, false);
    lemma_arrangement_members(nodes, nodes.len() as int, false);
    assert forall|j: int| 0 <= j < ord.len() && 0 <= #[trigger] ord[j] < nodes.len() implies !is_hidden_name(nodes[ord[j]].name@) by {
        assert(is_shown(nodes[ord[j]].name@, false));
    }
    lemma_walk_order_hides(nodes, ord, depth);
}

proof fn lemma_insert_same_names(a: Seq<Node>, b: Seq<Node>, i: int, order: Seq<int>)
    requires
        a.len() == b.len(),
        0 <= i < a.len(),
        forall|x: int| 0 <= x < a.len() ==> #[trigger] a[x].name@ == b[x].name@,
        forall|j: int| 0 <= j < order.len() ==> 0 <= #[trigger] order[j] < a.len(),
    ensures
        insert_by_name(a, i, order) == insert_by_name(b, i, order),
    decreases order.len(),
{
    if order.len() > 0 {
        let rest = order.drop_first();
        assert forall|j: int| 0 <= j < rest.len() implies 0 <= #[trigger] rest[j] < a.len() by {
            assert(rest[j] == order[j + 1]);
        }
        lemma_insert_same_names(a, b, i, rest);
        assert(a[order[0]].name@ == b[order[0]].name@);
    }
}

proof fn lemma_arrangement_same_names(a: Seq<Node>, b: Seq<Node>, k: int, show_hidden: bool)
    requires
        a.len() == b.len(),
        0 <= k <= a.len(),
        forall|x: int| 0 <= x < a.len() ==> #[trigger] a[x].name@ == b[x].name@,
    ensures
        arrangement(a, k, show_hidden) == arrangement(b, k, show_hidden),
    decreases k,
{
    if k > 0 {
        lemma_arrangement_same_names(a, b, k - 1, show_hidden);
        lemma_arrangement_members(a, k - 1, show_hidden);
        let rest = arrangement(a, k - 1, show_hidden);
        assert forall|j: int| 0 <= j < rest.len() implies 0 <= #[trigger] rest[j] < a.len() by {}
        lemma_insert_same_names(a, b, k - 1, rest);
        assert(a[k - 1].name@ == b[k - 1].name@);
    }
}

proof fn lemma_walk_order_same_nodes(a: Seq<Node>, b: Seq<Node>, order: Seq<int>, depth: int, show_hidden: bool)
    requires
        a.len() == b.len(),
        forall|j: int| 0 <= j < order.len() && 0 <= #[trigger] order[j] < a.len() ==> a[order[j]] == b[order[j]],
    ensures
        walk_order(a, order, depth, show_hidden) == walk_order(b, order, depth, show_hidden),
    decreases order.len(),
{
    if order.len() > 0 {
        let rest = order.drop_first();
        assert forall|j: int| 0 <= j < rest.len() && 0 <= #[trigger] rest[j] < a.len() implies a[rest[j]] == b[rest[j]] by {
            assert(rest[j] == order[j + 1]);
        }
        lemma_walk_order_same_nodes(a, b, rest, depth, show_hidden);
    }
}

/// Nothing inside a hidden entry reaches a walk that leaves hidden entries
/// out: putting any other entry of the same name in its place (other
/// contents, or another kind) leaves the walk as it was.
pub proof fn lemma_hidden_contents_ignored(nodes: Seq<Node>, h: int, other: Node, depth: int)
    requires
        0 <= h < nodes.len(),
        is_hidden_name(nodes[h].name@),
        other.name@ == nodes[h].name@,
    ensures
        walk(nodes.update(h, other), depth, false) == walk(nodes, depth, false),
{
    let b = nodes.update(h, other);
    assert forall|x: int| 0 <= x < nodes.len() implies #[trigger] nodes[x].name@ == b[x].name@ by {}
    lemma_arrangement_same_names(nodes, b, nodes.len() as int, false);
    let ord = arrangement(nodes, nodes.len() as int, false);
    lemma_arrangement_members(nodes, nodes.len() as int, false);
    assert forall|j: int| 0 <= j < ord.len() && 0 <= #[trigger] ord[j] < nodes.len() implies nodes[ord[j]] == b[ord[j]] by {
        assert(is_shown(nodes[ord[j]].name@, false));
    }
    lemma_walk_order_same_nodes(nodes, b, ord, depth, false);
}

fn name_less(a: &Vec<u8>, b: &Vec<u8>) -> (r: bool)
    ensures
        r == name_lt(a@, b@),
{
    let mut i: usize = 0;
    while i < a.len() && i < b.len() && a[i] == b[i]
        invariant
            0 <= i <= a.len(),
            i <= b.len(),
            name_lt(a@, b@) == name_lt_from(a@, b@, i as int),
        decreases a.len() - i,
    {
        i = i + 1;
    }
    if i < a.len() && i < b.len() {
        a[i] < b[i]
    } else {
        i >= a.len() && i < b.len()
    }
}

/// Whether an entry of this name takes part in a walk.
pub fn is_shown_name(name: &Vec<u8>, show_hidden: bool) -> (r: bool)
    ensures
        r == is_shown(name@, show_hidden),
{
    show_hidden || name.len() == 0 || name[0] != HIDDEN_MARKER
}

proof fn lemma_insert_at(nodes: Seq<Node>, i: int, order: Seq<int>, p: int)
    requires
        0 <= p <= order.len(),
        forall|j: int| 0 <= j < p ==> !name_lt(nodes[i].name@, #[trigger] nodes[order[j]].name@),
        p < order.len() ==> name_lt(nodes[i].name@, nodes[order[p]].name@),
    ensures
        insert_by_name(nodes, i, order) == order.subrange(0, p).push(i) + order.subrange(p, order.len() as int),
    decreases order.len(),
{
    if order.len() > 0 {
        if p > 0 {
            assert(!name_lt(nodes[i].name@, nodes[order[0]].name@));
            let rest = order.drop_first();
            assert forall|j: int| 0 <= j < p - 1 implies !name_lt(nodes[i].name@, #[trigger] nodes[rest[j]].name@) by {
                assert(rest[j] == order[j + 1]);
            }
            lemma_insert_at(nodes, i, rest, p - 1);
            assert(insert_by_name(nodes, i, order) =~= order.subrange(0, p).push(i) + order.subrange(p, order.len() as int));
        } else {
            assert(insert_by_name(nodes, i, order) =~= order.subrange(0, p).push(i) + order.subrange(p, order.len() as int));
        }
    } else {
        assert(insert_by_name(nodes, i, order) =~= order.subrange(0, p).push(i) + order.subrange(p, order.len() as int));
    }
}

proof fn lemma_insert_members(nodes: Seq<Node>, i: int, order: Seq<int>)
    ensures
        forall|j: int| 0 <= j < insert_by_name(nodes, i, order).len() ==> #[trigger] insert_by_name(nodes, i, order)[j] == i || order.contains(insert_by_name(nodes, i, order)[j]),
    decreases order.len(),
{
    if order.len() > 0 && !name_lt(nodes[i].name@, nodes[order[0]].name@) {
        let rest = order.drop_first();
        lemma_insert_members(nodes, i, rest);
        let r = insert_by_name(nodes, i, order);
        assert forall|j: int| 0 <= j < r.len() implies #[trigger] r[j] == i || order.contains(r[j]) by {
            if j > 0 {
                let x = insert_by_name(nodes, i, rest)[j - 1];
                if x != i {
                    let w = choose|w: int| 0 <= w < rest.len() && rest[w] == x;
                    assert(order[w + 1] == x);
                }
            } else {
                assert(order[0] == r[0]);
            }
        }
    } else if order.len() > 0 {
        let r = insert_by_name(nodes, i, order);
        assert forall|j: int| 0 <= j < r.len() implies #[trigger] r[j] == i || order.contains(r[j]) by {
            if j > 0 {
                assert(order[j - 1] == r[j]);
            }
        }
    }
}

/// Every index of an arrangement is in range and names a shown entry.
proof fn lemma_arrangement_members(nodes: Seq<Node>, k: int, show_hidden: bool)
    requires
        0 <= k <= nodes.len(),
    ensures
        forall|j: int| 0 <= j < arrangement(nodes, k, show_hidden).len() ==> {
            let x = #[trigger] arrangement(nodes, k, show_hidden)[j];
            0 <= x < k && is_shown(nodes[x].name@, show_hidden)
        },
    decreases k,
{
    if k > 0 {
        lemma_arrangement_members(nodes, k - 1, show_hidden);
        let rest = arrangement(nodes, k - 1, show_hidden);
        if is_shown(nodes[k - 1].name@, show_hidden) {
            lemma_insert_members(nodes, k - 1, rest);
            let r = arrangement(nodes, k, show_hidden);
            assert forall|j: int| 0 <= j < r.len() implies 0 <= #[trigger] r[j] < k && is_shown(nodes[r[j]].name@, show_hidden) by {
                if r[j] != k - 1 {
                    let w = choose|w: int| 0 <= w < rest.len() && rest[w] == r[j];
                    assert(rest[w] == arrangement(nodes, k - 1, show_hidden)[w]);
                }
            }
        }
    }
}

proof fn lemma_name_lt_irreflexive(a: Seq<u8>, i: int)
    requires
        0 <= i,
    ensures
        !name_lt_from(a, a, i),
    decreases a.len() - i,
{
    if i < a.len() {
        lemma_name_lt_irreflexive(a, i + 1);
    }
}

proof fn lemma_name_lt_transitive(a: Seq<u8>, b: Seq<u8>, c: Seq<u8>, i: int)
    requires
        0 <= i,
        name_lt_from(a, b, i),
        name_lt_from(b, c, i),
    ensures
        name_lt_from(a, c, i),
    decreases a.len() - i,
{
    if i < a.len() && i < b.len() && i < c.len() && a[i] == b[i] && b[i] == c[i] {
        lemma_name_lt_transitive(a, b, c, i + 1);
    }
}

/// The entries listed by `order` come in non-decreasing order of name.
pub open spec fn sorted_by_name(nodes: Seq<Node>, order: Seq<int>) -> bool {
    forall|j: int, l: int| 0 <= j < l < order.len() ==> !name_lt(#[trigger] nodes[order[l]].name@, #[trigger] nodes[order[j]].name@)
}

proof fn lemma_insert_sorted(nodes: Seq<Node>, i: int, order: Seq<int>)
    requires
        sorted_by_name(nodes, order),
    ensures
        sorted_by_name(nodes, insert_by_name(nodes, i, order)),
        insert_by_name(nodes, i, order).contains(i),
        forall|j: int| 0 <= j < order.len() ==> insert_by_name(nodes, i, order).contains(#[trigger] order[j]),
    decreases order.len(),
{
    let x = nodes[i].name@;
    let r = insert_by_name(nodes, i, order);
    if order.len() == 0 {
        assert(r[0] == i);
    } else if name_lt(x, nodes[order[0]].name@) {
        assert(r[0] == i);
        assert forall|j: int| 0 <= j < order.len() implies r.contains(#[trigger] order[j]) by {
            assert(r[j + 1] == order[j]);
        }
        assert forall|j: int, l: int| 0 <= j < l < r.len() implies !name_lt(#[trigger] nodes[r[l]].name@, #[trigger] nodes[r[j]].name@) by {
            if j == 0 {
                let y = nodes[r[l]].name@;
                assert(r[l] == order[l - 1]);
                if name_lt(y, x) {
                    lemma_name_lt_transitive(y, x, nodes[order[0]].name@, 0);
                    if l - 1 == 0 {
                        lemma_name_lt_irreflexive(y, 0);
                    } else {
                        assert(!name_lt(nodes[order[l - 1]].name@, nodes[order[0]].name@));
                    }
                }
            } else {
                assert(r[j] == order[j - 1]);
                assert(r[l] == order[l - 1]);
            }
        }
    } else {
        let rest = order.drop_first();
        assert forall|j: int, l: int| 0 <= j < l < rest.len() implies !name_lt(#[trigger] nodes[rest[l]].name@, #[trigger] nodes[rest[j]].name@) by {
            assert(rest[j] == order[j + 1]);
            assert(rest[l] == order[l + 1]);
        }
        lemma_insert_sorted(nodes, i, rest);
        lemma_insert_members(nodes, i, rest);
        let ir = insert_by_name(nodes, i, rest);
        assert(r == seq![order[0]] + ir);
        assert(r.contains(i)) by {
            let w = choose|w: int| 0 <= w < ir.len() && ir[w] == i;
            assert(r[w + 1] == i);
        }
        assert forall|j: int| 0 <= j < order.len() implies r.contains(#[trigger] order[j]) by {
            if j == 0 {
                assert(r[0] == order[0]);
            } else {
                assert(rest[j - 1] == order[j]);
                assert(ir.contains(rest[j - 1]));
                let w = choose|w: int| 0 <= w < ir.len() && ir[w] == rest[j - 1];
                assert(r[w + 1] == order[j]);
            }
        }
        assert forall|j: int, l: int| 0 <= j < l < r.len() implies !name_lt(#[trigger] nodes[r[l]].name@, #[trigger] nodes[r[j]].name@) by {
            assert(r[l] == ir[l - 1]);
            if j == 0 {
                assert(r[0] == order[0]);
                if ir[l - 1] != i {
                    let w = choose|w: int| 0 <= w < rest.len() && rest[w] == ir[l - 1];
                    assert(rest[w] == order[w + 1]);
                }
            } else {
                assert(r[j] == ir[j - 1]);
            }
        }
    }
}

proof fn lemma_arrangement_sorted_from(nodes: Seq<Node>, k: int, show_hidden: bool)
    requires
        0 <= k <= nodes.len(),
    ensures
        sorted_by_name(nodes, arrangement(nodes, k, show_hidden)),
        forall|x: int| 0 <= x < k && is_shown(#[trigger] nodes[x].name@, show_hidden) ==> arrangement(nodes, k, show_hidden).contains(x),
    decreases k,
{
    if k > 0 {
        lemma_arrangement_sorted_from(nodes, k - 1, show_hidden);
        let rest = arrangement(nodes, k - 1, show_hidden);
        if is_shown(nodes[k - 1].name@, show_hidden) {
            lemma_insert_sorted(nodes, k - 1, rest);
            assert forall|x: int| 0 <= x < k && is_shown(#[trigger] nodes[x].name@, show_hidden) implies arrangement(nodes, k, show_hidden).contains(x) by {
                if x < k - 1 {
                    let w = choose|w: int| 0 <= w < rest.len() && rest[w] == x;
                    assert(insert_by_name(nodes, k - 1, rest).contains(rest[w]));
                }
            }
        }
    }
}

/// Within every directory the walk visits the shown entries, each of them,
/// in byte order of their names: the arrangement it follows is sorted and
/// holds every shown entry.
pub proof fn lemma_arrangement_sorted(nodes: Seq<Node>, show_hidden: bool)
    ensures
        sorted_by_name(nodes, arrangement(nodes, nodes.len() as int, show_hidden)),
        forall|x: int| 0 <= x < nodes.len() && is_shown(#[trigger] nodes[x].name@, show_hidden)
            ==> arrangement(nodes, nodes.len() as int, show_hidden).contains(x),
{
    lemma_arrangement_sorted_from(nodes, nodes.len() as int, show_hidden);
}

/// The shown entries of `nodes`, as indices sorted by name (stable).
fn arrange(nodes: &Vec<Node>, show_hidden: bool) -> (order: Vec<usize>)
    ensures
        order@.map_values(|i: usize| i as int) == arrangement(nodes@, nodes@.len() as int, show_hidden),
{
    let mut order: Vec<usize> = Vec::new();
    let mut k: usize = 0;
    while k < nodes.len()
        invariant
            0 <= k <= nodes.len(),
            order@.map_values(|i: usize| i as int) == arrangement(nodes@, k as int, show_hidden),
        decreases nodes.len() - k,
    {
        proof {
            lemma_arrangement_members(nodes@, k as int, show_hidden);
        }
        if is_shown_name(&nodes[k].name, show_hidden) {
            let ghost before = order@.map_values(|i: usize| i as int);
            assert forall|j: int| 0 <= j < order.len() implies #[trigger] order@[j] < k by {
                assert(before[j] == order@[j] as int);
            }
            let mut p: usize = 0;
            while p < order.len() && !name_less(&nodes[k].name, &nodes[order[p]].name)
                invariant
                    0 <= p <= order.len(),
                    k < nodes.len(),
                    before == order@.map_values(|i: usize| i as int),
                    before == arrangement(nodes@, k as int, show_hidden),
                    forall|j: int| 0 <= j < order.len() ==> 0 <= #[trigger] before[j] < k,
                    forall|j: int| 0 <= j < order.len() ==> #[trigger] order@[j] < k,
                    forall|j: int| 0 <= j < p ==> !name_lt(nodes@[k as int].name@, #[trigger] nodes@[before[j]].name@),
                decreases order.len() - p,
            {
                assert(before[p as int] == order@[p as int] as int);
                p = p + 1;
            }
            proof {
                if p < order.len() {
                    assert(before[p as int] == order@[p as int] as int);
                }
                lemma_insert_at(nodes@, k as int, before, p as int);
            }
            order.insert(p, k);
            assert(order@.map_values(|i: usize| i as int) =~= before.subrange(0, p as int).push(k as int) + before.subrange(p as int, before.len() as int));
        }
        k = k + 1;
    }
    order
}

fn entry_for(n: &Node, depth: usize) -> (e: TreeEntry)
    ensures
        e@ == entry_of(*n, depth as int),
{
    let mut name: Vec<u8> = Vec::new();
    let mut i: usize = 0;
    while i < n.name.len()
        invariant
            0 <= i <= n.name.len(),
            name@ == n.name@.subrange(0, i as int),
        decreases n.name.len() - i,
    {
        name.push(n.name[i]);
        i = i + 1;
        assert(name@ =~= n.name@.subrange(0, i as int));
    }
    assert(name@ =~= n.name@);
    TreeEntry { name, path: n.path.clone(), is_directory: n.is_dir, depth }
}

/// Appends the walk of `nodes`, at `depth`, to `out`.
fn walk_into(nodes: &Vec<Node>, depth: usize, show_hidden: bool, out: &mut Vec<TreeEntry>)
    requires
        depth + height(nodes@) <= usize::MAX,
    ensures
        entries_view(final(out)@) == entries_view(old(out)@) + walk(nodes@, depth as int, show_hidden),
    decreases nodes@,
{
    let order = arrange(nodes, show_hidden);
    let ghost ord = arrangement(nodes@, nodes@.len() as int, show_hidden);
    let ghost start = entries_view(out@);
    proof {
        lemma_arrangement_members(nodes@, nodes@.len() as int, show_hidden);
        assert(walk_order(nodes@, ord.subrange(0, ord.len() as int), depth as int, show_hidden) == walk(nodes@, depth as int, show_hidden)) by {
            assert(ord.subrange(0, ord.len() as int) =~= ord);
        }
    }
    let mut j: usize = 0;
    while j < order.len()
        invariant
            0 <= j <= order.len(),
            ord == order@.map_values(|i: usize| i as int),
            ord == arrangement(nodes@, nodes@.len() as int, show_hidden),
            forall|x: int| 0 <= x < ord.len() ==> 0 <= #[trigger] ord[x] < nodes@.len(),
            depth + height(nodes@) <= usize::MAX,
            start + walk(nodes@, depth as int, show_hidden) == entries_view(out@) + walk_order(nodes@, ord.subrange(j as int, ord.len() as int), depth as int, show_hidden),
        decreases order.len() - j,
    {
        let i = order[j];
        assert(ord[j as int] == i as int);
        let ghost tail = ord.subrange(j as int, ord.len() as int);
        assert(tail.drop_first() =~= ord.subrange(j + 1, ord.len() as int));
        let ghost before = entries_view(out@);
        let n = &nodes[i];
        out.push(entry_for(n, depth));
        assert(entries_view(out@) =~= before.push(entry_of(nodes@[i as int], depth as int)));
        if n.is_dir {
            proof {
                lemma_height_bounds_child(nodes@, 0, i as int);
                assert(decreases_to!(nodes@ => nodes@[i as int]));
            }
            walk_into(&n.children, depth + 1, show_hidden, out);
        }
        proof {
            let sub = if nodes@[i as int].is_dir {
                walk(nodes@[i as int].children@, depth + 1, show_hidden)
            } else {
                seq![]
            };
            assert(entries_view(out@) =~= before + seq![entry_of(nodes@[i as int], depth as int)] + sub);
            assert(walk_order(nodes@, tail, depth as int, show_hidden) == seq![entry_of(nodes@[i as int], depth as int)] + sub + walk_order(nodes@, ord.subrange(j + 1, ord.len() as int), depth as int, show_hidden));
            assert(start + walk(nodes@, depth as int, show_hidden) =~= entries_view(out@) + walk_order(nodes@, ord.subrange(j + 1, ord.len() as int), depth as int, show_hidden));
        }
        j = j + 1;
    }
    assert(ord.subrange(j as int, ord.len() as int) =~= seq![]);
    assert(entries_view(out@) =~= start + walk(nodes@, depth as int, show_hidden));
}

/// Flattens a directory listing into its pre-order walk from depth 0:
/// within each directory the shown entries in byte order of their names,
/// each directory followed at once by its own contents.
pub fn build_tree(root: &Vec<Node>, show_hidden: bool) -> (r: Vec<TreeEntry>)
    requires
        height(root@) <= usize::MAX,
    ensures
        entries_view(r@) == walk(root@, 0, show_hidden),
{
    let mut out: Vec<TreeEntry> = Vec::new();
    walk_into(root, 0, show_hidden, &mut out);
    assert(entries_view(out@) =~= walk(root@, 0, show_hidden));
    out
}

} // verus!
