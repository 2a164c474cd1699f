//! Materialising trees: a hierarchy built from flat paths, and its objects written bottom-up.
use crate::error::GitError;
use crate::hash::sha1_of;
use crate::mode::{BlobType, Mode};
use crate::object::{
    canonical, entry_views, sort_entries, tree_body, EntryView, GitObject, ObjectType, TreeEntry,
};
use vstd::prelude::*;

verus! {

broadcast use vstd::std_specs::vec::axiom_vec_index_decreases, vstd::std_specs::vec::axiom_vec_decreases_to_view;

/// What a node is: a blob of some kind with its hash, or a directory of named nodes.
#[derive(Debug)]
pub enum TreeNodeInfo {
    Blob(BlobType, crate::hash::Hash),
    Tree(Vec<TreeNode>),
}

/// A named node of the hierarchy. The children of a directory have distinct names.
#[derive(Debug)]
pub struct TreeNode {
    pub tree_info: TreeNodeInfo,
    pub name: String,
}

/// The mode under which a node stands in its parent.
pub open spec fn node_mode(n: TreeNode) -> Mode {
    match n.tree_info {
        TreeNodeInfo::Blob(bt, _) => Mode::Blob(bt),
        TreeNodeInfo::Tree(_) => Mode::Tree,
    }
}

/// The body of the tree object for a directory with the given children.
pub open spec fn dir_body(cs: Seq<TreeNode>) -> Seq<u8> {
    tree_body(sort_entries(child_entries(cs)))
}

/// The hash a node stands under: a blob's own, or the hash of the directory's tree object.
pub open spec fn node_hash(n: TreeNode) -> Seq<u8>
    decreases n, 1nat,
{
    match n.tree_info {
        TreeNodeInfo::Blob(_, h) => h@,
        TreeNodeInfo::Tree(cs) => sha1_of(
            canonical(ObjectType::Tree, tree_body(sort_entries(child_entries(cs@)))),
        ),
    }
}

/// The tree entries for a directory's children, in their order.
pub open spec fn child_entries(cs: Seq<TreeNode>) -> Seq<EntryView>
    decreases cs, 0nat,
{
    if cs.len() == 0 {
        Seq::<EntryView>::empty()
    } else {
        child_entries(cs.drop_last()).push(
            (node_mode(cs.last()), cs.last().name@, node_hash(cs.last())),
        )
    }
}

/// What a store holds: each object's kind and body under its hash.
pub type StoreView = Map<Seq<u8>, (ObjectType, Seq<u8>)>;

/// The objects of `s` under their hashes, later ones over earlier ones.
pub open spec fn store_map(s: Seq<(crate::hash::Hash, GitObject)>) -> StoreView
    decreases s.len(),
{
    if s.len() == 0 {
        Map::empty()
    } else {
        store_map(s.drop_last()).insert(s.last().0@, (s.last().1.type_, s.last().1.body@))
    }
}

proof fn lemma_store_map_contains(s: Seq<(crate::hash::Hash, GitObject)>, h: Seq<u8>)
    ensures
        store_map(s).contains_key(h) <==> exists|i: int| 0 <= i < s.len() && #[trigger] s[i].0@ == h,
    decreases s.len(),
{
    if s.len() > 0 {
        lemma_store_map_contains(s.drop_last(), h);
        if exists|i: int| 0 <= i < s.len() && #[trigger] s[i].0@ == h {
            let i = choose|i: int| 0 <= i < s.len() && #[trigger] s[i].0@ == h;
            if i < s.len() - 1 {
                assert(s.drop_last()[i].0@ == h);
            }
        }
        if exists|i: int| 0 <= i < s.len() - 1 && #[trigger] s.drop_last()[i].0@ == h {
            let i = choose|i: int| 0 <= i < s.len() - 1 && #[trigger] s.drop_last()[i].0@ == h;
            assert(s[i].0@ == h);
        }
    }
}

/// A set of objects keyed by hash, each held once: the objects a materialisation writes.
#[derive(Debug)]
pub struct ObjectStore {
    objects: Vec<(crate::hash::Hash, GitObject)>,
}

impl View for ObjectStore {
    type V = StoreView;

    closed spec fn view(&self) -> StoreView {
        store_map(self.objects@)
    }
}

impl ObjectStore {
    /// Each object stands under the hash of its canonical form.
    pub closed spec fn wf(&self) -> bool {
        forall|i: int|
            0 <= i < self.objects@.len() ==> #[trigger] self.objects@[i].0@ == sha1_of(
                canonical(self.objects@[i].1.type_, self.objects@[i].1.body@),
            )
    }

    /// An empty store.
    pub fn new() -> (r: ObjectStore)
        ensures
            r.wf(),
            r@ == Map::<Seq<u8>, (ObjectType, Seq<u8>)>::empty(),
    {
        ObjectStore { objects: Vec::new() }
    }

    /// Whether an object with hash `h` is held.
    pub fn contains(&self, h: &crate::hash::Hash) -> (r: bool)
        ensures
            r == self@.contains_key(h@),
    {
        proof {
            lemma_store_map_contains(self.objects@, h@);
        }
        let mut i: usize = 0;
        while i < self.objects.len()
            invariant
                0 <= i <= self.objects@.len(),
                forall|j: int| 0 <= j < i ==> #[trigger] self.objects@[j].0@ != h@,
            decreases self.objects@.len() - i,
        {
            if crate::bytes::bytes_eq(self.objects[i].0.value.as_slice(), h.value.as_slice()) {
                assert(self.objects@[i as int].0@ == h@);
                proof {
                    lemma_store_map_contains(self.objects@, h@);
                }
                return true;
            }
            i = i + 1;
        }
        proof {
            lemma_store_map_contains(self.objects@, h@);
        }
        false
    }

    /// Adds `obj` unless an object with its hash is held; says whether it was added.
    pub fn put(&mut self, obj: GitObject) -> (r: bool)
        requires
            old(self).wf(),
        ensures
            final(self).wf(),
            r == !old(self)@.contains_key(sha1_of(canonical(obj.type_, obj.body@))),
            final(self)@ == if r {
                old(self)@.insert(sha1_of(canonical(obj.type_, obj.body@)), (obj.type_, obj.body@))
            } else {
                old(self)@
            },
    {
        let h = obj.hash();
        if self.contains(&h) {
            return false;
        }
        let ghost ov = (obj.type_, obj.body@);
        let ghost hv = h@;
        assert(hv == sha1_of(canonical(ov.0, ov.1)));
        let pair = (h, obj);
        assert(pair.0@ == hv && pair.1.type_ == ov.0 && pair.1.body@ == ov.1);
        self.objects.push(pair);
        assert(self.objects@.drop_last() =~= old(self).objects@);
        assert forall|i: int| 0 <= i < self.objects@.len() implies #[trigger] self.objects@[i].0@
            == sha1_of(canonical(self.objects@[i].1.type_, self.objects@[i].1.body@)) by {
            if i < old(self).objects@.len() {
                assert(self.objects@[i] == old(self).objects@[i]);
                assert(old(self).objects@[i].0@ == sha1_of(
                    canonical(old(self).objects@[i].1.type_, old(self).objects@[i].1.body@),
                ));
            } else {
                assert(self.objects@[i] == pair);
            }
        }
        true
    }

    /// The objects held, each with its hash.
    pub fn objects(&self) -> (r: &Vec<(crate::hash::Hash, GitObject)>)
        ensures
            store_map(r@) == self@,
    {
        &self.objects
    }
}

/// The store after a node's tree objects are written, children before parents, each only
/// where its hash is not held yet.
pub open spec fn store_after(n: TreeNode, s: StoreView) -> StoreView
    decreases n, 1nat,
{
    match n.tree_info {
        TreeNodeInfo::Blob(_, _) => s,
        TreeNodeInfo::Tree(cs) => {
            let s2 = store_after_children(cs@, s);
            let h = sha1_of(
                canonical(ObjectType::Tree, tree_body(sort_entries(child_entries(cs@)))),
            );
            if s2.contains_key(h) {
                s2
            } else {
                s2.insert(h, (ObjectType::Tree, tree_body(sort_entries(child_entries(cs@)))))
            }
        },
    }
}

/// The store after each child in turn is written.
pub open spec fn store_after_children(cs: Seq<TreeNode>, s: StoreView) -> StoreView
    decreases cs, 0nat,
{
    if cs.len() == 0 {
        s
    } else {
        store_after(cs.last(), store_after_children(cs.drop_last(), s))
    }
}

impl TreeNode {
    /// Writes into `store` the tree object of this node and of every directory under it,
    /// children first, skipping any already held; returns the node's hash.
    pub fn write_recursive(&self, store: &mut ObjectStore) -> (r: crate::hash::Hash)
        requires
            old(store).wf(),
        ensures
            final(store).wf(),
            r@ == node_hash(*self),
            final(store)@ == store_after(*self, old(store)@),
        decreases self,
    {
        match &self.tree_info {
            TreeNodeInfo::Blob(_, h) => *h,
            TreeNodeInfo::Tree(cs) => {
                let mut entries: Vec<TreeEntry> = Vec::new();
                let mut i: usize = 0;
                while i < cs.len()
                    invariant
                        self.tree_info == TreeNodeInfo::Tree(*cs),
                        0 <= i <= cs@.len(),
                        store.wf(),
                        entry_views(entries@) == child_entries(cs@.subrange(0, i as int)),
                        store@ == store_after_children(cs@.subrange(0, i as int), old(store)@),
                    decreases cs@.len() - i,
                {
                    let c = &cs[i];
                    proof {
                        let ghost info = self.tree_info;
                        assert(decreases_to!(*self => info));
                        assert(decreases_to!(info => info->Tree_0));
                        assert(decreases_to!(info->Tree_0 => info->Tree_0@));
                        assert(decreases_to!(info->Tree_0@ => info->Tree_0@[i as int]));
                        assert(decreases_to!(*self => cs@[i as int]));
                    }
                    let h = c.write_recursive(store);
                    let file_type = match &c.tree_info {
                        TreeNodeInfo::Blob(bt, _) => Mode::Blob(*bt),
                        TreeNodeInfo::Tree(_) => Mode::Tree,
                    };
                    let ghost before = entry_views(entries@);
                    entries.push(TreeEntry { file_type, name: c.name.clone(), hash: h });
                    i = i + 1;
                    proof {
                        let p = cs@.subrange(0, i as int);
                        assert(p.drop_last() =~= cs@.subrange(0, i as int - 1));
                        assert(entry_views(entries@) =~= before.push(entries@.last()@));
                    }
                }
                assert(cs@.subrange(0, cs@.len() as int) =~= cs@);
                let obj = GitObject::new_tree(entries.as_slice());
                let h = obj.hash();
                store.put(obj);
                h
            },
        }
    }
}

/// Every directory at or under `n` has its tree object's hash held in `s`.
pub open spec fn all_stored(n: TreeNode, s: StoreView) -> bool
    decreases n, 1nat,
{
    match n.tree_info {
        TreeNodeInfo::Blob(_, _) => true,
        TreeNodeInfo::Tree(cs) => s.contains_key(
            sha1_of(canonical(ObjectType::Tree, tree_body(sort_entries(child_entries(cs@))))),
        ) && children_stored(cs@, s),
    }
}

/// Every directory at or under each of `cs` has its tree object's hash held in `s`.
pub open spec fn children_stored(cs: Seq<TreeNode>, s: StoreView) -> bool
    decreases cs, 0nat,
{
    cs.len() == 0 || (children_stored(cs.drop_last(), s) && all_stored(cs.last(), s))
}

/// `big` holds everything `small` holds, unchanged.
pub open spec fn extends(big: StoreView, small: StoreView) -> bool {
    forall|k: Seq<u8>| #[trigger] small.contains_key(k) ==> big.contains_key(k) && big[k] == small[k]
}

proof fn lemma_extends_trans(a: StoreView, b: StoreView, c: StoreView)
    requires
        extends(a, b),
        extends(b, c),
    ensures
        extends(a, c),
{
}

/// Writing only adds objects.
pub proof fn lemma_store_after_extends(n: TreeNode, s: StoreView)
    ensures
        extends(store_after(n, s), s),
    decreases n, 1nat,
{
    if let TreeNodeInfo::Tree(cs) = n.tree_info {
        lemma_children_after_extends(cs@, s);
    }
}

proof fn lemma_children_after_extends(cs: Seq<TreeNode>, s: StoreView)
    ensures
        extends(store_after_children(cs, s), s),
    decreases cs, 0nat,
{
    if cs.len() > 0 {
        lemma_children_after_extends(cs.drop_last(), s);
        let s1 = store_after_children(cs.drop_last(), s);
        lemma_store_after_extends(cs.last(), s1);
        lemma_extends_trans(store_after(cs.last(), s1), s1, s);
    }
}

/// What is held stays held as the store grows.
proof fn lemma_stored_grows(n: TreeNode, s: StoreView, big: StoreView)
    requires
        all_stored(n, s),
        extends(big, s),
    ensures
        all_stored(n, big),
    decreases n, 1nat,
{
    if let TreeNodeInfo::Tree(cs) = n.tree_info {
        lemma_children_stored_grows(cs@, s, big);
    }
}

proof fn lemma_children_stored_grows(cs: Seq<TreeNode>, s: StoreView, big: StoreView)
    requires
        children_stored(cs, s),
        extends(big, s),
    ensures
        children_stored(cs, big),
    decreases cs, 0nat,
{
    if cs.len() > 0 {
        lemma_children_stored_grows(cs.drop_last(), s, big);
        lemma_stored_grows(cs.last(), s, big);
    }
}

/// After a node is written, the tree object of every directory at or under it is held: each
/// tree entry of mode `Tree` names an object of the store.
pub proof fn lemma_write_stores_all(n: TreeNode, s: StoreView)
    ensures
        all_stored(n, store_after(n, s)),
    decreases n, 1nat,
{
    if let TreeNodeInfo::Tree(cs) = n.tree_info {
        lemma_children_write_stores_all(cs@, s);
        let s2 = store_after_children(cs@, s);
        let h = sha1_of(canonical(ObjectType::Tree, tree_body(sort_entries(child_entries(cs@)))));
        if !s2.contains_key(h) {
            let s3 = s2.insert(h, (ObjectType::Tree, tree_body(sort_entries(child_entries(cs@)))));
            assert(extends(s3, s2));
            lemma_children_stored_grows(cs@, s2, s3);
        }
    }
}

proof fn lemma_children_write_stores_all(cs: Seq<TreeNode>, s: StoreView)
    ensures
        children_stored(cs, store_after_children(cs, s)),
    decreases cs, 0nat,
{
    if cs.len() > 0 {
        lemma_children_write_stores_all(cs.drop_last(), s);
        let s1 = store_after_children(cs.drop_last(), s);
        lemma_write_stores_all(cs.last(), s1);
        lemma_store_after_extends(cs.last(), s1);
        lemma_children_stored_grows(cs.drop_last(), s1, store_after(cs.last(), s1));
    }
}

/// Writing a node whose directories are all held already adds nothing.
pub proof fn lemma_write_when_stored(n: TreeNode, s: StoreView)
    requires
        all_stored(n, s),
    ensures
        store_after(n, s) == s,
    decreases n, 1nat,
{
    if let TreeNodeInfo::Tree(cs) = n.tree_info {
        lemma_children_write_when_stored(cs@, s);
    }
}

proof fn lemma_children_write_when_stored(cs: Seq<TreeNode>, s: StoreView)
    requires
        children_stored(cs, s),
    ensures
        store_after_children(cs, s) == s,
    decreases cs, 0nat,
{
    if cs.len() > 0 {
        lemma_children_write_when_stored(cs.drop_last(), s);
        lemma_write_when_stored(cs.last(), s);
    }
}

/// Writing the same hierarchy twice: the second time adds no object. (Its hash, `node_hash`,
/// depends on the hierarchy alone.)
pub proof fn lemma_write_twice(n: TreeNode, s: StoreView)
    ensures
        store_after(n, store_after(n, s)) == store_after(n, s),
{
    lemma_write_stores_all(n, s);
    lemma_write_when_stored(n, store_after(n, s));
}

/// The parts of `b` between its `/` separators.
pub open spec fn path_components(b: Seq<u8>) -> Seq<Seq<u8>>
    decreases b.len(),
{
    let k = crate::bytes::index_of(b, 47) as int;
    if k < b.len() {
        seq![b.subrange(0, k)] + path_components(b.subrange(k + 1, b.len() as int))
    } else {
        seq![b]
    }
}

/// A component that can name an entry: UTF-8, not empty, not `.` and not `..`.
pub open spec fn valid_component(c: Seq<u8>) -> bool {
    c.len() > 0 && c != seq![46u8] && c != seq![46u8, 46] && vstd::utf8::valid_utf8(c)
}

/// A relative path whose every component can name an entry.
pub open spec fn valid_path(b: Seq<u8>) -> bool {
    forall|i: int|
        0 <= i < path_components(b).len() ==> valid_component(#[trigger] path_components(b)[i])
}

/// The position of the first of `cs` named `name`.
pub open spec fn find_child(cs: Seq<TreeNode>, name: Seq<char>) -> Option<int>
    decreases cs.len(),
{
    if cs.len() == 0 {
        None
    } else if cs[0].name@ == name {
        Some(0)
    } else {
        match find_child(cs.drop_first(), name) {
            Some(i) => Some(i + 1),
            None => None,
        }
    }
}

/// The blob that `path` leads to from `n`, if it leads to one.
pub open spec fn lookup(n: TreeNode, path: Seq<Seq<char>>) -> Option<(BlobType, Seq<u8>)>
    decreases path.len(),
{
    if path.len() == 0 {
        match n.tree_info {
            TreeNodeInfo::Blob(bt, h) => Some((bt, h@)),
            TreeNodeInfo::Tree(_) => None,
        }
    } else {
        match n.tree_info {
            TreeNodeInfo::Tree(cs) => match find_child(cs@, path[0]) {
                Some(i) => lookup(cs@[i], path.drop_first()),
                None => None,
            },
            TreeNodeInfo::Blob(_, _) => None,
        }
    }
}

proof fn lemma_find_child(cs: Seq<TreeNode>, name: Seq<char>, k: int)
    requires
        0 <= k <= cs.len(),
        k < cs.len() ==> cs[k].name@ == name,
        forall|j: int| 0 <= j < k ==> #[trigger] cs[j].name@ != name,
    ensures
        find_child(cs, name) == if k < cs.len() { Some(k) } else { None::<int> },
    decreases cs.len(),
{
    if cs.len() > 0 && k > 0 {
        assert forall|j: int| 0 <= j < k - 1 implies #[trigger] cs.drop_first()[j].name@ != name by {
            assert(cs.drop_first()[j] == cs[j + 1]);
        }
        lemma_find_child(cs.drop_first(), name, k - 1);
    }
}

/// The first of `cs` named like `name`.
fn position_of(cs: &Vec<TreeNode>, name: &String) -> (r: Option<usize>)
    ensures
        match r {
            Some(i) => find_child(cs@, name@) == Some(i as int) && i < cs@.len() && cs@[i as int].name@
                == name@ && forall|j: int| 0 <= j < i ==> #[trigger] cs@[j].name@ != name@,
            None => find_child(cs@, name@) is None && forall|j: int|
                0 <= j < cs@.len() ==> #[trigger] cs@[j].name@ != name@,
        },
{
    let mut i: usize = 0;
    while i < cs.len()
        invariant
            0 <= i <= cs@.len(),
            forall|j: int| 0 <= j < i ==> #[trigger] cs@[j].name@ != name@,
        decreases cs@.len() - i,
    {
        if crate::bytes::bytes_eq(cs[i].name.as_str().as_bytes(), name.as_str().as_bytes()) {
            proof {
                vstd::utf8::encode_utf8_decode_utf8(cs@[i as int].name@);
                vstd::utf8::encode_utf8_decode_utf8(name@);
                lemma_find_child(cs@, name@, i as int);
            }
            return Some(i);
        }
        proof {
            if cs@[i as int].name@ == name@ {
                assert(vstd::utf8::encode_utf8(cs@[i as int].name@) == vstd::utf8::encode_utf8(name@));
            }
        }
        i = i + 1;
    }
    proof {
        lemma_find_child(cs@, name@, cs@.len() as int);
    }
    None
}

/// Whether no blob can be placed at the end of `path` from `n`: a blob stands at `n` or on
/// the way, or a directory stands at the path's end. A blob at the end is replaced.
pub open spec fn blocked(n: TreeNode, path: Seq<Seq<char>>) -> bool
    decreases path.len(),
{
    match n.tree_info {
        TreeNodeInfo::Blob(_, _) => true,
        TreeNodeInfo::Tree(cs) => match find_child(cs@, path[0]) {
            Some(i) => if path.len() <= 1 {
                cs@[i].tree_info is Tree
            } else {
                blocked(cs@[i], path.drop_first())
            },
            None => false,
        },
    }
}

proof fn lemma_find_child_names(a: Seq<TreeNode>, b: Seq<TreeNode>, name: Seq<char>)
    requires
        a.len() == b.len(),
        forall|j: int| 0 <= j < a.len() ==> #[trigger] a[j].name@ == b[j].name@,
    ensures
        find_child(a, name) == find_child(b, name),
    decreases a.len(),
{
    if a.len() > 0 {
        assert forall|j: int| 0 <= j < a.len() - 1 implies #[trigger] a.drop_first()[j].name@
            == b.drop_first()[j].name@ by {
            assert(a.drop_first()[j] == a[j + 1] && b.drop_first()[j] == b[j + 1]);
        }
        lemma_find_child_names(a.drop_first(), b.drop_first(), name);
        assert(a[0].name@ == b[0].name@);
    }
}

proof fn lemma_find_child_push(a: Seq<TreeNode>, x: TreeNode, name: Seq<char>)
    ensures
        find_child(a, name) matches Some(i) ==> find_child(a.push(x), name) == Some(i),
        find_child(a, name) is None && x.name@ == name ==> find_child(a.push(x), name) == Some(
            a.len() as int,
        ),
        find_child(a, name) is None && x.name@ != name ==> find_child(a.push(x), name) is None,
    decreases a.len(),
{
    let ax = a.push(x);
    if a.len() > 0 {
        lemma_find_child_push(a.drop_first(), x, name);
        assert(ax.drop_first() =~= a.drop_first().push(x));
        assert(ax[0] == a[0]);
        if a[0].name@ != name {
            assert(find_child(ax, name) == match find_child(ax.drop_first(), name) {
                Some(i) => Some(i + 1),
                None => None::<int>,
            });
            assert(find_child(a, name) == match find_child(a.drop_first(), name) {
                Some(i) => Some(i + 1),
                None => None::<int>,
            });
        }
    } else {
        assert(ax.drop_first() =~= Seq::<TreeNode>::empty());
        assert(ax[0] == x);
        assert(find_child(ax.drop_first(), name) is None);
    }
}

proof fn lemma_find_child_found(a: Seq<TreeNode>, name: Seq<char>)
    ensures
        find_child(a, name) matches Some(i) ==> 0 <= i < a.len() && a[i].name@ == name,
    decreases a.len(),
{
    if a.len() > 0 {
        lemma_find_child_found(a.drop_first(), name);
    }
}

/// Nothing but blobs is found at an empty directory or below a blob.
proof fn lemma_lookup_empty(n: TreeNode, q: Seq<Seq<char>>)
    requires
        q.len() > 0,
        n.tree_info matches TreeNodeInfo::Tree(cs) ==> cs@.len() == 0,
    ensures
        lookup(n, q) is None,
{
}

/// The names along a `/`-separated path.
pub open spec fn path_names(path: Seq<char>) -> Seq<Seq<char>> {
    path_components(vstd::utf8::encode_utf8(path)).map_values(|c: Seq<u8>| vstd::utf8::decode_utf8(c))
}

/// In every directory at or below `n`, no two children share a name.
pub open spec fn names_distinct(n: TreeNode) -> bool
    decreases n,
{
    match n.tree_info {
        TreeNodeInfo::Blob(_, _) => true,
        TreeNodeInfo::Tree(cs) => (forall|i: int, j: int|
            0 <= i < j < cs@.len() ==> (#[trigger] cs@[i]).name@ != (#[trigger] cs@[j]).name@)
            && (forall|i: int| 0 <= i < cs@.len() ==> names_distinct(#[trigger] cs@[i])),
    }
}

/// `a` is a prefix of `b`.
pub open spec fn is_prefix(a: Seq<Seq<char>>, b: Seq<Seq<char>>) -> bool {
    a.len() <= b.len() && b.subrange(0, a.len() as int) == a
}

/// Whether a directory stands at the end of `path` from `n`.
pub open spec fn dir_at(n: TreeNode, path: Seq<Seq<char>>) -> bool
    decreases path.len(),
{
    if path.len() == 0 {
        n.tree_info is Tree
    } else {
        match n.tree_info {
            TreeNodeInfo::Tree(cs) => match find_child(cs@, path[0]) {
                Some(i) => dir_at(cs@[i], path.drop_first()),
                None => false,
            },
            TreeNodeInfo::Blob(_, _) => false,
        }
    }
}

/// The names that `comps` hold.
pub open spec fn names(comps: Seq<String>) -> Seq<Seq<char>> {
    comps.map_values(|c: String| c@)
}

impl TreeNode {
    /// An empty directory with an empty name: the root.
    pub fn new_root() -> (r: TreeNode)
        ensures
            r.tree_info matches TreeNodeInfo::Tree(cs) && cs@.len() == 0,
            r.name@.len() == 0,
            names_distinct(r),
    {
        TreeNode { tree_info: TreeNodeInfo::Tree(Vec::new()), name: String::new() }
    }

    /// Whether no blob can be placed at the path `comps[k..]` below this node.
    fn is_blocked(&self, comps: &Vec<String>, k: usize) -> (r: bool)
        requires
            k < comps@.len(),
        ensures
            r == blocked(*self, names(comps@).subrange(k as int, comps@.len() as int)),
        decreases comps@.len() - k,
    {
        let ghost path = names(comps@).subrange(k as int, comps@.len() as int);
        assert(path[0] == comps@[k as int]@);
        match &self.tree_info {
            TreeNodeInfo::Blob(_, _) => true,
            TreeNodeInfo::Tree(cs) => {
                match position_of(cs, &comps[k]) {
                    None => false,
                    Some(i) => {
                        if k == comps.len() - 1 {
                            proof {
                                lemma_find_child_found(cs@, comps@[k as int]@);
                            }
                            match &cs[i].tree_info {
                                TreeNodeInfo::Tree(_) => true,
                                TreeNodeInfo::Blob(_, _) => false,
                            }
                        } else {
                            proof {
                                assert(decreases_to!(*self => self.tree_info));
                                assert(decreases_to!(self.tree_info => self.tree_info->Tree_0));
                                assert(path.drop_first() =~= names(comps@).subrange(
                                    k + 1,
                                    comps@.len() as int,
                                ));
                            }
                            cs[i].is_blocked(comps, k + 1)
                        }
                    },
                }
            },
        }
    }

    /// Places a blob at the path `comps[k..]` below this directory, where nothing blocks it,
    /// making the directories on the way where they are missing and replacing a blob at the end. What other paths lead to is
    /// left as it was, and the only new directories are on the way.
    #[verifier::rlimit(100)]
    #[verifier::spinoff_prover]
    fn push_vec_path(&mut self, comps: &Vec<String>, k: usize, blob_type: BlobType, hash: crate::hash::Hash)
        requires
            k < comps@.len(),
            !blocked(*old(self), names(comps@).subrange(k as int, comps@.len() as int)),
        ensures
            final(self).name == old(self).name,
            final(self).tree_info is Tree,
            lookup(*final(self), names(comps@).subrange(k as int, comps@.len() as int)) == Some(
                (blob_type, hash@),
            ),
            forall|q: Seq<Seq<char>>|
                q != names(comps@).subrange(k as int, comps@.len() as int) ==> #[trigger] lookup(
                    *final(self),
                    q,
                ) == lookup(*old(self), q),
            forall|q: Seq<Seq<char>>|
                #[trigger] dir_at(*final(self), q) ==> dir_at(*old(self), q) || (q.len() < comps@.len()
                    - k && is_prefix(q, names(comps@).subrange(k as int, comps@.len() as int))),
            names_distinct(*old(self)) ==> names_distinct(*final(self)),
        decreases comps@.len() - k,
    {
        let name = &comps[k];
        let ghost path = names(comps@).subrange(k as int, comps@.len() as int);
        let ghost old_self = *self;
        assert(path[0] == name@);
        match &mut self.tree_info {
            TreeNodeInfo::Blob(_, _) => {},
            TreeNodeInfo::Tree(cs) => {
                let ghost old_cs = cs@;
                let found = position_of(cs, name);
                if k == comps.len() - 1 {
                    let leaf = TreeNode {
                        tree_info: TreeNodeInfo::Blob(blob_type, hash),
                        name: name.clone(),
                    };
                    assert(lookup(leaf, Seq::<Seq<char>>::empty()) == Some((blob_type, hash@)));
                    match found {
                        Some(i) => {
                            proof {
                                lemma_find_child_found(old_cs, name@);
                            }
                            cs.set(i, leaf);
                            proof {
                                if names_distinct(old_self) {
                                    let ncs = cs@;
                                    assert forall|x: int, y: int| 0 <= x < y < ncs.len() implies (#[trigger] ncs[x]).name@
                                        != (#[trigger] ncs[y]).name@ by {
                                        assert(old_cs[x].name@ != old_cs[y].name@);
                                    }
                                    assert forall|x: int| 0 <= x < ncs.len() implies names_distinct(#[trigger] ncs[x]) by {
                                        if x != i {
                                            assert(ncs[x] == old_cs[x]);
                                        }
                                    }
                                }
                                let new_self = TreeNode { tree_info: TreeNodeInfo::Tree(*cs), name: old_self.name };
                                assert(cs@ == old_cs.update(i as int, leaf));
                                assert(old_cs[i as int].tree_info is Blob);
                                lemma_find_child_names(cs@, old_cs, name@);
                                assert(path.drop_first() =~= Seq::<Seq<char>>::empty());
                                assert(lookup(new_self, path) == lookup(leaf, path.drop_first()));
                                assert forall|q: Seq<Seq<char>>| q != path implies #[trigger] lookup(new_self, q)
                                    == lookup(old_self, q) by {
                                    if q.len() > 0 {
                                        lemma_find_child_names(cs@, old_cs, q[0]);
                                        lemma_find_child_found(old_cs, q[0]);
                                        if q[0] == name@ {
                                            assert(q.drop_first().len() > 0) by {
                                                if q.drop_first().len() == 0 {
                                                    assert(q =~= path);
                                                }
                                            }
                                            assert(lookup(leaf, q.drop_first()) is None);
                                            assert(lookup(old_cs[i as int], q.drop_first()) is None);
                                        } else if let Some(j) = find_child(old_cs, q[0]) {
                                            assert(cs@[j] == old_cs[j]);
                                        }
                                    }
                                }
                                assert forall|q: Seq<Seq<char>>| #[trigger] dir_at(new_self, q) implies dir_at(
                                    old_self,
                                    q,
                                ) by {
                                    if q.len() > 0 {
                                        lemma_find_child_names(cs@, old_cs, q[0]);
                                        lemma_find_child_found(old_cs, q[0]);
                                        if q[0] == name@ {
                                            assert(!dir_at(leaf, q.drop_first()));
                                        } else if let Some(j) = find_child(old_cs, q[0]) {
                                            assert(cs@[j] == old_cs[j]);
                                        }
                                    }
                                }
                            }
                        },
                        None => {
                            cs.push(leaf);
                            proof {
                                if names_distinct(old_self) {
                                    let ncs = cs@;
                                    assert forall|x: int, y: int| 0 <= x < y < ncs.len() implies (#[trigger] ncs[x]).name@
                                        != (#[trigger] ncs[y]).name@ by {
                                        if y < old_cs.len() {
                                            assert(old_cs[x].name@ != old_cs[y].name@);
                                        } else {
                                            assert(ncs[x] == old_cs[x]);
                                        }
                                    }
                                    assert forall|x: int| 0 <= x < ncs.len() implies names_distinct(#[trigger] ncs[x]) by {
                                        if x < old_cs.len() {
                                            assert(ncs[x] == old_cs[x]);
                                        }
                                    }
                                }
                                assert(cs@ == old_cs.push(leaf));
                                lemma_find_child_push(old_cs, leaf, name@);
                                assert(path.drop_first() =~= Seq::<Seq<char>>::empty());
                                let new_self = TreeNode { tree_info: TreeNodeInfo::Tree(*cs), name: old_self.name };
                                assert forall|q: Seq<Seq<char>>| q != path implies #[trigger] lookup(new_self, q)
                                    == lookup(old_self, q) by {
                                    if q.len() > 0 {
                                        lemma_find_child_push(old_cs, leaf, q[0]);
                                        if q[0] == name@ {
                                            assert(q.drop_first().len() > 0) by {
                                                if q.drop_first().len() == 0 {
                                                    assert(q =~= path);
                                                }
                                            }
                                            assert(find_child(cs@, q[0]) == Some(old_cs.len() as int));
                                            assert(cs@[old_cs.len() as int] == leaf);
                                            assert(lookup(leaf, q.drop_first()) is None);
                                        } else {
                                            lemma_find_child_found(old_cs, q[0]);
                                            if let Some(j) = find_child(old_cs, q[0]) {
                                                assert(cs@[j] == old_cs[j]);
                                            }
                                        }
                                    }
                                }
                                assert forall|q: Seq<Seq<char>>| #[trigger] dir_at(new_self, q) implies dir_at(
                                    old_self,
                                    q,
                                ) by {
                                    if q.len() > 0 {
                                        lemma_find_child_push(old_cs, leaf, q[0]);
                                        if q[0] == name@ {
                                            assert(find_child(cs@, q[0]) == Some(old_cs.len() as int));
                                            assert(cs@[old_cs.len() as int] == leaf);
                                            assert(!dir_at(leaf, q.drop_first()));
                                        } else {
                                            lemma_find_child_found(old_cs, q[0]);
                                            if let Some(j) = find_child(old_cs, q[0]) {
                                                assert(cs@[j] == old_cs[j]);
                                            }
                                        }
                                    }
                                }
                            }
                        },
                    }
                } else {
                    let i = match found {
                        Some(i) => i,
                        None => {
                            let ghost before = cs@;
                            let dir = TreeNode { tree_info: TreeNodeInfo::Tree(Vec::new()), name: name.clone() };
                            cs.push(dir);
                            proof {
                                lemma_find_child_push(before, dir, name@);
                                assert(cs@ == before.push(dir));
                            }
                            cs.len() - 1
                        },
                    };
                    let ghost mid = cs@;
                    proof {
                        lemma_find_child_found(mid, name@);
                        assert(path.drop_first() =~= names(comps@).subrange(k + 1, comps@.len() as int));
                    }
                    let mut child = cs.remove(i);
                    let ghost old_child = child;
                    proof {
                        assert(old_child == mid[i as int]);
                        if found is None {
                            assert(!blocked(old_child, path.drop_first()));
                        }
                    }
                    child.push_vec_path(comps, k + 1, blob_type, hash);
                    let ghost new_child = child;
                    cs.insert(i, child);
                    proof {
                        if names_distinct(old_self) {
                            assert(cs@ =~= mid.update(i as int, new_child));
                            assert forall|x: int, y: int| 0 <= x < y < mid.len() implies (#[trigger] mid[x]).name@
                                != (#[trigger] mid[y]).name@ && names_distinct(mid[x]) && names_distinct(mid[y]) by {
                                if found is None {
                                    if y < old_cs.len() {
                                        assert(mid[x] == old_cs[x] && mid[y] == old_cs[y]);
                                        assert(old_cs[x].name@ != old_cs[y].name@);
                                    } else {
                                        assert(mid[x] == old_cs[x]);
                                        assert(names_distinct(mid[y]));
                                    }
                                } else {
                                    assert(mid == old_cs);
                                }
                            }
                            let ncs = cs@;
                            assert forall|x: int, y: int| 0 <= x < y < ncs.len() implies (#[trigger] ncs[x]).name@
                                != (#[trigger] ncs[y]).name@ by {
                                assert(mid[x].name@ != mid[y].name@);
                            }
                            assert(names_distinct(old_child)) by {
                                if found is None {
                                    assert(old_child.tree_info->Tree_0@.len() == 0);
                                } else {
                                    assert(mid == old_cs);
                                }
                            }
                            assert forall|x: int| 0 <= x < ncs.len() implies names_distinct(#[trigger] ncs[x]) by {
                                if x != i {
                                    assert(ncs[x] == mid[x]);
                                    if mid.len() > 1 {
                                        if x < mid.len() - 1 {
                                            assert(names_distinct(mid[x]));
                                        }
                                    }
                                    if found is None {
                                        assert(mid[x] == old_cs[x]);
                                    } else {
                                        assert(mid == old_cs);
                                    }
                                }
                            }
                        }
                        let new_self = TreeNode { tree_info: TreeNodeInfo::Tree(*cs), name: old_self.name };
                        assert(cs@ =~= mid.update(i as int, new_child));
                        lemma_find_child_names(cs@, mid, name@);
                        assert(find_child(cs@, path[0]) == Some(i as int));
                        assert(lookup(new_child, path.drop_first()) == Some((blob_type, hash@)));
                        if found is None {
                            lemma_find_child_push(old_cs, mid[i as int], name@);
                        }
                        assert forall|q: Seq<Seq<char>>| q != path implies #[trigger] lookup(new_self, q)
                            == lookup(old_self, q) by {
                            if q.len() > 0 {
                                lemma_find_child_names(cs@, mid, q[0]);
                                if q[0] == name@ {
                                    assert(q.drop_first() != path.drop_first()) by {
                                        if q.drop_first() == path.drop_first() {
                                            assert forall|j: int| 0 <= j < q.len() implies q[j] == path[j] by {
                                                if j > 0 {
                                                    assert(q[j] == q.drop_first()[j - 1]);
                                                    assert(path[j] == path.drop_first()[j - 1]);
                                                }
                                            }
                                            assert(q =~= path);
                                        }
                                    }
                                    assert(lookup(new_child, q.drop_first()) == lookup(
                                        old_child,
                                        q.drop_first(),
                                    ));
                                    if found is None {
                                        lemma_find_child_push(old_cs, mid[i as int], q[0]);
                                        if q.drop_first().len() > 0 {
                                            lemma_lookup_empty(old_child, q.drop_first());
                                        }
                                    }
                                } else {
                                    lemma_find_child_found(mid, q[0]);
                                    if found is None {
                                        lemma_find_child_push(old_cs, mid[i as int], q[0]);
                                    }
                                    if let Some(j) = find_child(mid, q[0]) {
                                        assert(cs@[j] == mid[j]);
                                        if found is None {
                                            assert(mid[j] == old_cs[j]);
                                        }
                                    }
                                }
                            }
                        }
                        assert forall|q: Seq<Seq<char>>| #[trigger] dir_at(new_self, q) implies dir_at(
                            old_self,
                            q,
                        ) || (q.len() < comps@.len() - k && is_prefix(q, path)) by {
                            if q.len() > 0 {
                                lemma_find_child_names(cs@, mid, q[0]);
                                if q[0] == name@ {
                                    let q1 = q.drop_first();
                                    let p1 = path.drop_first();
                                    assert(dir_at(new_child, q1));
                                    if q1.len() < p1.len() && is_prefix(q1, p1) {
                                        assert(q.len() < comps@.len() - k);
                                        assert forall|j: int| 0 <= j < q.len() implies #[trigger] path.subrange(
                                            0,
                                            q.len() as int,
                                        )[j] == q[j] by {
                                            if j > 0 {
                                                assert(q[j] == q1[j - 1]);
                                                assert(p1.subrange(0, q1.len() as int)[j - 1] == q1[j - 1]);
                                            }
                                        }
                                        assert(path.subrange(0, q.len() as int) =~= q);
                                    } else {
                                        assert(dir_at(old_child, q1));
                                        if found is None {
                                            lemma_find_child_push(old_cs, mid[i as int], q[0]);
                                            if q1.len() > 0 {
                                                assert(!dir_at(old_child, q1));
                                            } else {
                                                assert(q =~= seq![name@]);
                                                assert(path.subrange(0, 1) =~= q);
                                            }
                                        }
                                    }
                                } else {
                                    lemma_find_child_found(mid, q[0]);
                                    if found is None {
                                        lemma_find_child_push(old_cs, mid[i as int], q[0]);
                                    }
                                    if let Some(j) = find_child(mid, q[0]) {
                                        assert(cs@[j] == mid[j]);
                                        if found is None {
                                            assert(mid[j] == old_cs[j]);
                                        }
                                    }
                                }
                            }
                        }
                    }
                }
            },
        }
    }
}

/// The components of a valid relative path, as names.
#[verifier::rlimit(80)]
#[verifier::spinoff_prover]
fn split_path(path: &[u8]) -> (r: Option<Vec<String>>)
    ensures
        match r {
            Some(v) => valid_path(path@) && v@.len() == path_components(path@).len() && forall|i: int|
                0 <= i < v@.len() ==> #[trigger] v@[i]@ == vstd::utf8::decode_utf8(
                    path_components(path@)[i],
                ),
            None => !valid_path(path@),
        },
{
    let n = path.len();
    let mut out: Vec<String> = Vec::new();
    let mut pos: usize = 0;
    let ghost done: Seq<Seq<u8>> = Seq::empty();
    assert(path@.subrange(0, n as int) =~= path@);
    assert(done + path_components(path@) =~= path_components(path@));
    loop
        invariant
            n == path@.len(),
            0 <= pos <= n,
            path_components(path@) == done + path_components(path@.subrange(pos as int, n as int)),
            forall|i: int| 0 <= i < done.len() ==> valid_component(#[trigger] done[i]),
            out@.len() == done.len(),
            forall|i: int| 0 <= i < out@.len() ==> #[trigger] out@[i]@ == vstd::utf8::decode_utf8(done[i]),
        decreases n - pos,
    {
        let ghost rest = path@.subrange(pos as int, n as int);
        proof {
            crate::bytes::lemma_index_of_bounds(rest, 47);
        }
        let (end, last) = match crate::bytes::find_byte(path, pos, 47) {
            Some(k) => (k, false),
            None => (n, true),
        };
        proof {
            crate::bytes::lemma_index_of(rest, 47, end - pos);
        }
        let piece = &path[pos..end];
        assert(piece@ =~= rest.subrange(0, end - pos));
        let dot: [u8; 1] = [46];
        let dotdot: [u8; 2] = [46, 46];
        if piece.len() == 0 || crate::bytes::bytes_eq(piece, dot.as_slice()) || crate::bytes::bytes_eq(
            piece,
            dotdot.as_slice(),
        ) {
            proof {
                assert(dot@ =~= seq![46u8]);
                assert(dotdot@ =~= seq![46u8, 46]);
                assert(path_components(path@)[done.len() as int] == piece@);
            }
            return None;
        }
        let name = match crate::bytes::utf8_text(piece) {
            Some(t) => t,
            None => {
                assert(path_components(path@)[done.len() as int] == piece@);
                return None;
            },
        };
        proof {
            assert(dot@ =~= seq![46u8]);
            assert(dotdot@ =~= seq![46u8, 46]);
        }
        out.push(name);
        if last {
            proof {
                assert(path_components(rest) == seq![rest]);
                assert(rest =~= piece@);
                done = done.push(piece@);
                assert(path_components(path@) =~= done);
            }
            return Some(out);
        }
        proof {
            let next = path@.subrange(end + 1, n as int);
            assert(rest.subrange(end - pos + 1, rest.len() as int) =~= next);
            assert(path_components(rest) == seq![piece@] + path_components(next));
            assert(done + path_components(rest) =~= done.push(piece@) + path_components(next));
            done = done.push(piece@);
        }
        pos = end + 1;
    }
}

impl TreeNode {
    /// Places a blob at a relative `/`-separated path below this directory, making the
    /// directories on the way where they are missing and replacing a blob at the path's end.
    /// Fails, changing nothing, on an empty path, an empty, `.` or `..` component, where a
    /// blob stands on the way, and where a directory stands at the path's end.
    pub fn push_full_path_blob(&mut self, path: &str, blob_type: BlobType, hash: crate::hash::Hash) -> (r: Result<(), GitError>)
        ensures
            final(self).name == old(self).name,
            old(self).tree_info is Tree ==> final(self).tree_info is Tree,
            r is Ok ==> final(self).tree_info is Tree,
            names_distinct(*old(self)) ==> names_distinct(*final(self)),
            valid_path(vstd::utf8::encode_utf8(path@)) && !blocked(*old(self), path_names(path@))
                ==> r is Ok,
            match r {
                Ok(()) => valid_path(vstd::utf8::encode_utf8(path@)) && !blocked(
                    *old(self),
                    path_names(path@),
                ) && lookup(*final(self), path_names(path@)) == Some((blob_type, hash@)) && forall|q: Seq<Seq<char>>|
                    q != path_names(path@) ==> #[trigger] lookup(*final(self), q) == lookup(
                        *old(self),
                        q,
                    ),
                Err(e) => e is InvalidPath && crate::error::error_text(e) == Some(path@) && (!valid_path(
                    vstd::utf8::encode_utf8(path@),
                ) || blocked(
                    *old(self),
                    path_names(path@),
                )) && *final(self) == *old(self),
            },
            r is Ok ==> forall|q: Seq<Seq<char>>|
                #[trigger] dir_at(*final(self), q) ==> dir_at(*old(self), q) || (q.len() < path_names(
                    path@,
                ).len() && is_prefix(q, path_names(path@))),
    {
        let comps = match split_path(path.as_bytes()) {
            Some(c) => c,
            None => {
                return Err(GitError::InvalidPath(path.to_owned()));
            },
        };
        proof {
            lemma_components_nonempty(vstd::utf8::encode_utf8(path@));
            assert(names(comps@).subrange(0, comps@.len() as int) =~= path_names(path@));
        }
        if self.is_blocked(&comps, 0) {
            return Err(GitError::InvalidPath(path.to_owned()));
        }
        self.push_vec_path(&comps, 0, blob_type, hash);
        Ok(())
    }
}

proof fn lemma_components_nonempty(b: Seq<u8>)
    ensures
        path_components(b).len() >= 1,
    decreases b.len(),
{
    let k = crate::bytes::index_of(b, 47) as int;
    if k < b.len() {
        lemma_components_nonempty(b.subrange(k + 1, b.len() as int));
    }
}

/// One path leads to the other, or they are the same.
pub open spec fn paths_conflict(a: Seq<Seq<char>>, b: Seq<Seq<char>>) -> bool {
    is_prefix(a, b) || is_prefix(b, a)
}

/// An entry that can stand in a tree: a blob mode and a valid relative path.
pub open spec fn entry_placeable(e: crate::index::IndexEntry) -> bool {
    e.mode is Blob && valid_path(vstd::utf8::encode_utf8(e.file_name@))
}

/// Entries that make a tree: each can stand in one, and no path is another's or runs
/// through another.
pub open spec fn index_buildable(es: Seq<crate::index::IndexEntry>) -> bool {
    &&& forall|i: int| 0 <= i < es.len() ==> entry_placeable(#[trigger] es[i])
    &&& forall|i: int, j: int|
        0 <= i < es.len() && 0 <= j < es.len() && i != j ==> !paths_conflict(
            path_names(#[trigger] es[i].file_name@),
            path_names(#[trigger] es[j].file_name@),
        )
}

/// Every directory below the root has a blob under it.
pub open spec fn no_empty_dirs(n: TreeNode) -> bool {
    forall|q: Seq<Seq<char>>|
        q.len() > 0 && #[trigger] dir_at(n, q) ==> exists|r: Seq<Seq<char>>| #[trigger] lookup(n, q + r) is Some
}

/// A blob at `q` blocks every path that conflicts with `q`.
proof fn lemma_conflict_blocks(n: TreeNode, q: Seq<Seq<char>>, p: Seq<Seq<char>>)
    requires
        lookup(n, q) is Some,
        paths_conflict(q, p),
        q != p,
        p.len() > 0,
    ensures
        blocked(n, p),
    decreases p.len(),
{
    if let TreeNodeInfo::Tree(cs) = n.tree_info {
        assert(q.len() > 0);
        assert(q[0] == p[0]) by {
            if is_prefix(q, p) {
                assert(p.subrange(0, q.len() as int)[0] == p[0]);
            } else {
                assert(q.subrange(0, p.len() as int)[0] == q[0]);
            }
        }
        lemma_find_child_found(cs@, q[0]);
        let i = find_child(cs@, q[0]).unwrap();
        let q1 = q.drop_first();
        let p1 = p.drop_first();
        assert(q1 != p1) by {
            if q1 == p1 {
                assert forall|j: int| 0 <= j < q.len() implies q[j] == p[j] by {
                    if j > 0 {
                        assert(q[j] == q1[j - 1] && p[j] == p1[j - 1]);
                    }
                }
                assert(q =~= p);
            }
        }
        assert(lookup(n, q) == lookup(cs@[i], q1));
        if p.len() == 1 {
            if q1.len() == 0 {
                assert(p1.len() == 0);
                assert(q.len() == 1);
                assert(q =~= p);
            }
            assert(cs@[i].tree_info is Tree);
        } else {
            assert(paths_conflict(q1, p1)) by {
                if is_prefix(q, p) {
                    assert(p1.subrange(0, q1.len() as int) =~= q1) by {
                        assert forall|j: int| 0 <= j < q1.len() implies p1.subrange(0, q1.len() as int)[j]
                            == q1[j] by {
                            assert(p.subrange(0, q.len() as int)[j + 1] == q[j + 1]);
                        }
                    }
                } else {
                    assert(q1.subrange(0, p1.len() as int) =~= p1) by {
                        assert forall|j: int| 0 <= j < p1.len() implies q1.subrange(0, p1.len() as int)[j]
                            == p1[j] by {
                            assert(q.subrange(0, p.len() as int)[j + 1] == p[j + 1]);
                        }
                    }
                }
            }
            lemma_conflict_blocks(cs@[i], q1, p1);
        }
    }
}

impl TreeNode {
    /// Whether the path `comps[k..]` leads to a blob.
    fn blob_at_comps(&self, comps: &Vec<String>, k: usize) -> (r: bool)
        requires
            k <= comps@.len(),
        ensures
            r == lookup(*self, names(comps@).subrange(k as int, comps@.len() as int)) is Some,
        decreases comps@.len() - k,
    {
        let ghost path = names(comps@).subrange(k as int, comps@.len() as int);
        if k == comps.len() {
            assert(path.len() == 0);
            return match &self.tree_info {
                TreeNodeInfo::Blob(_, _) => true,
                TreeNodeInfo::Tree(_) => false,
            };
        }
        assert(path[0] == comps@[k as int]@);
        match &self.tree_info {
            TreeNodeInfo::Blob(_, _) => false,
            TreeNodeInfo::Tree(cs) => {
                match position_of(cs, &comps[k]) {
                    None => false,
                    Some(i) => {
                        proof {
                            assert(decreases_to!(*self => self.tree_info));
                            assert(decreases_to!(self.tree_info => self.tree_info->Tree_0));
                            assert(path.drop_first() =~= names(comps@).subrange(k + 1, comps@.len() as int));
                        }
                        cs[i].blob_at_comps(comps, k + 1)
                    },
                }
            },
        }
    }

    /// Whether a valid relative path leads to a blob below this node; false for any other path.
    pub fn has_blob_at(&self, path: &str) -> (r: bool)
        ensures
            valid_path(vstd::utf8::encode_utf8(path@)) ==> r == lookup(*self, path_names(path@)) is Some,
            !valid_path(vstd::utf8::encode_utf8(path@)) ==> !r,
    {
        match split_path(path.as_bytes()) {
            None => false,
            Some(comps) => {
                proof {
                    assert(names(comps@).subrange(0, comps@.len() as int) =~= path_names(path@));
                }
                self.blob_at_comps(&comps, 0)
            },
        }
    }
}

/// Where a path is blocked, a blob stands on a prefix of it, or a directory at its end.
proof fn lemma_blocked_witness(n: TreeNode, p: Seq<Seq<char>>) -> (q: Seq<Seq<char>>)
    requires
        blocked(n, p),
        p.len() > 0,
    ensures
        is_prefix(q, p),
        lookup(n, q) is Some || (q == p && dir_at(n, p)),
    decreases p.len(),
{
    match n.tree_info {
        TreeNodeInfo::Blob(_, _) => {
            let q = Seq::<Seq<char>>::empty();
            assert(p.subrange(0, 0) =~= q);
            assert(lookup(n, q) is Some);
            q
        },
        TreeNodeInfo::Tree(cs) => {
            lemma_find_child_found(cs@, p[0]);
            let i = find_child(cs@, p[0]).unwrap();
            let c = cs@[i];
            if p.len() == 1 {
                assert(p.drop_first() =~= Seq::<Seq<char>>::empty());
                assert(p.subrange(0, 1) =~= p);
                assert(lookup(n, p) == lookup(c, p.drop_first()));
                assert(dir_at(n, p) == dir_at(c, p.drop_first()));
                if c.tree_info is Blob {
                    assert(lookup(c, Seq::<Seq<char>>::empty()) is Some);
                } else {
                    assert(dir_at(c, Seq::<Seq<char>>::empty()));
                }
                p
            } else {
                let q1 = lemma_blocked_witness(c, p.drop_first());
                let q = seq![p[0]] + q1;
                assert(lookup(n, q) == lookup(c, q1)) by {
                    assert(q.drop_first() =~= q1);
                }
                assert(q1 == p.drop_first() ==> dir_at(n, p) == dir_at(c, q1));
                assert(q.drop_first() =~= q1);
                assert(q[0] == p[0]);
                assert(p.subrange(0, q.len() as int) =~= q) by {
                    assert forall|j: int| 0 <= j < q.len() implies p.subrange(0, q.len() as int)[j] == q[j] by {
                        if j > 0 {
                            assert(p.drop_first().subrange(0, q1.len() as int)[j - 1] == q1[j - 1]);
                        }
                    }
                }
                if q1 == p.drop_first() {
                    assert(q =~= p) by {
                        assert forall|j: int| 0 <= j < q.len() implies q[j] == p[j] by {
                            if j > 0 {
                                assert(q[j] == q1[j - 1]);
                            }
                        }
                    }
                }
                q
            }
        },
    }
}

impl TreeNode {
    /// The hierarchy of an index's paths: under a root directory, each entry's path leads to
    /// a blob of its mode and hash, no other path leads to a blob, and every directory below
    /// the root holds one. It is made exactly where each entry has a blob mode and a valid
    /// path and no path is another's or runs through another.
    #[verifier::rlimit(100)]
    #[verifier::spinoff_prover]
    pub fn from_index(index: &crate::index::Index) -> (r: Result<TreeNode, GitError>)
        ensures
            r is Ok <==> index_buildable(index.entries@),
            r matches Ok(n) ==> n.name@.len() == 0 && n.tree_info is Tree && no_empty_dirs(n)
                && names_distinct(n)
                && (forall|i: int|
                0 <= i < index.entries@.len() ==> lookup(
                    n,
                    path_names((#[trigger] index.entries@[i]).file_name@),
                ) == Some((index.entries@[i].mode->Blob_0, index.entries@[i].hash@))) && (forall|
                q: Seq<Seq<char>>,
            |
                #[trigger] lookup(n, q) is Some ==> exists|i: int|
                    0 <= i < index.entries@.len() && path_names(
                        (#[trigger] index.entries@[i]).file_name@,
                    ) == q),
            r matches Err(e) ==> e == GitError::InvalidMode || (e is InvalidPath && exists|i: int|
                0 <= i < index.entries@.len() && crate::error::error_text(e) == Some(
                    (#[trigger] index.entries@[i]).file_name@,
                )),
    {
        let mut root = TreeNode::new_root();
        let ghost es = index.entries@;
        let mut i: usize = 0;
        while i < index.entries.len()
            invariant
                es == index.entries@,
                0 <= i <= es.len(),
                root.name@.len() == 0,
                root.tree_info is Tree,
                names_distinct(root),
                index_buildable(es.subrange(0, i as int)),
                forall|j: int|
                    0 <= j < i ==> lookup(root, path_names((#[trigger] es[j]).file_name@)) == Some(
                        (es[j].mode->Blob_0, es[j].hash@),
                    ),
                forall|q: Seq<Seq<char>>|
                    #[trigger] lookup(root, q) is Some ==> exists|j: int|
                        0 <= j < i && path_names((#[trigger] es[j]).file_name@) == q,
                no_empty_dirs(root),
            decreases es.len() - i,
        {
            let e = &index.entries[i];
            let ghost pi = path_names(e.file_name@);
            let ghost prefix = es.subrange(0, i as int);
            let ghost next = es.subrange(0, i as int + 1);
            proof {
                lemma_components_nonempty(vstd::utf8::encode_utf8(e.file_name@));
                assert(next[i as int] == es[i as int]);
            }
            let blob_type = match e.mode {
                Mode::Blob(bt) => bt,
                Mode::Tree => {
                    proof {
                        lemma_not_buildable(es, i as int, i as int);
                    }
                    return Err(GitError::InvalidMode);
                },
            };
            let ghost before = root;
            if root.has_blob_at(e.file_name.as_str()) {
                proof {
                    let j = choose|j: int| 0 <= j < i && path_names((#[trigger] es[j]).file_name@) == pi;
                    assert(pi.subrange(0, pi.len() as int) =~= pi);
                    lemma_not_buildable(es, j, i as int);
                }
                return Err(GitError::InvalidPath(e.file_name.clone()));
            }
            match root.push_full_path_blob(e.file_name.as_str(), blob_type, e.hash) {
                Ok(()) => {},
                Err(_) => {
                    proof {
                        if valid_path(vstd::utf8::encode_utf8(e.file_name@)) {
                            let q = lemma_blocked_witness(before, pi);
                            if lookup(before, q) is Some {
                                let j = choose|j: int|
                                    0 <= j < i && path_names((#[trigger] es[j]).file_name@) == q;
                                lemma_not_buildable(es, j, i as int);
                            } else {
                                let r = choose|r: Seq<Seq<char>>| #[trigger] lookup(before, pi + r) is Some;
                                let j = choose|j: int|
                                    0 <= j < i && path_names((#[trigger] es[j]).file_name@) == pi + r;
                                assert((pi + r).subrange(0, pi.len() as int) =~= pi);
                                lemma_not_buildable(es, j, i as int);
                            }
                        } else {
                            lemma_not_buildable(es, i as int, i as int);
                        }
                    }
                    return Err(GitError::InvalidPath(e.file_name.clone()));
                },
            }
            proof {
                assert forall|j: int| 0 <= j < i implies !paths_conflict(
                    path_names(es[j].file_name@),
                    pi,
                ) by {
                    if paths_conflict(path_names(es[j].file_name@), pi) {
                        if path_names(es[j].file_name@) != pi {
                            lemma_conflict_blocks(before, path_names(es[j].file_name@), pi);
                        }
                    }
                }
                assert(index_buildable(next)) by {
                    assert forall|a: int| 0 <= a < next.len() implies entry_placeable(#[trigger] next[a]) by {
                        if a < i {
                            assert(next[a] == prefix[a]);
                        }
                    }
                    assert forall|a: int, b: int|
                        0 <= a < next.len() && 0 <= b < next.len() && a != b implies !paths_conflict(
                        path_names((#[trigger] next[a]).file_name@),
                        path_names((#[trigger] next[b]).file_name@),
                    ) by {
                        if a < i && b < i {
                            assert(next[a] == prefix[a] && next[b] == prefix[b]);
                        } else if a == i {
                            assert(next[b] == es[b]);
                            assert(!paths_conflict(path_names(es[b].file_name@), pi));
                        } else {
                            assert(next[a] == es[a]);
                            assert(!paths_conflict(path_names(es[a].file_name@), pi));
                        }
                    }
                }
                assert forall|j: int| 0 <= j < i + 1 implies lookup(
                    root,
                    path_names((#[trigger] es[j]).file_name@),
                ) == Some((es[j].mode->Blob_0, es[j].hash@)) by {
                    if j < i {
                        if path_names(es[j].file_name@) == pi {
                            assert(is_prefix(pi, pi)) by {
                                assert(pi.subrange(0, pi.len() as int) =~= pi);
                            }
                        }
                    }
                }
                assert forall|q: Seq<Seq<char>>| #[trigger] lookup(root, q) is Some implies exists|j: int|
                    0 <= j < i + 1 && path_names((#[trigger] es[j]).file_name@) == q by {
                    if q != pi {
                        assert(lookup(before, q) is Some);
                    } else {
                        assert(path_names(es[i as int].file_name@) == q);
                    }
                }
                assert forall|q: Seq<Seq<char>>| q.len() > 0 && #[trigger] dir_at(root, q) implies exists|
                    r: Seq<Seq<char>>,
                | #[trigger] lookup(root, q + r) is Some by {
                    if dir_at(before, q) {
                        let r = choose|r: Seq<Seq<char>>| #[trigger] lookup(before, q + r) is Some;
                        assert(lookup(root, q + r) is Some);
                    } else {
                        let r = pi.subrange(q.len() as int, pi.len() as int);
                        assert(q + r =~= pi);
                        assert(lookup(root, q + r) is Some);
                    }
                }
            }
            i = i + 1;
        }
        assert(es.subrange(0, es.len() as int) =~= es);
        Ok(root)
    }
}

/// One unplaceable entry, or two conflicting ones, and the entries make no tree.
proof fn lemma_not_buildable(es: Seq<crate::index::IndexEntry>, j: int, i: int)
    requires
        0 <= j < es.len(),
        0 <= i < es.len(),
        (j == i && !entry_placeable(es[i])) || (j != i && paths_conflict(
            path_names(es[j].file_name@),
            path_names(es[i].file_name@),
        )),
    ensures
        !index_buildable(es),
{
}

/// A directory with no blob below it and no empty directory is the empty tree.
pub proof fn lemma_leafless_is_empty(n: TreeNode)
    requires
        n.tree_info is Tree,
        no_empty_dirs(n),
        forall|q: Seq<Seq<char>>| #[trigger] lookup(n, q) is None,
    ensures
        node_hash(n) == sha1_of(canonical(ObjectType::Tree, Seq::<u8>::empty())),
{
    let cs = n.tree_info->Tree_0@;
    if cs.len() > 0 {
        let nm = cs[0].name@;
        lemma_find_child(cs, nm, 0);
        let q = seq![nm];
        assert(q.drop_first() =~= Seq::<Seq<char>>::empty());
        if cs[0].tree_info is Blob {
            assert(lookup(cs[0], q.drop_first()) is Some);
            assert(lookup(n, q) is Some);
        } else {
            assert(dir_at(cs[0], q.drop_first()));
            assert(dir_at(n, q));
            let r = choose|r: Seq<Seq<char>>| #[trigger] lookup(n, q + r) is Some;
            assert(lookup(n, q + r) is None);
        }
    }
    assert(child_entries(cs) =~= Seq::<EntryView>::empty());
    assert(sort_entries(Seq::<EntryView>::empty()) =~= Seq::<EntryView>::empty());
}

/// `write-tree`: the hierarchy of the index (exactly its paths, each leading to its blob, and
/// no empty directory), with its tree objects written into `store`; returns the root tree's
/// hash. An empty index gives the empty tree.
pub fn write_tree(index: &crate::index::Index, store: &mut ObjectStore) -> (r: Result<crate::hash::Hash, GitError>)
    requires
        old(store).wf(),
    ensures
        final(store).wf(),
        r is Ok <==> index_buildable(index.entries@),
        index.entries@.len() == 0 ==> (r matches Ok(h) && h@ == sha1_of(
            canonical(ObjectType::Tree, Seq::<u8>::empty()),
        )),
        match r {
            Ok(h) => exists|n: TreeNode|
                #[trigger] node_hash(n) == h@ && final(store)@ == store_after(n, old(store)@)
                    && n.tree_info is Tree && no_empty_dirs(n) && names_distinct(n) && (forall|i: int|
                    0 <= i < index.entries@.len() ==> lookup(
                        n,
                        path_names((#[trigger] index.entries@[i]).file_name@),
                    ) == Some((index.entries@[i].mode->Blob_0, index.entries@[i].hash@))) && (forall|
                    q: Seq<Seq<char>>,
                |
                    #[trigger] lookup(n, q) is Some ==> exists|i: int|
                        0 <= i < index.entries@.len() && path_names(
                            (#[trigger] index.entries@[i]).file_name@,
                        ) == q),
            Err(e) => final(store)@ == old(store)@ && (e == GitError::InvalidMode || (e is InvalidPath
                && exists|i: int|
                0 <= i < index.entries@.len() && crate::error::error_text(e) == Some(
                    (#[trigger] index.entries@[i]).file_name@,
                ))),
        },
{
    let root = TreeNode::from_index(index)?;
    proof {
        if index.entries@.len() == 0 {
            assert forall|q: Seq<Seq<char>>| #[trigger] lookup(root, q) is None by {
                if lookup(root, q) is Some {
                    let i = choose|i: int|
                        0 <= i < index.entries@.len() && path_names(
                            (#[trigger] index.entries@[i]).file_name@,
                        ) == q;
                }
            }
            lemma_leafless_is_empty(root);
        }
    }
    let h = root.write_recursive(store);
    Ok(h)
}

/// Directories with the same entries, in whatever order their children stand, have the same
/// tree object and so the same hash: one object serves both, where no two entries share a key.
pub proof fn lemma_same_entries_same_tree(a: TreeNode, b: TreeNode)
    requires
        a.tree_info is Tree,
        b.tree_info is Tree,
        child_entries(a.tree_info->Tree_0@).to_multiset() == child_entries(b.tree_info->Tree_0@).to_multiset(),
        forall|x: EntryView, y: EntryView|
            child_entries(a.tree_info->Tree_0@).contains(x) && child_entries(a.tree_info->Tree_0@).contains(y)
                && crate::object::sort_key(x) == crate::object::sort_key(y) ==> x == y,
    ensures
        dir_body(a.tree_info->Tree_0@) == dir_body(b.tree_info->Tree_0@),
        node_hash(a) == node_hash(b),
{
    crate::sort::lemma_sort_permutation(
        crate::object::tree_key(),
        child_entries(a.tree_info->Tree_0@),
        child_entries(b.tree_info->Tree_0@),
    );
}

} // verus!
