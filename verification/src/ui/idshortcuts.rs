//! Short identifiers for devices: each identifier of a set is cut down to the
//! characters at which it parts from the others.
//!
//! The identifiers are laid out in a prefix tree, one character to a node. A
//! walk of the tree then gives each identifier its short form: the characters
//! along its path at which the tree branches.

use vstd::prelude::*;
use vstd::string::StrSliceExecFns;
use vstd::string::StringExecFns;

verus! {

/// A node of the prefix tree of identifiers. An inner node stands for one
/// character; a leaf holds the identifier that ends at its parent.
#[derive(Debug)]
pub struct Tree {
    prefix: String,
    children: Vec<Tree>,
    value: Option<String>,
}

/// What a prefix tree amounts to.
pub struct TreeModel {
    pub prefix: Seq<char>,
    pub children: Seq<TreeModel>,
    pub value: Option<Seq<char>>,
}

/// A short form and the identifier it stands for.
#[derive(Debug, Clone)]
pub struct Shortcut {
    pub short: String,
    pub id: String,
}

/// What a shortcut amounts to.
pub struct ShortcutModel {
    pub short: Seq<char>,
    pub id: Seq<char>,
}

impl View for Shortcut {
    type V = ShortcutModel;

    open spec fn view(&self) -> ShortcutModel {
        ShortcutModel { short: self.short@, id: self.id@ }
    }
}

/// What a list of shortcuts amounts to.
pub open spec fn shortcut_models(shortcuts: Seq<Shortcut>) -> Seq<ShortcutModel> {
    Seq::new(shortcuts.len(), |i: int| shortcuts[i]@)
}

/// What a list of identifiers amounts to.
pub open spec fn id_models(ids: Seq<&str>) -> Seq<Seq<char>> {
    Seq::new(ids.len(), |i: int| ids[i]@)
}

impl TreeModel {
    /// An inner node for the character `prefix`, with nothing below it yet.
    pub open spec fn node(prefix: Seq<char>) -> TreeModel {
        TreeModel { prefix, children: Seq::empty(), value: None }
    }

    /// A leaf for the identifier `id`.
    pub open spec fn leaf(id: Seq<char>) -> TreeModel {
        TreeModel { prefix: Seq::empty(), children: Seq::empty(), value: Some(id) }
    }

    /// Whether child `i` is the first child that stands for `prefix`.
    pub open spec fn first_called(self, prefix: Seq<char>, i: int) -> bool {
        &&& 0 <= i < self.children.len()
        &&& self.children[i].prefix == prefix
        &&& forall|j: int| 0 <= j < i ==> self.children[j].prefix != prefix
    }

    /// Whether no child stands for `prefix`.
    pub open spec fn none_called(self, prefix: Seq<char>) -> bool {
        forall|j: int| 0 <= j < self.children.len() ==> self.children[j].prefix != prefix
    }

    /// Whether one of the children is the leaf of `id`.
    pub open spec fn has_leaf(self, id: Seq<char>) -> bool {
        exists|j: int| 0 <= j < self.children.len() && #[trigger] self.children[j].value == Some(id)
    }

    /// The tree with the identifier `id` added below this node, which stands
    /// for the first `at` characters of `id`. An identifier that is in the
    /// tree already is not added again.
    pub open spec fn grown(self, id: Seq<char>, at: int) -> TreeModel
        decreases id.len() - at,
    {
        if at >= id.len() {
            if self.has_leaf(id) {
                self
            } else {
                TreeModel { children: self.children.push(Self::leaf(id)), ..self }
            }
        } else {
            let next = id.subrange(at, at + 1);
            if self.none_called(next) {
                TreeModel {
                    children: self.children.push(Self::node(next).grown(id, at + 1)),
                    ..self
                }
            } else {
                let i = choose|i: int| self.first_called(next, i);
                TreeModel {
                    children: self.children.update(i, self.children[i].grown(id, at + 1)),
                    ..self
                }
            }
        }
    }

    /// The shortcuts of the identifiers in this tree, for a node that is
    /// reached with the short form `prefix`: the node's own identifier, if it
    /// holds one, and then those of its children in order.
    pub open spec fn collected(self, prefix: Seq<char>) -> Seq<ShortcutModel>
        decreases self, 1int, 0int,
    {
        let own = match self.value {
            Some(id) => seq![ShortcutModel { short: prefix, id }],
            None => Seq::empty(),
        };
        own + self.collected_children(prefix, self.children.len() as int)
    }

    /// The shortcuts of the first `upto` children. Where the node branches,
    /// the short form grows by the character of the child; where it does not,
    /// the character tells nothing apart and is left out.
    pub open spec fn collected_children(self, prefix: Seq<char>, upto: int) -> Seq<ShortcutModel>
        decreases self, 0int, upto,
    {
        if upto <= 0 || upto > self.children.len() {
            Seq::empty()
        } else {
            let child = self.children[upto - 1];
            let next = if self.children.len() < 2 {
                prefix
            } else {
                prefix + child.prefix
            };
            self.collected_children(prefix, upto - 1) + child.collected(next)
        }
    }
}

/// The prefix tree of the first `count` of the identifiers `ids`.
pub open spec fn tree_of(ids: Seq<Seq<char>>, count: int) -> TreeModel
    decreases count,
{
    if count <= 0 {
        TreeModel::node(Seq::empty())
    } else {
        tree_of(ids, count - 1).grown(ids[count - 1], 0)
    }
}

/// The shortcuts of a list of identifiers.
pub open spec fn shortcuts_of(ids: Seq<Seq<char>>) -> Seq<ShortcutModel> {
    tree_of(ids, ids.len() as int).collected(Seq::empty())
}

impl Tree {
    /// What the tree amounts to.
    pub closed spec fn model(&self) -> TreeModel
        decreases self,
    {
        TreeModel {
            prefix: self.prefix@,
            children: Seq::new(
                self.children@.len(),
                |i: int|
                    if 0 <= i < self.children@.len() {
                        self.children@[i].model()
                    } else {
                        arbitrary()
                    },
            ),
            value: match self.value {
                Some(id) => Some(id@),
                None => None,
            },
        }
    }

    /// An inner node for the character `s`.
    fn node(s: String) -> (tree: Tree)
        ensures
            tree.model() == TreeModel::node(s@),
    {
        let tree = Tree { prefix: s, children: Vec::new(), value: None };
        assert(tree.model().children =~= Seq::empty());
        tree
    }

    /// A leaf for the identifier `s`.
    fn leaf(s: String) -> (tree: Tree)
        ensures
            tree.model() == TreeModel::leaf(s@),
    {
        let tree = Tree { prefix: String::from_str(""), children: Vec::new(), value: Some(s) };
        proof {
            reveal_strlit("");
            assert(tree.prefix@ =~= Seq::empty());
            assert(tree.model().children =~= Seq::empty());
        }
        tree
    }

    /// Hangs `child` below this node, after the children it has.
    fn add_child(&mut self, child: Tree)
        ensures
            final(self).model() == (TreeModel {
                children: old(self).model().children.push(child.model()),
                ..old(self).model()
            }),
    {
        self.children.push(child);
        assert(self.model().children =~= old(self).model().children.push(child.model()));
    }

    /// Adds the shortcuts of the identifiers in this tree to `r`, for a node
    /// that is reached with the short form `prefix`.
    fn collect(&self, prefix: &str, r: &mut Vec<Shortcut>)
        ensures
            shortcut_models(final(r)@) == shortcut_models(old(r)@) + self.model().collected(
                prefix@,
            ),
        decreases self,
    {
        let ghost before = shortcut_models(r@);
        let ghost model = self.model();
        if let Some(v) = &self.value {
            r.push(Shortcut { short: String::from_str(prefix), id: v.clone() });
        }
        let ghost own = match model.value {
            Some(id) => seq![ShortcutModel { short: prefix@, id }],
            None => Seq::empty(),
        };
        assert(shortcut_models(r@) =~= before + own);
        let skip = self.children.len() < 2;
        let mut i: usize = 0;
        while i < self.children.len()
            invariant
                i <= self.children@.len(),
                model == self.model(),
                skip == (self.children@.len() < 2),
                shortcut_models(r@) == before + own + model.collected_children(prefix@, i as int),
            decreases self.children@.len() - i,
        {
            let x = &self.children[i];
            let ghost so_far = shortcut_models(r@);
            assert(model.children[i as int] == x.model());
            if skip {
                x.collect(prefix, r);
            } else {
                let p = String::from_str(prefix).concat(x.prefix.as_str());
                x.collect(p.as_str(), r);
            }
            proof {
                let next = if model.children.len() < 2 {
                    prefix@
                } else {
                    prefix@ + x.model().prefix
                };
                assert(shortcut_models(r@) == so_far + x.model().collected(next));
                assert(model.collected_children(prefix@, i as int + 1)
                    == model.collected_children(prefix@, i as int) + x.model().collected(next));
                assert(shortcut_models(r@) =~= before + own + model.collected_children(
                    prefix@,
                    i as int + 1,
                ));
            }
            i = i + 1;
        }
        assert(shortcut_models(r@) =~= before + model.collected(prefix@));
    }
}

/// Whether entry `i` is the first shortcut that stands for the identifier `id`.
pub open spec fn first_for(shortcuts: Seq<ShortcutModel>, id: Seq<char>, i: int) -> bool {
    &&& 0 <= i < shortcuts.len()
    &&& shortcuts[i].id == id
    &&& forall|j: int| 0 <= j < i ==> shortcuts[j].id != id
}

/// Whether entry `i` is the first shortcut that `key` names, by its short
/// form or by its identifier.
pub open spec fn first_named(shortcuts: Seq<ShortcutModel>, key: Seq<char>, i: int) -> bool {
    &&& 0 <= i < shortcuts.len()
    &&& shortcuts[i].short == key || shortcuts[i].id == key
    &&& forall|j: int| 0 <= j < i ==> shortcuts[j].short != key && shortcuts[j].id != key
}

/// The short forms of a set of identifiers.
pub struct IdShortcuts {
    inner: Vec<Shortcut>,
}

impl IdShortcuts {
    /// The shortcuts, in the order in which the walk of the prefix tree
    /// comes by them.
    pub closed spec fn entries(&self) -> Seq<ShortcutModel> {
        shortcut_models(self.inner@)
    }

    /// Works out the short forms of the identifiers `ids`. An identifier that
    /// is listed more than once counts once.
    pub fn from(ids: Vec<&str>) -> (shortcuts: IdShortcuts)
        ensures
            shortcuts.entries() == shortcuts_of(id_models(ids@)),
            all_apart(shortcuts.entries()),
            forall|id: Seq<char>|
                #[trigger] lists(shortcuts.entries(), id) <==> exists|k: int|
                    0 <= k < ids@.len() && #[trigger] ids@[k]@ == id,
    {
        let shortcuts = IdShortcuts { inner: Self::build_map_from(ids) };
        proof {
            let given = id_models(ids@);
            lemma_shortcuts_are_apart(given);
            assert forall|id: Seq<char>| #[trigger]
                lists(shortcuts.entries(), id) <==> exists|k: int|
                    0 <= k < ids@.len() && #[trigger] ids@[k]@ == id by {
                lemma_shortcuts_cover_the_identifiers(given, id);
                if exists|k: int| 0 <= k < given.len() && #[trigger] given[k] == id {
                    let k = choose|k: int| 0 <= k < given.len() && #[trigger] given[k] == id;
                    assert(ids@[k]@ == id);
                }
                if exists|k: int| 0 <= k < ids@.len() && #[trigger] ids@[k]@ == id {
                    let k = choose|k: int| 0 <= k < ids@.len() && #[trigger] ids@[k]@ == id;
                    assert(given[k] == id);
                }
            }
        }
        shortcuts
    }

    /// All short forms.
    pub fn keys(&self) -> (keys: Vec<&str>)
        ensures
            keys@.len() == self.entries().len(),
            forall|i: int| 0 <= i < keys@.len() ==> keys@[i]@ == self.entries()[i].short,
    {
        let mut keys: Vec<&str> = Vec::new();
        let mut i: usize = 0;
        while i < self.inner.len()
            invariant
                i <= self.inner@.len(),
                keys@.len() == i,
                forall|j: int| 0 <= j < i ==> keys@[j]@ == self.inner@[j].short@,
            decreases self.inner@.len() - i,
        {
            keys.push(self.inner[i].short.as_str());
            i = i + 1;
        }
        keys
    }

    /// The short form of the identifier `key`.
    pub fn get_short(&self, key: &str) -> (short: Option<&String>)
        ensures
            match short {
                Some(text) => exists|i: int|
                    #[trigger] first_for(self.entries(), key@, i) && self.entries()[i].short
                        == text@,
                None => forall|i: int|
                    0 <= i < self.entries().len() ==> self.entries()[i].id != key@,
            },
    {
        let wanted = String::from_str(key);
        let mut i: usize = 0;
        while i < self.inner.len()
            invariant
                i <= self.inner@.len(),
                wanted@ == key@,
                forall|j: int| 0 <= j < i ==> self.inner@[j].id@ != key@,
            decreases self.inner@.len() - i,
        {
            if self.inner[i].id == wanted {
                assert(first_for(self.entries(), key@, i as int));
                return Some(&self.inner[i].short);
            }
            i = i + 1;
        }
        None
    }

    /// The identifier that `key` names, be it a short form or an identifier
    /// itself.
    pub fn get(&self, key: &str) -> (id: Option<&String>)
        ensures
            match id {
                Some(text) => exists|i: int|
                    #[trigger] first_named(self.entries(), key@, i) && self.entries()[i].id
                        == text@,
                None => forall|i: int|
                    0 <= i < self.entries().len() ==> self.entries()[i].short != key@
                        && self.entries()[i].id != key@,
            },
    {
        let wanted = String::from_str(key);
        let mut i: usize = 0;
        while i < self.inner.len()
            invariant
                i <= self.inner@.len(),
                wanted@ == key@,
                forall|j: int|
                    0 <= j < i ==> self.inner@[j].short@ != key@ && self.inner@[j].id@ != key@,
            decreases self.inner@.len() - i,
        {
            if self.inner[i].short == wanted || self.inner[i].id == wanted {
                assert(first_named(self.entries(), key@, i as int));
                return Some(&self.inner[i].id);
            }
            i = i + 1;
        }
        None
    }

    /// Lays the identifiers out in a prefix tree and walks it.
    fn build_map_from(ids: Vec<&str>) -> (shortcuts: Vec<Shortcut>)
        ensures
            shortcut_models(shortcuts@) == shortcuts_of(id_models(ids@)),
    {
        let mut root = Tree::node(String::from_str(""));
        proof {
            reveal_strlit("");
            assert(root.model() == tree_of(id_models(ids@), 0)) by {
                assert(""@ =~= Seq::<char>::empty());
            }
        }
        let mut i: usize = 0;
        while i < ids.len()
            invariant
                i <= ids@.len(),
                root.model() == tree_of(id_models(ids@), i as int),
            decreases ids@.len() - i,
        {
            Self::build_prefix_tree(&mut root, ids[i], 0);
            i = i + 1;
        }
        let mut m: Vec<Shortcut> = Vec::new();
        root.collect("", &mut m);
        proof {
            reveal_strlit("");
            assert(""@ =~= Seq::<char>::empty());
            assert(shortcut_models(m@) =~= root.model().collected(Seq::empty()));
        }
        m
    }

    /// Adds the identifier `id` to the tree below `node`, which stands for
    /// the first `at` characters of `id`.
    fn build_prefix_tree(node: &mut Tree, id: &str, at: usize)
        requires
            at <= id@.len(),
        ensures
            final(node).model() == old(node).model().grown(id@, at as int),
        decreases id@.len() - at,
    {
        let ghost before = node.model();
        let len = id.unicode_len();
        if at >= len {
            let whole = String::from_str(id);
            let mut i: usize = 0;
            while i < node.children.len()
                invariant
                    i <= node.children@.len(),
                    whole@ == id@,
                    node.model() == before,
                    before == old(node).model(),
                    at >= id@.len(),
                    forall|j: int| 0 <= j < i ==> before.children[j].value != Some(id@),
                decreases node.children@.len() - i,
            {
                let known = match &node.children[i].value {
                    Some(v) => *v == whole,
                    None => false,
                };
                assert(before.children[i as int] == node.children@[i as int].model());
                if known {
                    assert(before.children[i as int].value == Some(id@));
                    assert(before.has_leaf(id@));
                    return ;
                }
                i = i + 1;
            }
            proof {
                assert(!before.has_leaf(id@));
            }
            node.add_child(Tree::leaf(whole));
        } else {
            let next = String::from_str(id.substring_char(at, at + 1));
            let mut i: usize = 0;
            while i < node.children.len()
                invariant
                    i <= node.children@.len(),
                    next@ == id@.subrange(at as int, at + 1),
                    node.model() == before,
                    before == old(node).model(),
                    len == id@.len(),
                    at < id@.len(),
                    forall|j: int| 0 <= j < i ==> before.children[j].prefix != next@,
                decreases node.children@.len() - i,
            {
                assert(before.children[i as int] == node.children@[i as int].model());
                if node.children[i].prefix == next {
                    proof {
                        assert(before.first_called(next@, i as int));
                        let chosen = choose|k: int| before.first_called(next@, k);
                        assert(chosen == i) by {
                            if chosen < i {
                                assert(before.children[chosen].prefix != next@);
                            } else if chosen > i {
                                assert(before.children[i as int].prefix != next@);
                            }
                        }
                    }
                    let ghost child_before = node.children@[i as int].model();
                    Self::build_prefix_tree(&mut node.children[i], id, at + 1);
                    proof {
                        assert(node.model().children =~= before.children.update(
                            i as int,
                            child_before.grown(id@, at + 1),
                        ));
                    }
                    return ;
                }
                i = i + 1;
            }
            proof {
                assert(before.none_called(next@));
            }
            let mut fresh = Tree::node(next);
            Self::build_prefix_tree(&mut fresh, id, at + 1);
            node.add_child(fresh);
        }
    }
}

impl TreeModel {
    /// Whether a child of a node that stands for the characters `path` is a
    /// leaf in its place: it holds the identifier `path` itself.
    pub open spec fn leaf_in_place(self, path: Seq<char>) -> bool {
        &&& self.value == Some(path)
        &&& self.children.len() == 0
        &&& self.prefix.len() == 0
    }

    /// Whether the tree below a node that stands for the characters `path` is
    /// a prefix tree: the node holds no identifier itself; each of its
    /// children is a leaf in its place, or an inner node that stands for one
    /// more character, with a prefix tree below it; and no two of its children
    /// stand for the same.
    pub open spec fn laid_out(self, path: Seq<char>) -> bool
        decreases self,
    {
        &&& self.value is None
        &&& forall|i: int|
            0 <= i < self.children.len() ==> {
                let child = #[trigger] self.children[i];
                if child.value is Some {
                    child.leaf_in_place(path)
                } else {
                    &&& child.prefix.len() == 1
                    &&& child.children.len() > 0
                    &&& child.laid_out(path + child.prefix)
                }
            }
        &&& forall|i: int, j: int|
            0 <= i < j < self.children.len() ==> (#[trigger] self.children[i]).prefix != (
            #[trigger] self.children[j]).prefix
    }

    /// Whether child `i` of a prefix tree is in its place.
    pub open spec fn child_in_place(self, i: int, path: Seq<char>) -> bool {
        let child = self.children[i];
        if child.value is Some {
            child.leaf_in_place(path)
        } else {
            &&& child.prefix.len() == 1
            &&& child.children.len() > 0
            &&& child.laid_out(path + child.prefix)
        }
    }
}

/// Adding an identifier to a tree leaves the node it is added below what it
/// was, but for its children, of which there is at least one afterwards.
pub proof fn lemma_grown_keeps_node(tree: TreeModel, id: Seq<char>, at: int)
    requires
        0 <= at <= id.len(),
    ensures
        tree.grown(id, at).prefix == tree.prefix,
        tree.grown(id, at).value == tree.value,
        tree.grown(id, at).children.len() >= tree.children.len(),
        tree.grown(id, at).children.len() > 0,
    decreases id.len() - at,
{
    if at >= id.len() {
        if tree.has_leaf(id) {
            let j = choose|j: int|
                0 <= j < tree.children.len() && #[trigger] tree.children[j].value == Some(id);
        }
    } else {
        let next = id.subrange(at, at + 1);
        if !tree.none_called(next) {
            let i = choose|i: int| tree.first_called(next, i);
            assert(tree.first_called(next, i)) by {
                let k = choose|k: int| 0 <= k < tree.children.len() && tree.children[k].prefix == next;
                lemma_some_child_is_first(tree, next, k);
            }
        }
    }
}

/// Where some child stands for `prefix`, one of them is the first to do so.
pub proof fn lemma_some_child_is_first(tree: TreeModel, prefix: Seq<char>, k: int)
    requires
        0 <= k < tree.children.len(),
        tree.children[k].prefix == prefix,
    ensures
        exists|i: int| tree.first_called(prefix, i),
    decreases k,
{
    if forall|j: int| 0 <= j < k ==> tree.children[j].prefix != prefix {
        assert(tree.first_called(prefix, k));
    } else {
        let j = choose|j: int| 0 <= j < k && tree.children[j].prefix == prefix;
        lemma_some_child_is_first(tree, prefix, j);
    }
}

/// A prefix tree with an identifier added is a prefix tree.
pub proof fn lemma_grown_is_laid_out(tree: TreeModel, id: Seq<char>, at: int)
    requires
        0 <= at <= id.len(),
        tree.laid_out(id.subrange(0, at)),
    ensures
        tree.grown(id, at).laid_out(id.subrange(0, at)),
    decreases id.len() - at,
{
    let path = id.subrange(0, at);
    let grown = tree.grown(id, at);
    lemma_grown_keeps_node(tree, id, at);
    if at >= id.len() {
        assert(path =~= id);
        if !tree.has_leaf(id) {
            let leaf = TreeModel::leaf(id);
            assert(grown.children == tree.children.push(leaf));
            assert forall|i: int| 0 <= i < grown.children.len() implies grown.child_in_place(
                i,
                path,
            ) by {
                if i < tree.children.len() {
                    assert(tree.child_in_place(i, path));
                    assert(grown.children[i] == tree.children[i]);
                }
            }
            assert forall|i: int, j: int| 0 <= i < j < grown.children.len() implies grown.children[i].prefix
                != grown.children[j].prefix by {
                if j == tree.children.len() {
                    assert(tree.child_in_place(i, path));
                    if tree.children[i].value is Some {
                        assert(tree.children[i].value == Some(id));
                    }
                }
            }
        }
    } else {
        let next = id.subrange(at, at + 1);
        assert(path + next =~= id.subrange(0, at + 1));
        if tree.none_called(next) {
            let fresh = TreeModel::node(next);
            assert(fresh.laid_out(id.subrange(0, at + 1)));
            lemma_grown_is_laid_out(fresh, id, at + 1);
            lemma_grown_keeps_node(fresh, id, at + 1);
            let child = fresh.grown(id, at + 1);
            assert(grown.children == tree.children.push(child));
            assert forall|i: int| 0 <= i < grown.children.len() implies grown.child_in_place(
                i,
                path,
            ) by {
                if i < tree.children.len() {
                    assert(tree.child_in_place(i, path));
                    assert(grown.children[i] == tree.children[i]);
                } else {
                    assert(grown.children[i] == child);
                }
            }
        } else {
            let k = choose|k: int| 0 <= k < tree.children.len() && tree.children[k].prefix == next;
            lemma_some_child_is_first(tree, next, k);
            let i = choose|i: int| tree.first_called(next, i);
            let old_child = tree.children[i];
            assert(tree.child_in_place(i, path));
            assert(old_child.value is None);
            lemma_grown_is_laid_out(old_child, id, at + 1);
            lemma_grown_keeps_node(old_child, id, at + 1);
            let child = old_child.grown(id, at + 1);
            assert(grown.children == tree.children.update(i, child));
            assert forall|j: int| 0 <= j < grown.children.len() implies grown.child_in_place(
                j,
                path,
            ) by {
                if j != i {
                    assert(tree.child_in_place(j, path));
                    assert(grown.children[j] == tree.children[j]);
                }
            }
        }
    }
}

/// The tree of any identifiers is a prefix tree.
pub proof fn lemma_tree_is_laid_out(ids: Seq<Seq<char>>, count: int)
    requires
        0 <= count <= ids.len(),
    ensures
        tree_of(ids, count).laid_out(Seq::empty()),
    decreases count,
{
    if count > 0 {
        lemma_tree_is_laid_out(ids, count - 1);
        assert(ids[count - 1].subrange(0, 0) =~= Seq::<char>::empty());
        lemma_grown_is_laid_out(tree_of(ids, count - 1), ids[count - 1], 0);
    }
}

/// Whether no two shortcuts of a list share a short form or an identifier.
pub open spec fn all_apart(shortcuts: Seq<ShortcutModel>) -> bool {
    forall|a: int, b: int|
        0 <= a < b < shortcuts.len() ==> (#[trigger] shortcuts[a]).short != (
        #[trigger] shortcuts[b]).short && shortcuts[a].id != shortcuts[b].id
}

/// Whether a shortcut may have come from child `j` of a prefix tree whose
/// root stands for the characters `path` and is reached with the short form
/// `key`: from a leaf comes the shortcut of `path` itself; what comes from an
/// inner node goes on from `path` with the node's character, and where the
/// tree branches, so does its short form.
pub open spec fn comes_from(
    tree: TreeModel,
    key: Seq<char>,
    path: Seq<char>,
    j: int,
    shortcut: ShortcutModel,
) -> bool {
    let child = tree.children[j];
    if child.value is Some {
        shortcut.short == key && shortcut.id == path
    } else {
        &&& key.is_prefix_of(shortcut.short)
        &&& tree.children.len() >= 2 ==> (key + child.prefix).is_prefix_of(shortcut.short)
        &&& (path + child.prefix).is_prefix_of(shortcut.id)
    }
}

/// Whether a shortcut may have come from one of the first `upto` children of
/// a prefix tree.
pub open spec fn comes_from_one(
    tree: TreeModel,
    key: Seq<char>,
    path: Seq<char>,
    upto: int,
    shortcut: ShortcutModel,
) -> bool {
    exists|j: int| 0 <= j < upto && comes_from(tree, key, path, j, shortcut)
}

/// Shortcuts that come from different children of a branching node differ in
/// both their parts.
proof fn lemma_children_tell_apart(
    tree: TreeModel,
    key: Seq<char>,
    path: Seq<char>,
    i: int,
    j: int,
    first: ShortcutModel,
    second: ShortcutModel,
)
    requires
        tree.laid_out(path),
        0 <= i < tree.children.len(),
        0 <= j < tree.children.len(),
        i != j,
        comes_from(tree, key, path, i, first),
        comes_from(tree, key, path, j, second),
    ensures
        first.short != second.short,
        first.id != second.id,
{
    let a = tree.children[i];
    let b = tree.children[j];
    assert(a.prefix != b.prefix) by {
        if i < j {
            assert(tree.children[i].prefix != tree.children[j].prefix);
        } else {
            assert(tree.children[j].prefix != tree.children[i].prefix);
        }
    }
    let k = key.len() as int;
    let p = path.len() as int;
    if a.value is None {
        assert((key + a.prefix)[k] == a.prefix[0]);
        assert((path + a.prefix)[p] == a.prefix[0]);
        assert(first.short[k] == (key + a.prefix)[k]);
        assert(first.id[p] == (path + a.prefix)[p]);
    }
    if b.value is None {
        assert((key + b.prefix)[k] == b.prefix[0]);
        assert((path + b.prefix)[p] == b.prefix[0]);
        assert(second.short[k] == (key + b.prefix)[k]);
        assert(second.id[p] == (path + b.prefix)[p]);
    }
    if a.value is None && b.value is None {
        assert(a.prefix[0] != b.prefix[0]) by {
            if a.prefix[0] == b.prefix[0] {
                assert(a.prefix =~= b.prefix);
            }
        }
    }
    if a.value is Some && b.value is Some {
        assert(a.prefix =~= b.prefix);
    }
}

/// The shortcuts of a prefix tree are all apart, and each goes on from where
/// the tree stands: its short form from the short form the tree is reached
/// with, its identifier from the characters the tree stands for.
pub proof fn lemma_collected_apart(tree: TreeModel, key: Seq<char>, path: Seq<char>)
    requires
        tree.laid_out(path),
    ensures
        all_apart(tree.collected(key)),
        forall|n: int|
            0 <= n < tree.collected(key).len() ==> key.is_prefix_of(
                (#[trigger] tree.collected(key)[n]).short,
            ) && path.is_prefix_of(tree.collected(key)[n].id),
    decreases tree, 1int, 0int,
{
    let all = tree.children.len() as int;
    lemma_children_collected_apart(tree, key, path, all);
    assert(tree.collected(key) =~= tree.collected_children(key, all));
    assert forall|n: int| 0 <= n < tree.collected(key).len() implies key.is_prefix_of(
        (#[trigger] tree.collected(key)[n]).short,
    ) && path.is_prefix_of(tree.collected(key)[n].id) by {
        let shortcut = tree.collected_children(key, all)[n];
        assert(comes_from_one(tree, key, path, all, shortcut));
        let j = choose|j: int| 0 <= j < all && comes_from(tree, key, path, j, shortcut);
        assert(comes_from(tree, key, path, j, shortcut));
        if tree.children[j].value is None {
            let longer = path + tree.children[j].prefix;
            assert(path =~= longer.subrange(0, path.len() as int));
            assert(path =~= shortcut.id.subrange(0, longer.len() as int).subrange(
                0,
                path.len() as int,
            ));
        }
    }
}

/// The shortcuts of the first `upto` children of a prefix tree are all apart,
/// and each comes from one of these children.
pub proof fn lemma_children_collected_apart(
    tree: TreeModel,
    key: Seq<char>,
    path: Seq<char>,
    upto: int,
)
    requires
        tree.laid_out(path),
        0 <= upto <= tree.children.len(),
    ensures
        all_apart(tree.collected_children(key, upto)),
        forall|n: int|
            0 <= n < tree.collected_children(key, upto).len() ==> comes_from_one(
                tree,
                key,
                path,
                upto,
                #[trigger] tree.collected_children(key, upto)[n],
            ),
    decreases tree, 0int, upto,
{
    if upto > 0 {
        let child = tree.children[upto - 1];
        let next = if tree.children.len() < 2 {
            key
        } else {
            key + child.prefix
        };
        let before = tree.collected_children(key, upto - 1);
        let added = child.collected(next);
        let now = tree.collected_children(key, upto);
        assert(now == before + added);
        lemma_children_collected_apart(tree, key, path, upto - 1);
        assert(tree.child_in_place(upto - 1, path));
        if child.value is Some {
            assert(child.collected_children(next, 0) =~= Seq::empty());
            assert(added =~= seq![ShortcutModel { short: next, id: path }]);
            assert(next =~= key);
        } else {
            lemma_collected_apart(child, next, path + child.prefix);
        }
        assert forall|n: int| before.len() <= n < now.len() implies comes_from(
            tree,
            key,
            path,
            upto - 1,
            #[trigger] now[n],
        ) by {
            let shortcut = added[n - before.len()];
            assert(now[n] == shortcut);
            if child.value is None {
                assert(next.is_prefix_of(shortcut.short));
                assert(key =~= next.subrange(0, key.len() as int));
                assert(key =~= shortcut.short.subrange(0, next.len() as int).subrange(
                    0,
                    key.len() as int,
                ));
            }
        }
        assert forall|n: int| 0 <= n < now.len() implies comes_from_one(
            tree,
            key,
            path,
            upto,
            #[trigger] now[n],
        ) by {
            if n < before.len() {
                assert(now[n] == before[n]);
                assert(comes_from_one(tree, key, path, upto - 1, before[n]));
                let j = choose|j: int|
                    0 <= j < upto - 1 && comes_from(tree, key, path, j, before[n]);
                assert(0 <= j < upto && comes_from(tree, key, path, j, now[n]));
            } else {
                assert(comes_from(tree, key, path, upto - 1, now[n]));
            }
        }
        assert forall|a: int, b: int| 0 <= a < b < now.len() implies (#[trigger] now[a]).short != (
        #[trigger] now[b]).short && now[a].id != now[b].id by {
            if b < before.len() {
                assert(now[a] == before[a]);
                assert(now[b] == before[b]);
            } else if a >= before.len() {
                assert(now[a] == added[a - before.len()]);
                assert(now[b] == added[b - before.len()]);
            } else {
                assert(now[a] == before[a]);
                assert(comes_from_one(tree, key, path, upto - 1, before[a]));
                let j = choose|j: int|
                    0 <= j < upto - 1 && comes_from(tree, key, path, j, before[a]);
                assert(comes_from(tree, key, path, upto - 1, now[b]));
                lemma_children_tell_apart(tree, key, path, j, upto - 1, now[a], now[b]);
            }
        }
    }
}

/// No two identifiers get the same short form, and no identifier gets two:
/// the shortcuts of any list of identifiers are all apart.
pub proof fn lemma_shortcuts_are_apart(ids: Seq<Seq<char>>)
    ensures
        all_apart(shortcuts_of(ids)),
{
    lemma_tree_is_laid_out(ids, ids.len() as int);
    lemma_collected_apart(tree_of(ids, ids.len() as int), Seq::empty(), Seq::empty());
}

impl TreeModel {
    /// Whether the identifier `id` is in the tree.
    pub open spec fn holds(self, id: Seq<char>) -> bool
        decreases self, 1int,
    {
        self.value == Some(id) || self.child_holds(id, self.children.len() as int)
    }

    /// Whether the identifier `id` is in the tree below one of the first
    /// `upto` children.
    pub open spec fn child_holds(self, id: Seq<char>, upto: int) -> bool
        decreases self, 0int,
    {
        exists|i: int|
            0 <= i < upto && i < self.children.len() && (#[trigger] self.children[i]).holds(id)
    }
}

/// Whether one of the shortcuts stands for the identifier `id`.
pub open spec fn lists(shortcuts: Seq<ShortcutModel>, id: Seq<char>) -> bool {
    exists|n: int| 0 <= n < shortcuts.len() && (#[trigger] shortcuts[n]).id == id
}

/// A tree with an identifier added holds that identifier, and what it held
/// before, and nothing else.
pub proof fn lemma_grown_holds(tree: TreeModel, id: Seq<char>, at: int, other: Seq<char>)
    requires
        0 <= at <= id.len(),
    ensures
        tree.grown(id, at).holds(other) <==> tree.holds(other) || other == id,
    decreases id.len() - at,
{
    let grown = tree.grown(id, at);
    lemma_grown_keeps_node(tree, id, at);
    let count = tree.children.len() as int;
    if at >= id.len() {
        if tree.has_leaf(id) {
            let j = choose|j: int|
                0 <= j < tree.children.len() && #[trigger] tree.children[j].value == Some(id);
            assert(tree.children[j].holds(id));
            assert(tree.child_holds(id, count));
        } else {
            let leaf = TreeModel::leaf(id);
            assert(grown.children == tree.children.push(leaf));
            assert(leaf.holds(other) <==> other == id) by {
                assert(!leaf.child_holds(other, 0));
            }
            lemma_pushed_child_holds(tree, leaf, other);
        }
    } else {
        let next = id.subrange(at, at + 1);
        if tree.none_called(next) {
            let fresh = TreeModel::node(next);
            assert(!fresh.holds(other)) by {
                assert(!fresh.child_holds(other, 0));
            }
            lemma_grown_holds(fresh, id, at + 1, other);
            let child = fresh.grown(id, at + 1);
            assert(grown.children == tree.children.push(child));
            lemma_pushed_child_holds(tree, child, other);
        } else {
            let k = choose|k: int| 0 <= k < tree.children.len() && tree.children[k].prefix == next;
            lemma_some_child_is_first(tree, next, k);
            let i = choose|i: int| tree.first_called(next, i);
            let old_child = tree.children[i];
            lemma_grown_holds(old_child, id, at + 1, other);
            let child = old_child.grown(id, at + 1);
            assert(grown.children == tree.children.update(i, child));
            if grown.child_holds(other, count) {
                let j = choose|j: int|
                    0 <= j < count && j < grown.children.len() && (
                    #[trigger] grown.children[j]).holds(other);
                if j != i {
                    assert(tree.children[j].holds(other));
                    assert(tree.child_holds(other, count));
                } else if other != id {
                    assert(tree.children[i].holds(other));
                    assert(tree.child_holds(other, count));
                }
            }
            if tree.child_holds(other, count) {
                let j = choose|j: int|
                    0 <= j < count && j < tree.children.len() && (
                    #[trigger] tree.children[j]).holds(other);
                assert(grown.children[j].holds(other));
                assert(grown.child_holds(other, count));
            }
            if other == id {
                assert(grown.children[i].holds(other));
                assert(grown.child_holds(other, count));
            }
        }
    }
}

/// A node with one more child holds what it held and what the child holds.
proof fn lemma_pushed_child_holds(tree: TreeModel, child: TreeModel, id: Seq<char>)
    ensures
        (TreeModel { children: tree.children.push(child), ..tree }).holds(id) <==> tree.holds(id)
            || child.holds(id),
{
    let more = TreeModel { children: tree.children.push(child), ..tree };
    let count = tree.children.len() as int;
    if more.child_holds(id, count + 1) {
        let j = choose|j: int|
            0 <= j < count + 1 && j < more.children.len() && (#[trigger] more.children[j]).holds(
                id,
            );
        if j < count {
            assert(tree.children[j].holds(id));
            assert(tree.child_holds(id, count));
        }
    }
    if tree.child_holds(id, count) {
        let j = choose|j: int|
            0 <= j < count && j < tree.children.len() && (#[trigger] tree.children[j]).holds(id);
        assert(more.children[j].holds(id));
        assert(more.child_holds(id, count + 1));
    }
    if child.holds(id) {
        assert(more.children[count].holds(id));
        assert(more.child_holds(id, count + 1));
    }
}

/// The shortcuts of a tree stand for the identifiers in the tree, for all of
/// them and for nothing else.
pub proof fn lemma_collected_lists_what_is_held(tree: TreeModel, key: Seq<char>, id: Seq<char>)
    ensures
        lists(tree.collected(key), id) <==> tree.holds(id),
    decreases tree, 1int, 0int,
{
    let all = tree.children.len() as int;
    let own = match tree.value {
        Some(held) => seq![ShortcutModel { short: key, id: held }],
        None => Seq::empty(),
    };
    let below = tree.collected_children(key, all);
    let whole = tree.collected(key);
    assert(whole == own + below);
    lemma_children_collected_list_what_is_held(tree, key, id, all);
    if lists(whole, id) {
        let n = choose|n: int| 0 <= n < whole.len() && (#[trigger] whole[n]).id == id;
        if n < own.len() {
            assert(whole[n] == own[n]);
        } else {
            assert(whole[n] == below[n - own.len()]);
            assert(lists(below, id));
        }
    }
    if tree.value == Some(id) {
        assert(whole[0].id == id);
    }
    if lists(below, id) {
        let n = choose|n: int| 0 <= n < below.len() && (#[trigger] below[n]).id == id;
        assert(whole[own.len() + n] == below[n]);
    }
}

/// The shortcuts of the first `upto` children of a tree stand for the
/// identifiers in the trees below these children, for all of them and for
/// nothing else.
pub proof fn lemma_children_collected_list_what_is_held(
    tree: TreeModel,
    key: Seq<char>,
    id: Seq<char>,
    upto: int,
)
    requires
        0 <= upto <= tree.children.len(),
    ensures
        lists(tree.collected_children(key, upto), id) <==> tree.child_holds(id, upto),
    decreases tree, 0int, upto,
{
    if upto > 0 {
        let child = tree.children[upto - 1];
        let next = if tree.children.len() < 2 {
            key
        } else {
            key + child.prefix
        };
        let before = tree.collected_children(key, upto - 1);
        let added = child.collected(next);
        let now = tree.collected_children(key, upto);
        assert(now == before + added);
        lemma_children_collected_list_what_is_held(tree, key, id, upto - 1);
        lemma_collected_lists_what_is_held(child, next, id);
        if lists(now, id) {
            let n = choose|n: int| 0 <= n < now.len() && (#[trigger] now[n]).id == id;
            if n < before.len() {
                assert(now[n] == before[n]);
                assert(lists(before, id));
                let j = choose|j: int|
                    0 <= j < upto - 1 && j < tree.children.len() && (
                    #[trigger] tree.children[j]).holds(id);
                assert(tree.child_holds(id, upto));
            } else {
                assert(now[n] == added[n - before.len()]);
                assert(lists(added, id));
                assert(tree.children[upto - 1].holds(id));
                assert(tree.child_holds(id, upto));
            }
        }
        if tree.child_holds(id, upto) {
            let j = choose|j: int|
                0 <= j < upto && j < tree.children.len() && (#[trigger] tree.children[j]).holds(
                    id,
                );
            if j < upto - 1 {
                assert(tree.child_holds(id, upto - 1));
                let n = choose|n: int| 0 <= n < before.len() && (#[trigger] before[n]).id == id;
                assert(now[n] == before[n]);
            } else {
                let n = choose|n: int| 0 <= n < added.len() && (#[trigger] added[n]).id == id;
                assert(now[before.len() + n] == added[n]);
            }
        }
    } else {
        assert(tree.collected_children(key, 0) =~= Seq::empty());
    }
}

/// The tree of the first `count` identifiers of a list holds these
/// identifiers and nothing else.
pub proof fn lemma_tree_holds_its_identifiers(ids: Seq<Seq<char>>, count: int, id: Seq<char>)
    requires
        0 <= count <= ids.len(),
    ensures
        tree_of(ids, count).holds(id) <==> exists|k: int| 0 <= k < count && #[trigger] ids[k] == id,
    decreases count,
{
    if count > 0 {
        lemma_tree_holds_its_identifiers(ids, count - 1, id);
        lemma_grown_holds(tree_of(ids, count - 1), ids[count - 1], 0, id);
        if exists|k: int| 0 <= k < count - 1 && #[trigger] ids[k] == id {
            let k = choose|k: int| 0 <= k < count - 1 && #[trigger] ids[k] == id;
            assert(0 <= k < count && ids[k] == id);
        }
        if id == ids[count - 1] {
            assert(0 <= count - 1 < count && ids[count - 1] == id);
        }
    } else {
        let empty = TreeModel::node(Seq::empty());
        assert(!empty.child_holds(id, 0));
    }
}

/// Every identifier of a list gets a shortcut, and every shortcut stands for
/// an identifier of the list.
pub proof fn lemma_shortcuts_cover_the_identifiers(ids: Seq<Seq<char>>, id: Seq<char>)
    ensures
        lists(shortcuts_of(ids), id) <==> exists|k: int|
            0 <= k < ids.len() && #[trigger] ids[k] == id,
{
    lemma_tree_holds_its_identifiers(ids, ids.len() as int, id);
    lemma_collected_lists_what_is_held(tree_of(ids, ids.len() as int), Seq::empty(), id);
}

} // verus!
