//! Document nodes and the arena that owns them: element classification,
//! node content, the handle-addressed tree store, attribute linking, and
//! tag-name queries over a built document.

use vstd::prelude::*;
use crate::cache::{first_match, first_match_at, lemma_first_match_at};
use crate::text::{str_eq, parse_int, parse_i64};

verus! {

/// The closed set of element kinds this core distinguishes. An image
/// carries its pixel geometry; every unrecognized tag is `Unknown`.
#[derive(Clone, Copy, PartialEq, Eq, Structural, Debug)]
pub enum ElementKind {
    Div,
    Image { width: i64, height: i64 },
    Script,
    Head,
    Unknown,
}

pub open spec fn spec_classify(name: Seq<char>) -> ElementKind {
    if name == "div"@ {
        ElementKind::Div
    } else if name == "img"@ {
        ElementKind::Image { width: 100, height: 100 }
    } else if name == "script"@ {
        ElementKind::Script
    } else if name == "head"@ {
        ElementKind::Head
    } else {
        ElementKind::Unknown
    }
}

/// Map a tag name to its element kind. Total: an unrecognized name yields
/// `Unknown`, never an error, so parsing cannot abort on strange markup.
/// An image starts with the default 100 by 100 pixel geometry.
pub fn build_element_kind(tag_name: &str) -> (k: ElementKind)
    ensures
        k == spec_classify(tag_name@),
{
    if str_eq(tag_name, "div") {
        ElementKind::Div
    } else if str_eq(tag_name, "img") {
        ElementKind::Image { width: 100, height: 100 }
    } else if str_eq(tag_name, "script") {
        ElementKind::Script
    } else if str_eq(tag_name, "head") {
        ElementKind::Head
    } else {
        ElementKind::Unknown
    }
}

/// The mathematical shape of an element: its tag, kind, and attribute list
/// in insertion order.
#[verifier::ext_equal]
pub ghost struct ElementModel {
    pub tag_name: Seq<char>,
    pub kind: ElementKind,
    pub attrs: Seq<(Seq<char>, Seq<char>)>,
}

/// An element node's payload: tag name, kind, and attributes in insertion
/// order.
pub struct ElementData {
    pub tag_name: String,
    pub kind: ElementKind,
    pub attrs: Vec<(String, String)>,
}

impl View for ElementData {
    type V = ElementModel;

    open spec fn view(&self) -> ElementModel {
        ElementModel { tag_name: self.tag_name@, kind: self.kind, attrs: self.attrs.deep_view() }
    }
}

impl ElementData {
    pub fn new(tag_name: String, kind: ElementKind) -> (e: ElementData)
        ensures
            e@ == (ElementModel { tag_name: tag_name@, kind: kind, attrs: Seq::empty() }),
    {
        let e = ElementData { tag_name, kind, attrs: Vec::new() };
        proof {
            assert(e.attrs.deep_view() =~= Seq::<(Seq<char>, Seq<char>)>::empty());
        }
        e
    }

    /// The value of the first attribute recorded under `key`, if any.
    pub fn get_attr(&self, key: &str) -> (r: Option<String>)
        ensures
            (match first_match(self@.attrs, key@) {
                Some(v) => r matches Some(x) && x@ == v,
                None => r is None,
            }),
    {
        proof {
            lemma_first_match_at(self@.attrs, key@);
        }
        let n = self.attrs.len();
        let mut i: usize = 0;
        while i < n
            invariant
                i <= n,
                n == self.attrs@.len(),
                forall|j: int| 0 <= j < i ==> self@.attrs[j].0 != key@,
            decreases n - i,
        {
            if str_eq(self.attrs[i].0.as_str(), key) {
                proof {
                    lemma_first_match_at(self@.attrs, key@);
                    assert(self@.attrs[i as int].0 == self.attrs@[i as int].0@);
                    assert(first_match_at(self@.attrs, key@) == i);
                }
                return Some(self.attrs[i].1.clone());
            }
            i += 1;
        }
        proof {
            lemma_first_match_at(self@.attrs, key@);
        }
        None
    }
}

/// The mathematical shape of a node's payload.
#[verifier::ext_equal]
pub ghost enum ContentModel {
    Element(ElementModel),
    Text(Seq<char>),
}

/// What a node holds: an element or a run of text.
pub enum NodeContent {
    Element(ElementData),
    Text(String),
}

impl View for NodeContent {
    type V = ContentModel;

    open spec fn view(&self) -> ContentModel {
        match self {
            NodeContent::Element(e) => ContentModel::Element(e@),
            NodeContent::Text(s) => ContentModel::Text(s@),
        }
    }
}

/// The mathematical shape of a stored node: payload, parent handle, and
/// child handles in insertion order.
#[verifier::ext_equal]
pub ghost struct NodeModel {
    pub content: ContentModel,
    pub parent: Option<int>,
    pub children: Seq<int>,
}

struct NodeRec {
    content: NodeContent,
    parent: Option<usize>,
    children: Vec<usize>,
}

impl View for NodeRec {
    type V = NodeModel;

    closed spec fn view(&self) -> NodeModel {
        NodeModel {
            content: self.content@,
            parent: (match self.parent {
                Some(p) => Some(p as int),
                None => None,
            }),
            children: Seq::new(self.children@.len(), |i: int| self.children@[i] as int),
        }
    }
}

/// A node is well formed when its parent, if any, is an earlier element
/// node, and its children are all later nodes of the store.
pub open spec fn node_wf(nodes: Seq<NodeModel>, i: int) -> bool {
    &&& (match nodes[i].parent {
        Some(p) => 0 <= p < i && nodes[p].content is Element,
        None => true,
    })
    &&& (forall|j: int|
        0 <= j < nodes[i].children.len() ==> i < #[trigger] nodes[i].children[j] < nodes.len())
}

/// An arena of document nodes addressed by handles (indices). Nodes are
/// never removed; a child is always created after its parent, so handles
/// grow from the root outward.
pub struct TreeStore {
    nodes: Vec<NodeRec>,
}

impl View for TreeStore {
    type V = Seq<NodeModel>;

    closed spec fn view(&self) -> Seq<NodeModel> {
        Seq::new(self.nodes@.len(), |i: int| self.nodes@[i]@)
    }
}

impl TreeStore {
    pub open spec fn wf(&self) -> bool {
        forall|i: int| 0 <= i < self@.len() ==> #[trigger] node_wf(self@, i)
    }

    pub fn new() -> (s: TreeStore)
        ensures
            s@ == Seq::<NodeModel>::empty(),
            s.wf(),
    {
        let s = TreeStore { nodes: Vec::new() };
        proof {
            assert(s@ =~= Seq::<NodeModel>::empty());
        }
        s
    }

    pub fn len(&self) -> (n: usize)
        ensures
            n == self@.len(),
    {
        self.nodes.len()
    }

    /// Create a parentless, childless node holding `content`; its handle is
    /// the next free index.
    pub fn new_node(&mut self, content: NodeContent) -> (h: usize)
        ensures
            h == old(self)@.len(),
            final(self)@ == old(self)@.push(
                NodeModel { content: content@, parent: None, children: Seq::empty() },
            ),
            old(self).wf() ==> final(self).wf(),
    {
        let h = self.nodes.len();
        let ghost m = NodeModel { content: content@, parent: None, children: Seq::empty() };
        self.nodes.push(NodeRec { content, parent: None, children: Vec::new() });
        proof {
            assert(self@[h as int].children =~= Seq::<int>::empty());
            assert(self@ =~= old(self)@.push(m));
            if old(self).wf() {
                assert forall|i: int| 0 <= i < self@.len() implies #[trigger] node_wf(
                    self@,
                    i,
                ) by {
                    if i < h {
                        assert(node_wf(old(self)@, i));
                    }
                }
            }
        }
        h
    }

    /// Attach `child` (a later, still parentless node) under the element
    /// node `parent`.
    pub fn add_child(&mut self, parent: usize, child: usize)
        requires
            parent < child < old(self)@.len(),
            old(self)@[parent as int].content is Element,
            old(self)@[child as int].parent is None,
        ensures
            final(self)@ == old(self)@.update(
                parent as int,
                NodeModel {
                    content: old(self)@[parent as int].content,
                    parent: old(self)@[parent as int].parent,
                    children: old(self)@[parent as int].children.push(child as int),
                },
            ).update(
                child as int,
                NodeModel {
                    content: old(self)@[child as int].content,
                    parent: Some(parent as int),
                    children: old(self)@[child as int].children,
                },
            ),
            old(self).wf() ==> final(self).wf(),
    {
        let ghost target = old(self)@.update(
            parent as int,
            NodeModel {
                content: old(self)@[parent as int].content,
                parent: old(self)@[parent as int].parent,
                children: old(self)@[parent as int].children.push(child as int),
            },
        ).update(
            child as int,
            NodeModel {
                content: old(self)@[child as int].content,
                parent: Some(parent as int),
                children: old(self)@[child as int].children,
            },
        );
        let pr = &mut self.nodes[parent];
        pr.children.push(child);
        let cr = &mut self.nodes[child];
        cr.parent = Some(parent);
        proof {
            assert(self@[parent as int].children =~= old(self)@[parent as int].children.push(
                child as int,
            ));
            assert(self@ =~= target);
            if old(self).wf() {
                assert forall|i: int| 0 <= i < self@.len() implies #[trigger] node_wf(
                    self@,
                    i,
                ) by {
                    assert(node_wf(old(self)@, i));
                    if i == parent {
                        assert forall|j: int|
                            0 <= j < self@[i].children.len() implies i < #[trigger] self@[i].children[j]
                            < self@.len() by {
                            if j < self@[i].children.len() - 1 {
                                assert(self@[i].children[j] == old(self)@[i].children[j]);
                            }
                        }
                    }
                }
            }
        }
    }

    /// The parent handle of `h`, or `None` for a root.
    pub fn get_parent(&self, h: usize) -> (r: Option<usize>)
        requires
            h < self@.len(),
        ensures
            r is Some <==> self@[h as int].parent is Some,
            (r matches Some(p) ==> self@[h as int].parent == Some(p as int)),
    {
        self.nodes[h].parent
    }

    /// Read the payload of `h`.
    pub fn read(&self, h: usize) -> (c: &NodeContent)
        requires
            h < self@.len(),
        ensures
            c@ == self@[h as int].content,
    {
        &self.nodes[h].content
    }
}

/// The element model after linking `(key, value)`: the pair is always
/// appended to the attribute list; on an image, a `width` or `height` key
/// whose value parses as an integer also updates that axis of the
/// geometry, and a value that does not parse leaves the geometry alone.
pub open spec fn link_spec(e: ElementModel, key: Seq<char>, value: Seq<char>) -> ElementModel {
    let appended = ElementModel {
        tag_name: e.tag_name,
        kind: e.kind,
        attrs: e.attrs.push((key, value)),
    };
    match e.kind {
        ElementKind::Image { width, height } => {
            match parse_i64(value) {
                Some(v) => if key == "width"@ {
                    ElementModel {
                        tag_name: appended.tag_name,
                        kind: ElementKind::Image { width: v as i64, height: height },
                        attrs: appended.attrs,
                    }
                } else if key == "height"@ {
                    ElementModel {
                        tag_name: appended.tag_name,
                        kind: ElementKind::Image { width: width, height: v as i64 },
                        attrs: appended.attrs,
                    }
                } else {
                    appended
                },
                None => appended,
            }
        },
        _ => appended,
    }
}

/// Record the attribute `(key, value)` on the element node `node`.
/// Linking onto a text node is a builder-invariant violation and is ruled
/// out by precondition.
pub fn link_up_attribute(store: &mut TreeStore, node: usize, key: String, value: String)
    requires
        node < old(store)@.len(),
        old(store)@[node as int].content is Element,
    ensures
        final(store)@ == old(store)@.update(
            node as int,
            NodeModel {
                content: ContentModel::Element(
                    link_spec(old(store)@[node as int].content->Element_0, key@, value@),
                ),
                parent: old(store)@[node as int].parent,
                children: old(store)@[node as int].children,
            },
        ),
        old(store).wf() ==> final(store).wf(),
    {
        let ghost target = old(store)@.update(
            node as int,
            NodeModel {
                content: ContentModel::Element(
                    link_spec(old(store)@[node as int].content->Element_0, key@, value@),
                ),
                parent: old(store)@[node as int].parent,
                children: old(store)@[node as int].children,
            },
        );
        let is_width = str_eq(key.as_str(), "width");
        let is_height = str_eq(key.as_str(), "height");
        let geom = if is_width || is_height {
            parse_int(value.as_str())
        } else {
            None
        };
        let ghost key_view = key@;
        let ghost value_view = value@;
        let rec = &mut store.nodes[node];
        match &mut rec.content {
            NodeContent::Element(ed) => {
                ed.attrs.push((key, value));
                proof {
                    assert(ed.attrs.deep_view() =~= old(store)@[node as int].content->Element_0.attrs.push(
                        (key_view, value_view),
                    ));
                }
                match &mut ed.kind {
                    ElementKind::Image { width, height } => {
                        match geom {
                            Some(v) => {
                                if is_width {
                                    *width = v;
                                } else if is_height {
                                    *height = v;
                                }
                            },
                            None => {},
                        }
                    },
                    _ => {},
                }
            },
            NodeContent::Text(_) => {
                proof {
                    assert(false);
                }
            },
        }
        proof {
            assert(store@ =~= target);
            if old(store).wf() {
                assert forall|i: int| 0 <= i < store@.len() implies #[trigger] node_wf(
                    store@,
                    i,
                ) by {
                    assert(node_wf(old(store)@, i));
                }
            }
        }
    }

/// Whether node `i` lies in the subtree rooted at `root`: it is `root`
/// itself or its parent chain passes through `root`.
pub open spec fn is_desc(nodes: Seq<NodeModel>, i: int, root: int) -> bool
    decreases i,
{
    if i == root {
        true
    } else {
        match nodes[i].parent {
            Some(p) => if 0 <= p < i {
                is_desc(nodes, p, root)
            } else {
                false
            },
            None => false,
        }
    }
}

/// The handles below `upto` that lie under `root` and hold an element
/// tagged `tag`, in ascending handle order; handles are issued in document
/// order, so this is also the order in which the elements were created.
pub open spec fn tagged_descendants(
    nodes: Seq<NodeModel>,
    upto: int,
    root: int,
    tag: Seq<char>,
) -> Seq<int>
    decreases upto,
{
    if upto <= 0 {
        Seq::empty()
    } else {
        let rest = tagged_descendants(nodes, upto - 1, root, tag);
        if is_desc(nodes, upto - 1, root) && (nodes[upto - 1].content matches ContentModel::Element(
            e,
        ) && e.tag_name == tag) {
            rest.push(upto - 1)
        } else {
            rest
        }
    }
}

/// A document: the handle of its root node. The surrounding system keeps
/// the script-engine bookkeeping for a document outside this core.
pub struct Document {
    pub root: usize,
}

impl Document {
    pub fn new(root: usize) -> (d: Document)
        ensures
            d.root == root,
    {
        Document { root }
    }

    /// All element nodes under the document root whose tag name equals
    /// `tag`, in ascending handle (creation) order.
    #[allow(non_snake_case)]
    pub fn getElementsByTagName(&self, store: &TreeStore, tag: &str) -> (r: Vec<usize>)
        requires
            store.wf(),
            self.root < store@.len(),
        ensures
            r@.map_values(|u: usize| u as int) == tagged_descendants(
                store@,
                store@.len() as int,
                self.root as int,
                tag@,
            ),
    {
        let n = store.len();
        let mut r: Vec<usize> = Vec::new();
        proof {
            assert(r@.map_values(|u: usize| u as int) =~= tagged_descendants(
                store@,
                0,
                self.root as int,
                tag@,
            ));
        }
        let mut i: usize = 0;
        while i < n
            invariant
                i <= n,
                n == store@.len(),
                store.wf(),
                self.root < store@.len(),
                r@.map_values(|u: usize| u as int) == tagged_descendants(
                    store@,
                    i as int,
                    self.root as int,
                    tag@,
                ),
            decreases n - i,
        {
            let keep = (match store.read(i) {
                NodeContent::Element(ed) => str_eq(ed.tag_name.as_str(), tag),
                NodeContent::Text(_) => false,
            }) && is_descendant(store, i, self.root);
            if keep {
                let ghost before = r@;
                r.push(i);
                proof {
                    assert(r@.map_values(|u: usize| u as int) =~= before.map_values(
                        |u: usize| u as int,
                    ).push(i as int));
                }
            }
            i += 1;
        }
        r
    }
}

/// Walk the parent chain of `i` looking for `root`.
fn is_descendant(store: &TreeStore, i: usize, root: usize) -> (r: bool)
    requires
        store.wf(),
        i < store@.len(),
        root < store@.len(),
    ensures
        r == is_desc(store@, i as int, root as int),
{
    let mut cur = i;
    while cur != root
        invariant
            cur < store@.len(),
            store.wf(),
            root < store@.len(),
            is_desc(store@, i as int, root as int) == is_desc(store@, cur as int, root as int),
        decreases cur,
    {
        proof {
            assert(node_wf(store@, cur as int));
        }
        match store.get_parent(cur) {
            Some(p) => {
                cur = p;
            },
            None => {
                return false;
            },
        }
    }
    true
}

} // verus!
