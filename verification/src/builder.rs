//! The tree builder: a state machine that consumes lexer tokens, grows the
//! node tree under a cursor, and records the style-sheet and script links
//! it discovers, in discovery order, for the resource collectors.

use vstd::prelude::*;
use crate::cache::first_match;
use crate::dom::{
    build_element_kind, link_spec, node_wf, spec_classify, ContentModel, ElementData,
    ElementKind, ElementModel, NodeContent, NodeModel, TreeStore,
};
use crate::text::{blank, is_blank, str_eq};

verus! {

/// A unit of lexical output from the external markup lexer.
pub enum Token {
    StartOpeningTag(String),
    Attr(String, String),
    EndOpeningTag,
    SelfCloseTag,
    EndTag(String),
    Text(String),
    Doctype,
    Eof,
}

/// Closing more tags than were opened would walk past the synthetic root;
/// it is reported instead of chased.
#[derive(Clone, Copy, PartialEq, Eq, Structural, Debug)]
pub enum BuildError {
    TagUnderflow,
}

/// A discovered resource link: the kind of the element it came from and
/// the URL text it carried. URL resolution against the document base is
/// the caller's affair.
pub struct LinkRequest {
    pub kind: ElementKind,
    pub url: String,
}

/// The mathematical shape of a discovered link.
#[verifier::ext_equal]
pub ghost struct LinkModel {
    pub kind: ElementKind,
    pub url: Seq<char>,
}

impl View for LinkRequest {
    type V = LinkModel;

    open spec fn view(&self) -> LinkModel {
        LinkModel { kind: self.kind, url: self.url@ }
    }
}

impl DeepView for LinkRequest {
    type V = LinkModel;

    open spec fn deep_view(&self) -> LinkModel {
        self@
    }
}

/// The mathematical state of a builder: the node arena, the cursor, and
/// the two link lists in discovery order.
#[verifier::ext_equal]
pub ghost struct BuilderModel {
    pub nodes: Seq<NodeModel>,
    pub cursor: int,
    pub style_links: Seq<LinkModel>,
    pub script_links: Seq<LinkModel>,
}

/// The builder's running invariant: a well-formed arena whose cursor is a
/// live element node.
pub open spec fn model_inv(m: BuilderModel) -> bool {
    &&& forall|i: int| 0 <= i < m.nodes.len() ==> #[trigger] node_wf(m.nodes, i)
    &&& 0 <= m.cursor < m.nodes.len()
    &&& m.nodes[m.cursor].content is Element
}

/// The state a builder starts in: one synthetic root element, tagged
/// `html`, holding the cursor.
pub open spec fn init_model() -> BuilderModel {
    BuilderModel {
        nodes: seq![
            NodeModel {
                content: ContentModel::Element(
                    ElementModel {
                        tag_name: "html"@,
                        kind: ElementKind::Div,
                        attrs: Seq::empty(),
                    },
                ),
                parent: None,
                children: Seq::empty(),
            },
        ],
        cursor: 0,
        style_links: Seq::empty(),
        script_links: Seq::empty(),
    }
}

/// Whether `t` can be taken in state `m`: only closing a tag while the
/// cursor already sits on the parentless root is refused.
pub open spec fn step_ok(m: BuilderModel, t: Token) -> bool {
    match t {
        Token::SelfCloseTag => m.nodes[m.cursor].parent is Some,
        Token::EndTag(_) => m.nodes[m.cursor].parent is Some,
        _ => true,
    }
}

/// `m` with a fresh node holding `content` attached under the cursor.
pub open spec fn spec_add_node(m: BuilderModel, content: ContentModel) -> BuilderModel {
    let h = m.nodes.len() as int;
    let cur = m.nodes[m.cursor];
    BuilderModel {
        nodes: m.nodes.update(
            m.cursor,
            NodeModel {
                content: cur.content,
                parent: cur.parent,
                children: cur.children.push(h),
            },
        ).push(NodeModel { content: content, parent: Some(m.cursor), children: Seq::empty() }),
        cursor: m.cursor,
        style_links: m.style_links,
        script_links: m.script_links,
    }
}

/// The style link a `link rel="stylesheet"` element with an `href`
/// contributes on close, if any.
pub open spec fn style_link_of(e: ElementModel) -> Option<LinkModel> {
    if e.tag_name == "link"@ && first_match(e.attrs, "rel"@) == Some("stylesheet"@) {
        match first_match(e.attrs, "href"@) {
            Some(u) => Some(LinkModel { kind: e.kind, url: u }),
            None => None,
        }
    } else {
        None
    }
}

/// The script link a `script` element with a `src` contributes on close,
/// if any.
pub open spec fn script_link_of(e: ElementModel) -> Option<LinkModel> {
    if e.tag_name == "script"@ {
        match first_match(e.attrs, "src"@) {
            Some(u) => Some(LinkModel { kind: e.kind, url: u }),
            None => None,
        }
    } else {
        None
    }
}

/// One transition of the builder state machine, for a token that
/// `step_ok` admits. `Eof` is a no-op here; the driving loop stops on it.
pub open spec fn step_spec(m: BuilderModel, t: Token) -> BuilderModel {
    match t {
        Token::StartOpeningTag(name) => {
            let h = m.nodes.len() as int;
            let m1 = spec_add_node(
                m,
                ContentModel::Element(
                    ElementModel {
                        tag_name: name@,
                        kind: spec_classify(name@),
                        attrs: Seq::empty(),
                    },
                ),
            );
            BuilderModel {
                nodes: m1.nodes,
                cursor: h,
                style_links: m1.style_links,
                script_links: m1.script_links,
            }
        },
        Token::Attr(key, value) => {
            let cur = m.nodes[m.cursor];
            BuilderModel {
                nodes: m.nodes.update(
                    m.cursor,
                    NodeModel {
                        content: ContentModel::Element(
                            link_spec(cur.content->Element_0, key@, value@),
                        ),
                        parent: cur.parent,
                        children: cur.children,
                    },
                ),
                cursor: m.cursor,
                style_links: m.style_links,
                script_links: m.script_links,
            }
        },
        Token::EndOpeningTag => m,
        Token::SelfCloseTag => {
            let e = m.nodes[m.cursor].content->Element_0;
            BuilderModel {
                nodes: m.nodes,
                cursor: m.nodes[m.cursor].parent->Some_0,
                style_links: (match style_link_of(e) {
                    Some(l) => m.style_links.push(l),
                    None => m.style_links,
                }),
                script_links: m.script_links,
            }
        },
        Token::EndTag(_) => {
            let e = m.nodes[m.cursor].content->Element_0;
            BuilderModel {
                nodes: m.nodes,
                cursor: m.nodes[m.cursor].parent->Some_0,
                style_links: m.style_links,
                script_links: (match script_link_of(e) {
                    Some(l) => m.script_links.push(l),
                    None => m.script_links,
                }),
            }
        },
        Token::Text(s) => {
            if is_blank(s@) {
                m
            } else {
                spec_add_node(m, ContentModel::Text(s@))
            }
        },
        Token::Doctype => m,
        Token::Eof => m,
    }
}

/// Fold the state machine over a token sequence, stopping at the first
/// `Eof` (or when the sequence is exhausted) and failing on the first
/// refused transition.
pub open spec fn build_spec(m: BuilderModel, tokens: Seq<Token>) -> Result<
    BuilderModel,
    BuildError,
>
    decreases tokens.len(),
{
    if tokens.len() == 0 {
        Ok(m)
    } else if tokens[0] is Eof {
        Ok(m)
    } else if !step_ok(m, tokens[0]) {
        Err(BuildError::TagUnderflow)
    } else {
        build_spec(step_spec(m, tokens[0]), tokens.drop_first())
    }
}


/// How a token moves the nesting depth: a tag open descends one level, a
/// tag close ascends one.
pub open spec fn token_delta(t: Token) -> int {
    match t {
        Token::StartOpeningTag(_) => 1,
        Token::SelfCloseTag => -1,
        Token::EndTag(_) => -1,
        _ => 0,
    }
}

/// The net nesting depth change of a token sequence.
pub open spec fn balance(tokens: Seq<Token>) -> int
    decreases tokens.len(),
{
    if tokens.len() == 0 {
        0
    } else {
        token_delta(tokens[0]) + balance(tokens.drop_first())
    }
}

/// No prefix of the stream closes more tags than it opens.
pub open spec fn never_underflows(tokens: Seq<Token>) -> bool {
    forall|k: int| 0 <= k <= tokens.len() ==> balance(#[trigger] tokens.take(k)) >= 0
}

/// How many parent links lead from node `i` to a root.
pub open spec fn depth(nodes: Seq<NodeModel>, i: int) -> int
    decreases i,
{
    match nodes[i].parent {
        Some(p) => if 0 <= p < i {
            1 + depth(nodes, p)
        } else {
            0
        },
        None => 0,
    }
}

proof fn lemma_depth_nonneg(nodes: Seq<NodeModel>, i: int)
    ensures
        depth(nodes, i) >= 0,
    decreases i,
{
    match nodes[i].parent {
        Some(p) => {
            if 0 <= p < i {
                lemma_depth_nonneg(nodes, p);
            }
        },
        None => {},
    }
}

/// Depth only follows parent links, so any change that leaves every parent
/// link in place leaves every depth in place.
proof fn lemma_depth_stable(nodes1: Seq<NodeModel>, nodes2: Seq<NodeModel>, i: int)
    requires
        forall|j: int| 0 <= j <= i ==> nodes1[j].parent == nodes2[j].parent,
    ensures
        depth(nodes1, i) == depth(nodes2, i),
    decreases i,
{
    if 0 <= i {
        match nodes1[i].parent {
            Some(p) => {
                if 0 <= p < i {
                    lemma_depth_stable(nodes1, nodes2, p);
                }
            },
            None => {},
        }
    }
}

/// A step both keeps the builder invariant and moves the cursor's depth by
/// exactly the token's nesting delta.
pub proof fn lemma_step_preserves_inv(m: BuilderModel, t: Token)
    requires
        model_inv(m),
        step_ok(m, t),
    ensures
        model_inv(step_spec(m, t)),
        step_spec(m, t).nodes.len() >= m.nodes.len(),
        depth(step_spec(m, t).nodes, step_spec(m, t).cursor) == depth(m.nodes, m.cursor)
            + token_delta(t),
{
    let m1 = step_spec(m, t);
    match t {
        Token::StartOpeningTag(_) => {
            lemma_add_node_wf(m, m1.nodes[m1.cursor].content);
            lemma_depth_stable(m.nodes, m1.nodes, m.cursor);
        },
        Token::Attr(_, _) => {
            assert forall|i: int| 0 <= i < m1.nodes.len() implies #[trigger] node_wf(
                m1.nodes,
                i,
            ) by {
                assert(node_wf(m.nodes, i));
            }
            lemma_depth_stable(m.nodes, m1.nodes, m.cursor);
        },
        Token::EndOpeningTag => {},
        Token::SelfCloseTag => {
            assert(node_wf(m.nodes, m.cursor));
        },
        Token::EndTag(_) => {
            assert(node_wf(m.nodes, m.cursor));
        },
        Token::Text(s) => {
            if !is_blank(s@) {
                lemma_add_node_wf(m, ContentModel::Text(s@));
                lemma_depth_stable(m.nodes, m1.nodes, m.cursor);
            }
        },
        Token::Doctype => {},
        Token::Eof => {},
    }
}

/// Attaching a fresh node under the cursor keeps every node well formed.
proof fn lemma_add_node_wf(m: BuilderModel, content: ContentModel)
    requires
        model_inv(m),
    ensures
        forall|i: int|
            0 <= i < spec_add_node(m, content).nodes.len() ==> #[trigger] node_wf(
                spec_add_node(m, content).nodes,
                i,
            ),
{
    let nodes1 = spec_add_node(m, content).nodes;
    let h = m.nodes.len() as int;
    assert forall|i: int| 0 <= i < nodes1.len() implies #[trigger] node_wf(nodes1, i) by {
        if i < h {
            assert(node_wf(m.nodes, i));
            if i == m.cursor {
                assert forall|j: int|
                    0 <= j < nodes1[i].children.len() implies i < #[trigger] nodes1[i].children[j]
                    < nodes1.len() by {
                    if j < nodes1[i].children.len() - 1 {
                        assert(nodes1[i].children[j] == m.nodes[i].children[j]);
                    }
                }
            }
        }
    }
}

/// The builder: the store of nodes built so far, the cursor receiving new
/// children, and the resource links discovered so far.
pub struct Builder {
    store: TreeStore,
    cursor: usize,
    style_links: Vec<LinkRequest>,
    script_links: Vec<LinkRequest>,
}

impl View for Builder {
    type V = BuilderModel;

    closed spec fn view(&self) -> BuilderModel {
        BuilderModel {
            nodes: self.store@,
            cursor: self.cursor as int,
            style_links: self.style_links.deep_view(),
            script_links: self.script_links.deep_view(),
        }
    }
}

impl Builder {
    pub open spec fn inv(&self) -> bool {
        model_inv(self@)
    }

    /// A builder over a fresh store holding only the synthetic root.
    pub fn new() -> (b: Builder)
        ensures
            b.inv(),
            b@ == init_model(),
    {
        let mut store = TreeStore::new();
        let ed = ElementData::new("html".to_owned(), ElementKind::Div);
        let h = store.new_node(NodeContent::Element(ed));
        let b = Builder { store, cursor: h, style_links: Vec::new(), script_links: Vec::new() };
        proof {
            assert(b@ =~~= init_model());
        }
        b
    }

    /// Apply one token. The only refused transition is a tag close on the
    /// parentless root, reported as `TagUnderflow` with the state left
    /// unchanged.
    pub fn step(&mut self, t: &Token) -> (r: Result<(), BuildError>)
        requires
            old(self).inv(),
        ensures
            final(self).inv(),
            (match r {
                Ok(_) => step_ok(old(self)@, *t) && final(self)@ == step_spec(old(self)@, *t),
                Err(e) => !step_ok(old(self)@, *t) && e == BuildError::TagUnderflow
                    && final(self)@ == old(self)@,
            }),
    {
        match t {
            Token::StartOpeningTag(name) => {
                let kind = build_element_kind(name.as_str());
                let ed = ElementData::new(name.clone(), kind);
                let h = self.store.new_node(NodeContent::Element(ed));
                self.store.add_child(self.cursor, h);
                self.cursor = h;
                proof {
                    lemma_step_preserves_inv(old(self)@, *t);
                    assert(self@ =~~= step_spec(old(self)@, *t));
                }
                Ok(())
            },
            Token::Attr(key, value) => {
                crate::dom::link_up_attribute(
                    &mut self.store,
                    self.cursor,
                    key.clone(),
                    value.clone(),
                );
                proof {
                    lemma_step_preserves_inv(old(self)@, *t);
                    assert(self@ =~~= step_spec(old(self)@, *t));
                }
                Ok(())
            },
            Token::EndOpeningTag => {
                proof {
                    lemma_step_preserves_inv(old(self)@, *t);
                    assert(self@ =~~= step_spec(old(self)@, *t));
                }
                Ok(())
            },
            Token::SelfCloseTag => {
                match self.store.get_parent(self.cursor) {
                    None => Err(BuildError::TagUnderflow),
                    Some(p) => {
                        let link = (match self.store.read(self.cursor) {
                            NodeContent::Element(ed) => {
                                if str_eq(ed.tag_name.as_str(), "link") {
                                    let rel_ok = (match ed.get_attr("rel") {
                                        Some(r) => str_eq(r.as_str(), "stylesheet"),
                                        None => false,
                                    });
                                    if rel_ok {
                                        match ed.get_attr("href") {
                                            Some(u) => Some(
                                                LinkRequest { kind: ed.kind, url: u },
                                            ),
                                            None => None,
                                        }
                                    } else {
                                        None
                                    }
                                } else {
                                    None
                                }
                            },
                            NodeContent::Text(_) => None,
                        });
                        match link {
                            Some(l) => {
                                self.style_links.push(l);
                            },
                            None => {},
                        }
                        self.cursor = p;
                        proof {
                            lemma_step_preserves_inv(old(self)@, *t);
                            assert(self@ =~~= step_spec(old(self)@, *t));
                        }
                        Ok(())
                    },
                }
            },
            Token::EndTag(_) => {
                match self.store.get_parent(self.cursor) {
                    None => Err(BuildError::TagUnderflow),
                    Some(p) => {
                        let link = (match self.store.read(self.cursor) {
                            NodeContent::Element(ed) => {
                                if str_eq(ed.tag_name.as_str(), "script") {
                                    match ed.get_attr("src") {
                                        Some(u) => Some(LinkRequest { kind: ed.kind, url: u }),
                                        None => None,
                                    }
                                } else {
                                    None
                                }
                            },
                            NodeContent::Text(_) => None,
                        });
                        match link {
                            Some(l) => {
                                self.script_links.push(l);
                            },
                            None => {},
                        }
                        self.cursor = p;
                        proof {
                            lemma_step_preserves_inv(old(self)@, *t);
                            assert(self@ =~~= step_spec(old(self)@, *t));
                        }
                        Ok(())
                    },
                }
            },
            Token::Text(s) => {
                if !blank(s.as_str()) {
                    let h = self.store.new_node(NodeContent::Text(s.clone()));
                    self.store.add_child(self.cursor, h);
                }
                proof {
                    lemma_step_preserves_inv(old(self)@, *t);
                    assert(self@ =~~= step_spec(old(self)@, *t));
                }
                Ok(())
            },
            Token::Doctype => {
                proof {
                    lemma_step_preserves_inv(old(self)@, *t);
                    assert(self@ =~~= step_spec(old(self)@, *t));
                }
                Ok(())
            },
            Token::Eof => {
                proof {
                    lemma_step_preserves_inv(old(self)@, *t);
                    assert(self@ =~~= step_spec(old(self)@, *t));
                }
                Ok(())
            },
        }
    }
}

/// Everything a finished build hands back: the node arena, the root
/// handle, and the two link lists in discovery order.
pub struct BuildOutput {
    pub store: TreeStore,
    pub root: usize,
    pub style_links: Vec<LinkRequest>,
    pub script_links: Vec<LinkRequest>,
}

/// Drive the state machine over `tokens` until the first `Eof` (or the end
/// of the sequence) and hand back the synthetic root, the built tree, and
/// the discovered links. The one failure is a tag close arriving while the
/// cursor sits on the root.
pub fn build_dom(tokens: &Vec<Token>) -> (r: Result<BuildOutput, BuildError>)
    ensures
        r is Ok <==> build_spec(init_model(), tokens@) is Ok,
        (r matches Ok(out) ==> ({
            let m = build_spec(init_model(), tokens@)->Ok_0;
            &&& out.root == 0
            &&& out.root < out.store@.len()
            &&& out.store@ == m.nodes
            &&& out.store.wf()
            &&& out.style_links.deep_view() == m.style_links
            &&& out.script_links.deep_view() == m.script_links
        })),
        (r matches Err(e) ==> build_spec(init_model(), tokens@) == Err::<BuilderModel,
            BuildError,
        >(e)),
{
    let mut b = Builder::new();
    let n = tokens.len();
    let mut i: usize = 0;
    proof {
        assert(tokens@.skip(0) =~= tokens@);
    }
    while i < n
        invariant
            i <= n,
            n == tokens@.len(),
            b.inv(),
            build_spec(init_model(), tokens@) == build_spec(b@, tokens@.skip(i as int)),
        decreases n - i,
    {
        let t = &tokens[i];
        proof {
            assert(tokens@.skip(i as int).drop_first() =~= tokens@.skip(i + 1));
            assert(tokens@.skip(i as int)[0] == tokens@[i as int]);
        }
        if matches!(t, Token::Eof) {
            proof {
                assert(build_spec(b@, tokens@.skip(i as int)) == Ok::<BuilderModel, BuildError>(
                    b@,
                ));
            }
            let Builder { store, cursor: _, style_links, script_links } = b;
            return Ok(BuildOutput { store, root: 0, style_links, script_links });
        }
        let ghost pre = b@;
        match b.step(t) {
            Ok(_) => {},
            Err(e) => {
                proof {
                    assert(build_spec(pre, tokens@.skip(i as int)) == Err::<BuilderModel,
                        BuildError,
                    >(e));
                }
                return Err(e);
            },
        }
        i += 1;
    }
    proof {
        assert(tokens@.skip(n as int) =~= Seq::<Token>::empty());
        assert(build_spec(b@, tokens@.skip(n as int)) == Ok::<BuilderModel, BuildError>(b@));
    }
    let Builder { store, cursor: _, style_links, script_links } = b;
    Ok(BuildOutput { store, root: 0, style_links, script_links })
}


proof fn lemma_balance_head(tokens: Seq<Token>, k: int)
    requires
        tokens.len() > 0,
        0 <= k <= tokens.drop_first().len(),
    ensures
        balance(tokens.take(k + 1)) == token_delta(tokens[0]) + balance(
            tokens.drop_first().take(k),
        ),
{
    assert(tokens.take(k + 1)[0] == tokens[0]);
    assert(tokens.take(k + 1).drop_first() =~= tokens.drop_first().take(k));
}

proof fn lemma_build_total_from(m: BuilderModel, tokens: Seq<Token>)
    requires
        model_inv(m),
        forall|k: int|
            0 <= k <= tokens.len() ==> depth(m.nodes, m.cursor) + balance(
                #[trigger] tokens.take(k),
            ) >= 0,
    ensures
        build_spec(m, tokens) is Ok,
    decreases tokens.len(),
{
    if tokens.len() == 0 || tokens[0] is Eof {
    } else {
        let t = tokens[0];
        assert(tokens.take(1) =~= seq![t]);
        assert(seq![t].drop_first() =~= Seq::<Token>::empty());
        assert(balance(Seq::<Token>::empty()) == 0);
        assert(balance(seq![t]) == token_delta(t));
        assert(balance(tokens.take(1)) == token_delta(t));
        assert(depth(m.nodes, m.cursor) + token_delta(t) >= 0);
        assert(step_ok(m, t)) by {
            match t {
                Token::SelfCloseTag => {
                    assert(depth(m.nodes, m.cursor) >= 1);
                },
                Token::EndTag(_) => {
                    assert(depth(m.nodes, m.cursor) >= 1);
                },
                _ => {},
            }
        }
        lemma_step_preserves_inv(m, t);
        let m1 = step_spec(m, t);
        assert forall|k: int|
            0 <= k <= tokens.drop_first().len() implies depth(m1.nodes, m1.cursor) + balance(
            #[trigger] tokens.drop_first().take(k),
        ) >= 0 by {
            lemma_balance_head(tokens, k);
            assert(depth(m.nodes, m.cursor) + balance(tokens.take(k + 1)) >= 0);
        }
        lemma_build_total_from(m1, tokens.drop_first());
    }
}

/// A token stream that never closes more tags than it has opened is
/// accepted in full: building from the initial state succeeds, whatever
/// else the stream holds, and `build_dom` returns the root. The one
/// excluded input is a stream whose prefix closes past the synthetic root,
/// for which building reports `TagUnderflow` instead.
pub proof fn lemma_build_total(tokens: Seq<Token>)
    requires
        never_underflows(tokens),
    ensures
        build_spec(init_model(), tokens) is Ok,
{
    let m = init_model();
    assert(depth(m.nodes, m.cursor) == 0);
    lemma_build_total_from(m, tokens);
}

} // verus!
