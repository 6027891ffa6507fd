use vstd::prelude::*;
use vstd::string::StringExecFns;
use crate::cursor::{
    CharClass, Cursor, ErrorKind, ParseError, err_at, expect_s, forward, onward, remaining,
    scan_end, skip_ws,
};

verus! {

// ---------------------------------------------------------------------------
// The node tree and its mathematical view
// ---------------------------------------------------------------------------
/// An order-irrelevant mapping from attribute names to attribute values.
/// Kept as the sequence of pairs in insertion order; its view is the map in
/// which a later pair for a name overrides an earlier one.
#[derive(Debug)]
pub struct AttrMap {
    pub pairs: Vec<(String, String)>,
}

/// The pairs of an attribute map, as character sequences.
pub open spec fn attr_pairs_view(ps: Seq<(String, String)>) -> Seq<(Seq<char>, Seq<char>)> {
    Seq::new(ps.len(), |i: int| (ps[i].0@, ps[i].1@))
}

/// The mapping a pair sequence stands for: later pairs override earlier ones.
pub open spec fn map_of_pairs(ps: Seq<(Seq<char>, Seq<char>)>) -> Map<Seq<char>, Seq<char>>
    decreases ps.len(),
{
    if ps.len() == 0 {
        Map::empty()
    } else {
        map_of_pairs(ps.drop_last()).insert(ps.last().0, ps.last().1)
    }
}

impl View for AttrMap {
    type V = Map<Seq<char>, Seq<char>>;

    open spec fn view(&self) -> Map<Seq<char>, Seq<char>> {
        map_of_pairs(attr_pairs_view(self.pairs@))
    }
}

impl AttrMap {
    /// The empty attribute map.
    pub fn new() -> (m: AttrMap)
        ensures
            m@ == Map::<Seq<char>, Seq<char>>::empty(),
            m.pairs@.len() == 0,
    {
        AttrMap { pairs: Vec::new() }
    }

    /// Binds `name` to `value`; a later binding for the same name wins.
    pub fn insert(&mut self, name: String, value: String)
        ensures
            final(self)@ == old(self)@.insert(name@, value@),
    {
        let ghost before = attr_pairs_view(self.pairs@);
        self.pairs.push((name, value));
        proof {
            assert(attr_pairs_view(self.pairs@).drop_last() =~= before);
        }
    }

    /// The value bound to `name`, if any.
    pub fn get<'a>(&'a self, name: &String) -> (r: Option<&'a String>)
        ensures
            match r {
                Some(v) => self@.contains_key(name@) && v@ == self@[name@],
                None => !self@.contains_key(name@),
            },
    {
        let mut i: usize = self.pairs.len();
        proof {
            assert(attr_pairs_view(self.pairs@).take(self.pairs@.len() as int) =~= attr_pairs_view(
                self.pairs@,
            ));
        }
        loop
            invariant
                i <= self.pairs.len(),
                self@.contains_key(name@) ==> map_of_pairs(
                    attr_pairs_view(self.pairs@).take(i as int),
                ).contains_key(name@) && map_of_pairs(
                    attr_pairs_view(self.pairs@).take(i as int),
                )[name@] == self@[name@],
                map_of_pairs(attr_pairs_view(self.pairs@).take(i as int)).contains_key(name@)
                    ==> self@.contains_key(name@),
            ensures
                i == 0,
                !self@.contains_key(name@),
            decreases i,
        {
            if i == 0 {
                proof {
                    assert(attr_pairs_view(self.pairs@).take(0) =~= Seq::<(
                        Seq<char>,
                        Seq<char>,
                    )>::empty());
                }
                break;
            }
            let ghost part = attr_pairs_view(self.pairs@).take(i as int);
            proof {
                assert(part.drop_last() =~= attr_pairs_view(self.pairs@).take(i - 1));
                assert(part.last() == (self.pairs@[i - 1].0@, self.pairs@[i - 1].1@));
            }
            if self.pairs[i - 1].0 == *name {
                return Some(&self.pairs[i - 1].1);
            }
            i = i - 1;
        }
        None
    }
}

/// What a node is: a run of text, or an element.
#[derive(Debug)]
pub enum NodeType {
    Text(String),
    Element(ElementData),
}

/// An element: its tag name and its attributes.
#[derive(Debug)]
pub struct ElementData {
    pub tag_name: String,
    pub attributes: AttrMap,
}

/// A node of the markup tree.  A node owns its children; a text node has
/// none.
#[derive(Debug)]
pub struct Node {
    pub children: Vec<Node>,
    pub node_type: NodeType,
}

/// The view of an element.
pub struct ElemView {
    pub tag_name: Seq<char>,
    pub attributes: Map<Seq<char>, Seq<char>>,
}

/// The view of a node's kind.
pub enum NodeTypeView {
    Text(Seq<char>),
    Element(ElemView),
}

/// The view of a node tree.
pub struct NodeView {
    pub children: Seq<NodeView>,
    pub node_type: NodeTypeView,
}

impl View for ElementData {
    type V = ElemView;

    open spec fn view(&self) -> ElemView {
        ElemView { tag_name: self.tag_name@, attributes: self.attributes@ }
    }
}

/// The view of a node.
pub open spec fn node_view(n: Node) -> NodeView
    decreases n,
{
    NodeView {
        children: nodes_view_seq(n.children@),
        node_type: match n.node_type {
            NodeType::Text(s) => NodeTypeView::Text(s@),
            NodeType::Element(d) => NodeTypeView::Element(d@),
        },
    }
}

/// The views of a sequence of nodes, in order.
pub open spec fn nodes_view_seq(s: Seq<Node>) -> Seq<NodeView>
    decreases s,
{
    if s.len() == 0 {
        Seq::empty()
    } else {
        nodes_view_seq(s.drop_last()).push(node_view(s.last()))
    }
}

pub proof fn lemma_nodes_view_seq(s: Seq<Node>)
    ensures
        nodes_view_seq(s).len() == s.len(),
        forall|i: int| 0 <= i < s.len() ==> nodes_view_seq(s)[i] == node_view(s[i]),
    decreases s.len(),
{
    if s.len() > 0 {
        lemma_nodes_view_seq(s.drop_last());
    }
}

impl View for Node {
    type V = NodeView;

    open spec fn view(&self) -> NodeView {
        node_view(*self)
    }
}

/// A node holding a run of text.
pub fn text(data: String) -> (n: Node)
    ensures
        n@ == (NodeView { children: Seq::empty(), node_type: NodeTypeView::Text(data@) }),
{
    let n = Node { children: Vec::new(), node_type: NodeType::Text(data) };
    proof {
        assert(n.children@.len() == 0);
    }
    n
}

/// An element node with the given tag name, attributes and children.
pub fn elem(name: String, attrs: AttrMap, children: Vec<Node>) -> (n: Node)
    ensures
        n@ == (NodeView {
            children: nodes_view_seq(children@),
            node_type: NodeTypeView::Element(
                ElemView { tag_name: name@, attributes: attrs@ },
            ),
        }),
{
    Node { children, node_type: NodeType::Element(ElementData { tag_name: name, attributes: attrs }) }
}

// ---------------------------------------------------------------------------
// The grammar, as total functions over the input characters
// ---------------------------------------------------------------------------
/// Parses the sequence of sibling nodes starting at `p`, appending them to
/// `acc`: nodes follow each other, with optional whitespace between them,
/// until the end of the input or a closing-tag lookahead `</`.
pub open spec fn parse_nodes_s(t: Seq<char>, p: int, acc: Seq<NodeView>) -> Result<
    (Seq<NodeView>, int),
    ParseError,
>
    decreases remaining(t, p), 2int,
{
    let p1 = skip_ws(t, p);
    if p1 >= t.len() || (p1 + 2 <= t.len() && t[p1] == '<' && t[p1 + 1] == '/') {
        Ok((acc, p1))
    } else {
        match parse_node_s(t, p1) {
            Err(e) => Err(e),
            Ok((n, q)) => parse_nodes_s(t, onward(p1, q), acc.push(n)),
        }
    }
}

/// Parses one node at `p`: an element if `<` is next, a text run otherwise.
pub open spec fn parse_node_s(t: Seq<char>, p: int) -> Result<(NodeView, int), ParseError>
    decreases remaining(t, p), 1int,
{
    if p >= t.len() {
        Err(err_at(ErrorKind::UnexpectedEof, p))
    } else if t[p] == '<' {
        parse_element_s(t, p)
    } else {
        let e = forward(p, scan_end(t, p, CharClass::Text));
        Ok(
            (
                NodeView {
                    children: Seq::empty(),
                    node_type: NodeTypeView::Text(t.subrange(p, e)),
                },
                e,
            ),
        )
    }
}

/// Parses one element at `p`: `<name attrs>` children `</name>`.  The
/// closing tag name must equal the opening one; otherwise the parse fails
/// with `MismatchedTag` at the closing name.
pub open spec fn parse_element_s(t: Seq<char>, p: int) -> Result<(NodeView, int), ParseError>
    decreases remaining(t, p), 0int,
{
    match expect_s(t, p, '<') {
        Err(e) => Err(e),
        Ok(p1) => {
            let ne = forward(p1, scan_end(t, p1, CharClass::TagName));
            let name = t.subrange(p1, ne);
            match parse_attrs_s(t, ne, Map::empty()) {
                Err(e) => Err(e),
                Ok((attrs, pa)) => match expect_s(t, pa, '>') {
                    Err(e) => Err(e),
                    Ok(pg) => match parse_nodes_s(t, onward(p, pg), Seq::empty()) {
                        Err(e) => Err(e),
                        Ok((children, pc)) => match expect_s(t, pc, '<') {
                            Err(e) => Err(e),
                            Ok(x1) => match expect_s(t, x1, '/') {
                                Err(e) => Err(e),
                                Ok(x2) => {
                                    let ce = forward(x2, scan_end(t, x2, CharClass::TagName));
                                    if t.subrange(x2, ce) != name {
                                        Err(err_at(ErrorKind::MismatchedTag, x2))
                                    } else {
                                        match expect_s(t, ce, '>') {
                                            Err(e) => Err(e),
                                            Ok(pend) => Ok(
                                                (
                                                    NodeView {
                                                        children,
                                                        node_type: NodeTypeView::Element(
                                                            ElemView {
                                                                tag_name: name,
                                                                attributes: attrs,
                                                            },
                                                        ),
                                                    },
                                                    pend,
                                                ),
                                            ),
                                        }
                                    }
                                },
                            },
                        },
                    },
                },
            }
        },
    }
}

/// Parses the attributes of an opening tag starting at `p`, adding them to
/// `acc`, until `>` is next; a later attribute with the same name wins.
/// Each attribute is `name='value'` or `name="value"`, with no whitespace
/// around the `=`.
pub open spec fn parse_attrs_s(t: Seq<char>, p: int, acc: Map<Seq<char>, Seq<char>>) -> Result<
    (Map<Seq<char>, Seq<char>>, int),
    ParseError,
>
    decreases remaining(t, p), 0int,
{
    let p1 = skip_ws(t, p);
    if p1 >= t.len() {
        Err(err_at(ErrorKind::UnexpectedEof, p1))
    } else if t[p1] == '>' {
        Ok((acc, p1))
    } else {
        let ne = forward(p1, scan_end(t, p1, CharClass::TagName));
        let name = t.subrange(p1, ne);
        match expect_s(t, ne, '=') {
            Err(e) => Err(e),
            Ok(pq) => {
                if pq >= t.len() {
                    Err(err_at(ErrorKind::UnexpectedEof, pq))
                } else if t[pq] != '"' && t[pq] != '\'' {
                    Err(err_at(ErrorKind::UnexpectedCharacter, pq))
                } else {
                    let q = t[pq];
                    let ve = forward(pq + 1, scan_end(t, pq + 1, CharClass::AttrValue(q)));
                    let value = t.subrange(pq + 1, ve);
                    match expect_s(t, ve, q) {
                        Err(e) => Err(e),
                        Ok(pn) => parse_attrs_s(t, onward(p, pn), acc.insert(name, value)),
                    }
                }
            },
        }
    }
}

/// Parses a whole document.  The top-level nodes are parsed as siblings; a
/// single top-level node is returned as the root unwrapped, while zero or
/// two or more are wrapped in a synthetic `html` element, in source order.
pub open spec fn parse_markup_s(t: Seq<char>) -> Result<NodeView, ParseError> {
    match parse_nodes_s(t, 0, Seq::empty()) {
        Err(e) => Err(e),
        Ok((ns, _p)) => if ns.len() == 1 {
            Ok(ns[0])
        } else {
            Ok(
                NodeView {
                    children: ns,
                    node_type: NodeTypeView::Element(
                        ElemView { tag_name: "html"@, attributes: Map::empty() },
                    ),
                },
            )
        },
    }
}

// ---------------------------------------------------------------------------
// The executable parser
// ---------------------------------------------------------------------------
/// The markup parser: a cursor over the source text.
pub struct Parser {
    pub cur: Cursor,
}

impl Parser {
    /// Parses a whole document and returns the root node, as
    /// `parse_markup_s` describes: the one top-level node unwrapped, or a
    /// synthetic `html` element around zero or several of them.
    pub fn parse(source: String) -> (r: Result<Node, ParseError>)
        ensures
            match r {
                Ok(node) => parse_markup_s(source@) == Ok::<NodeView, ParseError>(node@),
                Err(e) => parse_markup_s(source@) == Err::<NodeView, ParseError>(e),
            },
    {
        let mut parser = Parser { cur: Cursor::new(source.as_str()) };
        match parser.parse_nodes() {
            Err(e) => Err(e),
            Ok(mut nodes) => {
                proof {
                    lemma_nodes_view_seq(nodes@);
                }
                if nodes.len() == 1 {
                    Ok(nodes.remove(0))
                } else {
                    Ok(elem(String::from_str("html"), AttrMap::new(), nodes))
                }
            },
        }
    }

    /// Parses sibling nodes until end-of-input or a `</` lookahead.
    pub fn parse_nodes(&mut self) -> (r: Result<Vec<Node>, ParseError>)
        requires
            old(self).cur.wf(),
        ensures
            final(self).cur.wf(),
            final(self).cur.input == old(self).cur.input,
            old(self).cur.at() <= final(self).cur.at(),
            match r {
                Ok(nodes) => parse_nodes_s(old(self).cur.text(), old(self).cur.at(), Seq::empty())
                    == Ok::<(Seq<NodeView>, int), ParseError>(
                    (nodes_view_seq(nodes@), final(self).cur.at()),
                ),
                Err(e) => parse_nodes_s(old(self).cur.text(), old(self).cur.at(), Seq::empty())
                    == Err::<(Seq<NodeView>, int), ParseError>(e),
            },
        decreases self.cur.input.len() - self.cur.pos, 2int,
    {
        let mut nodes: Vec<Node> = Vec::new();
        let ghost t = old(self).cur.text();
        let ghost p0 = old(self).cur.at();
        loop
            invariant
                self.cur.wf(),
                self.cur.input == old(self).cur.input,
                t == old(self).cur.text(),
                p0 == old(self).cur.at(),
                p0 <= self.cur.at() <= t.len(),
                parse_nodes_s(t, p0, Seq::empty()) == parse_nodes_s(
                    t,
                    self.cur.at(),
                    nodes_view_seq(nodes@),
                ),
            ensures
                self.cur.wf(),
                self.cur.input == old(self).cur.input,
                p0 <= self.cur.at() <= t.len(),
                parse_nodes_s(t, p0, Seq::empty()) == Ok::<(Seq<NodeView>, int), ParseError>(
                    (nodes_view_seq(nodes@), self.cur.at()),
                ),
            decreases t.len() - self.cur.at(),
        {
            let ghost pre = self.cur.at();
            self.cur.skip_whitespace();
            proof {
                assert(skip_ws(t, pre) == self.cur.at());
            }
            if self.cur.at_end() {
                break;
            }
            if self.cur.starts_with("</") {
                proof {
                    reveal_strlit("</");
                    assert(t[self.cur.at()] == t.subrange(self.cur.at(), self.cur.at() + 2)[0]);
                    assert(t[self.cur.at() + 1] == t.subrange(
                        self.cur.at(),
                        self.cur.at() + 2,
                    )[1]);
                }
                break;
            }
            proof {
                reveal_strlit("</");
                if self.cur.at() + 2 <= t.len() && t[self.cur.at()] == '<' && t[self.cur.at() + 1]
                    == '/' {
                    assert(t.subrange(self.cur.at(), self.cur.at() + 2) =~= "</"@);
                    assert(false);
                }
            }
            let node = match self.parse_node() {
                Ok(n) => n,
                Err(e) => {
                    return Err(e);
                },
            };
            proof {
                assert(nodes@.push(node).drop_last() =~= nodes@);
            }
            nodes.push(node);
        }
        Ok(nodes)
    }

    /// Parses one node: an element after `<`, a text run otherwise.
    pub fn parse_node(&mut self) -> (r: Result<Node, ParseError>)
        requires
            old(self).cur.wf(),
        ensures
            final(self).cur.wf(),
            final(self).cur.input == old(self).cur.input,
            old(self).cur.at() <= final(self).cur.at(),
            match r {
                Ok(n) => parse_node_s(old(self).cur.text(), old(self).cur.at()) == Ok::<
                    (NodeView, int),
                    ParseError,
                >((n@, final(self).cur.at())) && old(self).cur.at() < final(self).cur.at(),
                Err(e) => parse_node_s(old(self).cur.text(), old(self).cur.at()) == Err::<
                    (NodeView, int),
                    ParseError,
                >(e),
            },
        decreases self.cur.input.len() - self.cur.pos, 1int,
    {
        let ghost t = old(self).cur.text();
        let ghost p = old(self).cur.at();
        match self.cur.peek() {
            None => Err(ParseError { kind: ErrorKind::UnexpectedEof, pos: self.cur.pos }),
            Some(c) => {
                if c == '<' {
                    self.parse_element()
                } else {
                    proof {
                        crate::cursor::lemma_scan_end(t, p + 1, CharClass::Text);
                    }
                    let data = self.cur.consume_while(CharClass::Text);
                    Ok(text(data))
                }
            },
        }
    }

    /// Parses one element, `<` through its matching closing tag.
    pub fn parse_element(&mut self) -> (r: Result<Node, ParseError>)
        requires
            old(self).cur.wf(),
        ensures
            final(self).cur.wf(),
            final(self).cur.input == old(self).cur.input,
            old(self).cur.at() <= final(self).cur.at(),
            match r {
                Ok(n) => parse_element_s(old(self).cur.text(), old(self).cur.at()) == Ok::<
                    (NodeView, int),
                    ParseError,
                >((n@, final(self).cur.at())) && old(self).cur.at() < final(self).cur.at(),
                Err(e) => parse_element_s(old(self).cur.text(), old(self).cur.at()) == Err::<
                    (NodeView, int),
                    ParseError,
                >(e),
            },
        decreases self.cur.input.len() - self.cur.pos, 0int,
    {
        let ghost t = old(self).cur.text();
        let ghost p = old(self).cur.at();
        match self.cur.expect('<') {
            Ok(u) => u,
            Err(e) => {
                return Err(e);
            },
        };
        let name = self.cur.consume_while(CharClass::TagName);
        let attrs = match self.parse_attrs() {
            Ok(a) => a,
            Err(e) => {
                return Err(e);
            },
        };
        match self.cur.expect('>') {
            Ok(u) => u,
            Err(e) => {
                return Err(e);
            },
        };
        let children = match self.parse_nodes() {
            Ok(cs) => cs,
            Err(e) => {
                return Err(e);
            },
        };
        match self.cur.expect('<') {
            Ok(u) => u,
            Err(e) => {
                return Err(e);
            },
        };
        match self.cur.expect('/') {
            Ok(u) => u,
            Err(e) => {
                return Err(e);
            },
        };
        let close_start = self.cur.pos;
        let close = self.cur.consume_while(CharClass::TagName);
        if close != name {
            return Err(ParseError { kind: ErrorKind::MismatchedTag, pos: close_start });
        }
        match self.cur.expect('>') {
            Ok(u) => u,
            Err(e) => {
                return Err(e);
            },
        };
        Ok(elem(name, attrs, children))
    }

    /// Parses the attribute list of an opening tag, up to `>`.
    pub fn parse_attrs(&mut self) -> (r: Result<AttrMap, ParseError>)
        requires
            old(self).cur.wf(),
        ensures
            final(self).cur.wf(),
            final(self).cur.input == old(self).cur.input,
            old(self).cur.at() <= final(self).cur.at(),
            match r {
                Ok(attrs) => parse_attrs_s(
                    old(self).cur.text(),
                    old(self).cur.at(),
                    Map::empty(),
                ) == Ok::<(Map<Seq<char>, Seq<char>>, int), ParseError>(
                    (attrs@, final(self).cur.at()),
                ),
                Err(e) => parse_attrs_s(old(self).cur.text(), old(self).cur.at(), Map::empty())
                    == Err::<(Map<Seq<char>, Seq<char>>, int), ParseError>(e),
            },
    {
        let mut attrs = AttrMap::new();
        let ghost t = old(self).cur.text();
        let ghost p0 = old(self).cur.at();
        loop
            invariant
                self.cur.wf(),
                self.cur.input == old(self).cur.input,
                t == old(self).cur.text(),
                p0 == old(self).cur.at(),
                p0 <= self.cur.at() <= t.len(),
                parse_attrs_s(t, p0, Map::empty()) == parse_attrs_s(t, self.cur.at(), attrs@),
            ensures
                self.cur.wf(),
                self.cur.input == old(self).cur.input,
                p0 <= self.cur.at() <= t.len(),
                parse_attrs_s(t, p0, Map::empty()) == Ok::<
                    (Map<Seq<char>, Seq<char>>, int),
                    ParseError,
                >((attrs@, self.cur.at())),
            decreases t.len() - self.cur.at(),
        {
            let ghost pre = self.cur.at();
            self.cur.skip_whitespace();
            proof {
                assert(skip_ws(t, pre) == self.cur.at());
            }
            let c = match self.cur.peek() {
                None => {
                    return Err(
                        ParseError { kind: ErrorKind::UnexpectedEof, pos: self.cur.pos },
                    );
                },
                Some(c) => c,
            };
            if c == '>' {
                break;
            }
            let name = self.cur.consume_while(CharClass::TagName);
            match self.cur.expect('=') {
                Ok(u) => u,
                Err(e) => {
                    return Err(e);
                },
            };
            let q = match self.cur.peek() {
                None => {
                    return Err(
                        ParseError { kind: ErrorKind::UnexpectedEof, pos: self.cur.pos },
                    );
                },
                Some(q) => q,
            };
            if q != '"' && q != '\'' {
                return Err(ParseError { kind: ErrorKind::UnexpectedCharacter, pos: self.cur.pos });
            }
            let _ = match self.cur.advance() {
                Ok(u) => u,
                Err(e) => {
                    return Err(e);
                },
            };
            let value = self.cur.consume_while(CharClass::AttrValue(q));
            match self.cur.expect(q) {
                Ok(u) => u,
                Err(e) => {
                    return Err(e);
                },
            };
            attrs.insert(name, value);
        }
        Ok(attrs)
    }
}

} // verus!
