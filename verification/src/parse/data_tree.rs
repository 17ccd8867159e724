//! Data trees with owned text, built from the events of a data tree reader,
//! and queries over their nodes.
use vstd::prelude::*;
use vstd::string::*;
use crate::text::str_eq;

verus! {

/// A node of a data tree: an internal node with a type name, an optional
/// identifier and children, or a leaf with a type name and contents.  Each
/// node records the byte offset in the source at which it starts.
#[derive(Debug, Eq, PartialEq)]
pub enum DataTree {
    Internal {
        node_type: String,
        ident: Option<String>,
        children: Vec<DataTree>,
        byte_offset: usize,
    },
    Leaf { node_type: String, contents: String, byte_offset: usize },
}

/// Why building a data tree failed.
#[derive(Copy, Clone, Eq, PartialEq, Debug)]
pub enum ParseError {
    Other(&'static str),
}

/// An event reported by a data tree reader.
#[derive(Debug, Eq, PartialEq)]
pub enum Event {
    InnerOpen { node_type: String, ident: Option<String>, byte_offset: usize },
    Leaf { node_type: String, contents: String, byte_offset: usize },
    InnerClose { byte_offset: usize },
    Done,
}

/// A node as plain values.
pub enum TreeV {
    Internal { node_type: Seq<char>, ident: Option<Seq<char>>, children: Seq<TreeV>, byte_offset: int },
    Leaf { node_type: Seq<char>, contents: Seq<char>, byte_offset: int },
}

/// An event as plain values.
pub enum EventV {
    InnerOpen { node_type: Seq<char>, ident: Option<Seq<char>>, byte_offset: int },
    Leaf { node_type: Seq<char>, contents: Seq<char>, byte_offset: int },
    InnerClose { byte_offset: int },
    Done,
}

/// The kinds of failure when building a tree from events.
pub enum TreeFailure {
    /// The events ended inside a node.
    EndOfContents,
    /// The reader reported an error.
    ReaderFailed,
    /// A leaf stands at the root level.
    LeafAtRoot,
    /// A closing event stands at the root level.
    CloseAtRoot,
}

/// The error value reported for a failure.
pub open spec fn failure_error(f: TreeFailure) -> ParseError {
    match f {
        TreeFailure::EndOfContents => ParseError::Other("Unexpected end of contents."),
        TreeFailure::ReaderFailed => ParseError::Other("Some error happened."),
        TreeFailure::LeafAtRoot => ParseError::Other("Unexpected leaf value at root level."),
        TreeFailure::CloseAtRoot => ParseError::Other("Unexpected closing tag."),
    }
}

/// An optional string as characters.
pub open spec fn opt_view(s: Option<String>) -> Option<Seq<char>> {
    match s {
        Some(x) => Some(x@),
        None => None,
    }
}

impl DataTree {
    /// The node as plain values.
    pub open spec fn tree_v(&self) -> TreeV
        decreases self,
    {
        match self {
            DataTree::Internal { node_type: tn, ident, children, byte_offset } => TreeV::Internal {
                node_type: tn@,
                ident: opt_view(*ident),
                children: Seq::new(
                    children@.len(),
                    |i: int|
                        if 0 <= i < children@.len() {
                            children@[i].tree_v()
                        } else {
                            TreeV::Leaf {
                                node_type: Seq::empty(),
                                contents: Seq::empty(),
                                byte_offset: 0,
                            }
                        },
                ),
                byte_offset: *byte_offset as int,
            },
            DataTree::Leaf { node_type: tn, contents, byte_offset } => TreeV::Leaf {
                node_type: tn@,
                contents: contents@,
                byte_offset: *byte_offset as int,
            },
        }
    }

    /// The node's type name.
    pub open spec fn node_type_v(&self) -> Seq<char> {
        match self {
            DataTree::Internal { node_type: tn, .. } => tn@,
            DataTree::Leaf { node_type: tn, .. } => tn@,
        }
    }
}

/// A list of nodes as plain values.
pub open spec fn trees_v(v: Seq<DataTree>) -> Seq<TreeV> {
    Seq::new(v.len(), |i: int| v[i].tree_v())
}

impl View for Event {
    type V = EventV;

    open spec fn view(&self) -> EventV {
        match self {
            Event::InnerOpen { node_type: tn, ident, byte_offset } => EventV::InnerOpen {
                node_type: tn@,
                ident: opt_view(*ident),
                byte_offset: *byte_offset as int,
            },
            Event::Leaf { node_type: tn, contents, byte_offset } => EventV::Leaf {
                node_type: tn@,
                contents: contents@,
                byte_offset: *byte_offset as int,
            },
            Event::InnerClose { byte_offset } => EventV::InnerClose { byte_offset: *byte_offset as int },
            Event::Done => EventV::Done,
        }
    }
}

/// Reader results as plain values.
pub open spec fn events_v(evs: Seq<Result<Event, ()>>) -> Seq<Result<EventV, ()>> {
    Seq::new(
        evs.len(),
        |i: int|
            match evs[i] {
                Ok(e) => Ok(e@),
                Err(()) => Err(()),
            },
    )
}

/// The contents of a node whose opening event came just before index `i`:
/// its children and the index after its closing event, or why it fails.
/// Reading past the last event reads the end of the events.
pub open spec fn children_spec(evs: Seq<Result<EventV, ()>>, i: int) -> Result<
    (Seq<TreeV>, int),
    TreeFailure,
>
    decreases evs.len() - i,
{
    if !(0 <= i < evs.len()) {
        Err(TreeFailure::EndOfContents)
    } else {
        match evs[i] {
            Ok(EventV::InnerOpen { node_type: tn, ident, byte_offset }) => {
                match children_spec(evs, i + 1) {
                    Ok((kids, j)) => {
                        if i < j <= evs.len() {
                            let node = TreeV::Internal {
                                node_type: tn,
                                ident,
                                children: kids,
                                byte_offset,
                            };
                            match children_spec(evs, j) {
                                Ok((rest, k)) => Ok((seq![node] + rest, k)),
                                Err(f) => Err(f),
                            }
                        } else {
                            Err(TreeFailure::EndOfContents)
                        }
                    },
                    Err(f) => Err(f),
                }
            },
            Ok(EventV::Leaf { node_type: tn, contents, byte_offset }) => {
                let node = TreeV::Leaf { node_type: tn, contents, byte_offset };
                match children_spec(evs, i + 1) {
                    Ok((rest, k)) => Ok((seq![node] + rest, k)),
                    Err(f) => Err(f),
                }
            },
            Ok(EventV::InnerClose { .. }) => Ok((Seq::empty(), i + 1)),
            Ok(EventV::Done) => Err(TreeFailure::EndOfContents),
            Err(()) => Err(TreeFailure::ReaderFailed),
        }
    }
}

/// The top-level nodes from index `i` on, or why they fail.
pub open spec fn roots_spec(evs: Seq<Result<EventV, ()>>, i: int) -> Result<Seq<TreeV>, TreeFailure>
    decreases evs.len() - i,
{
    if !(0 <= i < evs.len()) {
        Ok(Seq::empty())
    } else {
        match evs[i] {
            Ok(EventV::InnerOpen { node_type: tn, ident, byte_offset }) => {
                match children_spec(evs, i + 1) {
                    Ok((kids, j)) => {
                        if i < j <= evs.len() {
                            let node = TreeV::Internal {
                                node_type: tn,
                                ident,
                                children: kids,
                                byte_offset,
                            };
                            match roots_spec(evs, j) {
                                Ok(rest) => Ok(seq![node] + rest),
                                Err(f) => Err(f),
                            }
                        } else {
                            Err(TreeFailure::EndOfContents)
                        }
                    },
                    Err(f) => Err(f),
                }
            },
            Ok(EventV::Leaf { .. }) => Err(TreeFailure::LeafAtRoot),
            Ok(EventV::InnerClose { .. }) => Err(TreeFailure::CloseAtRoot),
            Ok(EventV::Done) => Ok(Seq::empty()),
            Err(()) => Err(TreeFailure::ReaderFailed),
        }
    }
}

/// The type name, identifier and offset of a node.
pub open spec fn head_of(t: TreeV) -> (Seq<char>, Option<Seq<char>>, int) {
    match t {
        TreeV::Internal { node_type: tn, ident, byte_offset, .. } => (tn, ident, byte_offset),
        TreeV::Leaf { node_type: tn, byte_offset, .. } => (tn, None, byte_offset),
    }
}

/// The type name, identifier and offset of each of a list of nodes, in order.
pub open spec fn heads_of(items: Seq<TreeV>) -> Seq<(Seq<char>, Option<Seq<char>>, int)> {
    items.map_values(|t: TreeV| head_of(t))
}

/// The type name, identifier and offset of each opening event from index
/// `i` on that stands at nesting depth zero, counting from `depth` at index
/// `i`, up to the first `Done` or reader error.
pub open spec fn top_level_opens(evs: Seq<Result<EventV, ()>>, i: int, depth: nat) -> Seq<
    (Seq<char>, Option<Seq<char>>, int),
>
    decreases evs.len() - i,
{
    if !(0 <= i < evs.len()) {
        Seq::empty()
    } else {
        match evs[i] {
            Ok(EventV::InnerOpen { node_type: tn, ident, byte_offset }) => {
                if depth == 0 {
                    seq![(tn, ident, byte_offset)] + top_level_opens(evs, i + 1, 1)
                } else {
                    top_level_opens(evs, i + 1, depth + 1)
                }
            },
            Ok(EventV::Leaf { .. }) => top_level_opens(evs, i + 1, depth),
            Ok(EventV::InnerClose { .. }) => {
                if depth == 0 {
                    Seq::empty()
                } else {
                    top_level_opens(evs, i + 1, (depth - 1) as nat)
                }
            },
            Ok(EventV::Done) => Seq::empty(),
            Err(()) => Seq::empty(),
        }
    }
}

/// Reading the contents of a node closes one level of nesting: the opening
/// events after it at a depth are those from its start one level deeper.
proof fn lemma_children_close_a_level(evs: Seq<Result<EventV, ()>>, i: int, d: nat)
    ensures
        children_spec(evs, i) matches Ok((_, j)) ==> top_level_opens(evs, i, d + 1)
            == top_level_opens(evs, j, d),
    decreases evs.len() - i,
{
    if 0 <= i < evs.len() {
        lemma_children_advance(evs, i + 1);
        match evs[i] {
            Ok(EventV::InnerOpen { .. }) => {
                lemma_children_close_a_level(evs, i + 1, d + 1);
                if let Ok((_, j1)) = children_spec(evs, i + 1) {
                    if i < j1 <= evs.len() {
                        lemma_children_close_a_level(evs, j1, d);
                    }
                }
            },
            Ok(EventV::Leaf { .. }) => {
                lemma_children_close_a_level(evs, i + 1, d);
            },
            _ => {},
        }
    }
}

/// Every top-level node of the events is a root, in order: the roots read
/// from index `i` on are internal nodes, as many as the opening events at
/// depth zero before the first `Done`, with their type names, identifiers
/// and offsets, in the order the events give them.
pub proof fn law_every_top_level_node_is_a_root(evs: Seq<Result<EventV, ()>>, i: int)
    ensures
        roots_spec(evs, i) matches Ok(items) ==> heads_of(items) == top_level_opens(evs, i, 0)
            && forall|k: int| 0 <= k < items.len() ==> #[trigger] items[k] is Internal,
    decreases evs.len() - i,
{
    if 0 <= i < evs.len() {
        if let Ok(EventV::InnerOpen { node_type: tn, ident, byte_offset }) = evs[i] {
            lemma_children_advance(evs, i + 1);
            lemma_children_close_a_level(evs, i + 1, 0);
            if let Ok((kids, j)) = children_spec(evs, i + 1) {
                if i < j <= evs.len() {
                    law_every_top_level_node_is_a_root(evs, j);
                    if let Ok(rest) = roots_spec(evs, j) {
                        let node = TreeV::Internal {
                            node_type: tn,
                            ident,
                            children: kids,
                            byte_offset,
                        };
                        let items = seq![node] + rest;
                        assert(heads_of(items) =~= seq![(tn, ident, byte_offset)] + heads_of(rest));
                        assert forall|k: int| 0 <= k < items.len() implies #[trigger] items[k] is Internal by {
                            if k > 0 {
                                assert(items[k] == rest[k - 1]);
                            }
                        }
                    }
                }
            }
        }
    } else {
        assert(heads_of(Seq::<TreeV>::empty()) =~= Seq::empty());
    }
}

proof fn lemma_children_advance(evs: Seq<Result<EventV, ()>>, i: int)
    ensures
        children_spec(evs, i) matches Ok((_, j)) ==> i < j <= evs.len(),
    decreases evs.len() - i,
{
    if 0 <= i < evs.len() {
        lemma_children_advance(evs, i + 1);
        match children_spec(evs, i + 1) {
            Ok((_, j)) => {
                if i < j <= evs.len() {
                    lemma_children_advance(evs, j);
                }
            },
            Err(_) => {},
        }
    }
}

proof fn lemma_trees_v_push(v: Seq<DataTree>, t: DataTree)
    ensures
        trees_v(v.push(t)) == trees_v(v) + seq![t.tree_v()],
{
    assert(trees_v(v.push(t)) =~= trees_v(v) + seq![t.tree_v()]);
}

proof fn lemma_internal_v(t: DataTree)
    ensures
        t matches DataTree::Internal { node_type: tn, ident, children, byte_offset } ==> t.tree_v()
            == (TreeV::Internal {
            node_type: tn@,
            ident: opt_view(ident),
            children: trees_v(children@),
            byte_offset: byte_offset as int,
        }),
{
    match t {
        DataTree::Internal { children, .. } => {
            match t.tree_v() {
                TreeV::Internal { children: c, .. } => {
                    assert(c =~= trees_v(children@));
                },
                _ => {},
            }
        },
        _ => {},
    }
}

fn clone_opt(s: &Option<String>) -> (r: Option<String>)
    ensures
        opt_view(r) == opt_view(*s),
{
    match s {
        Some(x) => Some(x.clone()),
        None => None,
    }
}

/// Reads the contents of a node whose opening event came just before index
/// `pos`: its children up to its closing event.
fn read_children(events: &Vec<Result<Event, ()>>, pos: usize) -> (r: Result<
    (Vec<DataTree>, usize),
    ParseError,
>)
    ensures
        r matches Ok((kids, j)) ==> children_spec(events_v(events@), pos as int) == Ok::<
            (Seq<TreeV>, int),
            TreeFailure,
        >((trees_v(kids@), j as int)),
        r matches Err(e) ==> children_spec(events_v(events@), pos as int) matches Err(f) && e
            == failure_error(f),
        r is Ok <==> children_spec(events_v(events@), pos as int) is Ok,
    decreases events@.len() - pos,
{
    let ghost evs = events_v(events@);
    let mut kids: Vec<DataTree> = Vec::new();
    let mut i = pos;
    loop
        invariant
            evs == events_v(events@),
            pos <= i,
            children_spec(evs, pos as int) == (match children_spec(evs, i as int) {
                Ok((rest, k)) => Ok((trees_v(kids@) + rest, k)),
                Err(f) => Err(f),
            }),
        decreases events@.len() - i,
    {
        if i >= events.len() {
            return Err(ParseError::Other("Unexpected end of contents."));
        }
        proof {
            lemma_children_advance(evs, i + 1);
        }
        match &events[i] {
            Ok(Event::InnerOpen { node_type: tn, ident, byte_offset }) => {
                let sub = read_children(events, i + 1);
                match sub {
                    Ok((children, j)) => {
                        let node = DataTree::Internal {
                            node_type: tn.clone(),
                            ident: clone_opt(ident),
                            children,
                            byte_offset: *byte_offset,
                        };
                        proof {
                            lemma_internal_v(node);
                            lemma_trees_v_push(kids@, node);
                            assert(trees_v(kids@) + (seq![node.tree_v()] + children_spec(
                                evs,
                                j as int,
                            )->Ok_0.0) =~= trees_v(kids@.push(node)) + children_spec(
                                evs,
                                j as int,
                            )->Ok_0.0);
                        }
                        kids.push(node);
                        i = j;
                    },
                    Err(e) => {
                        return Err(e);
                    },
                }
            },
            Ok(Event::Leaf { node_type: tn, contents, byte_offset }) => {
                let node = DataTree::Leaf {
                    node_type: tn.clone(),
                    contents: contents.clone(),
                    byte_offset: *byte_offset,
                };
                proof {
                    lemma_trees_v_push(kids@, node);
                    assert(trees_v(kids@) + (seq![node.tree_v()] + children_spec(
                        evs,
                        i + 1,
                    )->Ok_0.0) =~= trees_v(kids@.push(node)) + children_spec(
                        evs,
                        i + 1,
                    )->Ok_0.0);
                }
                kids.push(node);
                i = i + 1;
            },
            Ok(Event::InnerClose { .. }) => {
                proof {
                    assert(trees_v(kids@) + Seq::<TreeV>::empty() =~= trees_v(kids@));
                }
                return Ok((kids, i + 1));
            },
            Ok(Event::Done) => {
                return Err(ParseError::Other("Unexpected end of contents."));
            },
            Err(()) => {
                return Err(ParseError::Other("Some error happened."));
            },
        }
    }
}

impl DataTree {
    /// Builds a tree from the events of a data tree reader: a root node of
    /// type `ROOT`, without an identifier and at offset zero, holding the
    /// top-level nodes.  The events end at the first `Done` or at the end
    /// of the list.
    pub fn from_events(events: &Vec<Result<Event, ()>>) -> (r: Result<DataTree, ParseError>)
        ensures
            r matches Ok(t) ==> roots_spec(events_v(events@), 0) matches Ok(items) && t.tree_v()
                == (TreeV::Internal {
                node_type: "ROOT"@,
                ident: None,
                children: items,
                byte_offset: 0,
            }),
            r matches Err(e) ==> roots_spec(events_v(events@), 0) matches Err(f) && e
                == failure_error(f),
            r is Ok <==> roots_spec(events_v(events@), 0) is Ok,
            r matches Ok(t) ==> (t.tree_v() matches TreeV::Internal { children, .. } && heads_of(
                children,
            ) == top_level_opens(events_v(events@), 0, 0)),
    {
        let ghost evs = events_v(events@);
        let mut items: Vec<DataTree> = Vec::new();
        let mut i: usize = 0;
        loop
            invariant
                evs == events_v(events@),
                roots_spec(evs, 0) == (match roots_spec(evs, i as int) {
                    Ok(rest) => Ok(trees_v(items@) + rest),
                    Err(f) => Err(f),
                }),
            ensures
                evs == events_v(events@),
                roots_spec(evs, 0) == Ok::<Seq<TreeV>, TreeFailure>(trees_v(items@)),
            decreases events@.len() - i,
        {
            if i >= events.len() {
                proof {
                    assert(trees_v(items@) + Seq::<TreeV>::empty() =~= trees_v(items@));
                }
                break;
            }
            proof {
                lemma_children_advance(evs, i + 1);
            }
            match &events[i] {
                Ok(Event::InnerOpen { node_type: tn, ident, byte_offset }) => {
                    match read_children(events, i + 1) {
                        Ok((children, j)) => {
                            let node = DataTree::Internal {
                                node_type: tn.clone(),
                                ident: clone_opt(ident),
                                children,
                                byte_offset: *byte_offset,
                            };
                            proof {
                                lemma_internal_v(node);
                                lemma_trees_v_push(items@, node);
                                assert(trees_v(items@) + (seq![node.tree_v()] + roots_spec(
                                    evs,
                                    j as int,
                                )->Ok_0) =~= trees_v(items@.push(node)) + roots_spec(
                                    evs,
                                    j as int,
                                )->Ok_0);
                            }
                            items.push(node);
                            i = j;
                        },
                        Err(e) => {
                            return Err(e);
                        },
                    }
                },
                Ok(Event::Leaf { .. }) => {
                    return Err(ParseError::Other("Unexpected leaf value at root level."));
                },
                Ok(Event::InnerClose { .. }) => {
                    return Err(ParseError::Other("Unexpected closing tag."));
                },
                Ok(Event::Done) => {
                    proof {
                        assert(trees_v(items@) + Seq::<TreeV>::empty() =~= trees_v(items@));
                    }
                    break;
                },
                Err(()) => {
                    return Err(ParseError::Other("Some error happened."));
                },
            }
        }
        let root = DataTree::Internal {
            node_type: String::from_str("ROOT"),
            ident: None,
            children: items,
            byte_offset: 0,
        };
        proof {
            lemma_internal_v(root);
            law_every_top_level_node_is_a_root(evs, 0);
        }
        Ok(root)
    }
}

impl DataTree {
    /// The node's type name.
    pub fn node_type(&self) -> (r: &str)
        ensures
            r@ == self.node_type_v(),
    {
        match self {
            DataTree::Internal { node_type, .. } => node_type.as_str(),
            DataTree::Leaf { node_type, .. } => node_type.as_str(),
        }
    }

    /// The identifier of an internal node that has one; `None` otherwise.
    pub fn ident(&self) -> (r: Option<&str>)
        ensures
            r matches Some(id) ==> self matches DataTree::Internal { ident: Some(x), .. } && id@
                == x@,
            r is None ==> !(self matches DataTree::Internal { ident: Some(_), .. }),
    {
        match self {
            DataTree::Internal { ident: Some(id), .. } => Some(id.as_str()),
            _ => None,
        }
    }

    /// The byte offset at which the node starts.
    pub fn byte_offset(&self) -> (r: usize)
        ensures
            r == (match self {
                DataTree::Internal { byte_offset, .. } => *byte_offset,
                DataTree::Leaf { byte_offset, .. } => *byte_offset,
            }),
    {
        match self {
            DataTree::Internal { byte_offset, .. } => *byte_offset,
            DataTree::Leaf { byte_offset, .. } => *byte_offset,
        }
    }

    /// Whether the node is an internal node.
    pub fn is_internal(&self) -> (r: bool)
        ensures
            r == (self is Internal),
    {
        match self {
            DataTree::Internal { .. } => true,
            DataTree::Leaf { .. } => false,
        }
    }

    /// Whether the node is a leaf.
    pub fn is_leaf(&self) -> (r: bool)
        ensures
            r == (self is Leaf),
    {
        match self {
            DataTree::Internal { .. } => false,
            DataTree::Leaf { .. } => true,
        }
    }

    /// The contents of a leaf; `None` for an internal node.
    pub fn leaf_contents(&self) -> (r: Option<&str>)
        ensures
            r matches Some(c) ==> self matches DataTree::Leaf { contents, .. } && c@ == contents@,
            r is None <==> self is Internal,
    {
        match self {
            DataTree::Internal { .. } => None,
            DataTree::Leaf { contents, .. } => Some(contents.as_str()),
        }
    }

    /// The children of an internal node; none for a leaf.
    pub fn iter_children(&self) -> (r: &[DataTree])
        ensures
            r@ == self.children_v(),
    {
        match self {
            DataTree::Internal { children, .. } => children.as_slice(),
            DataTree::Leaf { .. } => {
                let empty: &[DataTree] = &[];
                proof {
                    assert(empty@ =~= Seq::<DataTree>::empty());
                }
                empty
            },
        }
    }

    /// The children of an internal node (none for a leaf), as a list.
    pub open spec fn children_v(&self) -> Seq<DataTree> {
        match self {
            DataTree::Internal { children, .. } => children@,
            DataTree::Leaf { .. } => Seq::empty(),
        }
    }

    /// An iterator over the children whose type name is `node_type`.
    pub fn iter_children_with_type<'a>(&'a self, node_type: &'a str) -> (it: DataTreeFilterIter<'a>)
        ensures
            it.items() == self.children_v(),
            it.position() == 0,
            it.wanted() == node_type@,
    {
        DataTreeFilterIter { node_type, items: self.iter_children(), pos: 0 }
    }

    /// An iterator over the internal children whose type name is `node_type`.
    pub fn iter_internal_children_with_type<'a>(&'a self, node_type: &'a str) -> (it:
        DataTreeFilterInternalIter<'a>)
        ensures
            it.items() == self.children_v(),
            it.position() == 0,
            it.wanted() == node_type@,
    {
        DataTreeFilterInternalIter { node_type, items: self.iter_children(), pos: 0 }
    }

    /// An iterator over the leaf children whose type name is `node_type`.
    pub fn iter_leaf_children_with_type<'a>(&'a self, node_type: &'a str) -> (it:
        DataTreeFilterLeafIter<'a>)
        ensures
            it.items() == self.children_v(),
            it.position() == 0,
            it.wanted() == node_type@,
    {
        DataTreeFilterLeafIter { node_type, items: self.iter_children(), pos: 0 }
    }

    /// The parts of an internal node: type name, identifier and children.
    pub fn internal_data_or_panic(&self) -> (r: (&str, Option<&str>, &Vec<DataTree>))
        requires
            self is Internal,
        ensures
            self matches DataTree::Internal { node_type, ident, children, .. } && r.0@
                == node_type@ && opt_str_view(r.1) == opt_view(*ident) && r.2@ == children@,
    {
        match self {
            DataTree::Internal { node_type, ident, children, .. } => {
                let id = match ident {
                    Some(x) => Some(x.as_str()),
                    None => None,
                };
                (node_type.as_str(), id, children)
            },
            DataTree::Leaf { .. } => vstd::pervasive::unreached(),
        }
    }

    /// The parts of a leaf: type name and contents.
    pub fn leaf_data_or_panic(&self) -> (r: (&str, &str))
        requires
            self is Leaf,
        ensures
            self matches DataTree::Leaf { node_type, contents, .. } && r.0@ == node_type@ && r.1@
                == contents@,
    {
        match self {
            DataTree::Leaf { node_type, contents, .. } => (node_type.as_str(), contents.as_str()),
            DataTree::Internal { .. } => vstd::pervasive::unreached(),
        }
    }
}

/// An optional string slice as characters.
pub open spec fn opt_str_view<'a>(s: Option<&'a str>) -> Option<Seq<char>> {
    match s {
        Some(x) => Some(x@),
        None => None,
    }
}

/// Which children a filter keeps: any with the type name (0), internal
/// ones with it (1), or leaves with it (2).
pub open spec fn kept(t: DataTree, ty: Seq<char>, which: int) -> bool {
    &&& t.node_type_v() == ty
    &&& (which == 1 ==> t is Internal)
    &&& (which == 2 ==> t is Leaf)
}

/// The index of the first kept item at or after `from`, or the length.
pub open spec fn next_kept(items: Seq<DataTree>, from: int, ty: Seq<char>, which: int) -> int
    decreases items.len() - from,
{
    if 0 <= from < items.len() && !kept(items[from], ty, which) {
        next_kept(items, from + 1, ty, which)
    } else {
        from
    }
}

proof fn lemma_next_kept(items: Seq<DataTree>, from: int, ty: Seq<char>, which: int)
    requires
        0 <= from <= items.len(),
    ensures
        from <= next_kept(items, from, ty, which) <= items.len(),
        next_kept(items, from, ty, which) < items.len() ==> kept(
            items[next_kept(items, from, ty, which)],
            ty,
            which,
        ),
    decreases items.len() - from,
{
    if from < items.len() && !kept(items[from], ty, which) {
        lemma_next_kept(items, from + 1, ty, which);
    }
}

/// Finds the first kept item at or after `from`.
fn find_kept(items: &[DataTree], from: usize, ty: &str, which: u8) -> (r: usize)
    requires
        from <= items@.len(),
    ensures
        r == next_kept(items@, from as int, ty@, which as int),
        r <= items@.len(),
{
    proof {
        lemma_next_kept(items@, from as int, ty@, which as int);
    }
    let mut i = from;
    while i < items.len()
        invariant
            from <= i <= items@.len(),
            next_kept(items@, from as int, ty@, which as int) == next_kept(
                items@,
                i as int,
                ty@,
                which as int,
            ),
        decreases items@.len() - i,
    {
        let t = &items[i];
        let same = str_eq(t.node_type(), ty);
        let shape = if which == 1 {
            t.is_internal()
        } else if which == 2 {
            t.is_leaf()
        } else {
            true
        };
        if same && shape {
            return i;
        }
        i += 1;
    }
    i
}

/// An iterator over the children of a node that keeps those with a given
/// type name.
pub struct DataTreeFilterIter<'a> {
    node_type: &'a str,
    items: &'a [DataTree],
    pos: usize,
}

/// An iterator over the children of a node that keeps the internal nodes
/// with a given type name.
pub struct DataTreeFilterInternalIter<'a> {
    node_type: &'a str,
    items: &'a [DataTree],
    pos: usize,
}

/// An iterator over the children of a node that keeps the leaves with a
/// given type name.
pub struct DataTreeFilterLeafIter<'a> {
    node_type: &'a str,
    items: &'a [DataTree],
    pos: usize,
}

impl<'a> DataTreeFilterIter<'a> {
    /// The children being filtered.
    pub closed spec fn items(&self) -> Seq<DataTree> {
        self.items@
    }

    /// How many children have been looked at.
    pub closed spec fn position(&self) -> int {
        self.pos as int
    }

    /// The type name kept.
    pub closed spec fn wanted(&self) -> Seq<char> {
        self.node_type@
    }

    /// The next child with the wanted type name, or `None` when there is
    /// none left.
    pub fn next(&mut self) -> (r: Option<&'a DataTree>)
        requires
            old(self).position() <= old(self).items().len(),
        ensures
            ({
                let k = next_kept(old(self).items(), old(self).position(), old(self).wanted(), 0);
                &&& final(self).items() == old(self).items()
                &&& final(self).wanted() == old(self).wanted()
                &&& (k < old(self).items().len() ==> r == Some(&old(self).items()[k])
                    && final(self).position() == k + 1)
                &&& (k >= old(self).items().len() ==> r is None && final(self).position()
                    == old(self).items().len())
            }),
    {
        let k = find_kept(self.items, self.pos, self.node_type, 0);
        if k < self.items.len() {
            self.pos = k + 1;
            Some(&self.items[k])
        } else {
            self.pos = k;
            None
        }
    }
}

impl<'a> DataTreeFilterInternalIter<'a> {
    /// The children being filtered.
    pub closed spec fn items(&self) -> Seq<DataTree> {
        self.items@
    }

    /// How many children have been looked at.
    pub closed spec fn position(&self) -> int {
        self.pos as int
    }

    /// The type name kept.
    pub closed spec fn wanted(&self) -> Seq<char> {
        self.node_type@
    }

    /// The next internal child with the wanted type name, as its type name,
    /// identifier, children and byte offset; `None` when there is none left.
    pub fn next(&mut self) -> (r: Option<(&'a str, Option<&'a str>, &'a Vec<DataTree>, usize)>)
        requires
            old(self).position() <= old(self).items().len(),
        ensures
            ({
                let k = next_kept(old(self).items(), old(self).position(), old(self).wanted(), 1);
                &&& final(self).items() == old(self).items()
                &&& final(self).wanted() == old(self).wanted()
                &&& (k < old(self).items().len() ==> final(self).position() == k + 1 && (
                old(self).items()[k] matches DataTree::Internal {
                    node_type,
                    ident,
                    children,
                    byte_offset,
                } && r matches Some(x) && x.0@ == node_type@ && opt_str_view(x.1) == opt_view(
                    ident,
                ) && x.2@ == children@ && x.3 == byte_offset))
                &&& (k >= old(self).items().len() ==> r is None && final(self).position()
                    == old(self).items().len())
            }),
    {
        proof {
            lemma_next_kept(self.items@, self.pos as int, self.node_type@, 1);
        }
        let k = find_kept(self.items, self.pos, self.node_type, 1);
        if k < self.items.len() {
            self.pos = k + 1;
            match &self.items[k] {
                DataTree::Internal { node_type, ident, children, byte_offset } => {
                    let id = match ident {
                        Some(x) => Some(x.as_str()),
                        None => None,
                    };
                    Some((node_type.as_str(), id, children, *byte_offset))
                },
                DataTree::Leaf { .. } => None,
            }
        } else {
            self.pos = k;
            None
        }
    }
}

impl<'a> DataTreeFilterLeafIter<'a> {
    /// The children being filtered.
    pub closed spec fn items(&self) -> Seq<DataTree> {
        self.items@
    }

    /// How many children have been looked at.
    pub closed spec fn position(&self) -> int {
        self.pos as int
    }

    /// The type name kept.
    pub closed spec fn wanted(&self) -> Seq<char> {
        self.node_type@
    }

    /// The next leaf child with the wanted type name, as its type name,
    /// contents and byte offset; `None` when there is none left.
    pub fn next(&mut self) -> (r: Option<(&'a str, &'a str, usize)>)
        requires
            old(self).position() <= old(self).items().len(),
        ensures
            ({
                let k = next_kept(old(self).items(), old(self).position(), old(self).wanted(), 2);
                &&& final(self).items() == old(self).items()
                &&& final(self).wanted() == old(self).wanted()
                &&& (k < old(self).items().len() ==> final(self).position() == k + 1 && (
                old(self).items()[k] matches DataTree::Leaf { node_type, contents, byte_offset }
                    && r matches Some(x) && x.0@ == node_type@ && x.1@ == contents@ && x.2
                    == byte_offset))
                &&& (k >= old(self).items().len() ==> r is None && final(self).position()
                    == old(self).items().len())
            }),
    {
        proof {
            lemma_next_kept(self.items@, self.pos as int, self.node_type@, 2);
        }
        let k = find_kept(self.items, self.pos, self.node_type, 2);
        if k < self.items.len() {
            self.pos = k + 1;
            match &self.items[k] {
                DataTree::Leaf { node_type, contents, byte_offset } => Some(
                    (node_type.as_str(), contents.as_str(), *byte_offset),
                ),
                DataTree::Internal { .. } => None,
            }
        } else {
            self.pos = k;
            None
        }
    }
}

} // verus!
