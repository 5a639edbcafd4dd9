//! The router: a trie of path segments held in an arena. Each node has a
//! handler slot per method. Among the children of a node, literal segments
//! are tried first, then a parameter, then a catch-all.
use vstd::prelude::*;
use crate::bytes::{copy_range, find2, find2_from, lemma_find2, range_eq};
use crate::method::{method_index, Method, N_METHODS};
use crate::request::Slice;
use vstd::string::StringSliceAdditionalSpecFns;

verus! {

pub const SLASH: u8 = 47;
pub const COLON_MARK: u8 = 58;
pub const STAR: u8 = 42;

#[derive(Clone, Copy, PartialEq, Eq, Structural, Debug)]
pub enum Kind {
    /// A literal segment.
    Static,
    /// `:name`, any one non-empty segment.
    Param,
    /// `*name`, the rest of the path.
    CatchAll,
}

/// One segment of a route pattern: its kind, and its text (the literal, or
/// the name a parameter is bound to).
pub struct Pattern {
    pub kind: Kind,
    pub text: Vec<u8>,
}

/// The pattern that a segment of a route string stands for.
pub open spec fn pattern_of(seg: Seq<u8>) -> (Kind, Seq<u8>) {
    if seg.len() > 0 && seg[0] == COLON_MARK {
        (Kind::Param, seg.subrange(1, seg.len() as int))
    } else if seg.len() > 0 && seg[0] == STAR {
        (Kind::CatchAll, seg.subrange(1, seg.len() as int))
    } else {
        (Kind::Static, seg)
    }
}

impl Pattern {
    pub open spec fn view(&self) -> (Kind, Seq<u8>) {
        (self.kind, self.text@)
    }

    /// The pattern for a segment of a route string.
    pub fn from_segment(s: &[u8], start: usize, end: usize) -> (r: Pattern)
        requires
            start <= end <= s@.len(),
        ensures
            r.view() == pattern_of(s@.subrange(start as int, end as int)),
    {
        let ghost seg = s@.subrange(start as int, end as int);
        if start < end && s[start] == COLON_MARK {
            assert(seg[0] == s@[start as int]);
            assert(seg.subrange(1, seg.len() as int) =~= s@.subrange(start + 1, end as int));
            Pattern { kind: Kind::Param, text: copy_range(s, start + 1, end) }
        } else if start < end && s[start] == STAR {
            assert(seg[0] == s@[start as int]);
            assert(seg.subrange(1, seg.len() as int) =~= s@.subrange(start + 1, end as int));
            Pattern { kind: Kind::CatchAll, text: copy_range(s, start + 1, end) }
        } else {
            proof {
                if start < end {
                    assert(seg[0] == s@[start as int]);
                }
            }
            Pattern { kind: Kind::Static, text: copy_range(s, start, end) }
        }
    }
}

/// A node of the trie.
pub struct Node {
    pattern: Pattern,
    /// Indices of the children in the arena, in the order they were added.
    children: Vec<usize>,
    /// The handler for each method, by method slot.
    handlers: Vec<Option<usize>>,
}

/// A node as a value.
pub struct NodeView {
    pub pattern: (Kind, Seq<u8>),
    pub children: Seq<usize>,
    pub handlers: Seq<Option<usize>>,
}

impl Node {
    pub closed spec fn view(&self) -> NodeView {
        NodeView { pattern: self.pattern.view(), children: self.children@, handlers: self.handlers@ }
    }

    /// A node with no children and no handlers.
    pub fn new(pattern: Pattern) -> (r: Node)
        ensures
            r.view().pattern == pattern.view(),
            r.view().children.len() == 0,
            r.view().handlers == Seq::new(N_METHODS as nat, |i: int| None::<usize>),
    {
        let mut handlers: Vec<Option<usize>> = Vec::new();
        let mut i: usize = 0;
        while i < N_METHODS
            invariant
                i <= N_METHODS,
                handlers@ == Seq::new(i as nat, |k: int| None::<usize>),
            decreases N_METHODS - i,
        {
            handlers.push(None);
            assert(handlers@ =~= Seq::new(i as nat + 1, |k: int| None::<usize>));
            i = i + 1;
        }
        Node { pattern, children: Vec::new(), handlers }
    }
}

#[derive(Clone, PartialEq, Eq, Debug)]
pub enum RouteError {
    /// A handler is already registered for this method and route.
    DuplicateRoute,
    /// The route string does not start with `/`, has a parameter without a
    /// name, or has a catch-all before its last segment.
    InvalidRoute,
    NotFound,
    /// The path matches but not for this method; the methods it has.
    MethodNotAllowed(Vec<Method>),
}

/// The routing table.
pub struct Router {
    nodes: Vec<Node>,
}

/// Whether node `c` of the arena matches `seg` as a child of kind `k`.
pub open spec fn child_matches(nodes: Seq<NodeView>, c: int, seg: Seq<u8>, k: Kind) -> bool {
    nodes[c].pattern.0 == k && match k {
        Kind::Static => nodes[c].pattern.1 == seg,
        Kind::Param => seg.len() > 0,
        Kind::CatchAll => true,
    }
}

/// The first child of `cur`, from position `j` on, of kind `k` that matches `seg`.
pub open spec fn find_child_from(nodes: Seq<NodeView>, cur: int, seg: Seq<u8>, k: Kind, j: int) -> Option<
    int,
>
    decreases nodes[cur].children.len() - j,
{
    if j >= nodes[cur].children.len() {
        None
    } else if child_matches(nodes, nodes[cur].children[j] as int, seg, k) {
        Some(nodes[cur].children[j] as int)
    } else {
        find_child_from(nodes, cur, seg, k, j + 1)
    }
}

/// The child that takes `seg`: a literal child equal to it first, then a
/// parameter child if `seg` is not empty, then a catch-all child.
pub open spec fn step(nodes: Seq<NodeView>, cur: int, seg: Seq<u8>) -> Option<int> {
    match find_child_from(nodes, cur, seg, Kind::Static, 0) {
        Some(c) => Some(c),
        None => match find_child_from(nodes, cur, seg, Kind::Param, 0) {
            Some(c) => Some(c),
            None => find_child_from(nodes, cur, seg, Kind::CatchAll, 0),
        },
    }
}

/// A captured parameter: its name and the range of the path it took.
pub type Capture = (Seq<u8>, (int, int));

/// Descends from `cur` through the segments of `path` from `pos` on; the
/// node reached and what the parameters captured.
pub open spec fn walk(nodes: Seq<NodeView>, cur: int, path: Seq<u8>, pos: int, caps: Seq<Capture>) -> Option<
    (int, Seq<Capture>),
>
    decreases path.len() - pos,
    via walk_decreases
{
    let end = find2(path, pos, SLASH, SLASH);
    if !(0 <= cur < nodes.len()) || pos < 0 || pos > path.len() {
        None
    } else {
        match step(nodes, cur, path.subrange(pos, end)) {
            None => None,
            Some(c) => if !(0 <= c < nodes.len()) {
                None
            } else if nodes[c].pattern.0 == Kind::CatchAll {
                Some((c, caps.push((nodes[c].pattern.1, (pos, path.len() as int)))))
            } else {
                let caps2 = if nodes[c].pattern.0 == Kind::Param {
                    caps.push((nodes[c].pattern.1, (pos, end)))
                } else {
                    caps
                };
                if end >= path.len() {
                    Some((c, caps2))
                } else {
                    walk(nodes, c, path, end + 1, caps2)
                }
            },
        }
    }
}

#[via_fn]
proof fn walk_decreases(
    nodes: Seq<NodeView>,
    cur: int,
    path: Seq<u8>,
    pos: int,
    caps: Seq<Capture>,
) {
    if 0 <= pos <= path.len() {
        lemma_find2(path, pos, SLASH, SLASH);
    }
}

/// What routing a request gives.
pub enum Routed {
    Found(usize, Seq<Capture>),
    MethodNotAllowed(Seq<Method>),
    NotFound,
}

/// The methods with a handler at a node, in method order.
pub open spec fn allowed_from(handlers: Seq<Option<usize>>, i: int) -> Seq<Method>
    decreases N_METHODS - i,
{
    if i >= N_METHODS {
        Seq::empty()
    } else if i < handlers.len() && handlers[i] is Some {
        seq![method_at(i)] + allowed_from(handlers, i + 1)
    } else {
        allowed_from(handlers, i + 1)
    }
}

pub open spec fn method_at(i: int) -> Method {
    if i == 0 {
        Method::GET
    } else if i == 1 {
        Method::PUT
    } else if i == 2 {
        Method::POST
    } else if i == 3 {
        Method::PATCH
    } else if i == 4 {
        Method::DELETE
    } else if i == 5 {
        Method::HEAD
    } else {
        Method::OPTIONS
    }
}

pub proof fn lemma_allowed_len(handlers: Seq<Option<usize>>, i: int)
    requires
        0 <= i <= N_METHODS,
    ensures
        allowed_from(handlers, i).len() <= N_METHODS - i,
    decreases N_METHODS - i,
{
    if i < N_METHODS {
        lemma_allowed_len(handlers, i + 1);
    }
}

proof fn lemma_find_child(nodes: Seq<NodeView>, cur: int, seg: Seq<u8>, k: Kind, i: int)
    requires
        0 <= i,
    ensures
        match find_child_from(nodes, cur, seg, k, i) {
            Some(c) => child_matches(nodes, c, seg, k) && exists|j: int|
                i <= j < nodes[cur].children.len() && #[trigger] nodes[cur].children[j] as int == c,
            None => forall|j: int| i <= j < nodes[cur].children.len() ==> !child_matches(nodes, #[trigger] nodes[cur].children[j] as int, seg, k),
        },
    decreases nodes[cur].children.len() - i,
{
    if i < nodes[cur].children.len() {
        if !child_matches(nodes, nodes[cur].children[i] as int, seg, k) {
            lemma_find_child(nodes, cur, seg, k, i + 1);
        } else {
            assert(nodes[cur].children[i] as int == nodes[cur].children[i] as int);
        }
    }
}

/// A literal child equal to the segment wins: whatever parameter and
/// catch-all children the node has, the segment goes to a literal child
/// with exactly its text.
pub proof fn law_literal_beats_others(nodes: Seq<NodeView>, cur: int, seg: Seq<u8>, j: int)
    requires
        0 <= j < nodes[cur].children.len(),
        child_matches(nodes, nodes[cur].children[j] as int, seg, Kind::Static),
    ensures
        step(nodes, cur, seg) matches Some(c) && nodes[c].pattern == (Kind::Static, seg),
{
    lemma_find_child(nodes, cur, seg, Kind::Static, 0);
}

/// A parameter child beats a catch-all: when no literal child equals a
/// non-empty segment, the segment goes to a parameter child if there is one.
pub proof fn law_parameter_beats_catch_all(nodes: Seq<NodeView>, cur: int, seg: Seq<u8>, j: int)
    requires
        0 <= j < nodes[cur].children.len(),
        child_matches(nodes, nodes[cur].children[j] as int, seg, Kind::Param),
        forall|k: int| 0 <= k < nodes[cur].children.len() ==> !child_matches(nodes, #[trigger] nodes[cur].children[k] as int, seg, Kind::Static),
    ensures
        step(nodes, cur, seg) matches Some(c) && nodes[c].pattern.0 == Kind::Param,
{
    lemma_find_child(nodes, cur, seg, Kind::Static, 0);
    lemma_find_child(nodes, cur, seg, Kind::Param, 0);
}

/// Routing `m` and `path`: the handler of the node the path leads to, or why
/// there is none.
pub open spec fn route(nodes: Seq<NodeView>, m: Method, path: Seq<u8>) -> Routed {
    if path.len() == 0 || path[0] != SLASH {
        Routed::NotFound
    } else {
        match walk(nodes, 0, path, 1, Seq::empty()) {
            None => Routed::NotFound,
            Some((n, caps)) => match nodes[n].handlers[method_index(m)] {
                Some(h) => Routed::Found(h, caps),
                None => if allowed_from(nodes[n].handlers, 0).len() > 0 {
                    Routed::MethodNotAllowed(allowed_from(nodes[n].handlers, 0))
                } else {
                    Routed::NotFound
                },
            },
        }
    }
}

pub open spec fn captures_view(v: Seq<(Vec<u8>, Slice)>) -> Seq<Capture> {
    v.map_values(|c: (Vec<u8>, Slice)| (c.0@, c.1@))
}

proof fn lemma_captures_push(v: Seq<(Vec<u8>, Slice)>, x: (Vec<u8>, Slice))
    ensures
        captures_view(v.push(x)) == captures_view(v).push((x.0@, x.1@)),
{
    assert(captures_view(v.push(x)) =~= captures_view(v).push((x.0@, x.1@)));
}

impl Router {
    pub closed spec fn view(&self) -> Seq<NodeView> {
        self.nodes@.map_values(|n: Node| n.view())
    }

    /// Children lie after their parent in the arena, and every node has a
    /// handler slot per method.
    pub closed spec fn wf(&self) -> bool {
        &&& tree_shape(self.view())
        &&& self.nodes@.len() >= 1
        &&& forall|n: int|
            0 <= n < self.nodes@.len() ==> (#[trigger] self.nodes@[n]).handlers@.len() == N_METHODS
        &&& forall|n: int, j: int|
            0 <= n < self.nodes@.len() && 0 <= j < self.nodes@[n].children@.len() ==> n
                < #[trigger] self.nodes@[n].children@[j] < self.nodes@.len()
    }

    /// A router with no routes.
    pub fn new() -> (r: Router)
        ensures
            r.wf(),
            r.view().len() == 1,
            r.view()[0].children.len() == 0,
            r.view()[0].handlers == Seq::new(N_METHODS as nat, |i: int| None::<usize>),
            tree_shape(r.view()),
    {
        let root = Node::new(Pattern { kind: Kind::Static, text: Vec::new() });
        let mut nodes: Vec<Node> = Vec::new();
        nodes.push(root);
        Router { nodes }
    }

    fn find_child(&self, cur: usize, path: &[u8], start: usize, end: usize, k: Kind) -> (r: Option<usize>)
        requires
            self.wf(),
            cur < self.nodes@.len(),
            start <= end <= path@.len(),
        ensures
            match find_child_from(self.view(), cur as int, path@.subrange(start as int, end as int), k, 0) {
                Some(c) => r matches Some(x) && x as int == c && cur < x < self.nodes@.len(),
                None => r is None,
            },
    {
        let ghost v = self.view();
        let ghost seg = path@.subrange(start as int, end as int);
        let node = &self.nodes[cur];
        let mut j: usize = 0;
        while j < node.children.len()
            invariant
                self.wf(),
                v == self.view(),
                cur < self.nodes@.len(),
                node == self.nodes@[cur as int],
                seg == path@.subrange(start as int, end as int),
                start <= end <= path@.len(),
                j <= node.children@.len(),
                find_child_from(v, cur as int, seg, k, 0) == find_child_from(v, cur as int, seg, k, j as int),
            decreases node.children@.len() - j,
        {
            let c = node.children[j];
            proof {
                assert(v[cur as int] == self.nodes@[cur as int].view());
                assert(cur < c < self.nodes@.len());
                assert(v[c as int] == self.nodes@[c as int].view());
            }
            let child = &self.nodes[c];
            if child.pattern.kind == k {
                let hit = match k {
                    Kind::Static => range_eq(path, start, end, child.pattern.text.as_slice()),
                    Kind::Param => start < end,
                    Kind::CatchAll => true,
                };
                if hit {
                    return Some(c);
                }
            }
            j = j + 1;
        }
        None
    }

    fn step_exec(&self, cur: usize, path: &[u8], start: usize, end: usize) -> (r: Option<usize>)
        requires
            self.wf(),
            cur < self.nodes@.len(),
            start <= end <= path@.len(),
        ensures
            match step(self.view(), cur as int, path@.subrange(start as int, end as int)) {
                Some(c) => r matches Some(x) && x as int == c && cur < x < self.nodes@.len(),
                None => r is None,
            },
    {
        match self.find_child(cur, path, start, end, Kind::Static) {
            Some(c) => Some(c),
            None => match self.find_child(cur, path, start, end, Kind::Param) {
                Some(c) => Some(c),
                None => self.find_child(cur, path, start, end, Kind::CatchAll),
            },
        }
    }

    /// Finds the handler for `m` and `path`, with what each parameter captured.
    pub fn search(&self, m: Method, path: &[u8]) -> (r: Result<(usize, Vec<(Vec<u8>, Slice)>), RouteError>)
        requires
            self.wf(),
        ensures
            match route(self.view(), m, path@) {
                Routed::Found(h, caps) => r matches Ok((x, v)) && x == h && captures_view(v@) == caps,
                Routed::MethodNotAllowed(ms) => r matches Err(RouteError::MethodNotAllowed(v)) && v@ == ms,
                Routed::NotFound => r == Err::<(usize, Vec<(Vec<u8>, Slice)>), RouteError>(RouteError::NotFound),
            },
    {
        if path.len() == 0 || path[0] != SLASH {
            return Err(RouteError::NotFound);
        }
        let ghost v = self.view();
        let mut cur: usize = 0;
        let mut pos: usize = 1;
        let mut caps: Vec<(Vec<u8>, Slice)> = Vec::new();
        proof {
            assert(captures_view(caps@) =~= Seq::<Capture>::empty());
        }
        let mut node: usize = 0;
        loop
            invariant_except_break
                walk(v, 0, path@, 1, Seq::empty()) == walk(v, cur as int, path@, pos as int, captures_view(caps@)),
                cur < self.nodes@.len(),
                1 <= pos <= path@.len(),
            invariant
                self.wf(),
                v == self.view(),
            ensures
                node < self.nodes@.len(),
                walk(v, 0, path@, 1, Seq::empty()) == Some((node as int, captures_view(caps@))),
            decreases path@.len() - pos,
        {
            let end = find2_from(path, pos, SLASH, SLASH);
            proof {
                lemma_find2(path@, pos as int, SLASH, SLASH);
            }
            let c = match self.step_exec(cur, path, pos, end) {
                Some(c) => c,
                None => {
                    return Err(RouteError::NotFound);
                },
            };
            proof {
                assert(v[c as int] == self.nodes@[c as int].view());
            }
            let kind = self.nodes[c].pattern.kind;
            if kind == Kind::CatchAll {
                let name = copy_range(self.nodes[c].pattern.text.as_slice(), 0, self.nodes[c].pattern.text.len());
                proof {
                    assert(self.nodes@[c as int].pattern.text@.subrange(0, self.nodes@[c as int].pattern.text@.len() as int) =~= self.nodes@[c as int].pattern.text@);
                    lemma_captures_push(caps@, (name, Slice { start: pos, end: path.len() }));
                }
                caps.push((name, Slice { start: pos, end: path.len() }));
                node = c;
                break;
            }
            if kind == Kind::Param {
                let name = copy_range(self.nodes[c].pattern.text.as_slice(), 0, self.nodes[c].pattern.text.len());
                proof {
                    assert(self.nodes@[c as int].pattern.text@.subrange(0, self.nodes@[c as int].pattern.text@.len() as int) =~= self.nodes@[c as int].pattern.text@);
                    lemma_captures_push(caps@, (name, Slice { start: pos, end }));
                }
                caps.push((name, Slice { start: pos, end }));
            }
            cur = c;
            if end >= path.len() {
                node = c;
                break;
            }
            pos = end + 1;
        }
        proof {
            assert(v[node as int] == self.nodes@[node as int].view());
        }
        let i = m.index();
        match self.nodes[node].handlers[i] {
            Some(h) => Ok((h, caps)),
            None => {
                let allowed = allowed_methods(&self.nodes[node].handlers);
                if allowed.len() > 0 {
                    Err(RouteError::MethodNotAllowed(allowed))
                } else {
                    Err(RouteError::NotFound)
                }
            },
        }
    }
}

fn allowed_methods(handlers: &Vec<Option<usize>>) -> (r: Vec<Method>)
    ensures
        r@ == allowed_from(handlers@, 0),
{
    let mut out: Vec<Method> = Vec::new();
    let mut i: usize = N_METHODS;
    while i > 0
        invariant
            i <= N_METHODS,
            out@ == allowed_from(handlers@, i as int),
        decreases i,
    {
        i = i - 1;
        if i < handlers.len() && handlers[i].is_some() {
            let m = Method::from_index(i);
            proof {
                assert(m == method_at(i as int));
            }
            let mut next: Vec<Method> = Vec::new();
            next.push(m);
            let mut k: usize = 0;
            while k < out.len()
                invariant
                    k <= out@.len(),
                    next@ == seq![m] + out@.subrange(0, k as int),
                decreases out@.len() - k,
            {
                next.push(out[k]);
                assert(seq![m] + out@.subrange(0, k as int + 1) =~= (seq![m] + out@.subrange(0, k as int)).push(out@[k as int]));
                k = k + 1;
            }
            assert(out@.subrange(0, out@.len() as int) =~= out@);
            out = next;
        }
    }
    out
}

/// Two segment patterns name the same child: the same kind, and for
/// literals the same text. A node has at most one parameter child and at
/// most one catch-all child.
pub open spec fn same_pattern(a: (Kind, Seq<u8>), b: (Kind, Seq<u8>)) -> bool {
    a.0 == b.0 && (a.0 != Kind::Static || a.1 == b.1)
}

/// The first child of `cur`, from position `j` on, whose pattern is `p`.
pub open spec fn find_same_from(nodes: Seq<NodeView>, cur: int, p: (Kind, Seq<u8>), j: int) -> Option<
    int,
>
    decreases nodes[cur].children.len() - j,
{
    if j >= nodes[cur].children.len() {
        None
    } else if same_pattern(nodes[nodes[cur].children[j] as int].pattern, p) {
        Some(nodes[cur].children[j] as int)
    } else {
        find_same_from(nodes, cur, p, j + 1)
    }
}

/// The node that stands for the segments of `route` from `pos` on, below `cur`.
pub open spec fn pattern_node(nodes: Seq<NodeView>, cur: int, route: Seq<u8>, pos: int) -> Option<int>
    decreases route.len() - pos,
    via pattern_node_decreases
{
    let end = find2(route, pos, SLASH, SLASH);
    if !(0 <= cur < nodes.len()) || pos < 0 || pos > route.len() {
        None
    } else {
        match find_same_from(nodes, cur, pattern_of(route.subrange(pos, end)), 0) {
            None => None,
            Some(c) => if end >= route.len() {
                Some(c)
            } else {
                pattern_node(nodes, c, route, end + 1)
            },
        }
    }
}

#[via_fn]
proof fn pattern_node_decreases(nodes: Seq<NodeView>, cur: int, route: Seq<u8>, pos: int) {
    if 0 <= pos <= route.len() {
        lemma_find2(route, pos, SLASH, SLASH);
    }
}

/// The segments of `route` from `pos` on are well formed: parameters and
/// catch-alls have names, and a catch-all comes last.
pub open spec fn valid_route_from(route: Seq<u8>, pos: int) -> bool
    decreases route.len() - pos,
    via valid_route_decreases
{
    let end = find2(route, pos, SLASH, SLASH);
    let p = pattern_of(route.subrange(pos, end));
    if pos < 0 || pos > route.len() {
        false
    } else {
        &&& (p.0 != Kind::Static ==> p.1.len() > 0)
        &&& (p.0 == Kind::CatchAll ==> end >= route.len())
        &&& (end >= route.len() || valid_route_from(route, end + 1))
    }
}

#[via_fn]
proof fn valid_route_decreases(route: Seq<u8>, pos: int) {
    if 0 <= pos <= route.len() {
        lemma_find2(route, pos, SLASH, SLASH);
    }
}

/// A route string: `/` and then its segments.
pub open spec fn valid_route(route: Seq<u8>) -> bool {
    route.len() > 0 && route[0] == SLASH && valid_route_from(route, 1)
}

proof fn lemma_find_same_frame(a: Seq<NodeView>, b: Seq<NodeView>, cur: int, p: (Kind, Seq<u8>), j: int)
    requires
        0 <= cur < a.len() <= b.len(),
        a[cur].children == b[cur].children,
        forall|x: int| 0 <= x < a.len() ==> (#[trigger] b[x]).pattern == a[x].pattern,
        forall|k: int| 0 <= k < a[cur].children.len() ==> (#[trigger] a[cur].children[k]) < a.len(),
        0 <= j,
    ensures
        find_same_from(a, cur, p, j) == find_same_from(b, cur, p, j),
    decreases a[cur].children.len() - j,
{
    if j < a[cur].children.len() {
        let c = a[cur].children[j] as int;
        assert(b[c].pattern == a[c].pattern);
        lemma_find_same_frame(a, b, cur, p, j + 1);
    }
}

proof fn lemma_find_same_pushed(a: Seq<NodeView>, b: Seq<NodeView>, cur: int, p: (Kind, Seq<u8>), c: usize, j: int)
    requires
        0 <= cur < a.len(),
        c < b.len(),
        a.len() <= b.len(),
        b[cur].children == a[cur].children.push(c),
        forall|x: int| 0 <= x < a.len() ==> (#[trigger] b[x]).pattern == a[x].pattern,
        forall|k: int| 0 <= k < a[cur].children.len() ==> (#[trigger] a[cur].children[k]) < a.len(),
        find_same_from(a, cur, p, j) is None,
        same_pattern(b[c as int].pattern, p),
        0 <= j <= a[cur].children.len(),
    ensures
        find_same_from(b, cur, p, j) == Some(c as int),
    decreases a[cur].children.len() - j,
{
    if j < a[cur].children.len() {
        let x = a[cur].children[j] as int;
        assert(b[cur].children[j] == a[cur].children[j]);
        assert(b[x].pattern == a[x].pattern);
        lemma_find_same_pushed(a, b, cur, p, c, j + 1);
    } else {
        assert(b[cur].children[j] == c);
    }
}

fn copy_vec<T: Copy>(v: &Vec<T>) -> (r: Vec<T>)
    ensures
        r@ == v@,
{
    let mut out: Vec<T> = Vec::new();
    let mut i: usize = 0;
    while i < v.len()
        invariant
            i <= v@.len(),
            out@ == v@.subrange(0, i as int),
        decreases v@.len() - i,
    {
        out.push(v[i]);
        assert(out@ =~= v@.subrange(0, i as int + 1));
        i = i + 1;
    }
    assert(v@.subrange(0, v@.len() as int) =~= v@);
    out
}

impl Node {
    fn copy_pattern(&self) -> (r: Pattern)
        ensures
            r.view() == self.view().pattern,
    {
        let text = copy_range(self.pattern.text.as_slice(), 0, self.pattern.text.len());
        assert(self.pattern.text@.subrange(0, self.pattern.text@.len() as int) =~= self.pattern.text@);
        Pattern { kind: self.pattern.kind, text }
    }
}

impl Router {
    fn find_same(&self, cur: usize, p: &Pattern) -> (r: Option<usize>)
        requires
            self.wf(),
            cur < self.nodes@.len(),
        ensures
            match find_same_from(self.view(), cur as int, p.view(), 0) {
                Some(c) => r matches Some(x) && x as int == c && cur < x < self.nodes@.len(),
                None => r is None,
            },
    {
        let ghost v = self.view();
        let node = &self.nodes[cur];
        let mut j: usize = 0;
        while j < node.children.len()
            invariant
                self.wf(),
                v == self.view(),
                cur < self.nodes@.len(),
                node == self.nodes@[cur as int],
                j <= node.children@.len(),
                find_same_from(v, cur as int, p.view(), 0) == find_same_from(v, cur as int, p.view(), j as int),
            decreases node.children@.len() - j,
        {
            let c = node.children[j];
            proof {
                assert(v[cur as int] == self.nodes@[cur as int].view());
                assert(cur < c < self.nodes@.len());
                assert(v[c as int] == self.nodes@[c as int].view());
            }
            let child = &self.nodes[c];
            if child.pattern.kind == p.kind {
                let same = match p.kind {
                    Kind::Static => {
                        let t = child.pattern.text.as_slice();
                        let hit = range_eq(t, 0, t.len(), p.text.as_slice());
                        assert(t@.subrange(0, t@.len() as int) =~= t@);
                        hit
                    },
                    _ => true,
                };
                if same {
                    return Some(c);
                }
            }
            j = j + 1;
        }
        None
    }

    /// Node `n` with `h` in the slot of `m`; nothing else changes.
    fn set_handler(&mut self, n: usize, m: Method, h: usize)
        requires
            old(self).wf(),
            n < old(self).nodes@.len(),
        ensures
            final(self).wf(),
            final(self).view().len() == old(self).view().len(),
            forall|x: int| 0 <= x < old(self).view().len() && x != n ==> #[trigger] final(self).view()[x] == old(self).view()[x],
            final(self).view()[n as int].pattern == old(self).view()[n as int].pattern,
            final(self).view()[n as int].children == old(self).view()[n as int].children,
            final(self).view()[n as int].handlers == old(self).view()[n as int].handlers.update(method_index(m), Some(h)),
    {
        let mut handlers = copy_vec(&self.nodes[n].handlers);
        handlers.set(m.index(), Some(h));
        let node = Node {
            pattern: self.nodes[n].copy_pattern(),
            children: copy_vec(&self.nodes[n].children),
            handlers,
        };
        self.nodes.set(n, node);
        proof {
            assert forall|x: int| 0 <= x < old(self).view().len() && x != n implies #[trigger] self.view()[x] == old(self).view()[x] by {
                assert(self.nodes@[x] == old(self).nodes@[x]);
            }
            assert(self.view()[n as int].handlers =~= old(self).view()[n as int].handlers.update(method_index(m), Some(h)));
            lemma_wf_arena(*old(self));
            assert forall|x: int| 0 <= x < old(self).view().len() implies (#[trigger] self.view()[x]).pattern == old(self).view()[x].pattern
                && self.view()[x].children == old(self).view()[x].children by {
                if x != n {
                    assert(self.view()[x] == old(self).view()[x]);
                }
            }
            lemma_shape_frame(old(self).view(), self.view());
        }
    }

    /// Node `cur` with `c` added to its children; nothing else changes.
    fn add_child(&mut self, cur: usize, c: usize)
        requires
            old(self).wf(),
            cur < c < old(self).nodes@.len(),
            old(self).view()[cur as int].pattern.0 != Kind::CatchAll,
            forall|k: int| 0 <= k < old(self).view()[cur as int].children.len() ==> !same_pattern(
                old(self).view()[#[trigger] old(self).view()[cur as int].children[k] as int].pattern,
                old(self).view()[c as int].pattern,
            ),
        ensures
            final(self).wf(),
            final(self).view().len() == old(self).view().len(),
            forall|x: int| 0 <= x < old(self).view().len() && x != cur ==> #[trigger] final(self).view()[x] == old(self).view()[x],
            final(self).view()[cur as int].pattern == old(self).view()[cur as int].pattern,
            final(self).view()[cur as int].children == old(self).view()[cur as int].children.push(c),
            final(self).view()[cur as int].handlers == old(self).view()[cur as int].handlers,
    {
        let mut children = copy_vec(&self.nodes[cur].children);
        children.push(c);
        let node = Node {
            pattern: self.nodes[cur].copy_pattern(),
            children,
            handlers: copy_vec(&self.nodes[cur].handlers),
        };
        self.nodes.set(cur, node);
        proof {
            assert forall|x: int| 0 <= x < old(self).view().len() && x != cur implies #[trigger] self.view()[x] == old(self).view()[x] by {
                assert(self.nodes@[x] == old(self).nodes@[x]);
            }
            assert forall|n: int, j: int|
                0 <= n < self.nodes@.len() && 0 <= j < self.nodes@[n].children@.len() implies n
                    < #[trigger] self.nodes@[n].children@[j] < self.nodes@.len() by {
                if n != cur {
                    assert(self.nodes@[n] == old(self).nodes@[n]);
                } else if j < old(self).nodes@[n].children@.len() {
                    assert(self.nodes@[n].children@[j] == old(self).nodes@[n].children@[j]);
                }
            }
            let a = old(self).view();
            let b = self.view();
            lemma_wf_arena(*old(self));
            assert forall|x: int| 0 <= x < a.len() implies (#[trigger] b[x]).pattern == a[x].pattern by {
                if x != cur {
                    assert(b[x] == a[x]);
                }
            }
            assert forall|n: int| 0 <= n < b.len() && (#[trigger] b[n]).pattern.0 == Kind::CatchAll implies b[n].children.len() == 0 by {
                if n != cur {
                    assert(b[n] == a[n]);
                }
            }
            assert forall|n: int, i: int, j: int|
                0 <= n < b.len() && 0 <= i < j < b[n].children.len() implies !same_pattern(
                    b[#[trigger] b[n].children[i] as int].pattern,
                    b[#[trigger] b[n].children[j] as int].pattern,
                ) by {
                let ci = b[n].children[i] as int;
                let cj = b[n].children[j] as int;
                if n != cur {
                    assert(b[n] == a[n]);
                    assert(!same_pattern(a[ci].pattern, a[cj].pattern));
                } else {
                    assert(b[n].children[i] == a[n].children[i]);
                    if j < a[n].children.len() {
                        assert(b[n].children[j] == a[n].children[j]);
                        assert(!same_pattern(a[ci].pattern, a[cj].pattern));
                    } else {
                        assert(cj == c);
                        assert(!same_pattern(a[ci].pattern, a[c as int].pattern));
                    }
                }
                assert(b[ci].pattern == a[ci].pattern);
                assert(b[cj].pattern == a[cj].pattern);
            }
        }
    }
}

/// The trie's shape: the root is a literal node, a catch-all node has no
/// children, and no two children of a node have the same pattern.
pub open spec fn tree_shape(nodes: Seq<NodeView>) -> bool {
    &&& nodes.len() >= 1
    &&& nodes[0].pattern.0 == Kind::Static
    &&& forall|n: int|
        0 <= n < nodes.len() && (#[trigger] nodes[n]).pattern.0 == Kind::CatchAll ==> nodes[n].children.len() == 0
    &&& forall|n: int, i: int, j: int|
        0 <= n < nodes.len() && 0 <= i < j < nodes[n].children.len() ==> !same_pattern(
            nodes[#[trigger] nodes[n].children[i] as int].pattern,
            nodes[#[trigger] nodes[n].children[j] as int].pattern,
        )
}

/// Keeping every node's pattern and children keeps the shape.
proof fn lemma_shape_frame(a: Seq<NodeView>, b: Seq<NodeView>)
    requires
        tree_shape(a),
        arena_ok(a),
        a.len() == b.len(),
        forall|x: int| 0 <= x < a.len() ==> (#[trigger] b[x]).pattern == a[x].pattern && b[x].children == a[x].children,
    ensures
        tree_shape(b),
{
    assert forall|n: int| 0 <= n < b.len() && (#[trigger] b[n]).pattern.0 == Kind::CatchAll implies b[n].children.len() == 0 by {
        assert(b[n].pattern == a[n].pattern);
        assert(a[n].pattern.0 == Kind::CatchAll);
    }
    assert forall|n: int, i: int, j: int|
        0 <= n < b.len() && 0 <= i < j < b[n].children.len() implies !same_pattern(
            b[#[trigger] b[n].children[i] as int].pattern,
            b[#[trigger] b[n].children[j] as int].pattern,
        ) by {
        assert(b[n] == b[n] && b[n].children == a[n].children);
        let ci = a[n].children[i] as int;
        let cj = a[n].children[j] as int;
        assert(!same_pattern(a[ci].pattern, a[cj].pattern));
        assert(b[ci].pattern == a[ci].pattern);
        assert(b[cj].pattern == a[cj].pattern);
    }
}

proof fn lemma_find_same_none(nodes: Seq<NodeView>, cur: int, p: (Kind, Seq<u8>), j: int)
    requires
        0 <= j,
        find_same_from(nodes, cur, p, j) is None,
    ensures
        forall|k: int| j <= k < nodes[cur].children.len() ==> !same_pattern(nodes[#[trigger] nodes[cur].children[k] as int].pattern, p),
    decreases nodes[cur].children.len() - j,
{
    if j < nodes[cur].children.len() {
        lemma_find_same_none(nodes, cur, p, j + 1);
    }
}

/// Which nodes hold a handler in `new` that they did not hold in `old`:
/// at most `target`, and only in slot `mi`.
pub open spec fn only_new_handler(old: Seq<NodeView>, new: Seq<NodeView>, target: Option<int>, mi: int) -> bool {
    forall|x: int, k: int|
        0 <= x < new.len() && 0 <= k < new[x].handlers.len() && (#[trigger] new[x].handlers[k]) is Some && !(x
            < old.len() && old[x].handlers[k] is Some) ==> target == Some(x) && k == mi
}

/// `new` grows `old`: the same nodes with the same patterns, children only
/// added after the old ones, and handlers kept, but for handler slot `mi`
/// that may go from empty to `h`.
pub open spec fn extends(old: Seq<NodeView>, new: Seq<NodeView>, mi: int, h: usize) -> bool {
    &&& old.len() <= new.len()
    &&& forall|x: int|
        0 <= x < old.len() ==> {
            &&& (#[trigger] new[x]).pattern == old[x].pattern
            &&& new[x].children.len() >= old[x].children.len()
            &&& new[x].children.subrange(0, old[x].children.len() as int) == old[x].children
            &&& new[x].handlers.len() == old[x].handlers.len()
            &&& forall|k: int|
                0 <= k < old[x].handlers.len() ==> #[trigger] new[x].handlers[k] == old[x].handlers[k] || (k == mi
                    && old[x].handlers[k] is None && new[x].handlers[k] == Some(h))
        }
}

proof fn lemma_extends_refl(a: Seq<NodeView>, mi: int, h: usize)
    ensures
        extends(a, a, mi, h),
{
    assert forall|x: int| 0 <= x < a.len() implies a[x].children.subrange(0, a[x].children.len() as int) == a[x].children by {
        assert(a[x].children.subrange(0, a[x].children.len() as int) =~= a[x].children);
    }
}

proof fn lemma_extends_trans(a: Seq<NodeView>, b: Seq<NodeView>, c: Seq<NodeView>, mi: int, h: usize)
    requires
        extends(a, b, mi, h),
        extends(b, c, mi, h),
    ensures
        extends(a, c, mi, h),
{
    assert forall|x: int| 0 <= x < a.len() implies {
        &&& (#[trigger] c[x]).pattern == a[x].pattern
        &&& c[x].children.len() >= a[x].children.len()
        &&& c[x].children.subrange(0, a[x].children.len() as int) == a[x].children
        &&& c[x].handlers.len() == a[x].handlers.len()
        &&& forall|k: int|
            0 <= k < a[x].handlers.len() ==> #[trigger] c[x].handlers[k] == a[x].handlers[k] || (k == mi
                && a[x].handlers[k] is None && c[x].handlers[k] == Some(h))
    } by {
        assert(b[x].pattern == a[x].pattern);
        assert(c[x].children.subrange(0, a[x].children.len() as int) =~= b[x].children.subrange(0, a[x].children.len() as int));
        assert forall|k: int| 0 <= k < a[x].handlers.len() implies #[trigger] c[x].handlers[k] == a[x].handlers[k] || (k == mi
                && a[x].handlers[k] is None && c[x].handlers[k] == Some(h)) by {
            assert(b[x].handlers[k] == a[x].handlers[k] || (k == mi && a[x].handlers[k] is None && b[x].handlers[k] == Some(h)));
            assert(c[x].handlers[k] == b[x].handlers[k] || (k == mi && b[x].handlers[k] is None && c[x].handlers[k] == Some(h)));
        }
    }
}

proof fn lemma_find_same_extends(a: Seq<NodeView>, b: Seq<NodeView>, cur: int, p: (Kind, Seq<u8>), j: int, mi: int, h: usize)
    requires
        extends(a, b, mi, h),
        arena_ok(a),
        0 <= cur < a.len(),
        0 <= j,
        find_same_from(a, cur, p, j) is Some,
    ensures
        find_same_from(b, cur, p, j) == find_same_from(a, cur, p, j),
    decreases a[cur].children.len() - j,
{
    let n = a[cur].children.len();
    assert(b[cur].children.subrange(0, n as int) == a[cur].children);
    if j < n {
        assert(b[cur].children[j] == a[cur].children[j]);
        let x = a[cur].children[j] as int;
        assert(b[x].pattern == a[x].pattern);
        if !same_pattern(a[x].pattern, p) {
            lemma_find_same_extends(a, b, cur, p, j + 1, mi, h);
        }
    }
}

proof fn lemma_pattern_node_extends(a: Seq<NodeView>, b: Seq<NodeView>, cur: int, q: Seq<u8>, pos: int, mi: int, h: usize)
    requires
        extends(a, b, mi, h),
        arena_ok(a),
        pattern_node(a, cur, q, pos) is Some,
    ensures
        pattern_node(b, cur, q, pos) == pattern_node(a, cur, q, pos),
    decreases q.len() - pos,
{
    let end = find2(q, pos, SLASH, SLASH);
    let p = pattern_of(q.subrange(pos, end));
    lemma_find2(q, pos, SLASH, SLASH);
    lemma_find_same_extends(a, b, cur, p, 0, mi, h);
    let c = find_same_from(a, cur, p, 0)->Some_0;
    lemma_same_is_child(a, cur, p, 0);
    if end < q.len() {
        lemma_pattern_node_extends(a, b, c, q, end + 1, mi, h);
    }
}

proof fn lemma_pattern_node_range(a: Seq<NodeView>, cur: int, q: Seq<u8>, pos: int)
    requires
        arena_ok(a),
    ensures
        pattern_node(a, cur, q, pos) matches Some(n) ==> 0 <= n < a.len(),
    decreases q.len() - pos,
{
    if 0 <= cur < a.len() && 0 <= pos <= q.len() {
        let end = find2(q, pos, SLASH, SLASH);
        let p = pattern_of(q.subrange(pos, end));
        lemma_find2(q, pos, SLASH, SLASH);
        lemma_same_is_child(a, cur, p, 0);
        if let Some(c) = find_same_from(a, cur, p, 0) {
            if end < q.len() {
                lemma_pattern_node_range(a, c, q, end + 1);
            }
        }
    }
}

/// Every route that had a handler for a method still leads to the same
/// node, with the same handler for that method.
pub open spec fn keeps_routes(old: Seq<NodeView>, new: Seq<NodeView>) -> bool {
    forall|q: Seq<u8>, k: int|
        #![auto]
        0 <= k < N_METHODS && pattern_node(old, 0, q, 1) is Some && old[pattern_node(old, 0, q, 1)->Some_0].handlers[k] is Some
            ==> pattern_node(new, 0, q, 1) == pattern_node(old, 0, q, 1) && new[pattern_node(old, 0, q, 1)->Some_0].handlers[k]
            == old[pattern_node(old, 0, q, 1)->Some_0].handlers[k]
}

impl Router {
    /// Registers `h` for `m` at the node for the segments of `route` from
    /// `pos` on below `cur`, adding the nodes that are missing.
    fn register_from(&mut self, cur: usize, route: &[u8], pos: usize, m: Method, h: usize)
        requires
            old(self).wf(),
            cur < old(self).nodes@.len(),
            1 <= pos <= route@.len(),
            old(self).nodes@.len() + route@.len() - pos + 1 < usize::MAX,
            valid_route_from(route@, pos as int),
            old(self).view()[cur as int].pattern.0 != Kind::CatchAll,
            pattern_node(old(self).view(), cur as int, route@, pos as int) matches Some(n) ==> old(self).view()[n].handlers[method_index(m)] is None,
        ensures
            final(self).wf(),
            extends(old(self).view(), final(self).view(), method_index(m), h),
            final(self).view().len() >= old(self).view().len(),
            final(self).view().len() <= old(self).view().len() + route@.len() - pos + 1,
            forall|x: int| 0 <= x < cur ==> #[trigger] final(self).view()[x] == old(self).view()[x],
            forall|x: int| 0 <= x < old(self).view().len() ==> (#[trigger] final(self).view()[x]).pattern == old(self).view()[x].pattern,
            pattern_node(final(self).view(), cur as int, route@, pos as int) matches Some(n)
                && final(self).view()[n].handlers[method_index(m)] == Some(h),
            only_new_handler(old(self).view(), final(self).view(), pattern_node(final(self).view(), cur as int, route@, pos as int), method_index(m)),
        decreases route@.len() - pos,
    {
        let ghost v0 = self.view();
        let end = find2_from(route, pos, SLASH, SLASH);
        proof {
            lemma_find2(route@, pos as int, SLASH, SLASH);
            assert(v0[cur as int] == self.nodes@[cur as int].view());
        }
        let p = Pattern::from_segment(route, pos, end);
        let c: usize;
        match self.find_same(cur, &p) {
            Some(x) => {
                c = x;
                proof {
                    lemma_extends_refl(v0, method_index(m), h);
                }
            },
            None => {
                c = self.nodes.len();
                self.nodes.push(Node::new(p));
                let ghost v1 = self.view();
                proof {
                    assert forall|x: int| 0 <= x < v0.len() implies #[trigger] v1[x] == v0[x] by {
                        assert(self.nodes@[x] == old(self).nodes@[x]);
                    }
                    assert forall|n: int, j: int|
                        0 <= n < self.nodes@.len() && 0 <= j < self.nodes@[n].children@.len() implies n
                            < #[trigger] self.nodes@[n].children@[j] < self.nodes@.len() by {
                        if n < c {
                            assert(self.nodes@[n] == old(self).nodes@[n]);
                        }
                    }
                }
                proof {
                    lemma_find_same_none(v0, cur as int, p.view(), 0);
                    assert(v1[cur as int] == v0[cur as int]);
                    assert forall|k: int| 0 <= k < v1[cur as int].children.len() implies !same_pattern(
                        v1[#[trigger] v1[cur as int].children[k] as int].pattern,
                        v1[c as int].pattern,
                    ) by {
                        let x = v0[cur as int].children[k] as int;
                        assert(x < c);
                        assert(v1[x] == v0[x]);
                    }
                }
                self.add_child(cur, c);
                proof {
                    let v2 = self.view();
                    assert(v2[c as int] == v1[c as int]);
                    lemma_find_same_pushed(v0, v2, cur as int, p.view(), c, 0);
                    assert forall|x: int| 0 <= x < v0.len() implies v2[x].children.subrange(0, v0[x].children.len() as int) == v0[x].children by {
                        assert(v2[x].children.subrange(0, v0[x].children.len() as int) =~= v0[x].children);
                    }
                    assert(extends(v0, v2, method_index(m), h));
                }
            },
        }
        let ghost v3 = self.view();
        proof {
            assert forall|x: int| 0 <= x < v0.len() implies (#[trigger] v3[x]).handlers == v0[x].handlers by {
                if v3 != v0 && x != cur {
                }
            }
            assert(v3.len() == v0.len() || (v3.len() == v0.len() + 1 && c == v0.len()));
            assert(c >= v0.len() ==> forall|k: int| 0 <= k < v3[c as int].handlers.len() ==> (#[trigger] v3[c as int].handlers[k]) is None);
            assert(v3[cur as int].children == v0[cur as int].children || v3[cur as int].children == v0[cur as int].children.push(c));
            assert(find_same_from(v3, cur as int, pattern_of(route@.subrange(pos as int, end as int)), 0) == Some(c as int)) by {
                if v3 == v0 {
                } 
            }
        }
        proof {
            assert(extends(v0, v3, method_index(m), h));
            if c >= v0.len() {
                assert(v3[c as int].children.len() == 0);
                assert(v3[c as int].handlers == Seq::new(N_METHODS as nat, |i: int| None::<usize>));
            } else {
                assert(v3 == v0);
            }
        }
        if end >= route.len() {
            proof {
                if c < v0.len() {
                    assert(pattern_node(v0, cur as int, route@, pos as int) == Some(c as int));
                }
                assert(v3[c as int].handlers[method_index(m)] is None);
            }
            self.set_handler(c, m, h);
            proof {
                let vf = self.view();
                assert forall|x: int, k: int|
                    0 <= x < vf.len() && 0 <= k < vf[x].handlers.len() && (#[trigger] vf[x].handlers[k]) is Some && !(x
                        < v0.len() && v0[x].handlers[k] is Some) implies Some(c as int) == Some(x) && k == method_index(m) by {
                    if x != c {
                        assert(vf[x] == v3[x]);
                        if x < v0.len() {
                            assert(v3[x].handlers == v0[x].handlers);
                        }
                    } else if k != method_index(m) {
                        assert(vf[x].handlers[k] == v3[x].handlers[k]);
                        if x < v0.len() {
                            assert(v3[x].handlers == v0[x].handlers);
                        }
                    }
                }
                assert forall|x: int| 0 <= x < v3.len() implies vf[x].children.subrange(0, v3[x].children.len() as int) == v3[x].children by {
                    assert(vf[x].children.subrange(0, v3[x].children.len() as int) =~= v3[x].children);
                }
                assert(extends(v3, vf, method_index(m), h));
            }
        } else {
            proof {
                if c < v0.len() {
                    assert(pattern_node(v0, cur as int, route@, pos as int) == pattern_node(v0, c as int, route@, end + 1));
                } else {
                    assert(find_same_from(v3, c as int, pattern_of(route@.subrange(end + 1, find2(route@, end + 1, SLASH, SLASH))), 0) is None);
                    assert(pattern_node(v3, c as int, route@, end + 1) is None);
                }
            }
            proof {
                lemma_same_is_child(v3, cur as int, p.view(), 0);
                assert(v3[c as int].pattern.0 == p.view().0);
            }
            self.register_from(c, route, end + 1, m, h);
            proof {
                let vf = self.view();
                assert forall|x: int, k: int|
                    0 <= x < vf.len() && 0 <= k < vf[x].handlers.len() && (#[trigger] vf[x].handlers[k]) is Some && !(x
                        < v0.len() && v0[x].handlers[k] is Some) implies !(x < v3.len() && v3[x].handlers[k] is Some) by {
                    if x < v0.len() {
                        assert(v3[x].handlers == v0[x].handlers);
                    }
                }
            }
        }
        proof {
            lemma_extends_trans(v0, v3, self.view(), method_index(m), h);
        }
        proof {
            let vf = self.view();
            assert(vf[cur as int] == v3[cur as int]);
            assert forall|x: int| 0 <= x < v3.len() implies (#[trigger] vf[x]).pattern == v3[x].pattern by {
                if x != c {
                }
            }
            lemma_find_same_frame(v3, vf, cur as int, p.view(), 0);
        }
    }
}

fn valid_route_exec(route: &[u8]) -> (r: bool)
    ensures
        r == valid_route(route@),
{
    if route.len() == 0 || route[0] != SLASH {
        return false;
    }
    let mut pos: usize = 1;
    loop
        invariant
            1 <= pos <= route@.len(),
            route@[0] == SLASH,
            valid_route_from(route@, 1) == valid_route_from(route@, pos as int),
        decreases route@.len() - pos,
    {
        let end = find2_from(route, pos, SLASH, SLASH);
        proof {
            lemma_find2(route@, pos as int, SLASH, SLASH);
        }
        let p = Pattern::from_segment(route, pos, end);
        let named = match p.kind {
            Kind::Static => true,
            _ => p.text.len() > 0,
        };
        if !named {
            return false;
        }
        if end >= route.len() {
            return true;
        }
        if p.kind == Kind::CatchAll {
            return false;
        }
        pos = end + 1;
    }
}

impl Router {
    fn lookup_pattern(&self, route: &[u8]) -> (r: Option<usize>)
        requires
            self.wf(),
            route@.len() >= 1,
        ensures
            match pattern_node(self.view(), 0, route@, 1) {
                Some(n) => r matches Some(x) && x as int == n && x < self.nodes@.len(),
                None => r is None,
            },
    {
        let ghost v = self.view();
        let mut cur: usize = 0;
        let mut pos: usize = 1;
        loop
            invariant
                self.wf(),
                v == self.view(),
                cur < self.nodes@.len(),
                1 <= pos <= route@.len(),
                pattern_node(v, 0, route@, 1) == pattern_node(v, cur as int, route@, pos as int),
            decreases route@.len() - pos,
        {
            let end = find2_from(route, pos, SLASH, SLASH);
            proof {
                lemma_find2(route@, pos as int, SLASH, SLASH);
            }
            let p = Pattern::from_segment(route, pos, end);
            match self.find_same(cur, &p) {
                None => {
                    return None;
                },
                Some(c) => {
                    if end >= route.len() {
                        return Some(c);
                    }
                    cur = c;
                    pos = end + 1;
                },
            }
        }
    }

    /// Registers `handler` for `m` and the route string `route`
    /// (`/literal/:param/*rest`).
    pub fn register(&mut self, m: Method, route: &str, handler: usize) -> (r: Result<(), RouteError>)
        requires
            old(self).wf(),
            old(self).view().len() + route.spec_bytes().len() < usize::MAX,
        ensures
            final(self).wf(),
            !valid_route(route.spec_bytes()) ==> r == Err::<(), RouteError>(RouteError::InvalidRoute)
                && final(self).view() == old(self).view(),
            valid_route(route.spec_bytes()) && (pattern_node(old(self).view(), 0, route.spec_bytes(), 1) matches Some(n)
                && old(self).view()[n].handlers[method_index(m)] is Some) ==> r == Err::<(), RouteError>(
                RouteError::DuplicateRoute,
            ) && final(self).view() == old(self).view(),
            valid_route(route.spec_bytes()) && !(pattern_node(old(self).view(), 0, route.spec_bytes(), 1) matches Some(n)
                && old(self).view()[n].handlers[method_index(m)] is Some) ==> r is Ok && (pattern_node(
                final(self).view(),
                0,
                route.spec_bytes(),
                1,
            ) matches Some(n) && final(self).view()[n].handlers[method_index(m)] == Some(handler)),
            keeps_routes(old(self).view(), final(self).view()),
            extends(old(self).view(), final(self).view(), method_index(m), handler),
            r is Ok ==> only_new_handler(
                old(self).view(),
                final(self).view(),
                pattern_node(final(self).view(), 0, route.spec_bytes(), 1),
                method_index(m),
            ),
            tree_shape(final(self).view()),
    {
        let bytes = route.as_bytes();
        proof {
            lemma_extends_refl(self.view(), method_index(m), handler);
            lemma_wf_arena(*self);
        }
        if !valid_route_exec(bytes) {
            return Err(RouteError::InvalidRoute);
        }
        match self.lookup_pattern(bytes) {
            Some(n) => {
                proof {
                    assert(self.view()[n as int] == self.nodes@[n as int].view());
                }
                if self.nodes[n].handlers[m.index()].is_some() {
                    return Err(RouteError::DuplicateRoute);
                }
            },
            None => {},
        }
        let ghost v0 = self.view();
        proof {
            lemma_wf_arena(*self);
        }
        self.register_from(0, bytes, 1, m, handler);
        proof {
            let v1 = self.view();
            lemma_wf_arena(*self);
            assert forall|q: Seq<u8>, k: int|
                #![auto]
                0 <= k < N_METHODS && pattern_node(v0, 0, q, 1) is Some && v0[pattern_node(v0, 0, q, 1)->Some_0].handlers[k] is Some
                    implies pattern_node(v1, 0, q, 1) == pattern_node(v0, 0, q, 1) && v1[pattern_node(v0, 0, q, 1)->Some_0].handlers[k]
                    == v0[pattern_node(v0, 0, q, 1)->Some_0].handlers[k] by {
                lemma_pattern_node_extends(v0, v1, 0, q, 1, method_index(m), handler);
                lemma_pattern_node_range(v0, 0, q, 1);
                let n = pattern_node(v0, 0, q, 1)->Some_0;
                assert(v1[n].handlers[k] == v0[n].handlers[k] || (k == method_index(m) && v0[n].handlers[k] is None && v1[n].handlers[k] == Some(handler)));
            }
        }
        Ok(())
    }
}

/// Every child index in the arena names a node of the arena.
pub open spec fn arena_ok(nodes: Seq<NodeView>) -> bool {
    forall|x: int, j: int|
        0 <= x < nodes.len() && 0 <= j < nodes[x].children.len() ==> 0 <= #[trigger] nodes[x].children[j]
            < nodes.len()
}

pub proof fn lemma_wf_arena(r: Router)
    requires
        r.wf(),
    ensures
        arena_ok(r.view()),
        tree_shape(r.view()),
        r.view().len() >= 1,
        forall|n: int| 0 <= n < r.view().len() ==> (#[trigger] r.view()[n]).handlers.len() == N_METHODS,
{
    assert forall|x: int, j: int|
        0 <= x < r.view().len() && 0 <= j < r.view()[x].children.len() implies 0 <= #[trigger] r.view()[x].children[j]
            < r.view().len() by {
        assert(r.view()[x] == r.nodes@[x].view());
    }
    assert forall|n: int| 0 <= n < r.view().len() implies (#[trigger] r.view()[n]).handlers.len() == N_METHODS by {
        assert(r.view()[n] == r.nodes@[n].view());
    }
}

proof fn lemma_walk_range(nodes: Seq<NodeView>, cur: int, path: Seq<u8>, pos: int, caps: Seq<Capture>)
    ensures
        walk(nodes, cur, path, pos, caps) matches Some((n, _)) ==> 0 <= n < nodes.len(),
    decreases path.len() - pos,
{
    if 0 <= cur < nodes.len() && 0 <= pos <= path.len() {
        let end = find2(path, pos, SLASH, SLASH);
        lemma_find2(path, pos, SLASH, SLASH);
        if let Some(c) = step(nodes, cur, path.subrange(pos, end)) {
            if 0 <= c < nodes.len() && nodes[c].pattern.0 != Kind::CatchAll && end < path.len() {
                let caps2 = if nodes[c].pattern.0 == Kind::Param {
                    caps.push((nodes[c].pattern.1, (pos, end)))
                } else {
                    caps
                };
                lemma_walk_range(nodes, c, path, end + 1, caps2);
            }
        }
    }
}

/// Registering adds no route but its own: when `new` is `old` after
/// `register(m, pattern, h)` succeeded (as `register` states it), every
/// handler that routing in `new` reaches, for any method and path, is `h`
/// or a handler that `old` already held.
pub proof fn law_register_adds_only_its_route(
    old: Router,
    new: Router,
    m: Method,
    pattern: Seq<u8>,
    h: usize,
    m2: Method,
    path: Seq<u8>,
)
    requires
        old.wf(),
        new.wf(),
        extends(old.view(), new.view(), method_index(m), h),
        only_new_handler(old.view(), new.view(), pattern_node(new.view(), 0, pattern, 1), method_index(m)),
        pattern_node(new.view(), 0, pattern, 1) matches Some(n) && new.view()[n].handlers[method_index(m)] == Some(h),
    ensures
        route(new.view(), m2, path) matches Routed::Found(g, _) ==> g == h || exists|x: int, k: int|
            0 <= x < old.view().len() && 0 <= k < N_METHODS && #[trigger] old.view()[x].handlers[k] == Some(g),
{
    lemma_wf_arena(old);
    lemma_wf_arena(new);
    if path.len() > 0 && path[0] == SLASH {
        lemma_walk_range(new.view(), 0, path, 1, Seq::empty());
        if let Some((n, _)) = walk(new.view(), 0, path, 1, Seq::empty()) {
            let k = method_index(m2);
            if let Some(g) = new.view()[n].handlers[k] {
                if n < old.view().len() && old.view()[n].handlers[k] is Some {
                    assert(old.view()[n].handlers[k] == Some(g));
                }
            }
        }
    }
}

/// The path's segments from `ppos` on follow the route's segments from
/// `rpos` on, below node `cur`: a literal segment equal to the route's, a
/// parameter over a non-empty segment that no literal child of its node
/// takes, a catch-all over the rest where no literal child takes the
/// segment and, for a non-empty one, no parameter child does either.
pub open spec fn path_follows(nodes: Seq<NodeView>, cur: int, route: Seq<u8>, rpos: int, path: Seq<u8>, ppos: int) -> bool
    decreases route.len() - rpos,
    via path_follows_decreases
{
    let rend = find2(route, rpos, SLASH, SLASH);
    let pend = find2(path, ppos, SLASH, SLASH);
    let p = pattern_of(route.subrange(rpos, rend));
    let seg = path.subrange(ppos, pend);
    if !(0 <= rpos <= route.len() && 0 <= ppos <= path.len()) {
        false
    } else if p.0 == Kind::CatchAll {
        find_child_from(nodes, cur, seg, Kind::Static, 0) is None && (seg.len() == 0
            || find_child_from(nodes, cur, seg, Kind::Param, 0) is None)
    } else {
        &&& (p.0 == Kind::Static ==> seg == p.1)
        &&& (p.0 == Kind::Param ==> seg.len() > 0 && find_child_from(nodes, cur, seg, Kind::Static, 0) is None)
        &&& (rend >= route.len() <==> pend >= path.len())
        &&& (rend < route.len() ==> match find_same_from(nodes, cur, p, 0) {
            Some(c) => path_follows(nodes, c, route, rend + 1, path, pend + 1),
            None => false,
        })
    }
}

#[via_fn]
proof fn path_follows_decreases(nodes: Seq<NodeView>, cur: int, route: Seq<u8>, rpos: int, path: Seq<u8>, ppos: int) {
    if 0 <= rpos <= route.len() {
        lemma_find2(route, rpos, SLASH, SLASH);
    }
}

proof fn lemma_child_is_same(nodes: Seq<NodeView>, cur: int, seg: Seq<u8>, p: (Kind, Seq<u8>), j: int)
    requires
        p.0 == Kind::Static ==> p.1 == seg,
        p.0 == Kind::Param ==> seg.len() > 0,
        0 <= j,
    ensures
        find_child_from(nodes, cur, seg, p.0, j) == find_same_from(nodes, cur, p, j),
    decreases nodes[cur].children.len() - j,
{
    if j < nodes[cur].children.len() {
        lemma_child_is_same(nodes, cur, seg, p, j + 1);
    }
}

proof fn lemma_no_param_for_empty(nodes: Seq<NodeView>, cur: int, seg: Seq<u8>, j: int)
    requires
        seg.len() == 0,
        0 <= j,
    ensures
        find_child_from(nodes, cur, seg, Kind::Param, j) is None,
    decreases nodes[cur].children.len() - j,
{
    if j < nodes[cur].children.len() {
        lemma_no_param_for_empty(nodes, cur, seg, j + 1);
    }
}

proof fn lemma_same_is_child(nodes: Seq<NodeView>, cur: int, p: (Kind, Seq<u8>), j: int)
    requires
        0 <= j,
    ensures
        find_same_from(nodes, cur, p, j) matches Some(c) ==> same_pattern(nodes[c].pattern, p) && exists|k: int|
            0 <= k < nodes[cur].children.len() && #[trigger] nodes[cur].children[k] as int == c,
    decreases nodes[cur].children.len() - j,
{
    if j < nodes[cur].children.len() {
        lemma_same_is_child(nodes, cur, p, j + 1);
    }
}

/// Walking a path that follows a route reaches the route's node.
proof fn lemma_follow(nodes: Seq<NodeView>, cur: int, route: Seq<u8>, rpos: int, path: Seq<u8>, ppos: int, caps: Seq<Capture>)
    requires
        arena_ok(nodes),
        0 <= cur < nodes.len(),
        valid_route_from(route, rpos),
        pattern_node(nodes, cur, route, rpos) is Some,
        path_follows(nodes, cur, route, rpos, path, ppos),
    ensures
        walk(nodes, cur, path, ppos, caps) matches Some((n, _)) && Some(n) == pattern_node(nodes, cur, route, rpos),
    decreases route.len() - rpos,
{
    let rend = find2(route, rpos, SLASH, SLASH);
    let pend = find2(path, ppos, SLASH, SLASH);
    let p = pattern_of(route.subrange(rpos, rend));
    let seg = path.subrange(ppos, pend);
    lemma_find2(route, rpos, SLASH, SLASH);
    lemma_find2(path, ppos, SLASH, SLASH);
    let c = find_same_from(nodes, cur, p, 0)->Some_0;
    lemma_same_is_child(nodes, cur, p, 0);
    if p.0 == Kind::Static {
        lemma_child_is_same(nodes, cur, seg, p, 0);
    } else if p.0 == Kind::Param {
        lemma_child_is_same(nodes, cur, seg, p, 0);
    } else {
        if seg.len() == 0 {
            lemma_no_param_for_empty(nodes, cur, seg, 0);
        }
        lemma_child_is_same(nodes, cur, seg, p, 0);
    }
    assert(step(nodes, cur, seg) == Some(c));
    assert(0 <= c < nodes.len());
    assert(nodes[c].pattern.0 == p.0);
    if p.0 != Kind::CatchAll && rend < route.len() {
        lemma_follow(nodes, c, route, rend + 1, path, pend + 1, if p.0 == Kind::Param {
            caps.push((nodes[c].pattern.1, (ppos, pend)))
        } else {
            caps
        });
    }
}

/// Route round trip: in a router where registering `h` for `m` and `route`
/// has succeeded, a request for `m` whose path follows the route `pattern` (see
/// `path_follows`) is routed to `h`.
pub proof fn law_route_round_trip(r: Router, m: Method, pattern: Seq<u8>, h: usize, path: Seq<u8>)
    requires
        r.wf(),
        valid_route(pattern),
        pattern_node(r.view(), 0, pattern, 1) matches Some(n) && r.view()[n].handlers[method_index(m)] == Some(h),
        path.len() > 0 && path[0] == SLASH,
        path_follows(r.view(), 0, pattern, 1, path, 1),
    ensures
        route(r.view(), m, path) matches Routed::Found(x, _) && x == h,
{
    lemma_wf_arena(r);
    lemma_follow(r.view(), 0, pattern, 1, path, 1, Seq::empty());
}

} // verus!
