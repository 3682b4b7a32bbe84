use vstd::prelude::*;

use crate::names::{norm, trim, norm_chars, chars_eq, valid_name, name_len_ok, trim_string};

verus! {

/// A node of the taxonomy: an interior grouping or a bird leaf.
/// Parent and child links are indices into the arena that a
/// `BirdTree` owns; a bird is always a leaf, so only groups carry
/// a child list.
pub enum Node {
    /// A taxonomical grouping for birds.
    Group { name: String, parent: Option<usize>, children: Vec<usize> },
    /// A bird. It sits at the bottom of the tree and has no children.
    Bird { name: String, scientific_name: String, parent: Option<usize> },
}

/// Raised when a group-only operation is applied to a bird: a caller
/// bug, kept apart from the user-facing errors in `GroupError`.
#[derive(Debug)]
pub struct NodeTypeError;

/// User-facing errors of lookups and mutations.
#[derive(Debug, PartialEq, Eq, Structural, Clone, Copy)]
pub enum GroupError {
    /// No group in the tree carries the requested name.
    NoGroupExistsErr,
    /// A supplied name is empty or longer than 50 code points.
    InputOutsideOfBoundsError,
}

impl Node {
    /// Whether this node is a group.
    pub open spec fn is_group(self) -> bool {
        self is Group
    }

    /// The parent link of the node.
    pub open spec fn spec_parent(self) -> Option<usize> {
        match self {
            Node::Group { parent, .. } => parent,
            Node::Bird { parent, .. } => parent,
        }
    }

    /// The child list: the group's children, or empty for a bird.
    pub open spec fn kids(self) -> Seq<usize> {
        match self {
            Node::Group { children, .. } => children@,
            Node::Bird { .. } => Seq::empty(),
        }
    }

    /// The common name of a bird, or the name of a group.
    pub open spec fn spec_name(self) -> Seq<char> {
        match self {
            Node::Group { name, .. } => name@,
            Node::Bird { name, .. } => name@,
        }
    }

    /// The scientific epithet of a bird; for a group, its name (the
    /// form the path resolver joins).
    pub open spec fn spec_sci(self) -> Seq<char> {
        match self {
            Node::Group { name, .. } => name@,
            Node::Bird { scientific_name, .. } => scientific_name@,
        }
    }
}

/// Local well-formedness of the arena at index `i`: the parent link
/// points strictly downward in index order to a group that lists `i`
/// among its children, and every child link points strictly upward to
/// a node that points back, with no child listed twice.
pub open spec fn wf_at(ns: Seq<Node>, i: int) -> bool {
    &&& match ns[i].spec_parent() {
        Some(p) => (p as int) < i && ns[p as int] is Group && ns[p as int].kids().contains(
            i as usize,
        ),
        None => true,
    }
    &&& forall|k: int| #![trigger ns[i].kids()[k]]
        0 <= k < ns[i].kids().len() ==> i < ns[i].kids()[k] as int && (ns[i].kids()[k] as int)
            < ns.len()
    &&& forall|k: int| #![trigger ns[i].kids()[k]]
        0 <= k < ns[i].kids().len() ==> ns[ns[i].kids()[k] as int].spec_parent() == Some(
            i as usize,
        )
    &&& forall|k1: int, k2: int| #![trigger ns[i].kids()[k1], ns[i].kids()[k2]]
        0 <= k1 < k2 < ns[i].kids().len() ==> ns[i].kids()[k1] != ns[i].kids()[k2]
}

/// Well-formedness of the whole arena.
pub open spec fn wf_arena(ns: Seq<Node>) -> bool {
    forall|i: int| 0 <= i < ns.len() ==> wf_at(ns, i)
}

impl Node {
    /// Create a new group node, detached and childless.
    pub fn new_group(name: &str) -> (n: Self)
        ensures
            n is Group,
            n.spec_name() == name@,
            n.spec_sci() == name@,
            n.spec_parent() is None,
            n.kids() == Seq::<usize>::empty(),
    {
        Node::Group { name: name.to_owned(), parent: None, children: Vec::new() }
    }

    /// Create a new bird node, detached.
    pub fn new_bird(name: &str, scientific_name: &str) -> (n: Self)
        ensures
            n is Bird,
            n.spec_name() == name@,
            n.spec_sci() == scientific_name@,
            n.spec_parent() is None,
            n.kids() == Seq::<usize>::empty(),
    {
        Node::Bird { name: name.to_owned(), scientific_name: scientific_name.to_owned(), parent: None }
    }

    /// The parent of the node, if it has one.
    pub fn parent(&self) -> (r: Option<usize>)
        ensures
            r == self.spec_parent(),
    {
        match self {
            Node::Group { parent, .. } => *parent,
            Node::Bird { parent, .. } => *parent,
        }
    }

    /// The children of a group node; a bird has none and the call is
    /// a caller bug, reported as `NodeTypeError`.
    pub fn children(&self) -> (r: Result<&Vec<usize>, NodeTypeError>)
        ensures
            match r {
                Ok(cs) => self is Group && cs@ == self.kids(),
                Err(_) => !(self is Group),
            },
    {
        match self {
            Node::Group { children, .. } => Ok(children),
            Node::Bird { .. } => Err(NodeTypeError),
        }
    }

    /// The scientific epithet of a bird; the plain name of a group.
    pub fn scientific_name(&self) -> (r: &str)
        ensures
            r@ == self.spec_sci(),
    {
        match self {
            Node::Group { name, .. } => name.as_str(),
            Node::Bird { scientific_name, .. } => scientific_name.as_str(),
        }
    }

    /// The common name of the node.
    pub fn name(&self) -> (r: &str)
        ensures
            r@ == self.spec_name(),
    {
        match self {
            Node::Group { name, .. } => name.as_str(),
            Node::Bird { name, .. } => name.as_str(),
        }
    }
}

/// The chain of indices from the top-most ancestor of `i` down to `i`
/// itself, following parent links.
pub open spec fn path_ids(ns: Seq<Node>, i: int) -> Seq<usize>
    decreases i,
{
    if 0 <= i < ns.len() {
        match ns[i].spec_parent() {
            Some(p) => if (p as int) < i {
                path_ids(ns, p as int).push(i as usize)
            } else {
                seq![i as usize]
            },
            None => seq![i as usize],
        }
    } else {
        Seq::empty()
    }
}

/// The scientific names along the chain from the top-most ancestor
/// down to `i`: group names, then, for a bird, its epithet.
pub open spec fn path_sci_names(ns: Seq<Node>, i: int) -> Seq<Seq<char>> {
    path_ids(ns, i).map_values(|j: usize| ns[j as int].spec_sci())
}

/// The names joined by single ASCII spaces.
pub open spec fn join_names(names: Seq<Seq<char>>) -> Seq<char>
    decreases names.len(),
{
    if names.len() == 0 {
        Seq::empty()
    } else if names.len() == 1 {
        names[0]
    } else {
        join_names(names.drop_last()) + seq![' '] + names.last()
    }
}

pub proof fn lemma_join_push(names: Seq<Seq<char>>, x: Seq<char>)
    requires
        names.len() >= 1,
    ensures
        join_names(names.push(x)) == join_names(names) + seq![' '] + x,
{
    let e = names.push(x);
    assert(e.len() >= 2);
    assert(e.drop_last() =~= names);
    assert(e.last() == x);
}

impl Node {
    /// Attach `child` to the group at `parent` inside the arena:
    /// the child is pushed as a fresh node whose parent link points
    /// at `parent`, and its index is appended to the parent's child
    /// list. Fails with `NodeTypeError` when `parent` is a bird, and
    /// then leaves the arena unchanged.
    pub fn add(nodes: &mut Vec<Node>, parent: usize, child: Node) -> (r: Result<
        usize,
        NodeTypeError,
    >)
        requires
            (parent as int) < old(nodes)@.len(),
            child.kids() == Seq::<usize>::empty(),
            old(nodes)@.len() < usize::MAX,
        ensures
            match r {
                Ok(c) => {
                    &&& old(nodes)@[parent as int] is Group
                    &&& c == old(nodes)@.len()
                    &&& final(nodes)@.len() == old(nodes)@.len() + 1
                    &&& final(nodes)@[c as int] is Group <==> child is Group
                    &&& final(nodes)@[c as int].spec_name() == child.spec_name()
                    &&& final(nodes)@[c as int].spec_sci() == child.spec_sci()
                    &&& final(nodes)@[c as int].spec_parent() == Some(parent)
                    &&& final(nodes)@[c as int].kids() == Seq::<usize>::empty()
                    &&& final(nodes)@[parent as int] is Group
                    &&& final(nodes)@[parent as int].spec_name() == old(nodes)@[
                        parent as int
                    ].spec_name()
                    &&& final(nodes)@[parent as int].spec_sci() == old(nodes)@[
                        parent as int
                    ].spec_sci()
                    &&& final(nodes)@[parent as int].spec_parent() == old(nodes)@[
                        parent as int
                    ].spec_parent()
                    &&& final(nodes)@[parent as int].kids() == old(nodes)@[
                        parent as int
                    ].kids().push(c)
                    &&& forall|i: int|
                        0 <= i < old(nodes)@.len() && i != parent as int ==> final(nodes)@[i]
                            == old(nodes)@[i]
                },
                Err(_) => {
                    &&& !(old(nodes)@[parent as int] is Group)
                    &&& final(nodes)@ == old(nodes)@
                },
            },
            wf_arena(old(nodes)@) ==> wf_arena(final(nodes)@),
    {
        let idx = nodes.len();
        match &nodes[parent] {
            Node::Bird { .. } => {
                return Err(NodeTypeError);
            },
            Node::Group { .. } => {},
        }
        let attached = match child {
            Node::Group { name, children, .. } => Node::Group {
                name,
                parent: Some(parent),
                children,
            },
            Node::Bird { name, scientific_name, .. } => Node::Bird {
                name,
                scientific_name,
                parent: Some(parent),
            },
        };
        nodes.push(attached);
        match &mut nodes[parent] {
            Node::Group { children, .. } => {
                children.push(idx);
            },
            Node::Bird { .. } => {},
        }
        proof {
            if wf_arena(old(nodes)@) {
                lemma_add_wf(old(nodes)@, final(nodes)@, parent as int, idx as int);
            }
        }
        Ok(idx)
    }
}

proof fn lemma_add_wf(ns0: Seq<Node>, ns1: Seq<Node>, p: int, c: int)
    requires
        wf_arena(ns0),
        ns0.len() < usize::MAX,
        0 <= p < ns0.len(),
        c == ns0.len(),
        ns1.len() == ns0.len() + 1,
        ns0[p] is Group,
        ns1[p] is Group,
        ns1[c].spec_parent() == Some(p as usize),
        ns1[c].kids() == Seq::<usize>::empty(),
        ns1[p].spec_parent() == ns0[p].spec_parent(),
        ns1[p].kids() == ns0[p].kids().push(c as usize),
        forall|i: int| 0 <= i < ns0.len() && i != p ==> ns1[i] == ns0[i],
    ensures
        wf_arena(ns1),
{
    assert forall|i: int| 0 <= i < ns1.len() implies wf_at(ns1, i) by {
        if i == c {
            assert(ns1[c].spec_parent() == Some(p as usize));
            assert(ns1[p].kids() == ns0[p].kids().push(c as usize));
            assert(ns1[p].kids()[ns0[p].kids().len() as int] == c as usize);
            assert(ns1[p].kids().contains(c as usize));
            assert(ns1[i].kids().len() == 0);
        } else {
            assert(wf_at(ns0, i));
            // the parent link of i still points at a group that lists i
            match ns0[i].spec_parent() {
                Some(q) => {
                    assert(ns1[i].spec_parent() == ns0[i].spec_parent());
                    if q as int == p {
                        assert(ns0[p].kids().contains(i as usize));
                        let k = choose|k: int|
                            0 <= k < ns0[p].kids().len() && ns0[p].kids()[k] == i as usize;
                        assert(ns1[p].kids()[k] == i as usize);
                        assert(ns1[p].kids().contains(i as usize));
                    } else {
                        assert(ns1[q as int] == ns0[q as int]);
                    }
                },
                None => {},
            }
            // every child link of i is intact
            if i == p {
                let ks0 = ns0[p].kids();
                let ks1 = ns1[p].kids();
                assert(ks1 == ks0.push(c as usize));
                assert(ks1.len() == ks0.len() + 1);
                assert forall|k: int| #![trigger ks1[k]] 0 <= k < ks1.len() implies i < ks1[k] as int
                    && (ks1[k] as int) < ns1.len() && ns1[ks1[k] as int].spec_parent() == Some(
                    i as usize,
                ) by {
                    if k < ks0.len() {
                        assert(ks1[k] == ks0[k]);
                        assert(i < ks0[k] as int && (ks0[k] as int) < ns0.len());
                        assert(ns0[ks0[k] as int].spec_parent() == Some(i as usize));
                        assert((ks0[k] as int) != p);
                        assert(ns1[ks0[k] as int] == ns0[ks0[k] as int]);
                    } else {
                        assert(ks1[k] == c as usize);
                    }
                }
                assert forall|k1: int, k2: int| #![trigger ks1[k1], ks1[k2]]
                    0 <= k1 < k2 < ks1.len() implies ks1[k1] != ks1[k2] by {
                    assert(ks1[k1] == ks0[k1]);
                    assert(i < ks0[k1] as int && (ks0[k1] as int) < ns0.len());
                    if k2 < ks0.len() {
                        assert(ks1[k2] == ks0[k2]);
                    } else {
                        assert(ks1[k2] == c as usize);
                    }
                }
                assert(wf_at(ns1, i));
            } else {
                assert(ns1[i] == ns0[i]);
                let ks = ns1[i].kids();
                assert(ks == ns0[i].kids());
                assert forall|k: int| #![trigger ks[k]] 0 <= k < ks.len() implies i < ks[k] as int
                    && (ks[k] as int) < ns1.len() && ns1[ks[k] as int].spec_parent() == Some(
                    i as usize,
                ) by {
                    assert(i < ks[k] as int && (ks[k] as int) < ns0.len());
                    assert(ns0[ks[k] as int].spec_parent() == Some(i as usize));
                    if (ks[k] as int) == p {
                        assert(ns1[p].spec_parent() == ns0[p].spec_parent());
                    } else {
                        assert(ns1[ks[k] as int] == ns0[ks[k] as int]);
                    }
                }
                assert(wf_at(ns1, i));
            }
        }
    }
}

} // verus!

verus! {

/// The taxonomy tree: a node arena, the index of the root group, and
/// the index of "direct parents" — the groups whose children are the
/// birds that the name searches scan.
pub struct BirdTree {
    /// Arena that owns every node; links are indices into it.
    pub nodes: Vec<Node>,

    /// Index of the root group.
    pub root: usize,

    /// Indices of the groups that sit directly above birds.
    pub direct_parents: Vec<usize>,
}

impl BirdTree {
    /// Well-formedness: the arena links are consistent, the root is a
    /// parentless group, and every direct parent is a group.
    pub open spec fn wf(self) -> bool {
        &&& wf_arena(self.nodes@)
        &&& (self.root as int) < self.nodes@.len()
        &&& self.nodes@[self.root as int] is Group
        &&& self.nodes@[self.root as int].spec_parent() is None
        &&& forall|k: int| #![trigger self.direct_parents@[k]]
            0 <= k < self.direct_parents@.len() ==> (self.direct_parents@[k] as int)
                < self.nodes@.len() && self.nodes@[self.direct_parents@[k] as int] is Group
    }

    /// Build a tree from an arena, a root and an initial list of
    /// direct parents. Returns `None` when the root or one of the
    /// direct parents is a bird.
    pub fn new(nodes: Vec<Node>, root: usize, direct_parents: Vec<usize>) -> (r: Option<BirdTree>)
        requires
            wf_arena(nodes@),
            (root as int) < nodes@.len(),
            nodes@[root as int].spec_parent() is None,
            forall|k: int| #![trigger direct_parents@[k]]
                0 <= k < direct_parents@.len() ==> (direct_parents@[k] as int) < nodes@.len(),
        ensures
            match r {
                Some(t) => {
                    &&& nodes@[root as int] is Group
                    &&& forall|k: int| #![trigger direct_parents@[k]]
                        0 <= k < direct_parents@.len() ==> nodes@[direct_parents@[k] as int]
                            is Group
                    &&& t.nodes@ == nodes@
                    &&& t.root == root
                    &&& t.direct_parents@ == direct_parents@
                    &&& t.wf()
                },
                None => !(nodes@[root as int] is Group) || exists|k: int|
                    #![trigger direct_parents@[k]]
                    0 <= k < direct_parents@.len() && !(nodes@[direct_parents@[k] as int]
                        is Group),
            },
    {
        match &nodes[root] {
            Node::Bird { .. } => {
                return None;
            },
            Node::Group { .. } => {},
        }
        let mut k: usize = 0;
        while k < direct_parents.len()
            invariant
                0 <= k <= direct_parents@.len(),
                forall|j: int| #![trigger direct_parents@[j]]
                    0 <= j < direct_parents@.len() ==> (direct_parents@[j] as int) < nodes@.len(),
                forall|j: int| #![trigger direct_parents@[j]]
                    0 <= j < k ==> nodes@[direct_parents@[j] as int] is Group,
            decreases direct_parents@.len() - k,
        {
            match &nodes[direct_parents[k]] {
                Node::Bird { .. } => {
                    return None;
                },
                Node::Group { .. } => {},
            }
            k = k + 1;
        }
        Some(BirdTree { nodes, root, direct_parents })
    }

    /// The names along the chain from the top ancestor down to `i`,
    /// joined by single spaces, with no trimming yet.
    fn joined_path(&self, i: usize) -> (r: String)
        requires
            self.wf(),
            (i as int) < self.nodes@.len(),
        ensures
            r@ == join_names(path_sci_names(self.nodes@, i as int)),
        decreases i,
    {
        proof {
            assert(wf_at(self.nodes@, i as int));
        }
        match self.nodes[i].parent() {
            Some(p) => {
                let mut s = self.joined_path(p);
                s.append(" ");
                s.append(self.nodes[i].scientific_name());
                proof {
                    reveal_strlit(" ");
                    assert(" "@ =~= seq![' ']);
                    let ns = self.nodes@;
                    assert(path_ids(ns, i as int) == path_ids(ns, p as int).push(i));
                    assert(path_ids(ns, p as int).len() >= 1);
                    assert(path_sci_names(ns, i as int) =~= path_sci_names(ns, p as int).push(
                        ns[i as int].spec_sci(),
                    ));
                    lemma_join_push(path_sci_names(ns, p as int), ns[i as int].spec_sci());
                }
                s
            },
            None => {
                let r = self.nodes[i].scientific_name().to_owned();
                proof {
                    let ns = self.nodes@;
                    assert(path_ids(ns, i as int) =~= seq![i]);
                    assert(path_sci_names(ns, i as int) =~= seq![ns[i as int].spec_sci()]);
                }
                r
            },
        }
    }

    /// The full scientific name of the node at `i`: the names along
    /// the chain from the root down to `i`, joined by single spaces,
    /// with surrounding whitespace collapsed by a final trim. A node
    /// with no parent is its own (trimmed) full name.
    pub fn full_scientific_name(&self, i: usize) -> (r: String)
        requires
            self.wf(),
            (i as int) < self.nodes@.len(),
        ensures
            r@ == trim(join_names(path_sci_names(self.nodes@, i as int))),
    {
        let joined = self.joined_path(i);
        trim_string(joined.as_str())
    }
}

/// The chain of indices always starts somewhere and ends at `i`.
pub proof fn lemma_path_shape(ns: Seq<Node>, i: int)
    requires
        0 <= i < ns.len(),
    ensures
        1 <= path_ids(ns, i).len() <= i + 1,
        path_ids(ns, i).last() == i as usize,
        forall|k: int| #![trigger path_ids(ns, i)[k]]
            0 <= k < path_ids(ns, i).len() ==> (path_ids(ns, i)[k] as int) <= i,
    decreases i,
{
    match ns[i].spec_parent() {
        Some(p) => {
            if (p as int) < i {
                lemma_path_shape(ns, p as int);
            }
        },
        None => {},
    }
}

/// The chain of `i`, and the names along it, depend only on nodes at
/// indices up to `i`: extending the arena, or changing child lists,
/// leaves them alone.
pub proof fn lemma_path_frame(ns0: Seq<Node>, ns1: Seq<Node>, i: int)
    requires
        ns0.len() <= ns1.len(),
        forall|j: int| #![trigger ns1[j]]
            0 <= j < ns0.len() ==> ns1[j].spec_parent() == ns0[j].spec_parent() && ns1[
                j
            ].spec_sci() == ns0[j].spec_sci(),
        0 <= i < ns0.len(),
    ensures
        path_ids(ns1, i) == path_ids(ns0, i),
        path_sci_names(ns1, i) == path_sci_names(ns0, i),
    decreases i,
{
    match ns0[i].spec_parent() {
        Some(p) => {
            if (p as int) < i {
                lemma_path_frame(ns0, ns1, p as int);
            }
        },
        None => {},
    }
    lemma_path_shape(ns0, i);
    assert(path_sci_names(ns1, i) =~= path_sci_names(ns0, i));
}

} // verus!

verus! {

/// The birds of the subtree rooted at `i`, in pre-order: a bird is
/// itself; a group contributes its children's birds in child order.
pub open spec fn subtree_birds(ns: Seq<Node>, i: int) -> Seq<usize>
    decreases ns.len() - i, 1int, 0int,
{
    if 0 <= i < ns.len() {
        if ns[i] is Bird {
            seq![i as usize]
        } else {
            subtree_birds_list(ns, ns[i].kids(), i)
        }
    } else {
        Seq::empty()
    }
}

/// The birds of the subtrees rooted at each index of `cs`, in order.
/// `i` bounds the recursion: only links that point strictly upward
/// (past `i`) are followed, which every well-formed arena satisfies.
pub open spec fn subtree_birds_list(ns: Seq<Node>, cs: Seq<usize>, i: int) -> Seq<usize>
    decreases ns.len() - i, 0int, cs.len(),
{
    if cs.len() == 0 {
        Seq::empty()
    } else {
        let head = if i < cs[0] as int && (cs[0] as int) < ns.len() {
            subtree_birds(ns, cs[0] as int)
        } else {
            Seq::empty()
        };
        head + subtree_birds_list(ns, cs.drop_first(), i)
    }
}

/// The first group in a pre-order walk from `i` whose name equals `q`
/// up to case and surrounding whitespace (`q` is already normalised).
pub open spec fn find_taxon(ns: Seq<Node>, i: int, q: Seq<char>) -> Option<usize>
    decreases ns.len() - i, 1int, 0int,
{
    if 0 <= i < ns.len() {
        if ns[i] is Group && norm(ns[i].spec_name()) == q {
            Some(i as usize)
        } else if ns[i] is Group {
            find_taxon_list(ns, ns[i].kids(), i, q)
        } else {
            None
        }
    } else {
        None
    }
}

/// The first hit of `find_taxon` over the subtrees rooted at `cs`.
pub open spec fn find_taxon_list(ns: Seq<Node>, cs: Seq<usize>, i: int, q: Seq<char>) -> Option<
    usize,
>
    decreases ns.len() - i, 0int, cs.len(),
{
    if cs.len() == 0 {
        None
    } else {
        let head = if i < cs[0] as int && (cs[0] as int) < ns.len() {
            find_taxon(ns, cs[0] as int, q)
        } else {
            None
        };
        if head is Some {
            head
        } else {
            find_taxon_list(ns, cs.drop_first(), i, q)
        }
    }
}

/// The name a search compares: the epithet for the scientific search,
/// the common name otherwise.
pub open spec fn bird_name_key(n: Node, by_sci: bool) -> Seq<char> {
    if by_sci {
        n.spec_sci()
    } else {
        n.spec_name()
    }
}

/// The first bird among `cs` whose key equals `q` up to case and
/// surrounding whitespace (`q` is already normalised).
pub open spec fn match_in_children(ns: Seq<Node>, cs: Seq<usize>, q: Seq<char>, by_sci: bool) -> Option<usize>
    decreases cs.len(),
{
    if cs.len() == 0 {
        None
    } else if (cs[0] as int) < ns.len() && ns[cs[0] as int] is Bird && norm(
        bird_name_key(ns[cs[0] as int], by_sci),
    ) == q {
        Some(cs[0])
    } else {
        match_in_children(ns, cs.drop_first(), q, by_sci)
    }
}

/// The first matching bird over the direct parents in index order,
/// each parent's children scanned in child order.
pub open spec fn search_spec(ns: Seq<Node>, dps: Seq<usize>, q: Seq<char>, by_sci: bool) -> Option<
    usize,
>
    decreases dps.len(),
{
    if dps.len() == 0 {
        None
    } else {
        let head = if (dps[0] as int) < ns.len() {
            match_in_children(ns, ns[dps[0] as int].kids(), q, by_sci)
        } else {
            None
        };
        if head is Some {
            head
        } else {
            search_spec(ns, dps.drop_first(), q, by_sci)
        }
    }
}

impl BirdTree {
    /// Depth-first pre-order lookup of a group by normalised name,
    /// starting at `start`.
    fn get_group_with_name(&self, start: usize, qn: &Vec<char>) -> (r: Option<usize>)
        requires
            self.wf(),
            (start as int) < self.nodes@.len(),
        ensures
            r == find_taxon(self.nodes@, start as int, qn@),
            r is Some ==> (r.unwrap() as int) < self.nodes@.len() && self.nodes@[
                r.unwrap() as int
            ] is Group,
        decreases self.nodes@.len() - start,
    {
        proof {
            assert(wf_at(self.nodes@, start as int));
        }
        match &self.nodes[start] {
            Node::Bird { .. } => None,
            Node::Group { name, children, .. } => {
                let nn = norm_chars(name.as_str());
                if chars_eq(&nn, qn) {
                    return Some(start);
                }
                let ghost ns = self.nodes@;
                let ghost cs = ns[start as int].kids();
                proof {
                    assert(cs.skip(0) =~= cs);
                }
                let mut k: usize = 0;
                while k < children.len()
                    invariant
                        self.wf(),
                        (start as int) < ns.len(),
                        ns == self.nodes@,
                        ns[start as int] is Group,
                        cs == ns[start as int].kids(),
                        children@ == cs,
                        norm(ns[start as int].spec_name()) != qn@,
                        0 <= k <= cs.len(),
                        find_taxon(ns, start as int, qn@) == find_taxon_list(
                            ns,
                            cs.skip(k as int),
                            start as int,
                            qn@,
                        ),
                    decreases cs.len() - k,
                {
                    proof {
                        assert(wf_at(ns, start as int));
                        assert(cs.skip(k as int)[0] == cs[k as int]);
                    }
                    let c = children[k];
                    let sub = self.get_group_with_name(c, qn);
                    proof {
                        assert(cs.skip(k as int).drop_first() =~= cs.skip(k as int + 1));
                    }
                    if let Some(g) = sub {
                        return Some(g);
                    }
                    k = k + 1;
                }
                proof {
                    assert(cs.skip(cs.len() as int) =~= Seq::<usize>::empty());
                }
                None
            },
        }
    }
}

} // verus!

verus! {

proof fn lemma_subtree_birds_list_snoc(ns: Seq<Node>, cs: Seq<usize>, i: int, x: usize)
    ensures
        subtree_birds_list(ns, cs.push(x), i) == subtree_birds_list(ns, cs, i) + (
        if i < x as int && (x as int) < ns.len() {
            subtree_birds(ns, x as int)
        } else {
            Seq::<usize>::empty()
        }),
    decreases cs.len(),
{
    let tail = if i < x as int && (x as int) < ns.len() {
        subtree_birds(ns, x as int)
    } else {
        Seq::<usize>::empty()
    };
    if cs.len() == 0 {
        assert(cs.push(x)[0] == x);
        assert(cs.push(x).drop_first() =~= Seq::<usize>::empty());
        assert(subtree_birds_list(ns, Seq::<usize>::empty(), i) == Seq::<usize>::empty());
        assert(subtree_birds_list(ns, cs.push(x), i) == tail + subtree_birds_list(
            ns,
            cs.push(x).drop_first(),
            i,
        ));
        assert(subtree_birds_list(ns, cs.push(x), i) =~= subtree_birds_list(ns, cs, i) + tail);
    } else {
        assert(cs.push(x)[0] == cs[0]);
        assert(cs.push(x).drop_first() =~= cs.drop_first().push(x));
        lemma_subtree_birds_list_snoc(ns, cs.drop_first(), i, x);
        let head = if i < cs[0] as int && (cs[0] as int) < ns.len() {
            subtree_birds(ns, cs[0] as int)
        } else {
            Seq::<usize>::empty()
        };
        assert(subtree_birds_list(ns, cs.push(x), i) == head + (subtree_birds_list(
            ns,
            cs.drop_first(),
            i,
        ) + tail));
        assert(head + (subtree_birds_list(ns, cs.drop_first(), i) + tail) =~= (head
            + subtree_birds_list(ns, cs.drop_first(), i)) + tail);
    }
}

impl BirdTree {
    /// Append every bird of the subtree rooted at `start` to `acc`,
    /// in pre-order.
    fn birds_in_group(&self, acc: &mut Vec<usize>, start: usize)
        requires
            self.wf(),
            (start as int) < self.nodes@.len(),
        ensures
            final(acc)@ == old(acc)@ + subtree_birds(self.nodes@, start as int),
        decreases self.nodes@.len() - start,
    {
        proof {
            assert(wf_at(self.nodes@, start as int));
        }
        match &self.nodes[start] {
            Node::Bird { .. } => {
                acc.push(start);
                proof {
                    assert(final(acc)@ =~= old(acc)@ + subtree_birds(
                        self.nodes@,
                        start as int,
                    ));
                }
            },
            Node::Group { children, .. } => {
                let ghost ns = self.nodes@;
                let ghost cs = ns[start as int].kids();
                let ghost acc0 = acc@;
                proof {
                    assert(cs.take(0) =~= Seq::<usize>::empty());
                    assert(acc@ =~= acc0 + subtree_birds_list(ns, cs.take(0), start as int));
                }
                let mut k: usize = 0;
                while k < children.len()
                    invariant
                        self.wf(),
                        (start as int) < ns.len(),
                        ns == self.nodes@,
                        ns[start as int] is Group,
                        cs == ns[start as int].kids(),
                        children@ == cs,
                        0 <= k <= cs.len(),
                        acc@ == acc0 + subtree_birds_list(ns, cs.take(k as int), start as int),
                    decreases cs.len() - k,
                {
                    proof {
                        assert(wf_at(ns, start as int));
                    }
                    let c = children[k];
                    self.birds_in_group(acc, c);
                    proof {
                        lemma_subtree_birds_list_snoc(ns, cs.take(k as int), start as int, c);
                        assert(cs.take(k as int).push(c) =~= cs.take(k as int + 1));
                        assert(acc@ =~= acc0 + subtree_birds_list(
                            ns,
                            cs.take(k as int + 1),
                            start as int,
                        ));
                    }
                    k = k + 1;
                }
                proof {
                    assert(cs.take(cs.len() as int) =~= cs);
                }
            },
        }
    }

    /// All birds in the subtree of the group named `group_name`
    /// (located case- and whitespace-insensitively by pre-order walk
    /// from the root), in pre-order; `NoGroupExistsErr` when no group
    /// carries that name.
    pub fn birds_in_group_from_name(&self, group_name: &str) -> (r: Result<Vec<usize>, GroupError>)
        requires
            self.wf(),
        ensures
            ({
                let f = find_taxon(self.nodes@, self.root as int, norm(group_name@));
                match r {
                    Ok(v) => f is Some && v@ == subtree_birds(self.nodes@, f.unwrap() as int),
                    Err(e) => f is None && e == GroupError::NoGroupExistsErr,
                }
            }),
    {
        let qn = norm_chars(group_name);
        let group = match self.get_group_with_name(self.root, &qn) {
            Some(g) => g,
            None => {
                return Err(GroupError::NoGroupExistsErr);
            },
        };
        let mut birds: Vec<usize> = Vec::new();
        self.birds_in_group(&mut birds, group);
        proof {
            assert(birds@ =~= subtree_birds(self.nodes@, group as int));
        }
        Ok(birds)
    }

    /// The shared scan of the two searches: walk the direct parents
    /// in index order and each one's children in child order; return
    /// the first bird whose key equals the query up to case and
    /// surrounding whitespace.
    fn search_impl(&self, query: &str, by_sci: bool) -> (r: Option<usize>)
        requires
            self.wf(),
        ensures
            r == search_spec(self.nodes@, self.direct_parents@, norm(query@), by_sci),
    {
        let qn = norm_chars(query);
        let ghost ns = self.nodes@;
        let ghost dps = self.direct_parents@;
        proof {
            assert(dps.skip(0) =~= dps);
        }
        let mut d: usize = 0;
        while d < self.direct_parents.len()
            invariant
                self.wf(),
                ns == self.nodes@,
                dps == self.direct_parents@,
                qn@ == norm(query@),
                0 <= d <= dps.len(),
                search_spec(ns, dps, qn@, by_sci) == search_spec(
                    ns,
                    dps.skip(d as int),
                    qn@,
                    by_sci,
                ),
            decreases dps.len() - d,
        {
            proof {
                assert(dps.skip(d as int)[0] == dps[d as int]);
            }
            let dp = self.direct_parents[d];
            let ghost cs = ns[dp as int].kids();
            match self.nodes[dp].children() {
                Err(_) => {
                    proof {
                        assert(dps.skip(d as int).drop_first() =~= dps.skip(d as int + 1));
                    }
                },
                Ok(children) => {
                    proof {
                        assert(cs.skip(0) =~= cs);
                    }
                    let mut k: usize = 0;
                    while k < children.len()
                        invariant
                            self.wf(),
                            ns == self.nodes@,
                            dps == self.direct_parents@,
                            0 <= d < dps.len(),
                            dps[d as int] == dp,
                            (dp as int) < ns.len(),
                            ns[dp as int] is Group,
                            cs == ns[dp as int].kids(),
                            children@ == cs,
                            qn@ == norm(query@),
                            0 <= k <= cs.len(),
                            search_spec(ns, dps, qn@, by_sci) == search_spec(
                                ns,
                                dps.skip(d as int),
                                qn@,
                                by_sci,
                            ),
                            match_in_children(ns, cs, qn@, by_sci) == match_in_children(
                                ns,
                                cs.skip(k as int),
                                qn@,
                                by_sci,
                            ),
                        decreases cs.len() - k,
                    {
                        proof {
                            assert(wf_at(ns, dp as int));
                            assert(cs.skip(k as int)[0] == cs[k as int]);
                            assert(cs.skip(k as int).drop_first() =~= cs.skip(k as int + 1));
                        }
                        let c = children[k];
                        let child = &self.nodes[c];
                        let is_bird = match child {
                            Node::Bird { .. } => true,
                            Node::Group { .. } => false,
                        };
                        if is_bird {
                            let key = if by_sci {
                                child.scientific_name()
                            } else {
                                child.name()
                            };
                            let kn = norm_chars(key);
                            if chars_eq(&kn, &qn) {
                                proof {
                                    assert(ns[c as int] is Bird);
                                    assert(norm(bird_name_key(ns[c as int], by_sci)) == qn@);
                                    assert(match_in_children(ns, cs.skip(k as int), qn@, by_sci)
                                        == Some(c));
                                    assert(match_in_children(ns, cs, qn@, by_sci) == Some(c));
                                    assert(dps.skip(d as int)[0] == dps[d as int]);
                                    assert(search_spec(ns, dps.skip(d as int), qn@, by_sci)
                                        == Some(c));
                                }
                                return Some(c);
                            }
                        }
                        k = k + 1;
                    }
                    proof {
                        assert(cs.skip(cs.len() as int) =~= Seq::<usize>::empty());
                        assert(dps.skip(d as int).drop_first() =~= dps.skip(d as int + 1));
                    }
                },
            }
            d = d + 1;
        }
        proof {
            assert(dps.skip(dps.len() as int) =~= Seq::<usize>::empty());
        }
        None
    }

    /// Find a bird by its common name, case- and whitespace-
    /// insensitively; the first hit in direct-parent order, then
    /// child order, wins.
    pub fn search_by_name(&self, name: &str) -> (r: Option<usize>)
        requires
            self.wf(),
        ensures
            r == search_spec(self.nodes@, self.direct_parents@, norm(name@), false),
    {
        self.search_impl(name, false)
    }

    /// Find a bird by its scientific epithet, case- and whitespace-
    /// insensitively; the first hit in direct-parent order, then
    /// child order, wins.
    pub fn search_by_scientific_name(&self, name: &str) -> (r: Option<usize>)
        requires
            self.wf(),
        ensures
            r == search_spec(self.nodes@, self.direct_parents@, norm(name@), true),
    {
        self.search_impl(name, true)
    }
}

} // verus!

verus! {

/// How one `Node::add` changes an arena: one fresh childless node at
/// the old length, attached under the group `g`, whose child list
/// grows by exactly that index; every other node is untouched.
pub open spec fn arena_extended(ns0: Seq<Node>, ns1: Seq<Node>, g: int) -> bool {
    &&& ns1.len() == ns0.len() + 1
    &&& 0 <= g < ns0.len()
    &&& ns1[ns0.len() as int].spec_parent() == Some(g as usize)
    &&& ns1[ns0.len() as int].kids() == Seq::<usize>::empty()
    &&& ns1[g] is Group
    &&& ns1[g].spec_name() == ns0[g].spec_name()
    &&& ns1[g].spec_sci() == ns0[g].spec_sci()
    &&& ns1[g].spec_parent() == ns0[g].spec_parent()
    &&& ns1[g].kids() == ns0[g].kids().push(ns0.len() as usize)
    &&& forall|i: int| 0 <= i < ns0.len() && i != g ==> ns1[i] == ns0[i]
}

impl BirdTree {
    pub(crate) proof fn lemma_tree_invs_after_add(self, other: BirdTree, g: int)
        requires
            self.wf(),
            other.root == self.root,
            arena_extended(self.nodes@, other.nodes@, g),
            wf_arena(other.nodes@),
            forall|k: int| #![trigger other.direct_parents@[k]]
                0 <= k < other.direct_parents@.len() ==> ((other.direct_parents@[k] as int)
                    < self.nodes@.len() && self.nodes@[other.direct_parents@[k] as int]
                    is Group) || other.direct_parents@[k] as int == g,
        ensures
            other.wf(),
    {
        let ns0 = self.nodes@;
        let ns1 = other.nodes@;
        if self.root as int == g {
            assert(ns1[other.root as int] is Group);
        } else {
            assert(ns1[self.root as int] == ns0[self.root as int]);
        }
        assert forall|k: int| #![trigger other.direct_parents@[k]]
            0 <= k < other.direct_parents@.len() implies (other.direct_parents@[k] as int)
            < ns1.len() && ns1[other.direct_parents@[k] as int] is Group by {
            let dpk = other.direct_parents@[k] as int;
            if dpk == g {
                assert(ns1[g] is Group);
            } else {
                assert(ns1[dpk] == ns0[dpk]);
            }
        }
    }

    /// Add a new group under the group named `parent`. The new name
    /// is validated first; then the parent is located by pre-order
    /// walk from the root. On success the fresh group is appended to
    /// the parent's child list; the direct-parent index is untouched.
    pub fn add_group(&mut self, parent: &str, new_group_name: &str) -> (r: Result<(), GroupError>)
        requires
            old(self).wf(),
            old(self).nodes@.len() < usize::MAX,
        ensures
            final(self).wf(),
            final(self).root == old(self).root,
            final(self).direct_parents@ == old(self).direct_parents@,
            ({
                let ns = old(self).nodes@;
                if !name_len_ok(new_group_name@) {
                    r == Err::<(), GroupError>(GroupError::InputOutsideOfBoundsError) && final(self).nodes@ == ns
                } else {
                    match find_taxon(ns, old(self).root as int, norm(parent@)) {
                        None => r == Err::<(), GroupError>(GroupError::NoGroupExistsErr) && final(self).nodes@ == ns,
                        Some(g) => {
                            &&& r == Ok::<(), GroupError>(())
                            &&& arena_extended(ns, final(self).nodes@, g as int)
                            &&& final(self).nodes@[ns.len() as int] is Group
                            &&& final(self).nodes@[ns.len() as int].spec_name()
                                == new_group_name@
                            &&& final(self).nodes@[ns.len() as int].spec_sci()
                                == new_group_name@
                        },
                    }
                }
            }),
    {
        if !valid_name(new_group_name) {
            return Err(GroupError::InputOutsideOfBoundsError);
        }
        let qn = norm_chars(parent);
        let parent_group = match self.get_group_with_name(self.root, &qn) {
            Some(g) => g,
            None => {
                return Err(GroupError::NoGroupExistsErr);
            },
        };
        let new_group = Node::new_group(new_group_name);
        let added = Node::add(&mut self.nodes, parent_group, new_group);
        proof {
            assert(added is Ok);
            old(self).lemma_tree_invs_after_add(*self, parent_group as int);
        }
        Ok(())
    }

    /// Add a new bird under the group named `parent`. Both names are
    /// validated first; then the parent is located by pre-order walk
    /// from the root. On success the bird is appended to the parent's
    /// child list, and the parent is appended to the direct-parent
    /// index unless it is already there, so that the new bird is
    /// reachable by the searches.
    pub fn add_bird(&mut self, parent: &str, name: &str, scientific_name: &str) -> (r: Result<
        (),
        GroupError,
    >)
        requires
            old(self).wf(),
            old(self).nodes@.len() < usize::MAX,
        ensures
            final(self).wf(),
            final(self).root == old(self).root,
            ({
                let ns = old(self).nodes@;
                let dps = old(self).direct_parents@;
                if !name_len_ok(name@) || !name_len_ok(scientific_name@) {
                    r == Err::<(), GroupError>(GroupError::InputOutsideOfBoundsError) && final(self).nodes@ == ns && final(self).direct_parents@ == dps
                } else {
                    match find_taxon(ns, old(self).root as int, norm(parent@)) {
                        None => r == Err::<(), GroupError>(GroupError::NoGroupExistsErr) && final(self).nodes@ == ns && final(self).direct_parents@ == dps,
                        Some(g) => {
                            &&& r == Ok::<(), GroupError>(())
                            &&& arena_extended(ns, final(self).nodes@, g as int)
                            &&& final(self).nodes@[ns.len() as int] is Bird
                            &&& final(self).nodes@[ns.len() as int].spec_name() == name@
                            &&& final(self).nodes@[ns.len() as int].spec_sci()
                                == scientific_name@
                            &&& final(self).direct_parents@ == (if dps.contains(g) {
                                dps
                            } else {
                                dps.push(g)
                            })
                        },
                    }
                }
            }),
    {
        if !valid_name(name) || !valid_name(scientific_name) {
            return Err(GroupError::InputOutsideOfBoundsError);
        }
        let qn = norm_chars(parent);
        let parent_group = match self.get_group_with_name(self.root, &qn) {
            Some(g) => g,
            None => {
                return Err(GroupError::NoGroupExistsErr);
            },
        };
        let new_bird = Node::new_bird(name, scientific_name);
        let added = Node::add(&mut self.nodes, parent_group, new_bird);
        proof {
            assert(added is Ok);
            old(self).lemma_tree_invs_after_add(*self, parent_group as int);
        }
        self.note_direct_parent(parent_group);
        Ok(())
    }
}

} // verus!

verus! {


/// The node is a group with exactly this name, parent link and child
/// list.
pub open spec fn group_entry(n: Node, name: Seq<char>, parent: Option<usize>, kids: Seq<usize>) -> bool {
    &&& n is Group
    &&& n.spec_name() == name
    &&& n.spec_parent() == parent
    &&& n.kids() == kids
}

/// The node is a bird with exactly this common name, epithet and
/// parent.
pub open spec fn bird_entry(n: Node, name: Seq<char>, sci: Seq<char>, parent: usize) -> bool {
    &&& n is Bird
    &&& n.spec_name() == name
    &&& n.spec_sci() == sci
    &&& n.spec_parent() == Some(parent)
}

/// Build the hardcoded starting taxonomy: the classification chain
/// down to four genera, each holding its well-known birds.
pub fn build_tree() -> (t: BirdTree)
    ensures
        t.wf(),
        t.nodes@.len() == 19,
        t.root == 0,
        t.direct_parents@ =~= seq![10usize, 11usize, 12usize, 13usize],
        group_entry(t.nodes@[0], "Animalia"@, None, seq![1usize]),
        group_entry(t.nodes@[1], "Chordata"@, Some(0usize), seq![2usize]),
        group_entry(t.nodes@[2], "Aves"@, Some(1usize), seq![3usize, 4usize, 5usize]),
        group_entry(t.nodes@[3], "Psittiaciformes"@, Some(2usize), seq![6usize]),
        group_entry(t.nodes@[4], "Apterygiformes"@, Some(2usize), seq![7usize]),
        group_entry(t.nodes@[5], "Passeriformes"@, Some(2usize), seq![8usize, 9usize]),
        group_entry(t.nodes@[6], "Strigopidae"@, Some(3usize), seq![10usize]),
        group_entry(t.nodes@[7], "Apterygidae"@, Some(4usize), seq![11usize]),
        group_entry(t.nodes@[8], "Rhipiduridae"@, Some(5usize), seq![12usize]),
        group_entry(t.nodes@[9], "Meliphagidae"@, Some(5usize), seq![13usize]),
        group_entry(t.nodes@[10], "Nestor"@, Some(6usize), seq![14usize, 15usize]),
        group_entry(t.nodes@[11], "Apteryx"@, Some(7usize), seq![16usize]),
        group_entry(t.nodes@[12], "Rhipidura"@, Some(8usize), seq![17usize]),
        group_entry(t.nodes@[13], "Prosthemadera"@, Some(9usize), seq![18usize]),
        bird_entry(t.nodes@[14], "Kaka"@, "meridionalis"@, 10),
        bird_entry(t.nodes@[15], "Kea"@, "notabilis"@, 10),
        bird_entry(t.nodes@[16], "Little Spotted Kiwi"@, "owenii"@, 11),
        bird_entry(t.nodes@[17], "Piwakawaka"@, "fuliginosa"@, 12),
        bird_entry(t.nodes@[18], "Tui"@, "novaeseelandiea"@, 13),
{
    let mut nodes: Vec<Node> = Vec::new();
    nodes.push(Node::new_group("Animalia"));
    proof {
        assert(wf_at(nodes@, 0));
        assert(wf_arena(nodes@));
    }
    let _ = Node::add(&mut nodes, 0, Node::new_group("Chordata"));
    let _ = Node::add(&mut nodes, 1, Node::new_group("Aves"));
    let _ = Node::add(&mut nodes, 2, Node::new_group("Psittiaciformes"));
    let _ = Node::add(&mut nodes, 2, Node::new_group("Apterygiformes"));
    let _ = Node::add(&mut nodes, 2, Node::new_group("Passeriformes"));
    let _ = Node::add(&mut nodes, 3, Node::new_group("Strigopidae"));
    let _ = Node::add(&mut nodes, 4, Node::new_group("Apterygidae"));
    let _ = Node::add(&mut nodes, 5, Node::new_group("Rhipiduridae"));
    let _ = Node::add(&mut nodes, 5, Node::new_group("Meliphagidae"));
    let _ = Node::add(&mut nodes, 6, Node::new_group("Nestor"));
    let _ = Node::add(&mut nodes, 7, Node::new_group("Apteryx"));
    let _ = Node::add(&mut nodes, 8, Node::new_group("Rhipidura"));
    let _ = Node::add(&mut nodes, 9, Node::new_group("Prosthemadera"));
    let _ = Node::add(&mut nodes, 10, Node::new_bird("Kaka", "meridionalis"));
    let _ = Node::add(&mut nodes, 10, Node::new_bird("Kea", "notabilis"));
    let _ = Node::add(&mut nodes, 11, Node::new_bird("Little Spotted Kiwi", "owenii"));
    let _ = Node::add(&mut nodes, 12, Node::new_bird("Piwakawaka", "fuliginosa"));
    let _ = Node::add(&mut nodes, 13, Node::new_bird("Tui", "novaeseelandiea"));
    proof {
        let ns = nodes@;
        assert(ns[0].kids() =~= seq![1usize]);
        assert(ns[1].kids() =~= seq![2usize]);
        assert(ns[2].kids() =~= seq![3usize, 4usize, 5usize]);
        assert(ns[3].kids() =~= seq![6usize]);
        assert(ns[4].kids() =~= seq![7usize]);
        assert(ns[5].kids() =~= seq![8usize, 9usize]);
        assert(ns[6].kids() =~= seq![10usize]);
        assert(ns[7].kids() =~= seq![11usize]);
        assert(ns[8].kids() =~= seq![12usize]);
        assert(ns[9].kids() =~= seq![13usize]);
        assert(ns[10].kids() =~= seq![14usize, 15usize]);
        assert(ns[11].kids() =~= seq![16usize]);
        assert(ns[12].kids() =~= seq![17usize]);
        assert(ns[13].kids() =~= seq![18usize]);
    }
    let mut direct_parents: Vec<usize> = Vec::new();
    direct_parents.push(10);
    direct_parents.push(11);
    direct_parents.push(12);
    direct_parents.push(13);
    let tree = BirdTree::new(nodes, 0, direct_parents);
    match tree {
        Some(t) => t,
        None => vstd::pervasive::unreached(),
    }
}

} // verus!

verus! {

impl BirdTree {
    /// Record `g` in the direct-parent index unless it is already
    /// there.
    pub(crate) fn note_direct_parent(&mut self, g: usize)
        requires
            old(self).wf(),
            (g as int) < old(self).nodes@.len(),
            old(self).nodes@[g as int] is Group,
        ensures
            final(self).wf(),
            final(self).nodes@ == old(self).nodes@,
            final(self).root == old(self).root,
            final(self).direct_parents@ == (if old(self).direct_parents@.contains(g) {
                old(self).direct_parents@
            } else {
                old(self).direct_parents@.push(g)
            }),
            final(self).direct_parents@.contains(g),
    {
        let ghost dps = self.direct_parents@;
        let mut present = false;
        let mut k: usize = 0;
        while k < self.direct_parents.len()
            invariant
                dps == self.direct_parents@,
                0 <= k <= dps.len(),
                present ==> dps.contains(g),
                !present ==> forall|j: int| 0 <= j < k ==> dps[j] != g,
            decreases dps.len() - k,
        {
            if self.direct_parents[k] == g {
                present = true;
            }
            k = k + 1;
        }
        proof {
            if !present {
                assert(!dps.contains(g));
            }
        }
        if !present {
            self.direct_parents.push(g);
            proof {
                assert(self.direct_parents@[dps.len() as int] == g);
                assert(self.direct_parents@.contains(g));
                assert forall|j: int| #![trigger self.direct_parents@[j]]
                    0 <= j < self.direct_parents@.len() implies (self.direct_parents@[j] as int)
                    < self.nodes@.len() && self.nodes@[self.direct_parents@[j] as int]
                    is Group by {
                    if j < dps.len() {
                        assert(self.direct_parents@[j] == dps[j]);
                        assert(old(self).wf());
                    }
                }
            }
        }
    }
}

} // verus!

verus! {

impl BirdTree {
    /// The display form of the node at `i`: a group shows its bare
    /// name; a bird shows its common name, its epithet and its full
    /// scientific name, one per line.
    pub fn node_details(&self, i: usize) -> (r: String)
        requires
            self.wf(),
            (i as int) < self.nodes@.len(),
        ensures
            self.nodes@[i as int] is Group ==> r@ == self.nodes@[i as int].spec_name(),
            self.nodes@[i as int] is Bird ==> r@ == self.nodes@[i as int].spec_name() + seq!['\n']
                + self.nodes@[i as int].spec_sci() + seq!['\n'] + trim(
                join_names(path_sci_names(self.nodes@, i as int)),
            ),
    {
        let is_bird = match &self.nodes[i] {
            Node::Bird { .. } => true,
            Node::Group { .. } => false,
        };
        if !is_bird {
            self.nodes[i].name().to_owned()
        } else {
            let mut s = self.nodes[i].name().to_owned();
            s.append("\n");
            s.append(self.nodes[i].scientific_name());
            s.append("\n");
            let full = self.full_scientific_name(i);
            s.append(full.as_str());
            proof {
                reveal_strlit("\n");
                assert("\n"@ =~= seq!['\n']);
            }
            s
        }
    }
}

} // verus!
