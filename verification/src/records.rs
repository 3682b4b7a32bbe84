use vstd::prelude::*;

use crate::names::{lower, norm, norm_chars, chars_eq, lower_string};
use crate::birds::{Node, BirdTree, wf_at, path_ids, path_sci_names, lemma_path_frame, lemma_path_shape};

verus! {

/// One persisted bird: the lowercased chain of group names from the
/// root to its direct parent, its scientific epithet (`name`) and its
/// common name.
pub struct BirdData {
    /// Lowercased group names, ordered root first, direct parent last.
    pub parent_nodes: Vec<String>,
    /// The scientific epithet.
    pub name: String,
    /// The common (display) name.
    pub common_name: String,
}

/// The character sequences of a list of strings.
pub open spec fn views_of(ss: Seq<String>) -> Seq<Seq<char>> {
    ss.map_values(|s: String| s@)
}

/// Each name ASCII-lowercased.
pub open spec fn lower_names(names: Seq<Seq<char>>) -> Seq<Seq<char>> {
    names.map_values(|n: Seq<char>| lower(n))
}

/// Each name in its comparison normal form.
pub open spec fn norm_names(names: Seq<Seq<char>>) -> Seq<Seq<char>> {
    names.map_values(|n: Seq<char>| norm(n))
}

/// `d` is the saved form of the bird `b`: its two names carried over,
/// and `parent_nodes` the lowercased names along the chain from the
/// root to `b`'s parent.
pub open spec fn record_matches(ns: Seq<Node>, b: usize, d: BirdData) -> bool {
    &&& (b as int) < ns.len()
    &&& ns[b as int] is Bird
    &&& d.name@ == ns[b as int].spec_sci()
    &&& d.common_name@ == ns[b as int].spec_name()
    &&& match ns[b as int].spec_parent() {
        Some(p) => views_of(d.parent_nodes@) == lower_names(path_sci_names(ns, p as int)),
        None => false,
    }
}

impl BirdTree {
    /// Append the lowercased names along the chain from the root-most
    /// ancestor of `i` down to `i` itself.
    fn collect_lower_path(&self, i: usize, acc: &mut Vec<String>)
        requires
            self.wf(),
            (i as int) < self.nodes@.len(),
        ensures
            views_of(final(acc)@) == views_of(old(acc)@) + lower_names(
                path_sci_names(self.nodes@, i as int),
            ),
        decreases i,
    {
        proof {
            assert(wf_at(self.nodes@, i as int));
        }
        let ghost ns = self.nodes@;
        match self.nodes[i].parent() {
            Some(p) => {
                self.collect_lower_path(p, acc);
                let ghost mid = acc@;
                let low = lower_string(self.nodes[i].scientific_name());
                proof {
                    assert(low@ == lower(ns[i as int].spec_sci()));
                }
                acc.push(low);
                proof {
                    assert(acc@ == mid.push(low));
                    assert(views_of(mid) == views_of(old(acc)@) + lower_names(
                        path_sci_names(ns, p as int),
                    ));
                    assert(path_ids(ns, i as int) == path_ids(ns, p as int).push(i));
                    assert(path_sci_names(ns, i as int) =~= path_sci_names(ns, p as int).push(
                        ns[i as int].spec_sci(),
                    ));
                    assert(lower_names(path_sci_names(ns, i as int)) =~= lower_names(
                        path_sci_names(ns, p as int),
                    ).push(lower(ns[i as int].spec_sci())));
                    assert(views_of(mid.push(low)) =~= views_of(mid).push(low@));
                    assert(views_of(acc@) =~= views_of(old(acc)@) + lower_names(
                        path_sci_names(ns, i as int),
                    ));
                }
            },
            None => {
                let low = lower_string(self.nodes[i].scientific_name());
                acc.push(low);
                proof {
                    assert(path_ids(ns, i as int) =~= seq![i]);
                    assert(path_sci_names(ns, i as int) =~= seq![ns[i as int].spec_sci()]);
                    assert(views_of(acc@) =~= views_of(old(acc)@) + lower_names(
                        path_sci_names(ns, i as int),
                    ));
                }
            },
        }
    }
}

/// The saved form of one bird: the lowercased chain of names from the
/// root to its parent, its epithet, and its common name.
pub fn bird_data_from_bird(tree: &BirdTree, bird: usize) -> (d: BirdData)
    requires
        tree.wf(),
        (bird as int) < tree.nodes@.len(),
        tree.nodes@[bird as int] is Bird,
        tree.nodes@[bird as int].spec_parent() is Some,
    ensures
        record_matches(tree.nodes@, bird, d),
{
    let p = match tree.nodes[bird].parent() {
        Some(p) => p,
        None => vstd::pervasive::unreached(),
    };
    proof {
        assert(wf_at(tree.nodes@, bird as int));
    }
    let mut parent_nodes: Vec<String> = Vec::new();
    tree.collect_lower_path(p, &mut parent_nodes);
    proof {
        assert(views_of(parent_nodes@) =~= lower_names(
            path_sci_names(tree.nodes@, p as int),
        ));
    }
    BirdData {
        parent_nodes,
        name: tree.nodes[bird].scientific_name().to_owned(),
        common_name: tree.nodes[bird].name().to_owned(),
    }
}

/// The bird members of a child list, in order.
pub open spec fn dp_bird_children(ns: Seq<Node>, cs: Seq<usize>) -> Seq<usize>
    decreases cs.len(),
{
    if cs.len() == 0 {
        Seq::empty()
    } else {
        let head = if (cs[0] as int) < ns.len() && ns[cs[0] as int] is Bird {
            seq![cs[0]]
        } else {
            Seq::<usize>::empty()
        };
        head + dp_bird_children(ns, cs.drop_first())
    }
}

/// Every bird reachable through the direct-parent index, in index
/// order then child order: the set the searches scan and the save
/// path writes out.
pub open spec fn scan_birds(ns: Seq<Node>, dps: Seq<usize>) -> Seq<usize>
    decreases dps.len(),
{
    if dps.len() == 0 {
        Seq::empty()
    } else {
        let head = if (dps[0] as int) < ns.len() {
            dp_bird_children(ns, ns[dps[0] as int].kids())
        } else {
            Seq::<usize>::empty()
        };
        head + scan_birds(ns, dps.drop_first())
    }
}

pub(crate) proof fn lemma_dp_bird_children_snoc(ns: Seq<Node>, cs: Seq<usize>, x: usize)
    ensures
        dp_bird_children(ns, cs.push(x)) == dp_bird_children(ns, cs) + (
        if (x as int) < ns.len() && ns[x as int] is Bird {
            seq![x]
        } else {
            Seq::<usize>::empty()
        }),
    decreases cs.len(),
{
    let tail = if (x as int) < ns.len() && ns[x as int] is Bird {
        seq![x]
    } else {
        Seq::<usize>::empty()
    };
    if cs.len() == 0 {
        assert(cs.push(x)[0] == x);
        assert(cs.push(x).drop_first() =~= Seq::<usize>::empty());
        assert(dp_bird_children(ns, Seq::<usize>::empty()) == Seq::<usize>::empty());
        assert(dp_bird_children(ns, cs.push(x)) =~= dp_bird_children(ns, cs) + tail);
    } else {
        assert(cs.push(x)[0] == cs[0]);
        assert(cs.push(x).drop_first() =~= cs.drop_first().push(x));
        lemma_dp_bird_children_snoc(ns, cs.drop_first(), x);
        let head = if (cs[0] as int) < ns.len() && ns[cs[0] as int] is Bird {
            seq![cs[0]]
        } else {
            Seq::<usize>::empty()
        };
        assert(dp_bird_children(ns, cs.push(x)) == head + (dp_bird_children(ns, cs.drop_first())
            + tail));
        assert(head + (dp_bird_children(ns, cs.drop_first()) + tail) =~= (head + dp_bird_children(
            ns,
            cs.drop_first(),
        )) + tail);
    }
}

proof fn lemma_scan_birds_snoc(ns: Seq<Node>, dps: Seq<usize>, x: usize)
    ensures
        scan_birds(ns, dps.push(x)) == scan_birds(ns, dps) + (
        if (x as int) < ns.len() {
            dp_bird_children(ns, ns[x as int].kids())
        } else {
            Seq::<usize>::empty()
        }),
    decreases dps.len(),
{
    let tail = if (x as int) < ns.len() {
        dp_bird_children(ns, ns[x as int].kids())
    } else {
        Seq::<usize>::empty()
    };
    if dps.len() == 0 {
        assert(dps.push(x)[0] == x);
        assert(dps.push(x).drop_first() =~= Seq::<usize>::empty());
        assert(scan_birds(ns, Seq::<usize>::empty()) == Seq::<usize>::empty());
        assert(scan_birds(ns, dps.push(x)) =~= scan_birds(ns, dps) + tail);
    } else {
        assert(dps.push(x)[0] == dps[0]);
        assert(dps.push(x).drop_first() =~= dps.drop_first().push(x));
        lemma_scan_birds_snoc(ns, dps.drop_first(), x);
        let head = if (dps[0] as int) < ns.len() {
            dp_bird_children(ns, ns[dps[0] as int].kids())
        } else {
            Seq::<usize>::empty()
        };
        assert(scan_birds(ns, dps.push(x)) == head + (scan_birds(ns, dps.drop_first()) + tail));
        assert(head + (scan_birds(ns, dps.drop_first()) + tail) =~= (head + scan_birds(
            ns,
            dps.drop_first(),
        )) + tail);
    }
}

/// The saved form of the whole tree: one record for each bird
/// reachable through the direct-parent index, in scan order.
pub fn tree_records(tree: &BirdTree) -> (rs: Vec<BirdData>)
    requires
        tree.wf(),
    ensures
        rs@.len() == scan_birds(tree.nodes@, tree.direct_parents@).len(),
        forall|k: int|
            0 <= k < rs@.len() ==> record_matches(
                tree.nodes@,
                scan_birds(tree.nodes@, tree.direct_parents@)[k],
                #[trigger] rs@[k],
            ),
{
    let ghost ns = tree.nodes@;
    let ghost dps = tree.direct_parents@;
    let mut rs: Vec<BirdData> = Vec::new();
    proof {
        assert(dps.take(0) =~= Seq::<usize>::empty());
    }
    let mut d: usize = 0;
    while d < tree.direct_parents.len()
        invariant
            tree.wf(),
            ns == tree.nodes@,
            dps == tree.direct_parents@,
            0 <= d <= dps.len(),
            rs@.len() == scan_birds(ns, dps.take(d as int)).len(),
            forall|k: int|
                0 <= k < rs@.len() ==> record_matches(
                    ns,
                    scan_birds(ns, dps.take(d as int))[k],
                    #[trigger] rs@[k],
                ),
        decreases dps.len() - d,
    {
        let dp = tree.direct_parents[d];
        let ghost cs = ns[dp as int].kids();
        let ghost done = scan_birds(ns, dps.take(d as int));
        match tree.nodes[dp].children() {
            Err(_) => {
                proof {
                    assert(false);
                }
            },
            Ok(children) => {
                proof {
                    assert(cs.take(0) =~= Seq::<usize>::empty());
                    assert(done + dp_bird_children(ns, cs.take(0)) =~= done);
                }
                let mut k: usize = 0;
                while k < children.len()
                    invariant
                        tree.wf(),
                        ns == tree.nodes@,
                        dps == tree.direct_parents@,
                        0 <= d < dps.len(),
                        dps[d as int] == dp,
                        (dp as int) < ns.len(),
                        ns[dp as int] is Group,
                        cs == ns[dp as int].kids(),
                        children@ == cs,
                        done == scan_birds(ns, dps.take(d as int)),
                        0 <= k <= cs.len(),
                        rs@.len() == (done + dp_bird_children(ns, cs.take(k as int))).len(),
                        forall|j: int|
                            0 <= j < rs@.len() ==> record_matches(
                                ns,
                                (done + dp_bird_children(ns, cs.take(k as int)))[j],
                                #[trigger] rs@[j],
                            ),
                    decreases cs.len() - k,
                {
                    proof {
                        assert(wf_at(ns, dp as int));
                    }
                    let c = children[k];
                    let is_bird = match &tree.nodes[c] {
                        Node::Bird { .. } => true,
                        Node::Group { .. } => false,
                    };
                    if is_bird {
                        let rec = bird_data_from_bird(tree, c);
                        rs.push(rec);
                    }
                    proof {
                        lemma_dp_bird_children_snoc(ns, cs.take(k as int), c);
                        assert(cs.take(k as int).push(c) =~= cs.take(k as int + 1));
                        if is_bird {
                            assert(dp_bird_children(ns, cs.take(k as int + 1))
                                =~= dp_bird_children(ns, cs.take(k as int)) + seq![c]);
                            assert((done + dp_bird_children(ns, cs.take(k as int + 1)))
                                =~= (done + dp_bird_children(ns, cs.take(k as int))).push(c));
                        } else {
                            assert(dp_bird_children(ns, cs.take(k as int + 1))
                                =~= dp_bird_children(ns, cs.take(k as int)));
                        }
                    }
                    k = k + 1;
                }
                proof {
                    assert(cs.take(cs.len() as int) =~= cs);
                    lemma_scan_birds_snoc(ns, dps.take(d as int), dp);
                    assert(dps.take(d as int).push(dp) =~= dps.take(d as int + 1));
                    assert(scan_birds(ns, dps.take(d as int + 1)) =~= done + dp_bird_children(
                        ns,
                        cs,
                    ));
                }
            },
        }
        d = d + 1;
    }
    proof {
        assert(dps.take(dps.len() as int) =~= dps);
    }
    rs
}

} // verus!

verus! {

/// What ingest keeps of an existing node: its variant, names and
/// parent are untouched; its child list may have grown at the end.
pub open spec fn node_preserved(a: Node, b: Node) -> bool {
    &&& (b is Group <==> a is Group)
    &&& b.spec_name() == a.spec_name()
    &&& b.spec_sci() == a.spec_sci()
    &&& b.spec_parent() == a.spec_parent()
    &&& a.kids().is_prefix_of(b.kids())
}

proof fn lemma_preserved_trans(a: Node, b: Node, c: Node)
    requires
        node_preserved(a, b),
        node_preserved(b, c),
    ensures
        node_preserved(a, c),
{
    assert(a.kids() =~= c.kids().subrange(0, a.kids().len() as int));
}

/// The first direct child of a list that is a group named `q` up to
/// case and surrounding whitespace (`q` is already normalised).
pub open spec fn find_child_taxon(ns: Seq<Node>, cs: Seq<usize>, q: Seq<char>) -> Option<usize>
    decreases cs.len(),
{
    if cs.len() == 0 {
        None
    } else if (cs[0] as int) < ns.len() && ns[cs[0] as int] is Group && norm(
        ns[cs[0] as int].spec_name(),
    ) == q {
        Some(cs[0])
    } else {
        find_child_taxon(ns, cs.drop_first(), q)
    }
}

/// What the taxon lookup among direct children hands back is a
/// member of the list.
pub(crate) proof fn lemma_find_child_member(ns: Seq<Node>, cs: Seq<usize>, q: Seq<char>)
    ensures
        match find_child_taxon(ns, cs, q) {
            Some(t) => cs.contains(t),
            None => true,
        },
    decreases cs.len(),
{
    if cs.len() > 0 {
        if (cs[0] as int) < ns.len() && ns[cs[0] as int] is Group && norm(
            ns[cs[0] as int].spec_name(),
        ) == q {
            assert(cs.contains(cs[0]));
        } else {
            lemma_find_child_member(ns, cs.drop_first(), q);
            match find_child_taxon(ns, cs.drop_first(), q) {
                Some(t) => {
                    let k = choose|k: int|
                        0 <= k < cs.drop_first().len() && cs.drop_first()[k] == t;
                    assert(cs[k + 1] == t);
                    assert(cs.contains(t));
                },
                None => {},
            }
        }
    }
}

/// The lookup among direct children reads only the nodes the list
/// points at: two arenas that agree on them agree on the result.
pub(crate) proof fn lemma_find_child_frame(ns0: Seq<Node>, ns1: Seq<Node>, cs: Seq<usize>, q: Seq<char>)
    requires
        ns0.len() <= ns1.len(),
        forall|k: int| #![trigger cs[k]]
            0 <= k < cs.len() ==> (cs[k] as int) < ns0.len() && ns1[cs[k] as int] == ns0[
                cs[k] as int
            ],
    ensures
        find_child_taxon(ns1, cs, q) == find_child_taxon(ns0, cs, q),
    decreases cs.len(),
{
    if cs.len() > 0 {
        assert forall|k: int| #![trigger cs.drop_first()[k]]
            0 <= k < cs.drop_first().len() implies (cs.drop_first()[k] as int) < ns0.len()
            && ns1[cs.drop_first()[k] as int] == ns0[cs.drop_first()[k] as int] by {
            assert(cs.drop_first()[k] == cs[k + 1]);
        }
        lemma_find_child_frame(ns0, ns1, cs.drop_first(), q);
        assert((cs[0] as int) < ns0.len());
        assert(ns1[cs[0] as int] == ns0[cs[0] as int]);
    }
}

/// How one step of the ingest descent resolved `name` below `parent`
/// (indices into the final arena `ns1`; `ns0` is the arena the ingest
/// started from). Either an existing child group — the first direct
/// child of `parent` matching case- and whitespace-insensitively —
/// was entered and nothing was created, or no old direct child
/// matched and a fresh group carrying the record's exact name was
/// appended.
pub open spec fn step_resolved(
    ns0: Seq<Node>,
    ns1: Seq<Node>,
    parent: usize,
    child: usize,
    name: Seq<char>,
) -> bool {
    if (child as int) < ns0.len() {
        (parent as int) < ns0.len() && find_child_taxon(
            ns0,
            ns0[parent as int].kids(),
            norm(name),
        ) == Some(child)
    } else {
        &&& ns1[child as int].spec_name() == name
        &&& ((parent as int) < ns0.len() ==> find_child_taxon(
            ns0,
            ns0[parent as int].kids(),
            norm(name),
        ) is None)
    }
}

impl BirdTree {
    /// The first direct child group of `g` whose name equals the
    /// normalised query.
    fn find_child_group(&self, g: usize, qn: &Vec<char>) -> (r: Option<usize>)
        requires
            self.wf(),
            (g as int) < self.nodes@.len(),
        ensures
            r == find_child_taxon(self.nodes@, self.nodes@[g as int].kids(), qn@),
            match r {
                Some(c) => (g as int) < (c as int) < self.nodes@.len() && self.nodes@[c as int]
                    is Group && self.nodes@[c as int].spec_parent() == Some(g) && norm(
                    self.nodes@[c as int].spec_name(),
                ) == qn@,
                None => true,
            },
    {
        proof {
            assert(wf_at(self.nodes@, g as int));
        }
        let ghost ns = self.nodes@;
        let ghost cs = ns[g as int].kids();
        let children = match self.nodes[g].children() {
            Ok(children) => children,
            Err(_) => {
                proof {
                    assert(cs =~= Seq::<usize>::empty());
                }
                return None;
            },
        };
        proof {
            assert(cs.skip(0) =~= cs);
        }
        let mut k: usize = 0;
        while k < children.len()
            invariant
                self.wf(),
                ns == self.nodes@,
                (g as int) < ns.len(),
                ns[g as int] is Group,
                cs == ns[g as int].kids(),
                children@ == cs,
                0 <= k <= cs.len(),
                find_child_taxon(ns, cs, qn@) == find_child_taxon(ns, cs.skip(k as int), qn@),
            decreases cs.len() - k,
        {
            proof {
                assert(wf_at(ns, g as int));
                assert(cs.skip(k as int)[0] == cs[k as int]);
                assert(cs.skip(k as int).drop_first() =~= cs.skip(k as int + 1));
            }
            let c = children[k];
            let child = &self.nodes[c];
            let is_group = match child {
                Node::Group { .. } => true,
                Node::Bird { .. } => false,
            };
            if is_group {
                let nn = norm_chars(child.name());
                if chars_eq(&nn, qn) {
                    return Some(c);
                }
            }
            k = k + 1;
        }
        proof {
            assert(cs.skip(cs.len() as int) =~= Seq::<usize>::empty());
        }
        None
    }

    /// Ingest one persisted record: starting below the root, walk the
    /// names of `parent_nodes` past its leading root entry, descending
    /// into an existing child group whose name matches case- and
    /// whitespace-insensitively, or creating a group with the record's
    /// exact name where none does. The group reached at the end is
    /// recorded in the direct-parent index, and the record's bird is
    /// appended under it.
    pub fn insert_data(&mut self, data: &BirdData)
        requires
            old(self).wf(),
            data.parent_nodes@.len() >= 1,
            old(self).nodes@.len() + data.parent_nodes@.len() < usize::MAX,
        ensures
            final(self).wf(),
            final(self).root == old(self).root,
            old(self).nodes@.len() < final(self).nodes@.len(),
            forall|i: int|
                0 <= i < old(self).nodes@.len() ==> node_preserved(
                    old(self).nodes@[i],
                    #[trigger] final(self).nodes@[i],
                ),
            ({
                let ns1 = final(self).nodes@;
                let b = ns1.len() - 1;
                &&& ns1[b] is Bird
                &&& ns1[b].spec_name() == data.common_name@
                &&& ns1[b].spec_sci() == data.name@
                &&& match ns1[b].spec_parent() {
                    Some(g) => {
                        &&& (g as int) < b
                        &&& ns1[g as int] is Group
                        &&& final(self).direct_parents@.contains(g)
                        &&& final(self).direct_parents@ == (if old(
                            self,
                        ).direct_parents@.contains(g) {
                            old(self).direct_parents@
                        } else {
                            old(self).direct_parents@.push(g)
                        })
                        &&& norm_names(path_sci_names(ns1, g as int)) == seq![
                            norm(old(self).nodes@[old(self).root as int].spec_name()),
                        ] + norm_names(views_of(data.parent_nodes@)).subrange(
                            1,
                            data.parent_nodes@.len() as int,
                        )
                        &&& ({
                            // the parent chain of the new bird records how each
                            // name of the record was resolved: reuse of the
                            // first matching old child, or a fresh group
                            let chain = path_ids(ns1, g as int);
                            &&& chain.len() == data.parent_nodes@.len()
                            &&& chain[0] == old(self).root
                            &&& forall|jj: int| #![trigger chain[jj]]
                                1 <= jj < chain.len() ==> step_resolved(
                                    old(self).nodes@,
                                    ns1,
                                    chain[jj - 1],
                                    chain[jj],
                                    views_of(data.parent_nodes@)[jj],
                                )
                            &&& forall|i: int|
                                old(self).nodes@.len() <= i < b ==> #[trigger] chain.contains(
                                    i as usize,
                                )
                        })
                    },
                    None => false,
                }
            }),
    {
        let ghost ns0 = old(self).nodes@;
        let ghost rootname = ns0[old(self).root as int].spec_name();
        let mut current: usize = self.root;
        proof {
            assert(path_ids(ns0, current as int) =~= seq![current]);
            assert(path_sci_names(ns0, current as int) =~= seq![ns0[current as int].spec_sci()]);
            assert(norm_names(path_sci_names(ns0, current as int)) =~= seq![norm(rootname)]);
            assert(norm_names(views_of(data.parent_nodes@)).subrange(1, 1)
                =~= Seq::<Seq<char>>::empty());
            assert(norm_names(path_sci_names(ns0, current as int)) =~= seq![norm(rootname)]
                + norm_names(views_of(data.parent_nodes@)).subrange(1, 1));
            assert forall|i: int| 0 <= i < ns0.len() implies node_preserved(
                ns0[i],
                #[trigger] self.nodes@[i],
            ) by {
                assert(ns0[i].kids() =~= ns0[i].kids().subrange(0, ns0[i].kids().len() as int));
            }
        }
        let mut j: usize = 1;
        while j < data.parent_nodes.len()
            invariant
                self.wf(),
                self.root == old(self).root,
                self.direct_parents@ == old(self).direct_parents@,
                ns0 == old(self).nodes@,
                old(self).wf(),
                rootname == ns0[old(self).root as int].spec_name(),
                1 <= j <= data.parent_nodes@.len(),
                ns0.len() + data.parent_nodes@.len() < usize::MAX,
                ns0.len() <= self.nodes@.len(),
                self.nodes@.len() <= ns0.len() + j - 1,
                forall|i: int|
                    0 <= i < ns0.len() ==> node_preserved(ns0[i], #[trigger] self.nodes@[i]),
                (current as int) < self.nodes@.len(),
                self.nodes@[current as int] is Group,
                norm_names(path_sci_names(self.nodes@, current as int)) == seq![norm(rootname)]
                    + norm_names(views_of(data.parent_nodes@)).subrange(1, j as int),
                path_ids(self.nodes@, current as int).len() == j,
                path_ids(self.nodes@, current as int)[0] == old(self).root,
                forall|jj: int| #![trigger path_ids(self.nodes@, current as int)[jj]]
                    1 <= jj < j ==> step_resolved(
                        ns0,
                        self.nodes@,
                        path_ids(self.nodes@, current as int)[jj - 1],
                        path_ids(self.nodes@, current as int)[jj],
                        views_of(data.parent_nodes@)[jj],
                    ),
                forall|i: int|
                    ns0.len() <= i < self.nodes@.len() ==> #[trigger] path_ids(
                        self.nodes@,
                        current as int,
                    ).contains(i as usize),
                forall|i: int| #![trigger self.nodes@[i]]
                    0 <= i < ns0.len() && !path_ids(self.nodes@, current as int).contains(
                        i as usize,
                    ) ==> self.nodes@[i] == ns0[i],
                (current as int) < ns0.len() ==> self.nodes@[current as int] == ns0[
                    current as int
                ],
                (current as int) >= ns0.len() ==> self.nodes@[current as int].kids()
                    == Seq::<usize>::empty(),
            decreases data.parent_nodes@.len() - j,
        {
            let ghost before = self.nodes@;
            let ghost chain0 = path_ids(before, current as int);
            let qn = norm_chars(data.parent_nodes[j].as_str());
            proof {
                assert(data.parent_nodes@[j as int]@ == views_of(data.parent_nodes@)[j as int]);
                assert(qn@ == norm_names(views_of(data.parent_nodes@))[j as int]);
                assert(norm(views_of(data.parent_nodes@)[j as int]) == qn@);
                lemma_path_shape(before, current as int);
                assert(chain0.last() == current);
                assert(chain0[j - 1] == current);
                if (current as int) < ns0.len() {
                    // the node the walk stands on is untouched, and so are
                    // its children: the lookup over the current arena reads
                    // the same nodes the old arena holds
                    assert(before[current as int] == ns0[current as int]);
                    assert(wf_at(ns0, current as int));
                    assert forall|k: int| #![trigger ns0[current as int].kids()[k]]
                        0 <= k < ns0[current as int].kids().len() implies (ns0[
                        current as int].kids()[k] as int) < ns0.len() && before[ns0[
                        current as int].kids()[k] as int] == ns0[ns0[
                        current as int].kids()[k] as int] by {
                        let e = ns0[current as int].kids()[k];
                        assert((current as int) < e as int && (e as int) < ns0.len());
                        if chain0.contains(e) {
                            let idx = choose|idx: int|
                                0 <= idx < chain0.len() && chain0[idx] == e;
                            assert((chain0[idx] as int) <= current as int);
                            assert(false);
                        }
                        assert(before[e as int] == ns0[e as int]);
                    }
                    lemma_find_child_frame(ns0, before, ns0[current as int].kids(), qn@);
                    lemma_find_child_member(ns0, ns0[current as int].kids(), qn@);
                }
            }
            match self.find_child_group(current, &qn) {
                Some(c) => {
                    proof {
                        assert(wf_at(before, c as int));
                        assert(path_ids(before, c as int) == path_ids(
                            before,
                            current as int,
                        ).push(c));
                        assert(path_sci_names(before, c as int) =~= path_sci_names(
                            before,
                            current as int,
                        ).push(before[c as int].spec_sci()));
                        assert(before[c as int].spec_sci() == before[c as int].spec_name());
                        assert(norm_names(path_sci_names(before, c as int)) =~= (seq![
                            norm(rootname),
                        ] + norm_names(views_of(data.parent_nodes@)).subrange(1, j as int)).push(
                            qn@,
                        ));
                        assert(norm_names(views_of(data.parent_nodes@)).subrange(1, j as int + 1)
                            =~= norm_names(views_of(data.parent_nodes@)).subrange(
                            1,
                            j as int,
                        ).push(qn@));
                        assert(norm_names(path_sci_names(before, c as int)) =~= seq![
                            norm(rootname),
                        ] + norm_names(views_of(data.parent_nodes@)).subrange(1, j as int + 1));
                        // the entered child is an old node, found first among
                        // the old children of an old parent
                        if (current as int) >= ns0.len() {
                            assert(before[current as int].kids() =~= Seq::<usize>::empty());
                            assert(find_child_taxon(
                                before,
                                before[current as int].kids(),
                                qn@,
                            ) is None);
                            assert(false);
                        }
                        assert(before[current as int].kids() == ns0[current as int].kids());
                        assert(find_child_taxon(ns0, ns0[current as int].kids(), qn@) == Some(c));
                        assert(ns0[current as int].kids().contains(c));
                        assert((c as int) < ns0.len());
                        assert(before[c as int] == ns0[c as int]);
                        assert(step_resolved(
                            ns0,
                            before,
                            current,
                            c,
                            views_of(data.parent_nodes@)[j as int],
                        ));
                        let chain1 = path_ids(before, c as int);
                        assert(chain1 == chain0.push(c));
                        assert(chain1[0] == chain0[0]);
                        assert forall|jj: int| #![trigger chain1[jj]]
                            1 <= jj < j + 1 implies step_resolved(
                            ns0,
                            before,
                            chain1[jj - 1],
                            chain1[jj],
                            views_of(data.parent_nodes@)[jj],
                        ) by {
                            if jj < j {
                                assert(chain1[jj] == chain0[jj]);
                                assert(chain1[jj - 1] == chain0[jj - 1]);
                            } else {
                                assert(chain1[j as int] == c);
                                assert(chain1[j - 1] == chain0[j - 1]);
                            }
                        }
                        assert forall|i: int|
                            ns0.len() <= i < before.len() implies #[trigger] chain1.contains(
                            i as usize,
                        ) by {
                            assert(chain0.contains(i as usize));
                            let idx = choose|idx: int|
                                0 <= idx < chain0.len() && chain0[idx] == i as usize;
                            assert(chain1[idx] == i as usize);
                        }
                        assert forall|i: int| #![trigger before[i]]
                            0 <= i < ns0.len() && !chain1.contains(i as usize) implies before[i]
                            == ns0[i] by {
                            if chain0.contains(i as usize) {
                                let idx = choose|idx: int|
                                    0 <= idx < chain0.len() && chain0[idx] == i as usize;
                                assert(chain1[idx] == i as usize);
                                assert(false);
                            }
                        }
                    }
                    current = c;
                },
                None => {
                    let new_group = Node::new_group(data.parent_nodes[j].as_str());
                    let added = Node::add(&mut self.nodes, current, new_group);
                    let c = match added {
                        Ok(c) => c,
                        Err(_) => vstd::pervasive::unreached(),
                    };
                    proof {
                        let ns = self.nodes@;
                        assert(ns.len() == before.len() + 1);
                        assert forall|i: int| 0 <= i < before.len() implies node_preserved(
                            before[i],
                            #[trigger] ns[i],
                        ) by {
                            if i == current as int {
                                assert(before[i].kids().is_prefix_of(ns[i].kids())) by {
                                    assert(before[i].kids() =~= ns[i].kids().subrange(
                                        0,
                                        before[i].kids().len() as int,
                                    ));
                                }
                            } else {
                                assert(ns[i] == before[i]);
                                assert(before[i].kids() =~= ns[i].kids().subrange(
                                    0,
                                    before[i].kids().len() as int,
                                ));
                            }
                        }
                        assert forall|i: int| 0 <= i < ns0.len() implies node_preserved(
                            ns0[i],
                            #[trigger] ns[i],
                        ) by {
                            lemma_preserved_trans(ns0[i], before[i], ns[i]);
                        }
                        lemma_path_frame(before, ns, current as int);
                        assert(wf_at(ns, c as int));
                        assert(path_ids(ns, c as int) == path_ids(ns, current as int).push(c));
                        assert(path_sci_names(ns, c as int) =~= path_sci_names(
                            ns,
                            current as int,
                        ).push(ns[c as int].spec_sci()));
                        assert(ns[c as int].spec_sci() == data.parent_nodes@[j as int]@);
                        assert(norm_names(path_sci_names(ns, c as int)) =~= norm_names(
                            path_sci_names(before, current as int),
                        ).push(norm(data.parent_nodes@[j as int]@)));
                        assert(norm_names(views_of(data.parent_nodes@)).subrange(1, j as int + 1)
                            =~= norm_names(views_of(data.parent_nodes@)).subrange(
                            1,
                            j as int,
                        ).push(qn@));
                        assert(norm_names(path_sci_names(ns, c as int)) =~= seq![norm(rootname)]
                            + norm_names(views_of(data.parent_nodes@)).subrange(1, j as int + 1));
                        // the fresh group resolves this step: no old direct
                        // child of the (old) parent matched
                        assert(path_ids(ns, current as int) == chain0);
                        let chain1 = path_ids(ns, c as int);
                        assert(chain1 == chain0.push(c));
                        assert(chain1[0] == chain0[0]);
                        assert((c as int) >= ns0.len());
                        assert(ns[c as int].spec_name() == views_of(data.parent_nodes@)[
                            j as int
                        ]);
                        if (current as int) < ns0.len() {
                            assert(before[current as int].kids() == ns0[
                                current as int
                            ].kids());
                            assert(find_child_taxon(
                                ns0,
                                ns0[current as int].kids(),
                                qn@,
                            ) is None);
                        }
                        assert(step_resolved(
                            ns0,
                            ns,
                            current,
                            c,
                            views_of(data.parent_nodes@)[j as int],
                        ));
                        assert forall|jj: int| #![trigger chain1[jj]]
                            1 <= jj < j + 1 implies step_resolved(
                            ns0,
                            ns,
                            chain1[jj - 1],
                            chain1[jj],
                            views_of(data.parent_nodes@)[jj],
                        ) by {
                            if jj < j {
                                assert(chain1[jj] == chain0[jj]);
                                assert(chain1[jj - 1] == chain0[jj - 1]);
                                assert(step_resolved(
                                    ns0,
                                    before,
                                    chain0[jj - 1],
                                    chain0[jj],
                                    views_of(data.parent_nodes@)[jj],
                                ));
                                let ch = chain0[jj];
                                assert((ch as int) <= current as int);
                                if (ch as int) >= ns0.len() {
                                    if ch as int == current as int {
                                        assert(ns[ch as int].spec_name() == before[
                                            ch as int
                                        ].spec_name());
                                    } else {
                                        assert(ns[ch as int] == before[ch as int]);
                                    }
                                }
                            } else {
                                assert(chain1[j as int] == c);
                                assert(chain1[j - 1] == chain0[j - 1]);
                            }
                        }
                        assert forall|i: int|
                            ns0.len() <= i < ns.len() implies #[trigger] chain1.contains(
                            i as usize,
                        ) by {
                            if i < before.len() {
                                assert(chain0.contains(i as usize));
                                let idx = choose|idx: int|
                                    0 <= idx < chain0.len() && chain0[idx] == i as usize;
                                assert(chain1[idx] == i as usize);
                            } else {
                                assert(chain1[j as int] == c);
                                assert(i == c as int);
                            }
                        }
                        assert forall|i: int| #![trigger ns[i]]
                            0 <= i < ns0.len() && !chain1.contains(i as usize) implies ns[i]
                            == ns0[i] by {
                            if chain0.contains(i as usize) {
                                let idx = choose|idx: int|
                                    0 <= idx < chain0.len() && chain0[idx] == i as usize;
                                assert(chain1[idx] == i as usize);
                                assert(false);
                            }
                            assert(before[i] == ns0[i]);
                            assert(chain1[j - 1] == current);
                            assert(i != current as int);
                            assert(ns[i] == before[i]);
                        }
                    }
                    current = c;
                },
            }
            j = j + 1;
        }
        self.note_direct_parent(current);
        let ghost mid = *self;
        let new_bird = Node::new_bird(data.common_name.as_str(), data.name.as_str());
        let added = Node::add(&mut self.nodes, current, new_bird);
        proof {
            assert(added is Ok);
            mid.lemma_tree_invs_after_add(*self, current as int);
            let ns = self.nodes@;
            let before = mid.nodes@;
            assert forall|i: int| 0 <= i < before.len() implies node_preserved(
                before[i],
                #[trigger] ns[i],
            ) by {
                if i == current as int {
                    assert(before[i].kids().is_prefix_of(ns[i].kids())) by {
                        assert(before[i].kids() =~= ns[i].kids().subrange(
                            0,
                            before[i].kids().len() as int,
                        ));
                    }
                } else {
                    assert(ns[i] == before[i]);
                    assert(before[i].kids() =~= ns[i].kids().subrange(
                        0,
                        before[i].kids().len() as int,
                    ));
                }
            }
            assert forall|i: int| 0 <= i < ns0.len() implies node_preserved(
                ns0[i],
                #[trigger] ns[i],
            ) by {
                lemma_preserved_trans(ns0[i], before[i], ns[i]);
            }
            lemma_path_frame(before, ns, current as int);
            assert(norm_names(path_sci_names(ns, current as int)) == seq![norm(rootname)]
                + norm_names(views_of(data.parent_nodes@)).subrange(
                1,
                data.parent_nodes@.len() as int,
            ));
            // the chain facts gathered by the walk carry over the final
            // append of the bird, whose node changes no name on the chain
            let chain_f = path_ids(ns, current as int);
            let chain_l = path_ids(before, current as int);
            assert(chain_f == chain_l);
            assert(chain_l.len() == data.parent_nodes@.len());
            assert(chain_l[0] == old(self).root);
            lemma_path_shape(before, current as int);
            assert forall|jj: int| #![trigger chain_f[jj]]
                1 <= jj < chain_f.len() implies step_resolved(
                ns0,
                ns,
                chain_f[jj - 1],
                chain_f[jj],
                views_of(data.parent_nodes@)[jj],
            ) by {
                assert(chain_l[jj] == chain_f[jj]);
                assert(chain_l[jj - 1] == chain_f[jj - 1]);
                assert(step_resolved(
                    ns0,
                    before,
                    chain_l[jj - 1],
                    chain_l[jj],
                    views_of(data.parent_nodes@)[jj],
                ));
                let ch = chain_l[jj];
                assert((ch as int) <= current as int);
                if (ch as int) >= ns0.len() {
                    if ch as int == current as int {
                        assert(ns[ch as int].spec_name() == before[ch as int].spec_name());
                    } else {
                        assert(ns[ch as int] == before[ch as int]);
                    }
                }
            }
            assert forall|i: int|
                ns0.len() <= i < ns.len() - 1 implies #[trigger] chain_f.contains(i as usize) by {
                assert(chain_l.contains(i as usize));
                let idx = choose|idx: int|
                    0 <= idx < chain_l.len() && chain_l[idx] == i as usize;
                assert(chain_f[idx] == i as usize);
            }
        }
    }
}

} // verus!
