use vstd::prelude::*;

use crate::names::{norm, is_ws};
use crate::birds::{
    Node, BirdTree, GroupError, wf_at, wf_arena, path_ids, path_sci_names, join_names,
    subtree_birds, subtree_birds_list, lemma_path_shape, match_in_children, search_spec,
    bird_name_key, arena_extended, find_taxon, find_taxon_list,
};
use crate::records::{
    BirdData, record_matches, views_of, lower_names, norm_names, dp_bird_children, scan_birds,
    lemma_dp_bird_children_snoc, bird_data_from_bird,
};

verus! {

/// `g` lies on the parent chain of `j` (or is `j` itself).
pub open spec fn in_subtree(ns: Seq<Node>, j: int, g: int) -> bool
    decreases (if j >= 0 { j } else { 0 }),
{
    if j == g {
        true
    } else if 0 <= j < ns.len() {
        match ns[j].spec_parent() {
            Some(p) => (p as int) < j && in_subtree(ns, p as int, g),
            None => false,
        }
    } else {
        false
    }
}

/// Ancestors sit at smaller indices: `in_subtree(j, g)` forces
/// `g <= j`.
proof fn lemma_in_subtree_bound(ns: Seq<Node>, j: int, g: int)
    requires
        in_subtree(ns, j, g),
    ensures
        g <= j,
        j != g ==> 0 <= j < ns.len(),
    decreases (if j >= 0 { j } else { 0 }),
{
    if j != g {
        match ns[j].spec_parent() {
            Some(p) => {
                lemma_in_subtree_bound(ns, p as int, g);
            },
            None => {},
        }
    }
}

/// Two ancestors of the same node are ordered along its chain.
proof fn lemma_in_subtree_linear(ns: Seq<Node>, j: int, a: int, b: int)
    requires
        in_subtree(ns, j, a),
        in_subtree(ns, j, b),
    ensures
        in_subtree(ns, a, b) || in_subtree(ns, b, a),
    decreases (if j >= 0 { j } else { 0 }),
{
    if j == a || j == b {
    } else {
        match ns[j].spec_parent() {
            Some(p) => {
                lemma_in_subtree_linear(ns, p as int, a, b);
            },
            None => {},
        }
    }
}

/// Chains concatenate: below `c` and `c` below `g` means below `g`.
proof fn lemma_in_subtree_trans(ns: Seq<Node>, j: int, c: int, g: int)
    requires
        in_subtree(ns, j, c),
        in_subtree(ns, c, g),
    ensures
        in_subtree(ns, j, g),
    decreases (if j >= 0 { j } else { 0 }),
{
    if j == c {
    } else {
        match ns[j].spec_parent() {
            Some(p) => {
                lemma_in_subtree_trans(ns, p as int, c, g);
            },
            None => {},
        }
    }
}

/// Everything the pre-order walk collects is a bird inside the
/// subtree, at an index past the subtree's root.
proof fn lemma_subtree_birds_sound(ns: Seq<Node>, g: int, y: usize)
    requires
        ns.len() <= usize::MAX,
        wf_arena(ns),
        subtree_birds(ns, g).contains(y),
    ensures
        (y as int) < ns.len(),
        ns[y as int] is Bird,
        in_subtree(ns, y as int, g),
    decreases ns.len() - g, 1int, 0int,
{
    if 0 <= g < ns.len() {
        if ns[g as int] is Bird {
            assert(subtree_birds(ns, g) =~= seq![g as usize]);
            assert(y == g as usize);
        } else {
            assert(wf_at(ns, g));
            assert forall|k: int| #![trigger ns[g].kids()[k]]
                0 <= k < ns[g].kids().len() implies in_subtree(ns, ns[g].kids()[k] as int, g)
                && g < ns[g].kids()[k] as int && (ns[g].kids()[k] as int) < ns.len() by {
                let c = ns[g].kids()[k];
                assert(ns[c as int].spec_parent() == Some(g as usize));
                assert(in_subtree(ns, g, g));
                assert(in_subtree(ns, c as int, g));
            }
            lemma_subtree_birds_list_sound(ns, ns[g].kids(), g, g, y);
        }
    } else {
        assert(subtree_birds(ns, g) =~= Seq::<usize>::empty());
    }
}

/// List form of the soundness argument: the element comes from one of
/// the listed subtrees, whose root is a child of `g`.
proof fn lemma_subtree_birds_list_sound(ns: Seq<Node>, cs: Seq<usize>, i: int, g: int, y: usize)
    requires
        ns.len() <= usize::MAX,
        wf_arena(ns),
        subtree_birds_list(ns, cs, i).contains(y),
        forall|k: int| #![trigger cs[k]]
            0 <= k < cs.len() ==> in_subtree(ns, cs[k] as int, g) && i < cs[k] as int && (
            cs[k] as int) < ns.len(),
    ensures
        (y as int) < ns.len(),
        ns[y as int] is Bird,
        in_subtree(ns, y as int, g),
    decreases ns.len() - i, 0int, cs.len(),
{
    assert(cs.len() > 0);
    let head = if i < cs[0] as int && (cs[0] as int) < ns.len() {
        subtree_birds(ns, cs[0] as int)
    } else {
        Seq::<usize>::empty()
    };
    let rest = subtree_birds_list(ns, cs.drop_first(), i);
    assert(subtree_birds_list(ns, cs, i) == head + rest);
    if head.contains(y) {
        lemma_subtree_birds_sound(ns, cs[0] as int, y);
        lemma_in_subtree_trans(ns, y as int, cs[0] as int, g);
    } else {
        let idx = choose|idx: int|
            0 <= idx < subtree_birds_list(ns, cs, i).len() && subtree_birds_list(ns, cs, i)[idx]
                == y;
        if idx < head.len() {
            assert(head[idx] == y);
            assert(head.contains(y));
        } else {
            assert(rest[idx - head.len()] == y);
            assert(rest.contains(y));
        }
        assert(rest.contains(y));
        assert forall|k: int| #![trigger cs.drop_first()[k]]
            0 <= k < cs.drop_first().len() implies in_subtree(
            ns,
            cs.drop_first()[k] as int,
            g,
        ) && i < cs.drop_first()[k] as int && (cs.drop_first()[k] as int) < ns.len() by {
            assert(cs.drop_first()[k] == cs[k + 1]);
        }
        lemma_subtree_birds_list_sound(ns, cs.drop_first(), i, g, y);
    }
}

/// A subtree's walk is contained in any enclosing subtree's walk.
proof fn lemma_subtree_birds_mono(ns: Seq<Node>, c: int, g: int, y: usize)
    requires
        ns.len() <= usize::MAX,
        wf_arena(ns),
        0 <= c < ns.len(),
        in_subtree(ns, c, g),
        subtree_birds(ns, c).contains(y),
    ensures
        subtree_birds(ns, g).contains(y),
    decreases (if c >= 0 { c } else { 0 }),
{
    if c == g {
    } else {
        match ns[c].spec_parent() {
            Some(p) => {
                assert(wf_at(ns, c));
                assert((p as int) < c && ns[p as int] is Group && ns[p as int].kids().contains(
                    c as usize,
                ));
                lemma_subtree_birds_list_step(ns, ns[p as int].kids(), p as int, c as usize, y);
                assert(subtree_birds(ns, p as int).contains(y));
                lemma_subtree_birds_mono(ns, p as int, g, y);
            },
            None => {},
        }
    }
}

/// If `c` stands in the list and `y` is in `c`'s subtree, the walk
/// over the list picks `y` up.
proof fn lemma_subtree_birds_list_step(ns: Seq<Node>, cs: Seq<usize>, i: int, c: usize, y: usize)
    requires
        ns.len() <= usize::MAX,
        cs.contains(c),
        i < c as int,
        (c as int) < ns.len(),
        subtree_birds(ns, c as int).contains(y),
    ensures
        subtree_birds_list(ns, cs, i).contains(y),
    decreases ns.len() - i, 0int, cs.len(),
{
    assert(cs.len() > 0);
    let head = if i < cs[0] as int && (cs[0] as int) < ns.len() {
        subtree_birds(ns, cs[0] as int)
    } else {
        Seq::<usize>::empty()
    };
    let rest = subtree_birds_list(ns, cs.drop_first(), i);
    assert(subtree_birds_list(ns, cs, i) == head + rest);
    if cs[0] == c {
        let idx = choose|idx: int|
            0 <= idx < subtree_birds(ns, c as int).len() && subtree_birds(ns, c as int)[idx] == y;
        assert((head + rest)[idx] == y);
        assert(subtree_birds_list(ns, cs, i).contains(y));
    } else {
        let k = choose|k: int| 0 <= k < cs.len() && cs[k] == c;
        assert(cs.drop_first()[k - 1] == c);
        assert(cs.drop_first().contains(c));
        lemma_subtree_birds_list_step(ns, cs.drop_first(), i, c, y);
        let idx = choose|idx: int| 0 <= idx < rest.len() && rest[idx] == y;
        assert((head + rest)[head.len() + idx] == y);
        assert(subtree_birds_list(ns, cs, i).contains(y));
    }
}

/// Every bird below `g` is collected by the walk from `g`.
proof fn lemma_subtree_birds_complete(ns: Seq<Node>, g: int, y: usize)
    requires
        ns.len() <= usize::MAX,
        wf_arena(ns),
        (y as int) < ns.len(),
        ns[y as int] is Bird,
        in_subtree(ns, y as int, g),
    ensures
        subtree_birds(ns, g).contains(y),
{
    assert(subtree_birds(ns, y as int) =~= seq![y]);
    assert(subtree_birds(ns, y as int)[0] == y);
    assert(subtree_birds(ns, y as int).contains(y));
    lemma_subtree_birds_mono(ns, y as int, g, y);
}

/// The pre-order walk never lists a bird twice.
proof fn lemma_subtree_birds_nodup(ns: Seq<Node>, g: int)
    requires
        ns.len() <= usize::MAX,
        wf_arena(ns),
    ensures
        forall|k1: int, k2: int|
            #![trigger subtree_birds(ns, g)[k1], subtree_birds(ns, g)[k2]]
            0 <= k1 < k2 < subtree_birds(ns, g).len() ==> subtree_birds(ns, g)[k1]
                != subtree_birds(ns, g)[k2],
    decreases ns.len() - g, 1int, 0int,
{
    if 0 <= g < ns.len() && !(ns[g] is Bird) {
        assert(wf_at(ns, g));
        assert forall|k: int| #![trigger ns[g].kids()[k]]
            0 <= k < ns[g].kids().len() implies g < ns[g].kids()[k] as int && (
        ns[g].kids()[k] as int) < ns.len() && ns[ns[g].kids()[k] as int].spec_parent() == Some(
            g as usize,
        ) by {}
        lemma_subtree_birds_list_nodup(ns, ns[g].kids(), g, g as usize);
        let sb = subtree_birds(ns, g);
        assert(sb == subtree_birds_list(ns, ns[g].kids(), g));
        assert forall|k1: int, k2: int|
            #![trigger sb[k1], sb[k2]]
            0 <= k1 < k2 < sb.len() implies sb[k1] != sb[k2] by {
            assert(subtree_birds_list(ns, ns[g].kids(), g)[k1] == sb[k1]);
            assert(subtree_birds_list(ns, ns[g].kids(), g)[k2] == sb[k2]);
        }
    }
}

/// The walk over a list of children of `gp` never lists a bird
/// twice: within one child by induction, and across two children
/// because distinct siblings root disjoint subtrees.
proof fn lemma_subtree_birds_list_nodup(ns: Seq<Node>, cs: Seq<usize>, i: int, gp: usize)
    requires
        ns.len() <= usize::MAX,
        wf_arena(ns),
        (gp as int) < ns.len(),
        forall|k: int| #![trigger cs[k]]
            0 <= k < cs.len() ==> i < cs[k] as int && (cs[k] as int) < ns.len() && ns[
            cs[k] as int].spec_parent() == Some(gp),
        forall|k1: int, k2: int| #![trigger cs[k1], cs[k2]]
            0 <= k1 < k2 < cs.len() ==> cs[k1] != cs[k2],
    ensures
        forall|k1: int, k2: int|
            #![trigger subtree_birds_list(ns, cs, i)[k1], subtree_birds_list(ns, cs, i)[k2]]
            0 <= k1 < k2 < subtree_birds_list(ns, cs, i).len() ==> subtree_birds_list(
                ns,
                cs,
                i,
            )[k1] != subtree_birds_list(ns, cs, i)[k2],
    decreases ns.len() - i, 0int, cs.len(),
{
    if cs.len() == 0 {
    } else {
        let c0 = cs[0];
        let head = subtree_birds(ns, c0 as int);
        let rest = subtree_birds_list(ns, cs.drop_first(), i);
        assert(subtree_birds_list(ns, cs, i) == head + rest);
        lemma_subtree_birds_nodup(ns, c0 as int);
        assert forall|k: int| #![trigger cs.drop_first()[k]]
            0 <= k < cs.drop_first().len() implies i < cs.drop_first()[k] as int && (
        cs.drop_first()[k] as int) < ns.len() && ns[cs.drop_first()[k] as int].spec_parent()
            == Some(gp) by {
            assert(cs.drop_first()[k] == cs[k + 1]);
        }
        assert forall|k1: int, k2: int| #![trigger cs.drop_first()[k1], cs.drop_first()[k2]]
            0 <= k1 < k2 < cs.drop_first().len() implies cs.drop_first()[k1]
            != cs.drop_first()[k2] by {
            assert(cs.drop_first()[k1] == cs[k1 + 1]);
            assert(cs.drop_first()[k2] == cs[k2 + 1]);
        }
        lemma_subtree_birds_list_nodup(ns, cs.drop_first(), i, gp);
        // no element of the head subtree recurs in the rest
        assert forall|k1: int, k2: int|
            #![trigger subtree_birds_list(ns, cs, i)[k1], subtree_birds_list(ns, cs, i)[k2]]
            0 <= k1 < k2 < subtree_birds_list(ns, cs, i).len() implies subtree_birds_list(
            ns,
            cs,
            i,
        )[k1] != subtree_birds_list(ns, cs, i)[k2] by {
            let s = subtree_birds_list(ns, cs, i);
            if k1 < head.len() && k2 >= head.len() {
                let y1 = s[k1];
                let y2 = s[k2];
                assert(y1 == head[k1]);
                assert(y2 == rest[k2 - head.len()]);
                if y1 == y2 {
                    assert(head.contains(y1));
                    assert(rest.contains(y2));
                    lemma_subtree_birds_sound(ns, c0 as int, y1);
                    lemma_subtree_birds_list_member(ns, cs.drop_first(), i, y2);
                    let k = choose|k: int|
                        0 <= k < cs.drop_first().len() && i < cs.drop_first()[k] as int && (
                        cs.drop_first()[k] as int) < ns.len() && #[trigger] subtree_birds(
                            ns,
                            cs.drop_first()[k] as int,
                        ).contains(y2);
                    let cm = cs.drop_first()[k];
                    assert(cs.drop_first()[k] == cs[k + 1]);
                    assert(cm != c0);
                    lemma_subtree_birds_sound(ns, cm as int, y2);
                    lemma_in_subtree_linear(ns, y1 as int, c0 as int, cm as int);
                    assert(wf_at(ns, c0 as int));
                    assert(wf_at(ns, cm as int));
                    if in_subtree(ns, c0 as int, cm as int) {
                        assert(in_subtree(ns, gp as int, cm as int));
                        lemma_in_subtree_bound(ns, gp as int, cm as int);
                    } else {
                        assert(in_subtree(ns, cm as int, c0 as int));
                        assert(in_subtree(ns, gp as int, c0 as int));
                        lemma_in_subtree_bound(ns, gp as int, c0 as int);
                    }
                }
            } else if k2 < head.len() {
                assert(s[k1] == head[k1] && s[k2] == head[k2]);
            } else if k1 >= head.len() {
                assert(s[k1] == rest[k1 - head.len()] && s[k2] == rest[k2 - head.len()]);
            }
        }
    }
}

/// The walk over a list only holds elements of the listed subtrees.
proof fn lemma_subtree_birds_list_member(ns: Seq<Node>, cs: Seq<usize>, i: int, y: usize)
    requires
        subtree_birds_list(ns, cs, i).contains(y),
    ensures
        exists|k: int|
            0 <= k < cs.len() && i < cs[k] as int && (cs[k] as int) < ns.len()
                && #[trigger] subtree_birds(ns, cs[k] as int).contains(y),
    decreases cs.len(),
{
    assert(cs.len() > 0);
    let head = if i < cs[0] as int && (cs[0] as int) < ns.len() {
        subtree_birds(ns, cs[0] as int)
    } else {
        Seq::<usize>::empty()
    };
    let rest = subtree_birds_list(ns, cs.drop_first(), i);
    assert(subtree_birds_list(ns, cs, i) == head + rest);
    let idx = choose|idx: int|
        0 <= idx < subtree_birds_list(ns, cs, i).len() && subtree_birds_list(ns, cs, i)[idx] == y;
    if idx < head.len() {
        assert(head[idx] == y);
        assert(head.contains(y));
        assert(i < cs[0] as int && (cs[0] as int) < ns.len());
        assert(subtree_birds(ns, cs[0] as int).contains(y));
    } else {
        assert(rest[idx - head.len()] == y);
        assert(rest.contains(y));
        lemma_subtree_birds_list_member(ns, cs.drop_first(), i, y);
        let k = choose|k: int|
            0 <= k < cs.drop_first().len() && i < cs.drop_first()[k] as int && (
            cs.drop_first()[k] as int) < ns.len() && #[trigger] subtree_birds(
                ns,
                cs.drop_first()[k] as int,
            ).contains(y);
        assert(cs.drop_first()[k] == cs[k + 1]);
        assert(0 <= k + 1 < cs.len() && i < cs[k + 1] as int && (cs[k + 1] as int) < ns.len()
            && subtree_birds(ns, cs[k + 1] as int).contains(y));
    }
}

/// The enumeration is complete and exact: the pre-order walk from a
/// group `g` lists precisely the birds whose parent chain passes
/// through `g`, each exactly once.
pub proof fn lemma_enumeration_exact(ns: Seq<Node>, g: int)
    requires
        ns.len() <= usize::MAX,
        wf_arena(ns),
    ensures
        forall|y: usize|
            #[trigger] subtree_birds(ns, g).contains(y) <==> ((y as int) < ns.len() && ns[
                y as int
            ] is Bird && in_subtree(ns, y as int, g)),
        forall|k1: int, k2: int|
            #![trigger subtree_birds(ns, g)[k1], subtree_birds(ns, g)[k2]]
            0 <= k1 < k2 < subtree_birds(ns, g).len() ==> subtree_birds(ns, g)[k1]
                != subtree_birds(ns, g)[k2],
{
    assert forall|y: usize| #[trigger]
        subtree_birds(ns, g).contains(y) <==> ((y as int) < ns.len() && ns[y as int] is Bird
        && in_subtree(ns, y as int, g)) by {
        if subtree_birds(ns, g).contains(y) {
            lemma_subtree_birds_sound(ns, g, y);
        }
        if (y as int) < ns.len() && ns[y as int] is Bird && in_subtree(ns, y as int, g) {
            lemma_subtree_birds_complete(ns, g, y);
        }
    }
    lemma_subtree_birds_nodup(ns, g);
}

} // verus!

verus! {

/// Path composition: a bird's full scientific name is its parent's
/// joined chain of names, a single space, and its epithet.
pub proof fn lemma_path_composition(ns: Seq<Node>, s: usize)
    requires
        wf_arena(ns),
        (s as int) < ns.len(),
        ns[s as int].spec_parent() is Some,
    ensures
        ({
            let p = ns[s as int].spec_parent().unwrap();
            join_names(path_sci_names(ns, s as int)) == join_names(path_sci_names(ns, p as int))
                + seq![' '] + ns[s as int].spec_sci()
        }),
{
    assert(wf_at(ns, s as int));
    let p = ns[s as int].spec_parent().unwrap();
    assert(path_ids(ns, s as int) == path_ids(ns, p as int).push(s));
    assert(path_sci_names(ns, s as int) =~= path_sci_names(ns, p as int).push(
        ns[s as int].spec_sci(),
    ));
    lemma_path_shape(ns, p as int);
    crate::birds::lemma_join_push(path_sci_names(ns, p as int), ns[s as int].spec_sci());
}

/// A full name has spaces only between names: when every name along
/// the chain is nonempty with no surrounding whitespace, the joined
/// name starts and ends with a non-whitespace character.
pub proof fn lemma_join_no_surrounding_ws(names: Seq<Seq<char>>)
    requires
        names.len() >= 1,
        forall|k: int| 0 <= k < names.len() ==> (#[trigger] names[k]).len() > 0,
        forall|k: int|
            0 <= k < names.len() ==> !is_ws((#[trigger] names[k])[0]) && !is_ws(
                names[k][names[k].len() - 1],
            ),
    ensures
        join_names(names).len() > 0,
        !is_ws(join_names(names)[0]),
        !is_ws(join_names(names)[join_names(names).len() - 1]),
    decreases names.len(),
{
    if names.len() == 1 {
        assert(join_names(names) == names[0]);
    } else {
        assert forall|k: int| 0 <= k < names.drop_last().len() implies (
        #[trigger] names.drop_last()[k]).len() > 0 && !is_ws(names.drop_last()[k][0]) && !is_ws(
            names.drop_last()[k][names.drop_last()[k].len() - 1],
        ) by {
            assert(names.drop_last()[k] == names[k]);
        }
        lemma_join_no_surrounding_ws(names.drop_last());
        let j = join_names(names.drop_last());
        let last = names.last();
        assert(join_names(names) == j + seq![' '] + last);
        assert((j + seq![' '] + last)[0] == j[0]);
        assert((j + seq![' '] + last).len() == j.len() + 1 + last.len());
        assert((j + seq![' '] + last)[j.len() + 1 + last.len() - 1] == last[last.len() - 1]);
        assert(names.last() == names[names.len() - 1]);
    }
}

/// The chain of every node below the root starts at the root.
proof fn lemma_path_starts_at_root(ns: Seq<Node>, i: int, root: int)
    requires
        wf_arena(ns),
        ns.len() <= usize::MAX,
        0 <= root < ns.len(),
        ns[root].spec_parent() is None,
        0 <= i < ns.len(),
        in_subtree(ns, i, root),
    ensures
        path_ids(ns, i).len() >= 1,
        (path_ids(ns, i)[0] as int) == root,
    decreases i,
{
    if i == root {
        assert(path_ids(ns, i) =~= seq![i as usize]);
    } else {
        assert(wf_at(ns, i));
        match ns[i].spec_parent() {
            Some(p) => {
                lemma_path_starts_at_root(ns, p as int, root);
                assert(path_ids(ns, i) == path_ids(ns, p as int).push(i as usize));
            },
            None => {
                assert(false);
            },
        }
    }
}

/// Round trip: a bird put back from its saved record keeps its two
/// names, and its parent chain carries the same names as the
/// original's, up to case and surrounding whitespace. `t1` is a tree
/// holding the re-ingested bird at its last position, as `insert_data`
/// leaves it.
pub proof fn lemma_round_trip(t0: BirdTree, t1: BirdTree, d: BirdData, s: usize, g: usize)
    requires
        t0.wf(),
        t1.nodes@.len() <= usize::MAX,
        record_matches(t0.nodes@, s, d),
        in_subtree(t0.nodes@, s as int, t0.root as int),
        t0.nodes@.len() < t1.nodes@.len(),
        ({
            let b = t1.nodes@.len() - 1;
            &&& t1.nodes@[b] is Bird
            &&& t1.nodes@[b].spec_name() == d.common_name@
            &&& t1.nodes@[b].spec_sci() == d.name@
            &&& t1.nodes@[b].spec_parent() == Some(g)
            &&& (g as int) < b
            &&& norm_names(path_sci_names(t1.nodes@, g as int)) == seq![
                norm(t0.nodes@[t0.root as int].spec_name()),
            ] + norm_names(views_of(d.parent_nodes@)).subrange(
                1,
                d.parent_nodes@.len() as int,
            )
        }),
    ensures
        ({
            let b = t1.nodes@.len() - 1;
            &&& t1.nodes@[b].spec_name() == t0.nodes@[s as int].spec_name()
            &&& t1.nodes@[b].spec_sci() == t0.nodes@[s as int].spec_sci()
            &&& norm_names(path_sci_names(t1.nodes@, b)) == norm_names(
                path_sci_names(t0.nodes@, s as int),
            )
        }),
{
    let ns0 = t0.nodes@;
    let ns1 = t1.nodes@;
    let b = ns1.len() - 1;
    let p = ns0[s as int].spec_parent().unwrap();
    assert(wf_at(ns0, s as int));
    assert(in_subtree(ns0, p as int, t0.root as int));
    lemma_path_starts_at_root(ns0, p as int, t0.root as int);
    lemma_path_shape(ns0, p as int);
    // the normalised saved names are the normalised original names
    let orig = path_sci_names(ns0, p as int);
    assert(views_of(d.parent_nodes@) == lower_names(orig));
    assert(norm_names(views_of(d.parent_nodes@)) =~= norm_names(orig)) by {
        assert forall|k: int| 0 <= k < orig.len() implies norm(#[trigger] lower_names(orig)[k])
            == norm(orig[k]) by {
            crate::names::lemma_norm_lower(orig[k]);
        }
    }
    // dropping the leading root entry and putting the root name back
    // reproduces the whole chain
    assert(orig[0] == ns0[t0.root as int].spec_sci());
    assert(ns0[t0.root as int].spec_sci() == ns0[t0.root as int].spec_name());
    assert(norm_names(path_sci_names(ns1, g as int)) =~= norm_names(orig)) by {
        assert(norm_names(orig).len() == orig.len());
        assert(norm_names(orig)[0] == norm(t0.nodes@[t0.root as int].spec_name()));
        assert(norm_names(views_of(d.parent_nodes@)).subrange(1, d.parent_nodes@.len() as int)
            =~= norm_names(orig).subrange(1, orig.len() as int));
    }
    // both birds extend their parents' chains by their epithet
    assert(path_ids(ns1, b) == path_ids(ns1, g as int).push(b as usize));
    assert(path_sci_names(ns1, b) =~= path_sci_names(ns1, g as int).push(ns1[b].spec_sci()));
    assert(path_ids(ns0, s as int) == path_ids(ns0, p as int).push(s));
    assert(path_sci_names(ns0, s as int) =~= orig.push(ns0[s as int].spec_sci()));
    assert(norm_names(path_sci_names(ns1, b)) =~= norm_names(path_sci_names(ns1, g as int)).push(
        norm(ns1[b].spec_sci()),
    ));
    assert(norm_names(path_sci_names(ns0, s as int)) =~= norm_names(orig).push(
        norm(ns0[s as int].spec_sci()),
    ));
}

} // verus!

verus! {

/// A hit of the child scan is a bird in the child list with the
/// queried name.
proof fn lemma_match_children_sound(ns: Seq<Node>, cs: Seq<usize>, q: Seq<char>, by_sci: bool)
    ensures
        match match_in_children(ns, cs, q, by_sci) {
            Some(t) => (t as int) < ns.len() && ns[t as int] is Bird && norm(
                bird_name_key(ns[t as int], by_sci),
            ) == q && dp_bird_children(ns, cs).contains(t),
            None => true,
        },
    decreases cs.len(),
{
    if cs.len() > 0 {
        let head = if (cs[0] as int) < ns.len() && ns[cs[0] as int] is Bird {
            seq![cs[0]]
        } else {
            Seq::<usize>::empty()
        };
        let rest = dp_bird_children(ns, cs.drop_first());
        assert(dp_bird_children(ns, cs) == head + rest);
        if (cs[0] as int) < ns.len() && ns[cs[0] as int] is Bird && norm(
            bird_name_key(ns[cs[0] as int], by_sci),
        ) == q {
            assert((head + rest)[0] == cs[0]);
            assert(dp_bird_children(ns, cs).contains(cs[0]));
        } else {
            lemma_match_children_sound(ns, cs.drop_first(), q, by_sci);
            match match_in_children(ns, cs, q, by_sci) {
                Some(t) => {
                    let idx = choose|idx: int| 0 <= idx < rest.len() && rest[idx] == t;
                    assert((head + rest)[head.len() + idx] == t);
                    assert(dp_bird_children(ns, cs).contains(t));
                },
                None => {},
            }
        }
    }
}

/// When exactly one bird of the child list carries the queried name,
/// the child scan returns it.
proof fn lemma_match_children_found(
    ns: Seq<Node>,
    cs: Seq<usize>,
    q: Seq<char>,
    by_sci: bool,
    s: usize,
)
    requires
        dp_bird_children(ns, cs).contains(s),
        norm(bird_name_key(ns[s as int], by_sci)) == q,
        forall|u: usize|
            #[trigger] dp_bird_children(ns, cs).contains(u) && norm(
                bird_name_key(ns[u as int], by_sci),
            ) == q ==> u == s,
    ensures
        match_in_children(ns, cs, q, by_sci) == Some(s),
    decreases cs.len(),
{
    assert(cs.len() > 0);
    let head = if (cs[0] as int) < ns.len() && ns[cs[0] as int] is Bird {
        seq![cs[0]]
    } else {
        Seq::<usize>::empty()
    };
    let rest = dp_bird_children(ns, cs.drop_first());
    assert(dp_bird_children(ns, cs) == head + rest);
    if (cs[0] as int) < ns.len() && ns[cs[0] as int] is Bird && norm(
        bird_name_key(ns[cs[0] as int], by_sci),
    ) == q {
        assert((head + rest)[0] == cs[0]);
        assert(dp_bird_children(ns, cs).contains(cs[0]));
        assert(cs[0] == s);
    } else {
        let idx = choose|idx: int|
            0 <= idx < dp_bird_children(ns, cs).len() && dp_bird_children(ns, cs)[idx] == s;
        if idx < head.len() {
            assert(head[0] == cs[0]);
            assert(s == cs[0]);
            assert(ns[cs[0] as int] is Bird);
            assert(false);
        }
        assert(rest[idx - head.len()] == s);
        assert(rest.contains(s));
        assert forall|u: usize|
            #[trigger] dp_bird_children(ns, cs.drop_first()).contains(u) && norm(
                bird_name_key(ns[u as int], by_sci),
            ) == q implies u == s by {
            let j = choose|j: int| 0 <= j < rest.len() && rest[j] == u;
            assert((head + rest)[head.len() + j] == u);
            assert(dp_bird_children(ns, cs).contains(u));
        }
        lemma_match_children_found(ns, cs.drop_first(), q, by_sci, s);
    }
}

/// When exactly one bird of the whole scan carries the queried name,
/// the search returns it.
proof fn lemma_search_found(ns: Seq<Node>, dps: Seq<usize>, q: Seq<char>, by_sci: bool, s: usize)
    requires
        scan_birds(ns, dps).contains(s),
        norm(bird_name_key(ns[s as int], by_sci)) == q,
        forall|u: usize|
            #[trigger] scan_birds(ns, dps).contains(u) && norm(
                bird_name_key(ns[u as int], by_sci),
            ) == q ==> u == s,
    ensures
        search_spec(ns, dps, q, by_sci) == Some(s),
    decreases dps.len(),
{
    assert(dps.len() > 0);
    let headcs = if (dps[0] as int) < ns.len() {
        ns[dps[0] as int].kids()
    } else {
        Seq::<usize>::empty()
    };
    let head = if (dps[0] as int) < ns.len() {
        dp_bird_children(ns, headcs)
    } else {
        Seq::<usize>::empty()
    };
    let rest = scan_birds(ns, dps.drop_first());
    assert(scan_birds(ns, dps) == head + rest);
    if (dps[0] as int) < ns.len() {
        lemma_match_children_sound(ns, headcs, q, by_sci);
        match match_in_children(ns, headcs, q, by_sci) {
            Some(t) => {
                let idx = choose|idx: int| 0 <= idx < head.len() && head[idx] == t;
                assert((head + rest)[idx] == t);
                assert(scan_birds(ns, dps).contains(t));
                assert(t == s);
                assert(search_spec(ns, dps, q, by_sci) == Some(s));
            },
            None => {
                // the head scan misses: s sits further along
                let idx = choose|idx: int|
                    0 <= idx < scan_birds(ns, dps).len() && scan_birds(ns, dps)[idx] == s;
                if idx < head.len() {
                    assert(head[idx] == s);
                    assert(head.contains(s));
                    assert forall|u: usize|
                        #[trigger] dp_bird_children(ns, headcs).contains(u) && norm(
                            bird_name_key(ns[u as int], by_sci),
                        ) == q implies u == s by {
                        let j = choose|j: int| 0 <= j < head.len() && head[j] == u;
                        assert((head + rest)[j] == u);
                        assert(scan_birds(ns, dps).contains(u));
                    }
                    lemma_match_children_found(ns, headcs, q, by_sci, s);
                    assert(false);
                }
                assert(rest[idx - head.len()] == s);
                assert(rest.contains(s));
                assert forall|u: usize|
                    #[trigger] scan_birds(ns, dps.drop_first()).contains(u) && norm(
                        bird_name_key(ns[u as int], by_sci),
                    ) == q implies u == s by {
                    let j = choose|j: int| 0 <= j < rest.len() && rest[j] == u;
                    assert((head + rest)[head.len() + j] == u);
                    assert(scan_birds(ns, dps).contains(u));
                }
                lemma_search_found(ns, dps.drop_first(), q, by_sci, s);
            },
        }
    } else {
        assert(head.len() == 0);
        assert(scan_birds(ns, dps) =~= rest);
        let idx = choose|idx: int|
            0 <= idx < scan_birds(ns, dps).len() && scan_birds(ns, dps)[idx] == s;
        assert(rest[idx] == s);
        assert(rest.contains(s));
        assert forall|u: usize|
            #[trigger] scan_birds(ns, dps.drop_first()).contains(u) && norm(
                bird_name_key(ns[u as int], by_sci),
            ) == q implies u == s by {
            let j = choose|j: int| 0 <= j < rest.len() && rest[j] == u;
            assert(scan_birds(ns, dps)[j] == u);
            assert(scan_birds(ns, dps).contains(u));
        }
        lemma_search_found(ns, dps.drop_first(), q, by_sci, s);
    }
}

/// Case/trim insensitivity: a query equal to an indexed bird's name
/// up to ASCII case and surrounding whitespace finds that bird, as
/// long as it is the only indexed bird carrying the name.
pub proof fn lemma_search_insensitive(t: BirdTree, q: Seq<char>, s: usize, by_sci: bool)
    requires
        t.wf(),
        scan_birds(t.nodes@, t.direct_parents@).contains(s),
        norm(bird_name_key(t.nodes@[s as int], by_sci)) == norm(q),
        forall|u: usize|
            #[trigger] scan_birds(t.nodes@, t.direct_parents@).contains(u) && norm(
                bird_name_key(t.nodes@[u as int], by_sci),
            ) == norm(q) ==> u == s,
    ensures
        search_spec(t.nodes@, t.direct_parents@, norm(q), by_sci) == Some(s),
{
    lemma_search_found(t.nodes@, t.direct_parents@, norm(q), by_sci, s);
}

} // verus!

verus! {

/// The bird children of a list are members of it, birds, in range.
proof fn lemma_dp_children_sound(ns: Seq<Node>, cs: Seq<usize>, u: usize)
    requires
        dp_bird_children(ns, cs).contains(u),
    ensures
        cs.contains(u),
        (u as int) < ns.len(),
        ns[u as int] is Bird,
    decreases cs.len(),
{
    assert(cs.len() > 0);
    let head = if (cs[0] as int) < ns.len() && ns[cs[0] as int] is Bird {
        seq![cs[0]]
    } else {
        Seq::<usize>::empty()
    };
    let rest = dp_bird_children(ns, cs.drop_first());
    assert(dp_bird_children(ns, cs) == head + rest);
    let idx = choose|idx: int|
        0 <= idx < dp_bird_children(ns, cs).len() && dp_bird_children(ns, cs)[idx] == u;
    if idx < head.len() {
        assert(head[idx] == u);
        assert(u == cs[0]);
        assert(cs.contains(u));
    } else {
        assert(rest[idx - head.len()] == u);
        assert(rest.contains(u));
        lemma_dp_children_sound(ns, cs.drop_first(), u);
        let k = choose|k: int| 0 <= k < cs.drop_first().len() && cs.drop_first()[k] == u;
        assert(cs[k + 1] == u);
        assert(cs.contains(u));
    }
}

/// Which children are birds depends only on nodes the list points at:
/// an arena extension that keeps every old node's variant keeps the
/// bird-children list.
proof fn lemma_dp_children_frame(ns0: Seq<Node>, ns1: Seq<Node>, cs: Seq<usize>)
    requires
        ns0.len() <= ns1.len(),
        forall|i: int| 0 <= i < ns0.len() ==> ((#[trigger] ns1[i] is Bird) <==> ns0[i] is Bird),
        forall|k: int| 0 <= k < cs.len() ==> ((#[trigger] cs[k] as int) < ns0.len()),
    ensures
        dp_bird_children(ns1, cs) == dp_bird_children(ns0, cs),
    decreases cs.len(),
{
    if cs.len() > 0 {
        assert forall|k: int| 0 <= k < cs.drop_first().len() implies ((
        #[trigger] cs.drop_first()[k] as int) < ns0.len()) by {
            assert(cs.drop_first()[k] == cs[k + 1]);
        }
        lemma_dp_children_frame(ns0, ns1, cs.drop_first());
        assert((cs[0] as int) < ns0.len());
        assert(ns1[cs[0] as int] is Bird <==> ns0[cs[0] as int] is Bird);
    }
}

/// Every scanned bird comes from the child list of one of the listed
/// direct parents.
proof fn lemma_scan_member(ns: Seq<Node>, dps: Seq<usize>, u: usize)
    requires
        scan_birds(ns, dps).contains(u),
    ensures
        exists|d: int|
            0 <= d < dps.len() && ((#[trigger] dps[d] as int) < ns.len()) && dp_bird_children(
                ns,
                ns[dps[d] as int].kids(),
            ).contains(u),
    decreases dps.len(),
{
    assert(dps.len() > 0);
    let head = if (dps[0] as int) < ns.len() {
        dp_bird_children(ns, ns[dps[0] as int].kids())
    } else {
        Seq::<usize>::empty()
    };
    let rest = scan_birds(ns, dps.drop_first());
    assert(scan_birds(ns, dps) == head + rest);
    let idx = choose|idx: int|
        0 <= idx < scan_birds(ns, dps).len() && scan_birds(ns, dps)[idx] == u;
    if idx < head.len() {
        assert(head[idx] == u);
        assert(head.contains(u));
        assert((dps[0] as int) < ns.len() && dp_bird_children(
            ns,
            ns[dps[0] as int].kids(),
        ).contains(u));
    } else {
        assert(rest[idx - head.len()] == u);
        assert(rest.contains(u));
        lemma_scan_member(ns, dps.drop_first(), u);
        let d = choose|d: int|
            0 <= d < dps.drop_first().len() && ((#[trigger] dps.drop_first()[d] as int)
                < ns.len()) && dp_bird_children(
                ns,
                ns[dps.drop_first()[d] as int].kids(),
            ).contains(u);
        assert(dps.drop_first()[d] == dps[d + 1]);
        assert(0 <= d + 1 < dps.len() && ((dps[d + 1] as int) < ns.len()) && dp_bird_children(
            ns,
            ns[dps[d + 1] as int].kids(),
        ).contains(u));
    }
}

/// A bird child of a listed parent is scanned.
proof fn lemma_scan_contains_child(ns: Seq<Node>, dps: Seq<usize>, g: usize, u: usize)
    requires
        dps.contains(g),
        (g as int) < ns.len(),
        dp_bird_children(ns, ns[g as int].kids()).contains(u),
    ensures
        scan_birds(ns, dps).contains(u),
    decreases dps.len(),
{
    assert(dps.len() > 0);
    let head = if (dps[0] as int) < ns.len() {
        dp_bird_children(ns, ns[dps[0] as int].kids())
    } else {
        Seq::<usize>::empty()
    };
    let rest = scan_birds(ns, dps.drop_first());
    assert(scan_birds(ns, dps) == head + rest);
    if dps[0] == g {
        let idx = choose|idx: int| 0 <= idx < head.len() && head[idx] == u;
        assert((head + rest)[idx] == u);
        assert(scan_birds(ns, dps).contains(u));
    } else {
        let k = choose|k: int| 0 <= k < dps.len() && dps[k] == g;
        assert(dps.drop_first()[k - 1] == g);
        assert(dps.drop_first().contains(g));
        lemma_scan_contains_child(ns, dps.drop_first(), g, u);
        let idx = choose|idx: int| 0 <= idx < rest.len() && rest[idx] == u;
        assert((head + rest)[head.len() + idx] == u);
        assert(scan_birds(ns, dps).contains(u));
    }
}

/// Discoverability after insertion: once a bird is added under a
/// group and the group is indexed, the common-name search finds
/// exactly the new bird — provided no bird previously reachable
/// through the index, and no existing bird child of that group,
/// carries the same name up to case and surrounding whitespace.
pub proof fn lemma_added_bird_found(
    t0: BirdTree,
    t1: BirdTree,
    g: usize,
    b: usize,
    name: Seq<char>,
)
    requires
        t0.wf(),
        b as int == t0.nodes@.len(),
        t0.nodes@[g as int] is Group,
        arena_extended(t0.nodes@, t1.nodes@, g as int),
        t1.nodes@[b as int] is Bird,
        t1.nodes@[b as int].spec_name() == name,
        t1.direct_parents@ == (if t0.direct_parents@.contains(g) {
            t0.direct_parents@
        } else {
            t0.direct_parents@.push(g)
        }),
        forall|u: usize|
            #[trigger] scan_birds(t0.nodes@, t0.direct_parents@).contains(u) ==> norm(
                t0.nodes@[u as int].spec_name(),
            ) != norm(name),
        forall|u: usize|
            #[trigger] dp_bird_children(t0.nodes@, t0.nodes@[g as int].kids()).contains(u)
                ==> norm(t0.nodes@[u as int].spec_name()) != norm(name),
    ensures
        search_spec(t1.nodes@, t1.direct_parents@, norm(name), false) == Some(b),
{
    let ns0 = t0.nodes@;
    let ns1 = t1.nodes@;
    let dps0 = t0.direct_parents@;
    let dps1 = t1.direct_parents@;
    let kids0 = ns0[g as int].kids();
    assert(ns1[g as int].kids() == kids0.push(b));
    assert(wf_at(ns0, g as int));
    assert forall|i: int| 0 <= i < ns0.len() implies ((#[trigger] ns1[i] is Bird) <==> ns0[i]
        is Bird) by {
        if i != g as int {
            assert(ns1[i] == ns0[i]);
        }
    }
    assert forall|k: int| 0 <= k < kids0.len() implies ((#[trigger] kids0[k] as int)
        < ns0.len()) by {}
    lemma_dp_children_frame(ns0, ns1, kids0);
    lemma_dp_bird_children_snoc(ns1, kids0, b);
    let old_part = dp_bird_children(ns0, kids0);
    assert(dp_bird_children(ns1, kids0.push(b)) == old_part + seq![b]);
    // the new bird is scanned
    assert(dps1.contains(g)) by {
        if t0.direct_parents@.contains(g) {
        } else {
            assert(dps1[dps0.len() as int] == g);
        }
    }
    assert(dp_bird_children(ns1, ns1[g as int].kids()).contains(b)) by {
        assert((old_part + seq![b])[old_part.len() as int] == b);
    }
    lemma_scan_contains_child(ns1, dps1, g, b);
    // and it is the only bird scanned under this name
    assert forall|u: usize|
        #[trigger] scan_birds(ns1, dps1).contains(u) && norm(
            bird_name_key(ns1[u as int], false),
        ) == norm(name) implies u == b by {
        if u != b {
            lemma_scan_member(ns1, dps1, u);
            let d = choose|d: int|
                0 <= d < dps1.len() && ((#[trigger] dps1[d] as int) < ns1.len())
                    && dp_bird_children(ns1, ns1[dps1[d] as int].kids()).contains(u);
            let dp = dps1[d];
            if dp == g {
                assert(dp_bird_children(ns1, ns1[g as int].kids()).contains(u));
                let idx = choose|idx: int|
                    0 <= idx < (old_part + seq![b]).len() && (old_part + seq![b])[idx] == u;
                assert(idx < old_part.len());
                assert(old_part[idx] == u);
                assert(old_part.contains(u));
                lemma_dp_children_sound(ns0, kids0, u);
                assert(ns1[u as int] == ns0[u as int]);
                assert(norm(ns0[u as int].spec_name()) != norm(name));
                assert(false);
            } else {
                assert(dps0.contains(dp)) by {
                    if t0.direct_parents@.contains(g) {
                        assert(dps0[d] == dp);
                    } else {
                        assert(d < dps0.len());
                        assert(dps0[d] == dp);
                    }
                }
                assert((dp as int) < ns0.len() && ns0[dp as int] is Group) by {
                    let kd = choose|kd: int| 0 <= kd < dps0.len() && dps0[kd] == dp;
                    assert(t0.wf());
                }
                assert(ns1[dp as int] == ns0[dp as int]);
                assert(wf_at(ns0, dp as int));
                assert forall|k: int| 0 <= k < ns0[dp as int].kids().len() implies ((
                #[trigger] ns0[dp as int].kids()[k] as int) < ns0.len()) by {}
                lemma_dp_children_frame(ns0, ns1, ns0[dp as int].kids());
                assert(dp_bird_children(ns0, ns0[dp as int].kids()).contains(u));
                lemma_scan_contains_child(ns0, dps0, dp, u);
                lemma_dp_children_sound(ns0, ns0[dp as int].kids(), u);
                assert(ns1[u as int] == ns0[u as int]);
                assert(norm(ns0[u as int].spec_name()) != norm(name));
                assert(false);
            }
        }
    }
    lemma_search_found(ns1, dps1, norm(name), false, b);
}

} // verus!

verus! {

/// Everything the scan lists is a bird of the arena.
pub proof fn lemma_scan_is_birds(ns: Seq<Node>, dps: Seq<usize>, u: usize)
    requires
        scan_birds(ns, dps).contains(u),
    ensures
        (u as int) < ns.len(),
        ns[u as int] is Bird,
{
    lemma_scan_member(ns, dps, u);
    let d = choose|d: int|
        0 <= d < dps.len() && ((#[trigger] dps[d] as int) < ns.len()) && dp_bird_children(
            ns,
            ns[dps[d] as int].kids(),
        ).contains(u);
    lemma_dp_children_sound(ns, ns[dps[d] as int].kids(), u);
}

/// Everything a child scan lists is a bird of the arena.
pub proof fn lemma_dp_children_are_birds(ns: Seq<Node>, cs: Seq<usize>, u: usize)
    requires
        dp_bird_children(ns, cs).contains(u),
    ensures
        (u as int) < ns.len(),
        ns[u as int] is Bird,
{
    lemma_dp_children_sound(ns, cs, u);
}

} // verus!

verus! {

/// What the taxon lookup hands back is a group of the arena whose
/// name matches the (normalised) query.
pub proof fn lemma_find_taxon_sound(ns: Seq<Node>, i: int, q: Seq<char>)
    requires
        ns.len() <= usize::MAX,
    ensures
        match find_taxon(ns, i, q) {
            Some(t) => (t as int) < ns.len() && ns[t as int] is Group && norm(
                ns[t as int].spec_name(),
            ) == q,
            None => true,
        },
    decreases ns.len() - i, 1int, 0int,
{
    if 0 <= i < ns.len() {
        if ns[i] is Group && norm(ns[i].spec_name()) == q {
        } else if ns[i] is Group {
            lemma_find_taxon_list_sound(ns, ns[i].kids(), i, q);
        }
    }
}

proof fn lemma_find_taxon_list_sound(ns: Seq<Node>, cs: Seq<usize>, i: int, q: Seq<char>)
    requires
        ns.len() <= usize::MAX,
    ensures
        match find_taxon_list(ns, cs, i, q) {
            Some(t) => (t as int) < ns.len() && ns[t as int] is Group && norm(
                ns[t as int].spec_name(),
            ) == q,
            None => true,
        },
    decreases ns.len() - i, 0int, cs.len(),
{
    if cs.len() > 0 {
        if i < cs[0] as int && (cs[0] as int) < ns.len() {
            lemma_find_taxon_sound(ns, cs[0] as int, q);
        }
        lemma_find_taxon_list_sound(ns, cs.drop_first(), i, q);
    }
}

} // verus!

verus! {

/// Discoverability after insertion, end to end: adding a bird under a
/// named parent and searching for its common name straight after
/// returns exactly the bird just added, as long as no other bird in
/// the tree carries that name up to ASCII case and surrounding
/// whitespace.
pub fn added_bird_is_searchable(t: &mut BirdTree, parent: &str, name: &str, sci: &str) -> (r:
    Result<usize, GroupError>)
    requires
        old(t).wf(),
        old(t).nodes@.len() < usize::MAX,
        1 <= name@.len() <= 50,
        1 <= sci@.len() <= 50,
        forall|u: usize|
            (u as int) < old(t).nodes@.len() && old(t).nodes@[u as int] is Bird ==> norm(
                #[trigger] old(t).nodes@[u as int].spec_name(),
            ) != norm(name@),
    ensures
        final(t).root == old(t).root,
        r is Ok <==> find_taxon(old(t).nodes@, old(t).root as int, norm(parent@)) is Some,
        match r {
            Ok(b) => final(t).wf() && search_spec(
                final(t).nodes@,
                final(t).direct_parents@,
                norm(name@),
                false,
            ) == Some(b),
            Err(e) => e == GroupError::NoGroupExistsErr && final(t).nodes@ == old(t).nodes@
                && final(t).direct_parents@ == old(t).direct_parents@,
        },
{
    let ghost t0 = *old(t);
    let res = t.add_bird(parent, name, sci);
    match res {
        Err(e) => Err(e),
        Ok(()) => {
            let b = t.nodes.len() - 1;
            proof {
                let g = find_taxon(t0.nodes@, t0.root as int, norm(parent@)).unwrap();
                assert(t0.nodes@.len() <= usize::MAX);
                lemma_find_taxon_sound(t0.nodes@, t0.root as int, norm(parent@));
                assert forall|u: usize| #[trigger]
                    scan_birds(t0.nodes@, t0.direct_parents@).contains(u) implies norm(
                    t0.nodes@[u as int].spec_name(),
                ) != norm(name@) by {
                    lemma_scan_is_birds(t0.nodes@, t0.direct_parents@, u);
                }
                assert forall|u: usize| #[trigger]
                    dp_bird_children(t0.nodes@, t0.nodes@[g as int].kids()).contains(
                        u,
                    ) implies norm(t0.nodes@[u as int].spec_name()) != norm(name@) by {
                    lemma_dp_children_are_birds(
                        t0.nodes@,
                        t0.nodes@[g as int].kids(),
                        u,
                    );
                }
                lemma_added_bird_found(t0, *t, g, b, name@);
            }
            Ok(b)
        },
    }
}

} // verus!

verus! {

/// Round trip, end to end: saving a bird of the tree to its record
/// and ingesting that record back yields a bird with the same two
/// names whose chain of group names equals the original's, up to
/// ASCII case and surrounding whitespace.
pub fn saved_bird_returns(t: &mut BirdTree, s: usize) -> (b: usize)
    requires
        old(t).wf(),
        (s as int) < old(t).nodes@.len(),
        old(t).nodes@[s as int] is Bird,
        in_subtree(old(t).nodes@, s as int, old(t).root as int),
        old(t).nodes@.len() * 2 < usize::MAX,
    ensures
        final(t).wf(),
        old(t).nodes@.len() < final(t).nodes@.len(),
        b as int == final(t).nodes@.len() - 1,
        final(t).nodes@[b as int].spec_name() == old(t).nodes@[s as int].spec_name(),
        final(t).nodes@[b as int].spec_sci() == old(t).nodes@[s as int].spec_sci(),
        norm_names(path_sci_names(final(t).nodes@, b as int)) == norm_names(
            path_sci_names(old(t).nodes@, s as int),
        ),
{
    let ghost t0 = *old(t);
    proof {
        assert(wf_at(t0.nodes@, s as int));
        assert(s as int != t0.root as int);
        assert(t0.nodes@[s as int].spec_parent() is Some);
    }
    let d = bird_data_from_bird(t, s);
    proof {
        let p = t0.nodes@[s as int].spec_parent().unwrap();
        lemma_path_shape(t0.nodes@, p as int);
        assert(views_of(d.parent_nodes@).len() == path_sci_names(t0.nodes@, p as int).len());
        assert(d.parent_nodes@.len() >= 1);
        assert(d.parent_nodes@.len() <= t0.nodes@.len());
    }
    t.insert_data(&d);
    let b = t.nodes.len() - 1;
    proof {
        lemma_round_trip(t0, *t, d, s, t.nodes@[b as int].spec_parent().unwrap());
    }
    b
}

} // verus!

verus! {

/// The first bird of a flat scan whose key matches `q`.
pub open spec fn first_match(ns: Seq<Node>, bs: Seq<usize>, q: Seq<char>, by_sci: bool) -> Option<
    usize,
>
    decreases bs.len(),
{
    if bs.len() == 0 {
        None
    } else if norm(bird_name_key(ns[bs[0] as int], by_sci)) == q {
        Some(bs[0])
    } else {
        first_match(ns, bs.drop_first(), q, by_sci)
    }
}

proof fn lemma_first_match_concat(
    ns: Seq<Node>,
    a: Seq<usize>,
    b: Seq<usize>,
    q: Seq<char>,
    by_sci: bool,
)
    ensures
        first_match(ns, a + b, q, by_sci) == (if first_match(ns, a, q, by_sci) is Some {
            first_match(ns, a, q, by_sci)
        } else {
            first_match(ns, b, q, by_sci)
        }),
    decreases a.len(),
{
    if a.len() == 0 {
        assert(a + b =~= b);
    } else {
        assert((a + b)[0] == a[0]);
        assert((a + b).len() > 0);
        if norm(bird_name_key(ns[a[0] as int], by_sci)) == q {
        } else {
            assert((a + b).drop_first() =~= a.drop_first() + b);
            lemma_first_match_concat(ns, a.drop_first(), b, q, by_sci);
        }
    }
}

proof fn lemma_match_children_is_first(
    ns: Seq<Node>,
    cs: Seq<usize>,
    q: Seq<char>,
    by_sci: bool,
)
    ensures
        match_in_children(ns, cs, q, by_sci) == first_match(
            ns,
            dp_bird_children(ns, cs),
            q,
            by_sci,
        ),
    decreases cs.len(),
{
    if cs.len() > 0 {
        let head = if (cs[0] as int) < ns.len() && ns[cs[0] as int] is Bird {
            seq![cs[0]]
        } else {
            Seq::<usize>::empty()
        };
        let rest = dp_bird_children(ns, cs.drop_first());
        assert(dp_bird_children(ns, cs) == head + rest);
        lemma_match_children_is_first(ns, cs.drop_first(), q, by_sci);
        lemma_first_match_concat(ns, head, rest, q, by_sci);
        if (cs[0] as int) < ns.len() && ns[cs[0] as int] is Bird {
            assert(head[0] == cs[0]);
            assert(head.drop_first() =~= Seq::<usize>::empty());
            assert(first_match(ns, Seq::<usize>::empty(), q, by_sci) is None);
            if norm(bird_name_key(ns[cs[0] as int], by_sci)) == q {
                assert(first_match(ns, head, q, by_sci) == Some(cs[0]));
                assert(match_in_children(ns, cs, q, by_sci) == Some(cs[0]));
            } else {
                assert(first_match(ns, head, q, by_sci) is None);
            }
        } else {
            assert(head.len() == 0);
            assert(first_match(ns, head, q, by_sci) is None);
        }
    }
}

proof fn lemma_search_is_first(ns: Seq<Node>, dps: Seq<usize>, q: Seq<char>, by_sci: bool)
    ensures
        search_spec(ns, dps, q, by_sci) == first_match(ns, scan_birds(ns, dps), q, by_sci),
    decreases dps.len(),
{
    if dps.len() > 0 {
        let headcs = if (dps[0] as int) < ns.len() {
            ns[dps[0] as int].kids()
        } else {
            Seq::<usize>::empty()
        };
        let head = if (dps[0] as int) < ns.len() {
            dp_bird_children(ns, headcs)
        } else {
            Seq::<usize>::empty()
        };
        let rest = scan_birds(ns, dps.drop_first());
        assert(scan_birds(ns, dps) == head + rest);
        lemma_search_is_first(ns, dps.drop_first(), q, by_sci);
        lemma_first_match_concat(ns, head, rest, q, by_sci);
        if (dps[0] as int) < ns.len() {
            lemma_match_children_is_first(ns, headcs, q, by_sci);
        }
    }
}

proof fn lemma_first_match_at(ns: Seq<Node>, bs: Seq<usize>, q: Seq<char>, by_sci: bool, pos: int)
    requires
        0 <= pos < bs.len(),
        norm(bird_name_key(ns[bs[pos] as int], by_sci)) == q,
        forall|k: int| #![trigger bs[k]]
            0 <= k < pos ==> norm(bird_name_key(ns[bs[k] as int], by_sci)) != q,
    ensures
        first_match(ns, bs, q, by_sci) == Some(bs[pos]),
    decreases pos,
{
    if pos == 0 {
    } else {
        assert(norm(bird_name_key(ns[bs[0] as int], by_sci)) != q);
        assert forall|k: int| #![trigger bs.drop_first()[k]]
            0 <= k < pos - 1 implies norm(
            bird_name_key(ns[bs.drop_first()[k] as int], by_sci),
        ) != q by {
            assert(bs.drop_first()[k] == bs[k + 1]);
        }
        assert(bs.drop_first()[pos - 1] == bs[pos]);
        lemma_first_match_at(ns, bs.drop_first(), q, by_sci, pos - 1);
    }
}

/// The searches return the first hit in scan order: the bird at the
/// earliest position of the direct-parents-then-children scan whose
/// name matches the query, whatever comes after it. In particular, a
/// bird just added is found as long as nothing before it in the scan
/// carries its name.
pub proof fn lemma_search_returns_first_hit(
    ns: Seq<Node>,
    dps: Seq<usize>,
    q: Seq<char>,
    by_sci: bool,
    pos: int,
)
    requires
        0 <= pos < scan_birds(ns, dps).len(),
        norm(bird_name_key(ns[scan_birds(ns, dps)[pos] as int], by_sci)) == q,
        forall|k: int| #![trigger scan_birds(ns, dps)[k]]
            0 <= k < pos ==> norm(bird_name_key(ns[scan_birds(ns, dps)[k] as int], by_sci)) != q,
    ensures
        search_spec(ns, dps, q, by_sci) == Some(scan_birds(ns, dps)[pos]),
{
    lemma_search_is_first(ns, dps, q, by_sci);
    lemma_first_match_at(ns, scan_birds(ns, dps), q, by_sci, pos);
}

} // verus!
