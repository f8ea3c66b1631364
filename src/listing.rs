use vstd::prelude::*;

use crate::order::{
    lemma_text_less_irreflexive, lemma_text_less_total, lemma_text_less_transitive, text_less, text_lt,
};
use crate::store::{Config, EntryView};

verus! {

/// The aliases that share one target, and that target.
pub type GroupView = (Seq<Seq<char>>, Seq<char>);

/// Some group has target `t`.
pub open spec fn has_target(g: Seq<GroupView>, t: Seq<char>) -> bool {
    exists|j: int| 0 <= j < g.len() && #[trigger] g[j].1 == t
}

/// The aliases of `s` whose target is `t`, in entry order.
pub open spec fn aliases_for(s: Seq<EntryView>, t: Seq<char>) -> Seq<Seq<char>>
    decreases s.len(),
{
    if s.len() == 0 {
        Seq::empty()
    } else {
        let rest = aliases_for(s.drop_last(), t);
        if s.last().1 == t {
            rest.push(s.last().0)
        } else {
            rest
        }
    }
}

/// `g` lists the entries of `s` grouped by target: one group for each target
/// that occurs and for no other, targets in ascending order, each group with
/// the aliases that name its target, in entry order.
pub open spec fn grouped(s: Seq<EntryView>, g: Seq<GroupView>) -> bool {
    &&& forall|i: int, j: int| 0 <= i < j < g.len() ==> text_less(g[i].1, g[j].1)
    &&& forall|j: int|
        0 <= j < g.len() ==> (#[trigger] g[j]).0 == aliases_for(s, g[j].1) && g[j].0.len() > 0
    &&& forall|i: int| 0 <= i < s.len() ==> has_target(g, (#[trigger] s[i]).1)
}

proof fn lemma_aliases_for_absent(s: Seq<EntryView>, t: Seq<char>)
    requires
        forall|i: int| 0 <= i < s.len() ==> (#[trigger] s[i]).1 != t,
    ensures
        aliases_for(s, t) == Seq::<Seq<char>>::empty(),
    decreases s.len(),
{
    if s.len() > 0 {
        let d = s.drop_last();
        assert forall|i: int| 0 <= i < d.len() implies (#[trigger] d[i]).1 != t by {
            assert(d[i] == s[i]);
        }
        lemma_aliases_for_absent(d, t);
        assert(s[s.len() - 1].1 != t);
    }
}

/// The view of a list of groups.
pub open spec fn group_views(v: Seq<(Vec<String>, String)>) -> Seq<GroupView> {
    v.map_values(|g: (Vec<String>, String)| (g.0@.map_values(|s: String| s@), g.1@))
}

/// The aliases of the table grouped by the target they name, targets in
/// ascending order, for listing.
pub fn group_by_target(config: &Config) -> (r: Vec<(Vec<String>, String)>)
    ensures
        grouped(config.entries(), group_views(r@)),
{
    let ghost s = config.entries();
    let mut v: Vec<(Vec<String>, String)> = Vec::new();
    let mut i: usize = 0;
    assert(group_views(v@) =~= Seq::<GroupView>::empty());
    while i < config.len()
        invariant
            s == config.entries(),
            i <= s.len(),
            grouped(s.take(i as int), group_views(v@)),
        decreases s.len() - i,
    {
        let ghost pre = s.take(i as int);
        let ghost post = s.take(i + 1);
        let ghost g = group_views(v@);
        assert(post.drop_last() =~= pre);
        let (a, t) = config.entry(i);
        assert(post[i as int] == (a@, t@));
        assert forall|u: Seq<char>| #[trigger] aliases_for(post, u) == if u == t@ {
            aliases_for(pre, u).push(a@)
        } else {
            aliases_for(pre, u)
        } by {}
        assert forall|k: int| 0 <= k < i implies post[k] == pre[k] by {}
        let mut p: usize = 0;
        while p < v.len()
            invariant
                p <= g.len(),
                group_views(v@) == g,
                forall|j: int| 0 <= j < p ==> text_less(g[j].1, t@),
            ensures
                p <= g.len(),
                group_views(v@) == g,
                forall|j: int| 0 <= j < p ==> text_less(g[j].1, t@),
                p < g.len() ==> !text_less(g[p as int].1, t@),
            decreases g.len() - p,
        {
            assert(g[p as int].1 == v@[p as int].1@);
            if !text_lt(v[p].1.as_str(), t.as_str()) {
                break;
            }
            p = p + 1;
        }
        if p < v.len() && v[p].1 == *t {
            assert(g[p as int].1 == t@);
            let ghost h = g.update(p as int, (g[p as int].0.push(a@), t@));
            let ghost before = v@;
            let mut grp = v.remove(p);
            grp.0.push(a.clone());
            v.insert(p, grp);
            assert(group_views(v@) =~= h) by {
                assert(g[p as int].0 == before[p as int].0@.map_values(|s: String| s@));
                assert(grp.0@.map_values(|s: String| s@) =~= g[p as int].0.push(a@));
            }
            assert forall|x: int, y: int| 0 <= x < y < h.len() implies text_less(h[x].1, h[y].1) by {
                assert(h[x].1 == g[x].1 && h[y].1 == g[y].1);
            }
            assert forall|j: int| 0 <= j < h.len() implies (#[trigger] h[j]).0 == aliases_for(
                post,
                h[j].1,
            ) && h[j].0.len() > 0 by {
                if j != p {
                    assert(h[j] == g[j]);
                    if j < p {
                        lemma_text_less_irreflexive(t@);
                    } else {
                        lemma_text_less_irreflexive(g[j].1);
                    }
                }
            }
            assert forall|k: int| 0 <= k < post.len() implies has_target(h, (#[trigger] post[k]).1) by {
                if k < i {
                    assert(has_target(g, pre[k].1));
                    let j = choose|j: int| 0 <= j < g.len() && #[trigger] g[j].1 == pre[k].1;
                    assert(h[j].1 == g[j].1);
                } else {
                    assert(h[p as int].1 == t@);
                }
            }
        } else {
            assert forall|j: int| 0 <= j < g.len() implies #[trigger] g[j].1 != t@ by {
                lemma_text_less_irreflexive(t@);
                if j >= p {
                    lemma_text_less_total(g[p as int].1, t@);
                    if j > p {
                        lemma_text_less_transitive(t@, g[p as int].1, g[j].1);
                    }
                }
            }
            assert forall|k: int| 0 <= k < pre.len() implies (#[trigger] pre[k]).1 != t@ by {
                assert(has_target(g, pre[k].1));
            }
            proof {
                lemma_aliases_for_absent(pre, t@);
                if p < g.len() {
                    lemma_text_less_total(g[p as int].1, t@);
                }
            }
            let ghost h = g.insert(p as int, (seq![a@], t@));
            let mut names: Vec<String> = Vec::new();
            names.push(a.clone());
            assert(names@.map_values(|s: String| s@) =~= seq![a@]);
            v.insert(p, (names, t.clone()));
            assert(group_views(v@) =~= h);
            assert forall|x: int, y: int| 0 <= x < y < h.len() implies text_less(h[x].1, h[y].1) by {
                if y < p {
                    assert(h[x] == g[x] && h[y] == g[y]);
                } else if y == p {
                    assert(h[x] == g[x]);
                } else if x == p {
                    assert(h[y] == g[y - 1]);
                    if y - 1 > p {
                        lemma_text_less_transitive(t@, g[p as int].1, g[y - 1].1);
                    }
                } else if x < p {
                    assert(h[x] == g[x] && h[y] == g[y - 1]);
                } else {
                    assert(h[x] == g[x - 1] && h[y] == g[y - 1]);
                }
            }
            assert forall|j: int| 0 <= j < h.len() implies (#[trigger] h[j]).0 == aliases_for(
                post,
                h[j].1,
            ) && h[j].0.len() > 0 by {
                if j < p {
                    assert(h[j] == g[j]);
                } else if j > p {
                    assert(h[j] == g[j - 1]);
                } else {
                    assert(seq![a@] =~= Seq::<Seq<char>>::empty().push(a@));
                }
            }
            assert forall|k: int| 0 <= k < post.len() implies has_target(h, (#[trigger] post[k]).1) by {
                if k < i {
                    assert(has_target(g, pre[k].1));
                    let j = choose|j: int| 0 <= j < g.len() && #[trigger] g[j].1 == pre[k].1;
                    if j < p {
                        assert(h[j] == g[j]);
                    } else {
                        assert(h[j + 1] == g[j]);
                    }
                } else {
                    assert(h[p as int].1 == t@);
                }
            }
        }
        i = i + 1;
    }
    assert(s.take(s.len() as int) =~= s);
    v
}

} // verus!
