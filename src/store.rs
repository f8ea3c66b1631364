use vstd::prelude::*;

use crate::error::AliasError;
use crate::names::{parse_aliases, split_names, views_of};
use crate::order::{
    lemma_text_less_irreflexive, lemma_text_less_total, lemma_text_less_transitive, text_less, text_lt,
};

verus! {

/// An alias and its target, as character sequences.
pub type EntryView = (Seq<char>, Seq<char>);

/// No alias occurs twice.
pub open spec fn distinct_keys(s: Seq<EntryView>) -> bool {
    forall|i: int, j: int| 0 <= i < s.len() && 0 <= j < s.len() && i != j ==> s[i].0 != s[j].0
}

/// Some entry has alias `k`.
pub open spec fn has_key(s: Seq<EntryView>, k: Seq<char>) -> bool {
    exists|i: int| 0 <= i < s.len() && #[trigger] s[i].0 == k
}

/// The aliases are strictly ascending.
pub open spec fn sorted_keys(s: Seq<EntryView>) -> bool {
    forall|i: int, j: int| 0 <= i < j < s.len() ==> text_less(s[i].0, s[j].0)
}

/// The mapping that a list of entries with distinct aliases stands for.
pub open spec fn table(s: Seq<EntryView>) -> Map<Seq<char>, Seq<char>> {
    Map::new(
        |k: Seq<char>| has_key(s, k),
        |k: Seq<char>| s[choose|i: int| 0 <= i < s.len() && #[trigger] s[i].0 == k].1,
    )
}

pub proof fn lemma_table_at(s: Seq<EntryView>, i: int)
    requires
        distinct_keys(s),
        0 <= i < s.len(),
    ensures
        table(s).contains_key(s[i].0),
        table(s)[s[i].0] == s[i].1,
{
    let k = s[i].0;
    assert(has_key(s, k));
    let j = choose|j: int| 0 <= j < s.len() && #[trigger] s[j].0 == k;
    assert(j == i);
}

pub proof fn lemma_table_push(s: Seq<EntryView>, e: EntryView)
    requires
        distinct_keys(s),
        !has_key(s, e.0),
    ensures
        distinct_keys(s.push(e)),
        table(s.push(e)) == table(s).insert(e.0, e.1),
{
    let t = s.push(e);
    assert forall|i: int, j: int| 0 <= i < t.len() && 0 <= j < t.len() && i != j implies t[i].0
        != t[j].0 by {
        if i < s.len() && j < s.len() {
            assert(t[i] == s[i] && t[j] == s[j]);
        } else if i < s.len() {
            assert(t[i] == s[i]);
        } else {
            assert(t[j] == s[j]);
        }
    }
    assert forall|k: Seq<char>| has_key(t, k) <==> has_key(s, k) || k == e.0 by {
        if has_key(s, k) {
            let i = choose|i: int| 0 <= i < s.len() && #[trigger] s[i].0 == k;
            assert(t[i] == s[i]);
        }
        if k == e.0 {
            assert(t[s.len() as int] == e);
        }
        if has_key(t, k) && k != e.0 {
            let i = choose|i: int| 0 <= i < t.len() && #[trigger] t[i].0 == k;
            assert(s[i] == t[i]);
        }
    }
    assert forall|k: Seq<char>| #[trigger] table(t).contains_key(k) implies table(t)[k] == table(
        s,
    ).insert(e.0, e.1)[k] by {
        let i = choose|i: int| 0 <= i < t.len() && #[trigger] t[i].0 == k;
        lemma_table_at(t, i);
        if i < s.len() {
            assert(t[i] == s[i]);
            lemma_table_at(s, i);
        }
    }
    assert(table(t) =~= table(s).insert(e.0, e.1));
}

proof fn lemma_table_insert(s: Seq<EntryView>, p: int, e: EntryView)
    requires
        distinct_keys(s),
        !has_key(s, e.0),
        0 <= p <= s.len(),
    ensures
        distinct_keys(s.insert(p, e)),
        table(s.insert(p, e)) == table(s).insert(e.0, e.1),
{
    let t = s.insert(p, e);
    assert forall|a: int, b: int| 0 <= a < t.len() && 0 <= b < t.len() && a != b implies t[a].0
        != t[b].0 by {
        if a != p && b != p {
            let a1 = if a < p { a } else { a - 1 };
            let b1 = if b < p { b } else { b - 1 };
            assert(t[a] == s[a1] && t[b] == s[b1]);
        } else if a == p {
            let b1 = if b < p { b } else { b - 1 };
            assert(t[b] == s[b1]);
        } else {
            let a1 = if a < p { a } else { a - 1 };
            assert(t[a] == s[a1]);
        }
    }
    assert forall|k: Seq<char>| has_key(t, k) <==> has_key(s, k) || k == e.0 by {
        if has_key(s, k) {
            let j = choose|j: int| 0 <= j < s.len() && #[trigger] s[j].0 == k;
            if j < p {
                assert(t[j] == s[j]);
            } else {
                assert(t[j + 1] == s[j]);
            }
        }
        if k == e.0 {
            assert(t[p] == e);
        }
        if has_key(t, k) && k != e.0 {
            let j = choose|j: int| 0 <= j < t.len() && #[trigger] t[j].0 == k;
            if j < p {
                assert(t[j] == s[j]);
            } else if j > p {
                assert(t[j] == s[j - 1]);
            }
        }
    }
    assert forall|k: Seq<char>| #[trigger] table(t).contains_key(k) implies table(t)[k] == table(
        s,
    ).insert(e.0, e.1)[k] by {
        let j = choose|j: int| 0 <= j < t.len() && #[trigger] t[j].0 == k;
        lemma_table_at(t, j);
        if j < p {
            assert(t[j] == s[j]);
            lemma_table_at(s, j);
        } else if j > p {
            assert(t[j] == s[j - 1]);
            lemma_table_at(s, j - 1);
        }
    }
    assert(table(t) =~= table(s).insert(e.0, e.1));
}

proof fn lemma_table_update(s: Seq<EntryView>, i: int, v: Seq<char>)
    requires
        distinct_keys(s),
        0 <= i < s.len(),
    ensures
        distinct_keys(s.update(i, (s[i].0, v))),
        table(s.update(i, (s[i].0, v))) == table(s).insert(s[i].0, v),
{
    let k0 = s[i].0;
    let t = s.update(i, (k0, v));
    assert forall|a: int, b: int| 0 <= a < t.len() && 0 <= b < t.len() && a != b implies t[a].0
        != t[b].0 by {
        assert(t[a].0 == s[a].0 && t[b].0 == s[b].0);
    }
    assert forall|k: Seq<char>| has_key(t, k) <==> has_key(s, k) by {
        if has_key(s, k) {
            let j = choose|j: int| 0 <= j < s.len() && #[trigger] s[j].0 == k;
            assert(t[j].0 == s[j].0);
        }
        if has_key(t, k) {
            let j = choose|j: int| 0 <= j < t.len() && #[trigger] t[j].0 == k;
            assert(t[j].0 == s[j].0);
        }
    }
    lemma_table_at(s, i);
    assert forall|k: Seq<char>| #[trigger] table(t).contains_key(k) implies table(t)[k] == table(
        s,
    ).insert(k0, v)[k] by {
        let j = choose|j: int| 0 <= j < t.len() && #[trigger] t[j].0 == k;
        lemma_table_at(t, j);
        if j != i {
            lemma_table_at(s, j);
        }
    }
    assert(table(t) =~= table(s).insert(k0, v));
}

proof fn lemma_table_remove(s: Seq<EntryView>, i: int)
    requires
        distinct_keys(s),
        0 <= i < s.len(),
    ensures
        distinct_keys(s.remove(i)),
        table(s.remove(i)) == table(s).remove(s[i].0),
{
    let k0 = s[i].0;
    let t = s.remove(i);
    assert forall|a: int, b: int| 0 <= a < t.len() && 0 <= b < t.len() && a != b implies t[a].0
        != t[b].0 by {
        let a1 = if a < i { a } else { a + 1 };
        let b1 = if b < i { b } else { b + 1 };
        assert(t[a] == s[a1] && t[b] == s[b1]);
    }
    assert forall|k: Seq<char>| has_key(t, k) <==> has_key(s, k) && k != k0 by {
        if has_key(s, k) && k != k0 {
            let j = choose|j: int| 0 <= j < s.len() && #[trigger] s[j].0 == k;
            if j < i {
                assert(t[j] == s[j]);
            } else {
                assert(t[j - 1] == s[j]);
            }
        }
        if has_key(t, k) {
            let j = choose|j: int| 0 <= j < t.len() && #[trigger] t[j].0 == k;
            let j1 = if j < i { j } else { j + 1 };
            assert(t[j] == s[j1]);
        }
    }
    assert forall|k: Seq<char>| #[trigger] table(t).contains_key(k) implies table(t)[k] == table(
        s,
    ).remove(k0)[k] by {
        let j = choose|j: int| 0 <= j < t.len() && #[trigger] t[j].0 == k;
        lemma_table_at(t, j);
        let j1 = if j < i { j } else { j + 1 };
        assert(t[j] == s[j1]);
        lemma_table_at(s, j1);
    }
    assert(table(t) =~= table(s).remove(k0));
}

/// The alias table: each alias names one target URL.
pub struct Config {
    aliases: Vec<(String, String)>,
}

impl View for Config {
    type V = Map<Seq<char>, Seq<char>>;

    open spec fn view(&self) -> Map<Seq<char>, Seq<char>> {
        table(self.entries())
    }
}

impl Config {
    /// The entries in the order in which the table keeps them.
    pub closed spec fn entries(&self) -> Seq<EntryView> {
        self.aliases@.map_values(|e: (String, String)| (e.0@, e.1@))
    }

    /// The aliases are distinct and kept in ascending order.
    pub open spec fn wf(&self) -> bool {
        distinct_keys(self.entries()) && sorted_keys(self.entries())
    }

    /// The empty table.
    pub fn new() -> (r: Config)
        ensures
            r.wf(),
            r.entries() == Seq::<EntryView>::empty(),
            r@ == Map::<Seq<char>, Seq<char>>::empty(),
    {
        let r = Config { aliases: Vec::new() };
        assert(r.entries() =~= Seq::<EntryView>::empty());
        assert(r@ =~= Map::<Seq<char>, Seq<char>>::empty());
        r
    }

    /// The number of aliases.
    pub fn len(&self) -> (r: usize)
        ensures
            r == self.entries().len(),
    {
        self.aliases.len()
    }

    /// Whether the table holds no alias.
    pub fn is_empty(&self) -> (r: bool)
        ensures
            r == (self.entries().len() == 0),
    {
        self.aliases.len() == 0
    }

    /// The entry at position `i`.
    pub fn entry(&self, i: usize) -> (r: (&String, &String))
        requires
            i < self.entries().len(),
        ensures
            (r.0@, r.1@) == self.entries()[i as int],
    {
        let e = &self.aliases[i];
        (&e.0, &e.1)
    }

    /// The position of `alias`, if the table holds it.
    pub fn find(&self, alias: &String) -> (r: Option<usize>)
        ensures
            match r {
                Some(i) => i < self.entries().len() && self.entries()[i as int].0 == alias@,
                None => !has_key(self.entries(), alias@),
            },
    {
        let mut i: usize = 0;
        while i < self.aliases.len()
            invariant
                i <= self.aliases@.len(),
                forall|j: int| 0 <= j < i ==> self.entries()[j].0 != alias@,
            decreases self.aliases@.len() - i,
        {
            if self.aliases[i].0 == *alias {
                return Some(i);
            }
            i = i + 1;
        }
        None
    }

    /// The target of `alias`, if the table holds it.
    pub fn get(&self, alias: &String) -> (r: Option<&String>)
        requires
            self.wf(),
        ensures
            match r {
                Some(v) => self@.contains_key(alias@) && self@[alias@] == v@,
                None => !self@.contains_key(alias@),
            },
    {
        match self.find(alias) {
            Some(i) => {
                proof {
                    lemma_table_at(self.entries(), i as int);
                }
                Some(&self.aliases[i].1)
            },
            None => None,
        }
    }

    /// Binds `alias` to `url`, replacing the target it had; a new alias
    /// takes its place in ascending order.
    pub fn insert(&mut self, alias: String, url: String)
        requires
            old(self).wf(),
        ensures
            final(self).wf(),
            final(self)@ == old(self)@.insert(alias@, url@),
            !has_key(old(self).entries(), alias@) ==> exists|p: int|
                0 <= p <= old(self).entries().len() && final(self).entries() == old(
                    self,
                ).entries().insert(p, (alias@, url@)),
            forall|i: int|
                0 <= i < old(self).entries().len() && (#[trigger] old(self).entries()[i]).0
                    == alias@ ==> final(self).entries() == old(self).entries().update(
                    i,
                    (alias@, url@),
                ),
    {
        let ghost s = self.entries();
        let ghost k = alias@;
        let mut p: usize = 0;
        while p < self.aliases.len()
            invariant
                s == self.entries(),
                k == alias@,
                p <= s.len(),
                forall|j: int| 0 <= j < p ==> text_less(s[j].0, k),
            ensures
                p <= s.len(),
                forall|j: int| 0 <= j < p ==> text_less(s[j].0, k),
                p < s.len() ==> !text_less(s[p as int].0, k),
            decreases s.len() - p,
        {
            assert(s[p as int].0 == self.aliases@[p as int].0@);
            if !text_lt(self.aliases[p].0.as_str(), alias.as_str()) {
                break;
            }
            p = p + 1;
        }
        if p < self.aliases.len() && self.aliases[p].0 == alias {
            proof {
                lemma_table_update(s, p as int, url@);
            }
            self.aliases.set(p, (alias, url));
            assert(self.entries() =~= s.update(p as int, (s[p as int].0, url@)));
        } else {
            proof {
                if p < s.len() {
                    lemma_text_less_total(s[p as int].0, k);
                    assert(text_less(k, s[p as int].0));
                }
            }
            assert forall|j: int| 0 <= j < s.len() implies #[trigger] s[j].0 != k by {
                if j < p {
                    lemma_text_less_irreflexive(k);
                } else {
                    if j > p {
                        lemma_text_less_transitive(k, s[p as int].0, s[j].0);
                    }
                    lemma_text_less_irreflexive(k);
                }
            }
            proof {
                lemma_table_insert(s, p as int, (k, url@));
            }
            self.aliases.insert(p, (alias, url));
            let ghost t = s.insert(p as int, (k, url@));
            assert(self.entries() =~= t);
            assert forall|a: int, b: int| 0 <= a < b < t.len() implies text_less(
                t[a].0,
                t[b].0,
            ) by {
                if b < p {
                    assert(t[a] == s[a] && t[b] == s[b]);
                } else if b == p {
                    assert(t[a] == s[a]);
                } else if a == p {
                    assert(t[b] == s[b - 1]);
                    if b - 1 > p {
                        lemma_text_less_transitive(k, s[p as int].0, s[b - 1].0);
                    }
                } else if a < p {
                    assert(t[a] == s[a] && t[b] == s[b - 1]);
                } else {
                    assert(t[a] == s[a - 1] && t[b] == s[b - 1]);
                }
            }
        }
    }

    /// Takes `alias` out of the table; says whether it was there.
    pub fn remove(&mut self, alias: &String) -> (r: bool)
        requires
            old(self).wf(),
        ensures
            final(self).wf(),
            r == old(self)@.contains_key(alias@),
            final(self)@ == old(self)@.remove(alias@),
    {
        match self.find(alias) {
            Some(i) => {
                proof {
                    lemma_table_remove(self.entries(), i as int);
                    lemma_table_at(self.entries(), i as int);
                }
                let ghost before = self.entries();
                self.aliases.remove(i);
                assert(self.entries() =~= before.remove(i as int));
                assert forall|a: int, b: int|
                    0 <= a < b < self.entries().len() implies text_less(
                    self.entries()[a].0,
                    self.entries()[b].0,
                ) by {
                    let a1 = if a < i { a } else { a + 1 };
                    let b1 = if b < i { b } else { b + 1 };
                    assert(self.entries()[a] == before[a1] && self.entries()[b] == before[b1]);
                }
                true
            },
            None => {
                assert(old(self)@.remove(alias@) =~= old(self)@);
                false
            },
        }
    }

    /// A copy of the table, entry for entry.
    pub fn duplicate(&self) -> (r: Config)
        ensures
            r.entries() == self.entries(),
    {
        let mut v: Vec<(String, String)> = Vec::new();
        let mut i: usize = 0;
        while i < self.aliases.len()
            invariant
                i <= self.aliases@.len(),
                v@.len() == i,
                forall|j: int|
                    0 <= j < i ==> (#[trigger] v@[j]).0@ == self.aliases@[j].0@ && v@[j].1@
                        == self.aliases@[j].1@,
            decreases self.aliases@.len() - i,
        {
            let e = &self.aliases[i];
            v.push((e.0.clone(), e.1.clone()));
            i = i + 1;
        }
        let r = Config { aliases: v };
        assert(r.entries() =~= self.entries());
        r
    }
}

/// `m` with each of `names` bound to `url`.
pub open spec fn bind_all(
    m: Map<Seq<char>, Seq<char>>,
    names: Seq<Seq<char>>,
    url: Seq<char>,
) -> Map<Seq<char>, Seq<char>> {
    m.union_prefer_right(Map::new(|k: Seq<char>| names.contains(k), |k: Seq<char>| url))
}

/// Removing `names` one after the other from `m`: the mapping that is left,
/// or the first name that is missing when its turn comes.
pub open spec fn remove_each(
    m: Map<Seq<char>, Seq<char>>,
    names: Seq<Seq<char>>,
) -> Result<Map<Seq<char>, Seq<char>>, Seq<char>>
    decreases names.len(),
{
    if names.len() == 0 {
        Ok(m)
    } else if m.contains_key(names[0]) {
        remove_each(m.remove(names[0]), names.drop_first())
    } else {
        Err(names[0])
    }
}

proof fn lemma_bind_step(
    m: Map<Seq<char>, Seq<char>>,
    ns: Seq<Seq<char>>,
    i: int,
    url: Seq<char>,
)
    requires
        0 <= i < ns.len(),
    ensures
        bind_all(m, ns.take(i + 1), url) == bind_all(m, ns.take(i), url).insert(ns[i], url),
{
    let pre = ns.take(i);
    let post = ns.take(i + 1);
    assert forall|k: Seq<char>| post.contains(k) <==> pre.contains(k) || k == ns[i] by {
        if post.contains(k) {
            let j = choose|j: int| 0 <= j < post.len() && #[trigger] post[j] == k;
            if j < i {
                assert(pre[j] == k);
            }
        }
        if pre.contains(k) {
            let j = choose|j: int| 0 <= j < pre.len() && #[trigger] pre[j] == k;
            assert(post[j] == k);
        }
        if k == ns[i] {
            assert(post[i] == k);
        }
    }
    assert(bind_all(m, post, url) =~= bind_all(m, pre, url).insert(ns[i], url));
}

/// Binds each name of the comma-separated list `aliases` to `url`; a name
/// that was bound before is bound to `url` now.
pub fn add_alias(config: &mut Config, aliases: &str, url: &str)
    requires
        old(config).wf(),
    ensures
        final(config).wf(),
        final(config)@ == bind_all(old(config)@, split_names(aliases@), url@),
{
    let names = parse_aliases(aliases);
    let ghost ns = split_names(aliases@);
    let mut i: usize = 0;
    while i < names.len()
        invariant
            config.wf(),
            i <= names@.len(),
            views_of(names@) == ns,
            config@ == bind_all(old(config)@, ns.take(i as int), url@),
        decreases names@.len() - i,
    {
        let name: String = names[i].to_owned();
        let target: String = url.to_owned();
        assert(name@ == ns[i as int]);
        config.insert(name, target);
        proof {
            lemma_bind_step(old(config)@, ns, i as int, url@);
        }
        i = i + 1;
    }
    assert(ns.take(names@.len() as int) =~= ns);
}

/// Removes each name of the comma-separated list `aliases`, in order. When a
/// name is missing at its turn, the table is left as it was and the error
/// names the first such alias; no removal happens partly.
pub fn remove_alias(config: &mut Config, aliases: &str) -> (r: Result<(), AliasError>)
    requires
        old(config).wf(),
    ensures
        final(config).wf(),
        match remove_each(old(config)@, split_names(aliases@)) {
            Ok(m) => r is Ok && final(config)@ == m,
            Err(k) => match r {
                Err(AliasError::NotFound(s)) => s@ == k,
                _ => false,
            },
        },
        r is Err ==> *final(config) == *old(config),
{
    let names = parse_aliases(aliases);
    let ghost ns = split_names(aliases@);
    let mut work = config.duplicate();
    assert(ns.skip(0) =~= ns);
    let mut i: usize = 0;
    while i < names.len()
        invariant
            work.wf(),
            config.wf(),
            *config == *old(config),
            i <= names@.len(),
            views_of(names@) == ns,
            ns == split_names(aliases@),
            remove_each(old(config)@, ns) == remove_each(work@, ns.skip(i as int)),
        decreases names@.len() - i,
    {
        let name: String = names[i].to_owned();
        assert(name@ == ns[i as int]);
        assert(ns.skip(i as int)[0] == ns[i as int]);
        assert(ns.skip(i as int).drop_first() =~= ns.skip(i + 1));
        if !work.remove(&name) {
            return Err(AliasError::NotFound(name));
        }
        i = i + 1;
    }
    assert(ns.skip(names@.len() as int) =~= Seq::<Seq<char>>::empty());
    *config = work;
    Ok(())
}

/// The target of `alias`.
pub fn resolve_alias(config: &Config, alias: &str) -> (r: Result<String, AliasError>)
    requires
        config.wf(),
    ensures
        match r {
            Ok(t) => config@.contains_key(alias@) && config@[alias@] == t@,
            Err(AliasError::NotFound(s)) => !config@.contains_key(alias@) && s@ == alias@,
            Err(_) => false,
        },
{
    let name: String = alias.to_owned();
    match config.get(&name) {
        Some(t) => Ok(t.clone()),
        None => Err(AliasError::NotFound(name)),
    }
}

/// Every entry of the table, as (alias, target), in ascending order of alias.
pub fn list_aliases(config: &Config) -> (r: Vec<(String, String)>)
    requires
        config.wf(),
    ensures
        r@.map_values(|e: (String, String)| (e.0@, e.1@)) == config.entries(),
        sorted_keys(r@.map_values(|e: (String, String)| (e.0@, e.1@))),
        table(r@.map_values(|e: (String, String)| (e.0@, e.1@))) == config@,
{
    let mut v: Vec<(String, String)> = Vec::new();
    let mut i: usize = 0;
    while i < config.len()
        invariant
            i <= config.entries().len(),
            v@.len() == i,
            forall|j: int|
                0 <= j < i ==> ((#[trigger] v@[j]).0@, v@[j].1@) == config.entries()[j],
        decreases config.entries().len() - i,
    {
        let (a, t) = config.entry(i);
        v.push((a.clone(), t.clone()));
        i = i + 1;
    }
    assert(v@.map_values(|e: (String, String)| (e.0@, e.1@)) =~= config.entries());
    v
}

} // verus!
