use vstd::prelude::*;

use crate::order::text_less;
use crate::store::{
    distinct_keys, has_key, lemma_table_at, lemma_table_push, sorted_keys, table, Config, EntryView,
};

verus! {

/// What is done with one conflict, and possibly with all that follow it.
#[derive(Debug, Clone, Copy, PartialEq, Eq, Structural)]
pub enum Decision {
    /// Keep the current target of this alias.
    KeepExisting,
    /// Take the incoming target for this alias.
    UseIncoming,
    /// Keep the current target of this alias and of every later conflict.
    KeepAllExisting,
    /// Take the incoming target for this alias and for every later conflict.
    UseAllIncoming,
}

/// The decision takes the incoming target.
pub open spec fn takes_incoming(d: Decision) -> bool {
    d is UseIncoming || d is UseAllIncoming
}

/// The decision holds for every remaining conflict.
pub open spec fn is_bulk(d: Decision) -> bool {
    d is KeepAllExisting || d is UseAllIncoming
}

/// An alias that both tables hold, with different targets.
pub struct Conflict {
    pub alias: String,
    pub existing: String,
    pub incoming: String,
}

/// Alias, current target, incoming target.
pub type ConflictView = (Seq<char>, Seq<char>, Seq<char>);

impl View for Conflict {
    type V = ConflictView;

    open spec fn view(&self) -> ConflictView {
        (self.alias@, self.existing@, self.incoming@)
    }
}

/// An incoming entry whose alias the current table lacks.
pub open spec fn is_new(cur: Map<Seq<char>, Seq<char>>, e: EntryView) -> bool {
    !cur.contains_key(e.0)
}

/// An incoming entry that the current table already holds as it is.
pub open spec fn is_unchanged(cur: Map<Seq<char>, Seq<char>>, e: EntryView) -> bool {
    cur.contains_key(e.0) && cur[e.0] == e.1
}

/// An incoming entry whose alias the current table binds to another target.
pub open spec fn is_conflicting(cur: Map<Seq<char>, Seq<char>>, e: EntryView) -> bool {
    cur.contains_key(e.0) && cur[e.0] != e.1
}

/// The conflicts between `cur` and the incoming entries, in incoming order,
/// which for a table is ascending order of alias.
pub open spec fn conflicts_of(cur: Map<Seq<char>, Seq<char>>, inc: Seq<EntryView>) -> Seq<
    ConflictView,
>
    decreases inc.len(),
{
    if inc.len() == 0 {
        Seq::empty()
    } else {
        let rest = conflicts_of(cur, inc.drop_last());
        let e = inc.last();
        if is_conflicting(cur, e) {
            rest.push((e.0, cur[e.0], e.1))
        } else {
            rest
        }
    }
}

/// How many incoming entries are new.
pub open spec fn count_new(cur: Map<Seq<char>, Seq<char>>, inc: Seq<EntryView>) -> nat
    decreases inc.len(),
{
    if inc.len() == 0 {
        0
    } else {
        count_new(cur, inc.drop_last()) + if is_new(cur, inc.last()) {
            1nat
        } else {
            0nat
        }
    }
}

/// How many incoming entries are unchanged.
pub open spec fn count_unchanged(cur: Map<Seq<char>, Seq<char>>, inc: Seq<EntryView>) -> nat
    decreases inc.len(),
{
    if inc.len() == 0 {
        0
    } else {
        count_unchanged(cur, inc.drop_last()) + if is_unchanged(cur, inc.last()) {
            1nat
        } else {
            0nat
        }
    }
}

/// The current mapping with every new incoming entry added.
pub open spec fn with_new_entries(cur: Map<Seq<char>, Seq<char>>, inc: Seq<EntryView>) -> Map<
    Seq<char>,
    Seq<char>,
> {
    table(inc).union_prefer_right(cur)
}

/// `m` after the first `choices.len()` conflicts of `cs` were resolved:
/// `true` takes the incoming target, `false` keeps the current one.
pub open spec fn apply_choices(
    m: Map<Seq<char>, Seq<char>>,
    cs: Seq<ConflictView>,
    choices: Seq<bool>,
) -> Map<Seq<char>, Seq<char>>
    decreases choices.len(),
{
    if choices.len() == 0 {
        m
    } else {
        let prev = apply_choices(m, cs, choices.drop_last());
        let c = cs[choices.len() - 1];
        if choices.last() {
            prev.insert(c.0, c.2)
        } else {
            prev
        }
    }
}

/// How many choices take the incoming target.
pub open spec fn count_taken(choices: Seq<bool>) -> nat
    decreases choices.len(),
{
    if choices.len() == 0 {
        0
    } else {
        count_taken(choices.drop_last()) + if choices.last() {
            1nat
        } else {
            0nat
        }
    }
}

/// The table that a whole import yields, for the choices made on its conflicts.
pub open spec fn merged_table(
    cur: Map<Seq<char>, Seq<char>>,
    inc: Seq<EntryView>,
    choices: Seq<bool>,
) -> Map<Seq<char>, Seq<char>> {
    apply_choices(with_new_entries(cur, inc), conflicts_of(cur, inc), choices)
}

proof fn lemma_count_taken_le(choices: Seq<bool>)
    ensures
        count_taken(choices) <= choices.len(),
    decreases choices.len(),
{
    if choices.len() > 0 {
        lemma_count_taken_le(choices.drop_last());
    }
}

/// Where conflict `j` comes from: an incoming entry with the same alias and
/// target, whose alias the current table binds to the conflict's current target.
pub proof fn lemma_conflict_origin(
    cur: Map<Seq<char>, Seq<char>>,
    inc: Seq<EntryView>,
    j: int,
) -> (i: int)
    requires
        0 <= j < conflicts_of(cur, inc).len(),
    ensures
        0 <= i < inc.len(),
        inc[i].0 == conflicts_of(cur, inc)[j].0,
        inc[i].1 == conflicts_of(cur, inc)[j].2,
        cur.contains_key(inc[i].0),
        cur[inc[i].0] == conflicts_of(cur, inc)[j].1,
        conflicts_of(cur, inc)[j].1 != conflicts_of(cur, inc)[j].2,
    decreases inc.len(),
{
    let rest = conflicts_of(cur, inc.drop_last());
    if j < rest.len() {
        let i = lemma_conflict_origin(cur, inc.drop_last(), j);
        assert(inc.drop_last()[i] == inc[i]);
        i
    } else {
        (inc.len() - 1) as int
    }
}

/// The conflicts of a sorted incoming table come in strictly ascending order
/// of alias, so no alias is put to the caller twice.
pub proof fn lemma_conflicts_ascending(cur: Map<Seq<char>, Seq<char>>, inc: Seq<EntryView>)
    requires
        sorted_keys(inc),
    ensures
        forall|i: int, j: int|
            0 <= i < j < conflicts_of(cur, inc).len() ==> text_less(
                conflicts_of(cur, inc)[i].0,
                conflicts_of(cur, inc)[j].0,
            ),
        forall|i: int, j: int|
            0 <= i < conflicts_of(cur, inc).len() && 0 <= j < conflicts_of(cur, inc).len() && i
                != j ==> conflicts_of(cur, inc)[i].0 != conflicts_of(cur, inc)[j].0,
    decreases inc.len(),
{
    let cs = conflicts_of(cur, inc);
    if inc.len() > 0 {
        let d = inc.drop_last();
        assert(sorted_keys(d)) by {
            assert forall|i: int, j: int| 0 <= i < j < d.len() implies text_less(d[i].0, d[j].0) by {
                assert(d[i] == inc[i] && d[j] == inc[j]);
            }
        }
        lemma_conflicts_ascending(cur, d);
        let rest = conflicts_of(cur, d);
        assert forall|i: int, j: int| 0 <= i < j < cs.len() implies text_less(cs[i].0, cs[j].0) by {
            if j < rest.len() {
                assert(cs[i] == rest[i] && cs[j] == rest[j]);
            } else {
                assert(cs[i] == rest[i]);
                let o = lemma_conflict_origin(cur, d, i);
                assert(d[o] == inc[o]);
                assert(text_less(inc[o].0, inc[inc.len() - 1].0));
            }
        }
        assert forall|i: int, j: int|
            0 <= i < cs.len() && 0 <= j < cs.len() && i != j implies cs[i].0 != cs[j].0 by {
            if i < j {
                crate::order::lemma_text_less_irreflexive(cs[i].0);
            } else {
                crate::order::lemma_text_less_irreflexive(cs[j].0);
            }
        }
    }
}

/// Each incoming entry falls in exactly one of the three classes, and the
/// classes together count every incoming entry.
pub proof fn lemma_partition(cur: Map<Seq<char>, Seq<char>>, inc: Seq<EntryView>)
    ensures
        forall|i: int|
            0 <= i < inc.len() ==> {
                let e = #[trigger] inc[i];
                &&& is_new(cur, e) || is_unchanged(cur, e) || is_conflicting(cur, e)
                &&& !(is_new(cur, e) && is_unchanged(cur, e))
                &&& !(is_new(cur, e) && is_conflicting(cur, e))
                &&& !(is_unchanged(cur, e) && is_conflicting(cur, e))
            },
        count_new(cur, inc) + count_unchanged(cur, inc) + conflicts_of(cur, inc).len()
            == inc.len(),
    decreases inc.len(),
{
    if inc.len() > 0 {
        lemma_partition(cur, inc.drop_last());
    }
}

/// The incoming aliases that the current table lacks.
pub open spec fn new_aliases(cur: Map<Seq<char>, Seq<char>>, inc: Seq<EntryView>) -> Set<
    Seq<char>,
> {
    table(inc).dom().filter(|a: Seq<char>| !cur.contains_key(a))
}

/// The incoming aliases that the current table binds to the same target.
pub open spec fn unchanged_aliases(cur: Map<Seq<char>, Seq<char>>, inc: Seq<EntryView>) -> Set<
    Seq<char>,
> {
    table(inc).dom().filter(|a: Seq<char>| cur.contains_key(a) && cur[a] == table(inc)[a])
}

/// The incoming aliases that the current table binds to another target.
pub open spec fn conflicting_aliases(cur: Map<Seq<char>, Seq<char>>, inc: Seq<EntryView>) -> Set<
    Seq<char>,
> {
    table(inc).dom().filter(|a: Seq<char>| cur.contains_key(a) && cur[a] != table(inc)[a])
}

/// The incoming aliases split into the new, the unchanged and the
/// conflicting ones: the three sets are disjoint, together they are every
/// incoming alias, and their sizes are the three counts of an import.
pub proof fn lemma_partition_sizes(cur: Map<Seq<char>, Seq<char>>, inc: Seq<EntryView>)
    requires
        distinct_keys(inc),
    ensures
        table(inc).dom().finite(),
        new_aliases(cur, inc).len() == count_new(cur, inc),
        unchanged_aliases(cur, inc).len() == count_unchanged(cur, inc),
        conflicting_aliases(cur, inc).len() == conflicts_of(cur, inc).len(),
        new_aliases(cur, inc).disjoint(unchanged_aliases(cur, inc)),
        new_aliases(cur, inc).disjoint(conflicting_aliases(cur, inc)),
        unchanged_aliases(cur, inc).disjoint(conflicting_aliases(cur, inc)),
        new_aliases(cur, inc) + unchanged_aliases(cur, inc) + conflicting_aliases(cur, inc)
            == table(inc).dom(),
    decreases inc.len(),
{
    let n = new_aliases(cur, inc);
    let u = unchanged_aliases(cur, inc);
    let c = conflicting_aliases(cur, inc);
    assert(n.disjoint(u));
    assert(n.disjoint(c));
    assert(u.disjoint(c));
    assert(n + u + c =~= table(inc).dom());
    if inc.len() == 0 {
        assert(table(inc).dom() =~= Set::<Seq<char>>::empty());
        assert(n =~= Set::<Seq<char>>::empty());
        assert(u =~= Set::<Seq<char>>::empty());
        assert(c =~= Set::<Seq<char>>::empty());
    } else {
        let d = inc.drop_last();
        let e = inc.last();
        assert(distinct_keys(d)) by {
            assert forall|x: int, y: int|
                0 <= x < d.len() && 0 <= y < d.len() && x != y implies d[x].0 != d[y].0 by {
                assert(d[x] == inc[x] && d[y] == inc[y]);
            }
        }
        assert(!has_key(d, e.0)) by {
            if has_key(d, e.0) {
                let j = choose|j: int| 0 <= j < d.len() && #[trigger] d[j].0 == e.0;
                assert(d[j] == inc[j]);
            }
        }
        lemma_partition_sizes(cur, d);
        lemma_table_push(d, e);
        assert(inc =~= d.push(e));
        let td = table(d);
        assert(table(inc) == td.insert(e.0, e.1));
        assert(!td.dom().contains(e.0));
        assert(table(inc).dom() =~= td.dom().insert(e.0));
        let nd = new_aliases(cur, d);
        let ud = unchanged_aliases(cur, d);
        let cd = conflicting_aliases(cur, d);
        if is_new(cur, e) {
            assert(n =~= nd.insert(e.0));
            assert(u =~= ud);
            assert(c =~= cd);
        } else if is_unchanged(cur, e) {
            assert(n =~= nd);
            assert(u =~= ud.insert(e.0));
            assert(c =~= cd);
        } else {
            assert(n =~= nd);
            assert(u =~= ud);
            assert(c =~= cd.insert(e.0));
        }
    }
}

proof fn lemma_apply_other_key(
    m: Map<Seq<char>, Seq<char>>,
    cs: Seq<ConflictView>,
    choices: Seq<bool>,
    a: Seq<char>,
)
    requires
        choices.len() <= cs.len(),
        forall|j: int| 0 <= j < cs.len() ==> (#[trigger] cs[j]).0 != a,
    ensures
        apply_choices(m, cs, choices).contains_key(a) == m.contains_key(a),
        apply_choices(m, cs, choices)[a] == m[a],
    decreases choices.len(),
{
    if choices.len() > 0 {
        lemma_apply_other_key(m, cs, choices.drop_last(), a);
        assert(cs[choices.len() - 1].0 != a);
    }
}

/// Whatever is chosen for the conflicts, an incoming alias that the current
/// table lacks ends up bound to its incoming target.
pub proof fn lemma_new_entry_applied(
    cur: Map<Seq<char>, Seq<char>>,
    inc: Seq<EntryView>,
    choices: Seq<bool>,
    a: Seq<char>,
)
    requires
        distinct_keys(inc),
        table(inc).contains_key(a),
        !cur.contains_key(a),
        choices.len() <= conflicts_of(cur, inc).len(),
    ensures
        merged_table(cur, inc, choices).contains_key(a),
        merged_table(cur, inc, choices)[a] == table(inc)[a],
{
    let cs = conflicts_of(cur, inc);
    assert forall|j: int| 0 <= j < cs.len() implies (#[trigger] cs[j]).0 != a by {
        let i = lemma_conflict_origin(cur, inc, j);
    }
    lemma_apply_other_key(with_new_entries(cur, inc), cs, choices, a);
}

/// An incoming entry that the current table already holds never becomes a
/// conflict, so no decision is asked for it.
pub proof fn lemma_unchanged_not_consulted(
    cur: Map<Seq<char>, Seq<char>>,
    inc: Seq<EntryView>,
    a: Seq<char>,
)
    requires
        distinct_keys(inc),
        table(inc).contains_key(a),
        cur.contains_key(a),
        cur[a] == table(inc)[a],
    ensures
        forall|j: int|
            0 <= j < conflicts_of(cur, inc).len() ==> (#[trigger] conflicts_of(cur, inc)[j]).0
                != a,
{
    let cs = conflicts_of(cur, inc);
    assert forall|j: int| 0 <= j < cs.len() implies (#[trigger] cs[j]).0 != a by {
        let i = lemma_conflict_origin(cur, inc, j);
        if inc[i].0 == a {
            lemma_table_at(inc, i);
        }
    }
}

/// The result of an import: the merged table and how each incoming entry fared.
pub struct ImportOutcome {
    pub config: Config,
    pub added: usize,
    pub overwritten: usize,
    pub skipped: usize,
    pub unchanged: usize,
}

impl ImportOutcome {
    /// Whether the merged table differs from the current one.
    pub fn changed(&self) -> (r: bool)
        ensures
            r == (self.added + self.overwritten > 0),
    {
        self.added > 0 || self.overwritten > 0
    }
}

/// An import under way: new entries are in, conflicts are settled one at a
/// time by the caller's decisions.
pub struct ImportSession {
    merged: Config,
    conflicts: Vec<Conflict>,
    next: usize,
    added: usize,
    unchanged: usize,
    overwritten: usize,
    skipped: usize,
    current: Ghost<Map<Seq<char>, Seq<char>>>,
    incoming: Ghost<Seq<EntryView>>,
    choices: Ghost<Seq<bool>>,
}

impl ImportSession {
    /// The table the import started from.
    pub closed spec fn current(&self) -> Map<Seq<char>, Seq<char>> {
        self.current@
    }

    /// The incoming entries, in order.
    pub closed spec fn incoming(&self) -> Seq<EntryView> {
        self.incoming@
    }

    /// The choices made so far, one per settled conflict.
    pub closed spec fn choices(&self) -> Seq<bool> {
        self.choices@
    }

    /// The table as it stands now.
    pub closed spec fn merged(&self) -> Map<Seq<char>, Seq<char>> {
        self.merged@
    }

    /// The conflicts of this import, in the order they are settled.
    pub open spec fn all_conflicts(&self) -> Seq<ConflictView> {
        conflicts_of(self.current(), self.incoming())
    }

    /// Every conflict has been settled.
    pub open spec fn is_done(&self) -> bool {
        self.choices().len() == self.all_conflicts().len()
    }

    /// The counters and the pending list agree with the model.
    pub closed spec fn fields_agree(&self) -> bool {
        &&& self.merged.wf()
        &&& self.conflicts@.map_values(|c: Conflict| c@) == self.all_conflicts()
        &&& self.next == self.choices@.len()
        &&& self.added == count_new(self.current@, self.incoming@)
        &&& self.unchanged == count_unchanged(self.current@, self.incoming@)
        &&& self.overwritten == count_taken(self.choices@)
        &&& self.skipped + self.overwritten == self.next
    }

    pub open spec fn wf(&self) -> bool {
        &&& self.fields_agree()
        &&& distinct_keys(self.incoming())
        &&& sorted_keys(self.incoming())
        &&& self.choices().len() <= self.all_conflicts().len()
        &&& self.merged() == merged_table(self.current(), self.incoming(), self.choices())
    }

    /// Starts importing `incoming` into `current`: every new entry is added,
    /// unchanged entries are counted, and the conflicts wait for decisions.
    pub fn begin(current: &Config, incoming: &Config) -> (r: ImportSession)
        requires
            current.wf(),
            incoming.wf(),
        ensures
            r.wf(),
            r.current() == current@,
            r.incoming() == incoming.entries(),
            r.choices() == Seq::<bool>::empty(),
            r.merged() == with_new_entries(current@, incoming.entries()),
            forall|i: int, j: int|
                0 <= i < j < r.all_conflicts().len() ==> text_less(
                    r.all_conflicts()[i].0,
                    r.all_conflicts()[j].0,
                ),
    {
        proof {
            lemma_conflicts_ascending(current@, incoming.entries());
        }
        let ghost cur = current@;
        let ghost inc = incoming.entries();
        let mut merged = current.duplicate();
        let mut conflicts: Vec<Conflict> = Vec::new();
        let mut added: usize = 0;
        let mut unchanged: usize = 0;
        let mut i: usize = 0;
        assert(inc.take(0) =~= Seq::<EntryView>::empty());
        assert(table(inc.take(0)).union_prefer_right(cur) =~= cur);
        while i < incoming.len()
            invariant
                i <= inc.len(),
                inc == incoming.entries(),
                cur == current@,
                current.wf(),
                distinct_keys(inc),
                merged.wf(),
                merged@ == with_new_entries(cur, inc.take(i as int)),
                conflicts@.map_values(|c: Conflict| c@) == conflicts_of(cur, inc.take(i as int)),
                added == count_new(cur, inc.take(i as int)),
                unchanged == count_unchanged(cur, inc.take(i as int)),
                added + unchanged + conflicts@.len() == i,
            decreases inc.len() - i,
        {
            let ghost pre = inc.take(i as int);
            let ghost post = inc.take(i + 1);
            assert(post.drop_last() =~= pre);
            assert(post.last() == inc[i as int]);
            let (a, t) = incoming.entry(i);
            assert(!has_key(pre, inc[i as int].0)) by {
                if has_key(pre, inc[i as int].0) {
                    let j = choose|j: int| 0 <= j < pre.len() && #[trigger] pre[j].0 == inc[
                        i as int].0;
                    assert(pre[j] == inc[j]);
                }
            }
            assert(distinct_keys(pre)) by {
                assert forall|x: int, y: int|
                    0 <= x < pre.len() && 0 <= y < pre.len() && x != y implies pre[x].0
                    != pre[y].0 by {
                    assert(pre[x] == inc[x] && pre[y] == inc[y]);
                }
            }
            assert(post =~= pre.push(inc[i as int]));
            proof {
                crate::store::lemma_table_push(pre, inc[i as int]);
            }
            match current.get(a) {
                Some(x) => {
                    if *x == *t {
                        unchanged = unchanged + 1;
                    } else {
                        let ghost before = conflicts@;
                        conflicts.push(
                            Conflict { alias: a.clone(), existing: x.clone(), incoming: t.clone() },
                        );
                        assert(conflicts@.map_values(|c: Conflict| c@) =~= before.map_values(
                            |c: Conflict| c@,
                        ).push((a@, x@, t@)));
                    }
                    assert(merged@ =~= with_new_entries(cur, post));
                },
                None => {
                    merged.insert(a.clone(), t.clone());
                    added = added + 1;
                    assert(merged@ =~= with_new_entries(cur, post));
                },
            }
            i = i + 1;
        }
        assert(inc.take(inc.len() as int) =~= inc);
        let r = ImportSession {
            merged,
            conflicts,
            next: 0,
            added,
            unchanged,
            overwritten: 0,
            skipped: 0,
            current: Ghost(cur),
            incoming: Ghost(inc),
            choices: Ghost(Seq::empty()),
        };
        r
    }

    /// The conflict that awaits a decision, or `None` once all are settled.
    /// Conflicts come in ascending order of alias.
    pub fn pending(&self) -> (r: Option<&Conflict>)
        requires
            self.wf(),
        ensures
            match r {
                Some(c) => !self.is_done() && c@ == self.all_conflicts()[self.choices().len() as int],
                None => self.is_done(),
            },
    {
        if self.next < self.conflicts.len() {
            let c = &self.conflicts[self.next];
            assert(self.conflicts@.map_values(|c: Conflict| c@)[self.next as int] == c@);
            Some(c)
        } else {
            None
        }
    }

    /// How many conflicts still await a decision.
    pub fn remaining(&self) -> (r: usize)
        requires
            self.wf(),
        ensures
            r == self.all_conflicts().len() - self.choices().len(),
    {
        self.conflicts.len() - self.next
    }

    /// Whether the decisions that cover all remaining conflicts are worth
    /// offering: more than one conflict remains.
    pub fn offers_bulk(&self) -> (r: bool)
        requires
            self.wf(),
        ensures
            r == (self.all_conflicts().len() - self.choices().len() > 1),
    {
        self.conflicts.len() - self.next > 1
    }

    /// Settles the next conflict; `take` says whether its incoming target wins.
    fn settle_next(&mut self, take: bool)
        requires
            old(self).wf(),
            !old(self).is_done(),
        ensures
            final(self).wf(),
            final(self).current() == old(self).current(),
            final(self).incoming() == old(self).incoming(),
            final(self).choices() == old(self).choices().push(take),
    {
        let ghost cs = self.all_conflicts();
        let ghost old_choices = self.choices@;
        let ghost new_choices = old_choices.push(take);
        assert(new_choices.drop_last() =~= old_choices);
        proof {
            lemma_count_taken_le(old_choices);
        }
        let ghost k = self.next as int;
        assert(self.conflicts@.map_values(|c: Conflict| c@).len() == self.conflicts@.len());
        let n = self.conflicts.len();
        assert(self.next < n);
        assert(self.overwritten <= self.next && self.skipped <= self.next);
        assert(self.conflicts@.map_values(|c: Conflict| c@)[k] == self.conflicts@[k]@);
        if take {
            let alias = self.conflicts[self.next].alias.clone();
            let target = self.conflicts[self.next].incoming.clone();
            self.merged.insert(alias, target);
            self.overwritten = self.overwritten + 1;
        } else {
            self.skipped = self.skipped + 1;
        }
        self.next = self.next + 1;
        self.choices = Ghost(new_choices);
    }

    /// Applies the caller's decision to the pending conflict. A decision for
    /// all remaining conflicts settles every one of them at once, so no
    /// further decision is asked for.
    pub fn decide(&mut self, d: Decision)
        requires
            old(self).wf(),
            !old(self).is_done(),
        ensures
            final(self).wf(),
            final(self).current() == old(self).current(),
            final(self).incoming() == old(self).incoming(),
            is_bulk(d) ==> final(self).is_done(),
            final(self).choices() == old(self).choices() + if is_bulk(d) {
                Seq::new(
                    (old(self).all_conflicts().len() - old(self).choices().len()) as nat,
                    |j: int| takes_incoming(d),
                )
            } else {
                seq![takes_incoming(d)]
            },
    {
        let take = match d {
            Decision::UseIncoming | Decision::UseAllIncoming => true,
            _ => false,
        };
        let bulk = match d {
            Decision::KeepAllExisting | Decision::UseAllIncoming => true,
            _ => false,
        };
        let ghost start = self.choices();
        let ghost total = self.all_conflicts().len();
        self.settle_next(take);
        if bulk {
            while self.next < self.conflicts.len()
                invariant
                    self.wf(),
                    self.current() == old(self).current(),
                    self.incoming() == old(self).incoming(),
                    total == self.all_conflicts().len(),
                    start.len() < self.choices().len() <= total,
                    self.choices() =~= start + Seq::new(
                        (self.choices().len() - start.len()) as nat,
                        |j: int| take,
                    ),
                decreases self.conflicts@.len() - self.next,
            {
                self.settle_next(take);
            }
        } else {
            assert(self.choices() =~= start + seq![take]);
        }
    }

    /// Ends the import once every conflict is settled.
    pub fn finish(self) -> (r: ImportOutcome)
        requires
            self.wf(),
            self.is_done(),
        ensures
            r.config.wf(),
            r.config@ == merged_table(self.current(), self.incoming(), self.choices()),
            r.added == count_new(self.current(), self.incoming()),
            r.unchanged == count_unchanged(self.current(), self.incoming()),
            r.overwritten == count_taken(self.choices()),
            r.skipped == self.choices().len() - count_taken(self.choices()),
            r.added + r.unchanged + r.overwritten + r.skipped == self.incoming().len(),
            r.added == new_aliases(self.current(), self.incoming()).len(),
            r.unchanged == unchanged_aliases(self.current(), self.incoming()).len(),
            r.overwritten + r.skipped == conflicting_aliases(self.current(), self.incoming()).len(),
    {
        proof {
            lemma_partition(self.current(), self.incoming());
            lemma_partition_sizes(self.current(), self.incoming());
        }
        ImportOutcome {
            config: self.merged,
            added: self.added,
            overwritten: self.overwritten,
            skipped: self.skipped,
            unchanged: self.unchanged,
        }
    }
}

} // verus!
