use vstd::prelude::*;
use vstd::string::*;

use crate::order::text_less;
use crate::store::{has_key, sorted_keys, Config, EntryView};

verus! {

/// The aliases of `s` that begin with `p`, in order.
pub open spec fn aliases_starting_with(s: Seq<EntryView>, p: Seq<char>) -> Seq<Seq<char>>
    decreases s.len(),
{
    if s.len() == 0 {
        Seq::empty()
    } else {
        let rest = aliases_starting_with(s.drop_last(), p);
        if p.is_prefix_of(s.last().0) {
            rest.push(s.last().0)
        } else {
            rest
        }
    }
}

/// The matches of a sorted table are its aliases, in ascending order.
pub proof fn lemma_matches_ascending(s: Seq<EntryView>, p: Seq<char>)
    requires
        sorted_keys(s),
    ensures
        forall|i: int|
            0 <= i < aliases_starting_with(s, p).len() ==> has_key(
                s,
                #[trigger] aliases_starting_with(s, p)[i],
            ),
        forall|i: int, j: int|
            0 <= i < j < aliases_starting_with(s, p).len() ==> text_less(
                aliases_starting_with(s, p)[i],
                aliases_starting_with(s, p)[j],
            ),
    decreases s.len(),
{
    if s.len() > 0 {
        let d = s.drop_last();
        assert(sorted_keys(d)) by {
            assert forall|i: int, j: int| 0 <= i < j < d.len() implies text_less(d[i].0, d[j].0) by {
                assert(d[i] == s[i] && d[j] == s[j]);
            }
        }
        lemma_matches_ascending(d, p);
        let rest = aliases_starting_with(d, p);
        let r = aliases_starting_with(s, p);
        assert forall|i: int| 0 <= i < r.len() implies has_key(s, #[trigger] r[i]) by {
            if i < rest.len() {
                assert(r[i] == rest[i]);
                assert(has_key(d, rest[i]));
                let k = choose|k: int| 0 <= k < d.len() && #[trigger] d[k].0 == rest[i];
                assert(s[k] == d[k]);
            } else {
                assert(s[s.len() - 1].0 == r[i]);
            }
        }
        assert forall|i: int, j: int| 0 <= i < j < r.len() implies text_less(r[i], r[j]) by {
            if j < rest.len() {
                assert(r[i] == rest[i] && r[j] == rest[j]);
            } else {
                assert(r[i] == rest[i]);
                assert(has_key(d, rest[i]));
                let k = choose|k: int| 0 <= k < d.len() && #[trigger] d[k].0 == rest[i];
                assert(s[k] == d[k]);
                assert(text_less(s[k].0, s[s.len() - 1].0));
            }
        }
    }
}

/// Whether `s` begins with `p`.
pub fn starts_with(s: &str, p: &str) -> (r: bool)
    ensures
        r == p@.is_prefix_of(s@),
{
    let n = s.unicode_len();
    let m = p.unicode_len();
    if m > n {
        return false;
    }
    let mut i: usize = 0;
    while i < m
        invariant
            m <= n,
            n == s@.len(),
            m == p@.len(),
            i <= m,
            p@.subrange(0, i as int) =~= s@.subrange(0, i as int),
        decreases m - i,
    {
        if s.get_char(i) != p.get_char(i) {
            assert(p@[i as int] != s@.subrange(0, m as int)[i as int]);
            return false;
        }
        assert(p@.subrange(0, i + 1) =~= s@.subrange(0, i + 1)) by {
            assert(p@.subrange(0, i + 1) =~= p@.subrange(0, i as int).push(p@[i as int]));
            assert(s@.subrange(0, i + 1) =~= s@.subrange(0, i as int).push(s@[i as int]));
        }
        i = i + 1;
    }
    assert(p@ =~= p@.subrange(0, m as int));
    true
}

/// The aliases that begin with `prefix`, in ascending order.
pub fn aliases_with_prefix(config: &Config, prefix: &str) -> (r: Vec<String>)
    requires
        config.wf(),
    ensures
        r@.map_values(|s: String| s@) == aliases_starting_with(config.entries(), prefix@),
        forall|i: int, j: int|
            0 <= i < j < r@.len() ==> text_less(#[trigger] r@[i]@, #[trigger] r@[j]@),
{
    proof {
        lemma_matches_ascending(config.entries(), prefix@);
    }
    let mut r: Vec<String> = Vec::new();
    let mut i: usize = 0;
    while i < config.len()
        invariant
            i <= config.entries().len(),
            r@.map_values(|s: String| s@) == aliases_starting_with(
                config.entries().take(i as int),
                prefix@,
            ),
        decreases config.entries().len() - i,
    {
        let ghost pre = config.entries().take(i as int);
        let ghost post = config.entries().take(i + 1);
        assert(post.drop_last() =~= pre);
        let (a, _t) = config.entry(i);
        assert(post.last().0 == a@);
        if starts_with(a.as_str(), prefix) {
            let ghost before = r@;
            r.push(a.clone());
            assert(r@.map_values(|s: String| s@) =~= before.map_values(|s: String| s@).push(a@));
        }
        i = i + 1;
    }
    assert(config.entries().take(config.entries().len() as int) =~= config.entries());
    assert forall|i: int, j: int| 0 <= i < j < r@.len() implies text_less(
        #[trigger] r@[i]@,
        #[trigger] r@[j]@,
    ) by {
        assert(r@.map_values(|s: String| s@)[i] == r@[i]@);
        assert(r@.map_values(|s: String| s@)[j] == r@[j]@);
    }
    r
}

/// `s` with each backslash doubled and, where `colons` is set, each colon
/// preceded by a backslash.
pub open spec fn escaped(s: Seq<char>, colons: bool) -> Seq<char>
    decreases s.len(),
{
    if s.len() == 0 {
        Seq::empty()
    } else {
        let c = s.last();
        escaped(s.drop_last(), colons) + if c == '\\' {
            seq!['\\', '\\']
        } else if colons && c == ':' {
            seq!['\\', ':']
        } else {
            seq![c]
        }
    }
}

fn escape(s: &str, colons: bool) -> (r: String)
    ensures
        r@ == escaped(s@, colons),
{
    let n = s.unicode_len();
    let mut r = String::new();
    let mut i: usize = 0;
    while i < n
        invariant
            n == s@.len(),
            i <= n,
            r@ == escaped(s@.take(i as int), colons),
        decreases n - i,
    {
        assert(s@.take(i + 1).drop_last() =~= s@.take(i as int));
        let c = s.get_char(i);
        if c == '\\' {
            proof {
                reveal_strlit("\\\\");
            }
            r.append("\\\\");
            assert("\\\\"@ =~= seq!['\\', '\\']);
        } else if colons && c == ':' {
            proof {
                reveal_strlit("\\:");
            }
            r.append("\\:");
            assert("\\:"@ =~= seq!['\\', ':']);
        } else {
            let one = s.substring_char(i, i + 1);
            r.append(one);
            assert(one@ =~= seq![c]);
        }
        i = i + 1;
    }
    assert(s@.take(n as int) =~= s@);
    r
}

/// The line that describes one alias to zsh's `_describe`: the alias with
/// backslashes and colons escaped, a colon, and the target with backslashes
/// escaped.
pub fn completion_line(alias: &str, url: &str) -> (r: String)
    ensures
        r@ == escaped(alias@, true) + seq![':'] + escaped(url@, false),
{
    let mut r = escape(alias, true);
    proof {
        reveal_strlit(":");
    }
    r.append(":");
    let tail = escape(url, false);
    r.append(tail.as_str());
    assert(":"@ =~= seq![':']);
    r
}

} // verus!
