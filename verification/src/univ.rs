//! Why nested rule evaluations are bounded: every input an evaluation meets
//! is a suffix of one of finitely many strings, and the evaluations in
//! progress are distinct (rule, input) pairs.
use vstd::prelude::*;
use crate::parser::Rule;
use crate::semantics::Active;

verus! {

/// `s` is a suffix of one of the `base` strings.
pub open spec fn reachable(base: Seq<Seq<char>>, s: Seq<char>) -> bool {
    exists|i: int, k: int| 0 <= i < base.len() && 0 <= k <= base[i].len() && s == base[i].skip(k)
}

/// All suffixes of `s`, the empty one included.
pub open spec fn suffixes_of(s: Seq<char>) -> Seq<Seq<char>> {
    Seq::new((s.len() + 1) as nat, |k: int| s.skip(k))
}

/// All suffixes of all `base` strings.
pub open spec fn all_suffixes(base: Seq<Seq<char>>) -> Seq<Seq<char>>
    decreases base.len(),
{
    if base.len() == 0 {
        Seq::empty()
    } else {
        all_suffixes(base.drop_last()) + suffixes_of(base.last())
    }
}

/// Every pair of a name and a string.
pub open spec fn pairs(names: Seq<Seq<char>>, strs: Seq<Seq<char>>) -> Seq<(Seq<char>, Seq<char>)>
    decreases names.len(),
{
    if names.len() == 0 {
        Seq::empty()
    } else {
        pairs(names.drop_last(), strs) + strs.map_values(|s: Seq<char>| (names.last(), s))
    }
}

/// The names of the rules.
pub open spec fn rule_names(rules: Seq<Rule>) -> Seq<Seq<char>> {
    rules.map_values(|r: Rule| r.name@)
}

/// Every (rule name, input) pair that an evaluation starting from `base` can meet.
pub open spec fn universe(rules: Seq<Rule>, base: Seq<Seq<char>>) -> Seq<(Seq<char>, Seq<char>)> {
    pairs(rule_names(rules), all_suffixes(base))
}

/// A bound on the number of nested rule evaluations.
pub open spec fn nesting_limit(rules: Seq<Rule>, base: Seq<Seq<char>>) -> nat {
    universe(rules, base).len()
}

pub proof fn lemma_reachable_in_all_suffixes(base: Seq<Seq<char>>, s: Seq<char>)
    requires
        reachable(base, s),
    ensures
        all_suffixes(base).contains(s),
    decreases base.len(),
{
    let (i, k) = choose|i: int, k: int| 0 <= i < base.len() && 0 <= k <= base[i].len() && s == base[i].skip(k);
    let rest = all_suffixes(base.drop_last());
    if i == base.len() - 1 {
        assert((rest + suffixes_of(base.last()))[rest.len() + k] == s);
    } else {
        assert(base.drop_last()[i] == base[i]);
        lemma_reachable_in_all_suffixes(base.drop_last(), s);
        let j = choose|j: int| 0 <= j < rest.len() && rest[j] == s;
        assert((rest + suffixes_of(base.last()))[j] == s);
    }
}

pub proof fn lemma_pairs_contains(names: Seq<Seq<char>>, strs: Seq<Seq<char>>, n: Seq<char>, s: Seq<char>)
    requires
        names.contains(n),
        strs.contains(s),
    ensures
        pairs(names, strs).contains((n, s)),
    decreases names.len(),
{
    let rest = pairs(names.drop_last(), strs);
    let tail = strs.map_values(|t: Seq<char>| (names.last(), t));
    let j = choose|j: int| 0 <= j < strs.len() && strs[j] == s;
    if names.last() == n {
        assert((rest + tail)[rest.len() + j] == (n, s));
    } else {
        let i = choose|i: int| 0 <= i < names.len() && names[i] == n;
        assert(names.drop_last()[i] == n);
        lemma_pairs_contains(names.drop_last(), strs, n, s);
        let m = choose|m: int| 0 <= m < rest.len() && rest[m] == (n, s);
        assert((rest + tail)[m] == (n, s));
    }
}

/// A suffix of a reachable string is reachable.
pub proof fn lemma_reachable_skip(base: Seq<Seq<char>>, s: Seq<char>, k: int)
    requires
        reachable(base, s),
        0 <= k <= s.len(),
    ensures
        reachable(base, s.skip(k)),
{
    let (i, j) = choose|i: int, j: int| 0 <= i < base.len() && 0 <= j <= base[i].len() && s == base[i].skip(j);
    assert(s.skip(k) =~= base[i].skip(j + k));
}

/// A pair of a rule name and a reachable string belongs to the universe.
pub proof fn lemma_in_universe(rules: Seq<Rule>, base: Seq<Seq<char>>, i: int, s: Seq<char>)
    requires
        0 <= i < rules.len(),
        reachable(base, s),
    ensures
        universe(rules, base).contains((rules[i].name@, s)),
{
    lemma_reachable_in_all_suffixes(base, s);
    assert(rule_names(rules)[i] == rules[i].name@);
    lemma_pairs_contains(rule_names(rules), all_suffixes(base), rules[i].name@, s);
}

/// Adding a fresh pair of the universe to a set drawn from the universe
/// keeps it within the nesting limit.
pub proof fn lemma_fresh_within_limit(rules: Seq<Rule>, base: Seq<Seq<char>>, active: Active, x: (Seq<char>, Seq<char>))
    requires
        active.subset_of(universe(rules, base).to_set()),
        universe(rules, base).contains(x),
        !active.contains(x),
    ensures
        active.finite(),
        active.len() < nesting_limit(rules, base),
{
    let u = universe(rules, base);
    u.lemma_cardinality_of_set();
    vstd::set_lib::lemma_len_subset(active.insert(x), u.to_set());
}

} // verus!
