//! The packrat cache: a list of entries with distinct keys.
use vstd::prelude::*;
use crate::ast::{Node, SpecNode};
use crate::semantics::Memo;

verus! {

/// One cached success of a rule: the rule's name, the byte position where it
/// was applied, and what it produced.
pub struct MemoEntry {
    pub name: String,
    pub pos: usize,
    pub node: Node,
    pub rest: String,
}

pub open spec fn entry_key(e: MemoEntry) -> (Seq<char>, nat) {
    (e.name@, e.pos as nat)
}

pub open spec fn entry_val(e: MemoEntry) -> (SpecNode, Seq<char>) {
    (e.node.view(), e.rest@)
}

/// The map that a list of entries stands for.
pub open spec fn memo_map(v: Seq<MemoEntry>) -> Memo
    decreases v.len(),
{
    if v.len() == 0 {
        Map::empty()
    } else {
        memo_map(v.drop_last()).insert(entry_key(v.last()), entry_val(v.last()))
    }
}

/// No two entries share a key.
pub open spec fn keys_unique(v: Seq<MemoEntry>) -> bool {
    forall|i: int, j: int| 0 <= i < j < v.len() ==> entry_key(v[i]) != entry_key(v[j])
}

pub proof fn lemma_memo_map_dom(v: Seq<MemoEntry>)
    ensures
        forall|k: (Seq<char>, nat)|
            memo_map(v).contains_key(k) <==> exists|i: int| 0 <= i < v.len() && entry_key(v[i]) == k,
        memo_map(v).dom().finite(),
    decreases v.len(),
{
    if v.len() > 0 {
        lemma_memo_map_dom(v.drop_last());
        assert forall|k: (Seq<char>, nat)|
            memo_map(v).contains_key(k) <==> exists|i: int| 0 <= i < v.len() && entry_key(v[i]) == k by {
            if memo_map(v).contains_key(k) && k != entry_key(v.last()) {
                let i = choose|i: int| 0 <= i < v.drop_last().len() && entry_key(v.drop_last()[i]) == k;
                assert(entry_key(v[i]) == k);
            }
            if exists|i: int| 0 <= i < v.len() && entry_key(v[i]) == k {
                let i = choose|i: int| 0 <= i < v.len() && entry_key(v[i]) == k;
                if i < v.len() - 1 {
                    assert(entry_key(v.drop_last()[i]) == k);
                }
            }
        }
    }
}

pub proof fn lemma_memo_map_get(v: Seq<MemoEntry>, i: int)
    requires
        keys_unique(v),
        0 <= i < v.len(),
    ensures
        memo_map(v).contains_key(entry_key(v[i])),
        memo_map(v)[entry_key(v[i])] == entry_val(v[i]),
    decreases v.len(),
{
    if i < v.len() - 1 {
        assert(entry_key(v.last()) != entry_key(v[i]));
        assert(v.drop_last()[i] == v[i]);
        lemma_memo_map_get(v.drop_last(), i);
    }
}

pub proof fn lemma_memo_map_update(v: Seq<MemoEntry>, i: int, e: MemoEntry)
    requires
        keys_unique(v),
        0 <= i < v.len(),
        entry_key(e) == entry_key(v[i]),
    ensures
        keys_unique(v.update(i, e)),
        memo_map(v.update(i, e)) == memo_map(v).insert(entry_key(e), entry_val(e)),
    decreases v.len(),
{
    let w = v.update(i, e);
    if i == v.len() - 1 {
        assert(w.drop_last() =~= v.drop_last());
        lemma_memo_map_dom(v.drop_last());
        assert(memo_map(w) =~= memo_map(v).insert(entry_key(e), entry_val(e)));
    } else {
        assert(w.drop_last() =~= v.drop_last().update(i, e));
        lemma_memo_map_update(v.drop_last(), i, e);
        assert(entry_key(v.last()) != entry_key(e));
        assert(memo_map(w) =~= memo_map(v).insert(entry_key(e), entry_val(e)));
    }
}

pub proof fn lemma_memo_map_push(v: Seq<MemoEntry>, e: MemoEntry)
    requires
        keys_unique(v),
        forall|i: int| 0 <= i < v.len() ==> entry_key(v[i]) != entry_key(e),
    ensures
        keys_unique(v.push(e)),
        memo_map(v.push(e)) == memo_map(v).insert(entry_key(e), entry_val(e)),
{
    assert(v.push(e).drop_last() =~= v);
}

pub proof fn lemma_memo_map_len(v: Seq<MemoEntry>)
    requires
        keys_unique(v),
    ensures
        memo_map(v).dom().len() == v.len(),
        memo_map(v).dom().finite(),
    decreases v.len(),
{
    lemma_memo_map_dom(v);
    if v.len() > 0 {
        let w = v.drop_last();
        lemma_memo_map_len(w);
        lemma_memo_map_dom(w);
        assert(!memo_map(w).contains_key(entry_key(v.last()))) by {
            if memo_map(w).contains_key(entry_key(v.last())) {
                let i = choose|i: int| 0 <= i < w.len() && entry_key(w[i]) == entry_key(v.last());
                assert(entry_key(v[i]) == entry_key(v[v.len() - 1]));
            }
        }
        assert(memo_map(v).dom() =~= memo_map(w).dom().insert(entry_key(v.last())));
    }
}

/// The index of the entry with the given key, if any.
pub fn memo_find(v: &Vec<MemoEntry>, name: &String, pos: usize) -> (r: Option<usize>)
    ensures
        match r {
            Some(i) => i < v@.len() && entry_key(v@[i as int]) == (name@, pos as nat),
            None => forall|i: int| 0 <= i < v@.len() ==> entry_key(v@[i]) != (name@, pos as nat),
        },
{
    let mut i: usize = 0;
    while i < v.len()
        invariant
            i <= v@.len(),
            forall|j: int| 0 <= j < i ==> entry_key(v@[j]) != (name@, pos as nat),
        decreases v@.len() - i,
    {
        if v[i].pos == pos && v[i].name.eq(name) {
            return Some(i);
        }
        i = i + 1;
    }
    None
}

/// Store an entry, replacing the one with the same key.
pub fn memo_store(v: &mut Vec<MemoEntry>, e: MemoEntry)
    requires
        keys_unique(old(v)@),
    ensures
        keys_unique(final(v)@),
        memo_map(final(v)@) == memo_map(old(v)@).insert(entry_key(e), entry_val(e)),
{
    let ghost k = entry_key(e);
    let ghost val = entry_val(e);
    let ghost e0 = e;
    match memo_find(v, &e.name, e.pos) {
        Some(i) => {
            proof {
                lemma_memo_map_update(old(v)@, i as int, e0);
            }
            v.set(i, e);
            assert(v@ == old(v)@.update(i as int, e0));
        },
        None => {
            proof {
                lemma_memo_map_push(old(v)@, e0);
            }
            v.push(e);
        },
    }
}

} // verus!
