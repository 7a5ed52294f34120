//! Ordered sets of peer ids.

use vstd::prelude::*;
use std::collections::BTreeSet;
use vstd::std_specs::iter::IteratorSpec;
use vstd::std_specs::btree::spec_btree_keys_iter;
use crate::PeerId;

verus! {

/// An ordered set of peer ids; its view is the mathematical set.
pub type PeerSet = BTreeSet<PeerId>;

/// Adds `peer` to `set`.
pub fn set_insert(set: &mut PeerSet, peer: PeerId)
    ensures
        final(set)@ == old(set)@.insert(peer),
{
    broadcast use vstd::laws_cmp::group_laws_cmp;

    set.insert(peer);
}

/// Whether `peer` is in `set`.
pub fn set_contains(set: &PeerSet, peer: PeerId) -> (r: bool)
    ensures
        r == set@.contains(peer),
{
    broadcast use vstd::laws_cmp::group_laws_cmp;

    set.contains(&peer)
}

/// The members of `set`, each once.
pub fn set_members(set: &PeerSet) -> (v: Vec<PeerId>)
    ensures
        v@.no_duplicates(),
        forall|p: PeerId| v@.contains(p) <==> set@.contains(p),
{
    broadcast use vstd::laws_cmp::group_laws_cmp;

    let mut v: Vec<PeerId> = Vec::new();
    for x in it: set.iter()
        invariant
            it.seq() == spec_btree_keys_iter(set).remaining(),
            v@ == it.seq().unref().take(it.index()),
    {
        v.push(*x);
        assert(it.seq().unref().take(it.index() + 1) == it.seq().unref().take(it.index()).push(*x));
    }
    proof {
        let r = spec_btree_keys_iter(set).remaining();
        assert(v@ == r.unref());
        assert(r.unref().to_set() == set@);
        assert forall|p: PeerId| v@.contains(p) <==> set@.contains(p) by {
            assert(v@.to_set().contains(p) <==> v@.contains(p));
        }
        assert forall|i: int, j: int| 0 <= i < v@.len() && 0 <= j < v@.len() && i != j implies v@[i]
            != v@[j] by {
            assert(r[i] != r[j]);
        }
    }
    v
}

/// Whether every member of `a` is a member of `b`.
pub fn set_subset(a: &PeerSet, b: &PeerSet) -> (r: bool)
    ensures
        r == a@.subset_of(b@),
{
    let members = set_members(a);
    let mut i: usize = 0;
    while i < members.len()
        invariant
            i <= members.len(),
            forall|p: PeerId| members@.contains(p) <==> a@.contains(p),
            forall|j: int| 0 <= j < i ==> b@.contains(members@[j]),
        decreases members.len() - i,
    {
        if !set_contains(b, members[i]) {
            assert(members@.contains(members@[i as int]));
            return false;
        }
        i += 1;
    }
    assert forall|p: PeerId| a@.contains(p) implies b@.contains(p) by {
        assert(members@.contains(p));
    }
    true
}

/// Whether `a` and `b` hold the same peers.
pub fn set_equal(a: &PeerSet, b: &PeerSet) -> (r: bool)
    ensures
        r == (a@ == b@),
{
    let r = set_subset(a, b) && set_subset(b, a);
    assert(r ==> a@ =~= b@);
    r
}

/// The set of the peers listed in `v`.
pub fn set_from_members(v: &Vec<PeerId>) -> (set: PeerSet)
    ensures
        set@ == v@.to_set(),
{
    let mut set: PeerSet = BTreeSet::new();
    let mut i: usize = 0;
    while i < v.len()
        invariant
            i <= v.len(),
            set@ == v@.take(i as int).to_set(),
        decreases v.len() - i,
    {
        set_insert(&mut set, v[i]);
        assert(v@.take(i + 1) == v@.take(i as int).push(v@[i as int]));
        assert(v@.take(i as int).push(v@[i as int]).to_set() =~= v@.take(i as int).to_set().insert(
            v@[i as int],
        )) by {
            let s = v@.take(i as int);
            let x = v@[i as int];
            assert forall|p: PeerId| s.push(x).to_set().contains(p) <==> s.to_set().insert(
                x,
            ).contains(p) by {
                if s.push(x).contains(p) {
                    let k = choose|k: int| 0 <= k < s.push(x).len() && s.push(x)[k] == p;
                    if k < s.len() {
                        assert(s[k] == p);
                    }
                }
                if s.contains(p) {
                    let k = choose|k: int| 0 <= k < s.len() && s[k] == p;
                    assert(s.push(x)[k] == p);
                }
                if p == x {
                    assert(s.push(x)[s.len() as int] == p);
                }
            }
        }
        i += 1;
    }
    assert(v@.take(v.len() as int) == v@);
    set
}

/// Whether `p` is among the first `i` of `keys`.
pub open spec fn seen(keys: Seq<PeerId>, i: int, p: PeerId) -> bool {
    exists|k: int| 0 <= k < i && #[trigger] keys[k] == p
}

/// What one more key adds to those seen.
pub proof fn lemma_seen_step(keys: Seq<PeerId>, i: int, p: PeerId)
    requires
        0 <= i < keys.len(),
    ensures
        seen(keys, i + 1, p) <==> seen(keys, i, p) || keys[i] == p,
{
    if seen(keys, i + 1, p) {
        let k = choose|k: int| 0 <= k < i + 1 && #[trigger] keys[k] == p;
        if k < i {
            assert(seen(keys, i, p));
        }
    }
    if seen(keys, i, p) {
        let k = choose|k: int| 0 <= k < i && #[trigger] keys[k] == p;
        assert(0 <= k < i + 1 && keys[k] == p);
    }
    if keys[i] == p {
        assert(0 <= i < i + 1 && keys[i] == p);
    }
}

/// Adds every peer of `members` to `set`.
pub fn set_insert_all(set: &mut PeerSet, members: &Vec<PeerId>)
    ensures
        forall|p: PeerId|
            #[trigger] final(set)@.contains(p) <==> old(set)@.contains(p) || members@.contains(p),
{
    let mut j: usize = 0;
    while j < members.len()
        invariant
            j <= members@.len(),
            forall|p: PeerId|
                #[trigger] set@.contains(p) <==> old(set)@.contains(p) || seen(members@, j as int, p),
        decreases members@.len() - j,
    {
        let ghost before = set@;
        set_insert(set, members[j]);
        proof {
            assert forall|p: PeerId| #[trigger]
                set@.contains(p) <==> old(set)@.contains(p) || seen(members@, j + 1, p) by {
                lemma_seen_step(members@, j as int, p);
                assert(set@.contains(p) <==> before.contains(p) || p == members@[j as int]);
            }
        }
        j += 1;
    }
    proof {
        assert forall|p: PeerId| #[trigger]
            set@.contains(p) <==> old(set)@.contains(p) || members@.contains(p) by {
            if seen(members@, members@.len() as int, p) {
                let k = choose|k: int| 0 <= k < members@.len() && #[trigger] members@[k] == p;
                assert(members@.contains(p));
            }
            if members@.contains(p) {
                let k = choose|k: int| 0 <= k < members@.len() && members@[k] == p;
                assert(seen(members@, members@.len() as int, p));
            }
        }
    }
}

/// Whether `s` ascends strictly.
pub open spec fn ascending(s: Seq<PeerId>) -> bool {
    forall|i: int, j: int| 0 <= i < j < s.len() ==> s[i] < s[j]
}

/// A sequence that ascends strictly holds nothing twice.
pub proof fn lemma_ascending_distinct(s: Seq<PeerId>)
    requires
        ascending(s),
    ensures
        s.no_duplicates(),
{
    assert forall|i: int, j: int| 0 <= i < s.len() && 0 <= j < s.len() && i != j implies s[i]
        != s[j] by {
        if i < j {
            assert(s[i] < s[j]);
        } else {
            assert(s[j] < s[i]);
        }
    }
}

/// Two strictly ascending sequences with the same members are the same.
pub proof fn lemma_ascending_unique(s: Seq<PeerId>, t: Seq<PeerId>)
    requires
        ascending(s),
        ascending(t),
        forall|p: PeerId| s.contains(p) <==> t.contains(p),
    ensures
        s == t,
    decreases s.len(),
{
    if s.len() == 0 {
        if t.len() > 0 {
            assert(t.contains(t[0]));
        }
        assert(s =~= t);
    } else {
        let m = s.last();
        assert(s.contains(m));
        assert(t.contains(m));
        let j = choose|j: int| 0 <= j < t.len() && t[j] == m;
        if j < t.len() - 1 {
            assert(t[j] < t[t.len() - 1]);
            assert(t.contains(t.last()));
            let k = choose|k: int| 0 <= k < s.len() && s[k] == t.last();
            if k < s.len() - 1 {
                assert(s[k] < s[s.len() - 1]);
            }
        }
        assert(t.last() == m);
        let s2 = s.drop_last();
        let t2 = t.drop_last();
        assert forall|p: PeerId| s2.contains(p) <==> t2.contains(p) by {
            if s2.contains(p) {
                let k = choose|k: int| 0 <= k < s2.len() && s2[k] == p;
                assert(s[k] < s[s.len() - 1]);
                assert(s.contains(p));
                let i = choose|i: int| 0 <= i < t.len() && t[i] == p;
                assert(t2[i] == p);
            }
            if t2.contains(p) {
                let k = choose|k: int| 0 <= k < t2.len() && t2[k] == p;
                assert(t[k] < t[t.len() - 1]);
                assert(t.contains(p));
                let i = choose|i: int| 0 <= i < s.len() && s[i] == p;
                assert(s2[i] == p);
            }
        }
        lemma_ascending_unique(s2, t2);
        assert(s =~= s2.push(m));
        assert(t =~= t2.push(m));
    }
}

/// The peers of `v` in ascending order, each once.
pub fn sorted_peers(v: &Vec<PeerId>) -> (r: Vec<PeerId>)
    ensures
        ascending(r@),
        r@.no_duplicates(),
        forall|p: PeerId| r@.contains(p) <==> v@.contains(p),
{
    let distinct = set_members(&set_from_members(v));
    let r = sort_distinct(&distinct);
    proof {
        lemma_ascending_distinct(r@);
    }
    r
}

/// The peers of `v`, none of which occurs twice, in ascending order.
fn sort_distinct(v: &Vec<PeerId>) -> (r: Vec<PeerId>)
    requires
        v@.no_duplicates(),
    ensures
        ascending(r@),
        r@.len() == v@.len(),
        forall|p: PeerId| r@.contains(p) <==> v@.contains(p),
{
    let mut r: Vec<PeerId> = Vec::new();
    let mut i: usize = 0;
    while i < v.len()
        invariant
            i <= v@.len(),
            v@.no_duplicates(),
            r@.len() == i,
            ascending(r@),
            forall|p: PeerId| r@.contains(p) <==> v@.take(i as int).contains(p),
        decreases v@.len() - i,
    {
        let x = v[i];
        let mut pos: usize = 0;
        while pos < r.len() && r[pos] < x
            invariant
                pos <= r@.len(),
                forall|k: int| 0 <= k < pos ==> r@[k] < x,
            decreases r@.len() - pos,
        {
            pos += 1;
        }
        let ghost before = r@;
        proof {
            assert(!before.contains(x)) by {
                if before.contains(x) {
                    let k = choose|k: int| 0 <= k < i && v@.take(i as int)[k] == x;
                    assert(v@[k] == v@[i as int]);
                }
            }
            if pos < before.len() {
                assert(before.contains(before[pos as int]));
            }
        }
        r.insert(pos, x);
        proof {
            let after = r@;
            assert(after == before.insert(pos as int, x));
            assert forall|a: int, b: int| 0 <= a < b < after.len() implies after[a] < after[b] by {
                if b < pos {
                } else if b == pos {
                } else if a < pos {
                    assert(after[b] == before[b - 1]);
                    if b - 1 > pos {
                        assert(before[pos as int] < before[b - 1]);
                    }
                } else if a == pos {
                    assert(after[b] == before[b - 1]);
                    if b - 1 > pos {
                        assert(before[pos as int] < before[b - 1]);
                    }
                } else {
                    assert(after[a] == before[a - 1] && after[b] == before[b - 1]);
                }
            }
            let done = v@.take(i as int);
            let next = v@.take(i + 1);
            assert forall|p: PeerId| after.contains(p) <==> next.contains(p) by {
                if after.contains(p) {
                    let k = choose|k: int| 0 <= k < after.len() && after[k] == p;
                    if k < pos {
                        assert(before[k] == p);
                        assert(before.contains(p));
                    } else if k > pos {
                        assert(before[k - 1] == p);
                        assert(before.contains(p));
                    } else {
                        assert(next[i as int] == p);
                    }
                    if before.contains(p) {
                        let m = choose|m: int| 0 <= m < done.len() && done[m] == p;
                        assert(next[m] == p);
                    }
                }
                if next.contains(p) {
                    let m = choose|m: int| 0 <= m < next.len() && next[m] == p;
                    if m < i {
                        assert(done[m] == p);
                        assert(before.contains(p));
                        let k = choose|k: int| 0 <= k < before.len() && before[k] == p;
                        if k < pos {
                            assert(after[k] == p);
                        } else {
                            assert(after[k + 1] == p);
                        }
                    } else {
                        assert(after[pos as int] == p);
                    }
                }
            }
        }
        i += 1;
    }
    assert(v@.take(v@.len() as int) == v@);
    r
}

} // verus!
