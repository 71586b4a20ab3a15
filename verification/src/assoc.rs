use vstd::prelude::*;
use vstd::map::*;

verus! {

// The view of a list of keyed entries as a finite map, with the facts the
// list operations need. Shared by the segment map and the trie's child lists.

pub(crate) open spec fn aseq_has<X>(s: Seq<(String, X)>, k: Seq<char>) -> bool {
    exists|i: int| 0 <= i < s.len() && s[i].0@ == k
}

pub(crate) open spec fn aseq_idx<X>(s: Seq<(String, X)>, k: Seq<char>) -> int {
    choose|i: int| 0 <= i < s.len() && s[i].0@ == k
}

pub(crate) open spec fn aseq_map<X>(s: Seq<(String, X)>) -> Map<Seq<char>, X> {
    Map::new(|k: Seq<char>| aseq_has(s, k), |k: Seq<char>| s[aseq_idx(s, k)].1)
}

pub(crate) open spec fn aseq_unique<X>(s: Seq<(String, X)>) -> bool {
    forall|i: int, j: int|
        0 <= i < j < s.len() ==> (#[trigger] s[i].0)@ != (#[trigger] s[j].0)@
}

pub(crate) proof fn aseq_lemma_idx<X>(s: Seq<(String, X)>, j: int)
    requires
        aseq_unique(s),
        0 <= j < s.len(),
    ensures
        aseq_has(s, s[j].0@),
        aseq_idx(s, s[j].0@) == j,
        aseq_map(s).contains_key(s[j].0@),
        aseq_map(s)[s[j].0@] == s[j].1,
{
    let k = s[j].0@;
    assert(aseq_has(s, k));
    let i = aseq_idx(s, k);
    assert(0 <= i < s.len() && s[i].0@ == k);
    if i < j {
        assert(s[i].0@ != s[j].0@);
    } else if j < i {
        assert(s[j].0@ != s[i].0@);
    }
}

pub(crate) proof fn aseq_lemma_empty<X>(s: Seq<(String, X)>)
    requires
        s.len() == 0,
    ensures
        aseq_map(s) == Map::<Seq<char>, X>::empty(),
{
    assert(aseq_map(s) =~= Map::<Seq<char>, X>::empty());
}

pub(crate) proof fn aseq_lemma_push<X>(s: Seq<(String, X)>, key: String, v: X)
    requires
        aseq_unique(s),
        !aseq_has(s, key@),
    ensures
        aseq_unique(s.push((key, v))),
        forall|k2: Seq<char>| #[trigger]
            aseq_has(s.push((key, v)), k2) == (aseq_has(s, k2) || k2 == key@),
        aseq_map(s.push((key, v))) == aseq_map(s).insert(key@, v),
{
    let t = s.push((key, v));
    assert(t[s.len() as int] == (key, v));
    assert forall|i1: int, j1: int| 0 <= i1 < j1 < t.len() implies (#[trigger] t[i1].0)@ != (
    #[trigger] t[j1].0)@ by {
        if j1 < s.len() {
            assert(s[i1].0@ != s[j1].0@);
        } else {
            assert(t[j1].0@ == key@);
            assert(t[i1] == s[i1]);
            if s[i1].0@ == key@ {
                assert(aseq_has(s, key@));
            }
        }
    }
    assert forall|k2: Seq<char>| #[trigger]
        aseq_has(t, k2) == (aseq_has(s, k2) || k2 == key@) by {
        if aseq_has(t, k2) {
            let i = choose|i: int| 0 <= i < t.len() && t[i].0@ == k2;
            if i < s.len() {
                assert(s[i].0@ == k2);
                assert(aseq_has(s, k2));
            } else {
                assert(k2 == key@);
            }
        }
        if aseq_has(s, k2) {
            let i = choose|i: int| 0 <= i < s.len() && s[i].0@ == k2;
            assert(t[i].0@ == k2);
            assert(aseq_has(t, k2));
        }
        if k2 == key@ {
            assert(t[s.len() as int].0@ == k2);
            assert(aseq_has(t, k2));
        }
    }
    assert forall|k2: Seq<char>| aseq_has(t, k2) implies #[trigger] aseq_map(t)[k2] == aseq_map(
        s,
    ).insert(key@, v)[k2] by {
        if k2 == key@ {
            aseq_lemma_idx(t, s.len() as int);
        } else {
            let i = choose|i: int| 0 <= i < s.len() && s[i].0@ == k2;
            aseq_lemma_idx(s, i);
            aseq_lemma_idx(t, i);
        }
    }
    assert(aseq_map(t) =~= aseq_map(s).insert(key@, v));
}

pub(crate) proof fn aseq_lemma_remove<X>(s: Seq<(String, X)>, j: int)
    requires
        aseq_unique(s),
        0 <= j < s.len(),
    ensures
        aseq_unique(s.remove(j)),
        forall|k2: Seq<char>| #[trigger]
            aseq_has(s.remove(j), k2) == (aseq_has(s, k2) && k2 != s[j].0@),
        aseq_map(s.remove(j)) == aseq_map(s).remove(s[j].0@),
{
    let t = s.remove(j);
    let key = s[j].0@;
    assert forall|i1: int, j1: int| 0 <= i1 < j1 < t.len() implies (#[trigger] t[i1].0)@ != (
    #[trigger] t[j1].0)@ by {
        let a = if i1 < j { i1 } else { i1 + 1 };
        let b = if j1 < j { j1 } else { j1 + 1 };
        assert(t[i1] == s[a] && t[j1] == s[b]);
        assert(s[a].0@ != s[b].0@);
    }
    assert forall|k2: Seq<char>| #[trigger] aseq_has(t, k2) == (aseq_has(s, k2) && k2 != key) by {
        if aseq_has(t, k2) {
            let i = choose|i: int| 0 <= i < t.len() && t[i].0@ == k2;
            let a = if i < j { i } else { i + 1 };
            assert(t[i] == s[a]);
            assert(aseq_has(s, k2));
            if k2 == key {
                if a < j {
                    assert(s[a].0@ != s[j].0@);
                } else if j < a {
                    assert(s[j].0@ != s[a].0@);
                }
            }
        }
        if aseq_has(s, k2) && k2 != key {
            let i = choose|i: int| 0 <= i < s.len() && s[i].0@ == k2;
            if i < j {
                assert(t[i].0@ == k2);
            } else {
                assert(i != j);
                assert(t[i - 1].0@ == k2);
            }
            assert(aseq_has(t, k2));
        }
    }
    assert forall|k2: Seq<char>| aseq_has(t, k2) implies #[trigger] aseq_map(t)[k2] == aseq_map(
        s,
    )[k2] by {
        let i = choose|i: int| 0 <= i < t.len() && t[i].0@ == k2;
        let a = if i < j { i } else { i + 1 };
        aseq_lemma_idx(t, i);
        aseq_lemma_idx(s, a);
        assert(t[i] == s[a]);
    }
    assert(aseq_map(t) =~= aseq_map(s).remove(key));
}

pub(crate) proof fn aseq_lemma_update<X>(s: Seq<(String, X)>, j: int, v: X)
    requires
        aseq_unique(s),
        0 <= j < s.len(),
    ensures
        aseq_unique(s.update(j, (s[j].0, v))),
        forall|k2: Seq<char>| #[trigger]
            aseq_has(s.update(j, (s[j].0, v)), k2) == aseq_has(s, k2),
        aseq_map(s.update(j, (s[j].0, v))) == aseq_map(s).insert(s[j].0@, v),
{
    let t = s.update(j, (s[j].0, v));
    assert forall|i1: int, j1: int| 0 <= i1 < j1 < t.len() implies (#[trigger] t[i1].0)@ != (
    #[trigger] t[j1].0)@ by {
        assert(t[i1].0 == s[i1].0 && t[j1].0 == s[j1].0);
        assert(s[i1].0@ != s[j1].0@);
    }
    assert forall|k2: Seq<char>| #[trigger] aseq_has(t, k2) == aseq_has(s, k2) by {
        if aseq_has(t, k2) {
            let i = choose|i: int| 0 <= i < t.len() && t[i].0@ == k2;
            assert(s[i].0@ == k2);
            assert(aseq_has(s, k2));
        }
        if aseq_has(s, k2) {
            let i = choose|i: int| 0 <= i < s.len() && s[i].0@ == k2;
            assert(t[i].0@ == k2);
            assert(aseq_has(t, k2));
        }
    }
    assert forall|k2: Seq<char>| aseq_has(t, k2) implies #[trigger] aseq_map(t)[k2] == aseq_map(
        s,
    ).insert(s[j].0@, v)[k2] by {
        let i = choose|i: int| 0 <= i < t.len() && t[i].0@ == k2;
        aseq_lemma_idx(t, i);
        if k2 == s[j].0@ {
            if i < j {
                assert(s[i].0@ != s[j].0@);
            } else if j < i {
                assert(s[j].0@ != s[i].0@);
            }
            assert(i == j);
        } else {
            assert(i != j);
            assert(t[i] == s[i]);
            aseq_lemma_idx(s, i);
        }
    }
    assert(aseq_map(t) =~= aseq_map(s).insert(s[j].0@, v));
}

} // verus!
