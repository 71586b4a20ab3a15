use vstd::prelude::*;
use vstd::map::*;
use crate::keys::{KeyKind, classify, classify_spec, is_regex_key, is_param_key, is_catchall_key,
    regex_inner, seg_seq};
use crate::pattern::{regex_valid, regex_accepts, regex_matches};
use vstd::string::StrSliceExecFns;

verus! {

/// Maps one path segment to a child item and classifies each inserted key
/// into one of the four match kinds. Literal lookup goes through the exact
/// entry list; pattern resolution additionally consults the regex keys in
/// insertion order, then the tracked parameter key, then the catchall key.
#[verifier::ext_equal]
pub struct SegmentMap<V> {
    entries: Vec<(String, V)>,
    regexes: Vec<String>,
    param: Option<String>,
    catchall: Option<String>,
}

/// The regex-form keys of `rs`, in order, whose enclosed pattern matches `seg`.
pub open spec fn regex_part(rs: Seq<Seq<char>>, seg: Seq<char>) -> Seq<Seq<char>>
    decreases rs.len(),
{
    if rs.len() == 0 {
        Seq::empty()
    } else {
        (if regex_accepts(regex_inner(rs[0]), seg) {
            seq![rs[0]]
        } else {
            Seq::empty()
        }) + regex_part(rs.drop_first(), seg)
    }
}

pub(crate) proof fn lemma_regex_part_push(rs: Seq<Seq<char>>, x: Seq<char>, seg: Seq<char>)
    ensures
        regex_part(rs.push(x), seg) == regex_part(rs, seg) + (if regex_accepts(
            regex_inner(x),
            seg,
        ) {
            seq![x]
        } else {
            Seq::<Seq<char>>::empty()
        }),
    decreases rs.len(),
{
    let tail = (if regex_accepts(regex_inner(x), seg) {
        seq![x]
    } else {
        Seq::<Seq<char>>::empty()
    });
    if rs.len() == 0 {
        assert(rs.push(x).drop_first() =~= rs);
        assert(rs.push(x)[0] == x);
        assert(regex_part(rs, seg) =~= Seq::<Seq<char>>::empty());
        assert(regex_part(rs.push(x), seg) =~= tail + regex_part(rs, seg));
        assert(tail + regex_part(rs, seg) =~= regex_part(rs, seg) + tail);
    } else {
        assert(rs.push(x).drop_first() =~= rs.drop_first().push(x));
        assert(rs.push(x)[0] == rs[0]);
        lemma_regex_part_push(rs.drop_first(), x, seg);
        let head = (if regex_accepts(regex_inner(rs[0]), seg) {
            seq![rs[0]]
        } else {
            Seq::<Seq<char>>::empty()
        });
        assert(regex_part(rs.push(x), seg) == head + (regex_part(rs.drop_first(), seg) + tail));
        assert(head + (regex_part(rs.drop_first(), seg) + tail) =~= (head + regex_part(
            rs.drop_first(),
            seg,
        )) + tail);
        assert(regex_part(rs, seg) == head + regex_part(rs.drop_first(), seg));
    }
}

impl<V> SegmentMap<V> {
    spec fn has_key(self, k: Seq<char>) -> bool {
        exists|i: int| 0 <= i < self.entries@.len() && self.entries@[i].0@ == k
    }

    spec fn idx_of(self, k: Seq<char>) -> int {
        choose|i: int| 0 <= i < self.entries@.len() && self.entries@[i].0@ == k
    }

    /// The exact-match mapping, from full key to entry.
    pub closed spec fn contents(self) -> Map<Seq<char>, V> {
        Map::new(
            |k: Seq<char>| self.has_key(k),
            |k: Seq<char>| self.entries@[self.idx_of(k)].1,
        )
    }

    /// The regex keys, in insertion order.
    pub closed spec fn regex_list(self) -> Seq<Seq<char>> {
        Seq::new(self.regexes@.len() as nat, |i: int| self.regexes@[i]@)
    }

    /// The tracked parameter key, if one is registered.
    pub closed spec fn param_key(self) -> Option<Seq<char>> {
        match self.param {
            Some(p) => Some(p@),
            None => None,
        }
    }

    /// The tracked catchall key, if one is registered.
    pub closed spec fn catchall_key(self) -> Option<Seq<char>> {
        match self.catchall {
            Some(c) => Some(c@),
            None => None,
        }
    }

    spec fn keys_unique(self) -> bool {
        forall|i: int, j: int|
            0 <= i < j < self.entries@.len() ==> (#[trigger] self.entries@[i].0)@ != (
            #[trigger] self.entries@[j].0)@
    }

    /// Internal invariant: keys are unique; the regex list holds distinct,
    /// well-formed, compilable regex keys; every key that the regex list or
    /// the parameter/catchall pointers reference exists in the exact map.
    pub closed spec fn wf(self) -> bool {
        &&& self.keys_unique()
        &&& forall|i: int, j: int|
            0 <= i < j < self.regexes@.len() ==> (#[trigger] self.regexes@[i])@ != (
            #[trigger] self.regexes@[j])@
        &&& forall|i: int|
            0 <= i < self.regexes@.len() ==> {
                let r = (#[trigger] self.regexes@[i])@;
                &&& is_regex_key(r)
                &&& regex_valid(regex_inner(r))
                &&& self.has_key(r)
            }
        &&& match self.param {
            Some(p) => is_param_key(p@) && self.has_key(p@),
            None => true,
        }
        &&& match self.catchall {
            Some(c) => is_catchall_key(c@) && self.has_key(c@),
            None => true,
        }
    }

    /// Whether the exact-match mapping is empty.
    pub closed spec fn spec_is_empty(self) -> bool {
        self.entries@.len() == 0
    }

    proof fn lemma_idx(self, j: int)
        requires
            self.keys_unique(),
            0 <= j < self.entries@.len(),
        ensures
            self.has_key(self.entries@[j].0@),
            self.idx_of(self.entries@[j].0@) == j,
            self.contents().contains_key(self.entries@[j].0@),
            self.contents()[self.entries@[j].0@] == self.entries@[j].1,
    {
        let k = self.entries@[j].0@;
        assert(self.has_key(k));
        let i = self.idx_of(k);
        assert(0 <= i < self.entries@.len() && self.entries@[i].0@ == k);
        if i < j {
            assert(self.entries@[i].0@ != self.entries@[j].0@);
        } else if j < i {
            assert(self.entries@[j].0@ != self.entries@[i].0@);
        }
    }

    pub fn new() -> (m: SegmentMap<V>)
        ensures
            m.wf(),
            m.spec_is_empty(),
            m.contents() == Map::<Seq<char>, V>::empty(),
            m.regex_list() == Seq::<Seq<char>>::empty(),
            m.param_key() is None,
            m.catchall_key() is None,
    {
        let m = SegmentMap::<V> {
            entries: Vec::new(),
            regexes: Vec::new(),
            param: None,
            catchall: None,
        };
        proof {
            assert(m.contents() =~= Map::<Seq<char>, V>::empty());
            assert(m.regex_list() =~= Seq::<Seq<char>>::empty());
        }
        m
    }

    /// True iff the exact-match mapping is empty; regex, parameter and
    /// catchall entries are always mirrored into it, so this alone decides.
    pub fn is_empty(&self) -> (r: bool)
        requires
            self.wf(),
        ensures
            r == self.spec_is_empty(),
            r == (self.contents() == Map::<Seq<char>, V>::empty()),
    {
        let r = self.entries.is_empty();
        proof {
            if r {
                assert(self.contents() =~= Map::<Seq<char>, V>::empty());
            } else {
                self.lemma_idx(0);
                assert(self.contents().contains_key(self.entries@[0].0@));
            }
        }
        r
    }

    fn find_index(&self, key: &String) -> (r: Option<usize>)
        ensures
            match r {
                Some(j) => j < self.entries@.len() && self.entries@[j as int].0@ == key@,
                None => !self.has_key(key@),
            },
    {
        let mut j: usize = 0;
        while j < self.entries.len()
            invariant
                j <= self.entries@.len(),
                forall|i: int| 0 <= i < j ==> (#[trigger] self.entries@[i].0)@ != key@,
            decreases self.entries@.len() - j,
        {
            if self.entries[j].0 == *key {
                return Some(j);
            }
            j += 1;
        }
        None
    }

    fn regex_index(&self, key: &String) -> (r: Option<usize>)
        ensures
            match r {
                Some(j) => j < self.regexes@.len() && self.regexes@[j as int]@ == key@,
                None => forall|i: int|
                    0 <= i < self.regexes@.len() ==> (#[trigger] self.regexes@[i])@ != key@,
            },
    {
        let mut j: usize = 0;
        while j < self.regexes.len()
            invariant
                j <= self.regexes@.len(),
                forall|i: int| 0 <= i < j ==> (#[trigger] self.regexes@[i])@ != key@,
            decreases self.regexes@.len() - j,
        {
            if self.regexes[j] == *key {
                return Some(j);
            }
            j += 1;
        }
        None
    }

    /// Exact lookup by full literal key; no pattern interpretation.
    pub fn get<'a>(&'a self, key: &String) -> (r: Option<&'a V>)
        requires
            self.wf(),
        ensures
            match r {
                Some(v) => self.contents().contains_key(key@) && *v == self.contents()[key@],
                None => !self.contents().contains_key(key@),
            },
    {
        match self.find_index(key) {
            Some(j) => {
                proof {
                    self.lemma_idx(j as int);
                }
                Some(&self.entries[j].1)
            }
            None => None,
        }
    }

    /// Classifies `key`, updating the regex list or the parameter/catchall
    /// pointer as its kind demands, then creates the entry for `key` holding
    /// `value` if the key is absent; an existing entry stays unchanged.
    pub fn insert(&mut self, key: &String, value: V)
        requires
            old(self).wf(),
            is_regex_key(key@) ==> regex_valid(regex_inner(key@)),
        ensures
            final(self).wf(),
            !final(self).spec_is_empty(),
            final(self).contents().contains_key(key@),
            final(self).contents() == (if old(self).contents().contains_key(key@) {
                old(self).contents()
            } else {
                old(self).contents().insert(key@, value)
            }),
            final(self).regex_list() == (if is_regex_key(key@) && !old(self).regex_list().contains(
                key@,
            ) {
                old(self).regex_list().push(key@)
            } else {
                old(self).regex_list()
            }),
            final(self).param_key() == (if is_param_key(key@) {
                Some(key@)
            } else {
                old(self).param_key()
            }),
            final(self).catchall_key() == (if is_catchall_key(key@) {
                Some(key@)
            } else {
                old(self).catchall_key()
            }),
    {
        let kind = classify(key);
        match kind {
            KeyKind::Regex => {
                match self.regex_index(key) {
                    Some(j) => {
                        proof {
                            assert(old(self).regex_list()[j as int] == key@);
                            assert(old(self).regex_list().contains(key@));
                        }
                    }
                    None => {
                        self.regexes.push(key.clone());
                        proof {
                            assert forall|i: int|
                                0 <= i < old(self).regexes@.len() implies old(
                                self,
                            ).regex_list()[i] != key@ by {
                                assert(old(self).regexes@[i]@ != key@);
                            }
                            assert(!old(self).regex_list().contains(key@));
                            assert(self.regex_list() =~= old(self).regex_list().push(key@));
                        }
                    }
                }
            }
            KeyKind::Param => {
                self.param = Some(key.clone());
            }
            KeyKind::Catchall => {
                self.catchall = Some(key.clone());
            }
            KeyKind::Literal => {
                proof {
                    assert forall|i: int|
                        0 <= i < old(self).regexes@.len() implies old(self).regex_list()[i]
                        != key@ by {
                        assert(is_regex_key(old(self).regexes@[i]@));
                    }
                    assert(!old(self).regex_list().contains(key@));
                }
            }
        }
        let ghost mid = *self;
        match self.find_index(key) {
            Some(j) => {
                proof {
                    mid.lemma_idx(j as int);
                    old(self).lemma_idx(j as int);
                    assert(self.contents() =~= old(self).contents());
                }
            }
            None => {
                self.entries.push((key.clone(), value));
                proof {
                    let pre = mid.entries@;
                    let post = self.entries@;
                    assert(post =~= pre.push((self.entries@[pre.len() as int].0, value)));
                    assert(self.entries@[pre.len() as int].0@ == key@);
                    // uniqueness of the extended entry list
                    assert forall|i: int, j: int|
                        0 <= i < j < post.len() implies (#[trigger] post[i].0)@ != (
                    #[trigger] post[j].0)@ by {
                        if j < pre.len() {
                            assert(mid.keys_unique());
                        } else {
                            assert(post[j].0@ == key@);
                            if post[i].0@ == key@ {
                                assert(mid.has_key(key@));
                            }
                        }
                    }
                    // contents grows by exactly the new binding
                    assert forall|k2: Seq<char>| #[trigger]
                        self.has_key(k2) == (mid.has_key(k2) || k2 == key@) by {
                        if self.has_key(k2) {
                            let i = choose|i: int|
                                0 <= i < post.len() && post[i].0@ == k2;
                            if i < pre.len() {
                                assert(mid.has_key(k2));
                            } else {
                                assert(k2 == key@);
                            }
                        }
                        if mid.has_key(k2) {
                            let i = choose|i: int| 0 <= i < pre.len() && pre[i].0@ == k2;
                            assert(post[i].0@ == k2);
                            assert(self.has_key(k2));
                        }
                        if k2 == key@ {
                            assert(post[pre.len() as int].0@ == k2);
                            assert(self.has_key(k2));
                        }
                    }
                    assert forall|k2: Seq<char>| self.has_key(k2) implies #[trigger] self.contents()[k2]
                        == mid.contents().insert(key@, value)[k2] by {
                        if k2 == key@ {
                            self.lemma_idx(pre.len() as int);
                        } else {
                            let i = choose|i: int| 0 <= i < pre.len() && pre[i].0@ == k2;
                            mid.lemma_idx(i);
                            self.lemma_idx(i);
                        }
                    }
                    assert(self.contents() =~= mid.contents().insert(key@, value));
                    assert(mid.contents() =~= old(self).contents());
                    // the old pointer targets keep their entries
                    assert forall|k2: Seq<char>| mid.has_key(k2) implies #[trigger] self.has_key(
                        k2,
                    ) by {
                        let i = choose|i: int| 0 <= i < pre.len() && pre[i].0@ == k2;
                        assert(post[i].0@ == k2);
                    }
                }
            }
        }
        proof {
            if is_regex_key(key@) {
                assert(self.has_key(key@));
            }
            assert(final(self).wf());
        }
    }

    /// Removes `key` from the exact map; clears the parameter or catchall
    /// pointer when it tracked `key`, and drops `key` from the regex list.
    /// Returns the removed entry, if any.
    pub fn remove(&mut self, key: &String) -> (r: Option<V>)
        requires
            old(self).wf(),
        ensures
            final(self).wf(),
            r == (if old(self).contents().contains_key(key@) {
                Some(old(self).contents()[key@])
            } else {
                None::<V>
            }),
            final(self).contents() == old(self).contents().remove(key@),
            final(self).regex_list() == (if old(self).regex_list().contains(key@) {
                old(self).regex_list().remove(old(self).regex_list().index_of(key@))
            } else {
                old(self).regex_list()
            }),
            final(self).param_key() == (if old(self).param_key() == Some(key@) {
                None::<Seq<char>>
            } else {
                old(self).param_key()
            }),
            final(self).catchall_key() == (if old(self).catchall_key() == Some(key@) {
                None::<Seq<char>>
            } else {
                old(self).catchall_key()
            }),
    {
        let kind = classify(key);
        match kind {
            KeyKind::Regex => {
                match self.regex_index(key) {
                    Some(j) => {
                        let _ = self.regexes.remove(j);
                        proof {
                            let rl = old(self).regex_list();
                            assert(rl[j as int] == key@);
                            assert(rl.contains(key@));
                            let i0 = rl.index_of(key@);
                            assert(rl[i0] == key@);
                            if i0 < j as int {
                                assert(old(self).regexes@[i0]@ != old(self).regexes@[j as int]@);
                            } else if (j as int) < i0 {
                                assert(old(self).regexes@[j as int]@ != old(self).regexes@[i0]@);
                            }
                            assert(i0 == j as int);
                            assert(self.regex_list() =~= rl.remove(j as int));
                        }
                    }
                    None => {
                        proof {
                            assert forall|i: int|
                                0 <= i < old(self).regex_list().len() implies #[trigger] old(
                                self,
                            ).regex_list()[i] != key@ by {
                                assert(old(self).regexes@[i]@ != key@);
                            }
                            assert(!old(self).regex_list().contains(key@));
                        }
                    }
                }
            }
            KeyKind::Param => {
                let clear = match &self.param {
                    Some(p) => *p == *key,
                    None => false,
                };
                if clear {
                    self.param = None;
                }
            }
            KeyKind::Catchall => {
                let clear = match &self.catchall {
                    Some(c) => *c == *key,
                    None => false,
                };
                if clear {
                    self.catchall = None;
                }
            }
            KeyKind::Literal => {
                proof {
                    assert forall|i: int|
                        0 <= i < old(self).regex_list().len() implies #[trigger] old(
                        self,
                    ).regex_list()[i] != key@ by {
                        assert(is_regex_key(old(self).regexes@[i]@));
                    }
                    assert(!old(self).regex_list().contains(key@));
                }
            }
        }
        let ghost mid = *self;
        let r = match self.find_index(key) {
            Some(j) => {
                proof {
                    mid.lemma_idx(j as int);
                    old(self).lemma_idx(j as int);
                }
                let e = self.entries.remove(j);
                proof {
                    let pre = mid.entries@;
                    let post = self.entries@;
                    assert(post =~= pre.remove(j as int));
                    assert forall|i: int| 0 <= i < post.len() implies #[trigger] post[i] == (
                    if i < j as int {
                        pre[i]
                    } else {
                        pre[i + 1]
                    }) by {}
                    // uniqueness carries over to the shortened list
                    assert forall|i1: int, j1: int|
                        0 <= i1 < j1 < post.len() implies (#[trigger] post[i1].0)@ != (
                    #[trigger] post[j1].0)@ by {
                        let a = if i1 < j as int { i1 } else { i1 + 1 };
                        let b = if j1 < j as int { j1 } else { j1 + 1 };
                        assert(pre[a].0@ != pre[b].0@);
                    }
                    // key parity between the two lists
                    assert forall|k2: Seq<char>| #[trigger]
                        self.has_key(k2) == (mid.has_key(k2) && k2 != key@) by {
                        if self.has_key(k2) {
                            let i = choose|i: int| 0 <= i < post.len() && post[i].0@ == k2;
                            let a = if i < j as int { i } else { i + 1 };
                            assert(pre[a].0@ == k2);
                            assert(mid.has_key(k2));
                            if k2 == key@ {
                                assert(pre[a].0@ == pre[j as int].0@);
                                assert(a == j as int);
                            }
                        }
                        if mid.has_key(k2) && k2 != key@ {
                            let i = choose|i: int| 0 <= i < pre.len() && pre[i].0@ == k2;
                            assert(i != j as int);
                            if i < j as int {
                                assert(post[i].0@ == k2);
                            } else {
                                assert(post[i - 1].0@ == k2);
                            }
                            assert(self.has_key(k2));
                        }
                    }
                    assert forall|k2: Seq<char>| self.has_key(k2) implies #[trigger] self.contents()[k2]
                        == mid.contents()[k2] by {
                        let i = choose|i: int| 0 <= i < post.len() && post[i].0@ == k2;
                        let a = if i < j as int { i } else { i + 1 };
                        self.lemma_idx(i);
                        mid.lemma_idx(a);
                        assert(post[i] == pre[a]);
                    }
                    assert(self.contents() =~= mid.contents().remove(key@));
                }
                Some(e.1)
            }
            None => {
                proof {
                    assert(self.contents() =~= mid.contents().remove(key@));
                }
                None
            }
        };
        proof {
            assert(mid.contents() =~= old(self).contents());
            // surviving pointer targets survive in the exact map
            match &self.param {
                Some(p) => {
                    assert(mid.has_key(p@) && p@ != key@ || p@ == key@ && false);
                    assert(self.has_key(p@));
                }
                None => {}
            }
            match &self.catchall {
                Some(c) => {
                    assert(self.has_key(c@));
                }
                None => {}
            }
            assert forall|i: int|
                0 <= i < self.regexes@.len() implies {
                let rk = (#[trigger] self.regexes@[i])@;
                &&& is_regex_key(rk)
                &&& regex_valid(regex_inner(rk))
                &&& self.has_key(rk)
            } by {
                let rk = self.regexes@[i]@;
                if classify_spec(key@) == KeyKind::Regex {
                } else {
                    assert(self.regexes@ == old(self).regexes@);
                }
                assert(is_regex_key(rk) && regex_valid(regex_inner(rk)));
                assert(rk != key@);
                assert(self.has_key(rk));
            }
            assert(final(self).wf());
        }
        r
    }

    /// Mutable exact lookup by full literal key.
    pub fn get_mut<'a>(&'a mut self, key: &String) -> (r: Option<&'a mut V>)
        requires
            old(self).wf(),
        ensures
            old(self).contents().contains_key(key@) <==> r is Some,
            r matches Some(v) ==> *v == old(self).contents()[key@],
            r matches Some(v) ==> final(self).wf(),
            r matches Some(v) ==> final(self).contents() == old(self).contents().insert(
                key@,
                *final(v),
            ),
            r matches Some(v) ==> final(self).regex_list() == old(self).regex_list(),
            r matches Some(v) ==> final(self).param_key() == old(self).param_key(),
            r matches Some(v) ==> final(self).catchall_key() == old(self).catchall_key(),
            r is None ==> *final(self) == *old(self),
    {
        let j = match self.find_index(key) {
            Some(j) => j,
            None => {
                return None;
            }
        };
        proof {
            self.lemma_idx(j as int);
            let pre = *self;
            assert forall|m2: SegmentMap<V>| #![trigger m2.contents()] #![trigger m2.wf()]
                (m2.entries@ == pre.entries@.update(
                    j as int,
                    (pre.entries@[j as int].0, m2.entries@[j as int].1),
                ) && m2.regexes == pre.regexes && m2.param == pre.param && m2.catchall
                    == pre.catchall) implies (m2.contents() == pre.contents().insert(
                key@,
                m2.entries@[j as int].1,
            ) && m2.wf() && m2.regex_list() == pre.regex_list() && m2.param_key()
                == pre.param_key() && m2.catchall_key() == pre.catchall_key()) by {
                let post = m2.entries@;
                let v_new = post[j as int].1;
                assert forall|i1: int, j1: int|
                    0 <= i1 < j1 < post.len() implies (#[trigger] post[i1].0)@ != (
                #[trigger] post[j1].0)@ by {
                    assert(post[i1].0 == pre.entries@[i1].0);
                    assert(post[j1].0 == pre.entries@[j1].0);
                    assert(pre.entries@[i1].0@ != pre.entries@[j1].0@);
                }
                assert forall|k2: Seq<char>| #[trigger] m2.has_key(k2) == pre.has_key(k2) by {
                    if m2.has_key(k2) {
                        let i = choose|i: int| 0 <= i < post.len() && post[i].0@ == k2;
                        assert(pre.entries@[i].0@ == k2);
                    }
                    if pre.has_key(k2) {
                        let i = choose|i: int|
                            0 <= i < pre.entries@.len() && pre.entries@[i].0@ == k2;
                        assert(post[i].0@ == k2);
                    }
                }
                assert forall|k2: Seq<char>| m2.has_key(k2) implies #[trigger] m2.contents()[k2]
                    == pre.contents().insert(key@, v_new)[k2] by {
                    let i = choose|i: int| 0 <= i < post.len() && post[i].0@ == k2;
                    m2.lemma_idx(i);
                    pre.lemma_idx(i);
                    if k2 == key@ {
                        assert(i == j as int);
                    } else {
                        assert(i != j as int);
                    }
                }
                assert(m2.contents() =~= pre.contents().insert(key@, v_new));
                assert(m2.regex_list() =~= pre.regex_list());
                assert forall|t: int|
                    0 <= t < m2.regexes@.len() implies {
                    let rk = (#[trigger] m2.regexes@[t])@;
                    &&& is_regex_key(rk)
                    &&& regex_valid(regex_inner(rk))
                    &&& m2.has_key(rk)
                } by {
                    assert(m2.regexes@[t] == pre.regexes@[t]);
                    assert(pre.has_key(pre.regexes@[t]@));
                    assert(m2.has_key(m2.regexes@[t]@));
                }
                match m2.param {
                    Some(pk) => {
                        assert(pre.has_key(pk@));
                        assert(m2.has_key(pk@));
                    }
                    None => {}
                }
                match m2.catchall {
                    Some(ck) => {
                        assert(pre.has_key(ck@));
                        assert(m2.has_key(ck@));
                    }
                    None => {}
                }
                assert(m2.wf());
            }
        }
        Some(&mut self.entries[j].1)
    }

    /// Classifies and inserts like `insert`, but validates a regex-form key
    /// first; an invalid pattern is rejected with `false` and no mutation.
    pub fn try_insert(&mut self, key: &String, value: V) -> (ok: bool)
        requires
            old(self).wf(),
        ensures
            final(self).wf(),
            ok == (is_regex_key(key@) ==> regex_valid(regex_inner(key@))),
            !ok ==> *final(self) == *old(self),
            ok ==> {
                &&& final(self).contents() == (if old(self).contents().contains_key(key@) {
                    old(self).contents()
                } else {
                    old(self).contents().insert(key@, value)
                })
                &&& final(self).regex_list() == (if is_regex_key(key@) && !old(
                    self,
                ).regex_list().contains(key@) {
                    old(self).regex_list().push(key@)
                } else {
                    old(self).regex_list()
                })
                &&& final(self).param_key() == (if is_param_key(key@) {
                    Some(key@)
                } else {
                    old(self).param_key()
                })
                &&& final(self).catchall_key() == (if is_catchall_key(key@) {
                    Some(key@)
                } else {
                    old(self).catchall_key()
                })
            },
    {
        let kind = classify(key);
        match kind {
            KeyKind::Regex => {
                let s = key.as_str();
                let n = s.unicode_len();
                let inner = s.substring_char(2, n - 1);
                proof {
                    assert(inner@ == regex_inner(key@));
                }
                if !crate::pattern::regex_compiles(inner) {
                    return false;
                }
            }
            _ => {}
        }
        self.insert(key, value);
        true
    }

    /// The candidate keys for `seg`, in strict precedence order: the exact
    /// entry for `seg` if present, then each registered regex key whose
    /// enclosed pattern matches `seg` in insertion order, then the parameter
    /// key, then the catchall key (the last two match unconditionally).
    pub open spec fn match_keys(self, seg: Seq<char>) -> Seq<Seq<char>> {
        (if self.contents().contains_key(seg) {
            seq![seg]
        } else {
            Seq::<Seq<char>>::empty()
        }) + regex_part(self.regex_list(), seg) + (match self.param_key() {
            Some(p) => seq![p],
            None => Seq::<Seq<char>>::empty(),
        }) + (match self.catchall_key() {
            Some(c) => seq![c],
            None => Seq::<Seq<char>>::empty(),
        })
    }

    /// The keys whose patterns match `seg`, in precedence order.
    pub fn matches(&self, seg: &String) -> (r: Vec<String>)
        requires
            self.wf(),
        ensures
            seg_seq(r@) == self.match_keys(seg@),
    {
        let ghost exact: Seq<Seq<char>> = if self.contents().contains_key(seg@) {
            seq![seg@]
        } else {
            Seq::<Seq<char>>::empty()
        };
        let mut out: Vec<String> = Vec::new();
        match self.find_index(seg) {
            Some(j) => {
                proof {
                    self.lemma_idx(j as int);
                }
                out.push(seg.clone());
            }
            None => {}
        }
        proof {
            assert(seg_seq(out@) =~= exact);
        }
        let mut j: usize = 0;
        while j < self.regexes.len()
            invariant
                self.wf(),
                j <= self.regexes@.len(),
                exact == (if self.contents().contains_key(seg@) {
                    seq![seg@]
                } else {
                    Seq::<Seq<char>>::empty()
                }),
                seg_seq(out@) =~= exact + regex_part(self.regex_list().take(j as int), seg@),
            decreases self.regexes@.len() - j,
        {
            let ghost rl = self.regex_list();
            let ghost prev = out@;
            let rkey = &self.regexes[j];
            proof {
                assert(rl[j as int] == rkey@);
                assert(is_regex_key(rkey@));
            }
            let s = rkey.as_str();
            let n = s.unicode_len();
            let inner = s.substring_char(2, n - 1);
            proof {
                assert(inner@ == regex_inner(rkey@));
            }
            if regex_matches(inner, seg.as_str()) {
                out.push(rkey.clone());
            }
            proof {
                lemma_regex_part_push(rl.take(j as int), rl[j as int], seg@);
                assert(rl.take(j as int).push(rl[j as int]) =~= rl.take(j as int + 1));
                if regex_accepts(regex_inner(rkey@), seg@) {
                    assert(seg_seq(out@) =~= seg_seq(prev).push(rkey@));
                } else {
                    assert(seg_seq(out@) =~= seg_seq(prev));
                }
                assert(seg_seq(out@) =~= exact + regex_part(rl.take(j as int + 1), seg@));
            }
            j += 1;
        }
        proof {
            assert(self.regex_list().take(self.regexes@.len() as int) =~= self.regex_list());
        }
        let ghost with_regex = out@;
        match &self.param {
            Some(p) => {
                out.push(p.clone());
                proof {
                    assert(seg_seq(out@) =~= seg_seq(with_regex).push(p@));
                }
            }
            None => {}
        }
        let ghost with_param = out@;
        match &self.catchall {
            Some(c) => {
                out.push(c.clone());
                proof {
                    assert(seg_seq(out@) =~= seg_seq(with_param).push(c@));
                }
            }
            None => {}
        }
        proof {
            assert(seg_seq(out@) =~= self.match_keys(seg@));
        }
        out
    }
}

} // verus!
