use vstd::prelude::*;
use vstd::map::*;
use crate::assoc::{aseq_has, aseq_idx, aseq_map, aseq_unique, aseq_lemma_idx, aseq_lemma_empty,
    aseq_lemma_push, aseq_lemma_remove, aseq_lemma_update};
use crate::keys::{KeyKind, classify, classify_spec, is_regex_key, is_param_key, is_catchall_key,
    is_literal_key, regex_inner, seg_seq};
use crate::map::{regex_part, lemma_regex_part_push};
use crate::pattern::{regex_valid, regex_accepts, regex_matches, regex_compiles};
use vstd::string::StrSliceExecFns;

verus! {

/// One node of the trie: an optional payload, an inline segment map of
/// children (exact entry list, regex keys in insertion order, parameter and
/// catchall back-references) and a flag marking that the node was reached
/// through a catchall key. The child map is stored inline rather than
/// through the generic segment map type because Verus refuses a recursive
/// datatype whose recursion passes through a type parameter of another
/// user-defined struct.
#[verifier::ext_equal]
pub struct Node<V> {
    value: Option<V>,
    entries: Vec<(String, Node<V>)>,
    regexes: Vec<String>,
    param: Option<String>,
    catchall: Option<String>,
    is_catchall: bool,
}

impl<V> Node<V> {
    /// The payload stored at this node, if any.
    pub closed spec fn spec_value(self) -> Option<V> {
        self.value
    }

    /// Whether this node was reached through a catchall key.
    pub closed spec fn spec_catchall(self) -> bool {
        self.is_catchall
    }

    /// The exact-match mapping from segment key to child node.
    pub closed spec fn child_contents(self) -> Map<Seq<char>, Node<V>> {
        aseq_map(self.entries@)
    }

    /// The regex keys of the child map, in insertion order.
    pub closed spec fn child_regexes(self) -> Seq<Seq<char>> {
        Seq::new(self.regexes@.len() as nat, |i: int| self.regexes@[i]@)
    }

    /// The tracked parameter key of the child map, if any.
    pub closed spec fn child_param(self) -> Option<Seq<char>> {
        match self.param {
            Some(p) => Some(p@),
            None => None,
        }
    }

    /// The tracked catchall key of the child map, if any.
    pub closed spec fn child_catchall(self) -> Option<Seq<char>> {
        match self.catchall {
            Some(c) => Some(c@),
            None => None,
        }
    }

    /// True iff no value is stored and there are no children.
    pub closed spec fn spec_is_empty(self) -> bool {
        self.value is None && self.entries@.len() == 0
    }

    spec fn map_wf(self) -> bool {
        &&& aseq_unique(self.entries@)
        &&& forall|i: int, j: int|
            0 <= i < j < self.regexes@.len() ==> (#[trigger] self.regexes@[i])@ != (
            #[trigger] self.regexes@[j])@
        &&& forall|i: int|
            0 <= i < self.regexes@.len() ==> {
                let r = (#[trigger] self.regexes@[i])@;
                &&& is_regex_key(r)
                &&& regex_valid(regex_inner(r))
                &&& aseq_has(self.entries@, r)
            }
        &&& match self.param {
            Some(p) => is_param_key(p@) && aseq_has(self.entries@, p@),
            None => true,
        }
        &&& match self.catchall {
            Some(c) => is_catchall_key(c@) && aseq_has(self.entries@, c@),
            None => true,
        }
    }

    /// Internal invariant: the child map invariants hold at every node, and
    /// every child is well formed and nonempty (empty nodes are pruned).
    pub closed spec fn wf(self) -> bool
        decreases self,
        via Self::wf_decreases
    {
        &&& self.map_wf()
        &&& forall|k: Seq<char>| #[trigger]
            self.child_contents().contains_key(k) ==> self.child_contents()[k].wf()
                && !self.child_contents()[k].spec_is_empty()
    }

    #[via_fn]
    proof fn wf_decreases(self) {
        self.lemma_child_height();
    }

    /// No regex, parameter or catchall key and no catchall flag anywhere.
    pub closed spec fn literal_only(self) -> bool
        decreases self,
        via Self::literal_only_decreases
    {
        &&& !self.is_catchall
        &&& self.regexes@.len() == 0
        &&& self.param is None
        &&& self.catchall is None
        &&& forall|k: Seq<char>| #[trigger]
            self.child_contents().contains_key(k) ==> self.child_contents()[k].literal_only()
    }

    #[via_fn]
    proof fn literal_only_decreases(self) {
        self.lemma_child_height();
    }

    proof fn lemma_child_height(self)
        ensures
            forall|k: Seq<char>|
                self.child_contents().contains_key(k) ==> #[trigger] (decreases_to!(
                    self => self.child_contents()[k])),
    {
        assert forall|k: Seq<char>| self.child_contents().contains_key(k) implies #[trigger] (
        decreases_to!(self => self.child_contents()[k])) by {
            let s = self.entries@;
            assert(aseq_has(s, k));
            let i = aseq_idx(s, k);
            assert(0 <= i < s.len() && s[i].0@ == k);
            assert(self.child_contents()[k] == s[i].1);
            assert(decreases_to!(self => self.entries));
            vstd::std_specs::vec::axiom_vec_index_decreases(self.entries, i);
            assert(decreases_to!(self.entries => s[i]));
            assert(decreases_to!(s[i] => s[i].1));
        }
    }

    /// The candidate child keys for `seg`, in strict precedence order: the
    /// exact entry for `seg` if present, then each regex key whose enclosed
    /// pattern matches `seg` in insertion order, then the parameter key,
    /// then the catchall key (the last two match unconditionally).
    pub open spec fn match_keys(self, seg: Seq<char>) -> Seq<Seq<char>> {
        (if self.child_contents().contains_key(seg) {
            seq![seg]
        } else {
            Seq::<Seq<char>>::empty()
        }) + regex_part(self.child_regexes(), seg) + (match self.child_param() {
            Some(p) => seq![p],
            None => Seq::<Seq<char>>::empty(),
        }) + (match self.child_catchall() {
            Some(c) => seq![c],
            None => Seq::<Seq<char>>::empty(),
        })
    }

    /// The value registered at exactly `p`, reached by exact lookups alone.
    pub open spec fn spec_get(self, p: Seq<Seq<char>>) -> Option<V>
        decreases p.len(),
    {
        if p.len() == 0 {
            self.spec_value()
        } else if self.child_contents().contains_key(p[0]) {
            self.child_contents()[p[0]].spec_get(p.drop_first())
        } else {
            None
        }
    }

    /// Whether every segment of `p` resolves to an existing child by exact
    /// lookup; the node reached may or may not hold a value.
    pub open spec fn spec_resolves(self, p: Seq<Seq<char>>) -> bool
        decreases p.len(),
    {
        p.len() == 0 || (self.child_contents().contains_key(p[0])
            && self.child_contents()[p[0]].spec_resolves(p.drop_first()))
    }

    /// Pattern-aware resolution: a catchall node yields its own value no
    /// matter how many segments remain; at the end of the path the node's
    /// value is returned; otherwise the candidate children for the next
    /// segment are tried in precedence order and the first whole-path
    /// success wins.
    pub open spec fn spec_at(self, p: Seq<Seq<char>>) -> Option<V>
        decreases p.len() as int, 1int, 0int,
    {
        if self.spec_catchall() {
            self.spec_value()
        } else if p.len() == 0 {
            self.spec_value()
        } else {
            self.spec_at_list(self.match_keys(p[0]), p)
        }
    }

    /// Depth-first search over candidate child keys: the first candidate
    /// whose subtree matches the rest of the path wins; a candidate without
    /// an entry is skipped.
    pub open spec fn spec_at_list(self, keys: Seq<Seq<char>>, p: Seq<Seq<char>>) -> Option<V>
        decreases p.len() as int, 0int, keys.len() as int,
    {
        if keys.len() == 0 || p.len() == 0 {
            None
        } else if self.child_contents().contains_key(keys[0]) {
            match self.child_contents()[keys[0]].spec_at(p.drop_first()) {
                Some(v) => Some(v),
                None => self.spec_at_list(keys.drop_first(), p),
            }
        } else {
            self.spec_at_list(keys.drop_first(), p)
        }
    }

    /// How one registration changes a trie: relates the trie before
    /// `insert(p, value)` to the trie after it, level by level. Along the
    /// chain of `p` each node's value stays, its regex list, parameter and
    /// catchall pointers are updated exactly as the segment's kind demands,
    /// only the entry for the segment changes, and the child reached through
    /// a catchall segment carries the catchall flag (an already-set flag is
    /// never cleared). Children off the chain are equal as whole subtrees.
    pub open spec fn insert_shape(pre: Node<V>, post: Node<V>, p: Seq<Seq<char>>, value: V) -> bool
        decreases p.len(),
    {
        if p.len() == 0 {
            &&& post.spec_value() == Some(value)
            &&& post.child_contents() == pre.child_contents()
            &&& post.child_regexes() == pre.child_regexes()
            &&& post.child_param() == pre.child_param()
            &&& post.child_catchall() == pre.child_catchall()
        } else {
            let k = p[0];
            &&& post.spec_value() == pre.spec_value()
            &&& post.child_contents().contains_key(k)
            &&& post.child_contents() == pre.child_contents().insert(
                k,
                post.child_contents()[k],
            )
            &&& post.child_regexes() == (if is_regex_key(k) && !pre.child_regexes().contains(k) {
                pre.child_regexes().push(k)
            } else {
                pre.child_regexes()
            })
            &&& post.child_param() == (if is_param_key(k) {
                Some(k)
            } else {
                pre.child_param()
            })
            &&& post.child_catchall() == (if is_catchall_key(k) {
                Some(k)
            } else {
                pre.child_catchall()
            })
            &&& post.child_contents()[k].spec_catchall() == (is_catchall_key(k) || (
            pre.child_contents().contains_key(k) && pre.child_contents()[k].spec_catchall()))
            &&& if pre.child_contents().contains_key(k) {
                Self::insert_shape(
                    pre.child_contents()[k],
                    post.child_contents()[k],
                    p.drop_first(),
                    value,
                )
            } else {
                Self::fresh_chain(post.child_contents()[k], p.drop_first(), value)
            }
        }
    }

    /// The subtree built for the previously-missing part of an inserted
    /// path: one fresh node per segment, each holding only the next entry
    /// and the registration its segment's kind demands, with `value` at the
    /// end.
    pub open spec fn fresh_chain(post: Node<V>, p: Seq<Seq<char>>, value: V) -> bool
        decreases p.len(),
    {
        if p.len() == 0 {
            &&& post.spec_value() == Some(value)
            &&& post.child_contents() == Map::<Seq<char>, Node<V>>::empty()
            &&& post.child_regexes() == Seq::<Seq<char>>::empty()
            &&& post.child_param() is None
            &&& post.child_catchall() is None
        } else {
            let k = p[0];
            &&& post.spec_value() is None
            &&& post.child_contents().contains_key(k)
            &&& post.child_contents() == Map::<Seq<char>, Node<V>>::empty().insert(
                k,
                post.child_contents()[k],
            )
            &&& post.child_regexes() == (if is_regex_key(k) {
                seq![k]
            } else {
                Seq::<Seq<char>>::empty()
            })
            &&& post.child_param() == (if is_param_key(k) {
                Some(k)
            } else {
                None
            })
            &&& post.child_catchall() == (if is_catchall_key(k) {
                Some(k)
            } else {
                None
            })
            &&& post.child_contents()[k].spec_catchall() == is_catchall_key(k)
            &&& Self::fresh_chain(post.child_contents()[k], p.drop_first(), value)
        }
    }

    proof fn lemma_shape_flag(pre1: Node<V>, pre2: Node<V>, post: Node<V>, p: Seq<Seq<char>>, value: V)
        requires
            pre1.value == pre2.value,
            pre1.entries == pre2.entries,
            pre1.regexes == pre2.regexes,
            pre1.param == pre2.param,
            pre1.catchall == pre2.catchall,
            Self::insert_shape(pre1, post, p, value),
        ensures
            Self::insert_shape(pre2, post, p, value),
    {
        assert(pre1.child_contents() == pre2.child_contents());
        assert(pre1.child_regexes() == pre2.child_regexes());
        assert(pre1.spec_value() == pre2.spec_value());
    }

    proof fn lemma_shape_from_empty(pre: Node<V>, post: Node<V>, p: Seq<Seq<char>>, value: V)
        requires
            pre.spec_value() is None,
            pre.child_contents() == Map::<Seq<char>, Node<V>>::empty(),
            pre.child_regexes() == Seq::<Seq<char>>::empty(),
            pre.child_param() is None,
            pre.child_catchall() is None,
            Self::insert_shape(pre, post, p, value),
        ensures
            Self::fresh_chain(post, p, value),
    {
        if p.len() == 0 {
        } else {
            let k = p[0];
            assert(!pre.child_contents().contains_key(k));
            assert(Seq::<Seq<char>>::empty().push(k) =~= seq![k]);
        }
    }

    /// A node holding no value and no children.
    pub fn new() -> (n: Node<V>)
        ensures
            n.wf(),
            n.spec_is_empty(),
            n.spec_value() is None,
            !n.spec_catchall(),
            n.literal_only(),
            n.child_contents() == Map::<Seq<char>, Node<V>>::empty(),
            n.child_regexes() == Seq::<Seq<char>>::empty(),
            n.child_param() is None,
            n.child_catchall() is None,
            forall|p: Seq<Seq<char>>| #[trigger] n.spec_get(p) is None,
            forall|p: Seq<Seq<char>>| #[trigger] n.spec_resolves(p) == (p.len() == 0),
    {
        let n = Node::<V> {
            value: None,
            entries: Vec::new(),
            regexes: Vec::new(),
            param: None,
            catchall: None,
            is_catchall: false,
        };
        proof {
            aseq_lemma_empty(n.entries@);
            assert(n.child_regexes() =~= Seq::<Seq<char>>::empty());
            assert forall|p: Seq<Seq<char>>| #[trigger] n.spec_get(p) is None by {
                if p.len() > 0 {
                    assert(!n.child_contents().contains_key(p[0]));
                }
            }
            assert forall|p: Seq<Seq<char>>| #[trigger] n.spec_resolves(p) == (p.len() == 0) by {
                if p.len() > 0 {
                    assert(!n.child_contents().contains_key(p[0]));
                }
            }
        }
        n
    }

    /// An empty node stores nothing under any path.
    pub proof fn lemma_empty_get(self, p: Seq<Seq<char>>)
        requires
            self.spec_is_empty(),
        ensures
            self.spec_get(p) is None,
    {
        aseq_lemma_empty(self.entries@);
        if p.len() > 0 {
            assert(!self.child_contents().contains_key(p[0]));
        }
    }

    /// True iff no value is stored and the child map is empty.
    pub fn is_empty(&self) -> (r: bool)
        ensures
            r == self.spec_is_empty(),
    {
        self.value.is_none() && self.entries.is_empty()
    }

    fn find_child(&self, key: &String) -> (r: Option<usize>)
        ensures
            match r {
                Some(j) => j < self.entries@.len() && self.entries@[j as int].0@ == key@,
                None => !aseq_has(self.entries@, key@),
            },
    {
        let mut j: usize = 0;
        while j < self.entries.len()
            invariant
                j <= self.entries@.len(),
                forall|i: int| 0 <= i < j ==> (#[trigger] self.entries@[i].0)@ != key@,
            decreases self.entries@.len() - j,
        {
            if self.entries[j].0 == *key {
                return Some(j);
            }
            j += 1;
        }
        None
    }

    fn regex_index(&self, key: &String) -> (r: Option<usize>)
        ensures
            match r {
                Some(j) => j < self.regexes@.len() && self.regexes@[j as int]@ == key@,
                None => forall|i: int|
                    0 <= i < self.regexes@.len() ==> (#[trigger] self.regexes@[i])@ != key@,
            },
    {
        let mut j: usize = 0;
        while j < self.regexes.len()
            invariant
                j <= self.regexes@.len(),
                forall|i: int| 0 <= i < j ==> (#[trigger] self.regexes@[i])@ != key@,
            decreases self.regexes@.len() - j,
        {
            if self.regexes[j] == *key {
                return Some(j);
            }
            j += 1;
        }
        None
    }

    /// Exact retrieval: descends by exact child lookups, one segment at a
    /// time, and returns the value at the node reached by the whole path.
    pub fn get<'a>(&'a self, path: &Vec<String>) -> (r: Option<&'a V>)
        requires
            self.wf(),
        ensures
            match r {
                Some(v) => self.spec_get(seg_seq(path@)) == Some(*v),
                None => self.spec_get(seg_seq(path@)) is None,
            },
    {
        proof {
            assert(seg_seq(path@).skip(0) =~= seg_seq(path@));
        }
        self.get_from(path, 0)
    }

    fn get_from<'a>(&'a self, path: &Vec<String>, i: usize) -> (r: Option<&'a V>)
        requires
            self.wf(),
            i <= path@.len(),
        ensures
            match r {
                Some(v) => self.spec_get(seg_seq(path@).skip(i as int)) == Some(*v),
                None => self.spec_get(seg_seq(path@).skip(i as int)) is None,
            },
        decreases path@.len() - i,
    {
        let ghost p = seg_seq(path@).skip(i as int);
        if i == path.len() {
            proof {
                assert(p.len() == 0);
            }
            self.value.as_ref()
        } else {
            proof {
                assert(p[0] == path@[i as int]@);
                assert(p.drop_first() =~= seg_seq(path@).skip(i as int + 1));
            }
            match self.find_child(&path[i]) {
                Some(j) => {
                    proof {
                        aseq_lemma_idx(self.entries@, j as int);
                        assert(self.child_contents().contains_key(p[0]));
                        assert(self.child_contents()[p[0]] == self.entries@[j as int].1);
                    }
                    self.entries[j].1.get_from(path, i + 1)
                }
                None => {
                    proof {
                        assert(!self.child_contents().contains_key(p[0]));
                    }
                    None
                }
            }
        }
    }

    fn resolves_from(&self, path: &Vec<String>, i: usize) -> (r: bool)
        requires
            self.wf(),
            i <= path@.len(),
        ensures
            r == self.spec_resolves(seg_seq(path@).skip(i as int)),
        decreases path@.len() - i,
    {
        let ghost p = seg_seq(path@).skip(i as int);
        if i == path.len() {
            proof {
                assert(p.len() == 0);
            }
            true
        } else {
            proof {
                assert(p[0] == path@[i as int]@);
                assert(p.drop_first() =~= seg_seq(path@).skip(i as int + 1));
            }
            match self.find_child(&path[i]) {
                Some(j) => {
                    proof {
                        aseq_lemma_idx(self.entries@, j as int);
                        assert(self.child_contents().contains_key(p[0]));
                        assert(self.child_contents()[p[0]] == self.entries@[j as int].1);
                    }
                    self.entries[j].1.resolves_from(path, i + 1)
                }
                None => {
                    proof {
                        assert(!self.child_contents().contains_key(p[0]));
                    }
                    false
                }
            }
        }
    }

    proof fn lemma_flag_irrelevant(a: Node<V>, b: Node<V>)
        requires
            a.value == b.value,
            a.entries == b.entries,
            a.regexes == b.regexes,
            a.param == b.param,
            a.catchall == b.catchall,
        ensures
            a.wf() == b.wf(),
            a.spec_is_empty() == b.spec_is_empty(),
            forall|q: Seq<Seq<char>>| #[trigger] a.spec_get(q) == b.spec_get(q),
            forall|q: Seq<Seq<char>>| #[trigger] a.spec_resolves(q) == b.spec_resolves(q),
    {
        assert(a.child_contents() == b.child_contents());
        assert(a.map_wf() == b.map_wf());
        assert forall|q: Seq<Seq<char>>| #[trigger] a.spec_get(q) == b.spec_get(q) by {
            if q.len() > 0 && a.child_contents().contains_key(q[0]) {
                assert(a.child_contents()[q[0]] == b.child_contents()[q[0]]);
            }
        }
        assert forall|q: Seq<Seq<char>>| #[trigger] a.spec_resolves(q) == b.spec_resolves(q) by {
            if q.len() > 0 && a.child_contents().contains_key(q[0]) {
                assert(a.child_contents()[q[0]] == b.child_contents()[q[0]]);
            }
        }
    }

    fn insert_at(&mut self, path: &Vec<String>, i: usize, value: V)
        requires
            old(self).wf(),
            i <= path@.len(),
            forall|t: int|
                i <= t < path@.len() ==> (is_regex_key((#[trigger] path@[t])@) ==> regex_valid(
                    regex_inner(path@[t]@))),
        ensures
            final(self).wf(),
            !final(self).spec_is_empty(),
            final(self).spec_catchall() == old(self).spec_catchall(),
            final(self).spec_get(seg_seq(path@).skip(i as int)) == Some(value),
            forall|q: Seq<Seq<char>>|
                q != seg_seq(path@).skip(i as int) ==> #[trigger] final(self).spec_get(q) == old(self).spec_get(q),
            (old(self).literal_only() && (forall|t: int|
                i <= t < path@.len() ==> is_literal_key((#[trigger] path@[t])@))) ==> final(self).literal_only(),
            Self::insert_shape(*old(self), *final(self), seg_seq(path@).skip(i as int), value),
        decreases path@.len() - i,
    {
        let ghost p = seg_seq(path@).skip(i as int);
        if i == path.len() {
            self.value = Some(value);
            proof {
                assert(p.len() == 0);
                assert(self.child_contents() == old(self).child_contents());
                assert forall|q: Seq<Seq<char>>| q != p implies #[trigger] self.spec_get(q) == old(self).spec_get(q) by {
                    if q.len() == 0 {
                        assert(q =~= p);
                    } else if self.child_contents().contains_key(q[0]) {
                        assert(self.child_contents()[q[0]] == old(self).child_contents()[q[0]]);
                    }
                }
                assert(self.wf() == old(self).wf());
                if old(self).literal_only() {
                    assert(self.literal_only());
                }
                assert(self.child_regexes() == old(self).child_regexes());
                assert(Self::insert_shape(*old(self), *self, p, value));
            }
            return;
        }
        proof {
            assert(p.len() > 0);
            assert(p[0] == (path@[i as int])@);
            assert(p.drop_first() =~= seg_seq(path@).skip(i as int + 1));
        }
        let key = &path[i];
        let kind = classify(key);
        let ghost mut rx_pushed = false;
        match kind {
            KeyKind::Regex => {
                match self.regex_index(key) {
                    Some(q) => {
                        proof {
                            assert(self.regexes@[q as int]@ == key@);
                            assert(self.child_regexes()[q as int] == key@);
                            assert(self.child_regexes().contains(key@));
                        }
                    }
                    None => {
                        proof {
                            assert forall|t: int|
                                0 <= t < self.regexes@.len() implies #[trigger] self.child_regexes()[t]
                                != key@ by {
                                assert(self.regexes@[t]@ != key@);
                            }
                            assert(!self.child_regexes().contains(key@));
                        }
                        self.regexes.push(key.clone());
                        proof {
                            rx_pushed = true;
                        }
                    }
                }
            }
            KeyKind::Param => {
                self.param = Some(key.clone());
            }
            KeyKind::Catchall => {
                self.catchall = Some(key.clone());
            }
            KeyKind::Literal => {}
        }
        proof {
            assert(self.entries@ == old(self).entries@);
            assert(self.child_contents() == old(self).child_contents());
            assert(aseq_unique(self.entries@));
        }
        let ghost existed = old(self).child_contents().contains_key(key@);
        let j: usize = match self.find_child(key) {
            Some(j) => {
                proof {
                    aseq_lemma_idx(self.entries@, j as int);
                    assert(existed);
                }
                j
            }
            None => {
                let n = self.entries.len();
                let fresh = Node::new();
                let ghost fr = fresh;
                let ghost pre = self.entries@;
                self.entries.push((key.clone(), fresh));
                proof {
                    assert(!aseq_has(pre, key@));
                    assert(!existed);
                    let pushed = self.entries@[pre.len() as int];
                    assert(self.entries@ =~= pre.push(pushed));
                    assert(pushed.0@ == key@);
                    assert(pushed.1 == fr);
                    aseq_lemma_push(pre, pushed.0, pushed.1);
                    assert(self.child_contents() == aseq_map(pre).insert(key@, fr));
                }
                n
            }
        };
        let ghost mid = *self;
        proof {
            assert(mid.entries@[j as int].0@ == key@);
            assert(aseq_unique(mid.entries@));
            aseq_lemma_idx(mid.entries@, j as int);
            assert(mid.child_contents().contains_key(key@));
            if existed {
                assert(mid.child_contents() == old(self).child_contents());
                assert(mid.child_contents()[key@].wf());
            }
        }
        let ghost c_start = self.entries@[j as int].1;
        let e = &mut self.entries[j];
        if kind == KeyKind::Catchall {
            e.1.is_catchall = true;
        }
        let ghost c_mid = e.1;
        proof {
            Self::lemma_flag_irrelevant(c_mid, c_start);
            assert(c_start == mid.child_contents()[key@]);
            assert(c_start.wf());
            assert(c_mid.wf());
        }
        e.1.insert_at(path, i + 1, value);
        let ghost c_fin = e.1;
        proof {
            let oldm = *old(self);
            let cc_old = oldm.child_contents();
            assert(self.entries@ == mid.entries@.update(
                j as int,
                (mid.entries@[j as int].0, c_fin),
            ));
            aseq_lemma_update(mid.entries@, j as int, c_fin);
            let cc_fin = self.child_contents();
            assert(cc_fin == mid.child_contents().insert(key@, c_fin));
            assert(cc_fin =~= cc_old.insert(key@, c_fin));
            assert(cc_fin.contains_key(key@) && cc_fin[key@] == c_fin);

            // the inserted path now stores the value
            assert(c_fin.spec_get(p.drop_first()) == Some(value));
            assert(self.spec_get(p) == Some(value));

            // every other path is untouched
            assert forall|q: Seq<Seq<char>>| q != p implies #[trigger] self.spec_get(q)
                == oldm.spec_get(q) by {
                if q.len() == 0 {
                    assert(self.value == oldm.value);
                } else if q[0] == key@ {
                    let q1 = q.drop_first();
                    if q1 == p.drop_first() {
                        assert(q.len() == p.len());
                        assert forall|m: int| 0 <= m < q.len() implies q[m] == p[m] by {
                            if m > 0 {
                                assert(q[m] == q1[m - 1]);
                                assert(p[m] == p.drop_first()[m - 1]);
                            }
                        }
                        assert(q =~= p);
                    }
                    assert(q1 != p.drop_first());
                    assert(q1 != seg_seq(path@).skip(i as int + 1));
                    assert(c_fin.spec_get(q1) == c_mid.spec_get(q1));
                    assert(c_mid.spec_get(q1) == c_start.spec_get(q1));
                    assert(self.spec_get(q) == c_fin.spec_get(q1));
                    if existed {
                        assert(oldm.spec_get(q) == c_start.spec_get(q1));
                    } else {
                        assert(c_start.spec_get(q1) is None);
                        assert(oldm.spec_get(q) is None);
                    }
                } else {
                    assert(cc_fin.contains_key(q[0]) == cc_old.contains_key(q[0]));
                    if cc_old.contains_key(q[0]) {
                        assert(cc_fin[q[0]] == cc_old[q[0]]);
                        assert(self.spec_get(q) == cc_fin[q[0]].spec_get(q.drop_first()));
                    }
                }
            }

            // well-formedness is restored
            assert forall|a: int, b: int|
                0 <= a < b < self.regexes@.len() implies (#[trigger] self.regexes@[a])@ != (
            #[trigger] self.regexes@[b])@ by {
                if b < oldm.regexes@.len() {
                    assert(oldm.regexes@[a]@ != oldm.regexes@[b]@);
                } else {
                    assert(rx_pushed);
                    assert(self.regexes@[b]@ == key@);
                    assert(oldm.regexes@[a]@ != key@);
                }
            }
            assert forall|t: int|
                0 <= t < self.regexes@.len() implies {
                let r = (#[trigger] self.regexes@[t])@;
                &&& is_regex_key(r)
                &&& regex_valid(regex_inner(r))
                &&& aseq_has(self.entries@, r)
            } by {
                let r = self.regexes@[t]@;
                if t < oldm.regexes@.len() {
                    assert(oldm.regexes@[t]@ == r);
                    assert(is_regex_key(r) && regex_valid(regex_inner(r)));
                    assert(aseq_has(oldm.entries@, r));
                    let w = choose|w: int|
                        0 <= w < oldm.entries@.len() && oldm.entries@[w].0@ == r;
                    assert(mid.entries@[w].0@ == r);
                    assert(aseq_has(mid.entries@, r));
                    assert(aseq_has(self.entries@, r));
                } else {
                    assert(rx_pushed);
                    assert(r == key@);
                    assert(is_regex_key(key@));
                    assert(regex_valid(regex_inner(key@)));
                    assert(aseq_has(mid.entries@, key@));
                    assert(aseq_has(self.entries@, key@));
                }
            }
            match &self.param {
                Some(pk) => {
                    assert(is_param_key(pk@));
                    if pk@ != key@ {
                        assert(oldm.param == self.param);
                        assert(aseq_has(oldm.entries@, pk@));
                        let w = choose|w: int|
                            0 <= w < oldm.entries@.len() && oldm.entries@[w].0@ == pk@;
                        assert(aseq_has(mid.entries@, pk@));
                        assert(aseq_has(self.entries@, pk@));
                    } else {
                        assert(aseq_has(self.entries@, key@));
                    }
                }
                None => {}
            }
            match &self.catchall {
                Some(ck) => {
                    assert(is_catchall_key(ck@));
                    if ck@ != key@ {
                        assert(oldm.catchall == self.catchall);
                        assert(aseq_has(oldm.entries@, ck@));
                        let w = choose|w: int|
                            0 <= w < oldm.entries@.len() && oldm.entries@[w].0@ == ck@;
                        assert(aseq_has(mid.entries@, ck@));
                        assert(aseq_has(self.entries@, ck@));
                    } else {
                        assert(aseq_has(self.entries@, key@));
                    }
                }
                None => {}
            }
            assert(self.map_wf());
            assert forall|k: Seq<char>| #[trigger] cc_fin.contains_key(k) implies cc_fin[k].wf()
                && !cc_fin[k].spec_is_empty() by {
                if k == key@ {
                } else {
                    assert(cc_old.contains_key(k));
                    assert(cc_fin[k] == cc_old[k]);
                }
            }
            assert(self.wf());
            assert(cc_fin.contains_key(key@));
            assert(!self.spec_is_empty());

            // a purely literal insertion keeps the trie literal-only
            if oldm.literal_only() && (forall|t: int|
                i <= t < path@.len() ==> is_literal_key((#[trigger] path@[t])@)) {
                assert(is_literal_key((path@[i as int])@));
                assert(kind == KeyKind::Literal);
                assert(self.regexes@ == oldm.regexes@);
                assert(self.param == oldm.param);
                assert(self.catchall == oldm.catchall);
                assert(c_mid == c_start);
                if existed {
                    assert(cc_old.contains_key(key@));
                    assert(c_start.literal_only());
                } else {
                    assert(c_start.literal_only());
                }
                assert(c_fin.literal_only());
                assert forall|k: Seq<char>| #[trigger] cc_fin.contains_key(k) implies cc_fin[k].literal_only() by {
                    if k == key@ {
                    } else {
                        assert(cc_old.contains_key(k));
                        assert(cc_fin[k] == cc_old[k]);
                    }
                }
                assert(self.literal_only());
            }

            // the registration state changed exactly as the segment's kind
            // demands, and the updated child carries the catchall flag when
            // the segment is a catchall key
            assert(self.regexes@ == mid.regexes@ && self.param == mid.param && self.catchall
                == mid.catchall);
            if rx_pushed {
                assert(!oldm.child_regexes().contains(key@));
                assert(self.child_regexes() =~= oldm.child_regexes().push(key@));
                assert(is_regex_key(key@));
            } else if kind == KeyKind::Regex {
                assert(oldm.child_regexes().contains(key@));
                assert(self.regexes@ == oldm.regexes@);
                assert(self.child_regexes() =~= oldm.child_regexes());
            } else {
                assert(!is_regex_key(key@));
                assert(self.regexes@ == oldm.regexes@);
                assert(self.child_regexes() =~= oldm.child_regexes());
            }
            assert(self.child_regexes() == (if is_regex_key(key@) && !oldm.child_regexes().contains(
                key@,
            ) {
                oldm.child_regexes().push(key@)
            } else {
                oldm.child_regexes()
            }));
            assert(self.child_param() == (if is_param_key(key@) {
                Some(key@)
            } else {
                oldm.child_param()
            }));
            assert(self.child_catchall() == (if is_catchall_key(key@) {
                Some(key@)
            } else {
                oldm.child_catchall()
            }));
            assert(c_fin.spec_catchall() == c_mid.spec_catchall());
            assert(c_mid.spec_catchall() == (is_catchall_key(key@) || c_start.spec_catchall()));
            if existed {
                assert(c_start == cc_old[key@]);
            } else {
                assert(!c_start.spec_catchall());
            }
            assert(cc_fin[key@].spec_catchall() == (is_catchall_key(key@) || (cc_old.contains_key(
                key@,
            ) && cc_old[key@].spec_catchall())));
            if existed {
                Self::lemma_shape_flag(c_mid, c_start, c_fin, p.drop_first(), value);
                assert(Self::insert_shape(cc_old[key@], c_fin, p.drop_first(), value));
            } else {
                assert(c_mid.child_contents() == c_start.child_contents());
                assert(c_mid.child_regexes() == c_start.child_regexes());
                Self::lemma_shape_from_empty(c_mid, c_fin, p.drop_first(), value);
                assert(Self::fresh_chain(c_fin, p.drop_first(), value));
            }
            assert(cc_fin == cc_old.insert(key@, cc_fin[key@]));
            assert(Self::insert_shape(oldm, *self, p, value));
        }
    }

    /// Registers `value` at `path`: each segment obtains (creating if
    /// absent) its child, a catchall segment marks its child, and the value
    /// at the terminal node is overwritten. Every regex-form segment must
    /// hold a valid pattern; `try_insert` checks that first.
    pub fn insert(&mut self, path: &Vec<String>, value: V)
        requires
            old(self).wf(),
            forall|t: int|
                0 <= t < path@.len() ==> (is_regex_key((#[trigger] path@[t])@) ==> regex_valid(
                    regex_inner(path@[t]@))),
        ensures
            final(self).wf(),
            final(self).spec_catchall() == old(self).spec_catchall(),
            final(self).spec_get(seg_seq(path@)) == Some(value),
            forall|q: Seq<Seq<char>>|
                q != seg_seq(path@) ==> #[trigger] final(self).spec_get(q) == old(self).spec_get(
                    q,
                ),
            (old(self).literal_only() && (forall|t: int|
                0 <= t < path@.len() ==> is_literal_key((#[trigger] path@[t])@))) ==> final(self).literal_only(),
            Self::insert_shape(*old(self), *final(self), seg_seq(path@), value),
    {
        proof {
            assert(seg_seq(path@).skip(0) =~= seg_seq(path@));
        }
        self.insert_at(path, 0, value)
    }

    /// Validates every regex-form segment of `path` first; inserts only
    /// when all of them compile, and returns whether the insertion
    /// happened. On `false` the trie is unchanged.
    pub fn try_insert(&mut self, path: &Vec<String>, value: V) -> (ok: bool)
        requires
            old(self).wf(),
        ensures
            final(self).wf(),
            ok == (forall|t: int|
                0 <= t < path@.len() ==> (is_regex_key((#[trigger] path@[t])@) ==> regex_valid(
                    regex_inner(path@[t]@)))),
            !ok ==> *final(self) == *old(self),
            ok ==> final(self).spec_get(seg_seq(path@)) == Some(value),
            ok ==> forall|q: Seq<Seq<char>>|
                q != seg_seq(path@) ==> #[trigger] final(self).spec_get(q) == old(self).spec_get(
                    q,
                ),
            ok ==> final(self).spec_catchall() == old(self).spec_catchall(),
            ok ==> Self::insert_shape(*old(self), *final(self), seg_seq(path@), value),
    {
        let mut t: usize = 0;
        while t < path.len()
            invariant
                t <= path@.len(),
                *self == *old(self),
                old(self).wf(),
                forall|u: int|
                    0 <= u < t ==> (is_regex_key((#[trigger] path@[u])@) ==> regex_valid(
                        regex_inner(path@[u]@))),
            decreases path@.len() - t,
        {
            let kind = classify(&path[t]);
            if kind == KeyKind::Regex {
                let s = path[t].as_str();
                let n = s.unicode_len();
                let inner = s.substring_char(2, n - 1);
                proof {
                    assert(inner@ == regex_inner((path@[t as int])@));
                }
                if !regex_compiles(inner) {
                    proof {
                        assert(is_regex_key((path@[t as int])@) && !regex_valid(
                            regex_inner(path@[t as int]@),
                        ));
                    }
                    return false;
                }
            }
            t += 1;
        }
        self.insert(path, value);
        true
    }

    /// How removing the registration at `p` changes a trie: along the chain
    /// of `p` each surviving node keeps its value, flag and pattern state
    /// and only the entry for the next segment changes; a child that became
    /// empty is dropped together with exactly the pointer-clearing removal
    /// of its key; at the target the value is cleared and the whole subtree
    /// below it is discarded.
    pub open spec fn remove_shape(pre: Node<V>, post: Node<V>, p: Seq<Seq<char>>) -> bool
        decreases p.len(),
    {
        if p.len() == 0 {
            &&& post.spec_value() is None
            &&& post.spec_catchall() == pre.spec_catchall()
            &&& post.child_contents() == Map::<Seq<char>, Node<V>>::empty()
            &&& post.child_regexes() == Seq::<Seq<char>>::empty()
            &&& post.child_param() is None
            &&& post.child_catchall() is None
        } else {
            let k = p[0];
            &&& post.spec_value() == pre.spec_value()
            &&& post.spec_catchall() == pre.spec_catchall()
            &&& pre.child_contents().contains_key(k)
            &&& if post.child_contents().contains_key(k) {
                &&& post.child_contents() == pre.child_contents().insert(
                    k,
                    post.child_contents()[k],
                )
                &&& post.child_regexes() == pre.child_regexes()
                &&& post.child_param() == pre.child_param()
                &&& post.child_catchall() == pre.child_catchall()
                &&& Self::remove_shape(
                    pre.child_contents()[k],
                    post.child_contents()[k],
                    p.drop_first(),
                )
            } else {
                &&& post.child_contents() == pre.child_contents().remove(k)
                &&& post.child_regexes() == (if pre.child_regexes().contains(k) {
                    pre.child_regexes().remove(pre.child_regexes().index_of(k))
                } else {
                    pre.child_regexes()
                })
                &&& post.child_param() == (if pre.child_param() == Some(k) {
                    None::<Seq<char>>
                } else {
                    pre.child_param()
                })
                &&& post.child_catchall() == (if pre.child_catchall() == Some(k) {
                    None::<Seq<char>>
                } else {
                    pre.child_catchall()
                })
            }
        }
    }

    proof fn lemma_prefix_shift(a: Seq<Seq<char>>, q: Seq<Seq<char>>)
        requires
            a.len() > 0,
        ensures
            a.is_prefix_of(q) <==> (q.len() > 0 && q[0] == a[0] && a.drop_first().is_prefix_of(
                q.drop_first(),
            )),
    {
        let a1 = a.drop_first();
        if a.is_prefix_of(q) {
            assert(a =~= q.subrange(0, a.len() as int));
            assert(q[0] == a[0]);
            assert forall|m: int| 0 <= m < a1.len() implies a1[m] == q.drop_first().subrange(
                0,
                a1.len() as int,
            )[m] by {
                assert(a1[m] == a[m + 1]);
                assert(q.drop_first().subrange(0, a1.len() as int)[m] == q[m + 1]);
            }
            assert(a1 =~= q.drop_first().subrange(0, a1.len() as int));
        }
        if q.len() > 0 && q[0] == a[0] && a1.is_prefix_of(q.drop_first()) {
            assert(a1 =~= q.drop_first().subrange(0, a1.len() as int));
            assert forall|m: int| 0 <= m < a.len() implies a[m] == q.subrange(
                0,
                a.len() as int,
            )[m] by {
                if m > 0 {
                    assert(a[m] == a1[m - 1]);
                    assert(q.subrange(0, a.len() as int)[m] == q.drop_first()[m - 1]);
                    assert(a1[m - 1] == q.drop_first().subrange(0, a1.len() as int)[m - 1]);
                }
            }
            assert(a =~= q.subrange(0, a.len() as int));
        }
    }

    fn remove_child(&mut self, key: &String) -> (r: Option<Node<V>>)
        requires
            old(self).map_wf(),
        ensures
            final(self).map_wf(),
            final(self).value == old(self).value,
            final(self).is_catchall == old(self).is_catchall,
            r == (if old(self).child_contents().contains_key(key@) {
                Some(old(self).child_contents()[key@])
            } else {
                None::<Node<V>>
            }),
            final(self).child_contents() == old(self).child_contents().remove(key@),
            final(self).child_regexes() == (if old(self).child_regexes().contains(key@) {
                old(self).child_regexes().remove(old(self).child_regexes().index_of(key@))
            } else {
                old(self).child_regexes()
            }),
            final(self).child_param() == (if old(self).child_param() == Some(key@) {
                None::<Seq<char>>
            } else {
                old(self).child_param()
            }),
            final(self).child_catchall() == (if old(self).child_catchall() == Some(key@) {
                None::<Seq<char>>
            } else {
                old(self).child_catchall()
            }),
    {
        let kind = classify(key);
        match kind {
            KeyKind::Regex => {
                match self.regex_index(key) {
                    Some(j) => {
                        let _ = self.regexes.remove(j);
                        proof {
                            let pre = old(self).regexes@;
                            let post = self.regexes@;
                            assert(post =~= pre.remove(j as int));
                            let rl = old(self).child_regexes();
                            assert(rl[j as int] == key@);
                            assert(rl.contains(key@));
                            let i0 = rl.index_of(key@);
                            assert(rl[i0] == key@);
                            if i0 < j as int {
                                assert(pre[i0]@ != pre[j as int]@);
                            } else if (j as int) < i0 {
                                assert(pre[j as int]@ != pre[i0]@);
                            }
                            assert(i0 == j as int);
                            assert(self.child_regexes() =~= rl.remove(j as int));
                            assert forall|a: int, b: int|
                                0 <= a < b < post.len() implies (#[trigger] post[a])@ != (
                            #[trigger] post[b])@ by {
                                let x = if a < j as int { a } else { a + 1 };
                                let y = if b < j as int { b } else { b + 1 };
                                assert(post[a] == pre[x] && post[b] == pre[y]);
                                assert(pre[x]@ != pre[y]@);
                            }
                            assert forall|t: int|
                                0 <= t < post.len() implies ((#[trigger] post[t])@ != key@ && {
                                let x = if t < j as int { t } else { t + 1 };
                                post[t] == pre[x]
                            }) by {
                                let x = if t < j as int { t } else { t + 1 };
                                assert(post[t] == pre[x]);
                                if x < j as int {
                                    assert(pre[x]@ != pre[j as int]@);
                                } else if (j as int) < x {
                                    assert(pre[j as int]@ != pre[x]@);
                                }
                            }
                        }
                    }
                    None => {
                        proof {
                            assert forall|t: int|
                                0 <= t < old(self).child_regexes().len() implies #[trigger] old(
                                self,
                            ).child_regexes()[t] != key@ by {
                                assert(old(self).regexes@[t]@ != key@);
                            }
                            assert(!old(self).child_regexes().contains(key@));
                        }
                    }
                }
            }
            KeyKind::Param => {
                let clear = match &self.param {
                    Some(p) => *p == *key,
                    None => false,
                };
                if clear {
                    self.param = None;
                }
            }
            KeyKind::Catchall => {
                let clear = match &self.catchall {
                    Some(c) => *c == *key,
                    None => false,
                };
                if clear {
                    self.catchall = None;
                }
            }
            KeyKind::Literal => {}
        }
        let ghost mid = *self;
        let r = match self.find_child(key) {
            Some(j) => {
                proof {
                    aseq_lemma_idx(mid.entries@, j as int);
                    aseq_lemma_remove(mid.entries@, j as int);
                }
                let e = self.entries.remove(j);
                proof {
                    assert(self.entries@ == mid.entries@.remove(j as int));
                    assert(self.child_contents() == old(self).child_contents().remove(key@));
                }
                Some(e.1)
            }
            None => {
                proof {
                    assert(!old(self).child_contents().contains_key(key@));
                    assert(self.child_contents() =~= old(self).child_contents().remove(key@));
                }
                None
            }
        };
        proof {
            // the invariant is restored: every kept pointer target survives
            assert forall|t: int|
                0 <= t < self.regexes@.len() implies {
                let rk = (#[trigger] self.regexes@[t])@;
                &&& is_regex_key(rk)
                &&& regex_valid(regex_inner(rk))
                &&& aseq_has(self.entries@, rk)
            } by {
                let rk = self.regexes@[t]@;
                if classify_spec(key@) == KeyKind::Regex {
                } else {
                    assert(self.regexes@ == old(self).regexes@);
                    assert(is_regex_key(rk));
                    if rk == key@ {
                        assert(is_regex_key(key@));
                        assert(classify_spec(key@) == KeyKind::Regex);
                    }
                }
                assert(rk != key@);
                assert(aseq_has(old(self).entries@, rk));
                if old(self).child_contents().contains_key(key@) {
                    let w = choose|w: int|
                        0 <= w < old(self).entries@.len() && old(self).entries@[w].0@ == rk;
                    assert(aseq_has(self.entries@, rk));
                }
            }
            match &self.param {
                Some(pk) => {
                    assert(is_param_key(pk@));
                    if pk@ == key@ {
                        assert(classify_spec(key@) == KeyKind::Param);
                        assert(false);
                    }
                    assert(aseq_has(old(self).entries@, pk@));
                }
                None => {}
            }
            match &self.catchall {
                Some(ck) => {
                    assert(is_catchall_key(ck@));
                    if ck@ == key@ {
                        assert(classify_spec(key@) == KeyKind::Catchall);
                        assert(false);
                    }
                    assert(aseq_has(old(self).entries@, ck@));
                }
                None => {}
            }
            assert(self.map_wf());
        }
        r
    }

    fn remove_at(&mut self, path: &Vec<String>, i: usize) -> (r: (bool, Option<V>))
        requires
            old(self).wf(),
            i <= path@.len(),
        ensures
            final(self).wf(),
            final(self).spec_catchall() == old(self).spec_catchall(),
            r.0 == old(self).spec_resolves(seg_seq(path@).skip(i as int)),
            r.0 ==> r.1 == old(self).spec_get(seg_seq(path@).skip(i as int)),
            r.0 ==> forall|q: Seq<Seq<char>>| #[trigger]
                final(self).spec_get(q) == (if seg_seq(path@).skip(i as int).is_prefix_of(q) {
                    None::<V>
                } else {
                    old(self).spec_get(q)
                }),
            r.0 ==> Self::remove_shape(*old(self), *final(self), seg_seq(path@).skip(i as int)),
            !r.0 ==> *final(self) == *old(self) && r.1 is None,
        decreases path@.len() - i,
    {
        let ghost p = seg_seq(path@).skip(i as int);
        if i == path.len() {
            let v = self.value.take();
            self.entries = Vec::new();
            self.regexes = Vec::new();
            self.param = None;
            self.catchall = None;
            proof {
                assert(p.len() == 0);
                aseq_lemma_empty(self.entries@);
                assert forall|q: Seq<Seq<char>>| #[trigger]
                    self.spec_get(q) == (if p.is_prefix_of(q) {
                        None::<V>
                    } else {
                        old(self).spec_get(q)
                    }) by {
                    assert(p =~= q.subrange(0, 0));
                    assert(p.is_prefix_of(q));
                    if q.len() > 0 {
                        assert(!self.child_contents().contains_key(q[0]));
                    }
                }
                assert(self.wf());
                assert(self.child_regexes() =~= Seq::<Seq<char>>::empty());
                assert(Self::remove_shape(*old(self), *self, p));
            }
            return (true, v);
        }
        proof {
            assert(p.len() > 0);
            assert(p[0] == (path@[i as int])@);
            assert(p.drop_first() =~= seg_seq(path@).skip(i as int + 1));
        }
        let j: usize = match self.find_child(&path[i]) {
            None => {
                proof {
                    assert(!self.child_contents().contains_key(p[0]));
                }
                return (false, None);
            }
            Some(j) => j,
        };
        proof {
            aseq_lemma_idx(self.entries@, j as int);
            assert(self.child_contents().contains_key(p[0]));
            assert(self.child_contents()[p[0]] == self.entries@[j as int].1);
        }
        if !self.entries[j].1.resolves_from(path, i + 1) {
            proof {
                assert(!old(self).spec_resolves(p));
            }
            return (false, None);
        }
        let ghost mid = *self;
        let ghost c_start = self.entries@[j as int].1;
        let ghost key_v = p[0];
        let e = &mut self.entries[j];
        let res = e.1.remove_at(path, i + 1);
        let prune = e.1.is_empty();
        let ghost c_fin = e.1;
        proof {
            assert(res.0);
            assert(self.entries@ == mid.entries@.update(
                j as int,
                (mid.entries@[j as int].0, c_fin),
            ));
            aseq_lemma_update(mid.entries@, j as int, c_fin);
            assert(self.child_contents() == mid.child_contents().insert(key_v, c_fin));
            // the untouched bookkeeping still points at surviving entries
            assert forall|t: int|
                0 <= t < self.regexes@.len() implies {
                let rk = (#[trigger] self.regexes@[t])@;
                &&& is_regex_key(rk)
                &&& regex_valid(regex_inner(rk))
                &&& aseq_has(self.entries@, rk)
            } by {
                assert(mid.regexes@[t]@ == self.regexes@[t]@);
                assert(aseq_has(mid.entries@, self.regexes@[t]@));
            }
            assert(self.map_wf());
        }
        let ghost cc2 = self.child_contents();
        let ghost mid2 = *self;
        if prune {
            let _ = self.remove_child(&path[i]);
        }
        proof {
            let oldm = *old(self);
            let cc_old = oldm.child_contents();
            assert(oldm.spec_resolves(p));
            assert(res.1 == c_start.spec_get(p.drop_first()));
            assert(oldm.spec_get(p) == c_start.spec_get(p.drop_first()));
            if prune {
                assert(self.child_contents() == cc2.remove(key_v));
            }
            assert forall|q: Seq<Seq<char>>| #[trigger]
                self.spec_get(q) == (if p.is_prefix_of(q) {
                    None::<V>
                } else {
                    oldm.spec_get(q)
                }) by {
                Self::lemma_prefix_shift(p, q);
                if q.len() == 0 {
                    assert(!p.is_prefix_of(q));
                    assert(self.value == oldm.value);
                } else if q[0] == key_v {
                    let q1 = q.drop_first();
                    assert(p.is_prefix_of(q) == p.drop_first().is_prefix_of(q1));
                    assert(c_fin.spec_get(q1) == (if p.drop_first().is_prefix_of(q1) {
                        None::<V>
                    } else {
                        c_start.spec_get(q1)
                    }));
                    assert(oldm.spec_get(q) == c_start.spec_get(q1));
                    if prune {
                        assert(!self.child_contents().contains_key(q[0]));
                        assert(self.spec_get(q) is None);
                        if !p.is_prefix_of(q) {
                            c_fin.lemma_empty_get(q1);
                            assert(c_start.spec_get(q1) is None);
                        }
                    } else {
                        assert(self.child_contents().contains_key(key_v));
                        assert(self.child_contents()[key_v] == c_fin);
                        assert(self.spec_get(q) == c_fin.spec_get(q1));
                    }
                } else {
                    assert(!p.is_prefix_of(q));
                    assert(cc2.contains_key(q[0]) == cc_old.contains_key(q[0]));
                    assert(self.child_contents().contains_key(q[0]) == cc_old.contains_key(q[0]));
                    if cc_old.contains_key(q[0]) {
                        assert(self.child_contents()[q[0]] == cc_old[q[0]]);
                        assert(self.spec_get(q) == cc_old[q[0]].spec_get(q.drop_first()));
                        assert(oldm.spec_get(q) == cc_old[q[0]].spec_get(q.drop_first()));
                    }
                }
            }
            // well-formedness is restored
            assert forall|k: Seq<char>| #[trigger] self.child_contents().contains_key(k) implies
                self.child_contents()[k].wf() && !self.child_contents()[k].spec_is_empty() by {
                if k == key_v {
                    assert(!prune);
                    assert(self.child_contents()[k] == c_fin);
                } else {
                    assert(cc_old.contains_key(k));
                    assert(self.child_contents()[k] == cc_old[k]);
                }
            }
            assert(self.wf());

            // the removal reshaped the trie exactly as stated
            assert(mid2.child_regexes() =~= oldm.child_regexes());
            assert(mid2.child_param() == oldm.child_param());
            assert(mid2.child_catchall() == oldm.child_catchall());
            assert(Self::remove_shape(c_start, c_fin, p.drop_first()));
            assert(cc_old.contains_key(key_v));
            if prune {
                assert(self.child_contents() =~= cc_old.remove(key_v));
                assert(!self.child_contents().contains_key(key_v));
            } else {
                assert(self.child_contents().contains_key(key_v));
                assert(self.child_contents()[key_v] == c_fin);
                assert(self.child_contents() =~= cc_old.insert(
                    key_v,
                    self.child_contents()[key_v],
                ));
                assert(self.child_regexes() =~= oldm.child_regexes());
                assert(self.child_param() == oldm.child_param());
                assert(self.child_catchall() == oldm.child_catchall());
            }
            assert(Self::remove_shape(oldm, *self, p));
        }
        (true, res.1)
    }

    /// Removes the value registered at the exact path, discards the whole
    /// subtree below it, and prunes every ancestor that becomes empty.
    /// A path with a segment that does not resolve leaves the trie
    /// unchanged. Returns the value held at the target node, if any.
    pub fn remove(&mut self, path: &Vec<String>) -> (r: Option<V>)
        requires
            old(self).wf(),
        ensures
            final(self).wf(),
            final(self).spec_catchall() == old(self).spec_catchall(),
            r == (if old(self).spec_resolves(seg_seq(path@)) {
                old(self).spec_get(seg_seq(path@))
            } else {
                None::<V>
            }),
            old(self).spec_resolves(seg_seq(path@)) ==> forall|q: Seq<Seq<char>>| #[trigger]
                final(self).spec_get(q) == (if seg_seq(path@).is_prefix_of(q) {
                    None::<V>
                } else {
                    old(self).spec_get(q)
                }),
            old(self).spec_resolves(seg_seq(path@)) ==> Self::remove_shape(
                *old(self),
                *final(self),
                seg_seq(path@),
            ),
            !old(self).spec_resolves(seg_seq(path@)) ==> *final(self) == *old(self),
    {
        proof {
            assert(seg_seq(path@).skip(0) =~= seg_seq(path@));
        }
        let res = self.remove_at(path, 0);
        res.1
    }

    /// The candidate keys under this node for one concrete segment, in
    /// strict precedence order.
    fn matches_child(&self, seg: &String) -> (r: Vec<String>)
        requires
            self.wf(),
        ensures
            seg_seq(r@) == self.match_keys(seg@),
    {
        let ghost exact: Seq<Seq<char>> = if self.child_contents().contains_key(seg@) {
            seq![seg@]
        } else {
            Seq::<Seq<char>>::empty()
        };
        let mut out: Vec<String> = Vec::new();
        match self.find_child(seg) {
            Some(j) => {
                proof {
                    aseq_lemma_idx(self.entries@, j as int);
                }
                out.push(seg.clone());
            }
            None => {}
        }
        proof {
            assert(seg_seq(out@) =~= exact);
        }
        let mut j: usize = 0;
        while j < self.regexes.len()
            invariant
                self.wf(),
                j <= self.regexes@.len(),
                exact == (if self.child_contents().contains_key(seg@) {
                    seq![seg@]
                } else {
                    Seq::<Seq<char>>::empty()
                }),
                seg_seq(out@) =~= exact + regex_part(self.child_regexes().take(j as int), seg@),
            decreases self.regexes@.len() - j,
        {
            let ghost rl = self.child_regexes();
            let ghost prev = out@;
            let rkey = &self.regexes[j];
            proof {
                assert(rl[j as int] == rkey@);
                assert(is_regex_key(rkey@));
            }
            let st = rkey.as_str();
            let n = st.unicode_len();
            let inner = st.substring_char(2, n - 1);
            proof {
                assert(inner@ == regex_inner(rkey@));
            }
            if regex_matches(inner, seg.as_str()) {
                out.push(rkey.clone());
            }
            proof {
                lemma_regex_part_push(rl.take(j as int), rl[j as int], seg@);
                assert(rl.take(j as int).push(rl[j as int]) =~= rl.take(j as int + 1));
                if regex_accepts(regex_inner(rkey@), seg@) {
                    assert(seg_seq(out@) =~= seg_seq(prev).push(rkey@));
                } else {
                    assert(seg_seq(out@) =~= seg_seq(prev));
                }
                assert(seg_seq(out@) =~= exact + regex_part(rl.take(j as int + 1), seg@));
            }
            j += 1;
        }
        proof {
            assert(self.child_regexes().take(self.regexes@.len() as int) =~= self.child_regexes());
        }
        let ghost with_regex = out@;
        match &self.param {
            Some(p) => {
                out.push(p.clone());
                proof {
                    assert(seg_seq(out@) =~= seg_seq(with_regex).push(p@));
                }
            }
            None => {}
        }
        let ghost with_param = out@;
        match &self.catchall {
            Some(c) => {
                out.push(c.clone());
                proof {
                    assert(seg_seq(out@) =~= seg_seq(with_param).push(c@));
                }
            }
            None => {}
        }
        proof {
            assert(seg_seq(out@) =~= self.match_keys(seg@));
        }
        out
    }

    /// Pattern-aware resolution: descends using the precedence-ordered
    /// candidates at each level, short-circuits at a catchall node, and
    /// returns the first whole-path match found by depth-first search.
    pub fn at<'a>(&'a self, path: &Vec<String>) -> (r: Option<&'a V>)
        requires
            self.wf(),
        ensures
            match r {
                Some(v) => self.spec_at(seg_seq(path@)) == Some(*v),
                None => self.spec_at(seg_seq(path@)) is None,
            },
    {
        proof {
            assert(seg_seq(path@).skip(0) =~= seg_seq(path@));
        }
        self.at_from(path, 0)
    }

    fn at_from<'a>(&'a self, path: &Vec<String>, i: usize) -> (r: Option<&'a V>)
        requires
            self.wf(),
            i <= path@.len(),
        ensures
            match r {
                Some(v) => self.spec_at(seg_seq(path@).skip(i as int)) == Some(*v),
                None => self.spec_at(seg_seq(path@).skip(i as int)) is None,
            },
        decreases path@.len() - i,
    {
        let ghost p = seg_seq(path@).skip(i as int);
        if self.is_catchall {
            return self.value.as_ref();
        }
        if i == path.len() {
            proof {
                assert(p.len() == 0);
            }
            return self.value.as_ref();
        }
        proof {
            assert(p.len() > 0);
            assert(p[0] == (path@[i as int])@);
            assert(p.drop_first() =~= seg_seq(path@).skip(i as int + 1));
        }
        let keys = self.matches_child(&path[i]);
        let i1 = i + 1;
        let ghost all = seg_seq(keys@);
        proof {
            assert(all == self.match_keys(p[0]));
            assert(self.spec_at(p) == self.spec_at_list(all, p));
            assert(all.skip(0) =~= all);
        }
        let mut j: usize = 0;
        while j < keys.len()
            invariant
                self.wf(),
                i < path@.len(),
                p == seg_seq(path@).skip(i as int),
                p.len() > 0,
                p.drop_first() == seg_seq(path@).skip(i as int + 1),
                all == seg_seq(keys@),
                i1 == i + 1,
                j <= keys@.len(),
                self.spec_at_list(all.skip(j as int), p) == self.spec_at(p),
            decreases keys@.len() - j,
        {
            let ghost rest = all.skip(j as int);
            proof {
                assert(rest.len() > 0);
                assert(rest[0] == keys@[j as int]@);
                assert(rest.drop_first() =~= all.skip(j as int + 1));
            }
            match self.find_child(&keys[j]) {
                Some(cj) => {
                    proof {
                        aseq_lemma_idx(self.entries@, cj as int);
                        assert(self.child_contents().contains_key(rest[0]));
                        assert(self.child_contents()[rest[0]] == self.entries@[cj as int].1);
                    }
                    match self.entries[cj].1.at_from(path, i1) {
                        Some(v) => {
                            proof {
                                assert(self.spec_at_list(rest, p) == Some(*v));
                            }
                            return Some(v);
                        }
                        None => {
                            proof {
                                assert(self.spec_at_list(rest, p) == self.spec_at_list(
                                    all.skip(j as int + 1),
                                    p,
                                ));
                            }
                        }
                    }
                }
                None => {
                    proof {
                        assert(!self.child_contents().contains_key(rest[0]));
                        assert(self.spec_at_list(rest, p) == self.spec_at_list(
                            all.skip(j as int + 1),
                            p,
                        ));
                    }
                }
            }
            j += 1;
        }
        proof {
            assert(all.skip(j as int).len() == 0);
        }
        None
    }

    /// Once resolution enters a node flagged catchall, every remaining
    /// segment of the queried path is ignored and the node's own value is
    /// returned, whatever the segments hold and however many there are.
    pub proof fn lemma_catchall_short_circuit(n: Node<V>, p: Seq<Seq<char>>)
        requires
            n.spec_catchall(),
        ensures
            n.spec_at(p) == n.spec_value(),
    {
    }

    /// The outcome of trying one candidate child key for the rest of the
    /// path: the candidate's subtree is searched, a candidate without an
    /// entry yields nothing.
    pub open spec fn candidate_result(self, k: Seq<char>, p: Seq<Seq<char>>) -> Option<V> {
        if self.child_contents().contains_key(k) {
            self.child_contents()[k].spec_at(p.drop_first())
        } else {
            None
        }
    }

    proof fn lemma_first_success_list(
        n: Node<V>,
        keys: Seq<Seq<char>>,
        p: Seq<Seq<char>>,
        idx: int,
        v: V,
    )
        requires
            p.len() > 0,
            0 <= idx < keys.len(),
            forall|m: int| 0 <= m < idx ==> n.candidate_result(#[trigger] keys[m], p) is None,
            n.candidate_result(keys[idx], p) == Some(v),
        ensures
            n.spec_at_list(keys, p) == Some(v),
        decreases idx,
    {
        if idx == 0 {
        } else {
            assert(n.candidate_result(keys[0], p) is None);
            assert forall|m: int| 0 <= m < idx - 1 implies n.candidate_result(
                #[trigger] keys.drop_first()[m],
                p,
            ) is None by {
                assert(keys.drop_first()[m] == keys[m + 1]);
            }
            assert(keys.drop_first()[idx - 1] == keys[idx]);
            Self::lemma_first_success_list(n, keys.drop_first(), p, idx - 1, v);
        }
    }

    /// Candidates are tried in strict precedence order — the order of
    /// `match_keys`: exact, then regexes in insertion order, then parameter,
    /// then catchall — and the first candidate whose subtree matches the
    /// whole rest of the path decides the result.
    pub proof fn lemma_first_success_wins(n: Node<V>, p: Seq<Seq<char>>, idx: int, v: V)
        requires
            !n.spec_catchall(),
            p.len() > 0,
            0 <= idx < n.match_keys(p[0]).len(),
            forall|m: int|
                0 <= m < idx ==> n.candidate_result(#[trigger] n.match_keys(p[0])[m], p) is None,
            n.candidate_result(n.match_keys(p[0])[idx], p) == Some(v),
        ensures
            n.spec_at(p) == Some(v),
    {
        Self::lemma_first_success_list(n, n.match_keys(p[0]), p, idx, v);
    }

    /// When the exact child for the next segment exists and its subtree
    /// matches the rest of the path, resolution returns that match: the
    /// literal candidate is preferred over every regex, parameter or
    /// catchall sibling.
    pub proof fn lemma_literal_preferred(n: Node<V>, p: Seq<Seq<char>>, v: V)
        requires
            n.wf(),
            !n.spec_catchall(),
            p.len() > 0,
            n.child_contents().contains_key(p[0]),
            n.child_contents()[p[0]].spec_at(p.drop_first()) == Some(v),
        ensures
            n.spec_at(p) == Some(v),
    {
        let keys = n.match_keys(p[0]);
        assert(keys[0] == p[0]);
        assert(n.spec_at(p) == n.spec_at_list(keys, p));
        assert(keys.len() > 0);
    }

    /// How handing out a mutable borrow of the value at `p` changes a trie:
    /// every node keeps its children, regex list, parameter and catchall
    /// pointers and catchall flag; along the chain of `p` only the entry for
    /// the next segment is re-seated, and only the target node's value may
    /// differ.
    pub open spec fn value_update_shape(pre: Node<V>, post: Node<V>, p: Seq<Seq<char>>) -> bool
        decreases p.len(),
    {
        if p.len() == 0 {
            &&& post.child_contents() == pre.child_contents()
            &&& post.child_regexes() == pre.child_regexes()
            &&& post.child_param() == pre.child_param()
            &&& post.child_catchall() == pre.child_catchall()
            &&& post.spec_catchall() == pre.spec_catchall()
        } else {
            let k = p[0];
            &&& post.spec_value() == pre.spec_value()
            &&& post.spec_catchall() == pre.spec_catchall()
            &&& post.child_regexes() == pre.child_regexes()
            &&& post.child_param() == pre.child_param()
            &&& post.child_catchall() == pre.child_catchall()
            &&& pre.child_contents().contains_key(k)
            &&& post.child_contents() == pre.child_contents().insert(
                k,
                post.child_contents()[k],
            )
            &&& Self::value_update_shape(
                pre.child_contents()[k],
                post.child_contents()[k],
                p.drop_first(),
            )
        }
    }

    /// Mutable exact retrieval: the counterpart of `get`, handing out a
    /// mutable borrow of the value at the node reached by the whole path.
    pub fn get_mut<'a>(&'a mut self, path: &Vec<String>) -> (r: Option<&'a mut V>)
        requires
            old(self).wf(),
        ensures
            (old(self).spec_get(seg_seq(path@)) is Some) <==> r is Some,
            r matches Some(v) ==> Some(*v) == old(self).spec_get(seg_seq(path@)),
            r matches Some(v) ==> final(self).wf(),
            r matches Some(v) ==> final(self).spec_get(seg_seq(path@)) == Some(*final(v)),
            r matches Some(v) ==> forall|q: Seq<Seq<char>>|
                q != seg_seq(path@) ==> #[trigger] final(self).spec_get(q) == old(self).spec_get(
                    q,
                ),
            r matches Some(v) ==> Self::value_update_shape(
                *old(self),
                *final(self),
                seg_seq(path@),
            ),
            r is None ==> *final(self) == *old(self),
    {
        proof {
            assert(seg_seq(path@).skip(0) =~= seg_seq(path@));
        }
        self.get_mut_from(path, 0)
    }

    #[verifier::rlimit(50)]
    fn get_mut_from<'a>(&'a mut self, path: &Vec<String>, i: usize) -> (r: Option<&'a mut V>)
        requires
            old(self).wf(),
            i <= path@.len(),
        ensures
            (old(self).spec_get(seg_seq(path@).skip(i as int)) is Some) <==> r is Some,
            r matches Some(v) ==> Some(*v) == old(self).spec_get(seg_seq(path@).skip(i as int)),
            r matches Some(v) ==> final(self).wf(),
            r matches Some(v) ==> final(self).spec_get(seg_seq(path@).skip(i as int)) == Some(
                *final(v),
            ),
            r matches Some(v) ==> forall|q: Seq<Seq<char>>|
                q != seg_seq(path@).skip(i as int) ==> #[trigger] final(self).spec_get(q) == old(
                    self,
                ).spec_get(q),
            r matches Some(v) ==> Self::value_update_shape(
                *old(self),
                *final(self),
                seg_seq(path@).skip(i as int),
            ),
            r is None ==> *final(self) == *old(self),
        decreases path@.len() - i,
    {
        let ghost p = seg_seq(path@).skip(i as int);
        if i == path.len() {
            proof {
                assert(p.len() == 0);
                let pre = *self;
                assert forall|m2: Node<V>| #![trigger m2.wf()]
                    (m2.entries == pre.entries && m2.regexes == pre.regexes && m2.param
                        == pre.param && m2.catchall == pre.catchall && m2.is_catchall
                        == pre.is_catchall) implies m2.wf() == pre.wf() by {
                    assert(m2.child_contents() == pre.child_contents());
                    assert(m2.map_wf() == pre.map_wf());
                }
                assert forall|m2: Node<V>, q: Seq<Seq<char>>| #![trigger m2.spec_get(q)]
                    (m2.entries == pre.entries && m2.regexes == pre.regexes && m2.param
                        == pre.param && m2.catchall == pre.catchall && m2.is_catchall
                        == pre.is_catchall) implies m2.spec_get(q) == (if q.len() == 0 {
                    m2.spec_value()
                } else {
                    pre.spec_get(q)
                }) by {
                    assert(m2.child_contents() == pre.child_contents());
                    if q.len() > 0 && m2.child_contents().contains_key(q[0]) {
                        assert(m2.child_contents()[q[0]] == pre.child_contents()[q[0]]);
                    }
                }
                assert forall|q: Seq<Seq<char>>| q.len() == 0 implies q == p by {
                    assert(q =~= p);
                }
                assert forall|m2: Node<V>| #![trigger Self::value_update_shape(pre, m2, p)]
                    (m2.entries == pre.entries && m2.regexes == pre.regexes && m2.param
                        == pre.param && m2.catchall == pre.catchall && m2.is_catchall
                        == pre.is_catchall) implies Self::value_update_shape(pre, m2, p) by {
                    assert(m2.child_contents() == pre.child_contents());
                    assert(m2.child_regexes() == pre.child_regexes());
                }
            }
            match &mut self.value {
                Some(v) => Some(v),
                None => None,
            }
        } else {
            proof {
                assert(p.len() > 0);
                assert(p[0] == (path@[i as int])@);
                assert(p.drop_first() =~= seg_seq(path@).skip(i as int + 1));
            }
            if self.get_from(path, i).is_none() {
                return None;
            }
            let j: usize = match self.find_child(&path[i]) {
                None => {
                    proof {
                        assert(!self.child_contents().contains_key(p[0]));
                    }
                    return None;
                }
                Some(j) => j,
            };
            let ghost pre = *self;
            let ghost key_v = p[0];
            proof {
                aseq_lemma_idx(self.entries@, j as int);
                assert(self.child_contents().contains_key(p[0]));
                assert(self.child_contents()[p[0]] == self.entries@[j as int].1);
                assert forall|q: Seq<Seq<char>>|
                    (q.len() > 0 && q[0] == key_v && q != p) implies #[trigger] q.drop_first()
                    != p.drop_first() by {
                    if q.drop_first() == p.drop_first() {
                        assert(q.len() == p.len());
                        assert forall|m: int| 0 <= m < q.len() implies q[m] == p[m] by {
                            if m > 0 {
                                assert(q[m] == q.drop_first()[m - 1]);
                                assert(p[m] == p.drop_first()[m - 1]);
                            }
                        }
                        assert(q =~= p);
                    }
                }
                assert forall|q: Seq<Seq<char>>| (q.len() > 0 && q[0] == key_v) implies
                    #[trigger] pre.spec_get(q) == pre.entries@[j as int].1.spec_get(
                    q.drop_first(),
                ) by {
                    assert(pre.child_contents().contains_key(q[0]));
                    assert(pre.child_contents()[q[0]] == pre.entries@[j as int].1);
                }
                assert forall|m2: Node<V>| #![trigger m2.wf()]
                    (m2.entries@ == pre.entries@.update(
                        j as int,
                        (pre.entries@[j as int].0, m2.entries@[j as int].1),
                    ) && m2.value == pre.value && m2.regexes == pre.regexes && m2.param
                        == pre.param && m2.catchall == pre.catchall && m2.is_catchall
                        == pre.is_catchall) implies (m2.entries@[j as int].1.wf() && m2.entries@[
                    j as int
                ].1.spec_get(p.drop_first()) is Some ==> m2.wf()) by {
                    let c2 = m2.entries@[j as int].1;
                    aseq_lemma_update(pre.entries@, j as int, c2);
                    assert(m2.child_contents() == pre.child_contents().insert(key_v, c2));
                    if c2.wf() && c2.spec_get(p.drop_first()) is Some {
                        if c2.spec_is_empty() {
                            c2.lemma_empty_get(p.drop_first());
                        }
                        assert(!c2.spec_is_empty());
                        assert forall|t: int|
                            0 <= t < m2.regexes@.len() implies {
                            let rk = (#[trigger] m2.regexes@[t])@;
                            &&& is_regex_key(rk)
                            &&& regex_valid(regex_inner(rk))
                            &&& aseq_has(m2.entries@, rk)
                        } by {
                            assert(m2.regexes@[t] == pre.regexes@[t]);
                            assert(aseq_has(pre.entries@, pre.regexes@[t]@));
                        }
                        assert forall|k: Seq<char>| #[trigger]
                            m2.child_contents().contains_key(k) implies m2.child_contents()[k].wf()
                            && !m2.child_contents()[k].spec_is_empty() by {
                            if k == key_v {
                                assert(m2.child_contents()[k] == c2);
                            } else {
                                assert(pre.child_contents().contains_key(k));
                                assert(m2.child_contents()[k] == pre.child_contents()[k]);
                            }
                        }
                        assert(m2.map_wf());
                        assert(m2.wf());
                    }
                }
                assert forall|m2: Node<V>| #![trigger Self::value_update_shape(pre, m2, p)]
                    (m2.entries@ == pre.entries@.update(
                        j as int,
                        (pre.entries@[j as int].0, m2.entries@[j as int].1),
                    ) && m2.value == pre.value && m2.regexes == pre.regexes && m2.param
                        == pre.param && m2.catchall == pre.catchall && m2.is_catchall
                        == pre.is_catchall) implies (Self::value_update_shape(
                    pre.child_contents()[key_v],
                    m2.entries@[j as int].1,
                    p.drop_first(),
                ) ==> Self::value_update_shape(pre, m2, p)) by {
                    let c2 = m2.entries@[j as int].1;
                    aseq_lemma_update(pre.entries@, j as int, c2);
                    assert(m2.child_contents() == pre.child_contents().insert(key_v, c2));
                    assert(m2.child_regexes() == pre.child_regexes());
                    if Self::value_update_shape(pre.child_contents()[key_v], c2, p.drop_first()) {
                        assert(m2.child_contents().contains_key(key_v));
                        assert(m2.child_contents()[key_v] == c2);
                        assert(Self::value_update_shape(pre, m2, p));
                    }
                }
                assert forall|m2: Node<V>, q: Seq<Seq<char>>| #![trigger m2.spec_get(q)]
                    (m2.entries@ == pre.entries@.update(
                        j as int,
                        (pre.entries@[j as int].0, m2.entries@[j as int].1),
                    ) && m2.value == pre.value && m2.regexes == pre.regexes && m2.param
                        == pre.param && m2.catchall == pre.catchall && m2.is_catchall
                        == pre.is_catchall) implies m2.spec_get(q) == (if q.len() > 0 && q[0]
                    == key_v {
                    m2.entries@[j as int].1.spec_get(q.drop_first())
                } else {
                    pre.spec_get(q)
                }) by {
                    let c2 = m2.entries@[j as int].1;
                    aseq_lemma_update(pre.entries@, j as int, c2);
                    assert(m2.child_contents() == pre.child_contents().insert(key_v, c2));
                    if q.len() > 0 {
                        if q[0] == key_v {
                            assert(m2.child_contents().contains_key(q[0]));
                            assert(m2.child_contents()[q[0]] == c2);
                        } else {
                            assert(m2.child_contents().contains_key(q[0])
                                == pre.child_contents().contains_key(q[0]));
                            if pre.child_contents().contains_key(q[0]) {
                                assert(m2.child_contents()[q[0]] == pre.child_contents()[q[0]]);
                            }
                        }
                    }
                }
            }
            let c = &mut self.entries[j].1;
            c.get_mut_from(path, i + 1)
        }
    }

    /// In a trie holding only literal keys, pattern resolution agrees with
    /// exact retrieval on every path.
    pub proof fn lemma_literal_round_trip(n: Node<V>, p: Seq<Seq<char>>)
        requires
            n.wf(),
            n.literal_only(),
        ensures
            n.spec_at(p) == n.spec_get(p),
        decreases p.len(),
    {
        if p.len() == 0 {
        } else {
            let keys = n.match_keys(p[0]);
            assert(n.child_regexes().len() == 0);
            assert(regex_part(n.child_regexes(), p[0]) =~= Seq::<Seq<char>>::empty());
            if n.child_contents().contains_key(p[0]) {
                assert(keys =~= seq![p[0]]);
                let c = n.child_contents()[p[0]];
                assert(c.wf() && c.literal_only());
                Self::lemma_literal_round_trip(c, p.drop_first());
                assert(keys.drop_first() =~= Seq::<Seq<char>>::empty());
                assert(n.spec_at_list(keys.drop_first(), p) is None);
                assert(n.spec_at(p) == n.spec_at_list(keys, p));
            } else {
                assert(keys =~= Seq::<Seq<char>>::empty());
                assert(n.spec_at(p) == n.spec_at_list(keys, p));
                assert(n.spec_at_list(keys, p) is None);
            }
        }
    }

    /// Removal is idempotent: a removal that reshaped a well-formed trie
    /// leaves the removed path unresolvable, so by `remove`'s contract a
    /// second removal of the same path returns nothing and leaves the trie
    /// unchanged.
    pub proof fn lemma_remove_idempotent(pre: Node<V>, post: Node<V>, p: Seq<Seq<char>>)
        requires
            post.wf(),
            p.len() > 0,
            Self::remove_shape(pre, post, p),
        ensures
            !post.spec_resolves(p),
        decreases p.len(),
    {
        let k = p[0];
        if post.child_contents().contains_key(k) {
            let c = post.child_contents()[k];
            if p.len() == 1 {
                assert(Self::remove_shape(pre.child_contents()[k], c, p.drop_first()));
                assert(c.spec_value() is None);
                assert(c.child_contents() == Map::<Seq<char>, Node<V>>::empty());
                if c.entries@.len() > 0 {
                    assert(aseq_has(c.entries@, c.entries@[0].0@));
                    assert(c.child_contents().contains_key(c.entries@[0].0@));
                }
                assert(c.spec_is_empty());
                assert(false);
            } else {
                assert(c.wf());
                Self::lemma_remove_idempotent(pre.child_contents()[k], c, p.drop_first());
            }
        }
    }
}

impl<V> Default for Node<V> {
    /// A node holding no value and no children.
    fn default() -> (n: Node<V>)
        ensures
            n.wf(),
            n.spec_is_empty(),
            n.spec_value() is None,
            !n.spec_catchall(),
            n.literal_only(),
            n.child_contents() == Map::<Seq<char>, Node<V>>::empty(),
            n.child_regexes() == Seq::<Seq<char>>::empty(),
            n.child_param() is None,
            n.child_catchall() is None,
            forall|p: Seq<Seq<char>>| #[trigger] n.spec_get(p) is None,
            forall|p: Seq<Seq<char>>| #[trigger] n.spec_resolves(p) == (p.len() == 0),
    {
        Node::new()
    }
}

} // verus!
