use vstd::prelude::*;
use vstd::string::*;

verus! {

/// A radix tree over strings: every edge carries a non-empty label, and no
/// two sibling labels start with the same character.
#[derive(Debug)]
pub struct RadixNode {
    children: Vec<(String, RadixNode)>,
    is_end: bool,
}

/// The words that hang below an edge: its label followed by each word of the
/// child.
pub open spec fn prefixed(label: Seq<char>, ws: Set<Seq<char>>) -> Set<Seq<char>> {
    ws.map(|u: Seq<char>| label + u)
}

/// The lowercase form of a string, as `str::to_lowercase` gives it.
pub uninterp spec fn lower_of(s: Seq<char>) -> Seq<char>;

/// Relies on `str::to_lowercase`: the result depends on the characters alone,
/// and the empty string stays empty.
#[verifier::external_body]
fn lowercase(s: &str) -> (r: String)
    ensures
        r@ == lower_of(s@),
        s@.len() == 0 ==> r@.len() == 0,
{
    s.to_lowercase()
}

/// The words held after inserting each word of `ws`, in order, into a tree
/// that held `start`.
pub open spec fn after_inserts(start: Set<Seq<char>>, ws: Seq<Seq<char>>) -> Set<Seq<char>>
    decreases ws.len(),
{
    if ws.len() == 0 {
        start
    } else {
        after_inserts(start, ws.drop_last()).insert(lower_of(ws.last()))
    }
}

/// The lowercase forms of the words of `ws`.
pub open spec fn lowered(ws: Seq<Seq<char>>) -> Set<Seq<char>> {
    ws.map_values(|w: Seq<char>| lower_of(w)).to_set()
}

/// The contents of a list of strings, as character sequences.
pub open spec fn views(v: Seq<String>) -> Seq<Seq<char>> {
    v.map_values(|s: String| s@)
}

/// `w` runs through an edge labelled `label` into a subtree holding `ws`.
pub open spec fn through_edge(label: Seq<char>, ws: Set<Seq<char>>, w: Seq<char>) -> bool {
    label.is_prefix_of(w) && ws.contains(w.subrange(label.len() as int, w.len() as int))
}

/// The words of `ws` that start with `p`.
pub open spec fn with_prefix(ws: Set<Seq<char>>, p: Seq<char>) -> Set<Seq<char>> {
    ws.filter(|w: Seq<char>| p.is_prefix_of(w))
}

impl RadixNode {
    /// The words spelled out through the node itself (the empty word, when the
    /// node is terminal) and through its first `k` edges.
    closed spec fn words_upto(self, k: int) -> Set<Seq<char>>
        decreases self, k,
    {
        if k <= 0 || k > self.children@.len() {
            if self.is_end {
                set![Seq::empty()]
            } else {
                Set::empty()
            }
        } else {
            let edge = self.children@[k - 1];
            self.words_upto(k - 1).union(
                prefixed(edge.0@, edge.1.words_upto(edge.1.children@.len() as int)),
            )
        }
    }

    /// Labels are non-empty, sibling labels start with distinct characters,
    /// every subtree holds at least one word, and so on all the way down.
    pub closed spec fn wf(self) -> bool
        decreases self,
    {
        &&& forall|i: int| 0 <= i < self.children@.len() ==> #[trigger] self.children@[i].0@.len() > 0
        &&& forall|i: int, j: int|
            0 <= i < j < self.children@.len() ==> #[trigger] self.children@[i].0@[0]
                != #[trigger] self.children@[j].0@[0]
        &&& forall|i: int|
            0 <= i < self.children@.len() ==> (#[trigger] self.children@[i]).1.is_end
                || self.children@[i].1.children@.len() > 0
        &&& forall|i: int| 0 <= i < self.children@.len() ==> (#[trigger] self.children@[i]).1.wf()
    }

    proof fn lemma_contains_upto(self, k: int, w: Seq<char>)
        requires
            0 <= k <= self.children@.len(),
        ensures
            self.words_upto(k).contains(w) == ((w.len() == 0 && self.is_end) || exists|j: int|
                0 <= j < k && #[trigger] through_edge(
                    self.children@[j].0@,
                    self.children@[j].1@,
                    w,
                )),
        decreases k,
    {
        if w.len() == 0 {
            assert(w =~= Seq::<char>::empty());
        }
        if k > 0 {
            self.lemma_contains_upto(k - 1, w);
            let e = self.children@[k - 1];
            lemma_prefixed_contains(e.0@, e.1@, w);
            if through_edge(e.0@, e.1@, w) {
                assert(exists|j: int|
                    0 <= j < k && #[trigger] through_edge(
                        self.children@[j].0@,
                        self.children@[j].1@,
                        w,
                    ));
            }
        }
    }

    /// Membership in the node's words, one level down.
    proof fn lemma_contains(self, w: Seq<char>)
        ensures
            self@.contains(w) == ((w.len() == 0 && self.is_end) || exists|j: int|
                0 <= j < self.children@.len() && #[trigger] through_edge(
                    self.children@[j].0@,
                    self.children@[j].1@,
                    w,
                )),
    {
        self.lemma_contains_upto(self.children@.len() as int, w);
    }

    /// An empty tree.
    pub fn new() -> (r: Self)
        ensures
            r.wf(),
            r@ == Set::<Seq<char>>::empty(),
    {
        let r = RadixNode { children: Vec::new(), is_end: false };
        proof {
            assert(r@ =~= Set::<Seq<char>>::empty());
        }
        r
    }

    /// Adds `word` to the tree exactly as given, splitting an edge where the
    /// word leaves it part way.
    pub fn insert_lowercase(&mut self, word: &str)
        requires
            old(self).wf(),
        ensures
            final(self).wf(),
            final(self)@ == old(self)@.insert(word@),
        decreases word@.len(),
    {
        let ghost w = word@;
        let n = word.unicode_len();
        if n == 0 {
            self.is_end = true;
            proof {
                assert forall|v: Seq<char>| #[trigger] self@.contains(v) == old(self)@.insert(w).contains(v) by {
                    self.lemma_contains(v);
                    old(self).lemma_contains(v);
                    if v.len() == 0 {
                        assert(v =~= w);
                    }
                }
                assert(self@ =~= old(self)@.insert(w));
            }
            return;
        }
        let len = self.children.len();
        let mut i: usize = 0;
        while i < len
            invariant
                *self == *old(self),
                self.wf(),
                len == self.children@.len(),
                n == w.len(),
                w == word@,
                n > 0,
                i <= len,
                forall|j: int| 0 <= j < i ==> #[trigger] self.children@[j].0@[0] != w[0],
            decreases len - i,
        {
            let cp = common_prefix_len(self.children[i].0.as_str(), word);
            if cp > 0 {
                let ghost before = *self;
                let (label, child) = self.children.remove(i);
                let ghost l = label@;
                let ll = label.as_str().unicode_len();
                let head = String::from_str(label.as_str().substring_char(0, cp));
                let mut node = if cp == ll {
                    child
                } else {
                    let tail = String::from_str(label.as_str().substring_char(cp, ll));
                    RadixNode { children: vec![(tail, child)], is_end: false }
                };
                let ghost node0 = node;
                proof {
                    assert(before.children@[i as int] == (label, child));
                    assert(node0.wf());
                }
                if cp == n {
                    node.is_end = true;
                } else {
                    node.insert_lowercase(word.substring_char(cp, n));
                }
                self.children.insert(i, (head, node));
                proof {
                    let c = cp as int;
                    let h = head@;
                    assert(h =~= l.subrange(0, c));
                    assert(h =~= w.subrange(0, c));
                    // The rest of the word lands in the new node.
                    assert forall|u: Seq<char>| #[trigger] node@.contains(u) == (node0@.contains(u)
                        || u == w.subrange(c, n as int)) by {
                        if cp == n {
                            node.lemma_contains(u);
                            node0.lemma_contains(u);
                            if u.len() == 0 {
                                assert(u =~= w.subrange(c, n as int));
                            }
                        }
                    }
                    if cp < ll {
                        assert forall|u: Seq<char>| #[trigger] node0@.contains(u) == through_edge(
                            l.subrange(c, ll as int),
                            child@,
                            u,
                        ) by {
                            node0.lemma_contains(u);
                            assert(node0.children@[0].0@ =~= l.subrange(c, ll as int));
                        }
                    }
                    lemma_split_edge(l, c, w, child@, node0@, node@);
                    assert(self.children@ =~= before.children@.update(i as int, (head, node)));
                    assert(self.children@[i as int] == (head, node));
                    assert(before == *old(self));
                    assert(before.children@[i as int].0@ == l);
                    assert(before.children@[i as int].1@ == child@);
                    assert forall|v: Seq<char>| #[trigger] self@.contains(v) == old(self)@.insert(
                        w,
                    ).contains(v) by {
                        self.lemma_contains(v);
                        before.lemma_contains(v);
                        assert(through_edge(h, node@, v) == (through_edge(l, child@, v) || v == w));
                        if v == w {
                            assert(through_edge(self.children@[i as int].0@, self.children@[i as int].1@, v));
                        }
                        if exists|j: int| 0 <= j < len && #[trigger] through_edge(
                            self.children@[j].0@,
                            self.children@[j].1@,
                            v,
                        ) {
                            let j = choose|j: int| 0 <= j < len && #[trigger] through_edge(
                                self.children@[j].0@,
                                self.children@[j].1@,
                                v,
                            );
                            if j != i {
                                assert(through_edge(
                                    before.children@[j].0@,
                                    before.children@[j].1@,
                                    v,
                                ));
                            } else if v != w {
                                assert(through_edge(
                                    before.children@[j].0@,
                                    before.children@[j].1@,
                                    v,
                                ));
                            }
                        }
                        if exists|j: int| 0 <= j < len && #[trigger] through_edge(
                            before.children@[j].0@,
                            before.children@[j].1@,
                            v,
                        ) {
                            let j = choose|j: int| 0 <= j < len && #[trigger] through_edge(
                                before.children@[j].0@,
                                before.children@[j].1@,
                                v,
                            );
                            assert(through_edge(self.children@[j].0@, self.children@[j].1@, v));
                        }
                    }
                    assert(self@ =~= old(self)@.insert(w));
                    node.lemma_contains(w.subrange(c, n as int));
                    assert(h[0] == l[0]);
                    assert(node.wf());
                    assert forall|j: int| 0 <= j < len implies (#[trigger] self.children@[j]).1.wf() by {
                        if j != i {
                            assert(before.children@[j].1.wf());
                        }
                    }
                    assert forall|a: int, b: int|
                        0 <= a < b < self.children@.len() implies #[trigger] self.children@[a].0@[0]
                        != #[trigger] self.children@[b].0@[0] by {
                        assert(before.children@[a].0@[0] != before.children@[b].0@[0]);
                    }
                }
                return;
            }
            proof {
                assert(w.subrange(0, 1)[0] == w[0]);
            }
            i = i + 1;
        }
        let leaf = RadixNode { children: Vec::new(), is_end: true };
        self.children.push((String::from_str(word), leaf));
        proof {
            let e = self.children@[len as int];
            assert forall|j: int| 0 <= j < len implies self.children@[j] == old(self).children@[j] by {}
            assert forall|v: Seq<char>| #[trigger] through_edge(e.0@, e.1@, v) == (v == w) by {
                leaf.lemma_contains(v.subrange(n as int, v.len() as int));
                if through_edge(e.0@, e.1@, v) {
                    assert(v =~= w);
                }
                if v == w {
                    assert(v.subrange(n as int, v.len() as int) =~= Seq::<char>::empty());
                }
            }
            assert forall|v: Seq<char>| #[trigger] self@.contains(v) == old(self)@.insert(w).contains(v) by {
                self.lemma_contains(v);
                old(self).lemma_contains(v);
                if v == w {
                    assert(through_edge(e.0@, e.1@, v));
                }
                if exists|j: int| 0 <= j < len + 1 && #[trigger] through_edge(
                    self.children@[j].0@,
                    self.children@[j].1@,
                    v,
                ) {
                    let j = choose|j: int| 0 <= j < len + 1 && #[trigger] through_edge(
                        self.children@[j].0@,
                        self.children@[j].1@,
                        v,
                    );
                    if j < len {
                        assert(through_edge(old(self).children@[j].0@, old(self).children@[j].1@, v));
                    }
                }
                if exists|j: int| 0 <= j < len && #[trigger] through_edge(
                    old(self).children@[j].0@,
                    old(self).children@[j].1@,
                    v,
                ) {
                    let j = choose|j: int| 0 <= j < len && #[trigger] through_edge(
                        old(self).children@[j].0@,
                        old(self).children@[j].1@,
                        v,
                    );
                    assert(through_edge(self.children@[j].0@, self.children@[j].1@, v));
                }
            }
            assert(self@ =~= old(self)@.insert(w));
            assert(e.0@ == w);
            assert(e.1.wf());
            assert forall|a: int, b: int|
                0 <= a < b < self.children@.len() implies #[trigger] self.children@[a].0@[0]
                != #[trigger] self.children@[b].0@[0] by {
                if b == len {
                    assert(old(self).children@[a].0@[0] != w[0]);
                } else {
                    assert(old(self).children@[a].0@[0] != old(self).children@[b].0@[0]);
                }
            }
        }
    }

    /// Whether `word`, taken exactly as given, is one of the tree's words.
    pub fn search_lowercase(&self, word: &str) -> (r: bool)
        requires
            self.wf(),
        ensures
            r == self@.contains(word@),
        decreases word@.len(),
    {
        let ghost w = word@;
        let n = word.unicode_len();
        if n == 0 {
            proof {
                self.lemma_contains(w);
            }
            return self.is_end;
        }
        let len = self.children.len();
        let mut i: usize = 0;
        while i < len
            invariant
                self.wf(),
                len == self.children@.len(),
                n == w.len(),
                w == word@,
                n > 0,
                i <= len,
                forall|j: int|
                    0 <= j < i ==> !#[trigger] through_edge(
                        self.children@[j].0@,
                        self.children@[j].1@,
                        w,
                    ),
            decreases len - i,
        {
            let label = self.children[i].0.as_str();
            let ll = label.unicode_len();
            let cp = common_prefix_len(label, word);
            if cp == ll {
                let rest = word.substring_char(ll, n);
                let r = self.children[i].1.search_lowercase(rest);
                proof {
                    let l = label@;
                    assert(l =~= w.subrange(0, ll as int));
                    self.lemma_contains(w);
                    if self@.contains(w) {
                        let j = choose|j: int|
                            0 <= j < len && #[trigger] through_edge(
                                self.children@[j].0@,
                                self.children@[j].1@,
                                w,
                            );
                        if j != i {
                            let lj = self.children@[j].0@;
                            assert(lj[0] == w.subrange(0, lj.len() as int)[0]);
                            assert(l[0] == w[0]);
                            if j < i {
                                assert(self.children@[j].0@[0] != self.children@[i as int].0@[0]);
                            } else {
                                assert(self.children@[i as int].0@[0] != self.children@[j].0@[0]);
                            }
                        }
                    }
                    if r {
                        assert(through_edge(self.children@[i as int].0@, self.children@[i as int].1@, w));
                    }
                }
                return r;
            }
            proof {
                let l = label@;
                if l.is_prefix_of(w) {
                    assert(l.subrange(0, cp as int) =~= w.subrange(0, cp as int));
                    assert(l[cp as int] == w.subrange(0, l.len() as int)[cp as int]);
                }
            }
            i = i + 1;
        }
        proof {
            self.lemma_contains(w);
        }
        false
    }

    /// Whether some word of the tree starts with `prefix`, taken exactly as
    /// given.
    pub fn starts_with_lowercase(&self, prefix: &str) -> (r: bool)
        requires
            self.wf(),
        ensures
            r == exists|w: Seq<char>| #[trigger] self@.contains(w) && prefix@.is_prefix_of(w),
        decreases prefix@.len(),
    {
        let ghost p = prefix@;
        let n = prefix.unicode_len();
        if n == 0 {
            let r = self.is_end || self.children.len() > 0;
            proof {
                if r {
                    self.lemma_nonempty();
                    let w = choose|w: Seq<char>| self@.contains(w);
                    assert(p.is_prefix_of(w));
                } else {
                    assert forall|w: Seq<char>| !self@.contains(w) by {
                        self.lemma_contains(w);
                    }
                }
            }
            return r;
        }
        let len = self.children.len();
        let mut i: usize = 0;
        while i < len
            invariant
                self.wf(),
                len == self.children@.len(),
                n == p.len(),
                p == prefix@,
                n > 0,
                i <= len,
                forall|j: int, w: Seq<char>|
                    0 <= j < i && #[trigger] through_edge(
                        self.children@[j].0@,
                        self.children@[j].1@,
                        w,
                    ) ==> !p.is_prefix_of(w),
            decreases len - i,
        {
            let label = self.children[i].0.as_str();
            let ll = label.unicode_len();
            let cp = common_prefix_len(label, prefix);
            let ghost l = label@;
            let ghost child = self.children@[i as int].1;
            if cp == n {
                proof {
                    child.lemma_nonempty();
                    let u = choose|u: Seq<char>| child@.contains(u);
                    let w = l + u;
                    assert(w.subrange(ll as int, w.len() as int) =~= u);
                    assert(l =~= w.subrange(0, ll as int));
                    assert(through_edge(self.children@[i as int].0@, self.children@[i as int].1@, w));
                    self.lemma_contains(w);
                    assert(p.subrange(0, n as int) =~= p);
                    assert forall|k: int| 0 <= k < n implies #[trigger] w[k] == p[k] by {
                        assert(l.subrange(0, n as int)[k] == l[k]);
                    }
                    assert(p =~= w.subrange(0, n as int));
                }
                return true;
            }
            if cp == ll {
                let rest = prefix.substring_char(ll, n);
                let r = self.children[i].1.starts_with_lowercase(rest);
                proof {
                    let q = rest@;
                    assert(l =~= p.subrange(0, ll as int));
                    if r {
                        let u = choose|u: Seq<char>| #[trigger] child@.contains(u) && q.is_prefix_of(u);
                        let w = l + u;
                        assert(w.subrange(ll as int, w.len() as int) =~= u);
                        assert(l =~= w.subrange(0, ll as int));
                        assert(through_edge(self.children@[i as int].0@, self.children@[i as int].1@, w));
                        self.lemma_contains(w);
                        assert forall|k: int| 0 <= k < n implies #[trigger] w[k] == p[k] by {
                            if k >= ll {
                                assert(q[k - ll] == p[k]);
                                assert(u.subrange(0, q.len() as int)[k - ll] == u[k - ll]);
                            } else {
                                assert(p.subrange(0, ll as int)[k] == p[k]);
                            }
                        }
                        assert(p =~= w.subrange(0, n as int));
                    } else {
                        assert forall|w: Seq<char>| #[trigger] self@.contains(w) implies !p.is_prefix_of(w) by {
                            self.lemma_contains(w);
                            if p.is_prefix_of(w) {
                                let j = choose|j: int|
                                    0 <= j < len && #[trigger] through_edge(
                                        self.children@[j].0@,
                                        self.children@[j].1@,
                                        w,
                                    );
                                let lj = self.children@[j].0@;
                                assert(lj[0] == w.subrange(0, lj.len() as int)[0]);
                                assert(p[0] == w.subrange(0, n as int)[0]);
                                if j < i {
                                    assert(self.children@[j].0@[0] != self.children@[i as int].0@[0]);
                                } else if j > i {
                                    assert(self.children@[i as int].0@[0] != self.children@[j].0@[0]);
                                } else {
                                    let u = w.subrange(ll as int, w.len() as int);
                                    assert(q =~= u.subrange(0, q.len() as int));
                                }
                            }
                        }
                    }
                }
                return r;
            }
            proof {
                assert forall|w: Seq<char>|
                    #[trigger] through_edge(
                        self.children@[i as int].0@,
                        self.children@[i as int].1@,
                        w,
                    ) implies !p.is_prefix_of(w) by {
                    if p.is_prefix_of(w) {
                        assert(l[cp as int] == w.subrange(0, ll as int)[cp as int]);
                        assert(p[cp as int] == w.subrange(0, n as int)[cp as int]);
                    }
                }
            }
            i = i + 1;
        }
        proof {
            assert forall|w: Seq<char>| #[trigger] self@.contains(w) implies !p.is_prefix_of(w) by {
                self.lemma_contains(w);
                if p.is_prefix_of(w) {
                    let j = choose|j: int|
                        0 <= j < len && #[trigger] through_edge(
                            self.children@[j].0@,
                            self.children@[j].1@,
                            w,
                        );
                }
            }
        }
        false
    }

    /// A well-formed node that is terminal or has an edge holds some word.
    proof fn lemma_nonempty(self)
        requires
            self.wf(),
            self.is_end || self.children@.len() > 0,
        ensures
            exists|w: Seq<char>| self@.contains(w),
        decreases self,
    {
        if self.is_end {
            self.lemma_contains(Seq::empty());
        } else {
            let e = self.children@[0];
            e.1.lemma_nonempty();
            let u = choose|u: Seq<char>| e.1@.contains(u);
            let w = e.0@ + u;
            assert(w.subrange(e.0@.len() as int, w.len() as int) =~= u);
            assert(e.0@ =~= w.subrange(0, e.0@.len() as int));
            assert(through_edge(self.children@[0].0@, self.children@[0].1@, w));
            self.lemma_contains(w);
        }
    }

    /// Every word of the tree, each written after `path`, each once.
    fn collect_all(&self, path: &String) -> (r: Vec<String>)
        requires
            self.wf(),
        ensures
            views(r@).to_set() == prefixed(path@, self@),
            views(r@).no_duplicates(),
        decreases self,
    {
        let ghost pa = path@;
        let mut r: Vec<String> = Vec::new();
        if self.is_end {
            r.push(path.clone());
        }
        proof {
            assert(views(r@).no_duplicates());
            assert forall|x: Seq<char>| #[trigger] views(r@).contains(x) == through_edge(pa, self.words_upto(0), x) by {
                let y = x.subrange(pa.len() as int, x.len() as int);
                self.lemma_contains_upto(0, y);
                if x == pa {
                    assert(y =~= Seq::<char>::empty());
                    assert(pa =~= x.subrange(0, pa.len() as int));
                }
                if pa.is_prefix_of(x) && y.len() == 0 {
                    assert(x =~= pa);
                }
                if views(r@).contains(x) {
                    assert(views(r@)[0] == x);
                }
                if self.is_end && x == pa {
                    assert(views(r@)[0] == x);
                }
            }
        }
        let len = self.children.len();
        let mut i: usize = 0;
        while i < len
            invariant
                self.wf(),
                len == self.children@.len(),
                pa == path@,
                i <= len,
                views(r@).no_duplicates(),
                forall|x: Seq<char>| #[trigger] views(r@).contains(x) == through_edge(pa, self.words_upto(i as int), x),
            decreases len - i,
        {
            let mut sub_path = path.clone();
            sub_path.append(self.children[i].0.as_str());
            let mut sub = self.children[i].1.collect_all(&sub_path);
            let ghost old_r = views(r@);
            let ghost new_part = views(sub@);
            let ghost l = self.children@[i as int].0@;
            let ghost child = self.children@[i as int].1;
            r.append(&mut sub);
            proof {
                assert(views(r@) =~= old_r + new_part);
                assert forall|x: Seq<char>| #[trigger] new_part.contains(x) == (pa.is_prefix_of(x)
                    && through_edge(l, child@, x.subrange(pa.len() as int, x.len() as int))) by {
                    lemma_prefixed_contains(pa + l, child@, x);
                    lemma_through_concat(pa, l, child@, x);
                }
                assert forall|x: Seq<char>| #[trigger] views(r@).contains(x) == through_edge(pa, self.words_upto(i + 1), x) by {
                    let y = x.subrange(pa.len() as int, x.len() as int);
                    lemma_prefixed_contains(l, child@, y);
                    if views(r@).contains(x) {
                        let k = choose|k: int| 0 <= k < views(r@).len() && views(r@)[k] == x;
                        if k < old_r.len() {
                            assert(old_r.contains(x));
                        } else {
                            assert(new_part[k - old_r.len()] == x);
                            assert(new_part.contains(x));
                        }
                    }
                    if old_r.contains(x) {
                        let k = choose|k: int| 0 <= k < old_r.len() && old_r[k] == x;
                        assert(views(r@)[k] == x);
                    }
                    if new_part.contains(x) {
                        let k = choose|k: int| 0 <= k < new_part.len() && new_part[k] == x;
                        assert(views(r@)[old_r.len() + k] == x);
                    }
                }
                assert forall|a: int, b: int|
                    0 <= a < old_r.len() && 0 <= b < new_part.len() implies old_r[a] != new_part[b] by {
                    let x = new_part[b];
                    assert(new_part.contains(x));
                    if old_r[a] == x {
                        assert(old_r.contains(x));
                        let y = x.subrange(pa.len() as int, x.len() as int);
                        self.lemma_contains_upto(i as int, y);
                        assert(l.len() > 0);
                        assert(y[0] == l[0]);
                        if y.len() > 0 {
                            let j = choose|j: int| 0 <= j < i && #[trigger] through_edge(
                                self.children@[j].0@,
                                self.children@[j].1@,
                                y,
                            );
                            let lj = self.children@[j].0@;
                            assert(lj[0] == y.subrange(0, lj.len() as int)[0]);
                            assert(self.children@[j].0@[0] != self.children@[i as int].0@[0]);
                        }
                    }
                }
                assert(views(r@).no_duplicates()) by {
                    assert forall|a: int, b: int|
                        0 <= a < views(r@).len() && 0 <= b < views(r@).len() && a != b implies
                        views(r@)[a] != views(r@)[b] by {
                        if a < old_r.len() && b >= old_r.len() {
                            assert(old_r[a] != new_part[b - old_r.len()]);
                        } else if b < old_r.len() && a >= old_r.len() {
                            assert(old_r[b] != new_part[a - old_r.len()]);
                        } else if a < old_r.len() {
                            assert(old_r[a] != old_r[b]);
                        } else {
                            assert(new_part[a - old_r.len()] != new_part[b - old_r.len()]);
                        }
                    }
                }
            }
            i = i + 1;
        }
        proof {
            assert forall|x: Seq<char>| #[trigger] views(r@).to_set().contains(x) == prefixed(pa, self@).contains(x) by {
                lemma_prefixed_contains(pa, self@, x);
            }
            assert(views(r@).to_set() =~= prefixed(pa, self@));
        }
        r
    }

    /// A non-empty word whose first character is that of edge `i` can only
    /// be held through edge `i`.
    proof fn lemma_only_edge(self, i: int, w: Seq<char>)
        requires
            self.wf(),
            0 <= i < self.children@.len(),
            w.len() > 0,
            w[0] == self.children@[i].0@[0],
        ensures
            self@.contains(w) == through_edge(self.children@[i].0@, self.children@[i].1@, w),
    {
        self.lemma_contains(w);
        if self@.contains(w) {
            let j = choose|j: int|
                0 <= j < self.children@.len() && #[trigger] through_edge(
                    self.children@[j].0@,
                    self.children@[j].1@,
                    w,
                );
            let lj = self.children@[j].0@;
            assert(lj[0] == w.subrange(0, lj.len() as int)[0]);
            if j < i {
                assert(self.children@[j].0@[0] != self.children@[i].0@[0]);
            } else if j > i {
                assert(self.children@[i].0@[0] != self.children@[j].0@[0]);
            }
        }
    }

    /// The words of the tree that start with `prefix`, each written after
    /// `path`, each once.
    fn collect_helper(&self, prefix: &str, path: &String) -> (r: Vec<String>)
        requires
            self.wf(),
        ensures
            views(r@).to_set() == prefixed(path@, with_prefix(self@, prefix@)),
            views(r@).no_duplicates(),
        decreases prefix@.len(),
    {
        let ghost p = prefix@;
        let ghost pa = path@;
        let n = prefix.unicode_len();
        if n == 0 {
            proof {
                assert(with_prefix(self@, p) =~= self@);
            }
            return self.collect_all(path);
        }
        let len = self.children.len();
        let mut i: usize = 0;
        while i < len
            invariant
                self.wf(),
                len == self.children@.len(),
                n == p.len(),
                p == prefix@,
                pa == path@,
                n > 0,
                i <= len,
                forall|j: int, w: Seq<char>|
                    0 <= j < i && #[trigger] through_edge(
                        self.children@[j].0@,
                        self.children@[j].1@,
                        w,
                    ) ==> !p.is_prefix_of(w),
            decreases len - i,
        {
            let label = self.children[i].0.as_str();
            let ll = label.unicode_len();
            let cp = common_prefix_len(label, prefix);
            let ghost l = label@;
            let ghost child = self.children@[i as int].1;
            if cp == n || cp == ll {
                let mut sub_path = path.clone();
                sub_path.append(label);
                let r = if cp == n {
                    self.children[i].1.collect_all(&sub_path)
                } else {
                    self.children[i].1.collect_helper(prefix.substring_char(ll, n), &sub_path)
                };
                proof {
                    let q = p.subrange(ll as int, n as int);
                    let inner = if cp == n { child@ } else { with_prefix(child@, q) };
                    assert(self.children@[i as int].0@.len() > 0);
                    assert(l.subrange(0, cp as int)[0] == p.subrange(0, cp as int)[0]);
                    // The words that start with the prefix are those through this edge.
                    assert forall|y: Seq<char>| #[trigger] with_prefix(self@, p).contains(y)
                        == through_edge(l, inner, y) by {
                        let u = y.subrange(ll as int, y.len() as int);
                        if p.is_prefix_of(y) {
                            assert(p[0] == y.subrange(0, n as int)[0]);
                            self.lemma_only_edge(i as int, y);
                        }
                        if through_edge(l, inner, y) {
                            assert(l[0] == y.subrange(0, ll as int)[0]);
                            self.lemma_only_edge(i as int, y);
                            assert(through_edge(l, child@, y));
                            assert forall|k: int| 0 <= k < n implies #[trigger] y[k] == p[k] by {
                                if k < cp {
                                    assert(l.subrange(0, cp as int)[k] == p.subrange(0, cp as int)[k]);
                                    assert(y.subrange(0, ll as int)[k] == y[k]);
                                } else {
                                    assert(u.subrange(0, q.len() as int)[k - ll] == q[k - ll]);
                                }
                            }
                            assert(p =~= y.subrange(0, n as int));
                        }
                        if cp < n && p.is_prefix_of(y) && self@.contains(y) {
                            assert(q =~= u.subrange(0, q.len() as int)) by {
                                assert forall|k: int| 0 <= k < q.len() implies #[trigger] q[k] == u[k] by {
                                    assert(y.subrange(0, n as int)[ll + k] == p[ll + k]);
                                }
                            }
                        }
                    }
                    assert forall|x: Seq<char>| #[trigger] views(r@).to_set().contains(x)
                        == prefixed(pa, with_prefix(self@, p)).contains(x) by {
                        lemma_prefixed_contains(pa + l, inner, x);
                        lemma_through_concat(pa, l, inner, x);
                        lemma_prefixed_contains(pa, with_prefix(self@, p), x);
                        if cp == n {
                            assert(prefixed(pa + l, child@) == views(r@).to_set());
                        } else {
                            assert(with_prefix(child@, prefix@.subrange(ll as int, n as int))
                                == with_prefix(child@, q));
                        }
                    }
                    assert(views(r@).to_set() =~= prefixed(pa, with_prefix(self@, p)));
                }
                return r;
            }
            proof {
                assert forall|w: Seq<char>|
                    #[trigger] through_edge(
                        self.children@[i as int].0@,
                        self.children@[i as int].1@,
                        w,
                    ) implies !p.is_prefix_of(w) by {
                    if p.is_prefix_of(w) {
                        assert(l[cp as int] == w.subrange(0, ll as int)[cp as int]);
                        assert(p[cp as int] == w.subrange(0, n as int)[cp as int]);
                    }
                }
            }
            i = i + 1;
        }
        let r: Vec<String> = Vec::new();
        proof {
            assert forall|w: Seq<char>| !#[trigger] with_prefix(self@, p).contains(w) by {
                self.lemma_contains(w);
            }
            assert(with_prefix(self@, p) =~= Set::<Seq<char>>::empty());
            assert forall|x: Seq<char>| !#[trigger] prefixed(pa, Set::<Seq<char>>::empty()).contains(x) by {
                lemma_prefixed_contains(pa, Set::<Seq<char>>::empty(), x);
            }
            assert(views(r@).to_set() =~= prefixed(pa, with_prefix(self@, p)));
        }
        r
    }

    /// The words of the tree that start with `prefix`, taken exactly as given,
    /// each once, in no particular order.
    pub fn collect_lowercase(&self, prefix: &str) -> (r: Vec<String>)
        requires
            self.wf(),
        ensures
            views(r@).to_set() == with_prefix(self@, prefix@),
            views(r@).no_duplicates(),
    {
        let r = self.collect_helper(prefix, &String::new());
        proof {
            let ws = with_prefix(self@, prefix@);
            assert forall|x: Seq<char>| #[trigger] prefixed(Seq::empty(), ws).contains(x) == ws.contains(x) by {
                lemma_prefixed_contains(Seq::empty(), ws, x);
                assert(x.subrange(0, x.len() as int) =~= x);
            }
            assert(prefixed(Seq::empty(), ws) =~= ws);
        }
        r
    }

    /// Adds the lowercase form of `word`.
    pub fn insert(&mut self, word: &str)
        requires
            old(self).wf(),
        ensures
            final(self).wf(),
            final(self)@ == old(self)@.insert(lower_of(word@)),
    {
        let lower = lowercase(word);
        self.insert_lowercase(lower.as_str());
    }

    /// Whether the lowercase form of `word` is one of the tree's words.
    pub fn search(&self, word: &str) -> (r: bool)
        requires
            self.wf(),
        ensures
            r == self@.contains(lower_of(word@)),
    {
        let lower = lowercase(word);
        self.search_lowercase(lower.as_str())
    }

    /// Whether some word of the tree starts with the lowercase form of
    /// `prefix`.
    pub fn starts_with(&self, prefix: &str) -> (r: bool)
        requires
            self.wf(),
        ensures
            r == exists|w: Seq<char>| #[trigger] self@.contains(w) && lower_of(prefix@).is_prefix_of(w),
    {
        let lower = lowercase(prefix);
        self.starts_with_lowercase(lower.as_str())
    }

    /// The words of the tree that start with the lowercase form of `prefix`,
    /// each once, in no particular order; under the empty prefix, every word.
    pub fn collect(&self, prefix: &str) -> (r: Vec<String>)
        requires
            self.wf(),
        ensures
            views(r@).to_set() == with_prefix(self@, lower_of(prefix@)),
            views(r@).no_duplicates(),
            prefix@.len() == 0 ==> views(r@).to_set() == self@,
    {
        let lower = lowercase(prefix);
        let r = self.collect_lowercase(lower.as_str());
        proof {
            if prefix@.len() == 0 {
                assert(lower@ =~= Seq::<char>::empty());
                assert(with_prefix(self@, lower@) =~= self@);
            }
        }
        r
    }
}

impl View for RadixNode {
    type V = Set<Seq<char>>;

    /// The set of words held by the tree.
    closed spec fn view(&self) -> Set<Seq<char>> {
        self.words_upto(self.children@.len() as int)
    }
}

/// Splitting the edge `l` after `c` characters, with the word `w` added
/// below the split, gives an edge that holds what `l` held, and `w`.
proof fn lemma_split_edge(
    l: Seq<char>,
    c: int,
    w: Seq<char>,
    below: Set<Seq<char>>,
    mid: Set<Seq<char>>,
    mid_with_w: Set<Seq<char>>,
)
    requires
        0 < c <= l.len(),
        c <= w.len(),
        l.subrange(0, c) == w.subrange(0, c),
        c == l.len() ==> mid == below,
        c < l.len() ==> forall|u: Seq<char>| #[trigger] mid.contains(u) == through_edge(
            l.subrange(c, l.len() as int),
            below,
            u,
        ),
        forall|u: Seq<char>| #[trigger]
            mid_with_w.contains(u) == (mid.contains(u) || u == w.subrange(c, w.len() as int)),
    ensures
        forall|v: Seq<char>| #[trigger]
            through_edge(l.subrange(0, c), mid_with_w, v) == (through_edge(l, below, v) || v == w),
{
    let h = l.subrange(0, c);
    assert forall|v: Seq<char>| #[trigger]
        through_edge(h, mid_with_w, v) == (through_edge(l, below, v) || v == w) by {
        let rest = v.subrange(c, v.len() as int);
        let t = l.subrange(c, l.len() as int);
        if through_edge(l, below, v) {
            assert(h =~= v.subrange(0, c));
            if c < l.len() {
                assert(t =~= rest.subrange(0, t.len() as int));
                assert(rest.subrange(t.len() as int, rest.len() as int) =~= v.subrange(
                    l.len() as int,
                    v.len() as int,
                ));
                assert(through_edge(t, below, rest));
            } else {
                assert(h =~= l);
            }
            assert(mid.contains(rest));
        }
        if v == w {
            assert(h =~= v.subrange(0, c));
            assert(mid_with_w.contains(rest));
        }
        if through_edge(h, mid_with_w, v) && v != w {
            if rest == w.subrange(c, w.len() as int) {
                assert forall|k: int| 0 <= k < v.len() implies #[trigger] v[k] == w[k] by {
                    if k >= c {
                        assert(rest[k - c] == v[k]);
                        assert(w.subrange(c, w.len() as int)[k - c] == w[k]);
                    } else {
                        assert(h[k] == v[k]);
                    }
                }
                assert(v =~= w);
            }
            assert(mid.contains(rest));
            if c < l.len() {
                assert(through_edge(t, below, rest));
                assert forall|k: int| 0 <= k < l.len() implies #[trigger] v[k] == l[k] by {
                    if k >= c {
                        assert(rest[k - c] == t[k - c]);
                    } else {
                        assert(h[k] == v[k]);
                    }
                }
                assert(l =~= v.subrange(0, l.len() as int));
                assert(rest.subrange(t.len() as int, rest.len() as int) =~= v.subrange(
                    l.len() as int,
                    v.len() as int,
                ));
            } else {
                assert(h =~= l);
            }
        }
    }
}

proof fn lemma_through_concat(a: Seq<char>, b: Seq<char>, ws: Set<Seq<char>>, x: Seq<char>)
    ensures
        through_edge(a + b, ws, x) == (a.is_prefix_of(x) && through_edge(
            b,
            ws,
            x.subrange(a.len() as int, x.len() as int),
        )),
{
    let y = x.subrange(a.len() as int, x.len() as int);
    if through_edge(a + b, ws, x) {
        assert(a =~= x.subrange(0, a.len() as int)) by {
            assert forall|k: int| 0 <= k < a.len() implies #[trigger] x[k] == a[k] by {
                assert((a + b)[k] == x.subrange(0, (a + b).len() as int)[k]);
            }
        }
        assert(b =~= y.subrange(0, b.len() as int)) by {
            assert forall|k: int| 0 <= k < b.len() implies #[trigger] y[k] == b[k] by {
                assert((a + b)[a.len() + k] == x.subrange(0, (a + b).len() as int)[a.len() + k]);
            }
        }
        assert(y.subrange(b.len() as int, y.len() as int) =~= x.subrange((a + b).len() as int, x.len() as int));
    }
    if a.is_prefix_of(x) && through_edge(b, ws, y) {
        assert((a + b) =~= x.subrange(0, (a + b).len() as int)) by {
            assert forall|k: int| 0 <= k < (a + b).len() implies #[trigger] x[k] == (a + b)[k] by {
                if k >= a.len() {
                    assert(y.subrange(0, b.len() as int)[k - a.len()] == y[k - a.len()]);
                } else {
                    assert(x.subrange(0, a.len() as int)[k] == x[k]);
                }
            }
        }
        assert(y.subrange(b.len() as int, y.len() as int) =~= x.subrange((a + b).len() as int, x.len() as int));
    }
}

proof fn lemma_prefixed_contains(label: Seq<char>, ws: Set<Seq<char>>, w: Seq<char>)
    ensures
        prefixed(label, ws).contains(w) == through_edge(label, ws, w),
{
    if through_edge(label, ws, w) {
        let u = w.subrange(label.len() as int, w.len() as int);
        assert(label + u =~= w);
    }
    if prefixed(label, ws).contains(w) {
        let u = choose|u: Seq<char>| ws.contains(u) && w == label + u;
        assert(label =~= w.subrange(0, label.len() as int));
        assert(u =~= w.subrange(label.len() as int, w.len() as int));
    }
}

/// Number of leading characters that `a` and `b` share.
pub fn common_prefix_len(a: &str, b: &str) -> (r: usize)
    ensures
        r <= a@.len(),
        r <= b@.len(),
        a@.subrange(0, r as int) == b@.subrange(0, r as int),
        r < a@.len() && r < b@.len() ==> a@[r as int] != b@[r as int],
{
    let la = a.unicode_len();
    let lb = b.unicode_len();
    let mut i: usize = 0;
    while i < la && i < lb && a.get_char(i) == b.get_char(i)
        invariant
            la == a@.len(),
            lb == b@.len(),
            i <= la,
            i <= lb,
            a@.subrange(0, i as int) == b@.subrange(0, i as int),
        decreases la - i,
    {
        assert(a@.subrange(0, i + 1) == a@.subrange(0, i as int).push(a@[i as int]));
        assert(b@.subrange(0, i + 1) == b@.subrange(0, i as int).push(b@[i as int]));
        i = i + 1;
    }
    i
}

/// After a run of insertions the tree holds what it held before and the
/// lowercase form of each inserted word, and nothing else: every inserted
/// word is found, and a word that was neither there nor inserted is not.
pub proof fn lemma_inserted_words_found(start: Set<Seq<char>>, ws: Seq<Seq<char>>)
    ensures
        forall|k: int| 0 <= k < ws.len() ==> after_inserts(start, ws).contains(lower_of(#[trigger] ws[k])),
        forall|v: Seq<char>| #[trigger]
            after_inserts(start, ws).contains(v) == (start.contains(v) || lowered(ws).contains(v)),
    decreases ws.len(),
{
    if ws.len() > 0 {
        let init = ws.drop_last();
        lemma_inserted_words_found(start, init);
        assert forall|v: Seq<char>| #[trigger] lowered(ws).contains(v) == (lowered(init).contains(v)
            || v == lower_of(ws.last())) by {
            let f = |w: Seq<char>| lower_of(w);
            if lowered(ws).contains(v) {
                let k = choose|k: int| 0 <= k < ws.len() && ws.map_values(f)[k] == v;
                if k < init.len() {
                    assert(init.map_values(f)[k] == v);
                }
            }
            if lowered(init).contains(v) {
                let k = choose|k: int| 0 <= k < init.len() && init.map_values(f)[k] == v;
                assert(ws.map_values(f)[k] == v);
            }
            if v == lower_of(ws.last()) {
                assert(ws.map_values(f)[ws.len() - 1] == v);
            }
        }
        assert forall|k: int| 0 <= k < ws.len() implies after_inserts(start, ws).contains(
            lower_of(#[trigger] ws[k]),
        ) by {
            if k < init.len() {
                assert(init[k] == ws[k]);
            }
        }
        assert forall|v: Seq<char>| #[trigger] after_inserts(start, ws).contains(v) == (start.contains(v)
            || lowered(ws).contains(v)) by {
            assert(after_inserts(start, ws) == after_inserts(start, init).insert(lower_of(ws.last())));
        }
    } else {
        assert forall|v: Seq<char>| !#[trigger] lowered(ws).contains(v) by {
            assert(ws.map_values(|w: Seq<char>| lower_of(w)).len() == 0);
        }
    }
}

/// Inserting each word of `ws` into an empty tree and collecting under the
/// empty prefix gives exactly the lowercase forms of the words.
pub proof fn lemma_collect_everything(ws: Seq<Seq<char>>)
    ensures
        with_prefix(after_inserts(Set::empty(), ws), Seq::empty()) == lowered(ws),
{
    lemma_inserted_words_found(Set::empty(), ws);
    assert(with_prefix(after_inserts(Set::empty(), ws), Seq::empty()) =~= lowered(ws));
}

/// Inserting each word of `ws` into an empty tree and collecting under `p`
/// gives the lowercase forms of the words that start with the lowercase form
/// of `p`.
pub proof fn lemma_collect_after_inserts(ws: Seq<Seq<char>>, p: Seq<char>)
    ensures
        with_prefix(after_inserts(Set::empty(), ws), lower_of(p)) == with_prefix(
            lowered(ws),
            lower_of(p),
        ),
{
    lemma_inserted_words_found(Set::empty(), ws);
    assert(with_prefix(after_inserts(Set::empty(), ws), lower_of(p)) =~= with_prefix(
        lowered(ws),
        lower_of(p),
    ));
}

/// Inserting the same word `n >= 1` times leaves the tree holding the same
/// words as inserting it once.
pub proof fn lemma_insert_idempotent(start: Set<Seq<char>>, w: Seq<char>, n: nat)
    requires
        n >= 1,
    ensures
        after_inserts(start, Seq::new(n, |i: int| w)) == after_inserts(start, seq![w]),
    decreases n,
{
    let ws = Seq::new(n, |i: int| w);
    assert(seq![w].drop_last() =~= Seq::<Seq<char>>::empty());
    if n > 1 {
        lemma_insert_idempotent(start, w, (n - 1) as nat);
        assert(ws.drop_last() =~= Seq::new((n - 1) as nat, |i: int| w));
        assert(after_inserts(start, ws) =~= after_inserts(start, seq![w]));
    } else {
        assert(ws =~= seq![w]);
    }
}

} // verus!
