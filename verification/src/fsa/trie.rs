//! The first phase of the automaton build: a plain trie over the keys,
//! each node carrying the value of the key that ends there. Later inserts
//! of the same key overwrite earlier ones.

use vstd::prelude::*;

verus! {

/// A trie node: the value of the key ending here, and the children in
/// strictly increasing label order.
pub struct TrieNode {
    pub value: Option<u64>,
    pub kids: Vec<(u8, TrieNode)>,
}

/// Children labels strictly increase, recursively.
pub open spec fn twf(n: TrieNode) -> bool
    decreases n,
{
    &&& forall|i: int, j: int|
        0 <= i < j < n.kids@.len() ==> #[trigger] n.kids@[i].0 < #[trigger] n.kids@[j].0
    &&& forall|i: int| 0 <= i < n.kids@.len() ==> twf(#[trigger] n.kids@[i].1)
}

/// Every node has a value or a child, down the whole trie: every node
/// lies on the path of some key.
pub open spec fn tlive(n: TrieNode) -> bool
    decreases n,
{
    &&& (n.value is Some || n.kids@.len() > 0)
    &&& forall|i: int| 0 <= i < n.kids@.len() ==> tlive(#[trigger] n.kids@[i].1)
}

/// Every child of `n` is live (`n` itself may be empty).
pub open spec fn kids_live(n: TrieNode) -> bool {
    forall|i: int| 0 <= i < n.kids@.len() ==> tlive(#[trigger] n.kids@[i].1)
}

} // verus!

verus! {

/// The larger of `a` and `c`.
pub open spec fn nat_max(a: nat, c: nat) -> nat {
    if a >= c {
        a
    } else {
        c
    }
}

/// Labels of `n`'s children strictly increase (not looking deeper).
pub open spec fn labels_sorted(n: TrieNode) -> bool {
    forall|i: int, j: int|
        0 <= i < j < n.kids@.len() ==> #[trigger] n.kids@[i].0 < #[trigger] n.kids@[j].0
}

/// `n` has a child under label `b`.
pub open spec fn has_kid(n: TrieNode, b: u8) -> bool {
    exists|i: int| 0 <= i < n.kids@.len() && #[trigger] n.kids@[i].0 == b
}

/// The position of the child under label `b` (meaningful when there is
/// one).
pub open spec fn kid_index(n: TrieNode, b: u8) -> int {
    choose|i: int| 0 <= i < n.kids@.len() && #[trigger] n.kids@[i].0 == b
}

/// The value the trie rooted at `n` holds for `k`.
pub open spec fn tget(n: TrieNode, k: Seq<u8>) -> Option<u64>
    decreases k.len(),
{
    if k.len() == 0 {
        n.value
    } else if has_kid(n, k[0]) {
        tget(n.kids@[kid_index(n, k[0])].1, k.drop_first())
    } else {
        None
    }
}

/// With sorted labels, the child under the label at `j` is the one at
/// `j`.
pub proof fn lemma_kid_index(n: TrieNode, j: int)
    requires
        labels_sorted(n),
        0 <= j < n.kids@.len(),
    ensures
        has_kid(n, n.kids@[j].0),
        kid_index(n, n.kids@[j].0) == j,
{
    let b = n.kids@[j].0;
    assert(n.kids@[j].0 == b);
    let i = kid_index(n, b);
    if i < j {
        assert(n.kids@[i].0 < n.kids@[j].0);
    } else if i > j {
        assert(n.kids@[j].0 < n.kids@[i].0);
    }
}

proof fn lemma_cons_skip(k: Seq<u8>, s: Seq<u8>, pos: int)
    requires
        0 <= pos < s.len(),
        k.len() > 0,
        k[0] == s[pos],
        k.drop_first() == s.skip(pos + 1),
    ensures
        k == s.skip(pos),
{
    assert(k.drop_first().len() == k.len() - 1);
    assert(s.skip(pos + 1).len() == s.len() - pos - 1);
    assert(k.len() == s.skip(pos).len());
    assert forall|t: int| 0 <= t < k.len() implies k[t] == s.skip(pos)[t] by {
        if t > 0 {
            assert(k[t] == k.drop_first()[t - 1]);
        }
    }
    assert(k =~= s.skip(pos));
}

impl TrieNode {
    /// A node with no value and no children.
    pub fn empty() -> (r: TrieNode)
        ensures
            twf(r),
            r.value is None,
            r.kids@.len() == 0,
            tsize(r) == 1,
            theight(r) == 0,
            forall|k: Seq<u8>| #[trigger] tget(r, k) is None,
    {
        let r = TrieNode { value: None, kids: Vec::new() };
        assert forall|k: Seq<u8>| #[trigger] tget(r, k) is None by {
            if k.len() > 0 {
                assert(!has_kid(r, k[0]));
            }
        }
        r
    }
}

/// Store `value` for the key `key[pos..]` under `n`, overwriting any
/// value the key had.
#[verifier::spinoff_prover]
#[verifier::rlimit(40)]
pub fn insert_at(n: &mut TrieNode, key: &[u8], pos: usize, value: u64)
    requires
        twf(*old(n)),
        kids_live(*old(n)),
        pos <= key@.len(),
    ensures
        twf(*final(n)),
        tlive(*final(n)),
        forall|k: Seq<u8>| #[trigger]
            tget(*final(n), k) == if k == key@.skip(pos as int) {
                Some(value)
            } else {
                tget(*old(n), k)
            },
        tsize(*final(n)) <= tsize(*old(n)) + key@.len() - pos,
        theight(*final(n)) <= nat_max(theight(*old(n)), (key@.len() - pos) as nat),
    decreases key@.len() - pos,
{
    let ghost n0 = *n;
    if pos == key.len() {
        n.value = Some(value);
        proof {
            assert forall|k: Seq<u8>| #[trigger]
                tget(*n, k) == if k == key@.skip(pos as int) {
                    Some(value)
                } else {
                    tget(n0, k)
                } by {
                if k.len() == 0 {
                    assert(k =~= key@.skip(pos as int));
                } else {
                    assert(k != key@.skip(pos as int));
                    assert(has_kid(*n, k[0]) == has_kid(n0, k[0]));
                }
            }
        }
        return;
    }
    let b = key[pos];
    let mut i: usize = 0;
    while i < n.kids.len() && n.kids[i].0 < b
        invariant
            *n == n0,
            i <= n.kids@.len(),
            forall|j: int| 0 <= j < i ==> #[trigger] n.kids@[j].0 < b,
        decreases n.kids@.len() - i,
    {
        i = i + 1;
    }
    if i < n.kids.len() && n.kids[i].0 == b {
        let ghost c0 = n.kids@[i as int].1;
        assert(twf(c0));
        assert(tlive(c0));
        assert(kids_live(c0));
        insert_at(&mut n.kids[i].1, key, pos + 1, value);
        proof {
            let n1 = *n;
            let c1 = n1.kids@[i as int].1;
            assert(n1.kids@ == n0.kids@.update(i as int, (b, c1)));
            lemma_tsize_kids_update(n0.kids@, 0, i as int, (b, c1));
            let h = nat_max(theight(n0), (key@.len() - pos) as nat);
            lemma_theight_kid(n0.kids@, 0, i as int);
            lemma_theight_kids_update(n0.kids@, 0, i as int, (b, c1), h);
            assert(labels_sorted(n1));
            assert forall|j: int| 0 <= j < n1.kids@.len() implies twf(#[trigger] n1.kids@[j].1) by {
                if j != i {
                    assert(n1.kids@[j] == n0.kids@[j]);
                }
            }
            assert(twf(n1));
            assert forall|j: int| 0 <= j < n1.kids@.len() implies tlive(#[trigger] n1.kids@[j].1) by {
                if j != i {
                    assert(n1.kids@[j] == n0.kids@[j]);
                }
            }
            assert(tlive(n1));
            assert forall|k: Seq<u8>| #[trigger]
                tget(n1, k) == if k == key@.skip(pos as int) {
                    Some(value)
                } else {
                    tget(n0, k)
                } by {
                if k.len() == 0 {
                    assert(k != key@.skip(pos as int));
                } else if k[0] == b {
                    lemma_kid_index(n1, i as int);
                    lemma_kid_index(n0, i as int);
                    assert(tget(n1, k) == tget(c1, k.drop_first()));
                    assert(tget(n0, k) == tget(c0, k.drop_first()));
                    assert(k.drop_first() == key@.skip(pos + 1) <==> k == key@.skip(pos as int)) by {
                        assert(key@.skip(pos as int)[0] == b);
                        if k.drop_first() == key@.skip(pos + 1) {
                            lemma_cons_skip(k, key@, pos as int);
                        }
                        if k == key@.skip(pos as int) {
                            assert(k.drop_first() =~= key@.skip(pos + 1));
                        }
                    }
                } else {
                    assert(k != key@.skip(pos as int));
                    if has_kid(n0, k[0]) {
                        let j = kid_index(n0, k[0]);
                        lemma_kid_index(n0, j);
                        lemma_kid_index(n1, j);
                        assert(n1.kids@[j] == n0.kids@[j]);
                    }
                    if has_kid(n1, k[0]) {
                        let j = kid_index(n1, k[0]);
                        assert(n1.kids@[j] == n0.kids@[j]);
                        assert(has_kid(n0, k[0]));
                    }
                }
            }
        }
    } else {
        let mut child = TrieNode::empty();
        let ghost c0 = child;
        insert_at(&mut child, key, pos + 1, value);
        let ghost c1 = child;
        n.kids.insert(i, (b, child));
        proof {
            let n1 = *n;
            assert(n1.kids@ == n0.kids@.insert(i as int, (b, c1)));
            lemma_tsize_kids_insert(n0.kids@, 0, i as int, (b, c1));
            let h = nat_max(theight(n0), (key@.len() - pos) as nat);
            lemma_theight_kids_insert(n0.kids@, 0, i as int, (b, c1), h);
            assert(forall|j: int| i <= j < n0.kids@.len() ==> #[trigger] n0.kids@[j].0 > b) by {
                assert forall|j: int| i <= j < n0.kids@.len() implies #[trigger] n0.kids@[j].0 > b by {
                    if j > i {
                        assert(n0.kids@[i as int].0 < n0.kids@[j].0);
                    }
                }
            }
            assert(labels_sorted(n1)) by {
                assert forall|x: int, y: int| 0 <= x < y < n1.kids@.len() implies #[trigger] n1.kids@[x].0
                    < #[trigger] n1.kids@[y].0 by {
                    if y < i {
                        assert(n0.kids@[x].0 < n0.kids@[y].0);
                    } else if y == i {
                    } else if x < i {
                        assert(n1.kids@[y] == n0.kids@[y - 1]);
                    } else if x == i {
                        assert(n1.kids@[y] == n0.kids@[y - 1]);
                    } else {
                        assert(n0.kids@[x - 1].0 < n0.kids@[y - 1].0);
                    }
                }
            }
            assert forall|j: int| 0 <= j < n1.kids@.len() implies twf(#[trigger] n1.kids@[j].1) by {
                if j < i {
                    assert(n1.kids@[j] == n0.kids@[j]);
                } else if j > i {
                    assert(n1.kids@[j] == n0.kids@[j - 1]);
                }
            }
            assert(twf(n1));
            assert forall|j: int| 0 <= j < n1.kids@.len() implies tlive(#[trigger] n1.kids@[j].1) by {
                if j < i {
                    assert(n1.kids@[j] == n0.kids@[j]);
                } else if j > i {
                    assert(n1.kids@[j] == n0.kids@[j - 1]);
                }
            }
            assert(tlive(n1));
            assert forall|k: Seq<u8>| #[trigger]
                tget(n1, k) == if k == key@.skip(pos as int) {
                    Some(value)
                } else {
                    tget(n0, k)
                } by {
                if k.len() == 0 {
                    assert(k != key@.skip(pos as int));
                } else if k[0] == b {
                    lemma_kid_index(n1, i as int);
                    assert(!has_kid(n0, b)) by {
                        if has_kid(n0, b) {
                            let j = kid_index(n0, b);
                            assert(n0.kids@[j].0 == b);
                        }
                    }
                    assert(tget(c1, k.drop_first()) == if k.drop_first() == key@.skip(pos + 1) {
                        Some(value)
                    } else {
                        tget(c0, k.drop_first())
                    });
                    assert(tget(c0, k.drop_first()) is None);
                    assert(k.drop_first() == key@.skip(pos + 1) <==> k == key@.skip(pos as int)) by {
                        assert(key@.skip(pos as int)[0] == b);
                        if k.drop_first() == key@.skip(pos + 1) {
                            lemma_cons_skip(k, key@, pos as int);
                        }
                        if k == key@.skip(pos as int) {
                            assert(k.drop_first() =~= key@.skip(pos + 1));
                        }
                    }
                } else {
                    assert(k != key@.skip(pos as int));
                    if has_kid(n0, k[0]) {
                        let j = kid_index(n0, k[0]);
                        lemma_kid_index(n0, j);
                        if j < i {
                            lemma_kid_index(n1, j);
                            assert(n1.kids@[j] == n0.kids@[j]);
                        } else {
                            lemma_kid_index(n1, j + 1);
                            assert(n1.kids@[j + 1] == n0.kids@[j]);
                        }
                    }
                    if has_kid(n1, k[0]) {
                        let j = kid_index(n1, k[0]);
                        if j < i {
                            assert(n1.kids@[j] == n0.kids@[j]);
                        } else {
                            assert(j != i);
                            assert(n1.kids@[j] == n0.kids@[j - 1]);
                        }
                        assert(has_kid(n0, k[0]));
                    }
                }
            }
        }
    }
}

} // verus!

verus! {

/// Number of nodes of the trie rooted at `n`.
pub open spec fn tsize(n: TrieNode) -> nat
    decreases n, 1nat, 0nat,
{
    1 + tsize_kids(n.kids@, 0)
}

/// Number of nodes under the children `kids[i..]`.
pub open spec fn tsize_kids(kids: Seq<(u8, TrieNode)>, i: int) -> nat
    decreases kids, 0nat, kids.len() - i,
{
    if i < 0 || i >= kids.len() {
        0
    } else {
        tsize(kids[i].1) + tsize_kids(kids, i + 1)
    }
}

/// The values of the trie rooted at `n` in key order: a node's own
/// value first, then its children's by increasing label.
pub open spec fn tvals(n: TrieNode) -> Seq<u64>
    decreases n, 1nat, 0nat,
{
    (match n.value {
        Some(v) => seq![v],
        None => Seq::empty(),
    }) + tvals_kids(n.kids@, 0)
}

/// The values under the children `kids[i..]`, in key order.
pub open spec fn tvals_kids(kids: Seq<(u8, TrieNode)>, i: int) -> Seq<u64>
    decreases kids, 0nat, kids.len() - i,
{
    if i < 0 || i >= kids.len() {
        Seq::empty()
    } else {
        tvals(kids[i].1) + tvals_kids(kids, i + 1)
    }
}

} // verus!

verus! {

proof fn lemma_tsize_kids_update(kids: Seq<(u8, TrieNode)>, j: int, i: int, x: (u8, TrieNode))
    requires
        0 <= j <= i < kids.len(),
    ensures
        tsize_kids(kids.update(i, x), j) == tsize_kids(kids, j) - tsize(kids[i].1) + tsize(x.1),
    decreases i - j,
{
    let k2 = kids.update(i, x);
    if j < i {
        lemma_tsize_kids_update(kids, j + 1, i, x);
        assert(k2[j] == kids[j]);
    } else {
        lemma_tsize_kids_same_tail(kids, k2, j + 1);
    }
}

proof fn lemma_tsize_kids_same_tail(a: Seq<(u8, TrieNode)>, c: Seq<(u8, TrieNode)>, j: int)
    requires
        a.len() == c.len(),
        0 <= j,
        forall|t: int| j <= t < a.len() ==> a[t] == c[t],
    ensures
        tsize_kids(a, j) == tsize_kids(c, j),
    decreases a.len() - j,
{
    if j < a.len() {
        lemma_tsize_kids_same_tail(a, c, j + 1);
    }
}

proof fn lemma_tsize_kids_insert(kids: Seq<(u8, TrieNode)>, j: int, i: int, x: (u8, TrieNode))
    requires
        0 <= j <= i <= kids.len(),
    ensures
        tsize_kids(kids.insert(i, x), j) == tsize_kids(kids, j) + tsize(x.1),
    decreases i - j,
{
    let k2 = kids.insert(i, x);
    if j < i {
        lemma_tsize_kids_insert(kids, j + 1, i, x);
        assert(k2[j] == kids[j]);
    } else {
        lemma_tsize_kids_shift(kids, k2, i + 1);
    }
}

proof fn lemma_tsize_kids_shift(a: Seq<(u8, TrieNode)>, c: Seq<(u8, TrieNode)>, j: int)
    requires
        c.len() == a.len() + 1,
        1 <= j,
        forall|t: int| j <= t < c.len() ==> c[t] == a[t - 1],
    ensures
        tsize_kids(c, j) == tsize_kids(a, j - 1),
    decreases c.len() - j,
{
    if j < c.len() {
        lemma_tsize_kids_shift(a, c, j + 1);
    }
}

} // verus!

verus! {

/// Length of the longest path below `n`.
pub open spec fn theight(n: TrieNode) -> nat
    decreases n, 1nat, 0nat,
{
    theight_kids(n.kids@, 0)
}

pub open spec fn theight_kids(kids: Seq<(u8, TrieNode)>, i: int) -> nat
    decreases kids, 0nat, kids.len() - i,
{
    if i < 0 || i >= kids.len() {
        0
    } else {
        let h = 1 + theight(kids[i].1);
        let r = theight_kids(kids, i + 1);
        if h > r {
            h
        } else {
            r
        }
    }
}

/// A value never exceeds the number of nodes.
pub proof fn lemma_tvals_len(n: TrieNode)
    ensures
        tvals(n).len() <= tsize(n),
    decreases n, 1nat,
{
    lemma_tvals_kids_len(n.kids@, 0);
}

pub proof fn lemma_tvals_kids_len(kids: Seq<(u8, TrieNode)>, i: int)
    ensures
        tvals_kids(kids, i).len() <= tsize_kids(kids, i),
    decreases kids, kids.len() - i,
{
    if 0 <= i < kids.len() {
        lemma_tvals_len(kids[i].1);
        lemma_tvals_kids_len(kids, i + 1);
    }
}

proof fn lemma_theight_kids_update(kids: Seq<(u8, TrieNode)>, j: int, i: int, x: (u8, TrieNode), h: nat)
    requires
        0 <= j <= i < kids.len(),
        theight_kids(kids, j) <= h,
        1 + theight(x.1) <= h,
    ensures
        theight_kids(kids.update(i, x), j) <= h,
    decreases kids.len() - j,
{
    let k2 = kids.update(i, x);
    if j < i {
        lemma_theight_kids_update(kids, j + 1, i, x, h);
        assert(k2[j] == kids[j]);
    } else {
        lemma_theight_kids_same_tail(kids, k2, j + 1);
        assert(k2[j] == x);
    }
}

proof fn lemma_theight_kids_same_tail(a: Seq<(u8, TrieNode)>, c: Seq<(u8, TrieNode)>, j: int)
    requires
        a.len() == c.len(),
        0 <= j,
        forall|t: int| j <= t < a.len() ==> a[t] == c[t],
    ensures
        theight_kids(a, j) == theight_kids(c, j),
    decreases a.len() - j,
{
    if j < a.len() {
        lemma_theight_kids_same_tail(a, c, j + 1);
    }
}

proof fn lemma_theight_kids_insert(kids: Seq<(u8, TrieNode)>, j: int, i: int, x: (u8, TrieNode), h: nat)
    requires
        0 <= j <= i <= kids.len(),
        theight_kids(kids, j) <= h,
        1 + theight(x.1) <= h,
    ensures
        theight_kids(kids.insert(i, x), j) <= h,
    decreases kids.len() - j,
{
    let k2 = kids.insert(i, x);
    if j < i {
        lemma_theight_kids_insert(kids, j + 1, i, x, h);
    } else {
        lemma_theight_kids_shift(kids, k2, i + 1);
    }
}

proof fn lemma_theight_kids_shift(a: Seq<(u8, TrieNode)>, c: Seq<(u8, TrieNode)>, j: int)
    requires
        c.len() == a.len() + 1,
        1 <= j,
        forall|t: int| j <= t < c.len() ==> c[t] == a[t - 1],
    ensures
        theight_kids(c, j) == theight_kids(a, j - 1),
    decreases c.len() - j,
{
    if j < c.len() {
        lemma_theight_kids_shift(a, c, j + 1);
    }
}

/// The child at `i` is at most one less high than its parent.
pub proof fn lemma_theight_kid(kids: Seq<(u8, TrieNode)>, j: int, i: int)
    requires
        0 <= j <= i < kids.len(),
    ensures
        1 + theight(kids[i].1) <= theight_kids(kids, j),
    decreases i - j,
{
    if j < i {
        lemma_theight_kid(kids, j + 1, i);
    }
}

} // verus!
