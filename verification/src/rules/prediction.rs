//! Prediction rules: each may add or filter next-word predictions.

use vstd::prelude::*;

use std::sync::Arc;

use super::{Context, Rule, RuleEffect};
use crate::fsa::sort::{count_of, lemma_count_concat};

verus! {

/// A predicted next word with its raw count.
#[derive(Clone, Debug)]
pub struct PredictionCandidate {
    pub word: String,
    pub count: u64,
    pub source: &'static str,
}

/// A rule over the prediction list.
pub trait PredictionRule: Rule {
    /// Whether the rule runs in `ctx`; unless a rule says otherwise, it
    /// always does.
    fn applies(&self, ctx: &Context) -> (r: bool)
        default_ensures
            r,
    {
        true
    }

    fn apply(&self, ctx: &Context, predictions: &mut Vec<PredictionCandidate>) -> RuleEffect;
}

/// The prediction rules, in priority order.
pub struct PredictionRuleEngine<R: PredictionRule + ?Sized> {
    rules: Vec<Arc<R>>,
    prios: Vec<i32>,
}

/// Never decreasing.
pub open spec fn ascending(p: Seq<i32>) -> bool {
    forall|i: int, j: int| 0 <= i < j < p.len() ==> #[trigger] p[i] <= #[trigger] p[j]
}

/// The priority rule `x` reports.
pub open spec fn prio_of<R: PredictionRule + ?Sized>(x: Arc<R>) -> i32 {
    (*x).priority_spec()
}

/// `out` is `rules` reordered by `p` (`out[k]` is `rules[p[k]]`) and `ps`
/// their priorities, ascending, rules of equal priority in the order
/// given.
pub open spec fn priority_order<R: PredictionRule + ?Sized>(
    rules: Seq<Arc<R>>,
    out: Seq<Arc<R>>,
    ps: Seq<i32>,
    p: Seq<int>,
) -> bool {
    &&& p.len() == rules.len()
    &&& out.len() == rules.len()
    &&& ps.len() == rules.len()
    &&& forall|k: int|
        0 <= k < p.len() ==> 0 <= #[trigger] p[k] < rules.len() && out[k] == rules[p[k]] && ps[k] == prio_of(
            rules[p[k]],
        )
    &&& forall|k: int, l: int|
        0 <= k < l < p.len() ==> #[trigger] ps[k] < #[trigger] ps[l] || (ps[k] == ps[l] && p[k] < p[l])
}

impl<R: PredictionRule + ?Sized> PredictionRuleEngine<R> {
    /// The rules, in the order they run.
    pub closed spec fn rules_spec(&self) -> Seq<Arc<R>> {
        self.rules@
    }

    /// The priority each rule reported when the engine was made.
    pub closed spec fn prios_spec(&self) -> Seq<i32> {
        self.prios@
    }

    pub closed spec fn count(&self) -> nat {
        self.rules@.len()
    }

    /// An engine running `rules` by ascending priority (each rule's
    /// priority asked once), rules of equal priority in the given order.
    pub fn new(rules: Vec<Arc<R>>) -> (r: Self)
        ensures
            r.count() == rules@.len(),
            r.prios_spec().len() == r.count(),
            ascending(r.prios_spec()),
            forall|x: Arc<R>| #[trigger] count_of(r.rules_spec(), x) == count_of(rules@, x),
            exists|p: Seq<int>| priority_order(rules@, r.rules_spec(), r.prios_spec(), p),
    {
        let mut out: Vec<Arc<R>> = Vec::new();
        let mut ps: Vec<i32> = Vec::new();
        let ghost mut pe: Seq<int> = Seq::empty();
        let mut i: usize = 0;
        while i < rules.len()
            invariant
                i <= rules@.len(),
                out@.len() == i,
                ps@.len() == i,
                ascending(ps@),
                forall|x: Arc<R>| #[trigger] count_of(out@, x) == count_of(rules@.take(i as int), x),
                priority_order(rules@.take(i as int), out@, ps@, pe),
            decreases rules@.len() - i,
        {
            let x = rules[i].clone();
            let p = x.priority();
            assert(x == rules@[i as int]);
            let mut pos = out.len();
            while pos > 0 && ps[pos - 1] > p
                invariant
                    pos <= ps@.len(),
                    ps@.len() == out@.len(),
                    ascending(ps@),
                    forall|j: int| pos <= j < ps@.len() ==> #[trigger] ps@[j] > p,
                decreases pos,
            {
                pos = pos - 1;
            }
            let ghost before = out@;
            let ghost pb = ps@;
            let ghost pe0 = pe;
            out.insert(pos, x);
            ps.insert(pos, p);
            proof {
                pe = pe0.take(pos as int).push(i as int) + pe0.skip(pos as int);
                let rt = rules@.take(i + 1);
                assert(rt[i as int] == rules@[i as int]);
                assert forall|j: int| 0 <= j < pos implies #[trigger] pb[j] <= p by {
                    if pos > 0 {
                        assert(pb[pos - 1] <= p);
                        if j < pos - 1 {
                            assert(pb[j] <= pb[pos - 1]);
                        }
                    }
                }
                assert forall|k: int| 0 <= k < pe.len() implies 0 <= #[trigger] pe[k] < rt.len() && out@[k]
                    == rt[pe[k]] && ps@[k] == prio_of(rt[pe[k]]) by {
                    if k < pos {
                        assert(pe[k] == pe0[k]);
                        assert(rt[pe0[k]] == rules@.take(i as int)[pe0[k]]);
                    } else if k > pos {
                        assert(pe[k] == pe0[k - 1]);
                        assert(rt[pe0[k - 1]] == rules@.take(i as int)[pe0[k - 1]]);
                    }
                }
                assert forall|k: int, l: int| 0 <= k < l < pe.len() implies #[trigger] ps@[k] < #[trigger] ps@[l] || (
                ps@[k] == ps@[l] && pe[k] < pe[l]) by {
                    let k2 = if k < pos { k } else { k - 1 };
                    let l2 = if l < pos { l } else { l - 1 };
                    if k != pos && l != pos {
                        assert(ps@[k] == pb[k2] && ps@[l] == pb[l2]);
                        assert(pe[k] == pe0[k2] && pe[l] == pe0[l2]);
                    } else if k == pos {
                        assert(ps@[l] == pb[l2]);
                    } else {
                        assert(ps@[k] == pb[k2]);
                        assert(pe[k] == pe0[k2]);
                    }
                }
                assert(ps@ =~= pb.take(pos as int).push(p) + pb.skip(pos as int));
                assert(out@ =~= before.take(pos as int).push(x) + before.skip(pos as int));
                assert forall|a: int, c: int| 0 <= a < c < ps@.len() implies #[trigger] ps@[a] <= #[trigger] ps@[c] by {
                    if a < pos && c == pos {
                        if pos > 0 {
                            assert(pb[pos - 1] <= p);
                            assert(pb[a] <= pb[pos - 1]);
                        }
                    } else if a == pos && c > pos {
                        assert(ps@[c] == pb[c - 1]);
                    } else {
                        let a2 = if a < pos { a } else { a - 1 };
                        let c2 = if c < pos { c } else { c - 1 };
                        assert(ps@[a] == pb[a2] && ps@[c] == pb[c2]);
                    }
                }
                assert(rules@.take(i + 1) =~= rules@.take(i as int).push(rules@[i as int]));
                assert forall|y: Arc<R>| #[trigger] count_of(out@, y) == count_of(rules@.take(i + 1), y) by {
                    lemma_count_concat(before.take(pos as int).push(x), before.skip(pos as int), y);
                    lemma_count_concat(before.take(pos as int), before.skip(pos as int), y);
                    assert(before.take(pos as int) + before.skip(pos as int) =~= before);
                    assert(before.take(pos as int).push(x).drop_last() =~= before.take(pos as int));
                    assert(rules@.take(i + 1).drop_last() =~= rules@.take(i as int));
                }
            }
            i = i + 1;
        }
        assert(rules@.take(i as int) =~= rules@);
        assert(priority_order(rules@, out@, ps@, pe));
        let r = PredictionRuleEngine { rules: out, prios: ps };
        assert(priority_order(rules@, r.rules_spec(), r.prios_spec(), pe));
        r
    }

    /// The rules, in the order they run.
    pub fn rules(&self) -> (r: &Vec<Arc<R>>)
        ensures
            r@ == self.rules_spec(),
    {
        &self.rules
    }

    pub fn rule_count(&self) -> (r: usize)
        ensures
            r == self.count(),
    {
        self.rules.len()
    }
}

} // verus!
