//! Depth-first walks and the strongly connected components of the
//! instruction graph.
use crate::compiler::reach::{adjacency_closed, lemma_reaches_self, lemma_reaches_trans, lists_of, reachable_from, reached_from, reaches};
use vstd::prelude::*;
use vstd::set_lib::{lemma_int_range, set_int_range};

verus! {

/// Every entry of `xs` is below `n`.
pub open spec fn below(xs: Seq<usize>, n: int) -> bool {
    forall|j: int| 0 <= j < xs.len() ==> #[trigger] xs[j] < n
}

/// Every entry of every list is below `n`.
pub open spec fn lists_below(lists: Seq<Vec<usize>>, n: int) -> bool {
    forall|v: int| 0 <= v < lists.len() ==> below(#[trigger] lists[v]@, n)
}

/// A step of a depth-first walk: entering a node, or leaving it once all
/// of its successors are done.
pub enum Step {
    Enter(usize),
    Leave(usize),
}

/// The node of a step is below `n`.
pub open spec fn step_below(step: Step, n: int) -> bool {
    match step {
        Step::Enter(v) => v < n,
        Step::Leave(v) => v < n,
    }
}

/// `n` flags, all unset.
pub fn falses(n: usize) -> (flags: Vec<bool>)
    ensures
        flags@.len() == n,
        forall|j: int| 0 <= j < n ==> !#[trigger] flags@[j],
{
    let mut flags: Vec<bool> = Vec::new();
    while flags.len() < n
        invariant
            flags@.len() <= n,
            forall|j: int| 0 <= j < flags@.len() ==> !#[trigger] flags@[j],
        decreases n - flags@.len(),
    {
        flags.push(false);
    }
    flags
}

/// The node of a step.
pub open spec fn step_node(step: Step) -> usize {
    match step {
        Step::Enter(v) => v,
        Step::Leave(v) => v,
    }
}

/// Some entry of `order` has key `k`.
pub open spec fn has_key(order: Seq<usize>, key: Seq<usize>, k: int) -> bool {
    exists|x: int| 0 <= x < order.len() && key[#[trigger] order[x] as int] == k
}

/// Some step of `stack` leaves a node of key `k`.
pub open spec fn leaves_key(stack: Seq<Step>, key: Seq<usize>, k: int) -> bool {
    exists|i: int| 0 <= i < stack.len() && #[trigger] stack[i] is Leave && key[step_node(stack[i]) as int] == k
}

/// The node to which entry `y` of the list of `v`'s key leads.
pub open spec fn succ_of(lists: Seq<Vec<usize>>, key: Seq<usize>, v: usize, y: int) -> usize {
    lists[key[v as int] as int]@[y]
}

/// Every allowed node to which `v` leads has a marked key.
pub open spec fn succs_marked(lists: Seq<Vec<usize>>, key: Seq<usize>, allowed: Seq<bool>, marked: Seq<bool>, v: usize) -> bool {
    forall|y: int| 0 <= y < lists[key[v as int] as int]@.len() && allowed[#[trigger] succ_of(lists, key, v, y) as int]
        ==> marked[key[succ_of(lists, key, v, y) as int] as int]
}

/// Every allowed node to which the node of step `i` of `stack` leads has
/// a marked key or a step that enters it above step `i`.
pub open spec fn succs_pending(lists: Seq<Vec<usize>>, key: Seq<usize>, allowed: Seq<bool>, marked: Seq<bool>, stack: Seq<Step>, i: int) -> bool {
    forall|y: int| 0 <= y < lists[key[step_node(stack[i]) as int] as int]@.len()
        && allowed[#[trigger] succ_of(lists, key, step_node(stack[i]), y) as int]
        ==> marked[key[succ_of(lists, key, step_node(stack[i]), y) as int] as int]
            || exists|i2: int| i < i2 < stack.len() && stack[i2] == Step::Enter(succ_of(lists, key, step_node(stack[i]), y))
}

/// The keys of the entries of `order` are distinct.
pub open spec fn distinct_keys(order: Seq<usize>, key: Seq<usize>) -> bool {
    forall|x: int, y: int| 0 <= x < y < order.len() ==> key[#[trigger] order[x] as int] != key[#[trigger] order[y] as int]
}

/// The steps of `stack` that leave a node leave nodes of distinct keys,
/// each marked and none the key of an entry of `order`.
pub open spec fn leaves_fresh(stack: Seq<Step>, key: Seq<usize>, marked: Seq<bool>, order: Seq<usize>) -> bool {
    &&& forall|i: int| 0 <= i < stack.len() && #[trigger] stack[i] is Leave ==> marked[key[step_node(stack[i]) as int] as int]
        && !has_key(order, key, key[step_node(stack[i]) as int] as int)
    &&& forall|i: int, i2: int| 0 <= i < i2 < stack.len() && #[trigger] stack[i] is Leave && #[trigger] stack[i2] is Leave
        ==> key[step_node(stack[i]) as int] != key[step_node(stack[i2]) as int]
}

/// The nodes of a depth-first walk from each of `starts` in turn, in the
/// order in which the walk leaves them. The walk enters a node only when it
/// is allowed and no node of the same key was entered before; it then
/// enters the nodes of `lists[key[v]]` in order.
pub fn postorder(lists: &Vec<Vec<usize>>, key: &Vec<usize>, allowed: &Vec<bool>, starts: &Vec<usize>) -> (order: Vec<usize>)
    requires
        key@.len() == lists@.len(),
        allowed@.len() == lists@.len(),
        below(key@, lists@.len() as int),
        lists_below(lists@, lists@.len() as int),
        below(starts@, lists@.len() as int),
    ensures
        below(order@, lists@.len() as int),
        forall|j: int| 0 <= j < order@.len() ==> allowed@[#[trigger] order@[j] as int],
        distinct_keys(order@, key@),
        forall|j: int| 0 <= j < starts@.len() && allowed@[#[trigger] starts@[j] as int]
            ==> has_key(order@, key@, key@[starts@[j] as int] as int),
        forall|x: int, y: int| 0 <= x < order@.len() && 0 <= y < lists@[key@[order@[x] as int] as int]@.len()
            && allowed@[#[trigger] succ_of(lists@, key@, order@[x], y) as int]
            ==> has_key(order@, key@, key@[succ_of(lists@, key@, order@[x], y) as int] as int),
{
    let n = lists.len();
    let mut marked = falses(n);
    let ghost mut unmarked: Set<int> = set_int_range(0, n as int);
    proof {
        lemma_int_range(0, n as int);
    }
    let mut order: Vec<usize> = Vec::new();
    let mut j: usize = 0;
    while j < starts.len()
        invariant
            n == lists@.len(),
            key@.len() == n,
            allowed@.len() == n,
            below(key@, n as int),
            lists_below(lists@, n as int),
            below(starts@, n as int),
            j <= starts@.len(),
            marked@.len() == n,
            unmarked.finite(),
            forall|k: int| 0 <= k < n ==> (!#[trigger] marked@[k] <==> unmarked.contains(k)),
            below(order@, n as int),
            forall|x: int| 0 <= x < order@.len() ==> allowed@[#[trigger] order@[x] as int],
            forall|x: int| 0 <= x < order@.len() ==> marked@[key@[#[trigger] order@[x] as int] as int],
            distinct_keys(order@, key@),
            forall|k: int| 0 <= k < n && #[trigger] marked@[k] ==> has_key(order@, key@, k),
            forall|j2: int| 0 <= j2 < j && allowed@[#[trigger] starts@[j2] as int] ==> marked@[key@[starts@[j2] as int] as int],
            forall|x: int| 0 <= x < order@.len() ==> succs_marked(lists@, key@, allowed@, marked@, #[trigger] order@[x]),
        decreases starts@.len() - j,
    {
        let s0 = starts[j];
        let mut stack: Vec<Step> = Vec::new();
        stack.push(Step::Enter(s0));
        while stack.len() > 0
            invariant
                n == lists@.len(),
                key@.len() == n,
                allowed@.len() == n,
                below(key@, n as int),
                lists_below(lists@, n as int),
                below(starts@, n as int),
                j < starts@.len(),
                s0 == starts@[j as int],
                marked@.len() == n,
                unmarked.finite(),
                forall|k: int| 0 <= k < n ==> (!#[trigger] marked@[k] <==> unmarked.contains(k)),
                below(order@, n as int),
                forall|x: int| 0 <= x < order@.len() ==> allowed@[#[trigger] order@[x] as int],
                forall|i: int| 0 <= i < stack@.len() ==> step_below(#[trigger] stack@[i], n as int),
                forall|i: int| 0 <= i < stack@.len() ==> (#[trigger] stack@[i] matches Step::Leave(v) ==> allowed@[v as int]),
                forall|x: int| 0 <= x < order@.len() ==> marked@[key@[#[trigger] order@[x] as int] as int],
                distinct_keys(order@, key@),
                leaves_fresh(stack@, key@, marked@, order@),
                forall|k: int| 0 <= k < n && #[trigger] marked@[k] ==> has_key(order@, key@, k) || leaves_key(stack@, key@, k),
                forall|j2: int| 0 <= j2 < j && allowed@[#[trigger] starts@[j2] as int] ==> marked@[key@[starts@[j2] as int] as int],
                allowed@[s0 as int] && !marked@[key@[s0 as int] as int] ==> stack@ == seq![Step::Enter(s0)],
                forall|x: int| 0 <= x < order@.len() ==> succs_marked(lists@, key@, allowed@, marked@, #[trigger] order@[x]),
                forall|i: int| 0 <= i < stack@.len() && #[trigger] stack@[i] is Leave ==> succs_pending(lists@, key@, allowed@, marked@, stack@, i),
            decreases unmarked.len(), stack@.len(),
        {
            let ghost st0 = stack@;
            let ghost ord0 = order@;
            let ghost mk0 = marked@;
            let step = stack.pop().unwrap();
            proof {
                assert(stack@ == st0.drop_last());
                assert(step == st0.last());
            }
            match step {
                Step::Enter(v) => {
                    let k = key[v];
                    if allowed[v] && !marked[k] {
                        proof {
                            assert(unmarked.contains(k as int));
                        }
                        marked.set(k, true);
                        proof {
                            unmarked = unmarked.remove(k as int);
                            assert(!has_key(ord0, key@, k as int)) by {
                                if has_key(ord0, key@, k as int) {
                                    let x = choose|x: int| 0 <= x < ord0.len() && key@[#[trigger] ord0[x] as int] == k as int;
                                    assert(mk0[key@[ord0[x] as int] as int]);
                                }
                            }
                        }
                        let ghost st1 = stack@;
                        stack.push(Step::Leave(v));
                        proof {
                            assert(stack@[st1.len() as int] == Step::Leave(v));
                            assert forall|i: int| 0 <= i < stack@.len() && #[trigger] stack@[i] is Leave implies marked@[key@[step_node(stack@[i]) as int] as int]
                                && !has_key(order@, key@, key@[step_node(stack@[i]) as int] as int) by {
                                if i < st1.len() {
                                    assert(stack@[i] == st0[i]);
                                }
                            }
                            assert forall|i: int, i2: int| 0 <= i < i2 < stack@.len() && #[trigger] stack@[i] is Leave && #[trigger] stack@[i2] is Leave
                                implies key@[step_node(stack@[i]) as int] != key@[step_node(stack@[i2]) as int] by {
                                assert(stack@[i] == st0[i]);
                                if i2 < st1.len() {
                                    assert(stack@[i2] == st0[i2]);
                                } else {
                                    assert(mk0[key@[step_node(st0[i]) as int] as int]);
                                }
                            }
                            assert forall|kk: int| 0 <= kk < n && #[trigger] marked@[kk] implies has_key(order@, key@, kk) || leaves_key(stack@, key@, kk) by {
                                if kk == k as int {
                                    assert(stack@[st1.len() as int] is Leave);
                                    assert(key@[step_node(stack@[st1.len() as int]) as int] == kk);
                                } else {
                                    assert(mk0[kk]);
                                    if !has_key(order@, key@, kk) {
                                        let i = choose|i: int| 0 <= i < st0.len() && #[trigger] st0[i] is Leave && key@[step_node(st0[i]) as int] == kk;
                                        assert(i < st0.len() - 1);
                                        assert(stack@[i] == st0[i]);
                                    }
                                }
                            }
                        }
                        let ghost base = stack@;
                        let succ = &lists[k];
                        let mut i = succ.len();
                        while i > 0
                            invariant
                                i <= succ@.len(),
                                *succ == lists@[k as int],
                                k < n,
                                n == lists@.len(),
                                lists_below(lists@, n as int),
                                allowed@.len() == n,
                                forall|x: int| 0 <= x < stack@.len() ==> step_below(#[trigger] stack@[x], n as int),
                                forall|x: int| 0 <= x < stack@.len() ==> (#[trigger] stack@[x] matches Step::Leave(w) ==> allowed@[w as int]),
                                base.len() <= stack@.len(),
                                forall|x: int| 0 <= x < base.len() ==> #[trigger] stack@[x] == base[x],
                                forall|x: int| base.len() <= x < stack@.len() ==> #[trigger] stack@[x] is Enter,
                                forall|y: int| i <= y < succ@.len() ==> exists|i2: int| base.len() <= i2 < stack@.len()
                                    && stack@[i2] == Step::Enter(#[trigger] succ@[y]),
                            decreases i,
                        {
                            i -= 1;
                            assert(below(lists@[k as int]@, n as int));
                            let ghost st2 = stack@;
                            stack.push(Step::Enter(succ[i]));
                            proof {
                                assert forall|x: int| 0 <= x < base.len() implies #[trigger] stack@[x] == base[x] by {
                                    assert(stack@[x] == st2[x]);
                                }
                                assert forall|x: int| base.len() <= x < stack@.len() implies #[trigger] stack@[x] is Enter by {
                                    if x < st2.len() {
                                        assert(stack@[x] == st2[x]);
                                    }
                                }
                                assert forall|y: int| i <= y < succ@.len() implies exists|i2: int| base.len() <= i2 < stack@.len()
                                    && stack@[i2] == Step::Enter(#[trigger] succ@[y]) by {
                                    if y == i {
                                        assert(stack@[st2.len() as int] == Step::Enter(succ@[y]));
                                    } else {
                                        let i2 = choose|i2: int| base.len() <= i2 < st2.len() && st2[i2] == Step::Enter(succ@[y]);
                                        assert(stack@[i2] == st2[i2]);
                                    }
                                }
                            }
                        }
                        proof {
                            assert forall|i: int| 0 <= i < stack@.len() && #[trigger] stack@[i] is Leave implies marked@[key@[step_node(stack@[i]) as int] as int]
                                && !has_key(order@, key@, key@[step_node(stack@[i]) as int] as int) by {
                                assert(stack@[i] == base[i]);
                            }
                            assert forall|i: int, i2: int| 0 <= i < i2 < stack@.len() && #[trigger] stack@[i] is Leave && #[trigger] stack@[i2] is Leave
                                implies key@[step_node(stack@[i]) as int] != key@[step_node(stack@[i2]) as int] by {
                                assert(stack@[i] == base[i]);
                                assert(stack@[i2] == base[i2]);
                            }
                            assert forall|kk: int| 0 <= kk < n && #[trigger] marked@[kk] implies has_key(order@, key@, kk) || leaves_key(stack@, key@, kk) by {
                                if !has_key(order@, key@, kk) {
                                    let i = choose|i: int| 0 <= i < base.len() && #[trigger] base[i] is Leave && key@[step_node(base[i]) as int] == kk;
                                    assert(stack@[i] == base[i]);
                                }
                            }
                            assert forall|i: int| 0 <= i < stack@.len() && #[trigger] stack@[i] is Leave
                                implies succs_pending(lists@, key@, allowed@, marked@, stack@, i) by {
                                assert(stack@[i] == base[i]);
                                if i < st1.len() {
                                    assert(base[i] == st0[i]);
                                    assert(succs_pending(lists@, key@, allowed@, mk0, st0, i));
                                    let u = step_node(st0[i]);
                                    assert forall|y: int| 0 <= y < lists@[key@[u as int] as int]@.len()
                                        && allowed@[#[trigger] succ_of(lists@, key@, u, y) as int]
                                        implies marked@[key@[succ_of(lists@, key@, u, y) as int] as int]
                                            || exists|i2: int| i < i2 < stack@.len() && stack@[i2] == Step::Enter(succ_of(lists@, key@, u, y)) by {
                                        let w = succ_of(lists@, key@, u, y);
                                        if !mk0[key@[w as int] as int] {
                                            let i2 = choose|i2: int| i < i2 < st0.len() && st0[i2] == Step::Enter(w);
                                            if i2 < st0.len() - 1 {
                                                assert(stack@[i2] == base[i2]);
                                            } else {
                                                assert(w == v);
                                            }
                                        }
                                    }
                                } else {
                                    assert(i == st1.len());
                                    assert(step_node(stack@[i]) == v);
                                    assert forall|y: int| 0 <= y < lists@[key@[v as int] as int]@.len()
                                        && allowed@[#[trigger] succ_of(lists@, key@, v, y) as int]
                                        implies marked@[key@[succ_of(lists@, key@, v, y) as int] as int]
                                            || exists|i2: int| i < i2 < stack@.len() && stack@[i2] == Step::Enter(succ_of(lists@, key@, v, y)) by {
                                        assert(succ@[y] == succ_of(lists@, key@, v, y));
                                    }
                                }
                            }
                        }
                    } else {
                        proof {
                            assert(leaves_fresh(stack@, key@, marked@, order@)) by {
                                assert forall|i: int| 0 <= i < stack@.len() && #[trigger] stack@[i] is Leave implies marked@[key@[step_node(stack@[i]) as int] as int]
                                    && !has_key(order@, key@, key@[step_node(stack@[i]) as int] as int) by {
                                    assert(stack@[i] == st0[i]);
                                }
                                assert forall|i: int, i2: int| 0 <= i < i2 < stack@.len() && #[trigger] stack@[i] is Leave && #[trigger] stack@[i2] is Leave
                                    implies key@[step_node(stack@[i]) as int] != key@[step_node(stack@[i2]) as int] by {
                                    assert(stack@[i] == st0[i]);
                                    assert(stack@[i2] == st0[i2]);
                                }
                            }
                            assert forall|kk: int| 0 <= kk < n && #[trigger] marked@[kk] implies has_key(order@, key@, kk) || leaves_key(stack@, key@, kk) by {
                                if !has_key(order@, key@, kk) {
                                    let i = choose|i: int| 0 <= i < st0.len() && #[trigger] st0[i] is Leave && key@[step_node(st0[i]) as int] == kk;
                                    assert(i < st0.len() - 1);
                                    assert(stack@[i] == st0[i]);
                                }
                            }
                            assert forall|i: int| 0 <= i < stack@.len() && #[trigger] stack@[i] is Leave
                                implies succs_pending(lists@, key@, allowed@, marked@, stack@, i) by {
                                assert(stack@[i] == st0[i]);
                                assert(succs_pending(lists@, key@, allowed@, mk0, st0, i));
                                let u = step_node(st0[i]);
                                assert forall|y: int| 0 <= y < lists@[key@[u as int] as int]@.len()
                                    && allowed@[#[trigger] succ_of(lists@, key@, u, y) as int]
                                    implies marked@[key@[succ_of(lists@, key@, u, y) as int] as int]
                                        || exists|i2: int| i < i2 < stack@.len() && stack@[i2] == Step::Enter(succ_of(lists@, key@, u, y)) by {
                                    let w = succ_of(lists@, key@, u, y);
                                    if !mk0[key@[w as int] as int] {
                                        let i2 = choose|i2: int| i < i2 < st0.len() && st0[i2] == Step::Enter(w);
                                        if i2 < st0.len() - 1 {
                                            assert(stack@[i2] == st0[i2]);
                                        } else {
                                            assert(w == v);
                                        }
                                    }
                                }
                            }
                        }
                    }
                },
                Step::Leave(v) => {
                    proof {
                        assert(st0[st0.len() - 1] is Leave);
                    }
                    order.push(v);
                    proof {
                        let t = st0.len() - 1;
                        assert(st0[t] == Step::Leave(v));
                        assert(succs_pending(lists@, key@, allowed@, mk0, st0, t));
                        assert(succs_marked(lists@, key@, allowed@, marked@, v)) by {
                            assert forall|y: int| 0 <= y < lists@[key@[v as int] as int]@.len()
                                && allowed@[#[trigger] succ_of(lists@, key@, v, y) as int]
                                implies marked@[key@[succ_of(lists@, key@, v, y) as int] as int] by {
                                assert(step_node(st0[t]) == v);
                            }
                        }
                        assert forall|x: int| 0 <= x < order@.len() implies succs_marked(lists@, key@, allowed@, marked@, #[trigger] order@[x]) by {
                            if x < ord0.len() {
                                assert(order@[x] == ord0[x]);
                            }
                        }
                        assert forall|i: int| 0 <= i < stack@.len() && #[trigger] stack@[i] is Leave
                            implies succs_pending(lists@, key@, allowed@, marked@, stack@, i) by {
                            assert(stack@[i] == st0[i]);
                            assert(succs_pending(lists@, key@, allowed@, mk0, st0, i));
                            let u = step_node(st0[i]);
                            assert forall|y: int| 0 <= y < lists@[key@[u as int] as int]@.len()
                                && allowed@[#[trigger] succ_of(lists@, key@, u, y) as int]
                                implies marked@[key@[succ_of(lists@, key@, u, y) as int] as int]
                                    || exists|i2: int| i < i2 < stack@.len() && stack@[i2] == Step::Enter(succ_of(lists@, key@, u, y)) by {
                                let w = succ_of(lists@, key@, u, y);
                                if !mk0[key@[w as int] as int] {
                                    let i2 = choose|i2: int| i < i2 < st0.len() && st0[i2] == Step::Enter(w);
                                    assert(i2 != t);
                                    assert(stack@[i2] == st0[i2]);
                                }
                            }
                        }
                    }
                    proof {
                        assert(order@[ord0.len() as int] == v);
                        assert forall|x: int| 0 <= x < order@.len() implies marked@[key@[#[trigger] order@[x] as int] as int] by {
                            if x < ord0.len() {
                                assert(order@[x] == ord0[x]);
                            }
                        }
                        assert forall|x: int, y: int| 0 <= x < y < order@.len() implies key@[#[trigger] order@[x] as int] != key@[#[trigger] order@[y] as int] by {
                            assert(order@[x] == ord0[x]);
                            if y < ord0.len() {
                                assert(order@[y] == ord0[y]);
                            } else {
                                assert(has_key(ord0, key@, key@[ord0[x] as int] as int));
                            }
                        }
                        assert forall|i: int| 0 <= i < stack@.len() && #[trigger] stack@[i] is Leave implies marked@[key@[step_node(stack@[i]) as int] as int]
                            && !has_key(order@, key@, key@[step_node(stack@[i]) as int] as int) by {
                            assert(stack@[i] == st0[i]);
                            assert(st0[st0.len() - 1] is Leave);
                            assert(key@[step_node(st0[i]) as int] != key@[step_node(st0[st0.len() - 1]) as int]);
                            if has_key(order@, key@, key@[step_node(stack@[i]) as int] as int) {
                                let x = choose|x: int| 0 <= x < order@.len() && key@[#[trigger] order@[x] as int] == key@[step_node(stack@[i]) as int] as int;
                                if x < ord0.len() {
                                    assert(order@[x] == ord0[x]);
                                    assert(has_key(ord0, key@, key@[step_node(st0[i]) as int] as int));
                                }
                            }
                        }
                        assert forall|i: int, i2: int| 0 <= i < i2 < stack@.len() && #[trigger] stack@[i] is Leave && #[trigger] stack@[i2] is Leave
                            implies key@[step_node(stack@[i]) as int] != key@[step_node(stack@[i2]) as int] by {
                            assert(stack@[i] == st0[i]);
                            assert(stack@[i2] == st0[i2]);
                        }
                        assert forall|kk: int| 0 <= kk < n && #[trigger] marked@[kk] implies has_key(order@, key@, kk) || leaves_key(stack@, key@, kk) by {
                            if has_key(ord0, key@, kk) {
                                let x = choose|x: int| 0 <= x < ord0.len() && key@[#[trigger] ord0[x] as int] == kk;
                                assert(order@[x] == ord0[x]);
                            } else {
                                let i = choose|i: int| 0 <= i < st0.len() && #[trigger] st0[i] is Leave && key@[step_node(st0[i]) as int] == kk;
                                if i == st0.len() - 1 {
                                    assert(key@[order@[ord0.len() as int] as int] == kk);
                                } else {
                                    assert(stack@[i] == st0[i]);
                                }
                            }
                        }
                    }
                },
            }
        }
        proof {
            assert forall|k: int| 0 <= k < n && #[trigger] marked@[k] implies has_key(order@, key@, k) by {
                if !has_key(order@, key@, k) {
                    assert(leaves_key(stack@, key@, k));
                }
            }
        }
        j += 1;
    }
    proof {
        assert forall|j2: int| 0 <= j2 < starts@.len() && allowed@[#[trigger] starts@[j2] as int]
            implies has_key(order@, key@, key@[starts@[j2] as int] as int) by {
            assert(marked@[key@[starts@[j2] as int] as int]);
        }
    }
    order
}

/// The lists of predecessors of each node of `adj`: `u` stands in the list
/// of `w` once for each time that `w` stands in the list of `u`.
pub fn predecessor_lists(adj: &Vec<Vec<usize>>) -> (preds: Vec<Vec<usize>>)
    requires
        lists_below(adj@, adj@.len() as int),
    ensures
        preds@.len() == adj@.len(),
        lists_below(preds@, adj@.len() as int),
        forall|i: int, j: usize| 0 <= i < adj@.len() ==> (#[trigger] preds@[i]@.contains(j)
            <==> (j < adj@.len() && adj@[j as int]@.contains(i as usize))),
{
    let n = adj.len();
    let mut preds: Vec<Vec<usize>> = Vec::new();
    while preds.len() < n
        invariant
            preds@.len() <= n,
            lists_below(preds@, n as int),
            forall|v: int| 0 <= v < preds@.len() ==> (#[trigger] preds@[v])@.len() == 0,
        decreases n - preds@.len(),
    {
        preds.push(Vec::new());
    }
    let mut u: usize = 0;
    while u < n
        invariant
            n == adj@.len(),
            lists_below(adj@, n as int),
            u <= n,
            preds@.len() == n,
            lists_below(preds@, n as int),
            forall|i: int, j: usize| 0 <= i < n ==> (#[trigger] preds@[i]@.contains(j)
                <==> (j < u && adj@[j as int]@.contains(i as usize))),
        decreases n - u,
    {
        let list = &adj[u];
        let mut k: usize = 0;
        while k < list.len()
            invariant
                n == adj@.len(),
                lists_below(adj@, n as int),
                u < n,
                *list == adj@[u as int],
                k <= list@.len(),
                preds@.len() == n,
                lists_below(preds@, n as int),
                forall|i: int, j: usize| 0 <= i < n ==> (#[trigger] preds@[i]@.contains(j)
                    <==> ((j < u && adj@[j as int]@.contains(i as usize)) || (j == u && list@.take(k as int).contains(i as usize)))),
            decreases list@.len() - k,
        {
            assert(below(adj@[u as int]@, n as int));
            let w = list[k];
            let ghost p0 = preds@;
            preds.push(Vec::new());
            let mut entry = preds.swap_remove(w);
            entry.push(u);
            preds.set(w, entry);
            proof {
                assert(preds@.len() == n);
                assert(preds@[w as int]@ == p0[w as int]@.push(u));
                assert forall|v: int| 0 <= v < n && v != w implies #[trigger] preds@[v] == p0[v] by {
                    assert(preds@[v] == p0[v]);
                }
                assert(list@.take(k + 1) == list@.take(k as int).push(w));
                assert forall|i: int, j: usize| 0 <= i < n implies (#[trigger] preds@[i]@.contains(j)
                    <==> ((j < u && adj@[j as int]@.contains(i as usize)) || (j == u && list@.take(k + 1).contains(i as usize)))) by {
                    if i == w {
                        if preds@[i]@.contains(j) && j != u {
                            let x = choose|x: int| 0 <= x < preds@[i]@.len() && preds@[i]@[x] == j;
                            assert(p0[i]@[x] == j);
                        }
                        if p0[i]@.contains(j) {
                            let x = choose|x: int| 0 <= x < p0[i]@.len() && p0[i]@[x] == j;
                            assert(preds@[i]@[x] == j);
                        }
                        if j == u {
                            assert(preds@[i]@[p0[i]@.len() as int] == u);
                            assert(list@.take(k + 1)[k as int] == w);
                        }
                    } else {
                        if list@.take(k + 1).contains(i as usize) {
                            let x = choose|x: int| 0 <= x < k + 1 && #[trigger] list@.take(k + 1)[x] == i as usize;
                            assert(x < k);
                            assert(list@.take(k as int)[x] == i as usize);
                        }
                        if list@.take(k as int).contains(i as usize) {
                            let x = choose|x: int| 0 <= x < k && #[trigger] list@.take(k as int)[x] == i as usize;
                            assert(list@.take(k + 1)[x] == i as usize);
                        }
                    }
                }
                assert forall|v: int| 0 <= v < preds@.len() implies below(#[trigger] preds@[v]@, n as int) by {
                    if v != w {
                        assert(below(preds@[v]@, n as int));
                    }
                }
            }
            k += 1;
        }
        proof {
            assert(list@.take(k as int) == adj@[u as int]@);
        }
        u += 1;
    }
    preds
}

/// Strictly ascending.
pub open spec fn ascending(xs: Seq<usize>) -> bool {
    forall|i: int, j: int| 0 <= i < j < xs.len() ==> xs[i] < xs[j]
}

/// Adds `v` to the strictly ascending `list` unless it is there already.
pub fn insert_sorted(list: &mut Vec<usize>, v: usize)
    requires
        ascending(old(list)@),
    ensures
        ascending(final(list)@),
        forall|x: usize| final(list)@.contains(x) <==> (old(list)@.contains(x) || x == v),
{
    let mut p: usize = 0;
    while p < list.len() && list[p] < v
        invariant
            p <= list@.len(),
            forall|i: int| 0 <= i < p ==> list@[i] < v,
        decreases list@.len() - p,
    {
        p += 1;
    }
    if p < list.len() && list[p] == v {
        return;
    }
    let ghost before = list@;
    list.insert(p, v);
    proof {
        before.insert_ensures(p as int, v);
        assert forall|i: int, j: int| 0 <= i < j < list@.len() implies list@[i] < list@[j] by {
            if j < p {
            } else if j == p {
            } else if i < p {
                assert(list@[j] == before[j - 1]);
                assert(before[p as int] > v);
            } else if i == p {
                assert(list@[j] == before[j - 1]);
                assert(before[p as int] > v);
                if j - 1 > p {
                    assert(before[p as int] < before[j - 1]);
                }
            } else {
                assert(list@[i] == before[i - 1]);
                assert(list@[j] == before[j - 1]);
            }
        }
        assert forall|x: usize| list@.contains(x) <==> (before.contains(x) || x == v) by {
            if list@.contains(x) {
                let i = choose|i: int| 0 <= i < list@.len() && list@[i] == x;
                if i < p {
                    assert(before[i] == x);
                } else if i > p {
                    assert(before[i - 1] == x);
                }
            }
            if before.contains(x) {
                let i = choose|i: int| 0 <= i < before.len() && before[i] == x;
                if i < p {
                    assert(list@[i] == x);
                } else {
                    assert(list@[i + 1] == x);
                }
            }
            if x == v {
                assert(list@[p as int] == v);
            }
        }
    }
}

/// `a` and `b` reach each other in `adj`.
pub open spec fn mutual(adj: Seq<Vec<usize>>, a: usize, b: usize) -> bool {
    reaches(lists_of(adj), a, b) && reaches(lists_of(adj), b, a)
}

/// For every present node, the smallest present node of its strongly
/// connected component; each other node is its own.
pub fn component_roots(adj: &Vec<Vec<usize>>, present: &Vec<bool>) -> (roots: Vec<usize>)
    requires
        present@.len() == adj@.len(),
        lists_below(adj@, adj@.len() as int),
    ensures
        roots@.len() == adj@.len(),
        below(roots@, adj@.len() as int),
        forall|a: int| 0 <= a < adj@.len() && !present@[a] ==> #[trigger] roots@[a] == a,
        forall|a: int| 0 <= a < adj@.len() && present@[a] ==> present@[#[trigger] roots@[a] as int]
            && mutual(adj@, roots@[a], a as usize)
            && forall|w: usize| w < roots@[a] ==> !(present@[w as int] && mutual(adj@, w, a as usize)),
        forall|a: int, b: int| 0 <= a < adj@.len() && 0 <= b < adj@.len() && present@[a] && present@[b]
            ==> (#[trigger] roots@[a] == #[trigger] roots@[b] <==> mutual(adj@, a as usize, b as usize)),
{
    let n = adj.len();
    let ghost g = lists_of(adj@);
    proof {
        assert forall|x: int, k: int| 0 <= x < g.len() && 0 <= k < g[x].len() implies #[trigger] g[x][k] < g.len() by {
            assert(g[x] == adj@[x]@);
            assert(below(adj@[x]@, n as int));
        }
        assert(adjacency_closed(g));
    }
    let mut forward: Vec<Vec<bool>> = Vec::new();
    while forward.len() < n
        invariant
            n == adj@.len(),
            g == lists_of(adj@),
            adjacency_closed(g),
            forward@.len() <= n,
            forall|u: int| 0 <= u < forward@.len() ==> (#[trigger] forward@[u])@.len() == n,
            forall|u: int, v: usize| 0 <= u < forward@.len() && v < n ==> (#[trigger] forward@[u]@[v as int] <==> reaches(g, u as usize, v)),
        decreases n - forward@.len(),
    {
        let u = forward.len();
        let mut starts: Vec<usize> = Vec::new();
        starts.push(u);
        let seen = reachable_from(adj, &starts);
        proof {
            assert forall|v: usize| v < n implies (seen@[v as int] <==> reaches(g, u, v)) by {
                if reached_from(g, starts@, v) {
                    let j = choose|j: int| 0 <= j < starts@.len() && reaches(g, #[trigger] starts@[j], v);
                    assert(starts@[j] == u);
                }
                if reaches(g, u, v) {
                    assert(reaches(g, starts@[0], v));
                }
            }
        }
        let ghost f0 = forward@;
        forward.push(seen);
        proof {
            assert forall|x: int, v: usize| 0 <= x < forward@.len() && v < n implies (#[trigger] forward@[x]@[v as int] <==> reaches(g, x as usize, v)) by {
                if x < f0.len() {
                    assert(forward@[x] == f0[x]);
                }
            }
            assert forall|x: int| 0 <= x < forward@.len() implies (#[trigger] forward@[x])@.len() == n by {
                if x < f0.len() {
                    assert(forward@[x] == f0[x]);
                }
            }
        }
    }
    let mut roots: Vec<usize> = Vec::new();
    while roots.len() < n
        invariant
            n == adj@.len(),
            present@.len() == n,
            g == lists_of(adj@),
            forward@.len() == n,
            forall|u: int| 0 <= u < n ==> (#[trigger] forward@[u])@.len() == n,
            forall|u: int, v: usize| 0 <= u < n && v < n ==> (#[trigger] forward@[u]@[v as int] <==> reaches(g, u as usize, v)),
            roots@.len() <= n,
            below(roots@, n as int),
            forall|a: int| 0 <= a < roots@.len() && !present@[a] ==> #[trigger] roots@[a] == a,
            forall|a: int| 0 <= a < roots@.len() && present@[a] ==> present@[#[trigger] roots@[a] as int]
                && mutual(adj@, roots@[a], a as usize)
                && forall|w: usize| w < roots@[a] ==> !(present@[w as int] && mutual(adj@, w, a as usize)),
        decreases n - roots@.len(),
    {
        let v = roots.len();
        let ghost r0 = roots@;
        if !present[v] {
            roots.push(v);
        } else {
            proof {
                lemma_reaches_self(g, v);
            }
            let mut u: usize = 0;
            while !(present[u] && forward[u][v] && forward[v][u])
                invariant
                    n == adj@.len(),
                    present@.len() == n,
                    g == lists_of(adj@),
                    v < n,
                    present@[v as int],
                    reaches(g, v, v),
                    forward@.len() == n,
                    forall|x: int| 0 <= x < n ==> (#[trigger] forward@[x])@.len() == n,
                    forall|x: int, y: usize| 0 <= x < n && y < n ==> (#[trigger] forward@[x]@[y as int] <==> reaches(g, x as usize, y)),
                    u <= v,
                    forall|w: usize| w < u ==> !(present@[w as int] && mutual(adj@, w, v)),
                decreases v - u,
            {
                proof {
                    if u == v {
                        assert(forward@[v as int]@[v as int]);
                    }
                }
                u += 1;
            }
            proof {
                assert(mutual(adj@, u, v));
            }
            roots.push(u);
        }
        proof {
            assert forall|a: int| 0 <= a < roots@.len() && !present@[a] implies #[trigger] roots@[a] == a by {
                if a < r0.len() {
                    assert(roots@[a] == r0[a]);
                }
            }
            assert forall|a: int| 0 <= a < roots@.len() && present@[a] implies present@[#[trigger] roots@[a] as int]
                && mutual(adj@, roots@[a], a as usize)
                && forall|w: usize| w < roots@[a] ==> !(present@[w as int] && mutual(adj@, w, a as usize)) by {
                if a < r0.len() {
                    assert(roots@[a] == r0[a]);
                }
            }
        }
    }
    proof {
        assert forall|a: int, b: int| 0 <= a < n && 0 <= b < n && present@[a] && present@[b]
            implies (#[trigger] roots@[a] == #[trigger] roots@[b] <==> mutual(adj@, a as usize, b as usize)) by {
            let ra = roots@[a];
            let rb = roots@[b];
            if ra == rb {
                lemma_reaches_trans(g, a as usize, ra, b as usize);
                lemma_reaches_trans(g, b as usize, ra, a as usize);
            }
            if mutual(adj@, a as usize, b as usize) {
                lemma_reaches_trans(g, ra, a as usize, b as usize);
                lemma_reaches_trans(g, b as usize, a as usize, ra);
                lemma_reaches_trans(g, rb, b as usize, a as usize);
                lemma_reaches_trans(g, a as usize, b as usize, rb);
                assert(mutual(adj@, ra, b as usize));
                assert(mutual(adj@, rb, a as usize));
                if ra < rb {
                    assert(!(present@[ra as int] && mutual(adj@, ra, b as usize)));
                }
                if rb < ra {
                    assert(!(present@[rb as int] && mutual(adj@, rb, a as usize)));
                }
            }
        }
    }
    roots
}

/// The present members of each component, ascending, at the index of its
/// root; the lists at other indices are empty.
pub fn component_members(roots: &Vec<usize>, present: &Vec<bool>) -> (members: Vec<Vec<usize>>)
    requires
        present@.len() == roots@.len(),
        below(roots@, roots@.len() as int),
    ensures
        members@.len() == roots@.len(),
        lists_below(members@, roots@.len() as int),
        forall|r: int| 0 <= r < members@.len() ==> ascending(#[trigger] members@[r]@),
        forall|r: int, k: int| 0 <= r < members@.len() && 0 <= k < members@[r]@.len() ==> present@[#[trigger] members@[r]@[k] as int],
        forall|r: int, x: usize| 0 <= r < members@.len() ==> (#[trigger] members@[r]@.contains(x)
            <==> (x < roots@.len() && present@[x as int] && roots@[x as int] == r)),
{
    let n = roots.len();
    let mut members: Vec<Vec<usize>> = Vec::new();
    while members.len() < n
        invariant
            members@.len() <= n,
            lists_below(members@, n as int),
            forall|r: int| 0 <= r < members@.len() ==> (#[trigger] members@[r])@.len() == 0,
        decreases n - members@.len(),
    {
        members.push(Vec::new());
    }
    let mut v: usize = 0;
    while v < n
        invariant
            n == roots@.len(),
            present@.len() == n,
            below(roots@, n as int),
            v <= n,
            members@.len() == n,
            lists_below(members@, n as int),
            forall|r: int| 0 <= r < n ==> ascending(#[trigger] members@[r]@) && below(members@[r]@, v as int),
            forall|r: int, k: int| 0 <= r < n && 0 <= k < members@[r]@.len() ==> present@[#[trigger] members@[r]@[k] as int],
            forall|r: int, x: usize| 0 <= r < n ==> (#[trigger] members@[r]@.contains(x)
                <==> (x < v && present@[x as int] && roots@[x as int] == r)),
        decreases n - v,
    {
        if present[v] {
            let r = roots[v];
            let ghost prior = members@;
            members.push(Vec::new());
            let mut entry = members.swap_remove(r);
            let ghost before = entry@;
            assert(below(before, v as int));
            entry.push(v);
            members.set(r, entry);
            proof {
                assert forall|x: int| 0 <= x < n implies ascending(#[trigger] members@[x]@) && below(members@[x]@, v + 1) by {
                    if x != r {
                        assert(below(members@[x]@, v as int));
                    } else {
                        assert(members@[x]@ == before.push(v));
                    }
                }
                assert forall|x: int| 0 <= x < members@.len() implies below(#[trigger] members@[x]@, n as int) by {
                    assert(below(members@[x]@, v + 1));
                }
                assert forall|x: int, k: int| 0 <= x < n && 0 <= k < members@[x]@.len() implies present@[#[trigger] members@[x]@[k] as int] by {
                    if x == r && k == before.len() {
                    } else if x == r {
                        assert(members@[x]@[k] == before[k]);
                    }
                }
                assert forall|q: int, x: usize| 0 <= q < n implies (#[trigger] members@[q]@.contains(x)
                    <==> (x < v + 1 && present@[x as int] && roots@[x as int] == q)) by {
                    if q == r {
                        assert(members@[q]@ == before.push(v));
                        if before.contains(x) {
                            let y = choose|y: int| 0 <= y < before.len() && before[y] == x;
                            assert(members@[q]@[y] == x);
                        }
                        if members@[q]@.contains(x) && x != v {
                            let y = choose|y: int| 0 <= y < members@[q]@.len() && members@[q]@[y] == x;
                            assert(before[y] == x);
                        }
                        if x == v {
                            assert(members@[q]@[before.len() as int] == v);
                        }
                    } else {
                        assert(members@[q] == prior[q]);
                    }
                }
            }
        } else {
            proof {
                assert forall|x: int| 0 <= x < n implies ascending(#[trigger] members@[x]@) && below(members@[x]@, v + 1) by {
                    assert(below(members@[x]@, v as int));
                }
            }
        }
        proof {
            assert forall|q: int, x: usize| 0 <= q < n implies (#[trigger] members@[q]@.contains(x)
                <==> (x < v + 1 && present@[x as int] && roots@[x as int] == q)) by {
                if members@[q]@.contains(x) {
                    let y = choose|y: int| 0 <= y < members@[q]@.len() && members@[q]@[y] == x;
                    assert(below(members@[q]@, v + 1));
                }
            }
        }
        v += 1;
    }
    members
}

/// Some node of `group` has an edge to `s` in `adj`.
pub open spec fn group_refers(adj: Seq<Vec<usize>>, group: Seq<usize>, s: usize) -> bool {
    exists|i: int| 0 <= i < group.len() && #[trigger] adj[group[i] as int]@.contains(s)
}

/// For each component, at the index of its root, the nodes outside it that
/// its members refer to, ascending and each once.
pub fn component_successors(adj: &Vec<Vec<usize>>, roots: &Vec<usize>, members: &Vec<Vec<usize>>) -> (outs: Vec<Vec<usize>>)
    requires
        roots@.len() == adj@.len(),
        members@.len() == adj@.len(),
        below(roots@, adj@.len() as int),
        lists_below(adj@, adj@.len() as int),
        lists_below(members@, adj@.len() as int),
    ensures
        outs@.len() == adj@.len(),
        lists_below(outs@, adj@.len() as int),
        forall|r: int| 0 <= r < outs@.len() ==> ascending(#[trigger] outs@[r]@),
        forall|r: int, s: usize| 0 <= r < outs@.len() ==> (#[trigger] outs@[r]@.contains(s)
            <==> (roots@[s as int] != r && group_refers(adj@, members@[r]@, s))),
{
    let n = adj.len();
    let mut outs: Vec<Vec<usize>> = Vec::new();
    while outs.len() < n
        invariant
            n == adj@.len(),
            roots@.len() == n,
            members@.len() == n,
            below(roots@, n as int),
            lists_below(adj@, n as int),
            lists_below(members@, n as int),
            outs@.len() <= n,
            lists_below(outs@, n as int),
            forall|r: int| 0 <= r < outs@.len() ==> ascending(#[trigger] outs@[r]@),
            forall|r: int, s: usize| 0 <= r < outs@.len() ==> (#[trigger] outs@[r]@.contains(s)
                <==> (roots@[s as int] != r && group_refers(adj@, members@[r]@, s))),
        decreases n - outs@.len(),
    {
        let r = outs.len();
        let mut list: Vec<usize> = Vec::new();
        let group = &members[r];
        let mut i: usize = 0;
        while i < group.len()
            invariant
                n == adj@.len(),
                roots@.len() == n,
                r < n,
                members@.len() == n,
                *group == members@[r as int],
                below(roots@, n as int),
                lists_below(adj@, n as int),
                lists_below(members@, n as int),
                i <= group@.len(),
                ascending(list@),
                below(list@, n as int),
                forall|s: usize| #[trigger] list@.contains(s) <==> (roots@[s as int] != r && group_refers(adj@, group@.take(i as int), s)),
            decreases group@.len() - i,
        {
            assert(below(members@[r as int]@, n as int));
            let v = group[i];
            let succ = &adj[v];
            let mut k: usize = 0;
            while k < succ.len()
                invariant
                    n == adj@.len(),
                    roots@.len() == n,
                    v < n,
                    *succ == adj@[v as int],
                    lists_below(adj@, n as int),
                    k <= succ@.len(),
                    ascending(list@),
                    below(list@, n as int),
                    forall|s: usize| #[trigger] list@.contains(s) <==> (roots@[s as int] != r
                        && (group_refers(adj@, group@.take(i as int), s) || succ@.take(k as int).contains(s))),
                decreases succ@.len() - k,
            {
                assert(below(adj@[v as int]@, n as int));
                let s = succ[k];
                proof {
                    assert(succ@.take(k + 1) == succ@.take(k as int).push(s));
                }
                if roots[s] != r {
                    insert_sorted(&mut list, s);
                    proof {
                        assert forall|j: int| 0 <= j < list@.len() implies #[trigger] list@[j] < n by {
                            assert(list@.contains(list@[j]));
                        }
                    }
                }
                proof {
                    assert forall|t: usize| #[trigger] list@.contains(t) <==> (roots@[t as int] != r
                        && (group_refers(adj@, group@.take(i as int), t) || succ@.take(k + 1).contains(t))) by {
                        if succ@.take(k + 1).contains(t) && t != s {
                            let y = choose|y: int| 0 <= y < k + 1 && #[trigger] succ@.take(k + 1)[y] == t;
                            assert(succ@.take(k as int)[y] == t);
                        }
                        if succ@.take(k as int).contains(t) {
                            let y = choose|y: int| 0 <= y < k && #[trigger] succ@.take(k as int)[y] == t;
                            assert(succ@.take(k + 1)[y] == t);
                        }
                        if t == s {
                            assert(succ@.take(k + 1)[k as int] == s);
                        }
                    }
                }
                k += 1;
            }
            proof {
                assert(succ@.take(k as int) == adj@[v as int]@);
                assert forall|t: usize| #[trigger] list@.contains(t) <==> (roots@[t as int] != r && group_refers(adj@, group@.take(i + 1), t)) by {
                    if group_refers(adj@, group@.take(i + 1), t) {
                        let y = choose|y: int| 0 <= y < i + 1 && #[trigger] adj@[group@.take(i + 1)[y] as int]@.contains(t);
                        if y < i {
                            assert(group@.take(i as int)[y] == group@.take(i + 1)[y]);
                        } else {
                            assert(group@.take(i + 1)[y] == v);
                        }
                    }
                    if group_refers(adj@, group@.take(i as int), t) {
                        let y = choose|y: int| 0 <= y < i && #[trigger] adj@[group@.take(i as int)[y] as int]@.contains(t);
                        assert(group@.take(i + 1)[y] == group@.take(i as int)[y]);
                    }
                    if adj@[v as int]@.contains(t) {
                        assert(group@.take(i + 1)[i as int] == v);
                    }
                }
            }
            i += 1;
        }
        proof {
            assert(group@.take(i as int) == members@[r as int]@);
        }
        let ghost o0 = outs@;
        outs.push(list);
        proof {
            assert forall|q: int, t: usize| 0 <= q < outs@.len() implies (#[trigger] outs@[q]@.contains(t)
                <==> (roots@[t as int] != q && group_refers(adj@, members@[q]@, t))) by {
                if q < o0.len() {
                    assert(outs@[q] == o0[q]);
                }
            }
        }
    }
    outs
}

} // verus!
