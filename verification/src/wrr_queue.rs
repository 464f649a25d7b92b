//! The weighted round-robin selection queue.
//!
//! The queue owns an ordered list of instances, a selection cursor, and a
//! precomputed dispatch schedule of indices into the list.  Every mutation
//! rebuilds the schedule from the current weights; a selection only advances
//! the cursor and reads the schedule.

use crate::instance::Instance;
use crate::schedule::{
    best_upto, bump, choice_at, credits_at, credits_ok, fold_lcm, ints_of_isizes, ints_of_usizes,
    lemma_best_upto, lemma_credits_upper, lemma_elem_upper, lemma_fold_lcm_le_product,
    lemma_fold_lcm_prefix, lemma_fold_lcm_take_step, lemma_product_concat, lemma_product_nonneg,
    lemma_product_pos, lemma_product_remove, lemma_step_ok, lemma_sum_bump, lemma_sum_lower,
    lemma_sum_push, lemma_sum_remove, lemma_sum_take_le, lemma_sum_take_step, pick_index,
    seq_product, seq_sum, spec_lcm, step_credits, wts_ok, choices_upto, count_of,
    lemma_equal_weights_state, lemma_schedule_proportional,
};
use vstd::prelude::*;

verus! {

use vstd::std_specs::cmp::PartialEqSpec;

/// Relies on num::integer::lcm: for positive arguments it returns the least
/// common multiple, computed as `a * (b / gcd(a, b))`, which does not
/// overflow when the mathematical value fits in `usize`.
#[verifier::external_body]
fn lcm_usize(a: usize, b: usize) -> (r: usize)
    requires
        1 <= a,
        1 <= b,
        spec_lcm(a as int, b as int) <= usize::MAX as int,
    ensures
        r as int == spec_lcm(a as int, b as int),
{
    num::integer::lcm(a, b)
}

/// The weights of a list of instances, read as mathematical integers.
pub open spec fn weights_of<T>(s: Seq<Instance<T>>) -> Seq<int> {
    Seq::new(s.len(), |i: int| s[i].spec_weight() as int)
}

/// Some instance in the list carries data equal to that of `x`.
pub open spec fn has_data<T: PartialEq>(s: Seq<Instance<T>>, x: Instance<T>) -> bool {
    exists|i: int| 0 <= i < s.len() && #[trigger] s[i].spec_data().eq_spec(&x.spec_data())
}

/// The list after offering every element of `xs` in order, appending each
/// one whose data is not already present.
pub open spec fn insert_all<T: PartialEq>(s: Seq<Instance<T>>, xs: Seq<Instance<T>>) -> Seq<
    Instance<T>,
>
    decreases xs.len(),
{
    if xs.len() == 0 {
        s
    } else if has_data(s, xs[0]) {
        insert_all(s, xs.drop_first())
    } else {
        insert_all(s.push(xs[0]), xs.drop_first())
    }
}

/// Every element of `xs`, offered in order, was new at its turn.
pub open spec fn all_fresh<T: PartialEq>(s: Seq<Instance<T>>, xs: Seq<Instance<T>>) -> bool
    decreases xs.len(),
{
    if xs.len() == 0 {
        true
    } else if has_data(s, xs[0]) {
        false
    } else {
        all_fresh(s.push(xs[0]), xs.drop_first())
    }
}

/// The schedule `q` is the dispatch sequence the round-robin rule produces
/// for the weights `ws`: one entry per step, `fold_lcm(ws) + 1` steps.
pub open spec fn schedule_matches(q: Seq<usize>, ws: Seq<int>) -> bool {
    &&& q.len() == fold_lcm(ws) + 1
    &&& forall|t: int| 0 <= t < q.len() ==> (#[trigger] q[t]) as int == choice_at(ws, t as nat)
    &&& forall|t: int| 0 <= t < q.len() ==> (#[trigger] q[t]) < ws.len()
}

/// One step of the schedule compiler.
///
/// Adds each weight to its running credit, accumulates the total weight,
/// returns the index of the highest credit (lowest index on a tie), and
/// charges the winner the total.  With an empty weight list it returns 0 and
/// leaves the credits alone.
pub fn select_instance(weight_vec: &Vec<usize>, cur_weight: &mut Vec<isize>) -> (r: usize)
    requires
        old(cur_weight)@.len() == weight_vec@.len(),
        wts_ok(ints_of_usizes(weight_vec@)),
        credits_ok(ints_of_usizes(weight_vec@), ints_of_isizes(old(cur_weight)@)),
        (weight_vec@.len() + 1) * seq_sum(ints_of_usizes(weight_vec@)) <= isize::MAX as int,
    ensures
        final(cur_weight)@.len() == weight_vec@.len(),
        weight_vec@.len() == 0 ==> r == 0 && final(cur_weight)@ == old(cur_weight)@,
        weight_vec@.len() > 0 ==> ({
            let ws = ints_of_usizes(weight_vec@);
            let before = ints_of_isizes(old(cur_weight)@);
            &&& r < weight_vec@.len()
            &&& r as int == pick_index(bump(before, ws))
            &&& ints_of_isizes(final(cur_weight)@) == step_credits(ws, before)
            &&& credits_ok(ws, ints_of_isizes(final(cur_weight)@))
        }),
{
    let n = weight_vec.len();
    if n == 0 {
        0
    } else {
        let ghost ws = ints_of_usizes(weight_vec@);
        let ghost before = ints_of_isizes(old(cur_weight)@);
        let ghost b = bump(before, ws);
        let ghost s_total = seq_sum(ws);
        proof {
            lemma_sum_lower(ws, 1);
            assert(s_total <= isize::MAX as int) by (nonlinear_arith)
                requires
                    (n + 1) * s_total <= isize::MAX as int,
                    1 <= n,
                    1 <= s_total,
            ;
        }
        let mut selected: usize = 0;
        let mut acc: isize = 0;
        let mut i: usize = 0;
        while i < n
            invariant
                n == weight_vec@.len(),
                n == cur_weight@.len(),
                1 <= n,
                i <= n,
                ws == ints_of_usizes(weight_vec@),
                before == ints_of_isizes(old(cur_weight)@),
                b == bump(before, ws),
                wts_ok(ws),
                credits_ok(ws, before),
                s_total == seq_sum(ws),
                s_total <= isize::MAX as int,
                (n + 1) * s_total <= isize::MAX as int,
                forall|j: int| 0 <= j < i ==> (#[trigger] cur_weight@[j]) as int == b[j],
                forall|j: int| i <= j < n ==> #[trigger] cur_weight@[j] == old(cur_weight)@[j],
                0 <= acc,
                acc as int == seq_sum(ws.take(i as int)),
                selected < n,
                i == 0 ==> selected == 0,
                1 <= i ==> selected as int == best_upto(b, i as int),
            decreases n - i,
        {
            let w = weight_vec[i];
            let cw = cur_weight[i];
            proof {
                lemma_elem_upper(ws, i as int, 1);
                lemma_credits_upper(ws, before, i as int);
                lemma_sum_take_step(ws, i as int);
                lemma_sum_take_le(ws, i as int + 1);
                assert(n * s_total + s_total == (n + 1) * s_total) by (nonlinear_arith);
                if 1 <= i {
                    lemma_best_upto(b, i as int);
                }
            }
            let bumped = cw + (w as isize);
            cur_weight.set(i, bumped);
            acc = acc + (w as isize);
            if cur_weight[selected] < cur_weight[i] {
                selected = i;
            }
            i = i + 1;
        }
        proof {
            assert(ws.take(n as int) =~= ws);
            assert(ints_of_isizes(cur_weight@) =~= b);
            lemma_best_upto(b, n as int);
            lemma_sum_bump(before, ws);
            lemma_credits_upper(ws, before, pick_index(b));
            lemma_elem_upper(ws, pick_index(b), 1);
            assert(n * s_total + s_total == (n + 1) * s_total) by (nonlinear_arith);
            assert(2 * s_total <= (n + 1) * s_total) by (nonlinear_arith)
                requires
                    1 <= n,
                    0 <= s_total,
            ;
        }
        let cs = cur_weight[selected];
        cur_weight.set(selected, cs - acc);
        proof {
            assert(ints_of_isizes(cur_weight@) =~= step_credits(ws, before));
            lemma_step_ok(ws, before);
        }
        selected
    }
}

/// A weighted round-robin queue.
///
/// Holds the instances in insertion order, the selection cursor, and the
/// precomputed dispatch schedule.  The schedule always reflects the current
/// instances and weights: every mutation rebuilds it before returning.
pub struct WrrQueue<T> {
    instance_list: Vec<Instance<T>>,
    cur_idx: usize,
    select_queue: Vec<usize>,
}

impl<T: PartialEq> WrrQueue<T> {
    /// The instances, in insertion order.
    pub closed spec fn spec_candidates(self) -> Seq<Instance<T>> {
        self.instance_list@
    }

    /// The dispatch schedule: indices into the instance list.
    pub closed spec fn spec_schedule(self) -> Seq<usize> {
        self.select_queue@
    }

    /// The selection counter.
    pub closed spec fn spec_cursor(self) -> usize {
        self.cur_idx
    }

    /// The queue's invariant: all weights positive, and the schedule is
    /// exactly the one the round-robin rule compiles from the current
    /// weights (empty when there are no instances).
    pub open spec fn wf(self) -> bool {
        &&& wts_ok(weights_of(self.spec_candidates()))
        &&& if self.spec_candidates().len() == 0 {
            self.spec_schedule().len() == 0
        } else {
            schedule_matches(self.spec_schedule(), weights_of(self.spec_candidates()))
        }
    }

    /// Creates an empty queue.
    pub fn new() -> (r: Self)
        ensures
            r.wf(),
            r.spec_candidates().len() == 0,
            r.spec_schedule().len() == 0,
            r.spec_cursor() == 0,
    {
        WrrQueue { instance_list: Vec::new(), cur_idx: 0, select_queue: Vec::new() }
    }

    /// The index of the first instance whose data equals that of `target`.
    fn find_position(list: &Vec<Instance<T>>, target: &Instance<T>) -> (r: Option<usize>)
        ensures
            match r {
                Some(i) => {
                    &&& i < list@.len()
                    &&& T::obeys_eq_spec() ==> list@[i as int].spec_data().eq_spec(
                        &target.spec_data(),
                    )
                    &&& T::obeys_eq_spec() ==> forall|j: int|
                        0 <= j < i ==> !(#[trigger] list@[j].spec_data()).eq_spec(
                            &target.spec_data(),
                        )
                },
                None => T::obeys_eq_spec() ==> !has_data(list@, *target),
            },
    {
        let n: usize = list.len();
        let mut i: usize = 0;
        while i < n
            invariant
                n == list@.len(),
                i <= n,
                T::obeys_eq_spec() ==> forall|j: int|
                    0 <= j < i ==> !(#[trigger] list@[j].spec_data()).eq_spec(
                        &target.spec_data(),
                    ),
            decreases n - i,
        {
            if *list[i].data() == *target.data() {
                return Some(i);
            }
            i = i + 1;
        }
        None
    }

    /// Appends the instance unless one with equal data is already present;
    /// the schedule is left stale and must be rebuilt by the caller.
    fn insert_uncalculated(&mut self, instance: Instance<T>) -> (r: bool)
        ensures
            final(self).cur_idx == old(self).cur_idx,
            final(self).select_queue == old(self).select_queue,
            1 <= instance.spec_weight(),
            r ==> final(self).instance_list@ == old(self).instance_list@.push(instance),
            !r ==> final(self).instance_list@ == old(self).instance_list@,
            T::obeys_eq_spec() ==> (r <==> !has_data(old(self).instance_list@, instance)),
    {
        let _w = instance.weight();
        match Self::find_position(&self.instance_list, &instance) {
            Some(_) => false,
            None => {
                self.instance_list.push(instance);
                true
            },
        }
    }

    /// Compiles the dispatch schedule for a non-empty instance list.
    fn build_schedule(list: &Vec<Instance<T>>) -> (r: Vec<usize>)
        requires
            1 <= list@.len(),
            wts_ok(weights_of(list@)),
            fold_lcm(weights_of(list@)) + 1 <= usize::MAX as int,
            (list@.len() + 1) * seq_sum(weights_of(list@)) <= isize::MAX as int,
        ensures
            schedule_matches(r@, weights_of(list@)),
    {
        let ghost ws = weights_of(list@);
        let n = list.len();
        let mut weight_vec: Vec<usize> = Vec::new();
        let mut i: usize = 0;
        while i < n
            invariant
                n == list@.len(),
                i <= n,
                ws == weights_of(list@),
                weight_vec@.len() == i,
                forall|j: int| 0 <= j < i ==> (#[trigger] weight_vec@[j]) as int == ws[j],
            decreases n - i,
        {
            let w = list[i].weight().get();
            weight_vec.push(w);
            i = i + 1;
        }
        proof {
            assert(ints_of_usizes(weight_vec@) =~= ws);
            lemma_sum_lower(ws, 1);
        }
        let mut l: usize = 1;
        i = 0;
        while i < n
            invariant
                n == weight_vec@.len(),
                n == ws.len(),
                i <= n,
                wts_ok(ws),
                ints_of_usizes(weight_vec@) == ws,
                fold_lcm(ws) + 1 <= usize::MAX as int,
                1 <= l,
                l as int == fold_lcm(ws.take(i as int)),
            decreases n - i,
        {
            proof {
                lemma_fold_lcm_take_step(ws, i as int);
                lemma_fold_lcm_prefix(ws, i as int);
                lemma_fold_lcm_prefix(ws, i as int + 1);
            }
            l = lcm_usize(l, weight_vec[i]);
            i = i + 1;
        }
        proof {
            assert(ws.take(n as int) =~= ws);
        }
        let mut cur: Vec<isize> = Vec::new();
        i = 0;
        while i < n
            invariant
                n == weight_vec@.len(),
                n == ws.len(),
                1 <= n,
                i <= n,
                wts_ok(ws),
                ints_of_usizes(weight_vec@) == ws,
                (n + 1) * seq_sum(ws) <= isize::MAX as int,
                cur@.len() == i,
                forall|j: int| 0 <= j < i ==> (#[trigger] cur@[j]) as int == ws[j],
            decreases n - i,
        {
            proof {
                lemma_sum_lower(ws, 1);
                lemma_elem_upper(ws, i as int, 1);
                assert(seq_sum(ws) <= isize::MAX as int) by (nonlinear_arith)
                    requires
                        (n + 1) * seq_sum(ws) <= isize::MAX as int,
                        1 <= n,
                        n <= seq_sum(ws),
                ;
            }
            let w = weight_vec[i];
            cur.push(w as isize);
            i = i + 1;
        }
        proof {
            assert(ints_of_isizes(cur@) =~= ws);
            assert(credits_at(ws, 0nat) == ws);
            lemma_sum_lower(ws, 1);
            assert(forall|j: int|
                0 <= j < ws.len() ==> 1 - seq_sum(ws) <= #[trigger] ws[j]);
        }
        let steps = l + 1;
        let mut sched: Vec<usize> = Vec::new();
        let mut t: usize = 0;
        while t < steps
            invariant
                n == weight_vec@.len(),
                n == ws.len(),
                1 <= n,
                t <= steps,
                steps as int == fold_lcm(ws) + 1,
                wts_ok(ws),
                ints_of_usizes(weight_vec@) == ws,
                (n + 1) * seq_sum(ws) <= isize::MAX as int,
                cur@.len() == n,
                ints_of_isizes(cur@) == credits_at(ws, t as nat),
                credits_ok(ws, ints_of_isizes(cur@)),
                sched@.len() == t,
                forall|u: int| 0 <= u < t ==> (#[trigger] sched@[u]) as int == choice_at(
                    ws,
                    u as nat,
                ),
                forall|u: int| 0 <= u < t ==> (#[trigger] sched@[u]) < n,
            decreases steps - t,
        {
            let s = select_instance(&weight_vec, &mut cur);
            sched.push(s);
            proof {
                assert(credits_at(ws, (t + 1) as nat) == step_credits(
                    ws,
                    credits_at(ws, t as nat),
                ));
            }
            t = t + 1;
        }
        sched
    }

    /// Rebuilds the schedule from the current instances.
    fn recalculate_queue(&mut self)
        requires
            wts_ok(weights_of(old(self).instance_list@)),
            fold_lcm(weights_of(old(self).instance_list@)) + 1 <= usize::MAX as int,
            (old(self).instance_list@.len() + 1) * seq_sum(weights_of(old(self).instance_list@))
                <= isize::MAX as int,
        ensures
            final(self).instance_list == old(self).instance_list,
            final(self).cur_idx == old(self).cur_idx,
            final(self).wf(),
    {
        if self.instance_list.len() == 0 {
            self.select_queue = Vec::new();
        } else {
            let q = Self::build_schedule(&self.instance_list);
            self.select_queue = q;
        }
    }

    /// Inserts an instance and rebuilds the schedule.
    ///
    /// Returns `false`, leaving the queue unchanged, when an instance with
    /// equal data is already present; returns `true` after appending and
    /// rebuilding otherwise.
    pub fn insert(&mut self, instance: Instance<T>) -> (r: bool)
        requires
            old(self).wf(),
            fold_lcm(
                weights_of(old(self).spec_candidates()).push(instance.spec_weight() as int),
            ) + 1 <= usize::MAX as int,
            (old(self).spec_candidates().len() + 2) * (seq_sum(
                weights_of(old(self).spec_candidates()),
            ) + instance.spec_weight()) <= isize::MAX as int,
        ensures
            final(self).wf(),
            final(self).spec_cursor() == old(self).spec_cursor(),
            r ==> final(self).spec_candidates() == old(self).spec_candidates().push(instance),
            !r ==> final(self).spec_candidates() == old(self).spec_candidates() && final(self).spec_schedule() == old(self).spec_schedule(),
            T::obeys_eq_spec() ==> (r <==> !has_data(old(self).spec_candidates(), instance)),
    {
        let r = self.insert_uncalculated(instance);
        if r {
            proof {
                assert(weights_of(self.instance_list@) =~= weights_of(
                    old(self).instance_list@,
                ).push(instance.spec_weight() as int));
                lemma_sum_push(
                    weights_of(old(self).instance_list@),
                    instance.spec_weight() as int,
                );
            }
            self.recalculate_queue();
        }
        r
    }

    /// Offers every element of the list in order, skipping duplicates, and
    /// rebuilds the schedule once at the end.
    ///
    /// Returns `true` only when none of the elements was a duplicate.
    ///
    /// The size preconditions go through the product of all weights, old
    /// and offered: the product caps the folded least common multiple of
    /// whichever subset survives the duplicate checks, so the rebuilt
    /// schedule fits whatever that subset turns out to be.
    pub fn insert_many(&mut self, instances: Vec<Instance<T>>) -> (r: bool)
        requires
            old(self).wf(),
            seq_product(
                weights_of(old(self).spec_candidates()) + weights_of(instances@),
            ) + 1 <= usize::MAX as int,
            (old(self).spec_candidates().len() + instances@.len() + 1) * (seq_sum(
                weights_of(old(self).spec_candidates()),
            ) + seq_sum(weights_of(instances@))) <= isize::MAX as int,
        ensures
            final(self).wf(),
            final(self).spec_cursor() == old(self).spec_cursor(),
            r ==> final(self).spec_candidates() == old(self).spec_candidates() + instances@,
            T::obeys_eq_spec() ==> final(self).spec_candidates() == insert_all(
                old(self).spec_candidates(),
                instances@,
            ),
            T::obeys_eq_spec() ==> (r <==> all_fresh(old(self).spec_candidates(), instances@)),
    {
        let ghost orig = old(self).instance_list@;
        let ghost xs_all = instances@;
        let mut rest = instances;
        let mut ok = true;
        let ghost mut taken = Seq::<Instance<T>>::empty();
        proof {
            assert(Seq::<Instance<T>>::empty() + instances@ =~= instances@);
            assert(orig + Seq::<Instance<T>>::empty() =~= orig);
        }
        while rest.len() > 0
            invariant
                wts_ok(weights_of(self.instance_list@)),
                self.cur_idx == old(self).cur_idx,
                self.select_queue == old(self).select_queue,
                xs_all == taken + rest@,
                ok ==> self.instance_list@ == orig + taken,
                T::obeys_eq_spec() ==> insert_all(orig, xs_all) == insert_all(
                    self.instance_list@,
                    rest@,
                ),
                T::obeys_eq_spec() ==> (all_fresh(orig, xs_all) <==> ok && all_fresh(
                    self.instance_list@,
                    rest@,
                )),
                seq_product(
                    weights_of(self.instance_list@) + weights_of(rest@),
                ) + 1 <= usize::MAX as int,
                (self.instance_list@.len() + rest@.len() + 1) * (seq_sum(
                    weights_of(self.instance_list@),
                ) + seq_sum(weights_of(rest@))) <= isize::MAX as int,
            decreases rest.len(),
        {
            let ghost cur_list = self.instance_list@;
            let ghost rest0 = rest@;
            let inst = rest.remove(0);
            let ghost w0 = inst.spec_weight() as int;
            let r1 = self.insert_uncalculated(inst);
            proof {
                assert(rest@ =~= rest0.drop_first());
                assert(weights_of(rest0) =~= seq![w0] + weights_of(rest@));
                lemma_insert_many_step(cur_list, self.instance_list@, rest0, rest@, inst, r1);
            }
            if !r1 {
                ok = false;
            }
            proof {
                let taken0 = taken;
                taken = taken + seq![inst];
                assert(xs_all =~= taken + rest@);
                if r1 {
                    assert((orig + taken0).push(inst) =~= orig + (taken0 + seq![inst]));
                }
            }
        }
        proof {
            assert(rest@ =~= Seq::<Instance<T>>::empty());
            assert(xs_all =~= taken);
            assert(weights_of(self.instance_list@) + weights_of(rest@) =~= weights_of(
                self.instance_list@,
            ));
            lemma_fold_lcm_le_product(weights_of(self.instance_list@));
        }
        self.recalculate_queue();
        ok
    }

    /// Removes the first instance with data equal to that of the argument
    /// and rebuilds the schedule; reports whether a removal occurred.
    ///
    /// When no instance matches, the queue is left untouched and `false` is
    /// returned.
    ///
    /// The size preconditions go through the product of the current
    /// weights, which caps the folded least common multiple of the
    /// remaining weights whichever instance is removed.
    pub fn delete_instance(&mut self, instance: Instance<T>) -> (r: bool)
        requires
            old(self).wf(),
            seq_product(weights_of(old(self).spec_candidates())) + 1 <= usize::MAX as int,
            (old(self).spec_candidates().len() + 1) * seq_sum(
                weights_of(old(self).spec_candidates()),
            ) <= isize::MAX as int,
        ensures
            final(self).wf(),
            final(self).spec_cursor() == old(self).spec_cursor(),
            !r ==> final(self).spec_candidates() == old(self).spec_candidates() && final(self).spec_schedule() == old(self).spec_schedule(),
            r ==> exists|k: int|
                0 <= k < old(self).spec_candidates().len() && final(self).spec_candidates()
                    == old(self).spec_candidates().remove(k),
            T::obeys_eq_spec() ==> (r <==> has_data(old(self).spec_candidates(), instance)),
            T::obeys_eq_spec() && r ==> exists|k: int|
                {
                    &&& 0 <= k < old(self).spec_candidates().len()
                    &&& (#[trigger] old(self).spec_candidates()[k].spec_data()).eq_spec(
                        &instance.spec_data(),
                    )
                    &&& forall|j: int|
                        0 <= j < k ==> !(#[trigger] old(self).spec_candidates()[j].spec_data()).eq_spec(&instance.spec_data())
                    &&& final(self).spec_candidates() == old(self).spec_candidates().remove(k)
                },
    {
        match Self::find_position(&self.instance_list, &instance) {
            None => false,
            Some(i) => {
                let ghost ws_old = weights_of(old(self).instance_list@);
                self.instance_list.remove(i);
                proof {
                    assert(weights_of(self.instance_list@) =~= ws_old.remove(i as int));
                    lemma_product_remove(ws_old, i as int);
                    lemma_product_pos(ws_old.remove(i as int));
                    assert(seq_product(ws_old.remove(i as int)) <= seq_product(ws_old))
                        by (nonlinear_arith)
                        requires
                            seq_product(ws_old) == seq_product(ws_old.remove(i as int))
                                * ws_old[i as int],
                            1 <= ws_old[i as int],
                            1 <= seq_product(ws_old.remove(i as int)),
                    ;
                    lemma_fold_lcm_le_product(ws_old.remove(i as int));
                    lemma_sum_remove(ws_old, i as int);
                    lemma_sum_lower(ws_old.remove(i as int), 1);
                    lemma_sum_lower(ws_old, 1);
                    let n_old = old(self).instance_list@.len() as int;
                    assert((n_old + 0) * seq_sum(ws_old.remove(i as int)) <= (n_old + 1)
                        * seq_sum(ws_old)) by (nonlinear_arith)
                        requires
                            0 <= seq_sum(ws_old.remove(i as int)),
                            seq_sum(ws_old.remove(i as int)) <= seq_sum(ws_old),
                            1 <= n_old,
                    ;
                }
                self.recalculate_queue();
                true
            },
        }
    }

    /// Empties the queue: no instances, an empty schedule, and the cursor
    /// back at zero.
    pub fn clear_instance(&mut self)
        ensures
            final(self).wf(),
            final(self).spec_candidates().len() == 0,
            final(self).spec_schedule().len() == 0,
            final(self).spec_cursor() == 0,
    {
        self.instance_list = Vec::new();
        self.cur_idx = 0;
        self.select_queue = Vec::new();
    }

    /// Selects the next instance.
    ///
    /// With no instances the result is `None` and nothing changes.
    /// Otherwise the cursor advances by one (wrapping at its maximum) and
    /// the instance at the schedule slot of the old cursor, taken modulo the
    /// schedule length, is returned.
    pub fn select(&mut self) -> (r: Option<&Instance<T>>)
        requires
            old(self).wf(),
        ensures
            final(self).wf(),
            final(self).spec_candidates() == old(self).spec_candidates(),
            final(self).spec_schedule() == old(self).spec_schedule(),
            match r {
                None => old(self).spec_candidates().len() == 0 && final(self).spec_cursor() == old(self).spec_cursor(),
                Some(inst) => {
                    &&& old(self).spec_candidates().len() > 0
                    &&& final(self).spec_cursor() == (if old(self).spec_cursor() == usize::MAX {
                        0
                    } else {
                        old(self).spec_cursor() + 1
                    })
                    &&& *inst == old(self).spec_candidates()[old(self).spec_schedule()[old(self).spec_cursor() as int % old(self).spec_schedule().len() as int] as int]
                },
            },
    {
        if self.instance_list.len() == 0 {
            None
        } else {
            proof {
                lemma_fold_lcm_le_product(weights_of(self.instance_list@));
            }
            let idx = self.cur_idx;
            if self.cur_idx == usize::MAX {
                self.cur_idx = 0;
            } else {
                self.cur_idx = self.cur_idx + 1;
            }
            let qlen = self.select_queue.len();
            let slot = idx % qlen;
            let inst_idx = self.select_queue[slot];
            Some(&self.instance_list[inst_idx])
        }
    }
}

impl<T: PartialEq> Default for WrrQueue<T> {
    /// An empty queue.
    fn default() -> (r: Self)
        ensures
            r.wf(),
            r.spec_candidates().len() == 0,
            r.spec_schedule().len() == 0,
            r.spec_cursor() == 0,
    {
        WrrQueue::new()
    }
}

/// Proportionality of selection: in any prefix of `m` schedule slots of a
/// well-formed, non-empty queue, candidate `k` occupies a number of slots
/// `c` with `m*w + w - n*S <= S*c <= m*w + w + S - 1`, where `w` is its
/// weight, `S` the total weight and `n` the number of candidates.  So each
/// candidate's share of the slots tracks `w / S` up to a bounded rounding
/// term, and over the full schedule of `L + 1` slots its count is
/// proportional to its weight within that rounding.
pub proof fn lemma_selection_proportional<T: PartialEq>(q: WrrQueue<T>, m: int, k: int)
    requires
        q.wf(),
        1 <= q.spec_candidates().len(),
        0 <= k < q.spec_candidates().len(),
        0 <= m <= q.spec_schedule().len(),
    ensures
        ({
            let ws = weights_of(q.spec_candidates());
            let c = count_of(ints_of_usizes(q.spec_schedule()).take(m), k);
            &&& m * ws[k] + ws[k] - ws.len() * seq_sum(ws) <= seq_sum(ws) * c
            &&& seq_sum(ws) * c <= m * ws[k] + ws[k] + seq_sum(ws) - 1
        }),
{
    let ws = weights_of(q.spec_candidates());
    assert(ints_of_usizes(q.spec_schedule()).take(m) =~= choices_upto(ws, m as nat));
    lemma_schedule_proportional(ws, m as nat, k);
}

/// Equal weights give a strict round-robin in insertion order: every slot
/// `t` of the schedule of a well-formed, non-empty queue whose candidates
/// all carry the same weight holds candidate `t` modulo the number of
/// candidates.
pub proof fn lemma_equal_weights_round_robin<T: PartialEq>(q: WrrQueue<T>, t: int)
    requires
        q.wf(),
        1 <= q.spec_candidates().len(),
        forall|i: int|
            0 <= i < q.spec_candidates().len() ==> #[trigger] weights_of(q.spec_candidates())[i]
                == weights_of(q.spec_candidates())[0],
        0 <= t < q.spec_schedule().len(),
    ensures
        q.spec_schedule()[t] as int == t % (q.spec_candidates().len() as int),
{
    lemma_equal_weights_state(weights_of(q.spec_candidates()), t as nat);
}

/// One offering step of `insert_many` preserves its bookkeeping: the final
/// outcome of the remaining offers is unchanged, and the size bounds only
/// shrink.
proof fn lemma_insert_many_step<T: PartialEq>(
    before: Seq<Instance<T>>,
    after: Seq<Instance<T>>,
    rest0: Seq<Instance<T>>,
    rest1: Seq<Instance<T>>,
    inst: Instance<T>,
    appended: bool,
)
    requires
        rest0.len() >= 1,
        rest0[0] == inst,
        rest1 == rest0.drop_first(),
        1 <= inst.spec_weight(),
        appended ==> after == before.push(inst),
        !appended ==> after == before,
        T::obeys_eq_spec() ==> (appended <==> !has_data(before, inst)),
        seq_product(weights_of(before) + weights_of(rest0)) + 1 <= usize::MAX as int,
        (before.len() + rest0.len() + 1) * (seq_sum(weights_of(before)) + seq_sum(
            weights_of(rest0),
        )) <= isize::MAX as int,
        wts_ok(weights_of(before)),
    ensures
        wts_ok(weights_of(after)),
        T::obeys_eq_spec() ==> insert_all(before, rest0) == insert_all(after, rest1),
        T::obeys_eq_spec() ==> (all_fresh(before, rest0) <==> appended && all_fresh(after, rest1)),
        seq_product(weights_of(after) + weights_of(rest1)) + 1 <= usize::MAX as int,
        (after.len() + rest1.len() + 1) * (seq_sum(weights_of(after)) + seq_sum(
            weights_of(rest1),
        )) <= isize::MAX as int,
{
    let w0 = inst.spec_weight() as int;
    assert(weights_of(rest0) =~= seq![w0] + weights_of(rest1));
    assert(seq![w0].drop_last() =~= Seq::<int>::empty());
    assert(seq_product(Seq::<int>::empty()) == 1);
    assert(seq![w0].last() == w0);
    assert(seq_product(seq![w0]) == w0);
    lemma_product_concat(weights_of(before), weights_of(rest0));
    lemma_product_concat(weights_of(before), seq![w0] + weights_of(rest1));
    lemma_product_concat(seq![w0], weights_of(rest1));
    lemma_sum_push(weights_of(before), w0);
    assert((seq![w0] + weights_of(rest1))[0] == w0);
    assert((seq![w0] + weights_of(rest1)).drop_first() =~= weights_of(rest1));
    assert(seq_sum(weights_of(rest0)) == w0 + seq_sum(weights_of(rest1)));
    if appended {
        assert(weights_of(after) =~= weights_of(before).push(w0));
        assert(weights_of(after) =~= weights_of(before) + seq![w0]);
        lemma_product_concat(weights_of(before), seq![w0]);
        lemma_product_concat(weights_of(after), weights_of(rest1));
        assert(weights_of(after) + weights_of(rest1) =~= weights_of(before) + (seq![w0]
            + weights_of(rest1)));
        assert((seq_product(weights_of(before)) * w0) * seq_product(weights_of(rest1))
            == seq_product(weights_of(before)) * (w0 * seq_product(weights_of(rest1))))
            by (nonlinear_arith);
        assert(seq_sum(weights_of(after)) + seq_sum(weights_of(rest1)) == seq_sum(
            weights_of(before),
        ) + seq_sum(weights_of(rest0)));
        assert(after.len() + rest1.len() + 1 == before.len() + rest0.len() + 1);
    } else {
        assert(weights_of(after) == weights_of(before));
        lemma_product_concat(weights_of(after), weights_of(rest1));
        lemma_product_pos(weights_of(before));
        assert(forall|i: int|
            0 <= i < weights_of(rest1).len() ==> 0 <= #[trigger] weights_of(rest1)[i]);
        lemma_product_nonneg(weights_of(rest1));
        assert(seq_product(weights_of(before)) * seq_product(weights_of(rest1)) <= seq_product(
            weights_of(before),
        ) * (w0 * seq_product(weights_of(rest1)))) by (nonlinear_arith)
            requires
                1 <= seq_product(weights_of(before)),
                0 <= seq_product(weights_of(rest1)),
                1 <= w0,
        ;
        assert(forall|i: int|
            0 <= i < weights_of(before).len() ==> 0 <= #[trigger] weights_of(before)[i]);
        lemma_sum_lower(weights_of(before), 0);
        lemma_sum_lower(weights_of(rest1), 0);
        assert((after.len() + rest1.len() + 1) * (seq_sum(weights_of(after)) + seq_sum(
            weights_of(rest1),
        )) <= (before.len() + rest0.len() + 1) * (seq_sum(weights_of(before)) + seq_sum(
            weights_of(rest0),
        ))) by (nonlinear_arith)
            requires
                after.len() == before.len(),
                rest0.len() == rest1.len() + 1,
                weights_of(after) == weights_of(before),
                seq_sum(weights_of(rest0)) == w0 + seq_sum(weights_of(rest1)),
                1 <= w0,
                0 <= seq_sum(weights_of(before)),
                0 <= seq_sum(weights_of(rest1)),
        ;
    }
}

} // verus!
