//! Splitting work into parts: plans of part sizes, their running sums, and the
//! slices that a plan cuts.

use vstd::prelude::*;

verus! {

/// The sum of the first `k` elements of `v`.
pub open spec fn prefix_sum(v: Seq<usize>, k: int) -> int
    decreases k,
{
    if k <= 0 || v.len() == 0 {
        0
    } else if k > v.len() {
        prefix_sum(v, v.len() as int)
    } else {
        prefix_sum(v, k - 1) + v[k - 1]
    }
}

/// Prefix sums never decrease.
pub proof fn lemma_prefix_sum_mono(v: Seq<usize>, a: int, b: int)
    requires
        0 <= a <= b <= v.len(),
    ensures
        prefix_sum(v, a) <= prefix_sum(v, b),
    decreases b - a,
{
    if a < b {
        lemma_prefix_sum_mono(v, a, b - 1);
    }
}

/// The plan of `task_split_simple`: `n` parts of `total / n`, the last one taking the remainder.
pub open spec fn task_split_simple_spec(total: int, n: int) -> Seq<usize> {
    Seq::new(n as nat, |i: int| if i == n - 1 { (total / n + total % n) as usize } else { (total / n) as usize })
}

/// The plan of `task_split_improved`: `n` parts of `total / n`, the first `total % n`
/// of them one larger.
pub open spec fn task_split_improved_spec(total: int, n: int) -> Seq<usize> {
    Seq::new(n as nat, |i: int| if i < total % n { (total / n + 1) as usize } else { (total / n) as usize })
}

/// `coll` holds the consecutive slices of `s` whose lengths `plan` gives, element by element
/// clones of `s`.
pub open spec fn is_split_by<T: Clone>(coll: Seq<Vec<T>>, s: Seq<T>, plan: Seq<usize>) -> bool {
    &&& coll.len() == plan.len()
    &&& forall|k: int| 0 <= k < coll.len() ==> (#[trigger] coll[k])@.len() == plan[k]
    &&& forall|k: int, j: int| 0 <= k < coll.len() && 0 <= j < plan[k] ==>
            cloned(s[prefix_sum(plan, k) + j], #[trigger] coll[k]@[j])
}

/// Splits `total` into `n` parts: `total / n` each, the remainder added to the last.
pub fn task_split_simple(total: usize, n: usize) -> (r: Vec<usize>)
    requires
        total >= n && n > 0,
    ensures
        r@ == task_split_simple_spec(total as int, n as int),
{
    let partial_size = total / n;
    let rem = total % n;
    let mut res: Vec<usize> = Vec::new();
    let mut i: usize = 0;
    while i < n
        invariant
            n > 0,
            partial_size == total / n,
            i <= n,
            res@.len() == i,
            forall|j: int| 0 <= j < i ==> #[trigger] res@[j] == partial_size,
        decreases n - i,
    {
        res.push(partial_size);
        i = i + 1;
    }
    proof {
        vstd::arithmetic::div_mod::lemma_fundamental_div_mod(total as int, n as int);
        assert(partial_size + rem <= total) by (nonlinear_arith)
            requires
                total == n * partial_size + rem,
                n >= 1,
                partial_size >= 0,
        ;
    }
    let last = res[n - 1] + rem;
    res.set(n - 1, last);
    assert(res@ =~= task_split_simple_spec(total as int, n as int));
    res
}

/// Splits `total` into `n` parts: `total / n` each, the first `total % n` parts one larger.
pub fn task_split_improved(total: usize, n: usize) -> (r: Vec<usize>)
    requires
        total >= n && n > 0,
    ensures
        r@ == task_split_improved_spec(total as int, n as int),
{
    let partial_size = total / n;
    let mut rem = total % n;
    let ghost rem0 = rem;
    let mut res: Vec<usize> = Vec::new();
    let mut i: usize = 0;
    proof {
        vstd::arithmetic::div_mod::lemma_fundamental_div_mod(total as int, n as int);
        assert(total % n > 0 ==> partial_size + 1 <= total) by (nonlinear_arith)
            requires
                total == n * partial_size + total % n,
                n >= 1,
                total >= n,
                partial_size >= 0,
        ;
    }
    while i < n
        invariant
            n > 0,
            partial_size == total / n,
            rem0 > 0 ==> partial_size + 1 <= total,
            rem0 == total % n,
            i <= n,
            rem == if i < rem0 { rem0 - i } else { 0 },
            res@.len() == i,
            forall|j: int| 0 <= j < i ==> #[trigger] res@[j] == (if j < rem0 { partial_size + 1 } else { partial_size as int }),
        decreases n - i,
    {
        if rem == 0 {
            res.push(partial_size);
        } else {
            rem = rem - 1;
            res.push(partial_size + 1);
        }
        i = i + 1;
    }
    assert(res@ =~= task_split_improved_spec(total as int, n as int));
    res
}

/// The running sums of `input`.
pub fn sum_scan(input: &[usize]) -> (r: Vec<usize>)
    requires
        prefix_sum(input@, input@.len() as int) <= usize::MAX,
    ensures
        r@.len() == input@.len(),
        forall|k: int| 0 <= k < r@.len() ==> #[trigger] r@[k] == prefix_sum(input@, k + 1),
{
    let mut acc: usize = 0;
    let mut res: Vec<usize> = Vec::new();
    let mut i: usize = 0;
    while i < input.len()
        invariant
            prefix_sum(input@, input@.len() as int) <= usize::MAX,
            i <= input@.len(),
            acc == prefix_sum(input@, i as int),
            res@.len() == i,
            forall|k: int| 0 <= k < i ==> #[trigger] res@[k] == prefix_sum(input@, k + 1),
        decreases input@.len() - i,
    {
        proof {
            lemma_prefix_sum_mono(input@, i + 1, input@.len() as int);
        }
        acc = acc + input[i];
        res.push(acc);
        i = i + 1;
    }
    res
}

/// Cuts `s` into the consecutive slices whose lengths the plan for `(s.len(), n)` gives.
pub fn _split<T: Clone, F: Fn(usize, usize) -> Vec<usize>>(plan: F, s: &[T], n: usize) -> (coll: Vec<Vec<T>>)
    requires
        plan.requires((s@.len() as usize, n)),
        forall|r: Vec<usize>| #[trigger] plan.ensures((s@.len() as usize, n), r) ==> prefix_sum(r@, r@.len() as int) == s@.len(),
    ensures
        exists|r: Vec<usize>| #[trigger] plan.ensures((s@.len() as usize, n), r) && is_split_by(coll@, s@, r@),
{
    let split_plan = plan(s.len(), n);
    let sums = sum_scan(split_plan.as_slice());
    let mut coll: Vec<Vec<T>> = Vec::new();
    let mut start: usize = 0;
    let mut k: usize = 0;
    while k < split_plan.len()
        invariant
            plan.ensures((s@.len() as usize, n), split_plan),
            prefix_sum(split_plan@, split_plan@.len() as int) == s@.len(),
            sums@.len() == split_plan@.len(),
            forall|j: int| 0 <= j < sums@.len() ==> #[trigger] sums@[j] == prefix_sum(split_plan@, j + 1),
            k <= split_plan@.len(),
            start == prefix_sum(split_plan@, k as int),
            coll@.len() == k,
            forall|kk: int| 0 <= kk < k ==> (#[trigger] coll@[kk])@.len() == split_plan@[kk],
            forall|kk: int, j: int| 0 <= kk < k && 0 <= j < split_plan@[kk] ==>
                cloned(s@[prefix_sum(split_plan@, kk) + j], #[trigger] coll@[kk]@[j]),
        decreases split_plan@.len() - k,
    {
        let end = sums[k];
        proof {
            lemma_prefix_sum_mono(split_plan@, k + 1, split_plan@.len() as int);
        }
        let mut piece: Vec<T> = Vec::new();
        let mut j = start;
        while j < end
            invariant
                start <= j <= end <= s@.len(),
                piece@.len() == j - start,
                forall|x: int| 0 <= x < j - start ==> cloned(s@[start + x], #[trigger] piece@[x]),
            decreases end - j,
        {
            piece.push(s[j].clone());
            j = j + 1;
        }
        coll.push(piece);
        start = end;
        k = k + 1;
    }
    coll
}

/// Cuts `s` into `n` slices by `task_split_simple`.
pub fn split_simple<T: Clone>(s: &[T], n: usize) -> (coll: Vec<Vec<T>>)
    requires
        s@.len() >= n && n > 0,
    ensures
        is_split_by(coll@, s@, task_split_simple_spec(s@.len() as int, n as int)),
{
    let len = s.len();
    proof {
        lemma_plan_simple_sums(len as int, n as int);
        assert forall|r: Vec<usize>| #[trigger] task_split_simple.ensures((len, n), r) implies
            prefix_sum(r@, r@.len() as int) == len by {
            assert(r@ == task_split_simple_spec(len as int, n as int));
        }
    }
    let coll = _split(task_split_simple, s, n);
    proof {
        let r = choose|r: Vec<usize>| #[trigger] task_split_simple.ensures((len, n), r) && is_split_by(coll@, s@, r@);
        assert(r@ == task_split_simple_spec(len as int, n as int));
    }
    coll
}

/// Cuts `s` into `n` slices by `task_split_improved`.
pub fn split_improved<T: Clone>(s: &[T], n: usize) -> (coll: Vec<Vec<T>>)
    requires
        s@.len() >= n && n > 0,
    ensures
        is_split_by(coll@, s@, task_split_improved_spec(s@.len() as int, n as int)),
{
    let len = s.len();
    proof {
        lemma_plan_improved_sums(len as int, n as int);
        assert forall|r: Vec<usize>| #[trigger] task_split_improved.ensures((len, n), r) implies
            prefix_sum(r@, r@.len() as int) == len by {
            assert(r@ == task_split_improved_spec(len as int, n as int));
        }
    }
    let coll = _split(task_split_improved, s, n);
    proof {
        let r = choose|r: Vec<usize>| #[trigger] task_split_improved.ensures((len, n), r) && is_split_by(coll@, s@, r@);
        assert(r@ == task_split_improved_spec(len as int, n as int));
    }
    coll
}

/// The parts of `task_split_simple` add up to the total.
pub proof fn lemma_plan_simple_sums(total: int, n: int)
    requires
        total >= n > 0,
        total <= usize::MAX,
    ensures
        prefix_sum(task_split_simple_spec(total, n), n) == total,
{
    let v = task_split_simple_spec(total, n);
    let q = total / n;
    let r = total % n;
    assert forall|k: int| 0 <= k < n implies #[trigger] prefix_sum(v, k) == k * q by {
        lemma_prefix_simple(v, total, n, k);
    }
    vstd::arithmetic::div_mod::lemma_fundamental_div_mod(total, n);
    assert(prefix_sum(v, n) == prefix_sum(v, n - 1) + v[n - 1]);
    assert((n - 1) * q + (q + r) == total) by (nonlinear_arith)
        requires
            total == n * q + r,
    ;
}

proof fn lemma_prefix_simple(v: Seq<usize>, total: int, n: int, k: int)
    requires
        total >= n > 0,
        total <= usize::MAX,
        v == task_split_simple_spec(total, n),
        0 <= k < n,
    ensures
        prefix_sum(v, k) == k * (total / n),
    decreases k,
{
    assert(0 <= total / n <= total) by {
        vstd::arithmetic::div_mod::lemma_div_pos_is_pos(total, n);
        vstd::arithmetic::div_mod::lemma_div_is_ordered_by_denominator(total, 1, n);
    }
    if k > 0 {
        lemma_prefix_simple(v, total, n, k - 1);
        assert(v.len() == n);
        assert(v[k - 1] == (total / n) as usize);
        assert(v[k - 1] as int == total / n);
        assert(prefix_sum(v, k) == prefix_sum(v, k - 1) + v[k - 1]);
        assert((k - 1) * (total / n) + total / n == k * (total / n)) by (nonlinear_arith);
    } else {
        assert(k * (total / n) == 0) by (nonlinear_arith) requires k == 0;
    }
}

/// The parts of `task_split_improved` add up to the total.
pub proof fn lemma_plan_improved_sums(total: int, n: int)
    requires
        total >= n > 0,
        total <= usize::MAX,
    ensures
        prefix_sum(task_split_improved_spec(total, n), n) == total,
{
    let v = task_split_improved_spec(total, n);
    lemma_prefix_improved(v, total, n, n);
    vstd::arithmetic::div_mod::lemma_fundamental_div_mod(total, n);
    assert(n * (total / n) + total % n == total);
}

proof fn lemma_prefix_improved(v: Seq<usize>, total: int, n: int, k: int)
    requires
        total >= n > 0,
        total <= usize::MAX,
        v == task_split_improved_spec(total, n),
        0 <= k <= n,
    ensures
        prefix_sum(v, k) == k * (total / n) + (if k < total % n { k } else { total % n }),
    decreases k,
{
    assert(0 <= total / n <= total) by {
        vstd::arithmetic::div_mod::lemma_div_pos_is_pos(total, n);
        vstd::arithmetic::div_mod::lemma_div_is_ordered_by_denominator(total, 1, n);
    }
    vstd::arithmetic::div_mod::lemma_fundamental_div_mod(total, n);
    assert(0 <= total % n < n);
    if total % n > 0 {
        assert(n >= 2);
        assert(total / n + 1 <= total) by (nonlinear_arith)
            requires
                total == n * (total / n) + total % n,
                n >= 2,
                total / n >= 0,
                total % n >= 1,
        ;
    }
    if k > 0 {
        lemma_prefix_improved(v, total, n, k - 1);
        assert(v.len() == n);
        assert(prefix_sum(v, k) == prefix_sum(v, k - 1) + v[k - 1]);
        if k - 1 < total % n {
            assert(v[k - 1] as int == total / n + 1);
        } else {
            assert(v[k - 1] as int == total / n);
        }
        assert(v[k - 1] == (if k - 1 < total % n { (total / n + 1) as usize } else { (total / n) as usize }));
        assert((k - 1) * (total / n) + total / n == k * (total / n)) by (nonlinear_arith);
    } else {
        assert(k * (total / n) == 0) by (nonlinear_arith) requires k == 0;
    }
}

/// What `task_split_improved` gives for `total` and `n`: exactly `n` parts
/// that add up to `total`, each `total / n` or one more, the larger ones being
/// exactly the first `total % n`, so no part is smaller than a later one.
pub proof fn law_task_split_improved_plan(total: usize, n: usize, r: Vec<usize>)
    requires
        total >= n && n > 0,
        task_split_improved.ensures((total, n), r),
    ensures
        r@.len() == n,
        prefix_sum(r@, n as int) == total,
        forall|i: int| 0 <= i < n ==> #[trigger] r@[i] == total / n || r@[i] == total / n + 1,
        forall|i: int| 0 <= i < n ==> (#[trigger] r@[i] == total / n + 1 <==> i < total % n),
        forall|i: int, j: int| 0 <= i < j < n ==> #[trigger] r@[i] >= #[trigger] r@[j],
{
    let v = task_split_improved_spec(total as int, n as int);
    assert(r@ == v);
    lemma_plan_improved_sums(total as int, n as int);
    vstd::arithmetic::div_mod::lemma_fundamental_div_mod(total as int, n as int);
    assert(0 <= total as int / n as int <= total) by {
        vstd::arithmetic::div_mod::lemma_div_pos_is_pos(total as int, n as int);
        vstd::arithmetic::div_mod::lemma_div_is_ordered_by_denominator(total as int, 1, n as int);
    }
    if total % n > 0 {
        assert(total / n + 1 <= total) by (nonlinear_arith)
            requires
                total == n * (total / n) + total % n,
                n >= 2 || total % n == 0,
                total % n < n,
                total / n >= 0,
                total % n >= 1,
        ;
    }
}

/// Where part `k` of the plan of `task_split_improved` starts: the sizes of
/// the parts before it added up.
pub open spec fn improved_part_start(total: int, n: int, k: int) -> int {
    k * (total / n) + if k < total % n { k } else { total % n }
}

/// What `split_improved` gives for `s` and `n`: exactly `n` consecutive pieces
/// of `s`, covering it in order; piece `k` has `len / n` elements, one more for
/// the first `len % n` pieces, and its elements are clones of those of `s`
/// from where the pieces before it end.
pub proof fn law_split_improved_parts<T: Clone>(s: &[T], n: usize, coll: Vec<Vec<T>>)
    requires
        s@.len() >= n && n > 0,
        s@.len() <= usize::MAX,
        split_improved::<T>.ensures((s, n), coll),
    ensures
        coll@.len() == n,
        forall|k: int| 0 <= k < n ==> #[trigger] coll@[k]@.len() == (s@.len() as int) / (n as int)
            + (if k < (s@.len() as int) % (n as int) { 1int } else { 0int }),
        forall|k: int, j: int| 0 <= k < n && 0 <= j < coll@[k]@.len() ==>
            cloned(s@[improved_part_start(s@.len() as int, n as int, k) + j], #[trigger] coll@[k]@[j]),
        improved_part_start(s@.len() as int, n as int, n as int) == s@.len(),
{
    let total = s@.len() as int;
    let v = task_split_improved_spec(total, n as int);
    vstd::arithmetic::div_mod::lemma_fundamental_div_mod(total, n as int);
    assert forall|k: int| 0 <= k <= n implies #[trigger] prefix_sum(v, k) == improved_part_start(total, n as int, k) by {
        lemma_prefix_improved(v, total, n as int, k);
    }
    assert(prefix_sum(v, n as int) == improved_part_start(total, n as int, n as int));
    lemma_plan_improved_sums(total, n as int);
    assert forall|k: int| 0 <= k < n implies #[trigger] coll@[k]@.len() == (s@.len() as int) / (n as int)
        + (if k < (s@.len() as int) % (n as int) { 1int } else { 0int }) by {
        assert(coll@[k]@.len() == v[k]);
        assert(0 <= total / (n as int) <= total) by {
            vstd::arithmetic::div_mod::lemma_div_pos_is_pos(total, n as int);
            vstd::arithmetic::div_mod::lemma_div_is_ordered_by_denominator(total, 1, n as int);
        }
        if total % (n as int) > 0 {
            assert(total / (n as int) + 1 <= total) by (nonlinear_arith)
                requires
                    total == n * (total / (n as int)) + total % (n as int),
                    n >= 2,
                    total >= n,
                    total / (n as int) >= 0,
            ;
        }
    }
    assert forall|k: int, j: int| 0 <= k < n && 0 <= j < coll@[k]@.len() implies
        cloned(s@[improved_part_start(total, n as int, k) + j], #[trigger] coll@[k]@[j]) by {
        assert(prefix_sum(v, k) == improved_part_start(total, n as int, k));
    }
}

/// What `task_split_simple` gives for `total` and `n`: exactly `n` parts that
/// add up to `total`, all `total / n` but the last, which also takes the
/// remainder `total % n`.
pub proof fn law_task_split_simple_plan(total: usize, n: usize, r: Vec<usize>)
    requires
        total >= n && n > 0,
        task_split_simple.ensures((total, n), r),
    ensures
        r@.len() == n,
        prefix_sum(r@, n as int) == total,
        forall|i: int| 0 <= i < n - 1 ==> #[trigger] r@[i] == total / n,
        r@[n - 1] == total / n + total % n,
{
    lemma_plan_simple_sums(total as int, n as int);
    vstd::arithmetic::div_mod::lemma_fundamental_div_mod(total as int, n as int);
    assert(total / n + total % n <= total) by (nonlinear_arith)
        requires
            total == n * (total / n) + total % n,
            n >= 1,
            total / n >= 0,
    ;
}

/// What `split_simple` gives for `s` and `n`: exactly `n` consecutive pieces of
/// `s`, covering it in order; each of the first `n - 1` has `len / n`
/// elements, the last one the rest, and piece `k` holds clones of the elements
/// of `s` from `k * (len / n)` on.
pub proof fn law_split_simple_parts<T: Clone>(s: &[T], n: usize, coll: Vec<Vec<T>>)
    requires
        s@.len() >= n && n > 0,
        s@.len() <= usize::MAX,
        split_simple::<T>.ensures((s, n), coll),
    ensures
        coll@.len() == n,
        forall|k: int| 0 <= k < n - 1 ==> #[trigger] coll@[k]@.len() == (s@.len() as int) / (n as int),
        coll@[n - 1]@.len() == s@.len() - (n - 1) * ((s@.len() as int) / (n as int)),
        forall|k: int, j: int| 0 <= k < n && 0 <= j < coll@[k]@.len() ==>
            cloned(s@[k * ((s@.len() as int) / (n as int)) + j], #[trigger] coll@[k]@[j]),
{
    let total = s@.len() as int;
    let v = task_split_simple_spec(total, n as int);
    let q = total / (n as int);
    vstd::arithmetic::div_mod::lemma_fundamental_div_mod(total, n as int);
    assert(0 <= q <= total) by {
        vstd::arithmetic::div_mod::lemma_div_pos_is_pos(total, n as int);
        vstd::arithmetic::div_mod::lemma_div_is_ordered_by_denominator(total, 1, n as int);
    }
    assert(q + total % (n as int) <= total) by (nonlinear_arith)
        requires
            total == n * q + total % (n as int),
            n >= 1,
            q >= 0,
    ;
    assert forall|k: int| 0 <= k < n implies #[trigger] prefix_sum(v, k) == k * q by {
        lemma_prefix_simple(v, total, n as int, k);
    }
    assert(coll@[n - 1]@.len() == v[n - 1]);
    assert(total - (n - 1) * q == q + total % (n as int)) by (nonlinear_arith)
        requires
            total == n * q + total % (n as int),
    ;
    assert forall|k: int, j: int| 0 <= k < n && 0 <= j < coll@[k]@.len() implies
        cloned(s@[k * q + j], #[trigger] coll@[k]@[j]) by {
        assert(prefix_sum(v, k) == k * q);
    }
}

} // verus!
