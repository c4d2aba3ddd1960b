use vstd::prelude::*;

verus! {

/// The sequences of `n` numbers that extend `prefix` with numbers from `start` up to
/// `end`, each greater than the one before, in lexicographic order.
pub open spec fn combos(prefix: Seq<usize>, start: int, end: int, n: int) -> Seq<Seq<usize>>
    decreases end - start, 1int,
{
    if prefix.len() == n {
        seq![prefix]
    } else {
        combos_from(prefix, start, end, n)
    }
}

/// The extensions of `prefix` whose next number is `i` or more, in lexicographic order.
pub open spec fn combos_from(prefix: Seq<usize>, i: int, end: int, n: int) -> Seq<Seq<usize>>
    decreases end - i, 0int,
{
    if i >= end || i < 0 {
        Seq::empty()
    } else {
        combos(prefix.push(i as usize), i + 1, end, n) + combos_from(prefix, i + 1, end, n)
    }
}

/// The number of ways to choose `k` things among `m`.
pub open spec fn binomial(m: nat, k: nat) -> nat
    decreases m,
{
    if k == 0 {
        1
    } else if m == 0 {
        0
    } else {
        binomial((m - 1) as nat, (k - 1) as nat) + binomial((m - 1) as nat, k)
    }
}

/// `x` extends `prefix` to `n` numbers, each new one from `start` up to `end` and
/// greater than the one before.
pub open spec fn increasing_extension(x: Seq<usize>, prefix: Seq<usize>, start: int, end: int, n: int) -> bool {
    &&& x.len() == n
    &&& prefix.len() <= n
    &&& x.take(prefix.len() as int) == prefix
    &&& forall|i: int| prefix.len() <= i < n ==> start <= #[trigger] x[i] < end
    &&& forall|i: int, j: int| prefix.len() <= i < j < n ==> x[i] < x[j]
}

/// The contents of each vector.
pub open spec fn views(s: Seq<Vec<usize>>) -> Seq<Seq<usize>> {
    s.map_values(|v: Vec<usize>| v@)
}

/// A copy of the numbers.
fn copy_indices(v: &Vec<usize>) -> (r: Vec<usize>)
    ensures
        r@ == v@,
{
    let mut out: Vec<usize> = Vec::new();
    let mut i: usize = 0;
    while i < v.len()
        invariant
            i <= v@.len(),
            out@ == v@.take(i as int),
        decreases v@.len() - i,
    {
        assert(v@.take(i + 1) == v@.take(i as int).push(v@[i as int]));
        out.push(v[i]);
        i = i + 1;
    }
    assert(v@.take(v@.len() as int) == v@);
    out
}

/// Appends to `out`, in lexicographic order, every way to extend `curr` to `n` numbers
/// taken from `start` up to `end`, each greater than the one before.
pub fn comb(curr: &mut Vec<usize>, start: usize, end: usize, n: usize, out: &mut Vec<Vec<usize>>)
    ensures
        final(curr)@ == old(curr)@,
        views(final(out)@) == views(old(out)@) + combos(old(curr)@, start as int, end as int, n as int),
    decreases end - start,
{
    if curr.len() == n {
        let c = copy_indices(curr);
        let ghost before = out@;
        out.push(c);
        assert(views(out@) =~= views(before) + seq![curr@]);
        return;
    }
    let ghost prefix = curr@;
    let ghost out0 = views(out@);
    let mut i = start;
    while i < end
        invariant
            start <= i <= end || (i == start && start > end),
            curr@ == prefix,
            prefix.len() != n,
            views(out@) + combos_from(prefix, i as int, end as int, n as int) == out0
                + combos_from(prefix, start as int, end as int, n as int),
        decreases end - i,
    {
        let ghost mid = views(out@);
        curr.push(i);
        comb(curr, i + 1, end, n, out);
        let ghost popped = curr@;
        curr.pop();
        assert(curr@ =~= prefix);
        let ghost c = combos(prefix.push(i), i + 1, end as int, n as int);
        assert(views(out@) == mid + c);
        assert(combos_from(prefix, i as int, end as int, n as int) == c + combos_from(
            prefix,
            i + 1,
            end as int,
            n as int,
        ));
        assert(mid + c + combos_from(prefix, i + 1, end as int, n as int) =~= mid + (c
            + combos_from(prefix, i + 1, end as int, n as int)));
        i = i + 1;
    }
    assert(combos_from(prefix, i as int, end as int, n as int) =~= Seq::<Seq<usize>>::empty());
    assert(views(out@) =~= out0 + combos(prefix, start as int, end as int, n as int));
}

proof fn lemma_extension_step(x: Seq<usize>, prefix: Seq<usize>, i: int, start: int, end: int, n: int)
    requires
        prefix.len() < n,
        start <= i < end,
        increasing_extension(x, prefix.push(i as usize), i + 1, end, n),
        0 <= i,
        end <= usize::MAX + 1,
    ensures
        increasing_extension(x, prefix, start, end, n),
        x[prefix.len() as int] == i,
{
    let p = prefix.len() as int;
    assert(x.take(p + 1)[p] == i as usize);
    assert(x.take(p) =~= x.take(p + 1).take(p));
    assert(x.take(p + 1).take(p) =~= prefix);
}

/// Every sequence that the enumeration lists extends the prefix with increasing numbers in range.
pub proof fn lemma_combos_sound(prefix: Seq<usize>, start: int, end: int, n: int)
    requires
        prefix.len() <= n,
        0 <= start,
        end <= usize::MAX + 1,
    ensures
        forall|k: int|
            0 <= k < combos(prefix, start, end, n).len() ==> increasing_extension(
                #[trigger] combos(prefix, start, end, n)[k],
                prefix,
                start,
                end,
                n,
            ),
    decreases end - start, 1int,
{
    if prefix.len() == n {
        assert(prefix.take(n) =~= prefix);
        assert forall|k: int| 0 <= k < combos(prefix, start, end, n).len() implies increasing_extension(
            #[trigger] combos(prefix, start, end, n)[k],
            prefix,
            start,
            end,
            n,
        ) by {
            assert(combos(prefix, start, end, n)[k] == prefix);
        }
    } else {
        lemma_combos_from_sound(prefix, start, end, n);
        assert(combos(prefix, start, end, n) == combos_from(prefix, start, end, n));
    }
}

proof fn lemma_combos_from_sound(prefix: Seq<usize>, i: int, end: int, n: int)
    requires
        prefix.len() < n,
        0 <= i,
        end <= usize::MAX + 1,
    ensures
        forall|k: int|
            0 <= k < combos_from(prefix, i, end, n).len() ==> increasing_extension(
                #[trigger] combos_from(prefix, i, end, n)[k],
                prefix,
                i,
                end,
                n,
            ),
    decreases end - i, 0int,
{
    if i < end {
        let a = combos(prefix.push(i as usize), i + 1, end, n);
        let b = combos_from(prefix, i + 1, end, n);
        lemma_combos_sound(prefix.push(i as usize), i + 1, end, n);
        lemma_combos_from_sound(prefix, i + 1, end, n);
        assert forall|k: int| 0 <= k < (a + b).len() implies increasing_extension(
            #[trigger] (a + b)[k],
            prefix,
            i,
            end,
            n,
        ) by {
            if k < a.len() {
                assert(increasing_extension(a[k], prefix.push(i as usize), i + 1, end, n));
                lemma_extension_step(a[k], prefix, i, i, end, n);
            } else {
                assert(increasing_extension(b[k - a.len()], prefix, i + 1, end, n));
            }
        }
    }
}

proof fn lemma_combos_from_contains(
    prefix: Seq<usize>,
    j: int,
    i: int,
    end: int,
    n: int,
    x: Seq<usize>,
)
    requires
        0 <= j <= i < end,
        combos(prefix.push(i as usize), i + 1, end, n).contains(x),
    ensures
        combos_from(prefix, j, end, n).contains(x),
    decreases i - j,
{
    let a = combos(prefix.push(j as usize), j + 1, end, n);
    let b = combos_from(prefix, j + 1, end, n);
    if j == i {
        let k = choose|k: int| 0 <= k < a.len() && a[k] == x;
        assert((a + b)[k] == x);
    } else {
        lemma_combos_from_contains(prefix, j + 1, i, end, n, x);
        let k = choose|k: int| 0 <= k < b.len() && b[k] == x;
        assert((a + b)[a.len() + k] == x);
    }
}

/// Every way to extend the prefix with increasing numbers in range is listed.
pub proof fn lemma_combos_complete(x: Seq<usize>, prefix: Seq<usize>, start: int, end: int, n: int)
    requires
        increasing_extension(x, prefix, start, end, n),
        0 <= start,
    ensures
        combos(prefix, start, end, n).contains(x),
    decreases n - prefix.len(),
{
    let p = prefix.len() as int;
    if p == n {
        assert(x =~= x.take(p));
        assert(combos(prefix, start, end, n)[0] == x);
    } else {
        let i = x[p] as int;
        assert(x.take(p + 1) =~= prefix.push(i as usize));
        assert forall|k: int| p + 1 <= k < n implies i + 1 <= #[trigger] x[k] < end by {
            assert(x[p] < x[k]);
        }
        lemma_combos_complete(x, prefix.push(i as usize), i + 1, end, n);
        lemma_combos_from_contains(prefix, start, i, end, n, x);
    }
}

/// There are as many listed sequences as ways to choose the missing numbers in the range.
pub proof fn lemma_combos_len(prefix: Seq<usize>, start: int, end: int, n: int)
    requires
        prefix.len() <= n,
        0 <= start <= end,
    ensures
        combos(prefix, start, end, n).len() == binomial(
            (end - start) as nat,
            (n - prefix.len()) as nat,
        ),
    decreases end - start, 1int,
{
    if prefix.len() < n {
        lemma_combos_from_len(prefix, start, end, n);
    }
}

proof fn lemma_combos_from_len(prefix: Seq<usize>, i: int, end: int, n: int)
    requires
        prefix.len() < n,
        0 <= i <= end,
    ensures
        combos_from(prefix, i, end, n).len() == binomial((end - i) as nat, (n - prefix.len()) as nat),
    decreases end - i, 0int,
{
    if i < end {
        lemma_combos_len(prefix.push(i as usize), i + 1, end, n);
        lemma_combos_from_len(prefix, i + 1, end, n);
    }
}

/// No sequence is listed twice.
pub proof fn lemma_combos_distinct(prefix: Seq<usize>, start: int, end: int, n: int)
    requires
        prefix.len() <= n,
        0 <= start,
        end <= usize::MAX + 1,
    ensures
        combos(prefix, start, end, n).no_duplicates(),
    decreases end - start, 1int,
{
    if prefix.len() < n {
        lemma_combos_from_distinct(prefix, start, end, n);
    }
}

proof fn lemma_combos_from_distinct(prefix: Seq<usize>, i: int, end: int, n: int)
    requires
        prefix.len() < n,
        0 <= i,
        end <= usize::MAX + 1,
    ensures
        combos_from(prefix, i, end, n).no_duplicates(),
    decreases end - i, 0int,
{
    if i < end {
        let p = prefix.len() as int;
        let a = combos(prefix.push(i as usize), i + 1, end, n);
        let b = combos_from(prefix, i + 1, end, n);
        lemma_combos_distinct(prefix.push(i as usize), i + 1, end, n);
        lemma_combos_from_distinct(prefix, i + 1, end, n);
        lemma_combos_sound(prefix.push(i as usize), i + 1, end, n);
        lemma_combos_from_sound(prefix, i + 1, end, n);
        let ab = a + b;
        assert forall|k: int, l: int| 0 <= k < ab.len() && 0 <= l < ab.len() && k != l implies ab[k]
            != ab[l] by {
            if k < a.len() && l >= a.len() {
                lemma_extension_step(a[k], prefix, i, i, end, n);
                assert(increasing_extension(b[l - a.len()], prefix, i + 1, end, n));
                assert(b[l - a.len()][p] != a[k][p]);
            } else if l < a.len() && k >= a.len() {
                lemma_extension_step(a[l], prefix, i, i, end, n);
                assert(increasing_extension(b[k - a.len()], prefix, i + 1, end, n));
                assert(b[k - a.len()][p] != a[l][p]);
            } else if k >= a.len() && l >= a.len() {
                assert(b[k - a.len()] != b[l - a.len()]);
            }
        }
    }
}

/// `x` comes before `y` in lexicographic order: they agree up to some place, where `x` has
/// the smaller number.
pub open spec fn lex_before(x: Seq<usize>, y: Seq<usize>) -> bool {
    exists|d: int|
        #![trigger x[d], y[d]]
        0 <= d < x.len() && d < y.len() && x.take(d) == y.take(d) && x[d] < y[d]
}

/// The enumeration lists its sequences in strictly increasing lexicographic order.
pub proof fn lemma_combos_ordered(prefix: Seq<usize>, start: int, end: int, n: int)
    requires
        prefix.len() <= n,
        0 <= start,
        end <= usize::MAX + 1,
    ensures
        forall|k: int, l: int|
            0 <= k < l < combos(prefix, start, end, n).len() ==> lex_before(
                #[trigger] combos(prefix, start, end, n)[k],
                #[trigger] combos(prefix, start, end, n)[l],
            ),
    decreases end - start, 1int,
{
    if prefix.len() < n {
        lemma_combos_from_ordered(prefix, start, end, n);
        assert(combos(prefix, start, end, n) == combos_from(prefix, start, end, n));
    } else {
        assert(combos(prefix, start, end, n).len() == 1);
    }
}

proof fn lemma_combos_from_ordered(prefix: Seq<usize>, i: int, end: int, n: int)
    requires
        prefix.len() < n,
        0 <= i,
        end <= usize::MAX + 1,
    ensures
        forall|k: int, l: int|
            0 <= k < l < combos_from(prefix, i, end, n).len() ==> lex_before(
                #[trigger] combos_from(prefix, i, end, n)[k],
                #[trigger] combos_from(prefix, i, end, n)[l],
            ),
    decreases end - i, 0int,
{
    if i < end {
        let p = prefix.len() as int;
        let a = combos(prefix.push(i as usize), i + 1, end, n);
        let b = combos_from(prefix, i + 1, end, n);
        lemma_combos_ordered(prefix.push(i as usize), i + 1, end, n);
        lemma_combos_from_ordered(prefix, i + 1, end, n);
        lemma_combos_sound(prefix.push(i as usize), i + 1, end, n);
        lemma_combos_from_sound(prefix, i + 1, end, n);
        let ab = a + b;
        assert forall|k: int, l: int| 0 <= k < l < ab.len() implies lex_before(#[trigger] ab[k], #[trigger] ab[l]) by {
            if k < a.len() && l >= a.len() {
                lemma_extension_step(a[k], prefix, i, i, end, n);
                let y = b[l - a.len()];
                assert(increasing_extension(y, prefix, i + 1, end, n));
                assert(ab[k] == a[k] && ab[l] == y);
                assert(a[k].take(p) == y.take(p));
                assert(a[k][p] < y[p]);
            } else if l < a.len() {
                assert(ab[k] == a[k] && ab[l] == a[l]);
                assert(lex_before(a[k], a[l]));
            } else {
                assert(ab[k] == b[k - a.len()] && ab[l] == b[l - a.len()]);
                assert(lex_before(b[k - a.len()], b[l - a.len()]));
            }
        }
    }
}

} // verus!
