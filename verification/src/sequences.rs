use vstd::prelude::*;
use crate::error::AudionError;
use crate::text::chars_of;
use vstd::multiset::Multiset;

verus! {

// ---------------------------------------------------------------------------
// Binary / interval conversions
// ---------------------------------------------------------------------------

/// The first position after `j` that holds a '1', or the end.
pub open spec fn next_one(cs: Seq<char>, j: nat) -> nat
    decreases cs.len() - j,
{
    if j + 1 >= cs.len() {
        cs.len()
    } else if cs[j + 1 as int] == '1' {
        j + 1
    } else {
        next_one(cs, j + 1)
    }
}

/// The intervals of a binary pattern read from `j`: the lengths of the runs that each
/// start at `j` or at a later '1'.
pub open spec fn intervals_from(cs: Seq<char>, j: nat) -> Seq<usize>
    decreases cs.len() - j,
{
    if j >= cs.len() {
        Seq::empty()
    } else {
        let e = next_one(cs, j);
        if j < e <= cs.len() { seq![(e - j) as usize] + intervals_from(cs, e) } else { Seq::empty() }
    }
}

proof fn lemma_next_one(cs: Seq<char>, j: nat)
    requires j < cs.len(),
    ensures j < next_one(cs, j) <= cs.len(),
    decreases cs.len() - j,
{
    if j + 1 < cs.len() && cs[j + 1 as int] != '1' {
        lemma_next_one(cs, j + 1);
    }
}

/// Converts a binary pattern to interval notation: "1010010001001000" gives [2, 3, 4, 3, 4].
pub fn array_seq_binary_to_intervals(binary: &str) -> (r: Vec<usize>)
    ensures
        r@ == intervals_from(binary@, 0),
{
    let chars = chars_of(binary);
    let nbit = chars.len();
    let mut intervals: Vec<usize> = Vec::new();
    let mut j: usize = 0;
    while j < nbit
        invariant
            nbit == chars@.len(),
            chars@ == binary@,
            j <= nbit,
            intervals@ + intervals_from(chars@, j as nat) == intervals_from(chars@, 0),
        decreases nbit - j,
    {
        let ghost j0 = j as nat;
        proof { lemma_next_one(chars@, j0); }
        let mut k: usize = 1;
        j += 1;
        while j < nbit && chars[j] != '1'
            invariant
                nbit == chars@.len(),
                j0 < j <= nbit,
                k == j - j0,
                next_one(chars@, j0) == next_one(chars@, (j - 1) as nat),
            decreases nbit - j,
        {
            k += 1;
            j += 1;
        }
        proof {
            assert(next_one(chars@, (j - 1) as nat) == j);
            assert(seq![k] + intervals_from(chars@, j as nat) == intervals_from(chars@, j0));
            assert(intervals@.push(k) + intervals_from(chars@, j as nat) =~= intervals@ + (seq![k] + intervals_from(chars@, j as nat)));
        }
        intervals.push(k);
    }
    assert(intervals@ + intervals_from(chars@, j as nat) =~= intervals@);
    intervals
}

/// "1" followed by `k - 1` zeros.
pub open spec fn interval_pattern(k: int) -> Seq<char> {
    seq!['1'] + Seq::new((k - 1) as nat, |i: int| '0')
}

/// The binary pattern of a list of positive intervals.
pub open spec fn binary_of_intervals(iv: Seq<i32>) -> Seq<char>
    decreases iv.len(),
{
    if iv.len() == 0 {
        Seq::empty()
    } else {
        binary_of_intervals(iv.drop_last()) + interval_pattern(iv.last() as int)
    }
}

/// Converts interval notation to a binary pattern: [2, 3, 4, 3, 4] gives "1010010001001000".
/// Every interval must be at least 1.
pub fn array_seq_intervals_to_binary(intervals: &[i32]) -> (r: Result<String, AudionError>)
    ensures
        match r {
            Ok(s) => (forall|i: int| 0 <= i < intervals@.len() ==> intervals@[i] >= 1)
                && s@ == binary_of_intervals(intervals@),
            Err(AudionError::RuntimeError { msg }) => (exists|i: int| 0 <= i < intervals@.len() && intervals@[i] < 1)
                && msg@ == "array_seq_intervals_to_binary() requires positive intervals"@,
            Err(_) => false,
        },
{
    let mut result = String::new();
    let mut i: usize = 0;
    while i < intervals.len()
        invariant
            i <= intervals@.len(),
            forall|j: int| 0 <= j < i ==> intervals@[j] >= 1,
            result@ == binary_of_intervals(intervals@.take(i as int)),
        decreases intervals.len() - i,
    {
        let interval = intervals[i];
        if interval < 1 {
            return Err(AudionError::RuntimeError {
                msg: String::from_str("array_seq_intervals_to_binary() requires positive intervals"),
            });
        }
        let ghost before = result@;
        result.push('1');
        let mut z: i32 = 1;
        while z < interval
            invariant
                1 <= z <= interval,
                result@ == before + seq!['1'] + Seq::new((z - 1) as nat, |t: int| '0'),
            decreases interval - z,
        {
            result.push('0');
            z += 1;
            assert(result@ =~= before + seq!['1'] + Seq::new((z - 1) as nat, |t: int| '0'));
        }
        proof {
            assert(intervals@.take(i + 1).drop_last() =~= intervals@.take(i as int));
            assert(result@ =~= before + interval_pattern(interval as int));
        }
        i += 1;
    }
    assert(intervals@.take(intervals@.len() as int) =~= intervals@);
    Ok(result)
}

/// Whether every interval is at least 1.
pub open spec fn all_positive(iv: Seq<i32>) -> bool {
    forall|i: int| 0 <= i < iv.len() ==> #[trigger] iv[i] >= 1
}

proof fn lemma_binary_first(iv: Seq<i32>)
    requires iv.len() > 0,
    ensures binary_of_intervals(iv) == interval_pattern(iv[0] as int) + binary_of_intervals(iv.drop_first()),
    decreases iv.len(),
{
    if iv.len() == 1 {
        assert(iv.drop_first() =~= Seq::<i32>::empty());
        assert(iv.drop_last() =~= Seq::<i32>::empty());
        assert(binary_of_intervals(iv) =~= interval_pattern(iv[0] as int) + binary_of_intervals(iv.drop_first()));
    } else {
        lemma_binary_first(iv.drop_last());
        assert(iv.drop_last().drop_first() =~= iv.drop_first().drop_last());
        assert(iv.drop_first().last() == iv.last());
        assert(binary_of_intervals(iv) =~= interval_pattern(iv[0] as int) + binary_of_intervals(iv.drop_first()));
    }
}

proof fn lemma_next_one_skips_zeros(cs: Seq<char>, j: nat, e: nat)
    requires
        j < e <= cs.len(),
        forall|t: int| j < t < e ==> cs[t] == '0',
        e < cs.len() ==> cs[e as int] == '1',
    ensures next_one(cs, j) == e,
    decreases e - j,
{
    if j + 1 < e {
        lemma_next_one_skips_zeros(cs, j + 1, e);
    }
}

proof fn lemma_intervals_of_binary(pre: Seq<char>, iv: Seq<i32>)
    requires all_positive(iv),
    ensures
        intervals_from(pre + binary_of_intervals(iv), pre.len()) == iv.map_values(|x: i32| x as usize),
    decreases iv.len(),
{
    let cs = pre + binary_of_intervals(iv);
    if iv.len() == 0 {
        assert(cs =~= pre);
        assert(iv.map_values(|x: i32| x as usize) =~= Seq::<usize>::empty());
    } else {
        lemma_binary_first(iv);
        let k = iv[0] as int;
        assert(iv[0] >= 1);
        let rest = iv.drop_first();
        assert(all_positive(rest)) by {
            assert forall|i: int| 0 <= i < rest.len() implies #[trigger] rest[i] >= 1 by {
                assert(rest[i] == iv[i + 1]);
            }
        }
        let pre2 = pre + interval_pattern(k);
        assert(cs =~= pre2 + binary_of_intervals(rest));
        let j = pre.len();
        let e = pre2.len();
        assert(e == j + k);
        if rest.len() > 0 {
            lemma_binary_first(rest);
            assert(rest[0] >= 1);
            assert(cs[e as int] == '1');
        }
        assert forall|t: int| j < t < e implies cs[t] == '0' by {
            assert(cs[t] == interval_pattern(k)[t - j]);
        }
        lemma_next_one_skips_zeros(cs, j, e);
        lemma_intervals_of_binary(pre2, rest);
        assert(iv.map_values(|x: i32| x as usize) =~= seq![k as usize] + rest.map_values(|x: i32| x as usize));
    }
}

proof fn lemma_next_one_props(cs: Seq<char>, j: nat)
    requires j < cs.len(),
    ensures
        forall|t: int| j < t < next_one(cs, j) ==> cs[t] != '1',
        next_one(cs, j) < cs.len() ==> cs[next_one(cs, j) as int] == '1',
    decreases cs.len() - j,
{
    if j + 1 < cs.len() && cs[j + 1 as int] != '1' {
        lemma_next_one_props(cs, j + 1);
    }
}

/// The intervals as `i32` values.
pub open spec fn intervals_as_i32(iv: Seq<usize>) -> Seq<i32> {
    iv.map_values(|x: usize| x as i32)
}

proof fn lemma_binary_of_intervals_from(cs: Seq<char>, j: nat)
    requires
        j <= cs.len() <= i32::MAX,
        j < cs.len() ==> cs[j as int] == '1',
        forall|t: int| 0 <= t < cs.len() ==> #[trigger] cs[t] == '0' || cs[t] == '1',
    ensures
        binary_of_intervals(intervals_as_i32(intervals_from(cs, j))) == cs.subrange(j as int, cs.len() as int),
    decreases cs.len() - j,
{
    if j == cs.len() {
        assert(intervals_as_i32(intervals_from(cs, j)) =~= Seq::<i32>::empty());
        assert(cs.subrange(j as int, cs.len() as int) =~= Seq::<char>::empty());
    } else {
        lemma_next_one(cs, j);
        lemma_next_one_props(cs, j);
        let e = next_one(cs, j);
        let k = (e - j) as usize;
        let rest = intervals_from(cs, e);
        assert(intervals_from(cs, j) == seq![k] + rest);
        lemma_binary_of_intervals_from(cs, e);
        let iv = intervals_as_i32(seq![k] + rest);
        assert(iv =~= seq![k as i32] + intervals_as_i32(rest));
        lemma_binary_first(iv);
        assert(iv.drop_first() =~= intervals_as_i32(rest));
        assert(iv[0] as int == e - j);
        assert(cs.subrange(j as int, e as int) =~= interval_pattern(e - j)) by {
            assert forall|t: int| j < t < e implies cs[t] == '0' by {
                assert(cs[t] == '0' || cs[t] == '1');
            }
        }
        assert(cs.subrange(j as int, cs.len() as int)
            =~= cs.subrange(j as int, e as int) + cs.subrange(e as int, cs.len() as int));
    }
}

/// A binary pattern that starts with '1' comes back from its interval notation:
/// `array_seq_intervals_to_binary` undoes `array_seq_binary_to_intervals` on such patterns.
pub proof fn law_binary_round_trip(cs: Seq<char>)
    requires
        cs.len() <= i32::MAX,
        cs.len() > 0 ==> cs[0] == '1',
        forall|t: int| 0 <= t < cs.len() ==> #[trigger] cs[t] == '0' || cs[t] == '1',
    ensures
        binary_of_intervals(intervals_as_i32(intervals_from(cs, 0))) == cs,
{
    lemma_binary_of_intervals_from(cs, 0);
    assert(cs.subrange(0, cs.len() as int) =~= cs);
}

/// Interval notation read back from the binary pattern it gives is the same intervals:
/// `array_seq_binary_to_intervals` undoes `array_seq_intervals_to_binary`.
pub proof fn law_intervals_round_trip(iv: Seq<i32>)
    requires all_positive(iv),
    ensures intervals_from(binary_of_intervals(iv), 0) == iv.map_values(|x: i32| x as usize),
{
    lemma_intervals_of_binary(Seq::empty(), iv);
    assert(Seq::<char>::empty() + binary_of_intervals(iv) =~= binary_of_intervals(iv));
}

// ---------------------------------------------------------------------------
// Compositions and partitions
// ---------------------------------------------------------------------------

/// Whether `p` is one of the allowed parts (every part is allowed when there is no list).
pub open spec fn part_allowed(p: int, allowed: Option<Seq<i32>>) -> bool {
    match allowed {
        Some(a) => a.contains(p as i32) && i32::MIN <= p <= i32::MAX,
        None => true,
    }
}

/// Whether a sum with `count` parts still to place may take another part.
pub open spec fn may_take_part(count: Option<nat>) -> bool {
    match count {
        Some(c) => c > 0,
        None => true,
    }
}

pub open spec fn one_fewer(count: Option<nat>) -> Option<nat> {
    match count {
        Some(c) => Some((c - 1) as nat),
        None => None,
    }
}

/// Prepends `p` to each list.
pub open spec fn prepend_all(p: i32, ls: Seq<Seq<i32>>) -> Seq<Seq<i32>> {
    ls.map_values(|l: Seq<i32>| seq![p] + l)
}

/// The ways to write `n` as a sum of positive parts, in lexicographic order.
/// The first part is at least `lo`. When `ordered`, every later part is at least 1
/// (compositions); otherwise parts never decrease (partitions, written in nondecreasing order).
/// Every part is allowed, and when `count` is given the sum has exactly that many parts.
pub open spec fn sums(n: nat, lo: nat, ordered: bool, allowed: Option<Seq<i32>>, count: Option<nat>) -> Seq<Seq<i32>>
    decreases n, n + 2,
{
    if n == 0 {
        if count is None || count == Some(0nat) { seq![Seq::empty()] } else { Seq::empty() }
    } else if lo == 0 || lo > n {
        Seq::empty()
    } else {
        sums_from(n, lo, ordered, allowed, count)
    }
}

/// The sums of `n` (as in `sums`) whose first part is at least `p`.
pub open spec fn sums_from(n: nat, p: nat, ordered: bool, allowed: Option<Seq<i32>>, count: Option<nat>) -> Seq<Seq<i32>>
    decreases n, n + 1 - p,
{
    if p > n || p == 0 || n == 0 {
        Seq::empty()
    } else {
        let next_lo: nat = if ordered { 1 } else { p };
        let here = if part_allowed(p as int, allowed) && may_take_part(count) {
            prepend_all(p as i32, sums((n - p) as nat, next_lo, ordered, allowed, one_fewer(count)))
        } else {
            Seq::empty()
        };
        here + sums_from(n, p + 1, ordered, allowed, count)
    }
}

/// The views of a list of lists.
pub open spec fn lists_view(v: Seq<Vec<i32>>) -> Seq<Seq<i32>> {
    v.map_values(|x: Vec<i32>| x@)
}

fn contains_part(allowed: &[i32], p: i32) -> (r: bool)
    ensures r == allowed@.contains(p),
{
    let mut i: usize = 0;
    while i < allowed.len()
        invariant
            i <= allowed@.len(),
            forall|j: int| 0 <= j < i ==> allowed@[j] != p,
        decreases allowed.len() - i,
    {
        if allowed[i] == p {
            assert(allowed@[i as int] == p);
            return true;
        }
        i += 1;
    }
    false
}

pub open spec fn opt_allowed(allowed: Option<&[i32]>) -> Option<Seq<i32>> {
    match allowed { Some(a) => Some(a@), None => None }
}

pub open spec fn opt_count(count: Option<u32>) -> Option<nat> {
    match count { Some(c) => Some(c as nat), None => None }
}

fn check_part(p: u32, allowed: Option<&[i32]>) -> (r: bool)
    requires p <= i32::MAX,
    ensures r == part_allowed(p as int, opt_allowed(allowed)),
{
    match allowed {
        Some(a) => contains_part(a, p as i32),
        None => true,
    }
}

/// All sums of `n` as specified by `sums`.
fn gen_sums(n: u32, lo: u32, ordered: bool, allowed: Option<&[i32]>, count: Option<u32>) -> (r: Vec<Vec<i32>>)
    requires
        n <= i32::MAX,
    ensures
        lists_view(r@) == sums(n as nat, lo as nat, ordered, opt_allowed(allowed), opt_count(count)),
    decreases n, n + 2,
{
    if n == 0 {
        let mut r: Vec<Vec<i32>> = Vec::new();
        let ok = match count { None => true, Some(c) => c == 0 };
        if ok {
            r.push(Vec::new());
            assert(lists_view(r@) =~= seq![Seq::<i32>::empty()]);
        } else {
            assert(lists_view(r@) =~= Seq::<Seq<i32>>::empty());
        }
        return r;
    }
    if lo == 0 || lo > n {
        let r: Vec<Vec<i32>> = Vec::new();
        assert(lists_view(r@) =~= Seq::<Seq<i32>>::empty());
        return r;
    }
    gen_sums_from(n, lo, ordered, allowed, count)
}

fn gen_sums_from(n: u32, lo: u32, ordered: bool, allowed: Option<&[i32]>, count: Option<u32>) -> (r: Vec<Vec<i32>>)
    requires
        1 <= n <= i32::MAX,
        1 <= lo <= n + 1,
    ensures
        lists_view(r@) == sums_from(n as nat, lo as nat, ordered, opt_allowed(allowed), opt_count(count)),
    decreases n, n + 1 - lo,
{
    let ghost al = opt_allowed(allowed);
    let ghost ct = opt_count(count);
    let mut result: Vec<Vec<i32>> = Vec::new();
    let mut p: u32 = lo;
    while p <= n
        invariant
            1 <= lo <= p <= n + 1,
            n <= i32::MAX,
            al == opt_allowed(allowed),
            ct == opt_count(count),
            lists_view(result@) + sums_from(n as nat, p as nat, ordered, al, ct) == sums_from(n as nat, lo as nat, ordered, al, ct),
        decreases n + 1 - p,
    {
        let ghost before = lists_view(result@);
        let take = match count { Some(c) => c > 0, None => true };
        if check_part(p, allowed) && take {
            let next_lo = if ordered { 1 } else { p };
            let sub_count = match count { Some(c) => Some(c - 1), None => None };
            assert(opt_count(sub_count) == one_fewer(ct));
            let sub = gen_sums_rest(n - p, next_lo, ordered, allowed, sub_count, n);
            let mut k: usize = 0;
            while k < sub.len()
                invariant
                    k <= sub@.len(),
                    lists_view(result@) == before + prepend_all(p as i32, lists_view(sub@).take(k as int)),
                decreases sub.len() - k,
            {
                let mut item: Vec<i32> = Vec::new();
                item.push(p as i32);
                let mut t: usize = 0;
                while t < sub[k].len()
                    invariant
                        k < sub@.len(),
                        t <= sub@[k as int]@.len(),
                        item@ == seq![p as i32] + sub@[k as int]@.take(t as int),
                    decreases sub@[k as int]@.len() - t,
                {
                    item.push(sub[k][t]);
                    t += 1;
                    assert(item@ =~= seq![p as i32] + sub@[k as int]@.take(t as int));
                }
                assert(sub@[k as int]@.take(sub@[k as int]@.len() as int) =~= sub@[k as int]@);
                let ghost rv = lists_view(result@);
                result.push(item);
                proof {
                    assert(lists_view(result@) =~= rv.push(item@));
                    assert(prepend_all(p as i32, lists_view(sub@).take(k + 1)) =~=
                        prepend_all(p as i32, lists_view(sub@).take(k as int)).push(seq![p as i32] + sub@[k as int]@));
                }
                k += 1;
            }
            proof {
                assert(lists_view(sub@).take(sub@.len() as int) =~= lists_view(sub@));
                let here = prepend_all(p as i32, sums((n - p) as nat, next_lo as nat, ordered, al, one_fewer(ct)));
                assert(sums_from(n as nat, p as nat, ordered, al, ct) == here + sums_from(n as nat, (p + 1) as nat, ordered, al, ct));
                assert(lists_view(result@) + sums_from(n as nat, (p + 1) as nat, ordered, al, ct)
                    =~= before + sums_from(n as nat, p as nat, ordered, al, ct));
            }
        } else {
            proof {
                assert(sums_from(n as nat, p as nat, ordered, al, ct) =~= sums_from(n as nat, (p + 1) as nat, ordered, al, ct));
            }
        }
        p += 1;
    }
    proof {
        assert(sums_from(n as nat, p as nat, ordered, al, ct) =~= Seq::<Seq<i32>>::empty());
        assert(lists_view(result@) =~= lists_view(result@) + Seq::<Seq<i32>>::empty());
    }
    result
}

/// `gen_sums` for a remainder `m` of some `n` with `m < n`; separate so that the mutual
/// recursion goes down in `n`.
fn gen_sums_rest(m: u32, lo: u32, ordered: bool, allowed: Option<&[i32]>, count: Option<u32>, n: u32) -> (r: Vec<Vec<i32>>)
    requires
        m < n <= i32::MAX,
    ensures
        lists_view(r@) == sums(m as nat, lo as nat, ordered, opt_allowed(allowed), opt_count(count)),
    decreases n, 0nat,
{
    gen_sums(m, lo, ordered, allowed, count)
}

/// The result of a generator over `n`: empty for `n == 0`, else all the sums of `n`.
pub open spec fn sums_result(n: int, ordered: bool, allowed: Option<Seq<i32>>, count: Option<nat>) -> Seq<Seq<i32>> {
    if n == 0 { Seq::empty() } else { sums(n as nat, 1, ordered, allowed, count) }
}

/// Whether a list has `c` elements.
pub open spec fn of_length(c: nat) -> spec_fn(Seq<i32>) -> bool {
    |l: Seq<i32>| l.len() == c
}

proof fn lemma_prepend_filter(p: i32, xs: Seq<Seq<i32>>, c: nat)
    ensures
        prepend_all(p, xs).filter(of_length(c)) == (if c == 0 {
            Seq::<Seq<i32>>::empty()
        } else {
            prepend_all(p, xs.filter(of_length((c - 1) as nat)))
        }),
    decreases xs.len(),
{
    reveal(Seq::filter);
    if xs.len() == 0 {
        assert(prepend_all(p, xs) =~= Seq::<Seq<i32>>::empty());
        assert(prepend_all(p, Seq::<Seq<i32>>::empty()) =~= Seq::<Seq<i32>>::empty());
    } else {
        let ys = xs.drop_last();
        let y = xs.last();
        lemma_prepend_filter(p, ys, c);
        assert(prepend_all(p, xs).drop_last() =~= prepend_all(p, ys));
        assert(prepend_all(p, xs).last() == seq![p] + y);
        assert((seq![p] + y).len() == y.len() + 1);
        if c > 0 {
            let f = ys.filter(of_length((c - 1) as nat));
            if y.len() == c - 1 {
                assert(xs.filter(of_length((c - 1) as nat)) == f.push(y));
                assert(prepend_all(p, f.push(y)) =~= prepend_all(p, f).push(seq![p] + y));
            } else {
                assert(xs.filter(of_length((c - 1) as nat)) == f);
            }
        }
    }
}

proof fn lemma_sums_count_filter(n: nat, lo: nat, ordered: bool, allowed: Option<Seq<i32>>, c: nat)
    ensures
        sums(n, lo, ordered, allowed, Some(c)) == sums(n, lo, ordered, allowed, None).filter(of_length(c)),
    decreases n, n + 2,
{
    reveal(Seq::filter);
    if n == 0 {
        let e = seq![Seq::<i32>::empty()];
        assert(e.drop_last() =~= Seq::<Seq<i32>>::empty());
        assert(e.last() == Seq::<i32>::empty());
        assert(e.drop_last().filter(of_length(c)) =~= Seq::<Seq<i32>>::empty());
        assert(of_length(c)(Seq::<i32>::empty()) == (c == 0));
        if c == 0 {
            assert(e.filter(of_length(c)) =~= e);
        } else {
            assert(e.filter(of_length(c)) =~= Seq::<Seq<i32>>::empty());
        }
    } else if lo == 0 || lo > n {
        assert(Seq::<Seq<i32>>::empty().filter(of_length(c)) =~= Seq::<Seq<i32>>::empty());
    } else {
        lemma_sums_from_count_filter(n, lo, ordered, allowed, c);
    }
}

proof fn lemma_sums_from_count_filter(n: nat, p: nat, ordered: bool, allowed: Option<Seq<i32>>, c: nat)
    ensures
        sums_from(n, p, ordered, allowed, Some(c)) == sums_from(n, p, ordered, allowed, None).filter(of_length(c)),
    decreases n, n + 1 - p,
{
    reveal(Seq::filter);
    if p > n || p == 0 || n == 0 {
        assert(Seq::<Seq<i32>>::empty().filter(of_length(c)) =~= Seq::<Seq<i32>>::empty());
    } else {
        let next_lo: nat = if ordered { 1 } else { p };
        let rest_c = sums_from(n, p + 1, ordered, allowed, Some(c));
        let rest_n = sums_from(n, p + 1, ordered, allowed, None);
        lemma_sums_from_count_filter(n, p + 1, ordered, allowed, c);
        let here_n = if part_allowed(p as int, allowed) {
            prepend_all(p as i32, sums((n - p) as nat, next_lo, ordered, allowed, None))
        } else {
            Seq::empty()
        };
        let here_c = if part_allowed(p as int, allowed) && c > 0 {
            prepend_all(p as i32, sums((n - p) as nat, next_lo, ordered, allowed, Some((c - 1) as nat)))
        } else {
            Seq::empty()
        };
        assert(sums_from(n, p, ordered, allowed, None) == here_n + rest_n);
        assert(sums_from(n, p, ordered, allowed, Some(c)) == here_c + rest_c);
        Seq::filter_distributes_over_add(here_n, rest_n, of_length(c));
        if part_allowed(p as int, allowed) {
            lemma_prepend_filter(p as i32, sums((n - p) as nat, next_lo, ordered, allowed, None), c);
            if c > 0 {
                lemma_sums_count_filter((n - p) as nat, next_lo, ordered, allowed, (c - 1) as nat);
            }
        } else {
            assert(Seq::<Seq<i32>>::empty().filter(of_length(c)) =~= Seq::<Seq<i32>>::empty());
        }
        assert(here_n.filter(of_length(c)) == here_c);
    }
}

/// The sums (compositions or partitions, with or without a list of allowed parts) with exactly
/// `m` parts are the sums without a count of parts that have `m` parts, in the same order.
pub proof fn law_counted_sums_filter(n: int, ordered: bool, allowed: Option<Seq<i32>>, m: nat)
    ensures
        sums_result(n, ordered, allowed, Some(m)) == sums_result(n, ordered, allowed, None).filter(of_length(m)),
{
    reveal(Seq::filter);
    if n == 0 {
        assert(Seq::<Seq<i32>>::empty().filter(of_length(m)) =~= Seq::<Seq<i32>>::empty());
    } else {
        lemma_sums_count_filter(n as nat, 1, ordered, allowed, m);
    }
}

/// Whether `r` is an error with exactly this message.
pub open spec fn is_runtime_error<T>(r: Result<T, AudionError>, msg: Seq<char>) -> bool {
    match r {
        Err(AudionError::RuntimeError { msg: m }) => m@ == msg,
        _ => false,
    }
}

/// Whether `r` holds exactly the lists `want`.
pub open spec fn lists_ok(r: Result<Vec<Vec<i32>>, AudionError>, want: Seq<Seq<i32>>) -> bool {
    match r {
        Ok(v) => lists_view(v@) == want,
        Err(_) => false,
    }
}

/// All compositions of `n` (ordered sums of positive integers), in lexicographic order.
/// For `n == 4`: [1,1,1,1], [1,1,2], [1,2,1], [1,3], [2,1,1], [2,2], [3,1], [4].
pub fn array_seq_compositions(n: i32) -> (r: Result<Vec<Vec<i32>>, AudionError>)
    ensures
        n < 0 ==> is_runtime_error(r, "array_seq_compositions() requires non-negative n"@),
        n >= 0 ==> lists_ok(r, sums_result(n as int, true, None, None)),
{
    if n < 0 {
        return Err(AudionError::RuntimeError { msg: String::from_str("array_seq_compositions() requires non-negative n") });
    }
    if n == 0 {
        let v: Vec<Vec<i32>> = Vec::new();
        assert(lists_view(v@) =~= Seq::<Seq<i32>>::empty());
        return Ok(v);
    }
    Ok(gen_sums(n as u32, 1, true, None, None))
}

/// All compositions of `n` whose parts are all in `allowed`, in lexicographic order.
pub fn array_seq_compositions_allowed(n: i32, allowed: &[i32]) -> (r: Result<Vec<Vec<i32>>, AudionError>)
    ensures
        n < 0 ==> is_runtime_error(r, "array_seq_compositions_allowed() requires non-negative n"@),
        n >= 0 ==> lists_ok(r, sums_result(n as int, true, Some(allowed@), None)),
{
    if n < 0 {
        return Err(AudionError::RuntimeError { msg: String::from_str("array_seq_compositions_allowed() requires non-negative n") });
    }
    if n == 0 {
        let v: Vec<Vec<i32>> = Vec::new();
        assert(lists_view(v@) =~= Seq::<Seq<i32>>::empty());
        return Ok(v);
    }
    Ok(gen_sums(n as u32, 1, true, Some(allowed), None))
}

/// All compositions of `n` into exactly `m` parts, in lexicographic order.
pub fn array_seq_compositions_m_parts(n: i32, m: i32) -> (r: Result<Vec<Vec<i32>>, AudionError>)
    ensures
        (n < 0 || m < 1) ==> is_runtime_error(r, "array_seq_compositions_m_parts() requires non-negative n and m"@),
        (n >= 0 && m >= 1) ==> lists_ok(r, sums_result(n as int, true, None, Some(m as nat))),
{
    if n < 0 || m < 1 {
        return Err(AudionError::RuntimeError { msg: String::from_str("array_seq_compositions_m_parts() requires non-negative n and m") });
    }
    if n == 0 {
        let v: Vec<Vec<i32>> = Vec::new();
        assert(lists_view(v@) =~= Seq::<Seq<i32>>::empty());
        return Ok(v);
    }
    Ok(gen_sums(n as u32, 1, true, None, Some(m as u32)))
}

/// All compositions of `n` into exactly `m` parts, all in `allowed`, in lexicographic order.
pub fn array_seq_compositions_allowed_m_parts(n: i32, m: i32, allowed: &[i32]) -> (r: Result<Vec<Vec<i32>>, AudionError>)
    ensures
        (n < 0 || m < 1) ==> is_runtime_error(r, "array_seq_compositions_allowed_m_parts() requires non-negative n and m"@),
        (n >= 0 && m >= 1) ==> lists_ok(r, sums_result(n as int, true, Some(allowed@), Some(m as nat))),
{
    if n < 0 || m < 1 {
        return Err(AudionError::RuntimeError { msg: String::from_str("array_seq_compositions_allowed_m_parts() requires non-negative n and m") });
    }
    if n == 0 {
        let v: Vec<Vec<i32>> = Vec::new();
        assert(lists_view(v@) =~= Seq::<Seq<i32>>::empty());
        return Ok(v);
    }
    Ok(gen_sums(n as u32, 1, true, Some(allowed), Some(m as u32)))
}

/// All partitions of `n` (sums of positive integers, written in nondecreasing order),
/// in lexicographic order. For `n == 4`: [1,1,1,1], [1,1,2], [1,3], [2,2], [4].
pub fn array_seq_partitions(n: i32) -> (r: Result<Vec<Vec<i32>>, AudionError>)
    ensures
        n < 0 ==> is_runtime_error(r, "array_seq_partitions() requires non-negative n"@),
        n >= 0 ==> lists_ok(r, sums_result(n as int, false, None, None)),
{
    if n < 0 {
        return Err(AudionError::RuntimeError { msg: String::from_str("array_seq_partitions() requires non-negative n") });
    }
    if n == 0 {
        let v: Vec<Vec<i32>> = Vec::new();
        assert(lists_view(v@) =~= Seq::<Seq<i32>>::empty());
        return Ok(v);
    }
    Ok(gen_sums(n as u32, 1, false, None, None))
}

/// All partitions of `n` whose parts are all in `allowed`, in lexicographic order.
pub fn array_seq_partitions_allowed(n: i32, allowed: &[i32]) -> (r: Result<Vec<Vec<i32>>, AudionError>)
    ensures
        n < 0 ==> is_runtime_error(r, "array_seq_partitions_allowed() requires non-negative n"@),
        n >= 0 ==> lists_ok(r, sums_result(n as int, false, Some(allowed@), None)),
{
    if n < 0 {
        return Err(AudionError::RuntimeError { msg: String::from_str("array_seq_partitions_allowed() requires non-negative n") });
    }
    if n == 0 {
        let v: Vec<Vec<i32>> = Vec::new();
        assert(lists_view(v@) =~= Seq::<Seq<i32>>::empty());
        return Ok(v);
    }
    Ok(gen_sums(n as u32, 1, false, Some(allowed), None))
}

/// All partitions of `n` into exactly `m` parts, in lexicographic order:
/// for n = 5, m = 2: [1,4], [2,3].
pub fn array_seq_partitions_m_parts(n: i32, m: i32) -> (r: Result<Vec<Vec<i32>>, AudionError>)
    ensures
        (n < 0 || m < 1) ==> is_runtime_error(r, "array_seq_partitions_m_parts() requires non-negative n and m"@),
        (n >= 0 && m >= 1) ==> lists_ok(r, sums_result(n as int, false, None, Some(m as nat))),
{
    if n < 0 || m < 1 {
        return Err(AudionError::RuntimeError { msg: String::from_str("array_seq_partitions_m_parts() requires non-negative n and m") });
    }
    if n == 0 {
        let v: Vec<Vec<i32>> = Vec::new();
        assert(lists_view(v@) =~= Seq::<Seq<i32>>::empty());
        return Ok(v);
    }
    Ok(gen_sums(n as u32, 1, false, None, Some(m as u32)))
}

/// All partitions of `n` into exactly `m` parts, all in `allowed`, in lexicographic order.
pub fn array_seq_partitions_allowed_m_parts(n: i32, m: i32, allowed: &[i32]) -> (r: Result<Vec<Vec<i32>>, AudionError>)
    ensures
        (n < 0 || m < 1) ==> is_runtime_error(r, "array_seq_partitions_allowed_m_parts() requires non-negative n and m"@),
        (n >= 0 && m >= 1) ==> lists_ok(r, sums_result(n as int, false, Some(allowed@), Some(m as nat))),
{
    if n < 0 || m < 1 {
        return Err(AudionError::RuntimeError { msg: String::from_str("array_seq_partitions_allowed_m_parts() requires non-negative n and m") });
    }
    if n == 0 {
        let v: Vec<Vec<i32>> = Vec::new();
        assert(lists_view(v@) =~= Seq::<Seq<i32>>::empty());
        return Ok(v);
    }
    Ok(gen_sums(n as u32, 1, false, Some(allowed), Some(m as u32)))
}

/// The sum of a list of parts.
pub open spec fn parts_sum(s: Seq<i32>) -> int
    decreases s.len(),
{
    if s.len() == 0 { 0 } else { s[0] + parts_sum(s.drop_first()) }
}

/// `s` is a way of writing `n` as `sums(n, lo, ordered, allowed, count)` describes it.
pub open spec fn is_sum_of(s: Seq<i32>, n: nat, lo: nat, ordered: bool, allowed: Option<Seq<i32>>, count: Option<nat>) -> bool {
    &&& parts_sum(s) == n
    &&& forall|i: int| 0 <= i < s.len() ==> (#[trigger] s[i]) >= 1 && part_allowed(s[i] as int, allowed)
    &&& s.len() > 0 ==> s[0] >= lo
    &&& count matches Some(c) ==> s.len() == c
    &&& !ordered ==> forall|i: int, j: int| 0 <= i <= j < s.len() ==> s[i] <= s[j]
}

proof fn lemma_prepend_sum(q: i32, t: Seq<i32>, n: nat, lo: nat, next_lo: nat, ordered: bool,
    allowed: Option<Seq<i32>>, count: Option<nat>)
    requires
        q >= lo, q >= 1, q <= n,
        part_allowed(q as int, allowed),
        may_take_part(count),
        next_lo == if ordered { 1nat } else { q as nat },
        is_sum_of(t, (n - q) as nat, next_lo, ordered, allowed, one_fewer(count)),
    ensures
        is_sum_of(seq![q] + t, n, lo, ordered, allowed, count),
{
    let s = seq![q] + t;
    assert(s.drop_first() =~= t);
    assert(parts_sum(s) == q + parts_sum(t));
    assert forall|i: int| 0 <= i < s.len() implies (#[trigger] s[i]) >= 1 && part_allowed(s[i] as int, allowed) by {
        if i > 0 {
            assert(s[i] == t[i - 1]);
            assert(t[i - 1] >= 1 && part_allowed(t[i - 1] as int, allowed));
        }
    }
    if !ordered {
        assert forall|i: int, j: int| 0 <= i <= j < s.len() implies s[i] <= s[j] by {
            if i > 0 {
                assert(s[i] == t[i - 1] && s[j] == t[j - 1]);
            } else if j > 0 {
                assert(t[0] >= q);
                assert(s[j] == t[j - 1]);
                assert(t[0] <= t[j - 1]);
            }
        }
    }
}

proof fn lemma_sums_valid(n: nat, lo: nat, ordered: bool, allowed: Option<Seq<i32>>, count: Option<nat>)
    requires n <= i32::MAX,
    ensures
        forall|i: int| 0 <= i < sums(n, lo, ordered, allowed, count).len()
            ==> is_sum_of(#[trigger] sums(n, lo, ordered, allowed, count)[i], n, lo, ordered, allowed, count),
    decreases n, n + 2,
{
    if n == 0 {
        if count is None || count == Some(0nat) {
            let e = Seq::<i32>::empty();
            assert(parts_sum(e) == 0);
            assert(sums(n, lo, ordered, allowed, count) =~= seq![e]);
            assert(is_sum_of(e, n, lo, ordered, allowed, count));
        } else {
            assert(sums(n, lo, ordered, allowed, count).len() == 0);
        }
    } else if lo == 0 || lo > n {
        assert(sums(n, lo, ordered, allowed, count).len() == 0);
    } else {
        lemma_sums_from_valid(n, lo, ordered, allowed, count);
        assert(sums(n, lo, ordered, allowed, count) == sums_from(n, lo, ordered, allowed, count));
    }
}

proof fn lemma_sums_from_valid(n: nat, p: nat, ordered: bool, allowed: Option<Seq<i32>>, count: Option<nat>)
    requires n <= i32::MAX,
    ensures
        forall|i: int| 0 <= i < sums_from(n, p, ordered, allowed, count).len()
            ==> is_sum_of(#[trigger] sums_from(n, p, ordered, allowed, count)[i], n, p, ordered, allowed, count),
    decreases n, n + 1 - p,
{
    if p > n || p == 0 || n == 0 {
    } else {
        let next_lo: nat = if ordered { 1 } else { p };
        lemma_sums_from_valid(n, p + 1, ordered, allowed, count);
        let rest = sums_from(n, p + 1, ordered, allowed, count);
        if part_allowed(p as int, allowed) && may_take_part(count) {
            let sub = sums((n - p) as nat, next_lo, ordered, allowed, one_fewer(count));
            lemma_sums_valid((n - p) as nat, next_lo, ordered, allowed, one_fewer(count));
            let here = prepend_all(p as i32, sub);
            assert forall|i: int| 0 <= i < here.len() implies is_sum_of(#[trigger] here[i], n, p, ordered, allowed, count) by {
                lemma_prepend_sum(p as i32, sub[i], n, p, next_lo, ordered, allowed, count);
            }
            assert forall|i: int| 0 <= i < (here + rest).len()
                implies is_sum_of(#[trigger] (here + rest)[i], n, p, ordered, allowed, count) by {
                if i >= here.len() {
                    assert((here + rest)[i] == rest[i - here.len()]);
                    assert(is_sum_of(rest[i - here.len()], n, p + 1, ordered, allowed, count));
                }
            }
        } else {
            assert(sums_from(n, p, ordered, allowed, count) =~= rest);
        }
    }
}

/// Every list that the composition and partition generators return writes `n` as a sum:
/// its parts add up to `n`, each part is positive and allowed, it has exactly `count`
/// parts when a count is given, and for partitions (`ordered == false`) the parts never decrease.
pub proof fn law_sums_add_up(n: nat, ordered: bool, allowed: Option<Seq<i32>>, count: Option<nat>)
    requires n <= i32::MAX,
    ensures
        forall|i: int| 0 <= i < sums_result(n as int, ordered, allowed, count).len()
            ==> is_sum_of(#[trigger] sums_result(n as int, ordered, allowed, count)[i], n, 1, ordered, allowed, count),
{
    lemma_sums_valid(n, 1, ordered, allowed, count);
}

// ---------------------------------------------------------------------------
// Necklaces and de Bruijn sequences (the FKM algorithm)
// ---------------------------------------------------------------------------

/// Which words the FKM enumeration keeps and what it emits for each.
pub struct FkmFilter {
    /// When present, the run length `p` must be allowed (and at most `n`) for a word to be kept,
    /// and a new run may only start after an allowed one.
    pub allowed: Option<Seq<i32>>,
    /// When present, a word is kept only if it has exactly this many ones.
    pub ones: Option<int>,
    /// Emit the whole word (necklaces) rather than its period prefix (de Bruijn sequences).
    pub whole: bool,
}

/// The characters of a 0/1 list.
pub open spec fn bits_text(b: Seq<i32>) -> Seq<char> {
    b.map_values(|x: i32| if x == 0 { '0' } else { '1' })
}

pub open spec fn fkm_keep(f: FkmFilter, n: nat, p: int, m: int) -> bool {
    &&& f.allowed matches Some(a) ==> a.contains(p as i32) && p <= n
    &&& f.ones matches Some(o) ==> m == o
}

pub open spec fn fkm_may_close(f: FkmFilter, p: int, k: nat) -> bool {
    f.allowed matches Some(a) ==> a.contains(p as i32) || k == 1
}

/// The words emitted by the recursive FKM generator (Fredricksen, Kessler, Maiorana) for
/// words of length `n`, at step `k` with period `l`, current run length `p`, `m` ones so
/// far, and `b` the word built so far (`b[0]` is a sentinel 1, `b[1..k]` the word).
pub open spec fn fkm(n: nat, k: nat, l: nat, p: int, m: int, b: Seq<i32>, f: FkmFilter) -> Seq<Seq<char>>
    decreases n + 1 - k,
{
    if k > n {
        if l > 0 && n % l == 0 && fkm_keep(f, n, p, m) && b.len() > n {
            seq![bits_text(b.subrange(1, (if f.whole { n } else { l }) + 1 as int))]
        } else {
            Seq::empty()
        }
    } else if l == 0 || l > k || b.len() != k {
        Seq::empty()
    } else {
        let bk = b[k - l];
        if bk == 1 {
            (if fkm_may_close(f, p, k) { fkm(n, k + 1, l, 1, m + 1, b.push(1), f) } else { Seq::empty() })
                + fkm(n, k + 1, k, p + 1, m, b.push(0), f)
        } else {
            fkm(n, k + 1, l, p + 1, m, b.push(bk), f)
        }
    }
}

/// The words of length `n` that the FKM generator emits under filter `f`.
pub open spec fn fkm_words(n: nat, f: FkmFilter) -> Seq<Seq<char>> {
    fkm(n, 1, 1, 1, 0, seq![1i32], f)
}

/// How many entries of a 0/1 list are ones (not zero).
pub open spec fn ones_of(x: Seq<i32>) -> int
    decreases x.len(),
{
    if x.len() == 0 { 0 } else { ones_of(x.drop_last()) + if x.last() != 0 { 1int } else { 0int } }
}

/// How many characters of a word are '1'.
pub open spec fn text_ones(w: Seq<char>) -> int
    decreases w.len(),
{
    if w.len() == 0 { 0 } else { text_ones(w.drop_last()) + if w.last() == '1' { 1int } else { 0int } }
}

/// Whether a word has exactly `o` ones.
pub open spec fn has_ones(o: int) -> spec_fn(Seq<char>) -> bool {
    |w: Seq<char>| text_ones(w) == o
}

proof fn lemma_bits_ones(x: Seq<i32>)
    ensures text_ones(bits_text(x)) == ones_of(x),
    decreases x.len(),
{
    if x.len() > 0 {
        lemma_bits_ones(x.drop_last());
        assert(bits_text(x).drop_last() =~= bits_text(x.drop_last()));
    }
}

proof fn lemma_fkm_ones_filter(n: nat, k: nat, l: nat, p: int, m: int, b: Seq<i32>, fo: FkmFilter, fa: FkmFilter, o: int)
    requires
        fo.whole,
        fa.whole,
        fo.allowed == fa.allowed,
        fo.ones == Some(o),
        fa.ones is None,
        1 <= k <= n + 1,
        b.len() == k,
        forall|i: int| 0 <= i < b.len() ==> #[trigger] b[i] == 0 || b[i] == 1,
        m == ones_of(b.subrange(1, b.len() as int)),
    ensures
        fkm(n, k, l, p, m, b, fo) == fkm(n, k, l, p, m, b, fa).filter(has_ones(o)),
    decreases n + 1 - k,
{
    reveal(Seq::filter);
    if k > n {
        let keep = l > 0 && n % l == 0 && fkm_keep(fa, n, p, m) && b.len() > n;
        if keep {
            let w = bits_text(b.subrange(1, n + 1 as int));
            lemma_bits_ones(b.subrange(1, n + 1 as int));
            let s = seq![w];
            assert(s.drop_last() =~= Seq::<Seq<char>>::empty());
            assert(s.drop_last().filter(has_ones(o)) =~= Seq::<Seq<char>>::empty());
            assert(has_ones(o)(w) == (m == o));
            if m == o {
                assert(s.filter(has_ones(o)) =~= s);
            } else {
                assert(s.filter(has_ones(o)) =~= Seq::<Seq<char>>::empty());
            }
        } else {
            assert(Seq::<Seq<char>>::empty().filter(has_ones(o)) =~= Seq::<Seq<char>>::empty());
        }
    } else if l == 0 || l > k || b.len() != k {
        assert(Seq::<Seq<char>>::empty().filter(has_ones(o)) =~= Seq::<Seq<char>>::empty());
    } else {
        let bk = b[k - l];
        let b1 = b.push(1);
        let b0 = b.push(0);
        assert(b1.subrange(1, b1.len() as int) =~= b.subrange(1, b.len() as int).push(1));
        assert(b0.subrange(1, b0.len() as int) =~= b.subrange(1, b.len() as int).push(0));
        assert(b.subrange(1, b.len() as int).push(1).drop_last() =~= b.subrange(1, b.len() as int));
        assert(b.subrange(1, b.len() as int).push(0).drop_last() =~= b.subrange(1, b.len() as int));
        assert forall|i: int| 0 <= i < b1.len() implies #[trigger] b1[i] == 0 || b1[i] == 1 by {
            if i < b.len() { assert(b1[i] == b[i]); }
        }
        assert forall|i: int| 0 <= i < b0.len() implies #[trigger] b0[i] == 0 || b0[i] == 1 by {
            if i < b.len() { assert(b0[i] == b[i]); }
        }
        if bk == 1 {
            lemma_fkm_ones_filter(n, k + 1, l, 1, m + 1, b1, fo, fa, o);
            lemma_fkm_ones_filter(n, k + 1, k, p + 1, m, b0, fo, fa, o);
            let a_o = if fkm_may_close(fo, p, k) { fkm(n, k + 1, l, 1, m + 1, b1, fo) } else { Seq::empty() };
            let a_a = if fkm_may_close(fa, p, k) { fkm(n, k + 1, l, 1, m + 1, b1, fa) } else { Seq::empty() };
            let c_o = fkm(n, k + 1, k, p + 1, m, b0, fo);
            let c_a = fkm(n, k + 1, k, p + 1, m, b0, fa);
            assert(fkm(n, k, l, p, m, b, fo) == a_o + c_o);
            assert(fkm(n, k, l, p, m, b, fa) == a_a + c_a);
            Seq::filter_distributes_over_add(a_a, c_a, has_ones(o));
            if !fkm_may_close(fa, p, k) {
                assert(Seq::<Seq<char>>::empty().filter(has_ones(o)) =~= Seq::<Seq<char>>::empty());
            }
        } else {
            assert(bk == 0);
            lemma_fkm_ones_filter(n, k + 1, l, p + 1, m, b0, fo, fa, o);
            assert(b.push(bk) == b0);
        }
    }
}

/// The necklaces with exactly `o` ones (with or without a list of allowed runs) are the
/// necklaces without a count of ones that have `o` ones, in the same order.
pub proof fn law_necklaces_with_ones_filter(n: nat, allowed: Option<Seq<i32>>, o: int)
    ensures
        fkm_words(n, FkmFilter { allowed, ones: Some(o), whole: true })
            == fkm_words(n, FkmFilter { allowed, ones: None, whole: true }).filter(has_ones(o)),
{
    let b = seq![1i32];
    assert(b.subrange(1, 1) =~= Seq::<i32>::empty());
    lemma_fkm_ones_filter(n, 1, 1, 1, 0, b, FkmFilter { allowed, ones: Some(o), whole: true },
        FkmFilter { allowed, ones: None, whole: true }, o);
}

pub open spec fn strings_view(v: Seq<String>) -> Seq<Seq<char>> {
    v.map_values(|s: String| s@)
}

pub open spec fn fkm_filter(allowed: Option<&[i32]>, ones: Option<i32>, whole: bool) -> FkmFilter {
    FkmFilter {
        allowed: opt_allowed(allowed),
        ones: match ones { Some(o) => Some(o as int), None => None },
        whole,
    }
}

fn bits_string(b: &Vec<i32>, len: usize) -> (s: String)
    requires len < b.len(),
    ensures s@ == bits_text(b@.subrange(1, len + 1)),
{
    let mut s = String::new();
    let mut i: usize = 1;
    while i <= len
        invariant
            1 <= i <= len + 1,
            len < b.len(),
            s@ == bits_text(b@.subrange(1, i as int)),
        decreases len + 1 - i,
    {
        if b[i] == 0 {
            s.push('0');
        } else {
            s.push('1');
        }
        i += 1;
        assert(s@ =~= bits_text(b@.subrange(1, i as int)));
    }
    s
}

fn check_allowed(allowed: Option<&[i32]>, p: i32) -> (r: bool)
    ensures r == (allowed matches Some(a) ==> a@.contains(p)),
{
    match allowed {
        Some(a) => contains_part(a, p),
        None => true,
    }
}

fn neckbin(k: usize, l: usize, p: i32, m: i32, n: usize, b: &mut Vec<i32>,
    allowed: Option<&[i32]>, ones: Option<i32>, whole: bool, out: &mut Vec<String>)
    requires
        1 <= k <= n + 1,
        1 <= l <= k,
        l <= n,
        n <= 30,
        0 <= p <= k,
        0 <= m <= k,
        old(b).len() == n + 2,
    ensures
        final(b).len() == n + 2,
        forall|i: int| 0 <= i < k ==> final(b)@[i] == old(b)@[i],
        strings_view(final(out)@) == strings_view(old(out)@)
            + fkm(n as nat, k as nat, l as nat, p as int, m as int, old(b)@.take(k as int), fkm_filter(allowed, ones, whole)),
    decreases n + 1 - k,
{
    let ghost f = fkm_filter(allowed, ones, whole);
    let ghost b0 = b@.take(k as int);
    if k > n {
        let keep_allowed = match allowed {
            Some(a) => contains_part(a, p) && p <= n as i32,
            None => true,
        };
        let keep_ones = match ones {
            Some(o) => m == o,
            None => true,
        };
        if n % l == 0 && keep_allowed && keep_ones {
            let len = if whole { n } else { l };
            let s = bits_string(b, len);
            proof {
                assert(b@.take(k as int).subrange(1, len + 1) =~= b@.subrange(1, len + 1));
            }
            let ghost before = strings_view(out@);
            out.push(s);
            assert(strings_view(out@) =~= before.push(s@));
        } else {
            assert(fkm(n as nat, k as nat, l as nat, p as int, m as int, b0, f) =~= Seq::<Seq<char>>::empty());
            assert(strings_view(out@) =~= strings_view(out@) + Seq::<Seq<char>>::empty());
        }
        return;
    }
    let bk = b[k - l];
    b.set(k, bk);
    assert(b@.take(k as int) =~= b0);
    assert(b@.take(k + 1) =~= b0.push(bk));
    if bk == 1 {
        let ghost out0 = strings_view(out@);
        let ghost first = if fkm_may_close(f, p as int, k as nat) {
            fkm(n as nat, (k + 1) as nat, l as nat, 1, m + 1, b0.push(1), f)
        } else {
            Seq::empty()
        };
        if check_allowed(allowed, p) || k == 1 {
            neckbin(k + 1, l, 1, m + 1, n, b, allowed, ones, whole, out);
        }
        assert(strings_view(out@) =~= out0 + first);
        let ghost out1 = strings_view(out@);
        b.set(k, 0);
        assert(b@.take(k + 1) =~= b0.push(0));
        neckbin(k + 1, k, p + 1, m, n, b, allowed, ones, whole, out);
        assert(strings_view(out@) =~= out0 + (first + fkm(n as nat, (k + 1) as nat, k as nat, p + 1, m as int, b0.push(0), f)));
    } else {
        neckbin(k + 1, l, p + 1, m, n, b, allowed, ones, whole, out);
    }
}

fn run_fkm(n: usize, allowed: Option<&[i32]>, ones: Option<i32>, whole: bool) -> (out: Vec<String>)
    requires 1 <= n <= 30,
    ensures strings_view(out@) == fkm_words(n as nat, fkm_filter(allowed, ones, whole)),
{
    let mut b: Vec<i32> = Vec::new();
    let mut i: usize = 0;
    while i < n + 2
        invariant
            n <= 30,
            i <= n + 2,
            b@.len() == i,
            forall|j: int| 0 <= j < i ==> b@[j] == 0,
        decreases n + 2 - i,
    {
        b.push(0);
        i += 1;
    }
    b.set(0, 1);
    assert(b@.take(1) =~= seq![1i32]);
    let mut out: Vec<String> = Vec::new();
    neckbin(1, 1, 1, 0, n, &mut b, allowed, ones, whole, &mut out);
    assert(strings_view(out@) =~= Seq::<Seq<char>>::empty() + fkm_words(n as nat, fkm_filter(allowed, ones, whole)));
    out
}

/// Whether `r` holds exactly the strings `want`.
pub open spec fn strings_ok(r: Result<Vec<String>, AudionError>, want: Seq<Seq<char>>) -> bool {
    match r {
        Ok(v) => strings_view(v@) == want,
        Err(_) => false,
    }
}

/// All binary necklaces of length `n` (1 ≤ n ≤ 30), as generated by the FKM algorithm.
pub fn array_seq_necklaces(n: usize) -> (r: Result<Vec<String>, AudionError>)
    ensures
        n == 0 ==> strings_ok(r, Seq::empty()),
        n > 30 ==> is_runtime_error(r, "array_seq_necklaces() n too large (max 30)"@),
        1 <= n <= 30 ==> strings_ok(r, fkm_words(n as nat, fkm_filter(None, None, true))),
{
    if n == 0 {
        let v: Vec<String> = Vec::new();
        assert(strings_view(v@) =~= Seq::<Seq<char>>::empty());
        return Ok(v);
    }
    if n > 30 {
        return Err(AudionError::RuntimeError { msg: String::from_str("array_seq_necklaces() n too large (max 30)") });
    }
    Ok(run_fkm(n, None, None, true))
}

/// The binary necklaces of length `n` whose runs (a one followed by zeros) have allowed lengths.
pub fn array_seq_necklaces_allowed(n: usize, allowed: &[i32]) -> (r: Result<Vec<String>, AudionError>)
    ensures
        n == 0 ==> strings_ok(r, Seq::empty()),
        n > 30 ==> is_runtime_error(r, "array_seq_necklaces_allowed() n too large (max 30)"@),
        1 <= n <= 30 ==> strings_ok(r, fkm_words(n as nat, fkm_filter(Some(allowed), None, true))),
{
    if n == 0 {
        let v: Vec<String> = Vec::new();
        assert(strings_view(v@) =~= Seq::<Seq<char>>::empty());
        return Ok(v);
    }
    if n > 30 {
        return Err(AudionError::RuntimeError { msg: String::from_str("array_seq_necklaces_allowed() n too large (max 30)") });
    }
    Ok(run_fkm(n, Some(allowed), None, true))
}

/// The binary necklaces of length `n` with exactly `ones` ones.
pub fn array_seq_necklaces_m_ones(n: usize, ones: i32) -> (r: Result<Vec<String>, AudionError>)
    ensures
        n == 0 ==> strings_ok(r, Seq::empty()),
        n > 30 ==> is_runtime_error(r, "array_seq_necklaces_m_ones() n too large (max 30)"@),
        1 <= n <= 30 ==> strings_ok(r, fkm_words(n as nat, fkm_filter(None, Some(ones), true))),
{
    if n == 0 {
        let v: Vec<String> = Vec::new();
        assert(strings_view(v@) =~= Seq::<Seq<char>>::empty());
        return Ok(v);
    }
    if n > 30 {
        return Err(AudionError::RuntimeError { msg: String::from_str("array_seq_necklaces_m_ones() n too large (max 30)") });
    }
    Ok(run_fkm(n, None, Some(ones), true))
}

/// The binary necklaces of length `n` with exactly `ones` ones and allowed run lengths.
pub fn array_seq_necklaces_allowed_m_ones(n: usize, ones: i32, allowed: &[i32]) -> (r: Result<Vec<String>, AudionError>)
    ensures
        n == 0 ==> strings_ok(r, Seq::empty()),
        n > 30 ==> is_runtime_error(r, "array_seq_necklaces_allowed_m_ones() n too large (max 30)"@),
        1 <= n <= 30 ==> strings_ok(r, fkm_words(n as nat, fkm_filter(Some(allowed), Some(ones), true))),
{
    if n == 0 {
        let v: Vec<String> = Vec::new();
        assert(strings_view(v@) =~= Seq::<Seq<char>>::empty());
        return Ok(v);
    }
    if n > 30 {
        return Err(AudionError::RuntimeError { msg: String::from_str("array_seq_necklaces_allowed_m_ones() n too large (max 30)") });
    }
    Ok(run_fkm(n, Some(allowed), Some(ones), true))
}

/// The binary de Bruijn sequence of order `n` (1 ≤ n ≤ 20): the concatenation of the
/// period prefixes of the necklaces whose period divides `n`, in FKM order.
/// Order 0 gives the empty string.
pub fn array_seq_debruijn(n: usize) -> (r: Result<String, AudionError>)
    ensures
        n == 0 ==> (r matches Ok(s) && s@ == Seq::<char>::empty()),
        n > 20 ==> is_runtime_error(r, "array_seq_debruijn() n too large (max 20)"@),
        1 <= n <= 20 ==> (r matches Ok(s) && s@ == fkm_words(n as nat, fkm_filter(None, None, false)).flatten()),
{
    if n == 0 {
        return Ok(String::new());
    }
    if n > 20 {
        return Err(AudionError::RuntimeError { msg: String::from_str("array_seq_debruijn() n too large (max 20)") });
    }
    let words = run_fkm(n, None, None, false);
    let mut dbs = String::new();
    let mut i: usize = 0;
    while i < words.len()
        invariant
            i <= words@.len(),
            dbs@ == strings_view(words@).take(i as int).flatten(),
        decreases words.len() - i,
    {
        dbs.append(words[i].as_str());
        proof {
            let sv = strings_view(words@);
            assert(sv.take(i + 1) =~= sv.take(i as int).push(sv[i as int]));
            sv.take(i as int).lemma_flatten_push(sv[i as int]);
        }
        i += 1;
    }
    assert(strings_view(words@).take(words@.len() as int) =~= strings_view(words@));
    Ok(dbs)
}

proof fn lemma_fkm_words_binary(n: nat, k: nat, l: nat, p: int, m: int, b: Seq<i32>, f: FkmFilter)
    requires f.whole,
    ensures
        forall|i: int| 0 <= i < fkm(n, k, l, p, m, b, f).len() ==> ({
            let w = #[trigger] fkm(n, k, l, p, m, b, f)[i];
            &&& w.len() == n
            &&& forall|j: int| 0 <= j < w.len() ==> w[j] == '0' || w[j] == '1'
        }),
    decreases n + 1 - k,
{
    if k > n {
        if l > 0 && n % l == 0 && fkm_keep(f, n, p, m) && b.len() > n {
            let w = bits_text(b.subrange(1, n + 1 as int));
            assert(fkm(n, k, l, p, m, b, f) == seq![w]);
            assert(w.len() == n);
            assert forall|j: int| 0 <= j < w.len() implies w[j] == '0' || w[j] == '1' by {}
        }
    } else if l == 0 || l > k || b.len() != k {
    } else {
        let bk = b[k - l];
        if bk == 1 {
            lemma_fkm_words_binary(n, k + 1, l, 1, m + 1, b.push(1), f);
            lemma_fkm_words_binary(n, k + 1, k, p + 1, m, b.push(0), f);
            let a = if fkm_may_close(f, p, k) { fkm(n, k + 1, l, 1, m + 1, b.push(1), f) } else { Seq::empty() };
            let c = fkm(n, k + 1, k, p + 1, m, b.push(0), f);
            assert(fkm(n, k, l, p, m, b, f) == a + c);
            assert forall|i: int| 0 <= i < (a + c).len() implies ({
                let w = #[trigger] (a + c)[i];
                &&& w.len() == n
                &&& forall|j: int| 0 <= j < w.len() ==> w[j] == '0' || w[j] == '1'
            }) by {
                if i >= a.len() {
                    assert((a + c)[i] == c[i - a.len()]);
                }
            }
        } else {
            lemma_fkm_words_binary(n, k + 1, l, p + 1, m, b.push(bk), f);
            assert(fkm(n, k, l, p, m, b, f) == fkm(n, k + 1, l, p + 1, m, b.push(bk), f));
        }
    }
}

/// Every necklace that the generators emit is a word of `n` binary digits.
pub proof fn law_necklaces_are_binary_words(n: nat, f: FkmFilter)
    requires f.whole,
    ensures
        forall|i: int| 0 <= i < fkm_words(n, f).len() ==> ({
            let w = #[trigger] fkm_words(n, f)[i];
            &&& w.len() == n
            &&& forall|j: int| 0 <= j < w.len() ==> w[j] == '0' || w[j] == '1'
        }),
{
    lemma_fkm_words_binary(n, 1, 1, 1, 0, seq![1i32], f);
}

// ---------------------------------------------------------------------------
// Random compositions and correlated random numbers
// ---------------------------------------------------------------------------

/// Whether every element of `s` is at least `lo` and at most `hi`.
pub open spec fn all_within(s: Seq<i32>, lo: int, hi: int) -> bool {
    forall|i: int| 0 <= i < s.len() ==> lo <= #[trigger] s[i] <= hi
}

/// A random composition of `n`. For each of the `n - 1` gaps between units, `coin()`
/// decides (with probability 1/2 in the caller's source of randomness) whether the current
/// part grows or a new part starts. Whatever the coin says, the parts are positive and add up to `n`.
pub fn array_seq_composition_random<F: Fn() -> bool>(n: i32, coin: &F) -> (r: Result<Vec<i32>, AudionError>)
    requires
        coin.requires(()),
    ensures
        n < 0 ==> is_runtime_error(r, "array_seq_composition_random() requires non-negative n"@),
        n == 0 ==> (r matches Ok(v) && v@.len() == 0),
        n > 0 ==> (r matches Ok(v) && parts_sum(v@) == n && all_within(v@, 1, n as int)),
{
    if n < 0 {
        return Err(AudionError::RuntimeError { msg: String::from_str("array_seq_composition_random() requires non-negative n") });
    }
    let mut result: Vec<i32> = Vec::new();
    if n == 0 {
        return Ok(result);
    }
    let mut p: i32 = 1;
    let mut i: i32 = 1;
    while i < n
        invariant
            1 <= i <= n,
            1 <= p <= i,
            parts_sum(result@) + p == i,
            all_within(result@, 1, n as int),
            coin.requires(()),
        decreases n - i,
    {
        if coin() {
            p += 1;
        } else {
            proof { lemma_parts_sum_push(result@, p); }
            result.push(p);
            p = 1;
        }
        i += 1;
    }
    proof { lemma_parts_sum_push(result@, p); }
    result.push(p);
    Ok(result)
}

proof fn lemma_parts_sum_push(s: Seq<i32>, x: i32)
    ensures parts_sum(s.push(x)) == parts_sum(s) + x,
    decreases s.len(),
{
    assert(parts_sum(s.push(x)) == s.push(x)[0] + parts_sum(s.push(x).drop_first()));
    if s.len() == 0 {
        assert(s.push(x).drop_first() =~= Seq::<i32>::empty());
        assert(s.push(x)[0] == x);
        assert(parts_sum(Seq::<i32>::empty()) == 0);
    } else {
        lemma_parts_sum_push(s.drop_first(), x);
        assert(s.push(x).drop_first() =~= s.drop_first().push(x));
        assert(s.push(x)[0] == s[0]);
    }
}

/// A random composition of `n` into exactly `m` parts. At each of the remaining positions
/// `below(mp, np)` answers whether a fresh uniform draw falls below `mp / np`, where `mp` parts
/// remain to be closed among `np` positions; when `mp >= np` a part is closed whatever the draw
/// says, since the probability is 1. The parts are positive, there are `m` of them, and they add up to `n`.
pub fn array_seq_composition_random_m_parts<F: Fn(i32, i32) -> bool>(n: i32, m: i32, below: &F) -> (r: Result<Vec<i32>, AudionError>)
    requires
        forall|a: i32, b: i32| below.requires((a, b)),
    ensures
        (n < 0 || m < 0) ==> is_runtime_error(r, "array_seq_composition_random_m_parts() requires non-negative n and m"@),
        (n >= 0 && m >= 0 && (n == 0 || m == 0)) ==> (r matches Ok(v) && v@.len() == 0),
        (n > 0 && m > n) ==> is_runtime_error(r, "array_seq_composition_random_m_parts() m cannot exceed n"@),
        (0 < m <= n) ==> (r matches Ok(v) && v@.len() == m && parts_sum(v@) == n && all_within(v@, 1, n as int)),
{
    if n < 0 || m < 0 {
        return Err(AudionError::RuntimeError { msg: String::from_str("array_seq_composition_random_m_parts() requires non-negative n and m") });
    }
    let mut result: Vec<i32> = Vec::new();
    if n == 0 || m == 0 {
        return Ok(result);
    }
    if m > n {
        return Err(AudionError::RuntimeError { msg: String::from_str("array_seq_composition_random_m_parts() m cannot exceed n") });
    }
    let mut mp: i32 = m - 1;
    let mut np: i32 = n - 1;
    let mut j: i32 = 1;
    while mp > 0
        invariant
            0 <= mp <= np,
            np < n,
            j >= 1,
            j + np <= n,
            result@.len() + mp + 1 == m,
            parts_sum(result@) + j + np == n,
            all_within(result@, 1, n as int),
            forall|a: i32, b: i32| below.requires((a, b)),
        decreases np,
    {
        let draw = below(mp, np);
        if mp >= np || draw {
            proof { lemma_parts_sum_push(result@, j); }
            result.push(j);
            mp -= 1;
            j = 1;
        } else {
            j += 1;
        }
        np -= 1;
    }
    proof { lemma_parts_sum_push(result@, (j + np) as i32); }
    result.push(j + np);
    Ok(result)
}

/// `n` correlated random numbers in `0..=m`, starting from `s`, with correlation degree `c`
/// (0 gives all `s`; `m` gives independent numbers). After each number, for `j` from `m` down
/// to `m - c + 1`, `below(s, j)` answers whether a fresh uniform draw falls below `s / j`, which
/// decrements `s`; the outcome is overridden where it is certain (`s >= j` always decrements,
/// `s == 0` never does). Then `c` draws `below(1, 2)` each increment `s`.
/// Whatever the draws, every number lies in `0..=m` and the first one is `s`.
pub fn array_seq_random_correlated<F: Fn(i32, i32) -> bool>(m: i32, s: i32, c: i32, n: i32, below: &F) -> (r: Result<Vec<i32>, AudionError>)
    requires
        forall|a: i32, b: i32| below.requires((a, b)),
    ensures
        (m < 0 || s < 0 || s > m || c < 0 || c > m || n < 0)
            ==> is_runtime_error(r, "array_seq_random_correlated() invalid parameters"@),
        !(m < 0 || s < 0 || s > m || c < 0 || c > m || n < 0) ==> (r matches Ok(v) && {
            &&& v@.len() == n
            &&& all_within(v@, 0, m as int)
            &&& n > 0 ==> v@[0] == s
            &&& c == 0 ==> forall|i: int| 0 <= i < n ==> v@[i] == s
        }),
{
    if m < 0 || s < 0 || s > m || c < 0 || c > m || n < 0 {
        return Err(AudionError::RuntimeError { msg: String::from_str("array_seq_random_correlated() invalid parameters") });
    }
    let mut result: Vec<i32> = Vec::new();
    let mut cur = s;
    let mut t: i32 = 0;
    while t < n
        invariant
            0 <= t <= n,
            0 <= c <= m,
            0 <= cur <= m,
            result@.len() == t,
            all_within(result@, 0, m as int),
            t > 0 ==> result@[0] == s,
            t == 0 ==> cur == s,
            c == 0 ==> cur == s && forall|i: int| 0 <= i < t ==> result@[i] == s,
            forall|a: i32, b: i32| below.requires((a, b)),
        decreases n - t,
    {
        result.push(cur);
        if c > 0 {
            let mut j: i32 = m;
            while j >= m - c + 1
                invariant
                    1 <= c <= m,
                    1 <= m - c + 1,
                    m - c <= j <= m,
                    0 <= cur <= j,
                    forall|a: i32, b: i32| below.requires((a, b)),
                decreases j,
            {
                let draw = below(cur, j);
                if cur >= j || (cur > 0 && draw) {
                    cur -= 1;
                }
                j -= 1;
            }
            let mut k: i32 = 0;
            while k < c
                invariant
                    0 <= k <= c,
                    0 <= cur <= m - c + k,
                    forall|a: i32, b: i32| below.requires((a, b)),
                decreases c - k,
            {
                if below(1, 2) {
                    cur += 1;
                }
                k += 1;
            }
        }
        t += 1;
    }
    Ok(result)
}

// ---------------------------------------------------------------------------
// Continued fractions
// ---------------------------------------------------------------------------

/// The convergent recurrence over a prefix of terms: (p_{k-1}, p_k, q_{k-1}, q_k).
pub open spec fn convergent(terms: Seq<u64>) -> (int, int, int, int)
    decreases terms.len(),
{
    if terms.len() == 0 {
        (0, 1, 1, 0)
    } else {
        let (p0, p1, q0, q1) = convergent(terms.drop_last());
        let a = terms.last() as int;
        (p1, a * p1 + p0, q1, a * q1 + q0)
    }
}

/// The numerators and denominators of every prefix fit in 64 bits.
pub open spec fn convergents_fit(terms: Seq<u64>) -> bool {
    forall|i: int| 0 <= i <= terms.len() ==>
        (#[trigger] convergent(terms.take(i))).1 <= u64::MAX && convergent(terms.take(i)).3 <= u64::MAX
}

proof fn lemma_convergent_nonneg(terms: Seq<u64>)
    ensures
        convergent(terms).0 >= 0, convergent(terms).1 >= 0,
        convergent(terms).2 >= 0, convergent(terms).3 >= 0,
    decreases terms.len(),
{
    if terms.len() > 0 {
        lemma_convergent_nonneg(terms.drop_last());
        let (p0, p1, q0, q1) = convergent(terms.drop_last());
        let a = terms.last() as int;
        assert(a * p1 >= 0) by (nonlinear_arith) requires a >= 0, p1 >= 0;
        assert(a * q1 >= 0) by (nonlinear_arith) requires a >= 0, q1 >= 0;
    }
}

/// The convergent [p, q] of the continued fraction [a0; a1, a2, ...]: p/q approximates it.
/// [1, 2, 2, 2, 2] gives [41, 29], close to the square root of 2. No terms give no result.
pub fn array_seq_cf_convergent(terms: &[u64]) -> (r: Vec<u64>)
    requires
        convergents_fit(terms@),
    ensures
        terms@.len() == 0 ==> r@.len() == 0,
        terms@.len() > 0 ==> r@ == seq![convergent(terms@).1 as u64, convergent(terms@).3 as u64],
{
    if terms.len() == 0 {
        return Vec::new();
    }
    let mut p0: u64 = 0;
    let mut p1: u64 = 1;
    let mut q0: u64 = 1;
    let mut q1: u64 = 0;
    let mut i: usize = 0;
    assert(terms@.take(0) =~= Seq::<u64>::empty());
    while i < terms.len()
        invariant
            i <= terms@.len(),
            convergents_fit(terms@),
            convergent(terms@.take(i as int)) == (p0 as int, p1 as int, q0 as int, q1 as int),
        decreases terms.len() - i,
    {
        let a = terms[i];
        proof {
            assert(terms@.take(i + 1).drop_last() =~= terms@.take(i as int));
            assert(terms@.take(i + 1).last() == a);
            let c = convergent(terms@.take(i + 1));
            assert(c.1 <= u64::MAX && c.3 <= u64::MAX);
            lemma_convergent_nonneg(terms@.take(i as int));
            assert(a * p1 <= u64::MAX) by (nonlinear_arith) requires a * p1 + p0 <= u64::MAX, p0 >= 0;
            assert(a * q1 <= u64::MAX) by (nonlinear_arith) requires a * q1 + q0 <= u64::MAX, q0 >= 0;
        }
        let p2 = a * p1 + p0;
        let q2 = a * q1 + q0;
        p0 = p1;
        p1 = p2;
        q0 = q1;
        q1 = q2;
        i += 1;
    }
    assert(terms@.take(terms@.len() as int) =~= terms@);
    let mut r: Vec<u64> = Vec::new();
    r.push(p1);
    r.push(q1);
    assert(r@ =~= seq![p1, q1]);
    r
}

// ---------------------------------------------------------------------------
// Christoffel words
// ---------------------------------------------------------------------------

/// The comparisons between multiples of p and q that follow the first letter of a period:
/// while `a != b` and fewer than `n` letters are out, '1' when `a > b` (then `b += q`),
/// else '0' (then `a += p`). Gives the letters, the count of letters, and the final `a`, `b`.
pub open spec fn christoffel_run(p: nat, q: nat, n: nat, i: nat, a: nat, b: nat, acc: Seq<char>) -> (Seq<char>, nat, nat, nat)
    decreases n - i,
{
    if a != b && i < n {
        if a > b {
            christoffel_run(p, q, n, i + 1, a, b + q, acc.push('1'))
        } else {
            christoffel_run(p, q, n, i + 1, a + p, b, acc.push('0'))
        }
    } else {
        (acc, i, a, b)
    }
}

/// The Christoffel word for slope p/q, repeated until it has `n` letters: each period starts
/// with '1' (upper) or '0' (lower), runs the comparisons, and, when the multiples meet, ends
/// with the other letter.
pub open spec fn christoffel_from(upper: bool, p: nat, q: nat, n: nat, i: nat, acc: Seq<char>) -> Seq<char>
    decreases n - i,
{
    let first = if upper { '1' } else { '0' };
    let last = if upper { '0' } else { '1' };
    let (w, j, a, b) = christoffel_run(p, q, n, i + 1, p, q, acc.push(first));
    let (w2, j2) = if a == b && j < n { (w.push(last), j + 1) } else { (w, j) };
    if j2 >= n || j2 <= i { w2 } else { christoffel_from(upper, p, q, n, j2, w2) }
}

proof fn lemma_christoffel_run(p: nat, q: nat, n: nat, i: nat, a: nat, b: nat, acc: Seq<char>)
    ensures ({
        let (w, j, a2, b2) = christoffel_run(p, q, n, i, a, b, acc);
        &&& j >= i
        &&& (i <= n ==> j <= n)
        &&& w.len() == acc.len() + (j - i)
        &&& a2 <= a + p * (j - i)
        &&& b2 <= b + q * (j - i)
        &&& a2 >= a && b2 >= b
    }),
    decreases n - i,
{
    if a != b && i < n {
        if a > b {
            lemma_christoffel_run(p, q, n, i + 1, a, b + q, acc.push('1'));
            let (w, j, a2, b2) = christoffel_run(p, q, n, i + 1, a, b + q, acc.push('1'));
            assert(b + q + q * (j - (i + 1)) == b + q * (j - i)) by (nonlinear_arith)
                requires j >= i + 1;
            assert(p * (j - (i + 1)) <= p * (j - i)) by (nonlinear_arith) requires j >= i + 1;
        } else {
            lemma_christoffel_run(p, q, n, i + 1, a + p, b, acc.push('0'));
            let (w, j, a2, b2) = christoffel_run(p, q, n, i + 1, a + p, b, acc.push('0'));
            assert(a + p + p * (j - (i + 1)) == a + p * (j - i)) by (nonlinear_arith)
                requires j >= i + 1;
            assert(q * (j - (i + 1)) <= q * (j - i)) by (nonlinear_arith) requires j >= i + 1;
        }
    }
}

proof fn lemma_christoffel_run_acc(p: nat, q: nat, n: nat, i: nat, a: nat, b: nat, acc: Seq<char>)
    ensures ({
        let r = christoffel_run(p, q, n, i, a, b, acc);
        let e = christoffel_run(p, q, n, i, a, b, Seq::empty());
        &&& r.0 == acc + e.0
        &&& r.1 == e.1
        &&& r.2 == e.2
        &&& r.3 == e.3
    }),
    decreases n - i,
{
    if a != b && i < n {
        let c = if a > b { '1' } else { '0' };
        let (a2, b2) = if a > b { (a, b + q) } else { (a + p, b) };
        lemma_christoffel_run_acc(p, q, n, i + 1, a2, b2, acc.push(c));
        lemma_christoffel_run_acc(p, q, n, i + 1, a2, b2, seq![c]);
        let e2 = christoffel_run(p, q, n, i + 1, a2, b2, Seq::empty());
        assert(Seq::<char>::empty().push(c) =~= seq![c]);
        assert(acc.push(c) + e2.0 =~= acc + (seq![c] + e2.0));
    } else {
        assert(acc + Seq::<char>::empty() =~= acc);
    }
}

/// `p` and `q` have no common multiple below `p * q` (they are coprime).
pub open spec fn no_common_multiple_below(p: nat, q: nat) -> bool {
    forall|x: int, y: int| 1 <= x < q && 1 <= y < p ==> #[trigger] (p * x) != #[trigger] (q * y)
}

proof fn lemma_christoffel_run_counts(p: nat, q: nat, z: nat, o: nat)
    requires
        p >= 1,
        q >= 1,
        no_common_multiple_below(p, q),
        z + 1 <= q,
        o + 1 <= p,
    ensures ({
        let r = christoffel_run(p, q, p + q, 1 + z + o, p * (1 + z), q * (1 + o), Seq::empty());
        &&& r.2 == r.3
        &&& r.1 == p + q - 1
        &&& r.0.len() == (q - 1 - z) + (p - 1 - o)
        &&& text_ones(r.0) == p - 1 - o
    }),
    decreases (q - 1 - z) + (p - 1 - o),
{
    let n = p + q;
    let i = 1 + z + o;
    let a = p * (1 + z);
    let b = q * (1 + o);
    if a == b {
        if z + 1 < q && o + 1 < p {
            assert(p * (1 + z) != q * (1 + o));
        }
        if z + 1 == q {
            assert(o + 1 == p) by (nonlinear_arith) requires p * q == q * (1 + o), q >= 1;
        } else {
            assert(o + 1 == p);
            assert(z + 1 == q) by (nonlinear_arith) requires p * (1 + z) == q * p, p >= 1;
        }
    } else {
        assert(i < n);
        if a > b {
            assert(o + 1 < p) by (nonlinear_arith)
                requires q * (1 + o) < p * (1 + z), 1 + z <= q, o + 1 <= p, q >= 1;
            assert(b + q == q * (1 + (o + 1))) by (nonlinear_arith) requires b == q * (1 + o);
            lemma_christoffel_run_counts(p, q, z, o + 1);
            lemma_christoffel_run_acc(p, q, n, i + 1, a, b + q, seq!['1']);
            let e = christoffel_run(p, q, n, i + 1, a, b + q, Seq::empty());
            assert(Seq::<char>::empty().push('1') =~= seq!['1']);
            assert(christoffel_run(p, q, n, i, a, b, Seq::empty()).0 == seq!['1'] + e.0);
            lemma_text_ones_front('1', e.0);
        } else {
            assert(z + 1 < q) by (nonlinear_arith)
                requires p * (1 + z) < q * (1 + o), 1 + o <= p, z + 1 <= q, p >= 1;
            assert(a + p == p * (1 + (z + 1))) by (nonlinear_arith) requires a == p * (1 + z);
            lemma_christoffel_run_counts(p, q, z + 1, o);
            lemma_christoffel_run_acc(p, q, n, i + 1, a + p, b, seq!['0']);
            let e = christoffel_run(p, q, n, i + 1, a + p, b, Seq::empty());
            assert(Seq::<char>::empty().push('0') =~= seq!['0']);
            assert(christoffel_run(p, q, n, i, a, b, Seq::empty()).0 == seq!['0'] + e.0);
            lemma_text_ones_front('0', e.0);
        }
    }
}

proof fn lemma_text_ones_front(c: char, w: Seq<char>)
    ensures text_ones(seq![c] + w) == text_ones(w) + if c == '1' { 1int } else { 0int },
    decreases w.len(),
{
    if w.len() == 0 {
        assert(seq![c] + w =~= seq![c]);
        assert(seq![c].drop_last() =~= Seq::<char>::empty());
        assert(seq![c].last() == c);
        assert(text_ones(Seq::<char>::empty()) == 0);
    } else {
        lemma_text_ones_front(c, w.drop_last());
        assert((seq![c] + w).drop_last() =~= seq![c] + w.drop_last());
        assert((seq![c] + w).last() == w.last());
    }
}

proof fn lemma_text_ones_back(w: Seq<char>, c: char)
    ensures text_ones(w.push(c)) == text_ones(w) + if c == '1' { 1int } else { 0int },
{
    assert(w.push(c).drop_last() =~= w);
}

/// For coprime `p` and `q` (no common multiple below `p * q`), the upper and lower Christoffel
/// words of length `p + q` share the same middle: the upper word is '1', the middle, '0'; the
/// lower word is '0', the middle, '1'; and each holds `p` ones and `q` zeros.
pub proof fn law_christoffel_words_share_middle(p: nat, q: nat)
    requires
        p >= 1,
        q >= 1,
        no_common_multiple_below(p, q),
    ensures ({
        let up = christoffel_from(true, p, q, p + q, 0, Seq::empty());
        let lo = christoffel_from(false, p, q, p + q, 0, Seq::empty());
        &&& up.len() == p + q
        &&& lo.len() == p + q
        &&& up[0] == '1' && up.last() == '0'
        &&& lo[0] == '0' && lo.last() == '1'
        &&& up.subrange(1, p + q - 1) == lo.subrange(1, p + q - 1)
        &&& text_ones(up) == p
        &&& text_ones(lo) == p
    }),
{
    let n = p + q;
    assert(p * (1 + 0nat) == p && q * (1 + 0nat) == q) by (nonlinear_arith);
    lemma_christoffel_run_counts(p, q, 0, 0);
    let e = christoffel_run(p, q, n, 1, p, q, Seq::empty());
    let m = e.0;
    lemma_christoffel_run_acc(p, q, n, 1, p, q, Seq::<char>::empty().push('1'));
    lemma_christoffel_run_acc(p, q, n, 1, p, q, Seq::<char>::empty().push('0'));
    let up = christoffel_from(true, p, q, n, 0, Seq::empty());
    let lo = christoffel_from(false, p, q, n, 0, Seq::empty());
    assert(Seq::<char>::empty().push('1') =~= seq!['1']);
    assert(Seq::<char>::empty().push('0') =~= seq!['0']);
    assert(up == (seq!['1'] + m).push('0'));
    assert(lo == (seq!['0'] + m).push('1'));
    assert(up.subrange(1, n - 1) =~= m);
    assert(lo.subrange(1, n - 1) =~= m);
    lemma_text_ones_front('1', m);
    lemma_text_ones_front('0', m);
    lemma_text_ones_back(seq!['1'] + m, '0');
    lemma_text_ones_back(seq!['0'] + m, '1');
}

/// The state after `z` zeros and `o` ones of the middle of a Christoffel word for slope p/q:
/// the next multiples `p * (z + 1)` and `q * (o + 1)` both lie beyond the ones already passed.
pub open spec fn christoffel_state(p: int, q: int, z: int, o: int) -> bool {
    &&& 0 <= z <= q - 1
    &&& 0 <= o <= p - 1
    &&& p * z < q * (o + 1)
    &&& q * o < p * (z + 1)
}

proof fn lemma_christoffel_state_unique(p: int, q: int, z1: int, o1: int, z2: int, o2: int)
    requires
        p >= 1,
        q >= 1,
        christoffel_state(p, q, z1, o1),
        christoffel_state(p, q, z2, o2),
        z1 + o1 == z2 + o2,
    ensures
        z1 == z2,
        o1 == o2,
{
    if o1 < o2 {
        assert(false) by (nonlinear_arith)
            requires
                p * z1 < q * (o1 + 1),
                q * o2 < p * (z2 + 1),
                z1 + o1 == z2 + o2,
                o1 < o2,
                p >= 1,
                q >= 1;
    } else if o2 < o1 {
        assert(false) by (nonlinear_arith)
            requires
                p * z2 < q * (o2 + 1),
                q * o1 < p * (z1 + 1),
                z1 + o1 == z2 + o2,
                o2 < o1,
                p >= 1,
                q >= 1;
    }
}

proof fn lemma_christoffel_state_mirror(p: int, q: int, z: int, o: int)
    requires
        christoffel_state(p, q, z, o),
    ensures
        christoffel_state(p, q, q - 1 - z, p - 1 - o),
{
    assert(p * (q - 1 - z) < q * (p - 1 - o + 1)) by (nonlinear_arith)
        requires q * o < p * (z + 1);
    assert(q * (p - 1 - o) < p * (q - 1 - z + 1)) by (nonlinear_arith)
        requires p * z < q * (o + 1);
}

proof fn lemma_christoffel_run_states(p: nat, q: nat, z: nat, o: nat)
    requires
        p >= 1,
        q >= 1,
        no_common_multiple_below(p, q),
        christoffel_state(p as int, q as int, z as int, o as int),
    ensures ({
        let w = christoffel_run(p, q, p + q, 1 + z + o, p * (1 + z), q * (1 + o), Seq::empty()).0;
        &&& forall|k: int| 0 <= k <= w.len() ==> #[trigger] christoffel_state(p as int, q as int,
                z + k - text_ones(w.take(k)), o + text_ones(w.take(k)))
        &&& forall|k: int| 0 <= k < w.len() ==> #[trigger] w[k] == '0' || w[k] == '1'
    }),
    decreases (q - 1 - z) + (p - 1 - o),
{
    let n = p + q;
    let i = 1 + z + o;
    let a = p * (1 + z);
    let b = q * (1 + o);
    let w = christoffel_run(p, q, n, i, a, b, Seq::empty()).0;
    lemma_christoffel_run_counts(p, q, z, o);
    if a == b {
        assert(w.len() == 0) by {
            if z + 1 < q && o + 1 < p {
                assert(p * (1 + z) != q * (1 + o));
            }
        }
        assert forall|k: int| 0 <= k <= w.len() implies #[trigger] christoffel_state(p as int, q as int,
            z + k - text_ones(w.take(k)), o + text_ones(w.take(k))) by {
            assert(w.take(k) =~= Seq::<char>::empty());
        }
    } else {
        let (c, z2, o2) = if a > b { ('1', z, o + 1) } else { ('0', z + 1, o) };
        if a > b {
            assert(o + 1 < p) by (nonlinear_arith)
                requires q * (1 + o) < p * (1 + z), 1 + z <= q, o + 1 <= p, q >= 1;
            assert(b + q == q * (1 + (o + 1))) by (nonlinear_arith) requires b == q * (1 + o);
            assert(christoffel_state(p as int, q as int, z as int, (o + 1) as int)) by (nonlinear_arith)
                requires p * z < q * (o + 1), q * (1 + o) < p * (1 + z), o + 1 < p, z + 1 <= q, q >= 1;
        } else {
            assert(z + 1 < q) by (nonlinear_arith)
                requires p * (1 + z) < q * (1 + o), 1 + o <= p, z + 1 <= q, p >= 1;
            assert(a + p == p * (1 + (z + 1))) by (nonlinear_arith) requires a == p * (1 + z);
            assert(christoffel_state(p as int, q as int, (z + 1) as int, o as int)) by (nonlinear_arith)
                requires q * o < p * (z + 1), p * (1 + z) < q * (1 + o), z + 1 < q, o + 1 <= p, p >= 1;
        }
        lemma_christoffel_run_states(p, q, z2, o2);
        let a2 = p * (1 + z2);
        let b2 = q * (1 + o2);
        lemma_christoffel_run_acc(p, q, n, i + 1, a2, b2, seq![c]);
        let e = christoffel_run(p, q, n, i + 1, a2, b2, Seq::empty()).0;
        assert(1 + z2 + o2 == i + 1);
        assert(Seq::<char>::empty().push(c) =~= seq![c]);
        assert(w == seq![c] + e);
        assert forall|k: int| 0 <= k <= w.len() implies #[trigger] christoffel_state(p as int, q as int,
            z + k - text_ones(w.take(k)), o + text_ones(w.take(k))) by {
            if k == 0 {
                assert(w.take(0) =~= Seq::<char>::empty());
            } else {
                assert(w.take(k) =~= seq![c] + e.take(k - 1));
                lemma_text_ones_front(c, e.take(k - 1));
                assert(christoffel_state(p as int, q as int,
                    z2 + (k - 1) - text_ones(e.take(k - 1)), o2 + text_ones(e.take(k - 1))));
            }
        }
        assert forall|k: int| 0 <= k < w.len() implies #[trigger] w[k] == '0' || w[k] == '1' by {
            if k > 0 { assert(w[k] == e[k - 1]); }
        }
    }
}

/// For coprime `p` and `q` (no common multiple below `p * q`), the upper Christoffel word of
/// length `p + q` is the lower one read backwards.
pub proof fn law_christoffel_upper_is_reversed_lower(p: nat, q: nat)
    requires
        p >= 1,
        q >= 1,
        no_common_multiple_below(p, q),
    ensures
        christoffel_from(true, p, q, p + q, 0, Seq::empty())
            == christoffel_from(false, p, q, p + q, 0, Seq::empty()).reverse(),
{
    let n = p + q;
    law_christoffel_words_share_middle(p, q);
    assert(p * (1 + 0nat) == p && q * (1 + 0nat) == q) by (nonlinear_arith);
    assert(christoffel_state(p as int, q as int, 0, 0));
    lemma_christoffel_run_counts(p, q, 0, 0);
    lemma_christoffel_run_states(p, q, 0, 0);
    let m = christoffel_run(p, q, n, 1, p, q, Seq::empty()).0;
    let len = m.len() as int;
    assert(len == p + q - 2);
    let up = christoffel_from(true, p, q, n, 0, Seq::empty());
    let lo = christoffel_from(false, p, q, n, 0, Seq::empty());
    lemma_christoffel_run_acc(p, q, n, 1, p, q, Seq::<char>::empty().push('1'));
    lemma_christoffel_run_acc(p, q, n, 1, p, q, Seq::<char>::empty().push('0'));
    assert(Seq::<char>::empty().push('1') =~= seq!['1']);
    assert(Seq::<char>::empty().push('0') =~= seq!['0']);
    assert(up == (seq!['1'] + m).push('0'));
    assert(lo == (seq!['0'] + m).push('1'));
    assert forall|t: int| 0 <= t <= len implies #[trigger] text_ones(m.take(t)) == (p - 1) - text_ones(m.take(len - t)) by {
        let o1 = text_ones(m.take(t));
        let o2 = text_ones(m.take(len - t));
        assert(christoffel_state(p as int, q as int, 0 + t - o1, 0 + o1));
        assert(christoffel_state(p as int, q as int, 0 + (len - t) - o2, 0 + o2));
        lemma_christoffel_state_mirror(p as int, q as int, (len - t) - o2, o2);
        lemma_christoffel_state_unique(p as int, q as int, t - o1, o1,
            q - 1 - ((len - t) - o2), p - 1 - o2);
    }
    assert forall|t: int| 0 <= t < len implies #[trigger] m[t] == m[len - 1 - t] by {
        assert(m.take(t + 1) =~= m.take(t).push(m[t]));
        lemma_text_ones_back(m.take(t), m[t]);
        let u = len - 1 - t;
        assert(m.take(u + 1) =~= m.take(u).push(m[u]));
        lemma_text_ones_back(m.take(u), m[u]);
        assert(text_ones(m.take(t)) == (p - 1) - text_ones(m.take(len - t)));
        assert(text_ones(m.take(t + 1)) == (p - 1) - text_ones(m.take(len - (t + 1))));
        assert(m[t] == '0' || m[t] == '1');
        assert(m[u] == '0' || m[u] == '1');
    }
    assert(m =~= m.reverse());
    assert(lo.reverse() =~= (seq!['1'] + m.reverse()).push('0'));
    assert(up =~= lo.reverse());
}

/// Whether `kind` names the upper Christoffel word: its first letter is 'u' or 'U'.
pub open spec fn is_upper_kind(kind: Seq<char>) -> bool {
    kind.len() > 0 && (kind[0] == 'u' || kind[0] == 'U')
}

/// The upper or lower Christoffel word for slope p/q, of length `n` (at least one letter).
pub fn array_seq_christoffel(kind: &str, p: u64, q: u64, n: u64) -> (r: String)
    requires
        p * (n + 1) <= u64::MAX,
        q * (n + 1) <= u64::MAX,
    ensures
        r@ == christoffel_from(is_upper_kind(kind@), p as nat, q as nat, n as nat, 0, Seq::empty()),
{
    let kc = crate::text::chars_of(kind);
    let is_upper = kc.len() > 0 && (kc[0] == 'u' || kc[0] == 'U');
    let ghost up = is_upper_kind(kind@);
    let mut result = String::new();
    let mut i: u64 = 0;
    let ghost target = christoffel_from(up, p as nat, q as nat, n as nat, 0, Seq::empty());
    loop
        invariant_except_break
            i < n || i == 0,
            target == christoffel_from(up, p as nat, q as nat, n as nat, i as nat, result@),
        invariant
            up == is_upper,
            p * (n + 1) <= u64::MAX,
            q * (n + 1) <= u64::MAX,
            target == christoffel_from(up, p as nat, q as nat, n as nat, 0, Seq::empty()),
        ensures
            result@ == target,
        decreases n - i,
    {
        let ghost i0 = i as nat;
        let ghost acc0 = result@;
        result.push(if is_upper { '1' } else { '0' });
        i += 1;
        let mut a: u64 = p;
        let mut b: u64 = q;
        proof {
            lemma_christoffel_run(p as nat, q as nat, n as nat, i as nat, p as nat, q as nat, result@);
            assert(p <= p * i) by (nonlinear_arith) requires i >= 1;
            assert(q <= q * i) by (nonlinear_arith) requires i >= 1;
        }
        let ghost run = christoffel_run(p as nat, q as nat, n as nat, i as nat, p as nat, q as nat, result@);
        while a != b && i < n
            invariant
                i0 + 1 <= i,
                i <= n || i == i0 + 1,
                p <= a, q <= b,
                a <= p * i, b <= q * i,
                p * (n + 1) <= u64::MAX,
                q * (n + 1) <= u64::MAX,
                christoffel_run(p as nat, q as nat, n as nat, i as nat, a as nat, b as nat, result@) == run,
            decreases n - i,
        {
            proof {
                assert(p * i <= p * n) by (nonlinear_arith) requires i < n;
                assert(q * i <= q * n) by (nonlinear_arith) requires i < n;
                assert(p * n + p == p * (n + 1)) by (nonlinear_arith);
                assert(q * n + q == q * (n + 1)) by (nonlinear_arith);
            }
            if a > b {
                result.push('1');
                b += q;
            } else {
                result.push('0');
                a += p;
            }
            proof {
                assert(p * i + p == p * (i + 1)) by (nonlinear_arith);
                assert(q * i + q == q * (i + 1)) by (nonlinear_arith);
            }
            i += 1;
        }
        if a == b && i < n {
            result.push(if is_upper { '0' } else { '1' });
            i += 1;
        }
        if i >= n {
            break;
        }
    }
    result
}

// ---------------------------------------------------------------------------
// Paper folding sequences
// ---------------------------------------------------------------------------

/// (a, b) with i = 2^a * (2b + 1), for i > 0.
pub open spec fn two_adic(i: nat) -> (nat, nat)
    decreases i,
{
    if i == 0 {
        (0, 0)
    } else if i % 2 == 1 {
        (0, ((i - 1) / 2) as nat)
    } else {
        let (k, b) = two_adic(i / 2);
        (k + 1, b)
    }
}

/// Term `i` (from 1) of the paper folding sequence with `m` fold bits taken from `f`:
/// with i = 2^k (2j + 1), the bit (k mod m) of `f`, inverted when j is odd.
pub open spec fn fold_char(i: nat, m: nat, f: u32) -> char {
    let (k, j) = two_adic(i);
    let bit = ((f >> ((k % m) as u32)) & 1u32) == 1u32;
    let b = if j % 2 == 1 { !bit } else { bit };
    if b { '1' } else { '0' }
}

/// Finds a and b such that i = 2^a * (2b + 1).
fn oddeven(i: u32) -> (r: (u32, u32))
    requires i >= 1,
    ensures (r.0 as nat, r.1 as nat) == two_adic(i as nat),
{
    let mut temp = i;
    let mut k: u32 = 0;
    proof {
        vstd::arithmetic::power2::lemma2_to64();
        assert(temp as nat * 1 == i as nat);
    }
    while temp % 2 == 0
        invariant
            temp >= 1,
            k < 32,
            k as nat + two_adic(temp as nat).0 == two_adic(i as nat).0,
            two_adic(temp as nat).1 == two_adic(i as nat).1,
            temp as nat * vstd::arithmetic::power2::pow2(k as nat) == i as nat,
        decreases temp,
    {
        proof {
            vstd::arithmetic::power2::lemma_pow2_adds(k as nat, 1);
            vstd::arithmetic::power2::lemma2_to64();
            let t2 = (temp / 2) as nat;
            assert(temp as nat == 2 * t2);
            assert(vstd::arithmetic::power2::pow2(k as nat + 1) == 2 * vstd::arithmetic::power2::pow2(k as nat));
            assert(t2 * vstd::arithmetic::power2::pow2(k as nat + 1) == i as nat) by (nonlinear_arith)
                requires
                    temp as nat == 2 * t2,
                    temp as nat * vstd::arithmetic::power2::pow2(k as nat) == i as nat,
                    vstd::arithmetic::power2::pow2(k as nat + 1) == 2 * vstd::arithmetic::power2::pow2(k as nat);
            if k + 1 >= 32 {
                vstd::arithmetic::power2::lemma_pow2_strictly_increases(31, 32);
                vstd::arithmetic::power2::lemma_pow2_pos(32);
                assert(vstd::arithmetic::power2::pow2(32) == 0x1_0000_0000) by { vstd::arithmetic::power2::lemma2_to64(); }
                assert(t2 * vstd::arithmetic::power2::pow2(k as nat + 1) >= vstd::arithmetic::power2::pow2(32)) by (nonlinear_arith)
                    requires t2 >= 1, k as nat + 1 == 32;
            }
        }
        temp = temp / 2;
        k += 1;
    }
    (k, (temp - 1) / 2)
}

/// The paper folding sequence: terms 1..=n as '0'/'1', folding by bits (k mod m) of `f`.
/// `m` may be at most 31; with no fold bits (`m == 0`) only the empty sequence is defined.
pub fn array_seq_paper_folding(n: u32, m: u32, f: u32) -> (r: Result<String, AudionError>)
    requires
        m == 0 ==> n == 0 || m > 31,
    ensures
        m > 31 ==> is_runtime_error(r, "array_seq_paper_folding() m too large (max 31)"@),
        m <= 31 ==> (r matches Ok(s) && s@ == Seq::new(n as nat, |t: int| fold_char((t + 1) as nat, m as nat, f))),
{
    if m > 31 {
        return Err(AudionError::RuntimeError { msg: String::from_str("array_seq_paper_folding() m too large (max 31)") });
    }
    let mut result = String::new();
    let mut i: u64 = 1;
    while i <= n as u64
        invariant
            1 <= i <= n as u64 + 1,
            m <= 31,
            m == 0 ==> n == 0,
            result@ == Seq::new((i - 1) as nat, |t: int| fold_char((t + 1) as nat, m as nat, f)),
        decreases n as u64 + 1 - i,
    {
        let (k, j) = oddeven(i as u32);
        let k_mod = k % m;
        let mut b: u32 = if (f & (1u32 << k_mod)) != 0 { 1 } else { 0 };
        proof {
            assert((f & (1u32 << k_mod)) != 0 <==> ((f >> k_mod) & 1u32) == 1u32) by (bit_vector)
                requires k_mod < 32;
            assert((2 * (j as int) + 1) % 4 > 1 <==> (j as int) % 2 == 1);
        }
        if (2 * j as u64 + 1) % 4 > 1 {
            b = 1 - b;
        }
        result.push(if b == 1 { '1' } else { '0' });
        assert(result@ =~= Seq::new(i as nat, |t: int| fold_char((t + 1) as nat, m as nat, f)));
        i += 1;
    }
    Ok(result)
}

/// `i = 2^k (2j + 1)` determines `k` and `j`.
proof fn lemma_two_adic_of(k: nat, j: nat)
    ensures
        two_adic(vstd::arithmetic::power2::pow2(k) * (2 * j + 1)) == (k, j),
    decreases k,
{
    let i = vstd::arithmetic::power2::pow2(k) * (2 * j + 1);
    if k == 0 {
        vstd::arithmetic::power2::lemma2_to64();
        assert(i == 2 * j + 1) by (nonlinear_arith)
            requires
                i == vstd::arithmetic::power2::pow2(k) * (2 * j + 1),
                vstd::arithmetic::power2::pow2(k) == 1;
    } else {
        let h = vstd::arithmetic::power2::pow2((k - 1) as nat) * (2 * j + 1);
        vstd::arithmetic::power2::lemma_pow2_adds((k - 1) as nat, 1);
        vstd::arithmetic::power2::lemma2_to64();
        vstd::arithmetic::power2::lemma_pow2_pos((k - 1) as nat);
        assert(vstd::arithmetic::power2::pow2(k) == 2 * vstd::arithmetic::power2::pow2((k - 1) as nat));
        assert(i == 2 * h) by (nonlinear_arith)
            requires
                i == vstd::arithmetic::power2::pow2(k) * (2 * j + 1),
                h == vstd::arithmetic::power2::pow2((k - 1) as nat) * (2 * j + 1),
                vstd::arithmetic::power2::pow2(k) == 2 * vstd::arithmetic::power2::pow2((k - 1) as nat);
        assert(h >= 1) by (nonlinear_arith)
            requires
                h == vstd::arithmetic::power2::pow2((k - 1) as nat) * (2 * j + 1),
                vstd::arithmetic::power2::pow2((k - 1) as nat) > 0;
        assert(i % 2 == 0 && i / 2 == h && i != 0);
        lemma_two_adic_of((k - 1) as nat, j);
    }
}

/// The term of a paper folding sequence at `i = 2^k (2j + 1)` is fold bit number `k mod m`
/// of `f`, inverted when `j` is odd.
pub proof fn law_paper_folding_term(k: nat, j: nat, m: nat, f: u32)
    requires
        1 <= m <= 31,
    ensures
        fold_char(vstd::arithmetic::power2::pow2(k) * (2 * j + 1), m, f)
            == (if (((f >> ((k % m) as u32)) & 1u32) == 1u32) != (j % 2 == 1) { '1' } else { '0' }),
{
    lemma_two_adic_of(k, j);
}

/// The odd terms of a paper folding sequence alternate on fold bit 0 of `f`: terms 1, 5,
/// 9, ... equal it and terms 3, 7, 11, ... are its inverse.
pub proof fn law_paper_folding_odd_terms(i: nat, m: nat, f: u32)
    requires
        1 <= m <= 31,
        i % 2 == 1,
    ensures
        fold_char(i, m, f) == (if ((f & 1u32) == 1u32) == (i % 4 == 1) { '1' } else { '0' }),
{
    let j = ((i - 1) / 2) as nat;
    vstd::arithmetic::power2::lemma2_to64();
    assert(vstd::arithmetic::power2::pow2(0) * (2 * j + 1) == i) by (nonlinear_arith)
        requires
            vstd::arithmetic::power2::pow2(0) == 1,
            i == 2 * j + 1;
    lemma_two_adic_of(0, j);
    assert(0nat % m == 0);
    assert((f >> 0u32) & 1u32 == f & 1u32) by (bit_vector);
    assert((j % 2 == 1) == (i % 4 == 3));
}

/// Doubling a position `m` times reaches the same fold bit: the term at `2^m i` equals the
/// term at `i`.
pub proof fn law_paper_folding_period(k: nat, j: nat, m: nat, f: u32)
    requires
        1 <= m <= 31,
    ensures
        fold_char(vstd::arithmetic::power2::pow2(k + m) * (2 * j + 1), m, f)
            == fold_char(vstd::arithmetic::power2::pow2(k) * (2 * j + 1), m, f),
{
    lemma_two_adic_of(k, j);
    lemma_two_adic_of(k + m, j);
    vstd::arithmetic::div_mod::lemma_mod_add_multiples_vanish(k as int, m as int);
}

// ---------------------------------------------------------------------------
// Euclidean rhythms (Bjorklund's algorithm)
// ---------------------------------------------------------------------------

/// Appends to each of the first groups of `front` the group of `back` at the same position,
/// as far as both go.
pub open spec fn merge_groups(front: Seq<Seq<u8>>, back: Seq<Seq<u8>>) -> Seq<Seq<u8>> {
    let count = if front.len() < back.len() { front.len() } else { back.len() };
    Seq::new(count, |i: int| front[i] + back[i])
}

/// The groups that `merge_groups` leaves unpaired: those of the longer of the two lists.
pub open spec fn rest_groups(front: Seq<Seq<u8>>, back: Seq<Seq<u8>>) -> Seq<Seq<u8>> {
    if front.len() > back.len() { front.skip(back.len() as int) } else { back.skip(front.len() as int) }
}

/// Bjorklund's algorithm on groups: while more than one remainder group is left, append the
/// remainder groups to the leading groups one by one; the paired groups lead, and the
/// unpaired ones (of either list) become the new remainder. The result is the leading groups
/// then the remainder.
pub open spec fn bjorklund(front: Seq<Seq<u8>>, back: Seq<Seq<u8>>) -> Seq<Seq<u8>>
    decreases front.len() + back.len(),
{
    if back.len() <= 1 || front.len() == 0 {
        front + back
    } else {
        bjorklund(merge_groups(front, back), rest_groups(front, back))
    }
}

/// The Euclidean rhythm with `pulses` onsets over `steps` steps, as Bjorklund's algorithm
/// lays it out (the groups flattened in order).
pub open spec fn euclidean_rhythm(pulses: nat, steps: nat) -> Seq<u8> {
    bjorklund(Seq::new(pulses, |i: int| seq![1u8]), Seq::new((steps - pulses) as nat, |i: int| seq![0u8])).flatten()
}

pub open spec fn groups_view(v: Seq<Vec<u8>>) -> Seq<Seq<u8>> {
    v.map_values(|g: Vec<u8>| g@)
}

proof fn lemma_groups_view_push(s: Seq<Vec<u8>>, g: Vec<u8>)
    ensures groups_view(s.push(g)) == groups_view(s).push(g@),
{
    assert(groups_view(s.push(g)) =~= groups_view(s).push(g@));
}

fn copy_bytes(v: &Vec<u8>) -> (r: Vec<u8>)
    ensures r@ == v@,
{
    let mut r: Vec<u8> = Vec::new();
    let mut i: usize = 0;
    while i < v.len()
        invariant
            i <= v@.len(),
            r@ == v@.take(i as int),
        decreases v.len() - i,
    {
        r.push(v[i]);
        i += 1;
        assert(r@ =~= v@.take(i as int));
    }
    assert(v@.take(v@.len() as int) =~= v@);
    r
}

fn copy_groups_from(src: &Vec<Vec<u8>>, from: usize) -> (r: Vec<Vec<u8>>)
    requires from <= src@.len(),
    ensures groups_view(r@) == groups_view(src@).skip(from as int),
{
    let mut r: Vec<Vec<u8>> = Vec::new();
    let mut j: usize = from;
    while j < src.len()
        invariant
            from <= j <= src@.len(),
            groups_view(r@) == groups_view(src@).skip(from as int).take(j - from),
        decreases src.len() - j,
    {
        let g = copy_bytes(&src[j]);
        proof { lemma_groups_view_push(r@, g); }
        r.push(g);
        j += 1;
        assert(groups_view(r@) =~= groups_view(src@).skip(from as int).take(j - from));
    }
    assert(groups_view(src@).skip(from as int).take(src@.len() - from) =~= groups_view(src@).skip(from as int));
    r
}

fn singleton_groups(count: usize, value: u8) -> (r: Vec<Vec<u8>>)
    ensures groups_view(r@) == Seq::new(count as nat, |i: int| seq![value]),
{
    let mut r: Vec<Vec<u8>> = Vec::new();
    let mut i: usize = 0;
    while i < count
        invariant
            i <= count,
            groups_view(r@) == Seq::new(i as nat, |k: int| seq![value]),
        decreases count - i,
    {
        let mut g: Vec<u8> = Vec::new();
        g.push(value);
        assert(g@ =~= seq![value]);
        proof { lemma_groups_view_push(r@, g); }
        r.push(g);
        i += 1;
        assert(groups_view(r@) =~= Seq::new(i as nat, |k: int| seq![value]));
    }
    r
}

/// The Euclidean rhythm: `pulses` ones spread as evenly as possible over `steps` steps,
/// by Bjorklund's algorithm. array_seq_euclidean(5, 8) gives [1,0,1,1,0,1,1,0].
pub fn array_seq_euclidean(pulses: usize, steps: usize) -> (r: Result<Vec<u8>, AudionError>)
    ensures
        pulses > steps ==> is_runtime_error(r, "array_seq_euclidean() pulses cannot exceed steps"@),
        pulses <= steps ==> (r matches Ok(v) && v@ == (if pulses == 0 {
            Seq::new(steps as nat, |i: int| 0u8)
        } else {
            euclidean_rhythm(pulses as nat, steps as nat)
        })),
{
    if pulses > steps {
        return Err(AudionError::RuntimeError { msg: String::from_str("array_seq_euclidean() pulses cannot exceed steps") });
    }
    if pulses == 0 {
        let mut z: Vec<u8> = Vec::new();
        let mut i: usize = 0;
        while i < steps
            invariant
                i <= steps,
                z@ == Seq::new(i as nat, |k: int| 0u8),
            decreases steps - i,
        {
            z.push(0);
            i += 1;
            assert(z@ =~= Seq::new(i as nat, |k: int| 0u8));
        }
        return Ok(z);
    }
    let mut front = singleton_groups(pulses, 1);
    let mut back = singleton_groups(steps - pulses, 0);
    let ghost target = bjorklund(groups_view(front@), groups_view(back@));
    loop
        invariant_except_break
            front@.len() > 0,
            bjorklund(groups_view(front@), groups_view(back@)) == target,
        invariant
            target == bjorklund(Seq::new(pulses as nat, |i: int| seq![1u8]), Seq::new((steps - pulses) as nat, |i: int| seq![0u8])),
            front@.len() + back@.len() <= steps,
        ensures
            groups_view(front@) + groups_view(back@) == target,
        decreases front@.len() + back@.len(),
    {
        if back.len() <= 1 {
            break;
        }
        let count = if front.len() < back.len() { front.len() } else { back.len() };
        let ghost fv = groups_view(front@);
        let ghost bv = groups_view(back@);
        let mut nf: Vec<Vec<u8>> = Vec::new();
        let mut i: usize = 0;
        while i < count
            invariant
                i <= count,
                fv == groups_view(front@),
                bv == groups_view(back@),
                count <= back@.len(),
                count <= front@.len(),
                count == (if front@.len() < back@.len() { front@.len() } else { back@.len() }),
                groups_view(nf@) == merge_groups(fv, bv).take(i as int),
            decreases count - i,
        {
            let mut g = copy_bytes(&front[i]);
            let extra = copy_bytes(&back[i]);
            let mut t: usize = 0;
            let ghost g0 = g@;
            while t < extra.len()
                invariant
                    t <= extra@.len(),
                    g@ == g0 + extra@.take(t as int),
                decreases extra.len() - t,
            {
                g.push(extra[t]);
                t += 1;
                assert(g@ =~= g0 + extra@.take(t as int));
            }
            assert(extra@.take(extra@.len() as int) =~= extra@);
            proof { lemma_groups_view_push(nf@, g); }
            nf.push(g);
            i += 1;
            assert(groups_view(nf@) =~= merge_groups(fv, bv).take(i as int));
        }
        let nb = if front.len() > count { copy_groups_from(&front, count) } else { copy_groups_from(&back, count) };
        proof {
            assert(merge_groups(fv, bv).take(count as int) =~= merge_groups(fv, bv));
            assert(groups_view(nb@) =~= rest_groups(fv, bv));
            assert(nf@.len() == groups_view(nf@).len());
            assert(nb@.len() == groups_view(nb@).len());
            assert(nf@.len() == count);
            assert(nb@.len() + count == (if front@.len() > back@.len() { front@.len() } else { back@.len() }));
        }
        front = nf;
        back = nb;
    }
    let ghost groups = groups_view(front@) + groups_view(back@);
    let mut result: Vec<u8> = Vec::new();
    let mut gi: usize = 0;
    while gi < front.len() + back.len()
        invariant
            gi <= front@.len() + back@.len(),
            front@.len() + back@.len() <= steps,
            groups == groups_view(front@) + groups_view(back@),
            result@ == groups.take(gi as int).flatten(),
        decreases front.len() + back.len() - gi,
    {
        let g: &Vec<u8> = if gi < front.len() { &front[gi] } else { &back[gi - front.len()] };
        assert(g@ == groups[gi as int]);
        let mut t: usize = 0;
        let ghost r0 = result@;
        while t < g.len()
            invariant
                t <= g@.len(),
                result@ == r0 + g@.take(t as int),
            decreases g.len() - t,
        {
            result.push(g[t]);
            t += 1;
            assert(result@ =~= r0 + g@.take(t as int));
        }
        proof {
            assert(g@.take(g@.len() as int) =~= g@);
            assert(groups.take(gi + 1) =~= groups.take(gi as int).push(groups[gi as int]));
            groups.take(gi as int).lemma_flatten_push(groups[gi as int]);
        }
        gi += 1;
    }
    assert(groups.take(groups.len() as int) =~= groups);
    Ok(result)
}


// ---------------------------------------------------------------------------
// Permutations
// ---------------------------------------------------------------------------

/// `s` with `x` inserted before its first element greater than `x`.
pub open spec fn insert_sorted(s: Seq<i32>, x: i32) -> Seq<i32>
    decreases s.len(),
{
    if s.len() == 0 {
        seq![x]
    } else if x < s[0] {
        seq![x] + s
    } else {
        seq![s[0]] + insert_sorted(s.drop_first(), x)
    }
}

/// `s` in nondecreasing order (by insertion).
pub open spec fn sorted_seq(s: Seq<i32>) -> Seq<i32>
    decreases s.len(),
{
    if s.len() == 0 { Seq::empty() } else { insert_sorted(sorted_seq(s.drop_last()), s.last()) }
}

/// All distinct arrangements of the elements of `s` in lexicographic order, when `s` is sorted:
/// for each distinct value, in order, that value followed by the arrangements of the rest.
pub open spec fn lex_perms(s: Seq<i32>) -> Seq<Seq<i32>>
    decreases s.len(), s.len() + 1,
{
    if s.len() == 0 { seq![Seq::empty()] } else { perms_from(s, 0) }
}

/// The arrangements of `s` (as in `lex_perms`) that begin with one of `s[i..]`.
pub open spec fn perms_from(s: Seq<i32>, i: nat) -> Seq<Seq<i32>>
    decreases s.len(), s.len() - i,
{
    if i >= s.len() {
        Seq::empty()
    } else if i > 0 && s[i as int] == s[i - 1] {
        perms_from(s, i + 1)
    } else {
        prepend_all(s[i as int], lex_perms(s.remove(i as int))) + perms_from(s, i + 1)
    }
}

fn insert_sorted_exec(s: &mut Vec<i32>, x: i32)
    ensures final(s)@ == insert_sorted(old(s)@, x),
{
    let mut i: usize = 0;
    assert(s@.take(0) + insert_sorted(s@.skip(0), x) =~= insert_sorted(s@, x)) by {
        assert(s@.skip(0) =~= s@);
    }
    while i < s.len() && s[i] <= x
        invariant
            i <= s@.len(),
            s@ == old(s)@,
            insert_sorted(s@, x) == s@.take(i as int) + insert_sorted(s@.skip(i as int), x),
        decreases s.len() - i,
    {
        proof {
            let t = s@.skip(i as int);
            assert(t[0] == s@[i as int]);
            assert(t.drop_first() =~= s@.skip(i + 1));
            assert(s@.take(i + 1) =~= s@.take(i as int) + seq![s@[i as int]]);
        }
        i += 1;
    }
    proof {
        let t = s@.skip(i as int);
        if i < s@.len() {
            assert(t[0] == s@[i as int]);
        } else {
            assert(t =~= Seq::<i32>::empty());
        }
    }
    let ghost before = s@;
    s.insert(i, x);
    assert(s@ =~= before.take(i as int) + (seq![x] + before.skip(i as int)));
}

fn sort_values(v: &[i32]) -> (r: Vec<i32>)
    ensures r@ == sorted_seq(v@),
{
    let mut r: Vec<i32> = Vec::new();
    let mut i: usize = 0;
    while i < v.len()
        invariant
            i <= v@.len(),
            r@ == sorted_seq(v@.take(i as int)),
        decreases v.len() - i,
    {
        proof {
            assert(v@.take(i + 1).drop_last() =~= v@.take(i as int));
        }
        insert_sorted_exec(&mut r, v[i]);
        i += 1;
    }
    assert(v@.take(v@.len() as int) =~= v@);
    r
}

/// Each list of `ls` appended to `p`.
pub open spec fn lists_after(p: Seq<i32>, ls: Seq<Seq<i32>>) -> Seq<Seq<i32>> {
    ls.map_values(|l: Seq<i32>| p + l)
}

proof fn lemma_lists_after_add(p: Seq<i32>, x: Seq<Seq<i32>>, y: Seq<Seq<i32>>)
    ensures lists_after(p, x + y) == lists_after(p, x) + lists_after(p, y),
{
    assert(lists_after(p, x + y) =~= lists_after(p, x) + lists_after(p, y));
}

proof fn lemma_lists_after_prepend(p: Seq<i32>, v: i32, ls: Seq<Seq<i32>>)
    ensures lists_after(p, prepend_all(v, ls)) == lists_after(p.push(v), ls),
{
    assert forall|k: int| 0 <= k < ls.len() implies
        #[trigger] lists_after(p, prepend_all(v, ls))[k] == lists_after(p.push(v), ls)[k] by {
        assert(p + (seq![v] + ls[k]) =~= p.push(v) + ls[k]);
    }
    assert(lists_after(p, prepend_all(v, ls)) =~= lists_after(p.push(v), ls));
}

fn copy_ints(v: &Vec<i32>) -> (r: Vec<i32>)
    ensures r@ == v@,
{
    let mut r: Vec<i32> = Vec::new();
    let mut i: usize = 0;
    while i < v.len()
        invariant
            i <= v@.len(),
            r@ == v@.take(i as int),
        decreases v.len() - i,
    {
        r.push(v[i]);
        i += 1;
        assert(r@ =~= v@.take(i as int));
    }
    assert(v@.take(v@.len() as int) =~= v@);
    r
}

/// Appends to `out`, after `prefix`, every arrangement of `s` as `lex_perms` lists them.
fn gen_perms(s: &Vec<i32>, prefix: &Vec<i32>, out: &mut Vec<Vec<i32>>)
    ensures lists_view(final(out)@) == lists_view(old(out)@) + lists_after(prefix@, lex_perms(s@)),
    decreases s@.len(), s@.len() + 1,
{
    if s.len() == 0 {
        out.push(copy_ints(prefix));
        assert(lists_view(out@) =~= lists_view(old(out)@) + lists_after(prefix@, lex_perms(s@)));
        return;
    }
    gen_perms_from(s, 0, prefix, out);
}

/// Appends to `out`, after `prefix`, the arrangements of `s` that begin with one of `s[i..]`.
fn gen_perms_from(s: &Vec<i32>, i: usize, prefix: &Vec<i32>, out: &mut Vec<Vec<i32>>)
    requires i <= s@.len(),
    ensures lists_view(final(out)@) == lists_view(old(out)@) + lists_after(prefix@, perms_from(s@, i as nat)),
    decreases s@.len(), s@.len() - i,
{
    if i >= s.len() {
        assert(lists_view(out@) =~= lists_view(old(out)@) + lists_after(prefix@, perms_from(s@, i as nat)));
        return;
    }
    if i > 0 && s[i] == s[i - 1] {
        gen_perms_from(s, i + 1, prefix, out);
        return;
    }
    let mut rest = copy_ints(s);
    let v = rest.remove(i);
    let mut p2 = copy_ints(prefix);
    p2.push(v);
    let ghost o0 = lists_view(out@);
    gen_perms(&rest, &p2, out);
    let ghost o1 = lists_view(out@);
    gen_perms_from(s, i + 1, prefix, out);
    proof {
        lemma_lists_after_prepend(prefix@, v, lex_perms(rest@));
        lemma_lists_after_add(prefix@, prepend_all(v, lex_perms(rest@)), perms_from(s@, (i + 1) as nat));
        assert(lists_view(out@) =~= lists_view(old(out)@) + lists_after(prefix@, perms_from(s@, i as nat)));
    }
}

/// All distinct permutations of the values, in lexicographic order, starting from the sorted
/// values; none for an empty input. For `[1, 2, 2]`: `[1,2,2]`, `[2,1,2]`, `[2,2,1]`.
pub fn array_seq_permutations(nums: &[i32]) -> (r: Vec<Vec<i32>>)
    ensures
        nums@.len() == 0 ==> r@.len() == 0,
        nums@.len() > 0 ==> lists_view(r@) == lex_perms(sorted_seq(nums@)),
{
    let mut out: Vec<Vec<i32>> = Vec::new();
    if nums.len() == 0 {
        return out;
    }
    let sorted = sort_values(nums);
    let prefix: Vec<i32> = Vec::new();
    gen_perms(&sorted, &prefix, &mut out);
    proof {
        let ls = lex_perms(sorted@);
        assert forall|k: int| 0 <= k < ls.len() implies #[trigger] lists_after(Seq::empty(), ls)[k] == ls[k] by {
            assert(Seq::<i32>::empty() + ls[k] =~= ls[k]);
        }
        assert(lists_after(Seq::empty(), ls) =~= ls);
        assert(lists_view(Seq::<Vec<i32>>::empty()) =~= Seq::<Seq<i32>>::empty());
        assert(lists_view(out@) =~= ls);
    }
    out
}


// ---------------------------------------------------------------------------
// Continued fraction of a square root
// ---------------------------------------------------------------------------

/// `r` is the integer square root of `n`.
pub open spec fn is_isqrt(n: int, r: int) -> bool {
    0 <= r && r * r <= n < (r + 1) * (r + 1)
}

/// The integer square root.
fn isqrt(n: u64) -> (r: u64)
    ensures is_isqrt(n as int, r as int),
{
    let mut lo: u64 = 0;
    let mut hi: u64 = 0x1_0000_0000;
    assert(hi * hi > n) by (nonlinear_arith) requires hi == 0x1_0000_0000, n <= u64::MAX;
    while hi - lo > 1
        invariant
            lo < hi <= 0x1_0000_0000,
            lo * lo <= n,
            hi * hi > n,
        decreases hi - lo,
    {
        let mid = lo + (hi - lo) / 2;
        assert(mid * mid <= 0x1_0000_0000 * 0x1_0000_0000) by (nonlinear_arith)
            requires mid <= 0x1_0000_0000;
        if (mid as u128) * (mid as u128) <= n as u128 {
            lo = mid;
        } else {
            hi = mid;
        }
    }
    assert(hi == lo + 1);
    lo
}

/// The state of the continued fraction expansion of the square root of `n` (`r` its integer
/// square root) after its first term: (√n + a)/b is reduced, and q is the previous b, so that
/// b * q = n - a².
pub open spec fn cf_reduced(n: int, r: int, a: int, b: int, q: int) -> bool {
    &&& 1 <= b
    &&& 0 < a <= r
    &&& r - a < b <= r + a
    &&& b * q == n - a * a
}

proof fn lemma_cf_step(n: int, r: int, a: int, b: int, q: int)
    requires
        r * r < n < (r + 1) * (r + 1),
        cf_reduced(n, r, a, b, q),
    ensures ({
        let t = (r + a) / b;
        let a2 = b * t - a;
        let b2 = (n - a2 * a2) / b;
        &&& t >= 1
        &&& b * t <= r + a
        &&& cf_reduced(n, r, a2, b2, b)
    }),
{
    let t = (r + a) / b;
    let m = (r + a) % b;
    assert(r + a == b * t + m && 0 <= m < b) by (nonlinear_arith) requires b >= 1, t == (r + a) / b, m == (r + a) % b;
    assert(t >= 1) by (nonlinear_arith) requires r + a == b * t + m, 0 <= m < b, b <= r + a;
    let a2 = b * t - a;
    assert(a2 <= r);
    assert(a2 > r - b) by (nonlinear_arith) requires r + a == b * t + m, m < b, a2 == b * t - a;
    assert(a2 >= 1) by (nonlinear_arith)
        requires a2 > r - b, a2 == b * t - a, r + a == b * t + m, 0 <= m < b, a <= r, t >= 1, b >= 1;
    assert(b <= a2 + a) by (nonlinear_arith) requires a2 == b * t - a, t >= 1, b >= 1;
    let x = q - b * t * t + 2 * t * a;
    assert(n - a2 * a2 == b * x) by (nonlinear_arith)
        requires b * q == n - a * a, a2 == b * t - a, x == q - b * t * t + 2 * t * a;
    let b2 = (n - a2 * a2) / b;
    assert(b2 == x) by (nonlinear_arith) requires n - a2 * a2 == b * x, b >= 1, b2 == (n - a2 * a2) / b;
    assert(n - a2 * a2 >= 1) by (nonlinear_arith) requires 1 <= a2 <= r, r * r < n;
    assert(b2 >= 1) by (nonlinear_arith) requires b * b2 == n - a2 * a2, n - a2 * a2 >= 1, b >= 1;
    assert(r - a2 < b2) by (nonlinear_arith)
        requires b * b2 == n - a2 * a2, b <= a2 + a, a <= r, 1 <= a2 <= r, r * r < n, b >= 1, b2 >= 1;
    assert(b2 <= r + a2) by (nonlinear_arith)
        requires b * b2 == n - a2 * a2, b > r - a2, n < (r + 1) * (r + 1), 1 <= a2 <= r, b >= 1;
    assert(b2 * b == n - a2 * a2) by (nonlinear_arith) requires b * b2 == n - a2 * a2;
}

/// The terms of the expansion after the state (a, b) whose last term is t, until a term equals
/// `2r` (the end of the period) or `fuel` terms are out.
pub open spec fn cf_terms(n: int, r: int, a: int, b: int, t: int, fuel: nat) -> Seq<int>
    decreases fuel,
{
    if fuel == 0 {
        Seq::empty()
    } else {
        let a2 = b * t - a;
        let b2 = (n - a2 * a2) / b;
        let t2 = (r + a2) / b2;
        if t2 == 2 * r { seq![t2] } else { seq![t2] + cf_terms(n, r, a2, b2, t2, (fuel - 1) as nat) }
    }
}

/// The terms, separated by single spaces.
pub open spec fn spaced_terms(ts: Seq<int>) -> Seq<char>
    decreases ts.len(),
{
    if ts.len() == 0 {
        Seq::empty()
    } else if ts.len() == 1 {
        crate::text::decimal(ts[0] as nat)
    } else {
        spaced_terms(ts.drop_last()) + seq![' '] + crate::text::decimal(ts.last() as nat)
    }
}

/// The text of the continued fraction of the square root of `n`: its integer part, then the
/// repeating terms in parentheses. At most 2r² + 1 terms are taken; the period always closes
/// within them (`law_cf_sqrt_period_closes`).
pub open spec fn cf_sqrt_text(n: int, r: int) -> Seq<char> {
    if r * r == n {
        crate::text::decimal(r as nat) + seq![' ', '(', ')']
    } else {
        crate::text::decimal(r as nat) + seq![' ', '('] + spaced_terms(cf_terms(n, r, 0, 1, r, (2 * r * r + 1) as nat))
            + seq![')']
    }
}

/// The continued fraction of the square root of `n`, as "a0 (a1 a2 ... ak)" where the part in
/// parentheses repeats; `array_seq_cf_sqrt(7)` gives "2 (1 1 1 4)" and a perfect square such
/// as 9 gives "3 ()". The integer part is the integer square root of `n`.
pub fn array_seq_cf_sqrt(n: u64) -> (r: String)
    ensures
        exists|a0: int| is_isqrt(n as int, a0) && r@ == cf_sqrt_text(n as int, a0),
{
    let a0 = isqrt(n);
    let ghost r0 = a0 as int;
    let mut out = String::new();
    crate::text::push_decimal(&mut out, a0);
    if a0 * a0 == n {
        out.push(' ');
        out.push('(');
        out.push(')');
        assert(out@ =~= cf_sqrt_text(n as int, r0));
        return out;
    }
    out.push(' ');
    out.push('(');
    let ghost head = out@;
    assert(r0 * r0 < n) by (nonlinear_arith) requires r0 * r0 <= n, r0 * r0 != n;
    assert(n < (r0 + 1) * (r0 + 1));
    assert(r0 >= 1) by (nonlinear_arith) requires r0 * r0 < n < (r0 + 1) * (r0 + 1), r0 >= 0;
    proof {
        assert(r0 <= 0xFFFF_FFFF) by (nonlinear_arith) requires r0 * r0 < n, n <= u64::MAX, r0 >= 0;
        assert(2 * r0 * r0 + 1 <= 0x2_0000_0000_0000_0000) by (nonlinear_arith) requires 0 <= r0 <= 0xFFFF_FFFF;
    }
    let fuel0: u128 = 2 * (a0 as u128) * (a0 as u128) + 1;
    let mut fuel: u128 = fuel0;
    let mut big_a: u64 = 0;
    let mut big_b: u64 = 1;
    let mut t: u64 = a0;
    let ghost mut q: int = 1;
    let ghost mut done: Seq<int> = Seq::empty();
    while fuel > 0
        invariant_except_break
            done + cf_terms(n as int, r0, big_a as int, big_b as int, t as int, fuel as nat)
                == cf_terms(n as int, r0, 0, 1, r0, fuel0 as nat),
        invariant
            r0 == a0,
            1 <= r0 <= 0xFFFF_FFFF,
            r0 * r0 < n < (r0 + 1) * (r0 + 1),
            fuel <= fuel0,
            done.len() == fuel0 - fuel,
            (big_a == 0 && big_b == 1 && t == a0 && q == 1 && fuel == fuel0)
                || (cf_reduced(n as int, r0, big_a as int, big_b as int, q) && t as int == (r0 + big_a) / (big_b as int)),
            out@ == head + spaced_terms(done),
        ensures
            done == cf_terms(n as int, r0, 0, 1, r0, fuel0 as nat),
            out@ == head + spaced_terms(done),
        decreases fuel,
    {
        let ghost (pa, pb, pt) = (big_a as int, big_b as int, t as int);
        proof {
            if pa == 0 && pb == 1 {
                assert(pb * pt - pa == r0);
            } else {
                lemma_cf_step(n as int, r0, pa, pb, q);
            }
        }
        let na: u64 = big_b * t - big_a;
        let nb: u64 = (n - na * na) / big_b;
        proof {
            if pa == 0 && pb == 1 {
                assert(na == r0);
                assert(nb == n - r0 * r0);
                assert(cf_reduced(n as int, r0, na as int, nb as int, 1)) by (nonlinear_arith)
                    requires na == r0, nb == n - r0 * r0, r0 * r0 < n < (r0 + 1) * (r0 + 1), r0 >= 1;
            }
        }
        let nt: u64 = (a0 + na) / nb;
        let ghost terms_here = cf_terms(n as int, r0, pa, pb, pt, fuel as nat);
        proof {
            q = pb;
        }
        big_a = na;
        big_b = nb;
        t = nt;
        fuel = fuel - 1;
        if fuel + 1 < fuel0 {
            out.push(' ');
        }
        crate::text::push_decimal(&mut out, nt);
        proof {
            let d2 = done.push(nt as int);
            assert(d2.drop_last() =~= done);
            assert(out@ =~= head + spaced_terms(d2));
            done = d2;
        }
        if nt == 2 * a0 {
            proof {
                assert(terms_here == seq![nt as int]);
                assert(done =~= cf_terms(n as int, r0, 0, 1, r0, fuel0 as nat));
            }
            break;
        }
        proof {
            assert(terms_here == seq![nt as int] + cf_terms(n as int, r0, na as int, nb as int, nt as int, fuel as nat));
            assert(done + cf_terms(n as int, r0, na as int, nb as int, nt as int, fuel as nat)
                =~= cf_terms(n as int, r0, 0, 1, r0, fuel0 as nat));
        }
    }
    out.push(')');
    assert(out@ =~= cf_sqrt_text(n as int, r0));
    out
}


/// One step of the expansion of √n from the state (a, b): the next state.
pub open spec fn cf_next(n: int, r: int, a: int, b: int) -> (int, int) {
    let a2 = b * ((r + a) / b) - a;
    (a2, (n - a2 * a2) / b)
}

/// The state `i` steps after (a, b).
pub open spec fn cf_iter(n: int, r: int, a: int, b: int, i: nat) -> (int, int)
    decreases i,
{
    if i == 0 {
        (a, b)
    } else {
        let p = cf_iter(n, r, a, b, (i - 1) as nat);
        cf_next(n, r, p.0, p.1)
    }
}

/// (a, b) is a reduced state of the expansion of √n.
pub open spec fn cf_state(n: int, r: int, a: int, b: int) -> bool {
    cf_reduced(n, r, a, b, (n - a * a) / b)
}

proof fn lemma_cf_next_state(n: int, r: int, a: int, b: int)
    requires
        r * r < n < (r + 1) * (r + 1),
        cf_state(n, r, a, b),
    ensures
        cf_state(n, r, cf_next(n, r, a, b).0, cf_next(n, r, a, b).1),
        cf_next(n, r, a, b).1 * b == n - cf_next(n, r, a, b).0 * cf_next(n, r, a, b).0,
{
    lemma_cf_step(n, r, a, b, (n - a * a) / b);
    let a2 = cf_next(n, r, a, b).0;
    let b2 = cf_next(n, r, a, b).1;
    assert((n - a2 * a2) / b2 == b) by (nonlinear_arith)
        requires b2 * b == n - a2 * a2, b2 >= 1;
}

proof fn lemma_cf_iter_state(n: int, r: int, a: int, b: int, i: nat)
    requires
        r * r < n < (r + 1) * (r + 1),
        cf_state(n, r, a, b),
    ensures
        cf_state(n, r, cf_iter(n, r, a, b, i).0, cf_iter(n, r, a, b, i).1),
    decreases i,
{
    if i > 0 {
        lemma_cf_iter_state(n, r, a, b, (i - 1) as nat);
        let p = cf_iter(n, r, a, b, (i - 1) as nat);
        lemma_cf_next_state(n, r, p.0, p.1);
    }
}

proof fn lemma_cf_iter_shift(n: int, r: int, a: int, b: int, i: nat)
    ensures
        cf_iter(n, r, a, b, i + 1) == cf_iter(n, r, cf_next(n, r, a, b).0, cf_next(n, r, a, b).1, i),
    decreases i,
{
    reveal_with_fuel(cf_iter, 2);
    if i > 0 {
        lemma_cf_iter_shift(n, r, a, b, (i - 1) as nat);
    }
}

/// Two reduced states with the same successor are the same state.
proof fn lemma_cf_next_injective(n: int, r: int, a: int, b: int, c: int, d: int)
    requires
        r * r < n < (r + 1) * (r + 1),
        cf_state(n, r, a, b),
        cf_state(n, r, c, d),
        cf_next(n, r, a, b) == cf_next(n, r, c, d),
    ensures
        a == c,
        b == d,
{
    lemma_cf_next_state(n, r, a, b);
    lemma_cf_next_state(n, r, c, d);
    let a2 = cf_next(n, r, a, b).0;
    let b2 = cf_next(n, r, a, b).1;
    assert(b == d) by (nonlinear_arith)
        requires b2 * b == n - a2 * a2, b2 * d == n - a2 * a2, b2 >= 1;
    let t = (r + a) / b;
    let u = (r + c) / b;
    assert(a - c == b * (t - u)) by (nonlinear_arith)
        requires a2 == b * t - a, a2 == b * u - c;
    assert(t == u) by (nonlinear_arith)
        requires a - c == b * (t - u), r - b < a <= r, r - b < c <= r, b >= 1;
}

/// Equal states `i` and `j` steps after a reduced state mean that the state `j - i` steps
/// after it is the state itself.
proof fn lemma_cf_iter_cancel(n: int, r: int, a: int, b: int, i: nat, j: nat)
    requires
        r * r < n < (r + 1) * (r + 1),
        cf_state(n, r, a, b),
        i <= j,
        cf_iter(n, r, a, b, i) == cf_iter(n, r, a, b, j),
    ensures
        cf_iter(n, r, a, b, (j - i) as nat) == (a, b),
    decreases i,
{
    if i > 0 {
        let p = cf_iter(n, r, a, b, (i - 1) as nat);
        let q = cf_iter(n, r, a, b, (j - 1) as nat);
        lemma_cf_iter_state(n, r, a, b, (i - 1) as nat);
        lemma_cf_iter_state(n, r, a, b, (j - 1) as nat);
        lemma_cf_next_injective(n, r, p.0, p.1, q.0, q.1);
        lemma_cf_iter_cancel(n, r, a, b, (i - 1) as nat, (j - 1) as nat);
    }
}

/// A sequence longer than `m` of integers in `0..m` repeats a value.
proof fn lemma_repeat_in_range(ks: Seq<int>, m: int)
    requires
        0 <= m < ks.len(),
        forall|i: int| 0 <= i < ks.len() ==> 0 <= #[trigger] ks[i] < m,
    ensures
        exists|i: int, j: int| 0 <= i < j < ks.len() && ks[i] == ks[j],
{
    vstd::set_lib::lemma_int_range(0, m);
    assert(ks.to_set().subset_of(vstd::set_lib::set_int_range(0, m)));
    vstd::set_lib::lemma_len_subset(ks.to_set(), vstd::set_lib::set_int_range(0, m));
    if ks.no_duplicates() {
        ks.unique_seq_to_set();
    }
    let (i, j) = choose|i: int, j: int| 0 <= i < ks.len() && 0 <= j < ks.len() && i != j && ks[i] == ks[j];
    if i < j {
        assert(0 <= i < j < ks.len() && ks[i] == ks[j]);
    } else {
        assert(0 <= j < i < ks.len() && ks[j] == ks[i]);
    }
}

/// The position of a reduced state among the pairs (a, b) with 1 ≤ a ≤ r and 1 ≤ b ≤ 2r.
spec fn cf_index(r: int, p: (int, int)) -> int {
    (p.0 - 1) * (2 * r) + (p.1 - 1)
}

/// The state (r, 1) comes back after at most 2r² steps.
proof fn lemma_cf_orbit_returns(n: int, r: int) -> (m: nat)
    requires
        1 <= r,
        r * r < n < (r + 1) * (r + 1),
    ensures
        1 <= m <= 2 * r * r,
        cf_iter(n, r, r, 1, m) == (r, 1int),
{
    assert((n - r * r) / 1 == n - r * r);
    assert(cf_state(n, r, r, 1));
    let big_m = 2 * r * r;
    assert(big_m >= 0) by (nonlinear_arith) requires r >= 1, big_m == 2 * r * r;
    let ks = Seq::new((big_m + 1) as nat, |i: int| cf_index(r, cf_iter(n, r, r, 1, i as nat)));
    assert forall|i: int| 0 <= i < ks.len() implies 0 <= #[trigger] ks[i] < big_m by {
        lemma_cf_iter_state(n, r, r, 1, i as nat);
        let p = cf_iter(n, r, r, 1, i as nat);
        assert(0 <= cf_index(r, p) < big_m) by (nonlinear_arith)
            requires 1 <= p.0 <= r, 1 <= p.1 <= r + p.0, big_m == 2 * r * r,
                cf_index(r, p) == (p.0 - 1) * (2 * r) + (p.1 - 1);
    }
    lemma_repeat_in_range(ks, big_m);
    let (i, j) = choose|i: int, j: int| 0 <= i < j < ks.len() && ks[i] == ks[j];
    let p = cf_iter(n, r, r, 1, i as nat);
    let q = cf_iter(n, r, r, 1, j as nat);
    lemma_cf_iter_state(n, r, r, 1, i as nat);
    lemma_cf_iter_state(n, r, r, 1, j as nat);
    assert(ks[i] == cf_index(r, p) && ks[j] == cf_index(r, q));
    assert(p.0 == q.0 && p.1 == q.1) by (nonlinear_arith)
        requires
            (p.0 - 1) * (2 * r) + (p.1 - 1) == (q.0 - 1) * (2 * r) + (q.1 - 1),
            1 <= p.1 <= r + p.0, 1 <= q.1 <= r + q.0, p.0 <= r, q.0 <= r, r >= 1;
    lemma_cf_iter_cancel(n, r, r, 1, i as nat, j as nat);
    (j - i) as nat
}

/// The terms from a state whose successor is reduced end with 2r once the state `m` steps
/// on has denominator 1, for `m` within the fuel.
proof fn lemma_cf_terms_close(n: int, r: int, a: int, b: int, t: int, fuel: nat, m: nat)
    requires
        1 <= r,
        r * r < n < (r + 1) * (r + 1),
        b >= 1,
        t == (r + a) / b,
        cf_state(n, r, cf_next(n, r, a, b).0, cf_next(n, r, a, b).1),
        1 <= m <= fuel,
        cf_iter(n, r, a, b, m).1 == 1,
    ensures
        cf_terms(n, r, a, b, t, fuel).len() >= 1,
        cf_terms(n, r, a, b, t, fuel).last() == 2 * r,
    decreases m,
{
    let a2 = cf_next(n, r, a, b).0;
    let b2 = cf_next(n, r, a, b).1;
    let t2 = (r + a2) / b2;
    if t2 != 2 * r {
        if m == 1 {
            assert(cf_iter(n, r, a, b, 1) == cf_next(n, r, a, b)) by {
                reveal_with_fuel(cf_iter, 2);
            }
            assert(a2 == r);
            assert(t2 == 2 * r);
        }
        lemma_cf_iter_shift(n, r, a, b, (m - 1) as nat);
        lemma_cf_next_state(n, r, a2, b2);
        lemma_cf_terms_close(n, r, a2, b2, t2, (fuel - 1) as nat, (m - 1) as nat);
        let rest = cf_terms(n, r, a2, b2, t2, (fuel - 1) as nat);
        assert(cf_terms(n, r, a, b, t, fuel) == seq![t2] + rest);
        assert((seq![t2] + rest).last() == rest.last());
    }
}

/// No term before the last equals 2r.
proof fn lemma_cf_terms_first_close(n: int, r: int, a: int, b: int, t: int, fuel: nat)
    ensures
        forall|i: int| 0 <= i < cf_terms(n, r, a, b, t, fuel).len() - 1
            ==> #[trigger] cf_terms(n, r, a, b, t, fuel)[i] != 2 * r,
    decreases fuel,
{
    if fuel > 0 {
        let a2 = b * t - a;
        let b2 = (n - a2 * a2) / b;
        let t2 = (r + a2) / b2;
        if t2 != 2 * r {
            lemma_cf_terms_first_close(n, r, a2, b2, t2, (fuel - 1) as nat);
            let rest = cf_terms(n, r, a2, b2, t2, (fuel - 1) as nat);
            let all = cf_terms(n, r, a, b, t, fuel);
            assert(all == seq![t2] + rest);
            assert forall|i: int| 0 <= i < all.len() - 1 implies #[trigger] all[i] != 2 * r by {
                if i > 0 {
                    assert(all[i] == rest[i - 1]);
                }
            }
        }
    }
}

/// The repeating part that `array_seq_cf_sqrt` prints for a number `n` that is not a square
/// (integer part `r`) is one whole period of the expansion of √n: its terms run up to the
/// first term equal to 2r, and that term comes within the 2r² + 1 terms taken.
pub proof fn law_cf_sqrt_period_closes(n: nat, r: nat)
    requires
        is_isqrt(n as int, r as int),
        r * r != n,
    ensures ({
        let ts = cf_terms(n as int, r as int, 0, 1, r as int, (2 * r * r + 1) as nat);
        &&& ts.len() >= 1
        &&& ts.last() == 2 * r
        &&& forall|i: int| 0 <= i < ts.len() - 1 ==> #[trigger] ts[i] != 2 * r
    }),
{
    let n = n as int;
    let r = r as int;
    assert(r * r < n);
    assert(r >= 1) by (nonlinear_arith) requires r * r < n < (r + 1) * (r + 1), r >= 0;
    let m = lemma_cf_orbit_returns(n, r);
    assert(cf_next(n, r, 0, 1) == cf_next(n, r, r, 1)) by {
        assert((r + 0) / 1 == r);
        assert((r + r) / 1 == 2 * r);
    }
    assert((n - r * r) / (n - r * r) == 1) by (nonlinear_arith) requires n - r * r >= 1;
    assert(n - r * r <= 2 * r) by (nonlinear_arith) requires n < (r + 1) * (r + 1);
    assert(cf_next(n, r, 0, 1) == (r, n - r * r));
    assert(cf_state(n, r, r, n - r * r));
    lemma_cf_iter_shift(n, r, 0, 1, (m - 1) as nat);
    lemma_cf_iter_shift(n, r, r, 1, (m - 1) as nat);
    assert(cf_iter(n, r, 0, 1, m) == cf_iter(n, r, r, 1, m));
    assert(m <= 2 * r * r + 1);
    lemma_cf_terms_close(n, r, 0, 1, r, (2 * r * r + 1) as nat, m);
    lemma_cf_terms_first_close(n, r, 0, 1, r, (2 * r * r + 1) as nat);
}

/// The multiset of the values of a list of groups, taken in order.
pub open spec fn group_values(gs: Seq<Seq<u8>>) -> Multiset<u8> {
    gs.flatten().to_multiset()
}

proof fn lemma_group_values_first(gs: Seq<Seq<u8>>)
    requires gs.len() > 0,
    ensures group_values(gs) == gs[0].to_multiset().add(group_values(gs.drop_first())),
{
    vstd::seq_lib::lemma_multiset_commutative(gs[0], gs.drop_first().flatten());
}

proof fn lemma_group_values_concat(x: Seq<Seq<u8>>, y: Seq<Seq<u8>>)
    ensures group_values(x + y) == group_values(x).add(group_values(y)),
{
    vstd::seq_lib::lemma_flatten_concat(x, y);
    vstd::seq_lib::lemma_multiset_commutative(x.flatten(), y.flatten());
}

proof fn lemma_merge_values(f: Seq<Seq<u8>>, b: Seq<Seq<u8>>)
    ensures
        group_values(merge_groups(f, b)).add(group_values(rest_groups(f, b)))
            == group_values(f).add(group_values(b)),
    decreases f.len(),
{
    broadcast use vstd::multiset::group_multiset_axioms;
    broadcast use vstd::seq_lib::group_to_multiset_ensures;
    if f.len() == 0 {
        assert(merge_groups(f, b) =~= Seq::<Seq<u8>>::empty());
        assert(rest_groups(f, b) =~= b);
        assert(group_values(Seq::<Seq<u8>>::empty()) =~= Multiset::empty());
        assert(group_values(f) =~= Multiset::empty());
        assert(group_values(merge_groups(f, b)).add(group_values(rest_groups(f, b))) =~= group_values(f).add(group_values(b)));
    } else if b.len() == 0 {
        assert(merge_groups(f, b) =~= Seq::<Seq<u8>>::empty());
        assert(rest_groups(f, b) =~= f);
        assert(group_values(Seq::<Seq<u8>>::empty()) =~= Multiset::empty());
        assert(group_values(b) =~= Multiset::empty());
        assert(group_values(merge_groups(f, b)).add(group_values(rest_groups(f, b))) =~= group_values(f).add(group_values(b)));
    } else {
        let m = merge_groups(f, b);
        let f1 = f.drop_first();
        let b1 = b.drop_first();
        lemma_merge_values(f1, b1);
        assert(m.drop_first() =~= merge_groups(f1, b1));
        assert(m[0] == f[0] + b[0]);
        assert(rest_groups(f, b) =~= rest_groups(f1, b1));
        lemma_group_values_first(m);
        lemma_group_values_first(f);
        lemma_group_values_first(b);
        vstd::seq_lib::lemma_multiset_commutative(f[0], b[0]);
        let ih_l = group_values(merge_groups(f1, b1)).add(group_values(rest_groups(f1, b1)));
        let ih_r = group_values(f1).add(group_values(b1));
        assert(ih_l == ih_r);
        let lhs = group_values(m).add(group_values(rest_groups(f, b)));
        let rhs = group_values(f).add(group_values(b));
        assert(group_values(m) == (f[0] + b[0]).to_multiset().add(group_values(merge_groups(f1, b1))));
        assert forall|x: u8| lhs.count(x) == rhs.count(x) by {
            assert(ih_l.count(x) == ih_r.count(x));
        }
        assert(lhs =~= rhs);
    }
}

proof fn lemma_bjorklund_values(f: Seq<Seq<u8>>, b: Seq<Seq<u8>>)
    ensures group_values(bjorklund(f, b)) == group_values(f).add(group_values(b)),
    decreases f.len() + b.len(),
{
    broadcast use vstd::multiset::group_multiset_axioms;
    if b.len() <= 1 || f.len() == 0 {
        lemma_group_values_concat(f, b);
    } else {
        lemma_merge_values(f, b);
        lemma_bjorklund_values(merge_groups(f, b), rest_groups(f, b));
    }
}

/// `n` groups of the single value `v`.
pub open spec fn singles(n: nat, v: u8) -> Seq<Seq<u8>> {
    Seq::new(n, |i: int| seq![v])
}

proof fn lemma_singleton_values(n: nat, v: u8)
    ensures
        group_values(singles(n, v)).count(v) == n,
        group_values(singles(n, v)).len() == n,
        forall|w: u8| w != v ==> #[trigger] group_values(singles(n, v)).count(w) == 0,
    decreases n,
{
    broadcast use vstd::multiset::group_multiset_axioms;
    broadcast use vstd::seq_lib::group_to_multiset_ensures;
    let gs = singles(n, v);
    if n == 0 {
        assert(gs.flatten() =~= Seq::<u8>::empty());
        assert(group_values(gs) =~= Multiset::empty());
    } else {
        let rest = singles((n - 1) as nat, v);
        lemma_singleton_values((n - 1) as nat, v);
        assert(gs.drop_first() =~= rest);
        lemma_group_values_first(gs);
        assert(seq![v].to_multiset() =~= Multiset::empty().insert(v)) by {
            vstd::seq_lib::to_multiset_build(Seq::<u8>::empty(), v);
            assert(Seq::<u8>::empty().push(v) =~= seq![v]);
            assert(Seq::<u8>::empty().to_multiset() =~= Multiset::empty());
        }
    }
}

/// A Euclidean rhythm of `pulses` onsets over `steps` steps has exactly `steps` steps, of
/// which `pulses` are onsets (1) and the rest rests (0).
pub proof fn law_euclidean_counts(pulses: nat, steps: nat)
    requires pulses <= steps,
    ensures
        euclidean_rhythm(pulses, steps).len() == steps,
        euclidean_rhythm(pulses, steps).to_multiset().count(1u8) == pulses,
        euclidean_rhythm(pulses, steps).to_multiset().count(0u8) == steps - pulses,
{
    broadcast use vstd::multiset::group_multiset_axioms;
    let ones = singles(pulses, 1u8);
    let zeros = singles((steps - pulses) as nat, 0u8);
    assert(euclidean_rhythm(pulses, steps) == bjorklund(ones, zeros).flatten());
    lemma_bjorklund_values(ones, zeros);
    lemma_singleton_values(pulses, 1u8);
    lemma_singleton_values((steps - pulses) as nat, 0u8);
    let r = euclidean_rhythm(pulses, steps);
    assert(r.to_multiset() == group_values(ones).add(group_values(zeros)));
    vstd::seq_lib::to_multiset_len(r);
}


proof fn lemma_lex_perms_arrange(s: Seq<i32>)
    ensures forall|k: int| 0 <= k < lex_perms(s).len() ==> (#[trigger] lex_perms(s)[k]).to_multiset() == s.to_multiset(),
    decreases s.len(), s.len() + 1,
{
    if s.len() > 0 {
        lemma_perms_from_arrange(s, 0);
        assert(lex_perms(s) == perms_from(s, 0));
    } else {
        assert(lex_perms(s) == seq![Seq::<i32>::empty()]);
        assert(s =~= Seq::<i32>::empty());
        assert forall|k: int| 0 <= k < lex_perms(s).len() implies
            (#[trigger] lex_perms(s)[k]).to_multiset() == s.to_multiset() by {
            assert(lex_perms(s)[k] =~= s);
        }
    }
}

proof fn lemma_perms_from_arrange(s: Seq<i32>, i: nat)
    ensures forall|k: int| 0 <= k < perms_from(s, i).len() ==> (#[trigger] perms_from(s, i)[k]).to_multiset() == s.to_multiset(),
    decreases s.len(), s.len() - i,
{
    broadcast use vstd::multiset::group_multiset_axioms;
    broadcast use vstd::seq_lib::group_to_multiset_ensures;
    if i >= s.len() {
    } else if i > 0 && s[i as int] == s[i - 1] {
        lemma_perms_from_arrange(s, i + 1);
    } else {
        let v = s[i as int];
        let rest = s.remove(i as int);
        lemma_lex_perms_arrange(rest);
        lemma_perms_from_arrange(s, i + 1);
        let head = prepend_all(v, lex_perms(rest));
        let all = head + perms_from(s, i + 1);
        assert forall|k: int| 0 <= k < all.len() implies (#[trigger] all[k]).to_multiset() == s.to_multiset() by {
            if k < head.len() {
                let t = lex_perms(rest)[k];
                assert(all[k] == seq![v] + t);
                vstd::seq_lib::lemma_multiset_commutative(seq![v], t);
                vstd::seq_lib::to_multiset_remove(s, i as int);
                assert(seq![v].to_multiset() =~= Multiset::empty().insert(v)) by {
                    assert(Seq::<i32>::empty().push(v) =~= seq![v]);
                }
                assert(s.to_multiset().count(v) > 0) by {
                    assert(s.contains(v));
                }
                assert((seq![v] + t).to_multiset() =~= s.to_multiset());
            } else {
                assert(all[k] == perms_from(s, i + 1)[k - head.len()]);
            }
        }
    }
}

proof fn lemma_insert_sorted_values(s: Seq<i32>, x: i32)
    ensures insert_sorted(s, x).to_multiset() == s.to_multiset().insert(x),
    decreases s.len(),
{
    broadcast use vstd::multiset::group_multiset_axioms;
    broadcast use vstd::seq_lib::group_to_multiset_ensures;
    if s.len() == 0 {
        assert(seq![x] =~= Seq::<i32>::empty().push(x));
    } else if x < s[0] {
        vstd::seq_lib::lemma_multiset_commutative(seq![x], s);
        assert(seq![x] =~= Seq::<i32>::empty().push(x));
        assert(insert_sorted(s, x).to_multiset() =~= s.to_multiset().insert(x));
    } else {
        lemma_insert_sorted_values(s.drop_first(), x);
        vstd::seq_lib::lemma_multiset_commutative(seq![s[0]], insert_sorted(s.drop_first(), x));
        vstd::seq_lib::lemma_multiset_commutative(seq![s[0]], s.drop_first());
        assert(seq![s[0]] + s.drop_first() =~= s);
        assert(seq![s[0]] =~= Seq::<i32>::empty().push(s[0]));
        assert(insert_sorted(s, x).to_multiset() =~= s.to_multiset().insert(x));
    }
}

proof fn lemma_sorted_values(s: Seq<i32>)
    ensures sorted_seq(s).to_multiset() == s.to_multiset(),
    decreases s.len(),
{
    broadcast use vstd::multiset::group_multiset_axioms;
    broadcast use vstd::seq_lib::group_to_multiset_ensures;
    if s.len() == 0 {
        assert(sorted_seq(s) =~= s);
    } else {
        lemma_sorted_values(s.drop_last());
        lemma_insert_sorted_values(sorted_seq(s.drop_last()), s.last());
        assert(s.drop_last().push(s.last()) =~= s);
    }
}

/// Every permutation listed is an arrangement of exactly the input values.
pub proof fn law_permutations_rearrange(nums: Seq<i32>)
    ensures
        forall|k: int| 0 <= k < lex_perms(sorted_seq(nums)).len()
            ==> (#[trigger] lex_perms(sorted_seq(nums))[k]).to_multiset() == nums.to_multiset(),
{
    lemma_lex_perms_arrange(sorted_seq(nums));
    lemma_sorted_values(nums);
}

/// Whether the values never go down.
pub open spec fn nondecreasing(s: Seq<i32>) -> bool {
    forall|a: int, b: int| 0 <= a <= b < s.len() ==> s[a] <= s[b]
}

proof fn lemma_insert_sorted_ordered(s: Seq<i32>, x: i32)
    requires nondecreasing(s),
    ensures
        nondecreasing(insert_sorted(s, x)),
        insert_sorted(s, x).len() == s.len() + 1,
        insert_sorted(s, x)[0] == (if s.len() == 0 || x < s[0] { x } else { s[0] }),
    decreases s.len(),
{
    if s.len() > 0 && x >= s[0] {
        let t = s.drop_first();
        assert forall|a: int, b: int| 0 <= a <= b < t.len() implies t[a] <= t[b] by {
            assert(t[a] == s[a + 1] && t[b] == s[b + 1]);
        }
        lemma_insert_sorted_ordered(t, x);
        let r = insert_sorted(t, x);
        if t.len() > 0 { assert(t[0] == s[1]); }
        let out = seq![s[0]] + r;
        assert forall|a: int, b: int| 0 <= a <= b < out.len() implies out[a] <= out[b] by {
            if a == 0 {
                if b > 0 { assert(out[b] == r[b - 1]); assert(r[0] <= r[b - 1]); }
            } else {
                assert(out[a] == r[a - 1] && out[b] == r[b - 1]);
            }
        }
    } else if s.len() > 0 {
        let out = seq![x] + s;
        assert forall|a: int, b: int| 0 <= a <= b < out.len() implies out[a] <= out[b] by {
            if a == 0 {
                if b > 0 { assert(out[b] == s[b - 1]); assert(s[0] <= s[b - 1]); }
            } else {
                assert(out[a] == s[a - 1] && out[b] == s[b - 1]);
            }
        }
    }
}

proof fn lemma_sorted_seq_ordered(s: Seq<i32>)
    ensures nondecreasing(sorted_seq(s)),
    decreases s.len(),
{
    if s.len() > 0 {
        lemma_sorted_seq_ordered(s.drop_last());
        lemma_insert_sorted_ordered(sorted_seq(s.drop_last()), s.last());
    }
}

/// `a` comes before `b` in lexicographic order: at the first place where they differ, `a`
/// holds the smaller value.
pub open spec fn lex_before(a: Seq<i32>, b: Seq<i32>) -> bool {
    exists|i: int| 0 <= i < a.len() && i < b.len() && a.take(i) == b.take(i) && a[i] < b[i]
}

/// Whether every list comes before each later one.
pub open spec fn strictly_increasing(ls: Seq<Seq<i32>>) -> bool {
    forall|a: int, b: int| 0 <= a < b < ls.len() ==> lex_before(ls[a], ls[b])
}

proof fn lemma_remove_ordered(s: Seq<i32>, i: int)
    requires nondecreasing(s), 0 <= i < s.len(),
    ensures nondecreasing(s.remove(i)),
{
    let r = s.remove(i);
    assert forall|a: int, b: int| 0 <= a <= b < r.len() implies r[a] <= r[b] by {
        let a2 = if a < i { a } else { a + 1 };
        let b2 = if b < i { b } else { b + 1 };
        assert(r[a] == s[a2] && r[b] == s[b2]);
    }
}

proof fn lemma_prepend_increasing(v: i32, ls: Seq<Seq<i32>>)
    requires strictly_increasing(ls),
    ensures strictly_increasing(prepend_all(v, ls)),
{
    let p = prepend_all(v, ls);
    assert forall|a: int, b: int| 0 <= a < b < p.len() implies lex_before(p[a], p[b]) by {
        assert(lex_before(ls[a], ls[b]));
        let i = choose|i: int| 0 <= i < ls[a].len() && i < ls[b].len() && ls[a].take(i) == ls[b].take(i) && ls[a][i] < ls[b][i];
        assert(p[a] == seq![v] + ls[a] && p[b] == seq![v] + ls[b]);
        assert(p[a].take(i + 1) =~= seq![v] + ls[a].take(i));
        assert(p[b].take(i + 1) =~= seq![v] + ls[b].take(i));
        assert(p[a][i + 1] == ls[a][i] && p[b][i + 1] == ls[b][i]);
    }
}

proof fn lemma_perms_first(s: Seq<i32>, i: nat)
    requires nondecreasing(s),
    ensures
        forall|k: int| 0 <= k < perms_from(s, i).len() ==> {
            let p = #[trigger] perms_from(s, i)[k];
            &&& p.len() >= 1
            &&& i < s.len() ==> p[0] >= s[i as int]
            &&& (0 < i < s.len() ==> p[0] > s[i - 1])
        },
    decreases s.len() - i,
{
    if i < s.len() {
        lemma_perms_first(s, i + 1);
        let rest = perms_from(s, i + 1);
        assert forall|k: int| 0 <= k < rest.len() implies {
            let p = #[trigger] rest[k];
            &&& p.len() >= 1
            &&& p[0] >= s[i as int]
            &&& (0 < i ==> p[0] > s[i - 1])
        } by {
            if i + 1 < s.len() {
                assert(s[i as int] <= s[i + 1 as int]);
            }
        }
        if !(i > 0 && s[i as int] == s[i - 1]) {
            let a = prepend_all(s[i as int], lex_perms(s.remove(i as int)));
            let all = perms_from(s, i);
            assert(all == a + rest);
            assert forall|k: int| 0 <= k < all.len() implies {
                let p = #[trigger] all[k];
                &&& p.len() >= 1
                &&& p[0] >= s[i as int]
                &&& (0 < i ==> p[0] > s[i - 1])
            } by {
                if k < a.len() {
                    assert(all[k] == a[k]);
                    assert(a[k] == seq![s[i as int]] + lex_perms(s.remove(i as int))[k]);
                    if i > 0 { assert(s[i - 1] <= s[i as int]); }
                } else {
                    assert(all[k] == rest[k - a.len()]);
                }
            }
        }
    }
}

proof fn lemma_lex_perms_increasing(s: Seq<i32>)
    requires nondecreasing(s),
    ensures strictly_increasing(lex_perms(s)),
    decreases s.len(), s.len() + 1,
{
    if s.len() > 0 {
        lemma_perms_from_increasing(s, 0);
    }
}

proof fn lemma_perms_from_increasing(s: Seq<i32>, i: nat)
    requires nondecreasing(s),
    ensures strictly_increasing(perms_from(s, i)),
    decreases s.len(), s.len() - i,
{
    if i < s.len() {
        lemma_perms_from_increasing(s, i + 1);
        if !(i > 0 && s[i as int] == s[i - 1]) {
            lemma_remove_ordered(s, i as int);
            lemma_lex_perms_increasing(s.remove(i as int));
            let v = s[i as int];
            let a = prepend_all(v, lex_perms(s.remove(i as int)));
            lemma_prepend_increasing(v, lex_perms(s.remove(i as int)));
            let rest = perms_from(s, i + 1);
            lemma_perms_first(s, i + 1);
            let all = perms_from(s, i);
            assert(all == a + rest);
            assert forall|x: int, y: int| 0 <= x < y < all.len() implies lex_before(all[x], all[y]) by {
                if y < a.len() {
                    assert(all[x] == a[x] && all[y] == a[y]);
                } else if x >= a.len() {
                    assert(all[x] == rest[x - a.len()] && all[y] == rest[y - a.len()]);
                } else {
                    assert(all[x] == a[x] && all[y] == rest[y - a.len()]);
                    assert(a[x] == seq![v] + lex_perms(s.remove(i as int))[x]);
                    let q = rest[y - a.len()];
                    assert(q.len() >= 1 && q[0] > v);
                    assert(all[x].take(0) =~= all[y].take(0));
                    assert(all[x][0] == v);
                }
            }
        }
    }
}

/// The permutations come in strictly increasing lexicographic order, so none is listed twice.
pub proof fn law_permutations_strictly_increasing(nums: Seq<i32>)
    ensures strictly_increasing(lex_perms(sorted_seq(nums))),
{
    lemma_sorted_seq_ordered(nums);
    lemma_lex_perms_increasing(sorted_seq(nums));
}

proof fn lemma_first_index(s: Seq<i32>, v: i32) -> (i: int)
    requires s.contains(v),
    ensures
        0 <= i < s.len(),
        s[i] == v,
        forall|j: int| 0 <= j < i ==> s[j] != v,
    decreases s.len(),
{
    if s[0] == v {
        0
    } else {
        let t = s.drop_first();
        let k = choose|k: int| 0 <= k < s.len() && s[k] == v;
        assert(t[k - 1] == v);
        let j = lemma_first_index(t, v);
        assert forall|m: int| 0 <= m < j + 1 implies s[m] != v by {
            if m > 0 { assert(s[m] == t[m - 1]); }
        }
        j + 1
    }
}

proof fn lemma_seq_add_contains(a: Seq<Seq<i32>>, b: Seq<Seq<i32>>, p: Seq<i32>)
    ensures
        a.contains(p) ==> (a + b).contains(p),
        b.contains(p) ==> (a + b).contains(p),
{
    if a.contains(p) {
        let k = choose|k: int| 0 <= k < a.len() && a[k] == p;
        assert((a + b)[k] == p);
    }
    if b.contains(p) {
        let k = choose|k: int| 0 <= k < b.len() && b[k] == p;
        assert((a + b)[a.len() + k] == p);
    }
}

proof fn lemma_perms_from_contains(s: Seq<i32>, i: nat, j: nat, p: Seq<i32>)
    requires
        j <= i < s.len(),
        i == 0 || s[i as int] != s[i - 1],
        prepend_all(s[i as int], lex_perms(s.remove(i as int))).contains(p),
    ensures
        perms_from(s, j).contains(p),
    decreases i - j,
{
    if j == i {
        lemma_seq_add_contains(prepend_all(s[i as int], lex_perms(s.remove(i as int))), perms_from(s, i + 1), p);
    } else {
        lemma_perms_from_contains(s, i, j + 1, p);
        if !(j > 0 && s[j as int] == s[j - 1]) {
            lemma_seq_add_contains(prepend_all(s[j as int], lex_perms(s.remove(j as int))), perms_from(s, j + 1), p);
        }
    }
}

proof fn lemma_all_perms_listed(s: Seq<i32>, p: Seq<i32>)
    requires
        nondecreasing(s),
        p.to_multiset() == s.to_multiset(),
    ensures
        lex_perms(s).contains(p),
    decreases s.len(),
{
    broadcast use vstd::seq_lib::group_to_multiset_ensures;
    broadcast use vstd::multiset::group_multiset_axioms;
    vstd::seq_lib::to_multiset_len(p);
    vstd::seq_lib::to_multiset_len(s);
    if s.len() == 0 {
        assert(p.len() == 0);
        assert(p =~= Seq::<i32>::empty());
        assert(lex_perms(s)[0] == p);
    } else {
        assert(p.len() == s.len());
        let v = p[0];
        assert(p.contains(v));
        assert(p.to_multiset().count(v) > 0);
        assert(s.contains(v));
        let i = lemma_first_index(s, v);
        let rest = s.remove(i);
        lemma_remove_ordered(s, i);
        let q = p.drop_first();
        assert(p.remove(0) =~= q);
        assert(q.to_multiset() == p.to_multiset().remove(v));
        assert(rest.to_multiset() == s.to_multiset().remove(v));
        lemma_all_perms_listed(rest, q);
        let k = choose|k: int| 0 <= k < lex_perms(rest).len() && lex_perms(rest)[k] == q;
        assert(prepend_all(v, lex_perms(rest))[k] =~= p);
        if i > 0 {
            assert(s[i - 1] != v);
        }
        lemma_perms_from_contains(s, i as nat, 0, p);
    }
}

/// Every arrangement of the input values is listed, and (the permutations being in strictly
/// increasing order) exactly once.
pub proof fn law_every_arrangement_listed(nums: Seq<i32>, p: Seq<i32>)
    requires
        p.to_multiset() == nums.to_multiset(),
    ensures
        lex_perms(sorted_seq(nums)).contains(p),
{
    lemma_sorted_seq_ordered(nums);
    lemma_sorted_values(nums);
    lemma_all_perms_listed(sorted_seq(nums), p);
}

} // verus!
