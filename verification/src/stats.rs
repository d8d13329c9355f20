//! Statistics over a history of lap times: median, average without the
//! slowest lap, and the median of the most recent laps.
use vstd::prelude::*;
use vstd::relations::{sorted_by, total_ordering};
use crate::laptime::{lap_millis, lap_fits, lap_text, lap_millis_checked, milliseconds_to_lap_time};
use crate::text::{texts, opt_text, chars_of};

verus! {

broadcast use vstd::seq_lib::group_to_multiset_ensures;

/// Lap times in milliseconds are ordered as numbers.
pub open spec fn lap_order() -> spec_fn(u64, u64) -> bool {
    |a: u64, b: u64| a <= b
}

/// Lap times sorted from fastest to slowest.
pub open spec fn sorted_laps(s: Seq<u64>) -> Seq<u64> {
    s.sort_by(lap_order())
}

proof fn lemma_lap_order_total()
    ensures
        total_ordering(lap_order()),
{
}

/// Two sorted sequences with the same elements are the same sequence.
proof fn lemma_sorted_unique(a: Seq<u64>, b: Seq<u64>)
    requires
        sorted_by(a, lap_order()),
        sorted_by(b, lap_order()),
        a.to_multiset() == b.to_multiset(),
    ensures
        a == b,
    decreases a.len(),
{
    assert(a.len() == a.to_multiset().len() && b.len() == b.to_multiset().len());
    if a.len() == 0 {
        assert(a =~= b);
    } else {
        let x = a.last();
        let y = b.last();
        assert(a =~= a.drop_last().push(x));
        assert(b =~= b.drop_last().push(y));
        assert(a.to_multiset().contains(x));
        assert(b.to_multiset().contains(y));
        assert(b.contains(x));
        assert(a.contains(y));
        let i = choose|i: int| 0 <= i < b.len() && b[i] == x;
        let j = choose|j: int| 0 <= j < a.len() && a[j] == y;
        if i < b.len() - 1 {
            assert(lap_order()(b[i], b[b.len() - 1]));
        }
        if j < a.len() - 1 {
            assert(lap_order()(a[j], a[a.len() - 1]));
        }
        assert(x == y);
        assert(a.drop_last().to_multiset() =~= b.drop_last().to_multiset()) by {
            assert(a.drop_last().to_multiset().insert(x) == a.to_multiset());
            assert(b.drop_last().to_multiset().insert(x) == b.to_multiset());
            assert(a.drop_last().to_multiset() =~= a.to_multiset().remove(x));
            assert(b.drop_last().to_multiset() =~= b.to_multiset().remove(x));
        }
        lemma_sorted_unique(a.drop_last(), b.drop_last());
    }
}

/// Sorts lap times from fastest to slowest.
pub fn sort_laps(v: &Vec<u64>) -> (r: Vec<u64>)
    ensures
        r@ == sorted_laps(v@),
{
    let mut r: Vec<u64> = Vec::new();
    let mut i: usize = 0;
    while i < v.len()
        invariant
            i <= v.len(),
            sorted_by(r@, lap_order()),
            r@.to_multiset() == v@.take(i as int).to_multiset(),
        decreases v.len() - i,
    {
        let x = v[i];
        let mut k: usize = 0;
        while k < r.len() && r[k] <= x
            invariant
                k <= r.len(),
                forall|j: int| 0 <= j < k ==> r@[j] <= x,
            decreases r.len() - k,
        {
            k += 1;
        }
        let ghost old_r = r@;
        r.insert(k, x);
        assert(sorted_by(r@, lap_order())) by {
            assert forall|p: int, q: int| 0 <= p < q < r@.len() implies #[trigger] lap_order()(
                r@[p],
                r@[q],
            ) by {
                if q < k {
                    assert(lap_order()(old_r[p], old_r[q]));
                } else if q == k {
                } else if p < k {
                    assert(old_r[q - 1] > x) by {
                        assert(lap_order()(old_r[k as int], old_r[q - 1]) || q - 1 == k);
                    }
                } else if p == k {
                    assert(lap_order()(old_r[k as int], old_r[q - 1]) || q - 1 == k);
                } else {
                    assert(lap_order()(old_r[p - 1], old_r[q - 1]));
                }
            }
        }
        assert(v@.take(i + 1) =~= v@.take(i as int).push(x));
        i += 1;
    }
    proof {
        assert(v@.take(v.len() as int) =~= v@);
        lemma_lap_order_total();
        v@.lemma_sort_by_ensures(lap_order());
        lemma_sorted_unique(r@, sorted_laps(v@));
    }
    r
}

/// The laps that one history entry contributes: its milliseconds if it
/// reads as a lap time, else none.
pub open spec fn lap_part(t: Seq<char>) -> Seq<u64> {
    match lap_millis(t) {
        Some(v) => seq![v as u64],
        None => seq![],
    }
}

/// The lap times of a history, in history order.
pub open spec fn lap_values(h: Seq<Seq<char>>) -> Seq<u64>
    decreases h.len(),
{
    if h.len() == 0 {
        seq![]
    } else {
        lap_values(h.drop_last()) + lap_part(h.last())
    }
}

/// The lap times among the last `n` history entries, newest first.
pub open spec fn recent_values(h: Seq<Seq<char>>, n: nat) -> Seq<u64>
    decreases n,
{
    if h.len() == 0 || n == 0 {
        seq![]
    } else {
        lap_part(h.last()) + recent_values(h.drop_last(), (n - 1) as nat)
    }
}

/// Every entry of the history reads without overflow.
pub open spec fn laps_fit(h: Seq<Seq<char>>) -> bool {
    forall|k: int| 0 <= k < h.len() ==> lap_fits(#[trigger] h[k])
}

pub open spec fn seq_sum(s: Seq<u64>) -> int
    decreases s.len(),
{
    if s.len() == 0 {
        0
    } else {
        seq_sum(s.drop_last()) + s.last()
    }
}

/// The two middle laps of an even count add up within a `u64`.
pub open spec fn middle_fits(s: Seq<u64>) -> bool {
    s.len() % 2 == 1 || s[s.len() / 2 - 1] + s[(s.len() / 2) as int] <= u64::MAX
}

/// The median of sorted laps; for an even count, the mean of the two middle
/// laps, rounded down.
pub open spec fn median_value(s: Seq<u64>) -> int {
    let mid = (s.len() / 2) as int;
    if s.len() % 2 == 0 {
        (s[mid - 1] + s[mid]) / 2
    } else {
        s[mid] as int
    }
}

/// Sorted laps without the slowest one, unless there is only one lap.
pub open spec fn without_slowest(s: Seq<u64>) -> Seq<u64> {
    if s.len() > 1 {
        s.drop_last()
    } else {
        s
    }
}

/// The number of most recent history entries that the recent median looks at.
pub open spec fn recent_window() -> nat {
    10
}

/// The statistics are computed without overflowing a `u64`.
pub open spec fn statistics_defined(h: Seq<Seq<char>>) -> bool {
    &&& laps_fit(h)
    &&& {
        let s = sorted_laps(lap_values(h));
        let r = sorted_laps(recent_values(h, recent_window()));
        s.len() == 0 || (middle_fits(s) && seq_sum(without_slowest(s)) <= u64::MAX && (r.len()
            == 0 || middle_fits(r)))
    }
}

/// Median, average without the slowest lap, and median of the recent laps,
/// each as lap time text; all three absent when no entry reads as a lap
/// time, the last one absent when none of the recent entries does.
pub open spec fn lap_statistics(h: Seq<Seq<char>>) -> (
    Option<Seq<char>>,
    Option<Seq<char>>,
    Option<Seq<char>>,
) {
    let s = sorted_laps(lap_values(h));
    let r = sorted_laps(recent_values(h, recent_window()));
    if s.len() == 0 {
        (None, None, None)
    } else {
        let k = without_slowest(s);
        (
            Some(lap_text(median_value(s) as nat)),
            Some(lap_text((seq_sum(k) / k.len() as int) as nat)),
            if r.len() == 0 {
                None
            } else {
                Some(lap_text(median_value(r) as nat))
            },
        )
    }
}

pub open spec fn stats_text(t: (Option<String>, Option<String>, Option<String>)) -> (
    Option<Seq<char>>,
    Option<Seq<char>>,
    Option<Seq<char>>,
) {
    (opt_text(t.0), opt_text(t.1), opt_text(t.2))
}

proof fn lemma_sum_prefix_le(s: Seq<u64>, k: int)
    requires
        0 <= k <= s.len(),
    ensures
        0 <= seq_sum(s.take(k)) <= seq_sum(s),
    decreases s.len() - k,
{
    if k == s.len() {
        assert(s.take(k) =~= s);
        lemma_sum_nonneg(s);
    } else {
        lemma_sum_prefix_le(s, k + 1);
        assert(s.take(k + 1).drop_last() =~= s.take(k));
        lemma_sum_nonneg(s.take(k));
    }
}

proof fn lemma_sum_nonneg(s: Seq<u64>)
    ensures
        seq_sum(s) >= 0,
    decreases s.len(),
{
    if s.len() > 0 {
        lemma_sum_nonneg(s.drop_last());
    }
}

/// The median of sorted laps, `None` where the two middle laps overflow.
fn median_checked(s: &Vec<u64>) -> (r: Option<u64>)
    requires
        s.len() > 0,
    ensures
        r is Some <==> middle_fits(s@),
        r matches Some(v) ==> v == median_value(s@),
{
    let mid = s.len() / 2;
    if s.len() % 2 == 0 {
        if s[mid - 1] > u64::MAX - s[mid] {
            None
        } else {
            Some((s[mid - 1] + s[mid]) / 2)
        }
    } else {
        Some(s[mid])
    }
}

/// The three statistics of a history; `None` where computing them
/// overflows a `u64` (where `statistics_defined` fails).
pub fn lap_statistics_checked(history: &[String]) -> (r: Option<
    (Option<String>, Option<String>, Option<String>),
>)
    ensures
        r is Some <==> statistics_defined(texts(history@)),
        r matches Some(t) ==> stats_text(t) == lap_statistics(texts(history@)),
{
    let ghost h = texts(history@);
    let mut laps: Vec<u64> = Vec::new();
    let mut i: usize = 0;
    while i < history.len()
        invariant
            i <= history.len(),
            h == texts(history@),
            laps_fit(h.take(i as int)),
            laps@ == lap_values(h.take(i as int)),
        decreases history.len() - i,
    {
        let t = chars_of(history[i].as_str());
        assert(h.take(i + 1).drop_last() =~= h.take(i as int));
        assert(h[i as int] == t@);
        match lap_millis_checked(&t) {
            None => {
                assert(!laps_fit(h));
                return None;
            },
            Some(v) => {
                if let Some(x) = v {
                    laps.push(x);
                }
                assert(laps@ =~= lap_values(h.take(i + 1)));
            },
        }
        i += 1;
        assert(laps_fit(h.take(i as int))) by {
            assert forall|k: int| 0 <= k < i implies lap_fits(#[trigger] h.take(i as int)[k]) by {
                if k < i - 1 {
                    assert(h.take(i as int)[k] == h.take(i - 1)[k]);
                }
            }
        }
    }
    assert(h.take(history.len() as int) =~= h);
    assert(laps@ == lap_values(h));
    if laps.len() == 0 {
        proof {
            lemma_lap_order_total();
            laps@.lemma_sort_by_ensures(lap_order());
            assert(sorted_laps(laps@).to_multiset().len() == 0);
        }
        return Some((None, None, None));
    }
    let mut sorted = sort_laps(&laps);
    proof {
        lemma_lap_order_total();
        laps@.lemma_sort_by_ensures(lap_order());
        assert(sorted@.len() == laps@.len()) by {
            assert(sorted@.to_multiset().len() == laps@.to_multiset().len());
        }
    }
    let median_millis = match median_checked(&sorted) {
        Some(v) => v,
        None => {
            return None;
        },
    };
    let ghost all_sorted = sorted@;
    if sorted.len() > 1 {
        sorted.pop();
    }
    assert(sorted@ == without_slowest(all_sorted));
    let mut total: u64 = 0;
    let mut j: usize = 0;
    while j < sorted.len()
        invariant
            j <= sorted.len(),
            total == seq_sum(sorted@.take(j as int)),
            h == texts(history@),
            laps@ == lap_values(h),
            all_sorted == sorted_laps(laps@),
            sorted@ == without_slowest(all_sorted),
        decreases sorted.len() - j,
    {
        assert(sorted@.take(j + 1).drop_last() =~= sorted@.take(j as int));
        if total > u64::MAX - sorted[j] {
            proof {
                lemma_sum_prefix_le(sorted@, j + 1);
                assert(seq_sum(sorted@.take(j + 1)) == total + sorted[j as int]);
                assert(seq_sum(without_slowest(sorted_laps(lap_values(h)))) > u64::MAX);
            }
            return None;
        }
        total = total + sorted[j];
        j += 1;
    }
    assert(sorted@.take(sorted.len() as int) =~= sorted@);
    let average_millis = total / (sorted.len() as u64);
    let mut recent: Vec<u64> = Vec::new();
    let mut e: usize = history.len();
    let mut count: usize = 0;
    while count < 10 && e > 0
        invariant
            e <= history.len(),
            count <= 10,
            h == texts(history@),
            laps_fit(h),
            recent@ + recent_values(h.take(e as int), (10 - count) as nat) == recent_values(h, 10),
        decreases e,
    {
        assert(h.take(e as int).drop_last() =~= h.take(e - 1));
        assert(h.take(e as int).last() == h[e - 1]);
        let t = chars_of(history[e - 1].as_str());
        assert(lap_fits(h[e - 1]));
        let ghost before = recent@;
        match lap_millis_checked(&t) {
            None => {},
            Some(v) => {
                if let Some(x) = v {
                    recent.push(x);
                }
            },
        }
        assert(recent@ =~= before + lap_part(h[e - 1]));
        e -= 1;
        count += 1;
    }
    assert(recent_values(h.take(e as int), (10 - count) as nat) =~= seq![]);
    assert(recent@ =~= recent_values(h, 10));
    let recent_sorted = sort_laps(&recent);
    proof {
        recent@.lemma_sort_by_ensures(lap_order());
        assert(recent_sorted@.len() == recent@.len()) by {
            assert(recent_sorted@.to_multiset().len() == recent@.to_multiset().len());
        }
    }
    let recent_millis = if recent_sorted.len() > 0 {
        match median_checked(&recent_sorted) {
            Some(v) => Some(v),
            None => {
                return None;
            },
        }
    } else {
        None
    };
    let median = Some(milliseconds_to_lap_time(median_millis));
    let average = Some(milliseconds_to_lap_time(average_millis));
    let recent_text = match recent_millis {
        Some(v) => Some(milliseconds_to_lap_time(v)),
        None => None,
    };
    Some((median, average, recent_text))
}

/// Median, average without the slowest lap and median of the last ten
/// history entries, as lap time text.
pub fn compute_lap_statistics(history: &[String]) -> (r: (
    Option<String>,
    Option<String>,
    Option<String>,
))
    requires
        statistics_defined(texts(history@)),
    ensures
        stats_text(r) == lap_statistics(texts(history@)),
{
    match lap_statistics_checked(history) {
        Some(t) => t,
        None => (None, None, None),
    }
}

proof fn lemma_sum_bounds(s: Seq<u64>, lo: int, hi: int)
    requires
        forall|i: int| 0 <= i < s.len() ==> lo <= #[trigger] s[i] <= hi,
    ensures
        lo * s.len() <= seq_sum(s) <= hi * s.len(),
    decreases s.len(),
{
    if s.len() > 0 {
        let t = s.drop_last();
        assert forall|i: int| 0 <= i < t.len() implies lo <= #[trigger] t[i] <= hi by {
            assert(t[i] == s[i]);
        }
        lemma_sum_bounds(t, lo, hi);
        assert(lo <= s[s.len() - 1] <= hi);
        assert(lo * s.len() == lo * t.len() + lo) by (nonlinear_arith)
            requires
                s.len() == t.len() + 1,
        ;
        assert(hi * s.len() == hi * t.len() + hi) by (nonlinear_arith)
            requires
                s.len() == t.len() + 1,
        ;
    }
}

/// The median and the average (without the slowest lap) of a history lie
/// between its fastest and its slowest lap.
pub proof fn lemma_statistics_within_laps(h: Seq<Seq<char>>)
    requires
        lap_values(h).len() > 0,
    ensures
        ({
            let s = sorted_laps(lap_values(h));
            let k = without_slowest(s);
            &&& s.len() == lap_values(h).len()
            &&& s[0] <= median_value(s) <= s.last()
            &&& s[0] <= seq_sum(k) / (k.len() as int) <= s.last()
        }),
{
    let laps = lap_values(h);
    let s = sorted_laps(laps);
    lemma_lap_order_total();
    laps.lemma_sort_by_ensures(lap_order());
    assert(s.len() == laps.len()) by {
        assert(s.to_multiset().len() == laps.to_multiset().len());
    }
    let n = s.len() as int;
    assert forall|i: int| 0 <= i < n implies s[0] <= #[trigger] s[i] <= s[n - 1] by {
        if 0 < i {
            assert(lap_order()(s[0], s[i]));
        }
        if i < n - 1 {
            assert(lap_order()(s[i], s[n - 1]));
        }
    }
    let k = without_slowest(s);
    assert forall|i: int| 0 <= i < k.len() implies s[0] <= #[trigger] k[i] <= s[n - 1] by {
        assert(k[i] == s[i]);
    }
    lemma_sum_bounds(k, s[0] as int, s[n - 1] as int);
    let len = k.len() as int;
    let total = seq_sum(k);
    let lo = s[0] as int;
    let hi = s[n - 1] as int;
    assert(lo <= total / len <= hi) by (nonlinear_arith)
        requires
            len > 0,
            lo * len <= total <= hi * len,
    ;
}

/// The lap times among the last `n` history entries hold the same laps as
/// those read from that suffix of the history, oldest first.
proof fn lemma_recent_is_suffix(h: Seq<Seq<char>>, n: nat)
    ensures
        n <= h.len() ==> recent_values(h, n).to_multiset() == lap_values(
            h.subrange(h.len() - n, h.len() as int),
        ).to_multiset(),
        n > h.len() ==> recent_values(h, n).to_multiset() == lap_values(h).to_multiset(),
    decreases n,
{
    broadcast use vstd::seq_lib::lemma_multiset_commutative;

    if h.len() == 0 || n == 0 {
        if n <= h.len() {
            assert(h.subrange(h.len() - n, h.len() as int) =~= seq![]);
        }
    } else {
        let m = (n - 1) as nat;
        let t = h.drop_last();
        lemma_recent_is_suffix(t, m);
        let part = lap_part(h.last());
        assert(recent_values(h, n) == part + recent_values(t, m));
        if n <= h.len() {
            let suf = h.subrange(h.len() - n, h.len() as int);
            assert(suf.drop_last() =~= t.subrange(t.len() - m, t.len() as int));
            assert(suf.last() == h.last());
            assert(lap_values(suf) == lap_values(suf.drop_last()) + part);
        } else {
            assert(lap_values(h) == lap_values(t) + part);
        }
    }
}

proof fn lemma_sorted_len(a: Seq<u64>)
    ensures
        sorted_laps(a).len() == a.len(),
{
    lemma_lap_order_total();
    a.lemma_sort_by_ensures(lap_order());
    assert(sorted_laps(a).to_multiset().len() == a.to_multiset().len());
}

/// A history yields no lap exactly when none of its entries reads as one.
proof fn lemma_no_laps(h: Seq<Seq<char>>)
    ensures
        lap_values(h).len() == 0 <==> forall|k: int| 0 <= k < h.len() ==> lap_millis(
            #[trigger] h[k],
        ) is None,
    decreases h.len(),
{
    if h.len() > 0 {
        lemma_no_laps(h.drop_last());
        assert(lap_values(h) == lap_values(h.drop_last()) + lap_part(h.last()));
        if forall|k: int| 0 <= k < h.len() ==> lap_millis(#[trigger] h[k]) is None {
            assert forall|k: int| 0 <= k < h.drop_last().len() implies lap_millis(
                #[trigger] h.drop_last()[k],
            ) is None by {
                assert(h.drop_last()[k] == h[k]);
            }
            assert(lap_millis(h[h.len() - 1]) is None);
        }
        if lap_values(h).len() == 0 {
            assert forall|k: int| 0 <= k < h.len() implies lap_millis(#[trigger] h[k]) is None by {
                if k < h.len() - 1 {
                    assert(h.drop_last()[k] == h[k]);
                }
            }
        }
    }
}

/// Sorted laps depend only on which laps there are.
proof fn lemma_sorted_laps_of_same(a: Seq<u64>, b: Seq<u64>)
    requires
        a.to_multiset() == b.to_multiset(),
    ensures
        sorted_laps(a) == sorted_laps(b),
{
    lemma_lap_order_total();
    a.lemma_sort_by_ensures(lap_order());
    b.lemma_sort_by_ensures(lap_order());
    lemma_sorted_unique(sorted_laps(a), sorted_laps(b));
}

/// The recent median is the median of the laps read from the last ten
/// history entries: the third statistic of a history is the first statistic
/// of its last ten entries (of the whole history when it has ten entries or
/// fewer).
pub proof fn lemma_recent_median_window(h: Seq<Seq<char>>)
    ensures
        h.len() <= 10 ==> lap_statistics(h).2 == lap_statistics(h).0,
        h.len() >= 10 ==> lap_statistics(h).2 == lap_statistics(
            h.subrange(h.len() - 10, h.len() as int),
        ).0,
{
    let r = sorted_laps(recent_values(h, recent_window()));
    if h.len() <= 10 {
        lemma_recent_is_suffix(h, 10);
        if h.len() == 10 {
            assert(h.subrange(h.len() - 10, h.len() as int) =~= h);
        }
        lemma_sorted_laps_of_same(recent_values(h, 10), lap_values(h));
        assert(r == sorted_laps(lap_values(h)));
    }
    if h.len() >= 10 {
        let w = h.subrange(h.len() - 10, h.len() as int);
        lemma_recent_is_suffix(h, 10);
        lemma_sorted_laps_of_same(recent_values(h, 10), lap_values(w));
        assert(r == sorted_laps(lap_values(w)));
        lemma_sorted_len(lap_values(h));
        lemma_sorted_len(lap_values(w));
        if lap_values(h).len() == 0 {
            lemma_no_laps(h);
            lemma_no_laps(w);
            assert forall|k: int| 0 <= k < w.len() implies lap_millis(#[trigger] w[k]) is None by {
                assert(w[k] == h[h.len() - 10 + k]);
            }
        }
    }
}

proof fn lemma_sum_fold(s: Seq<u64>)
    ensures
        seq_sum(s) == s.fold_left(0int, |acc: int, x: u64| acc + x),
    decreases s.len(),
{
    if s.len() > 0 {
        lemma_sum_fold(s.drop_last());
    }
}

/// The statistics over any fastest-to-slowest ordering `s` of the laps of a
/// history: the median is the middle lap of `s` for an odd count and the
/// mean of the two middle laps, rounded down, for an even count; the
/// average is the sum of all laps but the last (slowest) of `s`, divided by
/// their number, rounded down (the single lap itself when there is one);
/// both written as lap time text, and both absent when no entry reads as a
/// lap time.
pub proof fn lemma_statistics_of_sorted(h: Seq<Seq<char>>, s: Seq<u64>)
    requires
        forall|i: int, j: int| 0 <= i < j < s.len() ==> s[i] <= s[j],
        s.to_multiset() == lap_values(h).to_multiset(),
    ensures
        ({
            let n = s.len() as int;
            let k = if n > 1 {
                s.subrange(0, n - 1)
            } else {
                s
            };
            let total = k.fold_left(0int, |acc: int, x: u64| acc + x);
            &&& n == lap_values(h).len()
            &&& lap_statistics(h).0 == if n == 0 {
                None
            } else if n % 2 == 1 {
                Some(lap_text(s[n / 2] as nat))
            } else {
                Some(lap_text(((s[n / 2 - 1] + s[n / 2]) / 2) as nat))
            }
            &&& lap_statistics(h).1 == if n == 0 {
                None
            } else {
                Some(lap_text((total / k.len() as int) as nat))
            }
        }),
{
    let laps = lap_values(h);
    lemma_lap_order_total();
    laps.lemma_sort_by_ensures(lap_order());
    assert(sorted_by(s, lap_order())) by {
        assert forall|i: int, j: int| 0 <= i < j < s.len() implies #[trigger] lap_order()(
            s[i],
            s[j],
        ) by {}
    }
    lemma_sorted_unique(s, sorted_laps(laps));
    assert(s.len() == s.to_multiset().len());
    assert(laps.len() == laps.to_multiset().len());
    let n = s.len() as int;
    let k = if n > 1 {
        s.subrange(0, n - 1)
    } else {
        s
    };
    if n > 1 {
        assert(k =~= s.drop_last());
    }
    lemma_sum_fold(k);
}

/// History entries are read in order, one lap time per entry that reads as
/// one, entries that do not read as a lap time contributing nothing.
pub proof fn lemma_lap_values_append(h: Seq<Seq<char>>, t: Seq<char>)
    ensures
        lap_values(h.push(t)) == lap_values(h) + match lap_millis(t) {
            Some(v) => seq![v as u64],
            None => Seq::<u64>::empty(),
        },
        lap_values(Seq::<Seq<char>>::empty()) == Seq::<u64>::empty(),
{
    assert(h.push(t).drop_last() =~= h);
}

} // verus!
