use crate::bar::{models, BarModel, InclusionPolicy, PriceBar};
use vstd::prelude::*;
use vstd::seq_lib::{
    to_multiset_build, to_multiset_contains, to_multiset_insert, to_multiset_len,
    to_multiset_remove,
};
use vstd::utf8::{encode_utf8, encode_utf8_decode_utf8};

verus! {

/// `a` and `b` agree on their first `k` bytes, and there `a` ends or holds
/// the smaller byte.
pub open spec fn le_at(a: Seq<u8>, b: Seq<u8>, k: int) -> bool {
    &&& 0 <= k <= a.len()
    &&& k <= b.len()
    &&& forall|j: int| 0 <= j < k ==> a[j] == b[j]
    &&& (k == a.len() || (k < b.len() && a[k] < b[k]))
}

/// Lexicographic order on byte strings: `a` is a prefix of `b`, or holds the
/// smaller byte where they first differ.
pub open spec fn bytes_le(a: Seq<u8>, b: Seq<u8>) -> bool {
    exists|k: int| le_at(a, b, k)
}

/// The order of dates: that of their UTF-8 bytes. For dates written as
/// `YYYY-MM-DD` it is the order of the calendar.
pub open spec fn date_le(a: Seq<char>, b: Seq<char>) -> bool {
    bytes_le(encode_utf8(a), encode_utf8(b))
}

/// No bar stands before one with a smaller date.
pub open spec fn sorted_by_date(s: Seq<BarModel>) -> bool {
    forall|i: int, j: int| 0 <= i < j < s.len() ==> date_le(s[i].date, s[j].date)
}

/// No two bars share a date.
pub open spec fn distinct_dates(s: Seq<BarModel>) -> bool {
    forall|i: int, j: int| 0 <= i < j < s.len() ==> s[i].date != s[j].date
}

/// The bars that `policy` accepts, in their order.
pub open spec fn kept(s: Seq<BarModel>, policy: InclusionPolicy) -> Seq<BarModel>
    decreases s.len(),
{
    if s.len() == 0 {
        Seq::empty()
    } else if policy.accepts(s.last()) {
        kept(s.drop_last(), policy).push(s.last())
    } else {
        kept(s.drop_last(), policy)
    }
}

/// The bars of `s` that are dated `d`, in their order.
pub open spec fn dated(s: Seq<BarModel>, d: Seq<char>) -> Seq<BarModel>
    decreases s.len(),
{
    if s.len() == 0 {
        Seq::empty()
    } else if s.last().date == d {
        dated(s.drop_last(), d).push(s.last())
    } else {
        dated(s.drop_last(), d)
    }
}

proof fn lemma_dated_concat(x: Seq<BarModel>, y: Seq<BarModel>, d: Seq<char>)
    ensures
        dated(x + y, d) == dated(x, d) + dated(y, d),
    decreases y.len(),
{
    if y.len() == 0 {
        assert(x + y =~= x);
        assert(dated(x, d) + dated(y, d) =~= dated(x, d));
    } else {
        assert((x + y).drop_last() =~= x + y.drop_last());
        assert((x + y).last() == y.last());
        lemma_dated_concat(x, y.drop_last(), d);
        if y.last().date == d {
            assert(dated(x + y, d) =~= dated(x, d) + dated(y, d));
        }
    }
}

proof fn lemma_dated_none(y: Seq<BarModel>, d: Seq<char>)
    requires
        forall|j: int| 0 <= j < y.len() ==> (#[trigger] y[j]).date != d,
    ensures
        dated(y, d) == Seq::<BarModel>::empty(),
    decreases y.len(),
{
    if y.len() > 0 {
        assert(y.last() == y[y.len() - 1]);
        assert forall|j: int| 0 <= j < y.drop_last().len() implies (#[trigger] y.drop_last()[j]).date
            != d by {
            assert(y.drop_last()[j] == y[j]);
        };
        lemma_dated_none(y.drop_last(), d);
    }
}

/// A bar put in behind every bar of its own date joins the bars of that date
/// as their last and leaves those of every other date as they were.
proof fn lemma_dated_insert(s: Seq<BarModel>, at: int, b: BarModel, d: Seq<char>)
    requires
        0 <= at <= s.len(),
        forall|j: int| at <= j < s.len() ==> (#[trigger] s[j]).date != b.date,
    ensures
        dated(s.insert(at, b), d) == if d == b.date {
            dated(s, d).push(b)
        } else {
            dated(s, d)
        },
{
    let head = s.take(at);
    let tail = s.skip(at);
    assert(s.insert(at, b) =~= head.push(b) + tail);
    assert(s =~= head + tail);
    lemma_dated_concat(head.push(b), tail, d);
    lemma_dated_concat(head, tail, d);
    assert(head.push(b).drop_last() =~= head);
    if d == b.date {
        assert forall|j: int| 0 <= j < tail.len() implies (#[trigger] tail[j]).date != d by {
            assert(tail[j] == s[at + j]);
        };
        lemma_dated_none(tail, d);
        assert(dated(head.push(b), d) + dated(tail, d) =~= dated(head, d).push(b));
        assert(dated(head, d) + dated(tail, d) =~= dated(head, d));
    }
}

pub proof fn lemma_bytes_le_reflexive(a: Seq<u8>)
    ensures
        bytes_le(a, a),
{
    assert(le_at(a, a, a.len() as int));
}

pub proof fn lemma_bytes_le_transitive(a: Seq<u8>, b: Seq<u8>, c: Seq<u8>)
    requires
        bytes_le(a, b),
        bytes_le(b, c),
    ensures
        bytes_le(a, c),
{
    let k1 = choose|k: int| le_at(a, b, k);
    let k2 = choose|k: int| le_at(b, c, k);
    let k = if k1 <= k2 {
        k1
    } else {
        k2
    };
    assert(le_at(a, c, k));
}

pub proof fn lemma_bytes_le_antisymmetric(a: Seq<u8>, b: Seq<u8>)
    requires
        bytes_le(a, b),
        bytes_le(b, a),
    ensures
        a == b,
{
    let k1 = choose|k: int| le_at(a, b, k);
    let k2 = choose|k: int| le_at(b, a, k);
    if k1 < a.len() {
        if k2 > k1 {
            assert(b[k1] == a[k1]);
        } else if k2 < k1 {
            assert(a[k2] == b[k2]);
        }
    }
    if k2 < b.len() {
        if k1 > k2 {
            assert(a[k2] == b[k2]);
        } else if k1 < k2 {
            assert(b[k1] == a[k1]);
        }
    }
    assert(a =~= b);
}

/// Two dates that are each at or before the other are the same date.
pub proof fn lemma_date_le_antisymmetric(a: Seq<char>, b: Seq<char>)
    requires
        date_le(a, b),
        date_le(b, a),
    ensures
        a == b,
{
    lemma_bytes_le_antisymmetric(encode_utf8(a), encode_utf8(b));
    encode_utf8_decode_utf8(a);
    encode_utf8_decode_utf8(b);
}

/// How often a bar stands among the kept ones: as often as in the input if
/// the policy accepts it, never if not.
pub proof fn lemma_kept_count(s: Seq<BarModel>, policy: InclusionPolicy, v: BarModel)
    ensures
        kept(s, policy).to_multiset().count(v) == if policy.accepts(v) {
            s.to_multiset().count(v)
        } else {
            0
        },
    decreases s.len(),
{
    if s.len() == 0 {
        to_multiset_contains(s, v);
        to_multiset_contains(kept(s, policy), v);
    } else {
        let d = s.drop_last();
        let l = s.last();
        lemma_kept_count(d, policy, v);
        assert(d.push(l) =~= s);
        to_multiset_build(d, l);
        to_multiset_build(kept(d, policy), l);
    }
}

/// Bars drawn from a sequence without a repeated date, none more often than
/// it stands there, repeat no date either.
proof fn lemma_distinct_dates_kept(a: Seq<BarModel>, x: Seq<BarModel>)
    requires
        distinct_dates(a),
        forall|v: BarModel| x.to_multiset().count(v) <= a.to_multiset().count(v),
    ensures
        distinct_dates(x),
{
    assert(a.no_duplicates()) by {
        assert forall|i: int, j: int| 0 <= i < a.len() && 0 <= j < a.len() && i != j implies a[i]
            != a[j] by {
            if i < j {
                assert(a[i].date != a[j].date);
            } else {
                assert(a[j].date != a[i].date);
            }
        };
    };
    a.lemma_multiset_has_no_duplicates();
    assert forall|v: BarModel| x.to_multiset().contains(v) implies x.to_multiset().count(v)
        == 1 by {
        assert(x.to_multiset().count(v) <= a.to_multiset().count(v));
        assert(a.to_multiset().contains(v));
    };
    x.lemma_multiset_has_no_duplicates_conv();
    assert forall|p: int, q: int| 0 <= p < q < x.len() implies x[p].date != x[q].date by {
        assert(x[p] != x[q]);
        to_multiset_contains(x, x[p]);
        to_multiset_contains(x, x[q]);
        assert(x.contains(x[p]));
        assert(x.contains(x[q]));
        to_multiset_contains(a, x[p]);
        to_multiset_contains(a, x[q]);
        let i = choose|i: int| 0 <= i < a.len() && a[i] == x[p];
        let j = choose|j: int| 0 <= j < a.len() && a[j] == x[q];
        if i < j {
            assert(a[i].date != a[j].date);
        } else if j < i {
            assert(a[j].date != a[i].date);
        }
    };
}

/// A set of bars without a repeated date has one ascending order only.
pub proof fn lemma_sorted_is_unique(x: Seq<BarModel>, y: Seq<BarModel>)
    requires
        sorted_by_date(x),
        sorted_by_date(y),
        distinct_dates(x),
        x.to_multiset() == y.to_multiset(),
    ensures
        x == y,
    decreases x.len(),
{
    to_multiset_len(x);
    to_multiset_len(y);
    if x.len() == 0 {
        assert(x =~= y);
    } else {
        to_multiset_contains(x, x[0]);
        to_multiset_contains(y, x[0]);
        to_multiset_contains(x, y[0]);
        to_multiset_contains(y, y[0]);
        assert(x.contains(x[0]));
        assert(y.contains(y[0]));
        let j = choose|j: int| 0 <= j < y.len() && y[j] == x[0];
        let i = choose|i: int| 0 <= i < x.len() && x[i] == y[0];
        lemma_bytes_le_reflexive(encode_utf8(x[0].date));
        lemma_bytes_le_reflexive(encode_utf8(y[0].date));
        if i > 0 {
            assert(date_le(x[0].date, x[i].date));
        }
        if j > 0 {
            assert(date_le(y[0].date, y[j].date));
        }
        lemma_date_le_antisymmetric(x[0].date, y[0].date);
        if i > 0 {
            assert(x[0].date != x[i].date);
        }
        assert(x[0] == y[0]);
        let xs = x.drop_first();
        let ys = y.drop_first();
        assert(xs =~= x.remove(0));
        assert(ys =~= y.remove(0));
        to_multiset_remove(x, 0);
        to_multiset_remove(y, 0);
        assert forall|p: int, q: int| 0 <= p < q < xs.len() implies date_le(
            xs[p].date,
            xs[q].date,
        ) && xs[p].date != xs[q].date by {
            assert(xs[p] == x[p + 1] && xs[q] == x[q + 1]);
        };
        assert forall|p: int, q: int| 0 <= p < q < ys.len() implies date_le(
            ys[p].date,
            ys[q].date,
        ) by {
            assert(ys[p] == y[p + 1] && ys[q] == y[q + 1]);
        };
        lemma_sorted_is_unique(xs, ys);
        assert(x =~= seq![x[0]] + xs);
        assert(y =~= seq![y[0]] + ys);
    }
}

/// Order independence: two inputs that hold the same bars, in whatever
/// order, with no date twice, have the same normalised sequence. `x` and `y`
/// stand for what `normalize` returns for `a` and for `b`.
pub proof fn lemma_order_independent(
    a: Seq<BarModel>,
    b: Seq<BarModel>,
    policy: InclusionPolicy,
    x: Seq<BarModel>,
    y: Seq<BarModel>,
)
    requires
        a.to_multiset() == b.to_multiset(),
        distinct_dates(a),
        sorted_by_date(x),
        x.to_multiset() == kept(a, policy).to_multiset(),
        sorted_by_date(y),
        y.to_multiset() == kept(b, policy).to_multiset(),
    ensures
        x == y,
{
    assert forall|v: BarModel| x.to_multiset().count(v) == y.to_multiset().count(v)
        && x.to_multiset().count(v) <= a.to_multiset().count(v) by {
        lemma_kept_count(a, policy, v);
        lemma_kept_count(b, policy, v);
    };
    assert(x.to_multiset() =~= y.to_multiset());
    lemma_distinct_dates_kept(a, x);
    lemma_sorted_is_unique(x, y);
}

/// Whether `a` is at or before `b` in the order of dates. Of two dates one is
/// always at or before the other.
pub fn date_at_or_before(a: &str, b: &str) -> (r: bool)
    ensures
        r == date_le(a@, b@),
        !r ==> date_le(b@, a@),
{
    let x = a.as_bytes();
    let y = b.as_bytes();
    let mut i: usize = 0;
    while i < x.len() && i < y.len() && x[i] == y[i]
        invariant
            i <= x@.len(),
            i <= y@.len(),
            forall|j: int| 0 <= j < i ==> x@[j] == y@[j],
        decreases x@.len() - i,
    {
        i += 1;
    }
    if i == x.len() {
        assert(le_at(x@, y@, i as int));
        true
    } else if i == y.len() {
        assert(le_at(y@, x@, i as int));
        assert forall|k: int| !le_at(x@, y@, k) by {
            if le_at(x@, y@, k) {
                if k < i {
                    assert(x@[k] == y@[k]);
                }
            }
        };
        false
    } else if x[i] < y[i] {
        assert(le_at(x@, y@, i as int));
        true
    } else {
        assert(le_at(y@, x@, i as int));
        assert forall|k: int| !le_at(x@, y@, k) by {
            if le_at(x@, y@, k) {
                if k < i {
                    assert(x@[k] == y@[k]);
                } else if k > i {
                    assert(x@[i as int] == y@[i as int]);
                }
            }
        };
        false
    }
}

proof fn lemma_insert_keeps_sorted(s: Seq<BarModel>, at: int, b: BarModel)
    requires
        sorted_by_date(s),
        0 <= at <= s.len(),
        forall|j: int| 0 <= j < at ==> date_le(#[trigger] s[j].date, b.date),
        forall|j: int| at <= j < s.len() ==> date_le(b.date, #[trigger] s[j].date),
    ensures
        sorted_by_date(s.insert(at, b)),
{
    let t = s.insert(at, b);
    s.insert_ensures(at, b);
    assert forall|p: int, q: int| 0 <= p < q < t.len() implies date_le(t[p].date, t[q].date) by {
        if q < at {
            assert(t[p] == s[p] && t[q] == s[q]);
        } else if q == at {
            assert(t[p] == s[p] && t[q] == b);
        } else {
            assert(t[q] == s[q - 1]);
            if p < at {
                assert(t[p] == s[p]);
            } else if p == at {
                assert(t[p] == b);
            } else {
                assert(t[p] == s[p - 1]);
            }
        }
    };
}

/// Puts `bar` into the sorted `out`, behind every bar whose date is not
/// greater than its own.
fn insert_by_date(out: &mut Vec<PriceBar>, bar: PriceBar)
    requires
        sorted_by_date(models(old(out)@)),
    ensures
        sorted_by_date(models(final(out)@)),
        models(final(out)@).to_multiset() == models(old(out)@).to_multiset().insert(bar@),
        forall|d: Seq<char>| #[trigger]
            dated(models(final(out)@), d) == if d == bar@.date {
                dated(models(old(out)@), d).push(bar@)
            } else {
                dated(models(old(out)@), d)
            },
{
    let ghost before = models(out@);
    let mut at: usize = out.len();
    while at > 0 && !date_at_or_before(out[at - 1].date.as_str(), bar.date.as_str())
        invariant
            at <= out@.len(),
            before == models(out@),
            sorted_by_date(before),
            forall|j: int| at <= j < before.len() ==> date_le(bar@.date, #[trigger] before[j].date),
            forall|j: int| at <= j < before.len() ==> !date_le(#[trigger] before[j].date, bar@.date),
        decreases at,
    {
        at -= 1;
    }
    proof {
        lemma_bytes_le_reflexive(encode_utf8(bar@.date));
        assert forall|d: Seq<char>| #[trigger]
            dated(before.insert(at as int, bar@), d) == if d == bar@.date {
                dated(before, d).push(bar@)
            } else {
                dated(before, d)
            } by {
            lemma_dated_insert(before, at as int, bar@, d);
        };
        assert forall|j: int| 0 <= j < at implies date_le(#[trigger] before[j].date, bar@.date) by {
            assert(before[at - 1] == out@[at - 1]@);
            assert(date_le(before[at - 1].date, bar@.date));
            if j < at - 1 {
                assert(date_le(before[j].date, before[at - 1].date));
                lemma_bytes_le_transitive(
                    encode_utf8(before[j].date),
                    encode_utf8(before[at - 1].date),
                    encode_utf8(bar@.date),
                );
            }
        };
        lemma_insert_keeps_sorted(before, at as int, bar@);
        to_multiset_insert(before, at as int, bar@);
    }
    out.insert(at, bar);
    assert(models(out@) =~= before.insert(at as int, bar@));
}

/// The bars that `policy` accepts, in ascending order of date: every accepted
/// bar once for each time it stands in `bars`, and no other. Bars of one date
/// keep the order they came in. Nothing is reported for a dropped bar. Where
/// no two bars of `bars` share a date, the result is the same whatever the
/// order of `bars`.
pub fn normalize(bars: &Vec<PriceBar>, policy: InclusionPolicy) -> (out: Vec<PriceBar>)
    ensures
        sorted_by_date(models(out@)),
        models(out@).to_multiset() == kept(models(bars@), policy).to_multiset(),
        distinct_dates(models(bars@)) ==> distinct_dates(models(out@)),
        forall|d: Seq<char>| #[trigger]
            dated(models(out@), d) == dated(kept(models(bars@), policy), d),
{
    let mut out: Vec<PriceBar> = Vec::new();
    let ghost all = models(bars@);
    let mut i: usize = 0;
    assert(models(out@) =~= kept(all.take(0), policy));
    while i < bars.len()
        invariant
            i <= bars.len(),
            all == models(bars@),
            sorted_by_date(models(out@)),
            models(out@).to_multiset() == kept(all.take(i as int), policy).to_multiset(),
            forall|d: Seq<char>| #[trigger]
                dated(models(out@), d) == dated(kept(all.take(i as int), policy), d),
        decreases bars.len() - i,
    {
        proof {
            assert(all.take(i + 1).drop_last() =~= all.take(i as int));
            assert(all.take(i + 1).last() == bars[i as int]@);
            to_multiset_build(kept(all.take(i as int), policy), bars[i as int]@);
        }
        if policy.keeps(&bars[i]) {
            insert_by_date(&mut out, bars[i].duplicate());
            proof {
                let grown = kept(all.take(i as int), policy).push(bars[i as int]@);
                assert(grown.drop_last() =~= kept(all.take(i as int), policy));
                assert(grown == kept(all.take(i + 1), policy));
            }
        }
        i += 1;
    }
    assert(all.take(i as int) =~= all);
    proof {
        if distinct_dates(all) {
            assert forall|v: BarModel|
                models(out@).to_multiset().count(v) <= all.to_multiset().count(v) by {
                lemma_kept_count(all, policy, v);
            };
            lemma_distinct_dates_kept(all, models(out@));
        }
    }
    out
}

} // verus!
