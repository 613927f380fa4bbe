//! What the result of a run says under each of its names.

use vstd::prelude::*;

use crate::client::{
    error_label, error_labels_differ, failures_view, CheckFailureView, ConnError,
};
use crate::engine::{
    ascending, codes_as_numbers, failure_row, point_row, result_dict, CellView, FieldView,
    RunResult,
};
use crate::metrics::{
    a_hundred_failures_are_kept, after_all, all_bytes, all_failures, all_latencies, all_passed,
    bytes_in, count_in, counts_are_exact, counts_view, every_assertion_is_counted,
    every_error_is_counted, every_latency_is_counted, every_recording_succeeds_or_fails,
    extremes_are_attained, has_error, has_latency, has_some_error, has_status, how_many, is_at_most,
    is_bad, is_bad_in, is_conn_failure, is_counted, is_counted_in, is_good, is_good_in, is_reply,
    is_sent, is_timed, is_timed_in, latencies_add_up, latencies_in,
    latencies_lie_between_the_extremes, latency_of, lists, percentile_is_least,
    seconds_hold_their_own, sums_up, totals_count_the_recordings, Elapsed, MetricsResult, Millis,
    Rate, Recorded, TimePoint,
};

verus! {

broadcast use vstd::string::group_string_axioms;

/// A result under its names.
pub type Named = Seq<(Seq<char>, FieldView)>;

/// Whether a result has this count under a name.
pub open spec fn says_count(dict: Named, name: Seq<char>, n: nat) -> bool {
    n <= u64::MAX && dict.contains((name, FieldView::One(CellView::Count(n as u64))))
}

/// Whether this is the result of a run in which all this was recorded, after
/// so much time.
pub open spec fn is_result_of(
    r: RunResult,
    s: MetricsResult,
    duration_secs: u64,
    all: Seq<Recorded>,
    elapsed: Elapsed,
) -> bool {
    &&& duration_secs + 2 <= usize::MAX
    &&& all.len() <= u64::MAX
    &&& sums_up(s, after_all(duration_secs, all), elapsed)
    &&& r.is_of(s)
}

proof fn entry_is_there(dict: Named, i: int, entry: (Seq<char>, FieldView))
    requires
        0 <= i < dict.len(),
        dict[i] == entry,
    ensures
        dict.contains(entry),
{
}

/// The result says under `total`, `success` and `failed` how many recordings
/// count toward the total, succeeded and failed; under `elapsed_secs` and
/// `rps` how long the run took and how many of the total came in that time;
/// under `bytes`, `checks_passed` and `checks_failed` what was recorded of
/// them, as long as it can be held. It has nineteen names.
pub proof fn result_says_what_was_recorded(
    r: RunResult,
    s: MetricsResult,
    duration_secs: u64,
    all: Seq<Recorded>,
    elapsed: Elapsed,
)
    requires
        is_result_of(r, s, duration_secs, all, elapsed),
    ensures
        ({
            let dict = result_dict(r);
            let total = how_many(all, is_counted());
            &&& dict.len() == 19
            &&& says_count(dict, "total"@, total)
            &&& says_count(dict, "success"@, how_many(all, is_good()))
            &&& says_count(dict, "failed"@, how_many(all, is_bad()))
            &&& dict.contains(("elapsed_secs"@, FieldView::One(CellView::Seconds(elapsed))))
            &&& dict.contains(
                (
                    "rps"@,
                    FieldView::One(
                        CellView::PerSecond(Rate { events: total as u64, over: elapsed }),
                    ),
                ),
            )
            &&& all_bytes(all) <= u64::MAX ==> says_count(dict, "bytes"@, all_bytes(all))
            &&& all_passed(all) <= u64::MAX && all_failures(all).len() <= u64::MAX ==> {
                &&& says_count(dict, "checks_passed"@, all_passed(all))
                &&& says_count(dict, "checks_failed"@, all_failures(all).len())
            }
        }),
{
    let dict = result_dict(r);
    totals_count_the_recordings(duration_secs, all);
    if all_passed(all) <= u64::MAX && all_failures(all).len() <= u64::MAX {
        every_assertion_is_counted(duration_secs, all);
    }
    entry_is_there(dict, 0, dict[0]);
    entry_is_there(dict, 1, dict[1]);
    entry_is_there(dict, 2, dict[2]);
    entry_is_there(dict, 3, dict[3]);
    entry_is_there(dict, 4, dict[4]);
    entry_is_there(dict, 5, dict[5]);
    entry_is_there(dict, 14, dict[14]);
    entry_is_there(dict, 15, dict[15]);
}

/// The result says under `min_ms`, `max_ms` and `avg_ms` the shortest and the
/// longest latency that was recorded and the average of all, and nothing where
/// there are no latencies.
pub proof fn result_says_the_latencies(
    r: RunResult,
    s: MetricsResult,
    duration_secs: u64,
    all: Seq<Recorded>,
    elapsed: Elapsed,
    least: u64,
    most: u64,
)
    requires
        is_result_of(r, s, duration_secs, all, elapsed),
        how_many(all, is_timed()) > 0 ==> {
            &&& exists|i: int| 0 <= i < all.len() && latency_of(#[trigger] all[i]) == Some(least)
            &&& exists|i: int| 0 <= i < all.len() && latency_of(#[trigger] all[i]) == Some(most)
            &&& forall|i: int|
                0 <= i < all.len() ==> (latency_of(#[trigger] all[i]) matches Some(us) ==> least
                    <= us <= most)
        },
    ensures
        ({
            let dict = result_dict(r);
            let timed = how_many(all, is_timed());
            if timed > 0 {
                &&& dict.contains(
                    (
                        "min_ms"@,
                        FieldView::One(CellView::Millis(Millis { sum_us: least, count: 1 })),
                    ),
                )
                &&& dict.contains(
                    (
                        "max_ms"@,
                        FieldView::One(CellView::Millis(Millis { sum_us: most, count: 1 })),
                    ),
                )
                &&& all_latencies(all) <= u64::MAX ==> dict.contains(
                    (
                        "avg_ms"@,
                        FieldView::One(
                            CellView::Millis(
                                Millis {
                                    sum_us: all_latencies(all) as u64,
                                    count: timed as u64,
                                },
                            ),
                        ),
                    ),
                )
            } else {
                let nothing = FieldView::One(CellView::Millis(Millis { sum_us: 0, count: 0 }));
                &&& dict.contains(("min_ms"@, nothing))
                &&& dict.contains(("max_ms"@, nothing))
                &&& dict.contains(("avg_ms"@, nothing))
            }
        }),
{
    let dict = result_dict(r);
    let m = after_all(duration_secs, all);
    every_latency_is_counted(duration_secs, all);
    if all_latencies(all) <= u64::MAX {
        latencies_add_up(duration_secs, all);
    }
    entry_is_there(dict, 6, dict[6]);
    entry_is_there(dict, 7, dict[7]);
    entry_is_there(dict, 8, dict[8]);
    if how_many(all, is_timed()) > 0 {
        extremes_are_attained(duration_secs, all);
        let i = choose|i: int|
            0 <= i < all.len() && latency_of(#[trigger] all[i]) == Some(m.min_latency_us);
        let j = choose|j: int|
            0 <= j < all.len() && latency_of(#[trigger] all[j]) == Some(m.max_latency_us);
        let k = choose|k: int| 0 <= k < all.len() && latency_of(#[trigger] all[k]) == Some(least);
        let l = choose|l: int| 0 <= l < all.len() && latency_of(#[trigger] all[l]) == Some(most);
        latencies_lie_between_the_extremes(duration_secs, all, k);
        latencies_lie_between_the_extremes(duration_secs, all, l);
        assert(least <= m.min_latency_us && m.max_latency_us <= most);
    } else {
        nothing_adds_up_to_0(all);
    }
}

proof fn nothing_adds_up_to_0(all: Seq<Recorded>)
    requires
        how_many(all, is_timed()) == 0,
    ensures
        all_latencies(all) == 0,
    decreases all.len(),
{
    if all.len() > 0 {
        nothing_adds_up_to_0(all.drop_last());
    }
}

/// Whether this is the latency, in whole milliseconds, that a percentage of all
/// latencies stays within: one that was recorded, with that share, rounded
/// down, at or below it, and the least such.
pub open spec fn is_within(all: Seq<Recorded>, p: nat, ms: u64) -> bool {
    let n = how_many(all, is_timed());
    &&& how_many(all, has_latency(ms)) > 0
    &&& 100 * how_many(all, is_at_most(ms as int)) > n * p - 100
    &&& forall|k: u64|
        #![trigger has_latency(k)]
        how_many(all, has_latency(k)) > 0 && k < ms ==> 100 * how_many(all, is_at_most(k as int))
            + 100 <= n * p
}

/// The result says under `p50_ms`, `p95_ms` and `p99_ms`, and in this order
/// under the five numbers of `percentiles`, within which latency that
/// percentage stays.
pub proof fn result_says_the_percentiles(
    r: RunResult,
    s: MetricsResult,
    duration_secs: u64,
    all: Seq<Recorded>,
    elapsed: Elapsed,
)
    requires
        is_result_of(r, s, duration_secs, all, elapsed),
        how_many(all, is_timed()) > 0,
    ensures
        exists|v50: u64, v75: u64, v90: u64, v95: u64, v99: u64|
            {
                let dict = result_dict(r);
                &&& #[trigger] is_within(all, 50, v50)
                &&& #[trigger] is_within(all, 75, v75)
                &&& #[trigger] is_within(all, 90, v90)
                &&& #[trigger] is_within(all, 95, v95)
                &&& #[trigger] is_within(all, 99, v99)
                &&& dict.contains(("p50_ms"@, FieldView::One(CellView::WholeMillis(v50))))
                &&& dict.contains(("p95_ms"@, FieldView::One(CellView::WholeMillis(v95))))
                &&& dict.contains(("p99_ms"@, FieldView::One(CellView::WholeMillis(v99))))
                &&& dict.contains(
                    (
                        "percentiles"@,
                        FieldView::ByNumber(
                            seq![
                                (50u64, CellView::WholeMillis(v50)),
                                (75u64, CellView::WholeMillis(v75)),
                                (90u64, CellView::WholeMillis(v90)),
                                (95u64, CellView::WholeMillis(v95)),
                                (99u64, CellView::WholeMillis(v99)),
                            ],
                        ),
                    ),
                )
            },
{
    let dict = result_dict(r);
    let map = r.percentiles@;
    percentile_is_within(s, duration_secs, all, elapsed, 50);
    percentile_is_within(s, duration_secs, all, elapsed, 75);
    percentile_is_within(s, duration_secs, all, elapsed, 90);
    percentile_is_within(s, duration_secs, all, elapsed, 95);
    percentile_is_within(s, duration_secs, all, elapsed, 99);
    entry_is_there(dict, 9, dict[9]);
    entry_is_there(dict, 10, dict[10]);
    entry_is_there(dict, 11, dict[11]);
    entry_is_there(dict, 12, dict[12]);
    five_ascending(map);
    let cells = ascending(map, u64::MAX as int).map_values(
        |e: (u64, u64)| (e.0, CellView::WholeMillis(e.1)),
    );
    assert(cells =~= seq![
        (50u64, CellView::WholeMillis(map[50])),
        (75u64, CellView::WholeMillis(map[75])),
        (90u64, CellView::WholeMillis(map[90])),
        (95u64, CellView::WholeMillis(map[95])),
        (99u64, CellView::WholeMillis(map[99])),
    ]);
    assert(is_within(all, 50, map[50]) && is_within(all, 75, map[75]) && is_within(all, 90, map[90])
        && is_within(all, 95, map[95]) && is_within(all, 99, map[99]));
}

proof fn percentile_is_within(
    s: MetricsResult,
    duration_secs: u64,
    all: Seq<Recorded>,
    elapsed: Elapsed,
    p: u64,
)
    requires
        all.len() <= u64::MAX,
        sums_up(s, after_all(duration_secs, all), elapsed),
        how_many(all, is_timed()) > 0,
        p == 50 || p == 75 || p == 90 || p == 95 || p == 99,
    ensures
        is_within(all, p as nat, s.percentiles@[p]),
{
    let ms = s.percentiles@[p];
    percentile_is_least(duration_secs, all, elapsed, s, p, 0);
    assert forall|k: u64|
        #![trigger has_latency(k)]
        how_many(all, has_latency(k)) > 0 && k < ms implies 100 * how_many(
        all,
        is_at_most(k as int),
    ) + 100 <= how_many(all, is_timed()) * p by {
        percentile_is_least(duration_secs, all, elapsed, s, p, k);
    }
}

/// Between two keys nothing is listed.
proof fn nothing_between(map: Map<u64, u64>, first: int, last: int)
    requires
        -1 <= first <= last <= u64::MAX,
        forall|k: u64| first < k <= last ==> !map.contains_key(k),
    ensures
        ascending(map, last) == ascending(map, first),
    decreases last - first,
{
    if first < last {
        assert(!map.contains_key(last as u64));
        nothing_between(map, first, last - 1);
    }
}

proof fn five_ascending(map: Map<u64, u64>)
    requires
        map.dom() == set![50u64, 75u64, 90u64, 95u64, 99u64],
    ensures
        ascending(map, u64::MAX as int) == seq![
            (50u64, map[50]),
            (75u64, map[75]),
            (90u64, map[90]),
            (95u64, map[95]),
            (99u64, map[99]),
        ],
{
    assert forall|k: u64| #[trigger] map.contains_key(k) implies k == 50 || k == 75 || k == 90 || k
        == 95 || k == 99 by {
        assert(map.dom().contains(k));
    }
    assert(map.dom().contains(50) && map.dom().contains(75) && map.dom().contains(90)
        && map.dom().contains(95) && map.dom().contains(99));
    nothing_between(map, -1, 49);
    nothing_between(map, 50, 74);
    nothing_between(map, 75, 89);
    nothing_between(map, 90, 94);
    nothing_between(map, 95, 98);
    nothing_between(map, 99, u64::MAX as int);
    let (a, b, c, d, e) = (
        ascending(map, 50),
        ascending(map, 75),
        ascending(map, 90),
        ascending(map, 95),
        ascending(map, 99),
    );
    assert(ascending(map, -1) == Seq::<(u64, u64)>::empty());
    assert(a == ascending(map, 49).push((50u64, map[50])));
    assert(b == a.push((75u64, map[75])));
    assert(c == b.push((90u64, map[90])));
    assert(d == c.push((95u64, map[95])));
    assert(e == d.push((99u64, map[99])));
    assert(e =~= seq![
        (50u64, map[50]),
        (75u64, map[75]),
        (90u64, map[90]),
        (95u64, map[95]),
        (99u64, map[99]),
    ]);
}

proof fn ascending_lists_the_map(map: Map<u64, u64>, last: int)
    requires
        -1 <= last <= u64::MAX,
    ensures
        ({
            let list = ascending(map, last);
            &&& forall|i: int|
                0 <= i < list.len() ==> map.contains_key((#[trigger] list[i]).0) && map[list[i].0]
                    == list[i].1 && list[i].0 <= last
            &&& forall|k: u64| #[trigger]
                map.contains_key(k) && k <= last ==> list.contains((k, map[k]))
            &&& forall|i: int, j: int|
                0 <= i < j < list.len() ==> (#[trigger] list[i]).0 < (#[trigger] list[j]).0
        }),
    decreases last + 1,
{
    if last >= 0 {
        ascending_lists_the_map(map, last - 1);
        let before = ascending(map, last - 1);
        let list = ascending(map, last);
        if map.contains_key(last as u64) {
            assert forall|k: u64| #[trigger] map.contains_key(k) && k <= last implies list.contains(
                (k, map[k]),
            ) by {
                if k == last {
                    assert(list[before.len() as int] == (k, map[k]));
                } else {
                    assert(before.contains((k, map[k])));
                    let i = choose|i: int| 0 <= i < before.len() && before[i] == (k, map[k]);
                    assert(list[i] == (k, map[k]));
                }
            }
        }
    }
}

/// Whether a list by numbers says how often each status was recorded, by
/// ascending numbers and each that was recorded once.
pub open spec fn says_statuses(list: Seq<(u64, CellView)>, all: Seq<Recorded>) -> bool {
    &&& forall|i: int, j: int|
        0 <= i < j < list.len() ==> (#[trigger] list[i]).0 < (#[trigger] list[j]).0
    &&& forall|i: int| 0 <= i < list.len() ==> (#[trigger] list[i]).0 <= 65535
    &&& forall|code: u16, n: u64| #[trigger]
        list.contains((code as u64, CellView::Count(n))) <==> n > 0 && n == how_many(
            all,
            has_status(code),
        )
}

/// The result says under `status_codes` how often each status was recorded.
pub proof fn result_says_the_statuses(
    r: RunResult,
    s: MetricsResult,
    duration_secs: u64,
    all: Seq<Recorded>,
    elapsed: Elapsed,
)
    requires
        is_result_of(r, s, duration_secs, all, elapsed),
    ensures
        exists|list: Seq<(u64, CellView)>| #[trigger]
            says_statuses(list, all) && result_dict(r).contains(
                ("status_codes"@, FieldView::ByNumber(list)),
            ),
{
    let dict = result_dict(r);
    let m = after_all(duration_secs, all);
    let map = codes_as_numbers(r.status_codes@);
    let numbers = ascending(map, u64::MAX as int);
    let list = numbers.map_values(|e: (u64, u64)| (e.0, CellView::Count(e.1)));
    ascending_lists_the_map(map, u64::MAX as int);
    entry_is_there(dict, 13, dict[13]);
    assert forall|i: int| 0 <= i < list.len() implies (#[trigger] list[i]).0 <= 65535 by {
        assert(map.contains_key(numbers[i].0));
    }
    assert forall|i: int, j: int| 0 <= i < j < list.len() implies (#[trigger] list[i]).0 < (
    #[trigger] list[j]).0 by {
        assert(numbers[i].0 < numbers[j].0);
    }
    assert forall|code: u16, n: u64| #[trigger]
        list.contains((code as u64, CellView::Count(n))) <==> n > 0 && n == how_many(
            all,
            has_status(code),
        ) by {
        counts_are_exact(duration_secs, all, code, 0, ConnError::Other);
        let k = code as u64;
        assert(map.contains_key(k) == m.status_codes.contains_key(code));
        if list.contains((k, CellView::Count(n))) {
            let i = choose|i: int| 0 <= i < list.len() && list[i] == (k, CellView::Count(n));
            assert(map.contains_key(numbers[i].0));
        }
        if n > 0 && n == how_many(all, has_status(code)) {
            assert(map.contains_key(k));
            assert(numbers.contains((k, map[k])));
            let i = choose|i: int| 0 <= i < numbers.len() && numbers[i] == (k, map[k]);
            assert(list[i] == (k, CellView::Count(n)));
        }
    }
    assert(says_statuses(list, all));
}

/// Whether a list by names says how often each category of failure was
/// recorded, under the names of the categories, each that was recorded once.
pub open spec fn says_errors(list: Seq<(Seq<char>, CellView)>, all: Seq<Recorded>) -> bool {
    &&& forall|i: int, j: int|
        0 <= i < j < list.len() ==> (#[trigger] list[i]).0 != (#[trigger] list[j]).0
    &&& forall|e: ConnError, n: u64| #[trigger]
        list.contains((name_of(e), CellView::Count(n))) <==> n > 0 && n == how_many(
            all,
            has_error(e),
        )
    &&& forall|i: int|
        0 <= i < list.len() ==> (exists|e: ConnError| (#[trigger] list[i]).0 == name_of(e))
            && list[i].1 is Count
}

/// The name of a category in the result.
pub open spec fn name_of(e: ConnError) -> Seq<char> {
    if e is Timeout {
        "timeout"@
    } else if e is Refused {
        "refused"@
    } else if e is Reset {
        "reset"@
    } else if e is Tls {
        "tls"@
    } else if e is Dns {
        "dns"@
    } else if e is Protocol {
        "protocol"@
    } else {
        "other"@
    }
}

/// The counts in a list by names, added up.
pub open spec fn sum_of(list: Seq<(Seq<char>, CellView)>) -> int
    decreases list.len(),
{
    if list.len() == 0 {
        0
    } else {
        sum_of(list.drop_last()) + (match list.last().1 {
            CellView::Count(n) => n as int,
            _ => 0,
        })
    }
}

/// The count in a list under a name.
spec fn count_under(list: Seq<(Seq<char>, CellView)>, name: Seq<char>) -> int
    decreases list.len(),
{
    if list.len() == 0 {
        0
    } else if list.last().0 == name {
        match list.last().1 {
            CellView::Count(n) => n as int,
            _ => 0,
        }
    } else {
        count_under(list.drop_last(), name)
    }
}

proof fn count_under_is_listed(list: Seq<(Seq<char>, CellView)>, name: Seq<char>)
    ensures
        (forall|i: int| 0 <= i < list.len() ==> (#[trigger] list[i]).0 != name) ==> count_under(
            list,
            name,
        ) == 0,
        (exists|i: int| 0 <= i < list.len() && (#[trigger] list[i]).0 == name) ==> exists|i: int|
            0 <= i < list.len() && (#[trigger] list[i]).0 == name && (list[i].1 matches
                CellView::Count(n) ==> count_under(list, name) == n),
    decreases list.len(),
{
    if list.len() > 0 {
        let rest = list.drop_last();
        let last = list.len() - 1;
        if list.last().0 == name {
            assert(list[last].0 == name);
        } else {
            count_under_is_listed(rest, name);
            assert(forall|i: int| 0 <= i < rest.len() ==> #[trigger] rest[i] == list[i]);
            if exists|i: int| 0 <= i < list.len() && (#[trigger] list[i]).0 == name {
                let k = choose|k: int| 0 <= k < list.len() && (#[trigger] list[k]).0 == name;
                assert(rest[k].0 == name);
                let i = choose|i: int|
                    0 <= i < rest.len() && (#[trigger] rest[i]).0 == name && (
                    rest[i].1 matches CellView::Count(n) ==> count_under(rest, name) == n);
                assert(list[i].0 == name);
            } else {
                assert forall|i: int| 0 <= i < rest.len() implies (#[trigger] rest[i]).0
                    != name by {
                    assert(list[i].0 != name);
                }
            }
        }
    }
}

proof fn sum_by_name(list: Seq<(Seq<char>, CellView)>)
    requires
        forall|i: int, j: int|
            0 <= i < j < list.len() ==> (#[trigger] list[i]).0 != (#[trigger] list[j]).0,
        forall|i: int|
            0 <= i < list.len() ==> exists|e: ConnError| (#[trigger] list[i]).0 == error_label(e),
    ensures
        sum_of(list) == count_under(list, error_label(ConnError::Timeout)) + count_under(
            list,
            error_label(ConnError::Dns),
        ) + count_under(list, error_label(ConnError::Refused)) + count_under(
            list,
            error_label(ConnError::Reset),
        ) + count_under(list, error_label(ConnError::Tls)) + count_under(
            list,
            error_label(ConnError::Protocol),
        ) + count_under(list, error_label(ConnError::Other)),
    decreases list.len(),
{
    if list.len() > 0 {
        let rest = list.drop_last();
        let last = list.len() - 1;
        let e = choose|e: ConnError| list[last].0 == error_label(e);
        assert(forall|i: int| 0 <= i < rest.len() ==> #[trigger] rest[i] == list[i]);
        assert forall|i: int| 0 <= i < rest.len() implies exists|e: ConnError|
            (#[trigger] rest[i]).0 == error_label(e) by {
            assert(rest[i] == list[i]);
        }
        sum_by_name(rest);
        assert forall|i: int| 0 <= i < rest.len() implies (#[trigger] rest[i]).0 != error_label(
            e,
        ) by {
            assert(list[i].0 != list[last].0);
        }
        count_under_is_listed(rest, error_label(e));
        others_differ(e);
        match e {
            ConnError::Timeout => {},
            ConnError::Refused => {},
            ConnError::Reset => {},
            ConnError::Tls => {},
            ConnError::Dns => {},
            ConnError::Protocol => {},
            ConnError::Other => {},
        }
    }
}

proof fn others_differ(e: ConnError)
    ensures
        forall|f: ConnError| f != e ==> #[trigger] error_label(f) != error_label(e),
{
    assert forall|f: ConnError| f != e implies #[trigger] error_label(f) != error_label(e) by {
        error_labels_differ(f, e);
    }
}

/// The result says under `errors` how often each category of failure was
/// recorded, and these counts add up to all failures that have a category.
pub proof fn result_says_the_errors(
    r: RunResult,
    s: MetricsResult,
    duration_secs: u64,
    all: Seq<Recorded>,
    elapsed: Elapsed,
)
    requires
        is_result_of(r, s, duration_secs, all, elapsed),
    ensures
        exists|list: Seq<(Seq<char>, CellView)>| #[trigger]
            says_errors(list, all) && sum_of(list) == how_many(all, has_some_error())
                && result_dict(r).contains(("errors"@, FieldView::ByName(list))),
{
    let dict = result_dict(r);
    let m = after_all(duration_secs, all);
    let counts = counts_view(r.errors@);
    let list = counts.map_values(|e: (Seq<char>, u64)| (e.0, CellView::Count(e.1)));
    entry_is_there(dict, 18, dict[18]);
    counts_are_exact(duration_secs, all, 0, 0, ConnError::Other);
    every_error_is_counted(duration_secs, all);
    assert forall|i: int, j: int| 0 <= i < j < list.len() implies (#[trigger] list[i]).0 != (
    #[trigger] list[j]).0 by {
        assert(counts[i].0 != counts[j].0);
    }
    assert forall|i: int| 0 <= i < list.len() implies (exists|e: ConnError|
        (#[trigger] list[i]).0 == error_label(e)) by {
        assert(m.errors.contains_key(counts[i].0));
    }
    assert forall|i: int| 0 <= i < list.len() implies (exists|e: ConnError|
        (#[trigger] list[i]).0 == name_of(e)) && list[i].1 is Count by {
        let e = choose|e: ConnError| list[i].0 == error_label(e);
        assert(list[i].0 == name_of(e));
    }
    assert forall|e: ConnError, n: u64| #[trigger]
        list.contains((name_of(e), CellView::Count(n))) <==> n > 0 && n == how_many(
            all,
            has_error(e),
        ) by {
        error_is_listed(counts, m.errors, e);
        counts_are_exact(duration_secs, all, 0, 0, e);
        let k = error_label(e);
        assert(k == name_of(e));
        if list.contains((k, CellView::Count(n))) {
            let i = choose|i: int| 0 <= i < list.len() && list[i] == (k, CellView::Count(n));
            assert(m.errors.contains_key(counts[i].0));
        }
        if n > 0 && n == how_many(all, has_error(e)) {
            let i = choose|i: int| 0 <= i < counts.len() && #[trigger] counts[i].0 == k;
            assert(list[i] == (k, CellView::Count(n)));
        }
    }
    sum_by_name(list);
    count_is_of_the_map(counts, list, m.errors, error_label(ConnError::Timeout));
    count_is_of_the_map(counts, list, m.errors, error_label(ConnError::Dns));
    count_is_of_the_map(counts, list, m.errors, error_label(ConnError::Refused));
    count_is_of_the_map(counts, list, m.errors, error_label(ConnError::Reset));
    count_is_of_the_map(counts, list, m.errors, error_label(ConnError::Tls));
    count_is_of_the_map(counts, list, m.errors, error_label(ConnError::Protocol));
    count_is_of_the_map(counts, list, m.errors, error_label(ConnError::Other));
    assert(says_errors(list, all));
}

proof fn error_is_listed(
    counts: Seq<(Seq<char>, u64)>,
    map: Map<Seq<char>, u64>,
    e: ConnError,
)
    requires
        lists(counts, map),
    ensures
        map.contains_key(error_label(e)) ==> exists|i: int|
            0 <= i < counts.len() && #[trigger] counts[i].0 == error_label(e),
{
}

proof fn count_is_of_the_map(
    counts: Seq<(Seq<char>, u64)>,
    list: Seq<(Seq<char>, CellView)>,
    map: Map<Seq<char>, u64>,
    name: Seq<char>,
)
    requires
        lists(counts, map),
        list == counts.map_values(|e: (Seq<char>, u64)| (e.0, CellView::Count(e.1))),
    ensures
        count_under(list, name) == count_in(map, name, 0),
{
    count_under_is_listed(list, name);
    if map.contains_key(name) {
        let k = choose|k: int| 0 <= k < counts.len() && #[trigger] counts[k].0 == name;
        assert(list[k].0 == name);
        let i = choose|i: int|
            0 <= i < list.len() && (#[trigger] list[i]).0 == name && (list[i].1 matches
                CellView::Count(n) ==> count_under(list, name) == n);
        assert(counts[i].0 == name);
    } else {
        assert forall|i: int| 0 <= i < list.len() implies (#[trigger] list[i]).0 != name by {
            assert(map.contains_key(counts[i].0));
        }
    }
}

/// In the result of a run of requests, of which each fails exactly if it has an
/// error and exactly if it has the status 0 in the end, the successes and the
/// failures make up the total; and the failures are the count of the status 0
/// and the sum of the errors.
pub proof fn result_of_requests_adds_up(
    r: RunResult,
    s: MetricsResult,
    duration_secs: u64,
    all: Seq<Recorded>,
    elapsed: Elapsed,
)
    requires
        is_result_of(r, s, duration_secs, all, elapsed),
        forall|i: int| #![trigger all[i]]
            0 <= i < all.len() ==> match all[i] {
                Recorded::Request { status, is_success, error, .. } => is_success == (status != 0)
                    && is_success == (error is None),
                Recorded::Checks { .. } => true,
                _ => false,
            },
    ensures
        exists|
            total: nat,
            success: nat,
            failed: nat,
            codes: Seq<(u64, CellView)>,
            errors: Seq<(Seq<char>, CellView)>,
        |
            {
                &&& #[trigger] says_count(result_dict(r), "total"@, total)
                &&& #[trigger] says_count(result_dict(r), "success"@, success)
                &&& #[trigger] says_count(result_dict(r), "failed"@, failed)
                &&& success + failed == total
                &&& #[trigger] result_dict(r).contains(
                    ("status_codes"@, FieldView::ByNumber(codes)),
                )
                &&& failed > 0 <==> codes.contains((0u64, CellView::Count(failed as u64)))
                &&& #[trigger] result_dict(r).contains(
                    ("errors"@, FieldView::ByName(errors)),
                )
                &&& sum_of(errors) == failed
            },
{
    let dict = result_dict(r);
    let total = how_many(all, is_counted());
    let success = how_many(all, is_good());
    let failed = how_many(all, is_bad());
    result_says_what_was_recorded(r, s, duration_secs, all, elapsed);
    result_says_the_statuses(r, s, duration_secs, all, elapsed);
    result_says_the_errors(r, s, duration_secs, all, elapsed);
    every_recording_succeeds_or_fails(all);
    requests_fail_with_the_status_0(all);
    let codes = choose|list: Seq<(u64, CellView)>| #[trigger]
        says_statuses(list, all) && result_dict(r).contains(
            ("status_codes"@, FieldView::ByNumber(list)),
        );
    let errors = choose|list: Seq<(Seq<char>, CellView)>| #[trigger]
        says_errors(list, all) && sum_of(list) == how_many(all, has_some_error())
            && result_dict(r).contains(("errors"@, FieldView::ByName(list)));
    assert(says_count(dict, "total"@, total) && says_count(dict, "success"@, success)
        && says_count(dict, "failed"@, failed));
    assert(codes.contains((0u16 as u64, CellView::Count(failed as u64))) <==> failed as u64 > 0
        && failed as u64 == how_many(all, has_status(0)));
    assert(dict.contains(("status_codes"@, FieldView::ByNumber(codes))));
    assert(dict.contains(("errors"@, FieldView::ByName(errors))));
}

proof fn requests_fail_with_the_status_0(all: Seq<Recorded>)
    requires
        forall|i: int| #![trigger all[i]]
            0 <= i < all.len() ==> match all[i] {
                Recorded::Request { status, is_success, error, .. } => is_success == (status != 0)
                    && is_success == (error is None),
                Recorded::Checks { .. } => true,
                _ => false,
            },
    ensures
        how_many(all, is_bad()) == how_many(all, has_status(0)),
        how_many(all, is_bad()) == how_many(all, has_some_error()),
        how_many(all, is_sent()) == 0,
        how_many(all, is_reply()) == 0,
        how_many(all, is_conn_failure()) == 0,
    decreases all.len(),
{
    if all.len() > 0 {
        let rest = all.drop_last();
        assert forall|i: int| #![trigger rest[i]] 0 <= i < rest.len() implies match rest[i] {
            Recorded::Request { status, is_success, error, .. } => is_success == (status != 0)
                && is_success == (error is None),
            Recorded::Checks { .. } => true,
            _ => false,
        } by {
            assert(rest[i] == all[i]);
        }
        requests_fail_with_the_status_0(rest);
        assert(all.last() == all[all.len() - 1]);
    }
}

/// The result says under `time_series` for each second that has begun, as far
/// as there are seconds, in their order: which one it is, and how many requests
/// counted, succeeded and failed in it; and, as long as they can be held, how
/// many bytes came in it and what the average latency was.
pub proof fn result_says_the_seconds(
    r: RunResult,
    s: MetricsResult,
    duration_secs: u64,
    all: Seq<Recorded>,
    elapsed: Elapsed,
)
    requires
        is_result_of(r, s, duration_secs, all, elapsed),
    ensures
        exists|rows: Seq<Seq<(Seq<char>, CellView)>>|
            {
                let n = if duration_secs > 0 {
                    duration_secs + 2
                } else {
                    3600
                };
                &&& #[trigger] result_dict(r).contains(
                    ("time_series"@, FieldView::Table(rows)),
                )
                &&& rows.len() == if elapsed.secs < n {
                    elapsed.secs + 1
                } else {
                    n
                }
                &&& forall|t: int|
                    0 <= t < rows.len() ==> says_second(#[trigger] rows[t], all, t, n)
            },
{
    let dict = result_dict(r);
    let m = after_all(duration_secs, all);
    let points = r.time_series@;
    let rows = points.map_values(|p: TimePoint| point_row(p));
    let n = m.seconds.len() as int;
    entry_is_there(dict, 17, dict[17]);
    totals_count_the_recordings(duration_secs, all);
    seconds_hold_their_own(duration_secs, all, 0);
    assert forall|t: int| 0 <= t < rows.len() implies says_second(
        #[trigger] rows[t],
        all,
        t,
        n,
    ) by {
        seconds_hold_their_own(duration_secs, all, t);
        let row = rows[t];
        assert(row == point_row(points[t]));
        assert(row[0] == row[0] && row[1] == row[1] && row[2] == row[2] && row[3] == row[3]
            && row[4] == row[4] && row[5] == row[5]);
        row_has(row, 0);
        row_has(row, 1);
        row_has(row, 2);
        row_has(row, 3);
        row_has(row, 4);
        row_has(row, 5);
    }
    assert(dict.contains(("time_series"@, FieldView::Table(rows))));
}

proof fn row_has(row: Seq<(Seq<char>, CellView)>, i: int)
    requires
        0 <= i < row.len(),
    ensures
        row.contains(row[i]),
{
}

/// Whether a row says what happened in a second.
pub open spec fn says_second(
    row: Seq<(Seq<char>, CellView)>,
    all: Seq<Recorded>,
    t: int,
    n: int,
) -> bool {
    &&& row.len() == 6
    &&& row.contains(("t"@, CellView::Count(t as u64)))
    &&& row.contains(("requests"@, CellView::Count(how_many(all, is_counted_in(t, n)) as u64)))
    &&& row.contains(("success"@, CellView::Count(how_many(all, is_good_in(t, n)) as u64)))
    &&& row.contains(("failed"@, CellView::Count(how_many(all, is_bad_in(t, n)) as u64)))
    &&& bytes_in(all, t, n) <= u64::MAX ==> row.contains(
        ("bytes"@, CellView::Count(bytes_in(all, t, n) as u64)),
    )
    &&& latencies_in(all, t, n) <= u64::MAX ==> row.contains(
        (
            "avg_ms"@,
            CellView::Millis(
                Millis {
                    sum_us: latencies_in(all, t, n) as u64,
                    count: how_many(all, is_timed_in(t, n)) as u64,
                },
            ),
        ),
    )
}

/// The result says under `check_failures` which assertions failed first, up to
/// a hundred of them, and of each the request, the check, what was expected and
/// what came instead.
pub proof fn result_says_what_failed(
    r: RunResult,
    s: MetricsResult,
    duration_secs: u64,
    all: Seq<Recorded>,
    elapsed: Elapsed,
)
    requires
        is_result_of(r, s, duration_secs, all, elapsed),
    ensures
        exists|rows: Seq<Seq<(Seq<char>, CellView)>>|
            {
                let failed = all_failures(all);
                &&& #[trigger] result_dict(r).contains(
                    ("check_failures"@, FieldView::Table(rows)),
                )
                &&& rows.len() == if failed.len() < 100 {
                    failed.len()
                } else {
                    100
                }
                &&& forall|i: int| 0 <= i < rows.len() ==> says_failure(#[trigger] rows[i], failed[i])
            },
{
    let dict = result_dict(r);
    let kept = failures_view(r.check_failures@);
    let rows = kept.map_values(|f: CheckFailureView| failure_row(f));
    a_hundred_failures_are_kept(duration_secs, all);
    entry_is_there(dict, 16, dict[16]);
    assert forall|i: int| 0 <= i < rows.len() implies says_failure(
        #[trigger] rows[i],
        all_failures(all)[i],
    ) by {
        let row = rows[i];
        assert(kept[i] == all_failures(all)[i]);
        assert(row == failure_row(kept[i]));
        row_has(row, 0);
        row_has(row, 1);
        row_has(row, 2);
        row_has(row, 3);
        row_has(row, 4);
    }
    assert(dict.contains(("check_failures"@, FieldView::Table(rows))));
}

/// Whether a row says what failed.
pub open spec fn says_failure(row: Seq<(Seq<char>, CellView)>, f: CheckFailureView) -> bool {
    &&& row.len() == 5
    &&& row.contains(("method"@, CellView::Text(f.method)))
    &&& row.contains(("path"@, CellView::Text(f.path)))
    &&& row.contains(("check"@, CellView::Text(f.check)))
    &&& row.contains(("expected"@, CellView::Text(f.expected)))
    &&& row.contains(("actual"@, CellView::Text(f.actual)))
}

}
