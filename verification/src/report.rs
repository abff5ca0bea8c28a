//! Rendering the final report.
//!
//! The table's pairs are wrapped into `WeatherStation` values, sorted by
//! key in ascending byte order, and formatted as
//! `{KEY=MIN/AVG/MAX, ...}` with one decimal place per number.

use vstd::prelude::*;
use crate::inline_string::InlineString;
use crate::reading::{push_reading, spec_format_reading};
use crate::summary::{sum_avg, sum_wf, SummaryView, TemperatureSummary};
use crate::table::WeatherStationTable;

verus! {

/// A named station with its finished summary: the report's sort unit.
pub struct WeatherStation {
    pub name: InlineString,
    pub summary: TemperatureSummary,
}

impl WeatherStation {
    pub fn new(name: InlineString, summary: TemperatureSummary) -> (r: Self)
        ensures
            r.name@ == name@,
            r.summary@ == summary@,
    {
        WeatherStation { name, summary }
    }
}

/// Ascending byte-lexicographic order: a proper prefix comes first, and
/// otherwise the first differing byte decides.
pub open spec fn lex_le(a: Seq<u8>, b: Seq<u8>) -> bool
    decreases a.len(),
{
    if a.len() == 0 {
        true
    } else if b.len() == 0 {
        false
    } else if a[0] < b[0] {
        true
    } else if a[0] > b[0] {
        false
    } else {
        lex_le(a.skip(1), b.skip(1))
    }
}

/// The order is total.
pub proof fn lemma_lex_le_total(a: Seq<u8>, b: Seq<u8>)
    ensures
        lex_le(a, b) || lex_le(b, a),
    decreases a.len(),
{
    if a.len() > 0 && b.len() > 0 && a[0] == b[0] {
        lemma_lex_le_total(a.skip(1), b.skip(1));
    }
}

/// The order is transitive.
pub proof fn lemma_lex_le_transitive(a: Seq<u8>, b: Seq<u8>, c: Seq<u8>)
    requires
        lex_le(a, b),
        lex_le(b, c),
    ensures
        lex_le(a, c),
    decreases a.len(),
{
    if a.len() > 0 && b.len() > 0 && c.len() > 0 && a[0] == b[0] && b[0] == c[0] {
        lemma_lex_le_transitive(a.skip(1), b.skip(1), c.skip(1));
    }
}

/// Compares two keys in byte-lexicographic order.
pub fn lex_le_keys(a: &InlineString, b: &InlineString) -> (r: bool)
    ensures
        r == lex_le(a@, b@),
{
    let alen = a.len();
    let blen = b.len();
    let mut i: usize = 0;
    proof {
        assert(a@.skip(0) =~= a@);
        assert(b@.skip(0) =~= b@);
    }
    loop
        invariant
            i <= alen,
            i <= blen,
            alen == a@.len(),
            blen == b@.len(),
            lex_le(a@, b@) == lex_le(a@.skip(i as int), b@.skip(i as int)),
            lex_le(b@, a@) == lex_le(b@.skip(i as int), a@.skip(i as int)),
        decreases alen - i,
    {
        if i == alen {
            return true;
        }
        if i == blen {
            return false;
        }
        let ab = a.byte_at(i);
        let bb = b.byte_at(i);
        proof {
            assert(a@.skip(i as int)[0] == a@[i as int]);
            assert(b@.skip(i as int)[0] == b@[i as int]);
            assert(a@.skip(i as int).skip(1) =~= a@.skip(i + 1));
            assert(b@.skip(i as int).skip(1) =~= b@.skip(i + 1));
        }
        if ab < bb {
            return true;
        }
        if ab > bb {
            return false;
        }
        i = i + 1;
    }
}

/// Inserting anywhere adds one occurrence to the sequence's multiset.
proof fn lemma_insert_to_multiset(s: Seq<WeatherStation>, p: int, w: WeatherStation)
    requires
        0 <= p <= s.len(),
    ensures
        s.insert(p, w).to_multiset() == s.to_multiset().insert(w),
{
    broadcast use vstd::seq_lib::group_to_multiset_ensures;

    let si = s.insert(p, w);
    assert(si.remove(p) =~= s);
    assert(si[p] == w);
    assert(s.to_multiset() =~= si.to_multiset().remove(w));
    assert(si.to_multiset().count(w) >= 1) by {
        assert(si.contains(w));
    }
    assert(s.to_multiset().insert(w) =~= si.to_multiset());
}

/// Sorts stations by name in ascending byte order, keeping the multiset of
/// stations.
pub fn sort_stations(v: &mut Vec<WeatherStation>)
    ensures
        final(v)@.len() == old(v)@.len(),
        forall|p: int, q: int|
            0 <= p < q < final(v)@.len() ==> lex_le(final(v)@[p].name@, final(v)@[q].name@),
        final(v)@.to_multiset() == old(v)@.to_multiset(),
{
    broadcast use vstd::seq_lib::group_to_multiset_ensures;

    let len = v.len();
    let mut i: usize = 1;
    while i < len && len > 0
        invariant
            1 <= i <= len || len == 0,
            len == v@.len(),
            forall|p: int, q: int| 0 <= p < q < i ==> lex_le(v@[p].name@, v@[q].name@),
            v@.to_multiset() == old(v)@.to_multiset(),
        decreases len - i,
    {
        let ghost whole = v@;
        let w = v.remove(i);
        let ghost before = v@;
        let mut p: usize = i;
        loop
            invariant
                p <= i,
                i < len,
                v@ == before,
                before.len() == len - 1,
                forall|q1: int, q2: int| 0 <= q1 < q2 < i ==> lex_le(v@[q1].name@, v@[q2].name@),
                forall|q: int| p <= q < i ==> lex_le(w.name@, v@[q].name@),
            ensures
                p <= i,
                v@ == before,
                forall|q: int| p <= q < i ==> lex_le(w.name@, before[q].name@),
                p > 0 ==> lex_le(before[p - 1].name@, w.name@),
            decreases p,
        {
            if p == 0 {
                break;
            }
            if lex_le_keys(&v[p - 1].name, &w.name) {
                break;
            }
            proof {
                lemma_lex_le_total(v@[p - 1].name@, w.name@);
            }
            p = p - 1;
        }
        v.insert(p, w);
        proof {
            assert forall|q1: int, q2: int|
                0 <= q1 < q2 < i + 1 implies lex_le(v@[q1].name@, v@[q2].name@) by {
                if q1 < p && q2 == p {
                    assert(v@[q1] == before[q1]);
                    if q1 < p - 1 {
                        lemma_lex_le_transitive(before[q1].name@, before[p - 1].name@, w.name@);
                    }
                } else if q1 == p {
                    assert(v@[q2] == before[q2 - 1]);
                } else if q1 < p && q2 > p {
                    assert(v@[q1] == before[q1] && v@[q2] == before[q2 - 1]);
                } else if q1 > p {
                    assert(v@[q1] == before[q1 - 1] && v@[q2] == before[q2 - 1]);
                } else {
                    assert(v@[q1] == before[q1] && v@[q2] == before[q2]);
                }
            }
            broadcast use vstd::seq_lib::group_to_multiset_ensures;

            lemma_insert_to_multiset(before, p as int, w);
            assert(before.to_multiset() == whole.to_multiset().remove(w)) by {
                assert(whole.remove(i as int).to_multiset() == whole.to_multiset().remove(
                    whole[i as int],
                ));
            };
            assert(whole.to_multiset().count(w) >= 1) by {
                assert(whole.contains(whole[i as int]));
            };
            assert(v@.to_multiset() =~= whole.to_multiset());
        }
        i = i + 1;
    }
}

/// One line of the report: `KEY=MIN/AVG/MAX`.
pub open spec fn spec_station_line(name: Seq<u8>, s: SummaryView) -> Seq<u8> {
    name + seq![61u8] + spec_format_reading(s.min) + seq![47u8] + spec_format_reading(sum_avg(s))
        + seq![47u8] + spec_format_reading(s.max)
}

/// The report's body: the stations' lines joined by `, `.
pub open spec fn spec_report_body(ws: Seq<WeatherStation>, n: int) -> Seq<u8>
    decreases n,
{
    if n <= 0 {
        Seq::empty()
    } else if n == 1 {
        spec_station_line(ws[0].name@, ws[0].summary@)
    } else {
        spec_report_body(ws, n - 1) + seq![44u8, 32u8] + spec_station_line(
            ws[n - 1].name@,
            ws[n - 1].summary@,
        )
    }
}

/// Renders the stations, in their current order, as `{...}` with each
/// summary shown as minimum, rounded average and maximum.
#[verifier::rlimit(100)]
pub fn format_report(stations: &Vec<WeatherStation>) -> (r: Vec<u8>)
    requires
        forall|p: int|
            0 <= p < stations@.len() ==> sum_wf((#[trigger] stations@[p]).summary@)
                && stations@[p].summary@.count >= 1,
    ensures
        r@ == seq![123u8] + spec_report_body(stations@, stations@.len() as int) + seq![125u8],
{
    let mut out: Vec<u8> = Vec::new();
    out.push(123);
    let len = stations.len();
    let mut p: usize = 0;
    while p < len
        invariant
            p <= len,
            len == stations@.len(),
            forall|q: int|
                0 <= q < stations@.len() ==> sum_wf((#[trigger] stations@[q]).summary@)
                    && stations@[q].summary@.count >= 1,
            out@ == seq![123u8] + spec_report_body(stations@, p as int),
        decreases len - p,
    {
        if p > 0 {
            out.push(44);
            out.push(32);
        }
        let ghost line_start = out@;
        let st = &stations[p];
        let name = &st.name;
        let nlen = name.len();
        let mut b: usize = 0;
        while b < nlen
            invariant
                b <= nlen,
                nlen == name@.len(),
                out@ == line_start + name@.take(b as int),
            decreases nlen - b,
        {
            out.push(name.byte_at(b));
            proof {
                assert(line_start + name@.take(b as int) + seq![name@[b as int]] =~= line_start
                    + name@.take(b + 1));
            }
            b = b + 1;
        }
        proof {
            assert(name@.take(nlen as int) =~= name@);
        }
        out.push(61);
        push_reading(&mut out, st.summary.min());
        out.push(47);
        let avg = st.summary.avg();
        push_reading(&mut out, avg);
        out.push(47);
        push_reading(&mut out, st.summary.max());
        proof {
            assert(out@ =~= seq![123u8] + spec_report_body(stations@, p + 1));
        }
        p = p + 1;
    }
    out.push(125);
    proof {
        assert(out@ =~= seq![123u8] + spec_report_body(stations@, len as int) + seq![125u8]);
    }
    out
}

/// Renders a table's report: its pairs, sorted by key ascending, formatted
/// and braced. The station sequence the body is built from carries exactly
/// the table's map, each key once, in ascending byte order.
pub fn render_report(table: &WeatherStationTable) -> (r: Vec<u8>)
    requires
        table.wf(),
    ensures
        exists|ws: Seq<WeatherStation>|
            {
                &&& r@ == seq![123u8] + spec_report_body(ws, ws.len() as int) + seq![125u8]
                &&& forall|p: int, q: int|
                    0 <= p < q < ws.len() ==> lex_le((#[trigger] ws[p]).name@, (#[trigger] ws[q]).name@)
                &&& forall|p: int, q: int|
                    0 <= p < q < ws.len() ==> ws[p].name@ != ws[q].name@
                &&& forall|p: int|
                    0 <= p < ws.len() ==> table@.dom().contains((#[trigger] ws[p]).name@)
                        && table@[ws[p].name@] == ws[p].summary@
                &&& forall|k: Seq<u8>|
                    #[trigger] table@.dom().contains(k) ==> exists|p: int|
                        0 <= p < ws.len() && (#[trigger] ws[p]).name@ == k
            },
{
    broadcast use vstd::seq_lib::group_to_multiset_ensures;

    let pairs = table.iter();
    let mut stations: Vec<WeatherStation> = Vec::new();
    let len = pairs.len();
    for p in 0..len
        invariant
            len == pairs@.len(),
            stations@.len() == p,
            forall|q: int|
                0 <= q < p ==> (#[trigger] stations@[q]).name@ == pairs@[q].0@ && stations@[q].summary@
                    == pairs@[q].1@,
            forall|q: int|
                0 <= q < pairs@.len() ==> {
                    &&& table@.dom().contains((#[trigger] pairs@[q]).0@)
                    &&& table@[pairs@[q].0@] == pairs@[q].1@
                    &&& sum_wf(pairs@[q].1@)
                    &&& pairs@[q].1@.count >= 1
                },
            forall|q1: int, q2: int| 0 <= q1 < q2 < pairs@.len() ==> pairs@[q1].0@ != pairs@[q2].0@,
            forall|k: Seq<u8>|
                #[trigger] table@.dom().contains(k) ==> exists|q: int|
                    0 <= q < pairs@.len() && (#[trigger] pairs@[q]).0@ == k,
    {
        let pair = &pairs[p];
        let name = pair.0.clone();
        stations.push(WeatherStation::new(name, pair.1));
    }
    let ghost unsorted = stations@;
    sort_stations(&mut stations);
    proof {
        assert forall|q: int|
            0 <= q < stations@.len() implies {
            &&& table@.dom().contains((#[trigger] stations@[q]).name@)
            &&& table@[stations@[q].name@] == stations@[q].summary@
            &&& sum_wf(stations@[q].summary@)
            &&& stations@[q].summary@.count >= 1
        } by {
            assert(stations@.to_multiset().count(stations@[q]) >= 1) by {
                assert(stations@.contains(stations@[q]));
            }
            assert(unsorted.to_multiset().count(stations@[q]) >= 1);
            assert(unsorted.contains(stations@[q]));
            let q0 = choose|q0: int| 0 <= q0 < unsorted.len() && unsorted[q0] == stations@[q];
            assert(unsorted[q0].name@ == pairs@[q0].0@);
        }
        assert forall|q1: int, q2: int|
            0 <= q1 < q2 < stations@.len() implies stations@[q1].name@ != stations@[q2].name@ by {
            lemma_sorted_unique(stations@, unsorted, pairs@, q1, q2);
        }
        assert forall|k: Seq<u8>| #[trigger] table@.dom().contains(k) implies exists|p2: int|
            0 <= p2 < stations@.len() && (#[trigger] stations@[p2]).name@ == k by {
            let q = choose|q: int| 0 <= q < pairs@.len() && (#[trigger] pairs@[q]).0@ == k;
            assert(unsorted[q].name@ == k);
            assert(unsorted.to_multiset().count(unsorted[q]) >= 1) by {
                assert(unsorted.contains(unsorted[q]));
            }
            assert(stations@.to_multiset().count(unsorted[q]) >= 1);
            assert(stations@.contains(unsorted[q]));
            let p2 = choose|p2: int| 0 <= p2 < stations@.len() && stations@[p2] == unsorted[q];
            assert(stations@[p2].name@ == k);
        }
    }
    let r = format_report(&stations);
    proof {
        let ws = stations@;
        assert(r@ == seq![123u8] + spec_report_body(ws, ws.len() as int) + seq![125u8]);
    }
    r
}

/// Two different positions of the sorted station sequence hold different
/// names: each station came from a distinct-keyed pair.
proof fn lemma_sorted_unique(
    sorted: Seq<WeatherStation>,
    unsorted: Seq<WeatherStation>,
    ps: Seq<(InlineString, TemperatureSummary)>,
    q1: int,
    q2: int,
)
    requires
        0 <= q1 < q2 < sorted.len(),
        sorted.to_multiset() == unsorted.to_multiset(),
        unsorted.len() == ps.len(),
        forall|q: int|
            0 <= q < unsorted.len() ==> (#[trigger] unsorted[q]).name@ == ps[q].0@
                && unsorted[q].summary@ == ps[q].1@,
        forall|p1: int, p2: int| 0 <= p1 < p2 < ps.len() ==> ps[p1].0@ != ps[p2].0@,
    ensures
        sorted[q1].name@ != sorted[q2].name@,
{
    broadcast use vstd::seq_lib::group_to_multiset_ensures;

    if sorted[q1].name@ == sorted[q2].name@ {
        let ms = sorted.to_multiset();
        assert(ms.count(sorted[q1]) >= 1) by {
            assert(sorted.contains(sorted[q1]));
        }
        assert(ms.count(sorted[q2]) >= 1) by {
            assert(sorted.contains(sorted[q2]));
        }
        if sorted[q1] == sorted[q2] {
            // The same value sits at two positions, so it occurs at least
            // twice, and must occur twice among the pairs as well.
            let removed = sorted.remove(q2);
            assert(removed.to_multiset() =~= ms.remove(sorted[q2]));
            assert(removed[q1] == sorted[q1]);
            assert(removed.contains(sorted[q1]));
            assert(removed.to_multiset().count(sorted[q1]) >= 1);
            assert(ms.count(sorted[q1]) >= 2);
            assert(unsorted.to_multiset().count(sorted[q1]) >= 2);
            lemma_two_occurrences(unsorted, sorted[q1]);
            let (u1, u2) = choose|u1: int, u2: int|
                0 <= u1 < u2 < unsorted.len() && unsorted[u1] == sorted[q1] && unsorted[u2]
                    == sorted[q1];
            assert(ps[u1].0@ == ps[u2].0@);
        } else {
            // Two different values with the same name both occur, so two
            // pair positions share the name.
            assert(unsorted.to_multiset().count(sorted[q1]) >= 1);
            assert(unsorted.contains(sorted[q1]));
            assert(unsorted.to_multiset().count(sorted[q2]) >= 1);
            assert(unsorted.contains(sorted[q2]));
            let u1 = choose|u: int| 0 <= u < unsorted.len() && unsorted[u] == sorted[q1];
            let u2 = choose|u: int| 0 <= u < unsorted.len() && unsorted[u] == sorted[q2];
            assert(u1 != u2);
            if u1 < u2 {
                assert(ps[u1].0@ != ps[u2].0@);
            } else {
                assert(ps[u2].0@ != ps[u1].0@);
            }
        }
    }
}

/// A multiset count of two within a sequence gives two positions.
proof fn lemma_two_occurrences(s: Seq<WeatherStation>, w: WeatherStation)
    requires
        s.to_multiset().count(w) >= 2,
    ensures
        exists|u1: int, u2: int| 0 <= u1 < u2 < s.len() && s[u1] == w && s[u2] == w,
    decreases s.len(),
{
    broadcast use vstd::seq_lib::group_to_multiset_ensures;

    assert(s.to_multiset().count(w) > 0);
    assert(s.contains(w));
    let u2 = choose|u: int| 0 <= u < s.len() && s[u] == w;
    let rest = s.remove(u2);
    assert(rest.to_multiset() =~= s.to_multiset().remove(w));
    assert(rest.to_multiset().count(w) >= 1);
    assert(rest.contains(w));
    let u1r = choose|u: int| 0 <= u < rest.len() && rest[u] == w;
    if u1r < u2 {
        assert(s[u1r] == rest[u1r]);
        assert(0 <= u1r < u2 < s.len() && s[u1r] == w && s[u2] == w);
    } else {
        assert(s[u1r + 1] == rest[u1r]);
        assert(0 <= u2 < u1r + 1 < s.len() && s[u2] == w && s[u1r + 1] == w);
    }
}

} // verus!
