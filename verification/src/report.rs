//! Ranking and reporting: sort completed probe results by latency, select
//! the fastest successful registry, and render the ranked report lines.
//!
//! The sort is a stable insertion sort: results with equal durations keep
//! their relative completion order.

use vstd::prelude::*;
use vstd::seq_lib::group_to_multiset_ensures;
use vstd::seq_lib::lemma_multiset_commutative;
use vstd::multiset::group_multiset_axioms;
use vstd::string::StringExecFns;
use crate::decimal::spec_decimal;
use crate::decimal::u64_to_decimal;
use crate::speed_test::ProbeRun;
use crate::speed_test::RankedResult;

verus! {

/// Sort key: the measured duration of a probe, in milliseconds.
pub open spec fn duration_of(r: RankedResult) -> u64 {
    r.result.response_time
}

/// Insert `x` after every element whose duration is at most `x`'s: the
/// insertion step of a stable insertion sort.
pub open spec fn insert_by_time(x: RankedResult, s: Seq<RankedResult>) -> Seq<RankedResult>
    decreases s.len(),
{
    if s.len() == 0 {
        seq![x]
    } else if duration_of(s[0]) <= duration_of(x) {
        seq![s[0]] + insert_by_time(x, s.drop_first())
    } else {
        seq![x] + s
    }
}

/// Stable sort by ascending duration: elements are processed left to right,
/// so elements with equal durations keep their original relative order.
pub open spec fn sort_by_time_spec(s: Seq<RankedResult>) -> Seq<RankedResult>
    decreases s.len(),
{
    if s.len() == 0 {
        Seq::empty()
    } else {
        insert_by_time(s.last(), sort_by_time_spec(s.drop_last()))
    }
}

/// Durations never decrease along the sequence.
pub open spec fn sorted_by_time(s: Seq<RankedResult>) -> bool {
    forall|i: int, j: int| 0 <= i < j < s.len() ==> duration_of(s[i]) <= duration_of(s[j])
}

/// `b` is at most every duration in `s`.
pub open spec fn time_lower_bound(b: u64, s: Seq<RankedResult>) -> bool {
    forall|i: int| 0 <= i < s.len() ==> b <= duration_of(#[trigger] s[i])
}

/// Inserting preserves the elements: the result holds exactly the elements
/// of `s` plus `x`.
pub proof fn lemma_insert_by_time_multiset(x: RankedResult, s: Seq<RankedResult>)
    ensures
        insert_by_time(x, s).to_multiset() =~= s.to_multiset().insert(x),
    decreases s.len(),
{
    broadcast use group_to_multiset_ensures;
    broadcast use group_multiset_axioms;

    if s.len() == 0 {
        assert(insert_by_time(x, s) =~= Seq::<RankedResult>::empty().push(x));
        assert(s =~= Seq::<RankedResult>::empty());
    } else if duration_of(s[0]) <= duration_of(x) {
        lemma_insert_by_time_multiset(x, s.drop_first());
        lemma_multiset_commutative(seq![s[0]], insert_by_time(x, s.drop_first()));
        lemma_multiset_commutative(seq![s[0]], s.drop_first());
        assert(s =~= seq![s[0]] + s.drop_first());
        assert(seq![s[0]] =~= Seq::<RankedResult>::empty().push(s[0]));
    } else {
        lemma_multiset_commutative(seq![x], s);
        assert(seq![x] =~= Seq::<RankedResult>::empty().push(x));
    }
}

/// Inserting into a sorted sequence keeps it sorted, and keeps any duration
/// bound that also bounds the inserted element.
pub proof fn lemma_insert_by_time_sorted(x: RankedResult, s: Seq<RankedResult>)
    requires
        sorted_by_time(s),
    ensures
        sorted_by_time(insert_by_time(x, s)),
        forall|b: u64|
            time_lower_bound(b, s) && b <= duration_of(x) ==> #[trigger] time_lower_bound(
                b,
                insert_by_time(x, s),
            ),
    decreases s.len(),
{
    if s.len() == 0 {
    } else if duration_of(s[0]) <= duration_of(x) {
        assert(sorted_by_time(s.drop_first()));
        lemma_insert_by_time_sorted(x, s.drop_first());
        let t = insert_by_time(x, s.drop_first());
        let r = seq![s[0]] + t;
        assert(time_lower_bound(duration_of(s[0]), s.drop_first()));
        assert(time_lower_bound(duration_of(s[0]), t));
        assert forall|i: int, j: int| 0 <= i < j < r.len() implies duration_of(r[i])
            <= duration_of(r[j]) by {
            if i == 0 {
                assert(r[j] == t[j - 1]);
            } else {
                assert(r[i] == t[i - 1] && r[j] == t[j - 1]);
            }
        }
    } else {
        let r = seq![x] + s;
        assert forall|i: int, j: int| 0 <= i < j < r.len() implies duration_of(r[i])
            <= duration_of(r[j]) by {
            if i == 0 {
                assert(r[j] == s[j - 1]);
                assert(duration_of(x) <= duration_of(s[0]));
                if j > 1 {
                    assert(duration_of(s[0]) <= duration_of(s[j - 1]));
                }
            } else {
                assert(r[i] == s[i - 1] && r[j] == s[j - 1]);
            }
        }
    }
}

/// What the sort yields: the same elements, in ascending duration order,
/// with the length unchanged.
pub proof fn lemma_sort_by_time_spec_ensures(s: Seq<RankedResult>)
    ensures
        sorted_by_time(sort_by_time_spec(s)),
        sort_by_time_spec(s).to_multiset() =~= s.to_multiset(),
        sort_by_time_spec(s).len() == s.len(),
    decreases s.len(),
{
    broadcast use group_to_multiset_ensures;
    broadcast use group_multiset_axioms;

    if s.len() == 0 {
    } else {
        lemma_sort_by_time_spec_ensures(s.drop_last());
        lemma_insert_by_time_sorted(s.last(), sort_by_time_spec(s.drop_last()));
        lemma_insert_by_time_multiset(s.last(), sort_by_time_spec(s.drop_last()));
        assert(s =~= s.drop_last().push(s.last()));
        assert(s.drop_last().push(s.last()).to_multiset() =~= s.drop_last().to_multiset().insert(
            s.last(),
        ));
        assert(sort_by_time_spec(s).len() == sort_by_time_spec(s).to_multiset().len());
        assert(s.len() == s.to_multiset().len());
    }
}

/// An element no shorter than everything present is inserted at the end.
pub proof fn lemma_insert_by_time_at_end(x: RankedResult, s: Seq<RankedResult>)
    requires
        forall|i: int| 0 <= i < s.len() ==> duration_of(#[trigger] s[i]) <= duration_of(x),
    ensures
        insert_by_time(x, s) == s.push(x),
    decreases s.len(),
{
    if s.len() == 0 {
        assert(insert_by_time(x, s) =~= s.push(x));
    } else {
        lemma_insert_by_time_at_end(x, s.drop_first());
        assert(insert_by_time(x, s) =~= s.push(x));
    }
}

/// Law: sorting an already-sorted sequence of results again yields the very
/// same sequence — the sort is idempotent.
pub proof fn lemma_sort_idempotent(s: Seq<RankedResult>)
    requires
        sorted_by_time(s),
    ensures
        sort_by_time_spec(s) == s,
    decreases s.len(),
{
    if s.len() == 0 {
        assert(sort_by_time_spec(s) =~= s);
    } else {
        assert(sorted_by_time(s.drop_last()));
        lemma_sort_idempotent(s.drop_last());
        lemma_insert_by_time_at_end(s.last(), s.drop_last());
        assert(s.drop_last().push(s.last()) =~= s);
    }
}

/// Inserting before the first strictly longer element realises the abstract
/// insertion step.
proof fn lemma_insert_by_time_at_position(x: RankedResult, s: Seq<RankedResult>, p: int)
    requires
        0 <= p <= s.len(),
        forall|i: int| 0 <= i < p ==> duration_of(#[trigger] s[i]) <= duration_of(x),
        p < s.len() ==> duration_of(s[p]) > duration_of(x),
    ensures
        insert_by_time(x, s) == s.insert(p, x),
    decreases p,
{
    if p == 0 {
        if s.len() == 0 {
            assert(insert_by_time(x, s) =~= s.insert(0, x));
        } else {
            assert(duration_of(s[0]) > duration_of(x));
            assert(insert_by_time(x, s) =~= s.insert(0, x));
        }
    } else {
        assert(duration_of(s[0]) <= duration_of(x));
        lemma_insert_by_time_at_position(x, s.drop_first(), p - 1);
        assert(seq![s[0]] + s.drop_first().insert(p - 1, x) =~= s.insert(p, x));
    }
}

fn insert_sorted_vec(v: Vec<RankedResult>, x: RankedResult) -> (r: Vec<RankedResult>)
    ensures
        r@ == insert_by_time(x, v@),
{
    let mut out = v;
    let mut p: usize = 0;
    while p < out.len() && out[p].result.response_time <= x.result.response_time
        invariant
            p <= out@.len(),
            forall|i: int| 0 <= i < p ==> duration_of(#[trigger] out@[i]) <= duration_of(x),
        decreases out@.len() - p,
    {
        p = p + 1;
    }
    proof {
        lemma_insert_by_time_at_position(x, out@, p as int);
    }
    out.insert(p, x);
    out
}

/// Sort results ascending by duration with a stable insertion sort.
pub fn sort_results(v: &Vec<RankedResult>) -> (r: Vec<RankedResult>)
    ensures
        r@ == sort_by_time_spec(v@),
{
    let mut out: Vec<RankedResult> = Vec::new();
    let mut i: usize = 0;
    while i < v.len()
        invariant
            i <= v@.len(),
            out@ == sort_by_time_spec(v@.take(i as int)),
        decreases v@.len() - i,
    {
        let x = v[i].clone();
        out = insert_sorted_vec(out, x);
        proof {
            assert(v@.take(i as int + 1).drop_last() =~= v@.take(i as int));
            assert(v@.take(i as int + 1).last() == v@[i as int]);
        }
        i = i + 1;
    }
    proof {
        assert(v@.take(v@.len() as int) =~= v@);
    }
    out
}

/// Some result in `s` succeeded.
pub open spec fn spec_has_success(s: Seq<RankedResult>) -> bool {
    exists|i: int| 0 <= i < s.len() && (#[trigger] s[i].result.is_success)
}

/// `i` indexes the first successful result with minimal duration among all
/// successful results of `s`.
pub open spec fn is_fastest_success(s: Seq<RankedResult>, i: int) -> bool {
    &&& 0 <= i < s.len()
    &&& s[i].result.is_success
    &&& forall|j: int|
        0 <= j < s.len() && (#[trigger] s[j].result.is_success) ==> duration_of(s[i])
            <= duration_of(s[j])
    &&& forall|j: int|
        0 <= j < i && (#[trigger] s[j].result.is_success) ==> duration_of(s[j]) > duration_of(
            s[i],
        )
}

/// Select the fastest successful result: its index, or `None` when nothing
/// succeeded. Selection is by duration among successes only; a result that
/// failed can never be selected, however fast it failed.
pub fn fastest_index(results: &Vec<RankedResult>) -> (r: Option<usize>)
    ensures
        match r {
            Option::Some(i) => is_fastest_success(results@, i as int),
            Option::None => !spec_has_success(results@),
        },
        r is Some <==> spec_has_success(results@),
{
    let mut best: Option<usize> = None;
    let mut k: usize = 0;
    while k < results.len()
        invariant
            k <= results@.len(),
            best is None ==> forall|j: int|
                0 <= j < k ==> !(#[trigger] results@[j].result.is_success),
            best matches Some(b) ==> {
                &&& 0 <= (b as int) < k
                &&& results@[b as int].result.is_success
                &&& forall|j: int|
                    0 <= j < k && (#[trigger] results@[j].result.is_success) ==> duration_of(
                        results@[b as int],
                    ) <= duration_of(results@[j])
                &&& forall|j: int|
                    0 <= j < b as int && (#[trigger] results@[j].result.is_success) ==> duration_of(
                        results@[j],
                    ) > duration_of(results@[b as int])
            },
        decreases results@.len() - k,
    {
        if results[k].result.is_success {
            match best {
                Option::None => {
                    best = Some(k);
                },
                Option::Some(b) => {
                    if results[k].result.response_time < results[b].result.response_time {
                        best = Some(k);
                    }
                },
            }
        }
        k = k + 1;
    }
    best
}

/// The glyph that marks one probe's outcome on its report line.
pub open spec fn glyph_of(success: bool) -> Seq<char> {
    if success {
        "✓"@
    } else {
        "✗"@
    }
}

/// One report line: rank, outcome glyph, registry name, and the
/// millisecond-rounded time (recorded even for failures, so a user can see
/// how long a failing registry took to fail).
pub open spec fn rendered_line(r: RankedResult) -> Seq<char> {
    spec_decimal(r.rank as nat) + " "@ + glyph_of(r.result.is_success) + " "@ + r.result.name@
        + " -> "@ + spec_decimal(r.result.response_time as nat) + "ms"@
}

/// The closing line naming the fastest successful registry.
pub open spec fn headline_text(r: RankedResult) -> Seq<char> {
    "Fastest registry is "@ + r.result.name@ + " ("@ + spec_decimal(
        r.result.response_time as nat,
    ) + "ms)"@
}

/// Render a duration as a whole number of milliseconds.
pub fn format_time(ms: u64) -> (s: String)
    ensures
        s@ == spec_decimal(ms as nat) + "ms"@,
{
    let mut s = u64_to_decimal(ms);
    s.append("ms");
    s
}

/// Render one result as its report line.
pub fn render_line(r: &RankedResult) -> (line: String)
    ensures
        line@ == rendered_line(*r),
{
    let mut line = u64_to_decimal(r.rank as u64);
    line.append(" ");
    if r.result.is_success {
        line.append("✓");
    } else {
        line.append("✗");
    }
    line.append(" ");
    line.append(r.result.name.as_str());
    line.append(" -> ");
    line.append(format_time(r.result.response_time).as_str());
    proof {
        assert(line@ =~= rendered_line(*r));
    }
    line
}

/// Render the closing headline for the fastest successful result.
pub fn render_headline(r: &RankedResult) -> (line: String)
    ensures
        line@ == headline_text(*r),
{
    let mut line = String::from_str("Fastest registry is ");
    line.append(r.result.name.as_str());
    line.append(" (");
    line.append(format_time(r.result.response_time).as_str());
    line.append(")");
    proof {
        reveal_strlit("ms");
        reveal_strlit(")");
        reveal_strlit("ms)");
        assert("ms"@ + ")"@ =~= "ms)"@);
        assert(line@ =~= headline_text(*r));
    }
    line
}

/// One sequence has a success exactly when a sequence with the same
/// elements has one.
proof fn lemma_has_success_multiset(a: Seq<RankedResult>, b: Seq<RankedResult>)
    requires
        a.to_multiset() =~= b.to_multiset(),
    ensures
        spec_has_success(a) <==> spec_has_success(b),
{
    broadcast use group_to_multiset_ensures;

    if spec_has_success(a) {
        let i = choose|i: int| 0 <= i < a.len() && (#[trigger] a[i].result.is_success);
        assert(a.contains(a[i]));
        assert(b.to_multiset().count(a[i]) > 0);
        assert(b.contains(a[i]));
        let j = choose|j: int| 0 <= j < b.len() && b[j] == a[i];
        assert(b[j].result.is_success);
    }
    if spec_has_success(b) {
        let i = choose|i: int| 0 <= i < b.len() && (#[trigger] b[i].result.is_success);
        assert(b.contains(b[i]));
        assert(a.to_multiset().count(b[i]) > 0);
        assert(a.contains(b[i]));
        let j = choose|j: int| 0 <= j < a.len() && a[j] == b[i];
        assert(a[j].result.is_success);
    }
}

/// `h` is the headline text for the fastest successful result of `sorted`.
pub open spec fn headline_names_fastest(sorted: Seq<RankedResult>, h: Seq<char>) -> bool {
    exists|i: int| #[trigger] is_fastest_success(sorted, i) && h == headline_text(sorted[i])
}

/// A rendered speed report: the run's results sorted ascending by duration,
/// one line per result, and the optional closing headline naming the
/// fastest successful registry.
pub struct Report {
    pub sorted: Vec<RankedResult>,
    pub lines: Vec<String>,
    pub headline: Option<String>,
}

/// Build the report for one completed run: sort by duration, render one
/// line per result, and name the fastest successful registry — or render no
/// headline at all when every probe failed, and an entirely empty report
/// for an empty run.
pub fn report(run: &ProbeRun) -> (rep: Report)
    ensures
        rep.sorted@ == sort_by_time_spec(run@),
        rep.lines@.len() == run@.len(),
        forall|i: int|
            0 <= i < rep.lines@.len() ==> (#[trigger] rep.lines@[i]@) == rendered_line(
                rep.sorted@[i],
            ),
        rep.headline is Some <==> spec_has_success(run@),
        rep.headline matches Some(h) ==> headline_names_fastest(rep.sorted@, h@),
{
    let sorted = sort_results(run.results());
    proof {
        lemma_sort_by_time_spec_ensures(run@);
        lemma_has_success_multiset(sorted@, run@);
    }
    let mut lines: Vec<String> = Vec::new();
    let mut i: usize = 0;
    while i < sorted.len()
        invariant
            i <= sorted@.len(),
            lines@.len() == i,
            forall|j: int|
                0 <= j < i ==> (#[trigger] lines@[j]@) == rendered_line(sorted@[j]),
        decreases sorted@.len() - i,
    {
        let line = render_line(&sorted[i]);
        lines.push(line);
        i = i + 1;
    }
    let headline = match fastest_index(&sorted) {
        Option::Some(f) => {
            let h = render_headline(&sorted[f]);
            proof {
                assert(is_fastest_success(sorted@, f as int) && h@ == headline_text(
                    sorted@[f as int],
                ));
                assert(headline_names_fastest(sorted@, h@));
            }
            Option::Some(h)
        },
        Option::None => Option::None,
    };
    Report { sorted, lines, headline }
}

/// Law: an empty run yields an empty report — zero lines and no fastest
/// headline.
pub proof fn lemma_empty_run_reports_nothing(s: Seq<RankedResult>)
    requires
        s.len() == 0,
    ensures
        sort_by_time_spec(s).len() == 0,
        !spec_has_success(s),
{
    lemma_sort_by_time_spec_ensures(s);
}

/// Law: when every probe failed, the report still carries one line per
/// result — each showing its time to failure — but no fastest headline.
pub proof fn lemma_all_failed_no_headline(s: Seq<RankedResult>)
    requires
        forall|i: int| 0 <= i < s.len() ==> !(#[trigger] s[i].result.is_success),
    ensures
        sort_by_time_spec(s).len() == s.len(),
        !spec_has_success(s),
{
    lemma_sort_by_time_spec_ensures(s);
}

/// Law: the fastest selection is by duration among successes, not by
/// completion order — the selected result succeeded, and no successful
/// result anywhere in the unsorted run was strictly faster.
pub proof fn lemma_fastest_beats_every_success(results: Seq<RankedResult>, i: int)
    requires
        is_fastest_success(sort_by_time_spec(results), i),
    ensures
        sort_by_time_spec(results)[i].result.is_success,
        forall|j: int|
            0 <= j < results.len() && (#[trigger] results[j].result.is_success) ==> duration_of(
                sort_by_time_spec(results)[i],
            ) <= duration_of(results[j]),
{
    broadcast use group_to_multiset_ensures;

    lemma_sort_by_time_spec_ensures(results);
    let sorted = sort_by_time_spec(results);
    assert forall|j: int|
        0 <= j < results.len() && (#[trigger] results[j].result.is_success) implies duration_of(
        sorted[i],
    ) <= duration_of(results[j]) by {
        assert(results.contains(results[j]));
        assert(sorted.to_multiset().count(results[j]) > 0);
        assert(sorted.contains(results[j]));
        let k = choose|k: int| 0 <= k < sorted.len() && sorted[k] == results[j];
        assert(sorted[k].result.is_success);
    }
}

} // verus!
