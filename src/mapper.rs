//! Publishing a snapshot: each channel's readings become gauge values under
//! the channel's label tuple, overwriting what that tuple held before.

use crate::channel::{ChannelSnapshot, DownstreamView, SnapshotView, UpstreamView};
use crate::registry::{LabelKey, MetricRegistry, Series};
use crate::text::{decimal_text, lemma_decimal_text_injective, push_decimal, string_of};
use vstd::prelude::*;

verus! {

pub open spec fn down_key(series: Series, d: DownstreamView) -> LabelKey {
    (series, decimal_text(d.channel as nat), d.modulation, d.lock_status)
}

pub open spec fn up_key(series: Series, u: UpstreamView) -> LabelKey {
    (series, decimal_text(u.channel as nat), u.us_channel_type, u.lock_status)
}

/// The six gauges of a downstream channel, set in `m`.
pub open spec fn write_downstream(m: Map<LabelKey, Seq<char>>, d: DownstreamView) -> Map<
    LabelKey,
    Seq<char>,
> {
    m.insert(down_key(Series::DownstreamFrequency, d), d.frequency).insert(
        down_key(Series::DownstreamPower, d),
        d.power,
    ).insert(down_key(Series::DownstreamSnr, d), d.snr).insert(
        down_key(Series::DownstreamSymbolRate, d),
        d.symbol_rate,
    ).insert(down_key(Series::DownstreamCorrectables, d), d.correctables).insert(
        down_key(Series::DownstreamUncorrectables, d),
        d.uncorrectables,
    )
}

/// The three gauges of an upstream channel, set in `m`.
pub open spec fn write_upstream(m: Map<LabelKey, Seq<char>>, u: UpstreamView) -> Map<
    LabelKey,
    Seq<char>,
> {
    m.insert(up_key(Series::UpstreamFrequency, u), u.frequency).insert(
        up_key(Series::UpstreamPower, u),
        u.power,
    ).insert(up_key(Series::UpstreamSymbolRate, u), u.symbol_rate)
}

pub open spec fn publish_downstream(m: Map<LabelKey, Seq<char>>, ds: Seq<DownstreamView>) -> Map<
    LabelKey,
    Seq<char>,
>
    decreases ds.len(),
{
    if ds.len() == 0 {
        m
    } else {
        write_downstream(publish_downstream(m, ds.drop_last()), ds.last())
    }
}

pub open spec fn publish_upstream(m: Map<LabelKey, Seq<char>>, us: Seq<UpstreamView>) -> Map<
    LabelKey,
    Seq<char>,
>
    decreases us.len(),
{
    if us.len() == 0 {
        m
    } else {
        write_upstream(publish_upstream(m, us.drop_last()), us.last())
    }
}

/// The gauge values after publishing `s` over `m`: downstream channels
/// first, then upstream ones, each in snapshot order.
pub open spec fn published(m: Map<LabelKey, Seq<char>>, s: SnapshotView) -> Map<
    LabelKey,
    Seq<char>,
> {
    publish_upstream(publish_downstream(m, s.downstream), s.upstream)
}

/// The channel label: the id in decimal.
pub fn channel_label(channel: u16) -> (r: String)
    ensures
        r@ == decimal_text(channel as nat),
{
    let mut v: Vec<char> = Vec::new();
    push_decimal(channel, &mut v);
    assert(v@ =~= decimal_text(channel as nat));
    string_of(&v)
}

/// Sets every gauge of every channel of `snapshot` in `registry`.
pub fn publish(snapshot: &ChannelSnapshot, registry: &mut MetricRegistry)
    requires
        old(registry).wf(),
    ensures
        final(registry).wf(),
        final(registry)@ == published(old(registry)@, snapshot@),
{
    let ghost start = registry@;
    let ghost ds = snapshot@.downstream;
    let ghost us = snapshot@.upstream;
    let mut i: usize = 0;
    while i < snapshot.downstream.len()
        invariant
            i <= snapshot.downstream@.len(),
            ds == snapshot@.downstream,
            registry.wf(),
            registry@ == publish_downstream(start, ds.take(i as int)),
        decreases snapshot.downstream@.len() - i,
    {
        let d = &snapshot.downstream[i];
        let ch = channel_label(d.channel);
        registry.set(Series::DownstreamFrequency, &ch, &d.modulation, &d.lock_status, &d.frequency);
        registry.set(Series::DownstreamPower, &ch, &d.modulation, &d.lock_status, &d.power);
        registry.set(Series::DownstreamSnr, &ch, &d.modulation, &d.lock_status, &d.snr);
        registry.set(
            Series::DownstreamSymbolRate,
            &ch,
            &d.modulation,
            &d.lock_status,
            &d.symbol_rate,
        );
        registry.set(
            Series::DownstreamCorrectables,
            &ch,
            &d.modulation,
            &d.lock_status,
            &d.correctables,
        );
        registry.set(
            Series::DownstreamUncorrectables,
            &ch,
            &d.modulation,
            &d.lock_status,
            &d.uncorrectables,
        );
        assert(ds.take(i + 1).drop_last() =~= ds.take(i as int));
        assert(ds[i as int] == d@);
        i = i + 1;
    }
    assert(ds.take(ds.len() as int) =~= ds);
    let ghost mid = registry@;
    let mut i: usize = 0;
    while i < snapshot.upstream.len()
        invariant
            i <= snapshot.upstream@.len(),
            us == snapshot@.upstream,
            registry.wf(),
            registry@ == publish_upstream(mid, us.take(i as int)),
        decreases snapshot.upstream@.len() - i,
    {
        let u = &snapshot.upstream[i];
        let ch = channel_label(u.channel);
        registry.set(Series::UpstreamFrequency, &ch, &u.us_channel_type, &u.lock_status, &u.frequency);
        registry.set(Series::UpstreamPower, &ch, &u.us_channel_type, &u.lock_status, &u.power);
        registry.set(
            Series::UpstreamSymbolRate,
            &ch,
            &u.us_channel_type,
            &u.lock_status,
            &u.symbol_rate,
        );
        assert(us.take(i + 1).drop_last() =~= us.take(i as int));
        assert(us[i as int] == u@);
        i = i + 1;
    }
    assert(us.take(us.len() as int) =~= us);
}

proof fn lemma_publish_downstream_over(
    m: Map<LabelKey, Seq<char>>,
    w: Map<LabelKey, Seq<char>>,
    ds: Seq<DownstreamView>,
)
    ensures
        publish_downstream(m.union_prefer_right(w), ds) == m.union_prefer_right(
            publish_downstream(w, ds),
        ),
    decreases ds.len(),
{
    if ds.len() > 0 {
        lemma_publish_downstream_over(m, w, ds.drop_last());
        let p = publish_downstream(w, ds.drop_last());
        assert(write_downstream(m.union_prefer_right(p), ds.last()) =~= m.union_prefer_right(
            write_downstream(p, ds.last()),
        ));
    }
}

proof fn lemma_publish_upstream_over(
    m: Map<LabelKey, Seq<char>>,
    w: Map<LabelKey, Seq<char>>,
    us: Seq<UpstreamView>,
)
    ensures
        publish_upstream(m.union_prefer_right(w), us) == m.union_prefer_right(
            publish_upstream(w, us),
        ),
    decreases us.len(),
{
    if us.len() > 0 {
        lemma_publish_upstream_over(m, w, us.drop_last());
        let p = publish_upstream(w, us.drop_last());
        assert(write_upstream(m.union_prefer_right(p), us.last()) =~= m.union_prefer_right(
            write_upstream(p, us.last()),
        ));
    }
}

/// Publishing overwrites exactly the series that the snapshot itself sets:
/// the result is the earlier values overridden by a publish into an empty
/// registry.
pub proof fn lemma_published_overrides(m: Map<LabelKey, Seq<char>>, s: SnapshotView)
    ensures
        published(m, s) == m.union_prefer_right(published(Map::empty(), s)),
{
    let e = Map::<LabelKey, Seq<char>>::empty();
    assert(m.union_prefer_right(e) =~= m);
    lemma_publish_downstream_over(m, e, s.downstream);
    let d = publish_downstream(e, s.downstream);
    assert(publish_downstream(m, s.downstream) == m.union_prefer_right(d));
    lemma_publish_upstream_over(m, d, s.upstream);
}

/// Publishing the same snapshot twice leaves the same gauge values as
/// publishing it once: nothing accumulates.
pub proof fn lemma_publish_idempotent(m: Map<LabelKey, Seq<char>>, s: SnapshotView)
    ensures
        published(published(m, s), s) == published(m, s),
{
    let w = published(Map::empty(), s);
    lemma_published_overrides(m, s);
    lemma_published_overrides(published(m, s), s);
    assert(m.union_prefer_right(w).union_prefer_right(w) =~= m.union_prefer_right(w));
}

pub open spec fn is_downstream_series(s: Series) -> bool {
    s == Series::DownstreamFrequency || s == Series::DownstreamPower || s == Series::DownstreamSnr
        || s == Series::DownstreamSymbolRate || s == Series::DownstreamCorrectables || s
        == Series::DownstreamUncorrectables
}

pub open spec fn is_upstream_series(s: Series) -> bool {
    s == Series::UpstreamFrequency || s == Series::UpstreamPower || s == Series::UpstreamSymbolRate
}

/// Does `k` carry the labels of downstream channel `d`?
pub open spec fn labels_of_down(k: LabelKey, d: DownstreamView) -> bool {
    k.1 == decimal_text(d.channel as nat) && k.2 == d.modulation && k.3 == d.lock_status
}

pub open spec fn labels_of_up(k: LabelKey, u: UpstreamView) -> bool {
    k.1 == decimal_text(u.channel as nat) && k.2 == u.us_channel_type && k.3 == u.lock_status
}

/// Channel ids are unique within each direction.
pub open spec fn unique_ids(s: SnapshotView) -> bool {
    &&& forall|a: int, b: int|
        0 <= a < b < s.downstream.len() ==> s.downstream[a].channel != s.downstream[b].channel
    &&& forall|a: int, b: int|
        0 <= a < b < s.upstream.len() ==> s.upstream[a].channel != s.upstream[b].channel
}

proof fn lemma_downstream_domain(w: Map<LabelKey, Seq<char>>, ds: Seq<DownstreamView>, k: LabelKey)
    requires
        publish_downstream(w, ds).contains_key(k),
    ensures
        w.contains_key(k) || (is_downstream_series(k.0) && exists|a: int|
            0 <= a < ds.len() && labels_of_down(k, #[trigger] ds[a])),
    decreases ds.len(),
{
    if ds.len() > 0 {
        let p = publish_downstream(w, ds.drop_last());
        if p.contains_key(k) {
            lemma_downstream_domain(w, ds.drop_last(), k);
            if !w.contains_key(k) {
                let a = choose|a: int|
                    0 <= a < ds.drop_last().len() && labels_of_down(k, #[trigger] ds.drop_last()[a]);
                assert(labels_of_down(k, ds[a]));
            }
        } else {
            assert(labels_of_down(k, ds[ds.len() - 1]));
        }
    }
}

proof fn lemma_upstream_domain(w: Map<LabelKey, Seq<char>>, us: Seq<UpstreamView>, k: LabelKey)
    requires
        publish_upstream(w, us).contains_key(k),
    ensures
        w.contains_key(k) || (is_upstream_series(k.0) && exists|b: int|
            0 <= b < us.len() && labels_of_up(k, #[trigger] us[b])),
    decreases us.len(),
{
    if us.len() > 0 {
        let p = publish_upstream(w, us.drop_last());
        if p.contains_key(k) {
            lemma_upstream_domain(w, us.drop_last(), k);
            if !w.contains_key(k) {
                let b = choose|b: int|
                    0 <= b < us.drop_last().len() && labels_of_up(k, #[trigger] us.drop_last()[b]);
                assert(labels_of_up(k, us[b]));
            }
        } else {
            assert(labels_of_up(k, us[us.len() - 1]));
        }
    }
}

proof fn lemma_downstream_present(
    w: Map<LabelKey, Seq<char>>,
    ds: Seq<DownstreamView>,
    i: int,
    series: Series,
)
    requires
        0 <= i < ds.len(),
        is_downstream_series(series),
    ensures
        publish_downstream(w, ds).contains_key(down_key(series, ds[i])),
    decreases ds.len(),
{
    if i < ds.len() - 1 {
        lemma_downstream_present(w, ds.drop_last(), i, series);
        assert(ds.drop_last()[i] == ds[i]);
    }
}

proof fn lemma_upstream_present(w: Map<LabelKey, Seq<char>>, us: Seq<UpstreamView>, j: int, series: Series)
    requires
        0 <= j < us.len(),
        is_upstream_series(series),
    ensures
        publish_upstream(w, us).contains_key(up_key(series, us[j])),
    decreases us.len(),
{
    if j < us.len() - 1 {
        lemma_upstream_present(w, us.drop_last(), j, series);
        assert(us.drop_last()[j] == us[j]);
    }
}

/// Every series of every channel of `s` is present after publishing `s`,
/// and so is every series that was present before.
pub proof fn lemma_published_present(m: Map<LabelKey, Seq<char>>, s: SnapshotView)
    ensures
        forall|k: LabelKey| m.contains_key(k) ==> #[trigger] published(m, s).contains_key(k),
        forall|i: int, series: Series|
            0 <= i < s.downstream.len() && is_downstream_series(series) ==> published(
                m,
                s,
            ).contains_key(#[trigger] down_key(series, s.downstream[i])),
        forall|j: int, series: Series|
            0 <= j < s.upstream.len() && is_upstream_series(series) ==> published(
                m,
                s,
            ).contains_key(#[trigger] up_key(series, s.upstream[j])),
{
    let e = Map::<LabelKey, Seq<char>>::empty();
    let d = publish_downstream(m, s.downstream);
    lemma_published_overrides(m, s);
    lemma_publish_upstream_over(d, e, s.upstream);
    assert(d.union_prefer_right(e) =~= d);
    assert forall|i: int, series: Series|
        0 <= i < s.downstream.len() && is_downstream_series(series) implies published(
        m,
        s,
    ).contains_key(#[trigger] down_key(series, s.downstream[i])) by {
        lemma_downstream_present(m, s.downstream, i, series);
    }
    assert forall|j: int, series: Series|
        0 <= j < s.upstream.len() && is_upstream_series(series) implies published(
        m,
        s,
    ).contains_key(#[trigger] up_key(series, s.upstream[j])) by {
        lemma_upstream_present(d, s.upstream, j, series);
    }
}

/// A downstream channel whose lock status changed from one snapshot to the
/// next leaves its old label tuple behind: after both publishes each of its
/// series is present under the old tuple, still at the value that the
/// first publish gave it, and under the new one.
pub proof fn lemma_stale_downstream_tuple_kept(
    m: Map<LabelKey, Seq<char>>,
    s1: SnapshotView,
    s2: SnapshotView,
    i: int,
    j: int,
    series: Series,
)
    requires
        0 <= i < s1.downstream.len(),
        0 <= j < s2.downstream.len(),
        unique_ids(s2),
        s1.downstream[i].channel == s2.downstream[j].channel,
        s1.downstream[i].lock_status != s2.downstream[j].lock_status,
        is_downstream_series(series),
    ensures
        ({
            let first = published(m, s1);
            let after = published(first, s2);
            let stale = down_key(series, s1.downstream[i]);
            &&& first.contains_key(stale)
            &&& after.contains_key(stale)
            &&& after[stale] == first[stale]
            &&& after.contains_key(down_key(series, s2.downstream[j]))
        }),
{
    let first = published(m, s1);
    let e = Map::<LabelKey, Seq<char>>::empty();
    let w2 = published(e, s2);
    let stale = down_key(series, s1.downstream[i]);
    lemma_published_present(m, s1);
    lemma_published_present(first, s2);
    lemma_published_overrides(first, s2);
    if w2.contains_key(stale) {
        let d2 = publish_downstream(e, s2.downstream);
        lemma_upstream_domain(d2, s2.upstream, stale);
        lemma_downstream_domain(e, s2.downstream, stale);
        let a = choose|a: int| 0 <= a < s2.downstream.len() && labels_of_down(stale, #[trigger] s2.downstream[a]);
        lemma_decimal_text_injective(
            s2.downstream[a].channel as nat,
            s1.downstream[i].channel as nat,
        );
        assert(a == j);
    }
}

/// An upstream channel whose lock status changed from one snapshot to the
/// next leaves its old label tuple behind, as a downstream one does.
pub proof fn lemma_stale_upstream_tuple_kept(
    m: Map<LabelKey, Seq<char>>,
    s1: SnapshotView,
    s2: SnapshotView,
    i: int,
    j: int,
    series: Series,
)
    requires
        0 <= i < s1.upstream.len(),
        0 <= j < s2.upstream.len(),
        unique_ids(s2),
        s1.upstream[i].channel == s2.upstream[j].channel,
        s1.upstream[i].lock_status != s2.upstream[j].lock_status,
        is_upstream_series(series),
    ensures
        ({
            let first = published(m, s1);
            let after = published(first, s2);
            let stale = up_key(series, s1.upstream[i]);
            &&& first.contains_key(stale)
            &&& after.contains_key(stale)
            &&& after[stale] == first[stale]
            &&& after.contains_key(up_key(series, s2.upstream[j]))
        }),
{
    let first = published(m, s1);
    let e = Map::<LabelKey, Seq<char>>::empty();
    let w2 = published(e, s2);
    let stale = up_key(series, s1.upstream[i]);
    lemma_published_present(m, s1);
    lemma_published_present(first, s2);
    lemma_published_overrides(first, s2);
    if w2.contains_key(stale) {
        let d2 = publish_downstream(e, s2.downstream);
        lemma_upstream_domain(d2, s2.upstream, stale);
        if d2.contains_key(stale) {
            lemma_downstream_domain(e, s2.downstream, stale);
        } else {
            let b = choose|b: int| 0 <= b < s2.upstream.len() && labels_of_up(stale, #[trigger] s2.upstream[b]);
            lemma_decimal_text_injective(
                s2.upstream[b].channel as nat,
                s1.upstream[i].channel as nat,
            );
            assert(b == j);
        }
    }
}

} // verus!
