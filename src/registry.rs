//! An owned store of labelled gauge values: one value for each series and
//! label tuple that has been set, the last setting winning.

use vstd::prelude::*;

verus! {

/// The gauge families.
#[derive(Clone, Copy, Debug, PartialEq, Eq, Structural)]
pub enum Series {
    DownstreamFrequency,
    DownstreamPower,
    DownstreamSnr,
    DownstreamSymbolRate,
    DownstreamCorrectables,
    DownstreamUncorrectables,
    UpstreamFrequency,
    UpstreamPower,
    UpstreamSymbolRate,
}

/// A series and its label values: channel, then modulation or channel type,
/// then lock status.
pub type LabelKey = (Series, Seq<char>, Seq<char>, Seq<char>);

/// One gauge value under its labels.
#[derive(Clone, Debug, PartialEq, Eq)]
pub struct Sample {
    pub series: Series,
    pub channel: String,
    /// The modulation of a downstream channel, or the type of an upstream one.
    pub kind: String,
    pub lock_status: String,
    pub value: String,
}

impl Sample {
    pub open spec fn key(&self) -> LabelKey {
        (self.series, self.channel@, self.kind@, self.lock_status@)
    }
}

/// The values that a sequence of samples sets, later samples winning.
pub open spec fn samples_map(s: Seq<Sample>) -> Map<LabelKey, Seq<char>>
    decreases s.len(),
{
    if s.len() == 0 {
        Map::empty()
    } else {
        samples_map(s.drop_last()).insert(s.last().key(), s.last().value@)
    }
}

pub open spec fn keys_unique(s: Seq<Sample>) -> bool {
    forall|i: int, j: int| 0 <= i < j < s.len() ==> s[i].key() != s[j].key()
}

proof fn lemma_samples_map_update(s: Seq<Sample>, i: int, e: Sample)
    requires
        0 <= i < s.len(),
        keys_unique(s),
        s[i].key() == e.key(),
    ensures
        samples_map(s.update(i, e)) == samples_map(s).insert(e.key(), e.value@),
    decreases s.len(),
{
    let u = s.update(i, e);
    if i == s.len() - 1 {
        assert(u.drop_last() =~= s.drop_last());
        assert(samples_map(u) =~= samples_map(s).insert(e.key(), e.value@));
    } else {
        assert(u.drop_last() =~= s.drop_last().update(i, e));
        assert(s[i].key() != s.last().key());
        lemma_samples_map_update(s.drop_last(), i, e);
        assert(samples_map(u) =~= samples_map(s).insert(e.key(), e.value@));
    }
}

proof fn lemma_samples_map_lookup(s: Seq<Sample>, k: LabelKey)
    requires
        keys_unique(s),
    ensures
        forall|i: int| 0 <= i < s.len() && #[trigger] s[i].key() == k ==> samples_map(s).contains_key(k)
            && samples_map(s)[k] == s[i].value@,
        (forall|i: int| 0 <= i < s.len() ==> #[trigger] s[i].key() != k) ==> !samples_map(s).contains_key(k),
    decreases s.len(),
{
    if s.len() > 0 {
        let t = s.drop_last();
        assert(keys_unique(t));
        lemma_samples_map_lookup(t, k);
        assert forall|i: int| 0 <= i < s.len() && #[trigger] s[i].key() == k implies samples_map(s).contains_key(k)
            && samples_map(s)[k] == s[i].value@ by {
            if i < s.len() - 1 {
                assert(t[i].key() == k);
            }
        }
        if forall|i: int| 0 <= i < s.len() ==> #[trigger] s[i].key() != k {
            assert forall|i: int| 0 <= i < t.len() implies #[trigger] t[i].key() != k by {
                assert(s[i].key() != k);
            }
            assert(s[s.len() - 1].key() != k);
        }
    }
}

/// The gauge values published so far.
pub struct MetricRegistry {
    samples: Vec<Sample>,
}

impl View for MetricRegistry {
    type V = Map<LabelKey, Seq<char>>;

    closed spec fn view(&self) -> Map<LabelKey, Seq<char>> {
        samples_map(self.samples@)
    }
}

impl MetricRegistry {
    /// Each series and label tuple is held once.
    pub closed spec fn wf(&self) -> bool {
        keys_unique(self.samples@)
    }

    pub fn new() -> (r: MetricRegistry)
        ensures
            r.wf(),
            r@ == Map::<LabelKey, Seq<char>>::empty(),
    {
        MetricRegistry { samples: Vec::new() }
    }

    /// Position of the sample with this series and labels, if any.
    fn position(&self, series: Series, channel: &String, kind: &String, lock_status: &String) -> (r:
        Option<usize>)
        ensures
            match r {
                Some(i) => i < self.samples@.len() && self.samples@[i as int].key() == (
                series,
                channel@,
                kind@,
                lock_status@,
                ),
                None => forall|i: int|
                    0 <= i < self.samples@.len() ==> #[trigger] self.samples@[i].key() != (
                    series,
                    channel@,
                    kind@,
                    lock_status@,
                    ),
            },
    {
        let mut i: usize = 0;
        while i < self.samples.len()
            invariant
                i <= self.samples@.len(),
                forall|j: int|
                    0 <= j < i ==> #[trigger] self.samples@[j].key() != (
                    series,
                    channel@,
                    kind@,
                    lock_status@,
                    ),
            decreases self.samples@.len() - i,
        {
            let s = &self.samples[i];
            if s.series == series && s.channel == *channel && s.kind == *kind && s.lock_status
                == *lock_status {
                return Some(i);
            }
            i = i + 1;
        }
        None
    }

    /// Sets the gauge of `series` under the given labels to `value`.
    pub fn set(
        &mut self,
        series: Series,
        channel: &String,
        kind: &String,
        lock_status: &String,
        value: &String,
    )
        requires
            old(self).wf(),
        ensures
            final(self).wf(),
            final(self)@ == old(self)@.insert((series, channel@, kind@, lock_status@), value@),
    {
        let sample = Sample {
            series,
            channel: channel.clone(),
            kind: kind.clone(),
            lock_status: lock_status.clone(),
            value: value.clone(),
        };
        match self.position(series, channel, kind, lock_status) {
            Some(i) => {
                proof {
                    lemma_samples_map_update(self.samples@, i as int, sample);
                }
                self.samples.set(i, sample);
                assert(keys_unique(self.samples@)) by {
                    assert forall|a: int, b: int|
                        0 <= a < b < self.samples@.len() implies self.samples@[a].key()
                        != self.samples@[b].key() by {
                        assert(old(self).samples@[a].key() != old(self).samples@[b].key());
                    }
                }
            },
            None => {
                let ghost before = self.samples@;
                self.samples.push(sample);
                assert(self.samples@.drop_last() =~= before);
                assert(keys_unique(self.samples@)) by {
                    assert forall|a: int, b: int|
                        0 <= a < b < self.samples@.len() implies self.samples@[a].key()
                        != self.samples@[b].key() by {
                        if b < before.len() {
                            assert(before[a].key() != before[b].key());
                        } else {
                            assert(before[a].key() != sample.key());
                        }
                    }
                }
            },
        }
    }

    /// The value of `series` under the given labels, if it has been set.
    pub fn value(&self, series: Series, channel: &String, kind: &String, lock_status: &String) -> (r:
        Option<String>)
        requires
            self.wf(),
        ensures
            match r {
                Some(v) => self@.contains_key((series, channel@, kind@, lock_status@))
                    && self@[(series, channel@, kind@, lock_status@)] == v@,
                None => !self@.contains_key((series, channel@, kind@, lock_status@)),
            },
    {
        proof {
            lemma_samples_map_lookup(self.samples@, (series, channel@, kind@, lock_status@));
        }
        match self.position(series, channel, kind, lock_status) {
            Some(i) => Some(self.samples[i].value.clone()),
            None => None,
        }
    }

    /// Every value held, each under its series and labels.
    pub fn samples(&self) -> (r: &Vec<Sample>)
        ensures
            samples_map(r@) == self@,
            self.wf() ==> keys_unique(r@),
    {
        &self.samples
    }
}

} // verus!
