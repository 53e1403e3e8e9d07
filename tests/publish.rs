use ubee_exporter::mapper::channel_label;
use ubee_exporter::{
    parse, publish, ChannelSnapshot, DownstreamChannel, MetricRegistry, Series, UpstreamChannel,
};

fn s(v: &str) -> String {
    v.to_string()
}

fn down(channel: u16, lock: &str, power: &str) -> DownstreamChannel {
    DownstreamChannel {
        channel,
        lock_status: s(lock),
        modulation: s("QAM256"),
        frequency: s("100000000"),
        power: s(power),
        snr: s("40.5"),
        symbol_rate: s("1000"),
        correctables: s("1"),
        uncorrectables: s("3"),
    }
}

fn up(channel: u16, lock: &str) -> UpstreamChannel {
    UpstreamChannel {
        channel,
        lock_status: s(lock),
        us_channel_type: s("ATDMA"),
        frequency: s("50000000"),
        power: s("35.0"),
        symbol_rate: s("1000"),
    }
}

fn get(r: &MetricRegistry, series: Series, ch: &str, kind: &str, lock: &str) -> Option<String> {
    r.value(series, &s(ch), &s(kind), &s(lock))
}

#[test]
fn publish_sets_every_series() {
    let snap = ChannelSnapshot { downstream: vec![down(1, "Locked", "-1.0")], upstream: vec![up(2, "Locked")] };
    let mut r = MetricRegistry::new();
    publish(&snap, &mut r);
    assert_eq!(r.samples().len(), 9);
    assert_eq!(get(&r, Series::DownstreamFrequency, "1", "QAM256", "Locked"), Some(s("100000000")));
    assert_eq!(get(&r, Series::DownstreamPower, "1", "QAM256", "Locked"), Some(s("-1.0")));
    assert_eq!(get(&r, Series::DownstreamSnr, "1", "QAM256", "Locked"), Some(s("40.5")));
    assert_eq!(get(&r, Series::DownstreamSymbolRate, "1", "QAM256", "Locked"), Some(s("1000")));
    assert_eq!(get(&r, Series::DownstreamCorrectables, "1", "QAM256", "Locked"), Some(s("1")));
    assert_eq!(get(&r, Series::DownstreamUncorrectables, "1", "QAM256", "Locked"), Some(s("3")));
    assert_eq!(get(&r, Series::UpstreamFrequency, "2", "ATDMA", "Locked"), Some(s("50000000")));
    assert_eq!(get(&r, Series::UpstreamPower, "2", "ATDMA", "Locked"), Some(s("35.0")));
    assert_eq!(get(&r, Series::UpstreamSymbolRate, "2", "ATDMA", "Locked"), Some(s("1000")));
    assert_eq!(get(&r, Series::UpstreamPower, "1", "ATDMA", "Locked"), None);
}

#[test]
fn publishing_twice_is_idempotent() {
    let snap = ChannelSnapshot {
        downstream: vec![down(1, "Locked", "-1.0"), down(2, "Locked", "-0.5")],
        upstream: vec![up(1, "Locked")],
    };
    let mut once = MetricRegistry::new();
    publish(&snap, &mut once);
    let mut twice = MetricRegistry::new();
    publish(&snap, &mut twice);
    publish(&snap, &mut twice);
    assert_eq!(once.samples(), twice.samples());
    assert_eq!(twice.samples().len(), 15);
}

#[test]
fn new_reading_overwrites_same_tuple() {
    let mut r = MetricRegistry::new();
    publish(&ChannelSnapshot { downstream: vec![down(1, "Locked", "-1.0")], upstream: vec![] }, &mut r);
    publish(&ChannelSnapshot { downstream: vec![down(1, "Locked", "2.5")], upstream: vec![] }, &mut r);
    assert_eq!(get(&r, Series::DownstreamPower, "1", "QAM256", "Locked"), Some(s("2.5")));
    assert_eq!(r.samples().len(), 6);
}

#[test]
fn lock_change_leaves_stale_tuple() {
    let mut r = MetricRegistry::new();
    publish(&ChannelSnapshot { downstream: vec![down(3, "Locked", "-1.0")], upstream: vec![up(4, "Locked")] }, &mut r);
    publish(&ChannelSnapshot { downstream: vec![down(3, "Not Locked", "7.0")], upstream: vec![up(4, "Not Locked")] }, &mut r);
    assert_eq!(get(&r, Series::DownstreamPower, "3", "QAM256", "Locked"), Some(s("-1.0")));
    assert_eq!(get(&r, Series::DownstreamPower, "3", "QAM256", "Not Locked"), Some(s("7.0")));
    assert_eq!(get(&r, Series::UpstreamPower, "4", "ATDMA", "Locked"), Some(s("35.0")));
    assert_eq!(get(&r, Series::UpstreamPower, "4", "ATDMA", "Not Locked"), Some(s("35.0")));
    assert_eq!(r.samples().len(), 18);
}

#[test]
fn channel_labels_are_decimal() {
    assert_eq!(channel_label(0), "0");
    assert_eq!(channel_label(7), "7");
    assert_eq!(channel_label(10), "10");
    assert_eq!(channel_label(65535), "65535");
}

#[test]
fn end_to_end_fixture() {
    let page = r###"
        <table style="font-family: Helvetica;font-size:14">
            <tr><th colspan=9><b>Downstream Bonded Channels</b></th></tr>
            <tr><td>Channel</td><td>Lock Status</td><td>Modulation</td><td>Frequency</td><td>Power</td><td>SNR</td><td>Symbol Rate</td><td>Correctables</td><td>Uncorrectables</td></tr>
            <tr><td>1</td><td>Locked</td><td>QAM256</td><td>100000000 Hz</td><td>-1.0 dBmV</td><td>40.5 dB</td><td>1000 Ksym/sec</td><td>1</td><td>3</td></tr>
            <tr><td>2</td><td>Locked</td><td>QAM256</td><td>200000000 Hz</td><td>-0.5 dBmV</td><td>40.0 dB</td><td>2000 Ksym/sec</td><td>2</td><td>2</td></tr>
            <tr><td>3</td><td>Locked</td><td>QAM256</td><td>300000000 Hz</td><td>-0.1 dBmV</td><td>41.6 dB</td><td>3000 Ksym/sec</td><td>3</td><td>1</td></tr>
        </table>
        <table>
            <tr><th colspan=7><b>Upstream Bonded Channels</b></th></tr>
            <tr><td>Channel</td><td>Lock Status</td><td>US Channel Type</td><td>Symbol Rate</td><td>Frequency</td><td>Power</td></tr>
            <tr><td>1</td><td>Locked</td><td>ATDMA</td><td>1000 Ksym/sec</td><td>50000000 Hz</td><td>35.0 dBmV</td></tr>
            <tr><td>2</td><td>Locked</td><td>ATDMA</td><td>2000 Ksym/sec</td><td>60000000 Hz</td><td>35.5 dBmV</td></tr>
            <tr><td>3</td><td>Locked</td><td>ATDMA</td><td>3000 Ksym/sec</td><td>70000000 Hz</td><td>35.8 dBmV</td></tr>
        </table>"###;
    let snap = parse(page).unwrap();
    let mut r = MetricRegistry::new();
    publish(&snap, &mut r);
    assert_eq!(r.samples().len(), 27);
    let d = |series, ch: &str| get(&r, series, ch, "QAM256", "Locked").unwrap().parse::<f64>().unwrap();
    let u = |series, ch: &str| get(&r, series, ch, "ATDMA", "Locked").unwrap().parse::<f64>().unwrap();
    let chans = ["1", "2", "3"];
    let expect_down: [(Series, [f64; 3]); 6] = [
        (Series::DownstreamFrequency, [100000000.0, 200000000.0, 300000000.0]),
        (Series::DownstreamPower, [-1.0, -0.5, -0.1]),
        (Series::DownstreamSnr, [40.5, 40.0, 41.6]),
        (Series::DownstreamSymbolRate, [1000.0, 2000.0, 3000.0]),
        (Series::DownstreamCorrectables, [1.0, 2.0, 3.0]),
        (Series::DownstreamUncorrectables, [3.0, 2.0, 1.0]),
    ];
    for (series, vals) in expect_down.iter() {
        for (ch, v) in chans.iter().zip(vals.iter()) {
            assert_eq!(d(*series, ch), *v);
        }
    }
    let expect_up: [(Series, [f64; 3]); 3] = [
        (Series::UpstreamFrequency, [50000000.0, 60000000.0, 70000000.0]),
        (Series::UpstreamPower, [35.0, 35.5, 35.8]),
        (Series::UpstreamSymbolRate, [1000.0, 2000.0, 3000.0]),
    ];
    for (series, vals) in expect_up.iter() {
        for (ch, v) in chans.iter().zip(vals.iter()) {
            assert_eq!(u(*series, ch), *v);
        }
    }
}
