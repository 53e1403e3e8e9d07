use ubee_exporter::parser::{classify_row, decode_downstream, decode_upstream, numeric_literal};
use ubee_exporter::{parse, Direction, Field, ParseError};

const FIXTURE: &str = r###"
        <table id="unrelated-table"></table>
        <table style="font-family: Helvetica;font-size:14">
            <tr bgcolor=#CE0000><th colspan=9><b><label id="ID_LABEL_TABLE_DOWNSTREAM">Downstream Bonded Channels</label></b></th></tr>
            <tr bgcolor="#FF8C00"><td><label id="ID_LABEL_TABLE_DOWNSTREAM_CHANNEL">Channel</label></td><td><label id="ID_LABEL_TABLE_DOWNSTREAM_LOCK_STATUS">Lock Status</label></td><td><label id="ID_LABEL_TABLE_DOWNSTREAM_MODULATION">Modulation</label></td><td><label id="ID_LABEL_TABLE_DOWNSTREAM_FREQUENCY">Frequency</label></td><td><label id="ID_LABEL_TABLE_DOWNSTREAM_POWER">Power</label></td><td><label id="ID_LABEL_TABLE_DOWNSTREAM_SNR">SNR</label></td><td><label id="ID_LABEL_TABLE_DOWNSTREAM_SYMBOL_RATE">Symbol Rate</label></td><td><label id="ID_LABEL_TABLE_DOWNSTREAM_CORRECTABLE">Correctables</label></td><td><label id="ID_LABEL_TABLE_DOWNSTREAM_UNCORRECTABLE">Uncorrectables</label></td></tr>
            <tr bgcolor="#9999CC"><td>1</td><td>Locked</td><td>QAM256</td><td>100000000 Hz</td><td>-1.0 dBmV</td><td>40.5 dB</td><td>1000 Ksym/sec</td><td>1</td><td>3</td></tr>
            <tr bgcolor="#99CCFF"><td>2</td><td>Locked</td><td>QAM256</td><td>200000000 Hz</td><td>-0.5 dBmV</td><td>40.0 dB</td><td>2000 Ksym/sec</td><td>2</td><td>2</td></tr>
            <tr bgcolor="#9999CC"><td>3</td><td>Locked</td><td>QAM256</td><td>300000000 Hz</td><td>-0.1 dBmV</td><td>41.6 dB</td><td>3000 Ksym/sec</td><td>3</td><td>1</td></tr>
        </table>
        <table style="font-family: Helvetica;font-size:14">
            <tr bgcolor=#CE0000><th colspan=7><b><label id="ID_LABEL_TABLE_UPSTREAM">Upstream Bonded Channels</label></b></th></tr>
            <tr bgcolor="#FF8C00"><td><label id="ID_LABEL_TABLE_UPSTREAM_CHANNEL">Channel</label></td><td><label id="ID_LABEL_TABLE_UPSTREAM_LOCK_STATUS">Lock Status</label></td><td><label id="ID_LABEL_TABLE_UPSTREAM_CHANNEL_TYPE">US Channel Type</label></td><td><label id="ID_LABEL_TABLE_UPSTREAM_SYMBOL_RATE">Symbol Rate</label></td><td><label id="ID_LABEL_TABLE_UPSTREAM_FREQUENCY">Frequency</label></td><td><label id="ID_LABEL_TABLE_UPSTREAM_POWER">Power</label></td></tr>
            <tr bgcolor="#9999CC"><td>1</td><td>Locked</td><td>ATDMA</td><td>1000 Ksym/sec</td><td>50000000 Hz</td><td>35.0 dBmV</td></tr>
            <tr bgcolor="#99CCFF"><td>2</td><td>Locked</td><td>ATDMA</td><td>2000 Ksym/sec</td><td>60000000 Hz</td><td>35.5 dBmV</td></tr>
            <tr bgcolor="#9999CC"><td>3</td><td>Locked</td><td>ATDMA</td><td>3000 Ksym/sec</td><td>70000000 Hz</td><td>35.8 dBmV</td></tr>
        </table>=
        "###;

fn num(s: &str) -> f64 {
    s.parse::<f64>().unwrap()
}

fn cells(v: &[&str]) -> Vec<String> {
    v.iter().map(|s| s.to_string()).collect()
}

fn downstream_page(rows: &str) -> String {
    format!(
        "<table><tr><th>Downstream Bonded Channels</th></tr><tr><td>labels</td></tr>{}</table>",
        rows
    )
}

fn upstream_page(rows: &str) -> String {
    format!(
        "<table><tr><th>Upstream Bonded Channels</th></tr><tr><td>labels</td></tr>{}</table>",
        rows
    )
}

#[test]
fn correctly_parses_html() {
    let data = parse(FIXTURE).unwrap();
    let expected_down = [
        (1u16, 100000000.0, -1.0, 40.5, 1000.0, 1.0, 3.0),
        (2, 200000000.0, -0.5, 40.0, 2000.0, 2.0, 2.0),
        (3, 300000000.0, -0.1, 41.6, 3000.0, 3.0, 1.0),
    ];
    assert_eq!(data.downstream.len(), 3);
    for (c, e) in data.downstream.iter().zip(expected_down.iter()) {
        assert_eq!(c.channel, e.0);
        assert_eq!(c.lock_status, "Locked");
        assert_eq!(c.modulation, "QAM256");
        assert_eq!(num(&c.frequency), e.1);
        assert_eq!(num(&c.power), e.2);
        assert_eq!(num(&c.snr), e.3);
        assert_eq!(num(&c.symbol_rate), e.4);
        assert_eq!(num(&c.correctables), e.5);
        assert_eq!(num(&c.uncorrectables), e.6);
    }
    let expected_up = [
        (1u16, 50000000.0, 35.0, 1000.0),
        (2, 60000000.0, 35.5, 2000.0),
        (3, 70000000.0, 35.8, 3000.0),
    ];
    assert_eq!(data.upstream.len(), 3);
    for (c, e) in data.upstream.iter().zip(expected_up.iter()) {
        assert_eq!(c.channel, e.0);
        assert_eq!(c.lock_status, "Locked");
        assert_eq!(c.us_channel_type, "ATDMA");
        assert_eq!(num(&c.frequency), e.1);
        assert_eq!(num(&c.power), e.2);
        assert_eq!(num(&c.symbol_rate), e.3);
    }
}

#[test]
fn literals_keep_page_text_without_units() {
    let data = parse(FIXTURE).unwrap();
    assert_eq!(data.downstream[0].frequency, "100000000");
    assert_eq!(data.downstream[0].power, "-1.0");
    assert_eq!(data.downstream[2].snr, "41.6");
    assert_eq!(data.upstream[1].symbol_rate, "2000");
}

#[test]
fn row_counts_follow_page_order() {
    let page = format!(
        "{}{}{}",
        downstream_page("<tr><td>7</td><td>Locked</td><td>QAM64</td><td>1 Hz</td><td>2 dBmV</td><td>3 dB</td><td>4 Ksym/sec</td><td>5</td><td>6</td></tr>"),
        upstream_page(""),
        downstream_page("<tr><td>4</td><td>Not Locked</td><td>QAM256</td><td>1 Hz</td><td>2 dBmV</td><td>3 dB</td><td>4 Ksym/sec</td><td>5</td><td>6</td></tr>"),
    );
    let data = parse(&page).unwrap();
    assert_eq!(data.downstream.len(), 2);
    assert_eq!(data.upstream.len(), 0);
    assert_eq!(data.downstream[0].channel, 7);
    assert_eq!(data.downstream[1].channel, 4);
    assert_eq!(data.downstream[1].lock_status, "Not Locked");
}

#[test]
fn unrelated_tables_are_ignored() {
    let page = "<table><tr><td>Status</td></tr><tr><td>x</td><td>y</td></tr><tr><td>z</td></tr></table><table></table>";
    let data = parse(page).unwrap();
    assert!(data.downstream.is_empty());
    assert!(data.upstream.is_empty());
}

#[test]
fn empty_page_gives_empty_snapshot() {
    let data = parse("").unwrap();
    assert!(data.downstream.is_empty() && data.upstream.is_empty());
}

#[test]
fn classified_table_without_label_row_fails() {
    let page = "<table><tr><th>Downstream Bonded Channels</th></tr></table>";
    assert_eq!(parse(page), Err(ParseError::MissingHeaderRow));
    let page = "<table><tr><th>Upstream Bonded Channels</th></tr></table>";
    assert_eq!(parse(page), Err(ParseError::MissingHeaderRow));
}

#[test]
fn downstream_row_of_eight_or_ten_cells_fails() {
    let eight = downstream_page("<tr><td>1</td><td>Locked</td><td>QAM256</td><td>1 Hz</td><td>2 dBmV</td><td>3 dB</td><td>4 Ksym/sec</td><td>5</td></tr>");
    assert_eq!(
        parse(&eight),
        Err(ParseError::UnexpectedRowShape { direction: Direction::Downstream, expected: 9, got: 8 })
    );
    let ten = downstream_page("<tr><td>1</td><td>Locked</td><td>QAM256</td><td>1 Hz</td><td>2 dBmV</td><td>3 dB</td><td>4 Ksym/sec</td><td>5</td><td>6</td><td>7</td></tr>");
    assert_eq!(
        parse(&ten),
        Err(ParseError::UnexpectedRowShape { direction: Direction::Downstream, expected: 9, got: 10 })
    );
}

#[test]
fn upstream_row_of_five_or_seven_cells_fails() {
    let five = cells(&["1", "Locked", "ATDMA", "1000 Ksym/sec", "50 Hz"]);
    assert_eq!(
        decode_upstream(&five),
        Err(ParseError::UnexpectedRowShape { direction: Direction::Upstream, expected: 6, got: 5 })
    );
    let seven = upstream_page("<tr><td>1</td><td>Locked</td><td>ATDMA</td><td>1 Ksym/sec</td><td>2 Hz</td><td>3 dBmV</td><td>4</td></tr>");
    assert_eq!(
        parse(&seven),
        Err(ParseError::UnexpectedRowShape { direction: Direction::Upstream, expected: 6, got: 7 })
    );
}

#[test]
fn non_numeric_power_fails_whole_page() {
    let page = downstream_page(
        "<tr><td>1</td><td>Locked</td><td>QAM256</td><td>1 Hz</td><td>2 dBmV</td><td>3 dB</td><td>4 Ksym/sec</td><td>5</td><td>6</td></tr>\
         <tr><td>2</td><td>Locked</td><td>QAM256</td><td>1 Hz</td><td>abc dBmV</td><td>3 dB</td><td>4 Ksym/sec</td><td>5</td><td>6</td></tr>",
    );
    assert_eq!(
        parse(&page),
        Err(ParseError::InvalidNumericField { field: Field::Power, raw_value: "abc dBmV".to_string() })
    );
}

#[test]
fn invalid_channel_id_fails() {
    let row = cells(&["x1", "Locked", "QAM256", "1 Hz", "2 dBmV", "3 dB", "4 Ksym/sec", "5", "6"]);
    assert_eq!(
        decode_downstream(&row),
        Err(ParseError::InvalidNumericField { field: Field::Channel, raw_value: "x1".to_string() })
    );
    let row = cells(&["65536", "Locked", "ATDMA", "1 Ksym/sec", "2 Hz", "3 dBmV"]);
    assert!(matches!(
        decode_upstream(&row),
        Err(ParseError::InvalidNumericField { field: Field::Channel, .. })
    ));
    let row = cells(&["+65535", "Locked", "ATDMA", "1 Ksym/sec", "2 Hz", "3 dBmV"]);
    assert_eq!(decode_upstream(&row).unwrap().channel, 65535);
}

#[test]
fn each_numeric_field_is_checked() {
    let good = ["1", "Locked", "QAM256", "1 Hz", "2 dBmV", "3 dB", "4 Ksym/sec", "5", "6"];
    let fields = [
        (3, Field::Frequency),
        (4, Field::Power),
        (5, Field::Snr),
        (6, Field::SymbolRate),
        (7, Field::Correctables),
        (8, Field::Uncorrectables),
    ];
    for (i, f) in fields.iter() {
        let mut row = good;
        row[*i] = "n/a";
        assert_eq!(
            decode_downstream(&cells(&row)),
            Err(ParseError::InvalidNumericField { field: *f, raw_value: "n/a".to_string() })
        );
    }
    assert!(decode_downstream(&cells(&good)).is_ok());
}

#[test]
fn unit_suffix_is_optional() {
    assert_eq!(numeric_literal(Field::Snr, &"40.5".to_string()), Ok("40.5".to_string()));
    assert_eq!(numeric_literal(Field::Power, &"-3.2 dBmV".to_string()), Ok("-3.2".to_string()));
    assert_eq!(numeric_literal(Field::SymbolRate, &"5120 Ksym/sec".to_string()), Ok("5120".to_string()));
    assert_eq!(numeric_literal(Field::Frequency, &"1e8 Hz".to_string()), Ok("1e8".to_string()));
    assert_eq!(numeric_literal(Field::Correctables, &"12345678901234567890".to_string()), Ok("12345678901234567890".to_string()));
}

#[test]
fn float_literal_forms() {
    for ok in [".5", "5.", "+1.25", "-0", "1E-3", "2e+10"] {
        assert!(numeric_literal(Field::Correctables, &ok.to_string()).is_ok(), "{}", ok);
    }
    for bad in ["", ".", "-", "1e", "e5", "1.2.3", "inf", "NaN", "1 2", "--1"] {
        assert!(numeric_literal(Field::Correctables, &bad.to_string()).is_err(), "{}", bad);
    }
}

#[test]
fn classification_by_first_row() {
    assert_eq!(classify_row(&"<tr><th>Downstream Bonded Channels</th></tr>".to_string()), Some(Direction::Downstream));
    assert_eq!(classify_row(&"<tr><th>Upstream Bonded Channels</th></tr>".to_string()), Some(Direction::Upstream));
    assert_eq!(classify_row(&"<tr><th>Status</th></tr>".to_string()), None);
}
