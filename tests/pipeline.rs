use cic2nf::cic::{
    read_ids_rows, str_to_timestamp, update_label_and_index_mut, CICRecord, CicError, Label,
    LabelLibrary, N_COLUMNS,
};
use cic2nf::nf::{
    categorize_nf, cic_to_nf_batch, clamp_duration, duration_issue, get_n_digit_in_decimal,
    DurationIssue, Flags, NetFlow,
};

fn row(src: &str, dst: &str, ts: &str, duration: &str, label: &str) -> Vec<String> {
    let mut f: Vec<String> = vec![String::from("0"); N_COLUMNS];
    f[0] = String::from("flow-id");
    f[1] = String::from(src);
    f[2] = String::from("443");
    f[3] = String::from(dst);
    f[4] = String::from("52000");
    f[5] = String::from("6");
    f[6] = String::from(ts);
    f[7] = String::from(duration);
    f[8] = String::from("3");
    f[9] = String::from("4.0");
    f[10] = String::from("120");
    f[11] = String::from("250.0");
    f[40] = String::from("1");
    f[41] = String::from("2");
    f[84] = String::from(label);
    f
}

fn record(duration: &str, label: &str) -> CICRecord {
    let r = row("10.0.0.1", "10.0.0.2", "7/3/2017 08:55:58", duration, label);
    CICRecord::from_ids_csv(&r, &None, 0).unwrap().0
}

#[test]
fn from_ids_csv_reads_every_field() {
    let r = row(" 192.168.10.5 ", "8.8.8.8", " 7/3/2017 08:55 ", "1500", " BENIGN ");
    let (rec, fmt) = CICRecord::from_ids_csv(&r, &None, 0).unwrap();
    assert_eq!(fmt, 3);
    assert_eq!(rec.src_ip(), "192.168.10.5");
    assert_eq!(*rec.src_port(), 443);
    assert_eq!(rec.dst_ip(), "8.8.8.8");
    assert_eq!(*rec.dst_port(), 52000);
    assert_eq!(*rec.protocol(), 6);
    assert_eq!(*rec.duration(), 1500);
    assert_eq!(*rec.n_packet(), [4, 6]);
    assert_eq!(*rec.n_bytes_packet(), [120, 250]);
    assert_eq!(rec.label().name(), "BENIGN");
    assert_eq!(rec.label().index(), 0);
    assert_eq!(rec.timestamp().to_text(), "2017-03-07 08:55:00.000");
}

#[test]
fn numeric_failure_names_the_column() {
    let mut r = row("a", "b", "7/3/2017 08:55", "10", "X");
    r[4] = String::from("port");
    assert_eq!(
        CICRecord::from_ids_csv(&r, &None, 0).unwrap_err(),
        CicError::NumericParseFailure(4)
    );
    let mut r = row("a", "b", "7/3/2017 08:55", "10", "X");
    r[41] = String::from("1e3");
    assert_eq!(
        CICRecord::from_ids_csv(&r, &None, 0).unwrap_err(),
        CicError::NumericParseFailure(41)
    );
    let mut r = row("a", "b", "7/3/2017 08:55", "10", "X");
    r[5] = String::from("300");
    assert_eq!(
        CICRecord::from_ids_csv(&r, &None, 0).unwrap_err(),
        CicError::NumericParseFailure(5)
    );
}

#[test]
fn unknown_timestamp_is_an_error() {
    let r = row("a", "b", "2017-07-03T08:55", "10", "X");
    assert_eq!(
        CICRecord::from_ids_csv(&r, &None, 2).unwrap_err(),
        CicError::UnrecognizedTimestampFormat
    );
}

#[test]
fn am_pm_scan_then_sticky_guess() {
    let (t, i) = str_to_timestamp("3/7/2017 10:15 am", &None, 0).unwrap();
    assert_eq!(i, 0);
    assert_eq!(t.to_text(), "2017-07-03 10:15:00.000");
    let (t, j) = str_to_timestamp("3/7/2017 10:15:42 pm", &None, i).unwrap();
    assert_eq!(j, 1);
    assert_eq!(t.to_text(), "2017-07-03 22:15:42.000");
    let (_, k) = str_to_timestamp("3/7/2017 10:15:42 pm", &None, 3).unwrap();
    assert_eq!(k, 1);
    assert_eq!(
        str_to_timestamp("not a time", &None, 1).unwrap_err(),
        CicError::UnrecognizedTimestampFormat
    );
}

#[test]
fn hint_appends_marker() {
    let (t, i) = str_to_timestamp("3/7/2017 01:15", &Some(false), 3).unwrap();
    assert_eq!(i, 0);
    assert_eq!(t.to_text(), "2017-07-03 13:15:00.000");
    let (t, _) = str_to_timestamp("3/7/2017 01:15:02.500000", &Some(true), 0).unwrap();
    assert_eq!(t.to_text(), "2017-07-03 01:15:02.500");
}

#[test]
fn duration_minus_one_becomes_zero_with_one_warning() {
    let rec = record("-1", "BENIGN");
    let (a, b) = NetFlow::new(&rec);
    assert_eq!(a.duration, 0);
    assert_eq!(b.duration, 0);
    assert_eq!(duration_issue(*rec.duration()), Some(DurationIssue::Unknown));
    let recs = vec![rec];
    let warnings = recs.iter().filter(|r| duration_issue(*r.duration()).is_some()).count();
    assert_eq!(warnings, 1);
    let batch = cic_to_nf_batch(&recs);
    assert!(batch.iter().all(|f| f.duration == 0));
}

#[test]
fn duration_clamping() {
    assert_eq!(clamp_duration(-1), 0);
    assert_eq!(clamp_duration(-7), 0);
    assert_eq!(clamp_duration(0), 0);
    assert_eq!(clamp_duration(12), 12);
    assert_eq!(duration_issue(-7), Some(DurationIssue::Negative(-7)));
    assert_eq!(duration_issue(0), None);
    assert_eq!(duration_issue(5), None);
}

#[test]
fn short_row_is_skipped() {
    let good = row("a", "b", "7/3/2017 08:55", "10", "BENIGN");
    let mut short = good.clone();
    short.pop();
    assert_eq!(short.len(), 84);
    let rows = vec![short, good];
    let (recs, labels, skipped) =
        read_ids_rows(&rows, &None, &String::from("BENIGN")).unwrap();
    assert_eq!(recs.len(), 1);
    assert_eq!(skipped, vec![0]);
    assert_eq!(labels.len(), 1);
    assert_eq!(cic_to_nf_batch(&recs).len(), 2);
}

#[test]
fn flow_pair_swaps_endpoints() {
    let rec = record("2500", "BENIGN");
    let (a, b) = NetFlow::new(&rec);
    assert_eq!((a.src_ip.as_str(), a.src_port), ("10.0.0.1", 443));
    assert_eq!((a.dst_ip.as_str(), a.dst_port), ("10.0.0.2", 52000));
    assert_eq!((b.src_ip.as_str(), b.src_port), ("10.0.0.2", 52000));
    assert_eq!((b.dst_ip.as_str(), b.dst_port), ("10.0.0.1", 443));
    assert_eq!((a.n_packet, a.n_bytes_packet), (4, 120));
    assert_eq!((b.n_packet, b.n_bytes_packet), (6, 250));
    assert_eq!(a.duration, b.duration);
    assert_eq!(a.protocol, b.protocol);
    assert_eq!(a.timestamp.to_text(), b.timestamp.to_text());
    assert_eq!(a.duration_ms(), 2);
    assert_eq!(a.n_flow, 1);
    assert_eq!(a.label(), b.label());
}

#[test]
fn labels_indexed_in_first_seen_order() {
    let t = "7/3/2017 08:55";
    let rows = vec![
        row("a", "b", t, "1", "DoS"),
        row("a", "b", t, "1", "BENIGN"),
        row("a", "b", t, "1", "PortScan"),
        row("a", "b", t, "1", "DoS"),
    ];
    let (recs, labels, skipped) =
        read_ids_rows(&rows, &None, &String::from("BENIGN")).unwrap();
    assert!(skipped.is_empty());
    let idx: Vec<u8> = recs.iter().map(|r| r.label().index()).collect();
    assert_eq!(idx, vec![2, 1, 3, 2]);
    assert_eq!(labels.len(), 3);
    assert_eq!(labels.name(1), "BENIGN");
    assert_eq!(labels.name(2), "DoS");
    assert_eq!(labels.name(3), "PortScan");
}

#[test]
fn label_update_assigns_next_index() {
    let mut lib = LabelLibrary::new(&String::from("BENIGN"));
    let mut rec = record("1", "Bot");
    update_label_and_index_mut(&mut lib, &mut rec).unwrap();
    assert_eq!(rec.label().index(), 2);
    let mut again = record("1", "Bot");
    update_label_and_index_mut(&mut lib, &mut again).unwrap();
    assert_eq!(again.label().index(), 2);
    assert_eq!(lib.len(), 2);
    assert_eq!(lib.index_of(&String::from("BENIGN")), Some(1));
    assert_eq!(lib.index_of(&String::from("none")), None);
}

#[test]
fn too_many_labels() {
    let mut lib = LabelLibrary::new(&String::from("BENIGN"));
    for i in 0..254 {
        let mut rec = record("1", &format!("L{}", i));
        update_label_and_index_mut(&mut lib, &mut rec).unwrap();
    }
    assert_eq!(lib.len(), 255);
    let mut rec = record("1", "one-too-many");
    assert_eq!(
        update_label_and_index_mut(&mut lib, &mut rec),
        Err(CicError::TooManyLabels)
    );
    let mut known = record("1", "L3");
    assert_eq!(update_label_and_index_mut(&mut lib, &mut known), Ok(()));
    assert_eq!(known.label().index(), 5);
}

#[test]
fn round_trip_two_labels() {
    let t = "7/3/2017 08:55";
    let rows = vec![
        row("1.1.1.1", "2.2.2.2", t, "10", "BENIGN"),
        row("3.3.3.3", "4.4.4.4", t, "20", "PortScan"),
    ];
    let (recs, labels, _) = read_ids_rows(&rows, &None, &String::from("BENIGN")).unwrap();
    assert_eq!(recs[0].label().index(), 1);
    assert_eq!(recs[1].label().index(), 2);
    let flows = cic_to_nf_batch(&recs);
    let names: Vec<String> = (1..=labels.len() as u8).map(|i| labels.name(i).clone()).collect();
    let groups = categorize_nf(flows, labels);
    assert_eq!(groups.len(), 2);
    assert_eq!(groups[0].len(), 2);
    assert_eq!(groups[1].len(), 2);
    assert_eq!(names, vec![String::from("BENIGN"), String::from("PortScan")]);
    assert!(groups[0].iter().all(|f| f.label().index() == 1));
    assert!(groups[1].iter().all(|f| f.label().index() == 2));
    assert_eq!(groups[1][0].src_ip, "3.3.3.3");
    assert_eq!(groups[1][1].src_ip, "4.4.4.4");
}

#[test]
fn categorize_keeps_every_flow_once() {
    let recs = vec![record("1", "A"), record("1", "B"), record("1", "C")];
    let mut lib = LabelLibrary::new(&String::from("B"));
    let mut indexed = Vec::new();
    for mut r in recs {
        update_label_and_index_mut(&mut lib, &mut r).unwrap();
        indexed.push(r);
    }
    let flows = cic_to_nf_batch(&indexed);
    let groups = categorize_nf(flows, lib);
    let sizes: Vec<usize> = groups.iter().map(|g| g.len()).collect();
    assert_eq!(sizes, vec![2, 2, 2]);
    assert_eq!(groups[0][0].label().name(), "B");
    assert_eq!(groups[1][0].label().name(), "A");
    assert_eq!(groups[2][0].label().name(), "C");
}

#[test]
fn batch_width_is_shared() {
    let recs = vec![record("5000", "X"), record("1234567", "X"), record("-3", "X")];
    let flows = cic_to_nf_batch(&recs);
    assert_eq!(flows.len(), 6);
    assert!(flows.iter().all(|f| f.duration_str_width == 5));
    assert_eq!(flows[2].format_duration(), "1.234");
    assert_eq!(flows[0].format_duration(), "  0.5");
    assert_eq!(flows[4].format_duration(), "  0.0");
    let small = cic_to_nf_batch(&vec![record("999000", "X")]);
    assert_eq!(small[0].duration_str_width, 5);
    assert_eq!(small[0].format_duration(), "0.999");
    let empty = cic_to_nf_batch(&Vec::new());
    assert!(empty.is_empty());
}

#[test]
fn unpadded_millisecond_rendering() {
    let flows = cic_to_nf_batch(&vec![record("1005000", "X"), record("123456000", "X")]);
    assert_eq!(flows[0].duration_str_width, 7);
    assert_eq!(flows[0].format_duration(), "    1.5");
    assert_eq!(flows[2].format_duration(), "123.456");
}

#[test]
fn digit_counts() {
    assert_eq!(get_n_digit_in_decimal(0), 1);
    assert_eq!(get_n_digit_in_decimal(9), 1);
    assert_eq!(get_n_digit_in_decimal(10), 2);
    assert_eq!(get_n_digit_in_decimal(999), 3);
    assert_eq!(get_n_digit_in_decimal(1000), 4);
    assert_eq!(get_n_digit_in_decimal(u64::MAX), 20);
}

#[test]
fn line_layout() {
    let rec = record("1500000", "BENIGN");
    let flows = cic_to_nf_batch(&vec![rec]);
    assert_eq!(
        flows[0].to_line(),
        "2017-03-07 08:55:58.000 1.500   6        10.0.0.1:443   ->          10.0.0.2:52000   0 ........        4      120     1"
    );
    assert_eq!(
        flows[1].to_line(),
        "2017-03-07 08:55:58.000 1.500   6        10.0.0.2:52000 ->          10.0.0.1:443     0 ........        6      250     1"
    );
}

#[test]
fn flags_render() {
    assert_eq!(Flags::new().to_text(), "........");
    let mut f = Flags::new();
    f.syn = true;
    f.ack = true;
    assert_eq!(f.to_text(), "...A..S.");
}

#[test]
fn label_accessors() {
    let mut l = Label { index: 0, name: String::from("Bot") };
    l.index_mut(4);
    assert_eq!(l.index(), 4);
    assert_eq!(l.name(), "Bot");
    assert_eq!(l.duplicate(), l);
}
