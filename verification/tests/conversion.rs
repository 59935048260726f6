use maiconv::chart::convert;
use maiconv::errors::ChartError;

fn lines(v: &[&str]) -> Vec<String> {
    v.iter().map(|s| s.to_string()).collect()
}

#[test]
fn single_tempo_single_tap() {
    let input = lines(&[
        "[TimingPoints]",
        "0,500,4,2,0,100,1",
        "[HitObjects]",
        "64,192,0,1,0,0:0:0:0:",
    ]);
    let out = convert(&input, None).unwrap();
    assert_eq!(out, "&first=0\n(120.000)1");
}

#[test]
fn two_taps_one_beat_apart() {
    let input = lines(&[
        "[TimingPoints]",
        "0,500,4,2,0,100,1",
        "[HitObjects]",
        "64,192,0,1,0,0:0:0:0:",
        "64,192,500,1,0,0:0:0:0:",
    ]);
    let out = convert(&input, None).unwrap();
    assert_eq!(out, "&first=0\n(120.000)\n{4}1,1");
}

#[test]
fn hold_spanning_one_measure() {
    let input = lines(&[
        "[TimingPoints]",
        "0,1000,4,2,0,100,1",
        "[HitObjects]",
        "64,192,0,128,0,4000:0:0:0:",
    ]);
    let out = convert(&input, None).unwrap();
    assert_eq!(out, "&first=0\n(60.000)1h[1:1]");
}

#[test]
fn subdivision_kept_within_segment() {
    let input = lines(&[
        "[TimingPoints]",
        "0,500,4,2,0,100,1",
        "[HitObjects]",
        "64,192,0,1,0,0:",
        "64,192,250,1,0,0:",
        "64,192,500,1,0,0:",
    ]);
    let out = convert(&input, None).unwrap();
    assert_eq!(out, "&first=0\n(120.000)\n{8}1,1,1");
}

#[test]
fn subdivision_rescales_coarser_gap() {
    let input = lines(&[
        "[TimingPoints]",
        "0,500,4,2,0,100,1",
        "[HitObjects]",
        "64,192,0,1,0,0:",
        "64,192,250,1,0,0:",
        "64,192,750,1,0,0:",
    ]);
    let out = convert(&input, None).unwrap();
    assert_eq!(out, "&first=0\n(120.000)\n{8}1,1,,1");
}

#[test]
fn subdivision_redeclared_when_ratio_reaches_eight() {
    let input = lines(&[
        "[TimingPoints]",
        "0,480,4,2,0,100,1",
        "[HitObjects]",
        "64,192,0,1,0,0:",
        "64,192,60,1,0,0:",
        "64,192,540,1,0,0:",
    ]);
    let out = convert(&input, None).unwrap();
    assert_eq!(out, "&first=0\n(125.000)\n{32}1,\n{4}1,1");
}

#[test]
fn tempo_change_breaks_line_and_resets_subdivision() {
    let input = lines(&[
        "[TimingPoints]",
        "0,500,4,2,0,100,1",
        "500,1000,4,2,0,100,1",
        "[HitObjects]",
        "64,192,0,1,0,0:",
        "64,192,500,1,0,0:",
        "64,192,1000,1,0,0:",
    ]);
    let out = convert(&input, None).unwrap();
    assert_eq!(out, "&first=0\n(120.000)\n{4}1,\n(60.000)\n{8}1,1");
}

#[test]
fn scroll_change_emits_nothing() {
    let input = lines(&[
        "[TimingPoints]",
        "0,500,4,2,0,100,1",
        "250,-50,4,2,0,100,0",
        "[HitObjects]",
        "64,192,0,1,0,0:",
        "64,192,500,1,0,0:",
    ]);
    let out = convert(&input, None).unwrap();
    // the scroll change still marks an instant, splitting the beat in two,
    // but emits no tempo marker of its own
    assert_eq!(out, "&first=0\n(120.000)\n{8}1,,1");
}

#[test]
fn tempo_change_beyond_last_note_emits_no_marker() {
    let input = lines(&[
        "[TimingPoints]",
        "0,500,4,2,0,100,1",
        "2000,428.571,4,2,0,100,1",
        "[HitObjects]",
        "64,192,0,1,0,0:",
        "64,192,500,1,0,0:",
    ]);
    let out = convert(&input, None).unwrap();
    // the unreached tempo change still bounds the last span, but no
    // marker for it is written
    assert_eq!(out, "&first=0\n(120.000)\n{4}1,1,,,");
}

#[test]
fn simultaneous_hits_joined_by_slash() {
    let input = lines(&[
        "[TimingPoints]",
        "0,500,4,2,0,100,1",
        "[HitObjects]",
        "64,192,0,1,0,0:",
        "192,192,0,1,0,0:",
    ]);
    let out = convert(&input, None).unwrap();
    assert_eq!(out, "&first=0\n(120.000)1/2");
}

#[test]
fn key_layout_permutes_symbols() {
    let input = lines(&[
        "[TimingPoints]",
        "0,500,4,2,0,100,1",
        "[HitObjects]",
        "64,192,0,1,0,0:",
    ]);
    let out = convert(&input, Some("87654321")).unwrap();
    assert_eq!(out, "&first=0\n(120.000)8");
}

#[test]
fn key_layout_with_repeats_is_accepted() {
    let input = lines(&[
        "[TimingPoints]",
        "0,500,4,2,0,100,1",
        "[HitObjects]",
        "64,192,0,1,0,0:",
    ]);
    let out = convert(&input, Some("11234567")).unwrap();
    assert_eq!(out, "&first=0\n(120.000)1");
}

#[test]
fn key_layout_with_bad_character_is_rejected() {
    let input = lines(&["[TimingPoints]"]);
    let r = convert(&input, Some("1234567x"));
    assert_eq!(r.unwrap_err(), ChartError::InvalidKeyLayout);
}

#[test]
fn key_layout_with_wrong_length_is_rejected() {
    let input = lines(&["[TimingPoints]"]);
    let r = convert(&input, Some("123"));
    assert_eq!(r.unwrap_err(), ChartError::InvalidKeyLayout);
}

#[test]
fn malformed_tempo_record_fails() {
    let input = lines(&[
        "[TimingPoints]",
        "0,500,4,2,0,100",
        "[HitObjects]",
        "64,192,0,1,0,0:",
    ]);
    let r = convert(&input, None);
    assert_eq!(r.unwrap_err(), ChartError::MalformedInput);
}

#[test]
fn empty_timeline_fails() {
    let input = lines(&["[TimingPoints]", "0,500,4,2,0,100,1", "[HitObjects]"]);
    let r = convert(&input, None);
    assert_eq!(r.unwrap_err(), ChartError::EmptyTimeline);
}

#[test]
fn missing_tempo_fails() {
    let input = lines(&["[HitObjects]", "64,192,0,1,0,0:"]);
    let r = convert(&input, None);
    assert_eq!(r.unwrap_err(), ChartError::NoInitialTempo);
}

#[test]
fn scroll_change_first_fails() {
    let input = lines(&[
        "[TimingPoints]",
        "0,-100,4,2,0,100,0",
        "[HitObjects]",
        "64,192,0,1,0,0:",
    ]);
    let r = convert(&input, None);
    assert_eq!(r.unwrap_err(), ChartError::NoInitialTempo);
}

#[test]
fn out_of_order_notes_fail() {
    let input = lines(&[
        "[TimingPoints]",
        "0,500,4,2,0,100,1",
        "[HitObjects]",
        "64,192,500,1,0,0:",
        "64,192,0,1,0,0:",
    ]);
    let r = convert(&input, None);
    assert_eq!(r.unwrap_err(), ChartError::UnorderedInput);
}

#[test]
fn other_bracketed_section_closes_parsing() {
    let input = lines(&[
        "[TimingPoints]",
        "0,500,4,2,0,100,1",
        "[Colours]",
        "not,a,record",
        "",
        "[HitObjects]",
        "64,192,0,1,0,0:",
    ]);
    let out = convert(&input, None).unwrap();
    assert_eq!(out, "&first=0\n(120.000)1");
}

#[test]
fn fractional_seconds_in_header() {
    let input = lines(&[
        "[TimingPoints]",
        "0,500,4,2,0,100,1",
        "[HitObjects]",
        "64,192,1500,1,0,0:",
    ]);
    let out = convert(&input, None).unwrap();
    assert_eq!(out, "&first=1.5\n(120.000)1");
}

#[test]
fn negative_start_in_header() {
    let input = lines(&[
        "[TimingPoints]",
        "-500,500,4,2,0,100,1",
        "[HitObjects]",
        "64,192,-500,1,0,0:",
    ]);
    let out = convert(&input, None).unwrap();
    assert_eq!(out, "&first=-0.5\n(120.000)1");
}

#[test]
fn millibpm_rounded_to_three_decimals() {
    let input = lines(&[
        "[TimingPoints]",
        "0,333,4,2,0,100,1",
        "[HitObjects]",
        "64,192,0,1,0,0:",
    ]);
    let out = convert(&input, None).unwrap();
    assert_eq!(out, "&first=0\n(180.180)1");
}
