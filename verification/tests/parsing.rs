use cragdiff::date::{format_date, parse_date, parse_timestamp, Date};
use cragdiff::errors::LogbookError;
use cragdiff::freeform::{get_logbook_from_txt, parse_txt_line};
use cragdiff::logbook::{LogDay, Logbook};
use cragdiff::normalize::transliterate_crag_name;
use cragdiff::path::get_crag_name_from_path;
use cragdiff::tabular::{get_logbook_from_thecrag, get_ticks_from_csv};

fn days_of(lb: &Logbook) -> Vec<(Date, Vec<String>)> {
    lb.days.iter().map(|d: &LogDay| (d.date, d.crags.clone())).collect()
}

#[test]
fn resolver_drops_trailing_sector_labels() {
    let r = get_crag_name_from_path("Frankenjura - Sektor A - Upper part").unwrap();
    assert_eq!(r, "Sektor A");
}

#[test]
fn resolver_drops_several_sector_labels() {
    let r = get_crag_name_from_path("Area - Crag - Left - Upper part").unwrap();
    assert_eq!(r, "Crag");
}

#[test]
fn resolver_override_picks_fixed_position() {
    // The override table sends "Geyikbayırı" to position 1 of the path.
    let r = get_crag_name_from_path("Antalya - Geyikbayırı - Sector X - Upper part").unwrap();
    assert_eq!(r, "Geyikbayırı");
}

#[test]
fn resolver_override_beats_stoplist() {
    // Counted from the start: position 1 of this path is "Sector X".
    let r = get_crag_name_from_path("Geyikbayırı - Sector X - Upper part").unwrap();
    assert_eq!(r, "Sector X");
}

#[test]
fn resolver_empty_path_gives_empty_name() {
    let r = get_crag_name_from_path("").unwrap();
    assert_eq!(r, "");
}

#[test]
fn resolver_all_stoplist_gives_empty_name() {
    let r = get_crag_name_from_path("Left - Right - Middle").unwrap();
    assert_eq!(r, "");
}

#[test]
fn resolver_override_out_of_range_is_refused() {
    // "Frankenjura Nord" asks for position 3 of a two-node path.
    assert!(get_crag_name_from_path("Frankenjura Nord - Left").is_none());
}

#[test]
fn normalizer_sharp_s_via_generic_transliteration() {
    assert_eq!(transliterate_crag_name("Weißenstein"), "Weissenstein");
}

#[test]
fn normalizer_umlaut_table_before_generic_pass() {
    assert_eq!(transliterate_crag_name("Frühstückstal"), "Fruehstueckstal");
}

#[test]
fn normalizer_uppercase_umlauts() {
    assert_eq!(transliterate_crag_name("ÄÖÜ"), "AeOeUe");
}

#[test]
fn normalizer_is_idempotent() {
    let once = transliterate_crag_name("Frühstückstal");
    let twice = transliterate_crag_name(&once);
    assert_eq!(once, twice);
}

#[test]
fn date_parses_and_formats() {
    let d = parse_date("2023-05-01").unwrap();
    assert_eq!(d, Date { year: 2023, month: 5, day: 1 });
    assert_eq!(format_date(&d), "2023-05-01");
}

#[test]
fn date_rejects_impossible_days() {
    assert!(parse_date("2023-02-30").is_none());
    assert!(parse_date("2023-13-01").is_none());
    assert!(parse_date("2023-00-10").is_none());
    assert!(parse_date("2023-01-00").is_none());
    assert!(parse_date("2023-1-1").is_none());
    assert!(parse_date("20230101").is_none());
}

#[test]
fn date_knows_leap_years() {
    assert!(parse_date("2024-02-29").is_some());
    assert!(parse_date("2023-02-29").is_none());
    assert!(parse_date("2000-02-29").is_some());
    assert!(parse_date("1900-02-29").is_none());
}

#[test]
fn timestamp_keeps_the_date_part() {
    let d = parse_timestamp("2023-05-01T10:20:30Z").unwrap();
    assert_eq!(d, Date { year: 2023, month: 5, day: 1 });
}

#[test]
fn timestamp_rejects_wrong_shapes() {
    assert!(parse_timestamp("2023-05-01").is_none());
    assert!(parse_timestamp("2023-05-01 10:20:30Z").is_none());
    assert!(parse_timestamp("2023-05-01T25:20:30Z").is_none());
    assert!(parse_timestamp("2023-05-01T10:61:30Z").is_none());
    assert!(parse_timestamp("2023-02-30T10:20:30Z").is_none());
}

#[test]
fn csv_rows_become_ticks_in_order() {
    let csv = "Ascent Label,Crag Path,Ascent Date\n\
               Route B,Frankenjura - Krottenseer Turm - Left,2023-05-02T09:00:00Z\n\
               Route A,Frankenjura - Weißenstein,2023-05-01T10:00:00Z\n";
    let ticks = get_ticks_from_csv(csv).unwrap();
    assert_eq!(ticks.len(), 2);
    assert_eq!(ticks[0].route_name, "Route B");
    assert_eq!(ticks[0].crag_name, "Krottenseer Turm");
    assert_eq!(ticks[0].date, Date { year: 2023, month: 5, day: 2 });
    assert_eq!(ticks[1].crag_name, "Weißenstein");
}

#[test]
fn csv_quoted_fields_are_understood() {
    let csv = "Ascent Label,Crag Path,Ascent Date\n\
               \"Route, the great\",Frankenjura - Krottenseer Turm,2023-05-02T09:00:00Z\n";
    let ticks = get_ticks_from_csv(csv).unwrap();
    assert_eq!(ticks.len(), 1);
    assert_eq!(ticks[0].route_name, "Route, the great");
}

#[test]
fn csv_missing_column_is_reported() {
    let csv = "Ascent Label,Ascent Date\nRoute A,2023-05-01T10:00:00Z\n";
    match get_logbook_from_thecrag(csv) {
        Err(LogbookError::MissingField(name)) => assert_eq!(name, "Crag Path"),
        other => panic!("expected a missing-field error, got {:?}", other),
    }
}

#[test]
fn csv_without_data_rows_gives_empty_logbook() {
    let lb = get_logbook_from_thecrag("Whatever,Header\n").unwrap();
    assert_eq!(lb.days.len(), 0);
}

#[test]
fn csv_bad_timestamp_is_reported_with_raw_value() {
    let csv = "Ascent Label,Crag Path,Ascent Date\nRoute A,Somewhere,01.05.2023\n";
    match get_ticks_from_csv(csv) {
        Err(LogbookError::BadDate(raw)) => {
            assert_eq!(raw, "01.05.2023");
            assert_eq!(
                LogbookError::BadDate(raw).message(),
                "cannot parse date \"01.05.2023\""
            );
        },
        other => panic!("expected a date error, got {:?}", other),
    }
}

#[test]
fn csv_ascents_fold_into_day_sets() {
    let csv = "Ascent Label,Crag Path,Ascent Date\n\
               R1,A - CragOne,2023-05-01T10:00:00Z\n\
               R2,A - CragTwo,2023-05-01T11:00:00Z\n\
               R3,A - CragOne,2023-05-01T12:00:00Z\n";
    let lb = get_logbook_from_thecrag(csv).unwrap();
    let days = days_of(&lb);
    assert_eq!(days.len(), 1);
    assert_eq!(days[0].0, Date { year: 2023, month: 5, day: 1 });
    assert_eq!(days[0].1, vec!["CragOne".to_string(), "CragTwo".to_string()]);
}

#[test]
fn txt_line_matches_the_fixed_pattern() {
    let ld = parse_txt_line("2023-05-01: Felsklettern (B, A)").unwrap().unwrap();
    assert_eq!(ld.date, Date { year: 2023, month: 5, day: 1 });
    assert_eq!(ld.crags, vec!["A".to_string(), "B".to_string()]);
}

#[test]
fn txt_line_prose_is_skipped() {
    assert!(parse_txt_line("went bouldering with friends").unwrap().is_none());
    assert!(parse_txt_line("2023-05-01: Bouldern (A)").unwrap().is_none());
    assert!(parse_txt_line("2023-05-01: Felsklettern ()").unwrap().is_none());
}

#[test]
fn txt_line_bad_date_is_an_error() {
    match parse_txt_line("2023-13-01: Felsklettern (A)") {
        Err(LogbookError::BadDate(raw)) => assert_eq!(raw, "2023-13-01"),
        other => panic!("expected a date error, got {:?}", other),
    }
}

#[test]
fn txt_log_reads_only_after_the_sentinel() {
    let txt = "2020-01-01: Felsklettern (Ignored)\n\
               some prose\n\
               ### BEGIN theCrag sync\n\
               2023-05-01: Felsklettern (A)\n\
               more prose in between\n\
               2023-05-02: Felsklettern (B)\n";
    let lb = get_logbook_from_txt(txt).unwrap();
    let days = days_of(&lb);
    assert_eq!(days.len(), 2);
    assert_eq!(days[0].0, Date { year: 2023, month: 5, day: 1 });
    assert_eq!(days[0].1, vec!["A".to_string()]);
    assert_eq!(days[1].1, vec!["B".to_string()]);
}

#[test]
fn txt_log_without_sentinel_is_empty() {
    let lb = get_logbook_from_txt("2023-05-01: Felsklettern (A)\n").unwrap();
    assert_eq!(lb.days.len(), 0);
}

#[test]
fn txt_log_last_line_wins_for_a_date() {
    let txt = "### BEGIN theCrag sync\n\
               2023-05-01: Felsklettern (A, B)\n\
               2023-05-01: Felsklettern (C)\n";
    let lb = get_logbook_from_txt(txt).unwrap();
    let days = days_of(&lb);
    assert_eq!(days.len(), 1);
    assert_eq!(days[0].1, vec!["C".to_string()]);
}

#[test]
fn csv_out_of_range_override_is_a_malformed_row() {
    // "Frankenjura Nord" sends the resolver to position 3 of a
    // two-node path, which does not exist.
    let csv = "Ascent Label,Crag Path,Ascent Date\n\
               R1,Frankenjura Nord - Left,2023-05-01T10:00:00Z\n";
    match get_ticks_from_csv(csv) {
        Err(LogbookError::MalformedRow(raw)) => {
            assert_eq!(raw, "Frankenjura Nord - Left");
            assert_eq!(
                LogbookError::MalformedRow(raw).message(),
                "malformed row: Frankenjura Nord - Left"
            );
        },
        other => panic!("expected a malformed-row error, got {:?}", other),
    }
}

#[test]
fn csv_unequal_row_length_is_a_malformed_row() {
    let csv = "Ascent Label,Crag Path,Ascent Date\nR1,OnlyTwoFields\n";
    match get_ticks_from_csv(csv) {
        Err(LogbookError::MalformedRow(_)) => {},
        other => panic!("expected a malformed-row error, got {:?}", other),
    }
}

#[test]
fn missing_field_message_names_the_column() {
    let e = LogbookError::MissingField("Crag Path".to_string());
    assert_eq!(e.message(), "missing required column: Crag Path");
}

#[test]
fn normalizer_keeps_below_del_input_unchanged() {
    assert_eq!(transliterate_crag_name("Sektor A 1-2!"), "Sektor A 1-2!");
}

#[test]
fn normalizer_drops_the_delete_control() {
    // U+007F is the one ASCII character the transliteration does not
    // keep: it maps to the empty string.
    assert_eq!(transliterate_crag_name("\u{7f}"), "");
    assert_eq!(transliterate_crag_name("A\u{7f}B"), "AB");
}
