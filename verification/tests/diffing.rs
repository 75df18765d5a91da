use cragdiff::date::Date;
use cragdiff::diff::{compute_diff, generate_diff, render_report, DiffEntry};
use cragdiff::freeform::get_logbook_from_txt;
use cragdiff::logbook::Logbook;
use cragdiff::render::{get_thecrag_logbook_as_string, normalize_logbook, print_logbook};
use cragdiff::tabular::get_logbook_from_thecrag;

fn thecrag_fixture() -> &'static str {
    "Ascent Label,Crag Path,Ascent Date\n\
     R1,Frankenjura - Weißenstein - Upper part,2023-05-02T10:00:00Z\n\
     R2,Frankenjura - Krottenseer Turm,2023-05-01T09:00:00Z\n\
     R3,Frankenjura - Röthelfels,2023-05-01T11:00:00Z\n"
}

#[test]
fn print_is_ascending_and_normalized() {
    let lb = get_logbook_from_thecrag(thecrag_fixture()).unwrap();
    let out = print_logbook(&lb);
    assert_eq!(
        out,
        "2023-05-01: Felsklettern (Krottenseer Turm, Roethelfels)\n\
         2023-05-02: Felsklettern (Weissenstein)"
    );
}

#[test]
fn print_each_date_appears_once() {
    let lb = get_logbook_from_thecrag(thecrag_fixture()).unwrap();
    let out = print_logbook(&lb);
    let mut dates: Vec<&str> = out.lines().map(|l| &l[..10]).collect();
    let before = dates.clone();
    dates.sort();
    dates.dedup();
    assert_eq!(before, dates);
}

#[test]
fn print_pipeline_equals_logbook_then_print() {
    let direct = get_thecrag_logbook_as_string(thecrag_fixture()).unwrap();
    let lb = get_logbook_from_thecrag(thecrag_fixture()).unwrap();
    assert_eq!(direct, print_logbook(&lb));
}

#[test]
fn print_output_reads_back_as_the_same_logbook() {
    let lb = get_logbook_from_thecrag(thecrag_fixture()).unwrap();
    let printed = print_logbook(&lb);
    let wrapped = format!("### BEGIN theCrag sync\n{}", printed);
    let parsed = get_logbook_from_txt(&wrapped).unwrap();
    let normalized = normalize_logbook(&lb);
    assert_eq!(parsed.days.len(), normalized.days.len());
    for (p, n) in parsed.days.iter().zip(normalized.days.iter()) {
        assert_eq!(p.date, n.date);
        assert_eq!(p.crags, n.crags);
    }
}

#[test]
fn diff_of_a_logbook_with_itself_is_empty() {
    let lb = get_logbook_from_thecrag(thecrag_fixture()).unwrap();
    let manual = normalize_logbook(&lb);
    assert_eq!(generate_diff(&lb, &manual), "");
}

#[test]
fn diff_of_two_empty_logbooks_is_empty() {
    let a = Logbook::new();
    let b = Logbook::new();
    assert_eq!(generate_diff(&a, &b), "");
}

#[test]
fn diff_flags_missing_and_extraneous_crags() {
    let ext = get_logbook_from_thecrag(
        "Ascent Label,Crag Path,Ascent Date\n\
         R1,X - A,2023-05-01T10:00:00Z\n\
         R2,X - B,2023-05-01T11:00:00Z\n",
    )
    .unwrap();
    let manual = get_logbook_from_txt(
        "### BEGIN theCrag sync\n2023-05-01: Felsklettern (B, C)\n",
    )
    .unwrap();
    assert_eq!(generate_diff(&ext, &manual), "2023-05-01: -A, +C\n");
}

#[test]
fn diff_flags_a_whole_missing_day() {
    let ext = get_logbook_from_thecrag(
        "Ascent Label,Crag Path,Ascent Date\n\
         R1,X - A,2023-05-01T10:00:00Z\n\
         R2,X - B,2023-05-01T11:00:00Z\n",
    )
    .unwrap();
    let manual = Logbook::new();
    let report = generate_diff(&ext, &manual);
    assert_eq!(report, "-2023-05-01: A, B\n");
    assert!(!report.contains('+'));
}

#[test]
fn diff_flags_a_whole_extraneous_day() {
    let ext = Logbook::new();
    let manual = get_logbook_from_txt(
        "### BEGIN theCrag sync\n2023-05-03: Felsklettern (C)\n",
    )
    .unwrap();
    assert_eq!(generate_diff(&ext, &manual), "+2023-05-03: C\n");
}

#[test]
fn diff_swapping_inputs_swaps_the_tags() {
    let a = get_logbook_from_txt(
        "### BEGIN theCrag sync\n\
         2023-05-01: Felsklettern (A, B)\n\
         2023-05-02: Felsklettern (D)\n",
    )
    .unwrap();
    let b = get_logbook_from_txt(
        "### BEGIN theCrag sync\n\
         2023-05-01: Felsklettern (B, C)\n\
         2023-05-03: Felsklettern (E)\n",
    )
    .unwrap();
    let forward = generate_diff(&a, &b);
    let backward = generate_diff(&b, &a);
    assert_eq!(
        forward,
        "2023-05-01: -A, +C\n-2023-05-02: D\n+2023-05-03: E\n"
    );
    assert_eq!(
        backward,
        "2023-05-01: -C, +A\n+2023-05-02: D\n-2023-05-03: E\n"
    );
}

#[test]
fn diff_normalizes_only_the_external_side() {
    let ext = get_logbook_from_thecrag(
        "Ascent Label,Crag Path,Ascent Date\n\
         R1,X - Röthelfels,2023-05-01T10:00:00Z\n",
    )
    .unwrap();
    let manual = get_logbook_from_txt(
        "### BEGIN theCrag sync\n2023-05-01: Felsklettern (Roethelfels)\n",
    )
    .unwrap();
    assert_eq!(generate_diff(&ext, &manual), "");
}

#[test]
fn diff_entries_mirror_the_report() {
    let ext = get_logbook_from_thecrag(
        "Ascent Label,Crag Path,Ascent Date\n\
         R1,X - A,2023-05-01T10:00:00Z\n",
    )
    .unwrap();
    let manual = Logbook::new();
    let normalized = normalize_logbook(&ext);
    let entries = compute_diff(&normalized, &manual);
    assert_eq!(entries.len(), 1);
    match &entries[0] {
        DiffEntry::MissingDay { date, crags } => {
            assert_eq!(*date, Date { year: 2023, month: 5, day: 1 });
            assert_eq!(crags, &vec!["A".to_string()]);
        },
        other => panic!("expected a whole missing day, got {:?}", other),
    }
    assert_eq!(render_report(&entries), generate_diff(&ext, &manual));
}
