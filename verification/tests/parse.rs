use taskflow::nlp::parse_task_input;
use taskflow::nlp::parse_task_input_at;

// 2023-11-14 22:13:20 UTC, a Tuesday; epoch day 19675.
const NOW: i64 = 1_700_000_000;

fn nine_am(day: i64) -> i64 {
    day * 86400 + 32400
}

#[test]
fn test_context_extraction() {
    let p = parse_task_input("Buy milk @groceries");
    assert_eq!(p.title, "Buy milk");
    assert_eq!(p.context, Some("groceries".to_string()));
}

#[test]
fn test_tomorrow_parsing() {
    let p = parse_task_input("Call mom tomorrow");
    assert_eq!(p.title, "Call mom");
    assert!(p.scheduled_for.is_some());
}

#[test]
fn context_capture_has_no_schedule() {
    let p = parse_task_input_at("Buy milk @groceries", NOW);
    assert_eq!(p.title, "Buy milk");
    assert_eq!(p.context, Some("groceries".to_string()));
    assert_eq!(p.scheduled_for, None);
}

#[test]
fn tomorrow_resolves_to_nine_am() {
    let p = parse_task_input_at("Call mom tomorrow", NOW);
    assert_eq!(p.title, "Call mom");
    assert_eq!(p.context, None);
    assert_eq!(p.scheduled_for, Some(nine_am(19676)));
}

#[test]
fn context_and_day_count_combine() {
    let p = parse_task_input_at("Review @work in 3 days", NOW);
    assert_eq!(p.title, "Review");
    assert_eq!(p.context, Some("work".to_string()));
    assert_eq!(p.scheduled_for, Some(nine_am(19678)));
}

#[test]
fn later_date_rule_overwrites_earlier() {
    let p = parse_task_input_at("Pay rent tomorrow in 2 days", NOW);
    assert_eq!(p.title, "Pay rent");
    assert_eq!(p.scheduled_for, Some(nine_am(19677)));
}

#[test]
fn next_weekday_resolves() {
    // NOW falls on a Tuesday; the next Monday is six days out.
    let p = parse_task_input_at("Plan sprint next monday", NOW);
    assert_eq!(p.title, "Plan sprint");
    assert_eq!(p.scheduled_for, Some(nine_am(19681)));
}

#[test]
fn weekday_enumeration_order_wins() {
    // Monday precedes Friday in rule order, whatever the phrase order.
    let p = parse_task_input_at("next friday next monday", NOW);
    assert_eq!(p.scheduled_for, Some(nine_am(19681)));
    assert_eq!(p.title, "next friday");
}

#[test]
fn reparse_of_title_extracts_nothing() {
    let p1 = parse_task_input_at("Buy milk @groceries tomorrow", NOW);
    let p2 = parse_task_input_at(&p1.title, NOW);
    assert_eq!(p2.title, p1.title);
    assert_eq!(p2.context, None);
    assert_eq!(p2.scheduled_for, None);
}

#[test]
fn unparsable_day_count_is_a_non_match() {
    let p = parse_task_input_at("Ship in 99999999999999999999 days", NOW);
    assert_eq!(p.title, "Ship in 99999999999999999999 days");
    assert_eq!(p.scheduled_for, None);
}

#[test]
fn keywords_inside_words_do_not_match() {
    let p = parse_task_input_at("Visit tomorrowland within 3 days-ish", NOW);
    assert_eq!(p.title, "Visit tomorrowland within 3 days-ish");
    assert_eq!(p.scheduled_for, None);
    assert_eq!(p.context, None);
}

#[test]
fn keyword_match_is_case_insensitive() {
    let p = parse_task_input_at("Call Mom TOMORROW", NOW);
    assert_eq!(p.title, "Call Mom");
    assert_eq!(p.scheduled_for, Some(nine_am(19676)));
}

#[test]
fn zero_day_count_means_today() {
    let p = parse_task_input_at("Ship in 0 days", NOW);
    assert_eq!(p.title, "Ship");
    assert_eq!(p.scheduled_for, Some(nine_am(19675)));
}

#[test]
fn same_weekday_wraps_a_full_week() {
    // NOW falls on a Tuesday; "next tuesday" scans to the one a week out.
    let p = parse_task_input_at("Sync next tuesday", NOW);
    assert_eq!(p.title, "Sync");
    assert_eq!(p.scheduled_for, Some(nine_am(19682)));
}

#[test]
fn empty_input_parses_to_empty_title() {
    let p = parse_task_input_at("", NOW);
    assert_eq!(p.title, "");
    assert_eq!(p.context, None);
    assert_eq!(p.scheduled_for, None);
}

#[test]
fn input_is_trimmed_and_cuts_collapse() {
    let p = parse_task_input_at("  Review @work notes  ", NOW);
    assert_eq!(p.title, "Review notes");
    assert_eq!(p.context, Some("work".to_string()));
}

#[test]
fn only_first_context_token_is_captured() {
    let p = parse_task_input_at("Ping @alice about @bob", NOW);
    assert_eq!(p.context, Some("alice".to_string()));
    assert_eq!(p.title, "Ping about @bob");
}
