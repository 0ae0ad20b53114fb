use language_model_edit_prediction::provider::{
    Direction, EditPrediction, LanguageModelEditPredictionProvider, PendingCompletion,
    RefreshInput, RefreshOutcome,
};
use language_model_edit_prediction::request::{
    EditPredictionSettings, LanguageModelProviderSettings, MessageContent,
};
use language_model_edit_prediction::run::{Action, Event};
use std::ops::Range;

type Provider = LanguageModelEditPredictionProvider<u32, &'static str, usize, u64>;

fn settings() -> EditPredictionSettings<f32> {
    EditPredictionSettings {
        language_model: LanguageModelProviderSettings {
            model: None,
            temperature: None,
            max_tokens: None,
            stop: None,
            recent_edits_max_snippets: Some(2),
            current_space_window_lines: Some(3),
            empty_completion_total_attempts: Some(2),
        },
    }
}

fn input(buffer_id: u64, file: &str, text: &str, new_rows: &[Range<u32>]) -> RefreshInput {
    RefreshInput {
        buffer_id,
        buffer_name: buffer_id.to_string(),
        file: if file.is_empty() { None } else { Some(file.to_string()) },
        text: text.to_string(),
        cursor_offset: 0,
        line_edits: new_rows.iter().map(|r| (0..0, r.clone())).collect(),
        interpolates: false,
        model_id: Some("acme/big".to_string()),
        parent_signatures: Some(vec![]),
        debounce: false,
    }
}

fn refresh(provider: &mut Provider, input: &RefreshInput) -> RefreshOutcome<f32> {
    assert!(provider.can_refresh(input, &settings()));
    provider.refresh(input, &settings(), "prompt")
}

fn pending(outcome: RefreshOutcome<f32>) -> PendingCompletion<f32> {
    match outcome {
        RefreshOutcome::Request(pending) => pending,
        _ => panic!("no request"),
    }
}

fn asked(outcome: RefreshOutcome<f32>) -> String {
    let MessageContent::Text(text) = pending(outcome).request.messages[1].content[0].clone();
    text
}

fn numbered(rows: Range<u32>) -> String {
    rows.map(|row| format!("row {row}\n")).collect()
}

const WINDOW_OF_EMPTY: &str = "[PREFIX]\n\n[/PREFIX]\n[SUFFIX]\n\n[/SUFFIX]";

/// What a refresh in an empty buffer shows of the recent edits elsewhere.
fn recent_edits(provider: &mut Provider) -> String {
    let message = asked(refresh(provider, &input(99, "elsewhere", "", &[])));
    message.strip_suffix(WINDOW_OF_EMPTY).unwrap().to_string()
}

#[test]
fn new_provider_offers_nothing() {
    let mut provider = Provider::new();
    assert!(!provider.is_refreshing());
    assert!(provider.current_completion().is_none());
    assert_eq!(provider.last_seen_text(1), "");
    assert!(provider.suggest(Some(vec![(0..0, "x".to_string())])).is_none());
    assert_eq!(recent_edits(&mut provider), "");
}

#[test]
fn provider_has_its_names() {
    assert_eq!(Provider::name(), "language_model");
    assert_eq!(Provider::display_name(), "Language Model");
    assert!(Provider::show_completions_in_menu());
    assert!(!Provider::supports_jump_to_edit());
}

#[test]
fn edit_is_remembered_with_the_rows_around_it() {
    let mut provider = Provider::new();
    let text = numbered(0..20);
    refresh(&mut provider, &input(1, "a.rs", &text, &[10..11]));
    assert_eq!(provider.last_seen_text(1), text);
    assert_eq!(
        recent_edits(&mut provider),
        format!(
            "Parent signatures:\nRecent edits across files (latest first):\na.rs:\n{}\n\n",
            numbered(7..15).trim_end()
        ) + "\n"
    );
}

#[test]
fn unchanged_text_is_not_remembered_again() {
    let mut provider = Provider::new();
    let text = numbered(0..20);
    refresh(&mut provider, &input(1, "a.rs", &text, &[10..11]));
    let before = recent_edits(&mut provider);
    refresh(&mut provider, &input(1, "a.rs", &text, &[0..1]));
    assert_eq!(recent_edits(&mut provider), before);
}

#[test]
fn adjacent_edit_of_the_same_file_grows_the_snippet() {
    let mut provider = Provider::new();
    refresh(&mut provider, &input(1, "a.rs", &numbered(0..30), &[10..11]));
    // The snippet of rows 7 to 14 meets that of rows 15 to 22.
    let text = numbered(0..30).replace("row 8\n", "new 8\n");
    refresh(&mut provider, &input(1, "a.rs", &text, &[18..19]));
    let rows = numbered(7..23).replace("row 8\n", "new 8\n");
    assert_eq!(
        recent_edits(&mut provider),
        format!(
            "Parent signatures:\nRecent edits across files (latest first):\na.rs:\n{}\n\n\n",
            rows.trim_end()
        )
    );
}

#[test]
fn distant_edit_of_the_same_file_is_a_snippet_of_its_own() {
    let mut provider = Provider::new();
    refresh(&mut provider, &input(1, "a.rs", &numbered(0..30), &[10..11]));
    let text = numbered(0..30) + "end";
    // The snippet of rows 16 to 23 leaves row 15 out.
    refresh(&mut provider, &input(1, "a.rs", &text, &[19..20]));
    assert_eq!(
        recent_edits(&mut provider),
        format!(
            "Parent signatures:\nRecent edits across files (latest first):\na.rs:\n{}a.rs:\n{}\n\n\n",
            numbered(16..24),
            numbered(7..15).trim_end()
        )
    );
}

#[test]
fn oldest_snippets_are_dropped_and_the_latest_come_first() {
    let mut provider = Provider::new();
    refresh(&mut provider, &input(1, "a.rs", "a", &[0..1]));
    refresh(&mut provider, &input(2, "", "b", &[0..1]));
    refresh(&mut provider, &input(3, "c.rs", "c", &[0..1]));
    assert_eq!(
        recent_edits(&mut provider),
        "Parent signatures:\nRecent edits across files (latest first):\nc.rs:\nc\nbuffer_2:\nb\n\n\n"
    );
}

#[test]
fn edits_of_the_current_file_are_not_repeated() {
    let mut provider = Provider::new();
    refresh(&mut provider, &input(1, "a.rs", "a", &[0..1]));
    let message = asked(refresh(&mut provider, &input(2, "a.rs", "", &[])));
    assert_eq!(message, WINDOW_OF_EMPTY);
}

#[test]
fn snippet_is_chosen_by_the_cursor() {
    let mut provider = Provider::new();
    let mut change = input(1, "a.rs", &numbered(0..40), &[5..6, 20..21, 35..36]);
    change.cursor_offset = change.text.find("row 20").unwrap();
    refresh(&mut provider, &change);
    assert!(recent_edits(&mut provider).contains(numbered(17..25).trim_end()));
    let mut other = Provider::new();
    change.cursor_offset = change.text.find("row 10").unwrap();
    refresh(&mut other, &change);
    assert!(recent_edits(&mut other).contains(numbered(32..40).trim_end()));
}

#[test]
fn request_shows_the_window_and_the_signatures() {
    let mut provider = Provider::new();
    let mut change = input(1, "a.rs", "zero\none\ntwo\nthrée\nfour", &[]);
    change.cursor_offset = "zero\none\ntwo\nthré".len();
    change.parent_signatures = Some(vec![" fn outer() ".to_string()]);
    assert_eq!(
        asked(refresh(&mut provider, &change)),
        "Parent signatures:\nfn outer()\n\n\n[PREFIX]\ntwo\nthré\n[/PREFIX]\n[SUFFIX]\ne\nfour\n[/SUFFIX]"
    );
}

#[test]
fn request_without_an_excerpt_shows_the_text_before_the_cursor() {
    let mut provider = Provider::new();
    refresh(&mut provider, &input(2, "b.rs", "b", &[0..1]));
    let text = format!("{}behind", "0123456789abcdef".repeat(65));
    let mut change = input(1, "a.rs", &text, &[]);
    change.cursor_offset = 1040;
    change.parent_signatures = None;
    let outcome = refresh(&mut provider, &change);
    assert_eq!(
        asked(outcome),
        format!(
            "[PREFIX]\n{}\n[/PREFIX]\n[SUFFIX]\n\n[/SUFFIX]",
            "0123456789abcdef".repeat(64)
        )
    );
}

#[test]
fn run_of_the_request_cleans_what_the_model_repeats() {
    let mut provider = Provider::new();
    let mut change = input(1, "a.rs", "let x = ;", &[]);
    change.cursor_offset = 8;
    let PendingCompletion { mut run, action, .. } = pending(refresh(&mut provider, &change));
    assert!(matches!(action, Action::OpenStream));
    run.step(Event::StreamOpened);
    run.step(Event::Chunk("let x = 1".to_string()));
    match run.step(Event::StreamEnded) {
        Action::Finish(completion) => assert_eq!(completion, Some("1".to_string())),
        other => panic!("unexpected {other:?}"),
    }
    // Without an excerpt, what stands before the cursor is not held against the completion.
    let mut change = input(2, "b.rs", "let x = ;", &[]);
    change.cursor_offset = 8;
    change.parent_signatures = None;
    change.debounce = true;
    let PendingCompletion { mut run, action, .. } = pending(refresh(&mut provider, &change));
    assert!(matches!(action, Action::Wait(150)));
    run.step(Event::Waited);
    run.step(Event::StreamOpened);
    run.step(Event::Chunk("let x = 1".to_string()));
    match run.step(Event::StreamEnded) {
        Action::Finish(completion) => assert_eq!(completion, Some("let x = 1".to_string())),
        other => panic!("unexpected {other:?}"),
    }
}

#[test]
fn completion_in_keeping_with_the_text_is_kept() {
    let mut provider = Provider::new();
    let mut change = input(1, "a.rs", "a", &[0..1]);
    change.interpolates = true;
    // Without a completion on offer there is nothing to keep.
    assert!(matches!(refresh(&mut provider, &change), RefreshOutcome::Request(_)));
    provider.complete("snapshot", Provider::insertion(1, "bc".to_string()), 7);
    change.text = "ab".to_string();
    assert!(matches!(refresh(&mut provider, &change), RefreshOutcome::KeepCurrent));
    assert_eq!(provider.last_seen_text(1), "ab");
    assert!(provider.current_completion().is_some());
    change.interpolates = false;
    assert!(matches!(refresh(&mut provider, &change), RefreshOutcome::Request(_)));
    assert!(provider.current_completion().is_some());
}

#[test]
fn nothing_is_asked_without_a_model() {
    let mut provider = Provider::new();
    let mut change = input(1, "a.rs", "a", &[0..1]);
    change.model_id = None;
    assert!(matches!(refresh(&mut provider, &change), RefreshOutcome::NoModel));
    assert_eq!(provider.last_seen_text(1), "a");
}

#[test]
fn change_of_model_drops_the_completion() {
    let mut provider = Provider::new();
    let mut change = input(1, "a.rs", "a", &[]);
    refresh(&mut provider, &change);
    provider.complete("snapshot", Provider::insertion(1, "b".to_string()), 7);
    refresh(&mut provider, &change);
    assert!(provider.current_completion().is_some());
    change.model_id = Some("acme/small".to_string());
    refresh(&mut provider, &change);
    assert!(provider.current_completion().is_none());
}

#[test]
fn completion_is_suggested_until_taken_or_turned_down() {
    let mut provider = Provider::new();
    provider.set_pending_request(5);
    assert!(provider.is_refreshing());
    let edits = Provider::insertion(4, "text".to_string());
    assert_eq!(edits, vec![(4..4, "text".to_string())]);
    provider.complete("snapshot", edits.clone(), 7);
    assert!(!provider.is_refreshing());
    provider.cycle(Direction::Next);
    let Some(EditPrediction::Local { id, edits: suggested, edit_preview }) =
        provider.suggest(Some(edits.clone()))
    else {
        panic!("nothing suggested");
    };
    assert_eq!(id, None);
    assert_eq!(suggested, edits);
    assert_eq!(edit_preview, Some(7));
    assert!(provider.suggest(None).is_none());
    assert!(provider.suggest(Some(vec![])).is_none());

    provider.set_pending_request(6);
    provider.accept();
    assert!(!provider.is_refreshing());
    assert!(provider.suggest(Some(edits.clone())).is_none());

    provider.complete("snapshot", edits.clone(), 8);
    provider.set_pending_request(9);
    provider.discard();
    assert!(!provider.is_refreshing());
    assert!(provider.suggest(Some(edits)).is_none());
}

#[test]
fn request_without_a_completion_leaves_the_old_one_on_offer() {
    let mut provider = Provider::new();
    let edits = Provider::insertion(4, "text".to_string());
    provider.complete("snapshot", edits.clone(), 7);
    provider.set_pending_request(6);
    provider.finish_empty();
    assert!(!provider.is_refreshing());
    assert!(provider.suggest(Some(edits)).is_some());
}

#[test]
fn changes_that_cannot_be_worked_with_are_told() {
    let provider = Provider::new();
    let mut change = input(1, "a.rs", "é", &[0..1]);
    change.cursor_offset = 1;
    assert!(!provider.can_refresh(&change, &settings()));
    change.cursor_offset = 3;
    assert!(!provider.can_refresh(&change, &settings()));
    change.cursor_offset = 2;
    assert!(provider.can_refresh(&change, &settings()));
    change.line_edits = vec![(0..0, 0..u32::MAX)];
    assert!(!provider.can_refresh(&change, &settings()));
    change.line_edits = vec![(0..0, 0..u32::MAX - 3)];
    assert!(provider.can_refresh(&change, &settings()));

    let mut lacking = settings();
    lacking.language_model.recent_edits_max_snippets = None;
    assert!(!provider.can_refresh(&change, &lacking));
    let mut lacking = settings();
    lacking.language_model.current_space_window_lines = None;
    assert!(!provider.can_refresh(&change, &lacking));
    change.parent_signatures = None;
    assert!(provider.can_refresh(&change, &lacking));
    let mut lacking = settings();
    lacking.language_model.empty_completion_total_attempts = None;
    assert!(!provider.can_refresh(&change, &lacking));
    change.model_id = None;
    assert!(provider.can_refresh(&change, &lacking));

    let mut change = input(1, "a.rs", &"€".repeat(400), &[]);
    change.cursor_offset = 1200;
    change.parent_signatures = None;
    assert!(!provider.can_refresh(&change, &settings()));
    change.cursor_offset = 1023;
    assert!(provider.can_refresh(&change, &settings()));
}
