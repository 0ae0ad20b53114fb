use language_model_edit_prediction::provider::LanguageModelEditPredictionProvider;
use language_model_edit_prediction::request::{
    EditPredictionSettings, LanguageModelProviderSettings, LanguageModelRequest, MessageContent,
    Role,
};

type Provider = LanguageModelEditPredictionProvider<u32, &'static str, usize, u64>;

fn settings(stop: Option<Vec<String>>, temperature: Option<f32>) -> EditPredictionSettings<f32> {
    EditPredictionSettings {
        language_model: LanguageModelProviderSettings {
            model: None,
            temperature,
            max_tokens: None,
            stop,
            recent_edits_max_snippets: None,
            current_space_window_lines: None,
            empty_completion_total_attempts: None,
        },
    }
}

fn message(request: &LanguageModelRequest<f32>, index: usize) -> (Role, &str) {
    let message = &request.messages[index];
    assert_eq!(message.content.len(), 1);
    assert!(!message.cache);
    let MessageContent::Text(text) = &message.content[0];
    (message.role, text.as_str())
}

#[test]
fn request_includes_guard_stops_and_temperature() {
    let settings = settings(Some(vec!["X".into(), "[PREFIX]".into()]), Some(0.7));

    let req = Provider::build_request("prefix text", "suffix text", &vec![], &settings, "prompt");

    // Temperature passes through
    assert_eq!(req.temperature, Some(0.7));

    // Stop sequences contain guards, user-provided values, and are deduped
    let stops: std::collections::HashSet<_> = req.stop.iter().cloned().collect();
    for s in ["[PREFIX]", "[/PREFIX]", "[SUFFIX]", "[/SUFFIX]", "X"] {
        assert!(stops.contains(s), "missing stop token: {s}");
    }
    assert_eq!(stops.len(), req.stop.len());
}

#[test]
fn stops_are_sorted_by_code_point_and_listed_once() {
    let own = vec![
        "é".to_string(),
        "zz".to_string(),
        "z".to_string(),
        "".to_string(),
        "z".to_string(),
        "\u{10000}".to_string(),
        "\u{ffff}".to_string(),
        "[SUFFIX]".to_string(),
    ];
    let mut expected: Vec<String> = own.clone();
    for guard in ["[PREFIX]", "[/PREFIX]", "[SUFFIX]", "[/SUFFIX]"] {
        expected.push(guard.to_string());
    }
    expected.sort();
    expected.dedup();
    let req = Provider::build_request("", "", &vec![], &settings(Some(own), None), "");
    assert_eq!(req.stop, expected);
    assert_eq!(
        req.stop,
        vec![
            "",
            "[/PREFIX]",
            "[/SUFFIX]",
            "[PREFIX]",
            "[SUFFIX]",
            "z",
            "zz",
            "é",
            "\u{ffff}",
            "\u{10000}"
        ]
    );
    assert_eq!(req.temperature, None);
}

#[test]
fn request_without_settings_has_the_guard_stops_alone() {
    let req = Provider::build_request("a", "b", &vec![], &settings(None, None), "");
    assert_eq!(req.stop, vec!["[/PREFIX]", "[/SUFFIX]", "[PREFIX]", "[SUFFIX]"]);
}

#[test]
fn request_has_a_system_and_a_user_message() {
    let req = Provider::build_request("let x = ", ";\n", &vec![], &settings(None, None), "Complete.");
    assert_eq!(req.messages.len(), 2);
    assert_eq!(message(&req, 0), (Role::System, "Complete."));
    assert_eq!(
        message(&req, 1),
        (
            Role::User,
            "[PREFIX]\nlet x = \n[/PREFIX]\n[SUFFIX]\n;\n\n[/SUFFIX]"
        )
    );
    assert_eq!(req.infill, Some(true));
    assert!(!req.thinking_allowed);
}

#[test]
fn signatures_come_trimmed_before_the_prefix() {
    let signatures = vec![
        "  fn outer() {\n".to_string(),
        " \t\n".to_string(),
        "mod inner".to_string(),
    ];
    let req = Provider::build_request("p", " \n\u{3000}", &signatures, &settings(None, None), "");
    assert_eq!(
        message(&req, 1).1,
        "Parent signatures:\nfn outer() {\n\nmod inner\n\n\n[PREFIX]\np\n[/PREFIX]\n[SUFFIX]\n \n\u{3000}\n[/SUFFIX]"
    );
    assert_eq!(req.infill, Some(false));
}

#[test]
fn blank_signatures_still_have_their_title() {
    let signatures = vec![" ".to_string()];
    let req = Provider::build_request("p", "s", &signatures, &settings(None, None), "");
    assert_eq!(
        message(&req, 1).1,
        "Parent signatures:\n\n[PREFIX]\np\n[/PREFIX]\n[SUFFIX]\ns\n[/SUFFIX]"
    );
}
