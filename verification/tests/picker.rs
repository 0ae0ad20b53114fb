use language_model_edit_prediction::picker::{
    language_model_picker, MenuItem, PickerModel, PickerProvider,
};

fn models(ids: &[&str]) -> Vec<PickerModel> {
    ids.iter()
        .map(|id| PickerModel {
            id: id.to_string(),
            name: format!("Model {id}"),
        })
        .collect()
}

fn shown(items: &[MenuItem]) -> Vec<String> {
    items
        .iter()
        .map(|item| match item {
            MenuItem::Header(title) => title.clone(),
            MenuItem::Entry(e) => {
                format!("{} {}/{} {}", e.name, e.provider, e.model, e.recommended)
            }
        })
        .collect()
}

#[test]
fn label_names_the_active_model() {
    assert_eq!(language_model_picker(Some("Big".to_string())).label, "Big");
    assert_eq!(language_model_picker(None).label, "Select a Model");
}

#[test]
fn recommended_models_are_not_listed_again() {
    let providers = vec![
        PickerProvider {
            recommended_models: models(&["a"]),
            provided_models: models(&["b", "a", "c"]),
        },
        PickerProvider {
            recommended_models: models(&["c", "d"]),
            provided_models: models(&["d", "e"]),
        },
    ];
    let items = language_model_picker(None).menu(&providers);
    assert_eq!(
        shown(&items),
        vec![
            "Recommended",
            "Model a 0/0 true",
            "Model c 1/0 true",
            "Model d 1/1 true",
            "Other",
            "Model b 0/0 false",
            "Model e 1/1 false",
        ]
    );
}

#[test]
fn empty_sections_have_no_title() {
    let picker = language_model_picker(None);
    assert!(picker.menu(&vec![]).is_empty());
    let only_recommended = vec![PickerProvider {
        recommended_models: models(&["a"]),
        provided_models: models(&["a"]),
    }];
    assert_eq!(
        shown(&picker.menu(&only_recommended)),
        vec!["Recommended", "Model a 0/0 true"]
    );
    let only_other = vec![PickerProvider {
        recommended_models: vec![],
        provided_models: models(&["a"]),
    }];
    assert_eq!(
        shown(&picker.menu(&only_other)),
        vec!["Other", "Model a 0/0 false"]
    );
}
