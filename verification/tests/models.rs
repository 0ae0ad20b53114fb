use language_model_edit_prediction::models::{
    split_config, LanguageModelProvider, LanguageModelRegistry, ResolvedModel, SelectedModel,
};
use language_model_edit_prediction::provider::LanguageModelEditPredictionProvider;

type Provider = LanguageModelEditPredictionProvider<u32, &'static str, usize, u64>;

fn registry(has_default_model: bool, has_authenticated_provider: bool) -> LanguageModelRegistry {
    LanguageModelRegistry {
        providers: vec![
            LanguageModelProvider {
                id: "acme".to_string(),
                provided_models: vec!["small".to_string(), "owner/big:7b".to_string()],
            },
            LanguageModelProvider {
                id: "zeta".to_string(),
                provided_models: vec!["small".to_string(), "".to_string()],
            },
        ],
        has_default_model,
        has_authenticated_provider,
    }
}

fn resolve(config: &str, has_default_model: bool) -> Option<ResolvedModel> {
    Provider::resolve_model(&Some(config.to_string()), &None, &registry(has_default_model, true))
}

#[test]
fn is_enabled_true_with_default_model_and_authenticated() {
    let registry = LanguageModelRegistry {
        providers: vec![],
        has_default_model: true,
        has_authenticated_provider: true,
    };
    let provider = Provider::new();
    let enabled = provider.is_enabled(&None, &None, &registry);
    assert!(
        enabled,
        "provider should be enabled when a default model exists and a provider is authenticated"
    );
}

#[test]
fn is_enabled_needs_a_model_and_authentication() {
    let provider = Provider::new();
    assert!(!provider.is_enabled(&None, &None, &registry(true, false)));
    assert!(!provider.is_enabled(&None, &None, &registry(false, true)));
    let missing = Some("acme/none".to_string());
    assert!(!provider.is_enabled(&missing, &None, &registry(true, true)));
    let named = Some("acme/small".to_string());
    assert!(provider.is_enabled(&named, &None, &registry(false, true)));
}

#[test]
fn config_is_split_at_the_first_slash_only() {
    let selected = split_config("owner/model_name/v2:7b").unwrap();
    assert_eq!(selected.provider, "owner");
    assert_eq!(selected.model, "model_name/v2:7b");
    let selected = split_config("/").unwrap();
    assert_eq!(selected.provider, "");
    assert_eq!(selected.model, "");
    assert!(split_config("no slash").is_none());
    assert!(split_config("").is_none());
}

#[test]
fn named_model_is_looked_up() {
    assert_eq!(
        resolve("acme/small", true),
        Some(ResolvedModel::Provided { provider: 0, model: 0 })
    );
    assert_eq!(
        resolve("acme/owner/big:7b", true),
        Some(ResolvedModel::Provided { provider: 0, model: 1 })
    );
    assert_eq!(
        resolve("zeta/", true),
        Some(ResolvedModel::Provided { provider: 1, model: 1 })
    );
}

#[test]
fn missing_named_model_does_not_fall_back_to_the_default() {
    assert_eq!(resolve("acme/other", true), None);
    assert_eq!(resolve("other/small", true), None);
}

#[test]
fn default_model_is_used_where_nothing_is_named() {
    assert_eq!(
        Provider::resolve_model(&None, &None, &registry(true, true)),
        Some(ResolvedModel::Default)
    );
    assert_eq!(Provider::resolve_model(&None, &None, &registry(false, true)), None);
    assert_eq!(resolve("no slash", true), Some(ResolvedModel::Default));
    assert_eq!(resolve("no slash", false), None);
}

#[test]
fn parsed_selection_counts_without_a_slash_alone() {
    let parsed = Some(SelectedModel {
        provider: "zeta".to_string(),
        model: "small".to_string(),
    });
    assert_eq!(
        Provider::resolve_model(&Some("no slash".to_string()), &parsed, &registry(true, true)),
        Some(ResolvedModel::Provided { provider: 1, model: 0 })
    );
    assert_eq!(
        Provider::resolve_model(&Some("acme/small".to_string()), &parsed, &registry(true, true)),
        Some(ResolvedModel::Provided { provider: 0, model: 0 })
    );
    assert_eq!(
        Provider::resolve_model(&None, &parsed, &registry(true, true)),
        Some(ResolvedModel::Default)
    );
}
