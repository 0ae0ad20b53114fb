//! Which language model to ask.

use vstd::prelude::*;

use crate::provider::LanguageModelEditPredictionProvider;

verus! {

/// A model named by its provider and its id.
#[derive(Clone, Debug)]
pub struct SelectedModel {
    pub provider: String,
    pub model: String,
}

/// A provider and the ids of the models it has.
pub struct LanguageModelProvider {
    pub id: String,
    pub provided_models: Vec<String>,
}

/// The providers there are.
pub struct LanguageModelRegistry {
    pub providers: Vec<LanguageModelProvider>,
    /// Whether a model is set as the default.
    pub has_default_model: bool,
    /// Whether any provider is authenticated.
    pub has_authenticated_provider: bool,
}

/// A model, by its place in the registry.
#[derive(Clone, Copy, Debug, PartialEq, Eq, Structural)]
pub enum ResolvedModel {
    /// A model of a provider, both by their index.
    Provided { provider: usize, model: usize },
    /// The default model.
    Default,
}

/// The position of the first slash in `s`, or its length where there is none.
pub open spec fn slash_index(s: Seq<char>) -> int
    decreases s.len(),
{
    if s.len() == 0 || s[0] == '/' {
        0
    } else {
        1 + slash_index(s.drop_first())
    }
}

/// The provider and the model that `config` names: what stands before its first slash and what
/// stands behind it.
pub open spec fn split_at_slash(config: Seq<char>) -> Option<(Seq<char>, Seq<char>)> {
    let i = slash_index(config);
    if i < config.len() {
        Some((config.take(i), config.skip(i + 1)))
    } else {
        None
    }
}

/// The provider and the model to look for. Where `config` has no slash, that is left to `parsed`,
/// what another parser has made of it.
pub open spec fn selection(
    config: Option<Seq<char>>,
    parsed: Option<(Seq<char>, Seq<char>)>,
) -> Option<(Seq<char>, Seq<char>)> {
    match config {
        Some(config) => match split_at_slash(config) {
            Some(named) => Some(named),
            None => parsed,
        },
        None => None,
    }
}

/// What a [`SelectedModel`] names.
pub open spec fn named(parsed: Option<SelectedModel>) -> Option<(Seq<char>, Seq<char>)> {
    match parsed {
        Some(selected) => Some((selected.provider@, selected.model@)),
        None => None,
    }
}

/// `i` is the first index at which `id` stands among `ids`.
pub open spec fn first_at(ids: Seq<Seq<char>>, id: Seq<char>, i: int) -> bool {
    &&& 0 <= i < ids.len()
    &&& ids[i] == id
    &&& forall|j: int| 0 <= j < i ==> #[trigger] ids[j] != id
}

/// The ids of the providers.
pub open spec fn provider_ids(providers: Seq<LanguageModelProvider>) -> Seq<Seq<char>> {
    providers.map_values(|p: LanguageModelProvider| p.id@)
}

/// The ids of a provider's models.
pub open spec fn model_ids(provider: LanguageModelProvider) -> Seq<Seq<char>> {
    crate::text::views(provider.provided_models@)
}

/// `found` is the model that is selected: the first of its id that the first provider of its id
/// has, and none where there is no such provider or model; the default one, if there is one, where
/// nothing is selected.
pub open spec fn resolves(
    selected: Option<(Seq<char>, Seq<char>)>,
    registry: LanguageModelRegistry,
    found: Option<ResolvedModel>,
) -> bool {
    match selected {
        Some((provider, model)) => match found {
            Some(ResolvedModel::Provided { provider: p, model: m }) => {
                &&& first_at(provider_ids(registry.providers@), provider, p as int)
                &&& first_at(model_ids(registry.providers@[p as int]), model, m as int)
            },
            Some(ResolvedModel::Default) => false,
            None => forall|p: int|
                #[trigger] first_at(provider_ids(registry.providers@), provider, p)
                    ==> !model_ids(registry.providers@[p]).contains(model),
        },
        None => if registry.has_default_model {
            found == Some(ResolvedModel::Default)
        } else {
            found is None
        },
    }
}

/// The model that is selected is found in one way only.
pub proof fn lemma_resolves_unique(
    selected: Option<(Seq<char>, Seq<char>)>,
    registry: LanguageModelRegistry,
    a: Option<ResolvedModel>,
    b: Option<ResolvedModel>,
)
    requires
        resolves(selected, registry, a),
        resolves(selected, registry, b),
    ensures
        a == b,
{
    if let Some((provider, model)) = selected {
        let ids = provider_ids(registry.providers@);
        if let Some(ResolvedModel::Provided { provider: p, model: m }) = a {
            assert(first_at(ids, provider, p as int));
            assert(model_ids(registry.providers@[p as int])[m as int] == model);
        }
        if let Some(ResolvedModel::Provided { provider: p, model: m }) = b {
            assert(first_at(ids, provider, p as int));
            assert(model_ids(registry.providers@[p as int])[m as int] == model);
        }
        if let Some(ResolvedModel::Provided { provider: p, model: m }) = a {
            if let Some(ResolvedModel::Provided { provider: q, model: n }) = b {
                assert(ids[p as int] == provider && ids[q as int] == provider);
                assert(p == q);
                assert(m == n);
            }
        }
    }
}

/// A name with a slash is split at the first one: the provider has none in it, and putting the two
/// parts together again gives the name, however many slashes the model's id has.
pub proof fn lemma_split_at_slash(config: Seq<char>)
    ensures
        match split_at_slash(config) {
            Some((provider, model)) => {
                &&& !provider.contains('/')
                &&& provider + seq!['/'] + model == config
            },
            None => !config.contains('/'),
        },
{
    lemma_slash_index(config);
    let i = slash_index(config);
    if i < config.len() {
        assert(config.take(i) + seq!['/'] + config.skip(i + 1) =~= config);
    }
}

/// A provider without a slash and a model, with a slash between them, name that provider and that
/// model.
pub proof fn lemma_name_selects(provider: Seq<char>, model: Seq<char>)
    requires
        !provider.contains('/'),
    ensures
        split_at_slash(provider + seq!['/'] + model) == Some((provider, model)),
{
    let config = provider + seq!['/'] + model;
    let n = provider.len() as int;
    let i = slash_index(config);
    lemma_slash_index(config);
    assert(config[n] == '/');
    if i < n {
        assert(provider[i] == config[i]);
        assert(provider.contains('/'));
    }
    if n < i {
        assert(config.take(i)[n] == '/');
    }
    assert(config.take(n) =~= provider);
    assert(config.skip(n + 1) =~= model);
}

proof fn lemma_slash_index(s: Seq<char>)
    ensures
        0 <= slash_index(s) <= s.len(),
        slash_index(s) < s.len() ==> s[slash_index(s)] == '/',
        !s.take(slash_index(s)).contains('/'),
        slash_index(s) == s.len() ==> !s.contains('/'),
    decreases s.len(),
{
    let i = slash_index(s);
    if s.len() > 0 && s[0] != '/' {
        lemma_slash_index(s.drop_first());
        assert forall|j: int| 0 <= j < i implies s[j] != '/' by {
            if j > 0 {
                assert(s[j] == s.drop_first().take(i - 1)[j - 1]);
                assert(s.drop_first().take(i - 1).contains(s[j]));
            }
        }
    }
}

/// Splits `config` at its first slash.
pub fn split_config(config: &str) -> (selected: Option<SelectedModel>)
    ensures
        named(selected) == split_at_slash(config@),
{
    let chars = crate::text::chars_of(config);
    let mut i: usize = 0;
    assert(chars@.skip(0) == chars@);
    while i < chars.len() && chars[i] != '/'
        invariant
            i <= chars.len(),
            slash_index(chars@) == i + slash_index(chars@.skip(i as int)),
        decreases chars.len() - i,
    {
        assert(chars@.skip(i as int).drop_first() == chars@.skip(i + 1));
        i += 1;
    }
    if i < chars.len() {
        let provider = crate::text::substring(&chars, 0, i);
        let model = crate::text::substring(&chars, i + 1, chars.len());
        assert(chars@.subrange(0, i as int) =~= chars@.take(i as int));
        assert(chars@.subrange(i + 1, chars.len() as int) =~= chars@.skip(i + 1));
        Some(SelectedModel { provider, model })
    } else {
        None
    }
}

/// The first index of the provider with the id `id`.
fn find_provider(providers: &Vec<LanguageModelProvider>, id: &String) -> (found: Option<usize>)
    ensures
        match found {
            Some(i) => first_at(provider_ids(providers@), id@, i as int),
            None => !provider_ids(providers@).contains(id@),
        },
{
    let ghost ids = provider_ids(providers@);
    let mut i: usize = 0;
    while i < providers.len()
        invariant
            i <= providers.len(),
            ids == provider_ids(providers@),
            forall|j: int| 0 <= j < i ==> #[trigger] ids[j] != id@,
        decreases providers.len() - i,
    {
        assert(ids[i as int] == providers@[i as int].id@);
        if providers[i].id == *id {
            return Some(i);
        }
        i += 1;
    }
    None
}

/// The first index of the model with the id `id`.
fn find_model(models: &Vec<String>, id: &String) -> (found: Option<usize>)
    ensures
        match found {
            Some(i) => first_at(crate::text::views(models@), id@, i as int),
            None => !crate::text::views(models@).contains(id@),
        },
{
    let ghost ids = crate::text::views(models@);
    let mut i: usize = 0;
    while i < models.len()
        invariant
            i <= models.len(),
            ids == crate::text::views(models@),
            forall|j: int| 0 <= j < i ==> #[trigger] ids[j] != id@,
        decreases models.len() - i,
    {
        assert(ids[i as int] == models@[i as int]@);
        if models[i] == *id {
            return Some(i);
        }
        i += 1;
    }
    None
}

/// Looks up the selected model.
fn look_up(selected: &SelectedModel, registry: &LanguageModelRegistry) -> (found: Option<
    ResolvedModel,
>)
    ensures
        resolves(Some((selected.provider@, selected.model@)), *registry, found),
{
    let ghost ids = provider_ids(registry.providers@);
    match find_provider(&registry.providers, &selected.provider) {
        Some(provider) => match find_model(
            &registry.providers[provider].provided_models,
            &selected.model,
        ) {
            Some(model) => Some(ResolvedModel::Provided { provider, model }),
            None => {
                assert forall|p: int| #[trigger]
                    first_at(ids, selected.provider@, p) implies !model_ids(
                    registry.providers@[p],
                ).contains(selected.model@) by {
                    assert(ids[p] == selected.provider@);
                    assert(ids[provider as int] == selected.provider@);
                    assert(p == provider);
                }
                None
            },
        },
        None => {
            assert forall|p: int| #[trigger]
                first_at(ids, selected.provider@, p) implies !model_ids(
                registry.providers@[p],
            ).contains(selected.model@) by {
                assert(ids[p] == selected.provider@);
            }
            None
        },
    }
}

impl<R, S, A, P> LanguageModelEditPredictionProvider<R, S, A, P> {
    /// Finds the model to ask. `config` is the model that the settings name, and `parsed` what
    /// another parser has made of it, which counts where there is no slash in it.
    pub fn resolve_model(
        config: &Option<String>,
        parsed: &Option<SelectedModel>,
        registry: &LanguageModelRegistry,
    ) -> (found: Option<ResolvedModel>)
        ensures
            resolves(selection(config_view(*config), named(*parsed)), *registry, found),
    {
        if let Some(config) = config {
            if let Some(selected) = split_config(config.as_str()) {
                return look_up(&selected, registry);
            } else if let Some(selected) = parsed {
                return look_up(selected, registry);
            }
        }
        if registry.has_default_model {
            Some(ResolvedModel::Default)
        } else {
            None
        }
    }

    /// Whether edit predictions can be made: there is a model to ask, and some provider is
    /// authenticated.
    pub fn is_enabled(
        &self,
        config: &Option<String>,
        parsed: &Option<SelectedModel>,
        registry: &LanguageModelRegistry,
    ) -> (enabled: bool)
        ensures
            enabled <==> registry.has_authenticated_provider && exists|found: ResolvedModel|
                resolves(selection(config_view(*config), named(*parsed)), *registry, Some(found)),
    {
        match Self::resolve_model(config, parsed, registry) {
            Some(_) => registry.has_authenticated_provider,
            None => {
                assert forall|found: ResolvedModel| !resolves(
                    selection(config_view(*config), named(*parsed)),
                    *registry,
                    Some(found),
                ) by {
                    let selected = selection(config_view(*config), named(*parsed));
                    if resolves(selected, *registry, Some(found)) {
                        lemma_resolves_unique(selected, *registry, None, Some(found));
                    }
                }
                false
            },
        }
    }
}

/// The model that the settings name.
pub open spec fn config_view(config: Option<String>) -> Option<Seq<char>> {
    match config {
        Some(config) => Some(config@),
        None => None,
    }
}

/// Where the settings name a model, what is found is a model of that id of a provider of that id:
/// the default model does not take its place, nor does what another parser has made of the name.
pub proof fn lemma_named_model_is_meant(
    provider: Seq<char>,
    model: Seq<char>,
    parsed: Option<(Seq<char>, Seq<char>)>,
    registry: LanguageModelRegistry,
    found: Option<ResolvedModel>,
)
    requires
        !provider.contains('/'),
        resolves(selection(Some(provider + seq!['/'] + model), parsed), registry, found),
    ensures
        found != Some(ResolvedModel::Default),
        found matches Some(ResolvedModel::Provided { provider: i, model: j }) ==> {
            &&& i < registry.providers@.len()
            &&& registry.providers@[i as int].id@ == provider
            &&& j < registry.providers@[i as int].provided_models@.len()
            &&& registry.providers@[i as int].provided_models@[j as int]@ == model
            &&& forall|q: int| 0 <= q < i ==> (#[trigger] registry.providers@[q]).id@ != provider
            &&& forall|q: int|
                0 <= q < j ==> (#[trigger] registry.providers@[i as int].provided_models@[q])@
                    != model
        },
{
    lemma_name_selects(provider, model);
    let ids = provider_ids(registry.providers@);
    if let Some(ResolvedModel::Provided { provider: i, model: j }) = found {
        assert(ids[i as int] == registry.providers@[i as int].id@);
        assert(model_ids(registry.providers@[i as int])[j as int]
            == registry.providers@[i as int].provided_models@[j as int]@);
        assert forall|q: int| 0 <= q < i implies (#[trigger] registry.providers@[q]).id@
            != provider by {
            assert(ids[q] == registry.providers@[q].id@);
        }
        let models = model_ids(registry.providers@[i as int]);
        assert forall|q: int| 0 <= q < j implies (
        #[trigger] registry.providers@[i as int].provided_models@[q])@ != model by {
            assert(models[q] == registry.providers@[i as int].provided_models@[q]@);
        }
    }
}

/// A model that the settings name is found if there is one: the first of its id that the first
/// provider of its id has.
pub proof fn lemma_named_model_is_found(
    provider: Seq<char>,
    model: Seq<char>,
    parsed: Option<(Seq<char>, Seq<char>)>,
    registry: LanguageModelRegistry,
    found: Option<ResolvedModel>,
    p: usize,
    m: usize,
)
    requires
        !provider.contains('/'),
        resolves(selection(Some(provider + seq!['/'] + model), parsed), registry, found),
        p < registry.providers@.len(),
        registry.providers@[p as int].id@ == provider,
        forall|q: int| 0 <= q < p ==> (#[trigger] registry.providers@[q]).id@ != provider,
        m < registry.providers@[p as int].provided_models@.len(),
        registry.providers@[p as int].provided_models@[m as int]@ == model,
        forall|q: int|
            0 <= q < m ==> (#[trigger] registry.providers@[p as int].provided_models@[q])@ != model,
    ensures
        found == Some(ResolvedModel::Provided { provider: p, model: m }),
{
    lemma_name_selects(provider, model);
    let ids = provider_ids(registry.providers@);
    assert forall|q: int| 0 <= q < p implies #[trigger] ids[q] != provider by {
        assert(ids[q] == registry.providers@[q].id@);
    }
    assert(ids[p as int] == provider);
    let models = model_ids(registry.providers@[p as int]);
    assert forall|q: int| 0 <= q < m implies #[trigger] models[q] != model by {
        assert(models[q] == registry.providers@[p as int].provided_models@[q]@);
    }
    assert(models[m as int] == model);
    let meant = Some(ResolvedModel::Provided { provider: p, model: m });
    assert(resolves(Some((provider, model)), registry, meant));
    lemma_resolves_unique(Some((provider, model)), registry, found, meant);
}

/// Where the settings name no model the default one is meant, if there is one; and so it is where
/// the name has no slash and no other parser has made anything of it. What another parser has made
/// of a name without a slash is looked up like a name with one.
pub proof fn lemma_unnamed_model_is_the_default(
    config: Seq<char>,
    provider: Seq<char>,
    model: Seq<char>,
    registry: LanguageModelRegistry,
    found: Option<ResolvedModel>,
)
    ensures
        resolves(selection(None, Some((provider, model))), registry, found) ==> found == if registry.has_default_model {
            Some(ResolvedModel::Default)
        } else {
            None
        },
        !config.contains('/') && resolves(selection(Some(config), None), registry, found) ==> found
            == if registry.has_default_model {
            Some(ResolvedModel::Default)
        } else {
            None
        },
        !config.contains('/') && !provider.contains('/') ==> selection(
            Some(config),
            Some((provider, model)),
        ) == selection(Some(provider + seq!['/'] + model), None),
{
    lemma_slash_index(config);
    if slash_index(config) < config.len() {
        assert(config.contains('/'));
    }
    if !provider.contains('/') {
        lemma_name_selects(provider, model);
    }
}

} // verus!
