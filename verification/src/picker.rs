//! The menu from which a user picks the model that makes edit predictions.

use vstd::prelude::*;

use crate::text;

verus! {

/// A model to pick.
#[derive(Clone, Debug)]
pub struct PickerModel {
    pub id: String,
    pub name: String,
}

/// The models of a provider.
pub struct PickerProvider {
    pub recommended_models: Vec<PickerModel>,
    pub provided_models: Vec<PickerModel>,
}

/// A model in the menu: under its name, by the index of its provider and its index among the
/// models that the provider recommends or, if it is not recommended, among those it provides.
#[derive(Clone, Debug)]
pub struct MenuEntry {
    pub name: String,
    pub provider: usize,
    pub model: usize,
    pub recommended: bool,
}

/// A line of the menu.
#[derive(Clone, Debug)]
pub enum MenuItem {
    Header(String),
    Entry(MenuEntry),
}

/// What a [`MenuEntry`] holds.
#[verifier::ext_equal]
pub struct EntryView {
    pub name: Seq<char>,
    pub provider: int,
    pub model: int,
    pub recommended: bool,
}

/// What a [`MenuItem`] shows.
#[verifier::ext_equal]
pub enum ItemView {
    Header(Seq<char>),
    Entry(EntryView),
}

impl View for MenuEntry {
    type V = EntryView;

    open spec fn view(&self) -> EntryView {
        EntryView {
            name: self.name@,
            provider: self.provider as int,
            model: self.model as int,
            recommended: self.recommended,
        }
    }
}

impl View for MenuItem {
    type V = ItemView;

    open spec fn view(&self) -> ItemView {
        match *self {
            MenuItem::Header(title) => ItemView::Header(title@),
            MenuItem::Entry(entry) => ItemView::Entry(entry@),
        }
    }
}

/// The menu, by what it shows.
pub open spec fn item_views(items: Seq<MenuItem>) -> Seq<ItemView> {
    items.map_values(|i: MenuItem| i@)
}

/// The entries, by what they hold.
pub open spec fn entry_views(entries: Seq<MenuEntry>) -> Seq<EntryView> {
    entries.map_values(|e: MenuEntry| e@)
}

/// The first `m` models that provider `p` recommends.
pub open spec fn recommended_by(providers: Seq<PickerProvider>, p: int, m: int) -> Seq<EntryView> {
    Seq::new(
        m as nat,
        |i: int|
            EntryView {
                name: providers[p].recommended_models@[i].name@,
                provider: p,
                model: i,
                recommended: true,
            },
    )
}

/// The models that the first `n` providers recommend.
pub open spec fn recommended(providers: Seq<PickerProvider>, n: int) -> Seq<EntryView>
    decreases n,
{
    if n <= 0 {
        Seq::empty()
    } else {
        recommended(providers, n - 1) + recommended_by(
            providers,
            n - 1,
            providers[n - 1].recommended_models@.len() as int,
        )
    }
}

/// Some provider recommends a model with the id `id`.
pub open spec fn is_recommended(providers: Seq<PickerProvider>, id: Seq<char>) -> bool {
    exists|p: int, m: int| #[trigger] recommends_at(providers, id, p, m)
}

/// The model of index `m` that provider `p` recommends has the id `id`.
pub open spec fn recommends_at(
    providers: Seq<PickerProvider>,
    id: Seq<char>,
    p: int,
    m: int,
) -> bool {
    &&& 0 <= p < providers.len()
    &&& 0 <= m < providers[p].recommended_models@.len()
    &&& providers[p].recommended_models@[m].id@ == id
}

/// Those of the first `m` models of provider `p` that no provider recommends.
pub open spec fn others_by(providers: Seq<PickerProvider>, p: int, m: int) -> Seq<EntryView>
    decreases m,
{
    if m <= 0 {
        Seq::empty()
    } else {
        let model = providers[p].provided_models@[m - 1];
        if is_recommended(providers, model.id@) {
            others_by(providers, p, m - 1)
        } else {
            others_by(providers, p, m - 1).push(
                (EntryView { name: model.name@, provider: p, model: m - 1, recommended: false }),
            )
        }
    }
}

/// The models of the first `n` providers that no provider recommends.
pub open spec fn others(providers: Seq<PickerProvider>, n: int) -> Seq<EntryView>
    decreases n,
{
    if n <= 0 {
        Seq::empty()
    } else {
        others(providers, n - 1) + others_by(
            providers,
            n - 1,
            providers[n - 1].provided_models@.len() as int,
        )
    }
}

/// The entries under their title, or nothing where there are none.
pub open spec fn section(title: Seq<char>, entries: Seq<EntryView>) -> Seq<ItemView> {
    if entries.len() == 0 {
        Seq::empty()
    } else {
        seq![ItemView::Header(title)] + entries.map_values(|e: EntryView| ItemView::Entry(e))
    }
}

/// The menu: the recommended models, and then the others.
pub open spec fn menu_of(providers: Seq<PickerProvider>) -> Seq<ItemView> {
    section("Recommended"@, recommended(providers, providers.len() as int)) + section(
        "Other"@,
        others(providers, providers.len() as int),
    )
}

/// A model listed among the others is one of its provider's, and no provider recommends it: none
/// is listed under both titles.
pub proof fn lemma_others_not_recommended(providers: Seq<PickerProvider>, n: int, i: int)
    requires
        0 <= n <= providers.len(),
        0 <= i < others(providers, n).len(),
    ensures
        ({
            let e = others(providers, n)[i];
            &&& 0 <= e.provider < n
            &&& 0 <= e.model < providers[e.provider].provided_models@.len()
            &&& e.name == providers[e.provider].provided_models@[e.model].name@
            &&& !is_recommended(providers, providers[e.provider].provided_models@[e.model].id@)
        }),
    decreases n,
{
    let above = others(providers, n - 1);
    if i < above.len() {
        lemma_others_not_recommended(providers, n - 1, i);
    } else {
        lemma_others_by(
            providers,
            n - 1,
            providers[n - 1].provided_models@.len() as int,
            i - above.len(),
        );
    }
}

proof fn lemma_others_by(providers: Seq<PickerProvider>, p: int, m: int, i: int)
    requires
        0 <= p < providers.len(),
        0 <= m <= providers[p].provided_models@.len(),
        0 <= i < others_by(providers, p, m).len(),
    ensures
        ({
            let e = others_by(providers, p, m)[i];
            &&& e.provider == p
            &&& 0 <= e.model < m
            &&& e.name == providers[p].provided_models@[e.model].name@
            &&& !is_recommended(providers, providers[p].provided_models@[e.model].id@)
        }),
    decreases m,
{
    if i < others_by(providers, p, m - 1).len() {
        lemma_others_by(providers, p, m - 1, i);
    }
}

/// Every model that a provider has and that is not recommended is listed among the others.
pub proof fn lemma_others_complete(providers: Seq<PickerProvider>, n: int, p: int, m: int)
    requires
        0 <= p < n <= providers.len(),
        0 <= m < providers[p].provided_models@.len(),
        !is_recommended(providers, providers[p].provided_models@[m].id@),
    ensures
        others(providers, n).contains(
            (EntryView {
                name: providers[p].provided_models@[m].name@,
                provider: p,
                model: m,
                recommended: false,
            }),
        ),
    decreases n,
{
    let e = EntryView {
        name: providers[p].provided_models@[m].name@,
        provider: p,
        model: m,
        recommended: false,
    };
    let above = others(providers, n - 1);
    if p < n - 1 {
        lemma_others_complete(providers, n - 1, p, m);
        let k = choose|k: int| 0 <= k < above.len() && above[k] == e;
        assert(others(providers, n)[k] == e);
    } else {
        let count = providers[p].provided_models@.len() as int;
        lemma_others_by_complete(providers, p, count, m);
        let own = others_by(providers, p, count);
        let k = choose|k: int| 0 <= k < own.len() && own[k] == e;
        assert(others(providers, n)[above.len() + k] == e);
    }
}

proof fn lemma_others_by_complete(providers: Seq<PickerProvider>, p: int, count: int, m: int)
    requires
        0 <= p < providers.len(),
        0 <= m < count <= providers[p].provided_models@.len(),
        !is_recommended(providers, providers[p].provided_models@[m].id@),
    ensures
        others_by(providers, p, count).contains(
            (EntryView {
                name: providers[p].provided_models@[m].name@,
                provider: p,
                model: m,
                recommended: false,
            }),
        ),
    decreases count,
{
    let e = EntryView {
        name: providers[p].provided_models@[m].name@,
        provider: p,
        model: m,
        recommended: false,
    };
    let listed = others_by(providers, p, count);
    let above = others_by(providers, p, count - 1);
    if m < count - 1 {
        lemma_others_by_complete(providers, p, count - 1, m);
        let k = choose|k: int| 0 <= k < above.len() && above[k] == e;
        assert(listed[k] == e);
    } else {
        assert(listed[above.len() as int] == e);
    }
}

/// Every model that a provider recommends is listed among the recommended ones.
pub proof fn lemma_recommended_complete(providers: Seq<PickerProvider>, n: int, p: int, m: int)
    requires
        0 <= p < n <= providers.len(),
        0 <= m < providers[p].recommended_models@.len(),
    ensures
        recommended(providers, n).contains(
            (EntryView {
                name: providers[p].recommended_models@[m].name@,
                provider: p,
                model: m,
                recommended: true,
            }),
        ),
    decreases n,
{
    let e = EntryView {
        name: providers[p].recommended_models@[m].name@,
        provider: p,
        model: m,
        recommended: true,
    };
    let above = recommended(providers, n - 1);
    if p < n - 1 {
        lemma_recommended_complete(providers, n - 1, p, m);
        let k = choose|k: int| 0 <= k < above.len() && above[k] == e;
        assert(recommended(providers, n)[k] == e);
    } else {
        assert(recommended(providers, n)[above.len() + m] == e);
    }
}

/// The button that opens the menu.
#[derive(Clone, Debug)]
pub struct LanguageModelPicker {
    pub label: String,
}

/// Makes the picker for the model that is active, by its name, if one is.
pub fn language_model_picker(active: Option<String>) -> (picker: LanguageModelPicker)
    ensures
        picker.label@ == match active {
            Some(name) => name@,
            None => "Select a Model"@,
        },
{
    let label = match active {
        Some(name) => name,
        None => "Select a Model".to_owned(),
    };
    LanguageModelPicker { label }
}

/// Whether `id` is one of `ids`.
fn is_among(ids: &Vec<String>, id: &String) -> (found: bool)
    ensures
        found == text::views(ids@).contains(id@),
{
    let ghost all = text::views(ids@);
    let mut i: usize = 0;
    while i < ids.len()
        invariant
            i <= ids.len(),
            all == text::views(ids@),
            forall|j: int| 0 <= j < i ==> #[trigger] all[j] != id@,
        decreases ids.len() - i,
    {
        assert(all[i as int] == ids@[i as int]@);
        if ids[i] == *id {
            return true;
        }
        i += 1;
    }
    false
}

/// The recommended models, and their ids.
fn collect_recommended(providers: &Vec<PickerProvider>) -> (r: (Vec<MenuEntry>, Vec<String>))
    ensures
        entry_views(r.0@) == recommended(providers@, providers.len() as int),
        forall|id: Seq<char>| #[trigger]
            text::views(r.1@).contains(id) <==> is_recommended(providers@, id),
{
    let mut entries: Vec<MenuEntry> = Vec::new();
    let mut ids: Vec<String> = Vec::new();
    let mut p: usize = 0;
    assert(entry_views(entries@) =~= Seq::<EntryView>::empty());
    while p < providers.len()
        invariant
            p <= providers.len(),
            entry_views(entries@) == recommended(providers@, p as int),
            forall|id: Seq<char>| #[trigger]
                text::views(ids@).contains(id) <==> exists|q: int, m: int|
                    q < p && #[trigger] recommends_at(providers@, id, q, m),
        decreases providers.len() - p,
    {
        let ghost above = recommended(providers@, p as int);
        let mut m: usize = 0;
        assert(above + recommended_by(providers@, p as int, 0) =~= above);
        while m < providers[p].recommended_models.len()
            invariant
                p < providers.len(),
                m <= providers@[p as int].recommended_models@.len(),
                above == recommended(providers@, p as int),
                entry_views(entries@) == above + recommended_by(providers@, p as int, m as int),
                forall|id: Seq<char>| #[trigger]
                    text::views(ids@).contains(id) <==> exists|q: int, k: int|
                        (q < p || (q == p && k < m)) && #[trigger] recommends_at(
                            providers@,
                            id,
                            q,
                            k,
                        ),
            decreases providers@[p as int].recommended_models@.len() - m,
        {
            let ghost old_ids = text::views(ids@);
            let ghost old_entries = entry_views(entries@);
            let model = &providers[p].recommended_models[m];
            let entry = MenuEntry {
                name: model.name.clone(),
                provider: p,
                model: m,
                recommended: true,
            };
            ids.push(model.id.clone());
            entries.push(entry);
            proof {
                assert(entry_views(entries@) =~= old_entries.push(entry@));
                assert(entry_views(entries@) =~= above + recommended_by(
                    providers@,
                    p as int,
                    m + 1,
                ));
                let new_ids = text::views(ids@);
                assert(new_ids =~= old_ids.push(model.id@));
                assert forall|id: Seq<char>| #[trigger]
                    new_ids.contains(id) <==> exists|q: int, k: int|
                        (q < p || (q == p && k < m + 1)) && #[trigger] recommends_at(
                            providers@,
                            id,
                            q,
                            k,
                        ) by {
                    assert(recommends_at(providers@, model.id@, p as int, m as int));
                    if new_ids.contains(id) {
                        let j = choose|j: int| 0 <= j < new_ids.len() && new_ids[j] == id;
                        if j < old_ids.len() {
                            assert(old_ids[j] == id);
                            assert(old_ids.contains(id));
                        }
                    }
                    if exists|q: int, k: int|
                        (q < p || (q == p && k < m + 1)) && #[trigger] recommends_at(
                            providers@,
                            id,
                            q,
                            k,
                        ) {
                        let (q, k) = choose|q: int, k: int|
                            (q < p || (q == p && k < m + 1)) && #[trigger] recommends_at(
                                providers@,
                                id,
                                q,
                                k,
                            );
                        if q == p && k == m {
                            assert(new_ids[old_ids.len() as int] == id);
                        } else {
                            assert(old_ids.contains(id));
                            let j = choose|j: int| 0 <= j < old_ids.len() && old_ids[j] == id;
                            assert(new_ids[j] == id);
                        }
                    }
                }
            }
            m += 1;
        }
        p += 1;
    }
    proof {
        assert forall|id: Seq<char>| #[trigger]
            text::views(ids@).contains(id) <==> is_recommended(providers@, id) by {
            if is_recommended(providers@, id) {
                let (q, m) = choose|q: int, m: int| #[trigger] recommends_at(providers@, id, q, m);
                assert(q < p && recommends_at(providers@, id, q, m));
            }
        }
    }
    (entries, ids)
}

/// The models that are not recommended.
fn collect_others(providers: &Vec<PickerProvider>, recommended_ids: &Vec<String>) -> (entries: Vec<
    MenuEntry,
>)
    requires
        forall|id: Seq<char>| #[trigger]
            text::views(recommended_ids@).contains(id) <==> is_recommended(providers@, id),
    ensures
        entry_views(entries@) == others(providers@, providers.len() as int),
{
    let mut entries: Vec<MenuEntry> = Vec::new();
    let mut p: usize = 0;
    assert(entry_views(entries@) =~= Seq::<EntryView>::empty());
    while p < providers.len()
        invariant
            p <= providers.len(),
            forall|id: Seq<char>| #[trigger]
                text::views(recommended_ids@).contains(id) <==> is_recommended(providers@, id),
            entry_views(entries@) == others(providers@, p as int),
        decreases providers.len() - p,
    {
        let ghost above = others(providers@, p as int);
        let mut m: usize = 0;
        assert(above + others_by(providers@, p as int, 0) =~= above);
        while m < providers[p].provided_models.len()
            invariant
                p < providers.len(),
                m <= providers@[p as int].provided_models@.len(),
                forall|id: Seq<char>| #[trigger]
                    text::views(recommended_ids@).contains(id) <==> is_recommended(providers@, id),
                entry_views(entries@) == above + others_by(providers@, p as int, m as int),
            decreases providers@[p as int].provided_models@.len() - m,
        {
            let model = &providers[p].provided_models[m];
            if !is_among(recommended_ids, &model.id) {
                let ghost old_entries = entry_views(entries@);
                let entry = MenuEntry {
                    name: model.name.clone(),
                    provider: p,
                    model: m,
                    recommended: false,
                };
                entries.push(entry);
                proof {
                    assert(entry_views(entries@) =~= old_entries.push(entry@));
                    assert(entry_views(entries@) =~= above + others_by(
                        providers@,
                        p as int,
                        m + 1,
                    ));
                }
            }
            m += 1;
        }
        p += 1;
    }
    entries
}

/// Adds the entries under their title, if there are any.
fn add_section(items: &mut Vec<MenuItem>, title: &str, entries: Vec<MenuEntry>)
    ensures
        item_views(final(items)@) == item_views(old(items)@) + section(
            title@,
            entry_views(entries@),
        ),
{
    let ghost before = item_views(items@);
    let ghost all = entry_views(entries@);
    if entries.len() == 0 {
        assert(before + section(title@, all) =~= before);
        return;
    }
    items.push(MenuItem::Header(title.to_owned()));
    let ghost listed = all.map_values(|e: EntryView| ItemView::Entry(e));
    let mut i: usize = 0;
    assert(item_views(items@) =~= before + seq![ItemView::Header(title@)] + listed.take(0));
    while i < entries.len()
        invariant
            i <= entries.len(),
            all == entry_views(entries@),
            listed == all.map_values(|e: EntryView| ItemView::Entry(e)),
            item_views(items@) == before + seq![ItemView::Header(title@)] + listed.take(i as int),
        decreases entries.len() - i,
    {
        let ghost so_far = item_views(items@);
        let entry = MenuEntry {
            name: entries[i].name.clone(),
            provider: entries[i].provider,
            model: entries[i].model,
            recommended: entries[i].recommended,
        };
        items.push(MenuItem::Entry(entry));
        proof {
            assert(item_views(items@) =~= so_far.push(ItemView::Entry(entry@)));
            assert(listed[i as int] == ItemView::Entry(all[i as int]));
            assert(all[i as int] == entries@[i as int]@);
            assert(listed.take(i + 1) =~= listed.take(i as int).push(listed[i as int]));
            assert(item_views(items@) =~= before + seq![ItemView::Header(title@)] + listed.take(
                i + 1,
            ));
        }
        i += 1;
    }
    assert(listed.take(entries.len() as int) =~= listed);
    assert(item_views(items@) =~= before + section(title@, all));
}

impl LanguageModelPicker {
    /// The menu to show for the providers there are when it opens.
    pub fn menu(&self, providers: &Vec<PickerProvider>) -> (items: Vec<MenuItem>)
        ensures
            item_views(items@) == menu_of(providers@),
    {
        let mut items: Vec<MenuItem> = Vec::new();
        assert(item_views(items@) =~= Seq::<ItemView>::empty());
        let (recommended, ids) = collect_recommended(providers);
        add_section(&mut items, "Recommended", recommended);
        let other = collect_others(providers, &ids);
        add_section(&mut items, "Other", other);
        assert(item_views(items@) =~= menu_of(providers@));
        items
    }
}

/// Each recommended entry is a model that its provider recommends, under its name, and they come in
/// the order of their providers and, within one, in its order: none comes twice.
pub proof fn lemma_recommended_in_order(providers: Seq<PickerProvider>, n: int, i: int, j: int)
    requires
        0 <= n <= providers.len(),
        0 <= i <= j < recommended(providers, n).len(),
    ensures
        ({
            let e = recommended(providers, n)[i];
            let f = recommended(providers, n)[j];
            &&& 0 <= e.provider < n
            &&& 0 <= e.model < providers[e.provider].recommended_models@.len()
            &&& e.name == providers[e.provider].recommended_models@[e.model].name@
            &&& e.recommended
            &&& i < j ==> e.provider < f.provider || e.provider == f.provider && e.model < f.model
        }),
    decreases n,
{
    let above = recommended(providers, n - 1);
    if j < above.len() {
        lemma_recommended_in_order(providers, n - 1, i, j);
    } else if i < above.len() {
        lemma_recommended_in_order(providers, n - 1, i, i);
    }
}

/// The others come in the order of their providers and, within one, in its order: none comes twice.
pub proof fn lemma_others_in_order(providers: Seq<PickerProvider>, n: int, i: int, j: int)
    requires
        0 <= n <= providers.len(),
        0 <= i < j < others(providers, n).len(),
    ensures
        ({
            let e = others(providers, n)[i];
            let f = others(providers, n)[j];
            &&& !e.recommended && !f.recommended
            &&& e.provider < f.provider || e.provider == f.provider && e.model < f.model
        }),
    decreases n,
{
    let above = others(providers, n - 1);
    let count = providers[n - 1].provided_models@.len() as int;
    if j < above.len() {
        lemma_others_in_order(providers, n - 1, i, j);
    } else if i < above.len() {
        lemma_others_not_recommended(providers, n - 1, i);
        lemma_others_by(providers, n - 1, count, j - above.len());
        lemma_others_marked(providers, n - 1, i);
        lemma_others_by_in_order(providers, n - 1, count, j - above.len(), j - above.len());
    } else {
        lemma_others_by_in_order(providers, n - 1, count, i - above.len(), j - above.len());
    }
}

proof fn lemma_others_marked(providers: Seq<PickerProvider>, n: int, i: int)
    requires
        0 <= n <= providers.len(),
        0 <= i < others(providers, n).len(),
    ensures
        !others(providers, n)[i].recommended,
    decreases n,
{
    let above = others(providers, n - 1);
    if i < above.len() {
        lemma_others_marked(providers, n - 1, i);
    } else {
        let k = i - above.len();
        lemma_others_by_in_order(
            providers,
            n - 1,
            providers[n - 1].provided_models@.len() as int,
            k,
            k,
        );
    }
}

proof fn lemma_others_by_in_order(providers: Seq<PickerProvider>, p: int, m: int, i: int, j: int)
    requires
        0 <= p < providers.len(),
        0 <= m <= providers[p].provided_models@.len(),
        0 <= i <= j < others_by(providers, p, m).len(),
    ensures
        ({
            let e = others_by(providers, p, m)[i];
            let f = others_by(providers, p, m)[j];
            &&& !e.recommended && !f.recommended
            &&& e.provider == p && f.provider == p
            &&& i < j ==> e.model < f.model
        }),
    decreases m,
{
    let above = others_by(providers, p, m - 1);
    if j < above.len() {
        lemma_others_by_in_order(providers, p, m - 1, i, j);
    } else if i < above.len() {
        lemma_others_by_in_order(providers, p, m - 1, i, i);
        lemma_others_by(providers, p, m - 1, i);
    }
}

/// The menu shows the recommended models under their title and then the others under theirs, each
/// as it is listed; a title stands there only where something stands under it.
pub proof fn lemma_menu_has_two_sections(providers: Seq<PickerProvider>, i: int)
    ensures
        ({
            let menu = menu_of(providers);
            let first = recommended(providers, providers.len() as int);
            let second = others(providers, providers.len() as int);
            let start = if first.len() > 0 {
                first.len() + 1
            } else {
                0
            };
            &&& menu.len() == start + if second.len() > 0 {
                second.len() + 1
            } else {
                0
            }
            &&& first.len() > 0 ==> menu[0] == ItemView::Header("Recommended"@)
            &&& 0 <= i < first.len() ==> menu[1 + i] == ItemView::Entry(first[i])
            &&& second.len() > 0 ==> menu[start as int] == ItemView::Header("Other"@)
            &&& 0 <= i < second.len() ==> menu[start + 1 + i] == ItemView::Entry(second[i])
        }),
{
}

/// No model among the others has the id of a model that any provider recommends.
pub proof fn lemma_no_model_under_both_titles(
    providers: Seq<PickerProvider>,
    i: int,
    p: int,
    m: int,
)
    requires
        0 <= i < others(providers, providers.len() as int).len(),
        0 <= p < providers.len(),
        0 <= m < providers[p].recommended_models@.len(),
    ensures
        ({
            let e = others(providers, providers.len() as int)[i];
            providers[e.provider].provided_models@[e.model].id@
                != providers[p].recommended_models@[m].id@
        }),
{
    lemma_others_not_recommended(providers, providers.len() as int, i);
    let e = others(providers, providers.len() as int)[i];
    let id = providers[e.provider].provided_models@[e.model].id@;
    if providers[p].recommended_models@[m].id@ == id {
        assert(recommends_at(providers, id, p, m));
    }
}

/// A model whose id no provider recommends is listed among the others.
pub proof fn lemma_unrecommended_model_is_listed(providers: Seq<PickerProvider>, p: int, m: int)
    requires
        0 <= p < providers.len(),
        0 <= m < providers[p].provided_models@.len(),
        forall|q: int, k: int|
            0 <= q < providers.len() && 0 <= k < providers[q].recommended_models@.len() ==> (
            #[trigger] providers[q].recommended_models@[k]).id@
                != providers[p].provided_models@[m].id@,
    ensures
        exists|i: int|
            #![trigger others(providers, providers.len() as int)[i]]
            {
                let listed = others(providers, providers.len() as int);
                &&& 0 <= i < listed.len()
                &&& listed[i].provider == p
                &&& listed[i].model == m
                &&& listed[i].name == providers[p].provided_models@[m].name@
            },
{
    let id = providers[p].provided_models@[m].id@;
    assert(!is_recommended(providers, id)) by {
        if is_recommended(providers, id) {
            let (q, k) = choose|q: int, k: int| #[trigger] recommends_at(providers, id, q, k);
            assert(providers[q].recommended_models@[k].id@ == id);
        }
    }
    lemma_others_complete(providers, providers.len() as int, p, m);
    let listed = others(providers, providers.len() as int);
    let e = EntryView {
        name: providers[p].provided_models@[m].name@,
        provider: p,
        model: m,
        recommended: false,
    };
    let i = choose|i: int| 0 <= i < listed.len() && listed[i] == e;
    assert(listed[i].provider == p);
}

} // verus!
