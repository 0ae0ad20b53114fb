//! The edit prediction provider: what it remembers, and what it does when the text changes.

use std::collections::{HashMap, VecDeque};
use std::ops::Range;
use vstd::prelude::*;

use crate::ranges;
use crate::request;
use crate::request::{EditPredictionSettings, LanguageModelRequest};
use crate::rows;
use crate::run;
use crate::run::{Action, CompletionRun};
use crate::sanitize;
use crate::snippets;
use crate::snippets::RecentSnippet;
use crate::text;
use crate::window;

verus! {

broadcast use vstd::std_specs::hash::group_hash_axioms;

/// The completion that is on offer: the snapshot of the buffer that it was made for, the edits
/// that insert it, and their preview.
#[derive(Clone, Debug)]
pub struct CurrentCompletion<S, A, P> {
    pub snapshot: S,
    pub edits: Vec<(Range<A>, String)>,
    pub edit_preview: P,
}

/// Makes edit predictions by asking a language model.
///
/// `R` is a request under way, which is cancelled when it is dropped; `S` is a snapshot of a
/// buffer, `A` a position in one, and `P` the preview of edits.
pub struct LanguageModelEditPredictionProvider<R, S, A, P> {
    pending_request: Option<R>,
    current_completion: Option<CurrentCompletion<S, A, P>>,
    last_model_id: Option<String>,
    /// The last snippets of edited text, each with its file and its rows.
    recent_snippets: VecDeque<RecentSnippet>,
    /// The text of each buffer as it was last seen, to tell what an edit has changed.
    last_seen_text_by_buffer: HashMap<u64, String>,
}

/// What a [`LanguageModelEditPredictionProvider`] holds.
#[verifier::ext_equal]
pub struct ProviderView<R, S, A, P> {
    pub pending_request: Option<R>,
    pub current_completion: Option<CurrentCompletion<S, A, P>>,
    pub last_model_id: Option<Seq<char>>,
    pub recent_snippets: Seq<snippets::SnippetView>,
    pub last_seen: Map<u64, Seq<char>>,
}

/// What the editor has to say when its text or cursor has changed.
pub struct RefreshInput {
    /// The buffer, by a number of its own.
    pub buffer_id: u64,
    /// The buffer's number as text, by which a buffer without a file is known.
    pub buffer_name: String,
    /// The path of the buffer's file, if it has one.
    pub file: Option<String>,
    /// The text of the buffer.
    pub text: String,
    /// The cursor, in bytes from the start of the text.
    pub cursor_offset: usize,
    /// The rows that differ between the text last seen and this one: old rows and new rows.
    pub line_edits: Vec<(Range<u32>, Range<u32>)>,
    /// Whether what was typed since is in keeping with the completion on offer.
    pub interpolates: bool,
    /// The model to ask, if there is one.
    pub model_id: Option<String>,
    /// The signatures of what the cursor stands in, if an excerpt around it could be made.
    pub parent_signatures: Option<Vec<String>>,
    /// Whether to wait before asking.
    pub debounce: bool,
}

/// A request to send, and the run that decides what to do with the answers.
pub struct PendingCompletion<T> {
    pub request: LanguageModelRequest<T>,
    pub run: CompletionRun,
    /// What to do first.
    pub action: Action,
}

/// What is to be done after a change.
pub enum RefreshOutcome<T> {
    /// The completion on offer still holds.
    KeepCurrent,
    /// There is no model to ask.
    NoModel,
    /// The model is to be asked.
    Request(PendingCompletion<T>),
}

/// A prediction for the editor to show.
pub enum EditPrediction<A, P> {
    /// Edits to the buffer at hand.
    Local { id: Option<String>, edits: Vec<(Range<A>, String)>, edit_preview: Option<P> },
}

/// Which way to go through several completions.
#[derive(Clone, Copy, Debug, PartialEq, Eq, Structural)]
pub enum Direction {
    Prev,
    Next,
}

impl<R, S, A, P> View for LanguageModelEditPredictionProvider<R, S, A, P> {
    type V = ProviderView<R, S, A, P>;

    closed spec fn view(&self) -> ProviderView<R, S, A, P> {
        ProviderView {
            pending_request: self.pending_request,
            current_completion: self.current_completion,
            last_model_id: match self.last_model_id {
                Some(id) => Some(id@),
                None => None,
            },
            recent_snippets: snippets::views(self.recent_snippets@),
            last_seen: self.last_seen_text_by_buffer@.map_values(|s: String| s@),
        }
    }
}

impl RefreshInput {
    /// The name that the buffer's snippets go by: its file's path, or else one made of its number.
    pub open spec fn file_path(self) -> Seq<char> {
        match self.file {
            Some(path) => path@,
            None => "buffer_"@ + self.buffer_name@,
        }
    }

    /// The cursor, in characters from the start of the text.
    pub open spec fn cursor(self) -> int {
        text::char_index(self.text@, self.cursor_offset as int)
    }

    /// The row of the cursor.
    pub open spec fn cursor_row(self) -> int {
        rows::row_of(self.text@, self.cursor())
    }
}

impl<R, S, A, P> ProviderView<R, S, A, P> {
    /// The snippets can be computed with.
    pub open spec fn well_formed(self) -> bool {
        snippets::well_formed(self.recent_snippets)
    }

    /// The text of a buffer as it was last seen: empty for one not seen before.
    pub open spec fn text_last_seen(self, buffer_id: u64) -> Seq<char> {
        if self.last_seen.contains_key(buffer_id) {
            self.last_seen[buffer_id]
        } else {
            Seq::empty()
        }
    }

    /// The text differs from the one last seen.
    pub open spec fn is_edited(self, input: RefreshInput) -> bool {
        self.text_last_seen(input.buffer_id) != input.text@
    }

    /// What is remembered of the change: where the text differs from the one last seen, a snippet
    /// of the rows that do, and the text.
    pub open spec fn after_edit<T>(
        self,
        input: RefreshInput,
        settings: EditPredictionSettings<T>,
    ) -> Self {
        if self.is_edited(input) {
            ProviderView {
                recent_snippets: snippets::recorded(
                    self.recent_snippets,
                    input.file_path(),
                    input.text@,
                    input.line_edits@,
                    input.cursor_row(),
                    settings.language_model.recent_edits_max_snippets->0 as int,
                ),
                last_seen: self.last_seen.insert(input.buffer_id, input.text@),
                ..self
            }
        } else {
            self
        }
    }

    /// The completion on offer still holds.
    pub open spec fn keeps_current(self, input: RefreshInput) -> bool {
        self.current_completion is Some && input.interpolates
    }

    /// A completion that another model has made is no longer on offer.
    pub open spec fn after_model(self, model_id: Seq<char>) -> Self {
        if self.last_model_id != Some(model_id) {
            ProviderView { current_completion: None, last_model_id: Some(model_id), ..self }
        } else {
            self
        }
    }

    /// What is remembered after a change.
    pub open spec fn refreshed<T>(
        self,
        input: RefreshInput,
        settings: EditPredictionSettings<T>,
    ) -> Self {
        let edited = self.after_edit(input, settings);
        if self.keeps_current(input) || input.model_id is None {
            edited
        } else {
            edited.after_model(input.model_id->0@)
        }
    }

    /// The change can be worked with: the cursor stands between characters, row numbers fit, and
    /// the settings that are needed are there.
    pub open spec fn can_refresh<T>(
        self,
        input: RefreshInput,
        settings: EditPredictionSettings<T>,
    ) -> bool {
        let model = settings.language_model;
        &&& text::is_boundary(input.text@, input.cursor_offset as int)
        &&& rows::lines(input.text@).len() <= u32::MAX + 1
        &&& self.is_edited(input) ==> {
            &&& snippets::rows_fit(input.line_edits@, input.cursor_row())
            &&& snippets::has_rows(input.text@, input.line_edits@, input.cursor_row())
                ==> model.recent_edits_max_snippets is Some
        }
        &&& !self.keeps_current(input) && input.model_id is Some ==> {
            &&& model.empty_completion_total_attempts is Some
            &&& if input.parent_signatures is Some {
                model.current_space_window_lines is Some
            } else {
                window::fallback_fits(input.text@, input.cursor_offset as int)
            }
        }
    }

    /// There is something to suggest, given what is left of the edits of the completion on offer.
    pub open spec fn offers(self, interpolated: Option<Vec<(Range<A>, String)>>) -> bool {
        self.current_completion is Some && interpolated is Some && interpolated->0@.len() > 0
    }

    /// What is remembered once the completion is taken or turned down.
    pub open spec fn cleared(self) -> Self {
        ProviderView { pending_request: None, current_completion: None, ..self }
    }

    /// What is remembered once a completion is on offer.
    pub open spec fn completed(
        self,
        snapshot: S,
        edits: Vec<(Range<A>, String)>,
        edit_preview: P,
    ) -> Self {
        ProviderView {
            pending_request: None,
            current_completion: Some(CurrentCompletion { snapshot, edits, edit_preview }),
            ..self
        }
    }

    /// The request for a change: for what stands between the parts of the window before and behind
    /// the cursor, or, without an excerpt, for what follows the text before the cursor; with the
    /// signatures, and before them what was edited in other files.
    pub open spec fn asks<T>(
        self,
        input: RefreshInput,
        settings: EditPredictionSettings<T>,
        system_prompt: Seq<char>,
        pending: PendingCompletion<T>,
    ) -> bool {
        let attempts = settings.language_model.empty_completion_total_attempts->0 as int;
        match input.parent_signatures {
            Some(signatures) => {
                let lines = settings.language_model.current_space_window_lines->0 as int;
                let prefix = window::window_prefix(input.text@, input.cursor(), lines);
                let suffix = window::window_suffix(input.text@, input.cursor(), lines);
                &&& request::is_request(
                    pending.request,
                    system_prompt,
                    prefix,
                    suffix,
                    with_recent_edits(
                        self.recent_snippets,
                        input.file_path(),
                        text::views(signatures@),
                    ),
                    settings,
                )
                &&& (pending.run@, pending.action@) == run::started(
                    prefix,
                    suffix,
                    text::tail(prefix, sanitize::TAIL_MAX_CHARS as int),
                    attempts,
                    input.debounce,
                )
            },
            None => {
                let prefix = window::fallback_prefix(input.text@, input.cursor_offset as int);
                let nothing = Seq::<char>::empty();
                &&& request::is_request(
                    pending.request,
                    system_prompt,
                    prefix,
                    nothing,
                    Seq::empty(),
                    settings,
                )
                &&& (pending.run@, pending.action@) == run::started(
                    prefix,
                    nothing,
                    nothing,
                    attempts,
                    input.debounce,
                )
            },
        }
    }
}

/// `recent` with a snippet of another file behind it: the file, and the text on rows of its own.
pub open spec fn with_snippet(
    recent: Seq<char>,
    snippet: snippets::SnippetView,
    current_file: Seq<char>,
) -> Seq<char> {
    if snippet.file_path == current_file {
        recent
    } else {
        let shown = recent + snippet.file_path + ":\n"@ + snippet.text;
        if shown.last() == '\n' {
            shown
        } else {
            shown.push('\n')
        }
    }
}

/// The snippets of files other than the current one, the newest first.
pub open spec fn recent_edits(
    all: Seq<snippets::SnippetView>,
    current_file: Seq<char>,
) -> Seq<char>
    decreases all.len(),
{
    if all.len() == 0 {
        "Recent edits across files (latest first):\n"@
    } else {
        with_snippet(recent_edits(all.drop_first(), current_file), all[0], current_file)
    }
}

/// Some snippet is of a file other than the current one.
pub open spec fn has_other_files(
    all: Seq<snippets::SnippetView>,
    current_file: Seq<char>,
) -> bool {
    exists|i: int| 0 <= i < all.len() && (#[trigger] all[i]).file_path != current_file
}

/// The signatures, with the recent edits of other files before them if there are any.
pub open spec fn with_recent_edits(
    all: Seq<snippets::SnippetView>,
    current_file: Seq<char>,
    signatures: Seq<Seq<char>>,
) -> Seq<Seq<char>> {
    if has_other_files(all, current_file) {
        seq![recent_edits(all, current_file)] + signatures
    } else {
        signatures
    }
}

impl<R, S, A, P> LanguageModelEditPredictionProvider<R, S, A, P> {
    /// A provider that has seen nothing.
    pub fn new() -> (provider: Self)
        ensures
            provider@ == (ProviderView::<R, S, A, P> {
                pending_request: None,
                current_completion: None,
                last_model_id: None,
                recent_snippets: Seq::empty(),
                last_seen: Map::empty(),
            }),
            provider@.well_formed(),
    {
        let provider = LanguageModelEditPredictionProvider {
            pending_request: None,
            current_completion: None,
            last_model_id: None,
            recent_snippets: VecDeque::new(),
            last_seen_text_by_buffer: HashMap::new(),
        };
        proof {
            assert(provider@.recent_snippets =~= Seq::empty());
            assert(provider@.last_seen =~= Map::empty());
        }
        provider
    }

    /// The name of the provider in settings.
    pub fn name() -> (name: &'static str)
        ensures
            name@ == "language_model"@,
    {
        "language_model"
    }

    /// The name of the provider for its users.
    pub fn display_name() -> (name: &'static str)
        ensures
            name@ == "Language Model"@,
    {
        "Language Model"
    }

    /// Whether predictions are shown in the completions menu too.
    pub fn show_completions_in_menu() -> (shown: bool)
        ensures
            shown,
    {
        true
    }

    /// Whether a prediction can be somewhere else than at the cursor.
    pub fn supports_jump_to_edit() -> (supported: bool)
        ensures
            !supported,
    {
        false
    }

    /// Whether a request is under way.
    pub fn is_refreshing(&self) -> (refreshing: bool)
        ensures
            refreshing == (self@.pending_request is Some),
    {
        self.pending_request.is_some()
    }

    /// The completion on offer.
    pub fn current_completion(&self) -> (current: Option<&CurrentCompletion<S, A, P>>)
        ensures
            match current {
                Some(current) => self@.current_completion == Some(*current),
                None => self@.current_completion is None,
            },
    {
        self.current_completion.as_ref()
    }

    /// The text of the buffer as it was last seen.
    pub fn last_seen_text(&self, buffer_id: u64) -> (seen: String)
        ensures
            seen@ == self@.text_last_seen(buffer_id),
    {
        match self.last_seen_text_by_buffer.get(&buffer_id) {
            Some(seen) => seen.clone(),
            None => String::new(),
        }
    }

    /// The name that the buffer's snippets go by.
    fn file_path_of(input: &RefreshInput) -> (path: String)
        ensures
            path@ == input.file_path(),
    {
        match &input.file {
            Some(path) => path.clone(),
            None => {
                let mut path = "buffer_".to_owned();
                path.append(input.buffer_name.as_str());
                path
            },
        }
    }

    /// The signatures, with the recent edits of other files before them.
    fn signatures_with_recent_edits(
        &self,
        current_file: &String,
        signatures: &Vec<String>,
    ) -> (r: Vec<String>)
        ensures
            text::views(r@) == with_recent_edits(
                self@.recent_snippets,
                current_file@,
                text::views(signatures@),
            ),
    {
        let ghost all = self@.recent_snippets;
        let mut recent = "Recent edits across files (latest first):\n".to_owned();
        let mut added_any = false;
        let mut i: usize = self.recent_snippets.len();
        assert(all.skip(all.len() as int) =~= Seq::empty());
        while i > 0
            invariant
                i <= all.len(),
                all == self@.recent_snippets,
                recent@ == recent_edits(all.skip(i as int), current_file@),
                added_any == has_other_files(all.skip(i as int), current_file@),
            decreases i,
        {
            let ghost below = all.skip(i as int);
            i -= 1;
            let snippet = &self.recent_snippets[i];
            let ghost shown = all.skip(i as int);
            proof {
                assert(shown.drop_first() =~= below);
                assert(shown[0] == snippet@);
                assert forall|j: int| 0 <= j < below.len() implies #[trigger] below[j] == shown[j
                    + 1] by {}
                if has_other_files(below, current_file@) {
                    let j = choose|j: int|
                        0 <= j < below.len() && (#[trigger] below[j]).file_path != current_file@;
                    assert(shown[j + 1].file_path != current_file@);
                }
                if has_other_files(shown, current_file@) {
                    let j = choose|j: int|
                        0 <= j < shown.len() && (#[trigger] shown[j]).file_path != current_file@;
                    if j > 0 {
                        assert(below[j - 1].file_path != current_file@);
                    }
                }
            }
            if snippet.file_path != *current_file {
                recent.append(snippet.file_path.as_str());
                recent.append(":\n");
                recent.append(snippet.text.as_str());
                proof {
                    reveal_strlit(":\n");
                }
                if !ends_with_newline(recent.as_str()) {
                    recent.push('\n');
                }
                added_any = true;
            }
        }
        assert(all.skip(0) =~= all);
        let mut r: Vec<String> = Vec::new();
        let ghost first = if added_any {
            seq![recent@]
        } else {
            Seq::empty()
        };
        if added_any {
            r.push(recent);
        }
        let ghost given = text::views(signatures@);
        let mut k: usize = 0;
        assert(text::views(r@) =~= first + given.take(0));
        while k < signatures.len()
            invariant
                k <= signatures.len(),
                given == text::views(signatures@),
                text::views(r@) == first + given.take(k as int),
            decreases signatures.len() - k,
        {
            let ghost so_far = text::views(r@);
            let signature = signatures[k].clone();
            r.push(signature);
            proof {
                assert(text::views(r@) =~= so_far.push(signature@));
                assert(text::views(r@) =~= first + given.take(k + 1));
            }
            k += 1;
        }
        assert(given.take(signatures.len() as int) =~= given);
        assert(Seq::<Seq<char>>::empty() + given =~= given);
        r
    }

    /// Whether the change can be worked with.
    pub fn can_refresh<T>(
        &self,
        input: &RefreshInput,
        settings: &EditPredictionSettings<T>,
    ) -> (can: bool)
        ensures
            can == self@.can_refresh(*input, *settings),
    {
        if !input.text.as_str().is_char_boundary(input.cursor_offset) {
            return false;
        }
        let chars = text::chars_of(input.text.as_str());
        let at = text::char_index_of(&chars, input.cursor_offset);
        let starts = rows::row_starts(&chars);
        proof {
            rows::lemma_lines(chars@);
            window::lemma_row_of(chars@, at as int);
        }
        if starts.len() - 1 > u32::MAX as usize {
            return false;
        }
        let seen = self.last_seen_text(input.buffer_id);
        if seen != input.text {
            let cursor_row = rows::row_at(&chars, at) as u32;
            if !ranges::check_ends(&input.line_edits) {
                return false;
            }
            let merged = ranges::coalesce(&input.line_edits);
            let chosen = ranges::choose_range(&merged, cursor_row);
            if chosen.end > u32::MAX - ranges::SURROUND {
                return false;
            }
            let (first, last) = ranges::surround(&chosen, starts.len());
            if first <= last && settings.language_model.recent_edits_max_snippets.is_none() {
                return false;
            }
        }
        if (self.current_completion.is_some() && input.interpolates) || input.model_id.is_none() {
            return true;
        }
        if settings.language_model.empty_completion_total_attempts.is_none() {
            return false;
        }
        if input.parent_signatures.is_some() {
            settings.language_model.current_space_window_lines.is_some()
        } else {
            let start = input.cursor_offset.saturating_sub(window::FALLBACK_BYTES);
            input.text.as_str().is_char_boundary(start)
        }
    }

    /// Takes note of a change in the editor, and says whether a model is to be asked and for what.
    pub fn refresh<T: Copy>(
        &mut self,
        input: &RefreshInput,
        settings: &EditPredictionSettings<T>,
        system_prompt: &str,
    ) -> (outcome: RefreshOutcome<T>)
        requires
            old(self)@.well_formed(),
            old(self)@.can_refresh(*input, *settings),
        ensures
            final(self)@ == old(self)@.refreshed(*input, *settings),
            final(self)@.well_formed(),
            match outcome {
                RefreshOutcome::KeepCurrent => old(self)@.keeps_current(*input),
                RefreshOutcome::NoModel => !old(self)@.keeps_current(*input)
                    && input.model_id is None,
                RefreshOutcome::Request(pending) => {
                    &&& !old(self)@.keeps_current(*input)
                    &&& input.model_id is Some
                    &&& final(self)@.asks(*input, *settings, system_prompt@, pending)
                    &&& pending.run@.well_formed()
                },
            },
    {
        let chars = text::chars_of(input.text.as_str());
        let at = text::char_index_of(&chars, input.cursor_offset);
        let file_path = Self::file_path_of(input);
        self.note_edit(input, settings, &chars, at, &file_path);
        if self.current_completion.is_some() && input.interpolates {
            return RefreshOutcome::KeepCurrent;
        }
        let model_id = match &input.model_id {
            Some(model_id) => model_id,
            None => {
                return RefreshOutcome::NoModel;
            },
        };
        self.note_model(model_id);
        let attempts = settings.language_model.empty_completion_total_attempts.unwrap();
        let pending = match &input.parent_signatures {
            Some(signatures) => {
                let window_lines = settings.language_model.current_space_window_lines.unwrap();
                let (prefix, suffix) = window::split_window(&chars, at, window_lines);
                let signatures = self.signatures_with_recent_edits(&file_path, signatures);
                let request = Self::build_request(
                    prefix.as_str(),
                    suffix.as_str(),
                    &signatures,
                    settings,
                    system_prompt,
                );
                let tail = text::tail_of(prefix.as_str(), sanitize::TAIL_MAX_CHARS);
                let (run, action) = CompletionRun::start(
                    prefix,
                    suffix,
                    tail,
                    attempts,
                    input.debounce,
                );
                PendingCompletion { request, run, action }
            },
            None => {
                let prefix = window::take_fallback(&chars, input.cursor_offset);
                let none: Vec<String> = Vec::new();
                assert(text::views(none@) =~= Seq::empty());
                let nothing = String::new();
                let request = Self::build_request(
                    prefix.as_str(),
                    nothing.as_str(),
                    &none,
                    settings,
                    system_prompt,
                );
                let (run, action) = CompletionRun::start(
                    prefix,
                    String::new(),
                    String::new(),
                    attempts,
                    input.debounce,
                );
                PendingCompletion { request, run, action }
            },
        };
        RefreshOutcome::Request(pending)
    }

    /// Remembers the text, and a snippet of what has changed in it.
    fn note_edit<T>(
        &mut self,
        input: &RefreshInput,
        settings: &EditPredictionSettings<T>,
        chars: &Vec<char>,
        at: usize,
        file_path: &String,
    )
        requires
            old(self)@.well_formed(),
            old(self)@.can_refresh(*input, *settings),
            chars@ == input.text@,
            at == input.cursor(),
            at <= chars.len(),
            file_path@ == input.file_path(),
        ensures
            final(self)@ == old(self)@.after_edit(*input, *settings),
            final(self)@.well_formed(),
    {
        let ghost before = self@;
        let seen = self.last_seen_text(input.buffer_id);
        if seen != input.text {
            proof {
                window::lemma_row_of(chars@, at as int);
            }
            let cursor_row = rows::row_at(chars, at) as u32;
            snippets::record_edit(
                &mut self.recent_snippets,
                file_path,
                chars,
                &input.line_edits,
                cursor_row,
                settings.language_model.recent_edits_max_snippets,
            );
            self.last_seen_text_by_buffer.insert(input.buffer_id, input.text.clone());
            proof {
                assert(self@.last_seen =~= before.last_seen.insert(input.buffer_id, input.text@));
            }
        }
    }

    /// Remembers the model, and drops a completion that another one has made.
    fn note_model(&mut self, model_id: &String)
        ensures
            final(self)@ == old(self)@.after_model(model_id@),
    {
        let same = match &self.last_model_id {
            Some(last) => *last == *model_id,
            None => false,
        };
        if !same {
            self.current_completion = None;
            self.last_model_id = Some(model_id.clone());
        }
    }

    /// Takes note of the request that is under way. One that was under way before is dropped.
    pub fn set_pending_request(&mut self, request: R)
        ensures
            final(self)@ == (ProviderView { pending_request: Some(request), ..old(self)@ }),
    {
        self.pending_request = Some(request);
    }

    /// The edits that insert a completion at the cursor.
    pub fn insertion(cursor: A, completion: String) -> (edits: Vec<(Range<A>, String)>) where A: Copy
        ensures
            edits@ == seq![(Range { start: cursor, end: cursor }, completion)],
    {
        vec![(Range { start: cursor, end: cursor }, completion)]
    }

    /// Offers a completion: the request is no longer under way.
    pub fn complete(&mut self, snapshot: S, edits: Vec<(Range<A>, String)>, edit_preview: P)
        ensures
            final(self)@ == old(self)@.completed(snapshot, edits, edit_preview),
    {
        self.current_completion = Some(CurrentCompletion { snapshot, edits, edit_preview });
        self.pending_request = None;
    }

    /// Ends a request that brought no completion. What was on offer stays on offer.
    pub fn finish_empty(&mut self)
        ensures
            final(self)@ == (ProviderView { pending_request: None, ..old(self)@ }),
    {
        self.pending_request = None;
    }

    /// Goes through several completions, of which there are none: there is only ever one.
    pub fn cycle(&mut self, _direction: Direction)
        ensures
            final(self)@ == old(self)@,
    {
    }

    /// The completion was taken.
    pub fn accept(&mut self)
        ensures
            final(self)@ == old(self)@.cleared(),
    {
        self.pending_request = None;
        self.current_completion = None;
    }

    /// The completion was turned down.
    pub fn discard(&mut self)
        ensures
            final(self)@ == old(self)@.cleared(),
    {
        self.pending_request = None;
        self.current_completion = None;
    }

    /// The prediction to show, given what is left of the edits of the completion on offer after
    /// what was typed since, if that is in keeping with it.
    pub fn suggest(&self, interpolated: Option<Vec<(Range<A>, String)>>) -> (prediction: Option<
        EditPrediction<A, P>,
    >) where P: Clone
        ensures
            prediction is Some <==> self@.offers(interpolated),
            prediction matches Some(EditPrediction::Local { id, edits, edit_preview }) ==> {
                &&& interpolated == Some(edits)
                &&& id is None
                &&& edit_preview is Some
                &&& cloned(self@.current_completion->0.edit_preview, edit_preview->0)
            },
    {
        match &self.current_completion {
            Some(current) => match interpolated {
                Some(edits) => {
                    if edits.len() == 0 {
                        None
                    } else {
                        Some(
                            EditPrediction::Local {
                                id: None,
                                edits,
                                edit_preview: Some(current.edit_preview.clone()),
                            },
                        )
                    }
                },
                None => None,
            },
            None => None,
        }
    }
}

/// Whether `s` ends with a newline.
fn ends_with_newline(s: &str) -> (ends: bool)
    requires
        s@.len() > 0,
    ensures
        ends == (s@.last() == '\n'),
{
    let chars = text::chars_of(s);
    chars[chars.len() - 1] == '\n'
}

/// Once a change is taken note of, its text is the one last seen of its buffer, so that coming back
/// with the same text is no edit; what was seen of other buffers stays.
pub proof fn lemma_refreshed_is_seen<R, S, A, P, T>(
    provider: ProviderView<R, S, A, P>,
    input: RefreshInput,
    settings: EditPredictionSettings<T>,
    later: RefreshInput,
)
    ensures
        ({
            let after = provider.refreshed(input, settings);
            &&& later.buffer_id == input.buffer_id && later.text@ == input.text@
                ==> !after.is_edited(later)
            &&& later.buffer_id != input.buffer_id ==> after.is_edited(later)
                == provider.is_edited(later)
        }),
{
}

/// A change of nothing but the cursor leaves the snippets and the texts seen as they are.
pub proof fn lemma_same_text_records_nothing<R, S, A, P, T>(
    provider: ProviderView<R, S, A, P>,
    input: RefreshInput,
    settings: EditPredictionSettings<T>,
)
    requires
        !provider.is_edited(input),
    ensures
        provider.refreshed(input, settings).recent_snippets == provider.recent_snippets,
        provider.refreshed(input, settings).last_seen == provider.last_seen,
{
}

/// An edit that is recorded leaves no more snippets than the settings allow.
pub proof fn lemma_snippets_bounded<R, S, A, P, T>(
    provider: ProviderView<R, S, A, P>,
    input: RefreshInput,
    settings: EditPredictionSettings<T>,
)
    requires
        provider.can_refresh(input, settings),
        provider.is_edited(input),
        snippets::has_rows(input.text@, input.line_edits@, input.cursor_row()),
    ensures
        provider.refreshed(input, settings).recent_snippets.len()
            <= settings.language_model.recent_edits_max_snippets->0,
{
}

/// Where the model is to be asked, a completion that another model has made is no longer on offer,
/// one that the same model has made still is, and the model is the one asked last.
pub proof fn lemma_model_change_drops_completion<R, S, A, P, T>(
    provider: ProviderView<R, S, A, P>,
    input: RefreshInput,
    settings: EditPredictionSettings<T>,
)
    requires
        !provider.keeps_current(input),
        input.model_id is Some,
    ensures
        ({
            let after = provider.refreshed(input, settings);
            let model = input.model_id->0@;
            &&& after.last_model_id == Some(model)
            &&& provider.last_model_id != Some(model) ==> after.current_completion is None
            &&& provider.last_model_id == Some(model) ==> after.current_completion
                == provider.current_completion
        }),
{
}

/// Once a completion is taken or turned down there is nothing to suggest and no request under way.
pub proof fn lemma_cleared_offers_nothing<R, S, A, P>(
    provider: ProviderView<R, S, A, P>,
    interpolated: Option<Vec<(Range<A>, String)>>,
)
    ensures
        !provider.cleared().offers(interpolated),
        provider.cleared().pending_request is None,
{
}

/// A completion on offer is suggested as long as something is left of its edits.
pub proof fn lemma_completed_is_offered<R, S, A, P>(
    provider: ProviderView<R, S, A, P>,
    snapshot: S,
    edits: Vec<(Range<A>, String)>,
    edit_preview: P,
    interpolated: Option<Vec<(Range<A>, String)>>,
)
    ensures
        provider.completed(snapshot, edits, edit_preview).offers(interpolated) <==> interpolated
            is Some && interpolated->0@.len() > 0,
        provider.completed(snapshot, edits, edit_preview).pending_request is None,
{
}

/// Edits of the current file itself add nothing to the signatures.
pub proof fn lemma_own_edits_not_repeated(
    all: Seq<snippets::SnippetView>,
    current_file: Seq<char>,
    signatures: Seq<Seq<char>>,
)
    requires
        forall|i: int| 0 <= i < all.len() ==> (#[trigger] all[i]).file_path == current_file,
    ensures
        with_recent_edits(all, current_file, signatures) == signatures,
{
}

/// What is shown of one snippet.
pub open spec fn snippet_shown(snippet: snippets::SnippetView) -> Seq<char> {
    let shown = snippet.file_path + ":\n"@ + snippet.text;
    if shown.last() == '\n' {
        shown
    } else {
        shown.push('\n')
    }
}

/// The newest edit of another file is shown first, right behind the title.
pub proof fn lemma_newest_edit_first(
    older: Seq<snippets::SnippetView>,
    newest: snippets::SnippetView,
    current_file: Seq<char>,
) -> (rest: Seq<char>)
    requires
        newest.file_path != current_file,
    ensures
        recent_edits(older.push(newest), current_file)
            == "Recent edits across files (latest first):\n"@ + snippet_shown(newest) + rest,
    decreases older.len(),
{
    let title = "Recent edits across files (latest first):\n"@;
    let all = older.push(newest);
    reveal_strlit(":\n");
    if older.len() == 0 {
        assert(all.drop_first() =~= Seq::empty());
        assert(recent_edits(all.drop_first(), current_file) == title);
        lemma_with_snippet(title, newest, current_file);
        assert(title + snippet_shown(newest) + Seq::<char>::empty() =~= title + snippet_shown(
            newest,
        ));
        Seq::empty()
    } else {
        assert(all.drop_first() =~= older.drop_first().push(newest));
        let rest = lemma_newest_edit_first(older.drop_first(), newest, current_file);
        let so_far = recent_edits(all.drop_first(), current_file);
        if older[0].file_path != current_file {
            lemma_with_snippet(so_far, older[0], current_file);
        }
        if older[0].file_path == current_file {
            rest
        } else {
            assert(so_far + snippet_shown(older[0]) =~= title + snippet_shown(newest) + (rest
                + snippet_shown(older[0])));
            rest + snippet_shown(older[0])
        }
    }
}

proof fn lemma_with_snippet(
    recent: Seq<char>,
    snippet: snippets::SnippetView,
    current_file: Seq<char>,
)
    requires
        snippet.file_path != current_file,
    ensures
        with_snippet(recent, snippet, current_file) == recent + snippet_shown(snippet),
{
    reveal_strlit(":\n");
    let shown = snippet.file_path + ":\n"@ + snippet.text;
    assert(recent + snippet.file_path + ":\n"@ + snippet.text =~= recent + shown);
    assert((recent + shown).last() == shown.last());
    assert((recent + shown).push('\n') =~= recent + shown.push('\n'));
}

/// The signatures handed on always end with all those of the excerpt, unchanged and in order. At
/// most one entry stands before them, the recent edits, and it does exactly where there is an edit
/// of another file.
pub proof fn lemma_signatures_are_kept(
    all: Seq<snippets::SnippetView>,
    current_file: Seq<char>,
    signatures: Seq<Seq<char>>,
)
    ensures
        ({
            let handed = with_recent_edits(all, current_file, signatures);
            let elsewhere = exists|i: int|
                0 <= i < all.len() && (#[trigger] all[i]).file_path != current_file;
            &&& signatures.is_suffix_of(handed)
            &&& handed.len() == signatures.len() + if elsewhere {
                1nat
            } else {
                0
            }
            &&& elsewhere ==> handed[0] == recent_edits(all, current_file)
        }),
{
    let handed = with_recent_edits(all, current_file, signatures);
    let n = handed.len() - signatures.len();
    assert(handed.subrange(n, handed.len() as int) =~= signatures);
}

/// The recent edits, one by one: the title stands first, and one edit more, if it is of another
/// file, goes right behind it, before all that was there. It is shown by its file, a colon and a
/// newline, and its whole text, which a newline is added to only if it does not end with one. An
/// edit of the current file changes nothing.
pub proof fn lemma_recent_edit_is_shown(
    older: Seq<snippets::SnippetView>,
    newest: snippets::SnippetView,
    current_file: Seq<char>,
)
    ensures
        recent_edits(Seq::empty(), current_file) == "Recent edits across files (latest first):\n"@,
        ({
            let title = "Recent edits across files (latest first):\n"@;
            let before = recent_edits(older, current_file);
            let after = recent_edits(older.push(newest), current_file);
            let shown = newest.file_path + seq![':', '\n'] + newest.text;
            let shown = if shown.last() == '\n' {
                shown
            } else {
                shown.push('\n')
            };
            &&& title.is_prefix_of(before)
            &&& newest.file_path == current_file ==> after == before
            &&& newest.file_path != current_file ==> after == title + shown + before.skip(
                title.len() as int,
            )
        }),
    decreases older.len(),
{
    let title = "Recent edits across files (latest first):\n"@;
    let all = older.push(newest);
    let before = recent_edits(older, current_file);
    reveal_strlit(":\n");
    assert(":\n"@ =~= seq![':', '\n']);
    if older.len() == 0 {
        assert(older =~= Seq::empty());
        assert(all.drop_first() =~= Seq::empty());
        assert(title.subrange(0, title.len() as int) =~= title);
        if newest.file_path != current_file {
            lemma_with_snippet(title, newest, current_file);
            assert(title + snippet_shown(newest) + title.skip(title.len() as int) =~= title
                + snippet_shown(newest));
        }
    } else {
        let rest = older.drop_first();
        assert(all.drop_first() =~= rest.push(newest));
        assert(all[0] == older[0]);
        lemma_recent_edit_is_shown(rest, newest, current_file);
        let above = recent_edits(rest, current_file);
        let grown = recent_edits(rest.push(newest), current_file);
        if older[0].file_path != current_file {
            lemma_with_snippet(above, older[0], current_file);
            lemma_with_snippet(grown, older[0], current_file);
            let tail = snippet_shown(older[0]);
            assert(before.subrange(0, title.len() as int) =~= above.subrange(
                0,
                title.len() as int,
            ));
            if newest.file_path != current_file {
                assert(above.skip(title.len() as int) + tail =~= before.skip(title.len() as int));
                assert(grown + tail =~= title + snippet_shown(newest) + before.skip(
                    title.len() as int,
                ));
            }
        }
    }
}

/// What a change leads to, by what it says. The cursor stands behind `k` characters.
///
/// A text that is not the one last seen becomes the one last seen, and the edit is recorded under
/// the buffer's file, or else its number, with the row the cursor is on. A completion that still
/// holds stays on offer, and so does any where there is no model to ask. A request under way stays
/// under way.
pub proof fn lemma_refresh_remembers<R, S, A, P, T>(
    provider: ProviderView<R, S, A, P>,
    input: RefreshInput,
    settings: EditPredictionSettings<T>,
    k: int,
)
    requires
        0 <= k <= input.text@.len(),
        text::byte_len(input.text@.take(k)) == input.cursor_offset,
    ensures
        ({
            let after = provider.refreshed(input, settings);
            let name = match input.file {
                Some(path) => path@,
                None => "buffer_"@ + input.buffer_name@,
            };
            let known = provider.last_seen.contains_key(input.buffer_id);
            let edited = if known {
                provider.last_seen[input.buffer_id] != input.text@
            } else {
                input.text@.len() > 0
            };
            &&& edited ==> {
                &&& after.last_seen == provider.last_seen.insert(input.buffer_id, input.text@)
                &&& after.recent_snippets == snippets::recorded(
                    provider.recent_snippets,
                    name,
                    input.text@,
                    input.line_edits@,
                    rows::newlines(input.text@.take(k)) as int,
                    settings.language_model.recent_edits_max_snippets->0 as int,
                )
            }
            &&& !edited ==> {
                &&& after.last_seen == provider.last_seen
                &&& after.recent_snippets == provider.recent_snippets
            }
            &&& after.pending_request == provider.pending_request
            &&& provider.keeps_current(input) <==> provider.current_completion is Some
                && input.interpolates
            &&& provider.current_completion is Some && input.interpolates || input.model_id is None
                ==> {
                &&& after.current_completion == provider.current_completion
                &&& after.last_model_id == provider.last_model_id
            }
        }),
{
    text::lemma_char_index_counts(input.text@, k);
    rows::lemma_row_of_counts(input.text@, k);
    assert(input.text@ == Seq::<char>::empty() <==> input.text@.len() == 0) by {
        if input.text@.len() == 0 {
            assert(input.text@ =~= Seq::<char>::empty());
        }
    }
}

/// What is asked where there is an excerpt. The cursor stands behind `k` characters.
///
/// The message shows the window around the cursor, whole, and before it what comes of the recent
/// edits and all the signatures. The run works with the same two sides, holds the answer against
/// the last eighty characters before the cursor, and makes as many attempts as set, but at least
/// one.
pub proof fn lemma_asks_for_the_window<R, S, A, P, T>(
    provider: ProviderView<R, S, A, P>,
    input: RefreshInput,
    settings: EditPredictionSettings<T>,
    system_prompt: Seq<char>,
    pending: PendingCompletion<T>,
    k: int,
)
    requires
        provider.asks(input, settings, system_prompt, pending),
        input.parent_signatures is Some,
        0 <= k <= input.text@.len(),
        text::byte_len(input.text@.take(k)) == input.cursor_offset,
    ensures
        ({
            let name = match input.file {
                Some(path) => path@,
                None => "buffer_"@ + input.buffer_name@,
            };
            let lines = settings.language_model.current_space_window_lines->0 as int;
            let prefix = window::window_prefix(input.text@, k, lines);
            let suffix = window::window_suffix(input.text@, k, lines);
            let signatures = with_recent_edits(
                provider.recent_snippets,
                name,
                text::views(input.parent_signatures->0@),
            );
            let message = pending.request.messages@[1].content@[0]->Text_0@;
            let shown = "[PREFIX]\n"@ + prefix + "\n[/PREFIX]\n[SUFFIX]\n"@ + suffix
                + "\n[/SUFFIX]"@;
            &&& request::is_request(
                pending.request,
                system_prompt,
                prefix,
                suffix,
                signatures,
                settings,
            )
            &&& message == request::context(signatures) + shown
            &&& pending.run@.prefix == prefix
            &&& pending.run@.suffix == suffix
            &&& pending.run@.before.is_suffix_of(prefix)
            &&& pending.run@.before.len() == vstd::math::min(80, prefix.len() as int)
            &&& pending.run@.attempts_left == vstd::math::max(
                settings.language_model.empty_completion_total_attempts->0 as int,
                1,
            )
            &&& pending.run@.generated.len() == 0
            &&& input.debounce ==> pending.action@ == run::ActionView::Wait(150)
                && pending.run@.phase == run::Phase::Debouncing
            &&& !input.debounce ==> pending.action@ == run::ActionView::OpenStream
                && pending.run@.phase == run::Phase::Opening
        }),
{
    text::lemma_char_index_counts(input.text@, k);
    let lines = settings.language_model.current_space_window_lines->0 as int;
    let prefix = window::window_prefix(input.text@, k, lines);
    let suffix = window::window_suffix(input.text@, k, lines);
    let signatures = with_recent_edits(
        provider.recent_snippets,
        input.file_path(),
        text::views(input.parent_signatures->0@),
    );
    request::lemma_request_shows_both_sides(
        pending.request,
        system_prompt,
        prefix,
        suffix,
        signatures,
        settings,
    );
    let message = pending.request.messages@[1].content@[0]->Text_0@;
    let shown = "[PREFIX]\n"@ + prefix + "\n[/PREFIX]\n[SUFFIX]\n"@ + suffix + "\n[/SUFFIX]"@;
    let n = message.len() - shown.len();
    assert(message =~= message.take(n) + message.subrange(n, message.len() as int));
    text::lemma_tail(prefix, 80);
    let before = pending.run@.before;
    assert(prefix.subrange(prefix.len() - before.len(), prefix.len() as int) =~= prefix.skip(
        prefix.len() - before.len(),
    ));
}

/// What is asked where there is no excerpt. The cursor stands behind `k` characters.
///
/// The message shows the last 1024 bytes before the cursor, or all there are, and nothing else: no
/// signatures, no recent edits, and nothing behind the cursor. The run works with that, and holds
/// the answer against nothing before the cursor.
pub proof fn lemma_asks_for_what_follows<R, S, A, P, T>(
    provider: ProviderView<R, S, A, P>,
    input: RefreshInput,
    settings: EditPredictionSettings<T>,
    system_prompt: Seq<char>,
    pending: PendingCompletion<T>,
    k: int,
)
    requires
        provider.asks(input, settings, system_prompt, pending),
        input.parent_signatures is None,
        0 <= k <= input.text@.len(),
        text::byte_len(input.text@.take(k)) == input.cursor_offset,
        window::fallback_fits(input.text@, input.cursor_offset as int),
    ensures
        ({
            let prefix = pending.run@.prefix;
            let message = pending.request.messages@[1].content@[0]->Text_0@;
            &&& prefix.is_suffix_of(input.text@.take(k))
            &&& text::byte_len(prefix) == vstd::math::min(1024, input.cursor_offset as int)
            &&& request::is_request(
                pending.request,
                system_prompt,
                prefix,
                Seq::empty(),
                Seq::empty(),
                settings,
            )
            &&& message == "[PREFIX]\n"@ + prefix + "\n[/PREFIX]\n[SUFFIX]\n"@ + "\n[/SUFFIX]"@
            &&& pending.run@.suffix.len() == 0
            &&& pending.run@.before.len() == 0
            &&& pending.run@.attempts_left == vstd::math::max(
                settings.language_model.empty_completion_total_attempts->0 as int,
                1,
            )
            &&& pending.run@.generated.len() == 0
            &&& input.debounce ==> pending.action@ == run::ActionView::Wait(150)
                && pending.run@.phase == run::Phase::Debouncing
            &&& !input.debounce ==> pending.action@ == run::ActionView::OpenStream
                && pending.run@.phase == run::Phase::Opening
        }),
{
    window::lemma_fallback_shows_bytes_before_cursor(input.text@, k);
    let prefix = pending.run@.prefix;
    let nothing = Seq::<char>::empty();
    request::lemma_request_shows_both_sides(
        pending.request,
        system_prompt,
        prefix,
        nothing,
        Seq::empty(),
        settings,
    );
    assert("[PREFIX]\n"@ + prefix + "\n[/PREFIX]\n[SUFFIX]\n"@ + nothing + "\n[/SUFFIX]"@
        =~= "[PREFIX]\n"@ + prefix + "\n[/PREFIX]\n[SUFFIX]\n"@ + "\n[/SUFFIX]"@);
}

/// A change can be worked with where the cursor stands behind a number of characters, the rows and
/// those of the edits can be counted, and the three settings are there; without an excerpt, where
/// the cursor is moreover no more than 1024 bytes into the text, or just 1024 bytes behind `j`
/// characters.
pub proof fn lemma_ordinary_change_can_be_refreshed<R, S, A, P, T>(
    provider: ProviderView<R, S, A, P>,
    input: RefreshInput,
    settings: EditPredictionSettings<T>,
    k: int,
    j: int,
)
    requires
        0 <= k <= input.text@.len(),
        text::byte_len(input.text@.take(k)) == input.cursor_offset,
        rows::newlines(input.text@) <= u32::MAX,
        forall|i: int|
            0 <= i < input.line_edits@.len() ==> (#[trigger] input.line_edits@[i]).1.end
                <= u32::MAX - 3,
        settings.language_model.recent_edits_max_snippets is Some,
        settings.language_model.current_space_window_lines is Some,
        settings.language_model.empty_completion_total_attempts is Some,
        input.parent_signatures is Some || input.cursor_offset <= 1024 || 0 <= j
            <= input.text@.len() && text::byte_len(input.text@.take(j)) + 1024
            == input.cursor_offset,
    ensures
        provider.can_refresh(input, settings),
{
    let s = input.text@;
    text::lemma_beginning_ends_at_boundary(s, k);
    text::lemma_beginning_ends_at_boundary(s, 0);
    if 0 <= j <= s.len() {
        text::lemma_beginning_ends_at_boundary(s, j);
    }
    assert(s.take(0) =~= Seq::<char>::empty());
    text::lemma_byte_len_add(s, s);
    rows::lemma_lines_are_the_text(s);
    let merged = ranges::coalesced(input.line_edits@);
    let row = input.cursor_row();
    let r = ranges::range_for(merged, row);
    if merged.len() > 0 {
        let i = if exists|i: int| 0 <= i < merged.len() && ranges::touches_row(merged[i], row) {
            let i = choose|i: int| 0 <= i < merged.len() && ranges::touches_row(merged[i], row);
            ranges::lemma_range_for_touches(merged, row, i);
            choose|j: int| 0 <= j < merged.len() && merged[j] == r
        } else {
            ranges::lemma_first_touching_is_picked(merged, row, 0);
            merged.len() - 1
        };
        ranges::lemma_coalesced_within(input.line_edits@, u32::MAX - 3, i);
    } else {
        ranges::lemma_first_touching_is_picked(merged, row, 0);
    }
}

/// A change that can be worked with has what it needs: a cursor between characters, rows that can
/// be counted, and the settings that the work takes.
pub proof fn lemma_refresh_needs<R, S, A, P, T>(
    provider: ProviderView<R, S, A, P>,
    input: RefreshInput,
    settings: EditPredictionSettings<T>,
)
    requires
        provider.can_refresh(input, settings),
    ensures
        exists|k: int|
            0 <= k <= input.text@.len() && text::byte_len(#[trigger] input.text@.take(k))
                == input.cursor_offset,
        rows::newlines(input.text@) <= u32::MAX,
        !(provider.current_completion is Some && input.interpolates) && input.model_id is Some
            ==> settings.language_model.empty_completion_total_attempts is Some && (
        input.parent_signatures is Some
            ==> settings.language_model.current_space_window_lines is Some),
{
    text::lemma_char_index(input.text@, input.cursor_offset as int);
    rows::lemma_lines_are_the_text(input.text@);
    let k = text::char_index(input.text@, input.cursor_offset as int);
    assert(text::byte_len(input.text@.take(k)) == input.cursor_offset);
}

/// Taking or turning down a completion, and offering one, touch nothing but the completion and the
/// request: the model asked last, the snippets and the texts seen stay.
pub proof fn lemma_completions_leave_memory<R, S, A, P>(
    provider: ProviderView<R, S, A, P>,
    snapshot: S,
    edits: Vec<(Range<A>, String)>,
    edit_preview: P,
)
    ensures
        ({
            let offered = provider.completed(snapshot, edits, edit_preview);
            let gone = provider.cleared();
            &&& offered.current_completion is Some
            &&& offered.current_completion->0.snapshot == snapshot
            &&& offered.current_completion->0.edits == edits
            &&& offered.current_completion->0.edit_preview == edit_preview
            &&& offered.last_model_id == provider.last_model_id
            &&& offered.recent_snippets == provider.recent_snippets
            &&& offered.last_seen == provider.last_seen
            &&& gone.last_model_id == provider.last_model_id
            &&& gone.recent_snippets == provider.recent_snippets
            &&& gone.last_seen == provider.last_seen
            &&& gone.current_completion is None
            &&& gone.pending_request is None
        }),
{
}

/// Where the text is the one last seen, neither the edits nor the number of snippets matter; and no
/// setting at all does where no model is to be asked. Where one is, the size of the window is
/// needed only with an excerpt.
pub proof fn lemma_refresh_needs_no_more<R, S, A, P, T>(
    provider: ProviderView<R, S, A, P>,
    input: RefreshInput,
    settings: EditPredictionSettings<T>,
    k: int,
)
    requires
        0 <= k <= input.text@.len(),
        text::byte_len(input.text@.take(k)) == input.cursor_offset,
        rows::newlines(input.text@) <= u32::MAX,
        provider.last_seen.contains_key(input.buffer_id),
        provider.last_seen[input.buffer_id] == input.text@,
        input.model_id is None || provider.current_completion is Some && input.interpolates || {
            &&& settings.language_model.empty_completion_total_attempts is Some
            &&& input.parent_signatures is Some
                ==> settings.language_model.current_space_window_lines is Some
            &&& input.parent_signatures is None ==> input.cursor_offset <= 1024
        },
    ensures
        provider.can_refresh(input, settings),
{
    let s = input.text@;
    text::lemma_beginning_ends_at_boundary(s, k);
    text::lemma_beginning_ends_at_boundary(s, 0);
    assert(s.take(0) =~= Seq::<char>::empty());
    text::lemma_byte_len_add(s, s);
    rows::lemma_lines_are_the_text(s);
}

} // verus!
