//! The request that asks a language model for a completion.

use vstd::prelude::*;

use crate::provider::LanguageModelEditPredictionProvider;
use crate::sanitize;
use crate::text;

verus! {

/// How edit predictions are made.
///
/// A sampling temperature has the type `T`.
pub struct EditPredictionSettings<T> {
    pub language_model: LanguageModelProviderSettings<T>,
}

/// How a language model is asked for edit predictions.
pub struct LanguageModelProviderSettings<T> {
    /// The model to ask, as `provider/model`.
    pub model: Option<String>,
    pub temperature: Option<T>,
    pub max_tokens: Option<u32>,
    pub stop: Option<Vec<String>>,
    /// The number of recent snippets to remember.
    pub recent_edits_max_snippets: Option<u32>,
    /// The number of rows to show around the cursor.
    pub current_space_window_lines: Option<u32>,
    /// The number of times to ask before an empty answer is final.
    pub empty_completion_total_attempts: Option<u32>,
}

/// Who a message is from.
#[derive(Clone, Copy, Debug, PartialEq, Eq, Structural)]
pub enum Role {
    System,
    User,
}

/// A part of a message.
#[derive(Clone, Debug)]
pub enum MessageContent {
    Text(String),
}

/// A message to a language model.
#[derive(Clone, Debug)]
pub struct LanguageModelRequestMessage {
    pub role: Role,
    pub content: Vec<MessageContent>,
    pub cache: bool,
}

/// A request to a language model.
#[derive(Clone, Debug)]
pub struct LanguageModelRequest<T> {
    pub messages: Vec<LanguageModelRequestMessage>,
    pub stop: Vec<String>,
    pub temperature: Option<T>,
    pub infill: Option<bool>,
    pub thinking_allowed: bool,
}

/// The message is one text from `role`, and not to be cached.
pub open spec fn is_text_message(
    message: LanguageModelRequestMessage,
    role: Role,
    content: Seq<char>,
) -> bool {
    &&& message.role == role
    &&& message.content@.len() == 1
    &&& message.content@[0]->Text_0@ == content
    &&& !message.cache
}

/// `a` comes before `b` in the lexicographic order of their code points.
pub open spec fn precedes(a: Seq<char>, b: Seq<char>) -> bool
    decreases a.len(),
{
    if b.len() == 0 {
        false
    } else if a.len() == 0 {
        true
    } else if a[0] != b[0] {
        (a[0] as u32) < (b[0] as u32)
    } else {
        precedes(a.drop_first(), b.drop_first())
    }
}

/// The texts stand in order, and none is there twice.
pub open spec fn in_strict_order(texts: Seq<Seq<char>>) -> bool {
    forall|i: int, j: int|
        #![trigger texts[i], texts[j]]
        0 <= i < j < texts.len() ==> precedes(texts[i], texts[j])
}

/// The stop sequences asked for by the settings.
pub open spec fn own_stops(stop: Option<Vec<String>>) -> Seq<Seq<char>> {
    match stop {
        Some(own) => text::views(own@),
        None => Seq::empty(),
    }
}

/// The stop sequences of a request: those of the settings and the prompt's markers, in order and
/// each once.
pub open spec fn is_stop_list(stops: Seq<Seq<char>>, own: Seq<Seq<char>>) -> bool {
    &&& in_strict_order(stops)
    &&& forall|s: Seq<char>|
        #[trigger] stops.contains(s) <==> own.contains(s) || sanitize::markers().contains(s)
}

/// The signatures that hold anything, trimmed, each with an empty line behind it.
pub open spec fn signature_lines(signatures: Seq<Seq<char>>) -> Seq<char>
    decreases signatures.len(),
{
    if signatures.len() == 0 {
        Seq::empty()
    } else {
        let before = signature_lines(signatures.drop_last());
        if text::blank(signatures.last()) {
            before
        } else {
            before + text::trimmed(signatures.last()) + "\n\n"@
        }
    }
}

/// What the user message says before the text around the cursor.
pub open spec fn context(signatures: Seq<Seq<char>>) -> Seq<char> {
    if signatures.len() == 0 {
        Seq::empty()
    } else {
        "Parent signatures:\n"@ + signature_lines(signatures) + "\n"@
    }
}

/// The message that asks for the text between `prefix` and `suffix`.
pub open spec fn user_message(
    prefix: Seq<char>,
    suffix: Seq<char>,
    signatures: Seq<Seq<char>>,
) -> Seq<char> {
    context(signatures) + "[PREFIX]\n"@ + prefix + "\n[/PREFIX]\n[SUFFIX]\n"@ + suffix
        + "\n[/SUFFIX]"@
}

/// The request that asks for the text between `prefix` and `suffix`.
pub open spec fn is_request<T>(
    request: LanguageModelRequest<T>,
    system_prompt: Seq<char>,
    prefix: Seq<char>,
    suffix: Seq<char>,
    signatures: Seq<Seq<char>>,
    settings: EditPredictionSettings<T>,
) -> bool {
    &&& request.messages@.len() == 2
    &&& is_text_message(request.messages@[0], Role::System, system_prompt)
    &&& is_text_message(
        request.messages@[1],
        Role::User,
        user_message(prefix, suffix, signatures),
    )
    &&& is_stop_list(text::views(request.stop@), own_stops(settings.language_model.stop))
    &&& request.temperature == settings.language_model.temperature
    &&& request.infill == Some(!text::blank(suffix))
    &&& !request.thinking_allowed
}

proof fn lemma_precedes_total(a: Seq<char>, b: Seq<char>)
    ensures
        a == b || precedes(a, b) || precedes(b, a),
        !(precedes(a, b) && precedes(b, a)),
        precedes(a, b) ==> a != b,
    decreases a.len(),
{
    if a.len() > 0 && b.len() > 0 && a[0] == b[0] {
        lemma_precedes_total(a.drop_first(), b.drop_first());
        if a.drop_first() == b.drop_first() {
            assert(a =~= seq![a[0]] + a.drop_first());
            assert(b =~= seq![b[0]] + b.drop_first());
        }
    } else if a.len() > 0 && b.len() > 0 {
        vstd::utf8::char_u32_cast(a[0], a[0] as u32);
        vstd::utf8::char_u32_cast(b[0], b[0] as u32);
    } else if a.len() == 0 && b.len() == 0 {
        assert(a =~= b);
    }
}

proof fn lemma_precedes_transitive(a: Seq<char>, b: Seq<char>, c: Seq<char>)
    requires
        precedes(a, b),
        precedes(b, c),
    ensures
        precedes(a, c),
    decreases a.len(),
{
    if a.len() > 0 && a[0] == b[0] && b[0] == c[0] {
        lemma_precedes_transitive(a.drop_first(), b.drop_first(), c.drop_first());
    }
}

/// There is one list of given texts in strict order: two of them with the same members are equal.
pub proof fn lemma_strict_order_unique(a: Seq<Seq<char>>, b: Seq<Seq<char>>)
    requires
        in_strict_order(a),
        in_strict_order(b),
        forall|s: Seq<char>| #[trigger] a.contains(s) <==> b.contains(s),
    ensures
        a == b,
    decreases a.len(),
{
    if a.len() == 0 {
        if b.len() > 0 {
            assert(b.contains(b[0]));
            assert(a.contains(b[0]));
        }
        assert(a =~= b);
    } else {
        let x = a.last();
        assert(a[a.len() - 1] == x);
        assert(a.contains(x));
        let k = choose|k: int| 0 <= k < b.len() && b[k] == x;
        if k < b.len() - 1 {
            let y = b.last();
            assert(b[b.len() - 1] == y);
            assert(precedes(x, y));
            assert(b.contains(y));
            assert(a.contains(y));
            let m = choose|m: int| 0 <= m < a.len() && a[m] == y;
            lemma_precedes_total(x, y);
            if m < a.len() - 1 {
                assert(precedes(a[m], a[a.len() - 1]));
            }
        }
        assert(b.last() == x);
        let at = a.drop_last();
        let bt = b.drop_last();
        assert forall|s: Seq<char>| #[trigger] at.contains(s) <==> bt.contains(s) by {
            lemma_drop_last_members(a, s);
            lemma_drop_last_members(b, s);
            assert(a.contains(s) <==> b.contains(s));
        }
        assert(in_strict_order(at)) by {
            assert forall|i: int, j: int| #![trigger at[i], at[j]] 0 <= i < j < at.len() implies precedes(
                at[i],
                at[j],
            ) by {
                assert(at[i] == a[i] && at[j] == a[j]);
            }
        }
        assert(in_strict_order(bt)) by {
            assert forall|i: int, j: int| #![trigger bt[i], bt[j]] 0 <= i < j < bt.len() implies precedes(
                bt[i],
                bt[j],
            ) by {
                assert(bt[i] == b[i] && bt[j] == b[j]);
            }
        }
        lemma_strict_order_unique(at, bt);
        assert(a =~= at.push(x));
        assert(b =~= bt.push(x));
    }
}

proof fn lemma_drop_last_members(a: Seq<Seq<char>>, s: Seq<char>)
    requires
        a.len() > 0,
        in_strict_order(a),
    ensures
        a.drop_last().contains(s) <==> a.contains(s) && s != a.last(),
{
    let t = a.drop_last();
    let n = a.len() - 1;
    if t.contains(s) {
        let k = choose|k: int| 0 <= k < t.len() && t[k] == s;
        assert(a[k] == s);
        assert(precedes(a[k], a[n]));
        lemma_precedes_total(a[k], a[n]);
    }
    if a.contains(s) && s != a.last() {
        let k = choose|k: int| 0 <= k < a.len() && a[k] == s;
        assert(t[k] == s);
    }
}

/// Whether `a` comes before `b`.
fn is_before(a: &Vec<char>, b: &Vec<char>) -> (before: bool)
    ensures
        before == precedes(a@, b@),
{
    let mut i: usize = 0;
    assert(a@.skip(0) == a@);
    assert(b@.skip(0) == b@);
    while i < a.len() && i < b.len()
        invariant
            i <= a.len(),
            i <= b.len(),
            precedes(a@, b@) == precedes(a@.skip(i as int), b@.skip(i as int)),
        decreases a.len() - i,
    {
        if a[i] != b[i] {
            return (a[i] as u32) < (b[i] as u32);
        }
        assert(a@.skip(i as int).drop_first() == a@.skip(i + 1));
        assert(b@.skip(i as int).drop_first() == b@.skip(i + 1));
        i += 1;
    }
    i < b.len()
}

/// Puts `stop` in its place among `stops`, unless it is there already.
fn insert_stop(stops: &mut Vec<String>, stop: String)
    requires
        in_strict_order(text::views(old(stops)@)),
    ensures
        in_strict_order(text::views(final(stops)@)),
        forall|s: Seq<char>| #[trigger]
            text::views(final(stops)@).contains(s) <==> text::views(old(stops)@).contains(s) || s
                == stop@,
{
    let ghost before = text::views(stops@);
    let added = text::chars_of(stop.as_str());
    let mut i: usize = 0;
    while i < stops.len() && is_before(&text::chars_of(stops[i].as_str()), &added)
        invariant
            i <= stops.len(),
            before == text::views(stops@),
            added@ == stop@,
            forall|j: int| 0 <= j < i ==> precedes(#[trigger] before[j], stop@),
        decreases stops.len() - i,
    {
        assert(before[i as int] == stops@[i as int]@);
        i += 1;
    }
    if i < stops.len() {
        assert(before[i as int] == stops@[i as int]@);
        if stops[i] == stop {
            assert(before.contains(stop@));
            return;
        }
    }
    stops.insert(i, stop);
    proof {
        let after = text::views(stops@);
        assert(after =~= before.insert(i as int, stop@));
        lemma_insert_in_order(before, i as int, stop@);
    }
}

proof fn lemma_insert_in_order(texts: Seq<Seq<char>>, i: int, s: Seq<char>)
    requires
        in_strict_order(texts),
        0 <= i <= texts.len(),
        forall|j: int| 0 <= j < i ==> precedes(#[trigger] texts[j], s),
        i < texts.len() ==> !precedes(texts[i], s) && texts[i] != s,
    ensures
        in_strict_order(texts.insert(i, s)),
        forall|t: Seq<char>| #[trigger]
            texts.insert(i, s).contains(t) <==> texts.contains(t) || t == s,
{
    let after = texts.insert(i, s);
    assert forall|j: int| i <= j < texts.len() implies precedes(s, #[trigger] texts[j]) by {
        lemma_precedes_total(texts[i], s);
        if i < j {
            assert(precedes(texts[i], texts[j]));
            lemma_precedes_transitive(s, texts[i], texts[j]);
        }
    }
    assert forall|j: int, k: int| #![trigger after[j], after[k]] 0 <= j < k < after.len() implies precedes(
        after[j],
        after[k],
    ) by {
        let source = |m: int| if m < i {
            m
        } else {
            m - 1
        };
        if j != i && k != i {
            assert(after[j] == texts[source(j)]);
            assert(after[k] == texts[source(k)]);
        } else if j == i {
            assert(after[k] == texts[k - 1]);
        } else {
            assert(after[j] == texts[j]);
        }
    }
    assert forall|t: Seq<char>| #[trigger] after.contains(t) <==> texts.contains(t) || t == s by {
        if texts.contains(t) {
            let k = choose|k: int| 0 <= k < texts.len() && texts[k] == t;
            if k < i {
                assert(after[k] == t);
            } else {
                assert(after[k + 1] == t);
            }
        }
        if t == s {
            assert(after[i] == t);
        }
        if after.contains(t) {
            let k = choose|k: int| 0 <= k < after.len() && after[k] == t;
            if k < i {
                assert(texts[k] == t);
            } else if k > i {
                assert(texts[k - 1] == t);
            }
        }
    }
}

/// Adds each of `added` to the stop sequences.
fn insert_stops(stops: &mut Vec<String>, added: &Vec<String>)
    requires
        in_strict_order(text::views(old(stops)@)),
    ensures
        in_strict_order(text::views(final(stops)@)),
        forall|s: Seq<char>| #[trigger]
            text::views(final(stops)@).contains(s) <==> text::views(old(stops)@).contains(s)
                || text::views(added@).contains(s),
{
    let ghost before = text::views(stops@);
    let ghost all = text::views(added@);
    let mut i: usize = 0;
    while i < added.len()
        invariant
            i <= added.len(),
            all == text::views(added@),
            in_strict_order(text::views(stops@)),
            forall|s: Seq<char>| #[trigger]
                text::views(stops@).contains(s) <==> before.contains(s) || all.take(
                    i as int,
                ).contains(s),
        decreases added.len() - i,
    {
        let ghost so_far = text::views(stops@);
        let stop = added[i].clone();
        insert_stop(stops, stop);
        proof {
            let now = text::views(stops@);
            let t = all.take(i as int);
            let u = all.take(i + 1);
            assert(u =~= t.push(stop@));
            assert forall|s: Seq<char>| #[trigger] now.contains(s) <==> before.contains(s)
                || u.contains(s) by {
                assert(so_far.contains(s) <==> before.contains(s) || t.contains(s));
                if t.contains(s) {
                    let k = choose|k: int| 0 <= k < t.len() && t[k] == s;
                    assert(u[k] == s);
                }
                if u.contains(s) {
                    let k = choose|k: int| 0 <= k < u.len() && u[k] == s;
                    if k < t.len() {
                        assert(t[k] == s);
                    }
                }
                assert(u[i as int] == stop@);
            }
        }
        i += 1;
    }
    assert(all.take(added.len() as int) == all);
}

/// The stop sequences of a request.
fn stop_list(own: &Option<Vec<String>>) -> (stops: Vec<String>)
    ensures
        is_stop_list(text::views(stops@), own_stops(*own)),
{
    let mut stops: Vec<String> = Vec::new();
    if let Some(own) = own {
        insert_stops(&mut stops, own);
    }
    insert_stops(&mut stops, &sanitize::marker_strings());
    stops
}

/// What the user message says before the text around the cursor.
fn context_of(signatures: &Vec<String>) -> (r: String)
    ensures
        r@ == context(text::views(signatures@)),
{
    let ghost all = text::views(signatures@);
    let mut r = String::new();
    if signatures.len() == 0 {
        return r;
    }
    r.append("Parent signatures:\n");
    let mut i: usize = 0;
    assert(all.take(0) == Seq::<Seq<char>>::empty());
    while i < signatures.len()
        invariant
            i <= signatures.len(),
            all == text::views(signatures@),
            r@ == "Parent signatures:\n"@ + signature_lines(all.take(i as int)),
        decreases signatures.len() - i,
    {
        let ghost so_far = r@;
        proof {
            assert(all.take(i + 1).drop_last() == all.take(i as int));
            assert(all.take(i + 1).last() == signatures@[i as int]@);
            text::lemma_blank_iff_trimmed_empty(signatures@[i as int]@);
        }
        let trimmed = text::trim(signatures[i].as_str());
        if !trimmed.as_str().is_empty() {
            r.append(trimmed.as_str());
            r.append("\n\n");
            assert(so_far + trimmed@ + "\n\n"@ =~= "Parent signatures:\n"@ + (signature_lines(
                all.take(i as int),
            ) + trimmed@ + "\n\n"@));
        }
        i += 1;
    }
    assert(all.take(signatures.len() as int) == all);
    r.append("\n");
    r
}

impl<R, S, A, P> LanguageModelEditPredictionProvider<R, S, A, P> {
    /// Asks for the text between `prefix` and `suffix`.
    pub fn build_request<T: Copy>(
        prefix: &str,
        suffix: &str,
        parent_signatures: &Vec<String>,
        settings: &EditPredictionSettings<T>,
        system_prompt: &str,
    ) -> (request: LanguageModelRequest<T>)
        ensures
            is_request(
                request,
                system_prompt@,
                prefix@,
                suffix@,
                text::views(parent_signatures@),
                *settings,
            ),
    {
        let mut message = context_of(parent_signatures);
        message.append("[PREFIX]\n");
        message.append(prefix);
        message.append("\n[/PREFIX]\n[SUFFIX]\n");
        message.append(suffix);
        message.append("\n[/SUFFIX]");
        LanguageModelRequest {
            messages: vec![
                LanguageModelRequestMessage {
                    role: Role::System,
                    content: vec![MessageContent::Text(system_prompt.to_owned())],
                    cache: false,
                },
                LanguageModelRequestMessage {
                    role: Role::User,
                    content: vec![MessageContent::Text(message)],
                    cache: false,
                },
            ],
            stop: stop_list(&settings.language_model.stop),
            temperature: settings.language_model.temperature,
            infill: Some(!text::is_blank(suffix)),
            thinking_allowed: false,
        }
    }
}

/// The user message of a request ends with both sides of the cursor, whole: the text before it and
/// the text behind it, each between its markers. Before them stands what the signatures alone
/// decide, and nothing where there are none.
pub proof fn lemma_request_shows_both_sides<T>(
    request: LanguageModelRequest<T>,
    system_prompt: Seq<char>,
    prefix: Seq<char>,
    suffix: Seq<char>,
    signatures: Seq<Seq<char>>,
    settings: EditPredictionSettings<T>,
)
    requires
        is_request(request, system_prompt, prefix, suffix, signatures, settings),
    ensures
        request.messages@.len() == 2,
        request.messages@[0].role == Role::System,
        request.messages@[0].content@.len() == 1,
        request.messages@[0].content@[0]->Text_0@ == system_prompt,
        request.messages@[1].role == Role::User,
        request.messages@[1].content@.len() == 1,
        ({
            let message = request.messages@[1].content@[0]->Text_0@;
            let shown = "[PREFIX]\n"@ + prefix + "\n[/PREFIX]\n[SUFFIX]\n"@ + suffix
                + "\n[/SUFFIX]"@;
            &&& shown.is_suffix_of(message)
            &&& message.take(message.len() - shown.len()) == context(signatures)
            &&& signatures.len() == 0 ==> message == shown
        }),
{
    let message = request.messages@[1].content@[0]->Text_0@;
    let shown = "[PREFIX]\n"@ + prefix + "\n[/PREFIX]\n[SUFFIX]\n"@ + suffix + "\n[/SUFFIX]"@;
    assert(message =~= context(signatures) + shown);
    assert(message.subrange(message.len() - shown.len(), message.len() as int) =~= shown);
    assert(message.take(message.len() - shown.len()) =~= context(signatures));
}

/// One more signature adds itself, trimmed, and an empty line to what stands before the sides of
/// the cursor, right before its last newline; one that is blank adds nothing. The first signature
/// brings the title.
pub proof fn lemma_signature_adds_itself(signatures: Seq<Seq<char>>, signature: Seq<char>)
    ensures
        context(Seq::empty()).len() == 0,
        signatures.len() > 0 ==> context(signatures).len() > 0 && context(signatures).last()
            == '\n',
        ({
            let so_far = if signatures.len() == 0 {
                "Parent signatures:\n"@
            } else {
                context(signatures).drop_last()
            };
            &&& text::trimmed(signature).len() > 0 ==> context(signatures.push(signature))
                == so_far + text::trimmed(signature) + seq!['\n', '\n', '\n']
            &&& text::trimmed(signature).len() == 0 ==> context(signatures.push(signature))
                == so_far.push('\n')
        }),
{
    reveal_strlit("\n");
    reveal_strlit("\n\n");
    text::lemma_blank_iff_trimmed_empty(signature);
    let more = signatures.push(signature);
    let title = "Parent signatures:\n"@;
    assert(more.drop_last() =~= signatures);
    assert(more.last() == signature);
    assert("\n"@ =~= seq!['\n']);
    if signatures.len() > 0 {
        assert(context(signatures).drop_last() =~= title + signature_lines(signatures));
    } else {
        assert(signature_lines(signatures) =~= Seq::empty());
        assert(title + signature_lines(signatures) =~= title);
    }
    let so_far = title + signature_lines(signatures);
    if text::trimmed(signature).len() > 0 {
        assert(context(more) =~= so_far + text::trimmed(signature) + seq!['\n', '\n', '\n']);
    } else {
        assert(context(more) =~= so_far.push('\n'));
    }
}

/// Every signature that holds anything is shown, trimmed, with an empty line behind it.
pub proof fn lemma_signature_is_shown(signatures: Seq<Seq<char>>, i: int) -> (at: int)
    requires
        0 <= i < signatures.len(),
        text::trimmed(signatures[i]).len() > 0,
    ensures
        ({
            let shown = text::trimmed(signatures[i]) + seq!['\n', '\n'];
            &&& 0 <= at
            &&& at + shown.len() < context(signatures).len()
            &&& context(signatures).subrange(at, at + shown.len()) == shown
        }),
    decreases signatures.len(),
{
    let above = signatures.drop_last();
    let last = signatures.last();
    assert(above.push(last) =~= signatures);
    lemma_signature_adds_itself(above, last);
    let shown = text::trimmed(signatures[i]) + seq!['\n', '\n'];
    if i < above.len() {
        let at = lemma_signature_is_shown(above, i);
        assert(context(signatures).subrange(at, at + shown.len()) =~= context(above).subrange(
            at,
            at + shown.len(),
        ));
        at
    } else {
        let at = context(signatures).len() - shown.len() - 1;
        assert(context(signatures).subrange(at, at + shown.len()) =~= shown);
        at
    }
}

/// The stop sequences of a request are those of the settings and the four markers, and no others.
pub proof fn lemma_stops_are_own_and_markers<T>(
    request: LanguageModelRequest<T>,
    system_prompt: Seq<char>,
    prefix: Seq<char>,
    suffix: Seq<char>,
    signatures: Seq<Seq<char>>,
    settings: EditPredictionSettings<T>,
    stop: Seq<char>,
)
    requires
        is_request(request, system_prompt, prefix, suffix, signatures, settings),
    ensures
        (exists|i: int| 0 <= i < request.stop@.len() && (#[trigger] request.stop@[i])@ == stop)
            <==> {
            ||| stop == "[PREFIX]"@
            ||| stop == "[/PREFIX]"@
            ||| stop == "[SUFFIX]"@
            ||| stop == "[/SUFFIX]"@
            ||| settings.language_model.stop is Some && exists|i: int|
                0 <= i < settings.language_model.stop->0@.len() && (
                #[trigger] settings.language_model.stop->0@[i])@ == stop
        },
{
    let stops = text::views(request.stop@);
    let own = own_stops(settings.language_model.stop);
    let guards = sanitize::markers();
    assert(stops.contains(stop) <==> own.contains(stop) || guards.contains(stop));
    assert(guards[0] == "[PREFIX]"@ && guards[1] == "[/PREFIX]"@ && guards[2] == "[SUFFIX]"@
        && guards[3] == "[/SUFFIX]"@);
    if exists|i: int| 0 <= i < request.stop@.len() && (#[trigger] request.stop@[i])@ == stop {
        let i = choose|i: int|
            0 <= i < request.stop@.len() && (#[trigger] request.stop@[i])@ == stop;
        assert(stops[i] == stop);
        if own.contains(stop) {
            let j = choose|j: int| 0 <= j < own.len() && own[j] == stop;
            assert(settings.language_model.stop->0@[j]@ == stop);
        }
    }
    if settings.language_model.stop is Some && exists|i: int|
        0 <= i < settings.language_model.stop->0@.len() && (
        #[trigger] settings.language_model.stop->0@[i])@ == stop {
        let i = choose|i: int|
            0 <= i < settings.language_model.stop->0@.len() && (
            #[trigger] settings.language_model.stop->0@[i])@ == stop;
        assert(own[i] == stop);
    }
    if stops.contains(stop) {
        let i = choose|i: int| 0 <= i < stops.len() && stops[i] == stop;
        assert(request.stop@[i]@ == stop);
    }
}

/// Of two stop sequences, the first either is a beginning of the second, which goes on, or has the
/// smaller code point where they first differ, at `k`.
pub proof fn lemma_stops_in_order<T>(
    request: LanguageModelRequest<T>,
    system_prompt: Seq<char>,
    prefix: Seq<char>,
    suffix: Seq<char>,
    signatures: Seq<Seq<char>>,
    settings: EditPredictionSettings<T>,
    i: int,
    j: int,
) -> (k: int)
    requires
        is_request(request, system_prompt, prefix, suffix, signatures, settings),
        0 <= i < j < request.stop@.len(),
    ensures
        ({
            let a = request.stop@[i]@;
            let b = request.stop@[j]@;
            &&& 0 <= k <= a.len()
            &&& k < b.len()
            &&& a.take(k) == b.take(k)
            &&& k == a.len() || (a[k] as u32) < (b[k] as u32)
        }),
{
    let stops = text::views(request.stop@);
    assert(precedes(stops[i], stops[j]));
    lemma_precedes_at(request.stop@[i]@, request.stop@[j]@)
}

proof fn lemma_precedes_at(a: Seq<char>, b: Seq<char>) -> (k: int)
    requires
        precedes(a, b),
    ensures
        0 <= k <= a.len(),
        k < b.len(),
        a.take(k) == b.take(k),
        k == a.len() || (a[k] as u32) < (b[k] as u32),
    decreases a.len(),
{
    if a.len() == 0 || a[0] != b[0] {
        assert(a.take(0) =~= b.take(0));
        0
    } else {
        let k = lemma_precedes_at(a.drop_first(), b.drop_first());
        let n = k + 1;
        assert forall|i: int| 0 <= i < n implies a.take(n)[i] == b.take(n)[i] by {
            if i > 0 {
                assert(a.drop_first().take(k)[i - 1] == b.drop_first().take(k)[i - 1]);
            }
        }
        assert(a.take(n) =~= b.take(n));
        n
    }
}

/// A request samples at the temperature of the settings, and is one to fill in exactly where
/// something other than white space stands behind the cursor; thinking is off and nothing is
/// cached.
pub proof fn lemma_request_follows_settings<T>(
    request: LanguageModelRequest<T>,
    system_prompt: Seq<char>,
    prefix: Seq<char>,
    suffix: Seq<char>,
    signatures: Seq<Seq<char>>,
    settings: EditPredictionSettings<T>,
)
    requires
        is_request(request, system_prompt, prefix, suffix, signatures, settings),
    ensures
        request.temperature == settings.language_model.temperature,
        request.infill == Some(
            exists|i: int| 0 <= i < suffix.len() && !text::is_white_space(#[trigger] suffix[i]),
        ),
        !request.thinking_allowed,
        !request.messages@[0].cache,
        !request.messages@[1].cache,
{
}

} // verus!
