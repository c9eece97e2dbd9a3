//! The steps of the wizard, and what it shows and decides on the way.

use vstd::prelude::*;

use crate::calendar::{self, parsed_date, range_is_reversed, timestamp_date, CalendarDate};
use crate::calendar::LocalTime;
use crate::error::AppError;
use crate::model::{ArchiveIndex, Conversation, ConversationView};
use crate::names::{self, format_default_filename, ExportFormat};
use crate::order::{self, place_texts, Placement};
use crate::plan::{ConversationExportMode, MultiExportRequest, MultiExportResult};
use crate::text::{self, decimal_text, join2, to_lowercase};
use crate::words::{self, is_part};

verus! {

// ---------------------------------------------------------------------------
// Steps
// ---------------------------------------------------------------------------

pub const STEP_NAMES: [&'static str; 4] = ["introduction", "source", "conversations", "options"];

pub const STEP_TITLES: [&'static str; 4] = [
    "Export from Signal",
    "Select export directory",
    "Select chats",
    "Export options",
];

/// Where the wizard stands: the step that is shown, and the last that may be.
#[derive(Debug, Clone, Copy, PartialEq, Eq, Structural)]
pub struct WizardSteps {
    pub current: usize,
    pub max_unlocked: usize,
}

impl WizardSteps {
    /// The step that is shown exists and may be shown.
    pub open spec fn is_well_formed(self) -> bool {
        self.current <= self.max_unlocked <= 3
    }

    /// The wizard at its first step.
    pub fn start() -> (steps: WizardSteps)
        ensures
            steps.is_well_formed(),
            steps.current == 0,
            steps.max_unlocked == 0,
    {
        WizardSteps { current: 0, max_unlocked: 0 }
    }

    /// Shows a step that may be shown; there is none after the last.
    pub fn show(&mut self, step: usize)
        requires
            old(self).is_well_formed(),
            step <= old(self).max_unlocked,
        ensures
            final(self).is_well_formed(),
            final(self).current == step,
            final(self).max_unlocked == old(self).max_unlocked,
    {
        self.current = step;
    }

    /// Shows the step whose button was pressed, where it may be shown.
    pub fn press_step(&mut self, step: usize)
        requires
            old(self).is_well_formed(),
        ensures
            final(self).is_well_formed(),
            final(self).max_unlocked == old(self).max_unlocked,
            final(self).current == if step <= old(self).max_unlocked {
                step
            } else {
                old(self).current
            },
    {
        if step <= self.max_unlocked {
            self.current = step;
        }
    }

    /// Goes one step back, where there is one.
    pub fn press_back(&mut self)
        requires
            old(self).is_well_formed(),
        ensures
            final(self).is_well_formed(),
            final(self).max_unlocked == old(self).max_unlocked,
            final(self).current == if old(self).current > 0 {
                (old(self).current - 1) as usize
            } else {
                old(self).current
            },
    {
        if self.current > 0 {
            self.current = self.current - 1;
        }
    }

    /// Shows a step and lets it be shown from now on. What was unlocked stays so.
    pub fn unlock_and_show(&mut self, step: usize)
        requires
            old(self).is_well_formed(),
            step <= 3,
        ensures
            final(self).is_well_formed(),
            final(self).current == step,
            final(self).max_unlocked == if step > old(self).max_unlocked {
                step
            } else {
                old(self).max_unlocked
            },
    {
        if step > self.max_unlocked {
            self.max_unlocked = step;
        }
        self.current = step;
    }
}

/// The number of selected chats is shown from the step on in which they are
/// selected.
pub fn selection_status_is_visible(step: usize) -> (visible: bool)
    ensures
        visible == (step >= 2),
{
    step >= 2
}

/// How the buttons at the foot of the wizard stand.
#[derive(Debug, Clone, Copy, PartialEq, Eq, Structural)]
pub struct Navigation {
    pub back_enabled: bool,
    pub next_enabled: bool,
    pub selection_visible: bool,
    pub is_last: bool,
}

/// The wizard can go on from a step: from the second where the archive in the
/// entry is the one that was read, from the later ones where a chat is selected.
pub open spec fn can_continue(step: int, source_is_loaded: bool, has_selection: bool) -> bool {
    ||| step == 0
    ||| step == 1 && source_is_loaded
    ||| step == 2 && has_selection
    ||| step == 3 && has_selection
}

/// How the buttons at the foot of the wizard stand. Nothing can be pressed while
/// work is going on.
pub fn navigation(
    steps: WizardSteps,
    source_is_loaded: bool,
    has_selection: bool,
    busy: bool,
) -> (shown: Navigation)
    ensures
        shown.back_enabled == (steps.current > 0 && !busy),
        shown.next_enabled == (can_continue(
            steps.current as int,
            source_is_loaded,
            has_selection,
        ) && !busy),
        shown.selection_visible == (steps.current >= 2),
        shown.is_last == (steps.current == 3),
{
    let current = steps.current;
    let open = current == 0 || (current == 1 && source_is_loaded) || ((current == 2 || current
        == 3) && has_selection);
    Navigation {
        back_enabled: current > 0 && !busy,
        next_enabled: open && !busy,
        selection_visible: selection_status_is_visible(current),
        is_last: current == 3,
    }
}

/// How the mark of a step stands.
#[derive(Debug, Clone, Copy, PartialEq, Eq, Structural)]
pub enum StepMark {
    Done,
    Current,
    Ahead,
}

/// The mark of a step, given the one that is shown.
pub open spec fn mark_of(current: int, position: int) -> StepMark {
    if position < current {
        StepMark::Done
    } else if position == current {
        StepMark::Current
    } else {
        StepMark::Ahead
    }
}

/// How the mark of a step stands.
pub fn step_mark(steps: WizardSteps, position: usize) -> (mark: StepMark)
    ensures
        mark == if position < steps.current {
            StepMark::Done
        } else if position == steps.current {
            StepMark::Current
        } else {
            StepMark::Ahead
        },
        mark == mark_of(steps.current as int, position as int),
{
    if position < steps.current {
        StepMark::Done
    } else if position == steps.current {
        StepMark::Current
    } else {
        StepMark::Ahead
    }
}

/// What the next button does.
#[derive(Debug, Clone, Copy, PartialEq, Eq, Structural)]
pub enum NextAction {
    Stay,
    ShowStep { step: usize, take_dates_of_selection: bool },
    Export,
}

/// What the next button does at a step.
pub open spec fn next_action(
    step: int,
    has_index: bool,
    has_selection: bool,
    dates_are_valid: bool,
) -> NextAction {
    if step == 0 {
        NextAction::ShowStep { step: 1, take_dates_of_selection: false }
    } else if step == 1 && has_index {
        NextAction::ShowStep { step: 2, take_dates_of_selection: false }
    } else if step == 2 && has_selection {
        NextAction::ShowStep { step: 3, take_dates_of_selection: true }
    } else if step == 3 && dates_are_valid {
        NextAction::Export
    } else {
        NextAction::Stay
    }
}

/// What the next button does: it goes on, or exports at the last step.
pub fn advance_or_export(
    step: usize,
    has_index: bool,
    has_selection: bool,
    dates_are_valid: bool,
) -> (action: NextAction)
    ensures
        action == if step == 0 {
            NextAction::ShowStep { step: 1, take_dates_of_selection: false }
        } else if step == 1 && has_index {
            NextAction::ShowStep { step: 2, take_dates_of_selection: false }
        } else if step == 2 && has_selection {
            NextAction::ShowStep { step: 3, take_dates_of_selection: true }
        } else if step == 3 && dates_are_valid {
            NextAction::Export
        } else {
            NextAction::Stay
        },
        action == next_action(step as int, has_index, has_selection, dates_are_valid),
{
    if step == 0 {
        NextAction::ShowStep { step: 1, take_dates_of_selection: false }
    } else if step == 1 && has_index {
        NextAction::ShowStep { step: 2, take_dates_of_selection: false }
    } else if step == 2 && has_selection {
        NextAction::ShowStep { step: 3, take_dates_of_selection: true }
    } else if step == 3 && dates_are_valid {
        NextAction::Export
    } else {
        NextAction::Stay
    }
}

// ---------------------------------------------------------------------------
// Chats to choose from
// ---------------------------------------------------------------------------

/// A chat that can be selected.
#[derive(Debug, Clone)]
pub struct ConversationChoice {
    pub id: String,
    pub name: String,
    pub message_count: u64,
    pub selected: bool,
    pub first_timestamp_ms: Option<i64>,
    pub last_timestamp_ms: Option<i64>,
}

#[verifier::ext_equal]
pub struct ChoiceView {
    pub id: Seq<char>,
    pub name: Seq<char>,
    pub message_count: u64,
    pub selected: bool,
    pub first_timestamp_ms: Option<i64>,
    pub last_timestamp_ms: Option<i64>,
}

impl ConversationChoice {
    pub open spec fn view(&self) -> ChoiceView {
        ChoiceView {
            id: self.id@,
            name: self.name@,
            message_count: self.message_count,
            selected: self.selected,
            first_timestamp_ms: self.first_timestamp_ms,
            last_timestamp_ms: self.last_timestamp_ms,
        }
    }
}

pub open spec fn shown_choices(choices: Seq<ConversationChoice>) -> Seq<ChoiceView> {
    choices.map_values(|choice: ConversationChoice| choice@)
}

/// A chat is offered where it has messages, and more than one update of Signal.
pub open spec fn is_selectable(conversation: ConversationView) -> bool {
    conversation.message_count > 0 && !conversation.is_technical_update_only
}

/// Whether a chat is offered.
pub fn conversation_is_selectable(conversation: &Conversation) -> (selectable: bool)
    ensures
        selectable == is_selectable(conversation@),
{
    conversation.message_count > 0 && !conversation.is_technical_update_only
}

/// A chat as it is offered at first.
pub open spec fn fresh_choice(conversation: ConversationView) -> ChoiceView {
    ChoiceView {
        id: conversation.id,
        name: conversation.name,
        message_count: conversation.message_count,
        selected: false,
        first_timestamp_ms: conversation.first_timestamp_ms,
        last_timestamp_ms: conversation.last_timestamp_ms,
    }
}

/// The chats that are offered.
pub open spec fn offered(conversations: Seq<Conversation>) -> Seq<ChoiceView>
    decreases conversations.len(),
{
    if conversations.len() == 0 {
        Seq::empty()
    } else if is_selectable(conversations.last()@) {
        offered(conversations.drop_last()).push(fresh_choice(conversations.last()@))
    } else {
        offered(conversations.drop_last())
    }
}

/// The chats that are offered, none of them selected.
pub fn populate_conversations(index: &ArchiveIndex) -> (choices: Vec<ConversationChoice>)
    ensures
        shown_choices(choices@) == offered(index.conversations@),
{
    let ghost all = index.conversations@;
    let mut choices: Vec<ConversationChoice> = Vec::new();
    let mut i: usize = 0;
    assert(shown_choices(choices@) =~= offered(all.take(0)));
    while i < index.conversations.len()
        invariant
            i <= index.conversations@.len(),
            all == index.conversations@,
            shown_choices(choices@) == offered(all.take(i as int)),
        decreases index.conversations@.len() - i,
    {
        let ghost before = shown_choices(choices@);
        assert(all.take(i as int + 1).drop_last() =~= all.take(i as int));
        assert(all.take(i as int + 1).last() == all[i as int]);
        let conversation = &index.conversations[i];
        if conversation_is_selectable(conversation) {
            choices.push(
                ConversationChoice {
                    id: conversation.id.clone(),
                    name: conversation.name.clone(),
                    message_count: conversation.message_count,
                    selected: false,
                    first_timestamp_ms: conversation.first_timestamp_ms,
                    last_timestamp_ms: conversation.last_timestamp_ms,
                },
            );
            assert(shown_choices(choices@) =~= before.push(choices@.last()@));
        }
        i = i + 1;
    }
    assert(all.take(i as int) =~= all);
    choices
}

/// A chat passes a filter in small letters: it is empty, or stands in the chat's
/// name, small and large letters alike.
pub open spec fn passes(name: Seq<char>, filter: Seq<char>) -> bool {
    filter.len() == 0 || words::occurs_in(filter, text::lowercase_text(name))
}

/// Whether a chat passes a filter in small letters.
pub fn conversation_matches_filter(choice: &ConversationChoice, filter: &str) -> (matching: bool)
    ensures
        matching == passes(choice.name@, filter@),
{
    filter.is_empty() || is_part(filter, to_lowercase(choice.name.as_str()).as_str())
}

/// Selects or deselects the chats that pass what was typed as a filter; the
/// others stay as they are.
pub fn select_filtered(choices: &mut Vec<ConversationChoice>, typed: &str, selected: bool)
    ensures
        final(choices)@.len() == old(choices)@.len(),
        forall|i: int|
            0 <= i < old(choices)@.len() ==> (#[trigger] final(choices)@[i])@ == if passes(
                old(choices)@[i].name@,
                text::lowercase_text(typed@),
            ) {
                ChoiceView { selected, ..old(choices)@[i]@ }
            } else {
                old(choices)@[i]@
            },
{
    let filter = to_lowercase(typed);
    let ghost before = choices@;
    let mut i: usize = 0;
    while i < choices.len()
        invariant
            i <= choices@.len(),
            choices@.len() == before.len(),
            filter@ == text::lowercase_text(typed@),
            forall|j: int|
                0 <= j < i ==> (#[trigger] choices@[j])@ == if passes(before[j].name@, filter@) {
                    ChoiceView { selected, ..before[j]@ }
                } else {
                    before[j]@
                },
            forall|j: int| i <= j < before.len() ==> #[trigger] choices@[j] == before[j],
        decreases choices@.len() - i,
    {
        if conversation_matches_filter(&choices[i], filter.as_str()) {
            choices[i].selected = selected;
        }
        i = i + 1;
    }
}

/// Selects a chat that was not selected, and the other way round; the others stay
/// as they are. Tells whether there is such a chat.
pub fn toggle_conversation(choices: &mut Vec<ConversationChoice>, position: usize) -> (toggled:
    bool)
    ensures
        toggled == (position < old(choices)@.len()),
        final(choices)@.len() == old(choices)@.len(),
        forall|i: int|
            0 <= i < old(choices)@.len() ==> (#[trigger] final(choices)@[i])@ == if i == position {
                ChoiceView { selected: !old(choices)@[i].selected, ..old(choices)@[i]@ }
            } else {
                old(choices)@[i]@
            },
{
    if position >= choices.len() {
        return false;
    }
    let selected = choices[position].selected;
    choices[position].selected = !selected;
    true
}

/// The positions of the chats that pass what was typed as a filter.
pub open spec fn visible_from(choices: Seq<ConversationChoice>, filter: Seq<char>) -> Seq<int>
    decreases choices.len(),
{
    if choices.len() == 0 {
        Seq::empty()
    } else if passes(choices.last().name@, filter) {
        visible_from(choices.drop_last(), filter).push(choices.len() - 1)
    } else {
        visible_from(choices.drop_last(), filter)
    }
}

/// The positions of the chats that pass what was typed as a filter.
pub fn visible_choices(choices: &Vec<ConversationChoice>, typed: &str) -> (visible: Vec<usize>)
    ensures
        visible@.map_values(|position: usize| position as int) == visible_from(
            choices@,
            text::lowercase_text(typed@),
        ),
{
    let filter = to_lowercase(typed);
    let ghost all = choices@;
    let mut visible: Vec<usize> = Vec::new();
    let mut i: usize = 0;
    assert(visible@.map_values(|position: usize| position as int) =~= visible_from(
        all.take(0),
        filter@,
    ));
    while i < choices.len()
        invariant
            i <= choices@.len(),
            all == choices@,
            filter@ == text::lowercase_text(typed@),
            visible@.map_values(|position: usize| position as int) == visible_from(
                all.take(i as int),
                filter@,
            ),
        decreases choices@.len() - i,
    {
        let ghost before = visible@.map_values(|position: usize| position as int);
        assert(all.take(i as int + 1).drop_last() =~= all.take(i as int));
        assert(all.take(i as int + 1).last() == all[i as int]);
        if conversation_matches_filter(&choices[i], filter.as_str()) {
            visible.push(i);
            assert(visible@.map_values(|position: usize| position as int) =~= before.push(
                i as int,
            ));
        }
        i = i + 1;
    }
    assert(all.take(i as int) =~= all);
    visible
}

/// The ids of the chats that are selected, in order.
pub open spec fn selected_from(choices: Seq<ConversationChoice>) -> Seq<Seq<char>>
    decreases choices.len(),
{
    if choices.len() == 0 {
        Seq::empty()
    } else if choices.last().selected {
        selected_from(choices.drop_last()).push(choices.last().id@)
    } else {
        selected_from(choices.drop_last())
    }
}

/// The ids of the chats that are selected, in order.
pub fn selected_ids(choices: &Vec<ConversationChoice>) -> (ids: Vec<String>)
    ensures
        text::texts(ids@) == selected_from(choices@),
{
    let ghost all = choices@;
    let mut ids: Vec<String> = Vec::new();
    let mut i: usize = 0;
    assert(text::texts(ids@) =~= selected_from(all.take(0)));
    while i < choices.len()
        invariant
            i <= choices@.len(),
            all == choices@,
            text::texts(ids@) == selected_from(all.take(i as int)),
        decreases choices@.len() - i,
    {
        let ghost before = text::texts(ids@);
        assert(all.take(i as int + 1).drop_last() =~= all.take(i as int));
        assert(all.take(i as int + 1).last() == all[i as int]);
        if choices[i].selected {
            ids.push(choices[i].id.clone());
            assert(text::texts(ids@) =~= before.push(choices@[i as int].id@));
        }
        i = i + 1;
    }
    assert(all.take(i as int) =~= all);
    ids
}

/// How many chats are selected, in words.
pub open spec fn selection_text(count: nat) -> Seq<char> {
    if count == 1 {
        "1 chat selected"@
    } else {
        text::decimal(count) + " chats selected"@
    }
}

/// How many chats are selected, in words.
pub fn selection_label(count: usize) -> (label: String)
    ensures
        label@ == selection_text(count as nat),
{
    if count == 1 {
        "1 chat selected".to_owned()
    } else {
        join2(decimal_text(count as u64).as_str(), " chats selected")
    }
}

// ---------------------------------------------------------------------------
// The order of the list
// ---------------------------------------------------------------------------

/// By name, small and large letters alike.
pub open spec fn name_placement(left: ChoiceView, right: ChoiceView) -> Placement {
    order::text_placement(text::lowercase_text(left.name), text::lowercase_text(right.name))
}

/// By the date of the last message, chats without one first, then by name.
pub open spec fn date_placement(left: ChoiceView, right: ChoiceView) -> Placement {
    match (left.last_timestamp_ms, right.last_timestamp_ms) {
        (None, Some(_)) => Placement::Before,
        (Some(_), None) => Placement::After,
        (Some(earlier), Some(later)) => if earlier < later {
            Placement::Before
        } else if earlier > later {
            Placement::After
        } else {
            name_placement(left, right)
        },
        (None, None) => name_placement(left, right),
    }
}

/// By the number of messages, then by name.
pub open spec fn message_placement(left: ChoiceView, right: ChoiceView) -> Placement {
    if left.message_count < right.message_count {
        Placement::Before
    } else if left.message_count > right.message_count {
        Placement::After
    } else {
        name_placement(left, right)
    }
}

/// By name, small and large letters alike.
pub fn place_by_name(left: &ConversationChoice, right: &ConversationChoice) -> (placement:
    Placement)
    ensures
        placement == name_placement(left@, right@),
{
    place_texts(
        to_lowercase(left.name.as_str()).as_str(),
        to_lowercase(right.name.as_str()).as_str(),
    )
}

/// By the date of the last message, then by name.
pub fn place_by_date(left: &ConversationChoice, right: &ConversationChoice) -> (placement:
    Placement)
    ensures
        placement == date_placement(left@, right@),
{
    match (left.last_timestamp_ms, right.last_timestamp_ms) {
        (None, Some(_)) => Placement::Before,
        (Some(_), None) => Placement::After,
        (Some(earlier), Some(later)) => if earlier < later {
            Placement::Before
        } else if earlier > later {
            Placement::After
        } else {
            place_by_name(left, right)
        },
        (None, None) => place_by_name(left, right),
    }
}

/// By the number of messages, then by name.
pub fn place_by_messages(left: &ConversationChoice, right: &ConversationChoice) -> (placement:
    Placement)
    ensures
        placement == message_placement(left@, right@),
{
    if left.message_count < right.message_count {
        Placement::Before
    } else if left.message_count > right.message_count {
        Placement::After
    } else {
        place_by_name(left, right)
    }
}

/// The opposite placement.
pub open spec fn turned(placement: Placement) -> Placement {
    match placement {
        Placement::Before => Placement::After,
        Placement::Same => Placement::Same,
        Placement::After => Placement::Before,
    }
}

/// Each order is one: what stands before another stands before all that the other
/// stands before.
pub proof fn placements_are_transitive(first: ChoiceView, second: ChoiceView, third: ChoiceView)
    ensures
        name_placement(first, second) is Before && name_placement(second, third) is Before
            ==> name_placement(first, third) is Before,
        date_placement(first, second) is Before && date_placement(second, third) is Before
            ==> date_placement(first, third) is Before,
        message_placement(first, second) is Before && message_placement(second, third) is Before
            ==> message_placement(first, third) is Before,
{
    let a = text::lowercase_text(first.name);
    let b = text::lowercase_text(second.name);
    let c = text::lowercase_text(third.name);
    if order::text_before(a, b) && order::text_before(b, c) {
        order::text_order_is_transitive(a, b, c);
    }
}

/// Each order gives two chats the opposite placement the other way round.
pub proof fn placements_turn_round(left: ChoiceView, right: ChoiceView)
    ensures
        name_placement(right, left) == turned(name_placement(left, right)),
        date_placement(right, left) == turned(date_placement(left, right)),
        message_placement(right, left) == turned(message_placement(left, right)),
{
    order::text_order_is_total(
        text::lowercase_text(left.name),
        text::lowercase_text(right.name),
    );
}

// ---------------------------------------------------------------------------
// Dates
// ---------------------------------------------------------------------------

/// The least first timestamp of the selected chats, of those after the start of
/// 1970.
pub open spec fn first_of_selected(choices: Seq<ConversationChoice>) -> Option<i64>
    decreases choices.len(),
{
    if choices.len() == 0 {
        None
    } else {
        let before = first_of_selected(choices.drop_last());
        let choice = choices.last();
        match choice.first_timestamp_ms {
            Some(first) => if choice.selected && first > 0 && (before is None || first
                < before->0) {
                Some(first)
            } else {
                before
            },
            None => before,
        }
    }
}

/// The greatest last timestamp of the selected chats above a bound.
pub open spec fn last_of_selected(choices: Seq<ConversationChoice>, bound: int) -> Option<i64>
    decreases choices.len(),
{
    if choices.len() == 0 {
        None
    } else {
        let before = last_of_selected(choices.drop_last(), bound);
        let choice = choices.last();
        match choice.last_timestamp_ms {
            Some(last) => if choice.selected && last > bound && (before is None || last
                > before->0) {
                Some(last)
            } else {
                before
            },
            None => before,
        }
    }
}

/// No timestamp lies below this.
pub open spec fn no_bound() -> int {
    i64::MIN as int - 1
}

fn find_first_of_selected(choices: &Vec<ConversationChoice>) -> (first: Option<i64>)
    ensures
        first == first_of_selected(choices@),
{
    let ghost all = choices@;
    let mut found: Option<i64> = None;
    let mut i: usize = 0;
    assert(all.take(0).len() == 0);
    while i < choices.len()
        invariant
            i <= choices@.len(),
            all == choices@,
            found == first_of_selected(all.take(i as int)),
        decreases choices@.len() - i,
    {
        assert(all.take(i as int + 1).drop_last() =~= all.take(i as int));
        assert(all.take(i as int + 1).last() == all[i as int]);
        if let Some(first) = choices[i].first_timestamp_ms {
            let earlier = match found {
                Some(known) => first < known,
                None => true,
            };
            if choices[i].selected && first > 0 && earlier {
                found = Some(first);
            }
        }
        i = i + 1;
    }
    assert(all.take(i as int) =~= all);
    found
}

fn find_last_of_selected(choices: &Vec<ConversationChoice>, positive: bool) -> (last: Option<i64>)
    ensures
        last == last_of_selected(
            choices@,
            if positive {
                0
            } else {
                no_bound()
            },
        ),
{
    let ghost all = choices@;
    let ghost bound = if positive {
        0
    } else {
        no_bound()
    };
    let mut found: Option<i64> = None;
    let mut i: usize = 0;
    assert(all.take(0).len() == 0);
    while i < choices.len()
        invariant
            i <= choices@.len(),
            all == choices@,
            bound == if positive {
                0
            } else {
                no_bound()
            },
            found == last_of_selected(all.take(i as int), bound),
        decreases choices@.len() - i,
    {
        assert(all.take(i as int + 1).drop_last() =~= all.take(i as int));
        assert(all.take(i as int + 1).last() == all[i as int]);
        if let Some(last) = choices[i].last_timestamp_ms {
            let later = match found {
                Some(known) => last > known,
                None => true,
            };
            if choices[i].selected && (last > 0 || !positive) && later {
                found = Some(last);
            }
        }
        i = i + 1;
    }
    assert(all.take(i as int) =~= all);
    found
}

/// The local date of a timestamp, where there is a timestamp and it has a date.
pub open spec fn is_date_of(timestamp_ms: Option<i64>, date: Option<CalendarDate>) -> bool {
    match timestamp_ms {
        Some(milliseconds) => {
            &&& date is Some == calendar::has_local_time(milliseconds as int)
            &&& date matches Some(day) ==> exists|time: LocalTime| #[trigger]
                time.shows(milliseconds as int) && time.date == day
        },
        None => date is None,
    }
}

fn find_date_of(timestamp_ms: Option<i64>) -> (date: Option<CalendarDate>)
    ensures
        is_date_of(timestamp_ms, date),
{
    match timestamp_ms {
        Some(milliseconds) => timestamp_date(milliseconds),
        None => None,
    }
}

/// The date that the list shows of a chat: that of its last message, or a dash.
pub fn date_label(choice: &ConversationChoice) -> (label: String)
    ensures
        exists|date: Option<CalendarDate>| #[trigger]
            is_date_of(choice.last_timestamp_ms, date) && label@ == match date {
                Some(day) => calendar::date_text(day),
                None => "—"@,
            },
{
    let date = find_date_of(choice.last_timestamp_ms);
    assert(is_date_of(choice.last_timestamp_ms, date));
    match date {
        Some(day) => day.to_text(),
        None => "—".to_owned(),
    }
}

/// The local dates of the first and of the last message of the selected chats.
pub fn selection_dates(choices: &Vec<ConversationChoice>) -> (dates: (
    Option<CalendarDate>,
    Option<CalendarDate>,
))
    ensures
        is_date_of(first_of_selected(choices@), dates.0),
        is_date_of(last_of_selected(choices@, 0), dates.1),
{
    let first = find_date_of(find_first_of_selected(choices));
    let last = find_date_of(find_last_of_selected(choices, true));
    (first, last)
}

/// What is wrong with the dates that were typed in.
#[derive(Debug, Clone, Copy, PartialEq, Eq, Structural)]
pub enum DateProblem {
    StartUnreadable,
    EndUnreadable,
    Reversed,
}

/// What is wrong with the dates that were typed in: the first thing that is.
pub open spec fn date_problem(start: Seq<char>, end: Seq<char>) -> Option<DateProblem> {
    if calendar::typed_date(start) is None {
        Some(DateProblem::StartUnreadable)
    } else if calendar::typed_date(end) is None {
        Some(DateProblem::EndUnreadable)
    } else if calendar::is_reversed(calendar::typed_date(start), calendar::typed_date(end)) {
        Some(DateProblem::Reversed)
    } else {
        None
    }
}

/// The dates that were typed in, or what is wrong with them.
pub fn validate_date_range(start: &str, end: &str) -> (result: Result<
    (CalendarDate, CalendarDate),
    DateProblem,
>)
    ensures
        match result {
            Ok((first, last)) => date_problem(start@, end@) is None && calendar::typed_date(start@)
                == Some(first) && calendar::typed_date(end@) == Some(last),
            Err(problem) => date_problem(start@, end@) == Some(problem),
        },
        forall|first: CalendarDate, last: CalendarDate|
            #![trigger calendar::date_text(first), calendar::date_text(last)]
            calendar::is_known_date(first) && calendar::is_known_date(last) && calendar::is_typed(
                start@,
                calendar::date_text(first),
            ) && calendar::is_typed(end@, calendar::date_text(last)) ==> result == if last.is_before(
                first,
            ) {
                Err::<(CalendarDate, CalendarDate), DateProblem>(DateProblem::Reversed)
            } else {
                Ok::<(CalendarDate, CalendarDate), DateProblem>((first, last))
            },
{
    let first = match parsed_date(start) {
        Some(date) => date,
        None => {
            return Err(DateProblem::StartUnreadable);
        },
    };
    let last = match parsed_date(end) {
        Some(date) => date,
        None => {
            return Err(DateProblem::EndUnreadable);
        },
    };
    if range_is_reversed(Some(first), Some(last)) {
        return Err(DateProblem::Reversed);
    }
    Ok((first, last))
}

impl DateProblem {
    pub open spec fn text(self) -> Seq<char> {
        match self {
            DateProblem::StartUnreadable => "Use YYYY-MM-DD for the start date."@,
            DateProblem::EndUnreadable => "Use YYYY-MM-DD for the end date."@,
            DateProblem::Reversed => "The start date is after the end date."@,
        }
    }

    /// The sentence that tells the user about it.
    pub fn message(self) -> (sentence: &'static str)
        ensures
            sentence@ == self.text(),
    {
        match self {
            DateProblem::StartUnreadable => "Use YYYY-MM-DD for the start date.",
            DateProblem::EndUnreadable => "Use YYYY-MM-DD for the end date.",
            DateProblem::Reversed => "The start date is after the end date.",
        }
    }
}

// ---------------------------------------------------------------------------
// Where the export goes
// ---------------------------------------------------------------------------

/// Several files go into a folder, one file under a name.
pub fn export_uses_directory_chooser(separate: bool, selected_count: usize) -> (folder: bool)
    ensures
        folder == (separate && selected_count > 1),
{
    separate && selected_count > 1
}

/// The format that is selected.
pub fn selected_format(json_is_active: bool) -> (format: ExportFormat)
    ensures
        format == if json_is_active {
            ExportFormat::Json
        } else {
            ExportFormat::Markdown
        },
{
    if json_is_active {
        ExportFormat::Json
    } else {
        ExportFormat::Markdown
    }
}

/// The extension of exported files.
pub fn filename_extension(format: ExportFormat) -> (extension: &'static str)
    ensures
        extension@ == format.extension_text(),
{
    format.extension()
}

/// The name of the only chat that is selected.
pub open spec fn single_name(choices: Seq<ConversationChoice>) -> Option<Seq<char>>
    decreases choices.len(),
{
    if choices.len() == 0 {
        None
    } else if choices.last().selected {
        if selected_from(choices.drop_last()).len() == 0 {
            Some(choices.last().name@)
        } else {
            None
        }
    } else {
        single_name(choices.drop_last())
    }
}

/// The name suggested for an export of the selected chats: it holds the date of
/// their last message, or today's where they have none.
pub open spec fn is_suggestion(
    choices: Seq<ConversationChoice>,
    today: CalendarDate,
    separate: bool,
    format: ExportFormat,
    name: Seq<char>,
) -> bool {
    exists|date: Option<CalendarDate>| #[trigger]
        is_date_of(last_of_selected(choices, no_bound()), date) && name == names::default_filename(
            selected_from(choices).len(),
            single_name(choices),
            match date {
                Some(day) => day,
                None => today,
            },
            separate,
            format,
        )
}

fn find_single(choices: &Vec<ConversationChoice>) -> (found: (usize, Option<usize>))
    ensures
        found.0 == selected_from(choices@).len(),
        match found.1 {
            Some(position) => position < choices@.len() && single_name(choices@) == Some(
                choices@[position as int].name@,
            ),
            None => single_name(choices@) is None,
        },
{
    let ghost all = choices@;
    let mut count: usize = 0;
    let mut single: Option<usize> = None;
    let mut i: usize = 0;
    assert(all.take(0).len() == 0);
    while i < choices.len()
        invariant
            i <= choices@.len(),
            all == choices@,
            count <= i,
            count == selected_from(all.take(i as int)).len(),
            match single {
                Some(position) => position < i && single_name(all.take(i as int)) == Some(
                    all[position as int].name@,
                ),
                None => single_name(all.take(i as int)) is None,
            },
        decreases choices@.len() - i,
    {
        assert(all.take(i as int + 1).drop_last() =~= all.take(i as int));
        assert(all.take(i as int + 1).last() == all[i as int]);
        if choices[i].selected {
            single = if count == 0 {
                Some(i)
            } else {
                None
            };
            count = count + 1;
        }
        i = i + 1;
    }
    assert(all.take(i as int) =~= all);
    (count, single)
}

/// The name suggested for an export, where a chat is selected.
pub fn suggested_filename(
    choices: &Vec<ConversationChoice>,
    today: CalendarDate,
    separate: bool,
    format: ExportFormat,
) -> (name: Option<String>)
    ensures
        match name {
            Some(held) => selected_from(choices@).len() > 0 && is_suggestion(
                choices@,
                today,
                separate,
                format,
                held@,
            ),
            None => selected_from(choices@).len() == 0,
        },
{
    let (count, single) = find_single(choices);
    if count == 0 {
        return None;
    }
    let date = find_date_of(find_last_of_selected(choices, false));
    assert(is_date_of(last_of_selected(choices@, no_bound()), date));
    let day = match date {
        Some(day) => day,
        None => today,
    };
    let held = match single {
        Some(position) => Some(choices[position].name.as_str()),
        None => None,
    };
    Some(format_default_filename(count, held, day, separate, format))
}

/// What the user is asked for, with the name to suggest: nothing, the folder of
/// several files, or the file.
#[derive(Debug)]
pub enum Destination {
    Nothing,
    Folder { filename: String },
    File { filename: String },
}

/// The name to suggest where none was found.
pub open spec fn filename_or_default(suggested: Option<Seq<char>>, format: ExportFormat) -> Seq<
    char,
> {
    match suggested {
        Some(name) => name,
        None => "chat-export."@ + format.extension_text(),
    }
}

/// What the user is asked for before an export; nothing while another task runs or
/// no chat is selected.
pub fn choose_export_destination(
    busy: bool,
    choices: &Vec<ConversationChoice>,
    separate: bool,
    suggested: Option<String>,
    format: ExportFormat,
) -> (destination: Destination)
    ensures
        ({
            let count = selected_from(choices@).len();
            let name = filename_or_default(text::shown(suggested), format);
            match destination {
                Destination::Nothing => busy || count == 0,
                Destination::Folder { filename } => !busy && separate && count > 1 && filename@
                    == name,
                Destination::File { filename } => !busy && (count == 1 || count > 1 && !separate)
                    && filename@ == name,
            }
        }),
{
    if busy {
        return Destination::Nothing;
    }
    let ids = selected_ids(choices);
    assert(text::texts(ids@).len() == ids@.len());
    if ids.len() == 0 {
        return Destination::Nothing;
    }
    let filename = match suggested {
        Some(name) => name,
        None => join2("chat-export.", filename_extension(format)),
    };
    if export_uses_directory_chooser(separate, ids.len()) {
        Destination::Folder { filename }
    } else {
        Destination::File { filename }
    }
}

/// The export of the selected chats to a file that was chosen.
pub fn export_request(
    choices: &Vec<ConversationChoice>,
    start_date: CalendarDate,
    end_date: CalendarDate,
    include_media: bool,
    format: ExportFormat,
    separate: bool,
    output_file: String,
) -> (request: MultiExportRequest)
    ensures
        text::texts(request.conversation_ids@) == selected_from(choices@),
        request.start_date == Some(start_date),
        request.end_date == Some(end_date),
        request.include_media == include_media,
        request.format == format,
        request.output_file == output_file,
        request.mode == if separate {
            ConversationExportMode::Separate
        } else {
            ConversationExportMode::Combined
        },
{
    MultiExportRequest {
        conversation_ids: selected_ids(choices),
        start_date: Some(start_date),
        end_date: Some(end_date),
        include_media,
        format,
        output_file,
        mode: if separate {
            ConversationExportMode::Separate
        } else {
            ConversationExportMode::Combined
        },
    }
}

// ---------------------------------------------------------------------------
// What came of it
// ---------------------------------------------------------------------------

/// The totals of an export in words.
pub open spec fn details_text(files: nat, messages: nat, copied: nat, missing: nat) -> Seq<char> {
    "Files: "@ + text::decimal(files) + ". Messages: "@ + text::decimal(messages) + ". Media: "@
        + text::decimal(copied) + " copied, "@ + text::decimal(missing) + " unavailable."@
}

/// The totals of an export in words.
pub fn export_details(result: &MultiExportResult) -> (details: String)
    ensures
        details@ == details_text(
            result.output_files@.len(),
            result.messages_exported as nat,
            result.media_copied as nat,
            result.media_missing as nat,
        ),
{
    let mut details = join2("Files: ", decimal_text(result.output_files.len() as u64).as_str());
    details.append(". Messages: ");
    details.append(decimal_text(result.messages_exported).as_str());
    details.append(". Media: ");
    details.append(decimal_text(result.media_copied).as_str());
    details.append(" copied, ");
    details.append(decimal_text(result.media_missing).as_str());
    details.append(" unavailable.");
    details
}

/// What follows an export that failed.
#[derive(Debug, Clone, Copy, PartialEq, Eq, Structural)]
pub enum AfterFailure {
    AskToReplace,
    ShowError,
}

/// What follows an export that failed: where something stands in its way and the
/// user was not asked yet, the user is asked.
pub fn after_failure(error: &AppError, overwrite_existing: bool) -> (next: AfterFailure)
    ensures
        next == if error is OutputExists && !overwrite_existing {
            AfterFailure::AskToReplace
        } else {
            AfterFailure::ShowError
        },
{
    match error {
        AppError::OutputExists => if overwrite_existing {
            AfterFailure::ShowError
        } else {
            AfterFailure::AskToReplace
        },
        _ => AfterFailure::ShowError,
    }
}

/// Selecting all selects every chat that is shown.
pub proof fn selecting_all_selects_what_is_shown(
    before: Seq<ConversationChoice>,
    after: Seq<ConversationChoice>,
    filter: Seq<char>,
    position: int,
)
    requires
        after.len() == before.len(),
        forall|i: int|
            0 <= i < before.len() ==> (#[trigger] after[i])@ == if passes(
                before[i].name@,
                filter,
            ) {
                ChoiceView { selected: true, ..before[i]@ }
            } else {
                before[i]@
            },
        0 <= position < before.len(),
    ensures
        passes(before[position].name@, filter) ==> selected_from(after).contains(
            before[position].id@,
        ),
{
    if passes(before[position].name@, filter) {
        assert(after[position]@.selected);
        assert(after[position]@.id == before[position].id@);
        lemma_selected(after, position);
    }
}

proof fn lemma_selected(choices: Seq<ConversationChoice>, position: int)
    requires
        0 <= position < choices.len(),
        choices[position].selected,
    ensures
        selected_from(choices).contains(choices[position].id@),
    decreases choices.len(),
{
    let ids = selected_from(choices);
    if position == choices.len() - 1 {
        assert(ids[ids.len() - 1] == choices[position].id@);
    } else {
        let rest = choices.drop_last();
        lemma_selected(rest, position);
        let fewer = selected_from(rest);
        let k = choose|k: int| 0 <= k < fewer.len() && fewer[k] == choices[position].id@;
        assert(ids[k] == choices[position].id@);
    }
}

} // verus!
