//! Choosing what to export.

use vstd::prelude::*;

use crate::calendar::{self, CalendarDate, LocalTime};
use crate::model::Conversation;
use crate::names::{self, ExportFormat};
use crate::order::{self, Placement};
use crate::text;
use crate::wizard::{self, ChoiceView, ConversationChoice, DateProblem, NextAction};
use crate::words;

verus! {

// ---------------------------------------------------------------------------
// Dates of a selection
// ---------------------------------------------------------------------------

/// A chat is selected and its first message was sent at a time after the start of
/// 1970.
pub open spec fn starts_at(choice: ConversationChoice, milliseconds: i64) -> bool {
    choice.selected && choice.first_timestamp_ms == Some(milliseconds) && milliseconds > 0
}

/// A chat is selected and its last message was sent at a time above a bound.
pub open spec fn ends_at(choice: ConversationChoice, milliseconds: i64, bound: int) -> bool {
    choice.selected && choice.last_timestamp_ms == Some(milliseconds) && milliseconds > bound
}

/// The start suggested for a selection is no later than the first message of any
/// selected chat, and it is that of one of them; where none has one, none is
/// suggested.
pub proof fn a_selection_starts_with_its_first_message(choices: Seq<ConversationChoice>)
    ensures
        forall|k: int, milliseconds: i64|
            0 <= k < choices.len() && #[trigger] starts_at(choices[k], milliseconds) ==> (
            wizard::first_of_selected(choices) is Some && wizard::first_of_selected(choices)->0
                <= milliseconds),
        wizard::first_of_selected(choices) matches Some(first) ==> exists|k: int|
            0 <= k < choices.len() && #[trigger] starts_at(choices[k], first),
    decreases choices.len(),
{
    if choices.len() > 0 {
        let rest = choices.drop_last();
        a_selection_starts_with_its_first_message(rest);
        let before = wizard::first_of_selected(rest);
        let found = wizard::first_of_selected(choices);
        assert forall|k: int, milliseconds: i64|
            0 <= k < choices.len() && #[trigger] starts_at(choices[k], milliseconds) implies found
            is Some && found->0 <= milliseconds by {
            if k < rest.len() {
                assert(starts_at(rest[k], milliseconds));
            }
        }
        if found is Some {
            let first = found->0;
            if found == before {
                let k = choose|k: int| 0 <= k < rest.len() && #[trigger] starts_at(rest[k], first);
                assert(starts_at(choices[k], first));
            } else {
                assert(starts_at(choices[choices.len() - 1], first));
            }
        }
    }
}

/// The end suggested for a selection is no earlier than the last message of any
/// selected chat, and it is that of one of them; where none has one, none is
/// suggested.
pub proof fn a_selection_ends_with_its_last_message(choices: Seq<ConversationChoice>, bound: int)
    ensures
        forall|k: int, milliseconds: i64|
            0 <= k < choices.len() && #[trigger] ends_at(choices[k], milliseconds, bound) ==> (
            wizard::last_of_selected(choices, bound) is Some && milliseconds
                <= wizard::last_of_selected(choices, bound)->0),
        wizard::last_of_selected(choices, bound) matches Some(last) ==> exists|k: int|
            0 <= k < choices.len() && #[trigger] ends_at(choices[k], last, bound),
    decreases choices.len(),
{
    if choices.len() > 0 {
        let rest = choices.drop_last();
        a_selection_ends_with_its_last_message(rest, bound);
        let before = wizard::last_of_selected(rest, bound);
        let found = wizard::last_of_selected(choices, bound);
        assert forall|k: int, milliseconds: i64|
            0 <= k < choices.len() && #[trigger] ends_at(
                choices[k],
                milliseconds,
                bound,
            ) implies found is Some && milliseconds <= found->0 by {
            if k < rest.len() {
                assert(ends_at(rest[k], milliseconds, bound));
            }
        }
        if found is Some {
            let last = found->0;
            if found == before {
                let k = choose|k: int|
                    0 <= k < rest.len() && #[trigger] ends_at(rest[k], last, bound);
                assert(ends_at(choices[k], last, bound));
            } else {
                assert(ends_at(choices[choices.len() - 1], last, bound));
            }
        }
    }
}

/// Without a bound every timestamp counts, those before 1970 too.
pub proof fn every_timestamp_counts_without_a_bound(milliseconds: i64)
    ensures
        milliseconds > wizard::no_bound(),
{
}

/// The date suggested is the local day of the timestamp. There is none where there
/// is no timestamp, or none that the calendar can show.
pub proof fn a_suggested_date_is_that_of_the_timestamp(
    milliseconds: i64,
    time: LocalTime,
    date: Option<CalendarDate>,
)
    ensures
        wizard::is_date_of(None, date) == (date is None),
        wizard::is_date_of(Some(milliseconds), None) == !calendar::has_local_time(
            milliseconds as int,
        ),
        calendar::has_local_time(milliseconds as int) && time.shows(milliseconds as int)
            ==> wizard::is_date_of(Some(milliseconds), Some(time.date)),
        wizard::is_date_of(Some(milliseconds), date) && date is Some ==> exists|shown: LocalTime|
            #[trigger] shown.shows(milliseconds as int) && shown.date == date->0,
{
}

// ---------------------------------------------------------------------------
// Chats to choose from
// ---------------------------------------------------------------------------

/// A chat is offered, unselected and as it is, exactly where it has messages that
/// are not all updates of Signal; the order is that of the archive.
pub proof fn chats_with_messages_are_offered(
    conversations: Seq<Conversation>,
    further: Conversation,
)
    ensures
        wizard::offered(Seq::empty()).len() == 0,
        further.message_count > 0 && !further.is_technical_update_only ==> ({
            let all = wizard::offered(conversations.push(further));
            let before = wizard::offered(conversations);
            &&& all.len() == before.len() + 1
            &&& forall|k: int| 0 <= k < before.len() ==> #[trigger] all[k] == before[k]
            &&& all.last().id == further.id@
            &&& all.last().name == further.name@
            &&& all.last().message_count == further.message_count
            &&& !all.last().selected
            &&& all.last().first_timestamp_ms == further.first_timestamp_ms
            &&& all.last().last_timestamp_ms == further.last_timestamp_ms
        }),
        further.message_count == 0 || further.is_technical_update_only ==> wizard::offered(
            conversations.push(further),
        ) == wizard::offered(conversations),
{
    assert(conversations.push(further).drop_last() =~= conversations);
}

/// A chat whose name holds what was typed passes the filter, whatever stands before
/// and after it, small and large letters of ASCII alike; where nothing was typed,
/// every chat does.
pub proof fn a_chat_is_found_by_a_part_of_its_name(
    front: Seq<char>,
    part: Seq<char>,
    back: Seq<char>,
    typed: Seq<char>,
)
    requires
        text::is_ascii_text(front + part + back),
        typed.len() == part.len(),
        forall|i: int|
            0 <= i < part.len() ==> (#[trigger] typed[i] == part[i] || ('A' <= typed[i] && typed[i]
                <= 'Z' && part[i] as u32 == typed[i] as u32 + 32) || ('A' <= part[i] && part[i]
                <= 'Z' && typed[i] as u32 == part[i] as u32 + 32)),
    ensures
        wizard::passes(front + part + back, text::lowercase_text(typed)),
        wizard::passes(front, Seq::empty()),
{
    let whole = front + part + back;
    assert forall|i: int| 0 <= i < typed.len() implies text::is_ascii(#[trigger] typed[i]) by {
        assert(whole[front.len() + i] == part[i]);
        assert(text::is_ascii(whole[front.len() + i]));
    }
    let small = text::lowercase_text(whole);
    let wanted = text::lowercase_text(typed);
    let at = front.len() as int;
    assert(wanted.len() == part.len());
    assert(small.len() == whole.len());
    assert forall|i: int| 0 <= i < wanted.len() implies wanted[i] == #[trigger] small.subrange(
        at,
        at + wanted.len(),
    )[i] by {
        assert(typed[i] == typed[i]);
        assert(whole[at + i] == part[i]);
    }
    assert(wanted =~= small.subrange(at, at + wanted.len()));
    assert(words::stands_at(wanted, small, at));
}

/// A chat that passes a filter has a name that holds it.
pub proof fn a_chat_that_passes_holds_the_filter(name: Seq<char>, filter: Seq<char>)
    requires
        wizard::passes(name, filter),
    ensures
        filter.len() == 0 || exists|front: Seq<char>, back: Seq<char>|
            #[trigger] (front + filter + back) == text::lowercase_text(name),
{
    let small = text::lowercase_text(name);
    if filter.len() > 0 {
        let at = choose|at: int| #[trigger] words::stands_at(filter, small, at);
        let front = small.take(at);
        let back = small.skip(at + filter.len());
        assert(front + filter + back =~= small);
    }
}

/// The chats that are shown are those that pass the filter, each once and in order.
pub proof fn the_chats_that_pass_are_shown(choices: Seq<ConversationChoice>, filter: Seq<char>)
    ensures
        forall|k: int|
            #![trigger wizard::visible_from(choices, filter).contains(k)]
            wizard::visible_from(choices, filter).contains(k) <==> 0 <= k < choices.len()
                && wizard::passes(choices[k].name@, filter),
        forall|i: int, j: int|
            0 <= i < j < wizard::visible_from(choices, filter).len() ==> wizard::visible_from(
                choices,
                filter,
            )[i] < wizard::visible_from(choices, filter)[j],
    decreases choices.len(),
{
    let shown = wizard::visible_from(choices, filter);
    if choices.len() > 0 {
        let rest = choices.drop_last();
        the_chats_that_pass_are_shown(rest, filter);
        let before = wizard::visible_from(rest, filter);
        let last = choices.len() - 1;
        assert forall|k: int| #[trigger] before.contains(k) implies k < last by {}
        assert forall|i: int| 0 <= i < before.len() implies #[trigger] before[i] < last by {
            assert(before.contains(before[i]));
        }
        assert forall|k: int|
            #![trigger shown.contains(k)]
            shown.contains(k) <==> 0 <= k < choices.len() && wizard::passes(
                choices[k].name@,
                filter,
            ) by {
            if shown.contains(k) {
                let i = choose|i: int| 0 <= i < shown.len() && shown[i] == k;
                if i < before.len() {
                    assert(before[i] == k);
                    assert(before.contains(k));
                }
            }
            if 0 <= k < last && wizard::passes(choices[k].name@, filter) {
                assert(rest[k] == choices[k]);
                assert(before.contains(k));
                let i = choose|i: int| 0 <= i < before.len() && before[i] == k;
                assert(shown[i] == k);
            }
            if k == last && wizard::passes(choices[k].name@, filter) {
                assert(shown[shown.len() - 1] == k);
            }
        }
    } else {
        assert(shown =~= Seq::empty());
    }
}

/// The ids of a selection are those of the selected chats, in order.
pub proof fn a_selection_holds_the_selected_chats(
    choices: Seq<ConversationChoice>,
    further: ConversationChoice,
)
    ensures
        wizard::selected_from(Seq::empty()).len() == 0,
        further.selected ==> wizard::selected_from(choices.push(further)) == wizard::selected_from(
            choices,
        ).push(further.id@),
        !further.selected ==> wizard::selected_from(choices.push(further))
            == wizard::selected_from(choices),
{
    assert(choices.push(further).drop_last() =~= choices);
}

/// Only one chat is selected, that at a position.
pub open spec fn only_selected(choices: Seq<ConversationChoice>, place: int) -> bool {
    &&& 0 <= place < choices.len()
    &&& choices[place].selected
    &&& forall|k: int| 0 <= k < choices.len() && k != place ==> !(#[trigger] choices[k]).selected
}

proof fn lemma_none_selected(choices: Seq<ConversationChoice>)
    ensures
        wizard::selected_from(choices).len() == 0 <==> forall|k: int|
            0 <= k < choices.len() ==> !(#[trigger] choices[k]).selected,
    decreases choices.len(),
{
    if choices.len() > 0 {
        let rest = choices.drop_last();
        lemma_none_selected(rest);
        assert(choices.last() == choices[choices.len() - 1]);
        if wizard::selected_from(choices).len() == 0 {
            assert forall|k: int| 0 <= k < choices.len() implies !(#[trigger] choices[k]).selected by {
                if k < rest.len() {
                    assert(choices[k] == rest[k]);
                }
            }
        } else if !choices.last().selected {
            let k = choose|k: int| 0 <= k < rest.len() && (#[trigger] rest[k]).selected;
            assert(choices[k].selected);
        }
    }
}

/// A selection of one chat goes by its name, and no other selection has one.
pub proof fn one_selected_chat_gives_its_name(choices: Seq<ConversationChoice>)
    ensures
        forall|place: int| #[trigger]
            only_selected(choices, place) ==> wizard::single_name(choices) == Some(
                choices[place].name@,
            ),
        wizard::single_name(choices) is Some ==> exists|place: int| #[trigger]
            only_selected(choices, place),
    decreases choices.len(),
{
    if choices.len() > 0 {
        let rest = choices.drop_last();
        let end = choices.len() - 1;
        one_selected_chat_gives_its_name(rest);
        lemma_none_selected(rest);
        assert forall|place: int| #[trigger] only_selected(choices, place) implies
            wizard::single_name(choices) == Some(choices[place].name@) by {
            if place == end {
                assert forall|k: int| 0 <= k < rest.len() implies !(#[trigger] rest[k]).selected by {
                    assert(rest[k] == choices[k]);
                }
            } else {
                assert(!choices[end].selected);
                assert(rest[place] == choices[place]);
                assert forall|k: int| 0 <= k < rest.len() && k != place implies !(
                #[trigger] rest[k]).selected by {
                    assert(rest[k] == choices[k]);
                }
                assert(only_selected(rest, place));
            }
        }
        if wizard::single_name(choices) is Some {
            if choices[end].selected {
                assert forall|k: int| 0 <= k < choices.len() && k != end implies !(
                #[trigger] choices[k]).selected by {
                    assert(rest[k] == choices[k]);
                }
                assert(only_selected(choices, end));
            } else {
                let place = choose|place: int| #[trigger] only_selected(rest, place);
                assert(choices[place] == rest[place]);
                assert forall|k: int| 0 <= k < choices.len() && k != place implies !(
                #[trigger] choices[k]).selected by {
                    if k < end {
                        assert(rest[k] == choices[k]);
                    }
                }
                assert(only_selected(choices, place));
            }
        }
    }
}

// ---------------------------------------------------------------------------
// Orders
// ---------------------------------------------------------------------------

/// By name, chats stand in the order of their names in small letters.
pub proof fn names_stand_in_order(left: ChoiceView, right: ChoiceView)
    ensures
        order::text_before(text::lowercase_text(left.name), text::lowercase_text(right.name))
            ==> wizard::name_placement(left, right) == Placement::Before,
        order::text_before(text::lowercase_text(right.name), text::lowercase_text(left.name))
            ==> wizard::name_placement(left, right) == Placement::After,
        text::lowercase_text(left.name) == text::lowercase_text(right.name)
            ==> wizard::name_placement(left, right) == Placement::Same,
{
    order::text_order_is_total(
        text::lowercase_text(left.name),
        text::lowercase_text(right.name),
    );
}

/// By date, a chat whose last message is older stands first, and one without
/// messages before all others; chats of the same date stand by name.
pub proof fn older_chats_stand_first(left: ChoiceView, right: ChoiceView, older: i64, newer: i64)
    requires
        older < newer,
    ensures
        left.last_timestamp_ms == Some(older) && right.last_timestamp_ms == Some(newer)
            ==> wizard::date_placement(left, right) == Placement::Before,
        left.last_timestamp_ms == Some(newer) && right.last_timestamp_ms == Some(older)
            ==> wizard::date_placement(left, right) == Placement::After,
        left.last_timestamp_ms is None && right.last_timestamp_ms is Some
            ==> wizard::date_placement(left, right) == Placement::Before,
        left.last_timestamp_ms is Some && right.last_timestamp_ms is None
            ==> wizard::date_placement(left, right) == Placement::After,
        left.last_timestamp_ms == right.last_timestamp_ms ==> wizard::date_placement(left, right)
            == wizard::name_placement(left, right),
{
}

/// By messages, a chat with fewer stands first; chats with as many stand by name.
pub proof fn chats_with_fewer_messages_stand_first(left: ChoiceView, right: ChoiceView)
    ensures
        left.message_count < right.message_count ==> wizard::message_placement(left, right)
            == Placement::Before,
        left.message_count > right.message_count ==> wizard::message_placement(left, right)
            == Placement::After,
        left.message_count == right.message_count ==> wizard::message_placement(left, right)
            == wizard::name_placement(left, right),
{
}

/// Turning a placement round twice leaves it as it is, and chats that differ change
/// places.
pub proof fn turning_twice_says_nothing(placement: Placement)
    ensures
        wizard::turned(wizard::turned(placement)) == placement,
        wizard::turned(placement) == placement <==> placement == Placement::Same,
{
}

// ---------------------------------------------------------------------------
// What the wizard says
// ---------------------------------------------------------------------------

/// The wizard goes on from its first step always, from the second with an archive,
/// from the third and the fourth with a chat.
pub proof fn a_step_waits_for_what_it_needs(loaded: bool, selected: bool)
    ensures
        wizard::can_continue(0, loaded, selected),
        wizard::can_continue(1, loaded, selected) == loaded,
        wizard::can_continue(2, loaded, selected) == selected,
        wizard::can_continue(3, loaded, selected) == selected,
{
}

/// Dates are fine where both can be read and the first is not after the last; else
/// what is wrong is said, of the start before the end.
pub proof fn dates_are_checked_in_order(start: Seq<char>, end: Seq<char>)
    ensures
        calendar::typed_date(start) is None <==> wizard::date_problem(start, end) == Some(
            DateProblem::StartUnreadable,
        ),
        calendar::typed_date(start) is Some && calendar::typed_date(end) is None
            <==> wizard::date_problem(start, end) == Some(DateProblem::EndUnreadable),
        calendar::typed_date(start) is Some && calendar::typed_date(end) is Some
            && calendar::is_reversed(calendar::typed_date(start), calendar::typed_date(end))
            <==> wizard::date_problem(start, end) == Some(DateProblem::Reversed),
        DateProblem::StartUnreadable.text() == "Use YYYY-MM-DD for the start date."@,
        DateProblem::EndUnreadable.text() == "Use YYYY-MM-DD for the end date."@,
        DateProblem::Reversed.text() == "The start date is after the end date."@,
{
}

/// The number of selected chats is said in words that hold it.
pub proof fn a_selection_is_counted(count: nat)
    requires
        count != 1,
    ensures
        wizard::selection_text(1) == "1 chat selected"@,
        wizard::selection_text(count) == text::decimal(count) + " chats selected"@,
{
}

/// The totals say how many files, messages and media there are, each in its place.
pub proof fn totals_are_said_in_their_places(files: nat, messages: nat, copied: nat, missing: nat)
    ensures
        wizard::details_text(files, messages, copied, missing) == "Files: "@ + text::decimal(files)
            + ". Messages: "@ + text::decimal(messages) + ". Media: "@ + text::decimal(copied)
            + " copied, "@ + text::decimal(missing) + " unavailable."@,
{
}

/// A name that was found is suggested; else one with the extension of the format.
pub proof fn a_found_name_is_suggested(found: Seq<char>, format: ExportFormat)
    ensures
        wizard::filename_or_default(Some(found), format) == found,
        wizard::filename_or_default(None, ExportFormat::Markdown) == "chat-export.md"@,
        wizard::filename_or_default(None, ExportFormat::Json) == "chat-export.json"@,
{
    reveal_strlit("chat-export.");
    reveal_strlit("chat-export.md");
    reveal_strlit("chat-export.json");
    reveal_strlit("md");
    reveal_strlit("json");
    assert("chat-export."@ + "md"@ =~= "chat-export.md"@);
    assert("chat-export."@ + "json"@ =~= "chat-export.json"@);
}

/// The name that is suggested is that of the selection, with the day of its last
/// message, or with today's date where it has none.
pub proof fn a_suggestion_tells_the_last_day(
    choices: Seq<ConversationChoice>,
    today: CalendarDate,
    separate: bool,
    format: ExportFormat,
    name: Seq<char>,
    last: i64,
)
    requires
        wizard::is_suggestion(choices, today, separate, format, name),
    ensures
        wizard::last_of_selected(choices, i64::MIN as int - 1) is None ==> name
            == names::default_filename(
            wizard::selected_from(choices).len(),
            wizard::single_name(choices),
            today,
            separate,
            format,
        ),
        wizard::last_of_selected(choices, i64::MIN as int - 1) == Some(last)
            && calendar::has_local_time(last as int) ==> exists|time: LocalTime| #[trigger]
            time.shows(last as int) && name == names::default_filename(
                wizard::selected_from(choices).len(),
                wizard::single_name(choices),
                time.date,
                separate,
                format,
            ),
{
    let date = choose|date: Option<CalendarDate>| #[trigger]
        wizard::is_date_of(wizard::last_of_selected(choices, wizard::no_bound()), date) && name
            == names::default_filename(
            wizard::selected_from(choices).len(),
            wizard::single_name(choices),
            match date {
                Some(day) => day,
                None => today,
            },
            separate,
            format,
        );
    if wizard::last_of_selected(choices, i64::MIN as int - 1) == Some(last)
        && calendar::has_local_time(last as int) {
        let time = choose|time: LocalTime| #[trigger]
            time.shows(last as int) && time.date == date->0;
        assert(time.shows(last as int));
    }
}

/// The next button goes from each step to the one after it, where the wizard can go on,
/// and exports at the last where the dates are fine; else it stays. The dates of the
/// selection are taken on the way to the last step, and only there.
pub proof fn the_next_button_goes_step_by_step(
    step: int,
    loaded: bool,
    selected: bool,
    dates: bool,
)
    requires
        0 <= step <= 3,
    ensures
        step < 3 && wizard::can_continue(step, loaded, selected) ==> (match wizard::next_action(
            step,
            loaded,
            selected,
            dates,
        ) {
            NextAction::ShowStep { step: next, take_dates_of_selection } => next == step + 1 && (
            take_dates_of_selection <==> next == 3),
            _ => false,
        }),
        step < 3 && !wizard::can_continue(step, loaded, selected) ==> wizard::next_action(
            step,
            loaded,
            selected,
            dates,
        ) is Stay,
        step == 3 && dates ==> wizard::next_action(step, loaded, selected, dates) is Export,
        step == 3 && !dates ==> wizard::next_action(step, loaded, selected, dates) is Stay,
{
}

/// One step is marked as the one that is shown; those before it are done, and those after
/// it lie ahead.
pub proof fn steps_are_done_one_by_one(current: int, position: int)
    ensures
        wizard::mark_of(current, position) is Current <==> position == current,
        wizard::mark_of(current, position) is Done <==> position < current,
        wizard::mark_of(current + 1, position) is Done <==> position <= current,
        wizard::mark_of(current, position) is Ahead <==> wizard::mark_of(position, current)
            is Done,
{
}

} // verus!
