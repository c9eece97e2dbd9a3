//! The order of texts: by the code points of their characters, first to last.

use vstd::prelude::*;

use crate::text::to_chars;

verus! {

/// Where the left one of two things stands when they are put in order.
#[derive(Debug, Clone, Copy, PartialEq, Eq, Structural)]
pub enum Placement {
    Before,
    Same,
    After,
}

/// `left` comes before `right`.
pub open spec fn text_before(left: Seq<char>, right: Seq<char>) -> bool
    decreases left.len(),
{
    if right.len() == 0 {
        false
    } else if left.len() == 0 {
        true
    } else if left[0] == right[0] {
        text_before(left.drop_first(), right.drop_first())
    } else {
        left[0] < right[0]
    }
}

/// How two texts stand to each other.
pub open spec fn text_placement(left: Seq<char>, right: Seq<char>) -> Placement {
    if text_before(left, right) {
        Placement::Before
    } else if left == right {
        Placement::Same
    } else {
        Placement::After
    }
}

/// Two texts in order.
pub fn place_texts(left: &str, right: &str) -> (placement: Placement)
    ensures
        placement == text_placement(left@, right@),
{
    let left_chars = to_chars(left);
    let right_chars = to_chars(right);
    let mut i: usize = 0;
    assert(left@.skip(0) =~= left@);
    assert(right@.skip(0) =~= right@);
    while i < left_chars.len() && i < right_chars.len()
        invariant
            left_chars@ == left@,
            right_chars@ == right@,
            i <= left@.len(),
            i <= right@.len(),
            left@.take(i as int) == right@.take(i as int),
            text_before(left@, right@) == text_before(
                left@.skip(i as int),
                right@.skip(i as int),
            ),
        decreases left@.len() - i,
    {
        let ghost rest_left = left@.skip(i as int);
        let ghost rest_right = right@.skip(i as int);
        assert(rest_left[0] == left@[i as int] && rest_right[0] == right@[i as int]);
        if left_chars[i] != right_chars[i] {
            assert(left@ != right@);
            if left_chars[i] < right_chars[i] {
                return Placement::Before;
            }
            return Placement::After;
        }
        assert(rest_left.drop_first() =~= left@.skip(i as int + 1));
        assert(rest_right.drop_first() =~= right@.skip(i as int + 1));
        assert(left@.take(i as int + 1) =~= left@.take(i as int).push(left@[i as int]));
        assert(right@.take(i as int + 1) =~= right@.take(i as int).push(right@[i as int]));
        i = i + 1;
    }
    if i < right_chars.len() {
        Placement::Before
    } else if i < left_chars.len() {
        Placement::After
    } else {
        assert(left@.take(i as int) =~= left@);
        assert(right@.take(i as int) =~= right@);
        assert(left@.skip(i as int).len() == 0);
        assert(right@.skip(i as int).len() == 0);
        Placement::Same
    }
}

/// Of two different texts exactly one comes before the other, and no text comes
/// before itself.
pub proof fn text_order_is_total(left: Seq<char>, right: Seq<char>)
    ensures
        left == right ==> !text_before(left, right) && !text_before(right, left),
        left != right ==> text_before(left, right) != text_before(right, left),
    decreases left.len(),
{
    if left.len() > 0 && right.len() > 0 && left[0] == right[0] {
        text_order_is_total(left.drop_first(), right.drop_first());
        if left.drop_first() == right.drop_first() {
            assert(left =~= seq![left[0]] + left.drop_first());
            assert(right =~= seq![right[0]] + right.drop_first());
        }
    } else if left.len() == 0 && right.len() == 0 {
        assert(left =~= right);
    }
}

/// The order of texts is transitive.
pub proof fn text_order_is_transitive(first: Seq<char>, second: Seq<char>, third: Seq<char>)
    requires
        text_before(first, second),
        text_before(second, third),
    ensures
        text_before(first, third),
    decreases first.len(),
{
    if first.len() > 0 && second.len() > 0 && third.len() > 0 && first[0] == second[0]
        && second[0] == third[0] {
        text_order_is_transitive(first.drop_first(), second.drop_first(), third.drop_first());
    }
}

/// The first character in which two texts differ decides.
pub proof fn the_first_difference_decides(left: Seq<char>, right: Seq<char>, position: int)
    requires
        0 <= position < left.len(),
        position < right.len(),
        forall|i: int| 0 <= i < position ==> left[i] == right[i],
        left[position] < right[position],
    ensures
        text_before(left, right),
    decreases position,
{
    if position > 0 {
        let shorter = left.drop_first();
        let other = right.drop_first();
        assert forall|i: int| 0 <= i < position - 1 implies shorter[i] == other[i] by {
            assert(left[i + 1] == right[i + 1]);
        }
        the_first_difference_decides(shorter, other, position - 1);
    }
}

} // verus!
