//! Members of objects.

use vstd::prelude::*;

use crate::json::{self, JsonView, MemberView};

verus! {

proof fn lemma_first_member(members: Seq<MemberView>, key: Seq<char>)
    ensures
        match json::first_member(members, key) {
            Some(value) => exists|i: int|
                {
                    &&& 0 <= i < members.len()
                    &&& (#[trigger] members[i]).key == key
                    &&& members[i].value == value
                    &&& forall|j: int| 0 <= j < i ==> (#[trigger] members[j]).key != key
                },
            None => forall|i: int| 0 <= i < members.len() ==> (#[trigger] members[i]).key != key,
        },
    decreases members.len(),
{
    if members.len() > 0 && members[0].key != key {
        let rest = members.drop_first();
        lemma_first_member(rest, key);
        match json::first_member(rest, key) {
            Some(value) => {
                let i = choose|i: int|
                    {
                        &&& 0 <= i < rest.len()
                        &&& (#[trigger] rest[i]).key == key
                        &&& rest[i].value == value
                        &&& forall|j: int| 0 <= j < i ==> (#[trigger] rest[j]).key != key
                    };
                assert(members[i + 1] == rest[i]);
                assert forall|j: int| 0 <= j < i + 1 implies (#[trigger] members[j]).key
                    != key by {
                    if j > 0 {
                        assert(rest[j - 1] == members[j]);
                    }
                }
            },
            None => {
                assert forall|i: int| 0 <= i < members.len() implies (#[trigger] members[i]).key
                    != key by {
                    if i > 0 {
                        assert(rest[i - 1] == members[i]);
                    }
                }
            },
        }
    } else if members.len() > 0 {
        assert(members[0].key == key);
    }
}

/// A member of an object is found by its key, the first of several with that key;
/// nothing is found under a key that none has, nor in what is no object.
pub proof fn a_member_is_found_by_its_key(members: Seq<MemberView>, position: int, key: Seq<char>)
    requires
        0 <= position < members.len(),
        forall|j: int| 0 <= j < position ==> (#[trigger] members[j]).key != members[position].key,
    ensures
        JsonView::Object(members).member(members[position].key) == Some(members[position].value),
        JsonView::Object(members).has(members[position].key),
        (forall|j: int| 0 <= j < members.len() ==> (#[trigger] members[j]).key != key) ==> {
            &&& JsonView::Object(members).member(key) is None
            &&& !JsonView::Object(members).has(key)
        },
        JsonView::Array(Seq::empty()).member(key) is None,
        JsonView::Null.member(key) is None,
{
    lemma_first_member(members, members[position].key);
    lemma_first_member(members, key);
}

/// A member counts as an object only where it is one, and as text only where it is
/// text.
pub proof fn a_member_is_what_it_is(value: JsonView, key: Seq<char>)
    ensures
        match value.member(key) {
            Some(JsonView::Object(members)) => value.object_member(key) == Some(
                JsonView::Object(members),
            ) && value.text_member(key) is None && value.has(key),
            Some(JsonView::Text(held)) => value.text_member(key) == Some(held)
                && value.object_member(key) is None && value.has(key),
            Some(_) => value.text_member(key) is None && value.object_member(key) is None
                && value.has(key),
            None => value.text_member(key) is None && value.object_member(key) is None
                && !value.has(key),
        },
{
}

/// One more member at the end is found where no other has its key, and hides none.
pub proof fn a_further_member_hides_none(
    members: Seq<MemberView>,
    further: MemberView,
    key: Seq<char>,
)
    ensures
        JsonView::Object(members.push(further)).member(key) == if JsonView::Object(members).has(
            key,
        ) {
            JsonView::Object(members).member(key)
        } else if further.key == key {
            Some(further.value)
        } else {
            None
        },
{
    let all = members.push(further);
    lemma_first_member(members, key);
    lemma_first_member(all, key);
    assert(all[members.len() as int] == further);
    if json::first_member(members, key) is Some {
        let i = choose|i: int|
            {
                &&& 0 <= i < members.len()
                &&& (#[trigger] members[i]).key == key
                &&& members[i].value == json::first_member(members, key)->0
                &&& forall|j: int| 0 <= j < i ==> (#[trigger] members[j]).key != key
            };
        assert(all[i] == members[i]);
        assert forall|j: int| 0 <= j < i implies (#[trigger] all[j]).key != key by {
            assert(all[j] == members[j]);
        }
    } else {
        assert forall|j: int| 0 <= j < members.len() implies (#[trigger] all[j]).key != key by {
            assert(all[j] == members[j]);
        }
    }
}

} // verus!
