//! Candidates by name: at most one for each name, in the order of the names.

use vstd::prelude::*;

use crate::models::{candidates, CandidateView, ReleaseCandidate};
use crate::order::{
    comes_before, lemma_text_order, text_before, texts_are_ordered_by_code_points,
};
use crate::text::{chars_of, same};

verus! {

/// The names come one after the other in dictionary order, none twice.
pub open spec fn sorted_by_name(list: Seq<CandidateView>) -> bool {
    forall|i: int, j: int|
        0 <= i < j < list.len() ==> text_before(#[trigger] list[i].name, #[trigger] list[j].name)
}

/// `list` holds what `table` holds, in the order of the names.
pub open spec fn lists(list: Seq<CandidateView>, table: Map<Seq<char>, CandidateView>) -> bool {
    &&& sorted_by_name(list)
    &&& forall|i: int|
        0 <= i < list.len() ==> table.contains_key((#[trigger] list[i]).name)
            && table[list[i].name] == list[i]
    &&& forall|name: Seq<char>| #[trigger]
        table.contains_key(name) ==> exists|i: int|
            0 <= i < list.len() && (#[trigger] list[i]).name == name
}

/// The table after a candidate was put in unless its name was taken.
pub open spec fn kept_first(
    table: Map<Seq<char>, CandidateView>,
    candidate: CandidateView,
) -> Map<Seq<char>, CandidateView> {
    if table.contains_key(candidate.name) {
        table
    } else {
        table.insert(candidate.name, candidate)
    }
}

/// The table after a candidate was put in unless its name was taken by one that knows its size
/// or is no worse than the new one in that.
pub open spec fn kept_sized(
    table: Map<Seq<char>, CandidateView>,
    candidate: CandidateView,
) -> Map<Seq<char>, CandidateView> {
    if table.contains_key(candidate.name) && !(table[candidate.name].size_bytes is None
        && candidate.size_bytes is Some) {
        table
    } else {
        table.insert(candidate.name, candidate)
    }
}

/// The first candidate of each name.
pub open spec fn first_of_each(list: Seq<CandidateView>) -> Map<Seq<char>, CandidateView>
    decreases list.len(),
{
    if list.len() == 0 {
        Map::empty()
    } else {
        kept_first(first_of_each(list.drop_last()), list.last())
    }
}

/// `table` after each candidate of `list` was put in, one after the other.
pub open spec fn merged(
    table: Map<Seq<char>, CandidateView>,
    list: Seq<CandidateView>,
) -> Map<Seq<char>, CandidateView>
    decreases list.len(),
{
    if list.len() == 0 {
        table
    } else {
        kept_sized(merged(table, list.drop_last()), list.last())
    }
}

/// A candidate whose size is known keeps its place, whatever the feeds after it bring.
pub proof fn sized_candidates_are_kept(
    table: Map<Seq<char>, CandidateView>,
    list: Seq<CandidateView>,
    name: Seq<char>,
)
    requires
        table.contains_key(name),
        table[name].size_bytes is Some,
    ensures
        merged(table, list).contains_key(name),
        merged(table, list)[name] == table[name],
    decreases list.len(),
{
    if list.len() > 0 {
        sized_candidates_are_kept(table, list.drop_last(), name);
    }
}

/// No name gets lost: those that were found stay, and those of one more feed are added.
pub proof fn names_are_never_lost(
    table: Map<Seq<char>, CandidateView>,
    list: Seq<CandidateView>,
    name: Seq<char>,
)
    ensures
        merged(table, list).contains_key(name) <==> table.contains_key(name) || exists|i: int|
            0 <= i < list.len() && (#[trigger] list[i]).name == name,
    decreases list.len(),
{
    if list.len() > 0 {
        let front = list.drop_last();
        names_are_never_lost(table, front, name);
        if exists|i: int| 0 <= i < front.len() && (#[trigger] front[i]).name == name {
            let i = choose|i: int| 0 <= i < front.len() && (#[trigger] front[i]).name == name;
            assert(list[i] == front[i]);
        }
        if exists|i: int| 0 <= i < list.len() && (#[trigger] list[i]).name == name {
            let i = choose|i: int| 0 <= i < list.len() && (#[trigger] list[i]).name == name;
            if i < front.len() {
                assert(front[i] == list[i]);
            }
        }
        if list.last().name == name {
            assert(list[list.len() - 1].name == name);
        }
    }
}

/// There is one list of a table.
pub proof fn lemma_list_is_unique(
    left: Seq<CandidateView>,
    right: Seq<CandidateView>,
    table: Map<Seq<char>, CandidateView>,
)
    requires
        lists(left, table),
        lists(right, table),
    ensures
        left == right,
    decreases left.len(),
{
    lemma_text_order();
    if left.len() == 0 {
        if right.len() > 0 {
            assert(table.contains_key(right[0].name));
            assert(false);
        }
        assert(left =~= right);
    } else {
        assert(table.contains_key(left.last().name));
        let at = choose|i: int| 0 <= i < right.len() && (#[trigger] right[i]).name == left.last().name;
        assert(right[at] == left.last());
        let other = right.last();
        assert(table.contains_key(other.name));
        let place = choose|i: int| 0 <= i < left.len() && (#[trigger] left[i]).name == other.name;
        assert(left[place] == other);
        if at < right.len() - 1 {
            assert(text_before(right[at].name, right[right.len() - 1].name));
            if place < left.len() - 1 {
                assert(text_before(left[place].name, left[left.len() - 1].name));
                let less = |a: Seq<char>, b: Seq<char>| text_before(a, b);
                assert(less(left.last().name, other.name));
                assert(less(other.name, left.last().name));
                assert(less(other.name, other.name));
            } else {
                let less = |a: Seq<char>, b: Seq<char>| text_before(a, b);
                assert(less(other.name, other.name));
            }
            assert(false);
        }
        assert(left.last() == right.last());
        let rest = table.remove(left.last().name);
        lemma_lists_without_last(left, table);
        lemma_lists_without_last(right, table);
        lemma_list_is_unique(left.drop_last(), right.drop_last(), rest);
        assert(left =~= left.drop_last().push(left.last()));
        assert(right =~= right.drop_last().push(right.last()));
    }
}

proof fn lemma_lists_without_last(
    list: Seq<CandidateView>,
    table: Map<Seq<char>, CandidateView>,
)
    requires
        lists(list, table),
        list.len() > 0,
    ensures
        lists(list.drop_last(), table.remove(list.last().name)),
{
    lemma_text_order();
    let short = list.drop_last();
    let rest = table.remove(list.last().name);
    let less = |a: Seq<char>, b: Seq<char>| text_before(a, b);
    assert forall|i: int, j: int| 0 <= i < j < short.len() implies text_before(
        #[trigger] short[i].name,
        #[trigger] short[j].name,
    ) by {
        assert(text_before(list[i].name, list[j].name));
    }
    assert forall|i: int| 0 <= i < short.len() implies rest.contains_key((#[trigger] short[i]).name)
        && rest[short[i].name] == short[i] by {
        assert(short[i] == list[i]);
        assert(text_before(list[i].name, list[list.len() - 1].name));
        assert(!less(list[i].name, list[i].name));
    }
    assert forall|name: Seq<char>| #[trigger] rest.contains_key(name) implies exists|i: int|
        0 <= i < short.len() && (#[trigger] short[i]).name == name by {
        assert(table.contains_key(name));
        let i = choose|i: int| 0 <= i < list.len() && (#[trigger] list[i]).name == name;
        assert(i < list.len() - 1);
        assert(short[i].name == name);
    }
}

/// Where a name stands among the names of a sorted list, and whether it is there already.
fn place_of(items: &Vec<ReleaseCandidate>, name: &Vec<char>) -> (place: (usize, bool))
    requires
        sorted_by_name(candidates(items@)),
    ensures
        place.0 <= items@.len(),
        place.1 ==> place.0 < items@.len() && items@[place.0 as int].name@ == name@,
        forall|i: int| 0 <= i < place.0 ==> text_before((#[trigger] items@[i]).name@, name@),
        !place.1 ==> forall|i: int|
            place.0 <= i < items@.len() ==> text_before(name@, (#[trigger] items@[i]).name@),
{
    let mut i: usize = 0;
    let ghost list = candidates(items@);
    while i < items.len()
        invariant
            i <= items@.len(),
            list == candidates(items@),
            sorted_by_name(list),
            forall|j: int| 0 <= j < i ==> text_before((#[trigger] items@[j]).name@, name@),
        decreases items@.len() - i,
    {
        let other = chars_of(items[i].name.as_str());
        if !comes_before(&other, name) {
            if same(&other, name) {
                return (i, true);
            }
            proof {
                lemma_text_order();
                let less = |a: Seq<char>, b: Seq<char>| text_before(a, b);
                assert(less(name@, other@) || less(other@, name@));
                assert forall|j: int| i <= j < items@.len() implies text_before(
                    name@,
                    (#[trigger] items@[j]).name@,
                ) by {
                    if j > i {
                        assert(text_before(list[i as int].name, list[j].name));
                        assert(less(name@, other@));
                        assert(less(other@, items@[j].name@));
                        assert(less(name@, items@[j].name@));
                    }
                }
            }
            return (i, false);
        }
        i += 1;
    }
    (i, false)
}

proof fn lemma_lists_inserted(
    before: Seq<CandidateView>,
    after: Seq<CandidateView>,
    at: int,
    candidate: CandidateView,
    table: Map<Seq<char>, CandidateView>,
)
    requires
        lists(before, table),
        0 <= at <= before.len(),
        after == before.insert(at, candidate),
        forall|i: int| 0 <= i < at ==> text_before((#[trigger] before[i]).name, candidate.name),
        forall|i: int|
            at <= i < before.len() ==> text_before(candidate.name, (#[trigger] before[i]).name),
    ensures
        !table.contains_key(candidate.name),
        lists(after, table.insert(candidate.name, candidate)),
{
    lemma_text_order();
    let less = |a: Seq<char>, b: Seq<char>| text_before(a, b);
    let grown = table.insert(candidate.name, candidate);
    if table.contains_key(candidate.name) {
        let i = choose|i: int| 0 <= i < before.len() && (#[trigger] before[i]).name == candidate.name;
        assert(!less(before[i].name, before[i].name));
        assert(false);
    }
    assert forall|i: int, j: int| 0 <= i < j < after.len() implies text_before(
        #[trigger] after[i].name,
        #[trigger] after[j].name,
    ) by {
        let a = if i < at {
            i
        } else {
            i - 1
        };
        let b = if j < at {
            j
        } else {
            j - 1
        };
        if i == at {
            assert(after[j] == before[b]);
        } else if j == at {
            assert(after[i] == before[a]);
        } else {
            assert(after[i] == before[a] && after[j] == before[b]);
            assert(text_before(before[a].name, before[b].name));
        }
    }
    assert forall|i: int| 0 <= i < after.len() implies grown.contains_key((#[trigger] after[i]).name)
        && grown[after[i].name] == after[i] by {
        if i != at {
            let a = if i < at {
                i
            } else {
                i - 1
            };
            assert(after[i] == before[a]);
            assert(table.contains_key(before[a].name));
        }
    }
    assert forall|name: Seq<char>| #[trigger] grown.contains_key(name) implies exists|i: int|
        0 <= i < after.len() && (#[trigger] after[i]).name == name by {
        if name == candidate.name {
            assert(after[at].name == name);
        } else {
            assert(table.contains_key(name));
            let i = choose|i: int| 0 <= i < before.len() && (#[trigger] before[i]).name == name;
            if i < at {
                assert(after[i].name == name);
            } else {
                assert(after[i + 1].name == name);
            }
        }
    }
}

proof fn lemma_lists_replaced(
    before: Seq<CandidateView>,
    after: Seq<CandidateView>,
    at: int,
    candidate: CandidateView,
    table: Map<Seq<char>, CandidateView>,
)
    requires
        lists(before, table),
        0 <= at < before.len(),
        before[at].name == candidate.name,
        after == before.update(at, candidate),
    ensures
        lists(after, table.insert(candidate.name, candidate)),
{
    lemma_text_order();
    let less = |a: Seq<char>, b: Seq<char>| text_before(a, b);
    let grown = table.insert(candidate.name, candidate);
    assert forall|i: int, j: int| 0 <= i < j < after.len() implies text_before(
        #[trigger] after[i].name,
        #[trigger] after[j].name,
    ) by {
        assert(text_before(before[i].name, before[j].name));
    }
    assert forall|i: int| 0 <= i < after.len() implies grown.contains_key((#[trigger] after[i]).name)
        && grown[after[i].name] == after[i] by {
        assert(table.contains_key(before[i].name));
        if i != at {
            if i < at {
                assert(text_before(before[i].name, before[at].name));
            } else {
                assert(text_before(before[at].name, before[i].name));
            }
            assert(!less(candidate.name, candidate.name));
        }
    }
    assert forall|name: Seq<char>| #[trigger] grown.contains_key(name) implies exists|i: int|
        0 <= i < after.len() && (#[trigger] after[i]).name == name by {
        if name == candidate.name {
            assert(after[at].name == name);
        } else {
            assert(table.contains_key(name));
            let i = choose|i: int| 0 <= i < before.len() && (#[trigger] before[i]).name == name;
            assert(after[i].name == name);
        }
    }
}

/// Puts a candidate in unless its name is taken; with `prefer_sized`, one that knows its size
/// takes the place of one that does not.
fn put(items: &mut Vec<ReleaseCandidate>, candidate: &ReleaseCandidate, prefer_sized: bool)
    requires
        sorted_by_name(candidates(old(items)@)),
    ensures
        forall|table: Map<Seq<char>, CandidateView>| #[trigger]
            lists(candidates(old(items)@), table) ==> lists(
                candidates(final(items)@),
                if prefer_sized {
                    kept_sized(table, candidate@)
                } else {
                    kept_first(table, candidate@)
                },
            ),
{
    let name = chars_of(candidate.name.as_str());
    let (at, taken) = place_of(items, &name);
    let ghost before = candidates(items@);
    if !taken {
        let copy = candidate.clone();
        items.insert(at, copy);
        proof {
            let after = candidates(items@);
            assert(after =~= before.insert(at as int, candidate@));
            assert forall|table: Map<Seq<char>, CandidateView>| #[trigger]
                lists(before, table) implies lists(
                after,
                if prefer_sized {
                    kept_sized(table, candidate@)
                } else {
                    kept_first(table, candidate@)
                },
            ) by {
                assert forall|i: int| 0 <= i < at implies text_before(
                    (#[trigger] before[i]).name,
                    candidate@.name,
                ) by {
                    assert(text_before(old(items)@[i].name@, name@));
                }
                assert forall|i: int| at <= i < before.len() implies text_before(
                    candidate@.name,
                    (#[trigger] before[i]).name,
                ) by {
                    assert(text_before(name@, old(items)@[i].name@));
                }
                lemma_lists_inserted(before, after, at as int, candidate@, table);
            }
        }
    } else {
        proof {
            assert(before[at as int].name == candidate@.name);
        }
        if prefer_sized && items[at].size_bytes.is_none() && candidate.size_bytes.is_some() {
            let copy = candidate.clone();
            items.set(at, copy);
            proof {
                let after = candidates(items@);
                assert(after =~= before.update(at as int, candidate@));
                assert forall|table: Map<Seq<char>, CandidateView>| #[trigger]
                    lists(before, table) implies lists(after, kept_sized(table, candidate@)) by {
                    assert(table[before[at as int].name] == before[at as int]);
                    lemma_lists_replaced(before, after, at as int, candidate@, table);
                }
            }
        } else {
            proof {
                assert forall|table: Map<Seq<char>, CandidateView>| #[trigger]
                    lists(before, table) implies lists(
                    before,
                    if prefer_sized {
                        kept_sized(table, candidate@)
                    } else {
                        kept_first(table, candidate@)
                    },
                ) by {
                    assert(table[before[at as int].name] == before[at as int]);
                }
            }
        }
    }
}

/// Keeps the first candidate of each name, in the order of the names.
pub fn unique_candidates(list: &Vec<ReleaseCandidate>) -> (unique: Vec<ReleaseCandidate>)
    ensures
        lists(candidates(unique@), first_of_each(candidates(list@))),
{
    let mut items: Vec<ReleaseCandidate> = Vec::new();
    let mut i: usize = 0;
    while i < list.len()
        invariant
            i <= list@.len(),
            lists(candidates(items@), first_of_each(candidates(list@).take(i as int))),
        decreases list@.len() - i,
    {
        let ghost next = candidates(list@).take(i + 1);
        assert(next.drop_last() == candidates(list@).take(i as int));
        put(&mut items, &list[i], false);
        i += 1;
    }
    assert(candidates(list@).take(list@.len() as int) == candidates(list@));
    items
}

/// Puts the candidates of one more feed to those found so far.
pub fn merge_candidates(items: &mut Vec<ReleaseCandidate>, list: &Vec<ReleaseCandidate>)
    requires
        sorted_by_name(candidates(old(items)@)),
    ensures
        forall|table: Map<Seq<char>, CandidateView>| #[trigger]
            lists(candidates(old(items)@), table) ==> lists(
                candidates(final(items)@),
                merged(table, candidates(list@)),
            ),
        sorted_by_name(candidates(final(items)@)),
{
    let ghost before = candidates(items@);
    let ghost own = Map::new(
        |name: Seq<char>| exists|i: int| 0 <= i < before.len() && (#[trigger] before[i]).name == name,
        |name: Seq<char>|
            before[choose|i: int| 0 <= i < before.len() && (#[trigger] before[i]).name == name],
    );
    proof {
        lemma_lists_own(before, own);
    }
    let mut i: usize = 0;
    while i < list.len()
        invariant
            i <= list@.len(),
            lists(before, own),
            forall|table: Map<Seq<char>, CandidateView>| #[trigger]
                lists(before, table) ==> lists(
                    candidates(items@),
                    merged(table, candidates(list@).take(i as int)),
                ),
        decreases list@.len() - i,
    {
        let ghost so_far = candidates(list@).take(i as int);
        let ghost next = candidates(list@).take(i + 1);
        assert(next.drop_last() == so_far);
        assert(lists(candidates(items@), merged(own, so_far)));
        let ghost middle = candidates(items@);
        put(items, &list[i], true);
        assert forall|table: Map<Seq<char>, CandidateView>| #[trigger]
            lists(before, table) implies lists(candidates(items@), merged(table, next)) by {
            assert(lists(middle, merged(table, so_far)));
        }
        i += 1;
    }
    assert(candidates(list@).take(list@.len() as int) == candidates(list@));
    assert(lists(candidates(items@), merged(own, candidates(list@))));
}

proof fn lemma_lists_own(list: Seq<CandidateView>, own: Map<Seq<char>, CandidateView>)
    requires
        sorted_by_name(list),
        own == Map::new(
            |name: Seq<char>| exists|i: int| 0 <= i < list.len() && (#[trigger] list[i]).name == name,
            |name: Seq<char>|
                list[choose|i: int| 0 <= i < list.len() && (#[trigger] list[i]).name == name],
        ),
    ensures
        lists(list, own),
{
    lemma_text_order();
    let less = |a: Seq<char>, b: Seq<char>| text_before(a, b);
    assert forall|i: int| 0 <= i < list.len() implies own.contains_key((#[trigger] list[i]).name)
        && own[list[i].name] == list[i] by {
        let name = list[i].name;
        let j = choose|j: int| 0 <= j < list.len() && (#[trigger] list[j]).name == name;
        if i < j {
            assert(text_before(list[i].name, list[j].name));
            assert(!less(name, name));
        } else if j < i {
            assert(text_before(list[j].name, list[i].name));
            assert(!less(name, name));
        }
    }
}

// ---------------------------------------------------------------------------
// Laws
// ---------------------------------------------------------------------------

/// Of several candidates of one name the first is kept; every name is kept, and no other.
pub proof fn the_first_candidate_of_each_name_is_kept(list: Seq<CandidateView>, at: int)
    requires
        0 <= at < list.len(),
        forall|i: int| 0 <= i < at ==> (#[trigger] list[i]).name != list[at].name,
    ensures
        first_of_each(list).contains_key(list[at].name),
        first_of_each(list)[list[at].name] == list[at],
    decreases list.len(),
{
    let front = list.drop_last();
    if at < front.len() {
        assert forall|i: int| 0 <= i < at implies (#[trigger] front[i]).name != front[at].name by {
            assert(front[i] == list[i]);
        }
        assert(front[at] == list[at]);
        the_first_candidate_of_each_name_is_kept(front, at);
    } else {
        if first_of_each(front).contains_key(list[at].name) {
            let i = kept_names_are_those_of_candidates(front, list[at].name);
            assert(list[i] == front[i]);
        }
    }
}

/// Every name that is kept is that of a candidate.
pub proof fn kept_names_are_those_of_candidates(list: Seq<CandidateView>, name: Seq<char>) -> (at:
    int)
    requires
        first_of_each(list).contains_key(name),
    ensures
        0 <= at < list.len(),
        list[at].name == name,
        first_of_each(list)[name] == list[at],
        forall|i: int| 0 <= i < at ==> (#[trigger] list[i]).name != name,
    decreases list.len(),
{
    let front = list.drop_last();
    if first_of_each(front).contains_key(name) {
        let at = kept_names_are_those_of_candidates(front, name);
        assert forall|i: int| 0 <= i < at implies (#[trigger] list[i]).name != name by {
            assert(front[i] == list[i]);
        }
        at
    } else {
        assert forall|i: int| 0 <= i < front.len() implies (#[trigger] list[i]).name != name by {
            if list[i].name == name {
                lemma_kept_name(front, i);
            }
        }
        list.len() - 1
    }
}

proof fn lemma_kept_name(list: Seq<CandidateView>, at: int)
    requires
        0 <= at < list.len(),
    ensures
        first_of_each(list).contains_key(list[at].name),
    decreases list.len(),
{
    if at < list.len() - 1 {
        lemma_kept_name(list.drop_last(), at);
        assert(list.drop_last()[at] == list[at]);
    }
}

/// One more candidate changes the table at its own name only. It is put in where the name is new,
/// and takes the place of one without a size where it has one.
pub proof fn candidates_with_a_size_replace_those_without(
    table: Map<Seq<char>, CandidateView>,
    list: Seq<CandidateView>,
    more: CandidateView,
    name: Seq<char>,
)
    ensures
        merged(table, Seq::<CandidateView>::empty()) == table,
        ({
            let before = merged(table, list);
            let after = merged(table, list.push(more));
            &&& name != more.name ==> (after.contains_key(name) <==> before.contains_key(name)) && (
            before.contains_key(name) ==> after[name] == before[name])
            &&& after.contains_key(more.name)
            &&& after[more.name] == if !before.contains_key(more.name) || (
            before[more.name].size_bytes is None && more.size_bytes is Some) {
                more
            } else {
                before[more.name]
            }
        }),
{
    assert(list.push(more).drop_last() =~= list);
}

/// A table is listed with all its candidates and no others, each name once, in the order of the
/// code points of the names.
pub proof fn tables_are_listed_whole_and_in_order(
    list: Seq<CandidateView>,
    table: Map<Seq<char>, CandidateView>,
    i: int,
    j: int,
    name: Seq<char>,
)
    requires
        lists(list, table),
        0 <= i < j < list.len(),
    ensures
        list[i].name != list[j].name,
        exists|k: int|
            0 <= k <= list[i].name.len() && k < list[j].name.len() && list[i].name.take(k)
                == #[trigger] list[j].name.take(k) && (k == list[i].name.len() || (
            list[i].name[k] as int) < list[j].name[k] as int),
        table.contains_key(name) ==> list.contains(table[name]),
        table.contains_key(list[i].name) && table[list[i].name] == list[i],
{
    texts_are_ordered_by_code_points(list[i].name, list[j].name);
    lemma_text_order();
    let less = |a: Seq<char>, b: Seq<char>| text_before(a, b);
    assert(!less(list[i].name, list[i].name));
    assert(text_before(list[i].name, list[j].name));
    if table.contains_key(name) {
        let at = choose|at: int| 0 <= at < list.len() && (#[trigger] list[at]).name == name;
        assert(list[at] == table[name]);
    }
}

/// A table is listed whole, however small it is: each of its names is that of one candidate of the
/// list, and each candidate of the list is the one of its name in the table.
pub proof fn nothing_is_left_out_of_a_list(
    list: Seq<CandidateView>,
    table: Map<Seq<char>, CandidateView>,
    i: int,
    name: Seq<char>,
)
    requires
        lists(list, table),
    ensures
        table.contains_key(name) ==> list.contains(table[name]) && table[name].name == name,
        0 <= i < list.len() ==> table.contains_key(list[i].name) && table[list[i].name] == list[i],
{
    if table.contains_key(name) {
        let at = choose|at: int| 0 <= at < list.len() && (#[trigger] list[at]).name == name;
        assert(list[at] == table[name]);
    }
}

/// Of the candidates of each name the first is kept, and none of another name is added.
pub proof fn one_candidate_of_each_name_is_kept(
    list: &Vec<ReleaseCandidate>,
    unique: Vec<ReleaseCandidate>,
    at: int,
    k: int,
)
    requires
        call_ensures(unique_candidates, (list,), unique),
    ensures
        0 <= at < list@.len() && (forall|i: int|
            0 <= i < at ==> (#[trigger] list@[i]).name@ != list@[at].name@) ==> candidates(
            unique@,
        ).contains(list@[at]@),
        0 <= k < unique@.len() ==> candidates(list@).contains(unique@[k]@),
{
    let views = candidates(list@);
    let table = first_of_each(views);
    if 0 <= at < list@.len() && forall|i: int|
        0 <= i < at ==> (#[trigger] list@[i]).name@ != list@[at].name@ {
        assert forall|i: int| 0 <= i < at implies (#[trigger] views[i]).name != views[at].name by {
            assert(list@[i].name@ != list@[at].name@);
        }
        the_first_candidate_of_each_name_is_kept(views, at);
        nothing_is_left_out_of_a_list(candidates(unique@), table, 0, list@[at].name@);
    }
    if 0 <= k < unique@.len() {
        nothing_is_left_out_of_a_list(candidates(unique@), table, k, unique@[k].name@);
        assert(candidates(unique@)[k] == unique@[k]@);
        let i = kept_names_are_those_of_candidates(views, unique@[k].name@);
        assert(views[i] == unique@[k]@);
    }
}

} // verus!
