//! Dictionary order on sequences.

use vstd::prelude::*;

verus! {

/// `left` comes before `right` in the dictionary order that `less` gives to the items.
pub open spec fn before<T>(left: Seq<T>, right: Seq<T>, less: spec_fn(T, T) -> bool) -> bool
    decreases left.len(),
{
    if right.len() == 0 {
        false
    } else if left.len() == 0 {
        true
    } else {
        less(left[0], right[0]) || (left[0] == right[0] && before(
            left.drop_first(),
            right.drop_first(),
            less,
        ))
    }
}

/// `less` is a strict total order.
pub open spec fn is_order<T>(less: spec_fn(T, T) -> bool) -> bool {
    &&& forall|a: T| !#[trigger] less(a, a)
    &&& forall|a: T, b: T, c: T| #[trigger] less(a, b) && #[trigger] less(b, c) ==> less(a, c)
    &&& forall|a: T, b: T| a == b || #[trigger] less(a, b) || less(b, a)
}

pub proof fn lemma_before_irreflexive<T>(s: Seq<T>, less: spec_fn(T, T) -> bool)
    requires
        is_order(less),
    ensures
        !before(s, s, less),
    decreases s.len(),
{
    if s.len() > 0 {
        lemma_before_irreflexive(s.drop_first(), less);
    }
}

pub proof fn lemma_before_transitive<T>(
    a: Seq<T>,
    b: Seq<T>,
    c: Seq<T>,
    less: spec_fn(T, T) -> bool,
)
    requires
        is_order(less),
        before(a, b, less),
        before(b, c, less),
    ensures
        before(a, c, less),
    decreases a.len(),
{
    if a.len() > 0 && !less(a[0], c[0]) {
        lemma_before_transitive(a.drop_first(), b.drop_first(), c.drop_first(), less);
    }
}

pub proof fn lemma_before_total<T>(a: Seq<T>, b: Seq<T>, less: spec_fn(T, T) -> bool)
    requires
        is_order(less),
    ensures
        a == b || before(a, b, less) || before(b, a, less),
    decreases a.len(),
{
    if a.len() > 0 && b.len() > 0 {
        if a[0] == b[0] {
            lemma_before_total(a.drop_first(), b.drop_first(), less);
            if a.drop_first() == b.drop_first() {
                assert(a =~= seq![a[0]] + a.drop_first());
                assert(b =~= seq![b[0]] + b.drop_first());
            }
        } else {
            assert(less(a[0], b[0]) || less(b[0], a[0]));
        }
    } else {
        assert(a.len() == 0 && b.len() == 0 ==> a =~= b);
    }
}

/// The items come one after the other in the order that `less` gives them.
pub open spec fn sorted_by<T>(list: Seq<T>, less: spec_fn(T, T) -> bool) -> bool {
    forall|i: int, j: int| 0 <= i < j < list.len() ==> less(#[trigger] list[i], #[trigger] list[j])
}

/// `less` never holds of an item and itself, and passes from item to item.
pub open spec fn is_strict<T>(less: spec_fn(T, T) -> bool) -> bool {
    &&& forall|a: T| !#[trigger] less(a, a)
    &&& forall|a: T, b: T, c: T| #[trigger] less(a, b) && #[trigger] less(b, c) ==> less(a, c)
}

/// There is one way to put items in order.
pub proof fn lemma_sorted_is_unique<T>(left: Seq<T>, right: Seq<T>, less: spec_fn(T, T) -> bool)
    requires
        is_strict(less),
        sorted_by(left, less),
        sorted_by(right, less),
        forall|item: T| left.contains(item) == right.contains(item),
    ensures
        left == right,
    decreases left.len(),
{
    if left.len() == 0 {
        if right.len() > 0 {
            assert(right.contains(right[0]));
            assert(left.contains(right[0]));
        }
        assert(left =~= right);
    } else {
        let a = left.last();
        assert(left.contains(a));
        assert(right.contains(a));
        let at = choose|k: int| 0 <= k < right.len() && right[k] == a;
        let b = right.last();
        assert(right.contains(b));
        assert(left.contains(b));
        let place = choose|k: int| 0 <= k < left.len() && left[k] == b;
        if at < right.len() - 1 {
            assert(less(right[at], right[right.len() - 1]));
            if place < left.len() - 1 {
                assert(less(left[place], left[left.len() - 1]));
                assert(less(a, a));
            }
            assert(false);
        }
        let x = left.drop_last();
        let y = right.drop_last();
        assert forall|item: T| x.contains(item) == y.contains(item) by {
            if x.contains(item) {
                let k = choose|k: int| 0 <= k < x.len() && x[k] == item;
                assert(left[k] == item);
                assert(left.contains(item));
                let m = choose|m: int| 0 <= m < right.len() && right[m] == item;
                assert(less(left[k], left[left.len() - 1]));
                assert(m < right.len() - 1);
                assert(y[m] == item);
            }
            if y.contains(item) {
                let k = choose|k: int| 0 <= k < y.len() && y[k] == item;
                assert(right[k] == item);
                assert(right.contains(item));
                let m = choose|m: int| 0 <= m < left.len() && left[m] == item;
                assert(less(right[k], right[right.len() - 1]));
                assert(m < left.len() - 1);
                assert(x[m] == item);
            }
        }
        lemma_sorted_is_unique(x, y, less);
        assert(left =~= x.push(a));
        assert(right =~= y.push(b));
    }
}

/// Among items in order there is a place for one that can be told from each of them.
pub proof fn lemma_place_exists<T>(list: Seq<T>, new: T, less: spec_fn(T, T) -> bool) -> (place:
    int)
    requires
        is_strict(less),
        sorted_by(list, less),
        forall|i: int|
            0 <= i < list.len() ==> less(#[trigger] list[i], new) || less(new, list[i]),
    ensures
        0 <= place <= list.len(),
        forall|i: int| 0 <= i < place ==> less(#[trigger] list[i], new),
        forall|i: int| place <= i < list.len() ==> less(new, #[trigger] list[i]),
    decreases list.len(),
{
    if list.len() == 0 {
        0
    } else {
        let front = list.drop_last();
        let last = list.last();
        assert(less(list[list.len() - 1], new) || less(new, list[list.len() - 1]));
        if less(last, new) {
            assert forall|i: int| 0 <= i < list.len() implies less(#[trigger] list[i], new) by {
                if i < list.len() - 1 {
                    assert(less(list[i], list[list.len() - 1]));
                }
            }
            list.len() as int
        } else {
            assert forall|i: int| 0 <= i < front.len() implies less(#[trigger] front[i], new)
                || less(new, front[i]) by {
                assert(front[i] == list[i]);
            }
            let place = lemma_place_exists(front, new, less);
            assert forall|i: int| 0 <= i < place implies less(#[trigger] list[i], new) by {
                assert(front[i] == list[i]);
            }
            assert forall|i: int| place <= i < list.len() implies less(new, #[trigger] list[i]) by {
                if i < front.len() {
                    assert(front[i] == list[i]);
                }
            }
            place
        }
    }
}

/// An item put in its place leaves the items in order.
pub proof fn lemma_sorted_inserted<T>(
    list: Seq<T>,
    place: int,
    new: T,
    less: spec_fn(T, T) -> bool,
)
    requires
        sorted_by(list, less),
        0 <= place <= list.len(),
        forall|i: int| 0 <= i < place ==> less(#[trigger] list[i], new),
        forall|i: int| place <= i < list.len() ==> less(new, #[trigger] list[i]),
    ensures
        sorted_by(list.insert(place, new), less),
        forall|item: T|
            list.insert(place, new).contains(item) <==> list.contains(item) || item == new,
{
    let longer = list.insert(place, new);
    assert forall|a: int, b: int| 0 <= a < b < longer.len() implies less(
        #[trigger] longer[a],
        #[trigger] longer[b],
    ) by {
        let x = if a < place {
            a
        } else {
            a - 1
        };
        let y = if b < place {
            b
        } else {
            b - 1
        };
        if a == place {
            assert(longer[b] == list[y]);
        } else if b == place {
            assert(longer[a] == list[x]);
        } else {
            assert(longer[a] == list[x] && longer[b] == list[y]);
            assert(less(list[x], list[y]));
        }
    }
    assert forall|item: T| longer.contains(item) <==> list.contains(item) || item == new by {
        if longer.contains(item) {
            let k = choose|k: int| 0 <= k < longer.len() && longer[k] == item;
            if k < place {
                assert(list[k] == item);
            } else if k > place {
                assert(list[k - 1] == item);
            }
        }
        if list.contains(item) {
            let k = choose|k: int| 0 <= k < list.len() && list[k] == item;
            if k < place {
                assert(longer[k] == item);
            } else {
                assert(longer[k + 1] == item);
            }
        }
        assert(longer[place] == new);
    }
}

/// Characters in the order of their code points.
pub open spec fn char_less() -> spec_fn(char, char) -> bool {
    |a: char, b: char| (a as int) < (b as int)
}

/// Texts in dictionary order.
pub open spec fn text_before(left: Seq<char>, right: Seq<char>) -> bool {
    before(left, right, char_less())
}

pub proof fn lemma_text_order()
    ensures
        is_order(char_less()),
        is_order(|a: Seq<char>, b: Seq<char>| text_before(a, b)),
{
    assert(is_order(char_less()));
    let less = |a: Seq<char>, b: Seq<char>| text_before(a, b);
    assert forall|a: Seq<char>| !#[trigger] less(a, a) by {
        lemma_before_irreflexive(a, char_less());
    }
    assert forall|a: Seq<char>, b: Seq<char>, c: Seq<char>| #[trigger]
        less(a, b) && #[trigger] less(b, c) implies less(a, c) by {
        lemma_before_transitive(a, b, c, char_less());
    }
    assert forall|a: Seq<char>, b: Seq<char>| a == b || #[trigger] less(a, b) || less(b, a) by {
        lemma_before_total(a, b, char_less());
    }
}

/// Whether one text comes before another.
pub fn comes_before(left: &Vec<char>, right: &Vec<char>) -> (less: bool)
    ensures
        less == text_before(left@, right@),
{
    let mut i: usize = 0;
    assert(left@.skip(0) == left@);
    assert(right@.skip(0) == right@);
    loop
        invariant
            i <= left.len(),
            i <= right.len(),
            text_before(left@, right@) == text_before(left@.skip(i as int), right@.skip(i as int)),
        decreases left.len() - i,
    {
        if i == right.len() {
            return false;
        }
        if i == left.len() {
            return true;
        }
        let a = left[i];
        let b = right[i];
        assert(left@.skip(i as int)[0] == a);
        assert(right@.skip(i as int)[0] == b);
        if a < b {
            return true;
        }
        if b < a {
            return false;
        }
        assert(left@.skip(i as int).drop_first() == left@.skip(i + 1));
        assert(right@.skip(i as int).drop_first() == right@.skip(i + 1));
        i += 1;
    }
}

/// One sequence comes before another exactly where they agree up to some place at which the first
/// ends, or has the smaller item.
pub proof fn the_first_difference_orders<T>(
    left: Seq<T>,
    right: Seq<T>,
    less: spec_fn(T, T) -> bool,
)
    ensures
        before(left, right, less) <==> exists|k: int|
            0 <= k <= left.len() && k < right.len() && left.take(k) == #[trigger] right.take(k) && (k
                == left.len() || less(left[k], right[k])),
    decreases left.len(),
{
    if right.len() > 0 && left.len() > 0 {
        let a = left.drop_first();
        let b = right.drop_first();
        the_first_difference_orders(a, b, less);
        if before(left, right, less) {
            if less(left[0], right[0]) {
                assert(left.take(0) =~= right.take(0));
            } else {
                let k = choose|k: int|
                    0 <= k <= a.len() && k < b.len() && a.take(k) == #[trigger] b.take(k) && (k
                        == a.len() || less(a[k], b[k]));
                assert(left.take(k + 1) =~= seq![left[0]] + a.take(k));
                assert(right.take(k + 1) =~= seq![right[0]] + b.take(k));
            }
        }
        if exists|k: int|
            0 <= k <= left.len() && k < right.len() && left.take(k) == #[trigger] right.take(k) && (k
                == left.len() || less(left[k], right[k])) {
            let k = choose|k: int|
                0 <= k <= left.len() && k < right.len() && left.take(k) == #[trigger] right.take(k)
                    && (k == left.len() || less(left[k], right[k]));
            if k > 0 {
                assert(left[0] == left.take(k)[0]);
                assert(right[0] == right.take(k)[0]);
                assert(a.take(k - 1) =~= left.take(k).drop_first());
                assert(b.take(k - 1) =~= right.take(k).drop_first());
            }
        }
    } else if right.len() > 0 {
        assert(left.take(0) =~= right.take(0));
    }
}

/// A text comes before another exactly where it is the start of it, or has the smaller code point
/// at the first place where they differ.
pub proof fn texts_are_ordered_by_code_points(left: Seq<char>, right: Seq<char>)
    ensures
        text_before(left, right) <==> exists|k: int|
            0 <= k <= left.len() && k < right.len() && left.take(k) == #[trigger] right.take(k) && (k
                == left.len() || (left[k] as int) < right[k] as int),
{
    the_first_difference_orders(left, right, char_less());
    if text_before(left, right) {
        let k = choose|k: int|
            0 <= k <= left.len() && k < right.len() && left.take(k) == #[trigger] right.take(k) && (k
                == left.len() || char_less()(left[k], right[k]));
        assert(left.take(k) == right.take(k));
    }
}

} // verus!
