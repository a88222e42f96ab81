//! Paths as lists of names, and names as bytes.

use vstd::prelude::*;
use vstd::utf8::{decode_utf8, valid_utf8};

use crate::order::{
    before, is_order, lemma_before_irreflexive, lemma_before_total, lemma_before_transitive,
    the_first_difference_orders,
};
use crate::text::{chars_of, lower_chars, lowered, string_of};

verus! {

/// Several names at once.
pub open spec fn names(path: Seq<Vec<u8>>) -> Seq<Seq<u8>> {
    Seq::new(path.len(), |i: int| path[i]@)
}

/// Bytes in their order.
pub open spec fn byte_less() -> spec_fn(u8, u8) -> bool {
    |a: u8, b: u8| a < b
}

/// Names in dictionary order.
pub open spec fn name_less() -> spec_fn(Seq<u8>, Seq<u8>) -> bool {
    |a: Seq<u8>, b: Seq<u8>| before(a, b, byte_less())
}

/// Paths in dictionary order, name by name.
pub open spec fn path_before(left: Seq<Seq<u8>>, right: Seq<Seq<u8>>) -> bool {
    before(left, right, name_less())
}

pub proof fn lemma_name_order()
    ensures
        is_order(byte_less()),
        is_order(name_less()),
{
    assert(is_order(byte_less()));
    let less = name_less();
    assert forall|a: Seq<u8>| !#[trigger] less(a, a) by {
        lemma_before_irreflexive(a, byte_less());
    }
    assert forall|a: Seq<u8>, b: Seq<u8>, c: Seq<u8>| #[trigger] less(a, b) && #[trigger] less(
        b,
        c,
    ) implies less(a, c) by {
        lemma_before_transitive(a, b, c, byte_less());
    }
    assert forall|a: Seq<u8>, b: Seq<u8>| a == b || #[trigger] less(a, b) || less(b, a) by {
        lemma_before_total(a, b, byte_less());
    }
}

/// Paths are strictly and totally ordered.
pub proof fn lemma_path_order(a: Seq<Seq<u8>>, b: Seq<Seq<u8>>, c: Seq<Seq<u8>>)
    ensures
        !path_before(a, a),
        path_before(a, b) && path_before(b, c) ==> path_before(a, c),
        a == b || path_before(a, b) || path_before(b, a),
{
    lemma_name_order();
    lemma_before_irreflexive(a, name_less());
    lemma_before_total(a, b, name_less());
    if path_before(a, b) && path_before(b, c) {
        lemma_before_transitive(a, b, c, name_less());
    }
}

/// How two names stand in dictionary order.
#[derive(Clone, Copy, PartialEq, Eq, Structural)]
pub enum Sides {
    Before,
    Same,
    After,
}

/// How two names stand in dictionary order.
pub fn sides_of(left: &Vec<u8>, right: &Vec<u8>) -> (sides: Sides)
    ensures
        (sides is Before) == before(left@, right@, byte_less()),
        (sides is Same) == (left@ == right@),
{
    let mut i: usize = 0;
    assert(left@.skip(0) == left@);
    assert(right@.skip(0) == right@);
    loop
        invariant
            i <= left.len(),
            i <= right.len(),
            left@.take(i as int) == right@.take(i as int),
            before(left@, right@, byte_less()) == before(
                left@.skip(i as int),
                right@.skip(i as int),
                byte_less(),
            ),
        decreases left.len() - i,
    {
        if i == right.len() {
            if i == left.len() {
                assert(left@.take(i as int) == left@);
                assert(right@.take(i as int) == right@);
                return Sides::Same;
            }
            return Sides::After;
        }
        if i == left.len() {
            return Sides::Before;
        }
        assert(left@.skip(i as int)[0] == left@[i as int]);
        assert(right@.skip(i as int)[0] == right@[i as int]);
        if left[i] < right[i] {
            return Sides::Before;
        }
        if right[i] < left[i] {
            return Sides::After;
        }
        assert(left@.skip(i as int).drop_first() == left@.skip(i + 1));
        assert(right@.skip(i as int).drop_first() == right@.skip(i + 1));
        assert(left@.take(i + 1) =~= left@.take(i as int).push(left@[i as int]));
        assert(right@.take(i + 1) =~= right@.take(i as int).push(right@[i as int]));
        i += 1;
    }
}

/// Whether one path comes before another.
pub fn path_comes_before(left: &Vec<Vec<u8>>, right: &Vec<Vec<u8>>) -> (less: bool)
    ensures
        less == path_before(names(left@), names(right@)),
{
    let ghost a = names(left@);
    let ghost b = names(right@);
    let mut i: usize = 0;
    assert(a.skip(0) == a);
    assert(b.skip(0) == b);
    proof {
        lemma_name_order();
    }
    loop
        invariant
            i <= left.len(),
            i <= right.len(),
            a == names(left@),
            b == names(right@),
            is_order(name_less()),
            path_before(a, b) == path_before(a.skip(i as int), b.skip(i as int)),
        decreases left.len() - i,
    {
        if i == right.len() {
            return false;
        }
        if i == left.len() {
            return true;
        }
        assert(a.skip(i as int)[0] == left@[i as int]@);
        assert(b.skip(i as int)[0] == right@[i as int]@);
        match sides_of(&left[i], &right[i]) {
            Sides::Before => {
                assert(name_less()(left@[i as int]@, right@[i as int]@));
                return true;
            },
            Sides::After => {
                assert(!name_less()(left@[i as int]@, right@[i as int]@));
                return false;
            },
            Sides::Same => {
                assert(!name_less()(left@[i as int]@, left@[i as int]@));
            },
        }
        assert(a.skip(i as int).drop_first() == a.skip(i + 1));
        assert(b.skip(i as int).drop_first() == b.skip(i + 1));
        i += 1;
    }
}

/// Whether two names are the same.
pub fn same_names(left: &Vec<u8>, right: &Vec<u8>) -> (equal: bool)
    ensures
        equal == (left@ == right@),
{
    match sides_of(left, right) {
        Sides::Same => true,
        _ => false,
    }
}

/// Whether a path lies at or below another.
pub fn lies_in(path: &Vec<Vec<u8>>, parent: &Vec<Vec<u8>>) -> (found: bool)
    ensures
        found == names(parent@).is_prefix_of(names(path@)),
{
    if parent.len() > path.len() {
        return false;
    }
    let mut i: usize = 0;
    while i < parent.len()
        invariant
            i <= parent@.len() <= path@.len(),
            forall|j: int| 0 <= j < i ==> #[trigger] names(parent@)[j] == names(path@)[j],
        decreases parent@.len() - i,
    {
        if !same_names(&parent[i], &path[i]) {
            assert(names(parent@)[i as int] != names(path@)[i as int]);
            return false;
        }
        i += 1;
    }
    assert(names(parent@) =~= names(path@).take(parent@.len() as int));
    true
}

/// The place of the last point of a name.
pub open spec fn last_point(name: Seq<u8>) -> Option<int>
    decreases name.len(),
{
    if name.len() == 0 {
        None
    } else if name.last() == 46 {
        Some(name.len() - 1)
    } else {
        last_point(name.drop_last())
    }
}

/// The place of the point before which the stem of a name ends; a point at the very start
/// belongs to the stem.
pub open spec fn stem_end(name: Seq<u8>) -> Option<int> {
    match last_point(name) {
        Some(place) if place > 0 => Some(place),
        _ => None,
    }
}

/// The name up to the point before its extension.
pub open spec fn stem(name: Seq<u8>) -> Seq<u8> {
    match stem_end(name) {
        Some(place) => name.take(place),
        None => name,
    }
}

/// What stands behind the last point of a name, if anything stands before it.
pub open spec fn ending(name: Seq<u8>) -> Option<Seq<u8>> {
    match stem_end(name) {
        Some(place) => Some(name.skip(place + 1)),
        None => None,
    }
}

/// The text that bytes encode in UTF-8, if they encode one.
pub open spec fn text_of(bytes: Seq<u8>) -> Option<Seq<char>> {
    if valid_utf8(bytes) {
        Some(decode_utf8(bytes))
    } else {
        None
    }
}

/// The extension of a file name in small letters; none where it is no text.
pub open spec fn extension(name: Seq<u8>) -> Seq<char> {
    match ending(name) {
        Some(bytes) => match text_of(bytes) {
            Some(text) => lowered(text),
            None => seq![],
        },
        None => seq![],
    }
}

/// The stem of a file name; nothing where it is no text.
pub open spec fn stem_text(name: Seq<u8>) -> Seq<char> {
    match text_of(stem(name)) {
        Some(text) => text,
        None => seq![],
    }
}

/// `String::from_utf8` of the standard library. Claimed: it gives the text that the bytes encode
/// in UTF-8, and nothing exactly when they encode none.
#[verifier::external_body]
pub(crate) fn decode(bytes: Vec<u8>) -> (text: Option<String>)
    ensures
        match text {
            Some(text) => text_of(bytes@) == Some(text@),
            None => text_of(bytes@) is None,
        },
{
    String::from_utf8(bytes).ok()
}

fn bytes_between(name: &Vec<u8>, start: usize, end: usize) -> (part: Vec<u8>)
    requires
        start <= end <= name@.len(),
    ensures
        part@ == name@.subrange(start as int, end as int),
{
    let mut part: Vec<u8> = Vec::new();
    let mut i: usize = start;
    while i < end
        invariant
            start <= i <= end <= name@.len(),
            part@ == name@.subrange(start as int, i as int),
        decreases end - i,
    {
        assert(name@.subrange(start as int, i + 1) == name@.subrange(start as int, i as int).push(
            name@[i as int],
        ));
        part.push(name[i]);
        i += 1;
    }
    part
}

fn find_stem_end(name: &Vec<u8>) -> (place: Option<usize>)
    ensures
        match place {
            Some(place) => stem_end(name@) == Some(place as int) && place < name@.len(),
            None => stem_end(name@) is None,
        },
{
    let mut i: usize = name.len();
    assert(name@.take(i as int) == name@);
    while i > 0
        invariant
            i <= name@.len(),
            last_point(name@) == last_point(name@.take(i as int)),
        decreases i,
    {
        assert(name@.take(i as int).last() == name@[i - 1]);
        assert(name@.take(i as int).drop_last() == name@.take(i - 1));
        if name[i - 1] == 46 {
            return if i > 1 {
                Some(i - 1)
            } else {
                None
            };
        }
        i -= 1;
    }
    None
}

/// The extension of a file name in small letters.
pub fn extension_of(name: &Vec<u8>) -> (text: String)
    ensures
        text@ == extension(name@),
{
    match find_stem_end(name) {
        Some(place) => {
            let len: usize = name.len();
            let bytes = bytes_between(name, place + 1, len);
            assert(bytes@ == name@.skip(place + 1));
            match decode(bytes) {
                Some(text) => {
                    let chars = chars_of(text.as_str());
                    let small = lower_chars(&chars);
                    string_of(&small)
                },
                None => String::new(),
            }
        },
        None => String::new(),
    }
}

/// The stem of a file name.
pub fn stem_of(name: &Vec<u8>) -> (text: String)
    ensures
        text@ == stem_text(name@),
{
    let end: usize = match find_stem_end(name) {
        Some(place) => place,
        None => name.len(),
    };
    let bytes = bytes_between(name, 0, end);
    assert(bytes@ == stem(name@));
    match decode(bytes) {
        Some(text) => text,
        None => String::new(),
    }
}

// ---------------------------------------------------------------------------
// Laws
// ---------------------------------------------------------------------------

proof fn lemma_last_point(front: Seq<u8>, back: Seq<u8>)
    requires
        forall|i: int| 0 <= i < back.len() ==> #[trigger] back[i] != 46,
    ensures
        last_point(front.push(46) + back) == Some(front.len() as int),
    decreases back.len(),
{
    let whole = front.push(46) + back;
    if back.len() > 0 {
        let shorter = back.drop_last();
        assert forall|i: int| 0 <= i < shorter.len() implies #[trigger] shorter[i] != 46 by {
            assert(shorter[i] == back[i]);
        }
        lemma_last_point(front, shorter);
        assert(whole.drop_last() =~= front.push(46) + shorter);
        assert(whole.last() == back[back.len() - 1]);
    } else {
        assert(whole =~= front.push(46));
    }
}

proof fn lemma_no_point(name: Seq<u8>)
    requires
        forall|i: int| 0 <= i < name.len() ==> #[trigger] name[i] != 46,
    ensures
        last_point(name) is None,
    decreases name.len(),
{
    if name.len() > 0 {
        let shorter = name.drop_last();
        assert forall|i: int| 0 <= i < shorter.len() implies #[trigger] shorter[i] != 46 by {
            assert(shorter[i] == name[i]);
        }
        lemma_no_point(shorter);
    }
}

/// A name is its stem, a point and its ending, where the ending holds no point and something
/// stands before the point: the extension is the ending in small letters, as far as it is text.
pub proof fn extensions_stand_behind_the_last_point(front: Seq<u8>, back: Seq<u8>)
    requires
        front.len() > 0,
        forall|i: int| 0 <= i < back.len() ==> #[trigger] back[i] != 46,
    ensures
        stem(front.push(46) + back) == front,
        ending(front.push(46) + back) == Some(back),
        extension(front.push(46) + back) == if valid_utf8(back) {
            lowered(decode_utf8(back))
        } else {
            Seq::<char>::empty()
        },
        stem_text(front.push(46) + back) == if valid_utf8(front) {
            decode_utf8(front)
        } else {
            Seq::<char>::empty()
        },
{
    lemma_last_point(front, back);
    let whole = front.push(46) + back;
    assert(whole.take(front.len() as int) =~= front);
    assert(whole.skip(front.len() as int + 1) =~= back);
}

/// A name without a point, or with a single one at its very start, is all stem and has no
/// extension.
pub proof fn names_without_a_point_have_no_extension(name: Seq<u8>)
    requires
        forall|i: int| 0 < i < name.len() ==> #[trigger] name[i] != 46,
    ensures
        stem(name) == name,
        ending(name) is None,
        extension(name) == Seq::<char>::empty(),
        stem_text(name) == if valid_utf8(name) {
            decode_utf8(name)
        } else {
            Seq::<char>::empty()
        },
{
    if name.len() > 0 && name[0] == 46 {
        let back = name.drop_first();
        assert forall|i: int| 0 <= i < back.len() implies #[trigger] back[i] != 46 by {
            assert(back[i] == name[i + 1]);
        }
        lemma_last_point(Seq::empty(), back);
        assert(Seq::<u8>::empty().push(46) + back =~= name);
    } else {
        assert forall|i: int| 0 <= i < name.len() implies #[trigger] name[i] != 46 by {}
        lemma_no_point(name);
    }
}

/// Paths are ordered name by name, and names byte by byte.
pub proof fn paths_are_ordered_by_their_first_difference(
    left: Seq<Seq<u8>>,
    right: Seq<Seq<u8>>,
    a: Seq<u8>,
    b: Seq<u8>,
)
    ensures
        path_before(left, right) <==> exists|k: int|
            0 <= k <= left.len() && k < right.len() && left.take(k) == #[trigger] right.take(k) && (k
                == left.len() || name_less()(left[k], right[k])),
        name_less()(a, b) <==> exists|k: int|
            0 <= k <= a.len() && k < b.len() && a.take(k) == #[trigger] b.take(k) && (k == a.len()
                || a[k] < b[k]),
{
    the_first_difference_orders(left, right, name_less());
    the_first_difference_orders(a, b, byte_less());
    if name_less()(a, b) {
        let k = choose|k: int|
            0 <= k <= a.len() && k < b.len() && a.take(k) == #[trigger] b.take(k) && (k == a.len()
                || byte_less()(a[k], b[k]));
        assert(a.take(k) == b.take(k));
    }
}

} // verus!
