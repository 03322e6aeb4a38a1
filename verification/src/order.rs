//! The order of names, and sequences sorted by a name.
//!
//! Names are ordered as in a dictionary: character by character, by code
//! point, a proper prefix before what it is a prefix of. A sequence sorted
//! by name depends on what it holds alone, not on the order in which its
//! items came.

use vstd::prelude::*;
use vstd::string::StrSliceExecFns;

verus! {

/// Whether `a` stands before `b` in the order of names.
pub open spec fn name_lt(a: Seq<char>, b: Seq<char>) -> bool
    decreases a.len(),
{
    if b.len() == 0 {
        false
    } else if a.len() == 0 {
        true
    } else if a[0] != b[0] {
        a[0] < b[0]
    } else {
        name_lt(a.drop_first(), b.drop_first())
    }
}

/// No name stands before itself, and of two names at most one stands before
/// the other.
pub proof fn lemma_name_lt_asymmetric(a: Seq<char>, b: Seq<char>)
    ensures
        !name_lt(a, a),
        name_lt(a, b) ==> !name_lt(b, a),
    decreases a.len(),
{
    if a.len() > 0 {
        lemma_name_lt_asymmetric(a.drop_first(), a.drop_first());
        if b.len() > 0 {
            lemma_name_lt_asymmetric(a.drop_first(), b.drop_first());
        }
    }
}

/// Of two different names one stands before the other.
pub proof fn lemma_name_lt_total(a: Seq<char>, b: Seq<char>)
    requires
        a != b,
    ensures
        name_lt(a, b) || name_lt(b, a),
    decreases a.len(),
{
    if a.len() > 0 && b.len() > 0 && a[0] == b[0] {
        if a.drop_first() == b.drop_first() {
            assert(a =~= seq![a[0]] + a.drop_first());
            assert(b =~= seq![b[0]] + b.drop_first());
        }
        lemma_name_lt_total(a.drop_first(), b.drop_first());
    } else if a.len() == 0 && b.len() == 0 {
        assert(a =~= b);
    }
}

/// The order of names is transitive.
pub proof fn lemma_name_lt_transitive(a: Seq<char>, b: Seq<char>, c: Seq<char>)
    requires
        name_lt(a, b),
        name_lt(b, c),
    ensures
        name_lt(a, c),
    decreases a.len(),
{
    if a.len() > 0 && b.len() > 0 && c.len() > 0 {
        if a[0] == b[0] && b[0] == c[0] {
            lemma_name_lt_transitive(a.drop_first(), b.drop_first(), c.drop_first());
        }
    }
}

/// Whether `a` stands before `b` in the order of names.
pub fn name_before(a: &str, b: &str) -> (r: bool)
    ensures
        r == name_lt(a@, b@),
{
    let la = a.unicode_len();
    let lb = b.unicode_len();
    let mut i: usize = 0;
    assert(a@.skip(0) =~= a@ && b@.skip(0) =~= b@);
    while i < la && i < lb
        invariant
            i <= la,
            i <= lb,
            la == a@.len(),
            lb == b@.len(),
            name_lt(a@, b@) == name_lt(a@.skip(i as int), b@.skip(i as int)),
        decreases la - i,
    {
        let x = a.get_char(i);
        let y = b.get_char(i);
        assert(a@.skip(i as int)[0] == x && b@.skip(i as int)[0] == y);
        assert(a@.skip(i as int).drop_first() =~= a@.skip(i + 1));
        assert(b@.skip(i as int).drop_first() =~= b@.skip(i + 1));
        if x != y {
            return x < y;
        }
        i += 1;
    }
    i < lb
}

/// The items stand in the strict order of their names: none has the name of
/// another.
pub open spec fn strictly_sorted<T>(items: Seq<T>, name: spec_fn(T) -> Seq<char>) -> bool {
    forall|i: int, j: int|
        0 <= i < j < items.len() ==> name_lt(name(#[trigger] items[i]), name(#[trigger] items[j]))
}

/// No two items have the same name.
pub open spec fn distinct_names<T>(items: Seq<T>, name: spec_fn(T) -> Seq<char>) -> bool {
    forall|i: int, j: int|
        0 <= i < items.len() && 0 <= j < items.len() && i != j ==> name(#[trigger] items[i])
            != name(#[trigger] items[j])
}

/// The number of leading items whose names stand before `wanted`.
pub open spec fn position<T>(items: Seq<T>, wanted: Seq<char>, name: spec_fn(T) -> Seq<char>) -> int
    decreases items.len(),
{
    if items.len() == 0 {
        0
    } else if name_lt(name(items[0]), wanted) {
        1 + position(items.drop_first(), wanted, name)
    } else {
        0
    }
}

/// The items with `item` put in behind those whose names stand before its
/// own.
pub open spec fn put_in<T>(items: Seq<T>, item: T, name: spec_fn(T) -> Seq<char>) -> Seq<T> {
    items.insert(position(items, name(item), name), item)
}

/// The items sorted by name.
pub open spec fn sorted_by_name<T>(items: Seq<T>, name: spec_fn(T) -> Seq<char>) -> Seq<T>
    decreases items.len(),
{
    if items.len() == 0 {
        Seq::empty()
    } else {
        put_in(sorted_by_name(items.drop_last(), name), items.last(), name)
    }
}

/// In sorted items, those before `position` have names before `wanted`, and
/// those from it on have not.
pub proof fn lemma_position<T>(items: Seq<T>, wanted: Seq<char>, name: spec_fn(T) -> Seq<char>)
    requires
        strictly_sorted(items, name),
    ensures
        0 <= position(items, wanted, name) <= items.len(),
        forall|i: int|
            0 <= i < position(items, wanted, name) ==> name_lt(name(#[trigger] items[i]), wanted),
        forall|i: int|
            position(items, wanted, name) <= i < items.len() ==> !name_lt(
                name(#[trigger] items[i]),
                wanted,
            ),
    decreases items.len(),
{
    if items.len() > 0 {
        let rest = items.drop_first();
        assert forall|i: int, j: int| 0 <= i < j < rest.len() implies name_lt(
            name(#[trigger] rest[i]),
            name(#[trigger] rest[j]),
        ) by {
            assert(rest[i] == items[i + 1] && rest[j] == items[j + 1]);
        }
        lemma_position(rest, wanted, name);
        if name_lt(name(items[0]), wanted) {
            assert forall|i: int| 0 <= i < position(items, wanted, name) implies name_lt(
                name(#[trigger] items[i]),
                wanted,
            ) by {
                if i > 0 {
                    assert(rest[i - 1] == items[i]);
                }
            }
            assert forall|i: int|
                position(items, wanted, name) <= i < items.len() implies !name_lt(
                name(#[trigger] items[i]),
                wanted,
            ) by {
                assert(rest[i - 1] == items[i]);
            }
        } else {
            assert forall|i: int| 0 <= i < items.len() implies !name_lt(
                name(#[trigger] items[i]),
                wanted,
            ) by {
                if i > 0 && name_lt(name(items[i]), wanted) {
                    assert(name_lt(name(items[0]), name(items[i])));
                    lemma_name_lt_transitive(name(items[0]), name(items[i]), wanted);
                }
            }
        }
    }
}

/// Putting an item of a new name into sorted items leaves them sorted, and
/// they hold what they held and the item.
pub proof fn lemma_put_in<T>(items: Seq<T>, item: T, name: spec_fn(T) -> Seq<char>)
    requires
        strictly_sorted(items, name),
        forall|i: int| 0 <= i < items.len() ==> name(#[trigger] items[i]) != name(item),
    ensures
        strictly_sorted(put_in(items, item, name), name),
        put_in(items, item, name).len() == items.len() + 1,
        forall|x: T| put_in(items, item, name).contains(x) <==> items.contains(x) || x == item,
{
    let at = position(items, name(item), name);
    let out = put_in(items, item, name);
    lemma_position(items, name(item), name);
    assert forall|i: int, j: int| 0 <= i < j < out.len() implies name_lt(
        name(#[trigger] out[i]),
        name(#[trigger] out[j]),
    ) by {
        if j == at {
            assert(out[i] == items[i]);
        } else if i == at {
            assert(out[j] == items[j - 1]);
            assert(!name_lt(name(items[j - 1]), name(item)));
            lemma_name_lt_total(name(items[j - 1]), name(item));
        } else {
            let a = if i < at { i } else { i - 1 };
            let b = if j < at { j } else { j - 1 };
            assert(out[i] == items[a] && out[j] == items[b]);
        }
    }
    assert forall|x: T| out.contains(x) <==> items.contains(x) || x == item by {
        if out.contains(x) {
            let k = choose|k: int| 0 <= k < out.len() && out[k] == x;
            if k < at {
                assert(items[k] == x);
            } else if k > at {
                assert(items[k - 1] == x);
            }
        }
        if items.contains(x) {
            let k = choose|k: int| 0 <= k < items.len() && items[k] == x;
            if k < at {
                assert(out[k] == x);
            } else {
                assert(out[k + 1] == x);
            }
        }
        if x == item {
            assert(out[at] == x);
        }
    }
}

/// Items of different names, sorted: they stand in the order of their names
/// and are the items that were given, each once.
pub proof fn lemma_sorted_by_name<T>(items: Seq<T>, name: spec_fn(T) -> Seq<char>)
    requires
        distinct_names(items, name),
    ensures
        strictly_sorted(sorted_by_name(items, name), name),
        sorted_by_name(items, name).len() == items.len(),
        forall|x: T| sorted_by_name(items, name).contains(x) <==> items.contains(x),
    decreases items.len(),
{
    if items.len() > 0 {
        let front = items.drop_last();
        let last = items.last();
        assert forall|i: int, j: int|
            0 <= i < front.len() && 0 <= j < front.len() && i != j implies name(#[trigger] front[i])
            != name(#[trigger] front[j]) by {
            assert(front[i] == items[i] && front[j] == items[j]);
        }
        lemma_sorted_by_name(front, name);
        let sorted = sorted_by_name(front, name);
        assert forall|i: int| 0 <= i < sorted.len() implies name(#[trigger] sorted[i]) != name(
            last,
        ) by {
            assert(sorted.contains(sorted[i]));
            assert(front.contains(sorted[i]));
            let k = choose|k: int| 0 <= k < front.len() && front[k] == sorted[i];
            assert(items[k] == sorted[i]);
            assert(items[items.len() - 1] == last);
        }
        lemma_put_in(sorted, last, name);
        assert forall|x: T| sorted_by_name(items, name).contains(x) <==> items.contains(x) by {
            if items.contains(x) {
                let k = choose|k: int| 0 <= k < items.len() && items[k] == x;
                if k < front.len() {
                    assert(front[k] == x);
                }
            }
            if front.contains(x) {
                let k = choose|k: int| 0 <= k < front.len() && front[k] == x;
                assert(items[k] == x);
            }
            if x == last {
                assert(items[items.len() - 1] == x);
            }
        }
    }
}

/// Two sorted sequences that hold the same items are the same sequence.
pub proof fn lemma_sorted_unique<T>(one: Seq<T>, other: Seq<T>, name: spec_fn(T) -> Seq<char>)
    requires
        strictly_sorted(one, name),
        strictly_sorted(other, name),
        forall|x: T| one.contains(x) <==> other.contains(x),
    ensures
        one == other,
    decreases one.len(),
{
    if one.len() == 0 {
        if other.len() > 0 {
            assert(other.contains(other[0]));
        }
        assert(one =~= other);
    } else if other.len() == 0 {
        assert(one.contains(one[0]));
    } else {
        assert(one.contains(one[0]) && other.contains(other[0]));
        let i = choose|i: int| 0 <= i < other.len() && other[i] == one[0];
        let j = choose|j: int| 0 <= j < one.len() && one[j] == other[0];
        if i > 0 && j > 0 {
            assert(name_lt(name(other[0]), name(other[i])));
            assert(name_lt(name(one[0]), name(one[j])));
            lemma_name_lt_asymmetric(name(one[0]), name(other[0]));
        }
        if i > 0 && j == 0 {
            assert(name_lt(name(other[0]), name(other[i])));
            lemma_name_lt_asymmetric(name(one[0]), name(one[0]));
        }
        if i == 0 && j > 0 {
            assert(name_lt(name(one[0]), name(one[j])));
            lemma_name_lt_asymmetric(name(one[0]), name(one[0]));
        }
        assert(one[0] == other[0]);
        let a = one.drop_first();
        let b = other.drop_first();
        assert forall|x: T| a.contains(x) <==> b.contains(x) by {
            if a.contains(x) {
                let k = choose|k: int| 0 <= k < a.len() && a[k] == x;
                assert(one[k + 1] == x);
                assert(name_lt(name(one[0]), name(one[k + 1])));
                lemma_name_lt_asymmetric(name(one[0]), name(one[0]));
                assert(other.contains(x));
                let m = choose|m: int| 0 <= m < other.len() && other[m] == x;
                assert(m > 0);
                assert(b[m - 1] == x);
            }
            if b.contains(x) {
                let k = choose|k: int| 0 <= k < b.len() && b[k] == x;
                assert(other[k + 1] == x);
                assert(name_lt(name(other[0]), name(other[k + 1])));
                lemma_name_lt_asymmetric(name(other[0]), name(other[0]));
                assert(one.contains(x));
                let m = choose|m: int| 0 <= m < one.len() && one[m] == x;
                assert(m > 0);
                assert(a[m - 1] == x);
            }
        }
        assert forall|p: int, q: int| 0 <= p < q < a.len() implies name_lt(
            name(#[trigger] a[p]),
            name(#[trigger] a[q]),
        ) by {
            assert(a[p] == one[p + 1] && a[q] == one[q + 1]);
        }
        assert forall|p: int, q: int| 0 <= p < q < b.len() implies name_lt(
            name(#[trigger] b[p]),
            name(#[trigger] b[q]),
        ) by {
            assert(b[p] == other[p + 1] && b[q] == other[q + 1]);
        }
        lemma_sorted_unique(a, b, name);
        assert(one =~= seq![one[0]] + a);
        assert(other =~= seq![other[0]] + b);
    }
}

/// Sorting by name does not depend on the order in which the items came:
/// two sequences of items of different names that hold the same items are
/// sorted into the same sequence.
pub proof fn lemma_sorted_whatever_the_order<T>(
    one: Seq<T>,
    other: Seq<T>,
    name: spec_fn(T) -> Seq<char>,
)
    requires
        distinct_names(one, name),
        distinct_names(other, name),
        forall|x: T| one.contains(x) <==> other.contains(x),
    ensures
        sorted_by_name(one, name) == sorted_by_name(other, name),
{
    lemma_sorted_by_name(one, name);
    lemma_sorted_by_name(other, name);
    let a = sorted_by_name(one, name);
    let b = sorted_by_name(other, name);
    assert forall|x: T| a.contains(x) <==> b.contains(x) by {
        assert(a.contains(x) <==> one.contains(x));
        assert(b.contains(x) <==> other.contains(x));
    }
    lemma_sorted_unique(a, b, name);
}

} // verus!
