//! The metadata of an archive as a tree of lines, for showing.

use vstd::prelude::*;
use vstd::slice::slice_subrange;
use vstd::string::StringExecFns;
use vstd::utf8::encode_utf8;
use crate::codec::metadata_end;
use crate::codec::split_header;
use crate::error::MetadataError;
use crate::error::XpakError;
use crate::json::JsonValue;
use crate::json::JsonView;
use crate::json::find_member;
use crate::json::first_index;
use crate::json::has_key;
use crate::json::items_view;
use crate::json::json_parsed;
use crate::json::json_text;
use crate::json::lemma_first_index;
use crate::json::lemma_items_view;
use crate::json::lemma_members_view;
use crate::json::members_view;
use crate::json::parse_json;
use crate::json::write_json;

verus! {

/// Whether `a` comes before `b` when bytes are read like letters in a
/// dictionary.
pub open spec fn lex_less(a: Seq<u8>, b: Seq<u8>) -> bool
    decreases a.len(),
{
    if b.len() == 0 {
        false
    } else if a.len() == 0 {
        true
    } else if a[0] != b[0] {
        a[0] < b[0]
    } else {
        lex_less(a.drop_first(), b.drop_first())
    }
}

/// Whether the key `a` comes before the key `b`: keys are ordered by their
/// bytes in UTF-8.
pub open spec fn key_less(a: Seq<char>, b: Seq<char>) -> bool {
    lex_less(encode_utf8(a), encode_utf8(b))
}

/// Whether `a` comes before `b` when bytes are read like letters in a
/// dictionary.
pub fn bytes_less(a: &[u8], b: &[u8]) -> (r: bool)
    ensures
        r == lex_less(a@, b@),
{
    let mut i: usize = 0;
    proof {
        assert(a@.skip(0) =~= a@);
        assert(b@.skip(0) =~= b@);
    }
    while i < a.len() && i < b.len()
        invariant
            i <= a@.len(),
            i <= b@.len(),
            lex_less(a@, b@) == lex_less(a@.skip(i as int), b@.skip(i as int)),
        decreases a@.len() - i,
    {
        proof {
            assert(a@.skip(i as int)[0] == a@[i as int]);
            assert(b@.skip(i as int)[0] == b@[i as int]);
            assert(a@.skip(i as int).drop_first() =~= a@.skip(i + 1));
            assert(b@.skip(i as int).drop_first() =~= b@.skip(i + 1));
        }
        if a[i] != b[i] {
            return a[i] < b[i];
        }
        i += 1;
    }
    i < b.len()
}

/// The first place from `p` on in `order` whose member has a key that comes
/// after the key of member `k`; the length of `order` where there is none.
pub open spec fn place_from(members: Seq<(Seq<char>, JsonView)>, order: Seq<int>, k: int, p: int) -> int
    decreases order.len() - p,
{
    if p < 0 || p >= order.len() {
        order.len() as int
    } else if key_less(members[k].0, members[order[p]].0) {
        p
    } else {
        place_from(members, order, k, p + 1)
    }
}

/// The places of the first `n` members in the order of their keys. Members
/// with the same key keep the order in which they stand.
pub open spec fn sorted_order(members: Seq<(Seq<char>, JsonView)>, n: int) -> Seq<int>
    decreases n,
{
    if n <= 0 {
        Seq::empty()
    } else {
        let before = sorted_order(members, n - 1);
        before.insert(place_from(members, before, n - 1, 0), n - 1)
    }
}

/// The places of `order` without those of members whose value is null.
pub open spec fn without_nulls(members: Seq<(Seq<char>, JsonView)>, order: Seq<int>) -> Seq<int>
    decreases order.len(),
{
    if order.len() == 0 {
        Seq::empty()
    } else if members[order.last()].1 is Null {
        without_nulls(members, order.drop_last())
    } else {
        without_nulls(members, order.drop_last()).push(order.last())
    }
}

/// The places of the members of an object that are shown, in the order in
/// which they are shown: by key, and without the members whose value is
/// null.
pub open spec fn shown_order(members: Seq<(Seq<char>, JsonView)>) -> Seq<int> {
    without_nulls(members, sorted_order(members, members.len() as int))
}

/// The order of the first `n` members holds each of their places, and no
/// other place.
pub proof fn lemma_sorted_order(members: Seq<(Seq<char>, JsonView)>, n: int)
    requires
        0 <= n,
    ensures
        sorted_order(members, n).len() == n,
        forall|j: int| 0 <= j < n ==> 0 <= (#[trigger] sorted_order(members, n)[j]) < n,
        forall|k: int| 0 <= k < n ==> sorted_order(members, n).contains(k),
    decreases n,
{
    if n > 0 {
        let before = sorted_order(members, n - 1);
        lemma_sorted_order(members, n - 1);
        let p = place_from(members, before, n - 1, 0);
        lemma_place_from(members, before, n - 1, 0);
        let now = sorted_order(members, n);
        assert(now == before.insert(p, n - 1));
        before.insert_ensures(p, n - 1);
        assert forall|j: int| 0 <= j < n implies 0 <= (#[trigger] now[j]) < n by {
            if j < p {
                assert(now[j] == before[j]);
            } else if j > p {
                assert(now[(j - 1) + 1] == before[j - 1]);
            }
        }
        assert forall|k: int| 0 <= k < n implies now.contains(k) by {
            if k == n - 1 {
                assert(now[p] == k);
            } else {
                assert(before.contains(k));
                let w = choose|w: int| 0 <= w < before.len() && before[w] == k;
                if w < p {
                    assert(now[w] == k);
                } else {
                    assert(now[w + 1] == k);
                }
            }
        }
    }
}

/// The place that `place_from` finds lies between `p` and the end of the
/// order.
pub proof fn lemma_place_from(members: Seq<(Seq<char>, JsonView)>, order: Seq<int>, k: int, p: int)
    requires
        0 <= p <= order.len(),
    ensures
        p <= place_from(members, order, k, p) <= order.len(),
    decreases order.len() - p,
{
    if p < order.len() && !key_less(members[k].0, members[order[p]].0) {
        lemma_place_from(members, order, k, p + 1);
    }
}

/// Nothing comes before itself, and of two byte strings at most one comes
/// before the other.
pub proof fn lemma_lex_less_asymmetric(a: Seq<u8>, b: Seq<u8>)
    ensures
        !(lex_less(a, b) && lex_less(b, a)),
        !lex_less(a, a),
    decreases a.len(),
{
    if a.len() > 0 {
        lemma_lex_less_asymmetric(a.drop_first(), a.drop_first());
        if b.len() > 0 && a[0] == b[0] {
            lemma_lex_less_asymmetric(a.drop_first(), b.drop_first());
        }
    }
}

/// What comes before something that does not come after a third comes
/// before the third.
pub proof fn lemma_lex_less_transitive(a: Seq<u8>, b: Seq<u8>, c: Seq<u8>)
    requires
        lex_less(a, b),
        !lex_less(c, b),
    ensures
        lex_less(a, c),
    decreases a.len(),
{
    if a.len() > 0 && b.len() > 0 && c.len() > 0 && a[0] == b[0] && b[0] == c[0] {
        lemma_lex_less_transitive(a.drop_first(), b.drop_first(), c.drop_first());
    }
}

/// What `place_from` finds: no member before that place, from `p` on, has a
/// key that comes after the key of member `k`, and the member at that place
/// has one, where the place is within the order.
pub proof fn lemma_place_from_splits(
    members: Seq<(Seq<char>, JsonView)>,
    order: Seq<int>,
    k: int,
    p: int,
)
    requires
        0 <= p <= order.len(),
    ensures
        forall|q: int|
            p <= q < place_from(members, order, k, p) ==> !key_less(
                members[k].0,
                members[#[trigger] order[q]].0,
            ),
        place_from(members, order, k, p) < order.len() ==> key_less(
            members[k].0,
            members[order[place_from(members, order, k, p)]].0,
        ),
    decreases order.len() - p,
{
    if p < order.len() && !key_less(members[k].0, members[order[p]].0) {
        lemma_place_from_splits(members, order, k, p + 1);
    }
}

/// Whether the places of `order` stand in the order of their members' keys,
/// and members with the same key in the order of their places.
pub open spec fn is_sorted_order(members: Seq<(Seq<char>, JsonView)>, order: Seq<int>) -> bool {
    forall|i: int, j: int|
        0 <= i < j < order.len() ==> !key_less(
            members[#[trigger] order[j]].0,
            members[#[trigger] order[i]].0,
        ) && (key_less(members[order[i]].0, members[order[j]].0) || order[i] < order[j])
}

/// The order of the first `n` members is sorted by key, and members with
/// the same key keep the order in which they stand.
pub proof fn lemma_sorted_order_is_sorted(members: Seq<(Seq<char>, JsonView)>, n: int)
    requires
        0 <= n,
    ensures
        is_sorted_order(members, sorted_order(members, n)),
    decreases n,
{
    if n > 0 {
        let before = sorted_order(members, n - 1);
        let x = n - 1;
        lemma_sorted_order(members, n - 1);
        lemma_sorted_order_is_sorted(members, n - 1);
        let p = place_from(members, before, x, 0);
        lemma_place_from(members, before, x, 0);
        lemma_place_from_splits(members, before, x, 0);
        let now = sorted_order(members, n);
        before.insert_ensures(p, x);
        let kx = encode_utf8(members[x].0);
        assert forall|i: int, j: int| 0 <= i < j < now.len() implies !key_less(
            members[#[trigger] now[j]].0,
            members[#[trigger] now[i]].0,
        ) && (key_less(members[now[i]].0, members[now[j]].0) || now[i] < now[j]) by {
            let oi = if i < p {
                i
            } else {
                i - 1
            };
            let oj = if j < p {
                j
            } else {
                j - 1
            };
            if i != p {
                assert(now[i] == before[oi]) by {
                    if i > p {
                        assert(now[(i - 1) + 1] == before[i - 1]);
                    }
                }
            }
            if j != p {
                assert(now[j] == before[oj]) by {
                    if j > p {
                        assert(now[(j - 1) + 1] == before[j - 1]);
                    }
                }
            }
            if i == p {
                // the new member, and a member that stood at or behind its place
                let kp = encode_utf8(members[before[p]].0);
                let kj = encode_utf8(members[before[oj]].0);
                if oj > p {
                    assert(!key_less(members[before[oj]].0, members[before[p]].0));
                } else {
                    lemma_lex_less_asymmetric(kp, kp);
                }
                lemma_lex_less_transitive(kx, kp, kj);
                lemma_lex_less_asymmetric(kx, kj);
            } else if j == p {
                // a member that stood before the place, and the new member
                assert(!key_less(members[x].0, members[before[oi]].0));
                assert(before[oi] < x);
            } else {
                assert(0 <= oi < oj < before.len());
            }
        }
    }
}

/// A list of places as mathematical integers.
pub open spec fn places(order: Seq<usize>) -> Seq<int> {
    Seq::new(order.len(), |i: int| order[i] as int)
}

/// The places of the members that are shown, in the order in which they
/// are shown.
pub fn order_members(members: &Vec<(String, JsonValue)>) -> (r: Vec<usize>)
    ensures
        places(r@) == shown_order(members_view(members@)),
        forall|j: int| 0 <= j < r@.len() ==> (#[trigger] r@[j]) < members@.len(),
{
    let ghost view = members_view(members@);
    proof {
        lemma_members_view(members@);
    }
    let mut order: Vec<usize> = Vec::new();
    let mut n: usize = 0;
    proof {
        assert(places(order@) =~= sorted_order(view, 0));
    }
    while n < members.len()
        invariant
            n <= members@.len(),
            view == members_view(members@),
            view.len() == members@.len(),
            forall|j: int|
                0 <= j < members@.len() ==> (#[trigger] view[j]) == (members@[j].0@, members@[j].1@),
            order@.len() == n,
            places(order@) == sorted_order(view, n as int),
            forall|j: int| 0 <= j < order@.len() ==> (#[trigger] order@[j]) < n,
        decreases members@.len() - n,
    {
        let key = members[n].0.as_str().as_bytes();
        let mut p: usize = 0;
        let ghost before = places(order@);
        loop
            invariant
                p <= order@.len(),
                n < members@.len(),
                order@.len() == n,
                before == places(order@),
                key@ == encode_utf8(members@[n as int].0@),
                view == members_view(members@),
                view.len() == members@.len(),
                forall|j: int|
                    0 <= j < members@.len() ==> (#[trigger] view[j]) == (
                        members@[j].0@,
                        members@[j].1@,
                    ),
                forall|j: int| 0 <= j < order@.len() ==> (#[trigger] order@[j]) < n,
                place_from(view, before, n as int, 0) == place_from(view, before, n as int, p as int),
            ensures
                p <= order@.len(),
                p == place_from(view, before, n as int, 0),
            decreases order@.len() - p,
        {
            if p >= order.len() {
                break;
            }
            let other = members[order[p]].0.as_str().as_bytes();
            proof {
                assert(before[p as int] == order@[p as int]);
            }
            if bytes_less(key, other) {
                break;
            }
            p += 1;
        }
        order.insert(p, n);
        proof {
            assert(places(order@) =~= before.insert(p as int, n as int));
        }
        n += 1;
    }
    let ghost sorted = places(order@);
    let mut shown: Vec<usize> = Vec::new();
    let mut j: usize = 0;
    proof {
        assert(sorted.take(0) =~= Seq::<int>::empty());
        assert(places(shown@) =~= without_nulls(view, sorted.take(0)));
    }
    while j < order.len()
        invariant
            j <= order@.len(),
            sorted == places(order@),
            view == members_view(members@),
            view.len() == members@.len(),
            forall|i: int|
                0 <= i < members@.len() ==> (#[trigger] view[i]) == (members@[i].0@, members@[i].1@),
            forall|i: int| 0 <= i < order@.len() ==> (#[trigger] order@[i]) < members@.len(),
            places(shown@) == without_nulls(view, sorted.take(j as int)),
            forall|i: int| 0 <= i < shown@.len() ==> (#[trigger] shown@[i]) < members@.len(),
        decreases order@.len() - j,
    {
        let k = order[j];
        let ghost before = places(shown@);
        proof {
            assert(sorted.take(j + 1).drop_last() =~= sorted.take(j as int));
            assert(sorted.take(j + 1).last() == k as int);
        }
        match &members[k].1 {
            JsonValue::Null => {},
            _ => {
                shown.push(k);
                proof {
                    assert(places(shown@) =~= before.push(k as int));
                }
            },
        }
        j += 1;
    }
    proof {
        assert(sorted.take(order@.len() as int) =~= sorted);
    }
    shown
}

/// The mark in front of an entry: one for the last entry of its level, one
/// for every other.
pub open spec fn branch(last: bool) -> Seq<char> {
    if last {
        "└─"@
    } else {
        "├─"@
    }
}

/// The prefix of the lines below an entry.
pub open spec fn deeper(prefix: Seq<char>, last: bool) -> Seq<char> {
    prefix + (if last {
        " "@
    } else {
        "│"@
    }) + "   "@
}

/// Whether a value has entries of its own: an array or an object.
pub open spec fn is_container(value: JsonView) -> bool {
    value is Array || value is Object
}

/// The lines that show a JSON value as a tree. The members of an object
/// come in the order of their keys, without those that are null; each has
/// its line with the key, and a value with entries of its own has its lines
/// below, further in. The items of an array come in their order. Any other
/// value is one line with its JSON text.
pub open spec fn tree_lines(prefix: Seq<char>, value: JsonView) -> Seq<Seq<char>>
    decreases value, 0nat,
{
    match value {
        JsonView::Object(members) => object_lines(prefix, members, shown_order(members), 0),
        JsonView::Array(items) => array_lines(prefix, items, 0),
        _ => seq![prefix + json_text(value)],
    }
}

/// The lines of the members of an object from place `j` of `order` on.
pub open spec fn object_lines(
    prefix: Seq<char>,
    members: Seq<(Seq<char>, JsonView)>,
    order: Seq<int>,
    j: int,
) -> Seq<Seq<char>>
    decreases members, order.len() - j,
{
    if j < 0 || j >= order.len() {
        Seq::empty()
    } else if order[j] < 0 || order[j] >= members.len() {
        object_lines(prefix, members, order, j + 1)
    } else {
        let last = j == order.len() - 1;
        let key = members[order[j]].0;
        let value = members[order[j]].1;
        let head = prefix + branch(last) + " "@ + key + ":"@;
        if is_container(value) {
            seq![head] + tree_lines(deeper(prefix, last), value) + object_lines(
                prefix,
                members,
                order,
                j + 1,
            )
        } else {
            seq![head + " "@ + json_text(value)] + object_lines(prefix, members, order, j + 1)
        }
    }
}

/// The lines of the items of an array from item `j` on.
pub open spec fn array_lines(prefix: Seq<char>, items: Seq<JsonView>, j: int) -> Seq<Seq<char>>
    decreases items, items.len() - j,
{
    if j < 0 || j >= items.len() {
        Seq::empty()
    } else {
        let last = j == items.len() - 1;
        let head = prefix + branch(last);
        if is_container(items[j]) {
            seq![head] + tree_lines(deeper(prefix, last), items[j]) + array_lines(prefix, items, j + 1)
        } else {
            seq![head + " "@ + json_text(items[j])] + array_lines(prefix, items, j + 1)
        }
    }
}

/// A list of lines as mathematical values.
pub open spec fn lines_view(lines: Seq<String>) -> Seq<Seq<char>> {
    Seq::new(lines.len(), |i: int| lines[i]@)
}

/// Whether a value is an array or an object.
fn has_entries(value: &JsonValue) -> (r: bool)
    ensures
        r == is_container(value@),
{
    match value {
        JsonValue::Array(_) => true,
        JsonValue::Object(_) => true,
        _ => false,
    }
}

/// The mark in front of an entry.
fn branch_of(last: bool) -> (r: &'static str)
    ensures
        r@ == branch(last),
{
    if last {
        "└─"
    } else {
        "├─"
    }
}

/// The prefix of the lines below an entry.
fn deeper_prefix(prefix: &str, last: bool) -> (r: String)
    ensures
        r@ == deeper(prefix@, last),
{
    let mut next = prefix.to_owned();
    next.append(if last {
        " "
    } else {
        "│"
    });
    next.append("   ");
    next
}

/// Appends to `lines` the lines that show `value` as a tree, each behind
/// `prefix`.
pub fn json_tree_lines(lines: &mut Vec<String>, prefix: &str, value: &JsonValue)
    ensures
        lines_view(final(lines)@) == lines_view(old(lines)@) + tree_lines(prefix@, value@),
    decreases value,
{
    let ghost start = lines_view(lines@);
    match value {
        JsonValue::Object(members) => {
            let order = order_members(members);
            let ghost view = members_view(members@);
            let ghost ord = places(order@);
            proof {
                lemma_members_view(members@);
                assert(lines_view(lines@) + object_lines(prefix@, view, ord, 0) =~= start
                    + object_lines(prefix@, view, ord, 0));
            }
            let mut j: usize = 0;
            while j < order.len()
                invariant
                    j <= order@.len(),
                    *value == JsonValue::Object(*members),
                    view == members_view(members@),
                    view.len() == members@.len(),
                    forall|i: int|
                        0 <= i < members@.len() ==> (#[trigger] view[i]) == (
                            members@[i].0@,
                            members@[i].1@,
                        ),
                    ord == places(order@),
                    forall|i: int| 0 <= i < order@.len() ==> (#[trigger] order@[i]) < members@.len(),
                    lines_view(lines@) + object_lines(prefix@, view, ord, j as int) == start
                        + object_lines(prefix@, view, ord, 0),
                decreases order@.len() - j,
            {
                let k = order[j];
                let last = j == order.len() - 1;
                let ghost before = lines_view(lines@);
                let ghost rest = object_lines(prefix@, view, ord, j + 1);
                proof {
                    assert(ord[j as int] == k as int);
                    vstd::std_specs::vec::axiom_vec_index_decreases(*members, k as int);
                    assert(value->Object_0 == *members);
                    assert(decreases_to!(*value => value->Object_0));
                }
                let mut head = prefix.to_owned();
                head.append(branch_of(last));
                head.append(" ");
                head.append(members[k].0.as_str());
                head.append(":");
                if has_entries(&members[k].1) {
                    lines.push(head);
                    let ghost middle = lines_view(lines@);
                    let next = deeper_prefix(prefix, last);
                    json_tree_lines(lines, next.as_str(), &members[k].1);
                    proof {
                        let below = tree_lines(deeper(prefix@, last), view[k as int].1);
                        assert(middle =~= before + seq![head@]);
                        assert(lines_view(lines@) + rest =~= before + (seq![head@] + below + rest));
                    }
                } else {
                    head.append(" ");
                    head.append(write_json(&members[k].1).as_str());
                    lines.push(head);
                    proof {
                        assert(lines_view(lines@) + rest =~= before + (seq![head@] + rest));
                    }
                }
                j += 1;
            }
            proof {
                assert(object_lines(prefix@, view, ord, order@.len() as int) =~= Seq::<
                    Seq<char>,
                >::empty());
                assert(lines_view(lines@) + Seq::<Seq<char>>::empty() =~= lines_view(lines@));
            }
        },
        JsonValue::Array(items) => {
            let ghost view = items_view(items@);
            proof {
                lemma_items_view(items@);
                assert(lines_view(lines@) + array_lines(prefix@, view, 0) =~= start + array_lines(
                    prefix@,
                    view,
                    0,
                ));
            }
            let mut j: usize = 0;
            while j < items.len()
                invariant
                    j <= items@.len(),
                    *value == JsonValue::Array(*items),
                    view == items_view(items@),
                    view.len() == items@.len(),
                    forall|i: int| 0 <= i < items@.len() ==> (#[trigger] view[i]) == items@[i]@,
                    lines_view(lines@) + array_lines(prefix@, view, j as int) == start + array_lines(
                        prefix@,
                        view,
                        0,
                    ),
                decreases items@.len() - j,
            {
                let last = j == items.len() - 1;
                let ghost before = lines_view(lines@);
                let ghost rest = array_lines(prefix@, view, j + 1);
                proof {
                    vstd::std_specs::vec::axiom_vec_index_decreases(*items, j as int);
                    assert(value->Array_0 == *items);
                    assert(decreases_to!(*value => value->Array_0));
                }
                let mut head = prefix.to_owned();
                head.append(branch_of(last));
                if has_entries(&items[j]) {
                    lines.push(head);
                    let ghost middle = lines_view(lines@);
                    let next = deeper_prefix(prefix, last);
                    json_tree_lines(lines, next.as_str(), &items[j]);
                    proof {
                        let below = tree_lines(deeper(prefix@, last), view[j as int]);
                        assert(middle =~= before + seq![head@]);
                        assert(lines_view(lines@) + rest =~= before + (seq![head@] + below + rest));
                    }
                } else {
                    head.append(" ");
                    head.append(write_json(&items[j]).as_str());
                    lines.push(head);
                    proof {
                        assert(lines_view(lines@) + rest =~= before + (seq![head@] + rest));
                    }
                }
                j += 1;
            }
            proof {
                assert(array_lines(prefix@, view, items@.len() as int) =~= Seq::<Seq<char>>::empty());
                assert(lines_view(lines@) + Seq::<Seq<char>>::empty() =~= lines_view(lines@));
            }
        },
        _ => {
            let mut line = prefix.to_owned();
            line.append(write_json(value).as_str());
            lines.push(line);
            proof {
                assert(lines_view(lines@) =~= start + seq![prefix@ + json_text(value@)]);
            }
        },
    }
}

/// A document with three dots in the place of the file index: the value of
/// the first member under `files` is replaced where the document is an
/// object that has one.
pub open spec fn without_files(doc: JsonView) -> JsonView {
    match doc {
        JsonView::Object(members) => if has_key(members, "files"@) {
            JsonView::Object(
                members.update(first_index(members, "files"@), ("files"@, JsonView::Text("..."@))),
            )
        } else {
            doc
        },
        _ => doc,
    }
}

/// The lines that show the metadata of an archive as a tree: whatever JSON
/// the metadata section holds, with the file index on demand. An archive
/// whose metadata section is empty gets one line that says so.
pub open spec fn metadata_lines(bytes: Seq<u8>, show_files: bool) -> Result<Seq<Seq<char>>, XpakError> {
    match metadata_end(bytes) {
        Err(e) => Err(XpakError::Format(e)),
        Ok(json_end) => if json_end == 8 {
            Ok(seq!["No metadata found"@])
        } else {
            match json_parsed(bytes.subrange(8, json_end)) {
                None => Err(XpakError::Metadata(MetadataError::InvalidJson)),
                Some(doc) => Ok(
                    tree_lines(
                        Seq::empty(),
                        if show_files {
                            doc
                        } else {
                            without_files(doc)
                        },
                    ),
                ),
            }
        },
    }
}

/// Puts three dots in the place of the file index.
pub fn hide_files(doc: JsonValue) -> (r: JsonValue)
    ensures
        r@ == without_files(doc@),
{
    match doc {
        JsonValue::Object(members) => {
            let mut members = members;
            let ghost before = members@;
            proof {
                lemma_members_view(members@);
            }
            match find_member(&members, "files") {
                Some(i) => {
                    proof {
                        lemma_first_index(members_view(members@), "files"@, i as int);
                    }
                    members.set(i, ("files".to_owned(), JsonValue::Text("...".to_owned())));
                    proof {
                        lemma_members_view(members@);
                        assert(members_view(members@) =~= members_view(before).update(
                            i as int,
                            ("files"@, JsonView::Text("..."@)),
                        ));
                    }
                    JsonValue::Object(members)
                },
                None => JsonValue::Object(members),
            }
        },
        other => other,
    }
}

/// Shows the metadata of an archive as a tree of lines, with the file index
/// where `show_files` is set and three dots in its place where it is not.
pub fn display_metadata(bytes: &[u8], show_files: bool) -> (r: Result<Vec<String>, XpakError>)
    ensures
        match r {
            Ok(lines) => metadata_lines(bytes@, show_files) == Ok::<Seq<Seq<char>>, XpakError>(
                lines_view(lines@),
            ),
            Err(e) => metadata_lines(bytes@, show_files) == Err::<Seq<Seq<char>>, XpakError>(e),
        },
{
    let json_end = match split_header(bytes) {
        Ok(end) => end,
        Err(e) => {
            return Err(XpakError::Format(e));
        },
    };
    let mut lines: Vec<String> = Vec::new();
    if json_end == 8 {
        lines.push("No metadata found".to_owned());
        proof {
            assert(lines_view(lines@) =~= seq!["No metadata found"@]);
        }
        return Ok(lines);
    }
    let doc = match parse_json(slice_subrange(bytes, 8, json_end)) {
        Some(doc) => doc,
        None => {
            return Err(XpakError::Metadata(MetadataError::InvalidJson));
        },
    };
    let shown = if show_files {
        doc
    } else {
        hide_files(doc)
    };
    proof {
        assert(lines_view(lines@) =~= Seq::<Seq<char>>::empty());
    }
    json_tree_lines(&mut lines, "", &shown);
    proof {
        reveal_strlit("");
        assert(""@ =~= Seq::<char>::empty());
        assert(Seq::<Seq<char>>::empty() + tree_lines(""@, shown@) =~= tree_lines(""@, shown@));
    }
    Ok(lines)
}

} // verus!
