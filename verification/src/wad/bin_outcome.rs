//! What strings a property file holds.

use super::bin::{
    after_strings, entries_at, entries_start, fields_at, fixed_size, items_at, links_end, object_at,
    row_at, strings_of, value_at, MAX_DEPTH,
};
use crate::bytes::{le16, le32};
use vstd::prelude::*;
use vstd::utf8::{decode_utf8, valid_utf8};

verus! {

/// Texts of several parts, one after the other.
pub open spec fn all_of(parts: Seq<Seq<Seq<char>>>) -> Seq<Seq<char>> {
    parts.flatten()
}

proof fn lemma_all_of(first: Seq<Seq<char>>, rest: Seq<Seq<Seq<char>>>)
    ensures
        all_of(seq![first] + rest) == first + all_of(rest),
{
    let parts = seq![first] + rest;
    assert(parts.drop_first() =~= rest);
    assert(parts.first() == first);
}

/// The strings of the value of the given type at each of the places but the last.
pub open spec fn strings_of_values(
    data: Seq<u8>,
    ty: u8,
    places: Seq<int>,
    depth: int,
) -> Seq<Seq<Seq<char>>> {
    Seq::new(
        (places.len() - 1) as nat,
        |i: int| value_at(data, ty, places[i], depth).strings,
    )
}

/// Whether values of the given type stand one behind the other, each reaching from
/// one place to the next.
pub open spec fn values_follow(data: Seq<u8>, ty: u8, places: Seq<int>, depth: int) -> bool {
    forall|i: int|
        0 <= i < places.len() - 1 ==> value_at(data, ty, #[trigger] places[i], depth).end == Some(
            places[i + 1],
        )
}

proof fn lemma_row_of_one(data: Seq<u8>, ty: u8, pos: int, depth: int)
    ensures
        row_at(data, seq![ty], pos, depth) == value_at(data, ty, pos, depth),
{
    let first = value_at(data, ty, pos, depth);
    assert(seq![ty].skip(1) =~= Seq::empty());
    assert(seq![ty][0] == ty);
    reveal_with_fuel(row_at, 2);
    assert(first.strings + Seq::<Seq<char>>::empty() =~= first.strings);
}

proof fn lemma_items_of_one(data: Seq<u8>, ty: u8, pos: int, count: int, depth: int) -> (places: Seq<
    int,
>)
    requires
        0 <= count,
        items_at(data, seq![ty], pos, count, depth).end is Some,
    ensures
        places.len() == count + 1,
        places[0] == pos,
        places[count] == items_at(data, seq![ty], pos, count, depth).end->0,
        values_follow(data, ty, places, depth),
        items_at(data, seq![ty], pos, count, depth).strings == all_of(
            strings_of_values(data, ty, places, depth),
        ),
    decreases count,
{
    if count == 0 {
        let places = seq![pos];
        assert(strings_of_values(data, ty, places, depth) =~= Seq::empty());
        places
    } else {
        lemma_row_of_one(data, ty, pos, depth);
        let first = value_at(data, ty, pos, depth);
        let next = first.end->0;
        let rest = lemma_items_of_one(data, ty, next, count - 1, depth);
        let places = seq![pos] + rest;
        assert forall|i: int| 0 <= i < places.len() - 1 implies value_at(
            data,
            ty,
            #[trigger] places[i],
            depth,
        ).end == Some(places[i + 1]) by {
            if i > 0 {
                assert(places[i] == rest[i - 1]);
                assert(places[i + 1] == rest[i]);
            } else {
                assert(places[1] == rest[0]);
            }
        }
        assert(strings_of_values(data, ty, places, depth) =~= seq![first.strings]
            + strings_of_values(data, ty, rest, depth)) by {
            assert forall|i: int| 1 <= i < count implies #[trigger] places[i] == rest[i - 1] by {}
        }
        lemma_all_of(first.strings, strings_of_values(data, ty, rest, depth));
        places
    }
}

/// A list that can be read holds as many items as it says, one behind the other,
/// and the strings of all of them, in order.
pub proof fn law_list_strings(data: Seq<u8>, ty: u8, pos: int, depth: int) -> (places: Seq<int>)
    requires
        ty == 0x80 || ty == 0x81,
        0 <= depth <= MAX_DEPTH,
        value_at(data, ty, pos, depth).end is Some,
        0 <= le32(data, pos + 5),
    ensures
        places.len() == le32(data, pos + 5) + 1,
        places[0] == pos + 9,
        values_follow(data, data[pos], places, depth + 1),
        value_at(data, ty, pos, depth).end == Some(places[le32(data, pos + 5)]),
        value_at(data, ty, pos, depth).strings == all_of(
            strings_of_values(data, data[pos], places, depth + 1),
        ),
{
    lemma_items_of_one(data, data[pos], pos + 9, le32(data, pos + 5), depth + 1)
}

/// The strings of the key and the value at each of the places but the last, where
/// `middles` are the places of the values.
pub open spec fn strings_of_pairs(
    data: Seq<u8>,
    key: u8,
    value: u8,
    places: Seq<int>,
    middles: Seq<int>,
    depth: int,
) -> Seq<Seq<Seq<char>>> {
    Seq::new(
        middles.len(),
        |i: int|
            value_at(data, key, places[i], depth).strings + value_at(
                data,
                value,
                middles[i],
                depth,
            ).strings,
    )
}

/// Whether pairs of a key and a value stand one behind the other.
pub open spec fn pairs_follow(
    data: Seq<u8>,
    key: u8,
    value: u8,
    places: Seq<int>,
    middles: Seq<int>,
    depth: int,
) -> bool {
    &&& places.len() == middles.len() + 1
    &&& forall|i: int|
        0 <= i < middles.len() ==> value_at(data, key, places[i], depth).end == Some(
            #[trigger] middles[i],
        ) && value_at(data, value, middles[i], depth).end == Some(places[i + 1])
}

proof fn lemma_row_of_two(data: Seq<u8>, a: u8, b: u8, pos: int, depth: int)
    ensures
        ({
            let row = row_at(data, seq![a, b], pos, depth);
            let first = value_at(data, a, pos, depth);
            &&& row.end is Some ==> first.end is Some
            &&& first.end is Some ==> row == after_strings(
                first.strings,
                value_at(data, b, first.end->0, depth),
            )
        }),
{
    assert(seq![a, b][0] == a);
    assert(seq![a, b].skip(1) =~= seq![b]);
    let first = value_at(data, a, pos, depth);
    if first.end is Some {
        lemma_row_of_one(data, b, first.end->0, depth);
    }
}

proof fn lemma_items_of_two(
    data: Seq<u8>,
    key: u8,
    value: u8,
    pos: int,
    count: int,
    depth: int,
) -> (r: (Seq<int>, Seq<int>))
    requires
        0 <= count,
        items_at(data, seq![key, value], pos, count, depth).end is Some,
    ensures
        r.1.len() == count,
        pairs_follow(data, key, value, r.0, r.1, depth),
        r.0[0] == pos,
        r.0[count] == items_at(data, seq![key, value], pos, count, depth).end->0,
        items_at(data, seq![key, value], pos, count, depth).strings == all_of(
            strings_of_pairs(data, key, value, r.0, r.1, depth),
        ),
    decreases count,
{
    if count == 0 {
        let places = seq![pos];
        let middles = Seq::<int>::empty();
        assert(strings_of_pairs(data, key, value, places, middles, depth) =~= Seq::empty());
        (places, middles)
    } else {
        lemma_row_of_two(data, key, value, pos, depth);
        let row = row_at(data, seq![key, value], pos, depth);
        let middle = value_at(data, key, pos, depth).end->0;
        let next = row.end->0;
        let (p, m) = lemma_items_of_two(data, key, value, next, count - 1, depth);
        let places = seq![pos] + p;
        let middles = seq![middle] + m;
        assert forall|i: int| 0 <= i < middles.len() implies value_at(
            data,
            key,
            places[i],
            depth,
        ).end == Some(#[trigger] middles[i]) && value_at(data, value, middles[i], depth).end == Some(
            places[i + 1],
        ) by {
            if i > 0 {
                assert(middles[i] == m[i - 1]);
                assert(places[i] == p[i - 1]);
                assert(places[i + 1] == p[i]);
            } else {
                assert(places[1] == p[0]);
            }
        }
        assert(strings_of_pairs(data, key, value, places, middles, depth) =~= seq![row.strings]
            + strings_of_pairs(data, key, value, p, m, depth)) by {
            assert forall|i: int| 1 <= i < count implies places[i] == p[i - 1]
                && #[trigger] middles[i] == m[i - 1] by {}
        }
        lemma_all_of(row.strings, strings_of_pairs(data, key, value, p, m, depth));
        (places, middles)
    }
}

/// A map that can be read holds as many pairs as it says, one behind the other, and
/// the strings of all keys and values, in order.
pub proof fn law_map_strings(data: Seq<u8>, pos: int, depth: int) -> (r: (Seq<int>, Seq<int>))
    requires
        0 <= depth <= MAX_DEPTH,
        value_at(data, 0x86, pos, depth).end is Some,
        0 <= le32(data, pos + 6),
    ensures
        r.1.len() == le32(data, pos + 6),
        pairs_follow(data, data[pos], data[pos + 1], r.0, r.1, depth + 1),
        r.0[0] == pos + 10,
        value_at(data, 0x86, pos, depth).end == Some(r.0[le32(data, pos + 6)]),
        value_at(data, 0x86, pos, depth).strings == all_of(
            strings_of_pairs(data, data[pos], data[pos + 1], r.0, r.1, depth + 1),
        ),
{
    lemma_items_of_two(
        data,
        data[pos],
        data[pos + 1],
        pos + 10,
        le32(data, pos + 6),
        depth + 1,
    )
}

/// The strings of the field at each of the places but the last.
pub open spec fn strings_of_fields(data: Seq<u8>, places: Seq<int>, depth: int) -> Seq<
    Seq<Seq<char>>,
> {
    Seq::new(
        (places.len() - 1) as nat,
        |i: int| value_at(data, data[places[i] + 4], places[i] + 5, depth).strings,
    )
}

/// Whether fields, each a name, a type and a value, stand one behind the other.
pub open spec fn fields_follow(data: Seq<u8>, places: Seq<int>, depth: int) -> bool {
    forall|i: int|
        0 <= i < places.len() - 1 ==> value_at(
            data,
            data[#[trigger] places[i] + 4],
            places[i] + 5,
            depth,
        ).end == Some(places[i + 1])
}

/// Fields that can be read are as many as are asked for, one behind the other, and
/// have the strings of all their values, in order.
pub proof fn law_field_strings(
    data: Seq<u8>,
    pos: int,
    count: int,
    depth: int,
) -> (places: Seq<int>)
    requires
        0 <= count,
        fields_at(data, pos, count, depth).end is Some,
    ensures
        places.len() == count + 1,
        places[0] == pos,
        places[count] == fields_at(data, pos, count, depth).end->0,
        fields_follow(data, places, depth),
        fields_at(data, pos, count, depth).strings == all_of(
            strings_of_fields(data, places, depth),
        ),
    decreases count,
{
    if count == 0 {
        let places = seq![pos];
        assert(strings_of_fields(data, places, depth) =~= Seq::empty());
        places
    } else {
        let first = value_at(data, data[pos + 4], pos + 5, depth);
        let next = first.end->0;
        let rest = law_field_strings(data, next, count - 1, depth);
        let places = seq![pos] + rest;
        assert forall|i: int| 0 <= i < places.len() - 1 implies value_at(
            data,
            data[#[trigger] places[i] + 4],
            places[i] + 5,
            depth,
        ).end == Some(places[i + 1]) by {
            if i > 0 {
                assert(places[i] == rest[i - 1]);
                assert(places[i + 1] == rest[i]);
            } else {
                assert(places[1] == rest[0]);
            }
        }
        assert(strings_of_fields(data, places, depth) =~= seq![first.strings] + strings_of_fields(
            data,
            rest,
            depth,
        )) by {
            assert forall|i: int| 1 <= i < count implies #[trigger] places[i] == rest[i - 1] by {}
        }
        lemma_all_of(first.strings, strings_of_fields(data, rest, depth));
        places
    }
}

/// Objects, embedded or pointed to, have the strings of their fields; a pointer to
/// nothing has none. An option has the strings of its value, where there is one.
pub proof fn law_object_strings(data: Seq<u8>, pos: int, depth: int)
    requires
        0 <= depth <= MAX_DEPTH,
        0 <= pos,
    ensures
        value_at(data, 0x83, pos, depth).end is Some ==> value_at(data, 0x83, pos, depth)
            == fields_at(data, pos + 10, le16(data, pos + 8), depth + 2),
        value_at(data, 0x82, pos, depth).end is Some && le32(data, pos) != 0 ==> value_at(
            data,
            0x82,
            pos,
            depth,
        ) == fields_at(data, pos + 10, le16(data, pos + 8), depth + 2),
        pos + 4 <= data.len() && le32(data, pos) == 0 ==> value_at(data, 0x82, pos, depth).end
            == Some(pos + 4) && value_at(data, 0x82, pos, depth).strings.len() == 0,
        pos + 2 <= data.len() && data[pos + 1] != 0 ==> value_at(data, 0x85, pos, depth)
            == value_at(data, data[pos], pos + 2, depth + 1),
        pos + 2 <= data.len() && data[pos + 1] == 0 ==> value_at(data, 0x85, pos, depth).end
            == Some(pos + 2) && value_at(data, 0x85, pos, depth).strings.len() == 0,
{
    let at = pos + 4;
    if at + 6 <= data.len() {
        assert(object_at(data, at, depth + 1) == fields_at(
            data,
            at + 6,
            le16(data, at + 4),
            depth + 1 + 1,
        ));
        assert(at + 6 == pos + 10 && at + 4 == pos + 8);
    }
    assert(pos + 4 <= data.len() ==> value_at(data, 0x83, pos, depth) == object_at(
        data,
        at,
        depth + 1,
    ));
    assert(pos + 4 <= data.len() && le32(data, pos) != 0 ==> value_at(data, 0x82, pos, depth)
        == object_at(data, at, depth + 1));
}

/// A string in the file is read, where it is whole and UTF-8.
pub proof fn law_string(data: Seq<u8>, pos: int, depth: int)
    requires
        0 <= depth <= MAX_DEPTH,
        0 <= pos,
        pos + 2 <= data.len(),
        pos + 2 + le16(data, pos) <= data.len(),
    ensures
        value_at(data, 0x10, pos, depth).end == Some(pos + 2 + le16(data, pos)),
        ({
            let bytes = data.subrange(pos + 2, pos + 2 + le16(data, pos));
            value_at(data, 0x10, pos, depth).strings == if valid_utf8(bytes) {
                seq![decode_utf8(bytes)]
            } else {
                Seq::empty()
            }
        }),
{
}

/// The strings of the entry at each of the places but the last.
pub open spec fn strings_of_entries(data: Seq<u8>, places: Seq<int>) -> Seq<Seq<Seq<char>>> {
    Seq::new(
        (places.len() - 1) as nat,
        |i: int| fields_at(data, places[i] + 10, le16(data, places[i] + 8), 0).strings,
    )
}

/// Whether entries, each a size, a class, a number of fields and the fields, stand
/// one behind the other.
pub open spec fn entries_follow(data: Seq<u8>, places: Seq<int>) -> bool {
    forall|i: int|
        0 <= i < places.len() - 1 ==> fields_at(
            data,
            #[trigger] places[i] + 10,
            le16(data, places[i] + 8),
            0,
        ).end == Some(places[i + 1])
}

proof fn lemma_entries(data: Seq<u8>, pos: int, count: int) -> (places: Seq<int>)
    requires
        0 <= count,
        entries_at(data, pos, count).end is Some,
    ensures
        places.len() == count + 1,
        places[0] == pos,
        places[count] == entries_at(data, pos, count).end->0,
        entries_follow(data, places),
        entries_at(data, pos, count).strings == all_of(strings_of_entries(data, places)),
    decreases count,
{
    if count == 0 {
        let places = seq![pos];
        assert(strings_of_entries(data, places) =~= Seq::empty());
        places
    } else {
        let first = fields_at(data, pos + 10, le16(data, pos + 8), 0);
        let next = first.end->0;
        let rest = lemma_entries(data, next, count - 1);
        let places = seq![pos] + rest;
        assert forall|i: int| 0 <= i < places.len() - 1 implies fields_at(
            data,
            #[trigger] places[i] + 10,
            le16(data, places[i] + 8),
            0,
        ).end == Some(places[i + 1]) by {
            if i > 0 {
                assert(places[i] == rest[i - 1]);
                assert(places[i + 1] == rest[i]);
            } else {
                assert(places[1] == rest[0]);
            }
        }
        assert(strings_of_entries(data, places) =~= seq![first.strings] + strings_of_entries(
            data,
            rest,
        )) by {
            assert forall|i: int| 1 <= i < count implies #[trigger] places[i] == rest[i - 1] by {}
        }
        lemma_all_of(first.strings, strings_of_entries(data, rest));
        places
    }
}

/// A property file that can be read to its end has the strings of all its entries,
/// as many as it declares, in order: entry `i` starts at `places[i]`.
pub proof fn law_file_strings(data: Seq<u8>, start: int) -> (places: Seq<int>)
    requires
        entries_start(data) == Some(start),
        0 <= start,
        start + 4 <= data.len(),
        start + 4 + 4 * le32(data, start) <= data.len(),
        0 <= le32(data, start),
        entries_at(data, start + 4 + 4 * le32(data, start), le32(data, start)).end is Some,
    ensures
        places.len() == le32(data, start) + 1,
        places[0] == start + 4 + 4 * le32(data, start),
        entries_follow(data, places),
        strings_of(data) == all_of(strings_of_entries(data, places)),
{
    lemma_entries(data, start + 4 + 4 * le32(data, start), le32(data, start))
}

/// Where a string is, among the strings of parts that follow each other, it is
/// among all of them.
pub proof fn law_parts_have_all(parts: Seq<Seq<Seq<char>>>, i: int, k: int)
    requires
        0 <= i < parts.len(),
        0 <= k < parts[i].len(),
    ensures
        all_of(parts).contains(parts[i][k]),
    decreases parts.len(),
{
    let first = parts.first();
    let rest = parts.drop_first();
    assert(all_of(parts) == first + all_of(rest));
    if i == 0 {
        assert(all_of(parts)[k] == parts[0][k]);
    } else {
        assert(rest[i - 1] == parts[i]);
        law_parts_have_all(rest, i - 1, k);
        let x = choose|x: int| 0 <= x < all_of(rest).len() && all_of(rest)[x] == parts[i][k];
        assert(all_of(parts)[first.len() + x] == parts[i][k]);
    }
}

/// Whether the strings that `places` point at follow each other, from the first place
/// to the last.
pub open spec fn links_follow(data: Seq<u8>, places: Seq<int>) -> bool {
    forall|i: int|
        0 <= i < places.len() - 1 ==> #[trigger] places[i] + 2 + le16(data, places[i])
            == places[i + 1] && places[i + 1] <= data.len()
}

/// The linked files of a property file are passed over one by one: where so many
/// strings follow each other, the entries start behind the last.
pub proof fn law_links(data: Seq<u8>, places: Seq<int>)
    requires
        places.len() > 0,
        0 <= places[0],
        links_follow(data, places),
    ensures
        links_end(data, places[0], places.len() - 1) == Some(places.last()),
        data.len() >= 12 && data.take(4) == seq![0x50u8, 0x52, 0x4F, 0x50] && le32(data, 4) >= 2
            && places[0] == 12 && le32(data, 8) == places.len() - 1 ==> entries_start(data) == Some(
            places.last(),
        ),
    decreases places.len(),
{
    if places.len() > 1 {
        let rest = places.drop_first();
        assert(places[0] + 2 + le16(data, places[0]) == places[1] && places[1] <= data.len());
        assert forall|i: int| 0 <= i < rest.len() - 1 implies #[trigger] rest[i] + 2 + le16(
            data,
            rest[i],
        ) == rest[i + 1] && rest[i + 1] <= data.len() by {
            assert(places[i + 1] + 2 + le16(data, places[i + 1]) == places[i + 2]);
        }
        law_links(data, rest);
        assert(rest[0] == places[1]);
        assert(rest.last() == places.last());
    }
}

/// The entries of a first version start right behind the header; without the magic
/// number there are no strings.
pub proof fn law_unlinked(data: Seq<u8>)
    ensures
        data.len() >= 8 && data.take(4) == seq![0x50u8, 0x52, 0x4F, 0x50] && le32(data, 4) < 2
            ==> entries_start(data) == Some(8int),
        data.len() < 8 || data.take(4) != seq![0x50u8, 0x52, 0x4F, 0x50] ==> strings_of(data).len()
            == 0,
{
}

/// Items that stand one behind the other are read to the end of the last.
pub proof fn law_items_read(data: Seq<u8>, ty: u8, places: Seq<int>, depth: int)
    requires
        places.len() > 0,
        values_follow(data, ty, places, depth),
    ensures
        items_at(data, seq![ty], places[0], places.len() - 1, depth).end == Some(places.last()),
    decreases places.len(),
{
    if places.len() > 1 {
        let rest = places.drop_first();
        assert(value_at(data, ty, places[0], depth).end == Some(places[1]));
        lemma_row_of_one(data, ty, places[0], depth);
        assert forall|i: int| 0 <= i < rest.len() - 1 implies value_at(
            data,
            ty,
            #[trigger] rest[i],
            depth,
        ).end == Some(rest[i + 1]) by {
            assert(rest[i] == places[i + 1]);
            assert(rest[i + 1] == places[i + 2]);
        }
        law_items_read(data, ty, rest, depth);
        assert(rest[0] == places[1]);
        assert(rest.last() == places.last());
    }
}

/// A list is read to its end where as many items as it says stand one behind the
/// other.
pub proof fn law_list_read(data: Seq<u8>, ty: u8, pos: int, places: Seq<int>, depth: int)
    requires
        ty == 0x80 || ty == 0x81,
        0 <= depth <= MAX_DEPTH,
        0 <= pos,
        pos + 9 <= data.len(),
        places.len() == le32(data, pos + 5) + 1,
        places.len() > 0,
        places[0] == pos + 9,
        values_follow(data, data[pos], places, depth + 1),
    ensures
        value_at(data, ty, pos, depth).end == Some(places.last()),
{
    law_items_read(data, data[pos], places, depth + 1);
}

/// Pairs that stand one behind the other are read to the end of the last.
pub proof fn law_pairs_read(
    data: Seq<u8>,
    key: u8,
    value: u8,
    places: Seq<int>,
    middles: Seq<int>,
    depth: int,
)
    requires
        pairs_follow(data, key, value, places, middles, depth),
    ensures
        items_at(data, seq![key, value], places[0], middles.len() as int, depth).end == Some(
            places.last(),
        ),
    decreases middles.len(),
{
    if middles.len() > 0 {
        let p = places.drop_first();
        let m = middles.drop_first();
        assert(value_at(data, key, places[0], depth).end == Some(middles[0]));
        lemma_row_of_two(data, key, value, places[0], depth);
        assert forall|i: int| 0 <= i < m.len() implies value_at(data, key, p[i], depth).end == Some(
            #[trigger] m[i],
        ) && value_at(data, value, m[i], depth).end == Some(p[i + 1]) by {
            assert(m[i] == middles[i + 1]);
            assert(p[i] == places[i + 1]);
            assert(p[i + 1] == places[i + 2]);
        }
        law_pairs_read(data, key, value, p, m, depth);
        assert(p[0] == places[1]);
        assert(p.last() == places.last());
    }
}

/// A map is read to its end where as many pairs as it says stand one behind the other.
pub proof fn law_map_read(
    data: Seq<u8>,
    pos: int,
    places: Seq<int>,
    middles: Seq<int>,
    depth: int,
)
    requires
        0 <= depth <= MAX_DEPTH,
        0 <= pos,
        pos + 10 <= data.len(),
        middles.len() == le32(data, pos + 6),
        pairs_follow(data, data[pos], data[pos + 1], places, middles, depth + 1),
        places[0] == pos + 10,
    ensures
        value_at(data, 0x86, pos, depth).end == Some(places.last()),
{
    law_pairs_read(data, data[pos], data[pos + 1], places, middles, depth + 1);
}

/// Fields that stand one behind the other, in the file, are read to the end of the
/// last.
pub proof fn law_fields_read(data: Seq<u8>, places: Seq<int>, depth: int)
    requires
        places.len() > 0,
        fields_follow(data, places, depth),
        forall|i: int| 0 <= i < places.len() - 1 ==> #[trigger] places[i] + 5 <= data.len(),
    ensures
        fields_at(data, places[0], places.len() - 1, depth).end == Some(places.last()),
    decreases places.len(),
{
    if places.len() > 1 {
        let rest = places.drop_first();
        assert(value_at(data, data[places[0] + 4], places[0] + 5, depth).end == Some(places[1]));
        assert forall|i: int| 0 <= i < rest.len() - 1 implies #[trigger] rest[i] + 5 <= data.len()
            && value_at(data, data[rest[i] + 4], rest[i] + 5, depth).end == Some(rest[i + 1]) by {
            assert(places[i + 1] + 5 <= data.len());
            assert(rest[i] == places[i + 1]);
            assert(rest[i + 1] == places[i + 2]);
        }
        law_fields_read(data, rest, depth);
        assert(rest[0] == places[1]);
        assert(rest.last() == places.last());
    }
}

/// An object in the file, embedded or pointed to, is read where its fields are.
pub proof fn law_object_read(data: Seq<u8>, pos: int, depth: int)
    requires
        0 <= depth <= MAX_DEPTH,
        0 <= pos,
        pos + 10 <= data.len(),
    ensures
        value_at(data, 0x83, pos, depth) == fields_at(
            data,
            pos + 10,
            le16(data, pos + 8),
            depth + 2,
        ),
        le32(data, pos) != 0 ==> value_at(data, 0x82, pos, depth) == fields_at(
            data,
            pos + 10,
            le16(data, pos + 8),
            depth + 2,
        ),
{
    assert(object_at(data, pos + 4, depth + 1) == fields_at(
        data,
        pos + 10,
        le16(data, pos + 8),
        depth + 2,
    )) by {
        assert(pos + 4 + 6 == pos + 10 && pos + 4 + 4 == pos + 8);
    }
}

/// Entries that stand one behind the other, in the file, are read to the end of the
/// last.
pub proof fn law_entries_read(data: Seq<u8>, places: Seq<int>)
    requires
        places.len() > 0,
        entries_follow(data, places),
        forall|i: int| 0 <= i < places.len() - 1 ==> #[trigger] places[i] + 10 <= data.len(),
    ensures
        entries_at(data, places[0], places.len() - 1).end == Some(places.last()),
    decreases places.len(),
{
    if places.len() > 1 {
        let rest = places.drop_first();
        assert(fields_at(data, places[0] + 10, le16(data, places[0] + 8), 0).end == Some(
            places[1],
        ));
        assert forall|i: int| 0 <= i < rest.len() - 1 implies #[trigger] rest[i] + 10 <= data.len()
            && fields_at(data, rest[i] + 10, le16(data, rest[i] + 8), 0).end == Some(
            rest[i + 1],
        ) by {
            assert(places[i + 1] + 10 <= data.len());
            assert(rest[i] == places[i + 1]);
            assert(rest[i + 1] == places[i + 2]);
        }
        law_entries_read(data, rest);
        assert(rest[0] == places[1]);
        assert(rest.last() == places.last());
    }
}

/// What values of a fixed size take up: integers as many bytes as they have; vectors
/// and matrices so many numbers; colours four bytes; hashes, and links by them, as
/// much as a number of 32 bits; file references as much as one of 64; flags as much
/// as a boolean.
pub proof fn law_value_sizes(data: Seq<u8>, ty: u8, pos: int, depth: int)
    requires
        0 <= pos,
        0 <= depth <= MAX_DEPTH,
    ensures
        fixed_size(0x00) == Some(0int),
        fixed_size(0x01) == Some(1int) && fixed_size(0x87) == fixed_size(0x01),
        fixed_size(0x02) == Some(1int) && fixed_size(0x03) == Some(1int),
        fixed_size(0x04) == Some(2int) && fixed_size(0x05) == Some(2int),
        fixed_size(0x06) == Some(4int) && fixed_size(0x07) == Some(4int),
        fixed_size(0x08) == Some(8int) && fixed_size(0x09) == Some(8int),
        fixed_size(0x0A) == fixed_size(0x07),
        fixed_size(0x0B) == Some(2 * fixed_size(0x0A)->0),
        fixed_size(0x0C) == Some(3 * fixed_size(0x0A)->0),
        fixed_size(0x0D) == Some(4 * fixed_size(0x0A)->0),
        fixed_size(0x0E) == Some(16 * fixed_size(0x0A)->0),
        fixed_size(0x0F) == Some(4 * fixed_size(0x02)->0),
        fixed_size(0x11) == fixed_size(0x07) && fixed_size(0x84) == fixed_size(0x11),
        fixed_size(0x12) == fixed_size(0x09),
        fixed_size(ty) is Some && pos + fixed_size(ty)->0 <= data.len() ==> value_at(
            data,
            ty,
            pos,
            depth,
        ).end == Some(pos + fixed_size(ty)->0) && value_at(data, ty, pos, depth).strings.len()
            == 0,
{
}

} // verus!
