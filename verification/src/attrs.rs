use vstd::prelude::*;
use vstd::string::StringExecFns;
use crate::event::Event;

verus! {

/// What one more presentation field gives an attribute: the value of the
/// field, a blank, and what the attribute held before.
pub fn merged_attribute(value: &str, current: &str) -> (merged: String)
    ensures
        merged@ == value@ + seq![' '] + current@,
{
    let mut merged = value.to_owned();
    proof {
        reveal_strlit(" ");
        assert(" "@ =~= seq![' ']);
    }
    merged.append(" ");
    merged.append(current);
    merged
}

/// Attributes by their texts: for each a key and a value.
pub open spec fn attrs_view(attrs: Seq<(String, String)>) -> Seq<(Seq<char>, Seq<char>)> {
    attrs.map_values(|pair: (String, String)| (pair.0@, pair.1@))
}

/// Whether `i` is the first place among `attrs` that has the key `key`.
pub open spec fn is_place(attrs: Seq<(Seq<char>, Seq<char>)>, key: Seq<char>, i: int) -> bool {
    &&& 0 <= i < attrs.len()
    &&& attrs[i].0 == key
    &&& forall|j: int| 0 <= j < i ==> (#[trigger] attrs[j]).0 != key
}

/// The attributes after one presentation field is merged onto them: where
/// the key has a value already, the value of the field goes before it, with a
/// blank between; else the key comes last, with the value of the field.
pub open spec fn merge_one(
    attrs: Seq<(Seq<char>, Seq<char>)>,
    key: Seq<char>,
    value: Seq<char>,
) -> Seq<(Seq<char>, Seq<char>)> {
    if exists|i: int| is_place(attrs, key, i) {
        let i = choose|i: int| is_place(attrs, key, i);
        attrs.update(i, (key, value + seq![' '] + attrs[i].1))
    } else {
        attrs.push((key, value))
    }
}

/// The attributes after the fields are merged onto them, one after the other.
pub open spec fn merge_all(
    attrs: Seq<(Seq<char>, Seq<char>)>,
    fields: Seq<(Seq<char>, Seq<char>)>,
) -> Seq<(Seq<char>, Seq<char>)>
    decreases fields.len(),
{
    if fields.len() == 0 {
        attrs
    } else {
        merge_one(merge_all(attrs, fields.drop_last()), fields.last().0, fields.last().1)
    }
}

/// Merges one presentation field onto the attributes of a shape.
pub fn merge_field(attrs: &mut Vec<(String, String)>, key: &str, value: &str)
    ensures
        attrs_view(final(attrs)@) == merge_one(attrs_view(old(attrs)@), key@, value@),
{
    let ghost before = attrs_view(attrs@);
    let name = key.to_owned();
    let mut i: usize = 0;
    while i < attrs.len() && attrs[i].0 != name
        invariant
            i <= attrs@.len(),
            name@ == key@,
            attrs_view(attrs@) == before,
            forall|j: int| 0 <= j < i ==> (#[trigger] before[j]).0 != key@,
        decreases attrs@.len() - i,
    {
        assert(before[i as int].0 == attrs@[i as int].0@);
        i += 1;
    }
    if i < attrs.len() {
        assert(before[i as int].0 == attrs@[i as int].0@);
        assert(before[i as int].1 == attrs@[i as int].1@);
        assert(is_place(before, key@, i as int));
        let ghost chosen = choose|c: int| is_place(before, key@, c);
        assert(chosen == i);
        let merged = merged_attribute(value, attrs[i].1.as_str());
        attrs.set(i, (name, merged));
        assert(attrs_view(attrs@) =~= before.update(
            i as int,
            (key@, value@ + seq![' '] + before[i as int].1),
        ));
    } else {
        assert(!exists|c: int| is_place(before, key@, c));
        attrs.push((name, value.to_owned()));
        assert(attrs_view(attrs@) =~= before.push((key@, value@)));
    }
}

/// Merges the presentation fields of an event onto the attributes of its
/// shape, one after the other.
pub fn merge_fields(attrs: Vec<(String, String)>, fields: &Vec<(String, String)>) -> (merged: Vec<
    (String, String),
>)
    ensures
        attrs_view(merged@) == merge_all(attrs_view(attrs@), attrs_view(fields@)),
{
    let mut merged = attrs;
    let mut j: usize = 0;
    proof {
        assert(attrs_view(fields@).take(0) =~= Seq::empty());
    }
    while j < fields.len()
        invariant
            j <= fields@.len(),
            attrs_view(merged@) == merge_all(attrs_view(attrs@), attrs_view(fields@).take(j as int)),
        decreases fields@.len() - j,
    {
        merge_field(&mut merged, fields[j].0.as_str(), fields[j].1.as_str());
        proof {
            let all = attrs_view(fields@);
            assert(all.take(j + 1).drop_last() =~= all.take(j as int));
            assert(all.take(j + 1).last() == (fields@[j as int].0@, fields@[j as int].1@));
        }
        j += 1;
    }
    proof {
        assert(attrs_view(fields@).take(j as int) =~= attrs_view(fields@));
    }
    merged
}

/// The attributes of the shape of `event`: what the shape has of its own,
/// with the presentation fields of the event merged onto it. The event stays
/// as it is.
pub fn span_attributes(own: Vec<(String, String)>, event: &Event) -> (merged: Vec<(String, String)>)
    ensures
        attrs_view(merged@) == merge_all(attrs_view(own@), attrs_view(event.fields@)),
{
    merge_fields(own, &event.fields)
}

/// A field whose key the shape does not set becomes an attribute with the
/// value of the field, unchanged.
pub proof fn lemma_fresh_field(attrs: Seq<(Seq<char>, Seq<char>)>, key: Seq<char>, value: Seq<char>)
    requires
        forall|i: int| 0 <= i < attrs.len() ==> (#[trigger] attrs[i]).0 != key,
    ensures
        merge_one(attrs, key, value) == attrs.push((key, value)),
        merge_all(attrs, seq![(key, value)]) == attrs.push((key, value)),
{
    let one = seq![(key, value)];
    assert(one.drop_last() =~= Seq::empty());
    assert(merge_all(attrs, one.drop_last()) == attrs);
}

/// A field whose key the shape sets already is joined with what the shape
/// has: the value of the field, a blank, and the value that was there.
pub proof fn lemma_known_field(
    attrs: Seq<(Seq<char>, Seq<char>)>,
    key: Seq<char>,
    value: Seq<char>,
    i: int,
)
    requires
        is_place(attrs, key, i),
    ensures
        merge_one(attrs, key, value) == attrs.update(i, (key, value + seq![' '] + attrs[i].1)),
{
    let c = choose|c: int| is_place(attrs, key, c);
    assert(c == i);
}

} // verus!
