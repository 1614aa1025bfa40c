//! The palette of a structure: the text of each block it is made of.
//!
//! A block's text is its name, followed by its properties in square brackets
//! where it has any. The properties come in order of their names, so that two
//! files that store them in different orders give the same text.

use vstd::prelude::*;
use quartz_nbt::{NbtCompound, NbtTag};
use crate::nbt::{all_fields, field, fields, held, items, list_items, node, Fields, Nbt, Node};
use crate::schematic::{assigned, spelled};
use crate::text::{
    joined, lemma_precedes_asymmetric, lemma_precedes_total, lemma_precedes_transitive, precedes,
    standing, Standing,
};

verus! {

/// Some names in order, none twice.
pub open spec fn ascending(names: Seq<Seq<char>>) -> bool {
    forall|i: int, j: int|
        0 <= i < j < names.len() ==> precedes(#[trigger] names[i], #[trigger] names[j])
}

/// The names of some fields, in order.
pub open spec fn is_key_order(names: Seq<Seq<char>>, data: Fields) -> bool {
    &&& ascending(names)
    &&& forall|name: Seq<char>| #[trigger] names.contains(name) <==> data.contains_key(name)
}

/// The names of some fields, in order.
pub open spec fn key_order(data: Fields) -> Seq<Seq<char>> {
    choose|names: Seq<Seq<char>>| is_key_order(names, data)
}

/// All fields hold text.
pub open spec fn all_text(data: Fields) -> bool {
    forall|name: Seq<char>| #[trigger] data.contains_key(name) ==> data[name] is Text
}

/// Properties as text, each a name and a value.
pub open spec fn assignments(names: Seq<Seq<char>>, data: Fields) -> Seq<Seq<char>> {
    Seq::new(names.len(), |i: int| names[i] + "="@ + data[names[i]]->Text_0)
}

/// A block's text.
pub open spec fn block_text(name: Seq<char>, properties: Fields) -> Seq<char> {
    if key_order(properties).len() == 0 {
        name
    } else {
        name + "["@ + joined(assignments(key_order(properties), properties), ","@) + "]"@
    }
}

/// The text of one palette entry; none where the entry is not one.
pub open spec fn entry_text(entry: Nbt) -> Option<Seq<char>> {
    match entry {
        Nbt::Compound(data) => if data.contains_key("Name"@) && data["Name"@] is Text {
            let name = data["Name"@]->Text_0;
            if data.contains_key("Properties"@) && data["Properties"@] is Compound {
                let properties = data["Properties"@]->Compound_0;
                if all_text(properties) {
                    Some(block_text(name, properties))
                } else {
                    None
                }
            } else {
                Some(name)
            }
        } else {
            None
        },
        _ => None,
    }
}

/// All of some entries are palette entries.
pub open spec fn all_entries(entries: Seq<Nbt>) -> bool {
    forall|i: int| 0 <= i < entries.len() ==> entry_text(#[trigger] entries[i]) is Some
}

/// The palette of a structure, if it has a sound one.
pub open spec fn palette(root: Fields) -> Option<Seq<Seq<char>>> {
    if root.contains_key("palette"@) && root["palette"@] is List {
        let entries = root["palette"@]->List_0;
        if all_entries(entries) {
            Some(Seq::new(entries.len(), |i: int| entry_text(entries[i])->0))
        } else {
            None
        }
    } else {
        None
    }
}

/// Some properties are those of a palette entry, in order of their names.
pub open spec fn are_properties(
    properties: Seq<(Seq<char>, Seq<char>)>,
    data: Fields,
) -> bool {
    &&& forall|i: int, j: int|
        0 <= i < j < properties.len() ==> precedes(
            (#[trigger] properties[i]).0,
            (#[trigger] properties[j]).0,
        )
    &&& forall|i: int|
        0 <= i < properties.len() ==> {
            &&& data.contains_key("Properties"@)
            &&& data["Properties"@] is Compound
            &&& data["Properties"@]->Compound_0.contains_key((#[trigger] properties[i]).0)
            &&& data["Properties"@]->Compound_0[properties[i].0] == Nbt::Text(properties[i].1)
        }
    &&& data.contains_key("Properties"@) && data["Properties"@] is Compound ==> forall|
        key: Seq<char>,
    | #[trigger]
        data["Properties"@]->Compound_0.contains_key(key) ==> exists|i: int|
            0 <= i < properties.len() && (#[trigger] properties[i]).0 == key
}

/// A text spells a palette entry: it is the text of the block that has the name and the
/// properties of the entry.
pub open spec fn is_spelling(text: Seq<char>, entry: Nbt) -> bool {
    &&& entry is Compound
    &&& entry->Compound_0.contains_key("Name"@)
    &&& entry->Compound_0["Name"@] is Text
    &&& exists|properties: Seq<(Seq<char>, Seq<char>)>|
        text == #[trigger] spelled((entry->Compound_0["Name"@]->Text_0, properties))
            && are_properties(properties, entry->Compound_0)
}

/// The palette of a structure spells its entries, each in its place.
pub open spec fn spells_palette(texts: Seq<Seq<char>>, root: Fields) -> bool {
    &&& root.contains_key("palette"@)
    &&& root["palette"@] is List
    &&& root["palette"@]->List_0.len() == texts.len()
    &&& forall|i: int|
        0 <= i < texts.len() ==> is_spelling(#[trigger] texts[i], root["palette"@]->List_0[i])
}

/// An entry is in order for a palette: it has a name, and all its properties are texts.
pub open spec fn is_palette_entry(entry: Nbt) -> bool {
    &&& entry is Compound
    &&& entry->Compound_0.contains_key("Name"@)
    &&& entry->Compound_0["Name"@] is Text
    &&& entry->Compound_0.contains_key("Properties"@)
        && entry->Compound_0["Properties"@] is Compound ==> forall|key: Seq<char>| #[trigger]
        entry->Compound_0["Properties"@]->Compound_0.contains_key(key)
            ==> entry->Compound_0["Properties"@]->Compound_0[key] is Text
}

/// A palette that is read spells the entries of the document's list one for one, in their
/// order; and it is read exactly where every entry is in order.
pub proof fn lemma_palette_spells_its_entries(root: &NbtCompound, r: Option<Vec<String>>)
    requires
        call_ensures(read_palette, (root,), r),
    ensures
        r matches Some(texts) ==> spells_palette(views(texts@), fields(*root)),
        r is Some <==> fields(*root).contains_key("palette"@) && fields(*root)["palette"@] is List
            && forall|i: int|
            0 <= i < fields(*root)["palette"@]->List_0.len() ==> is_palette_entry(
                #[trigger] fields(*root)["palette"@]->List_0[i],
            ),
{
    let data = fields(*root);
    if data.contains_key("palette"@) && data["palette"@] is List {
        let entries = data["palette"@]->List_0;
        assert forall|i: int| 0 <= i < entries.len() implies (entry_text(#[trigger] entries[i])
            is Some <==> is_palette_entry(entries[i])) by {}
    }
}

/// There is one order of some fields' names only, so a block's text goes by its
/// name and properties alone, in whatever order they were stored.
pub proof fn lemma_key_order_is_unique(a: Seq<Seq<char>>, b: Seq<Seq<char>>, data: Fields)
    requires
        is_key_order(a, data),
        is_key_order(b, data),
    ensures
        a == b,
{
    lemma_ascending_unique(a, b);
}

proof fn lemma_ascending_unique(a: Seq<Seq<char>>, b: Seq<Seq<char>>)
    requires
        ascending(a),
        ascending(b),
        forall|x: Seq<char>| a.contains(x) <==> b.contains(x),
    ensures
        a == b,
    decreases a.len(),
{
    if a.len() == 0 {
        if b.len() > 0 {
            assert(b.contains(b[0]));
        }
        assert(a =~= b);
    } else {
        assert(a.contains(a[0]));
        let k = choose|k: int| 0 <= k < b.len() && b[k] == a[0];
        assert(b.contains(b[0]));
        let l = choose|l: int| 0 <= l < a.len() && a[l] == b[0];
        if k > 0 {
            assert(precedes(b[0], b[k]));
            lemma_precedes_asymmetric(b[0], b[k]);
            if l > 0 {
                assert(precedes(a[0], a[l]));
            }
        }
        assert(a[0] == b[0]);
        let ra = a.drop_first();
        let rb = b.drop_first();
        lemma_rest_contained(a, b);
        lemma_rest_contained(b, a);
        assert(ascending(ra)) by {
            assert forall|i: int, j: int| 0 <= i < j < ra.len() implies precedes(
                #[trigger] ra[i],
                #[trigger] ra[j],
            ) by {
                assert(precedes(a[i + 1], a[j + 1]));
            }
        }
        assert(ascending(rb)) by {
            assert forall|i: int, j: int| 0 <= i < j < rb.len() implies precedes(
                #[trigger] rb[i],
                #[trigger] rb[j],
            ) by {
                assert(precedes(b[i + 1], b[j + 1]));
            }
        }
        lemma_ascending_unique(ra, rb);
        assert(a =~= seq![a[0]] + ra);
        assert(b =~= seq![b[0]] + rb);
    }
}

proof fn lemma_rest_contained(a: Seq<Seq<char>>, b: Seq<Seq<char>>)
    requires
        ascending(a),
        a.len() > 0,
        b.len() > 0,
        a[0] == b[0],
        forall|x: Seq<char>| a.contains(x) ==> b.contains(x),
    ensures
        forall|x: Seq<char>| a.drop_first().contains(x) ==> b.drop_first().contains(x),
{
    let ra = a.drop_first();
    let rb = b.drop_first();
    assert forall|x: Seq<char>| ra.contains(x) implies rb.contains(x) by {
        let i = choose|i: int| 0 <= i < ra.len() && ra[i] == x;
        assert(a[i + 1] == x);
        assert(a.contains(x));
        let j = choose|j: int| 0 <= j < b.len() && b[j] == x;
        assert(precedes(a[0], a[i + 1]));
        lemma_precedes_asymmetric(a[0], a[i + 1]);
        assert(j > 0);
        assert(rb[j - 1] == x);
    }
}

/// The names of some properties.
pub open spec fn names_of(properties: Seq<(&str, &str)>) -> Seq<Seq<char>> {
    Seq::new(properties.len(), |i: int| properties[i].0@)
}

/// Where a property belongs among properties that are in order and none of
/// which has its name.
fn place_of(sorted: &Vec<(&str, &str)>, name: &str) -> (r: usize)
    requires
        ascending(names_of(sorted@)),
        forall|i: int| 0 <= i < sorted@.len() ==> (#[trigger] sorted@[i]).0@ != name@,
    ensures
        r <= sorted@.len(),
        forall|i: int| 0 <= i < r ==> precedes((#[trigger] sorted@[i]).0@, name@),
        forall|i: int| r <= i < sorted@.len() ==> precedes(name@, (#[trigger] sorted@[i]).0@),
{
    let mut low: usize = 0;
    let mut high: usize = sorted.len();
    while low < high
        invariant
            low <= high <= sorted.len(),
            ascending(names_of(sorted@)),
            forall|i: int| 0 <= i < sorted@.len() ==> (#[trigger] sorted@[i]).0@ != name@,
            forall|i: int| 0 <= i < low ==> precedes((#[trigger] sorted@[i]).0@, name@),
            forall|i: int|
                high <= i < sorted@.len() ==> precedes(name@, (#[trigger] sorted@[i]).0@),
        decreases high - low,
    {
        let mid: usize = low + (high - low) / 2;
        let ghost names = names_of(sorted@);
        match standing(sorted[mid].0, name) {
            Standing::Before => {
                assert forall|i: int| 0 <= i <= mid implies precedes(
                    (#[trigger] sorted@[i]).0@,
                    name@,
                ) by {
                    if i < mid {
                        assert(precedes(names[i], names[mid as int]));
                        lemma_precedes_transitive(names[i], names[mid as int], name@);
                    }
                }
                low = mid + 1;
            },
            _ => {
                assert forall|i: int| mid <= i < sorted@.len() implies precedes(
                    name@,
                    (#[trigger] sorted@[i]).0@,
                ) by {
                    lemma_precedes_total(name@, sorted@[mid as int].0@);
                    if i > mid {
                        assert(precedes(names[mid as int], names[i]));
                        lemma_precedes_transitive(name@, names[mid as int], names[i]);
                    }
                }
                high = mid;
            },
        }
    }
    low
}

/// The names of some fields.
pub open spec fn field_names(listed: Seq<(&str, &NbtTag)>) -> Seq<Seq<char>> {
    Seq::new(listed.len(), |i: int| listed[i].0@)
}

/// Some properties sorted by name: those of the given names.
pub open spec fn is_sorted_part(
    sorted: Seq<(&str, &str)>,
    names: Seq<Seq<char>>,
    data: Fields,
) -> bool {
    &&& ascending(names_of(sorted))
    &&& forall|i: int|
        0 <= i < sorted.len() ==> data.contains_key((#[trigger] sorted[i]).0@) && data[sorted[i].0@]
            == Nbt::Text(sorted[i].1@)
    &&& forall|name: Seq<char>| #[trigger] names_of(sorted).contains(name) <==> names.contains(name)
}

proof fn lemma_insert_contains(s: Seq<Seq<char>>, slot: int, one: Seq<char>, x: Seq<char>)
    requires
        0 <= slot <= s.len(),
    ensures
        s.insert(slot, one).contains(x) <==> s.contains(x) || x == one,
        s.push(one).contains(x) <==> s.contains(x) || x == one,
{
    let t = s.insert(slot, one);
    if s.contains(x) {
        let i = choose|i: int| 0 <= i < s.len() && s[i] == x;
        let o = if i < slot { i } else { i + 1 };
        assert(t[o] == x);
        assert(s.push(one)[i] == x);
    }
    assert(t[slot] == one);
    assert(s.push(one)[s.len() as int] == one);
    if t.contains(x) && x != one {
        let i = choose|i: int| 0 <= i < t.len() && t[i] == x;
        let o = if i < slot { i } else { i - 1 };
        assert(s[o] == x);
    }
    if s.push(one).contains(x) && x != one {
        let i = choose|i: int| 0 <= i < s.push(one).len() && s.push(one)[i] == x;
        assert(s[i] == x);
    }
}

proof fn lemma_ascending_insert(names: Seq<Seq<char>>, slot: int, one: Seq<char>)
    requires
        ascending(names),
        0 <= slot <= names.len(),
        forall|i: int| 0 <= i < slot ==> precedes(#[trigger] names[i], one),
        forall|i: int| slot <= i < names.len() ==> precedes(one, #[trigger] names[i]),
    ensures
        ascending(names.insert(slot, one)),
{
    let after = names.insert(slot, one);
    assert forall|i: int, j: int| 0 <= i < j < after.len() implies precedes(
        #[trigger] after[i],
        #[trigger] after[j],
    ) by {
        let bi = if i < slot { i } else { i - 1 };
        let bj = if j < slot { j } else { j - 1 };
        if i != slot && j != slot {
            assert(precedes(names[bi], names[bj]));
        } else if i == slot {
            assert(names[bj] == after[j]);
        } else {
            assert(names[bi] == after[i]);
        }
    }
}

proof fn lemma_sorted_insert(
    sorted: Seq<(&str, &str)>,
    names: Seq<Seq<char>>,
    data: Fields,
    slot: int,
    one: (&str, &str),
)
    requires
        is_sorted_part(sorted, names, data),
        0 <= slot <= sorted.len(),
        data.contains_key(one.0@),
        data[one.0@] == Nbt::Text(one.1@),
        forall|i: int| 0 <= i < slot ==> precedes((#[trigger] sorted[i]).0@, one.0@),
        forall|i: int| slot <= i < sorted.len() ==> precedes(one.0@, (#[trigger] sorted[i]).0@),
    ensures
        is_sorted_part(sorted.insert(slot, one), names.push(one.0@), data),
{
    let after = sorted.insert(slot, one);
    let were = names_of(sorted);
    assert(names_of(after) =~= were.insert(slot, one.0@));
    assert forall|i: int| 0 <= i < slot implies precedes(#[trigger] were[i], one.0@) by {
        assert(were[i] == sorted[i].0@);
    }
    assert forall|i: int| slot <= i < were.len() implies precedes(one.0@, #[trigger] were[i]) by {
        assert(were[i] == sorted[i].0@);
    }
    lemma_ascending_insert(were, slot, one.0@);
    assert forall|name: Seq<char>| #[trigger] names_of(after).contains(name) <==> names.push(
        one.0@,
    ).contains(name) by {
        lemma_insert_contains(were, slot, one.0@, name);
        lemma_insert_contains(names, 0, one.0@, name);
        assert(were.contains(name) <==> names.contains(name));
    }
    assert forall|i: int| 0 <= i < after.len() implies data.contains_key((#[trigger] after[i]).0@)
        && data[after[i].0@] == Nbt::Text(after[i].1@) by {
        if i != slot {
            let b = if i < slot { i } else { i - 1 };
            assert(after[i] == sorted[b]);
        }
    }
}

/// The properties in a compound, sorted by name; none where one is not text.
fn sorted_properties<'a>(compound: &'a NbtCompound) -> (r: Option<Vec<(&'a str, &'a str)>>)
    ensures
        match r {
            Some(sorted) => all_text(fields(*compound)) && names_of(sorted@) == key_order(
                fields(*compound),
            ) && assignments(names_of(sorted@), fields(*compound)) == Seq::new(
                sorted@.len(),
                |i: int| sorted@[i].0@ + "="@ + sorted@[i].1@,
            ) && is_key_order(names_of(sorted@), fields(*compound)) && forall|i: int|
                0 <= i < sorted@.len() ==> fields(*compound).contains_key(
                    (#[trigger] sorted@[i]).0@,
                ) && fields(*compound)[sorted@[i].0@] == Nbt::Text(sorted@[i].1@),
            None => !all_text(fields(*compound)),
        },
{
    let listed = all_fields(compound);
    let ghost data = fields(*compound);
    let mut sorted: Vec<(&'a str, &'a str)> = Vec::new();
    let mut i: usize = 0;
    proof {
        assert(field_names(listed@).take(0) =~= names_of(sorted@));
    }
    while i < listed.len()
        invariant
            i <= listed.len(),
            data == fields(*compound),
            forall|k: int|
                0 <= k < listed@.len() ==> data.contains_key((#[trigger] listed@[k]).0@)
                    && data[listed@[k].0@] == held(*listed@[k].1),
            forall|k: int, l: int|
                0 <= k < l < listed@.len() ==> (#[trigger] listed@[k]).0@ != (#[trigger] listed@[l]).0@,
            is_sorted_part(sorted@, field_names(listed@).take(i as int), data),
        decreases listed.len() - i,
    {
        let (name, tag) = listed[i];
        match node(tag) {
            Node::Text(value) => {
                assert forall|k: int| 0 <= k < sorted@.len() implies (#[trigger] sorted@[k]).0@
                    != name@ by {
                    assert(names_of(sorted@)[k] == sorted@[k].0@);
                    assert(names_of(sorted@).contains(sorted@[k].0@));
                    let seen = field_names(listed@).take(i as int);
                    let l = choose|l: int| 0 <= l < seen.len() && seen[l] == sorted@[k].0@;
                    assert(listed@[l].0@ != listed@[i as int].0@);
                }
                let slot: usize = place_of(&sorted, name);
                proof {
                    let seen = field_names(listed@).take(i as int);
                    lemma_sorted_insert(sorted@, seen, data, slot as int, (name, value));
                    assert(field_names(listed@).take(i + 1) =~= seen.push(name@));
                }
                sorted.insert(slot, (name, value));
            },
            _ => {
                assert(data.contains_key(name@) && !(data[name@] is Text));
                return None;
            },
        }
        i = i + 1;
    }
    proof {
        let names = names_of(sorted@);
        assert(field_names(listed@).take(i as int) =~= field_names(listed@));
        assert forall|name: Seq<char>| #[trigger] names.contains(name) <==> data.contains_key(
            name,
        ) by {
            if names.contains(name) {
                let k = choose|k: int| 0 <= k < names.len() && names[k] == name;
                assert(sorted@[k].0@ == name);
            }
            if data.contains_key(name) {
                let l = choose|l: int| 0 <= l < listed@.len() && (#[trigger] listed@[l]).0@ == name;
                assert(field_names(listed@)[l] == name);
                assert(field_names(listed@).contains(name));
            }
        }
        assert(is_key_order(names, data));
        lemma_key_order_is_unique(names, key_order(data), data);
        assert forall|name: Seq<char>| #[trigger] data.contains_key(name) implies data[name] is Text by {
            assert(names.contains(name));
            let k = choose|k: int| 0 <= k < names.len() && names[k] == name;
            assert(sorted@[k].0@ == name);
        }
        assert(assignments(names, data) =~= Seq::new(
            sorted@.len(),
            |i: int| sorted@[i].0@ + "="@ + sorted@[i].1@,
        ));
    }
    Some(sorted)
}

/// A block's text, from its name and its properties in order.
fn make_block_text(name: &str, sorted: &Vec<(&str, &str)>) -> (r: String)
    ensures
        r@ == if sorted@.len() == 0 {
            name@
        } else {
            name@ + "["@ + joined(
                Seq::new(sorted@.len(), |i: int| sorted@[i].0@ + "="@ + sorted@[i].1@),
                ","@,
            ) + "]"@
        },
{
    let ghost parts = Seq::new(sorted@.len(), |i: int| sorted@[i].0@ + "="@ + sorted@[i].1@);
    let mut out = name.to_owned();
    if sorted.len() == 0 {
        return out;
    }
    out.append("[");
    let ghost start = out@;
    let mut i: usize = 0;
    while i < sorted.len()
        invariant
            i <= sorted.len(),
            parts == Seq::new(sorted@.len(), |i: int| sorted@[i].0@ + "="@ + sorted@[i].1@),
            out@ == start + joined(parts.take(i as int), ","@),
        decreases sorted.len() - i,
    {
        let ghost so_far = joined(parts.take(i as int), ","@);
        if i > 0 {
            out.append(",");
        }
        out.append(sorted[i].0);
        out.append("=");
        out.append(sorted[i].1);
        proof {
            let next = parts.take(i + 1);
            assert(next.drop_last() =~= parts.take(i as int));
            assert(next.last() == parts[i as int]);
            assert(parts.take(0) =~= Seq::empty());
            if i == 0 {
                assert(out@ =~= start + next[0]);
            } else {
                assert(out@ =~= start + (so_far + ","@ + parts[i as int]));
            }
        }
        i = i + 1;
    }
    assert(parts.take(i as int) =~= parts);
    out.append("]");
    assert(out@ =~= name@ + "["@ + joined(parts, ","@) + "]"@);
    out
}

/// The name of an entry without properties spells it.
proof fn lemma_bare_name_spells(entry: Nbt)
    requires
        entry is Compound,
        entry->Compound_0.contains_key("Name"@),
        entry->Compound_0["Name"@] is Text,
        !entry->Compound_0.contains_key("Properties"@) || !(entry->Compound_0["Properties"@] is Compound),
    ensures
        is_spelling(entry->Compound_0["Name"@]->Text_0, entry),
{
    let none: Seq<(Seq<char>, Seq<char>)> = Seq::empty();
    assert(spelled((entry->Compound_0["Name"@]->Text_0, none))
        == entry->Compound_0["Name"@]->Text_0);
    assert(are_properties(none, entry->Compound_0));
}

/// A name with the properties of an entry in order spells it.
proof fn lemma_text_spells(
    text: Seq<char>,
    entry: Nbt,
    data: Fields,
    sorted: Seq<(&str, &str)>,
)
    requires
        entry is Compound,
        entry->Compound_0.contains_key("Name"@),
        entry->Compound_0["Name"@] is Text,
        entry->Compound_0.contains_key("Properties"@),
        entry->Compound_0["Properties"@] == Nbt::Compound(data),
        is_key_order(names_of(sorted), data),
        forall|i: int|
            0 <= i < sorted.len() ==> data.contains_key((#[trigger] sorted[i]).0@)
                && data[sorted[i].0@] == Nbt::Text(sorted[i].1@),
        text == if sorted.len() == 0 {
            entry->Compound_0["Name"@]->Text_0
        } else {
            entry->Compound_0["Name"@]->Text_0 + "["@ + joined(
                Seq::new(sorted.len(), |i: int| sorted[i].0@ + "="@ + sorted[i].1@),
                ","@,
            ) + "]"@
        },
    ensures
        is_spelling(text, entry),
{
    let properties = Seq::new(sorted.len(), |i: int| (sorted[i].0@, sorted[i].1@));
    let name = entry->Compound_0["Name"@]->Text_0;
    assert(Seq::new(properties.len(), |i: int| assigned(properties[i])) =~= Seq::new(
        sorted.len(),
        |i: int| sorted[i].0@ + "="@ + sorted[i].1@,
    ));
    assert(text == spelled((name, properties)));
    let names = names_of(sorted);
    assert forall|i: int, j: int| 0 <= i < j < properties.len() implies precedes(
        (#[trigger] properties[i]).0,
        (#[trigger] properties[j]).0,
    ) by {
        assert(precedes(names[i], names[j]));
    }
    assert forall|i: int| 0 <= i < properties.len() implies data.contains_key(
        (#[trigger] properties[i]).0,
    ) && data[properties[i].0] == Nbt::Text(properties[i].1) by {
        assert(data.contains_key(sorted[i].0@));
    }
    assert forall|key: Seq<char>| #[trigger] data.contains_key(key) implies exists|i: int|
        0 <= i < properties.len() && (#[trigger] properties[i]).0 == key by {
        assert(names.contains(key));
        let i = choose|i: int| 0 <= i < names.len() && names[i] == key;
        assert(properties[i].0 == key);
    }
    assert(are_properties(properties, entry->Compound_0));
}

/// The text of one palette entry.
fn read_entry(entry: &NbtTag) -> (r: Option<String>)
    ensures
        match r {
            Some(text) => entry_text(held(*entry)) == Some(text@) && is_spelling(
                text@,
                held(*entry),
            ),
            None => entry_text(held(*entry)) is None,
        },
{
    let compound = match node(entry) {
        Node::Compound(compound) => compound,
        _ => {
            return None;
        },
    };
    let name = match field(compound, "Name") {
        Some(tag) => match node(tag) {
            Node::Text(name) => name,
            _ => {
                return None;
            },
        },
        None => {
            return None;
        },
    };
    match field(compound, "Properties") {
        Some(tag) => match node(tag) {
            Node::Compound(properties) => match sorted_properties(properties) {
                Some(sorted) => {
                    assert(key_order(fields(*properties)).len() == sorted@.len());
                    let text = make_block_text(name, &sorted);
                    proof {
                        lemma_text_spells(text@, held(*entry), fields(*properties), sorted@);
                    }
                    Some(text)
                },
                None => None,
            },
            _ => {
                proof {
                    lemma_bare_name_spells(held(*entry));
                }
                Some(name.to_owned())
            },
        },
        None => {
            proof {
                lemma_bare_name_spells(held(*entry));
            }
            Some(name.to_owned())
        },
    }
}

/// Some texts as sequences of characters.
pub open spec fn views(texts: Seq<String>) -> Seq<Seq<char>> {
    Seq::new(texts.len(), |i: int| texts[i]@)
}

/// The palette of a structure.
pub fn read_palette(root: &NbtCompound) -> (r: Option<Vec<String>>)
    ensures
        match r {
            Some(texts) => palette(fields(*root)) == Some(views(texts@)) && spells_palette(
                views(texts@),
                fields(*root),
            ),
            None => palette(fields(*root)) is None,
        },
{
    let list = match field(root, "palette") {
        Some(tag) => match node(tag) {
            Node::List(list) => list,
            _ => {
                return None;
            },
        },
        None => {
            return None;
        },
    };
    let entries = list_items(list);
    let ghost all = items(*list);
    assert(fields(*root)["palette"@] == Nbt::List(all));
    let mut texts: Vec<String> = Vec::new();
    let mut i: usize = 0;
    while i < entries.len()
        invariant
            i <= entries.len(),
            entries@.len() == all.len(),
            fields(*root).contains_key("palette"@),
            fields(*root)["palette"@] == Nbt::List(all),
            forall|k: int| 0 <= k < all.len() ==> held(#[trigger] entries@[k]) == all[k],
            texts@.len() == i,
            forall|k: int| 0 <= k < i ==> entry_text(#[trigger] all[k]) == Some(texts@[k]@),
            forall|k: int| 0 <= k < i ==> is_spelling((#[trigger] texts@[k])@, all[k]),
        decreases entries.len() - i,
    {
        match read_entry(&entries[i]) {
            Some(text) => {
                texts.push(text);
            },
            None => {
                assert(entry_text(all[i as int]) is None);
                assert(!all_entries(all));
                return None;
            },
        }
        i = i + 1;
    }
    assert(all_entries(all));
    assert(views(texts@) =~= Seq::new(all.len(), |i: int| entry_text(all[i])->0));
    Some(texts)
}

} // verus!
