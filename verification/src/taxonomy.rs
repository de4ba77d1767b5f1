//! The kits of the champions, read from the champion data of the ban-and-pick page.

use vstd::prelude::*;

use crate::scan::{json_string_field, parse_quoted_array, read_blocks, read_region};
#[allow(unused_imports)]
use crate::scan::{blocks_from, json_string, json_texts, region_after};
#[allow(unused_imports)]
use crate::tables::Kit;
use crate::tables::Taxon;
use crate::text::has_member;
use crate::textmap::TextMap;
#[allow(unused_imports)]
use crate::textmap::{lookup, put};

verus! {

/// The kinds of damage that a champion's raw tags name, `AD` where they name none.
pub open spec fn damage_of(raw: Seq<Seq<char>>) -> Seq<char> {
    if raw.contains("AD"@) && raw.contains("AP"@) {
        "AD|AP"@
    } else if raw.contains("AP"@) {
        "AP"@
    } else {
        "AD"@
    }
}

/// The kit that a champion's object says.
pub open spec fn kit_of(obj: Seq<char>) -> Kit {
    Kit {
        category: match json_string(obj, "category"@) {
            Some(c) => c,
            None => Seq::empty(),
        },
        damage: damage_of(json_texts(obj, "rawTags"@)),
        tags: json_texts(obj, "tags"@),
    }
}

/// The kits under the ids of some objects, a later one over an earlier one; an object
/// without an id says nothing.
pub open spec fn kits_of(objects: Seq<Seq<char>>) -> Seq<(Seq<char>, Kit)>
    decreases objects.len(),
{
    if objects.len() == 0 {
        Seq::empty()
    } else {
        let front = kits_of(objects.drop_last());
        match json_string(objects.last(), "id"@) {
            Some(id) => put(front, id, kit_of(objects.last())),
            None => front,
        }
    }
}

/// The objects of the array `champions` of a text.
pub open spec fn champion_objects(text: Seq<char>) -> Seq<Seq<char>> {
    match region_after(text, "\"champions\": ["@, '[', ']') {
        Some(a) => blocks_from(a, "{"@, 0),
        None => Seq::empty(),
    }
}

/// The kit that a champion's object says.
fn read_kit(obj: &str) -> (r: Taxon)
    ensures
        r.deep_view() == kit_of(obj@),
{
    let category = match json_string_field(obj, "category") {
        Some(c) => c,
        None => String::new(),
    };
    let tags = parse_quoted_array(obj, "tags");
    let raw = parse_quoted_array(obj, "rawTags");
    let damage = match (has_member(&raw, "AD"), has_member(&raw, "AP")) {
        (true, true) => "AD|AP",
        (true, false) => "AD",
        (false, true) => "AP",
        _ => "AD",
    };
    let r = Taxon { category, damage: damage.to_owned(), tags };
    assert(r.category@ == kit_of(obj@).category);
    r
}

/// The kits of the champions that a text says.
pub fn parse_taxonomy(text: &str) -> (r: TextMap<Taxon>)
    ensures
        r@ == kits_of(champion_objects(text@)),
{
    let mut r: TextMap<Taxon> = TextMap::new();
    proof {
        reveal_strlit("\"champions\": [");
    }
    match read_region(text, "\"champions\": [", '[', ']') {
        Some(a) => {
            let objects = read_blocks(a.as_str(), "{");
            let ghost all = champion_objects(text@);
            let mut i: usize = 0;
            assert(all.take(0) == Seq::<Seq<char>>::empty());
            while i < objects.len()
                invariant
                    i <= objects@.len(),
                    objects.deep_view() == all,
                    r@ == kits_of(all.take(i as int)),
                decreases objects@.len() - i,
            {
                assert(all[i as int] == objects@[i as int]@);
                assert(all.take(i + 1).drop_last() == all.take(i as int));
                let obj = objects[i].as_str();
                if let Some(id) = json_string_field(obj, "id") {
                    r.insert(id.as_str(), read_kit(obj));
                }
                i += 1;
            }
            assert(all.take(i as int) == all);
            r
        },
        None => r,
    }
}

/// The damage of a champion: a kind is in it where the raw tags name it, and physical damage
/// too where they name none.
pub proof fn law_damage(raw: Seq<Seq<char>>)
    ensures
        crate::text::has(damage_of(raw), "AP"@) <==> raw.contains("AP"@),
        crate::text::has(damage_of(raw), "AD"@) <==> raw.contains("AD"@) || !raw.contains("AP"@),
{
    reveal_strlit("AD");
    reveal_strlit("AP");
    reveal_strlit("AD|AP");
    let both = "AD|AP"@;
    let d = "AD"@;
    let p = "AP"@;
    assert(both.subrange(0, 2) =~= d);
    assert(both.subrange(3, 5) =~= p);
    assert(d.subrange(0, 2) =~= d);
    assert(p.subrange(0, 2) =~= p);
    assert(d[1] != p[1]);
    crate::text::lemma_first_at(both, d, 0);
    crate::text::lemma_first_at(both, p, 0);
    crate::text::lemma_first_at(d, d, 0);
    crate::text::lemma_first_at(d, p, 0);
    crate::text::lemma_first_at(p, d, 0);
    crate::text::lemma_first_at(p, p, 0);
    assert(crate::text::occurs_at(both, d, 0));
    assert(crate::text::occurs_at(both, p, 3));
    assert(crate::text::occurs_at(d, d, 0));
    assert(crate::text::occurs_at(p, p, 0));
}

/// A further object with an id says the kit under that id, over what was said before, and no
/// other; one without an id says nothing. The category, the tags and the raw tags of a kit are
/// those of its object.
pub proof fn law_kits(objects: Seq<Seq<char>>, obj: Seq<char>, other: Seq<char>)
    ensures
        kits_of(Seq::empty()).len() == 0,
        json_string(obj, "id"@) is None ==> kits_of(objects.push(obj)) == kits_of(objects),
        json_string(obj, "id"@) matches Some(id) ==> {
            &&& lookup(kits_of(objects.push(obj)), id) matches Some(k) && k.tags == json_texts(
                obj,
                "tags"@,
            ) && (json_string(obj, "category"@) matches Some(c) ==> k.category == c) && (
            json_string(obj, "category"@) is None ==> k.category.len() == 0) && k.damage
                == damage_of(json_texts(obj, "rawTags"@))
            &&& other != id ==> lookup(kits_of(objects.push(obj)), other) == lookup(
                kits_of(objects),
                other,
            )
        },
{
    assert(objects.push(obj).drop_last() =~= objects);
    if let Some(id) = json_string(obj, "id"@) {
        crate::textmap::law_lookup_put(kits_of(objects), id, kit_of(obj));
        if other != id {
            crate::textmap::law_lookup_put_other(kits_of(objects), id, kit_of(obj), other);
        }
    }
}

} // verus!
