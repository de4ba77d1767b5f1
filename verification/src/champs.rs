//! The champions: their ids, their Korean names, and how the names are found.

use vstd::prelude::*;

use crate::text::same_text;

verus! {

/// How many champions there are.
pub const CHAMP_COUNT: usize = 60;

/// Id and Korean name of every champion, in the order of the game's champion list.
pub const CHAMPS: [(&'static str, &'static str); 60] = [
    ("vampire", "흡혈귀"),
    ("monk", "몽크"),
    ("circus_blade", "곡예사"),
    ("android", "안드로이드"),
    ("inquisitor", "이단심문관"),
    ("lancer", "창술사"),
    ("ninja", "닌자"),
    ("fighter", "격투가"),
    ("ice_mage", "얼음술사"),
    ("wind_mage", "바람술사"),
    ("exorcist", "엑소시스트"),
    ("ghost", "유령"),
    ("pole_warrior", "봉술사"),
    ("dual_blader", "듀얼 블레이더"),
    ("demon", "악마"),
    ("swordman", "검사"),
    ("white_mage", "백마술사"),
    ("shadowmancer", "그림자술사"),
    ("pythoness", "무녀"),
    ("hunter", "사냥꾼"),
    ("jiangshi", "강시"),
    ("guardian_spirit", "수호령"),
    ("druid", "드루이드"),
    ("siege_breaker", "공성병"),
    ("knight", "기사"),
    ("werewolf", "늑대인간"),
    ("dark_mage", "흑마술사"),
    ("magic_knight", "마검사"),
    ("illusionist", "환영술사"),
    ("berserker", "광전사"),
    ("pyromancer", "화염술사"),
    ("bomber", "폭탄병"),
    ("necromancer", "네크로맨서"),
    ("priest", "성직자"),
    ("lightning_mage", "번개술사"),
    ("prisoner", "죄수"),
    ("dokkaebi", "도깨비"),
    ("executioner", "처형인"),
    ("barrier_magician", "결계사"),
    ("shield_bearer", "방패병"),
    ("archer", "궁수"),
    ("gambler", "도박사"),
    ("whip_master", "채찍술사"),
    ("hitman", "히트맨"),
    ("chef", "요리사"),
    ("spirit_caller", "정령사"),
    ("taoist", "도사"),
    ("gunner", "총잡이"),
    ("hammerer", "중보병"),
    ("clown", "광대"),
    ("cavalry_knight", "기병"),
    ("enchanter", "인챈터"),
    ("soldier", "소총수"),
    ("plague_doctor", "역병의사"),
    ("dancer", "무희"),
    ("boomerang_hunter", "부메랑 헌터"),
    ("voodoo_shaman", "부두술사"),
    ("poison_dart_hunter", "독침술사"),
    ("bard", "음유시인"),
    ("ogre", "오우거"),
];

/// The id of the champion at place `i`.
pub open spec fn champ_id(i: int) -> Seq<char> {
    CHAMPS@[i].0@
}

/// The Korean name of the champion at place `i`.
pub open spec fn champ_ko(i: int) -> Seq<char> {
    CHAMPS@[i].1@
}

/// The first place, not before `from`, whose champion has the id `id`.
pub open spec fn place_from(id: Seq<char>, from: int) -> Option<int>
    decreases CHAMP_COUNT - from,
{
    if from < 0 || from >= CHAMP_COUNT {
        None
    } else if champ_id(from) == id {
        Some(from)
    } else {
        place_from(id, from + 1)
    }
}

/// The place of the champion with the id `id`.
pub open spec fn place_of(id: Seq<char>) -> Option<int> {
    place_from(id, 0)
}

/// The Korean name of the champion with the id `id`; an unknown id is its own name.
pub open spec fn ko_of(id: Seq<char>) -> Seq<char> {
    match place_of(id) {
        Some(i) => champ_ko(i),
        None => id,
    }
}

/// The place of the champion with the id `id`.
pub fn champ_place(id: &str) -> (r: Option<usize>)
    ensures
        match r {
            Some(i) => place_of(id@) == Some(i as int) && i < CHAMP_COUNT && champ_id(i as int) == id@,
            None => place_of(id@) is None,
        },
{
    let mut i: usize = 0;
    while i < CHAMP_COUNT
        invariant
            i <= CHAMP_COUNT,
            place_of(id@) == place_from(id@, i as int),
        decreases CHAMP_COUNT - i,
    {
        if same_text(CHAMPS[i].0, id) {
            return Some(i);
        }
        i += 1;
    }
    None
}

/// The Korean name of the champion with the id `id`, or `id` itself where it is unknown.
pub fn ko_name(id: &str) -> (r: String)
    ensures
        r@ == ko_of(id@),
{
    match champ_place(id) {
        Some(i) => CHAMPS[i].1.to_owned(),
        None => id.to_owned(),
    }
}

/// Whether a text begins with a letter of the ids.
spec fn begins_small(s: Seq<char>) -> bool {
    s.len() > 0 && 'a' <= s[0] <= 'z'
}

proof fn lemma_ids_begin_small()
    ensures
        forall|i: int| 0 <= i < CHAMP_COUNT ==> begins_small(#[trigger] champ_id(i)),
{
    reveal_strlit("vampire");
    reveal_strlit("monk");
    reveal_strlit("circus_blade");
    reveal_strlit("android");
    reveal_strlit("inquisitor");
    reveal_strlit("lancer");
    reveal_strlit("ninja");
    reveal_strlit("fighter");
    reveal_strlit("ice_mage");
    reveal_strlit("wind_mage");
    reveal_strlit("exorcist");
    reveal_strlit("ghost");
    reveal_strlit("pole_warrior");
    reveal_strlit("dual_blader");
    reveal_strlit("demon");
    reveal_strlit("swordman");
    reveal_strlit("white_mage");
    reveal_strlit("shadowmancer");
    reveal_strlit("pythoness");
    reveal_strlit("hunter");
    reveal_strlit("jiangshi");
    reveal_strlit("guardian_spirit");
    reveal_strlit("druid");
    reveal_strlit("siege_breaker");
    reveal_strlit("knight");
    reveal_strlit("werewolf");
    reveal_strlit("dark_mage");
    reveal_strlit("magic_knight");
    reveal_strlit("illusionist");
    reveal_strlit("berserker");
    reveal_strlit("pyromancer");
    reveal_strlit("bomber");
    reveal_strlit("necromancer");
    reveal_strlit("priest");
    reveal_strlit("lightning_mage");
    reveal_strlit("prisoner");
    reveal_strlit("dokkaebi");
    reveal_strlit("executioner");
    reveal_strlit("barrier_magician");
    reveal_strlit("shield_bearer");
    reveal_strlit("archer");
    reveal_strlit("gambler");
    reveal_strlit("whip_master");
    reveal_strlit("hitman");
    reveal_strlit("chef");
    reveal_strlit("spirit_caller");
    reveal_strlit("taoist");
    reveal_strlit("gunner");
    reveal_strlit("hammerer");
    reveal_strlit("clown");
    reveal_strlit("cavalry_knight");
    reveal_strlit("enchanter");
    reveal_strlit("soldier");
    reveal_strlit("plague_doctor");
    reveal_strlit("dancer");
    reveal_strlit("boomerang_hunter");
    reveal_strlit("voodoo_shaman");
    reveal_strlit("poison_dart_hunter");
    reveal_strlit("bard");
    reveal_strlit("ogre");
}

proof fn lemma_names_begin_otherwise()
    ensures
        forall|i: int| 0 <= i < CHAMP_COUNT ==> !begins_small(#[trigger] champ_ko(i)),
{
    reveal_strlit("흡혈귀");
    reveal_strlit("몽크");
    reveal_strlit("곡예사");
    reveal_strlit("안드로이드");
    reveal_strlit("이단심문관");
    reveal_strlit("창술사");
    reveal_strlit("닌자");
    reveal_strlit("격투가");
    reveal_strlit("얼음술사");
    reveal_strlit("바람술사");
    reveal_strlit("엑소시스트");
    reveal_strlit("유령");
    reveal_strlit("봉술사");
    reveal_strlit("듀얼 블레이더");
    reveal_strlit("악마");
    reveal_strlit("검사");
    reveal_strlit("백마술사");
    reveal_strlit("그림자술사");
    reveal_strlit("무녀");
    reveal_strlit("사냥꾼");
    reveal_strlit("강시");
    reveal_strlit("수호령");
    reveal_strlit("드루이드");
    reveal_strlit("공성병");
    reveal_strlit("기사");
    reveal_strlit("늑대인간");
    reveal_strlit("흑마술사");
    reveal_strlit("마검사");
    reveal_strlit("환영술사");
    reveal_strlit("광전사");
    reveal_strlit("화염술사");
    reveal_strlit("폭탄병");
    reveal_strlit("네크로맨서");
    reveal_strlit("성직자");
    reveal_strlit("번개술사");
    reveal_strlit("죄수");
    reveal_strlit("도깨비");
    reveal_strlit("처형인");
    reveal_strlit("결계사");
    reveal_strlit("방패병");
    reveal_strlit("궁수");
    reveal_strlit("도박사");
    reveal_strlit("채찍술사");
    reveal_strlit("히트맨");
    reveal_strlit("요리사");
    reveal_strlit("정령사");
    reveal_strlit("도사");
    reveal_strlit("총잡이");
    reveal_strlit("중보병");
    reveal_strlit("광대");
    reveal_strlit("기병");
    reveal_strlit("인챈터");
    reveal_strlit("소총수");
    reveal_strlit("역병의사");
    reveal_strlit("무희");
    reveal_strlit("부메랑 헌터");
    reveal_strlit("부두술사");
    reveal_strlit("독침술사");
    reveal_strlit("음유시인");
    reveal_strlit("오우거");
}

/// A number that tells the ids apart: of their lengths and their first two characters.
spec fn id_code(s: Seq<char>) -> int {
    s.len() + 32 * (s[0] as int) + 8192 * (s[1] as int)
}

proof fn lemma_id_codes_differ()
    ensures
        forall|i: int, j: int|
            0 <= i < j < CHAMP_COUNT ==> id_code(#[trigger] champ_id(i)) != id_code(
                #[trigger] champ_id(j),
            ),
{
    reveal_strlit("vampire");
    reveal_strlit("monk");
    reveal_strlit("circus_blade");
    reveal_strlit("android");
    reveal_strlit("inquisitor");
    reveal_strlit("lancer");
    reveal_strlit("ninja");
    reveal_strlit("fighter");
    reveal_strlit("ice_mage");
    reveal_strlit("wind_mage");
    reveal_strlit("exorcist");
    reveal_strlit("ghost");
    reveal_strlit("pole_warrior");
    reveal_strlit("dual_blader");
    reveal_strlit("demon");
    reveal_strlit("swordman");
    reveal_strlit("white_mage");
    reveal_strlit("shadowmancer");
    reveal_strlit("pythoness");
    reveal_strlit("hunter");
    reveal_strlit("jiangshi");
    reveal_strlit("guardian_spirit");
    reveal_strlit("druid");
    reveal_strlit("siege_breaker");
    reveal_strlit("knight");
    reveal_strlit("werewolf");
    reveal_strlit("dark_mage");
    reveal_strlit("magic_knight");
    reveal_strlit("illusionist");
    reveal_strlit("berserker");
    reveal_strlit("pyromancer");
    reveal_strlit("bomber");
    reveal_strlit("necromancer");
    reveal_strlit("priest");
    reveal_strlit("lightning_mage");
    reveal_strlit("prisoner");
    reveal_strlit("dokkaebi");
    reveal_strlit("executioner");
    reveal_strlit("barrier_magician");
    reveal_strlit("shield_bearer");
    reveal_strlit("archer");
    reveal_strlit("gambler");
    reveal_strlit("whip_master");
    reveal_strlit("hitman");
    reveal_strlit("chef");
    reveal_strlit("spirit_caller");
    reveal_strlit("taoist");
    reveal_strlit("gunner");
    reveal_strlit("hammerer");
    reveal_strlit("clown");
    reveal_strlit("cavalry_knight");
    reveal_strlit("enchanter");
    reveal_strlit("soldier");
    reveal_strlit("plague_doctor");
    reveal_strlit("dancer");
    reveal_strlit("boomerang_hunter");
    reveal_strlit("voodoo_shaman");
    reveal_strlit("poison_dart_hunter");
    reveal_strlit("bard");
    reveal_strlit("ogre");
}

proof fn lemma_place_from(id: Seq<char>, from: int)
    requires
        0 <= from <= CHAMP_COUNT,
    ensures
        match place_from(id, from) {
            Some(i) => from <= i < CHAMP_COUNT && champ_id(i) == id && forall|j: int|
                from <= j < i ==> #[trigger] champ_id(j) != id,
            None => forall|j: int| from <= j < CHAMP_COUNT ==> #[trigger] champ_id(j) != id,
        },
    decreases CHAMP_COUNT - from,
{
    if from < CHAMP_COUNT && champ_id(from) != id {
        lemma_place_from(id, from + 1);
    }
}

/// No two champions have the same id, so each is found under its own.
pub proof fn law_ids_differ(i: int)
    requires
        0 <= i < CHAMP_COUNT,
    ensures
        place_of(champ_id(i)) == Some(i),
        ko_of(champ_id(i)) == champ_ko(i),
{
    lemma_place_from(champ_id(i), 0);
    lemma_id_codes_differ();
}

/// A champion's id gives its name, any other text is its own name, and to name a name changes
/// nothing.
pub proof fn law_named_once(id: Seq<char>)
    ensures
        match place_of(id) {
            Some(i) => 0 <= i < CHAMP_COUNT && champ_id(i) == id && ko_of(id) == champ_ko(i),
            None => ko_of(id) == id && forall|i: int|
                0 <= i < CHAMP_COUNT ==> #[trigger] champ_id(i) != id,
        },
        ko_of(ko_of(id)) == ko_of(id),
{
    lemma_place_from(id, 0);
    if let Some(i) = place_of(id) {
        let ko = champ_ko(i);
        lemma_place_from(ko, 0);
        lemma_ids_begin_small();
        lemma_names_begin_otherwise();
        assert(!begins_small(champ_ko(i)));
        if let Some(j) = place_of(ko) {
            assert(begins_small(champ_id(j)));
        }
    }
}

/// The Korean names of the champions with the ids of `ids`.
pub open spec fn ko_all(ids: Seq<Seq<char>>) -> Seq<Seq<char>> {
    ids.map_values(|id: Seq<char>| ko_of(id))
}

/// The Korean names of the champions with the ids of `ids`.
pub fn ko_names(ids: &Vec<String>) -> (r: Vec<String>)
    ensures
        r.deep_view() == ko_all(ids.deep_view()),
{
    let mut r: Vec<String> = Vec::new();
    let mut i: usize = 0;
    while i < ids.len()
        invariant
            i <= ids@.len(),
            r@.len() == i,
            forall|j: int| 0 <= j < i ==> #[trigger] r@[j]@ == ko_of(ids@[j]@),
        decreases ids@.len() - i,
    {
        r.push(ko_name(ids[i].as_str()));
        i += 1;
    }
    assert(r.deep_view() =~= ko_all(ids.deep_view()));
    r
}

/// The base group of each of the nineteen leading consonants of Hangul; a tense consonant
/// belongs to the group of its plain one.
pub const BASE_GROUP: [u8; 19] = [0, 0, 1, 2, 2, 3, 4, 5, 5, 6, 6, 7, 8, 8, 9, 10, 11, 12, 13];

/// The leading consonants that name the fourteen groups.
pub const CHOSUNG: [&'static str; 14] = [
    "ㄱ", "ㄴ", "ㄷ", "ㄹ", "ㅁ", "ㅂ", "ㅅ", "ㅇ", "ㅈ", "ㅊ", "ㅋ", "ㅌ", "ㅍ", "ㅎ",
];

/// The group of the leading consonant of a name: that of its first character, where it is a
/// Hangul syllable. Each leading consonant has 588 syllables.
pub open spec fn group_of(name: Seq<char>) -> Option<u8> {
    if name.len() > 0 && 0xAC00 <= name[0] as int <= 0xD7A3 {
        Some(BASE_GROUP@[(name[0] as int - 0xAC00) / 588])
    } else {
        None
    }
}

/// The group of the leading consonant of a Korean name's first syllable.
pub fn chosung_group(name: &str) -> (r: Option<u8>)
    ensures
        r == group_of(name@),
{
    let c = crate::text::chars_of(name);
    if c.len() == 0 {
        return None;
    }
    if c[0] < '\u{AC00}' || c[0] > '\u{D7A3}' {
        return None;
    }
    let s: u32 = c[0] as u32;
    Some(BASE_GROUP[((s - 0xAC00) / 588) as usize])
}

/// A name belongs to a group by its first character alone, where that is a Hangul syllable,
/// and to none else. Each leading consonant has 588 syllables; the groups go up with the
/// consonants, each tense consonant in the group of the plain one before it.
pub proof fn law_groups(name: Seq<char>, other: Seq<char>)
    ensures
        name.len() == 0 ==> group_of(name) is None,
        name.len() > 0 && !(0xAC00 <= name[0] as int <= 0xD7A3) ==> group_of(name) is None,
        name.len() > 0 && 0xAC00 <= name[0] as int <= 0xD7A3 ==> ({
            let lead = (name[0] as int - 0xAC00) / 588;
            let tense_before = (if lead >= 1 {
                1int
            } else {
                0
            }) + (if lead >= 4 {
                1int
            } else {
                0
            }) + (if lead >= 8 {
                1int
            } else {
                0
            }) + (if lead >= 10 {
                1int
            } else {
                0
            }) + (if lead >= 13 {
                1int
            } else {
                0
            });
            group_of(name) == Some((lead - tense_before) as u8)
        }),
        name.len() > 0 && other.len() > 0 && name[0] == other[0] ==> group_of(name) == group_of(
            other,
        ),
{
}

} // verus!
