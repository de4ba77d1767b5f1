//! The look of the overlay, and the choice of the tables that it shows.
//!
//! Sizes are single-precision bit patterns (see `bits`).

use vstd::prelude::*;

use crate::bits::{clamp32, is_finite32};
#[allow(unused_imports)]
use crate::bits::{clamped32, finite32};
use crate::numeral::to_decimal;
#[allow(unused_imports)]
use crate::numeral::decimal;
use crate::text::{lines, same_text, split_once, starts_with, trim};
#[allow(unused_imports)]
use crate::text::{
    begins,
    is_line,
    lacks,
    law_lines_read_back,
    lemma_char_index,
    line_seq,
    parted,
    trimmed,
    white,
    with_feeds,
};
use crate::textmap::TextMap;
#[allow(unused_imports)]
use crate::textmap::lookup;

verus! {

/// The look of the overlay: the scale of its text, the width of its buttons and the opacity
/// of its background.
#[derive(Clone, Copy, PartialEq, Eq, Structural, Debug)]
pub struct Settings {
    pub ui_scale: u32,
    pub btn_w: u32,
    pub bg_alpha: u32,
}

/// The scale where nothing is set: 1.
pub const DEFAULT_SCALE: u32 = 0x3f80_0000;

/// The width where nothing is set: 94.
pub const DEFAULT_WIDTH: u32 = 0x42bc_0000;

/// The opacity where nothing is set: 0.97.
pub const DEFAULT_ALPHA: u32 = 0x3f78_51ec;

/// The look where nothing is set.
pub open spec fn unset() -> Settings {
    Settings { ui_scale: DEFAULT_SCALE, btn_w: DEFAULT_WIDTH, bg_alpha: DEFAULT_ALPHA }
}

impl Default for Settings {
    fn default() -> (r: Self)
        ensures
            r == unset(),
    {
        Settings { ui_scale: DEFAULT_SCALE, btn_w: DEFAULT_WIDTH, bg_alpha: DEFAULT_ALPHA }
    }
}

/// The least and the greatest scale: 0.6 and 2.5.
pub const SCALE_RANGE: (u32, u32) = (0x3f19_999a, 0x4020_0000);

/// The least and the greatest width: 50 and 200.
pub const WIDTH_RANGE: (u32, u32) = (0x4248_0000, 0x4348_0000);

/// The least and the greatest opacity: 0.25 and 1.
pub const ALPHA_RANGE: (u32, u32) = (0x3e80_0000, 0x3f80_0000);

/// The settings after one more line: a name, an equals sign and a finite number, as
/// `readings` say; any other line says nothing.
pub open spec fn after_setting(
    s: Settings,
    line: Seq<char>,
    readings: Seq<(Seq<char>, u32)>,
) -> Settings {
    match parted(line, '=') {
        Some((k, v)) => match lookup(readings, trimmed(v)) {
            Some(b) => if !finite32(b) {
                s
            } else if trimmed(k) == "ui_scale"@ {
                Settings { ui_scale: b, ..s }
            } else if trimmed(k) == "btn_w"@ {
                Settings { btn_w: b, ..s }
            } else if trimmed(k) == "bg_alpha"@ {
                Settings { bg_alpha: b, ..s }
            } else {
                s
            },
            None => s,
        },
        None => s,
    }
}

/// The settings that some lines say.
pub open spec fn settings_said(lines: Seq<Seq<char>>, readings: Seq<(Seq<char>, u32)>) -> Settings
    decreases lines.len(),
{
    if lines.len() == 0 {
        unset()
    } else {
        after_setting(settings_said(lines.drop_last(), readings), lines.last(), readings)
    }
}

/// The settings within their ranges.
pub open spec fn in_range(s: Settings) -> Settings {
    Settings {
        ui_scale: clamped32(s.ui_scale, SCALE_RANGE.0, SCALE_RANGE.1),
        btn_w: clamped32(s.btn_w, WIDTH_RANGE.0, WIDTH_RANGE.1),
        bg_alpha: clamped32(s.bg_alpha, ALPHA_RANGE.0, ALPHA_RANGE.1),
    }
}

/// The numerals of a text of settings: what stands behind its equals signs.
pub open spec fn setting_numerals(lines: Seq<Seq<char>>) -> Seq<Seq<char>>
    decreases lines.len(),
{
    if lines.len() == 0 {
        Seq::empty()
    } else {
        let front = setting_numerals(lines.drop_last());
        match parted(lines.last(), '=') {
            Some((_, v)) => front.push(trimmed(v)),
            None => front,
        }
    }
}

/// The numerals of a text of settings, of which `load_settings` needs the readings.
pub fn numerals_in(text: &str) -> (r: Vec<String>)
    ensures
        r.deep_view() == setting_numerals(line_seq(text@)),
{
    let ls = lines(text);
    let ghost all = line_seq(text@);
    let mut r: Vec<String> = Vec::new();
    let mut i: usize = 0;
    assert(all.take(0) == Seq::<Seq<char>>::empty());
    assert(r.deep_view() =~= Seq::empty());
    while i < ls.len()
        invariant
            i <= ls@.len(),
            ls.deep_view() == all,
            r.deep_view() == setting_numerals(all.take(i as int)),
        decreases ls@.len() - i,
    {
        assert(all[i as int] == ls@[i as int]@);
        assert(all.take(i + 1).drop_last() == all.take(i as int));
        let ghost sofar = r.deep_view();
        if let Some((_, v)) = split_once(ls[i].as_str(), '=') {
            let t = trim(v.as_str());
            r.push(t);
            assert(r.deep_view() =~= sofar.push(t@));
        }
        i += 1;
    }
    assert(all.take(i as int) == all);
    r
}

/// The look of the overlay that a text says. `readings` give the bit pattern of each numeral
/// that writes a number.
pub fn load_settings(text: &str, readings: &TextMap<u32>) -> (r: Settings)
    ensures
        r == in_range(settings_said(line_seq(text@), readings@)),
{
    let ls = lines(text);
    let ghost all = line_seq(text@);
    let mut s = Settings::default();
    let mut i: usize = 0;
    assert(all.take(0) == Seq::<Seq<char>>::empty());
    while i < ls.len()
        invariant
            i <= ls@.len(),
            ls.deep_view() == all,
            s == settings_said(all.take(i as int), readings@),
        decreases ls@.len() - i,
    {
        assert(all[i as int] == ls@[i as int]@);
        assert(all.take(i + 1).drop_last() == all.take(i as int));
        if let Some((k, v)) = split_once(ls[i].as_str(), '=') {
            let value = trim(v.as_str());
            if let Some(b) = readings.get(value.as_str()) {
                if is_finite32(*b) {
                    let name = trim(k.as_str());
                    if same_text(name.as_str(), "ui_scale") {
                        s.ui_scale = *b;
                    } else if same_text(name.as_str(), "btn_w") {
                        s.btn_w = *b;
                    } else if same_text(name.as_str(), "bg_alpha") {
                        s.bg_alpha = *b;
                    }
                }
            }
        }
        i += 1;
    }
    assert(all.take(i as int) == all);
    Settings {
        ui_scale: clamp32(s.ui_scale, SCALE_RANGE.0, SCALE_RANGE.1),
        btn_w: clamp32(s.btn_w, WIDTH_RANGE.0, WIDTH_RANGE.1),
        bg_alpha: clamp32(s.bg_alpha, ALPHA_RANGE.0, ALPHA_RANGE.1),
    }
}

proof fn lemma_settings_finite(lines: Seq<Seq<char>>, readings: Seq<(Seq<char>, u32)>)
    ensures
        ({
            let s = settings_said(lines, readings);
            finite32(s.ui_scale) && finite32(s.btn_w) && finite32(s.bg_alpha)
        }),
    decreases lines.len(),
{
    if lines.len() > 0 {
        lemma_settings_finite(lines.drop_last(), readings);
    }
}

/// Whatever a text says, the look of the overlay stays within its ranges.
pub proof fn law_settings_in_range(lines: Seq<Seq<char>>, readings: Seq<(Seq<char>, u32)>)
    ensures
        ({
            let s = in_range(settings_said(lines, readings));
            &&& SCALE_RANGE.0 <= s.ui_scale <= SCALE_RANGE.1
            &&& WIDTH_RANGE.0 <= s.btn_w <= WIDTH_RANGE.1
            &&& ALPHA_RANGE.0 <= s.bg_alpha <= ALPHA_RANGE.1
        }),
{
    lemma_settings_finite(lines, readings);
}

/// The text of settings, from the texts of its numbers.
pub fn settings_text(ui_scale: &str, btn_w: &str, bg_alpha: &str) -> (r: String)
    ensures
        r@ == "ui_scale="@ + ui_scale@ + "\nbtn_w="@ + btn_w@ + "\nbg_alpha="@ + bg_alpha@ + "\n"@,
{
    let mut r = "ui_scale=".to_owned();
    r.append(ui_scale);
    r.append("\nbtn_w=");
    r.append(btn_w);
    r.append("\nbg_alpha=");
    r.append(bg_alpha);
    r.append("\n");
    r
}

proof fn lemma_bare(s: Seq<char>)
    requires
        s.len() > 0,
        !white(s[0]),
        !white(s.last()),
    ensures
        trimmed(s) == s,
{
}

proof fn lemma_setting_is_read(name: Seq<char>, value: Seq<char>)
    requires
        name.len() > 0,
        lacks(name, '='),
        !white(name[0]),
        !white(name.last()),
        trimmed(value) == value,
    ensures
        parted(name + "="@ + value, '=') == Some((name, value)),
        trimmed(name) == name,
{
    reveal_strlit("=");
    let line = name + "="@ + value;
    let n = name.len() as int;
    assert forall|j: int| 0 <= j < n implies line[j] != '=' by {
        assert(line[j] == name[j]);
    }
    lemma_char_index(line, '=', n);
    assert(line.take(n) =~= name);
    assert(line.skip(n + 1) =~= value);
    lemma_bare(name);
}

/// Settings that were written are read: they are the numbers of their texts.
pub proof fn law_settings_are_read(
    scale: Seq<char>,
    width: Seq<char>,
    alpha: Seq<char>,
    readings: Seq<(Seq<char>, u32)>,
    s: Settings,
)
    requires
        is_line(scale) && is_line(width) && is_line(alpha),
        trimmed(scale) == scale,
        trimmed(width) == width,
        trimmed(alpha) == alpha,
        lookup(readings, scale) == Some(s.ui_scale),
        lookup(readings, width) == Some(s.btn_w),
        lookup(readings, alpha) == Some(s.bg_alpha),
        finite32(s.ui_scale) && finite32(s.btn_w) && finite32(s.bg_alpha),
    ensures
        ({
            let text = "ui_scale="@ + scale + "\nbtn_w="@ + width + "\nbg_alpha="@ + alpha + "\n"@;
            settings_said(line_seq(text), readings) == s
        }),
{
    reveal_strlit("ui_scale=");
    reveal_strlit("\nbtn_w=");
    reveal_strlit("\nbg_alpha=");
    reveal_strlit("\n");
    reveal_strlit("ui_scale");
    reveal_strlit("btn_w");
    reveal_strlit("bg_alpha");
    reveal_strlit("=");
    let text = "ui_scale="@ + scale + "\nbtn_w="@ + width + "\nbg_alpha="@ + alpha + "\n"@;
    let a = "ui_scale"@ + "="@ + scale;
    let b = "btn_w"@ + "="@ + width;
    let c = "bg_alpha"@ + "="@ + alpha;
    let v = seq![a, b, c];
    reveal_with_fuel(with_feeds, 4);
    assert(v.drop_last() =~= seq![a, b]);
    assert(v.drop_last().drop_last() =~= seq![a]);
    assert(v.drop_last().drop_last().drop_last() =~= Seq::empty());
    assert(text =~= with_feeds(v));
    lemma_line_of("ui_scale"@, scale);
    lemma_line_of("btn_w"@, width);
    lemma_line_of("bg_alpha"@, alpha);
    law_lines_read_back(v);
    lemma_setting_is_read("ui_scale"@, scale);
    lemma_setting_is_read("btn_w"@, width);
    lemma_setting_is_read("bg_alpha"@, alpha);
    reveal_with_fuel(settings_said, 4);
    assert("ui_scale"@.len() != "btn_w"@.len());
    assert("btn_w"@.len() != "bg_alpha"@.len());
    assert("ui_scale"@[0] != "bg_alpha"@[0]);
}

proof fn lemma_line_of(name: Seq<char>, value: Seq<char>)
    requires
        lacks(name, '\n'),
        is_line(value),
    ensures
        is_line(name + "="@ + value),
{
    reveal_strlit("=");
    let l = name + "="@ + value;
    assert forall|i: int| 0 <= i < l.len() implies #[trigger] l[i] != '\n' by {
        if i < name.len() {
            assert(l[i] == name[i]);
        } else if i > name.len() {
            assert(l[i] == value[i - name.len() - 1]);
        }
    }
    if value.len() > 0 {
        assert(l.last() == value.last());
    }
}

/// How many of some lines begin with `p`.
pub open spec fn beginning(lines: Seq<Seq<char>>, p: Seq<char>) -> nat
    decreases lines.len(),
{
    if lines.len() == 0 {
        0
    } else {
        beginning(lines.drop_last(), p) + if begins(lines.last(), p) {
            1nat
        } else {
            0nat
        }
    }
}

fn count_beginning(ls: &Vec<String>, p: &str) -> (r: usize)
    ensures
        r == beginning(ls.deep_view(), p@),
{
    let ghost all = ls.deep_view();
    let mut r: usize = 0;
    let mut i: usize = 0;
    while i < ls.len()
        invariant
            i <= ls@.len(),
            ls.deep_view() == all,
            r == beginning(all.take(i as int), p@),
            r <= i,
        decreases ls@.len() - i,
    {
        assert(all[i as int] == ls@[i as int]@);
        assert(all.take(i + 1).drop_last() == all.take(i as int));
        if starts_with(ls[i].as_str(), p) {
            r += 1;
        }
        i += 1;
    }
    assert(all.take(i as int) == all);
    r
}

/// Whether statistics belong to a save.
pub open spec fn of_a_save(text: Seq<char>) -> bool {
    beginning(line_seq(text), "SAVE\t"@) > 0
}

/// What is told of where the tables come from.
pub open spec fn source_of(own: Option<Seq<char>>) -> Seq<char> {
    match own {
        Some(t) => if !of_a_save(t) {
            "내장 기본값"@
        } else if beginning(line_seq(t), "C\t"@) == 0 {
            "새 세이브 · 데이터 없음(콜드스타트)"@
        } else {
            decimal(beginning(line_seq(t), "C\t"@)) + "챔프"@
        },
        None => "내장 기본값"@,
    }
}

/// Whether the own statistics are used, and what is told of it: they are where they belong to
/// a save, also one without any winrates yet; else the built-in table is.
pub fn load_tables(own: &Option<String>) -> (r: (bool, String))
    ensures
        r.0 == (own matches Some(t) && of_a_save(t@)),
        r.1@ == source_of(crate::text::opt_text(*own)),
{
    match own {
        Some(t) => {
            let ls = lines(t.as_str());
            if count_beginning(&ls, "SAVE\t") > 0 {
                let champs = count_beginning(&ls, "C\t");
                if champs == 0 {
                    (true, "새 세이브 · 데이터 없음(콜드스타트)".to_owned())
                } else {
                    let mut s = to_decimal(champs as u64);
                    s.append("챔프");
                    (true, s)
                }
            } else {
                (false, "내장 기본값".to_owned())
            }
        },
        None => (false, "내장 기본값".to_owned()),
    }
}

/// A further line sets what its name says to the number behind its equals sign, and nothing
/// else; a line without an equals sign, one of another name, and one whose number is not finite
/// or none set nothing.
pub proof fn law_line_sets(
    lines: Seq<Seq<char>>,
    line: Seq<char>,
    readings: Seq<(Seq<char>, u32)>,
    k: Seq<char>,
    v: Seq<char>,
    b: u32,
)
    ensures
        ({
            let was = settings_said(lines, readings);
            let now = settings_said(lines.push(line), readings);
            &&& parted(line, '=') is None ==> now == was
            &&& parted(line, '=') == Some((k, v)) ==> {
                &&& lookup(readings, trimmed(v)) is None ==> now == was
                &&& lookup(readings, trimmed(v)) == Some(b) && !finite32(b) ==> now == was
                &&& lookup(readings, trimmed(v)) == Some(b) && finite32(b) ==> {
                    &&& trimmed(k) == "ui_scale"@ ==> now.ui_scale == b
                    &&& trimmed(k) == "btn_w"@ ==> now.btn_w == b
                    &&& trimmed(k) == "bg_alpha"@ ==> now.bg_alpha == b
                    &&& trimmed(k) != "ui_scale"@ ==> now.ui_scale == was.ui_scale
                    &&& trimmed(k) != "btn_w"@ ==> now.btn_w == was.btn_w
                    &&& trimmed(k) != "bg_alpha"@ ==> now.bg_alpha == was.bg_alpha
                }
            }
        }),
        settings_said(Seq::empty(), readings) == (Settings {
            ui_scale: 0x3f80_0000,
            btn_w: 0x42bc_0000,
            bg_alpha: 0x3f78_51ec,
        }),
{
    reveal_strlit("ui_scale");
    reveal_strlit("btn_w");
    reveal_strlit("bg_alpha");
    assert("ui_scale"@.len() == 8 && "btn_w"@.len() == 5 && "bg_alpha"@.len() == 8);
    assert("ui_scale"@[0] == 'u' && "bg_alpha"@[0] == 'b');
    assert(lines.push(line).drop_last() =~= lines);
}

/// The look stays between 0.6 and 2.5, 50 and 200, and 0.25 and 1, each where it is if it is
/// there.
pub proof fn law_look_is_kept_in_range(s: Settings)
    requires
        finite32(s.ui_scale) && finite32(s.btn_w) && finite32(s.bg_alpha),
    ensures
        0x3f19_999a <= in_range(s).ui_scale <= 0x4020_0000,
        0x4248_0000 <= in_range(s).btn_w <= 0x4348_0000,
        0x3e80_0000 <= in_range(s).bg_alpha <= 0x3f80_0000,
        0x3f19_999a <= s.ui_scale <= 0x4020_0000 ==> in_range(s).ui_scale == s.ui_scale,
        0x4248_0000 <= s.btn_w <= 0x4348_0000 ==> in_range(s).btn_w == s.btn_w,
        0x3e80_0000 <= s.bg_alpha <= 0x3f80_0000 ==> in_range(s).bg_alpha == s.bg_alpha,
        0x4020_0000 < s.ui_scale < 0x8000_0000 ==> in_range(s).ui_scale == 0x4020_0000,
        0x4348_0000 < s.btn_w < 0x8000_0000 ==> in_range(s).btn_w == 0x4348_0000,
        0x3f80_0000 < s.bg_alpha < 0x8000_0000 ==> in_range(s).bg_alpha == 0x3f80_0000,
        s.ui_scale < 0x3f19_999a || s.ui_scale >= 0x8000_0000 ==> in_range(s).ui_scale
            == 0x3f19_999a,
        s.btn_w < 0x4248_0000 || s.btn_w >= 0x8000_0000 ==> in_range(s).btn_w == 0x4248_0000,
        s.bg_alpha < 0x3e80_0000 || s.bg_alpha >= 0x8000_0000 ==> in_range(s).bg_alpha
            == 0x3e80_0000,
{
}

/// Tables are those of a save where some line names one. They are told to be the built-in ones
/// where none does, empty where no line is of a champion, and else by their champions.
pub proof fn law_source(t: Seq<char>, i: int)
    ensures
        of_a_save(t) <==> exists|k: int|
            0 <= k < line_seq(t).len() && begins(#[trigger] line_seq(t)[k], "SAVE\t"@),
        source_of(None) == "내장 기본값"@,
        !of_a_save(t) ==> source_of(Some(t)) == source_of(None),
        of_a_save(t) && (forall|k: int|
            0 <= k < line_seq(t).len() ==> !begins(#[trigger] line_seq(t)[k], "C\t"@))
            ==> source_of(Some(t)) == "새 세이브 · 데이터 없음(콜드스타트)"@,
        of_a_save(t) && 0 <= i < line_seq(t).len() && begins(line_seq(t)[i], "C\t"@) ==> source_of(
            Some(t),
        ) == decimal(beginning(line_seq(t), "C\t"@)) + "챔프"@,
{
    lemma_beginning(line_seq(t), "SAVE\t"@);
    lemma_beginning(line_seq(t), "C\t"@);
}

proof fn lemma_beginning(lines: Seq<Seq<char>>, p: Seq<char>)
    ensures
        beginning(lines, p) > 0 <==> exists|k: int|
            0 <= k < lines.len() && begins(#[trigger] lines[k], p),
    decreases lines.len(),
{
    if lines.len() > 0 {
        let front = lines.drop_last();
        lemma_beginning(front, p);
        if exists|k: int| 0 <= k < front.len() && begins(#[trigger] front[k], p) {
            let k = choose|k: int| 0 <= k < front.len() && begins(#[trigger] front[k], p);
            assert(begins(lines[k], p));
        }
        if begins(lines.last(), p) {
            assert(begins(lines[lines.len() - 1], p));
        }
        if exists|k: int| 0 <= k < lines.len() && begins(#[trigger] lines[k], p) {
            let k = choose|k: int| 0 <= k < lines.len() && begins(#[trigger] lines[k], p);
            if k < front.len() {
                assert(begins(front[k], p));
            }
        }
    }
}

/// Each further line that begins so is one more.
pub proof fn law_lines_counted(lines: Seq<Seq<char>>, line: Seq<char>, p: Seq<char>)
    ensures
        beginning(Seq::empty(), p) == 0,
        begins(line, p) ==> beginning(lines.push(line), p) == beginning(lines, p) + 1,
        !begins(line, p) ==> beginning(lines.push(line), p) == beginning(lines, p),
{
    assert(lines.push(line).drop_last() =~= lines);
}

/// Each line with an equals sign asks for the number behind it.
pub proof fn law_settings_need_numerals(
    lines: Seq<Seq<char>>,
    line: Seq<char>,
    k: Seq<char>,
    v: Seq<char>,
)
    ensures
        setting_numerals(Seq::empty()).len() == 0,
        parted(line, '=') is None ==> setting_numerals(lines.push(line)) == setting_numerals(lines),
        parted(line, '=') == Some((k, v)) ==> setting_numerals(lines.push(line))
            == setting_numerals(lines).push(trimmed(v)),
{
    assert(lines.push(line).drop_last() =~= lines);
}

} // verus!
