use draft_overlay::board::{
    apply_mode, clear_board, click_champ, current_state, effective_pool, every_champ, ids_with,
    valid_mode, Fearless, Mode, Series, Slot,
};
use draft_overlay::labels::{
    board_label, conf_label, find_headline_lane, grid_label, headline, join_names, lane_button,
    lane_headline, lane_label, list_row, loaded_label, lock_label, mode_label, phase_label, pool_label,
};
use draft_overlay::lanes::Lane;
use draft_overlay::launcher::{cache_fresh, needs_probe, status_line, Launcher, Outcome, Task};
use draft_overlay::panel::{grid_match, message_filter, Frame, Panel, Requests, Tint};
use draft_overlay::recommend::{LaneCand, Row};
use draft_overlay::saves::{
    cache_name, can_date, can_date_all, clean_str, fmt_date, header_info, is_cache, is_save,
    active_save, load_saves, new_pin, newest_save, pinned, prune_caches, sel_from_pin, stem,
    write_saves_list, Active, SaveEntry,
};
use draft_overlay::settings::{load_settings, load_tables, numerals_in, settings_text, Settings};
use draft_overlay::textmap::TextMap;
use draft_overlay::textset::TextSet;

fn names(v: &[&str]) -> Vec<String> {
    v.iter().map(|s| s.to_string()).collect()
}

const MODES: [Mode; 6] = [Mode::MyPick, Mode::EnemyPick, Mode::MyBan, Mode::EnemyBan, Mode::Clear, Mode::Pool];

#[test]
fn clicks_mark_and_unmark() {
    assert_eq!(apply_mode(Slot::Avail, Mode::MyPick), Slot::MyPick);
    assert_eq!(apply_mode(Slot::MyPick, Mode::MyPick), Slot::Avail);
    assert_eq!(apply_mode(Slot::MyPick, Mode::EnemyBan), Slot::EnemyBan);
    assert_eq!(apply_mode(Slot::MyBan, Mode::Clear), Slot::Avail);
    assert_eq!(apply_mode(Slot::MyBan, Mode::Pool), Slot::MyBan);
    for m in MODES {
        assert_eq!(apply_mode(apply_mode(Slot::Avail, m), m), Slot::Avail);
    }
}

#[test]
fn clicks_edit_the_pool() {
    let mut slots = clear_board();
    let mut pool = TextSet::new();
    click_champ(1, Mode::Pool, &mut slots, &mut pool);
    assert!(pool.contains("monk"));
    assert_eq!(slots[1], Slot::Avail);
    click_champ(1, Mode::Pool, &mut slots, &mut pool);
    assert!(pool.is_empty());
    click_champ(1, Mode::EnemyPick, &mut slots, &mut pool);
    assert_eq!(slots[1], Slot::EnemyPick);
    assert_eq!(ids_with(&slots, Slot::EnemyPick), names(&["monk"]));
    let mut few = vec![Slot::Avail, Slot::MyBan];
    click_champ(1, Mode::MyPick, &mut few, &mut pool);
    assert_eq!(few, vec![Slot::Avail, Slot::MyPick]);
    click_champ(0, Mode::Pool, &mut few, &mut pool);
    assert_eq!(few, vec![Slot::Avail, Slot::MyPick]);
    assert_eq!(pool.len(), 1);
}

#[test]
fn the_board_shows_a_draft() {
    let mut slots = clear_board();
    slots[59] = Slot::MyPick;
    slots[0] = Slot::MyPick;
    slots[1] = Slot::EnemyPick;
    slots[2] = Slot::MyBan;
    slots[3] = Slot::EnemyBan;
    let s = current_state(&slots, true);
    assert!(s.ok);
    assert_eq!(s.phase, "BAN");
    assert_eq!(s.ally_pick, names(&["vampire", "ogre"]));
    assert_eq!(s.enemy_pick, names(&["monk"]));
    assert_eq!(s.ally_ban, names(&["circus_blade"]));
    assert_eq!(s.enemy_ban, names(&["android"]));
    assert_eq!(current_state(&slots, false).phase, "PICK");
}

#[test]
fn modes_follow_the_phase() {
    assert_eq!(valid_mode(true, Mode::EnemyPick), Mode::MyBan);
    assert_eq!(valid_mode(false, Mode::EnemyBan), Mode::MyPick);
    assert_eq!(valid_mode(true, Mode::EnemyBan), Mode::EnemyBan);
    assert_eq!(valid_mode(true, Mode::Pool), Mode::Pool);
    assert_eq!(valid_mode(false, Mode::Clear), Mode::Clear);
}

#[test]
fn a_series_locks_champions() {
    let mut s = Series::new();
    let mut slots = clear_board();
    slots[0] = Slot::MyPick;
    slots[1] = Slot::EnemyPick;
    slots[2] = Slot::MyBan;
    s.next_set(&mut slots);
    assert_eq!(s.game, 2);
    assert!(slots.iter().all(|x| *x == Slot::Avail));
    assert_eq!(s.my_locked().len(), 0);
    s.fearless = Fearless::Normal;
    assert!(s.my_locked().contains("vampire"));
    assert!(!s.my_locked().contains("monk"));
    assert!(s.enemy_locked().contains("monk"));
    assert!(s.rec_lock(true).contains("monk"));
    assert!(s.rec_lock(false).contains("vampire"));
    s.fearless = Fearless::Hard;
    assert_eq!(s.my_locked().len(), 2);
    assert_eq!(s.enemy_locked().len(), 2);
    assert!(!s.my_locked().contains("circus_blade"));
    s.clear();
    assert_eq!((s.game, s.my_locked().len()), (1, 0));
}

#[test]
fn locked_champions_leave_the_pool() {
    let none = TextSet::new();
    let monk = TextSet::of(&names(&["monk"]));
    let both = TextSet::of(&names(&["monk", "ogre"]));
    assert!(effective_pool(&none, &none).is_none());
    assert_eq!(effective_pool(&none, &monk).unwrap().len(), 59);
    assert_eq!(effective_pool(&both, &none).unwrap().len(), 2);
    let p = effective_pool(&both, &monk).unwrap();
    assert!(p.contains("ogre") && !p.contains("monk"));
    assert_eq!(every_champ().len(), 60);
}

#[test]
fn the_panel_is_shown_and_hidden() {
    let mut p = Panel::new(&TextSet::new());
    assert_eq!(p.mode, Mode::MyBan);
    assert!(p.rec_ban);
    assert_eq!(p.begin_frame(false), Frame::Draw);
    assert_eq!(p.begin_frame(true), Frame::Hidden);
    assert_eq!(p.begin_frame(true), Frame::Hidden);
    assert_eq!(p.begin_frame(false), Frame::Hidden);
    assert_eq!(p.frames, 1);
    assert_eq!(p.begin_frame(true), Frame::Draw);
    for _ in 2..119 {
        assert_eq!(p.begin_frame(false), Frame::Draw);
    }
    assert_eq!(p.begin_frame(false), Frame::Reload);
    assert_eq!((p.frames, p.last_reload_frame), (120, 120));
    assert_eq!(p.begin_frame(false), Frame::Draw);
}

#[test]
fn clicks_on_the_panel() {
    let mut p = Panel::new(&TextSet::new());
    p.set_phase(false);
    assert_eq!(p.mode, Mode::MyPick);
    p.click(0);
    p.click_lane("ogre");
    p.mode = Mode::EnemyPick;
    p.click_row("monk");
    p.click_row("nobody");
    p.click_lane("nobody");
    assert_eq!(p.state().ally_pick, names(&["vampire", "ogre"]));
    assert_eq!(p.state().enemy_pick, names(&["monk"]));
    p.click_chosung(3);
    assert_eq!(p.chosung, Some(3));
    p.click_chosung(3);
    assert_eq!(p.chosung, None);
    p.fill_pool();
    assert_eq!(p.pool.len(), 60);
    p.take_pool(&TextSet::of(&names(&["monk"])));
    assert_eq!(p.pool.len(), 1);
    assert_eq!(p.tint(0), Tint { slot: Slot::MyPick, out_of_pool: true, locked: false });
    assert_eq!(p.tint(1), Tint { slot: Slot::EnemyPick, out_of_pool: false, locked: false });
    assert!(p.offers().unwrap().contains("monk"));
    p.series.fearless = Fearless::Hard;
    p.end_frame(Requests { reset: false, next_set: true, clear_series: false });
    assert!(p.tint(0).locked && p.tint(1).locked && !p.tint(2).locked);
    assert_eq!(p.offers().unwrap().len(), 0);
    p.click(0);
    p.end_frame(Requests { reset: true, next_set: true, clear_series: false });
    assert_eq!(p.series.game, 3);
    assert_eq!(p.series.mine.len(), 2);
    p.end_frame(Requests { reset: false, next_set: false, clear_series: true });
    assert_eq!((p.series.game, p.series.mine.len()), (1, 0));
}

#[test]
fn own_earlier_picks_can_be_banned() {
    let mut p = Panel::new(&TextSet::new());
    p.series.fearless = Fearless::Normal;
    p.set_phase(false);
    p.click_lane("monk");
    p.mode = Mode::EnemyPick;
    p.click_row("ogre");
    p.end_frame(Requests { reset: false, next_set: true, clear_series: false });
    let picks = p.offers().unwrap();
    assert!(!picks.contains("monk") && picks.contains("ogre"));
    p.set_phase(true);
    let bans = p.offers().unwrap();
    assert!(bans.contains("monk") && !bans.contains("ogre"));
}

#[test]
fn the_grid_is_searched() {
    let mut p = Panel::new(&TextSet::new());
    assert!(p.shows(1, ""));
    assert!(p.shows(1, "MON"));
    assert!(p.shows(1, "몽"));
    assert!(!p.shows(0, "mon"));
    p.chosung = Some(4);
    assert!(p.shows(1, ""));
    assert!(!p.shows(0, ""));
    assert!(grid_match("몽크", "monk", "ONK", "onk", None));
    assert!(!grid_match("몽크", "monk", "ONK", "onk", Some(0)));
    assert!(!grid_match("몽크", "monk", "x", "x", None));
    assert_eq!(message_filter(false, true, true), (false, false));
    assert_eq!(message_filter(true, true, false), (true, false));
}

#[test]
fn texts_of_the_panel() {
    assert_eq!(mode_label(Mode::Pool), "풀 편집");
    assert_eq!(conf_label(0, 100), "데이터 없음 · 이론 추천");
    assert_eq!(conf_label(50, 75), "현재패치 50판 · 이론 75%");
    assert_eq!(conf_label(200, 0), "현재패치 200판 · 통계");
    assert_eq!(pool_label(0), "풀 전체");
    assert_eq!(pool_label(12), "풀 12/60");
    assert_eq!(loaded_label("", "내장"), "로드됨 내장");
    assert_eq!(loaded_label("s", "내장"), "로드됨 s");
    assert_eq!(lock_label(Fearless::Hard, 4, 4), "이전 세트 사용 챔프 » 추천·그리드 제외  ·  금지(공통) 4");
    assert_eq!(lock_label(Fearless::Normal, 4, 3), "이전 세트 사용 챔프 » 추천·그리드 제외  ·  금지 내 4  ·  상대 3");
    assert_eq!(join_names(&names(&[])), "-");
    assert_eq!(join_names(&names(&["a", "b"])), "a, b");
    assert_eq!(phase_label(true), "추천 밴");
    assert_eq!(board_label("선픽", 1, "tip"), "선픽 (내픽 1/5) · tip");
    assert_eq!(grid_label(1, "S"), "S·몽크##1");
    assert_eq!(grid_label(1, ""), "몽크##1");
}

fn row(tier: &'static str, role: &'static str, low_conf: bool) -> Row {
    Row { ko: "몽크".to_string(), id: "monk".to_string(), score: 0, label: "강챔", low_conf, role, tier }
}

fn cand(low_conf: bool) -> LaneCand {
    LaneCand { ko: "몽크".to_string(), id: "monk".to_string(), score: 0, label: "강챔", low_conf, role: "힐", tier: "A" }
}

#[test]
fn texts_of_recommendations() {
    assert_eq!(headline(true, &row("S", "탱", false)), "» 지금 추천 밴: [S] 탱 몽크  (강챔)");
    assert_eq!(headline(false, &row("", "", false)), "» 지금 추천 픽: 몽크  (강챔)");
    let score = format!("{:+5.0}", 12.4);
    assert_eq!(list_row(1, &row("S", "탱", true), &score), format!("{:>2}. {}{:<11}{:+5.0}   {}{}", 1, "탱 ", "몽크", 12.4, "강챔", " ?"));
    assert_eq!(list_row(10, &row("S", "", false), &score), format!("{:>2}. {}{:<11}{:+5.0}   {}{}", 10, "  ", "몽크", 12.4, "강챔", ""));
    assert_eq!(lane_headline("탑", &cand(false)), "» 지금 추천: [A] 힐 몽크  ·  탑 라인  (강챔)");
    assert_eq!(lane_button("탑", &cand(true), "+12"), "힐 몽크 +12?##L탑_monk");
    assert_eq!(lane_button("탑", &cand(false), "+12"), "힐 몽크 +12##L탑_monk");
    let lane = |star: bool, cands: Vec<LaneCand>| Lane { name: "탑", filled: None, cands, counter_of: None, star };
    assert_eq!(lane_label(&lane(true, vec![])), "» 탑");
    assert_eq!(lane_label(&lane(false, vec![])), "   탑");
    assert_eq!(find_headline_lane(&vec![lane(false, vec![cand(true)]), lane(true, vec![cand(true)])]), Some(1));
    assert_eq!(find_headline_lane(&vec![lane(true, vec![]), lane(false, vec![cand(true)])]), None);
}

#[test]
fn names_of_files() {
    assert!(is_save("save_20260528_004140.data"));
    assert!(!is_save("save_1.data"));
    assert!(!is_save("save_2.dat"));
    assert_eq!(stem("save_2.x.data"), "save_2.x");
    assert_eq!(stem(".hidden"), ".hidden");
    assert_eq!(stem("a."), "a");
    assert_eq!(stem("a"), "a");
    assert_eq!(stem(""), "save");
    assert_eq!(cache_name("save_2.data"), "save_2.tsv");
    assert!(is_cache("a.tsv"));
    assert!(!is_cache(".tsv"));
    assert!(!is_cache("a.tsv.bak"));
    assert_eq!(pinned("  \n"), None);
    assert_eq!(pinned(" a \n"), Some("a".to_string()));
}

#[test]
fn the_latest_save_and_old_caches() {
    let f = |n: &str, t: Option<u128>| (n.to_string(), t);
    let files = vec![f("save_2a.data", Some(5)), f("x.data", Some(99)), f("save_2b.data", Some(7)), f("save_2c.data", Some(7)), f("save_2d.data", None)];
    assert_eq!(newest_save(&files), Some(2));
    assert_eq!(newest_save(&vec![f("x", Some(1))]), None);
    assert_eq!(active_save(Some(1), &files), Active::Pinned);
    assert_eq!(active_save(None, &files), Active::Latest(2));
    assert_eq!(active_save(None, &vec![f("x", Some(1))]), Active::Missing);
    let mut caches: Vec<(String, Option<u128>)> = (0..41).map(|i| (format!("c{}.tsv", i), Some(100 - i as u128))).collect();
    caches.push(f("other.txt", Some(0)));
    caches.push(f("lost.tsv", None));
    assert_eq!(prune_caches(&caches), vec![40]);
    caches[3].1 = Some(60);
    assert_eq!(prune_caches(&caches), vec![3]);
    caches.push(f("older.tsv", Some(1)));
    assert_eq!(prune_caches(&caches), vec![43, 3]);
    let gone = prune_caches(&caches);
    let left: Vec<(String, Option<u128>)> = (0..caches.len()).filter(|i| !gone.contains(i)).map(|i| caches[i].clone()).collect();
    assert_eq!(left.len(), caches.len() - 2);
    assert_eq!(prune_caches(&left), Vec::<usize>::new());
    caches.truncate(40);
    assert_eq!(prune_caches(&caches), Vec::<usize>::new());
}

#[test]
fn clean_texts() {
    assert_eq!(clean_str("Gen.G 가".as_bytes()), Some("Gen.G 가".to_string()));
    assert_eq!(clean_str(b""), None);
    assert_eq!(clean_str(b"a\x07b"), None);
    assert_eq!(clean_str("a\u{85}".as_bytes()), None);
    assert_eq!(clean_str(&[0xff, 0x41]), None);
}

fn header(team: &[u8], manager: &[u8]) -> Vec<u8> {
    let path = b"custom:custom_team_logo/7";
    let mut b = vec![0, 0, 1];
    b.push(team.len() as u8);
    b.extend_from_slice(team);
    b.push(path.len() as u8);
    b.extend_from_slice(path);
    b.push(manager.len() as u8);
    b.extend_from_slice(manager);
    b.push(9);
    b
}

#[test]
fn headers_of_saves() {
    assert_eq!(header_info(&header(b"Gen.G", "감독".as_bytes())), ("Gen.G".to_string(), "감독".to_string()));
    assert_eq!(header_info(&header(b"KT Rolster", b"me")), ("KT Rolster".to_string(), "me".to_string()));
    assert_eq!(header_info(b"nothing here"), (String::new(), String::new()));
    assert_eq!(header_info(&header(b"Gen.G", b"a\x01b")), ("Gen.G".to_string(), String::new()));
    assert_eq!(header_info(&header(b"", b"")), (String::new(), String::new()));
    let mut cut = header(b"Gen.G", b"manager");
    cut.truncate(cut.len() - 3);
    assert_eq!(header_info(&cut).1, "");
}

#[test]
fn dates_of_saves() {
    assert_eq!(fmt_date("save_20260528_004140.data"), "05-28 00:41");
    assert_eq!(fmt_date("save_2026_004140.data"), "2026_004140");
    assert_eq!(fmt_date("other"), "other");
    assert_eq!(fmt_date("20260528_0041"), "05-28 00:41");
    assert_eq!(fmt_date("save_20260528_004.data"), "20260528_004");
    assert!(can_date("save_20260528_004140.data"));
    assert!(can_date("save_가_나.data"));
    assert!(!can_date("save_202가28_0041.data"));
    assert!(!can_date_all("x\t1\nsave_202가28_0041.data\t1\n"));
}

fn entry(time: u128, name: &str, count: Option<u32>, team: &str, manager: &str) -> SaveEntry {
    SaveEntry { time, name: name.to_string(), count, mb: 25, team: team.to_string(), manager: manager.to_string() }
}

#[test]
fn the_list_of_saves() {
    let list = write_saves_list(&vec![
        entry(1, "save_20260101_0101.data", None, "", ""),
        entry(9, "save_20260531_203500.data", Some(8), "Gen.G", "asdf"),
        entry(9, "save_20260531_203501.data", Some(0), "T1", ""),
    ]);
    assert_eq!(list, "save_20260531_203500.data\t8\t25\tGen.G\tasdf\nsave_20260531_203501.data\t0\t25\tT1\t\nsave_20260101_0101.data\t?\t25\t\t\n");
    assert!(can_date_all(&list));
    let saves = load_saves(&list);
    assert_eq!(saves[0].0, "save_20260531_203500.data");
    assert_eq!(saves[0].1, "asdf (Gen.G) · 05-31 20:35 · 25MB · 8판");
    assert_eq!(saves[1].1, "T1 · 05-31 20:35 · 25MB · 0판");
    assert_eq!(saves[2].1, "01-01 01:01 · 25MB");
    assert_eq!(load_saves("x\n\t1\ny\t2\t3\t \tme\n")[0].1, "x · ?MB");
    assert_eq!(load_saves("x\n\t1\ny\t2\t3\t \tme\n")[1].1, "me · y · 3MB · 2판");
    for i in 0..4 {
        assert_eq!(sel_from_pin(&saves, &new_pin(&saves, i)), i);
    }
    assert_eq!(sel_from_pin(&saves, "gone"), 0);
    assert_eq!(new_pin(&saves, 4), "");
}

fn settings(text: &str) -> (f32, f32, f32) {
    let mut readings: TextMap<u32> = TextMap::new();
    for n in numerals_in(text) {
        if let Ok(x) = n.parse::<f32>() {
            readings.insert(&n, x.to_bits());
        }
    }
    let s = load_settings(text, &readings);
    (f32::from_bits(s.ui_scale), f32::from_bits(s.btn_w), f32::from_bits(s.bg_alpha))
}

#[test]
fn settings_are_read() {
    assert_eq!(settings(""), (1.0, 94.0, 0.97));
    assert_eq!(settings("ui_scale=1.5\n btn_w = 120 \nbg_alpha=0.5\nx=3\n"), (1.5, 120.0, 0.5));
    assert_eq!(settings("ui_scale=9\nbtn_w=-5\nbg_alpha=0"), (2.5, 50.0, 0.25));
    assert_eq!(settings("ui_scale=NaN\nbtn_w=inf\nbg_alpha=x"), (1.0, 94.0, 0.97));
    assert_eq!(settings(&settings_text("1.25", "80", "0.75")), (1.25, 80.0, 0.75));
    assert_eq!(settings_text("1", "94", "0.97"), "ui_scale=1\nbtn_w=94\nbg_alpha=0.97\n");
    assert_eq!(f32::from_bits(Settings::default().btn_w), 94.0);
}

#[test]
fn tables_of_a_save_are_preferred() {
    assert_eq!(load_tables(&None), (false, "내장 기본값".to_string()));
    assert_eq!(load_tables(&Some("C\tmonk\t1\n".to_string())), (false, "내장 기본값".to_string()));
    assert_eq!(load_tables(&Some("SAVE\tx\n".to_string())), (true, "새 세이브 · 데이터 없음(콜드스타트)".to_string()));
    assert_eq!(load_tables(&Some("C\ta\t1\nSAVE\tx\nC\tb\t1\nCP\tb\t1\n".to_string())), (true, "2챔프".to_string()));
}

#[test]
fn rounds_of_the_launcher() {
    let mut l = Launcher::new();
    assert!(l.note("a", "1", "s"));
    assert!(!l.note("a", "1", "s"));
    assert!(l.note("a", "2", "s"));
    assert_eq!(l.last_key, "a|2|s");
    assert_eq!(l.task(), Task::Inject);
    assert_eq!(l.end_round(false), Outcome::Announced);
    assert_eq!(l.end_round(false), Outcome::Quiet);
    assert_eq!(l.end_round(true), Outcome::Injected);
    assert_eq!(l.task(), Task::Look);
    assert_eq!(l.end_round(false), Outcome::Quiet);
    assert_eq!(l.end_round(true), Outcome::Quiet);
    assert_eq!(l.end_round(false), Outcome::Quiet);
    assert_eq!(l.end_round(false), Outcome::Ended);
}

#[test]
fn caches_are_fresh_or_not() {
    assert!(cache_fresh(Some(5), 5, "", "old"));
    assert!(cache_fresh(Some(6), 5, "s", "s"));
    assert!(!cache_fresh(Some(6), 5, "s", "t"));
    assert!(!cache_fresh(Some(4), 5, "s", "s"));
    assert!(!cache_fresh(None, 5, "", ""));
    assert!(needs_probe(None));
    assert!(needs_probe(Some(0)));
    assert!(!needs_probe(Some(1)));
    assert_eq!(status_line("s", 49), "  활성 세이브: s  ·  현재 패치 49판 → 콜드스타트(이론 위주)");
    assert_eq!(status_line("s", 50), "  활성 세이브: s  ·  현재 패치 50판 → 통계 위주");
}
