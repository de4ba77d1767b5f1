use draft_overlay::cache::{
    compute_pool, read_cache_stamp, read_cached_count, read_pool_txt, regen, sync_pool, Parts,
};
use draft_overlay::export::{
    base, is_loaded, patch_total, patch_tsv, pool_text, stamp, ChampionStats, Counts, Export,
    Exporter, PositionStats, VersionStats,
};
use draft_overlay::patch::{
    compute_pos, compute_roles, lane_idx, lane_places, patch_current, read_rows, role_samples,
    write_lane_winrates, write_winrates, Figure, RoleFigure,
};
use draft_overlay::report::{
    bans_of, cell, esc, pos_champs, read_report, role, tier, top_champs, write_page, Figures,
    EMPTY_PAGE,
};
use draft_overlay::settings::load_tables;
use draft_overlay::tables::{numerals, parse_tables_from_str};
use draft_overlay::textmap::TextMap;

fn words(v: &[&str]) -> Vec<String> {
    v.iter().map(|s| s.to_string()).collect()
}

const PATCH: &str = "version\ttotal\tchampion\tposition\tbans\twins\tmatches\tdealing\ttanking\thealing\tkills\tdeaths\tcs\tgold\n1.0\t90\tmonk\tTop\t3\t9\t20\t1\t1\t1\t0\t0\t0\t0\n1.1\t50\tmonk\tTop\t4\t8\t10\t100\t170\t10\t1\t2\t3\t4\n1.1\t50\tmonk\tMid\t2\t1\t2\t50\t80\t5\t1\t2\t3\t4\n1.2\t30\togre\tJungle\t7\t5\t9\t10\t1\t30\t1\t2\t3\t4\n1.2\t30\tmonk\tTop\t1\t3\t6\t10\t16\t1\t1\t2\t3\t4\n1.2\t30\tmonk\tNowhere\t1\t1\t1\t10\t16\t1\t1\t2\t3\t4\nshort\t1\n";

#[test]
fn the_current_patch() {
    let c = patch_current(PATCH);
    assert_eq!(c.total, 30);
    assert_eq!(c.champs.len(), 2);
    let monk = c.champs.get("monk").unwrap();
    assert_eq!(monk.len(), 4);
    assert!(!monk[0].current);
    assert_eq!(monk[0].lane, Some(0));
    assert_eq!((monk[0].wins.as_str(), monk[0].matches.as_str()), ("8", "10"));
    assert!(monk[2].current);
    assert_eq!(monk[3].lane, None);
    assert_eq!(lane_places(monk, 0), vec![0, 2]);
    assert_eq!(lane_places(monk, 4), Vec::<usize>::new());
    assert_eq!(patch_current("").total, 0);
    assert_eq!(patch_current("only a heading").champs.len(), 0);
    let one = patch_current("h\n1.0\tx\tmonk\tTop\t0\t1\t2\n");
    assert_eq!(one.total, 0);
    assert!(one.champs.get("monk").unwrap()[0].current);
    assert_eq!(read_rows(PATCH, 14).len(), 6);
    assert_eq!(read_rows(PATCH, 15).len(), 0);
}

fn figure(d: &str, g: u32, m: f64) -> Figure {
    Figure { delta: d.to_string(), games: g, matches: m.to_bits() }
}

#[test]
fn rows_of_winrates() {
    let c = patch_current(PATCH);
    let rows = write_winrates(&c, &vec![figure("0.031", 10, 10.2), figure("-0.010", 9, 9.0)]);
    assert_eq!(rows, words(&["C\tmonk\t0.031\t10", "C\togre\t-0.010\t9"]));
    let zero = || figure("0.000", 0, 0.0);
    let lanes = vec![
        vec![figure("0.1", 9, 9.5), zero(), zero(), figure("9", 9, 9.0), zero()],
        vec![zero(), figure("0.2", 9, 9.0), zero(), zero(), zero()],
    ];
    assert_eq!(write_lane_winrates(&c, &lanes), words(&["CP\tmonk\t0\t0.1\t9", "CP\togre\t1\t0.2\t9"]));
}

#[test]
fn rows_of_lanes() {
    assert_eq!(compute_pos(PATCH), words(&["POS\tmonk\t0\t0", "POS\togre\t1\t1"]));
    let even = "h\nv\t1\tmonk\tTop\t0\t0\t2\nv\t1\tmonk\tMid\t0\t0\t4\nv\t1\tmonk\tSupport\t0\t0\t4\nv\t1\tbard\tTop\t0\t0\t0\n";
    assert_eq!(compute_pos(even), words(&["POS\tmonk\t4\t4,0,2"]));
    let thin = "h\nv\t1\tmonk\tTop\t0\t0\t19\nv\t1\tmonk\tMid\t0\t0\t81\n";
    assert_eq!(compute_pos(thin), words(&["POS\tmonk\t2\t2"]));
    let fifth = "h\nv\t1\tmonk\tTop\t0\t0\t1\nv\t1\tmonk\tMid\t0\t0\t4\n";
    assert_eq!(compute_pos(fifth), words(&["POS\tmonk\t2\t2,0"]));
    assert_eq!(lane_idx("Bottom"), Some(3));
    assert_eq!(lane_idx("bottom"), None);
}

#[test]
fn rows_of_roles() {
    let m = role_samples(PATCH);
    assert_eq!(m.len(), 2);
    let monk = m.get("monk").unwrap();
    assert_eq!(monk.len(), 2);
    assert_eq!(monk[0].tanking, "16");
    assert_eq!(monk[0].matches, 6);
    assert_eq!(monk[1].matches, 1);
    assert_eq!(m.get("ogre").unwrap().len(), 1);
    let fig = |d: f64| RoleFigure { dealt: d.to_bits(), tank: "1.70".to_string(), heal: "0.10".to_string() };
    assert_eq!(compute_roles(&m, &vec![fig(10.0), fig(0.0)]), words(&["RP\tmonk\t1.70\t0.10"]));
    let few = role_samples("h\nv\t1\tmonk\tTop\t0\t0\t4\t1\t1\t1\n");
    assert_eq!(compute_roles(&few, &vec![fig(1.0)]), Vec::<String>::new());
    let enough = role_samples("h\nv\t1\tmonk\tTop\t0\t0\t5\t1\t1\t1\n");
    assert_eq!(compute_roles(&enough, &vec![fig(1.0)]).len(), 1);
}

#[test]
fn roles_of_the_newest_version() {
    let m = role_samples("h\n1.0\t9\tmonk\tTop\t0\t0\t5\t100\t300\t0\n1.1\t9\tmonk\tTop\t0\t0\t5\t100\t100\t0");
    let monk = m.get("monk").unwrap();
    assert_eq!(monk.len(), 1);
    let (d, t, h): (f64, f64, f64) = (monk[0].dealing.parse().unwrap(), monk[0].tanking.parse().unwrap(), monk[0].healing.parse().unwrap());
    let fig = RoleFigure { dealt: d.to_bits(), tank: format!("{:.2}", t / d), heal: format!("{:.2}", h / d) };
    assert_eq!(compute_roles(&m, &vec![fig]), words(&["RP\tmonk\t1.00\t0.00"]));
    let short = role_samples("h\n1.1\t9\tmonk\tTop\t0\t0\t5\t100\t100\t0\n1.2\t9\tmonk\tTop\n");
    assert_eq!(short.get("monk").unwrap().len(), 1);
}

#[test]
fn the_pool_of_a_save() {
    assert_eq!(compute_pool(&words(&["x \"monk\" y", "\"ogre", "\"ogre\""])), words(&["monk", "ogre"]));
    assert_eq!(compute_pool(&words(&[])), Vec::<String>::new());
    assert_eq!(read_pool_txt(" monk,,ogre \n"), Some(words(&["monk", "ogre"])));
    assert_eq!(read_pool_txt(" , \n"), None);
    assert_eq!(read_pool_txt(""), None);
}

#[test]
fn the_pool_is_kept_in_step() {
    let pool = words(&["monk", "ogre"]);
    let t = sync_pool("C\tx\t1\nPOOL\tbard\nM\t2\nPOOL\told\n", &pool).unwrap();
    assert_eq!(t, "C\tx\t1\nPOOL\tmonk,ogre\nM\t2\nPOOL\told\n");
    assert_eq!(sync_pool(&t, &pool), None);
    assert_eq!(sync_pool("M\t2", &pool).unwrap(), "M\t2\nPOOL\tmonk,ogre\n");
    assert_eq!(sync_pool("", &pool).unwrap(), "POOL\tmonk,ogre\n");
}

#[test]
fn the_pool_is_put_in_once() {
    let pool = words(&["monk", "ogre"]);
    for content in ["", "\r\r\n\n\nM\t2\r", "POOL\t\r\nx\r\r\n", "POOL\tmonk,ogre\r\r\n"] {
        let t = sync_pool(content, &pool).unwrap();
        assert_eq!(sync_pool(&t, &pool), None);
    }
    let split = words(&["a\nb"]);
    let t = sync_pool("M\t2\n", &split).unwrap();
    assert_eq!(t, "M\t2\nPOOL\ta\nb\n");
    assert_eq!(sync_pool(&t, &split).unwrap(), "M\t2\nPOOL\ta\nb\nb\n");
}

fn parts() -> Parts {
    Parts {
        save: "save_1".to_string(),
        pool: words(&["monk"]),
        pos: words(&["POS\tmonk\t0\t0"]),
        roles: words(&["RP\tmonk\t1.70\t0.10"]),
        winrates: words(&["C\tmonk\t0.031\t10"]),
        lane_winrates: words(&["CP\tmonk\t0\t0.100\t9"]),
        total: 77,
        stamp: "1,2,3,4".to_string(),
    }
}

#[test]
fn a_cache_says_what_it_was_made_from() {
    let gen = "# c\nC\told\t1\nS\tmonk\togre\t0.5\nM\t1\nSAVE\tother\nPOOL\tx\nT\tmonk\tMelee\tAD\tTank,CC\nB\tmonk\t0.25\n";
    let mut p = parts();
    let c = regen(gen, &p);
    assert_eq!(c, "# c\nS\tmonk\togre\t0.5\nT\tmonk\tMelee\tAD\tTank,CC\nB\tmonk\t0.25\nSAVE\tsave_1\nPOOL\tmonk\nPOS\tmonk\t0\t0\nRP\tmonk\t1.70\t0.10\nC\tmonk\t0.031\t10\nCP\tmonk\t0\t0.100\t9\nM\t77\nSTAMP\t1,2,3,4\n");
    assert_eq!(read_cached_count(&c), 77);
    assert_eq!(read_cache_stamp(&c), "1,2,3,4");
    let mut readings: TextMap<u32> = TextMap::new();
    for n in numerals(&c) {
        readings.insert(&n, n.parse::<f32>().unwrap().to_bits());
    }
    let t = parse_tables_from_str(&c, &readings);
    assert_eq!(t.matches, 77);
    assert_eq!(t.save_name, "save_1");
    assert!(t.pool.contains("monk"));
    assert_eq!(t.delta("monk"), 0.031f32.to_bits());
    assert_eq!(t.games("monk"), 10);
    assert_eq!(t.tier_of("old", None), "");
    assert_eq!(t.delta_for("monk", Some(0)), 0.1f32.to_bits());
    assert_eq!(t.syn("monk", "ogre"), 0.5f32.to_bits());
    assert_eq!(t.ban("monk"), 0.25f32.to_bits());
    assert!(t.has_tag("monk", "CC"));
    assert_eq!(t.primary("monk"), Some(0));
    assert_eq!(t.lanes("monk"), vec![0]);
    assert_eq!(t.role("monk"), (1.7f32.to_bits(), 0.1f32.to_bits()));
    assert_eq!(load_tables(&Some(c)), (true, "1챔프".to_string()));
    p.winrates = words(&[]);
    assert_eq!(load_tables(&Some(regen(gen, &p))), (true, "새 세이브 · 데이터 없음(콜드스타트)".to_string()));
    p.pool = words(&[]);
    assert!(!regen("", &p).contains("POOL"));
    assert_eq!(read_cached_count("M\tx\nM\t5\n"), 5);
    assert_eq!(read_cached_count("none"), 0);
    assert_eq!(read_cache_stamp("STAMP\t a \n"), "a");
    assert_eq!(read_cache_stamp(""), "");
}

#[test]
fn the_shared_directory() {
    assert_eq!(base(Some("C:\\Users\\x")), "C:/Users/x/tfm2-overlay");
    assert_eq!(base(None), "C:/tmp/tfm2-overlay");
}

fn position(p: &str) -> PositionStats {
    PositionStats {
        position: p.to_string(),
        wins: "1".to_string(),
        matches: "2".to_string(),
        dealing: "3".to_string(),
        tanking: "4".to_string(),
        healing: "5".to_string(),
        kills: "6".to_string(),
        deaths: "7".to_string(),
        cs: "8".to_string(),
        gold: "9".to_string(),
        dealing_line_phase: "10".to_string(),
        tanking_line_phase: "11".to_string(),
        healing_line_phase: "12".to_string(),
        gold_line_phase: "13".to_string(),
        cs_line_phase: "14".to_string(),
    }
}

#[test]
fn exported_statistics_are_read() {
    let db = vec![VersionStats {
        version: "1.2".to_string(),
        total_match: 30,
        data: vec![
            ChampionStats { champion: "monk".to_string(), bans: "7".to_string(), by_position: vec![position("Top"), position("Mid")] },
            ChampionStats { champion: "ogre".to_string(), bans: "0".to_string(), by_position: vec![] },
        ],
    }];
    let t = patch_tsv(&db);
    assert!(t.starts_with("version\ttotal_match\tchampion\tposition\tbans\twins\tmatches\tdealing\ttanking\thealing\tkills\tdeaths\tcs\tgold\tdealing_line_phase\ttanking_line_phase\thealing_line_phase\tgold_line_phase\tcs_line_phase\n"));
    assert_eq!(t.matches('\n').count(), 3);
    for line in t.lines() {
        assert_eq!(line.split('\t').count(), 19);
    }
    let rows = read_rows(&t, 19);
    assert_eq!(rows.len(), 2);
    assert_eq!(rows[0].join("\t"), "1.2\t30\tmonk\tTop\t7\t1\t2\t3\t4\t5\t6\t7\t8\t9\t10\t11\t12\t13\t14");
    assert_eq!(rows[1][3], "Mid");
    assert_eq!(compute_pos(&t), words(&["POS\tmonk\t2\t2,0"]));
    assert_eq!(patch_current(&t).total, 30);
    assert_eq!(patch_tsv(&vec![]).lines().count(), 1);
}

#[test]
fn data_are_exported_when_they_change() {
    let c = Counts { solo: 1, replay: 2, patch_total: 3, pool: 4 };
    let d = Counts { solo: 2, ..c };
    let mut e = Exporter::new();
    assert_eq!(e.last, None);
    assert_eq!(e.pre_update(false, &c, 16), Export::Skip);
    assert_eq!(e.pre_update(true, &c, 16), Export::WriteAndStart);
    assert_eq!(e.last, Some(c));
    assert_eq!(e.pre_update(true, &c, 9000), Export::Skip);
    assert_eq!(e.acc_ms, 0);
    assert_eq!(e.pre_update(true, &d, 7999), Export::Skip);
    assert_eq!(e.acc_ms, 7999);
    assert_eq!(e.pre_update(true, &d, 1), Export::Write);
    assert_eq!((e.acc_ms, e.last), (0, Some(d)));
    assert_eq!(e.pre_update(true, &c, u32::MAX), Export::Write);
    assert_eq!(stamp(&c), "1,2,3,4");
    let swapped = Counts { solo: c.replay, replay: c.solo, ..c };
    assert_eq!(e.pre_update(true, &swapped, 8000), Export::Write);
    assert_eq!(e.last, Some(swapped));
    let huge = Counts { solo: usize::MAX, replay: usize::MAX, patch_total: usize::MAX, pool: usize::MAX };
    let mut first = Exporter::new();
    assert_eq!(first.pre_update(true, &huge, 0), Export::WriteAndStart);
    assert_eq!(first.pre_update(true, &huge, 9000), Export::Skip);
    assert!(!is_loaded(0, 0));
    assert!(is_loaded(0, 1));
    assert_eq!(patch_total(&vec![1, 2, 3]), Some(6));
    assert_eq!(patch_total(&vec![usize::MAX, 1]), None);
}

#[test]
fn the_exported_pool_is_in_order() {
    assert_eq!(pool_text(&words(&["ogre", "bard", "monk", "bard"])), "bard,bard,monk,ogre");
    assert_eq!(pool_text(&words(&[])), "");
}

#[test]
fn tiers_and_roles_of_the_page() {
    for (d, t, c) in [(0.06, "S", "#ff5d5d"), (0.02, "A", "#ff9f43"), (-0.02, "B", "#feca57"), (-0.06, "C", "#8fd14f"), (-0.0601, "D", "#7a8aa0")] {
        assert_eq!(tier((d as f64).to_bits()), (t, c));
    }
    let r = |d: f64, t: f64, h: f64| role(d.to_bits(), t.to_bits(), h.to_bits());
    assert_eq!(r(0.0, 9.0, 9.0), "");
    assert_eq!(r(1.0, 9.0, 1.5), "힐");
    assert_eq!(r(1.0, 1.6, 0.99), "탱");
    assert_eq!(r(1.0, 1.6, 1.0), "브");
    assert_eq!(r(1.0, 1.25, 1.19), "브");
    assert_eq!(r(1.0, 1.25, 1.2), "딜");
    assert_eq!(esc("<a>&<"), "&lt;a&gt;&amp;&lt;");
}

fn figures(rate: f64) -> Figures {
    Figures {
        rate: rate.to_bits(),
        delta: (rate - 0.5).to_bits(),
        deal: 1.0f64.to_bits(),
        tank: 0.0f64.to_bits(),
        heal: 0.0f64.to_bits(),
        rate_text: "W".to_string(),
        pick_text: "P".to_string(),
        ban_text: "B".to_string(),
        deal_text: "D".to_string(),
        tank_text: "T".to_string(),
        heal_text: "H".to_string(),
        cs_text: "C".to_string(),
        gold_text: "G".to_string(),
    }
}

#[test]
fn the_page_of_a_patch() {
    let tsv = "h\n1\t9\tmonk\tTop\t1\t9\t99\ta\tb\tc\td\te\tf\tg\n2\t40\tmonk\tTop\t3\t5\t10\ta\tb\tc\td\te\tf\tg\n2\t41\tmonk\tMid\t2\t1\t5\ta\tb\tc\td\te\tf\tg\n2\t40\togre\tTop\t2\t1\t20\ta\tb\tc\td\te\tf\tg\n2\t40\t<x>\tTop\t2\t1\t7\ta\tb\tc\td\te\tf\tg\n";
    let r = read_report(tsv).unwrap();
    assert_eq!(r.version, "2");
    assert_eq!(r.total, 40);
    assert_eq!(r.champs.len(), 3);
    let monk = r.champs.get("monk").unwrap();
    assert_eq!(cell(monk, None), (6, 15));
    assert_eq!(cell(monk, Some("Mid")), (1, 5));
    assert_eq!(bans_of(monk), 3);
    assert_eq!(monk[0].sums, words(&["a", "b", "c", "d", "e", "f", "g"]));
    assert_eq!(top_champs(&r), vec![1, 2]);
    assert_eq!(pos_champs(&r, 0), vec![1, 2]);
    assert_eq!(pos_champs(&r, 2), Vec::<usize>::new());
    let lanes = vec![vec![figures(0.6), figures(0.4)], vec![], vec![], vec![], vec![]];
    let page = write_page(&r, "a<b", &vec![figures(0.4), figures(0.6)], &lanes);
    assert!(page.starts_with("<!doctype html><html lang=ko><head><meta charset=utf-8>"));
    assert!(page.contains("<h1>TFM2 메타·챔피언 분석</h1><p class=sub>패치 <b>2</b> · 매치 <b>40</b>판 · 세이브 <b>a&lt;b</b></p><p class=legend>"));
    assert!(page.contains("<th>힐/판</th></tr><tr><td class=l><span class=tier style='background:#ff5d5d'>S</span></td><td class=l>오우거</td><td><span class='role r딜'>딜</span></td><td class=wr style='color:#ff5d5d'>W%</td><td>20</td><td>P%</td><td>B%</td><td>D</td><td>T</td><td>H</td></tr><tr><td class=l><span class=tier style='background:#7a8aa0'>D</span></td><td class=l>몽크</td>"));
    assert!(page.contains("<h3>탑</h3><table>"));
    assert!(page.contains("<td class=l>몽크</td><td><span class='role r딜'>딜</span></td><td class=wr style='color:#ff5d5d'>W%</td><td>10</td><td>P%</td><td>D</td><td>T</td><td>H</td><td>C</td><td>G</td></tr>"));
    assert!(!page.contains("<h3>미드</h3>"));
    assert!(page.ends_with("</p></body></html>"));
    assert!(read_report("h\nshort\t1\n").is_none());
    assert!(EMPTY_PAGE.contains("아직 데이터가 없습니다."));
}
