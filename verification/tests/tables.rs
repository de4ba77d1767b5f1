use draft_overlay::bits::{
    above32, above64, at_least32, at_least64, clamp32, is_finite32, is_nan32, is_nan64,
};
use draft_overlay::champs::{champ_place, chosung_group, ko_name, ko_names, CHAMPS, CHOSUNG};
use draft_overlay::clock::{clock_ms, now_ms};
use draft_overlay::report::{role, tier};
use draft_overlay::state::{parse_state, split_csv, DraftState};
use draft_overlay::tables::{numerals, parse_tables_from_str, Tables};
use draft_overlay::tags::{CompGaps, CounterSigns};
use draft_overlay::textmap::TextMap;

fn load(tsv: &str) -> Tables {
    let mut readings: TextMap<u32> = TextMap::new();
    for n in numerals(tsv) {
        if let Ok(x) = n.parse::<f32>() {
            readings.insert(&n, x.to_bits());
        }
    }
    parse_tables_from_str(tsv, &readings)
}

fn team(v: &[&str]) -> Vec<String> {
    v.iter().map(|s| s.to_string()).collect()
}

#[test]
fn champion_ids_differ() {
    assert_eq!(CHAMPS.len(), 60);
    for i in 0..60 {
        assert_eq!(champ_place(CHAMPS[i].0), Some(i));
    }
    assert_eq!(champ_place("nobody"), None);
}

#[test]
fn names_of_champions() {
    assert_eq!(ko_name("monk"), "몽크");
    assert_eq!(ko_name("ogre"), "오우거");
    assert_eq!(ko_name("nobody"), "nobody");
    for (id, ko) in CHAMPS {
        assert_eq!(ko_name(id), ko);
        assert_eq!(ko_name(&ko_name(id)), ko);
    }
    assert_eq!(ko_names(&team(&["vampire", "x"])), team(&["흡혈귀", "x"]));
}

#[test]
fn groups_of_leading_consonants() {
    assert_eq!(CHOSUNG.len(), 14);
    assert_eq!(chosung_group("가"), Some(0));
    assert_eq!(chosung_group("까"), Some(0));
    assert_eq!(chosung_group("나"), Some(1));
    assert_eq!(chosung_group("싸움"), Some(6));
    assert_eq!(chosung_group("힣"), Some(13));
    assert_eq!(chosung_group("monk"), None);
    assert_eq!(chosung_group(""), None);
    assert_eq!(chosung_group("ㄱ"), None);
}

#[test]
fn patterns_compare_like_their_numbers() {
    let xs = [0.0f32, -0.0, 1.0, -1.0, 0.06, -0.06, f32::MAX, f32::MIN, f32::INFINITY, f32::NEG_INFINITY, f32::NAN, 1e-40];
    for a in xs {
        assert_eq!(is_nan32(a.to_bits()), a.is_nan());
        assert_eq!(is_finite32(a.to_bits()), a.is_finite());
        for b in xs {
            assert_eq!(at_least32(a.to_bits(), b.to_bits()), a >= b);
            assert_eq!(above32(a.to_bits(), b.to_bits()), a > b);
        }
        assert_eq!(clamp32(a.to_bits(), 0.25f32.to_bits(), 1.0f32.to_bits()), a.clamp(0.25, 1.0).to_bits());
    }
    let ys = [0.0f64, -0.0, 0.5, -0.5, f64::INFINITY, f64::NAN, 5e-324];
    for a in ys {
        assert_eq!(is_nan64(a.to_bits()), a.is_nan());
        for b in ys {
            assert_eq!(at_least64(a.to_bits(), b.to_bits()), a >= b);
            assert_eq!(above64(a.to_bits(), b.to_bits()), a > b);
        }
    }
}

#[test]
fn the_clock_goes_on() {
    assert_eq!(clock_ms(None), 0);
    assert_eq!(clock_ms(Some(1234)), 1234);
    assert_eq!(clock_ms(Some((1u128 << 64) + 5)), 5);
    let a = now_ms();
    assert!(a > 1_600_000_000_000);
    assert!(now_ms() >= a);
}

#[test]
fn drafts_are_read() {
    let s = parse_state("ts=42\nphase=BAN\nexplore=1\nally_pick=monk,,archer\nenemy_ban=\navail=7\nnoise\nx=y\n");
    assert!(s.ok);
    assert_eq!(s.ts, 42);
    assert_eq!(s.phase, "BAN");
    assert!(s.explore);
    assert_eq!(s.ally_pick, team(&["monk", "archer"]));
    assert!(s.enemy_ban.is_empty());
    assert_eq!(s.avail, 7);
    let s = parse_state("ts=-1\nexplore=true");
    assert!(!s.ok);
    assert_eq!(s.ts, 0);
    assert!(!s.explore);
    assert!(!DraftState::default().ok);
    assert_eq!(split_csv(",a,,b,"), team(&["a", "b"]));
}

#[test]
fn page_and_tables_agree() {
    for text in ["0.061", "0.059", "0.021", "0.019", "-0.02", "-0.021", "-0.06", "-0.061", "0", "1e-40"] {
        let t = load(&format!("C\tmonk\t{}\t9\n", text));
        let d = text.parse::<f32>().unwrap() as f64;
        assert_eq!(t.tier_of("monk", None), tier(d.to_bits()).0);
    }
    for (tank, heal) in [("1.6", "0.99"), ("1.6", "1"), ("1.25", "1.2"), ("1.25", "1.19"), ("9", "1.5"), ("0", "0")] {
        let t = load(&format!("RP\tmonk\t{}\t{}\n", tank, heal));
        let wide = |s: &str| (s.parse::<f32>().unwrap() as f64).to_bits();
        assert_eq!(t.role_tag("monk"), role(1.0f64.to_bits(), wide(tank), wide(heal)));
        assert!(!(t.is_frontline_data("monk") && t.is_healer_data("monk")));
    }
}

#[test]
fn the_last_line_of_a_key_counts() {
    let all = parse_state("ts=1\nally_pick=a,b\nx=1\nphase=BAN\nts=2\nexplore=1\nnoise\nexplore=0\nphase=PICK\nally_pick=c");
    let last = parse_state("ts=2\nexplore=0\nphase=PICK\nally_pick=c");
    assert_eq!((all.ok, all.ts, all.phase, all.explore, all.ally_pick), (true, 2, "PICK".to_string(), false, team(&["c"])));
    assert_eq!((last.ok, last.ts, last.phase, last.explore, last.ally_pick), (true, 2, "PICK".to_string(), false, team(&["c"])));
    assert!(!parse_state("phase=BAN\nphase=\n").ok);
}

#[test]
fn written_drafts_are_read_back() {
    let ids = team(&["monk", "archer"]);
    let bans = team(&["ogre"]);
    let s = parse_state(&format!("ts={}\nally_pick={}\nenemy_ban={}\nphase=BAN", u64::MAX, ids.join(","), bans.join(",")));
    assert_eq!((s.ok, s.ts, s.phase.as_str(), s.explore, s.avail), (true, u64::MAX, "BAN", false, 0));
    assert_eq!((s.ally_pick, s.enemy_ban), (ids, bans));
    assert!(s.enemy_pick.is_empty() && s.ally_ban.is_empty());
    let s = parse_state("ts=3\nphase=P=1\nexplore=1\nally_pick=\nenemy_pick=a\nally_ban=b,c\nenemy_ban=d\navail=9\n");
    assert_eq!((s.ok, s.ts, s.phase.as_str(), s.explore, s.avail), (true, 3, "P=1", true, 9));
    assert_eq!((s.ally_pick, s.enemy_pick, s.ally_ban, s.enemy_ban), (team(&[]), team(&["a"]), team(&["b", "c"]), team(&["d"])));
}

#[test]
fn tables_are_read() {
    let t = load("# comment\n\nC\tmonk\t0.06\t14\nC\tarcher\t-0.03\nCP\tmonk\t1\t0.1\t20\nCP\tmonk\t9\t0.2\t1\nCP\tmonk\tx\t0.2\t1\nS\tmonk\tarcher\t0.5\nK\tmonk\tarcher\t-0.25\nT\tmonk\tMelee\tAP\tTank,CC\nT\tbare\tMelee\tAD\nB\tmonk\t0.4\nM\t120\nSAVE\tsave_1\nPOOL\tmonk,,archer\nPOS\tmonk\t1\t1,3,9\nPOS\tarcher\t7\tx\nRP\tmonk\t1.7\t0.5\nZ\tjunk\nC\tshort\n");
    assert_eq!(t.len(), 2);
    assert_eq!(t.matches, 120);
    assert_eq!(t.match_count(), 120);
    assert_eq!(t.confidence(), 120);
    assert_eq!(t.save_name, "save_1");
    assert_eq!(t.save(), "save_1");
    assert_eq!(t.pool.len(), 2);
    assert!(t.offers().contains("archer"));
    assert_eq!(t.delta("monk"), 0.06f32.to_bits());
    assert_eq!(t.delta("nobody"), 0);
    assert_eq!(t.games("monk"), 14);
    assert_eq!(t.games("archer"), u32::MAX);
    assert!(t.low_conf("monk"));
    assert!(!t.low_conf("archer"));
    assert_eq!(t.delta_for("monk", Some(1)), 0.1f32.to_bits());
    assert_eq!(t.delta_for("monk", Some(4)), 0.2f32.to_bits());
    assert_eq!(t.delta_for("monk", Some(0)), 0.06f32.to_bits());
    assert_eq!(t.games_for("monk", Some(1)), 20);
    assert!(t.low_conf_for("monk", Some(4)));
    assert!(!t.low_conf_for("monk", Some(1)));
    assert_eq!(t.syn("monk", "archer"), 0.5f32.to_bits());
    assert_eq!(t.syn("archer", "monk"), 0);
    assert_eq!(t.cnt("monk", "archer"), (-0.25f32).to_bits());
    assert_eq!(t.ban("monk"), 0.4f32.to_bits());
    assert!(t.has_tag("monk", "CC"));
    assert!(!t.has_tag("bare", "CC"));
    assert_eq!(t.damage("monk"), "AP");
    assert_eq!(t.damage("nobody"), "AD");
    assert_eq!(t.category("monk"), "Melee");
    assert_eq!(t.category("nobody"), "");
    assert_eq!(t.role("monk"), (1.7f32.to_bits(), 0.5f32.to_bits()));
    assert!(t.has_pos());
    assert_eq!(t.primary("monk"), Some(1));
    assert_eq!(t.primary("archer"), Some(4));
    assert_eq!(t.primary("nobody"), None);
    assert_eq!(t.lanes("monk"), vec![1, 3]);
    assert_eq!(t.lanes("archer"), vec![7]);
    assert!(t.plays("monk", 3));
    assert!(!t.plays("monk", 0));
    assert_eq!(t.flex("monk"), 2);
    assert_eq!(t.flex("nobody"), 1);
    assert_eq!(t.flex_steps("monk", 1), 1);
    assert_eq!(t.flex_steps("monk", 2), 0);
    assert_eq!(t.flex_steps("nobody", 0), 0);
}

#[test]
fn a_later_row_counts() {
    let t = load("C\tmonk\t0.5\nC\tmonk\tx\nM\t7\nM\tx\nPOOL\ta\nPOOL\tb\n");
    assert_eq!(t.delta("monk"), 0);
    assert_eq!(t.matches, 0);
    assert!(!t.pool.contains("a"));
    assert!(t.pool.contains("b"));
}

#[test]
fn tables_need_their_numerals_alone() {
    let tsv = "C\tmonk\t0.5\nM\t12\nRP\tmonk\t1.5\t2.5\n";
    assert_eq!(numerals(tsv), team(&["0.5", "1.5", "2.5"]));
    let mut a: TextMap<u32> = TextMap::new();
    a.insert("0.5", 7);
    let mut b: TextMap<u32> = TextMap::new();
    b.insert("0.5", 7);
    b.insert("12", 99);
    assert_eq!(parse_tables_from_str(tsv, &a).delta("monk"), 7);
    assert_eq!(parse_tables_from_str(tsv, &b).delta("monk"), 7);
    assert_eq!(parse_tables_from_str(tsv, &b).matches, 12);
}

#[test]
fn tiers_and_roles() {
    let t = load("C\ts\t0.06\nC\ta\t0.02\nC\tb\t-0.02\nC\tc\t-0.06\nC\td\t-0.07\nCP\ts\t2\t-0.5\t3\nRP\theal\t0.1\t1.5\nRP\ttank\t1.6\t0.9\nRP\tbruiser\t1.6\t1.1\nRP\tcarry\t1.2\t0\n");
    for (c, tier) in [("s", "S"), ("a", "A"), ("b", "B"), ("c", "C"), ("d", "D"), ("nobody", "")] {
        assert_eq!(t.tier_of(c, None), tier);
    }
    assert_eq!(t.tier_of("s", Some(2)), "D");
    assert_eq!(t.tier_of("s", Some(1)), "");
    for (c, role) in [("heal", "힐"), ("tank", "탱"), ("bruiser", "브"), ("carry", "딜"), ("nobody", "")] {
        assert_eq!(t.role_tag(c), role);
    }
    assert!(t.is_healer_data("heal"));
    assert!(t.is_tank_data("tank"));
    assert!(!t.is_tank_data("bruiser"));
    assert!(t.is_frontline_data("bruiser"));
}

#[test]
fn gaps_of_a_team() {
    let t = load("T\ttank\tMelee\tAD\tTank,Frontline\nT\tmage\tRange\tAP\tAOE,CC\nT\thealer\tMelee\tAP\tHeal\n");
    let none = CompGaps { tank: false, front: false, cc: false, heal: false, backline: false, ap: false, ad: false };
    assert_eq!(t.comp_need("tank", &team(&[])), none);
    assert_eq!(t.comp_need("tank", &team(&["mage"])), CompGaps { tank: true, ad: true, ..none });
    assert_eq!(t.comp_need("mage", &team(&["tank"])), CompGaps { cc: true, backline: true, ap: true, ..none });
    assert_eq!(t.comp_need("tank", &team(&["tank"])), none);
    assert_eq!(t.comp_need("healer", &team(&["tank", "mage"])), CompGaps { heal: true, ..none });
    assert_eq!(t.overlap("healer", &team(&["tank", "mage", "healer"])), 2);
    assert_eq!(t.overlap("nobody", &team(&["tank"])), 0);
}

#[test]
fn pairings_and_answers_of_kits() {
    let t = load("T\tcc\tMelee\tAD\tCC\nT\taoe\tMelee\tAD\tAOE\nT\tback\tRange\tAD\tBackline\nT\tdiver\tAssassin\tAD\tMobility\nT\tpoker\tMelee\tAD\tPoke,DOT\nT\twall\tMelee\tAD\tTank,Frontline\n");
    assert_eq!(t.tag_synergy("aoe", &team(&["cc"])), 1);
    assert_eq!(t.tag_synergy("cc", &team(&["aoe", "back"])), 2);
    assert_eq!(t.tag_synergy("diver", &team(&["cc", "aoe", "back"])), 0);
    let none = CounterSigns { dive: 0, whittle: 0, engage: false, mitigate: false };
    assert_eq!(t.tag_counter("diver", &team(&["back"])), CounterSigns { dive: 1, ..none });
    assert_eq!(t.tag_counter("diver", &team(&["back", "back", "back"])), CounterSigns { dive: 3, ..none });
    assert_eq!(t.tag_counter("poker", &team(&["wall"])), CounterSigns { whittle: 1, ..none });
    assert_eq!(t.tag_counter("diver", &team(&["poker", "poker"])), CounterSigns { engage: true, ..none });
    assert_eq!(t.tag_counter("diver", &team(&["cc", "cc", "cc"])), CounterSigns { mitigate: true, ..none });
    assert_eq!(t.tag_counter("cc", &team(&["back", "wall"])), none);
}

#[test]
fn scores_are_made_of_the_tables() {
    let t = load("C\tmonk\t0.05\t20\nCP\tmonk\t2\t-0.02\t9\nS\tmonk\togre\t0.1\nK\tmonk\tarcher\t0.2\nK\tarcher\tmonk\t-0.3\nB\tmonk\t0.4\nT\tmonk\tMelee\tAD\tMobility,CC,Tank\nT\togre\tMelee\tAD\tAOE\nT\tarcher\tRange\tAD\tBackline\nM\t50\n");
    let p = t.score_pick("monk", &team(&["ogre", "bard"]), &team(&["archer"]));
    assert_eq!((p.picks_made, p.trust, p.power), (2, 50, 0.05f32.to_bits()));
    assert_eq!(p.synergies, vec![0.1f32.to_bits(), 0]);
    assert_eq!((p.pairings, p.sharing), (1, 1));
    assert_eq!((p.answers, p.threats), (vec![0.2f32.to_bits()], vec![(-0.3f32).to_bits()]));
    assert_eq!((p.signs.dive, p.gaps.tank, p.gaps.cc, p.gaps.ap), (1, true, true, false));
    assert_eq!(t.score_pick_in("monk", &team(&[]), &team(&[]), Some(2)).power, (-0.02f32).to_bits());
    let first = t.score_pick("monk", &team(&[]), &team(&[]));
    assert_eq!((first.synergies.len(), first.pairings, first.sharing, first.gaps.tank), (0, 0, 0, false));
    let b = t.score_ban("monk", &team(&["archer"]), &team(&["ogre"]));
    assert_eq!((b.trust, b.power, b.banrate), (50, 0.05f32.to_bits(), 0.4f32.to_bits()));
    assert_eq!((b.answers, b.synergies), (vec![0.2f32.to_bits()], vec![0.1f32.to_bits()]));
    assert_eq!(b.signs.dive, 1);
    let c = t.counters("monk", "archer");
    assert_eq!((c.trust, c.answer, c.threat, c.signs.dive), (50, 0.2f32.to_bits(), (-0.3f32).to_bits(), 1));
    assert_eq!(t.counters("archer", "monk").answer, c.threat);
}
