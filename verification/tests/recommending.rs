use draft_overlay::champs::{champ_place, CHAMPS};
use draft_overlay::lanes::{assign_lanes, counter_target, recommend_lanes, recommend_lanes_at};
use draft_overlay::rank::{dominant, rank_keys, rank_scores};
use draft_overlay::recommend::{best_of, open_champs, recommend, recommend_at, Scored, TOP_N};
use draft_overlay::score::{CounterTerms, LaneTerms, Terms};
use draft_overlay::state::DraftState;
use draft_overlay::tables::{numerals, parse_tables_from_str, Tables};
use draft_overlay::textmap::TextMap;
use draft_overlay::textset::TextSet;

fn stats(tsv: &str) -> Tables {
    let mut readings: TextMap<u32> = TextMap::new();
    for n in numerals(tsv) {
        if let Ok(x) = n.parse::<f32>() {
            readings.insert(&n, x.to_bits());
        }
    }
    parse_tables_from_str(tsv, &readings)
}

fn ids(v: &[&str]) -> Vec<String> {
    v.iter().map(|s| s.to_string()).collect()
}

fn score(x: f32) -> Scored {
    Scored { total: x.to_bits(), parts: [x.to_bits(), 0, 0, 0] }
}

#[test]
fn the_greatest_part_leads() {
    let b = |x: f32| x.to_bits();
    assert_eq!(dominant(&[b(0.1), b(0.3), b(0.2), b(0.0)]), 1);
    assert_eq!(dominant(&[b(0.3), b(0.1), b(0.2), b(0.3)]), 3);
    assert_eq!(dominant(&[b(-0.3), b(-0.1), b(-0.2), b(-0.4)]), 1);
    assert_eq!(dominant(&[0, 0, 0, 0]), 3);
}

#[test]
fn scores_are_ranked_like_a_stable_sort() {
    let xs = [0.5f32, -1.0, 0.5, 2.0, 0.0, -0.0];
    let v: Vec<u32> = xs.iter().map(|x| x.to_bits()).collect();
    let mut want: Vec<usize> = (0..xs.len()).collect();
    want.sort_by(|a, b| xs[*b].partial_cmp(&xs[*a]).unwrap());
    assert_eq!(rank_scores(&v), want);
    assert_eq!(rank_keys(&vec![3, 9, 3, 10]), vec![3, 1, 0, 2]);
    assert_eq!(rank_keys(&vec![]), Vec::<usize>::new());
}

#[test]
fn taken_and_unreleased_champions_are_not_open() {
    let mut s = DraftState::default();
    s.ally_pick = ids(&["vampire"]);
    s.enemy_ban = ids(&["monk"]);
    let open = open_champs(&s, None);
    assert_eq!(open.len(), 58);
    assert_eq!(open[0], 2);
    let pool = TextSet::of(&ids(&["vampire", "ogre", "bard"]));
    assert_eq!(open_champs(&s, Some(&pool)), vec![58, 59]);
    let scored: Vec<Scored> = (0..60).map(|i| score(i as f32)).collect();
    assert_eq!(best_of(&open, &scored, 2), vec![59, 58]);
}

#[test]
fn the_best_open_champions_are_recommended() {
    let t = stats("C\togre\t0.07\t3\nM\t10\n");
    let mut s = DraftState::default();
    s.phase = "PICK".to_string();
    s.ts = 1000;
    s.ally_pick = ids(&["monk"]);
    s.enemy_pick = ids(&["bard"]);
    let scored: Vec<Scored> = (0..60).map(|i| score(i as f32 / 100.0)).collect();
    let v = recommend_at(&t, &s, false, None, &scored, 1500);
    assert!(!v.phase_ban);
    assert_eq!(v.age_ms, 500);
    assert_eq!(v.rows.len(), TOP_N);
    assert_eq!(v.rows[0].id, "ogre");
    assert_eq!(v.rows[0].ko, "오우거");
    assert_eq!(v.rows[0].label, "강챔");
    assert_eq!(v.rows[0].tier, "S");
    assert!(v.rows[0].low_conf);
    assert_eq!(v.rows[1].id, CHAMPS[57].0);
    assert_eq!(v.my_pick, ids(&["몽크"]));
    assert_eq!(v.opp_pick, ids(&["음유시인"]));
    assert_eq!(v.matches, 10);
    assert_eq!(v.pool_size, 0);
    let w = recommend_at(&t, &s, true, None, &scored, 10);
    assert_eq!(w.my_pick, ids(&["음유시인"]));
    assert_eq!(w.opp_pick, ids(&["몽크"]));
    assert_eq!(w.age_ms, 0);
    let x = recommend(&t, &s, false, None, by_power);
    assert_eq!(x.rows[0].id, "ogre");
    assert_eq!(x.rows[0].score, 0.07f32.to_bits());
    assert!(x.age_ms > 1_600_000_000_000);
}

fn by_power(t: Terms) -> Scored {
    match t {
        Terms::Pick(p) => Scored { total: p.power, parts: [p.power, 0, 0, 0] },
        Terms::Ban(b) => Scored { total: b.banrate, parts: [0, 0, 0, b.banrate] },
    }
}

#[test]
fn scores_go_by_phase_and_side() {
    let t = stats("C\togre\t0.07\t30\nB\tarcher\t0.9\nK\tlancer\tmonk\t0.5\nK\tinquisitor\tbard\t0.4\n");
    let mut s = DraftState::default();
    s.ally_pick = ids(&["monk"]);
    s.enemy_pick = ids(&["bard"]);
    s.phase = "PICK".to_string();
    assert_eq!(recommend(&t, &s, false, None, by_power).rows[0].id, "ogre");
    let answers = |t: Terms| match t {
        Terms::Pick(p) => Scored { total: p.answers[0], parts: [0, 0, p.answers[0], 0] },
        Terms::Ban(b) => Scored { total: b.answers[0], parts: [0, b.answers[0], 0, 0] },
    };
    let top = |s: &DraftState, enemy: bool| {
        let v = recommend(&t, s, enemy, None, answers);
        (v.rows[0].id.clone(), v.rows[0].label)
    };
    assert_eq!(top(&s, false), ("inquisitor".to_string(), "카운터"));
    assert_eq!(top(&s, true), ("lancer".to_string(), "카운터"));
    s.phase = "BAN".to_string();
    assert_eq!(top(&s, false), ("lancer".to_string(), "우리킬"));
    assert_eq!(top(&s, true), ("inquisitor".to_string(), "우리킬"));
    assert_eq!(recommend(&t, &s, false, None, by_power).rows[0].id, "archer");
}

#[test]
fn terms_of_a_draft() {
    let t = stats("C\tmonk\t0.05\t20\nCP\tmonk\t2\t-0.02\t9\nK\tmonk\tarcher\t0.2\nK\tmonk\togre\t0.1\nPOS\tmonk\t1\t1,2,3,4\n");
    let monk = champ_place("monk").unwrap();
    let mut s = DraftState::default();
    s.ally_pick = ids(&["ogre"]);
    s.enemy_pick = ids(&["archer", "bard"]);
    let pick = |s: &DraftState, enemy: bool| match t.draft_terms(s, enemy, monk) {
        Terms::Pick(p) => Some((p.picks_made, p.answers)),
        Terms::Ban(_) => None,
    };
    assert_eq!(pick(&s, false), Some((1, vec![0.2f32.to_bits(), 0])));
    assert_eq!(pick(&s, true), Some((2, vec![0.1f32.to_bits()])));
    let mut swapped = s.clone();
    swapped.ally_pick = s.enemy_pick.clone();
    swapped.enemy_pick = s.ally_pick.clone();
    assert_eq!(pick(&swapped, true), pick(&s, false));
    s.ally_ban = ids(&["monk"]);
    assert_eq!(pick(&s, false), Some((1, vec![0.2f32.to_bits(), 0])));
    let lane = t.lane_terms(&s, false, monk, 2);
    assert_eq!((lane.pick.power, lane.pick.picks_made, lane.flex), ((-0.02f32).to_bits(), 1, 2));
    assert_eq!(t.lane_terms(&s, false, monk, 3).pick.power, 0.05f32.to_bits());
    assert_eq!(t.lane_terms(&s, true, monk, 2).flex, 0);
    assert_eq!(t.counter_terms(&s, false, monk, 0).answer, 0.2f32.to_bits());
    assert_eq!(t.counter_terms(&s, true, monk, 0).answer, 0.1f32.to_bits());
    s.phase = "BAN".to_string();
    assert_eq!(pick(&s, false), None);
}

#[test]
fn bans_have_their_own_labels() {
    let t = stats("");
    let mut s = DraftState::default();
    s.phase = "BAN".to_string();
    let mut scored: Vec<Scored> = (0..60).map(|_| score(0.0)).collect();
    scored[4].total = 1.0f32.to_bits();
    scored[4].parts = [0, 0, 0, 1.0f32.to_bits()];
    let v = recommend_at(&t, &s, false, None, &scored, 0);
    assert!(v.phase_ban);
    assert_eq!(v.rows[0].id, CHAMPS[4].0);
    assert_eq!(v.rows[0].label, "밴율");
    assert_eq!(v.rows[1].id, CHAMPS[0].0);
    let few = TextSet::of(&ids(&["ogre"]));
    let v = recommend_at(&t, &s, false, Some(&few), &scored, 0);
    assert_eq!(v.rows.len(), 1);
    assert_eq!(v.pool_size, 1);
}

#[test]
fn picks_are_seated_on_lanes() {
    let t = stats("POS\tmonk\t1\t1,3\nPOS\tbard\t1\t1,3\nPOS\togre\t1\t1\nPOS\tbad\t9\tx\nPOS\tworse\t4\t4\n");
    assert_eq!(assign_lanes(&t, &ids(&["monk"])), Some(vec![None, Some(0), None, None, None]));
    assert_eq!(assign_lanes(&t, &ids(&["monk", "bard"])), Some(vec![None, Some(0), None, Some(1), None]));
    assert_eq!(
        assign_lanes(&t, &ids(&["monk", "bard", "ogre", "nobody"])),
        Some(vec![Some(2), Some(0), Some(3), Some(1), None])
    );
    let six = ids(&["a", "b", "c", "d", "e", "f"]);
    assert_eq!(assign_lanes(&t, &six), Some(vec![Some(0), Some(1), Some(2), Some(3), Some(4)]));
    assert_eq!(assign_lanes(&t, &ids(&["bad"])), Some(vec![None, None, None, None, Some(0)]));
    assert_eq!(assign_lanes(&t, &ids(&["worse", "bad"])), None);
}

fn board(totals: &[f32], lanes: usize) -> Vec<Vec<Scored>> {
    (0..lanes)
        .map(|l| (0..60).map(|i| score(totals[l] + i as f32 / 1000.0)).collect())
        .collect()
}

#[test]
fn the_lane_board() {
    let t = stats("POS\tmonk\t1\t1\nPOS\tbard\t0\t0,4\nPOS\togre\t0\t0\nPOS\tarcher\t3\t3\nPOS\tvampire\t0\t0\n");
    let mut s = DraftState::default();
    s.phase = "PICK".to_string();
    s.ally_pick = ids(&["monk"]);
    s.enemy_pick = ids(&["vampire"]);
    let scored = board(&[0.1, 0.0, 0.0, 0.5, 0.2], 5);
    let mut adv: Vec<Vec<u32>> = (0..60).map(|_| vec![0u32]).collect();
    adv[59][0] = 0.04f32.to_bits();
    let v = recommend_lanes_at(&t, &s, false, None, &scored, &adv, 0);
    assert!(v.has_pos);
    assert_eq!(v.lanes.len(), 5);
    assert_eq!(v.picks_made, 1);
    assert_eq!(v.timing, "선픽");
    assert_eq!(v.lanes[1].filled, Some("몽크".to_string()));
    assert!(v.lanes[1].cands.is_empty());
    assert_eq!(v.lanes[0].name, "탑");
    assert_eq!(v.lanes[0].cands.len(), 2);
    assert_eq!(v.lanes[0].cands[0].id, "ogre");
    assert_eq!(v.lanes[0].cands[1].id, "bard");
    assert_eq!(v.lanes[0].counter_of, Some("흡혈귀".to_string()));
    assert!(v.lanes[2].cands.is_empty());
    assert_eq!(v.lanes[3].cands[0].id, "archer");
    assert_eq!(v.lanes[3].counter_of, None);
    assert!(v.lanes[3].star);
    assert_eq!(v.lanes.iter().filter(|l| l.star).count(), 1);
    adv[59][0] = 0.03f32.to_bits();
    let w = recommend_lanes_at(&t, &s, false, None, &scored, &adv, 0);
    assert_eq!(w.lanes[0].counter_of, None);
}

#[test]
fn the_lane_board_scores_lanes() {
    let t = stats("CP\togre\t0\t0.05\t20\nCP\tbard\t4\t0.09\t20\nPOS\tmonk\t1\t1\nPOS\tbard\t0\t0,4\nPOS\togre\t0\t0\nPOS\tvampire\t0\t0\nK\togre\tvampire\t0.04\n");
    let mut s = DraftState::default();
    s.ally_pick = ids(&["monk"]);
    s.enemy_pick = ids(&["vampire"]);
    let power = |t: LaneTerms| Scored { total: t.pick.power, parts: [t.pick.power, 0, 0, 0] };
    let answer = |t: CounterTerms| t.answer;
    let v = recommend_lanes(&t, &s, false, None, power, answer);
    assert_eq!(v.lanes[0].cands[0].id, "ogre");
    assert_eq!(v.lanes[0].counter_of, Some("흡혈귀".to_string()));
    assert_eq!(v.lanes[4].cands[0].id, "bard");
    assert_eq!(v.lanes[4].cands[0].score, 0.09f32.to_bits());
    assert!(v.lanes[4].star);
    assert_eq!(recommend_lanes(&t, &s, false, None, power, |t: CounterTerms| t.threat).lanes[0].counter_of, None);
    let flex = |t: LaneTerms| Scored { total: (t.flex as f32).to_bits(), parts: [0; 4] };
    assert_eq!(recommend_lanes(&t, &s, false, None, flex, answer).lanes[0].cands[0].id, "bard");
    s.ally_pick.push("archer".to_string());
    assert_eq!(recommend_lanes(&t, &s, false, None, flex, answer).lanes[4].cands[0].score, 0);
}

#[test]
fn counters_need_an_enemy_on_the_lane() {
    let t = stats("POS\tvampire\t0\t0\nPOS\tmonk\t0\t0\n");
    let foes = ids(&["vampire", "monk", "bard"]);
    let b = |x: f32| x.to_bits();
    assert_eq!(counter_target(&t, &foes, 0, &vec![b(0.1), b(0.2), b(0.9)]), Some(1));
    assert_eq!(counter_target(&t, &foes, 0, &vec![b(0.1), b(0.1), b(0.9)]), Some(0));
    assert_eq!(counter_target(&t, &foes, 1, &vec![b(0.1), b(0.2), b(0.9)]), None);
    assert_eq!(counter_target(&t, &foes, 0, &vec![b(0.03), b(0.0), b(0.9)]), None);
}
