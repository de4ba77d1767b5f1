use draft_overlay::scan::{
    extract_array, find_from, json_escape, json_string_field, parse_bool, parse_position_from_stats,
    parse_quoted_array, parse_quoted_field, read_balanced, read_leading_number, split_structs,
};
use draft_overlay::tables::{parse_tables_from_str, Taxon};
use draft_overlay::tally::{parse_matches_file, parse_team, Aggregator, WL};
use draft_overlay::taxonomy::parse_taxonomy;
use draft_overlay::text::chars_of;
use draft_overlay::textmap::TextMap;
use draft_overlay::textset::TextSet;
use draft_overlay::weights::{key_of, parse_banrate, tallied, to_json, to_tsv, Origin, Rates};

fn chars(s: &str) -> Vec<char> {
    chars_of(s)
}

fn player(c: &str, p: Option<&str>) -> (String, Option<String>) {
    (c.to_string(), p.map(|x| x.to_string()))
}

fn wl(m: &TextMap<TextMap<WL>>, a: &str, b: &str) -> (u32, u32) {
    match m.get(a) {
        Some(row) => match row.get(b) {
            Some(w) => (w.games, w.wins),
            None => (0, 0),
        },
        None => (0, 0),
    }
}

#[test]
fn balanced_regions() {
    let s = chars("a{b{c}d}e}");
    assert_eq!(read_balanced(&s, 1, '{', '}'), Some((1, 7)));
    assert_eq!(read_balanced(&s, 3, '{', '}'), Some((3, 5)));
    assert_eq!(read_balanced(&s, 0, '{', '}'), None);
    assert_eq!(read_balanced(&s, 99, '{', '}'), None);
    assert_eq!(read_balanced(&chars("{{}"), 0, '{', '}'), None);
    assert_eq!(read_balanced(&chars("||"), 0, '|', '|'), None);
}

#[test]
fn finding_from_an_index() {
    let s = chars("abcabc");
    assert_eq!(find_from(&s, &chars("bc"), 0), Some(1));
    assert_eq!(find_from(&s, &chars("bc"), 2), Some(4));
    assert_eq!(find_from(&s, &chars("bc"), 5), None);
    assert_eq!(find_from(&s, &chars(""), 0), None);
    assert_eq!(find_from(&s, &chars("abcabcd"), 0), None);
}

#[test]
fn fields_of_printed_structures() {
    let b = "{ blue_team_win: true, played: false, name: \"x\\y\", arr: [ [1], 2 ], bad: 3 }";
    assert_eq!(parse_bool(b, "blue_team_win"), Some(true));
    assert_eq!(parse_bool(b, "played"), Some(false));
    assert_eq!(parse_bool(b, "bad"), None);
    assert_eq!(parse_bool(b, "none"), None);
    assert_eq!(extract_array(b, "arr"), Some("[ [1], 2 ]".to_string()));
    assert_eq!(extract_array(b, "name"), None);
    assert_eq!(extract_array("arr: [1", "arr"), None);
    assert_eq!(parse_quoted_field(b, "name"), Some("x\\y".to_string()));
    assert_eq!(parse_quoted_field("name: \"x", "name"), None);
}

#[test]
fn lanes_of_printed_athletes() {
    assert_eq!(parse_position_from_stats("top: 3, jungle: 9, mid: 9, bottom: 1, support: 0"), Some("jungle".to_string()));
    assert_eq!(parse_position_from_stats("top: 0, jungle: 0"), None);
    assert_eq!(parse_position_from_stats("mid: x, support: 2"), Some("support".to_string()));
    assert_eq!(parse_position_from_stats(""), None);
    assert_eq!(parse_position_from_stats("top: 99999999999999999999, mid: 1"), Some("mid".to_string()));
    assert_eq!(read_leading_number("12ab", 100), Some(12));
    assert_eq!(read_leading_number("ab", 100), None);
    assert_eq!(read_leading_number("101", 100), None);
}

#[test]
fn structures_in_a_text() {
    let t = "A { x: { 1 } }, B { }, A { 2 } A { 3";
    assert_eq!(split_structs(t, "A"), vec!["{ x: { 1 } }".to_string(), "{ 2 }".to_string()]);
    assert_eq!(split_structs(t, "C"), Vec::<String>::new());
}

#[test]
fn json_texts() {
    assert_eq!(json_escape("a\"b\\c\nd"), "a\\\"b\\\\c\\nd");
    let o = "{ \"id\": \"monk\", \"tags\": [ \"A\", \"B\" ], \"open\": [ \"C\", \"D ] }";
    assert_eq!(json_string_field(o, "id"), Some("monk".to_string()));
    assert_eq!(json_string_field(o, "none"), None);
    assert_eq!(parse_quoted_array(o, "tags"), vec!["A".to_string(), "B".to_string()]);
    assert_eq!(parse_quoted_array(o, "open"), vec!["C".to_string()]);
    assert_eq!(parse_quoted_array(o, "none"), Vec::<String>::new());
}

#[test]
fn kits_are_read() {
    let text = "x = { \"champions\": [ { \"id\": \"monk\", \"category\": \"Melee\", \"tags\": [ \"CC\" ], \"rawTags\": [ \"AP\" ] }, { \"category\": \"lost\" }, { \"id\": \"ogre\", \"rawTags\": [ \"AD\", \"AP\" ] }, { \"id\": \"bard\" } ] }";
    let m = parse_taxonomy(text);
    assert_eq!(m.len(), 3);
    let monk = m.get("monk").unwrap();
    assert_eq!(monk.category, "Melee");
    assert_eq!(monk.damage, "AP");
    assert_eq!(monk.tags, vec!["CC".to_string()]);
    assert_eq!(m.get("ogre").unwrap().damage, "AD|AP");
    assert_eq!(m.get("bard").unwrap().damage, "AD");
    assert_eq!(m.get("bard").unwrap().category, "");
    assert_eq!(parse_taxonomy("nothing").len(), 0);
    assert_eq!(parse_taxonomy("\"champions\": [ {").len(), 0);
}

#[test]
fn games_are_counted() {
    let mut agg = Aggregator::new();
    let blue = vec![player("monk", Some("top")), player("bard", None)];
    let red = vec![player("ogre", Some("mid"))];
    assert!(agg.record_match(&blue, &red, true));
    assert!(agg.record_match(&red, &blue, true));
    assert_eq!(agg.matches, 2);
    let monk = agg.champs.get("monk").unwrap();
    assert_eq!((monk.overall.games, monk.overall.wins), (2, 1));
    assert_eq!(monk.by_pos.get("top").unwrap().games, 2);
    assert_eq!(agg.champs.get("bard").unwrap().by_pos.len(), 0);
    assert_eq!(wl(&agg.synergy, "monk", "bard"), (2, 1));
    assert_eq!(wl(&agg.synergy, "monk", "ogre"), (0, 0));
    assert_eq!(wl(&agg.counter, "monk", "ogre"), (2, 1));
    assert_eq!(agg.champs.key(0), "bard");
    assert_eq!(tallied(&agg).len(), 3 + 2 + 2 + 4);
}

#[test]
fn lanes_are_within_all_games() {
    let mut agg = Aggregator::new();
    let foe = vec![player("bard", None)];
    for lane in [Some("top"), Some("mid"), None, Some("top")] {
        assert!(agg.record_match(&vec![player("monk", lane)], &foe, false));
    }
    let monk = agg.champs.get("monk").unwrap();
    let lanes: u32 = (0..monk.by_pos.len()).map(|i| monk.by_pos.get(&monk.by_pos.key(i)).unwrap().games).sum();
    assert_eq!((lanes, monk.overall.games), (3, 4));
}

#[test]
fn pairs_mirror_each_other() {
    let mut agg = Aggregator::new();
    let a = vec![player("monk", None), player("bard", None), player("monk", None)];
    let b = vec![player("ogre", None), player("bard", None)];
    assert!(agg.record_match(&a, &b, true));
    assert!(agg.record_match(&b, &a, true));
    assert!(agg.record_match(&a, &b, false));
    for x in ["monk", "bard", "ogre"] {
        for y in ["monk", "bard", "ogre"] {
            assert_eq!(wl(&agg.synergy, x, y), wl(&agg.synergy, y, x));
            let (g, w) = wl(&agg.counter, x, y);
            let (h, v) = wl(&agg.counter, y, x);
            assert_eq!(g, h);
            assert_eq!(w + v, g);
        }
    }
    assert_eq!(wl(&agg.synergy, "monk", "monk"), (6, 2));
    assert_eq!(wl(&agg.counter, "monk", "ogre"), (6, 2));
}

#[test]
fn full_counts_are_noticed() {
    let mut agg = Aggregator::new();
    agg.matches = u32::MAX;
    assert!(!agg.record_match(&vec![player("a", None)], &vec![player("b", None)], true));
    let mut w = WL { games: u32::MAX, wins: 0 };
    assert!(!w.has_room(false));
    w.games = 4;
    assert!(w.has_room(true));
    w.record(true);
    w.record(false);
    assert_eq!((w.games, w.wins), (6, 1));
    w.wins = u32::MAX;
    assert!(!w.has_room(true));
    assert!(w.has_room(false));
}

#[test]
fn printed_games_are_counted() {
    let set = TextSet::of(&vec!["monk".to_string(), "ogre".to_string(), "bard".to_string()]);
    let text = "[ SoloRankMatch { played: true, blue_team_win: true, blue_team: [ SoloRankAthlete { champion: \"monk\", top: 5, mid: 2 }, SoloRankAthlete { champion: \"stranger\" } ], red_team: [ SoloRankAthlete { champion: \"ogre\", mid: 1 } ] }, SoloRankMatch { played: false, blue_team_win: true, blue_team: [ SoloRankAthlete { champion: \"monk\" } ], red_team: [ SoloRankAthlete { champion: \"ogre\" } ] }, SoloRankMatch { played: true, blue_team_win: false, blue_team: [ ], red_team: [ SoloRankAthlete { champion: \"ogre\" } ] }, SoloRankMatch { played: true, blue_team: [ ] } ]";
    let mut agg = Aggregator::new();
    assert_eq!(parse_matches_file(&mut agg, text, "SoloRankMatch", "SoloRankAthlete", true, true, &set), Some(1));
    assert_eq!(agg.matches, 1);
    assert_eq!(agg.champs.get("monk").unwrap().by_pos.key(0), "top");
    assert!(agg.champs.get("stranger").is_none());
    let mut all = Aggregator::new();
    assert_eq!(parse_matches_file(&mut all, text, "SoloRankMatch", "SoloRankAthlete", false, false, &set), Some(2));
    assert_eq!(all.champs.get("monk").unwrap().by_pos.len(), 0);
    assert_eq!(parse_matches_file(&mut all, "", "SoloRankMatch", "SoloRankAthlete", false, false, &set), Some(0));
    let team = parse_team("[ P { champion: \"bard\" }, P { x: 1 }, P { champion: \"bard\", top: 1 } ]", "P", true, &set);
    assert_eq!(team, vec![player("bard", None), player("bard", Some("top"))]);
    all.matches = u32::MAX;
    assert_eq!(parse_matches_file(&mut all, text, "SoloRankMatch", "SoloRankAthlete", false, false, &set), None);
}

fn some_rates(agg: &Aggregator) -> Rates {
    let mut r = Rates { raw: TextMap::new(), lane: TextMap::new(), overall: TextMap::new(), pair: TextMap::new() };
    for w in tallied(agg) {
        let k = key_of(&w);
        r.raw.insert(&k, format!("r{}", k));
        r.lane.insert(&k, format!("l{}", k));
        r.overall.insert(&k, format!("o{}", k));
        r.pair.insert(&k, format!("p{}", k));
    }
    r
}

#[test]
fn keys_of_records_differ() {
    assert_eq!(key_of(&WL { games: 12, wins: 3 }), "3/12");
    assert_ne!(key_of(&WL { games: 1, wins: 11 }), key_of(&WL { games: 11, wins: 1 }));
}

#[test]
fn weights_as_json() {
    let mut agg = Aggregator::new();
    for _ in 0..3 {
        assert!(agg.record_match(&vec![player("monk", Some("top")), player("bard", None)], &vec![player("ogre", Some("mid"))], true));
    }
    assert!(agg.record_match(&vec![player("ogre", Some("top"))], &vec![player("monk", Some("mid"))], true));
    let j = to_json(&agg, &Origin { solo: 4, replay: 0, min_pair: 4 }, &some_rates(&agg));
    assert!(j.starts_with("{\n  \"meta\": { \"source\": \"save_probe\", \"matches\": 4, \"soloMatches\": 4, \"replayMatches\": 0, \"kPos\": 8, \"kOverall\": 10, \"kPair\": 12, \"minPair\": 4 },\n  \"championOrder\": [\"vampire\", \"monk\", "));
    assert!(j.contains("\"ogre\"],\n  \"champions\": {\n    \"bard\": { \"games\": 3, \"wins\": 3, \"winrate\": r3/3, \"delta\": o3/3, \"primaryPos\": \"none\", \"basis\": \"overall\", \"positions\": {} },\n"));
    assert!(j.contains("    \"monk\": { \"games\": 4, \"wins\": 3, \"winrate\": r3/4, \"delta\": l3/3, \"primaryPos\": \"top\", \"basis\": \"top\", \"positions\": {\"mid\": { \"games\": 1, \"wins\": 0, \"delta\": l0/1 }, \"top\": { \"games\": 3, \"wins\": 3, \"delta\": l3/3 }} },\n"));
    assert!(j.ends_with("\n  },\n  \"synergy\": {\n\n  },\n  \"counter\": {\n    \"monk\": {\"ogre\": { \"games\": 4, \"delta\": p3/4 }},\n    \"ogre\": {\"monk\": { \"games\": 4, \"delta\": p1/4 }}\n  }\n}\n"));
}

#[test]
fn weights_as_rows() {
    let mut agg = Aggregator::new();
    assert!(agg.record_match(&vec![player("monk", Some("top")), player("bard", None)], &vec![player("ogre", None)], true));
    let kits = parse_taxonomy("\"champions\": [ { \"id\": \"monk\", \"category\": \"Melee\", \"tags\": [ \"CC\", \"Heal\" ] } ]");
    let mut bans: TextMap<String> = TextMap::new();
    bans.insert("monk", "0.4".to_string());
    let t = to_tsv(&agg, &kits, &bans, 1, &some_rates(&agg));
    assert_eq!(
        t,
        "# draft_weights TSV  C=champ S=synergy K=counter\nC\tbard\to1/1\nC\tmonk\to1/1\nC\togre\to0/1\nS\tbard\tmonk\tp1/1\nS\tmonk\tbard\tp1/1\nK\tbard\togre\tp1/1\nK\tmonk\togre\tp1/1\nK\togre\tbard\tp0/1\nK\togre\tmonk\tp0/1\nT\tmonk\tMelee\tAD\tCC,Heal\nB\tmonk\t0.4\n"
    );
    let t = to_tsv(&agg, &TextMap::new(), &TextMap::new(), 2, &some_rates(&agg));
    assert_eq!(t.lines().count(), 4);
}

#[test]
fn written_weights_are_read() {
    let mut agg = Aggregator::new();
    for _ in 0..2 {
        assert!(agg.record_match(
            &vec![player("monk", Some("top")), player("bard", None)],
            &vec![player("ogre", None)],
            true,
        ));
    }
    assert!(agg.record_match(&vec![player("monk", None)], &vec![player("hunter", None)], false));
    let mut kits: TextMap<Taxon> = TextMap::new();
    kits.insert(
        "monk",
        Taxon {
            category: "Melee".to_string(),
            damage: "AD".to_string(),
            tags: vec!["CC".to_string(), "Heal".to_string()],
        },
    );
    let mut bans: TextMap<String> = TextMap::new();
    bans.insert("monk", "0.4".to_string());
    let text = to_tsv(&agg, &kits, &bans, 2, &some_rates(&agg));
    let mut readings: TextMap<u32> = TextMap::new();
    for (n, bits) in [("o2/3", 1), ("o2/2", 2), ("o0/2", 3), ("p2/2", 4), ("p0/2", 5), ("0.4", 6), ("o1/1", 7)] {
        readings.insert(n, bits);
    }
    let t = parse_tables_from_str(&text, &readings);
    assert_eq!((t.delta("monk"), t.delta("bard"), t.delta("ogre"), t.delta("hunter")), (1, 2, 3, 7));
    assert_eq!((t.syn("monk", "bard"), t.syn("bard", "monk"), t.syn("monk", "ogre")), (4, 4, 0));
    assert_eq!((t.cnt("monk", "ogre"), t.cnt("ogre", "monk"), t.cnt("monk", "hunter")), (4, 5, 0));
    assert_eq!(t.ban("monk"), 6);
    assert_eq!((t.category("monk"), t.damage("monk")), ("Melee", "AD"));
    assert!(t.has_tag("monk", "CC") && t.has_tag("monk", "Heal") && !t.has_tag("monk", ""));
}

#[test]
fn the_main_lane_is_the_last_with_most_games() {
    let mut agg = Aggregator::new();
    for p in ["top", "top", "top", "mid", "mid", "mid"] {
        assert!(agg.record_match(&vec![player("monk", Some(p))], &vec![player("ogre", None)], true));
    }
    let j = to_json(&agg, &Origin { solo: 0, replay: 6, min_pair: 99 }, &some_rates(&agg));
    assert!(j.contains("\"primaryPos\": \"top\", \"basis\": \"top\""));
}

#[test]
fn bans_are_read() {
    let b = parse_banrate("h\nv\t0\tmonk\tTop\t3\nv\t40\tmonk\tMid\t5\nv\t50\tmonk\tTop\t4\nv\t9\togre\tTop\tx\nshort\t1\n");
    assert_eq!(b.total, 40);
    assert_eq!(b.bans.get("monk"), Some(&5));
    assert_eq!(b.bans.get("ogre"), Some(&0));
    let b = parse_banrate("h\nv\t0\tmonk\tTop\t3\n");
    assert_eq!((b.total, b.bans.len()), (0, 0));
    assert_eq!(parse_banrate("").bans.len(), 0);
}
