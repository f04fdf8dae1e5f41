use tribalwars::models::{player_table, tribe_table, village_table, LoadError, Player, TribalWars, Tribe, Village};

fn tribe(id: u32, name: &str, tag: &str, members: u32, all_points: u32) -> Tribe {
    Tribe {
        id,
        name: name.to_string(),
        tag: tag.to_string(),
        members,
        villages: 10,
        points: 1000,
        all_points,
        rank: 1,
    }
}

fn player(id: u32, name: &str, tribe_id: u32, points: u32) -> Player {
    Player { id, name: name.to_string(), tribe_id, villages: 3, points, rank: 2 }
}

fn village(id: u32, name: &str, x: u32, y: u32, player_id: u32, rank: u32) -> Village {
    Village { id, name: name.to_string(), x, y, player_id, rank }
}

fn world() -> TribalWars {
    TribalWars::load(
        vec![tribe(1, "Knights+of+Ni", "KoN", 2, 5000), tribe(2, "Empty", "E", 0, 0)],
        vec![player(10, "Arthur", 1, 300), player(11, "Lancelot", 1, 900), player(12, "Loner", 0, 50)],
        vec![
            village(100, "Camelot", 500, 500, 10, 9500),
            village(101, "Castle+Anthrax", 501, 499, 11, 250),
            village(102, "Barbarian+village", 400, 400, 0, 120),
        ],
    )
    .unwrap()
}

#[test]
fn load_decodes_plus_and_percent() {
    let tw = TribalWars::load(
        vec![tribe(7, "The+Best%21", "TB", 1, 1)],
        vec![player(1, "caf%C3%A9+owner", 7, 1)],
        vec![village(3, "a%2Bb", 1, 1, 1, 1)],
    )
    .unwrap();
    assert_eq!(tw.tribe(7).unwrap().name, "The Best!");
    assert_eq!(tw.player(1).unwrap().name, "café owner");
    assert_eq!(tw.village(&3).unwrap().name, "a+b");
}

#[test]
fn load_keeps_last_record_of_an_id() {
    let tw = TribalWars::load(
        vec![tribe(1, "Old", "O", 1, 1), tribe(1, "New", "N", 1, 1)],
        vec![],
        vec![],
    )
    .unwrap();
    assert_eq!(tw.tribes.len(), 1);
    assert_eq!(tw.tribe(1).unwrap().name, "New");
}

#[test]
fn load_error_tribes() {
    let r = TribalWars::load(vec![tribe(1, "bad%FF", "B", 1, 1)], vec![player(1, "bad%FF", 1, 1)], vec![]);
    assert_eq!(r.err(), Some(LoadError::Tribes));
}

#[test]
fn load_error_players() {
    let r = TribalWars::load(vec![tribe(1, "ok", "O", 1, 1)], vec![player(1, "bad%FF", 1, 1)], vec![]);
    assert_eq!(r.err(), Some(LoadError::Players));
}

#[test]
fn load_error_villages() {
    let r = TribalWars::load(vec![], vec![], vec![village(1, "%E2%82", 1, 1, 0, 1)]);
    assert_eq!(r.err(), Some(LoadError::Villages));
}

#[test]
fn lookups_by_id() {
    let tw = world();
    assert_eq!(tw.tribe(1).unwrap().tag, "KoN");
    assert!(tw.tribe(3).is_none());
    assert_eq!(tw.player(11).unwrap().name, "Lancelot");
    assert!(tw.player(99).is_none());
    assert_eq!(tw.village(&101).unwrap().name, "Castle Anthrax");
    assert!(tw.village(&5).is_none());
}

#[test]
fn lookups_by_name_ignore_ascii_case() {
    let tw = world();
    assert_eq!(tw.tribe_by_name("knights of ni").unwrap().id, 1);
    assert_eq!(tw.tribe_by_name("KON").unwrap().id, 1);
    assert!(tw.tribe_by_name("Knights").is_none());
    assert_eq!(tw.player_by_name("arthur").unwrap().id, 10);
    assert!(tw.player_by_name("Galahad").is_none());
}

#[test]
fn lookup_by_own_name_finds_the_tribe() {
    let tw = world();
    for t in tw.tribes.values() {
        assert!(tw.tribe_by_name(&t.name).is_some());
        assert!(tw.tribe_by_name(&t.tag).is_some());
    }
}

#[test]
fn village_at_coordinates() {
    let tw = world();
    assert_eq!(tw.village_at(&501, &499).unwrap().id, 101);
    assert!(tw.village_at(&499, &501).is_none());
}

#[test]
fn players_by_tribe_lists_members_once() {
    let tw = world();
    let mut ids: Vec<u32> = tw.players_by_tribe("kon").unwrap().iter().map(|p| p.id).collect();
    ids.sort();
    assert_eq!(ids, vec![10, 11]);
    assert!(tw.players_by_tribe("nobody").is_none());
    assert!(tw.players_by_tribe("Empty").unwrap().is_empty());
}

#[test]
fn villages_for_player() {
    let tw = world();
    let ids: Vec<u32> = tw.villages_for("LANCELOT").unwrap().iter().map(|v| v.id).collect();
    assert_eq!(ids, vec![101]);
    assert!(tw.villages_for("Galahad").is_none());
    assert!(tw.villages_for("Loner").unwrap().is_empty());
}

#[test]
fn tables_keep_last_record_per_id() {
    let t = tribe_table(vec![tribe(1, "a", "A", 1, 1), tribe(2, "b", "B", 1, 1), tribe(1, "c", "C", 1, 1)]);
    assert_eq!(t.len(), 2);
    assert_eq!(t[&1].name, "c");
    assert_eq!(t[&2].name, "b");
    let p = player_table(vec![player(5, "x", 1, 1), player(5, "y%20", 1, 1)]);
    assert_eq!(p.len(), 1);
    assert_eq!(p[&5].name, "y%20");
    let v = village_table(vec![]);
    assert!(v.is_empty());
}

#[test]
fn load_without_percent_only_spaces() {
    let tw = TribalWars::load(vec![tribe(1, "a+b+", "T", 1, 1)], vec![], vec![]).unwrap();
    assert_eq!(tw.tribe(1).unwrap().name, "a b ");
    assert_eq!(tw.tribe(1).unwrap().tag, "T");
}

#[test]
fn lookups_ignore_the_case_of_the_name() {
    let tw = world();
    for name in ["Arthur", "arthur", "LANCELOT", "nobody", "Loner"] {
        let id = tw.player_by_name(name).map(|p| p.id);
        assert_eq!(tw.player_by_name(&name.to_ascii_uppercase()).map(|p| p.id), id);
        assert_eq!(tw.player_by_name(&name.to_ascii_lowercase()).map(|p| p.id), id);
    }
    for name in ["Knights of Ni", "kon", "Empty", "nobody"] {
        let id = tw.tribe_by_name(name).map(|t| t.id);
        assert_eq!(tw.tribe_by_name(&name.to_ascii_uppercase()).map(|t| t.id), id);
        assert_eq!(tw.tribe_by_name(&name.to_ascii_lowercase()).map(|t| t.id), id);
    }
}

#[test]
fn listings_follow_the_looked_up_record() {
    let tw = TribalWars::load(
        vec![tribe(1, "Twins", "A", 1, 1), tribe(2, "twins", "B", 1, 1), tribe(3, "TWINS", "C", 1, 1)],
        vec![player(10, "Sam", 1, 1), player(11, "sam", 2, 1), player(12, "Ann", 3, 1), player(13, "Bo", 2, 1)],
        vec![village(100, "v", 1, 1, 10, 1), village(101, "w", 1, 1, 11, 1), village(102, "u", 2, 2, 11, 1)],
    )
    .unwrap();
    let t = tw.tribe_by_name("twins").unwrap();
    let mut ids: Vec<u32> = tw.players_by_tribe("twins").unwrap().iter().map(|p| p.id).collect();
    ids.sort();
    let mut expected: Vec<u32> = tw.players.values().filter(|p| p.tribe_id == t.id).map(|p| p.id).collect();
    expected.sort();
    assert_eq!(ids, expected);
    assert_eq!(tw.tribe_card("twins").unwrap().title, format!("{} [{}] - 1000p.", t.name, t.tag));
    let p = tw.player_by_name("SAM").unwrap();
    let vs: Vec<u32> = tw.villages_for("SAM").unwrap().iter().map(|v| v.player_id).collect();
    assert!(vs.iter().all(|id| *id == p.id));
    let v = tw.village_at(&1, &1).unwrap();
    assert_eq!(tw.village_card(1, 1).unwrap().title, format!("{} (1|1)", v.name));
}
