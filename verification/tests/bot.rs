use tribalwars::cards::{village_option_label, villages_heading};
use tribalwars::display::{duration_to_tw_display, get_village_thumbnail, sort_by_points};
use tribalwars::models::{Player, TribalWars, Tribe, Village};
use tribalwars::update::{check_last_update, download_file_name, needs_download, update_reply};
use tribalwars::update::UpdateRecord::{Elapsed, InFuture, Unreadable};

fn world() -> TribalWars {
    TribalWars::load(
        vec![
            Tribe {
                id: 1,
                name: "Knights+of+Ni".to_string(),
                tag: "KoN".to_string(),
                members: 3,
                villages: 4,
                points: 12000,
                all_points: 10000,
                rank: 1,
            },
            Tribe {
                id: 2,
                name: "Ghosts".to_string(),
                tag: "G".to_string(),
                members: 0,
                villages: 0,
                points: 0,
                all_points: 0,
                rank: 9,
            },
        ],
        vec![
            Player { id: 10, name: "Arthur".to_string(), tribe_id: 1, villages: 2, points: 300, rank: 3 },
            Player { id: 11, name: "Lancelot".to_string(), tribe_id: 1, villages: 1, points: 900, rank: 2 },
            Player { id: 12, name: "Robin".to_string(), tribe_id: 5, villages: 1, points: 10, rank: 8 },
        ],
        vec![
            Village { id: 100, name: "Camelot".to_string(), x: 500, y: 500, player_id: 10, rank: 9500 },
            Village { id: 101, name: "Swamp".to_string(), x: 400, y: 401, player_id: 0, rank: 120 },
            Village { id: 102, name: "Glen".to_string(), x: 300, y: 300, player_id: 12, rank: 1000 },
        ],
    )
    .unwrap()
}

#[test]
fn thumbnails_by_points() {
    let base = "https://dsen.innogamescdn.com/asset/6f4647d7/graphic///map_new/";
    for (points, tier) in [
        (0u32, 1),
        (299, 1),
        (300, 2),
        (999, 2),
        (1000, 3),
        (2999, 3),
        (3000, 4),
        (8999, 4),
        (9000, 5),
        (10999, 5),
        (11000, 6),
        (99999, 6),
        (100000, 1),
    ] {
        assert_eq!(get_village_thumbnail(points, false), format!("{}v{}.png", base, tier));
    }
}

#[test]
fn travel_times_as_clock() {
    assert_eq!(duration_to_tw_display(0), "0:00:00");
    assert_eq!(duration_to_tw_display(3725), "1:02:05");
    assert_eq!(duration_to_tw_display(36059), "10:00:59");
    assert_eq!(duration_to_tw_display(59), "0:00:59");
    assert_eq!(duration_to_tw_display(360000), "100:00:00");
}

#[test]
fn sort_is_stable_and_descending() {
    let ps: Vec<Player> = vec![(1, 5), (2, 9), (3, 5), (4, 1), (5, 9)]
        .into_iter()
        .map(|(id, points)| Player { id, name: id.to_string(), tribe_id: 0, villages: 0, points, rank: 0 })
        .collect();
    let mut refs: Vec<&Player> = ps.iter().collect();
    sort_by_points(&mut refs);
    let ids: Vec<u32> = refs.iter().map(|p| p.id).collect();
    assert_eq!(ids, vec![2, 5, 1, 3, 4]);
    let mut empty: Vec<&Player> = Vec::new();
    sort_by_points(&mut empty);
    assert!(empty.is_empty());
}

#[test]
fn village_cards() {
    let tw = world();
    let card = tw.village_card(500, 500).unwrap();
    assert_eq!(card.title, "Camelot (500|500)");
    assert_eq!(card.owner, "Arthur");
    assert_eq!(card.points, "9500p.");
    assert_eq!(card.tribe, "Knights of Ni");
    assert_eq!(card.url, "https://en125.tribalwars.net/game.php?screen=info_village&id=100");
    assert_eq!(card.thumbnail, "https://dsen.innogamescdn.com/asset/6f4647d7/graphic///map_new/v5.png");
    let barb = tw.village_card(400, 401).unwrap();
    assert_eq!(barb.owner, "Barbarian");
    assert_eq!(barb.tribe, "None");
    let tribeless = tw.village_card(300, 300).unwrap();
    assert_eq!(tribeless.owner, "Robin");
    assert_eq!(tribeless.tribe, "None");
    assert!(tw.village_card(1, 1).is_none());
}

#[test]
fn tribe_cards() {
    let tw = world();
    let card = tw.tribe_card("kon").unwrap();
    assert_eq!(card.title, "Knights of Ni [KoN] - 12000p.");
    assert_eq!(card.members, "3");
    assert_eq!(card.average, Some("3333".to_string()));
    assert_eq!(card.url, "https://en125.tribalwars.net/game.php?screen=info_ally&id=1");
    assert_eq!(tw.tribe_card("ghosts").unwrap().average, None);
    assert!(tw.tribe_card("nobody").is_none());
}

#[test]
fn member_lists() {
    let tw = world();
    assert_eq!(
        tw.tribe_members_text("Knights of Ni").unwrap(),
        "Players in Knights of Ni:\n**Lancelot**: 1 villages, 900p.\n**Arthur**: 2 villages, 300p.\n"
    );
    assert_eq!(tw.tribe_members_text("G").unwrap(), "Players in Ghosts:\n");
    assert!(tw.tribe_members_text("nobody").is_none());
}

#[test]
fn village_menu_texts() {
    let v = Village { id: 1, name: "Camelot".to_string(), x: 500, y: 42, player_id: 10, rank: 77 };
    assert_eq!(village_option_label(&v), "Camelot - 500|42 - 77p.");
    assert_eq!(villages_heading("Arthur"), "Villages for Arthur");
}

#[test]
fn download_log() {
    assert_eq!(check_last_update(&vec![]), Some(true));
    assert_eq!(check_last_update(&vec![Elapsed { secs: 3600 }]), Some(false));
    assert_eq!(check_last_update(&vec![Elapsed { secs: 3601 }]), Some(true));
    assert_eq!(check_last_update(&vec![InFuture, Elapsed { secs: 10 }]), Some(false));
    assert_eq!(check_last_update(&vec![InFuture, InFuture]), Some(true));
    assert_eq!(check_last_update(&vec![Unreadable, Elapsed { secs: 10 }]), None);
    assert_eq!(check_last_update(&vec![Elapsed { secs: 10 }, Unreadable]), Some(false));
}

#[test]
fn download_decision() {
    assert!(needs_download(true, None));
    assert!(needs_download(true, Some(false)));
    assert!(needs_download(false, Some(true)));
    assert!(!needs_download(false, Some(false)));
    assert!(!needs_download(false, None));
}

#[test]
fn replies_and_file_names() {
    assert_eq!(update_reply(true), "Tribal Wars data updated");
    assert_eq!(update_reply(false), "Last update was less than an hour ago, try later");
    assert_eq!(download_file_name(Some("/map/village.txt")), "village.txt");
    assert_eq!(download_file_name(Some("/map/")), "tmp.bin");
    assert_eq!(download_file_name(Some("/")), "tmp.bin");
    assert_eq!(download_file_name(None), "tmp.bin");
}
