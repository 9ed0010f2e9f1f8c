use skill_rating::field::remove_unrankable;
use skill_rating::player::Player;

fn player(name: &str, coins: &[i32]) -> Player {
    Player::new(name.to_string(), coins.to_vec())
}

fn names(players: &[Player]) -> Vec<String> {
    players.iter().map(|p| p.username.clone()).collect()
}

#[test]
fn an_empty_field_stays_empty() {
    let mut players: Vec<Player> = Vec::new();
    remove_unrankable(&mut players);
    assert!(players.is_empty());
}

#[test]
fn a_lone_competitor_is_removed() {
    let mut players = vec![player("a", &[5, 5])];
    remove_unrankable(&mut players);
    assert!(players.is_empty());
}

#[test]
fn a_strict_pecking_order_leaves_nobody() {
    let mut players = vec![
        player("a", &[3, 3, 3]),
        player("b", &[2, 2, 2]),
        player("c", &[1, 1, 1]),
    ];
    remove_unrankable(&mut players);
    assert!(players.is_empty());
}

#[test]
fn a_cycle_keeps_everybody() {
    let mut players = vec![
        player("a", &[2, -1, 1]),
        player("b", &[1, 2, -1]),
        player("c", &[-1, 1, 2]),
    ];
    remove_unrankable(&mut players);
    assert_eq!(names(&players), vec!["a", "b", "c"]);
}

#[test]
fn a_tie_keeps_both() {
    let mut players = vec![player("a", &[7]), player("b", &[7])];
    remove_unrankable(&mut players);
    assert_eq!(names(&players), vec!["a", "b"]);
}

#[test]
fn removal_cascades() {
    let mut players = vec![
        player("p", &[5, 9, -1]),
        player("q", &[5, -1, -1]),
        player("d", &[-1, 1, 4]),
        player("e", &[-1, -1, 2]),
    ];
    remove_unrankable(&mut players);
    assert_eq!(names(&players), vec!["p", "q"]);
}

#[test]
fn removal_cascades_whatever_the_order() {
    let mut players = vec![
        player("e", &[-1, -1, 2]),
        player("d", &[-1, 1, 4]),
        player("q", &[5, -1, -1]),
        player("p", &[5, 9, -1]),
    ];
    remove_unrankable(&mut players);
    assert_eq!(names(&players), vec!["q", "p"]);
}

#[test]
fn the_kept_stay_in_order_with_their_scores() {
    let mut players = vec![
        player("never", &[-1, -1, -1]),
        player("a", &[2, -1, 1]),
        player("winner", &[9, 9, 9]),
        player("b", &[1, 2, -1]),
        player("loser", &[0, 0, 0]),
        player("c", &[-1, 1, 2]),
    ];
    remove_unrankable(&mut players);
    assert_eq!(names(&players), vec!["a", "b", "c"]);
    assert_eq!(players[0].get_coins_at(0), 2);
    assert_eq!(players[1].get_coins_at(1), 2);
    assert_eq!(players[2].get_coins_at(2), 2);
}

#[test]
fn records_with_one_name_give_each_other_nothing() {
    let mut players = vec![player("x", &[1, 5]), player("x", &[5, 1])];
    remove_unrankable(&mut players);
    assert!(players.is_empty());
}

#[test]
fn everyone_left_has_won_and_lost_against_those_left() {
    let mut players = vec![
        player("a", &[2, -1, 1, 4]),
        player("b", &[1, 2, -1, 4]),
        player("top", &[8, 8, 8, 8]),
        player("c", &[-1, 1, 2, -1]),
        player("idle", &[-1, -1, -1, -1]),
    ];
    remove_unrankable(&mut players);
    assert_eq!(names(&players), vec!["a", "b", "c"]);
    for one in &players {
        let mut won = false;
        let mut lost = false;
        for other in &players {
            let score = one.get_score_against(other);
            won = won || score.has_win_weight();
            lost = lost || score.has_loss_weight();
        }
        assert!(won && lost);
    }
}

#[test]
fn pruning_twice_changes_nothing_more() {
    let mut players = vec![
        player("p", &[5, 9, -1]),
        player("q", &[5, -1, -1]),
        player("d", &[-1, 1, 4]),
        player("e", &[-1, -1, 2]),
    ];
    remove_unrankable(&mut players);
    let once = names(&players);
    remove_unrankable(&mut players);
    assert_eq!(names(&players), once);
}
