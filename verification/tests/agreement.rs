use skill_rating::field::remove_unrankable;
use skill_rating::player::Player;
use skill_rating::table::{get_players, parse_row, parse_score, RowError};

/// A small deterministic generator, so that the same cases run every time.
struct Cases {
    state: u64,
}

impl Cases {
    fn new(seed: u64) -> Cases {
        Cases { state: seed }
    }

    fn next(&mut self, bound: u64) -> u64 {
        self.state = self
            .state
            .wrapping_mul(6364136223846793005)
            .wrapping_add(1442695040888963407);
        (self.state >> 33) % bound
    }
}

fn coins(player: &Player) -> Vec<i32> {
    (0..player.events()).map(|event| player.get_coins_at(event)).collect()
}

/// Removal in rounds: everybody without a win or without a loss against
/// the current field goes at once, until a round finds nobody.
fn prune_in_rounds(mut field: Vec<(String, Vec<i32>)>) -> Vec<(String, Vec<i32>)> {
    loop {
        let mut marked: Vec<usize> = Vec::new();
        for (index, (name, scores)) in field.iter().enumerate() {
            let mut wins = 0.0;
            let mut losses = 0.0;
            for (other_name, other_scores) in field.iter() {
                if name == other_name {
                    continue;
                }
                for (own, other) in scores.iter().zip(other_scores.iter()) {
                    if *own == -1 || *other == -1 {
                        continue;
                    }
                    if own > other {
                        wins += 1.0;
                    } else if own < other {
                        losses += 1.0;
                    } else {
                        wins += 0.5;
                        losses += 0.5;
                    }
                }
            }
            if wins == 0.0 || losses == 0.0 {
                marked.push(index);
            }
        }
        if marked.is_empty() {
            return field;
        }
        for index in marked.iter().rev() {
            field.remove(*index);
        }
    }
}

#[test]
fn pruning_agrees_with_removal_in_rounds() {
    let mut cases = Cases::new(7);
    for _ in 0..400 {
        let size = cases.next(7) as usize;
        let events = 1 + cases.next(4) as usize;
        let mut field: Vec<(String, Vec<i32>)> = Vec::new();
        for index in 0..size {
            let name = if cases.next(10) == 0 && index > 0 {
                field[0].0.clone()
            } else {
                format!("p{}", index)
            };
            let scores = (0..events).map(|_| cases.next(4) as i32 - 1).collect();
            field.push((name, scores));
        }
        let mut players: Vec<Player> =
            field.iter().map(|(name, scores)| Player::new(name.clone(), scores.clone())).collect();
        remove_unrankable(&mut players);
        let kept: Vec<(String, Vec<i32>)> =
            players.iter().map(|player| (player.username.clone(), coins(player))).collect();
        assert_eq!(kept, prune_in_rounds(field));
    }
}

#[test]
fn scores_agree_with_the_standard_reading_on_many_texts() {
    let alphabet: Vec<char> = "+-0123456789 a".chars().collect();
    let mut cases = Cases::new(11);
    for _ in 0..5000 {
        let length = cases.next(13) as usize;
        let text: String =
            (0..length).map(|_| alphabet[cases.next(alphabet.len() as u64) as usize]).collect();
        let chars: Vec<char> = text.chars().collect();
        assert_eq!(parse_score(&chars), text.parse::<i32>().ok(), "{:?}", text);
    }
}

#[test]
fn scores_agree_with_the_standard_reading_near_the_limits() {
    for value in [
        i64::from(i32::MIN) - 2,
        i64::from(i32::MIN) - 1,
        i64::from(i32::MIN),
        i64::from(i32::MIN) + 1,
        -10,
        -1,
        0,
        1,
        9,
        10,
        i64::from(i32::MAX) - 1,
        i64::from(i32::MAX),
        i64::from(i32::MAX) + 1,
        i64::from(i32::MAX) + 2,
        4294967295,
        4294967296,
        i64::MAX,
        i64::MIN,
    ] {
        let text = value.to_string();
        let chars: Vec<char> = text.chars().collect();
        assert_eq!(parse_score(&chars), text.parse::<i32>().ok(), "{:?}", text);
    }
}

/// A row read with the standard splitting and number reading.
fn read_row(line: &str, events: usize) -> Result<(String, Vec<i32>), RowError> {
    let cells: Vec<&str> = line.split(',').collect();
    let mut scores = Vec::new();
    for event in 0..events {
        match cells.get(event + 1) {
            None => return Err(RowError::MissingScore { event }),
            Some(cell) => match cell.parse::<i32>() {
                Err(_) => return Err(RowError::BadScore { event }),
                Ok(score) => scores.push(score),
            },
        }
    }
    Ok((cells[0].to_string(), scores))
}

#[test]
fn rows_agree_with_the_standard_splitting() {
    let alphabet: Vec<char> = ",,,-0123456789xé".chars().collect();
    let mut cases = Cases::new(13);
    for _ in 0..5000 {
        let length = cases.next(16) as usize;
        let events = cases.next(5) as usize;
        let line: String =
            (0..length).map(|_| alphabet[cases.next(alphabet.len() as u64) as usize]).collect();
        let row = parse_row(&line, events).map(|player| (player.username.clone(), coins(&player)));
        assert_eq!(row, read_row(&line, events), "{:?} with {} events", line, events);
    }
}

#[test]
fn tables_agree_with_reading_row_by_row() {
    let alphabet: Vec<char> = ",,-012a".chars().collect();
    let mut cases = Cases::new(17);
    for _ in 0..1000 {
        let events = cases.next(3) as usize;
        let count = cases.next(5) as usize;
        let lines: Vec<String> = (0..count)
            .map(|_| {
                let length = cases.next(9) as usize;
                (0..length).map(|_| alphabet[cases.next(alphabet.len() as u64) as usize]).collect()
            })
            .collect();
        let mut expected: Result<Vec<(String, Vec<i32>)>, (usize, RowError)> = Ok(Vec::new());
        for (index, line) in lines.iter().enumerate() {
            match read_row(line, events) {
                Err(fault) => {
                    expected = Err((index, fault));
                    break;
                }
                Ok(row) => {
                    if row.1.iter().any(|score| *score > 0) {
                        if let Ok(rows) = &mut expected {
                            rows.push(row);
                        }
                    }
                }
            }
        }
        let table = get_players(&lines, events)
            .map(|players| {
                players
                    .iter()
                    .map(|player| (player.username.clone(), coins(player)))
                    .collect::<Vec<(String, Vec<i32>)>>()
            })
            .map_err(|error| (error.line, error.fault));
        assert_eq!(table, expected, "{:?} with {} events", lines, events);
    }
}
