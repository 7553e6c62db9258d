use super_holdem::ranking::{
    keyed_rows, latest_rows, rank_results, ranking_entries, ranking_json, running_combos, Entry,
    Row,
};
use super_holdem::representatives::representatives;
use super_holdem::results::recorded_results;

fn row(hand: [u8; 3], combos: u32, key: i64, source: usize) -> Row {
    Row { hand, combos, key, source }
}

#[test]
fn last_row_about_a_hand_counts() {
    let rows = [
        row([0, 1, 2], 4, 50, 0),
        row([0, 1, 4], 12, 70, 1),
        row([0, 1, 2], 5, 90, 2),
    ];
    assert_eq!(latest_rows(&rows), vec![rows[2], rows[1]]);
    assert!(latest_rows(&[]).is_empty());
}

#[test]
fn strongest_hand_first() {
    let rows = [
        row([0, 1, 2], 4, -5, 0),
        row([0, 1, 4], 12, 70, 1),
        row([0, 1, 6], 12, 70, 2),
        row([0, 4, 8], 4, 90, 3),
        row([0, 4, 9], 12, 0, 4),
    ];
    assert_eq!(
        rank_results(&rows, 5),
        Ok(vec![rows[3], rows[1], rows[2], rows[4], rows[0]])
    );
}

#[test]
fn ranking_waits_for_every_class() {
    let rows = [row([0, 1, 2], 4, 1, 0), row([0, 1, 2], 4, 2, 1)];
    assert_eq!(rank_results(&rows, 2), Err(1));
    assert_eq!(rank_results(&[], 1755), Err(0));
    assert_eq!(rank_results(&[], 0), Ok(vec![]));
}

#[test]
fn running_counts() {
    let rows = [row([0, 1, 2], 4, 1, 0), row([0, 1, 4], 12, 0, 1), row([0, 4, 8], u32::MAX, 0, 2)];
    assert_eq!(running_combos(&rows), vec![4, 16, 16 + u32::MAX as u64]);
    assert!(running_combos(&[]).is_empty());
}

#[test]
fn last_hand_closes_the_count() {
    let rows: Vec<Row> = representatives()
        .iter()
        .enumerate()
        .map(|(i, (h, m))| row(*h, *m, (i as i64 * 7919) % 1000, i))
        .collect();
    let ranked = rank_results(&rows, 1755).unwrap();
    let sums = running_combos(&ranked);
    assert_eq!(sums[1754], 22100);
    for (a, b) in ranked.iter().zip(&ranked[1..]) {
        assert!(a.key > b.key || (a.key == b.key && a.source < b.source));
    }
}

#[test]
fn ranking_as_json() {
    let entries = [
        Entry {
            hand: [48, 49, 50],
            combos: 4,
            equity: String::from("0.812345"),
            top_percent: String::from("0.02"),
        },
        Entry {
            hand: [0, 5, 10],
            combos: 24,
            equity: String::from("0.300000"),
            top_percent: String::from("100.00"),
        },
    ];
    assert_eq!(
        ranking_json(&entries),
        "[\n  {\"rank\":1,\"hand\":\"A♦A♥A♠\",\"cards\":[48,49,50],\"suitType\":\"trips\",\"combos\":4,\"equity\":0.812345,\"topPercent\":0.02},\n  {\"rank\":2,\"hand\":\"4♦3♥2♠\",\"cards\":[0,5,10],\"suitType\":\"rainbow\",\"combos\":24,\"equity\":0.300000,\"topPercent\":100.00}\n]\n"
    );
}

#[test]
fn empty_ranking_as_json() {
    assert_eq!(ranking_json(&[]), "[\n]\n");
}

fn rows_of_lines(lines: &[&str]) -> Vec<Row> {
    let lines: Vec<String> = lines.iter().map(|t| t.to_string()).collect();
    let found = recorded_results(&lines);
    let keys: Vec<Option<i64>> = found.iter().map(|r| r.equity.parse::<i64>().ok()).collect();
    keyed_rows(&found, &keys)
}

#[test]
fn rows_of_results_with_a_key() {
    assert_eq!(
        rows_of_lines(&["0,1,2,4,50", "0,1,4,12,x", "0,1,6,12,70"]),
        vec![row([0, 1, 2], 4, 50, 0), row([0, 1, 6], 12, 70, 1)]
    );
    assert!(keyed_rows(&[], &[]).is_empty());
}

#[test]
fn malformed_lines_do_not_change_a_ranking() {
    let clean = rows_of_lines(&["0,1,2,4,50", "0,1,4,12,70"]);
    let torn = rows_of_lines(&["0,1,4", "0,1,2,4,50", "", "9,9,9,9,?", "0,1,4,12,70", "0,1,2,4"]);
    assert_eq!(clean, torn);
    assert_eq!(rank_results(&clean, 2), rank_results(&torn, 2));
    assert_eq!(rank_results(&torn, 3), Err(2));
}

#[test]
fn lines_follow_the_ranked_rows() {
    let rows = [row([0, 1, 2], 4, 1, 0), row([0, 5, 10], 24, 3, 1), row([0, 4, 8], 4, 2, 2)];
    let ranked = rank_results(&rows, 3).unwrap();
    let texts = |t: [&str; 3]| t.map(String::from).to_vec();
    let entries =
        ranking_entries(&ranked, &texts(["0.3", "0.2", "0.1"]), &texts(["75.00", "87.50", "100.00"]));
    let json = ranking_json(&entries);
    let lines: Vec<&str> = json.lines().collect();
    assert_eq!(
        lines,
        vec![
            "[",
            "  {\"rank\":1,\"hand\":\"4♦3♥2♠\",\"cards\":[0,5,10],\"suitType\":\"rainbow\",\"combos\":24,\"equity\":0.3,\"topPercent\":75.00},",
            "  {\"rank\":2,\"hand\":\"4♠3♠2♠\",\"cards\":[0,4,8],\"suitType\":\"monotone\",\"combos\":4,\"equity\":0.2,\"topPercent\":87.50},",
            "  {\"rank\":3,\"hand\":\"2♦2♥2♠\",\"cards\":[0,1,2],\"suitType\":\"trips\",\"combos\":4,\"equity\":0.1,\"topPercent\":100.00}",
            "]",
        ]
    );
    assert!(ranking_entries(&[], &[], &[]).is_empty());
}
