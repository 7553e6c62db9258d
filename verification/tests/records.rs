use super_holdem::decimal::{push_decimal, read_number};
use super_holdem::progress::{pending, recorded_hands};
use super_holdem::results::{read_hand, read_result, recorded_results, result_line};

fn lines(texts: &[&str]) -> Vec<String> {
    texts.iter().map(|t| t.to_string()).collect()
}

fn number(text: &str, max: u32) -> Option<u32> {
    let t: Vec<char> = text.chars().collect();
    read_number(&t, 0, t.len(), max)
}

#[test]
fn numbers_are_written() {
    for n in [0u64, 7, 10, 99, 100, 1755, 22100, 25254771696, u64::MAX] {
        let mut t = String::from("n=");
        push_decimal(&mut t, n);
        assert_eq!(t, format!("n={}", n));
    }
}

#[test]
fn numbers_are_read() {
    for text in [
        "0", "7", "255", "256", "+5", "++5", "-5", "+", "", "007", "00000256", " 1", "1 ", "1a", "٣",
        "4294967295",
    ] {
        assert_eq!(number(text, 255), text.parse::<u8>().ok().map(|v| v as u32), "{}", text);
    }
    for text in ["0", "4294967295", "4294967296", "99999999999999999999", "+12", "-0", "1.0"] {
        assert_eq!(number(text, u32::MAX), text.parse::<u32>().ok(), "{}", text);
    }
}

#[test]
fn line_of_a_hand() {
    assert_eq!(result_line([0, 1, 2], 4, "0.52345678"), "0,1,2,4,0.52345678");
    assert_eq!(result_line([48, 49, 50], 4, "0.80000000"), "48,49,50,4,0.80000000");
}

#[test]
fn line_is_read_back() {
    let line = result_line([0, 5, 10], 24, "0.31250000");
    assert_eq!(read_hand(&line), Some([0, 5, 10]));
    let r = read_result(&line).unwrap();
    assert_eq!((r.hand, r.combos, r.equity.as_str()), ([0, 5, 10], 24, "0.31250000"));
}

#[test]
fn line_with_commas_in_the_equity_keeps_its_hand() {
    let line = result_line([0, 5, 10], 24, "0,31");
    assert_eq!(read_hand(&line), Some([0, 5, 10]));
    assert_eq!(read_result(&line).unwrap().equity, "0");
}

#[test]
fn hands_of_odd_lines() {
    assert_eq!(read_hand("1,2,3"), Some([1, 2, 3]));
    assert_eq!(read_hand("+1,02,255,x,y"), Some([1, 2, 255]));
    assert_eq!(read_hand("1,2"), None);
    assert_eq!(read_hand(""), None);
    assert_eq!(read_hand(",,"), None);
    assert_eq!(read_hand("1,2,256"), None);
    assert_eq!(read_hand("1, 2,3"), None);
    assert_eq!(read_hand("1,2,三"), None);
}

#[test]
fn results_of_odd_lines() {
    assert!(read_result("1,2,3,4").is_none());
    assert!(read_result("1,2,3,x,0.5").is_none());
    assert!(read_result("1,2,300,4,0.5").is_none());
    assert!(read_result("1,2,3,4294967296,0.5").is_none());
    let r = read_result("1,2,3,4294967295,九,more").unwrap();
    assert_eq!((r.hand, r.combos, r.equity.as_str()), ([1, 2, 3], u32::MAX, "九"));
    assert_eq!(read_result("1,2,3,4,").unwrap().equity, "");
}

#[test]
fn recorded_hands_once_each() {
    let l = lines(&["0,1,2,4,0.5", "junk", "0,5,10,24,0.3", "0,1,2,4,0.6", "7,8"]);
    assert_eq!(recorded_hands(&l), vec![[0, 1, 2], [0, 5, 10]]);
    assert!(recorded_hands(&[]).is_empty());
}

#[test]
fn recorded_hands_are_not_pending() {
    let reps = [([0u8, 1, 2], 4u32), ([0, 1, 4], 12), ([0, 5, 10], 24)];
    let l = lines(&["0,5,10,24,0.3"]);
    let done = recorded_hands(&l);
    assert_eq!(pending(&reps, &done), vec![([0, 1, 2], 4), ([0, 1, 4], 12)]);
    assert_eq!(pending(&reps, &done).len() + done.len(), reps.len());
}

#[test]
fn nothing_pending_when_all_are_recorded() {
    let reps = [([0u8, 1, 2], 4u32), ([0, 1, 4], 12)];
    assert!(pending(&reps, &[[0, 1, 4], [9, 9, 9], [0, 1, 2]]).is_empty());
    assert_eq!(pending(&reps, &[]), reps.to_vec());
}

#[test]
fn recorded_results_in_order() {
    let l = lines(&["0,1,2,4,0.5", "0,5,10,24", "junk", "0,5,10,24,0.3", "0,1,2,4,x"]);
    let found: Vec<([u8; 3], u32, String)> =
        recorded_results(&l).into_iter().map(|r| (r.hand, r.combos, r.equity)).collect();
    assert_eq!(
        found,
        vec![
            ([0, 1, 2], 4, String::from("0.5")),
            ([0, 5, 10], 24, String::from("0.3")),
            ([0, 1, 2], 4, String::from("x")),
        ]
    );
    assert!(recorded_results(&[]).is_empty());
}
