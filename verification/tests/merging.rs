use slack_adapter::{merge_results, SearchResult};

fn r(ts: &str, p: &str, text: &str) -> SearchResult {
    SearchResult {
        ts: ts.to_string(),
        channel: "c".to_string(),
        author: "a".to_string(),
        text: text.to_string(),
        permalink: p.to_string(),
    }
}

#[test]
fn dedup_by_permalink_keeps_first_and_sorts() {
    let from_me = vec![r("2024-01-03", "p3", "mine"), r("2024-01-01", "p1", "x")];
    let to_me = vec![r("2024-01-03", "p3", "theirs"), r("2024-01-02", "p2", "y")];
    let out = merge_results(vec![from_me, to_me]);
    let got: Vec<(&str, &str, &str)> =
        out.iter().map(|x| (x.ts.as_str(), x.permalink.as_str(), x.text.as_str())).collect();
    assert_eq!(
        got,
        vec![("2024-01-01", "p1", "x"), ("2024-01-02", "p2", "y"), ("2024-01-03", "p3", "mine")]
    );
}

#[test]
fn equal_timestamps_keep_their_order() {
    let out = merge_results(vec![vec![r("t", "a", ""), r("s", "b", "")], vec![r("t", "c", "")]]);
    let got: Vec<&str> = out.iter().map(|x| x.permalink.as_str()).collect();
    assert_eq!(got, vec!["b", "a", "c"]);
}

#[test]
fn empty_inputs() {
    assert!(merge_results(vec![]).is_empty());
    assert!(merge_results(vec![vec![], vec![]]).is_empty());
}

#[test]
fn order_is_by_code_point() {
    let out = merge_results(vec![vec![r("b", "1", ""), r("B", "2", ""), r("ab", "3", ""), r("a", "4", "")]]);
    let got: Vec<&str> = out.iter().map(|x| x.ts.as_str()).collect();
    assert_eq!(got, vec!["B", "a", "ab", "b"]);
}
