use botbot::search::{AnswerSearch, SearchStep};

fn strings(v: &[&str]) -> Vec<String> {
    v.iter().map(|s| s.to_string()).collect()
}

fn fetched(step: SearchStep) -> String {
    match step {
        SearchStep::Fetch(w) => w,
        SearchStep::Done(r) => panic!("expected a word to fetch, got {:?}", r),
    }
}

fn done(step: SearchStep) -> Result<String, String> {
    match step {
        SearchStep::Done(r) => r,
        SearchStep::Fetch(w) => panic!("expected the end of the search, got {}", w),
    }
}

#[test]
fn search_fetches_each_word_found() {
    let mut s = AnswerSearch::new(
        "bonjour tout le monde".to_string(),
        strings(&["bonjour", "salut", "monde"]),
    );
    assert_eq!(fetched(s.advance()), "bonjour");
    s.add_answers(strings(&["Salut !"]));
    assert_eq!(fetched(s.advance()), "monde");
    s.add_answers(strings(&["Hello world"]));
    let answer = done(s.advance()).unwrap();
    assert!(answer == "Salut !" || answer == "Hello world");
}

#[test]
fn search_without_answers_fails() {
    let mut s = AnswerSearch::new("rien".to_string(), strings(&["bonjour", "salut"]));
    assert_eq!(done(s.advance()), Err("ERROR: no word found for: rien".to_string()));
    let mut s = AnswerSearch::new("salut".to_string(), strings(&["salut"]));
    assert_eq!(fetched(s.advance()), "salut");
    s.add_answers(Vec::new());
    assert_eq!(done(s.advance()), Err("ERROR: no word found for: salut".to_string()));
}

#[test]
fn search_with_one_answer_gives_it() {
    let mut s = AnswerSearch::new("'plop".to_string(), strings(&["plop"]));
    assert_eq!(fetched(s.advance()), "plop");
    s.add_answers(strings(&["pouet"]));
    assert_eq!(done(s.advance()), Ok("pouet".to_string()));
}

#[test]
fn search_stops_at_a_bad_expression() {
    let mut s = AnswerSearch::new("x".to_string(), strings(&["(", "x"]));
    let e = done(s.advance()).unwrap_err();
    assert!(e.starts_with("ERROR: setup regex "));
}
