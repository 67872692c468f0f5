use botbot::database::{
    _get_left_arg, _get_right_arg, add_chat_faults_exec, add_chat_request, add_trigger_word,
    choose_answer, del_chat_faults_exec, del_chat_request, get_model, is_admin, is_sadmin,
    pick_answer, remove_trigger_word, trigger_list_from, trigger_matches, trigger_pattern,
    BrainRow, ChatDeletion, UserRow,
};

fn user(name: &str, power: i64) -> UserRow {
    UserRow { user: name.to_string(), power }
}

fn brain_row(user: &str, room: &str, ai: &str) -> BrainRow {
    BrainRow { user: user.to_string(), room: room.to_string(), ai: ai.to_string() }
}

fn strings(v: &[&str]) -> Vec<String> {
    v.iter().map(|s| s.to_string()).collect()
}

#[test]
fn left_and_right_arguments() {
    let cmd = "!add [bonjour][Salut à toi]".to_string();
    assert_eq!(_get_left_arg(&cmd), Ok("bonjour".to_string()));
    assert_eq!(_get_right_arg(&cmd), Ok("Salut à toi".to_string()));
}

#[test]
fn right_argument_uses_last_brackets() {
    let cmd = "!add [a][b][c]".to_string();
    assert_eq!(_get_left_arg(&cmd), Ok("a".to_string()));
    assert_eq!(_get_right_arg(&cmd), Ok("c".to_string()));
}

#[test]
fn argument_errors() {
    assert_eq!(_get_left_arg(&"none".to_string()), Err("ERROR: unable to find left arg start".to_string()));
    assert_eq!(_get_left_arg(&"[x".to_string()), Err("ERROR: unable to find left arg end".to_string()));
    assert_eq!(_get_left_arg(&"[]".to_string()), Err("ERROR: no value in left arg".to_string()));
    assert_eq!(_get_right_arg(&"none".to_string()), Err("ERROR: unable to find right arg start".to_string()));
    assert_eq!(_get_right_arg(&"[x".to_string()), Err("ERROR: unable to find right arg end".to_string()));
    assert_eq!(_get_right_arg(&"[a][]".to_string()), Err("ERROR: no value in right arg".to_string()));
}

#[test]
fn admin_rights_follow_the_users_table() {
    let users = vec![user("Alice", 1), user("Bob", 2), user("Carol", 3)];
    assert_eq!(is_admin(&users, &"Alice".to_string()), Ok(false));
    assert_eq!(is_admin(&users, &"Bob".to_string()), Ok(true));
    assert_eq!(is_admin(&users, &"Carol".to_string()), Ok(true));
    assert_eq!(is_admin(&users, &"Dave".to_string()), Ok(false));
    assert_eq!(is_sadmin(&users, &"Alice".to_string()), Ok(false));
    assert_eq!(is_sadmin(&users, &"Bob".to_string()), Ok(false));
    assert_eq!(is_sadmin(&users, &"Carol".to_string()), Ok(true));
    assert_eq!(is_sadmin(&Vec::new(), &"Carol".to_string()), Ok(false));
}

#[test]
fn any_row_with_the_power_grants_it() {
    let users = vec![user("Bob", 1), user("Bob", 3)];
    assert_eq!(is_admin(&users, &"Bob".to_string()), Ok(true));
    assert_eq!(is_sadmin(&users, &"Bob".to_string()), Ok(true));
}

#[test]
fn model_by_user_and_room() {
    let brain = vec![
        brain_row("@eve:m", "fdn-test", "mifa"),
        brain_row("@eve:m", "fdn-bar", "bar"),
        brain_row("@bob:m", "fdn-test", "helper"),
    ];
    let m = |u: &str, r: &str| get_model(&brain, &u.to_string(), &r.to_string());
    assert_eq!(m("@eve:m", "fdn-test"), Ok("mifa".to_string()));
    assert_eq!(m("@eve:m", "fdn-bar"), Ok("bar".to_string()));
    assert_eq!(m("@bob:m", "fdn-test"), Ok("helper".to_string()));
    assert_eq!(m("@bob:m", "fdn-bar"), Ok("sql".to_string()));
    assert_eq!(m("@ann:m", "fdn-test"), Ok("sql".to_string()));
    assert_eq!(get_model(&Vec::new(), &"@ann:m".to_string(), &"x".to_string()), Ok("sql".to_string()));
}

#[test]
fn first_brain_row_wins() {
    let brain = vec![brain_row("@eve:m", "r", "first"), brain_row("@eve:m", "r", "second")];
    assert_eq!(get_model(&brain, &"@eve:m".to_string(), &"r".to_string()), Ok("first".to_string()));
}

#[test]
fn adding_a_word_twice_keeps_one() {
    let mut list = strings(&["a"]);
    add_trigger_word(&mut list, "b".to_string());
    add_trigger_word(&mut list, "b".to_string());
    add_trigger_word(&mut list, "a".to_string());
    assert_eq!(list, strings(&["a", "b"]));
}

#[test]
fn remove_undoes_add() {
    let before = strings(&["x", "y"]);
    let mut list = before.clone();
    add_trigger_word(&mut list, "z".to_string());
    remove_trigger_word(&mut list, &"z".to_string());
    assert_eq!(list, before);
}

#[test]
fn removal_keeps_other_words_in_order() {
    let mut list = strings(&["a", "b", "a", "c"]);
    remove_trigger_word(&mut list, &"a".to_string());
    assert_eq!(list, strings(&["b", "c"]));
}

#[test]
fn trigger_list_drops_repeats() {
    assert_eq!(trigger_list_from(strings(&["a", "b", "a", "c", "b"])), strings(&["a", "b", "c"]));
    assert_eq!(trigger_list_from(Vec::new()), Vec::<String>::new());
}

#[test]
fn add_chat_reads_both_arguments() {
    let cmd = "!add [plop][plip]".to_string();
    assert!(!add_chat_faults_exec(&cmd));
    assert_eq!(add_chat_request(&cmd), Ok(("plop".to_string(), "plip".to_string())));
    assert_eq!(
        add_chat_request(&"!add".to_string()),
        Err("ERROR: chat_to_add match trigger ERROR: unable to find left arg start".to_string())
    );
    assert_eq!(
        add_chat_request(&"!add [a][]".to_string()),
        Err("ERROR: chat_to_add match answer ERROR: no value in right arg".to_string())
    );
    assert!(add_chat_faults_exec(&"!add ]x[".to_string()));
}

#[test]
fn del_chat_decisions() {
    let list = strings(&["plop"]);
    assert!(!del_chat_faults_exec(&"!del [plop][plop]".to_string(), &list));
    match del_chat_request(&"!del [plop][plop]".to_string(), &list) {
        Ok(ChatDeletion::Delete(t)) => assert_eq!(t, "plop"),
        _ => panic!("expected a deletion"),
    }
    match del_chat_request(&"!del [plop][other]".to_string(), &list) {
        Ok(ChatDeletion::Keep(reply)) => assert_eq!(reply, "plop"),
        _ => panic!("expected no deletion"),
    }
    match del_chat_request(&"!del [zz][zz]".to_string(), &list) {
        Err(e) => assert_eq!(e, "ERROR: trigger not in db"),
        _ => panic!("expected an error"),
    }
    match del_chat_request(&"!del".to_string(), &list) {
        Err(e) => assert_eq!(e, "ERROR: chat_to_del match trigger ERROR: unable to find left arg start"),
        _ => panic!("expected an error"),
    }
    assert!(del_chat_faults_exec(&"!del [plop][".to_string(), &list));
    assert!(!del_chat_faults_exec(&"!del [zz][".to_string(), &list));
    match del_chat_request(&"!del [plop][]".to_string(), &list) {
        Err(e) => assert_eq!(e, "ERROR: chat_to_add match answer ERROR: no value in right arg"),
        _ => panic!("expected an error"),
    }
}

#[test]
fn trigger_pattern_text() {
    assert_eq!(
        trigger_pattern(&"bonjour".to_string()),
        "(\\sbonjour|^bonjour|'bonjour)[\\s\\?!,]*".to_string()
    );
}

#[test]
fn trigger_matching_through_regex() {
    let word = "bonjour".to_string();
    assert_eq!(trigger_matches(&"salut, bonjour !".to_string(), &word), Ok(true));
    assert_eq!(trigger_matches(&"bonjour".to_string(), &word), Ok(true));
    assert_eq!(trigger_matches(&"l'bonjour".to_string(), &word), Ok(true));
    assert_eq!(trigger_matches(&"abonjour".to_string(), &word), Ok(false));
    let bad = trigger_matches(&"x".to_string(), &"(".to_string());
    match bad {
        Err(e) => assert!(e.starts_with("ERROR: setup regex ") && e.len() > "ERROR: setup regex ".len()),
        Ok(_) => panic!("an unbalanced pattern must not compile"),
    }
}

#[test]
fn answers_are_chosen_among_gathered() {
    let answers = strings(&["un", "deux", "trois"]);
    assert_eq!(choose_answer(&answers, &"p".to_string(), 1), Ok("deux".to_string()));
    for _ in 0..20 {
        let a = pick_answer(&answers, &"p".to_string()).unwrap();
        assert!(answers.contains(&a));
    }
    assert_eq!(
        pick_answer(&Vec::new(), &"coucou".to_string()),
        Err("ERROR: no word found for: coucou".to_string())
    );
    assert_eq!(
        choose_answer(&Vec::new(), &"coucou".to_string(), 0),
        Err("ERROR: no word found for: coucou".to_string())
    );
}
