use botbot::database::{BrainRow, UserRow};
use botbot::message::{Message, Reply};

fn message(text: &str) -> Message {
    Message {
        room_origin: "fdn-test".to_string(),
        room_id: "!room:m".to_string(),
        sender_id: "@alice:m".to_string(),
        sender_name: "Alice".to_string(),
        m_message: text.to_string(),
    }
}

fn users() -> Vec<UserRow> {
    vec![
        UserRow { user: "Alice".to_string(), power: 3 },
        UserRow { user: "Bob".to_string(), power: 2 },
        UserRow { user: "Carol".to_string(), power: 1 },
    ]
}

fn from(sender_name: &str, text: &str) -> Message {
    let mut m = message(text);
    m.sender_name = sender_name.to_string();
    m
}

#[test]
fn admin_commands_are_acknowledged() {
    let mut m = message("Éric dit !admin");
    let t = m.thinking(&users(), &Vec::new());
    assert_eq!(t.phrase, "Eric dit !admin");
    match t.reply {
        Reply::Text(x) => assert_eq!(x, "Admin bitch !!!"),
        _ => panic!("expected an acknowledgement"),
    }
    let mut m = message("please !sadmin");
    match m.thinking(&users(), &Vec::new()).reply {
        Reply::Text(x) => assert_eq!(x, "Admin Super bitch !!!"),
        _ => panic!("expected an acknowledgement"),
    }
    let mut m = from("Bob", "!admin now");
    match m.thinking(&users(), &Vec::new()).reply {
        Reply::Text(x) => assert_eq!(x, "Admin bitch !!!"),
        _ => panic!("expected an acknowledgement"),
    }
}

#[test]
fn commands_from_others_go_to_the_model() {
    let mut m = from("Carol", "!admin please");
    match m.thinking(&users(), &Vec::new()).reply {
        Reply::Ask { name, model } => {
            assert_eq!(name, "Carol");
            assert_eq!(model, "sql");
        }
        _ => panic!("a user is no administrator"),
    }
    let mut m = from("Bob", "!sadmin please");
    match m.thinking(&users(), &Vec::new()).reply {
        Reply::Ask { model, .. } => assert_eq!(model, "sql"),
        _ => panic!("an administrator is no super-administrator"),
    }
    let mut m = from("Dave", "!admin");
    assert!(matches!(m.thinking(&users(), &Vec::new()).reply, Reply::Ask { .. }));
}

#[test]
fn other_messages_go_to_the_model() {
    let mut m = message("bonjour à tous");
    let brain = vec![
        BrainRow { user: "@alice:m".to_string(), room: "elsewhere".to_string(), ai: "bar".to_string() },
        BrainRow { user: "@alice:m".to_string(), room: "fdn-test".to_string(), ai: "mifa".to_string() },
    ];
    let t = m.thinking(&users(), &brain);
    assert_eq!(t.phrase, "bonjour a tous");
    match t.reply {
        Reply::Ask { name, model } => {
            assert_eq!(name, "Alice");
            assert_eq!(model, "mifa");
        }
        _ => panic!("expected a question to the model"),
    }
    let mut m = message("hello");
    match m.thinking(&users(), &Vec::new()).reply {
        Reply::Ask { model, .. } => assert_eq!(model, "sql"),
        _ => panic!("expected a question to the model"),
    }
}

#[test]
fn ticket_link() {
    let m = message("x");
    assert_eq!(
        m.ticket("#12345".to_string()),
        Ok("Ticket: https://tickets.fdn.fr/rt/Ticket/Display.html?id=12345".to_string())
    );
    assert_eq!(
        m.ticket("#".to_string()),
        Ok("Ticket: https://tickets.fdn.fr/rt/Ticket/Display.html?id=".to_string())
    );
}

#[test]
fn talking_arguments() {
    let m = message("x");
    assert_eq!(m.talking("hi".to_string()), ("-r!room:m".to_string(), "-mhi".to_string()));
}

#[test]
fn change_room_moves_answer() {
    let mut m = message("x");
    m._change_room("!other:m".to_string(), "elsewhere".to_string());
    assert_eq!(m.room_id, "!other:m");
    assert_eq!(m.room_origin, "elsewhere");
    assert_eq!(m.sender_name, "Alice");
}
