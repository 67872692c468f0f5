use botbot::matrix::{
    clean_audio, clean_media, clean_room_id, clean_room_origin, clean_sender_id,
    clean_sender_name, clean_trame, media_faults_exec, room_origin_faults_exec,
    sender_name_faults_exec, trame_faults_exec,
};

const ROOM_LINE: &str = "Message received for room fdn-test [!AbCd:matrix.org]";
const SENDER_LINE: &str = "sender Alice (IRC) [@alice:matrix.org]";

#[test]
fn room_id_is_between_first_brackets() {
    assert_eq!(clean_room_id(ROOM_LINE.to_string()), Ok("!AbCd:matrix.org".to_string()));
}

#[test]
fn room_id_errors() {
    assert_eq!(clean_room_id("no brackets".to_string()), Err("ERROR: clean_room_id start".to_string()));
    assert_eq!(clean_room_id("open [only".to_string()), Err("ERROR: clean_room_id end".to_string()));
    assert_eq!(
        clean_room_id("empty []".to_string()),
        Err("ERROR: clean_room_id matrix-commander output unreadable".to_string())
    );
    assert_eq!(
        clean_room_id("reversed ] [".to_string()),
        Err("ERROR: clean_room_id matrix-commander output unreadable".to_string())
    );
}

#[test]
fn room_id_keeps_unicode() {
    assert_eq!(clean_room_id("é[ça]ü".to_string()), Ok("ça".to_string()));
}

#[test]
fn room_origin_is_after_room_before_bracket() {
    assert_eq!(clean_room_origin(ROOM_LINE.to_string()), Ok("fdn-test".to_string()));
    assert_eq!(clean_room_origin("room x [id]".to_string()), Ok("x".to_string()));
}

#[test]
fn room_origin_errors() {
    assert_eq!(clean_room_origin("nothing here [x]".to_string()), Err("ERROR: clean_room_origin start".to_string()));
    assert_eq!(clean_room_origin("room without bracket".to_string()), Err("ERROR: clean_room_origin end".to_string()));
    assert_eq!(
        clean_room_origin("room [id]".to_string()),
        Err("ERROR: clean_room_origin matrix-commander output unreadable".to_string())
    );
}

#[test]
fn sender_id_is_between_first_brackets() {
    assert_eq!(clean_sender_id(SENDER_LINE.to_string()), Ok("@alice:matrix.org".to_string()));
    assert_eq!(clean_sender_id("sender x []".to_string()), Ok("".to_string()));
}

#[test]
fn sender_id_errors() {
    assert_eq!(clean_sender_id("sender".to_string()), Err("ERROR: clean_sender_id start".to_string()));
    assert_eq!(clean_sender_id("sender [x".to_string()), Err("ERROR: clean_sender_id end".to_string()));
    assert_eq!(
        clean_sender_id("] sender [".to_string()),
        Err("ERROR: clean_sender_id matrix-commander output unreadable".to_string())
    );
}

#[test]
fn sender_name_drops_irc_mark() {
    assert_eq!(clean_sender_name(SENDER_LINE.to_string()), Ok("Alice".to_string()));
    assert_eq!(
        clean_sender_name("sender Bob (IRC) (IRC)x [@b:m]".to_string()),
        Ok("Bobx".to_string())
    );
    assert_eq!(clean_sender_name("sender Zoé [@z:m]".to_string()), Ok("Zoé".to_string()));
}

#[test]
fn sender_name_errors() {
    assert_eq!(clean_sender_name("nobody [x]".to_string()), Err("ERROR: clean_sender_name start".to_string()));
    assert_eq!(clean_sender_name("sender Bob".to_string()), Err("ERROR: clean_sender_name end".to_string()));
    assert_eq!(
        clean_sender_name("sender [x]".to_string()),
        Err("clean_sender_name ERROR: Matrix-Commander output unreadable".to_string())
    );
    assert_eq!(clean_sender_name("sender  [y]".to_string()), Ok("".to_string()));
    assert_eq!(clean_sender_name("sender X [y]".to_string()), Ok("X".to_string()));
}

#[test]
fn media_kinds() {
    assert_eq!(clean_media(" Hello botbot\n".to_string()), Ok("text".to_string()));
    assert_eq!(
        clean_media(" Received encrypted audio: Voice message_1.ogg [/m/a.ogg]\n".to_string()),
        Ok("audio".to_string())
    );
    assert_eq!(clean_media("Received encrypted:".to_string()), Ok("text".to_string()));
    assert_eq!(clean_media("Received encrypted image".to_string()), Ok("text".to_string()));
}

#[test]
fn audio_file() {
    assert_eq!(
        clean_audio("Received encrypted audio: Voice message_1.ogg] end".to_string()),
        Ok("Voice message_1.ogg".to_string())
    );
    assert_eq!(
        clean_audio("no voice".to_string()),
        Err("audio ERROR: Matrix-Commander output unreadable".to_string())
    );
    assert_eq!(
        clean_audio("ogg] Voice message_".to_string()),
        Err("audio ERROR: audio file unreadable".to_string())
    );
}

#[test]
fn trame_of_a_text_message() {
    let frame = vec![ROOM_LINE, SENDER_LINE, "2024-01-01 10:00:00", " Hello botbot\n"];
    assert_eq!(
        clean_trame(frame),
        Ok((
            "!AbCd:matrix.org".to_string(),
            "fdn-test".to_string(),
            "@alice:matrix.org".to_string(),
            "Alice".to_string(),
            "Hello botbot".to_string(),
            "text".to_string(),
        ))
    );
}

#[test]
fn trame_of_a_voice_message() {
    let frame = vec![
        ROOM_LINE,
        SENDER_LINE,
        "time",
        " Received encrypted audio: Voice message_7.ogg] saved\n",
    ];
    assert_eq!(
        clean_trame(frame),
        Ok((
            "!AbCd:matrix.org".to_string(),
            "fdn-test".to_string(),
            "@alice:matrix.org".to_string(),
            "Alice".to_string(),
            "Voice message_7.ogg".to_string(),
            "audio".to_string(),
        ))
    );
}

#[test]
fn trame_errors() {
    let unsupported = vec![ROOM_LINE, SENDER_LINE, "t", " Received encrypted image: x\n"];
    assert_eq!(clean_trame(unsupported), Err("ERROR: clean_trame unsupported media".to_string()));
    let bad_room = vec!["no room here", SENDER_LINE, "t", " hi\n"];
    assert_eq!(clean_trame(bad_room), Err("ERROR: clean_trame ERROR: clean_room_id start".to_string()));
    let bad_audio = vec![ROOM_LINE, SENDER_LINE, "t", " Received encrypted audio: nothing\n"];
    assert_eq!(
        clean_trame(bad_audio),
        Err("ERROR: clean_audio audio ERROR: Matrix-Commander output unreadable".to_string())
    );
}

#[test]
fn room_name_fault_checks() {
    assert!(!room_origin_faults_exec(ROOM_LINE));
    assert!(room_origin_faults_exec("[x] room y"));
    assert!(room_origin_faults_exec("roomé ab [x]"));
    assert!(!room_origin_faults_exec("no bracket room"));
    assert!(!room_origin_faults_exec("room [x]"));
}

#[test]
fn sender_name_fault_checks() {
    assert!(!sender_name_faults_exec(SENDER_LINE));
    assert!(sender_name_faults_exec("[x] sender y"));
    assert!(sender_name_faults_exec("senderé ab [x]"));
    assert!(!sender_name_faults_exec("sender"));
}

#[test]
fn media_fault_checks() {
    assert!(!media_faults_exec("Received encrypted audio: x"));
    assert!(media_faults_exec("Received encryptedé xx: y"));
    assert!(!media_faults_exec("plain text"));
}

#[test]
fn frame_fault_checks() {
    assert!(!trame_faults_exec(ROOM_LINE, SENDER_LINE, "\"hi\""));
    assert!(trame_faults_exec(ROOM_LINE, SENDER_LINE, ""));
    assert!(trame_faults_exec(ROOM_LINE, SENDER_LINE, "é"));
    assert!(!trame_faults_exec("no brackets", SENDER_LINE, ""));
    assert!(trame_faults_exec("[x] room y", SENDER_LINE, "\"hi\""));
    assert!(trame_faults_exec(ROOM_LINE, "senderé ab [x]", "\"hi\""));
}
