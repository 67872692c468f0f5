//! Parsing of the frames that `matrix-commander` prints for each received
//! message, and the argument lists the bot hands to `matrix-commander`.
//!
//! Offsets are byte offsets into the UTF-8 encoding of the text, exactly as
//! `str::find` returns them; a cut `&s[a..b]` is described by its bytes.
use vstd::prelude::*;
use vstd::utf8::*;
use crate::text::{
    can_cut, can_cut_exec, cut_exec, find_ascii, find_first, is_first_occurrence, lacks_byte,
    lemma_after_ascii_is_boundary, lemma_ascii_is_boundary, lemma_ascii_utf8,
    lemma_bracketed_bytes, lemma_first_byte, lemma_first_unique, lemma_utf8_concat, lemma_word_after, contains_bytes, occurs_at,
    law_remove_pattern,
    lemma_utf8_lacks, lemma_utf8_nonempty, no_brackets, outcome, prefixed, remove_all,
    remove_matches, utf8,
};

verus! {

/// Room id: the text between the first `[` and the first `]`.
#[verifier::opaque]
pub open spec fn room_id_spec(raw: Seq<char>) -> Result<Seq<u8>, Seq<char>> {
    let b = utf8(raw);
    match find_first(b, utf8("["@)) {
        None => Err("ERROR: clean_room_id start"@),
        Some(i) => match find_first(b, utf8("]"@)) {
            None => Err("ERROR: clean_room_id end"@),
            Some(j) => if i + 1 >= j {
                Err("ERROR: clean_room_id matrix-commander output unreadable"@)
            } else {
                Ok(b.subrange(i + 1, j))
            },
        },
    }
}

/// Isolates the room id of a frame.
pub fn clean_room_id(raw_room_id: String) -> (r: Result<String, String>)
    ensures
        outcome(r) == room_id_spec(raw_room_id@),
{
    reveal(room_id_spec);
    let s = raw_room_id.as_str();
    let b = s.as_bytes();
    proof {
        reveal_strlit("[");
        reveal_strlit("]");
    }
    let debut = match find_ascii(b, "[") {
        Some(i) => i,
        None => return Err("ERROR: clean_room_id start".to_owned()),
    };
    let fin = match find_ascii(b, "]") {
        Some(j) => j,
        None => return Err("ERROR: clean_room_id end".to_owned()),
    };
    if debut + 1 >= fin {
        Err("ERROR: clean_room_id matrix-commander output unreadable".to_owned())
    } else {
        proof {
            assert(b@[debut + 0] == '[' as u8);
            lemma_after_ascii_is_boundary(s@, debut as int);
            assert(b@[fin + 0] == ']' as u8);
            lemma_ascii_is_boundary(s@, fin as int);
        }
        Ok(cut_exec(s, debut + 1, fin))
    }
}


/// Room name: from the fifth byte after the first `room` to the byte before
/// the first `[`.
#[verifier::opaque]
pub open spec fn room_origin_spec(raw: Seq<char>) -> Result<Seq<u8>, Seq<char>> {
    let b = utf8(raw);
    match find_first(b, utf8("room"@)) {
        None => Err("ERROR: clean_room_origin start"@),
        Some(i) => match find_first(b, utf8("["@)) {
            None => Err("ERROR: clean_room_origin end"@),
            Some(j) => if i + 5 >= j - 1 {
                Err("ERROR: clean_room_origin matrix-commander output unreadable"@)
            } else {
                Ok(b.subrange(i + 5, j - 1))
            },
        },
    }
}

/// The texts on which isolating the room name panics: a `[` in first
/// position (the offset before it does not exist), or a cut that does not
/// fall on character boundaries.
#[verifier::opaque]
pub open spec fn room_origin_faults(raw: Seq<char>) -> bool {
    let b = utf8(raw);
    match (find_first(b, utf8("room"@)), find_first(b, utf8("["@))) {
        (Some(i), Some(j)) => j == 0 || (i + 5 < j - 1 && !can_cut(raw, i + 5, j - 1)),
        _ => false,
    }
}

/// Isolates the room name of a frame.
pub fn clean_room_origin(raw_room_origin: String) -> (r: Result<String, String>)
    requires
        !room_origin_faults(raw_room_origin@),
    ensures
        outcome(r) == room_origin_spec(raw_room_origin@),
{
    reveal(room_origin_spec);
    reveal(room_origin_faults);
    let s = raw_room_origin.as_str();
    let b = s.as_bytes();
    proof {
        reveal_strlit("room");
        reveal_strlit("[");
    }
    let debut = match find_ascii(b, "room") {
        Some(i) => i,
        None => return Err("ERROR: clean_room_origin start".to_owned()),
    };
    let fin = match find_ascii(b, "[") {
        Some(j) => j - 1,
        None => return Err("ERROR: clean_room_origin end".to_owned()),
    };
    if fin <= debut || fin - debut <= 5 {
        Err("ERROR: clean_room_origin matrix-commander output unreadable".to_owned())
    } else {
        Ok(cut_exec(s, debut + 5, fin))
    }
}

/// Sender id: the text between the first `[` and the first `]` (possibly
/// empty).
#[verifier::opaque]
pub open spec fn sender_id_spec(raw: Seq<char>) -> Result<Seq<u8>, Seq<char>> {
    let b = utf8(raw);
    match find_first(b, utf8("["@)) {
        None => Err("ERROR: clean_sender_id start"@),
        Some(i) => match find_first(b, utf8("]"@)) {
            None => Err("ERROR: clean_sender_id end"@),
            Some(j) => if i + 1 > j {
                Err("ERROR: clean_sender_id matrix-commander output unreadable"@)
            } else {
                Ok(b.subrange(i + 1, j))
            },
        },
    }
}

/// Isolates the sender id of a frame.
pub fn clean_sender_id(raw_sender_id: String) -> (r: Result<String, String>)
    ensures
        outcome(r) == sender_id_spec(raw_sender_id@),
{
    reveal(sender_id_spec);
    let s = raw_sender_id.as_str();
    let b = s.as_bytes();
    proof {
        reveal_strlit("[");
        reveal_strlit("]");
    }
    let debut = match find_ascii(b, "[") {
        Some(i) => i + 1,
        None => return Err("ERROR: clean_sender_id start".to_owned()),
    };
    let fin = match find_ascii(b, "]") {
        Some(j) => j,
        None => return Err("ERROR: clean_sender_id end".to_owned()),
    };
    if debut > fin {
        Err("ERROR: clean_sender_id matrix-commander output unreadable".to_owned())
    } else {
        proof {
            assert(b@[(debut - 1) + 0] == '[' as u8);
            lemma_after_ascii_is_boundary(s@, debut - 1);
            assert(b@[fin + 0] == ']' as u8);
            lemma_ascii_is_boundary(s@, fin as int);
        }
        Ok(cut_exec(s, debut, fin))
    }
}

/// Sender name: from the seventh byte after the first `sender` to the byte
/// before the first `[`, with every ` (IRC)` taken out.
#[verifier::opaque]
pub open spec fn sender_name_spec(raw: Seq<char>) -> Result<Seq<u8>, Seq<char>> {
    let b = utf8(raw);
    match find_first(b, utf8("sender"@)) {
        None => Err("ERROR: clean_sender_name start"@),
        Some(i) => match find_first(b, utf8("["@)) {
            None => Err("ERROR: clean_sender_name end"@),
            Some(j) => if i + 7 > j - 1 {
                Err("clean_sender_name ERROR: Matrix-Commander output unreadable"@)
            } else {
                Ok(remove_matches(b.subrange(i + 7, j - 1), utf8(" (IRC)"@)))
            },
        },
    }
}

/// The texts on which isolating the sender name panics: a `[` in first
/// position, or a cut that does not fall on character boundaries.
#[verifier::opaque]
pub open spec fn sender_name_faults(raw: Seq<char>) -> bool {
    let b = utf8(raw);
    match (find_first(b, utf8("sender"@)), find_first(b, utf8("["@))) {
        (Some(i), Some(j)) => j == 0 || (i + 7 <= j - 1 && !can_cut(raw, i + 7, j - 1)),
        _ => false,
    }
}

/// Isolates the sender name of a frame, without the ` (IRC)` mark that the
/// IRC bridge adds.
pub fn clean_sender_name(raw_sender_name: String) -> (r: Result<String, String>)
    requires
        !sender_name_faults(raw_sender_name@),
    ensures
        outcome(r) == sender_name_spec(raw_sender_name@),
{
    reveal(sender_name_spec);
    reveal(sender_name_faults);
    let s = raw_sender_name.as_str();
    let b = s.as_bytes();
    proof {
        reveal_strlit("sender");
        reveal_strlit("[");
        reveal_strlit(" (IRC)");
    }
    let debut = match find_ascii(b, "sender") {
        Some(i) => i,
        None => return Err("ERROR: clean_sender_name start".to_owned()),
    };
    let fin = match find_ascii(b, "[") {
        Some(j) => j - 1,
        None => return Err("ERROR: clean_sender_name end".to_owned()),
    };
    if fin < debut || fin - debut < 7 {
        Err("clean_sender_name ERROR: Matrix-Commander output unreadable".to_owned())
    } else {
        let piece = cut_exec(s, debut + 7, fin);
        Ok(remove_all(piece.as_str(), " (IRC)"))
    }
}

/// Media kind: from the nineteenth byte after the first `Received encrypted`
/// to the first `:`; `text` when either is missing or the range is empty.
#[verifier::opaque]
pub open spec fn media_spec(raw: Seq<char>) -> Seq<u8> {
    let b = utf8(raw);
    match (find_first(b, utf8("Received encrypted"@)), find_first(b, utf8(":"@))) {
        (Some(i), Some(j)) => if i + 19 >= j {
            utf8("text"@)
        } else {
            b.subrange(i + 19, j)
        },
        _ => utf8("text"@),
    }
}

/// The texts on which isolating the media kind panics: a cut that does not
/// start on a character boundary.
#[verifier::opaque]
pub open spec fn media_faults(raw: Seq<char>) -> bool {
    let b = utf8(raw);
    match (find_first(b, utf8("Received encrypted"@)), find_first(b, utf8(":"@))) {
        (Some(i), Some(j)) => i + 19 < j && !can_cut(raw, i + 19, j),
        _ => false,
    }
}

/// Isolates the media kind of a frame; never fails.
pub fn clean_media(raw_msg_trame: String) -> (r: Result<String, String>)
    requires
        !media_faults(raw_msg_trame@),
    ensures
        outcome(r) == Ok::<Seq<u8>, Seq<char>>(media_spec(raw_msg_trame@)),
{
    reveal(media_spec);
    reveal(media_faults);
    let s = raw_msg_trame.as_str();
    let b = s.as_bytes();
    proof {
        reveal_strlit("Received encrypted");
        reveal_strlit(":");
    }
    let debut = match find_ascii(b, "Received encrypted") {
        Some(i) => i,
        None => return Ok("text".to_owned()),
    };
    let fin = match find_ascii(b, ":") {
        Some(j) => j,
        None => return Ok("text".to_owned()),
    };
    if fin <= debut || fin - debut <= 19 {
        Ok("text".to_owned())
    } else {
        Ok(cut_exec(s, debut + 19, fin))
    }
}

/// Voice message file: from the first `Voice message_` through the `ogg` of
/// the first `ogg]`.
#[verifier::opaque]
pub open spec fn audio_spec(raw: Seq<char>) -> Result<Seq<u8>, Seq<char>> {
    let b = utf8(raw);
    match (find_first(b, utf8("Voice message_"@)), find_first(b, utf8("ogg]"@))) {
        (Some(i), Some(j)) => if i >= j + 3 {
            Err("audio ERROR: audio file unreadable"@)
        } else {
            Ok(b.subrange(i, j + 3))
        },
        _ => Err("audio ERROR: Matrix-Commander output unreadable"@),
    }
}

/// Isolates the voice message file named in a frame.
pub fn clean_audio(raw_msg_trame: String) -> (r: Result<String, String>)
    ensures
        outcome(r) == audio_spec(raw_msg_trame@),
{
    reveal(audio_spec);
    let s = raw_msg_trame.as_str();
    let b = s.as_bytes();
    proof {
        reveal_strlit("Voice message_");
        reveal_strlit("ogg]");
    }
    let debut = match find_ascii(b, "Voice message_") {
        Some(i) => i,
        None => return Err("audio ERROR: Matrix-Commander output unreadable".to_owned()),
    };
    let fin = match find_ascii(b, "ogg]") {
        Some(j) => j + 3,
        None => return Err("audio ERROR: Matrix-Commander output unreadable".to_owned()),
    };
    if debut >= fin {
        Err("audio ERROR: audio file unreadable".to_owned())
    } else {
        proof {
            assert(b@[debut + 0] == 'V' as u8);
            lemma_ascii_is_boundary(s@, debut as int);
            assert(b@[(fin - 3) + 2] == 'g' as u8);
            lemma_after_ascii_is_boundary(s@, fin - 1);
        }
        Ok(cut_exec(s, debut, fin))
    }
}


/// The six texts of a parsed frame, by their bytes: room id, room name,
/// sender id, sender name, message and media kind.
pub type FrameBytes = (Seq<u8>, Seq<u8>, Seq<u8>, Seq<u8>, Seq<u8>, Seq<u8>);

/// A parsed frame seen through the bytes of its six texts.
pub open spec fn frame_outcome(
    r: Result<(String, String, String, String, String, String), String>,
) -> Result<FrameBytes, Seq<char>> {
    match r {
        Ok((a, b, c, d, e, f)) => Ok((utf8(a@), utf8(b@), utf8(c@), utf8(d@), utf8(e@), utf8(f@))),
        Err(m) => Err(m@),
    }
}

/// A frame is read from its first line (room), its second line (sender)
/// and its fourth line (message): the message of a text frame is its line
/// without the first and the last byte, that of a voice frame the file of
/// the voice message.
pub open spec fn trame_spec(room: Seq<char>, sender: Seq<char>, body: Seq<char>) -> Result<
    FrameBytes,
    Seq<char>,
> {
    let prefix = "ERROR: clean_trame "@;
    match room_id_spec(room) {
        Err(e) => Err(prefix + e),
        Ok(room_id) => match room_origin_spec(room) {
            Err(e) => Err(prefix + e),
            Ok(room_name) => match sender_id_spec(sender) {
                Err(e) => Err(prefix + e),
                Ok(sender_id) => match sender_name_spec(sender) {
                    Err(e) => Err(prefix + e),
                    Ok(sender_name) => {
                        let media = media_spec(body);
                        if media == utf8("text"@) {
                            let b = utf8(body);
                            Ok(
                                (
                                    room_id,
                                    room_name,
                                    sender_id,
                                    sender_name,
                                    b.subrange(1, b.len() - 1),
                                    media,
                                ),
                            )
                        } else if media == utf8("audio"@) {
                            match audio_spec(body) {
                                Err(e) => Err("ERROR: clean_audio "@ + e),
                                Ok(file) => Ok(
                                    (room_id, room_name, sender_id, sender_name, file, media),
                                ),
                            }
                        } else {
                            Err("ERROR: clean_trame unsupported media"@)
                        }
                    },
                },
            },
        },
    }
}

/// The frames on which parsing panics: one of the cuts above panics, or the
/// message line of a text frame is shorter than two bytes or does not start
/// and end with a one-byte character.
pub open spec fn trame_faults(room: Seq<char>, sender: Seq<char>, body: Seq<char>) -> bool {
    room_id_spec(room) is Ok && (room_origin_faults(room) || (room_origin_spec(room) is Ok
        && sender_id_spec(sender) is Ok && (sender_name_faults(sender) || (sender_name_spec(
        sender,
    ) is Ok && (media_faults(body) || (media_spec(body) == utf8("text"@) && !can_cut(
        body,
        1,
        utf8(body).len() - 1,
    )))))))
}

/// Parses a frame given as its lines.
pub fn clean_trame(matrix_trame: Vec<&str>) -> (r: Result<
    (String, String, String, String, String, String),
    String,
>)
    requires
        matrix_trame@.len() >= 4,
        !trame_faults(matrix_trame@[0]@, matrix_trame@[1]@, matrix_trame@[3]@),
    ensures
        frame_outcome(r) == trame_spec(matrix_trame@[0]@, matrix_trame@[1]@, matrix_trame@[3]@),
{
    let room = matrix_trame[0];
    let sender = matrix_trame[1];
    let body = matrix_trame[3];
    let clean_room_id = match clean_room_id(room.to_owned()) {
        Ok(v) => v,
        Err(e) => return Err(prefixed("ERROR: clean_trame ", e.as_str())),
    };
    let clean_room = match clean_room_origin(room.to_owned()) {
        Ok(v) => v,
        Err(e) => return Err(prefixed("ERROR: clean_trame ", e.as_str())),
    };
    let clean_sender_id = match clean_sender_id(sender.to_owned()) {
        Ok(v) => v,
        Err(e) => return Err(prefixed("ERROR: clean_trame ", e.as_str())),
    };
    let clean_sender_name = match clean_sender_name(sender.to_owned()) {
        Ok(v) => v,
        Err(e) => return Err(prefixed("ERROR: clean_trame ", e.as_str())),
    };
    let clean_media = match clean_media(body.to_owned()) {
        Ok(v) => v,
        Err(e) => return Err(prefixed("ERROR: clean_trame ", e.as_str())),
    };
    let text_kind = "text".to_owned();
    let audio_kind = "audio".to_owned();
    proof {
        encode_utf8_decode_utf8(clean_media@);
        encode_utf8_decode_utf8(text_kind@);
        encode_utf8_decode_utf8(audio_kind@);
    }
    let clean_message = if clean_media == text_kind {
        let n = body.as_bytes().len();
        proof {
            assert(room_id_spec(room@) is Ok);
            assert(room_origin_spec(room@) is Ok);
            assert(sender_id_spec(sender@) is Ok);
            assert(sender_name_spec(sender@) is Ok);
            assert(media_spec(body@) == utf8("text"@));
            assert(can_cut(body@, 1, utf8(body@).len() - 1));
        }
        cut_exec(body, 1, n - 1)
    } else if clean_media == audio_kind {
        match clean_audio(body.to_owned()) {
            Ok(v) => v,
            Err(e) => return Err(prefixed("ERROR: clean_audio ", e.as_str())),
        }
    } else {
        return Err("ERROR: clean_trame unsupported media".to_owned());
    };
    Ok((clean_room_id, clean_room, clean_sender_id, clean_sender_name, clean_message, clean_media))
}


/// Whether isolating the room name of `raw` would panic.
pub fn room_origin_faults_exec(raw: &str) -> (r: bool)
    ensures
        r == room_origin_faults(raw@),
{
    reveal(room_origin_faults);
    let b = raw.as_bytes();
    proof {
        reveal_strlit("room");
        reveal_strlit("[");
    }
    match (find_ascii(b, "room"), find_ascii(b, "[")) {
        (Some(i), Some(j)) => j == 0 || (j - 1 > i && j - 1 - i > 5 && !can_cut_exec(
            raw,
            i + 5,
            j - 1,
        )),
        _ => false,
    }
}

/// Whether isolating the sender name of `raw` would panic.
pub fn sender_name_faults_exec(raw: &str) -> (r: bool)
    ensures
        r == sender_name_faults(raw@),
{
    reveal(sender_name_faults);
    let b = raw.as_bytes();
    proof {
        reveal_strlit("sender");
        reveal_strlit("[");
    }
    match (find_ascii(b, "sender"), find_ascii(b, "[")) {
        (Some(i), Some(j)) => j == 0 || (j - 1 >= i && j - 1 - i >= 7 && !can_cut_exec(
            raw,
            i + 7,
            j - 1,
        )),
        _ => false,
    }
}

/// Whether isolating the media kind of `raw` would panic.
pub fn media_faults_exec(raw: &str) -> (r: bool)
    ensures
        r == media_faults(raw@),
{
    reveal(media_faults);
    let b = raw.as_bytes();
    proof {
        reveal_strlit("Received encrypted");
        reveal_strlit(":");
    }
    match (find_ascii(b, "Received encrypted"), find_ascii(b, ":")) {
        (Some(i), Some(j)) => j > i && j - i > 19 && !can_cut_exec(raw, i + 19, j),
        _ => false,
    }
}

/// Whether parsing the frame whose first, second and fourth lines are
/// `room`, `sender` and `body` would panic.
pub fn trame_faults_exec(room: &str, sender: &str, body: &str) -> (r: bool)
    ensures
        r == trame_faults(room@, sender@, body@),
{
    if clean_room_id(room.to_owned()).is_err() {
        return false;
    }
    if room_origin_faults_exec(room) {
        return true;
    }
    if clean_room_origin(room.to_owned()).is_err() || clean_sender_id(sender.to_owned()).is_err() {
        return false;
    }
    if sender_name_faults_exec(sender) {
        return true;
    }
    if clean_sender_name(sender.to_owned()).is_err() {
        return false;
    }
    if media_faults_exec(body) {
        return true;
    }
    let media = match clean_media(body.to_owned()) {
        Ok(m) => m,
        Err(_) => return false,
    };
    let text_kind = "text".to_owned();
    proof {
        encode_utf8_decode_utf8(media@);
        encode_utf8_decode_utf8(text_kind@);
    }
    if media != text_kind {
        return false;
    }
    let n = body.as_bytes().len();
    !(n >= 1 && can_cut_exec(body, 1, n - 1))
}

/// The bytes of `lead + x + " [" + id + "]"` for an ASCII `lead`, with the
/// place of each bracket.
proof fn lemma_line_bytes(lead: Seq<char>, x: Seq<char>, id: Seq<char>)
    requires
        is_ascii_chars(lead),
        no_brackets(lead),
        no_brackets(x),
        no_brackets(id),
    ensures
        ({
            let line = lead + x + " ["@ + id + "]"@;
            let b = utf8(line);
            let at = (utf8(lead).len() + utf8(x).len() + 1) as int;
            &&& b.len() == at + 1 + utf8(id).len() + 1
            &&& b.subrange(0, utf8(lead).len() as int) == utf8(lead)
            &&& b.subrange(utf8(lead).len() as int, (utf8(lead).len() + utf8(x).len()) as int) == utf8(x)
            &&& b.subrange(at + 1, at + 1 + utf8(id).len()) == utf8(id)
            &&& b[at - 1] == 0x20
            &&& find_first(b, utf8("["@)) == Some(at)
            &&& find_first(b, utf8("]"@)) == Some(at + 1 + utf8(id).len())
        }),
{
    reveal_strlit(" [");
    reveal_strlit(" ");
    reveal_strlit("[");
    let pre = lead + x + " "@;
    let line = lead + x + " ["@ + id + "]"@;
    assert(" ["@ =~= " "@ + "["@);
    assert(line =~= pre + "["@ + id + "]"@ + Seq::<char>::empty());
    lemma_bracketed_bytes(pre, id, Seq::<char>::empty());
    lemma_ascii_utf8(lead);
    lemma_ascii_utf8(" "@);
    lemma_utf8_concat(lead, x);
    lemma_utf8_concat(lead + x, " "@);
    assert(utf8(Seq::<char>::empty()) =~= Seq::<u8>::empty());
    assert(no_brackets(pre)) by {
        assert forall|k: int| 0 <= k < pre.len() implies pre[k] != '[' && pre[k] != ']' by {
            if k < lead.len() {
                assert(pre[k] == lead[k]);
                assert(!lead.contains('['));
                assert(!lead.contains(']'));
            } else if k < lead.len() + x.len() {
                assert(pre[k] == x[k - lead.len()]);
                assert(!x.contains('['));
                assert(!x.contains(']'));
            } else {
                assert(pre[k] == ' ');
            }
        }
    }
    lemma_utf8_lacks(pre, '[');
    lemma_utf8_lacks(pre, ']');
    lemma_utf8_lacks(id, ']');
    let (upre, uid) = (utf8(pre), utf8(id));
    let b = utf8(line);
    assert(b =~= upre + seq![0x5Bu8] + (uid + seq![0x5Du8]));
    lemma_first_byte(upre, 0x5B, uid + seq![0x5Du8]);
    let before = upre + seq![0x5Bu8] + uid;
    assert(lacks_byte(before, 0x5D)) by {
        assert forall|k: int| 0 <= k < before.len() implies before[k] != 0x5D by {
            if k < upre.len() {
                assert(before[k] == upre[k]);
            } else if k > upre.len() {
                assert(before[k] == uid[k - upre.len() - 1]);
            }
        }
    }
    assert(b =~= before + seq![0x5Du8] + Seq::<u8>::empty());
    lemma_first_byte(before, 0x5D, Seq::<u8>::empty());
    let at = (utf8(lead).len() + utf8(x).len() + 1) as int;
    assert(upre =~= utf8(lead) + utf8(x) + seq![0x20u8]);
    assert(b.subrange(0, utf8(lead).len() as int) =~= utf8(lead));
    assert(b.subrange(utf8(lead).len() as int, (utf8(lead).len() + utf8(x).len()) as int) =~= utf8(x));
    assert(b.subrange(at + 1, at + 1 + uid.len()) =~= uid);
    assert(b[at - 1] == upre[at - 1]);
}

/// The bytes of `lead + x + " [" + id + "]" + q`, with the place of each
/// bracket, for any `lead` and `x` without brackets and any `q`.
proof fn lemma_tagged_line_bytes(lead: Seq<char>, x: Seq<char>, id: Seq<char>, q: Seq<char>)
    requires
        no_brackets(lead),
        no_brackets(x),
        no_brackets(id),
    ensures
        ({
            let line = lead + x + " ["@ + id + "]"@ + q;
            let b = utf8(line);
            let at = (utf8(lead).len() + utf8(x).len() + 1) as int;
            &&& b == utf8(lead) + utf8(x) + seq![0x20u8, 0x5Bu8] + utf8(id) + seq![0x5Du8]
                + utf8(q)
            &&& find_first(b, utf8("["@)) == Some(at)
            &&& find_first(b, utf8("]"@)) == Some(at + 1 + utf8(id).len())
        }),
{
    reveal_strlit(" [");
    reveal_strlit(" ");
    reveal_strlit("[");
    let pre = lead + x + " "@;
    let line = lead + x + " ["@ + id + "]"@ + q;
    assert(" ["@ =~= " "@ + "["@);
    assert(line =~= pre + "["@ + id + "]"@ + q);
    lemma_bracketed_bytes(pre, id, q);
    lemma_ascii_utf8(" "@);
    lemma_utf8_concat(lead, x);
    lemma_utf8_concat(lead + x, " "@);
    assert(no_brackets(pre)) by {
        assert forall|k: int| 0 <= k < pre.len() implies pre[k] != '[' && pre[k] != ']' by {
            if k < lead.len() {
                assert(pre[k] == lead[k]);
                assert(!lead.contains('['));
                assert(!lead.contains(']'));
            } else if k < lead.len() + x.len() {
                assert(pre[k] == x[k - lead.len()]);
                assert(!x.contains('['));
                assert(!x.contains(']'));
            } else {
                assert(pre[k] == ' ');
            }
        }
    }
    lemma_utf8_lacks(pre, '[');
    lemma_utf8_lacks(pre, ']');
    lemma_utf8_lacks(id, ']');
    let (upre, uid, uq) = (utf8(pre), utf8(id), utf8(q));
    let b = utf8(line);
    assert(upre =~= utf8(lead) + utf8(x) + seq![0x20u8]);
    assert(b =~= upre + seq![0x5Bu8] + (uid + seq![0x5Du8] + uq));
    lemma_first_byte(upre, 0x5B, uid + seq![0x5Du8] + uq);
    let before = upre + seq![0x5Bu8] + uid;
    assert(lacks_byte(before, 0x5D)) by {
        assert forall|k: int| 0 <= k < before.len() implies before[k] != 0x5D by {
            if k < upre.len() {
                assert(before[k] == upre[k]);
            } else if k > upre.len() {
                assert(before[k] == uid[k - upre.len() - 1]);
            }
        }
    }
    assert(b =~= before + seq![0x5Du8] + uq);
    lemma_first_byte(before, 0x5D, uq);
    assert(b =~= utf8(lead) + utf8(x) + seq![0x20u8, 0x5Bu8] + uid + seq![0x5Du8] + uq);
}

/// The bytes of `p + kw + rest`, for a keyword `kw` of ASCII letters whose
/// first letter occurs nowhere else in it and a `p` that does not hold it:
/// the keyword is first found just after `p`.
proof fn lemma_keyword_after(p: Seq<char>, kw: Seq<char>, rest: Seq<char>)
    requires
        is_ascii_chars(kw),
        kw.len() > 0,
        forall|k: int| 1 <= k < kw.len() ==> #[trigger] kw[k] != kw[0],
        !contains_bytes(utf8(p), utf8(kw)),
    ensures
        utf8(p + kw + rest) == utf8(p) + utf8(kw) + utf8(rest),
        find_first(utf8(p + kw + rest), utf8(kw)) == Some(utf8(p).len() as int),
{
    lemma_utf8_concat(p, kw);
    lemma_utf8_concat(p + kw, rest);
    lemma_ascii_utf8(kw);
    let w = utf8(kw);
    assert forall|k: int| 1 <= k < w.len() implies #[trigger] w[k] != w[0] by {
        assert(kw[k] != kw[0]);
    }
    lemma_word_after(utf8(p), w, utf8(rest));
}

/// A sender line `p + "sender " + name + " [" + id + "]" + q`, where `p`
/// holds no bracket and not the word `sender` (a line of a frame starts with
/// a blank, for one), and neither the name nor the id holds a bracket, gives
/// back its id, and its name without ` (IRC)`: the name is read from just
/// after the word `sender` and its blank, wherever the word stands.
pub proof fn law_sender_line_after(p: Seq<char>, name: Seq<char>, id: Seq<char>, q: Seq<char>)
    requires
        no_brackets(p),
        no_brackets(name),
        no_brackets(id),
        !contains_bytes(utf8(p), utf8("sender"@)),
    ensures
        sender_id_spec(p + "sender "@ + name + " ["@ + id + "]"@ + q) == Ok::<_, Seq<char>>(
            utf8(id),
        ),
        sender_name_spec(p + "sender "@ + name + " ["@ + id + "]"@ + q) == Ok::<_, Seq<char>>(
            remove_matches(utf8(name), utf8(" (IRC)"@)),
        ),
        !sender_name_faults(p + "sender "@ + name + " ["@ + id + "]"@ + q),
{
    reveal(sender_id_spec);
    reveal(sender_name_spec);
    reveal(sender_name_faults);
    reveal_strlit("sender ");
    reveal_strlit("sender");
    reveal_strlit(" ");
    let lead = p + "sender "@;
    let line = lead + name + " ["@ + id + "]"@ + q;
    assert("sender "@ =~= "sender"@ + " "@);
    assert(no_brackets(lead)) by {
        assert forall|k: int| 0 <= k < lead.len() implies lead[k] != '[' && lead[k] != ']' by {
            if k < p.len() {
                assert(lead[k] == p[k]);
                assert(!p.contains('['));
                assert(!p.contains(']'));
            }
        }
    }
    lemma_tagged_line_bytes(lead, name, id, q);
    let rest = " "@ + name + " ["@ + id + "]"@ + q;
    assert(line =~= p + "sender"@ + rest);
    lemma_keyword_after(p, "sender"@, rest);
    lemma_ascii_utf8("sender "@);
    lemma_ascii_utf8(" "@);
    lemma_utf8_concat(p, "sender "@);
    let b = utf8(line);
    let up = utf8(p);
    let n = up.len() as int;
    let at = (utf8(lead).len() + utf8(name).len() + 1) as int;
    assert(utf8(lead).len() == n + 7);
    assert(b[n + 6] == 0x20) by {
        assert(b[n + 6] == utf8(lead)[n + 6]);
        assert(utf8(lead)[n + 6] == utf8("sender "@)[6]);
    }
    lemma_after_ascii_is_boundary(line, n + 6);
    assert(b[at - 1] == 0x20);
    lemma_ascii_is_boundary(line, at - 1);
    assert(b.subrange(n + 7, at - 1) =~= utf8(name));
    assert(b.subrange(at + 1, at + 1 + utf8(id).len()) =~= utf8(id));
}

/// A room line `p + "room " + name + " [" + id + "]" + q`, where `p` holds
/// no bracket and not the word `room` (as `Message received for `), and the
/// name and the id are not empty and hold no bracket, gives back its id and
/// its name: the name is read from just after the word `room` and its blank,
/// wherever the word stands.
pub proof fn law_room_line_after(p: Seq<char>, name: Seq<char>, id: Seq<char>, q: Seq<char>)
    requires
        no_brackets(p),
        no_brackets(name),
        no_brackets(id),
        name.len() > 0,
        id.len() > 0,
        !contains_bytes(utf8(p), utf8("room"@)),
    ensures
        room_id_spec(p + "room "@ + name + " ["@ + id + "]"@ + q) == Ok::<_, Seq<char>>(utf8(id)),
        room_origin_spec(p + "room "@ + name + " ["@ + id + "]"@ + q) == Ok::<_, Seq<char>>(
            utf8(name),
        ),
        !room_origin_faults(p + "room "@ + name + " ["@ + id + "]"@ + q),
{
    reveal(room_id_spec);
    reveal(room_origin_spec);
    reveal(room_origin_faults);
    reveal_strlit("room ");
    reveal_strlit("room");
    reveal_strlit(" ");
    let lead = p + "room "@;
    let line = lead + name + " ["@ + id + "]"@ + q;
    assert("room "@ =~= "room"@ + " "@);
    assert(no_brackets(lead)) by {
        assert forall|k: int| 0 <= k < lead.len() implies lead[k] != '[' && lead[k] != ']' by {
            if k < p.len() {
                assert(lead[k] == p[k]);
                assert(!p.contains('['));
                assert(!p.contains(']'));
            }
        }
    }
    lemma_tagged_line_bytes(lead, name, id, q);
    let rest = " "@ + name + " ["@ + id + "]"@ + q;
    assert(line =~= p + "room"@ + rest);
    lemma_keyword_after(p, "room"@, rest);
    lemma_ascii_utf8("room "@);
    lemma_utf8_concat(p, "room "@);
    lemma_utf8_nonempty(name);
    lemma_utf8_nonempty(id);
    let b = utf8(line);
    let n = utf8(p).len() as int;
    let at = (utf8(lead).len() + utf8(name).len() + 1) as int;
    assert(utf8(lead).len() == n + 5);
    assert(b[n + 4] == 0x20) by {
        assert(b[n + 4] == utf8(lead)[n + 4]);
        assert(utf8(lead)[n + 4] == utf8("room "@)[4]);
    }
    lemma_after_ascii_is_boundary(line, n + 4);
    assert(b[at - 1] == 0x20);
    lemma_ascii_is_boundary(line, at - 1);
    assert(b.subrange(n + 5, at - 1) =~= utf8(name));
    assert(b.subrange(at + 1, at + 1 + utf8(id).len()) =~= utf8(id));
}

/// A message line `p + "Received encrypted " + kind + ":" + q`, where
/// neither `p` nor the non-empty `kind` holds a `:` and `p` does not hold
/// `Received encrypted`, is of the media kind `kind`: the kind is read from
/// just after those words and their blank, wherever they stand.
pub proof fn law_media_kind_after(p: Seq<char>, kind: Seq<char>, q: Seq<char>)
    requires
        !p.contains(':'),
        !kind.contains(':'),
        kind.len() > 0,
        !contains_bytes(utf8(p), utf8("Received encrypted"@)),
    ensures
        media_spec(p + "Received encrypted "@ + kind + ":"@ + q) == utf8(kind),
        !media_faults(p + "Received encrypted "@ + kind + ":"@ + q),
{
    reveal(media_spec);
    reveal(media_faults);
    reveal_strlit("Received encrypted ");
    reveal_strlit("Received encrypted");
    reveal_strlit(" ");
    reveal_strlit(":");
    let kw = "Received encrypted "@;
    let line = p + kw + kind + ":"@ + q;
    assert(kw =~= "Received encrypted"@ + " "@);
    let rest = " "@ + kind + ":"@ + q;
    assert(line =~= p + "Received encrypted"@ + rest);
    lemma_keyword_after(p, "Received encrypted"@, rest);
    let pre = p + kw + kind;
    assert(!pre.contains(':')) by {
        assert forall|k: int| 0 <= k < pre.len() implies pre[k] != ':' by {
            if k < p.len() {
                assert(pre[k] == p[k]);
            } else if k >= p.len() + kw.len() {
                assert(pre[k] == kind[k - p.len() - kw.len()]);
            }
        }
    }
    lemma_utf8_lacks(pre, ':');
    assert(line =~= pre + ":"@ + q);
    lemma_utf8_concat(pre, ":"@);
    lemma_utf8_concat(pre + ":"@, q);
    lemma_ascii_utf8(":"@);
    assert(utf8(":"@) =~= seq![0x3Au8]);
    let b = utf8(line);
    assert(b =~= utf8(pre) + seq![0x3Au8] + utf8(q));
    lemma_first_byte(utf8(pre), 0x3A, utf8(q));
    lemma_utf8_concat(p, kw);
    lemma_utf8_concat(p + kw, kind);
    lemma_ascii_utf8(kw);
    lemma_utf8_nonempty(kind);
    let n = utf8(p).len() as int;
    let j = utf8(pre).len() as int;
    assert(utf8(pre) =~= utf8(p) + utf8(kw) + utf8(kind));
    assert(b[n + 18] == 0x20) by {
        assert(b[n + 18] == utf8(pre)[n + 18]);
        assert(utf8(pre)[n + 18] == utf8(kw)[18]);
    }
    lemma_after_ascii_is_boundary(line, n + 18);
    assert(b[j] == 0x3A);
    lemma_ascii_is_boundary(line, j);
    assert(b.subrange(n + 19, j) =~= utf8(kind));
}

/// The leading keyword of a line is found at its start.
proof fn lemma_keyword_first(b: Seq<u8>, word: Seq<u8>)
    requires
        word.len() <= b.len(),
        b.subrange(0, word.len() as int) == word,
    ensures
        find_first(b, word) == Some(0int),
{
    assert(is_first_occurrence(b, word, 0));
    lemma_first_unique(b, word, 0);
}

/// A room line `room <name> [<id>]`, with no bracket in the name or the id
/// and neither of them empty, gives back its name and its id.
pub proof fn law_room_line(name: Seq<char>, id: Seq<char>)
    requires
        no_brackets(name),
        no_brackets(id),
        name.len() > 0,
        id.len() > 0,
    ensures
        room_id_spec("room "@ + name + " ["@ + id + "]"@) == Ok::<_, Seq<char>>(utf8(id)),
        room_origin_spec("room "@ + name + " ["@ + id + "]"@) == Ok::<_, Seq<char>>(utf8(name)),
        !room_origin_faults("room "@ + name + " ["@ + id + "]"@),
{
    reveal(room_id_spec);
    reveal(room_origin_spec);
    reveal(room_origin_faults);
    reveal_strlit("room ");
    reveal_strlit("room");
    let lead = "room "@;
    let line = lead + name + " ["@ + id + "]"@;
    assert(is_ascii_chars(lead));
    assert(no_brackets(lead));
    lemma_line_bytes(lead, name, id);
    lemma_ascii_utf8(lead);
    lemma_ascii_utf8("room"@);
    let b = utf8(line);
    assert(b.subrange(0, 4) =~= utf8("room"@)) by {
        assert(b.subrange(0, 4) =~= b.subrange(0, 5).subrange(0, 4));
    }
    lemma_keyword_first(b, utf8("room"@));
    lemma_utf8_nonempty(name);
    lemma_utf8_nonempty(id);
    assert(b[4] == 0x20) by {
        assert(b.subrange(0, 5)[4] == b[4]);
    }
    lemma_after_ascii_is_boundary(line, 4);
    let at = (5 + utf8(name).len() + 1) as int;
    lemma_ascii_is_boundary(line, at - 1);
}

/// A sender line `sender <name> [<id>]`, with no bracket in the name or the
/// id, gives back its id, and its name without ` (IRC)`.
pub proof fn law_sender_line(name: Seq<char>, id: Seq<char>)
    requires
        no_brackets(name),
        no_brackets(id),
    ensures
        sender_id_spec("sender "@ + name + " ["@ + id + "]"@) == Ok::<_, Seq<char>>(utf8(id)),
        sender_name_spec("sender "@ + name + " ["@ + id + "]"@) == Ok::<_, Seq<char>>(
            remove_matches(utf8(name), utf8(" (IRC)"@)),
        ),
        !sender_name_faults("sender "@ + name + " ["@ + id + "]"@),
{
    reveal(sender_id_spec);
    reveal(sender_name_spec);
    reveal(sender_name_faults);
    reveal_strlit("sender ");
    reveal_strlit("sender");
    let lead = "sender "@;
    let line = lead + name + " ["@ + id + "]"@;
    assert(is_ascii_chars(lead));
    assert(no_brackets(lead));
    lemma_line_bytes(lead, name, id);
    lemma_ascii_utf8(lead);
    lemma_ascii_utf8("sender"@);
    let b = utf8(line);
    assert(b.subrange(0, 6) =~= utf8("sender"@)) by {
        assert(b.subrange(0, 6) =~= b.subrange(0, 7).subrange(0, 6));
    }
    lemma_keyword_first(b, utf8("sender"@));
    assert(b[6] == 0x20) by {
        assert(b.subrange(0, 7)[6] == b[6]);
    }
    lemma_after_ascii_is_boundary(line, 6);
    let at = (7 + utf8(name).len() + 1) as int;
    lemma_ascii_is_boundary(line, at - 1);
}


/// A text frame, whose lines are `room <room> [<room id>]`,
/// `sender <sender> [<sender id>]`, any third line, and ` <text>` ended by a
/// newline, with no bracket in the names and ids, non-empty room name and
/// room id, and a text that does not speak of `Received encrypted`, parses
/// into its parts: the room id, the room name, the sender id, the sender
/// name without ` (IRC)`, the text, and the media kind `text`.
pub proof fn law_text_frame(
    room: Seq<char>,
    room_id: Seq<char>,
    sender: Seq<char>,
    sender_id: Seq<char>,
    text: Seq<char>,
)
    requires
        no_brackets(room),
        no_brackets(room_id),
        no_brackets(sender),
        no_brackets(sender_id),
        room.len() > 0,
        room_id.len() > 0,
        find_first(utf8(" "@ + text + "\n"@), utf8("Received encrypted"@)) is None,
    ensures
        !trame_faults(
            "room "@ + room + " ["@ + room_id + "]"@,
            "sender "@ + sender + " ["@ + sender_id + "]"@,
            " "@ + text + "\n"@,
        ),
        trame_spec(
            "room "@ + room + " ["@ + room_id + "]"@,
            "sender "@ + sender + " ["@ + sender_id + "]"@,
            " "@ + text + "\n"@,
        ) == Ok::<FrameBytes, Seq<char>>(
            (
                utf8(room_id),
                utf8(room),
                utf8(sender_id),
                remove_matches(utf8(sender), utf8(" (IRC)"@)),
                utf8(text),
                utf8("text"@),
            ),
        ),
{
    law_room_line(room, room_id);
    law_sender_line(sender, sender_id);
    reveal(media_spec);
    reveal(media_faults);
    reveal(room_id_spec);
    reveal_strlit(" ");
    reveal_strlit("\n");
    let body = " "@ + text + "\n"@;
    lemma_ascii_utf8(" "@);
    lemma_ascii_utf8("\n"@);
    lemma_utf8_concat(" "@, text);
    lemma_utf8_concat(" "@ + text, "\n"@);
    let b = utf8(body);
    assert(b =~= seq![0x20u8] + utf8(text) + seq![0x0Au8]);
    lemma_after_ascii_is_boundary(body, 0);
    lemma_ascii_is_boundary(body, b.len() - 1);
    assert(b.subrange(1, b.len() - 1) =~= utf8(text));
}

/// A text frame as `matrix-commander` prints it, split at `|`: the room
/// line `pr + "room " + room + " [" + room_id + "]" + qr`, the sender line
/// `ps + "sender " + sender + " [" + sender_id + "]" + qs`, any third line,
/// and ` <text>` ended by a newline, where the texts before the words `room`
/// and `sender` hold neither those words nor brackets, the names and ids hold
/// no bracket, the room name and room id are not empty, and the text does
/// not speak of `Received encrypted`, parses into those ids and names (the
/// sender's without ` (IRC)`), the text, and the kind `text`.
pub proof fn law_text_frame_after(
    pr: Seq<char>,
    room: Seq<char>,
    room_id: Seq<char>,
    qr: Seq<char>,
    ps: Seq<char>,
    sender: Seq<char>,
    sender_id: Seq<char>,
    qs: Seq<char>,
    text: Seq<char>,
)
    requires
        no_brackets(pr),
        no_brackets(room),
        no_brackets(room_id),
        no_brackets(ps),
        no_brackets(sender),
        no_brackets(sender_id),
        room.len() > 0,
        room_id.len() > 0,
        !contains_bytes(utf8(pr), utf8("room"@)),
        !contains_bytes(utf8(ps), utf8("sender"@)),
        find_first(utf8(" "@ + text + "\n"@), utf8("Received encrypted"@)) is None,
    ensures
        !trame_faults(
            pr + "room "@ + room + " ["@ + room_id + "]"@ + qr,
            ps + "sender "@ + sender + " ["@ + sender_id + "]"@ + qs,
            " "@ + text + "\n"@,
        ),
        trame_spec(
            pr + "room "@ + room + " ["@ + room_id + "]"@ + qr,
            ps + "sender "@ + sender + " ["@ + sender_id + "]"@ + qs,
            " "@ + text + "\n"@,
        ) == Ok::<FrameBytes, Seq<char>>(
            (
                utf8(room_id),
                utf8(room),
                utf8(sender_id),
                remove_matches(utf8(sender), utf8(" (IRC)"@)),
                utf8(text),
                utf8("text"@),
            ),
        ),
{
    law_room_line_after(pr, room, room_id, qr);
    law_sender_line_after(ps, sender, sender_id, qs);
    reveal(media_spec);
    reveal(media_faults);
    reveal(room_id_spec);
    reveal_strlit(" ");
    reveal_strlit("\n");
    let body = " "@ + text + "\n"@;
    lemma_ascii_utf8(" "@);
    lemma_ascii_utf8("\n"@);
    lemma_utf8_concat(" "@, text);
    lemma_utf8_concat(" "@ + text, "\n"@);
    let b = utf8(body);
    assert(b =~= seq![0x20u8] + utf8(text) + seq![0x0Au8]);
    lemma_after_ascii_is_boundary(body, 0);
    lemma_ascii_is_boundary(body, b.len() - 1);
    assert(b.subrange(1, b.len() - 1) =~= utf8(text));
}

/// A message line `p + "Voice message_" + f + "ogg]" + q`, where `p` does
/// not hold `Voice message_` and neither `p` nor `f` holds a `]`, names the
/// voice file `Voice message_` + `f` + `ogg`, wherever the words stand.
pub proof fn law_voice_file_after(p: Seq<char>, f: Seq<char>, q: Seq<char>)
    requires
        !p.contains(']'),
        !f.contains(']'),
        !contains_bytes(utf8(p), utf8("Voice message_"@)),
    ensures
        audio_spec(p + "Voice message_"@ + f + "ogg]"@ + q) == Ok::<Seq<u8>, Seq<char>>(
            utf8("Voice message_"@ + f + "ogg"@),
        ),
{
    reveal(audio_spec);
    reveal_strlit("Voice message_");
    reveal_strlit("ogg]");
    reveal_strlit("ogg");
    let kw = "Voice message_"@;
    let line = p + kw + f + "ogg]"@ + q;
    let rest = f + "ogg]"@ + q;
    assert(line =~= p + kw + rest);
    lemma_keyword_after(p, kw, rest);
    let pre = p + kw + f;
    assert(!pre.contains(']')) by {
        assert forall|k: int| 0 <= k < pre.len() implies pre[k] != ']' by {
            if k < p.len() {
                assert(pre[k] == p[k]);
            } else if k >= p.len() + kw.len() {
                assert(pre[k] == f[k - p.len() - kw.len()]);
            }
        }
    }
    lemma_utf8_lacks(pre, ']');
    let up = utf8(pre);
    let tail = "ogg]"@;
    lemma_ascii_utf8(tail);
    let w = utf8(tail);
    assert(!contains_bytes(up, w)) by {
        if contains_bytes(up, w) {
            let j = choose|j: int| occurs_at(up, w, j);
            assert(up.subrange(j, j + 4)[3] == up[j + 3]);
            assert(w[3] == 0x5D);
        }
    }
    assert forall|k: int| 1 <= k < w.len() implies #[trigger] w[k] != w[0] by {}
    assert(line =~= pre + tail + q);
    lemma_utf8_concat(pre, tail);
    lemma_utf8_concat(pre + tail, q);
    lemma_word_after(up, w, utf8(q));
    lemma_utf8_concat(p, kw);
    lemma_utf8_concat(p + kw, f);
    lemma_ascii_utf8(kw);
    let b = utf8(line);
    let n = utf8(p).len() as int;
    let j = up.len() as int;
    assert(b =~= up + w + utf8(q));
    assert(up =~= utf8(p) + utf8(kw) + utf8(f));
    lemma_utf8_concat(kw, f);
    lemma_utf8_concat(kw + f, "ogg"@);
    lemma_ascii_utf8("ogg"@);
    assert(b.subrange(n, j + 3) =~= utf8(kw) + utf8(f) + utf8("ogg"@));
}

/// The sender line of a user bridged from IRC, `p + "sender " + name +
/// " (IRC) [" + id + "]" + q`, with `p` as in `law_sender_line_after` and a
/// name that holds no bracket and not ` (IRC)`, gives back exactly the name.
pub proof fn law_bridged_sender_name(p: Seq<char>, name: Seq<char>, id: Seq<char>, q: Seq<char>)
    requires
        no_brackets(p),
        no_brackets(name),
        no_brackets(id),
        !contains_bytes(utf8(p), utf8("sender"@)),
        !contains_bytes(utf8(name), utf8(" (IRC)"@)),
    ensures
        sender_name_spec(p + "sender "@ + name + " (IRC) ["@ + id + "]"@ + q) == Ok::<
            _,
            Seq<char>,
        >(utf8(name)),
        sender_id_spec(p + "sender "@ + name + " (IRC) ["@ + id + "]"@ + q) == Ok::<_, Seq<char>>(
            utf8(id),
        ),
        !sender_name_faults(p + "sender "@ + name + " (IRC) ["@ + id + "]"@ + q),
{
    reveal_strlit(" (IRC)");
    reveal_strlit(" (IRC) [");
    reveal_strlit(" [");
    let mark = " (IRC)"@;
    let full = name + mark;
    assert(no_brackets(mark));
    assert(no_brackets(full)) by {
        assert forall|k: int| 0 <= k < full.len() implies full[k] != '[' && full[k] != ']' by {
            if k < name.len() {
                assert(full[k] == name[k]);
                assert(!name.contains('['));
                assert(!name.contains(']'));
            } else {
                assert(full[k] == mark[k - name.len()]);
            }
        }
    }
    assert(p + "sender "@ + name + " (IRC) ["@ + id + "]"@ + q =~= p + "sender "@ + full + " ["@
        + id + "]"@ + q);
    law_sender_line_after(p, full, id, q);
    lemma_utf8_concat(name, mark);
    lemma_ascii_utf8(mark);
    let w = utf8(mark);
    assert forall|k: int| 1 <= k < w.len() implies #[trigger] w[k] != w[0] by {}
    law_remove_pattern(utf8(name), w);
}

} // verus!
