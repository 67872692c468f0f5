//! A received message, and what the bot decides to do with it.
use vstd::prelude::*;
use vstd::utf8::{encode_utf8_valid_utf8, is_ascii_chars, is_char_boundary_start_end_of_seq};
use crate::database::{
    admin_in, brain_model, get_model, is_admin, is_sadmin, super_admin_in, BrainRow, UserRow,
};
use crate::text::{
    can_cut, cut_exec, find_ascii, find_first, lemma_after_ascii_is_boundary, lemma_ascii_utf8,
    lemma_utf8_concat, outcome, prefixed, utf8,
};

verus! {

/// A message received in a room.
pub struct Message {
    pub room_origin: String,
    pub room_id: String,
    pub sender_id: String,
    pub sender_name: String,
    pub m_message: String,
}

/// What `unidecode::unidecode` makes of a text: its ASCII transliteration.
pub uninterp spec fn unidecoded(s: Seq<char>) -> Seq<char>;

/// Calls `unidecode::unidecode`. Claimed, as the crate documents: the
/// result is ASCII, and an ASCII text is returned unchanged. The
/// transliteration table itself is only named.
#[verifier::external_body]
fn transliterate(s: &str) -> (r: String)
    ensures
        r@ == unidecoded(s@),
        is_ascii_chars(r@),
        is_ascii_chars(s@) ==> r@ == s@,
{
    unidecode::unidecode(s)
}

/// How the bot answers.
pub enum Reply {
    /// With this text.
    Text(String),
    /// With what the model `model` answers, for the user `name`.
    Ask { name: String, model: String },
}

/// What the bot makes of a message: the ASCII phrase it reads, and how it
/// answers it.
pub struct Thought {
    pub phrase: String,
    pub reply: Reply,
}

/// The phrase contains the ASCII text `pat`.
pub open spec fn mentions(phrase: Seq<char>, pat: Seq<char>) -> bool {
    find_first(utf8(phrase), utf8(pat)) is Some
}

/// The ticket page of a ticket number written `#NNNN`: the number without
/// its first character, after the address of the ticket tracker.
pub open spec fn ticket_text(ticket_number: Seq<char>) -> Seq<u8> {
    let b = utf8(ticket_number);
    utf8("Ticket: https://tickets.fdn.fr/rt/Ticket/Display.html?id="@) + b.subrange(1, b.len() as int)
}

/// The phrase holds `!sadmin` and the sender is a super-administrator.
pub open spec fn super_admin_command(phrase: Seq<char>, users: Seq<UserRow>, name: Seq<char>) -> bool {
    mentions(phrase, "!sadmin"@) && super_admin_in(users, name)
}

/// The phrase holds `!admin` and the sender is an administrator.
pub open spec fn admin_command(phrase: Seq<char>, users: Seq<UserRow>, name: Seq<char>) -> bool {
    mentions(phrase, "!admin"@) && admin_in(users, name)
}

/// The link of a ticket written `#` followed by any text `number` (digits,
/// as the bot finds them, of any length) is the tracker's address followed
/// by exactly that text, and the number can be cut after its `#`.
pub proof fn law_ticket_link(number: Seq<char>)
    ensures
        can_cut("#"@ + number, 1, utf8("#"@ + number).len() as int),
        ticket_text("#"@ + number) == utf8(
            "Ticket: https://tickets.fdn.fr/rt/Ticket/Display.html?id="@,
        ) + utf8(number),
{
    reveal_strlit("#");
    lemma_utf8_concat("#"@, number);
    lemma_ascii_utf8("#"@);
    let b = utf8("#"@ + number);
    assert(b[0] == 0x23);
    lemma_after_ascii_is_boundary("#"@ + number, 0);
    encode_utf8_valid_utf8("#"@ + number);
    is_char_boundary_start_end_of_seq(b);
    assert(b.subrange(1, b.len() as int) =~= utf8(number));
}

impl Message {
    /// Decides the answer to the message: a super-administrator command
    /// (`!sadmin`) from a super-administrator, or an administrator command
    /// (`!admin`) from an administrator, is acknowledged; anything else is
    /// handed to the answer model that the brain table gives the sender in
    /// the message's room. The sender name decides the rights and is given to
    /// the model; the sender id and the room choose the model.
    pub fn thinking(&mut self, users: &Vec<UserRow>, brain: &Vec<BrainRow>) -> (r: Thought)
        ensures
            *final(self) == *old(self),
            r.phrase@ == unidecoded(old(self).m_message@),
            is_ascii_chars(r.phrase@),
            is_ascii_chars(old(self).m_message@) ==> r.phrase@ == old(self).m_message@,
            super_admin_command(r.phrase@, users@, old(self).sender_name@) ==> (r.reply matches Reply::Text(t)
                && t@ == "Admin Super bitch !!!"@),
            !super_admin_command(r.phrase@, users@, old(self).sender_name@) && admin_command(
                r.phrase@,
                users@,
                old(self).sender_name@,
            ) ==> (r.reply matches Reply::Text(t) && t@ == "Admin bitch !!!"@),
            !super_admin_command(r.phrase@, users@, old(self).sender_name@) && !admin_command(
                r.phrase@,
                users@,
                old(self).sender_name@,
            ) ==> (r.reply matches Reply::Ask { name, model } && name@ == old(self).sender_name@
                && model@ == brain_model(brain@, old(self).sender_id@, old(self).room_origin@)),
    {
        let botbot_phrase = transliterate(self.m_message.as_str());
        proof {
            reveal_strlit("!sadmin");
            reveal_strlit("!admin");
        }
        let b = botbot_phrase.as_str().as_bytes();
        let reply = if find_ascii(b, "!sadmin").is_some() && is_sadmin(
            users,
            &self.sender_name,
        ).unwrap() {
            Reply::Text("Admin Super bitch !!!".to_owned())
        } else if find_ascii(b, "!admin").is_some() && is_admin(users, &self.sender_name).unwrap() {
            Reply::Text("Admin bitch !!!".to_owned())
        } else {
            let model = get_model(brain, &self.sender_id, &self.room_origin).unwrap();
            Reply::Ask { name: self.sender_name.clone(), model }
        };
        Thought { phrase: botbot_phrase, reply }
    }

    /// The link to the ticket numbered in `ticket_number` (`#` and digits).
    pub fn ticket(&self, ticket_number: String) -> (r: Result<String, String>)
        requires
            can_cut(ticket_number@, 1, utf8(ticket_number@).len() as int),
        ensures
            outcome(r) == Ok::<Seq<u8>, Seq<char>>(ticket_text(ticket_number@)),
    {
        let s = ticket_number.as_str();
        let n = s.as_bytes().len();
        let number = cut_exec(s, 1, n);
        let url = prefixed(
            "Ticket: https://tickets.fdn.fr/rt/Ticket/Display.html?id=",
            number.as_str(),
        );
        proof {
            lemma_utf8_concat("Ticket: https://tickets.fdn.fr/rt/Ticket/Display.html?id="@, number@);
        }
        Ok(url)
    }

    /// The two arguments that make `matrix-commander` say `phrase_to_say` in
    /// the message's room: `-r` with the room id, `-m` with the text.
    pub fn talking(&self, phrase_to_say: String) -> (r: (String, String))
        ensures
            r.0@ == "-r"@ + self.room_id@,
            r.1@ == "-m"@ + phrase_to_say@,
    {
        let blabla = prefixed("-m", phrase_to_say.as_str());
        let room = prefixed("-r", self.room_id.as_str());
        (room, blabla)
    }

    /// Moves the answer to another room.
    pub fn _change_room(&mut self, new_room_id: String, new_room_origin: String)
        ensures
            final(self).room_id == new_room_id,
            final(self).room_origin == new_room_origin,
            final(self).sender_id == old(self).sender_id,
            final(self).sender_name == old(self).sender_name,
            final(self).m_message == old(self).m_message,
    {
        self.room_id = new_room_id;
        self.room_origin = new_room_origin;
    }
}

} // verus!
