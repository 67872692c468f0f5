//! The bot's memory: the arguments of administrator commands, the list of
//! trigger words, the answer model of a user, and the decisions around
//! adding, deleting and answering triggers.
//!
//! Reading and writing the sqlite database stays with the program; what is
//! decided from what the database holds is here.
use vstd::prelude::*;
use crate::pattern::{regex_compile_error, regex_finds, Pattern};
use crate::random::{gen_index, thread_rng};
use crate::text::{
    prefixed,
    cut_exec, find_ascii, find_first, find_last, lemma_after_ascii_is_boundary,
    lemma_ascii_is_boundary, lemma_first_byte, lemma_last_byte,
    lemma_bracketed_bytes, lemma_utf8_lacks, lemma_utf8_nonempty, lacks_byte, no_brackets,
    outcome, rfind_ascii, utf8,
};

verus! {

/// Left argument of a command: the text between the first `[` and the
/// first `]`; an empty argument is an error.
#[verifier::opaque]
pub open spec fn left_arg_spec(msg: Seq<char>) -> Result<Seq<u8>, Seq<char>> {
    let b = utf8(msg);
    match find_first(b, utf8("["@)) {
        None => Err("ERROR: unable to find left arg start"@),
        Some(i) => match find_first(b, utf8("]"@)) {
            None => Err("ERROR: unable to find left arg end"@),
            Some(j) => if i + 1 == j {
                Err("ERROR: no value in left arg"@)
            } else {
                Ok(b.subrange(i + 1, j))
            },
        },
    }
}

/// The messages on which taking the left argument panics: the first `]`
/// comes before the first `[`.
#[verifier::opaque]
pub open spec fn left_arg_faults(msg: Seq<char>) -> bool {
    let b = utf8(msg);
    match (find_first(b, utf8("["@)), find_first(b, utf8("]"@))) {
        (Some(i), Some(j)) => i + 1 > j,
        _ => false,
    }
}

/// Takes the left argument, between square brackets, of an administrator
/// command.
pub fn _get_left_arg(admin_msg: &String) -> (r: Result<String, String>)
    requires
        !left_arg_faults(admin_msg@),
    ensures
        outcome(r) == left_arg_spec(admin_msg@),
{
    reveal(left_arg_spec);
    reveal(left_arg_faults);
    let s = admin_msg.as_str();
    let b = s.as_bytes();
    proof {
        reveal_strlit("[");
        reveal_strlit("]");
    }
    let debut = match find_ascii(b, "[") {
        Some(i) => i + 1,
        None => return Err("ERROR: unable to find left arg start".to_owned()),
    };
    let fin = match find_ascii(b, "]") {
        Some(j) => j,
        None => return Err("ERROR: unable to find left arg end".to_owned()),
    };
    if debut == fin {
        Err("ERROR: no value in left arg".to_owned())
    } else {
        proof {
            assert(b@[(debut - 1) + 0] == '[' as u8);
            lemma_after_ascii_is_boundary(s@, debut - 1);
            assert(b@[fin + 0] == ']' as u8);
            lemma_ascii_is_boundary(s@, fin as int);
        }
        Ok(cut_exec(s, debut, fin))
    }
}

/// Right argument of a command: the text between the last `[` and the last
/// `]`; an empty argument is an error.
#[verifier::opaque]
pub open spec fn right_arg_spec(msg: Seq<char>) -> Result<Seq<u8>, Seq<char>> {
    let b = utf8(msg);
    match find_last(b, utf8("["@)) {
        None => Err("ERROR: unable to find right arg start"@),
        Some(i) => match find_last(b, utf8("]"@)) {
            None => Err("ERROR: unable to find right arg end"@),
            Some(j) => if i + 1 == j {
                Err("ERROR: no value in right arg"@)
            } else {
                Ok(b.subrange(i + 1, j))
            },
        },
    }
}

/// The messages on which taking the right argument panics: the last `]`
/// comes before the last `[`.
#[verifier::opaque]
pub open spec fn right_arg_faults(msg: Seq<char>) -> bool {
    let b = utf8(msg);
    match (find_last(b, utf8("["@)), find_last(b, utf8("]"@))) {
        (Some(i), Some(j)) => i + 1 > j,
        _ => false,
    }
}

/// Takes the right argument, between square brackets, of an administrator
/// command.
pub fn _get_right_arg(admin_msg: &String) -> (r: Result<String, String>)
    requires
        !right_arg_faults(admin_msg@),
    ensures
        outcome(r) == right_arg_spec(admin_msg@),
{
    reveal(right_arg_spec);
    reveal(right_arg_faults);
    let s = admin_msg.as_str();
    let b = s.as_bytes();
    proof {
        reveal_strlit("[");
        reveal_strlit("]");
    }
    let debut = match rfind_ascii(b, "[") {
        Some(i) => i + 1,
        None => return Err("ERROR: unable to find right arg start".to_owned()),
    };
    let fin = match rfind_ascii(b, "]") {
        Some(j) => j,
        None => return Err("ERROR: unable to find right arg end".to_owned()),
    };
    if debut == fin {
        Err("ERROR: no value in right arg".to_owned())
    } else {
        proof {
            assert(b@[(debut - 1) + 0] == '[' as u8);
            lemma_after_ascii_is_boundary(s@, debut - 1);
            assert(b@[fin + 0] == ']' as u8);
            lemma_ascii_is_boundary(s@, fin as int);
        }
        Ok(cut_exec(s, debut, fin))
    }
}


/// The texts of a list of strings.
pub open spec fn words(list: Seq<String>) -> Seq<Seq<char>> {
    list.map_values(|w: String| w@)
}

/// The UTF-8 bytes of each string of a list.
pub open spec fn word_bytes(list: Seq<String>) -> Seq<Seq<u8>> {
    list.map_values(|w: String| utf8(w@))
}

/// `word` is one of the strings of `list`.
pub open spec fn has_word(list: Seq<String>, word: Seq<char>) -> bool {
    exists|k: int| 0 <= k < list.len() && (#[trigger] list[k])@ == word
}

/// Whether `word` is in `list`.
pub fn contains_word(list: &Vec<String>, word: &String) -> (r: bool)
    ensures
        r == has_word(list@, word@),
{
    let mut i: usize = 0;
    while i < list.len()
        invariant
            i <= list@.len(),
            forall|k: int| 0 <= k < i ==> (#[trigger] list@[k])@ != word@,
        decreases list@.len() - i,
    {
        if list[i] == *word {
            return true;
        }
        i = i + 1;
    }
    false
}

/// A row of the users table: a user and its power (user 1, administrator 2,
/// super-administrator 3).
pub struct UserRow {
    pub user: String,
    pub power: i64,
}

/// A row of the brain table: the model `ai` that answers `user` in `room`.
pub struct BrainRow {
    pub user: String,
    pub room: String,
    pub ai: String,
}

/// Some row of the users table gives `name` a power of at least 2.
pub open spec fn admin_in(users: Seq<UserRow>, name: Seq<char>) -> bool {
    exists|k: int| 0 <= k < users.len() && (#[trigger] users[k]).user@ == name && users[k].power >= 2
}

/// Some row of the users table gives `name` the power 3.
pub open spec fn super_admin_in(users: Seq<UserRow>, name: Seq<char>) -> bool {
    exists|k: int| 0 <= k < users.len() && (#[trigger] users[k]).user@ == name && users[k].power == 3
}

/// Whether the users table makes the sender an administrator.
pub fn is_admin(users: &Vec<UserRow>, sender_name: &String) -> (r: Result<bool, bool>)
    ensures
        r == Ok::<bool, bool>(admin_in(users@, sender_name@)),
{
    let mut i: usize = 0;
    while i < users.len()
        invariant
            i <= users@.len(),
            forall|k: int|
                0 <= k < i ==> !((#[trigger] users@[k]).user@ == sender_name@ && users@[k].power
                    >= 2),
        decreases users@.len() - i,
    {
        if users[i].user == *sender_name && users[i].power >= 2 {
            return Ok(true);
        }
        i = i + 1;
    }
    Ok(false)
}

/// Whether the users table makes the sender a super-administrator.
pub fn is_sadmin(users: &Vec<UserRow>, sender_name: &String) -> (r: Result<bool, bool>)
    ensures
        r == Ok::<bool, bool>(super_admin_in(users@, sender_name@)),
{
    let mut i: usize = 0;
    while i < users.len()
        invariant
            i <= users@.len(),
            forall|k: int|
                0 <= k < i ==> !((#[trigger] users@[k]).user@ == sender_name@ && users@[k].power
                    == 3),
        decreases users@.len() - i,
    {
        if users[i].user == *sender_name && users[i].power == 3 {
            return Ok(true);
        }
        i = i + 1;
    }
    Ok(false)
}

/// With the documented power levels (user 1, administrator 2,
/// super-administrator 3), a sender is an administrator exactly when some
/// row names it with the level 2 or 3, and a super-administrator exactly
/// when some row names it with the level 3; a sender named only as a user
/// has neither right.
pub proof fn law_power_levels(users: Seq<UserRow>, name: Seq<char>)
    requires
        forall|k: int| 0 <= k < users.len() ==> 1 <= #[trigger] users[k].power <= 3,
    ensures
        admin_in(users, name) <==> exists|k: int|
            0 <= k < users.len() && (#[trigger] users[k]).user@ == name && (users[k].power == 2
                || users[k].power == 3),
        super_admin_in(users, name) <==> exists|k: int|
            0 <= k < users.len() && (#[trigger] users[k]).user@ == name && users[k].power == 3,
        (forall|k: int| 0 <= k < users.len() && (#[trigger] users[k]).user@ == name ==> users[k].power
            == 1) ==> !admin_in(users, name) && !super_admin_in(users, name),
{
}

/// A super-administrator (power 3) has the rights of an administrator.
pub proof fn law_super_admin_is_admin(users: Seq<UserRow>, name: Seq<char>)
    requires
        super_admin_in(users, name),
    ensures
        admin_in(users, name),
{
    let k = choose|k: int|
        0 <= k < users.len() && (#[trigger] users[k]).user@ == name && users[k].power == 3;
    assert(users[k].power >= 2);
}

/// The answer model of `user` in `room`: the `ai` of the first row of the
/// brain table for that user and that room, `sql` when there is none.
pub open spec fn brain_model(brain: Seq<BrainRow>, user: Seq<char>, room: Seq<char>) -> Seq<char>
    decreases brain.len(),
{
    if brain.len() == 0 {
        "sql"@
    } else if brain[0].user@ == user && brain[0].room@ == room {
        brain[0].ai@
    } else {
        brain_model(brain.drop_first(), user, room)
    }
}

/// The brain table has a row for `user` in `room`.
pub open spec fn has_brain_row(brain: Seq<BrainRow>, user: Seq<char>, room: Seq<char>) -> bool {
    exists|k: int|
        0 <= k < brain.len() && (#[trigger] brain[k]).user@ == user && brain[k].room@ == room
}

/// A user without a row in the brain table for a room is answered by `sql`
/// there; a user with one is answered by the model of such a row.
pub proof fn law_model_per_user_and_room(brain: Seq<BrainRow>, user: Seq<char>, room: Seq<char>)
    ensures
        !has_brain_row(brain, user, room) ==> brain_model(brain, user, room) == "sql"@,
        has_brain_row(brain, user, room) ==> exists|k: int|
            0 <= k < brain.len() && (#[trigger] brain[k]).user@ == user && brain[k].room@ == room
                && brain[k].ai@ == brain_model(brain, user, room),
    decreases brain.len(),
{
    if brain.len() > 0 {
        let rest = brain.drop_first();
        law_model_per_user_and_room(rest, user, room);
        if !(brain[0].user@ == user && brain[0].room@ == room) {
            if has_brain_row(brain, user, room) {
                let k = choose|k: int|
                    0 <= k < brain.len() && (#[trigger] brain[k]).user@ == user && brain[k].room@
                        == room;
                assert(rest[k - 1] == brain[k]);
            }
            if has_brain_row(rest, user, room) {
                let k = choose|k: int|
                    0 <= k < rest.len() && (#[trigger] rest[k]).user@ == user && rest[k].room@
                        == room;
                assert(brain[k + 1] == rest[k]);
            }
        }
    }
}

/// Chooses the answer model of a user in a room; never fails.
pub fn get_model(brain: &Vec<BrainRow>, sender_name: &String, room_name: &String) -> (r: Result<
    String,
    String,
>)
    ensures
        match r {
            Ok(m) => m@ == brain_model(brain@, sender_name@, room_name@),
            Err(_) => false,
        },
{
    let mut i: usize = 0;
    assert(brain@.skip(0) =~= brain@);
    while i < brain.len()
        invariant
            i <= brain@.len(),
            brain_model(brain@, sender_name@, room_name@) == brain_model(
                brain@.skip(i as int),
                sender_name@,
                room_name@,
            ),
        decreases brain@.len() - i,
    {
        proof {
            assert(brain@.skip(i as int)[0] == brain@[i as int]);
            assert(brain@.skip(i as int).drop_first() =~= brain@.skip(i + 1));
        }
        if brain[i].user == *sender_name && brain[i].room == *room_name {
            return Ok(brain[i].ai.clone());
        }
        i = i + 1;
    }
    Ok("sql".to_owned())
}

/// The list with `word` appended, unless it already holds that text.
pub open spec fn with_word(list: Seq<String>, word: String) -> Seq<String> {
    if has_word(list, word@) {
        list
    } else {
        list.push(word)
    }
}

/// The list without any string whose text is `word`, the others kept in
/// order.
pub open spec fn without_word(list: Seq<String>, word: Seq<char>) -> Seq<String> {
    list.filter(differs_from(word))
}

/// Holds of the strings whose text is not `word`.
pub open spec fn differs_from(word: Seq<char>) -> spec_fn(String) -> bool {
    |w: String| w@ != word
}

/// Whatever a filter keeps comes from the filtered sequence.
proof fn lemma_filter_from(list: Seq<String>, pred: spec_fn(String) -> bool, k: int)
    requires
        0 <= k < list.filter(pred).len(),
    ensures
        exists|j: int| 0 <= j < list.len() && list[j] == list.filter(pred)[k],
    decreases list.len(),
{
    reveal_with_fuel(Seq::filter, 1);
    let init = list.drop_last();
    let sub = init.filter(pred);
    if k < sub.len() {
        lemma_filter_from(init, pred, k);
        let j = choose|j: int| 0 <= j < init.len() && init[j] == sub[k];
        assert(list[j] == init[j]);
        assert(list.filter(pred)[k] == sub[k]);
    } else {
        assert(list[list.len() - 1] == list.filter(pred)[k]);
    }
}

/// Adds a trigger word to the list unless it is already there.
pub fn add_trigger_word(trigger_word_list: &mut Vec<String>, word: String)
    ensures
        final(trigger_word_list)@ == with_word(old(trigger_word_list)@, word),
{
    if !contains_word(trigger_word_list, &word) {
        trigger_word_list.push(word);
    }
}

/// The list that adding each row in turn builds from an empty list: the rows
/// without repeats, in the order of their first appearance.
pub open spec fn distinct_words(rows: Seq<Seq<char>>) -> Seq<Seq<char>>
    decreases rows.len(),
{
    if rows.len() == 0 {
        seq![]
    } else {
        let d = distinct_words(rows.drop_last());
        if d.contains(rows.last()) {
            d
        } else {
            d.push(rows.last())
        }
    }
}

/// Builds the trigger word list from the trigger column of the answers
/// table.
pub fn trigger_list_from(rows: Vec<String>) -> (r: Vec<String>)
    ensures
        words(r@) == distinct_words(words(rows@)),
{
    let mut list: Vec<String> = Vec::new();
    let mut i: usize = 0;
    while i < rows.len()
        invariant
            i <= rows@.len(),
            words(list@) == distinct_words(words(rows@).take(i as int)),
        decreases rows@.len() - i,
    {
        let ghost before = list@;
        let w = rows[i].clone();
        proof {
            assert(words(rows@).take(i + 1).drop_last() =~= words(rows@).take(i as int));
            assert(words(rows@).take(i + 1).last() == w@);
            if has_word(before, w@) {
                let k = choose|k: int| 0 <= k < before.len() && (#[trigger] before[k])@ == w@;
                assert(words(before)[k] == w@);
            } else {
                assert forall|k: int| 0 <= k < words(before).len() implies words(before)[k] != w@ by {
                    assert(words(before)[k] == before[k]@);
                }
            }
        }
        add_trigger_word(&mut list, w);
        proof {
            if !has_word(before, w@) {
                assert(words(list@) =~= words(before).push(w@));
            }
        }
        i = i + 1;
    }
    assert(words(rows@).take(rows@.len() as int) =~= words(rows@));
    list
}

/// Removes every copy of a trigger word from the list, keeping the others in
/// order.
pub fn remove_trigger_word(trigger_word_list: &mut Vec<String>, word: &String)
    ensures
        final(trigger_word_list)@ == without_word(old(trigger_word_list)@, word@),
{
    let ghost pred = differs_from(word@);
    let mut kept: Vec<String> = Vec::new();
    let mut i: usize = 0;
    while i < trigger_word_list.len()
        invariant
            i <= trigger_word_list@.len(),
            pred == differs_from(word@),
            kept@ == trigger_word_list@.take(i as int).filter(pred),
        decreases trigger_word_list@.len() - i,
    {
        reveal_with_fuel(Seq::filter, 1);
        let w = trigger_word_list[i].clone();
        assert(trigger_word_list@.take(i + 1).drop_last() =~= trigger_word_list@.take(i as int));
        if w != *word {
            kept.push(w);
        }
        i = i + 1;
    }
    assert(trigger_word_list@.take(trigger_word_list@.len() as int) =~= trigger_word_list@);
    *trigger_word_list = kept;
}


/// Trigger and answer of an `add` command: its left and its right argument.
pub open spec fn add_chat_spec(phrase: Seq<char>) -> Result<(Seq<u8>, Seq<u8>), Seq<char>> {
    match left_arg_spec(phrase) {
        Err(e) => Err("ERROR: chat_to_add match trigger "@ + e),
        Ok(trigger) => match right_arg_spec(phrase) {
            Err(e) => Err("ERROR: chat_to_add match answer "@ + e),
            Ok(answer) => Ok((trigger, answer)),
        },
    }
}

/// The commands on which reading an `add` command panics.
pub open spec fn add_chat_faults(phrase: Seq<char>) -> bool {
    left_arg_faults(phrase) || (left_arg_spec(phrase) is Ok && right_arg_faults(phrase))
}

/// Reads the trigger and the answer that an `add` command asks to store.
pub fn add_chat_request(botbot_phrase: &String) -> (r: Result<(String, String), String>)
    requires
        !add_chat_faults(botbot_phrase@),
    ensures
        match r {
            Ok((t, a)) => add_chat_spec(botbot_phrase@) == Ok::<_, Seq<char>>(
                (utf8(t@), utf8(a@)),
            ),
            Err(e) => add_chat_spec(botbot_phrase@) == Err::<(Seq<u8>, Seq<u8>), _>(e@),
        },
{
    let trigger = match _get_left_arg(botbot_phrase) {
        Ok(t) => t,
        Err(e) => return Err(prefixed("ERROR: chat_to_add match trigger ", e.as_str())),
    };
    let answer = match _get_right_arg(botbot_phrase) {
        Ok(a) => a,
        Err(e) => return Err(prefixed("ERROR: chat_to_add match answer ", e.as_str())),
    };
    Ok((trigger, answer))
}

/// What a `del` command asks for.
pub enum ChatDeletion {
    /// Delete this trigger and its answers.
    Delete(String),
    /// Delete nothing, and reply with this text.
    Keep(String),
}

/// A `del` command names the trigger twice, as its left and its right
/// argument; the trigger must be known. `Some(trigger)` asks to delete it,
/// `None` to keep everything.
pub open spec fn del_chat_spec(phrase: Seq<char>, list: Seq<String>) -> Result<
    Option<Seq<u8>>,
    Seq<char>,
> {
    match left_arg_spec(phrase) {
        Err(e) => Err("ERROR: chat_to_del match trigger "@ + e),
        Ok(trigger) => if !word_bytes(list).contains(trigger) {
            Err("ERROR: trigger not in db"@)
        } else {
            match right_arg_spec(phrase) {
                Err(e) => Err("ERROR: chat_to_add match answer "@ + e),
                Ok(answer) => if trigger == answer {
                    Ok(Some(trigger))
                } else {
                    Ok(None)
                },
            }
        },
    }
}

/// The commands on which reading a `del` command panics.
pub open spec fn del_chat_faults(phrase: Seq<char>, list: Seq<String>) -> bool {
    left_arg_faults(phrase) || (left_arg_spec(phrase) is Ok && word_bytes(list).contains(
        left_arg_spec(phrase)->Ok_0,
    ) && right_arg_faults(phrase))
}

/// Decides what a `del` command does with the known triggers.
pub fn del_chat_request(botbot_phrase: &String, trigger_word_list: &Vec<String>) -> (r: Result<
    ChatDeletion,
    String,
>)
    requires
        !del_chat_faults(botbot_phrase@, trigger_word_list@),
    ensures
        match r {
            Ok(ChatDeletion::Delete(t)) => del_chat_spec(botbot_phrase@, trigger_word_list@)
                == Ok::<_, Seq<char>>(Some(utf8(t@))),
            Ok(ChatDeletion::Keep(reply)) => {
                &&& del_chat_spec(botbot_phrase@, trigger_word_list@) == Ok::<_, Seq<char>>(
                    None::<Seq<u8>>,
                )
                &&& reply@ == "plop"@
            },
            Err(e) => del_chat_spec(botbot_phrase@, trigger_word_list@) == Err::<
                Option<Seq<u8>>,
                _,
            >(e@),
        },
{
    let trigger = match _get_left_arg(botbot_phrase) {
        Ok(t) => t,
        Err(e) => return Err(prefixed("ERROR: chat_to_del match trigger ", e.as_str())),
    };
    let known = contains_word(trigger_word_list, &trigger);
    proof {
        vstd::utf8::encode_utf8_decode_utf8(trigger@);
        if known {
            let k = choose|k: int|
                0 <= k < trigger_word_list@.len() && (#[trigger] trigger_word_list@[k])@
                    == trigger@;
            assert(word_bytes(trigger_word_list@)[k] == utf8(trigger@));
        } else {
            assert forall|k: int| 0 <= k < word_bytes(trigger_word_list@).len() implies word_bytes(
                trigger_word_list@,
            )[k] != utf8(trigger@) by {
                let w = trigger_word_list@[k];
                vstd::utf8::encode_utf8_decode_utf8(w@);
                assert(w@ != trigger@);
            }
        }
    }
    if !known {
        return Err("ERROR: trigger not in db".to_owned());
    }
    let answer = match _get_right_arg(botbot_phrase) {
        Ok(a) => a,
        Err(e) => return Err(prefixed("ERROR: chat_to_add match answer ", e.as_str())),
    };
    proof {
        vstd::utf8::encode_utf8_decode_utf8(answer@);
    }
    if trigger == answer {
        Ok(ChatDeletion::Delete(trigger))
    } else {
        Ok(ChatDeletion::Keep("plop".to_owned()))
    }
}


/// The regular expression that finds a trigger word in a phrase: the word
/// after a blank, at the start, or after an apostrophe, followed by blanks
/// and punctuation. The word is inserted as it is, unescaped.
pub open spec fn trigger_pattern_text(word: Seq<char>) -> Seq<char> {
    "(\\s"@ + word + "|^"@ + word + "|'"@ + word + ")[\\s\\?!,]*"@
}

/// Builds the regular expression that finds `word` in a phrase.
pub fn trigger_pattern(word: &String) -> (r: String)
    ensures
        r@ == trigger_pattern_text(word@),
{
    let w = word.as_str();
    let mut p = "(\\s".to_owned();
    p.append(w);
    p.append("|^");
    p.append(w);
    p.append("|'");
    p.append(w);
    p.append(")[\\s\\?!,]*");
    p
}

/// Whether the trigger `word` is found in the phrase; an error when its
/// regular expression does not compile.
pub fn trigger_matches(botbot_phrase: &String, word: &String) -> (r: Result<bool, String>)
    ensures
        match r {
            Ok(found) => {
                &&& regex_compile_error(trigger_pattern_text(word@)) is None
                &&& found == regex_finds(trigger_pattern_text(word@), botbot_phrase@)
            },
            Err(m) => {
                &&& regex_compile_error(trigger_pattern_text(word@)) is Some
                &&& m@ == "ERROR: setup regex "@ + regex_compile_error(
                    trigger_pattern_text(word@),
                )->Some_0
            },
        },
{
    let source = trigger_pattern(word);
    match Pattern::compile(source.as_str()) {
        Ok(re) => Ok(re.is_match(botbot_phrase.as_str())),
        Err(e) => Err(prefixed("ERROR: setup regex ", e.as_str())),
    }
}

/// The answer at `index` among those gathered for a phrase; an error when
/// no answer was gathered.
pub fn choose_answer(answers: &Vec<String>, botbot_phrase: &String, index: usize) -> (r: Result<
    String,
    String,
>)
    requires
        answers@.len() == 0 || index < answers@.len(),
    ensures
        answers@.len() == 0 ==> (r matches Err(m) && m@ == "ERROR: no word found for: "@
            + botbot_phrase@),
        answers@.len() != 0 ==> (r matches Ok(a) && a@ == answers@[index as int]@),
{
    if answers.len() != 0 {
        Ok(answers[index].clone())
    } else {
        Err(prefixed("ERROR: no word found for: ", botbot_phrase.as_str()))
    }
}

/// One of the answers gathered for a phrase, drawn at random; an error when
/// no answer was gathered.
pub fn pick_answer(answers: &Vec<String>, botbot_phrase: &String) -> (r: Result<String, String>)
    ensures
        answers@.len() == 0 ==> (r matches Err(m) && m@ == "ERROR: no word found for: "@
            + botbot_phrase@),
        answers@.len() != 0 ==> (r matches Ok(a) && has_word(answers@, a@)),
{
    if answers.len() != 0 {
        let mut rng = thread_rng();
        let k = gen_index(&mut rng, answers.len());
        choose_answer(answers, botbot_phrase, k)
    } else {
        choose_answer(answers, botbot_phrase, 0)
    }
}


/// A word just added is in the list.
pub proof fn law_added_word_is_known(list: Seq<String>, word: String)
    ensures
        has_word(with_word(list, word), word@),
{
    if !has_word(list, word@) {
        assert(with_word(list, word)[list.len() as int] == word);
    }
}

/// Adding a word twice is adding it once.
pub proof fn law_add_is_idempotent(list: Seq<String>, word: String)
    ensures
        with_word(with_word(list, word), word) == with_word(list, word),
{
    law_added_word_is_known(list, word);
}

/// Removal keeps exactly the strings whose text differs from the word, in
/// their order: a removed word is no longer known, every other word stays.
pub proof fn law_removal_keeps_the_others(list: Seq<String>, word: Seq<char>, other: Seq<char>)
    ensures
        !has_word(without_word(list, word), word),
        other != word ==> (has_word(without_word(list, word), other) <==> has_word(list, other)),
{
    let pred = differs_from(word);
    let out = without_word(list, word);
    if has_word(out, word) {
        let k = choose|k: int| 0 <= k < out.len() && (#[trigger] out[k])@ == word;
        list.lemma_filter_pred(pred, k);
    }
    if other != word {
        if has_word(list, other) {
            let k = choose|k: int| 0 <= k < list.len() && (#[trigger] list[k])@ == other;
            list.lemma_filter_contains(pred, k);
            let j = choose|j: int| 0 <= j < out.len() && out[j] == list[k];
            assert(out[j]@ == other);
        }
        if has_word(out, other) {
            let k = choose|k: int| 0 <= k < out.len() && (#[trigger] out[k])@ == other;
            lemma_filter_from(list, pred, k);
            let j = choose|j: int| 0 <= j < list.len() && list[j] == out[k];
            assert(list[j]@ == other);
        }
    }
}

/// Removing a word the list does not hold leaves the list as it is.
pub proof fn law_removing_an_unknown_word_changes_nothing(list: Seq<String>, word: Seq<char>)
    requires
        !has_word(list, word),
    ensures
        without_word(list, word) == list,
    decreases list.len(),
{
    reveal_with_fuel(Seq::filter, 1);
    if list.len() > 0 {
        let init = list.drop_last();
        assert(!has_word(init, word)) by {
            if has_word(init, word) {
                let k = choose|k: int| 0 <= k < init.len() && (#[trigger] init[k])@ == word;
                assert(list[k] == init[k]);
            }
        }
        law_removing_an_unknown_word_changes_nothing(init, word);
        assert(list.last()@ != word);
        assert(init.push(list.last()) =~= list);
    } else {
        assert(list.filter(differs_from(word)) =~= list);
    }
}

/// Deleting a word that was just added to a list without it gives the list
/// back.
pub proof fn law_remove_undoes_add(list: Seq<String>, word: String)
    requires
        !has_word(list, word@),
    ensures
        without_word(with_word(list, word), word@) == list,
{
    reveal_with_fuel(Seq::filter, 1);
    let added = list.push(word);
    assert(added.drop_last() =~= list);
    law_removing_an_unknown_word_changes_nothing(list, word@);
}

/// Adding and removing words keeps a list free of repeated texts.
pub proof fn law_lists_stay_distinct(list: Seq<String>, word: String, gone: Seq<char>)
    requires
        words(list).no_duplicates(),
    ensures
        words(with_word(list, word)).no_duplicates(),
        words(without_word(list, gone)).no_duplicates(),
{
    if !has_word(list, word@) {
        let added = with_word(list, word);
        assert forall|i: int, j: int|
            0 <= i < words(added).len() && 0 <= j < words(added).len() && i != j implies words(
            added,
        )[i] != words(added)[j] by {
            if i < list.len() && j < list.len() {
                assert(words(list)[i] == words(added)[i]);
                assert(words(list)[j] == words(added)[j]);
            } else if i == list.len() {
                assert(words(added)[j] == list[j]@);
            } else {
                assert(words(added)[i] == list[i]@);
            }
        }
    }
    lemma_filter_keeps_distinct(list, gone);
}

proof fn lemma_filter_keeps_distinct(list: Seq<String>, gone: Seq<char>)
    requires
        words(list).no_duplicates(),
    ensures
        words(without_word(list, gone)).no_duplicates(),
    decreases list.len(),
{
    reveal_with_fuel(Seq::filter, 1);
    if list.len() > 0 {
        let init = list.drop_last();
        assert(words(init).no_duplicates()) by {
            assert forall|i: int, j: int|
                0 <= i < words(init).len() && 0 <= j < words(init).len() && i != j implies words(
                init,
            )[i] != words(init)[j] by {
                assert(words(init)[i] == words(list)[i]);
                assert(words(init)[j] == words(list)[j]);
            }
        }
        lemma_filter_keeps_distinct(init, gone);
        let kept = without_word(init, gone);
        if list.last()@ != gone {
            let out = kept.push(list.last());
            assert(without_word(list, gone) == out);
            assert forall|i: int, j: int|
                0 <= i < words(out).len() && 0 <= j < words(out).len() && i != j implies words(
                out,
            )[i] != words(out)[j] by {
                if i == kept.len() || j == kept.len() {
                    let k = if i == kept.len() { j } else { i };
                    lemma_filter_from(init, differs_from(gone), k);
                    let m = choose|m: int| 0 <= m < init.len() && init[m] == kept[k];
                    assert(words(list)[m] == kept[k]@);
                    assert(words(list)[list.len() - 1] == list.last()@);
                    assert(words(out)[k] == kept[k]@);
                } else {
                    assert(words(out)[i] == words(kept)[i]);
                    assert(words(out)[j] == words(kept)[j]);
                }
            }
        }
    }
}

/// Building the list from rows yields every row once, and nothing else.
pub proof fn law_trigger_list_is_distinct(rows: Seq<Seq<char>>)
    ensures
        distinct_words(rows).no_duplicates(),
        forall|w: Seq<char>| distinct_words(rows).contains(w) <==> rows.contains(w),
    decreases rows.len(),
{
    if rows.len() > 0 {
        let init = rows.drop_last();
        law_trigger_list_is_distinct(init);
        let d = distinct_words(init);
        assert forall|w: Seq<char>| distinct_words(rows).contains(w) <==> rows.contains(w) by {
            if rows.contains(w) {
                let k = choose|k: int| 0 <= k < rows.len() && rows[k] == w;
                if k < rows.len() - 1 {
                    assert(init[k] == w);
                    assert(init.contains(w));
                }
            }
            if init.contains(w) {
                let k = choose|k: int| 0 <= k < init.len() && init[k] == w;
                assert(rows[k] == w);
            }
            if !d.contains(rows.last()) {
                if d.push(rows.last()).contains(w) && w != rows.last() {
                    let k = choose|k: int| 0 <= k < d.len() + 1 && d.push(rows.last())[k] == w;
                    assert(d[k] == w);
                }
                if d.contains(w) {
                    let k = choose|k: int| 0 <= k < d.len() && d[k] == w;
                    assert(d.push(rows.last())[k] == w);
                }
                assert(d.push(rows.last())[d.len() as int] == rows.last());
            }
            assert(rows[rows.len() - 1] == rows.last());
        }
        if !d.contains(rows.last()) {
            let out = d.push(rows.last());
            assert forall|i: int, j: int|
                0 <= i < out.len() && 0 <= j < out.len() && i != j implies out[i] != out[j] by {
                if i == d.len() {
                    assert(out[j] == d[j]);
                    if out[i] == out[j] {
                        assert(d.contains(rows.last()));
                    }
                } else if j == d.len() {
                    assert(out[i] == d[i]);
                    if out[i] == out[j] {
                        assert(d.contains(rows.last()));
                    }
                } else {
                    assert(out[i] == d[i] && out[j] == d[j]);
                }
            }
        }
    }
}


/// Whether taking the left argument of `admin_msg` would panic.
pub fn left_arg_faults_exec(admin_msg: &String) -> (r: bool)
    ensures
        r == left_arg_faults(admin_msg@),
{
    reveal(left_arg_faults);
    let b = admin_msg.as_str().as_bytes();
    proof {
        reveal_strlit("[");
        reveal_strlit("]");
    }
    match (find_ascii(b, "["), find_ascii(b, "]")) {
        (Some(i), Some(j)) => i >= j,
        _ => false,
    }
}

/// Whether taking the right argument of `admin_msg` would panic.
pub fn right_arg_faults_exec(admin_msg: &String) -> (r: bool)
    ensures
        r == right_arg_faults(admin_msg@),
{
    reveal(right_arg_faults);
    let b = admin_msg.as_str().as_bytes();
    proof {
        reveal_strlit("[");
        reveal_strlit("]");
    }
    match (rfind_ascii(b, "["), rfind_ascii(b, "]")) {
        (Some(i), Some(j)) => i >= j,
        _ => false,
    }
}

/// Whether reading `botbot_phrase` as an `add` command would panic.
pub fn add_chat_faults_exec(botbot_phrase: &String) -> (r: bool)
    ensures
        r == add_chat_faults(botbot_phrase@),
{
    if left_arg_faults_exec(botbot_phrase) {
        return true;
    }
    _get_left_arg(botbot_phrase).is_ok() && right_arg_faults_exec(botbot_phrase)
}

/// Whether reading `botbot_phrase` as a `del` command would panic.
pub fn del_chat_faults_exec(botbot_phrase: &String, trigger_word_list: &Vec<String>) -> (r: bool)
    ensures
        r == del_chat_faults(botbot_phrase@, trigger_word_list@),
{
    if left_arg_faults_exec(botbot_phrase) {
        return true;
    }
    match _get_left_arg(botbot_phrase) {
        Ok(trigger) => {
            let known = contains_word(trigger_word_list, &trigger);
            proof {
                vstd::utf8::encode_utf8_decode_utf8(trigger@);
                if known {
                    let k = choose|k: int|
                        0 <= k < trigger_word_list@.len() && (#[trigger] trigger_word_list@[k])@
                            == trigger@;
                    assert(word_bytes(trigger_word_list@)[k] == utf8(trigger@));
                } else {
                    assert forall|k: int|
                        0 <= k < word_bytes(trigger_word_list@).len() implies word_bytes(
                        trigger_word_list@,
                    )[k] != utf8(trigger@) by {
                        let w = trigger_word_list@[k];
                        vstd::utf8::encode_utf8_decode_utf8(w@);
                    }
                }
            }
            known && right_arg_faults_exec(botbot_phrase)
        },
        Err(_) => false,
    }
}


/// A command `p[t]q`, where neither `p` nor `t` holds a bracket and `t` is
/// not empty, has `t` as its left argument.
pub proof fn law_left_argument(p: Seq<char>, t: Seq<char>, q: Seq<char>)
    requires
        no_brackets(p),
        no_brackets(t),
        t.len() > 0,
    ensures
        !left_arg_faults(p + "["@ + t + "]"@ + q),
        left_arg_spec(p + "["@ + t + "]"@ + q) == Ok::<Seq<u8>, Seq<char>>(utf8(t)),
{
    reveal(left_arg_spec);
    reveal(left_arg_faults);
    let m = p + "["@ + t + "]"@ + q;
    lemma_bracketed_bytes(p, t, q);
    let (up, ut, uq) = (utf8(p), utf8(t), utf8(q));
    lemma_utf8_lacks(p, '[');
    lemma_utf8_lacks(p, ']');
    lemma_utf8_lacks(t, ']');
    lemma_utf8_nonempty(t);
    assert(utf8(m) =~= up + seq![0x5Bu8] + (ut + seq![0x5Du8] + uq));
    lemma_first_byte(up, 0x5B, ut + seq![0x5Du8] + uq);
    let before = up + seq![0x5Bu8] + ut;
    assert(lacks_byte(before, 0x5D)) by {
        assert forall|k: int| 0 <= k < before.len() implies before[k] != 0x5D by {
            if k < up.len() {
                assert(before[k] == up[k]);
            } else if k > up.len() {
                assert(before[k] == ut[k - up.len() - 1]);
            }
        }
    }
    assert(utf8(m) =~= before + seq![0x5Du8] + uq);
    lemma_first_byte(before, 0x5D, uq);
    assert(utf8(m).subrange(up.len() + 1int, before.len() as int) =~= ut);
}

/// A command `p[a]q`, where neither `a` nor `q` holds a bracket and `a` is
/// not empty, has `a` as its right argument.
pub proof fn law_right_argument(p: Seq<char>, a: Seq<char>, q: Seq<char>)
    requires
        no_brackets(a),
        no_brackets(q),
        a.len() > 0,
    ensures
        !right_arg_faults(p + "["@ + a + "]"@ + q),
        right_arg_spec(p + "["@ + a + "]"@ + q) == Ok::<Seq<u8>, Seq<char>>(utf8(a)),
{
    reveal(right_arg_spec);
    reveal(right_arg_faults);
    let m = p + "["@ + a + "]"@ + q;
    lemma_bracketed_bytes(p, a, q);
    let (up, ua, uq) = (utf8(p), utf8(a), utf8(q));
    lemma_utf8_lacks(q, '[');
    lemma_utf8_lacks(q, ']');
    lemma_utf8_lacks(a, '[');
    lemma_utf8_nonempty(a);
    let after = ua + seq![0x5Du8] + uq;
    assert(lacks_byte(after, 0x5B)) by {
        assert forall|k: int| 0 <= k < after.len() implies after[k] != 0x5B by {
            if k < ua.len() {
                assert(after[k] == ua[k]);
            } else if k > ua.len() {
                assert(after[k] == uq[k - ua.len() - 1]);
            }
        }
    }
    assert(utf8(m) =~= up + seq![0x5Bu8] + after);
    lemma_last_byte(up, 0x5B, after);
    let before = up + seq![0x5Bu8] + ua;
    assert(utf8(m) =~= before + seq![0x5Du8] + uq);
    lemma_last_byte(before, 0x5D, uq);
    assert(utf8(m).subrange(up.len() + 1int, before.len() as int) =~= ua);
}

/// A command `p[t][a]q`, where none of the four texts holds a bracket and
/// the trigger `t` and the answer `a` are not empty, asks to store the answer
/// `a` for the trigger `t`.
pub proof fn law_add_command(p: Seq<char>, t: Seq<char>, a: Seq<char>, q: Seq<char>)
    requires
        no_brackets(p),
        no_brackets(t),
        no_brackets(a),
        no_brackets(q),
        t.len() > 0,
        a.len() > 0,
    ensures
        !add_chat_faults(p + "["@ + t + "]["@ + a + "]"@ + q),
        add_chat_spec(p + "["@ + t + "]["@ + a + "]"@ + q) == Ok::<_, Seq<char>>((utf8(t), utf8(a))),
{
    reveal_strlit("[");
    reveal_strlit("]");
    reveal_strlit("][");
    let m = p + "["@ + t + "]["@ + a + "]"@ + q;
    let tail = "["@ + a + "]"@ + q;
    assert(m =~= p + "["@ + t + "]"@ + tail);
    law_left_argument(p, t, tail);
    let head = p + "["@ + t + "]"@;
    assert(m =~= head + "["@ + a + "]"@ + q);
    law_right_argument(head, a, q);
}


/// A command `p[t][t]q`, where none of the texts holds a bracket and the
/// non-empty trigger `t` is known, asks to delete `t`; when `t` is not
/// known it is refused.
pub proof fn law_del_command(p: Seq<char>, t: Seq<char>, q: Seq<char>, list: Seq<String>)
    requires
        no_brackets(p),
        no_brackets(t),
        no_brackets(q),
        t.len() > 0,
    ensures
        !del_chat_faults(p + "["@ + t + "]["@ + t + "]"@ + q, list),
        has_word(list, t) ==> del_chat_spec(p + "["@ + t + "]["@ + t + "]"@ + q, list) == Ok::<
            _,
            Seq<char>,
        >(Some(utf8(t))),
        !has_word(list, t) ==> del_chat_spec(p + "["@ + t + "]["@ + t + "]"@ + q, list) == Err::<
            Option<Seq<u8>>,
            _,
        >("ERROR: trigger not in db"@),
{
    law_add_command(p, t, t, q);
    let m = p + "["@ + t + "]["@ + t + "]"@ + q;
    vstd::utf8::encode_utf8_decode_utf8(t);
    if has_word(list, t) {
        let k = choose|k: int| 0 <= k < list.len() && (#[trigger] list[k])@ == t;
        assert(word_bytes(list)[k] == utf8(t));
    } else {
        assert forall|k: int| 0 <= k < word_bytes(list).len() implies word_bytes(list)[k] != utf8(
            t,
        ) by {
            vstd::utf8::encode_utf8_decode_utf8(list[k]@);
        }
    }
}

/// A `del` command `p[t][a]q` whose two arguments differ, where none of the
/// texts holds a bracket and the known trigger `t` and `a` are not empty,
/// deletes nothing.
pub proof fn law_del_needs_the_trigger_twice(
    p: Seq<char>,
    t: Seq<char>,
    a: Seq<char>,
    q: Seq<char>,
    list: Seq<String>,
)
    requires
        no_brackets(p),
        no_brackets(t),
        no_brackets(a),
        no_brackets(q),
        t.len() > 0,
        a.len() > 0,
        t != a,
        has_word(list, t),
    ensures
        !del_chat_faults(p + "["@ + t + "]["@ + a + "]"@ + q, list),
        del_chat_spec(p + "["@ + t + "]["@ + a + "]"@ + q, list) == Ok::<_, Seq<char>>(
            None::<Seq<u8>>,
        ),
{
    law_add_command(p, t, a, q);
    vstd::utf8::encode_utf8_decode_utf8(t);
    vstd::utf8::encode_utf8_decode_utf8(a);
    let k = choose|k: int| 0 <= k < list.len() && (#[trigger] list[k])@ == t;
    assert(word_bytes(list)[k] == utf8(t));
}

} // verus!
