//! What the storyteller's screen and console read from the keyboard: player numbers, role
//! names, and keys.

use vstd::prelude::*;

use crate::game::Info;
use crate::roles::{all_role_ids, PlayerId, RoleId};

verus! {

/// Whether the byte is an ASCII decimal digit.
pub open spec fn is_digit(b: u8) -> bool {
    48 <= b <= 57
}

/// The number that the digits `s` write in decimal, most significant first.
pub open spec fn digits_value(s: Seq<u8>) -> nat
    decreases s.len(),
{
    if s.len() == 0 {
        0
    } else {
        digits_value(s.drop_last()) * 10 + (s.last() - 48) as nat
    }
}

/// The digits of a numeral: the text without its leading plus sign, if it has one.
pub open spec fn numeral_digits(s: Seq<u8>) -> Seq<u8> {
    if s.len() > 0 && s[0] == 43 {
        s.drop_first()
    } else {
        s
    }
}

/// The player number that the text `s` writes: an optional plus sign and at least one decimal
/// digit, of a value that fits a `usize`; none for any other text.
pub open spec fn player_number(s: Seq<u8>) -> Option<nat> {
    let d = numeral_digits(s);
    if d.len() > 0 && (forall|i: int| 0 <= i < d.len() ==> #[trigger] is_digit(d[i])) && digits_value(d)
        <= usize::MAX {
        Some(digits_value(d))
    } else {
        None
    }
}

/// A longer run of digits writes at least as large a number as its beginning.
proof fn lemma_digits_grow(s: Seq<u8>, k: int)
    requires
        0 <= k <= s.len(),
        forall|i: int| 0 <= i < s.len() ==> #[trigger] is_digit(s[i]),
    ensures
        digits_value(s.take(k)) <= digits_value(s),
    decreases s.len(),
{
    if k < s.len() {
        assert(s.drop_last().take(k) =~= s.take(k));
        lemma_digits_grow(s.drop_last(), k);
    } else {
        assert(s.take(k) =~= s);
    }
}

/// Reads a player number: an optional plus sign, then decimal digits, as `usize`'s `parse`
/// reads it.
pub fn parse_player(text: &[u8]) -> (r: Option<PlayerId>)
    ensures
        r matches Some(v) ==> player_number(text@) == Some(v as nat),
        r is None ==> player_number(text@) is None,
{
    let ghost d = numeral_digits(text@);
    let start: usize = if text.len() > 0 && text[0] == 43 {
        1
    } else {
        0
    };
    proof {
        assert(d =~= text@.subrange(start as int, text@.len() as int));
    }
    if start >= text.len() {
        return None;
    }
    let mut value: usize = 0;
    let mut i: usize = start;
    while i < text.len()
        invariant
            start <= i <= text@.len(),
            d == numeral_digits(text@),
            d =~= text@.subrange(start as int, text@.len() as int),
            forall|k: int| 0 <= k < i - start ==> #[trigger] is_digit(d[k]),
            value == digits_value(d.take(i - start)),
        decreases text@.len() - i,
    {
        let b = text[i];
        proof {
            assert(d[i - start] == b);
        }
        if b < 48 || b > 57 {
            proof {
                assert(!is_digit(d[i - start]));
            }
            return None;
        }
        proof {
            assert(d.take(i - start + 1).drop_last() =~= d.take(i - start));
            assert(d.take(i - start + 1).last() == b);
        }
        let digit: usize = (b - 48) as usize;
        if value > (usize::MAX - digit) / 10 {
            proof {
                let pre = d.take(i - start + 1);
                assert(digits_value(pre) == value * 10 + digit);
                assert(digits_value(pre) > usize::MAX) by (nonlinear_arith)
                    requires
                        digits_value(pre) == value * 10 + digit,
                        value > (usize::MAX - digit) / 10,
                        digit <= 9,
                ;
                if forall|k: int| 0 <= k < d.len() ==> #[trigger] is_digit(d[k]) {
                    lemma_digits_grow(d, i - start + 1);
                    assert(digits_value(d) > usize::MAX);
                }
            }
            return None;
        }
        proof {
            assert(value * 10 + digit <= usize::MAX) by (nonlinear_arith)
                requires
                    value <= (usize::MAX - digit) / 10,
                    digit <= 9,
            ;
        }
        value = value * 10 + digit;
        i = i + 1;
    }
    proof {
        assert(d.take(i - start) =~= d);
    }
    Some(value)
}

/// The name of a role as the console writes it: its name in lower case.
pub open spec fn role_name(r: RoleId) -> Seq<char> {
    match r {
        RoleId::WasherWoman => "washerwoman"@,
        RoleId::Librarian => "librarian"@,
        RoleId::Investigator => "investigator"@,
        RoleId::Chef => "chef"@,
        RoleId::Empath => "empath"@,
        RoleId::FortuneTeller => "fortuneteller"@,
        RoleId::Undertaker => "undertaker"@,
        RoleId::Monk => "monk"@,
        RoleId::RavensKeeper => "ravenskeeper"@,
        RoleId::Virgin => "virgin"@,
        RoleId::Slayer => "slayer"@,
        RoleId::Soldier => "soldier"@,
        RoleId::Mayor => "mayor"@,
        RoleId::Butler => "butler"@,
        RoleId::Drunk => "drunk"@,
        RoleId::Recluse => "recluse"@,
        RoleId::Saint => "saint"@,
        RoleId::Poisoner => "poisoner"@,
        RoleId::Spy => "spy"@,
        RoleId::ScarletWoman => "scarletwoman"@,
        RoleId::Baron => "baron"@,
        RoleId::Imp => "imp"@,
    }
}

/// Whether the text `chunk` begins the name of the role `r`, byte for byte.
pub open spec fn names_start_with(r: RoleId, chunk: Seq<u8>) -> bool {
    chunk.is_prefix_of(vstd::utf8::encode_utf8(role_name(r)))
}

impl RoleId {
    /// The name of the role in lower case.
    pub fn name(self) -> (s: &'static str)
        ensures
            s@ == role_name(self),
    {
        match self {
            RoleId::WasherWoman => "washerwoman",
            RoleId::Librarian => "librarian",
            RoleId::Investigator => "investigator",
            RoleId::Chef => "chef",
            RoleId::Empath => "empath",
            RoleId::FortuneTeller => "fortuneteller",
            RoleId::Undertaker => "undertaker",
            RoleId::Monk => "monk",
            RoleId::RavensKeeper => "ravenskeeper",
            RoleId::Virgin => "virgin",
            RoleId::Slayer => "slayer",
            RoleId::Soldier => "soldier",
            RoleId::Mayor => "mayor",
            RoleId::Butler => "butler",
            RoleId::Drunk => "drunk",
            RoleId::Recluse => "recluse",
            RoleId::Saint => "saint",
            RoleId::Poisoner => "poisoner",
            RoleId::Spy => "spy",
            RoleId::ScarletWoman => "scarletwoman",
            RoleId::Baron => "baron",
            RoleId::Imp => "imp",
        }
    }
}

/// Whether `chunk` begins the name of `r`.
fn starts_name(r: RoleId, chunk: &[u8]) -> (b: bool)
    ensures
        b == names_start_with(r, chunk@),
{
    let name = r.name().as_bytes();
    if chunk.len() > name.len() {
        return false;
    }
    let mut i: usize = 0;
    while i < chunk.len()
        invariant
            i <= chunk@.len() <= name@.len(),
            name@ == vstd::utf8::encode_utf8(role_name(r)),
            forall|k: int| 0 <= k < i ==> chunk@[k] == name@[k],
        decreases chunk@.len() - i,
    {
        if chunk[i] != name[i] {
            return false;
        }
        i = i + 1;
    }
    true
}

/// The roles whose names begin with `chunk`, in the order of the script.
pub fn roles_with_prefix(chunk: &[u8]) -> (r: Vec<RoleId>)
    ensures
        r@ == all_role_ids().filter(|x: RoleId| names_start_with(x, chunk@)),
{
    let all = RoleId::all();
    let mut r: Vec<RoleId> = Vec::new();
    let mut i: usize = 0;
    while i < all.len()
        invariant
            i <= all@.len(),
            all@ == all_role_ids(),
            r@ == all@.take(i as int).filter(|x: RoleId| names_start_with(x, chunk@)),
        decreases all@.len() - i,
    {
        proof {
            assert(all@.take(i + 1).drop_last() =~= all@.take(i as int));
            reveal_with_fuel(Seq::filter, 1);
        }
        if starts_name(all[i], chunk) {
            r.push(all[i]);
        }
        i = i + 1;
    }
    proof {
        assert(all@.take(i as int) =~= all@);
    }
    r
}

/// Why a line typed at the console does not say what to tell whom.
#[derive(Clone, Copy, Debug, PartialEq, Eq, Structural)]
pub enum TellError {
    /// The line has fewer than three words.
    MissingWord,
    /// One of the first two words is not a player number.
    BadNumber,
    /// No role name begins with the third word.
    NoRole,
    /// More than one role name begins with the third word.
    ManyRoles,
}

/// What the words of a console line say: a target, a player and a role (a role named by the
/// beginning of its name), or why they say nothing.
pub open spec fn tell_reading(words: Seq<Seq<u8>>) -> Result<(PlayerId, PlayerId, RoleId), TellError> {
    if words.len() < 1 {
        Err(TellError::MissingWord)
    } else if player_number(words[0]) is None {
        Err(TellError::BadNumber)
    } else if words.len() < 2 {
        Err(TellError::MissingWord)
    } else if player_number(words[1]) is None {
        Err(TellError::BadNumber)
    } else if words.len() < 3 {
        Err(TellError::MissingWord)
    } else {
        let roles = all_role_ids().filter(|x: RoleId| names_start_with(x, words[2]));
        if roles.len() == 0 {
            Err(TellError::NoRole)
        } else if roles.len() > 1 {
            Err(TellError::ManyRoles)
        } else {
            Ok((player_number(words[0])->0 as PlayerId, player_number(words[1])->0 as PlayerId, roles[0]))
        }
    }
}

/// Reads the words of a console line: a target, a player and the beginning of a role name.
pub fn read_tell(words: &[&[u8]]) -> (r: Result<(PlayerId, PlayerId, RoleId), TellError>)
    ensures
        r == tell_reading(words@.map_values(|w: &[u8]| w@)),
{
    let ghost ws = words@.map_values(|w: &[u8]| w@);
    if words.len() < 1 {
        return Err(TellError::MissingWord);
    }
    let target = match parse_player(words[0]) {
        Some(t) => t,
        None => return Err(TellError::BadNumber),
    };
    if words.len() < 2 {
        return Err(TellError::MissingWord);
    }
    let player = match parse_player(words[1]) {
        Some(p) => p,
        None => return Err(TellError::BadNumber),
    };
    if words.len() < 3 {
        return Err(TellError::MissingWord);
    }
    let roles = roles_with_prefix(words[2]);
    if roles.len() == 0 {
        Err(TellError::NoRole)
    } else if roles.len() > 1 {
        Err(TellError::ManyRoles)
    } else {
        Ok((target, player, roles[0]))
    }
}

/// A key pressed on the single-player screen.
#[derive(Clone, Copy, Debug)]
pub enum Key {
    Left,
    Right,
    Up,
    Down,
    Char(char),
    Enter,
    Backspace,
    Other,
}

/// What a prompt waits for.
#[derive(Clone, Copy, Debug, PartialEq, Eq, Structural)]
pub enum InputTypeId {
    Player,
    OptionPlayer,
    Tell,
}

/// An answer to a prompt.
#[derive(Clone, Debug)]
pub enum InputType {
    Player(PlayerId),
    OptionPlayer(Option<PlayerId>),
    Tell(Option<(PlayerId, Info)>),
}

/// What the screen does after a key: wait for the next key, move the list of what the player
/// was told, quit, answer the prompt, or give up on a line that is not a number.
#[derive(Clone, Debug)]
pub enum KeyOutcome {
    Wait,
    ScrollDown,
    ScrollUp,
    Quit,
    Answer(InputType),
    BadNumber,
}

/// The characters that the input line takes: the digits below nine, the letters below `z`,
/// and the space.
pub open spec fn takes_char(c: char) -> bool {
    ||| ('0' <= c && c < '9')
    ||| ('a' <= c && c < 'z')
    ||| c == ' '
}

/// What Enter does to the input line `input` while the prompt waits for `expect`: the answer
/// (or the failure) and the line left.
pub open spec fn enter_outcome(expect: InputTypeId, input: Seq<u8>) -> (KeyOutcome, Seq<u8>) {
    match expect {
        InputTypeId::Player => match player_number(input) {
            Some(v) => (KeyOutcome::Answer(InputType::Player(v as PlayerId)), Seq::empty()),
            None => (KeyOutcome::BadNumber, input),
        },
        InputTypeId::OptionPlayer => if input.len() == 0 {
            (KeyOutcome::Answer(InputType::OptionPlayer(None)), Seq::empty())
        } else {
            match player_number(input) {
                Some(v) => (KeyOutcome::Answer(InputType::OptionPlayer(Some(v as PlayerId))), Seq::empty()),
                None => (KeyOutcome::BadNumber, input),
            }
        },
        InputTypeId::Tell => (KeyOutcome::Answer(InputType::Tell(None)), Seq::empty()),
    }
}

/// What a key does: the outcome, the tab shown after it (of fifteen, one per player), and the
/// input line after it.
pub open spec fn key_outcome(key: Key, expect: InputTypeId, tab: usize, input: Seq<u8>) -> (KeyOutcome, usize, Seq<u8>) {
    match key {
        Key::Left => (KeyOutcome::Wait, if tab == 0 { 14 } else { (tab - 1) as usize }, input),
        Key::Right => (KeyOutcome::Wait, ((tab + 1) % 15) as usize, input),
        Key::Down => (KeyOutcome::ScrollDown, tab, input),
        Key::Up => (KeyOutcome::ScrollUp, tab, input),
        Key::Char(c) => if c == 'q' {
            (KeyOutcome::Quit, tab, input)
        } else if takes_char(c) {
            (KeyOutcome::Wait, tab, input.push(c as u8))
        } else {
            (KeyOutcome::Wait, tab, input)
        },
        Key::Enter => (enter_outcome(expect, input).0, tab, enter_outcome(expect, input).1),
        Key::Backspace => (KeyOutcome::Wait, tab, if input.len() > 0 { input.drop_last() } else { input }),
        Key::Other => (KeyOutcome::Wait, tab, input),
    }
}

/// Handles a key on the single-player screen, which shows tab `selected_tab` and holds the
/// input line `input`, while a prompt waits for `expect`.
pub fn handle_key(selected_tab: &mut usize, input: &mut Vec<u8>, expect: InputTypeId, key: Key) -> (r: KeyOutcome)
    requires
        *old(selected_tab) < 15,
    ensures
        (r, *final(selected_tab), final(input)@) == key_outcome(key, expect, *old(selected_tab), old(input)@),
        *final(selected_tab) < 15,
{
    match key {
        Key::Left => {
            if *selected_tab == 0 {
                *selected_tab = 14;
            } else {
                *selected_tab = *selected_tab - 1;
            }
            KeyOutcome::Wait
        },
        Key::Right => {
            *selected_tab = (*selected_tab + 1) % 15;
            KeyOutcome::Wait
        },
        Key::Down => KeyOutcome::ScrollDown,
        Key::Up => KeyOutcome::ScrollUp,
        Key::Char(c) => {
            if c == 'q' {
                KeyOutcome::Quit
            } else {
                if ('0' <= c && c < '9') || ('a' <= c && c < 'z') || c == ' ' {
                    input.push(c as u8);
                }
                KeyOutcome::Wait
            }
        },
        Key::Enter => match expect {
            InputTypeId::Player => match parse_player(input.as_slice()) {
                Some(x) => {
                    *input = Vec::new();
                    KeyOutcome::Answer(InputType::Player(x))
                },
                None => KeyOutcome::BadNumber,
            },
            InputTypeId::OptionPlayer => {
                if input.len() == 0 {
                    *input = Vec::new();
                    KeyOutcome::Answer(InputType::OptionPlayer(None))
                } else {
                    match parse_player(input.as_slice()) {
                        Some(x) => {
                            *input = Vec::new();
                            KeyOutcome::Answer(InputType::OptionPlayer(Some(x)))
                        },
                        None => KeyOutcome::BadNumber,
                    }
                }
            },
            InputTypeId::Tell => {
                *input = Vec::new();
                KeyOutcome::Answer(InputType::Tell(None))
            },
        },
        Key::Backspace => {
            input.pop();
            KeyOutcome::Wait
        },
        Key::Other => KeyOutcome::Wait,
    }
}

} // verus!
