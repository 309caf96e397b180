use botc::console::{
    handle_key, parse_player, read_tell, roles_with_prefix, InputType, InputTypeId, Key, KeyOutcome,
    TellError,
};
use botc::game::RoleId;

fn words<'a>(ws: &[&'a str]) -> Vec<&'a [u8]> {
    ws.iter().map(|w| w.as_bytes()).collect()
}

#[test]
fn player_numbers_read_like_usize_parse() {
    for text in ["0", "12", "+7", "007", "", "+", "1a", "-1", " 3", "3 ", "++1", "９"] {
        assert_eq!(parse_player(text.as_bytes()), text.parse::<usize>().ok(), "{text:?}");
    }
    assert_eq!(parse_player(b"12"), Some(12));
    assert_eq!(parse_player(b"+7"), Some(7));
    assert_eq!(parse_player(b""), None);
    assert_eq!(parse_player(b"-0"), None);
}

#[test]
fn player_numbers_that_overflow_are_refused() {
    let max = usize::MAX.to_string();
    assert_eq!(parse_player(max.as_bytes()), Some(usize::MAX));
    let over = format!("{max}0");
    assert_eq!(parse_player(over.as_bytes()), None);
    let next = (usize::MAX as u128 + 1).to_string();
    assert_eq!(parse_player(next.as_bytes()), None);
}

#[test]
fn role_names_are_the_lower_case_debug_names() {
    for r in RoleId::all() {
        assert_eq!(r.name(), format!("{r:?}").to_lowercase());
    }
    assert_eq!(RoleId::Imp.name(), "imp");
}

#[test]
fn role_prefixes_match_in_script_order() {
    assert_eq!(
        roles_with_prefix(b"s"),
        vec![RoleId::Slayer, RoleId::Soldier, RoleId::Saint, RoleId::Spy, RoleId::ScarletWoman]
    );
    assert_eq!(roles_with_prefix(b"sp"), vec![RoleId::Spy]);
    assert_eq!(roles_with_prefix(b"imp"), vec![RoleId::Imp]);
    assert_eq!(roles_with_prefix(b"Imp"), Vec::<RoleId>::new());
    assert_eq!(roles_with_prefix(b"impx"), Vec::<RoleId>::new());
    assert_eq!(roles_with_prefix(b""), RoleId::all());
}

#[test]
fn console_lines_name_target_player_and_role() {
    assert_eq!(read_tell(&words(&["3", "4", "mon"])), Ok((3, 4, RoleId::Monk)));
    assert_eq!(read_tell(&words(&["3", "4", "imp", "more"])), Ok((3, 4, RoleId::Imp)));
    assert_eq!(read_tell(&words(&[])), Err(TellError::MissingWord));
    assert_eq!(read_tell(&words(&["3"])), Err(TellError::MissingWord));
    assert_eq!(read_tell(&words(&["3", "4"])), Err(TellError::MissingWord));
    assert_eq!(read_tell(&words(&["x", "4", "monk"])), Err(TellError::BadNumber));
    assert_eq!(read_tell(&words(&["3", "x"])), Err(TellError::BadNumber));
    assert_eq!(read_tell(&words(&["3", "4", "zz"])), Err(TellError::NoRole));
    assert_eq!(read_tell(&words(&["3", "4", "s"])), Err(TellError::ManyRoles));
}

#[test]
fn arrows_move_between_the_fifteen_tabs() {
    let mut tab = 0;
    let mut input = Vec::new();
    assert!(matches!(handle_key(&mut tab, &mut input, InputTypeId::Player, Key::Left), KeyOutcome::Wait));
    assert_eq!(tab, 14);
    assert!(matches!(handle_key(&mut tab, &mut input, InputTypeId::Player, Key::Right), KeyOutcome::Wait));
    assert_eq!(tab, 0);
    handle_key(&mut tab, &mut input, InputTypeId::Player, Key::Right);
    assert_eq!(tab, 1);
    assert!(matches!(handle_key(&mut tab, &mut input, InputTypeId::Player, Key::Down), KeyOutcome::ScrollDown));
    assert!(matches!(handle_key(&mut tab, &mut input, InputTypeId::Player, Key::Up), KeyOutcome::ScrollUp));
    assert_eq!(tab, 1);
    assert!(input.is_empty());
}

#[test]
fn the_input_line_takes_some_characters() {
    let mut tab = 3;
    let mut input = Vec::new();
    for c in ['1', '9', 'a', 'z', ' ', 'Q', '8', '-'] {
        handle_key(&mut tab, &mut input, InputTypeId::Player, Key::Char(c));
    }
    assert_eq!(input, b"1a 8".to_vec());
    handle_key(&mut tab, &mut input, InputTypeId::Player, Key::Backspace);
    assert_eq!(input, b"1a ".to_vec());
    assert!(matches!(handle_key(&mut tab, &mut input, InputTypeId::Player, Key::Char('q')), KeyOutcome::Quit));
    assert_eq!(input, b"1a ".to_vec());
    let mut empty = Vec::new();
    handle_key(&mut tab, &mut empty, InputTypeId::Player, Key::Backspace);
    assert!(empty.is_empty());
    assert!(matches!(handle_key(&mut tab, &mut empty, InputTypeId::Player, Key::Other), KeyOutcome::Wait));
    assert_eq!(tab, 3);
}

#[test]
fn enter_answers_the_prompt() {
    let mut tab = 0;
    let mut input = b"12".to_vec();
    let r = handle_key(&mut tab, &mut input, InputTypeId::Player, Key::Enter);
    assert!(matches!(r, KeyOutcome::Answer(InputType::Player(12))));
    assert!(input.is_empty());

    let r = handle_key(&mut tab, &mut input, InputTypeId::OptionPlayer, Key::Enter);
    assert!(matches!(r, KeyOutcome::Answer(InputType::OptionPlayer(None))));

    let mut input = b"4".to_vec();
    let r = handle_key(&mut tab, &mut input, InputTypeId::OptionPlayer, Key::Enter);
    assert!(matches!(r, KeyOutcome::Answer(InputType::OptionPlayer(Some(4)))));
    assert!(input.is_empty());

    let mut input = b"whatever".to_vec();
    let r = handle_key(&mut tab, &mut input, InputTypeId::Tell, Key::Enter);
    assert!(matches!(r, KeyOutcome::Answer(InputType::Tell(None))));
    assert!(input.is_empty());
}

#[test]
fn enter_on_a_line_that_is_no_number_fails() {
    let mut tab = 0;
    let mut input = b"ab".to_vec();
    assert!(matches!(handle_key(&mut tab, &mut input, InputTypeId::Player, Key::Enter), KeyOutcome::BadNumber));
    assert_eq!(input, b"ab".to_vec());
    assert!(matches!(
        handle_key(&mut tab, &mut input, InputTypeId::OptionPlayer, Key::Enter),
        KeyOutcome::BadNumber
    ));
    let mut input = Vec::new();
    assert!(matches!(handle_key(&mut tab, &mut input, InputTypeId::Player, Key::Enter), KeyOutcome::BadNumber));
}
