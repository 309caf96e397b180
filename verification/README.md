# botc

A storyteller's grimoire for *Blood on the Clocktower* (the Trouble Brewing
script), verified with Verus.

- `src/roles.rs`: the roles, their classes (townsfolk, outsider, minion,
  demon) and the script's list of them.
- `src/game/`: the grimoire. `draws.rs` says which setup a list of drawn
  numbers gives (`setup_of`) and which range each number is drawn from;
  `setup.rs` draws a fifteen-player setup from the random generator
  (`Grimoir::gen_roles`) or from numbers given in advance
  (`setup_from_draws`), both through the same code,
  `night.rs` wakes the roles on the first night and on every other night,
  `day.rs` runs a day (claims to slay, nominations, votes, executions),
  `rules.rs` holds what the information roles learn, and `laws.rs` proves what
  every night and day keep.
- `src/console.rs`: what the screen and the console read from the keyboard.
- `src/rng.rs`: the calls into `rand`.
- `app/`: the terminal front end (`ratatui`), a console front end, and seats
  played by the computer.

The players' side of the table is the `GrimIO` trait: the grimoire tells
players what they learn and asks them for their choices. Every call on it is
recorded, with the answer that came back, in the grimoire's ghost record of
the table talk (`Grimoir::talk`). The contracts of the first night, the other
nights and the day say which seats are told what and asked what, in which
order, and how each answer moves the game on: the day's talk either runs its
course (every seat settled) or fails on a named seat beyond the table, and
the call for nominations goes round the table seat by seat, from the first
seat or the seat after the last nominator, until it comes back. `Grimoir::win` may only be
called where this grimoire ends the game for that team (`game_won`: the
demon dead with no scarlet woman to take over, the imp's kill of another
player, two players left, or three with the mayor not executed today).
