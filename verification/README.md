# bomber

The logic of a networked Bomberman client and its built-in bot, written in
Verus: every function under `src/` carries a contract that the verifier
proves, but for two small trusted wrappers around std whose contracts are
taken on trust: `text::push_char` (`String::push`) and
`lobby_status::string_from_utf8_lossy` (`String::from_utf8_lossy`).

- `src/` — the library: the lobby and uplink wire formats (`codec`,
  `lobby_status`, `endpoint`), the client's picture of a match (`world`,
  `frames`, `session`), the bot (`bot`, `driver`), keyboard steering
  (`input`), settings and command line (`settings`, `cli`, `text`), and the
  decisions behind the screens (`hints`, `screens`, `controls`, `board`,
  `sound`).
- `tests/` — the library's tests.
- `app/` — a headless client around the library: it reads the command line
  and the settings file, moves datagrams over UDP and keeps time, and leaves
  every decision to the library.
