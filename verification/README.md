# tactical

The decision logic of a turn-based hex wargame: fire phases and routs, a
planner that plays sixteen tactic cards, and the deployment of a side before
the battle.

- `src/` is the library. Every function states what it returns, and Verus
  proves it, with three exceptions: the `FromStr` impl of the cards states
  nothing (the method `from_str` that it calls does), and what the standard
  library's `trim` and `to_ascii_lowercase` return, behind `trim_text` and
  `lower_text`, is believed. Damage, travel times and other floating-point
  quantities are not reckoned here: the library asks for them, and plans or
  resolves once it has been told.
- `app/` joins the library to the game core: it converts battalions and maps,
  answers what the library asks, and runs each request to its end.
- `tests/` plays whole turns, fire phases and deployments.

| module | what it holds |
| --- | --- |
| `hex`, `grid`, `unit`, `tactic` | hexes, maps, battalions and cards |
| `pick` | first matches, least keys and stable rankings |
| `retreat` | routs and their way off the battle |
| `fire`, `settle`, `combat` | fire phases and turn ends |
| `turn`, `action` | what a planner sees, asks and proposes |
| `role`, `goal`, `march`, `assault`, `barrage`, `duty` | the parts of a decision |
| `planner`, `ai`, `doctrine`, `inquiry` | whole plans, and what holds of all of them |
| `formation`, `deploy`, `muster` | deployments, and what holds of all of them |
