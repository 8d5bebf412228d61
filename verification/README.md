# bomber

The rules of a small bomb-laying maze game, verified with Verus.

- `src/grid.rs`: the board (11 x 13 tiles, stored row by row) and its starting layout.
- `src/entities.rs`: player, bombs, fire, enemies, power-ups; time constants in milliseconds.
- `src/chance.rs`: the dice; the only call into `macroquad` (its random generator).
- `src/blast.rs`: the blast of one bomb: fire rays, broken bricks, dropped power-ups.
- `src/bombs.rs`: laying bombs, fuses, chain reactions, fire dying down.
- `src/player.rs`, `src/enemies.rs`: walking, picking up power-ups, getting caught.
- `src/game.rs`: the whole game state, its invariant, and one frame of play.
- `src/board_laws.rs`: laws of blasts and chain reactions, used to keep the game invariant.
- `app/main.rs`: the window, keyboard, textures and drawing (macroquad).
