# hero_bot

A bot that plays a turn-based arena game over a websocket. Each side has a few
heroes on a grid with walls; a hero moves one step of three units a turn or
shoots along a straight line. Everything the bot decides is a verified library;
a small program connects it to the game server.

## Layout

- `src/grid.rs`: blocks, walls, snapping, distances
- `src/route.rs`: breadth-first search; the next step of a shortest way
- `src/sight.rs`: Bresenham lines, line of sight, threats
- `src/tactics.rs`: what one hero does about one enemy
- `src/targets.rs`: rally points and points of attack
- `src/turn.rs`: phases, the common target, the orders of a turn
- `src/bot.rs`: the bot's memory and its answers to the server
- `src/protocol.rs`: the records of the protocol
- `src/message.rs`: the texts of the messages
- `src/json.rs`: the boundary to `serde_json`, the only code that is trusted
- `app/`: the websocket, parsing and printing
- `tests/`: the library on concrete values

## What is proved

Contracts give each result exactly, over mathematical integers, and no function
of the library overflows or panics. The `law_` functions state what holds of
several of them together: that a hero which keeps taking the next step arrives,
that lines are connected and stay within half a unit of the ideal one, that a
hero shoots exactly when it can, that phases only advance, that every order can
be carried out, and that what the bot remembers fits together.
