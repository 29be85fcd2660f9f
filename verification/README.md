# battleline_bot

A bot for the card game Battle Line. The library decides the bot's move from
the game state: which flag to play on and which card of its hand to play.

- `src/card.rs`: cards, colours, flag claims; counting and searching over cards.
- `src/formations.rs`: the formations a hand can complete on one flag
  (phalanx, battalion, wedge, skirmish line).
- `src/hand.rs`: the hand sorted stably by strength.
- `src/play.rs`: the choice of flag and card.
- `src/bot.rs`: the bot's answer written as a `play` command, and its name.
- `app/main.rs`: the program that talks to the game server through the
  battleline interface crate and asks the library for each move.
