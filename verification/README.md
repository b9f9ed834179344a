# akius

The rules of akiuS, a physics merge puzzle, as a Verus-verified library:
scoring, the weighted dispenser and order draws, order fulfillment, the loss
grace period, merge resolution (closest pair first), launcher control, replay
recording and drift correction, and the text of the heads-up display.

- `src/` is the verified library. Each public function carries a contract,
  and the laws that span functions are public proof functions (`lemma_*`).
- `tests/` runs the library on concrete values.
- `app/` is a headless runner on the game engine and the physics engine. It
  measures positions and distances and hands the library plain values.
