# waragent_simulation

A country-agent diplomacy simulation in the style of WarAgent (Hua et al.,
2024): anonymized countries of the First World War keep boards of their
relations (war, alliance, non-aggression, peace) and a mobilization state,
choose one action per round from a language model's answer, and the rounds
resolve those actions deterministically (delivery, treaties and war,
escalation through alliances, mobilization, memories, metrics).

The library in `src/` is written in Verus and verified: every function has
a contract over mathematical models (sequences, sets, relation matrices),
and the laws of the model are proof functions.

- `text`: string helpers (trimming, lower-casing, decimal notation, parsing).
- `board`: boards, the stick, and the context paragraph shown to a country.
- `world`: actions, events, countries, the world state.
- `config`: scenarios, triggers, stances, settings, the initial countries and treaties.
- `mechanisms`: the round's stages (situation, decision context, diplomacy,
  escalation, board update) and their laws.
- `partition`: alliance clusters by union-find.
- `metrics`: the integer metrics of a round and the historical references.
- `prompts`: the decision and secretary prompts and the parsing of answers.
- `simulation`: the run driver; the model's answers are handed in from outside.
- `record`, `commands`: names used when recording runs, and helpers of the
  command-line program (comma-separated values, label hash, scripted policy).

`app/` is the command-line program (`run`, `sweep`, `reproduce`): it asks
the model, computes the floating-point scores (alliance mutual information,
Jaccard indices) and records the runs.
