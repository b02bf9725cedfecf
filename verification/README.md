# diamond

Forecasts of MLB games: a schedule reader, chronological features, validation
forward in time, and a live panel.

The library under `src/` is verified with Verus. It works on plain values:
documents as trees, dates as texts and day numbers, shares and means as exact
fractions. Where a fractional number only passes through, its type is a parameter.

| Module | What it holds |
|---|---|
| `text`, `numbers`, `order` | order of strings, numbers as text, stable sorting |
| `big`, `single` | natural numbers of any size, and the numbers of single precision that decimal texts are rounded to |
| `json`, `node` | documents that are read, and documents that are published |
| `outside` | the calls into `serde_json`, `chrono` and `csv`, with what is believed of them |
| `mlb` | finished and scheduled games, the download cache, windows of days |
| `features`, `chronology` | the state of teams and pitchers, feature rows, and why no row knows the future |
| `grid`, `dataset` | the data set as comma-separated text, and back |
| `training` | shuffling, batches, early stopping, and which model is kept |
| `backtest`, `forward` | which games each model is trained and tested on, and why later games change no plan |
| `stats` | teams, hitters and pitchers of the season |
| `live`, `panel` | what a refresh does, and the document of the panel |
| `ui`, `cli` | the page, the replies of the server, the command line |

`app/` is the program around it: downloads, files, the server, the network and all
arithmetic in floating point (ratings, normalisation, metrics). The ratings are carried
from game to game there, so the two columns of a row that hold them are outside what
`chronology` proves; so is the normalisation, which is fitted to training rows only.

A row is read from what was known before its game: the columns cover the rating, the
record drawn towards one half, runs per game, the form of the last ten games, the
Pythagorean expectation, days of rest, the starting pitcher, and the record of each
team in the condition in which it plays.
