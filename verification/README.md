# rankfide

A FIDE Elo rating calculator (the rating regulations effective from March
2024), written in Verus.

- `src/` is the verified library:
  - `decimal`: the fields of the two CSV tables, read by the grammar of
    `f32::from_str` and held as whole hundredths (a number that is not a whole
    number of hundredths, is infinite or NaN, or exceeds 21474836.47 is told
    apart from a field that is no number at all);
  - `csv_source`: the rows of a CSV table, read with the `csv` crate;
  - `table`: the rows, the probability table (expected scores by rating
    difference, 0 to 5000 points covered) and the table for players without a
    rating (rating difference by percentage score, 0 to 99 % covered);
  - `rating`: the K-factor, the checks on the entered games, the new rating of
    a rated player and the first rating of an unrated one, and their laws;
  - `text`: the texts shown for a calculation;
  - `worker`: reading both tables at start and answering the window's requests;
  - `screen`: what the window keeps and how it reacts to the background work.
- `app/` is the window (eframe/egui), the background thread and the file reads.
- `tests/` runs the library on concrete tables and games.

The program reads `probabilities.csv` and `initial.csv` from the working
directory. All numbers are held in hundredths, so every computation is exact.
A table holding a number outside that range is refused at start with its own
message.
