# rust_insight

Small programs' logic as a verified library, with the programs around it.

- `src/` — the library, verified with Verus:
  - `merge` — merging two integer sequences (sort, two-pointer merge);
  - `parenthesis` — bracket matching;
  - `library` — books and a bookshelf with fuzzy, exact and partial title search;
  - `calendar` — schedules added only without overlap, deleted by id;
  - `calc` — the words of calculator lines, and an expression parser with precedence and parentheses;
  - `poker` — deck, dealing, exchanging and judging a draw-poker hand;
  - `ledger` — monthly totals of an account book;
  - `todo` — the changes a to-do update form asks for;
  - `quiz` — an arithmetic quiz.
- `tests/` — tests of the library.
- `app/` — the programs: input and output, files, the web server, threads,
  and the floating-point arithmetic of the calculators.
