# course_projects

Verified logic of three course projects, written in Verus.

- `src/dataset.rs`, `src/query.rs`: datasets of typed columns and rows, and queries
  (a filter condition, a grouping column, an aggregation).
- `src/analytics.rs`: filtering, grouping, aggregation and whole queries, each with a contract
  over a mathematical model of datasets; checks that say in advance whether a query can run;
  laws of filtering, grouping and counting.
- `src/query_parser.rs`: the tokenizer and recursive-descent parser of query strings such as
  `FILTER (section == "A1" OR section == "B1") GROUP BY section AVERAGE grade`, specified by a
  grammar over token sequences.
- `src/server.rs`: what the analytics server answers to each call.
- `src/chatbot.rs`: the decisions of the chat service (which session answers, the session's file
  name, the history a user sees).
- `src/tic_tac_toe.rs`: the board evaluation, move ordering and one level of the alpha-beta
  search of the tic-tac-toe agent, with laws of symmetry and of the search.

`app/` holds the programs around the library: the query client, the RPC interface and server,
the chatbot over its language model and files, and the agent that drives the game board.
