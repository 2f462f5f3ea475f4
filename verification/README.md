# webmon

Polls web pages on a schedule, compares each against its last snapshot
through optional include/exclude regexes, and pushes a plain-text diff to an
ntfy server when the monitored text changes.

- `src/` is the verified library (Verus): configuration defaults, path
  resolution and validation (`config`, `paths`), the regex lens and change
  detection (`patterns`, `monitor`), diffs (`diff`), the notification
  request (`ntfy`), the run state and its plain-text file format (`state`,
  `state_format`, `text`), and the decisions of a pass (`schedule`).
- `app/` is the program around it: command line, TOML parsing, logging,
  HTTP requests and file I/O.
- `tests/` exercises the library on concrete values.
