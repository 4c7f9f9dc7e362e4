# lib

Verified pieces of an ASS subtitle toolkit:

- `tags`: where a built-in color or alpha tag name ends before its unwrapped argument
  (`split_color_name`), and how an empty override (a backslash with no name) is
  stepped over on UTF-8 character boundaries without consuming a following tag's
  backslash (`empty_override`).
- `editor`: a document of UTF-8 text and four commands on the events of its
  `[Events]` section: delete one event, delete a batch of events, toggle events
  between `Dialogue` and `Comment`, and set, clear, append to or prepend to their
  effect field.

## Layout of `src/editor`

- `document.rs`: positions, ranges, results, errors, and the document with byte-level
  `replace` and `delete`.
- `lines.rs`: finding the events section and its event lines (`collect_event_lines`).
- `fields.rs`: splitting an event line into its type and ten fields
  (`parse_event_line`).
- `edits.rs`: applying several replacements, last first (`replace_spans`).
- `texts.rs`, `rewrites.rs`, `layout.rs`: what replacing or removing event lines does
  to the event texts, to where the event lines lie, and to the bytes around them.
- `commands/`: the commands, each `execute` with a contract over the document's bytes
  before and after, and the laws that relate them.

## Laws proved

- Toggling gives each selected event its toggled text and keeps every other byte;
  toggling the same events twice gives the script back byte for byte; toggling keeps
  every field of every event.
- Deleting an event removes exactly its text from the event texts; a batch keeps the
  texts of the events it does not list, ignores the order and repetition of its
  indices, and a batch of one does what a single delete does.
- Changing the effect (with no line feed) rewrites only the selected lines; with no
  comma either, each rewritten event reads back with the new effect and its other
  fields unchanged, and setting or clearing twice is like doing it once.
- `split_color_name` is idempotent and stops every built-in name before its argument;
  `empty_override` keeps its byte and character cursors in step and never passes a
  backslash.

The tests under `tests/` run the same functions on concrete scripts.
