# ward

A passphrase prompt for `gpg-agent`, and nothing else.

In a lock, the *wards* are the obstructions the wrong key cannot pass. That is what this is:
the thing standing between a key and the secrets it opens, whose only job is to ask. It keeps
nothing, and it counts characters, not bytes.

The library under `src/` is written in Verus: what each function does is stated in its
contract and proved, and what holds of the program as a whole is stated in the public proof
functions whose names begin with `law_`.

| module       | what it decides                                                          |
|--------------|--------------------------------------------------------------------------|
| `assuan`     | the line protocol: escapes, replies, the lines that carry a passphrase   |
| `server`     | what the agent's commands mean and what they are answered                |
| `conversation` | a whole conversation: what is read, answered and written down          |
| `secret`     | the buffer a passphrase lives in                                         |
| `ui`         | which front-end is used                                                  |
| `ui::entry`  | what typing does to the buffer, and to the one for its repetition        |
| `ui::tty`    | the prompts on a terminal: what is drawn, what each byte means           |
| `ui::gui`    | the prompts in a window: lines, sizes, places, pixels, strokes           |
| `theme`      | the generated palette                                                    |
| `install`    | the one line of `gpg-agent.conf`                                         |
| `args`       | the command line                                                         |
| `harden`     | what is reported of the process's hardening and of swap                  |
| `paths`, `table`, `text`, `unicode` | what the others are built from                    |

The program under `app/` does what the library decides: it maps and locks memory, opens the
terminal and the window, rasterises glyphs, and moves bytes between the agent and the library.
