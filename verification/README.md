# devflow

The logic of an editor's development workflow, verified with Verus: GitHub
review discussions placed on the code they are about, Git status, commits and
pushes, a Go test runner, and a debugger's variables, evaluations and launches.

`src/` is the library. Every function states what it returns or changes, and
Verus proves it. `app/` is the host's side in ordinary Rust: it runs programs,
reads files and repositories, and converts what other tools send. Where such work
and decisions alternate (a commit, a push, a reply), the library holds the order:
a function from stage and event to the next stage and action, over which `app/`
loops. `tests/` runs the library with the outside crates linked.

| Area | Modules |
| --- | --- |
| Discussions of a pull request | `review`, `threads`, `fetch`, `api`, `github`, `session`, `selection`, `discussions` |
| Their place on the code | `placement`, `mapping`, `rope`, `inline` |
| Replies | `replies`, `drafts`, `history` |
| Git | `git`, `status`, `worktree`, `commit`, `push`, `vcs`, `process` |
| Go tests | `discovery`, `cursor`, `gotest` |
| Debugging | `dap`, `launch`, `eval`, `seed`, `variables`, `decode`, `adapter`, `console` |
| Recent files | `recent` |
| Shared | `text`, `bytes`, `paths`, `order`, `json` |

Contracts speak of texts as sequences of characters. What the library has from
an outside crate stands behind a wrapper whose contract is believed, not proved:
its doc comment names the outside function and says what is claimed of it. Such
wrappers are in `api`, `bytes`, `cursor`, `github`, `gotest`, `inline`, `json`,
`placement`, `review` and `vcs`; `text` states the contract of `String::push` itself.

Properties of the library as a whole are public proof functions beside the
functions they are about, for example:

- `drafts::context_is_never_sent`: nothing below the separator of a draft is
  part of what is sent;
- `placement::untouched_lines_are_found_again`: a line that no change touches is
  carried to an equal line;
- `push::pushes_are_never_forced` and `push::remotes_are_never_options`;
- `commit::commits_follow_both_checks` and `push::pushes_follow_the_check`: Git is
  asked to commit or to push only after what it would act on was checked;
- `replies::replies_follow_the_check`: a reply that names commits is posted only
  after all of them were found in the head, or if it is forced;
- `mapping::exactly_placed_lines_are_unambiguous`: lines placed exactly in a changed
  document stand, with their context, nowhere else in the reviewed text;
- `review::delayed_results_are_rejected` and
  `session::blocks_of_an_older_text_are_rejected`;
- `inline::drawing_takes_the_reserved_rows`: what is drawn below the code takes
  the rows that the layout reserved;
- `discovery::patterns_tell_names_apart`: the pattern of one test never selects
  another.
