# velocity_code

The decisions of `vc`, a transactional edit, search and outline tool for source trees, as a
verified library. A plan is a content-addressed set of byte-exact edits. Applying one refuses
when any file is not as the plan recorded it, journals what it is about to change, and can be
undone byte for byte. Search, outline and read answer within a token budget and say what they
left out. The worktree doctor classifies linked git worktrees and changes none of them.

`src/` holds the logic, every function of it with a contract that Verus proves. It works on
plain values: file contents, directory listings and the replies of `git` come in as
arguments, and decisions, texts and bytes go out. Laws that span several functions are public
proof functions whose names start with `law_`.

| Module | What it is about |
|---|---|
| `resolve`, `plan` | placing edits, building and admitting plans |
| `apply`, `journal`, `crash`, `recover`, `lock`, `fault` | applying, undoing, crashes and recovery |
| `drift`, `scope`, `sites` | match plans: scope, sites, and what changed outside of a plan |
| `index`, `walk`, `root`, `paths` | the tree, its index and its root |
| `query`, `symbol_search`, `symbols`, `outline`, `reading`, `render`, `answers` | searching, outlining and reading |
| `worktree`, `gitbase`, `doctor`, `looking` | the worktree doctor |
| `metrics`, `tally`, `calendar` | usage records and the gain report |
| `verbs`, `steps`, `output`, `json`, `errors` | what the command line does in which order, and answers |
| `order`, `ordmap`, `strings`, `text`, `codec` | orders, sorted maps, texts, digests and encodings |

What is believed without proof is marked `external_body` or `assume_specification` and says
in its doc comment which outside function it stands for: hashing (`blake3`, `sha2`), base64,
byte search (`memchr`), regular expressions (`regex`), parsing Rust (`tree-sitter`), and a few
functions of the standard library on text.

`app/` is the program around the library: arguments, the file system, stored formats and
running `git`.
