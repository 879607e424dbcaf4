# anaphor

A terminal context resolver: it reads a question (and piped input), lets
an LLM pick tools (web search, fetch a URL, read a local file), gathers the
results into a bounded context, and prints the model's answer rendered for
the terminal.

- `src/` is the library, written in Verus: configuration resolution
  (`config`), JSON values (`json`), tool-request parsing and chat replies
  (`llm`), the tools' argument handling, search-result and page reading and
  file-access decisions (`tools`), the context budget (`budget`), prompt
  building (`prompt`), terminal rendering (`render`), and the character-level
  string primitives they share (`text`). Every public function carries a
  contract that Verus proves. The few calls into `serde_json`, `html2text`
  and std that stand behind trusted wrappers (`json::serde_parse`,
  `tools::html_to_text`, `tools::to_lowercase`, and the specification of
  `String::push`) have contracts that are assumed, not proved. html2text is
  only asked to render pages whose every `colspan` is followed by a literal
  value below 10000 (`tools::admits_page`), since a huge column span makes
  its table layout overflow and panic; other pages count as unreadable.
- `app/main.rs` is the command: environment, standard input, HTTP and file
  access, and the calls into the library.
- `tests/` exercises the library on concrete values.
