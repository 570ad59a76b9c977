# llmkeyrotator

The verified core of a proxy that speaks the OpenAI and the Anthropic format to its
clients and rotates their requests over a list of providers. `src/` is a Verus
library, `app/` the server around it.

| Module | What it holds |
|--------|---------------|
| `json`, `codec` | JSON values, and how `serde_json` reads and writes them |
| `text` | texts: trimming, prefixes, joining |
| `anthropic::request`, `anthropic::response` | requests and responses between the two formats |
| `anthropic::sse` | chunks of an OpenAI stream to events of an Anthropic stream |
| `anthropic::order`, `anthropic::content` | that the events are in order, and say what the chunks say |
| `anthropic::cache` | cache marks on a request |
| `compress` | the hint that asks for short replies |
| `stream` | lines of a stream that comes in pieces, and what goes out for them |
| `state` | the providers, which is asked next, and what is counted |
| `exchange` | one request: whom to ask, when to ask again, when to give up |
| `headers` | the headers of a request |
| `forward` | what is sent to a provider: where to, with which headers and which body |
| `reply` | who is let in, and the answers of the proxy itself |
| `config` | the settings |

A contract speaks of `JsonView`, `AppStateView` and the like, which are what the
executable values stand for. Each module states its laws as public proof functions.

## Settings

| Variable | Default | Meaning |
|----------|---------|---------|
| `CSV_PATH` | `$HOME/code/freellmkeys.csv` | the file of the providers: name, base_url, model, api_key |
| `BASE_URL` | `http://0.0.0.0:3001/v1` | where to listen |
| `API_KEY` | none | the key that clients have to show as a bearer token |
| `REQUEST_TIMEOUT` | 60 | seconds that a provider has to answer |
| `USE_CUSTOM_DNS` | unset | ask public name servers |
| `RUST_LOG` | `llmkeyrotator=info` | what is logged |

`--cache` sets cache marks on Anthropic requests, `--compress` asks for short replies.
