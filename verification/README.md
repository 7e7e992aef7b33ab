# hydra

The core of an LLM routing gateway, written in Verus. It decides; a shell around
it reads, sends and waits.

A request comes in for a domain. The gateway finds the tenant, takes the client's
key, asks the tenant's auth service, looks for the model in the first chunk of the
body, resolves the providers that may serve it, orders them by smooth weighted
round-robin, checks the limits, and sends the request to one provider after
another until one answers. On the way back it scans the response for token usage.

## Layout

`src/` is the verified library.

| module | what it holds |
| --- | --- |
| `model`, `config`, `rows`, `load` | entities, the configuration, database rows, and how one becomes the other |
| `scan`, `text`, `json`, `calendar` | searching bytes, cutting and building text, reading JSON objects, dates |
| `extract` | the model that a body names |
| `router`, `swrr`, `breaker` | candidates, their order, and who is left out |
| `rewrite`, `peer`, `provider_client` | upstream URLs, connections and requests |
| `sse` | token usage in a streamed response |
| `auth`, `limit`, `crypto` | auth verdicts, rate limits, sealed secrets |
| `ctx`, `proxy`, `filter`, `upstream` | the state of a request, and every decision on it |

Functions named `law_...` state what holds of the library as a whole.

What the library takes from other crates (`memchr`, `serde_json`, `aes-gcm`,
`base64`, `sha2`, `rand`) it calls through functions marked `external_body` or
described by `assume_specification`. Their contracts are believed, not proved; each
says in its comment what it claims.

`app/` is the server: Pingora, SQLite, HTTP, the environment. `tests/` runs the
library on concrete values.
