# fingerjoin

WebFinger aggregation for Kubernetes. Several applications on one domain answer
WebFinger queries (RFC 7033), but the domain has only one place to ask:
`/.well-known/webfinger`. fingerjoin serves that path, asks every application
that a Service annotation registers, and merges what comes back into one
document.

`src/` is the library, verified with Verus:

| Module | What it holds |
|---|---|
| `k8s` | Services and the backends they become |
| `watch` | following the Services as they change, and the shared list of backends |
| `query` | the query that a backend is sent, and what it reads out of it |
| `backend` | backends, their URLs, the verdict on each answer, the tally |
| `webfinger` | JRD documents: merging by priority, filtering by relation type |
| `http` | reading a query, whom to ask, what to answer, health and readiness |
| `error` | what goes wrong and the HTTP reply to it |
| `config` | settings from the environment |
| `url_text` | the calls into the `url` crate, and what is taken for granted of it |
| `text`, `members` | texts, numbers in them, and maps from names to values |

Contracts speak of views: `String` is `Seq<char>`, `Members` is a `Map`, and each
type has a view of its own. What holds across functions is stated as public proof
functions whose names begin with `law_`. Trusted are the calls in `url_text`, the
declaration of `serde_json::Value` in `webfinger`, and `String::push` in `text`.

`app/` is the server around it: environment, the Kubernetes watch, HTTP client and
listener, and the JSON form of the documents.

| Variable | Default | Meaning |
|---|---|---|
| `CLUSTER_DOMAIN` | `cluster.local` | Cluster DNS domain in backend host names |
| `PORT` | `8080` | Port to listen on |
| `RUST_LOG` | `info` | Log filter |
| `LOG_FORMAT` | text | `json` for JSON logs |
| `EXTRA_CA_CERTS` | | PEM bundle of further CA certificates to trust |

| Service annotation | Default | Meaning |
|---|---|---|
| `fingerjoin.naktis.eu/webfinger` | | `true` registers the Service |
| `fingerjoin.naktis.eu/https` | `false` | Talk to it over HTTPS |
| `fingerjoin.naktis.eu/port` | | The port to use, by name |
| `fingerjoin.naktis.eu/priority` | `50` | On conflicts in the merge the higher value wins |
