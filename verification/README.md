# visa_service

The decisions of a visa service, verified with Verus: which tokens and API keys are let
through, which attributes an actor has and for how long, who is connected where, and what
changes when a policy is installed.

## Layout

- `src/` is the library. Every public function states what it returns and what it changes,
  and Verus proves it.
  - `oidc/`: validation of id tokens, signing keys, and the store of admitted subjects.
  - `trusted_services/`: attribute services, their manager and their declarations.
  - `attr_server/`: an attribute server's data and its answers.
  - `protocol.rs`: what the two ends of the attribute protocol owe each other.
  - `db/`: addresses, connected actors, their services and host names.
  - `policy_mgr.rs`: installing policies.
  - `auth_sweep.rs`: dropping adapters whose authentication has expired.
  - `admin_apikeys.rs`, `apikey.rs`, `vsapikey.rs`: API keys of the administration
    interface.
  - `text.rs`, `json.rs`, `time.rs`, `sorted.rs`, `attribute.rs`, `actor.rs`, `policy.rs`,
    `http_util.rs`, `build_info.rs`, `error.rs`: what the others build on.
- `app/` is ordinary Rust around the library: the command line, files, HTTP, TLS, tasks.
- `tests/` runs the library.

Public functions named `law_...` are proofs of what holds across functions. What is taken
from outside crates without proof stands in functions marked `external_body`, each with a
comment that says what is claimed.
