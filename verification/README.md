# Dozor

The watch that walks ahead of your registry. Dozor compiles the OSV advisory
feed, an inventory of what a registry holds and a policy into a blocklist that
NORA enforces at the door. Three files in, one file out, deterministic.

The library under `src/` is written in Verus: every function states what it
returns, and Verus proves it. The program under `app/` reads and writes files
and prints; it decides nothing.

| module | job |
|---|---|
| `vers` | version ranges: affected, not affected, or honestly unknown |
| `advisory`, `arena`, `index`, `room` | the feed, folded into one text arena and flat vectors |
| `inventory` | what the registry holds, from a data directory or a lockfile |
| `policy`, `date` | thresholds, the malicious switch, and exceptions that expire |
| `hits`, `builder` | the feed held against the inventory, and the rules that come of it |
| `blocklist`, `json`, `digest` | the file, its canonical form, and its check |
| `pipeline`, `report` | one run, and what is printed |
| `laws`, `outcome`, `recorded` | what holds of every build, and of every rule |
| `order`, `text` | texts: their order, sorting, and taking them apart |

`tests/` runs the library on concrete feeds, inventories and policies.

## Commands

```
dozor inventory  --nora-data DIR | --lockfile FILE   what the registry holds
dozor build      feed x inventory x policy -> blocklist.json
dozor verify     re-derive the digest from the file itself
dozor explain    what the feed says about one package version
dozor stats      index size and peak RSS, measured
```

Exit codes: `0` ok, `2` feed unreadable, `3` empty inventory, `4` expired
exception, `5` bad policy, `6` drift.

## What is taken on trust

The proofs rest on short contracts for calls into `semver` (which texts are
versions, and their order), `serde_json` (reading, walking, building and writing
JSON values), `sha2` (SHA-256) and the standard library (the clock, and
`String::push`). Each stands beside the call, with what it claims and what it
leaves unsaid.
