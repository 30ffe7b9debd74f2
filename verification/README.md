# roflow

A tool that turns a folder of Luau scripts and Roblox models into a Rojo
`default.project.json`, with the logic written in Verus and verified.

- `src/` is the verified library: which files are scripts and which stand for
  their folder, the depth-first scan of the source folder, where a word or a
  name's ending routes a script, where a script lands in the project tree,
  the project file's JSON text (made by `serde_json`), reading
  `.roflow.json` (parsed by `serde_json`) into its fields, the
  configuration's defaults and aliases, the command line, which programs
  `serve` tries for Rojo, and the install decisions.
- `app/main.rs` is the command itself: it lists folders, reads files,
  writes the project file, watches the source folder, starts
  processes and runs PowerShell, calling the library for the decisions
  listed above (it lists each folder that the scan asks for).
- `tests/` exercises the library on concrete inputs.

Commands: `init`, `build`, `serve [--include-rojo]`, `install`.
