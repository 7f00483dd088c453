# dialoguer

Dialogue scripts for Live2D scenes, with the logic proved by Verus.

The library (`src/`) holds:

- `text`, `script`: the script dialect of the scene player: a lexer from
  text to tokens and a parser from tokens to conversations and choicers.
- `dialog::parser`, `dialog::manager`: the dialect of the dialog editor,
  the manager that indexes dialogs by name, and the dialog player, a state
  machine that walks a dialog and returns the actions (text to show,
  parameters to set, timers, motions) for the caller to carry out.
- `scene_dialog`: the scene's manager, which requires its fixed dialogs,
  and its player.
- `conversation_builder`: parses a token list into dialogs.
- `editor::timeline`: a conversation's timeline of speaker containers and
  event blocks, and its export to a dialog.
- `editor::graph`: the editor's graph of conversation and choicer nodes,
  with links, flow links and an undo-redo history (through the `undoredo`
  crate), its construction from a dialog manager (nodes in the natural order
  of `natord`), the export of the dialogs reachable from a node, and the
  grouping and walk order of nodes for laying them out.
- `editor::link_history`: why no two links of a kind share an id, whatever
  edits, undos and redos come in turn.
- `clipping`: the grouping of masked drawables into clipping contexts and
  their layout on the mask textures' channels.
- `astc`: the header of ASTC texture files.

Each public function states what it returns or changes; the laws that
relate several calls (undo after an edit gives back the graph, redo after
undo gives back the edit, the player's state stays valid, every clipping
context in use gets its own cell) are proof functions next to the code.

`app/` is a console scene player around the library: it reads the dialog
and parameter files, performs the player's actions on floating-point
animation parameters and reads keys from standard input.

`tests/` exercises the library on concrete scripts, graphs and layouts.
