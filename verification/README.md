# gpui_base

The text engine of a document view: a source text divided into regions with
their own edit policies, a projection of that source onto what is displayed,
and everything that the user, the platform's input and a host may do to it.
Every function of the library is verified with Verus.

- `src/text.rs`, `src/words.rs`: offsets, characters, lines and words of a text.
- `src/document/`: the document.
  - `position`, `region`, `transaction`, `projection`, `mapping`, `block`,
    `anchored_block`, `style`: what a document is made of.
  - `model*`: the document itself, its anchors and its selection.
  - `layout`, `resolve`: the rows and the styles that are shown.
  - `state*`, `splice*`: editing, undo, input, and changes of the host. What the
    view has to do is returned as a list of effects.
  - `state_paint`, `measure`: what measurements decide.
  - `*_laws`: what holds of every document.
- `src/editing/`: a set of selections.
- `src/sidebar.rs`, `src/actions.rs`: the logic of a sidebar menu, and an action.
- `app/`: the GPUI views.
- `tests/`: tests on concrete values.
