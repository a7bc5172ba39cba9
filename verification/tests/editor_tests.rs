use tree_editor::editor::App;
use tree_editor::tree::{big_tree, Index};

#[test]
fn app_default_state() {
    let app = App::default();
    assert_eq!(app.root, big_tree(1, 20));
    assert_eq!(app.focus, Index(vec![]));
    assert!(app.root.is_index_in_bounds(&app.focus));
}
