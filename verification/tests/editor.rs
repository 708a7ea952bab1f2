use meshi::editor::{
    asset_matches, filter_assets, AssetBrowserState, AssetEntry, AssetFilter, DummyScriptProvider, EditorState,
    ProjectProvider, SceneNode, ScriptProvider, ScriptState,
};

#[test]
fn filter_labels() {
    assert_eq!(AssetFilter::All.label(), "All");
    assert_eq!(AssetFilter::Models.label(), "Models");
    assert_eq!(AssetFilter::Audio.label(), "Audio");
}

#[test]
fn editor_state_starts_with_sample_content() {
    let s = EditorState::new();
    assert_eq!(s.projects.len(), 2);
    assert_eq!(s.projects[1].name, "Sandbox");
    assert_eq!(s.scripts[1].errors.len(), 2);
    assert!(matches!(s.scripts[1].state, ScriptState::Failed));
    assert_eq!(s.asset_entries.len(), 5);
    assert_eq!(s.asset_metadata.tags, vec!["character", "biped", "hero"]);
    assert_eq!(s.scene_tree.name, "Root");
    assert_eq!(s.scene_tree.children[2].children[1].name, "Camera Pivot");
    let recent = s.recent_projects();
    assert_eq!(recent.len(), 2);
    assert_eq!(recent[0].path, "~/meshi/projects/new-prototype");
    assert_eq!(s.scripts().len(), 2);
    assert_eq!(s.empty_message(), "no scripts registered");
}

#[test]
fn dummy_provider_is_empty() {
    let p = DummyScriptProvider;
    assert!(p.scripts().is_empty());
    assert_eq!(p.empty_message(), "no scripts registered");
}

#[test]
fn scene_node_new() {
    let n = SceneNode::new("a".to_string(), vec![SceneNode::new("b".to_string(), vec![])]);
    assert_eq!(n.name, "a");
    assert_eq!(n.children.len(), 1);
}

#[test]
fn asset_filtering_by_type_and_query() {
    let s = EditorState::new();
    let all = AssetBrowserState { search: String::new(), filter: AssetFilter::All };
    assert_eq!(filter_assets(&s.asset_entries, &all), vec![0, 1, 2, 3, 4]);
    let models = AssetBrowserState { search: String::new(), filter: AssetFilter::Models };
    assert_eq!(filter_assets(&s.asset_entries, &models), vec![0]);
    let player = AssetBrowserState { search: "PLAYER".to_string(), filter: AssetFilter::All };
    assert_eq!(filter_assets(&s.asset_entries, &player), vec![0, 4]);
    let by_path = AssetBrowserState { search: "textures/".to_string(), filter: AssetFilter::All };
    assert_eq!(filter_assets(&s.asset_entries, &by_path), vec![1]);
    let none = AssetBrowserState { search: "zzz".to_string(), filter: AssetFilter::Scripts };
    assert!(filter_assets(&s.asset_entries, &none).is_empty());
}

#[test]
fn asset_type_matches_ignoring_ascii_case() {
    let asset = AssetEntry {
        name: "Rock".to_string(),
        asset_type: "models".to_string(),
        path: "a/b".to_string(),
        status: "Ready".to_string(),
        thumbnail_label: "OBJ".to_string(),
    };
    assert!(asset_matches(&asset, AssetFilter::Models, &String::new()));
    assert!(!asset_matches(&asset, AssetFilter::Textures, &String::new()));
    assert!(asset_matches(&asset, AssetFilter::Models, &"roc".to_string()));
}

#[test]
fn asset_query_must_occur_as_a_run() {
    let asset = AssetEntry {
        name: "Stone Wall".to_string(),
        asset_type: "TEXTURES".to_string(),
        path: "textures/stone_wall.png".to_string(),
        status: "Ready".to_string(),
        thumbnail_label: "PNG".to_string(),
    };
    assert!(asset_matches(&asset, AssetFilter::Textures, &"ne wa".to_string()));
    assert!(asset_matches(&asset, AssetFilter::All, &"wall.png".to_string()));
    assert!(!asset_matches(&asset, AssetFilter::All, &"stonewall".to_string()));
    assert!(!asset_matches(&asset, AssetFilter::Textures, &"stone wall.png".to_string()));
    assert!(!asset_matches(&asset, AssetFilter::Models, &String::new()));
}
