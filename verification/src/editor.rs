use vstd::prelude::*;

verus! {

/// Which assets the asset browser shows.
#[derive(Debug, Clone, Copy, PartialEq, Eq, Structural)]
pub enum AssetFilter {
    All,
    Models,
    Textures,
    Materials,
    Scripts,
    Audio,
}

impl AssetFilter {
    pub open spec fn spec_label(self) -> Seq<char> {
        match self {
            AssetFilter::All => "All"@,
            AssetFilter::Models => "Models"@,
            AssetFilter::Textures => "Textures"@,
            AssetFilter::Materials => "Materials"@,
            AssetFilter::Scripts => "Scripts"@,
            AssetFilter::Audio => "Audio"@,
        }
    }

    /// The filter's name, as shown on its button and as asset types spell it.
    pub fn label(self) -> (s: &'static str)
        ensures
            s@ == self.spec_label(),
            self == AssetFilter::All ==> s@ == "All"@,
            self == AssetFilter::Models ==> s@ == "Models"@,
            self == AssetFilter::Textures ==> s@ == "Textures"@,
            self == AssetFilter::Materials ==> s@ == "Materials"@,
            self == AssetFilter::Scripts ==> s@ == "Scripts"@,
            self == AssetFilter::Audio ==> s@ == "Audio"@,
    {
        match self {
            AssetFilter::All => "All",
            AssetFilter::Models => "Models",
            AssetFilter::Textures => "Textures",
            AssetFilter::Materials => "Materials",
            AssetFilter::Scripts => "Scripts",
            AssetFilter::Audio => "Audio",
        }
    }
}

#[derive(Debug, Clone)]
pub struct AssetEntry {
    pub name: String,
    pub asset_type: String,
    pub path: String,
    pub status: String,
    pub thumbnail_label: String,
}

#[derive(Debug, Clone)]
pub struct ImportJob {
    pub source_file: String,
    pub asset_name: String,
    pub asset_type: String,
    pub status: String,
    pub last_imported: String,
}

#[derive(Debug, Clone)]
pub struct AssetMetadata {
    pub asset_name: String,
    pub source_file: String,
    pub import_preset: String,
    pub vertex_count: String,
    pub material_count: String,
    pub tags: Vec<String>,
}

/// The asset browser's search text and type filter.
pub struct AssetBrowserState {
    pub search: String,
    pub filter: AssetFilter,
}

/// What `str::to_lowercase` makes of a text.
pub uninterp spec fn lowercase_of(s: Seq<char>) -> Seq<char>;

/// `s` with its text lower-cased (Unicode lower case).
#[verifier::external_body]
fn lowercase(s: &str) -> (r: String)
    ensures
        r@ == lowercase_of(s@),
{
    s.to_lowercase()
}

/// `needle` occurs in `haystack` as a run of consecutive characters.
pub open spec fn has_substring(haystack: Seq<char>, needle: Seq<char>) -> bool {
    exists|i: int| 0 <= i && i + needle.len() <= haystack.len() && #[trigger] haystack.subrange(i, i + needle.len()) == needle
}

/// The characters of `s`, in order.
fn chars_of(s: &str) -> (v: Vec<char>)
    ensures
        v@ == s@,
{
    let n = s.unicode_len();
    let mut v: Vec<char> = Vec::new();
    let mut i: usize = 0;
    while i < n
        invariant
            n == s@.len(),
            i <= n,
            v@ == s@.subrange(0, i as int),
        decreases n - i,
    {
        v.push(s.get_char(i));
        i += 1;
        proof {
            assert(v@ =~= s@.subrange(0, i as int));
        }
    }
    proof {
        assert(v@ =~= s@);
    }
    v
}

/// Whether `needle` occurs in `haystack` at position `at`.
fn occurs_at(haystack: &Vec<char>, needle: &Vec<char>, at: usize) -> (b: bool)
    requires
        at + needle@.len() <= haystack@.len(),
    ensures
        b == (haystack@.subrange(at as int, at + needle@.len()) == needle@),
{
    let len = haystack.len();
    let mut k: usize = 0;
    while k < needle.len()
        invariant
            len == haystack@.len(),
            at + needle@.len() <= haystack@.len(),
            k <= needle@.len(),
            forall|j: int| 0 <= j < k ==> haystack@[at + j] == needle@[j],
        decreases needle@.len() - k,
    {
        if haystack[at + k] != needle[k] {
            proof {
                assert(haystack@.subrange(at as int, at + needle@.len())[k as int] != needle@[k as int]);
            }
            return false;
        }
        k += 1;
    }
    proof {
        assert(haystack@.subrange(at as int, at + needle@.len()) =~= needle@);
    }
    true
}

/// Whether `needle` occurs in `haystack`.
fn text_contains(haystack: &str, needle: &str) -> (b: bool)
    ensures
        b == has_substring(haystack@, needle@),
{
    let h = chars_of(haystack);
    let n = chars_of(needle);
    if n.len() > h.len() {
        return false;
    }
    let last = h.len() - n.len();
    let mut at: usize = 0;
    loop
        invariant
            h@ == haystack@,
            n@ == needle@,
            last == h@.len() - n@.len(),
            at <= last,
            forall|i: int| 0 <= i < at ==> #[trigger] haystack@.subrange(i, i + needle@.len()) != needle@,
        decreases last - at,
    {
        if occurs_at(&h, &n, at) {
            proof {
                assert(haystack@.subrange(at as int, at + needle@.len()) == needle@);
            }
            return true;
        }
        if at == last {
            return false;
        }
        at += 1;
    }
}

/// A character with ASCII upper-case letters turned into lower case.
pub open spec fn ascii_lower(c: char) -> char {
    if 'A' <= c && c <= 'Z' { ((c as u32) + 32) as char } else { c }
}

/// The two texts are equal when ASCII letters are compared without case.
pub open spec fn equal_ignoring_ascii_case(a: Seq<char>, b: Seq<char>) -> bool {
    a.map_values(|c: char| ascii_lower(c)) == b.map_values(|c: char| ascii_lower(c))
}

/// The character `c` with an ASCII upper-case letter made lower case.
fn to_ascii_lower(c: char) -> (r: char)
    ensures
        r == ascii_lower(c),
{
    if 'A' <= c && c <= 'Z' {
        ((c as u8) + 32) as char
    } else {
        c
    }
}

/// Whether `a` and `b` are equal when ASCII letters are compared without case.
fn text_eq_ignore_ascii_case(a: &str, b: &str) -> (r: bool)
    ensures
        r == equal_ignoring_ascii_case(a@, b@),
{
    let x = chars_of(a);
    let y = chars_of(b);
    let ghost la = a@.map_values(|c: char| ascii_lower(c));
    let ghost lb = b@.map_values(|c: char| ascii_lower(c));
    if x.len() != y.len() {
        proof {
            assert(la.len() != lb.len());
        }
        return false;
    }
    let mut i: usize = 0;
    while i < x.len()
        invariant
            x@ == a@,
            y@ == b@,
            x@.len() == y@.len(),
            i <= x@.len(),
            forall|j: int| 0 <= j < i ==> la[j] == lb[j],
            la == a@.map_values(|c: char| ascii_lower(c)),
            lb == b@.map_values(|c: char| ascii_lower(c)),
        decreases x@.len() - i,
    {
        if to_ascii_lower(x[i]) != to_ascii_lower(y[i]) {
            proof {
                assert(la[i as int] != lb[i as int]);
            }
            return false;
        }
        i += 1;
    }
    proof {
        assert(la =~= lb);
    }
    true
}

/// Whether the browser shows `asset` for the filter and the lower-cased
/// search text `query`: its type matches the filter (any type for `All`),
/// and the query is empty or occurs in its lower-cased name or path.
pub open spec fn asset_shown(asset: AssetEntry, filter: AssetFilter, query: Seq<char>) -> bool {
    &&& (filter == AssetFilter::All || equal_ignoring_ascii_case(asset.asset_type@, filter.spec_label()))
    &&& (query.len() == 0 || has_substring(lowercase_of(asset.name@), query) || has_substring(
        lowercase_of(asset.path@),
        query,
    ))
}

/// Whether `asset` passes the filter and the lower-cased query.
pub fn asset_matches(asset: &AssetEntry, filter: AssetFilter, query: &String) -> (b: bool)
    ensures
        b == asset_shown(*asset, filter, query@),
{
    let matches_filter = match filter {
        AssetFilter::All => true,
        _ => text_eq_ignore_ascii_case(asset.asset_type.as_str(), filter.label()),
    };
    let matches_query = query.as_str().is_empty() || text_contains(lowercase(asset.name.as_str()).as_str(), query.as_str())
        || text_contains(lowercase(asset.path.as_str()).as_str(), query.as_str());
    matches_filter && matches_query
}

/// The positions, in order, of the assets the browser shows for its state.
pub fn filter_assets(assets: &Vec<AssetEntry>, state: &AssetBrowserState) -> (shown: Vec<usize>)
    ensures
        forall|k: int| 0 <= k < shown@.len() ==> (shown@[k] as int) < assets@.len(),
        forall|k: int, l: int| 0 <= k < l < shown@.len() ==> shown@[k] < shown@[l],
        forall|i: int| 0 <= i < assets@.len() ==> (shown@.contains(i as usize)
            <==> asset_shown(assets@[i], state.filter, lowercase_of(state.search@))),
{
    let query = lowercase(state.search.as_str());
    let mut shown: Vec<usize> = Vec::new();
    let mut i: usize = 0;
    while i < assets.len()
        invariant
            i <= assets@.len(),
            query@ == lowercase_of(state.search@),
            forall|k: int| 0 <= k < shown@.len() ==> (shown@[k] as int) < i,
            forall|k: int, l: int| 0 <= k < l < shown@.len() ==> shown@[k] < shown@[l],
            forall|j: int| 0 <= j < i ==> (shown@.contains(j as usize) <==> asset_shown(assets@[j], state.filter, query@)),
        decreases assets@.len() - i,
    {
        let ghost before = shown@;
        if asset_matches(&assets[i], state.filter, &query) {
            shown.push(i);
            proof {
                assert forall|j: int| 0 <= j < i + 1 implies (shown@.contains(j as usize) <==> asset_shown(assets@[j], state.filter, query@)) by {
                    if j < i {
                        if before.contains(j as usize) {
                            let k = choose|k: int| 0 <= k < before.len() && before[k] == j as usize;
                            assert(shown@[k] == j as usize);
                        }
                        if shown@.contains(j as usize) {
                            let k = choose|k: int| 0 <= k < shown@.len() && shown@[k] == j as usize;
                            assert(k < before.len());
                        }
                    } else {
                        assert(shown@[shown@.len() - 1] == i);
                    }
                }
            }
        } else {
            proof {
                assert(!shown@.contains(i));
            }
        }
        i += 1;
    }
    shown
}


/// A text made from a string slice.
fn text(s: &str) -> (r: String)
    ensures
        r@ == s@,
{
    String::from_str(s)
}

#[derive(Debug, Clone)]
pub struct ProjectSummary {
    pub name: String,
    pub path: String,
    pub last_opened: String,
}

impl ProjectSummary {
    /// A copy of the summary.
    pub fn duplicate(&self) -> (r: ProjectSummary)
        ensures
            r.name@ == self.name@,
            r.path@ == self.path@,
            r.last_opened@ == self.last_opened@,
    {
        ProjectSummary { name: self.name.clone(), path: self.path.clone(), last_opened: self.last_opened.clone() }
    }
}

/// Supplies the projects that the project panel lists.
pub trait ProjectProvider {
    fn recent_projects(&self) -> Vec<ProjectSummary>;
}

/// Where a script is in its life.
#[derive(Debug, Clone, Copy, PartialEq, Eq, Structural)]
pub enum ScriptState {
    Idle,
    Running,
    Failed,
}

#[derive(Debug, Clone)]
pub struct ScriptStatus {
    pub name: String,
    pub state: ScriptState,
    pub last_run_ms: Option<u128>,
    pub errors: Vec<String>,
}

fn duplicate_texts(v: &Vec<String>) -> (r: Vec<String>)
    ensures
        r@.len() == v@.len(),
        forall|i: int| 0 <= i < v@.len() ==> r@[i]@ == v@[i]@,
{
    let mut r: Vec<String> = Vec::new();
    let mut i: usize = 0;
    while i < v.len()
        invariant
            i <= v@.len(),
            r@.len() == i,
            forall|j: int| 0 <= j < i ==> r@[j]@ == v@[j]@,
        decreases v@.len() - i,
    {
        r.push(v[i].clone());
        i += 1;
    }
    r
}

impl ScriptStatus {
    /// A copy of the status.
    pub fn duplicate(&self) -> (r: ScriptStatus)
        ensures
            r.name@ == self.name@,
            r.state == self.state,
            r.last_run_ms == self.last_run_ms,
            r.errors@.len() == self.errors@.len(),
            forall|i: int| 0 <= i < self.errors@.len() ==> r.errors@[i]@ == self.errors@[i]@,
    {
        ScriptStatus {
            name: self.name.clone(),
            state: self.state,
            last_run_ms: self.last_run_ms,
            errors: duplicate_texts(&self.errors),
        }
    }
}

/// Supplies the scripts that the script panel lists, and what it shows when
/// there are none.
pub trait ScriptProvider {
    fn scripts(&self) -> Vec<ScriptStatus>;

    fn empty_message(&self) -> &'static str;
}

/// A script provider with no scripts.
pub struct DummyScriptProvider;

impl ScriptProvider for DummyScriptProvider {
    fn scripts(&self) -> (v: Vec<ScriptStatus>)
        ensures
            v@.len() == 0,
    {
        Vec::new()
    }

    fn empty_message(&self) -> (s: &'static str)
        ensures
            s@ == "no scripts registered"@,
    {
        "no scripts registered"
    }
}

/// A node of the editor's scene outline.
pub struct SceneNode {
    pub name: String,
    pub children: Vec<SceneNode>,
}

impl SceneNode {
    pub fn new(name: String, children: Vec<SceneNode>) -> (n: SceneNode)
        ensures
            n.name == name,
            n.children == children,
    {
        SceneNode { name, children }
    }
}

fn leaf(name: &str) -> (n: SceneNode)
    ensures
        n.name@ == name@,
        n.children@.len() == 0,
{
    SceneNode::new(text(name), Vec::new())
}

/// The editor's model: projects, scripts, assets, imports, the selected
/// asset's metadata and the scene outline.
pub struct EditorState {
    pub projects: Vec<ProjectSummary>,
    pub scripts: Vec<ScriptStatus>,
    pub asset_entries: Vec<AssetEntry>,
    pub import_jobs: Vec<ImportJob>,
    pub asset_metadata: AssetMetadata,
    pub scene_tree: SceneNode,
}

fn asset(name: &str, asset_type: &str, path: &str, status: &str, thumbnail_label: &str) -> (a: AssetEntry)
    ensures
        a.name@ == name@,
        a.asset_type@ == asset_type@,
        a.path@ == path@,
        a.status@ == status@,
        a.thumbnail_label@ == thumbnail_label@,
{
    AssetEntry {
        name: text(name),
        asset_type: text(asset_type),
        path: text(path),
        status: text(status),
        thumbnail_label: text(thumbnail_label),
    }
}

fn import_job(source_file: &str, asset_name: &str, asset_type: &str, status: &str, last_imported: &str) -> (j: ImportJob)
    ensures
        j.source_file@ == source_file@,
        j.asset_name@ == asset_name@,
        j.asset_type@ == asset_type@,
        j.status@ == status@,
        j.last_imported@ == last_imported@,
{
    ImportJob {
        source_file: text(source_file),
        asset_name: text(asset_name),
        asset_type: text(asset_type),
        status: text(status),
        last_imported: text(last_imported),
    }
}

/// The asset entry reads as the given texts.
pub open spec fn asset_reads(a: AssetEntry, name: &str, asset_type: &str, path: &str, status: &str, thumbnail_label: &str) -> bool {
    &&& a.name@ == name@
    &&& a.asset_type@ == asset_type@
    &&& a.path@ == path@
    &&& a.status@ == status@
    &&& a.thumbnail_label@ == thumbnail_label@
}

/// The import job reads as the given texts.
pub open spec fn job_reads(j: ImportJob, source_file: &str, asset_name: &str, asset_type: &str, status: &str, last_imported: &str) -> bool {
    &&& j.source_file@ == source_file@
    &&& j.asset_name@ == asset_name@
    &&& j.asset_type@ == asset_type@
    &&& j.status@ == status@
    &&& j.last_imported@ == last_imported@
}

/// The scene node is a leaf with the given name.
pub open spec fn leaf_named(n: SceneNode, name: &str) -> bool {
    n.name@ == name@ && n.children@.len() == 0
}

/// The filter that the sample asset at position `i` of the editor's
/// initial asset list belongs to.
pub open spec fn sample_filter(i: int) -> AssetFilter {
    if i == 0 {
        AssetFilter::Models
    } else if i == 1 {
        AssetFilter::Textures
    } else if i == 2 {
        AssetFilter::Materials
    } else if i == 3 {
        AssetFilter::Audio
    } else {
        AssetFilter::Scripts
    }
}

/// With no search text, the asset browser shows under each type filter
/// exactly the assets whose type is that filter's type name: of five assets
/// typed "Models", "Textures", "Materials", "Audio" and "Scripts" (the
/// editor's initial list), each filter but `All` shows the one of its type,
/// and `All` shows them all.
pub proof fn lemma_filters_match_type_names(assets: Seq<AssetEntry>)
    requires
        assets.len() == 5,
        assets[0].asset_type@ == "Models"@,
        assets[1].asset_type@ == "Textures"@,
        assets[2].asset_type@ == "Materials"@,
        assets[3].asset_type@ == "Audio"@,
        assets[4].asset_type@ == "Scripts"@,
    ensures
        forall|f: AssetFilter, i: int| 0 <= i < 5 ==> (#[trigger] asset_shown(assets[i], f, Seq::empty())
            <==> (f == AssetFilter::All || f == sample_filter(i))),
{
    reveal_strlit("Models");
    reveal_strlit("Textures");
    reveal_strlit("Materials");
    reveal_strlit("Audio");
    reveal_strlit("Scripts");
    assert forall|f: AssetFilter, i: int| 0 <= i < 5 implies (#[trigger] asset_shown(assets[i], f, Seq::empty())
        <==> (f == AssetFilter::All || f == sample_filter(i))) by {
        if f != AssetFilter::All {
            let a = assets[i].asset_type@.map_values(|c: char| ascii_lower(c));
            let b = f.spec_label().map_values(|c: char| ascii_lower(c));
            if f == sample_filter(i) {
                assert(assets[i].asset_type@ == f.spec_label());
            } else {
                assert(assets[i].asset_type@.len() != f.spec_label().len());
                assert(a.len() != b.len());
            }
        }
    }
}

impl EditorState {
    /// The editor as it opens: two recent projects, two scripts (one running,
    /// one failed with two errors), five assets, two queued imports, the
    /// player model's metadata, and a scene outline rooted at "Root".
    pub fn new() -> (s: EditorState)
        ensures
            s.projects@.len() == 2,
            s.projects@[0].name@ == "New Prototype"@,
            s.projects@[0].path@ == "~/meshi/projects/new-prototype"@,
            s.projects@[0].last_opened@ == "Today"@,
            s.projects@[1].name@ == "Sandbox"@,
            s.projects@[1].path@ == "~/meshi/projects/sandbox"@,
            s.projects@[1].last_opened@ == "Yesterday"@,
            s.scripts@.len() == 2,
            s.scripts@[0].name@ == "player_controller.rs"@,
            s.scripts@[0].state == ScriptState::Running,
            s.scripts@[0].last_run_ms == Some(1625u128),
            s.scripts@[0].errors@.len() == 0,
            s.scripts@[1].name@ == "environment_fx.rs"@,
            s.scripts@[1].state == ScriptState::Failed,
            s.scripts@[1].last_run_ms == Some(2310u128),
            s.scripts@[1].errors@.len() == 2,
            s.scripts@[1].errors@[0]@ == "error: missing import `meshi_fx`"@,
            s.scripts@[1].errors@[1]@ == "error: compilation aborted"@,
            s.asset_entries@.len() == 5,
            asset_reads(s.asset_entries@[0], "Player", "Models", "Assets/Models/player.fbx", "Imported", "FBX"),
            asset_reads(s.asset_entries@[1], "Hero Texture", "Textures", "Assets/Textures/hero_albedo.png", "Ready", "PNG"),
            asset_reads(s.asset_entries@[2], "Starter Material", "Materials", "Assets/Materials/starter.mat", "Linked", "MAT"),
            asset_reads(s.asset_entries@[3], "Wind Loop", "Audio", "Assets/Audio/wind_loop.ogg", "Streaming", "OGG"),
            asset_reads(
                s.asset_entries@[4],
                "Player Controller",
                "Scripts",
                "Assets/Scripts/player_controller.rs",
                "Compiled",
                "RS",
            ),
            s.import_jobs@.len() == 2,
            job_reads(s.import_jobs@[0], "~/Downloads/robot.glb", "Robot", "Models", "Waiting", "Never"),
            job_reads(s.import_jobs@[1], "~/Downloads/terrain_albedo.tif", "Terrain Albedo", "Textures", "Queued", "2 days ago"),
            s.asset_metadata.asset_name@ == "Player"@,
            s.asset_metadata.source_file@ == "Assets/Models/player.fbx"@,
            s.asset_metadata.import_preset@ == "Character: High"@,
            s.asset_metadata.vertex_count@ == "24,320"@,
            s.asset_metadata.material_count@ == "3"@,
            s.asset_metadata.tags@.len() == 3,
            s.asset_metadata.tags@[0]@ == "character"@,
            s.asset_metadata.tags@[1]@ == "biped"@,
            s.asset_metadata.tags@[2]@ == "hero"@,
            s.scene_tree.name@ == "Root"@,
            s.scene_tree.children@.len() == 4,
            leaf_named(s.scene_tree.children@[0], "Camera"),
            leaf_named(s.scene_tree.children@[1], "Directional Light"),
            s.scene_tree.children@[2].name@ == "Player"@,
            s.scene_tree.children@[2].children@.len() == 2,
            leaf_named(s.scene_tree.children@[2].children@[0], "Weapon"),
            leaf_named(s.scene_tree.children@[2].children@[1], "Camera Pivot"),
            s.scene_tree.children@[3].name@ == "Environment"@,
            s.scene_tree.children@[3].children@.len() == 3,
            leaf_named(s.scene_tree.children@[3].children@[0], "Ground"),
            leaf_named(s.scene_tree.children@[3].children@[1], "Rocks"),
            leaf_named(s.scene_tree.children@[3].children@[2], "Foliage"),
    {
        let mut projects: Vec<ProjectSummary> = Vec::new();
        projects.push(ProjectSummary {
            name: text("New Prototype"),
            path: text("~/meshi/projects/new-prototype"),
            last_opened: text("Today"),
        });
        projects.push(ProjectSummary {
            name: text("Sandbox"),
            path: text("~/meshi/projects/sandbox"),
            last_opened: text("Yesterday"),
        });
        let mut scripts: Vec<ScriptStatus> = Vec::new();
        scripts.push(ScriptStatus {
            name: text("player_controller.rs"),
            state: ScriptState::Running,
            last_run_ms: Some(1_625),
            errors: Vec::new(),
        });
        let mut errors: Vec<String> = Vec::new();
        errors.push(text("error: missing import `meshi_fx`"));
        errors.push(text("error: compilation aborted"));
        scripts.push(ScriptStatus {
            name: text("environment_fx.rs"),
            state: ScriptState::Failed,
            last_run_ms: Some(2_310),
            errors,
        });
        let mut asset_entries: Vec<AssetEntry> = Vec::new();
        asset_entries.push(asset("Player", "Models", "Assets/Models/player.fbx", "Imported", "FBX"));
        asset_entries.push(asset("Hero Texture", "Textures", "Assets/Textures/hero_albedo.png", "Ready", "PNG"));
        asset_entries.push(asset("Starter Material", "Materials", "Assets/Materials/starter.mat", "Linked", "MAT"));
        asset_entries.push(asset("Wind Loop", "Audio", "Assets/Audio/wind_loop.ogg", "Streaming", "OGG"));
        asset_entries.push(asset("Player Controller", "Scripts", "Assets/Scripts/player_controller.rs", "Compiled", "RS"));
        let mut import_jobs: Vec<ImportJob> = Vec::new();
        import_jobs.push(import_job("~/Downloads/robot.glb", "Robot", "Models", "Waiting", "Never"));
        import_jobs.push(import_job("~/Downloads/terrain_albedo.tif", "Terrain Albedo", "Textures", "Queued", "2 days ago"));
        let mut tags: Vec<String> = Vec::new();
        tags.push(text("character"));
        tags.push(text("biped"));
        tags.push(text("hero"));
        let asset_metadata = AssetMetadata {
            asset_name: text("Player"),
            source_file: text("Assets/Models/player.fbx"),
            import_preset: text("Character: High"),
            vertex_count: text("24,320"),
            material_count: text("3"),
            tags,
        };
        let mut player_children: Vec<SceneNode> = Vec::new();
        player_children.push(leaf("Weapon"));
        player_children.push(leaf("Camera Pivot"));
        let mut environment_children: Vec<SceneNode> = Vec::new();
        environment_children.push(leaf("Ground"));
        environment_children.push(leaf("Rocks"));
        environment_children.push(leaf("Foliage"));
        let mut root_children: Vec<SceneNode> = Vec::new();
        root_children.push(leaf("Camera"));
        root_children.push(leaf("Directional Light"));
        root_children.push(SceneNode::new(text("Player"), player_children));
        root_children.push(SceneNode::new(text("Environment"), environment_children));
        let scene_tree = SceneNode::new(text("Root"), root_children);
        EditorState { projects, scripts, asset_entries, import_jobs, asset_metadata, scene_tree }
    }
}

impl ProjectProvider for EditorState {
    fn recent_projects(&self) -> (v: Vec<ProjectSummary>)
        ensures
            v@.len() == self.projects@.len(),
            forall|i: int| 0 <= i < v@.len() ==> v@[i].name@ == self.projects@[i].name@
                && v@[i].path@ == self.projects@[i].path@ && v@[i].last_opened@ == self.projects@[i].last_opened@,
    {
        let mut v: Vec<ProjectSummary> = Vec::new();
        let mut i: usize = 0;
        while i < self.projects.len()
            invariant
                i <= self.projects@.len(),
                v@.len() == i,
                forall|j: int| 0 <= j < i ==> v@[j].name@ == self.projects@[j].name@
                    && v@[j].path@ == self.projects@[j].path@ && v@[j].last_opened@ == self.projects@[j].last_opened@,
            decreases self.projects@.len() - i,
        {
            v.push(self.projects[i].duplicate());
            i += 1;
        }
        v
    }
}

impl ScriptProvider for EditorState {
    fn scripts(&self) -> (v: Vec<ScriptStatus>)
        ensures
            v@.len() == self.scripts@.len(),
            forall|i: int| 0 <= i < v@.len() ==> v@[i].name@ == self.scripts@[i].name@
                && v@[i].state == self.scripts@[i].state && v@[i].last_run_ms == self.scripts@[i].last_run_ms
                && v@[i].errors@.len() == self.scripts@[i].errors@.len()
                && forall|e: int| 0 <= e < v@[i].errors@.len() ==> #[trigger] v@[i].errors@[e]@ == self.scripts@[i].errors@[e]@,
    {
        let mut v: Vec<ScriptStatus> = Vec::new();
        let mut i: usize = 0;
        while i < self.scripts.len()
            invariant
                i <= self.scripts@.len(),
                v@.len() == i,
                forall|j: int| 0 <= j < i ==> v@[j].name@ == self.scripts@[j].name@
                    && v@[j].state == self.scripts@[j].state && v@[j].last_run_ms == self.scripts@[j].last_run_ms
                    && v@[j].errors@.len() == self.scripts@[j].errors@.len()
                    && forall|e: int| 0 <= e < v@[j].errors@.len() ==> #[trigger] v@[j].errors@[e]@ == self.scripts@[j].errors@[e]@,
            decreases self.scripts@.len() - i,
        {
            v.push(self.scripts[i].duplicate());
            i += 1;
        }
        v
    }

    fn empty_message(&self) -> (s: &'static str)
        ensures
            s@ == "no scripts registered"@,
    {
        "no scripts registered"
    }
}

} // verus!
