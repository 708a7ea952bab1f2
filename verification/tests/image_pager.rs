use std::collections::HashSet;

use meshi::image_pager::{
    BindlessImageHandle, DatabaseImageKey, ImagePager, ImagePagerBackend, ImagePagerKey, ImagePagerLoader,
    ImagePagerStatus, MeshiError,
};

#[derive(Default, Debug, Clone, Copy, PartialEq)]
struct ImageView;

struct TestBackend {
    next_handle: BindlessImageHandle,
    reserves: u32,
    registered: HashSet<BindlessImageHandle>,
    released: Vec<BindlessImageHandle>,
}

impl TestBackend {
    fn new() -> Self {
        Self { next_handle: 1, reserves: 0, registered: HashSet::new(), released: Vec::new() }
    }
}

impl ImagePagerBackend<ImageView> for TestBackend {
    fn reserve_handle(&mut self) -> BindlessImageHandle {
        let handle = self.next_handle;
        self.next_handle += 1;
        self.reserves += 1;
        handle
    }

    fn register_image(&mut self, handle: BindlessImageHandle, _view: ImageView) {
        self.registered.insert(handle);
    }

    fn release_image(&mut self, handle: BindlessImageHandle) {
        self.registered.remove(&handle);
        self.released.push(handle);
    }
}

#[derive(Default)]
struct LoggingLoader {
    log: Vec<String>,
}

impl ImagePagerLoader<ImageView> for LoggingLoader {
    fn load_from_disk(&mut self, path: &String) -> Result<ImageView, MeshiError> {
        self.log.push(path.clone());
        Ok(ImageView::default())
    }

    fn load_from_database(&mut self, key: &DatabaseImageKey) -> Result<ImageView, MeshiError> {
        self.log.push(key.database_entry());
        Err(MeshiError {})
    }
}

struct TestLoader;

impl ImagePagerLoader<ImageView> for TestLoader {
    fn load_from_disk(&mut self, _path: &String) -> Result<ImageView, MeshiError> {
        Ok(ImageView::default())
    }

    fn load_from_database(&mut self, _key: &DatabaseImageKey) -> Result<ImageView, MeshiError> {
        Ok(ImageView::default())
    }
}

struct FailingLoader;

impl ImagePagerLoader<ImageView> for FailingLoader {
    fn load_from_disk(&mut self, _path: &String) -> Result<ImageView, MeshiError> {
        Err(MeshiError {})
    }

    fn load_from_database(&mut self, _key: &DatabaseImageKey) -> Result<ImageView, MeshiError> {
        Err(MeshiError {})
    }
}

fn disk(path: &str) -> ImagePagerKey {
    ImagePagerKey::Disk(path.to_string())
}

#[test]
fn request_image_returns_stable_handle() {
    let mut pager = ImagePager::new();
    let mut backend = TestBackend::new();
    let key = disk("imagery/test.png");

    let first = pager.request_image(key.clone(), &mut backend);
    let second = pager.request_image(key.clone(), &mut backend);

    assert_eq!(first, second);
    assert_eq!(first, 1);
    assert_eq!(backend.reserves, 1);
    assert_eq!(pager.status(&key), Some(ImagePagerStatus::Pending));
}

#[test]
fn disk_keys_compare_by_path_components() {
    let mut pager = ImagePager::new();
    let mut backend = TestBackend::new();
    let first = pager.request_image(disk("imagery//test.png"), &mut backend);
    let second = pager.request_image(disk("imagery/./test.png"), &mut backend);
    assert_eq!(first, second);
    assert_eq!(backend.reserves, 1);
    assert!(disk("a/b/").same_as(&disk("a//b")));
    assert!(!disk("a/b").same_as(&disk("a/c")));
    assert!(!disk("/a").same_as(&disk("a")));
}

#[test]
fn loader_sees_pending_images_in_queue_order_once() {
    let mut pager = ImagePager::new();
    let mut backend = TestBackend::new();
    let mut loader = LoggingLoader::default();
    let a = disk("a.png");
    let b = ImagePagerKey::Database(DatabaseImageKey { project: Some("p".to_string()), asset_key: "b".to_string() });
    let c = disk("c.png");
    let ha = pager.request_image(a.clone(), &mut backend);
    let hb = pager.request_image(b.clone(), &mut backend);
    let hc = pager.request_image(c.clone(), &mut backend);
    pager.release_by_key(&a, &mut backend);
    pager.process_pending(&mut loader, &mut backend, 2);
    assert_eq!(loader.log, vec!["p/b".to_string(), "c.png".to_string()]);
    assert_eq!(pager.status(&b), Some(ImagePagerStatus::Failed));
    assert_eq!(pager.status(&c), Some(ImagePagerStatus::Ready));
    assert!(!backend.registered.contains(&hb));
    assert!(backend.registered.contains(&hc));
    assert_eq!(backend.released, vec![ha]);
    pager.process_pending(&mut loader, &mut backend, 5);
    assert_eq!(loader.log.len(), 2);
}

#[test]
fn process_pending_registers_image() {
    let mut pager = ImagePager::new();
    let mut backend = TestBackend::new();
    let mut loader = TestLoader;
    let key = disk("imagery/test.png");

    let handle = pager.request_image(key.clone(), &mut backend);
    pager.process_pending(&mut loader, &mut backend, 1);

    assert!(backend.registered.contains(&handle));
    assert_eq!(pager.status(&key), Some(ImagePagerStatus::Ready));
}

#[test]
fn failed_load_marks_image_failed() {
    let mut pager = ImagePager::default();
    let mut backend = TestBackend::new();
    let key = disk("missing.png");
    let handle = pager.request_image(key.clone(), &mut backend);
    pager.process_pending(&mut FailingLoader, &mut backend, 4);
    assert!(!backend.registered.contains(&handle));
    assert_eq!(pager.status(&key), Some(ImagePagerStatus::Failed));
}

#[test]
fn process_pending_respects_budget() {
    let mut pager = ImagePager::new();
    let mut backend = TestBackend::new();
    let a = disk("a.png");
    let b = ImagePagerKey::Database(DatabaseImageKey { project: Some("proj".to_string()), asset_key: "b".to_string() });
    let ha = pager.request_image(a.clone(), &mut backend);
    let hb = pager.request_image(b.clone(), &mut backend);
    assert_ne!(ha, hb);
    pager.process_pending(&mut TestLoader, &mut backend, 1);
    assert_eq!(pager.status(&a), Some(ImagePagerStatus::Ready));
    assert_eq!(pager.status(&b), Some(ImagePagerStatus::Pending));
    pager.process_pending(&mut TestLoader, &mut backend, 0);
    assert_eq!(pager.status(&b), Some(ImagePagerStatus::Pending));
    pager.process_pending(&mut TestLoader, &mut backend, 5);
    assert_eq!(pager.status(&b), Some(ImagePagerStatus::Ready));
}

#[test]
fn release_by_key_frees_handle() {
    let mut pager = ImagePager::new();
    let mut backend = TestBackend::new();
    let key = disk("x.png");
    let handle = pager.request_image(key.clone(), &mut backend);
    pager.release_by_key(&key, &mut backend);
    assert_eq!(backend.released, vec![handle]);
    assert_eq!(pager.status(&key), None);
    // released images are dropped from the queue without loading
    pager.process_pending(&mut TestLoader, &mut backend, 1);
    assert!(backend.registered.is_empty());
    // a new request reserves a new handle
    let again = pager.request_image(key.clone(), &mut backend);
    assert_ne!(again, handle);
}

#[test]
fn release_by_handle_releases_its_image() {
    let mut pager = ImagePager::new();
    let mut backend = TestBackend::new();
    let key = ImagePagerKey::Database(DatabaseImageKey { project: None, asset_key: "imagery/test_image".to_string() });
    let handle = pager.request_image(key.clone(), &mut backend);
    pager.release_by_handle(handle, &mut backend);
    assert_eq!(backend.released, vec![handle]);
    assert_eq!(pager.status(&key), None);
    pager.release_by_handle(handle, &mut backend);
    assert_eq!(backend.released, vec![handle]);
    pager.release_by_key(&key, &mut backend);
    assert_eq!(backend.released, vec![handle]);
}

#[test]
fn keys_compare_by_content() {
    let a = ImagePagerKey::Database(DatabaseImageKey { project: Some("p".to_string()), asset_key: "k".to_string() });
    let b = ImagePagerKey::Database(DatabaseImageKey { project: None, asset_key: "k".to_string() });
    assert!(a.same_as(&a.duplicate()));
    assert!(!a.same_as(&b));
    assert!(!disk("k").same_as(&b));
}

#[test]
fn database_entries_put_the_project_first() {
    let with_project = DatabaseImageKey { project: Some("proj".to_string()), asset_key: "tex/grass".to_string() };
    assert_eq!(with_project.database_entry(), "proj/tex/grass");
    let bare = DatabaseImageKey { project: None, asset_key: "tex/grass".to_string() };
    assert_eq!(bare.database_entry(), "tex/grass");
}

struct SlotBackend {
    next_handle: BindlessImageHandle,
    slots: std::collections::HashMap<BindlessImageHandle, String>,
}

impl ImagePagerBackend<String> for SlotBackend {
    fn reserve_handle(&mut self) -> BindlessImageHandle {
        let handle = self.next_handle;
        self.next_handle += 1;
        handle
    }

    fn register_image(&mut self, handle: BindlessImageHandle, view: String) {
        self.slots.insert(handle, view);
    }

    fn release_image(&mut self, handle: BindlessImageHandle) {
        self.slots.remove(&handle);
    }
}

struct NamingLoader;

impl ImagePagerLoader<String> for NamingLoader {
    fn load_from_disk(&mut self, path: &String) -> Result<String, MeshiError> {
        Ok(format!("pixels of {path}"))
    }

    fn load_from_database(&mut self, key: &DatabaseImageKey) -> Result<String, MeshiError> {
        Ok(format!("pixels of {}", key.database_entry()))
    }
}

#[test]
fn each_loaded_image_fills_its_own_slot() {
    let mut pager = ImagePager::new();
    let mut backend = SlotBackend { next_handle: 7, slots: std::collections::HashMap::new() };
    let first = pager.request_image(disk("first.png"), &mut backend);
    let second = pager.request_image(disk("second.png"), &mut backend);
    pager.process_pending(&mut NamingLoader, &mut backend, 2);
    assert_eq!(backend.slots.get(&first).map(String::as_str), Some("pixels of first.png"));
    assert_eq!(backend.slots.get(&second).map(String::as_str), Some("pixels of second.png"));
    pager.release_by_handle(first, &mut backend);
    assert!(!backend.slots.contains_key(&first));
    assert_eq!(backend.slots.len(), 1);
}
