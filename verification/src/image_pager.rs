use vstd::prelude::*;
use std::collections::VecDeque;

verus! {

/// A slot in the bindless image table.
pub type BindlessImageHandle = u32;

/// An image kept in the asset database, optionally under a project.
#[derive(Clone, Debug)]
pub struct DatabaseImageKey {
    pub project: Option<String>,
    pub asset_key: String,
}

/// Where an image comes from: a file on disk (by path) or the asset database.
#[derive(Clone, Debug)]
pub enum ImagePagerKey {
    Disk(String),
    Database(DatabaseImageKey),
}

/// What `Path::components` makes of a path, each component as text, with
/// the path syntax of the platform the crate is built for.
pub uninterp spec fn components_of(path: Seq<char>) -> Seq<Seq<char>>;

/// `Path::components`: the components of `path` as text. Parsing drops
/// repeated separators, `.` steps other than a leading one and a trailing
/// separator, so `a//b`, `a/./b` and `a/b/` all give `a`, `b`.
#[verifier::external_body]
fn path_components(path: &str) -> (parts: Vec<String>)
    ensures
        parts@.map_values(|c: String| c@) == components_of(path@),
{
    let mut parts = Vec::new();
    for component in std::path::Path::new(path).components() {
        parts.push(component.as_os_str().to_string_lossy().into_owned());
    }
    parts
}

/// Whether two lists of texts are equal, text by text.
fn same_texts(a: &Vec<String>, b: &Vec<String>) -> (r: bool)
    ensures
        r == (a@.map_values(|c: String| c@) == b@.map_values(|c: String| c@)),
{
    if a.len() != b.len() {
        proof {
            assert(a@.map_values(|c: String| c@).len() != b@.map_values(|c: String| c@).len());
        }
        return false;
    }
    let mut i: usize = 0;
    while i < a.len()
        invariant
            a@.len() == b@.len(),
            i <= a@.len(),
            forall|j: int| 0 <= j < i ==> a@[j]@ == b@[j]@,
        decreases a@.len() - i,
    {
        if a[i] != b[i] {
            proof {
                assert(a@.map_values(|c: String| c@)[i as int] != b@.map_values(|c: String| c@)[i as int]);
            }
            return false;
        }
        i += 1;
    }
    proof {
        assert(a@.map_values(|c: String| c@) =~= b@.map_values(|c: String| c@));
    }
    true
}

/// A key as plain values: a disk image by its path's components, a
/// database image by its project and asset key. Two keys name the same
/// image exactly when their views are equal.
pub enum ImageKeyView {
    Disk(Seq<Seq<char>>),
    Database(Option<Seq<char>>, Seq<char>),
}

impl View for ImagePagerKey {
    type V = ImageKeyView;

    open spec fn view(&self) -> ImageKeyView {
        match self {
            ImagePagerKey::Disk(p) => ImageKeyView::Disk(components_of(p@)),
            ImagePagerKey::Database(k) => ImageKeyView::Database(
                match k.project {
                    Some(p) => Some(p@),
                    None => None,
                },
                k.asset_key@,
            ),
        }
    }
}

fn optional_text_eq(a: &Option<String>, b: &Option<String>) -> (r: bool)
    ensures
        r == ((match a { Some(x) => Some(x@), None => None::<Seq<char>> }) == (match b {
            Some(x) => Some(x@),
            None => None::<Seq<char>>,
        })),
{
    match (a, b) {
        (Some(x), Some(y)) => *x == *y,
        (None, None) => true,
        _ => false,
    }
}

impl ImagePagerKey {
    /// Whether two keys name the same image.
    pub fn same_as(&self, other: &ImagePagerKey) -> (r: bool)
        ensures
            r == (self@ == other@),
    {
        match (self, other) {
            (ImagePagerKey::Disk(a), ImagePagerKey::Disk(b)) => same_texts(
                &path_components(a.as_str()),
                &path_components(b.as_str()),
            ),
            (ImagePagerKey::Database(a), ImagePagerKey::Database(b)) => {
                optional_text_eq(&a.project, &b.project) && a.asset_key == b.asset_key
            },
            _ => false,
        }
    }

    /// A copy of the key.
    pub fn duplicate(&self) -> (r: ImagePagerKey)
        ensures
            r@ == self@,
    {
        match self {
            ImagePagerKey::Disk(p) => ImagePagerKey::Disk(p.clone()),
            ImagePagerKey::Database(k) => ImagePagerKey::Database(DatabaseImageKey {
                project: match &k.project {
                    Some(p) => Some(p.clone()),
                    None => None,
                },
                asset_key: k.asset_key.clone(),
            }),
        }
    }
}

impl DatabaseImageKey {
    /// The entry the asset database keeps the image under: the asset key,
    /// behind its project and a slash when it has one.
    pub fn database_entry(&self) -> (entry: String)
        ensures
            entry@ == (match self.project {
                Some(p) => p@ + seq!['/'] + self.asset_key@,
                None => self.asset_key@,
            }),
    {
        match &self.project {
            Some(project) => {
                let slash = "/";
                proof {
                    reveal_strlit("/");
                }
                let entry = project.clone().concat(slash);
                entry.concat(self.asset_key.as_str())
            },
            None => self.asset_key.clone(),
        }
    }
}

#[derive(Clone, Copy, Debug, PartialEq, Eq, Structural)]
pub enum ImagePagerStatus {
    Pending,
    Ready,
    Failed,
}

/// Why an image could not be loaded.
#[derive(Clone, Copy, Debug)]
pub struct MeshiError {}

/// Hands out bindless image slots and fills or frees them. Implemented by
/// the renderer (or by a test double). `reserved` is the set of slots handed
/// out and not yet released; `views` maps each slot that holds an image to
/// the image view it holds.
///
/// A verified implementation defines `reserved` and `views` from its own
/// state. The defaults, one fixed unknown value per type, exist so that an
/// implementation written outside the verifier (the renderer's, a test
/// double) compiles; nothing checks such an implementation against these
/// contracts, and with the defaults they cannot all hold of it.
pub trait ImagePagerBackend<V> {
    /// The slots handed out and not yet released.
    closed spec fn reserved(&self) -> Set<BindlessImageHandle> {
        vstd::pervasive::arbitrary()
    }

    /// The image view each filled slot holds.
    closed spec fn views(&self) -> Map<BindlessImageHandle, V> {
        vstd::pervasive::arbitrary()
    }

    /// Hands out a slot not reserved already.
    fn reserve_handle(&mut self) -> (h: BindlessImageHandle)
        ensures
            !old(self).reserved().contains(h),
            final(self).reserved() == old(self).reserved().insert(h),
            final(self).views() == old(self).views(),
    ;

    /// Puts the image view `view` in slot `handle`.
    fn register_image(&mut self, handle: BindlessImageHandle, view: V)
        ensures
            final(self).views() == old(self).views().insert(handle, view),
            final(self).reserved() == old(self).reserved(),
    ;

    /// Frees slot `handle` and whatever image it holds.
    fn release_image(&mut self, handle: BindlessImageHandle)
        ensures
            final(self).views() == old(self).views().remove(handle),
            final(self).reserved() == old(self).reserved().remove(handle),
    ;
}

/// The key of a database image as plain text values.
pub open spec fn database_key_view(key: DatabaseImageKey) -> ImageKeyView {
    ImageKeyView::Database(
        match key.project {
            Some(p) => Some(p@),
            None => None,
        },
        key.asset_key@,
    )
}

/// What a load answered: the image view it returned, or `None` where it
/// failed.
pub open spec fn answer_of<V>(r: Result<V, MeshiError>) -> Option<V> {
    match r {
        Ok(v) => Some(v),
        Err(_) => None,
    }
}

/// Loads images, from disk or from the asset database, into image views
/// `V`. `loads` is the log of the images asked for, oldest first, each with
/// what its load answered.
///
/// A verified implementation defines `loads` from its own state; the
/// default, one fixed unknown value per type, exists so that an
/// implementation written outside the verifier compiles, and nothing checks
/// such an implementation against these contracts.
pub trait ImagePagerLoader<V> {
    /// The images asked for so far, oldest first, with their answers.
    closed spec fn loads(&self) -> Seq<(ImageKeyView, Option<V>)> {
        vstd::pervasive::arbitrary()
    }

    fn load_from_disk(&mut self, path: &String) -> (r: Result<V, MeshiError>)
        ensures
            final(self).loads() == old(self).loads().push((ImageKeyView::Disk(components_of(path@)), answer_of(r))),
    ;

    fn load_from_database(&mut self, key: &DatabaseImageKey) -> (r: Result<V, MeshiError>)
        ensures
            final(self).loads() == old(self).loads().push((database_key_view(*key), answer_of(r))),
    ;
}

/// The images `keys` were loaded, in that order, with the answers that
/// `answers` logs: each image whose load returned a view is `Ready` in
/// `after`, each whose load failed is `Failed`, and each keeps the handle it
/// had in `before`.
pub open spec fn answered<V>(before: ImagePager, after: ImagePager, keys: Seq<ImageKeyView>, answers: Seq<(ImageKeyView, Option<V>)>) -> bool {
    &&& answers.len() == keys.len()
    &&& forall|i: int| 0 <= i < keys.len() ==> #[trigger] answered_at(before, after, keys, answers, i)
}

/// Position `i` of `answers` answers the image `keys[i]`, which had an entry
/// in `before` and ends in `after` under the same handle, `Ready` where the
/// load returned a view and `Failed` where it did not.
pub open spec fn answered_at<V>(before: ImagePager, after: ImagePager, keys: Seq<ImageKeyView>, answers: Seq<(ImageKeyView, Option<V>)>, i: int) -> bool {
    &&& answers[i].0 == keys[i]
    &&& before.entry(keys[i]) is Some
    &&& after.entry(keys[i]) == Some((
        before.entry(keys[i]).unwrap().0,
        if answers[i].1 is Some { ImagePagerStatus::Ready } else { ImagePagerStatus::Failed },
    ))
}

/// Each image among `keys` whose load returned a view holds that view in
/// `backend`, in the slot of the handle it had in `before`.
pub open spec fn views_placed<V, B: ImagePagerBackend<V>>(before: ImagePager, backend: B, keys: Seq<ImageKeyView>, answers: Seq<(ImageKeyView, Option<V>)>) -> bool {
    forall|i: int| 0 <= i < keys.len() ==> #[trigger] view_placed_at(before, backend, keys, answers, i)
}

/// Where the load of `keys[i]` returned a view, the backend's slot for the
/// handle of `keys[i]` in `before` holds that view.
pub open spec fn view_placed_at<V, B: ImagePagerBackend<V>>(before: ImagePager, backend: B, keys: Seq<ImageKeyView>, answers: Seq<(ImageKeyView, Option<V>)>, i: int) -> bool {
    answers[i].1 is Some ==> {
        &&& backend.views().contains_key(before.entry(keys[i]).unwrap().0)
        &&& backend.views()[before.entry(keys[i]).unwrap().0] == answers[i].1.unwrap()
    }
}

/// What `request_image` does: for an image with an entry it returns that
/// entry's handle and changes nothing; otherwise it records the image as
/// pending under the returned handle, maps the handle to it and queues it.
pub open spec fn request_outcome(before: ImagePager, after: ImagePager, key: ImageKeyView, handle: BindlessImageHandle) -> bool {
    &&& before.entry(key) matches Some(e) ==> {
        &&& handle == e.0
        &&& forall|k: ImageKeyView| #[trigger] after.entry(k) == before.entry(k)
        &&& forall|g: BindlessImageHandle| #[trigger] after.handle_key(g) == before.handle_key(g)
        &&& after.pending_keys() == before.pending_keys()
    }
    &&& before.entry(key) is None ==> {
        &&& after.entry(key) == Some((handle, ImagePagerStatus::Pending))
        &&& forall|k: ImageKeyView| k != key ==> #[trigger] after.entry(k) == before.entry(k)
        &&& after.handle_key(handle) == Some(key)
        &&& forall|g: BindlessImageHandle| g != handle ==> #[trigger] after.handle_key(g) == before.handle_key(g)
        &&& after.pending_keys() == before.pending_keys().push(key)
    }
}

/// An entry kept its handle and either kept its status or went from pending
/// to loaded or failed; an absent entry stayed absent.
pub open spec fn entry_progressed(
    before: Option<(BindlessImageHandle, ImagePagerStatus)>,
    after: Option<(BindlessImageHandle, ImagePagerStatus)>,
) -> bool {
    match before {
        None => after is None,
        Some(e) => match after {
            Some(f) => f.0 == e.0 && (f.1 == e.1 || (e.1 == ImagePagerStatus::Pending && f.1 != ImagePagerStatus::Pending)),
            None => false,
        },
    }
}

/// Position `j` of the queue `keys` names an image that was pending in `p`
/// and that no earlier position names: loading it is due when it is dequeued.
pub open spec fn first_pending_at(p: ImagePager, keys: Seq<ImageKeyView>, j: int) -> bool {
    &&& p.entry(keys[j]) matches Some(e) && e.1 == ImagePagerStatus::Pending
    &&& forall|i: int| 0 <= i < j ==> keys[i] != keys[j]
}

/// The images among the first `n` queued ones that are loaded when
/// dequeued, in queue order.
pub open spec fn loaded_keys(p: ImagePager, keys: Seq<ImageKeyView>, n: nat) -> Seq<ImageKeyView>
    decreases n,
{
    if n == 0 {
        Seq::empty()
    } else {
        loaded_keys(p, keys, (n - 1) as nat) + if first_pending_at(p, keys, n - 1) {
            seq![keys[n - 1]]
        } else {
            Seq::empty()
        }
    }
}

/// How many of the first `n` queued images are loaded when dequeued.
pub open spec fn loads_in(p: ImagePager, keys: Seq<ImageKeyView>, n: nat) -> nat {
    loaded_keys(p, keys, n).len()
}

/// The handles of the images among `keys` that are loaded in `p`.
pub open spec fn ready_handles(p: ImagePager, keys: Seq<ImageKeyView>) -> Set<BindlessImageHandle> {
    Set::new(|h: BindlessImageHandle| exists|i: int| 0 <= i < keys.len() && #[trigger] p.entry(keys[i]) == Some((h, ImagePagerStatus::Ready)))
}

proof fn lemma_ready_handles_same(a: ImagePager, b: ImagePager, keys: Seq<ImageKeyView>)
    requires
        forall|k: ImageKeyView| #[trigger] a.entry(k) == b.entry(k),
    ensures
        ready_handles(a, keys) == ready_handles(b, keys),
{
    assert forall|h: BindlessImageHandle| #[trigger] ready_handles(a, keys).contains(h) <==> ready_handles(b, keys).contains(h) by {
        if ready_handles(a, keys).contains(h) {
            let i = choose|i: int| 0 <= i < keys.len() && #[trigger] a.entry(keys[i]) == Some((h, ImagePagerStatus::Ready));
            assert(b.entry(keys[i]) == Some((h, ImagePagerStatus::Ready)));
        }
        if ready_handles(b, keys).contains(h) {
            let i = choose|i: int| 0 <= i < keys.len() && #[trigger] b.entry(keys[i]) == Some((h, ImagePagerStatus::Ready));
            assert(a.entry(keys[i]) == Some((h, ImagePagerStatus::Ready)));
        }
    }
    assert(ready_handles(a, keys) =~= ready_handles(b, keys));
}

proof fn lemma_answered_same<V>(
    o: ImagePager,
    a: ImagePager,
    b: ImagePager,
    keys: Seq<ImageKeyView>,
    answers: Seq<(ImageKeyView, Option<V>)>,
)
    requires
        answered(o, a, keys, answers),
        forall|k: ImageKeyView| #[trigger] b.entry(k) == a.entry(k),
    ensures
        answered(o, b, keys, answers),
{
    assert forall|i: int| 0 <= i < keys.len() implies #[trigger] answered_at(o, b, keys, answers, i) by {
        assert(answered_at(o, a, keys, answers, i));
        assert(b.entry(keys[i]) == a.entry(keys[i]));
    }
}

proof fn lemma_answered_step<V>(
    o: ImagePager,
    a: ImagePager,
    b: ImagePager,
    keys: Seq<ImageKeyView>,
    answers: Seq<(ImageKeyView, Option<V>)>,
    key: ImageKeyView,
    handle: BindlessImageHandle,
    answer: Option<V>,
)
    requires
        answered(o, a, keys, answers),
        forall|i: int| 0 <= i < keys.len() ==> #[trigger] b.entry(keys[i]) == a.entry(keys[i]),
        o.entry(key) == Some((handle, ImagePagerStatus::Pending)),
        b.entry(key) == Some((handle, if answer is Some { ImagePagerStatus::Ready } else { ImagePagerStatus::Failed })),
    ensures
        answered(o, b, keys.push(key), answers.push((key, answer))),
{
    let nk = keys.push(key);
    let na = answers.push((key, answer));
    assert forall|i: int| 0 <= i < nk.len() implies #[trigger] answered_at(o, b, nk, na, i) by {
        if i < keys.len() {
            assert(answered_at(o, a, keys, answers, i));
            assert(na[i] == answers[i]);
            assert(nk[i] == keys[i]);
            assert(b.entry(keys[i]) == a.entry(keys[i]));
        } else {
            assert(na[i] == (key, answer));
            assert(nk[i] == key);
        }
    }
}

proof fn lemma_views_placed_step<V, B: ImagePagerBackend<V>>(
    o: ImagePager,
    a: B,
    b: B,
    keys: Seq<ImageKeyView>,
    answers: Seq<(ImageKeyView, Option<V>)>,
    key: ImageKeyView,
    answer: Option<V>,
)
    requires
        views_placed(o, a, keys, answers),
        answers.len() == keys.len(),
        o.entry(key) is Some,
        forall|i: int| 0 <= i < keys.len() ==> #[trigger] o.entry(keys[i]) is Some && o.entry(keys[i]).unwrap().0 != o.entry(key).unwrap().0,
        answer is Some ==> b.views() == a.views().insert(o.entry(key).unwrap().0, answer.unwrap()),
        answer is None ==> b.views() == a.views(),
    ensures
        views_placed(o, b, keys.push(key), answers.push((key, answer))),
{
    let nk = keys.push(key);
    let na = answers.push((key, answer));
    assert forall|i: int| 0 <= i < nk.len() implies #[trigger] view_placed_at(o, b, nk, na, i) by {
        if i < keys.len() {
            assert(view_placed_at(o, a, keys, answers, i));
            assert(na[i] == answers[i]);
            assert(nk[i] == keys[i]);
            assert(o.entry(keys[i]).unwrap().0 != o.entry(key).unwrap().0);
        } else {
            assert(na[i] == (key, answer));
            assert(nk[i] == key);
        }
    }
}

proof fn lemma_loaded_keys_earlier(p: ImagePager, keys: Seq<ImageKeyView>, n: nat, x: ImageKeyView)
    requires
        n <= keys.len(),
        loaded_keys(p, keys, n).contains(x),
    ensures
        keys.subrange(0, n as int).contains(x),
    decreases n,
{
    let prev = loaded_keys(p, keys, (n - 1) as nat);
    if prev.contains(x) {
        lemma_loaded_keys_earlier(p, keys, (n - 1) as nat, x);
        let pre = keys.subrange(0, n - 1);
        let w = choose|w: int| 0 <= w < pre.len() && pre[w] == x;
        assert(keys.subrange(0, n as int)[w] == x);
    } else {
        let l = loaded_keys(p, keys, n);
        let w = choose|w: int| 0 <= w < l.len() && l[w] == x;
        assert(w >= prev.len());
        assert(x == keys[n - 1]);
        assert(keys.subrange(0, n as int)[n - 1] == x);
    }
}

/// What releasing the image `key` does: its entry goes, the handle it had
/// no longer maps to anything and is released to the backend; an image
/// without an entry changes nothing, and the backend is not called.
pub open spec fn key_released<V, B: ImagePagerBackend<V>>(
    before: ImagePager,
    after: ImagePager,
    backend_before: B,
    backend_after: B,
    key: ImageKeyView,
) -> bool {
    &&& after.pending_keys() == before.pending_keys()
    &&& after.entry(key) is None
    &&& forall|k: ImageKeyView| k != key ==> #[trigger] after.entry(k) == before.entry(k)
    &&& before.entry(key) matches Some(e) ==> {
        &&& after.handle_key(e.0) is None
        &&& forall|g: BindlessImageHandle| g != e.0 ==> #[trigger] after.handle_key(g) == before.handle_key(g)
        &&& backend_after.views().dom() == backend_before.views().dom().remove(e.0)
        &&& backend_after.reserved() == backend_before.reserved().remove(e.0)
    }
    &&& before.entry(key) is None ==> {
        &&& forall|g: BindlessImageHandle| #[trigger] after.handle_key(g) == before.handle_key(g)
        &&& backend_after == backend_before
    }
}

/// What releasing by `handle` does: the handle no longer maps to anything
/// and the image it was reserved for is released as by its key; an unknown
/// handle changes nothing, and the backend is not called.
pub open spec fn handle_released<V, B: ImagePagerBackend<V>>(
    before: ImagePager,
    after: ImagePager,
    backend_before: B,
    backend_after: B,
    handle: BindlessImageHandle,
) -> bool {
    &&& after.pending_keys() == before.pending_keys()
    &&& before.handle_key(handle) is None ==> {
        &&& forall|k: ImageKeyView| #[trigger] after.entry(k) == before.entry(k)
        &&& forall|g: BindlessImageHandle| #[trigger] after.handle_key(g) == before.handle_key(g)
        &&& backend_after == backend_before
    }
    &&& before.handle_key(handle) matches Some(key) ==> {
        &&& after.handle_key(handle) is None
        &&& after.entry(key) is None
        &&& forall|k: ImageKeyView| k != key ==> #[trigger] after.entry(k) == before.entry(k)
        &&& forall|g: BindlessImageHandle| g != handle && (before.entry(key) matches Some(e) ==> g != e.0)
            ==> #[trigger] after.handle_key(g) == before.handle_key(g)
        &&& before.entry(key) matches Some(e) ==> {
            &&& after.handle_key(e.0) is None
            &&& backend_after.views().dom() == backend_before.views().dom().remove(e.0)
            &&& backend_after.reserved() == backend_before.reserved().remove(e.0)
        }
        &&& before.entry(key) is None ==> backend_after == backend_before
    }
}

/// Releasing an image by the handle that maps to it does what releasing it
/// by its key does, to the pager and to the backend: in a well-formed pager
/// that handle is the one the image's entry holds.
pub proof fn lemma_release_by_handle_is_by_key<V, B: ImagePagerBackend<V>>(
    before: ImagePager,
    after: ImagePager,
    backend_before: B,
    backend_after: B,
    handle: BindlessImageHandle,
    key: ImageKeyView,
)
    requires
        before.wf(),
        handle_released(before, after, backend_before, backend_after, handle),
        before.handle_key(handle) == Some(key),
    ensures
        key_released(before, after, backend_before, backend_after, key),
{
    before.lemma_handle_names_entry(handle);
}

/// The pager agrees with `backend`: the handle of each image with an entry
/// is reserved in the backend and maps back to that image.
pub open spec fn backed_by<V, B: ImagePagerBackend<V>>(p: ImagePager, backend: B) -> bool {
    forall|k: ImageKeyView| #[trigger] p.entry(k) is Some ==> {
        &&& backend.reserved().contains(p.entry(k).unwrap().0)
        &&& p.handle_key(p.entry(k).unwrap().0) == Some(k)
    }
}

/// A handle that a pager backed by its backend holds for an image is
/// released as that image is: releasing by the handle does what releasing
/// by the image's key does, to the pager and to the backend.
pub proof fn lemma_release_held_handle_is_by_key<V, B: ImagePagerBackend<V>>(
    before: ImagePager,
    after: ImagePager,
    backend_before: B,
    backend_after: B,
    handle: BindlessImageHandle,
    key: ImageKeyView,
)
    requires
        before.wf(),
        backed_by(before, backend_before),
        before.entry(key) matches Some(e) && e.0 == handle,
        handle_released(before, after, backend_before, backend_after, handle),
    ensures
        key_released(before, after, backend_before, backend_after, key),
{
    assert(before.handle_key(handle) == Some(key));
    lemma_release_by_handle_is_by_key(before, after, backend_before, backend_after, handle, key);
}

struct ImagePagerEntry {
    key: ImagePagerKey,
    handle: BindlessImageHandle,
    status: ImagePagerStatus,
}

/// Pages images into bindless slots: a request reserves a slot at once and
/// queues the image; `process_pending` loads queued images a few at a time.
pub struct ImagePager {
    entries: Vec<ImagePagerEntry>,
    pending: VecDeque<ImagePagerKey>,
    handle_to_key: Vec<(BindlessImageHandle, ImagePagerKey)>,
}

impl ImagePager {
    pub closed spec fn lists_wf(self) -> bool {
        &&& forall|i: int, j: int|
            0 <= i < self.entries@.len() && 0 <= j < self.entries@.len() && i != j
                ==> (#[trigger] self.entries@[i]).key@ != (#[trigger] self.entries@[j]).key@
        &&& forall|i: int, j: int|
            0 <= i < self.handle_to_key@.len() && 0 <= j < self.handle_to_key@.len() && i != j
                ==> (#[trigger] self.handle_to_key@[i]).0 != (#[trigger] self.handle_to_key@[j]).0
    }

    /// Every handle that maps to an image is the handle that image's entry
    /// holds.
    pub closed spec fn links_agree(self) -> bool {
        forall|h: BindlessImageHandle, k: ImageKeyView|
            #![trigger self.handle_key(h), self.entry(k)]
            self.handle_key(h) == Some(k) ==> (self.entry(k) matches Some(e) && e.0 == h)
    }

    /// The pager's invariant: each image and each handle is recorded once,
    /// and a handle maps to an image exactly as that image's entry says.
    pub closed spec fn wf(self) -> bool {
        self.lists_wf() && self.links_agree()
    }

    /// In a well-formed pager a handle that maps to an image is that image's
    /// handle.
    pub proof fn lemma_handle_names_entry(self, h: BindlessImageHandle)
        requires
            self.wf(),
        ensures
            self.handle_key(h) matches Some(k) ==> (self.entry(k) matches Some(e) && e.0 == h),
    {
    }

    /// The handle and status recorded for the image `k`, if any.
    pub closed spec fn entry(self, k: ImageKeyView) -> Option<(BindlessImageHandle, ImagePagerStatus)> {
        if exists|i: int| 0 <= i < self.entries@.len() && self.entries@[i].key@ == k {
            let i = choose|i: int| 0 <= i < self.entries@.len() && self.entries@[i].key@ == k;
            Some((self.entries@[i].handle, self.entries@[i].status))
        } else {
            None
        }
    }

    /// The image that handle `h` was reserved for, if any.
    pub closed spec fn handle_key(self, h: BindlessImageHandle) -> Option<ImageKeyView> {
        if exists|i: int| 0 <= i < self.handle_to_key@.len() && self.handle_to_key@[i].0 == h {
            let i = choose|i: int| 0 <= i < self.handle_to_key@.len() && self.handle_to_key@[i].0 == h;
            Some(self.handle_to_key@[i].1@)
        } else {
            None
        }
    }

    /// The images waiting to be loaded, oldest first.
    pub closed spec fn pending_keys(self) -> Seq<ImageKeyView> {
        self.pending@.map_values(|k: ImagePagerKey| k@)
    }

    /// Once an image is requested, requesting it again returns the same
    /// handle and changes nothing: the first request leaves an entry for the
    /// image, and a request for an image with an entry returns that entry's
    /// handle.
    pub proof fn lemma_request_stable(
        p0: ImagePager,
        p1: ImagePager,
        p2: ImagePager,
        k: ImageKeyView,
        first: BindlessImageHandle,
        second: BindlessImageHandle,
    )
        requires
            request_outcome(p0, p1, k, first),
            request_outcome(p1, p2, k, second),
        ensures
            second == first,
            forall|x: ImageKeyView| #[trigger] p2.entry(x) == p1.entry(x),
            p2.pending_keys() == p1.pending_keys(),
    {
    }

    pub fn new() -> (p: ImagePager)
        ensures
            p.wf(),
            forall|k: ImageKeyView| p.entry(k) is None,
            forall|h: BindlessImageHandle| p.handle_key(h) is None,
            p.pending_keys() == Seq::<ImageKeyView>::empty(),
    {
        let p = ImagePager { entries: Vec::new(), pending: VecDeque::new(), handle_to_key: Vec::new() };
        proof {
            assert(p.pending_keys() =~= Seq::<ImageKeyView>::empty());
        }
        p
    }

    fn find_entry(&self, key: &ImagePagerKey) -> (r: Option<usize>)
        requires
            self.lists_wf(),
        ensures
            r is None <==> self.entry(key@) is None,
            r matches Some(i) ==> i < self.entries@.len() && self.entries@[i as int].key@ == key@
                && self.entry(key@) == Some((self.entries@[i as int].handle, self.entries@[i as int].status)),
    {
        let mut i: usize = 0;
        while i < self.entries.len()
            invariant
                self.lists_wf(),
                i <= self.entries@.len(),
                forall|j: int| 0 <= j < i ==> self.entries@[j].key@ != key@,
            decreases self.entries@.len() - i,
        {
            if self.entries[i].key.same_as(key) {
                proof {
                    let c = choose|c: int| 0 <= c < self.entries@.len() && self.entries@[c].key@ == key@;
                    if c != i {
                        assert(self.entries@[c].key@ != self.entries@[i as int].key@);
                    }
                }
                return Some(i);
            }
            i += 1;
        }
        None
    }

    fn find_handle(&self, h: BindlessImageHandle) -> (r: Option<usize>)
        requires
            self.lists_wf(),
        ensures
            r is None <==> self.handle_key(h) is None,
            r matches Some(i) ==> i < self.handle_to_key@.len() && self.handle_to_key@[i as int].0 == h
                && self.handle_key(h) == Some(self.handle_to_key@[i as int].1@),
    {
        let mut i: usize = 0;
        while i < self.handle_to_key.len()
            invariant
                self.lists_wf(),
                i <= self.handle_to_key@.len(),
                forall|j: int| 0 <= j < i ==> self.handle_to_key@[j].0 != h,
            decreases self.handle_to_key@.len() - i,
        {
            if self.handle_to_key[i].0 == h {
                proof {
                    let c = choose|c: int| 0 <= c < self.handle_to_key@.len() && self.handle_to_key@[c].0 == h;
                    if c != i {
                        assert(self.handle_to_key@[c].0 != self.handle_to_key@[i as int].0);
                    }
                }
                return Some(i);
            }
            i += 1;
        }
        None
    }

    /// The status of the image `key`, if it has been requested and not released.
    pub fn status(&self, key: &ImagePagerKey) -> (r: Option<ImagePagerStatus>)
        requires
            self.wf(),
        ensures
            r == (match self.entry(key@) {
                Some(e) => Some(e.1),
                None => None,
            }),
    {
        match self.find_entry(key) {
            Some(i) => Some(self.entries[i].status),
            None => None,
        }
    }

    proof fn lemma_entry_at(self, i: int)
        requires
            self.lists_wf(),
            0 <= i < self.entries@.len(),
        ensures
            self.entry(self.entries@[i].key@) == Some((self.entries@[i].handle, self.entries@[i].status)),
    {
        let k = self.entries@[i].key@;
        let c = choose|c: int| 0 <= c < self.entries@.len() && self.entries@[c].key@ == k;
        if c != i {
            assert(self.entries@[c].key@ != self.entries@[i].key@);
        }
    }

    proof fn lemma_handle_at(self, i: int)
        requires
            self.lists_wf(),
            0 <= i < self.handle_to_key@.len(),
        ensures
            self.handle_key(self.handle_to_key@[i].0) == Some(self.handle_to_key@[i].1@),
    {
        let h = self.handle_to_key@[i].0;
        let c = choose|c: int| 0 <= c < self.handle_to_key@.len() && self.handle_to_key@[c].0 == h;
        if c != i {
            assert(self.handle_to_key@[c].0 != self.handle_to_key@[i].0);
        }
    }

    /// Records `handle -> key`, replacing what `handle` mapped to before.
    fn map_handle(&mut self, handle: BindlessImageHandle, key: ImagePagerKey)
        requires
            old(self).lists_wf(),
        ensures
            final(self).lists_wf(),
            final(self).entries@ == old(self).entries@,
            final(self).pending@ == old(self).pending@,
            final(self).handle_key(handle) == Some(key@),
            forall|g: BindlessImageHandle| g != handle ==> #[trigger] final(self).handle_key(g) == old(self).handle_key(g),
    {
        let ghost old_map = self.handle_to_key@;
        let ghost kv = key@;
        match self.find_handle(handle) {
            Some(i) => {
                self.handle_to_key.set(i, (handle, key));
                proof {
                    assert(self.handle_to_key@ == old_map.update(i as int, (handle, self.handle_to_key@[i as int].1)));
                    self.lemma_handle_at(i as int);
                    assert forall|g: BindlessImageHandle| g != handle implies #[trigger] self.handle_key(g) == old(self).handle_key(g) by {
                        if exists|j: int| 0 <= j < old_map.len() && old_map[j].0 == g {
                            let j = choose|j: int| 0 <= j < old_map.len() && old_map[j].0 == g;
                            old(self).lemma_handle_at(j);
                            self.lemma_handle_at(j);
                        }
                        if exists|j: int| 0 <= j < self.handle_to_key@.len() && self.handle_to_key@[j].0 == g {
                            let j = choose|j: int| 0 <= j < self.handle_to_key@.len() && self.handle_to_key@[j].0 == g;
                            assert(j != i);
                        }
                    }
                }
            },
            None => {
                self.handle_to_key.push((handle, key));
                proof {
                    let n = old_map.len() as int;
                    assert forall|a: int, b: int|
                        0 <= a < self.handle_to_key@.len() && 0 <= b < self.handle_to_key@.len() && a != b
                            implies (#[trigger] self.handle_to_key@[a]).0 != (#[trigger] self.handle_to_key@[b]).0 by {
                        if a == n {
                            assert(old_map[b].0 != handle);
                        } else if b == n {
                            assert(old_map[a].0 != handle);
                        }
                    }
                    self.lemma_handle_at(n);
                    assert forall|g: BindlessImageHandle| g != handle implies #[trigger] self.handle_key(g) == old(self).handle_key(g) by {
                        if exists|j: int| 0 <= j < old_map.len() && old_map[j].0 == g {
                            let j = choose|j: int| 0 <= j < old_map.len() && old_map[j].0 == g;
                            old(self).lemma_handle_at(j);
                            self.lemma_handle_at(j);
                        }
                        if exists|j: int| 0 <= j < self.handle_to_key@.len() && self.handle_to_key@[j].0 == g {
                            let j = choose|j: int| 0 <= j < self.handle_to_key@.len() && self.handle_to_key@[j].0 == g;
                            assert(j != n);
                        }
                    }
                }
            },
        }
    }

    /// Forgets what `handle` maps to.
    fn unmap_handle(&mut self, handle: BindlessImageHandle)
        requires
            old(self).lists_wf(),
        ensures
            final(self).lists_wf(),
            final(self).entries@ == old(self).entries@,
            final(self).pending@ == old(self).pending@,
            final(self).handle_key(handle) is None,
            forall|g: BindlessImageHandle| g != handle ==> #[trigger] final(self).handle_key(g) == old(self).handle_key(g),
    {
        let ghost old_map = self.handle_to_key@;
        match self.find_handle(handle) {
            Some(i) => {
                self.handle_to_key.remove(i);
                proof {
                    assert(self.handle_to_key@ =~= old_map.remove(i as int));
                    assert forall|a: int, b: int|
                        0 <= a < self.handle_to_key@.len() && 0 <= b < self.handle_to_key@.len() && a != b
                            implies (#[trigger] self.handle_to_key@[a]).0 != (#[trigger] self.handle_to_key@[b]).0 by {
                        let aa = if a < i { a } else { a + 1 };
                        let bb = if b < i { b } else { b + 1 };
                        assert(old_map[aa].0 != old_map[bb].0);
                    }
                    assert(self.handle_key(handle) is None) by {
                        if exists|j: int| 0 <= j < self.handle_to_key@.len() && self.handle_to_key@[j].0 == handle {
                            let j = choose|j: int| 0 <= j < self.handle_to_key@.len() && self.handle_to_key@[j].0 == handle;
                            let jj = if j < i { j } else { j + 1 };
                            assert(old_map[jj].0 != old_map[i as int].0);
                        }
                    }
                    assert forall|g: BindlessImageHandle| g != handle implies #[trigger] self.handle_key(g) == old(self).handle_key(g) by {
                        if exists|j: int| 0 <= j < old_map.len() && old_map[j].0 == g {
                            let j = choose|j: int| 0 <= j < old_map.len() && old_map[j].0 == g;
                            old(self).lemma_handle_at(j);
                            assert(j != i);
                            let jj = if j < i { j } else { j - 1 };
                            assert(self.handle_to_key@[jj] == old_map[j]);
                            self.lemma_handle_at(jj);
                        }
                        if exists|j: int| 0 <= j < self.handle_to_key@.len() && self.handle_to_key@[j].0 == g {
                            let j = choose|j: int| 0 <= j < self.handle_to_key@.len() && self.handle_to_key@[j].0 == g;
                            let jj = if j < i { j } else { j + 1 };
                            assert(old_map[jj] == self.handle_to_key@[j]);
                        }
                    }
                }
            },
            None => {},
        }
    }

    /// The bindless handle for the image `key`. The first request reserves a
    /// handle from the backend, records the image as pending and queues it;
    /// later requests return the same handle and change nothing.
    pub fn request_image<V, B: ImagePagerBackend<V>>(&mut self, key: ImagePagerKey, backend: &mut B) -> (handle: BindlessImageHandle)
        requires
            old(self).wf(),
        ensures
            final(self).wf(),
            request_outcome(*old(self), *final(self), key@, handle),
            old(self).entry(key@) is Some ==> *final(backend) == *old(backend),
            old(self).entry(key@) is None ==> {
                &&& !old(backend).reserved().contains(handle)
                &&& final(backend).reserved() == old(backend).reserved().insert(handle)
                &&& final(backend).views().dom() == old(backend).views().dom()
            },
            backed_by(*old(self), *old(backend)) ==> backed_by(*final(self), *final(backend)),
    {
        match self.find_entry(&key) {
            Some(i) => {
                return self.entries[i].handle;
            },
            None => {},
        }
        let handle = backend.reserve_handle();
        let ghost old_entries = self.entries@;
        self.entries.push(ImagePagerEntry { key: key.duplicate(), handle, status: ImagePagerStatus::Pending });
        proof {
            let n = old_entries.len() as int;
            assert forall|a: int, b: int|
                0 <= a < self.entries@.len() && 0 <= b < self.entries@.len() && a != b
                    implies (#[trigger] self.entries@[a]).key@ != (#[trigger] self.entries@[b]).key@ by {
                if a == n {
                    assert(old_entries[b].key@ != key@);
                } else if b == n {
                    assert(old_entries[a].key@ != key@);
                }
            }
            self.lemma_entry_at(n);
            assert forall|k: ImageKeyView| k != key@ implies #[trigger] self.entry(k) == old(self).entry(k) by {
                if exists|j: int| 0 <= j < old_entries.len() && old_entries[j].key@ == k {
                    let j = choose|j: int| 0 <= j < old_entries.len() && old_entries[j].key@ == k;
                    old(self).lemma_entry_at(j);
                    self.lemma_entry_at(j);
                }
                if exists|j: int| 0 <= j < self.entries@.len() && self.entries@[j].key@ == k {
                    let j = choose|j: int| 0 <= j < self.entries@.len() && self.entries@[j].key@ == k;
                    assert(j != n);
                }
            }
        }
        let ghost mid = *self;
        let dup = key.duplicate();
        self.map_handle(handle, dup);
        let ghost after_map = *self;
        proof {
            assert(after_map.handle_key(handle) == Some(key@));
        }
        let ghost old_pending = self.pending@;
        self.pending.push_back(key);
        proof {
            assert(self.pending@ == old_pending.push(key));
            assert(self.pending_keys() =~= old(self).pending_keys().push(key@));
            assert(forall|k: ImageKeyView| #[trigger] self.entry(k) == mid.entry(k));
            assert(self.entry(key@) == Some((handle, ImagePagerStatus::Pending)));
            assert(mid.handle_to_key@ == old(self).handle_to_key@);
            assert(forall|g: BindlessImageHandle| #[trigger] mid.handle_key(g) == old(self).handle_key(g));
            assert(self.handle_to_key@ == after_map.handle_to_key@);
            assert(self.handle_key(handle) == after_map.handle_key(handle));
            assert forall|g: BindlessImageHandle| g != handle implies #[trigger] self.handle_key(g) == old(self).handle_key(g) by {
                assert(self.handle_key(g) == after_map.handle_key(g));
                assert(after_map.handle_key(g) == mid.handle_key(g));
                assert(mid.handle_key(g) == old(self).handle_key(g));
            }
            assert forall|k: ImageKeyView| k != key@ implies #[trigger] self.entry(k) == old(self).entry(k) by {
                assert(self.entry(k) == mid.entry(k));
                assert(mid.entry(k) == old(self).entry(k));
            }
        }
        handle
    }

    /// Records the outcome of loading the image `key`: a pending image becomes
    /// `Ready` when it loaded and `Failed` when it did not. Images that are
    /// not pending, or not known, are left as they are.
    pub fn record_load_result(&mut self, key: &ImagePagerKey, loaded: bool)
        requires
            old(self).wf(),
        ensures
            final(self).wf(),
            forall|k: ImageKeyView| k != key@ ==> #[trigger] final(self).entry(k) == old(self).entry(k),
            final(self).entry(key@) == (match old(self).entry(key@) {
                Some(e) => if e.1 == ImagePagerStatus::Pending {
                    Some((e.0, if loaded { ImagePagerStatus::Ready } else { ImagePagerStatus::Failed }))
                } else {
                    Some(e)
                },
                None => None,
            }),
            forall|g: BindlessImageHandle| #[trigger] final(self).handle_key(g) == old(self).handle_key(g),
            final(self).pending_keys() == old(self).pending_keys(),
    {
        match self.find_entry(key) {
            Some(i) => {
                if self.entries[i].status == ImagePagerStatus::Pending {
                    let ghost old_entries = self.entries@;
                    let status = if loaded { ImagePagerStatus::Ready } else { ImagePagerStatus::Failed };
                    self.entries[i].status = status;
                    proof {
                        assert forall|a: int, b: int|
                            0 <= a < self.entries@.len() && 0 <= b < self.entries@.len() && a != b
                                implies (#[trigger] self.entries@[a]).key@ != (#[trigger] self.entries@[b]).key@ by {
                            assert(old_entries[a].key@ != old_entries[b].key@);
                        }
                        self.lemma_entry_at(i as int);
                        assert forall|k: ImageKeyView| k != key@ implies #[trigger] self.entry(k) == old(self).entry(k) by {
                            if exists|j: int| 0 <= j < old_entries.len() && old_entries[j].key@ == k {
                                let j = choose|j: int| 0 <= j < old_entries.len() && old_entries[j].key@ == k;
                                old(self).lemma_entry_at(j);
                                self.lemma_entry_at(j);
                            }
                            if exists|j: int| 0 <= j < self.entries@.len() && self.entries@[j].key@ == k {
                                let j = choose|j: int| 0 <= j < self.entries@.len() && self.entries@[j].key@ == k;
                                assert(old_entries[j].key@ == k);
                            }
                        }
                        assert(self.handle_to_key@ == old(self).handle_to_key@);
                        assert forall|h: BindlessImageHandle, k: ImageKeyView|
                            #![trigger self.handle_key(h), self.entry(k)]
                            self.handle_key(h) == Some(k) implies (self.entry(k) matches Some(e) && e.0 == h) by {
                            assert(self.handle_key(h) == old(self).handle_key(h));
                            assert(old(self).entry(k) matches Some(e) && e.0 == h);
                        }
                    }
                }
            },
            None => {},
        }
    }

    /// Loads up to `max_per_tick` queued images, oldest first. Each dequeued
    /// image that is still pending is loaded (from disk or from the
    /// database, by its key); on success its view is registered under its
    /// handle and it becomes `Ready`, otherwise it becomes `Failed`. Queued
    /// images that were released or are no longer pending are dropped from
    /// the queue without counting against `max_per_tick`.
    #[verifier::rlimit(60)]
    pub fn process_pending<V, L: ImagePagerLoader<V>, B: ImagePagerBackend<V>>(
        &mut self,
        loader: &mut L,
        backend: &mut B,
        max_per_tick: usize,
    )
        requires
            old(self).wf(),
        ensures
            final(self).wf(),
            forall|g: BindlessImageHandle| #[trigger] final(self).handle_key(g) == old(self).handle_key(g),
            forall|k: ImageKeyView| entry_progressed(#[trigger] old(self).entry(k), final(self).entry(k)),
            exists|n: int| 0 <= n <= old(self).pending_keys().len() && {
                &&& final(self).pending_keys() == old(self).pending_keys().subrange(n, old(self).pending_keys().len() as int)
                &&& forall|j: int| 0 <= j < n ==> match #[trigger] final(self).entry(old(self).pending_keys()[j]) {
                    Some(f) => f.1 != ImagePagerStatus::Pending,
                    None => true,
                }
                &&& (max_per_tick > 0 && old(self).pending_keys().len() > 0) ==> n > 0
                &&& forall|k: ImageKeyView| !old(self).pending_keys().subrange(0, n).contains(k)
                    ==> #[trigger] final(self).entry(k) == old(self).entry(k)
                &&& loads_in(*old(self), old(self).pending_keys(), n as nat) <= max_per_tick
                &&& n < old(self).pending_keys().len() ==> loads_in(*old(self), old(self).pending_keys(), n as nat) == max_per_tick
                &&& n > 0 ==> loads_in(*old(self), old(self).pending_keys(), (n - 1) as nat) < max_per_tick
                &&& final(loader).loads().len() == old(loader).loads().len() + loaded_keys(*old(self), old(self).pending_keys(), n as nat).len()
                &&& final(loader).loads().subrange(0, old(loader).loads().len() as int) == old(loader).loads()
                &&& answered(
                    *old(self),
                    *final(self),
                    loaded_keys(*old(self), old(self).pending_keys(), n as nat),
                    final(loader).loads().subrange(old(loader).loads().len() as int, final(loader).loads().len() as int),
                )
                &&& final(backend).views().dom() == old(backend).views().dom().union(
                    ready_handles(*final(self), loaded_keys(*old(self), old(self).pending_keys(), n as nat)),
                )
                &&& final(backend).views().remove_keys(ready_handles(*final(self), loaded_keys(*old(self), old(self).pending_keys(), n as nat)))
                    == old(backend).views().remove_keys(ready_handles(*final(self), loaded_keys(*old(self), old(self).pending_keys(), n as nat)))
                &&& backed_by(*old(self), *old(backend)) ==> views_placed(
                    *old(self),
                    *final(backend),
                    loaded_keys(*old(self), old(self).pending_keys(), n as nat),
                    final(loader).loads().subrange(old(loader).loads().len() as int, final(loader).loads().len() as int),
                )
            },
            final(backend).reserved() == old(backend).reserved(),
            backed_by(*old(self), *old(backend)) ==> backed_by(*final(self), *final(backend)),
    {
        let ghost old_keys = old(self).pending_keys();
        let mut processed: usize = 0;
        let ghost mut popped: int = 0;
        let ghost mut answers: Seq<(ImageKeyView, Option<V>)> = Seq::empty();
        while processed < max_per_tick
            invariant
                self.wf(),
                0 <= popped <= old_keys.len(),
                self.pending_keys() == old_keys.subrange(popped, old_keys.len() as int),
                processed <= max_per_tick,
                (max_per_tick > 0 && old_keys.len() > 0 && processed == max_per_tick) ==> popped > 0,
                forall|g: BindlessImageHandle| #[trigger] self.handle_key(g) == old(self).handle_key(g),
                forall|k: ImageKeyView| entry_progressed(#[trigger] old(self).entry(k), self.entry(k)),
                forall|j: int| 0 <= j < popped ==> match #[trigger] self.entry(old_keys[j]) {
                    Some(f) => f.1 != ImagePagerStatus::Pending,
                    None => true,
                },
                processed == loads_in(*old(self), old_keys, popped as nat),
                forall|k: ImageKeyView| !old_keys.subrange(0, popped).contains(k) ==> #[trigger] self.entry(k) == old(self).entry(k),
                popped > 0 ==> loads_in(*old(self), old_keys, (popped - 1) as nat) < max_per_tick,
                loader.loads() == old(loader).loads() + answers,
                answered(*old(self), *self, loaded_keys(*old(self), old_keys, popped as nat), answers),
                backend.reserved() == old(backend).reserved(),
                backend.views().dom() == old(backend).views().dom().union(
                    ready_handles(*self, loaded_keys(*old(self), old_keys, popped as nat)),
                ),
                backend.views().remove_keys(ready_handles(*self, loaded_keys(*old(self), old_keys, popped as nat)))
                    == old(backend).views().remove_keys(ready_handles(*self, loaded_keys(*old(self), old_keys, popped as nat))),
                backed_by(*old(self), *old(backend)) ==> views_placed(*old(self), *backend, loaded_keys(*old(self), old_keys, popped as nat), answers),
            ensures
                self.wf(),
                0 <= popped <= old_keys.len(),
                self.pending_keys() == old_keys.subrange(popped, old_keys.len() as int),
                (max_per_tick > 0 && old_keys.len() > 0) ==> popped > 0,
                forall|g: BindlessImageHandle| #[trigger] self.handle_key(g) == old(self).handle_key(g),
                forall|k: ImageKeyView| entry_progressed(#[trigger] old(self).entry(k), self.entry(k)),
                forall|j: int| 0 <= j < popped ==> match #[trigger] self.entry(old_keys[j]) {
                    Some(f) => f.1 != ImagePagerStatus::Pending,
                    None => true,
                },
                processed == loads_in(*old(self), old_keys, popped as nat),
                forall|k: ImageKeyView| !old_keys.subrange(0, popped).contains(k) ==> #[trigger] self.entry(k) == old(self).entry(k),
                popped > 0 ==> loads_in(*old(self), old_keys, (popped - 1) as nat) < max_per_tick,
                loader.loads() == old(loader).loads() + answers,
                answered(*old(self), *self, loaded_keys(*old(self), old_keys, popped as nat), answers),
                backend.reserved() == old(backend).reserved(),
                backend.views().dom() == old(backend).views().dom().union(
                    ready_handles(*self, loaded_keys(*old(self), old_keys, popped as nat)),
                ),
                backend.views().remove_keys(ready_handles(*self, loaded_keys(*old(self), old_keys, popped as nat)))
                    == old(backend).views().remove_keys(ready_handles(*self, loaded_keys(*old(self), old_keys, popped as nat))),
                backed_by(*old(self), *old(backend)) ==> views_placed(*old(self), *backend, loaded_keys(*old(self), old_keys, popped as nat), answers),
                processed <= max_per_tick,
                popped < old_keys.len() ==> processed == max_per_tick,
            decreases self.pending@.len(),
        {
            let ghost before = *self;
            let ghost before_pending = self.pending@;
            let ghost loader_before = *loader;
            let ghost backend_before = *backend;
            let ghost answers_before = answers;
            let key = match self.pending.pop_front() {
                Some(k) => k,
                None => {
                    proof {
                        assert(before_pending.len() == 0);
                        assert(self.pending_keys().len() == 0);
                        assert(self.entries@ == before.entries@);
                        assert(self.handle_to_key@ == before.handle_to_key@);
                        assert(forall|g: BindlessImageHandle| #[trigger] self.handle_key(g) == before.handle_key(g));
                        assert(forall|k: ImageKeyView| #[trigger] self.entry(k) == before.entry(k));
                        lemma_ready_handles_same(*self, before, loaded_keys(*old(self), old_keys, popped as nat));
                        lemma_answered_same(*old(self), before, *self, loaded_keys(*old(self), old_keys, popped as nat), answers);
                    }
                    break;
                },
            };
            proof {
                assert(self.pending@ == before_pending.drop_first());
                assert(key == before_pending[0]);
                assert(before.pending_keys()[0] == key@);
                assert(before.pending_keys() == old_keys.subrange(popped, old_keys.len() as int));
                assert(before.pending_keys().len() > 0);
                assert(old_keys[popped] == key@);
                assert(self.pending_keys() =~= before.pending_keys().drop_first());
                assert(self.pending_keys() =~= old_keys.subrange(popped + 1, old_keys.len() as int));
            }
            proof {
                popped = popped + 1;
                assert(self.handle_to_key@ == before.handle_to_key@);
                assert(self.entries@ == before.entries@);
                assert(forall|g: BindlessImageHandle| #[trigger] self.handle_key(g) == before.handle_key(g));
                assert(forall|k: ImageKeyView| #[trigger] self.entry(k) == before.entry(k));
            }
            let ghost after_pop = *self;
            let ghost mut did_load = false;
            let ghost mut load_ok = false;
            let ghost mut load_answer: Option<V> = None;
            let ghost mut load_handle: BindlessImageHandle = 0;
            let found = self.find_entry(&key);
            match found {
                Some(i) => {
                    if self.entries[i].status == ImagePagerStatus::Pending {
                        let handle = self.entries[i].handle;
                        let result = match &key {
                            ImagePagerKey::Disk(path) => loader.load_from_disk(path),
                            ImagePagerKey::Database(db_key) => loader.load_from_database(db_key),
                        };
                        let ghost answer = answer_of(result);
                        proof {
                            assert(loader.loads() == loader_before.loads().push((key@, answer)));
                            answers = answers.push((key@, answer));
                        }
                        let loaded = match result {
                            Ok(view) => {
                                backend.register_image(handle, view);
                                true
                            },
                            Err(_) => false,
                        };
                        let ghost mid = *self;
                        self.record_load_result(&key, loaded);
                        proof {
                            did_load = true;
                            load_ok = loaded;
                            assert((answers.last().1 is Some) == loaded);
                            load_answer = answer;
                            load_handle = handle;
                            assert(after_pop.entry(key@) == Some((handle, ImagePagerStatus::Pending)));
                            assert(mid == after_pop);
                            assert forall|k: ImageKeyView| k != key@ implies #[trigger] self.entry(k) == after_pop.entry(k) by {
                            }
                            assert forall|j: int| 0 <= j < popped implies match #[trigger] self.entry(old_keys[j]) {
                                Some(f) => f.1 != ImagePagerStatus::Pending,
                                None => true,
                            } by {
                                if old_keys[j] != key@ {
                                    assert(self.entry(old_keys[j]) == mid.entry(old_keys[j]));
                                }
                            }
                            assert forall|k: ImageKeyView| true implies entry_progressed(#[trigger] old(self).entry(k), self.entry(k)) by {
                                if k != key@ {
                                    assert(self.entry(k) == mid.entry(k));
                                }
                            }
                        }
                        processed = processed + 1;
                    }
                },
                None => {},
            }
            proof {
                assert forall|k: ImageKeyView| !old_keys.subrange(0, popped).contains(k) implies #[trigger] self.entry(k) == old(self).entry(k) by {
                    assert(old_keys.subrange(0, popped)[popped - 1] == key@);
                    let pre = old_keys.subrange(0, popped - 1);
                    if pre.contains(k) {
                        let w = choose|w: int| 0 <= w < pre.len() && pre[w] == k;
                        assert(old_keys.subrange(0, popped)[w] == k);
                    }
                    assert(k != key@);
                    assert(self.entry(k) == after_pop.entry(k));
                }
                let j = popped - 1;
                let ok = old(self);
                let lk = loaded_keys(*old(self), old_keys, j as nat);
                assert(old_keys[j] == key@);
                assert(loaded_keys(*old(self), old_keys, popped as nat) == lk + if first_pending_at(*old(self), old_keys, j) {
                    seq![key@]
                } else {
                    Seq::empty()
                });
                let earlier = old_keys.subrange(0, j);
                if earlier.contains(key@) {
                    let w = choose|w: int| 0 <= w < earlier.len() && earlier[w] == key@;
                    assert(old_keys[w] == key@);
                    assert(!first_pending_at(*old(self), old_keys, j));
                } else {
                    assert(before.entry(key@) == old(self).entry(key@));
                }
                assert(did_load == first_pending_at(*old(self), old_keys, j));
                if did_load {
                    assert forall|i: int| 0 <= i < lk.len() implies #[trigger] self.entry(lk[i]) == before.entry(lk[i]) by {
                        assert(lk.contains(lk[i]));
                        lemma_loaded_keys_earlier(*old(self), old_keys, j as nat, lk[i]);
                        let w = choose|w: int| 0 <= w < earlier.len() && earlier[w] == lk[i];
                        assert(old_keys[w] == lk[i]);
                    }
                    let nk = lk + seq![key@];
                    assert(loaded_keys(*old(self), old_keys, popped as nat) == nk);
                    assert(nk[lk.len() as int] == key@);
                    assert forall|h: BindlessImageHandle| #[trigger] ready_handles(*self, nk).contains(h) <==> (ready_handles(
                        before,
                        lk,
                    ).contains(h) || (load_ok && h == load_handle)) by {
                        if ready_handles(*self, nk).contains(h) {
                            let i = choose|i: int| 0 <= i < nk.len() && #[trigger] self.entry(nk[i]) == Some((h, ImagePagerStatus::Ready));
                            if i < lk.len() {
                                assert(nk[i] == lk[i]);
                                assert(before.entry(lk[i]) == Some((h, ImagePagerStatus::Ready)));
                            }
                        }
                        if ready_handles(before, lk).contains(h) {
                            let i = choose|i: int| 0 <= i < lk.len() && #[trigger] before.entry(lk[i]) == Some((h, ImagePagerStatus::Ready));
                            assert(nk[i] == lk[i]);
                            assert(self.entry(nk[i]) == Some((h, ImagePagerStatus::Ready)));
                        }
                        if load_ok && h == load_handle {
                            assert(self.entry(nk[lk.len() as int]) == Some((h, ImagePagerStatus::Ready)));
                        }
                    }
                    assert(backend.views().dom() =~= old(backend).views().dom().union(ready_handles(*self, nk)));
                    assert(loader.loads() =~= old(loader).loads() + answers);
                    let prev = answers_before;
                    assert(answers == prev.push((key@, load_answer)));
                    assert(old(self).entry(key@) == before.entry(key@));
                    lemma_answered_step(*old(self), before, *self, lk, prev, key@, load_handle, load_answer);
                    assert(nk == lk.push(key@));
                    let r_before = ready_handles(before, lk);
                    let r_after = ready_handles(*self, nk);
                    assert(backend.views().remove_keys(r_after) =~= old(backend).views().remove_keys(r_after)) by {
                        assert(backend_before.views().remove_keys(r_before) == old(backend).views().remove_keys(r_before));
                        assert forall|x: BindlessImageHandle| !r_after.contains(x) implies
                            (backend.views().contains_key(x) == backend_before.views().contains_key(x)
                            && (backend.views().contains_key(x) ==> backend.views()[x] == backend_before.views()[x])) by {
                            assert(!r_before.contains(x));
                        }
                        assert forall|x: BindlessImageHandle| !r_after.contains(x) implies
                            (backend_before.views().contains_key(x) == old(backend).views().contains_key(x)
                            && (old(backend).views().contains_key(x) ==> backend_before.views()[x] == old(backend).views()[x])) by {
                            assert(!r_before.contains(x));
                            assert(old(backend).views().remove_keys(r_before).contains_key(x) == old(backend).views().contains_key(x));
                            assert(backend_before.views().remove_keys(r_before).contains_key(x) == backend_before.views().contains_key(x));
                            if old(backend).views().contains_key(x) {
                                assert(old(backend).views().remove_keys(r_before)[x] == old(backend).views()[x]);
                                assert(backend_before.views().remove_keys(r_before)[x] == backend_before.views()[x]);
                            }
                        }
                    }
                    if backed_by(*old(self), *old(backend)) {
                        assert(answered(*old(self), before, lk, prev));
                        assert forall|i: int| 0 <= i < lk.len() implies #[trigger] old(self).entry(lk[i]) is Some
                            && old(self).entry(lk[i]).unwrap().0 != old(self).entry(key@).unwrap().0 by {
                            assert(answered_at(*old(self), before, lk, prev, i));
                            assert(lk.contains(lk[i]));
                            lemma_loaded_keys_earlier(*old(self), old_keys, j as nat, lk[i]);
                            let w = choose|w: int| 0 <= w < earlier.len() && earlier[w] == lk[i];
                            assert(old_keys[w] == lk[i]);
                            assert(lk[i] != key@);
                            assert(old(self).handle_key(old(self).entry(lk[i]).unwrap().0) == Some(lk[i]));
                            assert(old(self).handle_key(old(self).entry(key@).unwrap().0) == Some(key@));
                        }
                        lemma_views_placed_step(*old(self), backend_before, *backend, lk, prev, key@, load_answer);
                    }
                } else {
                    assert(loaded_keys(*old(self), old_keys, popped as nat) =~= lk);
                    assert(self.entries@ == before.entries@);
                    assert(forall|k: ImageKeyView| #[trigger] self.entry(k) == before.entry(k));
                    assert(loader.loads() == loader_before.loads());
                    lemma_answered_same(*old(self), before, *self, lk, answers);
                    lemma_ready_handles_same(*self, before, lk);
                }
            }
        }
        proof {
            assert(0 <= popped <= old(self).pending_keys().len());
            let ol = old(loader).loads().len() as int;
            assert(loader.loads().subrange(0, ol) =~= old(loader).loads());
            assert(loader.loads().subrange(ol, loader.loads().len() as int) =~= answers);
        }
    }

    /// Forgets the image `key`: its handle is released to the backend and no
    /// longer maps to it. Unknown keys change nothing.
    pub fn release_by_key<V, B: ImagePagerBackend<V>>(&mut self, key: &ImagePagerKey, backend: &mut B)
        requires
            old(self).wf(),
        ensures
            final(self).wf(),
            key_released(*old(self), *final(self), *old(backend), *final(backend), key@),
            backed_by(*old(self), *old(backend)) ==> backed_by(*final(self), *final(backend)),
    {
        let i = match self.find_entry(key) {
            Some(i) => i,
            None => return,
        };
        let ghost old_entries = self.entries@;
        let entry = self.entries.remove(i);
        proof {
            assert(self.entries@ =~= old_entries.remove(i as int));
            assert forall|a: int, b: int|
                0 <= a < self.entries@.len() && 0 <= b < self.entries@.len() && a != b
                    implies (#[trigger] self.entries@[a]).key@ != (#[trigger] self.entries@[b]).key@ by {
                let aa = if a < i { a } else { a + 1 };
                let bb = if b < i { b } else { b + 1 };
                assert(old_entries[aa].key@ != old_entries[bb].key@);
            }
            assert(self.entry(key@) is None) by {
                if exists|j: int| 0 <= j < self.entries@.len() && self.entries@[j].key@ == key@ {
                    let j = choose|j: int| 0 <= j < self.entries@.len() && self.entries@[j].key@ == key@;
                    let jj = if j < i { j } else { j + 1 };
                    assert(old_entries[jj].key@ != old_entries[i as int].key@);
                }
            }
            assert forall|k: ImageKeyView| k != key@ implies #[trigger] self.entry(k) == old(self).entry(k) by {
                if exists|j: int| 0 <= j < old_entries.len() && old_entries[j].key@ == k {
                    let j = choose|j: int| 0 <= j < old_entries.len() && old_entries[j].key@ == k;
                    old(self).lemma_entry_at(j);
                    let jj = if j < i { j } else { j - 1 };
                    assert(self.entries@[jj] == old_entries[j]);
                    self.lemma_entry_at(jj);
                }
                if exists|j: int| 0 <= j < self.entries@.len() && self.entries@[j].key@ == k {
                    let j = choose|j: int| 0 <= j < self.entries@.len() && self.entries@[j].key@ == k;
                    let jj = if j < i { j } else { j + 1 };
                    assert(old_entries[jj] == self.entries@[j]);
                }
            }
        }
        backend.release_image(entry.handle);
        let ghost mid = *self;
        self.unmap_handle(entry.handle);
        proof {
            assert forall|k: ImageKeyView| k != key@ implies #[trigger] self.entry(k) == old(self).entry(k) by {
                assert(self.entry(k) == mid.entry(k));
            }
            assert(self.entry(key@) == mid.entry(key@));
            assert(self.pending_keys() == mid.pending_keys());
            assert forall|g: BindlessImageHandle| g != entry.handle implies #[trigger] self.handle_key(g) == old(self).handle_key(g) by {
                assert(self.handle_key(g) == mid.handle_key(g));
                assert(mid.handle_to_key@ == old(self).handle_to_key@);
            }
        }
    }

    /// Releases the image that `handle` was reserved for: the handle no
    /// longer maps to it and the image's entry is released as by
    /// `release_by_key`. Unknown handles change nothing.
    pub fn release_by_handle<V, B: ImagePagerBackend<V>>(&mut self, handle: BindlessImageHandle, backend: &mut B)
        requires
            old(self).wf(),
        ensures
            final(self).wf(),
            handle_released(*old(self), *final(self), *old(backend), *final(backend), handle),
            backed_by(*old(self), *old(backend)) ==> backed_by(*final(self), *final(backend)),
    {
        let i = match self.find_handle(handle) {
            Some(i) => i,
            None => return,
        };
        let key = self.handle_to_key[i].1.duplicate();
        let ghost kv = key@;
        let ghost old_self = *self;
        self.unmap_handle(handle);
        let ghost mid = *self;
        proof {
            assert(forall|k: ImageKeyView| #[trigger] mid.entry(k) == old_self.entry(k));
        }
        self.release_by_key(&key, backend);
        proof {
            assert(forall|k: ImageKeyView| k != kv ==> #[trigger] self.entry(k) == old(self).entry(k));
            if let Some(e) = old(self).entry(kv) {
                assert(mid.entry(kv) == Some(e));
                assert forall|g: BindlessImageHandle| g != handle && g != e.0 implies #[trigger] self.handle_key(g) == old(self).handle_key(g) by {
                    assert(self.handle_key(g) == mid.handle_key(g));
                }
                if e.0 != handle {
                    assert(self.handle_key(handle) == mid.handle_key(handle));
                }
            } else {
                assert forall|g: BindlessImageHandle| g != handle implies #[trigger] self.handle_key(g) == old(self).handle_key(g) by {
                    assert(self.handle_key(g) == mid.handle_key(g));
                }
                assert(self.handle_key(handle) == mid.handle_key(handle));
            }
        }
    }
}

impl Default for ImagePager {
    fn default() -> (p: ImagePager)
        ensures
            p.wf(),
            forall|k: ImageKeyView| p.entry(k) is None,
            forall|h: BindlessImageHandle| p.handle_key(h) is None,
            p.pending_keys() == Seq::<ImageKeyView>::empty(),
    {
        ImagePager::new()
    }
}

} // verus!
