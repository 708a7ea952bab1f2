use vstd::prelude::*;
use crate::handle::{Handle, INVALID_HANDLE, pack_handle, unpack_handle, packed_value, unpacked};
use crate::pool::{Pool, MAX_POOL_SLOTS};

verus! {

/// How many cameras the culling pass can look through at once.
pub const MAX_ACTIVE_VIEWS: usize = 8;

/// How many children one scene object can hold.
pub const MAX_CHILDREN: usize = 16;

/// What a new scene object starts with; `M` is the transform type.
pub struct SceneObjectInfo<M> {
    pub local: M,
    pub global: M,
    pub scene_mask: u32,
}

/// A scene object as the culling pass reads it: its transforms, its scene
/// mask, its bindless transformation (packed), and its links to its parent
/// and children (packed handles, `INVALID_HANDLE` for none).
#[derive(Clone, Copy)]
pub struct SceneObject<M> {
    pub local_transform: M,
    pub world_transform: M,
    pub scene_mask: u32,
    pub transformation: u32,
    pub parent_slot: u32,
    pub dirty: u32,
    pub active: u32,
    pub parent: u32,
    pub child_count: u32,
    pub children: [u32; 16],
}

/// One draw bin: objects whose scene mask meets `mask` go to bin `id`.
#[derive(Clone, Copy, Debug, PartialEq, Eq, Structural)]
pub struct SceneBin {
    pub id: u32,
    pub mask: u32,
}

#[derive(Clone, Copy, Debug, PartialEq, Eq, Structural)]
pub struct GPUSceneLimits {
    pub max_num_scene_objects: u32,
    pub max_num_views: u32,
}

pub struct GPUSceneInfo<'a> {
    pub name: &'a str,
    pub draw_bins: &'a [SceneBin],
    pub limits: GPUSceneLimits,
}

impl<'a> Default for GPUSceneInfo<'a> {
    fn default() -> (info: Self)
        ensures
            info.draw_bins@.len() == 0,
            info.limits == (GPUSceneLimits { max_num_scene_objects: 2048, max_num_views: 4 }),
    {
        GPUSceneInfo {
            name: "",
            draw_bins: &[],
            limits: GPUSceneLimits { max_num_scene_objects: 2048, max_num_views: 4 },
        }
    }
}

/// The cameras the culling pass looks through: `count` of them, by slot.
#[derive(Clone, Copy, Debug)]
pub struct ActiveCameras {
    pub count: u32,
    pub slots: [u32; 8],
}

impl Default for ActiveCameras {
    fn default() -> (c: Self)
        ensures
            c.count == 0,
            forall|i: int| 0 <= i < MAX_ACTIVE_VIEWS ==> c.slots@[i] == u32::MAX,
    {
        ActiveCameras { count: 0, slots: [u32::MAX; 8] }
    }
}

/// The parameters that the culling dispatch reads.
#[derive(Clone, Copy, Debug, PartialEq, Eq, Structural)]
pub struct SceneDispatchInfo {
    pub num_bins: u32,
    pub max_objects: u32,
    pub num_views: u32,
}

/// A scene object's links are sound: at most `MAX_CHILDREN` children, and
/// every child entry past the count is empty.
pub open spec fn links_wf<M>(o: SceneObject<M>) -> bool {
    &&& o.child_count as int <= MAX_CHILDREN
    &&& forall|k: int| o.child_count as int <= k < MAX_CHILDREN ==> o.children@[k] == INVALID_HANDLE
}

/// The first position of `packed` among a child array, if any.
pub open spec fn child_position(children: Seq<u32>, packed: u32) -> Option<int> {
    if exists|k: int| 0 <= k < children.len() && children[k] == packed {
        Some(choose|k: int| 0 <= k < children.len() && children[k] == packed && forall|j: int| 0 <= j < k ==> children[j] != packed)
    } else {
        None
    }
}

/// The child array after dropping position `idx` from a list of `count`
/// children: later children move down one place and position `count - 1`
/// becomes empty.
pub open spec fn children_without(children: Seq<u32>, count: int, idx: int) -> Seq<u32> {
    Seq::new(children.len(), |k: int|
        if k == count - 1 {
            INVALID_HANDLE
        } else if idx <= k && k < count - 1 {
            children[k + 1]
        } else {
            children[k]
        })
}


/// Dropping position `idx` of `count` children keeps the others in their
/// order, closes the gap, empties the freed last place and leaves the
/// places past the children alone.
pub proof fn lemma_children_without_order(children: Seq<u32>, count: int, idx: int)
    requires
        0 <= idx < count <= children.len(),
    ensures
        children_without(children, count, idx).len() == children.len(),
        children_without(children, count, idx).subrange(0, count - 1) == children.subrange(0, idx) + children.subrange(idx + 1, count),
        children_without(children, count, idx)[count - 1] == INVALID_HANDLE,
        forall|k: int| count <= k < children.len() ==> #[trigger] children_without(children, count, idx)[k] == children[k],
{
    let w = children_without(children, count, idx);
    assert(w.subrange(0, count - 1) =~= children.subrange(0, idx) + children.subrange(idx + 1, count));
}

/// The fields that link operations never touch are equal.
pub open spec fn same_payload<M>(a: SceneObject<M>, b: SceneObject<M>) -> bool {
    &&& a.local_transform == b.local_transform
    &&& a.world_transform == b.world_transform
    &&& a.scene_mask == b.scene_mask
    &&& a.transformation == b.transformation
    &&& a.active == b.active
}

/// `n` is `o` with its parent link, parent slot and dirty flag untouched.
pub open spec fn same_parent_link<M>(a: SceneObject<M>, b: SceneObject<M>) -> bool {
    &&& a.parent == b.parent
    &&& a.parent_slot == b.parent_slot
    &&& a.dirty == b.dirty
}

/// `n` is `o` with the same children.
pub open spec fn same_children<M>(a: SceneObject<M>, b: SceneObject<M>) -> bool {
    &&& a.child_count == b.child_count
    &&& a.children@ == b.children@
}

/// The children of `n` are those of `o` with `packed` appended, when there
/// is room; otherwise they are unchanged.
pub open spec fn children_appended<M>(o: SceneObject<M>, n: SceneObject<M>, packed: u32) -> bool {
    if (o.child_count as int) < MAX_CHILDREN {
        &&& n.child_count == o.child_count + 1
        &&& n.children@ == o.children@.update(o.child_count as int, packed)
    } else {
        same_children(o, n)
    }
}

/// `n` points at `parent` as its parent and is marked dirty.
pub open spec fn parent_set_to<M>(n: SceneObject<M>, parent: Handle) -> bool {
    &&& n.parent as int == packed_value(parent)
    &&& n.parent_slot == parent.slot as u32
    &&& n.dirty == 1
}

/// `n` has no parent and is marked dirty.
pub open spec fn parent_cleared<M>(n: SceneObject<M>) -> bool {
    &&& n.parent == INVALID_HANDLE
    &&& n.parent_slot == u32::MAX
    &&& n.dirty == 1
}

/// The children of `n` are those of `o` with position `idx` dropped.
pub open spec fn children_removed<M>(o: SceneObject<M>, n: SceneObject<M>, idx: int) -> bool {
    &&& n.child_count == o.child_count - 1
    &&& n.children@ == children_without(o.children@, o.child_count as int, idx)
}

/// The record a newly registered object starts with.
pub open spec fn is_fresh_object<M>(o: SceneObject<M>, info: SceneObjectInfo<M>, transformation: Handle) -> bool {
    &&& o.local_transform == info.local
    &&& o.world_transform == info.global
    &&& o.scene_mask == info.scene_mask
    &&& o.transformation as int == packed_value(transformation)
    &&& o.parent_slot == u32::MAX
    &&& o.active == 1
    &&& o.dirty == 0
    &&& o.parent == INVALID_HANDLE
    &&& o.child_count == 0
    &&& forall|k: int| 0 <= k < MAX_CHILDREN ==> o.children@[k] == INVALID_HANDLE
}

/// The number of culling workgroups of 64 objects each for `n` objects,
/// at least one.
pub open spec fn workgroups_for(n: int) -> int {
    if n <= 1 { 1 } else { (n + 63) / 64 }
}

/// The culling dispatch covers every object and no more workgroups than
/// that takes: `workgroups_for(n)` groups of 64 hold the `n` objects, one
/// group fewer would not (with at least one group even for no objects).
pub proof fn lemma_workgroups_cover(n: int)
    requires
        n >= 0,
    ensures
        workgroups_for(n) >= 1,
        workgroups_for(n) * 64 >= n,
        (workgroups_for(n) - 1) * 64 < vstd::math::max(n, 1),
{
    if n > 1 {
        assert((n + 63) / 64 * 64 >= n) by (nonlinear_arith) requires n > 1;
        assert(((n + 63) / 64 - 1) * 64 < n) by (nonlinear_arith) requires n > 1;
        assert((n + 63) / 64 >= 1) by (nonlinear_arith) requires n > 1;
    }
}


/// Registering an object and then releasing it leaves the scene's objects as
/// they were, and the release hands back the transformation handle the
/// object was registered with, when that handle is valid.
pub proof fn lemma_register_then_release_restores<M>(
    before: Map<Handle, SceneObject<M>>,
    registered: Map<Handle, SceneObject<M>>,
    released: Map<Handle, SceneObject<M>>,
    h: Handle,
    info: SceneObjectInfo<M>,
    transformation: Handle,
    returned: Option<Handle>,
)
    requires
        !before.contains_key(h),
        registered.dom() == before.dom().insert(h),
        forall|x: Handle| #[trigger] before.contains_key(x) ==> registered[x] == before[x],
        is_fresh_object(registered[h], info, transformation),
        released == registered.remove(h),
        returned == (if unpacked(registered[h].transformation).is_valid() {
            Some(unpacked(registered[h].transformation))
        } else {
            None
        }),
    ensures
        released == before,
        returned == (if transformation.is_valid() { Some(transformation) } else { None }),
{
    crate::handle::lemma_pack_roundtrip(transformation, transformation);
    assert(released =~= before);
}

/// Adding a child to a parent with room and then removing it again gives the
/// parent back the child list it had, when the child is a valid handle that
/// the parent did not list already.
pub proof fn lemma_add_then_remove_child_restores<M>(
    o: SceneObject<M>,
    added: SceneObject<M>,
    removed: SceneObject<M>,
    child: Handle,
)
    requires
        links_wf(o),
        (o.child_count as int) < MAX_CHILDREN,
        child.is_valid(),
        forall|k: int| 0 <= k < o.child_count ==> o.children@[k] as int != packed_value(child),
        children_appended(o, added, packed_value(child) as u32),
        child_position(added.children@, packed_value(child) as u32) matches Some(idx)
            && children_removed(added, removed, idx),
    ensures
        child_position(added.children@, packed_value(child) as u32) == Some(o.child_count as int),
        removed.child_count == o.child_count,
        removed.children@ == o.children@,
{
    let pc = packed_value(child) as u32;
    crate::handle::lemma_pack_roundtrip(child, Handle::spec_invalid());
    let c = o.child_count as int;
    assert(added.children@[c] == pc);
    assert forall|k: int| 0 <= k < c implies added.children@[k] != pc by {
        assert(added.children@[k] == o.children@[k]);
    }
    let idx = choose|k: int| 0 <= k < added.children@.len() && added.children@[k] == pc
        && forall|j: int| 0 <= j < k ==> added.children@[j] != pc;
    assert(idx == c) by {
        if idx > c { assert(added.children@[c] == pc); }
    }
    assert(removed.children@ =~= o.children@) by {
        assert forall|k: int| 0 <= k < MAX_CHILDREN implies removed.children@[k] == o.children@[k] by {
            if k == c {
                assert(o.children@[k] == INVALID_HANDLE);
            } else {
                assert(added.children@[k] == o.children@[k]);
            }
        }
    }
}

/// The scene: its objects in a generational pool, the handles of the live
/// objects in registration order, the draw bins, the active cameras and the
/// culling dispatch parameters.
pub struct GPUScene<M> {
    objects: Pool<SceneObject<M>>,
    active_objects: Vec<Handle>,
    bin_descriptions: Vec<SceneBin>,
    max_views: u32,
    camera: ActiveCameras,
    dispatch: SceneDispatchInfo,
}

impl<M: Copy> GPUScene<M> {
    pub closed spec fn wf(self) -> bool {
        &&& self.objects.wf()
        &&& forall|h: Handle| #[trigger] self.objects@.contains_key(h) ==> links_wf(self.objects@[h])
        &&& self.active_objects@.no_duplicates()
        &&& forall|h: Handle| #[trigger] self.active_objects@.contains(h) <==> self.objects@.contains_key(h)
        &&& self.camera.count <= self.max_views
        &&& self.camera.count as int <= MAX_ACTIVE_VIEWS
    }

    /// In a well-formed scene every live object has at most `MAX_CHILDREN`
    /// children, its unused child slots hold `INVALID_HANDLE`, the live
    /// handles are listed once each, and no more cameras are active than
    /// the scene has views for.
    pub proof fn lemma_wf_facts(self)
        requires
            self.wf(),
        ensures
            forall|h: Handle| #[trigger] self.objects().contains_key(h) ==> links_wf(self.objects()[h]),
            self.active_objects().no_duplicates(),
            forall|h: Handle| #[trigger] self.active_objects().contains(h) <==> self.objects().contains_key(h),
            self.cameras().count <= self.max_views(),
            self.cameras().count as int <= MAX_ACTIVE_VIEWS,
    {
    }

    /// The live objects, by handle.
    pub closed spec fn objects(self) -> Map<Handle, SceneObject<M>> {
        self.objects@
    }

    /// The handles of the live objects, in registration order.
    pub closed spec fn active_objects(self) -> Seq<Handle> {
        self.active_objects@
    }

    pub closed spec fn bins(self) -> Seq<SceneBin> {
        self.bin_descriptions@
    }

    pub closed spec fn max_views(self) -> u32 {
        self.max_views
    }

    pub closed spec fn cameras(self) -> ActiveCameras {
        self.camera
    }

    pub closed spec fn dispatch_info(self) -> SceneDispatchInfo {
        self.dispatch
    }

    pub fn new(info: &GPUSceneInfo) -> (s: Self)
        ensures
            s.wf(),
            s.objects() == Map::<Handle, SceneObject<M>>::empty(),
            s.active_objects() == Seq::<Handle>::empty(),
            s.bins() == info.draw_bins@,
            s.max_views() == info.limits.max_num_views,
            s.cameras().count == 0,
            forall|i: int| 0 <= i < MAX_ACTIVE_VIEWS ==> s.cameras().slots@[i] == u32::MAX,
            s.dispatch_info() == (SceneDispatchInfo {
                num_bins: info.draw_bins@.len() as u32,
                max_objects: info.limits.max_num_scene_objects,
                num_views: info.limits.max_num_views,
            }),
    {
        let mut bins: Vec<SceneBin> = Vec::new();
        let mut i: usize = 0;
        while i < info.draw_bins.len()
            invariant
                i <= info.draw_bins@.len(),
                bins@ == info.draw_bins@.subrange(0, i as int),
            decreases info.draw_bins@.len() - i,
        {
            bins.push(info.draw_bins[i]);
            i += 1;
            proof {
                assert(bins@ =~= info.draw_bins@.subrange(0, i as int));
            }
        }
        proof {
            assert(bins@ =~= info.draw_bins@);
        }
        let s = GPUScene {
            objects: Pool::new(),
            active_objects: Vec::new(),
            bin_descriptions: bins,
            max_views: info.limits.max_num_views,
            camera: ActiveCameras::default(),
            dispatch: SceneDispatchInfo {
                num_bins: info.draw_bins.len() as u32,
                max_objects: info.limits.max_num_scene_objects,
                num_views: info.limits.max_num_views,
            },
        };
        proof {
            assert forall|h: Handle| #[trigger] s.active_objects@.contains(h) <==> s.objects@.contains_key(h) by {
            }
        }
        s
    }

    /// Number of draw bins.
    pub fn num_bins(&self) -> (n: usize)
        ensures
            n == self.bins().len(),
    {
        self.bin_descriptions.len()
    }

    /// The most objects one bin can hold.
    pub fn max_objects_per_bin(&self) -> (n: u32)
        ensures
            n == self.dispatch_info().max_objects,
    {
        self.dispatch.max_objects
    }

    /// The cameras the culling pass uses.
    pub fn active_cameras(&self) -> (c: ActiveCameras)
        ensures
            c == self.cameras(),
    {
        self.camera
    }

    /// The culling dispatch parameters.
    pub fn dispatch(&self) -> (d: SceneDispatchInfo)
        ensures
            d == self.dispatch_info(),
    {
        self.dispatch
    }

    /// Handles of the live objects, in registration order.
    pub fn active_object_handles(&self) -> (v: &Vec<Handle>)
        ensures
            v@ == self.active_objects(),
    {
        &self.active_objects
    }

    /// The live object that `h` names.
    pub fn object(&self, h: Handle) -> (r: Option<SceneObject<M>>)
        requires
            self.wf(),
        ensures
            r == (if self.objects().contains_key(h) { Some(self.objects()[h]) } else { None }),
    {
        match self.objects.get(h) {
            Some(o) => Some(*o),
            None => None,
        }
    }

    /// Number of culling workgroups (64 objects each) for the live objects.
    pub fn cull_workgroups(&self) -> (n: u32)
        requires
            self.wf(),
        ensures
            n as int == workgroups_for(self.objects().len() as int),
            n >= 1,
            n as int * 64 >= self.objects().len(),
            (n as int - 1) * 64 < vstd::math::max(self.objects().len() as int, 1),
    {
        proof {
            self.objects.lemma_len_bound();
            lemma_workgroups_cover(self.objects().len() as int);
        }
        let count = self.objects.len();
        let n: u32 = if count <= 1 { 1 } else { ((count + 63) / 64) as u32 };
        n
    }

    /// Sets the one camera that culling looks through.
    pub fn set_active_camera(&mut self, camera: Handle)
        requires
            old(self).wf(),
        ensures
            final(self).wf(),
            final(self).cameras().count == (if old(self).max_views() == 0 { 0u32 } else { 1u32 }),
            final(self).cameras().count == 1 ==> final(self).cameras().slots@[0] == camera.slot as u32,
            forall|i: int| final(self).cameras().count <= i < MAX_ACTIVE_VIEWS ==> final(self).cameras().slots@[i] == u32::MAX,
            final(self).dispatch_info().num_views == final(self).cameras().count,
            final(self).objects() == old(self).objects(),
            final(self).active_objects() == old(self).active_objects(),
    {
        let cameras = [camera];
        self.set_active_cameras(&cameras);
    }

    /// Sets the cameras that culling looks through: the first
    /// `min(cameras.len(), MAX_ACTIVE_VIEWS, max_views)` of them, by slot, in
    /// order; the other slots read `u32::MAX`.
    pub fn set_active_cameras(&mut self, cameras: &[Handle])
        requires
            old(self).wf(),
        ensures
            final(self).wf(),
            final(self).cameras().count as int == vstd::math::min(
                vstd::math::min(cameras@.len() as int, MAX_ACTIVE_VIEWS as int),
                old(self).max_views() as int,
            ),
            forall|i: int| 0 <= i < final(self).cameras().count ==> final(self).cameras().slots@[i] == cameras@[i].slot as u32,
            forall|i: int| final(self).cameras().count <= i < MAX_ACTIVE_VIEWS ==> final(self).cameras().slots@[i] == u32::MAX,
            final(self).dispatch_info() == (SceneDispatchInfo { num_views: final(self).cameras().count, ..old(self).dispatch_info() }),
            final(self).objects() == old(self).objects(),
            final(self).active_objects() == old(self).active_objects(),
            final(self).bins() == old(self).bins(),
            final(self).max_views() == old(self).max_views(),
    {
        let mut count: usize = cameras.len();
        if count > MAX_ACTIVE_VIEWS {
            count = MAX_ACTIVE_VIEWS;
        }
        if count > self.max_views as usize {
            count = self.max_views as usize;
        }
        let mut slots: [u32; 8] = [u32::MAX; 8];
        let mut i: usize = 0;
        while i < count
            invariant
                count <= MAX_ACTIVE_VIEWS,
                count <= cameras@.len(),
                i <= count,
                forall|k: int| 0 <= k < i ==> slots@[k] == cameras@[k].slot as u32,
                forall|k: int| i <= k < MAX_ACTIVE_VIEWS ==> slots@[k] == u32::MAX,
            decreases count - i,
        {
            slots[i] = cameras[i].slot as u32;
            i += 1;
        }
        self.camera = ActiveCameras { count: count as u32, slots };
        self.dispatch.num_views = count as u32;
    }

    /// Registers a new object whose bindless transformation is
    /// `transformation`; it starts with no parent and no children.
    pub fn register_object(&mut self, info: &SceneObjectInfo<M>, transformation: Handle) -> (h: Handle)
        requires
            old(self).wf(),
            old(self).objects().len() < old(self).dispatch_info().max_objects,
            old(self).objects().len() < MAX_POOL_SLOTS,
        ensures
            final(self).wf(),
            h.is_valid(),
            !old(self).objects().contains_key(h),
            final(self).objects().dom() == old(self).objects().dom().insert(h),
            forall|x: Handle| #[trigger] old(self).objects().contains_key(x) ==> final(self).objects()[x] == old(self).objects()[x],
            is_fresh_object(final(self).objects()[h], *info, transformation),
            final(self).active_objects() == old(self).active_objects().push(h),
            final(self).cameras() == old(self).cameras(),
            final(self).dispatch_info() == old(self).dispatch_info(),
            final(self).bins() == old(self).bins(),
            final(self).max_views() == old(self).max_views(),
    {
        let packed = pack_handle(transformation);
        let object = SceneObject {
            local_transform: info.local,
            world_transform: info.global,
            scene_mask: info.scene_mask,
            transformation: packed,
            parent_slot: u32::MAX,
            active: 1,
            dirty: 0,
            parent: INVALID_HANDLE,
            child_count: 0,
            children: [INVALID_HANDLE; 16],
        };
        let r = self.objects.insert(object);
        let h = match r {
            Some(h) => h,
            None => vstd::pervasive::unreached(),
        };
        proof {
            assert(!old(self).active_objects@.contains(h));
        }
        self.active_objects.push(h);
        proof {
            assert forall|x: Handle| #[trigger] self.active_objects@.contains(x) <==> self.objects@.contains_key(x) by {
                if old(self).active_objects@.contains(x) {
                    let j = choose|j: int| 0 <= j < old(self).active_objects@.len() && old(self).active_objects@[j] == x;
                    assert(self.active_objects@[j] == x);
                }
                if self.active_objects@.contains(x) && x != h {
                    let j = choose|j: int| 0 <= j < self.active_objects@.len() && self.active_objects@[j] == x;
                    assert(old(self).active_objects@[j] == x);
                }
                if x == h {
                    assert(self.active_objects@[self.active_objects@.len() - 1] == h);
                }
            }
            assert(self.active_objects@.no_duplicates()) by {
                assert forall|a: int, b: int| 0 <= a < self.active_objects@.len() && 0 <= b < self.active_objects@.len() && a != b implies self.active_objects@[a] != self.active_objects@[b] by {
                    let n = old(self).active_objects@.len();
                    if a < n && b < n {
                    } else if a < n {
                        assert(old(self).active_objects@.contains(self.active_objects@[a]));
                    } else {
                        assert(old(self).active_objects@.contains(self.active_objects@[b]));
                    }
                }
            }
            assert(self.objects@.dom() =~= old(self).objects@.dom().insert(h));
        }
        h
    }

    /// Replaces a live object's local transform and marks it dirty.
    pub fn set_object_transform(&mut self, handle: Handle, transform: M)
        requires
            old(self).wf(),
            old(self).objects().contains_key(handle),
        ensures
            final(self).wf(),
            final(self).objects() == old(self).objects().insert(
                handle,
                SceneObject { local_transform: transform, dirty: 1, ..old(self).objects()[handle] },
            ),
            final(self).active_objects() == old(self).active_objects(),
            final(self).cameras() == old(self).cameras(),
            final(self).dispatch_info() == old(self).dispatch_info(),
            final(self).bins() == old(self).bins(),
            final(self).max_views() == old(self).max_views(),
    {
        let mut o = match self.objects.get(handle) {
            Some(o) => *o,
            None => vstd::pervasive::unreached(),
        };
        o.local_transform = transform;
        o.dirty = 1;
        self.objects.replace(handle, o);
        proof {
            assert(self.objects@.dom() =~= old(self).objects@.dom());
        }
    }

    /// A live object's local transform.
    pub fn get_object_transform(&self, handle: Handle) -> (m: M)
        requires
            self.wf(),
            self.objects().contains_key(handle),
        ensures
            m == self.objects()[handle].local_transform,
    {
        match self.objects.get(handle) {
            Some(o) => o.local_transform,
            None => vstd::pervasive::unreached(),
        }
    }

    /// Makes `child` a child of `parent`: the parent, if live and with room,
    /// lists the child after its current children; the child, if live,
    /// points back at the parent and is marked dirty.
    pub fn add_child(&mut self, parent: Handle, child: Handle)
        requires
            old(self).wf(),
        ensures
            final(self).wf(),
            final(self).objects().dom() == old(self).objects().dom(),
            forall|x: Handle| #[trigger] old(self).objects().contains_key(x) && x != parent && x != child
                ==> final(self).objects()[x] == old(self).objects()[x],
            old(self).objects().contains_key(parent) ==> {
                let o = old(self).objects()[parent];
                let n = final(self).objects()[parent];
                &&& same_payload(o, n)
                &&& children_appended(o, n, packed_value(child) as u32)
                &&& parent != child ==> same_parent_link(o, n)
            },
            old(self).objects().contains_key(child) ==> {
                let o = old(self).objects()[child];
                let n = final(self).objects()[child];
                &&& same_payload(o, n)
                &&& parent_set_to(n, parent)
                &&& parent != child ==> same_children(o, n)
            },
            final(self).active_objects() == old(self).active_objects(),
            final(self).cameras() == old(self).cameras(),
            final(self).dispatch_info() == old(self).dispatch_info(),
            final(self).bins() == old(self).bins(),
            final(self).max_views() == old(self).max_views(),
    {
        let packed_child = pack_handle(child);
        if self.objects.contains(parent) {
            let mut p = match self.objects.get(parent) {
                Some(o) => *o,
                None => vstd::pervasive::unreached(),
            };
            if (p.child_count as usize) < MAX_CHILDREN {
                let idx = p.child_count as usize;
                p.children[idx] = packed_child;
                p.child_count = p.child_count + 1;
                self.objects.replace(parent, p);
                proof {
                    assert(self.objects@.dom() =~= old(self).objects@.dom());
                }
            }
        }
        let ghost mid = self.objects@;
        if self.objects.contains(child) {
            let mut c = match self.objects.get(child) {
                Some(o) => *o,
                None => vstd::pervasive::unreached(),
            };
            c.parent = pack_handle(parent);
            c.parent_slot = parent.slot as u32;
            c.dirty = 1;
            self.objects.replace(child, c);
            proof {
                assert(self.objects@.dom() =~= mid.dom());
            }
        }
    }

    /// Detaches `child` from `parent`: the first entry of the parent's child
    /// list that names the child is dropped (later ones move down, the last
    /// used place becomes empty) and the child, if live, loses its parent
    /// and is marked dirty. Nothing changes when the parent does not list
    /// the child.
    pub fn remove_child(&mut self, parent: Handle, child: Handle)
        requires
            old(self).wf(),
            old(self).objects().contains_key(parent),
            child.is_valid() || old(self).objects()[parent].child_count > 0,
        ensures
            final(self).wf(),
            final(self).objects().dom() == old(self).objects().dom(),
            final(self).active_objects() == old(self).active_objects(),
            final(self).cameras() == old(self).cameras(),
            final(self).dispatch_info() == old(self).dispatch_info(),
            final(self).bins() == old(self).bins(),
            final(self).max_views() == old(self).max_views(),
            ({
                let o = old(self).objects()[parent];
                match child_position(o.children@, packed_value(child) as u32) {
                    None => final(self).objects() == old(self).objects(),
                    Some(idx) => {
                        &&& forall|x: Handle| #[trigger] old(self).objects().contains_key(x) && x != parent && x != child
                            ==> final(self).objects()[x] == old(self).objects()[x]
                        &&& same_payload(o, final(self).objects()[parent])
                        &&& children_removed(o, final(self).objects()[parent], idx)
                        &&& parent != child ==> same_parent_link(o, final(self).objects()[parent])
                        &&& old(self).objects().contains_key(child) ==> {
                            let co = old(self).objects()[child];
                            let cn = final(self).objects()[child];
                            &&& same_payload(co, cn)
                            &&& parent_cleared(cn)
                            &&& parent != child ==> same_children(co, cn)
                        }
                    },
                }
            }),
    {
        let packed_child = pack_handle(child);
        let mut p = match self.objects.get(parent) {
            Some(o) => *o,
            None => vstd::pervasive::unreached(),
        };
        let ghost o = p;
        let mut idx: usize = 0;
        while idx < MAX_CHILDREN && p.children[idx] != packed_child
            invariant
                idx <= MAX_CHILDREN,
                p == o,
                forall|j: int| 0 <= j < idx ==> o.children@[j] != packed_child,
            decreases MAX_CHILDREN - idx,
        {
            idx += 1;
        }
        if idx == MAX_CHILDREN {
            proof {
                assert(!exists|k: int| 0 <= k < o.children@.len() && o.children@[k] == packed_child);
            }
            return;
        }
        proof {
            assert(o.children@[idx as int] == packed_child);
            let pos = child_position(o.children@, packed_child);
            assert(pos == Some(idx as int)) by {
                let c = choose|k: int| 0 <= k < o.children@.len() && o.children@[k] == packed_child && forall|j: int| 0 <= j < k ==> o.children@[j] != packed_child;
                if c < idx { } else if c > idx { assert(o.children@[idx as int] == packed_child); }
            }
            assert(links_wf(o));
            assert(o.child_count > 0) by {
                if o.child_count == 0 {
                    assert(o.children@[idx as int] == INVALID_HANDLE);
                    crate::handle::lemma_pack_roundtrip(child, Handle::spec_invalid());
                }
            }
        }
        let count = p.child_count as usize;
        let mut i: usize = idx;
        while i + 1 < count
            invariant
                o.child_count as usize == count,
                1 <= count <= MAX_CHILDREN,
                idx <= i,
                i < MAX_CHILDREN,
                p.child_count == o.child_count,
                same_payload(o, p),
                same_parent_link(o, p),
                forall|k: int| 0 <= k < MAX_CHILDREN ==> p.children@[k] == (
                    if idx <= k < i { o.children@[k + 1] } else { o.children@[k] }),
            decreases count - i,
        {
            p.children[i] = p.children[i + 1];
            i += 1;
        }
        p.child_count = p.child_count - 1;
        p.children[p.child_count as usize] = INVALID_HANDLE;
        proof {
            assert(p.children@ =~= children_without(o.children@, o.child_count as int, idx as int));
        }
        self.objects.replace(parent, p);
        let ghost mid = self.objects@;
        proof {
            assert(mid.dom() =~= old(self).objects@.dom());
            assert forall|k: int| p.child_count as int <= k < MAX_CHILDREN implies p.children@[k] == INVALID_HANDLE by {
            }
        }
        if self.objects.contains(child) {
            let mut c = match self.objects.get(child) {
                Some(o) => *o,
                None => vstd::pervasive::unreached(),
            };
            c.parent = INVALID_HANDLE;
            c.parent_slot = u32::MAX;
            c.dirty = 1;
            self.objects.replace(child, c);
            proof {
                assert(self.objects@.dom() =~= mid.dom());
            }
        }
    }

    /// Releases a live object: it is first detached from its parent (when its
    /// parent link is valid), then removed from the scene and from the list
    /// of active objects. Returns its bindless transformation when that is a
    /// valid handle, for the caller to release. Releasing a handle that names
    /// no live object changes nothing.
    pub fn release_object(&mut self, handle: Handle) -> (transformation: Option<Handle>)
        requires
            old(self).wf(),
            old(self).objects().contains_key(handle) && unpacked(old(self).objects()[handle].parent).is_valid()
                ==> old(self).objects().contains_key(unpacked(old(self).objects()[handle].parent)),
        ensures
            final(self).wf(),
            final(self).cameras() == old(self).cameras(),
            final(self).dispatch_info() == old(self).dispatch_info(),
            final(self).bins() == old(self).bins(),
            final(self).max_views() == old(self).max_views(),
            !old(self).objects().contains_key(handle) ==> {
                &&& transformation is None
                &&& final(self).objects() == old(self).objects()
                &&& final(self).active_objects() == old(self).active_objects()
            },
            old(self).objects().contains_key(handle) ==> {
                let o = old(self).objects()[handle];
                let t = unpacked(o.transformation);
                let p = unpacked(o.parent);
                &&& transformation == (if t.is_valid() { Some(t) } else { None })
                &&& final(self).objects().dom() == old(self).objects().dom().remove(handle)
                &&& forall|x: Handle| #[trigger] final(self).objects().contains_key(x) && x != p
                    ==> final(self).objects()[x] == old(self).objects()[x]
                &&& (p.is_valid() && p != handle) ==> {
                    let po = old(self).objects()[p];
                    let pn = final(self).objects()[p];
                    match child_position(po.children@, packed_value(handle) as u32) {
                        None => pn == po,
                        Some(idx) => same_payload(po, pn) && same_parent_link(po, pn) && children_removed(po, pn, idx),
                    }
                }
                &&& !p.is_valid() ==> final(self).objects() == old(self).objects().remove(handle)
                &&& forall|x: Handle| #[trigger] final(self).active_objects().contains(x)
                    <==> old(self).active_objects().contains(x) && x != handle
                &&& final(self).active_objects().len() + 1 == old(self).active_objects().len()
            },
    {
        if !self.objects.contains(handle) {
            return None;
        }
        proof {
            self.objects.lemma_live_valid(handle);
        }
        let o = match self.objects.get(handle) {
            Some(o) => *o,
            None => vstd::pervasive::unreached(),
        };
        let parent = unpack_handle(o.parent);
        if parent.valid() {
            self.remove_child(parent, handle);
        }
        let ghost mid = self.objects@;
        let t = unpack_handle(o.transformation);
        let transformation = if t.valid() { Some(t) } else { None };
        self.objects.release(handle);
        let ghost old_active = self.active_objects@;
        proof {
            assert(old_active.contains(handle));
        }
        let mut k: usize = 0;
        while k < self.active_objects.len() && self.active_objects[k] != handle
            invariant
                self.active_objects@ == old_active,
                old_active.contains(handle),
                k <= old_active.len(),
                forall|j: int| 0 <= j < k ==> old_active[j] != handle,
            decreases old_active.len() - k,
        {
            k += 1;
        }
        self.active_objects.remove(k);
        proof {
            assert(self.active_objects@ =~= old_active.remove(k as int));
            assert forall|x: Handle| #[trigger] self.active_objects@.contains(x) <==> old_active.contains(x) && x != handle by {
                if old_active.contains(x) && x != handle {
                    let j = choose|j: int| 0 <= j < old_active.len() && old_active[j] == x;
                    if j < k { assert(self.active_objects@[j] == x); } else { assert(self.active_objects@[j - 1] == x); }
                }
                if self.active_objects@.contains(x) {
                    let j = choose|j: int| 0 <= j < self.active_objects@.len() && self.active_objects@[j] == x;
                    if j < k { assert(old_active[j] == x); } else { assert(old_active[j + 1] == x); }
                }
            }
        }
        proof {
            assert(old_active.contains(handle));
            assert(exists|j: int| 0 <= j < old_active.len() && old_active[j] == handle);
            assert forall|x: Handle| #[trigger] self.active_objects@.contains(x) <==> old_active.contains(x) && x != handle by {
                if old_active.contains(x) && x != handle {
                    let j = choose|j: int| 0 <= j < old_active.len() && old_active[j] == x;
                }
            }
            assert forall|x: Handle| #[trigger] self.active_objects@.contains(x) <==> self.objects@.contains_key(x) by {
            }
            assert(self.objects@.dom() =~= old(self).objects@.dom().remove(handle));
            if !parent.is_valid() {
                assert(self.objects@ =~= old(self).objects@.remove(handle));
            }
        }
        transformation
    }
}

} // verus!
