use vstd::prelude::*;
use crate::structs::equippable_attributes::copy_bytes;
use crate::structs::image_to_render::{ImageToRender, ImageV};
use crate::utils::big_uint::{be_to_u128_saturating, be_value};
use crate::utils::managed_buffer_utils::bytes_eq;

verus! {

/// The price of a render, in the smallest unit of EGLD: 0.001 EGLD.
pub const ENQUEUE_PRICE: u128 = 1_000_000_000_000_000;

/// Why a request on rendered images is refused.
#[derive(PartialEq, Eq, Structural, Clone, Copy, Debug)]
pub enum UriError {
    /// The payment is not exactly the price of a render.
    Pay0001Egld,
    /// The image already has its URI.
    CannotEnqueueImageBecauseAlreadyRendered,
    /// The image already waits in the queue.
    RenderAlreadyInQueue,
    /// The caller is neither the owner nor an authorized address.
    NoPermissionToSetUris,
    /// The image already has a URI, which may not be replaced.
    CannotOverrideUriOfAttribute,
    /// The image does not wait in the queue.
    ImageNotInRenderQueue,
    /// No URI is stored for the image.
    NoUriForAttributes,
    /// Only the owner may call this endpoint.
    OnlyOwner,
}

/// A stored URI as a plain value: the image and its URI.
pub type UriEntryV = (ImageV, Seq<u8>);

/// The store as a plain value: the render queue, the stored URIs and the
/// addresses allowed to set URIs.
pub type UriStoreV = (Seq<ImageV>, Seq<UriEntryV>, Seq<Seq<u8>>);

/// The first position of `k` in the queue, or -1.
pub open spec fn queue_pos(q: Seq<ImageV>, k: ImageV) -> int
    decreases q.len(),
{
    if q.len() == 0 {
        -1
    } else {
        let p = queue_pos(q.drop_last(), k);
        if p >= 0 {
            p
        } else if q.last() == k {
            q.len() - 1
        } else {
            -1
        }
    }
}

/// The first position of the URI of `k`, or -1.
pub open spec fn uri_pos(u: Seq<UriEntryV>, k: ImageV) -> int
    decreases u.len(),
{
    if u.len() == 0 {
        -1
    } else {
        let p = uri_pos(u.drop_last(), k);
        if p >= 0 {
            p
        } else if u.last().0 == k {
            u.len() - 1
        } else {
            -1
        }
    }
}

/// The URI stored for `k`; empty when none is.
pub open spec fn stored_uri(u: Seq<UriEntryV>, k: ImageV) -> Seq<u8> {
    let p = uri_pos(u, k);
    if p >= 0 {
        u[p].1
    } else {
        Seq::empty()
    }
}

/// The URIs with `v` stored for `k`.
pub open spec fn with_uri(u: Seq<UriEntryV>, k: ImageV, v: Seq<u8>) -> Seq<UriEntryV> {
    let p = uri_pos(u, k);
    if p >= 0 {
        u.update(p, (k, v))
    } else {
        u.push((k, v))
    }
}

/// The queue without `k`, its place filled by the last image.
pub open spec fn queue_removed(q: Seq<ImageV>, k: ImageV) -> Seq<ImageV> {
    let p = queue_pos(q, k);
    if p >= 0 {
        q.update(p, q.last()).drop_last()
    } else {
        q
    }
}

/// The invariant: no image twice in the queue, one URI per image, no
/// address twice.
pub open spec fn uri_store_wf(s: UriStoreV) -> bool {
    &&& forall|i: int, j: int| 0 <= i < j < s.0.len() ==> s.0[i] != s.0[j]
    &&& forall|i: int, j: int| 0 <= i < j < s.1.len() ==> s.1[i].0 != s.1[j].0
    &&& forall|i: int, j: int| 0 <= i < j < s.2.len() ==> s.2[i] != s.2[j]
}

/// What asking for a render does: the payment must be the price, the image
/// must have no URI yet and must not wait already; then it joins the queue.
pub open spec fn enqueue_spec(s: UriStoreV, k: ImageV, payment: Seq<u8>) -> Result<UriStoreV, UriError> {
    if be_value(payment) != ENQUEUE_PRICE {
        Err(UriError::Pay0001Egld)
    } else if stored_uri(s.1, k).len() != 0 {
        Err(UriError::CannotEnqueueImageBecauseAlreadyRendered)
    } else if queue_pos(s.0, k) >= 0 {
        Err(UriError::RenderAlreadyInQueue)
    } else {
        Ok((s.0.push(k), s.1, s.2))
    }
}

/// Stores one URI: the image must have none yet and must wait in the
/// queue, which it then leaves.
pub open spec fn set_one_uri(s: UriStoreV, k: ImageV, v: Seq<u8>) -> Result<UriStoreV, UriError> {
    if stored_uri(s.1, k).len() != 0 {
        Err(UriError::CannotOverrideUriOfAttribute)
    } else if queue_pos(s.0, k) < 0 {
        Err(UriError::ImageNotInRenderQueue)
    } else {
        Ok((queue_removed(s.0, k), with_uri(s.1, k, v), s.2))
    }
}

/// The URIs stored one after the other; the first refusal refuses all.
pub open spec fn set_uris(s: UriStoreV, kvps: Seq<UriEntryV>) -> Result<UriStoreV, UriError>
    decreases kvps.len(),
{
    if kvps.len() == 0 {
        Ok(s)
    } else {
        match set_uris(s, kvps.drop_last()) {
            Err(e) => Err(e),
            Ok(t) => set_one_uri(t, kvps.last().0, kvps.last().1),
        }
    }
}

/// What setting URIs does: the caller must be the owner or authorized.
pub open spec fn set_uris_spec(s: UriStoreV, caller: Seq<u8>, owner: Seq<u8>, kvps: Seq<UriEntryV>) -> Result<UriStoreV, UriError> {
    if caller != owner && !s.2.contains(caller) {
        Err(UriError::NoPermissionToSetUris)
    } else {
        set_uris(s, kvps)
    }
}

pub proof fn lemma_queue_pos(q: Seq<ImageV>, k: ImageV)
    ensures
        -1 <= queue_pos(q, k) < q.len(),
        queue_pos(q, k) >= 0 ==> q[queue_pos(q, k)] == k,
        queue_pos(q, k) < 0 ==> !q.contains(k),
        forall|j: int| 0 <= j < queue_pos(q, k) ==> q[j] != k,
    decreases q.len(),
{
    if q.len() > 0 {
        let t = q.drop_last();
        lemma_queue_pos(t, k);
        assert forall|j: int| 0 <= j < queue_pos(q, k) implies q[j] != k by {
            assert(q[j] == t[j]);
        }
        if queue_pos(q, k) < 0 {
            assert forall|j: int| 0 <= j < q.len() implies q[j] != k by {
                if j < q.len() - 1 {
                    assert(q[j] == t[j]);
                    assert(t.contains(t[j]));
                }
            }
        }
    }
}

pub proof fn lemma_uri_pos(u: Seq<UriEntryV>, k: ImageV)
    ensures
        -1 <= uri_pos(u, k) < u.len(),
        uri_pos(u, k) >= 0 ==> u[uri_pos(u, k)].0 == k,
        forall|j: int| 0 <= j < u.len() && (uri_pos(u, k) < 0 || j < uri_pos(u, k)) ==> u[j].0 != k,
    decreases u.len(),
{
    if u.len() > 0 {
        let t = u.drop_last();
        lemma_uri_pos(t, k);
        assert forall|j: int| 0 <= j < u.len() && (uri_pos(u, k) < 0 || j < uri_pos(u, k)) implies u[j].0 != k by {
            if j < u.len() - 1 {
                assert(u[j] == t[j]);
            }
        }
    }
}

/// Storing a URI and taking an image out of the queue keep the invariant,
/// and so does adding an image that is not queued.
pub proof fn lemma_store_ops_wf(s: UriStoreV, k: ImageV, v: Seq<u8>)
    requires
        uri_store_wf(s),
    ensures
        uri_store_wf((queue_removed(s.0, k), with_uri(s.1, k, v), s.2)),
        queue_pos(s.0, k) < 0 ==> uri_store_wf((s.0.push(k), s.1, s.2)),
        queue_pos(queue_removed(s.0, k), k) < 0,
        stored_uri(with_uri(s.1, k, v), k) == v,
{
    lemma_queue_pos(s.0, k);
    lemma_uri_pos(s.1, k);
    let q = s.0;
    let p = queue_pos(q, k);
    let q2 = queue_removed(q, k);
    if p >= 0 {
        let last = q.len() - 1;
        assert forall|i: int, j: int| 0 <= i < j < q2.len() implies q2[i] != q2[j] by {
            let i2 = if i == p { last } else { i };
            let j2 = if j == p { last } else { j };
            assert(q2[i] == q[i2]);
            assert(q2[j] == q[j2]);
            assert(i2 != j2);
            if i2 < j2 {
            } else {
            }
        }
        assert forall|j: int| 0 <= j < q2.len() implies q2[j] != k by {
            if j == p {
                assert(q2[j] == q[last]);
                assert(last != p);
            } else {
                assert(q2[j] == q[j]);
                if j > p {
                    assert(q[j] != q[p]);
                }
            }
        }
    }
    lemma_queue_pos(q2, k);
    if p < 0 {
        let q3 = q.push(k);
        assert forall|i: int, j: int| 0 <= i < j < q3.len() implies q3[i] != q3[j] by {
            if j == q.len() {
                assert(q3[i] == q[i]);
                assert(q.contains(q[i]));
            } else {
                assert(q3[i] == q[i] && q3[j] == q[j]);
            }
        }
    }
    let u = s.1;
    let u2 = with_uri(u, k, v);
    let up = uri_pos(u, k);
    assert forall|i: int, j: int| 0 <= i < j < u2.len() implies u2[i].0 != u2[j].0 by {
        if up >= 0 {
            if i == up {
                assert(u2[j] == u[j]);
            } else if j == up {
                assert(u2[i] == u[i]);
            } else {
                assert(u2[i] == u[i] && u2[j] == u[j]);
            }
        } else {
            if j == u.len() {
                assert(u2[i] == u[i]);
            } else {
                assert(u2[i] == u[i] && u2[j] == u[j]);
            }
        }
    }
    lemma_uri_pos(u2, k);
    let p2 = uri_pos(u2, k);
    if up >= 0 {
        assert(u2[up].0 == k);
        if p2 != up {
            if p2 < up {
                assert(u2[p2] == u[p2]);
            }
        }
    } else {
        assert(u2[u.len() as int].0 == k);
        if p2 != u.len() {
            if p2 >= 0 {
                assert(u2[p2] == u[p2]);
            }
        }
    }
}

/// Taking `k` out of the queue keeps every other image queued or not as it
/// was, and shortens the queue by one when `k` was in it.
proof fn lemma_queue_removed_others(q: Seq<ImageV>, k: ImageV, j: ImageV)
    requires
        j != k,
    ensures
        queue_removed(q, k).contains(j) == q.contains(j),
{
    lemma_queue_pos(q, k);
    let p = queue_pos(q, k);
    if p >= 0 {
        let q2 = queue_removed(q, k);
        let last = q.len() - 1;
        if q.contains(j) {
            let m = choose|m: int| 0 <= m < q.len() && q[m] == j;
            if m == last {
                assert(p != last);
                assert(q2[p] == j);
            } else {
                assert(m != p);
                assert(q2[m] == j);
            }
        }
        if q2.contains(j) {
            let m = choose|m: int| 0 <= m < q2.len() && q2[m] == j;
            if m == p {
                assert(q[last] == j);
            } else {
                assert(q[m] == j);
            }
        }
    }
}

/// Storing a URI for `k` leaves the URI of every other image as it was.
proof fn lemma_with_uri_others(u: Seq<UriEntryV>, k: ImageV, v: Seq<u8>, j: ImageV)
    requires
        j != k,
    ensures
        stored_uri(with_uri(u, k, v), j) == stored_uri(u, j),
{
    lemma_uri_pos(u, k);
    lemma_uri_pos(u, j);
    let u2 = with_uri(u, k, v);
    lemma_uri_pos(u2, j);
    let p = uri_pos(u, k);
    let a = uri_pos(u, j);
    let b = uri_pos(u2, j);
    if a >= 0 {
        assert(a != p);
        assert(u2[a] == u[a]);
        if b != a {
            if b >= 0 && b < a {
                if p >= 0 && b == p {
                    assert(u2[b].0 == k);
                } else {
                    assert(u2[b] == u[b]);
                }
            }
        }
    } else {
        if b >= 0 {
            if p >= 0 && b == p {
                assert(u2[b].0 == k);
            } else if p < 0 && b == u.len() {
                assert(u2[b].0 == k);
            } else {
                assert(u2[b] == u[b]);
            }
        }
    }
}

/// Law: setting the URI of one rendered image stores that URI and takes
/// exactly that image out of the render queue: every other image is queued
/// afterwards if and only if it was before and keeps its URI, and the queue
/// is one shorter. It is accepted exactly when the caller may set URIs, the
/// image has no URI yet and waits in the queue.
pub proof fn law_set_uri_takes_out_only_that_image(s: UriStoreV, caller: Seq<u8>, owner: Seq<u8>, k: ImageV, v: Seq<u8>, j: ImageV)
    requires
        uri_store_wf(s),
    ensures
        ({
            let r = set_uris_spec(s, caller, owner, seq![(k, v)]);
            &&& r is Ok <==> ((caller == owner || s.2.contains(caller)) && stored_uri(s.1, k).len() == 0 && s.0.contains(k))
            &&& r is Ok ==> ({
                let t = r->Ok_0;
                &&& uri_store_wf(t)
                &&& !t.0.contains(k)
                &&& stored_uri(t.1, k) == v
                &&& t.0.len() == s.0.len() - 1
                &&& t.2 == s.2
                &&& j != k ==> (t.0.contains(j) <==> s.0.contains(j))
                &&& j != k ==> stored_uri(t.1, j) == stored_uri(s.1, j)
            })
        }),
{
    let kv = seq![(k, v)];
    assert(kv.drop_last() =~= Seq::<UriEntryV>::empty());
    assert(kv.last() == (k, v));
    lemma_queue_pos(s.0, k);
    if s.0.contains(k) {
        let m = choose|m: int| 0 <= m < s.0.len() && s.0[m] == k;
        if queue_pos(s.0, k) < 0 {
            assert(!s.0.contains(k));
        }
    }
    lemma_store_ops_wf(s, k, v);
    lemma_queue_pos(queue_removed(s.0, k), k);
    if j != k {
        lemma_queue_removed_others(s.0, k, j);
        lemma_with_uri_others(s.1, k, v, j);
    }
    assert(set_uris(s, kv.drop_last()) == Ok::<UriStoreV, UriError>(s));
    assert(set_uris(s, kv) == set_one_uri(s, k, v));
    if set_uris_spec(s, caller, owner, kv) is Ok {
        let t = set_uris_spec(s, caller, owner, kv)->Ok_0;
        assert(t == (queue_removed(s.0, k), with_uri(s.1, k, v), s.2));
        assert(t.0.len() == s.0.len() - 1);
        assert(!t.0.contains(k));
    }
}

/// Law: setting URIs leaves every image that is not named in the request
/// as it was: queued afterwards if and only if it was before, with the same
/// URI.
pub proof fn law_set_uris_leaves_other_images(s: UriStoreV, caller: Seq<u8>, owner: Seq<u8>, kvps: Seq<UriEntryV>, j: ImageV)
    requires
        uri_store_wf(s),
        forall|i: int| 0 <= i < kvps.len() ==> (#[trigger] kvps[i]).0 != j,
    ensures
        set_uris_spec(s, caller, owner, kvps) is Ok ==> ({
            let t = set_uris_spec(s, caller, owner, kvps)->Ok_0;
            &&& uri_store_wf(t)
            &&& (t.0.contains(j) <==> s.0.contains(j))
            &&& stored_uri(t.1, j) == stored_uri(s.1, j)
        }),
    decreases kvps.len(),
{
    if kvps.len() > 0 {
        let init = kvps.drop_last();
        assert forall|i: int| 0 <= i < init.len() implies (#[trigger] init[i]).0 != j by {
            assert(init[i] == kvps[i]);
        }
        law_set_uris_leaves_other_images(s, caller, owner, init, j);
        if set_uris_spec(s, caller, owner, kvps) is Ok {
            let t0 = set_uris_spec(s, caller, owner, init)->Ok_0;
            let last = kvps.last();
            assert(last == kvps[kvps.len() - 1]);
            lemma_store_ops_wf(t0, last.0, last.1);
            lemma_queue_removed_others(t0.0, last.0, j);
            lemma_with_uri_others(t0.1, last.0, last.1, j);
        }
    }
}

/// The render queue, the URIs of rendered images, and the addresses allowed
/// to set URIs.
pub struct UriStore {
    images_to_render: Vec<ImageToRender>,
    uris_of_attributes: Vec<(ImageToRender, Vec<u8>)>,
    authorized_addresses: Vec<Vec<u8>>,
}

pub open spec fn image_views(v: Seq<ImageToRender>) -> Seq<ImageV> {
    Seq::new(v.len(), |i: int| v[i]@)
}

pub open spec fn uri_views(v: Seq<(ImageToRender, Vec<u8>)>) -> Seq<UriEntryV> {
    Seq::new(v.len(), |i: int| (v[i].0@, v[i].1@))
}

pub open spec fn address_views(v: Seq<Vec<u8>>) -> Seq<Seq<u8>> {
    Seq::new(v.len(), |i: int| v[i]@)
}

impl View for UriStore {
    type V = UriStoreV;

    closed spec fn view(&self) -> UriStoreV {
        (
            image_views(self.images_to_render@),
            uri_views(self.uris_of_attributes@),
            address_views(self.authorized_addresses@),
        )
    }
}

impl UriStore {
    pub open spec fn wf(&self) -> bool {
        uri_store_wf(self@)
    }

    /// Nothing queued, rendered or authorized.
    pub fn new() -> (r: Self)
        ensures
            r@ == (Seq::<ImageV>::empty(), Seq::<UriEntryV>::empty(), Seq::<Seq<u8>>::empty()),
            r.wf(),
    {
        let r = UriStore { images_to_render: Vec::new(), uris_of_attributes: Vec::new(), authorized_addresses: Vec::new() };
        assert(r@.0 =~= Seq::<ImageV>::empty());
        assert(r@.1 =~= Seq::<UriEntryV>::empty());
        assert(r@.2 =~= Seq::<Seq<u8>>::empty());
        r
    }

    /// A store from its queue, its URIs and its authorized addresses; `None`
    /// when an image is queued twice, has two URIs, or an address occurs
    /// twice.
    pub fn from_parts(
        images_to_render: Vec<ImageToRender>,
        uris_of_attributes: Vec<(ImageToRender, Vec<u8>)>,
        authorized_addresses: Vec<Vec<u8>>,
    ) -> (r: Option<Self>)
        ensures
            match r {
                Some(s) => s@ == (image_views(images_to_render@), uri_views(uris_of_attributes@), address_views(authorized_addresses@))
                    && s.wf(),
                None => !uri_store_wf((image_views(images_to_render@), uri_views(uris_of_attributes@), address_views(authorized_addresses@))),
            },
    {
        let ghost q = image_views(images_to_render@);
        let ghost u = uri_views(uris_of_attributes@);
        let ghost a = address_views(authorized_addresses@);
        let mut i: usize = 0;
        while i < images_to_render.len()
            invariant
                q == image_views(images_to_render@),
                i <= images_to_render.len(),
                forall|x: int, y: int| 0 <= x < y < i ==> q[x] != q[y],
            decreases images_to_render.len() - i,
        {
            let mut j: usize = 0;
            while j < i
                invariant
                    q == image_views(images_to_render@),
                    j <= i < images_to_render.len(),
                    forall|x: int| 0 <= x < j ==> q[x] != q[i as int],
                decreases i - j,
            {
                if images_to_render[j].same_as(&images_to_render[i]) {
                    proof {
                        let t = (image_views(images_to_render@), uri_views(uris_of_attributes@), address_views(authorized_addresses@));
                        assert(t.0[j as int] == t.0[i as int]);
                        assert(!uri_store_wf(t));
                    }
                    return None;
                }
                j += 1;
            }
            i += 1;
        }
        let mut i: usize = 0;
        while i < uris_of_attributes.len()
            invariant
                u == uri_views(uris_of_attributes@),
                i <= uris_of_attributes.len(),
                forall|x: int, y: int| 0 <= x < y < i ==> u[x].0 != u[y].0,
            decreases uris_of_attributes.len() - i,
        {
            let mut j: usize = 0;
            while j < i
                invariant
                    u == uri_views(uris_of_attributes@),
                    j <= i < uris_of_attributes.len(),
                    forall|x: int| 0 <= x < j ==> u[x].0 != u[i as int].0,
                decreases i - j,
            {
                if uris_of_attributes[j].0.same_as(&uris_of_attributes[i].0) {
                    proof {
                        let t = (image_views(images_to_render@), uri_views(uris_of_attributes@), address_views(authorized_addresses@));
                        assert(t.1[j as int].0 == t.1[i as int].0);
                        assert(!uri_store_wf(t));
                    }
                    return None;
                }
                j += 1;
            }
            i += 1;
        }
        let mut i: usize = 0;
        while i < authorized_addresses.len()
            invariant
                a == address_views(authorized_addresses@),
                i <= authorized_addresses.len(),
                forall|x: int, y: int| 0 <= x < y < i ==> a[x] != a[y],
            decreases authorized_addresses.len() - i,
        {
            let mut j: usize = 0;
            while j < i
                invariant
                    a == address_views(authorized_addresses@),
                    j <= i < authorized_addresses.len(),
                    forall|x: int| 0 <= x < j ==> a[x] != a[i as int],
                decreases i - j,
            {
                if bytes_eq(&authorized_addresses[j], &authorized_addresses[i]) {
                    proof {
                        let t = (image_views(images_to_render@), uri_views(uris_of_attributes@), address_views(authorized_addresses@));
                        assert(t.2[j as int] == t.2[i as int]);
                        assert(!uri_store_wf(t));
                    }
                    return None;
                }
                j += 1;
            }
            i += 1;
        }
        Some(UriStore { images_to_render, uris_of_attributes, authorized_addresses })
    }

    /// The queue, the URIs and the authorized addresses, as copies.
    pub fn to_parts(&self) -> (r: (Vec<ImageToRender>, Vec<(ImageToRender, Vec<u8>)>, Vec<Vec<u8>>))
        ensures
            (image_views(r.0@), uri_views(r.1@), address_views(r.2@)) == self@,
    {
        let c = self.copy();
        (c.images_to_render, c.uris_of_attributes, c.authorized_addresses)
    }

    fn find_queued(&self, k: &ImageToRender) -> (r: Option<usize>)
        ensures
            match r {
                Some(i) => queue_pos(self@.0, k@) == i && i < self@.0.len(),
                None => queue_pos(self@.0, k@) < 0,
            },
    {
        let ghost q = self@.0;
        let mut i: usize = 0;
        while i < self.images_to_render.len()
            invariant
                q == self@.0,
                i <= self.images_to_render.len(),
                q.len() == self.images_to_render.len(),
                forall|j: int| 0 <= j < i ==> q[j] != k@,
            decreases self.images_to_render.len() - i,
        {
            assert(q[i as int] == self.images_to_render@[i as int]@);
            if self.images_to_render[i].same_as(k) {
                proof {
                    lemma_queue_pos(q, k@);
                    let p = queue_pos(q, k@);
                    if p < 0 {
                        assert(q.contains(q[i as int]));
                    } else if p > i {
                        assert(q[i as int] != k@);
                    } else if p < i {
                        assert(q[p] != k@);
                    }
                }
                return Some(i);
            }
            i += 1;
        }
        proof {
            lemma_queue_pos(q, k@);
        }
        None
    }

    fn find_uri(&self, k: &ImageToRender) -> (r: Option<usize>)
        ensures
            match r {
                Some(i) => uri_pos(self@.1, k@) == i && i < self@.1.len(),
                None => uri_pos(self@.1, k@) < 0,
            },
    {
        let ghost u = self@.1;
        let mut i: usize = 0;
        while i < self.uris_of_attributes.len()
            invariant
                u == self@.1,
                i <= self.uris_of_attributes.len(),
                u.len() == self.uris_of_attributes.len(),
                forall|j: int| 0 <= j < i ==> u[j].0 != k@,
            decreases self.uris_of_attributes.len() - i,
        {
            assert(u[i as int] == (self.uris_of_attributes@[i as int].0@, self.uris_of_attributes@[i as int].1@));
            if self.uris_of_attributes[i].0.same_as(k) {
                proof {
                    lemma_uri_pos(u, k@);
                    let p = uri_pos(u, k@);
                    if p < 0 || p > i {
                        assert(u[i as int].0 != k@);
                    } else if p < i {
                        assert(u[p].0 != k@);
                    }
                }
                return Some(i);
            }
            i += 1;
        }
        proof {
            lemma_uri_pos(u, k@);
        }
        None
    }

    /// The URI stored for the image; empty when none is.
    fn stored(&self, k: &ImageToRender) -> (r: Vec<u8>)
        ensures
            r@ == stored_uri(self@.1, k@),
    {
        match self.find_uri(k) {
            Some(i) => {
                assert(self@.1[i as int].1 == self.uris_of_attributes@[i as int].1@);
                copy_bytes(&self.uris_of_attributes[i].1)
            },
            None => {
                let r: Vec<u8> = Vec::new();
                assert(r@ =~= Seq::<u8>::empty());
                r
            },
        }
    }

    /// Whether `address` may set URIs besides the owner.
    pub fn is_authorized(&self, address: &Vec<u8>) -> (r: bool)
        ensures
            r == self@.2.contains(address@),
    {
        let ghost a = self@.2;
        let mut i: usize = 0;
        while i < self.authorized_addresses.len()
            invariant
                a == self@.2,
                i <= self.authorized_addresses.len(),
                a.len() == self.authorized_addresses.len(),
                forall|j: int| 0 <= j < i ==> a[j] != address@,
            decreases self.authorized_addresses.len() - i,
        {
            assert(a[i as int] == self.authorized_addresses@[i as int]@);
            if bytes_eq(&self.authorized_addresses[i], address) {
                return true;
            }
            i += 1;
        }
        false
    }
}

/// The endpoints of the render queue and of the URIs of rendered images.
pub trait EquippableUrisModule: Sized + View<V = UriStoreV> {
    /// Lets `address` set URIs; only the owner may call it.
    fn authorize_address_to_set_uris(&mut self, caller: &Vec<u8>, owner: &Vec<u8>, address: Vec<u8>) -> (r: Result<(), UriError>)
        requires
            uri_store_wf(old(self)@),
        ensures
            uri_store_wf(final(self)@),
            caller@ != owner@ ==> r == Err::<(), UriError>(UriError::OnlyOwner) && final(self)@ == old(self)@,
            caller@ == owner@ ==> r is Ok && final(self)@ == (old(self)@.0, old(self)@.1, if old(self)@.2.contains(address@) {
                old(self)@.2
            } else {
                old(self)@.2.push(address@)
            }),
    ;

    /// Puts an image in the render queue against the price of a render.
    fn enqueue_image_to_render(&mut self, attributes: &ImageToRender, payment: &Vec<u8>) -> (r: Result<(), UriError>)
        requires
            uri_store_wf(old(self)@),
        ensures
            uri_store_wf(final(self)@),
            match enqueue_spec(old(self)@, attributes@, payment@) {
                Ok(t) => r is Ok && final(self)@ == t,
                Err(e) => r == Err::<(), UriError>(e) && final(self)@ == old(self)@,
            },
    ;

    /// The images that wait to be rendered, in queue order.
    fn get_images_to_render(&self) -> (r: Vec<ImageToRender>)
        ensures
            image_views(r@) == self@.0,
    ;

    /// Stores the URIs of rendered images; the caller must be the owner or
    /// an authorized address, and nothing changes when one is refused.
    fn set_uri_of_attributes(&mut self, caller: &Vec<u8>, owner: &Vec<u8>, uri_kvp: Vec<(ImageToRender, Vec<u8>)>) -> (r: Result<(), UriError>)
        requires
            uri_store_wf(old(self)@),
        ensures
            uri_store_wf(final(self)@),
            match set_uris_spec(old(self)@, caller@, owner@, uri_views(uri_kvp@)) {
                Ok(t) => r is Ok && final(self)@ == t,
                Err(e) => r == Err::<(), UriError>(e) && final(self)@ == old(self)@,
            },
    ;

    /// The URI of a rendered image.
    fn get_uri_of(&self, attributes: &ImageToRender) -> (r: Result<Vec<u8>, UriError>)
        ensures
            match r {
                Ok(uri) => uri@ == stored_uri(self@.1, attributes@) && uri@.len() != 0,
                Err(e) => e == UriError::NoUriForAttributes && stored_uri(self@.1, attributes@).len() == 0,
            },
    ;
}

impl UriStore {
    /// A copy of the whole store.
    pub fn copy(&self) -> (r: Self)
        ensures
            r@ == self@,
    {
        let mut q: Vec<ImageToRender> = Vec::new();
        let mut i: usize = 0;
        while i < self.images_to_render.len()
            invariant
                i <= self.images_to_render.len(),
                image_views(q@) =~= image_views(self.images_to_render@).take(i as int),
            decreases self.images_to_render.len() - i,
        {
            let x = self.images_to_render[i].copy();
            let ghost before = q@;
            q.push(x);
            assert(image_views(q@) =~= image_views(before).push(x@));
            i += 1;
        }
        assert(image_views(self.images_to_render@).take(self.images_to_render.len() as int) =~= image_views(self.images_to_render@));
        let mut u: Vec<(ImageToRender, Vec<u8>)> = Vec::new();
        let mut j: usize = 0;
        while j < self.uris_of_attributes.len()
            invariant
                j <= self.uris_of_attributes.len(),
                uri_views(u@) =~= uri_views(self.uris_of_attributes@).take(j as int),
            decreases self.uris_of_attributes.len() - j,
        {
            let x = (self.uris_of_attributes[j].0.copy(), copy_bytes(&self.uris_of_attributes[j].1));
            let ghost before = u@;
            u.push(x);
            assert(uri_views(u@) =~= uri_views(before).push((x.0@, x.1@)));
            j += 1;
        }
        assert(uri_views(self.uris_of_attributes@).take(self.uris_of_attributes.len() as int) =~= uri_views(self.uris_of_attributes@));
        let mut a: Vec<Vec<u8>> = Vec::new();
        let mut k: usize = 0;
        while k < self.authorized_addresses.len()
            invariant
                k <= self.authorized_addresses.len(),
                address_views(a@) =~= address_views(self.authorized_addresses@).take(k as int),
            decreases self.authorized_addresses.len() - k,
        {
            let x = copy_bytes(&self.authorized_addresses[k]);
            let ghost before = a@;
            a.push(x);
            assert(address_views(a@) =~= address_views(before).push(x@));
            k += 1;
        }
        assert(address_views(self.authorized_addresses@).take(self.authorized_addresses.len() as int) =~= address_views(self.authorized_addresses@));
        UriStore { images_to_render: q, uris_of_attributes: u, authorized_addresses: a }
    }

    /// Stores one URI, as `set_one_uri` says.
    fn set_one(&mut self, k: ImageToRender, v: Vec<u8>) -> (r: Result<(), UriError>)
        requires
            uri_store_wf(old(self)@),
        ensures
            uri_store_wf(final(self)@),
            match set_one_uri(old(self)@, k@, v@) {
                Ok(t) => r is Ok && final(self)@ == t,
                Err(e) => r == Err::<(), UriError>(e) && final(self)@ == old(self)@,
            },
    {
        let ghost s = self@;
        let current = self.stored(&k);
        if current.len() != 0 {
            return Err(UriError::CannotOverrideUriOfAttribute);
        }
        let qi = match self.find_queued(&k) {
            Some(qi) => qi,
            None => {
                return Err(UriError::ImageNotInRenderQueue);
            },
        };
        proof {
            lemma_store_ops_wf(s, k@, v@);
        }
        let ghost kv = k@;
        let ghost vv = v@;
        match self.find_uri(&k) {
            Some(ui) => {
                self.uris_of_attributes.set(ui, (k, v));
            },
            None => {
                self.uris_of_attributes.push((k, v));
            },
        }
        assert(self@.1 =~= with_uri(s.1, kv, vv));
        let _ = self.images_to_render.swap_remove(qi);
        assert(self@.0 =~= queue_removed(s.0, kv));
        assert(self@.2 == s.2);
        Ok(())
    }
}

impl EquippableUrisModule for UriStore {
    fn authorize_address_to_set_uris(&mut self, caller: &Vec<u8>, owner: &Vec<u8>, address: Vec<u8>) -> (r: Result<(), UriError>) {
        if !bytes_eq(caller, owner) {
            return Err(UriError::OnlyOwner);
        }
        if !self.is_authorized(&address) {
            let ghost s = self@;
            let ghost av = address@;
            self.authorized_addresses.push(address);
            assert(self@.2 =~= s.2.push(av));
            assert(self@.0 == s.0 && self@.1 == s.1);
            proof {
                let a = self@.2;
                assert forall|i: int, j: int| 0 <= i < j < a.len() implies a[i] != a[j] by {
                    if j == s.2.len() {
                        assert(a[i] == s.2[i]);
                        assert(s.2.contains(s.2[i]));
                    } else {
                        assert(a[i] == s.2[i] && a[j] == s.2[j]);
                    }
                }
            }
        }
        Ok(())
    }

    fn enqueue_image_to_render(&mut self, attributes: &ImageToRender, payment: &Vec<u8>) -> (r: Result<(), UriError>) {
        let paid = be_to_u128_saturating(payment);
        if paid != ENQUEUE_PRICE {
            return Err(UriError::Pay0001Egld);
        }
        let current = self.stored(attributes);
        if current.len() != 0 {
            return Err(UriError::CannotEnqueueImageBecauseAlreadyRendered);
        }
        if self.find_queued(attributes).is_some() {
            return Err(UriError::RenderAlreadyInQueue);
        }
        let ghost s = self@;
        proof {
            lemma_store_ops_wf(s, attributes@, Seq::empty());
        }
        let image = attributes.copy();
        self.images_to_render.push(image);
        assert(self@.0 =~= s.0.push(attributes@));
        assert(self@.1 == s.1 && self@.2 == s.2);
        Ok(())
    }

    fn get_images_to_render(&self) -> (r: Vec<ImageToRender>) {
        let mut o: Vec<ImageToRender> = Vec::new();
        let mut i: usize = 0;
        while i < self.images_to_render.len()
            invariant
                i <= self.images_to_render.len(),
                image_views(o@) =~= self@.0.take(i as int),
            decreases self.images_to_render.len() - i,
        {
            let x = self.images_to_render[i].copy();
            let ghost before = o@;
            o.push(x);
            assert(image_views(o@) =~= image_views(before).push(x@));
            i += 1;
        }
        assert(self@.0.take(self.images_to_render.len() as int) =~= self@.0);
        o
    }

    fn set_uri_of_attributes(&mut self, caller: &Vec<u8>, owner: &Vec<u8>, uri_kvp: Vec<(ImageToRender, Vec<u8>)>) -> (r: Result<(), UriError>) {
        if !bytes_eq(caller, owner) && !self.is_authorized(caller) {
            return Err(UriError::NoPermissionToSetUris);
        }
        let ghost kvps = uri_views(uri_kvp@);
        let mut next = self.copy();
        let mut rest = uri_kvp;
        let mut taken: Vec<(ImageToRender, Vec<u8>)> = Vec::new();
        // the pairs are taken from the back, so they are first put in order
        let mut reversed: Vec<(ImageToRender, Vec<u8>)> = Vec::new();
        while rest.len() > 0
            invariant
                uri_views(rest@) + uri_views(reversed@).reverse() == kvps,
                kvps == uri_views(uri_kvp@),
            decreases rest.len(),
        {
            let ghost r0 = rest@;
            let ghost v0 = reversed@;
            let x = rest.pop().unwrap();
            reversed.push(x);
            assert(uri_views(r0) =~= uri_views(rest@).push((x.0@, x.1@)));
            assert(uri_views(reversed@).reverse() =~= seq![(x.0@, x.1@)] + uri_views(v0).reverse());
            assert(uri_views(rest@) + uri_views(reversed@).reverse() =~= kvps);
        }
        assert(uri_views(reversed@).reverse() =~= kvps);
        assert(kvps.take(0) =~= Seq::<UriEntryV>::empty());
        let mut i: usize = 0;
        let n = reversed.len();
        while reversed.len() > 0
            invariant
                n == kvps.len(),
                kvps == uri_views(uri_kvp@),
                i + reversed.len() == n,
                uri_views(reversed@).reverse() == kvps.skip(i as int),
                set_uris(self@, kvps.take(i as int)) == Ok::<UriStoreV, UriError>(next@),
                uri_store_wf(next@),
                uri_store_wf(self@),
                self@ == old(self)@,
                old(self)@.2.contains(caller@) || caller@ == owner@,
            decreases reversed.len(),
        {
            let ghost v0 = reversed@;
            let x = reversed.pop().unwrap();
            assert(uri_views(v0) =~= uri_views(reversed@).push((x.0@, x.1@)));
            assert(kvps.skip(i as int)[0] == (x.0@, x.1@)) by {
                assert(uri_views(v0).reverse()[0] == uri_views(v0)[v0.len() - 1]);
            }
            assert(uri_views(reversed@).reverse() =~= kvps.skip(i + 1)) by {
                assert(kvps.skip(i + 1) =~= kvps.skip(i as int).drop_first());
            }
            let ghost t = kvps.take(i + 1);
            assert(t.drop_last() =~= kvps.take(i as int));
            assert(t.last() == (x.0@, x.1@));
            let ghost before = next@;
            match next.set_one(x.0, x.1) {
                Ok(()) => {},
                Err(e) => {
                    proof {
                        assert(set_uris(self@, t) == set_one_uri(before, t.last().0, t.last().1));
                        lemma_set_uris_err_prefix(self@, kvps, i + 1);
                    }
                    return Err(e);
                },
            }
            i += 1;
        }
        assert(kvps.take(n as int) =~= kvps);
        *self = next;
        Ok(())
    }

    fn get_uri_of(&self, attributes: &ImageToRender) -> (r: Result<Vec<u8>, UriError>) {
        let uri = self.stored(attributes);
        if uri.len() == 0 {
            return Err(UriError::NoUriForAttributes);
        }
        Ok(uri)
    }
}

/// Once a prefix of the pairs is refused, so are all of them, the same way.
proof fn lemma_set_uris_err_prefix(s: UriStoreV, kvps: Seq<UriEntryV>, k: int)
    requires
        0 <= k <= kvps.len(),
        set_uris(s, kvps.take(k)) is Err,
    ensures
        set_uris(s, kvps) == set_uris(s, kvps.take(k)),
    decreases kvps.len() - k,
{
    if k < kvps.len() {
        assert(kvps.take(k + 1).drop_last() =~= kvps.take(k));
        lemma_set_uris_err_prefix(s, kvps, k + 1);
    } else {
        assert(kvps.take(k) =~= kvps);
    }
}

/// Law: an image that was put in the render queue and then given a URI by
/// the owner leaves the queue and has that URI; when the URI is not empty,
/// the image can neither be queued again nor given another URI.
pub proof fn law_render_then_set_uri(
    s: UriStoreV,
    k: ImageV,
    payment: Seq<u8>,
    owner: Seq<u8>,
    v: Seq<u8>,
    other: Seq<u8>,
)
    requires
        uri_store_wf(s),
        enqueue_spec(s, k, payment) is Ok,
    ensures
        set_uris_spec(enqueue_spec(s, k, payment)->Ok_0, owner, owner, seq![(k, v)]) is Ok,
        ({
            let t = set_uris_spec(enqueue_spec(s, k, payment)->Ok_0, owner, owner, seq![(k, v)])->Ok_0;
            &&& uri_store_wf(t)
            &&& stored_uri(t.1, k) == v
            &&& queue_pos(t.0, k) < 0
            &&& v.len() != 0 ==> enqueue_spec(t, k, payment) == Err::<UriStoreV, UriError>(
                UriError::CannotEnqueueImageBecauseAlreadyRendered,
            )
            &&& v.len() != 0 ==> set_uris_spec(t, owner, owner, seq![(k, other)]) == Err::<UriStoreV, UriError>(
                UriError::CannotOverrideUriOfAttribute,
            )
        }),
{
    let t0 = enqueue_spec(s, k, payment)->Ok_0;
    lemma_queue_pos(s.0, k);
    lemma_store_ops_wf(s, k, v);
    assert(t0 == (s.0.push(k), s.1, s.2));
    assert(t0.0.drop_last() =~= s.0);
    assert(queue_pos(t0.0, k) >= 0);
    lemma_store_ops_wf(t0, k, v);
    let kv = seq![(k, v)];
    assert(kv.drop_last() =~= Seq::<UriEntryV>::empty());
    assert(set_uris(t0, kv.drop_last()) == Ok::<UriStoreV, UriError>(t0));
    assert(kv.last() == (k, v));
    assert(set_uris(t0, kv) == set_one_uri(t0, k, v));
    let t = set_one_uri(t0, k, v)->Ok_0;
    let ko = seq![(k, other)];
    assert(ko.drop_last() =~= Seq::<UriEntryV>::empty());
    assert(set_uris(t, ko.drop_last()) == Ok::<UriStoreV, UriError>(t));
    assert(ko.last() == (k, other));
    assert(set_uris(t, ko) == set_one_uri(t, k, other));
}

} // verus!
