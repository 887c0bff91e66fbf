use customize_nft::libs::endpoint::EndpointsModule;
use customize_nft::libs::equippable_uris::{EquippableUrisModule, UriError, UriStore};
use customize_nft::structs::equippable_attributes::EquippableAttributes;
use customize_nft::structs::image_to_render::ImageToRender;

fn b(s: &str) -> Vec<u8> {
    s.as_bytes().to_vec()
}

fn price() -> Vec<u8> {
    vec![0x03, 0x8d, 0x7e, 0xa4, 0xc6, 0x80, 0x00]
}

fn image(hat: &str) -> ImageToRender {
    let mut a = EquippableAttributes::empty();
    a.set_item(&b("hat"), Some(b(hat)));
    ImageToRender { attributes: a, name: b("Equippable #1") }
}

#[test]
fn enqueue_needs_the_exact_price() {
    let mut s = UriStore::new();
    assert_eq!(s.enqueue_image_to_render(&image("Pirate Hat"), &vec![1]), Err(UriError::Pay0001Egld));
    assert_eq!(s.enqueue_image_to_render(&image("Pirate Hat"), &price()), Ok(()));
    assert_eq!(s.get_images_to_render().len(), 1);
}

#[test]
fn enqueue_twice_is_refused() {
    let mut s = UriStore::new();
    assert_eq!(s.enqueue_image_to_render(&image("Pirate Hat"), &price()), Ok(()));
    assert_eq!(s.enqueue_image_to_render(&image("Pirate Hat"), &price()), Err(UriError::RenderAlreadyInQueue));
}

#[test]
fn render_image_checks_the_price_too() {
    let mut s = UriStore::new();
    assert_eq!(s.render_image(&image("Pirate Hat"), &vec![]), Err(UriError::Pay0001Egld));
    assert_eq!(s.render_image(&image("Pirate Hat"), &price()), Ok(()));
    assert!(s.get_images_to_render()[0] == image("Pirate Hat"));
}

#[test]
fn render_then_set_uri_then_read_it() {
    let owner = b("owner");
    let mut s = UriStore::new();
    s.enqueue_image_to_render(&image("Pirate Hat"), &price()).unwrap();
    assert_eq!(s.get_uri_of(&image("Pirate Hat")), Err(UriError::NoUriForAttributes));
    assert_eq!(
        s.set_uri_of_attributes(&owner, &owner, vec![(image("Pirate Hat"), b("ipfs://cid"))]),
        Ok(())
    );
    assert_eq!(s.get_uri_of(&image("Pirate Hat")), Ok(b("ipfs://cid")));
    assert_eq!(s.get_images_to_render().len(), 0);
    assert_eq!(
        s.enqueue_image_to_render(&image("Pirate Hat"), &price()),
        Err(UriError::CannotEnqueueImageBecauseAlreadyRendered)
    );
    assert_eq!(
        s.set_uri_of_attributes(&owner, &owner, vec![(image("Pirate Hat"), b("ipfs://other"))]),
        Err(UriError::CannotOverrideUriOfAttribute)
    );
}

#[test]
fn set_uri_needs_permission_and_a_queued_image() {
    let owner = b("owner");
    let stranger = b("stranger");
    let mut s = UriStore::new();
    s.enqueue_image_to_render(&image("A"), &price()).unwrap();
    assert_eq!(
        s.set_uri_of_attributes(&stranger, &owner, vec![(image("A"), b("u"))]),
        Err(UriError::NoPermissionToSetUris)
    );
    assert_eq!(
        s.authorize_address_to_set_uris(&stranger, &owner, stranger.clone()),
        Err(UriError::OnlyOwner)
    );
    assert_eq!(s.authorize_address_to_set_uris(&owner, &owner, stranger.clone()), Ok(()));
    assert_eq!(
        s.set_uri_of_attributes(&stranger, &owner, vec![(image("B"), b("u"))]),
        Err(UriError::ImageNotInRenderQueue)
    );
    assert_eq!(s.set_uri_of_attributes(&stranger, &owner, vec![(image("A"), b("u"))]), Ok(()));
}

#[test]
fn a_refused_batch_of_uris_changes_nothing() {
    let owner = b("owner");
    let mut s = UriStore::new();
    s.enqueue_image_to_render(&image("A"), &price()).unwrap();
    assert_eq!(
        s.set_uri_of_attributes(&owner, &owner, vec![(image("A"), b("u")), (image("B"), b("v"))]),
        Err(UriError::ImageNotInRenderQueue)
    );
    assert_eq!(s.get_uri_of(&image("A")), Err(UriError::NoUriForAttributes));
    assert_eq!(s.get_images_to_render().len(), 1);
}

#[test]
fn store_from_parts_and_back() {
    let s = UriStore::from_parts(vec![image("A")], vec![(image("B"), b("u"))], vec![b("x")]).unwrap();
    let (queue, uris, authorized) = s.to_parts();
    assert!(queue[0] == image("A"));
    assert!(uris[0].0 == image("B"));
    assert_eq!(uris[0].1, b("u"));
    assert_eq!(authorized, vec![b("x")]);
    assert!(UriStore::from_parts(vec![image("A"), image("A")], vec![], vec![]).is_none());
    assert!(UriStore::from_parts(vec![], vec![(image("B"), b("u")), (image("B"), b("v"))], vec![]).is_none());
    assert!(UriStore::from_parts(vec![], vec![], vec![b("x"), b("x")]).is_none());
    assert!(s.is_authorized(&b("x")));
}
