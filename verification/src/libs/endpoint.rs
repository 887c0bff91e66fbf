use vstd::prelude::*;
use crate::libs::equippable_uris::{
    enqueue_spec, uri_store_wf, EquippableUrisModule, UriError, UriStore, ENQUEUE_PRICE,
};
use crate::structs::image_to_render::ImageToRender;
use crate::utils::big_uint::be_to_u128_saturating;

verus! {

/// The paid endpoint that asks for an image to be rendered.
pub trait EndpointsModule: EquippableUrisModule {
    /// Asks for a render against the price of a render, as
    /// `enqueue_image_to_render` does.
    fn render_image(&mut self, attributes: &ImageToRender, payment: &Vec<u8>) -> (r: Result<(), UriError>)
        requires
            uri_store_wf(old(self)@),
        ensures
            uri_store_wf(final(self)@),
            match enqueue_spec(old(self)@, attributes@, payment@) {
                Ok(t) => r is Ok && final(self)@ == t,
                Err(e) => r == Err::<(), UriError>(e) && final(self)@ == old(self)@,
            },
    ;
}

impl EndpointsModule for UriStore {
    fn render_image(&mut self, attributes: &ImageToRender, payment: &Vec<u8>) -> (r: Result<(), UriError>) {
        if be_to_u128_saturating(payment) != ENQUEUE_PRICE {
            return Err(UriError::Pay0001Egld);
        }
        self.enqueue_image_to_render(attributes, payment)
    }
}

} // verus!
