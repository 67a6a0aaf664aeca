use vstd::prelude::*;

use crate::load::target_interface;
use crate::record::{
    decode, find_key, lemma_first_key_index_bounds, lookup, BootEnvironmentObject, Entries,
    PropValue,
};
use crate::store::{Message, MessageView};

verus! {

/// Translates an "interfaces added" notification into a store event: an
/// `Added` record where the object is a boot environment that decodes, nothing
/// otherwise. A record that fails to decode is dropped on its own.
pub fn on_interfaces_added(path: String, interfaces: &Entries<Entries<PropValue>>) -> (r: Option<Message>)
    ensures
        match lookup(interfaces@, target_interface()) {
            None => r is None,
            Some(props) => match decode(path@, props@) {
                Ok(v) => r is Some && r->Some_0@ == MessageView::Added(v),
                Err(_) => r is None,
            },
        },
{
    let target = "ca.kamacite.BootEnvironment".to_owned();
    match find_key(interfaces, &target) {
        None => None,
        Some(k) => {
            proof {
                lemma_first_key_index_bounds(interfaces@, target@, 0);
            }
            match BootEnvironmentObject::from_properties(path, &interfaces[k].1) {
                Ok(env) => Some(Message::Added(env)),
                Err(_) => None,
            }
        },
    }
}

/// Translates an "interfaces removed" notification into a store event. No
/// decoding is needed: the path alone identifies the record.
pub fn on_interfaces_removed(path: String) -> (r: Message)
    ensures
        r@ == MessageView::Removed(path@),
{
    Message::Removed(path)
}

/// Translates one property-change notification into a store event. Whatever
/// and however many properties it names, it yields one marker that asks for a
/// full reload: the store never patches single fields.
pub fn on_properties_changed(changed: &Entries<PropValue>) -> (r: Message)
    ensures
        r@ == MessageView::BootEnvironmentsModified,
{
    Message::BootEnvironmentsModified
}

} // verus!
