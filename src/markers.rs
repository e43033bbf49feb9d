//! Marker types and the stable keys derived from them.
use core::marker::PhantomData;
use crate::controls::ClientController;
use crate::ui::DevModal;
use crate::unity_scenes::ManagedByScene;
use crate::widgets::BasicButton;
use crate::widgets::DisabledButton;
use crate::widgets::ModalContentParent;
use crate::widgets::SelectedButton;
use crate::widgets::TabContent;
use crate::widgets::TabContentButton;
use vstd::prelude::*;

verus! {

/// A zero-sized label type. Its key is fixed for the type: the same type
/// always gives the same key.
pub trait Marker {
    /// The key of this marker type, as characters.
    spec fn key_spec() -> Seq<char>;

    /// The key of this marker type (its full type path).
    fn type_path() -> (r: String)
        ensures
            r@ == Self::key_spec(),
    ;
}

/// A value that names a marker type, used to pick the marker of a call.
pub struct MarkerComponent<M: Marker> {
    pd: PhantomData<M>,
}

/// Makes the [`MarkerComponent`] for the marker type `M`.
pub fn marker_component<M: Marker>() -> (r: MarkerComponent<M>)
    ensures
        r.key_spec() == M::key_spec(),
{
    MarkerComponent { pd: PhantomData }
}

impl<M: Marker> MarkerComponent<M> {
    /// The key of the marker type that this value names.
    pub open spec fn key_spec(&self) -> Seq<char> {
        M::key_spec()
    }

    /// The key of the marker type that this value names.
    pub fn key(&self) -> (r: String)
        ensures
            r@ == self.key_spec(),
    {
        M::type_path()
    }
}

/// Distinct marker types of this crate have distinct keys, so no two of
/// them can reach each other's registered system or tagged objects.
pub proof fn lemma_marker_keys_distinct()
    ensures
        ({
            let keys = seq![
                ClientController::key_spec(),
                ManagedByScene::key_spec(),
                DevModal::key_spec(),
                BasicButton::key_spec(),
                SelectedButton::key_spec(),
                DisabledButton::key_spec(),
                ModalContentParent::key_spec(),
                TabContent::key_spec(),
                TabContentButton::key_spec(),
            ];
            forall|i: int, j: int| 0 <= i < keys.len() && 0 <= j < keys.len() && i != j ==> keys[i] != keys[j]
        }),
{
    reveal_strlit("ns_core::controls::ClientController");
    reveal_strlit("ns_core::unity_scenes::ManagedByScene");
    reveal_strlit("ns_core::ui::DevModal");
    reveal_strlit("ns_core::widgets::BasicButton");
    reveal_strlit("ns_core::widgets::SelectedButton");
    reveal_strlit("ns_core::widgets::DisabledButton");
    reveal_strlit("ns_core::widgets::ModalContentParent");
    reveal_strlit("ns_core::widgets::TabContent");
    reveal_strlit("ns_core::widgets::TabContentButton");
    assert(ClientController::key_spec().len() != ManagedByScene::key_spec().len());
    assert(ClientController::key_spec().len() != DevModal::key_spec().len());
    assert(ClientController::key_spec().len() != BasicButton::key_spec().len());
    assert(ClientController::key_spec().len() != SelectedButton::key_spec().len());
    assert(ClientController::key_spec().len() != DisabledButton::key_spec().len());
    assert(ClientController::key_spec().len() != ModalContentParent::key_spec().len());
    assert(ClientController::key_spec().len() != TabContent::key_spec().len());
    assert(ClientController::key_spec().len() != TabContentButton::key_spec().len());
    assert(ManagedByScene::key_spec().len() != DevModal::key_spec().len());
    assert(ManagedByScene::key_spec().len() != BasicButton::key_spec().len());
    assert(ManagedByScene::key_spec().len() != SelectedButton::key_spec().len());
    assert(ManagedByScene::key_spec().len() != DisabledButton::key_spec().len());
    assert(ManagedByScene::key_spec().len() != ModalContentParent::key_spec().len());
    assert(ManagedByScene::key_spec().len() != TabContent::key_spec().len());
    assert(ManagedByScene::key_spec().len() != TabContentButton::key_spec().len());
    assert(DevModal::key_spec().len() != BasicButton::key_spec().len());
    assert(DevModal::key_spec().len() != SelectedButton::key_spec().len());
    assert(DevModal::key_spec().len() != DisabledButton::key_spec().len());
    assert(DevModal::key_spec().len() != ModalContentParent::key_spec().len());
    assert(DevModal::key_spec().len() != TabContent::key_spec().len());
    assert(DevModal::key_spec().len() != TabContentButton::key_spec().len());
    assert(BasicButton::key_spec().len() != SelectedButton::key_spec().len());
    assert(BasicButton::key_spec().len() != DisabledButton::key_spec().len());
    assert(BasicButton::key_spec().len() != ModalContentParent::key_spec().len());
    assert(BasicButton::key_spec().len() != TabContent::key_spec().len());
    assert(BasicButton::key_spec().len() != TabContentButton::key_spec().len());
    assert(SelectedButton::key_spec()[18] != DisabledButton::key_spec()[18]);
    assert(SelectedButton::key_spec().len() != ModalContentParent::key_spec().len());
    assert(SelectedButton::key_spec().len() != TabContent::key_spec().len());
    assert(SelectedButton::key_spec().len() != TabContentButton::key_spec().len());
    assert(DisabledButton::key_spec().len() != ModalContentParent::key_spec().len());
    assert(DisabledButton::key_spec().len() != TabContent::key_spec().len());
    assert(DisabledButton::key_spec().len() != TabContentButton::key_spec().len());
    assert(ModalContentParent::key_spec().len() != TabContent::key_spec().len());
    assert(ModalContentParent::key_spec().len() != TabContentButton::key_spec().len());
    assert(TabContent::key_spec().len() != TabContentButton::key_spec().len());
}

} // verus!
