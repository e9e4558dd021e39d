//! The value that replaces a leaf keeps the component's own kind and value.
use vstd::prelude::*;
use crate::component::NbtComponent;
use crate::editor::component_tree;
use crate::platform::PlatformType;
use crate::tree::{enc_payload, tree_id};
use crate::writer::{component_kind, leaf_tree, payload_of};

verus! {

/// The value that replaces a leaf (in [`crate::editor::update_document`] and
/// [`crate::editor::from_component`]) is the component's own value of its
/// own kind: for every component that holds no others, [`component_tree`] is
/// the tree the streaming writer writes for it, of the kind the writer gives
/// it, so its payload is the bytes the writer writes; a container or TAG_End
/// has none.
pub proof fn lemma_component_tree_keeps_kind(p: PlatformType, c: NbtComponent)
    ensures
        component_tree(c@) is None <==> (c is End || c is List || c is Compound),
        component_tree(c@) matches Some(t) ==> t == leaf_tree(c) && tree_id(t) == component_kind(c),
        component_tree(c@) matches Some(t) ==> (payload_of(p, c) matches Ok(b) ==> enc_payload(p, t) == Ok::<
            Seq<u8>,
            Seq<char>,
        >(b)),
{
}

} // verus!
