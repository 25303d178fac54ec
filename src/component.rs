use vstd::prelude::*;

verus! {

/// The closed set of component kinds that the wire format knows.
#[derive(Debug, Clone, Copy, PartialEq, Eq, Structural)]
pub enum ComponentKind {
    Health,
    Stamina,
}

/// A typed piece of entity state: its kind and its current value.
#[derive(Debug, Clone, Copy, PartialEq, Eq, Structural)]
pub struct Component {
    pub kind: ComponentKind,
    pub value: i64,
}

/// The one-byte tag of each kind on the wire.
pub open spec fn spec_tag(kind: ComponentKind) -> u8 {
    match kind {
        ComponentKind::Health => 0x01,
        ComponentKind::Stamina => 0x02,
    }
}

/// The kind that a tag stands for, if any.
pub open spec fn spec_kind_of_tag(tag: u8) -> Option<ComponentKind> {
    if tag == 0x01 {
        Some(ComponentKind::Health)
    } else if tag == 0x02 {
        Some(ComponentKind::Stamina)
    } else {
        None
    }
}

/// Returns the wire tag of `kind`.
pub fn kind_to_tag(kind: ComponentKind) -> (tag: u8)
    ensures
        tag == spec_tag(kind),
{
    match kind {
        ComponentKind::Health => 0x01,
        ComponentKind::Stamina => 0x02,
    }
}

/// Returns the wire tag of `kind` as a one-byte buffer.
pub fn kind_to_bytes(kind: &ComponentKind) -> (bytes: Vec<u8>)
    ensures
        bytes@ == seq![spec_tag(*kind)],
{
    let tag = kind_to_tag(*kind);
    let mut bytes: Vec<u8> = Vec::new();
    bytes.push(tag);
    bytes
}

/// Returns the kind that `tag` stands for, or `None` for an unrecognized tag.
pub fn tag_to_kind(tag: u8) -> (kind: Option<ComponentKind>)
    ensures
        kind == spec_kind_of_tag(tag),
{
    if tag == 0x01 {
        Some(ComponentKind::Health)
    } else if tag == 0x02 {
        Some(ComponentKind::Stamina)
    } else {
        None
    }
}

/// Tags and kinds are in exact bijection: every kind decodes from its tag,
/// and every tag that decodes is the tag of the kind it decodes to.
pub proof fn lemma_tag_bijection(kind: ComponentKind, tag: u8)
    ensures
        spec_kind_of_tag(spec_tag(kind)) == Some(kind),
        spec_kind_of_tag(tag) == Some(kind) <==> spec_tag(kind) == tag,
{
}

} // verus!
