//! Messages of the in-client plugin, which says which skin is hovered.

use crate::json::{field, text_field, Json};
use crate::text::same_text;
use vstd::prelude::*;

verus! {

/// What a message says of the hovered skin.
#[derive(Debug, Clone, Copy, PartialEq, Eq, Structural)]
pub enum Hover {
    /// Nothing.
    Unrelated,
    /// No skin is hovered any more.
    Cleared,
    Skin { id: i64 },
}

/// What a message says: one of the type `skin-hovered` has an integer or null
/// under `skinId`.
pub open spec fn hover_of(message: Json) -> Hover {
    if text_field(message, "type"@) == Some("skin-hovered"@) {
        match field(message, "skinId"@) {
            Some(Json::Int(id)) => Hover::Skin { id },
            Some(Json::Null) => Hover::Cleared,
            _ => Hover::Unrelated,
        }
    } else {
        Hover::Unrelated
    }
}

pub fn decode_hover(message: &Json) -> (r: Hover)
    ensures
        r == hover_of(*message),
{
    let hovered = match message.text_field("type") {
        Some(kind) => same_text(kind, "skin-hovered"),
        None => false,
    };
    if !hovered {
        return Hover::Unrelated;
    }
    match message.get("skinId") {
        Some(v) => {
            if let Some(id) = v.as_i64() {
                Hover::Skin { id }
            } else if v.is_null() {
                Hover::Cleared
            } else {
                Hover::Unrelated
            }
        },
        None => Hover::Unrelated,
    }
}

/// A message of the type `skin-hovered` names the skin, or says that none is
/// hovered any more. Messages of other types, and those that name no skin, say
/// nothing.
pub proof fn law_hover(message: Json, id: i64)
    ensures
        text_field(message, "type"@) == Some("skin-hovered"@) && field(message, "skinId"@) == Some(
            Json::Int(id),
        ) ==> hover_of(message) == (Hover::Skin { id }),
        text_field(message, "type"@) == Some("skin-hovered"@) && field(message, "skinId"@) == Some(
            Json::Null,
        ) ==> hover_of(message) == Hover::Cleared,
        text_field(message, "type"@) != Some("skin-hovered"@) ==> hover_of(message)
            == Hover::Unrelated,
        field(message, "skinId"@) is None ==> hover_of(message) == Hover::Unrelated,
{
}

} // verus!
