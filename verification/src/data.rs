//! The fixed set of void tag names: element kinds that never carry a closing
//! tag or children when serialized.

use vstd::prelude::*;

verus! {

/// Whether `name` is one of the void tag names.
pub open spec fn is_void_tag(name: Seq<char>) -> bool {
    ||| name == ("area")@
    ||| name == ("base")@
    ||| name == ("br")@
    ||| name == ("col")@
    ||| name == ("embed")@
    ||| name == ("hr")@
    ||| name == ("img")@
    ||| name == ("input")@
    ||| name == ("link")@
    ||| name == ("meta")@
    ||| name == ("param")@
    ||| name == ("source")@
    ||| name == ("track")@
    ||| name == ("wbr")@
}

/// Whether `name` names a void element kind.
pub fn is_void(name: &String) -> (r: bool)
    ensures
        r == is_void_tag(name@),
{
    *name == String::from_str("area") || *name == String::from_str("base") || *name
        == String::from_str("br") || *name == String::from_str("col") || *name == String::from_str(
        "embed",
    ) || *name == String::from_str("hr") || *name == String::from_str("img") || *name
        == String::from_str("input") || *name == String::from_str("link") || *name
        == String::from_str("meta") || *name == String::from_str("param") || *name
        == String::from_str("source") || *name == String::from_str("track") || *name
        == String::from_str("wbr")
}

} // verus!
