//! Project configuration: what to scan and how item identifiers map to types.
use vstd::prelude::*;
use crate::text::starts_with;

verus! {

/// The whole configuration file.
#[derive(Debug, Clone)]
pub struct Config {
    pub paths: Paths,
    pub types: Vec<TypeMapping>,
}

/// Where to scan, what to skip, and where the database lives.
#[derive(Debug, Clone)]
pub struct Paths {
    pub scan: Vec<String>,
    pub ignore: Option<Vec<String>>,
    pub db: String,
}

/// Items whose identifier starts with `prefix` have type `item_type`.
#[derive(Debug, Clone)]
pub struct TypeMapping {
    pub prefix: String,
    pub item_type: String,
    pub requirement_type: Option<String>,
}

/// A type mapping as plain values.
pub struct TypeMappingView {
    pub prefix: Seq<char>,
    pub item_type: Seq<char>,
    pub requirement_type: Option<Seq<char>>,
}

impl View for TypeMapping {
    type V = TypeMappingView;

    open spec fn view(&self) -> TypeMappingView {
        TypeMappingView {
            prefix: self.prefix@,
            item_type: self.item_type@,
            requirement_type: match self.requirement_type {
                Some(s) => Some(s@),
                None => None,
            },
        }
    }
}

/// The views of a list of type mappings.
pub open spec fn mappings_view(types: Seq<TypeMapping>) -> Seq<TypeMappingView> {
    types.map_values(|t: TypeMapping| t@)
}

/// The first mapping whose prefix starts the identifier.
pub open spec fn type_match(types: Seq<TypeMappingView>, id: Seq<char>) -> Option<TypeMappingView>
    decreases types.len(),
{
    if types.len() == 0 {
        None
    } else if starts_with(id, types[0].prefix) {
        Some(types[0])
    } else {
        type_match(types.drop_first(), id)
    }
}

} // verus!
