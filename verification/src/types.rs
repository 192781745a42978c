//! The catalog entities the search core works with, and the field
//! extractors that map a searchable document to its named text fields.

use vstd::prelude::*;
use crate::tokenize::tokens_of;

verus! {

/// The primary key type of catalog entities.
pub type ID = i32;

/// The name type of catalog entities.
pub type Name = String;

/// The searchable projection of a catalog item: its key and the two text
/// fields that are indexed, "title" (the name) and "description".
pub struct ItemSearch {
    pub id: ID,
    pub name: Name,
    pub description: Option<String>,
}

/// The abstract value of a searchable item: its key and the character
/// sequences of its fields.
pub ghost struct ItemView {
    pub id: ID,
    pub name: Seq<char>,
    pub description: Option<Seq<char>>,
}

impl View for ItemSearch {
    type V = ItemView;

    open spec fn view(&self) -> ItemView {
        ItemView {
            id: self.id,
            name: self.name@,
            description: match self.description {
                Some(s) => Some(s@),
                None => Option::None,
            },
        }
    }
}

impl DeepView for ItemSearch {
    type V = ItemView;

    open spec fn deep_view(&self) -> ItemView {
        self.view()
    }
}

impl Clone for ItemSearch {
    /// A copy with the same key and field texts.
    fn clone(&self) -> (r: Self)
        ensures
            r@ == self@,
    {
        ItemSearch {
            id: self.id,
            name: self.name.clone(),
            description: match &self.description {
                Some(s) => Some(s.clone()),
                None => Option::None,
            },
        }
    }
}

/// The texts of the "title" field: always exactly the name.
pub open spec fn title_texts(d: &ItemSearch) -> Seq<Seq<char>> {
    seq![d.name@]
}

/// The texts of the "description" field: the description if present, else
/// no text at all.
pub open spec fn description_texts(d: &ItemSearch) -> Seq<Seq<char>> {
    match d.description {
        Some(s) => seq![s@],
        None => Seq::empty(),
    }
}

/// The token sequence of the "title" field of `d`.
pub open spec fn title_tokens(d: &ItemSearch) -> Seq<Seq<char>> {
    tokens_of(d.name@)
}

/// The token sequence of the "description" field of `d`: a missing
/// description has no tokens, not even an empty one.
pub open spec fn description_tokens(d: &ItemSearch) -> Seq<Seq<char>> {
    match d.description {
        Some(s) => tokens_of(s@),
        None => Seq::empty(),
    }
}

/// Extracts the "title" field of a searchable item.
pub fn title_extract<'a>(d: &'a ItemSearch) -> (r: Vec<&'a str>)
    ensures
        r.deep_view() == title_texts(d),
{
    let mut v: Vec<&str> = Vec::new();
    v.push(d.name.as_str());
    proof {
        assert(v.deep_view() =~= title_texts(d));
    }
    v
}

/// Extracts the "description" field of a searchable item.
pub fn description_extract<'a>(d: &'a ItemSearch) -> (r: Vec<&'a str>)
    ensures
        r.deep_view() == description_texts(d),
{
    match d.description {
        Some(ref s) => {
            let mut v: Vec<&str> = Vec::new();
            v.push(s.as_str());
            proof {
                assert(v.deep_view() =~= description_texts(d));
            }
            v
        },
        None => {
            let v: Vec<&str> = Vec::new();
            proof {
                assert(v.deep_view() =~= description_texts(d));
            }
            v
        },
    }
}

/// A collection of items, with an optional thumbnail kept as encoded text.
pub struct Collection {
    pub id: Option<ID>,
    pub name: Name,
    pub thumbnail: Option<String>,
}

/// The membership of one item in one collection.
pub struct CollectionItem {
    pub collection_id: ID,
    pub item_id: ID,
}

/// A category of items, with an optional parent category.
pub struct Category {
    pub id: Option<ID>,
    pub name: Name,
    pub parent_category: Option<ID>,
    pub thumbnail: Option<String>,
}

/// A collection as the relational store holds it: no thumbnail.
pub struct DbCollection {
    pub id: Option<ID>,
    pub name: Name,
}

/// A category as the relational store holds it: no thumbnail.
pub struct DbCategory {
    pub id: Option<ID>,
    pub name: Name,
    pub parent_category: Option<ID>,
}

impl From<DbCollection> for Collection {
    fn from(db: DbCollection) -> (r: Collection) {
        Collection { id: db.id, name: db.name, thumbnail: Option::None }
    }
}

impl vstd::std_specs::convert::FromSpecImpl<DbCollection> for Collection {
    open spec fn obeys_from_spec() -> bool {
        true
    }

    open spec fn from_spec(db: DbCollection) -> Collection {
        Collection { id: db.id, name: db.name, thumbnail: Option::None }
    }
}

impl From<Collection> for DbCollection {
    fn from(c: Collection) -> (r: DbCollection) {
        DbCollection { id: c.id, name: c.name }
    }
}

impl vstd::std_specs::convert::FromSpecImpl<Collection> for DbCollection {
    open spec fn obeys_from_spec() -> bool {
        true
    }

    open spec fn from_spec(c: Collection) -> DbCollection {
        DbCollection { id: c.id, name: c.name }
    }
}

impl From<DbCategory> for Category {
    fn from(db: DbCategory) -> (r: Category) {
        Category {
            id: db.id,
            name: db.name,
            parent_category: db.parent_category,
            thumbnail: Option::None,
        }
    }
}

impl vstd::std_specs::convert::FromSpecImpl<DbCategory> for Category {
    open spec fn obeys_from_spec() -> bool {
        true
    }

    open spec fn from_spec(db: DbCategory) -> Category {
        Category {
            id: db.id,
            name: db.name,
            parent_category: db.parent_category,
            thumbnail: Option::None,
        }
    }
}

impl From<Category> for DbCategory {
    fn from(c: Category) -> (r: DbCategory) {
        DbCategory { id: c.id, name: c.name, parent_category: c.parent_category }
    }
}

impl vstd::std_specs::convert::FromSpecImpl<Category> for DbCategory {
    open spec fn obeys_from_spec() -> bool {
        true
    }

    open spec fn from_spec(c: Category) -> DbCategory {
        DbCategory { id: c.id, name: c.name, parent_category: c.parent_category }
    }
}

} // verus!
