use crate::schema::index_schema::IndexType;
use crate::schema::property_schema::PropertySchema;
use vstd::prelude::*;

verus! {

/// The place of the first of `names` that is `name`, if there is one.
pub open spec fn first_named(names: Seq<Seq<char>>, name: Seq<char>) -> Option<int>
    decreases names.len(),
{
    if names.len() == 0 {
        None
    } else {
        match first_named(names.drop_last(), name) {
            Some(i) => Some(i),
            None => if names.last() == name {
                Some(names.len() - 1)
            } else {
                None
            },
        }
    }
}

/// Where no name is `name`, none is the first.
pub proof fn lemma_none_named(names: Seq<Seq<char>>, name: Seq<char>)
    requires
        forall|k: int| 0 <= k < names.len() ==> names[k] != name,
    ensures
        first_named(names, name) is None,
    decreases names.len(),
{
    if names.len() > 0 {
        let rest = names.drop_last();
        assert forall|k: int| 0 <= k < rest.len() implies rest[k] != name by {
            assert(rest[k] == names[k]);
        }
        lemma_none_named(rest, name);
    }
}

/// A name with no equal name before it is the first.
pub proof fn lemma_first_named(names: Seq<Seq<char>>, name: Seq<char>, i: int)
    requires
        0 <= i < names.len(),
        names[i] == name,
        forall|k: int| 0 <= k < i ==> names[k] != name,
    ensures
        first_named(names, name) == Some(i),
    decreases names.len(),
{
    let rest = names.drop_last();
    assert forall|k: int| 0 <= k < i && k < rest.len() implies rest[k] != name by {
        assert(rest[k] == names[k]);
    }
    if i == names.len() - 1 {
        lemma_none_named(rest, name);
    } else {
        assert(rest[i] == names[i]);
        lemma_first_named(rest, name, i);
    }
}

/// One property of an index as a schema declares it.
#[derive(Debug)]
pub struct IndexPropertySchema {
    pub property_name: String,
    pub index_type: IndexType,
    pub case_sensitive: bool,
}

impl IndexPropertySchema {
    pub fn new(property_name: &str, index_type: IndexType, case_sensitive: bool) -> (p: Self)
        ensures
            p.property_name@ == property_name@,
            p.index_type == index_type,
            p.case_sensitive == case_sensitive,
    {
        IndexPropertySchema { property_name: property_name.to_owned(), index_type, case_sensitive }
    }
}

/// An index as a schema declares it.
#[derive(Debug)]
pub struct IndexSchema {
    pub name: String,
    pub properties: Vec<IndexPropertySchema>,
    pub unique: bool,
}

impl IndexSchema {
    pub fn new(name: &str, properties: Vec<IndexPropertySchema>, unique: bool) -> (s: Self)
        ensures
            s.name@ == name@,
            s.properties == properties,
            s.unique == unique,
    {
        IndexSchema { name: name.to_owned(), properties, unique }
    }
}

/// A link as a schema declares it: its name and the collection it leads to.
#[derive(Debug)]
pub struct LinkSchema {
    pub name: String,
    pub target_col: String,
}

impl LinkSchema {
    pub fn new(name: &str, target_col: &str) -> (s: Self)
        ensures
            s.name@ == name@,
            s.target_col@ == target_col@,
    {
        LinkSchema { name: name.to_owned(), target_col: target_col.to_owned() }
    }
}

/// A collection as a schema declares it.
#[derive(Debug)]
pub struct CollectionSchema {
    pub name: String,
    pub properties: Vec<PropertySchema>,
    pub indexes: Vec<IndexSchema>,
    pub links: Vec<LinkSchema>,
}

impl CollectionSchema {
    pub fn new(
        name: &str,
        properties: Vec<PropertySchema>,
        indexes: Vec<IndexSchema>,
        links: Vec<LinkSchema>,
    ) -> (s: Self)
        ensures
            s.name@ == name@,
            s.properties == properties,
            s.indexes == indexes,
            s.links == links,
    {
        CollectionSchema { name: name.to_owned(), properties, indexes, links }
    }

    /// The names of the properties, in their order.
    pub open spec fn property_names(&self) -> Seq<Seq<char>> {
        Seq::new(self.properties@.len(), |i: int| self.properties@[i].name@)
    }

    /// The place of the first property with this name.
    pub fn find_property(&self, name: &str) -> (r: Option<usize>)
        ensures
            r matches Some(i) ==> i < self.properties@.len() && self.properties@[i as int].name@
                == name@ && first_named(self.property_names(), name@) == Some(i as int),
            r is None ==> first_named(self.property_names(), name@) is None && forall|i: int|
                0 <= i < self.properties@.len() ==> (#[trigger] self.properties@[i]).name@ != name@,
    {
        let mut i: usize = 0;
        while i < self.properties.len()
            invariant
                i <= self.properties.len(),
                forall|k: int| 0 <= k < i ==> (#[trigger] self.properties@[k]).name@ != name@,
            decreases self.properties.len() - i,
        {
            if crate::query::filter::same_text(self.properties[i].name.as_str(), name) {
                proof {
                    lemma_first_named(self.property_names(), name@, i as int);
                }
                return Some(i);
            }
            i += 1;
        }
        proof {
            lemma_none_named(self.property_names(), name@);
        }
        None
    }
}

} // verus!
