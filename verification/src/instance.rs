use crate::collection::{expected_index, IsarCollection};
use crate::error::IsarError;
use crate::index::{IndexProperty, IsarIndex};
use crate::link::Link;
use crate::object::data_type::DataType;
use crate::query::filter::same_text;
use crate::schema::collection_schema::{first_named, lemma_first_named, lemma_none_named, CollectionSchema};
use crate::schema::layout::{compute_layout, laid_out};
use crate::store::{Db, Pair};
use crate::txn::{CollectionData, IsarTxn, TxnData};
use vstd::prelude::*;

verus! {

/// The error of a schema that cannot be opened: an illegal argument with the given message.
pub fn schema_error(message: &str) -> (e: IsarError)
    ensures
        e is IllegalArgument,
        e->IllegalArgument_message@ == message@,
{
    IsarError::IllegalArgument { message: message.to_owned() }
}

/// The version of the stored format that this library reads and writes.
pub const FORMAT_VERSION: u64 = 1;

/// Whether stored data of the given version can be opened: only the
/// library's own version can.
pub fn check_version(version: u64) -> (r: Result<(), IsarError>)
    ensures
        r is Ok <==> version == FORMAT_VERSION,
        r matches Err(e) ==> e is VersionError,
{
    if version == FORMAT_VERSION {
        Ok(())
    } else {
        Err(IsarError::VersionError)
    }
}

/// The names of the collections, in their order.
pub open spec fn collection_names(schemas: Seq<CollectionSchema>) -> Seq<Seq<char>> {
    Seq::new(schemas.len(), |i: int| schemas[i].name@)
}

/// The place of the first collection with this name.
pub fn find_collection(schemas: &Vec<CollectionSchema>, name: &str) -> (r: Option<usize>)
    ensures
        r matches Some(i) ==> i < schemas@.len() && schemas@[i as int].name@ == name@
            && first_named(collection_names(schemas@), name@) == Some(i as int),
        r is None ==> first_named(collection_names(schemas@), name@) is None && forall|i: int|
            0 <= i < schemas@.len() ==> (#[trigger] schemas@[i]).name@ != name@,
{
    let mut i: usize = 0;
    while i < schemas.len()
        invariant
            i <= schemas.len(),
            forall|k: int| 0 <= k < i ==> (#[trigger] schemas@[k]).name@ != name@,
        decreases schemas.len() - i,
    {
        if same_text(schemas[i].name.as_str(), name) {
            proof {
                lemma_first_named(collection_names(schemas@), name@, i as int);
            }
            return Some(i);
        }
        i += 1;
    }
    proof {
        lemma_none_named(collection_names(schemas@), name@);
    }
    None
}

/// Whether a property of the schema has this name.
pub open spec fn names_property(schema: &CollectionSchema, name: Seq<char>) -> bool {
    exists|i: int| 0 <= i < schema.properties@.len() && (#[trigger] schema.properties@[i]).name@ == name
}

/// Whether a collection of the schemas has this name.
pub open spec fn names_collection(schemas: Seq<CollectionSchema>, name: Seq<char>) -> bool {
    exists|i: int| 0 <= i < schemas.len() && (#[trigger] schemas[i]).name@ == name
}

/// How many links the first `n` collections declare.
pub open spec fn link_count(schemas: Seq<CollectionSchema>, n: int) -> int
    decreases n,
{
    if n <= 0 {
        0
    } else {
        link_count(schemas, n - 1) + schemas[n - 1].links@.len()
    }
}

/// Whether every link of the first `n` collections, and of the first `m`
/// links of the next, leads to a collection that the schemas declare.
pub open spec fn targets_named(schemas: Seq<CollectionSchema>, n: int, m: int) -> bool {
    &&& forall|c: int, l: int|
        0 <= c < n && 0 <= l < schemas[c].links@.len() ==> names_collection(
            schemas,
            (#[trigger] schemas[c].links@[l]).target_col@,
        )
    &&& forall|l: int|
        0 <= l < m ==> names_collection(schemas, (#[trigger] schemas[n].links@[l]).target_col@)
}

/// Whether every index of the first `n` indexes of the schema has a
/// property, and only properties that the schema declares.
pub open spec fn indexes_sound(schema: &CollectionSchema, n: int) -> bool {
    forall|i: int|
        0 <= i < n ==> (#[trigger] schema.indexes@[i]).properties@.len() > 0 && forall|j: int|
            0 <= j < schema.indexes@[i].properties@.len() ==> names_property(
                schema,
                (#[trigger] schema.indexes@[i].properties@[j]).property_name@,
            )
}

/// Whether an instance can be opened for the schemas: there are no more
/// collections, properties and links than ids and headers allow; every
/// index has a property, and only properties of its collection; every
/// link leads to a collection of the schemas.
pub open spec fn schemas_sound(schemas: Seq<CollectionSchema>) -> bool {
    &&& schemas.len() <= 0xffff
    &&& link_count(schemas, schemas.len() as int) <= 0x7fff
    &&& targets_named(schemas, schemas.len() as int, 0)
    &&& forall|c: int|
        0 <= c < schemas.len() ==> (#[trigger] schemas[c]).properties@.len() <= 0x0fff_ffff
            && indexes_sound(&schemas[c], schemas[c].indexes@.len() as int)
}

/// Link `l` of collection `c` as the schemas declare it: counted over
/// all collections it is link `k`, with the id `2k` and the backlink id
/// `2k + 1`; it leads from collection `c` to the first collection that
/// has the name of its target.
pub open spec fn spec_link(schemas: Seq<CollectionSchema>, c: int, l: int) -> Link {
    let k = link_count(schemas, c) + l;
    Link {
        id: (2 * k) as u16,
        backlink_id: (2 * k + 1) as u16,
        col_id: c as u16,
        target_col_id: first_named(
            collection_names(schemas),
            schemas[c].links@[l].target_col@,
        )->Some_0 as u16,
    }
}

/// The links of the first `n` collections and the first `m` links of the
/// next, in the order in which the schemas declare them.
pub open spec fn spec_links(schemas: Seq<CollectionSchema>, n: int, m: int) -> Seq<Link>
    decreases n, m,
{
    if m > 0 {
        spec_links(schemas, n, m - 1).push(spec_link(schemas, n, m - 1))
    } else if n > 0 {
        spec_links(schemas, n - 1, schemas[n - 1].links@.len() as int)
    } else {
        Seq::empty()
    }
}

/// Every link that the schemas declare.
pub open spec fn all_links(schemas: Seq<CollectionSchema>) -> Seq<Link> {
    spec_links(schemas, schemas.len() as int, 0)
}

/// Of the links, those that start at collection `c`, in their order.
pub open spec fn links_from(links: Seq<Link>, c: int) -> Seq<Link> {
    links.filter(|x: Link| x.col_id == c)
}

/// Of the links, those that end at collection `c`, in their order.
pub open spec fn links_to(links: Seq<Link>, c: int) -> Seq<Link> {
    links.filter(|x: Link| x.target_col_id == c)
}

/// The types of the schema's properties, in their order.
pub open spec fn types_of(schema: &CollectionSchema) -> Seq<DataType> {
    Seq::new(schema.properties@.len(), |i: int| schema.properties@[i].data_type)
}

/// Property `j` of index `i` as the schema declares it: the slot of the
/// first property that has its name, with its type of key and its case.
pub open spec fn spec_index_property(
    schema: &CollectionSchema,
    properties: Seq<crate::object::property::Property>,
    i: int,
    j: int,
) -> IndexProperty {
    let part = schema.indexes@[i].properties@[j];
    IndexProperty {
        property: properties[first_named(schema.property_names(), part.property_name@)->Some_0],
        index_type: part.index_type,
        case_sensitive: part.case_sensitive,
    }
}

/// Whether `index` is index `i` as the schema declares it, over the
/// slots `properties`.
pub open spec fn built_index(
    schema: &CollectionSchema,
    properties: Seq<crate::object::property::Property>,
    i: int,
    index: &IsarIndex,
) -> bool {
    &&& index.wf()
    &&& index.name@ == schema.indexes@[i].name@
    &&& index.unique == schema.indexes@[i].unique
    &&& index.properties@.len() == schema.indexes@[i].properties@.len()
    &&& forall|j: int|
        0 <= j < index.properties@.len() ==> #[trigger] index.properties@[j] == spec_index_property(
            schema,
            properties,
            i,
            j,
        )
}

/// Whether `col` is collection `c` as the schemas declare it: its place
/// is its id; its layout is that of its properties' types; its indexes
/// are the declared ones; its links are the declared links that start at
/// it, its backlinks those that end at it, in their order.
pub open spec fn describes(schemas: Seq<CollectionSchema>, c: int, col: &IsarCollection) -> bool {
    &&& col.id == c
    &&& col.name@ == schemas[c].name@
    &&& laid_out(&col.object_info, types_of(&schemas[c]))
    &&& col.indexes@.len() == schemas[c].indexes@.len()
    &&& forall|i: int|
        0 <= i < col.indexes@.len() ==> built_index(
            &schemas[c],
            col.object_info.properties@,
            i,
            #[trigger] &col.indexes@[i],
        )
    &&& col.links@ == links_from(all_links(schemas), c)
    &&& col.backlinks@ == links_to(all_links(schemas), c)
}

/// Whether nothing is stored for the collection and no id was handed out.
pub open spec fn starts_empty(cd: &CollectionData) -> bool {
    &&& cd.last_id == 0
    &&& cd.data@ == Seq::<Pair>::empty()
    &&& forall|i: int| 0 <= i < cd.indexes@.len() ==> (#[trigger] cd.indexes@[i])@ == Seq::<Pair>::empty()
}

/// Whether link `k` of the list has the id `2k` and the backlink id `2k + 1`.
pub open spec fn numbered(links: Seq<Link>) -> bool {
    forall|k: int|
        0 <= k < links.len() ==> (#[trigger] links[k]).id == 2 * k && links[k].backlink_id == 2 * k
            + 1
}

/// Whether every link of `list` is one of `links`.
pub open spec fn drawn_from(list: Seq<Link>, links: Seq<Link>) -> bool {
    forall|i: int| 0 <= i < list.len() ==> links.contains(#[trigger] list[i])
}

/// Two links of a numbered list are the same link or share no id.
pub proof fn lemma_numbered_links(links: Seq<Link>, x: Link, y: Link)
    requires
        numbered(links),
        links.len() <= 0x7fff,
        links.contains(x),
        links.contains(y),
    ensures
        x == y || x.disjoint(&y),
        x.wf(),
{
    let i = choose|i: int| 0 <= i < links.len() && links[i] == x;
    let j = choose|j: int| 0 <= j < links.len() && links[j] == y;
}

pub proof fn lemma_link_count_grows(schemas: Seq<CollectionSchema>, a: int, b: int)
    requires
        0 <= a <= b <= schemas.len(),
    ensures
        0 <= link_count(schemas, a) <= link_count(schemas, b),
    decreases b - a,
{
    if a < b {
        lemma_link_count_grows(schemas, a, b - 1);
    } else {
        lemma_link_count_nonnegative(schemas, a);
    }
}

pub proof fn lemma_link_count_nonnegative(schemas: Seq<CollectionSchema>, n: int)
    requires
        n <= schemas.len(),
    ensures
        0 <= link_count(schemas, n),
    decreases n,
{
    if n > 0 {
        lemma_link_count_nonnegative(schemas, n - 1);
    }
}

/// The links that the schemas declare, each with ids of its own: link
/// `k`, counted over all collections, has the id `2k` and the backlink
/// id `2k + 1`.
fn assign_links(schemas: &Vec<CollectionSchema>) -> (r: Result<Vec<Link>, IsarError>)
    requires
        schemas@.len() <= 0xffff,
    ensures
        r is Ok <==> targets_named(schemas@, schemas@.len() as int, 0) && link_count(
            schemas@,
            schemas@.len() as int,
        ) <= 0x7fff,
        r matches Err(e) ==> e is IllegalArgument,
        r matches Ok(links) ==> links@ == all_links(schemas@),
        r matches Ok(links) ==> numbered(links@) && links@.len() <= 0x7fff && forall|i: int|
            0 <= i < links@.len() ==> (#[trigger] links@[i]).col_id < schemas@.len()
                && links@[i].target_col_id < schemas@.len(),
{
    let mut links: Vec<Link> = Vec::new();
    let mut c: usize = 0;
    while c < schemas.len()
        invariant
            c <= schemas.len(),
            schemas@.len() <= 0xffff,
            links@ == spec_links(schemas@, c as int, 0),
            links@.len() == link_count(schemas@, c as int),
            links@.len() <= 0x7fff,
            targets_named(schemas@, c as int, 0),
            numbered(links@),
            forall|i: int|
                0 <= i < links@.len() ==> (#[trigger] links@[i]).col_id < schemas@.len()
                    && links@[i].target_col_id < schemas@.len(),
        decreases schemas.len() - c,
    {
        let ghost start = links@.len();
        let mut l: usize = 0;
        while l < schemas[c].links.len()
            invariant
                l <= schemas@[c as int].links@.len(),
                c < schemas.len(),
                schemas@.len() <= 0xffff,
                start == link_count(schemas@, c as int),
                links@ == spec_links(schemas@, c as int, l as int),
                links@.len() == start + l,
                links@.len() <= 0x7fff,
                targets_named(schemas@, c as int, l as int),
                numbered(links@),
                forall|i: int|
                    0 <= i < links@.len() ==> (#[trigger] links@[i]).col_id < schemas@.len()
                        && links@[i].target_col_id < schemas@.len(),
            decreases schemas@[c as int].links@.len() - l,
        {
            let target = match find_collection(schemas, schemas[c].links[l].target_col.as_str()) {
                Some(target) => target,
                None => {
                    proof {
                        let name = schemas@[c as int].links@[l as int].target_col@;
                        assert(!names_collection(schemas@, name));
                        assert(!targets_named(schemas@, schemas@.len() as int, 0));
                    }
                    return Err(schema_error("Unknown link target."));
                },
            };
            if links.len() >= 0x7fff {
                proof {
                    lemma_link_count_grows(schemas@, c + 1, schemas@.len() as int);
                }
                return Err(schema_error("Too many links."));
            }
            let number: u16 = links.len() as u16;
            links.push(Link::new(2 * number, 2 * number + 1, c as u16, target as u16));
            l += 1;
        }
        c += 1;
    }
    Ok(links)
}

/// The indexes that a collection's schema declares.
fn build_indexes(schema: &CollectionSchema, properties: &Vec<crate::object::property::Property>) -> (r:
    Result<Vec<IsarIndex>, IsarError>)
    requires
        properties@.len() == schema.properties@.len(),
    ensures
        r is Ok <==> indexes_sound(schema, schema.indexes@.len() as int),
        r matches Err(e) ==> e is IllegalArgument,
        r matches Ok(indexes) ==> indexes@.len() == schema.indexes@.len() && forall|i: int|
            0 <= i < indexes@.len() ==> built_index(schema, properties@, i, #[trigger] &indexes@[i]),
        r matches Ok(indexes) ==> indexes@.len() == schema.indexes@.len() && forall|i: int|
            0 <= i < indexes@.len() ==> (#[trigger] indexes@[i]).unique == schema.indexes@[i].unique
                && indexes@[i].wf() && forall|j: int|
                0 <= j < indexes@[i].properties@.len() ==> properties@.contains(
                    (#[trigger] indexes@[i].properties@[j]).property,
                ),
{
    let mut indexes: Vec<IsarIndex> = Vec::new();
    let mut i: usize = 0;
    while i < schema.indexes.len()
        invariant
            i <= schema.indexes.len(),
            properties@.len() == schema.properties@.len(),
            indexes@.len() == i,
            indexes_sound(schema, i as int),
            forall|k: int| 0 <= k < i ==> built_index(schema, properties@, k, #[trigger] &indexes@[k]),
            forall|k: int|
                0 <= k < i ==> (#[trigger] indexes@[k]).unique == schema.indexes@[k].unique
                    && indexes@[k].wf() && forall|j: int|
                    0 <= j < indexes@[k].properties@.len() ==> properties@.contains(
                        (#[trigger] indexes@[k].properties@[j]).property,
                    ),
        decreases schema.indexes.len() - i,
    {
        let index_schema = &schema.indexes[i];
        let mut index_properties: Vec<IndexProperty> = Vec::new();
        let mut j: usize = 0;
        while j < index_schema.properties.len()
            invariant
                j <= index_schema.properties.len(),
                i < schema.indexes@.len(),
                *index_schema == schema.indexes@[i as int],
                properties@.len() == schema.properties@.len(),
                index_properties@.len() == j,
                forall|k: int|
                    0 <= k < j ==> #[trigger] index_properties@[k] == spec_index_property(
                        schema,
                        properties@,
                        i as int,
                        k,
                    ),
                forall|k: int|
                    0 <= k < j ==> names_property(
                        schema,
                        (#[trigger] index_schema.properties@[k]).property_name@,
                    ),
                forall|k: int|
                    0 <= k < j ==> properties@.contains((#[trigger] index_properties@[k]).property),
            decreases index_schema.properties.len() - j,
        {
            let part = &index_schema.properties[j];
            let at = match schema.find_property(part.property_name.as_str()) {
                Some(at) => at,
                None => {
                    proof {
                        assert(!names_property(
                            schema,
                            schema.indexes@[i as int].properties@[j as int].property_name@,
                        ));
                        assert(!indexes_sound(schema, schema.indexes@.len() as int));
                    }
                    return Err(schema_error("Unknown index property."));
                },
            };
            let ghost before = index_properties@;
            index_properties.push(
                IndexProperty::new(properties[at], part.index_type, part.case_sensitive),
            );
            proof {
                assert(properties@[at as int] == index_properties@[j as int].property);
                assert forall|k: int| 0 <= k < j + 1 implies properties@.contains(
                    (#[trigger] index_properties@[k]).property,
                ) by {
                    if k < j {
                        assert(index_properties@[k] == before[k]);
                    }
                }
                assert forall|k: int| 0 <= k < j + 1 implies #[trigger] index_properties@[k]
                    == spec_index_property(schema, properties@, i as int, k) by {
                    if k < j {
                        assert(index_properties@[k] == before[k]);
                    }
                }
            }
            j += 1;
        }
        if index_properties.len() == 0 {
            proof {
                assert(schema.indexes@[i as int].properties@.len() == 0);
                assert(!indexes_sound(schema, schema.indexes@.len() as int));
            }
            return Err(schema_error("An index needs a property."));
        }
        let ghost chosen = index_properties@;
        let ghost done = indexes@;
        indexes.push(
            IsarIndex::new(index_schema.name.as_str(), index_properties, index_schema.unique),
        );
        proof {
            assert forall|k: int| 0 <= k < i + 1 implies (#[trigger] indexes@[k]).unique
                == schema.indexes@[k].unique && indexes@[k].wf() && forall|j: int|
                0 <= j < indexes@[k].properties@.len() ==> properties@.contains(
                    (#[trigger] indexes@[k].properties@[j]).property,
                ) by {
                if k < i {
                    assert(indexes@[k] == done[k]);
                } else {
                    assert(indexes@[k].properties@ == chosen);
                }
            }
            assert forall|k: int| 0 <= k < i + 1 implies built_index(
                schema,
                properties@,
                k,
                #[trigger] &indexes@[k],
            ) by {
                if k < i {
                    assert(indexes@[k] == done[k]);
                } else {
                    assert(indexes@[k].properties@ == chosen);
                }
            }
        }
        i += 1;
    }
    Ok(indexes)
}

/// An instance of the store: its collections, by collection id, and the
/// stored state that transactions start from and commit to.
pub struct IsarInstance {
    pub collections: Vec<IsarCollection>,
    pub data: TxnData,
}

impl IsarInstance {
    /// Whether collection `c` gets along with every link of every collection.
    pub open spec fn respects_all(&self, c: int) -> bool {
        forall|o: int|
            0 <= o < self.collections@.len() ==> self.collections@[c].respects_links_of(
                #[trigger] &self.collections@[o],
            )
    }

    /// Whether `data` holds every collection of the instance in good order.
    pub open spec fn holds(&self, data: &TxnData) -> bool {
        &&& data.wf()
        &&& data.cols@.len() == self.collections@.len()
        &&& forall|c: int|
            0 <= c < self.collections@.len() ==> (#[trigger] self.collections@[c]).stored_in(data)
    }

    /// The invariant of an instance: every collection is sound, has its
    /// place as its id, and is stored in good order; and the links of all
    /// collections get along.
    pub open spec fn wf(&self) -> bool {
        &&& self.collections@.len() <= 0xffff
        &&& forall|c: int|
            0 <= c < self.collections@.len() ==> (#[trigger] self.collections@[c]).wf()
                && self.collections@[c].id == c && self.collections@[c].object_info.slots_disjoint()
        &&& forall|c: int| 0 <= c < self.collections@.len() ==> #[trigger] self.respects_all(c)
        &&& self.holds(&self.data)
    }

    /// Opens an instance for the schemas: every collection as the schemas
    /// declare it, with nothing stored, no id handed out and no edge.
    /// Schemas that are not sound are refused.
    pub fn open(schemas: &Vec<CollectionSchema>) -> (r: Result<IsarInstance, IsarError>)
        ensures
            r is Ok <==> schemas_sound(schemas@),
            r matches Err(e) ==> e is IllegalArgument,
            r matches Ok(instance) ==> {
                &&& instance.wf()
                &&& instance.collections@.len() == schemas@.len()
                &&& forall|c: int|
                    0 <= c < schemas@.len() ==> describes(
                        schemas@,
                        c,
                        #[trigger] &instance.collections@[c],
                    )
                &&& forall|c: int|
                    0 <= c < schemas@.len() ==> starts_empty(#[trigger] &instance.data.cols@[c])
                &&& forall|c: int|
                    0 <= c < schemas@.len() ==> (#[trigger] instance.collections@[c]).name@
                        == schemas@[c].name@ && instance.data.cols@[c].data@ == Seq::<Pair>::empty()
                        && instance.collections@[c].indexes@.len() == schemas@[c].indexes@.len()
                        && instance.collections@[c].object_info.properties@.len()
                        == schemas@[c].properties@.len()
                &&& instance.data.links@ == Seq::<Pair>::empty()
            },
    {
        if schemas.len() > 0xffff {
            return Err(schema_error("Too many collections."));
        }
        let links = match assign_links(schemas) {
            Ok(links) => links,
            Err(e) => {
                return Err(e);
            },
        };
        let mut collections: Vec<IsarCollection> = Vec::new();
        let mut cols: Vec<CollectionData> = Vec::new();
        let links_db = Db::new(true);
        let mut c: usize = 0;
        while c < schemas.len()
            invariant
                c <= schemas.len(),
                schemas@.len() <= 0xffff,
                collections@.len() == c,
                cols@.len() == c,
                links_db@ == Seq::<Pair>::empty(),
                links_db.wf(),
                links_db.allows_dup(),
                numbered(links@),
                links@.len() <= 0x7fff,
                links@ == all_links(schemas@),
                forall|k: int| 0 <= k < c ==> describes(schemas@, k, #[trigger] &collections@[k]),
                forall|k: int| 0 <= k < c ==> starts_empty(#[trigger] &cols@[k]),
                forall|k: int|
                    0 <= k < c ==> (#[trigger] schemas@[k]).properties@.len() <= 0x0fff_ffff
                        && indexes_sound(&schemas@[k], schemas@[k].indexes@.len() as int),
                forall|k: int|
                    0 <= k < c ==> {
                        let col = #[trigger] collections@[k];
                        &&& col.wf()
                        &&& col.id == k
                        &&& col.name@ == schemas@[k].name@
                        &&& col.indexes@.len() == schemas@[k].indexes@.len()
                        &&& col.object_info.properties@.len() == schemas@[k].properties@.len()
                        &&& col.object_info.slots_disjoint()
                        &&& col.coherent(&cols@[k])
                        &&& cols@[k].data@ == Seq::<Pair>::empty()
                        &&& col.links_consistent(links_db@)
                        &&& drawn_from(col.links@, links@)
                        &&& drawn_from(col.backlinks@, links@)
                    },
            decreases schemas.len() - c,
        {
            let schema = &schemas[c];
            let mut types: Vec<DataType> = Vec::new();
            let mut p: usize = 0;
            while p < schema.properties.len()
                invariant
                    p <= schema.properties.len(),
                    types@.len() == p,
                    forall|k: int| 0 <= k < p ==> types@[k] == schema.properties@[k].data_type,
                decreases schema.properties.len() - p,
            {
                types.push(schema.properties[p].data_type);
                p += 1;
            }
            assert(types@ =~= types_of(schema));
            let object_info = match compute_layout(&types) {
                Some(info) => info,
                None => {
                    assert(!schemas_sound(schemas@)) by {
                        assert(schemas@[c as int].properties@.len() > 0x0fff_ffff);
                    }
                    return Err(schema_error("Too many properties."));
                },
            };
            let indexes = match build_indexes(schema, &object_info.properties) {
                Ok(indexes) => indexes,
                Err(e) => {
                    assert(!schemas_sound(schemas@)) by {
                        assert(!indexes_sound(
                            &schemas@[c as int],
                            schemas@[c as int].indexes@.len() as int,
                        ));
                    }
                    return Err(e);
                },
            };
            let mut own: Vec<Link> = Vec::new();
            let mut incoming: Vec<Link> = Vec::new();
            let mut l: usize = 0;
            proof {
                reveal(Seq::filter);
                assert(links@.take(0) =~= Seq::<Link>::empty());
            }
            while l < links.len()
                invariant
                    l <= links.len(),
                    c < 0xffff,
                    own@ == links_from(links@.take(l as int), c as int),
                    incoming@ == links_to(links@.take(l as int), c as int),
                    drawn_from(own@, links@),
                    drawn_from(incoming@, links@),
                    forall|i: int| 0 <= i < own@.len() ==> (#[trigger] own@[i]).col_id == c,
                    forall|i: int|
                        0 <= i < incoming@.len() ==> (#[trigger] incoming@[i]).target_col_id == c,
                decreases links.len() - l,
            {
                let ghost own0 = own@;
                let ghost incoming0 = incoming@;
                if links[l].col_id == c as u16 {
                    own.push(links[l]);
                }
                if links[l].target_col_id == c as u16 {
                    incoming.push(links[l]);
                }
                proof {
                    reveal(Seq::filter);
                    assert(links@.take(l + 1).drop_last() =~= links@.take(l as int));
                    assert(links@.take(l + 1).last() == links@[l as int]);
                    assert(links@.contains(links@[l as int]));
                    assert forall|i: int| 0 <= i < own@.len() implies links@.contains(
                        #[trigger] own@[i],
                    ) && own@[i].col_id == c by {
                        if i < own0.len() {
                            assert(own@[i] == own0[i]);
                        }
                    }
                    assert forall|i: int| 0 <= i < incoming@.len() implies links@.contains(
                        #[trigger] incoming@[i],
                    ) && incoming@[i].target_col_id == c by {
                        if i < incoming0.len() {
                            assert(incoming@[i] == incoming0[i]);
                        }
                    }
                }
                l += 1;
            }
            let mut unique: Vec<bool> = Vec::new();
            let mut u: usize = 0;
            while u < indexes.len()
                invariant
                    u <= indexes.len(),
                    unique@.len() == u,
                    forall|k: int| 0 <= k < u ==> unique@[k] == (#[trigger] indexes@[k]).unique,
                decreases indexes.len() - u,
            {
                unique.push(indexes[u].unique);
                u += 1;
            }
            let col = IsarCollection::new(
                schema.name.as_str(),
                c as u16,
                object_info,
                indexes,
                own,
                incoming,
            );
            let cd = CollectionData::new(&unique);
            proof {
                assert(links@.take(links@.len() as int) =~= links@);
                assert(describes(schemas@, c as int, &col));
                assert(starts_empty(&cd));
                assert forall|i: int| 0 <= i < col.links@.len() implies (#[trigger] col.links@[i]).wf()
                    && col.links@[i].col_id == col.id && col.respects(&col.links@[i]) by {
                    Self::lemma_drawn_respected(&col, links@, col.links@[i]);
                }
                assert forall|i: int| 0 <= i < col.backlinks@.len() implies (
                #[trigger] col.backlinks@[i]).wf() && col.backlinks@[i].target_col_id == col.id
                    && col.respects(&col.backlinks@[i]) by {
                    Self::lemma_drawn_respected(&col, links@, col.backlinks@[i]);
                }
                assert(col.wf());
                assert(cd.data.set() =~= Set::<Pair>::empty());
                assert forall|k: int| 0 <= k < col.indexes@.len() implies (
                #[trigger] col.indexes@[k]).stores_in(&cd.indexes@[k]) && cd.indexes@[k].set()
                    == expected_index(&col.indexes@[k], cd.data.set()) by {
                    assert(cd.indexes@[k]@ == Seq::<Pair>::empty());
                    assert(cd.indexes@[k].set() =~= expected_index(
                        &col.indexes@[k],
                        cd.data.set(),
                    ));
                }
                assert forall|k: int| 0 <= k < col.links@.len() implies (
                #[trigger] col.links@[k]).consistent(links_db@) by {
                    col.links@[k].lemma_empty_consistent(links_db@);
                }
                assert forall|k: int| 0 <= k < col.backlinks@.len() implies (
                #[trigger] col.backlinks@[k]).consistent(links_db@) by {
                    col.backlinks@[k].lemma_empty_consistent(links_db@);
                }
            }
            collections.push(col);
            cols.push(cd);
            c += 1;
        }
        let instance = IsarInstance { collections, data: TxnData { cols, links: links_db } };
        proof {
            assert forall|k: int| 0 <= k < instance.data.cols@.len() implies (
            #[trigger] instance.data.cols@[k]).wf() by {
                assert(instance.collections@[k].coherent(&instance.data.cols@[k]));
            }
            assert forall|k: int| 0 <= k < instance.collections@.len() implies (
            #[trigger] instance.collections@[k]).stored_in(&instance.data) by {}
            assert forall|k: int| 0 <= k < instance.collections@.len() implies #[trigger] instance.respects_all(
                k,
            ) by {
                let col = instance.collections@[k];
                assert forall|o: int| 0 <= o < instance.collections@.len() implies col.respects_links_of(
                    #[trigger] &instance.collections@[o],
                ) by {
                    let other = instance.collections@[o];
                    assert forall|i: int| 0 <= i < other.links@.len() implies col.respects(
                        #[trigger] &other.links@[i],
                    ) by {
                        Self::lemma_drawn_respected(&col, links@, other.links@[i]);
                    }
                    assert forall|i: int| 0 <= i < other.backlinks@.len() implies col.respects(
                        #[trigger] &other.backlinks@[i],
                    ) by {
                        Self::lemma_drawn_respected(&col, links@, other.backlinks@[i]);
                    }
                }
            }
        }
        Ok(instance)
    }

    /// A link of a numbered list gets along with every collection whose
    /// links come from that list.
    proof fn lemma_drawn_respected(col: &IsarCollection, links: Seq<Link>, x: Link)
        requires
            numbered(links),
            links.len() <= 0x7fff,
            links.contains(x),
            drawn_from(col.links@, links),
            drawn_from(col.backlinks@, links),
        ensures
            col.respects(&x),
            x.wf(),
    {
        assert forall|i: int| 0 <= i < col.links@.len() implies x == #[trigger] col.links@[i]
            || x.disjoint(&col.links@[i]) by {
            lemma_numbered_links(links, x, col.links@[i]);
        }
        assert forall|i: int| 0 <= i < col.backlinks@.len() implies x == #[trigger] col.backlinks@[i]
            || x.disjoint(&col.backlinks@[i]) by {
            lemma_numbered_links(links, x, col.backlinks@[i]);
        }
        lemma_numbered_links(links, x, x);
    }

    /// The collection with this id.
    pub fn get_collection(&self, id: usize) -> (r: Option<&IsarCollection>)
        ensures
            r is Some <==> id < self.collections@.len(),
            r matches Some(col) ==> *col == self.collections@[id as int],
    {
        if id < self.collections.len() {
            Some(&self.collections[id])
        } else {
            None
        }
    }

    /// The first collection with this name.
    pub fn collection(&self, name: &str) -> (r: Option<&IsarCollection>)
        ensures
            r matches Some(col) ==> col.name@ == name@ && exists|c: int|
                0 <= c < self.collections@.len() && *col == #[trigger] self.collections@[c],
            r is None ==> forall|c: int|
                0 <= c < self.collections@.len() ==> (#[trigger] self.collections@[c]).name@ != name@,
    {
        let mut c: usize = 0;
        while c < self.collections.len()
            invariant
                c <= self.collections.len(),
                forall|k: int| 0 <= k < c ==> (#[trigger] self.collections@[k]).name@ != name@,
            decreases self.collections.len() - c,
        {
            if same_text(self.collections[c].name.as_str(), name) {
                return Some(&self.collections[c]);
            }
            c += 1;
        }
        None
    }

    /// A transaction on a copy of the stored state.
    pub fn begin_txn(&self, write: bool) -> (txn: IsarTxn)
        requires
            self.wf(),
        ensures
            txn.is_write() == write,
            !txn.is_poisoned(),
            txn.data()@ == self.data@,
            self.holds(&txn.data()),
    {
        let data = self.data.copy();
        proof {
            assert forall|c: int| 0 <= c < self.collections@.len() implies (
            #[trigger] self.collections@[c]).stored_in(&data) by {
                let col = self.collections@[c];
                assert(col.stored_in(&self.data));
                Self::lemma_same_state(&col, &self.data, &data);
            }
            assert(data.wf()) by {
                assert forall|c: int| 0 <= c < data.cols@.len() implies (#[trigger] data.cols@[c]).wf() by {
                    let x = data.cols@[c];
                    let y = self.data.cols@[c];
                    assert(y.wf());
                    assert(x@.data == y@.data);
                    assert forall|i: int| 0 <= i < x.indexes@.len() implies (
                    #[trigger] x.indexes@[i]).wf() by {
                        assert(y.indexes@[i].wf());
                    }
                }
            }
        }
        IsarTxn::new(data, write)
    }

    /// A collection that is stored in good order in one state is so in
    /// every state that holds the same pairs in databases of the same kind.
    pub proof fn lemma_same_state(col: &IsarCollection, a: &TxnData, b: &TxnData)
        requires
            col.stored_in(a),
            b.links@ == a.links@,
            b.links.allows_dup() == a.links.allows_dup(),
            b.cols@.len() == a.cols@.len(),
            forall|c: int|
                0 <= c < a.cols@.len() ==> {
                    let x = #[trigger] b.cols@[c];
                    let y = a.cols@[c];
                    &&& x@ == y@
                    &&& x.data.allows_dup() == y.data.allows_dup()
                    &&& x.indexes@.len() == y.indexes@.len()
                    &&& forall|i: int|
                        0 <= i < y.indexes@.len() ==> (#[trigger] x.indexes@[i]).allows_dup()
                            == y.indexes@[i].allows_dup() && x.indexes@[i]@ == y.indexes@[i]@
                },
        ensures
            col.stored_in(b),
    {
        assert forall|c: int| 0 <= c < b.cols@.len() implies (#[trigger] b.cols@[c]).wf() by {
            let x = b.cols@[c];
            let y = a.cols@[c];
            assert(y.wf());
            assert(x@.data == y@.data);
            assert forall|i: int| 0 <= i < x.indexes@.len() implies (#[trigger] x.indexes@[i]).wf() by {
                assert(y.indexes@[i].wf());
            }
        }
        let x = b.cols@[col.id as int];
        let y = a.cols@[col.id as int];
        assert(x@.data == y@.data);
        assert(x.data.set() =~= y.data.set());
        assert forall|i: int| 0 <= i < col.indexes@.len() implies (#[trigger] col.indexes@[i]).stores_in(
            &x.indexes@[i],
        ) && x.indexes@[i].set() == expected_index(&col.indexes@[i], x.data.set()) by {
            assert(col.indexes@[i].stores_in(&y.indexes@[i]));
            assert(x.indexes@[i]@ == y.indexes@[i]@);
            assert(x.indexes@[i].set() =~= y.indexes@[i].set());
        }
        assert(x@.last_id == y@.last_id);
    }

    /// Makes the state of a write transaction the stored state. A poisoned
    /// transaction cannot be committed; a read transaction changes nothing.
    pub fn commit(&mut self, txn: IsarTxn) -> (r: Result<(), IsarError>)
        requires
            old(self).wf(),
            !txn.is_poisoned() ==> old(self).holds(&txn.data()),
        ensures
            final(self).wf(),
            final(self).collections == old(self).collections,
            r is Ok <==> !txn.is_poisoned(),
            r matches Err(e) ==> e is TransactionPoisoned && final(self).data == old(self).data,
            r is Ok ==> final(self).data == if txn.is_write() {
                txn.data()
            } else {
                old(self).data
            },
    {
        let write = txn.write();
        match txn.commit() {
            Ok(data) => {
                if write {
                    self.data = data;
                }
                proof {
                    assert(self.collections == old(self).collections);
                    assert forall|c: int| 0 <= c < self.collections@.len() implies #[trigger] self.respects_all(
                        c,
                    ) by {
                        assert(old(self).respects_all(c));
                    }
                    assert(old(self).holds(&self.data));
                    assert forall|c: int| 0 <= c < self.collections@.len() implies (
                    #[trigger] self.collections@[c]).stored_in(&self.data) by {
                        assert(old(self).collections@[c].stored_in(&self.data));
                    }
                }
                Ok(())
            },
            Err(e) => Err(e),
        }
    }

    /// An operation on one collection leaves every other collection
    /// stored in good order.
    pub proof fn lemma_others_held(&self, c: int, before: &TxnData, after: &TxnData)
        requires
            self.wf(),
            0 <= c < self.collections@.len(),
            self.holds(before),
            self.collections@[c].frame(before, after),
            self.collections@[c].stored_in(after),
        ensures
            self.holds(after),
    {
        let col = self.collections@[c];
        assert(col.stored_in(after));
        assert forall|o: int| 0 <= o < self.collections@.len() implies (
        #[trigger] self.collections@[o]).stored_in(after) by {
            let other = self.collections@[o];
            if o != c {
                assert(other.stored_in(before));
                assert(self.respects_all(c));
                assert(col.respects_links_of(&self.collections@[o]));
                assert(after.cols@[o] == before.cols@[o]);
                assert forall|k: int| 0 <= k < other.links@.len() implies (
                #[trigger] other.links@[k]).consistent(after.links@) by {
                    assert(col.respects(&other.links@[k]));
                }
                assert forall|k: int| 0 <= k < other.backlinks@.len() implies (
                #[trigger] other.backlinks@[k]).consistent(after.links@) by {
                    assert(col.respects(&other.backlinks@[k]));
                }
            }
        }
    }
}

} // verus!
