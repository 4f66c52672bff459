use crate::error::IsarError;
use crate::query::filter::Filter;
use crate::query::id_where_clause::IdWhereClause;
use crate::query::index_where_clause::IndexWhereClause;
use crate::object::property::Property;
use crate::query::query::Query;
use crate::query::sort::SortKey;
use crate::query::where_clause::WhereClause;
use vstd::prelude::*;

verus! {

/// Puts a query together: scans first, then the filter and the window.
pub struct QueryBuilder {
    pub col_id: u16,
    pub where_clauses: Vec<WhereClause>,
    pub filter: Option<Filter>,
    pub sort: Vec<SortKey>,
    pub distinct: Vec<Property>,
    pub offset: usize,
    pub limit: usize,
}

impl QueryBuilder {
    /// A builder for a query that finds nothing yet: no scan, no filter,
    /// and a window that takes everything.
    pub fn new(col_id: u16) -> (b: QueryBuilder)
        ensures
            b.col_id == col_id,
            b.where_clauses@.len() == 0,
            b.filter is None,
            b.sort@.len() == 0,
            b.distinct@.len() == 0,
            b.offset == 0,
            b.limit == usize::MAX,
    {
        QueryBuilder {
            col_id,
            where_clauses: Vec::new(),
            filter: None,
            sort: Vec::new(),
            distinct: Vec::new(),
            offset: 0,
            limit: usize::MAX,
        }
    }

    /// Adds a key to sort by, after the keys added before. Only numbers
    /// and strings can be sorted by.
    pub fn add_sort(&mut self, property: Property, ascending: bool) -> (r: Result<(), IsarError>)
        ensures
            r is Ok <==> property.data_type.spec_is_static() || property.data_type
                == crate::object::data_type::DataType::String,
            r matches Err(e) ==> e is IllegalArgument && *final(self) == *old(self),
            r is Ok ==> final(self).sort@ == old(self).sort@.push(SortKey { property, ascending })
                && final(self).col_id == old(self).col_id && final(self).where_clauses == old(
                self,
            ).where_clauses && final(self).filter == old(self).filter && final(self).distinct
                == old(self).distinct && final(self).offset == old(self).offset && final(self).limit
                == old(self).limit,
    {
        if property.data_type.is_static() || property.data_type
            == crate::object::data_type::DataType::String {
            self.sort.push(SortKey { property, ascending });
            Ok(())
        } else {
            Err(
                IsarError::IllegalArgument {
                    message: "Only scalars and strings can be sorted by.".to_string(),
                },
            )
        }
    }

    /// Adds a property by which `distinct` tells objects apart.
    pub fn add_distinct(&mut self, property: Property)
        ensures
            final(self).distinct@ == old(self).distinct@.push(property),
            final(self).col_id == old(self).col_id,
            final(self).where_clauses == old(self).where_clauses,
            final(self).filter == old(self).filter,
            final(self).sort == old(self).sort,
            final(self).offset == old(self).offset,
            final(self).limit == old(self).limit,
    {
        self.distinct.push(property);
    }

    /// The scan as the query takes it in: with the bounds included or not.
    pub open spec fn bounded(wc: WhereClause, include_lower: bool, include_upper: bool) -> WhereClause {
        match wc {
            WhereClause::Id(c) => {
                if (!include_lower && c.lower == i64::MAX) || (!include_upper && c.upper
                    == i64::MIN) {
                    WhereClause::Id(
                        IdWhereClause { prefix: c.prefix, lower: 1, upper: 0, ascending: c.ascending },
                    )
                } else {
                    WhereClause::Id(
                        IdWhereClause {
                            prefix: c.prefix,
                            lower: if include_lower {
                                c.lower
                            } else {
                                (c.lower + 1) as i64
                            },
                            upper: if include_upper {
                                c.upper
                            } else {
                                (c.upper - 1) as i64
                            },
                            ascending: c.ascending,
                        },
                    )
                }
            },
            WhereClause::Index(c) => WhereClause::Index(
                IndexWhereClause {
                    index_index: c.index_index,
                    properties: c.properties,
                    multi_entry: c.multi_entry,
                    lower_key: c.lower_key,
                    upper_key: c.upper_key,
                    include_lower: include_lower,
                    include_upper: include_upper,
                    skip_duplicates: c.skip_duplicates,
                    ascending: c.ascending,
                },
            ),
        }
    }

    /// Adds a scan. A scan of the ids of another collection is refused.
    pub fn add_where_clause(
        &mut self,
        wc: WhereClause,
        include_lower: bool,
        include_upper: bool,
    ) -> (r: Result<(), IsarError>)
        ensures
            r is Err <==> (wc matches WhereClause::Id(c) && c.prefix != old(self).col_id),
            r matches Err(e) ==> e is IllegalArgument && *final(self) == *old(self),
            r is Ok ==> final(self).col_id == old(self).col_id && final(self).filter == old(
                self,
            ).filter && final(self).offset == old(self).offset && final(self).limit == old(
                self,
            ).limit && final(self).sort == old(self).sort && final(self).distinct == old(
                self,
            ).distinct && final(self).where_clauses@ == old(self).where_clauses@.push(
                Self::bounded(wc, include_lower, include_upper),
            ),
    {
        let bounded = match wc {
            WhereClause::Id(c) => {
                if c.prefix != self.col_id {
                    return Err(
                        IsarError::IllegalArgument {
                            message: "The where clause is of another collection.".to_string(),
                        },
                    );
                }
                if (!include_lower && c.lower == i64::MAX) || (!include_upper && c.upper
                    == i64::MIN) {
                    WhereClause::Id(
                        IdWhereClause { prefix: c.prefix, lower: 1, upper: 0, ascending: c.ascending },
                    )
                } else {
                    let lower: i64 = if include_lower {
                        c.lower
                    } else {
                        c.lower + 1
                    };
                    let upper: i64 = if include_upper {
                        c.upper
                    } else {
                        c.upper - 1
                    };
                    WhereClause::Id(
                        IdWhereClause { prefix: c.prefix, lower, upper, ascending: c.ascending },
                    )
                }
            },
            WhereClause::Index(c) => WhereClause::Index(
                IndexWhereClause {
                    index_index: c.index_index,
                    properties: c.properties,
                    multi_entry: c.multi_entry,
                    lower_key: c.lower_key,
                    upper_key: c.upper_key,
                    include_lower,
                    include_upper,
                    skip_duplicates: c.skip_duplicates,
                    ascending: c.ascending,
                },
            ),
        };
        self.where_clauses.push(bounded);
        Ok(())
    }

    pub fn set_filter(&mut self, filter: Filter)
        ensures
            final(self).filter == Some(filter),
            final(self).col_id == old(self).col_id,
            final(self).where_clauses == old(self).where_clauses,
            final(self).sort == old(self).sort,
            final(self).distinct == old(self).distinct,
            final(self).offset == old(self).offset,
            final(self).limit == old(self).limit,
    {
        self.filter = Some(filter);
    }

    /// Sets the window: how many matches to pass over, and how many to
    /// hand out at most.
    pub fn set_offset_limit(&mut self, offset: usize, limit: usize)
        ensures
            final(self).offset == offset,
            final(self).limit == limit,
            final(self).col_id == old(self).col_id,
            final(self).where_clauses == old(self).where_clauses,
            final(self).filter == old(self).filter,
            final(self).sort == old(self).sort,
            final(self).distinct == old(self).distinct,
    {
        self.offset = offset;
        self.limit = limit;
    }

    /// The query. Without a scan of its own it scans the whole collection.
    pub fn build(self) -> (q: Query)
        ensures
            q.col_id == self.col_id,
            q.filter == self.filter,
            q.sort == self.sort,
            q.distinct == self.distinct,
            q.offset == self.offset,
            q.limit == self.limit,
            self.where_clauses@.len() > 0 ==> q.where_clauses == self.where_clauses,
            self.where_clauses@.len() == 0 ==> q.where_clauses@ == seq![
                WhereClause::Id(
                    IdWhereClause {
                        prefix: self.col_id,
                        lower: i64::MIN,
                        upper: i64::MAX,
                        ascending: true,
                    },
                ),
            ],
    {
        let mut where_clauses = self.where_clauses;
        if where_clauses.len() == 0 {
            where_clauses.push(
                WhereClause::Id(
                    IdWhereClause {
                        prefix: self.col_id,
                        lower: i64::MIN,
                        upper: i64::MAX,
                        ascending: true,
                    },
                ),
            );
            assert(where_clauses@ =~= seq![
                WhereClause::Id(
                    IdWhereClause {
                        prefix: self.col_id,
                        lower: i64::MIN,
                        upper: i64::MAX,
                        ascending: true,
                    },
                ),
            ]);
        }
        Query::new(
            self.col_id,
            where_clauses,
            self.filter,
            self.sort,
            self.distinct,
            self.offset,
            self.limit,
        )
    }
}

} // verus!
