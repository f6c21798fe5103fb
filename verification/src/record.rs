//! The records that rows are read into. A node of the hierarchy and an entity
//! take whatever the row offers and leave the rest empty; a related pair needs
//! every one of its columns.

use crate::error::DecodeError;
use crate::error::DecodeFailure;
use crate::hstore::Attributes;
use crate::row::column_index;
use crate::row::Row;
use vstd::prelude::*;
use vstd::string::StringExecFns;

verus! {

/// What a lenient read keeps: the value, or nothing where the read failed.
pub open spec fn kept<T>(read: Result<T, DecodeFailure>) -> Option<T> {
    match read {
        Ok(value) => Some(value),
        Err(_) => None,
    }
}

/// The first column of a related pair that cannot be read from the row as
/// text, with the reason, in the order `id`, `relation`, `path`, `related_id`,
/// `related_type`; or `None` where all five can.
pub open spec fn related_failure(row: Row) -> Option<(Seq<char>, DecodeFailure)> {
    if row.text("id"@) is Err {
        Some(("id"@, row.text("id"@)->Err_0))
    } else if row.text("relation"@) is Err {
        Some(("relation"@, row.text("relation"@)->Err_0))
    } else if row.text("path"@) is Err {
        Some(("path"@, row.text("path"@)->Err_0))
    } else if row.text("related_id"@) is Err {
        Some(("related_id"@, row.text("related_id"@)->Err_0))
    } else if row.text("related_type"@) is Err {
        Some(("related_type"@, row.text("related_type"@)->Err_0))
    } else {
        None
    }
}

/// A field that is read leniently from a row without a column of its name is
/// empty, whatever the other columns hold.
pub proof fn lemma_absent_column_is_empty(row: Row, name: Seq<char>)
    requires
        column_index(row.names(), name) is None,
    ensures
        kept(row.text(name)) is None,
        kept(row.attributes(name)) is None,
{
}

/// A row without a column `relation` is never read into a related pair. The
/// failure names `relation` as missing, unless `id`, which is read before it,
/// fails already.
pub proof fn lemma_missing_relation_fails(row: Row)
    requires
        column_index(row.names(), "relation"@) is None,
    ensures
        related_failure(row) is Some,
        row.text("id"@) is Ok ==> related_failure(row) == Some(
            ("relation"@, DecodeFailure::Missing),
        ),
{
}

/// A row is read into a related pair exactly when each of the five columns
/// gives a text.
pub proof fn lemma_related_needs_every_column(row: Row)
    ensures
        related_failure(row) is None <==> {
            &&& row.text("id"@) is Ok
            &&& row.text("relation"@) is Ok
            &&& row.text("path"@) is Ok
            &&& row.text("related_id"@) is Ok
            &&& row.text("related_type"@) is Ok
        },
{
}

/// A node of the hierarchy. Each field is empty where the row had no such
/// column, or the column held NULL or something that is no text.
#[derive(Debug, PartialEq, Eq)]
pub struct Hierarchy {
    pub path: Option<String>,
    pub typ: Option<String>,
    pub entity_id: Option<String>,
}

/// An entity, with its bag of attributes. Each field is empty where the row
/// did not offer it.
#[derive(Debug)]
pub struct Entity {
    pub id: Option<String>,
    pub typ: Option<String>,
    pub data: Option<Attributes>,
}

/// An entity and one that it is related to through the hierarchy.
#[derive(Debug, PartialEq, Eq)]
pub struct Related {
    pub id: String,
    pub relation: String,
    pub path: String,
    pub related_id: String,
    pub related_type: String,
}

impl Hierarchy {
    /// The record holds what the row's columns `path`, `type` and `entity_id`
    /// give as text.
    pub open spec fn reads(&self, row: Row) -> bool {
        &&& self.path.deep_view() == kept(row.text("path"@))
        &&& self.typ.deep_view() == kept(row.text("type"@))
        &&& self.entity_id.deep_view() == kept(row.text("entity_id"@))
    }

    /// Reads a node from a row. This never fails.
    pub fn from(row: &Row) -> (r: Hierarchy)
        ensures
            r.reads(*row),
    {
        Hierarchy {
            path: row.try_get_text("path").ok(),
            typ: row.try_get_text("type").ok(),
            entity_id: row.try_get_text("entity_id").ok(),
        }
    }
}

impl Entity {
    /// The attributes of the entity, as a map.
    pub open spec fn data_view(&self) -> Option<Map<Seq<char>, Option<Seq<char>>>> {
        match self.data {
            Some(attributes) => Some(attributes@),
            None => None,
        }
    }

    /// The record holds what the row's columns `id` and `type` give as text
    /// and what its column `data` gives as attributes.
    pub open spec fn reads(&self, row: Row) -> bool {
        &&& self.id.deep_view() == kept(row.text("id"@))
        &&& self.typ.deep_view() == kept(row.text("type"@))
        &&& self.data_view() == kept(row.attributes("data"@))
    }

    /// Reads an entity from a row. This never fails.
    pub fn from(row: &Row) -> (r: Entity)
        ensures
            r.reads(*row),
    {
        Entity {
            id: row.try_get_text("id").ok(),
            typ: row.try_get_text("type").ok(),
            data: row.try_get_attributes("data").ok(),
        }
    }
}

impl Related {
    /// The record holds the text of the row's five columns.
    pub open spec fn reads(&self, row: Row) -> bool {
        &&& row.text("id"@) matches Ok(text) && text == self.id@
        &&& row.text("relation"@) matches Ok(text) && text == self.relation@
        &&& row.text("path"@) matches Ok(text) && text == self.path@
        &&& row.text("related_id"@) matches Ok(text) && text == self.related_id@
        &&& row.text("related_type"@) matches Ok(text) && text == self.related_type@
    }

    /// The line that shows the pair:
    /// `id=<id> rel=<relation>:<path> related=<related_type>:<related_id>`.
    pub open spec fn line(&self) -> Seq<char> {
        "id="@ + self.id@ + " rel="@ + self.relation@ + ":"@ + self.path@ + " related="@
            + self.related_type@ + ":"@ + self.related_id@
    }

    /// Reads a related pair from a row. It fails at the first of its columns
    /// that the row does not give as text, and names that column.
    pub fn from(row: &Row) -> (r: Result<Related, DecodeError>)
        ensures
            match related_failure(*row) {
                Some((column, failure)) => r matches Err(e) && e.column@ == column && e.failure
                    == failure,
                None => r matches Ok(record) && record.reads(*row),
            },
    {
        let id = match row.try_get_text("id") {
            Ok(text) => text,
            Err(e) => {
                return Err(e);
            },
        };
        let relation = match row.try_get_text("relation") {
            Ok(text) => text,
            Err(e) => {
                return Err(e);
            },
        };
        let path = match row.try_get_text("path") {
            Ok(text) => text,
            Err(e) => {
                return Err(e);
            },
        };
        let related_id = match row.try_get_text("related_id") {
            Ok(text) => text,
            Err(e) => {
                return Err(e);
            },
        };
        let related_type = match row.try_get_text("related_type") {
            Ok(text) => text,
            Err(e) => {
                return Err(e);
            },
        };
        Ok(Related { id, relation, path, related_id, related_type })
    }

    /// The line that shows the pair.
    pub fn fmt(&self) -> (r: String)
        ensures
            r@ == self.line(),
    {
        let mut out = String::from_str("id=");
        out.append(self.id.as_str());
        out.append(" rel=");
        out.append(self.relation.as_str());
        out.append(":");
        out.append(self.path.as_str());
        out.append(" related=");
        out.append(self.related_type.as_str());
        out.append(":");
        out.append(self.related_id.as_str());
        out
    }
}

} // verus!
