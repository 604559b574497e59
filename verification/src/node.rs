//! The task record and its identity.

use vstd::prelude::*;
use vstd::std_specs::cmp::PartialEqSpec;

use chrono::TimeZone;

use crate::Error;

verus! {

/// A node's identity: the 128 bits of a version-4 UUID, stable for the
/// node's lifetime.
pub type NodeID = u128;

/// A task record. `scheduled` and `due` are optional absolute timestamps,
/// stored as milliseconds since the Unix epoch.
#[derive(Debug)]
pub struct Node {
    pub id: NodeID,
    pub title: String,
    pub description: String,
    pub scheduled: Option<i64>,
    pub due: Option<i64>,
}

impl Clone for Node {
    fn clone(&self) -> (res: Node)
        ensures
            res == *self,
    {
        Node {
            id: self.id,
            title: self.title.clone(),
            description: self.description.clone(),
            scheduled: self.scheduled,
            due: self.due,
        }
    }
}

impl PartialEq for Node {
    fn eq(&self, other: &Node) -> (r: bool) {
        self.id == other.id && self.title == other.title && self.description
            == other.description && self.scheduled == other.scheduled && self.due == other.due
    }
}

impl vstd::std_specs::cmp::PartialEqSpecImpl for Node {
    open spec fn obeys_eq_spec() -> bool {
        true
    }

    open spec fn eq_spec(&self, other: &Node) -> bool {
        &&& self.id == other.id
        &&& self.title@ == other.title@
        &&& self.description@ == other.description@
        &&& self.scheduled == other.scheduled
        &&& self.due == other.due
    }
}

/// One lowercase hexadecimal digit.
pub open spec fn hex_char(d: u128) -> char
    recommends
        d < 16,
{
    if d < 10 {
        ((48 + d) as u8) as char
    } else {
        ((87 + d) as u8) as char
    }
}

/// The lowercase hyphenated text form of a 128-bit identifier: its 32
/// hexadecimal digits, most significant first, with hyphens after digits
/// 8, 12, 16 and 20.
pub open spec fn uuid_str_of(id: NodeID) -> Seq<char> {
    Seq::new(
        36,
        |p: int|
            if p == 8 || p == 13 || p == 18 || p == 23 {
                '-'
            } else {
                let k = if p < 8 {
                    p
                } else if p < 13 {
                    p - 1
                } else if p < 18 {
                    p - 2
                } else if p < 23 {
                    p - 3
                } else {
                    p - 4
                };
                hex_char((id >> ((4 * (31 - k)) as u128)) & 0xf)
            },
    )
}

/// Relies on uuid::Uuid::new_v4: a fresh randomly generated version-4
/// identifier. Nothing is promised of the value itself.
#[verifier::external_body]
fn fresh_node_id() -> NodeID {
    uuid::Uuid::new_v4().as_u128()
}

/// Relies on the uuid crate's Display implementation (via Uuid::from_u128):
/// the lowercase hyphenated form of the 128-bit value, as `uuid_str_of`
/// spells it out.
#[verifier::external_body]
fn uuid_string(id: NodeID) -> (r: String)
    ensures
        r@ == uuid_str_of(id),
{
    uuid::Uuid::from_u128(id).to_string()
}

/// Whether a millisecond count denotes an instant the date library can
/// represent (roughly 262,000 years either side of the common era).
pub uninterp spec fn valid_timestamp_millis(millis: i64) -> bool;

/// Relies on chrono's TimeZone::timestamp_millis_opt over Utc: whether the
/// count is representable depends on the value alone.
#[verifier::external_body]
fn timestamp_representable(millis: i64) -> (r: bool)
    ensures
        r == valid_timestamp_millis(millis),
{
    matches!(chrono::Utc.timestamp_millis_opt(millis), chrono::LocalResult::Single(_))
}

/// A stored timestamp must denote a real instant: an out-of-range
/// millisecond count read back from storage is malformed.
pub fn checked_timestamp(timestamp: Option<i64>) -> (r: Result<Option<i64>, Error>)
    ensures
        r == (match timestamp {
            None => Ok::<Option<i64>, Error>(None),
            Some(v) => if valid_timestamp_millis(v) {
                Ok::<Option<i64>, Error>(Some(v))
            } else {
                Err::<Option<i64>, Error>(Error::Malformed)
            },
        }),
{
    match timestamp {
        None => Ok(None),
        Some(v) => {
            if timestamp_representable(v) {
                Ok(Some(v))
            } else {
                Err(Error::Malformed)
            }
        },
    }
}

impl Node {
    /// A fresh node: a new random identifier and blank fields.
    pub fn new() -> (n: Node)
        ensures
            n.title@ == Seq::<char>::empty(),
            n.description@ == Seq::<char>::empty(),
            n.scheduled is None,
            n.due is None,
    {
        Node {
            id: fresh_node_id(),
            title: String::new(),
            description: String::new(),
            scheduled: None,
            due: None,
        }
    }

    /// One line naming the node: its title followed by its identifier in
    /// parentheses.
    pub fn short_repr(&self) -> (r: String)
        ensures
            r@ == self.title@ + " ("@ + uuid_str_of(self.id) + ")"@,
    {
        let mut r = self.title.clone();
        r.append(" (");
        let ids = uuid_string(self.id);
        r.append(ids.as_str());
        r.append(")");
        r
    }
}

} // verus!
