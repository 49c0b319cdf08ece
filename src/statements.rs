use vstd::prelude::*;

use crate::serialization::{escaped, quote_ident, quote_literal, wrapped, Escape};

verus! {

/// An identifier as the query language writes it.
pub open spec fn ident(s: Seq<char>) -> Seq<char> {
    wrapped('"', escaped(Escape::Ident, s))
}

/// A literal as the query language writes it.
pub open spec fn literal(s: Seq<char>) -> Seq<char> {
    wrapped('\'', escaped(Escape::Literal, s))
}

fn keyword_then_ident(keyword: &str, name: &str) -> (r: String)
    ensures
        r@ == keyword@ + ident(name@),
{
    let mut s = String::from_str(keyword);
    s.append(quote_ident(name).as_str());
    s
}

/// `Drop measurement <measurement>`.
pub fn drop_measurement_statement(measurement: &str) -> (r: String)
    ensures
        r@ == "Drop measurement "@ + ident(measurement@),
{
    keyword_then_ident("Drop measurement ", measurement)
}

/// `Create database <dbname>`.
pub fn create_database_statement(dbname: &str) -> (r: String)
    ensures
        r@ == "Create database "@ + ident(dbname@),
{
    keyword_then_ident("Create database ", dbname)
}

/// `Drop database <dbname>`.
pub fn drop_database_statement(dbname: &str) -> (r: String)
    ensures
        r@ == "Drop database "@ + ident(dbname@),
{
    keyword_then_ident("Drop database ", dbname)
}

/// `Create user <user> with password <passwd>`, granting all privileges when
/// `admin` holds.
pub fn create_user_statement(user: &str, passwd: &str, admin: bool) -> (r: String)
    ensures
        admin ==> r@ == "Create user "@ + ident(user@) + " with password "@ + literal(passwd@)
            + " with all privileges"@,
        !admin ==> r@ == "Create user "@ + ident(user@) + " WITH password "@ + literal(passwd@),
{
    let mut s = keyword_then_ident("Create user ", user);
    if admin {
        s.append(" with password ");
    } else {
        s.append(" WITH password ");
    }
    s.append(quote_literal(passwd).as_str());
    if admin {
        s.append(" with all privileges");
    }
    s
}

/// `Drop user <user>`.
pub fn drop_user_statement(user: &str) -> (r: String)
    ensures
        r@ == "Drop user "@ + ident(user@),
{
    keyword_then_ident("Drop user ", user)
}

/// `Set password for <user>=<passwd>`.
pub fn set_user_password_statement(user: &str, passwd: &str) -> (r: String)
    ensures
        r@ == "Set password for "@ + ident(user@) + "="@ + literal(passwd@),
{
    let mut s = keyword_then_ident("Set password for ", user);
    s.append("=");
    s.append(quote_literal(passwd).as_str());
    s
}

/// `Grant all privileges to <user>`.
pub fn grant_admin_privileges_statement(user: &str) -> (r: String)
    ensures
        r@ == "Grant all privileges to "@ + ident(user@),
{
    keyword_then_ident("Grant all privileges to ", user)
}

/// `Revoke all privileges from <user>`.
pub fn revoke_admin_privileges_statement(user: &str) -> (r: String)
    ensures
        r@ == "Revoke all privileges from "@ + ident(user@),
{
    keyword_then_ident("Revoke all privileges from ", user)
}

/// `Grant <privilege> on <db> to <user>`.
pub fn grant_privilege_statement(user: &str, db: &str, privilege: &str) -> (r: String)
    ensures
        r@ == "Grant "@ + privilege@ + " on "@ + ident(db@) + " to "@ + ident(user@),
{
    let mut s = String::from_str("Grant ");
    s.append(privilege);
    s.append(" on ");
    s.append(quote_ident(db).as_str());
    s.append(" to ");
    s.append(quote_ident(user).as_str());
    s
}

/// `Revoke <privilege> on <db> from <user>`.
pub fn revoke_privilege_statement(user: &str, db: &str, privilege: &str) -> (r: String)
    ensures
        r@ == "Revoke "@ + privilege@ + " on "@ + ident(db@) + " from "@ + ident(user@),
{
    let mut s = String::from_str("Revoke ");
    s.append(privilege);
    s.append(" on ");
    s.append(quote_ident(db).as_str());
    s.append(" from ");
    s.append(quote_ident(user).as_str());
    s
}

/// `Create retention policy <name> on <database> duration <duration>
/// replication <replication>`, followed by ` default` when `default` holds.
pub fn create_retention_policy_statement(
    name: &str,
    database: &str,
    duration: &str,
    replication: &str,
    default: bool,
) -> (r: String)
    ensures
        r@ == "Create retention policy "@ + ident(name@) + " on "@ + ident(database@)
            + " duration "@ + duration@ + " replication "@ + replication@ + if default {
            " default"@
        } else {
            Seq::empty()
        },
{
    let mut s = keyword_then_ident("Create retention policy ", name);
    s.append(" on ");
    s.append(quote_ident(database).as_str());
    s.append(" duration ");
    s.append(duration);
    s.append(" replication ");
    s.append(replication);
    if default {
        s.append(" default");
    }
    s
}

/// `Drop retention policy <name> on <database>`.
pub fn drop_retention_policy_statement(name: &str, database: &str) -> (r: String)
    ensures
        r@ == "Drop retention policy "@ + ident(name@) + " on "@ + ident(database@),
{
    let mut s = keyword_then_ident("Drop retention policy ", name);
    s.append(" on ");
    s.append(quote_ident(database).as_str());
    s
}

} // verus!
