use influx_db_client::requests::{
    credential_params, is_read_query, ping_succeeded, query_params, query_step, query_syntax_error, uses_get,
    version_reply, write_outcome, write_params, QueryStep,
};
use influx_db_client::statements::{
    create_database_statement, create_retention_policy_statement, create_user_statement,
    drop_database_statement, drop_measurement_statement, drop_retention_policy_statement,
    drop_user_statement, grant_admin_privileges_statement, grant_privilege_statement,
    revoke_admin_privileges_statement, revoke_privilege_statement, set_user_password_statement,
};
use influx_db_client::{Error, Precision};

fn pairs(v: &[(String, String)]) -> Vec<(&str, &str)> {
    v.iter().map(|(a, b)| (a.as_str(), b.as_str())).collect()
}

#[test]
fn write_params_default_to_seconds() {
    assert_eq!(
        pairs(&write_params("mydb", None, None)),
        vec![("db", "mydb"), ("precision", "s")]
    );
    assert_eq!(
        pairs(&write_params("mydb", Some(Precision::Milliseconds), Some("week"))),
        vec![("db", "mydb"), ("precision", "ms"), ("rp", "week")]
    );
}

#[test]
fn query_params_carry_epoch_and_chunking() {
    assert_eq!(
        pairs(&query_params("d", "show databases", None, false)),
        vec![("db", "d"), ("q", "show databases")]
    );
    assert_eq!(
        pairs(&query_params("d", "select 1", Some(Precision::Hours), true)),
        vec![("db", "d"), ("q", "select 1"), ("epoch", "h"), ("chunked", "true")]
    );
}

#[test]
fn write_outcome_by_status() {
    assert_eq!(write_outcome(204, "ignored"), Ok(()));
    assert_eq!(
        write_outcome(400, "{\"error\":\"bad 'line'\"} "),
        Err(Error::SyntaxError("{error:bad line}".to_string()))
    );
    assert_eq!(
        write_outcome(401, ""),
        Err(Error::InvalidCredentials(
            "Invalid authentication credentials.".to_string()
        ))
    );
    assert_eq!(
        write_outcome(403, "x"),
        Err(Error::InvalidCredentials(
            "Invalid authentication credentials.".to_string()
        ))
    );
    assert_eq!(
        write_outcome(404, " \"database not found\" "),
        Err(Error::DataBaseDoesNotExist("database not found".to_string()))
    );
    assert_eq!(
        write_outcome(500, " \"rp\" "),
        Err(Error::RetentionPolicyDoesNotExist(" \"rp\" ".to_string()))
    );
    assert_eq!(
        write_outcome(502, ""),
        Err(Error::Unknow("Received status code 502".to_string()))
    );
}

#[test]
fn query_step_by_status() {
    assert_eq!(query_step(200), QueryStep::Accept);
    assert_eq!(query_step(400), QueryStep::ReadError);
    assert_eq!(
        query_step(403),
        QueryStep::Reject(Error::InvalidCredentials(
            "Invalid authentication credentials.".to_string()
        ))
    );
    assert_eq!(
        query_step(500),
        QueryStep::Reject(Error::Unknow("There is something wrong".to_string()))
    );
    assert_eq!(
        query_syntax_error("error parsing query: 'x'"),
        Error::SyntaxError("error parsing query: x".to_string())
    );
}

#[test]
fn error_description_is_its_message() {
    assert_eq!(Error::Communication("down".to_string()).description(), "down");
    assert_eq!(Error::Unknow("?".to_string()).description(), "?");
}

#[test]
fn reading_statements_use_get() {
    assert!(uses_get("SELECT * FROM cpu"));
    assert!(uses_get("Show Databases"));
    assert!(!uses_get("SELECT * INTO copy FROM cpu"));
    assert!(!uses_get("Create database \"x\""));
    assert!(!uses_get(""));
    assert!(is_read_query("select 1"));
    assert!(!is_read_query("SELECT 1"));
    assert!(!is_read_query("select * into b from a"));
}

#[test]
fn ping_and_version() {
    assert!(ping_succeeded(204));
    assert!(!ping_succeeded(200));
    assert_eq!(version_reply(204, None), Some("Don't know".to_string()));
    assert_eq!(
        version_reply(204, Some(Some("1.8.10".to_string()))),
        Some("1.8.10".to_string())
    );
    assert_eq!(version_reply(204, Some(None)), None);
    assert_eq!(version_reply(500, Some(Some("1.8".to_string()))), None);
}

#[test]
fn administrative_statements() {
    assert_eq!(drop_measurement_statement("cpu"), "Drop measurement \"cpu\"");
    assert_eq!(create_database_statement("temporary"), "Create database \"temporary\"");
    assert_eq!(drop_database_statement("a\"b"), "Drop database \"a\\\"b\"");
    assert_eq!(
        create_user_statement("root", "pw", true),
        "Create user \"root\" with password 'pw' with all privileges"
    );
    assert_eq!(
        create_user_statement("root", "p'w", false),
        "Create user \"root\" WITH password 'p\\'w'"
    );
    assert_eq!(drop_user_statement("root"), "Drop user \"root\"");
    assert_eq!(
        set_user_password_statement("root", "new"),
        "Set password for \"root\"='new'"
    );
    assert_eq!(
        grant_admin_privileges_statement("root"),
        "Grant all privileges to \"root\""
    );
    assert_eq!(
        revoke_admin_privileges_statement("root"),
        "Revoke all privileges from \"root\""
    );
    assert_eq!(
        grant_privilege_statement("u", "d", "read"),
        "Grant read on \"d\" to \"u\""
    );
    assert_eq!(
        revoke_privilege_statement("u", "d", "all"),
        "Revoke all on \"d\" from \"u\""
    );
    assert_eq!(
        create_retention_policy_statement("rp", "d", "1h", "1", true),
        "Create retention policy \"rp\" on \"d\" duration 1h replication 1 default"
    );
    assert_eq!(
        create_retention_policy_statement("rp", "d", "INF", "2", false),
        "Create retention policy \"rp\" on \"d\" duration INF replication 2"
    );
    assert_eq!(
        drop_retention_policy_statement("rp", "d"),
        "Drop retention policy \"rp\" on \"d\""
    );
}

#[test]
fn credentials_come_first_as_user_and_password() {
    assert_eq!(
        pairs(&credential_params(&Some(("root".to_string(), "secret".to_string())))),
        vec![("u", "root"), ("p", "secret")]
    );
    assert!(credential_params(&None).is_empty());
}
