//! Secrets for cloud storage.
use pq::cloud::{gcs_bearer_step, gcs_hmac_step, s3_step, S3Env, SecretStep};

fn some(s: &str) -> Option<String> {
    Some(s.to_string())
}

fn s3() -> S3Env {
    S3Env {
        key_id: None,
        secret: None,
        session_token: None,
        region: None,
        default_region: None,
        endpoint: None,
    }
}

#[test]
fn hmac_keys_come_in_pairs() {
    assert_eq!(gcs_hmac_step(&None, &some("s")), SecretStep::Nothing);
    assert_eq!(gcs_hmac_step(&some(""), &some("s")), SecretStep::Nothing);
    assert_eq!(
        gcs_hmac_step(&some("k"), &None),
        SecretStep::Warn(
            "PQ_GCS_HMAC_KEY set without PQ_GCS_HMAC_SECRET — skipping GCS HMAC secret".to_string()
        )
    );
    assert_eq!(
        gcs_hmac_step(&some("k'"), &some("s")),
        SecretStep::Create(vec![
            "CREATE OR REPLACE SECRET pq_gcs_hmac (TYPE GCS, KEY_ID 'k''', SECRET 's');"
                .to_string()
        ])
    );
}

#[test]
fn bearer_tokens_have_two_spellings() {
    assert_eq!(gcs_bearer_step(&None), SecretStep::Nothing);
    assert_eq!(
        gcs_bearer_step(&some("t")),
        SecretStep::Create(vec![
            "CREATE OR REPLACE SECRET pq_gcs_bearer (TYPE GCS, PROVIDER OAUTH2, BEARER_TOKEN 't');"
                .to_string(),
            "CREATE OR REPLACE SECRET pq_gcs_bearer (TYPE GCS, BEARER_TOKEN 't');".to_string(),
        ])
    );
}

#[test]
fn s3_without_a_key_is_left_to_the_credential_chain() {
    assert_eq!(
        s3_step(&s3()),
        SecretStep::Create(vec![
            "CREATE OR REPLACE SECRET pq_s3 (TYPE S3, PROVIDER credential_chain);".to_string()
        ])
    );
}

#[test]
fn s3_key_without_its_secret_is_reported() {
    let env = S3Env {
        key_id: some("k"),
        ..s3()
    };
    assert_eq!(
        s3_step(&env),
        SecretStep::Warn(
            "AWS_ACCESS_KEY_ID set without AWS_SECRET_ACCESS_KEY — skipping S3 secret".to_string()
        )
    );
}

#[test]
fn s3_parameters_are_all_passed_on() {
    let env = S3Env {
        key_id: some("k"),
        secret: some("s"),
        session_token: some("t"),
        region: some(""),
        default_region: some("eu"),
        endpoint: some("http://host:9000//"),
    };
    assert_eq!(
        s3_step(&env),
        SecretStep::Create(vec![
            "CREATE OR REPLACE SECRET pq_s3 (TYPE S3, KEY_ID 'k', SECRET 's', SESSION_TOKEN 't', \
             REGION 'eu', ENDPOINT 'host:9000', URL_STYLE path, USE_SSL false);"
                .to_string()
        ])
    );
    let env = S3Env {
        region: some("us"),
        session_token: None,
        endpoint: some("https://r2.example"),
        ..env
    };
    assert_eq!(
        s3_step(&env),
        SecretStep::Create(vec![
            "CREATE OR REPLACE SECRET pq_s3 (TYPE S3, KEY_ID 'k', SECRET 's', REGION 'us', \
             ENDPOINT 'r2.example', URL_STYLE path);"
                .to_string()
        ])
    );
}
