//! DuckDB secrets for cloud storage, from the values of environment variables.
use vstd::prelude::*;

use crate::sql::{escaped_text_reads_back, literal_text, quotes_doubled, sql_escape};
use crate::text::{
    after_prefix, cat3, cat5, copy_of, has_prefix, join, joined, starts_with, strip_prefix,
    strip_trailing, texts, without_trailing,
};

verus! {

/// What the credentials that were found ask for.
#[derive(Debug, PartialEq, Eq)]
pub enum SecretStep {
    /// There is nothing to do.
    Nothing,
    /// The credentials are incomplete.
    Warn(String),
    /// Run these statements in turn, until one of them is accepted.
    Create(Vec<String>),
}

/// The mathematical value of a `SecretStep`.
pub enum StepView {
    Nothing,
    Warn(Seq<char>),
    Create(Seq<Seq<char>>),
}

impl View for SecretStep {
    type V = StepView;

    open spec fn view(&self) -> StepView {
        match self {
            SecretStep::Nothing => StepView::Nothing,
            SecretStep::Warn(why) => StepView::Warn(why@),
            SecretStep::Create(sqls) => StepView::Create(texts(sqls@)),
        }
    }
}

/// The text of a variable that is set to something.
pub open spec fn set_text(v: Option<String>) -> Option<Seq<char>> {
    match v {
        Some(s) => if s@.len() == 0 {
            None
        } else {
            Some(s@)
        },
        None => None,
    }
}

/// The text of a variable, where it is set to something.
fn set(v: &Option<String>) -> (r: Option<&str>)
    ensures
        match r {
            Some(s) => set_text(*v) == Some(s@),
            None => set_text(*v) is None,
        },
{
    match v {
        Some(s) => if s.as_str().is_empty() {
            None
        } else {
            Some(s.as_str())
        },
        None => None,
    }
}

fn create_one(sql: String) -> (r: SecretStep)
    ensures
        r@ == StepView::Create(seq![sql@]),
{
    let mut sqls: Vec<String> = Vec::new();
    sqls.push(sql);
    assert(texts(sqls@) =~= seq![sql@]);
    SecretStep::Create(sqls)
}

// ─── Google Cloud Storage ───────────────────────────────────────────────────
/// The statement for a pair of HMAC keys.
pub open spec fn hmac_statement(key: Seq<char>, secret: Seq<char>) -> Seq<char> {
    "CREATE OR REPLACE SECRET pq_gcs_hmac (TYPE GCS, KEY_ID '"@ + quotes_doubled(key)
        + "', SECRET '"@ + quotes_doubled(secret) + "');"@
}

/// What HMAC keys ask for.
pub open spec fn gcs_hmac_view(key: Option<Seq<char>>, secret: Option<Seq<char>>) -> StepView {
    match key {
        None => StepView::Nothing,
        Some(key) => match secret {
            None => StepView::Warn(
                "PQ_GCS_HMAC_KEY set without PQ_GCS_HMAC_SECRET — skipping GCS HMAC secret"@,
            ),
            Some(secret) => StepView::Create(seq![hmac_statement(key, secret)]),
        },
    }
}

/// The secret for `PQ_GCS_HMAC_KEY` and `PQ_GCS_HMAC_SECRET`.
pub fn gcs_hmac_step(key: &Option<String>, secret: &Option<String>) -> (r: SecretStep)
    ensures
        r@ == gcs_hmac_view(set_text(*key), set_text(*secret)),
{
    match set(key) {
        None => SecretStep::Nothing,
        Some(key) => match set(secret) {
            None => SecretStep::Warn(
                copy_of(
                    "PQ_GCS_HMAC_KEY set without PQ_GCS_HMAC_SECRET — skipping GCS HMAC secret",
                ),
            ),
            Some(secret) => create_one(
                cat5(
                    "CREATE OR REPLACE SECRET pq_gcs_hmac (TYPE GCS, KEY_ID '",
                    sql_escape(key).as_str(),
                    "', SECRET '",
                    sql_escape(secret).as_str(),
                    "');",
                ),
            ),
        },
    }
}

/// What a bearer token asks for: one of two spellings.
pub open spec fn gcs_bearer_view(token: Option<Seq<char>>) -> StepView {
    match token {
        None => StepView::Nothing,
        Some(token) => StepView::Create(
            seq![
                "CREATE OR REPLACE SECRET pq_gcs_bearer (TYPE GCS, PROVIDER OAUTH2, BEARER_TOKEN '"@
                    + quotes_doubled(token) + "');"@,
                "CREATE OR REPLACE SECRET pq_gcs_bearer (TYPE GCS, BEARER_TOKEN '"@
                    + quotes_doubled(token) + "');"@,
            ],
        ),
    }
}

/// The secret for `PQ_GCS_BEARER_TOKEN`.
pub fn gcs_bearer_step(token: &Option<String>) -> (r: SecretStep)
    ensures
        r@ == gcs_bearer_view(set_text(*token)),
{
    let ghost want = gcs_bearer_view(set_text(*token));
    match set(token) {
        None => SecretStep::Nothing,
        Some(token) => {
            let escaped = sql_escape(token);
            let mut sqls: Vec<String> = Vec::new();
            sqls.push(
                cat3(
                    "CREATE OR REPLACE SECRET pq_gcs_bearer (TYPE GCS, PROVIDER OAUTH2, BEARER_TOKEN '",
                    escaped.as_str(),
                    "');",
                ),
            );
            sqls.push(
                cat3(
                    "CREATE OR REPLACE SECRET pq_gcs_bearer (TYPE GCS, BEARER_TOKEN '",
                    escaped.as_str(),
                    "');",
                ),
            );
            assert(texts(sqls@) =~= want->Create_0);
            SecretStep::Create(sqls)
        },
    }
}

// ─── S3 ─────────────────────────────────────────────────────────────────────
/// The values of the variables that describe access to S3.
#[derive(Debug)]
pub struct S3Env {
    /// `AWS_ACCESS_KEY_ID`
    pub key_id: Option<String>,
    /// `AWS_SECRET_ACCESS_KEY`
    pub secret: Option<String>,
    /// `AWS_SESSION_TOKEN`
    pub session_token: Option<String>,
    /// `AWS_REGION`
    pub region: Option<String>,
    /// `AWS_DEFAULT_REGION`
    pub default_region: Option<String>,
    /// `AWS_ENDPOINT_URL_S3`
    pub endpoint: Option<String>,
}

/// A parameter with a text value.
pub open spec fn text_param(name: Seq<char>, value: Seq<char>) -> Seq<char> {
    name + " '"@ + quotes_doubled(value) + "'"@
}

/// An endpoint without its scheme and the slashes at its end.
pub open spec fn bare_endpoint(url: Seq<char>) -> Seq<char> {
    let host = match after_prefix(url, "https://"@) {
        Some(rest) => rest,
        None => match after_prefix(url, "http://"@) {
            Some(rest) => rest,
            None => url,
        },
    };
    without_trailing(host, '/')
}

/// The parameters that an endpoint gives. Plain HTTP has to be asked for.
pub open spec fn endpoint_params(url: Seq<char>) -> Seq<Seq<char>> {
    seq![text_param("ENDPOINT"@, bare_endpoint(url)), "URL_STYLE path"@] + if has_prefix(
        url,
        "http://"@,
    ) {
        seq!["USE_SSL false"@]
    } else {
        Seq::empty()
    }
}

/// The region, where one is set.
pub open spec fn region_of(env: S3Env) -> Option<Seq<char>> {
    match set_text(env.region) {
        Some(r) => Some(r),
        None => set_text(env.default_region),
    }
}

/// The parameter list of a text that may be missing.
pub open spec fn optional_param(name: Seq<char>, value: Option<Seq<char>>) -> Seq<Seq<char>> {
    match value {
        Some(v) => seq![text_param(name, v)],
        None => Seq::empty(),
    }
}

/// The parameters of the S3 secret, in order.
pub open spec fn s3_params(env: S3Env, key: Seq<char>, secret: Seq<char>) -> Seq<Seq<char>> {
    seq![text_param("KEY_ID"@, key), text_param("SECRET"@, secret)] + optional_param(
        "SESSION_TOKEN"@,
        set_text(env.session_token),
    ) + optional_param("REGION"@, region_of(env)) + match set_text(env.endpoint) {
        Some(url) => endpoint_params(url),
        None => Seq::empty(),
    }
}

/// What the S3 variables ask for. Without a key DuckDB looks for credentials
/// itself: profiles, credential files, single sign-on and instance roles.
pub open spec fn s3_view(env: S3Env) -> StepView {
    match set_text(env.key_id) {
        None => StepView::Create(
            seq!["CREATE OR REPLACE SECRET pq_s3 (TYPE S3, PROVIDER credential_chain);"@],
        ),
        Some(key) => match set_text(env.secret) {
            None => StepView::Warn(
                "AWS_ACCESS_KEY_ID set without AWS_SECRET_ACCESS_KEY — skipping S3 secret"@,
            ),
            Some(secret) => StepView::Create(
                seq![
                    "CREATE OR REPLACE SECRET pq_s3 (TYPE S3, "@ + joined(
                        s3_params(env, key, secret),
                        ", "@,
                    ) + ");"@,
                ],
            ),
        },
    }
}

fn push_param(params: &mut Vec<String>, name: &str, value: &str)
    ensures
        texts(final(params)@) == texts(old(params)@) + seq![text_param(name@, value@)],
{
    let escaped = sql_escape(value);
    let param = crate::text::cat4(name, " '", escaped.as_str(), "'");
    proof {
        crate::text::lemma_texts_push(params@, param);
        assert(texts(params@).push(param@) =~= texts(params@) + seq![param@]);
    }
    params.push(param);
}

fn push_plain(params: &mut Vec<String>, param: &str)
    ensures
        texts(final(params)@) == texts(old(params)@) + seq![param@],
{
    let param = copy_of(param);
    proof {
        crate::text::lemma_texts_push(params@, param);
        assert(texts(params@).push(param@) =~= texts(params@) + seq![param@]);
    }
    params.push(param);
}

fn endpoint_host(url: &str) -> (r: String)
    ensures
        r@ == bare_endpoint(url@),
{
    let host = match strip_prefix(url, "https://") {
        Some(rest) => rest,
        None => match strip_prefix(url, "http://") {
            Some(rest) => rest,
            None => copy_of(url),
        },
    };
    strip_trailing(host.as_str(), '/')
}

/// The secret for the `AWS_*` variables.
pub fn s3_step(env: &S3Env) -> (r: SecretStep)
    ensures
        r@ == s3_view(*env),
{
    let key = match set(&env.key_id) {
        Some(key) => key,
        None => {
            return create_one(
                copy_of("CREATE OR REPLACE SECRET pq_s3 (TYPE S3, PROVIDER credential_chain);"),
            );
        },
    };
    let secret = match set(&env.secret) {
        Some(secret) => secret,
        None => {
            return SecretStep::Warn(
                copy_of(
                    "AWS_ACCESS_KEY_ID set without AWS_SECRET_ACCESS_KEY — skipping S3 secret",
                ),
            );
        },
    };
    let mut params: Vec<String> = Vec::new();
    push_param(&mut params, "KEY_ID", key);
    push_param(&mut params, "SECRET", secret);
    assert(texts(params@) =~= seq![text_param("KEY_ID"@, key@), text_param("SECRET"@, secret@)]);
    let ghost first = texts(params@);
    match set(&env.session_token) {
        Some(token) => {
            push_param(&mut params, "SESSION_TOKEN", token);
        },
        None => {
            assert(first =~= first + Seq::empty());
        },
    }
    let ghost second = texts(params@);
    let region = match set(&env.region) {
        Some(region) => Some(region),
        None => set(&env.default_region),
    };
    match region {
        Some(region) => {
            push_param(&mut params, "REGION", region);
        },
        None => {
            assert(second =~= second + Seq::empty());
        },
    }
    let ghost third = texts(params@);
    match set(&env.endpoint) {
        Some(url) => {
            push_param(&mut params, "ENDPOINT", endpoint_host(url).as_str());
            push_plain(&mut params, "URL_STYLE path");
            if starts_with(url, "http://") {
                push_plain(&mut params, "USE_SSL false");
            }
            assert(texts(params@) =~= third + endpoint_params(url@));
        },
        None => {
            assert(third =~= third + Seq::empty());
        },
    }
    assert(texts(params@) == s3_params(*env, key@, secret@));
    create_one(
        cat3(
            "CREATE OR REPLACE SECRET pq_s3 (TYPE S3, ",
            join(&params, ", ").as_str(),
            ");",
        ),
    )
}

// ─── laws ───────────────────────────────────────────────────────────────────
/// A variable that is empty is as one that is not set.
pub proof fn empty_variables_are_not_set(s: String)
    ensures
        set_text(None) is None,
        s@.len() == 0 ==> set_text(Some(s)) is None,
        s@.len() > 0 ==> set_text(Some(s)) == Some(s@),
{
}

/// HMAC keys make a secret of both of them, each as a literal of its text. A key
/// without its secret is only warned about, and without a key nothing is done.
#[verifier::rlimit(50)]
pub proof fn hmac_keys_make_a_secret(key: Seq<char>, secret: Seq<char>)
    ensures
        gcs_hmac_view(Some(key), Some(secret)) == StepView::Create(
            seq![
                "CREATE OR REPLACE SECRET pq_gcs_hmac (TYPE GCS, KEY_ID "@ + ("'"@
                    + quotes_doubled(key) + "'"@) + ", SECRET "@ + ("'"@ + quotes_doubled(secret)
                    + "'"@) + ");"@,
            ],
        ),
        literal_text(quotes_doubled(key)) == Some(key),
        literal_text(quotes_doubled(secret)) == Some(secret),
        gcs_hmac_view(Some(key), None) == StepView::Warn(
            "PQ_GCS_HMAC_KEY set without PQ_GCS_HMAC_SECRET — skipping GCS HMAC secret"@,
        ),
        gcs_hmac_view(None, Some(secret)) == StepView::Nothing,
        gcs_hmac_view(None, None) == StepView::Nothing,
{
    escaped_text_reads_back(key);
    escaped_text_reads_back(secret);
    reveal_strlit("'");
    reveal_strlit("CREATE OR REPLACE SECRET pq_gcs_hmac (TYPE GCS, KEY_ID '");
    reveal_strlit("CREATE OR REPLACE SECRET pq_gcs_hmac (TYPE GCS, KEY_ID ");
    reveal_strlit("', SECRET '");
    reveal_strlit(", SECRET ");
    reveal_strlit("');");
    reveal_strlit(");");
    let k = quotes_doubled(key);
    let s = quotes_doubled(secret);
    let want = "CREATE OR REPLACE SECRET pq_gcs_hmac (TYPE GCS, KEY_ID "@ + ("'"@ + k + "'"@)
        + ", SECRET "@ + ("'"@ + s + "'"@) + ");"@;
    assert(hmac_statement(key, secret) =~= want);
}

/// A bearer token makes a secret of it, tried with and without a provider.
#[verifier::rlimit(50)]
pub proof fn bearer_tokens_make_a_secret(token: Seq<char>)
    ensures
        gcs_bearer_view(None) == StepView::Nothing,
        gcs_bearer_view(Some(token)) == StepView::Create(
            seq![
                "CREATE OR REPLACE SECRET pq_gcs_bearer (TYPE GCS, PROVIDER OAUTH2, BEARER_TOKEN "@
                    + ("'"@ + quotes_doubled(token) + "'"@) + ");"@,
                "CREATE OR REPLACE SECRET pq_gcs_bearer (TYPE GCS, BEARER_TOKEN "@ + ("'"@
                    + quotes_doubled(token) + "'"@) + ");"@,
            ],
        ),
        literal_text(quotes_doubled(token)) == Some(token),
{
    escaped_text_reads_back(token);
    reveal_strlit("'");
    reveal_strlit("');");
    reveal_strlit(");");
    reveal_strlit(
        "CREATE OR REPLACE SECRET pq_gcs_bearer (TYPE GCS, PROVIDER OAUTH2, BEARER_TOKEN '",
    );
    reveal_strlit(
        "CREATE OR REPLACE SECRET pq_gcs_bearer (TYPE GCS, PROVIDER OAUTH2, BEARER_TOKEN ",
    );
    reveal_strlit("CREATE OR REPLACE SECRET pq_gcs_bearer (TYPE GCS, BEARER_TOKEN '");
    reveal_strlit("CREATE OR REPLACE SECRET pq_gcs_bearer (TYPE GCS, BEARER_TOKEN ");
    let t = quotes_doubled(token);
    let a = "CREATE OR REPLACE SECRET pq_gcs_bearer (TYPE GCS, PROVIDER OAUTH2, BEARER_TOKEN '"@ + t
        + "');"@;
    let b = "CREATE OR REPLACE SECRET pq_gcs_bearer (TYPE GCS, BEARER_TOKEN '"@ + t + "');"@;
    assert(a
        =~= "CREATE OR REPLACE SECRET pq_gcs_bearer (TYPE GCS, PROVIDER OAUTH2, BEARER_TOKEN "@ + (
    "'"@ + t + "'"@) + ");"@);
    assert(b =~= "CREATE OR REPLACE SECRET pq_gcs_bearer (TYPE GCS, BEARER_TOKEN "@ + ("'"@ + t
        + "'"@) + ");"@);
}

/// Without a key, S3 access is left to DuckDB's own search for credentials; a key
/// without its secret is only warned about; both make a secret of all that is set.
pub proof fn s3_access_goes_by_the_key(env: S3Env)
    ensures
        set_text(env.key_id) is None ==> s3_view(env) == StepView::Create(
            seq!["CREATE OR REPLACE SECRET pq_s3 (TYPE S3, PROVIDER credential_chain);"@],
        ),
        set_text(env.key_id) is Some && set_text(env.secret) is None ==> s3_view(env)
            == StepView::Warn(
            "AWS_ACCESS_KEY_ID set without AWS_SECRET_ACCESS_KEY — skipping S3 secret"@,
        ),
        set_text(env.key_id) matches Some(key) ==> (set_text(env.secret) matches Some(secret)
            ==> s3_view(env) == StepView::Create(
            seq![
                "CREATE OR REPLACE SECRET pq_s3 (TYPE S3, "@ + joined(
                    s3_params(env, key, secret),
                    ", "@,
                ) + ");"@,
            ],
        )),
{
}

/// The parameters of the S3 secret: the keys, then the token, the region and the
/// endpoint where they are set. `AWS_REGION` goes before `AWS_DEFAULT_REGION`.
#[verifier::rlimit(50)]
pub proof fn s3_parameters_are_those_set(env: S3Env, key: Seq<char>, secret: Seq<char>)
    ensures
        ({
            let token = set_text(env.session_token);
            let region = if set_text(env.region) is Some {
                set_text(env.region)
            } else {
                set_text(env.default_region)
            };
            let keys = seq![
                "KEY_ID "@ + ("'"@ + quotes_doubled(key) + "'"@),
                "SECRET "@ + ("'"@ + quotes_doubled(secret) + "'"@),
            ];
            let tokens = if token is Some {
                seq!["SESSION_TOKEN "@ + ("'"@ + quotes_doubled(token->0) + "'"@)]
            } else {
                Seq::empty()
            };
            let regions = if region is Some {
                seq!["REGION "@ + ("'"@ + quotes_doubled(region->0) + "'"@)]
            } else {
                Seq::empty()
            };
            let endpoints = if set_text(env.endpoint) is Some {
                endpoint_params(set_text(env.endpoint)->0)
            } else {
                Seq::empty()
            };
            s3_params(env, key, secret) == keys + tokens + regions + endpoints
        }),
{
    lemma_param_text("KEY_ID"@, key);
    lemma_param_text("SECRET"@, secret);
    if let Some(t) = set_text(env.session_token) {
        lemma_param_text("SESSION_TOKEN"@, t);
    }
    if let Some(r) = region_of(env) {
        lemma_param_text("REGION"@, r);
    }
    reveal_strlit("KEY_ID");
    reveal_strlit("KEY_ID ");
    reveal_strlit("SECRET");
    reveal_strlit("SECRET ");
    reveal_strlit("SESSION_TOKEN");
    reveal_strlit("SESSION_TOKEN ");
    reveal_strlit("REGION");
    reveal_strlit("REGION ");
    reveal_strlit(" ");
    assert("KEY_ID"@ + " "@ =~= "KEY_ID "@);
    assert("SECRET"@ + " "@ =~= "SECRET "@);
    assert("SESSION_TOKEN"@ + " "@ =~= "SESSION_TOKEN "@);
    assert("REGION"@ + " "@ =~= "REGION "@);
}

proof fn lemma_param_text(name: Seq<char>, value: Seq<char>)
    ensures
        text_param(name, value) == name + " "@ + ("'"@ + quotes_doubled(value) + "'"@),
{
    reveal_strlit(" '");
    reveal_strlit("'");
    reveal_strlit(" ");
    assert(name + " '"@ + quotes_doubled(value) + "'"@ =~= name + " "@ + ("'"@ + quotes_doubled(
        value,
    ) + "'"@));
}

/// An endpoint is given without its scheme and the slashes behind it, with paths in
/// place of host names; plain HTTP switches encryption off.
#[verifier::rlimit(50)]
pub proof fn endpoints_are_given_bare(host: Seq<char>)
    requires
        host.len() > 0,
        host[0] != 'h',
        host[host.len() - 1] != '/',
    ensures
        ({
            let endpoint = "ENDPOINT "@ + ("'"@ + quotes_doubled(host) + "'"@);
            &&& endpoint_params("https://"@ + host) == seq![endpoint, "URL_STYLE path"@]
            &&& endpoint_params("https://"@ + host + "/"@) == seq![endpoint, "URL_STYLE path"@]
            &&& endpoint_params("http://"@ + host) == seq![
                endpoint,
                "URL_STYLE path"@,
                "USE_SSL false"@,
            ]
            &&& endpoint_params(host) == seq![endpoint, "URL_STYLE path"@]
        }),
{
    lemma_param_text("ENDPOINT"@, host);
    reveal_strlit("ENDPOINT");
    reveal_strlit("ENDPOINT ");
    reveal_strlit(" ");
    assert("ENDPOINT"@ + " "@ =~= "ENDPOINT "@);
    reveal_strlit("https://");
    reveal_strlit("http://");
    reveal_strlit("/");
    let a = "https://"@ + host;
    let b = "http://"@ + host;
    let c = "https://"@ + host + "/"@;
    assert(a.subrange(0, 8) =~= "https://"@);
    assert(b.subrange(0, 7) =~= "http://"@);
    assert(c.subrange(0, 8) =~= "https://"@);
    assert(a.skip(8) =~= host);
    assert(b.skip(7) =~= host);
    assert(c.skip(8) =~= host + "/"@);
    if has_prefix(a, "http://"@) {
        assert(a.subrange(0, 7)[4] == ':');
        assert(a[4] == 's');
    }
    if has_prefix(c, "http://"@) {
        assert(c.subrange(0, 7)[4] == ':');
        assert(c[4] == 's');
    }
    if has_prefix(b, "https://"@) {
        assert(b.subrange(0, 8)[4] == 's');
        assert(b[4] == ':');
    }
    if has_prefix(host, "https://"@) {
        assert(host.subrange(0, 8)[0] == 'h');
    }
    if has_prefix(host, "http://"@) {
        assert(host.subrange(0, 7)[0] == 'h');
    }
    assert(host.last() == host[host.len() - 1]);
    assert(without_trailing(host, '/') == host);
    assert((host + "/"@).last() == '/');
    assert((host + "/"@).drop_last() =~= host);
    assert(without_trailing(host + "/"@, '/') == host);
    let two = seq![text_param("ENDPOINT"@, host), "URL_STYLE path"@];
    assert(two + Seq::<Seq<char>>::empty() =~= two);
    assert(endpoint_params(a) =~= two);
    assert(endpoint_params(c) =~= two);
    assert(endpoint_params(host) =~= two);
    assert(endpoint_params(b) =~= two.push("USE_SSL false"@));
    assert(two.push("USE_SSL false"@) =~= seq![two[0], two[1], "USE_SSL false"@]);
}

} // verus!
