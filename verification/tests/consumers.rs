use dirwatch::dashboard::{get_cached, set_cached, TtlCache};
use dirwatch::emit::TimeParts;
use dirwatch::errors::WatchError;
use dirwatch::models::policy_document::{generate_document, AuthorizerContext};
use dirwatch::recommend::six_hour_bucket_tag;

#[test]
fn policy_document_grants_invoke() {
    let doc = generate_document("user-1", None, "Allow", "arn:resource/*");
    assert_eq!(doc.principalId, "user-1");
    assert_eq!(doc.policyDocument.Version, "2012-10-17");
    assert_eq!(doc.policyDocument.Statement.len(), 1);
    assert_eq!(doc.policyDocument.Statement[0].Action, "execute-api:Invoke");
    assert_eq!(doc.policyDocument.Statement[0].Effect, "Allow");
    assert_eq!(doc.policyDocument.Statement[0].Resource, "arn:resource/*");
    assert!(doc.context.is_none());

    let ctx = AuthorizerContext { Set_Cookie: String::from("token=abc") };
    let doc = generate_document("user-2", Some(ctx), "Deny", "arn:other");
    assert_eq!(doc.policyDocument.Statement[0].Effect, "Deny");
    assert_eq!(doc.context.unwrap().Set_Cookie, "token=abc");
}

#[test]
fn release_year_as_number() {
    assert_eq!(
        dirwatch::recommend::year_from_release_date(&Some(String::from("1999-03-01"))),
        Some(1999)
    );
    assert_eq!(
        dirwatch::recommend::year_from_release_date(&Some(String::from("2024"))),
        Some(2024)
    );
    assert_eq!(
        dirwatch::recommend::year_from_release_date(&Some(String::from("19x9-03-01"))),
        None
    );
    assert_eq!(dirwatch::recommend::year_from_release_date(&Some(String::from("202"))), None);
    assert_eq!(dirwatch::recommend::year_from_release_date(&Some(String::from(""))), None);
    assert_eq!(dirwatch::recommend::year_from_release_date(&None), None);
}

#[test]
fn release_year_as_string() {
    assert_eq!(
        dirwatch::dashboard::year_from_release_date(&Some(String::from("2024-05-06"))),
        Some(String::from("2024"))
    );
    assert_eq!(dirwatch::dashboard::year_from_release_date(&Some(String::from("202"))), None);
    assert_eq!(dirwatch::dashboard::year_from_release_date(&None), None);
}

#[test]
fn bucket_tag_rounds_down_to_six_hours() {
    let t = |hour: u32| TimeParts { year: 2025, month: 9, day: 29, hour, minute: 14, second: 3 };
    assert_eq!(six_hour_bucket_tag(&t(0)), "2025-09-29T00Z");
    assert_eq!(six_hour_bucket_tag(&t(5)), "2025-09-29T00Z");
    assert_eq!(six_hour_bucket_tag(&t(6)), "2025-09-29T06Z");
    assert_eq!(six_hour_bucket_tag(&t(13)), "2025-09-29T12Z");
    assert_eq!(six_hour_bucket_tag(&t(23)), "2025-09-29T18Z");
}

#[test]
fn cache_hits_only_while_fresh() {
    let mut cache: TtlCache<bool> = TtlCache::new();
    assert_eq!(get_cached(&cache, 603, 0, 3000), None);
    set_cached(&mut cache, 603, 1000, Some(true));
    // fresh: stored at 1000, looked up at 2000 with a 3000 ms window
    assert_eq!(get_cached(&cache, 603, 2000, 3000), Some(Some(true)));
    // stale: 5000 - 1000 >= 3000
    assert_eq!(get_cached(&cache, 603, 5000, 3000), None);
    // a cached miss is a hit that carries no value
    set_cached(&mut cache, 604, 1000, None);
    assert_eq!(get_cached(&cache, 604, 1500, 3000), Some(None));
    // overwriting restarts the freshness window and leaves other keys alone
    set_cached(&mut cache, 603, 6000, Some(false));
    assert_eq!(get_cached(&cache, 603, 7000, 3000), Some(Some(false)));
    assert_eq!(get_cached(&cache, 604, 1500, 3000), Some(None));
}

#[test]
fn error_taxonomy() {
    assert!(WatchError::NotFound.is_fatal());
    assert!(WatchError::WatcherInitFailed.is_fatal());
    assert!(!WatchError::RawEventError.is_fatal());
    assert!(!WatchError::PublishFailed.is_fatal());
    assert_eq!(WatchError::NotFound.message(), "watch path does not exist");
    assert_eq!(
        WatchError::WatcherInitFailed.message(),
        "could not establish the native watch subscription"
    );
    assert_eq!(
        WatchError::RawEventError.message(),
        "the native source reported an event error"
    );
    assert_eq!(
        WatchError::PublishFailed.message(),
        "a consumer failed to deliver a notification"
    );
}

#[test]
fn consumer_shapes_hold_their_fields() {
    let collection = dirwatch::models::movie_collection::MovieCollection {
        name: String::from("Classics"),
        uploaded_at: String::from("2024-05-06"),
        magnet_url: String::from("magnet:?xt=urn:btih:abc"),
        size_string: String::from("1.4 GB"),
        size_bytes: 1_400_000_000,
    };
    assert_eq!(collection.size_bytes, 1_400_000_000);

    let post = dirwatch::models::reddit_image_post::RedditImagePost {
        name: String::from("skyline.jpg"),
        url: String::from("https://example.test/skyline.jpg"),
        thumbnail_url: String::from("https://example.test/t/skyline.jpg"),
    };
    assert_eq!(post.name, "skyline.jpg");

    let image = dirwatch::models::dynamo_image::DynamoImage {
        blurhash: String::from("LEHV6nWB2yk8"),
        created_at: 10,
        media_type: String::from("image/jpeg"),
        name: post.name.clone(),
        pk: String::from("IMAGE"),
        sk: String::from("skyline.jpg"),
        thumbnail_url: post.thumbnail_url.clone(),
        updated_at: 12,
        url: post.url.clone(),
    };
    let body = dirwatch::models::http_response::Response {
        statusCode: 200,
        body: String::from("ok"),
        multiValueHeaders: None,
        headers: Some(dirwatch::models::http_response::ResponseHeaders {
            Set_Cookie: vec![String::from("token=xyz")],
        }),
    };
    assert_eq!(body.body_text(), "ok");
    assert_eq!(image.updated_at, 12);

    let reply = dirwatch::clients::openai::ChatResponse {
        choices: vec![dirwatch::clients::openai::Choice {
            message: dirwatch::clients::openai::MessageContent {
                role: String::from("assistant"),
                content: String::from("{}"),
            },
        }],
    };
    assert_eq!(reply.choices[0].message.role, "assistant");

    let genre = dirwatch::clients::tmdb::Genre { id: 18, name: String::from("Drama") };
    assert_eq!(genre.id, 18);

    let search = dirwatch::models::image_search_dto::ImageSearchDto {
        limit: Some(String::from("25")),
        start_key: None,
        contains: Some(String::from("sky")),
    };
    assert!(search.start_key.is_none());
}
