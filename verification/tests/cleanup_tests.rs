use search_engine::cleanup::{split_string, split_string_groups};

fn tokenize(s: &str) -> Vec<String> {
    split_string(s.to_string())
}

#[test]
fn keeps_iam_action() {
    let toks = tokenize("s3:GetObject");
    assert!(toks.contains(&"s3:getobject".to_string()));
}

#[test]
fn keeps_arn() {
    assert_eq!(tokenize("arn:aws:s3:::my-bucket"), vec!["arn:aws:s3:::my-bucket"]);
}

#[test]
fn keeps_instance_type() {
    assert_eq!(tokenize("t2.micro"), vec!["t2.micro"]);
}

#[test]
fn keeps_hyphenated_id() {
    assert_eq!(tokenize("vpc-a1b2c3d4"), vec!["vpc-a1b2c3d4"]);
}

#[test]
fn keeps_region_code() {
    assert_eq!(tokenize("us-east-1"), vec!["us-east-1"]);
}

#[test]
fn keeps_snake_case_identifier() {
    let toks = tokenize("API_AssociateEncryptionConfig");
    assert!(toks.contains(&"api_associateencryptionconfig".to_string()));
    assert!(toks.contains(&"api".to_string()));
    assert!(toks.contains(&"associate".to_string()));
    assert!(toks.contains(&"encryption".to_string()));
    assert!(toks.contains(&"config".to_string()));
}

#[test]
fn keeps_http_version() {
    assert_eq!(tokenize("HTTP/1.1"), vec!["http/1.1"]);
}

#[test]
fn keeps_content_type() {
    assert_eq!(tokenize("application/json"), vec!["application/json"]);
}

#[test]
fn keeps_url_path() {
    assert_eq!(
        tokenize("/2013-04-01/trafficpolicyinstances"),
        vec!["/2013-04-01/trafficpolicyinstances"]
    );
}

#[test]
fn keeps_email() {
    assert_eq!(tokenize("noreply@example.com"), vec!["noreply@example.com"]);
}

#[test]
fn keeps_iam_wildcard() {
    assert_eq!(tokenize("s3:Get*"), vec!["s3:get*"]);
}

#[test]
fn keeps_contraction_straight() {
    assert_eq!(tokenize("don't"), vec!["don't"]);
}

#[test]
fn keeps_contraction_curly() {
    assert_eq!(tokenize("don\u{2019}t"), vec!["don't"]);
}

#[test]
fn splits_on_parens() {
    let toks = tokenize("CheckDomainTransferability(string)");
    assert!(toks.contains(&"checkdomaintransferability".to_string()));
    assert!(toks.contains(&"string".to_string()));
}

#[test]
fn splits_on_comma() {
    assert_eq!(tokenize("a, b, c"), vec!["a", "b", "c"]);
}

#[test]
fn strips_cause_label_correctly() {
    let tokens = tokenize("Cause: The specified cluster");
    assert!(tokens.contains(&"cause".to_string()));
    assert!(tokens.contains(&"the".to_string()));
    assert!(tokens.contains(&"specified".to_string()));
    assert!(tokens.contains(&"cluster".to_string()));
}

#[test]
fn handles_resource_cpu() {
    assert_eq!(tokenize("RESOURCE:CPU"), vec!["resource:cpu"]);
}

#[test]
fn handles_cli_command() {
    assert_eq!(
        tokenize("aws cloudfront update-distribution"),
        vec!["aws", "cloudfront", "update-distribution"]
    );
}

#[test]
fn handles_empty_string() {
    let v: Vec<String> = Vec::new();
    assert_eq!(tokenize(""), v);
}

#[test]
fn handles_only_punctuation() {
    let v: Vec<String> = Vec::new();
    assert_eq!(tokenize("!!! ??? ,,,"), v);
}

#[test]
fn drops_oversized_tokens() {
    let blob = "a".repeat(100);
    assert!(tokenize(&blob).is_empty());
}

#[test]
fn keeps_realistic_long_arn() {
    let arn = "arn:aws:iam::123456789012:role/MyVeryLongRoleName";
    assert!(arn.len() <= 64);
    assert!(tokenize(arn).contains(&arn.to_lowercase()));
}

#[test]
fn unicode_superscript_excluded_from_tokens() {
    assert_eq!(tokenize("messagesdeleted¹"), vec!["messagesdeleted"]);
}

#[test]
fn unicode_letters_excluded_from_tokens() {
    let toks = tokenize("café naïve");
    for t in &toks {
        assert!(t.chars().all(|c| c.is_ascii()));
    }
}

#[test]
fn normalizes_fi_ligature() {
    assert_eq!(tokenize("signiﬁcant"), vec!["significant"]);
}

#[test]
fn normalizes_fl_ligature() {
    assert_eq!(tokenize("ﬂow"), vec!["flow"]);
}

#[test]
fn normalizes_ffi_ligature() {
    assert_eq!(tokenize("oﬃce"), vec!["office"]);
}

#[test]
fn pure_punctuation_runs_get_dropped() {
    assert!(tokenize(":::").is_empty());
    assert!(tokenize("---").is_empty());
    assert!(tokenize("...").is_empty());
    assert!(tokenize("@@@").is_empty());
}

#[test]
fn pure_wildcard_or_slash_runs_survive_as_noise() {
    assert_eq!(tokenize("***"), vec!["***"]);
    assert_eq!(tokenize("///"), vec!["///"]);
}

#[test]
fn camelcase_splits_simple() {
    let toks = tokenize("RunInstances");
    assert!(toks.contains(&"runinstances".to_string()));
    assert!(toks.contains(&"run".to_string()));
    assert!(toks.contains(&"instances".to_string()));
}

#[test]
fn camelcase_splits_acronym() {
    let toks = tokenize("getXMLData");
    assert!(toks.contains(&"getxmldata".to_string()));
    assert!(toks.contains(&"get".to_string()));
    assert!(toks.contains(&"xml".to_string()));
    assert!(toks.contains(&"data".to_string()));
}

#[test]
fn underscore_and_camelcase_combined() {
    let toks = tokenize("API_RunInstances");
    assert!(toks.contains(&"api_runinstances".to_string()));
    assert!(toks.contains(&"api".to_string()));
    assert!(toks.contains(&"runinstances".to_string()));
    assert!(toks.contains(&"run".to_string()));
    assert!(toks.contains(&"instances".to_string()));
}

#[test]
fn single_word_no_split() {
    assert_eq!(tokenize("bucket"), vec!["bucket"]);
}

#[test]
fn all_caps_no_split() {
    assert_eq!(tokenize("API"), vec!["api"]);
}

// Compound tokens: the whole token comes first, then its pieces, in order.
#[test]
fn compound_order_is_whole_then_pieces() {
    assert_eq!(
        tokenize("API_RunInstances"),
        vec!["api_runinstances", "api", "runinstances", "run", "instances"]
    );
}

// A token of exactly 64 characters is kept; one of 65 is dropped.
#[test]
fn token_length_limit_is_inclusive() {
    let ok = "b".repeat(64);
    let too_long = "b".repeat(65);
    assert_eq!(tokenize(&ok), vec![ok.clone()]);
    assert!(tokenize(&too_long).is_empty());
}

// Every token is non-empty, at most 64 characters and free of ASCII capitals.
#[test]
fn tokens_are_short_lowercase_and_nonempty() {
    let toks = tokenize("Hello, World! RunInstances s3:GetObject café x");
    assert!(!toks.is_empty());
    for t in &toks {
        assert!(!t.is_empty());
        assert!(t.chars().count() <= 64);
        assert!(!t.chars().any(|c| c.is_ascii_uppercase()));
    }
}

// Pieces of a compound token share the group of the whole token.
#[test]
fn groups_put_pieces_with_their_token() {
    let groups = split_string_groups("go RunInstances now".to_string());
    assert_eq!(
        groups,
        vec![
            vec!["go".to_string()],
            vec!["runinstances".to_string(), "run".to_string(), "instances".to_string()],
            vec!["now".to_string()],
        ]
    );
    let flat: Vec<String> = groups.into_iter().flatten().collect();
    assert_eq!(flat, tokenize("go RunInstances now"));
}
